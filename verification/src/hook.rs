//! Points at which the embedding program is asked before storage is written.

use vstd::prelude::*;

use crate::error::MnemeError;

verus! {

/// A write or a synchronisation that is about to happen.
pub enum IoAction<'a> {
    Write { file: &'a str, offset: u64, len: usize },
    Fsync { file: &'a str },
}

/// A hook of the embedding program. It may refuse an action by returning an error; what it decides
/// is its own.
pub trait FsyncHook {
    fn before(&self, action: IoAction<'_>) -> Result<(), MnemeError>;
}

/// The hook of a program that has none: nothing is refused.
pub struct NoHook;

impl FsyncHook for NoHook {
    fn before(&self, action: IoAction<'_>) -> (result: Result<(), MnemeError>)
        ensures
            result is Ok,
    {
        Ok(())
    }
}

/// Whether a hook may let an action through: there is none, or it may answer so.
pub open spec fn action_passes<H: FsyncHook>(hook: Option<&H>, action: IoAction<'_>) -> bool {
    hook matches Some(asked) ==> exists|answer: Result<(), MnemeError>|
        answer is Ok && #[trigger] call_ensures(H::before, (asked, action), answer)
}

/// Whether a hook may let a write through.
pub open spec fn write_passes<H: FsyncHook>(
    hook: Option<&H>,
    path: Seq<char>,
    offset: u64,
    len: nat,
) -> bool {
    exists|file: &str, bytes: usize|
        #![trigger action_passes(hook, IoAction::Write { file, offset, len: bytes })]
        file@ == path && bytes == len && action_passes(
            hook,
            IoAction::Write { file, offset, len: bytes },
        )
}

/// Whether a hook may let a synchronisation through.
pub open spec fn fsync_passes<H: FsyncHook>(hook: Option<&H>, path: Seq<char>) -> bool {
    exists|file: &str|
        #![trigger action_passes(hook, IoAction::Fsync { file })]
        file@ == path && action_passes(hook, IoAction::Fsync { file })
}

/// Whether a hook may refuse a write with this error.
pub open spec fn refuses_write<H: FsyncHook>(
    hook: Option<&H>,
    path: Seq<char>,
    offset: u64,
    len: nat,
    error: MnemeError,
) -> bool {
    hook matches Some(asked) && exists|file: &str, bytes: usize|
        #![trigger call_ensures(
            H::before,
            (asked, IoAction::Write { file, offset, len: bytes }),
            Err::<(), MnemeError>(error),
        )]
        file@ == path && bytes == len && call_ensures(
            H::before,
            (asked, IoAction::Write { file, offset, len: bytes }),
            Err::<(), MnemeError>(error),
        )
}

/// Whether a hook may refuse a synchronisation with this error.
pub open spec fn refuses_fsync<H: FsyncHook>(
    hook: Option<&H>,
    path: Seq<char>,
    error: MnemeError,
) -> bool {
    hook matches Some(asked) && exists|file: &str|
        #![trigger call_ensures(
            H::before,
            (asked, IoAction::Fsync { file }),
            Err::<(), MnemeError>(error),
        )]
        file@ == path && call_ensures(
            H::before,
            (asked, IoAction::Fsync { file }),
            Err::<(), MnemeError>(error),
        )
}

/// Asks the hook, where there is one, and hands on what it decides about the action.
pub fn ask<H: FsyncHook>(hook: Option<&H>, action: IoAction<'_>) -> (result: Result<(), MnemeError>)
    ensures
        hook is None ==> result is Ok,
        hook matches Some(asked) ==> call_ensures(H::before, (asked, action), result),
        result is Ok ==> action_passes(hook, action),
{
    match hook {
        Some(hook) => hook.before(action),
        None => Ok(()),
    }
}

/// Asks the hook before a write.
pub fn ask_write<H: FsyncHook>(hook: Option<&H>, file: &str, offset: u64, len: usize) -> (result:
    Result<(), MnemeError>)
    ensures
        hook is None ==> result is Ok,
        result is Ok ==> write_passes(hook, file@, offset, len as nat),
        result matches Err(error) ==> refuses_write(hook, file@, offset, len as nat, error),
{
    let result = ask(hook, IoAction::Write { file, offset, len });
    assert(result is Ok ==> action_passes(hook, IoAction::Write { file, offset, len }));
    result
}

/// Asks the hook before a synchronisation.
pub fn ask_fsync<H: FsyncHook>(hook: Option<&H>, file: &str) -> (result: Result<(), MnemeError>)
    ensures
        hook is None ==> result is Ok,
        result is Ok ==> fsync_passes(hook, file@),
        result matches Err(error) ==> refuses_fsync(hook, file@, error),
{
    let result = ask(hook, IoAction::Fsync { file });
    assert(result is Ok ==> action_passes(hook, IoAction::Fsync { file }));
    result
}

} // verus!
