//! Stable ordering of items.

use vstd::prelude::*;

use crate::text::{lemma_text_order, lemma_text_transitive, text_less, text_lt};

verus! {

/// A type whose values have a total order, in which distinct values may rank the same.
pub trait Ordered: Sized {
    /// Whether `self` ranks at most as high as `other`.
    spec fn leq(&self, other: &Self) -> bool;

    proof fn leq_total(a: &Self, b: &Self)
        ensures
            a.leq(b) || b.leq(a),
    ;

    proof fn leq_transitive(a: &Self, b: &Self, c: &Self)
        requires
            a.leq(b),
            b.leq(c),
        ensures
            a.leq(c),
    ;

    fn at_most(&self, other: &Self) -> (result: bool)
        ensures
            result == self.leq(other),
    ;
}

impl Ordered for String {
    open spec fn leq(&self, other: &Self) -> bool {
        !text_lt(other@, self@)
    }

    proof fn leq_total(a: &Self, b: &Self) {
        lemma_text_order(a@, b@);
    }

    proof fn leq_transitive(a: &Self, b: &Self, c: &Self) {
        lemma_text_transitive(a@, b@, c@);
    }

    fn at_most(&self, other: &Self) -> (result: bool) {
        !text_less(other.as_str(), self.as_str())
    }
}

impl Ordered for u64 {
    open spec fn leq(&self, other: &Self) -> bool {
        *self <= *other
    }

    proof fn leq_total(a: &Self, b: &Self) {
    }

    proof fn leq_transitive(a: &Self, b: &Self, c: &Self) {
    }

    fn at_most(&self, other: &Self) -> (result: bool) {
        *self <= *other
    }
}

/// Whether the item at `a` comes before the item at `b` in the stable order: it ranks lower,
/// or it ranks the same and stands further ahead.
pub open spec fn comes_before<T: Ordered>(items: Seq<T>, a: int, b: int) -> bool {
    items[a].leq(&items[b]) && (a < b || !items[b].leq(&items[a]))
}

/// Whether `positions` lists positions of `items` from `lo` up to `hi`, each once, in the stable
/// order.
pub open spec fn is_ordered_run<T: Ordered>(
    items: Seq<T>,
    positions: Seq<usize>,
    lo: int,
    hi: int,
) -> bool {
    &&& positions.len() == hi - lo
    &&& forall|i: int| 0 <= i < positions.len() ==> lo <= #[trigger] positions[i] < hi
    &&& forall|i: int, j: int|
        0 <= i < j < positions.len() ==> comes_before(
            items,
            #[trigger] positions[i] as int,
            #[trigger] positions[j] as int,
        )
}

/// Whether `positions` lists every position of `items` once, in the stable order.
pub open spec fn is_stable_order<T: Ordered>(items: Seq<T>, positions: Seq<usize>) -> bool {
    is_ordered_run(items, positions, 0, items.len() as int)
}

proof fn lemma_before_transitive<T: Ordered>(items: Seq<T>, a: int, b: int, c: int)
    requires
        comes_before(items, a, b),
        comes_before(items, b, c),
    ensures
        comes_before(items, a, c),
{
    T::leq_transitive(&items[a], &items[b], &items[c]);
    if !(a < c) && items[c].leq(&items[a]) {
        if a < b {
            T::leq_transitive(&items[c], &items[a], &items[b]);
        } else {
            T::leq_transitive(&items[b], &items[c], &items[a]);
        }
    }
}

/// Merges two neighbouring ordered runs.
fn merge_runs<T: Ordered>(
    items: &Vec<T>,
    left: &Vec<usize>,
    right: &Vec<usize>,
    Ghost(lo): Ghost<int>,
    Ghost(mid): Ghost<int>,
    Ghost(hi): Ghost<int>,
) -> (merged: Vec<usize>)
    requires
        0 <= lo <= mid <= hi <= items.len(),
        is_ordered_run(items@, left@, lo, mid),
        is_ordered_run(items@, right@, mid, hi),
    ensures
        is_ordered_run(items@, merged@, lo, hi),
{
    let mut merged: Vec<usize> = Vec::new();
    let mut i: usize = 0;
    let mut j: usize = 0;
    while i < left.len() || j < right.len()
        invariant
            0 <= lo <= mid <= hi <= items.len(),
            is_ordered_run(items@, left@, lo, mid),
            is_ordered_run(items@, right@, mid, hi),
            i <= left.len(),
            j <= right.len(),
            merged.len() == i + j,
            forall|k: int| 0 <= k < merged.len() ==> lo <= #[trigger] merged[k] < hi,
            forall|k: int, l: int|
                0 <= k < l < merged.len() ==> comes_before(
                    items@,
                    #[trigger] merged[k] as int,
                    #[trigger] merged[l] as int,
                ),
            forall|k: int, l: int|
                0 <= k < merged.len() && i <= l < left.len() ==> comes_before(
                    items@,
                    #[trigger] merged[k] as int,
                    #[trigger] left[l] as int,
                ),
            forall|k: int, l: int|
                0 <= k < merged.len() && j <= l < right.len() ==> comes_before(
                    items@,
                    #[trigger] merged[k] as int,
                    #[trigger] right[l] as int,
                ),
        decreases left.len() + right.len() - i - j,
    {
        let take_left: bool = if i == left.len() {
            false
        } else if j == right.len() {
            true
        } else {
            items[left[i]].at_most(&items[right[j]])
        };
        let ghost before = merged@;
        if take_left {
            proof {
                if j < right.len() {
                    assert(comes_before(items@, left[i as int] as int, right[j as int] as int));
                    assert forall|l: int| j <= l < right.len() implies comes_before(
                        items@,
                        left[i as int] as int,
                        #[trigger] right[l] as int,
                    ) by {
                        if l > j {
                            lemma_before_transitive(
                                items@,
                                left[i as int] as int,
                                right[j as int] as int,
                                right[l] as int,
                            );
                        }
                    }
                }
            }
            merged.push(left[i]);
            i = i + 1;
        } else {
            proof {
                if i < left.len() {
                    T::leq_total(&items@[left[i as int] as int], &items@[right[j as int] as int]);
                    assert(comes_before(items@, right[j as int] as int, left[i as int] as int));
                    assert forall|l: int| i <= l < left.len() implies comes_before(
                        items@,
                        right[j as int] as int,
                        #[trigger] left[l] as int,
                    ) by {
                        if l > i {
                            lemma_before_transitive(
                                items@,
                                right[j as int] as int,
                                left[i as int] as int,
                                left[l] as int,
                            );
                        }
                    }
                }
            }
            merged.push(right[j]);
            j = j + 1;
        }
        assert(forall|k: int| 0 <= k < before.len() ==> merged[k] == before[k]);
    }
    merged
}

fn order_range<T: Ordered>(items: &Vec<T>, lo: usize, hi: usize) -> (positions: Vec<usize>)
    requires
        lo <= hi <= items.len(),
    ensures
        is_ordered_run(items@, positions@, lo as int, hi as int),
    decreases hi - lo,
{
    let mut positions: Vec<usize> = Vec::new();
    if hi - lo == 0 {
        return positions;
    }
    if hi - lo == 1 {
        positions.push(lo);
        return positions;
    }
    let mid: usize = lo + (hi - lo) / 2;
    let left = order_range(items, lo, mid);
    let right = order_range(items, mid, hi);
    merge_runs(
        items,
        &left,
        &right,
        Ghost(lo as int),
        Ghost(mid as int),
        Ghost(hi as int),
    )
}

/// The positions of `items` in ascending order; items of one rank keep their order.
pub fn stable_order<T: Ordered>(items: &Vec<T>) -> (positions: Vec<usize>)
    ensures
        is_stable_order(items@, positions@),
{
    order_range(items, 0, items.len())
}

/// A stable order leaves no position out.
pub proof fn stable_order_covers<T: Ordered>(items: Seq<T>, positions: Seq<usize>, at: int)
    requires
        is_stable_order(items, positions),
        0 <= at < items.len(),
    ensures
        exists|i: int| 0 <= i < positions.len() && #[trigger] positions[i] == at,
{
    let values = positions.map_values(|p: usize| p as int);
    assert(values.no_duplicates()) by {
        assert forall|i: int, j: int| 0 <= i < j < values.len() implies values[i] != values[j] by {
            assert(comes_before(items, positions[i] as int, positions[j] as int));
        }
    }
    let domain = vstd::set_lib::set_int_range(0, items.len() as int);
    vstd::set_lib::lemma_int_range(0, items.len() as int);
    values.unique_seq_to_set();
    assert(values.to_set().subset_of(domain)) by {
        assert forall|v: int| values.to_set().contains(v) implies domain.contains(v) by {
            let i = choose|i: int| 0 <= i < values.len() && values[i] == v;
            assert(positions[i] == v);
        }
    }
    vstd::set_lib::lemma_set_subset_finite(domain, values.to_set());
    vstd::set_lib::lemma_subset_equality(values.to_set(), domain);
    assert(values.to_set().contains(at));
    let i = choose|i: int| 0 <= i < values.len() && values[i] == at;
    assert(positions[i] == at);
}

} // verus!
