//! Lists of cells as a search keeps them: looked up by cell index, and put in
//! the order of their `f`.

use vstd::prelude::*;
use crate::node::Node;

verus! {

/// Whether some entry of `list` has the given cell index.
pub open spec fn holds(list: Seq<Node>, index: i32) -> bool {
    exists|k: int| 0 <= k < list.len() && #[trigger] list[k].index == index
}

/// Whether `k` is the place of the first entry of `list` with the given cell
/// index.
pub open spec fn is_first(list: Seq<Node>, index: i32, k: int) -> bool {
    &&& 0 <= k < list.len()
    &&& list[k].index == index
    &&& forall|j: int| 0 <= j < k ==> #[trigger] list[j].index != index
}

/// The place of the first entry of `list` with the given cell index, where
/// there is one.
pub open spec fn first_position(list: Seq<Node>, index: i32) -> int {
    choose|k: int| is_first(list, index, k)
}

/// Whether no two entries of `list` have the same cell index.
pub open spec fn distinct(list: Seq<Node>) -> bool {
    forall|i: int, j: int| 0 <= i < j < list.len() ==> list[i].index != list[j].index
}

/// Whether the entries of `list` stand in the order of their `f`, smallest
/// first.
pub open spec fn ordered(list: Seq<Node>) -> bool {
    forall|i: int, j: int| 0 <= i < j < list.len() ==> list[i].f <= list[j].f
}

/// Whether `list[k]` has the smallest `f` of the list and is the first entry
/// that has it.
pub open spec fn is_first_minimum(list: Seq<Node>, k: int) -> bool {
    &&& 0 <= k < list.len()
    &&& forall|j: int| 0 <= j < list.len() ==> list[k].f <= #[trigger] list[j].f
    &&& forall|j: int| 0 <= j < k ==> #[trigger] list[j].f > list[k].f
}

/// Where an entry with the given `f` goes into `list`: behind the last entry
/// whose `f` is not larger.
pub open spec fn insertion_point(list: Seq<Node>, f: i32) -> int
    decreases list.len(),
{
    if list.len() == 0 || list.last().f <= f {
        list.len() as int
    } else {
        insertion_point(list.drop_last(), f)
    }
}

/// The entries of `list` in the order of their `f`, smallest first; entries
/// with the same `f` keep the order they have in `list`.
pub open spec fn sort_by_f(list: Seq<Node>) -> Seq<Node>
    decreases list.len(),
{
    if list.len() == 0 {
        list
    } else {
        let rest = sort_by_f(list.drop_last());
        rest.insert(insertion_point(rest, list.last().f), list.last())
    }
}

/// Whether `at` is a place in `list` that has only larger `f` from it on and,
/// directly before it, an `f` that is not larger than the given one.
pub open spec fn is_insertion_point(list: Seq<Node>, f: i32, at: int) -> bool {
    &&& 0 <= at <= list.len()
    &&& at > 0 ==> list[at - 1].f <= f
    &&& forall|k: int| at <= k < list.len() ==> (#[trigger] list[k]).f > f
}

/// The insertion point is such a place, and the only one.
pub proof fn lemma_insertion_point(list: Seq<Node>, f: i32)
    ensures
        is_insertion_point(list, f, insertion_point(list, f)),
        forall|at: int| #[trigger]
            is_insertion_point(list, f, at) ==> at == insertion_point(list, f),
    decreases list.len(),
{
    let found = insertion_point(list, f);
    if list.len() == 0 || list.last().f <= f {
    } else {
        let front = list.drop_last();
        lemma_insertion_point(front, f);
        assert forall|k: int| found <= k < list.len() implies (#[trigger] list[k]).f > f by {
            if k < front.len() {
                assert(front[k] == list[k]);
            }
        }
        assert(found > 0 ==> front[found - 1] == list[found - 1]);
    }
    assert forall|at: int| #[trigger] is_insertion_point(list, f, at) implies at == found by {
        if at < found {
            assert(list[found - 1].f > f);
        }
        if found < at {
            assert(list[at - 1].f > f);
        }
    }
}

/// What stands where in a list after an entry went in at the place `at`.
pub proof fn lemma_insert(list: Seq<Node>, at: int, node: Node)
    requires
        0 <= at <= list.len(),
    ensures
        list.insert(at, node).len() == list.len() + 1,
        forall|k: int|
            0 <= k <= list.len() ==> #[trigger] list.insert(at, node)[k] == (if k < at {
                list[k]
            } else if k == at {
                node
            } else {
                list[k - 1]
            }),
{
}

/// Ordering a list by `f` keeps its length and its entries.
pub proof fn lemma_sort_entries(list: Seq<Node>)
    ensures
        sort_by_f(list).len() == list.len(),
        forall|k: int| 0 <= k < list.len() ==> list.contains(#[trigger] sort_by_f(list)[k]),
        forall|k: int| 0 <= k < list.len() ==> sort_by_f(list).contains(#[trigger] list[k]),
    decreases list.len(),
{
    if list.len() > 0 {
        let front = list.drop_last();
        let last = list.last();
        let rest = sort_by_f(front);
        let at = insertion_point(rest, last.f);
        let all = sort_by_f(list);
        lemma_sort_entries(front);
        lemma_insertion_point(rest, last.f);
        lemma_insert(rest, at, last);
        assert forall|k: int| 0 <= k < list.len() implies list.contains(#[trigger] all[k]) by {
            if k == at {
                assert(list[list.len() - 1] == last);
            } else {
                let from = if k < at {
                    k
                } else {
                    k - 1
                };
                assert(front.contains(rest[from]));
                let j = choose|j: int| 0 <= j < front.len() && front[j] == rest[from];
                assert(list[j] == all[k]);
            }
        }
        assert forall|k: int| 0 <= k < list.len() implies all.contains(#[trigger] list[k]) by {
            if k == list.len() - 1 {
                assert(all[at] == list[k]);
            } else {
                assert(front[k] == list[k]);
                assert(rest.contains(front[k]));
                let j = choose|j: int| 0 <= j < rest.len() && rest[j] == front[k];
                if j < at {
                    assert(all[j] == list[k]);
                } else {
                    assert(all[j + 1] == list[k]);
                }
            }
        }
    }
}

/// Ordering a list by `f` leaves its entries in the order of their `f`.
pub proof fn lemma_sort_ordered(list: Seq<Node>)
    ensures
        ordered(sort_by_f(list)),
    decreases list.len(),
{
    if list.len() > 0 {
        let front = list.drop_last();
        let last = list.last();
        let rest = sort_by_f(front);
        let at = insertion_point(rest, last.f);
        let all = sort_by_f(list);
        lemma_sort_ordered(front);
        lemma_insertion_point(rest, last.f);
        lemma_insert(rest, at, last);
        assert forall|i: int, j: int| 0 <= i < j < all.len() implies all[i].f <= all[j].f by {
            if at > 0 {
                assert(rest[at - 1].f <= last.f);
            }
            if j > at {
                assert(rest[j - 1].f > last.f);
            }
        }
    }
}

/// Ordering a list by `f` keeps the cell indices distinct where they were.
pub proof fn lemma_sort_distinct(list: Seq<Node>)
    requires
        distinct(list),
    ensures
        distinct(sort_by_f(list)),
    decreases list.len(),
{
    if list.len() > 0 {
        let front = list.drop_last();
        let last = list.last();
        let rest = sort_by_f(front);
        let at = insertion_point(rest, last.f);
        let all = sort_by_f(list);
        assert(distinct(front)) by {
            assert forall|i: int, j: int| 0 <= i < j < front.len() implies front[i].index
                != front[j].index by {
                assert(front[i] == list[i] && front[j] == list[j]);
            }
        }
        lemma_sort_distinct(front);
        lemma_sort_entries(front);
        lemma_insertion_point(rest, last.f);
        lemma_insert(rest, at, last);
        assert forall|k: int| 0 <= k < rest.len() implies (#[trigger] rest[k]).index
            != last.index by {
            assert(front.contains(rest[k]));
            let j = choose|j: int| 0 <= j < front.len() && front[j] == rest[k];
            assert(list[j] == rest[k]);
            assert(list[list.len() - 1] == last);
        }
        assert forall|i: int, j: int| 0 <= i < j < all.len() implies all[i].index
            != all[j].index by {
            let a = if i < at {
                i
            } else {
                i - 1
            };
            let b = if j < at {
                j
            } else {
                j - 1
            };
            if i == at {
                assert(rest[b].index != last.index);
            } else if j == at {
                assert(rest[a].index != last.index);
            } else {
                assert(rest[a].index != rest[b].index);
            }
        }
    }
}

/// Ordering a list by `f` brings to the front the first entry of the list
/// that has the smallest `f`.
pub proof fn lemma_sort_head(list: Seq<Node>)
    requires
        list.len() > 0,
    ensures
        exists|m: int| is_first_minimum(list, m) && sort_by_f(list)[0] == #[trigger] list[m],
    decreases list.len(),
{
    let front = list.drop_last();
    let last = list.last();
    let rest = sort_by_f(front);
    let at = insertion_point(rest, last.f);
    let all = sort_by_f(list);
    lemma_sort_entries(front);
    lemma_sort_ordered(front);
    lemma_insertion_point(rest, last.f);
    lemma_insert(rest, at, last);
    if front.len() == 0 {
        assert(all[0] == list[0]);
        assert(is_first_minimum(list, 0));
    } else {
        lemma_sort_head(front);
        let m = choose|m: int| is_first_minimum(front, m) && rest[0] == #[trigger] front[m];
        assert(front[m] == list[m]);
        if rest[0].f <= last.f {
            assert(at > 0);
            assert(all[0] == list[m]);
            assert forall|j: int| 0 <= j < list.len() implies list[m].f <= #[trigger] list[j].f by {
                if j < front.len() {
                    assert(front[j] == list[j]);
                }
            }
            assert forall|j: int| 0 <= j < m implies #[trigger] list[j].f > list[m].f by {
                assert(front[j] == list[j]);
            }
            assert(is_first_minimum(list, m));
        } else {
            if at > 0 {
                assert(rest[0].f <= rest[at - 1].f);
            }
            assert(at == 0);
            let e = list.len() - 1;
            assert(all[0] == list[e]);
            assert forall|j: int| 0 <= j < list.len() implies list[e].f <= #[trigger] list[j].f by {
                if j < front.len() {
                    assert(front[j] == list[j]);
                    assert(front[m].f <= front[j].f);
                }
            }
            assert forall|j: int| 0 <= j < e implies #[trigger] list[j].f > list[e].f by {
                assert(front[j] == list[j]);
                assert(front[m].f <= front[j].f);
            }
            assert(is_first_minimum(list, e));
        }
    }
}

/// Ordering a list by `f` keeps its length and its entries, keeps the cell
/// indices distinct where they were, leaves the entries in the order of their
/// `f`, and brings to the front the first entry of the list that has the
/// smallest `f`.
pub proof fn lemma_sort_by_f(list: Seq<Node>)
    ensures
        sort_by_f(list).len() == list.len(),
        ordered(sort_by_f(list)),
        forall|k: int| 0 <= k < list.len() ==> list.contains(#[trigger] sort_by_f(list)[k]),
        forall|k: int| 0 <= k < list.len() ==> sort_by_f(list).contains(#[trigger] list[k]),
        distinct(list) ==> distinct(sort_by_f(list)),
        list.len() > 0 ==> exists|m: int|
            is_first_minimum(list, m) && sort_by_f(list)[0] == #[trigger] list[m],
{
    lemma_sort_entries(list);
    lemma_sort_ordered(list);
    if distinct(list) {
        lemma_sort_distinct(list);
    }
    if list.len() > 0 {
        lemma_sort_head(list);
    }
}

/// Where a list holds a cell index, the first position of that index is the
/// place of its first entry.
pub proof fn lemma_first_position(list: Seq<Node>, index: i32)
    requires
        holds(list, index),
    ensures
        is_first(list, index, first_position(list, index)),
{
    let k = choose|k: int| 0 <= k < list.len() && #[trigger] list[k].index == index;
    lemma_first_before(list, index, k);
}

/// Before or at any entry with a given cell index stands the first entry with
/// that index.
pub proof fn lemma_first_before(list: Seq<Node>, index: i32, k: int)
    requires
        0 <= k < list.len(),
        list[k].index == index,
    ensures
        exists|j: int| 0 <= j <= k && is_first(list, index, j),
    decreases k,
{
    if exists|i: int| 0 <= i < k && #[trigger] list[i].index == index {
        let i = choose|i: int| 0 <= i < k && #[trigger] list[i].index == index;
        lemma_first_before(list, index, i);
    } else {
        assert(is_first(list, index, k));
    }
}

/// Only one place is the place of the first entry with a given cell index.
pub proof fn lemma_first_is_unique(list: Seq<Node>, index: i32, k: int)
    requires
        is_first(list, index, k),
    ensures
        first_position(list, index) == k,
        holds(list, index),
{
    let other = first_position(list, index);
    assert(is_first(list, index, other));
    if other < k {
        assert(list[other].index != index);
    }
    if k < other {
        assert(list[k].index != index);
    }
}

/// A list with one more entry at its end holds what it held before and the
/// cell index of the new entry, and the first position of an index that it
/// held before stays.
pub proof fn lemma_push(list: Seq<Node>, node: Node, index: i32)
    ensures
        holds(list.push(node), index) <==> holds(list, index) || node.index == index,
        holds(list, index) ==> first_position(list.push(node), index) == first_position(
            list,
            index,
        ),
        !holds(list, index) && node.index == index ==> first_position(list.push(node), index)
            == list.len(),
{
    let longer = list.push(node);
    if holds(list, index) {
        lemma_first_position(list, index);
        let k = first_position(list, index);
        assert(longer[k] == list[k]);
        assert forall|j: int| 0 <= j < k implies #[trigger] longer[j].index != index by {
            assert(longer[j] == list[j]);
        }
        lemma_first_is_unique(longer, index, k);
    } else if node.index == index {
        assert(longer[list.len() as int] == node);
        assert forall|j: int| 0 <= j < list.len() implies #[trigger] longer[j].index != index by {
            assert(longer[j] == list[j]);
        }
        lemma_first_is_unique(longer, index, list.len() as int);
    } else {
        if holds(longer, index) {
            let k = choose|k: int| 0 <= k < longer.len() && #[trigger] longer[k].index == index;
            if k < list.len() {
                assert(list[k] == longer[k]);
            }
            assert(false);
        }
    }
}

/// Looks for the first entry of `list` with the given cell index.
pub fn find_index(list: &Vec<Node>, index: i32) -> (found: Option<usize>)
    ensures
        match found {
            Some(k) => is_first(list@, index, k as int) && k == first_position(list@, index),
            None => !holds(list@, index),
        },
{
    let mut k: usize = 0;
    while k < list.len()
        invariant
            k <= list.len(),
            forall|j: int| 0 <= j < k ==> #[trigger] list@[j].index != index,
        decreases list.len() - k,
    {
        if list[k].index == index {
            proof {
                lemma_first_is_unique(list@, index, k as int);
            }
            return Some(k);
        }
        k += 1;
    }
    None
}

/// Puts `list` in the order of `f`, smallest first. Entries with the same `f`
/// keep their order.
pub fn order_by_f(list: &mut Vec<Node>)
    ensures
        final(list)@ == sort_by_f(old(list)@),
{
    let mut sorted: Vec<Node> = Vec::new();
    let mut taken: usize = 0;
    while taken < list.len()
        invariant
            taken <= list.len(),
            list@ == old(list)@,
            sorted@ == sort_by_f(list@.subrange(0, taken as int)),
            sorted@.len() == taken,
        decreases list.len() - taken,
    {
        let node = list[taken];
        let mut at: usize = sorted.len();
        while at > 0 && sorted[at - 1].f > node.f
            invariant
                at <= sorted.len(),
                forall|k: int| at <= k < sorted@.len() ==> (#[trigger] sorted@[k]).f > node.f,
            decreases at,
        {
            at -= 1;
        }
        proof {
            lemma_insertion_point(sorted@, node.f);
            assert(is_insertion_point(sorted@, node.f, at as int));
            let longer = list@.subrange(0, taken + 1);
            assert(longer.drop_last() == list@.subrange(0, taken as int));
            assert(longer.last() == node);
        }
        sorted.insert(at, node);
        taken += 1;
    }
    assert(list@.subrange(0, taken as int) == list@);
    *list = sorted;
}

} // verus!
