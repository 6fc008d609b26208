//! Ascending order of a column of keys, ties kept in the order they came in.
//!
//! The order is given as a sequence of positions: the position of the
//! smallest key first. Quartiles and the chronological arrangement of
//! records are both read off it.

use vstd::prelude::*;

verus! {

/// Whether position `i` comes before position `j` in ascending order: its
/// key is smaller, or the keys are equal and `i` is the earlier position.
pub open spec fn key_before(keys: Seq<i128>, i: int, j: int) -> bool {
    keys[i] < keys[j] || (keys[i] == keys[j] && i < j)
}

/// Whether `order` lists the positions from `lo` up to `hi`, each once, in
/// ascending order of their keys.
pub open spec fn is_stable_order_of(keys: Seq<i128>, order: Seq<usize>, lo: int, hi: int) -> bool {
    &&& order.len() == hi - lo
    &&& forall|j: int| 0 <= j < order.len() ==> lo <= #[trigger] order[j] < hi
    &&& forall|a: int, b: int|
        0 <= a < b < order.len() ==> key_before(keys, #[trigger] order[a] as int, #[trigger] order[b] as int)
    &&& forall|i: usize| lo <= i < hi ==> #[trigger] order.contains(i)
}

/// Whether `order` lists every position of `keys` once, in ascending order
/// of the keys, equal keys in the order of their positions.
pub open spec fn is_stable_order(keys: Seq<i128>, order: Seq<usize>) -> bool {
    is_stable_order_of(keys, order, 0, keys.len() as int)
}

/// The ascending order of `keys`.
pub open spec fn ascending_order(keys: Seq<i128>) -> Seq<usize> {
    choose|order: Seq<usize>| is_stable_order(keys, order)
}

/// How many entries at the front of `order`, from `from` on, have a key
/// that is not above `key`.
pub open spec fn entries_not_above(keys: Seq<i128>, order: Seq<usize>, key: i128, from: int) -> int
    decreases order.len() - from,
{
    if 0 <= from < order.len() && keys[order[from] as int] <= key {
        entries_not_above(keys, order, key, from + 1)
    } else {
        from
    }
}

/// Where a run of entries with keys not above `key` ends, every entry
/// before that place has such a key and the entry at that place has not.
proof fn lemma_entries_not_above(keys: Seq<i128>, order: Seq<usize>, key: i128, from: int)
    requires
        0 <= from <= order.len(),
    ensures
        from <= entries_not_above(keys, order, key, from) <= order.len(),
        forall|a: int|
            from <= a < entries_not_above(keys, order, key, from) ==> keys[#[trigger] order[a] as int]
                <= key,
        entries_not_above(keys, order, key, from) < order.len() ==> keys[order[entries_not_above(
            keys,
            order,
            key,
            from,
        )] as int] > key,
    decreases order.len() - from,
{
    if from < order.len() && keys[order[from] as int] <= key {
        lemma_entries_not_above(keys, order, key, from + 1);
    }
}

/// Every column of keys has an ascending order, and `ascending_order`
/// gives it.
pub proof fn lemma_ascending_order(keys: Seq<i128>)
    requires
        keys.len() <= usize::MAX,
    ensures
        is_stable_order(keys, ascending_order(keys)),
    decreases keys.len(),
{
    if keys.len() == 0 {
        assert(is_stable_order(keys, Seq::<usize>::empty()));
    } else {
        let rest = keys.drop_last();
        lemma_ascending_order(rest);
        let before = ascending_order(rest);
        let last = (keys.len() - 1) as usize;
        let key = keys[last as int];
        let place = entries_not_above(rest, before, key, 0);
        lemma_entries_not_above(rest, before, key, 0);
        let order = before.insert(place, last);
        assert forall|j: int| 0 <= j < order.len() implies 0 <= #[trigger] order[j] < keys.len() by {
            if j < place {
                assert(order[j] == before[j]);
            } else if j > place {
                assert(order[j] == before[j - 1]);
            }
        }
        assert forall|a: int, b: int| 0 <= a < b < order.len() implies key_before(
            keys,
            #[trigger] order[a] as int,
            #[trigger] order[b] as int,
        ) by {
            if b < place {
                assert(order[a] == before[a] && order[b] == before[b]);
                assert(key_before(rest, before[a] as int, before[b] as int));
            } else if b == place {
                assert(order[a] == before[a]);
                assert(rest[before[a] as int] <= key);
            } else if a < place {
                assert(order[a] == before[a] && order[b] == before[b - 1]);
                assert(key_before(rest, before[a] as int, before[b - 1] as int));
            } else if a == place {
                assert(order[b] == before[b - 1]);
                if b - 1 > place {
                    assert(key_before(rest, before[place] as int, before[b - 1] as int));
                }
                assert(rest[before[place] as int] > key);
            } else {
                assert(order[a] == before[a - 1] && order[b] == before[b - 1]);
                assert(key_before(rest, before[a - 1] as int, before[b - 1] as int));
            }
        }
        assert forall|i: usize| 0 <= i < keys.len() implies #[trigger] order.contains(i) by {
            if i == last {
                assert(order[place] == last);
            } else {
                assert(before.contains(i));
                let w = choose|w: int| 0 <= w < before.len() && before[w] == i;
                if w < place {
                    assert(order[w] == i);
                } else {
                    assert(order[w + 1] == i);
                }
            }
        }
        assert(is_stable_order(keys, order));
    }
}

/// A column of keys has one ascending order only.
pub proof fn lemma_stable_order_unique(keys: Seq<i128>, first: Seq<usize>, second: Seq<usize>)
    requires
        is_stable_order(keys, first),
        is_stable_order(keys, second),
    ensures
        first == second,
{
    assert forall|j: int| 0 <= j < first.len() implies first[j] == second[j] by {
        lemma_same_up_to(keys, first, second, j);
    }
    assert(first =~= second);
}

/// Two ascending orders of one column agree at every position up to `j`.
proof fn lemma_same_up_to(keys: Seq<i128>, first: Seq<usize>, second: Seq<usize>, j: int)
    requires
        is_stable_order(keys, first),
        is_stable_order(keys, second),
        0 <= j < first.len(),
    ensures
        forall|a: int| 0 <= a <= j ==> first[a] == second[a],
    decreases j,
{
    if j > 0 {
        lemma_same_up_to(keys, first, second, j - 1);
    }
    let x = first[j];
    let y = second[j];
    if x != y {
        assert(second.contains(x));
        let b = choose|b: int| 0 <= b < second.len() && second[b] == x;
        assert(first.contains(y));
        let c = choose|c: int| 0 <= c < first.len() && first[c] == y;
        if b < j {
            assert(first[b] == x);
            assert(key_before(keys, first[b] as int, first[j] as int));
        } else if c < j {
            assert(second[c] == y);
            assert(key_before(keys, second[c] as int, second[j] as int));
        } else {
            assert(key_before(keys, second[j] as int, second[b] as int));
            assert(key_before(keys, first[j] as int, first[c] as int));
        }
    }
}

/// Whether position `i` comes before position `j`.
fn comes_first(keys: &Vec<i128>, i: usize, j: usize) -> (b: bool)
    requires
        i < keys.len(),
        j < keys.len(),
    ensures
        b == key_before(keys@, i as int, j as int),
{
    keys[i] < keys[j] || (keys[i] == keys[j] && i < j)
}

/// Merges the ascending orders of two adjoining ranges into that of their
/// union.
fn merge_runs(
    keys: &Vec<i128>,
    left: &Vec<usize>,
    right: &Vec<usize>,
    Ghost(lo): Ghost<int>,
    Ghost(mid): Ghost<int>,
    Ghost(hi): Ghost<int>,
) -> (out: Vec<usize>)
    requires
        0 <= lo <= mid <= hi <= keys.len(),
        is_stable_order_of(keys@, left@, lo, mid),
        is_stable_order_of(keys@, right@, mid, hi),
    ensures
        is_stable_order_of(keys@, out@, lo, hi),
{
    let mut out: Vec<usize> = Vec::new();
    let mut i: usize = 0;
    let mut j: usize = 0;
    while i < left.len() || j < right.len()
        invariant
            0 <= lo <= mid <= hi <= keys.len(),
            is_stable_order_of(keys@, left@, lo, mid),
            is_stable_order_of(keys@, right@, mid, hi),
            i <= left.len(),
            j <= right.len(),
            out.len() == i + j,
            forall|a: int| 0 <= a < out.len() ==> lo <= #[trigger] out@[a] < hi,
            forall|a: int, b: int|
                0 <= a < b < out.len() ==> key_before(
                    keys@,
                    #[trigger] out@[a] as int,
                    #[trigger] out@[b] as int,
                ),
            forall|a: int|
                0 <= a < out.len() && i < left.len() ==> key_before(
                    keys@,
                    #[trigger] out@[a] as int,
                    left@[i as int] as int,
                ),
            forall|a: int|
                0 <= a < out.len() && j < right.len() ==> key_before(
                    keys@,
                    #[trigger] out@[a] as int,
                    right@[j as int] as int,
                ),
            forall|x: int| 0 <= x < i ==> out@.contains(#[trigger] left@[x]),
            forall|y: int| 0 <= y < j ==> out@.contains(#[trigger] right@[y]),
        decreases left.len() - i + right.len() - j,
    {
        let ghost before = out@;
        let take_left = if i == left.len() {
            false
        } else if j == right.len() {
            true
        } else {
            comes_first(keys, left[i], right[j])
        };
        if take_left {
            let v = left[i];
            out.push(v);
            proof {
                if i + 1 < left.len() {
                    assert(key_before(keys@, left@[i as int] as int, left@[i + 1] as int));
                }
            }
            i += 1;
            assert(out@[out.len() - 1] == v);
        } else {
            let v = right[j];
            out.push(v);
            proof {
                if j + 1 < right.len() {
                    assert(key_before(keys@, right@[j as int] as int, right@[j + 1] as int));
                }
                if i < left.len() {
                    assert(left@[i as int] < mid <= right@[j as int]);
                }
            }
            j += 1;
            assert(out@[out.len() - 1] == v);
        }
        proof {
            assert forall|x: int| 0 <= x < i implies out@.contains(#[trigger] left@[x]) by {
                if before.contains(left@[x]) {
                    let w = choose|w: int| 0 <= w < before.len() && before[w] == left@[x];
                    assert(out@[w] == left@[x]);
                } else {
                    assert(out@[out.len() - 1] == left@[x]);
                }
            }
            assert forall|y: int| 0 <= y < j implies out@.contains(#[trigger] right@[y]) by {
                if before.contains(right@[y]) {
                    let w = choose|w: int| 0 <= w < before.len() && before[w] == right@[y];
                    assert(out@[w] == right@[y]);
                } else {
                    assert(out@[out.len() - 1] == right@[y]);
                }
            }
        }
    }
    proof {
        assert forall|v: usize| lo <= v < hi implies #[trigger] out@.contains(v) by {
            if v < mid {
                assert(left@.contains(v));
                let x = choose|x: int| 0 <= x < left@.len() && left@[x] == v;
                assert(out@.contains(left@[x]));
            } else {
                assert(right@.contains(v));
                let y = choose|y: int| 0 <= y < right@.len() && right@[y] == v;
                assert(out@.contains(right@[y]));
            }
        }
    }
    out
}

/// The ascending order of the positions from `lo` up to `hi`.
fn order_range(keys: &Vec<i128>, lo: usize, hi: usize) -> (out: Vec<usize>)
    requires
        lo <= hi <= keys.len(),
    ensures
        is_stable_order_of(keys@, out@, lo as int, hi as int),
    decreases hi - lo,
{
    if hi - lo == 0 {
        Vec::new()
    } else if hi - lo == 1 {
        let mut out: Vec<usize> = Vec::new();
        out.push(lo);
        assert(out@[0] == lo);
        out
    } else {
        let mid: usize = lo + (hi - lo) / 2;
        let left = order_range(keys, lo, mid);
        let right = order_range(keys, mid, hi);
        merge_runs(keys, &left, &right, Ghost(lo as int), Ghost(mid as int), Ghost(hi as int))
    }
}

/// The ascending order of `keys`: every position once, smaller keys first,
/// equal keys in the order of their positions.
pub fn stable_order(keys: &Vec<i128>) -> (order: Vec<usize>)
    ensures
        is_stable_order(keys@, order@),
        order@ == ascending_order(keys@),
{
    let order = order_range(keys, 0, keys.len());
    proof {
        assert(is_stable_order(keys@, order@));
        assert(is_stable_order(keys@, ascending_order(keys@)));
        lemma_stable_order_unique(keys@, order@, ascending_order(keys@));
    }
    order
}

} // verus!
