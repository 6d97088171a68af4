//! Stable ordering by priority, as used for plugins, post-processors and
//! property sources.

use vstd::prelude::*;

verus! {

/// `order` lists each of the positions `0..n` exactly once.
pub open spec fn is_permutation(order: Seq<usize>, n: nat) -> bool {
    &&& order.len() == n
    &&& order.no_duplicates()
    &&& forall|p: int| 0 <= p < order.len() ==> (#[trigger] order[p]) < n
}

/// `a` comes before `b` when ordering by `keys`: ascending, or descending
/// when `descending` holds.
pub open spec fn key_before(keys: Seq<i32>, a: usize, b: usize, descending: bool) -> bool {
    if descending {
        keys[a as int] > keys[b as int]
    } else {
        keys[a as int] < keys[b as int]
    }
}

/// `order` sorts the positions by their keys, and positions with equal keys
/// keep their original relative order.
pub open spec fn stably_sorted(keys: Seq<i32>, order: Seq<usize>, descending: bool) -> bool {
    forall|p: int, q: int| 0 <= p < q < order.len() ==> {
        ||| key_before(keys, #[trigger] order[p], #[trigger] order[q], descending)
        ||| (keys[order[p] as int] == keys[order[q] as int] && order[p] < order[q])
    }
}

/// The order in which to take the items whose keys are `keys`: sorted by
/// key, ascending or descending, with items of equal key kept in their
/// original order (what a stable sort does).
pub fn stable_order(keys: &Vec<i32>, descending: bool) -> (order: Vec<usize>)
    ensures
        is_permutation(order@, keys@.len()),
        stably_sorted(keys@, order@, descending),
{
    let mut out: Vec<usize> = Vec::new();
    let mut i: usize = 0;
    while i < keys.len()
        invariant
            i <= keys@.len(),
            is_permutation(out@, i as nat),
            stably_sorted(keys@, out@, descending),
        decreases keys.len() - i,
    {
        let k = keys[i];
        let mut pos: usize = 0;
        while pos < out.len()
            invariant
                i < keys@.len(),
                k == keys@[i as int],
                is_permutation(out@, i as nat),
                pos <= out@.len(),
                forall|p: int| 0 <= p < pos ==> !key_before(keys@, i, #[trigger] out@[p], descending),
            ensures
                pos <= out@.len(),
                forall|p: int| 0 <= p < pos ==> !key_before(keys@, i, #[trigger] out@[p], descending),
                pos < out@.len() ==> key_before(keys@, i, out@[pos as int], descending),
            decreases out.len() - pos,
        {
            let other = keys[out[pos]];
            let later = if descending { k > other } else { k < other };
            if later {
                break;
            }
            pos = pos + 1;
        }
        let ghost before = out@;
        out.insert(pos, i);
        proof {
            let o = out@;
            assert(o =~= before.insert(pos as int, i));
            assert forall|p: int| 0 <= p < o.len() implies (#[trigger] o[p]) < i + 1 by {
                if p < pos {
                    assert(o[p] == before[p]);
                } else if p > pos {
                    assert(o[p] == before[p - 1]);
                }
            }
            assert forall|a: int, b: int| 0 <= a < o.len() && 0 <= b < o.len() && a != b implies o[a] != o[b] by {
                if a != pos as int && b != pos as int {
                    let a2 = if a < pos { a } else { a - 1 };
                    let b2 = if b < pos { b } else { b - 1 };
                    assert(o[a] == before[a2] && o[b] == before[b2]);
                } else if a == pos as int {
                    let b2 = if b < pos { b } else { b - 1 };
                    assert(o[b] == before[b2]);
                    assert(before[b2] < i);
                } else {
                    let a2 = if a < pos { a } else { a - 1 };
                    assert(o[a] == before[a2]);
                    assert(before[a2] < i);
                }
            }
            assert forall|p: int, q: int| 0 <= p < q < o.len() implies {
                ||| key_before(keys@, #[trigger] o[p], #[trigger] o[q], descending)
                ||| (keys@[o[p] as int] == keys@[o[q] as int] && o[p] < o[q])
            } by {
                if p == pos as int {
                    let q2 = q - 1;
                    assert(o[q] == before[q2]);
                    assert(o[p] == i);
                    assert(key_before(keys@, i, before[pos as int], descending));
                    if q2 != pos as int {
                        assert(key_before(keys@, before[pos as int], before[q2], descending)
                            || (keys@[before[pos as int] as int] == keys@[before[q2] as int] && before[pos as int] < before[q2]));
                    }
                } else if q == pos as int {
                    assert(o[p] == before[p]);
                    assert(!key_before(keys@, i, before[p], descending));
                    assert(before[p] < i);
                } else {
                    let p2 = if p < pos { p } else { p - 1 };
                    let q2 = if q < pos { q } else { q - 1 };
                    assert(o[p] == before[p2] && o[q] == before[q2]);
                    assert(p2 < q2);
                }
            }
        }
        i = i + 1;
    }
    out
}

} // verus!
