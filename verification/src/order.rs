//! Orderings over the candidate positions: a stable sort of positions by a
//! key, and a deterministic scrambled key stream for the randomized
//! strategies. Every ordering produced here lists each position exactly once.
use vstd::prelude::*;

use crate::sums::is_perm;
use crate::waste::iseq;

verus! {

/// Position `i1` with key `k1` comes strictly before position `i2` with key
/// `k2`: keys ascending, ties by position, so equal keys keep list order.
pub open spec fn lex_before(k1: u128, i1: int, k2: u128, i2: int) -> bool {
    k1 < k2 || (k1 == k2 && i1 < i2)
}

/// Positions `a` and `b` of `order` stand in ascending (key, position) order.
pub open spec fn lex_ok(keys: Seq<u128>, order: Seq<usize>, a: int, b: int) -> bool {
    lex_before(keys[order[a] as int], order[a] as int, keys[order[b] as int], order[b] as int)
}

/// `order` is sorted by key, ties by position.
pub open spec fn sorted_order(keys: Seq<u128>, order: Seq<usize>) -> bool {
    forall|a: int, b: int| 0 <= a < b < order.len() ==> #[trigger] lex_ok(keys, order, a, b)
}

/// Sorts the positions `0..keys.len()` ascending by key, equal keys keeping
/// their list order. The result lists each position exactly once.
#[verifier::loop_isolation(false)]
pub fn sort_indices(keys: &Vec<u128>) -> (order: Vec<usize>)
    ensures
        order@.len() == keys@.len(),
        is_perm(keys@.len() as int, iseq(order@)),
        sorted_order(keys@, order@),
{
    let n = keys.len();
    let mut order: Vec<usize> = Vec::new();
    let mut i: usize = 0;
    while i < n
        invariant
            i <= n,
            order@.len() == i,
            forall|q: int| 0 <= q < i ==> #[trigger] order@.contains(q as usize),
            forall|q: int| 0 <= q < order@.len() ==> (#[trigger] order@[q]) < i,
            iseq(order@).no_duplicates(),
            sorted_order(keys@, order@),
        decreases n - i,
    {
        let mut p: usize = 0;
        while p < order.len() && keys[order[p]] <= keys[i]
            invariant
                p <= order@.len(),
                forall|q: int|
                    0 <= q < p ==> keys@[(#[trigger] order@[q]) as int] <= keys@[i as int],
            decreases order@.len() - p,
        {
            p = p + 1;
        }
        let ghost old_order = order@;
        order.insert(p, i);
        proof {
            old_order.insert_ensures(p as int, i);
            assert(order@ == old_order.insert(p as int, i));
            assert(order@.len() == old_order.len() + 1);
            assert forall|w: int| 0 <= w < p implies order@[w] == old_order[w] by {
                assert(old_order.insert(p as int, i)[w] == old_order[w]);
            }
            assert forall|w: int| p <= w < old_order.len() implies order@[w + 1] == old_order[w] by {
                assert(old_order.insert(p as int, i)[w + 1] == old_order[w]);
            }
            assert(order@[p as int] == i) by {
                assert(old_order.insert(p as int, i)[p as int] == i);
            }
            assert forall|q: int| 0 <= q < i + 1 implies #[trigger] order@.contains(
                q as usize,
            ) by {
                if q < i {
                    assert(old_order.contains(q as usize));
                    let w = choose|w: int| 0 <= w < old_order.len() && old_order[w] == q as usize;
                    if w < p {
                        assert(order@[w] == q as usize);
                    } else {
                        assert(order@[w + 1] == q as usize);
                    }
                } else {
                    assert(order@[p as int] == i as usize);
                }
            }
            assert(iseq(order@).no_duplicates()) by {
                assert forall|a: int, b: int|
                    0 <= a < b < order@.len() implies iseq(order@)[a] != iseq(order@)[b] by {
                    assert(iseq(order@)[a] == order@[a] as int);
                    assert(iseq(order@)[b] == order@[b] as int);
                    if a < p && b < p {
                        assert(order@[a] == old_order[a] && order@[b] == old_order[b]);
                        assert(iseq(old_order)[a] == old_order[a] as int);
                        assert(iseq(old_order)[b] == old_order[b] as int);
                    } else if a < p && b == p {
                        assert(order@[a] == old_order[a] && old_order[a] < i);
                    } else if a < p && b > p {
                        assert(order@[a] == old_order[a] && order@[b] == old_order[b - 1]);
                        assert(iseq(old_order)[a] == old_order[a] as int);
                        assert(iseq(old_order)[b - 1] == old_order[b - 1] as int);
                    } else if a == p {
                        assert(order@[b] == old_order[b - 1] && old_order[b - 1] < i);
                    } else {
                        assert(order@[a] == old_order[a - 1] && order@[b] == old_order[b - 1]);
                        assert(iseq(old_order)[a - 1] == old_order[a - 1] as int);
                        assert(iseq(old_order)[b - 1] == old_order[b - 1] as int);
                    }
                }
            }
            assert(sorted_order(keys@, order@)) by {
                assert forall|a: int, b: int| 0 <= a < b < order@.len() implies #[trigger] lex_ok(
                    keys@,
                    order@,
                    a,
                    b,
                ) by {
                    if a < p && b < p {
                        assert(lex_ok(keys@, old_order, a, b));
                    } else if a < p && b == p {
                        assert(keys@[(order@[a]) as int] <= keys@[i as int]);
                        assert(order@[a] < i);
                    } else if a < p && b > p {
                        assert(lex_ok(keys@, old_order, a, b - 1));
                    } else if a == p && b > p {
                        if p < old_order.len() {
                            assert(keys@[(old_order[p as int]) as int] > keys@[i as int]);
                            if b - 1 > p {
                                assert(lex_ok(keys@, old_order, p as int, b - 1));
                            }
                        }
                    } else {
                        assert(lex_ok(keys@, old_order, a - 1, b - 1));
                    }
                }
            }
        }
        i = i + 1;
    }
    order
}

/// One step of a 64-bit xorshift scrambler: a fixed, fully deterministic
/// permutation of the state space.
pub fn scramble(state: u64) -> (r: u64)
{
    let mut s = state;
    s = s ^ (s << 13);
    s = s ^ (s >> 7);
    s = s ^ (s << 17);
    s
}

/// A deterministic stream of `n` scrambled keys grown from `seed`. Used to
/// draw the pseudo-random orderings of the randomized strategies; the engine
/// stays reproducible because the seeds are fixed.
pub fn scrambled_keys(seed: u64, n: usize) -> (keys: Vec<u128>)
    ensures
        keys@.len() == n,
{
    let mut keys: Vec<u128> = Vec::new();
    let mut s: u64 = if seed == 0 {
        0x9E3779B97F4A7C15
    } else {
        seed
    };
    let mut j: usize = 0;
    while j < n
        invariant
            keys@.len() == j,
            j <= n,
        decreases n - j,
    {
        s = scramble(s);
        keys.push(s as u128);
        j = j + 1;
    }
    keys
}

} // verus!
