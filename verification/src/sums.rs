//! Sums of amounts taken at chosen positions of a list, and the facts the
//! strategies need about them: a sum over distinct positions never exceeds
//! the sum over the whole list, and a permutation of all positions reaches
//! exactly the whole-list sum.
use vstd::prelude::*;

verus! {

/// The sum of the first `n` entries of `amts`.
pub open spec fn sum_prefix(amts: Seq<int>, n: int) -> int
    decreases n,
{
    if n <= 0 {
        0
    } else {
        sum_prefix(amts, n - 1) + amts[n - 1]
    }
}

/// The sum of every entry of `amts`.
pub open spec fn sum_all(amts: Seq<int>) -> int {
    sum_prefix(amts, amts.len() as int)
}

/// The sum of the entries of `amts` at the positions listed in `idxs`.
pub open spec fn sum_at(amts: Seq<int>, idxs: Seq<int>) -> int
    decreases idxs.len(),
{
    if idxs.len() == 0 {
        0
    } else {
        sum_at(amts, idxs.drop_last()) + amts[idxs.last()]
    }
}

/// The sum of the entries of `amts` among the first `n` whose position is
/// listed in `idxs`, counted once each whatever `idxs` repeats.
pub open spec fn masked_sum(amts: Seq<int>, idxs: Seq<int>, n: int) -> int
    decreases n,
{
    if n <= 0 {
        0
    } else {
        masked_sum(amts, idxs, n - 1) + if idxs.contains(n - 1) {
            amts[n - 1]
        } else {
            0
        }
    }
}

/// Every position of `idxs` lies in `[0, n)`.
pub open spec fn in_range(n: int, idxs: Seq<int>) -> bool {
    forall|i: int| 0 <= i < idxs.len() ==> 0 <= #[trigger] idxs[i] < n
}

/// `idxs` is a duplicate-free list of positions of a list of length `n`.
pub open spec fn valid_indices(n: int, idxs: Seq<int>) -> bool {
    idxs.no_duplicates() && in_range(n, idxs)
}

/// `idxs` lists each position of a list of length `n` exactly once.
pub open spec fn is_perm(n: int, idxs: Seq<int>) -> bool {
    valid_indices(n, idxs) && idxs.len() == n
}

pub proof fn lemma_masked_le_prefix(amts: Seq<int>, idxs: Seq<int>, n: int)
    requires
        forall|j: int| 0 <= j < amts.len() ==> #[trigger] amts[j] >= 0,
        0 <= n <= amts.len(),
    ensures
        0 <= masked_sum(amts, idxs, n) <= sum_prefix(amts, n),
    decreases n,
{
    if n > 0 {
        lemma_masked_le_prefix(amts, idxs, n - 1);
    }
}

pub proof fn lemma_masked_add(amts: Seq<int>, idxs: Seq<int>, k: int, n: int)
    requires
        0 <= k < n,
        !idxs.contains(k),
    ensures
        masked_sum(amts, idxs.push(k), n) == masked_sum(amts, idxs, n) + amts[k],
    decreases n,
{
    assert forall|x: int| #[trigger] idxs.push(k).contains(x) <==> idxs.contains(x) || x == k by {
        if idxs.push(k).contains(x) {
            let i = choose|i: int| 0 <= i < idxs.push(k).len() && idxs.push(k)[i] == x;
            if i < idxs.len() {
                assert(idxs[i] == x);
            }
        }
        if idxs.contains(x) {
            let i = choose|i: int| 0 <= i < idxs.len() && idxs[i] == x;
            assert(idxs.push(k)[i] == x);
        }
        if x == k {
            assert(idxs.push(k)[idxs.len() as int] == x);
        }
    }
    if n > 0 {
        if k == n - 1 {
            lemma_masked_unchanged(amts, idxs, idxs.push(k), n - 1, k);
        } else {
            lemma_masked_add(amts, idxs, k, n - 1);
        }
    }
}

/// Two position lists that agree on membership below `n` except at `k >= n`
/// give the same masked sum up to `n`.
proof fn lemma_masked_unchanged(amts: Seq<int>, a: Seq<int>, b: Seq<int>, n: int, k: int)
    requires
        k >= n,
        forall|x: int| #[trigger] b.contains(x) <==> a.contains(x) || x == k,
    ensures
        masked_sum(amts, a, n) == masked_sum(amts, b, n),
    decreases n,
{
    if n > 0 {
        lemma_masked_unchanged(amts, a, b, n - 1, k);
    }
}

proof fn lemma_masked_empty(amts: Seq<int>, idxs: Seq<int>, n: int)
    requires
        idxs.len() == 0,
    ensures
        masked_sum(amts, idxs, n) == 0,
    decreases n,
{
    if n > 0 {
        lemma_masked_empty(amts, idxs, n - 1);
    }
}

pub proof fn lemma_sum_at_eq_masked(amts: Seq<int>, idxs: Seq<int>, n: int)
    requires
        valid_indices(n, idxs),
        n <= amts.len(),
    ensures
        sum_at(amts, idxs) == masked_sum(amts, idxs, n),
    decreases idxs.len(),
{
    if idxs.len() == 0 {
        lemma_masked_empty(amts, idxs, n);
    } else {
        let rest = idxs.drop_last();
        let k = idxs.last();
        assert(idxs =~= rest.push(k));
        assert(rest.no_duplicates());
        assert(in_range(n, rest)) by {
            assert forall|i: int| 0 <= i < rest.len() implies 0 <= #[trigger] rest[i] < n by {
                assert(rest[i] == idxs[i]);
            }
        }
        assert(!rest.contains(k)) by {
            if rest.contains(k) {
                let i = choose|i: int| 0 <= i < rest.len() && rest[i] == k;
                assert(idxs[i] == idxs[idxs.len() - 1]);
            }
        }
        lemma_sum_at_eq_masked(amts, rest, n);
        assert(0 <= k < n) by {
            assert(idxs[idxs.len() - 1] == k);
        }
        lemma_masked_add(amts, rest, k, n);
        assert(sum_at(amts, idxs) == sum_at(amts, rest) + amts[k]);
        assert(masked_sum(amts, idxs, n) == masked_sum(amts, rest.push(k), n));
    }
}

/// Prefix sums of non-negative amounts never shrink as the prefix grows.
pub proof fn lemma_sum_prefix_le(amts: Seq<int>, i: int, j: int)
    requires
        forall|q: int| 0 <= q < amts.len() ==> #[trigger] amts[q] >= 0,
        0 <= i <= j <= amts.len(),
    ensures
        sum_prefix(amts, i) <= sum_prefix(amts, j),
    decreases j - i,
{
    if i < j {
        lemma_sum_prefix_le(amts, i, j - 1);
    }
}

/// A sum over distinct valid positions never exceeds the whole-list sum, and
/// is never negative, when every amount is non-negative.
pub proof fn lemma_sum_at_le_total(amts: Seq<int>, idxs: Seq<int>)
    requires
        forall|j: int| 0 <= j < amts.len() ==> #[trigger] amts[j] >= 0,
        valid_indices(amts.len() as int, idxs),
    ensures
        0 <= sum_at(amts, idxs) <= sum_all(amts),
{
    lemma_sum_at_eq_masked(amts, idxs, amts.len() as int);
    lemma_masked_le_prefix(amts, idxs, amts.len() as int);
}

proof fn lemma_masked_full(amts: Seq<int>, idxs: Seq<int>, n: int)
    requires
        forall|j: int| 0 <= j < n ==> idxs.contains(j),
    ensures
        masked_sum(amts, idxs, n) == sum_prefix(amts, n),
    decreases n,
{
    if n > 0 {
        lemma_masked_full(amts, idxs, n - 1);
    }
}

/// A permutation of all positions contains every position.
pub proof fn lemma_perm_contains_all(n: int, idxs: Seq<int>)
    requires
        is_perm(n, idxs),
    ensures
        forall|j: int| 0 <= j < n ==> idxs.contains(j),
{
    idxs.unique_seq_to_set();
    vstd::set_lib::lemma_int_range(0, n);
    assert(idxs.to_set().subset_of(vstd::set_lib::set_int_range(0, n))) by {
        assert forall|x: int| idxs.to_set().contains(x) implies vstd::set_lib::set_int_range(
            0,
            n,
        ).contains(x) by {
            let i = choose|i: int| 0 <= i < idxs.len() && idxs[i] == x;
            assert(0 <= idxs[i] < n);
        }
    }
    vstd::set_lib::lemma_subset_equality(idxs.to_set(), vstd::set_lib::set_int_range(0, n));
    assert forall|j: int| 0 <= j < n implies idxs.contains(j) by {
        assert(vstd::set_lib::set_int_range(0, n).contains(j));
        assert(idxs.to_set().contains(j));
    }
}

/// Summing at a permutation of all positions gives the whole-list sum.
pub proof fn lemma_sum_at_perm(amts: Seq<int>, idxs: Seq<int>)
    requires
        is_perm(amts.len() as int, idxs),
    ensures
        sum_at(amts, idxs) == sum_all(amts),
{
    lemma_perm_contains_all(amts.len() as int, idxs);
    lemma_sum_at_eq_masked(amts, idxs, amts.len() as int);
    lemma_masked_full(amts, idxs, amts.len() as int);
}

/// Appending one more position adds its amount to the sum.
pub proof fn lemma_sum_at_push(amts: Seq<int>, idxs: Seq<int>, k: int)
    ensures
        sum_at(amts, idxs.push(k)) == sum_at(amts, idxs) + amts[k],
{
    assert(idxs.push(k).drop_last() =~= idxs);
    assert(idxs.push(k).last() == k);
}

/// The sum splits off its first position as well as its last.
pub proof fn lemma_sum_at_front(amts: Seq<int>, idxs: Seq<int>)
    requires
        idxs.len() > 0,
    ensures
        sum_at(amts, idxs) == amts[idxs[0]] + sum_at(amts, idxs.subrange(1, idxs.len() as int)),
    decreases idxs.len(),
{
    if idxs.len() == 1 {
        assert(idxs.drop_last() =~= Seq::<int>::empty());
        assert(idxs.subrange(1, 1) =~= Seq::<int>::empty());
    } else {
        lemma_sum_at_front(amts, idxs.drop_last());
        assert(idxs.subrange(1, idxs.len() as int).drop_last() =~= idxs.drop_last().subrange(
            1,
            idxs.len() - 1,
        ));
        assert(idxs.subrange(1, idxs.len() as int).last() == idxs.last());
        assert(idxs.drop_last()[0] == idxs[0]);
    }
}

} // verus!
