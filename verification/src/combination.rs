//! Combinations: groups of masks out of a list, picked by position, no two
//! of which share a bit.

use vstd::prelude::*;
use crate::lex::{lex_ascending, lemma_ascending_same_members};

verus! {

/// Two masks have no bit in common.
pub open spec fn disjoint(a: u32, b: u32) -> bool {
    a & b == 0
}

/// `c` picks `n` positions of `masks`, in strictly ascending order, whose
/// masks are pairwise disjoint.
pub open spec fn is_combination(masks: Seq<u32>, c: Seq<usize>, n: nat) -> bool {
    &&& c.len() == n
    &&& forall|i: int| 0 <= i < c.len() ==> #[trigger] c[i] < masks.len()
    &&& forall|i: int, j: int| 0 <= i < j < c.len() ==> #[trigger] c[i] < #[trigger] c[j]
    &&& forall|i: int, j: int|
        0 <= i < j < c.len() ==> disjoint(masks[#[trigger] c[i] as int], masks[#[trigger] c[j] as int])
}

/// All combinations of `n` masks.
pub open spec fn all_combinations(masks: Seq<u32>, n: nat) -> Set<Seq<usize>> {
    Set::new(|c: Seq<usize>| is_combination(masks, c, n))
}

/// The bits of all the masks that `c` picks.
pub open spec fn union_of(masks: Seq<u32>, c: Seq<usize>) -> u32
    decreases c.len(),
{
    if c.len() == 0 {
        0
    } else {
        union_of(masks, c.drop_last()) | masks[c.last() as int]
    }
}

/// A mask is disjoint from a union exactly when it is disjoint from every
/// mask that went into it.
pub proof fn lemma_union_disjoint(masks: Seq<u32>, c: Seq<usize>, m: u32)
    ensures
        disjoint(union_of(masks, c), m) <==> forall|i: int|
            0 <= i < c.len() ==> disjoint(masks[#[trigger] c[i] as int], m),
    decreases c.len(),
{
    if c.len() > 0 {
        let rest = c.drop_last();
        let u = union_of(masks, rest);
        let last = masks[c.last() as int];
        lemma_union_disjoint(masks, rest, m);
        assert((u | last) & m == 0 <==> u & m == 0 && last & m == 0) by (bit_vector);
        if disjoint(union_of(masks, c), m) {
            assert forall|i: int| 0 <= i < c.len() implies disjoint(
                masks[#[trigger] c[i] as int],
                m,
            ) by {
                if i < rest.len() {
                    assert(rest[i] == c[i]);
                }
            }
        } else if disjoint(last, m) {
            let i = choose|i: int| 0 <= i < rest.len() && !disjoint(masks[#[trigger] rest[i] as int], m);
            assert(rest[i] == c[i]);
        } else {
            assert(c[c.len() - 1] == c.last());
        }
    } else {
        assert(0u32 & m == 0) by (bit_vector);
    }
}

/// A strictly ascending tuple holds at least `k` at position `k`.
pub proof fn lemma_ascending_floor(c: Seq<usize>, k: int)
    requires
        forall|i: int, j: int| 0 <= i < j < c.len() ==> #[trigger] c[i] < #[trigger] c[j],
        0 <= k < c.len(),
    ensures
        c[k] >= k,
    decreases k,
{
    if k > 0 {
        lemma_ascending_floor(c, k - 1);
    }
}

/// No list has a combination of more masks than it holds.
pub proof fn lemma_too_few_masks(masks: Seq<u32>, n: nat)
    requires
        n > masks.len(),
    ensures
        all_combinations(masks, n) == Set::<Seq<usize>>::empty(),
{
    assert forall|c: Seq<usize>| !is_combination(masks, c, n) by {
        if is_combination(masks, c, n) {
            lemma_ascending_floor(c, n - 1);
        }
    }
    assert(all_combinations(masks, n) =~= Set::<Seq<usize>>::empty());
}

/// The first positions of a combination are a combination.
pub proof fn lemma_combination_prefix(masks: Seq<u32>, c: Seq<usize>, n: nat, k: nat)
    requires
        is_combination(masks, c, n),
        k <= n,
    ensures
        is_combination(masks, c.take(k as int), k),
{
    let p = c.take(k as int);
    assert forall|i: int| 0 <= i < p.len() implies #[trigger] p[i] < masks.len() by {
        assert(p[i] == c[i]);
    }
    assert forall|i: int, j: int| 0 <= i < j < p.len() implies #[trigger] p[i] < #[trigger] p[j] by {
        assert(p[i] == c[i] && p[j] == c[j]);
    }
    assert forall|i: int, j: int| 0 <= i < j < p.len() implies disjoint(
        masks[#[trigger] p[i] as int],
        masks[#[trigger] p[j] as int],
    ) by {
        assert(p[i] == c[i] && p[j] == c[j]);
    }
}

/// A combination grows by a position that lies after its last one and whose
/// mask is disjoint from the union of those picked so far.
pub proof fn lemma_combination_grow(masks: Seq<u32>, q: Seq<usize>, x: usize)
    requires
        is_combination(masks, q, q.len()),
        x < masks.len(),
        q.len() > 0 ==> q.last() < x,
        disjoint(union_of(masks, q), masks[x as int]),
    ensures
        is_combination(masks, q.push(x), q.len() + 1),
{
    let p = q.push(x);
    let m = q.len() as int;
    lemma_union_disjoint(masks, q, masks[x as int]);
    assert forall|i: int| 0 <= i < p.len() implies #[trigger] p[i] < masks.len() by {
        if i < m {
            assert(p[i] == q[i]);
        }
    }
    assert forall|i: int, j: int| 0 <= i < j < p.len() implies #[trigger] p[i] < #[trigger] p[j] by {
        assert(p[i] == q[i]);
        if j < m {
            assert(p[j] == q[j]);
        } else if i < m - 1 {
            assert(q[i] < q[m - 1]);
        }
    }
    assert forall|i: int, j: int| 0 <= i < j < p.len() implies disjoint(
        masks[#[trigger] p[i] as int],
        masks[#[trigger] p[j] as int],
    ) by {
        assert(p[i] == q[i]);
        if j < m {
            assert(p[j] == q[j]);
        }
    }
}

/// A combination picks masks that are disjoint whichever way two of them are
/// taken.
pub proof fn lemma_pairwise_disjoint(masks: Seq<u32>, c: Seq<usize>, n: nat, a: int, b: int)
    requires
        is_combination(masks, c, n),
        0 <= a < n,
        0 <= b < n,
        a != b,
    ensures
        masks[c[a] as int] & masks[c[b] as int] == 0,
{
    let x = masks[c[a] as int];
    let y = masks[c[b] as int];
    assert(x & y == y & x) by (bit_vector);
    if a < b {
        assert(disjoint(masks[c[a] as int], masks[c[b] as int]));
    } else {
        assert(disjoint(masks[c[b] as int], masks[c[a] as int]));
    }
}

/// `out` lists the combinations of `n` masks in lexicographic order of their
/// positions: each of them, and nothing else.
pub open spec fn is_enumeration(masks: Seq<u32>, n: nat, out: Seq<Seq<usize>>) -> bool {
    &&& lex_ascending(out)
    &&& forall|c: Seq<usize>| out.contains(c) <==> is_combination(masks, c, n)
}

/// The list of all combinations in lexicographic order is one list: two
/// enumerations of the same masks with the same `n` are equal, tuple for
/// tuple.
pub proof fn lemma_enumeration_unique(masks: Seq<u32>, n: nat, a: Seq<Seq<usize>>, b: Seq<Seq<usize>>)
    requires
        is_enumeration(masks, n, a),
        is_enumeration(masks, n, b),
    ensures
        a == b,
{
    lemma_ascending_same_members(a, b);
}

} // verus!
