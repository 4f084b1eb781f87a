//! Lexicographic order on index tuples, and the facts about it that the
//! search relies on.

use vstd::prelude::*;

verus! {

/// `a` and `b` agree on every position before `k`, and `a` is smaller at `k`.
pub open spec fn precedes_at(a: Seq<usize>, b: Seq<usize>, k: int) -> bool {
    &&& 0 <= k < a.len()
    &&& k < b.len()
    &&& a[k] < b[k]
    &&& forall|j: int|
        #![trigger a[j]]
        #![trigger b[j]]
        0 <= j < k ==> a[j] == b[j]
}

/// Strict lexicographic order: the first position where the two tuples differ
/// holds the smaller value in `a`.
pub open spec fn lex_lt(a: Seq<usize>, b: Seq<usize>) -> bool {
    exists|k: int| precedes_at(a, b, k)
}

/// Every tuple of `s` comes strictly before all tuples that follow it.
pub open spec fn lex_ascending(s: Seq<Seq<usize>>) -> bool {
    forall|i: int, j: int| 0 <= i < j < s.len() ==> lex_lt(#[trigger] s[i], #[trigger] s[j])
}

/// `c` lies at or after the cursor `p`: either `c` starts with `p`, or `p`
/// comes before `c` in lexicographic order.
pub open spec fn reaches(c: Seq<usize>, p: Seq<usize>) -> bool {
    p.is_prefix_of(c) || lex_lt(p, c)
}

/// No tuple comes before itself.
pub proof fn lemma_lex_irreflexive(a: Seq<usize>)
    ensures
        !lex_lt(a, a),
{
}

/// Two tuples are never each before the other.
pub proof fn lemma_lex_asymmetric(a: Seq<usize>, b: Seq<usize>)
    requires
        lex_lt(a, b),
    ensures
        !lex_lt(b, a),
{
    if lex_lt(b, a) {
        let k1 = choose|k: int| precedes_at(a, b, k);
        let k2 = choose|k: int| precedes_at(b, a, k);
        if k1 < k2 {
            assert(b[k1] == a[k1]);
        } else if k2 < k1 {
            assert(a[k2] == b[k2]);
        }
    }
}

/// A tuple never comes before one that it is a prefix of.
pub proof fn lemma_prefix_not_before(p: Seq<usize>, c: Seq<usize>)
    requires
        p.is_prefix_of(c),
    ensures
        !lex_lt(p, c),
{
    if lex_lt(p, c) {
        let k = choose|k: int| precedes_at(p, c, k);
        assert(p[k] == c.subrange(0, p.len() as int)[k]);
    }
}

/// Comparing a cursor that was extended by one value: it comes before `c` when
/// the shorter cursor does, or when `c` starts with the shorter cursor and
/// holds a larger value at the new position.
pub proof fn lemma_lex_extend(q: Seq<usize>, x: usize, c: Seq<usize>)
    requires
        q.len() < c.len(),
    ensures
        lex_lt(q.push(x), c) <==> lex_lt(q, c) || (q.is_prefix_of(c) && x < c[q.len() as int]),
{
    let p = q.push(x);
    let m = q.len() as int;
    if lex_lt(p, c) {
        let k = choose|k: int| precedes_at(p, c, k);
        if k < m {
            assert forall|j: int| 0 <= j < k implies q[j] == c[j] by {
                assert(p[j] == c[j]);
            }
            assert(q[k] == p[k]);
            assert(precedes_at(q, c, k));
        } else {
            assert forall|j: int| 0 <= j < m implies q[j] == c[j] by {
                assert(p[j] == c[j]);
            }
            assert(q =~= c.subrange(0, m));
        }
    }
    if lex_lt(q, c) {
        let k = choose|k: int| precedes_at(q, c, k);
        assert(p[k] == q[k]);
        assert forall|j: int| 0 <= j < k implies p[j] == c[j] by {
            assert(q[j] == c[j]);
        }
        assert(precedes_at(p, c, k));
    }
    if q.is_prefix_of(c) && x < c[m] {
        assert forall|j: int| 0 <= j < m implies p[j] == c[j] by {
            assert(q[j] == c.subrange(0, m)[j]);
        }
        assert(precedes_at(p, c, m));
    }
}

/// Reaching a cursor that was extended by one value: `c` lies at or after it
/// when the shorter cursor comes before `c`, or when `c` starts with the
/// shorter cursor and holds at least `x` at the new position.
pub proof fn lemma_reaches_extend(q: Seq<usize>, x: usize, c: Seq<usize>)
    requires
        q.len() < c.len(),
    ensures
        reaches(c, q.push(x)) <==> lex_lt(q, c) || (q.is_prefix_of(c) && x <= c[q.len() as int]),
        q.push(x).is_prefix_of(c) <==> q.is_prefix_of(c) && x == c[q.len() as int],
{
    let p = q.push(x);
    let m = q.len() as int;
    lemma_lex_extend(q, x, c);
    if p.is_prefix_of(c) {
        assert(q =~= c.subrange(0, m)) by {
            assert forall|j: int| 0 <= j < m implies q[j] == c[j] by {
                assert(p[j] == c.subrange(0, m + 1)[j]);
            }
        }
        assert(p[m] == c.subrange(0, m + 1)[m]);
    }
    if q.is_prefix_of(c) && x == c[m] {
        assert(p =~= c.subrange(0, m + 1)) by {
            assert forall|j: int| 0 <= j < m + 1 implies p[j] == c[j] by {
                if j < m {
                    assert(q[j] == c.subrange(0, m)[j]);
                }
            }
        }
    }
}

/// Two lists in strictly ascending lexicographic order that hold the same
/// tuples are equal.
pub proof fn lemma_ascending_same_members(a: Seq<Seq<usize>>, b: Seq<Seq<usize>>)
    requires
        lex_ascending(a),
        lex_ascending(b),
        forall|c: Seq<usize>| a.contains(c) <==> b.contains(c),
    ensures
        a == b,
    decreases a.len(),
{
    if a.len() == 0 {
        if b.len() > 0 {
            assert(b.contains(b[0]));
        }
        assert(a =~= b);
    } else {
        let top = a.last();
        assert(a.contains(top));
        let k = choose|k: int| 0 <= k < b.len() && b[k] == top;
        let other = b.last();
        assert(b.contains(other));
        let i = choose|i: int| 0 <= i < a.len() && a[i] == other;
        if i < a.len() - 1 {
            assert(lex_lt(a[i], a[a.len() - 1]));
            if k < b.len() - 1 {
                assert(lex_lt(b[k], b[b.len() - 1]));
                lemma_lex_asymmetric(top, other);
            }
        }
        assert(top == other);
        let a0 = a.drop_last();
        let b0 = b.drop_last();
        assert forall|c: Seq<usize>| a0.contains(c) <==> b0.contains(c) by {
            if a0.contains(c) {
                let j = choose|j: int| 0 <= j < a0.len() && a0[j] == c;
                assert(lex_lt(a[j], a[a.len() - 1]));
                lemma_lex_irreflexive(top);
                assert(a.contains(c));
                let m = choose|m: int| 0 <= m < b.len() && b[m] == c;
                assert(b0[m] == c);
            }
            if b0.contains(c) {
                let j = choose|j: int| 0 <= j < b0.len() && b0[j] == c;
                assert(lex_lt(b[j], b[b.len() - 1]));
                lemma_lex_irreflexive(other);
                assert(b.contains(c));
                let m = choose|m: int| 0 <= m < a.len() && a[m] == c;
                assert(a0[m] == c);
            }
        }
        assert forall|i: int, j: int| 0 <= i < j < a0.len() implies lex_lt(
            #[trigger] a0[i],
            #[trigger] a0[j],
        ) by {
            assert(lex_lt(a[i], a[j]));
        }
        assert forall|i: int, j: int| 0 <= i < j < b0.len() implies lex_lt(
            #[trigger] b0[i],
            #[trigger] b0[j],
        ) by {
            assert(lex_lt(b[i], b[j]));
        }
        lemma_ascending_same_members(a0, b0);
        assert(a =~= a0.push(top));
        assert(b =~= b0.push(other));
    }
}

} // verus!
