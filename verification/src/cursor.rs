//! The state of a search and the steps that it takes. A state is a cursor:
//! one position of the list for each level down to the current one. The
//! combinations at or after the cursor are those still to come, and every
//! step either passes none of them or passes exactly those that start with
//! the cursor.

use vstd::prelude::*;
use crate::combination::{
    all_combinations, disjoint, is_combination, union_of, lemma_combination_grow,
    lemma_combination_prefix, lemma_union_disjoint,
};
use crate::lex::{reaches, lemma_lex_extend, lemma_prefix_not_before, lemma_reaches_extend};
use crate::radix::{digits_below, radix_value, lemma_radix_lower_digit, lemma_radix_nonnegative};

verus! {

/// The state of a search at level `d` is sound: the positions chosen at the
/// levels before `d` are a combination, the candidate at `d` lies after the
/// last of them and at most one past the end of the list, and each level up to
/// `d` holds the union of the masks chosen before it.
pub open spec fn cursor_ok(masks: Seq<u32>, n: nat, idx: Seq<usize>, unions: Seq<u32>, d: int) -> bool {
    &&& masks.len() <= usize::MAX
    &&& idx.len() == n
    &&& unions.len() == n
    &&& 0 <= d < n
    &&& is_combination(masks, idx.take(d), d as nat)
    &&& idx[d] <= masks.len()
    &&& d > 0 ==> idx[d - 1] < idx[d]
    &&& forall|k: int| 0 <= k <= d ==> #[trigger] unions[k] == union_of(masks, idx.take(k))
}

/// The combinations that a search at level `d` has still to yield: those at or
/// after its cursor, the positions at levels `0..=d`.
pub open spec fn ahead(masks: Seq<u32>, n: nat, idx: Seq<usize>, d: int) -> Set<Seq<usize>> {
    Set::new(|c: Seq<usize>| is_combination(masks, c, n) && reaches(c, idx.take(d + 1)))
}

/// What is left to try, one digit per level: the candidates not yet passed at
/// the levels up to `d`, and the whole list at the levels below.
pub open spec fn work_left(len: int, n: nat, idx: Seq<usize>, d: int) -> Seq<int> {
    Seq::new(n, |k: int| if k <= d { len - idx[k] } else { len })
}

/// The digits of `work_left`, read as one number.
pub open spec fn work_value(len: int, n: nat, idx: Seq<usize>, d: int) -> int {
    radix_value(work_left(len, n, idx, d), len + 1)
}

/// The digits of a sound state lie in the range of their base, so they write
/// a natural number.
pub proof fn lemma_work_in_range(masks: Seq<u32>, n: nat, idx: Seq<usize>, unions: Seq<u32>, d: int)
    requires
        cursor_ok(masks, n, idx, unions, d),
    ensures
        digits_below(work_left(masks.len() as int, n, idx, d), masks.len() as int + 1),
        work_value(masks.len() as int, n, idx, d) >= 0,
{
    let w = work_left(masks.len() as int, n, idx, d);
    assert forall|k: int| 0 <= k < w.len() implies 0 <= #[trigger] w[k] < masks.len() + 1 by {
        if k < d {
            assert(idx.take(d)[k] == idx[k]);
        }
    }
    lemma_radix_nonnegative(w, masks.len() as int + 1);
}

/// A fresh search has every combination ahead of it.
pub proof fn lemma_start(masks: Seq<u32>, n: nat, idx: Seq<usize>, unions: Seq<u32>)
    requires
        n > 0,
        masks.len() <= usize::MAX,
        idx.len() == n,
        unions.len() == n,
        idx[0] == 0,
        unions[0] == 0,
    ensures
        cursor_ok(masks, n, idx, unions, 0),
        ahead(masks, n, idx, 0) == all_combinations(masks, n),
{
    assert(idx.take(0) =~= Seq::<usize>::empty());
    assert forall|c: Seq<usize>| is_combination(masks, c, n) implies reaches(c, idx.take(1)) by {
        let e = Seq::<usize>::empty();
        assert(idx.take(1) =~= e.push(0usize));
        lemma_reaches_extend(e, 0usize, c);
        assert(e =~= c.subrange(0, 0));
    }
    assert(ahead(masks, n, idx, 0) =~= all_combinations(masks, n));
}

/// With the top level past the end of the list, nothing is ahead.
pub proof fn lemma_step_end(masks: Seq<u32>, n: nat, idx: Seq<usize>, unions: Seq<u32>)
    requires
        cursor_ok(masks, n, idx, unions, 0),
        idx[0] >= masks.len(),
    ensures
        ahead(masks, n, idx, 0) == Set::<Seq<usize>>::empty(),
{
    assert forall|c: Seq<usize>| is_combination(masks, c, n) implies !reaches(c, idx.take(1)) by {
        let e = Seq::<usize>::empty();
        assert(idx.take(1) =~= e.push(idx[0]));
        lemma_reaches_extend(e, idx[0], c);
        assert(c[0] < masks.len());
    }
    assert(ahead(masks, n, idx, 0) =~= Set::<Seq<usize>>::empty());
}

/// Moving the candidate at level `d` one position on passes exactly the
/// combinations that start with the cursor.
pub proof fn lemma_step_skip(masks: Seq<u32>, n: nat, idx: Seq<usize>, unions: Seq<u32>, d: int)
    requires
        cursor_ok(masks, n, idx, unions, d),
        idx[d] < masks.len(),
    ensures
        ({
            let idx2 = idx.update(d, (idx[d] + 1) as usize);
            &&& cursor_ok(masks, n, idx2, unions, d)
            &&& forall|c: Seq<usize>|
                is_combination(masks, c, n) ==> (reaches(c, idx2.take(d + 1)) <==> reaches(
                    c,
                    idx.take(d + 1),
                ) && !idx.take(d + 1).is_prefix_of(c))
            &&& 0 <= work_value(masks.len() as int, n, idx2, d) < work_value(
                masks.len() as int,
                n,
                idx,
                d,
            )
        }),
{
    let len = masks.len() as int;
    let x = idx[d];
    let x2 = (x + 1) as usize;
    let idx2 = idx.update(d, x2);
    let q = idx.take(d);
    assert(idx2.take(d) =~= q);
    assert forall|k: int| 0 <= k <= d implies #[trigger] unions[k] == union_of(
        masks,
        idx2.take(k),
    ) by {
        assert(idx2.take(k) =~= idx.take(k));
    }
    assert(cursor_ok(masks, n, idx2, unions, d));
    assert(idx.take(d + 1) =~= q.push(x));
    assert(idx2.take(d + 1) =~= q.push(x2));
    assert forall|c: Seq<usize>| is_combination(masks, c, n) implies (reaches(c, idx2.take(d + 1))
        <==> reaches(c, idx.take(d + 1)) && !idx.take(d + 1).is_prefix_of(c)) by {
        lemma_reaches_extend(q, x, c);
        lemma_reaches_extend(q, x2, c);
        if q.is_prefix_of(c) {
            lemma_prefix_not_before(q, c);
        }
    }
    lemma_work_in_range(masks, n, idx, unions, d);
    lemma_work_in_range(masks, n, idx2, unions, d);
    lemma_radix_lower_digit(work_left(len, n, idx2, d), work_left(len, n, idx, d), len + 1, d);
}

/// No combination starts with a cursor whose candidate shares a bit with the
/// masks chosen before it.
pub proof fn lemma_no_extension(masks: Seq<u32>, n: nat, idx: Seq<usize>, unions: Seq<u32>, d: int, c: Seq<usize>)
    requires
        cursor_ok(masks, n, idx, unions, d),
        idx[d] < masks.len(),
        !disjoint(unions[d], masks[idx[d] as int]),
        is_combination(masks, c, n),
    ensures
        !idx.take(d + 1).is_prefix_of(c),
{
    let p = idx.take(d + 1);
    let q = idx.take(d);
    if p.is_prefix_of(c) {
        lemma_union_disjoint(masks, q, masks[idx[d] as int]);
        let i = choose|i: int| 0 <= i < q.len() && !disjoint(masks[#[trigger] q[i] as int], masks[idx[d] as int]);
        assert(p[i] == c.subrange(0, d + 1)[i]);
        assert(p[d] == c.subrange(0, d + 1)[d]);
        assert(q[i] == c[i]);
        assert(idx[d] == c[d]);
    }
}

/// Going one level down, to the position after the one just chosen, passes
/// nothing.
pub proof fn lemma_step_descend(masks: Seq<u32>, n: nat, idx: Seq<usize>, unions: Seq<u32>, d: int)
    requires
        cursor_ok(masks, n, idx, unions, d),
        idx[d] < masks.len(),
        d + 1 < n,
        disjoint(unions[d], masks[idx[d] as int]),
    ensures
        ({
            let idx2 = idx.update(d + 1, (idx[d] + 1) as usize);
            let unions2 = unions.update(d + 1, unions[d] | masks[idx[d] as int]);
            &&& cursor_ok(masks, n, idx2, unions2, d + 1)
            &&& ahead(masks, n, idx2, d + 1) == ahead(masks, n, idx, d)
            &&& 0 <= work_value(masks.len() as int, n, idx2, d + 1) < work_value(
                masks.len() as int,
                n,
                idx,
                d,
            )
        }),
{
    let len = masks.len() as int;
    let x = idx[d];
    let x2 = (x + 1) as usize;
    let idx2 = idx.update(d + 1, x2);
    let unions2 = unions.update(d + 1, unions[d] | masks[x as int]);
    let q = idx.take(d);
    let p = idx.take(d + 1);
    assert(p =~= q.push(x));
    assert(idx2.take(d + 1) =~= p);
    assert(idx2.take(d + 2) =~= p.push(x2));
    assert(d > 0 ==> q.last() == idx[d - 1]);
    lemma_combination_grow(masks, q, x);
    assert forall|k: int| 0 <= k <= d + 1 implies #[trigger] unions2[k] == union_of(
        masks,
        idx2.take(k),
    ) by {
        if k <= d {
            assert(idx2.take(k) =~= idx.take(k));
        } else {
            assert(p.drop_last() =~= q);
        }
    }
    assert(cursor_ok(masks, n, idx2, unions2, d + 1));
    assert forall|c: Seq<usize>| is_combination(masks, c, n) implies (reaches(c, p.push(x2))
        <==> reaches(c, p)) by {
        lemma_reaches_extend(p, x2, c);
        if p.is_prefix_of(c) {
            assert(p[d] == c.subrange(0, d + 1)[d]);
            assert(c[d] < c[d + 1]);
        }
    }
    assert(ahead(masks, n, idx2, d + 1) =~= ahead(masks, n, idx, d));
    lemma_work_in_range(masks, n, idx, unions, d);
    lemma_work_in_range(masks, n, idx2, unions2, d + 1);
    lemma_radix_lower_digit(
        work_left(len, n, idx2, d + 1),
        work_left(len, n, idx, d),
        len + 1,
        d + 1,
    );
}

/// With level `d` past the end of the list, going one level up and one
/// position on there passes nothing.
pub proof fn lemma_step_backtrack(masks: Seq<u32>, n: nat, idx: Seq<usize>, unions: Seq<u32>, d: int)
    requires
        cursor_ok(masks, n, idx, unions, d),
        idx[d] >= masks.len(),
        d > 0,
    ensures
        idx[d - 1] < masks.len(),
        ({
            let idx2 = idx.update(d - 1, (idx[d - 1] + 1) as usize);
            &&& cursor_ok(masks, n, idx2, unions, d - 1)
            &&& ahead(masks, n, idx2, d - 1) == ahead(masks, n, idx, d)
            &&& 0 <= work_value(masks.len() as int, n, idx2, d - 1) < work_value(
                masks.len() as int,
                n,
                idx,
                d,
            )
        }),
{
    let len = masks.len() as int;
    let x = idx[d];
    let q = idx.take(d);
    let q0 = idx.take(d - 1);
    let y = idx[d - 1];
    assert(q[d - 1] == y);
    let y2 = (y + 1) as usize;
    let idx2 = idx.update(d - 1, y2);
    assert(q =~= q0.push(y));
    assert(idx.take(d + 1) =~= q.push(x));
    assert(idx2.take(d) =~= q0.push(y2));
    assert(idx2.take(d - 1) =~= q0);
    lemma_combination_prefix(masks, q, d as nat, (d - 1) as nat);
    assert(q.take(d - 1) =~= q0);
    if d > 1 {
        assert(q[d - 2] < q[d - 1]);
        assert(q[d - 2] == idx[d - 2]);
    }
    assert forall|k: int| 0 <= k <= d - 1 implies #[trigger] unions[k] == union_of(
        masks,
        idx2.take(k),
    ) by {
        assert(idx2.take(k) =~= idx.take(k));
    }
    assert(cursor_ok(masks, n, idx2, unions, d - 1));
    assert forall|c: Seq<usize>| is_combination(masks, c, n) implies (reaches(c, q0.push(y2))
        <==> reaches(c, q.push(x))) by {
        lemma_reaches_extend(q, x, c);
        lemma_lex_extend(q0, y, c);
        lemma_reaches_extend(q0, y2, c);
        assert(c[d] < masks.len());
    }
    assert(ahead(masks, n, idx2, d - 1) =~= ahead(masks, n, idx, d));
    lemma_work_in_range(masks, n, idx, unions, d);
    lemma_work_in_range(masks, n, idx2, unions, d - 1);
    lemma_radix_lower_digit(
        work_left(len, n, idx2, d - 1),
        work_left(len, n, idx, d),
        len + 1,
        d - 1,
    );
}

} // verus!
