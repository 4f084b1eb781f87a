//! The search: a resumable enumeration of the combinations of a list of
//! masks, in lexicographic order of their positions.

use vstd::prelude::*;
use crate::combination::{
    all_combinations, is_combination, is_enumeration, lemma_combination_grow,
    lemma_pairwise_disjoint, lemma_too_few_masks,
};
use crate::cursor::{
    ahead, cursor_ok, work_value, lemma_no_extension, lemma_start, lemma_step_backtrack,
    lemma_step_descend, lemma_step_end, lemma_step_skip,
};
use crate::lex::{lex_ascending, lex_lt, lemma_lex_asymmetric};

verus! {

/// A resumable search for the combinations of `n` masks of a list. Each call
/// of [`Solver::next`] yields the next combination in lexicographic order of
/// the positions, until none is left.
pub struct Solver<'a> {
    mappings: &'a Vec<u32>,
    group: usize,
    indices: Vec<usize>,
    unions: Vec<u32>,
    depth: usize,
    exhausted: bool,
}

impl<'a> Solver<'a> {
    /// The masks that are searched.
    pub closed spec fn masks(&self) -> Seq<u32> {
        self.mappings@
    }

    /// The number of masks in a combination.
    pub closed spec fn arity(&self) -> nat {
        self.group as nat
    }

    /// The state is sound.
    pub closed spec fn wf(&self) -> bool {
        self.exhausted || self.group == 0 || cursor_ok(
            self.mappings@,
            self.group as nat,
            self.indices@,
            self.unions@,
            self.depth as int,
        )
    }

    /// The combinations that are still to be yielded.
    pub closed spec fn pending(&self) -> Set<Seq<usize>> {
        if self.exhausted {
            Set::empty()
        } else if self.group == 0 {
            all_combinations(self.mappings@, 0)
        } else {
            ahead(self.mappings@, self.group as nat, self.indices@, self.depth as int)
        }
    }

    /// A bound on the work that is left. Every combination that is yielded
    /// lowers it.
    pub closed spec fn budget(&self) -> nat {
        if self.exhausted {
            0
        } else if self.group == 0 {
            1
        } else {
            (1 + work_value(
                self.mappings@.len() as int,
                self.group as nat,
                self.indices@,
                self.depth as int,
            )) as nat
        }
    }

    /// A search for the combinations of `n` of the masks in `mappings`, with
    /// all of them still to come.
    pub fn new(mappings: &'a Vec<u32>, n: usize) -> (s: Self)
        ensures
            s.wf(),
            s.masks() == mappings@,
            s.arity() == n,
            s.pending() == all_combinations(mappings@, n as nat),
    {
        if n > mappings.len() {
            proof {
                lemma_too_few_masks(mappings@, n as nat);
            }
            Solver {
                mappings,
                group: n,
                indices: Vec::new(),
                unions: Vec::new(),
                depth: 0,
                exhausted: true,
            }
        } else {
            let indices = vec![0usize; n];
            let unions = vec![0u32; n];
            proof {
                if n > 0 {
                    lemma_start(mappings@, n as nat, indices@, unions@);
                }
            }
            Solver { mappings, group: n, indices, unions, depth: 0, exhausted: false }
        }
    }

    /// One call of [`Solver::next`] that returns `r` takes the search from
    /// `self` to `after`: a combination that is returned was pending, came
    /// before every other pending one, and is pending no longer; `None` is
    /// returned when nothing was pending.
    pub open spec fn steps_to(&self, after: &Self, r: Option<Seq<usize>>) -> bool {
        &&& after.wf()
        &&& after.masks() == self.masks()
        &&& after.arity() == self.arity()
        &&& match r {
            Some(c) => {
                &&& is_combination(self.masks(), c, self.arity())
                &&& self.pending().contains(c)
                &&& forall|o: Seq<usize>| #[trigger] self.pending().contains(o) ==> o == c || lex_lt(c, o)
                &&& after.pending() == self.pending().remove(c)
                &&& after.budget() < self.budget()
            },
            None => {
                &&& self.pending() == Set::<Seq<usize>>::empty()
                &&& after.pending() == Set::<Seq<usize>>::empty()
            },
        }
    }

    /// What a call of [`Solver::next`] returns, and what is pending after it,
    /// depend on nothing but what was pending before it: two searches with
    /// the same combinations pending take the same step.
    pub proof fn lemma_step_determined(
        &self,
        after: &Self,
        r: Option<Seq<usize>>,
        other: &Self,
        other_after: &Self,
        other_r: Option<Seq<usize>>,
    )
        requires
            self.pending() == other.pending(),
            self.steps_to(after, r),
            other.steps_to(other_after, other_r),
        ensures
            r == other_r,
            after.pending() == other_after.pending(),
    {
        match (r, other_r) {
            (Some(c), Some(o)) => {
                assert(other.pending().contains(c));
                assert(self.pending().contains(o));
                if c != o {
                    lemma_lex_asymmetric(c, o);
                }
            },
            (Some(c), None) => {
                assert(other.pending().contains(c));
            },
            (None, Some(o)) => {
                assert(self.pending().contains(o));
            },
            (None, None) => {},
        }
    }

    /// `states` are the states of one search before and after successive
    /// calls of [`Solver::next`], and `yielded` the combinations that the
    /// calls returned.
    pub open spec fn is_run(states: Seq<Self>, yielded: Seq<Seq<usize>>) -> bool {
        &&& states.len() == yielded.len() + 1
        &&& forall|i: int|
            0 <= i < yielded.len() ==> (#[trigger] states[i]).steps_to(
                &states[i + 1],
                Some(yielded[i]),
            )
    }

    /// Whatever a search yields over successive calls comes in strictly
    /// ascending lexicographic order; so nothing is yielded twice.
    pub proof fn lemma_run_ascending(states: Seq<Self>, yielded: Seq<Seq<usize>>)
        requires
            Self::is_run(states, yielded),
        ensures
            lex_ascending(yielded),
    {
        assert forall|i: int, j: int| 0 <= i < j < yielded.len() implies lex_lt(
            #[trigger] yielded[i],
            #[trigger] yielded[j],
        ) by {
            Self::lemma_run_pending_shrinks(states, yielded, i + 1, j);
            assert(states[i].steps_to(&states[i + 1], Some(yielded[i])));
            assert(states[j].steps_to(&states[j + 1], Some(yielded[j])));
            assert(states[i + 1].pending().contains(yielded[j]));
            assert(states[i].pending().contains(yielded[j]));
        }
    }

    /// In a run, what is pending at a later state was pending at every
    /// earlier one.
    pub proof fn lemma_run_pending_shrinks(
        states: Seq<Self>,
        yielded: Seq<Seq<usize>>,
        i: int,
        j: int,
    )
        requires
            Self::is_run(states, yielded),
            0 <= i <= j < states.len(),
        ensures
            states[j].pending().subset_of(states[i].pending()),
        decreases j - i,
    {
        if i < j {
            Self::lemma_run_pending_shrinks(states, yielded, i, j - 1);
            assert(states[j - 1].steps_to(&states[j], Some(yielded[j - 1])));
        }
    }

    /// Yields the first pending combination in lexicographic order and takes
    /// it off the pending ones, or `None` when nothing is pending.
    pub fn next(&mut self) -> (r: Option<Vec<usize>>)
        requires
            old(self).wf(),
        ensures
            old(self).steps_to(
                final(self),
                match r {
                    Some(c) => Some(c@),
                    None => None,
                },
            ),
    {
        if self.exhausted {
            return None;
        }
        if self.group == 0 {
            self.exhausted = true;
            let empty: Vec<usize> = Vec::new();
            proof {
                assert(is_combination(self.mappings@, empty@, 0));
                assert forall|o: Seq<usize>| #[trigger]
                    old(self).pending().contains(o) implies o == empty@ by {
                    assert(o =~= empty@);
                }
                assert(self.pending() =~= old(self).pending().remove(empty@));
            }
            return Some(empty);
        }
        let len = self.mappings.len();
        loop
            invariant
                self.group > 0,
                !self.exhausted,
                self.wf(),
                len == self.mappings@.len(),
                self.mappings == old(self).mappings,
                self.group == old(self).group,
                self.pending() == old(self).pending(),
                self.budget() <= old(self).budget(),
            decreases self.budget(),
        {
            let d = self.depth;
            let i = self.indices[d];
            let ghost idx = self.indices@;
            let ghost uni = self.unions@;
            if i >= len {
                if d == 0 {
                    proof {
                        lemma_step_end(self.mappings@, self.group as nat, idx, uni);
                    }
                    self.exhausted = true;
                    return None;
                }
                proof {
                    lemma_step_backtrack(self.mappings@, self.group as nat, idx, uni, d as int);
                }
                self.depth = d - 1;
                self.indices[d - 1] += 1;
            } else {
                let mask = self.mappings[i];
                if self.unions[d] & mask != 0 {
                    proof {
                        lemma_step_skip(self.mappings@, self.group as nat, idx, uni, d as int);
                        assert forall|c: Seq<usize>|
                            is_combination(self.mappings@, c, self.group as nat) implies !idx.take(
                            d + 1,
                        ).is_prefix_of(c) by {
                            lemma_no_extension(
                                self.mappings@,
                                self.group as nat,
                                idx,
                                uni,
                                d as int,
                                c,
                            );
                        }
                    }
                    self.indices[d] = i + 1;
                    proof {
                        assert(self.pending() =~= old(self).pending());
                    }
                } else if d + 1 == self.group {
                    let found = self.indices.clone();
                    proof {
                        lemma_step_skip(self.mappings@, self.group as nat, idx, uni, d as int);
                        assert(idx.take(d + 1) =~= idx);
                        assert(found@ =~= idx);
                        if d > 0 {
                            assert(idx.take(d as int).last() == idx[d - 1]);
                        }
                        lemma_combination_grow(self.mappings@, idx.take(d as int), i);
                        assert(idx.take(d as int).push(i) =~= idx);
                        assert forall|o: Seq<usize>| #[trigger]
                            self.pending().contains(o) implies o == idx || lex_lt(idx, o) by {
                            assert(idx =~= o.subrange(0, idx.len() as int) ==> idx =~= o);
                        }
                        assert(idx.is_prefix_of(idx)) by {
                            assert(idx =~= idx.subrange(0, idx.len() as int));
                        }
                    }
                    self.indices[d] = i + 1;
                    proof {
                        assert forall|o: Seq<usize>|
                            is_combination(self.mappings@, o, self.group as nat) implies (
                        idx.is_prefix_of(o) <==> o == idx) by {
                            assert(idx =~= o.subrange(0, idx.len() as int) ==> idx =~= o);
                            assert(o == idx ==> idx =~= o.subrange(0, idx.len() as int));
                        }
                        assert(self.pending() =~= old(self).pending().remove(found@));
                    }
                    return Some(found);
                } else {
                    proof {
                        lemma_step_descend(self.mappings@, self.group as nat, idx, uni, d as int);
                    }
                    self.unions[d + 1] = self.unions[d] | mask;
                    self.depth = d + 1;
                    self.indices[d + 1] = i + 1;
                }
            }
        }
    }
}

/// The position tuples that `found` holds.
pub open spec fn tuples(found: Seq<Vec<usize>>) -> Seq<Seq<usize>> {
    found.map_values(|c: Vec<usize>| c@)
}

/// All combinations of `n` of the masks in `mapping_list`, in lexicographic
/// order of their positions.
pub fn solve_function(mapping_list: &Vec<u32>, n: usize) -> (found: Vec<Vec<usize>>)
    ensures
        is_enumeration(mapping_list@, n as nat, tuples(found@)),
        forall|k: int, a: int, b: int|
            0 <= k < found.len() && 0 <= a < n && 0 <= b < n && a != b ==> mapping_list@[(
            #[trigger] found@[k]@[a]) as int] & mapping_list@[(#[trigger] found@[k]@[b]) as int] == 0,
        tuples(found@).no_duplicates(),
        all_combinations(mapping_list@, n as nat).finite(),
        found.len() == all_combinations(mapping_list@, n as nat).len(),
{
    let mut solver = Solver::new(mapping_list, n);
    let mut found: Vec<Vec<usize>> = Vec::new();
    loop
        invariant
            solver.wf(),
            solver.masks() == mapping_list@,
            solver.arity() == n,
            lex_ascending(tuples(found@)),
            forall|i: int, o: Seq<usize>|
                0 <= i < found.len() && #[trigger] solver.pending().contains(o) ==> lex_lt(
                    #[trigger] tuples(found@)[i],
                    o,
                ),
            forall|c: Seq<usize>| #[trigger]
                is_combination(mapping_list@, c, n as nat) <==> tuples(found@).contains(c)
                    || solver.pending().contains(c),
        ensures
            is_enumeration(mapping_list@, n as nat, tuples(found@)),
        decreases solver.budget(),
    {
        let ghost before = tuples(found@);
        let ghost pending = solver.pending();
        match solver.next() {
            Some(c) => {
                found.push(c);
                proof {
                    let now = tuples(found@);
                    assert(now =~= before.push(c@));
                    assert forall|x: Seq<usize>| now.contains(x) <==> before.contains(x) || x == c@ by {
                        if now.contains(x) {
                            let i = choose|i: int| 0 <= i < now.len() && now[i] == x;
                            if i < before.len() {
                                assert(before[i] == x);
                            }
                        }
                        if before.contains(x) {
                            let i = choose|i: int| 0 <= i < before.len() && before[i] == x;
                            assert(now[i] == x);
                        }
                        assert(now[before.len() as int] == c@);
                    }
                    assert forall|x: Seq<usize>| #[trigger]
                        is_combination(mapping_list@, x, n as nat) <==> now.contains(x)
                            || solver.pending().contains(x) by {
                        assert(solver.pending().contains(x) <==> pending.contains(x) && x != c@);
                    }
                    assert forall|i: int, j: int| 0 <= i < j < now.len() implies lex_lt(
                        #[trigger] now[i],
                        #[trigger] now[j],
                    ) by {
                        assert(now[i] == before[i]);
                        if j < before.len() {
                            assert(now[j] == before[j]);
                        } else {
                            assert(pending.contains(c@));
                        }
                    }
                    assert forall|i: int, o: Seq<usize>|
                        0 <= i < found.len() && #[trigger] solver.pending().contains(o) implies lex_lt(
                        #[trigger] now[i],
                        o,
                    ) by {
                        assert(pending.contains(o));
                        if i < before.len() {
                            assert(now[i] == before[i]);
                        }
                    }
                }
            },
            None => {
                proof {
                    assert forall|c: Seq<usize>| #[trigger]
                        is_combination(mapping_list@, c, n as nat) <==> before.contains(c) by {
                        assert(!pending.contains(c));
                        assert(!solver.pending().contains(c));
                    }
                }
                break ;
            },
        }
    }
    proof {
        let out = tuples(found@);
        assert forall|i: int, j: int| 0 <= i < out.len() && 0 <= j < out.len() && i != j implies out[i]
            != out[j] by {
            if i < j {
                assert(lex_lt(out[i], out[j]));
            } else {
                assert(lex_lt(out[j], out[i]));
            }
        }
        assert(out.to_set() =~= all_combinations(mapping_list@, n as nat));
        vstd::seq_lib::seq_to_set_is_finite(out);
        out.unique_seq_to_set();
        assert forall|k: int, a: int, b: int|
            0 <= k < found.len() && 0 <= a < n && 0 <= b < n && a != b implies mapping_list@[(
        #[trigger] found@[k]@[a]) as int] & mapping_list@[(#[trigger] found@[k]@[b]) as int] == 0 by {
            assert(out[k] == found@[k]@);
            assert(out.contains(out[k]));
            lemma_pairwise_disjoint(mapping_list@, out[k], n as nat, a, b);
        }
    }
    found
}

} // verus!
