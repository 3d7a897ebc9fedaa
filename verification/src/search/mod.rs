//! Iterative-deepening depth-first search for the twists that solve a stage.
use vstd::prelude::*;

use crate::canonical::PrevTwists;
use crate::linalg::axis::axis_of;
use crate::linalg::facet::facet_of;
use crate::linalg::{Axis, Facet, Mat4, TransformByMat4};
use crate::puzzle::twist::conjugated;
use crate::xy_rot::xy_mat;
use crate::puzzle::sim::setup_pieces;
use crate::puzzle::Twist;
use crate::stages::Stage;

pub mod partial;
pub mod solve;

pub use partial::{extended, Partial};
pub use solve::solve_stages;

verus! {

/// The search found no solution at any depth of its range.
#[derive(Debug, Default, Copy, Clone, PartialEq, Eq, Structural, Hash)]
pub struct NoSolution;

/// The facet that a twist turns.
pub open spec fn twist_facet(t: Twist) -> Facet {
    facet_of(t.idx() / 23)
}

/// Whether the canonical sequence generator in state `prev` accepts the
/// twists one after the other.
pub open spec fn canonical_after(prev: PrevTwists, twists: Seq<Twist>) -> bool
    decreases twists.len(),
{
    if twists.len() == 0 {
        true
    } else {
        match prev.spec_do_twist_on_facet(twist_facet(twists[0])) {
            Some(p) => canonical_after(p, twists.drop_first()),
            None => false,
        }
    }
}

/// Whether `a` comes before `b` in the order of a depth-first search over
/// `subset`: at the first place where they differ (after a common start),
/// the twist of `a` stands earlier in `subset` than that of `b`.
pub open spec fn dfs_before(a: Seq<Twist>, b: Seq<Twist>, subset: Seq<Twist>) -> bool {
    exists|p: int, i: int, j: int|
        #![trigger a.take(p), subset[i], subset[j]]
        0 <= p < a.len() && p < b.len() && a.take(p) == b.take(p) && 0 <= i < j < subset.len() && subset[i] == a[p]
            && subset[j] == b[p]
}

/// Over a twist set that repeats no twist, a sequence that comes before
/// another in depth-first order is not that other.
pub proof fn lemma_dfs_before_distinct(a: Seq<Twist>, b: Seq<Twist>, subset: Seq<Twist>)
    requires
        dfs_before(a, b, subset),
        forall|i: int, j: int| 0 <= i < j < subset.len() ==> #[trigger] subset[i] != #[trigger] subset[j],
    ensures
        a != b,
{
    let (p, i, j) = choose|p: int, i: int, j: int|
        #![trigger a.take(p), subset[i], subset[j]]
        0 <= p < a.len() && p < b.len() && a.take(p) == b.take(p) && 0 <= i < j < subset.len() && subset[i] == a[p]
            && subset[j] == b[p];
    assert(subset[i] != subset[j]);
}

/// Whether `states` are the states that the twists lead through from
/// `start`.
pub open spec fn is_path<S: Stage>(start: S, twists: Seq<Twist>, states: Seq<S>) -> bool {
    &&& states.len() == twists.len() + 1
    &&& states[0] == start
    &&& forall|i: int| #![trigger twists[i]] 0 <= i < twists.len() ==> S::moved(states[i], twists[i], states[i + 1])
}

/// Whether the twists take `start` to a state that `is_solved` accepts.
pub open spec fn reaches_solved<S: Stage, SF: Fn(S) -> bool>(start: S, twists: Seq<Twist>, is_solved: SF) -> bool {
    exists|states: Seq<S>| is_path(start, twists, states) && call_ensures(is_solved, (states.last(),), true)
}

/// Search with a twist set, a test of the target, a pruning test, and a
/// range of depths (`min_depth..=max_depth`).
pub struct Iddfs<SF, PF> {
    pub twist_subset: Vec<Twist>,
    pub is_solved: SF,
    pub should_prune: PF,
    pub min_depth: u8,
    pub max_depth: u8,
}

impl<SF, PF> Iddfs<SF, PF> {
    /// Whether the twists solve `start` within `depth` twists: each is in
    /// the twist set, the generator in state `prev` accepts them, and they
    /// lead to a state that the target test accepts.
    pub open spec fn solves<S: Stage>(self, start: S, prev: PrevTwists, depth: int, twists: Seq<Twist>) -> bool where
        SF: Fn(S) -> bool,
     {
        &&& twists.len() <= depth
        &&& forall|i: int| 0 <= i < twists.len() ==> self.twist_subset@.contains(#[trigger] twists[i])
        &&& canonical_after(prev, twists)
        &&& reaches_solved(start, twists, self.is_solved)
    }

    /// Whether the search, run from `state` with `depth` twists left, follows
    /// `ts` to a solution: at each state before the last the target test and
    /// the pruning test answered no, twists were left and the twist was in
    /// the set and accepted by the generator; at the last the target test
    /// answered yes.
    pub open spec fn found<S: Stage>(self, state: S, prev: PrevTwists, depth: int, ts: Seq<Twist>) -> bool where
        SF: Fn(S) -> bool,
        PF: Fn(S, u8) -> bool,

        decreases ts.len(),
    {
        if ts.len() == 0 {
            call_ensures(self.is_solved, (state,), true)
        } else {
            &&& call_ensures(self.is_solved, (state,), false)
            &&& 0 < depth < 256
            &&& call_ensures(self.should_prune, (state, depth as u8), false)
            &&& self.twist_subset@.contains(ts[0])
            &&& prev.spec_do_twist_on_facet(twist_facet(ts[0])) is Some
            &&& exists|next: S|
                #[trigger] S::moved(state, ts[0], next) && self.found(
                    next,
                    prev.spec_do_twist_on_facet(twist_facet(ts[0]))->0,
                    depth - 1,
                    ts.drop_first(),
                )
        }
    }

    /// Whether the stage can apply every twist of the set and both tests
    /// accept every input.
    pub open spec fn wf<S: Stage>(self) -> bool where SF: Fn(S) -> bool, PF: Fn(S, u8) -> bool {
        &&& forall|i: int| 0 <= i < self.twist_subset@.len() ==> S::can_twist(#[trigger] self.twist_subset@[i])
        &&& forall|s: S| call_requires(self.is_solved, (s,))
        &&& forall|s: S, d: u8| call_requires(self.should_prune, (s, d))
    }

    /// Constructs a search.
    pub fn new<S: Stage>(twist_subset: &[Twist], is_solved: SF, should_prune: PF, min_depth: u8, max_depth: u8) -> (r:
        Self) where SF: Fn(S) -> bool, PF: Fn(S, u8) -> bool
        ensures
            r.twist_subset@ == twist_subset@,
            r.is_solved == is_solved,
            r.should_prune == should_prune,
            r.min_depth == min_depth,
            r.max_depth == max_depth,
    {
        let mut v: Vec<Twist> = Vec::new();
        let mut i: usize = 0;
        while i < twist_subset.len()
            invariant
                0 <= i <= twist_subset@.len(),
                v@ == twist_subset@.take(i as int),
            decreases twist_subset@.len() - i,
        {
            v.push(twist_subset[i]);
            assert(v@ =~= twist_subset@.take(i + 1));
            i = i + 1;
        }
        assert(twist_subset@.take(twist_subset@.len() as int) =~= twist_subset@);
        Iddfs { twist_subset: v, is_solved, should_prune, min_depth, max_depth }
    }

    /// Whether the search from `state`, with `depth` twists left, must find
    /// the twists `ts`: the target test accepts the state reached by them
    /// whatever it answers there, and before that, at each state on the
    /// way, the target test and the pruning test reject the state whatever
    /// they answer, twists are left, the twist is in the twist set and the
    /// canonical sequence generator accepts it.
    pub open spec fn must_find<S: Stage>(self, state: S, prev: PrevTwists, depth: int, ts: Seq<Twist>) -> bool where
        SF: Fn(S) -> bool,
        PF: Fn(S, u8) -> bool,

        decreases ts.len(),
    {
        if ts.len() == 0 {
            forall|b: bool| #[trigger] call_ensures(self.is_solved, (state,), b) ==> b
        } else {
            &&& forall|b: bool| #[trigger] call_ensures(self.is_solved, (state,), b) ==> !b
            &&& 0 < depth < 256
            &&& forall|b: bool| #[trigger] call_ensures(self.should_prune, (state, depth as u8), b) ==> !b
            &&& self.twist_subset@.contains(ts[0])
            &&& prev.spec_do_twist_on_facet(twist_facet(ts[0])) is Some
            &&& forall|next: S|
                S::moved(state, ts[0], next) ==> self.must_find(
                    next,
                    prev.spec_do_twist_on_facet(twist_facet(ts[0]))->0,
                    depth - 1,
                    ts.drop_first(),
                )
        }
    }

    /// Searches from `state` for the twists, at most `remaining_depth` of
    /// them, that solve it (see [`Self::solves`]), not looking past a state
    /// that is solved or that the pruning test rejects. Each solution is
    /// appended to `solutions` after the twists already in
    /// `solution_buffer`; every sequence that the search must find (see
    /// [`Self::must_find`]) is among them, each appended one is a sequence
    /// the search followed (see [`Self::found`]: no state before its end was
    /// solved or pruned), and they come in depth-first order over the twist
    /// set (see [`dfs_before`]), so none twice when the set repeats no
    /// twist.
    pub fn dfs<S: Stage>(
        &self,
        state: S,
        prev_twists: PrevTwists,
        remaining_depth: u8,
        solution_buffer: &mut Vec<Twist>,
        solutions: &mut Vec<Vec<Twist>>,
    ) where SF: Fn(S) -> bool, PF: Fn(S, u8) -> bool
        requires
            self.wf::<S>(),
            old(solution_buffer)@.len() + remaining_depth <= usize::MAX,
        ensures
            final(solution_buffer)@ == old(solution_buffer)@,
            final(solutions)@.len() >= old(solutions)@.len(),
            forall|k: int| 0 <= k < old(solutions)@.len() ==> #[trigger] final(solutions)@[k]@ == old(solutions)@[k]@,
            forall|k: int|
                old(solutions)@.len() <= k < final(solutions)@.len() ==> {
                    let sol = #[trigger] final(solutions)@[k]@;
                    &&& sol.len() >= old(solution_buffer)@.len()
                    &&& sol.take(old(solution_buffer)@.len() as int) == old(solution_buffer)@
                    &&& self.solves(state, prev_twists, remaining_depth as int, sol.skip(old(solution_buffer)@.len() as int))
                },
            forall|ts: Seq<Twist>|
                #[trigger] self.must_find(state, prev_twists, remaining_depth as int, ts) ==> exists|k: int|
                    old(solutions)@.len() <= k < final(solutions)@.len() && #[trigger] final(solutions)@[k]@
                        == old(solution_buffer)@ + ts,
            forall|k: int|
                old(solutions)@.len() <= k < final(solutions)@.len() ==> self.found(
                    state,
                    prev_twists,
                    remaining_depth as int,
                    (#[trigger] final(solutions)@[k]@).skip(old(solution_buffer)@.len() as int),
                ),
            forall|k1: int, k2: int|
                old(solutions)@.len() <= k1 < k2 < final(solutions)@.len() ==> dfs_before(
                    #[trigger] final(solutions)@[k1]@,
                    #[trigger] final(solutions)@[k2]@,
                    self.twist_subset@,
                ),
        decreases remaining_depth,
    {
        let ghost buf0 = solution_buffer@;
        let ghost sols0 = solutions@;
        let solved = (self.is_solved)(state);
        if solved {
            let sol = partial::copy_twists(solution_buffer);
            let ghost empty = Seq::<Twist>::empty();
            proof {
                let states = seq![state];
                assert(is_path(state, empty, states));
                assert(sol@.skip(buf0.len() as int) =~= empty);
                assert(sol@.take(buf0.len() as int) =~= buf0);
            }
            solutions.push(sol);
            proof {
                assert(solutions@[sols0.len() as int]@.skip(buf0.len() as int) =~= empty);
                assert forall|ts: Seq<Twist>| #[trigger] self.must_find(state, prev_twists, remaining_depth as int, ts)
                    implies exists|k: int|
                    sols0.len() <= k < solutions@.len() && #[trigger] solutions@[k]@ == buf0 + ts by {
                    if ts.len() > 0 {
                        assert(!solved);
                    }
                    assert(buf0 + ts =~= buf0);
                    assert(solutions@[sols0.len() as int]@ == buf0 + ts);
                }
            }
            return;
        }
        if remaining_depth == 0 {
            proof {
                assert forall|ts: Seq<Twist>| #[trigger] self.must_find(state, prev_twists, remaining_depth as int, ts)
                    implies false by {
                    if ts.len() == 0 {
                        assert(solved);
                    }
                }
            }
            return;
        }
        let pruned = (self.should_prune)(state, remaining_depth);
        if pruned {
            proof {
                assert forall|ts: Seq<Twist>| #[trigger] self.must_find(state, prev_twists, remaining_depth as int, ts)
                    implies false by {
                    if ts.len() == 0 {
                        assert(solved);
                    } else {
                        assert(!pruned);
                    }
                }
            }
            return;
        }
        let mut i: usize = 0;
        while i < self.twist_subset.len()
            invariant
                0 <= i <= self.twist_subset@.len(),
                self.wf::<S>(),
                0 < remaining_depth,
                buf0.len() + remaining_depth <= usize::MAX,
                solution_buffer@ == buf0,
                solutions@.len() >= old(solutions)@.len(),
                forall|k: int| 0 <= k < old(solutions)@.len() ==> #[trigger] solutions@[k]@ == old(solutions)@[k]@,
                forall|k: int|
                    old(solutions)@.len() <= k < solutions@.len() ==> {
                        let sol = #[trigger] solutions@[k]@;
                        &&& sol.len() >= buf0.len()
                        &&& sol.take(buf0.len() as int) == buf0
                        &&& self.solves(state, prev_twists, remaining_depth as int, sol.skip(buf0.len() as int))
                    },
                sols0 == old(solutions)@,
                !solved,
                call_ensures(self.is_solved, (state,), solved),
                call_ensures(self.should_prune, (state, remaining_depth), pruned),
                !pruned,
                forall|ts: Seq<Twist>|
                    #[trigger] self.must_find(state, prev_twists, remaining_depth as int, ts)
                        && self.twist_subset@.take(i as int).contains(ts[0]) ==> exists|k: int|
                        sols0.len() <= k < solutions@.len() && #[trigger] solutions@[k]@ == buf0 + ts,
                forall|k: int|
                    sols0.len() <= k < solutions@.len() ==> self.found(
                        state,
                        prev_twists,
                        remaining_depth as int,
                        (#[trigger] solutions@[k]@).skip(buf0.len() as int),
                    ),
                forall|k1: int, k2: int|
                    sols0.len() <= k1 < k2 < solutions@.len() ==> dfs_before(
                        #[trigger] solutions@[k1]@,
                        #[trigger] solutions@[k2]@,
                        self.twist_subset@,
                    ),
                forall|k: int|
                    sols0.len() <= k < solutions@.len() ==> (#[trigger] solutions@[k]@).len() > buf0.len() && exists|ii: int|
                        0 <= ii < i && self.twist_subset@[ii] == solutions@[k]@[buf0.len() as int],
            decreases self.twist_subset@.len() - i,
        {
            let ghost sols_i = solutions@;
            let twist = self.twist_subset[i];
            proof {
                assert(self.twist_subset@.take(i + 1) =~= self.twist_subset@.take(i as int).push(twist));
            }
            match prev_twists.do_twist(twist) {
                None => {
                    proof {
                        assert forall|ts: Seq<Twist>|
                            #[trigger] self.must_find(state, prev_twists, remaining_depth as int, ts)
                                && self.twist_subset@.take(i + 1).contains(ts[0]) implies exists|k: int|
                            sols0.len() <= k < solutions@.len() && #[trigger] solutions@[k]@ == buf0 + ts by {
                            if !self.twist_subset@.take(i as int).contains(ts[0]) {
                                if ts.len() == 0 {
                                    assert(solved);
                                }
                                let w = choose|w: int|
                                    0 <= w < self.twist_subset@.take(i + 1).len()
                                        && #[trigger] self.twist_subset@.take(i + 1)[w] == ts[0];
                                assert(w == i);
                                assert(ts[0] == twist);
                            }
                        }
                    }
                },
                Some(new_prev_twists) => {
                    proof {
                        crate::linalg::facet::lemma_facet_of_idx(crate::linalg::facet::facet_of(twist.idx() / 23));
                    }
                    let next = state.do_twist(twist);
                    solution_buffer.push(twist);
                    let ghost before = solutions@;
                    self.dfs(next, new_prev_twists, remaining_depth - 1, solution_buffer, solutions);
                    let _ = solution_buffer.pop();
                    proof {
                        assert forall|ts: Seq<Twist>|
                            #[trigger] self.must_find(state, prev_twists, remaining_depth as int, ts)
                                && self.twist_subset@.take(i + 1).contains(ts[0]) implies exists|k: int|
                            sols0.len() <= k < solutions@.len() && #[trigger] solutions@[k]@ == buf0 + ts by {
                            if ts.len() == 0 {
                                assert(solved);
                            }
                            if self.twist_subset@.take(i as int).contains(ts[0]) {
                                let k = choose|k: int|
                                    sols0.len() <= k < before.len() && #[trigger] before[k]@ == buf0 + ts;
                                assert(solutions@[k]@ == before[k]@);
                            } else {
                                let w = choose|w: int|
                                    0 <= w < self.twist_subset@.take(i + 1).len()
                                        && #[trigger] self.twist_subset@.take(i + 1)[w] == ts[0];
                                assert(w == i);
                                assert(ts[0] == twist);
                                assert(self.must_find(next, new_prev_twists, remaining_depth - 1, ts.drop_first()));
                                let k = choose|k: int|
                                    before.len() <= k < solutions@.len() && #[trigger] solutions@[k]@ == buf0.push(
                                        twist,
                                    ) + ts.drop_first();
                                assert(buf0.push(twist) + ts.drop_first() =~= buf0 + ts);
                            }
                        }
                        assert forall|k: int| old(solutions)@.len() <= k < solutions@.len() implies {
                            let sol = #[trigger] solutions@[k]@;
                            &&& sol.len() >= buf0.len()
                            &&& sol.take(buf0.len() as int) == buf0
                            &&& self.solves(state, prev_twists, remaining_depth as int, sol.skip(buf0.len() as int))
                        } by {
                            if k >= before.len() {
                                let sol = solutions@[k]@;
                                let b1 = buf0.push(twist);
                                let rest = sol.skip(b1.len() as int);
                                assert(sol.take(buf0.len() as int) =~= b1.take(buf0.len() as int));
                                assert(sol.skip(buf0.len() as int) =~= seq![twist] + rest) by {
                                    assert(sol[buf0.len() as int] == b1[buf0.len() as int]);
                                }
                                self.lemma_solves_step(state, prev_twists, twist, next, new_prev_twists, remaining_depth as int, rest);
                                assert(self.twist_subset@.contains(twist)) by {
                                    assert(self.twist_subset@[i as int] == twist);
                                }
                            }
                        }
                        assert(self.twist_subset@.contains(twist)) by {
                            assert(self.twist_subset@[i as int] == twist);
                        }
                        assert forall|k: int| sols0.len() <= k < solutions@.len() implies self.found(
                            state,
                            prev_twists,
                            remaining_depth as int,
                            (#[trigger] solutions@[k]@).skip(buf0.len() as int),
                        ) && solutions@[k]@.len() > buf0.len() && exists|ii: int|
                            0 <= ii < i + 1 && self.twist_subset@[ii] == solutions@[k]@[buf0.len() as int] by {
                            if k < before.len() {
                                assert(solutions@[k]@ == before[k]@);
                                let ii = choose|ii: int| 0 <= ii < i && self.twist_subset@[ii] == before[k]@[buf0.len() as int];
                            } else {
                                let sol = solutions@[k]@;
                                let b1 = buf0.push(twist);
                                let rest = sol.skip(b1.len() as int);
                                assert(sol.take(b1.len() as int) == b1);
                                assert(sol[buf0.len() as int] == b1[buf0.len() as int]);
                                assert(sol.skip(buf0.len() as int) =~= seq![twist] + rest);
                                self.lemma_found_step(state, prev_twists, twist, next, new_prev_twists, remaining_depth as int, rest);
                                assert(self.twist_subset@[i as int] == sol[buf0.len() as int]);
                            }
                        }
                        assert forall|k1: int, k2: int| sols0.len() <= k1 < k2 < solutions@.len() implies dfs_before(
                            #[trigger] solutions@[k1]@,
                            #[trigger] solutions@[k2]@,
                            self.twist_subset@,
                        ) by {
                            if k2 < before.len() {
                                assert(solutions@[k1]@ == before[k1]@ && solutions@[k2]@ == before[k2]@);
                                assert(dfs_before(before[k1]@, before[k2]@, self.twist_subset@));
                            } else if k1 >= before.len() {
                            } else {
                                let a = solutions@[k1]@;
                                let b = solutions@[k2]@;
                                assert(a == before[k1]@);
                                assert(a.len() > buf0.len());
                                let ii = choose|ii: int| 0 <= ii < i && self.twist_subset@[ii] == before[k1]@[buf0.len() as int];
                                let b1 = buf0.push(twist);
                                assert(b.take(b1.len() as int) == b1);
                                assert(b[buf0.len() as int] == b1[buf0.len() as int]);
                                assert(a.take(buf0.len() as int) =~= b.take(buf0.len() as int)) by {
                                    assert(b.take(buf0.len() as int) =~= b1.take(buf0.len() as int));
                                }
                                let p = buf0.len() as int;
                                assert(self.twist_subset@[ii] == a[p]);
                                assert(self.twist_subset@[i as int] == b[p]);
                                assert(0 <= p < a.len() && p < b.len() && a.take(p) == b.take(p) && 0 <= ii < i
                                    < self.twist_subset@.len());
                            }
                        }
                    }
                },
            }
            i = i + 1;
        }
        proof {
            assert(self.twist_subset@.take(i as int) =~= self.twist_subset@);
            assert forall|ts: Seq<Twist>| #[trigger] self.must_find(state, prev_twists, remaining_depth as int, ts)
                implies exists|k: int| sols0.len() <= k < solutions@.len() && #[trigger] solutions@[k]@ == buf0 + ts by {
                if ts.len() == 0 {
                    assert(solved);
                }
            }
        }
    }

    /// Whether `q` extends one of the partial solutions `ps` by a solution
    /// (see [`Self::solves`]) of the stage state of that partial solution.
    pub open spec fn extends_some<S: Stage>(self, ps: Seq<Partial>, q: Partial) -> bool where SF: Fn(S) -> bool {
        exists|j: int, s: S, seg: Seq<Twist>|
            #![trigger S::represents(setup_pieces(ps[j].twists@), s), extended::<S>(ps[j], seg, q)]
            0 <= j < ps.len() && S::represents(setup_pieces(ps[j].twists@), s) && self.solves(
                s,
                PrevTwists(None),
                self.max_depth as int,
                seg,
            ) && extended::<S>(ps[j], seg, q)
    }

    /// Whether `q` extends one of the partial solutions `ps` by a solution
    /// of at most `depth` twists (see [`Self::solves`]) of the stage state
    /// of that partial solution.
    pub open spec fn extends_some_at<S: Stage>(self, ps: Seq<Partial>, q: Partial, depth: int) -> bool where
        SF: Fn(S) -> bool,
     {
        exists|j: int, s: S, seg: Seq<Twist>|
            #![trigger S::represents(setup_pieces(ps[j].twists@), s), extended::<S>(ps[j], seg, q)]
            0 <= j < ps.len() && S::represents(setup_pieces(ps[j].twists@), s) && self.solves(
                s,
                PrevTwists(None),
                depth,
                seg,
            ) && extended::<S>(ps[j], seg, q)
    }

    /// Whether for each partial solution of `ps` and each twists `ts` that
    /// the search of `depth` twists must find for it, some partial solution
    /// of `qs` is it extended by `ts`.
    pub open spec fn covers_solutions<S: Stage>(self, ps: Seq<Partial>, qs: Seq<Partial>, depth: int) -> bool where
        SF: Fn(S) -> bool,
        PF: Fn(S, u8) -> bool,
     {
        forall|j: int, ts: Seq<Twist>|
            0 <= j < ps.len() && #[trigger] self.has_solution::<S>(ps[j], depth, ts) ==> exists|k: int|
                0 <= k < qs.len() && #[trigger] extended::<S>(ps[j], ts, qs[k])
    }

    /// Whether the search of `depth` twists must find `ts` from every stage
    /// state of the partial solution (see [`Self::must_find`]).
    pub open spec fn has_solution<S: Stage>(self, p: Partial, depth: int, ts: Seq<Twist>) -> bool where
        SF: Fn(S) -> bool,
        PF: Fn(S, u8) -> bool,
     {
        forall|s: S| #[trigger] S::represents(setup_pieces(p.twists@), s) ==> self.must_find(s, PrevTwists(None), depth, ts)
    }

    /// Whether the search of `depth` twists must find twists for one of the
    /// partial solutions.
    pub open spec fn any_solution<S: Stage>(self, ps: Seq<Partial>, depth: int) -> bool where
        SF: Fn(S) -> bool,
        PF: Fn(S, u8) -> bool,
     {
        exists|j: int, ts: Seq<Twist>| 0 <= j < ps.len() && #[trigger] self.has_solution::<S>(ps[j], depth, ts)
    }

    /// Returns each partial solution extended by each solution of at most
    /// `d` twists that the search finds from its stage state, in order.
    #[verifier::spinoff_prover]
    fn extensions_at<S: Stage>(&self, partials: &Vec<Partial>, d: u8) -> (new_partials: Vec<Partial>) where
        SF: Fn(S) -> bool,
        PF: Fn(S, u8) -> bool,

        requires
            self.wf::<S>(),
            d <= self.max_depth,
            forall|j: int|
                0 <= j < partials@.len() ==> S::accepts(setup_pieces(#[trigger] partials@[j].twists@))
                    && partials@[j].twists@.len() + self.max_depth <= usize::MAX,
        ensures
            forall|k: int|
                0 <= k < new_partials@.len() ==> self.extends_some_at::<S>(partials@, #[trigger] new_partials@[k], d as int),
            self.covers_solutions::<S>(partials@, new_partials@, d as int),
    {
        let mut new_partials: Vec<Partial> = Vec::new();
        let mut j: usize = 0;
        while j < partials.len()
            invariant
                0 <= j <= partials@.len(),
                d <= self.max_depth,
                self.wf::<S>(),
                forall|j: int|
                    0 <= j < partials@.len() ==> S::accepts(setup_pieces(#[trigger] partials@[j].twists@))
                        && partials@[j].twists@.len() + self.max_depth <= usize::MAX,
                forall|k: int|
                    0 <= k < new_partials@.len() ==> self.extends_some_at::<S>(
                        partials@,
                        #[trigger] new_partials@[k],
                        d as int,
                    ),
                forall|jj: int, ts: Seq<Twist>|
                    0 <= jj < j && #[trigger] self.has_solution::<S>(partials@[jj], d as int, ts) ==> exists|k: int|
                        0 <= k < new_partials@.len() && #[trigger] extended::<S>(partials@[jj], ts, new_partials@[k]),
            decreases partials@.len() - j,
        {
            let ghost np0 = new_partials@.len();
            let ghost snap = new_partials@;
            let p = &partials[j];
            let init = S::with_setup(p.twists.as_slice());
            let mut solutions: Vec<Vec<Twist>> = Vec::new();
            let mut buf: Vec<Twist> = Vec::new();
            self.dfs(init, PrevTwists::new(), d, &mut buf, &mut solutions);
            proof {
                assert forall|k: int| 0 <= k < solutions@.len() implies self.solves(
                    init,
                    PrevTwists(None),
                    d as int,
                    #[trigger] solutions@[k]@,
                ) by {
                    assert(solutions@[k]@.skip(0) =~= solutions@[k]@);
                }
            }
            let mut k: usize = 0;
            while k < solutions.len()
                invariant
                    0 <= k <= solutions@.len(),
                    0 <= j < partials@.len(),
                    d <= self.max_depth,
                        *p == partials@[j as int],
                    S::represents(setup_pieces(p.twists@), init),
                    p.twists@.len() + self.max_depth <= usize::MAX,
                    forall|k: int|
                        0 <= k < solutions@.len() ==> self.solves(
                            init,
                            PrevTwists(None),
                            d as int,
                            #[trigger] solutions@[k]@,
                        ),
                    forall|k: int|
                        0 <= k < new_partials@.len() ==> self.extends_some_at::<S>(
                            partials@,
                            #[trigger] new_partials@[k],
                            d as int,
                        ),
                    new_partials@.len() == np0 + k,
                    np0 == snap.len(),
                    forall|i: int| 0 <= i < np0 ==> #[trigger] new_partials@[i] == snap[i],
                    forall|kk: int|
                        0 <= kk < k ==> extended::<S>(*p, #[trigger] solutions@[kk]@, new_partials@[np0 + kk]),
                decreases solutions@.len() - k,
            {
                let seg = solutions[k].as_slice();
                let ghost sol = solutions@[k as int]@;
                let q = p.extend::<S>(seg);
                new_partials.push(q);
                proof {
                    assert(partials@[j as int] == *p);
                    assert(S::represents(setup_pieces(partials@[j as int].twists@), init));
                    assert(self.solves(init, PrevTwists(None), d as int, sol));
                    assert(extended::<S>(partials@[j as int], sol, new_partials@[new_partials@.len() - 1]));
                    assert(self.extends_some_at::<S>(partials@, new_partials@[new_partials@.len() - 1], d as int));
                }
                k = k + 1;
            }
            proof {
                assert forall|jj: int, ts: Seq<Twist>|
                    0 <= jj < j + 1 && #[trigger] self.has_solution::<S>(partials@[jj], d as int, ts) implies exists|k: int|
                    0 <= k < new_partials@.len() && #[trigger] extended::<S>(partials@[jj], ts, new_partials@[k]) by {
                    if jj < j {
                        let k = choose|k: int| 0 <= k < snap.len() && #[trigger] extended::<S>(partials@[jj], ts, snap[k]);
                        assert(new_partials@[k] == snap[k]);
                    } else {
                        assert(S::represents(setup_pieces(partials@[j as int].twists@), init));
                        assert(self.must_find(init, PrevTwists(None), d as int, ts));
                        assert(buf@ + ts =~= ts);
                        let kk = choose|kk: int| 0 <= kk < solutions@.len() && #[trigger] solutions@[kk]@ == buf@ + ts;
                        assert(extended::<S>(*p, solutions@[kk]@, new_partials@[np0 + kk]));
                    }
                }
            }
            j = j + 1;
        }
        new_partials
    }

    /// Extends each partial solution by each solution of the stage found at
    /// the first depth of the range that gives at least 100 extended
    /// partial solutions, or at least one at one of the last two depths;
    /// fails, leaving the partial solutions as they were, if no depth does.
    /// It succeeds whenever the range is not empty and the search at its
    /// last depth must find twists for one of the partial solutions (see
    /// [`Self::any_solution`]).
    #[verifier::spinoff_prover]
    #[verifier::rlimit(40)]
    pub fn iddfs_extend<S: Stage>(&self, partials: &mut Vec<Partial>) -> (r: Result<(), NoSolution>) where
        SF: Fn(S) -> bool,
        PF: Fn(S, u8) -> bool,

        requires
            self.wf::<S>(),
            forall|j: int|
                0 <= j < old(partials)@.len() ==> S::accepts(setup_pieces(#[trigger] old(partials)@[j].twists@))
                    && old(partials)@[j].twists@.len() + self.max_depth <= usize::MAX,
        ensures
            r is Err ==> final(partials)@ == old(partials)@,
            self.min_depth <= self.max_depth && self.any_solution::<S>(old(partials)@, self.max_depth as int) ==> r is Ok,
            r is Ok ==> final(partials)@.len() > 0,
            r is Ok ==> forall|k: int|
                0 <= k < final(partials)@.len() ==> self.extends_some::<S>(old(partials)@, #[trigger] final(partials)@[k]),
            r is Ok ==> exists|d: int|
                #![trigger self.covers_solutions::<S>(old(partials)@, final(partials)@, d)]
                self.min_depth <= d <= self.max_depth && (final(partials)@.len() >= 100 || d + 1 >= self.max_depth)
                    && self.covers_solutions::<S>(old(partials)@, final(partials)@, d) && (forall|k: int|
                    0 <= k < final(partials)@.len() ==> self.extends_some_at::<S>(
                        old(partials)@,
                        #[trigger] final(partials)@[k],
                        d,
                    )) && (forall|d2: int|
                    self.min_depth <= d2 < d && d2 + 1 >= self.max_depth ==> !#[trigger] self.any_solution::<S>(
                        old(partials)@,
                        d2,
                    )) && (forall|d2: int|
                    self.min_depth <= d2 < d ==> #[trigger] self.fell_short::<S>(old(partials)@, d2)),
    {
        let mut depth: u16 = self.min_depth as u16;
        while depth <= self.max_depth as u16
            invariant
                self.wf::<S>(),
                partials@ == old(partials)@,
                forall|j: int|
                    0 <= j < partials@.len() ==> S::accepts(setup_pieces(#[trigger] partials@[j].twists@))
                        && partials@[j].twists@.len() + self.max_depth <= usize::MAX,
                self.min_depth <= depth,
                self.min_depth <= self.max_depth ==> depth <= self.max_depth + 1,
                forall|d2: int|
                    self.min_depth <= d2 < depth && d2 + 1 >= self.max_depth ==> !#[trigger] self.any_solution::<S>(
                        old(partials)@,
                        d2,
                    ),
                forall|d2: int| self.min_depth <= d2 < depth ==> #[trigger] self.fell_short::<S>(old(partials)@, d2),
            decreases self.max_depth as u16 + 1 - depth,
        {
            let d = depth as u8;
            let new_partials = self.extensions_at::<S>(partials, d);
            proof {
                self.lemma_depth_step::<S>(old(partials)@, new_partials@, d as int);
            }
            if new_partials.len() >= 100 || (depth + 1 >= self.max_depth as u16 && new_partials.len() > 0) {
                let ghost dd = d as int;
                proof {
                    assert(self.min_depth <= dd <= self.max_depth);
                    assert(self.covers_solutions::<S>(old(partials)@, new_partials@, dd));
                }
                *partials = new_partials;
                proof {
                    assert(partials@ == new_partials@);
                    assert(self.min_depth <= dd <= self.max_depth && (partials@.len() >= 100 || dd + 1
                        >= self.max_depth) && self.covers_solutions::<S>(old(partials)@, partials@, dd) && (forall|k: int|
                        0 <= k < partials@.len() ==> self.extends_some_at::<S>(old(partials)@, #[trigger] partials@[k], dd))
                        && (forall|d2: int|
                        self.min_depth <= d2 < dd && d2 + 1 >= self.max_depth ==> !#[trigger] self.any_solution::<S>(
                            old(partials)@,
                            d2,
                        )));
                }
                return Ok(());
            }
            proof {
                assert(self.found_at::<S>(old(partials)@, new_partials@, d as int));
                assert(self.fell_short::<S>(old(partials)@, d as int));
                assert forall|d2: int| self.min_depth <= d2 < depth + 1 implies #[trigger] self.fell_short::<S>(
                    old(partials)@,
                    d2,
                ) by {
                    if d2 == depth {
                        assert(d2 == d as int);
                    }
                }
                assert forall|d2: int|
                    self.min_depth <= d2 < depth + 1 && d2 + 1 >= self.max_depth implies !#[trigger] self.any_solution::<S>(
                    old(partials)@,
                    d2,
                ) by {
                    if d2 == depth {
                        assert(d2 == d as int);
                    }
                }
            }
            depth = depth + 1;
        }
        Err(NoSolution)
    }

    /// Whether `qs` are extensions of the partial solutions `ps` by solutions
    /// of at most `d` twists, among them every one the search must find.
    pub open spec fn found_at<S: Stage>(self, ps: Seq<Partial>, qs: Seq<Partial>, d: int) -> bool where
        SF: Fn(S) -> bool,
        PF: Fn(S, u8) -> bool,
     {
        &&& self.covers_solutions::<S>(ps, qs, d)
        &&& forall|k: int| 0 <= k < qs.len() ==> self.extends_some_at::<S>(ps, #[trigger] qs[k], d)
    }

    /// Whether the search at depth `d` found fewer than 100 extensions (see
    /// [`Self::found_at`]), and none if `d` is one of the last two depths.
    pub open spec fn fell_short<S: Stage>(self, ps: Seq<Partial>, d: int) -> bool where
        SF: Fn(S) -> bool,
        PF: Fn(S, u8) -> bool,
     {
        exists|qs: Seq<Partial>|
            #[trigger] self.found_at::<S>(ps, qs, d) && qs.len() < 100 && (d + 1 >= self.max_depth ==> qs.len() == 0)
    }

    /// What one depth of [`Self::iddfs_extend`] gives: some extension if
    /// the search must find one, and extensions by solutions within the
    /// largest depth.
    proof fn lemma_depth_step<S: Stage>(self, ps: Seq<Partial>, qs: Seq<Partial>, d: int) where
        SF: Fn(S) -> bool,
        PF: Fn(S, u8) -> bool,

        requires
            d <= self.max_depth,
            forall|k: int| 0 <= k < qs.len() ==> self.extends_some_at::<S>(ps, #[trigger] qs[k], d),
            self.covers_solutions::<S>(ps, qs, d),
        ensures
            self.any_solution::<S>(ps, d) ==> qs.len() > 0,
            forall|k: int| 0 <= k < qs.len() ==> self.extends_some::<S>(ps, #[trigger] qs[k]),
    {
        if self.any_solution::<S>(ps, d) {
            let (jj, ts) = choose|jj: int, ts: Seq<Twist>|
                0 <= jj < ps.len() && #[trigger] self.has_solution::<S>(ps[jj], d, ts);
            let k = choose|k: int| 0 <= k < qs.len() && #[trigger] extended::<S>(ps[jj], ts, qs[k]);
        }
        assert forall|k: int| 0 <= k < qs.len() implies self.extends_some::<S>(ps, #[trigger] qs[k]) by {
            self.lemma_extends_deeper::<S>(ps, qs[k], d);
        }
    }

    /// An extension by a solution of at most `d` twists, with `d` at most
    /// the largest depth, is an extension by a solution of at most that
    /// depth.
    proof fn lemma_extends_deeper<S: Stage>(self, ps: Seq<Partial>, q: Partial, d: int) where SF: Fn(S) -> bool
        requires
            self.extends_some_at::<S>(ps, q, d),
            d <= self.max_depth,
        ensures
            self.extends_some::<S>(ps, q),
    {
        let (j, s, seg) = choose|j: int, s: S, seg: Seq<Twist>|
            #![trigger S::represents(setup_pieces(ps[j].twists@), s), extended::<S>(ps[j], seg, q)]
            0 <= j < ps.len() && S::represents(setup_pieces(ps[j].twists@), s) && self.solves(
                s,
                PrevTwists(None),
                d,
                seg,
            ) && extended::<S>(ps[j], seg, q);
        assert(self.solves(s, PrevTwists(None), self.max_depth as int, seg));
    }

    /// A solution of the state after a twist, prefixed with the twist, is a
    /// solution of the state before it.
    proof fn lemma_solves_step<S: Stage>(
        self,
        state: S,
        prev: PrevTwists,
        twist: Twist,
        next: S,
        new_prev: PrevTwists,
        depth: int,
        rest: Seq<Twist>,
    ) where SF: Fn(S) -> bool
        requires
            S::moved(state, twist, next),
            prev.spec_do_twist_on_facet(twist_facet(twist)) == Some(new_prev),
            self.solves(next, new_prev, depth - 1, rest),
            self.twist_subset@.contains(twist),
        ensures
            self.solves(state, prev, depth, seq![twist] + rest),
    {
        let ts = seq![twist] + rest;
        assert(ts.drop_first() =~= rest);
        assert(ts[0] == twist);
        let states = choose|states: Seq<S>| is_path(next, rest, states) && call_ensures(self.is_solved, (states.last(),), true);
        let all = seq![state] + states;
        assert forall|i: int| #![trigger ts[i]] 0 <= i < ts.len() implies S::moved(all[i], ts[i], all[i + 1]) by {
            if i > 0 {
                assert(ts[i] == rest[i - 1]);
                assert(all[i] == states[i - 1] && all[i + 1] == states[i]);
                assert(S::moved(states[i - 1], rest[i - 1], states[i]));
            }
        }
        assert(is_path(state, ts, all));
        assert(all.last() == states.last());
        assert forall|i: int| 0 <= i < ts.len() implies self.twist_subset@.contains(#[trigger] ts[i]) by {
            if i > 0 {
                assert(ts[i] == rest[i - 1]);
            }
        }
    }
}

impl<SF, PF> Iddfs<SF, PF> {
    /// A twist from a state that the search does not stop at, followed by
    /// a sequence the search follows from the next state, is one it follows.
    proof fn lemma_found_step<S: Stage>(
        self,
        state: S,
        prev: PrevTwists,
        twist: Twist,
        next: S,
        new_prev: PrevTwists,
        depth: int,
        rest: Seq<Twist>,
    ) where SF: Fn(S) -> bool, PF: Fn(S, u8) -> bool
        requires
            S::moved(state, twist, next),
            prev.spec_do_twist_on_facet(twist_facet(twist)) == Some(new_prev),
            self.found(next, new_prev, depth - 1, rest),
            self.twist_subset@.contains(twist),
            call_ensures(self.is_solved, (state,), false),
            0 < depth < 256,
            call_ensures(self.should_prune, (state, depth as u8), false),
        ensures
            self.found(state, prev, depth, seq![twist] + rest),
    {
        let ts = seq![twist] + rest;
        assert(ts.drop_first() =~= rest);
        assert(ts[0] == twist);
        assert(S::moved(state, ts[0], next));
    }
}

/// The matrix by which the scramble is tried in the `i`-th way (of 24):
/// the slice of axis `i / 6` moved onto the `M` slice, then facet `U`, `D`,
/// `F`, `B`, `O` or `I` (by `i % 6`) moved onto `I`.
pub open spec fn trial_matrix(i: int) -> Mat4 {
    facet_of(i % 6 + 2).spec_mat4_to(Facet::I).spec_mul(Mat4::spec_rot(axis_of(i / 6), Axis::X))
}

/// Returns the scramble, with no solution, transformed in each of the 24
/// ways of [`trial_matrix`], in order.
pub fn initial_partials(scramble: Vec<Twist>) -> (r: Vec<Partial>)
    ensures
        r@.len() == 24,
        forall|i: int|
            0 <= i < 24 ==> {
                let q = #[trigger] r@[i];
                &&& q.twists@.len() == scramble@.len()
                &&& forall|j: int|
                    0 <= j < scramble@.len() ==> conjugated(scramble@[j], trial_matrix(i), #[trigger] q.twists@[j])
                &&& q.boundaries@ == seq![0usize, scramble@.len() as usize]
                &&& q.scramble_rot == trial_matrix(i).spec_mul(xy_mat(0).spec_mul(Mat4::spec_ident()))
                &&& q.scramble_xy_rot.spec_pow() == 0
            },
{
    let ghost sc = scramble@;
    let base = Partial::new(scramble);
    let mut r: Vec<Partial> = Vec::new();
    let mut a: u8 = 0;
    while a < 4
        invariant
            0 <= a <= 4,
            base.twists@ == sc,
            base.boundaries@ == seq![0usize, sc.len() as usize],
            base.scramble_rot == Mat4::spec_ident(),
            base.scramble_xy_rot.spec_pow() == 0,
            r@.len() == 6 * a,
            forall|i: int|
                0 <= i < r@.len() ==> {
                    let q = #[trigger] r@[i];
                    &&& q.twists@.len() == sc.len()
                    &&& forall|j: int|
                        0 <= j < sc.len() ==> conjugated(sc[j], trial_matrix(i), #[trigger] q.twists@[j])
                    &&& q.boundaries@ == seq![0usize, sc.len() as usize]
                    &&& q.scramble_rot == trial_matrix(i).spec_mul(xy_mat(0).spec_mul(Mat4::spec_ident()))
                    &&& q.scramble_xy_rot.spec_pow() == 0
                },
        decreases 4 - a,
    {
        let p_sep = Mat4::rot(Axis::from_u8(a), Axis::X);
        proof {
            Mat4::lemma_rot(axis_of(a as int), Axis::X);
        }
        let mut f: u8 = 0;
        while f < 6
            invariant
                0 <= a < 4,
                0 <= f <= 6,
                p_sep == Mat4::spec_rot(axis_of(a as int), Axis::X),
                p_sep.is_perm(),
                base.twists@ == sc,
                base.boundaries@ == seq![0usize, sc.len() as usize],
                base.scramble_rot == Mat4::spec_ident(),
                base.scramble_xy_rot.spec_pow() == 0,
                r@.len() == 6 * a + f,
                forall|i: int|
                    0 <= i < r@.len() ==> {
                        let q = #[trigger] r@[i];
                        &&& q.twists@.len() == sc.len()
                        &&& forall|j: int|
                            0 <= j < sc.len() ==> conjugated(sc[j], trial_matrix(i), #[trigger] q.twists@[j])
                        &&& q.boundaries@ == seq![0usize, sc.len() as usize]
                        &&& q.scramble_rot == trial_matrix(i).spec_mul(xy_mat(0).spec_mul(Mat4::spec_ident()))
                        &&& q.scramble_xy_rot.spec_pow() == 0
                    },
            decreases 6 - f,
        {
            let facet = Facet::from_u8(f + 2);
            let to_i = facet.mat4_to(Facet::I);
            let m = to_i.mul(p_sep);
            let ghost i = 6 * a + f;
            proof {
                facet.lemma_mat4_to(Facet::I);
                use_type_invariant(&to_i);
                Mat4::lemma_ext(to_i, facet.spec_mat4_to(Facet::I));
                crate::linalg::mat4::lemma_mul_perm(to_i, p_sep);
                assert(i % 6 == f as int && i / 6 == a as int);
                assert(m == trial_matrix(i));
            }
            let q = base.transform_by(m);
            r.push(q);
            f = f + 1;
        }
        a = a + 1;
    }
    r
}

/// Returns each partial solution after the same one with `R` and `L`
/// swapped (turned half way in the `X`-`Y` plane).
#[verifier::spinoff_prover]
pub fn with_rl_swaps(partials: Vec<Partial>) -> (r: Vec<Partial>)
    ensures
        r@.len() == 2 * partials@.len(),
        forall|i: int|
            0 <= i < partials@.len() ==> partials@[i].transformed_by(
                Mat4::spec_rot180(Axis::X, Axis::Y),
                #[trigger] r@[2 * i],
            ) && r@[2 * i + 1] == partials@[i],
{
    let ghost input = partials@;
    let mut rest = partials;
    let m = Mat4::rot180(Axis::X, Axis::Y);
    let mut r: Vec<Partial> = Vec::new();
    let ghost mut done: int = 0;
    while rest.len() > 0
        invariant
            0 <= done <= input.len(),
            rest@ == input.skip(done),
            m == Mat4::spec_rot180(Axis::X, Axis::Y),
            m.is_perm(),
            r@.len() == 2 * done,
            forall|i: int|
                0 <= i < done ==> input[i].transformed_by(m, #[trigger] r@[2 * i]) && r@[2 * i + 1] == input[i],
        decreases rest@.len(),
    {
        proof {
            assert(input.skip(done)[0] == input[done]);
        }
        let p = rest.remove(0);
        proof {
            assert(rest@ =~= input.skip(done + 1));
        }
        let t = TransformByMat4::transform_by(&p, m);
        let ghost old_r = r@;
        r.push(t);
        r.push(p);
        proof {
            assert forall|i: int| 0 <= i < done + 1 implies input[i].transformed_by(m, #[trigger] r@[2 * i])
                && r@[2 * i + 1] == input[i] by {
                if i < done {
                    assert(r@[2 * i] == old_r[2 * i] && r@[2 * i + 1] == old_r[2 * i + 1]);
                }
            }
            done = done + 1;
        }
    }
    proof {
        assert(input.skip(done).len() == 0);
    }
    r
}

} // verus!
