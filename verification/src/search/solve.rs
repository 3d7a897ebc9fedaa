//! The staged search: the scramble tried in each way, then stages 1 to 4,
//! each extending the partial solutions of the one before.
use vstd::prelude::*;

use crate::bits::popcount;
use crate::canonical::PrevTwists;
use crate::linalg::{Axis, Mat4, TransformByMat4};
use crate::prune::SubsetTrie;
use crate::puzzle::sim::{setup_pieces, SimplePuzzleSim};
use crate::puzzle::twist::conjugated;
use crate::puzzle::{Twist, TwistSet};
use crate::search::partial::{
    copy_indices, copy_twists, covered_by, covers, dedup_partials, distinct_ends, drawn_from, end_state, extended,
    len_ok, solution_len, sort_by_len, sorted_by_len_from,
};
use crate::search::{
    canonical_after, initial_partials, is_path, trial_matrix, twist_facet, with_rl_swaps, Iddfs, NoSolution,
    Partial,
};
use crate::xy_rot::xy_mat;
use crate::stages::s4_predom::{target_fields, target_twists};
use crate::stages::{Stage, Stage1, Stage2, Stage3, Stage4, SubsetMaskStage};

verus! {

/// Whether the partial solution's scramble ends within its twists, of
/// which it has at most `bound`.
pub open spec fn ready(p: Partial, bound: int) -> bool {
    &&& p.boundaries@.len() >= 2
    &&& p.boundaries@[1] <= p.twists@.len()
    &&& p.twists@.len() <= bound
}

/// Whether two partial solutions hold the same values.
pub open spec fn same_partial(a: Partial, b: Partial) -> bool {
    &&& a.twists@ == b.twists@
    &&& a.boundaries@ == b.boundaries@
    &&& a.scramble_rot == b.scramble_rot
    &&& a.scramble_xy_rot == b.scramble_xy_rot
}

/// Whether `q` extends one of `ps` (see [`extended`]) by at most `max`
/// twists that the stage can apply, canonical, and that take the stage
/// state of that partial solution to one that `target` accepts.
pub open spec fn stage_extends<S: Stage>(ps: Seq<Partial>, q: Partial, max: int, target: spec_fn(S) -> bool) -> bool {
    exists|j: int, s: S, seg: Seq<Twist>|
        #![trigger S::represents(setup_pieces(ps[j].twists@), s), extended::<S>(ps[j], seg, q)]
        0 <= j < ps.len() && S::represents(setup_pieces(ps[j].twists@), s) && seg.len() <= max && (forall|i: int|
            0 <= i < seg.len() ==> S::can_twist(#[trigger] seg[i])) && canonical_after(PrevTwists(None), seg)
            && (exists|states: Seq<S>| is_path(s, seg, states) && target(states.last())) && extended::<S>(
            ps[j],
            seg,
            q,
        )
}

/// The stage 1 target: the middle slice's edges and ridges in place.
pub open spec fn stage1_target(s: Stage1) -> bool {
    s.e & Stage1::TARGET_E == Stage1::TARGET_E && s.r & Stage1::TARGET_R == Stage1::TARGET_R
}

/// The stage 2 target: the left side's ridges, edges and corners solved.
pub open spec fn stage2_target(s: Stage2) -> bool {
    s.re & Stage2::TARGET_RE == Stage2::TARGET_RE && s.c & Stage2::TARGET_C == Stage2::TARGET_C
}

/// The stage 3 target (see [`Stage3::is_target_solved`]).
pub open spec fn stage3_target(s: Stage3) -> bool {
    let r = s.r;
    let ec = s.ec;
    &&& popcount((r & Stage3::R_M) as nat) == 2
    &&& popcount((!(ec | (ec >> 1u64)) & Stage3::E_RL) as nat) == 4
    &&& popcount(((ec | (ec >> 1u64)) & Stage3::E_M) as nat) == 4
    &&& popcount(((ec ^ (ec >> 1u64)) & Stage3::E_RL) as nat) == 4
    &&& popcount(((ec | (ec >> 1u64)) & Stage3::C_RL) as nat) == 8
}

/// The stage 4 target: one of the target states (see [`Stage4::target`]).
pub open spec fn stage4_target(s: Stage4) -> bool {
    target_fields(target_twists()).contains(s.fields())
}

/// Whether a stage search that accepts exactly the states of `target`,
/// prunes exactly where `pruned` says and tries every twist of `allowed`
/// must find `ts` from `state`, with `depth` twists left (see
/// [`Iddfs::must_find`]).
pub open spec fn stage_must_find<S: Stage>(
    state: S,
    prev: PrevTwists,
    depth: int,
    ts: Seq<Twist>,
    target: spec_fn(S) -> bool,
    pruned: spec_fn(S, int) -> bool,
    allowed: spec_fn(Twist) -> bool,
) -> bool
    decreases ts.len(),
{
    if ts.len() == 0 {
        target(state)
    } else {
        &&& !target(state)
        &&& 0 < depth < 256
        &&& !pruned(state, depth)
        &&& allowed(ts[0])
        &&& ts[0].inv()
        &&& prev.spec_do_twist_on_facet(twist_facet(ts[0])) is Some
        &&& forall|next: S|
            S::moved(state, ts[0], next) ==> stage_must_find(
                next,
                prev.spec_do_twist_on_facet(twist_facet(ts[0]))->0,
                depth - 1,
                ts.drop_first(),
                target,
                pruned,
                allowed,
            )
    }
}

/// Whether such a search must find `ts` from every stage state of the
/// partial solution.
pub open spec fn partial_solvable<S: Stage>(
    p: Partial,
    depth: int,
    ts: Seq<Twist>,
    target: spec_fn(S) -> bool,
    pruned: spec_fn(S, int) -> bool,
    allowed: spec_fn(Twist) -> bool,
) -> bool {
    forall|s: S|
        #[trigger] S::represents(setup_pieces(p.twists@), s) ==> stage_must_find(
            s,
            PrevTwists(None),
            depth,
            ts,
            target,
            pruned,
            allowed,
        )
}

/// Whether such a search of `depth` twists must find twists for one of the
/// partial solutions.
pub open spec fn stage_solvable<S: Stage>(
    ps: Seq<Partial>,
    depth: int,
    target: spec_fn(S) -> bool,
    pruned: spec_fn(S, int) -> bool,
    allowed: spec_fn(Twist) -> bool,
) -> bool {
    exists|j: int, ts: Seq<Twist>| 0 <= j < ps.len() && #[trigger] partial_solvable::<S>(ps[j], depth, ts, target, pruned, allowed)
}

/// Never prunes.
pub open spec fn never_pruned<S>() -> spec_fn(S, int) -> bool {
    |s: S, d: int| false
}

/// The stage 1 pruning test: the trie's lower bound on the twists left
/// (with `depth + 1` for a key that matches no entry) exceeds them.
pub open spec fn s1_pruned(trie: SubsetTrie, depth: u8) -> spec_fn(Stage1, int) -> bool {
    |s: Stage1, d: int|
        (match trie.spec_lookup(s.spec_subset_trie_key()) {
            Some(v) => v as int,
            None => depth + 1,
        }) > d
}

/// The twists of stage 4: those of stage 3 that stage 4 can apply.
pub open spec fn s4_allowed() -> spec_fn(Twist) -> bool {
    |t: Twist| Stage3::can_twist(t) && Stage4::can_twist(t)
}

/// Whether `l0` are the scramble tried in each of the ways of
/// [`initial_partials`].
pub open spec fn initial_ok(l0: Seq<Partial>, scramble: Seq<Twist>) -> bool {
    &&& l0.len() == 24
    &&& forall|i: int|
        0 <= i < 24 ==> {
            let q = #[trigger] l0[i];
            &&& q.twists@.len() == scramble.len()
            &&& forall|j: int| 0 <= j < scramble.len() ==> conjugated(scramble[j], trial_matrix(i), #[trigger] q.twists@[j])
            &&& q.boundaries@ == seq![0usize, scramble.len() as usize]
            &&& q.scramble_rot == trial_matrix(i).spec_mul(xy_mat(0).spec_mul(Mat4::spec_ident()))
            &&& q.scramble_xy_rot.spec_pow() == 0
        }
}

/// Whether `q` is a stage 1 extension of one of `l0` (see
/// [`stage_extends`]), or such an extension with `R` and `L` swapped.
pub open spec fn stage1_member(l0: Seq<Partial>, q: Partial) -> bool {
    ||| stage_extends::<Stage1>(l0, q, 6, |s: Stage1| stage1_target(s))
    ||| exists|p: Partial|
        stage_extends::<Stage1>(l0, p, 6, |s: Stage1| stage1_target(s)) && #[trigger] p.transformed_by(
            Mat4::spec_rot180(Axis::X, Axis::Y),
            q,
        )
}

/// Whether every element of `l1` is a stage 1 member for `l0`, and there
/// is one.
pub open spec fn stage1_list(l0: Seq<Partial>, l1: Seq<Partial>) -> bool {
    l1.len() > 0 && forall|k: int| 0 <= k < l1.len() ==> stage1_member(l0, #[trigger] l1[k])
}

/// Whether every element of `next` extends one of `prev` by stage `S` (see
/// [`stage_extends`]), and there is one.
pub open spec fn stage_list<S: Stage>(prev: Seq<Partial>, next: Seq<Partial>, max: int, target: spec_fn(S) -> bool) -> bool {
    next.len() > 0 && forall|k: int| 0 <= k < next.len() ==> stage_extends::<S>(prev, #[trigger] next[k], max, target)
}

/// Whether `l2` is a list of stage 2 extensions of `l1`.
pub open spec fn stage2_list(l1: Seq<Partial>, l2: Seq<Partial>) -> bool {
    stage_list::<Stage2>(l1, l2, 6, |s: Stage2| stage2_target(s))
}

/// Whether `l3` is a list of stage 3 extensions of `l2`.
pub open spec fn stage3_list(l2: Seq<Partial>, l3: Seq<Partial>) -> bool {
    stage_list::<Stage3>(l2, l3, 4, |s: Stage3| stage3_target(s))
}

/// Whether `l4` is a list of stage 4 extensions of `l3`.
pub open spec fn stage4_list(l3: Seq<Partial>, l4: Seq<Partial>) -> bool {
    stage_list::<Stage4>(l3, l4, 6, |s: Stage4| stage4_target(s))
}

/// Whether stage 4 can represent every puzzle of `l3` and its search (1 to
/// 6 of its twists) must find a solution for one of them.
pub open spec fn solvable_from4(l3: Seq<Partial>) -> bool {
    &&& forall|k: int| 0 <= k < l3.len() ==> Stage4::accepts(setup_pieces(#[trigger] l3[k].twists@))
    &&& stage_solvable::<Stage4>(l3, 6, |s: Stage4| stage4_target(s), never_pruned(), s4_allowed())
}

/// Whether the stage 3 search (1 to 4 twists) must find a solution for one
/// of `l2`, and stage 4 then must for any list it can give.
pub open spec fn solvable_from3(l2: Seq<Partial>) -> bool {
    &&& stage_solvable::<Stage3>(l2, 4, |s: Stage3| stage3_target(s), never_pruned(), |t: Twist| Stage3::can_twist(t))
    &&& forall|l3: Seq<Partial>|
        #[trigger] stage3_list(l2, l3) ==> solvable_from4(l3)
}

/// Whether the stage 2 search (1 to 6 twists) must find a solution for one
/// of `l1`, and each later stage then must for any list the stage before
/// can give.
pub open spec fn solvable_from2(l1: Seq<Partial>) -> bool {
    &&& stage_solvable::<Stage2>(l1, 6, |s: Stage2| stage2_target(s), never_pruned(), |t: Twist| Stage2::can_twist(t))
    &&& forall|l2: Seq<Partial>|
        #[trigger] stage2_list(l1, l2) ==> solvable_from3(l2)
}

/// Whether every stage must find a solution, for every list of partial
/// solutions that the stage before can give: the stage 1 search (pruned
/// with the trie) from the scramble tried in each way, then stages 2 and 3
/// from any non-empty list of extensions by the stage before, and stage 4
/// from any such list of puzzles that it can represent.
pub open spec fn stages_solvable(scramble: Seq<Twist>, s1_prune: SubsetTrie, s1_depth: u8) -> bool {
    forall|l0: Seq<Partial>|
        #[trigger] initial_ok(l0, scramble) ==> {
            &&& stage_solvable::<Stage1>(
                l0,
                6,
                |s: Stage1| stage1_target(s),
                s1_pruned(s1_prune, s1_depth),
                |t: Twist| Stage1::can_twist(t),
            )
            &&& forall|l1: Seq<Partial>| #[trigger] stage1_list(l0, l1) ==> solvable_from2(l1)
        }
}

/// A search whose tests and twist set are those of the stage search must
/// find what that one must find.
proof fn lemma_must_find<S: Stage, SF: Fn(S) -> bool, PF: Fn(S, u8) -> bool>(
    iddfs: Iddfs<SF, PF>,
    state: S,
    prev: PrevTwists,
    depth: int,
    ts: Seq<Twist>,
    target: spec_fn(S) -> bool,
    pruned: spec_fn(S, int) -> bool,
    allowed: spec_fn(Twist) -> bool,
)
    requires
        forall|s: S, b: bool| #[trigger] call_ensures(iddfs.is_solved, (s,), b) ==> b == target(s),
        forall|s: S, d: u8, b: bool| #[trigger] call_ensures(iddfs.should_prune, (s, d), b) ==> b == pruned(s, d as int),
        forall|t: Twist| t.inv() && #[trigger] allowed(t) ==> iddfs.twist_subset@.contains(t),
        stage_must_find(state, prev, depth, ts, target, pruned, allowed),
    ensures
        iddfs.must_find(state, prev, depth, ts),
    decreases ts.len(),
{
    if ts.len() > 0 {
        let np = prev.spec_do_twist_on_facet(twist_facet(ts[0]))->0;
        assert forall|next: S| S::moved(state, ts[0], next) implies iddfs.must_find(next, np, depth - 1, ts.drop_first()) by {
            lemma_must_find(iddfs, next, np, depth - 1, ts.drop_first(), target, pruned, allowed);
        }
    }
}

/// A stage search that must find a solution for one of the partial
/// solutions is, for a search with the same tests and twists, one whose
/// [`Iddfs::any_solution`] holds.
proof fn lemma_any_solution<S: Stage, SF: Fn(S) -> bool, PF: Fn(S, u8) -> bool>(
    iddfs: Iddfs<SF, PF>,
    ps: Seq<Partial>,
    depth: int,
    target: spec_fn(S) -> bool,
    pruned: spec_fn(S, int) -> bool,
    allowed: spec_fn(Twist) -> bool,
)
    requires
        forall|s: S, b: bool| #[trigger] call_ensures(iddfs.is_solved, (s,), b) ==> b == target(s),
        forall|s: S, d: u8, b: bool| #[trigger] call_ensures(iddfs.should_prune, (s, d), b) ==> b == pruned(s, d as int),
        forall|t: Twist| t.inv() && #[trigger] allowed(t) ==> iddfs.twist_subset@.contains(t),
        stage_solvable::<S>(ps, depth, target, pruned, allowed),
    ensures
        iddfs.any_solution::<S>(ps, depth),
{
    let (j, ts) = choose|j: int, ts: Seq<Twist>| 0 <= j < ps.len() && #[trigger] partial_solvable::<S>(ps[j], depth, ts, target, pruned, allowed);
    assert forall|s: S| #[trigger] S::represents(setup_pieces(ps[j].twists@), s) implies iddfs.must_find(s, PrevTwists(None), depth, ts) by {
        lemma_must_find(iddfs, s, PrevTwists(None), depth, ts, target, pruned, allowed);
    }
    assert(iddfs.has_solution::<S>(ps[j], depth, ts));
}

/// Whether the partial solutions come in order of their number of solution
/// twists.
pub open spec fn sorted_by_solution(v: Seq<Partial>) -> bool {
    forall|a: int, b: int| 0 <= a < b < v.len() ==> solution_len(#[trigger] v[a]) <= solution_len(#[trigger] v[b])
}

/// Whether, for each partial solution of `prev` and each twists that the
/// search of `d` twists must find for it, `v` holds one leading to the same
/// puzzle as it extended by them, with no more solution twists.
pub open spec fn search_covered<S: Stage, SF: Fn(S) -> bool, PF: Fn(S, u8) -> bool>(
    iddfs: Iddfs<SF, PF>,
    prev: Seq<Partial>,
    v: Seq<Partial>,
    d: int,
) -> bool {
    forall|j: int, ts: Seq<Twist>|
        0 <= j < prev.len() && #[trigger] iddfs.has_solution::<S>(prev[j], d, ts) ==> exists|q: Partial|
            #[trigger] extended::<S>(prev[j], ts, q) && covered_by(v, q)
}

/// Whether, for each partial solution of `prev` and each twists that a
/// stage search with these tests must find for it within `d` twists (see
/// [`partial_solvable`]), `v` holds one leading to the same puzzle as it
/// extended by them, with no more solution twists.
pub open spec fn stage_covered<S: Stage>(
    prev: Seq<Partial>,
    v: Seq<Partial>,
    d: int,
    target: spec_fn(S) -> bool,
    pruned: spec_fn(S, int) -> bool,
    allowed: spec_fn(Twist) -> bool,
) -> bool {
    forall|j: int, ts: Seq<Twist>|
        0 <= j < prev.len() && #[trigger] partial_solvable::<S>(prev[j], d, ts, target, pruned, allowed) ==> exists|
            q: Partial,
        | #[trigger] extended::<S>(prev[j], ts, q) && covered_by(v, q)
}

/// [`partial_solvable`] for stage 1 (pruned with the trie).
pub open spec fn partial_solvable1(p: Partial, d: int, ts: Seq<Twist>, trie: SubsetTrie, depth: u8) -> bool {
    partial_solvable::<Stage1>(p, d, ts, |s: Stage1| stage1_target(s), s1_pruned(trie, depth), |t: Twist| Stage1::can_twist(t))
}

/// [`stage_covered`] for stage 1 (3 to 6 twists, pruned with the trie).
pub open spec fn stage1_covered(l0: Seq<Partial>, v: Seq<Partial>, d: int, trie: SubsetTrie, depth: u8) -> bool {
    forall|j: int, ts: Seq<Twist>|
        0 <= j < l0.len() && #[trigger] partial_solvable1(l0[j], d, ts, trie, depth) ==> exists|q: Partial|
            #[trigger] extended::<Stage1>(l0[j], ts, q) && covered_by(v, q)
}

/// Covering what a list covers, by keeping or improving each of its
/// partial solutions, covers the same.
proof fn lemma_covered_chain(a: Seq<Partial>, b: Seq<Partial>, c: Seq<Partial>, q: Partial)
    requires
        covered_by(a, q),
        forall|i: int| 0 <= i < a.len() ==> b.contains(#[trigger] a[i]),
        covers(c, b),
    ensures
        covered_by(c, q),
{
    let j = choose|j: int| 0 <= j < a.len() && end_state(#[trigger] a[j]) == end_state(q) && solution_len(a[j]) <= solution_len(q);
    assert(b.contains(a[j]));
    let w = choose|w: int| 0 <= w < b.len() && b[w] == a[j];
    assert(covered_by(c, b[w]));
    let k = choose|k: int| 0 <= k < c.len() && end_state(#[trigger] c[k]) == end_state(b[w]) && solution_len(c[k]) <= solution_len(b[w]);
    assert(end_state(c[k]) == end_state(q));
}

/// [`stage_covered`] for stage 2 (1 to 6 twists, no pruning).
pub open spec fn stage2_covered(prev: Seq<Partial>, v: Seq<Partial>, d: int) -> bool {
    stage_covered::<Stage2>(prev, v, d, |s: Stage2| stage2_target(s), never_pruned(), |t: Twist| Stage2::can_twist(t))
}

/// [`stage_covered`] for stage 3 (1 to 4 twists, no pruning).
pub open spec fn stage3_covered(prev: Seq<Partial>, v: Seq<Partial>, d: int) -> bool {
    stage_covered::<Stage3>(prev, v, d, |s: Stage3| stage3_target(s), never_pruned(), |t: Twist| Stage3::can_twist(t))
}

/// [`stage_covered`] for stage 4 (1 to 6 of its twists, no pruning).
pub open spec fn stage4_covered(prev: Seq<Partial>, v: Seq<Partial>, d: int) -> bool {
    stage_covered::<Stage4>(prev, v, d, |s: Stage4| stage4_target(s), never_pruned(), s4_allowed())
}

/// Coverage of what a search must find is coverage of what a stage search
/// with the same tests and twists must find.
proof fn lemma_stage_covered<S: Stage, SF: Fn(S) -> bool, PF: Fn(S, u8) -> bool>(
    iddfs: Iddfs<SF, PF>,
    prev: Seq<Partial>,
    v: Seq<Partial>,
    d: int,
    target: spec_fn(S) -> bool,
    pruned: spec_fn(S, int) -> bool,
    allowed: spec_fn(Twist) -> bool,
)
    requires
        forall|s: S, b: bool| #[trigger] call_ensures(iddfs.is_solved, (s,), b) ==> b == target(s),
        forall|s: S, dd: u8, b: bool| #[trigger] call_ensures(iddfs.should_prune, (s, dd), b) ==> b == pruned(s, dd as int),
        forall|t: Twist| t.inv() && #[trigger] allowed(t) ==> iddfs.twist_subset@.contains(t),
        search_covered::<S, SF, PF>(iddfs, prev, v, d),
    ensures
        stage_covered::<S>(prev, v, d, target, pruned, allowed),
{
    assert forall|j: int, ts: Seq<Twist>|
        0 <= j < prev.len() && #[trigger] partial_solvable::<S>(prev[j], d, ts, target, pruned, allowed) implies exists|
        q: Partial,
    | #[trigger] extended::<S>(prev[j], ts, q) && covered_by(v, q) by {
        assert forall|s: S| #[trigger] S::represents(setup_pieces(prev[j].twists@), s) implies iddfs.must_find(
            s,
            PrevTwists(None),
            d,
            ts,
        ) by {
            lemma_must_find(iddfs, s, PrevTwists(None), d, ts, target, pruned, allowed);
        }
        assert(iddfs.has_solution::<S>(prev[j], d, ts));
    }
}

/// Returns copies of the partial solutions.
fn duplicate_partials(v: &Vec<Partial>) -> (r: Vec<Partial>)
    ensures
        r@.len() == v@.len(),
        forall|i: int| 0 <= i < v@.len() ==> same_partial(#[trigger] r@[i], v@[i]),
{
    let mut r: Vec<Partial> = Vec::new();
    let mut i: usize = 0;
    while i < v.len()
        invariant
            0 <= i <= v@.len(),
            r@.len() == i,
            forall|k: int| 0 <= k < i ==> same_partial(#[trigger] r@[k], v@[k]),
        decreases v@.len() - i,
    {
        let p = &v[i];
        let q = Partial {
            scramble_xy_rot: p.scramble_xy_rot,
            scramble_rot: p.scramble_rot,
            twists: copy_twists(&p.twists),
            boundaries: copy_indices(&p.boundaries),
        };
        r.push(q);
        i = i + 1;
    }
    r
}

/// An extension of partial solutions is one of partial solutions holding
/// the same values, and keeps the scramble's end within the twists.
proof fn lemma_extends_same<S: Stage, SF: Fn(S) -> bool, PF: Fn(S, u8) -> bool>(
    iddfs: Iddfs<SF, PF>,
    ps: Seq<Partial>,
    ps2: Seq<Partial>,
    q: Partial,
    bound: int,
)
    requires
        ps.len() == ps2.len(),
        forall|i: int| 0 <= i < ps.len() ==> same_partial(#[trigger] ps2[i], ps[i]),
        forall|i: int| 0 <= i < ps.len() ==> ready(#[trigger] ps[i], bound),
        iddfs.extends_some::<S>(ps2, q),
    ensures
        iddfs.extends_some::<S>(ps, q),
        ready(q, bound + iddfs.max_depth),
{
    let (j, s, seg) = choose|j: int, s: S, seg: Seq<Twist>|
        #![trigger S::represents(setup_pieces(ps2[j].twists@), s), extended::<S>(ps2[j], seg, q)]
        0 <= j < ps2.len() && S::represents(setup_pieces(ps2[j].twists@), s) && iddfs.solves(
            s,
            PrevTwists(None),
            iddfs.max_depth as int,
            seg,
        ) && extended::<S>(ps2[j], seg, q);
    assert(same_partial(ps2[j], ps[j]));
    assert(ready(ps[j], bound));
    assert(extended::<S>(ps[j], seg, q));
    assert(S::represents(setup_pieces(ps[j].twists@), s));
    assert(q.boundaries@[1] == ps[j].boundaries@[1]);
}

/// An extension found by a search is a stage extension for the target
/// that its target test decides.
proof fn lemma_stage_extends<S: Stage, SF: Fn(S) -> bool, PF: Fn(S, u8) -> bool>(
    iddfs: Iddfs<SF, PF>,
    ps: Seq<Partial>,
    q: Partial,
    target: spec_fn(S) -> bool,
)
    requires
        iddfs.wf::<S>(),
        iddfs.extends_some::<S>(ps, q),
        forall|s: S| #[trigger] call_ensures(iddfs.is_solved, (s,), true) ==> target(s),
    ensures
        stage_extends::<S>(ps, q, iddfs.max_depth as int, target),
{
    let (j, s, seg) = choose|j: int, s: S, seg: Seq<Twist>|
        #![trigger S::represents(setup_pieces(ps[j].twists@), s), extended::<S>(ps[j], seg, q)]
        0 <= j < ps.len() && S::represents(setup_pieces(ps[j].twists@), s) && iddfs.solves(
            s,
            PrevTwists(None),
            iddfs.max_depth as int,
            seg,
        ) && extended::<S>(ps[j], seg, q);
    let states = choose|states: Seq<S>| is_path(s, seg, states) && call_ensures(iddfs.is_solved, (states.last(),), true);
    assert(target(states.last()));
    assert forall|i: int| 0 <= i < seg.len() implies S::can_twist(#[trigger] seg[i]) by {
        assert(iddfs.twist_subset@.contains(seg[i]));
        let w = choose|w: int| 0 <= w < iddfs.twist_subset@.len() && iddfs.twist_subset@[w] == seg[i];
        assert(S::can_twist(iddfs.twist_subset@[w]));
    }
}

/// Keeps one partial solution for each puzzle reached (see
/// [`dedup_partials`]) and sorts them by their number of solution twists.
fn cleanup_partials(work: &mut Vec<Partial>)
    requires
        forall|k: int| 0 <= k < old(work)@.len() ==> len_ok(#[trigger] old(work)@[k]),
    ensures
        old(work)@.len() > 0 ==> final(work)@.len() > 0,
        distinct_ends(final(work)@),
        forall|k: int| 0 <= k < final(work)@.len() ==> old(work)@.contains(#[trigger] final(work)@[k]),
        forall|a: int, b: int|
            0 <= a < b < final(work)@.len() ==> solution_len(#[trigger] final(work)@[a]) <= solution_len(
                #[trigger] final(work)@[b],
            ),
        covers(final(work)@, old(work)@),
{
    let ghost input = work@;
    let _removed = dedup_partials(work);
    proof {
        assert(drawn_from(work@, input));
        assert forall|k: int| 0 <= k < work@.len() implies len_ok(#[trigger] work@[k]) by {
            assert(input.contains(work@[k]));
        }
        if input.len() > 0 {
            assert(crate::search::partial::covered_by(work@, input[0]));
        }
    }
    let ghost deduped_list = work@;
    sort_by_len(work);
    proof {
        assert forall|i: int| 0 <= i < input.len() implies covered_by(work@, #[trigger] input[i]) by {
            assert(covered_by(deduped_list, input[i]));
            let j = choose|j: int|
                0 <= j < deduped_list.len() && end_state(#[trigger] deduped_list[j]) == end_state(input[i])
                    && solution_len(deduped_list[j]) <= solution_len(input[i]);
            assert(work@.contains(deduped_list[j]));
            let w = choose|w: int| 0 <= w < work@.len() && work@[w] == deduped_list[j];
            assert(end_state(work@[w]) == end_state(input[i]));
        }
        let idx = choose|idx: Seq<int>| sorted_by_len_from(work@, deduped_list, idx);
        assert forall|k: int| 0 <= k < work@.len() implies input.contains(#[trigger] work@[k]) by {
            assert(work@[k] == deduped_list[idx[k]]);
            assert(input.contains(deduped_list[idx[k]]));
        }
        assert forall|a: int, b: int| 0 <= a < b < work@.len() implies crate::search::partial::end_state(
            #[trigger] work@[a],
        ) != crate::search::partial::end_state(#[trigger] work@[b]) by {
            assert(work@[a] == deduped_list[idx[a]]);
            assert(work@[b] == deduped_list[idx[b]]);
            if idx[a] < idx[b] {
                assert(crate::search::partial::end_state(deduped_list[idx[a]]) != crate::search::partial::end_state(
                    deduped_list[idx[b]],
                ));
            } else {
                assert(idx[a] != idx[b]);
                assert(crate::search::partial::end_state(deduped_list[idx[b]]) != crate::search::partial::end_state(
                    deduped_list[idx[a]],
                ));
            }
        }
    }
}

/// Runs one stage's search on copies of the partial solutions, then keeps
/// one partial solution for each puzzle reached and sorts them by the
/// number of solution twists.
#[verifier::spinoff_prover]
#[verifier::rlimit(60)]
fn run_stage<S: Stage, SF: Fn(S) -> bool, PF: Fn(S, u8) -> bool>(
    iddfs: &Iddfs<SF, PF>,
    prev: &Vec<Partial>,
    bound: usize,
) -> (r: Result<Vec<Partial>, NoSolution>)
    requires
        iddfs.wf::<S>(),
        bound + iddfs.max_depth <= usize::MAX,
        forall|j: int|
            0 <= j < prev@.len() ==> ready(#[trigger] prev@[j], bound as int) && S::accepts(
                setup_pieces(prev@[j].twists@),
            ),
    ensures
        iddfs.min_depth <= iddfs.max_depth && iddfs.any_solution::<S>(prev@, iddfs.max_depth as int) ==> r is Ok,
        r matches Ok(v) ==> {
            &&& v@.len() > 0
            &&& distinct_ends(v@)
            &&& forall|a: int, b: int| 0 <= a < b < v@.len() ==> solution_len(#[trigger] v@[a]) <= solution_len(#[trigger] v@[b])
            &&& forall|k: int| 0 <= k < v@.len() ==> ready(#[trigger] v@[k], bound + iddfs.max_depth)
            &&& forall|k: int| 0 <= k < v@.len() ==> iddfs.extends_some::<S>(prev@, #[trigger] v@[k])
            &&& exists|d: int|
                iddfs.min_depth <= d <= iddfs.max_depth && #[trigger] search_covered::<S, SF, PF>(*iddfs, prev@, v@, d)
        },
{
    let mut work = duplicate_partials(prev);
    let ghost start = work@;
    proof {
        if iddfs.any_solution::<S>(prev@, iddfs.max_depth as int) {
            let (j, ts) = choose|j: int, ts: Seq<Twist>|
                0 <= j < prev@.len() && #[trigger] iddfs.has_solution::<S>(prev@[j], iddfs.max_depth as int, ts);
            assert(same_partial(start[j], prev@[j]));
            assert(iddfs.has_solution::<S>(start[j], iddfs.max_depth as int, ts));
        }
    }
    match iddfs.iddfs_extend::<S>(&mut work) {
        Err(e) => {
            return Err(e);
        },
        Ok(()) => {},
    }
    proof {
        assert forall|k: int| 0 <= k < work@.len() implies iddfs.extends_some::<S>(prev@, #[trigger] work@[k])
            && ready(work@[k], bound + iddfs.max_depth) by {
            lemma_extends_same::<S, SF, PF>(*iddfs, prev@, start, work@[k], bound as int);
        }
        assert forall|k: int| 0 <= k < work@.len() implies len_ok(#[trigger] work@[k]) by {
            assert(ready(work@[k], bound + iddfs.max_depth));
        }
    }
    let ghost extended_list = work@;
    cleanup_partials(&mut work);
    proof {
        let d = choose|d: int|
            #![trigger iddfs.covers_solutions::<S>(start, extended_list, d)]
            iddfs.min_depth <= d <= iddfs.max_depth && (extended_list.len() >= 100 || d + 1 >= iddfs.max_depth)
                && iddfs.covers_solutions::<S>(start, extended_list, d) && (forall|k: int|
                0 <= k < extended_list.len() ==> iddfs.extends_some_at::<S>(start, #[trigger] extended_list[k], d))
                && (forall|d2: int|
                iddfs.min_depth <= d2 < d && d2 + 1 >= iddfs.max_depth ==> !#[trigger] iddfs.any_solution::<S>(
                    start,
                    d2,
                )) && (forall|d2: int| iddfs.min_depth <= d2 < d ==> #[trigger] iddfs.fell_short::<S>(start, d2));
        assert forall|j: int, ts: Seq<Twist>|
            0 <= j < prev@.len() && #[trigger] iddfs.has_solution::<S>(prev@[j], d, ts) implies exists|q: Partial|
            #[trigger] extended::<S>(prev@[j], ts, q) && covered_by(work@, q) by {
            assert(same_partial(start[j], prev@[j]));
            assert(iddfs.has_solution::<S>(start[j], d, ts));
            let k = choose|k: int| 0 <= k < extended_list.len() && #[trigger] extended::<S>(start[j], ts, extended_list[k]);
            assert(extended::<S>(prev@[j], ts, extended_list[k]));
            assert(covered_by(work@, extended_list[k]));
        }
        assert(search_covered::<S, SF, PF>(*iddfs, prev@, work@, d));
    }
    proof {
        assert forall|k: int| 0 <= k < work@.len() implies iddfs.extends_some::<S>(prev@, #[trigger] work@[k])
            && ready(work@[k], bound + iddfs.max_depth) by {
            assert(extended_list.contains(work@[k]));
            let w = choose|w: int| 0 <= w < extended_list.len() && extended_list[w] == work@[k];
            assert(iddfs.extends_some::<S>(prev@, extended_list[w]));
            assert(ready(extended_list[w], bound + iddfs.max_depth));
        }
    }
    Ok(work)
}

/// Returns the twists of the stage set `set` that stage `S` can apply, in
/// order of index.
fn twists_of<S: Stage>(set: &TwistSet) -> (r: Vec<Twist>)
    requires
        forall|i: int| 0 <= i < 184 ==> #[trigger] set.has(i) == S::can_twist(Twist::spec_from_index(i)),
    ensures
        forall|i: int| 0 <= i < r@.len() ==> S::can_twist(#[trigger] r@[i]),
        forall|t: Twist| t.inv() && #[trigger] S::can_twist(t) ==> r@.contains(t),
{
    let mut v: Vec<Twist> = Vec::new();
    let mut k: u8 = 0;
    while k < 184
        invariant
            0 <= k <= 184,
            forall|i: int| 0 <= i < 184 ==> #[trigger] set.has(i) == S::can_twist(Twist::spec_from_index(i)),
            forall|i: int| 0 <= i < v@.len() ==> S::can_twist(#[trigger] v@[i]),
            forall|i: int| 0 <= i < k && S::can_twist(#[trigger] Twist::spec_from_index(i)) ==> v@.contains(Twist::spec_from_index(i)),
        decreases 184 - k,
    {
        let t = Twist::from_index(k);
        let ghost before = v@;
        if set.contains(t) {
            assert(set.has(k as int));
            v.push(t);
            proof {
                assert(v@[before.len() as int] == t);
            }
        }
        proof {
            assert forall|i: int| 0 <= i < k + 1 && S::can_twist(#[trigger] Twist::spec_from_index(i)) implies v@.contains(
                Twist::spec_from_index(i),
            ) by {
                if i < k {
                    let w = choose|w: int| 0 <= w < before.len() && before[w] == Twist::spec_from_index(i);
                    assert(v@[w] == before[w]);
                }
            }
        }
        k = k + 1;
    }
    proof {
        assert forall|t: Twist| t.inv() && #[trigger] S::can_twist(t) implies v@.contains(t) by {
            t.lemma_idx();
            assert(S::can_twist(Twist::spec_from_index(t.idx())));
        }
    }
    v
}

/// Returns the twists that the stage can apply, in order of index.
fn stage_twists<S: Stage>() -> (r: Vec<Twist>)
    ensures
        forall|i: int| 0 <= i < r@.len() ==> S::can_twist(#[trigger] r@[i]),
        forall|t: Twist| t.inv() && #[trigger] S::can_twist(t) ==> r@.contains(t),
{
    let set = S::twists();
    twists_of::<S>(&set)
}

/// Stage 1: the scramble tried in each way, searched, each partial solution
/// also with `R` and `L` swapped, then one kept per puzzle and sorted.
#[verifier::spinoff_prover]
#[verifier::rlimit(40)]
fn stage_one(scramble: Vec<Twist>, s1_prune: &SubsetTrie, s1_depth: u8) -> (r: Result<Vec<Partial>, NoSolution>)
    requires
        s1_depth < 255,
        scramble@.len() + 64 <= usize::MAX,
    ensures
        (forall|l0: Seq<Partial>|
            #[trigger] initial_ok(l0, scramble@) ==> stage_solvable::<Stage1>(
                l0,
                6,
                |s: Stage1| stage1_target(s),
                s1_pruned(*s1_prune, s1_depth),
                |t: Twist| Stage1::can_twist(t),
            )) ==> r is Ok,
        r matches Ok(v) ==> v@.len() > 0 && distinct_ends(v@) && (forall|k: int|
            0 <= k < v@.len() ==> ready(#[trigger] v@[k], scramble@.len() + 6int)) && sorted_by_solution(v@)
            && exists|l0: Seq<Partial>|
            #[trigger] initial_ok(l0, scramble@) && (forall|k: int| 0 <= k < v@.len() ==> stage1_member(l0, #[trigger] v@[k]))
                && exists|d: int| 3 <= d <= 6 && #[trigger] stage1_covered(l0, v@, d, *s1_prune, s1_depth),
{
    let ghost sc = scramble@;
    let bound = scramble.len();
    let partials = initial_partials(scramble);
    proof {
        assert forall|j: int| 0 <= j < partials@.len() implies ready(#[trigger] partials@[j], bound as int) by {}
        assert(initial_ok(partials@, sc));
    }
    let s1_twists = stage_twists::<Stage1>();
    let is_solved1 = |s: Stage1| -> (b: bool)
        ensures
            b == stage1_target(s),
        { s.is_target_solved() };
    let prune1 = |s: Stage1, d: u8| -> (b: bool)
        requires
            s1_depth < 255,
        ensures
            b == s1_pruned(*s1_prune, s1_depth)(s, d as int),
        { s1_prune.distance_lower_bound(s.subset_trie_key(), s1_depth) > d };
    let search1 = Iddfs::new::<Stage1>(s1_twists.as_slice(), is_solved1, prune1, 3, 6);
    assert(stage_solvable::<Stage1>(
        partials@,
        6,
        |s: Stage1| stage1_target(s),
        s1_pruned(*s1_prune, s1_depth),
        |t: Twist| Stage1::can_twist(t),
    ) ==> search1.any_solution::<Stage1>(partials@, 6)) by {
        if stage_solvable::<Stage1>(
            partials@,
            6,
            |s: Stage1| stage1_target(s),
            s1_pruned(*s1_prune, s1_depth),
            |t: Twist| Stage1::can_twist(t),
        ) {
            lemma_any_solution::<Stage1, _, _>(
                search1,
                partials@,
                6,
                |s: Stage1| stage1_target(s),
                s1_pruned(*s1_prune, s1_depth),
                |t: Twist| Stage1::can_twist(t),
            );
        }
    }
    let stage1 = match run_stage::<Stage1, _, _>(&search1, &partials, bound) {
        Ok(v) => v,
        Err(e) => {
            return Err(e);
        },
    };
    proof {
        assert forall|k: int| 0 <= k < stage1@.len() implies stage_extends::<Stage1>(
            partials@,
            #[trigger] stage1@[k],
            6,
            |s: Stage1| stage1_target(s),
        ) by {
            lemma_stage_extends::<Stage1, _, _>(search1, partials@, stage1@[k], |s: Stage1| stage1_target(s));
        }
    }
    let ghost before_swap = stage1@;
    let mut stage1 = with_rl_swaps(stage1);
    proof {
        lemma_swaps_ready(before_swap, stage1@, bound + 6);
    }
    let ghost swapped = stage1@;
    proof {
        lemma_swaps_members(partials@, before_swap, swapped);
    }
    cleanup_partials(&mut stage1);
    proof {
        lemma_kept_members(partials@, swapped, stage1@, bound + 6);
        let d = choose|d: int| 3 <= d <= 6 && #[trigger] search_covered::<Stage1, _, _>(search1, partials@, before_swap, d);
        lemma_stage_covered(
            search1,
            partials@,
            before_swap,
            d,
            |s: Stage1| stage1_target(s),
            s1_pruned(*s1_prune, s1_depth),
            |t: Twist| Stage1::can_twist(t),
        );
        assert forall|i: int| 0 <= i < before_swap.len() implies swapped.contains(#[trigger] before_swap[i]) by {
            assert(before_swap[i].transformed_by(Mat4::spec_rot180(Axis::X, Axis::Y), swapped[2 * i]));
            assert(swapped[2 * i + 1] == before_swap[i]);
        }
        let l0 = partials@;
        assert forall|j: int, ts: Seq<Twist>|
            0 <= j < l0.len() && #[trigger] partial_solvable1(l0[j], d, ts, *s1_prune, s1_depth) implies exists|q: Partial| #[trigger] extended::<Stage1>(l0[j], ts, q) && covered_by(stage1@, q) by {
            let q = choose|q: Partial| #[trigger] extended::<Stage1>(l0[j], ts, q) && covered_by(before_swap, q);
            lemma_covered_chain(before_swap, swapped, stage1@, q);
        }
        assert(stage1_covered(l0, stage1@, d, *s1_prune, s1_depth));
    }

    Ok(stage1)
}

/// Every partial solution after stage 2 extends one of stage 1.
proof fn lemma_stage2_extends<SF: Fn(Stage2) -> bool, PF: Fn(Stage2, u8) -> bool>(
    search: Iddfs<SF, PF>,
    l1: Seq<Partial>,
    l2: Seq<Partial>,
)
    requires
        search.wf::<Stage2>(),
        forall|s: Stage2, b: bool| #[trigger] call_ensures(search.is_solved, (s,), b) ==> b == stage2_target(s),
        search.max_depth == 6,
        forall|k: int| 0 <= k < l2.len() ==> search.extends_some::<Stage2>(l1, #[trigger] l2[k]),
    ensures
        forall|k: int| 0 <= k < l2.len() ==> stage_extends::<Stage2>(l1, #[trigger] l2[k], 6, |s: Stage2| stage2_target(s)),
{
    assert forall|k: int| 0 <= k < l2.len() implies stage_extends::<Stage2>(l1, #[trigger] l2[k], 6, |s: Stage2| stage2_target(s)) by {
        lemma_stage_extends::<Stage2, _, _>(search, l1, l2[k], |s: Stage2| stage2_target(s));
    }
}

/// Every partial solution after stage 3 extends one of stage 2.
proof fn lemma_stage3_extends<SF: Fn(Stage3) -> bool, PF: Fn(Stage3, u8) -> bool>(
    search: Iddfs<SF, PF>,
    l2: Seq<Partial>,
    l3: Seq<Partial>,
)
    requires
        search.wf::<Stage3>(),
        forall|s: Stage3, b: bool| #[trigger] call_ensures(search.is_solved, (s,), b) ==> b == stage3_target(s),
        search.max_depth == 4,
        forall|k: int| 0 <= k < l3.len() ==> search.extends_some::<Stage3>(l2, #[trigger] l3[k]),
    ensures
        forall|k: int| 0 <= k < l3.len() ==> stage_extends::<Stage3>(l2, #[trigger] l3[k], 4, |s: Stage3| stage3_target(s)),
{
    assert forall|k: int| 0 <= k < l3.len() implies stage_extends::<Stage3>(l2, #[trigger] l3[k], 4, |s: Stage3| stage3_target(s)) by {
        lemma_stage_extends::<Stage3, _, _>(search, l2, l3[k], |s: Stage3| stage3_target(s));
    }
}

/// Each partial solution with `R` and `L` swapped, and each one kept, is a
/// stage 1 member.
#[verifier::spinoff_prover]
#[verifier::rlimit(40)]
proof fn lemma_swaps_members(l0: Seq<Partial>, ps: Seq<Partial>, rs: Seq<Partial>)
    requires
        forall|k: int| 0 <= k < ps.len() ==> stage_extends::<Stage1>(l0, #[trigger] ps[k], 6, |s: Stage1| stage1_target(s)),
        rs.len() == 2 * ps.len(),
        forall|i: int|
            0 <= i < ps.len() ==> ps[i].transformed_by(Mat4::spec_rot180(Axis::X, Axis::Y), #[trigger] rs[2 * i])
                && rs[2 * i + 1] == ps[i],
    ensures
        forall|k: int| 0 <= k < rs.len() ==> stage1_member(l0, #[trigger] rs[k]),
{
    assert forall|i: int| 0 <= i < ps.len() implies stage1_member(l0, #[trigger] rs[2 * i]) by {
        let p = ps[i];
        assert(stage_extends::<Stage1>(l0, p, 6, |s: Stage1| stage1_target(s)));
        assert(p.transformed_by(Mat4::spec_rot180(Axis::X, Axis::Y), rs[2 * i]));
    }
    assert forall|i: int| 0 <= i < ps.len() implies stage1_member(l0, #[trigger] rs[2 * i + 1]) by {
        assert(ps[i].transformed_by(Mat4::spec_rot180(Axis::X, Axis::Y), rs[2 * i]));
        assert(rs[2 * i + 1] == ps[i]);
        assert(stage_extends::<Stage1>(l0, ps[i], 6, |s: Stage1| stage1_target(s)));
    }
    assert forall|k: int| 0 <= k < rs.len() implies stage1_member(l0, #[trigger] rs[k]) by {
        if k % 2 == 0 {
            assert(rs[2 * (k / 2)] == rs[k]);
        } else {
            assert(rs[2 * (k / 2) + 1] == rs[k]);
        }
    }
}

/// Partial solutions drawn from stage 1 members that are ready are.
proof fn lemma_kept_members(l0: Seq<Partial>, rs: Seq<Partial>, v: Seq<Partial>, bound: int)
    requires
        forall|k: int| 0 <= k < rs.len() ==> stage1_member(l0, #[trigger] rs[k]),
        forall|k: int| 0 <= k < rs.len() ==> ready(#[trigger] rs[k], bound),
        forall|k: int| 0 <= k < v.len() ==> rs.contains(#[trigger] v[k]),
    ensures
        forall|k: int| 0 <= k < v.len() ==> ready(#[trigger] v[k], bound) && stage1_member(l0, v[k]),
{
    assert forall|k: int| 0 <= k < v.len() implies ready(#[trigger] v[k], bound) && stage1_member(l0, v[k]) by {
        assert(rs.contains(v[k]));
        let w = choose|w: int| 0 <= w < rs.len() && rs[w] == v[k];
        assert(stage1_member(l0, rs[w]));
        assert(ready(rs[w], bound));
    }
}

/// Swapping `R` and `L` keeps the scramble's end and the number of twists.
proof fn lemma_swaps_ready(ps: Seq<Partial>, rs: Seq<Partial>, bound: int)
    requires
        forall|k: int| 0 <= k < ps.len() ==> ready(#[trigger] ps[k], bound),
        rs.len() == 2 * ps.len(),
        forall|i: int|
            0 <= i < ps.len() ==> ps[i].transformed_by(
                crate::linalg::Mat4::spec_rot180(crate::linalg::Axis::X, crate::linalg::Axis::Y),
                #[trigger] rs[2 * i],
            ) && rs[2 * i + 1] == ps[i],
    ensures
        forall|k: int| 0 <= k < rs.len() ==> ready(#[trigger] rs[k], bound) && len_ok(rs[k]),
{
    assert forall|k: int| 0 <= k < rs.len() implies ready(#[trigger] rs[k], bound) && len_ok(rs[k]) by {
        let i = k / 2;
        assert(k == 2 * i || k == 2 * i + 1);
        assert(ready(ps[i], bound));
        assert(ps[i].transformed_by(
            crate::linalg::Mat4::spec_rot180(crate::linalg::Axis::X, crate::linalg::Axis::Y),
            rs[2 * i],
        ));
    }
}

/// Returns whether stage 4 can represent the puzzle that each partial
/// solution leads to.
fn all_stage4_representable(v: &Vec<Partial>) -> (r: bool)
    ensures
        r == forall|i: int| 0 <= i < v@.len() ==> Stage4::accepts(setup_pieces(#[trigger] v@[i].twists@)),
{
    let mut j: usize = 0;
    while j < v.len()
        invariant
            0 <= j <= v@.len(),
            forall|i: int| 0 <= i < j ==> Stage4::accepts(setup_pieces(#[trigger] v@[i].twists@)),
        decreases v@.len() - j,
    {
        let state = SimplePuzzleSim::with_setup(v[j].twists.as_slice());
        if Stage4::try_from_state(state).is_none() {
            return false;
        }
        j = j + 1;
    }
    true
}

/// Whether `stages` are the partial solutions after each stage: none
/// empty, stage 1 extending the scramble tried in each way (or that with
/// `R` and `L` swapped), each of stages 2 to 4 extending those of the stage
/// before by its search (with at most 6, 4 and 6 twists), no two leading to
/// the same puzzle within a stage, each sorted by its number of solution
/// twists, and each covering, at the depth its search settled on, every
/// extension that the search must find (see [`stage_covered`]).
pub open spec fn stages_ok(scramble: Seq<Twist>, trie: SubsetTrie, depth: u8, stages: Seq<Vec<Partial>>) -> bool {
    &&& stages.len() == 4
    &&& forall|i: int|
        0 <= i < 4 ==> (#[trigger] stages[i])@.len() > 0 && distinct_ends(stages[i]@) && sorted_by_solution(stages[i]@)
    &&& exists|l0: Seq<Partial>|
        #[trigger] initial_ok(l0, scramble) && (forall|k: int|
            0 <= k < stages[0]@.len() ==> stage1_member(l0, #[trigger] stages[0]@[k])) && exists|d: int|
            3 <= d <= 6 && #[trigger] stage1_covered(l0, stages[0]@, d, trie, depth)
    &&& exists|d: int| 1 <= d <= 6 && #[trigger] stage2_covered(stages[0]@, stages[1]@, d)
    &&& exists|d: int| 1 <= d <= 4 && #[trigger] stage3_covered(stages[1]@, stages[2]@, d)
    &&& exists|d: int| 1 <= d <= 6 && #[trigger] stage4_covered(stages[2]@, stages[3]@, d)
    &&& forall|k: int|
        0 <= k < stages[1]@.len() ==> stage_extends::<Stage2>(
            stages[0]@,
            #[trigger] stages[1]@[k],
            6,
            |s: Stage2| stage2_target(s),
        )
    &&& forall|k: int|
        0 <= k < stages[2]@.len() ==> stage_extends::<Stage3>(
            stages[1]@,
            #[trigger] stages[2]@[k],
            4,
            |s: Stage3| stage3_target(s),
        )
    &&& forall|k: int|
        0 <= k < stages[3]@.len() ==> stage_extends::<Stage4>(
            stages[2]@,
            #[trigger] stages[3]@[k],
            6,
            |s: Stage4| stage4_target(s),
        )
}

/// Stage 2: the partial solutions of stage 1 searched (1 to 6 twists),
/// then one kept per puzzle and sorted.
#[verifier::spinoff_prover]
#[verifier::rlimit(40)]
fn stage_two(stage1: &Vec<Partial>, bound: usize) -> (r: Result<Vec<Partial>, NoSolution>)
    requires
        bound + 6 + 6 <= usize::MAX,
        forall|j: int| 0 <= j < stage1@.len() ==> ready(#[trigger] stage1@[j], bound + 6),
    ensures
        stage_solvable::<Stage2>(stage1@, 6, |s: Stage2| stage2_target(s), never_pruned(), |t: Twist| Stage2::can_twist(t))
            ==> r is Ok,
        r matches Ok(v) ==> stage2_list(stage1@, v@) && distinct_ends(v@)
            && (forall|k: int| 0 <= k < v@.len() ==> ready(#[trigger] v@[k], bound + 12)) && sorted_by_solution(v@)
            && exists|d: int|
            1 <= d <= 6 && #[trigger] stage2_covered(stage1@, v@, d),
{
    proof {
        Stage2::lemma_sticker_slots_fit();
    }
    let s2_twists = stage_twists::<Stage2>();
    let is_solved2 = |s: Stage2| -> (b: bool)
        ensures
            b == stage2_target(s),
        { s.is_target_solved() };
    let prune2 = |_s: Stage2, _d: u8| -> (b: bool)
        ensures
            b == never_pruned::<Stage2>()(_s, _d as int),
        { false };
    let search2 = Iddfs::new::<Stage2>(s2_twists.as_slice(), is_solved2, prune2, 1, 6);
    proof {
        if stage_solvable::<Stage2>(stage1@, 6, |s: Stage2| stage2_target(s), never_pruned(), |t: Twist| Stage2::can_twist(t)) {
            lemma_any_solution::<Stage2, _, _>(search2, stage1@, 6, |s: Stage2| stage2_target(s), never_pruned(), |t: Twist| Stage2::can_twist(t));
        }
    }
    let stage2 = match run_stage::<Stage2, _, _>(&search2, stage1, bound + 6) {
        Ok(v) => v,
        Err(e) => {
            return Err(e);
        },
    };
    proof {
        lemma_stage2_extends(search2, stage1@, stage2@);
        let d = choose|d: int| 1 <= d <= 6 && #[trigger] search_covered::<Stage2, _, _>(search2, stage1@, stage2@, d);
        lemma_stage_covered(search2, stage1@, stage2@, d, |s: Stage2| stage2_target(s), never_pruned(), |t: Twist| Stage2::can_twist(t));
        assert(stage2_covered(stage1@, stage2@, d));
    }
    Ok(stage2)
}

/// Stage 3: the partial solutions of stage 2 searched (1 to 4 twists),
/// then one kept per puzzle and sorted.
#[verifier::spinoff_prover]
#[verifier::rlimit(40)]
fn stage_three(stage2: &Vec<Partial>, bound: usize) -> (r: Result<Vec<Partial>, NoSolution>)
    requires
        bound + 12 + 4 <= usize::MAX,
        forall|j: int| 0 <= j < stage2@.len() ==> ready(#[trigger] stage2@[j], bound + 12),
    ensures
        stage_solvable::<Stage3>(stage2@, 4, |s: Stage3| stage3_target(s), never_pruned(), |t: Twist| Stage3::can_twist(t))
            ==> r is Ok,
        r matches Ok(v) ==> stage3_list(stage2@, v@) && distinct_ends(v@)
            && (forall|k: int| 0 <= k < v@.len() ==> ready(#[trigger] v@[k], bound + 16)) && sorted_by_solution(v@)
            && exists|d: int|
            1 <= d <= 4 && #[trigger] stage3_covered(stage2@, v@, d),
{
    let s3_twists = stage_twists::<Stage3>();
    let is_solved3 = |s: Stage3| -> (b: bool)
        ensures
            b == stage3_target(s),
        { s.is_target_solved() };
    let prune3 = |_s: Stage3, _d: u8| -> (b: bool)
        ensures
            b == never_pruned::<Stage3>()(_s, _d as int),
        { false };
    let search3 = Iddfs::new::<Stage3>(s3_twists.as_slice(), is_solved3, prune3, 1, 4);
    proof {
        if stage_solvable::<Stage3>(stage2@, 4, |s: Stage3| stage3_target(s), never_pruned(), |t: Twist| Stage3::can_twist(t)) {
            lemma_any_solution::<Stage3, _, _>(search3, stage2@, 4, |s: Stage3| stage3_target(s), never_pruned(), |t: Twist| Stage3::can_twist(t));
        }
    }
    let stage3 = match run_stage::<Stage3, _, _>(&search3, stage2, bound + 12) {
        Ok(v) => v,
        Err(e) => {
            return Err(e);
        },
    };
    proof {
        lemma_stage3_extends(search3, stage2@, stage3@);
        let d = choose|d: int| 1 <= d <= 4 && #[trigger] search_covered::<Stage3, _, _>(search3, stage2@, stage3@, d);
        lemma_stage_covered(search3, stage2@, stage3@, d, |s: Stage3| stage3_target(s), never_pruned(), |t: Twist| Stage3::can_twist(t));
        assert(stage3_covered(stage2@, stage3@, d));
    }
    Ok(stage3)
}

/// Stage 4: where stage 4 can represent every puzzle of stage 3, those
/// partial solutions searched (1 to 6 of the stage 3 twists that stage 4
/// can apply), then one kept per puzzle and sorted.
#[verifier::spinoff_prover]
#[verifier::rlimit(40)]
fn stage_four(stage3: &Vec<Partial>, bound: usize) -> (r: Result<Vec<Partial>, NoSolution>)
    requires
        bound + 16 + 6 <= usize::MAX,
        forall|j: int| 0 <= j < stage3@.len() ==> ready(#[trigger] stage3@[j], bound + 16),
    ensures
        solvable_from4(stage3@) ==> r is Ok,
        r matches Ok(v) ==> stage4_list(stage3@, v@) && distinct_ends(v@) && sorted_by_solution(v@) && exists|d: int|
            1 <= d <= 6 && #[trigger] stage4_covered(stage3@, v@, d),
{
    let s3_set = Stage3::twists();
    let s4_set = Stage4::twists();
    let s4_twists = stage3_twists_for_stage4(&s3_set, &s4_set);
    if !all_stage4_representable(stage3) {
        return Err(NoSolution);
    }
    let target = Stage4::target();
    let is_solved4 = |s: Stage4| -> (b: bool)
        ensures
            b == stage4_target(s),
        {
            let b = s.is_target_solved(target.as_slice());
            proof {
                if b {
                    let i = choose|i: int| 0 <= i < target@.len() && target@[i] == s;
                    assert(target@.map_values(|t: Stage4| t.fields())[i] == s.fields());
                } else if stage4_target(s) {
                    let i = choose|i: int|
                        0 <= i < target_fields(target_twists()).len() && target_fields(target_twists())[i] == s.fields();
                    assert(target@.map_values(|t: Stage4| t.fields())[i] == target@[i].fields());
                    Stage4::lemma_fields_injective(target@[i], s);
                    assert(target@[i] == s);
                    assert(target@.contains(s));
                }
            }
            b
        };
    let prune4 = |_s: Stage4, _d: u8| -> (b: bool)
        ensures
            b == never_pruned::<Stage4>()(_s, _d as int),
        { false };
    let search4 = Iddfs::new::<Stage4>(s4_twists.as_slice(), is_solved4, prune4, 1, 6);
    proof {
        if stage_solvable::<Stage4>(stage3@, 6, |s: Stage4| stage4_target(s), never_pruned(), s4_allowed()) {
            lemma_any_solution::<Stage4, _, _>(search4, stage3@, 6, |s: Stage4| stage4_target(s), never_pruned(), s4_allowed());
        }
    }
    let stage4 = match run_stage::<Stage4, _, _>(&search4, stage3, bound + 16) {
        Ok(v) => v,
        Err(e) => {
            return Err(e);
        },
    };
    proof {
        assert forall|k: int| 0 <= k < stage4@.len() implies stage_extends::<Stage4>(
            stage3@,
            #[trigger] stage4@[k],
            6,
            |s: Stage4| stage4_target(s),
        ) by {
            lemma_stage_extends::<Stage4, _, _>(search4, stage3@, stage4@[k], |s: Stage4| stage4_target(s));
        }
        let d = choose|d: int| 1 <= d <= 6 && #[trigger] search_covered::<Stage4, _, _>(search4, stage3@, stage4@, d);
        lemma_stage_covered(search4, stage3@, stage4@, d, |s: Stage4| stage4_target(s), never_pruned(), s4_allowed());
        assert(stage4_covered(stage3@, stage4@, d));
    }
    Ok(stage4)
}

/// Solves a scramble stage by stage: the scramble tried in each of the
/// ways of [`initial_partials`]; stage 1 (3 to 6 twists, pruned with the
/// trie of depth `s1_depth`), then each partial solution also with `R` and
/// `L` swapped; stage 2 (1 to 6 twists); stage 3 (1 to 4 twists); stage 4
/// (1 to 6 of the stage 3 twists). After each stage one partial solution is
/// kept for each puzzle reached and they are sorted by their number of
/// solution twists. Returns the partial solutions after each stage, or
/// `NoSolution` where a stage finds none (or a puzzle reached cannot be
/// represented by stage 4). It succeeds whenever every stage must find a
/// solution (see [`stages_solvable`]).
#[verifier::spinoff_prover]
#[verifier::rlimit(40)]
pub fn solve_stages(scramble: Vec<Twist>, s1_prune: &SubsetTrie, s1_depth: u8) -> (r: Result<
    Vec<Vec<Partial>>,
    NoSolution,
>)
    requires
        s1_depth < 255,
        scramble@.len() + 64 <= usize::MAX,
    ensures
        stages_solvable(scramble@, *s1_prune, s1_depth) ==> r is Ok,
        r matches Ok(stages) ==> stages_ok(scramble@, *s1_prune, s1_depth, stages@),
{
    let ghost sc = scramble@;
    let bound = scramble.len();
    let stage1 = match stage_one(scramble, s1_prune, s1_depth) {
        Ok(v) => v,
        Err(e) => {
            return Err(e);
        },
    };
    let ghost l0 = choose|l0: Seq<Partial>|
        #[trigger] initial_ok(l0, sc) && forall|k: int| 0 <= k < stage1@.len() ==> stage1_member(l0, #[trigger] stage1@[k]);
    proof {
        assert(stage1_list(l0, stage1@));
    }
    let stage2 = match stage_two(&stage1, bound) {
        Ok(v) => v,
        Err(e) => {
            return Err(e);
        },
    };
    let stage3 = match stage_three(&stage2, bound) {
        Ok(v) => v,
        Err(e) => {
            return Err(e);
        },
    };
    let stage4 = match stage_four(&stage3, bound) {
        Ok(v) => v,
        Err(e) => {
            return Err(e);
        },
    };
    let ghost l1 = stage1@;
    let ghost l2 = stage2@;
    let ghost l3 = stage3@;
    let ghost l4 = stage4@;
    let mut stages: Vec<Vec<Partial>> = Vec::new();
    stages.push(stage1);
    stages.push(stage2);
    stages.push(stage3);
    stages.push(stage4);
    proof {
        assert(stages@[0]@ == l1 && stages@[1]@ == l2 && stages@[2]@ == l3 && stages@[3]@ == l4);
        assert(initial_ok(l0, sc));
    }
    Ok(stages)
}

/// Returns the stage 3 twists that stage 4 can apply, in order of index.
fn stage3_twists_for_stage4(s3: &TwistSet, s4: &TwistSet) -> (r: Vec<Twist>)
    requires
        forall|i: int| 0 <= i < 184 ==> #[trigger] s3.has(i) == Stage3::can_twist(Twist::spec_from_index(i)),
        forall|i: int| 0 <= i < 184 ==> #[trigger] s4.has(i) == Stage4::can_twist(Twist::spec_from_index(i)),
    ensures
        forall|i: int| 0 <= i < r@.len() ==> Stage4::can_twist(#[trigger] r@[i]),
        forall|t: Twist| t.inv() && #[trigger] s4_allowed()(t) ==> r@.contains(t),
{
    let mut v: Vec<Twist> = Vec::new();
    let mut k: u8 = 0;
    while k < 184
        invariant
            0 <= k <= 184,
            forall|i: int| 0 <= i < 184 ==> #[trigger] s3.has(i) == Stage3::can_twist(Twist::spec_from_index(i)),
            forall|i: int| 0 <= i < 184 ==> #[trigger] s4.has(i) == Stage4::can_twist(Twist::spec_from_index(i)),
            forall|i: int| 0 <= i < v@.len() ==> Stage4::can_twist(#[trigger] v@[i]),
            forall|i: int| 0 <= i < k && #[trigger] s4_allowed()(Twist::spec_from_index(i)) ==> v@.contains(Twist::spec_from_index(i)),
        decreases 184 - k,
    {
        let t = Twist::from_index(k);
        let ghost before = v@;
        if s3.contains(t) && s4.contains(t) {
            assert(s4.has(k as int));
            v.push(t);
            proof {
                assert(v@[before.len() as int] == t);
            }
        }
        proof {
            assert forall|i: int| 0 <= i < k + 1 && #[trigger] s4_allowed()(Twist::spec_from_index(i)) implies v@.contains(
                Twist::spec_from_index(i),
            ) by {
                if i < k {
                    let w = choose|w: int| 0 <= w < before.len() && before[w] == Twist::spec_from_index(i);
                    assert(v@[w] == before[w]);
                } else {
                    assert(s3.has(k as int) && s4.has(k as int));
                }
            }
        }
        k = k + 1;
    }
    proof {
        assert forall|t: Twist| t.inv() && #[trigger] s4_allowed()(t) implies v@.contains(t) by {
            t.lemma_idx();
            assert(s4_allowed()(Twist::spec_from_index(t.idx())));
        }
    }
    v
}

} // verus!
