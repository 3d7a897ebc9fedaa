//! Scrambles together with partial solutions.
use vstd::prelude::*;

use crate::linalg::{Mat4, TransformByMat4, Vec4};
use crate::puzzle::sim::{setup_pieces, SimplePuzzleSim};
use crate::puzzle::twist::conjugated;
use crate::puzzle::twist_names::spec_twists_to_string;
use crate::puzzle::{twists_to_string, Twist};
use crate::util::{decimal, push_decimal};
use crate::stages::Stage;
use crate::xy_rot::{xy_mat, xy_transformed, XyRot};

verus! {

/// Scramble and partial solution.
#[derive(Debug, Clone, PartialEq, Eq, Hash)]
pub struct Partial {
    /// XY rotation applied to the scramble, multiplied on the left of
    /// `scramble_rot`.
    pub scramble_xy_rot: XyRot,
    /// Rotation applied to the scramble.
    pub scramble_rot: Mat4,
    /// Scramble and solution concatenated: applying these twists to a solved
    /// puzzle gives the latest puzzle state.
    pub twists: Vec<Twist>,
    /// Indices in `twists` that separate the scramble from the solution, and
    /// the stages of the solution from each other.
    pub boundaries: Vec<usize>,
}

/// Whether `q` is `p` extended by the solution segment `seg` (see
/// [`Partial::extend`]): the segment's twists are appended, each followed
/// by the rotation that the stage applies after it; with no rotation the
/// twists are just appended.
pub open spec fn extended<S: Stage>(p: Partial, seg: Seq<Twist>, q: Partial) -> bool {
    &&& q.twists@.len() == p.twists@.len() + seg.len()
    &&& q.boundaries@ == p.boundaries@.push(q.twists@.len() as usize)
    &&& q.scramble_rot == p.scramble_rot
    &&& (forall|i: int| 0 <= i < seg.len() ==> S::rotation_after(#[trigger] seg[i]) == 0) ==> q.twists@
        == p.twists@ + seg && q.scramble_xy_rot == p.scramble_xy_rot
    &&& exists|tws: Seq<Seq<Twist>>, pows: Seq<int>|
        #![trigger tws.len(), pows.len()]
        extend_steps::<S>(p, seg, tws, pows) && q.twists@ == tws.last() && q.scramble_xy_rot.spec_pow()
            == pows.last()
}

/// One step of [`Partial::extend`]: the twists `tw` and XY-rotation power
/// `pow` become `tw2` and `pow2` when `t` is appended and the rotation that
/// the stage applies after `t` turns everything (each twist conjugated by
/// it, and its power added to the scramble's).
pub open spec fn extend_step<S: Stage>(tw: Seq<Twist>, pow: int, t: Twist, tw2: Seq<Twist>, pow2: int) -> bool {
    let tw1 = tw.push(t);
    let a = S::rotation_after(t);
    if a == 0 {
        tw2 == tw1 && pow2 == pow
    } else {
        &&& tw2.len() == tw1.len()
        &&& forall|i: int| 0 <= i < tw1.len() ==> conjugated(tw1[i], xy_mat(a), #[trigger] tw2[i])
        &&& pow2 == (a + pow) % 4
    }
}

/// Whether `tws` and `pows` are the twists and XY-rotation powers after
/// each twist of `seg` in turn, from those of `p`.
pub open spec fn extend_steps<S: Stage>(p: Partial, seg: Seq<Twist>, tws: Seq<Seq<Twist>>, pows: Seq<int>) -> bool {
    &&& tws.len() == seg.len() + 1
    &&& pows.len() == seg.len() + 1
    &&& tws[0] == p.twists@
    &&& pows[0] == p.scramble_xy_rot.spec_pow()
    &&& forall|k: int|
        0 <= k < seg.len() ==> extend_step::<S>(tws[k], pows[k], #[trigger] seg[k], tws[k + 1], pows[k + 1])
}

/// The puzzle that a partial solution leads to.
pub open spec fn end_state(p: Partial) -> Seq<(Vec4, Mat4)> {
    setup_pieces(p.twists@)
}

/// Whether the partial solution's second boundary, if any, lies within its
/// twists.
pub open spec fn len_ok(p: Partial) -> bool {
    p.scramble_end() <= p.twists@.len()
}

/// Returns whether two puzzles hold the same pieces in the same places.
fn same_pieces(a: &SimplePuzzleSim, b: &SimplePuzzleSim) -> (r: bool)
    ensures
        r == (a.pieces@ == b.pieces@),
{
    let mut i: usize = 0;
    while i < 81
        invariant
            0 <= i <= 81,
            forall|j: int| 0 <= j < i ==> a.pieces@[j] == b.pieces@[j],
        decreases 81 - i,
    {
        let (va, ma) = a.pieces[i];
        let (vb, mb) = b.pieces[i];
        if !va.same(vb) || ma != mb {
            return false;
        }
        i = i + 1;
    }
    assert(a.pieces@ =~= b.pieces@);
    true
}

/// Number of twists in the solution part of a partial solution.
pub open spec fn solution_len(p: Partial) -> int {
    p.twists@.len() - p.scramble_end()
}

/// Whether `r` is `input` reordered by `idx` (`r[k]` is `input[idx[k]]`,
/// each index once) so that the solution lengths never decrease and equal
/// lengths keep their order.
pub open spec fn sorted_by_len_from(r: Seq<Partial>, input: Seq<Partial>, idx: Seq<int>) -> bool {
    &&& r.len() == input.len()
    &&& idx.len() == r.len()
    &&& forall|k: int| 0 <= k < idx.len() ==> 0 <= #[trigger] idx[k] < input.len() && r[k] == input[idx[k]]
    &&& forall|k: int, l: int|
        0 <= k < l < idx.len() ==> solution_len(#[trigger] r[k]) < solution_len(#[trigger] r[l]) || (
        solution_len(r[k]) == solution_len(r[l]) && idx[k] < idx[l])
}

/// Sorts partial solutions by the number of solution twists, keeping the
/// order of those with equally many.
pub fn sort_by_len(partials: &mut Vec<Partial>)
    requires
        forall|i: int| 0 <= i < old(partials)@.len() ==> len_ok(#[trigger] old(partials)@[i]),
    ensures
        exists|idx: Seq<int>| sorted_by_len_from(final(partials)@, old(partials)@, idx),
        forall|i: int| 0 <= i < old(partials)@.len() ==> final(partials)@.contains(#[trigger] old(partials)@[i]),
{
    let mut rest: Vec<Partial> = Vec::new();
    std::mem::swap(&mut rest, partials);
    let ghost input = rest@;
    let mut out: Vec<Partial> = Vec::new();
    let mut lens: Vec<usize> = Vec::new();
    let ghost mut idx: Seq<int> = Seq::empty();
    let ghost mut done: int = 0;
    while rest.len() > 0
        invariant
            0 <= done <= input.len(),
            rest@ == input.skip(done),
            forall|i: int| 0 <= i < input.len() ==> len_ok(#[trigger] input[i]),
            lens@.len() == out@.len(),
            forall|k: int| 0 <= k < out@.len() ==> lens@[k] == solution_len(#[trigger] out@[k]),
            idx.len() == out@.len(),
            out@.len() == done,
            forall|k: int| 0 <= k < idx.len() ==> 0 <= #[trigger] idx[k] < done && out@[k] == input[idx[k]],
            forall|k: int, l: int|
                0 <= k < l < idx.len() ==> solution_len(#[trigger] out@[k]) < solution_len(#[trigger] out@[l]) || (
                solution_len(out@[k]) == solution_len(out@[l]) && idx[k] < idx[l]),
            forall|i: int| 0 <= i < done ==> out@.contains(#[trigger] input[i]),
        decreases rest@.len(),
    {
        proof {
            assert(input.skip(done)[0] == input[done]);
        }
        let p = rest.remove(0);
        proof {
            assert(rest@ =~= input.skip(done + 1));
        }
        let plen = p.len();
        let mut pos: usize = 0;
        while pos < lens.len() && lens[pos] <= plen
            invariant
                0 <= pos <= lens@.len(),
                forall|k: int| 0 <= k < pos ==> #[trigger] lens@[k] <= plen,
            decreases lens@.len() - pos,
        {
            pos = pos + 1;
        }
        let ghost old_out = out@;
        let ghost old_idx = idx;
        out.insert(pos, p);
        lens.insert(pos, plen);
        proof {
            idx = old_idx.insert(pos as int, done);
            let gp = input[done];
            assert forall|k: int, l: int| 0 <= k < l < idx.len() implies solution_len(#[trigger] out@[k])
                < solution_len(#[trigger] out@[l]) || (solution_len(out@[k]) == solution_len(out@[l]) && idx[k]
                < idx[l]) by {
                if k < pos && l < pos {
                    assert(out@[k] == old_out[k] && out@[l] == old_out[l]);
                } else if k < pos && l == pos {
                    assert(out@[k] == old_out[k]);
                    assert(lens@[k] <= plen);
                } else if k < pos && l > pos {
                    assert(out@[k] == old_out[k] && out@[l] == old_out[l - 1]);
                } else if k == pos {
                    assert(out@[l] == old_out[l - 1]);
                    if pos < old_out.len() {
                        assert(lens@[pos + 1] > plen);
                        if l > pos + 1 {
                            assert(old_out[pos as int] == out@[pos + 1]);
                            assert(solution_len(old_out[pos as int]) <= solution_len(old_out[l - 1]));
                        }
                    }
                } else {
                    assert(out@[k] == old_out[k - 1] && out@[l] == old_out[l - 1]);
                }
            }
            assert forall|i: int| 0 <= i < done + 1 implies out@.contains(#[trigger] input[i]) by {
                if i < done {
                    assert(old_out.contains(input[i]));
                    let w = choose|w: int| 0 <= w < old_out.len() && old_out[w] == input[i];
                    if w < pos {
                        assert(out@[w] == old_out[w]);
                    } else {
                        assert(out@[w + 1] == old_out[w]);
                    }
                } else {
                    assert(out@[pos as int] == input[done]);
                }
            }
            done = done + 1;
        }
    }
    proof {
        assert(sorted_by_len_from(out@, input, idx));
    }
    *partials = out;
}

/// Whether no two of the partial solutions lead to the same puzzle.
pub open spec fn distinct_ends(kept: Seq<Partial>) -> bool {
    forall|i: int, j: int| 0 <= i < j < kept.len() ==> end_state(#[trigger] kept[i]) != end_state(#[trigger] kept[j])
}

/// Whether one of `kept` leads to the same puzzle as `q` with a solution no
/// longer.
pub open spec fn covered_by(kept: Seq<Partial>, q: Partial) -> bool {
    exists|j: int|
        0 <= j < kept.len() && end_state(#[trigger] kept[j]) == end_state(q) && solution_len(kept[j])
            <= solution_len(q)
}

/// Whether each partial solution of `input` is covered by `kept`.
pub open spec fn covers(kept: Seq<Partial>, input: Seq<Partial>) -> bool {
    forall|i: int| 0 <= i < input.len() ==> covered_by(kept, #[trigger] input[i])
}

/// Whether each of `kept` is one of `input`.
pub open spec fn drawn_from(kept: Seq<Partial>, input: Seq<Partial>) -> bool {
    forall|j: int| 0 <= j < kept.len() ==> input.contains(#[trigger] kept[j])
}

/// The kept list after one more partial solution `p`, where `j` is the
/// place of the kept one leading where `p` leads, or the end if none does.
pub open spec fn dedup_next(kept: Seq<Partial>, p: Partial, j: int) -> Seq<Partial> {
    if j < kept.len() {
        if solution_len(p) < solution_len(kept[j]) {
            kept.update(j, p)
        } else {
            kept
        }
    } else {
        kept.push(p)
    }
}

proof fn lemma_step_distinct(kept: Seq<Partial>, p: Partial, j: int)
    requires
        distinct_ends(kept),
        0 <= j <= kept.len(),
        j < kept.len() ==> end_state(kept[j]) == end_state(p),
        j == kept.len() ==> forall|k: int| 0 <= k < kept.len() ==> end_state(#[trigger] kept[k]) != end_state(p),
    ensures
        distinct_ends(dedup_next(kept, p, j)),
{
    let kept2 = dedup_next(kept, p, j);
    assert forall|i: int, k: int| 0 <= i < k < kept2.len() implies end_state(#[trigger] kept2[i]) != end_state(
        #[trigger] kept2[k],
    ) by {
        if j == kept.len() && k == kept.len() {
            assert(end_state(kept[i]) != end_state(p));
        } else if j < kept.len() && (i == j || k == j) {
            if i == j {
                assert(end_state(kept[j]) != end_state(kept[k]));
            } else {
                assert(end_state(kept[i]) != end_state(kept[j]));
            }
        }
    }
}

proof fn lemma_step_covers(kept: Seq<Partial>, input: Seq<Partial>, p: Partial, j: int)
    requires
        covers(kept, input),
        0 <= j <= kept.len(),
        j < kept.len() ==> end_state(kept[j]) == end_state(p),
    ensures
        covers(dedup_next(kept, p, j), input.push(p)),
{
    let kept2 = dedup_next(kept, p, j);
    let input2 = input.push(p);
    assert forall|i: int| 0 <= i < input2.len() implies covered_by(kept2, #[trigger] input2[i]) by {
        if i < input.len() {
            assert(input2[i] == input[i]);
            assert(covered_by(kept, input[i]));
            let jj = choose|jj: int|
                0 <= jj < kept.len() && end_state(#[trigger] kept[jj]) == end_state(input[i]) && solution_len(
                    kept[jj],
                ) <= solution_len(input[i]);
            if jj == j {
                assert(end_state(kept2[j]) == end_state(input2[i]));
            } else {
                assert(kept2[jj] == kept[jj]);
            }
        } else {
            assert(input2[i] == p);
            if j == kept.len() {
                assert(kept2[j] == p);
            } else {
                assert(end_state(kept2[j]) == end_state(p));
            }
        }
    }
}

proof fn lemma_step_drawn(kept: Seq<Partial>, input: Seq<Partial>, p: Partial, j: int)
    requires
        drawn_from(kept, input),
        0 <= j <= kept.len(),
    ensures
        drawn_from(dedup_next(kept, p, j), input.push(p)),
{
    let kept2 = dedup_next(kept, p, j);
    let input2 = input.push(p);
    assert forall|jj: int| 0 <= jj < kept2.len() implies input2.contains(#[trigger] kept2[jj]) by {
        if kept2[jj] == p {
            assert(input2[input.len() as int] == p);
        } else {
            assert(kept2[jj] == kept[jj]);
            assert(input.contains(kept[jj]));
            let w = choose|w: int| 0 <= w < input.len() && input[w] == kept[jj];
            assert(input2[w] == kept[jj]);
        }
    }
}

/// What [`dedup_partials`] keeps of `input`: going through it in order, a
/// partial solution leading to a puzzle that none kept so far leads to is
/// added at the end; one leading to the same puzzle as a kept one replaces
/// it if its solution is strictly shorter, and is dropped otherwise.
#[verifier::opaque]
pub open spec fn deduped(input: Seq<Partial>) -> Seq<Partial>
    decreases input.len(),
{
    if input.len() == 0 {
        Seq::empty()
    } else {
        let kept = deduped(input.drop_last());
        let p = input.last();
        if exists|j: int| 0 <= j < kept.len() && end_state(#[trigger] kept[j]) == end_state(p) {
            let j = choose|j: int| 0 <= j < kept.len() && end_state(#[trigger] kept[j]) == end_state(p);
            if solution_len(p) < solution_len(kept[j]) {
                kept.update(j, p)
            } else {
                kept
            }
        } else {
            kept.push(p)
        }
    }
}

/// One step of [`deduped`]: with the kept partial solutions distinct and
/// `j` the place of the one leading where `p` leads (or the end if none
/// does), the next kept list is [`dedup_next`] at `j`.
proof fn lemma_deduped_push(input: Seq<Partial>, p: Partial, j: int)
    requires
        distinct_ends(deduped(input)),
        0 <= j <= deduped(input).len(),
        j < deduped(input).len() ==> end_state(deduped(input)[j]) == end_state(p),
        j == deduped(input).len() ==> forall|k: int|
            0 <= k < deduped(input).len() ==> end_state(#[trigger] deduped(input)[k]) != end_state(p),
    ensures
        deduped(input.push(p)) == dedup_next(deduped(input), p, j),
{
    reveal(deduped);
    let input2 = input.push(p);
    assert(input2.drop_last() =~= input);
    assert(input2.last() == p);
    let kept = deduped(input);
    if j < kept.len() {
        assert(end_state(kept[j]) == end_state(p));
        let c = choose|c: int| 0 <= c < kept.len() && end_state(#[trigger] kept[c]) == end_state(p);
        if c != j {
            if c < j {
                assert(end_state(kept[c]) != end_state(kept[j]));
            } else {
                assert(end_state(kept[j]) != end_state(kept[c]));
            }
        }
    }
}

/// What [`dedup_partials`] keeps leads to pairwise different puzzles, each
/// kept partial solution is one of the input, and each input partial
/// solution has a kept one leading to the same puzzle with a solution no
/// longer.
#[verifier::spinoff_prover]
pub proof fn law_deduped(input: Seq<Partial>)
    ensures
        distinct_ends(deduped(input)),
        covers(deduped(input), input),
        drawn_from(deduped(input), input),
    decreases input.len(),
{
    reveal(deduped);
    if input.len() > 0 {
        let prev = input.drop_last();
        let p = input.last();
        law_deduped(prev);
        let kept = deduped(prev);
        let j = if exists|j: int| 0 <= j < kept.len() && end_state(#[trigger] kept[j]) == end_state(p) {
            choose|j: int| 0 <= j < kept.len() && end_state(#[trigger] kept[j]) == end_state(p)
        } else {
            kept.len() as int
        };
        lemma_deduped_push(prev, p, j);
        assert(prev.push(p) =~= input);
        lemma_step_distinct(kept, p, j);
        lemma_step_covers(kept, prev, p, j);
        lemma_step_drawn(kept, prev, p, j);
    }
}

/// Adds `p` to the kept partial solutions, each beside the puzzle it leads
/// to: in the place of the one leading to the same puzzle if `p`'s solution
/// is strictly shorter, at the end if none leads there. Returns that place.
fn keep_if_shorter(kept: &mut Vec<Partial>, states: &mut Vec<SimplePuzzleSim>, p: Partial) -> (j: Ghost<int>)
    requires
        old(states)@.len() == old(kept)@.len(),
        forall|k: int| 0 <= k < old(kept)@.len() ==> old(states)@[k].pieces@ == end_state(#[trigger] old(kept)@[k]),
        forall|k: int| 0 <= k < old(kept)@.len() ==> len_ok(#[trigger] old(kept)@[k]),
        len_ok(p),
    ensures
        0 <= j@ <= old(kept)@.len(),
        j@ < old(kept)@.len() ==> end_state(old(kept)@[j@]) == end_state(p),
        j@ == old(kept)@.len() ==> forall|k: int|
            0 <= k < old(kept)@.len() ==> end_state(#[trigger] old(kept)@[k]) != end_state(p),
        final(kept)@ == dedup_next(old(kept)@, p, j@),
        final(states)@.len() == final(kept)@.len(),
        forall|k: int| 0 <= k < final(kept)@.len() ==> final(states)@[k].pieces@ == end_state(#[trigger] final(kept)@[k]),
        forall|k: int| 0 <= k < final(kept)@.len() ==> len_ok(#[trigger] final(kept)@[k]),
{
    let state = SimplePuzzleSim::with_setup(p.twists.as_slice());
    let plen = p.len();
    let mut j: usize = 0;
    while j < states.len() && !same_pieces(&states[j], &state)
        invariant
            0 <= j <= states@.len(),
            forall|k: int| 0 <= k < j ==> states@[k].pieces@ != state.pieces@,
        decreases states@.len() - j,
    {
        j = j + 1;
    }
    let ghost old_kept = kept@;
    if j < states.len() {
        let klen = kept[j].len();
        if plen < klen {
            kept.set(j, p);
        }
    } else {
        assert forall|k: int| 0 <= k < old_kept.len() implies end_state(#[trigger] old_kept[k]) != end_state(p) by {
            assert(states@[k].pieces@ != state.pieces@);
        }
        kept.push(p);
        states.push(state);
    }
    Ghost(j as int)
}

/// Keeps one partial solution for each puzzle that the partial solutions
/// lead to: the first of the shortest, in the place of the first partial
/// solution leading there. Returns the number of partial solutions removed.
#[verifier::spinoff_prover]
#[verifier::rlimit(50)]
pub fn dedup_partials(partials: &mut Vec<Partial>) -> (removed: usize)
    requires
        forall|i: int| 0 <= i < old(partials)@.len() ==> len_ok(#[trigger] old(partials)@[i]),
    ensures
        final(partials)@ == deduped(old(partials)@),
        distinct_ends(final(partials)@),
        covers(final(partials)@, old(partials)@),
        drawn_from(final(partials)@, old(partials)@),
        removed == old(partials)@.len() - final(partials)@.len(),
{
    let mut kept: Vec<Partial> = Vec::new();
    let mut states: Vec<SimplePuzzleSim> = Vec::new();
    let mut rest: Vec<Partial> = Vec::new();
    std::mem::swap(&mut rest, partials);
    let total = rest.len();
    let ghost all = rest@;
    let ghost mut input: Seq<Partial> = Seq::empty();
    assert(deduped(input) =~= Seq::empty()) by {
        reveal(deduped);
    }
    while rest.len() > 0
        invariant
            all == input + rest@,
            total == all.len(),
            states@.len() == kept@.len(),
            forall|i: int| 0 <= i < all.len() ==> len_ok(#[trigger] all[i]),
            forall|j: int| 0 <= j < kept@.len() ==> states@[j].pieces@ == end_state(#[trigger] kept@[j]),
            forall|j: int| 0 <= j < kept@.len() ==> len_ok(#[trigger] kept@[j]),
            kept@ == deduped(input),
            kept@.len() <= input.len(),
        decreases rest@.len(),
    {
        let p = rest.remove(0);
        proof {
            assert(all[input.len() as int] == p);
        }
        let ghost gp = p;
        let ghost old_kept = kept@;
        proof {
            law_deduped(input);
        }
        let j = keep_if_shorter(&mut kept, &mut states, p);
        proof {
            lemma_deduped_push(input, gp, j@);
        }
        proof {
            input = input.push(gp);
            assert(all =~= input + rest@);
        }
    }
    assert(input =~= all);
    proof {
        law_deduped(all);
    }
    let removed = total - kept.len();
    *partials = kept;
    removed
}

/// Returns the twists of `v` from index `start` up to `end`.
fn twists_between(v: &Vec<Twist>, start: usize, end: usize) -> (r: Vec<Twist>)
    requires
        start <= end <= v@.len(),
    ensures
        r@ == v@.subrange(start as int, end as int),
{
    let mut r: Vec<Twist> = Vec::new();
    let mut i: usize = start;
    while i < end
        invariant
            start <= i <= end <= v@.len(),
            r@ == v@.subrange(start as int, i as int),
        decreases end - i,
    {
        r.push(v[i]);
        assert(r@ =~= v@.subrange(start as int, i + 1));
        i = i + 1;
    }
    r
}

/// Whether the boundaries start at 0, end at the number of twists, and
/// never decrease.
pub open spec fn boundaries_ok(p: Partial) -> bool {
    &&& p.boundaries@.len() >= 1
    &&& p.boundaries@[0] == 0
    &&& p.boundaries@.last() == p.twists@.len()
    &&& forall|j: int| 0 <= j < p.boundaries@.len() - 1 ==> p.boundaries@[j] <= #[trigger] p.boundaries@[j + 1]
}

/// With the boundaries in order, each is at most the number of twists.
proof fn lemma_boundary_at_most_last(p: Partial, a: int)
    requires
        boundaries_ok(p),
        0 <= a < p.boundaries@.len(),
    ensures
        p.boundaries@[a] <= p.twists@.len(),
    decreases p.boundaries@.len() - a,
{
    if a < p.boundaries@.len() - 1 {
        assert(p.boundaries@[a] <= p.boundaries@[a + 1]);
        lemma_boundary_at_most_last(p, a + 1);
    }
}

/// The names of the twists of segment `j`: from boundary `j` to boundary
/// `j + 1`.
pub open spec fn segment_string(p: Partial, j: int) -> Seq<char> {
    spec_twists_to_string(p.twists@.subrange(p.boundaries@[j] as int, p.boundaries@[j + 1] as int))
}

/// Terminal color code of the `k`-th solution segment: magenta, blue, green,
/// yellow, red, and again.
pub open spec fn color_code(k: int) -> Seq<char> {
    let c = k % 5;
    if c == 0 {
        seq!['3', '5']
    } else if c == 1 {
        seq!['3', '4']
    } else if c == 2 {
        seq!['3', '2']
    } else if c == 3 {
        seq!['3', '3']
    } else {
        seq!['3', '1']
    }
}

/// How segment `j` is shown: the scramble dimmed, each solution segment in
/// its color, an empty one as `.`.
pub open spec fn shown_segment(p: Partial, j: int) -> Seq<char> {
    if j == 0 {
        seq!['\x1B', '[', '2', 'm'] + segment_string(p, 0) + seq!['\x1B', '[', '0', 'm']
    } else {
        seq![' ', '\x1B', '['] + color_code(j - 1) + seq!['m'] + segment_string(p, j) + if segment_string(
            p,
            j,
        ).len() == 0 {
            seq!['.']
        } else {
            Seq::empty()
        }
    }
}

/// The first `n` segments as shown.
pub open spec fn shown_segments(p: Partial, n: nat) -> Seq<char>
    decreases n,
{
    if n == 0 {
        Seq::empty()
    } else {
        shown_segments(p, (n - 1) as nat) + shown_segment(p, n - 1)
    }
}

/// The partial solution as shown on a terminal: its segments, the color
/// reset, and the number of solution twists.
pub open spec fn ansi_string(p: Partial) -> Seq<char> {
    shown_segments(p, (p.boundaries@.len() - 1) as nat) + seq!['\x1B', '[', '0', 'm', ' ', '('] + decimal(
        solution_len(p) as nat,
    ) + seq![' ', 'm', 'o', 'v', 'e', 's', ')']
}

/// Appends segment `j` as shown on a terminal.
fn push_shown_segment(ret: &mut String, p: &Partial, j: usize)
    requires
        boundaries_ok(*p),
        j < p.boundaries@.len() - 1,
    ensures
        final(ret)@ == old(ret)@ + shown_segment(*p, j as int),
{
    proof {
        reveal_strlit("\x1B[2m");
        reveal_strlit("\x1B[0m");
        reveal_strlit(" \x1B[");
        reveal_strlit("35");
        reveal_strlit("34");
        reveal_strlit("32");
        reveal_strlit("33");
        reveal_strlit("31");
        reveal_strlit("m");
        reveal_strlit(".");
    }
    let blen = p.boundaries.len();
    assert(j + 1 < blen);
    let start = p.boundaries[j];
    let end = p.boundaries[j + 1];
    proof {
        assert(p.boundaries@[j as int] <= p.boundaries@[j + 1]);
        lemma_boundary_at_most_last(*p, j + 1);
    }
    let seg = twists_between(&p.twists, start, end);
    let seg_str = twists_to_string(seg.as_slice());
    assert(seg_str@ == segment_string(*p, j as int));
    let ghost before = ret@;
    if j == 0 {
        ret.append("\x1B[2m");
        ret.append(seg_str.as_str());
        ret.append("\x1B[0m");
        assert(ret@ =~= before + seq!['\x1B', '[', '2', 'm'] + seg_str@ + seq!['\x1B', '[', '0', 'm']);
    } else {
        ret.append(" \x1B[");
        let c = (j - 1) % 5;
        if c == 0 {
            ret.append("35");
        } else if c == 1 {
            ret.append("34");
        } else if c == 2 {
            ret.append("32");
        } else if c == 3 {
            ret.append("33");
        } else {
            ret.append("31");
        }
        ret.append("m");
        ret.append(seg_str.as_str());
        assert(ret@ =~= before + seq![' ', '\x1B', '['] + color_code(j - 1) + seq!['m'] + seg_str@);
        if seg_str.as_str().is_empty() {
            ret.append(".");
        }
    }
    proof {
        assert(ret@ =~= before + shown_segment(*p, j as int));
    }
}

/// Returns a copy of a list of twists.
pub fn copy_twists(v: &Vec<Twist>) -> (r: Vec<Twist>)
    ensures
        r@ == v@,
{
    let mut r: Vec<Twist> = Vec::new();
    let mut i: usize = 0;
    while i < v.len()
        invariant
            0 <= i <= v@.len(),
            r@ == v@.take(i as int),
        decreases v@.len() - i,
    {
        r.push(v[i]);
        assert(r@ =~= v@.take(i + 1));
        i = i + 1;
    }
    assert(v@.take(v@.len() as int) =~= v@);
    r
}

/// Returns a copy of a list of indices.
pub(crate) fn copy_indices(v: &Vec<usize>) -> (r: Vec<usize>)
    ensures
        r@ == v@,
{
    let mut r: Vec<usize> = Vec::new();
    let mut i: usize = 0;
    while i < v.len()
        invariant
            0 <= i <= v@.len(),
            r@ == v@.take(i as int),
        decreases v@.len() - i,
    {
        r.push(v[i]);
        assert(r@ =~= v@.take(i + 1));
        i = i + 1;
    }
    assert(v@.take(v@.len() as int) =~= v@);
    r
}

impl Partial {
    /// Returns the partial solution for a terminal: the scramble dimmed,
    /// each stage's segment in its own color (an empty one as `.`), and the
    /// number of solution twists.
    pub fn to_string_ansi(&self) -> (r: String)
        requires
            boundaries_ok(*self),
        ensures
            r@ == ansi_string(*self),
    {
        let mut ret = String::new();
        let n = self.boundaries.len() - 1;
        let mut j: usize = 0;
        while j < n
            invariant
                0 <= j <= n,
                n == self.boundaries@.len() - 1,
                boundaries_ok(*self),
                ret@ == shown_segments(*self, j as nat),
            decreases n - j,
        {
            push_shown_segment(&mut ret, self, j);
            j = j + 1;
        }
        proof {
            reveal_strlit("\x1B[0m");
            reveal_strlit(" (");
            reveal_strlit(" moves)");
        }
        ret.append("\x1B[0m");
        ret.append(" (");
        proof {
            if self.boundaries@.len() > 1 {
                lemma_boundary_at_most_last(*self, 1);
            }
        }
        push_decimal(&mut ret, self.len());
        ret.append(" moves)");
        ret
    }

    /// Index where the solution starts: the second boundary, or the end of
    /// the twists if there is none.
    pub open spec fn scramble_end(self) -> int {
        if self.boundaries@.len() > 1 {
            self.boundaries@[1] as int
        } else {
            self.twists@.len() as int
        }
    }

    /// Constructs a partial solution with only a scramble and no solution
    /// twists.
    pub fn new(scramble: Vec<Twist>) -> (r: Partial)
        ensures
            r.twists@ == scramble@,
            r.boundaries@ == seq![0usize, scramble@.len() as usize],
            r.scramble_rot == Mat4::spec_ident(),
            r.scramble_xy_rot.spec_pow() == 0,
    {
        let mut boundaries: Vec<usize> = Vec::new();
        boundaries.push(0);
        boundaries.push(scramble.len());
        assert(boundaries@ =~= seq![0usize, scramble@.len() as usize]);
        Partial { scramble_xy_rot: XyRot::ident(), scramble_rot: Mat4::ident(), twists: scramble, boundaries }
    }

    /// Returns the number of twists in the solution.
    pub fn len(&self) -> (r: usize)
        requires
            self.scramble_end() <= self.twists@.len(),
        ensures
            r == self.twists@.len() - self.scramble_end(),
    {
        let scramble_end = if self.boundaries.len() > 1 {
            self.boundaries[1]
        } else {
            self.twists.len()
        };
        self.twists.len() - scramble_end
    }

    /// Returns the partial solution with the whole puzzle transformed by
    /// `m`: each twist conjugated by `m`, and `m` folded into the scramble's
    /// rotation.
    pub fn transform_by(&self, m: Mat4) -> (r: Partial)
        requires
            m.is_perm(),
        ensures
            r.scramble_xy_rot.spec_pow() == 0,
            r.scramble_rot == m.spec_mul(xy_mat(self.scramble_xy_rot.spec_pow()).spec_mul(self.scramble_rot)),
            r.twists@.len() == self.twists@.len(),
            forall|i: int| 0 <= i < self.twists@.len() ==> conjugated(self.twists@[i], m, #[trigger] r.twists@[i]),
            r.boundaries@ == self.boundaries@,
    {
        let mut twists: Vec<Twist> = Vec::new();
        let mut i: usize = 0;
        while i < self.twists.len()
            invariant
                0 <= i <= self.twists@.len(),
                m.is_perm(),
                twists@.len() == i,
                forall|j: int| 0 <= j < i ==> conjugated(self.twists@[j], m, #[trigger] twists@[j]),
            decreases self.twists@.len() - i,
        {
            twists.push(self.twists[i].transform_by(m));
            i = i + 1;
        }
        Partial {
            scramble_xy_rot: XyRot::ident(),
            scramble_rot: m.mul(self.scramble_xy_rot.mat4().mul(self.scramble_rot)),
            twists,
            boundaries: copy_indices(&self.boundaries),
        }
    }

    /// Adds a segment of solution, returning a new partial solution: each
    /// twist is appended, and then the rotation that the stage applies after
    /// it turns the whole partial solution.
    pub fn extend<S: Stage>(&self, solution_segment: &[Twist]) -> (r: Partial)
        requires
            self.twists@.len() + solution_segment@.len() <= usize::MAX,
        ensures
            extended::<S>(*self, solution_segment@, r),
    {
        let mut ret = Partial {
            scramble_xy_rot: self.scramble_xy_rot,
            scramble_rot: self.scramble_rot,
            twists: copy_twists(&self.twists),
            boundaries: copy_indices(&self.boundaries),
        };
        let ghost mut tws: Seq<Seq<Twist>> = seq![self.twists@];
        let ghost mut pows: Seq<int> = seq![self.scramble_xy_rot.spec_pow()];
        let mut i: usize = 0;
        while i < solution_segment.len()
            invariant
                0 <= i <= solution_segment@.len(),
                self.twists@.len() + solution_segment@.len() <= usize::MAX,
                ret.twists@.len() == self.twists@.len() + i,
                ret.boundaries@ == self.boundaries@,
                ret.scramble_rot == self.scramble_rot,
                (forall|j: int| 0 <= j < i ==> S::rotation_after(#[trigger] solution_segment@[j]) == 0)
                    ==> ret.twists@ == self.twists@ + solution_segment@.take(i as int) && ret.scramble_xy_rot
                    == self.scramble_xy_rot,
                tws.len() == i + 1,
                pows.len() == i + 1,
                tws[0] == self.twists@,
                pows[0] == self.scramble_xy_rot.spec_pow(),
                forall|k: int|
                    0 <= k < i ==> extend_step::<S>(
                        tws[k],
                        pows[k],
                        #[trigger] solution_segment@[k],
                        tws[k + 1],
                        pows[k + 1],
                    ),
                ret.twists@ == tws.last(),
                ret.scramble_xy_rot.spec_pow() == pows.last(),
            decreases solution_segment@.len() - i,
        {
            let twist = solution_segment[i];
            let ghost tw0 = ret.twists@;
            let ghost pow0 = ret.scramble_xy_rot.spec_pow();
            ret.twists.push(twist);
            let rot = S::implicit_rotation_after_twist(twist);
            if !rot.is_ident() {
                ret.transform_in_place_by_xy(rot);
            }
            proof {
                let ghost_tws = tws;
                let ghost_pows = pows;
                tws = ghost_tws.push(ret.twists@);
                pows = ghost_pows.push(ret.scramble_xy_rot.spec_pow());
                assert(extend_step::<S>(tw0, pow0, twist, ret.twists@, ret.scramble_xy_rot.spec_pow()));
                assert forall|k: int| 0 <= k < i + 1 implies extend_step::<S>(
                    tws[k],
                    pows[k],
                    #[trigger] solution_segment@[k],
                    tws[k + 1],
                    pows[k + 1],
                ) by {
                    if k < i {
                        assert(tws[k] == ghost_tws[k] && tws[k + 1] == ghost_tws[k + 1]);
                        assert(pows[k] == ghost_pows[k] && pows[k + 1] == ghost_pows[k + 1]);
                    }
                }
            }
            proof {
                if forall|j: int| 0 <= j < i + 1 ==> S::rotation_after(#[trigger] solution_segment@[j]) == 0 {
                    assert(S::rotation_after(solution_segment@[i as int]) == 0);
                    assert(solution_segment@.take(i + 1) =~= solution_segment@.take(i as int).push(twist));
                }
            }
            i = i + 1;
        }
        let n = ret.twists.len();
        ret.boundaries.push(n);
        assert(solution_segment@.take(solution_segment@.len() as int) =~= solution_segment@);
        assert(extend_steps::<S>(*self, solution_segment@, tws, pows));
        ret
    }

    /// Rotates the whole scramble and solution in place by an XY rotation.
    pub fn transform_in_place_by_xy(&mut self, rot: XyRot)
        ensures
            final(self).scramble_xy_rot.spec_pow() == (rot.spec_pow() + old(self).scramble_xy_rot.spec_pow()) % 4,
            final(self).scramble_rot == old(self).scramble_rot,
            final(self).boundaries@ == old(self).boundaries@,
            final(self).twists@.len() == old(self).twists@.len(),
            forall|i: int|
                0 <= i < old(self).twists@.len() ==> xy_transformed(
                    rot,
                    old(self).twists@[i],
                    #[trigger] final(self).twists@[i],
                ),
    {
        self.scramble_xy_rot = rot.mul(self.scramble_xy_rot);
        let mut i: usize = 0;
        let ghost old_twists = self.twists@;
        while i < self.twists.len()
            invariant
                0 <= i <= self.twists@.len(),
                self.twists@.len() == old_twists.len(),
                old_twists == old(self).twists@,
                self.scramble_xy_rot.spec_pow() == (rot.spec_pow() + old(self).scramble_xy_rot.spec_pow()) % 4,
                self.scramble_rot == old(self).scramble_rot,
                self.boundaries@ == old(self).boundaries@,
                forall|j: int| 0 <= j < i ==> xy_transformed(rot, old_twists[j], #[trigger] self.twists@[j]),
                forall|j: int| i <= j < old_twists.len() ==> #[trigger] self.twists@[j] == old_twists[j],
            decreases self.twists@.len() - i,
        {
            let t = rot.transform_twist(self.twists[i]);
            self.twists.set(i, t);
            i = i + 1;
        }
    }
}

/// The partial solution with the whole puzzle transformed by `m`.
impl TransformByMat4 for Partial {
    open spec fn can_transform_by(&self, m: Mat4) -> bool {
        m.is_perm()
    }

    open spec fn transformed_by(&self, m: Mat4, r: Partial) -> bool {
        &&& r.scramble_xy_rot.spec_pow() == 0
        &&& r.scramble_rot == m.spec_mul(xy_mat(self.scramble_xy_rot.spec_pow()).spec_mul(self.scramble_rot))
        &&& r.twists@.len() == self.twists@.len()
        &&& forall|i: int| 0 <= i < self.twists@.len() ==> conjugated(self.twists@[i], m, #[trigger] r.twists@[i])
        &&& r.boundaries@ == self.boundaries@
    }

    fn transform_by(&self, m: Mat4) -> (r: Partial) {
        Partial::transform_by(self, m)
    }
}

} // verus!
