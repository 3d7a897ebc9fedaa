//! Stages of the solving method: each keeps the part of the puzzle state
//! that it needs, in packed integers.
use vstd::prelude::*;

use crate::linalg::{Mat4, Vec4};
use crate::puzzle::sim::{
    law_setup_valid, law_twist_keeps_valid, rotate_pieces, setup_pieces, twist_pieces, valid_pieces,
    SimplePuzzleSim,
};
use crate::stages::tracking::lemma_rotate_ident;
use crate::xy_rot::xy_mat;
use crate::puzzle::{Twist, TwistSet};
use crate::xy_rot::XyRot;

pub mod s1_mid;
pub mod s2_left;
pub mod s2_pio;
pub mod s3_count;
pub mod s4_predom;
pub mod s4_psio;
pub mod slots;
pub mod stickers;
pub mod tracking;
pub mod v2_s1_sio;

pub use s1_mid::{Stage1, Stage1TrieKey};
pub use s2_left::Stage2;
pub use s3_count::Stage3;
pub use s4_predom::Stage4;
pub use v2_s1_sio::V2Stage1;

verus! {

/// A representation of part of the puzzle state.
pub trait Stage: Sized + Copy {
    /// Whether the stage can represent the puzzle whose pieces are `pieces`.
    spec fn accepts(pieces: Seq<(Vec4, Mat4)>) -> bool;

    /// Whether the stage can apply the twist.
    spec fn can_twist(twist: Twist) -> bool;

    /// Returns the twists that the stage can apply.
    fn twists() -> (r: TwistSet)
        ensures
            forall|i: int| 0 <= i < 184 ==> #[trigger] r.has(i) == Self::can_twist(Twist::spec_from_index(i)),
    ;

    /// Whether `next` is the state after the twist.
    spec fn moved(self, twist: Twist, next: Self) -> bool;

    /// Applies a twist and returns the new state.
    fn do_twist(self, twist: Twist) -> (r: Self)
        requires
            Self::can_twist(twist),
        ensures
            Self::moved(self, twist, r),
    ;

    /// The power of `rot(X, Y)` that the stage applies to the whole puzzle
    /// after the twist.
    spec fn rotation_after(twist: Twist) -> int;

    /// Returns the rotation that the stage applies to the whole puzzle after
    /// a twist.
    fn implicit_rotation_after_twist(twist: Twist) -> (r: XyRot)
        ensures
            r.spec_pow() == Self::rotation_after(twist),
    ;

    /// Whether `s` is the stage representation of the puzzle whose pieces
    /// are `pieces`.
    spec fn represents(pieces: Seq<(Vec4, Mat4)>, s: Self) -> bool;

    /// Converts a puzzle state into the stage representation.
    fn from_state(state: SimplePuzzleSim) -> (r: Self)
        requires
            state.wf(),
            Self::accepts(state.pieces@),
        ensures
            Self::represents(state.pieces@, r),
    ;

    /// Applies multiple twists, in order, and returns the new state: the
    /// last of the states that the twists lead through.
    fn do_twists(self, twists: &[Twist]) -> (r: Self)
        requires
            forall|i: int| 0 <= i < twists@.len() ==> Self::can_twist(#[trigger] twists@[i]),
        ensures
            exists|states: Seq<Self>|
                #![trigger states.last()]
                states.len() == twists@.len() + 1 && states[0] == self && (forall|k: int|
                    0 <= k < twists@.len() ==> Self::moved(states[k], #[trigger] twists@[k], states[k + 1]))
                    && r == states.last(),
    {
        let mut s = self;
        let mut i: usize = 0;
        let ghost mut states: Seq<Self> = seq![self];
        while i < twists.len()
            invariant
                0 <= i <= twists@.len(),
                forall|i: int| 0 <= i < twists@.len() ==> Self::can_twist(#[trigger] twists@[i]),
                states.len() == i + 1,
                states[0] == self,
                forall|k: int| 0 <= k < i ==> Self::moved(states[k], #[trigger] twists@[k], states[k + 1]),
                s == states.last(),
            decreases twists@.len() - i,
        {
            let ghost before = states;
            s = s.do_twist(twists[i]);
            proof {
                states = before.push(s);
                assert forall|k: int| 0 <= k < i + 1 implies Self::moved(
                    states[k],
                    #[trigger] twists@[k],
                    states[k + 1],
                ) by {
                    if k < i {
                        assert(states[k] == before[k] && states[k + 1] == before[k + 1]);
                    }
                }
            }
            i = i + 1;
        }
        s
    }

    /// Returns the stage representation of the solved puzzle after the
    /// twists, applied in order.
    fn with_setup(twists: &[Twist]) -> (r: Self)
        requires
            Self::accepts(setup_pieces(twists@)),
        ensures
            Self::represents(setup_pieces(twists@), r),
    {
        let state = SimplePuzzleSim::with_setup(twists);
        Self::from_state(state)
    }
}

/// A stage whose move rule is proved to follow the pieces of the puzzle.
pub trait TracksPuzzle: Stage {
    /// A state that stands for a puzzle, moved by a twist that the stage can
    /// apply, stands for the puzzle after the twist and the rotation that
    /// the stage applies after it.
    proof fn law_twist_represents(pieces: Seq<(Vec4, Mat4)>, s: Self, t: Twist, n: Self)
        requires
            valid_pieces(pieces),
            t.inv(),
            Self::represents(pieces, s),
            Self::can_twist(t),
            Self::moved(s, t, n),
        ensures
            Self::represents(rotate_pieces(twist_pieces(pieces, t), xy_mat(Self::rotation_after(t))), n),
    ;
}

/// A state that stands for the puzzle after the twists `setup`, moved
/// through the twists `more` (as [`Stage::do_twists`] does), stands for the
/// puzzle after `setup` and then `more`, where the stage turns the puzzle
/// after none of them.
pub proof fn law_setup_twists<S: TracksPuzzle>(setup: Seq<Twist>, more: Seq<Twist>, states: Seq<S>)
    requires
        forall|i: int| 0 <= i < setup.len() ==> (#[trigger] setup[i]).inv(),
        forall|i: int|
            0 <= i < more.len() ==> (#[trigger] more[i]).inv() && S::can_twist(more[i]) && S::rotation_after(
                more[i],
            ) == 0,
        states.len() == more.len() + 1,
        S::represents(setup_pieces(setup), states[0]),
        forall|k: int| 0 <= k < more.len() ==> S::moved(states[k], #[trigger] more[k], states[k + 1]),
    ensures
        S::represents(setup_pieces(setup + more), states.last()),
    decreases more.len(),
{
    if more.len() == 0 {
        assert(setup + more =~= setup);
    } else {
        let m = more.drop_last();
        let st = states.drop_last();
        assert forall|k: int| 0 <= k < m.len() implies S::moved(st[k], #[trigger] m[k], st[k + 1]) by {
            assert(m[k] == more[k] && st[k] == states[k] && st[k + 1] == states[k + 1]);
        }
        assert forall|i: int| 0 <= i < m.len() implies (#[trigger] m[i]).inv() && S::can_twist(m[i])
            && S::rotation_after(m[i]) == 0 by {
            assert(m[i] == more[i]);
        }
        law_setup_twists(setup, m, st);
        let all = setup + more;
        assert(all.drop_last() =~= setup + m);
        assert(all.last() == more.last());
        assert forall|i: int| 0 <= i < all.len() - 1 implies (#[trigger] (setup + m)[i]).inv() by {
            if i < setup.len() {
                assert((setup + m)[i] == setup[i]);
            } else {
                assert((setup + m)[i] == more[i - setup.len()]);
            }
        }
        law_setup_valid(setup + m);
        let k = more.len() - 1;
        assert(st.last() == states[k]);
        assert(more.last() == more[k]);
        S::law_twist_represents(setup_pieces(setup + m), states[k], more[k], states[k + 1]);
        law_twist_keeps_valid(setup_pieces(setup + m), more[k]);
        lemma_rotate_ident(twist_pieces(setup_pieces(setup + m), more[k]));
        assert(xy_mat(0) == Mat4::spec_ident());
    }
}

/// A stage whose states have a key for a subset trie, and a target state
/// from which the trie is generated.
pub trait SubsetMaskStage: Stage {
    /// Number of bits of a key.
    spec fn spec_key_bits() -> u32;

    /// The key of a state.
    spec fn spec_subset_trie_key(self) -> u128;

    /// The target state.
    spec fn spec_target() -> Self;

    /// Returns the number of bits of a key.
    fn subset_trie_key_bits() -> (r: u32)
        ensures
            r == Self::spec_key_bits(),
    ;

    /// Returns the key of the state.
    fn subset_trie_key(self) -> (r: u128)
        ensures
            r == self.spec_subset_trie_key(),
    ;

    /// Returns the target state.
    fn subset_trie_target() -> (r: Self)
        ensures
            r == Self::spec_target(),
    ;
}

/// The twists of the stage with index below `n`, in order of index.
pub open spec fn twists_upto<S: Stage>(n: int) -> Seq<Twist>
    decreases n,
{
    if n <= 0 {
        Seq::empty()
    } else {
        let prev = twists_upto::<S>(n - 1);
        if S::can_twist(Twist::spec_from_index(n - 1)) {
            prev.push(Twist::spec_from_index(n - 1))
        } else {
            prev
        }
    }
}

/// A stage whose states have a 64-bit key, for a pruning map.
pub trait StageKeyU64: Stage {
    /// The key of the state.
    spec fn spec_key(self) -> u64;

    /// The state from which a pruning map is generated: the default state.
    spec fn spec_map_start() -> Self;

    /// The twists with which a pruning map is generated.
    spec fn spec_pruning_twists() -> Seq<Twist>;

    /// Returns the state from which a pruning map is generated.
    fn pruning_map_start() -> (r: Self)
        ensures
            r == Self::spec_map_start(),
    ;

    /// Returns the key of the state.
    fn key(self) -> (r: u64)
        ensures
            r == self.spec_key(),
    ;

    /// Returns the twists with which a pruning map is generated.
    fn pruning_map_twists() -> (r: Vec<Twist>)
        ensures
            r@ == Self::spec_pruning_twists(),
            forall|i: int| 0 <= i < r@.len() ==> Self::can_twist(#[trigger] r@[i]),
    ;
}

} // verus!
