//! Stage 2 of the P/I/O method: P separation and I/O edge and corner
//! orientation.
use vstd::prelude::*;

use super::s1_mid::{edge_points, ridge_points};
use super::s3_count::corner_points;
use super::slots::{check_slots, filter_points, filter_pos, slots_ok};
use super::{Stage, TracksPuzzle};
use super::s3_count::lemma_truncate_u16;
use crate::bits::{bit, count_ones, field, lemma_low_mask_step, lemma_truncate_u32, lemma_truncate_u64, popcount};
use crate::codegen::{corners, edges, ridges, PermutationLut};
use crate::linalg::axis::axis_of;
use crate::linalg::{Axis, Mat4, Sign, Vec4};
use crate::permutation::{field_pos, has_twist_row, is_twist_row, moves_fields, twist_fields, FieldRule};
use crate::puzzle::sim::{all_values, pack_bits, SimplePuzzleSim};
use crate::puzzle::{PieceType, Twist, TwistSet};
use crate::stage_utils::{axis_image, lemma_apply_nonzero, lemma_axis_image_mul, lemma_nonzero_axes_increasing, spec_rl_eo};
use crate::bits::lemma_shift_in;
use crate::codegen::lemma_piece_points;
use crate::permutation::rule_value;
use crate::puzzle::piece_type::lemma_cube_norm;
use crate::puzzle::sim::{cube_index, law_twist_keeps_valid, moved_piece, twist_pieces, valid_pieces};
use crate::bits::lemma_and_widen;
use crate::stages::tracking::{
    agree_on, lemma_and_mask,
    lemma_filter_pos_in, lemma_listing_one, lemma_moved_values, lemma_pack_fields, lemma_packed_eq,
    lemma_packed_narrow, lemma_perm_norm, lemma_rotate_ident, lemma_slot_piece, lemma_values_listing,
    slot_value,
};
use crate::xy_rot::xy_mat;

use crate::xy_rot::XyRot;

verus! {

/// Whether a position is in `I`, `O` or `F` (the part that this stage
/// tracks).
pub open spec fn in_pio() -> spec_fn(Vec4) -> bool {
    |v: Vec4| v.0[3] != 0 || v.0[2] == 1
}

/// Every position.
pub open spec fn anywhere() -> spec_fn(Vec4) -> bool {
    |v: Vec4| true
}

/// The ridge slots of the stage.
pub open spec fn pio_ridges() -> Seq<Vec4> {
    filter_pos(ridge_points(), in_pio())
}

/// The edge slots of the stage.
pub open spec fn pio_edges() -> Seq<Vec4> {
    filter_pos(edge_points(), in_pio())
}

/// Ridge bit: whether the ridge belongs in `I`/`O`.
pub open spec fn pio_ridge_fn() -> spec_fn(Vec4, Mat4) -> u64 {
    |init: Vec4, att: Mat4| if init.0[3] != 0 { 1u64 } else { 0u64 }
}

/// Edge bits: `00` for an edge of the P slice; otherwise 3 minus the place,
/// among the nonzero axes of the edge's position, of the axis that its
/// attitude takes W to.
pub open spec fn pio_edge_fn() -> spec_fn(Vec4, Mat4) -> u64 {
    |init: Vec4, att: Mat4|
        if init.0[3] == 0 {
            0u64
        } else {
            (3 - att.spec_apply(init).spec_nonzero_axes().index_of(axis_of(att@[3] / 2))) as u64
        }
}

/// Corner bits: the axis that the corner's attitude takes W to.
pub open spec fn pio_corner_fn() -> spec_fn(Vec4, Mat4) -> u64 {
    |init: Vec4, att: Mat4| (att@[3] / 2) as u64
}

/// Returns the edge bits of a piece (see [`pio_edge_fn`]).
pub(crate) fn io_edge_bits(init: Vec4, att: Mat4) -> (r: u64)
    requires
        init.in_cube(),
        att.is_perm(),
    ensures
        r == pio_edge_fn()(init, att),
{
    if init.0[3] == 0 {
        return 0;
    }
    let new = Axis::W.transform_by(att);
    let w = att.mul_vec(init);
    let new_axes = w.nonzero_axes();
    proof {
        lemma_nonzero_axes_increasing(w);
        crate::linalg::mat4::lemma_apply_in_cube(att, init);
        lemma_apply_nonzero(att, init);
        assert(init.at(Axis::W) != 0);
        crate::linalg::axis::lemma_axis_of_idx(new);
        assert(new == axis_of(att@[3] / 2));
        assert(w.at(new) != 0);
    }
    let mut p: usize = 0;
    while p < new_axes.len() && new_axes[p] != new
        invariant
            0 <= p <= new_axes@.len(),
            new_axes@.contains(new),
            forall|j: int| 0 <= j < p ==> #[trigger] new_axes@[j] != new,
        decreases new_axes@.len() - p,
    {
        p = p + 1;
    }
    proof {
        if p == new_axes@.len() {
            let j = choose|j: int| 0 <= j < new_axes@.len() && new_axes@[j] == new;
            assert(new_axes@[j] != new);
        }
        let q = new_axes@.index_of(new);
        assert(0 <= q < new_axes@.len() && new_axes@[q] == new);
        if q != p {
            if q < p {
                assert(new_axes@[q] != new);
            } else {
                assert(new_axes@[p as int].idx() < new_axes@[q].idx());
            }
        }
    }
    (3 - p) as u64
}

/// Stage 2 of the P/I/O method: P separation + I/O edge & corner orientation.
#[derive(Debug, Copy, Clone, PartialEq, Eq, Structural, Hash)]
pub struct Stage2 {
    /// For each tracked ridge, 1 bit: `0` = belongs in the P slice, `1` =
    /// belongs in I/O.
    pub r_p: u16,
    /// For each tracked edge, 2 bits: `00` = belongs in the P slice; `01` =
    /// belongs in I/O, good orientation; `10`, `11` = belongs in I/O, bad
    /// orientation.
    pub e_op: u64,
    /// For each corner, 2 bits: the axis of its I/O sticker.
    pub c_o: u32,
}

impl Stage2 {
    /// Ridge bits of the solved state.
    pub const SOLVED_R_P: u16 = 0xfc3f;
    /// Edge bits of the solved state.
    pub const SOLVED_E_OP: u64 = 0x0055555500555555;
    /// Corner bits of the solved state.
    pub const SOLVED_C_O: u32 = 0xffffffff;

    /// The solved state.
    pub fn solved() -> (r: Self)
        ensures
            r == Self::spec_solved(),
    {
        Stage2 { r_p: Self::SOLVED_R_P, e_op: Self::SOLVED_E_OP, c_o: Self::SOLVED_C_O }
    }

    /// The solved state.
    pub open spec fn spec_solved() -> Self {
        Stage2 { r_p: Self::SOLVED_R_P, e_op: Self::SOLVED_E_OP, c_o: Self::SOLVED_C_O }
    }

    /// Constructs a state from its fields.
    pub fn new(r_p: u16, e_op: u64, c_o: u32) -> (r: Self)
        ensures
            r == (Stage2 { r_p, e_op, c_o }),
    {
        Stage2 { r_p, e_op, c_o }
    }

    /// The bitwise and of two states.
    pub open spec fn spec_bitand(self, rhs: Self) -> Self {
        Stage2 { r_p: self.r_p & rhs.r_p, e_op: self.e_op & rhs.e_op, c_o: self.c_o & rhs.c_o }
    }

    /// Returns the bitwise and of two states.
    pub fn bitand(self, rhs: Self) -> (r: Self)
        ensures
            r == self.spec_bitand(rhs),
    {
        Stage2 { r_p: self.r_p & rhs.r_p, e_op: self.e_op & rhs.e_op, c_o: self.c_o & rhs.c_o }
    }

    /// The third set of targets: one for each sign of the unsolved facet
    /// (then two more).
    pub fn target3() -> (r: Vec<Stage2>)
        ensures
            r@ == Self::spec_target3(),
    {
        let mut r: Vec<Stage2> = Vec::new();
        r.push(Stage2::new(0x001f, 0x000000000000ffff, 0x000000ff));
        r.push(Stage2::new(0x003e, 0x0000000000ffff00, 0x0000ff00));
        r.push(Stage2::new(0x7c00, 0x0000ffff00000000, 0x00ff0000));
        r.push(Stage2::new(0xf800, 0x00ffff0000000000, 0xff000000));
        assert(r@ =~= Self::spec_target3());
        r
    }

    /// The third set of targets.
    pub open spec fn spec_target3() -> Seq<Stage2> {
        seq![
            Stage2 { r_p: 0x001f, e_op: 0x000000000000ffff, c_o: 0x000000ff },
            Stage2 { r_p: 0x003e, e_op: 0x0000000000ffff00, c_o: 0x0000ff00 },
            Stage2 { r_p: 0x7c00, e_op: 0x0000ffff00000000, c_o: 0x00ff0000 },
            Stage2 { r_p: 0xf800, e_op: 0x00ffff0000000000, c_o: 0xff000000 },
        ]
    }

    /// Whether the state agrees with the solved state on the bits of `t`.
    pub open spec fn matches_target(self, t: Self) -> bool {
        self.spec_bitand(t) == Self::spec_solved().spec_bitand(t)
    }

    /// Returns whether the state agrees with the solved state on the bits of
    /// some target.
    pub fn is_target_solved(self, target: &Vec<Self>) -> (r: bool)
        ensures
            r == exists|i: int| 0 <= i < target@.len() && self.matches_target(#[trigger] target@[i]),
    {
        let solved = Self::solved();
        let mut i: usize = 0;
        while i < target.len()
            invariant
                0 <= i <= target@.len(),
                solved == Self::spec_solved(),
                forall|j: int| 0 <= j < i ==> !self.matches_target(#[trigger] target@[j]),
            decreases target@.len() - i,
        {
            let t = target[i];
            if self.bitand(t) == solved.bitand(t) {
                return true;
            }
            i = i + 1;
        }
        false
    }

    /// The first of the third targets that the state reaches, from `i` on.
    pub open spec fn first_target3(self, i: int) -> Option<int>
        decreases 4 - i,
    {
        if i >= 4 || i < 0 {
            None
        } else if self.matches_target(Self::spec_target3()[i]) {
            Some(i)
        } else {
            self.first_target3(i + 1)
        }
    }

    /// Returns the sign of the unsolved facet: positive if the first of the
    /// third targets is reached, negative if the second is, `None` if none
    /// is.
    pub fn which_target3(self) -> (r: Option<Sign>)
        requires
            self.first_target3(0) matches Some(i) ==> i < 2,
        ensures
            r == match self.first_target3(0) {
                Some(i) => Some(if i == 0 { Sign::Pos } else { Sign::Neg }),
                None => None,
            },
    {
        let targets = Self::target3();
        let solved = Self::solved();
        let mut i: usize = 0;
        while i < 4
            invariant
                0 <= i <= 4,
                targets@ == Self::spec_target3(),
                solved == Self::spec_solved(),
                self.first_target3(0) == self.first_target3(i as int),
            decreases 4 - i,
        {
            let t = targets[i];
            if self.bitand(t) == solved.bitand(t) {
                return if i == 0 {
                    Some(Sign::Pos)
                } else {
                    Some(Sign::Neg)
                };
            }
            i = i + 1;
        }
        None
    }

    /// Returns the number of I/O ridges that are in I/O.
    pub fn good_ridges(self) -> (r: u8)
        ensures
            r == popcount((self.r_p & Self::SOLVED_R_P) as nat),
    {
        let n = count_ones((self.r_p & Self::SOLVED_R_P) as u64);
        proof {
            vstd::arithmetic::power2::lemma2_to64();
            crate::bits::lemma_popcount_bound((self.r_p & Self::SOLVED_R_P) as nat, 16);
        }
        n as u8
    }

    /// Returns the number of I/O edges that are in I/O with good orientation.
    pub fn good_edges(self) -> (r: u8)
        ensures
            r == popcount((self.e_op & !(self.e_op >> 1u64) & Self::SOLVED_E_OP) as nat),
    {
        let x = self.e_op & !(self.e_op >> 1) & Self::SOLVED_E_OP;
        let n = count_ones(x);
        proof {
            vstd::arithmetic::power2::lemma2_to64();
            crate::bits::lemma_popcount_bound(x as nat, 64);
        }
        n as u8
    }

    /// Returns the number of corners whose I/O sticker is on the W axis.
    pub fn good_corners(self) -> (r: u8)
        ensures
            r == popcount((self.c_o & (self.c_o >> 1u32) & 0x5555_5555u32) as nat),
    {
        let x = self.c_o & (self.c_o >> 1) & 0x5555_5555;
        let n = count_ones(x as u64);
        proof {
            vstd::arithmetic::power2::lemma2_to64();
            crate::bits::lemma_popcount_bound(x as nat, 32);
        }
        n as u8
    }

    /// Returns the ridge slots.
    fn ridge_slots() -> (r: Vec<Vec4>)
        ensures
            r@ == pio_ridges(),
    {
        let pred = |v: Vec4| -> (b: bool)
            ensures
                b == in_pio()(v),
        { v.0[3] != 0 || v.0[2] == 1 };
        let rr = ridges();
        filter_points(&rr, pred, Ghost(in_pio()))
    }

    /// Returns the edge slots.
    fn edge_slots() -> (r: Vec<Vec4>)
        ensures
            r@ == pio_edges(),
    {
        let pred = |v: Vec4| -> (b: bool)
            ensures
                b == in_pio()(v),
        { v.0[3] != 0 || v.0[2] == 1 };
        let ee = edges();
        filter_points(&ee, pred, Ghost(in_pio()))
    }
}

impl Default for Stage2 {
    fn default() -> (r: Self)
        ensures
            r == Self::spec_solved(),
    {
        Self::solved()
    }
}

impl Stage2 {
    /// The positions that the stage tracks are positions of the cube with
    /// the norm of their type.
    proof fn lemma_slots_in_cube()
        ensures
            forall|i: int| 0 <= i < pio_ridges().len() ==> (#[trigger] pio_ridges()[i]).in_cube() && pio_ridges()[i].spec_taxicab_norm() == 2,
            forall|i: int| 0 <= i < pio_edges().len() ==> (#[trigger] pio_edges()[i]).in_cube() && pio_edges()[i].spec_taxicab_norm() == 3,
            forall|i: int| 0 <= i < corner_points().len() ==> (#[trigger] corner_points()[i]).in_cube() && corner_points()[i].spec_taxicab_norm() == 4,
    {
        lemma_piece_points(2);
        lemma_piece_points(3);
        lemma_piece_points(4);
        lemma_filter_pos_in(ridge_points(), in_pio());
        lemma_filter_pos_in(edge_points(), in_pio());
        assert forall|i: int| 0 <= i < pio_ridges().len() implies (#[trigger] pio_ridges()[i]).in_cube() && pio_ridges()[i].spec_taxicab_norm() == 2 by {
            let j = choose|j: int| 0 <= j < ridge_points().len() && ridge_points()[j] == pio_ridges()[i];
        }
        assert forall|i: int| 0 <= i < pio_edges().len() implies (#[trigger] pio_edges()[i]).in_cube() && pio_edges()[i].spec_taxicab_norm() == 3 by {
            let j = choose|j: int| 0 <= j < edge_points().len() && edge_points()[j] == pio_edges()[i];
        }
    }

    /// The edge value of a piece is below 4, and the rule turns it into the
    /// value of the piece after the twist.
    #[verifier::spinoff_prover]
    #[verifier::rlimit(40)]
    proof fn lemma_edge_rule(pieces: Seq<(Vec4, Mat4)>, t: Twist, p: Vec4)
        requires
            valid_pieces(pieces),
            t.inv(),
            p.in_cube(),
            p.spec_taxicab_norm() == 3,
        ensures
            ({
                let pc = pieces[cube_index(p)];
                let m = moved_piece(pc, t.spec_rot(), t.spec_affects(p));
                &&& slot_value(pieces, pio_edge_fn())(p) < 4
                &&& rule_value(FieldRule::EdgeOrCornerX, t, p, slot_value(pieces, pio_edge_fn())(p) as u128)
                    == pio_edge_fn()(m.0, m.1) as u128
            }),
    {
        let rot = t.spec_rot();
        crate::puzzle::twist::lemma_twist_keeps_side(t, p);
        lemma_slot_piece(pieces, p);
        let pc = pieces[cube_index(p)];
        let init = pc.0;
        let att = pc.1;
        lemma_cube_norm(p);
        if init.0[3] != 0 {
            crate::linalg::axis::lemma_axis_of_idx(Axis::W);
            let a = axis_of(att@[3] / 2);
            lemma_apply_nonzero(att, init);
            assert(init.at(Axis::W) != 0);
            assert(p.at(a) != 0);
            lemma_nonzero_axes_increasing(p);
            let axes = p.spec_nonzero_axes();
            assert(axes.contains(a));
            let idx = axes.index_of(a);
            assert(0 <= idx < 3 && axes[idx] == a);
            let o = 3 - idx;
            assert(slot_value(pieces, pio_edge_fn())(p) == o as u64);
            if t.spec_affects(p) {
                let w = rot.spec_apply(p);
                crate::linalg::mat4::lemma_apply_mul_perm(rot, att, init);
                lemma_axis_image_mul(att, rot, Axis::W);
                assert(axis_image(att, Axis::W) == a);
                lemma_perm_norm(rot, p);
                crate::linalg::mat4::lemma_apply_in_cube(rot, p);
                lemma_cube_norm(w);
                lemma_apply_nonzero(rot, p);
                crate::linalg::axis::lemma_axis_of_idx(a);
                let nw = axis_of(rot@[a.idx()] / 2);
                assert(p.at(a) != 0);
                assert(w.at(nw) != 0);
                lemma_nonzero_axes_increasing(w);
                assert(w.spec_nonzero_axes().contains(nw));
                let idx2 = w.spec_nonzero_axes().index_of(nw);
                assert(0 <= idx2 < 3);
                assert(((o as u64) as u128) as u8 == o);
                assert(spec_rl_eo(rot, p, o as u8) == (3 - idx2) as u8);
                assert(axis_of(rot.spec_mul(att)@[3] / 2) == nw);
            }
        }
    }

    /// The corner value of a piece is below 4, and the rule turns it into
    /// the value of the piece after the twist.
    proof fn lemma_corner_rule(pieces: Seq<(Vec4, Mat4)>, t: Twist, p: Vec4)
        requires
            valid_pieces(pieces),
            t.inv(),
            p.in_cube(),
        ensures
            ({
                let pc = pieces[cube_index(p)];
                let m = moved_piece(pc, t.spec_rot(), t.spec_affects(p));
                &&& slot_value(pieces, pio_corner_fn())(p) < 4
                &&& rule_value(FieldRule::CornerAxis, t, p, slot_value(pieces, pio_corner_fn())(p) as u128)
                    == pio_corner_fn()(m.0, m.1) as u128
            }),
    {
        let rot = t.spec_rot();
        crate::puzzle::twist::lemma_twist_keeps_side(t, p);
        lemma_slot_piece(pieces, p);
        let pc = pieces[cube_index(p)];
        let att = pc.1;
        att.lemma_view();
        rot.lemma_view();
        let a = att@[3] / 2;
        assert(0 <= a < 4);
        if t.spec_affects(p) {
            lemma_axis_image_mul(att, rot, Axis::W);
            crate::linalg::axis::lemma_axis_of_idx(Axis::W);
            crate::linalg::mat4::lemma_mul_perm(rot, att);
            Mat4::lemma_mul(rot, att);
            rot.spec_mul(att).lemma_view();
            let b = axis_of(a);
            crate::linalg::axis::lemma_axis_of_idx(b);
            let c1 = rot.spec_mul(att)@[3] / 2;
            let c2 = rot@[a] / 2;
            let x1 = axis_of(c1);
            let x2 = axis_of(c2);
            crate::linalg::axis::lemma_axis_of_idx(x1);
            crate::linalg::axis::lemma_axis_of_idx(x2);
            assert(c1 == c2);
        }
    }
    /// The ridge bits follow a twist of the pieces.
    #[verifier::spinoff_prover]
    #[verifier::rlimit(60)]
    proof fn lemma_ridges_follow(pieces: Seq<(Vec4, Mat4)>, s: Stage2, t: Twist, n: Stage2)
        requires
            valid_pieces(pieces),
            t.inv(),
            Self::represents(pieces, s),
            Self::can_twist(t),
            Self::moved(s, t, n),
        ensures
            n.r_p == pack_bits(all_values(twist_pieces(pieces, t), seq![PieceType::Ridge], in_pio(), pio_ridge_fn()), 1) as u16,
    {
        let q = twist_pieces(pieces, t);
        law_twist_keeps_valid(pieces, t);
        Self::lemma_slots_in_cube();
        lemma_shift_in(0, 0, 2, 0);
        lemma_shift_in(0, 0, 1, 0);
        let fr = pio_ridge_fn();
        let pr = pio_ridges();
        lemma_listing_one(pieces, PieceType::Ridge, in_pio(), fr);
        lemma_listing_one(q, PieceType::Ridge, in_pio(), fr);
        let ro = pr.map_values(slot_value(pieces, fr));
        let rn = pr.map_values(slot_value(q, fr));
        assert forall|i: int| 0 <= i < ro.len() implies #[trigger] ro[i] < (1u64 << 1u64) by {}
        assert forall|i: int| 0 <= i < rn.len() implies #[trigger] rn[i] < (1u64 << 1u64) by {}
        lemma_pack_fields(ro, 1);
        lemma_pack_fields(rn, 1);
        assert forall|i: int| 0 <= i < pr.len() implies #[trigger] field(s.r_p as u128, field_pos(0, i, 1) as u128, 1)
            == slot_value(pieces, fr)(pr[i]) as u128 by {
            crate::bits::lemma_truncate_u64_u32(pack_bits(ro, 1), i as u128, 1);
            assert(field(pack_bits(ro, 1) as u128, (i * 1) as u128, 1) == ro[i] as u128);
        }
        lemma_moved_values(pieces, t, pr, fr, s.r_p as u128, n.r_p as u128, 1, FieldRule::Keep);
        assert forall|i: int| 0 <= i < rn.len() implies #[trigger] field(n.r_p as u128, (i * 1) as u128, 1 as u128)
            == rn[i] as u128 by {
            assert(field(n.r_p as u128, field_pos(0, i, 1) as u128, 1) == slot_value(q, fr)(pr[i]) as u128);
        }
        assert forall|tt: int| rn.len() * 1 <= tt < 16 implies #[trigger] bit(n.r_p as u128, tt as u128) == 0 by {
            assert(bit(n.r_p as u128, tt as u128) == bit(s.r_p as u128, tt as u128));
            crate::bits::lemma_truncate_u64_u32(pack_bits(ro, 1), tt as u128, 1);
            lemma_low_mask_step(s.r_p as u128, tt as u128, 1);
            lemma_low_mask_step(pack_bits(ro, 1) as u128, tt as u128, 1);
            assert(bit(pack_bits(ro, 1) as u128, tt as u128) == 0);
        }
        lemma_packed_narrow(n.r_p as u128, rn, 1, 16);
    }

    /// The edge bits follow a twist of the pieces.
    #[verifier::spinoff_prover]
    #[verifier::rlimit(60)]
    proof fn lemma_edges_follow(pieces: Seq<(Vec4, Mat4)>, s: Stage2, t: Twist, n: Stage2)
        requires
            valid_pieces(pieces),
            t.inv(),
            Self::represents(pieces, s),
            Self::can_twist(t),
            Self::moved(s, t, n),
        ensures
            n.e_op == pack_bits(all_values(twist_pieces(pieces, t), seq![PieceType::Edge], in_pio(), pio_edge_fn()), 2),
    {
        let q = twist_pieces(pieces, t);
        law_twist_keeps_valid(pieces, t);
        Self::lemma_slots_in_cube();
        lemma_shift_in(0, 0, 2, 0);
        lemma_shift_in(0, 0, 1, 0);
        let fe = pio_edge_fn();
        let pe = pio_edges();
        lemma_listing_one(pieces, PieceType::Edge, in_pio(), fe);
        lemma_listing_one(q, PieceType::Edge, in_pio(), fe);
        let eo = pe.map_values(slot_value(pieces, fe));
        let en = pe.map_values(slot_value(q, fe));
        assert forall|i: int| 0 <= i < pe.len() implies {
            let p = #[trigger] pe[i];
            let m = moved_piece(pieces[cube_index(p)], t.spec_rot(), t.spec_affects(p));
            &&& slot_value(pieces, fe)(p) < 4
            &&& rule_value(FieldRule::EdgeOrCornerX, t, p, slot_value(pieces, fe)(p) as u128) == fe(m.0, m.1) as u128
        } by {
            Self::lemma_edge_rule(pieces, t, pe[i]);
        }
        assert forall|i: int| 0 <= i < eo.len() implies #[trigger] eo[i] < (1u64 << 2u64) by {
            assert(eo[i] == slot_value(pieces, fe)(pe[i]));
        }
        assert forall|i: int| 0 <= i < en.len() implies #[trigger] en[i] < (1u64 << 2u64) by {
            Self::lemma_edge_rule(q, t, pe[i]);
            assert(en[i] == slot_value(q, fe)(pe[i]));
        }
        lemma_pack_fields(eo, 2);
        assert forall|i: int| 0 <= i < pe.len() implies #[trigger] field(s.e_op as u128, field_pos(0, i, 2) as u128, 2)
            == slot_value(pieces, fe)(pe[i]) as u128 by {
            assert(field(pack_bits(eo, 2) as u128, (i * 2) as u128, 2) == eo[i] as u128);
        }
        lemma_moved_values(pieces, t, pe, fe, s.e_op as u128, n.e_op as u128, 2, FieldRule::EdgeOrCornerX);
        assert forall|i: int| 0 <= i < en.len() implies #[trigger] field(n.e_op as u128, (i * 2) as u128, 2 as u128)
            == en[i] as u128 by {
            assert(field(n.e_op as u128, field_pos(0, i, 2) as u128, 2) == slot_value(q, fe)(pe[i]) as u128);
        }
        assert forall|tt: int| en.len() * 2 <= tt < 64 implies #[trigger] bit(n.e_op as u128, tt as u128) == 0 by {
            if tt < 56 {
                assert(bit(n.e_op as u128, tt as u128) == bit(s.e_op as u128, tt as u128));
                assert(eo.len() * 2 <= tt);
            } else {
                lemma_low_mask_step(n.e_op as u128, tt as u128, 1);
            }
        }
        lemma_packed_eq(n.e_op, en, 2);
    }

    /// The corner bits follow a twist of the pieces.
    #[verifier::spinoff_prover]
    #[verifier::rlimit(60)]
    proof fn lemma_corners_follow(pieces: Seq<(Vec4, Mat4)>, s: Stage2, t: Twist, n: Stage2)
        requires
            valid_pieces(pieces),
            t.inv(),
            Self::represents(pieces, s),
            Self::can_twist(t),
            Self::moved(s, t, n),
        ensures
            n.c_o == pack_bits(all_values(twist_pieces(pieces, t), seq![PieceType::Corner], anywhere(), pio_corner_fn()), 2) as u32,
    {
        let q = twist_pieces(pieces, t);
        law_twist_keeps_valid(pieces, t);
        Self::lemma_slots_in_cube();
        lemma_shift_in(0, 0, 2, 0);
        lemma_shift_in(0, 0, 1, 0);
        let fc = pio_corner_fn();
        let pc = corner_points();
        lemma_values_listing(pieces, PieceType::Corner, anywhere(), fc);
        lemma_values_listing(q, PieceType::Corner, anywhere(), fc);
        let co = pc.map_values(slot_value(pieces, fc));
        let cn = pc.map_values(slot_value(q, fc));
        assert forall|i: int| 0 <= i < pc.len() implies {
            let p = #[trigger] pc[i];
            let m = moved_piece(pieces[cube_index(p)], t.spec_rot(), t.spec_affects(p));
            &&& slot_value(pieces, fc)(p) < 4
            &&& rule_value(FieldRule::CornerAxis, t, p, slot_value(pieces, fc)(p) as u128) == fc(m.0, m.1) as u128
        } by {
            Self::lemma_corner_rule(pieces, t, pc[i]);
        }
        assert forall|i: int| 0 <= i < co.len() implies #[trigger] co[i] < (1u64 << 2u64) by {
            assert(co[i] == slot_value(pieces, fc)(pc[i]));
        }
        assert forall|i: int| 0 <= i < cn.len() implies #[trigger] cn[i] < (1u64 << 2u64) by {
            Self::lemma_corner_rule(q, t, pc[i]);
            assert(cn[i] == slot_value(q, fc)(pc[i]));
        }
        lemma_pack_fields(co, 2);
        lemma_pack_fields(cn, 2);
        assert forall|i: int| 0 <= i < pc.len() implies #[trigger] field(s.c_o as u128, field_pos(0, i, 2) as u128, 2)
            == slot_value(pieces, fc)(pc[i]) as u128 by {
            crate::bits::lemma_truncate_u64_u32(pack_bits(co, 2), (i * 2) as u128, 2);
            assert(field(pack_bits(co, 2) as u128, (i * 2) as u128, 2) == co[i] as u128);
        }
        lemma_moved_values(pieces, t, pc, fc, s.c_o as u128, n.c_o as u128, 2, FieldRule::CornerAxis);
        assert forall|i: int| 0 <= i < cn.len() implies #[trigger] field(n.c_o as u128, (i * 2) as u128, 2 as u128)
            == cn[i] as u128 by {
            assert(field(n.c_o as u128, field_pos(0, i, 2) as u128, 2) == slot_value(q, fc)(pc[i]) as u128);
        }
        assert forall|tt: int| cn.len() * 2 <= tt < 32 implies #[trigger] bit(n.c_o as u128, tt as u128) == 0 by {
            assert(bit(n.c_o as u128, tt as u128) == bit(s.c_o as u128, tt as u128));
            crate::bits::lemma_truncate_u64_u32(pack_bits(co, 2), tt as u128, 1);
            lemma_low_mask_step(s.c_o as u128, tt as u128, 1);
            lemma_low_mask_step(pack_bits(co, 2) as u128, tt as u128, 1);
            assert(bit(pack_bits(co, 2) as u128, tt as u128) == 0);
        }
        lemma_packed_narrow(n.c_o as u128, cn, 2, 32);
    }

}

/// The bitwise and of two states keeps a bit of a field exactly when both
/// states have it; so a state matches a target exactly when it agrees with
/// the solved state on every bit of the target, which is what
/// [`Stage2::is_target_solved`] and [`Stage2::which_target3`] test.
pub proof fn law_bitand(s: Stage2, t: Stage2)
    ensures
        forall|i: int|
            0 <= i < 128 ==> (#[trigger] bit(s.spec_bitand(t).r_p as u128, i as u128) == 1) == (bit(s.r_p as u128, i as u128)
                == 1 && bit(t.r_p as u128, i as u128) == 1),
        forall|i: int|
            0 <= i < 128 ==> (#[trigger] bit(s.spec_bitand(t).e_op as u128, i as u128) == 1) == (bit(
                s.e_op as u128,
                i as u128,
            ) == 1 && bit(t.e_op as u128, i as u128) == 1),
        forall|i: int|
            0 <= i < 128 ==> (#[trigger] bit(s.spec_bitand(t).c_o as u128, i as u128) == 1) == (bit(s.c_o as u128, i as u128)
                == 1 && bit(t.c_o as u128, i as u128) == 1),
        s.matches_target(t) == (agree_on(s.r_p as u128, Stage2::SOLVED_R_P as u128, t.r_p as u128) && agree_on(
            s.e_op as u128,
            Stage2::SOLVED_E_OP as u128,
            t.e_op as u128,
        ) && agree_on(s.c_o as u128, Stage2::SOLVED_C_O as u128, t.c_o as u128)),
{
    let sol = Stage2::spec_solved();
    lemma_and_widen(s.r_p, t.r_p, s.c_o, t.c_o, s.e_op, t.e_op);
    lemma_and_widen(sol.r_p, t.r_p, sol.c_o, t.c_o, sol.e_op, t.e_op);
    lemma_and_mask(s.r_p as u128, sol.r_p as u128, t.r_p as u128);
    lemma_and_mask(s.e_op as u128, sol.e_op as u128, t.e_op as u128);
    lemma_and_mask(s.c_o as u128, sol.c_o as u128, t.c_o as u128);
    assert(s.spec_bitand(t) == sol.spec_bitand(t) <==> ((s.r_p & t.r_p) == (sol.r_p & t.r_p) && (s.e_op & t.e_op) == (
    sol.e_op & t.e_op) && (s.c_o & t.c_o) == (sol.c_o & t.c_o)));
}

impl TracksPuzzle for Stage2 {
    proof fn law_twist_represents(pieces: Seq<(Vec4, Mat4)>, s: Stage2, t: Twist, n: Stage2)
    {
        law_twist_keeps_valid(pieces, t);
        lemma_rotate_ident(twist_pieces(pieces, t));
        assert(xy_mat(0) == Mat4::spec_ident());
        Self::lemma_ridges_follow(pieces, s, t, n);
        Self::lemma_edges_follow(pieces, s, t, n);
        Self::lemma_corners_follow(pieces, s, t, n);
    }
}

impl Stage for Stage2 {
    open spec fn accepts(pieces: Seq<(Vec4, Mat4)>) -> bool {
        true
    }

    open spec fn can_twist(twist: Twist) -> bool {
        &&& pio_ridges().len() <= 16
        &&& pio_edges().len() <= 28
        &&& corner_points().len() <= 16
        &&& slots_ok(pio_ridges(), FieldRule::Keep, 1)
        &&& slots_ok(pio_edges(), FieldRule::EdgeOrCornerX, 2)
        &&& slots_ok(corner_points(), FieldRule::CornerAxis, 2)
        &&& has_twist_row(pio_ridges(), twist)
        &&& has_twist_row(pio_edges(), twist)
        &&& has_twist_row(corner_points(), twist)
    }

    /// Returns the twists that keep the tracked pieces in place.
    fn twists() -> (r: TwistSet) {
        let rs = Self::ridge_slots();
        let es = Self::edge_slots();
        let cs = corners();
        if rs.len() > 16 || es.len() > 28 || cs.len() > 16 || !check_slots(&rs, FieldRule::Keep, 1)
            || !check_slots(&es, FieldRule::EdgeOrCornerX, 2) || !check_slots(
            &cs,
            FieldRule::CornerAxis,
            2,
        ) {
            return TwistSet::empty();
        }
        let lr = PermutationLut::new(&rs);
        let le = PermutationLut::new(&es);
        let lc = PermutationLut::new(&cs);
        let ar = lr.allowed_twists();
        let ae = le.allowed_twists();
        let ac = lc.allowed_twists();
        let mut r = TwistSet::empty();
        let mut k: u8 = 0;
        while k < 184
            invariant
                0 <= k <= 184,
                rs@ == pio_ridges(),
                es@ == pio_edges(),
                cs@ == corner_points(),
                rs@.len() <= 16,
                es@.len() <= 28,
                cs@.len() <= 16,
                slots_ok(rs@, FieldRule::Keep, 1),
                slots_ok(es@, FieldRule::EdgeOrCornerX, 2),
                slots_ok(cs@, FieldRule::CornerAxis, 2),
                lr.describes(rs@),
                le.describes(es@),
                lc.describes(cs@),
                forall|i: int| 0 <= i < 184 ==> #[trigger] ar.has(i) == lr.table@[i] is Some,
                forall|i: int| 0 <= i < 184 ==> #[trigger] ae.has(i) == le.table@[i] is Some,
                forall|i: int| 0 <= i < 184 ==> #[trigger] ac.has(i) == lc.table@[i] is Some,
                forall|i: int| 0 <= i < 184 ==> #[trigger] r.has(i) == (i < k && Self::can_twist(Twist::spec_from_index(i))),
            decreases 184 - k,
        {
            let t = Twist::from_index(k);
            if ar.contains(t) && ae.contains(t) && ac.contains(t) {
                proof {
                    assert(ar.has(k as int) && ae.has(k as int) && ac.has(k as int));
                    assert(is_twist_row(pio_ridges(), t, lr.table@[k as int]->0@));
                    assert(is_twist_row(pio_edges(), t, le.table@[k as int]->0@));
                    assert(is_twist_row(corner_points(), t, lc.table@[k as int]->0@));
                }
                r.insert(t);
            } else {
                proof {
                    assert(t == Twist::spec_from_index(k as int));
                }
            }
            k = k + 1;
        }
        r
    }

    /// No rotation follows a twist.
    open spec fn rotation_after(twist: Twist) -> int {
        0
    }

    /// Returns the identity: no rotation follows a twist.
    fn implicit_rotation_after_twist(twist: Twist) -> (r: XyRot) {
        XyRot::ident()
    }

    open spec fn moved(self, twist: Twist, next: Self) -> bool {
        &&& moves_fields(self.r_p as u128, next.r_p as u128, pio_ridges(), twist, 1, 0, FieldRule::Keep)
        &&& moves_fields(self.e_op as u128, next.e_op as u128, pio_edges(), twist, 2, 0, FieldRule::EdgeOrCornerX)
        &&& next.e_op < 0x0100_0000_0000_0000
        &&& moves_fields(self.c_o as u128, next.c_o as u128, corner_points(), twist, 2, 0, FieldRule::CornerAxis)
        &&& forall|t: int| pio_ridges().len() <= t < 16 ==> #[trigger] bit(next.r_p as u128, t as u128) == bit(self.r_p as u128, t as u128)
        &&& forall|t: int| 2 * pio_edges().len() <= t < 56 ==> #[trigger] bit(next.e_op as u128, t as u128) == bit(self.e_op as u128, t as u128)
        &&& forall|t: int| 2 * corner_points().len() <= t < 32 ==> #[trigger] bit(next.c_o as u128, t as u128) == bit(self.c_o as u128, t as u128)
    }

    /// Moves the ridge, edge and corner bits as the twist moves the pieces,
    /// updating the edge orientations and corner axes.
    fn do_twist(self, twist: Twist) -> (res: Self)
    {
        let rs = Self::ridge_slots();
        let es = Self::edge_slots();
        let cs = corners();
        let r_p = match twist_fields(self.r_p as u128, &rs, twist, 1, 0, FieldRule::Keep) {
            Some(y) => y,
            None => {
                assert(false);
                0
            },
        };
        let e_op = match twist_fields(self.e_op as u128, &es, twist, 2, 0, FieldRule::EdgeOrCornerX) {
            Some(y) => y,
            None => {
                assert(false);
                0
            },
        };
        let c_o = match twist_fields(self.c_o as u128, &cs, twist, 2, 0, FieldRule::CornerAxis) {
            Some(y) => y,
            None => {
                assert(false);
                0
            },
        };
        proof {
            assert forall|row: Seq<usize>| #[trigger] is_twist_row(pio_ridges(), twist, row) implies forall|i: int|
                0 <= i < pio_ridges().len() ==> field(
                    (r_p as u16) as u128,
                    field_pos(0, #[trigger] row[i] as int, 1) as u128,
                    1,
                ) == field(r_p, field_pos(0, row[i] as int, 1) as u128, 1) by {
                assert forall|i: int| 0 <= i < pio_ridges().len() implies field(
                    (r_p as u16) as u128,
                    field_pos(0, #[trigger] row[i] as int, 1) as u128,
                    1,
                ) == field(r_p, field_pos(0, row[i] as int, 1) as u128, 1) by {
                    lemma_truncate_u16(r_p, row[i] as u128);
                }
            }
            assert forall|row: Seq<usize>| #[trigger] is_twist_row(pio_edges(), twist, row) implies forall|i: int|
                0 <= i < pio_edges().len() ==> field(
                    ((e_op & 0x00FF_FFFF_FFFF_FFFF) as u64) as u128,
                    field_pos(0, #[trigger] row[i] as int, 2) as u128,
                    2,
                ) == field(e_op, field_pos(0, row[i] as int, 2) as u128, 2) by {
                assert forall|i: int| 0 <= i < pio_edges().len() implies field(
                    ((e_op & 0x00FF_FFFF_FFFF_FFFF) as u64) as u128,
                    field_pos(0, #[trigger] row[i] as int, 2) as u128,
                    2,
                ) == field(e_op, field_pos(0, row[i] as int, 2) as u128, 2) by {
                    lemma_edge_bits(e_op, (2 * row[i]) as u128);
                }
            }
            assert forall|row: Seq<usize>| #[trigger] is_twist_row(corner_points(), twist, row) implies forall|i: int|
                0 <= i < corner_points().len() ==> field(
                    (c_o as u32) as u128,
                    field_pos(0, #[trigger] row[i] as int, 2) as u128,
                    2,
                ) == field(c_o, field_pos(0, row[i] as int, 2) as u128, 2) by {
                assert forall|i: int| 0 <= i < corner_points().len() implies field(
                    (c_o as u32) as u128,
                    field_pos(0, #[trigger] row[i] as int, 2) as u128,
                    2,
                ) == field(c_o, field_pos(0, row[i] as int, 2) as u128, 2) by {
                    lemma_truncate_u32(c_o, (2 * row[i]) as u128, 2);
                }
            }
        }
        proof {
            lemma_edge_bits(e_op, 0);
            assert forall|t: int| pio_ridges().len() <= t < 16 implies #[trigger] bit((r_p as u16) as u128, t as u128)
                == bit(self.r_p as u128, t as u128) by {
                lemma_truncate_u16(r_p, t as u128);
                lemma_low_mask_step((r_p as u16) as u128, t as u128, 1);
                lemma_low_mask_step(r_p, t as u128, 1);
            }
            assert forall|t: int| 2 * pio_edges().len() <= t < 56 implies #[trigger] bit(
                ((e_op & 0x00FF_FFFF_FFFF_FFFF) as u64) as u128,
                t as u128,
            ) == bit(self.e_op as u128, t as u128) by {
                if t % 2 == 0 {
                    lemma_edge_bits(e_op, t as u128);
                    lemma_low_mask_step(((e_op & 0x00FF_FFFF_FFFF_FFFF) as u64) as u128, t as u128, 1);
                    lemma_low_mask_step(e_op, t as u128, 1);
                } else {
                    lemma_edge_bits(e_op, (t - 1) as u128);
                    lemma_low_mask_step(((e_op & 0x00FF_FFFF_FFFF_FFFF) as u64) as u128, t as u128, 1);
                    lemma_low_mask_step(e_op, t as u128, 1);
                }
            }
            assert forall|t: int| 2 * corner_points().len() <= t < 32 implies #[trigger] bit((c_o as u32) as u128, t as u128)
                == bit(self.c_o as u128, t as u128) by {
                lemma_truncate_u32(c_o, t as u128, 1);
                lemma_low_mask_step((c_o as u32) as u128, t as u128, 1);
                lemma_low_mask_step(c_o, t as u128, 1);
            }
        }
        let res = Stage2 { r_p: r_p as u16, e_op: (e_op & 0x00FF_FFFF_FFFF_FFFF) as u64, c_o: c_o as u32 };
        assert(Self::moved(self, twist, res));
        res
    }

    open spec fn represents(pieces: Seq<(Vec4, Mat4)>, s: Self) -> bool {
        &&& s.r_p == pack_bits(all_values(pieces, seq![PieceType::Ridge], in_pio(), pio_ridge_fn()), 1) as u16
        &&& s.e_op == pack_bits(all_values(pieces, seq![PieceType::Edge], in_pio(), pio_edge_fn()), 2)
        &&& s.c_o == pack_bits(all_values(pieces, seq![PieceType::Corner], anywhere(), pio_corner_fn()), 2) as u32
    }

    /// The ridge bits (see [`pio_ridge_fn`]) and edge bits (see
    /// [`pio_edge_fn`]) of the pieces whose current positions are in `I`,
    /// `O` or `F`, and the corner bits (see [`pio_corner_fn`]) of every
    /// corner, in slot order.
    fn from_state(state: SimplePuzzleSim) -> (res: Self)
        ensures
            res.r_p == pack_bits(all_values(state.pieces@, seq![PieceType::Ridge], in_pio(), pio_ridge_fn()), 1) as u16,
            res.e_op == pack_bits(all_values(state.pieces@, seq![PieceType::Edge], in_pio(), pio_edge_fn()), 2),
            res.c_o == pack_bits(all_values(state.pieces@, seq![PieceType::Corner], anywhere(), pio_corner_fn()), 2) as u32,
    {
        let keep = |v: Vec4| -> (b: bool)
            ensures
                b == in_pio()(v),
        { v.0[3] != 0 || v.0[2] == 1 };
        let all = |v: Vec4| -> (b: bool)
            ensures
                b == anywhere()(v),
        { true };
        let ridge_bit = |init: Vec4, att: Mat4| -> (x: u64)
            ensures
                x == pio_ridge_fn()(init, att),
        {
            if init.0[3] != 0 {
                1
            } else {
                0
            }
        };
        let edge_bits = |init: Vec4, att: Mat4| -> (x: u64)
            requires
                init.in_cube(),
                att.is_perm(),
            ensures
                x == pio_edge_fn()(init, att),
        { io_edge_bits(init, att) };
        let corner_bits = |init: Vec4, att: Mat4| -> (x: u64)
            ensures
                x == pio_corner_fn()(init, att),
        { Axis::W.transform_by(att).to_u8() as u64 };
        let ridge_types = [PieceType::Ridge];
        assert(ridge_types@ =~= seq![PieceType::Ridge]);
        let edge_types = [PieceType::Edge];
        assert(edge_types@ =~= seq![PieceType::Edge]);
        let corner_types = [PieceType::Corner];
        assert(corner_types@ =~= seq![PieceType::Corner]);
        let r_p = state.pieces_to_bits(1, &ridge_types, keep, ridge_bit);
        let e_op = state.pieces_to_bits(2, &edge_types, keep, edge_bits);
        let c_o = state.pieces_to_bits(2, &corner_types, all, corner_bits);
        proof {
            assert(crate::puzzle::sim::closures_compute(keep, ridge_bit, in_pio(), pio_ridge_fn()));
            assert(crate::puzzle::sim::closures_compute(keep, edge_bits, in_pio(), pio_edge_fn()));
            assert(crate::puzzle::sim::closures_compute(all, corner_bits, anywhere(), pio_corner_fn()));
        }
        let res = Stage2 { r_p: r_p as u16, e_op, c_o: c_o as u32 };
        assert(Self::represents(state.pieces@, res));
        res
    }
}

/// Keeping the low 56 bits of the edge bits keeps each two-bit field below
/// bit 56 and clears the bits above.
proof fn lemma_edge_bits(y: u128, s: u128)
    by (bit_vector)
    requires
        s + 2 <= 56,
    ensures
        field(((y & 0x00FF_FFFF_FFFF_FFFF) as u64) as u128, s, 2) == field(y, s, 2),
        field(((y & 0x00FF_FFFF_FFFF_FFFF) as u64) as u128, s, 1) == field(y, s, 1),
        field(((y & 0x00FF_FFFF_FFFF_FFFF) as u64) as u128, (s + 1) as u128, 1) == field(y, (s + 1) as u128, 1),
        ((y & 0x00FF_FFFF_FFFF_FFFF) as u64) < 0x0100_0000_0000_0000,
{
}

} // verus!
