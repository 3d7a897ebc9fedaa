use vstd::prelude::*;

use super::slots::{check_slots, concat_points, filter_points, filter_pos, slots_ok};
use super::s1_mid::{edge_points, ridge_points};
use super::{Stage, TracksPuzzle};
use crate::bits::{bit, count_ones, field, lemma_low_mask_step, lemma_truncate_u64, popcount};
use crate::codegen::{corners, edges, ridges, PermutationLut};
use crate::linalg::{Axis, Mat4, Vec4};
use crate::permutation::{field_pos, has_twist_row, is_twist_row, moves_fields, twist_fields, FieldRule};
use crate::puzzle::piece_type::{cube_points, filter_norm};
use crate::puzzle::sim::{all_values, pack_bits, SimplePuzzleSim};
use crate::puzzle::{PieceType, Twist, TwistSet};
use crate::stage_utils::{law_rl_eo_compose, lemma_axis_image_mul, rl_eo, spec_rl_eo};
use crate::bits::{lemma_low_fields_eq, lemma_shift_in, lemma_truncate_u64_u32};
use crate::codegen::lemma_piece_points;
use crate::permutation::rule_value;
use crate::puzzle::piece_type::lemma_cube_norm;
use crate::puzzle::sim::{
    cube_index, law_twist_keeps_valid, moved_piece, rotate_pieces,
    twist_pieces, valid_pieces,
};
use crate::stages::tracking::{
    lemma_filter_pos_in, lemma_listing_one, lemma_listing_two, lemma_moved_values, lemma_pack_fields,
    lemma_packed_eq, lemma_rotate_ident, lemma_slot_piece, slot_value,
};
use crate::xy_rot::xy_mat;

use crate::xy_rot::XyRot;

verus! {

/// Whether a position is in `R` or `I` (the part that stage 3 tracks).
pub open spec fn in_stage3() -> spec_fn(Vec4) -> bool {
    |v: Vec4| v.0[0] == 1 || v.0[3] == -1
}

/// Corner positions, in region order.
pub open spec fn corner_points() -> Seq<Vec4> {
    filter_norm(cube_points(), 4)
}

/// The ridge slots of stage 3.
pub open spec fn s3_ridges() -> Seq<Vec4> {
    filter_pos(ridge_points(), in_stage3())
}

/// The edge slots, then the corner slots, of stage 3.
pub open spec fn s3_edges_corners() -> Seq<Vec4> {
    filter_pos(edge_points(), in_stage3()) + filter_pos(corner_points(), in_stage3())
}

/// Stage 3 ridge bit: whether the ridge belongs in `R`/`L`.
pub open spec fn s3_ridge_fn() -> spec_fn(Vec4, Mat4) -> u64 {
    |init: Vec4, att: Mat4| if init.0[0] != 0 { 1u64 } else { 0u64 }
}

/// Stage 3 edge and corner bits: for an edge, its orientation relative to
/// the X axis (see [`rl_eo`]); for a corner, the axis of its `R`/`L` sticker.
pub open spec fn s3_ec_fn() -> spec_fn(Vec4, Mat4) -> u64 {
    |init: Vec4, att: Mat4|
        if init.spec_taxicab_norm() == 3 {
            spec_rl_eo(att, init, if init.0[0] == 0 { 0u8 } else { 3u8 }) as u64
        } else {
            (att@[0] / 2) as u64
        }
}

/// Stage 3: Domino misorientation
///
/// ## Invariants
///
/// - The 2x3x3x2 block of pieces at `[-1, -1, -1, 0]..[0, 1, 1, 1]` (i.e.,
///   `~(R | I)`) must be setwise-preserved and remain oriented &
///   `M`-separated.
/// - All `R`/`L` ridges must remain oriented.
///
/// ## Target
///
/// - `M` ridges: 10 in `M`, 2 in `R`/`L`
/// - `R`/`L` ridges: 2 in `M`, 10 oriented in `R`/`L`
/// - `M` edges: 4 in `M`, 4 in `R`/`L`
/// - `R`/`L` edges: 4 in `M`, 4 misoriented in `R`/`L`, 4 oriented in `R`/`L`
/// - corners: 8 misoriented, 8 oriented
#[derive(Debug, Copy, Clone, PartialEq, Eq, Structural, Hash)]
pub struct Stage3 {
    /// For each `R`/`I` ridge location, 1 bit: `1` = belongs in `R`/`L`, `0`
    /// = belongs in the `M` slice.
    pub r: u16,
    /// For each `R`/`I` edge location, 2 bits: `11` = belongs in `R`/`L`, good
    /// orientation; `01`, `10` = belongs in `R`/`L`, bad orientation; `00` =
    /// belongs in the `M` slice. Then for each `R`/`I` corner location, 2 bits:
    /// the axis of its `R`/`L` sticker.
    pub ec: u64,
}

impl Stage3 {
    /// Ridge bits of the solved state.
    pub const SOLVED_R: u16 = 0x7cc;
    /// Edge and corner bits of the solved state.
    pub const SOLVED_EC: u64 = 0xffff3cff3c;
    /// `M`-slice ridges.
    pub const R_M: u16 = 0x33;
    /// `M`-slice edges (low bits only).
    pub const E_M: u64 = 0x410041;
    /// `R`/`L` edges (low bits only).
    pub const E_RL: u64 = 0x5555145514;
    /// Corners (low bits only). All corners are in `R`/`L`.
    pub const C_RL: u64 = 0x555555_0000000000;

    /// The solved state.
    pub fn solved() -> (r: Self)
        ensures
            r == (Stage3 { r: Self::SOLVED_R, ec: Self::SOLVED_EC }),
    {
        Stage3 { r: Self::SOLVED_R, ec: Self::SOLVED_EC }
    }

    /// Returns the bitwise and of two states.
    pub fn bitand(self, rhs: Self) -> (r: Self)
        ensures
            r == (Stage3 { r: self.r & rhs.r, ec: self.ec & rhs.ec }),
    {
        Stage3 { r: self.r & rhs.r, ec: self.ec & rhs.ec }
    }

    /// Constructs a state from its fields.
    pub fn new(r: u16, ec: u64) -> (s: Self)
        ensures
            s == (Stage3 { r, ec }),
    {
        Stage3 { r, ec }
    }

    /// Returns whether the target is reached: 2 `R`/`L` ridges in `M`, 4 `M`
    /// edges in `R`/`L`, 4 `R`/`L` edges in `M`, 4 `R`/`L` edges misoriented in
    /// `R`/`L`, and 8 misoriented corners.
    pub fn is_target_solved(self) -> (res: bool)
        ensures
            res == {
                let r = self.r;
                let ec = self.ec;
                &&& popcount((r & Self::R_M) as nat) == 2
                &&& popcount((!(ec | (ec >> 1u64)) & Self::E_RL) as nat) == 4
                &&& popcount(((ec | (ec >> 1u64)) & Self::E_M) as nat) == 4
                &&& popcount(((ec ^ (ec >> 1u64)) & Self::E_RL) as nat) == 4
                &&& popcount(((ec | (ec >> 1u64)) & Self::C_RL) as nat) == 8
            },
    {
        let r = self.r;
        let ec = self.ec;
        count_ones((r & Self::R_M) as u64) == 2
            && count_ones(!(ec | (ec >> 1)) & Self::E_RL) == 4
            && count_ones((ec | (ec >> 1)) & Self::E_M) == 4
            && count_ones((ec ^ (ec >> 1)) & Self::E_RL) == 4
            && count_ones((ec | (ec >> 1)) & Self::C_RL) == 8
    }

    /// Returns the ridge slots of the stage.
    fn ridge_slots() -> (r: Vec<Vec4>)
        ensures
            r@ == s3_ridges(),
    {
        let all = ridges();
        let pred = |v: Vec4| -> (b: bool)
            ensures
                b == in_stage3()(v),
        { v.0[0] == 1 || v.0[3] == -1 };
        filter_points(&all, pred, Ghost(in_stage3()))
    }

    /// Returns the edge slots, then the corner slots, of the stage.
    fn edge_corner_slots() -> (r: Vec<Vec4>)
        ensures
            r@ == s3_edges_corners(),
    {
        let e = edges();
        let c = corners();
        let pred = |v: Vec4| -> (b: bool)
            ensures
                b == in_stage3()(v),
        { v.0[0] == 1 || v.0[3] == -1 };
        let fe = filter_points(&e, pred, Ghost(in_stage3()));
        let fc = filter_points(&c, pred, Ghost(in_stage3()));
        concat_points(&fe, &fc)
    }
}

impl Default for Stage3 {
    fn default() -> (r: Self)
        ensures
            r == (Stage3 { r: Self::SOLVED_R, ec: Self::SOLVED_EC }),
    {
        Self::solved()
    }
}

impl Stage3 {
    /// The positions that stage 3 tracks are positions of the cube with the
    /// norm of their type.
    proof fn lemma_slots_in_cube()
        ensures
            forall|i: int| 0 <= i < s3_ridges().len() ==> (#[trigger] s3_ridges()[i]).in_cube() && s3_ridges()[i].spec_taxicab_norm() == 2,
            forall|i: int|
                0 <= i < s3_edges_corners().len() ==> (#[trigger] s3_edges_corners()[i]).in_cube() && (s3_edges_corners()[i].spec_taxicab_norm() == 3
                    || s3_edges_corners()[i].spec_taxicab_norm() == 4),
    {
        lemma_piece_points(2);
        lemma_piece_points(3);
        lemma_piece_points(4);
        lemma_filter_pos_in(ridge_points(), in_stage3());
        lemma_filter_pos_in(edge_points(), in_stage3());
        lemma_filter_pos_in(corner_points(), in_stage3());
        let e = filter_pos(edge_points(), in_stage3());
        let c = filter_pos(corner_points(), in_stage3());
        assert forall|i: int| 0 <= i < s3_ridges().len() implies (#[trigger] s3_ridges()[i]).in_cube() && s3_ridges()[i].spec_taxicab_norm() == 2 by {
            let j = choose|j: int| 0 <= j < ridge_points().len() && ridge_points()[j] == s3_ridges()[i];
        }
        assert forall|i: int| 0 <= i < s3_edges_corners().len() implies (#[trigger] s3_edges_corners()[i]).in_cube() && (s3_edges_corners()[i].spec_taxicab_norm() == 3
            || s3_edges_corners()[i].spec_taxicab_norm() == 4) by {
            if i < e.len() {
                assert(s3_edges_corners()[i] == e[i]);
                let j = choose|j: int| 0 <= j < edge_points().len() && edge_points()[j] == e[i];
            } else {
                assert(s3_edges_corners()[i] == c[i - e.len()]);
                let j = choose|j: int| 0 <= j < corner_points().len() && corner_points()[j] == c[i - e.len()];
            }
        }
    }

    /// The ridge bits follow a twist of the pieces.
    proof fn lemma_ridges_follow(pieces: Seq<(Vec4, Mat4)>, s: Stage3, t: Twist, n: Stage3)
        requires
            valid_pieces(pieces),
            t.inv(),
            s.r == pack_bits(all_values(pieces, seq![PieceType::Ridge], in_stage3(), s3_ridge_fn()), 1) as u16,
            Self::can_twist(t),
            Self::moved(s, t, n),
        ensures
            n.r == pack_bits(
                all_values(twist_pieces(pieces, t), seq![PieceType::Ridge], in_stage3(), s3_ridge_fn()),
                1,
            ) as u16,
    {
        let f = s3_ridge_fn();
        let pts = s3_ridges();
        let q = twist_pieces(pieces, t);
        let len = pts.len();
        law_twist_keeps_valid(pieces, t);
        Self::lemma_slots_in_cube();
        lemma_listing_one(pieces, PieceType::Ridge, in_stage3(), f);
        lemma_listing_one(q, PieceType::Ridge, in_stage3(), f);
        let vo = pts.map_values(slot_value(pieces, f));
        let vn = pts.map_values(slot_value(q, f));
        lemma_shift_in(0, 0, 1, 0);
        assert forall|i: int| 0 <= i < vo.len() implies #[trigger] vo[i] < (1u64 << 1u64) by {}
        assert forall|i: int| 0 <= i < vn.len() implies #[trigger] vn[i] < (1u64 << 1u64) by {}
        lemma_pack_fields(vo, 1);
        lemma_pack_fields(vn, 1);
        let po = pack_bits(vo, 1);
        let pn = pack_bits(vn, 1);
        assert forall|i: int| 0 <= i < len implies #[trigger] field(s.r as u128, field_pos(0, i, 1) as u128, 1)
            == slot_value(pieces, f)(pts[i]) as u128 by {
            lemma_truncate_u64_u32(po, i as u128, 1);
            assert(field(po as u128, (i * 1) as u128, 1) == vo[i] as u128);
        }
        lemma_moved_values(pieces, t, pts, f, s.r as u128, n.r as u128, 1, FieldRule::Keep);
        let x = n.r as u128;
        let y = (pn as u16) as u128;
        assert forall|i: nat| i < len implies field(x, (0 + i * 1) as u128, 1 as u128) == #[trigger] field(
            y,
            (0 + i * 1) as u128,
            1 as u128,
        ) by {
            lemma_truncate_u64_u32(pn, i as u128, 1);
            assert(field(pn as u128, (i * 1) as u128, 1) == vn[i as int] as u128);
            assert(field(x, field_pos(0, i as int, 1) as u128, 1) == slot_value(q, f)(pts[i as int]) as u128);
        }
        assert forall|i: nat| i < 16 - len implies field(x, (len + i * 1) as u128, 1 as u128) == #[trigger] field(
            y,
            (len + i * 1) as u128,
            1 as u128,
        ) by {
            let tt = len + i;
            lemma_truncate_u64_u32(pn, tt as u128, 1);
            lemma_truncate_u64_u32(po, tt as u128, 1);
            lemma_low_mask_step(x, tt as u128, 1);
            lemma_low_mask_step(y, tt as u128, 1);
            lemma_low_mask_step(s.r as u128, tt as u128, 1);
            lemma_low_mask_step(po as u128, tt as u128, 1);
            lemma_low_mask_step(pn as u128, tt as u128, 1);
            assert(bit(x, tt as u128) == bit(s.r as u128, tt as u128));
            assert(bit(po as u128, tt as u128) == 0);
            assert(bit(pn as u128, tt as u128) == 0);
        }
        lemma_low_mask_step(x, 0, 1);
        lemma_low_mask_step(y, 0, 1);
        lemma_low_fields_eq(x, y, 0, 1, len);
        lemma_low_fields_eq(x, y, len, 1, (16 - len) as nat);
        assert(x == y);
    }

    /// The edge or corner value of a piece is below 4, and the rule turns it
    /// into the value of the piece after the twist.
    proof fn lemma_ec_rule(pieces: Seq<(Vec4, Mat4)>, t: Twist, p: Vec4)
        requires
            valid_pieces(pieces),
            t.inv(),
            p.in_cube(),
            p.spec_taxicab_norm() == 3 || p.spec_taxicab_norm() == 4,
        ensures
            ({
                let pc = pieces[cube_index(p)];
                let m = moved_piece(pc, t.spec_rot(), t.spec_affects(p));
                &&& slot_value(pieces, s3_ec_fn())(p) < 4
                &&& rule_value(FieldRule::EdgeOrCornerX, t, p, slot_value(pieces, s3_ec_fn())(p) as u128)
                    == s3_ec_fn()(m.0, m.1) as u128
            }),
    {
        let rot = t.spec_rot();
        crate::puzzle::twist::lemma_twist_keeps_side(t, p);
        lemma_slot_piece(pieces, p);
        let pc = pieces[cube_index(p)];
        let init = pc.0;
        let att = pc.1;
        lemma_cube_norm(init);
        att.lemma_view();
        rot.lemma_view();
        if p.spec_taxicab_norm() == 3 {
            let c: u8 = if init.0[0] == 0 {
                0
            } else {
                3
            };
            law_rl_eo_compose(att, rot, init, c);
            let o = spec_rl_eo(att, init, c);
            assert(slot_value(pieces, s3_ec_fn())(p) == o as u64);
            assert(((o as u64) as u128) as u8 == o);
        } else {
            let a = att@[0] / 2;
            assert(0 <= a < 4);
            assert(slot_value(pieces, s3_ec_fn())(p) == a as u64);
            if t.spec_affects(p) {
                lemma_axis_image_mul(att, rot, Axis::X);
                crate::linalg::axis::lemma_axis_of_idx(Axis::X);
                crate::linalg::mat4::lemma_mul_perm(rot, att);
                Mat4::lemma_mul(rot, att);
                rot.spec_mul(att).lemma_view();
                let b = crate::linalg::axis::axis_of(a);
                crate::linalg::axis::lemma_axis_of_idx(b);
                assert(b.idx() == a);
                let c1 = rot.spec_mul(att)@[0] / 2;
                let c2 = rot@[a] / 2;
                assert(0 <= c1 < 4 && 0 <= c2 < 4);
                let x1 = crate::linalg::axis::axis_of(c1);
                let x2 = crate::linalg::axis::axis_of(c2);
                crate::linalg::axis::lemma_axis_of_idx(x1);
                crate::linalg::axis::lemma_axis_of_idx(x2);
                assert(x1 == x2);
                assert(c1 == c2);
            }
        }
    }

    /// The edge and corner bits follow a twist of the pieces.
    proof fn lemma_ec_follow(pieces: Seq<(Vec4, Mat4)>, s: Stage3, t: Twist, n: Stage3)
        requires
            valid_pieces(pieces),
            t.inv(),
            s.ec == pack_bits(all_values(pieces, seq![PieceType::Edge, PieceType::Corner], in_stage3(), s3_ec_fn()), 2),
            Self::can_twist(t),
            Self::moved(s, t, n),
        ensures
            n.ec == pack_bits(
                all_values(twist_pieces(pieces, t), seq![PieceType::Edge, PieceType::Corner], in_stage3(), s3_ec_fn()),
                2,
            ),
    {
        let f = s3_ec_fn();
        let pts = s3_edges_corners();
        let q = twist_pieces(pieces, t);
        law_twist_keeps_valid(pieces, t);
        Self::lemma_slots_in_cube();
        lemma_listing_two(pieces, PieceType::Edge, PieceType::Corner, in_stage3(), f);
        lemma_listing_two(q, PieceType::Edge, PieceType::Corner, in_stage3(), f);
        let vo = pts.map_values(slot_value(pieces, f));
        let vn = pts.map_values(slot_value(q, f));
        lemma_shift_in(0, 0, 2, 0);
        assert forall|i: int| 0 <= i < pts.len() implies {
            let p = #[trigger] pts[i];
            let pc = pieces[cube_index(p)];
            let m = moved_piece(pc, t.spec_rot(), t.spec_affects(p));
            &&& slot_value(pieces, f)(p) < 4
            &&& rule_value(FieldRule::EdgeOrCornerX, t, p, slot_value(pieces, f)(p) as u128) == f(m.0, m.1) as u128
        } by {
            Self::lemma_ec_rule(pieces, t, pts[i]);
        }
        assert forall|i: int| 0 <= i < vo.len() implies #[trigger] vo[i] < (1u64 << 2u64) by {
            assert(vo[i] == slot_value(pieces, f)(pts[i]));
        }
        assert forall|i: int| 0 <= i < vn.len() implies #[trigger] vn[i] < (1u64 << 2u64) by {
            Self::lemma_ec_rule(q, t, pts[i]);
            assert(vn[i] == slot_value(q, f)(pts[i]));
        }
        lemma_pack_fields(vo, 2);
        assert forall|i: int| 0 <= i < pts.len() implies #[trigger] field(s.ec as u128, field_pos(0, i, 2) as u128, 2)
            == slot_value(pieces, f)(pts[i]) as u128 by {
            assert(field(pack_bits(vo, 2) as u128, (i * 2) as u128, 2) == vo[i] as u128);
        }
        lemma_moved_values(pieces, t, pts, f, s.ec as u128, n.ec as u128, 2, FieldRule::EdgeOrCornerX);
        assert forall|i: int| 0 <= i < vn.len() implies #[trigger] field(n.ec as u128, (i * 2) as u128, 2 as u128)
            == vn[i] as u128 by {
            assert(field(n.ec as u128, field_pos(0, i, 2) as u128, 2) == slot_value(q, f)(pts[i]) as u128);
        }
        assert forall|tt: int| vn.len() * 2 <= tt < 64 implies #[trigger] bit(n.ec as u128, tt as u128) == 0 by {
            assert(bit(n.ec as u128, tt as u128) == bit(s.ec as u128, tt as u128));
            assert(vo.len() * 2 <= tt);
        }
        lemma_packed_eq(n.ec, vn, 2);
    }
}

impl TracksPuzzle for Stage3 {
    proof fn law_twist_represents(pieces: Seq<(Vec4, Mat4)>, s: Stage3, t: Twist, n: Stage3)
    {
        law_twist_keeps_valid(pieces, t);
        lemma_rotate_ident(twist_pieces(pieces, t));
        assert(xy_mat(0) == Mat4::spec_ident());
        Self::lemma_ridges_follow(pieces, s, t, n);
        Self::lemma_ec_follow(pieces, s, t, n);
    }
}

impl Stage for Stage3 {
    open spec fn accepts(pieces: Seq<(Vec4, Mat4)>) -> bool {
        true
    }

    open spec fn can_twist(twist: Twist) -> bool {
        &&& s3_ridges().len() <= 16
        &&& s3_edges_corners().len() <= 32
        &&& slots_ok(s3_ridges(), FieldRule::Keep, 1)
        &&& slots_ok(s3_edges_corners(), FieldRule::EdgeOrCornerX, 2)
        &&& has_twist_row(s3_ridges(), twist)
        &&& has_twist_row(s3_edges_corners(), twist)
        &&& (twist.idx() / 23 == 0 || twist.idx() / 23 == 7 || twist.spec_rot()@[0] / 2 == 0)
    }

    /// Returns the twists that keep the tracked pieces in place and are `R`
    /// or `I` twists or keep the X axis.
    fn twists() -> (r: TwistSet) {
        let rs = Self::ridge_slots();
        let ecs = Self::edge_corner_slots();
        if rs.len() > 16 || ecs.len() > 32 || !check_slots(&rs, FieldRule::Keep, 1) || !check_slots(
            &ecs,
            FieldRule::EdgeOrCornerX,
            2,
        ) {
            return TwistSet::empty();
        }
        let lr = PermutationLut::new(&rs);
        let le = PermutationLut::new(&ecs);
        let ar = lr.allowed_twists();
        let ae = le.allowed_twists();
        let mut r = TwistSet::empty();
        let mut k: u8 = 0;
        while k < 184
            invariant
                0 <= k <= 184,
                rs@ == s3_ridges(),
                ecs@ == s3_edges_corners(),
                rs@.len() <= 16,
                ecs@.len() <= 32,
                slots_ok(rs@, FieldRule::Keep, 1),
                slots_ok(ecs@, FieldRule::EdgeOrCornerX, 2),
                lr.describes(rs@),
                le.describes(ecs@),
                forall|i: int| 0 <= i < 184 ==> #[trigger] ar.has(i) == lr.table@[i] is Some,
                forall|i: int| 0 <= i < 184 ==> #[trigger] ae.has(i) == le.table@[i] is Some,
                forall|i: int| 0 <= i < 184 ==> #[trigger] r.has(i) == (i < k && Self::can_twist(Twist::spec_from_index(i))),
            decreases 184 - k,
        {
            let t = Twist::from_index(k);
            let f = t.facet();
            let keeps_x = Axis::X.transform_by(t.rot()) == Axis::X;
            let on_r_or_i = f.to_u8() == 0 || f.to_u8() == 7;
            if ar.contains(t) && ae.contains(t) && (on_r_or_i || keeps_x) {
                proof {
                    assert(ar.has(k as int) && ae.has(k as int));
                    let row_r = lr.table@[k as int]->0;
                    let row_e = le.table@[k as int]->0;
                    assert(is_twist_row(s3_ridges(), t, row_r@));
                    assert(is_twist_row(s3_edges_corners(), t, row_e@));
                }
                r.insert(t);
            } else {
                proof {
                    assert(t == Twist::spec_from_index(k as int));
                    assert(Axis::X.idx() == 0);
                }
            }
            k = k + 1;
        }
        r
    }

    /// No rotation follows a twist.
    open spec fn rotation_after(twist: Twist) -> int {
        0
    }

    /// Returns the identity: no rotation follows a twist.
    fn implicit_rotation_after_twist(twist: Twist) -> (r: XyRot) {
        XyRot::ident()
    }

    open spec fn moved(self, twist: Twist, next: Self) -> bool {
        &&& moves_fields(self.r as u128, next.r as u128, s3_ridges(), twist, 1, 0, FieldRule::Keep)
        &&& moves_fields(self.ec as u128, next.ec as u128, s3_edges_corners(), twist, 2, 0, FieldRule::EdgeOrCornerX)
        &&& forall|t: int| s3_ridges().len() <= t < 16 ==> #[trigger] bit(next.r as u128, t as u128) == bit(self.r as u128, t as u128)
        &&& forall|t: int|
            2 * s3_edges_corners().len() <= t < 64 ==> #[trigger] bit(next.ec as u128, t as u128) == bit(self.ec as u128, t as u128)
    }

    /// Moves the ridge bits and the edge and corner bits as the twist moves
    /// the pieces, updating the edge orientations and corner axes.
    fn do_twist(self, twist: Twist) -> (res: Self)
    {
        let rs = Self::ridge_slots();
        let ecs = Self::edge_corner_slots();
        let r = match twist_fields(self.r as u128, &rs, twist, 1, 0, FieldRule::Keep) {
            Some(y) => y,
            None => {
                assert(false);
                0
            },
        };
        let ec = match twist_fields(self.ec as u128, &ecs, twist, 2, 0, FieldRule::EdgeOrCornerX) {
            Some(y) => y,
            None => {
                assert(false);
                0
            },
        };
        proof {
            assert forall|row: Seq<usize>| #[trigger] is_twist_row(s3_ridges(), twist, row) implies forall|i: int|
                0 <= i < s3_ridges().len() ==> field(
                    (r as u16) as u128,
                    field_pos(0, #[trigger] row[i] as int, 1) as u128,
                    1,
                ) == field(r, field_pos(0, row[i] as int, 1) as u128, 1) by {
                assert forall|i: int| 0 <= i < s3_ridges().len() implies field(
                    (r as u16) as u128,
                    field_pos(0, #[trigger] row[i] as int, 1) as u128,
                    1,
                ) == field(r, field_pos(0, row[i] as int, 1) as u128, 1) by {
                    lemma_truncate_u16(r, row[i] as u128);
                }
            }
            assert forall|row: Seq<usize>| #[trigger] is_twist_row(s3_edges_corners(), twist, row) implies forall|i: int|
                0 <= i < s3_edges_corners().len() ==> field(
                    (ec as u64) as u128,
                    field_pos(0, #[trigger] row[i] as int, 2) as u128,
                    2,
                ) == field(ec, field_pos(0, row[i] as int, 2) as u128, 2) by {
                assert forall|i: int| 0 <= i < s3_edges_corners().len() implies field(
                    (ec as u64) as u128,
                    field_pos(0, #[trigger] row[i] as int, 2) as u128,
                    2,
                ) == field(ec, field_pos(0, row[i] as int, 2) as u128, 2) by {
                    lemma_truncate_u64(ec, (2 * row[i]) as u128, 2);
                }
            }
            assert forall|t: int| s3_ridges().len() <= t < 16 implies #[trigger] bit((r as u16) as u128, t as u128)
                == bit(self.r as u128, t as u128) by {
                lemma_truncate_u16(r, t as u128);
                lemma_low_mask_step((r as u16) as u128, t as u128, 1);
                lemma_low_mask_step(r, t as u128, 1);
            }
            assert forall|t: int| 2 * s3_edges_corners().len() <= t < 64 implies #[trigger] bit((ec as u64) as u128, t as u128)
                == bit(self.ec as u128, t as u128) by {
                lemma_truncate_u64(ec, t as u128, 1);
            }
        }
        let res = Stage3 { r: r as u16, ec: ec as u64 };
        assert(Self::moved(self, twist, res));
        res
    }

    open spec fn represents(pieces: Seq<(Vec4, Mat4)>, s: Self) -> bool {
        &&& s.r == pack_bits(all_values(pieces, seq![PieceType::Ridge], in_stage3(), s3_ridge_fn()), 1) as u16
        &&& s.ec == pack_bits( all_values(pieces, seq![PieceType::Edge, PieceType::Corner], in_stage3(), s3_ec_fn()), 2, )
    }

    /// The ridge bits (see [`s3_ridge_fn`]) and the edge and corner bits (see
    /// [`s3_ec_fn`]) of the pieces whose current positions are in `R` or `I`,
    /// in slot order.
    fn from_state(state: SimplePuzzleSim) -> (res: Self)
        ensures
            res.r == pack_bits(all_values(state.pieces@, seq![PieceType::Ridge], in_stage3(), s3_ridge_fn()), 1) as u16,
            res.ec == pack_bits(
                all_values(state.pieces@, seq![PieceType::Edge, PieceType::Corner], in_stage3(), s3_ec_fn()),
                2,
            ),
    {
        let keep = |v: Vec4| -> (b: bool)
            ensures
                b == in_stage3()(v),
        { v.0[0] == 1 || v.0[3] == -1 };
        let ridge_bit = |init: Vec4, att: Mat4| -> (x: u64)
            ensures
                x == s3_ridge_fn()(init, att),
        {
            if init.0[0] != 0 {
                1
            } else {
                0
            }
        };
        let ridge_types = [PieceType::Ridge];
        assert(ridge_types@ =~= seq![PieceType::Ridge]);
        let r = state.pieces_to_bits(1, &ridge_types, keep, ridge_bit);
        let ec_bits = |init: Vec4, att: Mat4| -> (x: u64)
            requires
                init.in_cube(),
                att.is_perm(),
            ensures
                x == s3_ec_fn()(init, att),
        {
            if init.taxicab_norm() == 3 {
                let o: u8 = if init.0[0] == 0 {
                    0
                } else {
                    3
                };
                proof {
                    crate::puzzle::piece_type::lemma_cube_norm(init);
                }
                rl_eo(att, init, o) as u64
            } else {
                Axis::X.transform_by(att).to_u8() as u64
            }
        };
        let ec_types = [PieceType::Edge, PieceType::Corner];
        assert(ec_types@ =~= seq![PieceType::Edge, PieceType::Corner]);
        let ec = state.pieces_to_bits(2, &ec_types, keep, ec_bits);
        proof {
            assert(crate::puzzle::sim::closures_compute(keep, ridge_bit, in_stage3(), s3_ridge_fn()));
            assert(crate::puzzle::sim::closures_compute(keep, ec_bits, in_stage3(), s3_ec_fn()));
        }
        let res = Stage3 { r: r as u16, ec };
        assert(Self::represents(state.pieces@, res));
        res
    }
}

/// Fields below bit 16 survive truncation to `u16`.
pub proof fn lemma_truncate_u16(y: u128, s: u128)
    requires
        s + 1 <= 16,
    ensures
        field((y as u16) as u128, s, 1) == field(y, s, 1),
{
    assert(field((y as u16) as u128, s, 1) == field(y, s, 1)) by (bit_vector)
        requires
            s + 1 <= 16,
    ;
}

} // verus!
