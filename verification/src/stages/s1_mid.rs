use vstd::prelude::*;

use super::{Stage, SubsetMaskStage, TracksPuzzle};
use crate::bits::{bit, field, lemma_truncate_u32, lemma_truncate_u64};
use crate::codegen::{edges, lemma_piece_points, ridges, PermutationLut};
use crate::linalg::{Mat4, Vec4};
use crate::permutation::{
    field_pos, has_twist_row, is_twist_row, moves_fields, twist_fields, FieldRule,
};
use crate::puzzle::piece_type::{cube_points, filter_norm};
use crate::puzzle::sim::{all_values, pack_bits, SimplePuzzleSim};
use crate::puzzle::{PieceType, Twist, TwistSet};
use crate::stage_utils::{law_xyz_ro_compose, lemma_swap_bits, spec_xyz_ro, xyz_ro};
use crate::bits::{lemma_low_fields_eq, lemma_low_mask_step, lemma_shift_in, lemma_truncate_u64_u32};
use crate::puzzle::piece_type::lemma_cube_norm;
use crate::puzzle::sim::{
    law_twist_keeps_valid, moved_piece, rotate_pieces, twist_pieces,
    valid_pieces,
};
use crate::stages::tracking::{
    lemma_edge_count, lemma_moved_values, lemma_pack_fields, lemma_packed_eq, lemma_rotate_ident,
    lemma_slot_piece, lemma_values_listing, slot_value,
};
use crate::xy_rot::xy_mat;

use crate::xy_rot::XyRot;

verus! {

/// Edge positions, in region order.
pub open spec fn edge_points() -> Seq<Vec4> {
    filter_norm(cube_points(), 3)
}

/// Ridge positions, in region order.
pub open spec fn ridge_points() -> Seq<Vec4> {
    filter_norm(cube_points(), 2)
}

/// Every position.
pub open spec fn any_position() -> spec_fn(Vec4) -> bool {
    |v: Vec4| true
}

/// Stage 1 edge bit: whether the edge belongs in the `M` slice.
pub open spec fn s1_edge_fn() -> spec_fn(Vec4, Mat4) -> u64 {
    |init: Vec4, att: Mat4| if init.0[0] == 0 { 1u64 } else { 0u64 }
}

/// Stage 1 ridge bits: the orientation (see [`xyz_ro`]) of `11` for an `M`
/// ridge and of `01` for an `R`/`L` ridge.
pub open spec fn s1_ridge_fn() -> spec_fn(Vec4, Mat4) -> u64 {
    |init: Vec4, att: Mat4| spec_xyz_ro(att, init, if init.0[0] == 0 { 3u8 } else { 1u8 }) as u64
}

/// Stage 1: Mid block (1x3x3x2) + `I`/`O` ridge orientation
///
/// ## Invariants
///
/// There are no invariants to uphold.
///
/// ## Move set
///
/// All 184 twists are allowed.
///
/// ## Target
///
/// - 3x3x2x1 block of `M` pieces in `M` at `[0, -1, -1, 0]..=[0, 1, 1, 1]`
///   (i.e., `~(R | L | I)`)
/// - R/L 2c pieces are oriented
#[derive(Debug, Copy, Clone, PartialEq, Eq, Structural, Hash)]
pub struct Stage1 {
    /// For each edge location, 1 bit: `1` if it belongs in the `M` slice,
    /// `0` if it belongs in `R`/`L`.
    pub e: u32,
    /// For each ridge location, 2 bits: `11` = belongs in `M` slice, any
    /// orientation; `01` = belongs in `R`/`L`, good orientation; `10` =
    /// belongs in `R`/`L`, bad orientation; `00` = not tracked.
    pub r: u64,
}

impl Stage1 {
    /// Edge bits of the solved state.
    pub const SOLVED_E: u32 = 0x90900909;
    /// Ridge bits of the solved state.
    pub const SOLVED_R: u64 = 0xf5fd755d7f5f;
    /// Edge bits that the target needs: the edges of the 3x3x2x1 block.
    pub const TARGET_E: u32 = 0x90900000;
    /// Ridge bits that the target needs.
    pub const TARGET_R: u64 = 0xf5fd755d7555;

    /// The solved state.
    pub fn solved() -> (r: Self)
        ensures
            r == (Stage1 { e: Self::SOLVED_E, r: Self::SOLVED_R }),
    {
        Stage1 { e: Self::SOLVED_E, r: Self::SOLVED_R }
    }

    /// Returns whether the target is solved: every bit of the target is set.
    pub fn is_target_solved(self) -> (r: bool)
        ensures
            r == (self.e & Self::TARGET_E == Self::TARGET_E && self.r & Self::TARGET_R == Self::TARGET_R),
    {
        self.e & Self::TARGET_E == Self::TARGET_E && self.r & Self::TARGET_R == Self::TARGET_R
    }

    /// Returns whether the state is the solved state.
    pub fn is_solved(self) -> (r: bool)
        ensures
            r == (self == (Stage1 { e: Self::SOLVED_E, r: Self::SOLVED_R })),
    {
        self.e == Self::SOLVED_E && self.r == Self::SOLVED_R
    }
}

impl Stage1 {
    /// The edge bits follow a twist of the pieces.
    proof fn lemma_edges_follow(pieces: Seq<(Vec4, Mat4)>, s: Stage1, t: Twist, n: Stage1)
        requires
            valid_pieces(pieces),
            t.inv(),
            s.e == pack_bits(all_values(pieces, seq![PieceType::Edge], any_position(), s1_edge_fn()), 1) as u32,
            Self::can_twist(t),
            Self::moved(s, t, n),
        ensures
            n.e == pack_bits(
                all_values(twist_pieces(pieces, t), seq![PieceType::Edge], any_position(), s1_edge_fn()),
                1,
            ) as u32,
    {
        let f = s1_edge_fn();
        let pts = edge_points();
        let q = twist_pieces(pieces, t);
        law_twist_keeps_valid(pieces, t);
        lemma_piece_points(3);
        lemma_edge_count();
        lemma_values_listing(pieces, PieceType::Edge, any_position(), f);
        lemma_values_listing(q, PieceType::Edge, any_position(), f);
        let vo = pts.map_values(slot_value(pieces, f));
        let vn = pts.map_values(slot_value(q, f));
        lemma_shift_in(0, 0, 1, 0);
        assert forall|i: int| 0 <= i < vo.len() implies #[trigger] vo[i] < (1u64 << 1u64) by {}
        assert forall|i: int| 0 <= i < vn.len() implies #[trigger] vn[i] < (1u64 << 1u64) by {}
        lemma_pack_fields(vo, 1);
        lemma_pack_fields(vn, 1);
        assert forall|i: int| 0 <= i < pts.len() implies #[trigger] field(
            s.e as u128,
            field_pos(0, i, 1) as u128,
            1,
        ) == slot_value(pieces, f)(pts[i]) as u128 by {
            lemma_truncate_u64_u32(pack_bits(vo, 1), i as u128, 1);
            assert(field(pack_bits(vo, 1) as u128, (i * 1) as u128, 1) == vo[i] as u128);
        }
        assert forall|i: int| 0 <= i < pts.len() implies crate::permutation::rule_value(
            FieldRule::Keep,
            t,
            pts[i],
            slot_value(pieces, f)(#[trigger] pts[i]) as u128,
        ) == ({
            let m = moved_piece(pieces[crate::puzzle::sim::cube_index(pts[i])], t.spec_rot(), t.spec_affects(pts[i]));
            f(m.0, m.1)
        }) as u128 by {}
        lemma_moved_values(pieces, t, pts, f, s.e as u128, n.e as u128, 1, FieldRule::Keep);
        let y = (pack_bits(vn, 1) as u32) as u128;
        assert forall|i: nat| i < 32 implies field(n.e as u128, (0 + i * 1) as u128, 1 as u128) == #[trigger] field(
            y,
            (0 + i * 1) as u128,
            1 as u128,
        ) by {
            lemma_truncate_u64_u32(pack_bits(vn, 1), i as u128, 1);
            assert(field(pack_bits(vn, 1) as u128, (i * 1) as u128, 1) == vn[i as int] as u128);
            assert(field(n.e as u128, field_pos(0, i as int, 1) as u128, 1) == slot_value(q, f)(pts[i as int]) as u128);
        }
        lemma_low_mask_step(n.e as u128, 0, 1);
        lemma_low_mask_step(y, 0, 1);
        lemma_low_fields_eq(n.e as u128, y, 0, 1, 32);
        assert(n.e as u128 == y);
    }

    /// The ridge value of a piece is below 4, and the ridge rule turns it
    /// into the value of the piece after the twist.
    proof fn lemma_ridge_rule(pieces: Seq<(Vec4, Mat4)>, t: Twist, p: Vec4)
        requires
            valid_pieces(pieces),
            t.inv(),
            p.in_cube(),
            p.spec_taxicab_norm() == 2,
        ensures
            ({
                let pc = pieces[crate::puzzle::sim::cube_index(p)];
                let m = moved_piece(pc, t.spec_rot(), t.spec_affects(p));
                &&& slot_value(pieces, s1_ridge_fn())(p) < 4
                &&& crate::permutation::rule_value(
                    FieldRule::RidgeXyz,
                    t,
                    p,
                    slot_value(pieces, s1_ridge_fn())(p) as u128,
                ) == s1_ridge_fn()(m.0, m.1) as u128
            }),
    {
        let rot = t.spec_rot();
        crate::puzzle::twist::lemma_twist_keeps_side(t, p);
        lemma_swap_bits(1);
        lemma_slot_piece(pieces, p);
        let pc = pieces[crate::puzzle::sim::cube_index(p)];
        let init = pc.0;
        let att = pc.1;
        lemma_cube_norm(init);
        let c: u8 = if init.0[0] == 0 {
            3
        } else {
            1
        };
        law_xyz_ro_compose(att, rot, init, c);
        let o = spec_xyz_ro(att, init, c);
        assert(slot_value(pieces, s1_ridge_fn())(p) == o as u64);
        assert(((o as u64) as u128) as u8 == o);
    }

    /// The ridge bits follow a twist of the pieces.
    proof fn lemma_ridges_follow(pieces: Seq<(Vec4, Mat4)>, s: Stage1, t: Twist, n: Stage1)
        requires
            valid_pieces(pieces),
            t.inv(),
            s.r == pack_bits(all_values(pieces, seq![PieceType::Ridge], any_position(), s1_ridge_fn()), 2),
            Self::can_twist(t),
            Self::moved(s, t, n),
        ensures
            n.r == pack_bits(
                all_values(twist_pieces(pieces, t), seq![PieceType::Ridge], any_position(), s1_ridge_fn()),
                2,
            ),
    {
        let f = s1_ridge_fn();
        let pts = ridge_points();
        let q = twist_pieces(pieces, t);
        let rot = t.spec_rot();
        law_twist_keeps_valid(pieces, t);
        lemma_piece_points(2);
        lemma_values_listing(pieces, PieceType::Ridge, any_position(), f);
        lemma_values_listing(q, PieceType::Ridge, any_position(), f);
        let vo = pts.map_values(slot_value(pieces, f));
        let vn = pts.map_values(slot_value(q, f));
        lemma_shift_in(0, 0, 2, 0);
        lemma_swap_bits(1);
        assert forall|i: int| 0 <= i < pts.len() implies {
            let p = #[trigger] pts[i];
            let pc = pieces[crate::puzzle::sim::cube_index(p)];
            let m = moved_piece(pc, rot, t.spec_affects(p));
            &&& slot_value(pieces, f)(p) < 4
            &&& crate::permutation::rule_value(FieldRule::RidgeXyz, t, p, slot_value(pieces, f)(p) as u128)
                == f(m.0, m.1) as u128
        } by {
            Self::lemma_ridge_rule(pieces, t, pts[i]);
        }
        assert forall|i: int| 0 <= i < vo.len() implies #[trigger] vo[i] < (1u64 << 2u64) by {
            assert(vo[i] == slot_value(pieces, f)(pts[i]));
        }
        assert forall|i: int| 0 <= i < vn.len() implies #[trigger] vn[i] < (1u64 << 2u64) by {
            Self::lemma_ridge_rule(q, t, pts[i]);
            assert(vn[i] == slot_value(q, f)(pts[i]));
        }
        lemma_pack_fields(vo, 2);
        assert forall|i: int| 0 <= i < pts.len() implies #[trigger] field(
            s.r as u128,
            field_pos(0, i, 2) as u128,
            2,
        ) == slot_value(pieces, f)(pts[i]) as u128 by {
            assert(field(pack_bits(vo, 2) as u128, (i * 2) as u128, 2) == vo[i] as u128);
        }
        lemma_moved_values(pieces, t, pts, f, s.r as u128, n.r as u128, 2, FieldRule::RidgeXyz);
        assert forall|i: int| 0 <= i < vn.len() implies #[trigger] field(n.r as u128, (i * 2) as u128, 2 as u128)
            == vn[i] as u128 by {
            assert(field(n.r as u128, field_pos(0, i, 2) as u128, 2) == slot_value(q, f)(pts[i]) as u128);
        }
        assert forall|tt: int| vn.len() * 2 <= tt < 64 implies #[trigger] bit(n.r as u128, tt as u128) == 0 by {
            assert(bit(n.r as u128, tt as u128) == bit(s.r as u128, tt as u128));
            assert(vo.len() * 2 <= tt);
        }
        lemma_packed_eq(n.r, vn, 2);
    }

}

impl Default for Stage1 {
    fn default() -> (r: Self)
        ensures
            r == (Stage1 { e: Self::SOLVED_E, r: Self::SOLVED_R }),
    {
        Self::solved()
    }
}

impl Stage1 {
    /// Two states that a twist can lead to from one state are the same.
    proof fn lemma_moved_unique(s: Stage1, t: Twist, a: Stage1, b: Stage1)
        requires
            Self::can_twist(t),
            Self::moved(s, t, a),
            Self::moved(s, t, b),
        ensures
            a == b,
    {
        lemma_edge_count();
        let pe = edge_points();
        let pr = ridge_points();
        let re = choose|row: Seq<usize>| #[trigger] is_twist_row(pe, t, row);
        let rr = choose|row: Seq<usize>| #[trigger] is_twist_row(pr, t, row);
        let xe = a.e as u128;
        let ye = b.e as u128;
        assert forall|j: nat| j < 32 implies field(xe, (0 + j * 1) as u128, 1 as u128) == #[trigger] field(
            ye,
            (0 + j * 1) as u128,
            1 as u128,
        ) by {
            crate::stages::tracking::lemma_indices_onto(re, 32, j as int);
            let i = choose|i: int| 0 <= i < 32 && #[trigger] re[i] == j;
            assert(field(xe, field_pos(0, re[i] as int, 1) as u128, 1) == field(ye, field_pos(0, re[i] as int, 1) as u128, 1));
        }
        lemma_low_mask_step(xe, 0, 1);
        lemma_low_mask_step(ye, 0, 1);
        lemma_low_fields_eq(xe, ye, 0, 1, 32);
        let xr = a.r as u128;
        let yr = b.r as u128;
        let n = pr.len();
        assert forall|j: nat| j < n implies field(xr, (0 + j * 2) as u128, 2 as u128) == #[trigger] field(
            yr,
            (0 + j * 2) as u128,
            2 as u128,
        ) by {
            crate::stages::tracking::lemma_indices_onto(rr, n as int, j as int);
            let i = choose|i: int| 0 <= i < n && #[trigger] rr[i] == j;
            assert(field(xr, field_pos(0, rr[i] as int, 2) as u128, 2) == field(yr, field_pos(0, rr[i] as int, 2) as u128, 2));
        }
        assert forall|j: nat| j < 64 - 2 * n implies field(xr, ((2 * n) + j * 1) as u128, 1 as u128) == #[trigger] field(
            yr,
            ((2 * n) + j * 1) as u128,
            1 as u128,
        ) by {
            let tt = 2 * n + j;
            lemma_low_mask_step(xr, tt as u128, 1);
            lemma_low_mask_step(yr, tt as u128, 1);
            assert(bit(xr, tt as u128) == bit(s.r as u128, tt as u128));
            assert(bit(yr, tt as u128) == bit(s.r as u128, tt as u128));
        }
        lemma_low_mask_step(xr, 0, 1);
        lemma_low_mask_step(yr, 0, 1);
        lemma_low_fields_eq(xr, yr, 0, 2, n);
        lemma_low_fields_eq(xr, yr, (2 * n) as nat, 1, (64 - 2 * n) as nat);
    }

    /// A twist leads from a stage 1 state to one state only.
    pub proof fn law_moves_deterministic()
        ensures
            crate::prune::table::moves_deterministic::<Stage1>(),
    {
        assert forall|s: Stage1, t: Twist, a: Stage1, b: Stage1|
            Self::can_twist(t) && #[trigger] Self::moved(s, t, a) && #[trigger] Self::moved(s, t, b) implies a == b by {
            Self::lemma_moved_unique(s, t, a, b);
        }
    }
}

impl TracksPuzzle for Stage1 {
    proof fn law_twist_represents(pieces: Seq<(Vec4, Mat4)>, s: Stage1, t: Twist, n: Stage1)
    {
        law_twist_keeps_valid(pieces, t);
        lemma_rotate_ident(twist_pieces(pieces, t));
        assert(xy_mat(0) == Mat4::spec_ident());
        Self::lemma_edges_follow(pieces, s, t, n);
        Self::lemma_ridges_follow(pieces, s, t, n);
    }
}

impl Stage for Stage1 {
    open spec fn accepts(pieces: Seq<(Vec4, Mat4)>) -> bool {
        true
    }

    open spec fn can_twist(twist: Twist) -> bool {
        &&& edge_points().len() <= 32
        &&& ridge_points().len() <= 32
        &&& has_twist_row(edge_points(), twist)
        &&& has_twist_row(ridge_points(), twist)
    }

    /// Returns the twists that keep the edges and the ridges in place: all.
    fn twists() -> (r: TwistSet) {
        let e = edges();
        let rr = ridges();
        proof {
            lemma_piece_points(3);
            lemma_piece_points(2);
        }
        if e.len() > 32 || rr.len() > 32 {
            return TwistSet::empty();
        }
        let le = PermutationLut::new(&e);
        let lr = PermutationLut::new(&rr);
        let ae = le.allowed_twists();
        let ar = lr.allowed_twists();
        let mut r = TwistSet::empty();
        let mut k: u8 = 0;
        while k < 184
            invariant
                0 <= k <= 184,
                e@ == edge_points(),
                rr@ == ridge_points(),
                e@.len() <= 32,
                rr@.len() <= 32,
                le.describes(e@),
                lr.describes(rr@),
                forall|i: int| 0 <= i < 184 ==> #[trigger] ae.has(i) == le.table@[i] is Some,
                forall|i: int| 0 <= i < 184 ==> #[trigger] ar.has(i) == lr.table@[i] is Some,
                forall|i: int| 0 <= i < 184 ==> #[trigger] r.has(i) == (i < k && Self::can_twist(Twist::spec_from_index(i))),
            decreases 184 - k,
        {
            let t = Twist::from_index(k);
            if ae.contains(t) && ar.contains(t) {
                proof {
                    assert(ae.has(k as int) && ar.has(k as int));
                    assert(le.table@[k as int] is Some);
                    let row_e = le.table@[k as int]->0;
                    let row_r = lr.table@[k as int]->0;
                    assert(is_twist_row(edge_points(), t, row_e@));
                    assert(is_twist_row(ridge_points(), t, row_r@));
                }
                r.insert(t);
            } else {
                proof {
                    assert(t == Twist::spec_from_index(k as int));
                }
            }
            k = k + 1;
        }
        r
    }

    /// No rotation follows a twist.
    open spec fn rotation_after(twist: Twist) -> int {
        0
    }

    /// Returns the identity: no rotation follows a twist.
    fn implicit_rotation_after_twist(twist: Twist) -> (r: XyRot) {
        XyRot::ident()
    }

    open spec fn moved(self, twist: Twist, next: Self) -> bool {
        &&& moves_fields(self.e as u128, next.e as u128, edge_points(), twist, 1, 0, FieldRule::Keep)
        &&& moves_fields(self.r as u128, next.r as u128, ridge_points(), twist, 2, 0, FieldRule::RidgeXyz)
        &&& forall|t: int| 2 * ridge_points().len() <= t < 64 ==> #[trigger] bit(next.r as u128, t as u128) == bit(self.r as u128, t as u128)
    }

    /// Moves the edge bits and the ridge bits as the twist moves the pieces,
    /// updating the ridge orientations (see [`xyz_ro`]).
    fn do_twist(self, twist: Twist) -> (r: Self)
    {
        let e_points = edges();
        let r_points = ridges();
        proof {
            lemma_piece_points(3);
            lemma_piece_points(2);
        }
        let e = match twist_fields(self.e as u128, &e_points, twist, 1, 0, FieldRule::Keep) {
            Some(y) => y,
            None => {
                assert(false);
                0
            },
        };
        let r = match twist_fields(self.r as u128, &r_points, twist, 2, 0, FieldRule::RidgeXyz) {
            Some(y) => y,
            None => {
                assert(false);
                0
            },
        };
        proof {
            assert forall|row: Seq<usize>| #[trigger] is_twist_row(edge_points(), twist, row) implies forall|i: int|
                0 <= i < edge_points().len() ==> field(
                    (e as u32) as u128,
                    field_pos(0, #[trigger] row[i] as int, 1) as u128,
                    1,
                ) == field(e, field_pos(0, row[i] as int, 1) as u128, 1) by {
                assert forall|i: int| 0 <= i < edge_points().len() implies field(
                    (e as u32) as u128,
                    field_pos(0, #[trigger] row[i] as int, 1) as u128,
                    1,
                ) == field(e, field_pos(0, row[i] as int, 1) as u128, 1) by {
                    lemma_truncate_u32(e, row[i] as u128, 1);
                }
            }
            assert forall|row: Seq<usize>| #[trigger] is_twist_row(ridge_points(), twist, row) implies forall|i: int|
                0 <= i < ridge_points().len() ==> field(
                    (r as u64) as u128,
                    field_pos(0, #[trigger] row[i] as int, 2) as u128,
                    2,
                ) == field(r, field_pos(0, row[i] as int, 2) as u128, 2) by {
                assert forall|i: int| 0 <= i < ridge_points().len() implies field(
                    (r as u64) as u128,
                    field_pos(0, #[trigger] row[i] as int, 2) as u128,
                    2,
                ) == field(r, field_pos(0, row[i] as int, 2) as u128, 2) by {
                    lemma_truncate_u64(r, (2 * row[i]) as u128, 2);
                }
            }
            assert forall|t: int| 2 * ridge_points().len() <= t < 64 implies #[trigger] bit((r as u64) as u128, t as u128)
                == bit(self.r as u128, t as u128) by {
                lemma_truncate_u64(r, t as u128, 1);
            }
        }
        let res = Stage1 { e: e as u32, r: r as u64 };
        assert(Self::moved(self, twist, res));
        res
    }

    open spec fn represents(pieces: Seq<(Vec4, Mat4)>, s: Self) -> bool {
        &&& s.e == pack_bits(all_values(pieces, seq![PieceType::Edge], any_position(), s1_edge_fn()), 1) as u32
        &&& s.r == pack_bits(all_values(pieces, seq![PieceType::Ridge], any_position(), s1_ridge_fn()), 2)
    }

    /// The edge bits and the ridge bits of the pieces (see [`s1_edge_fn`] and
    /// [`s1_ridge_fn`]), in slot order.
    fn from_state(state: SimplePuzzleSim) -> (r: Self)
        ensures
            r.e == pack_bits(all_values(state.pieces@, seq![PieceType::Edge], any_position(), s1_edge_fn()), 1) as u32,
            r.r == pack_bits(all_values(state.pieces@, seq![PieceType::Ridge], any_position(), s1_ridge_fn()), 2),
    {
        let keep = |v: Vec4| -> (b: bool)
            ensures
                b == any_position()(v),
        { true };
        let edge_bit = |init: Vec4, att: Mat4| -> (x: u64)
            ensures
                x == s1_edge_fn()(init, att),
        {
            if init.0[0] == 0 {
                1
            } else {
                0
            }
        };
        let edge_types = [PieceType::Edge];
        assert(edge_types@ =~= seq![PieceType::Edge]);
        let e = state.pieces_to_bits(1, &edge_types, keep, edge_bit);
        let ridge_bits = |init: Vec4, att: Mat4| -> (x: u64)
            requires
                init.in_cube(),
                att.is_perm(),
                init.spec_taxicab_norm() == 2,
            ensures
                x == s1_ridge_fn()(init, att),
        {
            proof {
                if init == Vec4([0i8, 0i8, 0i8, 0i8]) {
                    reveal_with_fuel(Vec4::partial_norm, 5);
                }
            }
            let o: u8 = if init.0[0] == 0 {
                3
            } else {
                1
            };
            xyz_ro(att, init, o) as u64
        };
        let ridge_types = [PieceType::Ridge];
        assert(ridge_types@ =~= seq![PieceType::Ridge]);
        let r = state.pieces_to_bits(2, &ridge_types, keep, ridge_bits);
        proof {
            assert(crate::puzzle::sim::closures_compute(keep, edge_bit, any_position(), s1_edge_fn()));
            assert(crate::puzzle::sim::closures_compute(keep, ridge_bits, any_position(), s1_ridge_fn()));
        }
        let res = Stage1 { e: e as u32, r };
        assert(Self::represents(state.pieces@, res));
        res
    }
}

impl SubsetMaskStage for Stage1 {
    /// The bits of [`Stage1TrieKey`].
    open spec fn spec_key_bits() -> u32 {
        80
    }

    /// The edge bits, then the ridge bits from bit 32.
    open spec fn spec_subset_trie_key(self) -> u128 {
        self.e as u128 | ((self.r as u128) << 32u128)
    }

    /// The target state: the target bits set.
    open spec fn spec_target() -> Self {
        Stage1 { e: Self::TARGET_E, r: Self::TARGET_R }
    }

    fn subset_trie_key_bits() -> (r: u32) {
        Stage1TrieKey::BITS as u32
    }

    fn subset_trie_key(self) -> (r: u128) {
        Stage1TrieKey::from(self).0
    }

    fn subset_trie_target() -> (r: Self) {
        Stage1 { e: Self::TARGET_E, r: Self::TARGET_R }
    }
}

/// Key of a stage 1 state in a subset trie: the edge bits, then the ridge
/// bits from bit 32.
#[derive(Debug, Default, Copy, Clone, PartialEq, Eq, Structural, Hash, PartialOrd, Ord)]
pub struct Stage1TrieKey(pub u128);

impl Stage1TrieKey {
    /// Number of bits of a key.
    pub const BITS: u8 = 80;

    /// Returns the key of a state.
    pub fn from(state: Stage1) -> (r: Self)
        ensures
            r.0 == state.e as u128 | ((state.r as u128) << 32),
    {
        Stage1TrieKey(state.e as u128 | ((state.r as u128) << 32))
    }

    /// Returns the lowest bit.
    pub fn lsb(self) -> (r: bool)
        ensures
            r == (self.0 & 1 != 0),
    {
        self.0 & 1 != 0
    }

    /// Returns whether the key has every bit of `entry_key` set.
    pub fn matches(self, entry_key: Self, bit_count: u8) -> (r: bool)
        ensures
            r == (self.0 & entry_key.0 == entry_key.0),
    {
        self.0 & entry_key.0 == entry_key.0
    }

    /// Returns the key without its `bit_count` lowest bits.
    pub fn skip(self, bit_count: u8) -> (r: Self)
        requires
            bit_count < 128,
        ensures
            r.0 == self.0 >> bit_count,
    {
        Stage1TrieKey(self.0 >> bit_count)
    }

    /// Returns the `bit_count` lowest bits of the key.
    pub fn truncate(self, bit_count: u8) -> (r: Self)
        requires
            bit_count < 128,
        ensures
            r.0 == self.0 & (((1u128 << bit_count) - 1) as u128),
    {
        proof {
            assert((1u128 << bit_count) >= 1) by (bit_vector)
                requires
                    bit_count < 128,
            ;
        }
        Stage1TrieKey(self.0 & ((1u128 << bit_count) - 1))
    }

    /// Returns which branches a lookup follows: the `0` branch always, the
    /// `1` branch if the lowest bit is set.
    pub fn branches(self) -> (r: [bool; 2])
        ensures
            r[0],
            r[1] == (self.0 & 1 != 0),
    {
        [true, self.lsb()]
    }

    /// Returns the number of low bits on which the two keys agree (128 if
    /// they are equal).
    pub fn common_lsb_prefix(self, other: Self) -> (r: u8)
        ensures
            r <= 128,
            forall|t: int| 0 <= t < r ==> #[trigger] bit(self.0, t as u128) == bit(other.0, t as u128),
            r < 128 ==> bit(self.0, r as u128) != bit(other.0, r as u128),
    {
        let x = self.0 ^ other.0;
        let mut n: u8 = 0;
        while n < 128 && (x >> n) & 1 == 0
            invariant
                0 <= n <= 128,
                x == self.0 ^ other.0,
                forall|t: int| 0 <= t < n ==> #[trigger] bit(self.0, t as u128) == bit(other.0, t as u128),
            decreases 128 - n,
        {
            proof {
                let a = self.0;
                let b = other.0;
                let nn = n as u128;
                assert(((a ^ b) >> nn) & 1 == 0 ==> bit(a, nn) == bit(b, nn)) by (bit_vector)
                    requires
                        nn < 128,
                ;
            }
            n = n + 1;
        }
        proof {
            if n < 128 {
                let a = self.0;
                let b = other.0;
                let nn = n as u128;
                assert(((a ^ b) >> nn) & 1 != 0 ==> bit(a, nn) != bit(b, nn)) by (bit_vector)
                    requires
                        nn < 128,
                ;
            }
        }
        n
    }
}

} // verus!
