//! Stage 4 of the P/I/O method: `P` separation and `I`/`O` edge and corner
//! orientation of the last block, with a rotation of the whole puzzle after
//! some twists.
use vstd::prelude::*;

use super::s1_mid::{edge_points, ridge_points};
use super::s2_pio::{io_edge_bits, pio_edge_fn, pio_ridge_fn};
use super::s3_count::corner_points;
use super::slots::{check_slots, concat_points, filter_points, filter_pos, slots_ok};
use super::{twists_upto, Stage, StageKeyU64};
use crate::action::{acts_fields, action_fields, action_row, check_cube_slots, cube_slots, has_action_row};
use crate::bits::{bit, field, lemma_low_fields_eq, lemma_low_mask_step, lemma_truncate_u64};
use crate::action::is_action_row;
use crate::prune::map::key_injective;
use crate::prune::table::moves_deterministic;
use crate::puzzle::piece_type::{cube_points, filter_norm};
use crate::puzzle::sim::lemma_cube_point;
use crate::stages::tracking::{cube_off_digits, lemma_indices_onto};
use crate::codegen::{corners, edges, ridges};
use crate::linalg::facet::facet_of;
use crate::linalg::{Axis, Facet, Mat4, Vec4};
use crate::permutation::{field_pos, FieldRule};
use crate::puzzle::sim::{all_values, current_pos, pack_bits, SimplePuzzleSim};
use crate::puzzle::{PieceType, Twist, TwistSet};
use crate::xy_rot::{lemma_xy_mat_perm, lemma_xy_mat_views, xy_mat, XyRot};
use crate::puzzle::twist_data::{slot_of_rank, twist_cols};
use crate::linalg::mat4::ident_cols;

verus! {

/// Whether a position is in the `F` cell or on the `UO` ridge line (the part
/// that this stage tracks).
pub open spec fn in_psio() -> spec_fn(Vec4) -> bool {
    |v: Vec4| v.0[2] == 1 || (v.0[3] == 1 && v.0[1] == 1)
}

/// The corner slots, then the edge slots, of the stage.
pub open spec fn psio_pieces() -> Seq<Vec4> {
    filter_pos(corner_points(), in_psio()) + filter_pos(edge_points(), in_psio())
}

/// The ridge slots of the stage.
pub open spec fn psio_ridges() -> Seq<Vec4> {
    filter_pos(ridge_points(), in_psio())
}

/// Corner and edge bits: for a corner, the axis that its attitude takes W
/// to; for an edge, see [`pio_edge_fn`].
pub open spec fn psio_piece_fn() -> spec_fn(Vec4, Mat4) -> u64 {
    |init: Vec4, att: Mat4|
        if init.spec_taxicab_norm() == 3 {
            pio_edge_fn()(init, att)
        } else {
            (att@[3] / 2) as u64
        }
}

/// The rotation of the whole puzzle that follows a twist: `Err` for a
/// twist that the stage refuses, `Ok(None)` for none.
///
/// `F` twists turn the whole `F` cell and need none; so do the `I` twists
/// that keep `F`. An `O` twist that keeps `F` is undone on the whole puzzle;
/// one that takes `U` to `F` is followed by the XY rotation that brings the
/// `UO` block back (none if `F` goes to `U`; refused if `F` goes to `O` or
/// `I`). Every other twist is refused.
pub open spec fn spec_rotation_applied(t: Twist) -> Result<Option<Mat4>, ()> {
    let f = t.idx() / 23;
    let rot = t.spec_rot();
    let new_f = rot.apply_idx(4);
    let new_u = rot.apply_idx(2);
    if f == 4 {
        Ok(None)
    } else if f == 7 && new_f == 4 {
        Ok(None)
    } else if f == 6 {
        if new_f == 4 {
            Ok(Some(rot.spec_inv()))
        } else if new_u == 4 {
            if new_f == 2 {
                Ok(None)
            } else if new_f == 0 || new_f == 1 {
                Ok(Some(facet_of(new_f).spec_mat4_to(Facet::U)))
            } else if new_f == 3 {
                Ok(Some(xy_mat(2)))
            } else {
                Err(())
            }
        } else {
            Err(())
        }
    } else {
        Err(())
    }
}

/// The matrix of the rotation that follows a twist (the identity for none).
pub open spec fn extra_rotation(t: Twist) -> Mat4 {
    match spec_rotation_applied(t) {
        Ok(Some(m)) => m,
        _ => Mat4::spec_ident(),
    }
}

/// The first power of `rot(X, Y)` from `p` on (below 4) whose matrix is `m`,
/// or 0 if there is none.
pub open spec fn xy_pow_of(m: Mat4, p: int) -> int
    decreases 4 - p,
{
    if p >= 4 {
        0
    } else if xy_mat(p) == m {
        p
    } else {
        xy_pow_of(m, p + 1)
    }
}

/// Returns the rotation of the whole puzzle that follows a twist (see
/// [`spec_rotation_applied`]).
pub fn rotation_applied_after_twist(twist: Twist) -> (r: Result<Option<Mat4>, ()>)
    ensures
        r == spec_rotation_applied(twist),
{
    let f = twist.facet().to_u8();
    let rot = twist.rot();
    let new_f = Facet::F.transform_by(rot).to_u8();
    let new_u = Facet::U.transform_by(rot).to_u8();
    if f == 4 {
        Ok(None)
    } else if f == 7 && new_f == 4 {
        Ok(None)
    } else if f == 6 {
        if new_f == 4 {
            Ok(Some(rot.inv()))
        } else if new_u == 4 {
            if new_f == 2 {
                Ok(None)
            } else if new_f == 0 || new_f == 1 {
                let m = Facet::from_u8(new_f).mat4_to(Facet::U);
                proof {
                    use_type_invariant(&m);
                    facet_of(new_f as int).lemma_mat4_to(Facet::U);
                    Mat4::lemma_ext(m, facet_of(new_f as int).spec_mat4_to(Facet::U));
                }
                Ok(Some(m))
            } else if new_f == 3 {
                Ok(Some(Mat4::rot(Axis::X, Axis::Y).pow(2)))
            } else {
                Err(())
            }
        } else {
            Err(())
        }
    } else {
        Err(())
    }
}

/// Returns whether the columns of a matrix lie on four different axes.
fn check_perm(m: Mat4) -> (r: bool)
    ensures
        r == m.is_perm(),
{
    let a = m.col(Axis::X).axis().to_u8();
    let b = m.col(Axis::Y).axis().to_u8();
    let c = m.col(Axis::Z).axis().to_u8();
    let d = m.col(Axis::W).axis().to_u8();
    a != b && a != c && a != d && b != c && b != d && c != d
}

/// Stage 4 of the P/I/O method: `P` separation and `I`/`O` edge and corner
/// orientation.
///
/// ## Invariants
///
/// - All `I`/`O` ridges must remain oriented.
/// - All pieces outside the `F` cell and the `UO` ridge line must remain
///   oriented and `P`-separated.
///
/// ## Move set
///
/// All `F` twists; `IF`, `IF2` and `IB`; `OF`, `OF2` and `OB`; and some `O`
/// twists followed by a rotation of the whole puzzle (see
/// [`spec_rotation_applied`]).
///
/// ## Target
///
/// - All `P` pieces are in `P`, and all `I`/`O` pieces are in `I`/`O` and
///   `I`/`O`-oriented.
#[derive(Debug, Copy, Clone, PartialEq, Eq, Structural, Hash)]
pub struct Stage4 {
    /// For each tracked corner, then each tracked edge, 2 bits (see
    /// [`psio_piece_fn`]); then from bit 50, for each tracked ridge, 1 bit:
    /// `1` = belongs in `I`/`O`.
    pub bits: u64,
}

impl Stage4 {
    /// Bits of the solved state.
    pub const SOLVED_BITS: u64 = 0x01855550055fffff;

    /// The solved state.
    pub fn solved() -> (r: Self)
        ensures
            r.bits == Self::SOLVED_BITS,
    {
        Stage4 { bits: Self::SOLVED_BITS }
    }

    /// Returns whether the state is the target.
    pub fn is_target_solved(self, target: Self) -> (r: bool)
        ensures
            r == (self.bits == target.bits),
    {
        self.bits == target.bits
    }

    /// Returns the corner slots, then the edge slots.
    fn piece_slots() -> (r: Vec<Vec4>)
        ensures
            r@ == psio_pieces(),
    {
        let pred = |v: Vec4| -> (b: bool)
            ensures
                b == in_psio()(v),
        { v.0[2] == 1 || (v.0[3] == 1 && v.0[1] == 1) };
        let c = corners();
        let e = edges();
        let fc = filter_points(&c, pred, Ghost(in_psio()));
        let fe = filter_points(&e, pred, Ghost(in_psio()));
        concat_points(&fc, &fe)
    }

    /// Returns the ridge slots.
    fn ridge_slots() -> (r: Vec<Vec4>)
        ensures
            r@ == psio_ridges(),
    {
        let pred = |v: Vec4| -> (b: bool)
            ensures
                b == in_psio()(v),
        { v.0[2] == 1 || (v.0[3] == 1 && v.0[1] == 1) };
        let rr = ridges();
        filter_points(&rr, pred, Ghost(in_psio()))
    }

    /// Returns the matrix of the rotation that follows an accepted twist.
    fn extra_matrix(twist: Twist) -> (r: Mat4)
        requires
            spec_rotation_applied(twist) is Ok,
        ensures
            r == extra_rotation(twist),
    {
        match rotation_applied_after_twist(twist) {
            Ok(Some(m)) => m,
            _ => Mat4::ident(),
        }
    }
}

impl Default for Stage4 {
    fn default() -> (r: Self)
        ensures
            r.bits == Self::SOLVED_BITS,
    {
        Self::solved()
    }
}

impl Stage for Stage4 {
    /// Every tracked piece outside the `F` cell and the `UO` ridge line
    /// (every corner and edge whose current position is not in the tracked
    /// part) keeps its `I`/`O` sticker on W.
    open spec fn accepts(pieces: Seq<(Vec4, Mat4)>) -> bool {
        forall|i: int|
            0 <= i < pieces.len() && !in_psio()(current_pos(#[trigger] pieces[i])) && current_pos(
                pieces[i],
            ).spec_taxicab_norm() >= 3 ==> pieces[i].1@[3] / 2 == 3
    }

    open spec fn can_twist(twist: Twist) -> bool {
        &&& spec_rotation_applied(twist) is Ok
        &&& extra_rotation(twist).is_perm()
        &&& psio_pieces().len() <= 25
        &&& psio_ridges().len() <= 14
        &&& cube_slots(psio_pieces())
        &&& cube_slots(psio_ridges())
        &&& slots_ok(psio_pieces(), FieldRule::EdgeOrCornerX, 2)
        &&& slots_ok(psio_ridges(), FieldRule::Keep, 1)
        &&& has_action_row(psio_pieces(), twist, extra_rotation(twist))
        &&& has_action_row(psio_ridges(), twist, extra_rotation(twist))
    }

    /// The power of the XY rotation whose matrix follows the twist (0 if
    /// none does).
    open spec fn rotation_after(twist: Twist) -> int {
        xy_pow_of(extra_rotation(twist), 0)
    }

    /// Returns the XY rotation whose matrix follows the twist.
    fn implicit_rotation_after_twist(twist: Twist) -> (r: XyRot) {
        let m = match rotation_applied_after_twist(twist) {
            Ok(Some(m)) => m,
            _ => Mat4::ident(),
        };
        let mut p: u8 = 0;
        while p < 4
            invariant
                0 <= p <= 4,
                m == extra_rotation(twist),
                xy_pow_of(m, p as int) == xy_pow_of(m, 0),
            decreases 4 - p,
        {
            let r = XyRot::from_pow(p);
            if r.mat4() == m {
                return r;
            }
            p = p + 1;
        }
        XyRot::ident()
    }

    /// Returns the twists that the stage accepts and that keep the tracked
    /// pieces among the tracked slots.
    fn twists() -> (r: TwistSet)
        ensures
            forall|i: int| 0 <= i < 184 ==> #[trigger] r.has(i) == Self::can_twist(Twist::spec_from_index(i)),
    {
        let ps = Self::piece_slots();
        let rs = Self::ridge_slots();
        if ps.len() > 25 || rs.len() > 14 || !check_cube_slots(&ps) || !check_cube_slots(&rs) || !check_slots(
            &ps,
            FieldRule::EdgeOrCornerX,
            2,
        ) || !check_slots(&rs, FieldRule::Keep, 1) {
            let r = TwistSet::empty();
            assert forall|i: int| 0 <= i < 184 implies #[trigger] r.has(i) == Self::can_twist(
                Twist::spec_from_index(i),
            ) by {
                assert(!Self::can_twist(Twist::spec_from_index(i)));
            }
            return r;
        }
        let mut r = TwistSet::empty();
        let mut k: u8 = 0;
        while k < 184
            invariant
                0 <= k <= 184,
                ps@ == psio_pieces(),
                rs@ == psio_ridges(),
                ps@.len() <= 25,
                rs@.len() <= 14,
                cube_slots(ps@),
                cube_slots(rs@),
                slots_ok(ps@, FieldRule::EdgeOrCornerX, 2),
                slots_ok(rs@, FieldRule::Keep, 1),
                forall|i: int|
                    0 <= i < 184 ==> #[trigger] r.has(i) == (i < k && Self::can_twist(Twist::spec_from_index(i))),
            decreases 184 - k,
        {
            let t = Twist::from_index(k);
            match rotation_applied_after_twist(t) {
                Err(()) => {},
                Ok(_) => {
                    let m = Self::extra_matrix(t);
                    if check_perm(m) && action_row(&ps, t, m).is_some() && action_row(&rs, t, m).is_some() {
                        r.insert(t);
                    }
                },
            }
            k = k + 1;
        }
        r
    }

    open spec fn moved(self, twist: Twist, next: Self) -> bool {
        &&& acts_fields(
            self.bits as u128,
            next.bits as u128,
            psio_pieces(),
            twist,
            extra_rotation(twist),
            2,
            0,
            FieldRule::EdgeOrCornerX,
        )
        &&& acts_fields(
            self.bits as u128,
            next.bits as u128,
            psio_ridges(),
            twist,
            extra_rotation(twist),
            1,
            50,
            FieldRule::Keep,
        )
        &&& forall|t: int| 50 + psio_ridges().len() <= t < 64 ==> #[trigger] bit(next.bits as u128, t as u128) == bit(
            self.bits as u128,
            t as u128,
        )
    }

    /// Moves the ridge bits, and the corner and edge bits, as the twist and
    /// the rotation after it move the pieces, updating the corner and edge
    /// orientations with the matrix that turns each piece.
    fn do_twist(self, twist: Twist) -> (res: Self) {
        let ps = Self::piece_slots();
        let rs = Self::ridge_slots();
        let m = Self::extra_matrix(twist);
        let y1 = match action_fields(self.bits as u128, &rs, twist, m, 1, 50, FieldRule::Keep) {
            Some(y) => y,
            None => {
                assert(false);
                0
            },
        };
        let y2 = match action_fields(y1, &ps, twist, m, 2, 0, FieldRule::EdgeOrCornerX) {
            Some(y) => y,
            None => {
                assert(false);
                0
            },
        };
        let res = Stage4 { bits: y2 as u64 };
        proof {
            lemma_pieces_moved(self.bits as u128, y1, y2, twist, m);
            lemma_ridges_moved(self.bits as u128, y1, y2, twist, m);
        }
        assert(Self::moved(self, twist, res));
        res
    }

    open spec fn represents(pieces: Seq<(Vec4, Mat4)>, s: Self) -> bool {
        s.bits == pack_bits(
            all_values(pieces, seq![PieceType::Corner, PieceType::Edge], in_psio(), psio_piece_fn()),
            2,
        ) | (pack_bits(all_values(pieces, seq![PieceType::Ridge], in_psio(), pio_ridge_fn()), 1) << 50u64)
    }

    /// The corner and edge bits (see [`psio_piece_fn`]) of the pieces in the
    /// tracked part, then from bit 50 their ridge bits.
    fn from_state(state: SimplePuzzleSim) -> (res: Self) {
        let keep = |v: Vec4| -> (b: bool)
            ensures
                b == in_psio()(v),
        { v.0[2] == 1 || (v.0[3] == 1 && v.0[1] == 1) };
        let piece_bits = |init: Vec4, att: Mat4| -> (x: u64)
            requires
                init.in_cube(),
                att.is_perm(),
            ensures
                x == psio_piece_fn()(init, att),
        {
            if init.taxicab_norm() == 3 {
                io_edge_bits(init, att)
            } else {
                Axis::W.transform_by(att).to_u8() as u64
            }
        };
        let ridge_bit = |init: Vec4, att: Mat4| -> (x: u64)
            ensures
                x == pio_ridge_fn()(init, att),
        {
            if init.0[3] != 0 {
                1
            } else {
                0
            }
        };
        let piece_types = [PieceType::Corner, PieceType::Edge];
        assert(piece_types@ =~= seq![PieceType::Corner, PieceType::Edge]);
        let ridge_types = [PieceType::Ridge];
        assert(ridge_types@ =~= seq![PieceType::Ridge]);
        let p = state.pieces_to_bits(2, &piece_types, keep, piece_bits);
        let r = state.pieces_to_bits(1, &ridge_types, keep, ridge_bit);
        proof {
            assert(crate::puzzle::sim::closures_compute(keep, piece_bits, in_psio(), psio_piece_fn()));
            assert(crate::puzzle::sim::closures_compute(keep, ridge_bit, in_psio(), pio_ridge_fn()));
        }
        let res = Stage4 { bits: p | (r << 50) };
        assert(Self::represents(state.pieces@, res));
        res
    }
}

/// The piece fields of the state after both steps of a twist are those
/// that the second step wrote.
proof fn lemma_pieces_moved(x: u128, y1: u128, y2: u128, t: Twist, m: Mat4)
    requires
        psio_pieces().len() <= 25,
        forall|u: int| 0 <= u < 128 && (u < 50 || u >= 50 + psio_ridges().len()) ==> #[trigger] bit(y1, u as u128) == bit(x, u as u128),
        psio_ridges().len() <= 14,
        acts_fields(y1, y2, psio_pieces(), t, m, 2, 0, FieldRule::EdgeOrCornerX),
    ensures
        acts_fields(x, (y2 as u64) as u128, psio_pieces(), t, m, 2, 0, FieldRule::EdgeOrCornerX),
{
    let ps = psio_pieces();
    assert forall|row: Seq<usize>| #[trigger] crate::action::is_action_row(ps, t, m, row) implies forall|i: int|
        0 <= i < ps.len() ==> field(
            (y2 as u64) as u128,
            field_pos(0, #[trigger] row[i] as int, 2) as u128,
            2,
        ) == crate::action::action_value(
            FieldRule::EdgeOrCornerX,
            t,
            m,
            ps[i],
            field(x, field_pos(0, i, 2) as u128, 2),
        ) by {
        assert forall|i: int| 0 <= i < ps.len() implies field(
            (y2 as u64) as u128,
            field_pos(0, #[trigger] row[i] as int, 2) as u128,
            2,
        ) == crate::action::action_value(
            FieldRule::EdgeOrCornerX,
            t,
            m,
            ps[i],
            field(x, field_pos(0, i, 2) as u128, 2),
        ) by {
            lemma_truncate_u64(y2, (2 * row[i]) as u128, 2);
            lemma_low_fields_kept(x, y1, 2 * i);
        }
    }
}

/// The ridge fields of the state after both steps of a twist are those
/// that the first step wrote, which the second step keeps.
proof fn lemma_ridges_moved(x: u128, y1: u128, y2: u128, t: Twist, m: Mat4)
    requires
        psio_ridges().len() <= 14,
        acts_fields(x, y1, psio_ridges(), t, m, 1, 50, FieldRule::Keep),
        forall|u: int| 0 <= u < 128 && (u < 0 || u >= 50) ==> #[trigger] bit(y2, u as u128) == bit(y1, u as u128),
        forall|u: int| 0 <= u < 128 && (u < 50 || u >= 50 + psio_ridges().len()) ==> #[trigger] bit(y1, u as u128) == bit(x, u as u128),
    ensures
        acts_fields(x, (y2 as u64) as u128, psio_ridges(), t, m, 1, 50, FieldRule::Keep),
        forall|u: int| 50 + psio_ridges().len() <= u < 64 ==> #[trigger] bit((y2 as u64) as u128, u as u128) == bit(
            x,
            u as u128,
        ),
{
    let rs = psio_ridges();
    assert forall|row: Seq<usize>| #[trigger] crate::action::is_action_row(rs, t, m, row) implies forall|i: int|
        0 <= i < rs.len() ==> field(
            (y2 as u64) as u128,
            field_pos(50, #[trigger] row[i] as int, 1) as u128,
            1,
        ) == crate::action::action_value(FieldRule::Keep, t, m, rs[i], field(x, field_pos(50, i, 1) as u128, 1)) by {
        assert forall|i: int| 0 <= i < rs.len() implies field(
            (y2 as u64) as u128,
            field_pos(50, #[trigger] row[i] as int, 1) as u128,
            1,
        ) == crate::action::action_value(FieldRule::Keep, t, m, rs[i], field(x, field_pos(50, i, 1) as u128, 1)) by {
            let s = (50 + row[i]) as u128;
            assert(bit(y2, s) == bit(y1, s));
            lemma_truncate_u64(y2, s, 1);
            lemma_field_one(y2, s);
            lemma_field_one(y1, s);
        }
    }
    assert forall|u: int| 50 + rs.len() <= u < 64 implies #[trigger] bit((y2 as u64) as u128, u as u128) == bit(
        x,
        u as u128,
    ) by {
        lemma_truncate_u64(y2, u as u128, 1);
        assert(bit(y2, u as u128) == bit(y1, u as u128));
    }
}

/// Whether the position of number `i` (below 81) is in the tracked part.
pub open spec fn psio_digit(i: int) -> bool {
    (i / 9) % 3 == 2 || (i / 27 == 2 && (i / 3) % 3 == 2)
}

/// Number of `i` below `k` whose position has norm `n` and is tracked.
pub open spec fn count_psio(n: int, k: int) -> int
    decreases k,
{
    if k <= 0 {
        0
    } else {
        count_psio(n, k - 1) + if cube_off_digits(k - 1) == n && psio_digit(k - 1) {
            1int
        } else {
            0int
        }
    }
}

/// The tracked positions of norm `n` among the first `k` are counted by
/// [`count_psio`].
#[verifier::spinoff_prover]
#[verifier::rlimit(40)]
proof fn lemma_psio_count(n: int, k: int)
    requires
        0 <= k <= 81,
    ensures
        filter_pos(filter_norm(cube_points().take(k), n), in_psio()).len() == count_psio(n, k),
    decreases k,
{
    if k > 0 {
        lemma_psio_count(n, k - 1);
        let s = cube_points().take(k);
        assert(s.drop_last() =~= cube_points().take(k - 1));
        assert(s.last() == cube_points()[k - 1]);
        lemma_cube_point(k - 1);
        let p = cube_points()[k - 1];
        let i = k - 1;
        assert(p.0[0] == -1 + i % 3 && p.0[1] == -1 + (i / 3) % 3 && p.0[2] == -1 + (i / 9) % 3 && p.0[3] == -1
            + i / 27) by {
            crate::puzzle::sim::lemma_cube_index(p);
        }
        reveal_with_fuel(Vec4::partial_norm, 5);
        assert(p.spec_taxicab_norm() == cube_off_digits(i));
        assert(in_psio()(p) == psio_digit(i));
        let prev = filter_norm(cube_points().take(k - 1), n);
        if p.spec_taxicab_norm() == n {
            assert(prev.push(p).drop_last() =~= prev);
        }
    } else {
        assert(cube_points().take(0) =~= Seq::<Vec4>::empty());
    }
}

/// Ten of the corner positions are tracked.
#[verifier::spinoff_prover]
#[verifier::rlimit(60)]
proof fn lemma_psio_corner_total()
    ensures
        count_psio(4, 81) == 10,
{
    reveal_with_fuel(count_psio, 82);
}

/// Fifteen of the edge positions are tracked.
#[verifier::spinoff_prover]
#[verifier::rlimit(60)]
proof fn lemma_psio_edge_total()
    ensures
        count_psio(3, 81) == 15,
{
    reveal_with_fuel(count_psio, 82);
}

impl Stage4 {
    /// The stage tracks 10 corners and 15 edges: their fields fill the
    /// 50 bits below the ridge bits.
    proof fn lemma_piece_count()
        ensures
            psio_pieces().len() == 25,
    {
        lemma_psio_count(4, 81);
        lemma_psio_count(3, 81);
        assert(cube_points().take(81) =~= cube_points());
        lemma_psio_corner_total();
        lemma_psio_edge_total();
    }

    /// Two states that a twist can lead to from one state are the same.
    proof fn lemma_moved_unique(s: Stage4, t: Twist, a: Stage4, b: Stage4)
        requires
            Self::can_twist(t),
            Self::moved(s, t, a),
            Self::moved(s, t, b),
        ensures
            a == b,
    {
        Self::lemma_piece_count();
        let pp = psio_pieces();
        let pr = psio_ridges();
        let e = extra_rotation(t);
        let x = a.bits as u128;
        let y = b.bits as u128;
        let row = choose|row: Seq<usize>| #[trigger] is_action_row(pp, t, e, row);
        let row2 = choose|row: Seq<usize>| #[trigger] is_action_row(pr, t, e, row);
        assert forall|j: nat| j < 25 implies field(x, (0 + j * 2) as u128, 2 as u128) == #[trigger] field(
            y,
            (0 + j * 2) as u128,
            2 as u128,
        ) by {
            lemma_indices_onto(row, 25, j as int);
            let i = choose|i: int| 0 <= i < 25 && #[trigger] row[i] == j;
            assert(field(x, field_pos(0, row[i] as int, 2) as u128, 2) == field(y, field_pos(0, row[i] as int, 2) as u128, 2));
        }
        let nr = pr.len();
        assert forall|j: nat| j < nr implies field(x, (50 + j * 1) as u128, 1 as u128) == #[trigger] field(
            y,
            (50 + j * 1) as u128,
            1 as u128,
        ) by {
            lemma_indices_onto(row2, nr as int, j as int);
            let i = choose|i: int| 0 <= i < nr && #[trigger] row2[i] == j;
            assert(field(x, field_pos(50, row2[i] as int, 1) as u128, 1) == field(y, field_pos(50, row2[i] as int, 1) as u128, 1));
        }
        assert forall|j: nat| j < 14 - nr implies field(x, ((50 + nr) + j * 1) as u128, 1 as u128) == #[trigger] field(
            y,
            ((50 + nr) + j * 1) as u128,
            1 as u128,
        ) by {
            let tt = 50 + nr + j;
            lemma_low_mask_step(x, tt as u128, 1);
            lemma_low_mask_step(y, tt as u128, 1);
            assert(bit(x, tt as u128) == bit(s.bits as u128, tt as u128));
            assert(bit(y, tt as u128) == bit(s.bits as u128, tt as u128));
        }
        lemma_low_mask_step(x, 0, 1);
        lemma_low_mask_step(y, 0, 1);
        lemma_low_fields_eq(x, y, 0, 2, 25);
        lemma_low_fields_eq(x, y, 50, 1, nr);
        lemma_low_fields_eq(x, y, (50 + nr) as nat, 1, (14 - nr) as nat);
        assert(x == y);
    }

    /// A twist leads from a state to one state only.
    pub proof fn law_moves_deterministic()
        ensures
            moves_deterministic::<Stage4>(),
    {
        assert forall|s: Stage4, t: Twist, a: Stage4, b: Stage4|
            Self::can_twist(t) && #[trigger] Self::moved(s, t, a) && #[trigger] Self::moved(s, t, b) implies a == b by {
            Self::lemma_moved_unique(s, t, a, b);
        }
    }

    /// Different states have different keys.
    pub proof fn law_key_injective()
        ensures
            key_injective::<Stage4>(),
    {
    }
}

/// The rotation of every `O` twist that keeps `F` turns the X and Y axes
/// only, as one of the three nontrivial XY rotations.
proof fn lemma_o_twist_cols(k: int)
    requires
        0 <= k < 23,
    ensures
        twist_cols(6, k)[2] == 4 ==> twist_cols(6, k)[3] == 6 && ((twist_cols(6, k)[0] == 2 && twist_cols(6, k)[1] == 1) || (
        twist_cols(6, k)[0] == 1 && twist_cols(6, k)[1] == 3) || (twist_cols(6, k)[0] == 3 && twist_cols(6, k)[1] == 0)),
{
    let kk = slot_of_rank(k);
    let p = kk / 4;
    let j = kk % 4;
    assert(0 <= p < 6 && 0 <= j < 4);
    assert(kk != 16);
}

/// Whether `m` is one of the four XY rotations, as its columns.
spec fn xy_cols(m: Seq<int>) -> bool {
    ||| m == seq![0int, 2int, 4int, 6int]
    ||| m == seq![2int, 1int, 4int, 6int]
    ||| m == seq![1int, 3int, 4int, 6int]
    ||| m == seq![3int, 0int, 4int, 6int]
}

/// A well-formed matrix with the columns of an XY rotation is that rotation,
/// and the first power of `rot(X, Y)` that equals it is its power.
proof fn lemma_xy_found(m: Mat4)
    requires
        m.wf(),
        xy_cols(m@),
    ensures
        0 <= xy_pow_of(m, 0) < 4,
        xy_mat(xy_pow_of(m, 0)) == m,
        m.spec_det() == 1,
{
    lemma_xy_mat_views();
    if m@ == seq![0int, 2int, 4int, 6int] {
        Mat4::lemma_ext(m, xy_mat(0));
    } else if m@ == seq![2int, 1int, 4int, 6int] {
        Mat4::lemma_ext(m, xy_mat(1));
    } else if m@ == seq![1int, 3int, 4int, 6int] {
        Mat4::lemma_ext(m, xy_mat(2));
    } else {
        Mat4::lemma_ext(m, xy_mat(3));
    }
    reveal_with_fuel(xy_pow_of, 5);
}

/// Every rotation that stage 4 applies after a twist that it accepts is a
/// rotation of the whole puzzle (determinant 1) in the XY plane: the power
/// of `rot(X, Y)` that [`Stage::rotation_after`] gives. In particular an `O`
/// twist that takes `U` to `F` and `F` to `L` (or `R`) is followed by the XY
/// rotation that takes `L` (or `R`) back to `U`. After any accepted `O` twist
/// that takes `U` to `F`, the twist and the rotation together take `F` to
/// `U`; after one that keeps `F`, they take `U` back to `U`; no other facet's
/// twist is followed by a rotation.
pub proof fn law_rotation_after(t: Twist)
    requires
        t.inv(),
        spec_rotation_applied(t) is Ok,
    ensures
        0 <= <Stage4 as Stage>::rotation_after(t) < 4,
        extra_rotation(t) == xy_mat(<Stage4 as Stage>::rotation_after(t)),
        extra_rotation(t).spec_det() == 1,
        t.idx() / 23 == 6 && t.spec_rot().apply_idx(2) == 4 && t.spec_rot().apply_idx(4) == 1 ==> extra_rotation(
            t,
        ).apply_idx(1) == 2,
        t.idx() / 23 == 6 && t.spec_rot().apply_idx(2) == 4 && t.spec_rot().apply_idx(4) == 0 ==> extra_rotation(
            t,
        ).apply_idx(0) == 2,
        t.idx() / 23 == 6 && t.spec_rot().apply_idx(2) == 4 ==> extra_rotation(t).apply_idx(
            t.spec_rot().apply_idx(4),
        ) == 2,
        t.idx() / 23 == 6 && t.spec_rot().apply_idx(4) == 4 ==> extra_rotation(t).apply_idx(
            t.spec_rot().apply_idx(2),
        ) == 2,
        t.idx() / 23 != 6 ==> extra_rotation(t) == Mat4::spec_ident(),
{
    let i = t.idx();
    crate::puzzle::twist::lemma_twist_valid(i);
    Mat4::lemma_from_cols(twist_cols(i / 23, i % 23));
    let rot = t.spec_rot();
    let m = extra_rotation(t);
    let f = i / 23;
    let new_f = rot.apply_idx(4);
    let new_u = rot.apply_idx(2);
    if spec_rotation_applied(t) matches Ok(Some(_)) {
        if f == 6 && new_f == 4 {
            lemma_after_keep_f(t);
        } else if f == 6 && new_u == 4 && (new_f == 0 || new_f == 1) {
            lemma_after_to_u(t);
        } else {
            lemma_xy_mat_views();
            assert(m == xy_mat(2));
            assert(m.apply_idx(3) == 2);
        }
    } else {
        Mat4::lemma_ident();
        assert(m == Mat4::spec_ident());
    }
    lemma_xy_found(m);
}

/// After an `O` twist that keeps `F`, the stage undoes the twist, an XY
/// rotation.
proof fn lemma_after_keep_f(t: Twist)
    requires
        t.inv(),
        t.idx() / 23 == 6,
        t.spec_rot().apply_idx(4) == 4,
    ensures
        extra_rotation(t).wf(),
        xy_cols(extra_rotation(t)@),
        extra_rotation(t).apply_idx(t.spec_rot().apply_idx(2)) == 2,
{
    let i = t.idx();
    crate::puzzle::twist::lemma_twist_valid(i);
    Mat4::lemma_from_cols(twist_cols(i / 23, i % 23));
    let rot = t.spec_rot();
    rot.lemma_view();
    lemma_o_twist_cols(i % 23);
    assert(rot@[2] == 4);
    let inv_cols = ident_cols().update(rot@[0] / 2, 0 + rot@[0] % 2).update(rot@[1] / 2, 2 + rot@[1] % 2).update(
        rot@[2] / 2,
        4 + rot@[2] % 2,
    ).update(rot@[3] / 2, 6 + rot@[3] % 2);
    assert(rot@ == twist_cols(6, i % 23));
    assert(rot@[3] == 6);
    if rot@[0] == 2 {
        assert(inv_cols =~= seq![3int, 0int, 4int, 6int]);
    } else if rot@[0] == 1 {
        assert(inv_cols =~= seq![1int, 3int, 4int, 6int]);
    } else {
        assert(inv_cols =~= seq![2int, 1int, 4int, 6int]);
    }
    assert(xy_cols(inv_cols));
    Mat4::lemma_from_cols(inv_cols);
    assert(extra_rotation(t) == rot.spec_inv());
}

/// After an `O` twist that takes `U` to `F` and `F` to `R` or `L`, the
/// stage applies the XY rotation that takes that facet back to `U`.
proof fn lemma_after_to_u(t: Twist)
    requires
        t.inv(),
        t.idx() / 23 == 6,
        t.spec_rot().apply_idx(2) == 4,
        t.spec_rot().apply_idx(4) == 0 || t.spec_rot().apply_idx(4) == 1,
    ensures
        extra_rotation(t).wf(),
        xy_cols(extra_rotation(t)@),
        t.spec_rot().apply_idx(4) == 1 ==> extra_rotation(t).apply_idx(1) == 2,
        t.spec_rot().apply_idx(4) == 0 ==> extra_rotation(t).apply_idx(0) == 2,
{
    let new_f = t.spec_rot().apply_idx(4);
    crate::linalg::facet::lemma_facet_of_idx(facet_of(new_f));
    Mat4::lemma_rot(Axis::X, Axis::Y);
    Mat4::lemma_rot(Axis::Y, Axis::X);
    crate::linalg::axis::lemma_axis_of_idx(Axis::X);
    crate::linalg::axis::lemma_axis_of_idx(Axis::Y);
    if new_f == 0 {
        assert(extra_rotation(t) == Mat4::spec_rot(Axis::X, Axis::Y));
    } else {
        assert(extra_rotation(t) == Mat4::spec_rot(Axis::Y, Axis::X));
    }
}

impl StageKeyU64 for Stage4 {
    /// The bits.
    open spec fn spec_key(self) -> u64 {
        self.bits
    }

    /// Returns the bits.
    fn key(self) -> (r: u64) {
        self.bits
    }

    /// The solved state.
    open spec fn spec_map_start() -> Self {
        Stage4 { bits: Self::SOLVED_BITS }
    }

    /// The twists of the stage, in order of index.
    open spec fn spec_pruning_twists() -> Seq<Twist> {
        twists_upto::<Stage4>(184)
    }

    /// Returns the default (solved) state.
    fn pruning_map_start() -> (r: Self) {
        Self::default()
    }

    /// Returns the twists of the stage, in order of index.
    fn pruning_map_twists() -> (r: Vec<Twist>)
        ensures
            forall|i: int|
                0 <= i < 184 && Self::can_twist(Twist::spec_from_index(i)) ==> r@.contains(
                    #[trigger] Twist::spec_from_index(i),
                ),
            forall|a: int, b: int| 0 <= a < b < r@.len() ==> (#[trigger] r@[a]).idx() < (#[trigger] r@[b]).idx(),
    {
        let set = Self::twists();
        let mut v: Vec<Twist> = Vec::new();
        let mut k: u8 = 0;
        while k < 184
            invariant
                0 <= k <= 184,
                forall|i: int| 0 <= i < 184 ==> #[trigger] set.has(i) == Self::can_twist(Twist::spec_from_index(i)),
                forall|i: int| 0 <= i < v@.len() ==> Self::can_twist(#[trigger] v@[i]),
                forall|i: int|
                    0 <= i < k && Self::can_twist(Twist::spec_from_index(i)) ==> v@.contains(
                        #[trigger] Twist::spec_from_index(i),
                    ),
                forall|a: int, b: int| 0 <= a < b < v@.len() ==> (#[trigger] v@[a]).idx() < (#[trigger] v@[b]).idx(),
                forall|a: int| 0 <= a < v@.len() ==> (#[trigger] v@[a]).idx() < k,
                v@ == twists_upto::<Stage4>(k as int),
            decreases 184 - k,
        {
            let t = Twist::from_index(k);
            if set.contains(t) {
                assert(set.has(k as int));
                let ghost before = v@;
                v.push(t);
                proof {
                    assert(v@[before.len() as int] == t);
                    assert forall|i: int|
                        0 <= i < k + 1 && Self::can_twist(Twist::spec_from_index(i)) implies v@.contains(
                        #[trigger] Twist::spec_from_index(i),
                    ) by {
                        if i < k {
                            let w = choose|w: int| 0 <= w < before.len() && before[w] == Twist::spec_from_index(i);
                            assert(v@[w] == before[w]);
                        }
                    }
                    assert forall|a: int, b: int| 0 <= a < b < v@.len() implies (#[trigger] v@[a]).idx() < (
                    #[trigger] v@[b]).idx() by {
                        assert(v@[a] == before[a]);
                        if b < before.len() {
                            assert(v@[b] == before[b]);
                        }
                    }
                    assert forall|a: int| 0 <= a < v@.len() implies (#[trigger] v@[a]).idx() < k + 1 by {
                        if a < before.len() {
                            assert(v@[a] == before[a]);
                        }
                    }
                }
            } else {
                proof {
                    assert(!set.has(k as int));
                }
            }
            k = k + 1;
        }
        v
    }
}

/// A one-bit field is the bit.
proof fn lemma_field_one(y: u128, s: u128)
    requires
        s < 128,
    ensures
        field(y, s, 1) == bit(y, s),
{
    assert(field(y, s, 1) == bit(y, s)) by (bit_vector)
        requires
            s < 128,
    ;
}

/// Two numbers that agree on the bits below 50 have the same 2-bit fields
/// there.
proof fn lemma_low_fields_kept(x: u128, y: u128, s: int)
    requires
        0 <= s <= 48,
        forall|t: int| 0 <= t < 128 && (t < 50 || t >= 50 + psio_ridges().len()) ==> #[trigger] bit(y, t as u128) == bit(x, t as u128),
    ensures
        field(x, s as u128, 2) == field(y, s as u128, 2),
{
    let su = s as u128;
    assert(bit(y, su) == bit(x, su));
    assert(bit(y, (su + 1) as u128) == bit(x, (su + 1) as u128));
    assert(field(x, su, 2) == field(y, su, 2)) by (bit_vector)
        requires
            su <= 48,
            bit(y, su) == bit(x, su),
            bit(y, (su + 1) as u128) == bit(x, (su + 1) as u128),
    ;
}

} // verus!
