use vstd::prelude::*;

use super::s1_mid::ridge_points;
use super::slots::{
    check_slots, concat_points, filter_points, filter_pos, lemma_filter_pos_len, slots_ok, sticker_from_axis,
    stickers_from_axis,
};
use super::{Stage, TracksPuzzle};
use super::stickers::{from_axis_bit, is_sticker, lemma_bits_value_fields, lemma_shaped_facts, lemma_rot_sticker, lemma_sticker_bits_follow, lemma_sticker_twisted, lemma_stickers_shaped, sticker_shaped};
use super::tracking::{lemma_bits_eq_u128, lemma_filter_pos_in, lemma_listing_one, lemma_moved_keep, lemma_pack16, lemma_pack_fields, lemma_rli_ridge_count, lemma_rotate_ident, lemma_twisted_slot, slot_value};
use crate::bits::{lemma_low_fields_eq, lemma_low_mask_step, lemma_or_shift16, lemma_shift_in, lemma_truncate_u64_u32};
use crate::codegen::lemma_piece_points;
use crate::permutation::moved_point;
use crate::puzzle::piece_type::{cube_points, lemma_filter_norm};
use crate::puzzle::sim::{law_twist_keeps_valid, twist_pieces, valid_pieces};
use crate::xy_rot::xy_mat;
use crate::bits::{bit, field, lemma_truncate_u64};
use crate::codegen::{bits_value, collect_bits, ridges, PermutationLut};
use crate::linalg::{Axis, Mat4, Vec4};
use crate::permutation::{field_pos, has_twist_row, is_twist_row, moves_fields, twist_fields, FieldRule};
use crate::puzzle::piece_type::{filter_norm, lemma_sticker_counts, stickers_upto};
use crate::puzzle::sim::{all_values, pack_bits, SimplePuzzleSim};
use crate::puzzle::{PieceType, Twist, TwistSet};

use crate::xy_rot::XyRot;

verus! {

/// Whether a position is in `R`, `L` or `I` (the part that stage 2 tracks).
pub open spec fn in_stage2() -> spec_fn(Vec4) -> bool {
    |v: Vec4| v.0[0] != 0 || v.0[3] < 0
}

/// The ridge slots of stage 2.
pub open spec fn s2_ridges() -> Seq<Vec4> {
    filter_pos(ridge_points(), in_stage2())
}

/// The edge sticker slots of stage 2.
pub open spec fn s2_edge_stickers() -> Seq<Vec4> {
    filter_pos(filter_norm(stickers_upto(8), 4), in_stage2())
}

/// The corner sticker slots of stage 2.
pub open spec fn s2_corner_stickers() -> Seq<Vec4> {
    filter_pos(filter_norm(stickers_upto(8), 5), in_stage2())
}

/// Stage 2 ridge bit: whether the ridge belongs in `R`/`L`.
pub open spec fn s2_ridge_fn() -> spec_fn(Vec4, Mat4) -> u64 {
    |init: Vec4, att: Mat4| if init.0[0] != 0 { 1u64 } else { 0u64 }
}

/// For each position, whether its sticker came from the X axis.
pub open spec fn from_x(pieces: Seq<(Vec4, Mat4)>, stickers: Seq<Vec4>) -> Seq<bool> {
    Seq::new(stickers.len(), |i: int| sticker_from_axis(pieces, stickers[i], Axis::X))
}

/// Stage 2: Left block (1x3x3x2)
///
/// ## Invariants
///
/// - All `I`/`O` ridges must remain oriented.
/// - The 1x3x3x2 block of `M` pieces in `M` at `[0, -1, -1, 0]..=[0, 1, 1, 1]`
///   (i.e., `~(R | L | I)`) must be setwise-preserved.
///
/// ## Target
///
/// - 1x3x3x2 block of `R`/`L`-oriented pieces in `L` (`[-1, -1, -1,
///   0]..=[-1, 1, 1, 1]`)
#[derive(Debug, Copy, Clone, PartialEq, Eq, Structural, Hash)]
pub struct Stage2 {
    /// For each `R`/`L`/`I` ridge location, 1 bit: `1` = belongs in `R`/`L`,
    /// `0` = belongs in the `M` slice; then from bit 16, for each sticker of
    /// each `R`/`L`/`I` edge location, 1 bit: `1` = `R`/`L` sticker.
    pub re: u128,
    /// For each sticker of each `R`/`L`/`I` corner location, 1 bit: `1` =
    /// `R`/`L` sticker.
    pub c: u64,
}

impl Stage2 {
    /// Ridge and edge bits of the solved state.
    pub const SOLVED_RE: u128 = 0xffffffffcc;
    /// Corner bits of the solved state.
    pub const SOLVED_C: u64 = 0xffff;
    /// Ridge and edge bits that the target needs.
    pub const TARGET_RE: u128 = 0xff00005540;
    /// Corner bits that the target needs.
    pub const TARGET_C: u64 = 0xf000;

    /// The solved state.
    pub fn solved() -> (r: Self)
        ensures
            r == (Stage2 { re: Self::SOLVED_RE, c: Self::SOLVED_C }),
    {
        Stage2 { re: Self::SOLVED_RE, c: Self::SOLVED_C }
    }

    /// Returns whether the target is solved: every bit of the target is set.
    pub fn is_target_solved(self) -> (r: bool)
        ensures
            r == (self.re & Self::TARGET_RE == Self::TARGET_RE && self.c & Self::TARGET_C == Self::TARGET_C),
    {
        self.re & Self::TARGET_RE == Self::TARGET_RE && self.c & Self::TARGET_C == Self::TARGET_C
    }

    /// Returns the ridge slots and then the edge sticker slots.
    fn re_slots() -> (r: Vec<Vec4>)
        ensures
            r@ == s2_ridges() + s2_edge_stickers(),
    {
        let pred = |v: Vec4| -> (b: bool)
            ensures
                b == in_stage2()(v),
        { v.0[0] != 0 || v.0[3] < 0 };
        let rr = ridges();
        let fr = filter_points(&rr, pred, Ghost(in_stage2()));
        let es = PieceType::Edge.all_stickers();
        let fe = filter_points(&es, pred, Ghost(in_stage2()));
        concat_points(&fr, &fe)
    }

    /// The sticker slots fit the state's bits.
    pub proof fn lemma_sticker_slots_fit()
        ensures
            s2_edge_stickers().len() <= 112,
            s2_corner_stickers().len() <= 64,
    {
        lemma_sticker_counts(8);
        lemma_filter_pos_len(filter_norm(stickers_upto(8), 4), in_stage2());
        lemma_filter_pos_len(filter_norm(stickers_upto(8), 5), in_stage2());
    }

    /// Returns the edge sticker slots.
    fn edge_sticker_slots() -> (r: Vec<Vec4>)
        ensures
            r@ == s2_edge_stickers(),
    {
        let pred = |v: Vec4| -> (b: bool)
            ensures
                b == in_stage2()(v),
        { v.0[0] != 0 || v.0[3] < 0 };
        let es = PieceType::Edge.all_stickers();
        filter_points(&es, pred, Ghost(in_stage2()))
    }

    /// Returns the corner sticker slots.
    fn corner_sticker_slots() -> (r: Vec<Vec4>)
        ensures
            r@ == s2_corner_stickers(),
    {
        let pred = |v: Vec4| -> (b: bool)
            ensures
                b == in_stage2()(v),
        { v.0[0] != 0 || v.0[3] < 0 };
        let cs = PieceType::Corner.all_stickers();
        filter_points(&cs, pred, Ghost(in_stage2()))
    }
}

impl Default for Stage2 {
    fn default() -> (r: Self)
        ensures
            r == (Stage2 { re: Self::SOLVED_RE, c: Self::SOLVED_C }),
    {
        Self::solved()
    }
}

/// The value that the ridge and edge sticker bits hold at a position: the
/// ridge bit for a position of the cube, else whether the sticker came from
/// the X axis.
pub open spec fn re_value() -> spec_fn(Seq<(Vec4, Mat4)>, Vec4) -> u128 {
    |pieces: Seq<(Vec4, Mat4)>, v: Vec4|
        if v.in_cube() {
            slot_value(pieces, s2_ridge_fn())(v) as u128
        } else {
            from_axis_bit(pieces, v, Axis::X)
        }
}

impl Stage2 {
    /// The tracked positions: 16 ridges of the cube, then stickers.
    proof fn lemma_slots()
        ensures
            s2_ridges().len() == 16,
            forall|i: int| 0 <= i < s2_ridges().len() ==> (#[trigger] s2_ridges()[i]).in_cube(),
            forall|i: int| 0 <= i < s2_edge_stickers().len() ==> is_sticker(#[trigger] s2_edge_stickers()[i]),
            forall|i: int| 0 <= i < s2_corner_stickers().len() ==> is_sticker(#[trigger] s2_corner_stickers()[i]),
    {
        assert(in_stage2() =~= (|v: Vec4| v.0[0] != 0 || v.0[3] < 0));
        lemma_rli_ridge_count();
        lemma_piece_points(2);
        lemma_filter_pos_in(ridge_points(), in_stage2());
        assert forall|i: int| 0 <= i < s2_ridges().len() implies (#[trigger] s2_ridges()[i]).in_cube() by {
            let j = choose|j: int| 0 <= j < ridge_points().len() && ridge_points()[j] == s2_ridges()[i];
        }
        lemma_stickers_shaped(8);
        lemma_filter_norm(stickers_upto(8), 4);
        lemma_filter_norm(stickers_upto(8), 5);
        lemma_filter_pos_in(filter_norm(stickers_upto(8), 4), in_stage2());
        lemma_filter_pos_in(filter_norm(stickers_upto(8), 5), in_stage2());
        assert forall|i: int| 0 <= i < s2_edge_stickers().len() implies is_sticker(#[trigger] s2_edge_stickers()[i]) by {
            let e = filter_norm(stickers_upto(8), 4);
            let j = choose|j: int| 0 <= j < e.len() && e[j] == s2_edge_stickers()[i];
            assert(stickers_upto(8).contains(e[j]));
        }
        assert forall|i: int| 0 <= i < s2_corner_stickers().len() implies is_sticker(#[trigger] s2_corner_stickers()[i]) by {
            let e = filter_norm(stickers_upto(8), 5);
            let j = choose|j: int| 0 <= j < e.len() && e[j] == s2_corner_stickers()[i];
            assert(stickers_upto(8).contains(e[j]));
        }
    }

    /// Bit `i` of the ridge and edge sticker value of a puzzle state: the
    /// value at the tracked position `i`, and clear above.
    proof fn lemma_re_bit(pieces: Seq<(Vec4, Mat4)>, i: int)
        requires
            valid_pieces(pieces),
            s2_ridges().len() + s2_edge_stickers().len() <= 128,
            0 <= i < 128,
        ensures
            i < (s2_ridges() + s2_edge_stickers()).len() ==> bit(spec_re(pieces), i as u128) == re_value()(
                pieces,
                (s2_ridges() + s2_edge_stickers())[i],
            ),
            i >= (s2_ridges() + s2_edge_stickers()).len() ==> bit(spec_re(pieces), i as u128) == 0,
    {
        Self::lemma_slots();
        let f = s2_ridge_fn();
        let pr = s2_ridges();
        let pe = s2_edge_stickers();
        let pts = pr + pe;
        lemma_listing_one(pieces, PieceType::Ridge, in_stage2(), f);
        let vals = pr.map_values(slot_value(pieces, f));
        lemma_shift_in(0, 0, 1, 0);
        assert forall|k: int| 0 <= k < vals.len() implies #[trigger] vals[k] < (1u64 << 1u64) by {}
        lemma_pack16(vals);
        lemma_pack_fields(vals, 1);
        let a = pack_bits(vals, 1) as u128;
        let bs = from_x(pieces, pe);
        let b = bits_value(bs);
        lemma_bits_value_fields(bs);
        lemma_or_shift16(a, b, i as u128);
        lemma_low_mask_step(a, i as u128, 1);
        if i >= 16 {
            lemma_low_mask_step(b, (i - 16) as u128, 1);
        }
        if i < 16 {
            assert(pts[i] == pr[i]);
            assert(field(a, (i * 1) as u128, 1) == vals[i] as u128);
        } else if i < pts.len() {
            let v = pe[i - 16];
            assert(pts[i] == v);
            assert(is_sticker(v));
            let a0 = choose|a0: int| sticker_shaped(v, a0);
            lemma_shaped_facts(v, a0);
            assert(!v.in_cube());
            assert(bs[i - 16] == sticker_from_axis(pieces, v, Axis::X));
        }
    }

    /// A twist takes the value at a position of the cube to its image.
    proof fn lemma_re_cube_point(pieces: Seq<(Vec4, Mat4)>, t: Twist, v: Vec4)
        requires
            valid_pieces(pieces),
            t.inv(),
            v.in_cube(),
        ensures
            re_value()(twist_pieces(pieces, t), moved_point(t, v)) == re_value()(pieces, v),
    {
        lemma_twisted_slot(pieces, t, v);
    }

    /// A twist takes the value at a sticker position to its image.
    proof fn lemma_re_sticker_point(pieces: Seq<(Vec4, Mat4)>, t: Twist, v: Vec4)
        requires
            valid_pieces(pieces),
            t.inv(),
            is_sticker(v),
        ensures
            re_value()(twist_pieces(pieces, t), moved_point(t, v)) == re_value()(pieces, v),
    {
        let a0 = choose|a0: int| sticker_shaped(v, a0);
        lemma_shaped_facts(v, a0);
        lemma_sticker_twisted(pieces, t, v, a0, Axis::X);
        let m = moved_point(t, v);
        crate::puzzle::twist::lemma_twist_keeps_side(t, v.spec_sticker_piece());
        if t.spec_affects(v) {
            lemma_rot_sticker(t.spec_rot(), v, a0);
            lemma_shaped_facts(t.spec_rot().spec_apply(v), t.spec_rot()@[a0] / 2);
        }
        assert(!m.in_cube());
        assert(re_value()(pieces, v) == from_axis_bit(pieces, v, Axis::X));
        assert(re_value()(twist_pieces(pieces, t), m) == from_axis_bit(twist_pieces(pieces, t), m, Axis::X));
    }

    /// A twist takes the value at a tracked position to its image.
    #[verifier::spinoff_prover]
    #[verifier::rlimit(40)]
    proof fn lemma_re_point(pieces: Seq<(Vec4, Mat4)>, t: Twist, i: int)
        requires
            valid_pieces(pieces),
            t.inv(),
            0 <= i < (s2_ridges() + s2_edge_stickers()).len(),
        ensures
            re_value()(twist_pieces(pieces, t), moved_point(t, (s2_ridges() + s2_edge_stickers())[i])) == re_value()(
                pieces,
                (s2_ridges() + s2_edge_stickers())[i],
            ),
    {
        Self::lemma_slots();
        let pr = s2_ridges();
        let pe = s2_edge_stickers();
        if i < 16 {
            assert((pr + pe)[i] == pr[i]);
            Self::lemma_re_cube_point(pieces, t, pr[i]);
        } else {
            assert((pr + pe)[i] == pe[i - 16]);
            Self::lemma_re_sticker_point(pieces, t, pe[i - 16]);
        }
    }
}

/// The ridge and edge sticker value of a puzzle state.
pub open spec fn spec_re(pieces: Seq<(Vec4, Mat4)>) -> u128 {
    (pack_bits(all_values(pieces, seq![PieceType::Ridge], in_stage2(), s2_ridge_fn()), 1) as u128) | (bits_value(
        from_x(pieces, s2_edge_stickers()),
    ) << 16u128)
}

impl TracksPuzzle for Stage2 {
    proof fn law_twist_represents(pieces: Seq<(Vec4, Mat4)>, s: Stage2, t: Twist, n: Stage2)
    {
        let q = twist_pieces(pieces, t);
        law_twist_keeps_valid(pieces, t);
        lemma_rotate_ident(q);
        assert(xy_mat(0) == Mat4::spec_ident());
        Self::lemma_slots();
        let pts = s2_ridges() + s2_edge_stickers();
        lemma_sticker_bits_follow(
            pieces,
            t,
            s2_corner_stickers(),
            Axis::X,
            from_x(pieces, s2_corner_stickers()),
            from_x(q, s2_corner_stickers()),
            s.c as u128,
            n.c as u128,
            64,
        );
        let val = re_value();
        assert(s.re == spec_re(pieces));
        assert forall|i: int| 0 <= i < pts.len() implies val(twist_pieces(pieces, t), moved_point(t, #[trigger] pts[i]))
            == val(pieces, pts[i]) by {
            Self::lemma_re_point(pieces, t, i);
        }
        assert forall|i: int| 0 <= i < pts.len() implies #[trigger] field(s.re, field_pos(0, i, 1) as u128, 1) == val(
            pieces,
            pts[i],
        ) by {
            lemma_low_mask_step(s.re, i as u128, 1);
            Self::lemma_re_bit(pieces, i);
        }
        lemma_moved_keep(pieces, t, pts, val, s.re, n.re);
        assert forall|i: int| 0 <= i < 128 implies #[trigger] bit(n.re, i as u128) == bit(spec_re(q), i as u128) by {
            Self::lemma_re_bit(q, i);
            Self::lemma_re_bit(pieces, i);
            lemma_low_mask_step(n.re, i as u128, 1);
            if i < pts.len() {
                assert(field(n.re, field_pos(0, i, 1) as u128, 1) == val(q, pts[i]));
            } else {
                assert(bit(n.re, i as u128) == bit(s.re, i as u128));
            }
        }
        lemma_bits_eq_u128(n.re, spec_re(q));
    }
}

impl Stage for Stage2 {
    open spec fn accepts(pieces: Seq<(Vec4, Mat4)>) -> bool {
        &&& s2_edge_stickers().len() <= 112
        &&& s2_corner_stickers().len() <= 64
    }

    open spec fn can_twist(twist: Twist) -> bool {
        &&& s2_ridges().len() + s2_edge_stickers().len() <= 128
        &&& s2_corner_stickers().len() <= 64
        &&& slots_ok(s2_ridges() + s2_edge_stickers(), FieldRule::Keep, 1)
        &&& slots_ok(s2_corner_stickers(), FieldRule::Keep, 1)
        &&& has_twist_row(s2_ridges() + s2_edge_stickers(), twist)
        &&& has_twist_row(s2_corner_stickers(), twist)
    }

    /// Returns the twists that keep the tracked ridges and stickers in place.
    fn twists() -> (r: TwistSet) {
        let res = Self::re_slots();
        let cs = Self::corner_sticker_slots();
        if res.len() > 128 || cs.len() > 64 || !check_slots(&res, FieldRule::Keep, 1) || !check_slots(
            &cs,
            FieldRule::Keep,
            1,
        ) {
            return TwistSet::empty();
        }
        let lre = PermutationLut::new(&res);
        let lc = PermutationLut::new(&cs);
        let are = lre.allowed_twists();
        let ac = lc.allowed_twists();
        let mut r = TwistSet::empty();
        let mut k: u8 = 0;
        while k < 184
            invariant
                0 <= k <= 184,
                res@ == s2_ridges() + s2_edge_stickers(),
                cs@ == s2_corner_stickers(),
                res@.len() <= 128,
                cs@.len() <= 64,
                slots_ok(res@, FieldRule::Keep, 1),
                slots_ok(cs@, FieldRule::Keep, 1),
                lre.describes(res@),
                lc.describes(cs@),
                forall|i: int| 0 <= i < 184 ==> #[trigger] are.has(i) == lre.table@[i] is Some,
                forall|i: int| 0 <= i < 184 ==> #[trigger] ac.has(i) == lc.table@[i] is Some,
                forall|i: int| 0 <= i < 184 ==> #[trigger] r.has(i) == (i < k && Self::can_twist(Twist::spec_from_index(i))),
            decreases 184 - k,
        {
            let t = Twist::from_index(k);
            if are.contains(t) && ac.contains(t) {
                proof {
                    assert(are.has(k as int) && ac.has(k as int));
                    let row_re = lre.table@[k as int]->0;
                    let row_c = lc.table@[k as int]->0;
                    assert(is_twist_row(s2_ridges() + s2_edge_stickers(), t, row_re@));
                    assert(is_twist_row(s2_corner_stickers(), t, row_c@));
                }
                r.insert(t);
            } else {
                proof {
                    assert(t == Twist::spec_from_index(k as int));
                }
            }
            k = k + 1;
        }
        r
    }

    /// No rotation follows a twist.
    open spec fn rotation_after(twist: Twist) -> int {
        0
    }

    /// Returns the identity: no rotation follows a twist.
    fn implicit_rotation_after_twist(twist: Twist) -> (r: XyRot) {
        XyRot::ident()
    }

    open spec fn moved(self, twist: Twist, next: Self) -> bool {
        &&& moves_fields(self.re, next.re, s2_ridges() + s2_edge_stickers(), twist, 1, 0, FieldRule::Keep)
        &&& moves_fields(self.c as u128, next.c as u128, s2_corner_stickers(), twist, 1, 0, FieldRule::Keep)
        &&& forall|t: int|
            s2_ridges().len() + s2_edge_stickers().len() <= t < 128 ==> #[trigger] bit(next.re, t as u128) == bit(self.re, t as u128)
        &&& forall|t: int|
            s2_corner_stickers().len() <= t < 64 ==> #[trigger] bit(next.c as u128, t as u128) == bit(self.c as u128, t as u128)
    }

    /// Moves the ridge, edge sticker and corner sticker bits as the twist
    /// moves the pieces.
    fn do_twist(self, twist: Twist) -> (res: Self)
    {
        let res_slots = Self::re_slots();
        let cs = Self::corner_sticker_slots();
        let re = match twist_fields(self.re, &res_slots, twist, 1, 0, FieldRule::Keep) {
            Some(y) => y,
            None => {
                assert(false);
                0
            },
        };
        let c = match twist_fields(self.c as u128, &cs, twist, 1, 0, FieldRule::Keep) {
            Some(y) => y,
            None => {
                assert(false);
                0
            },
        };
        proof {
            assert forall|row: Seq<usize>| #[trigger] is_twist_row(s2_corner_stickers(), twist, row) implies forall|i: int|
                0 <= i < s2_corner_stickers().len() ==> field(
                    (c as u64) as u128,
                    field_pos(0, #[trigger] row[i] as int, 1) as u128,
                    1,
                ) == field(c, field_pos(0, row[i] as int, 1) as u128, 1) by {
                assert forall|i: int| 0 <= i < s2_corner_stickers().len() implies field(
                    (c as u64) as u128,
                    field_pos(0, #[trigger] row[i] as int, 1) as u128,
                    1,
                ) == field(c, field_pos(0, row[i] as int, 1) as u128, 1) by {
                    lemma_truncate_u64(c, row[i] as u128, 1);
                }
            }
        }
        proof {
            assert forall|t: int| s2_corner_stickers().len() <= t < 64 implies #[trigger] bit((c as u64) as u128, t as u128)
                == bit(self.c as u128, t as u128) by {
                lemma_truncate_u64(c, t as u128, 1);
            }
        }
        let res = Stage2 { re, c: c as u64 };
        assert(Self::moved(self, twist, res));
        res
    }

    open spec fn represents(pieces: Seq<(Vec4, Mat4)>, s: Self) -> bool {
        &&& s.re == (pack_bits(all_values(pieces, seq![PieceType::Ridge], in_stage2(), s2_ridge_fn()), 1) as u128) | (bits_value(from_x(pieces, s2_edge_stickers())) << 16u128)
        &&& s.c == bits_value(from_x(pieces, s2_corner_stickers())) as u64
    }

    /// The ridge bits (see [`s2_ridge_fn`]) of the pieces whose current
    /// positions are tracked, with the bits of the tracked edge stickers that
    /// came from the X axis from bit 16; and the bits of the tracked corner
    /// stickers that came from the X axis.
    fn from_state(state: SimplePuzzleSim) -> (res: Self)
        ensures
            res.re == (pack_bits(all_values(state.pieces@, seq![PieceType::Ridge], in_stage2(), s2_ridge_fn()), 1) as u128)
                | (bits_value(from_x(state.pieces@, s2_edge_stickers())) << 16u128),
            res.c == bits_value(from_x(state.pieces@, s2_corner_stickers())) as u64,
    {
        let keep = |v: Vec4| -> (b: bool)
            ensures
                b == in_stage2()(v),
        { v.0[0] != 0 || v.0[3] < 0 };
        let ridge_bit = |init: Vec4, att: Mat4| -> (x: u64)
            ensures
                x == s2_ridge_fn()(init, att),
        {
            if init.0[0] != 0 {
                1
            } else {
                0
            }
        };
        let ridge_types = [PieceType::Ridge];
        assert(ridge_types@ =~= seq![PieceType::Ridge]);
        let r = state.pieces_to_bits(1, &ridge_types, keep, ridge_bit) as u128;
        proof {
            assert(crate::puzzle::sim::closures_compute(keep, ridge_bit, in_stage2(), s2_ridge_fn()));
        }
        let es = Self::edge_sticker_slots();
        let eb = stickers_from_axis(&state, &es, Axis::X);
        assert(eb@ =~= from_x(state.pieces@, s2_edge_stickers()));
        let e = collect_bits(&eb);
        let cs = Self::corner_sticker_slots();
        let cb = stickers_from_axis(&state, &cs, Axis::X);
        assert(cb@ =~= from_x(state.pieces@, s2_corner_stickers()));
        let c = collect_bits(&cb);
        let res = Stage2 { re: r | (e << 16), c: c as u64 };
        assert(Self::represents(state.pieces@, res));
        res
    }
}

} // verus!
