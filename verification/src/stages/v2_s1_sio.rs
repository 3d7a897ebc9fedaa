//! Stage 1 of the second method: `I`/`O` separation.
use vstd::prelude::*;

use super::slots::{check_slots, slots_ok, sticker_from_axis, stickers_from_axis};
use super::{Stage, TracksPuzzle};
use super::stickers::{is_sticker, lemma_sticker_bits_follow, lemma_stickers_shaped};
use super::tracking::{lemma_bits_eq_u128, lemma_rotate_ident};
use crate::puzzle::piece_type::lemma_filter_norm;
use crate::puzzle::sim::{law_twist_keeps_valid, twist_pieces, valid_pieces};
use crate::xy_rot::xy_mat;
use crate::bits::{bit, field, lemma_and_bits, lemma_truncate_u64};
use crate::codegen::{bits_value, collect_bits, PermutationLut};
use crate::linalg::{Axis, Mat4, Vec4};
use crate::permutation::{field_pos, has_twist_row, is_twist_row, moves_fields, twist_fields, FieldRule};
use crate::puzzle::piece_type::{filter_norm, stickers_upto};
use crate::puzzle::sim::SimplePuzzleSim;
use crate::puzzle::{PieceType, Twist, TwistSet};

use crate::xy_rot::XyRot;

verus! {

/// The stickers of the pieces of a type, facet by facet.
pub open spec fn type_stickers(ty: PieceType) -> Seq<Vec4> {
    filter_norm(stickers_upto(8), ty.count() + 1)
}

/// For each sticker position, whether the sticker there is an `I`/`O`
/// sticker: its piece's attitude takes W to the sticker's axis.
pub open spec fn io_stickers(pieces: Seq<(Vec4, Mat4)>, stickers: Seq<Vec4>) -> Seq<bool> {
    Seq::new(stickers.len(), |i: int| sticker_from_axis(pieces, stickers[i], Axis::W))
}

/// Stage 1 of the second method: `I`/`O` separation.
///
/// ## Invariants
///
/// There are no invariants to uphold.
///
/// ## Move set
///
/// All 184 twists are allowed.
#[derive(Debug, Copy, Clone, PartialEq, Eq, Structural, Hash)]
pub struct V2Stage1 {
    /// For each ridge sticker, 1 bit indicating whether it is an I/O sticker.
    pub r: u64,
    /// For each edge sticker, 1 bit indicating whether it is an I/O sticker.
    pub e: u128,
    /// For each corner sticker, 1 bit indicating whether it is an I/O
    /// sticker.
    pub c: u64,
}

impl V2Stage1 {
    /// Ridge sticker bits of the solved state.
    pub const SOLVED_R: u64 = 0xfff000000000;
    /// Edge sticker bits of the solved state.
    pub const SOLVED_E: u128 = 0xffffff000000000000000000;
    /// Corner sticker bits of the solved state.
    pub const SOLVED_C: u64 = 0xffff000000000000;

    /// The solved state.
    pub fn solved() -> (s: Self)
        ensures
            s == (V2Stage1 { r: Self::SOLVED_R, e: Self::SOLVED_E, c: Self::SOLVED_C }),
    {
        V2Stage1 { r: Self::SOLVED_R, e: Self::SOLVED_E, c: Self::SOLVED_C }
    }

    /// The bitwise and of two states.
    pub open spec fn spec_bitand(self, rhs: Self) -> Self {
        V2Stage1 { r: self.r & rhs.r, e: self.e & rhs.e, c: self.c & rhs.c }
    }

    /// Returns the bitwise and of two states.
    pub fn bitand(self, rhs: Self) -> (s: Self)
        ensures
            s == self.spec_bitand(rhs),
    {
        V2Stage1 { r: self.r & rhs.r, e: self.e & rhs.e, c: self.c & rhs.c }
    }

    /// Returns whether the state has every bit of some target set.
    pub fn is_target_solved(self, target: &Vec<Self>) -> (res: bool)
        ensures
            res == exists|i: int| 0 <= i < target@.len() && self.spec_bitand(#[trigger] target@[i]) == target@[i],
            res == exists|i: int|
                0 <= i < target@.len() && has_bits_u64(self.r, (#[trigger] target@[i]).r) && has_bits_u128(
                    self.e,
                    target@[i].e,
                ) && has_bits_u64(self.c, target@[i].c),
    {
        proof {
            assert forall|i: int| 0 <= i < target@.len() implies (self.spec_bitand(#[trigger] target@[i]) == target@[i])
                == (has_bits_u64(self.r, target@[i].r) && has_bits_u128(self.e, target@[i].e) && has_bits_u64(
                self.c,
                target@[i].c,
            )) by {
                law_bitand(self, target@[i]);
            }
        }
        let mut i: usize = 0;
        while i < target.len()
            invariant
                0 <= i <= target@.len(),
                forall|j: int| 0 <= j < i ==> self.spec_bitand(#[trigger] target@[j]) != target@[j],
                forall|j: int|
                    0 <= j < target@.len() ==> (self.spec_bitand(#[trigger] target@[j]) == target@[j]) == (has_bits_u64(
                        self.r,
                        target@[j].r,
                    ) && has_bits_u128(self.e, target@[j].e) && has_bits_u64(self.c, target@[j].c)),
            decreases target@.len() - i,
        {
            let t = target[i];
            if self.bitand(t) == t {
                return true;
            }
            i = i + 1;
        }
        false
    }

    /// Returns the stickers of the pieces of a type, facet by facet.
    pub fn stickers(piece_type: PieceType) -> (r: Vec<Vec4>)
        ensures
            r@ == type_stickers(piece_type),
    {
        piece_type.all_stickers()
    }

    /// Returns the ridge stickers, facet by facet.
    pub fn ridge_stickers() -> (r: Vec<Vec4>)
        ensures
            r@ == type_stickers(PieceType::Ridge),
    {
        Self::stickers(PieceType::Ridge)
    }

    /// Returns the edge stickers, facet by facet.
    pub fn edge_stickers() -> (r: Vec<Vec4>)
        ensures
            r@ == type_stickers(PieceType::Edge),
    {
        Self::stickers(PieceType::Edge)
    }

    /// Returns the corner stickers, facet by facet.
    pub fn corner_stickers() -> (r: Vec<Vec4>)
        ensures
            r@ == type_stickers(PieceType::Corner),
    {
        Self::stickers(PieceType::Corner)
    }
}

impl V2Stage1 {
    /// The sticker positions of a type are shaped as stickers.
    proof fn lemma_stickers_are(ty: PieceType)
        ensures
            forall|i: int| 0 <= i < type_stickers(ty).len() ==> is_sticker(#[trigger] type_stickers(ty)[i]),
    {
        lemma_stickers_shaped(8);
        lemma_filter_norm(stickers_upto(8), ty.count() + 1);
        assert forall|i: int| 0 <= i < type_stickers(ty).len() implies is_sticker(#[trigger] type_stickers(ty)[i]) by {
            assert(stickers_upto(8).contains(type_stickers(ty)[i]));
        }
    }
}

impl TracksPuzzle for V2Stage1 {
    proof fn law_twist_represents(pieces: Seq<(Vec4, Mat4)>, s: V2Stage1, t: Twist, n: V2Stage1)
    {
        let q = twist_pieces(pieces, t);
        law_twist_keeps_valid(pieces, t);
        lemma_rotate_ident(q);
        assert(xy_mat(0) == Mat4::spec_ident());
        let sr = type_stickers(PieceType::Ridge);
        let se = type_stickers(PieceType::Edge);
        let sc = type_stickers(PieceType::Corner);
        Self::lemma_stickers_are(PieceType::Ridge);
        Self::lemma_stickers_are(PieceType::Edge);
        Self::lemma_stickers_are(PieceType::Corner);
        lemma_sticker_bits_follow(pieces, t, sr, Axis::W, io_stickers(pieces, sr), io_stickers(q, sr), s.r as u128, n.r as u128, 64);
        lemma_sticker_bits_follow(pieces, t, se, Axis::W, io_stickers(pieces, se), io_stickers(q, se), s.e, n.e, 128);
        lemma_sticker_bits_follow(pieces, t, sc, Axis::W, io_stickers(pieces, sc), io_stickers(q, sc), s.c as u128, n.c as u128, 64);
    }
}

/// Whether every bit set in `t` is set in `x` (64-bit fields).
pub open spec fn has_bits_u64(x: u64, t: u64) -> bool {
    forall|i: int| 0 <= i < 128 ==> #[trigger] bit(t as u128, i as u128) == 1 ==> bit(x as u128, i as u128) == 1
}

/// Whether every bit set in `t` is set in `x`.
pub open spec fn has_bits_u128(x: u128, t: u128) -> bool {
    forall|i: int| 0 <= i < 128 ==> #[trigger] bit(t, i as u128) == 1 ==> bit(x, i as u128) == 1
}

/// The bitwise and of two states keeps a bit of a field exactly when both
/// states have it; so a state "and" a target is the target exactly when the
/// state has every bit of the target, which is what
/// [`V2Stage1::is_target_solved`] looks for.
pub proof fn law_bitand(s: V2Stage1, t: V2Stage1)
    ensures
        forall|i: int|
            0 <= i < 128 ==> (#[trigger] bit(s.spec_bitand(t).r as u128, i as u128) == 1) == (bit(s.r as u128, i as u128)
                == 1 && bit(t.r as u128, i as u128) == 1),
        forall|i: int|
            0 <= i < 128 ==> (#[trigger] bit(s.spec_bitand(t).e, i as u128) == 1) == (bit(s.e, i as u128) == 1 && bit(
                t.e,
                i as u128,
            ) == 1),
        forall|i: int|
            0 <= i < 128 ==> (#[trigger] bit(s.spec_bitand(t).c as u128, i as u128) == 1) == (bit(s.c as u128, i as u128)
                == 1 && bit(t.c as u128, i as u128) == 1),
        (s.spec_bitand(t) == t) == (has_bits_u64(s.r, t.r) && has_bits_u128(s.e, t.e) && has_bits_u64(s.c, t.c)),
{
    let u = s.spec_bitand(t);
    assert forall|i: int| 0 <= i < 128 implies #[trigger] bit(u.r as u128, i as u128) == (if bit(s.r as u128, i as u128)
        == 1 && bit(t.r as u128, i as u128) == 1 {
        1u128
    } else {
        0u128
    }) && (bit(t.r as u128, i as u128) == 0 || bit(t.r as u128, i as u128) == 1) by {
        lemma_and_bits(t.r as u128, t.r as u128, s.r, t.r, i as u128);
    }
    assert forall|i: int| 0 <= i < 128 implies #[trigger] bit(u.e, i as u128) == (if bit(s.e, i as u128) == 1 && bit(
        t.e,
        i as u128,
    ) == 1 {
        1u128
    } else {
        0u128
    }) && (bit(t.e, i as u128) == 0 || bit(t.e, i as u128) == 1) by {
        lemma_and_bits(s.e, t.e, s.r, t.r, i as u128);
        lemma_and_bits(t.e, t.e, s.r, t.r, i as u128);
    }
    assert forall|i: int| 0 <= i < 128 implies #[trigger] bit(u.c as u128, i as u128) == (if bit(s.c as u128, i as u128)
        == 1 && bit(t.c as u128, i as u128) == 1 {
        1u128
    } else {
        0u128
    }) && (bit(t.c as u128, i as u128) == 0 || bit(t.c as u128, i as u128) == 1) by {
        lemma_and_bits(t.c as u128, t.c as u128, s.c, t.c, i as u128);
    }
    if has_bits_u64(s.r, t.r) && has_bits_u128(s.e, t.e) && has_bits_u64(s.c, t.c) {
        assert forall|i: int| 0 <= i < 128 implies #[trigger] bit(u.r as u128, i as u128) == bit(t.r as u128, i as u128) by {}
        assert forall|i: int| 0 <= i < 128 implies #[trigger] bit(u.e, i as u128) == bit(t.e, i as u128) by {}
        assert forall|i: int| 0 <= i < 128 implies #[trigger] bit(u.c as u128, i as u128) == bit(t.c as u128, i as u128) by {}
        lemma_bits_eq_u128(u.r as u128, t.r as u128);
        lemma_bits_eq_u128(u.e, t.e);
        lemma_bits_eq_u128(u.c as u128, t.c as u128);
    }
}

impl Default for V2Stage1 {
    fn default() -> (s: Self)
        ensures
            s == (V2Stage1 { r: Self::SOLVED_R, e: Self::SOLVED_E, c: Self::SOLVED_C }),
    {
        Self::solved()
    }
}

impl Stage for V2Stage1 {
    open spec fn accepts(pieces: Seq<(Vec4, Mat4)>) -> bool {
        &&& type_stickers(PieceType::Ridge).len() <= 64
        &&& type_stickers(PieceType::Edge).len() <= 128
        &&& type_stickers(PieceType::Corner).len() <= 64
    }

    open spec fn can_twist(twist: Twist) -> bool {
        &&& type_stickers(PieceType::Ridge).len() <= 64
        &&& type_stickers(PieceType::Edge).len() <= 128
        &&& type_stickers(PieceType::Corner).len() <= 64
        &&& slots_ok(type_stickers(PieceType::Ridge), FieldRule::Keep, 1)
        &&& slots_ok(type_stickers(PieceType::Edge), FieldRule::Keep, 1)
        &&& slots_ok(type_stickers(PieceType::Corner), FieldRule::Keep, 1)
        &&& has_twist_row(type_stickers(PieceType::Ridge), twist)
        &&& has_twist_row(type_stickers(PieceType::Edge), twist)
        &&& has_twist_row(type_stickers(PieceType::Corner), twist)
    }

    /// Returns the twists that keep the stickers in place: all.
    fn twists() -> (r: TwistSet) {
        let rs = Self::ridge_stickers();
        let es = Self::edge_stickers();
        let cs = Self::corner_stickers();
        if rs.len() > 64 || es.len() > 128 || cs.len() > 64 || !check_slots(&rs, FieldRule::Keep, 1)
            || !check_slots(&es, FieldRule::Keep, 1) || !check_slots(&cs, FieldRule::Keep, 1) {
            return TwistSet::empty();
        }
        let lr = PermutationLut::new(&rs);
        let le = PermutationLut::new(&es);
        let lc = PermutationLut::new(&cs);
        let ar = lr.allowed_twists();
        let ae = le.allowed_twists();
        let ac = lc.allowed_twists();
        let mut r = TwistSet::empty();
        let mut k: u8 = 0;
        while k < 184
            invariant
                0 <= k <= 184,
                rs@ == type_stickers(PieceType::Ridge),
                es@ == type_stickers(PieceType::Edge),
                cs@ == type_stickers(PieceType::Corner),
                rs@.len() <= 64,
                es@.len() <= 128,
                cs@.len() <= 64,
                slots_ok(rs@, FieldRule::Keep, 1),
                slots_ok(es@, FieldRule::Keep, 1),
                slots_ok(cs@, FieldRule::Keep, 1),
                lr.describes(rs@),
                le.describes(es@),
                lc.describes(cs@),
                forall|i: int| 0 <= i < 184 ==> #[trigger] ar.has(i) == lr.table@[i] is Some,
                forall|i: int| 0 <= i < 184 ==> #[trigger] ae.has(i) == le.table@[i] is Some,
                forall|i: int| 0 <= i < 184 ==> #[trigger] ac.has(i) == lc.table@[i] is Some,
                forall|i: int| 0 <= i < 184 ==> #[trigger] r.has(i) == (i < k && Self::can_twist(Twist::spec_from_index(i))),
            decreases 184 - k,
        {
            let t = Twist::from_index(k);
            if ar.contains(t) && ae.contains(t) && ac.contains(t) {
                proof {
                    assert(ar.has(k as int) && ae.has(k as int) && ac.has(k as int));
                    assert(is_twist_row(type_stickers(PieceType::Ridge), t, lr.table@[k as int]->0@));
                    assert(is_twist_row(type_stickers(PieceType::Edge), t, le.table@[k as int]->0@));
                    assert(is_twist_row(type_stickers(PieceType::Corner), t, lc.table@[k as int]->0@));
                }
                r.insert(t);
            } else {
                proof {
                    assert(t == Twist::spec_from_index(k as int));
                }
            }
            k = k + 1;
        }
        r
    }

    /// No rotation follows a twist.
    open spec fn rotation_after(twist: Twist) -> int {
        0
    }

    /// Returns the identity: no rotation follows a twist.
    fn implicit_rotation_after_twist(twist: Twist) -> (r: XyRot) {
        XyRot::ident()
    }

    open spec fn moved(self, twist: Twist, next: Self) -> bool {
        &&& moves_fields(self.r as u128, next.r as u128, type_stickers(PieceType::Ridge), twist, 1, 0, FieldRule::Keep)
        &&& moves_fields(self.e, next.e, type_stickers(PieceType::Edge), twist, 1, 0, FieldRule::Keep)
        &&& moves_fields(self.c as u128, next.c as u128, type_stickers(PieceType::Corner), twist, 1, 0, FieldRule::Keep)
        &&& forall|t: int|
            type_stickers(PieceType::Ridge).len() <= t < 64 ==> #[trigger] bit(next.r as u128, t as u128) == bit(self.r as u128, t as u128)
        &&& forall|t: int| type_stickers(PieceType::Edge).len() <= t < 128 ==> #[trigger] bit(next.e, t as u128) == bit(self.e, t as u128)
        &&& forall|t: int|
            type_stickers(PieceType::Corner).len() <= t < 64 ==> #[trigger] bit(next.c as u128, t as u128) == bit(self.c as u128, t as u128)
    }

    /// Moves the sticker bits as the twist moves the stickers.
    fn do_twist(self, twist: Twist) -> (res: Self)
    {
        let rs = Self::ridge_stickers();
        let es = Self::edge_stickers();
        let cs = Self::corner_stickers();
        let r = match twist_fields(self.r as u128, &rs, twist, 1, 0, FieldRule::Keep) {
            Some(y) => y,
            None => {
                assert(false);
                0
            },
        };
        let e = match twist_fields(self.e, &es, twist, 1, 0, FieldRule::Keep) {
            Some(y) => y,
            None => {
                assert(false);
                0
            },
        };
        let c = match twist_fields(self.c as u128, &cs, twist, 1, 0, FieldRule::Keep) {
            Some(y) => y,
            None => {
                assert(false);
                0
            },
        };
        proof {
            assert forall|row: Seq<usize>| #[trigger] is_twist_row(type_stickers(PieceType::Ridge), twist, row) implies forall|i: int|
                0 <= i < type_stickers(PieceType::Ridge).len() ==> field(
                    (r as u64) as u128,
                    field_pos(0, #[trigger] row[i] as int, 1) as u128,
                    1,
                ) == field(r, field_pos(0, row[i] as int, 1) as u128, 1) by {
                assert forall|i: int| 0 <= i < type_stickers(PieceType::Ridge).len() implies field(
                    (r as u64) as u128,
                    field_pos(0, #[trigger] row[i] as int, 1) as u128,
                    1,
                ) == field(r, field_pos(0, row[i] as int, 1) as u128, 1) by {
                    lemma_truncate_u64(r, row[i] as u128, 1);
                }
            }
            assert forall|row: Seq<usize>| #[trigger] is_twist_row(type_stickers(PieceType::Corner), twist, row) implies forall|i: int|
                0 <= i < type_stickers(PieceType::Corner).len() ==> field(
                    (c as u64) as u128,
                    field_pos(0, #[trigger] row[i] as int, 1) as u128,
                    1,
                ) == field(c, field_pos(0, row[i] as int, 1) as u128, 1) by {
                assert forall|i: int| 0 <= i < type_stickers(PieceType::Corner).len() implies field(
                    (c as u64) as u128,
                    field_pos(0, #[trigger] row[i] as int, 1) as u128,
                    1,
                ) == field(c, field_pos(0, row[i] as int, 1) as u128, 1) by {
                    lemma_truncate_u64(c, row[i] as u128, 1);
                }
            }
        }
        proof {
            assert forall|t: int| type_stickers(PieceType::Ridge).len() <= t < 64 implies #[trigger] bit(
                (r as u64) as u128,
                t as u128,
            ) == bit(self.r as u128, t as u128) by {
                lemma_truncate_u64(r, t as u128, 1);
            }
            assert forall|t: int| type_stickers(PieceType::Corner).len() <= t < 64 implies #[trigger] bit(
                (c as u64) as u128,
                t as u128,
            ) == bit(self.c as u128, t as u128) by {
                lemma_truncate_u64(c, t as u128, 1);
            }
        }
        let res = V2Stage1 { r: r as u64, e, c: c as u64 };
        assert(Self::moved(self, twist, res));
        res
    }

    open spec fn represents(pieces: Seq<(Vec4, Mat4)>, s: Self) -> bool {
        &&& s.r == bits_value(io_stickers(pieces, type_stickers(PieceType::Ridge))) as u64
        &&& s.e == bits_value(io_stickers(pieces, type_stickers(PieceType::Edge)))
        &&& s.c == bits_value(io_stickers(pieces, type_stickers(PieceType::Corner))) as u64
    }

    /// For each sticker, whether it is an `I`/`O` sticker (see
    /// [`io_stickers`]): ridge stickers, then edge stickers, then corner
    /// stickers.
    fn from_state(state: SimplePuzzleSim) -> (res: Self)
        ensures
            res.r == bits_value(io_stickers(state.pieces@, type_stickers(PieceType::Ridge))) as u64,
            res.e == bits_value(io_stickers(state.pieces@, type_stickers(PieceType::Edge))),
            res.c == bits_value(io_stickers(state.pieces@, type_stickers(PieceType::Corner))) as u64,
    {
        let rs = Self::ridge_stickers();
        let rb = stickers_from_axis(&state, &rs, Axis::W);
        assert(rb@ =~= io_stickers(state.pieces@, type_stickers(PieceType::Ridge)));
        let r = collect_bits(&rb);
        let es = Self::edge_stickers();
        let eb = stickers_from_axis(&state, &es, Axis::W);
        assert(eb@ =~= io_stickers(state.pieces@, type_stickers(PieceType::Edge)));
        let e = collect_bits(&eb);
        let cs = Self::corner_stickers();
        let cb = stickers_from_axis(&state, &cs, Axis::W);
        assert(cb@ =~= io_stickers(state.pieces@, type_stickers(PieceType::Corner)));
        let c = collect_bits(&cb);
        let res = V2Stage1 { r: r as u64, e, c: c as u64 };
        assert(Self::represents(state.pieces@, res));
        res
    }
}

} // verus!
