//! Sticker positions: their shape, and how a twist moves them and the
//! stickers that they hold.
use vstd::prelude::*;

use crate::linalg::axis::axis_of;
use crate::linalg::facet::facet_of;
use crate::linalg::mat4::{lemma_apply_perm, lemma_perm_onto};
use crate::linalg::vec4::dim;
use crate::linalg::{Axis, Mat4, Vec4};
use crate::puzzle::piece_type::{facet_stickers, stickers_upto};
use crate::bits::{bit, field, lemma_low_fields_eq, lemma_low_mask_step, lemma_or_bit, lemma_truncate_u64};
use crate::codegen::bits_value;
use crate::permutation::{field_pos, has_twist_row, is_twist_row, moved_point, moves_fields, no_min, FieldRule};
use crate::puzzle::sim::{cube_index, moved_piece, twist_pieces, valid_pieces};
use crate::puzzle::Twist;
use crate::stage_utils::lemma_axis_image_mul;
use crate::stages::slots::{sticker_from_axis, sticker_ok};
use crate::stages::tracking::{lemma_row_onto, lemma_slot_piece, lemma_twisted_slot};

verus! {

/// Whether `v` is `±2` on axis `a` and in `-1..=1` on every other axis: the
/// position of a sticker on a facet of axis `a`.
pub open spec fn sticker_shaped(v: Vec4, a: int) -> bool {
    &&& 0 <= a < 4
    &&& (v.0[a] == 2 || v.0[a] == -2)
    &&& forall|c: int| 0 <= c < 4 && c != a ==> -1 <= #[trigger] v.0[c] <= 1
}

/// Whether `v` is shaped as a sticker on some axis.
pub open spec fn is_sticker(v: Vec4) -> bool {
    exists|a: int| sticker_shaped(v, a)
}

/// The stickers of a facet are shaped as stickers on the facet's axis.
#[verifier::spinoff_prover]
proof fn lemma_facet_sticker_shape(f: int, i: int)
    requires
        0 <= f < 8,
        0 <= i < 27,
    ensures
        sticker_shaped(facet_stickers(f)[i], f / 2),
{
    let fa = facet_of(f);
    let mn = fa.sticker_min();
    let mx = fa.sticker_max();
    let v = Vec4::region_point(mn, mx, i);
    assert(facet_stickers(f)[i] == v);
    let d0 = i % 3;
    let d1 = (i / 3) % 3;
    let d2 = i / 9;
    assert(0 <= d2 < 3);
    let ax = f / 2;
    assert(fa.spec_axis() == axis_of(ax));
    let s = 2 * fa.spec_sign().val();
    assert(s == 2 || s == -2);
    if ax == 0 {
        assert(dim(mn.0[0], mx.0[0]) == 1 && dim(mn.0[1], mx.0[1]) == 3 && dim(mn.0[2], mx.0[2]) == 3);
        let nx = dim(mn.0[0], mx.0[0]);
        let ny = dim(mn.0[1], mx.0[1]);
        let nz = dim(mn.0[2], mx.0[2]);
        assert(i % nx == 0 && i / nx == i && nx * ny == 3 && nx * ny * nz == 9) by (nonlinear_arith)
            requires
                nx == 1,
                ny == 3,
                nz == 3,
        ;
        assert(v.0[0] == s);
        assert(v.0[1] == d0 - 1);
        assert(v.0[2] == d1 - 1);
        assert(v.0[3] == d2 - 1);
    } else if ax == 1 {
        assert(dim(mn.0[0], mx.0[0]) == 3 && dim(mn.0[1], mx.0[1]) == 1 && dim(mn.0[2], mx.0[2]) == 3);
        assert(v.0[0] == d0 - 1);
        assert(v.0[1] == s);
        assert(v.0[2] == d1 - 1);
        assert(v.0[3] == d2 - 1);
    } else if ax == 2 {
        assert(dim(mn.0[0], mx.0[0]) == 3 && dim(mn.0[1], mx.0[1]) == 3 && dim(mn.0[2], mx.0[2]) == 1);
        assert(v.0[0] == d0 - 1);
        assert(v.0[1] == d1 - 1);
        assert((i / 9) % 1 == 0);
        assert(v.0[2] == s);
        assert(v.0[3] == d2 - 1);
    } else {
        assert(dim(mn.0[0], mx.0[0]) == 3 && dim(mn.0[1], mx.0[1]) == 3 && dim(mn.0[2], mx.0[2]) == 3);
        let nx = dim(mn.0[0], mx.0[0]);
        let ny = dim(mn.0[1], mx.0[1]);
        let nz = dim(mn.0[2], mx.0[2]);
        assert(nx * ny == 9 && nx * ny * nz == 27 && i / 27 == 0) by (nonlinear_arith)
            requires
                nx == 3,
                ny == 3,
                nz == 3,
                0 <= i < 27,
        ;
        assert(v.0[0] == d0 - 1);
        assert(v.0[1] == d1 - 1);
        assert(v.0[2] == d2 - 1);
        assert(v.0[3] == s);
    }
}

/// Every sticker of the first `k` facets is shaped as a sticker.
pub proof fn lemma_stickers_shaped(k: int)
    requires
        0 <= k <= 8,
    ensures
        forall|v: Vec4| #[trigger] stickers_upto(k).contains(v) ==> exists|a: int| sticker_shaped(v, a),
    decreases k,
{
    if k > 0 {
        lemma_stickers_shaped(k - 1);
        let prev = stickers_upto(k - 1);
        let fs = facet_stickers(k - 1);
        assert forall|v: Vec4| #[trigger] stickers_upto(k).contains(v) implies exists|a: int| sticker_shaped(v, a) by {
            let j = choose|j: int| 0 <= j < stickers_upto(k).len() && stickers_upto(k)[j] == v;
            if j < prev.len() {
                assert(prev[j] == v);
                assert(prev.contains(v));
            } else {
                assert(fs[j - prev.len()] == v);
                lemma_facet_sticker_shape(k - 1, j - prev.len());
            }
        }
    }
}

/// A sticker's largest component is the one on its axis, its piece is in
/// the cube, and no component is `i8::MIN`.
pub proof fn lemma_shaped_facts(v: Vec4, a: int)
    requires
        sticker_shaped(v, a),
    ensures
        v.spec_max_abs_index() == a,
        v.spec_sticker_piece().in_cube(),
        v.spec_sticker_piece().0[a] == v.0[a] / 2,
        v.spec_sticker_piece().0[a] == 1 || v.spec_sticker_piece().0[a] == -1,
        forall|c: int| 0 <= c < 4 && c != a ==> #[trigger] v.spec_sticker_piece().0[c] == v.0[c],
        forall|c: int| 0 <= c < 4 ==> -128 < #[trigger] v.comp(c),
        !v.in_cube(),
{
    assert(-1 <= v.0[0] <= 1 || a == 0);
    assert(-1 <= v.0[1] <= 1 || a == 1);
    assert(-1 <= v.0[2] <= 1 || a == 2);
    assert(-1 <= v.0[3] <= 1 || a == 3);
    crate::linalg::axis::lemma_axis_of_idx(axis_of(a));
    assert(axis_of(a).idx() == a);
}

/// A signed permutation takes a sticker on axis `a` to a sticker on the
/// image of `a`, whose piece is the image of the sticker's piece.
pub proof fn lemma_rot_sticker(r: Mat4, v: Vec4, a: int)
    requires
        r.is_perm(),
        sticker_shaped(v, a),
    ensures
        sticker_shaped(r.spec_apply(v), r@[a] / 2),
        r.spec_apply(v).spec_sticker_piece() == r.spec_apply(v.spec_sticker_piece()),
{
    lemma_shaped_facts(v, a);
    let p = v.spec_sticker_piece();
    let w = r.spec_apply(v);
    let b = r@[a] / 2;
    r.lemma_view();
    lemma_apply_perm(r, v);
    lemma_apply_perm(r, p);
    assert forall|c: int| 0 <= c < 4 implies -128 < #[trigger] p.comp(c) by {}
    let rp = r.spec_apply(p);
    assert(0 <= b < 4);
    assert forall|k: int| 0 <= k < 4 && k != b implies -1 <= #[trigger] w.0[k] <= 1 by {
        lemma_perm_onto(r, k);
        let c = choose|c: int| 0 <= c < 4 && #[trigger] r@[c] / 2 == k;
        assert(c != a);
        let sv = crate::linalg::facet::sign_of_idx(r@[c]).val();
        assert(sv == 1 || sv == -1);
        let wk = w.0[k] as int;
        let vc = v.comp(c) as int;
        assert(wk == sv * vc);
        assert(-1 <= wk <= 1) by (nonlinear_arith)
            requires
                wk == sv * vc,
                sv == 1 || sv == -1,
                -1 <= vc <= 1,
        ;
    }
    let sa = crate::linalg::facet::sign_of_idx(r@[a]).val();
    assert(sa == 1 || sa == -1);
    let wb = w.0[b] as int;
    let va = v.comp(a) as int;
    assert(wb == sa * va);
    assert(wb == 2 || wb == -2) by (nonlinear_arith)
        requires
            wb == sa * va,
            sa == 1 || sa == -1,
            va == 2 || va == -2,
    ;
    assert(sticker_shaped(w, b));
    lemma_shaped_facts(w, b);
    assert forall|k: int| 0 <= k < 4 implies #[trigger] w.spec_sticker_piece().0[k] == rp.0[k] by {
        lemma_perm_onto(r, k);
        let c = choose|c: int| 0 <= c < 4 && #[trigger] r@[c] / 2 == k;
        let sv = crate::linalg::facet::sign_of_idx(r@[c]).val();
        assert(sv == 1 || sv == -1);
        assert(rp.0[k] == sv * p.comp(c));
        assert(w.0[k] == sv * v.comp(c));
        if c == a {
            assert(k == b);
            let va = v.comp(a) as int;
            let pa = p.comp(a) as int;
            let wk = w.0[k] as int;
            assert(pa == va / 2);
            assert(w.spec_sticker_piece().0[b] == w.0[b] / 2);
            assert(wk / 2 == sv * pa) by (nonlinear_arith)
                requires
                    wk == sv * va,
                    pa == va / 2,
                    sv == 1 || sv == -1,
                    va == 2 || va == -2,
            ;
        } else {
            assert(k != b);
        }
    }
    assert(w.spec_sticker_piece().0 =~= rp.0);
}

/// A twist affects a sticker exactly when it affects the sticker's piece.
pub proof fn lemma_affects_sticker(t: Twist, v: Vec4, a: int)
    requires
        sticker_shaped(v, a),
    ensures
        t.spec_affects(v) == t.spec_affects(v.spec_sticker_piece()),
{
    lemma_shaped_facts(v, a);
    let f = facet_of(t.idx() / 23);
    let ax = f.spec_axis();
    crate::linalg::axis::lemma_axis_of_idx(ax);
    let sg = f.spec_sign().val();
    assert(sg == 1 || sg == -1);
    let p = v.spec_sticker_piece();
    let vv = v.at(ax) as int;
    let pv = p.at(ax) as int;
    if ax.idx() == a {
        assert(pv == vv / 2);
        assert((vv * sg > 0) == (pv * sg > 0)) by (nonlinear_arith)
            requires
                pv == vv / 2,
                vv == 2 || vv == -2,
                sg == 1 || sg == -1,
        ;
    } else {
        assert(pv == vv);
    }
}

/// A sticker position is a valid sticker position.
pub proof fn lemma_shaped_ok(v: Vec4, a: int)
    requires
        sticker_shaped(v, a),
    ensures
        sticker_ok(v),
{
    lemma_shaped_facts(v, a);
    assert(-1 <= v.0[0] <= 1 || a == 0);
    assert(-1 <= v.0[1] <= 1 || a == 1);
    assert(-1 <= v.0[2] <= 1 || a == 2);
    assert(-1 <= v.0[3] <= 1 || a == 3);
}

/// Whether the sticker at `v` came from `axis`, as a bit.
pub open spec fn from_axis_bit(pieces: Seq<(Vec4, Mat4)>, v: Vec4, axis: Axis) -> u128 {
    if sticker_from_axis(pieces, v, axis) {
        1
    } else {
        0
    }
}

/// A twist takes the sticker at `v` to the sticker at the image of `v`, and
/// whether it came from `axis` stays.
pub proof fn lemma_sticker_twisted(pieces: Seq<(Vec4, Mat4)>, t: Twist, v: Vec4, a: int, axis: Axis)
    requires
        valid_pieces(pieces),
        t.inv(),
        sticker_shaped(v, a),
    ensures
        from_axis_bit(twist_pieces(pieces, t), moved_point(t, v), axis) == from_axis_bit(pieces, v, axis),
{
    let rot = t.spec_rot();
    let p = v.spec_sticker_piece();
    lemma_shaped_facts(v, a);
    lemma_shaped_ok(v, a);
    lemma_affects_sticker(t, v, a);
    crate::puzzle::twist::lemma_twist_keeps_side(t, p);
    lemma_twisted_slot(pieces, t, p);
    lemma_slot_piece(pieces, p);
    let pc = pieces[cube_index(p)];
    let att = pc.1;
    if t.spec_affects(v) {
        lemma_rot_sticker(rot, v, a);
        let w = rot.spec_apply(v);
        lemma_shaped_ok(w, rot@[a] / 2);
        lemma_shaped_facts(w, rot@[a] / 2);
        assert(moved_point(t, p) == rot.spec_apply(p));
        assert(w.spec_sticker_piece() == moved_point(t, p));
        let np = twist_pieces(pieces, t)[cube_index(w.spec_sticker_piece())];
        assert(np == (pc.0, rot.spec_mul(att)));
        lemma_axis_image_mul(att, rot, axis);
        crate::linalg::axis::lemma_axis_of_idx(axis);
        att.lemma_view();
        rot.lemma_view();
        crate::linalg::mat4::lemma_mul_perm(rot, att);
        Mat4::lemma_mul(rot, att);
        rot.spec_mul(att).lemma_view();
        let u = att@[axis.idx()] / 2;
        assert(0 <= u < 4);
        let bu = axis_of(u);
        crate::linalg::axis::lemma_axis_of_idx(bu);
        let c1 = rot.spec_mul(att)@[axis.idx()] / 2;
        let c2 = rot@[u] / 2;
        crate::linalg::axis::lemma_axis_of_idx(axis_of(c1));
        crate::linalg::axis::lemma_axis_of_idx(axis_of(c2));
        assert(c1 == c2);
        assert((rot@[u] / 2 == rot@[a] / 2) == (u == a));
    }
}

/// Moving the bits of stickers by a twist, keeping each bit, gives the bits
/// of the twisted puzzle: for each sticker, whether it came from `axis`.
pub proof fn lemma_stickers_moved(
    pieces: Seq<(Vec4, Mat4)>,
    t: Twist,
    pts: Seq<Vec4>,
    axis: Axis,
    x: u128,
    y: u128,
)
    requires
        valid_pieces(pieces),
        t.inv(),
        forall|i: int| 0 <= i < pts.len() ==> is_sticker(#[trigger] pts[i]),
        has_twist_row(pts, t),
        moves_fields(x, y, pts, t, 1, 0, FieldRule::Keep),
        forall|i: int|
            0 <= i < pts.len() ==> #[trigger] field(x, field_pos(0, i, 1) as u128, 1) == from_axis_bit(
                pieces,
                pts[i],
                axis,
            ),
    ensures
        forall|j: int|
            0 <= j < pts.len() ==> #[trigger] field(y, field_pos(0, j, 1) as u128, 1) == from_axis_bit(
                twist_pieces(pieces, t),
                pts[j],
                axis,
            ),
{
    let row = choose|row: Seq<usize>| #[trigger] is_twist_row(pts, t, row);
    assert forall|j: int| 0 <= j < pts.len() implies #[trigger] field(y, field_pos(0, j, 1) as u128, 1)
        == from_axis_bit(twist_pieces(pieces, t), pts[j], axis) by {
        lemma_row_onto(pts, t, row, j);
        let i = choose|i: int| 0 <= i < pts.len() && #[trigger] row[i] == j;
        assert(pts[row[i] as int] == moved_point(t, pts[i]));
        let a = choose|a: int| sticker_shaped(pts[i], a);
        lemma_sticker_twisted(pieces, t, pts[i], a, axis);
        assert(field(x, field_pos(0, i, 1) as u128, 1) == from_axis_bit(pieces, pts[i], axis));
    }
}

/// The bits of [`bits_value`]: bit `i` is set exactly when `bs[i]` is, and
/// no bit from `bs.len()` is set.
pub proof fn lemma_bits_value_fields(bs: Seq<bool>)
    requires
        bs.len() <= 128,
    ensures
        forall|i: int|
            0 <= i < bs.len() ==> #[trigger] field(bits_value(bs), i as u128, 1) == if bs[i] {
                1u128
            } else {
                0u128
            },
        forall|t: int| bs.len() <= t < 128 ==> #[trigger] bit(bits_value(bs), t as u128) == 0,
    decreases bs.len(),
{
    if bs.len() == 0 {
        assert forall|t: int| bs.len() <= t < 128 implies #[trigger] bit(bits_value(bs), t as u128) == 0 by {
            lemma_or_bit(0, 0, t as u128);
        }
    } else {
        let d = bs.drop_last();
        lemma_bits_value_fields(d);
        let k = (bs.len() - 1) as u128;
        let x = bits_value(d);
        assert forall|i: int| 0 <= i < bs.len() implies #[trigger] field(bits_value(bs), i as u128, 1) == if bs[i] {
            1u128
        } else {
            0u128
        } by {
            lemma_or_bit(x, k, i as u128);
            lemma_low_mask_step(bits_value(bs), i as u128, 1);
            lemma_low_mask_step(x, i as u128, 1);
            if i < d.len() {
                assert(d[i] == bs[i]);
            }
        }
        assert forall|t: int| bs.len() <= t < 128 implies #[trigger] bit(bits_value(bs), t as u128) == 0 by {
            lemma_or_bit(x, k, t as u128);
        }
    }
}

/// A number whose bit `i` is `bs[i]` and whose bits from `bs.len()` to `w`
/// (64 or 128) are clear is the packing of `bs`, truncated to `w` bits.
pub proof fn lemma_bits_value_eq(x: u128, bs: Seq<bool>, w: nat)
    requires
        w == 64 || w == 128,
        bs.len() <= w,
        w == 64 ==> x < 0x1_0000_0000_0000_0000,
        forall|i: int| 0 <= i < bs.len() ==> #[trigger] field(x, i as u128, 1) == if bs[i] {
            1u128
        } else {
            0u128
        },
        forall|tt: int| bs.len() <= tt < w ==> #[trigger] bit(x, tt as u128) == 0,
    ensures
        w == 64 ==> x == (bits_value(bs) as u64) as u128,
        w == 128 ==> x == bits_value(bs),
{
    let n = bs.len();
    let bn = bits_value(bs);
    lemma_bits_value_fields(bs);
    let y = if w == 64 {
        (bn as u64) as u128
    } else {
        bn
    };
    assert forall|i: nat| i < n implies field(x, (0 + i * 1) as u128, 1 as u128) == #[trigger] field(
        y,
        (0 + i * 1) as u128,
        1 as u128,
    ) by {
        if w == 64 {
            lemma_truncate_u64(bn, i as u128, 1);
        }
        assert(field(x, i as u128, 1) == if bs[i as int] { 1u128 } else { 0u128 });
    }
    assert forall|i: nat| i < w - n implies field(x, (n + i * 1) as u128, 1 as u128) == #[trigger] field(
        y,
        (n + i * 1) as u128,
        1 as u128,
    ) by {
        let tt = n + i;
        if w == 64 {
            lemma_truncate_u64(bn, tt as u128, 1);
        }
        lemma_low_mask_step(x, tt as u128, 1);
        lemma_low_mask_step(y, tt as u128, 1);
        assert(bit(x, tt as u128) == 0);
        assert(bit(bn, tt as u128) == 0);
    }
    lemma_low_mask_step(x, 0, 1);
    lemma_low_mask_step(y, 0, 1);
    lemma_low_fields_eq(x, y, 0, 1, n);
    lemma_low_fields_eq(x, y, n, 1, (w - n) as nat);
}

/// The packed sticker bits, truncated to `w` bits (64 or 128): each bit is
/// the sticker's, and the bits above are clear.
proof fn lemma_sticker_bits_of(
    pieces: Seq<(Vec4, Mat4)>,
    pts: Seq<Vec4>,
    axis: Axis,
    bs: Seq<bool>,
    x: u128,
    w: nat,
)
    requires
        w == 64 || w == 128,
        pts.len() <= w,
        bs.len() == pts.len(),
        forall|i: int| 0 <= i < pts.len() ==> #[trigger] bs[i] == sticker_from_axis(pieces, pts[i], axis),
        w == 64 ==> x == (bits_value(bs) as u64) as u128,
        w == 128 ==> x == bits_value(bs),
    ensures
        forall|i: int|
            0 <= i < pts.len() ==> #[trigger] field(x, field_pos(0, i, 1) as u128, 1) == from_axis_bit(
                pieces,
                pts[i],
                axis,
            ),
        forall|tt: int| pts.len() <= tt < w ==> #[trigger] bit(x, tt as u128) == 0,
{
    let b = bits_value(bs);
    lemma_bits_value_fields(bs);
    assert forall|i: int| 0 <= i < pts.len() implies #[trigger] field(x, field_pos(0, i, 1) as u128, 1)
        == from_axis_bit(pieces, pts[i], axis) by {
        if w == 64 {
            lemma_truncate_u64(b, i as u128, 1);
        }
        assert(field(b, i as u128, 1) == if bs[i] { 1u128 } else { 0u128 });
    }
    assert forall|tt: int| pts.len() <= tt < w implies #[trigger] bit(x, tt as u128) == 0 by {
        if w == 64 {
            lemma_truncate_u64(b, tt as u128, 1);
        }
    }
}

/// Sticker bits, packed by [`bits_value`] into `w` bits (64 or 128), moved
/// by a twist that keeps each bit and keeps the bits above the stickers, are
/// the packed bits of the twisted puzzle.
pub proof fn lemma_sticker_bits_follow(
    pieces: Seq<(Vec4, Mat4)>,
    t: Twist,
    pts: Seq<Vec4>,
    axis: Axis,
    old_bits: Seq<bool>,
    new_bits: Seq<bool>,
    xo: u128,
    xn: u128,
    w: nat,
)
    requires
        valid_pieces(pieces),
        t.inv(),
        w == 64 || w == 128,
        pts.len() <= w,
        forall|i: int| 0 <= i < pts.len() ==> is_sticker(#[trigger] pts[i]),
        has_twist_row(pts, t),
        moves_fields(xo, xn, pts, t, 1, 0, FieldRule::Keep),
        old_bits.len() == pts.len(),
        new_bits.len() == pts.len(),
        forall|i: int| 0 <= i < pts.len() ==> #[trigger] old_bits[i] == sticker_from_axis(pieces, pts[i], axis),
        forall|i: int|
            0 <= i < pts.len() ==> #[trigger] new_bits[i] == sticker_from_axis(twist_pieces(pieces, t), pts[i], axis),
        w == 64 ==> xo == (bits_value(old_bits) as u64) as u128,
        w == 128 ==> xo == bits_value(old_bits),
        w == 64 ==> xn < 0x1_0000_0000_0000_0000,
        forall|tt: int| pts.len() <= tt < w ==> #[trigger] bit(xn, tt as u128) == bit(xo, tt as u128),
    ensures
        w == 64 ==> xn == (bits_value(new_bits) as u64) as u128,
        w == 128 ==> xn == bits_value(new_bits),
{
    lemma_sticker_bits_of(pieces, pts, axis, old_bits, xo, w);
    lemma_stickers_moved(pieces, t, pts, axis, xo, xn);
    assert forall|i: int| 0 <= i < new_bits.len() implies #[trigger] field(xn, i as u128, 1) == if new_bits[i] {
        1u128
    } else {
        0u128
    } by {
        assert(field(xn, field_pos(0, i, 1) as u128, 1) == from_axis_bit(twist_pieces(pieces, t), pts[i], axis));
    }
    assert forall|tt: int| new_bits.len() <= tt < w implies #[trigger] bit(xn, tt as u128) == 0 by {
        assert(bit(xn, tt as u128) == bit(xo, tt as u128));
    }
    lemma_bits_value_eq(xn, new_bits, w);
}

} // verus!
