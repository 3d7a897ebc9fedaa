//! Orientation rules shared by the stages.
use vstd::prelude::*;

use crate::linalg::axis::axis_of;
use crate::linalg::{Axis, Mat4, Vec4};

verus! {

/// The axes on which a vector is nonzero come in increasing order.
pub proof fn lemma_nonzero_axes_increasing(v: Vec4)
    ensures
        v.spec_nonzero_axes().len() <= 4,
        forall|i: int, j: int|
            0 <= i < j < v.spec_nonzero_axes().len() ==> (#[trigger] v.spec_nonzero_axes()[i]).idx()
                < (#[trigger] v.spec_nonzero_axes()[j]).idx(),
        forall|i: int|
            0 <= i < v.spec_nonzero_axes().len() ==> v.at(#[trigger] v.spec_nonzero_axes()[i])
                != 0,
        forall|a: Axis| v.at(a) != 0 ==> #[trigger] v.spec_nonzero_axes().contains(a),
{
    let s0 = Seq::<Axis>::empty();
    let s1 = if v.0[0] != 0 { s0.push(Axis::X) } else { s0 };
    let s2 = if v.0[1] != 0 { s1.push(Axis::Y) } else { s1 };
    let s3 = if v.0[2] != 0 { s2.push(Axis::Z) } else { s2 };
    let s4 = if v.0[3] != 0 { s3.push(Axis::W) } else { s3 };
    assert(s4 == v.spec_nonzero_axes());
    assert forall|a: Axis| v.at(a) != 0 implies #[trigger] s4.contains(a) by {
        if a == Axis::X {
            assert(s1[0] == Axis::X);
            assert(s4[0] == Axis::X);
        } else if a == Axis::Y {
            assert(s2[s2.len() - 1] == Axis::Y);
            assert(s4[s2.len() - 1] == Axis::Y);
        } else if a == Axis::Z {
            assert(s3[s3.len() - 1] == Axis::Z);
            assert(s4[s3.len() - 1] == Axis::Z);
        } else {
            assert(s4[s4.len() - 1] == Axis::W);
        }
    }
}

/// The first axis (in `X, Y, Z, W` order) on which a vector is nonzero.
pub open spec fn first_nonzero_axis(v: Vec4) -> Axis {
    v.spec_nonzero_axes()[0]
}

/// What [`xyz_ro`] returns.
pub open spec fn spec_xyz_ro(r: Mat4, v: Vec4, o: u8) -> u8 {
    if o == 0 || o == 3 {
        o
    } else {
        let old_axis = first_nonzero_axis(v);
        let new_axis = first_nonzero_axis(r.spec_apply(v));
        if r@[old_axis.idx()] / 2 == new_axis.idx() {
            o
        } else {
            o ^ 3
        }
    }
}

/// Returns an updated ridge orientation relative to the first axis on which
/// the ridge has a nonzero coordinate: the X axis if it is on `R`/`L`,
/// otherwise the Y axis if it is on `U`/`D`, otherwise the Z axis.
///
/// - `r` = rotation matrix to apply
/// - `v` = old position
/// - `o` = old orientation bits (just the lowest 2 bits): `00` and `11` are
///   kept; `01` and `10` are kept if `r` takes the old first nonzero axis to
///   the new one, and swapped otherwise.
pub fn xyz_ro(r: Mat4, v: Vec4, o: u8) -> (res: u8)
    requires
        o < 4,
        r.is_perm(),
        v.in_cube(),
        o == 1 || o == 2 ==> v != Vec4([0i8, 0i8, 0i8, 0i8]),
    ensures
        res == spec_xyz_ro(r, v, o),
{
    if o == 0 || o == 3 {
        return o;
    }
    let order = [Axis::X, Axis::Y, Axis::Z, Axis::W];
    proof {
        lemma_nonzero_axes_increasing(v);
        crate::linalg::mat4::lemma_apply_in_cube(r, v);
        lemma_apply_nonzero(r, v);
        lemma_nonzero_axes_increasing(r.spec_apply(v));
        assert(v.at(order[0]) != 0 || v.at(order[1]) != 0 || v.at(order[2]) != 0 || v.at(order[3]) != 0)
            by {
            if v.0[0] == 0 && v.0[1] == 0 && v.0[2] == 0 && v.0[3] == 0 {
                assert(v.0 =~= Vec4([0i8, 0i8, 0i8, 0i8]).0);
            }
        }
    }
    let w = r.mul_vec(v);
    proof {
        assert(w.at(order[0]) != 0 || w.at(order[1]) != 0 || w.at(order[2]) != 0 || w.at(order[3]) != 0);
    }
    let old_axis = match v.unwrap_first_nonzero_axis(order) {
        Some(a) => a,
        None => {
            assert(v.at(order[0]) == 0 && v.at(order[1]) == 0 && v.at(order[2]) == 0 && v.at(order[3]) == 0);
            return o;
        },
    };
    let new_axis = match w.unwrap_first_nonzero_axis(order) {
        Some(a) => a,
        None => {
            assert(w.at(order[0]) == 0 && w.at(order[1]) == 0 && w.at(order[2]) == 0 && w.at(order[3]) == 0);
            return o;
        },
    };
    proof {
        lemma_first_axis(v, old_axis, order);
        lemma_first_axis(w, new_axis, order);
    }
    if old_axis.transform_by(r) == new_axis {
        o
    } else {
        o ^ 3
    }
}

/// The first axis on which a vector is nonzero, found by a scan in `X, Y, Z,
/// W` order, is the first of its nonzero axes.
proof fn lemma_first_axis(v: Vec4, a: Axis, order: [Axis; 4])
    requires
        order[0] == Axis::X && order[1] == Axis::Y && order[2] == Axis::Z && order[3] == Axis::W,
        exists|k: int|
            0 <= k < 4 && order[k] == a && v.at(a) != 0 && forall|j: int|
                0 <= j < k ==> #[trigger] v.at(order[j]) == 0,
    ensures
        first_nonzero_axis(v) == a,
{
    let k = choose|k: int|
        0 <= k < 4 && order[k] == a && v.at(a) != 0 && forall|j: int|
            0 <= j < k ==> #[trigger] v.at(order[j]) == 0;
    if k >= 1 {
        assert(v.at(order[0]) == 0);
    }
    if k >= 2 {
        assert(v.at(order[1]) == 0);
    }
    if k >= 3 {
        assert(v.at(order[2]) == 0);
    }
}

/// A signed permutation matrix takes a nonzero vector to a nonzero vector,
/// and the nonzero axes of the result are the images of those of the vector.
pub proof fn lemma_apply_nonzero(r: Mat4, v: Vec4)
    requires
        r.is_perm(),
        v.in_cube(),
    ensures
        forall|a: Axis|
            #![trigger v.at(a)]
            r.spec_apply(v).at(axis_of(r@[a.idx()] / 2)) != 0 <==> v.at(a) != 0,
        v.at(Axis::X) != 0 || v.at(Axis::Y) != 0 || v.at(Axis::Z) != 0 || v.at(Axis::W) != 0
            ==> r.spec_apply(v).at(Axis::X) != 0 || r.spec_apply(v).at(Axis::Y) != 0
            || r.spec_apply(v).at(Axis::Z) != 0 || r.spec_apply(v).at(Axis::W) != 0,
{
    crate::linalg::mat4::lemma_apply_perm(r, v);
    r.lemma_view();
    assert forall|a: Axis| #![trigger v.at(a)]
        r.spec_apply(v).at(axis_of(r@[a.idx()] / 2)) != 0 <==> v.at(a) != 0 by {
        let c = a.idx();
        assert(0 <= r@[c] < 8);
        crate::linalg::axis::lemma_axis_of_idx(a);
        let x = r@[c] / 2;
        assert(0 <= x < 4);
        assert(axis_of(x).idx() == x);
        let sg = crate::linalg::facet::sign_of_idx(r@[c]).val();
        let vc = v.comp(c) as int;
        assert(r.spec_apply(v).0[x] == sg * vc);
        assert(sg == 1 || sg == -1);
        assert(sg * vc != 0 <==> vc != 0) by (nonlinear_arith)
            requires
                sg == 1 || sg == -1,
        ;
        assert(v.at(a) == vc);
    }
    if v.at(Axis::X) != 0 {
        assert(r.spec_apply(v).at(axis_of(r@[0] / 2)) != 0);
    } else if v.at(Axis::Y) != 0 {
        assert(r.spec_apply(v).at(axis_of(r@[1] / 2)) != 0);
    } else if v.at(Axis::Z) != 0 {
        assert(r.spec_apply(v).at(axis_of(r@[2] / 2)) != 0);
    } else if v.at(Axis::W) != 0 {
        assert(r.spec_apply(v).at(axis_of(r@[3] / 2)) != 0);
    }
}

/// What [`rl_eo`] returns.
pub open spec fn spec_rl_eo(r: Mat4, v: Vec4, o: u8) -> u8 {
    if o == 0 {
        0
    } else {
        let old = v.spec_nonzero_axes()[3 - o];
        let new = axis_of(r@[old.idx()] / 2);
        (3 - r.spec_apply(v).spec_nonzero_axes().index_of(new)) as u8
    }
}

/// Returns an updated edge orientation relative to the X axis.
///
/// - `r` = rotation matrix to apply
/// - `v` = old position
/// - `o` = old orientation bits (just the lowest 2 bits): `0` is kept;
///   otherwise the nonzero axis of `v` numbered `3 - o` is carried by `r`,
///   and the result is 3 minus its place among the nonzero axes of `r * v`.
pub fn rl_eo(r: Mat4, v: Vec4, o: u8) -> (res: u8)
    requires
        o <= 3,
        r.is_perm(),
        v.in_cube(),
        o > 0 ==> v.spec_nonzero_axes().len() > 3 - o,
    ensures
        res == spec_rl_eo(r, v, o),
        res <= 3,
{
    if o == 0 {
        return 0;
    }
    let axes = v.nonzero_axes();
    let old = axes[(3 - o) as usize];
    let new = old.transform_by(r);
    let w = r.mul_vec(v);
    let new_axes = w.nonzero_axes();
    proof {
        lemma_nonzero_axes_increasing(v);
        lemma_nonzero_axes_increasing(w);
        crate::linalg::mat4::lemma_apply_in_cube(r, v);
        lemma_apply_nonzero(r, v);
        assert(v.at(old) != 0);
        crate::linalg::axis::lemma_axis_of_idx(new);
        assert(new == axis_of(r@[old.idx()] / 2));
        assert(w.at(new) != 0);
        assert(new_axes@.contains(new));
    }
    let mut p: usize = 0;
    while p < new_axes.len() && new_axes[p] != new
        invariant
            0 <= p <= new_axes@.len(),
            new_axes@.contains(new),
            forall|j: int| 0 <= j < p ==> #[trigger] new_axes@[j] != new,
        decreases new_axes@.len() - p,
    {
        p = p + 1;
    }
    proof {
        if p == new_axes@.len() {
            let j = choose|j: int| 0 <= j < new_axes@.len() && new_axes@[j] == new;
            assert(new_axes@[j] != new);
        }
        let q = new_axes@.index_of(new);
        assert(new_axes@.contains(new));
        assert(0 <= q < new_axes@.len() && new_axes@[q] == new);
        if q != p {
            if q < p {
                assert(new_axes@[q] != new);
            } else {
                assert(new_axes@[p as int].idx() < new_axes@[q].idx());
            }
        }
    }
    (3 - p) as u8
}

/// Returns an initial edge orientation relative to the X axis: [`rl_eo`] of
/// the attitude, the initial position, and `3` if the initial position is
/// off the `M` slice (`0` otherwise).
pub fn rl_init_eo(init: Vec4, att: Mat4) -> (r: u64)
    requires
        att.is_perm(),
        init.in_cube(),
    ensures
        r == spec_rl_eo(att, init, if init.0[0] == 0 { 0 } else { 3 }),
{
    let o: u8 = if init.0[0] == 0 {
        0
    } else {
        3
    };
    proof {
        if o == 3 {
            lemma_nonzero_axes_increasing(init);
            assert(init.spec_nonzero_axes().contains(Axis::X));
        }
    }
    rl_eo(att, init, o) as u64
}

/// The axis to which a matrix takes axis `a`.
pub open spec fn axis_image(r: Mat4, a: Axis) -> Axis {
    axis_of(r@[a.idx()] / 2)
}

/// Swapping the two bits of an orientation: `00` and `11` stay, `01` and
/// `10` trade places, and swapping twice changes nothing.
pub proof fn lemma_swap_bits(o: u8)
    requires
        o < 4,
    ensures
        o ^ 3 < 4,
        (o ^ 3) ^ 3 == o,
        o == 1 ==> o ^ 3 == 2,
        o == 2 ==> o ^ 3 == 1,
{
    assert(o ^ 3 < 4 && (o ^ 3) ^ 3 == o && (o == 1 ==> o ^ 3 == 2) && (o == 2 ==> o ^ 3 == 1)) by (bit_vector)
        requires
            o < 4,
    ;
}

/// The product of two matrices takes an axis where the second and then the
/// first take it.
pub proof fn lemma_axis_image_mul(r1: Mat4, r2: Mat4, a: Axis)
    requires
        r1.wf(),
        r2.wf(),
    ensures
        axis_image(r2.spec_mul(r1), a) == axis_image(r2, axis_image(r1, a)),
{
    crate::linalg::axis::lemma_axis_of_idx(a);
    let i = a.idx();
    r1.lemma_view();
    r2.lemma_view();
    crate::linalg::mat4::lemma_apply_mul(r2, r1, 2 * i);
    assert(r1.apply_idx(2 * i) == r1@[i]);
    let x = r1@[i];
    assert(0 <= x < 8);
    let b = axis_of(x / 2);
    assert(b.idx() == x / 2);
    assert(r2.spec_mul(r1).apply_idx(2 * i) == r2.spec_mul(r1)@[i]);
    assert(r2.apply_idx(x) / 2 == r2@[x / 2] / 2);
}

/// The first nonzero axis of a ridge moved by a signed permutation is the
/// image of one of its two nonzero axes.
proof fn lemma_ridge_first(r: Mat4, v: Vec4)
    requires
        r.wf(),
        r.is_perm(),
        v.in_cube(),
        v.spec_nonzero_axes().len() == 2,
    ensures
        first_nonzero_axis(r.spec_apply(v)) == axis_image(r, v.spec_nonzero_axes()[0]) || first_nonzero_axis(
            r.spec_apply(v),
        ) == axis_image(r, v.spec_nonzero_axes()[1]),
        axis_image(r, v.spec_nonzero_axes()[0]) != axis_image(r, v.spec_nonzero_axes()[1]),
        r.spec_apply(v).spec_nonzero_axes().len() > 0,
{
    let w = r.spec_apply(v);
    lemma_nonzero_axes_increasing(v);
    lemma_apply_nonzero(r, v);
    crate::linalg::mat4::lemma_apply_in_cube(r, v);
    lemma_nonzero_axes_increasing(w);
    let a0 = v.spec_nonzero_axes()[0];
    let a1 = v.spec_nonzero_axes()[1];
    crate::linalg::axis::lemma_axis_of_idx(a0);
    crate::linalg::axis::lemma_axis_of_idx(a1);
    r.lemma_view();
    assert(v.at(a0) != 0);
    assert(w.at(axis_image(r, a0)) != 0);
    assert(w.spec_nonzero_axes().contains(axis_image(r, a0)));
    let f = first_nonzero_axis(w);
    assert(w.at(f) != 0);
    crate::linalg::axis::lemma_axis_of_idx(f);
    crate::linalg::mat4::lemma_perm_onto(r, f.idx());
    let c = choose|c: int| 0 <= c < 4 && #[trigger] r@[c] / 2 == f.idx();
    let b = axis_of(c);
    assert(b.idx() == c);
    assert(axis_image(r, b) == f);
    assert(v.at(b) != 0);
    assert(v.spec_nonzero_axes().contains(b));
    let k = choose|k: int| 0 <= k < v.spec_nonzero_axes().len() && v.spec_nonzero_axes()[k] == b;
    assert(a0.idx() < a1.idx());
    assert(r@[a0.idx()] / 2 != r@[a1.idx()] / 2);
}

/// Turning a ridge's orientation by the identity keeps it.
pub proof fn law_xyz_ro_ident(v: Vec4, o: u8)
    requires
        o < 4,
        v.in_cube(),
        v.spec_nonzero_axes().len() > 0,
    ensures
        spec_xyz_ro(Mat4::spec_ident(), v, o) == o,
{
    Mat4::lemma_ident();
    crate::linalg::mat4::lemma_apply_ident(v);
    let a = first_nonzero_axis(v);
    crate::linalg::axis::lemma_axis_of_idx(a);
    assert(Mat4::spec_ident()@[a.idx()] == 2 * a.idx());
}

/// Turning a ridge's orientation by one signed permutation and then by
/// another is turning it by their product; `00` and `11` stay, and `01`
/// and `10` stay or trade places.
#[verifier::spinoff_prover]
#[verifier::rlimit(40)]
pub proof fn law_xyz_ro_compose(r1: Mat4, r2: Mat4, v: Vec4, o: u8)
    requires
        r1.wf(),
        r1.is_perm(),
        r2.wf(),
        r2.is_perm(),
        v.in_cube(),
        v.spec_nonzero_axes().len() == 2,
        o < 4,
    ensures
        spec_xyz_ro(r2, r1.spec_apply(v), spec_xyz_ro(r1, v, o)) == spec_xyz_ro(r2.spec_mul(r1), v, o),
        (o == 0 || o == 3) ==> spec_xyz_ro(r1, v, o) == o,
        (o == 1 || o == 2) ==> spec_xyz_ro(r1, v, o) == o || spec_xyz_ro(r1, v, o) == o ^ 3,
{
    lemma_swap_bits(o);
    if o == 1 || o == 2 {
        let w = r1.spec_apply(v);
        crate::linalg::mat4::lemma_apply_in_cube(r1, v);
        crate::linalg::mat4::lemma_apply_mul_perm(r2, r1, v);
        crate::linalg::mat4::lemma_mul_perm(r2, r1);
        lemma_nonzero_axes_increasing(v);
        lemma_apply_nonzero(r1, v);
        lemma_nonzero_axes_increasing(w);
        let a0 = v.spec_nonzero_axes()[0];
        let c = v.spec_nonzero_axes()[1];
        // w is a ridge too: its nonzero axes are the images of a0 and c
        assert(w.spec_nonzero_axes().len() == 2) by {
            lemma_ridge_first(r1, v);
            let i0 = axis_image(r1, a0);
            let i1 = axis_image(r1, c);
            assert(w.spec_nonzero_axes().contains(i0));
            assert(w.spec_nonzero_axes().contains(i1));
            let ws = w.spec_nonzero_axes();
            assert forall|k: int| 0 <= k < ws.len() implies ws[k] == i0 || ws[k] == i1 by {
                let f = ws[k];
                assert(w.at(f) != 0);
                crate::linalg::axis::lemma_axis_of_idx(f);
                crate::linalg::mat4::lemma_perm_onto(r1, f.idx());
                let cc = choose|cc: int| 0 <= cc < 4 && #[trigger] r1@[cc] / 2 == f.idx();
                let b = axis_of(cc);
                assert(b.idx() == cc);
                assert(v.at(b) != 0);
                assert(v.spec_nonzero_axes().contains(b));
            }
            let j0 = choose|j: int| 0 <= j < ws.len() && ws[j] == i0;
            let j1 = choose|j: int| 0 <= j < ws.len() && ws[j] == i1;
            assert(j0 != j1);
            if ws.len() > 2 {
                assert(ws[0] != ws[1] && ws[1] != ws[2] && ws[0] != ws[2]);
            }
        }
        lemma_ridge_first(r1, v);
        lemma_ridge_first(r2, w);
        lemma_ridge_first(r2.spec_mul(r1), v);
        lemma_axis_image_mul(r1, r2, a0);
        lemma_axis_image_mul(r1, r2, c);
        let x1 = spec_xyz_ro(r1, v, o);
        lemma_swap_bits(x1);
        // the first nonzero axis of w is the image of a0 or of c
        let f1 = first_nonzero_axis(w);
        assert(w.spec_nonzero_axes()[0] == f1);
        assert(w.spec_nonzero_axes()[1] == axis_image(r1, a0) || w.spec_nonzero_axes()[1] == axis_image(r1, c));
        crate::linalg::axis::lemma_axis_of_idx(a0);
        crate::linalg::axis::lemma_axis_of_idx(f1);
        let fi = axis_image(r1, a0);
        crate::linalg::axis::lemma_axis_of_idx(fi);
        r1.lemma_view();
        assert(0 <= r1@[a0.idx()] < 8);
        assert((r1@[a0.idx()] / 2 == f1.idx()) == (fi == f1));
        let ga = axis_image(r2.spec_mul(r1), a0);
        crate::linalg::axis::lemma_axis_of_idx(ga);
        r2.spec_mul(r1).lemma_view();
        Mat4::lemma_mul(r2, r1);
        assert(0 <= r2.spec_mul(r1)@[a0.idx()] < 8);
        let f12 = first_nonzero_axis(r2.spec_mul(r1).spec_apply(v));
        crate::linalg::axis::lemma_axis_of_idx(f12);
        assert((r2.spec_mul(r1)@[a0.idx()] / 2 == f12.idx()) == (ga == f12));
        let gf = axis_image(r2, f1);
        crate::linalg::axis::lemma_axis_of_idx(gf);
        r2.lemma_view();
        assert(0 <= r2@[f1.idx()] < 8);
        assert((r2@[f1.idx()] / 2 == f12.idx()) == (gf == f12));
    }
}

/// A signed permutation keeps the number of nonzero axes of an edge (at
/// most 3 where the vector has 3).
proof fn lemma_edge_axes(r: Mat4, v: Vec4)
    requires
        r.wf(),
        r.is_perm(),
        v.in_cube(),
        v.spec_nonzero_axes().len() == 3,
    ensures
        r.spec_apply(v).spec_nonzero_axes().len() <= 3,
{
    let w = r.spec_apply(v);
    lemma_nonzero_axes_increasing(v);
    lemma_apply_nonzero(r, v);
    crate::linalg::mat4::lemma_apply_in_cube(r, v);
    lemma_nonzero_axes_increasing(w);
    if w.spec_nonzero_axes().len() == 4 {
        let ws = w.spec_nonzero_axes();
        assert(ws[0].idx() < ws[1].idx() && ws[1].idx() < ws[2].idx() && ws[2].idx() < ws[3].idx());
        crate::linalg::axis::lemma_axis_of_idx(ws[0]);
        crate::linalg::axis::lemma_axis_of_idx(ws[3]);
        assert forall|c: int| 0 <= c < 4 implies v.0[c] != 0 by {
            let a = axis_of(c);
            assert(a.idx() == c);
            let f = axis_image(r, a);
            r.lemma_view();
            assert(0 <= r@[c] < 8);
            crate::linalg::axis::lemma_axis_of_idx(f);
            assert(f.idx() == r@[c] / 2);
            let k = f.idx();
            assert(ws[k] == f) by {
                assert(ws[0].idx() == 0 && ws[1].idx() == 1 && ws[2].idx() == 2 && ws[3].idx() == 3);
                crate::linalg::axis::lemma_axis_of_idx(ws[0]);
                crate::linalg::axis::lemma_axis_of_idx(ws[1]);
                crate::linalg::axis::lemma_axis_of_idx(ws[2]);
                crate::linalg::axis::lemma_axis_of_idx(ws[3]);
            }
            assert(w.at(f) != 0);
            assert(v.at(a) != 0);
        }
        assert(v.spec_nonzero_axes().len() == 4);
    }
}

/// Turning an edge's orientation by the identity keeps it.
pub proof fn law_rl_eo_ident(v: Vec4, o: u8)
    requires
        o <= 3,
        v.in_cube(),
        v.spec_nonzero_axes().len() == 3,
    ensures
        spec_rl_eo(Mat4::spec_ident(), v, o) == o,
{
    if o > 0 {
        Mat4::lemma_ident();
        crate::linalg::mat4::lemma_apply_ident(v);
        lemma_nonzero_axes_increasing(v);
        let ax = v.spec_nonzero_axes();
        let old = ax[3 - o];
        crate::linalg::axis::lemma_axis_of_idx(old);
        assert(Mat4::spec_ident()@[old.idx()] == 2 * old.idx());
        assert(axis_of(Mat4::spec_ident()@[old.idx()] / 2) == old);
        assert(ax.contains(old));
        let q = ax.index_of(old);
        assert(0 <= q < ax.len() && ax[q] == old);
        if q < 3 - o {
            assert(ax[q].idx() < ax[3 - o].idx());
        } else if q > 3 - o {
            assert(ax[3 - o].idx() < ax[q].idx());
        }
    }
}

/// Turning an edge's orientation by one signed permutation and then by
/// another is turning it by their product, and only orientation `0` turns
/// to `0`.
#[verifier::spinoff_prover]
pub proof fn law_rl_eo_compose(r1: Mat4, r2: Mat4, v: Vec4, o: u8)
    requires
        r1.wf(),
        r1.is_perm(),
        r2.wf(),
        r2.is_perm(),
        v.in_cube(),
        v.spec_nonzero_axes().len() == 3,
        o <= 3,
    ensures
        spec_rl_eo(r2, r1.spec_apply(v), spec_rl_eo(r1, v, o)) == spec_rl_eo(r2.spec_mul(r1), v, o),
        (spec_rl_eo(r1, v, o) == 0) == (o == 0),
        spec_rl_eo(r1, v, o) <= 3,
{
    if o > 0 {
        let w = r1.spec_apply(v);
        lemma_edge_axes(r1, v);
        lemma_nonzero_axes_increasing(v);
        lemma_apply_nonzero(r1, v);
        crate::linalg::mat4::lemma_apply_in_cube(r1, v);
        crate::linalg::mat4::lemma_apply_mul_perm(r2, r1, v);
        lemma_nonzero_axes_increasing(w);
        let old = v.spec_nonzero_axes()[3 - o];
        crate::linalg::axis::lemma_axis_of_idx(old);
        let new1 = axis_image(r1, old);
        assert(v.at(old) != 0);
        assert(w.at(new1) != 0);
        let ws = w.spec_nonzero_axes();
        assert(ws.contains(new1));
        let q1 = ws.index_of(new1);
        assert(0 <= q1 < ws.len() && ws[q1] == new1);
        let x1 = spec_rl_eo(r1, v, o);
        assert(x1 == (3 - q1) as u8);
        assert(1 <= x1 <= 3);
        assert(3 - x1 == q1);
        assert(ws[3 - x1] == new1);
        lemma_axis_image_mul(r1, r2, old);
    }
}

} // verus!
