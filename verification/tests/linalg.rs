use hsearch::stage_utils::{rl_eo, xyz_ro};
use hsearch::linalg::Axis::{W, X, Y, Z};
use hsearch::linalg::Facet::{B, D, F, I, L, O, R, U};
use hsearch::{Facet, Mat4, Vec4};

fn ident() -> Mat4 {
    Mat4::ident()
}

#[test]
fn mat4_test_vector_ops() {
    assert_eq!(Vec4([10, 20, -30, -40]).neg(), Vec4([-10, -20, 30, 40]));
    let ones = Vec4([1, 2, 3, 4]);
    let tens = Vec4([10, 20, 30, 40]);
    assert_eq!(ones.add(tens), Vec4([11, 22, 33, 44]));
    assert_eq!(ones.sub(tens), Vec4([-9, -18, -27, -36]));

    let mut a = tens;
    a = a.add(ones);
    assert_eq!(a, Vec4([11, 22, 33, 44]));
    a = a.sub(ones);
    assert_eq!(a, tens);

    assert_eq!(tens.get(X), 10);
    assert_eq!(tens.get(Y), 20);
    assert_eq!(tens.get(Z), 30);
    assert_eq!(tens.get(W), 40);

    assert_eq!(tens.scale(-3), Vec4([-30, -60, -90, -120]));
    a = a.scale(-3);
    assert_eq!(a, Vec4([-30, -60, -90, -120]));
}

#[test]
fn linalg_test_vector_ops() {
    mat4_test_vector_ops();
}

#[test]
fn mat4_test_matrix_ops() {
    assert_eq!(ident().mul(ident()), ident());
    assert_eq!(ident().mul_vec(Vec4([10, 20, 30, 40])), Vec4([10, 20, 30, 40]));

    assert_eq!(Mat4::rot(X, Y).mul(Mat4::rot(W, Z)), Mat4::from_cols([U, L, I, F]));
    assert_eq!(Mat4::rot(W, Z).mul(Mat4::rot(X, Y)), Mat4::from_cols([U, L, I, F]));
    assert_eq!(Mat4::rot(X, Y).mul(Mat4::rot(Y, Z)), Mat4::from_cols([U, F, R, O]));
    assert_eq!(Mat4::rot(Y, Z).mul(Mat4::rot(X, Y)), Mat4::from_cols([F, L, D, O]));
    assert_eq!(
        Mat4::from_cols([U, L, I, B]).mul_vec(Vec4([10, 20, 30, 40])),
        Vec4([-20, 10, -40, -30]),
    );
}

#[test]
fn mat4_test_matrix_pow() {
    for m in [ident(), Mat4::refl(W), Mat4::rot(Z, Y), Mat4::from_cols([U, O, L, F])] {
        assert_eq!(m.pow(0), ident());
        assert_eq!(m.pow(1), m);
        assert_eq!(m.pow(2), m.mul(m));
        assert_eq!(m.pow(3), m.mul(m).mul(m));
        assert_eq!(m.pow(4), m.mul(m).mul(m).mul(m));
        assert_eq!(m.pow(5), m.mul(m).mul(m).mul(m).mul(m));
        let mi = m.inv();
        assert_eq!(m.pow(-1), mi);
        assert_eq!(m.pow(-2), mi.mul(mi));
        assert_eq!(m.pow(-3), mi.mul(mi).mul(mi));
    }
}

#[test]
fn mat4_test_rotate_vector() {
    assert_eq!(Mat4::rot(W, Z).mul_vec(Vec4([1, 2, 3, 4])), Vec4([1, 2, 4, -3]));

    assert_eq!(
        Mat4::rot(W, Z).mul(Mat4::rot(X, Z)).mul_vec(Vec4([1, 2, 3, 4])),
        Vec4([-3, 2, 4, -1]),
    );

    let yx = Mat4::rot(Y, X);
    let v = Vec4([1, 2, 3, 4]);
    assert_eq!(yx.mul_vec(yx.mul_vec(v)), yx.mul(yx).mul_vec(v))
}

#[test]
fn linalg_test_rotate_vector() {
    mat4_test_rotate_vector();
}

#[test]
fn mat4_test_matrix_invert() {
    let m = Mat4::rot(X, Y).mul(Mat4::rot(Z, Y));
    let v = Vec4([1, 2, 3, 4]);
    let m_inv = m.inv();
    assert_eq!(m.mul(m_inv), ident());
    assert_eq!(ident(), m.mul(m_inv));
    assert_eq!(m_inv.mul_vec(m.mul_vec(v)), v);
}

#[test]
fn linalg_test_matrix_invert() {
    let m = Mat4::rot(X, Y).mul(Mat4::rot(Z, Y));
    let v = Vec4([1, 2, 3, 4]);
    let m_inv = m.inv();
    assert_eq!(m.mul(m_inv), ident());
    assert_eq!(ident(), m.mul(m_inv));
    assert_eq!(m_inv.mul_vec(m.mul_vec(v)), v);

    assert_eq!(m.t().inv(), m.inv().t()); // just for fun
}

#[test]
fn mat4_test_transform_mat4() {
    assert_eq!(Mat4::rot(Z, X).transform_by(Mat4::rot(X, Y)), Mat4::rot(Z, Y));
}

#[test]
fn linalg_test_transform_mat4() {
    mat4_test_transform_mat4();
}

#[test]
fn facet_test_facet_mat4_to() {
    for f1 in Facet::ALL {
        for f2 in Facet::ALL {
            let m = f1.mat4_to(f2);
            assert_eq!(f1.transform_by(m), f2);
            if f1 == f2 {
                assert_eq!(m, ident());
            }
        }
    }
}

#[test]
fn puzzle_test_facet_mat4_to() {
    for f1 in Facet::ALL {
        for f2 in Facet::ALL {
            let m = f1.mat4_to(f2);
            assert_eq!(f1.transform_by(m), f2);
            if f1 == f2 {
                assert_eq!(m, ident());
            } else if f1.axis() == f2.axis() {
                assert_eq!(m.det(), -1);
            } else {
                assert_eq!(m.det(), 1);
            }
        }
    }
}

#[test]
fn rows_and_transpose() {
    let m = Mat4::from_cols([U, L, I, B]);
    assert_eq!(m.t().t(), m);
    assert_eq!(m.row(X), D);
    assert_eq!(m.row(Y), R);
    assert_eq!(m.row(Z), I);
    assert_eq!(m.row(W), B);
    assert_eq!(Mat4::from_rows([D, R, I, B]), m);
    assert_eq!(m.det(), -1);
    assert_eq!(Mat4::from_cols([U, L, I, F]).det(), 1);
    assert_eq!(Mat4::refl(X).det(), -1);
    assert_eq!(Mat4::from_cols([R, R, U, O]).det(), 0);
}

#[test]
fn powers_add_up() {
    let m = Mat4::from_cols([U, O, L, F]);
    for a in 0..5i8 {
        for b in 0..5i8 {
            assert_eq!(m.pow(a + b), m.pow(a).mul(m.pow(b)));
        }
    }
    assert_eq!(m.mul(m.inv()), ident());
    assert_eq!(m.inv().mul(m), ident());
}

#[test]
fn first_nonzero_axis_or_none() {
    assert_eq!(Vec4([0, 0, 0, 0]).unwrap_first_nonzero_axis([X, Y, Z, W]), None);
    assert_eq!(Vec4([0, 2, 0, 1]).unwrap_first_nonzero_axis([W, X, Y, Z]), Some(W));
    assert_eq!(Vec4([0, 2, 0, 1]).unwrap_first_nonzero_axis([X, Y, Z, W]), Some(Y));
}

#[test]
fn xyz_ro_examples_and_composition() {
    let r = Mat4::rot(X, Y);
    let v = Vec4([1, 1, 0, 0]);
    assert_eq!(xyz_ro(r, v, 0b01), 0b10);
    assert_eq!(xyz_ro(Mat4::ident(), v, 0b01), 0b01);
    assert_eq!(xyz_ro(r, v, 0b00), 0b00);
    assert_eq!(xyz_ro(r, v, 0b11), 0b11);
    let r2 = Mat4::rot(Y, Z);
    for o in 0..4u8 {
        let once = xyz_ro(r2, r.mul_vec(v), xyz_ro(r, v, o));
        assert_eq!(once, xyz_ro(r2.mul(r), v, o));
    }
}

#[test]
fn rl_eo_identity_and_composition() {
    let v = Vec4([1, -1, 1, 0]);
    let r = Mat4::rot(X, Y);
    let r2 = Mat4::rot(Z, W);
    for o in 0..4u8 {
        assert_eq!(rl_eo(Mat4::ident(), v, o), o);
        let once = rl_eo(r, v, o);
        assert_eq!(once == 0, o == 0);
        assert_eq!(rl_eo(r2, r.mul_vec(v), once), rl_eo(r2.mul(r), v, o));
    }
}
