use hsearch::canonical::PrevTwists;
use hsearch::linalg::Facet::{B, D, F, U};
use hsearch::xy_rot::XyRot;
use hsearch::{Facet, Twist};

#[test]
fn xy_rot_test_xy_rot_mat4_roundtrip() {
    for pow in 0..4 {
        let expected = XyRot::from_pow(pow);
        let actual = XyRot::from_mat4(expected.mat4());
        assert_eq!(actual, expected);
    }
}

#[test]
fn xy_rot_test_mul_xy_rot_twist() {
    for pow in 0..4 {
        for twist in Twist::iter() {
            let expected = twist.transform_by(XyRot::from_pow(pow).mat4());
            let actual = XyRot::from_pow(pow).transform_twist(twist);
            assert_eq!(expected, actual);
        }
    }
}

#[test]
fn xy_rot_powers_and_inverses() {
    for a in 0..4 {
        let r = XyRot::from_pow(a);
        assert!(r.mul(r.inv()).is_ident());
        assert_eq!(r.mul(XyRot::from_pow(1)).pow(), (a + 1) % 4);
        assert_eq!(XyRot::from_pow(a + 4), r);
    }
    assert!(XyRot::ident().is_ident());
    assert!(!XyRot::from_pow(1).is_ident());
}

#[test]
fn test_prev_twists_do_twist() {
    let p = PrevTwists::new();
    for f in Facet::ALL {
        assert!(p.do_twist_on_facet(f).is_some());
    }
    let after_f = p.do_twist_on_facet(F).unwrap();
    let after_b = p.do_twist_on_facet(B).unwrap();
    assert!(after_f.do_twist_on_facet(U).is_some()); // Some
    assert!(after_f.do_twist_on_facet(D).is_some()); // Some
    assert!(after_f.do_twist_on_facet(F).is_none());
    assert!(after_f.do_twist_on_facet(B).is_some()); // Some
    assert!(after_b.do_twist_on_facet(U).is_some()); // Some
    assert!(after_b.do_twist_on_facet(D).is_some()); // Some
    assert!(after_b.do_twist_on_facet(F).is_none());
    assert!(after_b.do_twist_on_facet(B).is_none());
}

#[test]
fn prev_twists_follows_twists() {
    let p = PrevTwists::new();
    let t = Twist::from_name("FU").unwrap();
    assert_eq!(p.do_twist(t), p.do_twist_on_facet(F));
}
