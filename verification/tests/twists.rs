use hsearch::linalg::Axis::{X, Y};
use hsearch::puzzle::TWIST_COUNT;
use hsearch::{parse_twists, twists_to_string, Facet, Mat4, Twist, TwistData};

#[test]
fn test_twist_indices() {
    // All twists rotations must stabilize their facet.
    for twist in Twist::iter() {
        assert_eq!(twist.facet(), twist.rot().mul_facet(twist.facet()));
        assert_ne!(twist.rot(), Mat4::ident());
    }

    // All twists must be unique.
    let data: Vec<TwistData> = Twist::iter().into_iter().map(Twist::data).collect();
    let set: std::collections::HashSet<TwistData> = data.iter().copied().collect();
    assert_eq!(set.len(), TWIST_COUNT as usize);

    // Twists must be sorted.
    assert!(Twist::iter().is_sorted());
}

#[test]
fn test_twist_data() {
    for twist in Twist::iter() {
        assert_eq!(twist, Twist::from_data(twist.data()));
    }
}

#[test]
fn test_transform_twist() {
    let t = Twist::from_name("RO").unwrap();
    let expected = Twist::from_name("UO").unwrap();
    assert_eq!(t.transform_by(Mat4::rot(X, Y)), expected);
}

#[test]
fn twist_test_move_notation() {
    for twist in Twist::iter() {
        assert_eq!(Twist::from_name(&twist.name()), Some(twist));
    }

    assert!(Twist::from_name("IUR").is_some());
    assert!(Twist::from_name("UF5").is_some());
    assert!(Twist::from_name("UF3").is_some());
    assert!(Twist::from_name("UF2").is_some());
    assert_eq!(Twist::from_name("IUR"), Twist::from_name("IRU"));
    assert_eq!(Twist::from_name("UF5"), Twist::from_name("UF"));
    assert_eq!(Twist::from_name("UF3"), Twist::from_name("UF'"));
    assert_eq!(Twist::from_name("UF3"), Twist::from_name("UF5'"));
    assert_eq!(Twist::from_name("UF2"), Twist::from_name("UF2'"));

    assert_eq!(None, Twist::from_name("UF4"));
}

#[test]
fn puzzle_test_move_notation() {
    assert_eq!(Twist::iter().len(), 23 * 8);

    for twist in Twist::iter() {
        assert_eq!(Twist::from_name(&twist.name()), Some(twist));
    }

    assert!(Twist::from_name("IRU").is_some());
    assert_eq!(Twist::from_name("IUR"), Twist::from_name("IRU"));
    assert_eq!(Twist::from_name("UF5"), Twist::from_name("UF"));
    assert_eq!(Twist::from_name("UF3"), Twist::from_name("UF'"));
    assert_eq!(Twist::from_name("UF2"), Twist::from_name("UF2'"));
}

#[test]
fn test_twists_round_trip() {
    for t in Twist::iter() {
        assert_eq!(vec![t], parse_twists(&t.name()))
    }
}

#[test]
fn test_twist_iter() {
    assert_eq!(Twist::iter().len(), TWIST_COUNT as usize);
}

#[test]
fn test_twist_facet() {
    for t in Twist::iter() {
        assert_eq!(t.facet(), t.data().facet());
    }
}

#[test]
fn names_of_base_twists() {
    assert_eq!(Twist::from_name("IF").unwrap().name(), "IF");
    assert_eq!(Twist::from_name("IUFR").unwrap().name(), "IRUF");
    assert_eq!(Twist::from_name("IRUF").unwrap().name(), "IRUF");
    assert_eq!(Twist::from_name("IF").unwrap().facet(), Facet::I);
    // A 90-degree twist and its inverse differ; four of them are no twist.
    assert_ne!(Twist::from_name("IF"), Twist::from_name("IF'"));
    assert_eq!(Twist::from_name("IF'"), Twist::from_name("IB"));
    assert_eq!(Twist::from_name("IF4"), None);
    assert_eq!(Twist::from_name("IF0"), None);
}

#[test]
fn bad_names_are_refused() {
    assert_eq!(Twist::from_name(""), None);
    assert_eq!(Twist::from_name("2"), None);
    assert_eq!(Twist::from_name("I"), None);
    assert_eq!(Twist::from_name("II"), None);
    assert_eq!(Twist::from_name("IO"), None);
    assert_eq!(Twist::from_name("IUU"), None);
    assert_eq!(Twist::from_name("IFx"), None);
    assert_eq!(Twist::from_name("IF''"), None);
    assert_eq!(Twist::from_name("IF200"), None);
    assert!(Twist::from_name("IF127").is_some());
    assert_eq!(Twist::from_name("IF128"), None);
}

#[test]
fn twist_lists_round_trip() {
    let twists = parse_twists("IF  UF' . IUR\tRO'\n");
    assert_eq!(twists.len(), 4);
    let s = twists_to_string(&twists);
    assert_eq!(parse_twists(&s), twists);
    assert!(!s.contains('2'));
    let half_turns = parse_twists(&twists_to_string(&parse_twists("IF2")));
    assert_eq!(half_turns.len(), 2);
    assert_eq!(half_turns[0], half_turns[1]);
    assert_eq!(half_turns[0].pow(2), Twist::from_name("IF2"));
    assert_eq!(twists_to_string(&[]), "");
}

#[test]
fn test_xy_rot_mat4_roundtrip() {
    for pow in 0..4 {
        let expected = hsearch::xy_rot::XyRot::from_pow(pow);
        let actual = hsearch::xy_rot::XyRot::from_mat4(expected.mat4());
        assert_eq!(actual, expected);
    }
}

#[test]
fn test_mul_xy_rot_twist() {
    for pow in 0..4 {
        let rot = hsearch::xy_rot::XyRot::from_pow(pow);
        for twist in hsearch::Twist::iter() {
            let expected = twist.transform_by(rot.mat4());
            let actual = rot.transform_twist(twist);
            assert_eq!(expected, actual);
        }
    }
}
