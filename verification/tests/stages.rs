use hsearch::linalg::Sign;
use hsearch::linalg::Facet;
use hsearch::stages::s4_predom::RidgePos;
use hsearch::stages::s4_psio;
use hsearch::stages::{s2_pio, Stage, Stage1, Stage1TrieKey, Stage2, Stage3, Stage4, StageKeyU64, V2Stage1};
use hsearch::{parse_twists, twists_to_string, SimplePuzzleSim, Twist};
use rand::seq::IndexedRandom;
use rand::SeedableRng;

fn test_stage_default<S: Stage + Default + PartialEq + std::fmt::Debug>() {
    assert_eq!(S::default(), S::from_state(SimplePuzzleSim::default()));
    assert_eq!(S::default(), S::with_setup(&[]));
}

fn test_stage_setup<S: Stage + PartialEq + std::fmt::Debug>(shared_setup: &[Twist]) {
    S::with_setup(shared_setup); // don't panic

    let allowed_twists = S::twists().to_vec();
    let mut rng = rand::rngs::StdRng::seed_from_u64(0);
    let mut twists1: Vec<Twist> = shared_setup.to_vec();
    for _ in 0..100 {
        twists1.push(*allowed_twists.choose(&mut rng).unwrap());
    }
    println!("{}", twists_to_string(&twists1));
    let mut twists2: Vec<Twist> = vec![];
    for _ in 0..100 {
        twists2.push(*allowed_twists.choose(&mut rng).unwrap());
    }
    let mut both = twists1.clone();
    both.extend_from_slice(&twists2);
    assert_eq!(S::with_setup(&twists1).do_twists(&twists2), S::with_setup(&both));
}

#[test]
fn mod_test_all_stage_defaults() {
    test_stage_default::<Stage1>();
    test_stage_default::<Stage2>();
    test_stage_default::<Stage3>();
    test_stage_default::<s4_psio::Stage4>();
}

#[test]
fn mod_test_all_stage_setups() {
    test_stage_setup::<Stage1>(&[]);
    test_stage_setup::<Stage2>(&[]);
    test_stage_setup::<Stage3>(&[]);
    for setup in ["UF", "DF", "FU", "FO", "OU"] {
        test_stage_setup::<Stage4>(&parse_twists(setup));
    }
}

#[test]
fn test_stage4_ridge_pos() {
    for f1 in Facet::ALL {
        for f2 in Facet::ALL {
            let r = RidgePos::new(f1, f2);
            assert_eq!(f1, r.facet1());
            assert_eq!(f2, r.facet2());
        }
    }
}

#[test]
fn test_piece_type_stickers() {
    assert_eq!(48, V2Stage1::ridge_stickers().len());
    assert_eq!(96, V2Stage1::edge_stickers().len());
    assert_eq!(64, V2Stage1::corner_stickers().len());
}

#[test]
fn stage4_targets_and_moves() {
    let targets = Stage4::target();
    assert_eq!(targets.len(), 12);
    for t in &targets {
        assert!(t.is_target_solved(&targets));
    }
    assert!(!Stage4::with_setup(&parse_twists("UF RU")).is_target_solved(&targets));
    // the twists that keep the X axis: the 46 `R` and `L` twists, and on each
    // of the other 6 facets the 7 rotations that keep the X axis
    assert_eq!(Stage4::twists().to_vec().len(), 46 + 6 * 7);
    assert!(Stage4::try_from_state(SimplePuzzleSim::default()).is_none());
    assert_eq!(
        Stage4::try_from_state(SimplePuzzleSim::with_setup(&parse_twists("UF"))),
        Some(Stage4::with_setup(&parse_twists("UF"))),
    );
}

#[test]
fn v2_stage1_defaults_and_setups() {
    test_stage_default::<V2Stage1>();
    test_stage_setup::<V2Stage1>(&[]);
    assert!(V2Stage1::default().is_target_solved(&vec![V2Stage1::default()]));
}

#[test]
fn test_stage3_count() {
    assert!(!Stage3::solved().is_target_solved());
    assert!(Stage3::with_setup(&parse_twists("IU")).is_target_solved());
    assert!(Stage3::with_setup(&parse_twists("IF")).is_target_solved());
}

#[test]
fn test_stage2_which_target3() {
    assert_eq!(
        Some(Sign::Neg),
        s2_pio::Stage2::with_setup(&parse_twists("FD ID FU ID FD ID FU")).which_target3(),
    );
    assert_eq!(
        Some(Sign::Pos),
        s2_pio::Stage2::with_setup(&parse_twists("FD OD FU OD FD OD FU")).which_target3(),
    );
}

#[test]
fn pio_stage_defaults_and_setups() {
    test_stage_default::<s2_pio::Stage2>();
    test_stage_setup::<s2_pio::Stage2>(&[]);
    let s = s2_pio::Stage2::default();
    assert_eq!(s.good_ridges(), 12);
    assert_eq!(s.good_edges(), 24);
    assert_eq!(s.good_corners(), 16);
    assert!(s.is_target_solved(&s2_pio::Stage2::target3()));
}

#[test]
fn stage_move_sets() {
    assert_eq!(Stage2::twists().to_vec().len(), 80);
    assert_eq!(Stage3::twists().to_vec().len(), 52);
}

#[test]
fn stage2_target() {
    assert!(Stage2::default().is_target_solved());
}

#[test]
fn stage1_allows_every_twist() {
    assert_eq!(Stage1::twists().to_vec().len(), 184);
}

#[test]
fn stage1_target() {
    assert!(Stage1::default().is_target_solved());
    assert!(Stage1::default().is_solved());
    assert!(!Stage1::with_setup(&parse_twists("IU")).is_solved());
    assert!(!Stage1::with_setup(&parse_twists("OU")).is_target_solved());
}

#[test]
fn stage1_trie_key() {
    let s = Stage1::default();
    let k = Stage1TrieKey::from(s);
    assert_eq!(k.0, 0x90900909 | (0xf5fd755d7f5f_u128 << 32));
    assert!(k.lsb());
    assert!(k.matches(k.truncate(10), 10));
    assert_eq!(k.skip(32).0, 0xf5fd755d7f5f);
    assert_eq!(k.branches(), [true, true]);
    assert_eq!(k.common_lsb_prefix(k), 128);
    assert_eq!(k.common_lsb_prefix(Stage1TrieKey(k.0 ^ 8)), 3);
}

#[test]
fn test_stage4_setup_and_move_transformations() {
    // stage 4 of the P/I/O method needs a test of its own because of the
    // implicit rotations
    let twists1 = parse_twists("IB ULB BLD FI RDB IB RUB OLDB BLD OF ID LDB");
    let twists2 = parse_twists("FO OR FO OUF IF2 FO OUFR FD OB FU OR OF2");
    let twists3 = parse_twists("FO OR FO OFD IF2 FO OFLD FR OB FU OR OB2");
    let mut both = twists1.clone();
    both.extend_from_slice(&twists3);
    assert_eq!(
        s4_psio::Stage4::with_setup(&twists1).do_twists(&twists2),
        s4_psio::Stage4::with_setup(&both),
    )
}

#[test]
fn psio_stage4_moves_and_target() {
    // all 23 `F` twists, 3 `I` twists, 3 `O` twists keeping `F`, and 4 `O`
    // twists followed by a rotation
    assert_eq!(s4_psio::Stage4::twists().to_vec().len(), 33);
    let solved = s4_psio::Stage4::default();
    assert!(solved.is_target_solved(s4_psio::Stage4::solved()));
    assert!(!s4_psio::Stage4::with_setup(&parse_twists("FU")).is_target_solved(solved));
    for t in parse_twists("OB OR OF2 OF FU IF") {
        let r = s4_psio::Stage4::implicit_rotation_after_twist(t);
        assert_eq!(r.is_ident(), t.name() == "FU" || t.name() == "IF");
    }
}

#[test]
fn pio_stage2_in_facet_twists_keep_solved() {
    let solved = s2_pio::Stage2::solved();
    let mut seen = 0;
    for t in s2_pio::Stage2::twists().iter() {
        let next = solved.do_twist(t);
        assert!(next.e_op < 1 << 56);
        if t.facet() == hsearch::Facet::I {
            assert_eq!(next, solved);
            seen += 1;
        }
    }
    assert!(seen > 0);
}

#[test]
fn psio_stage4_moves_and_keys() {
    let start = s4_psio::Stage4::with_setup(&parse_twists("UF"));
    for t in s4_psio::Stage4::twists().to_vec() {
        let a = start.do_twist(t);
        let b = start.do_twist(t);
        assert_eq!(a, b);
        assert_eq!(a == start, a.key() == start.key());
    }
}

#[test]
fn stage_setup_then_twists_concrete() {
    let setup = parse_twists("UF RU");
    let more = parse_twists("IF OU");
    let mut both = setup.clone();
    both.extend_from_slice(&more);
    assert_eq!(Stage1::with_setup(&setup).do_twists(&more), Stage1::with_setup(&both));
    assert_eq!(V2Stage1::with_setup(&setup).do_twists(&more), V2Stage1::with_setup(&both));
    let setup3 = parse_twists("IU");
    let more3 = parse_twists("IF RU");
    let mut both3 = setup3.clone();
    both3.extend_from_slice(&more3);
    assert_eq!(Stage3::with_setup(&setup3).do_twists(&more3), Stage3::with_setup(&both3));
}
