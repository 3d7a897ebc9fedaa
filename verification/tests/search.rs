use hsearch::canonical::PrevTwists;
use hsearch::search::partial::{dedup_partials, sort_by_len};
use hsearch::search::{initial_partials, with_rl_swaps};
use hsearch::{Axis, Facet, Mat4};
use hsearch::search::{Iddfs, NoSolution, Partial};
use hsearch::stages::{Stage, Stage3};
use hsearch::{parse_twists, twists_to_string, Twist};

#[test]
fn iddfs_extends_with_stage_solutions() {
    let twists = Stage3::twists().to_vec();
    let iddfs = Iddfs::new::<Stage3>(&twists, |s: Stage3| s.is_target_solved(), |_s: Stage3, _d: u8| false, 1, 2);
    let mut partials = vec![Partial::new(vec![])];
    assert_eq!(iddfs.iddfs_extend::<Stage3>(&mut partials), Ok(()));
    assert!(!partials.is_empty());
    for p in &partials {
        assert_eq!(p.twists.len(), 1);
        assert_eq!(p.boundaries, vec![0, 0, 1]);
        assert_eq!(p.len(), 1);
        assert!(Stage3::with_setup(&p.twists).is_target_solved());
    }
}

#[test]
fn iddfs_without_solution_keeps_partials() {
    let twists = Stage3::twists().to_vec();
    let iddfs = Iddfs::new::<Stage3>(&twists, |_s: Stage3| false, |_s: Stage3, _d: u8| false, 0, 1);
    let mut partials = vec![Partial::new(parse_twists("IU"))];
    let before = partials.clone();
    assert_eq!(iddfs.iddfs_extend::<Stage3>(&mut partials), Err(NoSolution));
    assert_eq!(partials, before);
}

#[test]
fn dfs_finds_canonical_solutions() {
    let twists: Vec<Twist> = Stage3::twists().to_vec();
    let iddfs = Iddfs::new::<Stage3>(&twists, |s: Stage3| s.is_target_solved(), |_s: Stage3, _d: u8| false, 0, 2);
    let mut buffer = parse_twists("IU");
    let mut solutions = vec![];
    iddfs.dfs(Stage3::solved(), PrevTwists::new(), 1, &mut buffer, &mut solutions);
    assert_eq!(buffer, parse_twists("IU"));
    assert!(solutions.iter().any(|s| s[1..] == parse_twists("IU")[..]));
    for s in &solutions {
        assert_eq!(s.len(), 2);
        assert_eq!(s[..1], parse_twists("IU")[..]);
        assert!(Stage3::solved().do_twists(&s[1..]).is_target_solved());
    }
    // the pruning test stops the search
    let pruned = Iddfs::new::<Stage3>(&twists, |s: Stage3| s.is_target_solved(), |_s: Stage3, _d: u8| true, 0, 2);
    let mut none = vec![];
    pruned.dfs(Stage3::solved(), PrevTwists::new(), 1, &mut vec![], &mut none);
    assert!(none.is_empty());
}

#[test]
fn partial_extend_and_transform() {
    let p = Partial::new(parse_twists("IU RF"));
    assert_eq!(p.len(), 0);
    let q = p.extend::<Stage3>(&parse_twists("IF"));
    assert_eq!(q.twists, parse_twists("IU RF IF"));
    assert_eq!(q.boundaries, vec![0, 2, 3]);
    assert_eq!(q.len(), 1);
    let m = hsearch::Mat4::ident();
    let r = q.transform_by(m);
    assert_eq!(r.twists, q.twists);
    assert_eq!(r.boundaries, q.boundaries);
}

fn partial_of(twists: Vec<Twist>, scramble_len: usize) -> Partial {
    let mut p = Partial::new(twists);
    let end = p.twists.len();
    p.boundaries = vec![0, scramble_len, end];
    p
}

#[test]
fn dedup_keeps_first_shortest_per_puzzle() {
    let t = parse_twists("IU")[0];
    let t_inv = t.pow(-1).unwrap();
    let r = parse_twists("RF")[0];
    // leads to the solved puzzle with a solution of one twist
    let long = partial_of(vec![t, t_inv], 1);
    // leads elsewhere
    let other = partial_of(vec![r], 1);
    // leads to the solved puzzle with no solution twists
    let short = partial_of(vec![], 0);
    // leads to the solved puzzle with a solution no shorter than `short`
    let same_len = partial_of(vec![r, r.pow(-1).unwrap()], 2);
    let mut partials = vec![long.clone(), other.clone(), short.clone(), same_len.clone()];
    let removed = dedup_partials(&mut partials);
    assert_eq!(removed, 2);
    assert_eq!(partials, vec![short, other]);
}

#[test]
fn dedup_keeps_distinct_puzzles() {
    let ps = vec![partial_of(parse_twists("IU"), 0), partial_of(parse_twists("RF"), 0), partial_of(vec![], 0)];
    let mut partials = ps.clone();
    assert_eq!(dedup_partials(&mut partials), 0);
    assert_eq!(partials, ps);
    let mut empty: Vec<Partial> = vec![];
    assert_eq!(dedup_partials(&mut empty), 0);
    assert!(empty.is_empty());
}

#[test]
fn partial_shown_with_colors() {
    let scramble = parse_twists("IU");
    let solution = parse_twists("RF");
    let mut p = Partial::new(vec![scramble[0], solution[0]]);
    p.boundaries = vec![0, 1, 2, 2];
    let expected = format!(
        "\x1B[2m{}\x1B[0m \x1B[35m{} \x1B[34m.\x1B[0m (1 moves)",
        twists_to_string(&scramble),
        twists_to_string(&solution)
    );
    assert_eq!(p.to_string_ansi(), expected);
}

#[test]
fn partial_shown_colors_cycle() {
    let t = parse_twists("RF")[0];
    let name = twists_to_string(&[t]);
    let mut p = Partial::new(vec![t; 12]);
    p.boundaries = vec![0, 0, 1, 2, 3, 4, 5, 12];
    let mut expected = String::from("\x1B[2m\x1B[0m");
    for c in [35, 34, 32, 33, 31] {
        expected += &format!(" \x1B[{c}m{name}");
    }
    expected += &format!(" \x1B[35m{}", twists_to_string(&[t; 7]));
    expected += "\x1B[0m (12 moves)";
    assert_eq!(p.to_string_ansi(), expected);
}

#[test]
fn initial_partials_try_each_slice_and_facet() {
    let scramble = parse_twists("IU RF UF");
    let ps = initial_partials(scramble.clone());
    assert_eq!(ps.len(), 24);
    for p in &ps {
        assert_eq!(p.boundaries, vec![0, 3]);
        assert_eq!(p.len(), 0);
    }
    let first = Facet::U.mat4_to(Facet::I).mul(Mat4::rot(Axis::X, Axis::X));
    let expected: Vec<Twist> = scramble.iter().map(|t| t.transform_by(first)).collect();
    assert_eq!(ps[0].twists, expected);
    let last = Facet::I.mat4_to(Facet::I).mul(Mat4::rot(Axis::W, Axis::X));
    let expected: Vec<Twist> = scramble.iter().map(|t| t.transform_by(last)).collect();
    assert_eq!(ps[23].twists, expected);
}

#[test]
fn rl_swaps_come_before_each_partial() {
    let p = Partial::new(parse_twists("RF IU"));
    let q = Partial::new(parse_twists("UF"));
    let r = with_rl_swaps(vec![p.clone(), q.clone()]);
    assert_eq!(r.len(), 4);
    assert_eq!(r[0], p.transform_by(Mat4::rot180(Axis::X, Axis::Y)));
    assert_eq!(r[1], p);
    assert_eq!(r[2], q.transform_by(Mat4::rot180(Axis::X, Axis::Y)));
    assert_eq!(r[3], q);
}

#[test]
fn sort_by_len_is_stable() {
    let t = parse_twists("RF")[0];
    let p0 = partial_of(vec![t, t, t], 1);
    let p1 = partial_of(vec![t], 1);
    let p2 = partial_of(vec![t, t], 1);
    let p3 = partial_of(vec![t, t], 2);
    let mut ps = vec![p0.clone(), p1.clone(), p2.clone(), p3.clone()];
    sort_by_len(&mut ps);
    assert_eq!(ps, vec![p1, p3, p2, p0]);
}
