use hsearch::util::{is_permutation_odd, scramble, SCRAMBLE_LEN};
use hsearch::{Axis, Facet, Mat4, TransformByMat4, Twist};

#[test]
fn permutation_parity_of_three_elements() {
    // lexicographic permutations of three elements: 012, 021, 102, 120, 201, 210
    let expected = [false, true, true, false, false, true];
    for (n, &odd) in expected.iter().enumerate() {
        assert_eq!(is_permutation_odd(n), odd, "permutation {n}");
    }
}

#[test]
fn permutation_parity_of_four_elements() {
    // 3210 is the last permutation of four elements: two swaps, even;
    // 0132 (number 1) swaps the last two, odd
    assert!(!is_permutation_odd(23));
    assert!(is_permutation_odd(1));
    // 1023 (number 6) swaps the first two, odd
    assert!(is_permutation_odd(6));
    // 1032 (number 7) swaps two pairs, even
    assert!(!is_permutation_odd(7));
}

fn transformed<T: TransformByMat4>(x: &T, m: Mat4) -> T {
    x.transform_by(m)
}

#[test]
fn transform_by_through_the_trait() {
    let m = Mat4::rot(Axis::X, Axis::Y);
    assert_eq!(transformed(&Axis::X, m), Axis::X.transform_by(m));
    assert_eq!(transformed(&Facet::U, m), Facet::U.transform_by(m));
    assert_eq!(transformed(&m, m), m.transform_by(m));
    let t = hsearch::parse_twists("IU")[0];
    assert_eq!(transformed(&t, m), t.transform_by(m));
    assert_eq!(transformed(&t, Mat4::ident()), t);
    let _: Twist = t;
}

#[test]
fn scrambles_have_the_length_and_follow_the_seed() {
    use_scramble_checks();
}

fn use_scramble_checks() {
    let a = scramble(7);
    assert_eq!(a.len(), SCRAMBLE_LEN);
    assert_eq!(scramble(7), a);
    assert_ne!(scramble(8), a);
    for t in &a {
        assert!(Twist::iter().contains(t));
    }
}
