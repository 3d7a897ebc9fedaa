use hsearch::codegen::{edges, preserved_bits, ridges, OrientationLut, PermutationLut};
use hsearch::{Mat4, Twist, Vec4};

const INDENT: &str = "                ";

#[test]
fn preserved_bits_values() {
    assert_eq!(preserved_bits(8, 0, 2, 2), 0xF0);
    assert_eq!(preserved_bits(16, 2, 3, 2), 0xFF03);
    assert_eq!(preserved_bits(128, 4, 1, 4), u128::MAX ^ 0xF0);
    assert_eq!(preserved_bits(64, 0, 2, 32), 0);
}

#[test]
fn permutation_code_for_a_small_table() {
    let lut = PermutationLut { piece_count: 2, table: vec![Some(vec![0, 1]), None, Some(vec![1, 0])] };
    let expected = format!(
        "apply_permutation_lut!(u8, s, twist, [\n{INDENT}    0 => [(&0xFF<<0)],\n{INDENT}    2 => [(&0xF0<<0)|(&0x3<<2)|(&0xC<<6)],\n{INDENT}])"
    );
    assert_eq!(lut.to_rust_code(8, 0, 2, "s"), expected);
}

#[test]
fn permutation_code_with_no_rows() {
    let lut = PermutationLut { piece_count: 1, table: vec![None, None] };
    assert_eq!(lut.to_rust_code(32, 0, 1, "e"), format!("apply_permutation_lut!(u32, e, twist, [\n\n{INDENT}])"));
}

#[test]
fn permutation_code_for_edges_has_a_row_per_allowed_twist() {
    let lut = PermutationLut::new(&edges());
    let code = lut.to_rust_code(32, 0, 1, "e");
    assert!(code.starts_with("apply_permutation_lut!(u32, e, twist, [\n"));
    let rows = code.lines().filter(|l| l.contains("=>")).count();
    let allowed = lut.table.iter().filter(|r| r.is_some()).count();
    assert_eq!(rows, allowed);
    assert!(allowed > 0);
}

#[test]
fn with_action_matches_new_for_the_twist_action() {
    let pieces = ridges();
    let by_twist = PermutationLut::with_action(&pieces, |t: Twist, p: Vec4| {
        Some(if t.affects(p) { t.rot().mul_vec(p) } else { p })
    });
    let direct = PermutationLut::new(&pieces);
    assert_eq!(by_twist.piece_count, direct.piece_count);
    assert_eq!(by_twist.table, direct.table);
}

#[test]
fn with_action_rows_and_misses() {
    let pieces = vec![Vec4([1, 0, 0, 0]), Vec4([0, 1, 0, 0]), Vec4([1, 0, 0, 0])];
    // the identity gives, for each point, the last equal point
    let id = PermutationLut::with_action(&pieces, |_t: Twist, p: Vec4| Some(p));
    assert_eq!(id.table.len(), 184);
    assert!(id.table.iter().all(|r| r == &Some(vec![2, 1, 2])));
    // an action that leaves the list gives no rows
    let out = PermutationLut::with_action(&pieces, |_t: Twist, _p: Vec4| Some(Vec4([0, 0, 1, 0])));
    assert!(out.table.iter().all(|r| r.is_none()));
    let none = PermutationLut::with_action(&pieces, |_t: Twist, _p: Vec4| None);
    assert!(none.table.iter().all(|r| r.is_none()));
}

#[test]
fn orientation_code_for_a_small_table() {
    let lut = OrientationLut { table: vec![vec![vec![0, 1, 2, 3], vec![1, 0, 3, 2]]] };
    let expected =
        "crate::lut::update_orientations_u64(\n    r,\n    [\n        [0x4, 0xF, 0x0],\n    ][twist.to_index()],\n)\n";
    assert_eq!(lut.to_rust_code(64, 0, 2, "r"), expected);
}

#[test]
fn orientation_table_follows_the_action() {
    let pieces = edges();
    let lut = OrientationLut::new(&pieces, 4, |_m: Mat4, _p: Vec4, o: u8| (o + 1) % 4);
    assert_eq!(lut.table.len(), 184);
    for (k, row) in lut.table.iter().enumerate() {
        let t = Twist::from_index(k as u8);
        assert_eq!(row.len(), pieces.len());
        for (i, map) in row.iter().enumerate() {
            let expected: Vec<u8> =
                if t.affects(pieces[i]) { vec![1, 2, 3, 0] } else { vec![0, 1, 2, 3] };
            assert_eq!(map, &expected);
        }
    }
    let code = lut.to_rust_code(64, 0, 2, "e");
    assert_eq!(code.lines().filter(|l| l.starts_with("        [0x")).count(), 184);
}
