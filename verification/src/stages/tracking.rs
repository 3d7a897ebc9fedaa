//! How the packed fields of a stage follow the pieces of the puzzle: the
//! facts that tie a stage's move rule to the twist of the pieces.
use vstd::prelude::*;
use vstd::set_lib::{lemma_int_range, lemma_len_subset, lemma_subset_equality, set_int_range};

use crate::bits::{
    bit, field, lemma_and_bits, lemma_low_fields_eq, lemma_low_mask_step, lemma_shift_in, lemma_truncate_u64_u32, low_mask,
};
use crate::linalg::facet::sign_of_idx;
use crate::linalg::mat4::{lemma_apply_in_cube, lemma_apply_perm};
use crate::linalg::{Mat4, Vec4};
use crate::permutation::{field_pos, has_twist_row, is_twist_row, moved_point, moves_fields, rule_value, FieldRule};
use crate::puzzle::sim::{all_values, law_twist_keeps_valid, lemma_move_valid, rotate_pieces, rotated, twist_pieces, twisted};
use crate::puzzle::twist::lemma_twist_keeps_side;
use crate::puzzle::Twist;
use crate::stages::slots::filter_pos;
use crate::linalg::mat4::lemma_apply_mul_perm;
use crate::puzzle::piece_type::{cube_points, filter_norm, PieceType};
use crate::puzzle::sim::{
    cube_index, current_pos, lemma_cube_index, lemma_cube_point, moved_piece, pack_bits,
    type_values, valid_pieces,
};

verus! {

/// A signed permutation keeps the taxicab norm of a position of the cube.
pub proof fn lemma_perm_norm(m: Mat4, v: Vec4)
    requires
        m.is_perm(),
        v.in_cube(),
    ensures
        m.spec_apply(v).spec_taxicab_norm() == v.spec_taxicab_norm(),
{
    lemma_apply_perm(m, v);
    lemma_apply_in_cube(m, v);
    m.lemma_view();
    let w = m.spec_apply(v);
    reveal_with_fuel(Vec4::partial_norm, 5);
    assert forall|c: int| 0 <= c < 4 implies vstd::math::abs(#[trigger] w.0[m@[c] / 2] as int)
        == vstd::math::abs(v.0[c] as int) by {
        let sv = sign_of_idx(m@[c]).val();
        assert(w.0[m@[c] / 2] == sv * v.comp(c));
        assert(v.comp(c) == v.0[c]);
        let wc = w.0[m@[c] / 2] as int;
        let vc = v.0[c] as int;
        assert(wc == sv * vc);
        if m@[c] % 2 == 0 {
            assert(sv == 1);
            assert(wc == vc);
        } else {
            assert(sv == -1);
            assert(wc == -vc) by (nonlinear_arith)
                requires
                    wc == sv * vc,
                    sv == -1,
            ;
        }
        assert(vstd::math::abs(wc) == vstd::math::abs(vc));
    }
    let a0 = m@[0] / 2;
    let a1 = m@[1] / 2;
    let a2 = m@[2] / 2;
    let a3 = m@[3] / 2;
    assert(0 <= a0 < 4 && 0 <= a1 < 4 && 0 <= a2 < 4 && 0 <= a3 < 4);
    assert(vstd::math::abs(w.0[a0] as int) + vstd::math::abs(w.0[a1] as int) + vstd::math::abs(w.0[a2] as int)
        + vstd::math::abs(w.0[a3] as int) == w.spec_taxicab_norm());
}

/// The value of `f` at the piece in the slot of the position.
pub open spec fn slot_value(pieces: Seq<(Vec4, Mat4)>, f: spec_fn(Vec4, Mat4) -> u64) -> spec_fn(
    Vec4,
) -> u64 {
    |v: Vec4| f(pieces[cube_index(v)].0, pieces[cube_index(v)].1)
}

/// In a puzzle state, the values of the pieces of a type, in slot order, are
/// the values at the positions of that norm, in region order.
pub proof fn lemma_type_values(
    pieces: Seq<(Vec4, Mat4)>,
    ty: PieceType,
    keep: spec_fn(Vec4) -> bool,
    f: spec_fn(Vec4, Mat4) -> u64,
    k: int,
)
    requires
        valid_pieces(pieces),
        forall|v: Vec4| #[trigger] keep(v),
        0 <= k <= 81,
    ensures
        type_values(pieces, ty, keep, f, k) == filter_norm(cube_points().take(k), ty.count()).map_values(
            slot_value(pieces, f),
        ),
    decreases k,
{
    let g = slot_value(pieces, f);
    if k > 0 {
        lemma_type_values(pieces, ty, keep, f, k - 1);
        let s = cube_points().take(k);
        assert(s.drop_last() =~= cube_points().take(k - 1));
        let q = cube_points()[k - 1];
        assert(s.last() == q);
        lemma_cube_point(k - 1);
        let p = pieces[k - 1];
        lemma_apply_in_cube(p.1, p.0);
        lemma_cube_index(current_pos(p));
        assert(current_pos(p) == q);
        lemma_perm_norm(p.1, p.0);
        assert(keep(current_pos(p)));
        let prev = filter_norm(cube_points().take(k - 1), ty.count());
        if q.spec_taxicab_norm() == ty.count() {
            assert(prev.push(q).map_values(g) =~= prev.map_values(g).push(g(q)));
        }
    } else {
        assert(cube_points().take(0) =~= Seq::<Vec4>::empty());
    }
}

/// The packed values: each field holds its value, and the bits above the
/// last field are clear.
pub proof fn lemma_pack_fields(vals: Seq<u64>, b: u64)
    requires
        1 <= b <= 8,
        vals.len() * b <= 64,
        forall|i: int| 0 <= i < vals.len() ==> #[trigger] vals[i] < (1u64 << b),
    ensures
        forall|i: int|
            0 <= i < vals.len() ==> #[trigger] field(pack_bits(vals, b) as u128, (i * b) as u128, b as u128)
                == vals[i] as u128,
        forall|t: int| vals.len() * b <= t < 64 ==> #[trigger] bit(pack_bits(vals, b) as u128, t as u128) == 0,
    decreases vals.len(),
{
    if vals.len() == 0 {
        assert forall|t: int| vals.len() * b <= t < 64 implies #[trigger] bit(pack_bits(vals, b) as u128, t as u128)
            == 0 by {
            lemma_shift_in(0, 0, b, t as u128);
        }
    } else {
        let rest = vals.drop_first();
        let n = vals.len();
        assert(rest.len() * b <= 64) by (nonlinear_arith)
            requires
                rest.len() == n - 1,
                n * b <= 64,
                b >= 1,
        ;
        lemma_pack_fields(rest, b);
        let x = pack_bits(rest, b);
        assert(pack_bits(vals, b) == (x << b) | vals[0]);
        assert forall|i: int| 0 <= i < vals.len() implies #[trigger] field(
            pack_bits(vals, b) as u128,
            (i * b) as u128,
            b as u128,
        ) == vals[i] as u128 by {
            if i == 0 {
                lemma_shift_in(x, vals[0], b, 0);
            } else {
                let s = (i - 1) * b;
                assert(s + b == i * b && s + 2 * b <= 64 && 0 <= s < 64) by (nonlinear_arith)
                    requires
                        s == (i - 1) * b,
                        1 <= i < n,
                        n * b <= 64,
                        1 <= b <= 8,
                ;
                lemma_shift_in(x, vals[0], b, s as u128);
                assert(rest[i - 1] == vals[i]);
                assert(field(x as u128, ((i - 1) * b) as u128, b as u128) == rest[i - 1] as u128);
            }
        }
        assert forall|t: int| vals.len() * b <= t < 64 implies #[trigger] bit(pack_bits(vals, b) as u128, t as u128)
            == 0 by {
            let s = t - b;
            assert(rest.len() * b <= s && 0 <= s) by (nonlinear_arith)
                requires
                    s == t - b,
                    n * b <= t,
                    rest.len() == n - 1,
                    n >= 1,
                    b >= 1,
            ;
            lemma_shift_in(x, vals[0], b, s as u128);
        }
    }
}

/// A number below `2^64` whose fields hold the values and whose bits above
/// the last field are clear is the packing of the values.
pub proof fn lemma_packed_eq(x: u64, vals: Seq<u64>, b: u64)
    requires
        1 <= b <= 8,
        vals.len() * b <= 64,
        forall|i: int| 0 <= i < vals.len() ==> #[trigger] vals[i] < (1u64 << b),
        forall|i: int|
            0 <= i < vals.len() ==> #[trigger] field(x as u128, (i * b) as u128, b as u128) == vals[i] as u128,
        forall|t: int| vals.len() * b <= t < 64 ==> #[trigger] bit(x as u128, t as u128) == 0,
    ensures
        x == pack_bits(vals, b),
{
    lemma_pack_fields(vals, b);
    let y = pack_bits(vals, b);
    let xx = x as u128;
    let yy = y as u128;
    let n = vals.len();
    lemma_low_mask_step(xx, 0, 1);
    lemma_low_mask_step(yy, 0, 1);
    assert forall|i: nat| i < n implies field(xx, (0 + i * b) as u128, b as u128) == #[trigger] field(
        yy,
        (0 + i * b) as u128,
        b as u128,
    ) by {
        assert(field(xx, (i * b) as u128, b as u128) == vals[i as int] as u128);
    }
    lemma_low_fields_eq(xx, yy, 0, b as nat, n);
    let top = (n * b) as nat;
    assert forall|i: nat| i < 64 - top implies field(xx, (top + i * 1) as u128, 1 as u128) == #[trigger] field(
        yy,
        (top + i * 1) as u128,
        1 as u128,
    ) by {
        lemma_low_mask_step(xx, (top + i) as u128, 1);
        lemma_low_mask_step(yy, (top + i) as u128, 1);
        assert(bit(xx, (top + i) as u128) == 0);
        assert(bit(yy, (top + i) as u128) == 0);
    }
    lemma_low_fields_eq(xx, yy, top, 1, (64 - top) as nat);
    lemma_low_mask_step(xx, 0, 1);
    lemma_low_mask_step(yy, 0, 1);
}

/// A sequence of `n` distinct indices below `n` reaches every index below
/// `n`.
pub proof fn lemma_indices_onto(row: Seq<usize>, n: int, j: int)
    requires
        row.len() == n,
        forall|i: int| 0 <= i < n ==> (#[trigger] row[i]) < n,
        forall|a: int, c: int| 0 <= a < n && 0 <= c < n && a != c ==> #[trigger] row[a] != #[trigger] row[c],
        0 <= j < n,
    ensures
        exists|i: int| 0 <= i < n && #[trigger] row[i] == j,
{
    let rs = row.map_values(|x: usize| x as int);
    assert forall|a: int, c: int| 0 <= a < rs.len() && 0 <= c < rs.len() && a != c implies rs[a] != rs[c] by {
        assert(row[a] != row[c]);
    }
    assert(rs.no_duplicates());
    rs.unique_seq_to_set();
    lemma_int_range(0, n);
    assert forall|x: int| rs.to_set().contains(x) implies set_int_range(0, n).contains(x) by {
        let a = choose|a: int| 0 <= a < rs.len() && rs[a] == x;
        assert(row[a] < n);
    }
    lemma_subset_equality(rs.to_set(), set_int_range(0, n));
    assert(rs.to_set().contains(j));
    let a = choose|a: int| 0 <= a < rs.len() && rs[a] == j;
    assert(row[a] == j);
}

/// A row of a twist reaches every index: it is a permutation.
pub proof fn lemma_row_onto(points: Seq<Vec4>, t: Twist, row: Seq<usize>, j: int)
    requires
        is_twist_row(points, t, row),
        0 <= j < points.len(),
    ensures
        exists|i: int| 0 <= i < points.len() && #[trigger] row[i] == j,
{
    lemma_indices_onto(row, points.len() as int, j);
}

/// The values of one type of pieces of a puzzle state, in slot order, are
/// the values at the positions of that norm.
pub proof fn lemma_values_listing(
    pieces: Seq<(Vec4, Mat4)>,
    ty: PieceType,
    keep: spec_fn(Vec4) -> bool,
    f: spec_fn(Vec4, Mat4) -> u64,
)
    requires
        valid_pieces(pieces),
        forall|v: Vec4| #[trigger] keep(v),
    ensures
        all_values(pieces, seq![ty], keep, f) == filter_norm(cube_points(), ty.count()).map_values(
            slot_value(pieces, f),
        ),
{
    lemma_type_values(pieces, ty, keep, f, 81);
    assert(cube_points().take(81) =~= cube_points());
    assert(seq![ty].drop_last() =~= Seq::<PieceType>::empty());
    assert(seq![ty].last() == ty);
    assert(pieces.len() == 81);
    let tv = type_values(pieces, ty, keep, f, 81);
    assert(all_values(pieces, Seq::<PieceType>::empty(), keep, f) == Seq::<u64>::empty());
    assert(Seq::<u64>::empty() + tv =~= tv);
    assert(all_values(pieces, seq![ty], keep, f) =~= type_values(pieces, ty, keep, f, 81));
}

/// A twist puts the piece from the slot of a position into the slot of the
/// position's image, turned if the twist affects it.
pub proof fn lemma_twisted_slot(pieces: Seq<(Vec4, Mat4)>, t: Twist, p: Vec4)
    requires
        valid_pieces(pieces),
        t.inv(),
        p.in_cube(),
    ensures
        moved_point(t, p).in_cube(),
        twist_pieces(pieces, t)[cube_index(moved_point(t, p))] == moved_piece(
            pieces[cube_index(p)],
            t.spec_rot(),
            t.spec_affects(p),
        ),
{
    law_twist_keeps_valid(pieces, t);
    lemma_twist_keeps_side(t, p);
    let k = cube_index(p);
    lemma_cube_index(p);
    let q = pieces[k];
    lemma_apply_in_cube(q.1, q.0);
    lemma_cube_index(current_pos(q));
    assert(current_pos(q) == p);
    assert(twisted(pieces, t)[k] == moved_piece(q, t.spec_rot(), t.spec_affects(p)));
    if t.spec_affects(p) {
        lemma_apply_mul_perm(t.spec_rot(), q.1, q.0);
        lemma_apply_in_cube(t.spec_rot(), p);
    }
}

/// A puzzle state turned by the identity is itself.
pub proof fn lemma_rotate_ident(pieces: Seq<(Vec4, Mat4)>)
    requires
        valid_pieces(pieces),
    ensures
        rotate_pieces(pieces, Mat4::spec_ident()) == pieces,
{
    let id = Mat4::spec_ident();
    Mat4::lemma_ident();
    assert forall|k: int| 0 <= k < 81 implies #[trigger] rotated(pieces, id)[k] == pieces[k] by {
        Mat4::lemma_mul_ident(pieces[k].1);
    }
    assert(rotated(pieces, id) =~= pieces);
    let side = |v: Vec4| true;
    assert forall|k: int| 0 <= k < 81 implies #[trigger] pieces[k] == moved_piece(
        pieces[k],
        id,
        side(current_pos(pieces[k])),
    ) by {
        Mat4::lemma_mul_ident(pieces[k].1);
    }
    lemma_move_valid(pieces, pieces, id, side);
    assert(rotate_pieces(pieces, id) =~= pieces);
}

/// If the fields of `x` hold the values of the pieces at `pts`, and `y` is
/// `x` moved by a twist under a rule that turns each value into the value
/// of the turned piece, then the fields of `y` hold the values of the pieces
/// of the twisted puzzle.
pub proof fn lemma_moved_values(
    pieces: Seq<(Vec4, Mat4)>,
    t: Twist,
    pts: Seq<Vec4>,
    f: spec_fn(Vec4, Mat4) -> u64,
    x: u128,
    y: u128,
    b: u8,
    rule: FieldRule,
)
    requires
        valid_pieces(pieces),
        t.inv(),
        1 <= b <= 8,
        forall|i: int| 0 <= i < pts.len() ==> (#[trigger] pts[i]).in_cube(),
        has_twist_row(pts, t),
        moves_fields(x, y, pts, t, b, 0, rule),
        forall|i: int|
            0 <= i < pts.len() ==> #[trigger] field(x, field_pos(0, i, b as int) as u128, b as u128)
                == slot_value(pieces, f)(pts[i]) as u128,
        forall|i: int|
            0 <= i < pts.len() ==> rule_value(
                rule,
                t,
                pts[i],
                slot_value(pieces, f)(#[trigger] pts[i]) as u128,
            ) == ({
                let m = moved_piece(pieces[cube_index(pts[i])], t.spec_rot(), t.spec_affects(pts[i]));
                f(m.0, m.1)
            }) as u128,
    ensures
        forall|j: int|
            0 <= j < pts.len() ==> #[trigger] field(y, field_pos(0, j, b as int) as u128, b as u128)
                == slot_value(twist_pieces(pieces, t), f)(pts[j]) as u128,
{
    let row = choose|row: Seq<usize>| #[trigger] is_twist_row(pts, t, row);
    assert forall|j: int| 0 <= j < pts.len() implies #[trigger] field(
        y,
        field_pos(0, j, b as int) as u128,
        b as u128,
    ) == slot_value(twist_pieces(pieces, t), f)(pts[j]) as u128 by {
        lemma_row_onto(pts, t, row, j);
        let i = choose|i: int| 0 <= i < pts.len() && #[trigger] row[i] == j;
        assert(pts[row[i] as int] == moved_point(t, pts[i]));
        lemma_twisted_slot(pieces, t, pts[i]);
        assert(field(x, field_pos(0, i, b as int) as u128, b as u128) == slot_value(pieces, f)(pts[i]) as u128);
    }
}

/// Number of the four base-3 digits of `i` (below 81) that are not 1: the
/// taxicab norm of the position of number `i`.
pub open spec fn cube_off_digits(i: int) -> int {
    (if i % 3 == 1 { 0int } else { 1int }) + (if (i / 3) % 3 == 1 { 0int } else { 1int }) + (if (i / 9)
        % 3 == 1 {
        0int
    } else {
        1int
    }) + (if i / 27 == 1 {
        0int
    } else {
        1int
    })
}

/// Number of `i` below `k` whose position has norm `n`.
pub open spec fn count_cube_norm(n: int, k: int) -> int
    decreases k,
{
    if k <= 0 {
        0
    } else {
        count_cube_norm(n, k - 1) + if cube_off_digits(k - 1) == n {
            1int
        } else {
            0int
        }
    }
}

/// The positions of the cube with norm `n` among the first `k` are counted
/// by [`count_cube_norm`].
#[verifier::spinoff_prover]
#[verifier::rlimit(40)]
proof fn lemma_cube_norm_count(n: int, k: int)
    requires
        0 <= k <= 81,
    ensures
        filter_norm(cube_points().take(k), n).len() == count_cube_norm(n, k),
    decreases k,
{
    if k > 0 {
        lemma_cube_norm_count(n, k - 1);
        let s = cube_points().take(k);
        assert(s.drop_last() =~= cube_points().take(k - 1));
        assert(s.last() == cube_points()[k - 1]);
        lemma_cube_point(k - 1);
        let p = cube_points()[k - 1];
        let i = k - 1;
        assert(p.0[0] == -1 + i % 3 && p.0[1] == -1 + (i / 3) % 3 && p.0[2] == -1 + (i / 9) % 3 && p.0[3] == -1
            + i / 27) by {
            lemma_cube_index(p);
        }
        reveal_with_fuel(Vec4::partial_norm, 5);
        assert(p.spec_taxicab_norm() == cube_off_digits(i));
    } else {
        assert(cube_points().take(0) =~= Seq::<Vec4>::empty());
    }
}

/// There are 32 edge positions.
#[verifier::spinoff_prover]
#[verifier::rlimit(60)]
pub proof fn lemma_edge_count()
    ensures
        filter_norm(cube_points(), 3).len() == 32,
{
    lemma_cube_norm_count(3, 81);
    assert(cube_points().take(81) =~= cube_points());
    assert(count_cube_norm(3, 81) == 32) by {
        reveal_with_fuel(count_cube_norm, 82);
    }
}

/// In a puzzle state, the slot of a position holds a piece whose current
/// position is that one, with a signed permutation as attitude and an
/// initial position of the same norm.
pub proof fn lemma_slot_piece(pieces: Seq<(Vec4, Mat4)>, p: Vec4)
    requires
        valid_pieces(pieces),
        p.in_cube(),
    ensures
        0 <= cube_index(p) < 81,
        current_pos(pieces[cube_index(p)]) == p,
        pieces[cube_index(p)].0.in_cube(),
        pieces[cube_index(p)].1.wf(),
        pieces[cube_index(p)].1.is_perm(),
        pieces[cube_index(p)].0.spec_taxicab_norm() == p.spec_taxicab_norm(),
{
    lemma_cube_index(p);
    let q = pieces[cube_index(p)];
    lemma_apply_in_cube(q.1, q.0);
    lemma_cube_index(current_pos(q));
    lemma_perm_norm(q.1, q.0);
}

/// In a puzzle state, the values of the pieces of a type whose positions
/// satisfy `keep`, in slot order, are the values at those positions.
pub proof fn lemma_type_values_keep(
    pieces: Seq<(Vec4, Mat4)>,
    ty: PieceType,
    keep: spec_fn(Vec4) -> bool,
    f: spec_fn(Vec4, Mat4) -> u64,
    k: int,
)
    requires
        valid_pieces(pieces),
        0 <= k <= 81,
    ensures
        type_values(pieces, ty, keep, f, k) == filter_pos(
            filter_norm(cube_points().take(k), ty.count()),
            keep,
        ).map_values(slot_value(pieces, f)),
    decreases k,
{
    let g = slot_value(pieces, f);
    if k > 0 {
        lemma_type_values_keep(pieces, ty, keep, f, k - 1);
        let s = cube_points().take(k);
        assert(s.drop_last() =~= cube_points().take(k - 1));
        let q = cube_points()[k - 1];
        assert(s.last() == q);
        lemma_cube_point(k - 1);
        let p = pieces[k - 1];
        lemma_apply_in_cube(p.1, p.0);
        lemma_cube_index(current_pos(p));
        assert(current_pos(p) == q);
        lemma_perm_norm(p.1, p.0);
        let prev = filter_norm(cube_points().take(k - 1), ty.count());
        let fp = filter_pos(prev, keep);
        if q.spec_taxicab_norm() == ty.count() {
            assert(prev.push(q).drop_last() =~= prev);
            if keep(q) {
                assert(fp.push(q).map_values(g) =~= fp.map_values(g).push(g(q)));
            }
        }
    } else {
        assert(cube_points().take(0) =~= Seq::<Vec4>::empty());
    }
}

/// The values of one type of pieces whose positions satisfy `keep`, in slot
/// order, are the values at those positions.
pub proof fn lemma_listing_one(
    pieces: Seq<(Vec4, Mat4)>,
    ty: PieceType,
    keep: spec_fn(Vec4) -> bool,
    f: spec_fn(Vec4, Mat4) -> u64,
)
    requires
        valid_pieces(pieces),
    ensures
        all_values(pieces, seq![ty], keep, f) == filter_pos(filter_norm(cube_points(), ty.count()), keep).map_values(
            slot_value(pieces, f),
        ),
{
    lemma_type_values_keep(pieces, ty, keep, f, 81);
    assert(cube_points().take(81) =~= cube_points());
    assert(seq![ty].drop_last() =~= Seq::<PieceType>::empty());
    assert(seq![ty].last() == ty);
    assert(pieces.len() == 81);
    let tv = type_values(pieces, ty, keep, f, 81);
    assert(all_values(pieces, Seq::<PieceType>::empty(), keep, f) == Seq::<u64>::empty());
    assert(Seq::<u64>::empty() + tv =~= tv);
    assert(all_values(pieces, seq![ty], keep, f) =~= tv);
}

/// The values of two types of pieces whose positions satisfy `keep`: those
/// of the first type, then those of the second.
pub proof fn lemma_listing_two(
    pieces: Seq<(Vec4, Mat4)>,
    ty1: PieceType,
    ty2: PieceType,
    keep: spec_fn(Vec4) -> bool,
    f: spec_fn(Vec4, Mat4) -> u64,
)
    requires
        valid_pieces(pieces),
    ensures
        all_values(pieces, seq![ty1, ty2], keep, f) == (filter_pos(filter_norm(cube_points(), ty1.count()), keep)
            + filter_pos(filter_norm(cube_points(), ty2.count()), keep)).map_values(slot_value(pieces, f)),
{
    lemma_listing_one(pieces, ty1, keep, f);
    lemma_type_values_keep(pieces, ty2, keep, f, 81);
    assert(cube_points().take(81) =~= cube_points());
    assert(seq![ty1, ty2].drop_last() =~= seq![ty1]);
    assert(seq![ty1, ty2].last() == ty2);
    assert(pieces.len() == 81);
    let a = filter_pos(filter_norm(cube_points(), ty1.count()), keep);
    let b = filter_pos(filter_norm(cube_points(), ty2.count()), keep);
    let g = slot_value(pieces, f);
    assert((a + b).map_values(g) =~= a.map_values(g) + b.map_values(g));
}

/// The vectors that a filter keeps are vectors of the sequence.
pub proof fn lemma_filter_pos_in(s: Seq<Vec4>, pred: spec_fn(Vec4) -> bool)
    ensures
        forall|i: int| 0 <= i < filter_pos(s, pred).len() ==> s.contains(#[trigger] filter_pos(s, pred)[i]),
    decreases s.len(),
{
    if s.len() > 0 {
        let d = s.drop_last();
        lemma_filter_pos_in(d, pred);
        let r = filter_pos(s, pred);
        let r0 = filter_pos(d, pred);
        assert forall|i: int| 0 <= i < r.len() implies s.contains(#[trigger] r[i]) by {
            if i < r0.len() {
                assert(r[i] == r0[i]);
                let j = choose|j: int| 0 <= j < d.len() && d[j] == r0[i];
                assert(s[j] == r[i]);
            } else {
                assert(s[s.len() - 1] == r[i]);
            }
        }
    }
}

/// A number below `2^w` (`w` is 16 or 32) whose fields hold the values and
/// whose bits above the last field are clear is the packing of the values,
/// truncated to `w` bits.
pub proof fn lemma_packed_narrow(x: u128, vals: Seq<u64>, b: u64, w: nat)
    requires
        1 <= b <= 8,
        w == 16 || w == 32,
        vals.len() * b <= w,
        forall|i: int| 0 <= i < vals.len() ==> #[trigger] vals[i] < (1u64 << b),
        w == 16 ==> x < 0x1_0000,
        w == 32 ==> x < 0x1_0000_0000,
        forall|i: int| 0 <= i < vals.len() ==> #[trigger] field(x, (i * b) as u128, b as u128) == vals[i] as u128,
        forall|t: int| vals.len() * b <= t < w ==> #[trigger] bit(x, t as u128) == 0,
    ensures
        w == 16 ==> x == (pack_bits(vals, b) as u16) as u128,
        w == 32 ==> x == (pack_bits(vals, b) as u32) as u128,
{
    lemma_pack_fields(vals, b);
    let p = pack_bits(vals, b);
    let y = if w == 16 {
        (p as u16) as u128
    } else {
        (p as u32) as u128
    };
    let n = vals.len();
    assert forall|i: nat| i < n implies field(x, (0 + i * b) as u128, b as u128) == #[trigger] field(
        y,
        (0 + i * b) as u128,
        b as u128,
    ) by {
        assert(i * b + b <= w) by (nonlinear_arith)
            requires
                i < n,
                n * b <= w,
        ;
        lemma_truncate_u64_u32(p, (i * b) as u128, b as u128);
        assert(field(x, (i * b) as u128, b as u128) == vals[i as int] as u128);
    }
    let top = (n * b) as nat;
    assert forall|i: nat| i < w - top implies field(x, (top + i * 1) as u128, 1 as u128) == #[trigger] field(
        y,
        (top + i * 1) as u128,
        1 as u128,
    ) by {
        let t = top + i;
        lemma_truncate_u64_u32(p, t as u128, 1);
        lemma_low_mask_step(x, t as u128, 1);
        lemma_low_mask_step(y, t as u128, 1);
        lemma_low_mask_step(p as u128, t as u128, 1);
        assert(bit(p as u128, t as u128) == 0);
        assert(bit(x, t as u128) == 0);
    }
    lemma_low_mask_step(x, 0, 1);
    lemma_low_mask_step(y, 0, 1);
    lemma_low_fields_eq(x, y, 0, b as nat, n);
    lemma_low_fields_eq(x, y, top, 1, (w - top) as nat);
}

/// If the one-bit fields of `x` hold `val` of the puzzle at the points, `y`
/// is `x` moved by a twist that keeps each bit, and `val` of the twisted
/// puzzle at a point's image is `val` of the puzzle at the point, then the
/// fields of `y` hold `val` of the twisted puzzle.
pub proof fn lemma_moved_keep(
    pieces: Seq<(Vec4, Mat4)>,
    t: Twist,
    pts: Seq<Vec4>,
    val: spec_fn(Seq<(Vec4, Mat4)>, Vec4) -> u128,
    x: u128,
    y: u128,
)
    requires
        has_twist_row(pts, t),
        moves_fields(x, y, pts, t, 1, 0, FieldRule::Keep),
        forall|i: int| 0 <= i < pts.len() ==> #[trigger] field(x, field_pos(0, i, 1) as u128, 1) == val(pieces, pts[i]),
        forall|i: int|
            0 <= i < pts.len() ==> val(twist_pieces(pieces, t), moved_point(t, #[trigger] pts[i])) == val(pieces, pts[i]),
    ensures
        forall|j: int|
            0 <= j < pts.len() ==> #[trigger] field(y, field_pos(0, j, 1) as u128, 1) == val(
                twist_pieces(pieces, t),
                pts[j],
            ),
{
    let row = choose|row: Seq<usize>| #[trigger] is_twist_row(pts, t, row);
    assert forall|j: int| 0 <= j < pts.len() implies #[trigger] field(y, field_pos(0, j, 1) as u128, 1) == val(
        twist_pieces(pieces, t),
        pts[j],
    ) by {
        lemma_row_onto(pts, t, row, j);
        let i = choose|i: int| 0 <= i < pts.len() && #[trigger] row[i] == j;
        assert(pts[row[i] as int] == moved_point(t, pts[i]));
        assert(field(x, field_pos(0, i, 1) as u128, 1) == val(pieces, pts[i]));
    }
}

/// Whether `i` (below 81) numbers a ridge position in `R`, `L` or `I`.
pub open spec fn rli_ridge(i: int) -> bool {
    cube_off_digits(i) == 2 && (i % 3 != 1 || i / 27 == 0)
}

/// Number of `i` below `k` that number ridge positions in `R`, `L` or `I`.
pub open spec fn count_rli_ridges(k: int) -> int
    decreases k,
{
    if k <= 0 {
        0
    } else {
        count_rli_ridges(k - 1) + if rli_ridge(k - 1) {
            1int
        } else {
            0int
        }
    }
}

/// The ridge positions in `R`, `L` or `I` among the first `k` positions are
/// counted by [`count_rli_ridges`].
#[verifier::spinoff_prover]
#[verifier::rlimit(40)]
proof fn lemma_rli_count(k: int)
    requires
        0 <= k <= 81,
    ensures
        filter_pos(filter_norm(cube_points().take(k), 2), |v: Vec4| v.0[0] != 0 || v.0[3] < 0).len()
            == count_rli_ridges(k),
    decreases k,
{
    let keep = |v: Vec4| v.0[0] != 0 || v.0[3] < 0;
    if k > 0 {
        lemma_rli_count(k - 1);
        let s = cube_points().take(k);
        assert(s.drop_last() =~= cube_points().take(k - 1));
        assert(s.last() == cube_points()[k - 1]);
        lemma_cube_point(k - 1);
        let p = cube_points()[k - 1];
        let i = k - 1;
        assert(p.0[0] == -1 + i % 3 && p.0[1] == -1 + (i / 3) % 3 && p.0[2] == -1 + (i / 9) % 3 && p.0[3] == -1
            + i / 27) by {
            lemma_cube_index(p);
        }
        reveal_with_fuel(Vec4::partial_norm, 5);
        assert(p.spec_taxicab_norm() == cube_off_digits(i));
        let prev = filter_norm(cube_points().take(k - 1), 2);
        if p.spec_taxicab_norm() == 2 {
            assert(prev.push(p).drop_last() =~= prev);
        }
    } else {
        assert(cube_points().take(0) =~= Seq::<Vec4>::empty());
    }
}

/// There are 16 ridge positions in `R`, `L` or `I`.
#[verifier::spinoff_prover]
#[verifier::rlimit(60)]
pub proof fn lemma_rli_ridge_count()
    ensures
        filter_pos(filter_norm(cube_points(), 2), |v: Vec4| v.0[0] != 0 || v.0[3] < 0).len() == 16,
{
    lemma_rli_count(81);
    assert(cube_points().take(81) =~= cube_points());
    assert(count_rli_ridges(81) == 16) by {
        reveal_with_fuel(count_rli_ridges, 82);
    }
}

/// Two numbers with the same 128 bits are equal.
pub proof fn lemma_bits_eq_u128(x: u128, y: u128)
    requires
        forall|i: int| 0 <= i < 128 ==> #[trigger] bit(x, i as u128) == bit(y, i as u128),
    ensures
        x == y,
{
    assert forall|i: nat| i < 128 implies field(x, (0 + i * 1) as u128, 1 as u128) == #[trigger] field(
        y,
        (0 + i * 1) as u128,
        1 as u128,
    ) by {
        lemma_low_mask_step(x, i as u128, 1);
        lemma_low_mask_step(y, i as u128, 1);
        assert(bit(x, i as u128) == bit(y, i as u128));
    }
    lemma_low_mask_step(x, 0, 1);
    lemma_low_mask_step(y, 0, 1);
    lemma_low_fields_eq(x, y, 0, 1, 128);
}

/// Sixteen packed bits are below `2^16`.
pub proof fn lemma_pack16(vals: Seq<u64>)
    requires
        vals.len() <= 16,
        forall|i: int| 0 <= i < vals.len() ==> #[trigger] vals[i] < (1u64 << 1u64),
    ensures
        (pack_bits(vals, 1) as u128) < 0x1_0000,
{
    lemma_pack_fields(vals, 1);
    let p = pack_bits(vals, 1);
    let a = p as u128;
    let y16 = (p as u16) as u128;
    assert forall|i: nat| i < 64 implies field(a, (0 + i * 1) as u128, 1 as u128) == #[trigger] field(
        y16,
        (0 + i * 1) as u128,
        1 as u128,
    ) by {
        lemma_truncate_u64_u32(p, i as u128, 1);
        lemma_low_mask_step(a, i as u128, 1);
        if i >= vals.len() {
            assert(bit(a, i as u128) == 0);
        }
    }
    lemma_low_mask_step(a, 0, 1);
    lemma_low_mask_step(y16, 0, 1);
    lemma_low_fields_eq(a, y16, 0, 1, 64);
}

/// Whether `x` and `y` agree on every bit set in `m`.
pub open spec fn agree_on(x: u128, y: u128, m: u128) -> bool {
    forall|i: int| 0 <= i < 128 ==> #[trigger] bit(m, i as u128) == 1 ==> bit(x, i as u128) == bit(y, i as u128)
}

/// A bit of `x & m` is set exactly when it is set in both, and `x & m` is
/// `y & m` exactly when `x` and `y` agree on the bits of `m`.
pub proof fn lemma_and_mask(x: u128, y: u128, m: u128)
    ensures
        forall|i: int|
            0 <= i < 128 ==> (#[trigger] bit(x & m, i as u128) == 1) == (bit(x, i as u128) == 1 && bit(m, i as u128) == 1),
        ((x & m) == (y & m)) == agree_on(x, y, m),
{
    assert forall|i: int| 0 <= i < 128 implies #[trigger] bit(x & m, i as u128) == (if bit(x, i as u128) == 1 && bit(
        m,
        i as u128,
    ) == 1 {
        1u128
    } else {
        0u128
    }) && bit(y & m, i as u128) == (if bit(y, i as u128) == 1 && bit(m, i as u128) == 1 {
        1u128
    } else {
        0u128
    }) && (bit(x, i as u128) == 0 || bit(x, i as u128) == 1) && (bit(y, i as u128) == 0 || bit(y, i as u128) == 1) && (
    bit(m, i as u128) == 0 || bit(m, i as u128) == 1) by {
        lemma_and_bits(x, m, 0, 0, i as u128);
        lemma_and_bits(y, m, 0, 0, i as u128);
        lemma_and_bits(y, y, 0, 0, i as u128);
        lemma_and_bits(m, m, 0, 0, i as u128);
    }
    if agree_on(x, y, m) {
        assert forall|i: int| 0 <= i < 128 implies #[trigger] bit(x & m, i as u128) == bit(y & m, i as u128) by {
            assert(bit(x & m, i as u128) == (if bit(x, i as u128) == 1 && bit(m, i as u128) == 1 {
                1u128
            } else {
                0u128
            }));
            assert(bit(y & m, i as u128) == (if bit(y, i as u128) == 1 && bit(m, i as u128) == 1 {
                1u128
            } else {
                0u128
            }));
        }
        lemma_bits_eq_u128(x & m, y & m);
    }
    if (x & m) == (y & m) {
        assert forall|i: int| 0 <= i < 128 implies #[trigger] bit(m, i as u128) == 1 ==> bit(x, i as u128) == bit(
            y,
            i as u128,
        ) by {
            assert(bit(x & m, i as u128) == bit(y & m, i as u128));
        }
    }
}

} // verus!
