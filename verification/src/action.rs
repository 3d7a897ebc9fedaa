//! Moving packed per-piece fields as a twist, followed by a rotation of the
//! whole puzzle, moves the pieces.
use vstd::prelude::*;

use crate::bits::{bit, field};
use crate::linalg::mat4::{lemma_apply_in_cube, lemma_mul_perm};
use crate::linalg::{Axis, Mat4, Vec4};
use crate::permutation::{field_pos, fields_of, moved_point, place_fields, rule_applies, FieldRule};
use crate::puzzle::twist::{lemma_twist_keeps_side, Twist};
use crate::stage_utils::{rl_eo, spec_rl_eo, spec_xyz_ro, xyz_ro};

verus! {

/// Where the twist `t`, followed by the rotation `e` of the whole puzzle,
/// takes the point `p`.
pub open spec fn acted_point(t: Twist, e: Mat4, p: Vec4) -> Vec4 {
    e.spec_apply(moved_point(t, p))
}

/// The matrix that turns the piece at `p`: `e` times the twist's rotation
/// if the twist affects `p`, else `e`.
pub open spec fn acting_matrix(t: Twist, e: Mat4, p: Vec4) -> Mat4 {
    if t.spec_affects(p) {
        e.spec_mul(t.spec_rot())
    } else {
        e
    }
}

/// Whether `row` takes each point to the index of its image under the twist
/// and the rotation, and no two points to the same index.
pub open spec fn is_action_row(points: Seq<Vec4>, t: Twist, e: Mat4, row: Seq<usize>) -> bool {
    &&& row.len() == points.len()
    &&& forall|i: int|
        0 <= i < points.len() ==> (#[trigger] row[i]) < points.len() && points[row[i] as int]
            == acted_point(t, e, points[i])
    &&& forall|i: int, j: int|
        0 <= i < points.len() && 0 <= j < points.len() && i != j ==> #[trigger] row[i]
            != #[trigger] row[j]
}

/// Whether some choice of image indices makes a row for the twist and the
/// rotation.
pub open spec fn has_action_row(points: Seq<Vec4>, t: Twist, e: Mat4) -> bool {
    exists|row: Seq<usize>| #[trigger] is_action_row(points, t, e, row)
}

/// Whether the points are distinct positions of the cube.
pub open spec fn cube_slots(points: Seq<Vec4>) -> bool {
    &&& forall|i: int| 0 <= i < points.len() ==> (#[trigger] points[i]).in_cube()
    &&& forall|i: int, j: int|
        0 <= i < points.len() && 0 <= j < points.len() && i != j ==> #[trigger] points[i]
            != #[trigger] points[j]
}

/// Returns whether the points are distinct positions of the cube.
pub fn check_cube_slots(points: &Vec<Vec4>) -> (r: bool)
    ensures
        r == cube_slots(points@),
{
    let n = points.len();
    let mut i: usize = 0;
    while i < n
        invariant
            0 <= i <= n,
            n == points@.len(),
            forall|a: int| 0 <= a < i ==> (#[trigger] points@[a]).in_cube(),
            forall|a: int, b: int| 0 <= a < i && 0 <= b < n && a != b ==> #[trigger] points@[a] != #[trigger] points@[b],
        decreases n - i,
    {
        let p = points[i];
        if !(-1 <= p.0[0] && p.0[0] <= 1 && -1 <= p.0[1] && p.0[1] <= 1 && -1 <= p.0[2] && p.0[2] <= 1 && -1
            <= p.0[3] && p.0[3] <= 1) {
            return false;
        }
        let mut j: usize = 0;
        while j < n
            invariant
                0 <= j <= n,
                n == points@.len(),
                0 <= i < n,
                p == points@[i as int],
                forall|b: int| 0 <= b < j && b != i ==> points@[i as int] != #[trigger] points@[b],
            decreases n - j,
        {
            if j != i && points[j].same(p) {
                return false;
            }
            j = j + 1;
        }
        i = i + 1;
    }
    true
}

/// Returns where the twist and then the rotation take a point of the cube.
fn act_on_point(twist: Twist, extra: Mat4, p: Vec4) -> (q: Vec4)
    requires
        p.in_cube(),
        extra.is_perm(),
    ensures
        q == acted_point(twist, extra, p),
        q.in_cube(),
{
    proof {
        use_type_invariant(&twist);
        lemma_twist_keeps_side(twist, p);
    }
    let q0 = if twist.affects(p) {
        proof {
            lemma_apply_in_cube(twist.spec_rot(), p);
        }
        twist.rot().mul_vec(p)
    } else {
        p
    };
    proof {
        lemma_apply_in_cube(extra, q0);
    }
    extra.mul_vec(q0)
}

/// Returns, for each point, the index in `points` of its image under the
/// twist and the rotation, or `None` if some image is not in `points` or two
/// points have the same image.
pub fn action_row(points: &Vec<Vec4>, twist: Twist, extra: Mat4) -> (r: Option<Vec<usize>>)
    requires
        cube_slots(points@),
        extra.is_perm(),
    ensures
        r matches Some(row) ==> is_action_row(points@, twist, extra, row@),
        r is None ==> !has_action_row(points@, twist, extra),
{
    let n = points.len();
    let mut row: Vec<usize> = Vec::new();
    let mut seen: Vec<bool> = Vec::new();
    let mut k: usize = 0;
    while k < n
        invariant
            0 <= k <= n,
            n == points@.len(),
            seen@.len() == k,
            forall|j: int| 0 <= j < k ==> !#[trigger] seen@[j],
        decreases n - k,
    {
        seen.push(false);
        k = k + 1;
    }
    let mut i: usize = 0;
    while i < n
        invariant
            0 <= i <= n,
            n == points@.len(),
            cube_slots(points@),
            extra.is_perm(),
            row@.len() == i,
            seen@.len() == n,
            forall|a: int|
                0 <= a < i ==> (#[trigger] row@[a]) < n && points@[row@[a] as int] == acted_point(
                    twist,
                    extra,
                    points@[a],
                ) && seen@[row@[a] as int],
            forall|a: int, b: int| 0 <= a < i && 0 <= b < i && a != b ==> #[trigger] row@[a] != #[trigger] row@[b],
            forall|j: int| 0 <= j < n && #[trigger] seen@[j] ==> exists|a: int| 0 <= a < i && row@[a] == j,
        decreases n - i,
    {
        let q = act_on_point(twist, extra, points[i]);
        let mut j: usize = 0;
        while j < n && !points[j].same(q)
            invariant
                0 <= j <= n,
                n == points@.len(),
                forall|b: int| 0 <= b < j ==> #[trigger] points@[b] != q,
            decreases n - j,
        {
            j = j + 1;
        }
        if j == n {
            proof {
                if has_action_row(points@, twist, extra) {
                    let rw = choose|rw: Seq<usize>| #[trigger] is_action_row(points@, twist, extra, rw);
                    assert(points@[rw[i as int] as int] == q);
                }
            }
            return None;
        }
        if seen[j] {
            proof {
                let a = choose|a: int| 0 <= a < i && row@[a] == j;
                if has_action_row(points@, twist, extra) {
                    let rw = choose|rw: Seq<usize>| #[trigger] is_action_row(points@, twist, extra, rw);
                    assert(points@[rw[i as int] as int] == q);
                    assert(points@[j as int] == q);
                    assert(rw[i as int] == j);
                    assert(points@[rw[a] as int] == points@[j as int]);
                    assert(rw[a] == j);
                    assert(rw[a] != rw[i as int]);
                }
            }
            return None;
        }
        let ghost old_seen = seen@;
        let ghost old_row = row@;
        seen.set(j, true);
        row.push(j);
        proof {
            assert forall|jj: int| 0 <= jj < n && #[trigger] seen@[jj] implies exists|a: int|
                0 <= a < i + 1 && row@[a] == jj by {
                if jj == j {
                    assert(row@[i as int] == j);
                } else {
                    assert(old_seen[jj]);
                    let a = choose|a: int| 0 <= a < i && old_row[a] == jj;
                    assert(row@[a] == jj);
                }
            }
        }
        i = i + 1;
    }
    Some(row)
}

/// The new field of the piece at `p`, with field `o`, after the twist and
/// the rotation: `rule` applied with the matrix that turns the piece.
pub open spec fn action_value(rule: FieldRule, t: Twist, e: Mat4, p: Vec4, o: u128) -> u128 {
    let r = acting_matrix(t, e, p);
    match rule {
        FieldRule::Keep => o,
        FieldRule::RidgeXyz => spec_xyz_ro(r, p, o as u8) as u128,
        FieldRule::EdgeOrCornerX => if p.spec_taxicab_norm() == 3 {
            spec_rl_eo(r, p, o as u8) as u128
        } else {
            (r@[o as int] / 2) as u128
        },
        FieldRule::CornerAxis => (r@[o as int] / 2) as u128,
    }
}

/// Returns the new field of the piece at `p`, with field `o`, after the
/// twist and the rotation.
fn action_apply(rule: FieldRule, t: Twist, e: Mat4, p: Vec4, o: u128, bits: u8) -> (r: u128)
    requires
        rule_applies(rule, p, bits),
        p.in_cube(),
        e.is_perm(),
        o < (1u128 << bits),
    ensures
        r == action_value(rule, t, e, p, o),
        r < (1u128 << bits),
{
    proof {
        use_type_invariant(&t);
        lemma_twist_keeps_side(t, p);
        lemma_mul_perm(e, t.spec_rot());
        crate::permutation::lemma_two_bit_values(o, bits);
    }
    let m = if t.affects(p) {
        e.mul(t.rot())
    } else {
        e
    };
    let res = match rule {
        FieldRule::Keep => o,
        FieldRule::RidgeXyz => {
            let v = xyz_ro(m, p, o as u8);
            assert(v < 4);
            v as u128
        },
        FieldRule::EdgeOrCornerX => {
            if p.taxicab_norm() == 3 {
                let v = rl_eo(m, p, o as u8);
                v as u128
            } else {
                Axis::from_u8(o as u8).transform_by(m).to_u8() as u128
            }
        },
        FieldRule::CornerAxis => Axis::from_u8(o as u8).transform_by(m).to_u8() as u128,
    };
    proof {
        if rule != FieldRule::Keep {
            assert(bits == 2);
            assert(res < 4);
        }
    }
    res
}

/// Whether `y` holds the fields of `x` moved and updated as the twist and
/// the rotation move the pieces at `points` (see [`action_fields`]).
pub open spec fn acts_fields(
    x: u128,
    y: u128,
    points: Seq<Vec4>,
    t: Twist,
    e: Mat4,
    bits: u8,
    offset: u8,
    rule: FieldRule,
) -> bool {
    forall|row: Seq<usize>|
        #[trigger] is_action_row(points, t, e, row) ==> forall|i: int|
            0 <= i < points.len() ==> field(
                y,
                field_pos(offset as int, #[trigger] row[i] as int, bits as int) as u128,
                bits as u128,
            ) == action_value(
                rule,
                t,
                e,
                points[i],
                field(x, field_pos(offset as int, i, bits as int) as u128, bits as u128),
            )
}

/// Returns `x` with the fields of the pieces at `points` (the field of
/// element `i` at bit `offset + i * bits`) moved as the twist and then the
/// rotation move the pieces, each updated by `rule`; `None` if they take
/// some piece out of `points`.
pub fn action_fields(
    x: u128,
    points: &Vec<Vec4>,
    twist: Twist,
    extra: Mat4,
    bits: u8,
    offset: u8,
    rule: FieldRule,
) -> (r: Option<u128>)
    requires
        cube_slots(points@),
        extra.is_perm(),
        forall|i: int| 0 <= i < points@.len() ==> rule_applies(rule, #[trigger] points@[i], bits),
        1 <= bits <= 8,
        offset + points@.len() * bits <= 128,
    ensures
        r is Some == has_action_row(points@, twist, extra),
        r matches Some(y) ==> acts_fields(x, y, points@, twist, extra, bits, offset, rule),
        r matches Some(y) ==> forall|t: int|
            0 <= t < 128 && (t < offset || t >= offset + points@.len() * bits) ==> #[trigger] bit(
                y,
                t as u128,
            ) == bit(x, t as u128),
{
    let n = points.len();
    let row = match action_row(points, twist, extra) {
        Some(row) => row,
        None => return None,
    };
    let olds = fields_of(x, n, bits, offset);
    let mut vals: Vec<u128> = Vec::new();
    let mut i: usize = 0;
    while i < n
        invariant
            0 <= i <= n,
            n == points@.len(),
            cube_slots(points@),
            extra.is_perm(),
            olds@.len() == n,
            forall|a: int| 0 <= a < n ==> #[trigger] olds@[a] < (1u128 << bits),
            forall|a: int| 0 <= a < n ==> rule_applies(rule, #[trigger] points@[a], bits),
            vals@.len() == i,
            forall|a: int| 0 <= a < i ==> #[trigger] vals@[a] == action_value(rule, twist, extra, points@[a], olds@[a]),
            forall|a: int| 0 <= a < i ==> #[trigger] vals@[a] < (1u128 << bits),
        decreases n - i,
    {
        vals.push(action_apply(rule, twist, extra, points[i], olds[i], bits));
        i = i + 1;
    }
    let y = place_fields(x, &row, &vals, bits, offset);
    proof {
        assert forall|rw: Seq<usize>| #[trigger] is_action_row(points@, twist, extra, rw) implies forall|i: int|
            0 <= i < points@.len() ==> field(
                y,
                field_pos(offset as int, #[trigger] rw[i] as int, bits as int) as u128,
                bits as u128,
            ) == action_value(
                rule,
                twist,
                extra,
                points@[i],
                field(x, field_pos(offset as int, i, bits as int) as u128, bits as u128),
            ) by {
            assert forall|i: int| 0 <= i < points@.len() implies field(
                y,
                field_pos(offset as int, #[trigger] rw[i] as int, bits as int) as u128,
                bits as u128,
            ) == action_value(
                rule,
                twist,
                extra,
                points@[i],
                field(x, field_pos(offset as int, i, bits as int) as u128, bits as u128),
            ) by {
                assert(points@[rw[i] as int] == points@[row@[i] as int]);
                assert(rw[i] == row@[i]);
            }
        }
    }
    Some(y)
}

} // verus!
