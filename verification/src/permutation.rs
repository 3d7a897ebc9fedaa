//! Moving packed per-piece fields as a twist moves the pieces.
use vstd::prelude::*;

use crate::bits::{bit, field, lemma_field_bound, lemma_with_field, lemma_with_field_bit, with_field};
use crate::bits::{get_field, set_field};
use crate::linalg::axis::axis_of;
use crate::linalg::{Axis, Mat4, Vec4};
use crate::puzzle::twist::{lemma_twist_valid, Twist};
use crate::stage_utils::{rl_eo, spec_rl_eo, spec_xyz_ro, xyz_ro};

verus! {

/// Where the twist `t` takes the point `p`: turned by the twist's rotation if
/// the twist affects it, unchanged otherwise.
pub open spec fn moved_point(t: Twist, p: Vec4) -> Vec4 {
    if t.spec_affects(p) {
        t.spec_rot().spec_apply(p)
    } else {
        p
    }
}

/// Whether no component of `v` is `i8::MIN`.
pub open spec fn no_min(v: Vec4) -> bool {
    &&& v.0[0] != i8::MIN
    &&& v.0[1] != i8::MIN
    &&& v.0[2] != i8::MIN
    &&& v.0[3] != i8::MIN
}

/// Whether `row` takes each point to the index of its image under `t`, and
/// no two points to the same index.
pub open spec fn is_twist_row(points: Seq<Vec4>, t: Twist, row: Seq<usize>) -> bool {
    &&& row.len() == points.len()
    &&& forall|i: int|
        0 <= i < points.len() ==> (#[trigger] row[i]) < points.len() && points[row[i] as int]
            == moved_point(t, points[i])
    &&& forall|i: int, j: int|
        0 <= i < points.len() && 0 <= j < points.len() && i != j ==> #[trigger] row[i]
            != #[trigger] row[j]
}

/// Whether some choice of image indices makes a row for `t`.
pub open spec fn has_twist_row(points: Seq<Vec4>, t: Twist) -> bool {
    exists|row: Seq<usize>| #[trigger] is_twist_row(points, t, row)
}

/// Returns, for each point, the index in `points` of its image under the
/// twist, or `None` if some image is not in `points` or two points have the
/// same image.
pub fn permutation_row(points: &Vec<Vec4>, twist: Twist) -> (r: Option<Vec<usize>>)
    requires
        forall|i: int| 0 <= i < points@.len() ==> no_min(#[trigger] points@[i]),
        forall|i: int, j: int|
            0 <= i < points@.len() && 0 <= j < points@.len() && i != j ==> #[trigger] points@[i]
                != #[trigger] points@[j],
    ensures
        r matches Some(row) ==> is_twist_row(points@, twist, row@),
        r is None ==> !has_twist_row(points@, twist),
{
    let n = points.len();
    let rot = twist.rot();
    let mut row: Vec<usize> = Vec::new();
    let mut seen: Vec<bool> = Vec::new();
    let mut k: usize = 0;
    while k < n
        invariant
            0 <= k <= n,
            n == points@.len(),
            seen@.len() == k,
            forall|j: int| 0 <= j < k ==> !#[trigger] seen@[j],
        decreases n - k,
    {
        seen.push(false);
        k = k + 1;
    }
    let mut i: usize = 0;
    while i < n
        invariant
            0 <= i <= n,
            n == points@.len(),
            rot == twist.spec_rot(),
            forall|i: int| 0 <= i < points@.len() ==> no_min(#[trigger] points@[i]),
            forall|a: int, b: int|
                0 <= a < points@.len() && 0 <= b < points@.len() && a != b ==> #[trigger] points@[a]
                    != #[trigger] points@[b],
            row@.len() == i,
            seen@.len() == n,
            forall|a: int|
                0 <= a < i ==> (#[trigger] row@[a]) < n && points@[row@[a] as int] == moved_point(
                    twist,
                    points@[a],
                ) && seen@[row@[a] as int],
            forall|a: int, b: int| 0 <= a < i && 0 <= b < i && a != b ==> #[trigger] row@[a] != #[trigger] row@[b],
            forall|j: int| 0 <= j < n && #[trigger] seen@[j] ==> exists|a: int| 0 <= a < i && row@[a] == j,
        decreases n - i,
    {
        let p = points[i];
        let q = if twist.affects(p) {
            rot.mul_vec(p)
        } else {
            p
        };
        assert(q == moved_point(twist, points@[i as int]));
        let mut j: usize = 0;
        while j < n && !points[j].same(q)
            invariant
                0 <= j <= n,
                n == points@.len(),
                forall|b: int| 0 <= b < j ==> #[trigger] points@[b] != q,
            decreases n - j,
        {
            j = j + 1;
        }
        proof {
            if j < n {
                assert(points@[j as int].0 =~= q.0);
            }
        }
        if j == n {
            proof {
                if has_twist_row(points@, twist) {
                    let rw = choose|rw: Seq<usize>| #[trigger] is_twist_row(points@, twist, rw);
                    assert(points@[rw[i as int] as int] == q);
                }
            }
            return None;
        }
        if seen[j] {
            proof {
                let a = choose|a: int| 0 <= a < i && row@[a] == j;
                if has_twist_row(points@, twist) {
                    let rw = choose|rw: Seq<usize>| #[trigger] is_twist_row(points@, twist, rw);
                    assert(points@[rw[i as int] as int] == q);
                    assert(points@[j as int] == q);
                    assert(rw[i as int] == j);
                    assert(points@[rw[a] as int] == points@[j as int]);
                    assert(rw[a] == j);
                    assert(rw[a] != rw[i as int]);
                }
            }
            return None;
        }
        let ghost old_seen = seen@;
        let ghost old_row = row@;
        seen.set(j, true);
        row.push(j);
        proof {
            assert forall|jj: int| 0 <= jj < n && #[trigger] seen@[jj] implies exists|a: int|
                0 <= a < i + 1 && row@[a] == jj by {
                if jj == j {
                    assert(row@[i as int] == j);
                } else {
                    assert(old_seen[jj]);
                    let a = choose|a: int| 0 <= a < i && old_row[a] == jj;
                    assert(row@[a] == jj);
                }
            }
        }
        i = i + 1;
    }
    Some(row)
}

/// Bit position of the field of element `i`.
pub open spec fn field_pos(offset: int, i: int, bits: int) -> int {
    offset + i * bits
}

/// Returns the `bits`-bit fields of elements `0..n`, the first at bit
/// `offset`.
pub fn fields_of(x: u128, n: usize, bits: u8, offset: u8) -> (r: Vec<u128>)
    requires
        1 <= bits <= 8,
        offset + n * bits <= 128,
    ensures
        r@.len() == n,
        forall|i: int|
            0 <= i < n ==> #[trigger] r@[i] == field(x, field_pos(offset as int, i, bits as int) as u128, bits as u128),
        forall|i: int| 0 <= i < n ==> #[trigger] r@[i] < (1u128 << bits),
{
    let mut r: Vec<u128> = Vec::new();
    let mut i: usize = 0;
    while i < n
        invariant
            0 <= i <= n,
            1 <= bits <= 8,
            offset + n * bits <= 128,
            r@.len() == i,
            forall|a: int|
                0 <= a < i ==> #[trigger] r@[a] == field(x, field_pos(offset as int, a, bits as int) as u128, bits as u128),
            forall|a: int| 0 <= a < i ==> #[trigger] r@[a] < (1u128 << bits),
        decreases n - i,
    {
        proof {
            assert(i * bits + bits <= n * bits) by (nonlinear_arith)
                requires
                    i < n,
                    bits >= 1,
            ;
        }
        let s = (offset as usize + i * (bits as usize)) as u8;
        assert(s == field_pos(offset as int, i as int, bits as int));
        r.push(get_field(x, s, bits));
        i = i + 1;
    }
    r
}

/// Returns `x` with the field of element `row[i]` set to `vals[i]`, for each
/// `i`; the other bits are those of `x`.
pub fn place_fields(x: u128, row: &Vec<usize>, vals: &Vec<u128>, bits: u8, offset: u8) -> (r: u128)
    requires
        1 <= bits <= 8,
        offset + row@.len() * bits <= 128,
        vals@.len() == row@.len(),
        forall|i: int| 0 <= i < row@.len() ==> (#[trigger] row@[i]) < row@.len(),
        forall|i: int, j: int|
            0 <= i < row@.len() && 0 <= j < row@.len() && i != j ==> #[trigger] row@[i] != #[trigger] row@[j],
        forall|i: int| 0 <= i < vals@.len() ==> #[trigger] vals@[i] < (1u128 << bits),
    ensures
        forall|i: int|
            0 <= i < row@.len() ==> field(
                r,
                field_pos(offset as int, #[trigger] row@[i] as int, bits as int) as u128,
                bits as u128,
            ) == vals@[i],
        forall|t: int|
            0 <= t < 128 && (t < offset || t >= offset + row@.len() * bits) ==> #[trigger] bit(r, t as u128) == bit(x, t as u128),
{
    let n = row.len();
    let mut out = x;
    let mut i: usize = 0;
    while i < n
        invariant
            0 <= i <= n,
            n == row@.len(),
            1 <= bits <= 8,
            offset + n * bits <= 128,
            vals@.len() == n,
            forall|a: int| 0 <= a < n ==> (#[trigger] row@[a]) < n,
            forall|a: int, b: int| 0 <= a < n && 0 <= b < n && a != b ==> #[trigger] row@[a] != #[trigger] row@[b],
            forall|a: int| 0 <= a < n ==> #[trigger] vals@[a] < (1u128 << bits),
            forall|a: int|
                0 <= a < i ==> field(
                    out,
                    field_pos(offset as int, #[trigger] row@[a] as int, bits as int) as u128,
                    bits as u128,
                ) == vals@[a],
            forall|t: int|
                0 <= t < 128 && (t < offset || t >= offset + n * bits) ==> #[trigger] bit(out, t as u128) == bit(x, t as u128),
        decreases n - i,
    {
        let d = row[i];
        proof {
            assert(d * bits + bits <= n * bits) by (nonlinear_arith)
                requires
                    d < n,
                    bits >= 1,
            ;
        }
        let s = (offset as usize + d * (bits as usize)) as u8;
        assert(s == field_pos(offset as int, d as int, bits as int));
        let ghost old_out = out;
        out = set_field(out, s, bits, vals[i]);
        proof {
            assert forall|a: int| 0 <= a < i + 1 implies field(
                out,
                field_pos(offset as int, #[trigger] row@[a] as int, bits as int) as u128,
                bits as u128,
            ) == vals@[a] by {
                let da = row@[a] as int;
                let sa = field_pos(offset as int, da, bits as int);
                assert(da * bits + bits <= n * bits) by (nonlinear_arith)
                    requires
                        da < n,
                        bits >= 1,
                ;
                if a < i {
                    assert(da != d);
                    assert(s + bits <= sa || sa + bits <= s) by (nonlinear_arith)
                        requires
                            s == offset + d * bits,
                            sa == offset + da * bits,
                            da != d,
                            bits >= 1,
                    ;
                }
                lemma_with_field(old_out, s as u128, bits as u128, vals@[i as int], sa as u128);
            }
            assert forall|t: int|
                0 <= t < 128 && (t < offset || t >= offset + n * bits) implies #[trigger] bit(out, t as u128) == bit(x, t as u128) by {
                lemma_with_field_bit(old_out, s as u128, bits as u128, vals@[i as int], t as u128);
            }
        }
        i = i + 1;
    }
    out
}

/// How the field of a piece changes when a twist moves the piece.
#[derive(Debug, Copy, Clone, PartialEq, Eq, Structural)]
pub enum FieldRule {
    /// The field is kept.
    Keep,
    /// A ridge orientation relative to the first nonzero axis (see
    /// [`xyz_ro`]).
    RidgeXyz,
    /// For an edge, an orientation relative to the X axis (see [`rl_eo`]);
    /// for a corner, the axis number of its `R`/`L` sticker.
    EdgeOrCornerX,
    /// The axis number of the `R`/`L` sticker.
    CornerAxis,
}

/// The new field of the piece at `p`, with field `o`, after the twist `t`.
pub open spec fn rule_value(rule: FieldRule, t: Twist, p: Vec4, o: u128) -> u128 {
    let rot = t.spec_rot();
    if !t.spec_affects(p) {
        o
    } else {
        match rule {
            FieldRule::Keep => o,
            FieldRule::RidgeXyz => spec_xyz_ro(rot, p, o as u8) as u128,
            FieldRule::EdgeOrCornerX => if p.spec_taxicab_norm() == 3 {
                spec_rl_eo(rot, p, o as u8) as u128
            } else {
                (rot@[o as int] / 2) as u128
            },
            FieldRule::CornerAxis => (rot@[o as int] / 2) as u128,
        }
    }
}

/// Whether the rule can update the field of the piece at `p`, whatever the
/// field holds.
pub open spec fn rule_applies(rule: FieldRule, p: Vec4, bits: u8) -> bool {
    match rule {
        FieldRule::Keep => 1 <= bits <= 8,
        FieldRule::RidgeXyz => bits == 2 && p.in_cube() && p != Vec4([0i8, 0i8, 0i8, 0i8]),
        FieldRule::EdgeOrCornerX => bits == 2 && p.in_cube() && (p.spec_taxicab_norm() == 3
            ==> p.spec_nonzero_axes().len() == 3),
        FieldRule::CornerAxis => bits == 2,
    }
}

/// Two-bit fields hold values below 4, and flipping both bits of one keeps
/// it below 4.
pub proof fn lemma_two_bit_values(o: u128, bits: u8)
    requires
        bits == 2 ==> o < (1u128 << bits),
    ensures
        (1u128 << 2u8) == 4,
        bits == 2 ==> o < 4 && (o as u8) ^ 3 < 4,
{
    assert((1u128 << 2u8) == 4) by (bit_vector);
    if bits == 2 {
        let ob = o as u8;
        assert(ob ^ 3 < 4) by (bit_vector)
            requires
                ob < 4,
        ;
    }
}

/// Returns the new field of the piece at `p`, with field `o`, after the
/// twist.
fn rule_apply(rule: FieldRule, t: Twist, p: Vec4, o: u128, bits: u8) -> (r: u128)
    requires
        rule_applies(rule, p, bits),
        no_min(p),
        o < (1u128 << bits),
    ensures
        r == rule_value(rule, t, p, o),
        r < (1u128 << bits),
{
    if !t.affects(p) {
        return o;
    }
    proof {
        use_type_invariant(&t);
        t.lemma_idx();
        lemma_twist_valid(t.idx());
        Mat4::lemma_from_cols(crate::puzzle::twist_data::twist_cols(t.idx() / 23, t.idx() % 23));
        t.spec_rot().lemma_view();
        lemma_two_bit_values(o, bits);
    }
    let rot = t.rot();
    let res = match rule {
        FieldRule::Keep => o,
        FieldRule::RidgeXyz => {
            let v = xyz_ro(rot, p, o as u8);
            assert(v < 4);
            v as u128
        },
        FieldRule::EdgeOrCornerX => {
            if p.taxicab_norm() == 3 {
                let v = rl_eo(rot, p, o as u8);
                assert(v < 4);
                v as u128
            } else {
                Axis::from_u8(o as u8).transform_by(rot).to_u8() as u128
            }
        },
        FieldRule::CornerAxis => Axis::from_u8(o as u8).transform_by(rot).to_u8() as u128,
    };
    proof {
        if rule != FieldRule::Keep {
            assert(bits == 2);
            assert(res < 4);
        }
    }
    res
}

/// Returns `x` with the fields of the pieces at `points` (the field of
/// element `i` at bit `offset + i * bits`) moved as the twist moves the
/// pieces, each updated by `rule`; `None` if the twist takes some piece out
/// of `points`.
pub fn twist_fields(
    x: u128,
    points: &Vec<Vec4>,
    twist: Twist,
    bits: u8,
    offset: u8,
    rule: FieldRule,
) -> (r: Option<u128>)
    requires
        forall|i: int| 0 <= i < points@.len() ==> no_min(#[trigger] points@[i]),
        forall|i: int, j: int|
            0 <= i < points@.len() && 0 <= j < points@.len() && i != j ==> #[trigger] points@[i]
                != #[trigger] points@[j],
        forall|i: int| 0 <= i < points@.len() ==> rule_applies(rule, #[trigger] points@[i], bits),
        1 <= bits <= 8,
        offset + points@.len() * bits <= 128,
    ensures
        r is Some == has_twist_row(points@, twist),
        r matches Some(y) ==> forall|row: Seq<usize>|
            #[trigger] is_twist_row(points@, twist, row) ==> forall|i: int|
                0 <= i < points@.len() ==> field(
                    y,
                    field_pos(offset as int, #[trigger] row[i] as int, bits as int) as u128,
                    bits as u128,
                ) == rule_value(
                    rule,
                    twist,
                    points@[i],
                    field(x, field_pos(offset as int, i, bits as int) as u128, bits as u128),
                ),
        r matches Some(y) ==> forall|t: int|
            0 <= t < 128 && (t < offset || t >= offset + points@.len() * bits) ==> #[trigger] bit(
                y,
                t as u128,
            ) == bit(x, t as u128),
{
    let n = points.len();
    let row = match permutation_row(points, twist) {
        Some(row) => row,
        None => return None,
    };
    let olds = fields_of(x, n, bits, offset);
    let mut vals: Vec<u128> = Vec::new();
    let mut i: usize = 0;
    while i < n
        invariant
            0 <= i <= n,
            n == points@.len(),
            olds@.len() == n,
            forall|a: int| 0 <= a < n ==> #[trigger] olds@[a] < (1u128 << bits),
            forall|a: int| 0 <= a < n ==> no_min(#[trigger] points@[a]),
            forall|a: int| 0 <= a < n ==> rule_applies(rule, #[trigger] points@[a], bits),
            vals@.len() == i,
            forall|a: int| 0 <= a < i ==> #[trigger] vals@[a] == rule_value(rule, twist, points@[a], olds@[a]),
            forall|a: int| 0 <= a < i ==> #[trigger] vals@[a] < (1u128 << bits),
        decreases n - i,
    {
        vals.push(rule_apply(rule, twist, points[i], olds[i], bits));
        i = i + 1;
    }
    let y = place_fields(x, &row, &vals, bits, offset);
    proof {
        assert forall|rw: Seq<usize>| #[trigger] is_twist_row(points@, twist, rw) implies forall|i: int|
            0 <= i < points@.len() ==> field(
                y,
                field_pos(offset as int, #[trigger] rw[i] as int, bits as int) as u128,
                bits as u128,
            ) == rule_value(
                rule,
                twist,
                points@[i],
                field(x, field_pos(offset as int, i, bits as int) as u128, bits as u128),
            ) by {
            assert forall|i: int| 0 <= i < points@.len() implies field(
                y,
                field_pos(offset as int, #[trigger] rw[i] as int, bits as int) as u128,
                bits as u128,
            ) == rule_value(
                rule,
                twist,
                points@[i],
                field(x, field_pos(offset as int, i, bits as int) as u128, bits as u128),
            ) by {
                assert(points@[rw[i] as int] == points@[row@[i] as int]);
                assert(rw[i] == row@[i]);
            }
        }
    }
    Some(y)
}

/// Whether `y` holds the fields of `x` moved and updated as the twist moves
/// the pieces at `points` (see [`twist_fields`]).
pub open spec fn moves_fields(
    x: u128,
    y: u128,
    points: Seq<Vec4>,
    t: Twist,
    bits: u8,
    offset: u8,
    rule: FieldRule,
) -> bool {
    forall|row: Seq<usize>|
        #[trigger] is_twist_row(points, t, row) ==> forall|i: int|
            0 <= i < points.len() ==> field(
                y,
                field_pos(offset as int, #[trigger] row[i] as int, bits as int) as u128,
                bits as u128,
            ) == rule_value(
                rule,
                t,
                points[i],
                field(x, field_pos(offset as int, i, bits as int) as u128, bits as u128),
            )
}

} // verus!
