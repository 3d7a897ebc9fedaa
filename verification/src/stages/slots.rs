//! Lists of piece and sticker positions that a stage tracks.
use vstd::prelude::*;

use crate::linalg::{Axis, Mat4, Vec4};
use crate::permutation::{no_min, rule_applies, FieldRule};
use crate::puzzle::sim::{cube_index, SimplePuzzleSim};

verus! {

/// The vectors of `s` that satisfy `pred`, in order.
pub open spec fn filter_pos(s: Seq<Vec4>, pred: spec_fn(Vec4) -> bool) -> Seq<Vec4>
    decreases s.len(),
{
    if s.len() == 0 {
        s
    } else {
        let r = filter_pos(s.drop_last(), pred);
        if pred(s.last()) {
            r.push(s.last())
        } else {
            r
        }
    }
}

/// Filtering keeps at most the vectors there were.
pub proof fn lemma_filter_pos_len(s: Seq<Vec4>, pred: spec_fn(Vec4) -> bool)
    ensures
        filter_pos(s, pred).len() <= s.len(),
    decreases s.len(),
{
    if s.len() > 0 {
        lemma_filter_pos_len(s.drop_last(), pred);
    }
}

/// Returns the vectors of `v` for which `pred` (which computes `p`) holds,
/// in order.
pub fn filter_points(v: &Vec<Vec4>, pred: impl Fn(Vec4) -> bool, Ghost(p): Ghost<spec_fn(Vec4) -> bool>) -> (r: Vec<Vec4>)
    requires
        forall|x: Vec4| call_requires(pred, (x,)),
        forall|x: Vec4, b: bool| call_ensures(pred, (x,), b) ==> b == p(x),
    ensures
        r@ == filter_pos(v@, p),
{
    let mut r: Vec<Vec4> = Vec::new();
    let mut i: usize = 0;
    while i < v.len()
        invariant
            0 <= i <= v@.len(),
            forall|x: Vec4| call_requires(pred, (x,)),
            forall|x: Vec4, b: bool| call_ensures(pred, (x,), b) ==> b == p(x),
            r@ == filter_pos(v@.take(i as int), p),
        decreases v@.len() - i,
    {
        if i == 0 {
            assert(v@.take(0) =~= Seq::<Vec4>::empty());
        }
        let x = v[i];
        assert(v@.take(i + 1).drop_last() =~= v@.take(i as int));
        assert(v@.take(i + 1).last() == x);
        if pred(x) {
            r.push(x);
        }
        i = i + 1;
    }
    assert(v@.take(v@.len() as int) =~= v@);
    r
}

/// Whether the positions are distinct, none has a component `i8::MIN`, and
/// `rule` applies to each.
pub open spec fn slots_ok(points: Seq<Vec4>, rule: FieldRule, bits: u8) -> bool {
    &&& forall|i: int| 0 <= i < points.len() ==> no_min(#[trigger] points[i])
    &&& forall|i: int| 0 <= i < points.len() ==> rule_applies(rule, #[trigger] points[i], bits)
    &&& forall|i: int, j: int|
        0 <= i < points.len() && 0 <= j < points.len() && i != j ==> #[trigger] points[i]
            != #[trigger] points[j]
}

/// Returns whether the positions are distinct, none has a component
/// `i8::MIN`, and `rule` applies to each.
pub fn check_slots(points: &Vec<Vec4>, rule: FieldRule, bits: u8) -> (r: bool)
    ensures
        r == slots_ok(points@, rule, bits),
{
    let n = points.len();
    let mut i: usize = 0;
    while i < n
        invariant
            0 <= i <= n,
            n == points@.len(),
            forall|a: int| 0 <= a < i ==> no_min(#[trigger] points@[a]),
            forall|a: int| 0 <= a < i ==> rule_applies(rule, #[trigger] points@[a], bits),
            forall|a: int, b: int| 0 <= a < i && 0 <= b < n && a != b ==> #[trigger] points@[a] != #[trigger] points@[b],
        decreases n - i,
    {
        let p = points[i];
        if p.0[0] == i8::MIN || p.0[1] == i8::MIN || p.0[2] == i8::MIN || p.0[3] == i8::MIN {
            return false;
        }
        let ok = match rule {
            FieldRule::Keep => 1 <= bits && bits <= 8,
            FieldRule::RidgeXyz => bits == 2 && in_cube(p) && !p.same(Vec4([0i8, 0i8, 0i8, 0i8])),
            FieldRule::EdgeOrCornerX => bits == 2 && in_cube(p) && (p.taxicab_norm() != 3 || p.nonzero_axes().len() == 3),
            FieldRule::CornerAxis => bits == 2,
        };
        if !ok {
            return false;
        }
        let mut j: usize = 0;
        while j < n
            invariant
                0 <= j <= n,
                i < n,
                n == points@.len(),
                p == points@[i as int],
                forall|b: int| 0 <= b < j && b != i ==> points@[i as int] != #[trigger] points@[b],
            decreases n - j,
        {
            if j != i && p.same(points[j]) {
                assert(points@[i as int] == points@[j as int]);
                return false;
            }
            j = j + 1;
        }
        i = i + 1;
    }
    true
}

/// Returns whether every component of `p` is in `-1..=1`.
fn in_cube(p: Vec4) -> (r: bool)
    ensures
        r == p.in_cube(),
{
    -1 <= p.0[0] && p.0[0] <= 1 && -1 <= p.0[1] && p.0[1] <= 1 && -1 <= p.0[2] && p.0[2] <= 1 && -1
        <= p.0[3] && p.0[3] <= 1
}

/// Returns the positions of `a` followed by those of `b`.
pub fn concat_points(a: &Vec<Vec4>, b: &Vec<Vec4>) -> (r: Vec<Vec4>)
    ensures
        r@ == a@ + b@,
{
    let mut r: Vec<Vec4> = Vec::new();
    let mut i: usize = 0;
    while i < a.len()
        invariant
            0 <= i <= a@.len(),
            r@ == a@.take(i as int),
        decreases a@.len() - i,
    {
        r.push(a[i]);
        assert(r@ =~= a@.take(i + 1));
        i = i + 1;
    }
    let mut j: usize = 0;
    while j < b.len()
        invariant
            0 <= j <= b@.len(),
            a@.take(a@.len() as int) == a@,
            r@ == a@ + b@.take(j as int),
        decreases b@.len() - j,
    {
        r.push(b[j]);
        assert(r@ =~= a@ + b@.take(j + 1));
        j = j + 1;
    }
    assert(b@.take(b@.len() as int) =~= b@);
    r
}

/// Whether `v` is a sticker position: no component is `i8::MIN` and halving
/// its largest component gives a position in the cube.
pub open spec fn sticker_ok(v: Vec4) -> bool {
    no_min(v) && v.spec_sticker_piece().in_cube()
}

/// Whether `v` is a sticker position whose sticker came from `axis`: the
/// attitude of the piece that holds it takes `axis` to the sticker's axis.
pub open spec fn sticker_from_axis(pieces: Seq<(Vec4, Mat4)>, v: Vec4, axis: Axis) -> bool {
    sticker_ok(v) && pieces[cube_index(v.spec_sticker_piece())].1@[axis.idx()] / 2
        == v.spec_max_abs_index()
}

/// Returns whether `v` is a sticker position.
fn check_sticker(v: Vec4) -> (r: bool)
    ensures
        r == sticker_ok(v),
{
    if v.0[0] == i8::MIN || v.0[1] == i8::MIN || v.0[2] == i8::MIN || v.0[3] == i8::MIN {
        return false;
    }
    let (p, _ax) = v.unwrap_sticker();
    in_cube(p)
}

/// Returns, for each position, whether it is a sticker position whose sticker
/// came from `axis`.
pub fn stickers_from_axis(state: &SimplePuzzleSim, stickers: &Vec<Vec4>, axis: Axis) -> (r: Vec<bool>)
    ensures
        r@.len() == stickers@.len(),
        forall|i: int|
            0 <= i < stickers@.len() ==> #[trigger] r@[i] == sticker_from_axis(state.pieces@, stickers@[i], axis),
{
    let mut r: Vec<bool> = Vec::new();
    let mut i: usize = 0;
    while i < stickers.len()
        invariant
            0 <= i <= stickers@.len(),
            r@.len() == i,
            forall|a: int|
                0 <= a < i ==> #[trigger] r@[a] == sticker_from_axis(state.pieces@, stickers@[a], axis),
        decreases stickers@.len() - i,
    {
        let v = stickers[i];
        let b = if check_sticker(v) {
            state.is_sticker_from_axis(v, axis)
        } else {
            false
        };
        r.push(b);
        i = i + 1;
    }
    r
}


} // verus!
