use vstd::prelude::*;

use crate::linalg::axis::axis_of;
use crate::linalg::facet::facet_of;
use crate::linalg::vec4::dim;
use crate::linalg::{Facet, Vec4};

verus! {

/// Kind of piece, by the number of its stickers.
#[derive(Debug, Copy, Clone, PartialEq, Eq, Structural, Hash)]
pub enum PieceType {
    /// 1 core (0-color piece)
    Core,
    /// 8 centers (1-color pieces)
    Center,
    /// 24 ridges (2-color pieces)
    Ridge,
    /// 32 edges (3-color pieces)
    Edge,
    /// 16 corners (4-color pieces)
    Corner,
}

/// The 81 piece positions `[-1, -1, -1, -1]..=[1, 1, 1, 1]` in region order.
pub open spec fn cube_points() -> Seq<Vec4> {
    Seq::new(81, |i: int| Vec4::region_point(Vec4([-1i8, -1i8, -1i8, -1i8]), Vec4([1i8, 1i8, 1i8, 1i8]), i))
}

/// The vectors of `s` whose taxicab norm is `n`, in order.
pub open spec fn filter_norm(s: Seq<Vec4>, n: int) -> Seq<Vec4>
    decreases s.len(),
{
    if s.len() == 0 {
        s
    } else {
        let r = filter_norm(s.drop_last(), n);
        if s.last().spec_taxicab_norm() == n {
            r.push(s.last())
        } else {
            r
        }
    }
}

/// The stickers of facet number `f`, in region order.
pub open spec fn facet_stickers(f: int) -> Seq<Vec4> {
    Seq::new(27, |i: int| Vec4::region_point(facet_of(f).sticker_min(), facet_of(f).sticker_max(), i))
}

/// The stickers of the first `n` facets, facet by facet.
pub open spec fn stickers_upto(n: int) -> Seq<Vec4>
    decreases n,
{
    if n <= 0 {
        Seq::empty()
    } else {
        stickers_upto(n - 1) + facet_stickers(n - 1)
    }
}

/// Returns the vectors of `v` whose taxicab norm is `n`, in order.
pub fn filter_by_norm(v: &Vec<Vec4>, n: usize) -> (r: Vec<Vec4>)
    ensures
        r@ == filter_norm(v@, n as int),
{
    let mut ret: Vec<Vec4> = Vec::new();
    let mut i: usize = 0;
    while i < v.len()
        invariant
            0 <= i <= v@.len(),
            ret@ == filter_norm(v@.take(i as int), n as int),
        decreases v@.len() - i,
    {
        let p = v[i];
        assert(v@.take(i + 1).drop_last() == v@.take(i as int));
        if p.taxicab_norm() == n {
            ret.push(p);
        }
        i = i + 1;
    }
    assert(v@.take(v@.len() as int) == v@);
    ret
}

/// Returns all the stickers on the puzzle, facet by facet.
pub fn all_stickers() -> (r: Vec<Vec4>)
    ensures
        r@ == stickers_upto(8),
{
    let mut ret: Vec<Vec4> = Vec::new();
    let mut f: u8 = 0;
    while f < 8
        invariant
            0 <= f <= 8,
            ret@ == stickers_upto(f as int),
        decreases 8 - f,
    {
        let facet = Facet::from_u8(f);
        let mut s = facet.stickers();
        assert(s@ =~= facet_stickers(f as int));
        ret.append(&mut s);
        f = f + 1;
    }
    ret
}

impl PieceType {
    /// Number of stickers on a piece of this type.
    pub open spec fn count(self) -> int {
        match self {
            PieceType::Core => 0,
            PieceType::Center => 1,
            PieceType::Ridge => 2,
            PieceType::Edge => 3,
            PieceType::Corner => 4,
        }
    }

    /// Returns the number of stickers on a piece with this type.
    pub fn sticker_count(self) -> (r: usize)
        ensures
            r == self.count(),
    {
        match self {
            PieceType::Core => 0,
            PieceType::Center => 1,
            PieceType::Ridge => 2,
            PieceType::Edge => 3,
            PieceType::Corner => 4,
        }
    }

    /// Returns the positions of all pieces with this type, in region order.
    pub fn iter(self) -> (r: Vec<Vec4>)
        ensures
            r@ == filter_norm(cube_points(), self.count()),
    {
        let min = Vec4([-1i8, -1i8, -1i8, -1i8]);
        let max = Vec4([1i8, 1i8, 1i8, 1i8]);
        proof {
            Vec4::lemma_region_size_cube(min, max);
        }
        let all = Vec4::region(min, max);
        assert(all@ =~= cube_points());
        filter_by_norm(&all, self.sticker_count())
    }

    /// Returns the stickers of all pieces with this type, facet by facet.
    pub fn all_stickers(self) -> (r: Vec<Vec4>)
        ensures
            r@ == filter_norm(stickers_upto(8), self.count() + 1),
    {
        let all = all_stickers();
        filter_by_norm(&all, self.sticker_count() + 1)
    }
}

/// Number of the three base-3 digits of `i` (below 27) that are not 1.
pub open spec fn off_digits(i: int) -> int {
    (if i % 3 == 1 { 0int } else { 1int }) + (if (i / 3) % 3 == 1 { 0int } else { 1int }) + (if i / 9 == 1 {
        0int
    } else {
        1int
    })
}

/// Number of `i` below `k` whose `2 + off_digits(i)` is `n`.
pub open spec fn count_off_digits(n: int, k: int) -> int
    decreases k,
{
    if k <= 0 {
        0
    } else {
        count_off_digits(n, k - 1) + if 2 + off_digits(k - 1) == n {
            1int
        } else {
            0int
        }
    }
}

/// The sticker of number `i` of a facet has norm 2 plus the number of its
/// three other coordinates that are not 0.
pub proof fn lemma_sticker_norm(f: int, i: int)
    requires
        0 <= f < 8,
        0 <= i < 27,
    ensures
        facet_stickers(f)[i].spec_taxicab_norm() == 2 + off_digits(i),
{
    reveal_with_fuel(Vec4::partial_norm, 5);
    let fa = facet_of(f);
    let mn = fa.sticker_min();
    let mx = fa.sticker_max();
    let v = Vec4::region_point(mn, mx, i);
    assert(facet_stickers(f)[i] == v);
    let d0 = i % 3;
    let d1 = (i / 3) % 3;
    let d2 = i / 9;
    assert(0 <= d2 < 3);
    assert(i / 27 == 0);
    let ax = f / 2;
    assert(fa.spec_axis() == axis_of(ax));
    if ax == 0 {
        assert(dim(mn.0[0], mx.0[0]) == 1 && dim(mn.0[1], mx.0[1]) == 3 && dim(mn.0[2], mx.0[2]) == 3);
        let nx = dim(mn.0[0], mx.0[0]);
        let ny = dim(mn.0[1], mx.0[1]);
        let nz = dim(mn.0[2], mx.0[2]);
        assert(i / nx == i && nx * ny == 3 && nx * ny * nz == 9) by (nonlinear_arith)
            requires
                nx == 1,
                ny == 3,
                nz == 3,
        ;
        assert(v.0[1] == d0 - 1);
        assert(v.0[2] == d1 - 1);
        assert(v.0[3] == d2 - 1);
    } else if ax == 1 {
        assert(dim(mn.0[0], mx.0[0]) == 3 && dim(mn.0[1], mx.0[1]) == 1 && dim(mn.0[2], mx.0[2]) == 3);
        assert(v.0[0] == d0 - 1);
        assert(v.0[2] == d1 - 1);
        assert(v.0[3] == d2 - 1);
    } else if ax == 2 {
        assert(dim(mn.0[0], mx.0[0]) == 3 && dim(mn.0[1], mx.0[1]) == 3 && dim(mn.0[2], mx.0[2]) == 1);
        assert(v.0[0] == d0 - 1);
        assert(v.0[1] == d1 - 1);
        assert((i / 9) % 1 == 0);
        assert(v.0[3] == d2 - 1);
    } else {
        assert(dim(mn.0[0], mx.0[0]) == 3 && dim(mn.0[1], mx.0[1]) == 3 && dim(mn.0[2], mx.0[2]) == 3);
        assert(v.0[0] == d0 - 1);
        assert(v.0[1] == d1 - 1);
        assert(v.0[2] == d2 - 1);
    }
}

/// The stickers of the first `k` of a facet with norm `n` are counted by
/// [`count_off_digits`].
proof fn lemma_facet_count(f: int, n: int, k: int)
    requires
        0 <= f < 8,
        0 <= k <= 27,
    ensures
        filter_norm(facet_stickers(f).take(k), n).len() == count_off_digits(n, k),
    decreases k,
{
    if k > 0 {
        let t = facet_stickers(f).take(k);
        assert(t.drop_last() =~= facet_stickers(f).take(k - 1));
        lemma_facet_count(f, n, k - 1);
        lemma_sticker_norm(f, k - 1);
    }
}

/// Filtering a concatenation by norm concatenates the filtered parts.
pub proof fn lemma_filter_norm_add(a: Seq<Vec4>, b: Seq<Vec4>, n: int)
    ensures
        filter_norm(a + b, n) == filter_norm(a, n) + filter_norm(b, n),
    decreases b.len(),
{
    if b.len() == 0 {
        assert(a + b =~= a);
        assert(filter_norm(a, n) + filter_norm(b, n) =~= filter_norm(a, n));
    } else {
        assert((a + b).drop_last() =~= a + b.drop_last());
        assert((a + b).last() == b.last());
        lemma_filter_norm_add(a, b.drop_last(), n);
        if b.last().spec_taxicab_norm() == n {
            assert(filter_norm(a, n) + filter_norm(b.drop_last(), n).push(b.last()) =~= (filter_norm(a, n) + filter_norm(
                b.drop_last(),
                n,
            )).push(b.last()));
        }
    }
}

/// The stickers of the first `k` facets: `8 * k` of norm 5 and `12 * k` of
/// norm 4.
pub proof fn lemma_sticker_counts(k: int)
    requires
        0 <= k <= 8,
    ensures
        filter_norm(stickers_upto(k), 5).len() == 8 * k,
        filter_norm(stickers_upto(k), 4).len() == 12 * k,
    decreases k,
{
    if k > 0 {
        lemma_sticker_counts(k - 1);
        lemma_filter_norm_add(stickers_upto(k - 1), facet_stickers(k - 1), 5);
        lemma_filter_norm_add(stickers_upto(k - 1), facet_stickers(k - 1), 4);
        assert(facet_stickers(k - 1).take(27) =~= facet_stickers(k - 1));
        lemma_facet_count(k - 1, 5, 27);
        lemma_facet_count(k - 1, 4, 27);
        assert(count_off_digits(5, 27) == 8 && count_off_digits(4, 27) == 12) by {
            reveal_with_fuel(count_off_digits, 28);
        }
    }
}

/// The vectors of `filter_norm(s, n)` are vectors of `s` with norm `n`, and
/// if `s` repeats no vector, neither does `filter_norm(s, n)`.
pub proof fn lemma_filter_norm(s: Seq<Vec4>, n: int)
    ensures
        forall|i: int|
            0 <= i < filter_norm(s, n).len() ==> (#[trigger] filter_norm(s, n)[i]).spec_taxicab_norm()
                == n && s.contains(filter_norm(s, n)[i]),
        filter_norm(s, n).len() <= s.len(),
        (forall|i: int, j: int| 0 <= i < s.len() && 0 <= j < s.len() && i != j ==> #[trigger] s[i] != #[trigger] s[j])
            ==> forall|i: int, j: int|
            0 <= i < filter_norm(s, n).len() && 0 <= j < filter_norm(s, n).len() && i != j
                ==> #[trigger] filter_norm(s, n)[i] != #[trigger] filter_norm(s, n)[j],
    decreases s.len(),
{
    if s.len() > 0 {
        let d = s.drop_last();
        lemma_filter_norm(d, n);
        let r0 = filter_norm(d, n);
        let r = filter_norm(s, n);
        assert forall|i: int| 0 <= i < r.len() implies (#[trigger] r[i]).spec_taxicab_norm() == n
            && s.contains(r[i]) by {
            if i < r0.len() {
                assert(r[i] == r0[i]);
                let j = choose|j: int| 0 <= j < d.len() && d[j] == r0[i];
                assert(s[j] == r[i]);
            } else {
                assert(r[i] == s.last());
                assert(s[s.len() - 1] == r[i]);
            }
        }
        if forall|i: int, j: int| 0 <= i < s.len() && 0 <= j < s.len() && i != j ==> #[trigger] s[i] != #[trigger] s[j] {
            assert forall|i: int, j: int| 0 <= i < d.len() && 0 <= j < d.len() && i != j implies #[trigger] d[i] != #[trigger] d[j] by {
                assert(d[i] == s[i] && d[j] == s[j]);
            }
            assert forall|i: int, j: int| 0 <= i < r.len() && 0 <= j < r.len() && i != j implies #[trigger] r[i] != #[trigger] r[j] by {
                if i < r0.len() && j < r0.len() {
                    assert(r[i] == r0[i] && r[j] == r0[j]);
                } else if i < r0.len() {
                    let k = choose|k: int| 0 <= k < d.len() && d[k] == r0[i];
                    assert(r[i] == s[k]);
                    assert(r[j] == s[s.len() - 1]);
                } else if j < r0.len() {
                    let k = choose|k: int| 0 <= k < d.len() && d[k] == r0[j];
                    assert(r[j] == s[k]);
                    assert(r[i] == s[s.len() - 1]);
                }
            }
        }
    }
}

/// A position of the cube with taxicab norm `n` has `n` nonzero components.
pub proof fn lemma_cube_norm(v: Vec4)
    requires
        v.in_cube(),
    ensures
        v.spec_nonzero_axes().len() == v.spec_taxicab_norm(),
{
    assert(v.spec_taxicab_norm() == vstd::math::abs(v.0[0] as int) + vstd::math::abs(v.0[1] as int)
        + vstd::math::abs(v.0[2] as int) + vstd::math::abs(v.0[3] as int)) by {
        reveal_with_fuel(Vec4::partial_norm, 5);
    }
}

} // verus!
