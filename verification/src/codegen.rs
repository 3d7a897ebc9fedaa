//! Tables that describe how twists move the pieces of a stage.
use vstd::prelude::*;

use crate::bits::bit;
use crate::linalg::{Mat4, Vec4};
use vstd::arithmetic::power2::pow2;
use crate::permutation::{has_twist_row, is_twist_row, no_min, permutation_row};
use crate::puzzle::piece_type::{cube_points, filter_norm, lemma_filter_norm};
use crate::puzzle::sim::lemma_cube_point;
use crate::puzzle::twist::Twist;
use crate::puzzle::{PieceType, TwistSet};
use crate::util::{decimal, hex, join, push_decimal};

verus! {

/// Returns the positions of the ridges, in region order.
pub fn ridges() -> (r: Vec<Vec4>)
    ensures
        r@ == filter_norm(cube_points(), 2),
{
    PieceType::Ridge.iter()
}

/// Returns the positions of the edges, in region order.
pub fn edges() -> (r: Vec<Vec4>)
    ensures
        r@ == filter_norm(cube_points(), 3),
{
    PieceType::Edge.iter()
}

/// Returns the positions of the corners, in region order.
pub fn corners() -> (r: Vec<Vec4>)
    ensures
        r@ == filter_norm(cube_points(), 4),
{
    PieceType::Corner.iter()
}

/// Setting bit `t` sets it and changes no other bit.
proof fn lemma_set_bit(x: u128, t: u128, u: u128)
    by (bit_vector)
    requires
        t < 128,
        u < 128,
    ensures
        bit(x | (1u128 << t), u) == if u == t {
            1
        } else {
            bit(x, u)
        },
        bit(0u128, u) == 0,
{
}

/// The mask of the bits of an `int_width`-bit integer outside the
/// `bits_per_element * piece_count` bits that start at bit `bit_offset`:
/// the complement of the bits from `bit_offset` up to the end of the
/// elements, within the low `int_width` bits (all bits if `int_width` is at
/// least 128).
pub open spec fn preserved_mask(int_width: usize, bit_offset: usize, bits_per_element: usize, piece_count: usize) -> u128 {
    let end = (bit_offset + bits_per_element * piece_count) as u32;
    let w = int_width as u32;
    let hi: u128 = if end < 128 {
        1u128 << end
    } else {
        0u128
    };
    let lo: u128 = 1u128 << (bit_offset as u32);
    let all: u128 = (if w < 128 {
        1u128 << w
    } else {
        0u128
    }).wrapping_sub(1);
    !hi.wrapping_sub(lo) & all
}

/// Returns the mask of the bits of an `int_width`-bit integer outside the
/// `bits_per_element * piece_count` bits that start at bit `bit_offset`.
pub fn preserved_bits(int_width: usize, bit_offset: usize, bits_per_element: usize, piece_count: usize) -> (r: u128)
    requires
        bit_offset < 128,
        bit_offset + bits_per_element * piece_count <= u32::MAX,
    ensures
        r == preserved_mask(int_width, bit_offset, bits_per_element, piece_count),
{
    let end = (bit_offset + bits_per_element * piece_count) as u32;
    let w = int_width as u32;
    let one: u128 = 1;
    let hi: u128 = if end < 128 {
        one << end
    } else {
        0
    };
    let lo: u128 = one << (bit_offset as u32);
    let top: u128 = if w < 128 {
        one << w
    } else {
        0
    };
    let all = top.wrapping_sub(1);
    !hi.wrapping_sub(lo) & all
}

/// The preserved mask has exactly the bits below `int_width` that lie
/// outside the elements.
pub proof fn lemma_preserved_mask(int_width: usize, bit_offset: usize, bits_per_element: usize, piece_count: usize, t: u128)
    requires
        bit_offset < 128,
        bit_offset + bits_per_element * piece_count <= u32::MAX,
        int_width <= u32::MAX,
        t < 128,
    ensures
        bit(preserved_mask(int_width, bit_offset, bits_per_element, piece_count), t) == if t < int_width && (t
            < bit_offset || t >= bit_offset + bits_per_element * piece_count) {
            1u128
        } else {
            0u128
        },
{
    let end = (bit_offset + bits_per_element * piece_count) as u32;
    let w = int_width as u32;
    let off = bit_offset as u32;
    assert(end as int == bit_offset + bits_per_element * piece_count);
    assert(w as int == int_width);
    let hi: u128 = if end < 128 {
        1u128 << end
    } else {
        0u128
    };
    let lo: u128 = 1u128 << off;
    let top: u128 = if w < 128 {
        1u128 << w
    } else {
        0u128
    };
    assert(bit(!hi.wrapping_sub(lo) & top.wrapping_sub(1), t) == if (t as u32) < w && ((t as u32) < off || (
    t as u32) >= end) {
        1u128
    } else {
        0u128
    }) by (bit_vector)
        requires
            off < 128,
            off <= end,
            t < 128,
            hi == (if end < 128 {
                1u128 << end
            } else {
                0u128
            }),
            lo == 1u128 << off,
            top == (if w < 128 {
                1u128 << w
            } else {
                0u128
            }),
    ;
}

/// The integer whose bit `i` is set exactly when `bs[i]` is.
pub open spec fn bits_value(bs: Seq<bool>) -> u128
    decreases bs.len(),
{
    if bs.len() == 0 {
        0
    } else {
        bits_value(bs.drop_last()) | if bs.last() {
            1u128 << ((bs.len() - 1) as u128)
        } else {
            0u128
        }
    }
}

/// Returns the integer whose bit `i` is set exactly when `bits[i]` is.
pub fn collect_bits(bits: &Vec<bool>) -> (r: u128)
    requires
        bits@.len() <= 128,
    ensures
        r == bits_value(bits@),
        forall|t: int|
            0 <= t < 128 ==> #[trigger] bit(r, t as u128) == if t < bits@.len() && bits@[t] {
                1u128
            } else {
                0u128
            },
{
    let mut r: u128 = 0;
    let mut i: usize = 0;
    proof {
        assert forall|u: int| 0 <= u < 128 implies #[trigger] bit(r, u as u128) == 0 by {
            lemma_set_bit(0, 0, u as u128);
        }
    }
    while i < bits.len()
        invariant
            0 <= i <= bits@.len(),
            bits@.len() <= 128,
            forall|u: int|
                0 <= u < 128 ==> #[trigger] bit(r, u as u128) == if u < i && bits@[u] {
                    1u128
                } else {
                    0u128
                },
            r == bits_value(bits@.take(i as int)),
        decreases bits@.len() - i,
    {
        if i == 0 {
            assert(bits@.take(0) =~= Seq::<bool>::empty());
        }
        assert(bits@.take(i + 1).drop_last() =~= bits@.take(i as int));
        assert(bits@.take(i + 1).last() == bits@[i as int]);
        let ghost old_r = r;
        if bits[i] {
            r = r | (1u128 << (i as u128));
            proof {
                assert forall|u: int| 0 <= u < 128 implies #[trigger] bit(r, u as u128) == if u < i + 1
                    && bits@[u] {
                    1u128
                } else {
                    0u128
                } by {
                    lemma_set_bit(old_r, i as u128, u as u128);
                }
            }
        }
        proof {
            if !bits@[i as int] {
                lemma_or_facts(0, r, 0, 0);
            }
        }
        i = i + 1;
    }
    assert(bits@.take(bits@.len() as int) =~= bits@);
    r
}

/// Lookup table for permuting pieces: for each twist, for each point, the
/// index of the point that the twist takes it to (`None` for a twist that
/// takes some point out of the list).
pub struct PermutationLut {
    pub piece_count: usize,
    pub table: Vec<Option<Vec<usize>>>,
}

impl PermutationLut {
    /// Whether the table describes how the twists move `pieces`.
    pub open spec fn describes(self, pieces: Seq<Vec4>) -> bool {
        &&& self.piece_count == pieces.len()
        &&& self.table@.len() == 184
        &&& forall|k: int|
            0 <= k < 184 ==> match #[trigger] self.table@[k] {
                Some(row) => is_twist_row(pieces, Twist::spec_from_index(k), row@),
                None => !has_twist_row(pieces, Twist::spec_from_index(k)),
            }
    }

    /// Generates a lookup table that permutes pieces according to each twist.
    pub fn new(pieces: &Vec<Vec4>) -> (r: Self)
        requires
            forall|i: int| 0 <= i < pieces@.len() ==> no_min(#[trigger] pieces@[i]),
            forall|i: int, j: int|
                0 <= i < pieces@.len() && 0 <= j < pieces@.len() && i != j ==> #[trigger] pieces@[i]
                    != #[trigger] pieces@[j],
        ensures
            r.describes(pieces@),
    {
        let mut table: Vec<Option<Vec<usize>>> = Vec::new();
        let mut k: u8 = 0;
        while k < 184
            invariant
                0 <= k <= 184,
                forall|i: int| 0 <= i < pieces@.len() ==> no_min(#[trigger] pieces@[i]),
                forall|i: int, j: int|
                    0 <= i < pieces@.len() && 0 <= j < pieces@.len() && i != j ==> #[trigger] pieces@[i]
                        != #[trigger] pieces@[j],
                table@.len() == k,
                forall|a: int|
                    0 <= a < k ==> match #[trigger] table@[a] {
                        Some(row) => is_twist_row(pieces@, Twist::spec_from_index(a), row@),
                        None => !has_twist_row(pieces@, Twist::spec_from_index(a)),
                    },
            decreases 184 - k,
        {
            let t = Twist::from_index(k);
            table.push(permutation_row(pieces, t));
            k = k + 1;
        }
        PermutationLut { piece_count: pieces.len(), table }
    }

    /// Returns the twists that the table can apply: those that keep every
    /// piece in the list.
    pub fn allowed_twists(&self) -> (r: TwistSet)
        requires
            self.table@.len() == 184,
        ensures
            forall|k: int| 0 <= k < 184 ==> #[trigger] r.has(k) == self.table@[k] is Some,
    {
        let mut r = TwistSet::empty();
        let mut k: u8 = 0;
        while k < 184
            invariant
                0 <= k <= 184,
                self.table@.len() == 184,
                forall|a: int| 0 <= a < 184 ==> #[trigger] r.has(a) == (a < k && self.table@[a] is Some),
            decreases 184 - k,
        {
            if self.table[k as usize].is_some() {
                let t = Twist::from_index(k);
                r.insert(t);
            }
            k = k + 1;
        }
        r
    }
}

/// The positions of the pieces with `n` stickers are distinct positions of
/// the cube with norm `n`.
pub proof fn lemma_piece_points(n: int)
    ensures
        forall|i: int|
            0 <= i < filter_norm(cube_points(), n).len() ==> {
                let p = #[trigger] filter_norm(cube_points(), n)[i];
                &&& p.in_cube()
                &&& no_min(p)
                &&& p.spec_taxicab_norm() == n
                &&& n > 0 ==> p != Vec4([0i8, 0i8, 0i8, 0i8])
            },
        forall|i: int, j: int|
            0 <= i < filter_norm(cube_points(), n).len() && 0 <= j < filter_norm(cube_points(), n).len()
                && i != j ==> #[trigger] filter_norm(cube_points(), n)[i] != #[trigger] filter_norm(
                cube_points(),
                n,
            )[j],
{
    let c = cube_points();
    assert forall|i: int, j: int| 0 <= i < c.len() && 0 <= j < c.len() && i != j implies #[trigger] c[i]
        != #[trigger] c[j] by {
        lemma_cube_point(i);
        lemma_cube_point(j);
    }
    lemma_filter_norm(c, n);
    let f = filter_norm(c, n);
    assert forall|i: int| 0 <= i < f.len() implies {
        let p = #[trigger] f[i];
        &&& p.in_cube()
        &&& no_min(p)
        &&& p.spec_taxicab_norm() == n
        &&& n > 0 ==> p != Vec4([0i8, 0i8, 0i8, 0i8])
    } by {
        assert(c.contains(f[i]));
        let k = choose|k: int| 0 <= k < c.len() && c[k] == f[i];
        lemma_cube_point(k);
        if f[i] == Vec4([0i8, 0i8, 0i8, 0i8]) {
            reveal_with_fuel(Vec4::partial_norm, 5);
        }
    }
}

/// Indentation of generated table rows.
pub open spec fn indent() -> Seq<char> {
    "                "@
}

/// Mask of the bits of element `p`.
pub open spec fn element_mask(p: int, bits_per_element: usize, bit_offset: usize) -> u128 {
    (((1u128 << (bits_per_element as u128)) - 1) as u128) << ((p * bits_per_element + bit_offset) as u128)
}

/// How far, modulo the integer width, the bits of element `src` move in a
/// table row (as a wrapping `usize` difference of bit positions).
pub open spec fn row_delta(row: Seq<usize>, src: int, int_width: usize, bits_per_element: usize, bit_offset: usize) -> int {
    (((row[src] * bits_per_element + bit_offset) as usize).wrapping_sub(
        (src * bits_per_element + bit_offset) as usize,
    ) % int_width) as int
}

/// The masks of the first `n` elements of a row that move by `d`, combined.
pub open spec fn delta_mask(
    row: Seq<usize>,
    n: nat,
    d: int,
    int_width: usize,
    bits_per_element: usize,
    bit_offset: usize,
) -> u128
    decreases n,
{
    if n == 0 {
        0
    } else {
        delta_mask(row, (n - 1) as nat, d, int_width, bits_per_element, bit_offset) | if row_delta(
            row,
            n - 1,
            int_width,
            bits_per_element,
            bit_offset,
        ) == d {
            element_mask(n - 1, bits_per_element, bit_offset)
        } else {
            0u128
        }
    }
}

/// Whether a row has an entry for moving by `d`: 0 always has one (it
/// keeps the bits outside the elements), other amounts when some element
/// moves by them.
pub open spec fn delta_present(row: Seq<usize>, d: int, int_width: usize, bits_per_element: usize, bit_offset: usize) -> bool {
    d == 0 || exists|src: int|
        0 <= src < row.len() && #[trigger] row_delta(row, src, int_width, bits_per_element, bit_offset) == d
}

/// The code of the entry for moving by `d`: the bits to move, shifted.
pub open spec fn entry_text(
    row: Seq<usize>,
    d: int,
    int_width: usize,
    bits_per_element: usize,
    bit_offset: usize,
    preserved: u128,
) -> Seq<char> {
    let m = (if d == 0 {
        preserved
    } else {
        0u128
    }) | delta_mask(row, row.len(), d, int_width, bits_per_element, bit_offset);
    seq!['(', '&', '0', 'x'] + hex(m as nat) + seq!['<', '<'] + decimal(d as nat) + seq![')']
}

/// The codes of the entries for moving by less than `n`, in order.
pub open spec fn entries_text(
    row: Seq<usize>,
    n: nat,
    int_width: usize,
    bits_per_element: usize,
    bit_offset: usize,
    preserved: u128,
) -> Seq<Seq<char>>
    decreases n,
{
    if n == 0 {
        Seq::empty()
    } else {
        let prev = entries_text(row, (n - 1) as nat, int_width, bits_per_element, bit_offset, preserved);
        if delta_present(row, n - 1, int_width, bits_per_element, bit_offset) {
            prev.push(entry_text(row, n - 1, int_width, bits_per_element, bit_offset, preserved))
        } else {
            prev
        }
    }
}

/// The generated line for the row of twist number `i`.
pub open spec fn row_line(
    i: int,
    row: Seq<usize>,
    int_width: usize,
    bits_per_element: usize,
    bit_offset: usize,
    preserved: u128,
) -> Seq<char> {
    indent() + "    "@ + decimal(i as nat) + " => ["@ + join(
        entries_text(row, int_width as nat, int_width, bits_per_element, bit_offset, preserved),
        seq!['|'],
    ) + "],"@
}

/// The generated lines of the first `k` twists that have a row.
pub open spec fn table_lines(
    table: Seq<Option<Vec<usize>>>,
    k: nat,
    int_width: usize,
    bits_per_element: usize,
    bit_offset: usize,
    preserved: u128,
) -> Seq<Seq<char>>
    decreases k,
{
    if k == 0 {
        Seq::empty()
    } else {
        let prev = table_lines(table, (k - 1) as nat, int_width, bits_per_element, bit_offset, preserved);
        match table[k - 1] {
            Some(row) => prev.push(row_line(k - 1, row@, int_width, bits_per_element, bit_offset, preserved)),
            None => prev,
        }
    }
}

/// Facts on shifts and `|` used to build masks.
proof fn lemma_or_facts(b: u128, x: u128, y: u128, z: u128)
    by (bit_vector)
    requires
        b < 128,
    ensures
        1u128 << b >= 1,
        x | 0u128 == x,
        (x | y) | z == x | (y | z),
{
}

/// Returns the mask of the bits of element `p`.
fn element_mask_of(p: usize, bits_per_element: usize, bit_offset: usize, int_width: usize, n: usize) -> (r: u128)
    requires
        p < n,
        n * bits_per_element + bit_offset <= int_width <= 128,
        bits_per_element < 128,
        bit_offset < 128,
    ensures
        r == element_mask(p as int, bits_per_element, bit_offset),
{
    let pos = bit_pos(p, bits_per_element, bit_offset, int_width, n);
    let one: u128 = 1;
    let b = bits_per_element as u128;
    proof {
        lemma_or_facts(b, 0, 0, 0);
    }
    let low: u128 = (one << b) - 1;
    assert(pos < 128) by (nonlinear_arith)
        requires
            pos + bits_per_element <= 128,
            pos == p * bits_per_element + bit_offset,
            bit_offset < 128,
    ;
    low << (pos as u128)
}

/// Returns the position of the first bit of element `i`.
fn bit_pos(i: usize, bits_per_element: usize, bit_offset: usize, int_width: usize, n: usize) -> (r: usize)
    requires
        i < n,
        n * bits_per_element + bit_offset <= int_width <= 128,
    ensures
        r == i * bits_per_element + bit_offset,
        r + bits_per_element <= int_width,
{
    assert(i * bits_per_element + bits_per_element <= n * bits_per_element) by (nonlinear_arith)
        requires
            i < n,
    ;
    i * bits_per_element + bit_offset
}

/// Appends the joined entries of a row.
fn push_row_entries(
    s: &mut String,
    row: &Vec<usize>,
    int_width: usize,
    bit_offset: usize,
    bits_per_element: usize,
    n: usize,
    preserved: u128,
)
    requires
        row@.len() == n,
        forall|i: int| 0 <= i < n ==> #[trigger] row@[i] < n,
        n * bits_per_element + bit_offset <= int_width <= 128,
        1 <= int_width,
        bits_per_element < 128,
        bit_offset < 128,
    ensures
        final(s)@ == old(s)@ + join(
            entries_text(row@, int_width as nat, int_width, bits_per_element, bit_offset, preserved),
            seq!['|'],
        ),
{
    let ghost start = s@;
    let mut d: usize = 0;
    while d < int_width
        invariant
            0 <= d <= int_width,
            row@.len() == n,
            forall|i: int| 0 <= i < n ==> #[trigger] row@[i] < n,
            n * bits_per_element + bit_offset <= int_width <= 128,
            1 <= int_width,
            bits_per_element < 128,
            bit_offset < 128,
            s@ == start + join(
                entries_text(row@, d as nat, int_width, bits_per_element, bit_offset, preserved),
                seq!['|'],
            ),
        decreases int_width - d,
    {
        let mut m: u128 = if d == 0 {
            preserved
        } else {
            0
        };
        let mut present = d == 0;
        let mut src: usize = 0;
        proof {
            lemma_or_facts(0, m, 0, 0);
        }
        while src < n
            invariant
                0 <= src <= n,
                d < int_width,
                row@.len() == n,
                forall|i: int| 0 <= i < n ==> #[trigger] row@[i] < n,
                n * bits_per_element + bit_offset <= int_width <= 128,
                1 <= int_width,
                bits_per_element < 128,
                bit_offset < 128,
                m == (if d == 0 {
                    preserved
                } else {
                    0u128
                }) | delta_mask(row@, src as nat, d as int, int_width, bits_per_element, bit_offset),
                present == (d == 0 || exists|j: int|
                    0 <= j < src && #[trigger] row_delta(row@, j, int_width, bits_per_element, bit_offset)
                        == d),
            decreases n - src,
        {
            let dst_pos = bit_pos(row[src], bits_per_element, bit_offset, int_width, n);
            let src_pos = bit_pos(src, bits_per_element, bit_offset, int_width, n);
            let delta = dst_pos.wrapping_sub(src_pos) % int_width;
            let ghost m0 = m;
            if delta == d {
                let em = element_mask_of(src, bits_per_element, bit_offset, int_width, n);
                m = m | em;
                present = true;
            }
            proof {
                let base = if d == 0 {
                    preserved
                } else {
                    0u128
                };
                let dm = delta_mask(row@, src as nat, d as int, int_width, bits_per_element, bit_offset);
                let e = if delta == d {
                    element_mask(src as int, bits_per_element, bit_offset)
                } else {
                    0u128
                };
                assert(delta == row_delta(row@, src as int, int_width, bits_per_element, bit_offset));
                lemma_or_facts(0, m0, 0, 0);
                assert(m == (base | dm) | e);
                lemma_or_facts(0, base, dm, e);
            }
            src = src + 1;
        }
        let ghost before = s@;
        let ghost parts = entries_text(row@, d as nat, int_width, bits_per_element, bit_offset, preserved);
        if present {
            if d > 0 {
                proof {
                    lemma_entries_nonempty(row@, d as nat, int_width, bits_per_element, bit_offset, preserved);
                    reveal_strlit("|");
                }
                s.append("|");
            }
            proof {
                reveal_strlit("(&0x");
                reveal_strlit("<<");
                reveal_strlit(")");
            }
            s.append("(&0x");
            crate::util::push_hex(s, m);
            s.append("<<");
            push_decimal(s, d);
            s.append(")");
            proof {
                let t = entry_text(row@, d as int, int_width, bits_per_element, bit_offset, preserved);
                let parts2 = parts.push(t);
                assert(parts2.drop_last() =~= parts);
                if d == 0 {
                    assert(parts.len() == 0);
                    assert(parts2 =~= seq![t]);
                    assert(s@ =~= start + t);
                } else {
                    assert(s@ =~= before + seq!['|'] + t);
                }
            }
        }
        d = d + 1;
    }
}

/// Nonzero amounts come after the entry for 0, which is always there.
proof fn lemma_entries_nonempty(
    row: Seq<usize>,
    d: nat,
    int_width: usize,
    bits_per_element: usize,
    bit_offset: usize,
    preserved: u128,
)
    requires
        d > 0,
    ensures
        entries_text(row, d, int_width, bits_per_element, bit_offset, preserved).len() > 0,
    decreases d,
{
    if d > 1 {
        lemma_entries_nonempty(row, (d - 1) as nat, int_width, bits_per_element, bit_offset, preserved);
    } else {
        assert(delta_present(row, 0, int_width, bits_per_element, bit_offset));
    }
}

impl PermutationLut {
    /// Whether each row has, for each piece, the index of a piece.
    pub open spec fn rows_ok(self) -> bool {
        forall|k: int|
            0 <= k < self.table@.len() && #[trigger] self.table@[k] is Some ==> {
                let row = self.table@[k]->0@;
                &&& row.len() == self.piece_count
                &&& forall|i: int| 0 <= i < row.len() ==> #[trigger] row[i] < self.piece_count
            }
    }

    /// The code that [`PermutationLut::to_rust_code`] writes: a call of
    /// `apply_permutation_lut!` with, for each twist that has a row, the
    /// amounts by which bits move and the masks of the bits that move by
    /// each (the bits outside the elements staying in place).
    pub open spec fn rust_code(self, int_width: usize, bit_offset: usize, bits_per_element: usize, state_var: Seq<
        char,
    >) -> Seq<char> {
        let preserved = preserved_mask(int_width, bit_offset, bits_per_element, self.piece_count);
        "apply_permutation_lut!(u"@ + decimal(int_width as nat) + ", "@ + state_var + ", twist, [\n"@ + join(
            table_lines(self.table@, self.table@.len(), int_width, bits_per_element, bit_offset, preserved),
            "\n"@,
        ) + "\n"@ + indent() + "])"@
    }

    /// Returns Rust source code that applies the permutation to the
    /// elements of `bits_per_element` bits from bit `bit_offset` of the
    /// `int_width`-bit integer `state_var`.
    pub fn to_rust_code(&self, int_width: usize, bit_offset: usize, bits_per_element: usize, state_var: &str) -> (r:
        String)
        requires
            self.rows_ok(),
            self.piece_count * bits_per_element + bit_offset <= int_width <= 128,
            1 <= int_width,
            bits_per_element < 128,
            bit_offset < 128,
        ensures
            r@ == self.rust_code(int_width, bit_offset, bits_per_element, state_var@),
    {
        let n = self.piece_count;
        assert(bits_per_element * n == n * bits_per_element) by (nonlinear_arith);
        let preserved = preserved_bits(int_width, bit_offset, bits_per_element, n);
        let mut s = String::new();
        s.append("apply_permutation_lut!(u");
        push_decimal(&mut s, int_width);
        s.append(", ");
        s.append(state_var);
        s.append(", twist, [\n");
        let ghost start = s@;
        let mut k: usize = 0;
        let mut any = false;
        while k < self.table.len()
            invariant
                0 <= k <= self.table@.len(),
                self.rows_ok(),
                n == self.piece_count,
                n * bits_per_element + bit_offset <= int_width <= 128,
                1 <= int_width,
                bits_per_element < 128,
                bit_offset < 128,
                preserved == preserved_mask(int_width, bit_offset, bits_per_element, n),
                s@ == start + join(
                    table_lines(self.table@, k as nat, int_width, bits_per_element, bit_offset, preserved),
                    "\n"@,
                ),
                any == (table_lines(self.table@, k as nat, int_width, bits_per_element, bit_offset, preserved).len()
                    > 0),
            decreases self.table@.len() - k,
        {
            let ghost lines = table_lines(self.table@, k as nat, int_width, bits_per_element, bit_offset, preserved);
            let ghost before = s@;
            match &self.table[k] {
                Some(row) => {
                    if any {
                        s.append("\n");
                    }
                    let ghost line_start = s@;
                    s.append("                ");
                    s.append("    ");
                    push_decimal(&mut s, k);
                    s.append(" => [");
                    proof {
                        assert(self.table@[k as int] is Some);
                    }
                    push_row_entries(&mut s, row, int_width, bit_offset, bits_per_element, n, preserved);
                    s.append("],");
                    proof {
                        let line = row_line(k as int, row@, int_width, bits_per_element, bit_offset, preserved);
                        assert(s@ =~= line_start + line);
                        let lines2 = lines.push(line);
                        assert(lines2.drop_last() =~= lines);
                        if any {
                            assert(s@ =~= before + "\n"@ + line);
                        } else {
                            assert(lines2 =~= seq![line]);
                        }
                    }
                    any = true;
                },
                None => {},
            }
            k = k + 1;
        }
        s.append("\n");
        s.append("                ");
        s.append("])");
        s
    }
}

/// Index of the last point equal to `v`.
pub open spec fn last_index(points: Seq<Vec4>, v: Vec4) -> Option<int>
    decreases points.len(),
{
    if points.len() == 0 {
        None
    } else if points.last() == v {
        Some(points.len() - 1)
    } else {
        last_index(points.drop_last(), v)
    }
}

/// Returns the index of the last point equal to `v`.
fn find_last(points: &Vec<Vec4>, v: Vec4) -> (r: Option<usize>)
    ensures
        r matches Some(i) ==> last_index(points@, v) == Some(i as int),
        r is None ==> last_index(points@, v) is None,
{
    let mut r: Option<usize> = None;
    let mut i: usize = 0;
    while i < points.len()
        invariant
            0 <= i <= points@.len(),
            r matches Some(j) ==> last_index(points@.take(i as int), v) == Some(j as int),
            r is None ==> last_index(points@.take(i as int), v) is None,
        decreases points@.len() - i,
    {
        assert(points@.take(i + 1).drop_last() =~= points@.take(i as int));
        if points[i].same(v) {
            r = Some(i);
        }
        i = i + 1;
    }
    assert(points@.take(points@.len() as int) =~= points@);
    r
}

/// Whether `row` gives, for each point, the index of the last point equal
/// to what `act` returns for the twist and that point.
pub open spec fn acted_row<F: Fn(Twist, Vec4) -> Option<Vec4>>(points: Seq<Vec4>, t: Twist, act: F, row: Seq<usize>) -> bool {
    &&& row.len() == points.len()
    &&& acted_prefix(points, t, act, row)
}

/// Whether `row` gives, for each of the first points, the index of the last
/// point equal to what `act` returns for the twist and that point.
pub open spec fn acted_prefix<F: Fn(Twist, Vec4) -> Option<Vec4>>(points: Seq<Vec4>, t: Twist, act: F, row: Seq<usize>) -> bool {
    forall|i: int| 0 <= i < row.len() ==> #[trigger] acted_index(points, t, act, i, row[i] as int)
}

/// Whether `k` is the index of the last point equal to what `act` returns
/// for the twist and point `i`.
pub open spec fn acted_index<F: Fn(Twist, Vec4) -> Option<Vec4>>(points: Seq<Vec4>, t: Twist, act: F, i: int, k: int) -> bool {
    exists|v: Vec4| call_ensures(act, (t, points[i]), Some(v)) && last_index(points, v) == Some(k)
}

/// Whether `act` returns, for the twist and some point, `None` or a point
/// not in the list.
pub open spec fn action_misses<F: Fn(Twist, Vec4) -> Option<Vec4>>(points: Seq<Vec4>, t: Twist, act: F) -> bool {
    exists|i: int, r: Option<Vec4>|
        0 <= i < points.len() && #[trigger] call_ensures(act, (t, points[i]), r) && (r is None || last_index(
            points,
            r->0,
        ) is None)
}

/// Returns, for each point, the index of the point that `act` gives for it
/// and the twist, or `None` if `act` gives `None` or a point not in the
/// list.
fn action_row<F: Fn(Twist, Vec4) -> Option<Vec4>>(points: &Vec<Vec4>, t: Twist, act: &F) -> (r: Option<Vec<usize>>)
    requires
        forall|tw: Twist, p: Vec4| #[trigger] act.requires((tw, p)),
    ensures
        r matches Some(row) ==> acted_row(points@, t, *act, row@),
        r is None ==> action_misses(points@, t, *act),
{
    let mut row: Vec<usize> = Vec::new();
    let mut i: usize = 0;
    while i < points.len()
        invariant
            0 <= i <= points@.len(),
            forall|tw: Twist, p: Vec4| #[trigger] act.requires((tw, p)),
            row@.len() == i,
            acted_prefix(points@, t, *act, row@),
        decreases points@.len() - i,
    {
        let p = points[i];
        let image = act(t, p);
        match image {
            None => {
                assert(call_ensures(*act, (t, points@[i as int]), image));
                return None;
            },
            Some(v) => match find_last(points, v) {
                None => {
                    assert(call_ensures(*act, (t, points@[i as int]), image));
                    return None;
                },
                Some(j) => {
                    let ghost old_row = row@;
                    row.push(j);
                    proof {
                        assert forall|jj: int| 0 <= jj < row@.len() implies #[trigger] acted_index(
                            points@,
                            t,
                            *act,
                            jj,
                            row@[jj] as int,
                        ) by {
                            if jj < i {
                                assert(row@[jj] == old_row[jj]);
                                assert(acted_index(points@, t, *act, jj, old_row[jj] as int));
                            } else {
                                assert(call_ensures(*act, (t, points@[jj]), Some(v)));
                            }
                        }
                    }
                },
            },
        }
        i = i + 1;
    }
    Some(row)
}

impl PermutationLut {
    /// Whether the table gives, for each twist, the row that `act` gives
    /// (see [`acted_row`]), or `None` where `act` misses.
    pub open spec fn describes_action<F: Fn(Twist, Vec4) -> Option<Vec4>>(self, points: Seq<Vec4>, act: F) -> bool {
        &&& self.piece_count == points.len()
        &&& self.table@.len() == 184
        &&& forall|k: int|
            0 <= k < 184 ==> match #[trigger] self.table@[k] {
                Some(row) => acted_row(points, Twist::spec_from_index(k), act, row@),
                None => action_misses(points, Twist::spec_from_index(k), act),
            }
    }

    /// Generates a lookup table that permutes pieces as `act` moves each
    /// piece for each twist.
    pub fn with_action(pieces: &Vec<Vec4>, act: impl Fn(Twist, Vec4) -> Option<Vec4>) -> (r: Self)
        requires
            forall|t: Twist, p: Vec4| #[trigger] act.requires((t, p)),
        ensures
            r.describes_action(pieces@, act),
    {
        let mut table: Vec<Option<Vec<usize>>> = Vec::new();
        let mut k: u8 = 0;
        while k < 184
            invariant
                0 <= k <= 184,
                forall|t: Twist, p: Vec4| #[trigger] act.requires((t, p)),
                table@.len() == k,
                forall|a: int|
                    0 <= a < k ==> match #[trigger] table@[a] {
                        Some(row) => acted_row(pieces@, Twist::spec_from_index(a), act, row@),
                        None => action_misses(pieces@, Twist::spec_from_index(a), act),
                    },
            decreases 184 - k,
        {
            let t = Twist::from_index(k);
            let row = action_row(pieces, t, &act);
            table.push(row);
            k = k + 1;
        }
        PermutationLut { piece_count: pieces.len(), table }
    }
}

/// Lookup table for updating piece orientations: for each twist, for each
/// piece location, for each orientation, the new orientation.
pub struct OrientationLut {
    pub table: Vec<Vec<Vec<u8>>>,
}

/// Whether `o2` is what orientation `o` of the piece at `p` becomes under
/// the twist: `act` of the twist's rotation if the twist moves the piece,
/// otherwise `o` itself.
pub open spec fn oriented<F: Fn(Mat4, Vec4, u8) -> u8>(t: Twist, p: Vec4, o: u8, act: F, o2: u8) -> bool {
    if t.spec_affects(p) {
        call_ensures(act, (t.spec_rot(), p, o), o2)
    } else {
        o2 == o
    }
}

/// Bit `k` set exactly when `b` holds.
pub open spec fn flag(b: bool, k: int) -> u64 {
    if b {
        (1u64 << (k as u64)) as u64
    } else {
        0u64
    }
}

/// Mask that gives, for each of the first `n` pieces of a row, the low bit
/// of the new orientation that does not depend on the old one (from the
/// piece's orientation 0).
pub open spec fn const_mask(row: Seq<Vec<u8>>, n: nat) -> u64
    decreases n,
{
    if n == 0 {
        0
    } else {
        let m = row[n - 1]@;
        const_mask(row, (n - 1) as nat) | flag(m[0] & 1 != 0, 2 * (n - 1)) | flag(m[0] & 2 != 0, 2 * (n - 1) + 1)
    }
}

/// Mask of the output bits of the first `n` pieces that depend on the same
/// input bit (the low bit on the low bit, the high bit on the high bit).
pub open spec fn same_mask(row: Seq<Vec<u8>>, n: nat) -> u64
    decreases n,
{
    if n == 0 {
        0
    } else {
        let m = row[n - 1]@;
        same_mask(row, (n - 1) as nat) | flag(m[0] & 1 != m[1] & 1, 2 * (n - 1)) | flag(
            m[0] & 2 != m[2] & 2,
            2 * (n - 1) + 1,
        )
    }
}

/// Mask of the output bits of the first `n` pieces that depend on the other
/// input bit (the low bit on the high bit, the high bit on the low bit).
pub open spec fn other_mask(row: Seq<Vec<u8>>, n: nat) -> u64
    decreases n,
{
    if n == 0 {
        0
    } else {
        let m = row[n - 1]@;
        other_mask(row, (n - 1) as nat) | flag(m[0] & 1 != m[2] & 1, 2 * (n - 1)) | flag(
            m[0] & 2 != m[1] & 2,
            2 * (n - 1) + 1,
        )
    }
}

/// The generated line of a row: its three masks.
pub open spec fn orientation_line(row: Seq<Vec<u8>>) -> Seq<char> {
    "        [0x"@ + hex(const_mask(row, row.len()) as nat) + ", 0x"@ + hex(same_mask(row, row.len()) as nat)
        + ", 0x"@ + hex(other_mask(row, row.len()) as nat) + "],\n"@
}

/// The generated lines of the first `k` rows.
pub open spec fn orientation_lines(table: Seq<Vec<Vec<u8>>>, k: nat) -> Seq<char>
    decreases k,
{
    if k == 0 {
        Seq::empty()
    } else {
        orientation_lines(table, (k - 1) as nat) + orientation_line(table[k - 1]@)
    }
}

/// Returns the three masks of a row.
fn row_masks(row: &Vec<Vec<u8>>) -> (r: (u64, u64, u64))
    requires
        row@.len() <= 32,
        forall|j: int| 0 <= j < row@.len() ==> #[trigger] row@[j]@.len() >= 3,
    ensures
        r == (const_mask(row@, row@.len()), same_mask(row@, row@.len()), other_mask(row@, row@.len())),
{
    let mut m1: u64 = 0;
    let mut ma: u64 = 0;
    let mut mb: u64 = 0;
    let mut j: usize = 0;
    while j < row.len()
        invariant
            0 <= j <= row@.len() <= 32,
            forall|i: int| 0 <= i < row@.len() ==> #[trigger] row@[i]@.len() >= 3,
            m1 == const_mask(row@, j as nat),
            ma == same_mask(row@, j as nat),
            mb == other_mask(row@, j as nat),
        decreases row@.len() - j,
    {
        let m = &row[j];
        let l_for_0 = m[0] & 1 != 0;
        let l_depends_on_l = m[0] & 1 != m[1] & 1;
        let l_depends_on_h = m[0] & 1 != m[2] & 1;
        let h_for_0 = m[0] & 2 != 0;
        let h_depends_on_l = m[0] & 2 != m[1] & 2;
        let h_depends_on_h = m[0] & 2 != m[2] & 2;
        let l_offset = (j * 2) as u64;
        let h_offset = l_offset + 1;
        let one: u64 = 1;
        if l_for_0 {
            m1 = m1 | (one << l_offset);
        }
        if h_for_0 {
            m1 = m1 | (one << h_offset);
        }
        if l_depends_on_l {
            ma = ma | (one << l_offset);
        }
        if h_depends_on_h {
            ma = ma | (one << h_offset);
        }
        if l_depends_on_h {
            mb = mb | (one << l_offset);
        }
        if h_depends_on_l {
            mb = mb | (one << h_offset);
        }
        proof {
            lemma_or_zero_u64(const_mask(row@, j as nat), flag(l_for_0, 2 * j), flag(h_for_0, 2 * j + 1));
            lemma_or_zero_u64(same_mask(row@, j as nat), flag(l_depends_on_l, 2 * j), flag(h_depends_on_h, 2 * j + 1));
            lemma_or_zero_u64(other_mask(row@, j as nat), flag(l_depends_on_h, 2 * j), flag(h_depends_on_l, 2 * j + 1));
        }
        j = j + 1;
    }
    (m1, ma, mb)
}

/// `|` with 0 changes nothing.
proof fn lemma_or_zero_u64(x: u64, a: u64, b: u64)
    by (bit_vector)
    ensures
        x | 0u64 == x,
        (x | a) | 0u64 == x | a,
{
}

impl OrientationLut {
    /// Whether the table gives, for each twist, piece and orientation, the
    /// new orientation (see [`oriented`]).
    pub open spec fn describes<F: Fn(Mat4, Vec4, u8) -> u8>(self, pieces: Seq<Vec4>, orientation_count: u8, act: F) -> bool {
        &&& self.table@.len() == 184
        &&& forall|k: int|
            0 <= k < 184 ==> (#[trigger] self.table@[k])@.len() == pieces.len() && forall|i: int|
                0 <= i < pieces.len() ==> (#[trigger] self.table@[k]@[i])@.len() == orientation_count && forall|
                    o: int,
                |
                    0 <= o < orientation_count ==> oriented(
                        Twist::spec_from_index(k),
                        pieces[i],
                        o as u8,
                        act,
                        #[trigger] self.table@[k]@[i]@[o],
                    )
    }

    /// Generates a lookup table that updates the orientation of each piece
    /// for each twist: `act` of the twist's rotation, the piece's location
    /// and its orientation for the pieces that the twist moves.
    pub fn new(pieces: &Vec<Vec4>, orientation_count: u8, act: impl Fn(Mat4, Vec4, u8) -> u8) -> (r: Self)
        requires
            forall|m: Mat4, p: Vec4, o: u8| #[trigger] act.requires((m, p, o)),
        ensures
            r.describes(pieces@, orientation_count, act),
    {
        let mut table: Vec<Vec<Vec<u8>>> = Vec::new();
        let mut k: u8 = 0;
        while k < 184
            invariant
                0 <= k <= 184,
                forall|m: Mat4, p: Vec4, o: u8| #[trigger] act.requires((m, p, o)),
                table@.len() == k,
                forall|a: int|
                    0 <= a < k ==> (#[trigger] table@[a])@.len() == pieces@.len() && forall|i: int|
                        0 <= i < pieces@.len() ==> (#[trigger] table@[a]@[i])@.len() == orientation_count && forall|
                            o: int,
                        |
                            0 <= o < orientation_count ==> oriented(
                                Twist::spec_from_index(a),
                                pieces@[i],
                                o as u8,
                                act,
                                #[trigger] table@[a]@[i]@[o],
                            ),
            decreases 184 - k,
        {
            let t = Twist::from_index(k);
            let rot = t.rot();
            let mut row: Vec<Vec<u8>> = Vec::new();
            let mut i: usize = 0;
            while i < pieces.len()
                invariant
                    0 <= i <= pieces@.len(),
                    k < 184,
                    t == Twist::spec_from_index(k as int),
                    rot == t.spec_rot(),
                    forall|m: Mat4, p: Vec4, o: u8| #[trigger] act.requires((m, p, o)),
                    row@.len() == i,
                    forall|ii: int|
                        0 <= ii < i ==> (#[trigger] row@[ii])@.len() == orientation_count && forall|o: int|
                            0 <= o < orientation_count ==> oriented(t, pieces@[ii], o as u8, act, #[trigger] row@[ii]@[o]),
                decreases pieces@.len() - i,
            {
                let p = pieces[i];
                let moved = t.affects(p);
                let mut map: Vec<u8> = Vec::new();
                let mut o: u8 = 0;
                while o < orientation_count
                    invariant
                        0 <= o <= orientation_count,
                        moved == t.spec_affects(p),
                        rot == t.spec_rot(),
                        forall|m: Mat4, q: Vec4, oo: u8| #[trigger] act.requires((m, q, oo)),
                        map@.len() == o,
                        forall|oo: int| 0 <= oo < o ==> oriented(t, p, oo as u8, act, #[trigger] map@[oo]),
                    decreases orientation_count - o,
                {
                    let o2 = if moved {
                        act(rot, p, o)
                    } else {
                        o
                    };
                    map.push(o2);
                    proof {
                        assert forall|oo: int| 0 <= oo < o + 1 implies oriented(t, p, oo as u8, act, #[trigger] map@[oo]) by {
                            if oo == o {
                                assert(map@[oo] == o2);
                            }
                        }
                    }
                    o = o + 1;
                }
                let ghost old_row = row@;
                row.push(map);
                proof {
                    assert forall|ii: int| 0 <= ii < i + 1 implies (#[trigger] row@[ii])@.len() == orientation_count
                        && forall|oo: int|
                        0 <= oo < orientation_count ==> oriented(t, pieces@[ii], oo as u8, act, #[trigger] row@[ii]@[oo]) by {
                        if ii < i {
                            assert(row@[ii] == old_row[ii]);
                        }
                    }
                }
                i = i + 1;
            }
            table.push(row);
            k = k + 1;
        }
        OrientationLut { table }
    }

    /// Whether every row has `n` pieces, each with `c` orientations.
    pub open spec fn shaped(self, n: nat, c: nat) -> bool {
        forall|k: int|
            0 <= k < self.table@.len() ==> (#[trigger] self.table@[k])@.len() == n && forall|j: int|
                0 <= j < n ==> (#[trigger] self.table@[k]@[j])@.len() == c
    }

    /// The code that [`OrientationLut::to_rust_code`] writes: a call of
    /// `update_orientations_u*` with the three masks of each twist's row.
    pub open spec fn rust_code(self, int_width: usize, state_var: Seq<char>) -> Seq<char> {
        "crate::lut::update_orientations_u"@ + decimal(int_width as nat) + "(\n"@ + "    "@ + state_var + ",\n"@
            + "    [\n"@ + orientation_lines(self.table@, self.table@.len()) + "    ][twist.to_index()],\n"@
            + ")\n"@
    }

    /// Returns Rust source code that updates the orientations of the pieces
    /// of `state_var` for a twist; orientations are updated before pieces
    /// are permuted.
    pub fn to_rust_code(&self, int_width: usize, bit_offset: usize, bits_per_element: usize, state_var: &str) -> (r:
        String)
        requires
            self.table@.len() >= 1,
            self.table@[0]@.len() >= 1,
            self.shaped(self.table@[0]@.len(), self.table@[0]@[0]@.len()),
            self.table@[0]@.len() * bits_per_element + bit_offset <= int_width,
            self.table@[0]@[0]@.len() <= 4,
            bits_per_element < 64,
            self.table@[0]@[0]@.len() <= pow2(bits_per_element as nat),
            self.table@[0]@[0]@.len() >= 3,
            self.table@[0]@.len() <= 32,
        ensures
            r@ == self.rust_code(int_width, state_var@),
    {
        let n = self.table[0].len();
        let c = self.table[0][0].len();
        let mut s = String::new();
        s.append("crate::lut::update_orientations_u");
        push_decimal(&mut s, int_width);
        s.append("(\n");
        s.append("    ");
        s.append(state_var);
        s.append(",\n");
        s.append("    [\n");
        let ghost start = s@;
        let mut k: usize = 0;
        while k < self.table.len()
            invariant
                0 <= k <= self.table@.len(),
                n == self.table@[0]@.len() <= 32,
                c == self.table@[0]@[0]@.len() >= 3,
                self.shaped(n as nat, c as nat),
                s@ == start + orientation_lines(self.table@, k as nat),
            decreases self.table@.len() - k,
        {
            let row = &self.table[k];
            proof {
                assert(row@.len() == n);
                assert forall|j: int| 0 <= j < row@.len() implies #[trigger] row@[j]@.len() >= 3 by {
                    assert(self.table@[k as int]@[j]@.len() == c);
                }
            }
            let (m1, ma, mb) = row_masks(row);
            s.append("        [0x");
            crate::util::push_hex(&mut s, m1 as u128);
            s.append(", 0x");
            crate::util::push_hex(&mut s, ma as u128);
            s.append(", 0x");
            crate::util::push_hex(&mut s, mb as u128);
            s.append("],\n");
            k = k + 1;
        }
        s.append("    ][twist.to_index()],\n");
        s.append(")\n");
        s
    }
}

} // verus!
