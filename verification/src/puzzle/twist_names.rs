use vstd::prelude::*;

use super::twist::{pow_twist, twist_of_code, Twist};
use super::twist_data::TwistData;
use crate::linalg::facet::{facet_name, facet_of, opposite_idx};
use crate::linalg::mat4::ident_cols;
use crate::linalg::{Facet, Mat4};
use vstd::std_specs::iter::IteratorSpec;

verus! {

/// The number of the facet that a character names, if any.
pub open spec fn facet_of_char(c: char) -> Option<int> {
    if c == 'R' {
        Some(0)
    } else if c == 'L' {
        Some(1)
    } else if c == 'U' {
        Some(2)
    } else if c == 'D' {
        Some(3)
    } else if c == 'F' {
        Some(4)
    } else if c == 'B' {
        Some(5)
    } else if c == 'O' {
        Some(6)
    } else if c == 'I' {
        Some(7)
    } else {
        None
    }
}

/// Whether a character is an ASCII decimal digit.
pub open spec fn is_digit(c: char) -> bool {
    '0' <= c <= '9'
}

/// Number of leading characters of `s` that name facets.
pub open spec fn facet_run(s: Seq<char>) -> nat
    decreases s.len(),
{
    if s.len() > 0 && facet_of_char(s[0]) is Some {
        1 + facet_run(s.drop_first())
    } else {
        0
    }
}

/// Number of leading characters of `s` that are digits.
pub open spec fn digit_run(s: Seq<char>) -> nat
    decreases s.len(),
{
    if s.len() > 0 && is_digit(s[0]) {
        1 + digit_run(s.drop_first())
    } else {
        0
    }
}

/// Value of a decimal numeral, or `None` if some step (multiplying the value
/// so far by ten, then adding the next digit) leaves `0..=127`.
pub open spec fn digits_value(ds: Seq<char>) -> Option<i8>
    decreases ds.len(),
{
    if ds.len() == 0 {
        Some(0)
    } else {
        match digits_value(ds.drop_last()) {
            None => None,
            Some(v) => {
                let d = ds.last() as int - '0' as int;
                if v * 10 > 127 || v * 10 + d > 127 {
                    None
                } else {
                    Some((v * 10 + d) as i8)
                }
            },
        }
    }
}

/// A twist name split into its facet numbers and its multiplier: facet
/// letters, then an optional decimal multiplier (1 if absent), then an
/// optional `'` that negates it, and nothing else.
#[verifier::opaque]
pub open spec fn parse_name(s: Seq<char>) -> Option<(Seq<int>, i8)> {
    let nf = facet_run(s) as int;
    let facets = s.take(nf).map_values(|c: char| facet_of_char(c)->0);
    let rest = s.skip(nf);
    let nd = digit_run(rest) as int;
    let mult = if nd == 0 {
        Some(1i8)
    } else {
        digits_value(rest.take(nd))
    };
    let tail = rest.skip(nd);
    match mult {
        None => None,
        Some(m) => if tail.len() == 0 {
            Some((facets, m))
        } else if tail.len() == 1 && tail[0] == '\'' {
            Some((facets, (-m) as i8))
        } else {
            None
        },
    }
}

/// `s` with `x` inserted before the first element not less than `x`.
pub open spec fn insert_sorted(x: int, s: Seq<int>) -> Seq<int>
    decreases s.len(),
{
    if s.len() == 0 {
        seq![x]
    } else if x <= s[0] {
        seq![x] + s
    } else {
        seq![s[0]] + insert_sorted(x, s.drop_first())
    }
}

/// `s` sorted in increasing order, by insertion.
pub open spec fn sort_ints(s: Seq<int>) -> Seq<int>
    decreases s.len(),
{
    if s.len() == 0 {
        s
    } else {
        insert_sorted(s.last(), sort_ints(s.drop_last()))
    }
}

/// The numbers of a list of facets.
pub open spec fn facet_idxs(s: Seq<Facet>) -> Seq<int> {
    s.map_values(|f: Facet| f.idx())
}

/// Returns the characters of a string.
fn chars_of(s: &str) -> (r: Vec<char>)
    ensures
        r@ == s@,
{
    broadcast use vstd::string::axiom_spec_iter;
    broadcast use vstd::string::next_postcondition;

    let mut it = s.chars();
    let mut r: Vec<char> = Vec::new();
    loop
        invariant
            r@ + it.remaining() == s@,
            it.decrease() is Some,
        ensures
            r@ == s@,
        decreases it.decrease()->0,
    {
        match it.next() {
            Some(c) => {
                r.push(c);
            },
            None => {
                break ;
            },
        }
    }
    r
}

/// Inserting keeps the length and the first element not less than `x`
/// moves one place up.
proof fn lemma_insert_sorted(x: int, s: Seq<int>, p: int)
    requires
        0 <= p <= s.len(),
        forall|i: int| 0 <= i < p ==> x > #[trigger] s[i],
        p < s.len() ==> x <= s[p],
    ensures
        insert_sorted(x, s) == s.take(p) + seq![x] + s.skip(p),
    decreases s.len(),
{
    if s.len() == 0 {
        assert(s.take(p) + seq![x] + s.skip(p) =~= seq![x]);
    } else if p == 0 {
        assert(s.take(p) + seq![x] + s.skip(p) =~= seq![x] + s);
    } else {
        let t = s.drop_first();
        assert forall|i: int| 0 <= i < p - 1 implies x > #[trigger] t[i] by {
            assert(t[i] == s[i + 1]);
        }
        lemma_insert_sorted(x, t, p - 1);
        assert(s.take(p) + seq![x] + s.skip(p) =~= seq![s[0]] + (t.take(p - 1) + seq![x] + t.skip(p - 1)));
    }
}

/// Returns the facets sorted by number, by insertion.
fn sort_facets(v: &Vec<Facet>) -> (r: Vec<Facet>)
    ensures
        facet_idxs(r@) == sort_ints(facet_idxs(v@)),
{
    let mut r: Vec<Facet> = Vec::new();
    let mut i: usize = 0;
    while i < v.len()
        invariant
            0 <= i <= v@.len(),
            facet_idxs(r@) == sort_ints(facet_idxs(v@.take(i as int))),
        decreases v@.len() - i,
    {
        if i == 0 {
            assert(facet_idxs(v@.take(0)) =~= Seq::<int>::empty());
            assert(facet_idxs(r@) =~= Seq::<int>::empty());
        }
        let x = v[i];
        let ghost old_r = r@;
        let mut p: usize = 0;
        while p < r.len() && x.to_u8() > r[p].to_u8()
            invariant
                0 <= p <= r@.len(),
                r@ == old_r,
                forall|j: int| 0 <= j < p ==> x.idx() > #[trigger] r@[j].idx(),
            decreases r@.len() - p,
        {
            p = p + 1;
        }
        r.insert(p, x);
        proof {
            let s = facet_idxs(old_r);
            assert forall|j: int| 0 <= j < p implies x.idx() > #[trigger] s[j] by {
                assert(s[j] == old_r[j].idx());
            }
            lemma_insert_sorted(x.idx(), s, p as int);
            let vi = facet_idxs(v@.take(i + 1));
            assert(vi.drop_last() =~= facet_idxs(v@.take(i as int)));
            assert(vi.last() == x.idx());
            assert(facet_idxs(r@) =~= s.take(p as int) + seq![x.idx()] + s.skip(p as int));
        }
        i = i + 1;
    }
    assert(v@.take(v@.len() as int) =~= v@);
    r
}

/// A facet's name names it.
proof fn lemma_facet_of_char(f: Facet)
    ensures
        facet_of_char(facet_name(f)) == Some(f.idx()),
{
}

/// Splits a twist name into its facets and multiplier (see [`parse_name`]).
fn parse_name_chars(s: &Vec<char>) -> (r: Option<(Vec<Facet>, i8)>)
    ensures
        match parse_name(s@) {
            None => r is None,
            Some((fs, m)) => r matches Some((rf, rm)) && facet_idxs(rf@) == fs && rm == m,
        },
        r matches Some((_, rm)) ==> -127 <= rm <= 127,
{
    reveal(parse_name);
    let n = s.len();
    let mut facets: Vec<Facet> = Vec::new();
    let mut i: usize = 0;
    assert(s@.skip(0) =~= s@);
    assert(facet_idxs(facets@) =~= s@.take(0).map_values(|c: char| facet_of_char(c)->0));
    while i < n
        invariant
            0 <= i <= n,
            n == s@.len(),
            facet_run(s@) == i + facet_run(s@.skip(i as int)),
            facets@.len() == i,
            facet_idxs(facets@) == s@.take(i as int).map_values(|c: char| facet_of_char(c)->0),
        ensures
            0 <= i <= n,
            facet_run(s@) == i,
            facets@.len() == i,
            facet_idxs(facets@) == s@.take(i as int).map_values(|c: char| facet_of_char(c)->0),
        decreases n - i,
    {
        match Facet::from_name(s[i]) {
            Some(f) => {
                proof {
                    lemma_facet_of_char(f);
                    assert(s@.skip(i as int).drop_first() =~= s@.skip(i + 1));
                    let a = facet_idxs(facets@.push(f));
                    let b = s@.take(i + 1).map_values(|c: char| facet_of_char(c)->0);
                    let b0 = s@.take(i as int).map_values(|c: char| facet_of_char(c)->0);
                    assert forall|j: int| 0 <= j < i + 1 implies a[j] == b[j] by {
                        if j < i {
                            assert(a[j] == facets@[j].idx());
                            assert(facet_idxs(facets@)[j] == facets@[j].idx());
                            assert(b0[j] == facet_of_char(s@[j])->0);
                            assert(b[j] == facet_of_char(s@[j])->0);
                        } else {
                            assert(a[j] == f.idx());
                            assert(b[j] == facet_of_char(s@[j])->0);
                        }
                    }
                    assert(a =~= b);
                }
                facets.push(f);
                i = i + 1;
            },
            None => {
                proof {
                    assert(facet_of_char(s@[i as int]) is None) by {
                        if facet_of_char(s@[i as int]) is Some {
                            let k = facet_of_char(s@[i as int])->0;
                            assert(facet_name(crate::linalg::facet::facet_of(k)) == s@[i as int]);
                        }
                    }
                    assert(s@.skip(i as int)[0] == s@[i as int]);
                    assert(facet_run(s@.skip(i as int)) == 0);
                }
                break ;
            },
        }
    }

    let nf = i;
    let ghost rest = s@.skip(nf as int);
    let mut mult: i8 = 1;
    let has_digits = i < n && '0' <= s[i] && s[i] <= '9';
    if has_digits {
        mult = 0;
    }
    let mut ok = true;
    while i < n && '0' <= s[i] && s[i] <= '9'
        invariant
            nf <= i <= n,
            n == s@.len(),
            rest == s@.skip(nf as int),
            digit_run(rest) == (i - nf) + digit_run(s@.skip(i as int)),
            has_digits == (digit_run(rest) > 0),
            0 <= mult,
            has_digits ==> (ok ==> digits_value(rest.take(i - nf)) == Some(mult)),
            has_digits ==> (!ok ==> digits_value(rest.take(i - nf)) is None),
            !has_digits ==> i == nf && mult == 1 && ok,
        decreases n - i,
    {
        let c = s[i];
        proof {
            assert(s@.skip(i as int).drop_first() =~= s@.skip(i + 1));
            assert(rest.take(i + 1 - nf).drop_last() =~= rest.take(i - nf));
            assert(rest.take(i + 1 - nf).last() == c);
            assert(s@.skip(i as int)[0] == c);
        }
        if ok {
            let d = (c as u32 - '0' as u32) as i8;
            if mult > 12 || mult * 10 > 127 - d {
                ok = false;
            } else {
                mult = mult * 10 + d;
            }
        }
        i = i + 1;
    }
    proof {
        if i < n {
            assert(s@.skip(i as int)[0] == s@[i as int]);
        }
        if i == n {
            assert(s@.skip(i as int).len() == 0);
        }
        assert(digit_run(s@.skip(i as int)) == 0);
        assert(digit_run(rest) == i - nf);
        assert(rest.skip(digit_run(rest) as int) =~= s@.skip(i as int));
        assert(s@.take(nf as int).map_values(|c: char| facet_of_char(c)->0) == facet_idxs(facets@));
    }
    if !ok {
        return None;
    }
    if i == n {
        return Some((facets, mult));
    }
    proof {
        let tail = s@.skip(i as int);
        assert(tail.len() == n - i);
        assert(tail[0] == s@[i as int]);
    }
    if i + 1 == n && s[i] == '\'' {
        return Some((facets, -mult));
    }
    None
}

/// Facet numbers of the base names, twisted facet `I` first: a 90-degree
/// ridge twist (`IF`), a 180-degree ridge twist (`IF2`), a 180-degree edge
/// twist (`IUR`) and a 120-degree corner twist (`IUFR`).
pub open spec fn base_facets(b: int) -> Seq<int> {
    if b <= 1 {
        seq![7, 4]
    } else if b == 2 {
        seq![7, 2, 0]
    } else {
        seq![7, 2, 4, 0]
    }
}

/// Multiplier of each base name.
pub open spec fn base_multiplier(b: int) -> i8 {
    if b == 1 {
        2
    } else {
        1
    }
}

/// Columns of the rotation of each base twist: `rot(Y, X)`, `rot(Y, X)²`,
/// `rot(Y, X) * rot(X, Z)²` and `rot(Y, X) * rot(X, Z)`.
pub open spec fn base_rot_cols(b: int) -> Seq<int> {
    if b == 0 {
        seq![3, 0, 4, 6]
    } else if b == 1 {
        seq![1, 3, 4, 6]
    } else if b == 2 {
        seq![2, 0, 5, 6]
    } else {
        seq![4, 0, 2, 6]
    }
}

/// Rotation of each base twist.
pub open spec fn base_rot(b: int) -> Mat4 {
    Mat4::spec_from_cols(base_rot_cols(b))
}

/// The facets after the first of base name `b`, carried by `m`.
pub open spec fn mapped_rest(b: int, m: Mat4) -> Seq<int> {
    base_facets(b).skip(1).map_values(|f: int| m.apply_idx(f))
}

/// The name that base name `b` takes under `m`: the image of `I`, then the
/// images of the other facets in increasing order.
pub open spec fn mapped_name(b: int, m: Mat4) -> Seq<int> {
    seq![m.apply_idx(7)] + sort_ints(mapped_rest(b, m))
}

/// Packed data of the base twist `b` carried by `m`.
#[verifier::opaque]
pub open spec fn entry_code(b: int, m: Mat4) -> int {
    4096 * m.apply_idx(7) + base_rot(b).spec_transform_by(m).bits()
}

/// Whether the matrix with bits `x` is a rotation of the hypercube that
/// carries base name `b` onto `c`.
#[verifier::opaque]
pub open spec fn names_base(b: int, x: int, c: Seq<int>) -> bool {
    Mat4::spec_from_bits(x).is_rotation() && mapped_name(b, Mat4::spec_from_bits(x)) == c
}

/// The first bits, from `x` on, of a rotation carrying base name `b` onto `c`.
pub open spec fn first_namer(b: int, c: Seq<int>, x: int) -> Option<int>
    decreases 4096 - x,
{
    if x >= 4096 || x < 0 {
        None
    } else if names_base(b, x, c) {
        Some(x)
    } else {
        first_namer(b, c, x + 1)
    }
}

/// The base name (of multiplier 1) with as many facets as a name of length
/// `n`, or -1.
pub open spec fn base_of_len(n: int) -> int {
    if n == 2 {
        0
    } else if n == 3 {
        2
    } else if n == 4 {
        3
    } else {
        -1
    }
}

/// The twist of multiplier 1 with a canonical name: the base twist with as
/// many facets carried by the first rotation that carries its name onto `c`.
#[verifier::opaque]
pub open spec fn lookup_name(c: Seq<int>) -> Option<Twist> {
    let b = base_of_len(c.len() as int);
    if b < 0 {
        None
    } else {
        match first_namer(b, c, 0) {
            Some(x) => Some(twist_of_code(entry_code(b, Mat4::spec_from_bits(x)))),
            None => None,
        }
    }
}

/// A name with its facets after the first sorted.
pub open spec fn canonical_name(fs: Seq<int>) -> Seq<int> {
    seq![fs[0]] + sort_ints(fs.skip(1))
}

/// A name with each facet after the first replaced by its opposite.
pub open spec fn flip_rest(c: Seq<int>) -> Seq<int> {
    seq![c[0]] + c.skip(1).map_values(|f: int| opposite_idx(f))
}

/// The twist that a name denotes: the twist of its canonical name (or of the
/// name with the other facets flipped, and the multiplier negated), raised to
/// the multiplier.
pub open spec fn spec_from_name(s: Seq<char>) -> Option<Twist> {
    match parse_name(s) {
        None => None,
        Some((fs, mult)) => if fs.len() == 0 {
            None
        } else {
            let c = canonical_name(fs);
            match lookup_name(c) {
                Some(t) => pow_twist(t, mult),
                None => match lookup_name(flip_rest(c)) {
                    Some(t) => pow_twist(t, (-mult) as i8),
                    None => None,
                },
            }
        },
    }
}

/// Skipping bits that do not qualify does not change the first that does.
proof fn lemma_first_namer_skip(b: int, c: Seq<int>, x0: int, x: int)
    requires
        0 <= x0 <= x <= 4096,
        forall|y: int| x0 <= y < x ==> !names_base(b, y, c),
    ensures
        first_namer(b, c, x0) == first_namer(b, c, x),
    decreases x - x0,
{
    if x0 < x {
        lemma_first_namer_skip(b, c, x0 + 1, x);
    }
}

/// The base twists' rotations are twist rotations of `I`.
proof fn lemma_base_rot(b: int)
    requires
        0 <= b < 4,
    ensures
        base_rot(b)@ == base_rot_cols(b),
        TwistData::valid_twist(7, base_rot(b)),
        base_rot(b).wf(),
{
    let cols = base_rot_cols(b);
    assert(crate::linalg::mat4::valid_cols(cols));
    Mat4::lemma_from_cols(cols);
    Mat4::lemma_ident();
    if base_rot(b) == Mat4::spec_ident() {
        assert(cols =~= ident_cols());
    }
}

/// Returns the rotation of base twist `b`.
fn base_rotation(b: u8) -> (r: Mat4)
    requires
        b < 4,
    ensures
        r == base_rot(b as int),
{
    let r = if b == 0 {
        Mat4::from_cols([Facet::D, Facet::R, Facet::F, Facet::O])
    } else if b == 1 {
        Mat4::from_cols([Facet::L, Facet::D, Facet::F, Facet::O])
    } else if b == 2 {
        Mat4::from_cols([Facet::U, Facet::R, Facet::B, Facet::O])
    } else {
        Mat4::from_cols([Facet::F, Facet::R, Facet::U, Facet::O])
    };
    assert(r@ =~= base_rot_cols(b as int));
    r
}

/// Putting a facet in front puts its number in front.
proof fn lemma_idxs_insert0(s: Seq<Facet>, f: Facet)
    ensures
        facet_idxs(s.insert(0, f)) == seq![f.idx()] + facet_idxs(s),
{
    assert(facet_idxs(s.insert(0, f)) =~= seq![f.idx()] + facet_idxs(s));
}

/// Returns the name that base name `b` takes under `m`.
fn mapped_name_of(b: u8, m: Mat4) -> (r: Vec<Facet>)
    requires
        b < 4,
    ensures
        facet_idxs(r@) == mapped_name(b as int, m),
{
    let mut rest: Vec<Facet> = Vec::new();
    if b <= 1 {
        rest.push(Facet::F.transform_by(m));
    } else if b == 2 {
        rest.push(Facet::U.transform_by(m));
        rest.push(Facet::R.transform_by(m));
    } else {
        rest.push(Facet::U.transform_by(m));
        rest.push(Facet::F.transform_by(m));
        rest.push(Facet::R.transform_by(m));
    }
    assert(facet_idxs(rest@) =~= mapped_rest(b as int, m));
    let mut r = sort_facets(&rest);
    let f0 = Facet::I.transform_by(m);
    let ghost sorted = r@;
    r.insert(0, f0);
    proof {
        lemma_idxs_insert0(sorted, f0);
    }
    r
}

/// Returns whether two lists hold the same facets in the same order.
fn same_facets(a: &Vec<Facet>, b: &Vec<Facet>) -> (r: bool)
    ensures
        r == (facet_idxs(a@) == facet_idxs(b@)),
{
    if a.len() != b.len() {
        assert(facet_idxs(a@).len() != facet_idxs(b@).len());
        return false;
    }
    let mut i: usize = 0;
    while i < a.len()
        invariant
            0 <= i <= a@.len(),
            a@.len() == b@.len(),
            forall|j: int| 0 <= j < i ==> #[trigger] a@[j].idx() == b@[j].idx(),
        decreases a@.len() - i,
    {
        if a[i].to_u8() != b[i].to_u8() {
            assert(facet_idxs(a@)[i as int] != facet_idxs(b@)[i as int]);
            return false;
        }
        i = i + 1;
    }
    assert(facet_idxs(a@) =~= facet_idxs(b@));
    true
}

/// Returns the twist of multiplier 1 with a canonical name (see
/// [`lookup_name`]).
fn lookup(c: &Vec<Facet>) -> (r: Option<Twist>)
    ensures
        r == lookup_name(facet_idxs(c@)),
{
    reveal(lookup_name);
    let n = c.len();
    let b: u8 = if n == 2 {
        0
    } else if n == 3 {
        2
    } else if n == 4 {
        3
    } else {
        return None;
    };
    let ghost cs = facet_idxs(c@);
    assert(base_of_len(cs.len() as int) == b);
    let mut x: u16 = 0;
    while x < 4096
        invariant
            0 <= x <= 4096,
            b < 4,
            cs == facet_idxs(c@),
            base_of_len(cs.len() as int) == b,
            forall|y: int| 0 <= y < x ==> !names_base(b as int, y, cs),
        decreases 4096 - x,
    {
        match try_namer(b, x, c) {
            Some(t) => {
                proof {
                    lemma_first_namer_skip(b as int, cs, 0, x as int);
                    reveal(lookup_name);
                }
                return Some(t);
            },
            None => {},
        }
        x = x + 1;
    }
    proof {
        lemma_first_namer_skip(b as int, cs, 0, 4096);
        reveal(lookup_name);
    }
    None
}

/// Returns the twist of base `b` carried by the matrix with bits `x`, if
/// that matrix is a rotation carrying the base name onto `c`.
fn try_namer(b: u8, x: u16, c: &Vec<Facet>) -> (r: Option<Twist>)
    requires
        b < 4,
        x < 4096,
    ensures
        r is Some == names_base(b as int, x as int, facet_idxs(c@)),
        r is Some ==> r == Some(twist_of_code(entry_code(b as int, Mat4::spec_from_bits(x as int)))),
{
    reveal(names_base);
    let m = Mat4::from_bits(x);
    if m.det() != 1 {
        return None;
    }
    let name = mapped_name_of(b, m);
    if !same_facets(&name, c) {
        return None;
    }
    proof {
        use_type_invariant(&m);
        lemma_base_rot(b as int);
        reveal(entry_code);
    }
    let base = TwistData::new(Facet::I, base_rotation(b));
    let d = base.transform_by(m);
    proof {
        use_type_invariant(&d);
        d.lemma_valid();
        d.spec_rot().lemma_bits();
        assert(d.code() == 4096 * d.facet_idx() + d.code() % 4096);
    }
    Some(Twist::from_data(d))
}

/// Returns the name with its facets after the first sorted.
fn canonical(fs: &Vec<Facet>) -> (r: Vec<Facet>)
    requires
        fs@.len() > 0,
    ensures
        facet_idxs(r@) == canonical_name(facet_idxs(fs@)),
{
    let mut rest: Vec<Facet> = Vec::new();
    let mut i: usize = 1;
    while i < fs.len()
        invariant
            1 <= i <= fs@.len(),
            rest@.len() == i - 1,
            forall|j: int| 0 <= j < i - 1 ==> #[trigger] rest@[j] == fs@[j + 1],
        decreases fs@.len() - i,
    {
        rest.push(fs[i]);
        i = i + 1;
    }
    assert(facet_idxs(rest@) =~= facet_idxs(fs@).skip(1));
    let mut r = sort_facets(&rest);
    let ghost sorted = r@;
    r.insert(0, fs[0]);
    proof {
        lemma_idxs_insert0(sorted, fs@[0]);
    }
    r
}

/// Returns the name with each facet after the first replaced by its opposite.
fn flipped(c: &Vec<Facet>) -> (r: Vec<Facet>)
    requires
        c@.len() > 0,
    ensures
        facet_idxs(r@) == flip_rest(facet_idxs(c@)),
{
    let mut r: Vec<Facet> = Vec::new();
    r.push(c[0]);
    let mut i: usize = 1;
    while i < c.len()
        invariant
            1 <= i <= c@.len(),
            r@.len() == i,
            r@[0] == c@[0],
            forall|j: int| 1 <= j < i ==> #[trigger] r@[j].idx() == opposite_idx(c@[j].idx()),
        decreases c@.len() - i,
    {
        r.push(c[i].opposite());
        i = i + 1;
    }
    assert(facet_idxs(r@) =~= flip_rest(facet_idxs(c@)));
    r
}

/// Returns the twist that a name, given as characters, denotes.
fn from_name_chars(chars: &Vec<char>) -> (r: Option<Twist>)
    ensures
        r == spec_from_name(chars@),
{
    let (facets, mult) = match parse_name_chars(chars) {
        Some(p) => p,
        None => return None,
    };
    if facets.len() == 0 {
        return None;
    }
    let c = canonical(&facets);
    match lookup(&c) {
        Some(t) => t.pow(mult),
        None => {
            let f = flipped(&c);
            match lookup(&f) {
                Some(t) => t.pow(-mult),
                None => None,
            }
        },
    }
}

/// Whether bits `x` are those of a rotation of the hypercube that carries
/// base twist `b` onto `t`.
#[verifier::opaque]
pub open spec fn is_entry_of(t: Twist, b: int, x: int) -> bool {
    Mat4::spec_from_bits(x).is_rotation() && twist_of_code(entry_code(b, Mat4::spec_from_bits(x)))
        == t
}

/// Whether `k = 4096 * b + x` is such that bits `x` carry base twist `b`
/// onto `t`.
pub open spec fn entry_at(t: Twist, k: int) -> bool {
    is_entry_of(t, k / 4096, k % 4096)
}

/// The first `k = 4096 * b + x`, from `k` on, such that bits `x` carry base
/// twist `b` onto `t`.
pub open spec fn first_entry(t: Twist, k: int) -> Option<int>
    decreases 4 * 4096 - k,
{
    if k < 0 || k >= 4 * 4096 {
        None
    } else if entry_at(t, k) {
        Some(k)
    } else {
        first_entry(t, k + 1)
    }
}

/// The letters of a list of facet numbers.
pub open spec fn name_chars(c: Seq<int>) -> Seq<char> {
    c.map_values(|f: int| facet_name(facet_of(f)))
}

/// The name of a twist: the name that the first base twist and rotation
/// (base by base, rotations in order of their bits) carrying a base twist
/// onto `t` give, with the base's multiplier if it is not 1; empty if there
/// is none.
pub open spec fn spec_name(t: Twist) -> Seq<char> {
    match first_entry(t, 0) {
        Some(k) => name_chars(mapped_name(k / 4096, Mat4::spec_from_bits(k % 4096))) + if k / 4096
            == 1 {
            seq!['2']
        } else {
            Seq::empty()
        },
        None => Seq::empty(),
    }
}

/// Skipping candidates that do not qualify does not change the first that
/// does.
proof fn lemma_first_entry_skip(t: Twist, k0: int, k: int)
    requires
        0 <= k0 <= k <= 4 * 4096,
        forall|j: int| k0 <= j < k ==> !entry_at(t, j),
    ensures
        first_entry(t, k0) == first_entry(t, k),
    decreases k - k0,
{
    if k0 < k {
        lemma_first_entry_skip(t, k0 + 1, k);
    }
}

/// Returns whether bits `x` carry base twist `b` onto `t`.
fn is_entry(t: Twist, b: u8, x: u16) -> (r: bool)
    requires
        b < 4,
        x < 4096,
    ensures
        r == is_entry_of(t, b as int, x as int),
{
    reveal(is_entry_of);
    let m = Mat4::from_bits(x);
    if m.det() != 1 {
        return false;
    }
    proof {
        use_type_invariant(&m);
        lemma_base_rot(b as int);
        reveal(entry_code);
    }
    let base = TwistData::new(Facet::I, base_rotation(b));
    let d = base.transform_by(m);
    proof {
        use_type_invariant(&d);
        d.lemma_valid();
        d.spec_rot().lemma_bits();
        assert(d.code() == 4096 * d.facet_idx() + d.code() % 4096);
    }
    Twist::from_data(d) == t
}

/// Appends the letter of a facet.
fn push_facet_letter(s: &mut String, f: Facet)
    ensures
        final(s)@ == old(s)@.push(facet_name(f)),
{
    proof {
        reveal_strlit("R");
        reveal_strlit("L");
        reveal_strlit("U");
        reveal_strlit("D");
        reveal_strlit("F");
        reveal_strlit("B");
        reveal_strlit("O");
        reveal_strlit("I");
    }
    match f {
        Facet::R => s.append("R"),
        Facet::L => s.append("L"),
        Facet::U => s.append("U"),
        Facet::D => s.append("D"),
        Facet::F => s.append("F"),
        Facet::B => s.append("B"),
        Facet::O => s.append("O"),
        Facet::I => s.append("I"),
    }
}

/// Appends the letters of a list of facets.
fn push_facet_letters(s: &mut String, fs: &Vec<Facet>)
    ensures
        final(s)@ == old(s)@ + name_chars(facet_idxs(fs@)),
{
    let ghost start = s@;
    let mut i: usize = 0;
    while i < fs.len()
        invariant
            0 <= i <= fs@.len(),
            s@ == start + name_chars(facet_idxs(fs@.take(i as int))),
        decreases fs@.len() - i,
    {
        push_facet_letter(s, fs[i]);
        proof {
            crate::linalg::facet::lemma_facet_of_idx(fs@[i as int]);
            assert(name_chars(facet_idxs(fs@.take(i + 1))) =~= name_chars(facet_idxs(fs@.take(i as int))).push(
                facet_name(fs@[i as int]),
            ));
        }
        i = i + 1;
    }
    assert(fs@.take(fs@.len() as int) =~= fs@);
}

/// Returns the facets of the name of `t` and whether its multiplier is 2
/// (see [`spec_name`]); `None` if no base twist is carried onto `t`.
fn name_parts(t: Twist) -> (r: Option<(Vec<Facet>, bool)>)
    ensures
        match first_entry(t, 0) {
            Some(k) => r matches Some((fs, two)) && facet_idxs(fs@) == mapped_name(
                k / 4096,
                Mat4::spec_from_bits(k % 4096),
            ) && two == (k / 4096 == 1),
            None => r is None,
        },
{
    let mut b: u8 = 0;
    while b < 4
        invariant
            0 <= b <= 4,
            forall|j: int| 0 <= j < 4096 * b ==> !entry_at(t, j),
        decreases 4 - b,
    {
        let mut x: u16 = 0;
        while x < 4096
            invariant
                0 <= b < 4,
                0 <= x <= 4096,
                forall|j: int| 0 <= j < 4096 * b + x ==> !entry_at(t, j),
            decreases 4096 - x,
        {
            if is_entry(t, b, x) {
                proof {
                    let k = 4096 * b + x;
                    assert(k / 4096 == b && k % 4096 == x);
                    lemma_first_entry_skip(t, 0, k);
                }
                let m = Mat4::from_bits(x);
                return Some((mapped_name_of(b, m), b == 1));
            }
            proof {
                let k = 4096 * b + x;
                assert(k / 4096 == b && k % 4096 == x);
            }
            x = x + 1;
        }
        b = b + 1;
    }
    proof {
        lemma_first_entry_skip(t, 0, 16384int);
    }
    None
}

impl Twist {
    /// Returns the twist with the given name, or `None` if the name does not
    /// denote a twist (see [`spec_from_name`]): for example `IF` (a 90-degree
    /// ridge twist), `IUR` (a 180-degree edge twist), `IUFR` (a 120-degree
    /// corner twist), `UF2` or `UF'`.
    pub fn from_name(s: &str) -> (r: Option<Twist>)
        ensures
            r == spec_from_name(s@),
    {
        let chars = chars_of(s);
        from_name_chars(&chars)
    }

    /// Returns the name of the twist (see [`spec_name`]).
    pub fn name(self) -> (r: String)
        ensures
            r@ == spec_name(self),
    {
        let mut s = String::new();
        match name_parts(self) {
            Some((fs, two)) => {
                push_facet_letters(&mut s, &fs);
                if two {
                    proof {
                        reveal_strlit("2");
                    }
                    s.append("2");
                }
            },
            None => {},
        }
        s
    }
}

/// A twist's name as written in a list of twists: a name that ends in `2` is
/// written as the rest of the name, twice.
pub open spec fn listed_name(n: Seq<char>) -> Seq<char> {
    if n.len() > 0 && n.last() == '2' {
        n.drop_last() + seq![' '] + n.drop_last()
    } else {
        n
    }
}

/// The listed names of the twists, separated by spaces.
pub open spec fn spec_twists_to_string(ts: Seq<Twist>) -> Seq<char>
    decreases ts.len(),
{
    if ts.len() == 0 {
        Seq::empty()
    } else if ts.len() == 1 {
        listed_name(spec_name(ts[0]))
    } else {
        spec_twists_to_string(ts.drop_last()) + seq![' '] + listed_name(spec_name(ts.last()))
    }
}

/// Whether a character is ASCII whitespace.
pub open spec fn is_ascii_space(c: char) -> bool {
    c == ' ' || c == '\t' || c == '\n' || c == '\x0C' || c == '\r'
}

/// The words (maximal runs of characters other than ASCII whitespace) of the
/// text `cur + s`, where `cur` holds no whitespace.
pub open spec fn words_from(s: Seq<char>, cur: Seq<char>) -> Seq<Seq<char>>
    decreases s.len(),
{
    let done = if cur.len() > 0 {
        seq![cur]
    } else {
        Seq::empty()
    };
    if s.len() == 0 {
        done
    } else if is_ascii_space(s[0]) {
        done + words_from(s.drop_first(), Seq::empty())
    } else {
        words_from(s.drop_first(), cur.push(s[0]))
    }
}

/// The words of `s`.
pub open spec fn words(s: Seq<char>) -> Seq<Seq<char>> {
    words_from(s, Seq::empty())
}

/// The twists that the words denote, skipping the words `.`.
pub open spec fn parse_words(ws: Seq<Seq<char>>) -> Seq<Twist>
    decreases ws.len(),
{
    if ws.len() == 0 {
        Seq::empty()
    } else {
        let prev = parse_words(ws.drop_last());
        if ws.last() == seq!['.'] {
            prev
        } else {
            prev.push(spec_from_name(ws.last())->0)
        }
    }
}

/// Whether every word other than `.` names a twist.
pub open spec fn all_words_valid(ws: Seq<Seq<char>>) -> bool {
    forall|i: int| 0 <= i < ws.len() && ws[i] != seq!['.'] ==> #[trigger] spec_from_name(ws[i]) is Some
}

/// Appends the listed name of a twist.
fn push_listed_name(s: &mut String, t: Twist)
    ensures
        final(s)@ == old(s)@ + listed_name(spec_name(t)),
{
    match name_parts(t) {
        Some((fs, two)) => {
            let ghost letters = name_chars(facet_idxs(fs@));
            push_facet_letters(s, &fs);
            if two {
                proof {
                    reveal_strlit(" ");
                    assert((letters + seq!['2']).drop_last() =~= letters);
                }
                s.append(" ");
                push_facet_letters(s, &fs);
            } else {
                proof {
                    if letters.len() > 0 {
                        let f = facet_idxs(fs@)[letters.len() - 1];
                        assert(letters.last() == facet_name(facet_of(f)));
                    }
                    assert(letters + Seq::<char>::empty() =~= letters);
                }
            }
        },
        None => {},
    }
}

/// Returns the names of the twists, separated by spaces, with each name that
/// ends in `2` written as the rest of the name twice (e.g. `IF IF` for
/// `IF2`), as other programs read twist lists.
pub fn twists_to_string(twists: &[Twist]) -> (r: String)
    ensures
        r@ == spec_twists_to_string(twists@),
{
    let mut s = String::new();
    let mut i: usize = 0;
    while i < twists.len()
        invariant
            0 <= i <= twists@.len(),
            s@ == spec_twists_to_string(twists@.take(i as int)),
        decreases twists@.len() - i,
    {
        let ghost before = s@;
        if i > 0 {
            proof {
                reveal_strlit(" ");
            }
            s.append(" ");
        }
        push_listed_name(&mut s, twists[i]);
        proof {
            let t1 = twists@.take(i + 1);
            assert(t1.drop_last() =~= twists@.take(i as int));
            assert(t1.last() == twists@[i as int]);
            if i == 0 {
                assert(t1[0] == twists@[0]);
                assert(s@ =~= listed_name(spec_name(twists@[0])));
            }
        }
        i = i + 1;
    }
    assert(twists@.take(twists@.len() as int) =~= twists@);
    s
}

/// Returns whether a word is the single character `.`.
fn is_dot(w: &Vec<char>) -> (r: bool)
    ensures
        r == (w@ == seq!['.']),
{
    if w.len() == 1 && w[0] == '.' {
        assert(w@ =~= seq!['.']);
        true
    } else {
        proof {
            if w@ == seq!['.'] {
                assert(w@[0] == '.');
            }
        }
        false
    }
}

/// Parses twists from a string of names separated by whitespace, skipping
/// the words `.`.
pub fn parse_twists(s: &str) -> (r: Vec<Twist>)
    requires
        all_words_valid(words(s@)),
    ensures
        r@ == parse_words(words(s@)),
{
    let chars = chars_of(s);
    let ghost all = words(s@);
    let ghost mut done: Seq<Seq<char>> = Seq::empty();
    let mut out: Vec<Twist> = Vec::new();
    let mut cur: Vec<char> = Vec::new();
    let mut i: usize = 0;
    assert(chars@.skip(0) =~= chars@);
    while i < chars.len()
        invariant
            0 <= i <= chars@.len(),
            chars@ == s@,
            all == words(s@),
            all_words_valid(all),
            all == done + words_from(chars@.skip(i as int), cur@),
            out@ == parse_words(done),
            forall|j: int| 0 <= j < cur@.len() ==> !is_ascii_space(#[trigger] cur@[j]),
        decreases chars@.len() - i,
    {
        let c = chars[i];
        let ghost cur0 = cur@;
        proof {
            assert(chars@.skip(i as int)[0] == c);
            assert(chars@.skip(i as int).drop_first() =~= chars@.skip(i + 1));
            let d = if cur0.len() > 0 {
                seq![cur0]
            } else {
                Seq::<Seq<char>>::empty()
            };
            if is_ascii_space(c) {
                assert(words_from(chars@.skip(i as int), cur0) == d + words_from(chars@.skip(i + 1), Seq::empty()));
            } else {
                assert(words_from(chars@.skip(i as int), cur0) == words_from(chars@.skip(i + 1), cur0.push(c)));
            }
        }
        if c == ' ' || c == '\t' || c == '\n' || c == '\x0C' || c == '\r' {
            if cur.len() > 0 {
                proof {
                    let k = done.len() as int;
                    assert((done + seq![cur@] + words_from(chars@.skip(i + 1), Seq::empty()))[k] == cur@);
                    assert(done + seq![cur@] + words_from(chars@.skip(i + 1), Seq::empty()) =~= done + (seq![cur@] + words_from(chars@.skip(i + 1), Seq::empty())));
                    assert((done + seq![cur@]).drop_last() =~= done);
                }
                if !is_dot(&cur) {
                    let t = from_name_chars(&cur);
                    assert(all[done.len() as int] == cur@);
                    out.push(t.unwrap());
                }
                proof {
                    done = done + seq![cur@];
                }
                cur = Vec::new();
                assert(all == done + words_from(chars@.skip(i + 1), cur@));
            } else {
                proof {
                    assert(cur@ =~= Seq::<char>::empty());
                    assert(done + words_from(chars@.skip(i + 1), Seq::empty()) =~= done + (Seq::<Seq<char>>::empty() + words_from(chars@.skip(i + 1), Seq::empty())));
                }
            }
        } else {
            cur.push(c);
            assert(all == done + words_from(chars@.skip(i + 1), cur@));
        }
        i = i + 1;
    }
    proof {
        assert(chars@.skip(i as int).len() == 0);
    }
    if cur.len() > 0 {
        proof {
            assert((done + seq![cur@]).drop_last() =~= done);
            assert(all[done.len() as int] == cur@);
        }
        if !is_dot(&cur) {
            let t = from_name_chars(&cur);
            out.push(t.unwrap());
        }
        proof {
            done = done + seq![cur@];
        }
    } else {
        assert(all =~= done);
    }
    out
}

} // verus!
