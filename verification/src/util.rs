//! Small helpers: scrambles, permutation parity and numbers written out.
use rand::rngs::StdRng;
use rand::seq::IteratorRandom;
use rand::SeedableRng;
use vstd::arithmetic::power2::pow2;
use vstd::prelude::*;

use crate::puzzle::Twist;

verus! {

/// Parity of the permutation with number `n` in the factorial number
/// system, reading digits from base `i` up: odd when an odd number of its
/// digits are odd.
pub open spec fn perm_odd_from(n: nat, i: nat) -> bool
    decreases n,
{
    if n == 0 || i < 2 {
        false
    } else {
        proof {
            vstd::arithmetic::div_mod::lemma_div_decreases(n as int, i as int);
        }
        ((n % i) % 2 == 1) != perm_odd_from(n / i, i + 1)
    }
}

/// Returns the parity of the permutation with number `n`: whether an odd
/// number of its digits in the factorial number system are odd.
pub fn is_permutation_odd(n: usize) -> (r: bool)
    ensures
        r == perm_odd_from(n as nat, 2),
{
    let mut n = n;
    let mut res = false;
    let mut i: usize = 2;
    let ghost n0 = n;
    proof {
        vstd::arithmetic::power2::lemma2_to64();
        assert(n * pow2(0) == n);
    }
    while n > 0
        invariant
            2 <= i,
            n * pow2((i - 2) as nat) <= usize::MAX,
            (res != perm_odd_from(n as nat, i as nat)) == perm_odd_from(n0 as nat, 2),
        decreases n,
    {
        let ghost k = (i - 2) as nat;
        proof {
            vstd::arithmetic::power2::lemma_pow2_pos(k);
            assert(pow2(k) <= n * pow2(k)) by (nonlinear_arith)
                requires
                    n > 0,
                    pow2(k) > 0,
            ;
            if k >= 64 {
                vstd::arithmetic::power2::lemma2_to64();
                if k > 64 {
                    vstd::arithmetic::power2::lemma_pow2_strictly_increases(64, k);
                }
            }
        }
        res = res != ((n % i) % 2 == 1);
        let ghost old_n = n;
        n = n / i;
        proof {
            vstd::arithmetic::power2::lemma_pow2_unfold(k + 1);
            assert(n < old_n) by (nonlinear_arith)
                requires
                    n == old_n / i,
                    i >= 2,
                    old_n > 0,
            ;
            assert(n * pow2(k + 1) <= old_n * pow2(k)) by (nonlinear_arith)
                requires
                    n == old_n / i,
                    i >= 2,
                    pow2(k + 1) == 2 * pow2(k),
                    pow2(k) > 0,
            ;
        }
        i = i + 1;
    }
    res
}

/// The decimal digit `d` as a character.
pub open spec fn digit_char(d: nat) -> char {
    if d == 0 {
        '0'
    } else if d == 1 {
        '1'
    } else if d == 2 {
        '2'
    } else if d == 3 {
        '3'
    } else if d == 4 {
        '4'
    } else if d == 5 {
        '5'
    } else if d == 6 {
        '6'
    } else if d == 7 {
        '7'
    } else if d == 8 {
        '8'
    } else {
        '9'
    }
}

/// The decimal digits of `n`, without leading zeros (`0` for zero).
pub open spec fn decimal(n: nat) -> Seq<char>
    decreases n,
{
    if n < 10 {
        seq![digit_char(n)]
    } else {
        decimal(n / 10).push(digit_char(n % 10))
    }
}

/// Appends the decimal digit `d`.
fn push_digit(s: &mut String, d: usize)
    requires
        d < 10,
    ensures
        final(s)@ == old(s)@.push(digit_char(d as nat)),
{
    proof {
        reveal_strlit("0");
        reveal_strlit("1");
        reveal_strlit("2");
        reveal_strlit("3");
        reveal_strlit("4");
        reveal_strlit("5");
        reveal_strlit("6");
        reveal_strlit("7");
        reveal_strlit("8");
        reveal_strlit("9");
    }
    if d == 0 {
        s.append("0");
    } else if d == 1 {
        s.append("1");
    } else if d == 2 {
        s.append("2");
    } else if d == 3 {
        s.append("3");
    } else if d == 4 {
        s.append("4");
    } else if d == 5 {
        s.append("5");
    } else if d == 6 {
        s.append("6");
    } else if d == 7 {
        s.append("7");
    } else if d == 8 {
        s.append("8");
    } else {
        s.append("9");
    }
}

/// Appends the decimal digits of `n`.
pub fn push_decimal(s: &mut String, n: usize)
    ensures
        final(s)@ == old(s)@ + decimal(n as nat),
    decreases n,
{
    if n >= 10 {
        push_decimal(s, n / 10);
    }
    push_digit(s, n % 10);
    proof {
        if n < 10 {
            assert(n % 10 == n);
        }
    }
}

/// The hexadecimal digit `d` as an upper-case character.
pub open spec fn hex_digit_char(d: nat) -> char {
    if d < 10 {
        digit_char(d)
    } else if d == 10 {
        'A'
    } else if d == 11 {
        'B'
    } else if d == 12 {
        'C'
    } else if d == 13 {
        'D'
    } else if d == 14 {
        'E'
    } else {
        'F'
    }
}

/// The upper-case hexadecimal digits of `n`, without leading zeros (`0`
/// for zero).
pub open spec fn hex(n: nat) -> Seq<char>
    decreases n,
{
    if n < 16 {
        seq![hex_digit_char(n)]
    } else {
        hex(n / 16).push(hex_digit_char(n % 16))
    }
}

/// Appends the hexadecimal digit `d`.
fn push_hex_digit(s: &mut String, d: u128)
    requires
        d < 16,
    ensures
        final(s)@ == old(s)@.push(hex_digit_char(d as nat)),
{
    if d < 10 {
        push_digit(s, d as usize);
    } else {
        proof {
            reveal_strlit("A");
            reveal_strlit("B");
            reveal_strlit("C");
            reveal_strlit("D");
            reveal_strlit("E");
            reveal_strlit("F");
        }
        if d == 10 {
            s.append("A");
        } else if d == 11 {
            s.append("B");
        } else if d == 12 {
            s.append("C");
        } else if d == 13 {
            s.append("D");
        } else if d == 14 {
            s.append("E");
        } else {
            s.append("F");
        }
    }
}

/// Appends the upper-case hexadecimal digits of `n`.
pub fn push_hex(s: &mut String, n: u128)
    ensures
        final(s)@ == old(s)@ + hex(n as nat),
    decreases n,
{
    if n >= 16 {
        push_hex(s, n / 16);
    }
    push_hex_digit(s, n % 16);
    proof {
        if n < 16 {
            assert(n % 16 == n);
        }
    }
}

/// The parts joined, with `sep` between each two.
pub open spec fn join(parts: Seq<Seq<char>>, sep: Seq<char>) -> Seq<char>
    decreases parts.len(),
{
    if parts.len() == 0 {
        Seq::empty()
    } else if parts.len() == 1 {
        parts[0]
    } else {
        join(parts.drop_last(), sep) + sep + parts.last()
    }
}

/// Number of twists in a scramble.
pub const SCRAMBLE_LEN: usize = 100;

#[verifier::external_type_specification]
#[verifier::external_body]
pub struct ExStdRng(StdRng);

/// Calls rand's `SeedableRng::seed_from_u64` for `StdRng`: a generator
/// whose state comes from `seed`. Nothing is stated of that state.
#[verifier::external_body]
fn seeded_rng(seed: u64) -> StdRng {
    StdRng::seed_from_u64(seed)
}

/// Calls rand's `IteratorRandom::choose` on the twists of a list, with the
/// generator: claims that the result is one of the twists, and `None` only
/// for an empty list. Which twist comes out is not stated: it depends on
/// the generator's state.
#[verifier::external_body]
fn choose_twist(twists: &Vec<Twist>, rng: &mut StdRng) -> (r: Option<Twist>)
    ensures
        (twists@.len() == 0) == (r is None),
        r matches Some(t) ==> twists@.contains(t),
{
    twists.iter().copied().choose(rng)
}

/// Returns a scramble drawn from a random number generator seeded with
/// `seed`: [`SCRAMBLE_LEN`] twists, each drawn from all the twists.
pub fn scramble(seed: u64) -> (r: Vec<Twist>)
    ensures
        r@.len() == SCRAMBLE_LEN,
{
    let mut rng = seeded_rng(seed);
    let all = Twist::iter();
    let mut out: Vec<Twist> = Vec::new();
    while out.len() < SCRAMBLE_LEN
        invariant
            all@.len() == 184,
            out@.len() <= SCRAMBLE_LEN,
        decreases SCRAMBLE_LEN - out@.len(),
    {
        match choose_twist(&all, &mut rng) {
            Some(t) => out.push(t),
            None => {
                return out;
            },
        }
    }
    out
}

} // verus!
