//! The byte format of a pruning map: the number of entries, then each key
//! and its depth, keys in increasing order; numbers in eight bytes, lowest
//! first.
use vstd::prelude::*;

verus! {

/// The eight bytes of `x`, lowest first.
pub open spec fn le_bytes(x: u64) -> Seq<u8> {
    seq![
        x as u8,
        (x >> 8u64) as u8,
        (x >> 16u64) as u8,
        (x >> 24u64) as u8,
        (x >> 32u64) as u8,
        (x >> 40u64) as u8,
        (x >> 48u64) as u8,
        (x >> 56u64) as u8,
    ]
}

/// The number whose eight bytes, lowest first, start at `i` in `b`.
pub open spec fn le_value(b: Seq<u8>, i: int) -> u64 {
    (b[i] as u64) | ((b[i + 1] as u64) << 8u64) | ((b[i + 2] as u64) << 16u64) | ((b[i + 3] as u64) << 24u64) | ((b[i
        + 4] as u64) << 32u64) | ((b[i + 5] as u64) << 40u64) | ((b[i + 6] as u64) << 48u64) | ((b[i + 7] as u64)
        << 56u64)
}

/// The bytes of an entry: its key, then its depth.
pub open spec fn entry_bytes(e: (u64, u8)) -> Seq<u8> {
    le_bytes(e.0).push(e.1)
}

/// The bytes of the entries, one after the other.
pub open spec fn entries_bytes(es: Seq<(u64, u8)>) -> Seq<u8>
    decreases es.len(),
{
    if es.len() == 0 {
        Seq::empty()
    } else {
        entries_bytes(es.drop_last()) + entry_bytes(es.last())
    }
}

/// The bytes of a list of entries: their number, then the entries.
pub open spec fn map_bytes(es: Seq<(u64, u8)>) -> Seq<u8> {
    le_bytes(es.len() as u64) + entries_bytes(es)
}

/// Whether the keys of the entries increase.
pub open spec fn ascending(es: Seq<(u64, u8)>) -> bool {
    forall|i: int, j: int| 0 <= i < j < es.len() ==> (#[trigger] es[i]).0 < (#[trigger] es[j]).0
}

/// Whether the entries are those of the map, keys increasing.
pub open spec fn lists_entries(es: Seq<(u64, u8)>, m: Map<u64, u8>) -> bool {
    &&& ascending(es)
    &&& forall|i: int| 0 <= i < es.len() ==> m.contains_key((#[trigger] es[i]).0) && m[es[i].0] == es[i].1
    &&& forall|k: u64| #[trigger] m.contains_key(k) ==> exists|i: int| 0 <= i < es.len() && es[i].0 == k
}

/// The entry numbered `i` that the bytes hold.
pub open spec fn decoded_entry(b: Seq<u8>, i: int) -> (u64, u8) {
    (le_value(b, 8 + 9 * i), b[8 + 9 * i + 8])
}

/// The first `n` entries that the bytes hold.
pub open spec fn decoded(b: Seq<u8>, n: int) -> Seq<(u64, u8)> {
    Seq::new(n as nat, |i: int| decoded_entry(b, i))
}

/// Whether the bytes are those of a list of entries with increasing keys.
pub open spec fn bytes_ok(b: Seq<u8>) -> bool {
    &&& b.len() >= 8
    &&& b.len() == 8 + 9 * le_value(b, 0)
    &&& ascending(decoded(b, le_value(b, 0) as int))
}

/// Reading the eight bytes of a number gives it back.
pub proof fn lemma_le_round_trip(x: u64)
    ensures
        le_value(le_bytes(x), 0) == x,
{
    let b = le_bytes(x);
    let b0 = x as u8;
    let b1 = (x >> 8u64) as u8;
    let b2 = (x >> 16u64) as u8;
    let b3 = (x >> 24u64) as u8;
    let b4 = (x >> 32u64) as u8;
    let b5 = (x >> 40u64) as u8;
    let b6 = (x >> 48u64) as u8;
    let b7 = (x >> 56u64) as u8;
    assert(b[0] == b0 && b[1] == b1 && b[2] == b2 && b[3] == b3 && b[4] == b4 && b[5] == b5 && b[6] == b6 && b[7] == b7);
    assert((b0 as u64) | ((b1 as u64) << 8u64) | ((b2 as u64) << 16u64) | ((b3 as u64) << 24u64) | ((b4 as u64)
        << 32u64) | ((b5 as u64) << 40u64) | ((b6 as u64) << 48u64) | ((b7 as u64) << 56u64) == x) by (bit_vector)
        requires
            b0 == x as u8,
            b1 == (x >> 8u64) as u8,
            b2 == (x >> 16u64) as u8,
            b3 == (x >> 24u64) as u8,
            b4 == (x >> 32u64) as u8,
            b5 == (x >> 40u64) as u8,
            b6 == (x >> 48u64) as u8,
            b7 == (x >> 56u64) as u8,
    ;
}

/// The bytes of the entries are nine for each, and entry `k` takes bytes
/// `9 * k` to `9 * k + 9`.
pub proof fn lemma_entries_bytes(es: Seq<(u64, u8)>)
    ensures
        entries_bytes(es).len() == 9 * es.len(),
        forall|k: int, j: int|
            0 <= k < es.len() && 0 <= j < 9 ==> #[trigger] entries_bytes(es)[9 * k + j] == entry_bytes(es[k])[j],
    decreases es.len(),
{
    if es.len() > 0 {
        let d = es.drop_last();
        lemma_entries_bytes(d);
        assert forall|k: int, j: int|
            0 <= k < es.len() && 0 <= j < 9 implies #[trigger] entries_bytes(es)[9 * k + j] == entry_bytes(es[k])[j] by {
            if k < d.len() {
                assert(d[k] == es[k]);
                assert(9 * k + j < 9 * d.len()) by (nonlinear_arith)
                    requires
                        k < d.len(),
                        j < 9,
                ;
            } else {
                assert(k == d.len());
            }
        }
    }
}

/// Reading the bytes of a list of entries with increasing keys gives back
/// its number and its entries.
pub proof fn lemma_map_bytes(es: Seq<(u64, u8)>)
    requires
        ascending(es),
        es.len() <= u64::MAX,
    ensures
        le_value(map_bytes(es), 0) == es.len(),
        map_bytes(es).len() == 8 + 9 * es.len(),
        decoded(map_bytes(es), es.len() as int) == es,
        bytes_ok(map_bytes(es)),
{
    let b = map_bytes(es);
    let n = es.len() as u64;
    lemma_entries_bytes(es);
    lemma_le_round_trip(n);
    let lb = le_bytes(n);
    assert forall|j: int| 0 <= j < 8 implies b[j] == lb[j] by {}
    assert(le_value(b, 0) == le_value(lb, 0));
    assert forall|k: int| 0 <= k < es.len() implies #[trigger] decoded_entry(b, k) == es[k] by {
        let eb = entry_bytes(es[k]);
        let kb = le_bytes(es[k].0);
        assert forall|j: int| 0 <= j < 9 implies b[8 + 9 * k + j] == eb[j] by {
            assert(b[8 + 9 * k + j] == entries_bytes(es)[9 * k + j]);
        }
        assert forall|j: int| 0 <= j < 8 implies b[8 + 9 * k + j] == kb[j] by {
            assert(eb[j] == kb[j]);
        }
        lemma_le_round_trip(es[k].0);
        assert(le_value(b, 8 + 9 * k) == le_value(kb, 0));
        assert(b[8 + 9 * k + 8] == eb[8]);
    }
    assert(decoded(b, es.len() as int) =~= es);
}

/// Two maps whose entries are the same list are the same map.
pub proof fn lemma_lists_entries_unique(es: Seq<(u64, u8)>, m1: Map<u64, u8>, m2: Map<u64, u8>)
    requires
        lists_entries(es, m1),
        lists_entries(es, m2),
    ensures
        m1 == m2,
{
    assert forall|k: u64| m1.contains_key(k) == m2.contains_key(k) by {
        if m1.contains_key(k) {
            let i = choose|i: int| 0 <= i < es.len() && es[i].0 == k;
            assert(m2.contains_key(es[i].0));
        }
        if m2.contains_key(k) {
            let i = choose|i: int| 0 <= i < es.len() && es[i].0 == k;
            assert(m1.contains_key(es[i].0));
        }
    }
    assert forall|k: u64| #[trigger] m1.contains_key(k) implies m1[k] == m2[k] by {
        let i = choose|i: int| 0 <= i < es.len() && es[i].0 == k;
        assert(m1[es[i].0] == es[i].1 && m2[es[i].0] == es[i].1);
    }
    assert(m1 =~= m2);
}

/// Writing a map's entries (keys increasing) as bytes and reading them
/// back gives the same map.
pub proof fn law_map_bytes_round_trip(es: Seq<(u64, u8)>, m: Map<u64, u8>, m2: Map<u64, u8>)
    requires
        lists_entries(es, m),
        es.len() <= u64::MAX,
        lists_entries(decoded(map_bytes(es), le_value(map_bytes(es), 0) as int), m2),
    ensures
        bytes_ok(map_bytes(es)),
        m2 == m,
{
    lemma_map_bytes(es);
    lemma_lists_entries_unique(es, m, m2);
}

/// Appends the eight bytes of `x`, lowest first.
pub fn push_le(out: &mut Vec<u8>, x: u64)
    ensures
        final(out)@ == old(out)@ + le_bytes(x),
{
    out.push(x as u8);
    out.push((x >> 8) as u8);
    out.push((x >> 16) as u8);
    out.push((x >> 24) as u8);
    out.push((x >> 32) as u8);
    out.push((x >> 40) as u8);
    out.push((x >> 48) as u8);
    out.push((x >> 56) as u8);
    assert(out@ =~= old(out)@ + le_bytes(x));
}

/// Reads the number whose eight bytes, lowest first, start at `i`.
pub fn read_le(b: &[u8], i: usize) -> (r: u64)
    requires
        i + 8 <= b@.len(),
    ensures
        r == le_value(b@, i as int),
{
    (b[i] as u64) | ((b[i + 1] as u64) << 8) | ((b[i + 2] as u64) << 16) | ((b[i + 3] as u64) << 24) | ((b[i
        + 4] as u64) << 32) | ((b[i + 5] as u64) << 40) | ((b[i + 6] as u64) << 48) | ((b[i + 7] as u64) << 56)
}

/// Returns the entries sorted by key (keys are distinct).
pub fn sort_entries(v: &Vec<(u64, u8)>) -> (r: Vec<(u64, u8)>)
    requires
        forall|i: int, j: int| 0 <= i < j < v@.len() ==> (#[trigger] v@[i]).0 != (#[trigger] v@[j]).0,
    ensures
        ascending(r@),
        r@.len() == v@.len(),
        forall|i: int| 0 <= i < r@.len() ==> v@.contains(#[trigger] r@[i]),
        forall|i: int| 0 <= i < v@.len() ==> r@.contains(#[trigger] v@[i]),
{
    let mut r: Vec<(u64, u8)> = Vec::new();
    let mut i: usize = 0;
    while i < v.len()
        invariant
            0 <= i <= v@.len(),
            forall|a: int, b: int| 0 <= a < b < v@.len() ==> (#[trigger] v@[a]).0 != (#[trigger] v@[b]).0,
            ascending(r@),
            r@.len() == i,
            forall|a: int| 0 <= a < r@.len() ==> v@.take(i as int).contains(#[trigger] r@[a]),
            forall|a: int| 0 <= a < i ==> r@.contains(#[trigger] v@[a]),
        decreases v@.len() - i,
    {
        let e = v[i];
        let mut p: usize = 0;
        while p < r.len() && r[p].0 < e.0
            invariant
                0 <= p <= r@.len(),
                forall|a: int| 0 <= a < p ==> (#[trigger] r@[a]).0 < e.0,
            decreases r@.len() - p,
        {
            p = p + 1;
        }
        let ghost before = r@;
        proof {
            assert forall|a: int| p <= a < before.len() implies (#[trigger] before[a]).0 > e.0 by {
                assert(before[p as int].0 >= e.0);
                if a > p {
                    assert(before[p as int].0 < before[a].0);
                }
                assert(v@.take(i as int).contains(before[a]));
                let w = choose|w: int| 0 <= w < i && v@.take(i as int)[w] == before[a];
                assert(v@[w] == before[a]);
                assert(v@[w].0 != v@[i as int].0);
            }
        }
        r.insert(p, e);
        proof {
            assert(r@ == before.insert(p as int, e));
            assert forall|a: int, b: int| 0 <= a < b < r@.len() implies (#[trigger] r@[a]).0 < (#[trigger] r@[b]).0 by {
                if b < p {
                    assert(r@[a] == before[a] && r@[b] == before[b]);
                } else if b == p {
                    assert(r@[a] == before[a]);
                } else if a < p {
                    assert(r@[a] == before[a] && r@[b] == before[b - 1]);
                } else if a == p {
                    assert(r@[b] == before[b - 1]);
                } else {
                    assert(r@[a] == before[a - 1] && r@[b] == before[b - 1]);
                }
            }
            assert forall|a: int| 0 <= a < r@.len() implies v@.take(i + 1).contains(#[trigger] r@[a]) by {
                if a < p {
                    assert(r@[a] == before[a]);
                    let w = choose|w: int| 0 <= w < i && v@.take(i as int)[w] == before[a];
                    assert(v@.take(i + 1)[w] == before[a]);
                } else if a == p {
                    assert(v@.take(i + 1)[i as int] == e);
                } else {
                    assert(r@[a] == before[a - 1]);
                    let w = choose|w: int| 0 <= w < i && v@.take(i as int)[w] == before[a - 1];
                    assert(v@.take(i + 1)[w] == before[a - 1]);
                }
            }
            assert forall|a: int| 0 <= a < i + 1 implies r@.contains(#[trigger] v@[a]) by {
                if a < i {
                    assert(before.contains(v@[a]));
                    let w = choose|w: int| 0 <= w < before.len() && before[w] == v@[a];
                    if w < p {
                        assert(r@[w] == before[w]);
                    } else {
                        assert(r@[w + 1] == before[w]);
                    }
                } else {
                    assert(r@[p as int] == e);
                }
            }
        }
        i = i + 1;
    }
    proof {
        assert(v@.take(v@.len() as int) =~= v@);
    }
    r
}

} // verus!
