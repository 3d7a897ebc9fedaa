use vstd::prelude::*;

use super::Twist;

verus! {

/// Whether bit `k` (in `0..8`) of `b` is set.
pub open spec fn bit_set(b: u8, k: int) -> bool {
    (b >> (k as u8)) & 1 == 1
}

proof fn lemma_mask(b: u8, k: u8)
    requires
        k < 8,
    ensures
        (b & (1u8 << k) != 0) == bit_set(b, k as int),
        forall|j: u8| j < 8 ==> #[trigger] bit_set(b | (1u8 << k), j as int) == (bit_set(b, j as int) || j == k),
{
    assert((b & (1u8 << k) != 0) == ((b >> k) & 1 == 1)) by (bit_vector)
        requires
            k < 8,
    ;
    assert forall|j: u8| j < 8 implies #[trigger] bit_set(b | (1u8 << k), j as int) == (bit_set(b, j as int) || j == k) by {
        assert((((b | (1u8 << k)) >> j) & 1 == 1) == (((b >> j) & 1 == 1) || j == k)) by (bit_vector)
            requires
                k < 8,
                j < 8,
        ;
    }
}

/// Packed bitmask of twists: bit `i % 8` of byte `i / 8` is set when the
/// twist with index `i` is in the set.
#[derive(Debug, Default, Clone, PartialEq, Eq, Hash)]
pub struct TwistSet(pub [u8; 23]);

impl TwistSet {
    /// Whether the twist with index `i` is in the set.
    pub open spec fn has(self, i: int) -> bool {
        bit_set(self.0[i / 8], i % 8)
    }

    /// The set of all twists.
    #[verifier::spinoff_prover]
    pub fn all() -> (r: TwistSet)
        ensures
            forall|i: int| 0 <= i < 184 ==> #[trigger] r.has(i),
    {
        let r = TwistSet([255u8; 23]);
        assert forall|i: int| 0 <= i < 184 implies #[trigger] r.has(i) by {
            assert(r.0[i / 8] == 255u8);
            let k = (i % 8) as u8;
            assert((255u8 >> k) & 1 == 1) by (bit_vector)
                requires
                    k < 8,
            ;
        }
        r
    }

    /// The empty set.
    #[verifier::spinoff_prover]
    pub fn empty() -> (r: TwistSet)
        ensures
            forall|i: int| 0 <= i < 184 ==> !#[trigger] r.has(i),
    {
        let r = TwistSet([0u8, 0, 0, 0, 0, 0, 0, 0, 0, 0, 0, 0, 0, 0, 0, 0, 0, 0, 0, 0, 0, 0, 0]);
        assert forall|i: int| 0 <= i < 184 implies !#[trigger] r.has(i) by {
            assert(r.0[i / 8] == 0u8);
            let k = (i % 8) as u8;
            assert((0u8 >> k) & 1 == 0) by (bit_vector);
        }
        r
    }

    /// Returns the byte index and bit mask of a twist.
    fn byte_index_and_mask(twist: Twist) -> (r: (usize, u8))
        ensures
            r.0 == twist.idx() / 8,
            r.0 < 23,
            r.1 == 1u8 << (twist.idx() % 8) as u8,
            (twist.idx() % 8) < 8,
    {
        let i = twist.index();
        let index = (i >> 3) as usize;
        let shift = i & 7;
        assert(i >> 3 == i / 8 && i & 7 == i % 8) by (bit_vector);
        (index, 1u8 << shift)
    }

    /// Returns whether a twist is in the set.
    pub fn contains(&self, twist: Twist) -> (r: bool)
        ensures
            r == self.has(twist.idx()),
    {
        let (index, mask) = Self::byte_index_and_mask(twist);
        proof {
            lemma_mask(self.0[index as int], (twist.idx() % 8) as u8);
        }
        self.0[index] & mask != 0
    }

    /// Adds a twist to the set.
    pub fn insert(&mut self, twist: Twist)
        ensures
            forall|i: int| 0 <= i < 184 ==> #[trigger] final(self).has(i) == (old(self).has(i) || i == twist.idx()),
    {
        let (index, mask) = Self::byte_index_and_mask(twist);
        let ghost k = (twist.idx() % 8) as u8;
        let ghost b = self.0[index as int];
        proof {
            lemma_mask(b, k);
        }
        self.0[index] = self.0[index] | mask;
        assert forall|i: int| 0 <= i < 184 implies #[trigger] self.has(i) == (old(self).has(i) || i == twist.idx()) by {
            if i / 8 == index {
                assert(bit_set(b | (1u8 << k), (i % 8) as u8 as int) == (bit_set(b, (i % 8) as u8 as int) || (i % 8) as u8 == k));
            }
        }
    }

    /// Constructs the set of the twists in `twists`.
    pub fn from_twists(twists: &Vec<Twist>) -> (r: TwistSet)
        ensures
            forall|i: int| 0 <= i < 184 ==> #[trigger] r.has(i) == exists|j: int| 0 <= j < twists@.len() && (#[trigger] twists@[j]).idx() == i,
    {
        let mut ret = Self::empty();
        let mut n: usize = 0;
        while n < twists.len()
            invariant
                0 <= n <= twists@.len(),
                forall|i: int| 0 <= i < 184 ==> #[trigger] ret.has(i) == exists|j: int| 0 <= j < n && (#[trigger] twists@[j]).idx() == i,
            decreases twists@.len() - n,
        {
            let t = twists[n];
            ret.insert(t);
            proof {
                assert forall|i: int| 0 <= i < 184 implies #[trigger] ret.has(i) == exists|j: int| 0 <= j < n + 1 && (#[trigger] twists@[j]).idx() == i by {
                    if i == t.idx() {
                        assert(twists@[n as int].idx() == i);
                    }
                }
            }
            n = n + 1;
        }
        ret
    }

    /// Returns the twists in the set, in order of index.
    pub fn to_vec(&self) -> (r: Vec<Twist>)
        ensures
            forall|j: int| 0 <= j < r@.len() ==> self.has((#[trigger] r@[j]).idx()),
            forall|j: int, k: int| 0 <= j < k < r@.len() ==> (#[trigger] r@[j]).idx() < (#[trigger] r@[k]).idx(),
            forall|i: int| 0 <= i < 184 && #[trigger] self.has(i) ==> exists|j: int| 0 <= j < r@.len() && (#[trigger] r@[j]).idx() == i,
    {
        let all = Twist::iter();
        let mut ret: Vec<Twist> = Vec::new();
        let mut n: usize = 0;
        while n < all.len()
            invariant
                0 <= n <= 184,
                all@.len() == 184,
                forall|i: int| 0 <= i < 184 ==> (#[trigger] all@[i]).idx() == i,
                forall|j: int| 0 <= j < ret@.len() ==> self.has((#[trigger] ret@[j]).idx()) && ret@[j].idx() < n,
                forall|j: int, k: int| 0 <= j < k < ret@.len() ==> (#[trigger] ret@[j]).idx() < (#[trigger] ret@[k]).idx(),
                forall|i: int| 0 <= i < n && #[trigger] self.has(i) ==> exists|j: int| 0 <= j < ret@.len() && (#[trigger] ret@[j]).idx() == i,
            decreases 184 - n,
        {
            let t = all[n];
            let ghost old_ret = ret@;
            if self.contains(t) {
                ret.push(t);
                assert(ret@[ret@.len() - 1].idx() == n);
            }
            assert forall|i: int| 0 <= i < n + 1 && #[trigger] self.has(i) implies exists|j: int| 0 <= j < ret@.len() && (#[trigger] ret@[j]).idx() == i by {
                if i < n {
                    let j = choose|j: int| 0 <= j < old_ret.len() && (#[trigger] old_ret[j]).idx() == i;
                    assert(ret@[j] == old_ret[j]);
                } else {
                    assert(ret@[ret@.len() - 1].idx() == i);
                }
            }
            n = n + 1;
        }
        ret
    }

    /// Constructs the set of the twists for which `predicate` returns `true`.
    pub fn new<P: Fn(Twist) -> bool>(predicate: P) -> (r: TwistSet)
        requires
            forall|i: int| 0 <= i < 184 ==> call_requires(predicate, (Twist::spec_from_index(i),)),
        ensures
            forall|i: int| 0 <= i < 184 ==> call_ensures(predicate, (Twist::spec_from_index(i),), #[trigger] r.has(i)),
    {
        let mut ret = Self::empty();
        let mut n: u8 = 0;
        while n < 184
            invariant
                0 <= n <= 184,
                forall|i: int| 0 <= i < 184 ==> call_requires(predicate, (Twist::spec_from_index(i),)),
                forall|i: int| 0 <= i < n ==> call_ensures(predicate, (Twist::spec_from_index(i),), #[trigger] ret.has(i)),
                forall|i: int| n <= i < 184 ==> !#[trigger] ret.has(i),
            decreases 184 - n,
        {
            let t = Twist::from_index(n);
            let b = predicate(t);
            if b {
                ret.insert(t);
            }
            n = n + 1;
        }
        ret
    }

    /// Returns the subset of the twists in the set for which `predicate`
    /// returns `true`.
    pub fn filter<P: Fn(Twist) -> bool>(&self, predicate: P) -> (r: TwistSet)
        requires
            forall|i: int| 0 <= i < 184 ==> call_requires(predicate, (Twist::spec_from_index(i),)),
        ensures
            forall|i: int| 0 <= i < 184 && !self.has(i) ==> !#[trigger] r.has(i),
            forall|i: int| 0 <= i < 184 && self.has(i) ==> call_ensures(predicate, (Twist::spec_from_index(i),), #[trigger] r.has(i)),
    {
        let mut ret = Self::empty();
        let mut n: u8 = 0;
        while n < 184
            invariant
                0 <= n <= 184,
                forall|i: int| 0 <= i < 184 ==> call_requires(predicate, (Twist::spec_from_index(i),)),
                forall|i: int| 0 <= i < n && !self.has(i) ==> !#[trigger] ret.has(i),
                forall|i: int| 0 <= i < n && self.has(i) ==> call_ensures(predicate, (Twist::spec_from_index(i),), #[trigger] ret.has(i)),
                forall|i: int| n <= i < 184 ==> !#[trigger] ret.has(i),
            decreases 184 - n,
        {
            let t = Twist::from_index(n);
            if self.contains(t) {
                let b = predicate(t);
                if b {
                    ret.insert(t);
                }
            }
            n = n + 1;
        }
        ret
    }

    /// Returns the twists in the set, in order of index.
    pub fn iter(&self) -> (r: Vec<Twist>)
        ensures
            forall|j: int| 0 <= j < r@.len() ==> self.has((#[trigger] r@[j]).idx()),
            forall|i: int| 0 <= i < 184 && #[trigger] self.has(i) ==> exists|j: int| 0 <= j < r@.len() && (#[trigger] r@[j]).idx() == i,
    {
        self.to_vec()
    }
}

} // verus!
