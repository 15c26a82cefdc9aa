//! Arbitrary-precision integers as sequences of 64-bit limbs.
//!
//! The limbs are stored least significant first, in radix 2^64. The types
//! carry values into and out of algorithms; they define no arithmetic.

use vstd::prelude::*;

verus! {

/// The number with the given unsigned limbs, least significant first.
pub open spec fn unsigned_value(limbs: Seq<u64>) -> nat
    decreases limbs.len(),
{
    if limbs.len() == 0 {
        0
    } else {
        (limbs[0] as nat) + 0x1_0000_0000_0000_0000 * unsigned_value(limbs.drop_first())
    }
}

/// The number with the given signed limbs, least significant first: the sum
/// of each limb times its power of 2^64.
pub open spec fn signed_value(limbs: Seq<i64>) -> int
    decreases limbs.len(),
{
    if limbs.len() == 0 {
        0
    } else {
        (limbs[0] as int) + 0x1_0000_0000_0000_0000 * signed_value(limbs.drop_first())
    }
}

/// Limbs that are all zero stand for zero; any other limb makes the number
/// positive.
proof fn lemma_unsigned_value_zero(limbs: Seq<u64>)
    ensures
        (forall|k: int| 0 <= k < limbs.len() ==> limbs[k] == 0) <==> unsigned_value(limbs) == 0,
    decreases limbs.len(),
{
    if limbs.len() > 0 {
        let rest = limbs.drop_first();
        lemma_unsigned_value_zero(rest);
        if forall|k: int| 0 <= k < limbs.len() ==> limbs[k] == 0 {
            assert forall|k: int| 0 <= k < rest.len() implies rest[k] == 0 by {
                assert(rest[k] == limbs[k + 1]);
            }
        } else {
            let k = choose|k: int| 0 <= k < limbs.len() && limbs[k] != 0;
            if k > 0 {
                assert(rest[k - 1] == limbs[k]);
            }
        }
    }
}

/// An unsigned integer of any size.
#[derive(Clone, Debug, PartialEq, Eq)]
pub struct Ubig(Vec<u64>);

impl View for Ubig {
    type V = Seq<u64>;

    closed spec fn view(&self) -> Seq<u64> {
        self.0@
    }
}

impl Ubig {
    /// The number that the limbs stand for.
    pub open spec fn value(&self) -> nat {
        unsigned_value(self@)
    }

    /// The integer with the given limbs, least significant first.
    pub fn from_limbs(limbs: Vec<u64>) -> (r: Ubig)
        ensures
            r@ == limbs@,
    {
        Ubig(limbs)
    }

    /// The limbs, least significant first.
    pub fn limbs(&self) -> (l: &Vec<u64>)
        ensures
            l@ == self@,
    {
        &self.0
    }

    /// The 64-bit number `n` as a single limb.
    pub fn from_u64(n: u64) -> (r: Ubig)
        ensures
            r@ == seq![n],
            r.value() == n,
    {
        let mut limbs: Vec<u64> = Vec::new();
        limbs.push(n);
        proof {
            assert(limbs@ =~= seq![n]);
            assert(limbs@.drop_first() =~= Seq::<u64>::empty());
            assert(unsigned_value(limbs@.drop_first()) == 0);
        }
        Ubig(limbs)
    }

    /// The number as 64 bits, if it is that small.
    pub fn to_u64(&self) -> (r: Option<u64>)
        ensures
            r == if self.value() <= u64::MAX {
                Some(self.value() as u64)
            } else {
                None
            },
    {
        if self.0.len() == 0 {
            return Some(0);
        }
        let ghost rest = self.0@.drop_first();
        proof {
            lemma_unsigned_value_zero(rest);
        }
        let mut i: usize = 1;
        while i < self.0.len()
            invariant
                1 <= i <= self.0@.len(),
                rest == self.0@.drop_first(),
                forall|k: int| 0 <= k < i - 1 ==> rest[k] == 0,
                (forall|k: int| 0 <= k < rest.len() ==> rest[k] == 0) <==> unsigned_value(rest)
                    == 0,
            decreases self.0@.len() - i,
        {
            if self.0[i] != 0 {
                assert(rest[i - 1] != 0);
                return None;
            }
            i += 1;
        }
        Some(self.0[0])
    }
}

/// A signed integer of any size.
#[derive(Clone, Debug, PartialEq, Eq)]
pub struct Ibig(Vec<i64>);

impl View for Ibig {
    type V = Seq<i64>;

    closed spec fn view(&self) -> Seq<i64> {
        self.0@
    }
}

impl Ibig {
    /// The number that the limbs stand for.
    pub open spec fn value(&self) -> int {
        signed_value(self@)
    }

    /// The integer with the given limbs, least significant first.
    pub fn from_limbs(limbs: Vec<i64>) -> (r: Ibig)
        ensures
            r@ == limbs@,
    {
        Ibig(limbs)
    }

    /// The limbs, least significant first.
    pub fn limbs(&self) -> (l: &Vec<i64>)
        ensures
            l@ == self@,
    {
        &self.0
    }
}

} // verus!
