//! Prime factorization of 64-bit integers.

use vstd::prelude::*;
use vstd::arithmetic::div_mod::{lemma_div_is_ordered_by_denominator, lemma_fundamental_div_mod};
use crate::algorithm::{Algorithm, AlgorithmError, Complexity};
use crate::divisibility::{
    divides, gcd, lemma_coprime_divides_product, lemma_divides_bounded, lemma_divides_exact,
    lemma_divides_multiple, lemma_divides_transitive, lemma_gcd_divides,
};

verus! {

/// `p` is at least two and has no divisor other than one and itself.
pub open spec fn is_prime(p: nat) -> bool {
    p >= 2 && forall|k: nat| #[trigger] divides(k, p) ==> k == 1 || k == p
}

/// The product of the elements of `s`; one for the empty sequence.
pub open spec fn product(s: Seq<u64>) -> nat
    decreases s.len(),
{
    if s.len() == 0 {
        1
    } else {
        product(s.drop_last()) * (s.last() as nat)
    }
}

/// `s` lists the prime factors of `n` with multiplicity, smallest first.
pub open spec fn is_prime_factorization(n: nat, s: Seq<u64>) -> bool {
    &&& forall|i: int| 0 <= i < s.len() ==> is_prime(#[trigger] s[i] as nat)
    &&& forall|i: int, j: int| 0 <= i <= j < s.len() ==> s[i] <= s[j]
    &&& product(s) == n
}

/// `m` has no divisor from two up to, but not including, `d`.
pub open spec fn no_divisor_below(m: nat, d: nat) -> bool {
    forall|k: nat| 2 <= k < d ==> !#[trigger] divides(k, m)
}

/// A divisor of `m` that is no larger than any other divisor above one is prime.
proof fn lemma_least_divisor_is_prime(m: nat, d: nat)
    requires
        d >= 2,
        divides(d, m),
        no_divisor_below(m, d),
    ensures
        is_prime(d),
{
    assert forall|k: nat| #[trigger] divides(k, d) implies k == 1 || k == d by {
        lemma_divides_bounded(k, d);
        if 2 <= k < d {
            lemma_divides_transitive(k, d, m);
        }
    }
}

/// A number above one with no divisor up to its square root is prime.
proof fn lemma_no_small_divisor_is_prime(m: nat, d: nat)
    requires
        m >= 2,
        d >= 2,
        d * d > m,
        no_divisor_below(m, d),
    ensures
        is_prime(m),
        m >= d,
{
    lemma_divides_multiple(m, 1);
    assert(divides(m, m));
    assert forall|k: nat| #[trigger] divides(k, m) implies k == 1 || k == m by {
        lemma_divides_bounded(k, m);
        if 2 <= k < m {
            lemma_divides_exact(k, m);
            let j = m / k;
            lemma_divides_multiple(j, k);
            assert(divides(j, m));
            assert(j >= 2) by (nonlinear_arith)
                requires
                    m == k * j,
                    k < m,
                    k >= 2,
                    j >= 0,
            ;
            assert(k >= d);
            assert(j >= d);
            assert(false) by (nonlinear_arith)
                requires
                    m == k * j,
                    k >= d,
                    j >= d,
                    d * d > m,
                    d >= 2,
            ;
        }
    }
}

/// Removing a factor keeps small divisors out.
proof fn lemma_quotient_has_no_small_divisor(m: nat, d: nat)
    requires
        d >= 2,
        divides(d, m),
        m > 0,
        no_divisor_below(m, d),
    ensures
        no_divisor_below(m / d, d),
        m / d >= 1,
        m / d < m,
        (m / d) * d == m,
{
    lemma_divides_exact(d, m);
    let q = m / d;
    lemma_divides_multiple(q, d);
    assert(q >= 1 && q < m) by (nonlinear_arith)
        requires
            m == d * q,
            m > 0,
            d >= 2,
            q >= 0,
    ;
    assert forall|k: nat| 2 <= k < d implies !#[trigger] divides(k, q) by {
        if divides(k, q) {
            lemma_divides_transitive(k, q, m);
        }
    }
}

/// A prime that divides a product divides one of the two factors.
proof fn lemma_prime_divides_factor(p: nat, a: nat, b: nat)
    requires
        is_prime(p),
        divides(p, a * b),
    ensures
        divides(p, a) || divides(p, b),
{
    lemma_gcd_divides(p, a);
    if gcd(p, a) == 1 {
        lemma_coprime_divides_product(p, a, b);
    }
}

/// The last element of a sequence divides its product.
proof fn lemma_last_divides_product(s: Seq<u64>)
    requires
        s.len() > 0,
    ensures
        divides(s.last() as nat, product(s)),
{
    lemma_divides_multiple(s.last() as nat, product(s.drop_last()));
}

/// A prime that divides a product of primes is one of them.
proof fn lemma_prime_divisor_occurs(p: nat, s: Seq<u64>)
    requires
        is_prime(p),
        forall|i: int| 0 <= i < s.len() ==> is_prime(#[trigger] s[i] as nat),
        divides(p, product(s)),
    ensures
        exists|i: int| 0 <= i < s.len() && #[trigger] s[i] == p,
    decreases s.len(),
{
    if s.len() == 0 {
        lemma_divides_bounded(p, 1);
    } else {
        let last = s.last() as nat;
        lemma_prime_divides_factor(p, product(s.drop_last()), last);
        if divides(p, last) {
            assert(is_prime(s[s.len() - 1] as nat));
            assert(s[s.len() - 1] == p);
        } else {
            let rest = s.drop_last();
            assert forall|i: int| 0 <= i < rest.len() implies is_prime(
                #[trigger] rest[i] as nat,
            ) by {
                assert(rest[i] == s[i]);
            }
            lemma_prime_divisor_occurs(p, rest);
            let i = choose|i: int| 0 <= i < rest.len() && #[trigger] rest[i] == p;
            assert(s[i] == p);
        }
    }
}

/// Dropping the last factor leaves a factorization of the quotient.
proof fn lemma_factorization_without_last(n: nat, s: Seq<u64>)
    requires
        s.len() > 0,
        is_prime_factorization(n, s),
    ensures
        is_prime_factorization(product(s.drop_last()), s.drop_last()),
{
    let rest = s.drop_last();
    assert forall|i: int| 0 <= i < rest.len() implies is_prime(#[trigger] rest[i] as nat) by {
        assert(rest[i] == s[i]);
    }
    assert forall|i: int, j: int| 0 <= i <= j < rest.len() implies rest[i] <= rest[j] by {
        assert(rest[i] == s[i] && rest[j] == s[j]);
    }
}

/// A number has only one prime factorization: two ascending sequences of
/// primes with the same product are the same sequence.
pub proof fn law_prime_factorization_unique(n: nat, s: Seq<u64>, t: Seq<u64>)
    requires
        is_prime_factorization(n, s),
        is_prime_factorization(n, t),
    ensures
        s == t,
    decreases s.len(),
{
    if s.len() == 0 || t.len() == 0 {
        if s.len() > 0 {
            lemma_last_divides_product(s);
            assert(is_prime(s[s.len() - 1] as nat));
            lemma_divides_bounded(s.last() as nat, 1);
        }
        if t.len() > 0 {
            lemma_last_divides_product(t);
            assert(is_prime(t[t.len() - 1] as nat));
            lemma_divides_bounded(t.last() as nat, 1);
        }
        assert(s =~= t);
    } else {
        let a = s.last();
        let b = t.last();
        assert(is_prime(s[s.len() - 1] as nat));
        assert(is_prime(t[t.len() - 1] as nat));
        lemma_last_divides_product(s);
        lemma_last_divides_product(t);
        lemma_prime_divisor_occurs(a as nat, t);
        lemma_prime_divisor_occurs(b as nat, s);
        let i = choose|i: int| 0 <= i < t.len() && #[trigger] t[i] == a;
        let j = choose|j: int| 0 <= j < s.len() && #[trigger] s[j] == b;
        assert(t[i] <= t[t.len() - 1]);
        assert(s[j] <= s[s.len() - 1]);
        assert(a == b);
        let (ps, pt) = (product(s.drop_last()), product(t.drop_last()));
        assert(ps == pt) by (nonlinear_arith)
            requires
                ps * (a as nat) == pt * (a as nat),
                a >= 2,
        ;
        lemma_factorization_without_last(n, s);
        lemma_factorization_without_last(n, t);
        law_prime_factorization_unique(ps, s.drop_last(), t.drop_last());
        assert(s =~= s.drop_last().push(a));
        assert(t =~= t.drop_last().push(b));
    }
}

/// The problem of factoring `n` into primes.
///
/// The search is by trial division, whose running time grows exponentially
/// with the number of digits of `n`.
pub struct Factorization {
    pub n: u64,
}

impl Algorithm for Factorization {
    type Output = u64;

    open spec fn admits(self, outcome: Result<Seq<u64>, AlgorithmError>) -> bool {
        match outcome {
            Ok(s) => self.n != 0 && is_prime_factorization(self.n as nat, s),
            Err(e) => self.n == 0 && e == AlgorithmError::InvalidInput,
        }
    }

    /// The prime factors of `n` with multiplicity, smallest first: none for
    /// one, `n` itself for a prime. Zero has no factorization.
    fn compute(self) -> (r: Result<Vec<u64>, AlgorithmError>)
        ensures
            self.n == 0 <==> r == Err::<Vec<u64>, AlgorithmError>(AlgorithmError::InvalidInput),
            self.n != 0 <==> r is Ok,
            r matches Ok(v) ==> is_prime_factorization(self.n as nat, v@),
    {
        if self.n == 0 {
            return Err(AlgorithmError::InvalidInput);
        }
        let mut out: Vec<u64> = Vec::new();
        let mut m: u64 = self.n;
        let mut d: u64 = 2;
        assert(product(out@) == 1);
        while d <= m / d
            invariant
                d >= 2,
                m >= 1,
                product(out@) * m == self.n,
                no_divisor_below(m as nat, d as nat),
                forall|i: int| 0 <= i < out@.len() ==> is_prime(#[trigger] out@[i] as nat),
                forall|i: int, j: int| 0 <= i <= j < out@.len() ==> out@[i] <= out@[j],
                forall|i: int| 0 <= i < out@.len() ==> #[trigger] out@[i] <= d,
            decreases m, m - d,
        {
            proof {
                lemma_div_is_ordered_by_denominator(m as int, 2, d as int);
            }
            if m % d == 0 {
                proof {
                    lemma_least_divisor_is_prime(m as nat, d as nat);
                    lemma_quotient_has_no_small_divisor(m as nat, d as nat);
                    let grown = out@.push(d);
                    assert(grown.drop_last() =~= out@);
                    assert(product(grown) * (m / d) == self.n) by (nonlinear_arith)
                        requires
                            product(grown) == product(out@) * d,
                            product(out@) * m == self.n,
                            (m / d) * d == m,
                    ;
                }
                out.push(d);
                m = m / d;
            } else {
                d = d + 1;
            }
        }
        proof {
            lemma_fundamental_div_mod(m as int, d as int);
            assert(d * d > m) by (nonlinear_arith)
                requires
                    m == d * (m / d) + m % d,
                    0 <= m % d < d,
                    d > m / d,
                    m / d >= 0,
            ;
        }
        if m > 1 {
            proof {
                lemma_no_small_divisor_is_prime(m as nat, d as nat);
                let grown = out@.push(m);
                assert(grown.drop_last() =~= out@);
                assert(product(grown) == self.n);
            }
            out.push(m);
            assert(forall|i: int| 0 <= i < out@.len() ==> is_prime(#[trigger] out@[i] as nat));
            assert(forall|i: int, j: int| 0 <= i <= j < out@.len() ==> out@[i] <= out@[j]);
        } else {
            assert(product(out@) == self.n) by (nonlinear_arith)
                requires
                    product(out@) * m == self.n,
                    m == 1,
            ;
        }
        assert(is_prime_factorization(self.n as nat, out@));
        Ok(out)
    }

    fn complexity() -> (c: Complexity)
        ensures
            c == Complexity::Exponential,
    {
        Complexity::Exponential
    }
}

} // verus!
