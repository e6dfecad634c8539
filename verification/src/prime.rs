//! The arithmetic that makes every Maglev permutation a bijection: the table
//! size is prime, so multiplication by a nonzero step is injective modulo it.

use vstd::prelude::*;
use vstd::arithmetic::div_mod::*;
use vstd::arithmetic::mul::*;
use crate::common::M;

verus! {

/// No number strictly between `1` and the table size divides the table size.
pub proof fn table_size_is_prime(d: int)
    requires
        2 <= d < M,
    ensures
        (M as int) % d != 0,
{
    assert(forall|a: u32| 2 <= a <= 256 ==> #[trigger] (65537u32 % a) != 0) by (bit_vector);
    if (M as int) % d == 0 {
        let q = (M as int) / d;
        lemma_fundamental_div_mod(M as int, d);
        assert(d * q == M);
        if d <= 256 {
            let a = d as u32;
            assert(65537u32 % a != 0);
        } else {
            assert(q <= 256) by (nonlinear_arith)
                requires d * q == 65537, d >= 257;
            assert(q >= 2) by (nonlinear_arith)
                requires d * q == 65537, d < 65537, d >= 2;
            lemma_fundamental_div_mod_converse(M as int, q, d, 0);
            let a = q as u32;
            assert(65537u32 % a != 0);
        }
    }
}

/// Euclid's lemma for the table size: if it divides `a * b` and `a` lies
/// strictly between zero and it, then it divides `b`.
pub proof fn table_size_divides_factor(a: int, b: int)
    requires
        1 <= a < M,
        (a * b) % (M as int) == 0,
    ensures
        b % (M as int) == 0,
    decreases a,
{
    let m = M as int;
    if a > 1 {
        let q = m / a;
        let r = m % a;
        table_size_is_prime(a);
        lemma_fundamental_div_mod(m, a);
        lemma_mod_bound(m, a);
        let k = (a * b) / m;
        lemma_fundamental_div_mod(a * b, m);
        assert(r * b == m * (b - q * k)) by (nonlinear_arith)
            requires m == a * q + r, a * b == m * k;
        lemma_mod_multiples_basic(b - q * k, m);
        lemma_mul_is_commutative(b - q * k, m);
        table_size_divides_factor(r, b);
    } else {
        assert(a * b == b);
    }
}

} // verus!
