//! Prime numbers, and why stepping by a fixed stride visits every slot of a prime-sized table.
use vstd::prelude::*;

verus! {

/// Whether `n` is prime.
pub open spec fn is_prime(n: int) -> bool {
    &&& n >= 2
    &&& forall|d: int| 2 <= d < n ==> #[trigger] (n % d) != 0
}

/// The slot at position `j` of the walk through `m` slots that starts at `offset` and advances by
/// `skip`.
pub open spec fn stride(offset: int, skip: int, m: int, j: int) -> int {
    (offset + j * skip) % m
}

/// Tests whether `n` is prime by trial division.
pub fn check_prime(n: u32) -> (r: bool)
    ensures
        r == is_prime(n as int),
{
    if n < 2 {
        return false;
    }
    let wide: u64 = n as u64;
    let mut d: u64 = 2;
    let mut square: u64 = 4;
    while square <= wide
        invariant
            wide == n,
            square == d * d,
            2 <= d <= 0x1_0000,
            2 <= wide <= u32::MAX,
            forall|e: int| 2 <= e < d ==> #[trigger] (n as int % e) != 0,
        decreases wide - d,
    {
        assert(d <= 0xffff) by (nonlinear_arith)
            requires
                d * d <= 0xffff_ffff,
        ;
        assert(d < wide) by (nonlinear_arith)
            requires
                d * d <= wide,
                d >= 2,
        ;
        if wide % d == 0 {
            assert((n as int) % (d as int) == 0);
            return false;
        }
        d = d + 1;
        assert(d * d <= 0x1_0000_0000) by (nonlinear_arith)
            requires
                d <= 0x1_0000,
        ;
        square = d * d;
    }
    proof {
        assert forall|e: int| 2 <= e < n implies #[trigger] (n as int % e) != 0 by {
            if (n as int) % e == 0 {
                lemma_cofactor(n as int, e, d as int);
            }
        }
    }
    true
}

/// A divisor at or above a bound whose square exceeds `n` leaves a cofactor below the bound.
proof fn lemma_cofactor(n: int, e: int, bound: int)
    requires
        2 <= e < n,
        n % e == 0,
        2 <= bound,
        n < bound * bound,
    ensures
        e < bound || (2 <= n / e < bound && n % (n / e) == 0),
{
    vstd::arithmetic::div_mod::lemma_fundamental_div_mod(n, e);
    let f = n / e;
    assert(n == e * f);
    if e >= bound {
        assert(2 <= f < bound) by (nonlinear_arith)
            requires
                n == e * f,
                2 <= e < n,
                e >= bound,
                n < bound * bound,
                bound >= 2,
        ;
        vstd::arithmetic::div_mod::lemma_mod_multiples_basic(e, f);
    }
}

/// A prime divides no product of two smaller positive numbers.
pub proof fn lemma_prime_divides_no_small_product(p: int, a: int, b: int)
    requires
        is_prime(p),
        0 < a < p,
        0 < b < p,
    ensures
        (a * b) % p != 0,
    decreases b,
{
    if (a * b) % p == 0 {
        if b == 1 {
            vstd::arithmetic::div_mod::lemma_small_mod(a as nat, p as nat);
            assert(a * b == a) by (nonlinear_arith)
                requires
                    b == 1,
            ;
        } else {
            let q = p / b;
            let r = p % b;
            vstd::arithmetic::div_mod::lemma_fundamental_div_mod(p, b);
            vstd::arithmetic::div_mod::lemma_mod_bound(p, b);
            vstd::arithmetic::div_mod::lemma_fundamental_div_mod(a * b, p);
            let t = (a * b) / p;
            assert(a * r == p * (a - q * t)) by (nonlinear_arith)
                requires
                    p == b * q + r,
                    a * b == p * t,
            ;
            vstd::arithmetic::div_mod::lemma_mod_multiples_basic(a - q * t, p);
            assert((a * r) % p == 0) by {
                assert(p * (a - q * t) == (a - q * t) * p) by (nonlinear_arith);
            }
            lemma_prime_divides_no_small_product(p, a, r);
        }
    }
}

/// A walk of fewer than `m` steps through a prime number of slots meets no slot twice.
pub proof fn lemma_stride_is_injective(offset: int, skip: int, m: int, i: int, j: int)
    requires
        is_prime(m),
        0 < skip < m,
        0 <= i < m,
        0 <= j < m,
        stride(offset, skip, m, i) == stride(offset, skip, m, j),
    ensures
        i == j,
{
    if i < j {
        lemma_stride_is_injective_ordered(offset, skip, m, i, j);
    } else if j < i {
        lemma_stride_is_injective_ordered(offset, skip, m, j, i);
    }
}

proof fn lemma_stride_is_injective_ordered(offset: int, skip: int, m: int, i: int, j: int)
    requires
        is_prime(m),
        0 < skip < m,
        0 <= i < j < m,
    ensures
        stride(offset, skip, m, i) != stride(offset, skip, m, j),
{
    let x = offset + i * skip;
    let y = offset + j * skip;
    vstd::arithmetic::div_mod::lemma_fundamental_div_mod(x, m);
    vstd::arithmetic::div_mod::lemma_fundamental_div_mod(y, m);
    if x % m == y % m {
        let t = y / m - x / m;
        assert((j - i) * skip == t * m) by (nonlinear_arith)
            requires
                x == offset + i * skip,
                y == offset + j * skip,
                x == m * (x / m) + x % m,
                y == m * (y / m) + y % m,
                x % m == y % m,
                t == y / m - x / m,
        ;
        vstd::arithmetic::div_mod::lemma_mod_multiples_basic(t, m);
        lemma_prime_divides_no_small_product(m, j - i, skip);
    }
}

/// A walk of `m` steps through a prime number `m` of slots meets every slot.
pub proof fn lemma_stride_is_surjective(offset: int, skip: int, m: int, slot: int) -> (j: int)
    requires
        is_prime(m),
        0 < skip < m,
        0 <= slot < m,
    ensures
        0 <= j < m,
        stride(offset, skip, m, j) == slot,
{
    let walk = Seq::new(m as nat, |i: int| stride(offset, skip, m, i));
    assert forall|i: int, k: int| 0 <= i < m && 0 <= k < m && i != k implies walk[i] != walk[k] by {
        if walk[i] == walk[k] {
            lemma_stride_is_injective(offset, skip, m, i, k);
        }
    }
    assert(walk.no_duplicates());
    walk.unique_seq_to_set();
    let all = vstd::set_lib::set_int_range(0, m);
    vstd::set_lib::lemma_int_range(0, m);
    assert(walk.to_set().subset_of(all)) by {
        assert forall|s: int| walk.to_set().contains(s) implies all.contains(s) by {
            let i = choose|i: int| 0 <= i < walk.len() && walk[i] == s;
            vstd::arithmetic::div_mod::lemma_mod_bound(offset + i * skip, m);
        }
    }
    vstd::set_lib::lemma_subset_equality(walk.to_set(), all);
    assert(walk.to_set().contains(slot));
    let j = choose|j: int| 0 <= j < walk.len() && walk[j] == slot;
    j
}

/// A number is prime exactly if it is at least two and no product of two numbers from two on.
pub proof fn lemma_prime_has_no_factors(n: int)
    ensures
        is_prime(n) <==> n >= 2 && forall|a: int, b: int| 2 <= a && 2 <= b ==> #[trigger] (a * b)
            != n,
{
    if is_prime(n) {
        assert forall|a: int, b: int| 2 <= a && 2 <= b implies #[trigger] (a * b) != n by {
            if a * b == n {
                assert(a < n) by (nonlinear_arith)
                    requires
                        a * b == n,
                        2 <= a,
                        2 <= b,
                ;
                vstd::arithmetic::div_mod::lemma_mod_multiples_basic(b, a);
                assert(b * a == n) by (nonlinear_arith)
                    requires
                        a * b == n,
                ;
                assert(n % a != 0);
            }
        }
    }
    if n >= 2 && forall|a: int, b: int| 2 <= a && 2 <= b ==> #[trigger] (a * b) != n {
        assert forall|d: int| 2 <= d < n implies #[trigger] (n % d) != 0 by {
            if n % d == 0 {
                let q = n / d;
                vstd::arithmetic::div_mod::lemma_fundamental_div_mod(n, d);
                assert(d * q == n);
                assert(q >= 2) by (nonlinear_arith)
                    requires
                        d * q == n,
                        2 <= d < n,
                ;
            }
        }
    }
}

} // verus!
