use vstd::prelude::*;
use malachite::Natural;
use malachite::base::num::arithmetic::traits::Factorial;
use malachite::base::num::random::random_primitive_ints;
use malachite::base::random::Seed;
use malachite::natural::random::get_random_natural_less_than;

verus! {

/// `n!`
pub open spec fn factorial(n: nat) -> nat
    decreases n,
{
    if n == 0 {
        1
    } else {
        n * factorial((n - 1) as nat)
    }
}

/// The product of the integers `lo..=hi` (1 when the range is empty).
pub open spec fn prod_range(lo: nat, hi: nat) -> nat
    decreases hi,
{
    if hi < lo || hi == 0 {
        1
    } else {
        prod_range(lo, (hi - 1) as nat) * hi
    }
}

/// The number of ways to choose `k` of `n` things, as `n! / (k! (n - k)!)`.
pub open spec fn binomial(n: nat, k: nat) -> nat {
    factorial(n) / (factorial(k) * factorial((n - k) as nat))
}

pub proof fn lemma_factorial_pos(n: nat)
    ensures
        factorial(n) >= 1,
    decreases n,
{
    if n > 0 {
        lemma_factorial_pos((n - 1) as nat);
        assert(n * factorial((n - 1) as nat) >= 1) by (nonlinear_arith)
            requires
                n >= 1,
                factorial((n - 1) as nat) >= 1,
        ;
    }
}

pub proof fn lemma_prod_range_pos(lo: nat, hi: nat)
    requires
        lo >= 1,
    ensures
        prod_range(lo, hi) >= 1,
    decreases hi,
{
    if !(hi < lo || hi == 0) {
        lemma_prod_range_pos(lo, (hi - 1) as nat);
        assert(prod_range(lo, (hi - 1) as nat) * hi >= 1) by (nonlinear_arith)
            requires
                hi >= 1,
                prod_range(lo, (hi - 1) as nat) >= 1,
        ;
    }
}

/// `k! * prod(k+1..=m) == m!`
pub proof fn lemma_prod_range_factorial(k: nat, m: nat)
    requires
        k <= m,
    ensures
        factorial(k) * prod_range(k + 1, m) == factorial(m),
    decreases m,
{
    if m == k {
        assert(prod_range(k + 1, m) == 1);
    } else {
        lemma_prod_range_factorial(k, (m - 1) as nat);
        assert(prod_range(k + 1, m) == prod_range(k + 1, (m - 1) as nat) * m);
        assert(factorial(k) * (prod_range(k + 1, (m - 1) as nat) * m) == (factorial(k) * prod_range(
            k + 1,
            (m - 1) as nat,
        )) * m) by (nonlinear_arith);
        assert(factorial(m) == m * factorial((m - 1) as nat));
        assert(factorial((m - 1) as nat) * m == m * factorial((m - 1) as nat)) by (nonlinear_arith);
    }
}

/// The product of `m` consecutive integers from `a + 1` is at least `m!`.
pub proof fn lemma_prod_range_ge_factorial(a: nat, m: nat)
    ensures
        prod_range(a + 1, a + m) >= factorial(m),
    decreases m,
{
    if m > 0 {
        lemma_prod_range_ge_factorial(a, (m - 1) as nat);
        lemma_factorial_pos((m - 1) as nat);
        assert(prod_range(a + 1, a + m) == prod_range(a + 1, (a + m - 1) as nat) * (a + m));
        assert(factorial(m) == m * factorial((m - 1) as nat));
        assert(prod_range(a + 1, (a + m - 1) as nat) * (a + m) >= m * factorial((m - 1) as nat))
            by (nonlinear_arith)
            requires
                prod_range(a + 1, (a + m - 1) as nat) >= factorial((m - 1) as nat),
                factorial((m - 1) as nat) >= 1,
                m >= 1,
        ;
    }
}

/// `k! (n - k)! <= n!`, and every partial product computed on the way is at most `n!`.
pub proof fn lemma_binomial_parts(n: nat, k: nat)
    requires
        k <= n,
    ensures
        factorial(k) * factorial((n - k) as nat) <= factorial(n),
        factorial(k) >= 1,
        factorial((n - k) as nat) >= 1,
{
    lemma_factorial_pos(k);
    lemma_factorial_pos((n - k) as nat);
    lemma_prod_range_factorial(k, n);
    lemma_prod_range_ge_factorial(k, (n - k) as nat);
    assert(factorial(k) * factorial((n - k) as nat) <= factorial(k) * prod_range(k + 1, n))
        by (nonlinear_arith)
        requires
            factorial((n - k) as nat) <= prod_range(k + 1, n),
            factorial(k) >= 1,
    ;
}

pub proof fn lemma_factorial_monotone(a: nat, b: nat)
    requires
        a <= b,
    ensures
        factorial(a) <= factorial(b),
{
    lemma_binomial_parts(b, a);
    lemma_factorial_pos((b - a) as nat);
    assert(factorial(a) <= factorial(a) * factorial((b - a) as nat)) by (nonlinear_arith)
        requires
            factorial((b - a) as nat) >= 1,
    ;
}

/// Multiplies `acc` by every integer of `lo..=hi`.
fn product_into(acc: usize, lo: usize, hi: usize, Ghost(bound): Ghost<nat>) -> (r: usize)
    requires
        lo >= 1,
        lo <= hi + 1,
        acc * prod_range(lo as nat, hi as nat) == bound,
        bound <= usize::MAX,
    ensures
        r == bound,
{
    let mut f = acc;
    let mut i = lo;
    proof {
        lemma_prod_range_pos(lo as nat, hi as nat);
    }
    while i <= hi
        invariant
            lo >= 1,
            lo <= i,
            i <= hi + 1,
            f * prod_range(i as nat, hi as nat) == bound,
            bound <= usize::MAX,
        decreases hi + 1 - i,
    {
        proof {
            lemma_prod_split(i as nat, hi as nat);
            lemma_prod_range_pos((i + 1) as nat, hi as nat);
            assert(f * i <= bound) by (nonlinear_arith)
                requires
                    f * (i * prod_range((i + 1) as nat, hi as nat)) == bound,
                    prod_range((i + 1) as nat, hi as nat) >= 1,
                    i >= 1,
            ;
            assert((f * i) * prod_range((i + 1) as nat, hi as nat) == bound) by (nonlinear_arith)
                requires
                    f * (i * prod_range((i + 1) as nat, hi as nat)) == bound,
            ;
        }
        f = f * i;
        if i == hi {
            proof {
                assert(prod_range((i + 1) as nat, hi as nat) == 1);
            }
            return f;
        }
        i = i + 1;
    }
    proof {
        assert(prod_range(i as nat, hi as nat) == 1);
        assert(f * 1 == f);
    }
    f
}

/// `prod(i..=hi) == i * prod(i+1..=hi)` for `1 <= i <= hi`.
proof fn lemma_prod_split(i: nat, hi: nat)
    requires
        1 <= i <= hi,
    ensures
        prod_range(i, hi) == i * prod_range(i + 1, hi),
    decreases hi,
{
    if hi == i {
        assert(prod_range(i, (i - 1) as nat) == 1);
        assert(prod_range(i + 1, hi) == 1);
    } else {
        lemma_prod_split(i, (hi - 1) as nat);
        assert(prod_range(i, hi) == prod_range(i, (hi - 1) as nat) * hi);
        assert(prod_range(i + 1, hi) == prod_range(i + 1, (hi - 1) as nat) * hi);
        assert(i * prod_range(i + 1, (hi - 1) as nat) * hi == i * (prod_range(i + 1, (hi - 1) as nat) * hi))
            by (nonlinear_arith);
    }
}

/// The number of ways to choose `k1` of `n` things, computed in `usize` as
/// `n! / (k1! (n - k1)!)`.
pub fn n_choose_k(n: usize, k1: usize) -> (r: usize)
    requires
        k1 <= n,
        factorial(n as nat) <= usize::MAX,
    ensures
        r == binomial(n as nat, k1 as nat),
{
    let ghost k_orig = k1;
    let k2 = n - k1;
    let (k1, k2) = (if k1 < k2 {
        k1
    } else {
        k2
    }, if k1 < k2 {
        k2
    } else {
        k1
    });
    proof {
        lemma_prod_range_factorial(0, k1 as nat);
        lemma_prod_range_factorial(k1 as nat, k2 as nat);
        lemma_prod_range_factorial(k2 as nat, n as nat);
        lemma_factorial_monotone(k1 as nat, n as nat);
        lemma_factorial_monotone(k2 as nat, n as nat);
        lemma_binomial_parts(n as nat, k1 as nat);
        lemma_factorial_pos(k1 as nat);
        lemma_factorial_pos(k2 as nat);
        lemma_factorial_grows(n as nat);
        assert(factorial(0) == 1);
    }
    let f_k1 = product_into(1, 1, k1, Ghost(factorial(k1 as nat)));
    let f_k2 = product_into(f_k1, k1 + 1, k2, Ghost(factorial(k2 as nat)));
    let f_n = product_into(f_k2, k2 + 1, n, Ghost(factorial(n as nat)));
    proof {
        assert(factorial(k1 as nat) * factorial(k2 as nat) == factorial(k_orig as nat) * factorial((n - k_orig) as nat))
            by (nonlinear_arith)
            requires
                (k1 == k_orig && k2 == n - k_orig) || (k2 == k_orig && k1 == n - k_orig),
        ;
    }
    proof {
        assert(f_k1 * f_k2 >= 1) by (nonlinear_arith)
            requires
                f_k1 >= 1,
                f_k2 >= 1,
        ;
    }
    f_n / (f_k1 * f_k2)
}

/// `n! >= n`, and `n! >= 2n` from 3 on.
pub proof fn lemma_factorial_grows(n: nat)
    ensures
        factorial(n) >= n,
        n >= 3 ==> factorial(n) >= 2 * n,
    decreases n,
{
    if n > 0 {
        lemma_factorial_grows((n - 1) as nat);
        lemma_factorial_pos((n - 1) as nat);
        assert(factorial(n) == n * factorial((n - 1) as nat));
        assert(n * factorial((n - 1) as nat) >= n) by (nonlinear_arith)
            requires
                factorial((n - 1) as nat) >= 1,
        ;
        if n >= 3 {
            assert(n * factorial((n - 1) as nat) >= 2 * n) by (nonlinear_arith)
                requires
                    factorial((n - 1) as nat) >= n - 1,
                    n >= 3,
            ;
        }
    }
}

// ---------------------------------------------------------------------------------------------
// Numbers of any size

/// The value of a sequence of 64-bit limbs, least significant first.
pub open spec fn limbs_value(s: Seq<u64>) -> nat
    decreases s.len(),
{
    if s.len() == 0 {
        0
    } else {
        s[0] as nat + 0x1_0000_0000_0000_0000 * limbs_value(s.subrange(1, s.len() as int))
    }
}

/// A natural number of any size, held as 64-bit limbs, least significant first.
pub struct BigNat {
    limbs: Vec<u64>,
}

impl View for BigNat {
    type V = nat;

    closed spec fn view(&self) -> nat {
        limbs_value(self.limbs@)
    }
}

/// Calls `Natural::from(x)`.
#[verifier::external_body]
fn natural_from_u64(x: u64) -> (r: BigNat)
    ensures
        r@ == x,
{
    BigNat { limbs: Natural::from(x).to_limbs_asc() }
}

/// Calls `Natural`'s `+`.
#[verifier::external_body]
fn natural_add(a: &BigNat, b: &BigNat) -> (r: BigNat)
    ensures
        r@ == a@ + b@,
{
    BigNat { limbs: (Natural::from_limbs_asc(&a.limbs) + Natural::from_limbs_asc(&b.limbs)).to_limbs_asc() }
}

/// Calls `Natural`'s `-`, which panics when the result would be negative.
#[verifier::external_body]
fn natural_sub(a: &BigNat, b: &BigNat) -> (r: BigNat)
    requires
        b@ <= a@,
    ensures
        r@ == a@ - b@,
{
    BigNat { limbs: (Natural::from_limbs_asc(&a.limbs) - Natural::from_limbs_asc(&b.limbs)).to_limbs_asc() }
}

/// Calls `Natural`'s `*`.
#[verifier::external_body]
fn natural_mul(a: &BigNat, b: &BigNat) -> (r: BigNat)
    ensures
        r@ == a@ * b@,
{
    BigNat { limbs: (Natural::from_limbs_asc(&a.limbs) * Natural::from_limbs_asc(&b.limbs)).to_limbs_asc() }
}

/// Calls `Natural`'s `/`: the quotient rounded down; it panics on a zero divisor.
#[verifier::external_body]
fn natural_div(a: &BigNat, b: &BigNat) -> (r: BigNat)
    requires
        b@ > 0,
    ensures
        r@ == a@ / b@,
{
    BigNat { limbs: (Natural::from_limbs_asc(&a.limbs) / Natural::from_limbs_asc(&b.limbs)).to_limbs_asc() }
}

/// Calls `Natural`'s `<=`.
#[verifier::external_body]
fn natural_le(a: &BigNat, b: &BigNat) -> (r: bool)
    ensures
        r == (a@ <= b@),
{
    Natural::from_limbs_asc(&a.limbs) <= Natural::from_limbs_asc(&b.limbs)
}

/// Calls `Natural::factorial(n)`: `n!`.
#[verifier::external_body]
fn natural_factorial(n: u64) -> (r: BigNat)
    ensures
        r@ == factorial(n as nat),
{
    BigNat { limbs: Natural::factorial(n).to_limbs_asc() }
}

/// Calls `u64::factorial(n)` (from `malachite`), which panics when `n!` does not fit.
#[verifier::external_body]
fn u64_factorial(n: u64) -> (r: u64)
    requires
        factorial(n as nat) <= u64::MAX,
    ensures
        r == factorial(n as nat),
{
    u64::factorial(n)
}

/// The number that `get_random_natural_less_than` draws below `bound` from the generator
/// `random_primitive_ints` seeded with `seed`.
pub uninterp spec fn seeded_natural_below(seed: Seq<u8>, bound: nat) -> nat;

/// Calls `get_random_natural_less_than` with the generator `random_primitive_ints::<u64>`
/// seeded with `seed`: a number below `bound` (the function panics on a zero bound), which the
/// seed and the bound determine.
#[verifier::external_body]
pub(crate) fn natural_below(seed: [u8; 32], bound: &BigNat) -> (r: BigNat)
    requires
        bound@ > 0,
    ensures
        r@ == seeded_natural_below(seed@, bound@),
        r@ < bound@,
{
    let mut ints = random_primitive_ints::<u64>(Seed { bytes: seed });
    BigNat { limbs: get_random_natural_less_than(&mut ints, &Natural::from_limbs_asc(&bound.limbs)).to_limbs_asc() }
}

impl BigNat {
    pub fn from_u64(x: u64) -> (r: Self)
        ensures
            r@ == x,
    {
        natural_from_u64(x)
    }

    pub fn zero() -> (r: Self)
        ensures
            r@ == 0,
    {
        natural_from_u64(0)
    }

    pub fn add(&self, other: &Self) -> (r: Self)
        ensures
            r@ == self@ + other@,
    {
        natural_add(self, other)
    }

    pub fn sub(&self, other: &Self) -> (r: Self)
        requires
            other@ <= self@,
        ensures
            r@ == self@ - other@,
    {
        natural_sub(self, other)
    }

    pub fn mul(&self, other: &Self) -> (r: Self)
        ensures
            r@ == self@ * other@,
    {
        natural_mul(self, other)
    }

    pub fn div(&self, other: &Self) -> (r: Self)
        requires
            other@ > 0,
        ensures
            r@ == self@ / other@,
    {
        natural_div(self, other)
    }

    pub fn le(&self, other: &Self) -> (r: bool)
        ensures
            r == (self@ <= other@),
    {
        natural_le(self, other)
    }

    pub fn factorial(n: u64) -> (r: Self)
        ensures
            r@ == factorial(n as nat),
    {
        natural_factorial(n)
    }

    pub fn clone(&self) -> (r: Self)
        ensures
            r@ == self@,
    {
        let mut limbs: Vec<u64> = Vec::new();
        let mut i: usize = 0;
        while i < self.limbs.len()
            invariant
                i <= self.limbs@.len(),
                limbs@ == self.limbs@.take(i as int),
            decreases self.limbs.len() - i,
        {
            limbs.push(self.limbs[i]);
            i = i + 1;
            assert(limbs@ == self.limbs@.take(i as int));
        }
        assert(limbs@ == self.limbs@);
        BigNat { limbs }
    }

    /// The limbs, least significant first.
    pub fn limbs(&self) -> (r: &Vec<u64>)
        ensures
            limbs_value(r@) == self@,
    {
        &self.limbs
    }

    /// The number with the given limbs, least significant first.
    pub fn from_limbs(limbs: Vec<u64>) -> (r: Self)
        ensures
            r@ == limbs_value(limbs@),
    {
        BigNat { limbs }
    }
}

/// The number of ways to choose `k` of `n` things, computed as `n! / (k! (n - k)!)` in `u64`.
pub fn n_choose_k_u64(n: u64, k: u64) -> (r: u64)
    requires
        k <= n,
        factorial(n as nat) <= u64::MAX,
    ensures
        r == binomial(n as nat, k as nat),
{
    proof {
        lemma_binomial_parts(n as nat, k as nat);
        lemma_factorial_monotone(k as nat, n as nat);
        lemma_factorial_monotone((n - k) as nat, n as nat);
        assert(factorial(k as nat) * factorial((n - k) as nat) >= 1) by (nonlinear_arith)
            requires
                factorial(k as nat) >= 1,
                factorial((n - k) as nat) >= 1,
        ;
    }
    u64_factorial(n) / (u64_factorial(k) * u64_factorial(n - k))
}

/// The number of ways to choose `k` of `n` things, as `n! / (k! (n - k)!)`.
pub fn n_choose_k_natural(n: u64, k: u64) -> (r: BigNat)
    requires
        k <= n,
    ensures
        r@ == binomial(n as nat, k as nat),
{
    proof {
        lemma_binomial_parts(n as nat, k as nat);
        assert(factorial(k as nat) * factorial((n - k) as nat) >= 1) by (nonlinear_arith)
            requires
                factorial(k as nat) >= 1,
                factorial((n - k) as nat) >= 1,
        ;
    }
    let d = BigNat::factorial(k).mul(&BigNat::factorial(n - k));
    BigNat::factorial(n).div(&d)
}

} // verus!
