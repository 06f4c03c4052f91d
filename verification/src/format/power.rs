//! Powers of two, the sizes that a Base hash index can have.

use vstd::arithmetic::power2::*;
use vstd::prelude::*;

verus! {

/// Whether `n` is a power of two.
pub open spec fn is_power(n: int) -> bool {
    exists|e: nat| n == #[trigger] pow2(e)
}

/// `p` doubled until it is at least `n`.
pub open spec fn double_until(p: nat, n: nat) -> nat
    decreases (if n > p { n - p } else { 0 }),
    when p > 0
{
    if p >= n {
        p
    } else {
        double_until(2 * p, n)
    }
}

/// The smallest power of two that is at least `n`.
pub open spec fn next_power(n: nat) -> nat {
    double_until(1, n)
}

/// Doubling a power of two gives a power of two, reaches the target, and stops at
/// the first one that does.
pub proof fn lemma_double_until(p: nat, n: nat)
    requires
        is_power(p as int),
        p > 0,
    ensures
        is_power(double_until(p, n) as int),
        double_until(p, n) >= n,
        double_until(p, n) >= p,
        double_until(p, n) == p || double_until(p, n) < 2 * n,
    decreases (if n > p { n - p } else { 0 }),
{
    if p < n {
        lemma_double(p as int);
        lemma_double_until(2 * p, n);
    }
}

/// The smallest power of two that is at least `n` is one, and is less than twice `n`.
pub proof fn lemma_next_power(n: nat)
    ensures
        is_power(next_power(n) as int),
        next_power(n) >= n,
        next_power(n) >= 1,
        n > 0 ==> next_power(n) < 2 * n,
{
    assert(is_power(1)) by {
        lemma2_to64();
        assert(1 == pow2(0));
    }
    lemma_double_until(1, n);
}

proof fn lemma_double(p: int)
    requires
        is_power(p),
    ensures
        is_power(2 * p),
{
    let e = choose|e: nat| p == pow2(e);
    lemma_pow2_unfold((e + 1) as nat);
    assert(2 * p == pow2((e + 1) as nat));
}

/// Between a power of two and its double there is no other.
proof fn lemma_no_power_between(e: nat, n: int)
    requires
        pow2(e) < n < 2 * pow2(e),
    ensures
        !is_power(n),
{
    lemma_pow2_unfold((e + 1) as nat);
    if is_power(n) {
        let k = choose|k: nat| n == pow2(k);
        if k <= e {
            if k < e {
                lemma_pow2_strictly_increases(k, e);
            }
        } else if k > e + 1 {
            lemma_pow2_strictly_increases((e + 1) as nat, k);
        }
    }
}

/// Tests whether `n` is a power of two.
pub fn is_power_of_two(n: u64) -> (yes: bool)
    ensures
        yes == is_power(n as int),
{
    let mut p: u64 = 1;
    let ghost mut e: nat = 0;
    proof {
        lemma2_to64();
    }
    while p < n && p <= 0x7fff_ffff_ffff_ffff
        invariant
            p == pow2(e),
            p >= 1,
            p == 1 || p < 2 * n,
        decreases u64::MAX - p,
    {
        proof {
            lemma_pow2_unfold((e + 1) as nat);
            e = (e + 1) as nat;
        }
        p = 2 * p;
    }
    proof {
        if p < n {
            lemma_no_power_between(e, n as int);
        } else if p > n {
            if p == 1 {
                if is_power(n as int) {
                    let k = choose|k: nat| n as int == pow2(k);
                    lemma_pow2_pos(k);
                }
            } else {
                assert(e > 0) by {
                    lemma2_to64();
                }
                lemma_pow2_unfold(e);
                lemma_no_power_between((e - 1) as nat, n as int);
            }
        } else {
            assert(n as int == pow2(e));
        }
    }
    p == n
}

/// The smallest power of two that is at least `n`, where it fits.
pub fn checked_next_power_of_two(n: usize) -> (power: Option<usize>)
    ensures
        match power {
            Some(power) => power == next_power(n as nat),
            None => next_power(n as nat) > usize::MAX,
        },
{
    let mut p: usize = 1;
    while p < n
        invariant
            p >= 1,
            double_until(p as nat, n as nat) == next_power(n as nat),
        decreases (if n > p { n - p } else { 0 }),
    {
        if p > usize::MAX / 2 {
            proof {
                assert(double_until((2 * p) as nat, n as nat) == (2 * p) as nat);
            }
            return None;
        }
        p = 2 * p;
    }
    Some(p)
}

} // verus!
