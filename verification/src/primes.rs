//! Primality by trial division, and the per-thread pieces of two parallel
//! prime searches: a shared counter that hands out candidates one by one, and
//! a stride of candidates `start, start + step, ...` checked by one thread.
use vstd::prelude::*;

verus! {

/// `n` is prime: at least 2 and without a divisor strictly between 1 and `n`.
pub open spec fn spec_is_prime(n: nat) -> bool {
    n >= 2 && forall|d: nat| 2 <= d < n ==> #[trigger] (n % d) != 0
}

proof fn lemma_cofactor(n: nat, d: nat, i: nat)
    requires
        2 <= d < n,
        n % d == 0,
        i * i > n,
        i <= d,
    ensures
        2 <= n / d < i,
        n % (n / d) == 0,
{
    let q = n / d;
    assert(n == d * q) by (nonlinear_arith)
        requires n % d == 0, d > 0, q == n / d;
    assert(q >= 2) by (nonlinear_arith)
        requires n == d * q, d < n, d >= 2;
    assert(q < i) by (nonlinear_arith)
        requires n == d * q, i * i > n, i <= d, q >= 0;
    assert(n % q == 0) by (nonlinear_arith)
        requires n == d * q, q >= 2;
}

/// Whether `n` is prime, trying divisors from 2 while their square stays within `n`.
pub fn is_prime(n: u64) -> (b: bool)
    ensures
        b == spec_is_prime(n as nat),
{
    if n < 2 {
        return false;
    }
    let mut i: u64 = 2;
    while i <= n / i
        invariant
            n >= 2,
            2 <= i <= n,
            forall|d: nat| 2 <= d < i ==> #[trigger] ((n as nat) % d) != 0,
        decreases n - i,
    {
        if n % i == 0 {
            proof {
                assert(i < n) by (nonlinear_arith)
                    requires i <= n / i, i >= 2, n >= 2;
                assert(((n as nat) % (i as nat)) == 0);
            }
            return false;
        }
        proof {
            assert(i + 1 <= n) by (nonlinear_arith)
                requires i <= n / i, i >= 2, n >= 2;
        }
        i = i + 1;
    }
    proof {
        assert(i * i > n) by (nonlinear_arith)
            requires i > n / i, i >= 2;
        assert forall|d: nat| 2 <= d < n implies #[trigger] ((n as nat) % d) != 0 by {
            if d >= i && (n as nat) % d == 0 {
                lemma_cofactor(n as nat, d, i as nat);
                let q = (n as nat) / d;
                assert((n as nat) % q != 0);
            }
        }
    }
    true
}

/// Hands out the next candidate of a shared counter: `None` once it reaches
/// `limit`, otherwise its value, advancing it by one.
pub fn claim(next: &mut u64, limit: u64) -> (r: Option<u64>)
    ensures
        *old(next) >= limit ==> r is None && *final(next) == *old(next),
        *old(next) < limit ==> r == Some(*old(next)) && *final(next) == *old(next) + 1,
{
    if *next >= limit {
        None
    } else {
        let c = *next;
        *next = c + 1;
        Some(c)
    }
}

/// The primes among `num, num + step, num + 2·step, ...` up to and including `limit`, in that order.
pub open spec fn stride_primes(num: nat, step: nat, limit: nat) -> Seq<u64>
    decreases (if num > limit { 0 } else { limit + 1 - num }),
{
    if step == 0 || num > limit {
        Seq::empty()
    } else {
        (if spec_is_prime(num) { seq![num as u64] } else { Seq::empty() })
            + stride_primes(num + step, step, limit)
    }
}

/// The last candidate of the stride `start, start + step, ...` that does not
/// exceed `limit` (for `start <= limit`).
pub open spec fn last_candidate(start: nat, step: nat, limit: nat) -> nat {
    start + ((limit - start) as nat / step) * step
}

proof fn lemma_within_last(start: nat, step: nat, limit: nat, k: nat)
    requires
        step >= 1,
        start + k * step <= limit,
    ensures
        start + k * step <= last_candidate(start, step, limit),
{
    let l = (limit - start) as nat;
    let q = l / step;
    let r = l % step;
    assert(l == q * step + r && r < step) by {
        vstd::arithmetic::div_mod::lemma_fundamental_div_mod(l as int, step as int);
    }
    assert(k <= q) by (nonlinear_arith)
        requires k * step <= l, l == q * step + r, 0 <= r < step, step >= 1;
    assert(k * step <= q * step) by (nonlinear_arith)
        requires k <= q, step >= 1;
}

/// The primes among `start, start + step, ...` up to and including `limit`,
/// which is what one thread of the strided search collects. The step is at
/// least 1 (it is the number of threads), and the candidate after the last
/// one tried must still fit in a `u64`, as the step is added to it.
pub fn primes_in_stride(start: u64, step: u64, limit: u64) -> (r: Vec<u64>)
    requires
        step >= 1,
        start <= limit ==> last_candidate(start as nat, step as nat, limit as nat) + step <= u64::MAX,
    ensures
        r@ == stride_primes(start as nat, step as nat, limit as nat),
{
    let mut res: Vec<u64> = Vec::new();
    let mut num = start;
    let ghost mut k: nat = 0;
    while num <= limit
        invariant
            step >= 1,
            start <= limit ==> last_candidate(start as nat, step as nat, limit as nat) + step <= u64::MAX,
            num == start + k * step,
            res@ + stride_primes(num as nat, step as nat, limit as nat)
                == stride_primes(start as nat, step as nat, limit as nat),
        decreases (if num > limit { 0 } else { limit + 1 - num }),
    {
        let ghost before = res@;
        if is_prime(num) {
            res.push(num);
        }
        proof {
            assert(res@ + stride_primes((num + step) as nat, step as nat, limit as nat)
                =~= before + stride_primes(num as nat, step as nat, limit as nat));
            lemma_within_last(start as nat, step as nat, limit as nat, k);
            assert(start + (k + 1) * step == start + k * step + step) by (nonlinear_arith);
        }
        num = num + step;
        proof { k = k + 1; }
    }
    assert(res@ + stride_primes(num as nat, step as nat, limit as nat) =~= res@);
    res
}

} // verus!
