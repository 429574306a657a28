//! The aliquot sum of a number: the sum of its proper divisors, i.e. all
//! divisors of the number apart from the number itself. For example, the
//! aliquot sum of 6 is 1 + 2 + 3 = 6, and that of 15 is 1 + 3 + 5 = 9.

use vstd::prelude::*;

verus! {

/// The sum of every divisor of `n` that lies in `1..=k`.
pub open spec fn divisor_sum_up_to(n: nat, k: nat) -> nat
    decreases k,
{
    if k == 0 {
        0
    } else {
        divisor_sum_up_to(n, (k - 1) as nat) + if n % k == 0 {
            k
        } else {
            0nat
        }
    }
}

/// The aliquot sum of `n`: the sum of its proper divisors. Every proper
/// divisor of `n >= 2` is at most `n / 2`, and 0 and 1 have none.
pub open spec fn aliquot_spec(n: nat) -> nat {
    if n <= 1 {
        0
    } else {
        divisor_sum_up_to(n, n / 2)
    }
}

proof fn lemma_divisor_sum_monotone(n: nat, j: nat, k: nat)
    requires
        j <= k,
    ensures
        divisor_sum_up_to(n, j) <= divisor_sum_up_to(n, k),
    decreases k,
{
    if j < k {
        lemma_divisor_sum_monotone(n, j, (k - 1) as nat);
    }
}

/// Computes the aliquot sum of `number`. The sum is required to fit in a
/// `u64`, since it is accumulated in one.
pub fn aliquot_sum(number: u64) -> (s: u64)
    requires
        aliquot_spec(number as nat) <= u64::MAX,
    ensures
        s as nat == aliquot_spec(number as nat),
{
    if number == 1 || number == 0 {
        return 0;
    }
    let mut sum: u64 = 0;
    let bound: u64 = number / 2;
    let mut i: u64 = 1;
    while i <= bound
        invariant
            number >= 2,
            bound == number as nat / 2,
            1 <= i <= bound + 1,
            sum as nat == divisor_sum_up_to(number as nat, (i - 1) as nat),
            aliquot_spec(number as nat) <= u64::MAX,
        decreases bound + 1 - i,
    {
        if number % i == 0 {
            proof {
                lemma_divisor_sum_monotone(number as nat, i as nat, number as nat / 2);
            }
            sum = sum + i;
        }
        i = i + 1;
    }
    sum
}

} // verus!
