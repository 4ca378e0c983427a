//! Powers of two.

use vstd::arithmetic::power2::{lemma2_to64, lemma_pow2_pos, lemma_pow2_strictly_increases, lemma_pow2_unfold, pow2};
use vstd::prelude::*;

verus! {

/// `n` is a power of two.
pub open spec fn power_of_two(n: int) -> bool {
    exists|k: nat| #[trigger] pow2(k) == n
}

/// `p` is the least power of two that is no smaller than `n`.
pub open spec fn least_power_at_least(n: int, p: int) -> bool {
    &&& power_of_two(p)
    &&& n <= p
    &&& forall|q: int| power_of_two(q) && n <= q ==> p <= q
}

/// The largest power of two of 32 bits.
pub proof fn lemma_power_of_two_bound(n: u32)
    requires
        power_of_two(n as int),
    ensures
        n <= 0x8000_0000,
{
    let k = choose|k: nat| #[trigger] pow2(k) == n;
    lemma2_to64();
    if k > 31 {
        if k > 32 {
            lemma_pow2_strictly_increases(32, k);
        }
    } else if k < 31 {
        lemma_pow2_strictly_increases(k, 31);
    }
}

/// The least power of two that is no smaller than `n`.
pub fn next_power_of_two(n: u32) -> (p: u64)
    ensures
        least_power_at_least(n as int, p as int),
        1 <= p <= 0x1_0000_0000,
        n <= 0x8000_0000 ==> p <= 0x8000_0000,
{
    let mut p: u64 = 1;
    let ghost mut k: nat = 0;
    proof {
        lemma2_to64();
    }
    while p < n as u64
        invariant
            p == pow2(k),
            1 <= p <= 0x1_0000_0000,
            n <= 0x8000_0000 ==> p <= 0x8000_0000,
            p > 1 ==> p < 2 * n,
            k == 0 <==> p == 1,
            k > 0 ==> pow2((k - 1) as nat) < n,
            pow2(31) == 0x8000_0000,
            pow2(32) == 0x1_0000_0000,
        decreases 0x1_0000_0000 - p,
    {
        proof {
            lemma_pow2_unfold(k + 1);
            if k >= 31 && n <= 0x8000_0000 {
                if k > 31 {
                    lemma_pow2_strictly_increases(31, k);
                }
            } else if k >= 32 {
                if k > 32 {
                    lemma_pow2_strictly_increases(32, k);
                }
            }
            if k < 30 {
                lemma_pow2_strictly_increases(k + 1, 31);
            } else if k == 31 {
                assert(pow2(k + 1) == pow2(32));
            }
            k = k + 1;
        }
        p = p * 2;
    }
    proof {
        assert forall|q: int| power_of_two(q) && n <= q implies p <= q by {
            let j = choose|j: nat| #[trigger] pow2(j) == q;
            if j < k {
                if j < k - 1 {
                    lemma_pow2_strictly_increases(j, (k - 1) as nat);
                }
            } else if k < j {
                lemma_pow2_strictly_increases(k, j);
            }
        }
    }
    p
}

/// Whether `n` is a power of two.
pub fn is_power_of_two(n: u32) -> (yes: bool)
    ensures
        yes == power_of_two(n as int),
{
    let p: u64 = next_power_of_two(n);
    proof {
        if power_of_two(n as int) {
            assert(p <= n);
        }
        if n == 0 && power_of_two(0) {
            let k = choose|k: nat| #[trigger] pow2(k) == 0;
            lemma_pow2_pos(k);
        }
    }
    p == n as u64
}

} // verus!
