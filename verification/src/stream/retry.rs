//! How long to wait before a chunk is fetched again.
use vstd::arithmetic::power2;
use vstd::prelude::*;

verus! {

/// The wait before the first retry, in milliseconds.
pub const CHUNK_RETRY_BACKOFF_BASE_MS: u64 = 100;

/// The number of times that the wait doubles.
pub const CHUNK_RETRY_BACKOFF_MAX_SHIFT: usize = 5;

/// The wait before the `attempt`-th retry, counted from one, in milliseconds: it doubles from
/// one retry to the next until it has doubled as often as it may.
pub open spec fn backoff_ms(attempt: nat) -> nat {
    let doublings = if attempt - 1 < CHUNK_RETRY_BACKOFF_MAX_SHIFT {
        (attempt - 1) as nat
    } else {
        CHUNK_RETRY_BACKOFF_MAX_SHIFT as nat
    };
    CHUNK_RETRY_BACKOFF_BASE_MS as nat * power2::pow2(doublings)
}

/// The first wait is the base, every later one is twice the one before or equal to it, and
/// none is longer than 3.2 seconds.
pub proof fn law_backoff_doubles_up_to_a_cap(attempt: nat)
    requires
        attempt >= 1,
    ensures
        backoff_ms(1) == CHUNK_RETRY_BACKOFF_BASE_MS,
        attempt <= CHUNK_RETRY_BACKOFF_MAX_SHIFT ==> backoff_ms(attempt + 1) == 2 * backoff_ms(
            attempt,
        ),
        attempt > CHUNK_RETRY_BACKOFF_MAX_SHIFT ==> backoff_ms(attempt) == 3200,
        backoff_ms(attempt) <= 3200,
{
    power2::lemma2_to64();
    if attempt <= CHUNK_RETRY_BACKOFF_MAX_SHIFT {
        power2::lemma_pow2_unfold(attempt);
        power2::lemma_pow2_strictly_increases((attempt - 1) as nat, 5);
    }
}

/// The wait never gets shorter from one retry to a later one, and is between the base and 3.2
/// seconds.
pub proof fn law_backoff_never_gets_shorter(earlier: nat, later: nat)
    requires
        1 <= earlier <= later,
    ensures
        CHUNK_RETRY_BACKOFF_BASE_MS <= backoff_ms(earlier) <= backoff_ms(later) <= 3200,
    decreases later,
{
    law_backoff_doubles_up_to_a_cap(later);
    if earlier < later {
        law_backoff_never_gets_shorter(earlier, (later - 1) as nat);
        law_backoff_doubles_up_to_a_cap((later - 1) as nat);
    } else if later > 1 {
        law_backoff_never_gets_shorter((later - 1) as nat, (later - 1) as nat);
        law_backoff_doubles_up_to_a_cap((later - 1) as nat);
    }
}

/// The waits are a tenth of a second before the first retry, then 0.2, 0.4, 0.8 and 1.6 seconds,
/// and 3.2 seconds before every later one.
pub proof fn law_backoff_in_milliseconds(attempt: nat)
    requires
        attempt >= 1,
    ensures
        attempt == 1 ==> backoff_ms(attempt) == 100,
        attempt == 2 ==> backoff_ms(attempt) == 200,
        attempt == 3 ==> backoff_ms(attempt) == 400,
        attempt == 4 ==> backoff_ms(attempt) == 800,
        attempt == 5 ==> backoff_ms(attempt) == 1600,
        attempt >= 6 ==> backoff_ms(attempt) == 3200,
{
    power2::lemma2_to64();
}

/// Computes the wait before the `attempt`-th retry, counted from one.
pub fn retry_backoff_ms(attempt: usize) -> (backoff: u64)
    requires
        attempt >= 1,
    ensures
        backoff == backoff_ms(attempt as nat),
{
    let doublings: usize = if attempt - 1 < CHUNK_RETRY_BACKOFF_MAX_SHIFT {
        attempt - 1
    } else {
        CHUNK_RETRY_BACKOFF_MAX_SHIFT
    };
    let shift: u64 = doublings as u64;
    assert(shift <= 5);
    proof {
        power2::lemma2_to64();
        vstd::bits::lemma_u64_shl_is_mul(1, shift);
    }
    CHUNK_RETRY_BACKOFF_BASE_MS * (1u64 << shift)
}

} // verus!
