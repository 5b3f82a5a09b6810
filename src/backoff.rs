//! Adaptive backoff for threads that wait on one another: spin a little at
//! first, twice as long each time, and hand the processor back to the
//! scheduler once spinning has gone on long enough.
use vstd::prelude::*;

verus! {

use vstd::arithmetic::power2::{pow2, lemma2_to64};
use vstd::bits::lemma_u32_shl_is_mul;

/// The step after which spinning stops growing.
pub const SPIN_LIMIT: u32 = 6;

/// The step after which the counter stops growing.
pub const YIELD_LIMIT: u32 = 10;

/// The smaller of two steps.
pub open spec fn min_step(a: u32, b: u32) -> u32 {
    if a < b {
        a
    } else {
        b
    }
}

/// A counter of how long a thread has waited.
pub struct Backoff {
    step: u32,
}

/// Relies on std::hint::spin_loop: tells the processor that the caller is
/// busy-waiting. It returns nothing and changes no value.
#[verifier::external_body]
fn relax() {
    std::hint::spin_loop()
}

/// Issues `hints` busy-wait hints.
fn relax_times(hints: u32) {
    let mut i: u32 = 0;
    while i < hints
        invariant
            i <= hints,
        decreases hints - i,
    {
        relax();
        i = i + 1;
    }
}

impl Backoff {
    /// The number of waits so far, capped as the limits say.
    pub closed spec fn steps(&self) -> u32 {
        self.step
    }

    /// The counter goes at most one past `YIELD_LIMIT`.
    #[verifier::type_invariant]
    spec fn bounded(&self) -> bool {
        self.step <= YIELD_LIMIT + 1
    }

    pub fn new() -> (r: Backoff)
        ensures
            r.steps() == 0,
    {
        Backoff { step: 0 }
    }

    /// Starts counting again.
    pub fn reset(&mut self)
        ensures
            final(self).steps() == 0,
    {
        self.step = 0;
    }

    /// Waits after a lost race whose winner is about to finish: issues
    /// `2^min(step, SPIN_LIMIT)` busy-wait hints and returns their number.
    pub fn spin(&mut self) -> (hints: u32)
        ensures
            hints == pow2(min_step(old(self).steps(), SPIN_LIMIT) as nat),
            final(self).steps() == if old(self).steps() <= SPIN_LIMIT {
                old(self).steps() + 1
            } else {
                old(self).steps() as int
            },
    {
        proof {
            use_type_invariant(&*self);
        }
        let shift = if self.step < SPIN_LIMIT {
            self.step
        } else {
            SPIN_LIMIT
        };
        proof {
            lemma2_to64();
            lemma_u32_shl_is_mul(1, shift);
        }
        let hints = 1u32 << shift;
        relax_times(hints);
        if self.step <= SPIN_LIMIT {
            self.step = self.step + 1;
        }
        hints
    }

    /// Waits for another thread to publish its work. While the step is at
    /// most `SPIN_LIMIT` it issues `2^step` busy-wait hints and returns
    /// `false`; past that it returns `true`: the caller should yield to the
    /// scheduler now.
    pub fn snooze(&mut self) -> (yield_now: bool)
        ensures
            yield_now == (old(self).steps() > SPIN_LIMIT),
            final(self).steps() == if old(self).steps() <= YIELD_LIMIT {
                old(self).steps() + 1
            } else {
                old(self).steps() as int
            },
    {
        proof {
            use_type_invariant(&*self);
        }
        let yield_now = if self.step <= SPIN_LIMIT {
            proof {
                lemma2_to64();
                lemma_u32_shl_is_mul(1, self.step);
            }
            relax_times(1u32 << self.step);
            false
        } else {
            true
        };
        if self.step <= YIELD_LIMIT {
            self.step = self.step + 1;
        }
        yield_now
    }
}

} // verus!
