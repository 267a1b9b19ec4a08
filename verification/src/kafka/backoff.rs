//! Delays that grow from one attempt to the next.

use vstd::arithmetic::mul::{lemma_mul_is_commutative, lemma_mul_nonnegative};
use vstd::arithmetic::power::{lemma_pow1, pow};
use vstd::prelude::*;

verus! {

/// Delays, in milliseconds, each of which is the one before times the base, up to a greatest one.
#[derive(Debug, Clone, Copy, PartialEq, Eq, Structural)]
pub struct ExponentialBackoff {
    pub current: u64,
    pub base: u64,
    pub factor: u64,
    pub max_delay: Option<u64>,
}

/// A product, or the greatest number there is where the product does not fit.
pub open spec fn capped_product(a: int, b: int) -> int {
    if a * b > u64::MAX {
        u64::MAX as int
    } else {
        a * b
    }
}

/// The delay that comes next.
pub open spec fn next_delay(backoff: ExponentialBackoff) -> u64 {
    let delay = capped_product(backoff.current as int, backoff.factor as int) as u64;
    match backoff.max_delay {
        Some(max) => if delay > max {
            max
        } else {
            delay
        },
        None => delay,
    }
}

/// What the delays after the next one are worked out from. A delay over the greatest one leaves
/// everything as it is.
pub open spec fn after_delay(backoff: ExponentialBackoff) -> ExponentialBackoff {
    let delay = capped_product(backoff.current as int, backoff.factor as int);
    if backoff.max_delay is Some && delay > backoff.max_delay->0 {
        backoff
    } else {
        ExponentialBackoff {
            current: capped_product(backoff.current as int, backoff.base as int) as u64,
            ..backoff
        }
    }
}

impl ExponentialBackoff {
    /// Delays that grow by a base: the first is the base itself.
    pub fn from_millis(base: u64) -> (backoff: ExponentialBackoff)
        ensures
            backoff == (ExponentialBackoff { current: base, base, factor: 1, max_delay: None }),
    {
        ExponentialBackoff { current: base, base, factor: 1, max_delay: None }
    }

    /// Multiplies each delay by a factor.
    pub fn factor(self, factor: u64) -> (backoff: ExponentialBackoff)
        ensures
            backoff == (ExponentialBackoff { factor, ..self }),
    {
        ExponentialBackoff { factor, ..self }
    }

    /// Sets the greatest delay.
    pub fn max_delay(self, millis: u64) -> (backoff: ExponentialBackoff)
        ensures
            backoff == (ExponentialBackoff { max_delay: Some(millis), ..self }),
    {
        ExponentialBackoff { max_delay: Some(millis), ..self }
    }

    /// The delay that comes next. There always is one.
    pub fn next(&mut self) -> (delay: Option<u64>)
        ensures
            delay == Some(next_delay(*old(self))),
            *final(self) == after_delay(*old(self)),
    {
        let delay: u64 = match self.current.checked_mul(self.factor) {
            Some(delay) => delay,
            None => u64::MAX,
        };
        if let Some(max) = self.max_delay {
            if delay > max {
                return Some(max);
            }
        }
        self.current = match self.current.checked_mul(self.base) {
            Some(next) => next,
            None => u64::MAX,
        };
        Some(delay)
    }
}

/// What is left after a number of delays.
pub open spec fn after_delays(backoff: ExponentialBackoff, n: nat) -> ExponentialBackoff
    decreases n,
{
    if n == 0 {
        backoff
    } else {
        after_delay(after_delays(backoff, (n - 1) as nat))
    }
}

/// The greatest delay there can be.
pub open spec fn delay_limit(backoff: ExponentialBackoff) -> u64 {
    match backoff.max_delay {
        Some(max) => max,
        None => u64::MAX,
    }
}

/// The delay after `n` others, worked out at once.
pub open spec fn nth_delay(backoff: ExponentialBackoff, n: nat) -> int {
    let delay = pow(backoff.base as int, n + 1) * backoff.factor;
    if delay > delay_limit(backoff) {
        delay_limit(backoff) as int
    } else {
        delay
    }
}

/// The delays that a backoff gives, from its start, are the powers of its base times its factor,
/// none over the greatest delay.
pub proof fn law_delays(backoff: ExponentialBackoff, n: nat)
    requires
        backoff.current == backoff.base,
    ensures
        next_delay(after_delays(backoff, n)) == nth_delay(backoff, n),
{
    lemma_delays(backoff, n);
}

/// A power, and the one before it.
pub proof fn lemma_pow_step(base: int, n: nat)
    ensures
        pow(base, n + 1) == base * pow(base, n),
{
    reveal(pow);
}

proof fn lemma_pow_nonnegative(base: int, n: nat)
    requires
        base >= 0,
    ensures
        pow(base, n) >= 0,
    decreases n,
{
    reveal(pow);
    if n > 0 {
        lemma_pow_nonnegative(base, (n - 1) as nat);
        lemma_mul_nonnegative(base, pow(base, (n - 1) as nat));
    }
}

/// The power that a state stands for: itself where it fits, else the greatest number there is.
spec fn stands_for(backoff: ExponentialBackoff, state: ExponentialBackoff, n: nat) -> bool {
    let power = pow(backoff.base as int, n + 1);
    state.current == (if power > u64::MAX {
        u64::MAX as int
    } else {
        power
    })
}

/// The greatest delay has been reached, and will be from then on.
spec fn is_capped(backoff: ExponentialBackoff, state: ExponentialBackoff, n: nat) -> bool {
    &&& backoff.max_delay is Some
    &&& capped_product(state.current as int, backoff.factor as int) > backoff.max_delay->0
    &&& pow(backoff.base as int, n + 1) * backoff.factor > backoff.max_delay->0
}

proof fn lemma_delays(backoff: ExponentialBackoff, n: nat)
    requires
        backoff.current == backoff.base,
    ensures
        ({
            let state = after_delays(backoff, n);
            &&& state.base == backoff.base
            &&& state.factor == backoff.factor
            &&& state.max_delay == backoff.max_delay
            &&& stands_for(backoff, state, n) || is_capped(backoff, state, n)
            &&& next_delay(state) == nth_delay(backoff, n)
        }),
    decreases n,
{
    let base = backoff.base as int;
    let factor = backoff.factor as int;
    let state = after_delays(backoff, n);
    let power = pow(base, n + 1);
    lemma_pow_nonnegative(base, n + 1);
    if n == 0 {
        lemma_pow1(base);
    } else {
        let before = after_delays(backoff, (n - 1) as nat);
        let earlier = pow(base, n);
        lemma_delays(backoff, (n - 1) as nat);
        lemma_pow_step(base, n);
        lemma_pow_nonnegative(base, n);
        if is_capped(backoff, before, (n - 1) as nat) {
            // The base is at least one, or nothing could be over the limit.
            assert(base >= 1) by {
                if base == 0 {
                    lemma_pow_step(base, (n - 1) as nat);
                    assert(earlier == 0);
                    assert(earlier * factor == 0) by (nonlinear_arith)
                        requires
                            earlier == 0,
                    ;
                }
            }
            assert(power * factor >= earlier * factor) by (nonlinear_arith)
                requires
                    power == base * earlier,
                    base >= 1,
                    earlier >= 0,
                    factor >= 0,
            ;
            assert(is_capped(backoff, state, n));
        } else {
            let delay = capped_product(before.current as int, factor);
            if backoff.max_delay is Some && delay > backoff.max_delay->0 {
                // The limit is reached here for the first time.
                assert(before.current <= earlier);
                assert(before.current * factor <= earlier * factor) by (nonlinear_arith)
                    requires
                        before.current <= earlier,
                        factor >= 0,
                ;
                assert(is_capped(backoff, before, (n - 1) as nat));
            } else {
                lemma_mul_is_commutative(earlier, base);
                if earlier > u64::MAX {
                    if base >= 1 {
                        assert(u64::MAX * base >= u64::MAX) by (nonlinear_arith)
                            requires
                                base >= 1,
                        ;
                        assert(power >= earlier) by (nonlinear_arith)
                            requires
                                power == base * earlier,
                                base >= 1,
                                earlier >= 0,
                        ;
                    } else {
                        lemma_pow_step(base, (n - 1) as nat);
                        assert(earlier == 0) by (nonlinear_arith)
                            requires
                                earlier == base * pow(base, (n - 1) as nat),
                                base == 0,
                        ;
                    }
                } else {
                    assert(before.current * base == power);
                }
                assert(stands_for(backoff, state, n));
            }
        }
    }
    if is_capped(backoff, state, n) {
    } else {
        assert(stands_for(backoff, state, n));
        if power > u64::MAX {
            if factor >= 1 {
                assert(u64::MAX * factor >= u64::MAX) by (nonlinear_arith)
                    requires
                        factor >= 1,
                ;
                assert(power * factor > u64::MAX) by (nonlinear_arith)
                    requires
                        factor >= 1,
                        power > u64::MAX,
                ;
            } else {
                assert(power * factor == 0) by (nonlinear_arith)
                    requires
                        factor == 0,
                ;
                assert(state.current * factor == 0) by (nonlinear_arith)
                    requires
                        factor == 0,
                ;
            }
        }
    }
}

/// No delay is over the greatest one.
pub proof fn law_delay_is_limited(backoff: ExponentialBackoff)
    ensures
        next_delay(backoff) <= delay_limit(backoff),
        delay_limit(after_delay(backoff)) == delay_limit(backoff),
{
}

} // verus!
