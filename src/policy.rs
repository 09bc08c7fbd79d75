//! Retry policies: pure decisions on whether, and after how long, to reconnect.
use vstd::prelude::*;
use vstd::string::*;
use vstd::arithmetic::div_mod::{lemma_fundamental_div_mod, lemma_mod_pos_bound};
use crate::natural::{from_u64, ge, lemma_power_positive, mul_small, power, value};

verus! {

/// Smaller of two naturals.
pub open spec fn min_nat(a: nat, b: nat) -> nat {
    if a <= b {
        a
    } else {
        b
    }
}

/// Whether a retry counter is still within an optional cap (`None` is unbounded).
pub open spec fn within_cap(max_retries: Option<usize>, attempt: nat) -> bool {
    match max_retries {
        None => true,
        Some(m) => attempt <= m as nat,
    }
}

/// The exponent of the factor for retry number `attempt` (attempt `0` is
/// treated like attempt `1`).
pub open spec fn exponent_of(attempt: nat) -> nat {
    if attempt == 0 {
        0
    } else {
        (attempt - 1) as nat
    }
}

/// Delay before retry number `attempt` of an exponential backoff:
/// `min(start * (factor_milli / 1000)^(attempt - 1), max)`, rounded down to a
/// whole millisecond.
pub open spec fn exponential_delay(start: nat, factor_milli: nat, max: nat, attempt: nat) -> nat {
    let e = exponent_of(attempt);
    min_nat((start * power(factor_milli as int, e) / power(1000, e)) as nat, max)
}

/// Retries with the same delay every time.
#[derive(Clone, Copy, Debug, PartialEq, Eq, Structural)]
pub struct Constant {
    pub delay_ms: u64,
    pub max_retries: Option<usize>,
}

/// Retries with a delay that grows by a factor (in thousandths) up to a cap.
#[derive(Clone, Copy, Debug, PartialEq, Eq, Structural)]
pub struct ExponentialBackoff {
    pub start_ms: u64,
    /// The growth factor times 1000 (`2000` doubles the delay each time).
    pub factor_milli: u64,
    pub max_delay_ms: u64,
    pub max_retries: Option<usize>,
}

/// Never retries: a single connection attempt.
#[derive(Clone, Copy, Debug, PartialEq, Eq, Structural)]
pub struct Never;

/// What a retry policy decides after a failed attempt.
#[derive(Clone, Copy, Debug, PartialEq, Eq, Structural)]
pub enum RetryDecision {
    Stop,
    Retry(u64),
}

impl View for RetryDecision {
    /// `None` to stop, or the delay in milliseconds.
    type V = Option<nat>;

    open spec fn view(&self) -> Option<nat> {
        match self {
            RetryDecision::Stop => None,
            RetryDecision::Retry(d) => Some(*d as nat),
        }
    }
}

/// A retry policy of one of three kinds.
#[derive(Clone, Copy, Debug, PartialEq, Eq, Structural)]
pub enum RetryPolicyType {
    Constant(Constant),
    Exponential(ExponentialBackoff),
    Never(Never),
}

/// The message reported when a policy name is not recognised.
pub const INVALID_POLICY_MESSAGE: &'static str = "Invalid retry policy. Defaulting to ExponentialBackoff.";

/// The message reported when the backoff factor is zero.
pub const INVALID_FACTOR_MESSAGE: &'static str = "Invalid backoff factor. Defaulting to 2.0.";

/// The backoff factor, in thousandths, used in place of a zero factor.
pub const DEFAULT_FACTOR_MILLI: u64 = 2000;

/// What `str::to_lowercase` returns on a string.
pub uninterp spec fn lower_of(s: Seq<char>) -> Seq<char>;

/// Relies on `str::to_lowercase`: the result is a function of the characters alone.
#[verifier::external_body]
fn lowercase(s: &str) -> (r: String)
    ensures
        r@ == lower_of(s@),
{
    s.to_lowercase()
}

/// `after` is `before` with strings holding `messages` appended, in order.
pub open spec fn reports(before: Seq<String>, after: Seq<String>, messages: Seq<Seq<char>>) -> bool {
    &&& after.len() == before.len() + messages.len()
    &&& after.take(before.len() as int) == before
    &&& forall|k: int| 0 <= k < messages.len() ==> #[trigger] after[before.len() + k]@ == messages[k]
}

/// Every exponential backoff delay is at most the cap.
pub proof fn lemma_exponential_delay_capped(start: nat, factor_milli: nat, max: nat, attempt: nat)
    ensures
        exponential_delay(start, factor_milli, max, attempt) <= max,
{
}

proof fn lemma_div_bounds(x: int, d: int)
    requires
        x >= 0,
        d > 0,
    ensures
        0 <= x / d,
        d * (x / d) <= x < d * (x / d) + d,
{
    lemma_fundamental_div_mod(x, d);
    lemma_mod_pos_bound(x, d);
    assert(0 <= x / d) by (nonlinear_arith)
        requires
            x == d * (x / d) + (x % d),
            0 <= x % d < d,
            x >= 0,
            d > 0,
    ;
}

/// `x / d` is `q` when `q * d <= x < (q + 1) * d`.
proof fn lemma_div_is(x: int, d: int, q: int)
    requires
        x >= 0,
        d > 0,
        q * d <= x < q * d + d,
    ensures
        x / d == q,
{
    lemma_div_bounds(x, d);
    let r = x / d;
    assert(r == q) by (nonlinear_arith)
        requires
            d * r <= x < d * r + d,
            q * d <= x < q * d + d,
            d > 0,
    ;
}

/// `x / d` is at least `m` when `x >= m * d`.
proof fn lemma_div_at_least(x: int, d: int, m: int)
    requires
        x >= 0,
        d > 0,
        m >= 0,
        x >= m * d,
    ensures
        x / d >= m,
{
    lemma_div_bounds(x, d);
    let r = x / d;
    assert(r >= m) by (nonlinear_arith)
        requires
            x < d * r + d,
            x >= m * d,
            d > 0,
    ;
}

/// With a factor of at least one, once `start * factor^i` reaches `m * 1000^i`
/// it stays there.
proof fn lemma_scaled_stays_above(s: nat, f: nat, m: nat, i: nat, n: nat)
    requires
        f >= 1000,
        i <= n,
        s * power(f as int, i) >= m * power(1000, i),
    ensures
        s * power(f as int, n) >= m * power(1000, n),
    decreases n,
{
    if n > i {
        lemma_scaled_stays_above(s, f, m, i, (n - 1) as nat);
        let pf = power(f as int, (n - 1) as nat);
        let pt = power(1000, (n - 1) as nat);
        lemma_power_positive(1000, (n - 1) as nat);
        assert(s * (f * pf) >= m * (1000 * pt)) by (nonlinear_arith)
            requires
                s * pf >= m * pt,
                f >= 1000,
                pt > 0,
                m >= 0,
        ;
    }
}

/// With a factor below one, once `start * factor^i` falls under `1000^i` it stays
/// there.
proof fn lemma_scaled_stays_below(s: nat, f: nat, i: nat, n: nat)
    requires
        f <= 1000,
        i <= n,
        s * power(f as int, i) < power(1000, i),
    ensures
        s * power(f as int, n) < power(1000, n),
    decreases n,
{
    if n > i {
        lemma_scaled_stays_below(s, f, i, (n - 1) as nat);
        let pf = power(f as int, (n - 1) as nat);
        let pt = power(1000, (n - 1) as nat);
        lemma_power_nonneg(f as int, (n - 1) as nat);
        assert(s * (f * pf) < 1000 * pt) by (nonlinear_arith)
            requires
                s * pf < pt,
                f <= 1000,
                s * pf >= 0,
                s >= 0,
                pf >= 0,
        ;
    }
}

proof fn lemma_power_nonneg(b: int, e: nat)
    requires
        b >= 0,
    ensures
        power(b, e) >= 0,
    decreases e,
{
    if e > 0 {
        lemma_power_nonneg(b, (e - 1) as nat);
        assert(b * power(b, (e - 1) as nat) >= 0) by (nonlinear_arith)
            requires
                b >= 0,
                power(b, (e - 1) as nat) >= 0,
        ;
    }
}

/// With a factor of at least one, once the delay reaches the cap it stays there.
pub proof fn lemma_exponential_delay_saturates(
    start: nat,
    factor_milli: nat,
    max: nat,
    reached: nat,
    later: nat,
)
    requires
        factor_milli >= 1000,
        reached >= 1,
        reached <= later,
        exponential_delay(start, factor_milli, max, reached) == max,
    ensures
        exponential_delay(start, factor_milli, max, later) == max,
{
    let i = exponent_of(reached);
    let n = exponent_of(later);
    let x = start * power(factor_milli as int, i);
    let d = power(1000, i);
    lemma_power_positive(1000, i);
    lemma_power_positive(1000, n);
    lemma_power_nonneg(factor_milli as int, i);
    lemma_power_nonneg(factor_milli as int, n);
    assert(x >= 0) by (nonlinear_arith)
        requires
            x == start * power(factor_milli as int, i),
            power(factor_milli as int, i) >= 0,
    ;
    lemma_div_bounds(x, d);
    let q = x / d;
    assert(q >= max);
    assert(x >= max * d) by (nonlinear_arith)
        requires
            d * q <= x,
            q >= max,
            d > 0,
    ;
    lemma_scaled_stays_above(start, factor_milli, max, i, n);
    let xn = start * power(factor_milli as int, n);
    assert(xn >= 0) by (nonlinear_arith)
        requires
            xn == start * power(factor_milli as int, n),
            power(factor_milli as int, n) >= 0,
    ;
    lemma_div_at_least(xn, power(1000, n), max as int);
}

impl ExponentialBackoff {
    /// The delay before retry number `attempt`, clamped to the cap.
    pub fn delay_for(&self, attempt: usize) -> (r: u64)
        ensures
            r as nat == exponential_delay(
                self.start_ms as nat,
                self.factor_milli as nat,
                self.max_delay_ms as nat,
                attempt as nat,
            ),
    {
        let ghost sv = self.start_ms as nat;
        let ghost fv = self.factor_milli as nat;
        let ghost mv = self.max_delay_ms as nat;
        let e: usize = if attempt == 0 {
            0
        } else {
            attempt - 1
        };
        let ghost en = e as nat;
        assert(exponent_of(attempt as nat) == en);
        let s = self.start_ms;
        let f = self.factor_milli;
        let m = self.max_delay_ms;
        proof {
            lemma_power_positive(1000, en);
            lemma_power_nonneg(fv as int, en);
        }
        if s == 0 {
            proof {
                assert(sv == 0);
                assert(sv * power(fv as int, en) == 0) by (nonlinear_arith)
                    requires
                        sv == 0,
                ;
                lemma_div_is(0, power(1000, en), 0);
                assert(exponential_delay(sv, fv, mv, attempt as nat) == 0);
            }
            return 0;
        }
        if f == 1000 {
            proof {
                assert(fv == 1000);
                assert(power(fv as int, en) == power(1000, en));
                lemma_div_is(sv * power(1000, en), power(1000, en), sv as int);
                assert(exponential_delay(sv, fv, mv, attempt as nat) == min_nat(sv, mv));
            }
            return if s <= m {
                s
            } else {
                m
            };
        }
        let mut num = from_u64(s);
        let mut den = from_u64(1);
        let mut i: usize = 0;
        while i < e
            invariant
                i <= e,
                e as nat == en,
                exponent_of(attempt as nat) == en,
                sv == self.start_ms,
                fv == self.factor_milli,
                mv == self.max_delay_ms,
                s == sv,
                f == fv,
                m == mv,
                fv != 1000,
                value(num@) == sv * power(fv as int, i as nat),
                value(den@) == power(1000, i as nat),
                power(1000, en) > 0,
                power(fv as int, en) >= 0,
            decreases e - i,
        {
            let ghost x = value(num@);
            let ghost d = value(den@);
            proof {
                lemma_power_positive(1000, i as nat);
                lemma_power_nonneg(fv as int, i as nat);
                assert(x >= 0) by (nonlinear_arith)
                    requires
                        x == sv * power(fv as int, i as nat),
                        power(fv as int, i as nat) >= 0,
                ;
            }
            let cap = mul_small(&den, m);
            if f > 1000 && ge(&num, &cap) {
                proof {
                    assert(x >= mv * d);
                    lemma_scaled_stays_above(sv, fv, mv, i as nat, en);
                    let xn = sv * power(fv as int, en);
                    assert(xn >= 0) by (nonlinear_arith)
                        requires
                            xn == sv * power(fv as int, en),
                            power(fv as int, en) >= 0,
                    ;
                    lemma_div_at_least(xn, power(1000, en), mv as int);
                }
                return m;
            }
            if f < 1000 && !ge(&num, &den) {
                proof {
                    lemma_scaled_stays_below(sv, fv, i as nat, en);
                    let xn = sv * power(fv as int, en);
                    assert(xn >= 0) by (nonlinear_arith)
                        requires
                            xn == sv * power(fv as int, en),
                            power(fv as int, en) >= 0,
                    ;
                    lemma_div_is(xn, power(1000, en), 0);
                }
                return 0;
            }
            num = mul_small(&num, f);
            den = mul_small(&den, 1000);
            proof {
                assert(sv * power(fv as int, i as nat) * fv == sv * (fv * power(fv as int, i as nat)))
                    by (nonlinear_arith);
                assert(power(1000, i as nat) * 1000 == 1000 * power(1000, i as nat));
            }
            i = i + 1;
        }
        let ghost x = value(num@);
        let ghost d = value(den@);
        proof {
            assert(x >= 0) by (nonlinear_arith)
                requires
                    x == sv * power(fv as int, en),
                    power(fv as int, en) >= 0,
            ;
        }
        let cap = mul_small(&den, m);
        if ge(&num, &cap) {
            proof {
                lemma_div_at_least(x, d, mv as int);
            }
            return m;
        }
        let mut lo: u64 = 0;
        let mut hi: u64 = m;
        proof {
            assert(hi >= 1) by (nonlinear_arith)
                requires
                    x < mv * d,
                    x >= 0,
                    d > 0,
                    hi == mv,
            ;
        }
        while hi - lo > 1
            invariant
                lo < hi <= mv,
                exponent_of(attempt as nat) == en,
                sv == self.start_ms,
                fv == self.factor_milli,
                mv == self.max_delay_ms,
                x == sv * power(fv as int, en),
                d == power(1000, en),
                x == value(num@),
                d == value(den@),
                d > 0,
                x >= 0,
                lo * d <= x < hi * d,
            decreases hi - lo,
        {
            let mid: u64 = lo + (hi - lo) / 2;
            let t = mul_small(&den, mid);
            if ge(&num, &t) {
                lo = mid;
            } else {
                hi = mid;
            }
        }
        proof {
            assert(hi == lo + 1);
            assert(hi * d == lo * d + d) by (nonlinear_arith)
                requires
                    hi == lo + 1,
            ;
            lemma_div_is(x, d, lo as int);
        }
        lo
    }
}

impl RetryPolicyType {
    /// The decision after `attempt` consecutive failures: `None` to stop, else the delay.
    pub open spec fn spec_next_delay(self, attempt: nat) -> Option<nat> {
        match self {
            RetryPolicyType::Constant(c) => if within_cap(c.max_retries, attempt) {
                Some(c.delay_ms as nat)
            } else {
                None
            },
            RetryPolicyType::Exponential(e) => if within_cap(e.max_retries, attempt) {
                Some(
                    exponential_delay(
                        e.start_ms as nat,
                        e.factor_milli as nat,
                        e.max_delay_ms as nat,
                        attempt,
                    ),
                )
            } else {
                None
            },
            RetryPolicyType::Never(_) => None,
        }
    }

    /// The policy after the stream asks for a reconnection time of `delay_ms`:
    /// it becomes the constant delay, or the first exponential delay (and the cap
    /// grows to it if it was lower). The never policy stays as it is.
    pub open spec fn spec_with_reconnection_time(self, delay_ms: u64) -> RetryPolicyType {
        match self {
            RetryPolicyType::Constant(c) => RetryPolicyType::Constant(
                Constant { delay_ms, ..c },
            ),
            RetryPolicyType::Exponential(e) => RetryPolicyType::Exponential(
                ExponentialBackoff {
                    start_ms: delay_ms,
                    max_delay_ms: if e.max_delay_ms >= delay_ms {
                        e.max_delay_ms
                    } else {
                        delay_ms
                    },
                    ..e
                },
            ),
            RetryPolicyType::Never(n) => RetryPolicyType::Never(n),
        }
    }

    /// Takes the reconnection time that the stream asked for.
    pub fn set_reconnection_time(&mut self, delay_ms: u64)
        ensures
            *final(self) == old(self).spec_with_reconnection_time(delay_ms),
    {
        *self = match *self {
            RetryPolicyType::Constant(c) => RetryPolicyType::Constant(
                Constant { delay_ms, max_retries: c.max_retries },
            ),
            RetryPolicyType::Exponential(e) => RetryPolicyType::Exponential(
                ExponentialBackoff {
                    start_ms: delay_ms,
                    factor_milli: e.factor_milli,
                    max_delay_ms: if e.max_delay_ms >= delay_ms {
                        e.max_delay_ms
                    } else {
                        delay_ms
                    },
                    max_retries: e.max_retries,
                },
            ),
            RetryPolicyType::Never(n) => RetryPolicyType::Never(n),
        };
    }

    /// The decision after `attempt` consecutive failed attempts.
    pub fn next_delay(&self, attempt: usize) -> (r: RetryDecision)
        ensures
            r@ == self.spec_next_delay(attempt as nat),
    {
        match self {
            RetryPolicyType::Constant(c) => {
                let go = match c.max_retries {
                    None => true,
                    Some(m) => attempt <= m,
                };
                if go {
                    RetryDecision::Retry(c.delay_ms)
                } else {
                    RetryDecision::Stop
                }
            },
            RetryPolicyType::Exponential(e) => {
                let go = match e.max_retries {
                    None => true,
                    Some(m) => attempt <= m,
                };
                if go {
                    RetryDecision::Retry(e.delay_for(attempt))
                } else {
                    RetryDecision::Stop
                }
            },
            RetryPolicyType::Never(_) => RetryDecision::Stop,
        }
    }

    /// The policy a (lower-case) name selects, and the diagnostics to report.
    /// An unknown name selects exponential backoff with the same numbers; a zero
    /// factor, where the policy uses one, is replaced by the default factor.
    pub open spec fn spec_from_name(
        name: Seq<char>,
        max_retries: usize,
        initial_delay: u64,
        factor_milli: u64,
        max_delay: u64,
    ) -> (RetryPolicyType, Seq<Seq<char>>) {
        let exp = RetryPolicyType::Exponential(
            ExponentialBackoff {
                start_ms: initial_delay,
                factor_milli: if factor_milli == 0 {
                    DEFAULT_FACTOR_MILLI
                } else {
                    factor_milli
                },
                max_delay_ms: max_delay,
                max_retries: Some(max_retries),
            },
        );
        let factor_notes: Seq<Seq<char>> = if factor_milli == 0 {
            seq![INVALID_FACTOR_MESSAGE@]
        } else {
            Seq::empty()
        };
        if name == "constant"@ {
            (
                RetryPolicyType::Constant(
                    Constant { delay_ms: initial_delay, max_retries: Some(max_retries) },
                ),
                Seq::empty(),
            )
        } else if name == "exponential"@ {
            (exp, factor_notes)
        } else if name == "never"@ {
            (RetryPolicyType::Never(Never), Seq::empty())
        } else {
            (exp, seq![INVALID_POLICY_MESSAGE@] + factor_notes)
        }
    }

    /// Builds the policy that an already lower-cased `name` selects. An unknown
    /// name falls back to exponential backoff and pushes one diagnostic; a zero
    /// factor for exponential backoff falls back to the default and pushes one.
    pub fn from_lowercase_name(
        name: &str,
        max_retries: usize,
        initial_delay: u64,
        factor_milli: u64,
        max_delay: u64,
        diagnostics: &mut Vec<String>,
    ) -> (r: RetryPolicyType)
        ensures
            r == Self::spec_from_name(name@, max_retries, initial_delay, factor_milli, max_delay).0,
            reports(
                old(diagnostics)@,
                final(diagnostics)@,
                Self::spec_from_name(name@, max_retries, initial_delay, factor_milli, max_delay).1,
            ),
    {
        let n = name.to_owned();
        let ghost before = diagnostics@;
        let f = if factor_milli == 0 {
            DEFAULT_FACTOR_MILLI
        } else {
            factor_milli
        };
        let exp = RetryPolicyType::Exponential(
            ExponentialBackoff {
                start_ms: initial_delay,
                factor_milli: f,
                max_delay_ms: max_delay,
                max_retries: Some(max_retries),
            },
        );
        let r = if n == String::from_str("constant") {
            RetryPolicyType::Constant(Constant { delay_ms: initial_delay, max_retries: Some(max_retries) })
        } else if n == String::from_str("exponential") {
            if factor_milli == 0 {
                diagnostics.push(String::from_str(INVALID_FACTOR_MESSAGE));
            }
            exp
        } else if n == String::from_str("never") {
            RetryPolicyType::Never(Never)
        } else {
            diagnostics.push(String::from_str(INVALID_POLICY_MESSAGE));
            if factor_milli == 0 {
                diagnostics.push(String::from_str(INVALID_FACTOR_MESSAGE));
            }
            exp
        };
        proof {
            let msgs = Self::spec_from_name(name@, max_retries, initial_delay, factor_milli, max_delay).1;
            assert(diagnostics@.take(before.len() as int) =~= before);
            assert(diagnostics@.len() == before.len() + msgs.len());
            assert forall|k: int| 0 <= k < msgs.len() implies #[trigger] diagnostics@[before.len() + k]@
                == msgs[k] by {
                if name@ != "constant"@ && name@ != "never"@ && name@ != "exponential"@ {
                    if k == 1 {
                        assert(msgs[1] == INVALID_FACTOR_MESSAGE@);
                    }
                }
            }
        }
        r
    }

    /// Builds the policy that `policy` names, in any case: "constant", "exponential"
    /// or "never". An unknown name falls back to exponential backoff with the same
    /// numbers and pushes one diagnostic; a zero factor for exponential backoff
    /// falls back to the default and pushes one.
    pub fn from_args(
        policy: &str,
        max_retries: usize,
        initial_delay: u64,
        factor_milli: u64,
        max_delay: u64,
        diagnostics: &mut Vec<String>,
    ) -> (r: RetryPolicyType)
        ensures
            r == Self::spec_from_name(
                lower_of(policy@),
                max_retries,
                initial_delay,
                factor_milli,
                max_delay,
            ).0,
            reports(
                old(diagnostics)@,
                final(diagnostics)@,
                Self::spec_from_name(
                    lower_of(policy@),
                    max_retries,
                    initial_delay,
                    factor_milli,
                    max_delay,
                ).1,
            ),
    {
        let lowered = lowercase(policy);
        Self::from_lowercase_name(
            lowered.as_str(),
            max_retries,
            initial_delay,
            factor_milli,
            max_delay,
            diagnostics,
        )
    }
}

} // verus!
