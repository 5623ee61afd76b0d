//! Language models: the provider interface, the usage of a session, and its limits.

use crate::error::{AxilError, Result};
use crate::importance::INFINITY_BITS;
use vstd::prelude::*;

verus! {

/// A language model. The calls may block.
pub trait LlmProvider: Send + Sync {
    /// Completes a prompt.
    fn complete(&self, prompt: &str) -> Result<LlmResponse>;

    /// Answers a prompt with JSON of the kind that the hint describes.
    fn extract_json(&self, prompt: &str, schema_hint: &str) -> Result<LlmResponse>;

    /// The name of the model.
    fn model_name(&self) -> &str;

    /// Whether the model can be called.
    fn is_available(&self) -> bool;
}

/// What a model replied.
#[derive(Clone, Debug)]
pub struct LlmResponse {
    /// The text.
    pub text: String,
    /// Tokens read, or 0 where that is not known.
    pub input_tokens: u64,
    /// Tokens written, or 0 where that is not known.
    pub output_tokens: u64,
}

/// No model: every call fails, so that the callers do without.
#[derive(Debug)]
pub struct NoLlm;

impl LlmProvider for NoLlm {
    fn complete(&self, _prompt: &str) -> (r: Result<LlmResponse>)
        ensures
            r matches Err(AxilError::Plugin(m)) && m@ == "no LLM configured"@,
    {
        Err(AxilError::plugin("no LLM configured"))
    }

    fn extract_json(&self, _prompt: &str, _schema_hint: &str) -> (r: Result<LlmResponse>)
        ensures
            r matches Err(AxilError::Plugin(m)) && m@ == "no LLM configured"@,
    {
        Err(AxilError::plugin("no LLM configured"))
    }

    fn model_name(&self) -> (r: &str)
        ensures
            r@ == "none"@,
    {
        "none"
    }

    fn is_available(&self) -> (r: bool)
        ensures
            !r,
    {
        false
    }
}

/// What a session has used. The cost is held by the bits of its IEEE number.
#[derive(Clone, Copy, Debug)]
pub struct LlmUsage {
    /// Calls that were made.
    pub calls: u64,
    /// Tokens read.
    pub input_tokens: u64,
    /// Tokens written.
    pub output_tokens: u64,
    /// The cost in dollars, as far as the prices are known.
    pub estimated_cost_usd: u64,
    /// Calls that were not made.
    pub fallback_count: u64,
}

/// The counters of a session. They go round at the end of their range.
#[derive(Clone, Copy, Debug)]
pub struct LlmUsageTracker {
    pub calls: u64,
    pub input_tokens: u64,
    pub output_tokens: u64,
    pub fallback_count: u64,
}

impl LlmUsageTracker {
    /// Counters at zero.
    pub fn new() -> (r: Self)
        ensures
            r == (LlmUsageTracker { calls: 0, input_tokens: 0, output_tokens: 0, fallback_count: 0 }),
    {
        LlmUsageTracker { calls: 0, input_tokens: 0, output_tokens: 0, fallback_count: 0 }
    }

    /// The counters after one more call.
    pub open spec fn called(self, input_tokens: u64, output_tokens: u64) -> Self {
        LlmUsageTracker {
            calls: self.calls.wrapping_add(1),
            input_tokens: self.input_tokens.wrapping_add(input_tokens),
            output_tokens: self.output_tokens.wrapping_add(output_tokens),
            fallback_count: self.fallback_count,
        }
    }

    /// The counters after one more call that was not made.
    pub open spec fn fallen_back(self) -> Self {
        LlmUsageTracker { fallback_count: self.fallback_count.wrapping_add(1), ..self }
    }

    /// Counts a call.
    pub fn record_call(&mut self, input_tokens: u64, output_tokens: u64)
        ensures
            *final(self) == old(self).called(input_tokens, output_tokens),
    {
        self.calls = self.calls.wrapping_add(1);
        self.input_tokens = self.input_tokens.wrapping_add(input_tokens);
        self.output_tokens = self.output_tokens.wrapping_add(output_tokens);
    }

    /// Counts a call that was not made.
    pub fn record_fallback(&mut self)
        ensures
            *final(self) == old(self).fallen_back(),
    {
        self.fallback_count = self.fallback_count.wrapping_add(1);
    }

    /// The usage, with the cost that the prices give.
    pub open spec fn used(self, cost: u64) -> LlmUsage {
        LlmUsage {
            calls: self.calls,
            input_tokens: self.input_tokens,
            output_tokens: self.output_tokens,
            estimated_cost_usd: cost,
            fallback_count: self.fallback_count,
        }
    }

    /// The usage, with the cost that the prices give.
    pub fn usage(&self, cost: u64) -> (r: LlmUsage)
        ensures
            r == self.used(cost),
    {
        LlmUsage {
            calls: self.calls,
            input_tokens: self.input_tokens,
            output_tokens: self.output_tokens,
            estimated_cost_usd: cost,
            fallback_count: self.fallback_count,
        }
    }
}

/// The bits of one dollar.
pub const ONE_DOLLAR: u64 = 0x3ff0_0000_0000_0000;

/// The limits of a session; 0 stands for none. The budget is held by the bits of its
/// IEEE number.
#[derive(Clone, Copy, Debug)]
pub struct LlmLimits {
    /// Calls in a minute.
    pub max_calls_per_minute: u64,
    /// Tokens in a session.
    pub max_tokens_per_session: u64,
    /// Dollars in a day.
    pub budget_usd_per_day: u64,
}

impl Default for LlmLimits {
    fn default() -> (r: LlmLimits)
        ensures
            r.max_calls_per_minute == 10,
            r.max_tokens_per_session == 50_000,
            r.budget_usd_per_day == ONE_DOLLAR,
    {
        LlmLimits {
            max_calls_per_minute: 10,
            max_tokens_per_session: 50_000,
            budget_usd_per_day: ONE_DOLLAR,
        }
    }
}

impl LlmLimits {
    /// Whether the tokens of a session are used up.
    pub open spec fn tokens_used_up(self, usage: LlmUsage) -> bool {
        self.max_tokens_per_session > 0 && usage.input_tokens + usage.output_tokens
            >= self.max_tokens_per_session
    }

    /// Whether the budget is used up: bits of numbers that are not negative are in the
    /// order of the numbers.
    pub open spec fn budget_used_up(self, usage: LlmUsage) -> bool {
        0 < self.budget_usd_per_day <= usage.estimated_cost_usd <= INFINITY_BITS
    }
}

/// One minute in nanoseconds.
pub const MINUTE_NS: u64 = 60_000_000_000;

/// Whether a call at `t` is less than a minute back at `now`.
pub open spec fn within_a_minute(t: u64, now: u64) -> bool {
    t + MINUTE_NS > now
}

/// Holds a session to its limits. Times are in nanoseconds of one steady clock.
#[derive(Debug)]
pub struct LlmRateLimiter {
    limits: LlmLimits,
    recent_calls: Vec<u64>,
}

impl LlmRateLimiter {
    /// The limits.
    pub closed spec fn bounds(self) -> LlmLimits {
        self.limits
    }

    /// The times of the calls that are remembered.
    pub closed spec fn recent(self) -> Seq<u64> {
        self.recent_calls@
    }

    /// The remembered calls that are less than a minute back.
    pub open spec fn last_minute(self, now: u64) -> Seq<u64> {
        self.recent().filter(|t: u64| within_a_minute(t, now))
    }

    /// Whether a call may be made.
    pub open spec fn admits(self, usage: LlmUsage, now: u64) -> bool {
        &&& !self.bounds().tokens_used_up(usage)
        &&& !self.bounds().budget_used_up(usage)
        &&& self.bounds().max_calls_per_minute == 0 || self.last_minute(now).len()
            < self.bounds().max_calls_per_minute
    }

    /// The times that are remembered once a call was asked for.
    pub open spec fn remembered(self, usage: LlmUsage, now: u64) -> Seq<u64> {
        if self.bounds().tokens_used_up(usage) || self.bounds().budget_used_up(usage) {
            self.recent()
        } else if self.bounds().max_calls_per_minute == 0 {
            self.recent().push(now)
        } else if self.admits(usage, now) {
            self.last_minute(now).push(now)
        } else {
            self.last_minute(now)
        }
    }

    /// A session without calls.
    pub fn new(limits: LlmLimits) -> (r: Self)
        ensures
            r.bounds() == limits,
            r.recent().len() == 0,
    {
        LlmRateLimiter { limits, recent_calls: Vec::new() }
    }

    /// Forgets the calls that are a minute back or more.
    fn forget(&mut self, now: u64)
        ensures
            final(self).bounds() == old(self).bounds(),
            final(self).recent() == old(self).last_minute(now),
    {
        let ghost all = self.recent_calls@;
        let ghost p = |t: u64| within_a_minute(t, now);
        let mut kept: Vec<u64> = Vec::new();
        let mut i: usize = 0;
        proof {
            reveal(Seq::filter);
            assert(kept@ =~= all.take(0).filter(p));
        }
        while i < self.recent_calls.len()
            invariant
                i <= all.len(),
                self.recent_calls@ == all,
                self.limits == old(self).limits,
                p == (|t: u64| within_a_minute(t, now)),
                kept@ == all.take(i as int).filter(p),
            decreases all.len() - i,
        {
            let t = self.recent_calls[i];
            proof {
                reveal(Seq::filter);
                assert(all.take(i + 1).drop_last() =~= all.take(i as int));
                assert(all.take(i + 1).last() == t);
            }
            if now < t || now - t < MINUTE_NS {
                kept.push(t);
            }
            i += 1;
        }
        assert(all.take(i as int) =~= all);
        self.recent_calls = kept;
    }

    /// Says whether a call may be made, and remembers it where it may.
    pub fn check_and_record(&mut self, usage: &LlmUsage, now: u64) -> (r: bool)
        requires
            old(self).bounds().max_tokens_per_session > 0 ==> usage.input_tokens
                + usage.output_tokens <= u64::MAX,
        ensures
            r == old(self).admits(*usage, now),
            final(self).recent() == old(self).remembered(*usage, now),
            final(self).bounds() == old(self).bounds(),
    {
        if self.limits.max_tokens_per_session > 0 && usage.input_tokens + usage.output_tokens
            >= self.limits.max_tokens_per_session {
            return false;
        }
        let budget = self.limits.budget_usd_per_day;
        let cost = usage.estimated_cost_usd;
        if 0 < budget && budget <= cost && cost <= INFINITY_BITS {
            return false;
        }
        if self.limits.max_calls_per_minute > 0 {
            self.forget(now);
            if self.recent_calls.len() as u64 >= self.limits.max_calls_per_minute {
                return false;
            }
        }
        self.recent_calls.push(now);
        true
    }

    /// The limits.
    pub fn limits(&self) -> (r: &LlmLimits)
        ensures
            *r == self.bounds(),
    {
        &self.limits
    }
}

/// Keeping only some of a list makes it no longer.
proof fn lemma_filter_len(s: Seq<u64>, p: spec_fn(u64) -> bool)
    ensures
        s.filter(p).len() <= s.len(),
    decreases s.len(),
{
    reveal(Seq::filter);
    if s.len() > 0 {
        lemma_filter_len(s.drop_last(), p);
    }
}

/// Whatever a session asks for: where calls are limited, those that were made in the
/// last minute are never more than the limit.
pub proof fn calls_per_minute_are_bounded(l: LlmRateLimiter, usage: LlmUsage, now: u64)
    requires
        l.admits(usage, now),
        l.bounds().max_calls_per_minute > 0,
    ensures
        l.remembered(usage, now).filter(|t: u64| within_a_minute(t, now)).len()
            <= l.bounds().max_calls_per_minute,
        l.remembered(usage, now).last() == now,
{
    lemma_filter_len(l.remembered(usage, now), |t: u64| within_a_minute(t, now));
}

/// What a provider is made from. Prices are in dollars for a million tokens, held by
/// the bits of their IEEE numbers.
#[derive(Clone, Debug)]
pub struct LlmConfig {
    /// The address of the model.
    pub endpoint: Option<String>,
    /// The name of the model.
    pub model: Option<String>,
    /// The key; one in the environment counts first.
    pub api_key: Option<String>,
    /// The limits.
    pub limits: LlmLimits,
    /// The price of tokens read.
    pub cost_per_1m_input: u64,
    /// The price of tokens written.
    pub cost_per_1m_output: u64,
}

/// The bits of 0.15.
pub const DEFAULT_INPUT_PRICE: u64 = 0x3fc3_3333_3333_3333;

/// The bits of 0.60.
pub const DEFAULT_OUTPUT_PRICE: u64 = 0x3fe3_3333_3333_3333;

impl Default for LlmConfig {
    fn default() -> (r: LlmConfig)
        ensures
            r.endpoint is None,
            r.model is None,
            r.api_key is None,
            r.limits.max_calls_per_minute == 10,
            r.limits.max_tokens_per_session == 50_000,
            r.limits.budget_usd_per_day == ONE_DOLLAR,
            r.cost_per_1m_input == DEFAULT_INPUT_PRICE,
            r.cost_per_1m_output == DEFAULT_OUTPUT_PRICE,
    {
        LlmConfig {
            endpoint: None,
            model: None,
            api_key: None,
            limits: LlmLimits::default(),
            cost_per_1m_input: DEFAULT_INPUT_PRICE,
            cost_per_1m_output: DEFAULT_OUTPUT_PRICE,
        }
    }
}

/// A text that may be missing, in the model.
pub open spec fn maybe_text(s: Option<String>) -> Option<Seq<char>> {
    match s {
        Some(t) => Some(t@),
        None => None,
    }
}

impl LlmConfig {
    /// The key that counts, given the one in the environment.
    pub open spec fn key(self, env: Option<Seq<char>>) -> Option<Seq<char>> {
        match env {
            Some(k) => Some(k),
            None => maybe_text(self.api_key),
        }
    }

    /// Whether a provider can be made, given the key in the environment.
    pub fn is_configured(&self, env: Option<&str>) -> (r: bool)
        ensures
            r == (self.endpoint is Some && self.model is Some && (env is Some || self.api_key
                is Some)),
    {
        self.endpoint.is_some() && self.model.is_some() && (env.is_some() || self.api_key.is_some())
    }

    /// The key that counts, given the one in the environment.
    pub fn resolved_api_key(&self, env: Option<&str>) -> (r: Option<String>)
        ensures
            maybe_text(r) == self.key(
                match env {
                    Some(k) => Some(k@),
                    None => None,
                },
            ),
    {
        match env {
            Some(k) => Some(k.to_owned()),
            None => match &self.api_key {
                Some(k) => Some(k.clone()),
                None => None,
            },
        }
    }
}

/// A model with the counters and limits of its session.
#[derive(Debug)]
pub struct LlmSession {
    pub usage: LlmUsageTracker,
    pub limiter: LlmRateLimiter,
}

/// What is asked of a model.
#[derive(Debug)]
pub enum LlmRequest {
    /// A text.
    Complete(String),
    /// JSON of the kind that the hint describes.
    ExtractJson(String, String),
}

/// Whether a model may give this reply to a request.
pub open spec fn replies<P: LlmProvider + ?Sized>(
    provider: &P,
    request: LlmRequest,
    reply: Result<LlmResponse>,
) -> bool {
    match request {
        LlmRequest::Complete(prompt) => exists|p: &str|
            p@ == prompt@ && #[trigger] call_ensures(P::complete, (provider, p), reply),
        LlmRequest::ExtractJson(prompt, hint) => exists|p: &str, h: &str|
            p@ == prompt@ && h@ == hint@ && #[trigger] call_ensures(
                P::extract_json,
                (provider, p, h),
                reply,
            ),
    }
}

/// Whether a call was turned down for this reason.
pub open spec fn refused(r: Result<LlmResponse>, reason: Seq<char>) -> bool {
    r matches Err(AxilError::Plugin(m)) && m@ == reason
}

impl LlmSession {
    /// Whether a call may be made.
    pub open spec fn admits(self, cost: u64, now: u64) -> bool {
        self.limiter.admits(self.usage.used(cost), now)
    }

    /// Decides on a call before it is made: it takes a model that is there, that can
    /// be called, and a session within its limits. A call that is turned down is
    /// counted, unless there is no model at all.
    pub fn admit_call(&mut self, configured: bool, available: bool, cost: u64, now: u64) -> (r:
        Result<()>)
        requires
            configured && available && old(self).limiter.bounds().max_tokens_per_session > 0
                ==> old(self).usage.input_tokens + old(self).usage.output_tokens <= u64::MAX,
        ensures
            ({
                let asked = configured && available;
                let granted = asked && old(self).admits(cost, now);
                &&& r is Ok <==> granted
                &&& r matches Err(e) ==> (e matches AxilError::Plugin(m) && m@ == if !configured {
                    "no LLM configured"@
                } else if !available {
                    "LLM provider is not available"@
                } else {
                    "LLM budget/rate limit reached — falling back to algorithmic"@
                })
                &&& final(self).usage == if configured && !granted {
                    old(self).usage.fallen_back()
                } else {
                    old(self).usage
                }
                &&& final(self).limiter.bounds() == old(self).limiter.bounds()
                &&& final(self).limiter.recent() == if asked {
                    old(self).limiter.remembered(old(self).usage.used(cost), now)
                } else {
                    old(self).limiter.recent()
                }
            }),
    {
        if !configured {
            return Err(AxilError::plugin("no LLM configured"));
        }
        if !available {
            self.usage.record_fallback();
            return Err(AxilError::plugin("LLM provider is not available"));
        }
        let usage = self.usage.usage(cost);
        if !self.limiter.check_and_record(&usage, now) {
            self.usage.record_fallback();
            return Err(
                AxilError::plugin("LLM budget/rate limit reached — falling back to algorithmic"),
            );
        }
        Ok(())
    }

    /// Calls a model within the limits of the session, and counts what was used.
    /// What the model says of itself and what it replies is up to the provider.
    pub fn llm_call_guarded<P: LlmProvider + ?Sized>(
        &mut self,
        provider: Option<&P>,
        request: &LlmRequest,
        cost: u64,
        now: u64,
    ) -> (r: Result<LlmResponse>)
        requires
            provider is Some && old(self).limiter.bounds().max_tokens_per_session > 0 ==> old(
                self,
            ).usage.input_tokens + old(self).usage.output_tokens <= u64::MAX,
        ensures
            match provider {
                None => {
                    &&& refused(r, "no LLM configured"@)
                    &&& final(self).usage == old(self).usage
                    &&& final(self).limiter.recent() == old(self).limiter.recent()
                },
                Some(p) => {
                    ||| {
                        &&& call_ensures(P::is_available, (p,), false)
                        &&& refused(r, "LLM provider is not available"@)
                        &&& final(self).usage == old(self).usage.fallen_back()
                        &&& final(self).limiter.recent() == old(self).limiter.recent()
                    }
                    ||| {
                        &&& call_ensures(P::is_available, (p,), true)
                        &&& final(self).limiter.recent() == old(self).limiter.remembered(
                            old(self).usage.used(cost),
                            now,
                        )
                        &&& if old(self).admits(cost, now) {
                            &&& replies(p, *request, r)
                            &&& final(self).usage == match r {
                                Ok(x) => old(self).usage.called(x.input_tokens, x.output_tokens),
                                Err(_) => old(self).usage,
                            }
                        } else {
                            &&& refused(
                                r,
                                "LLM budget/rate limit reached — falling back to algorithmic"@,
                            )
                            &&& final(self).usage == old(self).usage.fallen_back()
                        }
                    }
                },
            },
            final(self).limiter.bounds() == old(self).limiter.bounds(),
    {
        let available = match provider {
            Some(p) => p.is_available(),
            None => false,
        };
        match self.admit_call(provider.is_some(), available, cost, now) {
            Ok(_) => {},
            Err(e) => {
                return Err(e);
            },
        }
        match provider {
            Some(p) => {
                let reply = match request {
                    LlmRequest::Complete(prompt) => p.complete(prompt.as_str()),
                    LlmRequest::ExtractJson(prompt, hint) => p.extract_json(
                        prompt.as_str(),
                        hint.as_str(),
                    ),
                };
                assert(replies(p, *request, reply));
                match reply {
                    Ok(x) => {
                        self.usage.record_call(x.input_tokens, x.output_tokens);
                        Ok(x)
                    },
                    Err(e) => Err(e),
                }
            },
            None => Err(AxilError::plugin("no LLM configured")),
        }
    }
}

/// A session without limits makes every call. Where calls are limited it makes one just
/// while fewer than that many were made in the last minute, and while the tokens and the
/// dollars are not used up.
pub proof fn limits_of_none_admit_everything(l: LlmRateLimiter, usage: LlmUsage, now: u64)
    ensures
        l.bounds().max_calls_per_minute == 0 && l.bounds().max_tokens_per_session == 0
            && l.bounds().budget_usd_per_day == 0 ==> l.admits(usage, now),
        l.bounds().max_tokens_per_session > 0 && usage.input_tokens + usage.output_tokens
            >= l.bounds().max_tokens_per_session ==> !l.admits(usage, now),
        l.bounds().budget_usd_per_day > 0 && l.bounds().budget_usd_per_day
            <= usage.estimated_cost_usd <= 0x7ff0_0000_0000_0000 ==> !l.admits(usage, now),
        l.bounds().max_calls_per_minute > 0 && l.recent().filter(
            |t: u64| t + 60_000_000_000 > now,
        ).len() >= l.bounds().max_calls_per_minute ==> !l.admits(usage, now),
        usage.input_tokens + usage.output_tokens < l.bounds().max_tokens_per_session
            && usage.estimated_cost_usd < l.bounds().budget_usd_per_day && l.recent().len() == 0
            ==> l.admits(usage, now),
{
    let p = |t: u64| t + 60_000_000_000 > now;
    let q = |t: u64| within_a_minute(t, now);
    assert(p =~= q);
    reveal(Seq::filter);
}

/// A session that may make a call with some usage may make it with less.
pub proof fn less_usage_admits_no_less(
    l: LlmRateLimiter,
    less: LlmUsage,
    more: LlmUsage,
    now: u64,
)
    requires
        less.input_tokens <= more.input_tokens,
        less.output_tokens <= more.output_tokens,
        less.estimated_cost_usd <= more.estimated_cost_usd <= 0x7ff0_0000_0000_0000,
        l.admits(more, now),
    ensures
        l.admits(less, now),
{
}

/// A call that is made is remembered; one that is turned down is not.
pub proof fn made_calls_are_remembered(l: LlmRateLimiter, usage: LlmUsage, now: u64)
    ensures
        l.admits(usage, now) ==> l.remembered(usage, now).len() > 0 && l.remembered(
            usage,
            now,
        ).last() == now,
        !l.admits(usage, now) ==> forall|i: int|
            0 <= i < l.remembered(usage, now).len() ==> l.recent().contains(
                #[trigger] l.remembered(usage, now)[i],
            ),
{
    let p = |t: u64| within_a_minute(t, now);
    if !l.admits(usage, now) {
        assert forall|i: int| 0 <= i < l.remembered(usage, now).len() implies l.recent().contains(
            #[trigger] l.remembered(usage, now)[i],
        ) by {
            let x = l.remembered(usage, now)[i];
            if l.bounds().tokens_used_up(usage) || l.bounds().budget_used_up(usage) {
                assert(l.recent()[i] == x);
            } else {
                assert(l.last_minute(now).contains(x));
                l.recent().lemma_filter_contains_rev(p, x);
            }
        }
    }
}

/// A call counts once, with the tokens that were read and written, each on its own; a call
/// that was not made counts as that alone.
pub proof fn calls_count_once(t: LlmUsageTracker, input: u64, output: u64, cost: u64)
    requires
        t.calls < u64::MAX,
        t.fallback_count < u64::MAX,
        t.input_tokens + input <= u64::MAX,
        t.output_tokens + output <= u64::MAX,
    ensures
        t.called(input, output).calls == t.calls + 1,
        t.called(input, output).input_tokens == t.input_tokens + input,
        t.called(input, output).output_tokens == t.output_tokens + output,
        t.called(input, output).fallback_count == t.fallback_count,
        t.fallen_back().fallback_count == t.fallback_count + 1,
        t.fallen_back().calls == t.calls && t.fallen_back().input_tokens == t.input_tokens
            && t.fallen_back().output_tokens == t.output_tokens,
{
}

/// The usage of a session shows its counters, with the cost.
pub proof fn usage_shows_the_counters(t: &LlmUsageTracker, cost: u64, r: LlmUsage)
    requires
        call_ensures(LlmUsageTracker::usage, (t, cost), r),
    ensures
        r.calls == t.calls,
        r.input_tokens == t.input_tokens,
        r.output_tokens == t.output_tokens,
        r.fallback_count == t.fallback_count,
        r.estimated_cost_usd == cost,
{
}

/// The key in the environment counts before the one in the configuration. A provider can be
/// made where there are an address, a model and a key.
pub proof fn keys_of_the_environment_come_first(
    c: &LlmConfig,
    env: Option<&str>,
    r: Option<String>,
    ready: bool,
)
    requires
        call_ensures(LlmConfig::resolved_api_key, (c, env), r),
        call_ensures(LlmConfig::is_configured, (c, env), ready),
    ensures
        env matches Some(k) ==> (r matches Some(x) && x@ == k@),
        env is None ==> (c.api_key matches Some(k) ==> (r matches Some(x) && x@ == k@)),
        env is None && c.api_key is None ==> r is None,
        ready <==> c.endpoint is Some && c.model is Some && r is Some,
{
}

/// A session makes ten calls a minute, uses fifty thousand tokens and spends a dollar a day,
/// unless other limits are set.
pub proof fn sessions_are_limited_from_the_start(r: LlmLimits, c: LlmConfig)
    requires
        call_ensures(LlmLimits::default, (), r),
        call_ensures(LlmConfig::default, (), c),
    ensures
        r.max_calls_per_minute == 10,
        r.max_tokens_per_session == 50_000,
        r.budget_usd_per_day == 0x3ff0_0000_0000_0000,
        c.endpoint is None && c.model is None && c.api_key is None,
        c.limits.max_calls_per_minute == r.max_calls_per_minute && c.limits.max_tokens_per_session
            == r.max_tokens_per_session && c.limits.budget_usd_per_day == r.budget_usd_per_day,
        c.cost_per_1m_input == 0x3fc3_3333_3333_3333,
        c.cost_per_1m_output == 0x3fe3_3333_3333_3333,
{
}

} // verus!
