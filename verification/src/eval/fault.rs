//! Providers that follow a script, inject faults or retry, so that error paths are tried without a
//! network.

use vstd::prelude::*;

use crate::domain::message::{BlockV, ContentBlock, MessagesResponse, ResponseV, Usage};
use crate::error::LlmError;
use crate::json::Json;
use crate::providers::{error_view, stop_response, text_stop, CallResult, CallV, ErrorV};
use crate::text::{concat2, concat3, decimal, decimal_u64, decimal_usize, owned};

verus! {

broadcast use vstd::string::group_string_axioms;

// ---- responses ----

/// A response of one text that ends the turn, without usage to speak of.
pub fn text_response(text: &str) -> (r: MessagesResponse)
    ensures
        r@ == stop_response(text@, (Usage { input_tokens: 0, output_tokens: 0 })),
{
    text_stop(text, Usage { input_tokens: 0, output_tokens: 0 })
}

/// A response of one text that ends the turn, with this usage.
pub fn resp_with_usage(text: &str, input_tokens: u64, output_tokens: u64) -> (r: MessagesResponse)
    ensures
        r@ == stop_response(text@, (Usage { input_tokens, output_tokens })),
{
    text_stop(text, Usage { input_tokens, output_tokens })
}

/// A response of one tool call.
pub fn tool_call_response(id: &str, name: &str, input: Json) -> (r: MessagesResponse)
    ensures
        r@ == (ResponseV {
            content: seq![BlockV::ToolCall { id: id@, name: name@, input: input@ }],
            finish_reason: "tool_call"@,
            usage: Some(Usage { input_tokens: 0, output_tokens: 0 }),
        }),
{
    let mut content: Vec<ContentBlock> = Vec::new();
    let ghost given = input@;
    content.push(ContentBlock::ToolCall { id: owned(id), name: owned(name), input });
    let r = MessagesResponse {
        content,
        finish_reason: owned("tool_call"),
        usage: Some(Usage { input_tokens: 0, output_tokens: 0 }),
    };
    assert(r@.content =~= seq![BlockV::ToolCall { id: id@, name: name@, input: given }]);
    r
}

pub open spec fn responses_view(s: Seq<MessagesResponse>) -> Seq<ResponseV> {
    s.map_values(|r: MessagesResponse| r@)
}

// ---- script ----

/// The state of a scripted provider.
#[verifier::ext_equal]
pub struct ScriptV {
    pub responses: Seq<ResponseV>,
    pub calls: nat,
}

/// Gives the responses of a script, one for each call, and an error when they are used up.
#[derive(Debug)]
pub struct ScriptedProvider {
    responses: Vec<MessagesResponse>,
    calls: u64,
}

impl View for ScriptedProvider {
    type V = ScriptV;

    closed spec fn view(&self) -> ScriptV {
        ScriptV { responses: responses_view(self.responses@), calls: self.calls as nat }
    }
}

/// What a call of a scripted provider gives.
pub open spec fn scripted_result(s: ScriptV) -> CallV {
    if s.calls < s.responses.len() {
        CallV::Success(s.responses[s.calls as int])
    } else {
        CallV::Failure(
            ErrorV::Other(
                "scripted provider exhausted at call #"@ + decimal(s.calls + 1)
                    + " (add more responses)"@,
            ),
        )
    }
}

impl ScriptedProvider {
    pub fn new(responses: Vec<MessagesResponse>) -> (r: Self)
        ensures
            r@ == (ScriptV { responses: responses_view(responses@), calls: 0 }),
    {
        ScriptedProvider { responses, calls: 0 }
    }

    /// How many calls there were.
    pub fn calls(&self) -> (r: u64)
        ensures
            r == self@.calls,
    {
        self.calls
    }

    /// A call.
    pub fn stream_messages(&mut self) -> (r: CallResult)
        requires
            old(self)@.calls < u64::MAX,
        ensures
            r@ == scripted_result(old(self)@),
            final(self)@ == (ScriptV { calls: old(self)@.calls + 1, ..old(self)@ }),
    {
        let n: u64 = self.calls;
        self.calls = n + 1;
        let k: usize = self.responses.len();
        if n < k as u64 {
            CallResult::Success(self.responses[n as usize].dup())
        } else {
            let head = concat2(
                "scripted provider exhausted at call #",
                decimal_u64(n + 1).as_str(),
            );
            CallResult::Failure(LlmError::Other(concat2(head.as_str(), " (add more responses)")))
        }
    }
}

// ---- faults ----

/// The faults that can be injected.
#[derive(Clone, Copy, Debug, PartialEq, Eq, Structural)]
pub enum Fault {
    RateLimit,
    Timeout,
    MalformedJson,
    AuthError,
}

/// A step of a fault script.
#[derive(Debug)]
pub enum FaultStep {
    Fail(Fault),
    Succeed(MessagesResponse),
}

/// The error of a fault.
pub open spec fn fault_error_v(f: Fault) -> ErrorV {
    match f {
        Fault::RateLimit => ErrorV::RateLimit("injected 429"@),
        Fault::Timeout => ErrorV::Timeout { seconds: 30 },
        Fault::MalformedJson => ErrorV::InvalidResponse("injected malformed JSON"@),
        Fault::AuthError => ErrorV::AuthError("injected 401"@),
    }
}

/// The error of a fault.
pub fn fault_error(f: Fault) -> (r: LlmError)
    ensures
        error_view(r) == fault_error_v(f),
{
    match f {
        Fault::RateLimit => LlmError::RateLimit(owned("injected 429")),
        Fault::Timeout => LlmError::Timeout { seconds: 30 },
        Fault::MalformedJson => LlmError::InvalidResponse(owned("injected malformed JSON")),
        Fault::AuthError => LlmError::AuthError(owned("injected 401")),
    }
}

/// What a step of a fault script gives.
pub open spec fn step_result(step: FaultStep) -> CallV {
    match step {
        FaultStep::Fail(f) => CallV::Failure(fault_error_v(f)),
        FaultStep::Succeed(m) => CallV::Success(m@),
    }
}

/// What each call of a fault script gives.
pub open spec fn script_results(script: Seq<FaultStep>) -> Seq<CallV> {
    script.map_values(|s: FaultStep| step_result(s))
}

/// What the call of the number gives.
pub open spec fn fault_result(script: Seq<CallV>, n: nat) -> CallV {
    if n < script.len() {
        script[n as int]
    } else {
        CallV::Failure(
            ErrorV::Other(
                "fault script exhausted at call #"@ + decimal(n + 1) + " (script len "@ + decimal(
                    script.len(),
                ) + ")"@,
            ),
        )
    }
}

/// Gives the steps of a fault script, one for each call.
#[derive(Debug)]
pub struct FaultyProvider {
    script: Vec<FaultStep>,
    calls: u64,
}

/// The state of a faulty provider: what each call gives, and how many there were.
#[verifier::ext_equal]
pub struct FaultyV {
    pub script: Seq<CallV>,
    pub calls: nat,
}

impl View for FaultyProvider {
    type V = FaultyV;

    closed spec fn view(&self) -> FaultyV {
        FaultyV { script: script_results(self.script@), calls: self.calls as nat }
    }
}

impl FaultyProvider {
    pub fn new(script: Vec<FaultStep>) -> (r: Self)
        ensures
            r@ == (FaultyV { script: script_results(script@), calls: 0 }),
    {
        FaultyProvider { script, calls: 0 }
    }

    /// How many calls there were.
    pub fn calls(&self) -> (r: u64)
        ensures
            r == self@.calls,
    {
        self.calls
    }

    /// A call.
    pub fn stream_messages(&mut self) -> (r: CallResult)
        requires
            old(self)@.calls < u64::MAX,
        ensures
            r@ == fault_result(old(self)@.script, old(self)@.calls),
            final(self)@ == (FaultyV { calls: old(self)@.calls + 1, ..old(self)@ }),
    {
        let n: u64 = self.calls;
        self.calls = n + 1;
        let k: usize = self.script.len();
        if n < k as u64 {
            match &self.script[n as usize] {
                FaultStep::Fail(f) => CallResult::Failure(fault_error(*f)),
                FaultStep::Succeed(m) => CallResult::Success(m.dup()),
            }
        } else {
            let head = concat3(
                "fault script exhausted at call #",
                decimal_u64(n + 1).as_str(),
                " (script len ",
            );
            let text = concat3(head.as_str(), decimal_usize(k).as_str(), ")");
            CallResult::Failure(LlmError::Other(text))
        }
    }
}

// ---- retries ----

/// A failure that may go away: the rate limit, the network, a timeout.
pub open spec fn retryable_v(r: CallV) -> bool {
    r matches CallV::Failure(e) && (e is RateLimit || e is Network || e is Timeout)
}

/// Whether the result is a failure that may go away.
pub fn retryable(result: &CallResult) -> (r: bool)
    ensures
        r == retryable_v(result@),
{
    match result {
        CallResult::Failure(LlmError::RateLimit(_)) => true,
        CallResult::Failure(LlmError::Network(_)) => true,
        CallResult::Failure(LlmError::Timeout { .. }) => true,
        _ => false,
    }
}

/// Whether a further attempt follows the result, where so many retries were made.
pub fn retry_again(result: &CallResult, attempt: u32, max_retries: u32) -> (r: bool)
    ensures
        r == (retryable_v(result@) && attempt < max_retries),
{
    retryable(result) && attempt < max_retries
}

/// Two to the power.
pub open spec fn doubled(n: nat) -> nat
    decreases n,
{
    if n == 0 {
        1
    } else {
        2 * doubled((n - 1) as nat)
    }
}

proof fn lemma_doubled_positive(n: nat)
    ensures
        doubled(n) >= 1,
    decreases n,
{
    if n > 0 {
        lemma_doubled_positive((n - 1) as nat);
    }
}

/// How long to wait before the retry: the base, doubled for each retry that was made.
pub fn retry_delay(base_ms: u64, attempt: u32) -> (r: u64)
    requires
        base_ms * doubled(attempt as nat) <= u64::MAX,
    ensures
        r == base_ms * doubled(attempt as nat),
{
    let mut delay: u64 = base_ms;
    let mut i: u32 = 0;
    assert(doubled(0) == 1);
    assert(base_ms * doubled(0) == base_ms) by (nonlinear_arith)
        requires
            doubled(0) == 1,
    ;
    while i < attempt
        invariant
            i <= attempt,
            delay == base_ms * doubled(i as nat),
            base_ms * doubled(attempt as nat) <= u64::MAX,
        decreases attempt - i,
    {
        proof {
            lemma_doubled_grows((i + 1) as nat, attempt as nat);
            assert(doubled((i + 1) as nat) == 2 * doubled(i as nat));
            assert(base_ms * doubled((i + 1) as nat) <= base_ms * doubled(attempt as nat))
                by (nonlinear_arith)
                requires
                    doubled((i + 1) as nat) <= doubled(attempt as nat),
            ;
            assert(base_ms * (2 * doubled(i as nat)) == 2 * (base_ms * doubled(i as nat)))
                by (nonlinear_arith);
        }
        delay = 2 * delay;
        i += 1;
    }
    delay
}

proof fn lemma_doubled_grows(a: nat, b: nat)
    requires
        a <= b,
    ensures
        doubled(a) <= doubled(b),
    decreases b,
{
    if a < b {
        lemma_doubled_grows(a, (b - 1) as nat);
        lemma_doubled_positive((b - 1) as nat);
    }
}

/// What a provider that retries gives over a script, from a call on: its result, and how many calls
/// there were then.
pub open spec fn retried(script: Seq<CallV>, call: nat, retries_left: nat) -> (CallV, nat)
    decreases retries_left,
{
    let result = fault_result(script, call);
    if retryable_v(result) && retries_left > 0 {
        retried(script, call + 1, (retries_left - 1) as nat)
    } else {
        (result, call + 1)
    }
}

/// What follows the result of an attempt.
#[derive(Debug)]
pub enum RetryStep {
    /// The result is handed on.
    Done(CallResult),
    /// The call is made again after so many milliseconds, as the attempt of this number.
    Wait { delay_ms: u64, attempt: u32 },
}

/// The wait before a retry can be counted: the power of two fits 32 bits, the delay 64.
pub open spec fn delay_fits(base_ms: u64, attempt: nat) -> bool {
    attempt < 32 && base_ms * doubled(attempt) <= u64::MAX
}

/// Retries failures that may go away, a bounded number of times, with a delay that doubles.
#[derive(Debug)]
pub struct RetryProvider {
    pub max_retries: u32,
    pub base_delay_ms: u64,
}

impl RetryProvider {
    pub fn new(max_retries: u32, base_delay_ms: u64) -> (r: Self)
        ensures
            r.max_retries == max_retries,
            r.base_delay_ms == base_delay_ms,
    {
        RetryProvider { max_retries, base_delay_ms }
    }

    /// What follows the result of an attempt, whatever provider it came from: a further attempt after
    /// the base delay, doubled for each attempt that was made, or the result itself.
    pub fn step(&self, result: CallResult, attempt: u32) -> (r: RetryStep)
        requires
            retryable_v(result@) && attempt < self.max_retries ==> delay_fits(
                self.base_delay_ms,
                attempt as nat,
            ),
        ensures
            if retryable_v(result@) && attempt < self.max_retries {
                r == (RetryStep::Wait {
                    delay_ms: (self.base_delay_ms * doubled(attempt as nat)) as u64,
                    attempt: (attempt + 1) as u32,
                })
            } else {
                r == RetryStep::Done(result)
            },
    {
        if retry_again(&result, attempt, self.max_retries) {
            RetryStep::Wait {
                delay_ms: retry_delay(self.base_delay_ms, attempt),
                attempt: attempt + 1,
            }
        } else {
            RetryStep::Done(result)
        }
    }

    /// Calls a scripted provider until it succeeds, fails for good, or the retries are used up. A
    /// script takes no time, so the delays pass at once.
    pub fn stream_messages(&self, inner: &mut FaultyProvider) -> (r: CallResult)
        requires
            old(inner)@.calls + self.max_retries < u64::MAX,
        ensures
            (r@, final(inner)@.calls) == retried(
                old(inner)@.script,
                old(inner)@.calls,
                self.max_retries as nat,
            ),
            final(inner)@.script == old(inner)@.script,
    {
        let ghost script = inner@.script;
        let ghost start = inner@.calls;
        let mut attempt: u32 = 0;
        loop
            invariant
                attempt <= self.max_retries,
                inner@.script == script,
                inner@.calls == start + attempt,
                start + self.max_retries < u64::MAX,
                retried(script, start, self.max_retries as nat) == retried(
                    script,
                    inner@.calls,
                    (self.max_retries - attempt) as nat,
                ),
                script == old(inner)@.script,
                start == old(inner)@.calls,
            decreases self.max_retries - attempt,
        {
            let result = inner.stream_messages();
            if !retry_again(&result, attempt, self.max_retries) {
                return result;
            }
            attempt += 1;
        }
    }
}

// ---- laws ----

/// Retrying makes at least one call and at most one more than the retries allow, and a result that is
/// worth a retry is handed on only when they are used up.
pub proof fn lemma_retry_budget(script: Seq<CallV>, call: nat, max_retries: nat)
    ensures
        call + 1 <= retried(script, call, max_retries).1 <= call + 1 + max_retries,
        retryable_v(retried(script, call, max_retries).0) ==> retried(script, call, max_retries).1
            == call + 1 + max_retries,
    decreases max_retries,
{
    if max_retries > 0 {
        lemma_retry_budget(script, call + 1, (max_retries - 1) as nat);
    }
}

/// A failure that will not go away is handed on at once, after a single call.
pub proof fn lemma_no_retry_of_other_failures(script: Seq<CallV>, call: nat, max_retries: nat)
    requires
        !retryable_v(fault_result(script, call)),
    ensures
        retried(script, call, max_retries) == (fault_result(script, call), call + 1),
{
}

/// So many faults that go away, and then a success, are got over where the retries suffice: the
/// result is the success, after one call for each fault and one more.
pub proof fn lemma_faults_survived(script: Seq<CallV>, call: nat, faults: nat, max_retries: nat)
    requires
        faults <= max_retries,
        forall|i: nat| call <= i < call + faults ==> retryable_v(#[trigger] fault_result(script, i)),
        fault_result(script, call + faults) is Success,
    ensures
        retried(script, call, max_retries) == (
            fault_result(script, call + faults),
            call + faults + 1,
        ),
    decreases faults,
{
    if faults > 0 {
        assert(retryable_v(fault_result(script, call)));
        assert(call + 1 + (faults - 1) as nat == call + faults);
        lemma_faults_survived(script, call + 1, (faults - 1) as nat, (max_retries - 1) as nat);
    }
}

} // verus!
