//! The provider layer: the neutral result of a model call.

use vstd::prelude::*;

use crate::domain::message::{
    blocks_view, lemma_texts_selected, response_text, response_text_v, tells, BlockV,
    CompletionResponse, ContentBlock, MessagesResponse, ResponseV, Usage,
};
use crate::error::{bridged, AgentError, LlmError};
use crate::text::owned;

pub mod openai;

verus! {

broadcast use vstd::string::group_string_axioms;

/// Provider-neutral result of a streamed completion.
#[derive(Debug)]
pub enum CallResult {
    Success(MessagesResponse),
    PromptTooLong(LlmError),
    Failure(LlmError),
    Cancelled,
}

impl CallResult {
    /// The response, or the error as it appears above the provider layer.
    pub fn into_response(self) -> (r: Result<MessagesResponse, AgentError>)
        ensures
            match self {
                CallResult::Success(m) => r == Ok::<MessagesResponse, AgentError>(m),
                CallResult::PromptTooLong(e) => r == Err::<MessagesResponse, AgentError>(bridged(e)),
                CallResult::Failure(e) => r == Err::<MessagesResponse, AgentError>(bridged(e)),
                CallResult::Cancelled => r matches Err(AgentError::Stream(m)) && m@ == "Cancelled"@,
            },
    {
        match self {
            CallResult::Success(m) => Ok(m),
            CallResult::PromptTooLong(e) => Err(AgentError::from(e)),
            CallResult::Failure(e) => Err(AgentError::from(e)),
            CallResult::Cancelled => Err(AgentError::Stream(owned("Cancelled"))),
        }
    }

    /// Whether the prompt was too long: a look at the variant alone.
    pub fn is_prompt_too_long(&self) -> (r: bool)
        ensures
            r == (*self is PromptTooLong),
    {
        matches!(self, CallResult::PromptTooLong(_))
    }

    /// The stateless completion that the call gives: its texts, one per line, and its usage.
    pub fn into_completion(self) -> (r: Result<CompletionResponse, LlmError>)
        ensures
            match self {
                CallResult::Success(m) => r matches Ok(c) && c.content@ == response_text_v(
                    blocks_view(m.content@),
                ) && match m.usage {
                    Some(u) => c.prompt_tokens == u.input_tokens as u32 && c.completion_tokens
                        == u.output_tokens as u32,
                    None => c.prompt_tokens == 0 && c.completion_tokens == 0,
                },
                CallResult::PromptTooLong(e) => r == Err::<CompletionResponse, LlmError>(e),
                CallResult::Failure(e) => r == Err::<CompletionResponse, LlmError>(e),
                CallResult::Cancelled => r matches Err(LlmError::Stream(m)) && m@ == "Cancelled"@,
            },
            self matches CallResult::Success(m) ==> (r matches Ok(c) && tells(
                c.content@,
                blocks_view(m.content@),
            )),
    {
        match self {
            CallResult::Success(m) => {
                proof {
                    lemma_texts_selected(blocks_view(m.content@));
                }
                let content = response_text(&m.content);
                let (prompt_tokens, completion_tokens): (u32, u32) = match m.usage {
                    Some(u) => (
                        #[verifier::truncate] (u.input_tokens as u32),
                        #[verifier::truncate] (u.output_tokens as u32),
                    ),
                    None => (0, 0),
                };
                Ok(CompletionResponse { content, prompt_tokens, completion_tokens })
            },
            CallResult::PromptTooLong(e) => Err(e),
            CallResult::Failure(e) => Err(e),
            CallResult::Cancelled => Err(LlmError::Stream(owned("Cancelled"))),
        }
    }
}

/// A response of one text block that ends the turn.
pub open spec fn stop_response(text: Seq<char>, usage: Usage) -> ResponseV {
    ResponseV { content: seq![BlockV::Text { text }], finish_reason: "stop"@, usage: Some(usage) }
}

/// A response of one text block that ends the turn.
pub fn text_stop(text: &str, usage: Usage) -> (r: MessagesResponse)
    ensures
        r@ == stop_response(text@, usage),
{
    let mut content: Vec<ContentBlock> = Vec::new();
    content.push(ContentBlock::text(text));
    let r = MessagesResponse { content, finish_reason: owned("stop"), usage: Some(usage) };
    assert(r@.content =~= seq![BlockV::Text { text: text@ }]);
    r
}

/// A provider that always answers the same text, for tests and demonstrations.
pub struct MockProvider {
    content: String,
}

impl View for MockProvider {
    type V = Seq<char>;

    closed spec fn view(&self) -> Seq<char> {
        self.content@
    }
}

impl MockProvider {
    pub fn new(content: &str) -> (r: Self)
        ensures
            r@ == content@,
    {
        MockProvider { content: owned(content) }
    }

    /// The answer to any request.
    pub fn stream_messages(&self) -> (r: CallResult)
        ensures
            r matches CallResult::Success(m) && m@ == stop_response(
                self@,
                (Usage { input_tokens: 0, output_tokens: 0 }),
            ),
    {
        CallResult::Success(
            text_stop(self.content.as_str(), Usage { input_tokens: 0, output_tokens: 0 }),
        )
    }

    /// The stateless completion of any request.
    pub fn generate_completion(&self) -> (r: Result<CompletionResponse, LlmError>)
        ensures
            r matches Ok(c) && c.content@ == self@ && c.prompt_tokens == 0 && c.completion_tokens
                == 0,
    {
        let call = self.stream_messages();
        let ghost m = call->Success_0;
        let r = call.into_completion();
        proof {
            let v = m@.content;
            assert(v.drop_last() =~= Seq::<BlockV>::empty());
            reveal_with_fuel(crate::domain::message::block_texts, 2);
            assert(crate::domain::message::block_texts(v) =~= seq![self@]);
        }
        r
    }
}

/// An error of a provider, with texts as sequences of characters.
#[verifier::ext_equal]
pub enum ErrorV {
    AuthError(Seq<char>),
    RateLimit(Seq<char>),
    Network(Seq<char>),
    Timeout { seconds: u64 },
    Stream(Seq<char>),
    InvalidResponse(Seq<char>),
    PromptTooLong(Seq<char>),
    Other(Seq<char>),
}

/// The view of an error.
pub open spec fn error_view(e: LlmError) -> ErrorV {
    match e {
        LlmError::AuthError(m) => ErrorV::AuthError(m@),
        LlmError::RateLimit(m) => ErrorV::RateLimit(m@),
        LlmError::Network(m) => ErrorV::Network(m@),
        LlmError::Timeout { seconds } => ErrorV::Timeout { seconds },
        LlmError::Stream(m) => ErrorV::Stream(m@),
        LlmError::InvalidResponse(m) => ErrorV::InvalidResponse(m@),
        LlmError::PromptTooLong(m) => ErrorV::PromptTooLong(m@),
        LlmError::Other(m) => ErrorV::Other(m@),
    }
}

/// What a call came to, with texts as sequences of characters.
#[verifier::ext_equal]
pub enum CallV {
    Success(ResponseV),
    PromptTooLong(ErrorV),
    Failure(ErrorV),
    Cancelled,
}

impl View for CallResult {
    type V = CallV;

    open spec fn view(&self) -> CallV {
        match *self {
            CallResult::Success(m) => CallV::Success(m@),
            CallResult::PromptTooLong(e) => CallV::PromptTooLong(error_view(e)),
            CallResult::Failure(e) => CallV::Failure(error_view(e)),
            CallResult::Cancelled => CallV::Cancelled,
        }
    }
}

} // verus!
