//! The data model of the upstream chat-completion provider: plain-value
//! mirrors of the request/response payloads the gateway inspects. The
//! HTTP client that fills them lives outside the library.

use vstd::prelude::*;

verus! {

/// One chat message: a role and its text content.
#[derive(Debug, Clone)]
pub struct ChatMessage {
    pub role: String,
    pub content: String,
}

/// The incremental content delta of one streamed choice.
#[derive(Debug, Clone)]
pub struct OpenAIDelta {
    pub role: Option<String>,
    pub content: Option<String>,
}

/// One choice of a streamed chunk.
#[derive(Debug, Clone)]
pub struct OpenAIChoice {
    pub index: Option<u32>,
    pub delta: Option<OpenAIDelta>,
    pub finish_reason: Option<String>,
}

/// One decoded line of the upstream event stream.
#[derive(Debug, Clone)]
pub struct OpenAIStreamChunk {
    pub id: Option<String>,
    pub choices: Vec<OpenAIChoice>,
}

/// Token accounting of a buffered completion.
#[derive(Debug, Clone)]
pub struct OpenAIUsage {
    pub prompt_tokens: Option<u32>,
    pub completion_tokens: Option<u32>,
    pub total_tokens: Option<u32>,
}

/// One choice of a buffered completion.
#[derive(Debug, Clone)]
pub struct OpenAIChatCompletionChoice {
    pub index: Option<u32>,
    pub message: Option<ChatMessage>,
    pub finish_reason: Option<String>,
}

/// A full buffered chat-completion response.
#[derive(Debug, Clone)]
pub struct OpenAIChatCompletionResponse {
    pub id: Option<String>,
    pub object: Option<String>,
    pub created: Option<i64>,
    pub model: Option<String>,
    pub choices: Vec<OpenAIChatCompletionChoice>,
    pub usage: Option<OpenAIUsage>,
}

} // verus!
