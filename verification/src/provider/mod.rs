//! Data exchanged with providers in the OpenAI-compatible format, and the
//! conversions the router applies to it.

pub mod openai;

use crate::text::push_str;
use vstd::prelude::*;

verus! {

/// Stop sequences: one string or several.
#[derive(Debug, Clone)]
pub enum StopSequence {
    String(String),
    Array(Vec<String>),
}

/// Tool choice: `"none"`, `"auto"`, `"required"`, or one named function.
#[derive(Debug, Clone)]
pub enum ToolChoice {
    String(String),
    Object { tool_type: String, function: FunctionReference },
}

#[derive(Debug, Clone)]
pub struct FunctionReference {
    pub name: String,
}

/// A tool call made by the assistant.
#[derive(Debug, Clone)]
pub struct ToolCall {
    pub id: String,
    pub tool_type: String,
    pub function: FunctionCall,
}

/// Function and arguments (JSON text) of a tool call.
#[derive(Debug, Clone)]
pub struct FunctionCall {
    pub name: String,
    pub arguments: String,
}

/// Piece of a tool call in a streamed response.
#[derive(Debug, Clone)]
pub struct ToolCallDelta {
    pub index: u32,
    pub tool_type: String,
    pub id: Option<String>,
    pub function: FunctionCallDelta,
}

/// Piece of a function call in a streamed response.
#[derive(Debug, Clone)]
pub struct FunctionCallDelta {
    pub name: Option<String>,
    pub arguments: Option<String>,
}

/// The message part of a streamed response chunk; every field may be absent.
#[derive(Debug, Clone)]
pub struct ChatMessageDelta {
    pub role: Option<String>,
    pub content: Option<String>,
    pub tool_calls: Option<Vec<ToolCallDelta>>,
    pub refusal: Option<String>,
}

/// Message content: plain text or multimodal parts.
#[derive(Debug, Clone)]
pub enum MessageContent {
    String(String),
    Parts(Vec<ContentPart>),
}

impl Default for MessageContent {
    fn default() -> (c: Self)
        ensures
            c matches MessageContent::String(s) && s@ == Seq::<char>::empty(),
    {
        MessageContent::String(String::new())
    }
}

/// One part of multimodal content (`text`, `image_url` or `input_audio`).
#[derive(Debug, Clone)]
pub struct ContentPart {
    pub part_type: String,
    pub text: Option<String>,
    pub image_url: Option<ImageUrl>,
    pub input_audio: Option<InputAudio>,
}

#[derive(Debug, Clone)]
pub struct ImageUrl {
    pub url: String,
    pub detail: Option<String>,
}

/// Audio input, base64 encoded.
#[derive(Debug, Clone)]
pub struct InputAudio {
    pub data: String,
    pub format: String,
}

/// A complete message.
#[derive(Debug, Clone)]
pub struct ChatMessage {
    pub role: String,
    pub content: MessageContent,
    pub tool_calls: Option<Vec<ToolCall>>,
    pub tool_call_id: Option<String>,
    pub name: Option<String>,
    pub refusal: Option<String>,
}

/// Why generation stopped.
#[derive(Debug, Clone)]
pub enum FinishReason {
    Stop,
    Length,
    ToolCalls,
    ContentFilter,
    FunctionCall,
    Other(String),
}

#[derive(Debug, Clone)]
pub struct Usage {
    pub prompt_tokens: u32,
    pub completion_tokens: u32,
    pub total_tokens: u32,
    pub prompt_tokens_details: Option<PromptTokensDetails>,
    pub completion_tokens_details: Option<CompletionTokensDetails>,
}

#[derive(Debug, Clone)]
pub struct PromptTokensDetails {
    pub cached_tokens: u32,
}

#[derive(Debug, Clone)]
pub struct CompletionTokensDetails {
    pub accepted_prediction_tokens: u32,
    pub rejected_prediction_tokens: u32,
    pub reasoning_tokens: u32,
}

/// The answer to a model listing.
#[derive(Debug, Clone)]
pub struct ModelsListResponse {
    pub object: String,
    pub data: Vec<ModelInfo>,
}

/// Description of one model.
#[derive(Debug, Clone)]
pub struct ModelInfo {
    pub id: String,
    pub object: String,
    pub created: u64,
    pub owned_by: String,
    pub model_type: Option<String>,
    pub root: Option<String>,
    pub parent: Option<String>,
    pub permission: Option<Vec<ModelPermission>>,
    pub context_window: Option<u32>,
    pub training_type: Option<Vec<String>>,
    pub capabilities: Option<ModelCapabilities>,
}

#[derive(Debug, Clone)]
pub struct ModelPermission {
    pub id: String,
    pub object: String,
    pub created: u64,
    pub allow_create_engine: bool,
    pub allow_sampling: bool,
    pub allow_logprobs: bool,
    pub allow_search_indices: bool,
    pub allow_view: bool,
    pub allow_fine_tuning: bool,
    pub organization: String,
    pub group: Option<String>,
    pub is_blocking: bool,
}

#[derive(Debug, Clone)]
pub struct ModelCapabilities {
    pub completion_chat: Option<bool>,
    pub completion_text: Option<bool>,
    pub vision_image: Option<bool>,
    pub function_call: Option<bool>,
    pub tool_use: Option<bool>,
    pub reasoning: Option<bool>,
}

/// The texts of the parts that carry one, joined without separator.
pub open spec fn parts_text(parts: Seq<ContentPart>) -> Seq<char>
    decreases parts.len(),
{
    if parts.len() == 0 {
        Seq::empty()
    } else {
        parts_text(parts.drop_last()) + match parts.last().text {
            Some(t) => t@,
            None => Seq::empty(),
        }
    }
}

/// The text of a message content; multimodal parts contribute their texts only.
pub open spec fn content_text(c: MessageContent) -> Seq<char> {
    match c {
        MessageContent::String(s) => s@,
        MessageContent::Parts(parts) => parts_text(parts@),
    }
}

impl MessageContent {
    /// The content as plain text.
    pub fn text(&self) -> (t: String)
        ensures
            t@ == content_text(*self),
    {
        match self {
            MessageContent::String(s) => s.clone(),
            MessageContent::Parts(parts) => {
                let mut t = String::new();
                let mut i: usize = 0;
                while i < parts.len()
                    invariant
                        i <= parts@.len(),
                        t@ == parts_text(parts@.take(i as int)),
                    decreases parts@.len() - i,
                {
                    assert(parts@.take(i + 1).drop_last() == parts@.take(i as int));
                    match &parts[i].text {
                        Some(s) => push_str(&mut t, s.as_str()),
                        None => {
                            assert(t@ + Seq::<char>::empty() == t@);
                        },
                    }
                    i += 1;
                }
                assert(parts@.take(parts@.len() as int) == parts@);
                t
            },
        }
    }
}

/// A copy of an optional text.
fn copy_opt(s: &Option<String>) -> (r: Option<String>)
    ensures
        r is Some <==> s is Some,
        r matches Some(x) ==> x@ == s->0@,
{
    match s {
        Some(x) => Some(x.clone()),
        None => None,
    }
}

impl ChatMessageDelta {
    /// The delta that carries a whole message in one piece: its role, its
    /// content as text and its refusal; no tool calls.
    pub fn from_message(message: &ChatMessage) -> (d: Self)
        ensures
            d.role matches Some(r) && r@ == message.role@,
            d.content matches Some(c) && c@ == content_text(message.content),
            d.tool_calls is None,
            d.refusal is Some <==> message.refusal is Some,
            d.refusal matches Some(r) ==> r@ == message.refusal->0@,
    {
        ChatMessageDelta {
            role: Some(message.role.clone()),
            content: Some(message.content.text()),
            tool_calls: None,
            refusal: copy_opt(&message.refusal),
        }
    }
}

} // verus!
