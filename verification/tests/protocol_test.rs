use llm_api_router::error::RouterError;
use llm_api_router::provider::openai::{bearer_token, chat_completions_url, classify_failure, SseDecoder};
use llm_api_router::provider::{ChatMessage, ChatMessageDelta, ContentPart, MessageContent};
use llm_api_router::server::auth::authorize;

#[test]
fn status_codes() {
    assert_eq!(RouterError::Config("x".into()).status_code(), 500);
    assert_eq!(RouterError::Network("x".into()).status_code(), 502);
    assert_eq!(RouterError::Io("x".into()).status_code(), 500);
    assert_eq!(RouterError::HttpError { status: 503, body: "b".into() }.status_code(), 503);
    assert_eq!(RouterError::HttpError { status: 99, body: "b".into() }.status_code(), 500);
    assert_eq!(RouterError::HttpError { status: 1000, body: "b".into() }.status_code(), 500);
    assert_eq!(RouterError::HttpError { status: 999, body: "b".into() }.status_code(), 999);
    assert_eq!(RouterError::RateLimit.status_code(), 429);
    assert_eq!(RouterError::ContextLengthExceeded.status_code(), 400);
    assert_eq!(RouterError::AllProvidersFailed.status_code(), 502);
    assert_eq!(RouterError::ProviderNotFound("p".into()).status_code(), 404);
    assert_eq!(RouterError::NotFound("m".into()).status_code(), 404);
}

#[test]
fn failure_classification() {
    assert!(matches!(classify_failure(429, "context_length".into()), RouterError::RateLimit));
    assert!(matches!(classify_failure(400, "error: context_length_exceeded".into()), RouterError::ContextLengthExceeded));
    assert!(matches!(classify_failure(400, "max_tokens too large".into()), RouterError::ContextLengthExceeded));
    match classify_failure(500, "boom".into()) {
        RouterError::HttpError { status, body } => {
            assert_eq!(status, 500);
            assert_eq!(body, "boom");
        }
        _ => panic!("expected an HTTP error"),
    }
}

#[test]
fn request_addressing() {
    assert_eq!(chat_completions_url("https://api.openai.com/v1"), "https://api.openai.com/v1/chat/completions");
    assert_eq!(bearer_token("sk-1"), "Bearer sk-1");
}

#[test]
fn sse_lines() {
    let mut d = SseDecoder::new();
    let out = d.feed_text("data: {\"a\":1}\n\n  data:{\"b\":2}  \r\nevent: ping\n");
    assert_eq!(out, vec!["{\"a\":1}".to_string(), "{\"b\":2}".to_string()]);
    // the non-data line is kept and seen again with the next batch
    let out = d.feed_text("data: x\n");
    assert_eq!(out, vec!["x".to_string()]);
    let out = d.feed_text("");
    assert!(out.is_empty());
}

#[test]
fn sse_done_ends_the_batch() {
    let mut d = SseDecoder::new();
    let out = d.feed_text("data: 1\ndata: [DONE]\ndata: 2\n");
    assert_eq!(out, vec!["1".to_string()]);
    let out = d.feed_text("data:[DONE]\ndata: 3\n");
    assert!(out.is_empty());
    let out = d.feed_text("data: 4");
    assert_eq!(out, vec!["4".to_string()]);
}

#[test]
fn sse_partial_data_line_is_emitted() {
    let mut d = SseDecoder::new();
    let out = d.feed_text("data: {\"par");
    assert_eq!(out, vec!["{\"par".to_string()]);
    let out = d.feed_text("data:");
    assert_eq!(out, vec![String::new()]);
}

#[test]
fn sse_bytes_are_decoded_lossily() {
    let mut d = SseDecoder::new();
    let out = d.feed(b"data: ok\n");
    assert_eq!(out, vec!["ok".to_string()]);
    let out = d.feed(&[b'd', b'a', b't', b'a', b':', b' ', 0xff, b'\n']);
    assert_eq!(out, vec!["\u{FFFD}".to_string()]);
}

#[test]
fn api_key_admission() {
    assert_eq!(authorize(Some("Bearer sk-router"), "sk-router"), Ok(()));
    assert_eq!(authorize(Some("sk-router"), "sk-router"), Ok(()));
    assert_eq!(authorize(Some("Bearer sk-other"), "sk-router"), Err(401));
    assert_eq!(authorize(Some("bearer sk-router"), "sk-router"), Err(401));
    assert_eq!(authorize(None, "sk-router"), Err(401));
    assert_eq!(authorize(Some("Bearer "), ""), Ok(()));
}

fn part(text: Option<&str>) -> ContentPart {
    ContentPart { part_type: "text".into(), text: text.map(|t| t.to_string()), image_url: None, input_audio: None }
}

#[test]
fn content_as_text() {
    assert_eq!(MessageContent::String("hi".into()).text(), "hi");
    let parts = MessageContent::Parts(vec![part(Some("a")), part(None), part(Some("b"))]);
    assert_eq!(parts.text(), "ab");
    match MessageContent::default() {
        MessageContent::String(s) => assert!(s.is_empty()),
        _ => panic!("default content is text"),
    }
}

#[test]
fn delta_of_message() {
    let m = ChatMessage {
        role: "assistant".into(),
        content: MessageContent::Parts(vec![part(Some("x")), part(Some("y"))]),
        tool_calls: None,
        tool_call_id: None,
        name: None,
        refusal: Some("no".into()),
    };
    let d = ChatMessageDelta::from_message(&m);
    assert_eq!(d.role.as_deref(), Some("assistant"));
    assert_eq!(d.content.as_deref(), Some("xy"));
    assert!(d.tool_calls.is_none());
    assert_eq!(d.refusal.as_deref(), Some("no"));
}
