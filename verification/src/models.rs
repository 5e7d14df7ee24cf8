//! Plain data types of the chat client: engines as configured, chat
//! messages, and the model listings the two engine families answer with.
//! The network and database traffic that fills them stays outside the
//! library.

use vstd::prelude::*;

verus! {

/// Connection options of one configured engine.
#[derive(Debug, Clone)]
pub struct ClientOptions {
    pub url: Option<String>,
    pub api_key: Option<String>,
}

/// One configured engine: its row id, display name, engine kind, and
/// connection options.
#[derive(Debug, Clone)]
pub struct Engine {
    pub id: i64,
    pub name: String,
    pub kind: String,
    pub options: ClientOptions,
}

/// One turn of a conversation.
#[derive(Debug, Clone)]
pub struct ChatMessage {
    pub role: String,
    pub content: String,
}

/// One model name as the Ollama tags listing reports it.
#[derive(Debug)]
pub struct OllamaModel {
    pub name: String,
}

/// One streamed chunk of an Ollama chat answer.
#[derive(Debug)]
pub struct ChatResponse {
    pub message: ChatMessage,
    pub done: bool,
}

/// One model as the OpenAI-compatible models listing reports it.
#[derive(Debug)]
pub struct OpenAIModel {
    pub id: String,
}

} // verus!
