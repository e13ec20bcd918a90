//! The logic of a streaming chat agent for a local IDE: it builds the conversation sent to an
//! OpenAI-compatible chat endpoint within a token budget, frames the server-sent-event stream
//! that comes back, follows the reasoning and content deltas, detects the tool commands that the
//! model writes, and formats what each tool returns.
pub mod text;
pub mod json;
pub mod budget;
pub mod message;
pub mod history;
pub mod stream;
pub mod prompt;
pub mod conversation;
pub mod request;
pub mod session;
pub mod tools;
pub mod tree;
pub mod walk;
