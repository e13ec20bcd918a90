//! The messages of a chat completion request.
use vstd::prelude::*;

verus! {

/// One part of a multi-part user message.
pub enum ContentPart {
    /// `{"type": "text", "text": ..}`
    Text(Vec<u8>),
    /// `{"type": "image_url", "image_url": {"url": ..}}`
    ImageUrl(Vec<u8>),
}

/// What a message says: a plain text, or a list of parts.
pub enum MessageContent {
    Text(Vec<u8>),
    Parts(Vec<ContentPart>),
}

/// `{"role": .., "content": ..}`
pub struct ChatMessage {
    pub role: Vec<u8>,
    pub content: MessageContent,
}

pub enum PartView {
    Text(Seq<u8>),
    ImageUrl(Seq<u8>),
}

pub enum ContentView {
    Text(Seq<u8>),
    Parts(Seq<PartView>),
}

pub struct MessageView {
    pub role: Seq<u8>,
    pub content: ContentView,
}

impl View for ContentPart {
    type V = PartView;

    open spec fn view(&self) -> PartView {
        match self {
            ContentPart::Text(t) => PartView::Text(t@),
            ContentPart::ImageUrl(u) => PartView::ImageUrl(u@),
        }
    }
}

impl View for MessageContent {
    type V = ContentView;

    open spec fn view(&self) -> ContentView {
        match self {
            MessageContent::Text(t) => ContentView::Text(t@),
            MessageContent::Parts(ps) => ContentView::Parts(ps@.map_values(|p: ContentPart| p@)),
        }
    }
}

impl View for ChatMessage {
    type V = MessageView;

    open spec fn view(&self) -> MessageView {
        MessageView { role: self.role@, content: self.content@ }
    }
}

/// The views of a list of messages.
pub open spec fn messages_view(ms: Seq<ChatMessage>) -> Seq<MessageView> {
    ms.map_values(|m: ChatMessage| m@)
}

/// A message with a plain text content.
pub open spec fn text_message(role: Seq<u8>, text: Seq<u8>) -> MessageView {
    MessageView { role, content: ContentView::Text(text) }
}

/// Builds a message with a plain text content.
pub fn new_text_message(role: Vec<u8>, text: Vec<u8>) -> (m: ChatMessage)
    ensures
        m@ == text_message(role@, text@),
{
    ChatMessage { role, content: MessageContent::Text(text) }
}

} // verus!
