//! The messages of a conversation.
use crate::json::{json_of, json_of_option, Json};
use crate::text::text_option;
use vstd::prelude::*;

verus! {

// ---------------------------------------------------------------------------
// Messages
// ---------------------------------------------------------------------------

/// One part of a message.
#[derive(Debug)]
pub enum Content {
    Text { text: String },
    Image { data: String, mime_type: String },
    Thinking { thinking: String, signature: Option<String> },
    ToolCall {
        id: String,
        name: String,
        arguments: serde_json::Value,
        provider_metadata: Option<serde_json::Value>,
    },
}

/// Why the model stopped.
#[derive(Clone, Copy, Debug, PartialEq, Eq, Structural)]
pub enum StopReason {
    Stop,
    Length,
    ToolUse,
    Error,
    Aborted,
}

/// The tokens that a request took.
#[derive(Clone, Copy, Debug, PartialEq, Eq, Structural)]
pub struct Usage {
    pub input: u64,
    pub output: u64,
    pub cache_read: u64,
    pub cache_write: u64,
    pub total_tokens: u64,
}

/// A message that a model reads or writes.
#[derive(Debug)]
pub enum Message {
    User { content: Vec<Content>, timestamp: u64 },
    Assistant {
        content: Vec<Content>,
        stop_reason: StopReason,
        model: String,
        provider: String,
        usage: Usage,
        timestamp: u64,
        error_message: Option<String>,
    },
    ToolResult {
        tool_call_id: String,
        tool_name: String,
        content: Vec<Content>,
        is_error: bool,
        timestamp: u64,
    },
}

/// A message of the application's own, which no model sees.
#[derive(Debug)]
pub struct ExtensionMessage {
    pub role: String,
    pub data: serde_json::Value,
    pub timestamp: u64,
}

/// A message of a conversation.
#[derive(Debug)]
pub enum AgentMessage {
    Llm(Message),
    Extension(ExtensionMessage),
}

// ---------------------------------------------------------------------------
// What they say
// ---------------------------------------------------------------------------

/// What a [`Content`] says.
pub enum ContentView {
    Text { text: Seq<char> },
    Image { data: Seq<char>, mime_type: Seq<char> },
    Thinking { thinking: Seq<char>, signature: Option<Seq<char>> },
    ToolCall {
        id: Seq<char>,
        name: Seq<char>,
        arguments: Json,
        provider_metadata: Option<Json>,
    },
}

/// What a [`Message`] says.
pub enum MessageView {
    User { content: Seq<ContentView>, timestamp: u64 },
    Assistant {
        content: Seq<ContentView>,
        stop_reason: StopReason,
        model: Seq<char>,
        provider: Seq<char>,
        usage: Usage,
        timestamp: u64,
        error_message: Option<Seq<char>>,
    },
    ToolResult {
        tool_call_id: Seq<char>,
        tool_name: Seq<char>,
        content: Seq<ContentView>,
        is_error: bool,
        timestamp: u64,
    },
}

/// What an [`AgentMessage`] says.
pub enum AgentMessageView {
    Llm(MessageView),
    Extension { role: Seq<char>, data: Json, timestamp: u64 },
}

impl View for Content {
    type V = ContentView;

    open spec fn view(&self) -> ContentView {
        match *self {
            Content::Text { text } => ContentView::Text { text: text@ },
            Content::Image { data, mime_type } => ContentView::Image {
                data: data@,
                mime_type: mime_type@,
            },
            Content::Thinking { thinking, signature } => ContentView::Thinking {
                thinking: thinking@,
                signature: text_option(signature),
            },
            Content::ToolCall { id, name, arguments, provider_metadata } => ContentView::ToolCall {
                id: id@,
                name: name@,
                arguments: json_of(arguments),
                provider_metadata: json_of_option(provider_metadata),
            },
        }
    }
}

/// What the parts of a message say.
pub open spec fn content_views(content: Seq<Content>) -> Seq<ContentView> {
    content.map_values(|part: Content| part@)
}

impl View for Message {
    type V = MessageView;

    open spec fn view(&self) -> MessageView {
        match *self {
            Message::User { content, timestamp } => MessageView::User {
                content: content_views(content@),
                timestamp,
            },
            Message::Assistant {
                content,
                stop_reason,
                model,
                provider,
                usage,
                timestamp,
                error_message,
            } => MessageView::Assistant {
                content: content_views(content@),
                stop_reason,
                model: model@,
                provider: provider@,
                usage,
                timestamp,
                error_message: text_option(error_message),
            },
            Message::ToolResult { tool_call_id, tool_name, content, is_error, timestamp } =>
                MessageView::ToolResult {
                tool_call_id: tool_call_id@,
                tool_name: tool_name@,
                content: content_views(content@),
                is_error,
                timestamp,
            },
        }
    }
}

impl View for AgentMessage {
    type V = AgentMessageView;

    open spec fn view(&self) -> AgentMessageView {
        match *self {
            AgentMessage::Llm(message) => AgentMessageView::Llm(message@),
            AgentMessage::Extension(message) => AgentMessageView::Extension {
                role: message.role@,
                data: json_of(message.data),
                timestamp: message.timestamp,
            },
        }
    }
}

/// What the messages of a conversation say.
pub open spec fn history(messages: Seq<AgentMessage>) -> Seq<AgentMessageView> {
    messages.map_values(|message: AgentMessage| message@)
}

// ---------------------------------------------------------------------------
// Copies
// ---------------------------------------------------------------------------

impl Default for Usage {
    fn default() -> (usage: Usage)
        ensures
            usage == no_usage(),
    {
        Usage { input: 0, output: 0, cache_read: 0, cache_write: 0, total_tokens: 0 }
    }
}

/// No tokens at all.
pub open spec fn no_usage() -> Usage {
    Usage { input: 0, output: 0, cache_read: 0, cache_write: 0, total_tokens: 0 }
}

fn copy_text(text: &Option<String>) -> (copy: Option<String>)
    ensures
        text_option(copy) == text_option(*text),
{
    match text {
        Some(t) => Some(t.clone()),
        None => None,
    }
}

fn copy_value(value: &Option<serde_json::Value>) -> (copy: Option<serde_json::Value>)
    ensures
        json_of_option(copy) == json_of_option(*value),
{
    match value {
        Some(v) => Some(v.clone()),
        None => None,
    }
}

impl Clone for Content {
    fn clone(&self) -> (copy: Content)
        ensures
            copy@ == self@,
    {
        match self {
            Content::Text { text } => Content::Text { text: text.clone() },
            Content::Image { data, mime_type } => Content::Image {
                data: data.clone(),
                mime_type: mime_type.clone(),
            },
            Content::Thinking { thinking, signature } => Content::Thinking {
                thinking: thinking.clone(),
                signature: copy_text(signature),
            },
            Content::ToolCall { id, name, arguments, provider_metadata } => Content::ToolCall {
                id: id.clone(),
                name: name.clone(),
                arguments: arguments.clone(),
                provider_metadata: copy_value(provider_metadata),
            },
        }
    }
}

fn copy_content(content: &Vec<Content>) -> (copy: Vec<Content>)
    ensures
        content_views(copy@) == content_views(content@),
{
    let mut copy: Vec<Content> = Vec::new();
    let mut i: usize = 0;
    while i < content.len()
        invariant
            i <= content.len(),
            content_views(copy@) == content_views(content@).take(i as int),
        decreases content.len() - i,
    {
        let ghost before = copy@;
        let part = content[i].clone();
        copy.push(part);
        proof {
            assert(content_views(copy@) =~= content_views(before).push(part@));
            assert(content_views(content@).take(i + 1) =~= content_views(content@).take(
                i as int,
            ).push(content@[i as int]@));
        }
        i = i + 1;
    }
    assert(content_views(content@).take(i as int) =~= content_views(content@));
    copy
}

impl Clone for Message {
    fn clone(&self) -> (copy: Message)
        ensures
            copy@ == self@,
    {
        match self {
            Message::User { content, timestamp } => Message::User {
                content: copy_content(content),
                timestamp: *timestamp,
            },
            Message::Assistant {
                content,
                stop_reason,
                model,
                provider,
                usage,
                timestamp,
                error_message,
            } => Message::Assistant {
                content: copy_content(content),
                stop_reason: *stop_reason,
                model: model.clone(),
                provider: provider.clone(),
                usage: *usage,
                timestamp: *timestamp,
                error_message: copy_text(error_message),
            },
            Message::ToolResult { tool_call_id, tool_name, content, is_error, timestamp } =>
                Message::ToolResult {
                tool_call_id: tool_call_id.clone(),
                tool_name: tool_name.clone(),
                content: copy_content(content),
                is_error: *is_error,
                timestamp: *timestamp,
            },
        }
    }
}

impl Clone for AgentMessage {
    fn clone(&self) -> (copy: AgentMessage)
        ensures
            copy@ == self@,
    {
        match self {
            AgentMessage::Llm(message) => AgentMessage::Llm(message.clone()),
            AgentMessage::Extension(message) => AgentMessage::Extension(
                ExtensionMessage {
                    role: message.role.clone(),
                    data: message.data.clone(),
                    timestamp: message.timestamp,
                },
            ),
        }
    }
}

// ---------------------------------------------------------------------------
// Laws
// ---------------------------------------------------------------------------

/// A part of a message shows all that it holds.
pub proof fn law_part_shows_what_it_holds(part: Content)
    ensures
        part matches Content::Text { text } ==> part@ == (ContentView::Text { text: text@ }),
        part matches Content::Image { data, mime_type } ==> part@ == (ContentView::Image {
            data: data@,
            mime_type: mime_type@,
        }),
        part matches Content::Thinking { thinking, signature } ==> (
        part@ matches ContentView::Thinking { thinking: shown, signature: signed } && shown
            == thinking@ && (signature matches Some(text) ==> signed == Some(text@)) && (
        signature is None ==> signed is None)),
        part matches Content::ToolCall { id, name, arguments, provider_metadata } ==> (
        part@ matches ContentView::ToolCall {
            id: shown,
            name: named,
            arguments: given,
            provider_metadata: kept,
        } && shown == id@ && named == name@ && given == json_of(arguments) && (
        provider_metadata matches Some(value) ==> kept == Some(json_of(value))) && (
        provider_metadata is None ==> kept is None)),
{
}

/// A message shows all that it holds.
pub proof fn law_message_shows_what_it_holds(message: Message)
    ensures
        message matches Message::User { content, timestamp } ==> message@ == (MessageView::User {
            content: content_views(content@),
            timestamp,
        }),
        message matches Message::Assistant {
            content,
            stop_reason,
            model,
            provider,
            usage,
            timestamp,
            error_message,
        } ==> message@ == (MessageView::Assistant {
            content: content_views(content@),
            stop_reason,
            model: model@,
            provider: provider@,
            usage,
            timestamp,
            error_message: text_option(error_message),
        }),
        message matches Message::ToolResult {
            tool_call_id,
            tool_name,
            content,
            is_error,
            timestamp,
        } ==> message@ == (MessageView::ToolResult {
            tool_call_id: tool_call_id@,
            tool_name: tool_name@,
            content: content_views(content@),
            is_error,
            timestamp,
        }),
{
}

/// A conversation shows each of its messages, and a message each of its parts, in order.
pub proof fn law_conversation_shows_its_messages(
    messages: Seq<AgentMessage>,
    content: Seq<Content>,
    message: Message,
    extension: ExtensionMessage,
    i: int,
)
    ensures
        history(messages).len() == messages.len(),
        0 <= i < messages.len() ==> history(messages)[i] == messages[i]@,
        content_views(content).len() == content.len(),
        0 <= i < content.len() ==> content_views(content)[i] == content[i]@,
        AgentMessage::Llm(message)@ == AgentMessageView::Llm(message@),
        AgentMessage::Extension(extension)@ == (AgentMessageView::Extension {
            role: extension.role@,
            data: json_of(extension.data),
            timestamp: extension.timestamp,
        }),
{
}

} // verus!
