//! Messages of a conversation, in the order in which a request replays them.

use vstd::prelude::*;

verus! {

#[derive(Debug, Clone, Copy, PartialEq, Eq, Structural)]
pub struct Timestamp {
    pub seconds: i64,
    pub nanos: i32,
}

/// What a tool call asks for, as far as histories are cut by it.
#[derive(Debug, Clone, Copy, PartialEq, Eq, Structural)]
pub enum Tool {
    /// Starts a subtask; its result is the subtask's own history.
    Subagent,
    Other,
}

#[derive(Debug, PartialEq, Eq)]
pub enum MessageBody {
    UserQuery { query: String },
    AgentOutput { text: String },
    AgentReasoning { reasoning: String },
    ToolCall { tool_call_id: String, tool: Option<Tool> },
    ToolCallResult { tool_call_id: String },
    Other,
}

#[derive(Debug, PartialEq, Eq)]
pub struct Message {
    pub id: String,
    pub task_id: String,
    pub request_id: String,
    pub timestamp: Option<Timestamp>,
    pub body: Option<MessageBody>,
    /// Everything else that the message carries, encoded.
    pub rest: Vec<u8>,
}

pub enum BodyView {
    UserQuery { query: Seq<char> },
    AgentOutput { text: Seq<char> },
    AgentReasoning { reasoning: Seq<char> },
    ToolCall { tool_call_id: Seq<char>, tool: Option<Tool> },
    ToolCallResult { tool_call_id: Seq<char> },
    Other,
}

pub struct MessageView {
    pub id: Seq<char>,
    pub task_id: Seq<char>,
    pub request_id: Seq<char>,
    pub timestamp: Option<Timestamp>,
    pub body: Option<BodyView>,
    pub rest: Seq<u8>,
}

impl View for MessageBody {
    type V = BodyView;

    open spec fn view(&self) -> BodyView {
        match self {
            MessageBody::UserQuery { query } => BodyView::UserQuery { query: query@ },
            MessageBody::AgentOutput { text } => BodyView::AgentOutput { text: text@ },
            MessageBody::AgentReasoning { reasoning } => BodyView::AgentReasoning {
                reasoning: reasoning@,
            },
            MessageBody::ToolCall { tool_call_id, tool } => BodyView::ToolCall {
                tool_call_id: tool_call_id@,
                tool: *tool,
            },
            MessageBody::ToolCallResult { tool_call_id } => BodyView::ToolCallResult {
                tool_call_id: tool_call_id@,
            },
            MessageBody::Other => BodyView::Other,
        }
    }
}

pub open spec fn body_view(body: Option<MessageBody>) -> Option<BodyView> {
    match body {
        Some(b) => Some(b@),
        None => None,
    }
}

impl View for Message {
    type V = MessageView;

    open spec fn view(&self) -> MessageView {
        MessageView {
            id: self.id@,
            task_id: self.task_id@,
            request_id: self.request_id@,
            timestamp: self.timestamp,
            body: body_view(self.body),
            rest: self.rest@,
        }
    }
}

pub open spec fn message_views(messages: Seq<Message>) -> Seq<MessageView> {
    messages.map_values(|m: Message| m@)
}

impl Clone for MessageBody {
    fn clone(&self) -> (r: Self)
        ensures
            r@ == self@,
    {
        match self {
            MessageBody::UserQuery { query } => MessageBody::UserQuery { query: query.clone() },
            MessageBody::AgentOutput { text } => MessageBody::AgentOutput { text: text.clone() },
            MessageBody::AgentReasoning { reasoning } => MessageBody::AgentReasoning {
                reasoning: reasoning.clone(),
            },
            MessageBody::ToolCall { tool_call_id, tool } => MessageBody::ToolCall {
                tool_call_id: tool_call_id.clone(),
                tool: *tool,
            },
            MessageBody::ToolCallResult { tool_call_id } => MessageBody::ToolCallResult {
                tool_call_id: tool_call_id.clone(),
            },
            MessageBody::Other => MessageBody::Other,
        }
    }
}

impl Clone for Message {
    fn clone(&self) -> (r: Self)
        ensures
            r@ == self@,
    {
        let body: Option<MessageBody> = match &self.body {
            Some(b) => Some(b.clone()),
            None => None,
        };
        let rest: Vec<u8> = self.rest.clone();
        assert(rest@ =~= self.rest@);
        Message {
            id: self.id.clone(),
            task_id: self.task_id.clone(),
            request_id: self.request_id.clone(),
            timestamp: self.timestamp,
            body,
            rest,
        }
    }
}

fn same_body(a: &MessageBody, b: &MessageBody) -> (r: bool)
    ensures
        r == (a@ == b@),
{
    match (a, b) {
        (MessageBody::UserQuery { query: x }, MessageBody::UserQuery { query: y }) => *x == *y,
        (MessageBody::AgentOutput { text: x }, MessageBody::AgentOutput { text: y }) => *x == *y,
        (
            MessageBody::AgentReasoning { reasoning: x },
            MessageBody::AgentReasoning { reasoning: y },
        ) => *x == *y,
        (
            MessageBody::ToolCall { tool_call_id: x, tool: s },
            MessageBody::ToolCall { tool_call_id: y, tool: t },
        ) => {
            let same_tool: bool = match (s, t) {
                (Some(p), Some(q)) => *p == *q,
                (None, None) => true,
                _ => false,
            };
            *x == *y && same_tool
        },
        (
            MessageBody::ToolCallResult { tool_call_id: x },
            MessageBody::ToolCallResult { tool_call_id: y },
        ) => *x == *y,
        (MessageBody::Other, MessageBody::Other) => true,
        _ => false,
    }
}

fn same_bytes(a: &Vec<u8>, b: &Vec<u8>) -> (r: bool)
    ensures
        r == (a@ == b@),
{
    if a.len() != b.len() {
        return false;
    }
    let mut i: usize = 0;
    while i < a.len()
        invariant
            i <= a.len(),
            a.len() == b.len(),
            a@.take(i as int) == b@.take(i as int),
        decreases a.len() - i,
    {
        if a[i] != b[i] {
            assert(a@[i as int] != b@[i as int]);
            return false;
        }
        i += 1;
        assert(a@.take(i as int) =~= b@.take(i as int));
    }
    assert(a@.take(i as int) =~= a@ && b@.take(i as int) =~= b@);
    true
}

/// Whether two messages are the same in everything they carry.
pub fn same_message(a: &Message, b: &Message) -> (r: bool)
    ensures
        r == (a@ == b@),
{
    let same_time: bool = match (&a.timestamp, &b.timestamp) {
        (Some(s), Some(t)) => *s == *t,
        (None, None) => true,
        _ => false,
    };
    let same: bool = match (&a.body, &b.body) {
        (Some(x), Some(y)) => same_body(x, y),
        (None, None) => true,
        _ => false,
    };
    a.id == b.id && a.task_id == b.task_id && a.request_id == b.request_id && same_time && same
        && same_bytes(&a.rest, &b.rest)
}

/// The view of a message keeps everything that the message carries: messages that differ in
/// anything have different views.
pub proof fn law_views_of_messages_keep_every_field(a: Message, b: Message)
    requires
        a@ == b@,
    ensures
        a.id@ == b.id@,
        a.task_id@ == b.task_id@,
        a.request_id@ == b.request_id@,
        a.timestamp == b.timestamp,
        a.rest@ == b.rest@,
        a.body is None <==> b.body is None,
        match (a.body, b.body) {
            (Some(MessageBody::UserQuery { query: x }), _) => b.body matches Some(
                MessageBody::UserQuery { query: y },
            ) && x@ == y@,
            (Some(MessageBody::AgentOutput { text: x }), _) => b.body matches Some(
                MessageBody::AgentOutput { text: y },
            ) && x@ == y@,
            (Some(MessageBody::AgentReasoning { reasoning: x }), _) => b.body matches Some(
                MessageBody::AgentReasoning { reasoning: y },
            ) && x@ == y@,
            (Some(MessageBody::ToolCall { tool_call_id: x, tool: t }), _) => b.body matches Some(
                MessageBody::ToolCall { tool_call_id: y, tool: u },
            ) && x@ == y@ && t == u,
            (Some(MessageBody::ToolCallResult { tool_call_id: x }), _) => b.body matches Some(
                MessageBody::ToolCallResult { tool_call_id: y },
            ) && x@ == y@,
            (Some(MessageBody::Other), _) => b.body matches Some(MessageBody::Other),
            (None, _) => b.body is None,
        },
{
}

} // verus!
