//! What a user and the agent exchange.

use std::sync::Arc;
use vstd::prelude::*;

verus! {

/// Names a task of a conversation.
#[derive(Debug, PartialEq, Eq)]
pub struct TaskId {
    pub name: String,
}

impl TaskId {
    pub fn new(name: String) -> (r: TaskId)
        ensures
            r.name == name,
    {
        TaskId { name }
    }
}

impl Clone for TaskId {
    fn clone(&self) -> (r: Self)
        ensures
            r == *self,
    {
        TaskId { name: self.name.clone() }
    }
}

/// Names a model.
#[derive(Debug, PartialEq, Eq)]
pub struct LLMId {
    pub name: String,
}

impl Clone for LLMId {
    fn clone(&self) -> (r: Self)
        ensures
            r == *self,
    {
        LLMId { name: self.name.clone() }
    }
}

/// Names a participant of a shared session.
#[derive(Debug, Clone, PartialEq, Eq)]
pub struct ParticipantId {
    pub name: String,
}

#[derive(Debug, Clone, Copy, PartialEq, Eq, Structural)]
pub struct AIAgentExchangeId {
    pub value: u128,
}

#[derive(Debug, Clone, Copy, PartialEq, Eq, Structural)]
pub struct AIConversationId {
    pub value: u128,
}

/// A moment, and the offset from UTC under which it is shown.
#[derive(Debug, Clone, Copy, PartialEq, Eq, Structural)]
pub struct LocalTime {
    pub seconds: i64,
    pub nanos: u32,
    pub offset_seconds: i32,
}

#[derive(Debug, Clone, Copy, PartialEq, Eq, Structural)]
pub enum UserQueryMode {
    Normal,
    Plan,
}

#[derive(Debug, Clone, PartialEq, Eq)]
pub struct ImageContext {
    pub data: String,
    pub mime_type: String,
    pub file_name: String,
    pub is_figma: bool,
}

#[derive(Debug, Clone, PartialEq, Eq)]
pub enum AnyFileContent {
    StringContent(String),
    BinaryContent(Vec<u8>),
}

#[derive(Debug, Clone, PartialEq, Eq)]
pub struct FileContext {
    pub file_name: String,
    pub content: AnyFileContent,
    /// First and last line, where only a part of the file is meant.
    pub line_range: Option<(u64, u64)>,
    pub last_modified: Option<LocalTime>,
}

#[derive(Debug, Clone, PartialEq, Eq)]
pub enum AIAgentContext {
    SelectedText(String),
    Image(ImageContext),
    File(FileContext),
    /// Any other context, encoded.
    Other(String),
}

#[derive(Debug, Clone, PartialEq, Eq)]
pub enum AIAgentAttachment {
    PlainText(String),
    /// Any other attachment, encoded.
    Other(String),
}

#[derive(Debug, Clone, PartialEq, Eq)]
pub struct NamedAttachment {
    pub name: String,
    pub attachment: AIAgentAttachment,
}

/// The result of an action that the agent asked for.
#[derive(Debug, Clone, PartialEq, Eq)]
pub struct AIAgentActionResult {
    pub id: String,
    pub task_id: TaskId,
    /// What came out of it, encoded.
    pub result: String,
}

#[derive(Debug, Clone, PartialEq, Eq)]
pub enum AIAgentInput {
    UserQuery {
        query: String,
        context: Arc<Vec<AIAgentContext>>,
        referenced_attachments: Arc<Vec<NamedAttachment>>,
        user_query_mode: UserQueryMode,
        static_query_type: Option<String>,
        running_command: Option<String>,
        intended_agent: Option<String>,
    },
    ActionResult { result: AIAgentActionResult, context: Arc<Vec<AIAgentContext>> },
    ResumeConversation { context: Arc<Vec<AIAgentContext>> },
    SummarizeConversation {
        prompt: Option<String>,
        overflow: bool,
        context: Arc<Vec<AIAgentContext>>,
    },
    /// Any other input, encoded.
    Other { encoded: String, context: Option<Arc<Vec<AIAgentContext>>> },
}

impl AIAgentInput {
    /// The context that an input was sent with.
    pub open spec fn spec_context(self) -> Option<Arc<Vec<AIAgentContext>>> {
        match self {
            AIAgentInput::UserQuery { context, .. } => Some(context),
            AIAgentInput::ActionResult { context, .. } => Some(context),
            AIAgentInput::ResumeConversation { context } => Some(context),
            AIAgentInput::SummarizeConversation { context, .. } => Some(context),
            AIAgentInput::Other { context, .. } => context,
        }
    }

    pub fn context(&self) -> (r: Option<&Arc<Vec<AIAgentContext>>>)
        ensures
            r is Some <==> self.spec_context() is Some,
            r is Some ==> *r->0 == self.spec_context()->0,
    {
        match self {
            AIAgentInput::UserQuery { context, .. } => Some(context),
            AIAgentInput::ActionResult { context, .. } => Some(context),
            AIAgentInput::ResumeConversation { context } => Some(context),
            AIAgentInput::SummarizeConversation { context, .. } => Some(context),
            AIAgentInput::Other { context, .. } => match context {
                Some(c) => Some(c),
                None => None,
            },
        }
    }
}

/// The inputs of one task.
#[derive(Debug, Clone, PartialEq, Eq)]
pub struct TaskInput {
    pub task_id: TaskId,
    pub inputs: Vec<AIAgentInput>,
}

/// A request that is about to be sent. No two entries of `input_messages` have the same
/// task, and their order means nothing.
#[derive(Debug, Clone, PartialEq, Eq)]
pub struct RequestInput {
    pub conversation_id: AIConversationId,
    pub input_messages: Vec<TaskInput>,
    pub working_directory: Option<String>,
    pub model_id: LLMId,
    pub coding_model_id: LLMId,
    pub cli_agent_model_id: LLMId,
    pub computer_use_model_id: LLMId,
    pub shared_session_response_initiator: Option<ParticipantId>,
    pub request_start_ts: LocalTime,
    pub supported_tools_override: Option<Vec<String>>,
}

#[derive(Debug, Clone, Copy, PartialEq, Eq, Structural)]
pub enum CancellationReason {
    ManuallyCancelled,
    Other,
}

#[derive(Debug, Clone, PartialEq, Eq)]
pub enum FinishedAIAgentOutput {
    /// The answer, encoded.
    Success { output: String },
    Cancelled { output: Option<String>, reason: CancellationReason },
    Error { message: String },
}

#[derive(Debug, Clone, PartialEq, Eq)]
pub enum AIAgentOutputStatus {
    Streaming,
    Finished { finished_output: FinishedAIAgentOutput },
}

impl AIAgentOutputStatus {
    pub fn is_finished(&self) -> (r: bool)
        ensures
            r == (self is Finished),
    {
        match self {
            AIAgentOutputStatus::Finished { .. } => true,
            AIAgentOutputStatus::Streaming => false,
        }
    }
}

#[derive(Debug, Clone, PartialEq, Eq)]
pub struct AIAgentExchange {
    pub id: AIAgentExchangeId,
    pub input: Vec<AIAgentInput>,
    pub output_status: AIAgentOutputStatus,
    pub added_message_ids: Vec<String>,
    pub start_time: LocalTime,
    pub finish_time: Option<LocalTime>,
    pub time_to_first_token_ms: Option<i64>,
    pub working_directory: Option<String>,
    pub model_id: LLMId,
    pub coding_model_id: LLMId,
    pub cli_agent_model_id: LLMId,
    pub computer_use_model_id: LLMId,
    /// The cost as decimal text.
    pub request_cost: Option<String>,
    pub response_initiator: Option<ParticipantId>,
}

/// Every input that has a context hands out its own.
pub proof fn law_context_of_an_input(input: AIAgentInput)
    ensures
        input is UserQuery ==> input.spec_context() == Some(input->UserQuery_context),
        input is ActionResult ==> input.spec_context() == Some(input->ActionResult_context),
        input is ResumeConversation ==> input.spec_context() == Some(
            input->ResumeConversation_context,
        ),
        input is SummarizeConversation ==> input.spec_context() == Some(
            input->SummarizeConversation_context,
        ),
        input is Other ==> input.spec_context() == input->Other_context,
{
}

} // verus!
