use std::sync::Arc;

use byop_agent::agent::{
    AIAgentActionResult, AIAgentAttachment, AIAgentContext, AIAgentExchangeId, AIAgentInput,
    AIAgentOutputStatus, AIConversationId, AnyFileContent, CancellationReason, FileContext,
    FinishedAIAgentOutput, ImageContext, LLMId, LocalTime, NamedAttachment, RequestInput, TaskId,
    TaskInput, UserQueryMode,
};
use byop_agent::message::{Message, MessageBody};
use byop_agent::recovery::{CompactionPersistenceError, PendingCompactionRecovery};
use byop_agent::state::CompactionState;

const START: LocalTime = LocalTime { seconds: 1_700_000_000, nanos: 0, offset_seconds: 0 };

fn model(name: &str) -> LLMId {
    LLMId { name: name.to_owned() }
}

fn task(name: &str) -> TaskId {
    TaskId::new(name.to_owned())
}

fn requests(input_messages: Vec<TaskInput>) -> RequestInput {
    RequestInput {
        conversation_id: AIConversationId { value: 1 },
        input_messages,
        working_directory: Some("/workspace".to_owned()),
        model_id: model("byop:original"),
        coding_model_id: model("coding"),
        cli_agent_model_id: model("cli"),
        computer_use_model_id: model("computer"),
        shared_session_response_initiator: None,
        request_start_ts: START,
        supported_tools_override: None,
    }
}

fn request(input: AIAgentInput) -> RequestInput {
    requests(vec![TaskInput { task_id: task("root"), inputs: vec![input] }])
}

fn query() -> AIAgentInput {
    AIAgentInput::UserQuery {
        query: "分析附件".to_owned(),
        context: Arc::new(vec![
            AIAgentContext::SelectedText("选中的日志".to_owned()),
            AIAgentContext::Image(ImageContext {
                data: "aW1hZ2U=".to_owned(),
                mime_type: "image/png".to_owned(),
                file_name: "screenshot.png".to_owned(),
                is_figma: false,
            }),
            AIAgentContext::File(FileContext {
                file_name: "report.pdf".to_owned(),
                content: AnyFileContent::BinaryContent(vec![37, 80, 68, 70]),
                line_range: None,
                last_modified: None,
            }),
        ]),
        referenced_attachments: Arc::new(vec![NamedAttachment {
            name: "attachment".to_owned(),
            attachment: AIAgentAttachment::PlainText("附件正文".to_owned()),
        }]),
        user_query_mode: UserQueryMode::Plan,
        static_query_type: None,
        running_command: None,
        intended_agent: None,
    }
}

fn plain_query(text: &str) -> AIAgentInput {
    AIAgentInput::UserQuery {
        query: text.to_owned(),
        context: Arc::new(Vec::new()),
        referenced_attachments: Arc::new(Vec::new()),
        user_query_mode: UserQueryMode::Normal,
        static_query_type: None,
        running_command: None,
        intended_agent: None,
    }
}

fn action_result(context: Vec<AIAgentContext>) -> AIAgentInput {
    AIAgentInput::ActionResult {
        result: AIAgentActionResult {
            id: "tool-call".to_owned(),
            task_id: task("root"),
            result: "CancelledBeforeExecution".to_owned(),
        },
        context: Arc::new(context),
    }
}

fn sent(id: &str, request_id: &str, query: &str) -> Message {
    Message {
        id: id.to_owned(),
        task_id: "root".to_owned(),
        request_id: request_id.to_owned(),
        timestamp: None,
        body: Some(MessageBody::UserQuery { query: query.to_owned() }),
        rest: Vec::new(),
    }
}

#[test]
fn pending_compaction_roundtrip_preserves_multimodal_query_for_manual_continue() {
    let original = request(query());
    let mut state = CompactionState::default();
    state.set_pending_recovery(PendingCompactionRecovery::from_request(&original));
    let restored = state.clone();
    let resumed = restored.pending_recovery().unwrap().to_request_input(
        original.conversation_id,
        &task("root"),
        None,
    );

    assert_eq!(resumed.input_messages, original.input_messages);
    assert_eq!(resumed.model_id, original.model_id);
    assert_eq!(resumed.coding_model_id, original.coding_model_id);
    assert_eq!(resumed.cli_agent_model_id, original.cli_agent_model_id);
    assert_eq!(resumed.computer_use_model_id, original.computer_use_model_id);
    assert_eq!(resumed.request_start_ts, original.request_start_ts);
    assert_eq!(resumed.working_directory, original.working_directory);
    assert!(restored.pending_recovery().unwrap().resume_context.is_empty());
}

#[test]
fn pending_tool_continuation_restores_context_without_replaying_tool_results() {
    let context = vec![AIAgentContext::SelectedText("工具上下文".to_owned())];
    let original = request(action_result(context.clone()));
    let pending = PendingCompactionRecovery::from_request(&original);
    let resumed = pending.to_request_input(original.conversation_id, &task("root"), None);

    assert_eq!(
        resumed.input_messages,
        vec![TaskInput {
            task_id: task("root"),
            inputs: vec![AIAgentInput::ResumeConversation { context: Arc::new(context) }],
        }]
    );
    assert!(pending.queries.is_empty());
    assert!(pending.to_cancelled_exchange().output_status.is_finished());
}

#[test]
fn stale_compaction_stream_cannot_clear_or_rebind_new_recovery() {
    let old = PendingCompactionRecovery::from_request(&request(query()));
    let new = PendingCompactionRecovery::from_request(&request(query()));
    let new_id = new.id;
    let mut state = CompactionState::default();
    state.set_pending_recovery(new);

    assert!(!state.clear_pending_recovery(old.id));
    assert!(!state.mark_recovery_resumed(old.id, "old-request".to_owned()));
    assert!(!state.set_recovery_owner(old.id, AIAgentExchangeId { value: 77 }));
    assert_eq!(state.pending_recovery().unwrap().id, new_id);
    assert_eq!(state.pending_recovery().unwrap().resumed_request_id, None);
    assert_eq!(state.pending_recovery().unwrap().owner_exchange_id, None);
}

#[test]
fn recovery_owner_roundtrip_preserves_only_the_associated_continue_targets() {
    let pending = PendingCompactionRecovery::from_request(&request(query()));
    let pending_id = pending.id;
    let owner = AIAgentExchangeId { value: 1 };
    let unrelated = AIAgentExchangeId { value: 2 };
    let mut state = CompactionState::default();
    state.set_pending_recovery(pending);
    assert!(state.set_recovery_owner(pending_id, owner));

    let restored = state.clone();
    let pending = restored.pending_recovery().unwrap();

    assert!(pending.is_resume_target(pending_id));
    assert!(pending.is_resume_target(owner));
    assert!(!pending.is_resume_target(unrelated));
}

#[test]
fn pending_recovery_without_an_owner_remains_backward_compatible() {
    let pending = PendingCompactionRecovery::from_request(&request(query()));
    let restored = pending.clone();

    assert_eq!(restored.owner_exchange_id, None);
    assert!(restored.is_resume_target(pending.id));
    assert!(!restored.is_resume_target(AIAgentExchangeId { value: !pending.id.value }));
}

#[test]
fn replacing_pending_recovery_preserves_cancelled_input_without_duplicate_archive() {
    let old = PendingCompactionRecovery::from_request(&request(query()));
    let old_id = old.id;
    let original_input = old.queries[0].to_input();
    let new = PendingCompactionRecovery::from_request(&request(query()));
    let new_id = new.id;
    let mut state = CompactionState::default();
    state.set_pending_recovery(old.clone());
    state.set_pending_recovery(old);
    assert!(state.retained_recoveries().is_empty());
    state.set_pending_recovery(new.clone());
    state.set_pending_recovery(new);

    let restored = state.clone();

    assert_eq!(restored.retained_recoveries().len(), 1);
    assert_eq!(restored.retained_recoveries()[0].id, old_id);
    assert_eq!(restored.retained_recoveries()[0].queries[0].to_input(), original_input);
    assert_eq!(restored.pending_recovery().unwrap().id, new_id);
    assert!(!restored.pending_recovery().unwrap().is_resume_target(old_id));
}

#[test]
fn every_kept_input_has_an_id_of_its_own() {
    let first = PendingCompactionRecovery::from_request(&request(query()));
    let second = PendingCompactionRecovery::from_request(&request(query()));
    assert_ne!(first.id, second.id);
    let named = PendingCompactionRecovery::from_request_with_id(
        &request(query()),
        AIAgentExchangeId { value: 42 },
    );
    assert_eq!(named.id.value, 42);
    assert_eq!(named.queries, first.queries);
}

#[test]
fn questions_are_kept_in_the_order_of_their_tasks() {
    let original = requests(vec![
        TaskInput { task_id: task("b"), inputs: vec![plain_query("b1"), plain_query("b2")] },
        TaskInput { task_id: task("a"), inputs: vec![action_result(vec![]), plain_query("a1")] },
        TaskInput { task_id: task("ab"), inputs: vec![plain_query("ab1")] },
    ]);
    let pending = PendingCompactionRecovery::from_request(&original);
    let order: Vec<&str> = pending.queries.iter().map(|q| q.query.as_str()).collect();
    assert_eq!(order, ["a1", "ab1", "b1", "b2"]);
    assert_eq!(pending.resume_task_id, Some(task("a")));
    let resumed = pending.to_request_input(AIConversationId { value: 9 }, &task("x"), None);
    assert_eq!(resumed.conversation_id.value, 9);
    assert_eq!(resumed.input_messages.len(), 3);
    let b = resumed.input_messages.iter().find(|t| t.task_id == task("b")).unwrap();
    assert_eq!(b.inputs, vec![plain_query("b1"), plain_query("b2")]);
}

#[test]
fn stopped_exchange_and_resumed_request_carry_the_same_input() {
    let original = requests(vec![
        TaskInput { task_id: task("b"), inputs: vec![plain_query("b1"), plain_query("b2")] },
        TaskInput { task_id: task("a"), inputs: vec![action_result(vec![]), plain_query("a1")] },
    ]);
    let pending = PendingCompactionRecovery::from_request(&original);
    let stopped = pending.to_cancelled_exchange().input;
    assert_eq!(stopped, vec![plain_query("a1"), plain_query("b1"), plain_query("b2")]);
    let resumed = pending.to_request_input(AIConversationId { value: 1 }, &task("x"), None);
    let mut left = stopped.clone();
    for entry in &resumed.input_messages {
        let mut from = 0;
        for input in &entry.inputs {
            from += stopped[from..].iter().position(|i| i == input).unwrap() + 1;
            left.remove(left.iter().position(|i| i == input).unwrap());
        }
    }
    assert!(left.is_empty());

    let continuation = PendingCompactionRecovery::from_request(&request(action_result(vec![])));
    let resumed = continuation.to_request_input(AIConversationId { value: 1 }, &task("x"), None);
    assert_eq!(continuation.to_cancelled_exchange().input, resumed.input_messages[0].inputs);
}

#[test]
fn continuation_without_a_task_goes_to_the_fallback() {
    let pending = PendingCompactionRecovery::from_request(&requests(vec![]));
    assert_eq!(pending.resume_task_id, None);
    let resumed = pending.to_request_input(AIConversationId { value: 1 }, &task("root"), None);
    assert_eq!(resumed.input_messages[0].task_id, task("root"));
    assert_eq!(
        resumed.input_messages[0].inputs,
        vec![AIAgentInput::ResumeConversation { context: Arc::new(vec![]) }]
    );
}

#[test]
fn only_the_request_id_shows_that_an_input_went_out() {
    let mut pending = PendingCompactionRecovery::from_request(&request(plain_query("待发问题")));
    let history = vec![
        sent("m1", "old-request", "待发问题"),
        sent("m2", "resumed-request", "待发问题"),
    ];
    assert!(!pending.is_in_persisted_messages(&history));
    pending.resumed_request_id = Some("".to_owned());
    assert!(!pending.is_in_persisted_messages(&history));
    pending.resumed_request_id = Some("not-yet-persisted".to_owned());
    assert!(!pending.is_in_persisted_messages(&history));
    pending.resumed_request_id = Some("resumed-request".to_owned());
    assert!(pending.is_in_persisted_messages(&history));
    assert!(!pending.is_in_persisted_messages(&vec![sent("m3", "resumed-request", "别的问题")]));
    let mut continuation = PendingCompactionRecovery::from_request(&request(action_result(vec![])));
    continuation.resumed_request_id = Some("resumed-request".to_owned());
    assert!(continuation.is_in_persisted_messages(&history));
    assert!(!continuation.is_in_persisted_messages(&vec![]));
}

#[test]
fn stopped_input_is_shown_as_it_was_asked() {
    let pending = PendingCompactionRecovery::from_request(&request(query()));
    let exchange = pending.to_cancelled_exchange();
    assert_eq!(exchange.id, pending.id);
    assert_eq!(exchange.input, vec![query()]);
    assert_eq!(exchange.start_time, START);
    assert_eq!(exchange.finish_time, Some(START));
    assert_eq!(exchange.working_directory.as_deref(), Some("/workspace"));
    assert!(exchange.added_message_ids.is_empty());
    assert_eq!(
        exchange.output_status,
        AIAgentOutputStatus::Finished {
            finished_output: FinishedAIAgentOutput::Cancelled {
                output: None,
                reason: CancellationReason::ManuallyCancelled,
            },
        }
    );
}

#[test]
fn waiting_input_is_resumed_and_cleared_by_its_own_id() {
    let pending = PendingCompactionRecovery::from_request(&request(query()));
    let id = pending.id;
    let mut state = CompactionState::default();
    state.set_pending_recovery(pending);
    assert!(state.mark_recovery_resumed(id, "request-7".to_owned()));
    assert_eq!(
        state.pending_recovery().unwrap().resumed_request_id.as_deref(),
        Some("request-7")
    );
    assert!(state.clear_pending_recovery(id));
    assert!(state.pending_recovery().is_none());
    assert!(!state.clear_pending_recovery(id));
}

#[test]
fn new_state_remembers_nothing() {
    let state = CompactionState::default();
    assert!(state.pending_recovery().is_none());
    assert!(state.retained_recoveries().is_empty());
    assert!(state.completed().is_empty());
    assert!(state.previous_summary().is_none());
    assert!(state.hidden_message_ids().is_empty());
}

#[test]
fn save_error_shows_its_text() {
    let error = CompactionPersistenceError("disk full".to_owned());
    assert_eq!(error.message(), "disk full");
}
