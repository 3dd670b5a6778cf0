use byop_agent::commit::{commit_summarization, prune_now, AIConversation, PruneDecision};
use byop_agent::message::{Message, MessageBody, Timestamp, Tool};
use byop_agent::plan::{prepare_plan, CompactionPlan};
use byop_agent::state::CompactionState;

const MAX_OUTPUT: usize = 8_000;

fn message(id: &str, request_id: &str, body: MessageBody) -> Message {
    Message {
        id: id.to_owned(),
        task_id: "root".to_owned(),
        request_id: request_id.to_owned(),
        timestamp: None,
        body: Some(body),
        rest: Vec::new(),
    }
}

fn user(id: &str) -> Message {
    message(
        id,
        &format!("request-{id}"),
        MessageBody::UserQuery { query: format!("问题-{id}") },
    )
}

fn long_user(id: &str) -> Message {
    message(id, &format!("request-{id}"), MessageBody::UserQuery { query: "x".repeat(40_000) })
}

fn output(id: &str, request_id: &str, text: &str) -> Message {
    message(id, request_id, MessageBody::AgentOutput { text: text.to_owned() })
}

fn call(id: &str, tool_call_id: &str, tool: Option<Tool>) -> Message {
    message(id, "", MessageBody::ToolCall { tool_call_id: tool_call_id.to_owned(), tool })
}

fn result(id: &str, tool_call_id: &str) -> Message {
    message(id, "", MessageBody::ToolCallResult { tool_call_id: tool_call_id.to_owned() })
}

fn conversation(messages: Vec<Message>) -> AIConversation {
    AIConversation { messages, compaction_state: CompactionState::default() }
}

/// Keeps the last turn.
fn prepare(messages: &Vec<Message>) -> CompactionPlan {
    let selected = messages
        .iter()
        .rposition(|m| matches!(m.body, Some(MessageBody::UserQuery { .. })))
        .unwrap();
    prepare_plan(messages, &CompactionState::default(), selected, MAX_OUTPUT, |_| true).unwrap()
}

fn commit(conversation: &mut AIConversation, plan: &CompactionPlan, request_id: &str) -> bool {
    commit_summarization(conversation, plan, &request_id.to_owned(), true)
}

fn hidden(state: &CompactionState, id: &str) -> bool {
    state.hidden_message_ids().iter().any(|hidden| hidden == id)
}

#[test]
fn empty_response_never_commits_an_old_answer() {
    let messages = vec![user("u1"), output("old", "old-request", "旧回答")];
    let plan = prepare(&messages);
    let mut conversation = conversation(messages);

    assert!(!commit(&mut conversation, &plan, "summary-request"));
    assert!(conversation.compaction_state.completed().is_empty());
}

#[test]
fn whitespace_and_other_requests_are_not_a_summary() {
    let messages = vec![user("u1"), output("old", "old-request", "旧回答")];
    let plan = prepare(&messages);
    let mut current = messages;
    current.push(output("empty", "summary-request", " \n\t "));
    current.push(output("unrelated", "another-request", "另一流的回答"));
    let mut conversation = conversation(current);

    assert!(!commit_summarization(
        &mut conversation,
        &plan,
        &"summary-request".to_owned(),
        false
    ));
    assert!(conversation.compaction_state.hidden_message_ids().is_empty());
}

#[test]
fn fixed_head_preserves_tail_and_messages_added_during_summarization() {
    let messages = vec![
        user("u1"),
        output("a1", "r1", "旧历史"),
        user("u2"),
        output("a2", "r2", "需要保留的最近回答"),
    ];
    let plan = prepare(&messages);
    let mut current = messages;
    current.push(output("summary", "summary-request", "本次摘要"));
    current.push(user("new-user"));
    current.push(output("new-answer", "new-request", "较晚的另一条回答"));
    let mut conversation = conversation(current);

    assert!(commit(&mut conversation, &plan, "summary-request"));

    let completed = conversation.compaction_state.completed().last().unwrap();
    assert_eq!(completed.head_message_ids, ["u1", "a1"]);
    assert_eq!(completed.user_msg_id, "u1");
    assert_eq!(completed.tail_start_id.as_deref(), Some("u2"));
    assert_eq!(completed.summary_text.as_deref(), Some("本次摘要"));
    assert!(completed.auto);
    assert!(completed.overflow);
    let state = &conversation.compaction_state;
    assert!(!hidden(state, "u2"));
    assert!(!hidden(state, "a2"));
    assert!(!hidden(state, "new-user"));
    assert!(!hidden(state, "new-answer"));
    assert!(hidden(state, "u1"));
    assert!(hidden(state, "summary"));
}

#[test]
fn changed_source_content_prevents_commit() {
    let messages = vec![user("u1"), output("a1", "r1", "旧内容")];
    let plan = prepare(&messages);
    let mut conversation = conversation(vec![
        user("u1"),
        output("a1", "r1", "已改变的内容"),
        output("summary", "summary-request", "旧内容的摘要"),
    ]);

    assert!(!commit(&mut conversation, &plan, "summary-request"));
    assert!(conversation.compaction_state.completed().is_empty());
}

#[test]
fn missing_selected_message_prevents_commit() {
    let plan = prepare(&vec![user("u1"), output("a1", "r1", "旧内容")]);
    let mut conversation =
        conversation(vec![user("u1"), output("summary", "summary-request", "摘要")]);

    assert!(!commit(&mut conversation, &plan, "summary-request"));
}

#[test]
fn new_messages_inserted_inside_the_head_prevent_commit() {
    let plan = prepare(&vec![user("u1"), output("a1", "r1", "旧内容")]);
    let mut conversation = conversation(vec![
        user("u1"),
        user("inserted"),
        output("a1", "r1", "旧内容"),
        output("summary", "summary-request", "摘要"),
    ]);

    assert!(!commit(&mut conversation, &plan, "summary-request"));
}

#[test]
fn duplicate_finished_events_do_not_commit_twice() {
    let messages = vec![user("u1"), output("a1", "r1", "旧内容")];
    let plan = prepare(&messages);
    let mut current = messages;
    current.push(output("summary", "summary-request", "摘要"));
    let mut conversation = conversation(current);

    assert!(commit(&mut conversation, &plan, "summary-request"));
    assert!(!commit(&mut conversation, &plan, "summary-request"));
    assert_eq!(conversation.compaction_state.completed().len(), 1);
}

#[test]
fn all_current_summary_parts_and_reasoning_carriers_are_hidden() {
    let messages = vec![user("u1"), output("a1", "r1", "旧内容")];
    let plan = prepare(&messages);
    let mut current = messages;
    current.push(message(
        "reasoning",
        "summary-request",
        MessageBody::AgentReasoning { reasoning: "摘要思考".to_owned() },
    ));
    current.push(output("summary-1", "summary-request", "第一部分"));
    current.push(output("summary-2", "summary-request", "第二部分"));
    let mut conversation = conversation(current);

    assert!(commit(&mut conversation, &plan, "summary-request"));

    let completed = conversation.compaction_state.completed().last().unwrap();
    assert_eq!(completed.summary_text.as_deref(), Some("第一部分\n\n第二部分"));
    assert_eq!(completed.summary_message_ids, ["reasoning", "summary-1", "summary-2"]);
    assert_eq!(completed.assistant_msg_id, "summary-2");
    assert!(hidden(&conversation.compaction_state, "reasoning"));
}

#[test]
fn plan_preserves_input_order_despite_timestamp_order() {
    let mut first = user("first");
    first.timestamp = Some(Timestamp { seconds: 20, nanos: 0 });
    let mut second = user("second");
    second.timestamp = Some(Timestamp { seconds: 10, nanos: 0 });
    let messages = vec![first, output("a1", "r1", "第一轮回答"), second];

    let plan = prepare(&messages);

    assert_eq!(plan.head_message_ids, ["first", "a1"]);
    assert_eq!(plan.tail_start_id.as_deref(), Some("second"));
    assert_eq!(plan.head_end(&messages), Some(2));
}

#[test]
fn request_budget_shrinks_only_complete_turns() {
    let messages = vec![
        user("u1"),
        output("a1", "r1", "第一轮"),
        user("u2"),
        output("a2", "r2", "第二轮"),
        user("u3"),
        output("a3", "r3", "第三轮"),
    ];
    let plan = prepare_plan(
        &messages,
        &CompactionState::default(),
        messages.len(),
        MAX_OUTPUT,
        |plan| plan.head_message_ids.len() <= 3,
    )
    .unwrap();

    assert_eq!(plan.head_message_ids, ["u1", "a1"]);
    assert_eq!(plan.tail_start_id.as_deref(), Some("u2"));
}

#[test]
fn no_fitting_complete_turn_produces_no_plan() {
    let messages = vec![user("u1"), output("a1", "r1", "大内容")];

    let plan = prepare_plan(&messages, &CompactionState::default(), 2, MAX_OUTPUT, |_| false);

    assert!(plan.is_none());
}

#[test]
fn oversized_single_turn_compacts_as_a_whole_when_request_fits() {
    let messages = vec![long_user("u1"), output("a1", "r1", "短回答")];

    let plan =
        prepare_plan(&messages, &CompactionState::default(), 1, MAX_OUTPUT, |_| true).unwrap();

    assert_eq!(plan.head_message_ids, ["u1", "a1"]);
    assert_eq!(plan.tail_start_id, None);
}

#[test]
fn expanding_a_split_turn_keeps_tool_pairs_and_preserves_later_turns() {
    let messages = vec![
        long_user("u1"),
        call("call", "tool-1", None),
        user("u2"),
        result("result", "tool-1"),
        user("u3"),
        output("a3", "r3", "保留最近回答"),
    ];

    let plan =
        prepare_plan(&messages, &CompactionState::default(), 1, MAX_OUTPUT, |_| true).unwrap();

    assert_eq!(plan.head_message_ids, ["u1", "call", "u2", "result"]);
    assert_eq!(plan.tail_start_id.as_deref(), Some("u3"));
}

#[test]
fn expanding_a_split_turn_still_requires_request_to_fit() {
    let messages = vec![long_user("u1"), output("a1", "r1", "短回答")];

    let plan = prepare_plan(&messages, &CompactionState::default(), 1, MAX_OUTPUT, |_| false);

    assert!(plan.is_none());
}

#[test]
fn shrinking_never_separates_a_tool_call_from_its_result() {
    let messages = vec![
        user("u1"),
        call("call", "tool-1", None),
        user("u2"),
        result("result", "tool-1"),
        user("u3"),
    ];
    let plan = prepare_plan(
        &messages,
        &CompactionState::default(),
        messages.len(),
        MAX_OUTPUT,
        |plan| plan.head_message_ids.len() <= 2,
    );

    assert!(plan.is_none());
}

#[test]
fn new_plan_uses_previous_summary_and_requires_new_history() {
    let messages = vec![user("u1"), output("a1", "r1", "旧内容")];
    let first_plan = prepare(&messages);
    let mut current = messages;
    current.push(output("summary", "summary-request", "第一次摘要"));
    let mut original = conversation(current.clone());
    assert!(commit(&mut original, &first_plan, "summary-request"));
    let state = original.compaction_state.clone();

    let empty_plan = prepare_plan(&current, &state, 0, MAX_OUTPUT, |_| true);
    assert!(empty_plan.is_none());

    current.push(user("u2"));
    current.push(output("a2", "r2", "新增信息"));
    let next_plan = prepare_plan(&current, &state, 0, MAX_OUTPUT, |_| true).unwrap();
    assert_eq!(next_plan.previous_summary.as_deref(), Some("第一次摘要"));

    current.push(output("summary-2", "summary-request-2", "第一次摘要和新增信息"));
    let mut updated = conversation(current);
    updated.compaction_state = state;
    assert!(commit(&mut updated, &next_plan, "summary-request-2"));
    assert_eq!(
        updated.compaction_state.previous_summary().map(|s| s.as_str()),
        Some("第一次摘要和新增信息")
    );
}

#[test]
fn real_subtask_history_commits_using_serializer_order_and_user_deduplication() {
    let root_user = user("u1");
    let mut copied_user = root_user.clone();
    copied_user.id = "child-user-copy".to_owned();
    copied_user.task_id = "child".to_owned();
    copied_user.timestamp = Some(Timestamp { seconds: 1, nanos: 0 });
    let mut child_answer = output("child-answer", "child-request", "子任务结果");
    child_answer.task_id = "child".to_owned();
    child_answer.timestamp = Some(Timestamp { seconds: 2, nanos: 0 });
    let spawn = call("spawn", "spawn-call", Some(Tool::Subagent));
    let root_answer = output("root-answer", "root-request", "根任务结果");
    let tail = vec![user("tail-user"), output("tail-answer", "tail-request", "保留最近一轮")];

    let mut replayed =
        vec![root_user.clone(), spawn.clone(), child_answer.clone(), root_answer.clone()];
    replayed.extend(tail.clone());
    let plan = prepare(&replayed);
    assert_eq!(plan.head_message_ids, ["u1", "spawn", "child-answer", "root-answer"]);

    let mut current = vec![root_user, spawn, copied_user, child_answer, root_answer];
    current.extend(tail);
    current.push(output("summary", "summary-request", "包含子任务结果的摘要"));
    let mut conversation = conversation(current);

    assert!(commit(&mut conversation, &plan, "summary-request"));

    let state = &conversation.compaction_state;
    assert!(hidden(state, "child-answer"));
    assert!(!hidden(state, "tail-user"));
    assert!(!hidden(state, "tail-answer"));
}

#[test]
fn inactive_subtask_messages_do_not_invalidate_an_active_task_plan() {
    let spawn = call("spawn", "spawn-call", Some(Tool::Subagent));
    let mut child_answer = output("child-answer", "child-request", "已完成子任务");
    child_answer.task_id = "child".to_owned();
    let active = vec![
        user("u1"),
        spawn.clone(),
        output("root-answer", "root-request", "已合并子任务结果"),
        user("tail-user"),
        output("tail-answer", "tail-request", "保留最近一轮"),
    ];
    let plan = prepare(&active);
    let mut current = active;
    current.insert(2, child_answer);
    current.push(output("summary", "summary-request", "摘要"));
    let mut conversation = conversation(current);

    assert!(commit(&mut conversation, &plan, "summary-request"));
    assert!(!hidden(&conversation.compaction_state, "child-answer"));
}

#[test]
fn shrinking_an_incremental_plan_keeps_previous_coverage_and_unselected_tail() {
    let first_messages = vec![user("u1"), output("a1", "r1", "最早的信息")];
    let first_plan = prepare(&first_messages);
    let mut current = first_messages;
    current.push(output("summary-1", "summary-request-1", "最早信息的摘要"));
    let mut previous = conversation(current.clone());
    assert!(commit(&mut previous, &first_plan, "summary-request-1"));
    let state = previous.compaction_state.clone();
    current.push(user("u2"));
    current.push(output("a2", "r2", "可归并的新信息"));
    current.push(user("u3"));
    current.push(output("a3", "r3", "这轮不放进摘要"));
    let plan = prepare_plan(&current, &state, current.len(), MAX_OUTPUT, |plan| {
        plan.head_message_ids.len() <= 5
    })
    .unwrap();
    assert_eq!(plan.head_message_ids, ["u1", "a1", "summary-1", "u2", "a2"]);
    assert_eq!(plan.previous_summary.as_deref(), Some("最早信息的摘要"));
    assert_eq!(plan.tail_start_id.as_deref(), Some("u3"));
    current.push(output("summary-2", "summary-request-2", "最早信息和第二轮信息的摘要"));
    let mut updated = conversation(current);
    updated.compaction_state = state;

    assert!(commit(&mut updated, &plan, "summary-request-2"));

    let state = &updated.compaction_state;
    assert!(hidden(state, "u1"));
    assert!(hidden(state, "summary-1"));
    assert!(hidden(state, "u2"));
    assert!(!hidden(state, "u3"));
    assert!(!hidden(state, "a3"));
}

#[test]
fn summary_with_tools_or_without_request_id_is_refused() {
    let messages = vec![user("u1"), output("a1", "r1", "旧内容")];
    let plan = prepare(&messages);
    let mut current = messages;
    current.push(output("summary", "summary-request", "摘要"));
    let mut unnamed = conversation(current.clone());
    assert!(!commit(&mut unnamed, &plan, ""));

    let mut tool = call("late-call", "tool-9", None);
    tool.request_id = "summary-request".to_owned();
    current.push(tool);
    let mut with_tool = conversation(current);
    assert!(!commit(&mut with_tool, &plan, "summary-request"));
    assert!(with_tool.compaction_state.completed().is_empty());
}

#[test]
fn plan_keeps_the_output_limit_of_the_model() {
    let messages = vec![user("u1"), output("a1", "r1", "内容")];
    let plan = prepare_plan(&messages, &CompactionState::default(), 2, 2_048, |_| true).unwrap();
    assert_eq!(plan.max_output_tokens, 2_048);
    assert_eq!(plan.anchor_message_id, "u1");
    let plan =
        prepare_plan(&messages, &CompactionState::default(), 2, usize::MAX, |_| true).unwrap();
    assert_eq!(plan.max_output_tokens, u32::MAX);
}

#[test]
fn plan_tells_its_previous_summary_and_its_output_limit() {
    let messages = vec![user("u1"), output("a1", "r1", "内容")];
    let first = prepare(&messages);
    assert_eq!(first.previous_summary(), &None);
    assert_eq!(first.max_output_tokens(), 8_000);
    let mut current = messages;
    current.push(output("summary", "summary-request", "摘要"));
    let mut conversation = conversation(current.clone());
    assert!(commit(&mut conversation, &first, "summary-request"));
    current.push(user("u2"));
    let state = &conversation.compaction_state;
    let next = prepare_plan(&current, state, 9, MAX_OUTPUT, |_| true).unwrap();
    assert_eq!(next.previous_summary().as_deref(), Some("摘要"));
}

#[test]
fn changes_behind_the_range_leave_a_plan_current() {
    let messages =
        vec![user("u1"), output("a1", "r1", "内容"), user("u2"), output("a2", "r2", "最近")];
    let plan = prepare(&messages);
    let state = CompactionState::default();
    let head = vec![messages[0].clone(), messages[1].clone()];
    assert!(plan.is_current(&head, &state));
    let mut changed = messages.clone();
    changed[3] = output("a2", "r2", "改写");
    assert!(plan.is_current(&changed, &state));
    let mut reused = messages.clone();
    reused[3] = output("a1", "r2", "改写");
    assert!(!plan.is_current(&reused, &state));
}

#[test]
fn plan_is_found_only_in_front_of_the_same_messages() {
    let messages = vec![user("u1"), output("a1", "r1", "内容")];
    let plan = prepare(&messages);
    let mut longer = messages.clone();
    longer.push(user("u2"));
    assert_eq!(plan.head_end(&longer), Some(2));
    assert_eq!(plan.head_end(&vec![user("u1")]), None);
    let mut changed = messages.clone();
    changed[1].rest = vec![1];
    assert_eq!(plan.head_end(&changed), None);
}

#[test]
fn empty_history_has_no_plan() {
    assert!(prepare_plan(&vec![], &CompactionState::default(), 0, MAX_OUTPUT, |_| true).is_none());
}

#[test]
fn pruning_marks_the_chosen_outputs_only() {
    let decisions = vec![
        PruneDecision { message_id: "r1".to_owned(), tool_call_id: "t1".to_owned() },
        PruneDecision { message_id: "r2".to_owned(), tool_call_id: "t2".to_owned() },
    ];
    let mut off = conversation(vec![user("u1")]);
    assert_eq!(prune_now(&mut off, false, &decisions, 5), 0);
    assert!(off.compaction_state.markers.is_empty());
    let mut empty = conversation(vec![]);
    assert_eq!(prune_now(&mut empty, true, &decisions, 5), 0);
    assert!(empty.compaction_state.markers.is_empty());

    let mut on = conversation(vec![user("u1")]);
    on.compaction_state.mark_tool_compacted("r2".to_owned(), 1);
    assert_eq!(prune_now(&mut on, true, &decisions, 5), 2);
    let mut marks: Vec<(String, u64)> = on
        .compaction_state
        .markers
        .iter()
        .map(|m| (m.message_id.clone(), m.tool_output_compacted_at))
        .collect();
    marks.sort();
    assert_eq!(marks, vec![("r1".to_owned(), 5), ("r2".to_owned(), 5)]);
}
