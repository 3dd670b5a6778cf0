use byop_agent::bounded_result::{
    bounded_parsed, bounded_result, TRUNCATION_KEY, TRUNCATION_NOTE,
};
use byop_agent::json::JsonField;
use byop_agent::request_budget::{
    apply, estimated_input_tokens, frame_bytes, input_token_budget, serialized_size, Binary, ChatMessage,
    ChatRequest, ChatRole, ContentPart, RequestBudgetExceeded, ToolCall, ToolResponse,
    BUDGET_EXCEEDED, MAX_RESULT_BYTES, MAX_TOTAL_RESULT_BYTES,
};
use serde_json::Value;

fn object(fields: Vec<(&str, Value)>) -> Value {
    let mut map = serde_json::Map::new();
    for (name, value) in fields {
        map.insert(name.to_owned(), value);
    }
    Value::Object(map)
}

fn text(s: &str) -> Value {
    Value::String(s.to_owned())
}

fn part_value(part: &ContentPart) -> Value {
    match part {
        ContentPart::Text(s) => object(vec![("Text", text(s))]),
        ContentPart::ThoughtSignature(s) => object(vec![("ThoughtSignature", text(s))]),
        ContentPart::ReasoningContent(s) => object(vec![("ReasoningContent", text(s))]),
        ContentPart::Custom(s) => object(vec![("Custom", text(s))]),
        ContentPart::ToolCall(call) => object(vec![
            ("call_id", text(&call.call_id)),
            ("fn_name", text(&call.fn_name)),
            ("fn_arguments", serde_json::from_str(&call.fn_arguments).unwrap()),
        ]),
        ContentPart::ToolResponse(response) => object(vec![
            ("call_id", text(&response.call_id)),
            ("content", text(&response.content)),
        ]),
        ContentPart::Binary(binary) => object(vec![
            ("content_type", text(&binary.content_type)),
            ("source", text(&binary.source)),
        ]),
    }
}

fn json_bytes(value: &Value) -> usize {
    serde_json::to_vec(value).unwrap().len()
}

fn string_bytes(s: &str) -> usize {
    serde_json::to_vec(s).unwrap().len()
}

fn request(messages: Vec<ChatMessage>) -> ChatRequest {
    let mut frame_bytes = "{\"messages\":[]}".len();
    for message in &messages {
        frame_bytes += "{\"role\":\"Assistant\",\"content\":[]},".len();
        for part in &message.content {
            let bytes = json_bytes(&part_value(part));
            frame_bytes += match part {
                ContentPart::ToolResponse(response) => bytes - string_bytes(&response.content),
                ContentPart::Binary(_) => 0,
                _ => bytes,
            };
        }
    }
    ChatRequest { system: None, messages, frame_bytes }
}

fn user(s: &str) -> ChatMessage {
    ChatMessage { role: ChatRole::User, content: vec![ContentPart::Text(s.to_owned())] }
}

fn assistant(s: &str) -> ChatMessage {
    ChatMessage { role: ChatRole::Assistant, content: vec![ContentPart::Text(s.to_owned())] }
}

fn response(call_id: &str, content: &str) -> ChatMessage {
    ChatMessage {
        role: ChatRole::Tool,
        content: vec![ContentPart::ToolResponse(ToolResponse {
            call_id: call_id.to_owned(),
            content: content.to_owned(),
            caller: None,
            caller_id: None,
        })],
    }
}

fn image(source: String, name: Option<&str>) -> ContentPart {
    let mut binary = Binary {
        content_type: "image/png".to_owned(),
        source,
        name: name.map(|s| s.to_owned()),
        serialized_bytes: 0,
    };
    binary.serialized_bytes = json_bytes(&part_value(&ContentPart::Binary(binary.clone())));
    ContentPart::Binary(binary)
}

fn shell_result(call_id: &str, output: &str) -> ChatMessage {
    let content = object(vec![
        ("status", text("completed")),
        ("exit_code", Value::from(0)),
        ("command_id", text("command-17")),
        ("output", text(output)),
    ]);
    response(call_id, &content.to_string())
}

fn tool_responses(request: &ChatRequest) -> Vec<&ToolResponse> {
    let mut list = Vec::new();
    for message in &request.messages {
        for part in &message.content {
            if let ContentPart::ToolResponse(response) = part {
                list.push(response);
            }
        }
    }
    list
}

fn parsed(content: &str) -> Value {
    serde_json::from_str(content).expect("a result stays valid JSON")
}

#[test]
fn megabytes_of_shell_logs_preserve_execution_metadata_and_both_ends() {
    let output = format!("日志开始\n{}\n日志结束", "x".repeat(4_360_000));
    let mut request = request(vec![shell_result("call-17", &output)]);

    let report = apply(&mut request, Some(200_000)).expect("megabytes of logs can be sent");

    let responses = tool_responses(&request);
    let response = responses[0];
    let content = parsed(&response.content);
    assert_eq!(report.truncated_results, 1);
    assert_eq!(response.call_id, "call-17");
    assert_eq!(content["status"], "completed");
    assert_eq!(content["exit_code"], 0);
    assert_eq!(content["command_id"], "command-17");
    assert!(content["output"].as_str().unwrap().starts_with("日志开始\n"));
    assert!(content["output"].as_str().unwrap().ends_with("\n日志结束"));
    assert!(content[TRUNCATION_KEY]["original_bytes"].as_u64().unwrap() > 4_360_000);
    assert!(string_bytes(&response.content) <= MAX_RESULT_BYTES);
}

#[test]
fn oversized_command_metadata_cannot_discard_running_command_control() {
    let content = object(vec![
        ("status", text("running")),
        ("command", text(&"echo hello\n".repeat(10_000))),
        ("command_id", text("command-1")),
        ("exit_code", Value::from(0)),
        ("is_alt_screen_active", Value::Bool(true)),
        ("output", text(&"log\n".repeat(100_000))),
    ]);
    let mut request = request(vec![response("call-1", &content.to_string())]);

    apply(&mut request, Some(200_000)).expect("a long command is left out");

    let responses = tool_responses(&request);
    let content = parsed(&responses[0].content);
    assert_eq!(content["status"], "running");
    assert_eq!(content["command_id"], "command-1");
    assert_eq!(content["exit_code"], 0);
    assert_eq!(content["is_alt_screen_active"], true);
    assert!(content.get("command").is_none());
    assert!(string_bytes(&responses[0].content) <= MAX_RESULT_BYTES);
}

#[test]
fn unrepresentable_control_fields_stop_the_request_instead_of_losing_command_id() {
    let content = object(vec![
        ("status", text("running")),
        ("command_id", text(&"x".repeat(40_000))),
        ("output", text("log")),
    ]);
    let mut request = request(vec![response("call-1", &content.to_string())]);

    assert!(apply(&mut request, Some(200_000)).is_err());
}

#[test]
fn small_window_does_not_reject_control_fields_below_the_hard_limit() {
    let command_id = "x".repeat(20_000);
    let content = object(vec![
        ("status", text("running")),
        ("command_id", text(&command_id)),
        ("output", text(&"log\n".repeat(50_000))),
    ]);
    let mut request = request(vec![response("call-1", &content.to_string())]);

    let report = apply(&mut request, Some(4_096)).expect("an estimate rejects nothing");

    assert_eq!(report.truncated_results, 1);
    let responses = tool_responses(&request);
    let content = parsed(&responses[0].content);
    assert_eq!(content["status"], "running");
    assert_eq!(content["command_id"], command_id.as_str());
    assert!(content.get("output").is_none());
    assert!(string_bytes(&responses[0].content) <= MAX_RESULT_BYTES);
}

#[test]
fn result_that_cannot_be_sent_is_left_in_its_shortened_form() {
    let older = shell_result("call-0", &"y".repeat(100_000));
    let content = object(vec![
        ("status", text("running")),
        ("command_id", text(&"x".repeat(40_000))),
        ("output", text("log")),
    ])
    .to_string();
    let mut request = request(vec![older.clone(), response("call-1", &content), user("继续")]);

    assert_eq!(apply(&mut request, Some(200_000)), Err(RequestBudgetExceeded));

    assert_eq!(request.messages[0], older);
    let left = tool_responses(&request)[1].content.clone();
    assert_eq!(left, bounded_result(&content, MAX_RESULT_BYTES));
    let value = parsed(&left);
    assert!(value.get(TRUNCATION_KEY).is_some() && value.get("output").is_none());
    assert_eq!(value["status"], "running");
}

#[test]
fn whole_results_under_the_hard_limits_are_never_rejected() {
    for window in [None, Some(1), Some(4_096)] {
        let messages = (0..120)
            .map(|i| {
                let id = "x".repeat(900);
                let content = object(vec![("command_id", text(&id)), ("output", text("log"))]);
                response(&format!("call-{i}"), &content.to_string())
            })
            .collect();
        let mut request = request(messages);
        assert!(apply(&mut request, window).is_ok());
    }
}

#[test]
fn frame_is_what_neither_results_nor_attachments_take() {
    let messages = vec![
        response("call-1", "a\"b"),
        ChatMessage {
            role: ChatRole::User,
            content: vec![ContentPart::Text("text".to_owned()), image("AAAA".to_owned(), None)],
        },
    ];
    let binary = messages[1]
        .content
        .iter()
        .find_map(|part| match part {
            ContentPart::Binary(binary) => Some(binary.serialized_bytes),
            _ => None,
        })
        .unwrap();
    assert_eq!(frame_bytes(1_000 + 6 + binary, &messages), 1_000);
    assert_eq!(frame_bytes(5, &messages), 0);
    assert_eq!(frame_bytes(77, &vec![user("text")]), 77);
}

#[test]
fn no_window_rejects_results_with_small_control_fields() {
    for window in [None, Some(0), Some(1), Some(500), Some(4_096), Some(200_000)] {
        let messages = (0..40)
            .map(|i| shell_result(&format!("call-{i}"), &"x".repeat(10_000)))
            .collect();
        let mut request = request(messages);

        let report = apply(&mut request, window).expect("minimal notes fit");

        assert_eq!(tool_responses(&request).len(), 40);
        assert!(report.truncated_results > 0);
    }
}

#[test]
fn result_that_cannot_get_smaller_stays_as_it_is() {
    let content = object(vec![("command_id", text(&"x".repeat(1_000))), ("output", text("log"))]);
    let mut request = request(vec![response("call-1", &content.to_string())]);
    let original = request.clone();

    let report = apply(&mut request, Some(1)).expect("an estimate rejects nothing");

    assert_eq!(report.truncated_results, 0);
    assert_eq!(request, original);
}

#[test]
fn trimming_preserves_tool_call_pairing_and_response_caller() {
    let call = ToolCall {
        call_id: "nested-call-1".to_owned(),
        fn_name: "run_shell_command".to_owned(),
        fn_arguments: object(vec![(
            "command",
            text("docker logs --since 2h localmind_affine_server"),
        )])
        .to_string(),
        thought_signatures: Some(vec!["signature-1".to_owned()]),
    };
    let caller = object(vec![("type", text("programmatic")), ("tool_id", text("parent-call"))]);
    let mut request = request(vec![
        ChatMessage { role: ChatRole::Assistant, content: vec![ContentPart::ToolCall(call)] },
        ChatMessage {
            role: ChatRole::Tool,
            content: vec![ContentPart::ToolResponse(ToolResponse {
                call_id: "nested-call-1".to_owned(),
                content: "日志".repeat(40_000),
                caller: Some(caller.to_string()),
                caller_id: Some("parent-call".to_owned()),
            })],
        },
    ]);
    let original_call = request.messages[0].clone();

    apply(&mut request, Some(200_000)).expect("the result of a nested call can be cut");

    assert_eq!(request.messages.len(), 2);
    assert_eq!(request.messages[0], original_call);
    let responses = tool_responses(&request);
    assert_eq!(responses.len(), 1);
    assert_eq!(responses[0].call_id, "nested-call-1");
    assert_eq!(responses[0].caller, Some(caller.to_string()));
    assert_eq!(responses[0].caller_id.as_deref(), Some("parent-call"));
}

#[test]
fn trimming_outbound_copy_keeps_local_history_complete() {
    let output = "完整的本地日志\n".repeat(40_000);
    let local_history = request(vec![shell_result("call-1", &output)]);
    let original = local_history.clone();
    let mut outbound = local_history.clone();

    apply(&mut outbound, Some(200_000)).expect("the copy can be cut");

    assert_eq!(local_history, original);
    assert_ne!(outbound, original);
    let responses = tool_responses(&local_history);
    let content = parsed(&responses[0].content);
    assert_eq!(content["output"], text(&output));
    assert!(content.get(TRUNCATION_KEY).is_none());
}

#[test]
fn parallel_large_results_share_one_budget_and_favor_recent_output() {
    let output = "x".repeat(200_000);
    let mut request = request(vec![
        shell_result("call-1", &output),
        shell_result("call-2", &output),
        shell_result("call-3", &output),
        shell_result("call-4", &output),
        shell_result("call-5", &output),
        shell_result("call-6", &output),
    ]);

    let report = apply(&mut request, Some(200_000)).expect("results share one budget");

    let responses = tool_responses(&request);
    let sent_bytes: usize = responses.iter().map(|r| string_bytes(&r.content)).sum();
    assert_eq!(report.truncated_results, 6);
    assert_eq!(
        responses.iter().map(|r| r.call_id.as_str()).collect::<Vec<_>>(),
        ["call-1", "call-2", "call-3", "call-4", "call-5", "call-6"]
    );
    assert!(sent_bytes <= MAX_TOTAL_RESULT_BYTES);
    assert!(responses.iter().all(|r| {
        string_bytes(&r.content) <= MAX_RESULT_BYTES
            && parsed(&r.content)["status"] == "completed"
    }));
    assert!(responses[5].content.len() > responses[0].content.len());
}

#[test]
fn unicode_and_escaped_logs_stay_valid_within_serialized_budget() {
    let output = format!(
        "起点🌍\n{}\n终点🚀",
        "中文🦀\0\u{1b}\t\r\n\\\"".repeat(40_000)
    );
    let mut request = request(vec![shell_result("call-1", &output)]);

    apply(&mut request, Some(200_000)).expect("escapes stay within the budget");

    let responses = tool_responses(&request);
    let content = parsed(&responses[0].content);
    let kept_output = content["output"].as_str().unwrap();
    assert!(kept_output.starts_with("起点🌍\n"));
    assert!(kept_output.ends_with("\n终点🚀"));
    assert!(kept_output.contains("中文🦀\0\u{1b}\t\r\n\\\""));
    assert!(string_bytes(&responses[0].content) <= MAX_RESULT_BYTES);
}

#[test]
fn oversized_plain_text_is_explicitly_wrapped_as_a_partial_preview() {
    let output = format!("开头\n{}\n结尾", "普通文本".repeat(40_000));
    let mut request = request(vec![response("call-1", &output)]);

    apply(&mut request, None).expect("plain text is bounded too");

    let responses = tool_responses(&request);
    let content = parsed(&responses[0].content);
    assert!(content["preview"].as_str().unwrap().starts_with("开头\n"));
    assert!(content["preview"].as_str().unwrap().ends_with("\n结尾"));
    assert!(content[TRUNCATION_KEY]["note"].as_str().is_some());
    assert!(string_bytes(&responses[0].content) <= MAX_RESULT_BYTES);
}

#[test]
fn repeated_bounded_history_keeps_its_fingerprint_but_changed_output_invalidates_it() {
    let mut first = request(vec![shell_result("call-1", &"x".repeat(200_000))]);
    let first_report = apply(&mut first, Some(200_000)).unwrap();
    let mut repeated =
        request(vec![shell_result("call-1", &"x".repeat(200_000)), user("继续")]);
    let repeated_report = apply(&mut repeated, Some(200_000)).unwrap();
    let mut changed = request(vec![shell_result("call-1", &"y".repeat(200_000))]);
    let changed_report = apply(&mut changed, Some(200_000)).unwrap();

    assert!(first_report.truncated_fingerprint.is_some());
    assert_eq!(first_report.truncated_fingerprint, repeated_report.truncated_fingerprint);
    assert_ne!(first_report.truncated_fingerprint, changed_report.truncated_fingerprint);
}

#[test]
fn short_results_remain_byte_for_byte_unchanged() {
    let mut request = request(vec![
        user("检查服务状态"),
        response("call-1", "{ \"status\": \"ok\", \"output\": \"正常\" }"),
        response("call-2", ""),
        response("call-3", "普通文本\n"),
    ]);
    request.system = Some("只读检查".to_owned());
    let original = request.clone();

    let report = apply(&mut request, Some(200_000)).expect("a short request passes");

    assert_eq!(report.truncated_results, 0);
    assert_eq!(report.truncated_fingerprint, None);
    assert_eq!(request, original);
}

#[test]
fn unknown_and_zero_windows_still_enforce_hard_output_limits() {
    let output = "x".repeat(200_000);
    let mut unknown = request(vec![shell_result("call-1", &output)]);
    let mut zero = unknown.clone();

    let unknown_report = apply(&mut unknown, None).expect("an unknown window has a default");
    let zero_report = apply(&mut zero, Some(0)).expect("a window of zero has a default");

    assert_eq!(unknown_report.truncated_results, 1);
    assert_eq!(zero_report.truncated_results, 1);
    assert_eq!(unknown, zero);
    assert!(string_bytes(&tool_responses(&unknown)[0].content) <= MAX_RESULT_BYTES);
}

#[test]
fn small_model_window_accepts_short_conversations() {
    let mut request = request(vec![user("服务是否正常？"), shell_result("call-1", "正常")]);
    let original = request.clone();

    let report = apply(&mut request, Some(4_096)).expect("the reserve leaves room");

    assert_eq!(report.truncated_results, 0);
    assert_eq!(request, original);
}

#[test]
fn small_window_image_is_not_rejected_by_a_fixed_token_estimate() {
    let mut request = request(vec![ChatMessage {
        role: ChatRole::User,
        content: vec![
            ContentPart::Text("识别这张小图".to_owned()),
            image("AAAA".to_owned(), None),
        ],
    }]);
    let original = request.clone();

    apply(&mut request, Some(8_192)).expect("an estimate rejects nothing");

    assert_eq!(request, original);
}

#[test]
fn estimated_overflow_keeps_non_tool_text_and_still_bounds_logs() {
    let mut request = request(vec![
        user(&"hello ".repeat(10_000)),
        shell_result("call-1", &"日志".repeat(100_000)),
    ]);
    let original_user = request.messages[0].clone();

    let report = apply(&mut request, Some(32_768)).expect("an estimate rejects nothing");

    assert_eq!(request.messages[0], original_user);
    assert_eq!(report.truncated_results, 1);
    assert!(string_bytes(&tool_responses(&request)[0].content) <= MAX_RESULT_BYTES);
}

#[test]
fn small_model_window_reduces_tool_output_below_the_default_cap() {
    let mut request = request(vec![shell_result("call-1", &"x".repeat(200_000))]);

    let report = apply(&mut request, Some(4_096)).expect("a small model recovers by cutting");

    assert_eq!(report.truncated_results, 1);
    assert!(serialized_size(&request) <= 6_144);
    let responses = tool_responses(&request);
    let content = parsed(&responses[0].content);
    assert_eq!(content["status"], "completed");
}

#[test]
fn oversized_non_tool_estimate_preserves_text_for_provider_validation() {
    let mut request = request(vec![user(&"x".repeat(1_000_000))]);
    let original = request.clone();

    let report = apply(&mut request, Some(200_000)).expect("an estimate rejects nothing");

    assert_eq!(report.truncated_results, 0);
    assert_eq!(request, original);
}

#[test]
fn multimodal_attachment_remains_intact_when_tool_results_are_trimmed() {
    let attachment = ChatMessage {
        role: ChatRole::User,
        content: vec![
            ContentPart::Text("结合截图分析日志".to_owned()),
            image("AAAA".repeat(250_000), Some("截图.png")),
        ],
    };
    let original_attachment = attachment.clone();
    let mut request = request(vec![attachment, shell_result("call-1", &"x".repeat(200_000))]);

    let report = apply(&mut request, Some(200_000)).expect("base64 is no text");

    assert_eq!(report.truncated_results, 1);
    assert_eq!(request.messages[0], original_attachment);
    assert!(string_bytes(&tool_responses(&request)[0].content) <= MAX_RESULT_BYTES);
}

#[test]
fn old_and_new_large_results_are_bounded_without_touching_short_history() {
    let output = "x".repeat(200_000);
    let mut request = request(vec![
        shell_result("old-call", &output),
        assistant("服务已启动，继续检查错误日志。"),
        shell_result("short-call", "没有错误"),
        user("继续"),
        shell_result("new-call", &output),
    ]);
    let original_short = request.messages[2].clone();
    let original_assistant = request.messages[1].clone();
    let original_user = request.messages[3].clone();

    let report = apply(&mut request, Some(200_000)).expect("old and new share one budget");

    let responses = tool_responses(&request);
    assert_eq!(report.truncated_results, 2);
    assert_eq!(request.messages.len(), 5);
    assert_eq!(request.messages[2], original_short);
    assert_eq!(request.messages[1], original_assistant);
    assert_eq!(request.messages[3], original_user);
    assert_eq!(responses[0].call_id, "old-call");
    assert_eq!(responses[2].call_id, "new-call");
    assert!(string_bytes(&responses[0].content) <= MAX_RESULT_BYTES);
    assert!(string_bytes(&responses[2].content) <= MAX_RESULT_BYTES);
}

#[test]
fn token_budget_keeps_a_reserve_between_a_quarter_and_half() {
    assert_eq!(input_token_budget(None), 150_000);
    assert_eq!(input_token_budget(Some(0)), 150_000);
    assert_eq!(input_token_budget(Some(200_000)), 150_000);
    assert_eq!(input_token_budget(Some(32_768)), 24_576);
    assert_eq!(input_token_budget(Some(20_000)), 12_000);
    assert_eq!(input_token_budget(Some(4_096)), 2_048);
    assert_eq!(input_token_budget(Some(1)), 1);
}

#[test]
fn estimate_takes_two_bytes_per_token_and_a_fixed_size_per_attachment() {
    let request = ChatRequest {
        system: None,
        messages: vec![
            response("call-1", "ab\n"),
            ChatMessage {
                role: ChatRole::User,
                content: vec![ContentPart::Binary(Binary {
                    content_type: "image/png".to_owned(),
                    source: "AAAA".to_owned(),
                    name: None,
                    serialized_bytes: 77,
                })],
            },
        ],
        frame_bytes: 100,
    };

    assert_eq!(serialized_size(&request), 100 + 6 + 77);
    assert_eq!(estimated_input_tokens(&request), (100 + 6 + 16_384) / 2);
    let odd = ChatRequest { frame_bytes: 101, ..request };
    assert_eq!(estimated_input_tokens(&odd), (101 + 6 + 16_384 + 1) / 2);
}

#[test]
fn report_counts_plain_bytes_before_and_after() {
    let mut small = request(vec![response("call-1", "日志"), response("call-2", "ok")]);
    let report = apply(&mut small, None).unwrap();
    assert_eq!(report.original_result_bytes, 8);
    assert_eq!(report.sent_result_bytes, 8);

    let mut large = request(vec![response("call-1", &"x".repeat(100_000))]);
    let report = apply(&mut large, None).unwrap();
    assert_eq!(report.original_result_bytes, 100_000);
    assert_eq!(report.sent_result_bytes, tool_responses(&large)[0].content.len());
    let listed = report.truncated_fingerprint.unwrap();
    assert_eq!(listed.len(), 1);
    assert_eq!(listed[0].call_id, "call-1");
    assert_eq!(listed[0].content, tool_responses(&large)[0].content);
}

#[test]
fn too_many_results_for_minimal_notes_fail_without_a_change() {
    let mut messages = Vec::new();
    for k in 0..257 {
        messages.push(response(&format!("call-{k}"), &"x".repeat(600)));
    }
    let mut crowded = request(messages);
    let original = crowded.clone();

    assert_eq!(apply(&mut crowded, Some(200_000)), Err(RequestBudgetExceeded));
    assert_eq!(crowded, original);
    assert_eq!(RequestBudgetExceeded.message(), BUDGET_EXCEEDED);
}

#[test]
fn fitting_a_fitted_request_changes_nothing() {
    let mut request = request(vec![
        shell_result("call-1", &"x".repeat(200_000)),
        response("call-2", &"y".repeat(90_000)),
    ]);
    apply(&mut request, Some(200_000)).unwrap();
    let once = request.clone();

    let report = apply(&mut request, Some(200_000)).unwrap();

    assert_eq!(report.truncated_results, 0);
    assert_eq!(request, once);
}

#[test]
fn result_that_fits_is_returned_as_it_is() {
    assert_eq!(bounded_result("{ \"a\" : 1 }", 15), "{ \"a\" : 1 }");
    assert_eq!(bounded_result("", 2), "");
}

#[test]
fn shortened_result_keeps_as_much_as_fits() {
    let content = "0123456789".repeat(100);
    for budget in [320, 400, 517, 700, 900] {
        let sent = bounded_result(&content, budget);
        assert!(string_bytes(&sent) <= budget);
        let value = parsed(&sent);
        let preview = value["preview"].as_str().unwrap();
        let (head, tail) = preview.split_once("\n[... omitted ...]\n").unwrap();
        assert!(content.starts_with(head));
        assert!(content.ends_with(tail));
        assert!(tail.len() == head.len() || tail.len() == head.len() + 1);
        // One more byte would not have fitted.
        assert!(string_bytes(&sent) == budget);
        assert_eq!(value[TRUNCATION_KEY]["original_bytes"], 1000);
        assert_eq!(value[TRUNCATION_KEY]["note"], TRUNCATION_NOTE);
    }
}

#[test]
fn fields_other_than_output_stay_where_they_fit() {
    let content = object(vec![
        ("output", text(&"line\n".repeat(1000))),
        ("cwd", text("/repo")),
        ("exit_code", Value::from(7)),
    ])
    .to_string();

    let value = parsed(&bounded_result(&content, 1024));

    assert_eq!(value["cwd"], "/repo");
    assert_eq!(value["exit_code"], 7);
    assert!(value["output"].as_str().unwrap().starts_with("line\nline\n"));
    assert_eq!(value[TRUNCATION_KEY]["original_bytes"], content.len());
}

#[test]
fn output_that_is_no_string_is_shortened_as_a_whole() {
    let content =
        object(vec![("output", Value::Array(vec![text(&"x".repeat(5000))]))]).to_string();

    let value = parsed(&bounded_result(&content, 1024));

    assert!(value.get("output").is_none());
    assert!(value["preview"].as_str().unwrap().starts_with("{\"output\":[\"xxx"));
}

fn field(name: &str, text: &str) -> JsonField {
    JsonField { name: name.to_owned(), text: text.to_owned() }
}

#[test]
fn shortening_goes_by_what_was_read_of_the_result() {
    let content = "c".repeat(2_000);
    let fields = || vec![field("cwd", "\"/repo\""), field("exit_code", "7")];

    let sent = bounded_parsed(&content, Some((fields(), "o".repeat(1_500))), 500);
    let value = parsed(&sent);
    assert_eq!(value["cwd"], "/repo");
    assert_eq!(value["exit_code"], 7);
    assert_eq!(value[TRUNCATION_KEY]["original_bytes"], 2_000);
    assert!(value["output"].as_str().unwrap().starts_with("oooo"));
    assert_eq!(string_bytes(&sent), 500);

    let value = parsed(&bounded_parsed(&content, None, 500));
    assert!(value.get("output").is_none());
    assert!(value["preview"].as_str().unwrap().starts_with("cccc"));

    let value = parsed(&bounded_parsed(&content, Some((fields(), String::new())), 10));
    assert_eq!(value["exit_code"], 7);
    assert!(value.get("cwd").is_none() && value.get("output").is_none());
    assert!(value.get("preview").is_none());

    assert_eq!(bounded_parsed(&content, None, 2_002), content);
}

#[test]
fn shortening_agrees_with_the_parsed_form() {
    let content =
        object(vec![("exit_code", Value::from(7)), ("output", text(&"日志\n".repeat(900)))])
            .to_string();
    let parts = (vec![field("exit_code", "7")], "日志\n".repeat(900));
    for budget in [0, 300, 400, 401, 402, 403, 1_000] {
        assert_eq!(
            bounded_result(&content, budget),
            bounded_parsed(&content, Some(parts.clone()), budget)
        );
    }
}

#[test]
fn any_kept_end_of_an_output_shows_in_the_fingerprint() {
    let fingerprint = |output: &str, added: bool| {
        let mut messages = vec![shell_result("call-1", output)];
        if added {
            messages.push(user("继续"));
        }
        let mut request = request(messages);
        apply(&mut request, Some(200_000)).unwrap().truncated_fingerprint
    };
    let middle = "日志 [... omitted ...] ".repeat(20_000);
    let first = fingerprint(&format!("a{middle}a"), false);

    assert!(first.is_some());
    assert_eq!(first, fingerprint(&format!("a{middle}a"), true));
    assert_ne!(first, fingerprint(&format!("b{middle}a"), false));
    assert_ne!(first, fingerprint(&format!("a{middle}b"), false));
    assert_ne!(first, fingerprint("a", false));
}
