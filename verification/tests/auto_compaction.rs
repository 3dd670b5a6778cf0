use std::sync::Arc;

use byop_agent::agent::AIAgentInput;
use byop_agent::auto_compaction::{can_continue_after_byop_compaction, ResponseStream};
use byop_agent::request_budget::input_token_budget;

fn stream() -> ResponseStream {
    ResponseStream {
        byop_context_window: None,
        allow_auto_compaction: false,
        input: Vec::new(),
    }
}

#[test]
fn byop_auto_compaction_uses_actual_window_and_stops_after_recovery() {
    let mut stream = stream();
    stream.byop_context_window = Some(Some(32_768));
    stream.allow_auto_compaction = true;
    let threshold = input_token_budget(Some(32_768)).saturating_mul(4) / 5;
    assert!(!stream.should_auto_compact(threshold - 1, true));
    assert!(stream.should_auto_compact(threshold, true));
    assert!(!stream.should_auto_compact(threshold, false));
    assert!(!stream.should_auto_compact(0, true));

    stream.allow_auto_compaction = false;
    assert!(!stream.should_auto_compact(usize::MAX, true));
    stream.allow_auto_compaction = true;
    stream.input.push(AIAgentInput::SummarizeConversation {
        prompt: None,
        overflow: false,
        context: Arc::new(Vec::new()),
    });
    assert!(!stream.should_auto_compact(usize::MAX, true));
}

#[test]
fn byop_auto_compaction_excludes_non_byop_and_handles_unknown_window() {
    let mut stream = stream();
    stream.allow_auto_compaction = true;
    assert!(!stream.should_auto_compact(usize::MAX, true));

    stream.byop_context_window = Some(None);
    let threshold = input_token_budget(None).saturating_mul(4) / 5;
    assert!(!stream.should_auto_compact(threshold - 1, true));
    assert!(stream.should_auto_compact(threshold, true));
    assert_eq!(threshold, 120_000);
}

#[test]
fn byop_compaction_continues_only_after_committed_summary_without_new_work() {
    assert!(can_continue_after_byop_compaction(true, false, false));
    assert!(!can_continue_after_byop_compaction(false, false, false));
    assert!(!can_continue_after_byop_compaction(true, true, false));
    assert!(!can_continue_after_byop_compaction(true, false, true));
}
