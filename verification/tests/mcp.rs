use byop_agent::mcp_auth::{has_caller_supplied_credential, is_oauth_challenge, ConfiguredHeader};
use byop_agent::mcp_startup::{
    finish_wait, first_step, is_settled, scan_result, step_after_scan, MCPServerState,
    ModelEventWaitError, PendingServers, ServerSnapshot, StartupStep, WaitEnd,
};

fn headers(pairs: &[(&str, &str)]) -> Vec<ConfiguredHeader> {
    pairs
        .iter()
        .map(|(name, value)| ConfiguredHeader { name: name.to_string(), value: value.to_string() })
        .collect()
}

fn server(uuid: u128, configured: bool, state: Option<MCPServerState>) -> ServerSnapshot {
    ServerSnapshot { uuid, configured, state }
}

#[test]
fn oauth_challenge_requires_resource_metadata_parameter() {
    assert!(is_oauth_challenge(
        r#"Bearer resource_metadata="https://example.com/.well-known/oauth-protected-resource""#
    ));
    assert!(is_oauth_challenge(
        r#"bearer RESOURCE_METADATA = "https://example.com/metadata""#
    ));
    assert!(!is_oauth_challenge("Bearer"));
    assert!(!is_oauth_challenge(r#"Bearer error="invalid_token""#));
    assert!(!is_oauth_challenge(r#"Basic realm="mcp""#));
}

#[test]
fn oauth_challenge_ignores_parameter_names_inside_quoted_values() {
    assert!(!is_oauth_challenge(
        r#"Bearer error_description="mentions \" resource_metadata=\"fake\"", error="invalid_token""#
    ));
    assert!(is_oauth_challenge(
        r#"Bearer error_description="missing resource_metadata", resource_metadata="https://example.com""#
    ));
    assert!(!is_oauth_challenge(
        r#"Bearer error_description="unterminated resource_metadata="https://example.com"#
    ));
}

#[test]
fn oauth_challenge_needs_a_whole_name_and_closed_quotes() {
    assert!(!is_oauth_challenge("Bearer resource_metadata"));
    assert!(!is_oauth_challenge("Bearer x_resource_metadata=1"));
    assert!(!is_oauth_challenge("Bearer resource_metadata=\"https://example.com"));
    assert!(is_oauth_challenge("Bearer a=b ,\tresource_metadata=x"));
    assert!(!is_oauth_challenge("Bearerresource_metadata=x"));
    assert!(!is_oauth_challenge(""));
}

#[test]
fn only_nonempty_static_auth_headers_count_as_credentials() {
    assert!(has_caller_supplied_credential(&headers(&[("aUtHoRiZaTiOn", "Bearer token")])));
    assert!(has_caller_supplied_credential(&headers(&[("X-Api-Key", "token")])));
    assert!(has_caller_supplied_credential(&headers(&[("API-KEY", "token")])));
    assert!(!has_caller_supplied_credential(&headers(&[("Authorization", "   ")])));
    assert!(!has_caller_supplied_credential(&headers(&[("Content-Type", "application/json")])));
    assert!(!has_caller_supplied_credential(&Vec::new()));
}

#[test]
fn discarded_invalid_headers_do_not_count_as_sent_credentials() {
    assert!(!has_caller_supplied_credential(&headers(&[(
        "Authorization",
        "Bearer invalid\ntoken"
    )])));
    assert!(!has_caller_supplied_credential(&headers(&[
        ("Authorization", "Bearer valid-token"),
        ("Invalid Header", "value"),
    ])));
}

#[test]
fn header_limits_are_those_of_http() {
    let long = "x".repeat(65_535);
    let longer = "x".repeat(65_536);
    let both = |name: &str, value: &str| {
        has_caller_supplied_credential(&headers(&[("Authorization", "a"), (name, value)]))
    };
    assert!(both(&long, "v"));
    assert!(!both(&longer, "v"));
    assert!(!both("", "v"));
    assert!(both("!#$%&'*+-.^_`|~09AZaz", "tab\tand 中文"));
    assert!(!both("quote\"", "v"));
    assert!(!both("名", "v"));
    assert!(!both("n", "\u{7f}"));
    assert!(!both("n", "\u{1}"));
}

#[test]
fn timed_out_wait_removes_its_subscription_before_another_wait() {
    assert_eq!(finish_wait::<usize>(WaitEnd::TimedOut), (Err(ModelEventWaitError::TimedOut), true));
    assert_eq!(finish_wait(WaitEnd::Value(2)), (Ok(2), false));
    assert_eq!(
        finish_wait::<usize>(WaitEnd::SenderDropped),
        (Err(ModelEventWaitError::SubscriptionDropped), false)
    );
}

#[test]
fn initial_global_scan_timeout_is_nonfatal() {
    assert_eq!(first_step(true), StartupStep::WaitForScan);
    let found = scan_result(Err(ModelEventWaitError::TimedOut));
    assert!(found.is_empty());
    assert_eq!(step_after_scan(found, 0), StartupStep::Proceed);
    assert!(scan_result(Err(ModelEventWaitError::SubscriptionDropped)).is_empty());
}

#[test]
fn disabled_file_based_mcp_skips_initial_global_wait() {
    assert_eq!(first_step(false), StartupStep::Proceed);
}

#[test]
fn initial_global_scan_completion_waits_for_queued_autostart() {
    let uuid = 7;
    let found = scan_result(Ok(vec![uuid]));
    assert_eq!(found, vec![uuid]);
    assert_eq!(step_after_scan(found, 1), StartupStep::WaitForServers(vec![uuid]));
    assert_eq!(step_after_scan(vec![uuid], 0), StartupStep::Proceed);
    assert_eq!(step_after_scan(vec![], 1), StartupStep::Proceed);

    let mut pending = PendingServers::new(&vec![server(uuid, true, None)]);
    assert!(!pending.is_settled());
    assert!(!pending.on_state_changed(uuid, MCPServerState::Starting));
    assert!(pending.on_state_changed(uuid, MCPServerState::Running));
    assert!(pending.is_settled());
}

#[test]
fn initial_global_server_wait_settles_when_startup_fails() {
    let uuid = 7;
    let mut pending = PendingServers::new(&vec![server(uuid, true, None)]);
    assert!(!pending.is_settled());
    assert!(pending.on_state_changed(uuid, MCPServerState::FailedToStart));
}

#[test]
fn initial_global_server_wait_accepts_stopped_and_removed_servers() {
    let pending = PendingServers::new(&vec![
        server(7, true, Some(MCPServerState::NotRunning)),
        server(8, false, None),
    ]);
    assert!(pending.is_settled());
}

#[test]
fn wait_lasts_until_every_server_has_settled() {
    let mut pending = PendingServers::new(&vec![
        server(1, true, Some(MCPServerState::Starting)),
        server(2, true, Some(MCPServerState::Authenticating)),
        server(2, true, Some(MCPServerState::ShuttingDown)),
        server(3, true, Some(MCPServerState::Running)),
        server(4, true, Some(MCPServerState::FailedToStart)),
    ]);
    assert!(!pending.on_state_changed(2, MCPServerState::Running));
    assert!(!pending.on_state_changed(9, MCPServerState::Running));
    assert!(!pending.on_state_changed(1, MCPServerState::Authenticating));
    assert!(pending.on_state_changed(1, MCPServerState::NotRunning));
}

#[test]
fn settled_states_are_those_that_last() {
    assert!(is_settled(MCPServerState::Running));
    assert!(is_settled(MCPServerState::FailedToStart));
    assert!(is_settled(MCPServerState::NotRunning));
    assert!(!is_settled(MCPServerState::Starting));
    assert!(!is_settled(MCPServerState::Authenticating));
    assert!(!is_settled(MCPServerState::ShuttingDown));
}

#[test]
fn initial_global_server_wait_timeout_allows_later_wait_to_complete() {
    let uuid = 7;
    let first = PendingServers::new(&vec![server(uuid, true, None)]);
    assert!(!first.is_settled());
    assert_eq!(finish_wait::<()>(WaitEnd::TimedOut), (Err(ModelEventWaitError::TimedOut), true));
    let mut next = PendingServers::new(&vec![server(uuid, true, None)]);
    assert!(next.on_state_changed(uuid, MCPServerState::Running));
    assert_eq!(finish_wait(WaitEnd::Value(())), (Ok(()), false));
}
