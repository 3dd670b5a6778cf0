use byop_agent::api_error::{
    is_context_window_exceeded_message, AIApiError, ClientError, DeserializationError, ErrorChain,
    ErrorSource, StreamFailure, StreamStep, TransportError, INFINISHELL_ERROR_CODE_HEADER,
    LEGACY_ZAP_ERROR_CODE_HEADER, WARP_ERROR_CODE_OUT_OF_CREDITS,
};
use byop_agent::request_budget::BUDGET_EXCEEDED;

const BAD_GATEWAY: u16 = 502;

fn chain(messages: &[&str]) -> ErrorChain {
    ErrorChain {
        messages: messages.iter().map(|m| m.to_string()).collect(),
        blocked_readiness: false,
        actionable: true,
    }
}

fn transport(status: Option<u16>) -> TransportError {
    TransportError {
        status,
        timeout: false,
        decode: false,
        sources: vec![],
        actionable: false,
        message: "failed".to_owned(),
    }
}

fn headers(name: &str, value: &'static str) -> http::HeaderMap {
    let mut headers = http::HeaderMap::new();
    headers.insert(
        http::HeaderName::from_bytes(name.as_bytes()).unwrap(),
        http::HeaderValue::from_static(value),
    );
    headers
}

#[test]
fn byop_blocked_readiness_error_is_not_retryable() {
    let error = AIApiError::Other(ErrorChain {
        messages: vec!["blocked".to_owned()],
        blocked_readiness: true,
        actionable: false,
    });

    assert!(!error.is_retryable());
}

#[test]
fn provider_protocol_error_is_not_retried_blindly() {
    let error = AIApiError::ProviderProtocol("response.incomplete".to_owned());

    assert!(!error.is_retryable());
    assert!(!error.is_actionable());
}

#[test]
fn context_overflow_wrapped_in_bad_gateway_is_not_retried() {
    let error = AIApiError::ErrorStatus(
        BAD_GATEWAY,
        r#"{"error":{"message":"Your input exceeds the context window of this model."}}"#
            .to_owned(),
    );

    assert!(error.is_context_window_exceeded());
    assert!(!error.is_retryable());
    assert!(!error.is_actionable());
}

#[test]
fn ordinary_bad_gateway_remains_retryable() {
    let error =
        AIApiError::ErrorStatus(BAD_GATEWAY, "Upstream connection reset".to_owned());

    assert!(!error.is_context_window_exceeded());
    assert!(error.is_retryable());
    assert!(error.is_actionable());
}

#[test]
fn structured_context_error_codes_are_recognized_without_matching_longer_identifiers() {
    assert!(is_context_window_exceeded_message(
        r#"{"error":{"code":"context_length_exceeded","message":"Request too large"}}"#
    ));
    assert!(is_context_window_exceeded_message(
        "CONTEXT_WINDOW_EXCEEDED: local request budget exceeded"
    ));
    assert!(!is_context_window_exceeded_message("not_context_window_exceeded"));
    assert!(!is_context_window_exceeded_message("context_window_exceeded_count"));
}

#[test]
fn context_overflow_in_other_error_source_stops_resume() {
    let error = AIApiError::Other(chain(&[
        "BYOP request conversion failed",
        "context_window_exceeded: local request budget exceeded",
    ]));

    assert!(error.is_context_window_exceeded());
    assert!(!error.is_retryable());
    assert!(!error.is_actionable());
}

#[test]
fn context_overflow_in_protocol_errors_uses_specific_classification() {
    let error = AIApiError::ProviderProtocol(
        "Responses response.failed: Your input exceeds the context window".to_owned(),
    );

    assert!(error.is_context_window_exceeded());
    assert!(!error.is_retryable());
}

#[test]
fn context_overflow_in_stream_errors_is_not_retried() {
    let error = AIApiError::Stream {
        stream_type: "BYOP".to_owned(),
        source: chain(&["Your input exceeded context window limit"]),
    };

    assert!(error.is_context_window_exceeded());
    assert!(!error.is_retryable());
}

#[test]
fn output_limit_and_unrelated_errors_are_not_context_overflow() {
    assert!(!is_context_window_exceeded_message(
        "Responses response.incomplete: max_output_tokens"
    ));
    assert!(!is_context_window_exceeded_message("Rate limit exceeded for tokens per minute"));
    assert!(!is_context_window_exceeded_message(
        "The input does not exceed the context window"
    ));
    assert!(!is_context_window_exceeded_message(
        "Failed to read model context window configuration"
    ));
}

#[test]
fn current_infinishell_quota_header_is_recognized() {
    let headers = headers(INFINISHELL_ERROR_CODE_HEADER, "OUT_OF_CREDITS");

    assert_eq!(WARP_ERROR_CODE_OUT_OF_CREDITS, "OUT_OF_CREDITS");
    assert!(matches!(AIApiError::error_for_429(&headers), AIApiError::QuotaLimit));
}

#[test]
fn legacy_zap_quota_header_is_recognized() {
    let headers = headers(LEGACY_ZAP_ERROR_CODE_HEADER, "OUT_OF_CREDITS");

    assert!(matches!(AIApiError::error_for_429(&headers), AIApiError::QuotaLimit));
}

#[test]
fn other_limits_mean_an_overloaded_server() {
    assert_eq!(
        AIApiError::error_for_429(&http::HeaderMap::new()),
        AIApiError::ServerOverloaded
    );
    assert_eq!(
        AIApiError::error_for_429(&headers(INFINISHELL_ERROR_CODE_HEADER, "out_of_credits")),
        AIApiError::ServerOverloaded
    );
    let mut both = headers(LEGACY_ZAP_ERROR_CODE_HEADER, "OUT_OF_CREDITS");
    both.insert(
        http::HeaderName::from_bytes(INFINISHELL_ERROR_CODE_HEADER.as_bytes()).unwrap(),
        http::HeaderValue::from_static("OTHER"),
    );
    assert_eq!(AIApiError::error_for_429(&both), AIApiError::ServerOverloaded);
}

#[test]
fn response_errors_are_told_apart_by_their_status() {
    let quota = headers(INFINISHELL_ERROR_CODE_HEADER, "OUT_OF_CREDITS");
    assert_eq!(
        AIApiError::from_response_error(transport(Some(429)), &quota),
        AIApiError::QuotaLimit
    );
    assert_eq!(
        AIApiError::from_response_error(transport(Some(500)), &quota),
        AIApiError::Transport(transport(Some(500)))
    );
    assert_eq!(
        AIApiError::from_response_error(transport(None), &quota),
        AIApiError::Transport(transport(None))
    );
}

#[test]
fn decoding_errors_count_unless_the_connection_failed() {
    let decode = TransportError { decode: true, ..transport(None) };
    assert_eq!(
        AIApiError::from_transport_error(decode.clone()),
        AIApiError::Deserialization(DeserializationError::Transport(decode.clone()))
    );
    let timeout = TransportError { timeout: true, ..decode.clone() };
    assert_eq!(
        AIApiError::from_transport_error(timeout.clone()),
        AIApiError::Transport(timeout)
    );
    let broken = TransportError {
        sources: vec![ErrorSource::Other, ErrorSource::Connection],
        ..decode
    };
    assert_eq!(
        AIApiError::from_transport_error(broken.clone()),
        AIApiError::Transport(broken)
    );
}

#[test]
fn stream_errors_read_the_body_only_where_it_matters() {
    let stream = || "BYOP".to_owned();
    assert_eq!(
        AIApiError::from_stream_error(
            stream(),
            StreamFailure::Status(429, http::HeaderMap::new())
        ),
        StreamStep::Failed(AIApiError::ServerOverloaded)
    );
    assert_eq!(
        AIApiError::from_stream_error(
            stream(),
            StreamFailure::Status(500, http::HeaderMap::new())
        ),
        StreamStep::ReadBody(500)
    );
    assert_eq!(
        AIApiError::from_stream_error(stream(), StreamFailure::Transport(transport(None))),
        StreamStep::Failed(AIApiError::Transport(transport(None)))
    );
    assert_eq!(
        AIApiError::from_stream_error(stream(), StreamFailure::Other(chain(&["ended"]))),
        StreamStep::Failed(AIApiError::Stream {
            stream_type: "BYOP".to_owned(),
            source: chain(&["ended"]),
        })
    );
    assert_eq!(
        AIApiError::from_stream_body(500, Ok("oops".to_owned())),
        AIApiError::ErrorStatus(500, "oops".to_owned())
    );
    assert_eq!(
        AIApiError::from_stream_body(500, Err("closed".to_owned())),
        AIApiError::ErrorStatus(500, "(no response body: closed)".to_owned())
    );
}

#[test]
fn client_errors_are_retried_only_where_time_helps() {
    for (status, retried) in [(400, false), (404, false), (408, true), (429, true), (499, false)] {
        assert_eq!(AIApiError::ErrorStatus(status, "x".to_owned()).is_retryable(), retried);
        assert_eq!(AIApiError::Transport(transport(Some(status))).is_retryable(), retried);
    }
    assert!(AIApiError::ErrorStatus(399, "x".to_owned()).is_retryable());
    assert!(AIApiError::ErrorStatus(500, "x".to_owned()).is_retryable());
    assert!(AIApiError::Transport(transport(None)).is_retryable());
    assert!(AIApiError::QuotaLimit.is_retryable());
    assert!(AIApiError::ServerOverloaded.is_retryable());
    assert!(AIApiError::NoContextFound.is_retryable());
    assert!(!AIApiError::QuotaLimit.is_actionable());
    assert!(!AIApiError::NoContextFound.is_actionable());
    assert!(AIApiError::Other(chain(&["x"])).is_retryable());
    assert!(AIApiError::Other(chain(&["x"])).is_actionable());
    let json = AIApiError::Deserialization(DeserializationError::Json("eof".to_owned()));
    assert!(json.is_retryable());
    assert!(json.is_actionable());
}

#[test]
fn local_budget_error_is_a_context_overflow() {
    assert!(is_context_window_exceeded_message(BUDGET_EXCEEDED));
    assert!(is_context_window_exceeded_message(&BUDGET_EXCEEDED.to_uppercase()));
}

#[test]
fn error_codes_are_found_at_both_ends_of_a_message() {
    assert!(is_context_window_exceeded_message("context_window_exceeded"));
    assert!(is_context_window_exceeded_message("code=context_length_exceeded"));
    assert!(!is_context_window_exceeded_message("9context_length_exceeded"));
    assert!(is_context_window_exceeded_message("错context_length_exceeded误"));
    assert!(!is_context_window_exceeded_message(""));
}

#[test]
fn server_error_shows_its_text() {
    let error = ClientError { error: "denied".to_owned(), auth_url: None };
    assert_eq!(error.message(), "denied");
}

#[test]
fn every_error_shows_its_text() {
    let shown = |error: AIApiError| error.message();
    assert_eq!(shown(AIApiError::QuotaLimit), "Request failed due to lack of AI quota.");
    assert_eq!(
        shown(AIApiError::ServerOverloaded),
        "InfiniShell is currently overloaded. Please try again later."
    );
    assert_eq!(
        shown(AIApiError::Transport(transport(None))),
        "Internal error occurred at transport layer."
    );
    let unread = DeserializationError::Json("EOF while parsing a value".to_owned());
    assert_eq!(unread.message(), "EOF while parsing a value");
    assert_eq!(DeserializationError::Transport(transport(None)).message(), "failed");
    assert_eq!(
        shown(AIApiError::Deserialization(unread)),
        "Failed to deserialize API response."
    );
    assert_eq!(shown(AIApiError::NoContextFound), "No context found on context search.");
    assert_eq!(
        shown(AIApiError::ErrorStatus(BAD_GATEWAY, "upstream".to_owned())),
        "Failed with status code 502 Bad Gateway: upstream"
    );
    assert_eq!(
        shown(AIApiError::ErrorStatus(799, "upstream".to_owned())),
        "Failed with status code 799 <unknown status code>: upstream"
    );
    assert_eq!(
        shown(AIApiError::ErrorStatus(42, "upstream".to_owned())),
        "Failed with status code 42: upstream"
    );
    assert_eq!(
        shown(AIApiError::ProviderProtocol("response.incomplete".to_owned())),
        "Provider response protocol error: response.incomplete"
    );
    assert_eq!(shown(AIApiError::Other(chain(&["outer", "inner"]))), "outer");
    assert_eq!(shown(AIApiError::Other(chain(&[]))), "");
    assert_eq!(
        shown(AIApiError::Stream {
            stream_type: "chat".to_owned(),
            source: chain(&["outer", "middle", "inner"]),
        }),
        "Got error when streaming chat: outer: middle: inner"
    );
}
