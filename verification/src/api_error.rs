//! Errors of a model provider: which ones mean that the context is too large, which ones
//! are worth another try, and which ones are reported.

use vstd::prelude::*;
use crate::json;
use crate::json::decimal_text;
use crate::request_budget;
use crate::text;
use crate::text::{chars_of, lower_chars_of, stands_at, stands_in};

verus! {

pub const INFINISHELL_ERROR_CODE_HEADER: &'static str = "X-InfiniShell-Error-Code";

pub const LEGACY_ZAP_ERROR_CODE_HEADER: &'static str = "X-Zap-Error-Code";

pub const WARP_ERROR_CODE_OUT_OF_CREDITS: &'static str = "OUT_OF_CREDITS";

pub const REQUEST_TIMEOUT: u16 = 408;

pub const TOO_MANY_REQUESTS: u16 = 429;

/// What a server tells a client about a failure.
#[derive(Debug, Clone, PartialEq, Eq)]
pub struct ClientError {
    pub error: String,
    pub auth_url: Option<String>,
}

impl ClientError {
    /// The text under which the error is shown.
    pub fn message(&self) -> (r: String)
        ensures
            r == self.error,
    {
        self.error.clone()
    }
}

/// Where an error came from.
#[derive(Debug, Clone, Copy, PartialEq, Eq, Structural)]
pub enum ErrorSource {
    /// The HTTP connection itself.
    Connection,
    Other,
}

/// An error of the HTTP client.
#[derive(Debug, Clone, PartialEq, Eq)]
pub struct TransportError {
    pub status: Option<u16>,
    pub timeout: bool,
    /// The response could not be decoded.
    pub decode: bool,
    /// What the error came from, the nearest source first.
    pub sources: Vec<ErrorSource>,
    /// The error is worth a report.
    pub actionable: bool,
    pub message: String,
}

/// Any other error, with the errors behind it.
#[derive(Debug, Clone, PartialEq, Eq)]
pub struct ErrorChain {
    /// The text of the error and of each error behind it.
    pub messages: Vec<String>,
    /// The provider was found not to be ready for the request.
    pub blocked_readiness: bool,
    /// The error is worth a report.
    pub actionable: bool,
}

#[derive(Debug, Clone, PartialEq, Eq)]
pub enum DeserializationError {
    /// The text of the JSON error.
    Json(String),
    Transport(TransportError),
}

#[derive(Debug, Clone, PartialEq, Eq)]
pub enum AIApiError {
    QuotaLimit,
    ServerOverloaded,
    Transport(TransportError),
    Deserialization(DeserializationError),
    NoContextFound,
    ErrorStatus(u16, String),
    ProviderProtocol(String),
    Other(ErrorChain),
    Stream { stream_type: String, source: ErrorChain },
}

/// How `http` shows a status: its number and what it stands for.
pub uninterp spec fn status_line(code: u16) -> Seq<char>;

/// Wraps `http::StatusCode::from_u16` and the `Display` of `http::StatusCode`. The numbers with
/// three digits are statuses, and the text of each starts with its number; the rest of it is
/// what `status_line` names.
#[verifier::external_body]
fn status_text(code: u16) -> (r: Option<String>)
    ensures
        r is Some <==> 100 <= code < 1000,
        r is Some ==> r->0@ == status_line(code),
        r is Some ==> (json::decimal(code as nat) + seq![' ']).is_prefix_of(r->0@),
{
    http::StatusCode::from_u16(code).ok().map(|status| status.to_string())
}

/// The status as it is shown; a number that is no status stands for itself.
pub open spec fn shown_status(code: u16) -> Seq<char> {
    if 100 <= code < 1000 {
        status_line(code)
    } else {
        json::decimal(code as nat)
    }
}

/// The texts of an error and of the errors behind it, in a row.
pub open spec fn joined(messages: Seq<String>) -> Seq<char>
    decreases messages.len(),
{
    if messages.len() == 0 {
        Seq::empty()
    } else if messages.len() == 1 {
        messages.last()@
    } else {
        joined(messages.drop_last()) + ": "@ + messages.last()@
    }
}

impl ErrorChain {
    /// The text of the error alone.
    pub open spec fn first_message(self) -> Seq<char> {
        if self.messages@.len() == 0 {
            Seq::empty()
        } else {
            self.messages@[0]@
        }
    }

    /// The text of the error and of every error behind it.
    fn all_messages(&self) -> (r: String)
        ensures
            r@ == joined(self.messages@),
    {
        let mut text: String = String::new();
        let mut i: usize = 0;
        assert(self.messages@.take(0) =~= Seq::<String>::empty());
        assert(text@ =~= Seq::<char>::empty());
        while i < self.messages.len()
            invariant
                i <= self.messages.len(),
                text@ == joined(self.messages@.take(i as int)),
            decreases self.messages.len() - i,
        {
            proof {
                let next = self.messages@.take(i + 1);
                assert(next.drop_last() =~= self.messages@.take(i as int));
                assert(next.last() == self.messages@[i as int]);
            }
            if i > 0 {
                text.append(": ");
                text.append(self.messages[i].as_str());
            } else {
                text = self.messages[i].clone();
            }
            i += 1;
        }
        assert(self.messages@.take(i as int) =~= self.messages@);
        text
    }
}

impl DeserializationError {
    /// The text under which the error is shown: that of the error behind it.
    pub fn message(&self) -> (r: String)
        ensures
            r == match *self {
                DeserializationError::Json(text) => text,
                DeserializationError::Transport(e) => e.message,
            },
    {
        match self {
            DeserializationError::Json(text) => text.clone(),
            DeserializationError::Transport(e) => e.message.clone(),
        }
    }
}

/// The headers of an HTTP response.
#[verifier::external_type_specification]
#[verifier::external_body]
#[verifier::reject_recursive_types(T)]
pub struct ExHeaderMap<T>(http::HeaderMap<T>);

/// One value of an HTTP header.
#[verifier::external_type_specification]
#[verifier::external_body]
pub struct ExHeaderValue(http::HeaderValue);

/// The headers of a response: for each name in lower case, the bytes of its first value.
pub uninterp spec fn first_values(headers: http::HeaderMap<http::HeaderValue>) -> Map<
    Seq<char>,
    Seq<u8>,
>;

/// Wraps `http::HeaderMap::get` and `http::HeaderValue::as_bytes`. The result is the first
/// value of the header, whatever the case of `name`, or nothing where there is no such
/// header.
#[verifier::external_body]
fn first_value(headers: &http::HeaderMap<http::HeaderValue>, name: &str) -> (r: Option<Vec<u8>>)
    ensures
        match r {
            Some(value) => first_values(*headers).dom().contains(text::lower(name@))
                && first_values(*headers)[text::lower(name@)] == value@,
            None => !first_values(*headers).dom().contains(text::lower(name@)),
        },
{
    headers.get(name).map(|value| value.as_bytes().to_vec())
}

/// The error code that a response carries: under the current header, or under the older one
/// where the current one is missing.
pub open spec fn error_code(headers: Map<Seq<char>, Seq<u8>>) -> Option<Seq<u8>> {
    if headers.dom().contains(text::lower(INFINISHELL_ERROR_CODE_HEADER@)) {
        Some(headers[text::lower(INFINISHELL_ERROR_CODE_HEADER@)])
    } else if headers.dom().contains(text::lower(LEGACY_ZAP_ERROR_CODE_HEADER@)) {
        Some(headers[text::lower(LEGACY_ZAP_ERROR_CODE_HEADER@)])
    } else {
        None
    }
}

/// What a response with too many requests means.
pub open spec fn too_many_requests(headers: Map<Seq<char>, Seq<u8>>) -> AIApiError {
    if error_code(headers) == Some(vstd::utf8::encode_utf8(WARP_ERROR_CODE_OUT_OF_CREDITS@)) {
        AIApiError::QuotaLimit
    } else {
        AIApiError::ServerOverloaded
    }
}

/// What an error of the HTTP client means. A response that could not be decoded because the
/// connection failed is a transport error.
pub open spec fn transport_error(err: TransportError) -> AIApiError {
    if !err.timeout && err.decode && !err.sources@.contains(ErrorSource::Connection) {
        AIApiError::Deserialization(DeserializationError::Transport(err))
    } else {
        AIApiError::Transport(err)
    }
}

/// A character of an identifier in lower case.
pub open spec fn identifier_char(c: char) -> bool {
    ('a' <= c && c <= 'z') || ('0' <= c && c <= '9') || c == '_'
}

/// The identifier `code` stands in `s` at `at` and is not part of a longer one.
pub open spec fn identifier_at(s: Seq<char>, code: Seq<char>, at: int) -> bool {
    &&& text::occurs_at(s, code, at)
    &&& at == 0 || !identifier_char(s[at - 1])
    &&& at + code.len() == s.len() || !identifier_char(s[at + code.len()])
}

pub open spec fn has_identifier(s: Seq<char>, code: Seq<char>) -> bool {
    exists|at: int| identifier_at(s, code, at)
}

/// The message says that the input does not fit into the context window: by an error code,
/// or in words. That an output limit was reached, or that requests are limited, is
/// something else.
pub open spec fn overflow_message(message: Seq<char>) -> bool {
    let s = text::lower(message);
    ||| has_identifier(s, "context_window_exceeded"@)
    ||| has_identifier(s, "context_length_exceeded"@)
    ||| text::occurs(s, "input exceeds the context window"@)
    ||| text::occurs(s, "input exceeded the context window"@)
    ||| text::occurs(s, "input exceeds context window"@)
    ||| text::occurs(s, "input exceeded context window"@)
}

/// One of the messages says so.
pub open spec fn overflow_chain(messages: Seq<String>) -> bool {
    exists|k: int| 0 <= k < messages.len() && overflow_message((#[trigger] messages[k])@)
}

/// The error says that the context window is exceeded, under whatever status.
pub open spec fn context_window_exceeded(error: AIApiError) -> bool {
    match error {
        AIApiError::ErrorStatus(_, message) => overflow_message(message@),
        AIApiError::ProviderProtocol(message) => overflow_message(message@),
        AIApiError::Other(chain) => overflow_chain(chain.messages@),
        AIApiError::Stream { source, .. } => overflow_chain(source.messages@),
        _ => false,
    }
}

/// Not the client's fault, or only a matter of time.
pub open spec fn retryable_status(status: u16) -> bool {
    !(400 <= status < 500) || status == REQUEST_TIMEOUT || status == TOO_MANY_REQUESTS
}

/// The same request may be sent once more.
pub open spec fn retryable(error: AIApiError) -> bool {
    !context_window_exceeded(error) && match error {
        AIApiError::ErrorStatus(status, _) => retryable_status(status),
        AIApiError::Transport(e) => e.status is Some ==> retryable_status(e.status->0),
        AIApiError::ProviderProtocol(_) => false,
        AIApiError::Other(chain) => !chain.blocked_readiness,
        _ => true,
    }
}

/// The error is worth a report.
pub open spec fn actionable(error: AIApiError) -> bool {
    !context_window_exceeded(error) && match error {
        AIApiError::Deserialization(_) => true,
        AIApiError::Transport(e) => e.actionable,
        AIApiError::Other(chain) => chain.actionable,
        AIApiError::Stream { source, .. } => source.actionable,
        AIApiError::ErrorStatus(_, _) => retryable(error),
        _ => false,
    }
}

/// A failure of an event stream.
#[derive(Debug)]
pub enum StreamFailure {
    /// The response came with this status and these headers. Its body has not been read.
    Status(u16, http::HeaderMap<http::HeaderValue>),
    Transport(TransportError),
    Other(ErrorChain),
}

/// What is to be done about a failure of an event stream.
#[derive(Debug, Clone, PartialEq, Eq)]
pub enum StreamStep {
    /// This is the error.
    Failed(AIApiError),
    /// The body of the response has to be read for the error.
    ReadBody(u16),
}

/// What a response that failed means.
pub open spec fn response_error(
    err: TransportError,
    headers: Map<Seq<char>, Seq<u8>>,
) -> AIApiError {
    if err.status == Some(TOO_MANY_REQUESTS) {
        too_many_requests(headers)
    } else {
        transport_error(err)
    }
}

/// What an event stream that failed means.
pub open spec fn stream_step(stream_type: String, err: StreamFailure) -> StreamStep {
    match err {
        StreamFailure::Status(status, headers) => if status == TOO_MANY_REQUESTS {
            StreamStep::Failed(too_many_requests(first_values(headers)))
        } else {
            StreamStep::ReadBody(status)
        },
        StreamFailure::Transport(e) => StreamStep::Failed(transport_error(e)),
        StreamFailure::Other(source) => StreamStep::Failed(
            AIApiError::Stream { stream_type, source },
        ),
    }
}

/// The text of a response whose body was read, or could not be read.
pub open spec fn body_text(body: Result<String, String>) -> Seq<char> {
    match body {
        Ok(text) => text@,
        Err(reason) => "(no response body: "@ + reason@ + ")"@,
    }
}

fn is_identifier_char(c: char) -> (r: bool)
    ensures
        r == identifier_char(c),
{
    ('a' <= c && c <= 'z') || ('0' <= c && c <= '9') || c == '_'
}

fn holds_identifier(s: &Vec<char>, code: &str) -> (r: bool)
    ensures
        r == has_identifier(s@, code@),
{
    let word: Vec<char> = chars_of(code);
    let mut at: usize = 0;
    while at <= s.len()
        invariant
            at <= s.len() + 1,
            word@ == code@,
            forall|k: int| 0 <= k < at ==> !#[trigger] identifier_at(s@, code@, k),
        decreases s.len() + 1 - at,
    {
        if stands_at(s, &word, at) {
            let starts: bool = at == 0 || !is_identifier_char(s[at - 1]);
            let ends: bool = at + word.len() == s.len() || !is_identifier_char(
                s[at + word.len()],
            );
            if starts && ends {
                assert(identifier_at(s@, code@, at as int));
                return true;
            }
        }
        assert(!identifier_at(s@, code@, at as int));
        if at == s.len() {
            return false;
        }
        at += 1;
    }
    false
}

fn holds_phrase(s: &Vec<char>, phrase: &str) -> (r: bool)
    ensures
        r == text::occurs(s@, phrase@),
{
    let words: Vec<char> = chars_of(phrase);
    stands_in(s, &words)
}

/// Whether a message says that the input does not fit into the context window.
pub fn is_context_window_exceeded_message(message: &str) -> (r: bool)
    ensures
        r == overflow_message(message@),
{
    let s: Vec<char> = lower_chars_of(message);
    holds_identifier(&s, "context_window_exceeded") || holds_identifier(
        &s,
        "context_length_exceeded",
    ) || holds_phrase(&s, "input exceeds the context window") || holds_phrase(
        &s,
        "input exceeded the context window",
    ) || holds_phrase(&s, "input exceeds context window") || holds_phrase(
        &s,
        "input exceeded context window",
    )
}

fn some_message_overflows(messages: &Vec<String>) -> (r: bool)
    ensures
        r == overflow_chain(messages@),
{
    let mut i: usize = 0;
    while i < messages.len()
        invariant
            i <= messages.len(),
            forall|k: int| 0 <= k < i ==> !overflow_message((#[trigger] messages@[k])@),
        decreases messages.len() - i,
    {
        if is_context_window_exceeded_message(messages[i].as_str()) {
            return true;
        }
        i += 1;
    }
    false
}

fn is_retryable_status(status: u16) -> (r: bool)
    ensures
        r == retryable_status(status),
{
    !(400 <= status && status < 500) || status == REQUEST_TIMEOUT || status == TOO_MANY_REQUESTS
}

fn is_out_of_credits(value: &Vec<u8>) -> (r: bool)
    ensures
        r == (value@ == vstd::utf8::encode_utf8(WARP_ERROR_CODE_OUT_OF_CREDITS@)),
{
    let code: &[u8] = WARP_ERROR_CODE_OUT_OF_CREDITS.as_bytes();
    if value.len() != code.len() {
        return false;
    }
    let mut i: usize = 0;
    while i < code.len()
        invariant
            i <= code.len(),
            value.len() == code.len(),
            code@ == vstd::utf8::encode_utf8(WARP_ERROR_CODE_OUT_OF_CREDITS@),
            forall|k: int| 0 <= k < i ==> #[trigger] value@[k] == code@[k],
        decreases code.len() - i,
    {
        if value[i] != code[i] {
            assert(value@[i as int] != code@[i as int]);
            return false;
        }
        i += 1;
    }
    assert(value@ =~= code@);
    true
}

impl AIApiError {
    /// The text under which the error is shown.
    pub open spec fn shown(self) -> Seq<char> {
        match self {
            AIApiError::QuotaLimit => "Request failed due to lack of AI quota."@,
            AIApiError::ServerOverloaded => {
                "InfiniShell is currently overloaded. Please try again later."@
            },
            AIApiError::Transport(_) => "Internal error occurred at transport layer."@,
            AIApiError::Deserialization(_) => "Failed to deserialize API response."@,
            AIApiError::NoContextFound => "No context found on context search."@,
            AIApiError::ErrorStatus(code, body) => {
                "Failed with status code "@ + shown_status(code) + ": "@ + body@
            },
            AIApiError::ProviderProtocol(text) => "Provider response protocol error: "@ + text@,
            AIApiError::Other(chain) => chain.first_message(),
            AIApiError::Stream { stream_type, source } => {
                "Got error when streaming "@ + stream_type@ + ": "@ + joined(source.messages@)
            },
        }
    }

    /// The text under which the error is shown.
    pub fn message(&self) -> (r: String)
        ensures
            r@ == self.shown(),
    {
        match self {
            AIApiError::QuotaLimit => "Request failed due to lack of AI quota.".to_owned(),
            AIApiError::ServerOverloaded => {
                "InfiniShell is currently overloaded. Please try again later.".to_owned()
            },
            AIApiError::Transport(_) => "Internal error occurred at transport layer.".to_owned(),
            AIApiError::Deserialization(_) => "Failed to deserialize API response.".to_owned(),
            AIApiError::NoContextFound => "No context found on context search.".to_owned(),
            AIApiError::ErrorStatus(code, body) => {
                let status: String = match status_text(*code) {
                    Some(text) => text,
                    None => decimal_text(*code as usize),
                };
                let mut text: String = "Failed with status code ".to_owned();
                text.append(status.as_str());
                text.append(": ");
                text.append(body.as_str());
                text
            },
            AIApiError::ProviderProtocol(reason) => {
                let mut text: String = "Provider response protocol error: ".to_owned();
                text.append(reason.as_str());
                text
            },
            AIApiError::Other(chain) => if chain.messages.len() == 0 {
                let none: String = String::new();
                assert(none@ =~= Seq::<char>::empty());
                none
            } else {
                chain.messages[0].clone()
            },
            AIApiError::Stream { stream_type, source } => {
                let all: String = source.all_messages();
                let mut text: String = "Got error when streaming ".to_owned();
                text.append(stream_type.as_str());
                text.append(": ");
                text.append(all.as_str());
                text
            },
        }
    }

    /// Whether the error says that the context window is exceeded. A gateway may wrap that
    /// into a server error or a broken stream, so the status alone does not tell.
    pub fn is_context_window_exceeded(&self) -> (r: bool)
        ensures
            r == context_window_exceeded(*self),
    {
        match self {
            AIApiError::ErrorStatus(_, message) => is_context_window_exceeded_message(
                message.as_str(),
            ),
            AIApiError::ProviderProtocol(message) => is_context_window_exceeded_message(
                message.as_str(),
            ),
            AIApiError::Other(chain) => some_message_overflows(&chain.messages),
            AIApiError::Stream { source, .. } => some_message_overflows(&source.messages),
            AIApiError::QuotaLimit
            | AIApiError::ServerOverloaded
            | AIApiError::Transport(_)
            | AIApiError::Deserialization(_)
            | AIApiError::NoContextFound => false,
        }
    }

    /// The error of a response that failed.
    pub fn from_response_error(
        err: TransportError,
        headers: &http::HeaderMap<http::HeaderValue>,
    ) -> (r: Self)
        ensures
            r == response_error(err, first_values(*headers)),
            r == (if err.status == Some(TOO_MANY_REQUESTS) {
                too_many_requests(first_values(*headers))
            } else {
                transport_error(err)
            }),
    {
        let too_many: bool = match err.status {
            Some(status) => status == TOO_MANY_REQUESTS,
            None => false,
        };
        if too_many {
            return Self::error_for_429(headers);
        }
        Self::from_transport_error(err)
    }

    /// The error of a request that failed.
    pub fn from_transport_error(err: TransportError) -> (r: Self)
        ensures
            r == transport_error(err),
    {
        if err.timeout {
            return AIApiError::Transport(err);
        }
        if err.decode {
            let mut i: usize = 0;
            while i < err.sources.len()
                invariant
                    i <= err.sources.len(),
                    !err.timeout,
                    err.decode,
                    forall|k: int|
                        0 <= k < i ==> #[trigger] err.sources@[k] != ErrorSource::Connection,
                decreases err.sources.len() - i,
            {
                if err.sources[i] == ErrorSource::Connection {
                    assert(err.sources@.contains(ErrorSource::Connection));
                    return AIApiError::Transport(err);
                }
                i += 1;
            }
            return AIApiError::Deserialization(DeserializationError::Transport(err));
        }
        AIApiError::Transport(err)
    }

    /// The error of a response with too many requests.
    pub fn error_for_429(headers: &http::HeaderMap<http::HeaderValue>) -> (r: Self)
        ensures
            r == too_many_requests(first_values(*headers)),
    {
        let code: Option<Vec<u8>> = match first_value(headers, INFINISHELL_ERROR_CODE_HEADER) {
            Some(value) => Some(value),
            None => first_value(headers, LEGACY_ZAP_ERROR_CODE_HEADER),
        };
        let out_of_credits: bool = match &code {
            Some(value) => is_out_of_credits(value),
            None => false,
        };
        if out_of_credits {
            AIApiError::QuotaLimit
        } else {
            AIApiError::ServerOverloaded
        }
    }

    /// The error of an event stream that failed, or the order to read the body first.
    pub fn from_stream_error(stream_type: String, err: StreamFailure) -> (r: StreamStep)
        ensures
            r == stream_step(stream_type, err),
            r == (match err {
                StreamFailure::Status(status, headers) => if status == TOO_MANY_REQUESTS {
                    StreamStep::Failed(too_many_requests(first_values(headers)))
                } else {
                    StreamStep::ReadBody(status)
                },
                StreamFailure::Transport(e) => StreamStep::Failed(transport_error(e)),
                StreamFailure::Other(source) => StreamStep::Failed(
                    AIApiError::Stream { stream_type, source },
                ),
            }),
    {
        match err {
            StreamFailure::Status(status, headers) => if status == TOO_MANY_REQUESTS {
                StreamStep::Failed(Self::error_for_429(&headers))
            } else {
                StreamStep::ReadBody(status)
            },
            StreamFailure::Transport(e) => StreamStep::Failed(Self::from_transport_error(e)),
            StreamFailure::Other(source) => StreamStep::Failed(
                AIApiError::Stream { stream_type, source },
            ),
        }
    }

    /// The error of a response whose body was read, or could not be read.
    pub fn from_stream_body(status: u16, body: Result<String, String>) -> (r: Self)
        ensures
            r is ErrorStatus,
            r->ErrorStatus_0 == status,
            r->ErrorStatus_1@ == body_text(body),
            r->ErrorStatus_1@ == (match body {
                Ok(text) => text@,
                Err(reason) => "(no response body: "@ + reason@ + ")"@,
            }),
    {
        match body {
            Ok(text) => AIApiError::ErrorStatus(status, text),
            Err(reason) => {
                let mut text: String = "(no response body: ".to_owned();
                text.append(reason.as_str());
                text.append(")");
                AIApiError::ErrorStatus(status, text)
            },
        }
    }

    /// Whether the same request may be sent once more.
    pub fn is_retryable(&self) -> (r: bool)
        ensures
            r == retryable(*self),
    {
        if self.is_context_window_exceeded() {
            return false;
        }
        match self {
            AIApiError::ErrorStatus(status, _) => is_retryable_status(*status),
            AIApiError::Transport(e) => match e.status {
                Some(status) => is_retryable_status(status),
                None => true,
            },
            AIApiError::QuotaLimit
            | AIApiError::ServerOverloaded
            | AIApiError::Deserialization(_)
            | AIApiError::NoContextFound
            | AIApiError::Stream { .. } => true,
            AIApiError::ProviderProtocol(_) => false,
            AIApiError::Other(chain) => !chain.blocked_readiness,
        }
    }

    /// Whether the error is worth a report.
    pub fn is_actionable(&self) -> (r: bool)
        ensures
            r == actionable(*self),
    {
        if self.is_context_window_exceeded() {
            return false;
        }
        match self {
            AIApiError::Deserialization(_) => true,
            AIApiError::Transport(e) => e.actionable,
            AIApiError::Other(chain) => chain.actionable,
            AIApiError::Stream { source, .. } => source.actionable,
            AIApiError::ErrorStatus(_, _) => self.is_retryable(),
            AIApiError::QuotaLimit
            | AIApiError::ServerOverloaded
            | AIApiError::NoContextFound
            | AIApiError::ProviderProtocol(_) => false,
        }
    }
}

/// An exceeded context window is neither tried again nor reported, under whatever status
/// and in whatever wrapping it comes.
pub proof fn law_context_overflow_stops(error: AIApiError)
    requires
        context_window_exceeded(error),
    ensures
        !retryable(error),
        !actionable(error),
{
}

/// The case of a message does not matter.
pub proof fn law_classification_ignores_case(a: Seq<char>, b: Seq<char>)
    requires
        text::lower(a) == text::lower(b),
    ensures
        overflow_message(a) == overflow_message(b),
{
}

/// Without an exceeded context window, a server error stays worth another try.
pub proof fn law_other_server_errors_are_retried(status: u16, message: String)
    requires
        500 <= status,
        !overflow_message(message@),
    ensures
        retryable(AIApiError::ErrorStatus(status, message)),
{
}

/// A request that cannot be fitted is reported as an exceeded context window.
pub proof fn law_budget_error_is_context_overflow()
    ensures
        overflow_message(request_budget::BUDGET_EXCEEDED@),
{
    reveal_strlit(
        "context_window_exceeded: the local request budget cannot fit the conversation; compact it or reduce attached content",
    );
    reveal_strlit("context_window_exceeded");
    let s = text::lower(request_budget::BUDGET_EXCEEDED@);
    let code = "context_window_exceeded"@;
    assert(s.subrange(0, code.len() as int) =~= code);
    assert(identifier_at(s, code, 0));
}

/// Which errors are tried again. An exceeded context window never is; a status from 400 to 499
/// only where it is 408 or 429; a broken protocol never; a provider that is not ready never;
/// and everything else always, a broken stream included.
pub proof fn law_which_errors_are_tried_again(error: AIApiError)
    ensures
        match error {
            AIApiError::QuotaLimit => retryable(error),
            AIApiError::ServerOverloaded => retryable(error),
            AIApiError::Deserialization(_) => retryable(error),
            AIApiError::NoContextFound => retryable(error),
            AIApiError::ProviderProtocol(_) => !retryable(error),
            AIApiError::Transport(e) => match e.status {
                None => retryable(error),
                Some(status) => retryable(error) <==> (status < 400 || status > 499 || status == 408
                    || status == 429),
            },
            AIApiError::ErrorStatus(status, message) => retryable(error) <==> (status < 400
                || status > 499 || status == 408 || status == 429) && !overflow_message(message@),
            AIApiError::Other(chain) => retryable(error) <==> !chain.blocked_readiness && forall|
                k: int,
            |
                0 <= k < chain.messages@.len() ==> !overflow_message(
                    (#[trigger] chain.messages@[k])@,
                ),
            AIApiError::Stream { stream_type: _, source } => retryable(error) <==> forall|k: int|
                0 <= k < source.messages@.len() ==> !overflow_message(
                    (#[trigger] source.messages@[k])@,
                ),
        },
{
}

/// Which errors are reported. An exceeded context window never is; a response that could not be
/// read always; a status exactly where it is tried again; errors of the client and others where
/// they say so themselves; and nothing else.
pub proof fn law_which_errors_are_reported(error: AIApiError)
    ensures
        match error {
            AIApiError::QuotaLimit => !actionable(error),
            AIApiError::ServerOverloaded => !actionable(error),
            AIApiError::NoContextFound => !actionable(error),
            AIApiError::ProviderProtocol(_) => !actionable(error),
            AIApiError::Deserialization(_) => actionable(error),
            AIApiError::Transport(e) => actionable(error) == e.actionable,
            AIApiError::ErrorStatus(_, _) => actionable(error) == retryable(error),
            AIApiError::Other(chain) => actionable(error) <==> chain.actionable && forall|k: int|
                0 <= k < chain.messages@.len() ==> !overflow_message(
                    (#[trigger] chain.messages@[k])@,
                ),
            AIApiError::Stream { stream_type: _, source } => actionable(error) <==> source.actionable
                && forall|k: int|
                0 <= k < source.messages@.len() ==> !overflow_message(
                    (#[trigger] source.messages@[k])@,
                ),
        },
{
}

/// Which errors say that the context window is exceeded: those with a text that says so,
/// wherever it stands in the chain, and no error without a text of the provider.
pub proof fn law_which_errors_are_overflows(error: AIApiError)
    ensures
        match error {
            AIApiError::ErrorStatus(_, message) => context_window_exceeded(error)
                == overflow_message(message@),
            AIApiError::ProviderProtocol(message) => context_window_exceeded(error)
                == overflow_message(message@),
            AIApiError::Other(chain) => context_window_exceeded(error) <==> exists|k: int|
                0 <= k < chain.messages@.len() && overflow_message((#[trigger] chain.messages@[k])@),
            AIApiError::Stream { stream_type: _, source } => context_window_exceeded(error)
                <==> exists|k: int|
                0 <= k < source.messages@.len() && overflow_message(
                    (#[trigger] source.messages@[k])@,
                ),
            _ => !context_window_exceeded(error),
        },
{
}

/// A letter of either case, a digit or an underscore.
spec fn word_char(c: char) -> bool {
    'a' <= c <= 'z' || 'A' <= c <= 'Z' || '0' <= c <= '9' || c == '_'
}

proof fn lemma_word_char(c: char)
    ensures
        identifier_char(text::lower_char(c)) == word_char(c),
{
}

/// An error code is found wherever it stands by itself: no letter, digit or underscore in front
/// of it or behind it.
pub proof fn law_error_codes_are_found_anywhere(before: Seq<char>, after: Seq<char>)
    requires
        before.len() > 0 ==> {
            let c = before.last();
            !('a' <= c <= 'z') && !('A' <= c <= 'Z') && !('0' <= c <= '9') && c != '_'
        },
        after.len() > 0 ==> {
            let c = after[0];
            !('a' <= c <= 'z') && !('A' <= c <= 'Z') && !('0' <= c <= '9') && c != '_'
        },
    ensures
        overflow_message(before + "context_window_exceeded"@ + after),
        overflow_message(before + "context_length_exceeded"@ + after),
{
    reveal_strlit("context_window_exceeded");
    reveal_strlit("context_length_exceeded");
    lemma_code_stands(before, "context_window_exceeded"@, after);
    lemma_code_stands(before, "context_length_exceeded"@, after);
}

proof fn lemma_code_stands(before: Seq<char>, code: Seq<char>, after: Seq<char>)
    requires
        forall|i: int| 0 <= i < code.len() ==> !('A' <= #[trigger] code[i] <= 'Z'),
        before.len() > 0 ==> !word_char(before.last()),
        after.len() > 0 ==> !word_char(after[0]),
    ensures
        has_identifier(text::lower(before + code + after), code),
{
    let m = before + code + after;
    let s = text::lower(m);
    let at = before.len() as int;
    assert(s.subrange(at, at + code.len()) =~= code);
    if at > 0 {
        assert(m[at - 1] == before.last());
        lemma_word_char(before.last());
    }
    if after.len() > 0 {
        assert(m[at + code.len()] == after[0]);
        lemma_word_char(after[0]);
    }
    assert(identifier_at(s, code, at));
}

/// The words by which providers say it are found anywhere in a message.
pub proof fn law_overflow_in_words_is_found_anywhere(before: Seq<char>, after: Seq<char>)
    ensures
        overflow_message(before + "input exceeds the context window"@ + after),
        overflow_message(before + "input exceeded the context window"@ + after),
        overflow_message(before + "input exceeds context window"@ + after),
        overflow_message(before + "input exceeded context window"@ + after),
{
    reveal_strlit("input exceeds the context window");
    reveal_strlit("input exceeded the context window");
    reveal_strlit("input exceeds context window");
    reveal_strlit("input exceeded context window");
    lemma_phrase_stands(before, "input exceeds the context window"@, after);
    lemma_phrase_stands(before, "input exceeded the context window"@, after);
    lemma_phrase_stands(before, "input exceeds context window"@, after);
    lemma_phrase_stands(before, "input exceeded context window"@, after);
}

proof fn lemma_phrase_stands(before: Seq<char>, phrase: Seq<char>, after: Seq<char>)
    requires
        forall|i: int| 0 <= i < phrase.len() ==> !('A' <= #[trigger] phrase[i] <= 'Z'),
    ensures
        text::occurs(text::lower(before + phrase + after), phrase),
{
    let s = text::lower(before + phrase + after);
    let at = before.len() as int;
    assert(s.subrange(at, at + phrase.len()) =~= phrase);
    assert(text::occurs_at(s, phrase, at));
}

/// No other message is taken for an exceeded context window: none without one of the codes or
/// phrases, in whatever case, and none in which the codes are only parts of longer words.
pub proof fn law_nothing_else_is_an_overflow(message: Seq<char>)
    requires
        overflow_message(message),
    ensures
        ({
            let s = text::lower(message);
            exists|at: int, n: int|
                0 <= at && at + n <= s.len() && {
                    let found = #[trigger] s.subrange(at, at + n);
                    ||| found == "input exceeds the context window"@
                    ||| found == "input exceeded the context window"@
                    ||| found == "input exceeds context window"@
                    ||| found == "input exceeded context window"@
                    ||| {
                        &&& found == "context_window_exceeded"@ || found
                            == "context_length_exceeded"@
                        &&& at > 0 ==> !('a' <= s[at - 1] <= 'z') && !('0' <= s[at - 1] <= '9')
                            && s[at - 1] != '_'
                        &&& at + n < s.len() ==> !('a' <= s[at + n] <= 'z') && !('0' <= s[at + n]
                            <= '9') && s[at + n] != '_'
                    }
                }
        }),
{
    let s = text::lower(message);
    if has_identifier(s, "context_window_exceeded"@) {
        lemma_found_code(s, "context_window_exceeded"@);
    } else if has_identifier(s, "context_length_exceeded"@) {
        lemma_found_code(s, "context_length_exceeded"@);
    } else if text::occurs(s, "input exceeds the context window"@) {
        lemma_found_phrase(s, "input exceeds the context window"@);
    } else if text::occurs(s, "input exceeded the context window"@) {
        lemma_found_phrase(s, "input exceeded the context window"@);
    } else if text::occurs(s, "input exceeds context window"@) {
        lemma_found_phrase(s, "input exceeds context window"@);
    } else {
        lemma_found_phrase(s, "input exceeded context window"@);
    }
}

proof fn lemma_found_code(s: Seq<char>, code: Seq<char>)
    requires
        has_identifier(s, code),
    ensures
        exists|at: int, n: int|
            0 <= at && at + n <= s.len() && #[trigger] s.subrange(at, at + n) == code && (at > 0
                ==> !identifier_char(s[at - 1])) && (at + n < s.len() ==> !identifier_char(
                s[at + n],
            )),
{
    let at = choose|at: int| identifier_at(s, code, at);
    let n = code.len() as int;
    assert(s.subrange(at, at + n) == code);
}

proof fn lemma_found_phrase(s: Seq<char>, phrase: Seq<char>)
    requires
        text::occurs(s, phrase),
    ensures
        exists|at: int, n: int|
            0 <= at && at + n <= s.len() && #[trigger] s.subrange(at, at + n) == phrase,
{
    let at = choose|at: int| text::occurs_at(s, phrase, at);
    let n = phrase.len() as int;
    assert(s.subrange(at, at + n) == phrase);
}

/// Too many requests mean that the quota is used up exactly where the current error header says
/// `OUT_OF_CREDITS`, or where it is missing and the older one says so; else the server is
/// overloaded.
pub proof fn law_what_too_many_requests_mean(headers: Map<Seq<char>, Seq<u8>>)
    ensures
        ({
            let current = "x-infinishell-error-code"@;
            let older = "x-zap-error-code"@;
            let code = vstd::utf8::encode_utf8("OUT_OF_CREDITS"@);
            &&& too_many_requests(headers) is QuotaLimit || too_many_requests(
                headers,
            ) is ServerOverloaded
            &&& headers.dom().contains(current) ==> (too_many_requests(headers) is QuotaLimit
                <==> headers[current] == code)
            &&& !headers.dom().contains(current) && headers.dom().contains(older) ==> (
            too_many_requests(headers) is QuotaLimit <==> headers[older] == code)
            &&& !headers.dom().contains(current) && !headers.dom().contains(older)
                ==> too_many_requests(headers) is ServerOverloaded
        }),
{
    reveal_strlit("X-InfiniShell-Error-Code");
    reveal_strlit("x-infinishell-error-code");
    reveal_strlit("X-Zap-Error-Code");
    reveal_strlit("x-zap-error-code");
    assert(text::lower(INFINISHELL_ERROR_CODE_HEADER@) =~= "x-infinishell-error-code"@);
    assert(text::lower(LEGACY_ZAP_ERROR_CODE_HEADER@) =~= "x-zap-error-code"@);
}

/// An error of the client keeps the error that came, and counts as a response that could not be
/// read exactly where decoding failed, neither by a timeout nor because the connection did.
pub proof fn law_what_client_errors_mean(err: TransportError)
    ensures
        ({
            let connection = exists|k: int|
                0 <= k < err.sources@.len() && #[trigger] err.sources@[k]
                    == ErrorSource::Connection;
            if err.decode && !err.timeout && !connection {
                transport_error(err) == AIApiError::Deserialization(
                    DeserializationError::Transport(err),
                )
            } else {
                transport_error(err) == AIApiError::Transport(err)
            }
        }),
{
    if err.sources@.contains(ErrorSource::Connection) {
        let k = choose|k: int|
            0 <= k < err.sources@.len() && err.sources@[k] == ErrorSource::Connection;
        assert(err.sources@[k] == ErrorSource::Connection);
    }
}

/// A response with status 429 is judged by its headers, any other by the error of the client.
pub proof fn law_status_429_is_judged_by_its_headers(
    err: TransportError,
    headers: Map<Seq<char>, Seq<u8>>,
)
    ensures
        err.status == Some(429u16) ==> response_error(err, headers) == too_many_requests(headers),
        err.status != Some(429u16) ==> response_error(err, headers) == transport_error(err),
{
}

/// A stream that ends with a status is judged by its headers where the status is 429, and by
/// its body for every other status; an error of the client stays one; and any other failure is
/// a broken stream, with its kind and all that stood behind it.
pub proof fn law_what_broken_streams_mean(stream_type: String, err: StreamFailure)
    ensures
        match err {
            StreamFailure::Status(status, headers) => {
                &&& status == 429 ==> stream_step(stream_type, err) == StreamStep::Failed(
                    too_many_requests(first_values(headers)),
                )
                &&& status != 429 ==> stream_step(stream_type, err) == StreamStep::ReadBody(status)
            },
            StreamFailure::Transport(e) => stream_step(stream_type, err) == StreamStep::Failed(
                transport_error(e),
            ),
            StreamFailure::Other(chain) => stream_step(stream_type, err) == StreamStep::Failed(
                AIApiError::Stream { stream_type, source: chain },
            ),
        },
{
}

/// The body of a response is shown as it is, so that what it says about the context window is
/// not lost.
pub proof fn law_body_of_a_response_is_kept(status: u16, text: String, reason: String)
    ensures
        body_text(Ok(text)) == text@,
        body_text(Err(reason)) == "(no response body: "@ + reason@ + ")"@,
        context_window_exceeded(AIApiError::ErrorStatus(status, text)) == overflow_message(
            body_text(Ok(text)),
        ),
{
}

/// The texts of a chain follow one another, from the error to what stands behind it, with a
/// colon between two of them.
pub proof fn law_chains_are_shown_in_order(messages: Seq<String>, message: String)
    ensures
        joined(Seq::empty()).len() == 0,
        joined(seq![message]) == message@,
        messages.len() > 0 ==> joined(messages.push(message)) == joined(messages) + ": "@
            + message@,
{
    assert(messages.push(message).drop_last() =~= messages);
}

/// What is shown of an error: of a refused request its status and the whole body, of a broken
/// protocol the reason, of a broken stream its kind and every error behind it, of any other
/// chain its first error, and of the rest one sentence that does not depend on the details.
pub proof fn law_what_is_shown_of_an_error(error: AIApiError)
    ensures
        match error {
            AIApiError::QuotaLimit => error.shown() == "Request failed due to lack of AI quota."@,
            AIApiError::ServerOverloaded => error.shown()
                == "InfiniShell is currently overloaded. Please try again later."@,
            AIApiError::Transport(_) => error.shown()
                == "Internal error occurred at transport layer."@,
            AIApiError::Deserialization(_) => error.shown()
                == "Failed to deserialize API response."@,
            AIApiError::NoContextFound => error.shown() == "No context found on context search."@,
            AIApiError::ErrorStatus(code, body) => {
                &&& 100 <= code <= 999 ==> error.shown() == "Failed with status code "@
                    + status_line(code) + ": "@ + body@
                &&& code < 100 || code > 999 ==> error.shown() == "Failed with status code "@
                    + json::decimal(code as nat) + ": "@ + body@
            },
            AIApiError::ProviderProtocol(reason) => error.shown()
                == "Provider response protocol error: "@ + reason@,
            AIApiError::Other(chain) => {
                &&& chain.messages@.len() == 0 ==> error.shown().len() == 0
                &&& chain.messages@.len() > 0 ==> error.shown() == chain.messages@.first()@
            },
            AIApiError::Stream { stream_type, source } => error.shown()
                == "Got error when streaming "@ + stream_type@ + ": "@ + joined(source.messages@),
        },
{
}

} // verus!
