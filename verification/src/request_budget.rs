//! Fits the tool results of an outbound request into byte limits.
//!
//! Only the copy that is sent is shortened; history, calls and their pairing stay whole.
//! Text is taken at two serialized bytes per token. That estimate only asks for earlier
//! summaries: text and attachments never make a request fail here, the provider judges
//! them. Tool results have hard limits even where the model is unknown.

use vstd::prelude::*;
use crate::bounded_result;
use crate::bounded_result::bounded_result;
use crate::json;
use crate::json::json_len;
use crate::text;
use crate::text::byte_len;

verus! {

/// The most bytes one tool result may take as a JSON string.
pub const MAX_RESULT_BYTES: usize = 32 * 1024;

/// The most bytes all tool results together may take as JSON strings.
pub const MAX_TOTAL_RESULT_BYTES: usize = 128 * 1024;

/// What is held back for each older result while a newer one is fitted.
pub const MIN_RESULT_BYTES: usize = 512;

/// The window that is assumed where the model's is not known.
pub const UNKNOWN_CONTEXT_WINDOW: u32 = 200_000;

/// What an attachment counts for; the length of its base64 says little about tokens.
pub const BINARY_PART_BYTES: usize = 16_384;

/// The text of the error for a request that cannot be fitted.
pub const BUDGET_EXCEEDED: &'static str = "context_window_exceeded: the local request budget cannot fit the conversation; compact it or reduce attached content";

/// The tool results cannot be brought under their limits.
#[derive(Debug, Clone, Copy, PartialEq, Eq)]
pub struct RequestBudgetExceeded;

impl RequestBudgetExceeded {
    /// The text under which the error is shown and classified.
    pub fn message(&self) -> (r: String)
        ensures
            r@ == BUDGET_EXCEEDED@,
    {
        BUDGET_EXCEEDED.to_owned()
    }
}

#[derive(Debug, Clone, PartialEq, Eq)]
pub enum ChatRole {
    System,
    User,
    Assistant,
    Tool,
}

#[derive(Debug, Clone, PartialEq, Eq)]
pub struct ToolCall {
    pub call_id: String,
    pub fn_name: String,
    /// JSON text.
    pub fn_arguments: String,
    pub thought_signatures: Option<Vec<String>>,
}

#[derive(Debug, Clone, PartialEq, Eq)]
pub struct ToolResponse {
    pub call_id: String,
    pub content: String,
    /// JSON text.
    pub caller: Option<String>,
    pub caller_id: Option<String>,
}

#[derive(Debug, Clone, PartialEq, Eq)]
pub struct Binary {
    pub content_type: String,
    pub source: String,
    pub name: Option<String>,
    /// Bytes that this part takes in the serialized request.
    pub serialized_bytes: usize,
}

#[derive(Debug, Clone, PartialEq, Eq)]
pub enum ContentPart {
    Text(String),
    Binary(Binary),
    ToolCall(ToolCall),
    ToolResponse(ToolResponse),
    ThoughtSignature(String),
    ReasoningContent(String),
    Custom(String),
}

#[derive(Debug, Clone, PartialEq, Eq)]
pub struct ChatMessage {
    pub role: ChatRole,
    pub content: Vec<ContentPart>,
}

/// An outbound request.
#[derive(Debug, Clone, PartialEq, Eq)]
pub struct ChatRequest {
    pub system: Option<String>,
    pub messages: Vec<ChatMessage>,
    /// Bytes of the serialized request that belong neither to the content of a tool
    /// response nor to a binary part.
    pub frame_bytes: usize,
}

/// A tool result that was shortened, as it was sent.
#[derive(Debug, Clone, PartialEq, Eq)]
pub struct TruncatedResult {
    pub call_id: String,
    pub content: String,
}

/// The id of the call and the content of one tool response.
pub type ResponseView = (Seq<char>, Seq<char>);

impl View for TruncatedResult {
    type V = ResponseView;

    open spec fn view(&self) -> ResponseView {
        (self.call_id@, self.content@)
    }
}

pub open spec fn truncated_views(list: Seq<TruncatedResult>) -> Seq<ResponseView> {
    list.map_values(|t: TruncatedResult| t@)
}

/// What was done to a request. A chain of server-side state may be continued only where
/// the server was sent the same shortened results, which `truncated_fingerprint` tells.
#[derive(Debug, Clone, PartialEq, Eq)]
pub struct BudgetReport {
    pub truncated_results: usize,
    pub original_result_bytes: usize,
    pub sent_result_bytes: usize,
    /// The shortened results as sent, the most recent one first.
    pub truncated_fingerprint: Option<Vec<TruncatedResult>>,
}

pub open spec fn window_of(context_window: Option<u32>) -> nat {
    match context_window {
        Some(limit) if limit > 0 => limit as nat,
        _ => UNKNOWN_CONTEXT_WINDOW as nat,
    }
}

/// What a reserve of a quarter, of at least 8000 tokens and of at most half leaves.
pub open spec fn token_budget(context_window: Option<u32>) -> nat {
    let window = window_of(context_window);
    let quarter = if window / 4 > 8000 {
        window / 4
    } else {
        8000
    };
    let reserve = if quarter < window / 2 {
        quarter
    } else {
        window / 2
    };
    (window - reserve) as nat
}

pub open spec fn capped(v: nat) -> usize {
    if v <= usize::MAX {
        v as usize
    } else {
        usize::MAX
    }
}

/// The tool responses among some parts, in order.
pub open spec fn part_responses(parts: Seq<ContentPart>) -> Seq<ResponseView>
    decreases parts.len(),
{
    if parts.len() == 0 {
        Seq::empty()
    } else {
        match parts.last() {
            ContentPart::ToolResponse(r) => part_responses(parts.drop_last()).push(
                (r.call_id@, r.content@),
            ),
            _ => part_responses(parts.drop_last()),
        }
    }
}

/// The tool responses of a request, in order.
pub open spec fn responses(messages: Seq<ChatMessage>) -> Seq<ResponseView>
    decreases messages.len(),
{
    if messages.len() == 0 {
        Seq::empty()
    } else {
        responses(messages.drop_last()) + part_responses(messages.last().content@)
    }
}

/// The parts of a request, in order.
pub open spec fn all_parts(messages: Seq<ChatMessage>) -> Seq<ContentPart>
    decreases messages.len(),
{
    if messages.len() == 0 {
        Seq::empty()
    } else {
        all_parts(messages.drop_last()) + messages.last().content@
    }
}

/// Bytes that all tool results take as JSON strings.
pub open spec fn result_bytes(rs: Seq<ResponseView>) -> nat
    decreases rs.len(),
{
    if rs.len() == 0 {
        0
    } else {
        result_bytes(rs.drop_last()) + json::json_size(rs.last().1)
    }
}

/// Bytes of all tool results as plain text.
pub open spec fn plain_bytes(rs: Seq<ResponseView>) -> nat
    decreases rs.len(),
{
    if rs.len() == 0 {
        0
    } else {
        plain_bytes(rs.drop_last()) + text::utf8_len(rs.last().1)
    }
}

pub open spec fn least(content: Seq<char>) -> nat {
    if json::json_size(content) < MIN_RESULT_BYTES {
        json::json_size(content)
    } else {
        MIN_RESULT_BYTES as nat
    }
}

/// What is held back for all of these results.
pub open spec fn minimum(rs: Seq<ResponseView>) -> nat
    decreases rs.len(),
{
    if rs.len() == 0 {
        0
    } else {
        minimum(rs.drop_last()) + least(rs.last().1)
    }
}

/// What the attachments among some parts count for.
pub open spec fn attachment_bytes(parts: Seq<ContentPart>) -> nat
    decreases parts.len(),
{
    if parts.len() == 0 {
        0
    } else {
        attachment_bytes(parts.drop_last()) + (if parts.last() is Binary {
            BINARY_PART_BYTES as nat
        } else {
            0
        })
    }
}

/// Bytes that the binary parts take in the serialized request.
pub open spec fn binary_bytes(parts: Seq<ContentPart>) -> nat
    decreases parts.len(),
{
    if parts.len() == 0 {
        0
    } else {
        binary_bytes(parts.drop_last()) + (match parts.last() {
            ContentPart::Binary(b) => b.serialized_bytes as nat,
            _ => 0,
        })
    }
}

/// How much tool results may take.
pub struct Room {
    /// What the window leaves for them.
    pub wanted: int,
    /// What they must not exceed. The window has no say in it.
    pub limit: int,
}

/// The room for tool results: what the window leaves next to everything else, but never
/// less than what is held back for the results, and never more than the limit.
pub open spec fn room(request: ChatRequest, context_window: Option<u32>) -> Room {
    let budget = capped(2 * token_budget(context_window)) as int;
    let fixed = request.frame_bytes + attachment_bytes(all_parts(request.messages@));
    let floor = minimum(responses(request.messages@)) as int;
    let left = if budget - fixed > floor {
        budget - fixed
    } else {
        floor
    };
    Room {
        wanted: if left < MAX_TOTAL_RESULT_BYTES {
            left
        } else {
            MAX_TOTAL_RESULT_BYTES as int
        },
        limit: MAX_TOTAL_RESULT_BYTES as int,
    }
}

/// What of `remaining` bytes may go to one result and must not go to the `older` ones.
pub open spec fn share(older: Seq<ResponseView>, remaining: int) -> nat {
    offered(remaining, minimum(older) as int)
}

/// What of `remaining` may go to one result when `held` bytes are held back.
pub open spec fn offered(remaining: int, held: int) -> nat {
    let left = remaining - held;
    if left <= 0 {
        0
    } else if left < MAX_RESULT_BYTES {
        left as nat
    } else {
        MAX_RESULT_BYTES as nat
    }
}

/// What a result is sent as when it should take at most `budget` bytes and must not take more
/// than `cap`: shortened to the budget, or in its smallest form where the control fields take
/// more. A result that may go out whole and that shortening does not make smaller stays as it
/// is.
pub open spec fn outgoing(content: Seq<char>, budget: nat, cap: nat) -> Seq<char> {
    let shorter = bounded_result::bounded(content, budget);
    let size = json::json_size(shorter);
    if size <= budget || size < json::json_size(content) || json::json_size(content) > cap {
        shorter
    } else {
        content
    }
}

/// The room that is left for the `older` results once `size` bytes are taken.
pub open spec fn room_after(older: Seq<ResponseView>, remaining: Room, size: nat) -> Room {
    Room {
        wanted: if remaining.wanted - size > minimum(older) {
            remaining.wanted - size
        } else {
            minimum(older) as int
        },
        limit: remaining.limit - size,
    }
}

/// Fits results into some room, the most recent one first, and tells whether all of them
/// could be fitted. Each is meant to take its share of what the window leaves, and must not
/// take more than its share of the limit. One that could not be fitted is left in its
/// shortened form, and the results older than it stay as they are.
pub open spec fn trim(rs: Seq<ResponseView>, remaining: Room) -> (bool, Seq<ResponseView>)
    decreases rs.len(),
{
    if rs.len() == 0 {
        (true, rs)
    } else {
        let older = rs.drop_last();
        let cap = share(older, remaining.limit);
        let sent = outgoing(rs.last().1, share(older, remaining.wanted), cap);
        let size = json::json_size(sent);
        if size > cap {
            (false, older.push((rs.last().0, sent)))
        } else {
            let t = trim(older, room_after(older, remaining, size));
            (t.0, t.1.push((rs.last().0, sent)))
        }
    }
}

/// The results whose content differs, as they are afterwards, the last one first.
pub open spec fn shortened(
    before: Seq<ResponseView>,
    after: Seq<ResponseView>,
) -> Seq<ResponseView>
    decreases before.len(),
{
    if before.len() == 0 || after.len() == 0 {
        Seq::empty()
    } else {
        let rest = shortened(before.drop_last(), after.drop_last());
        if before.last().1 != after.last().1 {
            seq![after.last()] + rest
        } else {
            rest
        }
    }
}

/// The results that a request is sent with in shortened form, the last one first. Two requests
/// with the same fingerprint carry the same shortened results.
pub open spec fn fingerprint(request: ChatRequest, context_window: Option<u32>) -> Seq<
    ResponseView,
> {
    let rs = responses(request.messages@);
    shortened(rs, trim(rs, room(request, context_window)).1)
}

/// The request can be sent: its tool results can be brought under the hard limits.
pub open spec fn passes(request: ChatRequest, context_window: Option<u32>) -> bool {
    let rs = responses(request.messages@);
    minimum(rs) <= MAX_TOTAL_RESULT_BYTES && trim(rs, room(request, context_window)).0
}

/// The tool results as the request carries them afterwards.
pub open spec fn results_sent(request: ChatRequest, context_window: Option<u32>) -> Seq<
    ResponseView,
> {
    let rs = responses(request.messages@);
    if minimum(rs) <= MAX_TOTAL_RESULT_BYTES {
        trim(rs, room(request, context_window)).1
    } else {
        rs
    }
}

/// How many results were shortened, and what all results take as plain text before and after.
pub open spec fn reported(request: ChatRequest, context_window: Option<u32>) -> (nat, nat, nat) {
    (
        fingerprint(request, context_window).len(),
        capped(plain_bytes(responses(request.messages@))) as nat,
        plain_bytes(results_sent(request, context_window)),
    )
}

/// Every result that has changed was read as it was written.
pub open spec fn read_soundly(before: Seq<ResponseView>, after: Seq<ResponseView>) -> bool {
    forall|k: int|
        0 <= k < before.len() && k < after.len() && (#[trigger] before[k]).1 != after[k].1
            ==> bounded_result::well_read(before[k].1)
}

/// The same part, up to the content of a tool response.
pub open spec fn same_part(p: ContentPart, q: ContentPart) -> bool {
    match (p, q) {
        (ContentPart::ToolResponse(a), ContentPart::ToolResponse(b)) => a.call_id == b.call_id
            && a.caller == b.caller && a.caller_id == b.caller_id,
        _ => p == q,
    }
}

/// The same messages with the same parts in the same order, up to the content of tool
/// responses.
pub open spec fn same_frame(a: Seq<ChatMessage>, b: Seq<ChatMessage>) -> bool {
    &&& a.len() == b.len()
    &&& forall|i: int|
        0 <= i < a.len() ==> #[trigger] a[i].role == b[i].role && a[i].content@.len()
            == b[i].content@.len()
    &&& forall|i: int, j: int|
        0 <= i < a.len() && 0 <= j < a[i].content@.len() ==> same_part(
            #[trigger] a[i].content@[j],
            b[i].content@[j],
        )
}

proof fn lemma_part_responses_concat(a: Seq<ContentPart>, b: Seq<ContentPart>)
    ensures
        part_responses(a + b) == part_responses(a) + part_responses(b),
    decreases b.len(),
{
    if b.len() == 0 {
        assert(a + b =~= a);
        assert(part_responses(a) + part_responses(b) =~= part_responses(a));
    } else {
        lemma_part_responses_concat(a, b.drop_last());
        assert((a + b).drop_last() =~= a + b.drop_last());
        assert(part_responses(a + b) =~= part_responses(a) + part_responses(b));
    }
}

proof fn lemma_responses_concat(a: Seq<ChatMessage>, b: Seq<ChatMessage>)
    ensures
        responses(a + b) == responses(a) + responses(b),
    decreases b.len(),
{
    if b.len() == 0 {
        assert(a + b =~= a);
        assert(responses(a) + responses(b) =~= responses(a));
    } else {
        lemma_responses_concat(a, b.drop_last());
        assert((a + b).drop_last() =~= a + b.drop_last());
        assert(responses(a + b) =~= responses(a) + responses(b));
    }
}

proof fn lemma_sums_concat(a: Seq<ResponseView>, b: Seq<ResponseView>)
    ensures
        result_bytes(a + b) == result_bytes(a) + result_bytes(b),
        plain_bytes(a + b) == plain_bytes(a) + plain_bytes(b),
        minimum(a + b) == minimum(a) + minimum(b),
    decreases b.len(),
{
    if b.len() == 0 {
        assert(a + b =~= a);
    } else {
        lemma_sums_concat(a, b.drop_last());
        assert((a + b).drop_last() =~= a + b.drop_last());
    }
}

proof fn lemma_part_sums_concat(a: Seq<ContentPart>, b: Seq<ContentPart>)
    ensures
        attachment_bytes(a + b) == attachment_bytes(a) + attachment_bytes(b),
        binary_bytes(a + b) == binary_bytes(a) + binary_bytes(b),
    decreases b.len(),
{
    if b.len() == 0 {
        assert(a + b =~= a);
    } else {
        lemma_part_sums_concat(a, b.drop_last());
        assert((a + b).drop_last() =~= a + b.drop_last());
    }
}

proof fn lemma_shortened_front(
    x: ResponseView,
    y: ResponseView,
    b: Seq<ResponseView>,
    a: Seq<ResponseView>,
)
    requires
        a.len() == b.len(),
    ensures
        shortened(seq![x] + b, seq![y] + a) == shortened(b, a) + (if x.1 != y.1 {
            seq![y]
        } else {
            Seq::empty()
        }),
    decreases b.len(),
{
    let bx = seq![x] + b;
    let ay = seq![y] + a;
    let end = if x.1 != y.1 {
        seq![y]
    } else {
        Seq::empty()
    };
    if b.len() == 0 {
        reveal_with_fuel(shortened, 2);
        assert(bx.last() == x && ay.last() == y);
        assert(bx.drop_last() =~= Seq::<ResponseView>::empty());
        assert(shortened(bx, ay) =~= shortened(b, a) + end);
    } else {
        lemma_shortened_front(x, y, b.drop_last(), a.drop_last());
        assert(bx.drop_last() =~= seq![x] + b.drop_last());
        assert(ay.drop_last() =~= seq![y] + a.drop_last());
        assert(bx.last() == b.last() && ay.last() == a.last());
        assert(shortened(bx, ay) =~= shortened(b, a) + end);
    }
}

/// The tokens that a request is estimated to take.
pub open spec fn token_estimate(request: ChatRequest) -> int {
    (capped(
        request.frame_bytes as nat + result_bytes(responses(request.messages@)) + attachment_bytes(
            all_parts(request.messages@),
        ),
    ) + 1) / 2
}

/// The bytes of a serialized request.
pub open spec fn whole_bytes(request: ChatRequest) -> usize {
    capped(
        request.frame_bytes as nat + result_bytes(responses(request.messages@)) + binary_bytes(
            all_parts(request.messages@),
        ),
    )
}

/// What is left of `total` bytes without the results and the binary parts.
pub open spec fn frame_of(total: usize, messages: Seq<ChatMessage>) -> int {
    let apart = result_bytes(responses(messages)) + binary_bytes(all_parts(messages));
    if total > apart {
        total - apart
    } else {
        0
    }
}

/// The tokens of input that leave room for the answer and the protocol.
pub fn input_token_budget(context_window: Option<u32>) -> (r: usize)
    ensures
        r == token_budget(context_window),
{
    let window: u32 = match context_window {
        Some(limit) => if limit > 0 {
            limit
        } else {
            UNKNOWN_CONTEXT_WINDOW
        },
        None => UNKNOWN_CONTEXT_WINDOW,
    };
    let quarter: u32 = if window / 4 > 8000 {
        window / 4
    } else {
        8000
    };
    let reserve: u32 = if quarter < window / 2 {
        quarter
    } else {
        window / 2
    };
    (window - reserve) as usize
}

/// What the parts of a request add up to; every sum stops at the largest `usize`.
struct Measure {
    results: usize,
    minimum: usize,
    attachments: usize,
    binaries: usize,
}

spec fn measured(m: Measure, rs: Seq<ResponseView>, parts: Seq<ContentPart>) -> bool {
    &&& m.results == capped(result_bytes(rs))
    &&& m.minimum == capped(minimum(rs))
    &&& m.attachments == capped(attachment_bytes(parts))
    &&& m.binaries == capped(binary_bytes(parts))
}

fn measure(messages: &Vec<ChatMessage>) -> (r: Measure)
    ensures
        measured(r, responses(messages@), all_parts(messages@)),
{
    let mut m: Measure = Measure { results: 0, minimum: 0, attachments: 0, binaries: 0 };
    let mut i: usize = 0;
    assert(messages@.take(0) =~= Seq::<ChatMessage>::empty());
    while i < messages.len()
        invariant
            i <= messages.len(),
            measured(m, responses(messages@.take(i as int)), all_parts(messages@.take(i as int))),
        decreases messages.len() - i,
    {
        let content: &Vec<ContentPart> = &messages[i].content;
        let ghost rs = responses(messages@.take(i as int));
        let ghost ps = all_parts(messages@.take(i as int));
        let mut j: usize = 0;
        proof {
            assert(content@.take(0) =~= Seq::<ContentPart>::empty());
            assert(rs + part_responses(content@.take(0)) =~= rs);
            assert(ps + content@.take(0) =~= ps);
        }
        while j < content.len()
            invariant
                j <= content.len(),
                measured(
                    m,
                    rs + part_responses(content@.take(j as int)),
                    ps + content@.take(j as int),
                ),
            decreases content.len() - j,
        {
            proof {
                let before = content@.take(j as int);
                let after = content@.take(j + 1);
                assert(after.drop_last() =~= before);
                assert(after.last() == content@[j as int]);
                assert((ps + after).drop_last() =~= ps + before);
                if content@[j as int] is ToolResponse {
                    let all = rs + part_responses(after);
                    assert(all.drop_last() =~= rs + part_responses(before));
                }
            }
            match &content[j] {
                ContentPart::ToolResponse(response) => {
                    let size: usize = json_len(response.content.as_str());
                    let floor: usize = if size < MIN_RESULT_BYTES {
                        size
                    } else {
                        MIN_RESULT_BYTES
                    };
                    m.results = m.results.saturating_add(size);
                    m.minimum = m.minimum.saturating_add(floor);
                },
                ContentPart::Binary(binary) => {
                    m.attachments = m.attachments.saturating_add(BINARY_PART_BYTES);
                    m.binaries = m.binaries.saturating_add(binary.serialized_bytes);
                },
                ContentPart::Text(_)
                | ContentPart::ToolCall(_)
                | ContentPart::ThoughtSignature(_)
                | ContentPart::ReasoningContent(_)
                | ContentPart::Custom(_) => {},
            }
            j += 1;
        }
        proof {
            assert(content@.take(j as int) =~= content@);
            assert(messages@.take(i + 1).drop_last() =~= messages@.take(i as int));
        }
        i += 1;
    }
    assert(messages@.take(i as int) =~= messages@);
    m
}

/// Tokens of a request by the same measure as its budget. It decides on summaries and is
/// never reported as usage.
pub fn estimated_input_tokens(request: &ChatRequest) -> (r: usize)
    ensures
        r == (capped(
            request.frame_bytes as nat + result_bytes(responses(request.messages@)) + attachment_bytes(
                all_parts(request.messages@),
            ),
        ) + 1) / 2,
        r == token_estimate(*request),
{
    let m: Measure = measure(&request.messages);
    let bytes: usize = request.frame_bytes.saturating_add(m.results).saturating_add(m.attachments);
    bytes / 2 + bytes % 2
}

/// Bytes of the whole request once it is serialized.
pub fn serialized_size(request: &ChatRequest) -> (r: usize)
    ensures
        r == capped(
            request.frame_bytes as nat + result_bytes(responses(request.messages@)) + binary_bytes(
                all_parts(request.messages@),
            ),
        ),
        r == whole_bytes(*request),
{
    let m: Measure = measure(&request.messages);
    request.frame_bytes.saturating_add(m.results).saturating_add(m.binaries)
}

/// Puts `content` into the tool response at `(i, j)`.
fn replace_content(messages: &mut Vec<ChatMessage>, i: usize, j: usize, content: String)
    requires
        i < old(messages)@.len(),
        j < old(messages)@[i as int].content@.len(),
        old(messages)@[i as int].content@[j as int] is ToolResponse,
    ensures
        final(messages)@.len() == old(messages)@.len(),
        forall|k: int|
            0 <= k < old(messages)@.len() && k != i ==> final(messages)@[k] == old(messages)@[k],
        final(messages)@[i as int].role == old(messages)@[i as int].role,
        final(messages)@[i as int].content@ == old(messages)@[i as int].content@.update(
            j as int,
            ContentPart::ToolResponse(
                (ToolResponse {
                    content,
                    ..old(messages)@[i as int].content@[j as int]->ToolResponse_0
                }),
            ),
        ),
{
    match &mut messages[i].content[j] {
        ContentPart::ToolResponse(response) => {
            response.content = content;
        },
        _ => {},
    }
}

/// The bytes of a serialized request of `total` bytes that belong neither to the content of a
/// tool response nor to a binary part.
pub fn frame_bytes(total: usize, messages: &Vec<ChatMessage>) -> (r: usize)
    ensures
        ({
            let apart = result_bytes(responses(messages@)) + binary_bytes(all_parts(messages@));
            r == (if total > apart {
                total - apart
            } else {
                0
            })
        }),
        r == frame_of(total, messages@),
{
    let m: Measure = measure(messages);
    total.saturating_sub(m.results).saturating_sub(m.binaries)
}

/// What a result is sent as in place of its content, where it should take at most `budget`
/// bytes and must not take more than `cap`.
fn shorter_form(content: &str, budget: usize, cap: usize) -> (r: Option<String>)
    ensures
        match r {
            Some(text) => {
                &&& text@ == outgoing(content@, budget as nat, cap as nat)
                &&& json::json_size(text@) <= cap ==> text@ != content@
                &&& json::json_text(text@)
                &&& bounded_result::well_read(content@)
            },
            None => outgoing(content@, budget as nat, cap as nat) == content@,
        },
{
    let size: usize = json_len(content);
    if size <= budget {
        return None;
    }
    let shorter: String = bounded_result(content, budget);
    let shorter_size: usize = json_len(shorter.as_str());
    if shorter_size <= budget || shorter_size < size || size > cap {
        Some(shorter)
    } else {
        None
    }
}

/// Brings every tool result of `request` under its limits, or stops.
///
/// The most recent results keep the most. A result that fits stays byte for byte; no part is
/// removed, added or moved, and nothing but the content of tool responses changes. It fails
/// only where the hard limits leave no choice: there are more results than minimal notes for
/// them can fit, or the fields by which a command is followed up are too large. The result
/// that could not be sent is then left in its shortened form, and older ones as they were.
#[verifier::rlimit(40)]
pub fn apply(request: &mut ChatRequest, context_window: Option<u32>) -> (r: Result<
    BudgetReport,
    RequestBudgetExceeded,
>)
    ensures
        final(request).system == old(request).system,
        final(request).frame_bytes == old(request).frame_bytes,
        same_frame(old(request).messages@, final(request).messages@),
        ({
            let before = responses(old(request).messages@);
            let after = responses(final(request).messages@);
            let fitted = trim(before, room(*old(request), context_window));
            if minimum(before) > MAX_TOTAL_RESULT_BYTES {
                r is Err && final(request).messages@ == old(request).messages@
            } else {
                &&& after == fitted.1
                &&& r is Ok <==> fitted.0
            }
        }),
        r is Ok <==> passes(*old(request), context_window),
        responses(final(request).messages@) == results_sent(*old(request), context_window),
        match r {
            Ok(report) => {
                let before = responses(old(request).messages@);
                let after = responses(final(request).messages@);
                let changed = fingerprint(*old(request), context_window);
                &&& reported(*old(request), context_window) == (
                    report.truncated_results as nat,
                    report.original_result_bytes as nat,
                    report.sent_result_bytes as nat,
                )
                &&& report.truncated_results == changed.len()
                &&& report.original_result_bytes == capped(plain_bytes(before))
                &&& report.sent_result_bytes == plain_bytes(after)
                &&& report.truncated_fingerprint is Some <==> changed.len() > 0
                &&& report.truncated_fingerprint is Some ==> truncated_views(
                    report.truncated_fingerprint->0@,
                ) == changed
                &&& forall|k: int|
                    0 <= k < changed.len() ==> json::json_text((#[trigger] changed[k]).1)
                &&& read_soundly(before, after)
            },
            Err(_) => true,
        },
{
    let m: Measure = measure(&request.messages);
    if m.minimum > MAX_TOTAL_RESULT_BYTES {
        return Err(RequestBudgetExceeded);
    }
    let tokens: usize = input_token_budget(context_window);
    let request_budget: usize = tokens.saturating_add(tokens);
    let fixed: usize = request.frame_bytes.saturating_add(m.attachments);
    let open: usize = request_budget.saturating_sub(fixed);
    let left: usize = if open > m.minimum {
        open
    } else {
        m.minimum
    };
    let mut remaining: usize = if left < MAX_TOTAL_RESULT_BYTES {
        left
    } else {
        MAX_TOTAL_RESULT_BYTES
    };
    let mut limit: usize = MAX_TOTAL_RESULT_BYTES;
    let mut held: usize = m.minimum;
    let ghost start = request.messages@;
    let ghost first = Room { wanted: remaining as int, limit: limit as int };
    let mut original: usize = 0;
    let mut sent: usize = 0;
    let mut cut: Vec<TruncatedResult> = Vec::new();
    let mut i: usize = request.messages.len();
    let ghost mut done: Seq<ResponseView> = Seq::empty();
    proof {
        lemma_before(start, first, m.minimum as int);
        assert(truncated_views(cut@) =~= Seq::<ResponseView>::empty());
    }
    while i > 0
        invariant
            request.system == old(request).system,
            request.frame_bytes == old(request).frame_bytes,
            start == old(request).messages@,
            first == room(*old(request), context_window),
            minimum(responses(start)) <= MAX_TOTAL_RESULT_BYTES,
            first.limit == MAX_TOTAL_RESULT_BYTES,
            all_json(truncated_views(cut@)),
            between(
                start,
                request.messages@,
                i as int,
                first,
                (Progress {
                    done,
                    remaining: Room { wanted: remaining as int, limit: limit as int },
                    held: held as int,
                    original: original as int,
                    sent: sent as int,
                    cut: truncated_views(cut@),
                }),
            ),
        decreases i,
    {
        i -= 1;
        proof {
            lemma_enter(
                start,
                request.messages@,
                i as int,
                first,
                Progress {
                    done,
                    remaining: Room { wanted: remaining as int, limit: limit as int },
                    held: held as int,
                    original: original as int,
                    sent: sent as int,
                    cut: truncated_views(cut@),
                },
            );
        }
        let mut j: usize = request.messages[i].content.len();
        while j > 0
            invariant
                request.system == old(request).system,
                request.frame_bytes == old(request).frame_bytes,
                start == old(request).messages@,
                first == room(*old(request), context_window),
                minimum(responses(start)) <= MAX_TOTAL_RESULT_BYTES,
                first.limit == MAX_TOTAL_RESULT_BYTES,
                all_json(truncated_views(cut@)),
                within(
                    start,
                    request.messages@,
                    i as int,
                    j as int,
                    first,
                    (Progress {
                        done,
                        remaining: Room { wanted: remaining as int, limit: limit as int },
                        held: held as int,
                        original: original as int,
                        sent: sent as int,
                        cut: truncated_views(cut@),
                    }),
                ),
            decreases j,
        {
            let ghost before = request.messages@;
            let ghost progress = Progress {
                done,
                remaining: Room { wanted: remaining as int, limit: limit as int },
                held: held as int,
                original: original as int,
                sent: sent as int,
                cut: truncated_views(cut@),
            };
            j -= 1;
            proof {
                lemma_next_part(start, before, i as int, j as int, first, progress);
            }
            if let ContentPart::ToolResponse(response) = &request.messages[i].content[j] {
                let size: usize = json_len(response.content.as_str());
                let floor: usize = if size < MIN_RESULT_BYTES {
                    size
                } else {
                    MIN_RESULT_BYTES
                };
                original = original.saturating_add(byte_len(response.content.as_str()));
                held = held - floor;
                let open: usize = remaining.saturating_sub(held);
                let budget: usize = if open < MAX_RESULT_BYTES {
                    open
                } else {
                    MAX_RESULT_BYTES
                };
                let most: usize = limit.saturating_sub(held);
                let cap: usize = if most < MAX_RESULT_BYTES {
                    most
                } else {
                    MAX_RESULT_BYTES
                };
                let mut sent_size: usize = size;
                let mut sent_bytes: usize = byte_len(response.content.as_str());
                match shorter_form(response.content.as_str(), budget, cap) {
                    Some(text) => {
                        sent_size = json_len(text.as_str());
                        sent_bytes = byte_len(text.as_str());
                        let call_id: String = response.call_id.clone();
                        let content: String = text.clone();
                        replace_content(&mut request.messages, i, j, text);
                        proof {
                            lemma_fitted(
                                start,
                                before,
                                request.messages@,
                                i as int,
                                j as int,
                                first,
                                progress,
                                content,
                            );
                        }
                        if sent_size > cap {
                            return Err(RequestBudgetExceeded);
                        }
                        let ghost cut_before = truncated_views(cut@);
                        cut.push(TruncatedResult { call_id, content });
                        proof {
                            let entry = (call_id@, content@);
                            done = seq![entry] + done;
                            assert(truncated_views(cut@) =~= cut_before + seq![entry]);
                        }
                    },
                    None => {
                        proof {
                            assert(before[i as int].content@ =~= before[i as int].content@.update(
                                j as int,
                                before[i as int].content@[j as int],
                            ));
                            lemma_fitted(
                                start,
                                before,
                                before,
                                i as int,
                                j as int,
                                first,
                                progress,
                                response.content,
                            );
                        }
                        if sent_size > cap {
                            return Err(RequestBudgetExceeded);
                        }
                        proof {
                            done = seq![(response.call_id@, response.content@)] + done;
                            assert(progress.cut + Seq::<ResponseView>::empty() =~= progress.cut);
                        }
                    },
                }
                let rest: usize = remaining.saturating_sub(sent_size);
                remaining = if rest > held {
                    rest
                } else {
                    held
                };
                limit = limit - sent_size;
                sent = sent + sent_bytes;
            }
        }
        proof {
            lemma_leave(
                start,
                request.messages@,
                i as int,
                first,
                Progress {
                    done,
                    remaining: Room { wanted: remaining as int, limit: limit as int },
                    held: held as int,
                    original: original as int,
                    sent: sent as int,
                    cut: truncated_views(cut@),
                },
            );
        }
    }
    proof {
        lemma_after(
            start,
            request.messages@,
            first,
            Progress {
                done,
                remaining: Room { wanted: remaining as int, limit: limit as int },
                held: held as int,
                original: original as int,
                sent: sent as int,
                cut: truncated_views(cut@),
            },
        );
    }
    let truncated_results: usize = cut.len();
    let truncated_fingerprint: Option<Vec<TruncatedResult>> = if truncated_results == 0 {
        None
    } else {
        Some(cut)
    };
    Ok(
        BudgetReport {
            truncated_results,
            original_result_bytes: original,
            sent_result_bytes: sent,
            truncated_fingerprint,
        },
    )
}

spec fn all_json(list: Seq<ResponseView>) -> bool {
    forall|k: int| 0 <= k < list.len() ==> json::json_text((#[trigger] list[k]).1)
}

/// `pending` is what is left to fit into the `remaining` room once `done` has been fitted.
spec fn fitting(
    all: Seq<ResponseView>,
    pending: Seq<ResponseView>,
    done: Seq<ResponseView>,
    first: Room,
    remaining: Room,
) -> bool {
    &&& pending.len() + done.len() == all.len()
    &&& pending == all.take(pending.len() as int)
    &&& trim(all, first).0 == trim(pending, remaining).0
    &&& trim(all, first).1 == trim(pending, remaining).1 + done
}

/// What has been fitted so far, the last results first.
ghost struct Progress {
    done: Seq<ResponseView>,
    remaining: Room,
    held: int,
    original: int,
    sent: int,
    cut: Seq<ResponseView>,
}

spec fn progressed(
    all: Seq<ResponseView>,
    pending: Seq<ResponseView>,
    first: Room,
    p: Progress,
) -> bool {
    &&& fitting(all, pending, p.done, first, p.remaining)
    &&& p.held == minimum(pending)
    &&& p.original == capped(plain_bytes(all.skip(pending.len() as int)))
    &&& p.sent == plain_bytes(p.done)
    &&& p.sent + p.remaining.limit <= first.limit
    &&& p.cut == shortened(all.skip(pending.len() as int), p.done)
    &&& read_soundly(all.skip(pending.len() as int), p.done)
}

/// Everything from message `i` on has been fitted.
#[verifier::opaque]
spec fn between(
    start: Seq<ChatMessage>,
    messages: Seq<ChatMessage>,
    i: int,
    first: Room,
    p: Progress,
) -> bool {
    &&& 0 <= i <= messages.len()
    &&& messages.len() == start.len()
    &&& same_frame(start, messages)
    &&& forall|k: int| 0 <= k < i ==> messages[k] == #[trigger] start[k]
    &&& p.done == responses(messages.skip(i))
    &&& progressed(responses(start), responses(start.take(i)), first, p)
}

/// Everything from part `j` of message `i` on has been fitted.
#[verifier::opaque]
spec fn within(
    start: Seq<ChatMessage>,
    messages: Seq<ChatMessage>,
    i: int,
    j: int,
    first: Room,
    p: Progress,
) -> bool {
    let content = start[i].content@;
    &&& 0 <= i < messages.len()
    &&& messages.len() == start.len()
    &&& same_frame(start, messages)
    &&& forall|k: int| 0 <= k < i ==> messages[k] == #[trigger] start[k]
    &&& 0 <= j <= content.len()
    &&& messages[i].content@.len() == content.len()
    &&& forall|k: int| 0 <= k < j ==> messages[i].content@[k] == #[trigger] content[k]
    &&& p.done == part_responses(messages[i].content@.skip(j)) + responses(messages.skip(i + 1))
    &&& progressed(
        responses(start),
        responses(start.take(i)) + part_responses(content.take(j)),
        first,
        p,
    )
}

proof fn lemma_before(start: Seq<ChatMessage>, first: Room, held: int)
    requires
        held == minimum(responses(start)),
    ensures
        between(
            start,
            start,
            start.len() as int,
            first,
            (Progress {
                done: Seq::empty(),
                remaining: first,
                held,
                original: 0,
                sent: 0,
                cut: Seq::empty(),
            }),
        ),
{
    reveal(between);
    let all = responses(start);
    let none = Seq::<ResponseView>::empty();
    assert(start.take(start.len() as int) =~= start);
    assert(start.skip(start.len() as int) =~= Seq::<ChatMessage>::empty());
    assert(all.take(all.len() as int) =~= all);
    assert(all.skip(all.len() as int) =~= none);
    assert(trim(all, first).1 + none =~= trim(all, first).1);
}

proof fn lemma_enter(
    start: Seq<ChatMessage>,
    messages: Seq<ChatMessage>,
    i: int,
    first: Room,
    p: Progress,
)
    requires
        0 <= i,
        between(start, messages, i + 1, first, p),
    ensures
        i < messages.len(),
        within(start, messages, i, messages[i].content@.len() as int, first, p),
{
    reveal(between);
    reveal(within);
    let content = messages[i].content@;
    let none = Seq::<ContentPart>::empty();
    assert(messages[i] == start[i]);
    assert(start.take(i + 1).drop_last() =~= start.take(i));
    assert(start.take(i + 1).last() == start[i]);
    assert(content.take(content.len() as int) =~= content);
    assert(content.skip(content.len() as int) =~= none);
    assert(part_responses(none) + p.done =~= p.done);
}

proof fn lemma_leave(
    start: Seq<ChatMessage>,
    messages: Seq<ChatMessage>,
    i: int,
    first: Room,
    p: Progress,
)
    requires
        within(start, messages, i, 0, first, p),
    ensures
        between(start, messages, i, first, p),
{
    reveal(between);
    reveal(within);
    let one = seq![messages[i]];
    assert(start[i].content@.take(0) =~= Seq::<ContentPart>::empty());
    assert(responses(start.take(i)) + part_responses(start[i].content@.take(0)) =~= responses(
        start.take(i),
    ));
    assert(messages[i].content@.skip(0) =~= messages[i].content@);
    assert(messages.skip(i) =~= one + messages.skip(i + 1));
    lemma_responses_concat(one, messages.skip(i + 1));
    reveal_with_fuel(responses, 2);
    assert(one.drop_last() =~= Seq::<ChatMessage>::empty());
    assert(responses(one) =~= part_responses(messages[i].content@));
}

proof fn lemma_after(
    start: Seq<ChatMessage>,
    messages: Seq<ChatMessage>,
    first: Room,
    p: Progress,
)
    requires
        between(start, messages, 0, first, p),
    ensures
        same_frame(start, messages),
        trim(responses(start), first) == (true, responses(messages)),
        p.original == capped(plain_bytes(responses(start))),
        p.sent == plain_bytes(responses(messages)),
        p.cut == shortened(responses(start), responses(messages)),
        read_soundly(responses(start), responses(messages)),
{
    reveal(between);
    let all = responses(start);
    assert(start.take(0) =~= Seq::<ChatMessage>::empty());
    assert(messages.skip(0) =~= messages);
    assert(all.skip(0) =~= all);
    assert(trim(Seq::<ResponseView>::empty(), p.remaining).1 + p.done =~= p.done);
}

/// What the next part to look at is, and that a part that is no tool response is passed over.
proof fn lemma_next_part(
    start: Seq<ChatMessage>,
    messages: Seq<ChatMessage>,
    i: int,
    j: int,
    first: Room,
    p: Progress,
)
    requires
        0 <= j,
        within(start, messages, i, j + 1, first, p),
    ensures
        0 <= i < messages.len(),
        j < messages[i].content@.len(),
        match messages[i].content@[j] {
            ContentPart::ToolResponse(r) => p.held >= least(r.content@),
            _ => within(start, messages, i, j, first, p),
        },
{
    reveal(within);
    let content = start[i].content@;
    let here = messages[i].content@;
    let one = seq![here[j]];
    assert(here[j] == content[j]);
    assert(content.take(j + 1).drop_last() =~= content.take(j));
    assert(content.take(j + 1).last() == content[j]);
    let older = responses(start.take(i));
    if let ContentPart::ToolResponse(r) = here[j] {
        let whole = older + part_responses(content.take(j + 1));
        assert(whole.last() == (r.call_id@, r.content@));
    } else {
        assert(here.skip(j) =~= one + here.skip(j + 1));
        lemma_part_responses_concat(one, here.skip(j + 1));
        reveal_with_fuel(part_responses, 2);
        assert(one.drop_last() =~= Seq::<ContentPart>::empty());
        assert(part_responses(one) =~= Seq::<ResponseView>::empty());
        assert(p.done =~= part_responses(here.skip(j)) + responses(messages.skip(i + 1)));
    }
}

/// The tool response at `(i, j)` has been given its share.
proof fn lemma_fitted(
    start: Seq<ChatMessage>,
    before: Seq<ChatMessage>,
    after: Seq<ChatMessage>,
    i: int,
    j: int,
    first: Room,
    p: Progress,
    content: String,
)
    requires
        0 <= j,
        within(start, before, i, j + 1, first, p),
        before[i].content@[j] is ToolResponse,
        after.len() == before.len(),
        forall|k: int| 0 <= k < before.len() && k != i ==> after[k] == before[k],
        after[i].role == before[i].role,
        after[i].content@ == before[i].content@.update(
            j,
            ContentPart::ToolResponse(
                (ToolResponse { content, ..before[i].content@[j]->ToolResponse_0 }),
            ),
        ),
        ({
            let r = before[i].content@[j]->ToolResponse_0;
            content@ == outgoing(
                r.content@,
                offered(p.remaining.wanted, p.held - least(r.content@)),
                offered(p.remaining.limit, p.held - least(r.content@)),
            )
        }),
        ({
            let r = before[i].content@[j]->ToolResponse_0;
            r.content@ != content@ ==> bounded_result::well_read(r.content@)
        }),
    ensures
        ({
            let r = before[i].content@[j]->ToolResponse_0;
            let held = p.held - least(r.content@);
            let size = json::json_size(content@);
            let entry = (r.call_id@, content@);
            if size > offered(p.remaining.limit, held) {
                &&& same_frame(start, after)
                &&& trim(responses(start), first) == (false, responses(after))
            } else {
                within(
                    start,
                    after,
                    i,
                    j,
                    first,
                    (Progress {
                        done: seq![entry] + p.done,
                        remaining: Room {
                            wanted: if p.remaining.wanted - size > held {
                                p.remaining.wanted - size
                            } else {
                                held
                            },
                            limit: p.remaining.limit - size,
                        },
                        held,
                        original: capped(
                            (p.original + text::utf8_len(r.content@)) as nat,
                        ) as int,
                        sent: p.sent + text::utf8_len(content@),
                        cut: p.cut + (if r.content@ != content@ {
                            seq![entry]
                        } else {
                            Seq::empty()
                        }),
                    }),
                )
            }
        }),
        p.sent + p.remaining.limit <= first.limit,
        text::utf8_len(content@) <= json::json_size(content@),
{
    reveal(within);
    let all = responses(start);
    let parts = start[i].content@;
    let r = before[i].content@[j]->ToolResponse_0;
    let entry = (r.call_id@, r.content@);
    let new_entry = (r.call_id@, content@);
    let pending = responses(start.take(i)) + part_responses(parts.take(j));
    let whole = responses(start.take(i)) + part_responses(parts.take(j + 1));
    assert(before[i].content@[j] == parts[j]);
    assert(parts.take(j + 1).drop_last() =~= parts.take(j));
    assert(parts.take(j + 1).last() == parts[j]);
    assert(whole =~= pending.push(entry));
    assert(whole.drop_last() =~= pending);
    assert(whole.last() == entry);
    json::lemma_json_size_covers(content@);
    lemma_replaced(start, before, after, i, j, p.done, new_entry, content);
    lemma_step(all, pending, entry, new_entry, p.done, first, p.remaining);
    lemma_tail_step(all, pending, entry, new_entry, p.done);
    let seen = all.skip(pending.len() as int);
    let now = seq![new_entry] + p.done;
    assert forall|k: int|
        0 <= k < seen.len() && k < now.len() && (#[trigger] seen[k]).1 != now[k].1 implies bounded_result::well_read(seen[k].1) by {
        if k > 0 {
            assert(seen[k] == all.skip(pending.len() as int + 1)[k - 1]);
            assert(now[k] == p.done[k - 1]);
        }
    }
    if json::json_size(content@) > share(pending, p.remaining.limit) {
        lemma_finish(start, after, i, j, seq![new_entry] + p.done);
    }
}

proof fn lemma_step(
    all: Seq<ResponseView>,
    pending: Seq<ResponseView>,
    entry: ResponseView,
    new_entry: ResponseView,
    done: Seq<ResponseView>,
    first: Room,
    remaining: Room,
)
    requires
        fitting(all, pending.push(entry), done, first, remaining),
        new_entry == (
            entry.0,
            outgoing(entry.1, share(pending, remaining.wanted), share(pending, remaining.limit)),
        ),
    ensures
        json::json_size(new_entry.1) <= share(pending, remaining.limit) ==> fitting(
            all,
            pending,
            seq![new_entry] + done,
            first,
            room_after(pending, remaining, json::json_size(new_entry.1)),
        ),
        json::json_size(new_entry.1) > share(pending, remaining.limit) ==> !trim(all, first).0
            && trim(all, first).1 == pending + (seq![new_entry] + done),
{
    let whole = pending.push(entry);
    let size = json::json_size(new_entry.1);
    assert(whole.drop_last() =~= pending);
    assert(whole.last() == entry);
    if size <= share(pending, remaining.limit) {
        let t = trim(pending, room_after(pending, remaining, size));
        assert(trim(whole, remaining).1 == t.1.push(new_entry));
        assert(t.1.push(new_entry) + done =~= t.1 + (seq![new_entry] + done));
        assert(pending =~= all.take(pending.len() as int)) by {
            assert(whole =~= all.take(whole.len() as int));
            assert forall|k: int| 0 <= k < pending.len() implies pending[k] == all[k] by {
                assert(whole[k] == all.take(whole.len() as int)[k]);
            }
        }
    } else {
        assert(pending.push(new_entry) + done =~= pending + (seq![new_entry] + done));
    }
}

proof fn lemma_tail_step(
    all: Seq<ResponseView>,
    pending: Seq<ResponseView>,
    entry: ResponseView,
    new_entry: ResponseView,
    done: Seq<ResponseView>,
)
    requires
        pending.push(entry).len() + done.len() == all.len(),
        pending.push(entry) == all.take(pending.len() as int + 1),
    ensures
        all.skip(pending.len() as int) == seq![entry] + all.skip(pending.len() as int + 1),
        plain_bytes(all.skip(pending.len() as int)) == text::utf8_len(entry.1) + plain_bytes(
            all.skip(pending.len() as int + 1),
        ),
        plain_bytes(seq![new_entry] + done) == text::utf8_len(new_entry.1) + plain_bytes(done),
        shortened(all.skip(pending.len() as int), seq![new_entry] + done) == shortened(
            all.skip(pending.len() as int + 1),
            done,
        ) + (if entry.1 != new_entry.1 {
            seq![new_entry]
        } else {
            Seq::empty()
        }),
{
    let whole = pending.push(entry);
    let rest = all.skip(pending.len() as int + 1);
    assert(all[pending.len() as int] == whole[pending.len() as int]);
    assert(all.skip(pending.len() as int) =~= seq![entry] + rest);
    lemma_sums_concat(seq![entry], rest);
    lemma_sums_concat(seq![new_entry], done);
    reveal_with_fuel(plain_bytes, 2);
    assert(seq![entry].drop_last() =~= Seq::<ResponseView>::empty());
    assert(seq![new_entry].drop_last() =~= Seq::<ResponseView>::empty());
    lemma_shortened_front(entry, new_entry, rest, done);
}

/// Replacing the content of one tool response puts it in front of those behind it.
proof fn lemma_replaced(
    start: Seq<ChatMessage>,
    before: Seq<ChatMessage>,
    after: Seq<ChatMessage>,
    i: int,
    j: int,
    done: Seq<ResponseView>,
    new_entry: ResponseView,
    content: String,
)
    requires
        0 <= i < before.len(),
        before.len() == after.len(),
        0 <= j < before[i].content@.len(),
        before[i].content@[j] is ToolResponse,
        same_frame(start, before),
        forall|k: int| 0 <= k < before.len() && k != i ==> after[k] == before[k],
        after[i].role == before[i].role,
        content@ == new_entry.1,
        after[i].content@ == before[i].content@.update(
            j,
            ContentPart::ToolResponse(
                (ToolResponse { content, ..before[i].content@[j]->ToolResponse_0 }),
            ),
        ),
        new_entry.0 == before[i].content@[j]->ToolResponse_0.call_id@,
        done == part_responses(before[i].content@.skip(j + 1)) + responses(before.skip(i + 1)),
    ensures
        same_frame(start, after),
        seq![new_entry] + done == part_responses(after[i].content@.skip(j)) + responses(
            after.skip(i + 1),
        ),
{
    let b = before[i].content@;
    let a = after[i].content@;
    assert(a.skip(j) =~= seq![a[j]] + b.skip(j + 1));
    lemma_part_responses_concat(seq![a[j]], b.skip(j + 1));
    reveal_with_fuel(part_responses, 2);
    assert(seq![a[j]].drop_last() =~= Seq::<ContentPart>::empty());
    assert(part_responses(seq![a[j]]) =~= seq![new_entry]);
    assert(after.skip(i + 1) =~= before.skip(i + 1));
    assert(seq![new_entry] + done =~= part_responses(a.skip(j)) + responses(after.skip(i + 1)));
    assert forall|x: int| 0 <= x < start.len() implies #[trigger] start[x].role == after[x].role
        && start[x].content@.len() == after[x].content@.len() by {
        assert(start[x].role == before[x].role);
    }
    assert forall|x: int, y: int|
        0 <= x < start.len() && 0 <= y < start[x].content@.len() implies same_part(
        #[trigger] start[x].content@[y],
        after[x].content@[y],
    ) by {
        assert(start[x].role == before[x].role);
        assert(same_part(start[x].content@[y], before[x].content@[y]));
    }
}

/// The responses of the whole request, seen from the part at `(i, j)`.
proof fn lemma_finish(
    start: Seq<ChatMessage>,
    messages: Seq<ChatMessage>,
    i: int,
    j: int,
    done: Seq<ResponseView>,
)
    requires
        0 <= i < messages.len(),
        messages.len() == start.len(),
        0 <= j <= messages[i].content@.len(),
        j <= start[i].content@.len(),
        forall|k: int| 0 <= k < i ==> messages[k] == #[trigger] start[k],
        forall|k: int| 0 <= k < j ==> messages[i].content@[k] == #[trigger] start[i].content@[k],
        done == part_responses(messages[i].content@.skip(j)) + responses(messages.skip(i + 1)),
    ensures
        responses(messages) == responses(start.take(i)) + part_responses(start[i].content@.take(j))
            + done,
{
    let here = messages[i].content@;
    assert(here =~= here.take(j) + here.skip(j));
    lemma_part_responses_concat(here.take(j), here.skip(j));
    assert(here.take(j) =~= start[i].content@.take(j));
    assert(messages =~= messages.take(i + 1) + messages.skip(i + 1));
    lemma_responses_concat(messages.take(i + 1), messages.skip(i + 1));
    assert(messages.take(i + 1).drop_last() =~= start.take(i));
    assert(messages.take(i + 1).last() == messages[i]);
    assert(responses(messages) =~= responses(start.take(i)) + part_responses(
        start[i].content@.take(j),
    ) + done);
}

proof fn lemma_minimum_below(rs: Seq<ResponseView>)
    ensures
        minimum(rs) <= result_bytes(rs),
        minimum(rs) <= MIN_RESULT_BYTES * rs.len(),
    decreases rs.len(),
{
    if rs.len() > 0 {
        lemma_minimum_below(rs.drop_last());
    }
}

/// Results that could be fitted take at most the limit, and each of them stays under the
/// limit for one result.
pub proof fn law_results_stay_within_limits(rs: Seq<ResponseView>, remaining: Room)
    requires
        0 <= remaining.limit,
        trim(rs, remaining).0,
    ensures
        result_bytes(trim(rs, remaining).1) <= remaining.limit,
        forall|k: int|
            0 <= k < rs.len() ==> json::json_size(#[trigger] trim(rs, remaining).1[k].1)
                <= MAX_RESULT_BYTES,
    decreases rs.len(),
{
    law_results_keep_their_places(rs, remaining);
    if rs.len() > 0 {
        let older = rs.drop_last();
        let sent = outgoing(
            rs.last().1,
            share(older, remaining.wanted),
            share(older, remaining.limit),
        );
        let rest = room_after(older, remaining, json::json_size(sent));
        let t = trim(older, rest);
        let all = trim(rs, remaining).1;
        law_results_stay_within_limits(older, rest);
        law_results_keep_their_places(older, rest);
        assert(all.drop_last() =~= t.1);
        assert forall|k: int| 0 <= k < rs.len() implies json::json_size(#[trigger] all[k].1)
            <= MAX_RESULT_BYTES by {
            if k < older.len() {
                assert(all[k] == t.1[k]);
            }
        }
    }
}

/// Fitting removes, adds and reorders no result, whether or not it succeeds: each stays
/// with its call.
pub proof fn law_results_keep_their_places(rs: Seq<ResponseView>, remaining: Room)
    ensures
        trim(rs, remaining).1.len() == rs.len(),
        forall|k: int| 0 <= k < rs.len() ==> (#[trigger] trim(rs, remaining).1[k]).0 == rs[k].0,
    decreases rs.len(),
{
    if rs.len() > 0 {
        let older = rs.drop_last();
        let sent = outgoing(
            rs.last().1,
            share(older, remaining.wanted),
            share(older, remaining.limit),
        );
        let rest = room_after(older, remaining, json::json_size(sent));
        let all = trim(rs, remaining).1;
        law_results_keep_their_places(older, rest);
        assert forall|k: int| 0 <= k < rs.len() implies (#[trigger] all[k]).0 == rs[k].0 by {
            if k < older.len() && json::json_size(sent) <= share(older, remaining.limit) {
                assert(all[k] == trim(older, rest).1[k]);
            }
        }
    }
}

/// Results that fit as they are stay byte for byte.
pub proof fn law_fitting_results_are_untouched(rs: Seq<ResponseView>, remaining: Room)
    requires
        result_bytes(rs) <= remaining.wanted <= remaining.limit,
        forall|k: int|
            0 <= k < rs.len() ==> json::json_size(#[trigger] rs[k].1) <= MAX_RESULT_BYTES,
    ensures
        trim(rs, remaining) == (true, rs),
    decreases rs.len(),
{
    if rs.len() > 0 {
        let older = rs.drop_last();
        let last = rs.last();
        lemma_minimum_below(older);
        assert(last == rs[rs.len() - 1]);
        assert forall|k: int| 0 <= k < older.len() implies json::json_size(#[trigger] older[k].1)
            <= MAX_RESULT_BYTES by {
            assert(older[k] == rs[k]);
        }
        law_fitting_results_are_untouched(
            older,
            room_after(older, remaining, json::json_size(last.1)),
        );
        assert(older.push(last) =~= rs);
    }
}

/// Results that were fitted into what the window leaves are not shortened again in the same
/// room.
pub proof fn law_fitting_twice_changes_nothing(rs: Seq<ResponseView>, remaining: Room)
    requires
        0 <= remaining.wanted <= remaining.limit,
        trim(rs, remaining).0,
        result_bytes(trim(rs, remaining).1) <= remaining.wanted,
    ensures
        trim(trim(rs, remaining).1, remaining) == (true, trim(rs, remaining).1),
{
    law_results_stay_within_limits(rs, remaining);
    law_results_keep_their_places(rs, remaining);
    law_fitting_results_are_untouched(trim(rs, remaining).1, remaining);
}

/// The control fields of a result take no more than the minimal note.
pub open spec fn small_control_fields(content: Seq<char>) -> bool {
    json::json_size(content) > MIN_RESULT_BYTES ==> json::json_size(
        bounded_result::smallest_form(content, bounded_result::output_of(content)),
    ) <= MIN_RESULT_BYTES
}

/// What a window is estimated to leave never makes a request fail: as long as the minimal
/// notes for all results fit under the limit and the control fields of each fit into such a
/// note, the results can be fitted, and they take no more than what was wanted.
pub proof fn law_estimates_never_fail(rs: Seq<ResponseView>, remaining: Room)
    requires
        minimum(rs) <= remaining.wanted <= remaining.limit,
        forall|k: int| 0 <= k < rs.len() ==> small_control_fields((#[trigger] rs[k]).1),
    ensures
        trim(rs, remaining).0,
        result_bytes(trim(rs, remaining).1) <= remaining.wanted,
    decreases rs.len(),
{
    law_results_keep_their_places(rs, remaining);
    if rs.len() > 0 {
        let older = rs.drop_last();
        let content = rs.last().1;
        let budget = share(older, remaining.wanted);
        let sent = outgoing(content, budget, share(older, remaining.limit));
        let rest = room_after(older, remaining, json::json_size(sent));
        assert(rs[rs.len() - 1] == rs.last());
        assert(small_control_fields(content));
        assert(budget >= least(content));
        if json::json_size(content) > budget {
            bounded_result::law_bounded_within_budget(
                content,
                bounded_result::output_of(content),
                budget,
            );
        }
        assert(json::json_size(sent) <= budget);
        assert forall|k: int| 0 <= k < older.len() implies small_control_fields(
            (#[trigger] older[k]).1,
        ) by {
            assert(older[k] == rs[k]);
        }
        law_estimates_never_fail(older, rest);
        law_results_keep_their_places(older, rest);
        assert(trim(rs, remaining).1.drop_last() =~= trim(older, rest).1);
    }
}

/// Results that are under the hard limits as they are never make a request fail, whatever the
/// window is estimated to leave.
pub proof fn law_results_under_the_limits_pass(rs: Seq<ResponseView>, remaining: Room)
    requires
        result_bytes(rs) <= remaining.limit,
        forall|k: int|
            0 <= k < rs.len() ==> json::json_size(#[trigger] rs[k].1) <= MAX_RESULT_BYTES,
    ensures
        trim(rs, remaining).0,
    decreases rs.len(),
{
    if rs.len() > 0 {
        let older = rs.drop_last();
        let content = rs.last().1;
        let sent = outgoing(
            content,
            share(older, remaining.wanted),
            share(older, remaining.limit),
        );
        lemma_minimum_below(older);
        assert(rs[rs.len() - 1] == rs.last());
        assert(json::json_size(sent) <= json::json_size(content));
        assert forall|k: int| 0 <= k < older.len() implies json::json_size(#[trigger] older[k].1)
            <= MAX_RESULT_BYTES by {
            assert(older[k] == rs[k]);
        }
        law_results_under_the_limits_pass(
            older,
            room_after(older, remaining, json::json_size(sent)),
        );
    }
}

/// A request whose result cannot be fitted is left with that result shortened, with the more
/// recent ones fitted, and with the older ones as they were.
pub proof fn law_result_that_cannot_be_sent_is_left_shortened(
    rs: Seq<ResponseView>,
    remaining: Room,
) -> (k: int)
    requires
        !trim(rs, remaining).0,
    ensures
        0 <= k < rs.len(),
        trim(rs, remaining).1[k].1 == bounded_result::bounded(
            rs[k].1,
            granted(rs, remaining, k),
        ),
        forall|older: int| 0 <= older < k ==> #[trigger] trim(rs, remaining).1[older] == rs[older],
    decreases rs.len(),
{
    let older = rs.drop_last();
    let cap = share(older, remaining.limit);
    let sent = outgoing(rs.last().1, share(older, remaining.wanted), cap);
    let size = json::json_size(sent);
    let rest = room_after(older, remaining, size);
    if size > cap {
        rs.len() - 1
    } else {
        law_results_keep_their_places(older, rest);
        let k = law_result_that_cannot_be_sent_is_left_shortened(older, rest);
        assert forall|i: int| 0 <= i < k implies #[trigger] trim(rs, remaining).1[i] == rs[i] by {
            assert(trim(rs, remaining).1[i] == trim(older, rest).1[i]);
        }
        k
    }
}

/// The most recent result comes first: however large the older ones are, each takes at
/// most the minimal note away from its share.
pub proof fn law_recent_results_come_first(older: Seq<ResponseView>, remaining: int)
    ensures
        remaining - MIN_RESULT_BYTES * older.len() <= share(older, remaining) || share(
            older,
            remaining,
        ) == MAX_RESULT_BYTES,
{
    lemma_minimum_below(older);
}

/// A request without tool results passes, whatever else it holds and however small the
/// window is.
pub proof fn law_text_and_attachments_never_fail(request: ChatRequest, context_window: Option<u32>)
    requires
        responses(request.messages@).len() == 0,
    ensures
        minimum(responses(request.messages@)) <= MAX_TOTAL_RESULT_BYTES,
        trim(responses(request.messages@), room(request, context_window)) == (
            true,
            responses(request.messages@),
        ),
{
}

/// What the window leaves for tool results is never negative and never above the limit for
/// all of them, and where the minimal notes fit under that limit it has room for them.
pub proof fn law_room_is_limited(request: ChatRequest, context_window: Option<u32>)
    ensures
        0 <= room(request, context_window).wanted <= room(request, context_window).limit,
        room(request, context_window).limit == 128 * 1024,
        minimum(responses(request.messages@)) <= MAX_TOTAL_RESULT_BYTES ==> minimum(
            responses(request.messages@),
        ) <= room(request, context_window).wanted,
{
}

/// An unknown window counts as 200000 tokens, and so does a window of zero.
pub proof fn law_unknown_window_counts_as_default()
    ensures
        token_budget(None) == token_budget(Some(0)),
        token_budget(None) == token_budget(Some(UNKNOWN_CONTEXT_WINDOW)),
{
}

/// The reserve takes at least a quarter of the window and at most half of it.
pub proof fn law_budget_leaves_half_the_window(context_window: Option<u32>)
    ensures
        window_of(context_window) <= 2 * token_budget(context_window),
        4 * token_budget(context_window) <= 3 * window_of(context_window) + 3,
{
}

/// The same tool results in the same room are sent with the same fingerprint, whatever
/// else the requests hold.
pub proof fn law_fingerprint_follows_shortened_results(
    first: ChatRequest,
    second: ChatRequest,
    first_window: Option<u32>,
    second_window: Option<u32>,
)
    requires
        responses(first.messages@) == responses(second.messages@),
        room(first, first_window) == room(second, second_window),
    ensures
        fingerprint(first, first_window) == fingerprint(second, second_window),
{
}

/// The window leaves 128 KiB for tool results.
pub open spec fn leaves_room(request: ChatRequest, context_window: Option<u32>) -> bool {
    request.frame_bytes + attachment_bytes(all_parts(request.messages@)) + MAX_TOTAL_RESULT_BYTES
        <= capped(2 * token_budget(context_window))
}

/// A history keeps its fingerprint when messages without tool results are added to it, as
/// long as both requests leave room for 128 KiB.
pub proof fn law_repeated_history_keeps_its_fingerprint(
    first: ChatRequest,
    repeated: ChatRequest,
    added: Seq<ChatMessage>,
    first_window: Option<u32>,
    repeated_window: Option<u32>,
)
    requires
        repeated.messages@ == first.messages@ + added,
        responses(added).len() == 0,
        leaves_room(first, first_window),
        leaves_room(repeated, repeated_window),
    ensures
        fingerprint(first, first_window) == fingerprint(repeated, repeated_window),
{
    lemma_responses_concat(first.messages@, added);
    assert(responses(repeated.messages@) =~= responses(first.messages@));
}

/// The bytes that the result at `k` is meant to take.
pub open spec fn granted(rs: Seq<ResponseView>, remaining: Room, k: int) -> nat
    decreases rs.len(),
{
    if rs.len() == 0 {
        0
    } else {
        let older = rs.drop_last();
        let budget = share(older, remaining.wanted);
        if k >= older.len() {
            budget
        } else {
            let size = json::json_size(
                outgoing(rs.last().1, budget, share(older, remaining.limit)),
            );
            granted(older, room_after(older, remaining, size), k)
        }
    }
}

/// The head and the tail that the result at `k` keeps where it is shortened.
pub open spec fn kept_of(request: ChatRequest, context_window: Option<u32>, k: int) -> Option<
    (Seq<char>, Seq<char>),
> {
    let rs = responses(request.messages@);
    let budget = granted(rs, room(request, context_window), k);
    bounded_result::kept_ends(
        bounded_result::envelope(rs[k].1, bounded_result::output_of(rs[k].1), budget),
        budget,
    )
}

/// The result at `k` goes out shortened.
pub open spec fn is_shortened(request: ChatRequest, context_window: Option<u32>, k: int) -> bool {
    let rs = responses(request.messages@);
    rs[k].1 != trim(rs, room(request, context_window)).1[k].1
}

/// A fingerprint lists exactly the results that have changed.
proof fn lemma_shortened_lists(before: Seq<ResponseView>, after: Seq<ResponseView>)
    requires
        before.len() == after.len(),
    ensures
        forall|k: int|
            0 <= k < after.len() && (#[trigger] before[k]).1 != after[k].1 ==> shortened(
                before,
                after,
            ).contains(after[k]),
        forall|x: ResponseView| #[trigger]
            shortened(before, after).contains(x) ==> exists|k: int|
                0 <= k < after.len() && (#[trigger] before[k]).1 != after[k].1 && after[k] == x,
    decreases before.len(),
{
    if before.len() > 0 {
        let b = before.drop_last();
        let a = after.drop_last();
        let rest = shortened(b, a);
        let all = shortened(before, after);
        let last = before.len() - 1;
        lemma_shortened_lists(b, a);
        let front = if before.last().1 != after.last().1 {
            seq![after.last()]
        } else {
            Seq::empty()
        };
        assert(all =~= front + rest);
        assert forall|x: ResponseView| #[trigger] rest.contains(x) implies all.contains(x) by {
            let p = choose|p: int| 0 <= p < rest.len() && rest[p] == x;
            assert(all[front.len() + p] == x);
        }
        assert forall|k: int|
            0 <= k < after.len() && (#[trigger] before[k]).1 != after[k].1 implies all.contains(
            after[k],
        ) by {
            if k < last {
                assert(b[k] == before[k] && a[k] == after[k]);
                assert(rest.contains(a[k]));
            } else {
                assert(all[0] == after[k]);
            }
        }
        assert forall|x: ResponseView| #[trigger] all.contains(x) implies exists|k: int|
            0 <= k < after.len() && (#[trigger] before[k]).1 != after[k].1 && after[k] == x by {
            let p = choose|p: int| 0 <= p < all.len() && all[p] == x;
            if p < front.len() {
                assert(before[last].1 != after[last].1 && after[last] == x);
            } else {
                assert(rest[p - front.len()] == x);
                assert(rest.contains(x));
                let k = choose|k: int|
                    0 <= k < a.len() && (#[trigger] b[k]).1 != a[k].1 && a[k] == x;
                assert(before[k] == b[k] && after[k] == a[k]);
            }
        }
    }
}

/// A result that is shortened gives the fingerprint away: a request in which the same call has
/// a result that goes out whole, or of which another head or another tail is kept, has another
/// fingerprint. Calls have one result each, and the results were read as they were written.
pub proof fn law_changed_output_changes_the_fingerprint(
    first: ChatRequest,
    changed: ChatRequest,
    first_window: Option<u32>,
    changed_window: Option<u32>,
    i: int,
    j: int,
)
    requires
        0 <= i < responses(first.messages@).len(),
        0 <= j < responses(changed.messages@).len(),
        responses(first.messages@)[i].0 == responses(changed.messages@)[j].0,
        forall|k: int|
            0 <= k < responses(changed.messages@).len() && (#[trigger] responses(
                changed.messages@,
            )[k]).0 == responses(changed.messages@)[j].0 ==> k == j,
        bounded_result::well_read(responses(first.messages@)[i].1),
        is_shortened(changed, changed_window, j) ==> bounded_result::well_read(responses(changed.messages@)[j].1),
        is_shortened(first, first_window, i),
        !is_shortened(changed, changed_window, j) || kept_of(first, first_window, i) != kept_of(
            changed,
            changed_window,
            j,
        ),
    ensures
        fingerprint(first, first_window) != fingerprint(changed, changed_window),
{
    let a = responses(first.messages@);
    let b = responses(changed.messages@);
    let a_room = room(first, first_window);
    let b_room = room(changed, changed_window);
    let a_sent = trim(a, a_room).1;
    let b_sent = trim(b, b_room).1;
    law_results_keep_their_places(a, a_room);
    law_results_keep_their_places(b, b_room);
    law_results_are_only_shortened(a, a_room, i);
    law_results_are_only_shortened(b, b_room, j);
    lemma_shortened_lists(a, a_sent);
    lemma_shortened_lists(b, b_sent);
    assert(a[i].1 != a_sent[i].1);
    assert(shortened(a, a_sent).contains(a_sent[i]));
    if shortened(a, a_sent) == shortened(b, b_sent) {
        assert(shortened(b, b_sent).contains(a_sent[i]));
        let k = choose|k: int|
            0 <= k < b_sent.len() && (#[trigger] b[k]).1 != b_sent[k].1 && b_sent[k] == a_sent[i];
        assert(b_sent[k].0 == b[k].0);
        assert(a_sent[i].0 == a[i].0);
        assert(k == j);
        bounded_result::law_kept_ends_show(
            a[i].1,
            bounded_result::output_of(a[i].1),
            granted(a, a_room, i),
            b[j].1,
            bounded_result::output_of(b[j].1),
            granted(b, b_room, j),
        );
    }
}

/// A history with a result over 32 KiB has a fingerprint, keeps it when messages without tool
/// results are added, and has another one once the result of that call is another: one that
/// goes out whole, or of which another head or another tail is kept. The first two requests
/// leave room for 128 KiB and pass, and calls have one result each.
pub proof fn law_fingerprint_tells_changed_output_from_repeated_history(
    first: ChatRequest,
    repeated: ChatRequest,
    added: Seq<ChatMessage>,
    changed: ChatRequest,
    context_window: Option<u32>,
    i: int,
    j: int,
)
    requires
        repeated.messages@ == first.messages@ + added,
        responses(added).len() == 0,
        leaves_room(first, context_window),
        leaves_room(repeated, context_window),
        trim(responses(first.messages@), room(first, context_window)).0,
        0 <= i < responses(first.messages@).len(),
        0 <= j < responses(changed.messages@).len(),
        json::json_size(responses(first.messages@)[i].1) > 32 * 1024,
        responses(first.messages@)[i].0 == responses(changed.messages@)[j].0,
        forall|k: int|
            0 <= k < responses(changed.messages@).len() && (#[trigger] responses(
                changed.messages@,
            )[k]).0 == responses(changed.messages@)[j].0 ==> k == j,
        bounded_result::well_read(responses(first.messages@)[i].1),
        is_shortened(changed, context_window, j) ==> bounded_result::well_read(responses(changed.messages@)[j].1),
        !is_shortened(changed, context_window, j) || kept_of(first, context_window, i) != kept_of(
            changed,
            context_window,
            j,
        ),
    ensures
        fingerprint(first, context_window).len() > 0,
        fingerprint(first, context_window) == fingerprint(repeated, context_window),
        fingerprint(first, context_window) != fingerprint(changed, context_window),
{
    let rs = responses(first.messages@);
    let sent = trim(rs, room(first, context_window)).1;
    law_results_stay_within_limits(rs, room(first, context_window));
    law_results_keep_their_places(rs, room(first, context_window));
    assert(json::json_size(sent[i].1) <= MAX_RESULT_BYTES);
    assert(is_shortened(first, context_window, i));
    lemma_shortened_lists(rs, sent);
    assert(rs[i].1 != sent[i].1);
    assert(shortened(rs, sent).contains(sent[i]));
    law_repeated_history_keeps_its_fingerprint(
        first,
        repeated,
        added,
        context_window,
        context_window,
    );
    law_changed_output_changes_the_fingerprint(
        first,
        changed,
        context_window,
        context_window,
        i,
        j,
    );
}

/// The other fields of the result at `k` leave room for 256 bytes of its text.
pub open spec fn has_room_for_text(
    request: ChatRequest,
    context_window: Option<u32>,
    k: int,
) -> bool {
    let rs = responses(request.messages@);
    let budget = granted(rs, room(request, context_window), k);
    let full = bounded_result::full_envelope(rs[k].1, bounded_result::output_of(rs[k].1));
    json::json_size(json::object_text(full.fields)) + 256 <= budget
}

/// The same for the outputs of commands: a history with a command result over 32 KiB has a
/// fingerprint, keeps it when messages without tool results are added, and has another one
/// once the output of that command starts or ends with another character. The outputs have at
/// least eight bytes, the other fields leave room for 256, and calls have one result each.
pub proof fn law_fingerprint_tells_command_outputs_apart(
    first: ChatRequest,
    repeated: ChatRequest,
    added: Seq<ChatMessage>,
    changed: ChatRequest,
    context_window: Option<u32>,
    i: int,
    j: int,
    first_fields: Seq<json::FieldView>,
    first_output: Seq<char>,
    changed_fields: Seq<json::FieldView>,
    changed_output: Seq<char>,
)
    requires
        repeated.messages@ == first.messages@ + added,
        responses(added).len() == 0,
        leaves_room(first, context_window),
        leaves_room(repeated, context_window),
        trim(responses(first.messages@), room(first, context_window)).0,
        0 <= i < responses(first.messages@).len(),
        0 <= j < responses(changed.messages@).len(),
        bounded_result::written(responses(first.messages@)[i].1, first_fields, first_output),
        bounded_result::written(
            responses(changed.messages@)[j].1,
            changed_fields,
            changed_output,
        ),
        json::json_size(responses(first.messages@)[i].1) > 32 * 1024,
        responses(first.messages@)[i].0 == responses(changed.messages@)[j].0,
        forall|k: int|
            0 <= k < responses(changed.messages@).len() && (#[trigger] responses(
                changed.messages@,
            )[k]).0 == responses(changed.messages@)[j].0 ==> k == j,
        bounded_result::well_read(responses(first.messages@)[i].1),
        is_shortened(changed, context_window, j) ==> bounded_result::well_read(
            responses(changed.messages@)[j].1,
        ),
        has_room_for_text(first, context_window, i),
        has_room_for_text(changed, context_window, j),
        8 <= text::utf8_len(first_output),
        8 <= text::utf8_len(changed_output),
        first_output[0] != changed_output[0] || first_output.last() != changed_output.last(),
    ensures
        fingerprint(first, context_window).len() > 0,
        fingerprint(first, context_window) == fingerprint(repeated, context_window),
        fingerprint(first, context_window) != fingerprint(changed, context_window),
{
    let a = responses(first.messages@);
    let b = responses(changed.messages@);
    let a_budget = granted(a, room(first, context_window), i);
    let b_budget = granted(b, room(changed, context_window), j);
    if is_shortened(changed, context_window, j) {
        bounded_result::law_other_start_or_end_is_kept(
            a[i].1,
            bounded_result::output_of(a[i].1),
            a_budget,
            b[j].1,
            bounded_result::output_of(b[j].1),
            b_budget,
        );
    }
    law_fingerprint_tells_changed_output_from_repeated_history(
        first,
        repeated,
        added,
        changed,
        context_window,
        i,
        j,
    );
}

/// A request that passes carries at most 128 KiB of tool results, and at most 32 KiB in each,
/// whatever the window is said to be.
pub proof fn law_sent_requests_stay_within_limits(
    request: ChatRequest,
    context_window: Option<u32>,
    k: int,
)
    requires
        trim(responses(request.messages@), room(request, context_window)).0,
        0 <= k < responses(request.messages@).len(),
    ensures
        ({
            let sent = trim(responses(request.messages@), room(request, context_window)).1;
            &&& result_bytes(sent) <= 128 * 1024
            &&& json::json_size(sent[k].1) <= 32 * 1024
        }),
{
    law_results_stay_within_limits(
        responses(request.messages@),
        room(request, context_window),
    );
}

/// Every result goes out as it is or shortened to what it is meant to take, by the rules for
/// one result, which keep the fields by which its command is followed up.
pub proof fn law_results_are_only_shortened(rs: Seq<ResponseView>, remaining: Room, k: int)
    requires
        0 <= k < rs.len(),
    ensures
        ({
            let budget = granted(rs, remaining, k);
            let sent = trim(rs, remaining).1[k].1;
            sent == rs[k].1 || (json::json_size(rs[k].1) > budget && sent == bounded_result::bounded(
                rs[k].1,
                budget,
            ))
        }),
    decreases rs.len(),
{
    let older = rs.drop_last();
    let sent = outgoing(
            rs.last().1,
            share(older, remaining.wanted),
            share(older, remaining.limit),
        );
    let rest = room_after(older, remaining, json::json_size(sent));
    law_results_keep_their_places(older, rest);
    if k < older.len() {
        if json::json_size(sent) > share(older, remaining.limit) {
            assert(trim(rs, remaining).1[k] == rs[k]);
        } else {
            assert(trim(rs, remaining).1[k] == trim(older, rest).1[k]);
            law_results_are_only_shortened(older, rest, k);
        }
    } else {
        assert(trim(rs, remaining).1[k].1 == sent);
    }
}

/// A request is measured part by part: a tool response counts with its call and its content,
/// an attachment for 16384 bytes and with what it takes when it is serialized, and nothing else
/// counts as either.
pub proof fn law_each_part_is_measured(part: ContentPart)
    ensures
        match part {
            ContentPart::ToolResponse(response) => {
                &&& part_responses(seq![part]) == seq![(response.call_id@, response.content@)]
                &&& attachment_bytes(seq![part]) == 0
                &&& binary_bytes(seq![part]) == 0
            },
            ContentPart::Binary(binary) => {
                &&& part_responses(seq![part]) == Seq::<ResponseView>::empty()
                &&& attachment_bytes(seq![part]) == 16384
                &&& binary_bytes(seq![part]) == binary.serialized_bytes
            },
            _ => {
                &&& part_responses(seq![part]) == Seq::<ResponseView>::empty()
                &&& attachment_bytes(seq![part]) == 0
                &&& binary_bytes(seq![part]) == 0
            },
        },
{
    reveal_with_fuel(part_responses, 2);
    reveal_with_fuel(attachment_bytes, 2);
    reveal_with_fuel(binary_bytes, 2);
    assert(seq![part].drop_last() =~= Seq::<ContentPart>::empty());
    if let ContentPart::ToolResponse(response) = part {
        assert(part_responses(seq![part]) =~= seq![(response.call_id@, response.content@)]);
    }
}

/// The parts of a message, and the messages of a request, are measured one after the other.
pub proof fn law_measures_add_up(
    a: Seq<ContentPart>,
    b: Seq<ContentPart>,
    earlier: Seq<ChatMessage>,
    later: Seq<ChatMessage>,
    message: ChatMessage,
)
    ensures
        part_responses(a + b) == part_responses(a) + part_responses(b),
        attachment_bytes(a + b) == attachment_bytes(a) + attachment_bytes(b),
        binary_bytes(a + b) == binary_bytes(a) + binary_bytes(b),
        responses(earlier + later) == responses(earlier) + responses(later),
        all_parts(earlier + later) == all_parts(earlier) + all_parts(later),
        responses(seq![message]) == part_responses(message.content@),
        all_parts(seq![message]) == message.content@,
{
    lemma_part_responses_concat(a, b);
    lemma_part_sums_concat(a, b);
    lemma_responses_concat(earlier, later);
    lemma_all_parts_concat(earlier, later);
    reveal_with_fuel(responses, 2);
    reveal_with_fuel(all_parts, 2);
    assert(seq![message].drop_last() =~= Seq::<ChatMessage>::empty());
    assert(responses(seq![message]) =~= part_responses(message.content@));
    assert(all_parts(seq![message]) =~= message.content@);
}

proof fn lemma_all_parts_concat(a: Seq<ChatMessage>, b: Seq<ChatMessage>)
    ensures
        all_parts(a + b) == all_parts(a) + all_parts(b),
    decreases b.len(),
{
    if b.len() == 0 {
        assert(a + b =~= a);
        assert(all_parts(a) + all_parts(b) =~= all_parts(a));
    } else {
        lemma_all_parts_concat(a, b.drop_last());
        assert((a + b).drop_last() =~= a + b.drop_last());
        assert(all_parts(a + b) =~= all_parts(a) + all_parts(b));
    }
}

/// Results are summed up one by one: each takes what its JSON string takes on the wire, what
/// its text takes as plain text, and at least 512 bytes, or all of it where it is smaller.
pub proof fn law_results_add_up(a: Seq<ResponseView>, b: Seq<ResponseView>, one: ResponseView)
    ensures
        result_bytes(a + b) == result_bytes(a) + result_bytes(b),
        plain_bytes(a + b) == plain_bytes(a) + plain_bytes(b),
        minimum(a + b) == minimum(a) + minimum(b),
        result_bytes(seq![one]) == text::utf8_len(json::quoted(one.1)),
        plain_bytes(seq![one]) == text::utf8_len(one.1),
        text::utf8_len(json::quoted(one.1)) <= 512 ==> minimum(seq![one]) == text::utf8_len(
            json::quoted(one.1),
        ),
        text::utf8_len(json::quoted(one.1)) > 512 ==> minimum(seq![one]) == 512,
{
    lemma_sums_concat(a, b);
    reveal_with_fuel(result_bytes, 2);
    reveal_with_fuel(plain_bytes, 2);
    reveal_with_fuel(minimum, 2);
    assert(seq![one].drop_last() =~= Seq::<ResponseView>::empty());
}

/// The reserve that the window keeps for the answer is at least a quarter and at most half of
/// it, at least 8000 tokens where half of it has them, and no more than a quarter where a
/// quarter has more than 8000. A window that is not known, or zero, counts as 200000 tokens.
pub proof fn law_reserve_of_a_window(window: u32)
    requires
        window > 0,
    ensures
        ({
            let reserve = window - token_budget(Some(window));
            &&& window / 4 <= reserve <= window / 2
            &&& 8000 <= reserve || reserve == window / 2
            &&& reserve <= 8000 || reserve == window / 4
        }),
        token_budget(None) == 150000,
        token_budget(Some(0)) == 150000,
{
}

/// A request that passes stays within the budget of the window: with everything else in it,
/// 16384 bytes for each attachment, and the results that are sent. The minimal notes fit next
/// to everything else, and the control fields of each result fit into such a note.
pub proof fn law_sent_request_stays_within_the_window(
    request: ChatRequest,
    context_window: Option<u32>,
)
    requires
        passes(request, context_window),
        request.frame_bytes + attachment_bytes(all_parts(request.messages@)) + minimum(
            responses(request.messages@),
        ) <= 2 * token_budget(context_window),
        forall|k: int|
            0 <= k < responses(request.messages@).len() ==> small_control_fields(
                (#[trigger] responses(request.messages@)[k]).1,
            ),
    ensures
        request.frame_bytes + attachment_bytes(all_parts(request.messages@)) + result_bytes(
            results_sent(request, context_window),
        ) <= 2 * token_budget(context_window),
{
    let rs = responses(request.messages@);
    law_room_is_limited(request, context_window);
    law_estimates_never_fail(rs, room(request, context_window));
}

/// A request passes, whatever the window is said to be and whatever else it holds, where its
/// results are under the hard limits as they are: 32 KiB for each and 128 KiB for all.
pub proof fn law_request_under_the_limits_passes(request: ChatRequest, context_window: Option<u32>)
    requires
        result_bytes(responses(request.messages@)) <= 131072,
        forall|k: int|
            0 <= k < responses(request.messages@).len() ==> json::json_size(
                (#[trigger] responses(request.messages@)[k]).1,
            ) <= 32768,
    ensures
        passes(request, context_window),
{
    lemma_minimum_below(responses(request.messages@));
    law_results_under_the_limits_pass(
        responses(request.messages@),
        room(request, context_window),
    );
}

/// A request passes, whatever the window is said to be and whatever else it holds, where the
/// minimal notes for all results fit under 128 KiB and the control fields of each result fit
/// into such a note.
pub proof fn law_request_with_small_control_fields_passes(
    request: ChatRequest,
    context_window: Option<u32>,
)
    requires
        minimum(responses(request.messages@)) <= 131072,
        forall|k: int|
            0 <= k < responses(request.messages@).len() ==> small_control_fields(
                (#[trigger] responses(request.messages@)[k]).1,
            ),
    ensures
        passes(request, context_window),
{
    law_room_is_limited(request, context_window);
    law_estimates_never_fail(responses(request.messages@), room(request, context_window));
}

/// A request that passes carries at most 128 KiB of results and at most 32 KiB in each, with
/// every result at its place and with its call.
pub proof fn law_request_that_passes_is_limited(
    request: ChatRequest,
    context_window: Option<u32>,
    k: int,
)
    requires
        passes(request, context_window),
        0 <= k < responses(request.messages@).len(),
    ensures
        results_sent(request, context_window).len() == responses(request.messages@).len(),
        results_sent(request, context_window)[k].0 == responses(request.messages@)[k].0,
        result_bytes(results_sent(request, context_window)) <= 131072,
        text::utf8_len(json::quoted(results_sent(request, context_window)[k].1)) <= 32768,
{
    let rs = responses(request.messages@);
    law_results_stay_within_limits(rs, room(request, context_window));
    law_results_keep_their_places(rs, room(request, context_window));
}

/// Where even the minimal notes do not fit under 128 KiB, the request does not pass and its
/// results stay as they are.
pub proof fn law_too_many_results_stop_the_request(
    request: ChatRequest,
    context_window: Option<u32>,
)
    requires
        minimum(responses(request.messages@)) > 131072,
    ensures
        !passes(request, context_window),
        results_sent(request, context_window) == responses(request.messages@),
{
}

/// A request whose results fit into the window next to everything else, and under the hard
/// limits, is sent as it is.
pub proof fn law_request_that_fits_is_sent_as_it_is(
    request: ChatRequest,
    context_window: Option<u32>,
)
    requires
        2 * token_budget(context_window) <= usize::MAX,
        request.frame_bytes + attachment_bytes(all_parts(request.messages@)) + result_bytes(
            responses(request.messages@),
        ) <= 2 * token_budget(context_window),
        result_bytes(responses(request.messages@)) <= 131072,
        forall|k: int|
            0 <= k < responses(request.messages@).len() ==> json::json_size(
                (#[trigger] responses(request.messages@)[k]).1,
            ) <= 32768,
    ensures
        passes(request, context_window),
        results_sent(request, context_window) == responses(request.messages@),
        fingerprint(request, context_window).len() == 0,
{
    let rs = responses(request.messages@);
    lemma_minimum_below(rs);
    law_fitting_results_are_untouched(rs, room(request, context_window));
    lemma_nothing_shortened(rs);
}

proof fn lemma_nothing_shortened(rs: Seq<ResponseView>)
    ensures
        shortened(rs, rs).len() == 0,
    decreases rs.len(),
{
    if rs.len() > 0 {
        lemma_nothing_shortened(rs.drop_last());
    }
}

/// The latest result goes out whole where it is at most 32 KiB and there is room for it next to
/// everything else, with no more than 512 bytes held back for each older result, however large
/// those are.
pub proof fn law_latest_result_is_served_first(request: ChatRequest, context_window: Option<u32>)
    requires
        responses(request.messages@).len() > 0,
        minimum(responses(request.messages@)) <= 131072,
        2 * token_budget(context_window) <= usize::MAX,
        ({
            let rs = responses(request.messages@);
            let size = json::json_size(rs.last().1);
            let held = 512 * (rs.len() - 1);
            &&& size <= 32768
            &&& size + held <= 131072
            &&& request.frame_bytes + attachment_bytes(all_parts(request.messages@)) + size + held
                <= 2 * token_budget(context_window)
        }),
    ensures
        results_sent(request, context_window).last() == responses(request.messages@).last(),
{
    let rs = responses(request.messages@);
    lemma_minimum_below(rs.drop_last());
}

/// A command whose id cannot be kept within 32 KiB stops the request, instead of going out
/// without its id.
pub proof fn law_lost_command_id_stops_the_request(
    request: ChatRequest,
    context_window: Option<u32>,
    k: int,
    value: Seq<char>,
)
    requires
        0 <= k < responses(request.messages@).len(),
        bounded_result::output_of(responses(request.messages@)[k].1) is Some,
        json::get_field(
            json::json_object(responses(request.messages@)[k].1)->0,
            "command_id"@,
        ) == Some(value),
        text::utf8_len(value) > 32768,
        json::json_size(responses(request.messages@)[k].1) > 32768,
    ensures
        !passes(request, context_window),
{
    let rs = responses(request.messages@);
    let content = rs[k].1;
    if passes(request, context_window) {
        let sent = results_sent(request, context_window)[k].1;
        law_request_that_passes_is_limited(request, context_window, k);
        law_results_are_only_shortened(rs, room(request, context_window), k);
        let budget = granted(rs, room(request, context_window), k);
        let fields = bounded_result::bounded_fields(content, budget);
        assert(sent == json::object_text(fields));
        assert(bounded_result::is_control_field("command_id"@));
        bounded_result::law_control_fields_survive(content, budget, "command_id"@);
        bounded_result::lemma_field_takes_room(fields, "command_id"@);
    }
}

/// A fingerprint lists the results that do not go out as they are, as they go out, the latest
/// one first, and nothing else.
pub proof fn law_fingerprint_lists_what_was_shortened(
    before: Seq<ResponseView>,
    after: Seq<ResponseView>,
    b: ResponseView,
    a: ResponseView,
)
    requires
        before.len() == after.len(),
    ensures
        b.1 == a.1 ==> shortened(before.push(b), after.push(a)) == shortened(before, after),
        b.1 != a.1 ==> shortened(before.push(b), after.push(a)) == seq![a] + shortened(
            before,
            after,
        ),
        shortened(Seq::empty(), Seq::empty()).len() == 0,
{
    assert(before.push(b).drop_last() =~= before);
    assert(after.push(a).drop_last() =~= after);
}

/// Every two bytes count for a token, and so does a last one: the estimate is half of what the
/// frame, the results and 16384 bytes for each attachment make up, rounded up.
pub proof fn law_two_bytes_make_a_token(request: ChatRequest)
    requires
        request.frame_bytes + result_bytes(responses(request.messages@)) + attachment_bytes(
            all_parts(request.messages@),
        ) <= usize::MAX,
    ensures
        ({
            let bytes = request.frame_bytes + result_bytes(responses(request.messages@))
                + attachment_bytes(all_parts(request.messages@));
            2 * token_estimate(request) == bytes || 2 * token_estimate(request) == bytes + 1
        }),
{
}

/// The size of a serialized request and its frame determine each other.
pub proof fn law_frame_is_what_the_whole_leaves(request: ChatRequest)
    requires
        request.frame_bytes + result_bytes(responses(request.messages@)) + binary_bytes(
            all_parts(request.messages@),
        ) <= usize::MAX,
    ensures
        whole_bytes(request) == request.frame_bytes + result_bytes(responses(request.messages@))
            + binary_bytes(all_parts(request.messages@)),
        frame_of(whole_bytes(request), request.messages@) == request.frame_bytes,
{
}

/// Sums that do not fit into the machine's numbers stop at the greatest one.
pub proof fn law_sums_stop_at_the_greatest_number(v: nat)
    ensures
        v <= usize::MAX ==> capped(v) == v,
        v > usize::MAX ==> capped(v) == usize::MAX,
{
}

/// A report counts the results that do not go out as they are, and the bytes of all results as
/// plain text, before and after.
pub proof fn law_what_is_reported(request: ChatRequest, context_window: Option<u32>)
    requires
        passes(request, context_window),
        plain_bytes(responses(request.messages@)) <= usize::MAX,
    ensures
        ({
            let rs = responses(request.messages@);
            let sent = results_sent(request, context_window);
            &&& reported(request, context_window).0 == shortened(rs, sent).len()
            &&& reported(request, context_window).1 == plain_bytes(rs)
            &&& reported(request, context_window).2 == plain_bytes(sent)
            &&& reported(request, context_window).0 == 0 <==> sent == rs
        }),
{
    let rs = responses(request.messages@);
    let sent = results_sent(request, context_window);
    law_results_keep_their_places(rs, room(request, context_window));
    if sent == rs {
        lemma_nothing_shortened(rs);
    } else {
        lemma_shortened_lists(rs, sent);
        assert(exists|k: int| 0 <= k < rs.len() && rs[k] != sent[k]) by {
            if forall|k: int| 0 <= k < rs.len() ==> rs[k] == sent[k] {
                assert(sent =~= rs);
            }
        }
        let k = choose|k: int| 0 <= k < rs.len() && rs[k] != sent[k];
        assert(sent[k].0 == rs[k].0);
        assert(rs[k].1 != sent[k].1);
        assert(shortened(rs, sent).contains(sent[k]));
    }
}

} // verus!
