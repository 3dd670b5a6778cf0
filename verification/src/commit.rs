//! Writes a finished summary into the state of a conversation.

use vstd::prelude::*;
use crate::message;
use crate::message::{Message, MessageBody};
use crate::plan;
use crate::plan::CompactionPlan;
use crate::state;
use crate::state::{CompactionState, CompletedCompaction};
use crate::text;
use crate::text::{copy_option, copy_texts, is_blank, no_text};

verus! {

/// A conversation: its messages in the order in which a request replays them, and what it
/// remembers of its summaries.
#[derive(Debug, Clone)]
pub struct AIConversation {
    pub messages: Vec<Message>,
    pub compaction_state: CompactionState,
}

/// A question with the request and the text of an earlier one: the copy that a subtask
/// holds of it.
pub open spec fn repeats(earlier: Seq<message::MessageView>, m: message::MessageView) -> bool {
    m.request_id.len() > 0 && exists|k: int|
        0 <= k < earlier.len() && same_question(#[trigger] earlier[k], m)
}

pub open spec fn same_question(a: message::MessageView, b: message::MessageView) -> bool {
    match (a.body, b.body) {
        (
            Some(message::BodyView::UserQuery { query: x }),
            Some(message::BodyView::UserQuery { query: y }),
        ) => a.request_id == b.request_id && x == y,
        _ => false,
    }
}

/// The messages without the copies of questions.
pub open spec fn without_copies(messages: Seq<message::MessageView>) -> Seq<message::MessageView>
    decreases messages.len(),
{
    if messages.len() == 0 {
        messages
    } else {
        let earlier = messages.drop_last();
        if repeats(earlier, messages.last()) {
            without_copies(earlier)
        } else {
            without_copies(earlier).push(messages.last())
        }
    }
}

/// The message came with the answer to the request for the summary.
pub open spec fn from_summary(
    p: plan::PlanView,
    request_id: Seq<char>,
    m: message::MessageView,
) -> bool {
    m.request_id == request_id && !p.original_message_ids.contains(m.id)
}

/// What the request for the summary brought.
pub open spec fn produced(
    p: plan::PlanView,
    request_id: Seq<char>,
    messages: Seq<message::MessageView>,
) -> Seq<message::MessageView> {
    messages.filter(|m: message::MessageView| from_summary(p, request_id, m))
}

pub open spec fn uses_tools(m: message::MessageView) -> bool {
    match m.body {
        Some(message::BodyView::ToolCall { .. }) => true,
        Some(message::BodyView::ToolCallResult { .. }) => true,
        _ => false,
    }
}

/// The text of a message of the agent that says something.
pub open spec fn says(m: message::MessageView) -> Option<Seq<char>> {
    match m.body {
        Some(message::BodyView::AgentOutput { text }) => if text::blank(text) {
            None
        } else {
            Some(text)
        },
        _ => None,
    }
}

/// The messages of the agent that say something.
pub open spec fn statements(messages: Seq<message::MessageView>) -> Seq<message::MessageView> {
    messages.filter(|m: message::MessageView| says(m) is Some)
}

/// A message that belongs to the summary: its text, or the thoughts behind it.
pub open spec fn carries_summary(m: message::MessageView) -> bool {
    match m.body {
        Some(message::BodyView::AgentOutput { .. }) => true,
        Some(message::BodyView::AgentReasoning { .. }) => true,
        _ => false,
    }
}

/// The texts of these messages, one paragraph each.
pub open spec fn paragraphs(messages: Seq<message::MessageView>) -> Seq<char>
    decreases messages.len(),
{
    if messages.len() == 0 {
        Seq::empty()
    } else {
        let text = match says(messages.last()) {
            Some(t) => t,
            None => Seq::empty(),
        };
        if messages.len() == 1 {
            text
        } else {
            paragraphs(messages.drop_last()) + "\n\n"@ + text
        }
    }
}

/// The request brought a summary for the plan, and the history is still the one that was
/// planned for.
pub open spec fn summarized(
    p: plan::PlanView,
    request_id: Seq<char>,
    messages: Seq<message::MessageView>,
    completed: Seq<state::CompletedView>,
) -> bool {
    let history = without_copies(messages);
    let brought = produced(p, request_id, history);
    &&& request_id.len() > 0
    &&& plan::current(p, history, completed)
    &&& forall|k: int| 0 <= k < brought.len() ==> !uses_tools(#[trigger] brought[k])
    &&& statements(brought).len() > 0
}

/// What is remembered of the summary.
pub open spec fn summary_of(
    p: plan::PlanView,
    request_id: Seq<char>,
    messages: Seq<message::MessageView>,
    overflow: bool,
) -> state::CompletedView {
    let brought = produced(p, request_id, without_copies(messages));
    state::CompletedView {
        user_msg_id: p.anchor_message_id,
        assistant_msg_id: statements(brought).last().id,
        summary_message_ids: plan::message_ids(
            brought.filter(|m: message::MessageView| carries_summary(m)),
        ),
        head_message_ids: p.head_message_ids,
        tail_start_id: p.tail_start_id,
        summary_text: Some(paragraphs(statements(brought))),
        auto: overflow,
        overflow,
    }
}

fn is_repeat(messages: &Vec<Message>, i: usize) -> (r: bool)
    requires
        i < messages.len(),
    ensures
        r == repeats(
            message::message_views(messages@).take(i as int),
            message::message_views(messages@)[i as int],
        ),
{
    let ghost views = message::message_views(messages@);
    let ghost earlier = views.take(i as int);
    let query: &String = match &messages[i].body {
        Some(MessageBody::UserQuery { query }) => query,
        _ => {
            return false;
        },
    };
    if no_text(messages[i].request_id.as_str()) {
        return false;
    }
    let mut k: usize = 0;
    while k < i
        invariant
            k <= i < messages.len(),
            views == message::message_views(messages@),
            earlier == views.take(i as int),
            messages@[i as int].body == Some(MessageBody::UserQuery { query: *query }),
            views[i as int].request_id.len() > 0,
            forall|j: int| 0 <= j < k ==> !same_question(#[trigger] earlier[j], views[i as int]),
        decreases i - k,
    {
        assert(earlier[k as int] == messages@[k as int]@);
        if let Some(MessageBody::UserQuery { query: other }) = &messages[k].body {
            if messages[k].request_id == messages[i].request_id && *other == *query {
                assert(same_question(earlier[k as int], views[i as int]));
                return true;
            }
        }
        k += 1;
    }
    false
}

/// The messages of the conversation, without the copies of questions.
fn history_of(messages: &Vec<Message>) -> (r: Vec<Message>)
    ensures
        message::message_views(r@) == without_copies(message::message_views(messages@)),
{
    let ghost views = message::message_views(messages@);
    let mut history: Vec<Message> = Vec::new();
    let mut i: usize = 0;
    assert(views.take(0) =~= Seq::empty());
    assert(message::message_views(history@) =~= Seq::empty());
    while i < messages.len()
        invariant
            i <= messages.len(),
            views == message::message_views(messages@),
            message::message_views(history@) == without_copies(views.take(i as int)),
        decreases messages.len() - i,
    {
        proof {
            assert(views.take(i + 1).drop_last() =~= views.take(i as int));
            assert(views.take(i + 1).last() == views[i as int]);
        }
        if !is_repeat(messages, i) {
            let ghost before = history@;
            history.push(messages[i].clone());
            assert(message::message_views(history@) =~= message::message_views(before).push(
                views[i as int],
            ));
        }
        i += 1;
    }
    assert(views.take(i as int) =~= views);
    history
}

/// What one pass over the messages of a summary has found.
struct Found {
    uses_tools: bool,
    assistant_id: Option<String>,
    summary_ids: Vec<String>,
    text: String,
}

spec fn found(f: Found, brought: Seq<message::MessageView>) -> bool {
    let said = statements(brought);
    &&& f.uses_tools == exists|k: int|
        0 <= k < brought.len() && uses_tools(#[trigger] brought[k])
    &&& f.assistant_id is Some <==> said.len() > 0
    &&& said.len() > 0 ==> f.assistant_id->0@ == said.last().id
    &&& text::texts(f.summary_ids@) == plan::message_ids(
        brought.filter(|m: message::MessageView| carries_summary(m)),
    )
    &&& f.text@ == paragraphs(said)
}

proof fn lemma_filter_push(
    s: Seq<message::MessageView>,
    m: message::MessageView,
    keep: spec_fn(message::MessageView) -> bool,
)
    ensures
        s.push(m).filter(keep) == (if keep(m) {
            s.filter(keep).push(m)
        } else {
            s.filter(keep)
        }),
{
    reveal(Seq::filter);
    assert(s.push(m).drop_last() =~= s);
}

fn look_at(f: Found, m: &Message, Ghost(brought): Ghost<Seq<message::MessageView>>) -> (r: Found)
    requires
        found(f, brought),
    ensures
        found(r, brought.push(m@)),
{
    let mut f: Found = f;
    let ghost start = f;
    let ghost after = brought.push(m@);
    let ghost said = statements(brought);
    proof {
        lemma_filter_push(brought, m@, |m: message::MessageView| says(m) is Some);
        lemma_filter_push(brought, m@, |m: message::MessageView| carries_summary(m));
        assert forall|k: int| 0 <= k < brought.len() implies after[k] == brought[k] by {}
        assert(after[brought.len() as int] == m@);
        if start.uses_tools {
            let k = choose|k: int| 0 <= k < brought.len() && uses_tools(#[trigger] brought[k]);
            assert(uses_tools(after[k]));
        }
    }
    match &m.body {
        Some(MessageBody::ToolCall { .. }) | Some(MessageBody::ToolCallResult { .. }) => {
            f.uses_tools = true;
            assert(uses_tools(after[brought.len() as int]));
        },
        Some(MessageBody::AgentOutput { text }) => {
            f.summary_ids.push(m.id.clone());
            assert(text::texts(f.summary_ids@) =~= text::texts(start.summary_ids@).push(m@.id));
            assert(plan::message_ids(after.filter(|m: message::MessageView| carries_summary(m)))
                =~= plan::message_ids(
                brought.filter(|m: message::MessageView| carries_summary(m)),
            ).push(m@.id));
            if !is_blank(text.as_str()) {
                proof {
                    assert(said.push(m@).drop_last() =~= said);
                }
                if f.assistant_id.is_some() {
                    f.text.append("\n\n");
                    f.text.append(text.as_str());
                } else {
                    f.text = text.clone();
                }
                f.assistant_id = Some(m.id.clone());
            }
        },
        Some(MessageBody::AgentReasoning { .. }) => {
            f.summary_ids.push(m.id.clone());
            assert(text::texts(f.summary_ids@) =~= text::texts(start.summary_ids@).push(m@.id));
            assert(plan::message_ids(after.filter(|m: message::MessageView| carries_summary(m)))
                =~= plan::message_ids(
                brought.filter(|m: message::MessageView| carries_summary(m)),
            ).push(m@.id));
        },
        _ => {},
    }
    f
}

/// Looks at everything that the request for the summary brought.
fn look_through(history: &Vec<Message>, plan: &CompactionPlan, request_id: &String) -> (r: Found)
    ensures
        found(r, produced(plan@, request_id@, message::message_views(history@))),
{
    let ghost views = message::message_views(history@);
    let ghost keep = |m: message::MessageView| from_summary(plan@, request_id@, m);
    let mut f: Found = Found {
        uses_tools: false,
        assistant_id: None,
        summary_ids: Vec::new(),
        text: String::new(),
    };
    let mut i: usize = 0;
    proof {
        reveal(Seq::filter);
        assert(views.take(0) =~= Seq::empty());
        assert(text::texts(f.summary_ids@) =~= Seq::empty());
        assert(plan::message_ids(Seq::empty()) =~= Seq::empty());
        assert(f.text@ =~= Seq::empty());
    }
    while i < history.len()
        invariant
            i <= history.len(),
            views == message::message_views(history@),
            keep == (|m: message::MessageView| from_summary(plan@, request_id@, m)),
            found(f, views.take(i as int).filter(keep)),
        decreases history.len() - i,
    {
        proof {
            assert(views[i as int] == history@[i as int]@);
            assert(views.take(i + 1) =~= views.take(i as int).push(views[i as int]));
            lemma_filter_push(views.take(i as int), views[i as int], keep);
        }
        if history[i].request_id == *request_id && plan.is_new_message(&history[i].id) {
            f = look_at(f, &history[i], Ghost(views.take(i as int).filter(keep)));
        }
        i += 1;
    }
    assert(views.take(i as int) =~= views);
    f
}

/// What taking over a summary leaves behind.
pub open spec fn taken_over(
    before: AIConversation,
    after: AIConversation,
    p: plan::PlanView,
    request_id: Seq<char>,
    overflow: bool,
    r: bool,
) -> bool {
    let messages = message::message_views(before.messages@);
    let old_list = state::completed_views(before.compaction_state.completed@);
    let new_list = state::completed_views(after.compaction_state.completed@);
    &&& after.messages == before.messages
    &&& after.compaction_state.markers == before.compaction_state.markers
    &&& after.compaction_state.pending_recovery == before.compaction_state.pending_recovery
    &&& after.compaction_state.retained_recoveries == before.compaction_state.retained_recoveries
    &&& r == summarized(p, request_id, messages, old_list)
    &&& new_list == (if r {
        old_list.push(summary_of(p, request_id, messages, overflow))
    } else {
        old_list
    })
}

/// What pruning leaves behind.
pub open spec fn pruned(
    before: AIConversation,
    after: AIConversation,
    prune: bool,
    decisions: Seq<PruneDecision>,
    now_ms: u64,
    r: usize,
) -> bool {
    let old_marks = state::marker_views(before.compaction_state.markers@);
    let new_marks = state::marker_views(after.compaction_state.markers@);
    &&& after.messages == before.messages
    &&& after.compaction_state.completed == before.compaction_state.completed
    &&& after.compaction_state.pending_recovery == before.compaction_state.pending_recovery
    &&& after.compaction_state.retained_recoveries == before.compaction_state.retained_recoveries
    &&& if !prune || before.messages@.len() == 0 {
        r == 0 && after.compaction_state.markers == before.compaction_state.markers
    } else {
        &&& r == decisions.len()
        &&& forall|id: Seq<char>| #[trigger]
            state::compacted_at(new_marks, id) == (if decided(decisions, id) {
                Some(now_ms)
            } else {
                state::compacted_at(old_marks, id)
            })
    }
}

/// Takes over the summary that the request `request_id` brought for `plan`, and tells
/// whether there was one.
///
/// An empty answer, an old answer, a history that has changed and a second end of the same
/// request change nothing.
pub fn commit_summarization(
    conversation: &mut AIConversation,
    plan: &CompactionPlan,
    request_id: &String,
    overflow: bool,
) -> (r: bool)
    ensures
        taken_over(*old(conversation), *final(conversation), plan@, request_id@, overflow, r),
        final(conversation).messages == old(conversation).messages,
        final(conversation).compaction_state.markers == old(conversation).compaction_state.markers,
        final(conversation).compaction_state.pending_recovery == old(
            conversation,
        ).compaction_state.pending_recovery,
        final(conversation).compaction_state.retained_recoveries == old(
            conversation,
        ).compaction_state.retained_recoveries,
        ({
            let messages = message::message_views(old(conversation).messages@);
            let before = state::completed_views(old(conversation).compaction_state.completed@);
            let after = state::completed_views(final(conversation).compaction_state.completed@);
            &&& r == summarized(plan@, request_id@, messages, before)
            &&& after == (if r {
                before.push(summary_of(plan@, request_id@, messages, overflow))
            } else {
                before
            })
        }),
{
    let history: Vec<Message> = history_of(&conversation.messages);
    if no_text(request_id.as_str()) || !plan.is_current(&history, &conversation.compaction_state) {
        return false;
    }
    let f: Found = look_through(&history, plan, request_id);
    if f.uses_tools {
        return false;
    }
    match f.assistant_id {
        None => false,
        Some(assistant_msg_id) => {
            let completed: CompletedCompaction = CompletedCompaction {
                user_msg_id: plan.anchor_message_id().clone(),
                assistant_msg_id,
                summary_message_ids: f.summary_ids,
                head_message_ids: copy_texts(plan.head_message_ids()),
                tail_start_id: copy_option(plan.tail_start_id()),
                summary_text: Some(f.text),
                auto: overflow,
                overflow,
            };
            let ghost list = conversation.compaction_state.completed@;
            conversation.compaction_state.push_completed(completed);
            assert(state::completed_views(conversation.compaction_state.completed@)
                =~= state::completed_views(list).push(completed@));
            true
        },
    }
}

/// A tool output that is to be replaced by a placeholder.
#[derive(Debug, Clone, PartialEq, Eq)]
pub struct PruneDecision {
    /// The message that holds the output.
    pub message_id: String,
    pub tool_call_id: String,
}

/// One of the decisions is about this message.
pub open spec fn decided(decisions: Seq<PruneDecision>, id: Seq<char>) -> bool {
    exists|k: int| 0 <= k < decisions.len() && (#[trigger] decisions[k]).message_id@ == id
}

/// Marks the tool outputs that are to be replaced when a request is built, and returns how
/// many there are. Nothing happens where pruning is off or there are no messages.
pub fn prune_now(
    conversation: &mut AIConversation,
    prune: bool,
    decisions: &Vec<PruneDecision>,
    now_ms: u64,
) -> (r: usize)
    ensures
        pruned(*old(conversation), *final(conversation), prune, decisions@, now_ms, r),
        final(conversation).messages == old(conversation).messages,
        final(conversation).compaction_state.completed == old(
            conversation,
        ).compaction_state.completed,
        final(conversation).compaction_state.pending_recovery == old(
            conversation,
        ).compaction_state.pending_recovery,
        final(conversation).compaction_state.retained_recoveries == old(
            conversation,
        ).compaction_state.retained_recoveries,
        if !prune || old(conversation).messages@.len() == 0 {
            &&& r == 0
            &&& final(conversation).compaction_state.markers == old(
                conversation,
            ).compaction_state.markers
        } else {
            &&& r == decisions@.len()
            &&& forall|id: Seq<char>| #[trigger]
                state::compacted_at(
                    state::marker_views(final(conversation).compaction_state.markers@),
                    id,
                ) == (if decided(decisions@, id) {
                    Some(now_ms)
                } else {
                    state::compacted_at(
                        state::marker_views(old(conversation).compaction_state.markers@),
                        id,
                    )
                })
        },
{
    if !prune || conversation.messages.len() == 0 {
        return 0;
    }
    let ghost before = state::marker_views(conversation.compaction_state.markers@);
    let mut i: usize = 0;
    while i < decisions.len()
        invariant
            i <= decisions.len(),
            conversation.messages == old(conversation).messages,
            conversation.compaction_state.completed == old(conversation).compaction_state.completed,
            conversation.compaction_state.pending_recovery == old(
                conversation,
            ).compaction_state.pending_recovery,
            conversation.compaction_state.retained_recoveries == old(
                conversation,
            ).compaction_state.retained_recoveries,
            forall|id: Seq<char>| #[trigger]
                state::compacted_at(
                    state::marker_views(conversation.compaction_state.markers@),
                    id,
                ) == (if decided(decisions@.take(i as int), id) {
                    Some(now_ms)
                } else {
                    state::compacted_at(before, id)
                }),
        decreases decisions.len() - i,
    {
        let ghost earlier = state::marker_views(conversation.compaction_state.markers@);
        conversation.compaction_state.mark_tool_compacted(decisions[i].message_id.clone(), now_ms);
        proof {
            let seen = decisions@.take(i as int);
            let now = decisions@.take(i + 1);
            assert forall|id: Seq<char>| #[trigger]
                state::compacted_at(
                    state::marker_views(conversation.compaction_state.markers@),
                    id,
                ) == (if decided(now, id) {
                    Some(now_ms)
                } else {
                    state::compacted_at(before, id)
                }) by {
                assert(state::compacted_at(earlier, id) == (if decided(seen, id) {
                    Some(now_ms)
                } else {
                    state::compacted_at(before, id)
                }));
                if decided(seen, id) {
                    let k = choose|k: int|
                        0 <= k < seen.len() && (#[trigger] seen[k]).message_id@ == id;
                    assert(now[k].message_id@ == id);
                }
                if decided(now, id) {
                    let k = choose|k: int|
                        0 <= k < now.len() && (#[trigger] now[k]).message_id@ == id;
                    if k < i {
                        assert(seen[k].message_id@ == id);
                    }
                }
                if decisions@[i as int].message_id@ == id {
                    assert(now[i as int].message_id@ == id);
                }
            }
        }
        i += 1;
    }
    assert(decisions@.take(i as int) =~= decisions@);
    decisions.len()
}

proof fn lemma_filter_within(
    s: Seq<message::MessageView>,
    keep: spec_fn(message::MessageView) -> bool,
)
    ensures
        forall|m: message::MessageView| #[trigger]
            s.filter(keep).contains(m) <==> s.contains(m) && keep(m),
    decreases s.len(),
{
    reveal(Seq::filter);
    if s.len() > 0 {
        let rest = s.drop_last();
        lemma_filter_within(rest, keep);
        lemma_filter_push(rest, s.last(), keep);
        assert(rest.push(s.last()) =~= s);
        assert forall|m: message::MessageView| #[trigger]
            s.filter(keep).contains(m) <==> s.contains(m) && keep(m) by {
            let old_part = rest.filter(keep);
            if old_part.contains(m) {
                let k = choose|k: int| 0 <= k < old_part.len() && old_part[k] == m;
                assert(s.filter(keep)[k] == m);
            }
            if rest.contains(m) {
                let k = choose|k: int| 0 <= k < rest.len() && rest[k] == m;
                assert(s[k] == m);
            }
            if s.contains(m) {
                let k = choose|k: int| 0 <= k < s.len() && s[k] == m;
                if k < rest.len() {
                    assert(rest[k] == m);
                } else if keep(m) {
                    assert(s.filter(keep)[old_part.len() as int] == m);
                }
            }
            if s.filter(keep).contains(m) {
                let all = s.filter(keep);
                let k = choose|k: int| 0 <= k < all.len() && all[k] == m;
                if k < old_part.len() {
                    assert(old_part[k] == m);
                } else {
                    assert(s[s.len() - 1] == m);
                }
            }
        }
    }
}

/// A summary is taken over once. When the same request ends a second time, the plan is no
/// longer current. The one exception is a summary that is told from the one before it neither
/// by its message nor by its text.
pub proof fn law_summary_is_committed_once(
    p: plan::PlanView,
    request_id: Seq<char>,
    messages: Seq<message::MessageView>,
    completed: Seq<state::CompletedView>,
    overflow: bool,
)
    requires
        summarized(p, request_id, messages, completed),
        state::latest_summary_id(completed) != Some(
            summary_of(p, request_id, messages, overflow).assistant_msg_id,
        ) || state::latest_summary(completed) != summary_of(
            p,
            request_id,
            messages,
            overflow,
        ).summary_text,
    ensures
        !summarized(
            p,
            request_id,
            messages,
            completed.push(summary_of(p, request_id, messages, overflow)),
        ),
{
}

/// A summary hides the messages of its range and the messages that carry it, and no other.
pub proof fn law_commit_hides_range_and_summary_only(
    p: plan::PlanView,
    request_id: Seq<char>,
    messages: Seq<message::MessageView>,
    completed: Seq<state::CompletedView>,
    overflow: bool,
    id: Seq<char>,
)
    ensures
        state::hidden(
            completed.push(summary_of(p, request_id, messages, overflow)),
            id,
        ) <==> state::hidden(completed, id) || p.head_message_ids.contains(id) || exists|
            m: message::MessageView,
        |
            #![trigger without_copies(messages).contains(m)]
            without_copies(messages).contains(m) && from_summary(p, request_id, m)
                && carries_summary(m) && m.id == id,
{
    let summary = summary_of(p, request_id, messages, overflow);
    let after = completed.push(summary);
    let history = without_copies(messages);
    let brought = produced(p, request_id, history);
    let carriers = brought.filter(|m: message::MessageView| carries_summary(m));
    lemma_filter_within(brought, |m: message::MessageView| carries_summary(m));
    lemma_filter_within(history, |m: message::MessageView| from_summary(p, request_id, m));
    if state::hidden(completed, id) {
        let k = choose|k: int|
            0 <= k < completed.len() && state::hides(#[trigger] completed[k], id);
        assert(state::hides(after[k], id));
    }
    if state::hidden(after, id) {
        let k = choose|k: int| 0 <= k < after.len() && state::hides(#[trigger] after[k], id);
        if k < completed.len() {
            assert(state::hides(completed[k], id));
        }
    }
    if state::hides(summary, id) {
        assert(state::hides(after[completed.len() as int], id));
        if summary.summary_message_ids.contains(id) {
            let k = choose|k: int|
                0 <= k < summary.summary_message_ids.len() && summary.summary_message_ids[k] == id;
            assert(carriers.contains(carriers[k]));
            assert(history.contains(carriers[k]));
        }
    }
    if exists|m: message::MessageView|
        #![trigger history.contains(m)]
        history.contains(m) && from_summary(p, request_id, m) && carries_summary(m) && m.id == id {
        let m = choose|m: message::MessageView|
            #![trigger history.contains(m)]
            history.contains(m) && from_summary(p, request_id, m) && carries_summary(m) && m.id
                == id;
        assert(brought.contains(m));
        assert(carriers.contains(m));
        let k = choose|k: int| 0 <= k < carriers.len() && carriers[k] == m;
        assert(summary.summary_message_ids[k] == id);
        assert(state::hides(after[completed.len() as int], id));
    }
}

/// A message that was there when the plan was made and stands behind its range stays
/// visible.
pub proof fn law_tail_stays_visible(
    p: plan::PlanView,
    request_id: Seq<char>,
    messages: Seq<message::MessageView>,
    completed: Seq<state::CompletedView>,
    overflow: bool,
    id: Seq<char>,
)
    requires
        p.original_message_ids.contains(id),
        !p.head_message_ids.contains(id),
        !state::hidden(completed, id),
    ensures
        !state::hidden(completed.push(summary_of(p, request_id, messages, overflow)), id),
{
    law_commit_hides_range_and_summary_only(p, request_id, messages, completed, overflow, id);
}

/// A summary that arrives for a plan is taken over: the messages that came since, none of
/// them a copy of a question, hold an answer to the request that says something and call no
/// tool.
pub proof fn law_answer_to_a_plan_is_taken_over(
    messages: Seq<message::MessageView>,
    later: Seq<message::MessageView>,
    completed: Seq<state::CompletedView>,
    end: int,
    max_output: usize,
    request_id: Seq<char>,
    answer: int,
)
    requires
        plan::distinct_ids(messages),
        0 < end <= messages.len(),
        forall|i: int, j: int|
            0 <= i < messages.len() && 0 <= j < later.len() ==> (#[trigger] messages[i]).id != (
            #[trigger] later[j]).id,
        without_copies(messages + later) == messages + later,
        request_id.len() > 0,
        0 <= answer < later.len(),
        later[answer].request_id == request_id,
        says(later[answer]) is Some,
        forall|j: int|
            0 <= j < later.len() && (#[trigger] later[j]).request_id == request_id ==> !uses_tools(
                later[j],
            ),
    ensures
        summarized(
            plan::plan_for(messages, completed, end, max_output),
            request_id,
            messages + later,
            completed,
        ),
{
    let p = plan::plan_for(messages, completed, end, max_output);
    let all = messages + later;
    let brought = produced(p, request_id, all);
    plan::law_plan_survives_later_messages(messages, later, completed, end, max_output);
    lemma_filter_within(all, |m: message::MessageView| from_summary(p, request_id, m));
    lemma_filter_within(brought, |m: message::MessageView| says(m) is Some);
    assert forall|k: int| 0 <= k < brought.len() implies !uses_tools(#[trigger] brought[k]) by {
        assert(brought.contains(brought[k]));
        let i = choose|i: int| 0 <= i < all.len() && all[i] == brought[k];
        if i < messages.len() {
            assert(p.original_message_ids[i] == messages[i].id);
        } else {
            assert(later[i - messages.len()] == brought[k]);
        }
    }
    let m = later[answer];
    assert(all[messages.len() + answer] == m);
    assert(all.contains(m));
    assert(!p.original_message_ids.contains(m.id)) by {
        if p.original_message_ids.contains(m.id) {
            let i = choose|i: int|
                0 <= i < p.original_message_ids.len() && p.original_message_ids[i] == m.id;
            assert(p.original_message_ids[i] == messages[i].id);
        }
    }
    assert(brought.contains(m));
    assert(statements(brought).contains(m));
}

/// A message is left out as a copy exactly where it is a question of the user under a request
/// that has an id, and an earlier question has the same request and the same text.
pub proof fn law_only_copies_of_questions_are_left_out(
    messages: Seq<message::MessageView>,
    m: message::MessageView,
)
    ensures
        without_copies(Seq::empty()).len() == 0,
        without_copies(messages.push(m)) == (if m.request_id.len() > 0 && m.body is Some
            && m.body->0 is UserQuery && exists|k: int|
            0 <= k < messages.len() && (#[trigger] messages[k]).request_id == m.request_id
                && messages[k].body == m.body {
            without_copies(messages)
        } else {
            without_copies(messages).push(m)
        }),
{
    assert(messages.push(m).drop_last() =~= messages);
    if exists|k: int|
        0 <= k < messages.len() && (#[trigger] messages[k]).request_id == m.request_id
            && messages[k].body == m.body {
        let k = choose|k: int|
            0 <= k < messages.len() && (#[trigger] messages[k]).request_id == m.request_id
                && messages[k].body == m.body;
        if m.body is Some && m.body->0 is UserQuery {
            assert(same_question(messages[k], m));
        }
    }
    if repeats(messages, m) {
        let k = choose|k: int|
            0 <= k < messages.len() && same_question(#[trigger] messages[k], m);
        assert(messages[k].request_id == m.request_id && messages[k].body == m.body);
    }
}

/// A history in which no two questions of the user agree in both request and text is left as it
/// is, however often a text comes again under other requests.
pub proof fn law_questions_of_different_requests_stay(messages: Seq<message::MessageView>)
    requires
        forall|i: int, j: int|
            0 <= i < j < messages.len() && (#[trigger] messages[i]).body is Some
                && messages[i].body->0 is UserQuery && (#[trigger] messages[j]).body
                == messages[i].body ==> messages[i].request_id != messages[j].request_id
                || messages[j].request_id.len() == 0,
    ensures
        without_copies(messages) == messages,
    decreases messages.len(),
{
    if messages.len() > 0 {
        let rest = messages.drop_last();
        let m = messages[messages.len() - 1];
        assert forall|i: int, j: int|
            0 <= i < j < rest.len() && (#[trigger] rest[i]).body is Some
                && rest[i].body->0 is UserQuery && (#[trigger] rest[j]).body
                == rest[i].body implies rest[i].request_id != rest[j].request_id
            || rest[j].request_id.len() == 0 by {
            assert(rest[i] == messages[i] && rest[j] == messages[j]);
        }
        law_questions_of_different_requests_stay(rest);
        assert(rest.push(m) =~= messages);
        law_only_copies_of_questions_are_left_out(rest, m);
        if m.request_id.len() > 0 && m.body is Some && m.body->0 is UserQuery && exists|k: int|
            0 <= k < rest.len() && (#[trigger] rest[k]).request_id == m.request_id && rest[k].body
                == m.body {
            let k = choose|k: int|
                0 <= k < rest.len() && (#[trigger] rest[k]).request_id == m.request_id
                    && rest[k].body == m.body;
            assert(messages[k].body == m.body);
        }
    }
}

/// A summary is taken over exactly where the request has an id, the plan is current, and the
/// request brought, among what was not there when the plan was made, a text of the agent that
/// is not blank and neither a tool call nor a tool result.
pub proof fn law_which_answers_are_taken_over(
    p: plan::PlanView,
    request_id: Seq<char>,
    messages: Seq<message::MessageView>,
    completed: Seq<state::CompletedView>,
)
    ensures
        ({
            let history = without_copies(messages);
            summarized(p, request_id, messages, completed) <==> {
                &&& request_id.len() > 0
                &&& plan::current(p, history, completed)
                &&& forall|k: int|
                    0 <= k < history.len() && (#[trigger] history[k]).request_id == request_id
                        && !p.original_message_ids.contains(history[k].id)
                        && history[k].body is Some ==> !(history[k].body->0 is ToolCall)
                        && !(history[k].body->0 is ToolCallResult)
                &&& exists|k: int|
                    0 <= k < history.len() && (#[trigger] history[k]).request_id == request_id
                        && !p.original_message_ids.contains(history[k].id)
                        && history[k].body is Some && history[k].body->0 is AgentOutput
                        && exists|i: int|
                        0 <= i < history[k].body->0->text.len() && !text::whitespace(
                            #[trigger] history[k].body->0->text[i],
                        )
            }
        }),
{
    let history = without_copies(messages);
    let brought = produced(p, request_id, history);
    let said = statements(brought);
    lemma_filter_within(history, |m: message::MessageView| from_summary(p, request_id, m));
    lemma_filter_within(brought, |m: message::MessageView| says(m) is Some);
    if forall|k: int| 0 <= k < brought.len() ==> !uses_tools(#[trigger] brought[k]) {
        assert forall|k: int|
            0 <= k < history.len() && (#[trigger] history[k]).request_id == request_id
                && !p.original_message_ids.contains(history[k].id)
                && history[k].body is Some implies !(history[k].body->0 is ToolCall) && !(
        history[k].body->0 is ToolCallResult) by {
            assert(history.contains(history[k]));
            assert(brought.contains(history[k]));
            let q = choose|q: int| 0 <= q < brought.len() && brought[q] == history[k];
            assert(!uses_tools(brought[q]));
        }
    }
    if forall|k: int|
        0 <= k < history.len() && (#[trigger] history[k]).request_id == request_id
            && !p.original_message_ids.contains(history[k].id) && history[k].body is Some ==> !(
        history[k].body->0 is ToolCall) && !(history[k].body->0 is ToolCallResult) {
        assert forall|q: int| 0 <= q < brought.len() implies !uses_tools(#[trigger] brought[q]) by {
            assert(brought.contains(brought[q]));
            let k = choose|k: int| 0 <= k < history.len() && history[k] == brought[q];
            assert(from_summary(p, request_id, history[k]));
        }
    }
    if said.len() > 0 {
        assert(said.contains(said[0]));
        assert(brought.contains(said[0]));
        let k = choose|k: int| 0 <= k < history.len() && history[k] == said[0];
        assert(from_summary(p, request_id, history[k]));
        assert(says(history[k]) is Some);
        let t = history[k].body->0->text;
        assert(!text::blank(t));
        let i = choose|i: int| 0 <= i < t.len() && !text::whitespace(#[trigger] t[i]);
        assert(!text::whitespace(history[k].body->0->text[i]));
    }
    if exists|k: int|
        0 <= k < history.len() && (#[trigger] history[k]).request_id == request_id
            && !p.original_message_ids.contains(history[k].id) && history[k].body is Some
            && history[k].body->0 is AgentOutput && exists|i: int|
            0 <= i < history[k].body->0->text.len() && !text::whitespace(
                #[trigger] history[k].body->0->text[i],
            ) {
        let k = choose|k: int|
            0 <= k < history.len() && (#[trigger] history[k]).request_id == request_id
                && !p.original_message_ids.contains(history[k].id) && history[k].body is Some
                && history[k].body->0 is AgentOutput && exists|i: int|
                0 <= i < history[k].body->0->text.len() && !text::whitespace(
                    #[trigger] history[k].body->0->text[i],
                );
        assert(history.contains(history[k]));
        assert(brought.contains(history[k]));
        assert(says(history[k]) is Some);
        assert(said.contains(history[k]));
    }
}

/// What is remembered of a summary: it stands where the plan put it, for the plan's range and
/// tail, and both marks tell whether the context had overflowed.
pub proof fn law_summary_stands_for_its_plan(
    p: plan::PlanView,
    request_id: Seq<char>,
    messages: Seq<message::MessageView>,
    overflow: bool,
)
    ensures
        ({
            let summary = summary_of(p, request_id, messages, overflow);
            &&& summary.user_msg_id == p.anchor_message_id
            &&& summary.head_message_ids == p.head_message_ids
            &&& summary.tail_start_id == p.tail_start_id
            &&& summary.auto == overflow
            &&& summary.overflow == overflow
            &&& summary.summary_text is Some
        }),
{
}

/// The text of a summary is made of the texts of the agent that are not blank, in their order,
/// with an empty line between two of them; its message is the last of these.
pub proof fn law_summary_text_is_what_the_agent_said(
    brought: Seq<message::MessageView>,
    m: message::MessageView,
)
    ensures
        paragraphs(statements(Seq::empty())).len() == 0,
        ({
            let more = brought.push(m);
            if m.body is Some && m.body->0 is AgentOutput && exists|i: int|
                0 <= i < m.body->0->text.len() && !text::whitespace(#[trigger] m.body->0->text[i]) {
                &&& statements(more).len() == statements(brought).len() + 1
                &&& statements(more).last() == m
                &&& statements(brought).len() == 0 ==> paragraphs(statements(more))
                    == m.body->0->text
                &&& statements(brought).len() > 0 ==> paragraphs(statements(more)) == paragraphs(
                    statements(brought),
                ) + "\n\n"@ + m.body->0->text
            } else {
                statements(more) == statements(brought)
            }
        }),
{
    reveal(Seq::filter);
    lemma_filter_push(brought, m, |m: message::MessageView| says(m) is Some);
    assert(statements(brought).push(m).drop_last() =~= statements(brought));
}

/// The message that holds a summary is the last text of the agent that the request brought and
/// that is not blank.
pub proof fn law_summary_is_held_by_the_last_text(
    p: plan::PlanView,
    request_id: Seq<char>,
    messages: Seq<message::MessageView>,
    completed: Seq<state::CompletedView>,
    overflow: bool,
)
    requires
        summarized(p, request_id, messages, completed),
    ensures
        exists|m: message::MessageView|
            #![trigger without_copies(messages).contains(m)]
            without_copies(messages).contains(m) && m.request_id == request_id
                && !p.original_message_ids.contains(m.id) && m.body is Some && m.body->0 is AgentOutput
                && !text::blank(m.body->0->text) && m.id == summary_of(
                p,
                request_id,
                messages,
                overflow,
            ).assistant_msg_id,
        summary_of(p, request_id, messages, overflow).summary_text == Some(
            paragraphs(statements(produced(p, request_id, without_copies(messages)))),
        ),
{
    let history = without_copies(messages);
    let brought = produced(p, request_id, history);
    let said = statements(brought);
    lemma_filter_within(history, |m: message::MessageView| from_summary(p, request_id, m));
    lemma_filter_within(brought, |m: message::MessageView| says(m) is Some);
    let m = said[said.len() - 1];
    assert(said.contains(m));
    assert(brought.contains(m));
    assert(history.contains(m));
}

/// What a request for a summary brought is what came under its id and was not there when the
/// plan was made.
pub proof fn law_what_a_request_brought(
    p: plan::PlanView,
    request_id: Seq<char>,
    messages: Seq<message::MessageView>,
    m: message::MessageView,
)
    ensures
        produced(p, request_id, messages).contains(m) <==> messages.contains(m) && m.request_id
            == request_id && !p.original_message_ids.contains(m.id),
{
    lemma_filter_within(messages, |m: message::MessageView| from_summary(p, request_id, m));
}

/// Taking over a summary hides the messages of its range and the texts and thoughts of the agent
/// that the request brought, and no other message.
pub proof fn law_commit_hides_exactly(
    p: plan::PlanView,
    request_id: Seq<char>,
    messages: Seq<message::MessageView>,
    completed: Seq<state::CompletedView>,
    overflow: bool,
    id: Seq<char>,
)
    ensures
        state::hidden(
            completed.push(summary_of(p, request_id, messages, overflow)),
            id,
        ) <==> state::hidden(completed, id) || p.head_message_ids.contains(id) || exists|
            m: message::MessageView,
        |
            #![trigger without_copies(messages).contains(m)]
            without_copies(messages).contains(m) && m.request_id == request_id
                && !p.original_message_ids.contains(m.id) && m.body is Some && (
            m.body->0 is AgentOutput || m.body->0 is AgentReasoning) && m.id == id,
{
    law_commit_hides_range_and_summary_only(p, request_id, messages, completed, overflow, id);
}

/// A tool output is marked exactly where one of the decisions names its message.
pub proof fn law_each_decision_names_a_message(
    decisions: Seq<PruneDecision>,
    decision: PruneDecision,
    id: Seq<char>,
)
    ensures
        !decided(Seq::empty(), id),
        decided(decisions.push(decision), id) <==> decided(decisions, id) || decision.message_id@
            == id,
{
    let all = decisions.push(decision);
    if decided(decisions, id) {
        let k = choose|k: int|
            0 <= k < decisions.len() && (#[trigger] decisions[k]).message_id@ == id;
        assert(all[k].message_id@ == id);
    }
    if decision.message_id@ == id {
        assert(all[decisions.len() as int].message_id@ == id);
    }
    if decided(all, id) {
        let k = choose|k: int| 0 <= k < all.len() && (#[trigger] all[k]).message_id@ == id;
        if k < decisions.len() {
            assert(decisions[k].message_id@ == id);
        }
    }
}

/// Taking over a summary adds it behind the others where there is one, and changes nothing where
/// there is none; the messages, the marks and the waiting inputs stay in any case.
pub proof fn law_what_a_commit_changes(
    before: AIConversation,
    after: AIConversation,
    p: plan::PlanView,
    request_id: Seq<char>,
    overflow: bool,
    r: bool,
)
    requires
        taken_over(before, after, p, request_id, overflow, r),
    ensures
        after.messages == before.messages,
        after.compaction_state.markers == before.compaction_state.markers,
        after.compaction_state.pending_recovery == before.compaction_state.pending_recovery,
        after.compaction_state.retained_recoveries == before.compaction_state.retained_recoveries,
        r <==> summarized(
            p,
            request_id,
            message::message_views(before.messages@),
            state::completed_views(before.compaction_state.completed@),
        ),
        !r ==> state::completed_views(after.compaction_state.completed@) == state::completed_views(
            before.compaction_state.completed@,
        ),
        r ==> {
            let old_list = state::completed_views(before.compaction_state.completed@);
            let new_list = state::completed_views(after.compaction_state.completed@);
            &&& new_list.len() == old_list.len() + 1
            &&& new_list.drop_last() == old_list
            &&& new_list.last() == summary_of(
                p,
                request_id,
                message::message_views(before.messages@),
                overflow,
            )
        },
{
    if r {
        let old_list = state::completed_views(before.compaction_state.completed@);
        let new_list = state::completed_views(after.compaction_state.completed@);
        assert(new_list.drop_last() =~= old_list);
    }
}

/// Pruning marks every message that a decision names with the present time, keeps all other
/// marks, and counts the decisions; switched off, or without messages, it does nothing.
pub proof fn law_what_pruning_changes(
    before: AIConversation,
    after: AIConversation,
    prune: bool,
    decisions: Seq<PruneDecision>,
    now_ms: u64,
    r: usize,
    k: int,
    id: Seq<char>,
)
    requires
        pruned(before, after, prune, decisions, now_ms, r),
    ensures
        after.messages == before.messages,
        after.compaction_state.completed == before.compaction_state.completed,
        after.compaction_state.pending_recovery == before.compaction_state.pending_recovery,
        after.compaction_state.retained_recoveries == before.compaction_state.retained_recoveries,
        !prune || before.messages@.len() == 0 ==> r == 0 && after.compaction_state.markers
            == before.compaction_state.markers,
        prune && before.messages@.len() > 0 ==> r == decisions.len(),
        prune && before.messages@.len() > 0 && 0 <= k < decisions.len() ==> state::compacted_at(
            state::marker_views(after.compaction_state.markers@),
            decisions[k].message_id@,
        ) == Some(now_ms),
        (forall|i: int| 0 <= i < decisions.len() ==> (#[trigger] decisions[i]).message_id@ != id)
            ==> state::compacted_at(state::marker_views(after.compaction_state.markers@), id)
            == state::compacted_at(state::marker_views(before.compaction_state.markers@), id),
{
    if 0 <= k < decisions.len() {
        assert(decided(decisions, decisions[k].message_id@));
    }
}

} // verus!
