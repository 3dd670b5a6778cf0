//! Which messages a summary covers. The range is fixed before the summary is asked for;
//! asking and committing use the same plan and never choose anew from a later history.

use vstd::prelude::*;
use crate::message;
use crate::message::{same_message, Message, MessageBody, Tool};
use crate::state;
use crate::state::CompactionState;
use crate::text;
use crate::text::listed;

verus! {

/// A range of messages to summarize.
#[derive(Debug, Clone)]
pub struct CompactionPlan {
    pub head_message_ids: Vec<String>,
    pub tail_start_id: Option<String>,
    /// The summary goes to the start of the range. It borrows no real message of the part
    /// that stays.
    pub anchor_message_id: String,
    pub previous_summary: Option<String>,
    pub max_output_tokens: u32,
    source_messages: Vec<Message>,
    original_message_ids: Vec<String>,
    original_task_ids: Vec<String>,
    previous_summary_id: Option<String>,
}

pub struct PlanView {
    pub head_message_ids: Seq<Seq<char>>,
    pub tail_start_id: Option<Seq<char>>,
    pub anchor_message_id: Seq<char>,
    pub previous_summary: Option<Seq<char>>,
    pub max_output_tokens: u32,
    pub source_messages: Seq<message::MessageView>,
    pub original_message_ids: Seq<Seq<char>>,
    pub original_task_ids: Seq<Seq<char>>,
    pub previous_summary_id: Option<Seq<char>>,
}

impl View for CompactionPlan {
    type V = PlanView;

    closed spec fn view(&self) -> PlanView {
        PlanView {
            head_message_ids: text::texts(self.head_message_ids@),
            tail_start_id: text::option_text(self.tail_start_id),
            anchor_message_id: self.anchor_message_id@,
            previous_summary: text::option_text(self.previous_summary),
            max_output_tokens: self.max_output_tokens,
            source_messages: message::message_views(self.source_messages@),
            original_message_ids: text::texts(self.original_message_ids@),
            original_task_ids: text::texts(self.original_task_ids@),
            previous_summary_id: text::option_text(self.previous_summary_id),
        }
    }
}

pub open spec fn message_ids(messages: Seq<message::MessageView>) -> Seq<Seq<char>> {
    messages.map_values(|m: message::MessageView| m.id)
}

pub open spec fn task_ids(messages: Seq<message::MessageView>) -> Seq<Seq<char>> {
    messages.map_values(|m: message::MessageView| m.task_id)
}

/// The messages that the latest history still shows to the model.
pub open spec fn visible(
    messages: Seq<message::MessageView>,
    completed: Seq<state::CompletedView>,
) -> Seq<message::MessageView> {
    messages.filter(|m: message::MessageView| !state::hidden(completed, m.id))
}

/// The position of the first message with this id.
pub open spec fn position(messages: Seq<message::MessageView>, id: Seq<char>) -> int
    decreases messages.len(),
{
    if messages.len() == 0 || messages[0].id == id {
        0
    } else {
        1 + position(messages.drop_first(), id)
    }
}

/// Where the range would end by the choice among the visible messages.
pub open spec fn chosen_end(
    messages: Seq<message::MessageView>,
    completed: Seq<state::CompletedView>,
    selected: int,
) -> int {
    let shown = visible(messages, completed);
    if 0 <= selected < shown.len() {
        position(messages, shown[selected].id)
    } else {
        messages.len() as int
    }
}

/// The ends that are tried, in order: from the chosen one down, and only then from the
/// chosen one up.
pub open spec fn candidate_end(chosen: int, k: int) -> int {
    if k < chosen {
        chosen - k
    } else {
        k + 1
    }
}

pub open spec fn shown_at(
    messages: Seq<message::MessageView>,
    completed: Seq<state::CompletedView>,
    i: int,
) -> bool {
    0 <= i < messages.len() && !state::hidden(completed, messages[i].id)
}

/// A turn starts at `end`, or the history ends there.
pub open spec fn turn_boundary(
    messages: Seq<message::MessageView>,
    completed: Seq<state::CompletedView>,
    end: int,
) -> bool {
    end >= messages.len() || (shown_at(messages, completed, end) && (messages[end].body matches Some(
        message::BodyView::UserQuery { .. },
    )))
}

/// The task and the id of the tool call at `i`, where its result has to follow.
pub open spec fn call_at(
    messages: Seq<message::MessageView>,
    completed: Seq<state::CompletedView>,
    i: int,
) -> Option<(Seq<char>, Seq<char>)> {
    if !shown_at(messages, completed, i) {
        None
    } else {
        match messages[i].body {
            Some(message::BodyView::ToolCall { tool_call_id, tool }) => if tool == Some(
                Tool::Subagent,
            ) {
                None
            } else {
                Some((messages[i].task_id, tool_call_id))
            },
            _ => None,
        }
    }
}

/// The task and the id of the tool result at `i`.
pub open spec fn result_at(
    messages: Seq<message::MessageView>,
    completed: Seq<state::CompletedView>,
    i: int,
) -> Option<(Seq<char>, Seq<char>)> {
    if !shown_at(messages, completed, i) {
        None
    } else {
        match messages[i].body {
            Some(message::BodyView::ToolCallResult { tool_call_id }) => Some(
                (messages[i].task_id, tool_call_id),
            ),
            _ => None,
        }
    }
}

/// The call at `i` has its result behind it and before `end`.
pub open spec fn answered(
    messages: Seq<message::MessageView>,
    completed: Seq<state::CompletedView>,
    i: int,
    end: int,
) -> bool {
    exists|j: int|
        i < j < end && #[trigger] result_at(messages, completed, j) == call_at(
            messages,
            completed,
            i,
        )
}

/// Every tool call before `end` has its result before `end` too.
pub open spec fn closed_tool_groups(
    messages: Seq<message::MessageView>,
    completed: Seq<state::CompletedView>,
    end: int,
) -> bool {
    forall|i: int|
        0 <= i < end && #[trigger] call_at(messages, completed, i) is Some ==> answered(
            messages,
            completed,
            i,
            end,
        )
}

/// A message that a summary can say something about.
pub open spec fn has_content(m: message::MessageView) -> bool {
    match m.body {
        Some(message::BodyView::UserQuery { .. }) => true,
        Some(message::BodyView::AgentOutput { .. }) => true,
        Some(message::BodyView::ToolCall { .. }) => true,
        Some(message::BodyView::ToolCallResult { .. }) => true,
        _ => false,
    }
}

/// Something before `end` has not been summarized yet.
pub open spec fn new_content(
    messages: Seq<message::MessageView>,
    completed: Seq<state::CompletedView>,
    end: int,
) -> bool {
    exists|i: int|
        0 <= i < end && #[trigger] shown_at(messages, completed, i) && has_content(messages[i])
}

/// The range may end at `end`: between whole turns, with no tool call apart from its
/// result, and with something new in it.
pub open spec fn admissible(
    messages: Seq<message::MessageView>,
    completed: Seq<state::CompletedView>,
    end: int,
) -> bool {
    &&& turn_boundary(messages, completed, end)
    &&& closed_tool_groups(messages, completed, end)
    &&& new_content(messages, completed, end)
}

/// The plan for the range that ends at `end`.
pub open spec fn plan_for(
    messages: Seq<message::MessageView>,
    completed: Seq<state::CompletedView>,
    end: int,
    max_output: usize,
) -> PlanView {
    PlanView {
        head_message_ids: message_ids(messages.take(end)),
        tail_start_id: if end < messages.len() {
            Some(messages[end].id)
        } else {
            None
        },
        anchor_message_id: messages[0].id,
        previous_summary: state::latest_summary(completed),
        max_output_tokens: if max_output <= u32::MAX {
            max_output as u32
        } else {
            u32::MAX
        },
        source_messages: messages.take(end),
        original_message_ids: message_ids(messages),
        original_task_ids: task_ids(messages),
        previous_summary_id: state::latest_summary_id(completed),
    }
}

/// The plan still speaks of this history: nothing was summarized since, the messages of the
/// range are there as they were, and no message has come in between them.
pub open spec fn current(
    plan: PlanView,
    messages: Seq<message::MessageView>,
    completed: Seq<state::CompletedView>,
) -> bool {
    &&& state::latest_summary_id(completed) == plan.previous_summary_id
    &&& state::latest_summary(completed) == plan.previous_summary
    &&& messages.filter(|m: message::MessageView| plan.head_message_ids.contains(m.id))
        == plan.source_messages
    &&& exists|i: int| 0 <= i < messages.len() && in_head(plan, #[trigger] messages[i])
    &&& forall|i: int, j: int|
        0 <= i <= j < messages.len() && in_head(plan, #[trigger] messages[j]) ==> known(
            plan,
            #[trigger] messages[i],
        )
}

pub open spec fn in_head(plan: PlanView, m: message::MessageView) -> bool {
    plan.head_message_ids.contains(m.id)
}

/// The plan was made with this message, or without its whole task.
pub open spec fn known(plan: PlanView, m: message::MessageView) -> bool {
    !plan.original_task_ids.contains(m.task_id) || plan.original_message_ids.contains(m.id)
}

/// How many of `messages` the plan covers, if they start with the messages of its range.
pub open spec fn covered(plan: PlanView, messages: Seq<message::MessageView>) -> Option<nat> {
    let count = plan.source_messages.len();
    if count <= messages.len() && messages.take(count as int) == plan.source_messages {
        Some(count)
    } else {
        None
    }
}

impl CompactionPlan {
    /// The ids of the messages in the range.
    pub fn head_message_ids(&self) -> (r: &Vec<String>)
        ensures
            text::texts(r@) == self@.head_message_ids,
    {
        &self.head_message_ids
    }

    /// The first message behind the range.
    pub fn tail_start_id(&self) -> (r: &Option<String>)
        ensures
            text::option_text(*r) == self@.tail_start_id,
    {
        &self.tail_start_id
    }

    /// The message at which the summary is placed.
    pub fn anchor_message_id(&self) -> (r: &String)
        ensures
            r@ == self@.anchor_message_id,
    {
        &self.anchor_message_id
    }

    /// The summary that the new one goes on from.
    pub fn previous_summary(&self) -> (r: &Option<String>)
        ensures
            text::option_text(*r) == self@.previous_summary,
    {
        &self.previous_summary
    }

    /// The most tokens that the new summary may take.
    pub fn max_output_tokens(&self) -> (r: u32)
        ensures
            r == self@.max_output_tokens,
    {
        self.max_output_tokens
    }

    /// How many of `messages` the plan covers, if they start with exactly the messages it was
    /// made for.
    pub fn head_end(&self, messages: &Vec<Message>) -> (r: Option<usize>)
        ensures
            match r {
                Some(count) => covered(self@, message::message_views(messages@)) == Some(
                    count as nat,
                ),
                None => covered(self@, message::message_views(messages@)) is None,
            },
            ({
                let views = message::message_views(messages@);
                let count = self@.source_messages.len();
                r == (if count <= views.len() && views.take(count as int)
                    == self@.source_messages {
                    Some(count as usize)
                } else {
                    None
                })
            }),
    {
        let ghost views = message::message_views(messages@);
        let count: usize = self.source_messages.len();
        if messages.len() < count {
            return None;
        }
        let mut i: usize = 0;
        while i < count
            invariant
                i <= count,
                count == self.source_messages.len(),
                count <= messages.len(),
                views == message::message_views(messages@),
                forall|k: int| 0 <= k < i ==> #[trigger] views[k] == self@.source_messages[k],
            decreases count - i,
        {
            if !same_message(&messages[i], &self.source_messages[i]) {
                proof {
                    assert(views[i as int] != self@.source_messages[i as int]);
                    assert(views.take(count as int)[i as int] == views[i as int]);
                }
                return None;
            }
            assert(views[i as int] == self@.source_messages[i as int]);
            i += 1;
        }
        assert(views.take(count as int) =~= self@.source_messages);
        Some(count)
    }

    /// Whether the plan still speaks of this history.
    pub fn is_current(&self, messages: &Vec<Message>, state: &CompactionState) -> (r: bool)
        ensures
            r == current(
                self@,
                message::message_views(messages@),
                state::completed_views(state.completed@),
            ),
    {
        let ghost views = message::message_views(messages@);
        let ghost completed = state::completed_views(state.completed@);
        let ghost head = |m: message::MessageView| self@.head_message_ids.contains(m.id);
        if !same_as(state.previous_summary_id(), &self.previous_summary_id) || !same_as(
            state.previous_summary(),
            &self.previous_summary,
        ) {
            return false;
        }
        let mut selected: Vec<Message> = Vec::new();
        let mut last: Option<usize> = None;
        let mut i: usize = 0;
        assert(views.take(0).filter(head) =~= Seq::empty()) by {
            reveal(Seq::filter);
        }
        assert(message::message_views(selected@) =~= Seq::empty());
        while i < messages.len()
            invariant
                i <= messages.len(),
                views == message::message_views(messages@),
                head == (|m: message::MessageView| self@.head_message_ids.contains(m.id)),
                message::message_views(selected@) == views.take(i as int).filter(head),
                match last {
                    Some(p) => p < i && in_head(self@, views[p as int]) && forall|k: int|
                        p < k < i ==> !in_head(self@, #[trigger] views[k]),
                    None => forall|k: int| 0 <= k < i ==> !in_head(self@, #[trigger] views[k]),
                },
            decreases messages.len() - i,
        {
            let ghost before = selected@;
            proof {
                reveal(Seq::filter);
                assert(views.take(i + 1).drop_last() =~= views.take(i as int));
                assert(views.take(i + 1).last() == views[i as int]);
                assert(views[i as int] == messages@[i as int]@);
            }
            if listed(&self.head_message_ids, &messages[i].id) {
                selected.push(messages[i].clone());
                last = Some(i);
                assert(message::message_views(selected@) =~= message::message_views(before).push(
                    views[i as int],
                ));
            }
            i += 1;
        }
        assert(views.take(i as int) =~= views);
        let covered: Option<usize> = self.head_end(&selected);
        let whole: bool = match covered {
            Some(count) => count == selected.len(),
            None => false,
        };
        let ghost chosen = views.filter(head);
        proof {
            assert(chosen == message::message_views(selected@));
            if whole {
                assert(chosen.take(chosen.len() as int) =~= chosen);
            } else if chosen == self@.source_messages {
                assert(chosen.take(chosen.len() as int) =~= chosen);
            }
            assert(whole == (chosen == self@.source_messages));
        }
        if !whole {
            return false;
        }
        let end: usize = match last {
            Some(p) => p,
            None => {
                return false;
            },
        };
        let mut k: usize = 0;
        while k <= end
            invariant
                k <= end + 1,
                end < messages.len(),
                views == message::message_views(messages@),
                completed == state::completed_views(state.completed@),
                in_head(self@, views[end as int]),
                forall|j: int| 0 <= j < k ==> known(self@, #[trigger] views[j]),
            decreases end + 1 - k,
        {
            assert(views[k as int] == messages@[k as int]@);
            if listed(&self.original_task_ids, &messages[k].task_id) && !listed(
                &self.original_message_ids,
                &messages[k].id,
            ) {
                assert(!known(self@, views[k as int]));
                return false;
            }
            k += 1;
        }
        true
    }

    /// Whether a message came after the plan was made.
    pub fn is_new_message(&self, message_id: &String) -> (r: bool)
        ensures
            r == !self@.original_message_ids.contains(message_id@),
    {
        !listed(&self.original_message_ids, message_id)
    }
}

fn same_as(a: Option<&String>, b: &Option<String>) -> (r: bool)
    ensures
        r == (match a {
            Some(s) => text::option_text(*b) == Some(s@),
            None => *b is None,
        }),
{
    match (a, b) {
        (Some(x), Some(y)) => *x == *y,
        (None, None) => true,
        _ => false,
    }
}

/// `fits` turned down a plan with these contents.
pub open spec fn refused<F: Fn(&CompactionPlan) -> bool>(fits: F, plan: PlanView) -> bool {
    exists|p: CompactionPlan| p@ == plan && #[trigger] fits.ensures((&p,), false)
}

/// Every range that may be taken and is tried before the `k`-th was turned down.
pub open spec fn refused_before<F: Fn(&CompactionPlan) -> bool>(
    fits: F,
    messages: Seq<message::MessageView>,
    completed: Seq<state::CompletedView>,
    chosen: int,
    max_output: usize,
    k: int,
) -> bool {
    forall|j: int|
        0 <= j < k && admissible(messages, completed, #[trigger] candidate_end(chosen, j))
            ==> refused(
            fits,
            plan_for(messages, completed, candidate_end(chosen, j), max_output),
        )
}

/// `shown` tells which messages are visible.
spec fn tells_shown(
    shown: Seq<bool>,
    messages: Seq<message::MessageView>,
    completed: Seq<state::CompletedView>,
) -> bool {
    &&& shown.len() == messages.len()
    &&& forall|i: int|
        0 <= i < shown.len() ==> #[trigger] shown[i] == shown_at(messages, completed, i)
}

fn shown_messages(messages: &Vec<Message>, state: &CompactionState) -> (r: Vec<bool>)
    ensures
        tells_shown(
            r@,
            message::message_views(messages@),
            state::completed_views(state.completed@),
        ),
{
    let ghost views = message::message_views(messages@);
    let ghost completed = state::completed_views(state.completed@);
    let hidden: Vec<String> = state.hidden_message_ids();
    let mut shown: Vec<bool> = Vec::new();
    let mut i: usize = 0;
    while i < messages.len()
        invariant
            i <= messages.len(),
            shown.len() == i,
            views == message::message_views(messages@),
            forall|id: Seq<char>| #[trigger]
                text::texts(hidden@).contains(id) <==> state::hidden(completed, id),
            forall|k: int| 0 <= k < i ==> #[trigger] shown@[k] == shown_at(views, completed, k),
        decreases messages.len() - i,
    {
        assert(views[i as int] == messages@[i as int]@);
        shown.push(!listed(&hidden, &messages[i].id));
        i += 1;
    }
    shown
}

/// Whether every visible tool call before `end` has its result before `end` too.
fn has_closed_tool_groups(
    messages: &Vec<Message>,
    shown: &Vec<bool>,
    end: usize,
    Ghost(completed): Ghost<Seq<state::CompletedView>>,
) -> (r: bool)
    requires
        end <= messages.len(),
        tells_shown(shown@, message::message_views(messages@), completed),
    ensures
        r == closed_tool_groups(message::message_views(messages@), completed, end as int),
{
    let ghost views = message::message_views(messages@);
    let mut pending: Vec<usize> = Vec::new();
    let mut k: usize = 0;
    while k < end
        invariant
            k <= end <= messages.len(),
            views == message::message_views(messages@),
            tells_shown(shown@, views, completed),
            open_calls(pending@, views, completed, k as int),
        decreases end - k,
    {
        assert(views[k as int] == messages@[k as int]@);
        let ghost before = pending@;
        if shown[k] {
            match &messages[k].body {
                Some(MessageBody::ToolCall { tool_call_id, tool }) => {
                    let subagent: bool = match tool {
                        Some(t) => *t == Tool::Subagent,
                        None => false,
                    };
                    if !subagent {
                        pending.push(k);
                        proof {
                            lemma_call_opened(before, views, completed, k as int);
                        }
                    } else {
                        proof {
                            lemma_nothing_opened(before, views, completed, k as int);
                        }
                    }
                },
                Some(MessageBody::ToolCallResult { tool_call_id }) => {
                    pending = without_call(
                        messages,
                        &pending,
                        k,
                        tool_call_id,
                        Ghost(views),
                        Ghost(completed),
                    );
                },
                _ => {
                    proof {
                        lemma_nothing_opened(before, views, completed, k as int);
                    }
                },
            }
        } else {
            proof {
                lemma_nothing_opened(before, views, completed, k as int);
            }
        }
        k += 1;
    }
    proof {
        if pending@.len() == 0 {
            assert forall|i: int|
                0 <= i < end && #[trigger] call_at(views, completed, i) is Some implies answered(
                views,
                completed,
                i,
                end as int,
            ) by {
                if !answered(views, completed, i, end as int) {
                    assert(pending@.contains(i as usize));
                }
            }
        } else {
            let i = pending@[0] as int;
            assert(call_at(views, completed, i) is Some);
        }
    }
    pending.len() == 0
}

/// `pending` holds exactly the calls before `k` that have no result before `k`.
spec fn open_calls(
    pending: Seq<usize>,
    messages: Seq<message::MessageView>,
    completed: Seq<state::CompletedView>,
    k: int,
) -> bool {
    &&& forall|q: int|
        0 <= q < pending.len() ==> {
            let i = #[trigger] pending[q] as int;
            i < k && call_at(messages, completed, i) is Some && !answered(
                messages,
                completed,
                i,
                k,
            )
        }
    &&& forall|i: int|
        0 <= i < k && #[trigger] call_at(messages, completed, i) is Some && !answered(
            messages,
            completed,
            i,
            k,
        ) ==> pending.contains(i as usize)
}

proof fn lemma_answered_step(
    messages: Seq<message::MessageView>,
    completed: Seq<state::CompletedView>,
    i: int,
    k: int,
)
    requires
        i < k,
    ensures
        answered(messages, completed, i, k + 1) <==> answered(messages, completed, i, k)
            || result_at(messages, completed, k) == call_at(messages, completed, i),
{
    if answered(messages, completed, i, k) {
        let j = choose|j: int|
            i < j < k && #[trigger] result_at(messages, completed, j) == call_at(
                messages,
                completed,
                i,
            );
        assert(result_at(messages, completed, j) == call_at(messages, completed, i));
    }
}

proof fn lemma_call_opened(
    pending: Seq<usize>,
    messages: Seq<message::MessageView>,
    completed: Seq<state::CompletedView>,
    k: int,
)
    requires
        open_calls(pending, messages, completed, k),
        0 <= k < messages.len(),
        messages.len() <= usize::MAX,
        call_at(messages, completed, k) is Some,
        result_at(messages, completed, k) is None,
    ensures
        open_calls(pending.push(k as usize), messages, completed, k + 1),
{
    let after = pending.push(k as usize);
    assert forall|q: int| 0 <= q < after.len() implies ({
        let i = #[trigger] after[q] as int;
        i < k + 1 && call_at(messages, completed, i) is Some && !answered(
            messages,
            completed,
            i,
            k + 1,
        )
    }) by {
        if q < pending.len() {
            assert(after[q] == pending[q]);
            lemma_answered_step(messages, completed, pending[q] as int, k);
        }
    }
    assert forall|i: int|
        0 <= i < k + 1 && #[trigger] call_at(messages, completed, i) is Some && !answered(
            messages,
            completed,
            i,
            k + 1,
        ) implies after.contains(i as usize) by {
        if i < k {
            lemma_answered_step(messages, completed, i, k);
            let q = choose|q: int| 0 <= q < pending.len() && pending[q] == i as usize;
            assert(after[q] == i as usize);
        } else {
            assert(after[pending.len() as int] == i as usize);
        }
    }
}

proof fn lemma_nothing_opened(
    pending: Seq<usize>,
    messages: Seq<message::MessageView>,
    completed: Seq<state::CompletedView>,
    k: int,
)
    requires
        open_calls(pending, messages, completed, k),
        0 <= k,
        call_at(messages, completed, k) is None,
        result_at(messages, completed, k) is None,
    ensures
        open_calls(pending, messages, completed, k + 1),
{
    assert forall|q: int| 0 <= q < pending.len() implies ({
        let i = #[trigger] pending[q] as int;
        i < k + 1 && call_at(messages, completed, i) is Some && !answered(
            messages,
            completed,
            i,
            k + 1,
        )
    }) by {
        lemma_answered_step(messages, completed, pending[q] as int, k);
    }
    assert forall|i: int|
        0 <= i < k + 1 && #[trigger] call_at(messages, completed, i) is Some && !answered(
            messages,
            completed,
            i,
            k + 1,
        ) implies pending.contains(i as usize) by {
        lemma_answered_step(messages, completed, i, k);
    }
}

/// The pending calls that the result at `k` does not answer.
fn without_call(
    messages: &Vec<Message>,
    pending: &Vec<usize>,
    k: usize,
    tool_call_id: &String,
    Ghost(views): Ghost<Seq<message::MessageView>>,
    Ghost(completed): Ghost<Seq<state::CompletedView>>,
) -> (r: Vec<usize>)
    requires
        views == message::message_views(messages@),
        k < messages.len(),
        open_calls(pending@, views, completed, k as int),
        call_at(views, completed, k as int) is None,
        result_at(views, completed, k as int) == Some((views[k as int].task_id, tool_call_id@)),
    ensures
        open_calls(r@, views, completed, k + 1),
{
    let mut rest: Vec<usize> = Vec::new();
    let mut q: usize = 0;
    while q < pending.len()
        invariant
            q <= pending.len(),
            k < messages.len(),
            views == message::message_views(messages@),
            open_calls(pending@, views, completed, k as int),
            result_at(views, completed, k as int) == Some((views[k as int].task_id, tool_call_id@)),
            forall|p: int|
                0 <= p < rest.len() ==> {
                    let i = #[trigger] rest@[p] as int;
                    i < k + 1 && call_at(views, completed, i) is Some && !answered(
                        views,
                        completed,
                        i,
                        k + 1,
                    )
                },
            forall|p: int|
                0 <= p < q && !answered(views, completed, #[trigger] pending@[p] as int, k + 1)
                    ==> rest@.contains(pending@[p]),
        decreases pending.len() - q,
    {
        let i: usize = pending[q];
        let ghost before = rest@;
        assert(call_at(views, completed, i as int) is Some);
        proof {
            lemma_answered_step(views, completed, i as int, k as int);
            assert(views[i as int] == messages@[i as int]@);
            assert(views[k as int] == messages@[k as int]@);
        }
        let same: bool = match &messages[i].body {
            Some(MessageBody::ToolCall { tool_call_id: call, .. }) => messages[i].task_id
                == messages[k].task_id && *call == *tool_call_id,
            _ => false,
        };
        assert(same == answered(views, completed, i as int, k + 1));
        if !same {
            rest.push(i);
            proof {
                assert(rest@[before.len() as int] == i);
            }
        }
        proof {
            assert forall|p: int|
                0 <= p < q + 1 && !answered(
                    views,
                    completed,
                    #[trigger] pending@[p] as int,
                    k + 1,
                ) implies rest@.contains(pending@[p]) by {
                if p < q {
                    let at = choose|at: int| 0 <= at < before.len() && before[at] == pending@[p];
                    assert(rest@[at] == pending@[p]);
                }
            }
        }
        q += 1;
    }
    proof {
        assert forall|i: int|
            0 <= i < k + 1 && #[trigger] call_at(views, completed, i) is Some && !answered(
                views,
                completed,
                i,
                k + 1,
            ) implies rest@.contains(i as usize) by {
            lemma_answered_step(views, completed, i, k as int);
            let p = choose|p: int| 0 <= p < pending@.len() && pending@[p] == i as usize;
            assert(!answered(views, completed, pending@[p] as int, k + 1));
        }
    }
    rest
}

/// The position of the first message with this id.
fn first_position(messages: &Vec<Message>, id: &String) -> (r: usize)
    ensures
        r <= messages.len(),
        r == position(message::message_views(messages@), id@),
{
    let ghost views = message::message_views(messages@);
    let mut i: usize = 0;
    assert(views.skip(0) =~= views);
    while i < messages.len()
        invariant
            i <= messages.len(),
            views == message::message_views(messages@),
            position(views, id@) == i + position(views.skip(i as int), id@),
        decreases messages.len() - i,
    {
        proof {
            assert(views.skip(i as int)[0] == messages@[i as int]@);
            assert(views.skip(i as int).drop_first() =~= views.skip(i + 1));
        }
        if messages[i].id == *id {
            return i;
        }
        i += 1;
    }
    i
}

/// Where the range would end by the choice among the visible messages.
fn end_by_choice(
    messages: &Vec<Message>,
    shown: &Vec<bool>,
    selected: usize,
    Ghost(completed): Ghost<Seq<state::CompletedView>>,
) -> (r: usize)
    requires
        tells_shown(shown@, message::message_views(messages@), completed),
    ensures
        r <= messages.len(),
        r == chosen_end(message::message_views(messages@), completed, selected as int),
{
    let ghost views = message::message_views(messages@);
    let ghost seen = |m: message::MessageView| !state::hidden(completed, m.id);
    let mut count: usize = 0;
    let mut i: usize = 0;
    assert(views.take(0).filter(seen) =~= Seq::empty()) by {
        reveal(Seq::filter);
    }
    while i < messages.len()
        invariant
            i <= messages.len(),
            views == message::message_views(messages@),
            seen == (|m: message::MessageView| !state::hidden(completed, m.id)),
            tells_shown(shown@, views, completed),
            count == views.take(i as int).filter(seen).len(),
            count <= i,
            count <= selected,
        decreases messages.len() - i,
    {
        proof {
            reveal(Seq::filter);
            assert(views.take(i + 1).drop_last() =~= views.take(i as int));
            assert(views.take(i + 1).last() == views[i as int]);
            assert(views[i as int] == messages@[i as int]@);
        }
        if shown[i] {
            if count == selected {
                proof {
                    lemma_filter_prefix(views, seen, i + 1);
                    let part = views.take(i + 1).filter(seen);
                    assert(part[count as int] == views[i as int]);
                }
                return first_position(messages, &messages[i].id);
            }
            count += 1;
        }
        i += 1;
    }
    assert(views.take(i as int) =~= views);
    messages.len()
}

/// Filtering a prefix gives a prefix of what filtering gives.
proof fn lemma_filter_prefix(
    s: Seq<message::MessageView>,
    keep: spec_fn(message::MessageView) -> bool,
    n: int,
)
    requires
        0 <= n <= s.len(),
    ensures
        s.take(n).filter(keep).len() <= s.filter(keep).len(),
        forall|k: int|
            0 <= k < s.take(n).filter(keep).len() ==> #[trigger] s.filter(keep)[k] == s.take(
                n,
            ).filter(keep)[k],
    decreases s.len() - n,
{
    reveal(Seq::filter);
    if n == s.len() {
        assert(s.take(n) =~= s);
    } else {
        let next = s.take(n + 1);
        assert(next.drop_last() =~= s.take(n));
        lemma_filter_prefix(s, keep, n + 1);
        assert forall|k: int| 0 <= k < s.take(n).filter(keep).len() implies #[trigger] s.filter(
            keep,
        )[k] == s.take(n).filter(keep)[k] by {
            assert(next.filter(keep)[k] == s.take(n).filter(keep)[k]);
        }
    }
}

/// The first visible message that a summary can say something about.
fn first_content(
    messages: &Vec<Message>,
    shown: &Vec<bool>,
    Ghost(completed): Ghost<Seq<state::CompletedView>>,
) -> (r: usize)
    requires
        tells_shown(shown@, message::message_views(messages@), completed),
    ensures
        forall|end: int|
            0 <= end <= messages@.len() ==> (#[trigger] new_content(
                message::message_views(messages@),
                completed,
                end,
            ) <==> r < end),
{
    let ghost views = message::message_views(messages@);
    let mut i: usize = 0;
    while i < messages.len()
        invariant
            i <= messages.len(),
            views == message::message_views(messages@),
            tells_shown(shown@, views, completed),
            forall|k: int|
                0 <= k < i ==> !(#[trigger] shown_at(views, completed, k) && has_content(views[k])),
        decreases messages.len() - i,
    {
        assert(views[i as int] == messages@[i as int]@);
        let content: bool = match &messages[i].body {
            Some(MessageBody::UserQuery { .. }) => true,
            Some(MessageBody::AgentOutput { .. }) => true,
            Some(MessageBody::ToolCall { .. }) => true,
            Some(MessageBody::ToolCallResult { .. }) => true,
            _ => false,
        };
        if shown[i] && content {
            assert(shown_at(views, completed, i as int) && has_content(views[i as int]));
            return i;
        }
        i += 1;
    }
    i
}

fn copy_reference(s: Option<&String>) -> (r: Option<String>)
    ensures
        match s {
            Some(v) => text::option_text(r) == Some(v@),
            None => r is None,
        },
{
    match s {
        Some(v) => Some(v.clone()),
        None => None,
    }
}

/// The plan for the range that ends at `end`.
fn plan_up_to(
    messages: &Vec<Message>,
    state: &CompactionState,
    end: usize,
    max_output: usize,
) -> (r: CompactionPlan)
    requires
        0 < end <= messages.len(),
    ensures
        r@ == plan_for(
            message::message_views(messages@),
            state::completed_views(state.completed@),
            end as int,
            max_output,
        ),
{
    let ghost views = message::message_views(messages@);
    let mut head_message_ids: Vec<String> = Vec::new();
    let mut source_messages: Vec<Message> = Vec::new();
    let mut original_message_ids: Vec<String> = Vec::new();
    let mut original_task_ids: Vec<String> = Vec::new();
    let mut i: usize = 0;
    while i < messages.len()
        invariant
            i <= messages.len(),
            0 < end <= messages.len(),
            head_message_ids.len() == source_messages.len(),
            head_message_ids.len() == (if i < end {
                i
            } else {
                end
            }),
            original_message_ids.len() == i,
            original_task_ids.len() == i,
            forall|k: int|
                0 <= k < head_message_ids.len() ==> (#[trigger] head_message_ids@[k])@
                    == messages@[k].id@,
            forall|k: int|
                0 <= k < source_messages.len() ==> (#[trigger] source_messages@[k])@
                    == messages@[k]@,
            forall|k: int| 0 <= k < i ==> (#[trigger] original_message_ids@[k])@ == messages@[k].id@,
            forall|k: int|
                0 <= k < i ==> (#[trigger] original_task_ids@[k])@ == messages@[k].task_id@,
        decreases messages.len() - i,
    {
        if i < end {
            head_message_ids.push(messages[i].id.clone());
            source_messages.push(messages[i].clone());
        }
        original_message_ids.push(messages[i].id.clone());
        original_task_ids.push(messages[i].task_id.clone());
        i += 1;
    }
    let tail_start_id: Option<String> = if end < messages.len() {
        Some(messages[end].id.clone())
    } else {
        None
    };
    let max_output_tokens: u32 = if max_output <= u32::MAX as usize {
        max_output as u32
    } else {
        u32::MAX
    };
    let plan: CompactionPlan = CompactionPlan {
        head_message_ids,
        tail_start_id,
        anchor_message_id: messages[0].id.clone(),
        previous_summary: copy_reference(state.previous_summary()),
        max_output_tokens,
        source_messages,
        original_message_ids,
        original_task_ids,
        previous_summary_id: copy_reference(state.previous_summary_id()),
    };
    proof {
        let made = plan@;
        assert(made.head_message_ids =~= message_ids(views.take(end as int)));
        assert(made.source_messages =~= views.take(end as int));
        assert(made.original_message_ids =~= message_ids(views));
        assert(made.original_task_ids =~= task_ids(views));
    }
    plan
}

/// Plans a summary of `messages`, which stand in the order in which a request replays them.
///
/// `selected` is the number of visible messages in front of the part that is to stay.
/// `fits` judges the whole request for the summary. Where it does not fit, the range gives
/// up whole turns; no message is cut short. Where the choice falls into the first turn, the
/// range may also grow to the end of that turn or a later one.
pub fn prepare_plan<F: Fn(&CompactionPlan) -> bool>(
    messages: &Vec<Message>,
    state: &CompactionState,
    selected: usize,
    max_output: usize,
    fits: F,
) -> (r: Option<CompactionPlan>)
    requires
        forall|p: &CompactionPlan| fits.requires((p,)),
    ensures
        ({
            let views = message::message_views(messages@);
            let completed = state::completed_views(state.completed@);
            let chosen = chosen_end(views, completed, selected as int);
            match r {
                Some(plan) => exists|k: int|
                    0 <= k < views.len() && admissible(
                        views,
                        completed,
                        #[trigger] candidate_end(chosen, k),
                    ) && plan@ == plan_for(
                        views,
                        completed,
                        candidate_end(chosen, k),
                        max_output,
                    ) && fits.ensures((&plan,), true) && refused_before(
                        fits,
                        views,
                        completed,
                        chosen,
                        max_output,
                        k,
                    ),
                None => refused_before(
                    fits,
                    views,
                    completed,
                    chosen,
                    max_output,
                    views.len() as int,
                ),
            }
        }),
{
    let ghost views = message::message_views(messages@);
    let ghost completed = state::completed_views(state.completed@);
    let shown: Vec<bool> = shown_messages(messages, state);
    let chosen: usize = end_by_choice(messages, &shown, selected, Ghost(completed));
    let content: usize = first_content(messages, &shown, Ghost(completed));
    let mut k: usize = 0;
    while k < messages.len()
        invariant
            k <= messages.len(),
            chosen <= messages.len(),
            views == message::message_views(messages@),
            completed == state::completed_views(state.completed@),
            chosen == chosen_end(views, completed, selected as int),
            tells_shown(shown@, views, completed),
            forall|p: &CompactionPlan| fits.requires((p,)),
            forall|end: int|
                0 <= end <= messages@.len() ==> (#[trigger] new_content(views, completed, end)
                    <==> content < end),
            refused_before(fits, views, completed, chosen as int, max_output, k as int),
        decreases messages.len() - k,
    {
        let end: usize = if k < chosen {
            chosen - k
        } else {
            k + 1
        };
        assert(end == candidate_end(chosen as int, k as int));
        let at_boundary: bool = if end < messages.len() {
            assert(views[end as int] == messages@[end as int]@);
            match &messages[end].body {
                Some(MessageBody::UserQuery { .. }) => shown[end],
                _ => false,
            }
        } else {
            true
        };
        assert(at_boundary == turn_boundary(views, completed, end as int));
        if at_boundary && content < end && has_closed_tool_groups(
            messages,
            &shown,
            end,
            Ghost(completed),
        ) {
            let plan: CompactionPlan = plan_up_to(messages, state, end, max_output);
            if fits(&plan) {
                assert(admissible(
                    views,
                    completed,
                    candidate_end(chosen as int, k as int),
                ));
                return Some(plan);
            }
            assert(fits.ensures((&plan,), false));
            assert(refused(fits, plan_for(views, completed, end as int, max_output)));
        } else {
            assert(!admissible(views, completed, end as int)) by {
                assert(new_content(views, completed, end as int) <==> content < end);
            }
        }
        k += 1;
    }
    None
}

/// No two messages have the same id.
pub open spec fn distinct_ids(messages: Seq<message::MessageView>) -> bool {
    forall|i: int, j: int|
        0 <= i < j < messages.len() ==> (#[trigger] messages[i]).id != (#[trigger] messages[j]).id
}

proof fn lemma_filter_is_prefix(
    s: Seq<message::MessageView>,
    keep: spec_fn(message::MessageView) -> bool,
    n: int,
)
    requires
        0 <= n <= s.len(),
        forall|i: int| 0 <= i < s.len() ==> (keep(#[trigger] s[i]) <==> i < n),
    ensures
        s.filter(keep) == s.take(n),
    decreases s.len(),
{
    reveal(Seq::filter);
    if s.len() > 0 {
        let rest = s.drop_last();
        let last = s.len() - 1;
        assert(keep(s[last]) <==> last < n);
        assert forall|i: int| 0 <= i < rest.len() implies (keep(#[trigger] rest[i]) <==> i < n) by {
            assert(rest[i] == s[i]);
        }
        if n == s.len() {
            lemma_filter_is_prefix(rest, keep, n - 1);
            assert(s.take(n) =~= rest.take(n - 1).push(s[last]));
        } else {
            lemma_filter_is_prefix(rest, keep, n);
            assert(s.take(n) =~= rest.take(n));
        }
    } else {
        assert(s.take(n) =~= s.filter(keep));
    }
}

/// A plan covers exactly the messages in front of its end. Whatever is added, changed or
/// removed behind them, it still finds them, and it is still current as long as nothing was
/// summarized since and no message behind them takes over one of their ids.
pub proof fn law_plan_survives_changes_behind_its_range(
    messages: Seq<message::MessageView>,
    history: Seq<message::MessageView>,
    completed: Seq<state::CompletedView>,
    now: Seq<state::CompletedView>,
    end: int,
    max_output: usize,
)
    requires
        0 < end <= messages.len(),
        end <= history.len(),
        history.take(end) == messages.take(end),
        forall|i: int, j: int|
            0 <= i < end && end <= j < history.len() ==> (#[trigger] messages[i]).id != (
            #[trigger] history[j]).id,
        state::latest_summary_id(now) == state::latest_summary_id(completed),
        state::latest_summary(now) == state::latest_summary(completed),
    ensures
        ({
            let plan = plan_for(messages, completed, end, max_output);
            &&& plan.source_messages.len() == end
            &&& history.take(end) == plan.source_messages
            &&& current(plan, history, now)
        }),
{
    let plan = plan_for(messages, completed, end, max_output);
    let keep = |m: message::MessageView| plan.head_message_ids.contains(m.id);
    assert forall|i: int| 0 <= i < end implies #[trigger] history[i] == messages[i] by {
        assert(history.take(end)[i] == history[i]);
        assert(messages.take(end)[i] == messages[i]);
    }
    assert forall|i: int| 0 <= i < history.len() implies (in_head(plan, #[trigger] history[i]) <==> i
        < end) by {
        if i < end {
            assert(plan.head_message_ids[i] == history[i].id);
        } else if in_head(plan, history[i]) {
            let k = choose|k: int|
                0 <= k < plan.head_message_ids.len() && plan.head_message_ids[k] == history[i].id;
            assert(plan.head_message_ids[k] == messages[k].id);
        }
    }
    assert forall|i: int| 0 <= i < history.len() implies (keep(#[trigger] history[i]) <==> i
        < end) by {
        assert(in_head(plan, history[i]) <==> i < end);
    }
    lemma_filter_is_prefix(history, keep, end);
    assert(in_head(plan, history[0]));
    assert forall|i: int, j: int|
        0 <= i <= j < history.len() && in_head(plan, #[trigger] history[j]) implies known(
        plan,
        #[trigger] history[i],
    ) by {
        assert(history[i] == messages[i]);
        assert(plan.original_message_ids[i] == history[i].id);
    }
}

/// New messages at the end of the history change nothing about a plan: it still finds the
/// messages in front of its end, and it is still current.
pub proof fn law_plan_survives_later_messages(
    messages: Seq<message::MessageView>,
    later: Seq<message::MessageView>,
    completed: Seq<state::CompletedView>,
    end: int,
    max_output: usize,
)
    requires
        distinct_ids(messages),
        0 < end <= messages.len(),
        forall|i: int, j: int|
            0 <= i < messages.len() && 0 <= j < later.len() ==> (#[trigger] messages[i]).id != (
            #[trigger] later[j]).id,
    ensures
        ({
            let plan = plan_for(messages, completed, end, max_output);
            &&& plan.source_messages.len() == end
            &&& (messages + later).take(end) == plan.source_messages
            &&& current(plan, messages + later, completed)
        }),
{
    let all = messages + later;
    assert(all.take(end) =~= messages.take(end));
    assert forall|i: int, j: int| 0 <= i < end && end <= j < all.len() implies (
    #[trigger] messages[i]).id != (#[trigger] all[j]).id by {
        if j < messages.len() {
            assert(all[j] == messages[j]);
        } else {
            assert(all[j] == later[j - messages.len()]);
        }
    }
    law_plan_survives_changes_behind_its_range(messages, all, completed, completed, end, max_output);
}

/// A plan never takes a tool call without its result, and what stays starts with a whole
/// turn.
pub proof fn law_plan_keeps_turns_and_tools_together(
    messages: Seq<message::MessageView>,
    completed: Seq<state::CompletedView>,
    end: int,
    call: int,
)
    requires
        admissible(messages, completed, end),
        0 <= call < end,
        call_at(messages, completed, call) is Some,
    ensures
        answered(messages, completed, call, end),
        end < messages.len() ==> messages[end].body is Some && messages[end].body->0 is UserQuery,
{
}

/// Where everything has been summarized, there is no range to plan.
pub proof fn law_nothing_new_means_no_plan(
    messages: Seq<message::MessageView>,
    completed: Seq<state::CompletedView>,
    end: int,
)
    requires
        forall|i: int| 0 <= i < messages.len() ==> state::hidden(completed, (#[trigger] messages[i]).id),
    ensures
        !admissible(messages, completed, end),
{
    assert forall|i: int| 0 <= i < end implies !#[trigger] shown_at(messages, completed, i) by {
        if i < messages.len() {
            assert(state::hidden(completed, messages[i].id));
        }
    }
}

/// A range may end exactly where a visible question of the user follows, or nothing; where
/// every visible tool call in it, but for the start of a subtask, has its visible result behind
/// it in the range, under the same task and call id; and where it holds a visible message that
/// a summary can say something about.
pub proof fn law_where_a_range_may_end(
    messages: Seq<message::MessageView>,
    completed: Seq<state::CompletedView>,
    end: int,
)
    requires
        0 <= end <= messages.len(),
    ensures
        admissible(messages, completed, end) <==> {
            &&& end == messages.len() || (!state::hidden(completed, messages[end].id) && messages[end].body
                is Some && messages[end].body->0 is UserQuery)
            &&& forall|i: int|
                0 <= i < end && !state::hidden(completed, (#[trigger] messages[i]).id)
                    && messages[i].body is Some && messages[i].body->0 is ToolCall
                    && messages[i].body->0->tool != Some(Tool::Subagent) ==> exists|j: int|
                    i < j < end && !state::hidden(completed, (#[trigger] messages[j]).id)
                        && messages[j].task_id == messages[i].task_id && messages[j].body == Some(
                        message::BodyView::ToolCallResult {
                            tool_call_id: messages[i].body->0->ToolCall_tool_call_id,
                        },
                    )
            &&& exists|i: int|
                0 <= i < end && !state::hidden(completed, (#[trigger] messages[i]).id)
                    && messages[i].body is Some && (messages[i].body->0 is UserQuery
                    || messages[i].body->0 is AgentOutput || messages[i].body->0 is ToolCall
                    || messages[i].body->0 is ToolCallResult)
        },
{
    assert forall|i: int| 0 <= i < end && call_at(messages, completed, i) is Some implies (answered(
        messages,
        completed,
        i,
        end,
    ) <==> exists|j: int|
        i < j < end && !state::hidden(completed, (#[trigger] messages[j]).id)
            && messages[j].task_id == messages[i].task_id && messages[j].body == Some(
            message::BodyView::ToolCallResult {
                tool_call_id: messages[i].body->0->ToolCall_tool_call_id,
            },
        )) by {
        if answered(messages, completed, i, end) {
            let j = choose|j: int|
                i < j < end && #[trigger] result_at(messages, completed, j) == call_at(
                    messages,
                    completed,
                    i,
                );
            assert(!state::hidden(completed, messages[j].id));
        }
        if exists|j: int|
            i < j < end && !state::hidden(completed, (#[trigger] messages[j]).id)
                && messages[j].task_id == messages[i].task_id && messages[j].body == Some(
                message::BodyView::ToolCallResult {
                    tool_call_id: messages[i].body->0->ToolCall_tool_call_id,
                },
            ) {
            let j = choose|j: int|
                i < j < end && !state::hidden(completed, (#[trigger] messages[j]).id)
                    && messages[j].task_id == messages[i].task_id && messages[j].body == Some(
                    message::BodyView::ToolCallResult {
                        tool_call_id: messages[i].body->0->ToolCall_tool_call_id,
                    },
                );
            assert(result_at(messages, completed, j) == call_at(messages, completed, i));
        }
    }
    let raw_closed = forall|i: int|
        0 <= i < end && !state::hidden(completed, (#[trigger] messages[i]).id)
            && messages[i].body is Some && messages[i].body->0 is ToolCall
            && messages[i].body->0->tool != Some(Tool::Subagent) ==> exists|j: int|
            i < j < end && !state::hidden(completed, (#[trigger] messages[j]).id)
                && messages[j].task_id == messages[i].task_id && messages[j].body == Some(
                message::BodyView::ToolCallResult {
                    tool_call_id: messages[i].body->0->ToolCall_tool_call_id,
                },
            );
    if closed_tool_groups(messages, completed, end) {
        assert forall|i: int|
            0 <= i < end && !state::hidden(completed, (#[trigger] messages[i]).id)
                && messages[i].body is Some && messages[i].body->0 is ToolCall
                && messages[i].body->0->tool != Some(Tool::Subagent) implies exists|j: int|
            i < j < end && !state::hidden(completed, (#[trigger] messages[j]).id)
                && messages[j].task_id == messages[i].task_id && messages[j].body == Some(
                message::BodyView::ToolCallResult {
                    tool_call_id: messages[i].body->0->ToolCall_tool_call_id,
                },
            ) by {
            assert(call_at(messages, completed, i) is Some);
        }
    }
    if raw_closed {
        assert forall|i: int|
            0 <= i < end && #[trigger] call_at(messages, completed, i) is Some implies answered(
            messages,
            completed,
            i,
            end,
        ) by {
            assert(!state::hidden(completed, messages[i].id));
        }
    }
    if new_content(messages, completed, end) {
        let i = choose|i: int|
            0 <= i < end && #[trigger] shown_at(messages, completed, i) && has_content(
                messages[i],
            );
        assert(!state::hidden(completed, messages[i].id));
    }
    if exists|i: int|
        0 <= i < end && !state::hidden(completed, (#[trigger] messages[i]).id)
            && messages[i].body is Some && (messages[i].body->0 is UserQuery
            || messages[i].body->0 is AgentOutput || messages[i].body->0 is ToolCall
            || messages[i].body->0 is ToolCallResult) {
        let i = choose|i: int|
            0 <= i < end && !state::hidden(completed, (#[trigger] messages[i]).id)
                && messages[i].body is Some && (messages[i].body->0 is UserQuery
                || messages[i].body->0 is AgentOutput || messages[i].body->0 is ToolCall
                || messages[i].body->0 is ToolCallResult);
        assert(shown_at(messages, completed, i));
    }
}

/// A plan names the messages in front of its end, the first of them as the place of the summary,
/// and the first one behind them; it remembers every message and task that was there, the
/// latest summary, and how long the new one may be.
pub proof fn law_what_a_plan_holds(
    messages: Seq<message::MessageView>,
    completed: Seq<state::CompletedView>,
    end: int,
    max_output: usize,
    k: int,
)
    requires
        0 < end <= messages.len(),
        0 <= k < messages.len(),
    ensures
        ({
            let plan = plan_for(messages, completed, end, max_output);
            &&& plan.head_message_ids.len() == end
            &&& k < end ==> plan.head_message_ids[k] == messages[k].id
            &&& plan.source_messages.len() == end
            &&& k < end ==> plan.source_messages[k] == messages[k]
            &&& plan.anchor_message_id == messages[0].id
            &&& end < messages.len() ==> plan.tail_start_id == Some(messages[end].id)
            &&& end == messages.len() ==> plan.tail_start_id is None
            &&& plan.original_message_ids.len() == messages.len()
            &&& plan.original_message_ids[k] == messages[k].id
            &&& plan.original_task_ids.len() == messages.len()
            &&& plan.original_task_ids[k] == messages[k].task_id
            &&& completed.len() > 0 ==> plan.previous_summary == completed.last().summary_text
                && plan.previous_summary_id == Some(completed.last().assistant_msg_id)
            &&& completed.len() == 0 ==> plan.previous_summary is None
                && plan.previous_summary_id is None
            &&& max_output <= 0xffff_ffff ==> plan.max_output_tokens == max_output
            &&& max_output > 0xffff_ffff ==> plan.max_output_tokens == 0xffff_ffffu32
        }),
{
}

/// The ends are tried from the chosen one down, and only then from the chosen one up: every end
/// that is preferred over another one is tried before it, and each end from one to the last is
/// tried once.
pub proof fn law_order_in_which_ends_are_tried(chosen: int, count: int, e: int, other: int)
    requires
        0 <= chosen <= count,
        1 <= e <= count,
        1 <= other <= count,
        e != other,
        (other <= chosen && (e > chosen || e < other)) || (chosen < other && other < e),
    ensures
        exists|j: int, k: int|
            0 <= j < k < count && #[trigger] candidate_end(chosen, j) == other
                && #[trigger] candidate_end(chosen, k) == e,
        forall|j: int, k: int|
            0 <= j < count && 0 <= k < count && #[trigger] candidate_end(chosen, j)
                == #[trigger] candidate_end(chosen, k) ==> j == k,
        forall|j: int|
            0 <= j < count ==> 1 <= #[trigger] candidate_end(chosen, j) <= count,
{
    let j = if other <= chosen {
        chosen - other
    } else {
        other - 1
    };
    let k = if e <= chosen {
        chosen - e
    } else {
        e - 1
    };
    assert(candidate_end(chosen, j) == other);
    assert(candidate_end(chosen, k) == e);
}

proof fn lemma_nth_kept(
    s: Seq<message::MessageView>,
    keep: spec_fn(message::MessageView) -> bool,
    k: int,
) -> (c: int)
    requires
        0 <= k < s.filter(keep).len(),
    ensures
        0 <= c < s.len(),
        s[c] == s.filter(keep)[k],
        keep(s[c]),
        s.take(c).filter(keep).len() == k,
    decreases s.len(),
{
    reveal(Seq::filter);
    let rest = s.drop_last();
    let last = s.len() - 1;
    if keep(s.last()) && k == rest.filter(keep).len() {
        assert(s.take(last) =~= rest);
        last
    } else {
        let c = lemma_nth_kept(rest, keep, k);
        assert(s.take(c) =~= rest.take(c));
        c
    }
}

proof fn lemma_position_of(messages: Seq<message::MessageView>, c: int)
    requires
        distinct_ids(messages),
        0 <= c < messages.len(),
    ensures
        position(messages, messages[c].id) == c,
    decreases messages.len(),
{
    if c > 0 {
        let rest = messages.drop_first();
        assert(messages[0].id != messages[c].id);
        assert forall|i: int, j: int| 0 <= i < j < rest.len() implies (#[trigger] rest[i]).id != (
        #[trigger] rest[j]).id by {
            assert(rest[i] == messages[i + 1] && rest[j] == messages[j + 1]);
        }
        lemma_position_of(rest, c - 1);
        assert(rest[c - 1] == messages[c]);
    }
}

/// The chosen end leaves exactly as many visible messages in front of it as were selected, and a
/// visible message stands there; where that many or fewer are visible, it is the end of the
/// history.
pub proof fn law_chosen_end_keeps_what_was_selected(
    messages: Seq<message::MessageView>,
    completed: Seq<state::CompletedView>,
    selected: int,
)
    requires
        distinct_ids(messages),
        0 <= selected,
    ensures
        ({
            let shown = |m: message::MessageView| !state::hidden(completed, m.id);
            let chosen = chosen_end(messages, completed, selected);
            if selected < messages.filter(shown).len() {
                &&& 0 <= chosen < messages.len()
                &&& !state::hidden(completed, messages[chosen].id)
                &&& messages.take(chosen).filter(shown).len() == selected
            } else {
                chosen == messages.len()
            }
        }),
{
    let shown = |m: message::MessageView| !state::hidden(completed, m.id);
    assert(visible(messages, completed) == messages.filter(shown));
    if selected < messages.filter(shown).len() {
        let c = lemma_nth_kept(messages, shown, selected);
        lemma_position_of(messages, c);
    }
}

/// A plan is current exactly as long as nothing was summarized since, the messages of its range
/// are there as they were, in their order, and none of its own tasks has got a message between
/// them that was not there.
pub proof fn law_how_long_a_plan_is_current(
    messages: Seq<message::MessageView>,
    history: Seq<message::MessageView>,
    completed: Seq<state::CompletedView>,
    now: Seq<state::CompletedView>,
    end: int,
    max_output: usize,
)
    requires
        0 < end <= messages.len(),
    ensures
        current(plan_for(messages, completed, end, max_output), history, now) <==> {
            &&& state::latest_summary_id(now) == state::latest_summary_id(completed)
            &&& state::latest_summary(now) == state::latest_summary(completed)
            &&& history.filter(
                |m: message::MessageView|
                    exists|k: int| 0 <= k < end && (#[trigger] messages[k]).id == m.id,
            ) == messages.take(end)
            &&& forall|i: int, j: int, k: int, t: int|
                0 <= i <= j < history.len() && 0 <= k < end && (#[trigger] messages[k]).id == (
                #[trigger] history[j]).id && 0 <= t < messages.len() && (
                #[trigger] messages[t]).task_id == (#[trigger] history[i]).task_id ==> exists|
                    o: int,
                |
                    0 <= o < messages.len() && (#[trigger] messages[o]).id == history[i].id
        },
{
    let plan = plan_for(messages, completed, end, max_output);
    let head = |m: message::MessageView| plan.head_message_ids.contains(m.id);
    let raw = |m: message::MessageView|
        exists|k: int| 0 <= k < end && (#[trigger] messages[k]).id == m.id;
    assert forall|m: message::MessageView| #[trigger] head(m) == raw(m) by {
        if head(m) {
            let k = choose|k: int|
                0 <= k < plan.head_message_ids.len() && plan.head_message_ids[k] == m.id;
            assert(messages[k].id == m.id);
        }
        if raw(m) {
            let k = choose|k: int| 0 <= k < end && (#[trigger] messages[k]).id == m.id;
            assert(plan.head_message_ids[k] == m.id);
        }
    }
    lemma_same_filter(history, head, raw);
    assert forall|id: Seq<char>| #[trigger] plan.original_message_ids.contains(id) <==> exists|
        o: int,
    |
        0 <= o < messages.len() && (#[trigger] messages[o]).id == id by {
        if plan.original_message_ids.contains(id) {
            let o = choose|o: int|
                0 <= o < plan.original_message_ids.len() && plan.original_message_ids[o] == id;
            assert(messages[o].id == id);
        }
        if exists|o: int| 0 <= o < messages.len() && (#[trigger] messages[o]).id == id {
            let o = choose|o: int| 0 <= o < messages.len() && (#[trigger] messages[o]).id == id;
            assert(plan.original_message_ids[o] == id);
        }
    }
    assert forall|id: Seq<char>| #[trigger] plan.original_task_ids.contains(id) <==> exists|
        o: int,
    |
        0 <= o < messages.len() && (#[trigger] messages[o]).task_id == id by {
        if plan.original_task_ids.contains(id) {
            let o = choose|o: int|
                0 <= o < plan.original_task_ids.len() && plan.original_task_ids[o] == id;
            assert(messages[o].task_id == id);
        }
        if exists|o: int| 0 <= o < messages.len() && (#[trigger] messages[o]).task_id == id {
            let o = choose|o: int|
                0 <= o < messages.len() && (#[trigger] messages[o]).task_id == id;
            assert(plan.original_task_ids[o] == id);
        }
    }
    if current(plan, history, now) {
        assert forall|i: int, j: int, k: int, t: int|
            0 <= i <= j < history.len() && 0 <= k < end && (#[trigger] messages[k]).id == (
            #[trigger] history[j]).id && 0 <= t < messages.len() && (
            #[trigger] messages[t]).task_id == (#[trigger] history[i]).task_id implies exists|
            o: int,
        |
            0 <= o < messages.len() && (#[trigger] messages[o]).id == history[i].id by {
            assert(raw(history[j]));
            assert(head(history[j]));
            assert(in_head(plan, history[j]));
            assert(known(plan, history[i]));
            assert(plan.original_task_ids.contains(history[i].task_id));
            assert(plan.original_message_ids.contains(history[i].id));
        }
    }
    if history.filter(raw) == messages.take(end) {
        let kept = history.filter(head);
        assert(kept.len() > 0);
        let c = lemma_nth_kept(history, head, 0);
        assert(in_head(plan, history[c]));
    }
    if forall|i: int, j: int, k: int, t: int|
        0 <= i <= j < history.len() && 0 <= k < end && (#[trigger] messages[k]).id == (
        #[trigger] history[j]).id && 0 <= t < messages.len() && (#[trigger] messages[t]).task_id
            == (#[trigger] history[i]).task_id ==> exists|o: int|
            0 <= o < messages.len() && (#[trigger] messages[o]).id == history[i].id {
        assert forall|i: int, j: int|
            0 <= i <= j < history.len() && in_head(plan, #[trigger] history[j]) implies known(
            plan,
            #[trigger] history[i],
        ) by {
            assert(head(history[j]));
            assert(raw(history[j]));
            let k = choose|k: int| 0 <= k < end && (#[trigger] messages[k]).id == history[j].id;
            if plan.original_task_ids.contains(history[i].task_id) {
                let t = choose|t: int|
                    0 <= t < messages.len() && (#[trigger] messages[t]).task_id
                        == history[i].task_id;
                assert(messages[k].id == history[j].id && messages[t].task_id
                    == history[i].task_id);
                assert(plan.original_message_ids.contains(history[i].id));
            }
        }
    }
}

proof fn lemma_same_filter(
    s: Seq<message::MessageView>,
    a: spec_fn(message::MessageView) -> bool,
    b: spec_fn(message::MessageView) -> bool,
)
    requires
        forall|m: message::MessageView| #[trigger] a(m) == b(m),
    ensures
        s.filter(a) == s.filter(b),
    decreases s.len(),
{
    reveal(Seq::filter);
    if s.len() > 0 {
        lemma_same_filter(s.drop_last(), a, b);
        assert(a(s.last()) == b(s.last()));
    }
}

/// A plan covers the beginning of a history exactly where the history is the messages of its
/// range, as they were, with anything behind them.
pub proof fn law_plan_covers_its_own_messages(
    plan: PlanView,
    later: Seq<message::MessageView>,
    messages: Seq<message::MessageView>,
)
    ensures
        covered(plan, plan.source_messages + later) == Some(plan.source_messages.len()),
        covered(plan, messages) is Some ==> messages == plan.source_messages + messages.skip(
            plan.source_messages.len() as int,
        ),
{
    let all = plan.source_messages + later;
    assert(all.take(plan.source_messages.len() as int) =~= plan.source_messages);
    if covered(plan, messages) is Some {
        let n = plan.source_messages.len() as int;
        assert(messages =~= messages.take(n) + messages.skip(n));
    }
}

} // verus!
