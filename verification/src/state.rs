//! What a conversation remembers of its summaries.

use vstd::prelude::*;
use crate::agent::AIAgentExchangeId;
use crate::recovery::PendingCompactionRecovery;
use crate::text;
use crate::text::copy_texts;

verus! {

/// A summary that has taken the place of older messages.
#[derive(Debug, Clone, PartialEq, Eq)]
pub struct CompletedCompaction {
    pub user_msg_id: String,
    pub assistant_msg_id: String,
    pub summary_message_ids: Vec<String>,
    pub head_message_ids: Vec<String>,
    pub tail_start_id: Option<String>,
    pub summary_text: Option<String>,
    pub auto: bool,
    pub overflow: bool,
}

pub struct CompletedView {
    pub user_msg_id: Seq<char>,
    pub assistant_msg_id: Seq<char>,
    pub summary_message_ids: Seq<Seq<char>>,
    pub head_message_ids: Seq<Seq<char>>,
    pub tail_start_id: Option<Seq<char>>,
    pub summary_text: Option<Seq<char>>,
    pub auto: bool,
    pub overflow: bool,
}

impl View for CompletedCompaction {
    type V = CompletedView;

    open spec fn view(&self) -> CompletedView {
        CompletedView {
            user_msg_id: self.user_msg_id@,
            assistant_msg_id: self.assistant_msg_id@,
            summary_message_ids: text::texts(self.summary_message_ids@),
            head_message_ids: text::texts(self.head_message_ids@),
            tail_start_id: text::option_text(self.tail_start_id),
            summary_text: text::option_text(self.summary_text),
            auto: self.auto,
            overflow: self.overflow,
        }
    }
}

pub open spec fn completed_views(list: Seq<CompletedCompaction>) -> Seq<CompletedView> {
    list.map_values(|c: CompletedCompaction| c@)
}

/// Says when the output of a tool was replaced by a placeholder.
#[derive(Debug, Clone, PartialEq, Eq)]
pub struct ToolMarker {
    pub message_id: String,
    pub tool_output_compacted_at: u64,
}

pub open spec fn marker_views(list: Seq<ToolMarker>) -> Seq<(Seq<char>, u64)> {
    list.map_values(|m: ToolMarker| (m.message_id@, m.tool_output_compacted_at))
}

/// When the output of a message was replaced.
pub open spec fn compacted_at(markers: Seq<(Seq<char>, u64)>, id: Seq<char>) -> Option<u64>
    decreases markers.len(),
{
    if markers.len() == 0 {
        None
    } else if markers.last().0 == id {
        Some(markers.last().1)
    } else {
        compacted_at(markers.drop_last(), id)
    }
}

#[derive(Debug, Clone, PartialEq, Eq)]
pub struct CompactionState {
    pub markers: Vec<ToolMarker>,
    pub completed: Vec<CompletedCompaction>,
    pub pending_recovery: Option<PendingCompactionRecovery>,
    /// Inputs that were never sent and gave way to a newer one. They are shown, and nothing
    /// resumes them.
    pub retained_recoveries: Vec<PendingCompactionRecovery>,
}

/// A summary has taken the place of the message, or the message is part of a summary.
pub open spec fn hidden(completed: Seq<CompletedView>, id: Seq<char>) -> bool {
    exists|k: int|
        0 <= k < completed.len() && hides(#[trigger] completed[k], id)
}

pub open spec fn hides(c: CompletedView, id: Seq<char>) -> bool {
    c.head_message_ids.contains(id) || c.summary_message_ids.contains(id)
}

/// The text of the latest summary.
pub open spec fn latest_summary(completed: Seq<CompletedView>) -> Option<Seq<char>> {
    if completed.len() == 0 {
        None
    } else {
        completed.last().summary_text
    }
}

/// The message that holds the latest summary.
pub open spec fn latest_summary_id(completed: Seq<CompletedView>) -> Option<Seq<char>> {
    if completed.len() == 0 {
        None
    } else {
        Some(completed.last().assistant_msg_id)
    }
}

/// An input with this id has been put aside.
pub open spec fn retains(list: Seq<PendingCompactionRecovery>, id: AIAgentExchangeId) -> bool {
    exists|k: int| 0 <= k < list.len() && (#[trigger] list[k]).id == id
}

/// The inputs that are put aside once `next` waits.
pub open spec fn put_aside(state: CompactionState, next: AIAgentExchangeId) -> Seq<
    PendingCompactionRecovery,
> {
    match state.pending_recovery {
        Some(previous) => if previous.id != next && !retains(
            state.retained_recoveries@,
            previous.id,
        ) {
            state.retained_recoveries@.push(previous)
        } else {
            state.retained_recoveries@
        },
        None => state.retained_recoveries@,
    }
}

/// The input with this id waits.
pub open spec fn waits(state: CompactionState, id: AIAgentExchangeId) -> bool {
    state.pending_recovery is Some && state.pending_recovery->0.id == id
}

/// `recovery` waits afterwards.
pub open spec fn now_waits(
    before: CompactionState,
    after: CompactionState,
    recovery: PendingCompactionRecovery,
) -> bool {
    &&& after.pending_recovery == Some(recovery)
    &&& after.retained_recoveries@ == put_aside(before, recovery.id)
    &&& after.markers == before.markers
    &&& after.completed == before.completed
}

/// The input with this id waits no longer, if it did.
pub open spec fn no_longer_waits(
    before: CompactionState,
    after: CompactionState,
    id: AIAgentExchangeId,
    done: bool,
) -> bool {
    &&& done == waits(before, id)
    &&& done ==> after.pending_recovery is None
    &&& !done ==> after.pending_recovery == before.pending_recovery
    &&& after.retained_recoveries == before.retained_recoveries
    &&& after.markers == before.markers
    &&& after.completed == before.completed
}

/// The input with this id goes out under `request_id`, if it waits.
pub open spec fn now_goes_out(
    before: CompactionState,
    after: CompactionState,
    id: AIAgentExchangeId,
    request_id: String,
    done: bool,
) -> bool {
    &&& done == waits(before, id)
    &&& done ==> after.pending_recovery == Some(
        (PendingCompactionRecovery {
            resumed_request_id: Some(request_id),
            ..before.pending_recovery->0
        }),
    )
    &&& !done ==> after.pending_recovery == before.pending_recovery
    &&& after.retained_recoveries == before.retained_recoveries
    &&& after.markers == before.markers
    &&& after.completed == before.completed
}

/// The exchange `owner` carries the input with this id, if it waits.
pub open spec fn now_carried(
    before: CompactionState,
    after: CompactionState,
    id: AIAgentExchangeId,
    owner: AIAgentExchangeId,
    done: bool,
) -> bool {
    &&& done == waits(before, id)
    &&& done ==> after.pending_recovery == Some(
        (PendingCompactionRecovery {
            owner_exchange_id: Some(owner),
            ..before.pending_recovery->0
        }),
    )
    &&& !done ==> after.pending_recovery == before.pending_recovery
    &&& after.retained_recoveries == before.retained_recoveries
    &&& after.markers == before.markers
    &&& after.completed == before.completed
}

impl Default for CompactionState {
    /// No summary, and nothing waits.
    fn default() -> (r: CompactionState)
        ensures
            r.markers@.len() == 0,
            r.completed@.len() == 0,
            r.pending_recovery is None,
            r.retained_recoveries@.len() == 0,
    {
        CompactionState {
            markers: Vec::new(),
            completed: Vec::new(),
            pending_recovery: None,
            retained_recoveries: Vec::new(),
        }
    }
}

impl CompactionState {
    pub fn completed(&self) -> (r: &Vec<CompletedCompaction>)
        ensures
            *r == self.completed,
    {
        &self.completed
    }

    pub fn pending_recovery(&self) -> (r: Option<&PendingCompactionRecovery>)
        ensures
            r is Some <==> self.pending_recovery is Some,
            r is Some ==> *r->0 == self.pending_recovery->0,
    {
        match &self.pending_recovery {
            Some(recovery) => Some(recovery),
            None => None,
        }
    }

    pub fn retained_recoveries(&self) -> (r: &Vec<PendingCompactionRecovery>)
        ensures
            *r == self.retained_recoveries,
    {
        &self.retained_recoveries
    }

    /// The messages that a summary has taken the place of, and those that make up a summary.
    pub fn hidden_message_ids(&self) -> (r: Vec<String>)
        ensures
            forall|id: Seq<char>| #[trigger]
                text::texts(r@).contains(id) <==> hidden(completed_views(self.completed@), id),
    {
        let ghost views = completed_views(self.completed@);
        let mut ids: Vec<String> = Vec::new();
        let mut i: usize = 0;
        assert(text::texts(ids@) =~= Seq::<Seq<char>>::empty());
        while i < self.completed.len()
            invariant
                i <= self.completed.len(),
                views == completed_views(self.completed@),
                forall|id: Seq<char>| #[trigger]
                    text::texts(ids@).contains(id) <==> hidden(views.take(i as int), id),
            decreases self.completed.len() - i,
        {
            let ghost before = text::texts(ids@);
            let mut heads: Vec<String> = copy_texts(&self.completed[i].head_message_ids);
            let mut parts: Vec<String> = copy_texts(&self.completed[i].summary_message_ids);
            let ghost h = text::texts(heads@);
            let ghost p = text::texts(parts@);
            ids.append(&mut heads);
            ids.append(&mut parts);
            proof {
                assert(text::texts(ids@) =~= before + h + p);
                let c = views[i as int];
                let seen = views.take(i as int);
                let now = views.take(i + 1);
                assert forall|id: Seq<char>| #[trigger]
                    text::texts(ids@).contains(id) <==> hidden(now, id) by {
                    lemma_contains_concat(before + h, p, id);
                    lemma_contains_concat(before, h, id);
                    if hidden(seen, id) {
                        let k = choose|k: int| 0 <= k < seen.len() && hides(#[trigger] seen[k], id);
                        assert(hides(now[k], id));
                    }
                    if hides(c, id) {
                        assert(hides(now[i as int], id));
                    }
                    if hidden(now, id) {
                        let k = choose|k: int| 0 <= k < now.len() && hides(#[trigger] now[k], id);
                        if k < i {
                            assert(hides(seen[k], id));
                        }
                    }
                }
            }
            i += 1;
        }
        assert(views.take(i as int) =~= views);
        ids
    }

    /// The text of the latest summary.
    pub fn previous_summary(&self) -> (r: Option<&String>)
        ensures
            match r {
                Some(s) => latest_summary(completed_views(self.completed@)) == Some(s@),
                None => latest_summary(completed_views(self.completed@)) is None,
            },
    {
        if self.completed.len() == 0 {
            None
        } else {
            let last: &CompletedCompaction = &self.completed[self.completed.len() - 1];
            match &last.summary_text {
                Some(s) => Some(s),
                None => None,
            }
        }
    }

    /// The message that holds the latest summary.
    pub fn previous_summary_id(&self) -> (r: Option<&String>)
        ensures
            match r {
                Some(s) => latest_summary_id(completed_views(self.completed@)) == Some(s@),
                None => latest_summary_id(completed_views(self.completed@)) is None,
            },
    {
        if self.completed.len() == 0 {
            None
        } else {
            Some(&self.completed[self.completed.len() - 1].assistant_msg_id)
        }
    }

    pub fn push_completed(&mut self, completed: CompletedCompaction)
        ensures
            final(self).completed@ == old(self).completed@.push(completed),
            final(self).markers == old(self).markers,
            final(self).pending_recovery == old(self).pending_recovery,
            final(self).retained_recoveries == old(self).retained_recoveries,
    {
        self.completed.push(completed);
    }

    /// Notes that the output of a tool was replaced at `at`.
    pub fn mark_tool_compacted(&mut self, message_id: String, at: u64)
        ensures
            forall|id: Seq<char>| #[trigger]
                compacted_at(marker_views(final(self).markers@), id) == (if id == message_id@ {
                    Some(at)
                } else {
                    compacted_at(marker_views(old(self).markers@), id)
                }),
            final(self).completed == old(self).completed,
            final(self).pending_recovery == old(self).pending_recovery,
            final(self).retained_recoveries == old(self).retained_recoveries,
    {
        let ghost before = marker_views(self.markers@);
        let mut i: usize = self.markers.len();
        assert(before.take(i as int) =~= before);
        while i > 0
            invariant
                i <= self.markers.len(),
                *self == *old(self),
                before == marker_views(self.markers@),
                forall|k: int| i <= k < before.len() ==> (#[trigger] before[k]).0 != message_id@,
            decreases i,
        {
            i -= 1;
            if self.markers[i].message_id == message_id {
                self.markers[i].tool_output_compacted_at = at;
                proof {
                    let after = marker_views(self.markers@);
                    assert(after =~= before.update(i as int, (message_id@, at)));
                    assert forall|id: Seq<char>| #[trigger]
                        compacted_at(after, id) == (if id == message_id@ {
                            Some(at)
                        } else {
                            compacted_at(before, id)
                        }) by {
                        lemma_marker_changed(before, i as int, message_id@, at, id);
                    }
                }
                return;
            }
            assert(before[i as int].0 != message_id@);
        }
        let ghost key = message_id@;
        self.markers.push(ToolMarker { message_id, tool_output_compacted_at: at });
        proof {
            let after = marker_views(self.markers@);
            assert(after.drop_last() =~= before);
            assert(after.last() == (key, at));
        }
    }

    /// Lets `recovery` wait. Another input that waited is put aside once, not dropped.
    pub fn set_pending_recovery(&mut self, recovery: PendingCompactionRecovery)
        ensures
            now_waits(*old(self), *final(self), recovery),
            final(self).pending_recovery == Some(recovery),
            final(self).retained_recoveries@ == put_aside(*old(self), recovery.id),
            final(self).markers == old(self).markers,
            final(self).completed == old(self).completed,
    {
        let previous: Option<PendingCompactionRecovery> = self.pending_recovery.take();
        if let Some(older) = previous {
            if older.id != recovery.id && !self.has_retained(older.id) {
                self.retained_recoveries.push(older);
            }
        }
        self.pending_recovery = Some(recovery);
    }

    fn has_retained(&self, id: AIAgentExchangeId) -> (r: bool)
        ensures
            r == retains(self.retained_recoveries@, id),
    {
        let mut i: usize = 0;
        while i < self.retained_recoveries.len()
            invariant
                i <= self.retained_recoveries.len(),
                forall|k: int|
                    0 <= k < i ==> (#[trigger] self.retained_recoveries@[k]).id != id,
            decreases self.retained_recoveries.len() - i,
        {
            if self.retained_recoveries[i].id == id {
                return true;
            }
            i += 1;
        }
        false
    }

    /// Drops the input that waits, if it is the one with this id.
    pub fn clear_pending_recovery(&mut self, id: AIAgentExchangeId) -> (r: bool)
        ensures
            no_longer_waits(*old(self), *final(self), id, r),
            r == waits(*old(self), id),
            r ==> final(self).pending_recovery is None,
            !r ==> final(self).pending_recovery == old(self).pending_recovery,
            final(self).retained_recoveries == old(self).retained_recoveries,
            final(self).markers == old(self).markers,
            final(self).completed == old(self).completed,
    {
        if !self.is_waiting(id) {
            return false;
        }
        self.pending_recovery = None;
        true
    }

    fn is_waiting(&self, id: AIAgentExchangeId) -> (r: bool)
        ensures
            r == waits(*self, id),
    {
        match &self.pending_recovery {
            Some(recovery) => recovery.id == id,
            None => false,
        }
    }

    /// Notes the request under which the waiting input goes out, if it is the one with this
    /// id.
    pub fn mark_recovery_resumed(&mut self, id: AIAgentExchangeId, request_id: String) -> (r: bool)
        ensures
            now_goes_out(*old(self), *final(self), id, request_id, r),
            r == waits(*old(self), id),
            r ==> final(self).pending_recovery == Some(
                (PendingCompactionRecovery {
                    resumed_request_id: Some(request_id),
                    ..old(self).pending_recovery->0
                }),
            ),
            !r ==> final(self).pending_recovery == old(self).pending_recovery,
            final(self).retained_recoveries == old(self).retained_recoveries,
            final(self).markers == old(self).markers,
            final(self).completed == old(self).completed,
    {
        if !self.is_waiting(id) {
            return false;
        }
        match &mut self.pending_recovery {
            Some(recovery) => {
                recovery.resumed_request_id = Some(request_id);
            },
            None => {},
        }
        true
    }

    /// Notes the exchange that carries the waiting input, if it is the one with this id.
    pub fn set_recovery_owner(&mut self, id: AIAgentExchangeId, owner: AIAgentExchangeId) -> (r:
        bool)
        ensures
            now_carried(*old(self), *final(self), id, owner, r),
            r == waits(*old(self), id),
            r ==> final(self).pending_recovery == Some(
                (PendingCompactionRecovery {
                    owner_exchange_id: Some(owner),
                    ..old(self).pending_recovery->0
                }),
            ),
            !r ==> final(self).pending_recovery == old(self).pending_recovery,
            final(self).retained_recoveries == old(self).retained_recoveries,
            final(self).markers == old(self).markers,
            final(self).completed == old(self).completed,
    {
        if !self.is_waiting(id) {
            return false;
        }
        match &mut self.pending_recovery {
            Some(recovery) => {
                recovery.owner_exchange_id = Some(owner);
            },
            None => {},
        }
        true
    }
}

proof fn lemma_contains_concat(a: Seq<Seq<char>>, b: Seq<Seq<char>>, x: Seq<char>)
    ensures
        (a + b).contains(x) <==> a.contains(x) || b.contains(x),
{
    if a.contains(x) {
        let k = choose|k: int| 0 <= k < a.len() && a[k] == x;
        assert((a + b)[k] == x);
    }
    if b.contains(x) {
        let k = choose|k: int| 0 <= k < b.len() && b[k] == x;
        assert((a + b)[a.len() + k] == x);
    }
}

proof fn lemma_marker_changed(
    before: Seq<(Seq<char>, u64)>,
    i: int,
    name: Seq<char>,
    at: u64,
    id: Seq<char>,
)
    requires
        0 <= i < before.len(),
        before[i].0 == name,
        forall|k: int| i < k < before.len() ==> (#[trigger] before[k]).0 != name,
    ensures
        compacted_at(before.update(i, (name, at)), id) == (if id == name {
            Some(at)
        } else {
            compacted_at(before, id)
        }),
    decreases before.len(),
{
    let after = before.update(i, (name, at));
    let last = before.len() - 1;
    if i == last {
        assert(after.drop_last() =~= before.drop_last());
    } else {
        assert(before[last].0 != name);
        assert(after[last] == before[last]);
        assert(after.drop_last() =~= before.drop_last().update(i, (name, at)));
        assert forall|k: int| i < k < last implies (#[trigger] before.drop_last()[k]).0 != name by {
            assert(before.drop_last()[k] == before[k]);
        }
        lemma_marker_changed(before.drop_last(), i, name, at, id);
    }
}

/// An input that gives way to another one is kept, and letting the same input wait twice
/// puts it aside no second time.
pub proof fn law_replaced_input_is_kept_once(
    first: CompactionState,
    second: CompactionState,
    third: CompactionState,
    older: PendingCompactionRecovery,
    newer: PendingCompactionRecovery,
)
    requires
        first.pending_recovery == Some(older),
        older.id != newer.id,
        second.pending_recovery == Some(newer),
        second.retained_recoveries@ == put_aside(first, newer.id),
        third.pending_recovery == Some(newer),
        third.retained_recoveries@ == put_aside(second, newer.id),
    ensures
        retains(third.retained_recoveries@, older.id),
        third.retained_recoveries@ == second.retained_recoveries@,
        third.retained_recoveries@.len() <= first.retained_recoveries@.len() + 1,
{
    if !retains(first.retained_recoveries@, older.id) {
        let list = second.retained_recoveries@;
        assert(list[list.len() - 1].id == older.id);
    }
}

/// Nothing that was put aside is lost when another input waits.
pub proof fn law_retained_inputs_stay(state: CompactionState, next: AIAgentExchangeId, k: int)
    requires
        0 <= k < state.retained_recoveries@.len(),
    ensures
        put_aside(state, next).len() >= state.retained_recoveries@.len(),
        put_aside(state, next)[k] == state.retained_recoveries@[k],
{
}

/// A message is hidden exactly where the ids of a summary's range, or of the messages that make
/// up a summary, hold its id.
pub proof fn law_summaries_hide_their_range_and_themselves(
    completed: Seq<CompletedView>,
    c: CompletedView,
    id: Seq<char>,
)
    ensures
        !hidden(Seq::empty(), id),
        hidden(completed.push(c), id) <==> hidden(completed, id) || c.head_message_ids.contains(id)
            || c.summary_message_ids.contains(id),
{
    let all = completed.push(c);
    if hidden(completed, id) {
        let k = choose|k: int| 0 <= k < completed.len() && hides(#[trigger] completed[k], id);
        assert(hides(all[k], id));
    }
    if hides(c, id) {
        assert(hides(all[completed.len() as int], id));
    }
    if hidden(all, id) {
        let k = choose|k: int| 0 <= k < all.len() && hides(#[trigger] all[k], id);
        if k < completed.len() {
            assert(hides(completed[k], id));
        }
    }
}

/// The latest summary is the one that was committed last.
pub proof fn law_latest_summary_is_the_last_one(completed: Seq<CompletedView>, c: CompletedView)
    ensures
        latest_summary(completed.push(c)) == c.summary_text,
        latest_summary_id(completed.push(c)) == Some(c.assistant_msg_id),
        latest_summary(Seq::empty()) is None,
        latest_summary_id(Seq::empty()) is None,
{
}

/// A message has the mark that was set last, and no mark where none was set.
pub proof fn law_last_mark_counts(
    markers: Seq<(Seq<char>, u64)>,
    marker: (Seq<char>, u64),
    id: Seq<char>,
)
    ensures
        compacted_at(Seq::empty(), id) is None,
        compacted_at(markers.push(marker), marker.0) == Some(marker.1),
        id != marker.0 ==> compacted_at(markers.push(marker), id) == compacted_at(markers, id),
{
    assert(markers.push(marker).drop_last() =~= markers);
}

/// An input that waits is put aside, as it is, when another one takes its place; it is not put
/// aside where it takes its own place or is put aside already, and nothing else is.
pub proof fn law_input_that_gives_way_is_put_aside(
    state: CompactionState,
    older: PendingCompactionRecovery,
    next: AIAgentExchangeId,
)
    ensures
        state.pending_recovery == Some(older) && older.id != next && (forall|k: int|
            0 <= k < state.retained_recoveries@.len() ==> (
            #[trigger] state.retained_recoveries@[k]).id != older.id) ==> put_aside(state, next)
            == state.retained_recoveries@.push(older),
        state.pending_recovery == Some(older) && older.id == next ==> put_aside(state, next)
            == state.retained_recoveries@,
        state.pending_recovery == Some(older) && (exists|k: int|
            0 <= k < state.retained_recoveries@.len() && (
            #[trigger] state.retained_recoveries@[k]).id == older.id) ==> put_aside(state, next)
            == state.retained_recoveries@,
        state.pending_recovery is None ==> put_aside(state, next) == state.retained_recoveries@,
{
}

/// Only the input that waits is told by its id; another id, or no input, means nothing.
pub proof fn law_only_the_waiting_input_is_told_by_its_id(
    state: CompactionState,
    older: PendingCompactionRecovery,
    id: AIAgentExchangeId,
)
    ensures
        state.pending_recovery == Some(older) ==> (waits(state, id) <==> older.id.value
            == id.value),
        state.pending_recovery is None ==> !waits(state, id),
{
}

/// What is remembered of a summary tells all of its fields apart.
pub proof fn law_views_of_summaries_keep_every_field(a: CompletedCompaction, b: CompletedCompaction)
    requires
        a@ == b@,
    ensures
        a.user_msg_id@ == b.user_msg_id@,
        a.assistant_msg_id@ == b.assistant_msg_id@,
        text::texts(a.summary_message_ids@) == text::texts(b.summary_message_ids@),
        text::texts(a.head_message_ids@) == text::texts(b.head_message_ids@),
        text::option_text(a.tail_start_id) == text::option_text(b.tail_start_id),
        text::option_text(a.summary_text) == text::option_text(b.summary_text),
        a.auto == b.auto,
        a.overflow == b.overflow,
{
}

/// Letting an input wait, sending it, binding it to an exchange and dropping it change nothing
/// about the summaries and the marks.
pub proof fn law_waiting_inputs_leave_summaries_alone(
    before: CompactionState,
    after: CompactionState,
    recovery: PendingCompactionRecovery,
    id: AIAgentExchangeId,
    owner: AIAgentExchangeId,
    request_id: String,
    done: bool,
)
    requires
        now_waits(before, after, recovery) || no_longer_waits(before, after, id, done)
            || now_goes_out(before, after, id, request_id, done) || now_carried(
            before,
            after,
            id,
            owner,
            done,
        ),
    ensures
        after.completed == before.completed,
        after.markers == before.markers,
        !now_waits(before, after, recovery) ==> after.retained_recoveries
            == before.retained_recoveries,
{
}

/// The input that was set last waits, and an input that waited before it is still there.
pub proof fn law_last_input_waits(
    before: CompactionState,
    after: CompactionState,
    recovery: PendingCompactionRecovery,
    older: PendingCompactionRecovery,
)
    requires
        now_waits(before, after, recovery),
    ensures
        after.pending_recovery == Some(recovery),
        before.pending_recovery == Some(older) && older.id != recovery.id ==> exists|k: int|
            0 <= k < after.retained_recoveries@.len() && (
            #[trigger] after.retained_recoveries@[k]).id == older.id,
        before.pending_recovery == Some(older) && older.id != recovery.id && (forall|k: int|
            0 <= k < before.retained_recoveries@.len() ==> (
            #[trigger] before.retained_recoveries@[k]).id != older.id)
            ==> after.retained_recoveries@ == before.retained_recoveries@.push(older),
        before.pending_recovery is None ==> after.retained_recoveries@
            == before.retained_recoveries@,
{
    if before.pending_recovery == Some(older) && older.id != recovery.id {
        if retains(before.retained_recoveries@, older.id) {
            let k = choose|k: int|
                0 <= k < before.retained_recoveries@.len() && (
                #[trigger] before.retained_recoveries@[k]).id == older.id;
            assert(after.retained_recoveries@[k].id == older.id);
        } else {
            let n = before.retained_recoveries@.len() as int;
            assert(after.retained_recoveries@[n].id == older.id);
        }
    }
}

/// Only the input that waits can be dropped, sent or bound, and only by its own id: with any
/// other id, an older stream's for one, nothing happens and that is told.
pub proof fn law_stale_ids_change_nothing(
    before: CompactionState,
    after: CompactionState,
    id: AIAgentExchangeId,
    owner: AIAgentExchangeId,
    request_id: String,
    done: bool,
)
    requires
        before.pending_recovery is None || before.pending_recovery->0.id.value != id.value,
        no_longer_waits(before, after, id, done) || now_goes_out(
            before,
            after,
            id,
            request_id,
            done,
        ) || now_carried(before, after, id, owner, done),
    ensures
        !done,
        after.pending_recovery == before.pending_recovery,
        after.retained_recoveries == before.retained_recoveries,
{
}

/// The input that waits is dropped by its id; sent, it remembers its request and nothing else
/// changes in it; bound, it remembers its exchange and nothing else changes in it.
pub proof fn law_own_id_acts_on_the_waiting_input(
    before: CompactionState,
    after: CompactionState,
    waiting: PendingCompactionRecovery,
    owner: AIAgentExchangeId,
    request_id: String,
    done: bool,
)
    requires
        before.pending_recovery == Some(waiting),
    ensures
        no_longer_waits(before, after, waiting.id, done) ==> done
            && after.pending_recovery is None,
        now_goes_out(before, after, waiting.id, request_id, done) ==> {
            &&& done
            &&& after.pending_recovery is Some
            &&& after.pending_recovery->0.resumed_request_id == Some(request_id)
            &&& after.pending_recovery->0.id == waiting.id
            &&& after.pending_recovery->0.owner_exchange_id == waiting.owner_exchange_id
            &&& after.pending_recovery->0.queries == waiting.queries
            &&& after.pending_recovery->0.resume_context == waiting.resume_context
            &&& after.pending_recovery->0.resume_task_id == waiting.resume_task_id
            &&& after.pending_recovery->0.model_id == waiting.model_id
        },
        now_carried(before, after, waiting.id, owner, done) ==> {
            &&& done
            &&& after.pending_recovery is Some
            &&& after.pending_recovery->0.owner_exchange_id == Some(owner)
            &&& after.pending_recovery->0.id == waiting.id
            &&& after.pending_recovery->0.resumed_request_id == waiting.resumed_request_id
            &&& after.pending_recovery->0.queries == waiting.queries
            &&& after.pending_recovery->0.resume_context == waiting.resume_context
            &&& after.pending_recovery->0.resume_task_id == waiting.resume_task_id
            &&& after.pending_recovery->0.model_id == waiting.model_id
        },
{
}

} // verus!
