//! When a conversation is summarized by itself, and when it goes on afterwards.

use vstd::prelude::*;
use crate::agent::AIAgentInput;
use crate::request_budget;
use crate::request_budget::input_token_budget;

verus! {

/// A stream of one answer, as far as summaries depend on it.
#[derive(Debug, Clone, PartialEq, Eq)]
pub struct ResponseStream {
    /// The context window of the user's own provider, where the stream comes from one, and
    /// where the window is known.
    pub byop_context_window: Option<Option<u32>>,
    pub allow_auto_compaction: bool,
    /// What was sent.
    pub input: Vec<AIAgentInput>,
}

/// Four fifths of the budget for the input.
pub open spec fn threshold(context_window: Option<u32>) -> usize {
    request_budget::capped(4 * request_budget::token_budget(context_window)) / 5
}

pub open spec fn asks_for_summary(input: Seq<AIAgentInput>) -> bool {
    exists|k: int| 0 <= k < input.len() && #[trigger] input[k] is SummarizeConversation
}

impl ResponseStream {
    /// A summary is due once this many tokens have been used.
    pub open spec fn summary_due(self, used_tokens: usize, enabled: bool) -> bool {
        enabled && self.allow_auto_compaction && used_tokens > 0 && self.byop_context_window is Some
            && used_tokens >= threshold(self.byop_context_window->0) && !asks_for_summary(
            self.input@,
        )
    }

    /// Whether a summary is due once this many tokens have been used.
    pub fn should_auto_compact(&self, used_tokens: usize, enabled: bool) -> (r: bool)
        ensures
            r == self.summary_due(used_tokens, enabled),
            r == (enabled && self.allow_auto_compaction && used_tokens > 0
                && self.byop_context_window is Some && used_tokens >= threshold(
                self.byop_context_window->0,
            ) && !asks_for_summary(self.input@)),
    {
        if !enabled || !self.allow_auto_compaction || used_tokens == 0 {
            return false;
        }
        let window: Option<u32> = match self.byop_context_window {
            Some(window) => window,
            None => {
                return false;
            },
        };
        let budget: usize = input_token_budget(window);
        let four: usize = budget.saturating_add(budget).saturating_add(budget).saturating_add(
            budget,
        );
        if used_tokens < four / 5 {
            return false;
        }
        let mut i: usize = 0;
        while i < self.input.len()
            invariant
                i <= self.input.len(),
                forall|k: int|
                    0 <= k < i ==> !(#[trigger] self.input@[k] is SummarizeConversation),
            decreases self.input.len() - i,
        {
            if let AIAgentInput::SummarizeConversation { .. } = &self.input[i] {
                return false;
            }
            i += 1;
        }
        true
    }
}

/// The request that waited goes out.
pub open spec fn may_go_on(committed: bool, has_new_stream: bool, has_pending_work: bool) -> bool {
    committed && !has_new_stream && !has_pending_work
}

/// Whether the request that waited goes out after a summary: only where the summary was
/// taken over, and neither another answer nor other work has begun since.
pub fn can_continue_after_byop_compaction(
    committed: bool,
    has_new_stream: bool,
    has_pending_work: bool,
) -> (r: bool)
    ensures
        r == may_go_on(committed, has_new_stream, has_pending_work),
        r == (committed && !has_new_stream && !has_pending_work),
{
    committed && !has_new_stream && !has_pending_work
}

/// A summary is due before the budget for the input is used up.
pub proof fn law_threshold_leaves_room(context_window: Option<u32>)
    ensures
        threshold(context_window) <= request_budget::token_budget(context_window),
{
}

/// A summary is due exactly where it is switched on and allowed, the answer comes from the
/// user's own provider, tokens were used, at least four fifths of the budget for the input, and
/// the request did not ask for a summary itself.
pub proof fn law_when_a_summary_is_due(
    stream: ResponseStream,
    window: Option<u32>,
    used_tokens: usize,
    enabled: bool,
)
    ensures
        stream.byop_context_window is None ==> !stream.summary_due(used_tokens, enabled),
        stream.byop_context_window == Some(window) ==> (stream.summary_due(used_tokens, enabled)
            <==> {
            &&& enabled
            &&& stream.allow_auto_compaction
            &&& used_tokens > 0
            &&& 5 * (used_tokens + 1) > 4 * request_budget::token_budget(window) || 5 * (
            used_tokens + 1) > usize::MAX
            &&& forall|k: int|
                0 <= k < stream.input@.len() ==> !(
                #[trigger] stream.input@[k] is SummarizeConversation)
        }),
{
}

/// The request that waited goes out only where the summary was taken over, and then unless
/// another answer or other work has begun.
pub proof fn law_when_the_waiting_request_goes_on(has_new_stream: bool, has_pending_work: bool)
    ensures
        !may_go_on(false, has_new_stream, has_pending_work),
        may_go_on(true, has_new_stream, has_pending_work) != (has_new_stream || has_pending_work),
{
}

} // verus!
