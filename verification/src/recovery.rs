//! The input that waits while a conversation is summarized. After a restart it is offered
//! to the user again and never sent by itself.

use std::sync::Arc;
use vstd::prelude::*;
use crate::agent::{
    AIAgentContext, AIAgentExchange, AIAgentExchangeId, AIAgentInput, AIAgentOutputStatus,
    AIConversationId, CancellationReason, FinishedAIAgentOutput, LLMId, LocalTime, NamedAttachment,
    ParticipantId, RequestInput, TaskId, TaskInput, UserQueryMode,
};
use crate::message;
use crate::message::{Message, MessageBody};
use crate::text;
use crate::text::{no_text, text_less};

verus! {

/// The input that waits could not be saved.
#[derive(Debug, Clone, PartialEq, Eq)]
pub struct CompactionPersistenceError(pub String);

impl CompactionPersistenceError {
    /// The text under which the error is shown.
    pub fn message(&self) -> (r: String)
        ensures
            r == self.0,
    {
        self.0.clone()
    }
}

/// A question that waits.
#[derive(Debug, Clone, PartialEq, Eq)]
pub struct PendingCompactionQuery {
    pub task_id: TaskId,
    pub query: String,
    pub context: Arc<Vec<AIAgentContext>>,
    pub referenced_attachments: Arc<Vec<NamedAttachment>>,
    pub user_query_mode: UserQueryMode,
}

/// Wraps `Arc::clone`. The clone points to the same value.
#[verifier::external_body]
fn share<T>(value: &Arc<T>) -> (r: Arc<T>)
    ensures
        r == *value,
{
    value.clone()
}

impl PendingCompactionQuery {
    pub open spec fn spec_input(self) -> AIAgentInput {
        AIAgentInput::UserQuery {
            query: self.query,
            context: self.context,
            referenced_attachments: self.referenced_attachments,
            user_query_mode: self.user_query_mode,
            static_query_type: None,
            running_command: None,
            intended_agent: None,
        }
    }

    pub fn to_input(&self) -> (r: AIAgentInput)
        ensures
            r == self.spec_input(),
    {
        AIAgentInput::UserQuery {
            query: self.query.clone(),
            context: share(&self.context),
            referenced_attachments: share(&self.referenced_attachments),
            user_query_mode: self.user_query_mode,
            static_query_type: None,
            running_command: None,
            intended_agent: None,
        }
    }
}

/// Puts `x` into an ascending list of tasks, behind those that are not greater.
pub open spec fn insert_task(tasks: Seq<TaskInput>, x: TaskInput) -> Seq<TaskInput>
    decreases tasks.len(),
{
    if tasks.len() == 0 || !text::text_lt(x.task_id.name@, tasks.last().task_id.name@) {
        tasks.push(x)
    } else {
        insert_task(tasks.drop_last(), x).push(tasks.last())
    }
}

/// The tasks in the order of their ids.
pub open spec fn in_order(tasks: Seq<TaskInput>) -> Seq<TaskInput>
    decreases tasks.len(),
{
    if tasks.len() == 0 {
        tasks
    } else {
        insert_task(in_order(tasks.drop_last()), tasks.last())
    }
}

/// The question that `input` asks in `task_id`, where it asks one.
pub open spec fn question(task_id: TaskId, input: AIAgentInput) -> Option<PendingCompactionQuery> {
    match input {
        AIAgentInput::UserQuery {
            query,
            context,
            referenced_attachments,
            user_query_mode,
            ..
        } => Some(
            PendingCompactionQuery {
                task_id,
                query,
                context,
                referenced_attachments,
                user_query_mode,
            },
        ),
        _ => None,
    }
}

/// The questions among the inputs of one task.
pub open spec fn task_questions(
    task_id: TaskId,
    inputs: Seq<AIAgentInput>,
) -> Seq<PendingCompactionQuery>
    decreases inputs.len(),
{
    if inputs.len() == 0 {
        Seq::empty()
    } else {
        let earlier = task_questions(task_id, inputs.drop_last());
        match question(task_id, inputs.last()) {
            Some(q) => earlier.push(q),
            None => earlier,
        }
    }
}

/// The questions of all tasks, task by task.
pub open spec fn questions(tasks: Seq<TaskInput>) -> Seq<PendingCompactionQuery>
    decreases tasks.len(),
{
    if tasks.len() == 0 {
        Seq::empty()
    } else {
        questions(tasks.drop_last()) + task_questions(
            tasks.last().task_id,
            tasks.last().inputs@,
        )
    }
}

/// The first context among some inputs.
pub open spec fn first_input_context(inputs: Seq<AIAgentInput>) -> Option<Arc<Vec<AIAgentContext>>>
    decreases inputs.len(),
{
    if inputs.len() == 0 {
        None
    } else {
        match inputs[0].spec_context() {
            Some(context) => Some(context),
            None => first_input_context(inputs.drop_first()),
        }
    }
}

/// The first context among the inputs of all tasks, task by task.
pub open spec fn first_context(tasks: Seq<TaskInput>) -> Option<Arc<Vec<AIAgentContext>>>
    decreases tasks.len(),
{
    if tasks.len() == 0 {
        None
    } else {
        match first_input_context(tasks[0].inputs@) {
            Some(context) => Some(context),
            None => first_context(tasks.drop_first()),
        }
    }
}

/// The entries of `tasks` at some places.
spec fn picked(tasks: Seq<TaskInput>, places: Seq<usize>) -> Seq<TaskInput> {
    places.map_values(|p: usize| tasks[p as int])
}

/// Where the tasks stand, in the order of their ids.
fn places_in_order(tasks: &Vec<TaskInput>) -> (r: Vec<usize>)
    ensures
        r.len() == tasks.len(),
        forall|k: int| 0 <= k < r.len() ==> #[trigger] r@[k] < tasks.len(),
        picked(tasks@, r@) == in_order(tasks@),
{
    let mut places: Vec<usize> = Vec::new();
    let mut i: usize = 0;
    assert(tasks@.take(0) =~= Seq::<TaskInput>::empty());
    assert(picked(tasks@, places@) =~= Seq::<TaskInput>::empty());
    while i < tasks.len()
        invariant
            i <= tasks.len(),
            places.len() == i,
            forall|k: int| 0 <= k < i ==> #[trigger] places@[k] < tasks.len(),
            picked(tasks@, places@) == in_order(tasks@.take(i as int)),
        decreases tasks.len() - i,
    {
        let ghost before = places@;
        let ghost sorted = in_order(tasks@.take(i as int));
        let ghost x = tasks@[i as int];
        let mut at: usize = i;
        proof {
            assert(sorted.take(i as int) =~= sorted);
            assert(sorted.skip(i as int) =~= Seq::<TaskInput>::empty());
            assert(insert_task(sorted, x) =~= insert_task(sorted.take(i as int), x) + sorted.skip(
                i as int,
            ));
        }
        while at > 0 && text_less(
            tasks[i].task_id.name.as_str(),
            tasks[places[at - 1]].task_id.name.as_str(),
        )
            invariant
                at <= i < tasks.len(),
                places@ == before,
                places.len() == i,
                sorted.len() == i,
                x == tasks@[i as int],
                forall|k: int| 0 <= k < i ==> #[trigger] places@[k] < tasks.len(),
                picked(tasks@, places@) == sorted,
                insert_task(sorted, x) == insert_task(sorted.take(at as int), x) + sorted.skip(
                    at as int,
                ),
            decreases at,
        {
            proof {
                let front = sorted.take(at as int);
                assert(front.last() == picked(tasks@, places@)[at - 1]);
                assert(front.drop_last() =~= sorted.take(at - 1));
                assert(insert_task(front, x) + sorted.skip(at as int) =~= insert_task(
                    front.drop_last(),
                    x,
                ) + sorted.skip(at - 1));
            }
            at -= 1;
        }
        proof {
            let front = sorted.take(at as int);
            if at > 0 {
                assert(front.last() == picked(tasks@, places@)[at - 1]);
            }
            assert(insert_task(front, x) == front.push(x));
        }
        places.insert(at, i);
        proof {
            assert(tasks@.take(i + 1).drop_last() =~= tasks@.take(i as int));
            assert(picked(tasks@, places@) =~= sorted.take(at as int).push(x) + sorted.skip(
                at as int,
            )) by {
                assert forall|k: int| 0 <= k < i implies sorted[k] == tasks@[before[k] as int] by {
                    assert(picked(tasks@, before)[k] == sorted[k]);
                }
            }
            assert forall|k: int| 0 <= k < i + 1 implies #[trigger] places@[k] < tasks.len() by {
                if k < at {
                    assert(places@[k] == before[k]);
                } else if k > at {
                    assert(places@[k] == before[k - 1]);
                }
            }
        }
        i += 1;
    }
    assert(tasks@.take(i as int) =~= tasks@);
    places
}

/// The waiting input of one request, with what is needed to send it later.
#[derive(Debug, Clone, PartialEq, Eq)]
pub struct PendingCompactionRecovery {
    /// Also the id of the exchange that shows the input again. It keeps an older stream
    /// from using up the record of a newer request.
    pub id: AIAgentExchangeId,
    /// The exchange that carries the input while the program runs.
    pub owner_exchange_id: Option<AIAgentExchangeId>,
    pub queries: Vec<PendingCompactionQuery>,
    /// A tool continuation asks nothing new: only the context to go on with is kept, and no
    /// tool result is replayed.
    pub resume_context: Arc<Vec<AIAgentContext>>,
    pub resume_task_id: Option<TaskId>,
    pub anchor_message_id: Option<String>,
    pub summary_request_id: Option<String>,
    pub request_start_ts: LocalTime,
    pub working_directory: Option<String>,
    pub model_id: LLMId,
    pub coding_model_id: LLMId,
    pub cli_agent_model_id: LLMId,
    pub computer_use_model_id: LLMId,
    /// The request under which the input went out, once it did.
    pub resumed_request_id: Option<String>,
}

/// Wraps `uuid::Uuid::new_v4` and `Uuid::as_u128`. The id is random, and nothing is claimed
/// of it.
#[verifier::external_body]
fn random_id() -> (r: u128) {
    uuid::Uuid::new_v4().as_u128()
}

fn copy_path(path: &Option<String>) -> (r: Option<String>)
    ensures
        r == *path,
{
    match path {
        Some(p) => Some(p.clone()),
        None => None,
    }
}

/// The inputs that the questions of one task are sent as.
pub open spec fn asked(
    queries: Seq<PendingCompactionQuery>,
    task: Seq<char>,
) -> Seq<AIAgentInput>
    decreases queries.len(),
{
    if queries.len() == 0 {
        Seq::empty()
    } else {
        let earlier = asked(queries.drop_last(), task);
        if queries.last().task_id.name@ == task {
            earlier.push(queries.last().spec_input())
        } else {
            earlier
        }
    }
}

/// No task has two entries.
pub open spec fn distinct_tasks(tasks: Seq<TaskInput>) -> bool {
    forall|i: int, j: int|
        0 <= i < j < tasks.len() ==> (#[trigger] tasks[i]).task_id.name@ != (
        #[trigger] tasks[j]).task_id.name@
}

/// The inputs of a task.
pub open spec fn inputs_of(tasks: Seq<TaskInput>, task: Seq<char>) -> Option<Seq<AIAgentInput>>
    decreases tasks.len(),
{
    if tasks.len() == 0 {
        None
    } else if tasks.last().task_id.name@ == task {
        Some(tasks.last().inputs@)
    } else {
        inputs_of(tasks.drop_last(), task)
    }
}

/// `tasks` holds exactly the questions, each under its task and in its order.
pub open spec fn grouped(tasks: Seq<TaskInput>, queries: Seq<PendingCompactionQuery>) -> bool {
    &&& distinct_tasks(tasks)
    &&& forall|task: Seq<char>| #[trigger]
        inputs_of(tasks, task) == (if asked(queries, task).len() > 0 {
            Some(asked(queries, task))
        } else {
            None
        })
}

/// `tasks` is what the kept input is sent as: the questions, each under its task, or the order
/// to go on where nothing was asked.
pub open spec fn resumed_as(
    tasks: Seq<TaskInput>,
    kept: PendingCompactionRecovery,
    fallback_task_id: TaskId,
) -> bool {
    if kept.queries@.len() == 0 {
        &&& tasks.len() == 1
        &&& tasks[0].task_id == match kept.resume_task_id {
            Some(task_id) => task_id,
            None => fallback_task_id,
        }
        &&& tasks[0].inputs@ == seq![
            AIAgentInput::ResumeConversation { context: kept.resume_context },
        ]
    } else {
        grouped(tasks, kept.queries@)
    }
}

/// What the kept input is shown as once it was stopped.
pub open spec fn shown_as(kept: PendingCompactionRecovery) -> Seq<AIAgentInput> {
    if kept.queries@.len() == 0 {
        seq![AIAgentInput::ResumeConversation { context: kept.resume_context }]
    } else {
        asked_inputs(kept.queries@)
    }
}

/// `r` is the request that sends the kept input.
pub open spec fn resumed_request(
    r: RequestInput,
    kept: PendingCompactionRecovery,
    conversation_id: AIConversationId,
    fallback_task_id: TaskId,
    response_initiator: Option<ParticipantId>,
) -> bool {
    &&& resumed_as(r.input_messages@, kept, fallback_task_id)
    &&& r.conversation_id == conversation_id
    &&& r.working_directory == kept.working_directory
    &&& r.model_id == kept.model_id
    &&& r.coding_model_id == kept.coding_model_id
    &&& r.cli_agent_model_id == kept.cli_agent_model_id
    &&& r.computer_use_model_id == kept.computer_use_model_id
    &&& r.shared_session_response_initiator == response_initiator
    &&& r.request_start_ts == kept.request_start_ts
    &&& r.supported_tools_override is None
}

/// `r` is the exchange that shows the kept input as stopped.
pub open spec fn stopped_exchange(r: AIAgentExchange, kept: PendingCompactionRecovery) -> bool {
    &&& r.input@ == shown_as(kept)
    &&& r.output_status == (AIAgentOutputStatus::Finished {
        finished_output: FinishedAIAgentOutput::Cancelled {
            output: None,
            reason: CancellationReason::ManuallyCancelled,
        },
    })
    &&& r.id == kept.id
    &&& r.added_message_ids@.len() == 0
    &&& r.start_time == kept.request_start_ts
    &&& r.finish_time == Some(kept.request_start_ts)
    &&& r.time_to_first_token_ms is None
    &&& r.working_directory == kept.working_directory
    &&& r.model_id == kept.model_id
    &&& r.coding_model_id == kept.coding_model_id
    &&& r.cli_agent_model_id == kept.cli_agent_model_id
    &&& r.computer_use_model_id == kept.computer_use_model_id
    &&& r.request_cost is None
    &&& r.response_initiator is None
}

/// "Continue" on this exchange means the kept input.
pub open spec fn resume_target(
    kept: PendingCompactionRecovery,
    exchange_id: AIAgentExchangeId,
) -> bool {
    kept.id == exchange_id || kept.owner_exchange_id == Some(exchange_id)
}

/// The inputs that some questions are sent as, in their order.
pub open spec fn asked_inputs(queries: Seq<PendingCompactionQuery>) -> Seq<AIAgentInput> {
    queries.map_values(|q: PendingCompactionQuery| q.spec_input())
}

/// The message shows that the question went out under `request_id`.
pub open spec fn sent_as(
    m: message::MessageView,
    request_id: Seq<char>,
    query: Seq<char>,
) -> bool {
    m.request_id == request_id && m.body == Some(message::BodyView::UserQuery { query })
}

/// The input went out under the id that it was resumed with, and all of it is in the
/// history.
pub open spec fn persisted(
    recovery: PendingCompactionRecovery,
    messages: Seq<message::MessageView>,
) -> bool {
    match recovery.resumed_request_id {
        None => false,
        Some(request_id) => {
            &&& request_id@.len() > 0
            &&& if recovery.queries@.len() == 0 {
                exists|k: int|
                    0 <= k < messages.len() && (#[trigger] messages[k]).request_id == request_id@
            } else {
                forall|i: int|
                    0 <= i < recovery.queries@.len() ==> exists|k: int|
                        0 <= k < messages.len() && sent_as(
                            #[trigger] messages[k],
                            request_id@,
                            (#[trigger] recovery.queries@[i]).query@,
                        )
            }
        },
    }
}

/// `r` keeps the input of `request`: its questions, in the order of the task ids, or the
/// context to go on with where nothing was asked. Nothing says yet who carries the input
/// and under which request it went out.
pub open spec fn kept_from(r: PendingCompactionRecovery, request: RequestInput) -> bool {
    let tasks = in_order(request.input_messages@);
    &&& r.queries@ == questions(tasks)
    &&& r.queries@.len() == 0 ==> match first_context(tasks) {
        Some(context) => r.resume_context == context,
        None => r.resume_context@.len() == 0,
    }
    &&& r.queries@.len() > 0 ==> r.resume_context@.len() == 0
    &&& r.resume_task_id == (if tasks.len() > 0 {
        Some(tasks[0].task_id)
    } else {
        None
    })
    &&& r.owner_exchange_id is None
    &&& r.anchor_message_id is None
    &&& r.summary_request_id is None
    &&& r.resumed_request_id is None
    &&& r.request_start_ts == request.request_start_ts
    &&& r.working_directory == request.working_directory
    &&& r.model_id == request.model_id
    &&& r.coding_model_id == request.coding_model_id
    &&& r.cli_agent_model_id == request.cli_agent_model_id
    &&& r.computer_use_model_id == request.computer_use_model_id
}

impl PendingCompactionRecovery {
    /// Keeps the input of `request` under `id`.
    pub fn from_request_with_id(request: &RequestInput, id: AIAgentExchangeId) -> (r: Self)
        ensures
            kept_from(r, *request),
            r.id == id,
    {
        let tasks: &Vec<TaskInput> = &request.input_messages;
        let places: Vec<usize> = places_in_order(tasks);
        let ghost order = in_order(tasks@);
        let mut queries: Vec<PendingCompactionQuery> = Vec::new();
        let mut k: usize = 0;
        assert(order.take(0) =~= Seq::<TaskInput>::empty());
        while k < places.len()
            invariant
                k <= places.len(),
                places.len() == order.len(),
                picked(tasks@, places@) == order,
                forall|j: int| 0 <= j < places.len() ==> #[trigger] places@[j] < tasks.len(),
                queries@ == questions(order.take(k as int)),
            decreases places.len() - k,
        {
            assert(picked(tasks@, places@)[k as int] == order[k as int]);
            let task: &TaskInput = &tasks[places[k]];
            let ghost earlier = queries@;
            let mut i: usize = 0;
            assert(task.inputs@.take(0) =~= Seq::<AIAgentInput>::empty());
            assert(earlier + task_questions(task.task_id, task.inputs@.take(0)) =~= earlier);
            while i < task.inputs.len()
                invariant
                    i <= task.inputs.len(),
                    queries@ == earlier + task_questions(
                        task.task_id,
                        task.inputs@.take(i as int),
                    ),
                decreases task.inputs.len() - i,
            {
                proof {
                    let next = task.inputs@.take(i + 1);
                    assert(next.drop_last() =~= task.inputs@.take(i as int));
                    assert(next.last() == task.inputs@[i as int]);
                }
                if let AIAgentInput::UserQuery {
                    query,
                    context,
                    referenced_attachments,
                    user_query_mode,
                    ..
                } = &task.inputs[i] {
                    queries.push(
                        PendingCompactionQuery {
                            task_id: task.task_id.clone(),
                            query: query.clone(),
                            context: share(context),
                            referenced_attachments: share(referenced_attachments),
                            user_query_mode: *user_query_mode,
                        },
                    );
                    assert(queries@ =~= earlier + task_questions(
                        task.task_id,
                        task.inputs@.take(i + 1),
                    ));
                }
                i += 1;
            }
            proof {
                assert(task.inputs@.take(i as int) =~= task.inputs@);
                assert(order.take(k + 1).drop_last() =~= order.take(k as int));
            }
            k += 1;
        }
        assert(order.take(k as int) =~= order);
        let resume_context: Arc<Vec<AIAgentContext>> = if queries.len() == 0 {
            context_to_resume(tasks, &places)
        } else {
            Arc::new(Vec::new())
        };
        let resume_task_id: Option<TaskId> = if places.len() > 0 {
            assert(picked(tasks@, places@)[0] == order[0]);
            Some(tasks[places[0]].task_id.clone())
        } else {
            None
        };
        PendingCompactionRecovery {
            id,
            owner_exchange_id: None,
            queries,
            resume_context,
            resume_task_id,
            anchor_message_id: None,
            summary_request_id: None,
            request_start_ts: request.request_start_ts,
            working_directory: copy_path(&request.working_directory),
            model_id: request.model_id.clone(),
            coding_model_id: request.coding_model_id.clone(),
            cli_agent_model_id: request.cli_agent_model_id.clone(),
            computer_use_model_id: request.computer_use_model_id.clone(),
            resumed_request_id: None,
        }
    }

    /// Keeps the input of `request` under a new id.
    pub fn from_request(request: &RequestInput) -> (r: Self)
        ensures
            kept_from(r, *request),
    {
        let value: u128 = random_id();
        Self::from_request_with_id(request, AIAgentExchangeId { value })
    }

    /// Whether "continue" on `exchange_id` means this input. A question that is still in the
    /// history does not take over another, newer one.
    pub fn is_resume_target(&self, exchange_id: AIAgentExchangeId) -> (r: bool)
        ensures
            r == resume_target(*self, exchange_id),
            r == (self.id == exchange_id || self.owner_exchange_id == Some(exchange_id)),
    {
        let owned: bool = match self.owner_exchange_id {
            Some(owner) => owner == exchange_id,
            None => false,
        };
        self.id == exchange_id || owned
    }

    /// The request that sends the input: the questions, each under its task, or the order to
    /// go on where nothing was asked.
    pub fn to_request_input(
        &self,
        conversation_id: AIConversationId,
        fallback_task_id: &TaskId,
        response_initiator: Option<ParticipantId>,
    ) -> (r: RequestInput)
        ensures
            resumed_request(r, *self, conversation_id, *fallback_task_id, response_initiator),
            resumed_as(r.input_messages@, *self, *fallback_task_id),
            r.conversation_id == conversation_id,
            r.working_directory == self.working_directory,
            r.model_id == self.model_id,
            r.coding_model_id == self.coding_model_id,
            r.cli_agent_model_id == self.cli_agent_model_id,
            r.computer_use_model_id == self.computer_use_model_id,
            r.shared_session_response_initiator == response_initiator,
            r.request_start_ts == self.request_start_ts,
            r.supported_tools_override == None::<Vec<String>>,
    {
        let mut input_messages: Vec<TaskInput> = Vec::new();
        let mut i: usize = 0;
        assert(self.queries@.take(0) =~= Seq::<PendingCompactionQuery>::empty());
        while i < self.queries.len()
            invariant
                i <= self.queries.len(),
                i > 0 ==> input_messages.len() > 0,
                i == 0 ==> input_messages.len() == 0,
                grouped(input_messages@, self.queries@.take(i as int)),
            decreases self.queries.len() - i,
        {
            proof {
                let next = self.queries@.take(i + 1);
                assert(next.drop_last() =~= self.queries@.take(i as int));
                assert(next.last() == self.queries@[i as int]);
            }
            add_query(&mut input_messages, &self.queries[i], Ghost(self.queries@.take(i as int)));
            assert(self.queries@.take(i as int).push(self.queries@[i as int])
                =~= self.queries@.take(i + 1));
            i += 1;
        }
        assert(self.queries@.take(i as int) =~= self.queries@);
        if self.queries.len() == 0 {
            let task_id: TaskId = match &self.resume_task_id {
                Some(id) => id.clone(),
                None => fallback_task_id.clone(),
            };
            let mut inputs: Vec<AIAgentInput> = Vec::new();
            inputs.push(
                AIAgentInput::ResumeConversation { context: share(&self.resume_context) },
            );
            input_messages.push(TaskInput { task_id, inputs });
        }
        RequestInput {
            conversation_id,
            input_messages,
            working_directory: copy_path(&self.working_directory),
            model_id: self.model_id.clone(),
            coding_model_id: self.coding_model_id.clone(),
            cli_agent_model_id: self.cli_agent_model_id.clone(),
            computer_use_model_id: self.computer_use_model_id.clone(),
            shared_session_response_initiator: response_initiator,
            request_start_ts: self.request_start_ts,
            supported_tools_override: None,
        }
    }

    /// Whether the input is in the history already. Only the request id tells: an older
    /// question with the same text does not show that this one went out.
    pub fn is_in_persisted_messages(&self, messages: &Vec<Message>) -> (r: bool)
        ensures
            r == persisted(*self, message::message_views(messages@)),
    {
        let request_id: &String = match &self.resumed_request_id {
            Some(request_id) => request_id,
            None => {
                return false;
            },
        };
        if no_text(request_id.as_str()) {
            return false;
        }
        let ghost views = message::message_views(messages@);
        if self.queries.len() == 0 {
            let mut k: usize = 0;
            while k < messages.len()
                invariant
                    k <= messages.len(),
                    views == message::message_views(messages@),
                    forall|j: int| 0 <= j < k ==> (#[trigger] views[j]).request_id != request_id@,
                    self.queries@.len() == 0,
                    self.resumed_request_id == Some(*request_id),
                    request_id@.len() > 0,
                decreases messages.len() - k,
            {
                if messages[k].request_id == *request_id {
                    assert(views[k as int].request_id == request_id@);
                    return true;
                }
                k += 1;
            }
            return false;
        }
        let mut i: usize = 0;
        while i < self.queries.len()
            invariant
                i <= self.queries.len(),
                views == message::message_views(messages@),
                self.queries@.len() > 0,
                self.resumed_request_id == Some(*request_id),
                request_id@.len() > 0,
                forall|j: int|
                    0 <= j < i ==> exists|k: int|
                        0 <= k < views.len() && sent_as(
                            #[trigger] views[k],
                            request_id@,
                            (#[trigger] self.queries@[j]).query@,
                        ),
            decreases self.queries.len() - i,
        {
            if !was_sent(messages, request_id, &self.queries[i].query) {
                return false;
            }
            i += 1;
        }
        true
    }

    /// The exchange that shows the input as stopped.
    pub fn to_cancelled_exchange(&self) -> (r: AIAgentExchange)
        ensures
            stopped_exchange(r, *self),
            r.input@ == shown_as(*self),
            r.output_status == (AIAgentOutputStatus::Finished {
                finished_output: FinishedAIAgentOutput::Cancelled {
                    output: None,
                    reason: CancellationReason::ManuallyCancelled,
                },
            }),
            r.id == self.id,
            r.added_message_ids@.len() == 0,
            r.start_time == self.request_start_ts,
            r.finish_time == Some(self.request_start_ts),
            r.time_to_first_token_ms == None::<i64>,
            r.working_directory == self.working_directory,
            r.model_id == self.model_id,
            r.coding_model_id == self.coding_model_id,
            r.cli_agent_model_id == self.cli_agent_model_id,
            r.computer_use_model_id == self.computer_use_model_id,
            r.request_cost == None::<String>,
            r.response_initiator == None::<ParticipantId>,
    {
        let mut input: Vec<AIAgentInput> = Vec::new();
        if self.queries.len() == 0 {
            input.push(AIAgentInput::ResumeConversation { context: share(&self.resume_context) });
        } else {
            let mut i: usize = 0;
            while i < self.queries.len()
                invariant
                    i <= self.queries.len(),
                    input.len() == i,
                    forall|k: int|
                        0 <= k < i ==> #[trigger] input@[k] == self.queries@[k].spec_input(),
                decreases self.queries.len() - i,
            {
                input.push(self.queries[i].to_input());
                i += 1;
            }
            assert(input@ =~= asked_inputs(self.queries@));
        }
        AIAgentExchange {
            id: self.id,
            input,
            output_status: AIAgentOutputStatus::Finished {
                finished_output: FinishedAIAgentOutput::Cancelled {
                    output: None,
                    reason: CancellationReason::ManuallyCancelled,
                },
            },
            added_message_ids: Vec::new(),
            start_time: self.request_start_ts,
            finish_time: Some(self.request_start_ts),
            time_to_first_token_ms: None,
            working_directory: copy_path(&self.working_directory),
            model_id: self.model_id.clone(),
            coding_model_id: self.coding_model_id.clone(),
            cli_agent_model_id: self.cli_agent_model_id.clone(),
            computer_use_model_id: self.computer_use_model_id.clone(),
            request_cost: None,
            response_initiator: None,
        }
    }
}

/// Whether the history shows that `query` went out under `request_id`.
fn was_sent(messages: &Vec<Message>, request_id: &String, query: &String) -> (r: bool)
    ensures
        r == exists|k: int|
            0 <= k < messages@.len() && sent_as(
                #[trigger] message::message_views(messages@)[k],
                request_id@,
                query@,
            ),
{
    let ghost views = message::message_views(messages@);
    let mut k: usize = 0;
    while k < messages.len()
        invariant
            k <= messages.len(),
            views == message::message_views(messages@),
            forall|j: int| 0 <= j < k ==> !sent_as(#[trigger] views[j], request_id@, query@),
        decreases messages.len() - k,
    {
        if let Some(MessageBody::UserQuery { query: text }) = &messages[k].body {
            if messages[k].request_id == *request_id && *text == *query {
                assert(sent_as(views[k as int], request_id@, query@));
                return true;
            }
        }
        k += 1;
    }
    false
}

/// The first context that the inputs were sent with, or none.
fn context_to_resume(tasks: &Vec<TaskInput>, places: &Vec<usize>) -> (r: Arc<Vec<AIAgentContext>>)
    requires
        places.len() == tasks.len(),
        forall|k: int| 0 <= k < places.len() ==> #[trigger] places@[k] < tasks.len(),
        picked(tasks@, places@) == in_order(tasks@),
    ensures
        match first_context(in_order(tasks@)) {
            Some(context) => r == context,
            None => r@.len() == 0,
        },
{
    let ghost order = in_order(tasks@);
    let mut k: usize = 0;
    assert(order.skip(0) =~= order);
    while k < places.len()
        invariant
            k <= places.len(),
            places.len() == order.len(),
            order == in_order(tasks@),
            picked(tasks@, places@) == order,
            forall|j: int| 0 <= j < places.len() ==> #[trigger] places@[j] < tasks.len(),
            first_context(order) == first_context(order.skip(k as int)),
        decreases places.len() - k,
    {
        assert(picked(tasks@, places@)[k as int] == order[k as int]);
        let inputs: &Vec<AIAgentInput> = &tasks[places[k]].inputs;
        proof {
            assert(order.skip(k as int)[0] == order[k as int]);
            assert(order.skip(k as int).drop_first() =~= order.skip(k + 1));
            assert(inputs@.skip(0) =~= inputs@);
        }
        let mut i: usize = 0;
        while i < inputs.len()
            invariant
                i <= inputs.len(),
                k < order.len(),
                order == in_order(tasks@),
                inputs@ == order.skip(k as int)[0].inputs@,
                first_context(order) == first_context(order.skip(k as int)),
                first_input_context(inputs@) == first_input_context(inputs@.skip(i as int)),
            decreases inputs.len() - i,
        {
            proof {
                assert(inputs@.skip(i as int)[0] == inputs@[i as int]);
                assert(inputs@.skip(i as int).drop_first() =~= inputs@.skip(i + 1));
            }
            if let Some(context) = inputs[i].context() {
                return share(context);
            }
            i += 1;
        }
        k += 1;
    }
    Arc::new(Vec::new())
}

/// Adds a question to the inputs of its task.
fn add_query(
    tasks: &mut Vec<TaskInput>,
    query: &PendingCompactionQuery,
    Ghost(before): Ghost<Seq<PendingCompactionQuery>>,
)
    requires
        grouped(old(tasks)@, before),
    ensures
        grouped(final(tasks)@, before.push(*query)),
        final(tasks)@.len() > 0,
{
    let ghost start = tasks@;
    let ghost after = before.push(*query);
    assert(after.drop_last() =~= before);
    let mut i: usize = 0;
    while i < tasks.len()
        invariant
            i <= tasks.len(),
            tasks@ == start,
            start == old(tasks)@,
            grouped(start, before),
            after == before.push(*query),
            after.drop_last() == before,
            forall|k: int|
                0 <= k < i ==> (#[trigger] start[k]).task_id.name@ != query.task_id.name@,
        decreases tasks.len() - i,
    {
        if tasks[i].task_id.name == query.task_id.name {
            let input: AIAgentInput = query.to_input();
            tasks[i].inputs.push(input);
            proof {
                lemma_extended_task(start, tasks@, i as int, before, *query);
            }
            return;
        }
        i += 1;
    }
    let mut inputs: Vec<AIAgentInput> = Vec::new();
    inputs.push(query.to_input());
    tasks.push(TaskInput { task_id: query.task_id.clone(), inputs });
    proof {
        assert(tasks@.drop_last() =~= start);
        assert(tasks@.last().inputs@ =~= seq![query.spec_input()]);
        lemma_new_task(start, tasks@, before, *query);
    }
}

proof fn lemma_inputs_of(tasks: Seq<TaskInput>, i: int)
    requires
        distinct_tasks(tasks),
        0 <= i < tasks.len(),
    ensures
        inputs_of(tasks, tasks[i].task_id.name@) == Some(tasks[i].inputs@),
    decreases tasks.len(),
{
    if i < tasks.len() - 1 {
        assert(tasks[i].task_id.name@ != tasks[tasks.len() - 1].task_id.name@);
        assert forall|x: int, y: int| 0 <= x < y < tasks.len() - 1 implies (
        #[trigger] tasks.drop_last()[x]).task_id.name@ != (
        #[trigger] tasks.drop_last()[y]).task_id.name@ by {
            assert(tasks.drop_last()[x] == tasks[x] && tasks.drop_last()[y] == tasks[y]);
        }
        lemma_inputs_of(tasks.drop_last(), i);
    }
}

proof fn lemma_not_in(tasks: Seq<TaskInput>, task: Seq<char>)
    requires
        forall|k: int| 0 <= k < tasks.len() ==> (#[trigger] tasks[k]).task_id.name@ != task,
    ensures
        inputs_of(tasks, task) is None,
    decreases tasks.len(),
{
    if tasks.len() > 0 {
        assert(tasks[tasks.len() - 1].task_id.name@ != task);
        assert forall|k: int| 0 <= k < tasks.len() - 1 implies (
        #[trigger] tasks.drop_last()[k]).task_id.name@ != task by {
            assert(tasks.drop_last()[k] == tasks[k]);
        }
        lemma_not_in(tasks.drop_last(), task);
    }
}

/// Changing the inputs of one task leaves the others alone.
proof fn lemma_other_tasks(a: Seq<TaskInput>, b: Seq<TaskInput>, i: int, task: Seq<char>)
    requires
        a.len() == b.len(),
        0 <= i < a.len(),
        forall|k: int| 0 <= k < a.len() && k != i ==> #[trigger] a[k] == b[k],
        a[i].task_id.name@ == b[i].task_id.name@,
        a[i].task_id.name@ != task,
    ensures
        inputs_of(a, task) == inputs_of(b, task),
    decreases a.len(),
{
    let last = a.len() - 1;
    if i == last {
        assert(a.drop_last() =~= b.drop_last());
    } else {
        assert(a[last] == b[last]);
        if a[last].task_id.name@ != task {
            assert forall|k: int| 0 <= k < last && k != i implies #[trigger] a.drop_last()[k]
                == b.drop_last()[k] by {
                assert(a[k] == b[k]);
            }
            lemma_other_tasks(a.drop_last(), b.drop_last(), i, task);
        }
    }
}

proof fn lemma_extended_task(
    start: Seq<TaskInput>,
    tasks: Seq<TaskInput>,
    i: int,
    before: Seq<PendingCompactionQuery>,
    query: PendingCompactionQuery,
)
    requires
        grouped(start, before),
        0 <= i < start.len(),
        start[i].task_id.name@ == query.task_id.name@,
        tasks.len() == start.len(),
        forall|k: int| 0 <= k < start.len() && k != i ==> #[trigger] tasks[k] == start[k],
        tasks[i].task_id == start[i].task_id,
        tasks[i].inputs@ == start[i].inputs@.push(query.spec_input()),
    ensures
        grouped(tasks, before.push(query)),
{
    let after = before.push(query);
    assert(after.drop_last() =~= before);
    assert forall|x: int, y: int| 0 <= x < y < tasks.len() implies (
    #[trigger] tasks[x]).task_id.name@ != (#[trigger] tasks[y]).task_id.name@ by {
        assert(start[x].task_id.name@ != start[y].task_id.name@);
    }
    assert forall|task: Seq<char>| #[trigger]
        inputs_of(tasks, task) == (if asked(after, task).len() > 0 {
            Some(asked(after, task))
        } else {
            None
        }) by {
        assert(inputs_of(start, task) == (if asked(before, task).len() > 0 {
            Some(asked(before, task))
        } else {
            None
        }));
        if task == query.task_id.name@ {
            lemma_inputs_of(start, i);
            lemma_inputs_of(tasks, i);
        } else {
            lemma_other_tasks(tasks, start, i, task);
        }
    }
}

proof fn lemma_new_task(
    start: Seq<TaskInput>,
    tasks: Seq<TaskInput>,
    before: Seq<PendingCompactionQuery>,
    query: PendingCompactionQuery,
)
    requires
        grouped(start, before),
        forall|k: int|
            0 <= k < start.len() ==> (#[trigger] start[k]).task_id.name@ != query.task_id.name@,
        tasks.len() == start.len() + 1,
        tasks.drop_last() == start,
        tasks.last().task_id == query.task_id,
        tasks.last().inputs@ == seq![query.spec_input()],
    ensures
        grouped(tasks, before.push(query)),
{
    let after = before.push(query);
    assert(after.drop_last() =~= before);
    assert forall|x: int, y: int| 0 <= x < y < tasks.len() implies (
    #[trigger] tasks[x]).task_id.name@ != (#[trigger] tasks[y]).task_id.name@ by {
        assert(tasks[x] == start[x]);
        if y < start.len() {
            assert(tasks[y] == start[y]);
        }
    }
    assert forall|task: Seq<char>| #[trigger]
        inputs_of(tasks, task) == (if asked(after, task).len() > 0 {
            Some(asked(after, task))
        } else {
            None
        }) by {
        assert(inputs_of(start, task) == (if asked(before, task).len() > 0 {
            Some(asked(before, task))
        } else {
            None
        }));
        if task == query.task_id.name@ {
            lemma_not_in(start, task);
            assert(asked(before, task) =~= Seq::<AIAgentInput>::empty());
            assert(asked(after, task) =~= seq![query.spec_input()]);
        }
    }
}

proof fn lemma_insert_task(tasks: Seq<TaskInput>, x: TaskInput, task: Seq<char>)
    ensures
        insert_task(tasks, x).len() == tasks.len() + 1,
        forall|y: TaskInput| #[trigger]
            insert_task(tasks, x).contains(y) <==> tasks.contains(y) || y == x,
        (forall|k: int|
            0 <= k < tasks.len() ==> (#[trigger] tasks[k]).task_id.name@ != x.task_id.name@)
            ==> inputs_of(insert_task(tasks, x), task) == (if x.task_id.name@ == task {
            Some(x.inputs@)
        } else {
            inputs_of(tasks, task)
        }),
    decreases tasks.len(),
{
    let all = insert_task(tasks, x);
    if tasks.len() == 0 || !text::text_lt(x.task_id.name@, tasks.last().task_id.name@) {
        assert(all.drop_last() =~= tasks);
        assert forall|y: TaskInput| #[trigger] all.contains(y) <==> tasks.contains(y) || y == x by {
            if tasks.contains(y) {
                let k = choose|k: int| 0 <= k < tasks.len() && tasks[k] == y;
                assert(all[k] == y);
            }
            if y == x {
                assert(all[tasks.len() as int] == y);
            }
            if all.contains(y) {
                let k = choose|k: int| 0 <= k < all.len() && all[k] == y;
                if k < tasks.len() {
                    assert(tasks[k] == y);
                }
            }
        }
    } else {
        let rest = tasks.drop_last();
        let inner = insert_task(rest, x);
        lemma_insert_task(rest, x, task);
        assert(all.drop_last() =~= inner);
        assert forall|y: TaskInput| #[trigger] all.contains(y) <==> tasks.contains(y) || y == x by {
            assert(inner.contains(y) <==> rest.contains(y) || y == x);
            if all.contains(y) {
                let k = choose|k: int| 0 <= k < all.len() && all[k] == y;
                if k < inner.len() {
                    assert(inner[k] == y);
                    if rest.contains(y) {
                        let j = choose|j: int| 0 <= j < rest.len() && rest[j] == y;
                        assert(tasks[j] == y);
                    }
                } else {
                    assert(tasks[tasks.len() - 1] == y);
                }
            }
            if tasks.contains(y) {
                let k = choose|k: int| 0 <= k < tasks.len() && tasks[k] == y;
                if k < rest.len() {
                    assert(rest[k] == y);
                    let j = choose|j: int| 0 <= j < inner.len() && inner[j] == y;
                    assert(all[j] == y);
                } else {
                    assert(all[inner.len() as int] == y);
                }
            }
            if y == x {
                let j = choose|j: int| 0 <= j < inner.len() && inner[j] == y;
                assert(all[j] == y);
            }
        }
        if forall|k: int|
            0 <= k < tasks.len() ==> (#[trigger] tasks[k]).task_id.name@ != x.task_id.name@ {
            assert(tasks[tasks.len() - 1].task_id.name@ != x.task_id.name@);
            assert forall|k: int| 0 <= k < rest.len() implies (#[trigger] rest[k]).task_id.name@
                != x.task_id.name@ by {
                assert(rest[k] == tasks[k]);
            }
        }
    }
}

/// No task stands behind one with a greater id.
pub open spec fn not_descending(tasks: Seq<TaskInput>) -> bool {
    forall|i: int, j: int|
        0 <= i < j < tasks.len() ==> !text::text_lt(
            (#[trigger] tasks[j]).task_id.name@,
            (#[trigger] tasks[i]).task_id.name@,
        )
}

proof fn lemma_insert_ascending(tasks: Seq<TaskInput>, x: TaskInput)
    requires
        not_descending(tasks),
    ensures
        not_descending(insert_task(tasks, x)),
    decreases tasks.len(),
{
    let all = insert_task(tasks, x);
    let name = x.task_id.name@;
    if tasks.len() == 0 || !text::text_lt(name, tasks.last().task_id.name@) {
        assert forall|i: int, j: int| 0 <= i < j < all.len() implies !text::text_lt(
            (#[trigger] all[j]).task_id.name@,
            (#[trigger] all[i]).task_id.name@,
        ) by {
            assert(all[i] == tasks[i]);
            if j < tasks.len() {
                assert(all[j] == tasks[j]);
            } else {
                let last = tasks[tasks.len() - 1];
                let low = tasks[i].task_id.name@;
                if text::text_lt(name, low) && i < tasks.len() - 1 {
                    assert(!text::text_lt(last.task_id.name@, low));
                    text::lemma_text_lt_total(last.task_id.name@, low);
                    if low != last.task_id.name@ {
                        text::lemma_text_lt_transitive(name, low, last.task_id.name@);
                    }
                }
            }
        }
    } else {
        let rest = tasks.drop_last();
        let inner = insert_task(rest, x);
        let last = tasks[tasks.len() - 1];
        assert forall|i: int, j: int| 0 <= i < j < rest.len() implies !text::text_lt(
            (#[trigger] rest[j]).task_id.name@,
            (#[trigger] rest[i]).task_id.name@,
        ) by {
            assert(rest[i] == tasks[i] && rest[j] == tasks[j]);
        }
        lemma_insert_ascending(rest, x);
        lemma_insert_task(rest, x, Seq::empty());
        text::lemma_text_lt_total(name, last.task_id.name@);
        assert forall|i: int, j: int| 0 <= i < j < all.len() implies !text::text_lt(
            (#[trigger] all[j]).task_id.name@,
            (#[trigger] all[i]).task_id.name@,
        ) by {
            assert(all[i] == inner[i]);
            if j < inner.len() {
                assert(all[j] == inner[j]);
            } else {
                assert(inner.contains(inner[i]));
                if inner[i] != x {
                    let k = choose|k: int| 0 <= k < rest.len() && rest[k] == inner[i];
                    assert(tasks[k] == inner[i]);
                }
            }
        }
    }
}

/// Ordering the tasks keeps each of them with its inputs and leaves none behind one with a
/// greater id.
pub proof fn lemma_in_order(tasks: Seq<TaskInput>)
    ensures
        in_order(tasks).len() == tasks.len(),
        not_descending(in_order(tasks)),
        forall|y: TaskInput| #[trigger] in_order(tasks).contains(y) <==> tasks.contains(y),
        distinct_tasks(tasks) ==> forall|task: Seq<char>| #[trigger]
            inputs_of(in_order(tasks), task) == inputs_of(tasks, task),
        distinct_tasks(tasks) ==> distinct_tasks(in_order(tasks)),
    decreases tasks.len(),
{
    if tasks.len() > 0 {
        let rest = tasks.drop_last();
        let x = tasks.last();
        let sorted = in_order(rest);
        lemma_in_order(rest);
        lemma_insert_task(sorted, x, Seq::empty());
        lemma_insert_ascending(sorted, x);
        assert forall|y: TaskInput| #[trigger] in_order(tasks).contains(y) <==> tasks.contains(
            y,
        ) by {
            assert(sorted.contains(y) <==> rest.contains(y));
            if tasks.contains(y) {
                let k = choose|k: int| 0 <= k < tasks.len() && tasks[k] == y;
                if k < rest.len() {
                    assert(rest[k] == y);
                }
            }
            if rest.contains(y) {
                let k = choose|k: int| 0 <= k < rest.len() && rest[k] == y;
                assert(tasks[k] == y);
            }
            if y == x {
                assert(tasks[tasks.len() - 1] == y);
            }
        }
        if distinct_tasks(tasks) {
            assert(distinct_tasks(rest)) by {
                assert forall|i: int, j: int| 0 <= i < j < rest.len() implies (
                #[trigger] rest[i]).task_id.name@ != (#[trigger] rest[j]).task_id.name@ by {
                    assert(rest[i] == tasks[i] && rest[j] == tasks[j]);
                }
            }
            assert forall|k: int| 0 <= k < sorted.len() implies (#[trigger] sorted[k]).task_id.name@
                != x.task_id.name@ by {
                assert(sorted.contains(sorted[k]));
                let j = choose|j: int| 0 <= j < rest.len() && rest[j] == sorted[k];
                assert(tasks[j] == sorted[k] && tasks[tasks.len() - 1] == x);
            }
            assert forall|task: Seq<char>| #[trigger]
                inputs_of(in_order(tasks), task) == inputs_of(tasks, task) by {
                lemma_insert_task(sorted, x, task);
                assert(inputs_of(sorted, task) == inputs_of(rest, task));
            }
            lemma_insert_distinct(sorted, x);
        }
    }
}

proof fn lemma_insert_distinct(tasks: Seq<TaskInput>, x: TaskInput)
    requires
        distinct_tasks(tasks),
        forall|k: int|
            0 <= k < tasks.len() ==> (#[trigger] tasks[k]).task_id.name@ != x.task_id.name@,
    ensures
        distinct_tasks(insert_task(tasks, x)),
    decreases tasks.len(),
{
    let all = insert_task(tasks, x);
    if tasks.len() == 0 || !text::text_lt(x.task_id.name@, tasks.last().task_id.name@) {
        assert forall|i: int, j: int| 0 <= i < j < all.len() implies (
        #[trigger] all[i]).task_id.name@ != (#[trigger] all[j]).task_id.name@ by {
            assert(all[i] == tasks[i]);
            if j < tasks.len() {
                assert(all[j] == tasks[j]);
            }
        }
    } else {
        let rest = tasks.drop_last();
        let inner = insert_task(rest, x);
        let last = tasks.len() - 1;
        assert forall|k: int| 0 <= k < rest.len() implies (#[trigger] rest[k]).task_id.name@
            != x.task_id.name@ by {
            assert(rest[k] == tasks[k]);
        }
        assert(distinct_tasks(rest)) by {
            assert forall|i: int, j: int| 0 <= i < j < rest.len() implies (
            #[trigger] rest[i]).task_id.name@ != (#[trigger] rest[j]).task_id.name@ by {
                assert(rest[i] == tasks[i] && rest[j] == tasks[j]);
            }
        }
        lemma_insert_distinct(rest, x);
        lemma_insert_task(rest, x, Seq::empty());
        assert forall|i: int, j: int| 0 <= i < j < all.len() implies (
        #[trigger] all[i]).task_id.name@ != (#[trigger] all[j]).task_id.name@ by {
            assert(all[i] == inner[i]);
            if j < inner.len() {
                assert(all[j] == inner[j]);
            } else {
                assert(inner.contains(inner[i]));
                assert(tasks[last].task_id.name@ != x.task_id.name@);
                if inner[i] != x {
                    let k = choose|k: int| 0 <= k < rest.len() && rest[k] == inner[i];
                    assert(tasks[k] == inner[i]);
                }
            }
        }
    }
}

/// A question of the user with nothing that a recovery leaves out.
pub open spec fn plain_question(input: AIAgentInput) -> bool {
    match input {
        AIAgentInput::UserQuery { static_query_type, running_command, intended_agent, .. } => {
            static_query_type is None && running_command is None && intended_agent is None
        },
        _ => false,
    }
}

proof fn lemma_asked_concat(
    a: Seq<PendingCompactionQuery>,
    b: Seq<PendingCompactionQuery>,
    task: Seq<char>,
)
    ensures
        asked(a + b, task) == asked(a, task) + asked(b, task),
    decreases b.len(),
{
    if b.len() == 0 {
        assert(a + b =~= a);
        assert(asked(a, task) + asked(b, task) =~= asked(a, task));
    } else {
        lemma_asked_concat(a, b.drop_last(), task);
        assert((a + b).drop_last() =~= a + b.drop_last());
        assert(asked(a + b, task) =~= asked(a, task) + asked(b, task));
    }
}

proof fn lemma_task_asks(task_id: TaskId, inputs: Seq<AIAgentInput>, task: Seq<char>)
    requires
        forall|k: int| 0 <= k < inputs.len() ==> plain_question(#[trigger] inputs[k]),
    ensures
        asked(task_questions(task_id, inputs), task) == (if task_id.name@ == task {
            inputs
        } else {
            Seq::empty()
        }),
    decreases inputs.len(),
{
    if inputs.len() > 0 {
        let rest = inputs.drop_last();
        assert forall|k: int| 0 <= k < rest.len() implies plain_question(#[trigger] rest[k]) by {
            assert(rest[k] == inputs[k]);
        }
        lemma_task_asks(task_id, rest, task);
        assert(plain_question(inputs[inputs.len() - 1]));
        let q = question(task_id, inputs.last())->0;
        let all = task_questions(task_id, inputs);
        assert(all.drop_last() =~= task_questions(task_id, rest));
        assert(q.spec_input() == inputs.last());
        assert(rest.push(inputs.last()) =~= inputs);
    }
}

proof fn lemma_tasks_ask(tasks: Seq<TaskInput>, task: Seq<char>)
    requires
        distinct_tasks(tasks),
        forall|i: int, k: int|
            0 <= i < tasks.len() && 0 <= k < tasks[i].inputs@.len() ==> plain_question(
                #[trigger] tasks[i].inputs@[k],
            ),
    ensures
        asked(questions(tasks), task) == match inputs_of(tasks, task) {
            Some(inputs) => inputs,
            None => Seq::empty(),
        },
    decreases tasks.len(),
{
    if tasks.len() > 0 {
        let rest = tasks.drop_last();
        let last = tasks.last();
        assert forall|i: int, j: int| 0 <= i < j < rest.len() implies (
        #[trigger] rest[i]).task_id.name@ != (#[trigger] rest[j]).task_id.name@ by {
            assert(rest[i] == tasks[i] && rest[j] == tasks[j]);
        }
        assert forall|i: int, k: int|
            0 <= i < rest.len() && 0 <= k < rest[i].inputs@.len() implies plain_question(
            #[trigger] rest[i].inputs@[k],
        ) by {
            assert(rest[i] == tasks[i]);
            assert(plain_question(tasks[i].inputs@[k]));
        }
        lemma_tasks_ask(rest, task);
        assert forall|k: int| 0 <= k < last.inputs@.len() implies plain_question(
            #[trigger] last.inputs@[k],
        ) by {
            assert(plain_question(tasks[tasks.len() - 1].inputs@[k]));
        }
        lemma_task_asks(last.task_id, last.inputs@, task);
        lemma_asked_concat(
            questions(rest),
            task_questions(last.task_id, last.inputs@),
            task,
        );
        if last.task_id.name@ == task {
            assert forall|k: int| 0 <= k < rest.len() implies (#[trigger] rest[k]).task_id.name@
                != task by {
                assert(rest[k] == tasks[k] && tasks[tasks.len() - 1] == last);
            }
            lemma_not_in(rest, task);
        }
        assert(asked(questions(tasks), task) =~= match inputs_of(tasks, task) {
            Some(inputs) => inputs,
            None => Seq::empty(),
        });
    }
}

/// The questions of a request come back under their tasks, each with its context,
/// attachments and mode, when the kept input is sent.
pub proof fn law_kept_questions_come_back(
    request: RequestInput,
    kept: PendingCompactionRecovery,
    resumed: Seq<TaskInput>,
    fallback_task_id: TaskId,
)
    requires
        request.input_messages@.len() > 0,
        distinct_tasks(request.input_messages@),
        forall|i: int|
            0 <= i < request.input_messages@.len() ==> (
            #[trigger] request.input_messages@[i]).inputs@.len() > 0,
        forall|i: int, k: int|
            0 <= i < request.input_messages@.len() && 0 <= k
                < request.input_messages@[i].inputs@.len() ==> plain_question(
                #[trigger] request.input_messages@[i].inputs@[k],
            ),
        kept_from(kept, request),
        resumed_as(resumed, kept, fallback_task_id),
    ensures
        forall|task: Seq<char>| #[trigger]
            inputs_of(resumed, task) == inputs_of(request.input_messages@, task),
{
    let tasks = request.input_messages@;
    let order = in_order(tasks);
    lemma_in_order(tasks);
    assert forall|i: int, k: int|
        0 <= i < order.len() && 0 <= k < order[i].inputs@.len() implies plain_question(
        #[trigger] order[i].inputs@[k],
    ) by {
        assert(order.contains(order[i]));
        let j = choose|j: int| 0 <= j < tasks.len() && tasks[j] == order[i];
        assert(plain_question(tasks[j].inputs@[k]));
    }
    let first = tasks[tasks.len() - 1].task_id.name@;
    assert(kept.queries@.len() > 0) by {
        lemma_tasks_ask(order, first);
        assert(inputs_of(order, first) == inputs_of(tasks, first));
    }
    assert forall|task: Seq<char>| #[trigger] inputs_of(resumed, task) == inputs_of(tasks, task) by {
        lemma_tasks_ask(order, task);
        assert(inputs_of(order, task) == inputs_of(tasks, task));
        if inputs_of(tasks, task) is Some {
            lemma_found(tasks, task);
        }
    }
}

/// An entry that a lookup finds stands in the list.
proof fn lemma_found(tasks: Seq<TaskInput>, task: Seq<char>)
    requires
        inputs_of(tasks, task) is Some,
    ensures
        exists|i: int|
            0 <= i < tasks.len() && (#[trigger] tasks[i]).inputs@ == inputs_of(tasks, task)->0,
    decreases tasks.len(),
{
    if tasks.last().task_id.name@ == task {
        assert(tasks[tasks.len() - 1].inputs@ == inputs_of(tasks, task)->0);
    } else {
        lemma_found(tasks.drop_last(), task);
        let i = choose|i: int|
            0 <= i < tasks.drop_last().len() && (#[trigger] tasks.drop_last()[i]).inputs@
                == inputs_of(tasks, task)->0;
        assert(tasks[i].inputs@ == inputs_of(tasks, task)->0);
    }
}

proof fn lemma_no_questions(tasks: Seq<TaskInput>)
    requires
        forall|i: int, k: int|
            0 <= i < tasks.len() && 0 <= k < tasks[i].inputs@.len() ==> !(
            #[trigger] tasks[i].inputs@[k] is UserQuery),
    ensures
        questions(tasks).len() == 0,
    decreases tasks.len(),
{
    if tasks.len() > 0 {
        let rest = tasks.drop_last();
        let last = tasks.last();
        assert forall|i: int, k: int|
            0 <= i < rest.len() && 0 <= k < rest[i].inputs@.len() implies !(
        #[trigger] rest[i].inputs@[k] is UserQuery) by {
            assert(rest[i] == tasks[i]);
            assert(!(tasks[i].inputs@[k] is UserQuery));
        }
        lemma_no_questions(rest);
        assert forall|k: int| 0 <= k < last.inputs@.len() implies !(
        #[trigger] last.inputs@[k] is UserQuery) by {
            assert(!(tasks[tasks.len() - 1].inputs@[k] is UserQuery));
        }
        lemma_no_task_questions(last.task_id, last.inputs@);
    }
}

proof fn lemma_no_task_questions(task_id: TaskId, inputs: Seq<AIAgentInput>)
    requires
        forall|k: int| 0 <= k < inputs.len() ==> !(#[trigger] inputs[k] is UserQuery),
    ensures
        task_questions(task_id, inputs).len() == 0,
    decreases inputs.len(),
{
    if inputs.len() > 0 {
        assert(!(inputs[inputs.len() - 1] is UserQuery));
        lemma_no_task_questions(task_id, inputs.drop_last());
    }
}

/// A request that only continues after tools, or holds no task at all, keeps no question. What
/// is sent later is the order to go on in its first task, with the context that it had, and
/// no tool result.
pub proof fn law_tool_continuation_asks_nothing(
    request: RequestInput,
    kept: PendingCompactionRecovery,
    resumed: Seq<TaskInput>,
    fallback_task_id: TaskId,
)
    requires
        kept_from(kept, request),
        resumed_as(resumed, kept, fallback_task_id),
        forall|i: int, k: int|
            0 <= i < request.input_messages@.len() && 0 <= k
                < request.input_messages@[i].inputs@.len() ==> !(
            #[trigger] request.input_messages@[i].inputs@[k] is UserQuery),
    ensures
        kept.queries@.len() == 0,
        resumed.len() == 1,
        resumed[0].inputs@.len() == 1,
        resumed[0].inputs@[0] matches AIAgentInput::ResumeConversation { context } && match first_context(
            in_order(request.input_messages@),
        ) {
            Some(had) => context == had,
            None => context@.len() == 0,
        },
        resumed[0].task_id == (if request.input_messages@.len() > 0 {
            in_order(request.input_messages@)[0].task_id
        } else {
            fallback_task_id
        }),
{
    let tasks = request.input_messages@;
    let order = in_order(tasks);
    lemma_in_order(tasks);
    assert forall|i: int, k: int| 0 <= i < order.len() && 0 <= k < order[i].inputs@.len() implies !(
    #[trigger] order[i].inputs@[k] is UserQuery) by {
        assert(order.contains(order[i]));
        let j = choose|j: int| 0 <= j < tasks.len() && tasks[j] == order[i];
        assert(!(tasks[j].inputs@[k] is UserQuery));
    }
    lemma_no_questions(order);
}

/// All inputs of a request, task by task.
pub open spec fn sent_inputs(tasks: Seq<TaskInput>) -> Seq<AIAgentInput>
    decreases tasks.len(),
{
    if tasks.len() == 0 {
        Seq::empty()
    } else {
        sent_inputs(tasks.drop_last()) + tasks.last().inputs@
    }
}

/// `part` is what is left of `whole` once some of its entries are taken out.
pub open spec fn in_sequence(part: Seq<AIAgentInput>, whole: Seq<AIAgentInput>) -> bool
    decreases whole.len(),
{
    if part.len() == 0 {
        true
    } else if whole.len() == 0 {
        false
    } else {
        ||| in_sequence(part, whole.drop_last())
        ||| part.last() == whole.last() && in_sequence(part.drop_last(), whole.drop_last())
    }
}

/// The questions of all tasks but one.
spec fn asked_elsewhere(queries: Seq<PendingCompactionQuery>, task: Seq<char>) -> Seq<
    PendingCompactionQuery,
>
    decreases queries.len(),
{
    if queries.len() == 0 {
        queries
    } else {
        let earlier = asked_elsewhere(queries.drop_last(), task);
        if queries.last().task_id.name@ == task {
            earlier
        } else {
            earlier.push(queries.last())
        }
    }
}

proof fn lemma_asked_elsewhere(queries: Seq<PendingCompactionQuery>, task: Seq<char>)
    ensures
        forall|other: Seq<char>| #[trigger]
            asked(asked_elsewhere(queries, task), other) == (if other == task {
                Seq::empty()
            } else {
                asked(queries, other)
            }),
        asked_inputs(queries).to_multiset() == asked_inputs(
            asked_elsewhere(queries, task),
        ).to_multiset().add(asked(queries, task).to_multiset()),
    decreases queries.len(),
{
    broadcast use vstd::seq_lib::group_to_multiset_ensures;

    if queries.len() == 0 {
        assert(asked_inputs(queries) =~= Seq::empty());
        assert(asked_inputs(queries).to_multiset() =~= asked_inputs(
            asked_elsewhere(queries, task),
        ).to_multiset().add(asked(queries, task).to_multiset()));
    } else {
        let rest = queries.drop_last();
        let last = queries.last();
        let elsewhere = asked_elsewhere(rest, task);
        lemma_asked_elsewhere(rest, task);
        assert(asked_inputs(queries) =~= asked_inputs(rest).push(last.spec_input()));
        assert(asked_inputs(elsewhere.push(last)) =~= asked_inputs(elsewhere).push(
            last.spec_input(),
        ));
        assert(elsewhere.push(last).drop_last() =~= elsewhere);
        assert(asked_inputs(queries).to_multiset() =~= asked_inputs(
            asked_elsewhere(queries, task),
        ).to_multiset().add(asked(queries, task).to_multiset()));
        assert forall|other: Seq<char>| #[trigger]
            asked(asked_elsewhere(queries, task), other) == (if other == task {
                Seq::empty()
            } else {
                asked(queries, other)
            }) by {
            assert(asked(elsewhere, other) == (if other == task {
                Seq::empty()
            } else {
                asked(rest, other)
            }));
        }
    }
}

/// Grouping by task loses no question and adds none.
proof fn lemma_grouping_keeps_all(tasks: Seq<TaskInput>, queries: Seq<PendingCompactionQuery>)
    requires
        grouped(tasks, queries),
    ensures
        sent_inputs(tasks).to_multiset() == asked_inputs(queries).to_multiset(),
    decreases tasks.len(),
{
    if tasks.len() == 0 {
        if queries.len() > 0 {
            assert(inputs_of(tasks, queries.last().task_id.name@) is None);
        }
        assert(sent_inputs(tasks) =~= asked_inputs(queries));
    } else {
        let rest = tasks.drop_last();
        let last = tasks.last();
        let task = last.task_id.name@;
        let elsewhere = asked_elsewhere(queries, task);
        lemma_asked_elsewhere(queries, task);
        assert(inputs_of(tasks, task) == Some(last.inputs@));
        assert forall|i: int, j: int| 0 <= i < j < rest.len() implies (
        #[trigger] rest[i]).task_id.name@ != (#[trigger] rest[j]).task_id.name@ by {
            assert(rest[i] == tasks[i] && rest[j] == tasks[j]);
        }
        assert forall|k: int| 0 <= k < rest.len() implies (#[trigger] rest[k]).task_id.name@
            != task by {
            assert(rest[k] == tasks[k] && tasks[tasks.len() - 1] == last);
        }
        lemma_not_in(rest, task);
        assert forall|other: Seq<char>| #[trigger]
            inputs_of(rest, other) == (if asked(elsewhere, other).len() > 0 {
                Some(asked(elsewhere, other))
            } else {
                None
            }) by {
            assert(inputs_of(tasks, other) == (if asked(queries, other).len() > 0 {
                Some(asked(queries, other))
            } else {
                None
            }));
        }
        lemma_grouping_keeps_all(rest, elsewhere);
        vstd::seq_lib::lemma_multiset_commutative(sent_inputs(rest), last.inputs@);
    }
}

proof fn lemma_asked_in_sequence(queries: Seq<PendingCompactionQuery>, task: Seq<char>)
    ensures
        in_sequence(asked(queries, task), asked_inputs(queries)),
    decreases queries.len(),
{
    if queries.len() > 0 {
        let rest = queries.drop_last();
        lemma_asked_in_sequence(rest, task);
        assert(asked_inputs(queries).drop_last() =~= asked_inputs(rest));
        assert(asked_inputs(queries).last() == queries.last().spec_input());
        if queries.last().task_id.name@ == task {
            assert(asked(queries, task).drop_last() =~= asked(rest, task));
        }
    }
}

/// The exchange that shows the input as stopped and the request that sends it later carry the
/// same inputs: none is missing and none is there twice, and within each task the request has
/// them in the order of the exchange.
pub proof fn law_stopped_and_resumed_input_agree(
    kept: PendingCompactionRecovery,
    resumed: Seq<TaskInput>,
    fallback_task_id: TaskId,
)
    requires
        resumed_as(resumed, kept, fallback_task_id),
    ensures
        sent_inputs(resumed).to_multiset() == shown_as(kept).to_multiset(),
        forall|task: Seq<char>| #[trigger]
            inputs_of(resumed, task) is Some ==> in_sequence(
                inputs_of(resumed, task)->0,
                shown_as(kept),
            ),
{
    if kept.queries@.len() == 0 {
        reveal_with_fuel(sent_inputs, 2);
        reveal_with_fuel(inputs_of, 2);
        reveal_with_fuel(in_sequence, 2);
        assert(resumed.drop_last() =~= Seq::empty());
        assert(sent_inputs(resumed) =~= shown_as(kept));
    } else {
        lemma_grouping_keeps_all(resumed, kept.queries@);
        assert forall|task: Seq<char>| #[trigger] inputs_of(resumed, task) is Some implies in_sequence(
            inputs_of(resumed, task)->0,
            shown_as(kept),
        ) by {
            lemma_asked_in_sequence(kept.queries@, task);
        }
    }
}

/// Only the request id shows that an input went out: without a message under it, the same
/// text in the history does not.
pub proof fn law_same_text_is_no_proof(
    recovery: PendingCompactionRecovery,
    messages: Seq<message::MessageView>,
)
    requires
        recovery.resumed_request_id is Some ==> forall|k: int|
            0 <= k < messages.len() ==> (#[trigger] messages[k]).request_id
                != recovery.resumed_request_id->0@,
    ensures
        !persisted(recovery, messages),
{
    if recovery.resumed_request_id is Some && recovery.queries@.len() > 0 {
        let first = recovery.queries@[0];
        assert forall|k: int| 0 <= k < messages.len() implies !sent_as(
            #[trigger] messages[k],
            recovery.resumed_request_id->0@,
            first.query@,
        ) by {}
    }
}

/// A request that is kept and sent later goes out as it would have gone out: to the same models,
/// in the same directory, with its own time, and for the conversation and the participant that
/// it is sent for.
pub proof fn law_resumed_request_is_the_kept_one(
    request: RequestInput,
    kept: PendingCompactionRecovery,
    resumed: RequestInput,
    conversation_id: AIConversationId,
    fallback_task_id: TaskId,
    response_initiator: Option<ParticipantId>,
)
    requires
        kept_from(kept, request),
        resumed_request(resumed, kept, conversation_id, fallback_task_id, response_initiator),
    ensures
        resumed.model_id == request.model_id,
        resumed.coding_model_id == request.coding_model_id,
        resumed.cli_agent_model_id == request.cli_agent_model_id,
        resumed.computer_use_model_id == request.computer_use_model_id,
        resumed.working_directory == request.working_directory,
        resumed.request_start_ts == request.request_start_ts,
        resumed.conversation_id == conversation_id,
        resumed.shared_session_response_initiator == response_initiator,
        resumed.supported_tools_override is None,
{
}

/// An input that is kept and stopped is shown as an exchange of its own: under the id that it is
/// kept by, finished by the user, with nothing of an answer, and with the models, the directory
/// and the time of its request.
pub proof fn law_stopped_exchange_shows_the_kept_request(
    request: RequestInput,
    kept: PendingCompactionRecovery,
    exchange: AIAgentExchange,
)
    requires
        kept_from(kept, request),
        stopped_exchange(exchange, kept),
    ensures
        exchange.id == kept.id,
        exchange.model_id == request.model_id,
        exchange.coding_model_id == request.coding_model_id,
        exchange.cli_agent_model_id == request.cli_agent_model_id,
        exchange.computer_use_model_id == request.computer_use_model_id,
        exchange.working_directory == request.working_directory,
        exchange.start_time == request.request_start_ts,
        exchange.finish_time == Some(request.request_start_ts),
        exchange.output_status matches AIAgentOutputStatus::Finished {
            finished_output: FinishedAIAgentOutput::Cancelled { output: None, reason },
        } && reason == CancellationReason::ManuallyCancelled,
        exchange.added_message_ids@.len() == 0,
        exchange.time_to_first_token_ms is None,
        exchange.request_cost is None,
        exchange.response_initiator is None,
        exchange.input@.len() > 0,
{
}

/// What is kept belongs to nobody and went out under no request yet.
pub proof fn law_kept_input_is_not_bound(request: RequestInput, kept: PendingCompactionRecovery)
    requires
        kept_from(kept, request),
    ensures
        kept.owner_exchange_id is None,
        kept.resumed_request_id is None,
        kept.anchor_message_id is None,
        kept.summary_request_id is None,
        kept.queries@.len() > 0 ==> kept.resume_context@.len() == 0,
{
}

/// "Continue" means a kept input exactly on the exchange that shows it and on the one that
/// carries it.
pub proof fn law_continue_means_two_exchanges(
    kept: PendingCompactionRecovery,
    owner: AIAgentExchangeId,
    other: AIAgentExchangeId,
)
    ensures
        resume_target(kept, kept.id),
        kept.owner_exchange_id == Some(owner) ==> resume_target(kept, owner),
        kept.owner_exchange_id == Some(owner) && other.value != kept.id.value && other.value
            != owner.value ==> !resume_target(kept, other),
        kept.owner_exchange_id is None && other.value != kept.id.value ==> !resume_target(
            kept,
            other,
        ),
{
}

/// A question keeps its text, its context, its attachments and its mode, and comes back with
/// them; nothing but a question of the user is kept as one.
pub proof fn law_questions_are_kept_as_they_are(task_id: TaskId, input: AIAgentInput)
    ensures
        match input {
            AIAgentInput::UserQuery {
                query,
                context,
                referenced_attachments,
                user_query_mode,
                static_query_type,
                running_command,
                intended_agent,
            } => question(task_id, input) matches Some(q) && q.task_id == task_id && q.query
                == query && q.context == context && q.referenced_attachments
                == referenced_attachments && q.user_query_mode == user_query_mode && (
            q.spec_input() matches AIAgentInput::UserQuery {
                query: query2,
                context: context2,
                referenced_attachments: attachments2,
                user_query_mode: mode2,
                static_query_type: None,
                running_command: None,
                intended_agent: None,
            } && query2 == query && context2 == context && attachments2 == referenced_attachments
                && mode2 == user_query_mode),
            _ => question(task_id, input) is None,
        },
{
}

/// The questions of a request are collected input by input and task by task.
pub proof fn law_questions_are_collected_in_order(
    task_id: TaskId,
    inputs: Seq<AIAgentInput>,
    input: AIAgentInput,
    tasks: Seq<TaskInput>,
    task: TaskInput,
)
    ensures
        task_questions(task_id, Seq::empty()).len() == 0,
        input is UserQuery ==> task_questions(task_id, inputs.push(input)) == task_questions(
            task_id,
            inputs,
        ).push(question(task_id, input)->0),
        !(input is UserQuery) ==> task_questions(task_id, inputs.push(input)) == task_questions(
            task_id,
            inputs,
        ),
        questions(Seq::empty()).len() == 0,
        questions(tasks.push(task)) == questions(tasks) + task_questions(
            task.task_id,
            task.inputs@,
        ),
{
    assert(inputs.push(input).drop_last() =~= inputs);
    assert(tasks.push(task).drop_last() =~= tasks);
}

proof fn lemma_question_collected(task_id: TaskId, inputs: Seq<AIAgentInput>, k: int)
    requires
        0 <= k < inputs.len(),
        inputs[k] is UserQuery,
    ensures
        task_questions(task_id, inputs).contains(question(task_id, inputs[k])->0),
    decreases inputs.len(),
{
    let rest = inputs.drop_last();
    let all = task_questions(task_id, inputs);
    if k == inputs.len() - 1 {
        assert(all.last() == question(task_id, inputs[k])->0);
    } else {
        lemma_question_collected(task_id, rest, k);
        let earlier = task_questions(task_id, rest);
        let p = choose|p: int|
            0 <= p < earlier.len() && earlier[p] == question(task_id, inputs[k])->0;
        assert(all[p] == earlier[p]);
    }
}

proof fn lemma_question_of_task(tasks: Seq<TaskInput>, i: int, k: int)
    requires
        0 <= i < tasks.len(),
        0 <= k < tasks[i].inputs@.len(),
        tasks[i].inputs@[k] is UserQuery,
    ensures
        questions(tasks).contains(question(tasks[i].task_id, tasks[i].inputs@[k])->0),
    decreases tasks.len(),
{
    let rest = tasks.drop_last();
    let last = tasks.last();
    let q = question(tasks[i].task_id, tasks[i].inputs@[k])->0;
    let front = questions(rest);
    let back = task_questions(last.task_id, last.inputs@);
    if i == tasks.len() - 1 {
        lemma_question_collected(last.task_id, last.inputs@, k);
        let p = choose|p: int| 0 <= p < back.len() && back[p] == q;
        assert((front + back)[front.len() + p] == q);
    } else {
        lemma_question_of_task(rest, i, k);
        let p = choose|p: int| 0 <= p < front.len() && front[p] == q;
        assert((front + back)[p] == q);
    }
}

/// No question is lost: whatever else a request holds, each of its questions is kept, under its
/// task and with its text, context, attachments and mode.
pub proof fn law_every_question_is_kept(
    request: RequestInput,
    kept: PendingCompactionRecovery,
    i: int,
    k: int,
)
    requires
        kept_from(kept, request),
        0 <= i < request.input_messages@.len(),
        0 <= k < request.input_messages@[i].inputs@.len(),
        request.input_messages@[i].inputs@[k] is UserQuery,
    ensures
        exists|p: int|
            0 <= p < kept.queries@.len() && {
                let q = #[trigger] kept.queries@[p];
                let input = request.input_messages@[i].inputs@[k];
                &&& q.task_id == request.input_messages@[i].task_id
                &&& q.query == input->query
                &&& q.context == input->UserQuery_context
                &&& q.referenced_attachments == input->referenced_attachments
                &&& q.user_query_mode == input->user_query_mode
            },
{
    let tasks = request.input_messages@;
    let order = in_order(tasks);
    lemma_in_order(tasks);
    assert(tasks.contains(tasks[i]));
    assert(order.contains(tasks[i]));
    let j = choose|j: int| 0 <= j < order.len() && order[j] == tasks[i];
    lemma_question_of_task(order, j, k);
    let q = question(tasks[i].task_id, tasks[i].inputs@[k])->0;
    let p = choose|p: int| 0 <= p < kept.queries@.len() && kept.queries@[p] == q;
    assert(kept.queries@[p] == q);
}

/// The task in which a kept input goes on is the one with the least id.
pub proof fn law_input_goes_on_in_the_first_task(
    request: RequestInput,
    kept: PendingCompactionRecovery,
    i: int,
)
    requires
        kept_from(kept, request),
        0 <= i < request.input_messages@.len(),
    ensures
        kept.resume_task_id is Some,
        exists|j: int|
            0 <= j < request.input_messages@.len() && (
            #[trigger] request.input_messages@[j]).task_id == kept.resume_task_id->0,
        !text::text_lt(
            request.input_messages@[i].task_id.name@,
            kept.resume_task_id->0.name@,
        ),
{
    let tasks = request.input_messages@;
    let order = in_order(tasks);
    lemma_in_order(tasks);
    assert(order.contains(order[0]));
    let j = choose|j: int| 0 <= j < tasks.len() && tasks[j] == order[0];
    assert(tasks[j].task_id == kept.resume_task_id->0);
    assert(tasks.contains(tasks[i]));
    assert(order.contains(tasks[i]));
    let p = choose|p: int| 0 <= p < order.len() && order[p] == tasks[i];
    if p == 0 {
        text::lemma_text_lt_total(tasks[i].task_id.name@, tasks[i].task_id.name@);
    } else {
        assert(!text::text_lt(order[p].task_id.name@, order[0].task_id.name@));
    }
}

/// The context to go on with is the first one that an input has; an input without one is passed
/// over.
pub proof fn law_first_context_is_found(input: AIAgentInput, rest: Seq<AIAgentInput>)
    ensures
        first_input_context(Seq::empty()) is None,
        first_input_context(seq![input] + rest) == match input {
            AIAgentInput::UserQuery { context, .. } => Some(context),
            AIAgentInput::ActionResult { result: _, context } => Some(context),
            AIAgentInput::ResumeConversation { context } => Some(context),
            AIAgentInput::SummarizeConversation { context, .. } => Some(context),
            AIAgentInput::Other { encoded: _, context: Some(context) } => Some(context),
            AIAgentInput::Other { encoded: _, context: None } => first_input_context(rest),
        },
{
    assert((seq![input] + rest).drop_first() =~= rest);
}

/// The tasks are gone through in their order for a context.
pub proof fn law_first_context_of_the_first_task(task: TaskInput, rest: Seq<TaskInput>)
    ensures
        first_context(Seq::empty()) is None,
        first_input_context(task.inputs@) is Some ==> first_context(seq![task] + rest)
            == first_input_context(task.inputs@),
        first_input_context(task.inputs@) is None ==> first_context(seq![task] + rest)
            == first_context(rest),
{
    assert((seq![task] + rest).drop_first() =~= rest);
}

proof fn lemma_asked_contains(queries: Seq<PendingCompactionQuery>, p: int)
    requires
        0 <= p < queries.len(),
    ensures
        asked(queries, queries[p].task_id.name@).contains(queries[p].spec_input()),
    decreases queries.len(),
{
    let rest = queries.drop_last();
    let task = queries[p].task_id.name@;
    let all = asked(queries, task);
    if p == queries.len() - 1 {
        assert(all.last() == queries[p].spec_input());
    } else {
        lemma_asked_contains(rest, p);
        let earlier = asked(rest, task);
        let k = choose|k: int| 0 <= k < earlier.len() && earlier[k] == queries[p].spec_input();
        assert(all[k] == earlier[k]);
    }
}

/// Each kept question is sent under its own task, as a question with its text, context,
/// attachments and mode.
pub proof fn law_each_question_goes_to_its_task(
    kept: PendingCompactionRecovery,
    resumed: Seq<TaskInput>,
    fallback_task_id: TaskId,
    p: int,
)
    requires
        resumed_as(resumed, kept, fallback_task_id),
        0 <= p < kept.queries@.len(),
    ensures
        exists|i: int, k: int|
            0 <= i < resumed.len() && 0 <= k < resumed[i].inputs@.len() && resumed[i].task_id.name@
                == kept.queries@[p].task_id.name@ && {
                let input = #[trigger] resumed[i].inputs@[k];
                &&& input is UserQuery
                &&& input->query == kept.queries@[p].query
                &&& input->UserQuery_context == kept.queries@[p].context
                &&& input->referenced_attachments == kept.queries@[p].referenced_attachments
                &&& input->user_query_mode == kept.queries@[p].user_query_mode
            },
{
    let q = kept.queries@[p];
    let task = q.task_id.name@;
    lemma_asked_contains(kept.queries@, p);
    let inputs = asked(kept.queries@, task);
    assert(inputs_of(resumed, task) == Some(inputs));
    lemma_found_task(resumed, task);
    let i = choose|i: int|
        0 <= i < resumed.len() && (#[trigger] resumed[i]).inputs@ == inputs
            && resumed[i].task_id.name@ == task;
    let k = choose|k: int| 0 <= k < inputs.len() && inputs[k] == q.spec_input();
    assert(resumed[i].inputs@[k] == q.spec_input());
}

proof fn lemma_found_task(tasks: Seq<TaskInput>, task: Seq<char>)
    requires
        inputs_of(tasks, task) is Some,
    ensures
        exists|i: int|
            0 <= i < tasks.len() && (#[trigger] tasks[i]).inputs@ == inputs_of(tasks, task)->0
                && tasks[i].task_id.name@ == task,
    decreases tasks.len(),
{
    if tasks.last().task_id.name@ == task {
        assert(tasks[tasks.len() - 1].inputs@ == inputs_of(tasks, task)->0);
    } else {
        lemma_found_task(tasks.drop_last(), task);
        let i = choose|i: int|
            0 <= i < tasks.drop_last().len() && (#[trigger] tasks.drop_last()[i]).inputs@
                == inputs_of(tasks, task)->0 && tasks.drop_last()[i].task_id.name@ == task;
        assert(tasks[i].inputs@ == inputs_of(tasks, task)->0);
    }
}

/// A lookup gives the inputs of the task that it is for.
pub proof fn law_inputs_are_found_by_their_task(tasks: Seq<TaskInput>, i: int, task: Seq<char>)
    requires
        distinct_tasks(tasks),
        0 <= i < tasks.len(),
    ensures
        inputs_of(tasks, tasks[i].task_id.name@) == Some(tasks[i].inputs@),
        (forall|k: int| 0 <= k < tasks.len() ==> (#[trigger] tasks[k]).task_id.name@ != task)
            ==> inputs_of(tasks, task) is None,
{
    lemma_inputs_of(tasks, i);
    if forall|k: int| 0 <= k < tasks.len() ==> (#[trigger] tasks[k]).task_id.name@ != task {
        lemma_not_in(tasks, task);
    }
}

/// An input is in the history exactly where it went out under a request with an id, and every
/// question of it, or anything at all where nothing was asked, stands there under that id.
pub proof fn law_when_an_input_is_in_the_history(
    kept: PendingCompactionRecovery,
    request_id: String,
    messages: Seq<message::MessageView>,
)
    ensures
        kept.resumed_request_id is None ==> !persisted(kept, messages),
        kept.resumed_request_id == Some(request_id) && request_id@.len() == 0 ==> !persisted(
            kept,
            messages,
        ),
        kept.resumed_request_id == Some(request_id) && request_id@.len() > 0
            && kept.queries@.len() == 0 ==> (persisted(kept, messages) <==> exists|k: int|
            0 <= k < messages.len() && (#[trigger] messages[k]).request_id == request_id@),
        kept.resumed_request_id == Some(request_id) && request_id@.len() > 0
            && kept.queries@.len() > 0 ==> (persisted(kept, messages) <==> forall|i: int|
            0 <= i < kept.queries@.len() ==> exists|k: int|
                0 <= k < messages.len() && (#[trigger] messages[k]).request_id == request_id@
                    && messages[k].body == Some(
                    message::BodyView::UserQuery { query: (#[trigger] kept.queries@[i]).query@ },
                )),
{
    if kept.resumed_request_id == Some(request_id) && request_id@.len() > 0 && kept.queries@.len()
        > 0 {
        if persisted(kept, messages) {
            assert forall|i: int| 0 <= i < kept.queries@.len() implies exists|k: int|
                0 <= k < messages.len() && (#[trigger] messages[k]).request_id == request_id@
                    && messages[k].body == Some(
                    message::BodyView::UserQuery { query: (#[trigger] kept.queries@[i]).query@ },
                ) by {
                let k = choose|k: int|
                    0 <= k < messages.len() && sent_as(
                        #[trigger] messages[k],
                        request_id@,
                        kept.queries@[i].query@,
                    );
                assert(messages[k].request_id == request_id@);
            }
        }
        if forall|i: int|
            0 <= i < kept.queries@.len() ==> exists|k: int|
                0 <= k < messages.len() && (#[trigger] messages[k]).request_id == request_id@
                    && messages[k].body == Some(
                    message::BodyView::UserQuery { query: (#[trigger] kept.queries@[i]).query@ },
                ) {
            assert forall|i: int| 0 <= i < kept.queries@.len() implies exists|k: int|
                0 <= k < messages.len() && sent_as(
                    #[trigger] messages[k],
                    request_id@,
                    (#[trigger] kept.queries@[i]).query@,
                ) by {
                let k = choose|k: int|
                    0 <= k < messages.len() && (#[trigger] messages[k]).request_id == request_id@
                        && messages[k].body == Some(
                        message::BodyView::UserQuery { query: kept.queries@[i].query@ },
                    );
                assert(sent_as(messages[k], request_id@, kept.queries@[i].query@));
            }
        }
    }
}

} // verus!
