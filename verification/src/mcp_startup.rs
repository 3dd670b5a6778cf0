//! Waits, within a time budget, for the tool servers that start by themselves.
//!
//! Only servers that really start are waited for. A server that fails to start, or a wait
//! that runs out of time, never makes the agent fail.

use vstd::prelude::*;

verus! {

#[derive(Debug, Clone, Copy, PartialEq, Eq, Structural)]
pub enum MCPServerState {
    NotRunning,
    Starting,
    Authenticating,
    Running,
    ShuttingDown,
    FailedToStart,
}

/// Why a wait ended without a value.
#[derive(Debug, Clone, Copy, PartialEq, Eq, Structural)]
pub enum ModelEventWaitError {
    SubscriptionDropped,
    TimedOut,
}

/// How a wait ended.
#[derive(Debug, Clone, PartialEq, Eq)]
pub enum WaitEnd<T> {
    Value(T),
    /// Nobody can send a value any more.
    SenderDropped,
    TimedOut,
}

/// What is known of a server when the wait begins.
#[derive(Debug, Clone, Copy, PartialEq, Eq, Structural)]
pub struct ServerSnapshot {
    pub uuid: u128,
    /// The configuration still has the server.
    pub configured: bool,
    /// Nothing stands for a server whose start is queued.
    pub state: Option<MCPServerState>,
}

/// What to do next.
#[derive(Debug, Clone, PartialEq, Eq)]
pub enum StartupStep {
    /// Wait for the first scan of the configuration.
    WaitForScan,
    /// Wait for these servers.
    WaitForServers(Vec<u128>),
    /// Go on.
    Proceed,
}

/// The server has started, or it will not.
pub open spec fn settled(state: MCPServerState) -> bool {
    state == MCPServerState::Running || state == MCPServerState::FailedToStart || state
        == MCPServerState::NotRunning
}

/// The server is one to wait for.
pub open spec fn awaited(server: ServerSnapshot) -> bool {
    server.configured && !(server.state is Some && settled(server.state->0))
}

/// The result of a wait, and whether its subscription has to be removed.
pub open spec fn wait_result<T>(end: WaitEnd<T>) -> (Result<T, ModelEventWaitError>, bool) {
    match end {
        WaitEnd::Value(value) => (Ok(value), false),
        WaitEnd::SenderDropped => (Err(ModelEventWaitError::SubscriptionDropped), false),
        WaitEnd::TimedOut => (Err(ModelEventWaitError::TimedOut), true),
    }
}

/// The first step.
pub open spec fn opening_step(enabled: bool) -> StartupStep {
    if enabled {
        StartupStep::WaitForScan
    } else {
        StartupStep::Proceed
    }
}

/// The servers that a scan found.
pub open spec fn found_by(scan: Result<Vec<u128>, ModelEventWaitError>) -> Seq<u128> {
    match scan {
        Ok(uuids) => uuids@,
        Err(_) => Seq::empty(),
    }
}

/// The step after the scan.
pub open spec fn second_step(uuids: Vec<u128>, remaining_nanos: u128) -> StartupStep {
    if uuids@.len() > 0 && remaining_nanos > 0 {
        StartupStep::WaitForServers(uuids)
    } else {
        StartupStep::Proceed
    }
}

pub fn is_settled(state: MCPServerState) -> (r: bool)
    ensures
        r == settled(state),
{
    match state {
        MCPServerState::Running
        | MCPServerState::FailedToStart
        | MCPServerState::NotRunning => true,
        MCPServerState::Starting
        | MCPServerState::Authenticating
        | MCPServerState::ShuttingDown => false,
    }
}

/// The result of a wait, and whether the subscription is still there and has to be removed
/// before the wait returns, so that it cannot take away the one of the next wait.
pub fn finish_wait<T>(end: WaitEnd<T>) -> (r: (Result<T, ModelEventWaitError>, bool))
    ensures
        r == wait_result(end),
        r == (match end {
            WaitEnd::Value(value) => (Ok(value), false),
            WaitEnd::SenderDropped => (Err(ModelEventWaitError::SubscriptionDropped), false),
            WaitEnd::TimedOut => (Err(ModelEventWaitError::TimedOut), true),
        }),
{
    match end {
        WaitEnd::Value(value) => (Ok(value), false),
        WaitEnd::SenderDropped => (Err(ModelEventWaitError::SubscriptionDropped), false),
        WaitEnd::TimedOut => (Err(ModelEventWaitError::TimedOut), true),
    }
}

/// The first step: nothing to wait for where the feature is off.
pub fn first_step(enabled: bool) -> (r: StartupStep)
    ensures
        r == opening_step(enabled),
        r == (if enabled {
            StartupStep::WaitForScan
        } else {
            StartupStep::Proceed
        }),
{
    if enabled {
        StartupStep::WaitForScan
    } else {
        StartupStep::Proceed
    }
}

/// The servers that the scan found. A scan that did not end in time found none.
pub fn scan_result(scan: Result<Vec<u128>, ModelEventWaitError>) -> (r: Vec<u128>)
    ensures
        r@ == found_by(scan),
        match scan {
            Ok(uuids) => r == uuids,
            Err(_) => r@.len() == 0,
        },
{
    match scan {
        Ok(uuids) => uuids,
        Err(_) => Vec::new(),
    }
}

/// The step after the scan, with what is left of the time budget.
pub fn step_after_scan(uuids: Vec<u128>, remaining_nanos: u128) -> (r: StartupStep)
    ensures
        r == second_step(uuids, remaining_nanos),
        r == (if uuids@.len() > 0 && remaining_nanos > 0 {
            StartupStep::WaitForServers(uuids)
        } else {
            StartupStep::Proceed
        }),
{
    if uuids.len() > 0 && remaining_nanos > 0 {
        StartupStep::WaitForServers(uuids)
    } else {
        StartupStep::Proceed
    }
}

/// The servers that have not settled yet.
#[derive(Debug, Clone, PartialEq, Eq)]
pub struct PendingServers {
    pub uuids: Vec<u128>,
}

/// The servers that are pending after `uuid` has gone to `state`.
pub open spec fn after_change(
    pending: Set<u128>,
    uuid: u128,
    state: MCPServerState,
) -> Set<u128> {
    if settled(state) {
        pending.remove(uuid)
    } else {
        pending
    }
}

/// The servers that are pending after all of these changes.
pub open spec fn after_changes(
    pending: Set<u128>,
    changes: Seq<(u128, MCPServerState)>,
) -> Set<u128>
    decreases changes.len(),
{
    if changes.len() == 0 {
        pending
    } else {
        after_change(
            after_changes(pending, changes.drop_last()),
            changes.last().0,
            changes.last().1,
        )
    }
}

impl View for PendingServers {
    type V = Set<u128>;

    open spec fn view(&self) -> Set<u128> {
        Set::new(|uuid: u128| self.uuids@.contains(uuid))
    }
}

/// The servers that are waited for when the wait begins.
pub open spec fn waiting_for(servers: Seq<ServerSnapshot>) -> Set<u128> {
    Set::new(
        |uuid: u128|
            exists|k: int|
                0 <= k < servers.len() && awaited(#[trigger] servers[k]) && servers[k].uuid == uuid,
    )
}

impl PendingServers {
    /// Those of `servers` that are to be waited for.
    pub fn new(servers: &Vec<ServerSnapshot>) -> (r: Self)
        ensures
            r@ == waiting_for(servers@),
            forall|uuid: u128| #[trigger]
                r@.contains(uuid) <==> exists|k: int|
                    0 <= k < servers@.len() && awaited(#[trigger] servers@[k]) && servers@[k].uuid
                        == uuid,
    {
        let mut uuids: Vec<u128> = Vec::new();
        let mut i: usize = 0;
        while i < servers.len()
            invariant
                i <= servers.len(),
                forall|uuid: u128| #[trigger]
                    uuids@.contains(uuid) <==> exists|k: int|
                        0 <= k < i && awaited(#[trigger] servers@[k]) && servers@[k].uuid == uuid,
            decreases servers.len() - i,
        {
            let server: ServerSnapshot = servers[i];
            let ghost before = uuids@;
            let done: bool = match server.state {
                Some(state) => is_settled(state),
                None => false,
            };
            if server.configured && !done {
                uuids.push(server.uuid);
            }
            proof {
                assert forall|uuid: u128| #[trigger]
                    uuids@.contains(uuid) <==> exists|k: int|
                        0 <= k < i + 1 && awaited(#[trigger] servers@[k]) && servers@[k].uuid
                            == uuid by {
                    if before.contains(uuid) {
                        let p = choose|p: int| 0 <= p < before.len() && before[p] == uuid;
                        assert(uuids@[p] == uuid);
                    }
                    if awaited(servers@[i as int]) && servers@[i as int].uuid == uuid {
                        assert(uuids@[before.len() as int] == uuid);
                    }
                    if uuids@.contains(uuid) && !before.contains(uuid) {
                        let p = choose|p: int| 0 <= p < uuids@.len() && uuids@[p] == uuid;
                        if p < before.len() {
                            assert(before[p] == uuid);
                        }
                    }
                }
            }
            i += 1;
        }
        let pending: PendingServers = PendingServers { uuids };
        assert(pending@ =~= waiting_for(servers@));
        pending
    }

    /// Nothing is left to wait for.
    pub fn is_settled(&self) -> (r: bool)
        ensures
            r == (self@ == Set::<u128>::empty()),
    {
        proof {
            if self.uuids@.len() > 0 {
                assert(self@.contains(self.uuids@[0]));
            } else {
                assert(self@ =~= Set::<u128>::empty());
            }
        }
        self.uuids.len() == 0
    }

    /// Notes the new state of a server, and tells whether the wait is over.
    pub fn on_state_changed(&mut self, uuid: u128, state: MCPServerState) -> (r: bool)
        ensures
            final(self)@ == after_change(old(self)@, uuid, state),
            r == (final(self)@ == Set::<u128>::empty()),
    {
        if is_settled(state) {
            let mut rest: Vec<u128> = Vec::new();
            let mut i: usize = 0;
            while i < self.uuids.len()
                invariant
                    i <= self.uuids.len(),
                    *self == *old(self),
                    forall|u: u128| #[trigger]
                        rest@.contains(u) <==> u != uuid && exists|k: int|
                            0 <= k < i && #[trigger] self.uuids@[k] == u,
                decreases self.uuids.len() - i,
            {
                let ghost before = rest@;
                if self.uuids[i] != uuid {
                    rest.push(self.uuids[i]);
                }
                proof {
                    assert forall|u: u128| #[trigger]
                        rest@.contains(u) <==> u != uuid && exists|k: int|
                            0 <= k < i + 1 && #[trigger] self.uuids@[k] == u by {
                        if before.contains(u) {
                            let p = choose|p: int| 0 <= p < before.len() && before[p] == u;
                            assert(rest@[p] == u);
                        }
                        if self.uuids@[i as int] == u && u != uuid {
                            assert(rest@[before.len() as int] == u);
                        }
                        if rest@.contains(u) && !before.contains(u) {
                            let p = choose|p: int| 0 <= p < rest@.len() && rest@[p] == u;
                            if p < before.len() {
                                assert(before[p] == u);
                            }
                        }
                    }
                }
                i += 1;
            }
            self.uuids = rest;
            proof {
                assert forall|u: u128| self@.contains(u) <==> #[trigger] old(self)@.remove(
                    uuid,
                ).contains(u) by {
                    assert(rest@.contains(u) <==> u != uuid && exists|k: int|
                        0 <= k < i && #[trigger] old(self).uuids@[k] == u);
                }
                assert(self@ =~= old(self)@.remove(uuid));
            }
        }
        self.is_settled()
    }
}

/// The wait is over for a server exactly when one of the changes has settled it, whatever
/// else happens in between and in whatever order.
pub proof fn law_wait_ends_when_every_server_settled(
    pending: Set<u128>,
    changes: Seq<(u128, MCPServerState)>,
    uuid: u128,
)
    ensures
        after_changes(pending, changes).contains(uuid) <==> pending.contains(uuid) && forall|k: int|
            0 <= k < changes.len() && (#[trigger] changes[k]).0 == uuid ==> !settled(changes[k].1),
    decreases changes.len(),
{
    if changes.len() > 0 {
        let earlier = changes.drop_last();
        let last = changes.len() - 1;
        law_wait_ends_when_every_server_settled(pending, earlier, uuid);
        if forall|k: int|
            0 <= k < changes.len() && (#[trigger] changes[k]).0 == uuid ==> !settled(
                changes[k].1,
            ) {
            assert forall|k: int|
                0 <= k < earlier.len() && (#[trigger] earlier[k]).0 == uuid implies !settled(
                earlier[k].1,
            ) by {
                assert(earlier[k] == changes[k]);
            }
            assert(changes[last].0 == uuid ==> !settled(changes[last].1));
        }
        if forall|k: int|
            0 <= k < earlier.len() && (#[trigger] earlier[k]).0 == uuid ==> !settled(
                earlier[k].1,
            ) {
            assert forall|k: int|
                0 <= k < changes.len() && k != last && (#[trigger] changes[k]).0
                    == uuid implies !settled(changes[k].1) by {
                assert(earlier[k] == changes[k]);
            }
        }
    }
}

/// A server is settled exactly where it is not on its way: neither starting, nor logging in,
/// nor shutting down.
pub proof fn law_which_states_settle_a_server(state: MCPServerState)
    ensures
        settled(state) <==> !(state is Starting) && !(state is Authenticating) && !(
        state is ShuttingDown),
        settled(MCPServerState::Running),
        settled(MCPServerState::FailedToStart),
        settled(MCPServerState::NotRunning),
{
}

/// A server is waited for exactly where the configuration still has it and it is on its way,
/// or its start is queued.
pub proof fn law_which_servers_are_waited_for(uuid: u128, configured: bool, state: MCPServerState)
    ensures
        awaited(ServerSnapshot { uuid, configured, state: None }) == configured,
        awaited(ServerSnapshot { uuid, configured, state: Some(state) }) <==> configured && (
        state is Starting || state is Authenticating || state is ShuttingDown),
{
}

/// A change takes away exactly the server that it settles.
pub proof fn law_a_change_settles_its_own_server(
    pending: Set<u128>,
    uuid: u128,
    state: MCPServerState,
    other: u128,
)
    ensures
        other != uuid ==> (after_change(pending, uuid, state).contains(other) <==> pending.contains(
            other,
        )),
        state is Running || state is FailedToStart || state is NotRunning ==> !after_change(
            pending,
            uuid,
            state,
        ).contains(uuid),
        state is Starting || state is Authenticating || state is ShuttingDown ==> after_change(
            pending,
            uuid,
            state,
        ) == pending,
{
}

/// A wait ends with its value, with the loss of its sender, or with a timeout; only after a
/// timeout is the subscription still there and has to go.
pub proof fn law_how_a_wait_ends<T>(end: WaitEnd<T>)
    ensures
        wait_result(end).1 <==> end is TimedOut,
        wait_result(end).0 is Ok <==> end is Value,
        end is Value ==> wait_result(end).0->Ok_0 == end->Value_0,
        end is SenderDropped ==> wait_result(end).0->Err_0
            == ModelEventWaitError::SubscriptionDropped,
        end is TimedOut ==> wait_result(end).0->Err_0 == ModelEventWaitError::TimedOut,
{
}

/// Where the feature is off, nothing is waited for. Servers are waited for exactly where the
/// scan found some and time is left, and then for all that it found; a scan that did not end
/// found none.
pub proof fn law_what_is_waited_for(
    uuids: Vec<u128>,
    remaining_nanos: u128,
    error: ModelEventWaitError,
)
    ensures
        opening_step(false) is Proceed,
        opening_step(true) is WaitForScan,
        second_step(uuids, remaining_nanos) is WaitForServers <==> uuids@.len() > 0
            && remaining_nanos > 0,
        second_step(uuids, remaining_nanos) is WaitForServers ==> second_step(
            uuids,
            remaining_nanos,
        )->WaitForServers_0 == uuids,
        !(second_step(uuids, remaining_nanos) is WaitForScan),
        found_by(Ok(uuids)) == uuids@,
        found_by(Err(error)).len() == 0,
{
}

/// A wait begins with exactly the servers that are still configured and on their way, or whose
/// start is queued.
pub proof fn law_what_a_wait_begins_with(
    servers: Seq<ServerSnapshot>,
    server: ServerSnapshot,
    uuid: u128,
)
    ensures
        !waiting_for(Seq::empty()).contains(uuid),
        waiting_for(servers.push(server)).contains(uuid) <==> waiting_for(servers).contains(uuid)
            || (server.uuid == uuid && server.configured && match server.state {
            None => true,
            Some(state) => state is Starting || state is Authenticating || state is ShuttingDown,
        }),
{
    let all = servers.push(server);
    let n = servers.len() as int;
    assert(all[n] == server);
    if waiting_for(servers).contains(uuid) {
        let k = choose|k: int|
            0 <= k < servers.len() && awaited(#[trigger] servers[k]) && servers[k].uuid == uuid;
        assert(awaited(all[k]) && all[k].uuid == uuid);
    }
    if awaited(server) && server.uuid == uuid {
        assert(awaited(all[n]) && all[n].uuid == uuid);
    }
    if waiting_for(all).contains(uuid) {
        let k = choose|k: int|
            0 <= k < all.len() && awaited(#[trigger] all[k]) && all[k].uuid == uuid;
        if k < n {
            assert(awaited(servers[k]) && servers[k].uuid == uuid);
        }
    }
}

} // verus!
