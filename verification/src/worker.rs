//! The network worker's decisions: for each command of the GUI, what the
//! worker does given which sessions are open, which subscriptions run and
//! whether the queryable is active. The worker performs the action (its
//! I/O) and reports each outcome back.
use vstd::prelude::*;

use crate::connection::{
    monitor_port, port_or, spec_port_or, DEFAULT_LISTEN_PORT, MONITOR_PORT_OFFSET,
};
use crate::payload_store::str_equal;
use crate::types::ZenohCommand;

verus! {

/// What the worker does for a command.
#[derive(Debug, Clone, Copy, PartialEq, Eq)]
pub enum WorkerAction {
    /// Open the publishing session, then the monitor session on
    /// `monitor_port` (`None`: the listen port leaves no room for it).
    Connect { monitor_port: Option<u16> },
    /// Cancel the monitor subscription and every user subscription, close
    /// both sessions and report the disconnection.
    CloseAll,
    /// Declare a subscriber on the publishing session.
    Subscribe,
    /// Cancel the user subscription at `index` and report its removal.
    CancelSubscription { index: usize },
    /// Publish on the publishing session.
    Publish,
    /// Send the query from the publishing session.
    Query,
    /// Start answering queries, after stopping the running queryable when
    /// `stop_previous`.
    StartQueryable { stop_previous: bool },
    /// Stop the running queryable.
    StopQueryable,
    /// Answer the health check.
    Pong,
    /// Nothing to do.
    Ignore,
}

/// The worker's state as values: which sessions are open, the identifiers
/// of the user's subscriptions in the order they were made, and whether a
/// queryable runs.
pub struct WorkerView {
    pub publishing: bool,
    pub monitor: bool,
    pub subscriptions: Seq<Seq<char>>,
    pub queryable: bool,
}

/// No identifier occurs twice.
pub open spec fn ids_distinct(ids: Seq<Seq<char>>) -> bool {
    forall|i: int, j: int| 0 <= i < ids.len() && 0 <= j < ids.len() && i != j ==> #[trigger] ids[i] != #[trigger] ids[j]
}

/// The monitor session's port for the listen port text: the parsed port
/// (or 7447) plus 1000, when that fits in a port number.
pub open spec fn spec_monitor_port_for(listen_port: Seq<char>) -> Option<u16> {
    let p = spec_port_or(listen_port, DEFAULT_LISTEN_PORT);
    if p + MONITOR_PORT_OFFSET <= u16::MAX {
        Some((p + MONITOR_PORT_OFFSET) as u16)
    } else {
        None
    }
}

/// What the worker does for command `c` in state `s`: connecting and
/// disconnecting always act; subscribing, publishing, querying and
/// starting the queryable need the publishing session; unsubscribing needs
/// a running subscription of that identifier; stopping the queryable needs
/// a running one.
pub open spec fn action_for(s: WorkerView, c: ZenohCommand) -> WorkerAction {
    match c {
        ZenohCommand::Connect { listen_port, .. } => WorkerAction::Connect {
            monitor_port: spec_monitor_port_for(listen_port@),
        },
        ZenohCommand::Disconnect => WorkerAction::CloseAll,
        ZenohCommand::Subscribe { .. } => if s.publishing {
            WorkerAction::Subscribe
        } else {
            WorkerAction::Ignore
        },
        ZenohCommand::Unsubscribe { subscription_id } => if s.subscriptions.contains(subscription_id@) {
            WorkerAction::CancelSubscription {
                index: s.subscriptions.index_of(subscription_id@) as usize,
            }
        } else {
            WorkerAction::Ignore
        },
        ZenohCommand::Publish { .. } => if s.publishing {
            WorkerAction::Publish
        } else {
            WorkerAction::Ignore
        },
        ZenohCommand::Query { .. } => if s.publishing {
            WorkerAction::Query
        } else {
            WorkerAction::Ignore
        },
        ZenohCommand::EnableQueryable { .. } => if s.publishing {
            WorkerAction::StartQueryable { stop_previous: s.queryable }
        } else {
            WorkerAction::Ignore
        },
        ZenohCommand::DisableQueryable => if s.queryable {
            WorkerAction::StopQueryable
        } else {
            WorkerAction::Ignore
        },
        ZenohCommand::Ping => WorkerAction::Pong,
    }
}

/// The state after the worker took `action_for(s, c)`: a disconnection
/// closes both sessions and forgets every subscription (a running
/// queryable stays); an unsubscription removes that subscription; enabling
/// the queryable (with a session) marks it running and disabling it marks
/// it stopped. Connecting changes nothing until its outcomes are reported.
pub open spec fn state_after(s: WorkerView, c: ZenohCommand) -> WorkerView {
    match action_for(s, c) {
        WorkerAction::CloseAll => WorkerView { publishing: false, monitor: false, subscriptions: Seq::empty(), ..s },
        WorkerAction::CancelSubscription { index } => WorkerView {
            subscriptions: s.subscriptions.remove(index as int),
            ..s
        },
        WorkerAction::StartQueryable { .. } => WorkerView { queryable: true, ..s },
        WorkerAction::StopQueryable => WorkerView { queryable: false, ..s },
        _ => s,
    }
}

/// The subscriptions after one of identifier `id` was made: it replaces a
/// subscription of the same identifier in place, else it is added last.
pub open spec fn with_subscription(ids: Seq<Seq<char>>, id: Seq<char>) -> Seq<Seq<char>> {
    if ids.contains(id) {
        ids.update(ids.index_of(id), id)
    } else {
        ids.push(id)
    }
}

/// The state of the network worker.
pub struct WorkerState {
    publishing: bool,
    monitor: bool,
    subscriptions: Vec<String>,
    queryable: bool,
}

impl View for WorkerState {
    type V = WorkerView;

    closed spec fn view(&self) -> WorkerView {
        WorkerView {
            publishing: self.publishing,
            monitor: self.monitor,
            subscriptions: self.subscriptions@.map_values(|s: String| s@),
            queryable: self.queryable,
        }
    }
}

/// The position of `id` in `ids`, if it occurs.
fn position_of(ids: &Vec<String>, id: &str) -> (res: Option<usize>)
    ensures
        match res {
            Some(i) => i < ids@.len() && ids@[i as int]@ == id@,
            None => forall|k: int| 0 <= k < ids@.len() ==> (#[trigger] ids@[k])@ != id@,
        },
{
    let mut i: usize = 0;
    while i < ids.len()
        invariant
            i <= ids@.len(),
            forall|k: int| 0 <= k < i ==> (#[trigger] ids@[k])@ != id@,
        decreases ids@.len() - i,
    {
        if str_equal(ids[i].as_str(), id) {
            return Some(i);
        }
        i = i + 1;
    }
    None
}

impl WorkerState {
    #[verifier::type_invariant]
    closed spec fn distinct_ids(self) -> bool {
        ids_distinct(self.subscriptions@.map_values(|s: String| s@))
    }

    /// The worker before any command: nothing open, nothing running.
    pub fn new() -> (res: WorkerState)
        ensures
            res@ == (WorkerView { publishing: false, monitor: false, subscriptions: Seq::empty(), queryable: false }),
    {
        let res = WorkerState { publishing: false, monitor: false, subscriptions: Vec::new(), queryable: false };
        proof {
            assert(res@.subscriptions =~= Seq::<Seq<char>>::empty());
        }
        res
    }

    /// Whether the publishing session is open.
    pub fn is_publishing(&self) -> (res: bool)
        ensures
            res == self@.publishing,
    {
        self.publishing
    }

    /// Number of running user subscriptions.
    pub fn subscription_count(&self) -> (res: usize)
        ensures
            res == self@.subscriptions.len(),
    {
        self.subscriptions.len()
    }

    /// Decides what to do for `command` and moves to the state after it;
    /// see `action_for` and `state_after`.
    pub fn step(&mut self, command: &ZenohCommand) -> (res: WorkerAction)
        ensures
            res == action_for(old(self)@, *command),
            final(self)@ == state_after(old(self)@, *command),
            ids_distinct(final(self)@.subscriptions),
    {
        proof {
            use_type_invariant(&*self);
        }
        let ghost s = self@;
        match command {
            ZenohCommand::Connect { listen_port, .. } => {
                let listen = port_or(listen_port.as_str(), DEFAULT_LISTEN_PORT);
                let port = if listen <= u16::MAX - MONITOR_PORT_OFFSET {
                    Some(monitor_port(listen))
                } else {
                    None
                };
                WorkerAction::Connect { monitor_port: port }
            },
            ZenohCommand::Disconnect => {
                self.publishing = false;
                self.monitor = false;
                self.subscriptions = Vec::new();
                proof {
                    assert(self@.subscriptions =~= Seq::<Seq<char>>::empty());
                }
                WorkerAction::CloseAll
            },
            ZenohCommand::Subscribe { .. } => if self.publishing {
                WorkerAction::Subscribe
            } else {
                WorkerAction::Ignore
            },
            ZenohCommand::Unsubscribe { subscription_id } => {
                match position_of(&self.subscriptions, subscription_id.as_str()) {
                    Some(index) => {
                        let ghost ids = s.subscriptions;
                        proof {
                            assert(ids[index as int] == subscription_id@);
                            assert(ids.contains(subscription_id@));
                            let j = ids.index_of(subscription_id@);
                            assert(0 <= j < ids.len() && ids[j] == subscription_id@);
                            assert(j == index as int);
                        }
                        let mut subs = Vec::new();
                        std::mem::swap(&mut subs, &mut self.subscriptions);
                        subs.remove(index);
                        proof {
                            assert(subs@.map_values(|t: String| t@) =~= ids.remove(index as int));
                        }
                        self.subscriptions = subs;
                        WorkerAction::CancelSubscription { index }
                    },
                    None => {
                        proof {
                            if s.subscriptions.contains(subscription_id@) {
                                let k = choose|k: int| 0 <= k < s.subscriptions.len() && s.subscriptions[k] == subscription_id@;
                                assert(self.subscriptions@[k]@ == subscription_id@);
                            }
                        }
                        WorkerAction::Ignore
                    },
                }
            },
            ZenohCommand::Publish { .. } => if self.publishing {
                WorkerAction::Publish
            } else {
                WorkerAction::Ignore
            },
            ZenohCommand::Query { .. } => if self.publishing {
                WorkerAction::Query
            } else {
                WorkerAction::Ignore
            },
            ZenohCommand::EnableQueryable { .. } => if self.publishing {
                let stop_previous = self.queryable;
                self.queryable = true;
                WorkerAction::StartQueryable { stop_previous }
            } else {
                WorkerAction::Ignore
            },
            ZenohCommand::DisableQueryable => if self.queryable {
                self.queryable = false;
                WorkerAction::StopQueryable
            } else {
                WorkerAction::Ignore
            },
            ZenohCommand::Ping => WorkerAction::Pong,
        }
    }

    /// Reports the outcome of opening the publishing session: once opened
    /// it is open; a failure leaves the state as it was.
    pub fn publishing_opened(&mut self, ok: bool)
        ensures
            final(self)@ == (WorkerView { publishing: old(self)@.publishing || ok, ..old(self)@ }),
    {
        proof {
            use_type_invariant(&*self);
        }
        if ok {
            self.publishing = true;
        }
    }

    /// Reports the outcome of opening the monitor session: once opened it
    /// is open; a failure leaves the state as it was.
    pub fn monitor_opened(&mut self, ok: bool)
        ensures
            final(self)@ == (WorkerView { monitor: old(self)@.monitor || ok, ..old(self)@ }),
    {
        proof {
            use_type_invariant(&*self);
        }
        if ok {
            self.monitor = true;
        }
    }

    /// Records a subscription declared at `millis` (Unix time in
    /// milliseconds) and returns its identifier, `sub_{millis}_{count}` with
    /// the count of running subscriptions, and the position of a running
    /// subscription it replaces (one of the same identifier), which the
    /// worker cancels.
    pub fn subscribed(&mut self, millis: i64) -> (res: (String, Option<usize>))
        ensures
            res.0@ == "sub_"@ + crate::connection::signed_digits(millis as int) + "_"@
                + crate::text::dec_digits(old(self)@.subscriptions.len()),
            final(self)@ == (WorkerView {
                subscriptions: with_subscription(old(self)@.subscriptions, res.0@),
                ..old(self)@
            }),
            match res.1 {
                Some(i) => i < old(self)@.subscriptions.len() && old(self)@.subscriptions[i as int] == res.0@,
                None => !old(self)@.subscriptions.contains(res.0@),
            },
            ids_distinct(final(self)@.subscriptions),
    {
        proof {
            use_type_invariant(&*self);
        }
        let ghost ids = self@.subscriptions;
        let id = crate::connection::subscription_id(millis, self.subscriptions.len());
        let found = position_of(&self.subscriptions, id.as_str());
        let mut subs = Vec::new();
        std::mem::swap(&mut subs, &mut self.subscriptions);
        match found {
            Some(index) => {
                proof {
                    assert(ids[index as int] == id@);
                    assert(ids.contains(id@));
                    let j = ids.index_of(id@);
                    assert(0 <= j < ids.len() && ids[j] == id@);
                    assert(j == index as int);
                }
                subs.set(index, id.clone());
                proof {
                    assert(subs@.map_values(|t: String| t@) =~= ids.update(index as int, id@));
                }
            },
            None => {
                proof {
                    if ids.contains(id@) {
                        let k = choose|k: int| 0 <= k < ids.len() && ids[k] == id@;
                        assert(subs@[k]@ == id@);
                    }
                }
                subs.push(id.clone());
                proof {
                    assert(subs@.map_values(|t: String| t@) =~= ids.push(id@));
                }
            },
        }
        self.subscriptions = subs;
        (id, found)
    }
}

/// Unsubscribing a subscription just made cancels it where it was made
/// and leaves the others running, in their order.
pub proof fn law_unsubscribe_cancels_new_subscription(s: WorkerView, id: Seq<char>, c: ZenohCommand)
    requires
        ids_distinct(s.subscriptions),
        s.subscriptions.len() < usize::MAX,
        !s.subscriptions.contains(id),
        c matches ZenohCommand::Unsubscribe { subscription_id } && subscription_id@ == id,
    ensures
        ({
            let t = WorkerView { subscriptions: with_subscription(s.subscriptions, id), ..s };
            &&& action_for(t, c) == (WorkerAction::CancelSubscription { index: s.subscriptions.len() as usize })
            &&& state_after(t, c) == s
        }),
{
    let ids = s.subscriptions.push(id);
    let t = WorkerView { subscriptions: ids, ..s };
    assert(with_subscription(s.subscriptions, id) == ids);
    assert(ids[s.subscriptions.len() as int] == id);
    assert(ids.contains(id));
    let j = ids.index_of(id);
    assert(0 <= j < ids.len() && ids[j] == id);
    if j < s.subscriptions.len() {
        assert(s.subscriptions[j] == id);
        assert(false);
    }
    assert(j == s.subscriptions.len());
    assert(ids.remove(j) =~= s.subscriptions);
}

/// After a disconnection nothing that needs a session is done until the
/// publishing session is opened again, and no subscription is running.
pub proof fn law_disconnect_stops_session_work(s: WorkerView, d: ZenohCommand, c: ZenohCommand)
    requires
        d is Disconnect,
        c is Subscribe || c is Publish || c is Query || c is EnableQueryable || c is Unsubscribe,
    ensures
        state_after(s, d).subscriptions.len() == 0,
        action_for(state_after(s, d), c) == WorkerAction::Ignore,
{
}

} // verus!
