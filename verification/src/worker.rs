//! A worker: its connections and its counts.
//!
//! A connection is known by its token, which is its place among the connections. An event
//! for a token that is none is ignored.

use crate::connection::{
    accepts_read, accepts_write, handle_read, handle_write, read_event_fits, read_step,
    reconnect_conn, resume_conn, write_event_counts, write_event_fits, write_step, Action,
    ConnState, ConnView, Connection, ReadEvent, Step, WriteEvent,
};
use crate::stats::{StatsView, WorkerStats};
use vstd::prelude::*;

verus! {

/// A worker.
pub struct Worker {
    pub connections: Vec<Connection>,
    pub stats: WorkerStats,
}

/// A worker, as sequences and numbers.
#[verifier::ext_equal]
pub struct WorkerView {
    pub connections: Seq<ConnView>,
    pub stats: StatsView,
}

impl View for Worker {
    type V = WorkerView;

    open spec fn view(&self) -> WorkerView {
        WorkerView {
            connections: self.connections@.map_values(|conn: Connection| conn@),
            stats: self.stats@,
        }
    }
}

impl WorkerView {
    /// The worker after a step of the connection `token`: no other connection changes.
    pub open spec fn after(self, token: int, step: Step) -> WorkerView {
        WorkerView {
            connections: self.connections.update(token, step.conn),
            stats: step.stats,
        }
    }

    /// The worker after a change of the connection `token` alone.
    pub open spec fn with_connection(self, token: int, conn: ConnView) -> WorkerView {
        WorkerView { connections: self.connections.update(token, conn), ..self }
    }

    /// Whether `event` can happen to the connection `token`, which is readable, and be
    /// counted.
    pub open spec fn accepts_read(self, token: int, event: ReadEvent, recording: bool) -> bool {
        token < self.connections.len() ==> read_event_fits(
            self.connections[token],
            self.stats,
            event,
            recording,
        )
    }

    /// Whether `event` can happen to the connection `token`, which is writable, and be
    /// counted.
    pub open spec fn accepts_write(
        self,
        token: int,
        event: WriteEvent,
        request_len: int,
        recording: bool,
    ) -> bool {
        token < self.connections.len() ==> {
            &&& write_event_fits(self.connections[token], event, request_len)
            &&& write_event_counts(self.stats, event, recording)
        }
    }
}

impl Worker {
    /// The connections and the counts are in order.
    pub open spec fn wf(self) -> bool {
        &&& self.stats.wf()
        &&& forall|i: int| 0 <= i < self.connections@.len() ==> (#[trigger] self.connections@[i]).wf()
    }

    /// A worker without connections that has counted nothing.
    pub fn new() -> (worker: Worker)
        ensures
            worker.wf(),
            worker@.connections == Seq::<ConnView>::empty(),
            worker@.stats == StatsView::empty(),
    {
        let worker = Worker { connections: Vec::new(), stats: WorkerStats::default() };
        assert(worker@.connections =~= Seq::<ConnView>::empty());
        worker
    }

    /// Adds a connection that is being set up, and gives its token.
    pub fn add_connection(&mut self) -> (token: usize)
        requires
            old(self).wf(),
        ensures
            final(self).wf(),
            token == old(self)@.connections.len(),
            final(self)@.connections == old(self)@.connections.push(ConnView::blank()),
            final(self)@.stats == old(self)@.stats,
    {
        let token: usize = self.connections.len();
        self.connections.push(Connection::new());
        assert(self@.connections =~= old(self)@.connections.push(ConnView::blank()));
        token
    }

    /// Whether the connection `token` is lost and has to be set up again.
    pub fn is_lost(&self, token: usize) -> (lost: bool)
        ensures
            lost == (token < self@.connections.len() && self@.connections[token as int].state
                == ConnState::Reconnecting),
    {
        token < self.connections.len() && matches!(
            self.connections[token].state,
            ConnState::Reconnecting
        )
    }

    /// Whether `event` can happen to the connection `token`, which is readable, and be
    /// counted.
    pub fn accepts_read(&self, token: usize, event: ReadEvent, recording: bool) -> (accepts: bool)
        requires
            self.wf(),
        ensures
            accepts == self@.accepts_read(token as int, event, recording),
    {
        token >= self.connections.len() || accepts_read(
            &self.connections[token],
            &self.stats,
            event,
            recording,
        )
    }

    /// Whether `event` can happen to the connection `token`, which is writable, and be
    /// counted.
    pub fn accepts_write(
        &self,
        token: usize,
        event: WriteEvent,
        request_len: usize,
        recording: bool,
    ) -> (accepts: bool)
        ensures
            accepts == self@.accepts_write(token as int, event, request_len as int, recording),
    {
        token >= self.connections.len() || accepts_write(
            &self.connections[token],
            &self.stats,
            event,
            request_len,
            recording,
        )
    }

    /// Handles an event on the connection `token`, which is readable.
    pub fn read_event(&mut self, token: usize, event: ReadEvent, recording: bool, now: u64) -> (action:
        Option<Action>)
        requires
            old(self).wf(),
            old(self)@.accepts_read(token as int, event, recording),
        ensures
            final(self).wf(),
            action is Some <==> token < old(self)@.connections.len(),
            match action {
                Some(action) => {
                    let step = read_step(
                        old(self)@.connections[token as int],
                        old(self)@.stats,
                        event,
                        recording,
                        now,
                    );
                    action == step.action && final(self)@ == old(self)@.after(token as int, step)
                },
                None => final(self)@ == old(self)@,
            },
    {
        if token < self.connections.len() {
            let action = handle_read(
                &mut self.connections[token],
                &mut self.stats,
                event,
                recording,
                now,
            );
            proof {
                let step = read_step(
                    old(self)@.connections[token as int],
                    old(self)@.stats,
                    event,
                    recording,
                    now,
                );
                assert(self@ =~= old(self)@.after(token as int, step));
            }
            Some(action)
        } else {
            None
        }
    }

    /// Handles an event on the connection `token`, which is writable.
    pub fn write_event(
        &mut self,
        token: usize,
        event: WriteEvent,
        request_len: usize,
        recording: bool,
        now: u64,
    ) -> (action: Option<Action>)
        requires
            old(self).wf(),
            old(self)@.accepts_write(token as int, event, request_len as int, recording),
        ensures
            final(self).wf(),
            action is Some <==> token < old(self)@.connections.len(),
            match action {
                Some(action) => {
                    let step = write_step(
                        old(self)@.connections[token as int],
                        old(self)@.stats,
                        event,
                        request_len as int,
                        recording,
                        now,
                    );
                    action == step.action && final(self)@ == old(self)@.after(token as int, step)
                },
                None => final(self)@ == old(self)@,
            },
    {
        if token < self.connections.len() {
            let action = handle_write(
                &mut self.connections[token],
                &mut self.stats,
                event,
                request_len,
                recording,
                now,
            );
            proof {
                let step = write_step(
                    old(self)@.connections[token as int],
                    old(self)@.stats,
                    event,
                    request_len as int,
                    recording,
                    now,
                );
                assert(self@ =~= old(self)@.after(token as int, step));
            }
            Some(action)
        } else {
            None
        }
    }

    /// Notes that the connection `token` was set up again after a loss or the end of a
    /// response, or that this failed.
    pub fn reconnected(&mut self, token: usize, connected: bool)
        requires
            old(self).wf(),
        ensures
            final(self).wf(),
            final(self)@ == if token < old(self)@.connections.len() {
                old(self)@.with_connection(
                    token as int,
                    old(self)@.connections[token as int].reconnected(connected),
                )
            } else {
                old(self)@
            },
    {
        if token < self.connections.len() {
            reconnect_conn(&mut self.connections[token], connected);
            assert(self@ =~= old(self)@.with_connection(
                token as int,
                old(self)@.connections[token as int].reconnected(connected),
            ));
        }
    }

    /// Notes that the connection `token`, where it was lost, was set up again, or that
    /// this failed once more.
    pub fn resumed(&mut self, token: usize, connected: bool)
        requires
            old(self).wf(),
        ensures
            final(self).wf(),
            final(self)@ == if token < old(self)@.connections.len() && old(
                self,
            )@.connections[token as int].state == ConnState::Reconnecting && connected {
                old(self)@.with_connection(
                    token as int,
                    (ConnView {
                        state: ConnState::Connecting,
                        ..old(self)@.connections[token as int]
                    }),
                )
            } else {
                old(self)@
            },
            token < old(self)@.connections.len() ==> final(self)@ == old(self)@.with_connection(
                token as int,
                old(self)@.connections[token as int].resumed(connected),
            ),
    {
        if token < self.connections.len() {
            resume_conn(&mut self.connections[token], connected);
            proof {
                let was = old(self)@.connections[token as int];
                let now = self@.connections[token as int];
                assert(self@ =~= old(self)@.with_connection(token as int, now));
                assert(old(self)@ =~= old(self)@.with_connection(token as int, was));
            }
        }
    }
}

/// What happens to a connection changes that connection and the counts, and no other
/// connection.
pub proof fn law_others_stay_as_they_are(
    worker: WorkerView,
    token: int,
    step: Step,
    conn: ConnView,
    other: int,
)
    requires
        0 <= token < worker.connections.len(),
        0 <= other < worker.connections.len(),
    ensures
        ({
            let after = worker.after(token, step);
            &&& after.connections.len() == worker.connections.len()
            &&& after.connections[token] == step.conn
            &&& other != token ==> after.connections[other] == worker.connections[other]
            &&& after.stats == step.stats
        }),
        ({
            let after = worker.with_connection(token, conn);
            &&& after.connections.len() == worker.connections.len()
            &&& after.connections[token] == conn
            &&& other != token ==> after.connections[other] == worker.connections[other]
            &&& after.stats == worker.stats
        }),
{
}

/// What can happen to a connection does not depend on the other connections.
pub proof fn law_connections_accept_for_themselves(
    worker: WorkerView,
    token: int,
    read: ReadEvent,
    write: WriteEvent,
    request_len: int,
    recording: bool,
)
    requires
        0 <= token,
    ensures
        worker.accepts_read(token, read, recording) <==> token >= worker.connections.len()
            || read_event_fits(worker.connections[token], worker.stats, read, recording),
        worker.accepts_write(token, write, request_len, recording) <==> token
            >= worker.connections.len() || write_event_fits(
            worker.connections[token],
            write,
            request_len,
        ) && write_event_counts(worker.stats, write, recording),
{
}

} // verus!
