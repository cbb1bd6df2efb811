//! Decision logic of the connection engine.
//!
//! The engine splits a duplex stream into an exclusively owned read half and
//! write half, runs a background write loop and a foreground read loop, and
//! sequences their shutdown. The stream itself, the suspension points and the
//! delegate reactions are the host's; everything the loops decide — which id
//! a frame gets, what is persisted before dispatch, what is reported on an
//! envelope's result channel, when a loop terminates — is a pure step
//! function here, so the host's loops are a thin shell: race or await, feed
//! the outcome in as an event, perform the returned action.

use vstd::prelude::*;

use crate::error::Error;
use crate::fdstore::{SockMessage, SockMessageView};
use crate::proto::WireMessage;

verus! {

/// Produces one cooperating reader/writer delegate pair sharing whatever
/// application state they need; invoked once per connection.
pub trait Builder {
    type Reader;

    type Writer;

    /// One reader delegate and one writer delegate over shared state.
    fn build(&mut self) -> (Self::Reader, Self::Writer);
}

/// Consumer-supplied behaviour of the write side: it feeds the write loop
/// and reacts to a failed send and to its source being exhausted.
pub trait WriterDelegate {
    /// The next outbound frame; `None` ends the write loop.
    fn recv(&mut self) -> Option<WireMessage>;

    /// Reaction to a failed send of `msg` (typically: make the read side
    /// shut down).
    fn disconnect(&self, msg: &WireMessage, e: Error);

    /// Reaction to the source being exhausted.
    fn exit(&self);
}

/// What the write loop does with one envelope once the send attempt on the
/// owned write half has its outcome: report exactly once, and raise the
/// writer delegate's disconnect reaction exactly on failure.
pub struct WriteDecision {
    /// The one outcome to send on the envelope's result channel.
    pub report: Result<(), Error>,
    /// The error to hand to the writer delegate's disconnect reaction, if
    /// the send failed.
    pub disconnect: Option<Error>,
}

/// Decides the write loop's reaction to one send outcome. Every envelope
/// dequeued gets exactly one report — the outcome of its own send — and the
/// disconnect reaction fires exactly on failure, with the same error.
pub fn write_step(outcome: Result<(), Error>) -> (d: WriteDecision)
    ensures
        d.report == outcome,
        match outcome {
            Ok(_) => d.disconnect.is_none(),
            Err(e) => d.disconnect == Some(e),
        },
{
    match outcome {
        Ok(u) => WriteDecision { report: Ok(u), disconnect: None },
        Err(e) => WriteDecision { report: Err(e), disconnect: Some(e) },
    }
}

/// The errors among `outcomes`, in order.
pub open spec fn failures_of(outcomes: Seq<Result<(), Error>>) -> Seq<Error>
    decreases outcomes.len(),
{
    if outcomes.len() == 0 {
        Seq::empty()
    } else {
        let rest = failures_of(outcomes.drop_last());
        match outcomes.last() {
            Ok(_) => rest,
            Err(e) => rest.push(e),
        }
    }
}

/// Everything one write-loop run reports and raises.
pub struct WriteLog {
    /// The outcome sent on each envelope's result channel, envelope order.
    pub reports: Vec<Result<(), Error>>,
    /// The error handed to the writer delegate's disconnect reaction for
    /// each failed send, in order.
    pub disconnects: Vec<Error>,
}

/// One whole write-loop run, given the outcome of each envelope's send in
/// order (the source was exhausted after the last; the exit reaction
/// follows). Each envelope receives exactly one result report — its own
/// send's outcome — never zero, never two; the disconnect reaction is raised
/// once per failure.
pub fn run_write_loop(outcomes: &Vec<Result<(), Error>>) -> (log: WriteLog)
    ensures
        log.reports@ == outcomes@,
        log.disconnects@ == failures_of(outcomes@),
{
    let mut reports: Vec<Result<(), Error>> = Vec::new();
    let mut disconnects: Vec<Error> = Vec::new();
    let mut i: usize = 0;
    while i < outcomes.len()
        invariant
            i <= outcomes@.len(),
            reports@ == outcomes@.take(i as int),
            disconnects@ == failures_of(outcomes@.take(i as int)),
        decreases outcomes@.len() - i,
    {
        let d = write_step(outcomes[i]);
        reports.push(d.report);
        match d.disconnect {
            Some(e) => disconnects.push(e),
            None => {},
        }
        i += 1;
        proof {
            assert(outcomes@.take(i as int).drop_last() =~= outcomes@.take(i as int - 1));
            assert(outcomes@.take(i as int).last() == outcomes@[i as int - 1]);
            assert(reports@ =~= outcomes@.take(i as int));
        }
    }
    proof {
        assert(outcomes@.take(outcomes@.len() as int) =~= outcomes@);
    }
    WriteLog { reports, disconnects }
}

/// What the read loop races on: a decoded frame, a failed decode, or the
/// reader delegate's shutdown wait resolving first.
pub enum ReadEvent {
    Frame(WireMessage),
    ReadError(Error),
    Shutdown,
}

/// What the host must do after one step of the read loop. On either
/// terminating action the reader delegate's exit reaction follows, exactly
/// once per run, because a terminated loop takes no further step.
pub enum ReadAction {
    /// Persist the frame in the message store under the given id, then hand
    /// it to the reader delegate's `handle_msg` — replay mode only, and
    /// persisting comes first, so a crash between the two leaves the record
    /// for replay.
    PersistThenDeliver(u64, WireMessage),
    /// Hand the frame to `handle_msg` under the given id, nothing persisted.
    Deliver(u64, WireMessage),
    /// Hand the error and the write task's handle to the reader delegate's
    /// disconnect reaction, then stop.
    Disconnect(Error),
    /// Stop quietly: the external shutdown was requested.
    Stop,
}

/// The read loop's state: whether frames are persisted before dispatch, the
/// id the next fresh frame gets, and whether the loop still runs.
pub struct ReadLoopState {
    /// Replay mode: each fresh frame is persisted before dispatch.
    pub persist: bool,
    /// Id assigned to the next fresh frame (replay mode).
    pub next_id: u64,
    /// False once a terminating event was taken.
    pub running: bool,
}

impl ReadLoopState {
    /// The state of a plain run: nothing persisted, every frame dispatched
    /// under id 0.
    pub fn plain() -> (s: Self)
        ensures
            s == (ReadLoopState { persist: false, next_id: 0, running: true }),
    {
        ReadLoopState { persist: false, next_id: 0, running: true }
    }

    /// The state of a replay-integrated run, after replay handed the stored
    /// records out: fresh frames are persisted and numbered from `next_id`.
    pub fn with_store(next_id: u64) -> (s: Self)
        ensures
            s == (ReadLoopState { persist: true, next_id, running: true }),
    {
        ReadLoopState { persist: true, next_id, running: true }
    }

    /// Decides the read loop's reaction to one raced event. Ids assigned to
    /// fresh frames are strictly increasing; a decode failure turns into the
    /// disconnect reaction; a resolved shutdown stops the loop quietly; no
    /// event is taken once the loop stopped.
    pub fn read_step(&mut self, event: ReadEvent) -> (a: ReadAction)
        requires
            old(self).running,
            old(self).next_id < u64::MAX,
        ensures
            final(self).persist == old(self).persist,
            match event {
                ReadEvent::Frame(m) => {
                    &&& final(self).running
                    &&& if old(self).persist {
                        &&& a == ReadAction::PersistThenDeliver(old(self).next_id, m)
                        &&& final(self).next_id == old(self).next_id + 1
                    } else {
                        &&& a == ReadAction::Deliver(0u64, m)
                        &&& final(self).next_id == old(self).next_id
                    }
                },
                ReadEvent::ReadError(e) => {
                    &&& a == ReadAction::Disconnect(e)
                    &&& !final(self).running
                    &&& final(self).next_id == old(self).next_id
                },
                ReadEvent::Shutdown => {
                    &&& a == ReadAction::Stop
                    &&& !final(self).running
                    &&& final(self).next_id == old(self).next_id
                },
            },
    {
        match event {
            ReadEvent::Frame(m) => {
                if self.persist {
                    let id = self.next_id;
                    self.next_id = self.next_id + 1;
                    ReadAction::PersistThenDeliver(id, m)
                } else {
                    ReadAction::Deliver(0u64, m)
                }
            },
            ReadEvent::ReadError(e) => {
                self.running = false;
                ReadAction::Disconnect(e)
            },
            ReadEvent::Shutdown => {
                self.running = false;
                ReadAction::Stop
            },
        }
    }
}

/// The id the loop assigns to the first fresh frame after replaying `rs`:
/// one past the largest replayed id, or 0 when nothing was replayed.
pub open spec fn next_id_after(rs: Seq<SockMessageView>) -> u64
    decreases rs.len(),
{
    if rs.len() == 0 {
        0u64
    } else {
        let p = next_id_after(rs.drop_last());
        if rs.last().id >= p {
            (rs.last().id + 1) as u64
        } else {
            p
        }
    }
}

/// The dispatches of a replay-integrated run's replay phase, plus where
/// fresh ids start.
pub struct ReplayPlan {
    /// `(id, frame)` to hand to `handle_msg`, in stored order, original ids.
    pub deliveries: Vec<(u64, WireMessage)>,
    /// The id the first freshly arriving frame gets.
    pub next_id: u64,
}

/// Plans the replay of previously persisted records: every stored record is
/// dispatched in stored order under its original id, and the next id to
/// assign exceeds every replayed id, so no id is reused across a restart.
pub fn replay_plan(records: &Vec<SockMessage>) -> (p: ReplayPlan)
    requires
        forall|i: int| 0 <= i < records@.len() ==> (#[trigger] records@[i])@.id < u64::MAX,
    ensures
        p.deliveries@.len() == records@.len(),
        forall|i: int|
            0 <= i < records@.len()
                ==> (#[trigger] p.deliveries@[i]).0 == records@[i]@.id
                    && p.deliveries@[i].1@ == records@[i]@.message,
        p.next_id == next_id_after(records@.map_values(|m: SockMessage| m@)),
        forall|i: int| 0 <= i < records@.len() ==> (#[trigger] records@[i])@.id < p.next_id,
        records@.len() == 0 ==> p.next_id == 0,
{
    let ghost views = records@.map_values(|m: SockMessage| m@);
    let mut deliveries: Vec<(u64, WireMessage)> = Vec::new();
    let mut next_id: u64 = 0;
    let mut i: usize = 0;
    while i < records.len()
        invariant
            i <= records@.len(),
            forall|t: int| 0 <= t < records@.len() ==> (#[trigger] records@[t])@.id < u64::MAX,
            views == records@.map_values(|m: SockMessage| m@),
            deliveries@.len() == i,
            forall|t: int|
                0 <= t < i
                    ==> (#[trigger] deliveries@[t]).0 == records@[t]@.id
                        && deliveries@[t].1@ == records@[t]@.message,
            next_id == next_id_after(views.take(i as int)),
            forall|t: int| 0 <= t < i ==> (#[trigger] records@[t])@.id < next_id,
        decreases records@.len() - i,
    {
        let m = &records[i];
        if m.id >= next_id {
            next_id = m.id + 1;
        }
        let frame = m.message.clone();
        deliveries.push((m.id, frame));
        i += 1;
        proof {
            assert(views.take(i as int).drop_last() =~= views.take(i as int - 1));
            assert(views.take(i as int).last() == views[i as int - 1]);
            assert(views[i as int - 1] == records@[i as int - 1]@);
        }
    }
    proof {
        assert(views.take(views.len() as int) =~= views);
    }
    ReplayPlan { deliveries, next_id }
}

} // verus!
