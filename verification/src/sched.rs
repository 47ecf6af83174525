//! Sync scheduler decisions, and the fetch coordinator's fan-in.
//!
//! The scheduler itself is a pure state machine: the surrounding runtime
//! waits on the timer, the force signal and the in-flight fetch, and hands
//! each event to [`Scheduler::on_event`], which decides whether a fetch
//! starts and whether a finished batch is delivered. Force signals that
//! arrive while a fetch is in flight collapse into a single pending slot, so
//! a burst triggers one follow-up cycle, never one per signal.

use vstd::prelude::*;

use crate::domain::{Channel, ChannelView, clone_channel};

verus! {

/// Where the scheduler stands: between cycles, or with a fetch in flight.
#[derive(Clone, Copy, PartialEq, Eq, Structural, Debug)]
pub enum SchedPhase {
    Idle,
    Fetching,
}

/// One event the runtime can hand the scheduler.
#[derive(Clone, Copy, PartialEq, Eq, Structural, Debug)]
pub enum SchedEvent {
    /// The interval timer fired.
    Tick,
    /// A consumer asked for an immediate out-of-cycle fetch.
    Force,
    /// The in-flight fetch finished; `nonempty` says whether any source
    /// succeeded.
    FetchDone { nonempty: bool },
}

/// What the runtime must do after an event.
#[derive(Clone, Copy, PartialEq, Eq, Structural, Debug)]
pub struct SchedAction {
    /// Start one fetch cycle.
    pub start_fetch: bool,
    /// Deliver the finished batch to the consumer.
    pub deliver: bool,
}

/// The scheduler's whole state: its phase and the single pending-force slot.
#[derive(Clone, Copy, PartialEq, Eq, Structural, Debug)]
pub struct Scheduler {
    pub phase: SchedPhase,
    pub pending_force: bool,
}

/// The pending-force slot is only ever set while a fetch is in flight.
pub open spec fn sched_wf(s: Scheduler) -> bool {
    s.phase is Idle ==> !s.pending_force
}

/// The transition function: next state and required action for one event.
pub open spec fn sched_step(s: Scheduler, ev: SchedEvent) -> (Scheduler, SchedAction) {
    match ev {
        SchedEvent::Tick => {
            if s.phase is Idle {
                (
                    Scheduler { phase: SchedPhase::Fetching, pending_force: false },
                    SchedAction { start_fetch: true, deliver: false },
                )
            } else {
                // a tick during a fetch is skipped, never queued
                (s, SchedAction { start_fetch: false, deliver: false })
            }
        },
        SchedEvent::Force => {
            if s.phase is Idle {
                (
                    Scheduler { phase: SchedPhase::Fetching, pending_force: false },
                    SchedAction { start_fetch: true, deliver: false },
                )
            } else {
                // latest-wins slot: a burst collapses to one pending run
                (
                    Scheduler { phase: SchedPhase::Fetching, pending_force: true },
                    SchedAction { start_fetch: false, deliver: false },
                )
            }
        },
        SchedEvent::FetchDone { nonempty } => {
            if s.pending_force {
                (
                    Scheduler { phase: SchedPhase::Fetching, pending_force: false },
                    SchedAction { start_fetch: true, deliver: nonempty },
                )
            } else {
                (
                    Scheduler { phase: SchedPhase::Idle, pending_force: false },
                    SchedAction { start_fetch: false, deliver: nonempty },
                )
            }
        },
    }
}

impl Scheduler {
    /// A fresh scheduler, waiting between cycles.
    pub fn new() -> (s: Scheduler)
        ensures
            sched_wf(s),
            s.phase is Idle,
            !s.pending_force,
    {
        Scheduler { phase: SchedPhase::Idle, pending_force: false }
    }

    /// Feeds one event through the transition function. An empty batch is
    /// never delivered, and a fetch only starts on an idle tick or force, or
    /// as the single coalesced follow-up of forces received in flight.
    pub fn on_event(&mut self, ev: SchedEvent) -> (a: SchedAction)
        requires
            sched_wf(*old(self)),
            ev is FetchDone ==> old(self).phase is Fetching,
        ensures
            sched_wf(*final(self)),
            (*final(self), a) == sched_step(*old(self), ev),
            a.deliver ==> ev == (SchedEvent::FetchDone { nonempty: true }),
    {
        match ev {
            SchedEvent::Tick => {
                if matches!(self.phase, SchedPhase::Idle) {
                    self.phase = SchedPhase::Fetching;
                    self.pending_force = false;
                    SchedAction { start_fetch: true, deliver: false }
                } else {
                    SchedAction { start_fetch: false, deliver: false }
                }
            },
            SchedEvent::Force => {
                if matches!(self.phase, SchedPhase::Idle) {
                    self.phase = SchedPhase::Fetching;
                    self.pending_force = false;
                    SchedAction { start_fetch: true, deliver: false }
                } else {
                    self.pending_force = true;
                    SchedAction { start_fetch: false, deliver: false }
                }
            },
            SchedEvent::FetchDone { nonempty } => {
                if self.pending_force {
                    self.pending_force = false;
                    self.phase = SchedPhase::Fetching;
                    SchedAction { start_fetch: true, deliver: nonempty }
                } else {
                    self.phase = SchedPhase::Idle;
                    SchedAction { start_fetch: false, deliver: nonempty }
                }
            },
        }
    }
}

/// Law: a batch is delivered only when a fetch completed with at least one
/// successfully fetched channel — an all-failed cycle is never delivered.
pub proof fn lemma_empty_batch_never_delivered(s: Scheduler, ev: SchedEvent)
    ensures
        sched_step(s, ev).1.deliver ==> ev == (SchedEvent::FetchDone { nonempty: true }),
{
}

/// The state after `n` force signals arrive, one after another.
pub open spec fn after_forces(s: Scheduler, n: nat) -> Scheduler
    decreases n,
{
    if n == 0 {
        s
    } else {
        sched_step(after_forces(s, (n - 1) as nat), SchedEvent::Force).0
    }
}

/// Law: a burst of force signals during one in-flight fetch coalesces. No
/// signal of the burst starts a fetch by itself; the burst leaves the same
/// state a single signal leaves; when the in-flight fetch completes exactly
/// one follow-up fetch starts; and when that one completes without further
/// forces, no third fetch starts.
pub proof fn lemma_force_burst_coalesces(s: Scheduler, n: nat, done1: bool, done2: bool)
    requires
        s.phase is Fetching,
        n >= 1,
    ensures
        forall|k: nat|
            k < n ==> !sched_step(after_forces(s, k), SchedEvent::Force).1.start_fetch,
        after_forces(s, n) == after_forces(s, 1),
        sched_step(after_forces(s, n), SchedEvent::FetchDone { nonempty: done1 }).1.start_fetch,
        !sched_step(
            sched_step(after_forces(s, n), SchedEvent::FetchDone { nonempty: done1 }).0,
            SchedEvent::FetchDone { nonempty: done2 },
        ).1.start_fetch,
    decreases n,
{
    assert forall|k: nat| (#[trigger] after_forces(s, k)).phase is Fetching by {
        lemma_forces_stay_fetching(s, k);
    }
    if n > 1 {
        lemma_force_burst_coalesces(s, (n - 1) as nat, done1, done2);
        assert(after_forces(s, (n - 1) as nat) == after_forces(s, 1));
    }
}

/// While a fetch is in flight, force signals keep the scheduler in flight.
pub proof fn lemma_forces_stay_fetching(s: Scheduler, n: nat)
    requires
        s.phase is Fetching,
    ensures
        after_forces(s, n).phase is Fetching,
        n >= 1 ==> after_forces(s, n).pending_force,
    decreases n,
{
    if n > 0 {
        lemma_forces_stay_fetching(s, (n - 1) as nat);
    }
}

/// The channels of the per-source outcomes that succeeded, in source order.
pub open spec fn successes(s: Seq<Option<ChannelView>>) -> Seq<ChannelView>
    decreases s.len(),
{
    if s.len() == 0 {
        Seq::empty()
    } else {
        let rest = successes(s.drop_last());
        match s.last() {
            Some(c) => rest.push(c),
            None => rest,
        }
    }
}

/// Fans one fetch cycle's per-source outcomes back in: failed sources are
/// dropped, the successfully fetched channels make the batch. An all-failed
/// cycle yields the empty batch.
pub fn collect_batch(results: &Vec<Option<Channel>>) -> (r: Vec<Channel>)
    ensures
        r.deep_view() == successes(results.deep_view()),
{
    let ghost rv = results.deep_view();
    let n = results.len();
    let mut out: Vec<Channel> = Vec::new();
    let mut i: usize = 0;
    proof {
        assert(out.deep_view() =~= successes(rv.take(0)));
    }
    while i < n
        invariant
            i <= n,
            n == results.len(),
            rv == results.deep_view(),
            out.deep_view() == successes(rv.take(i as int)),
        decreases n - i,
    {
        proof {
            assert(rv.take(i as int + 1).drop_last() =~= rv.take(i as int));
            assert(rv.take(i as int + 1).last() == rv[i as int]);
        }
        match &results[i] {
            Some(c) => {
                let ghost pre = out.deep_view();
                out.push(clone_channel(c));
                proof {
                    assert(rv[i as int] == Some(c@));
                    assert(out.deep_view() =~= pre.push(c@));
                }
            },
            None => {
                proof {
                    assert(rv[i as int] is None);
                }
            },
        }
        i = i + 1;
    }
    proof {
        assert(rv.take(n as int) =~= rv);
    }
    out
}

} // verus!
