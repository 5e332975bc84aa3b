//! The life of the broadcast loop, as the registry drives it.
//!
//! A loop is started by the registration that makes the registry hold exactly
//! one observer, and a loop ends with the broadcast after which the registry
//! holds none. This module states, over every sequence of events, what that
//! protocol guarantees about the number of loops alive.

use vstd::prelude::*;
use crate::registry::{lemma_prune_wf, stays, Membership};

verus! {

/// Something that happens to a registry.
pub enum Event {
    /// An observer registers.
    Register,
    /// The observer with this identifier disconnects.
    Disconnect(u64),
    /// A loop completes a broadcast in which the sends to these observers
    /// failed.
    Broadcast(Seq<u64>),
}

/// A registry's membership together with the number of broadcast loops alive.
pub struct System {
    pub members: Membership,
    pub loops: nat,
}

impl System {
    /// A new registry, and no loop.
    pub open spec fn initial() -> System {
        System { members: Membership::empty(), loops: 0 }
    }

    /// Whether the membership is well formed.
    pub open spec fn wf(self) -> bool {
        self.members.wf()
    }

    /// The system after one event. A registration starts a loop exactly if it
    /// leaves one observer registered; a broadcast, which only a loop can
    /// make, ends that loop exactly if it leaves no observer registered.
    pub open spec fn step(self, event: Event) -> System {
        match event {
            Event::Register => {
                if self.members.can_register() {
                    let members = self.members.register();
                    System {
                        members,
                        loops: if members.peers.len() == 1 {
                            self.loops + 1
                        } else {
                            self.loops
                        },
                    }
                } else {
                    self
                }
            },
            Event::Disconnect(peer) => System {
                members: self.members.disconnect(peer),
                loops: self.loops,
            },
            Event::Broadcast(failed) => {
                if self.loops == 0 {
                    self
                } else {
                    let members = self.members.prune(failed);
                    System {
                        members,
                        loops: if members.occupied() {
                            self.loops
                        } else {
                            (self.loops - 1) as nat
                        },
                    }
                }
            },
        }
    }

    /// The system after a sequence of events.
    pub open spec fn run(self, events: Seq<Event>) -> System
        decreases events.len(),
    {
        if events.len() == 0 {
            self
        } else {
            self.run(events.drop_last()).step(events.last())
        }
    }

    /// Whether at most one loop is alive, and one is alive while an observer
    /// is registered.
    pub open spec fn served(self) -> bool {
        self.loops <= 1 && (self.members.occupied() ==> self.loops == 1)
    }

    /// Whether a loop is alive exactly while an observer is registered, and
    /// then only one.
    pub open spec fn in_step(self) -> bool {
        self.loops == if self.members.occupied() {
            1nat
        } else {
            0nat
        }
    }

    /// Whether a registration would find the registry empty with a loop still
    /// alive: a disconnect has emptied the registry, and the loop has not
    /// completed a broadcast since.
    pub open spec fn overtaken_by(self, event: Event) -> bool {
        event is Register && self.members.can_register() && !self.members.occupied() && self.loops
            > 0
    }

    /// Whether a disconnect would take the last observer out of the registry.
    pub open spec fn emptied_by(self, event: Event) -> bool {
        event is Disconnect && self.members.occupied() && !self.step(event).members.occupied()
    }
}

/// Whether no registration in a sequence of events, run from `start`, finds
/// the registry empty with a loop still alive.
pub open spec fn orderly(start: System, events: Seq<Event>) -> bool {
    forall|k: int|
        0 <= k < events.len() ==> !(#[trigger] start.run(events.take(k))).overtaken_by(events[k])
}

/// Whether no disconnect in a sequence of events, run from `start`, takes the
/// last observer out of the registry.
pub open spec fn without_last_disconnect(start: System, events: Seq<Event>) -> bool {
    forall|k: int|
        0 <= k < events.len() ==> !(#[trigger] start.run(events.take(k))).emptied_by(events[k])
}

/// One event keeps a well-formed membership well formed.
pub proof fn lemma_step_wf(system: System, event: Event)
    requires
        system.wf(),
    ensures
        system.step(event).wf(),
{
    match event {
        Event::Register => {},
        Event::Disconnect(peer) => {
            lemma_prune_wf(system.members, seq![peer]);
        },
        Event::Broadcast(failed) => {
            lemma_prune_wf(system.members, failed);
        },
    }
}

/// The loop starts at the first registration and only there: a registration
/// into an empty registry without a loop leaves exactly one loop alive, and a
/// registration into an occupied registry starts none.
pub proof fn lemma_registration_starts_one_loop(system: System)
    requires
        system.members.can_register(),
    ensures
        !system.members.occupied() ==> system.step(Event::Register).loops == system.loops + 1,
        system.members.occupied() ==> system.step(Event::Register).loops == system.loops,
        system.step(Event::Register).members.occupied(),
{
}

/// The loop stops exactly when its broadcast leaves no observer: a broadcast
/// ends the loop that made it if the registry is empty afterwards, and
/// otherwise leaves the number of loops as it is.
pub proof fn lemma_broadcast_stops_loop_when_empty(system: System, failed: Seq<u64>)
    requires
        system.loops > 0,
    ensures
        !system.step(Event::Broadcast(failed)).members.occupied() ==> system.step(
            Event::Broadcast(failed),
        ).loops == system.loops - 1,
        system.step(Event::Broadcast(failed)).members.occupied() ==> system.step(
            Event::Broadcast(failed),
        ).loops == system.loops,
{
}

/// After an orderly sequence of events at most one loop is alive, and one is
/// alive if an observer is registered.
proof fn lemma_served_after(start: System, events: Seq<Event>)
    requires
        start.wf(),
        start.served(),
        orderly(start, events),
    ensures
        start.run(events).served(),
        start.run(events).wf(),
    decreases events.len(),
{
    if events.len() > 0 {
        let earlier = events.drop_last();
        lemma_orderly_prefix(start, events, events.len() - 1);
        lemma_served_after(start, earlier);
        let before = start.run(earlier);
        lemma_step_wf(before, events.last());
        if let Event::Disconnect(peer) = events.last() {
            // Removing an observer leaves no more observers than there were.
            before.members.peers.lemma_filter_len(stays(seq![peer]));
        }
    }
}

/// The beginning of an orderly sequence of events is orderly.
proof fn lemma_orderly_prefix(start: System, events: Seq<Event>, n: int)
    requires
        orderly(start, events),
        0 <= n <= events.len(),
    ensures
        orderly(start, events.take(n)),
{
    assert forall|k: int| 0 <= k < n implies !(#[trigger] start.run(
        events.take(n).take(k),
    )).overtaken_by(events.take(n)[k]) by {
        assert(events.take(n).take(k) =~= events.take(k));
    }
}

/// Along every sequence of registrations, disconnects and broadcasts in which
/// no registration finds the registry empty with a loop still alive, there is
/// at no time more than one loop, and there is one at every time at which an
/// observer is registered. This holds from a new registry, and from every
/// state in which it holds.
pub proof fn lemma_single_loop(start: System, events: Seq<Event>)
    requires
        start.wf(),
        start.served(),
        orderly(start, events),
    ensures
        forall|n: int| 0 <= n <= events.len() ==> (#[trigger] start.run(events.take(n))).served(),
{
    assert forall|n: int| 0 <= n <= events.len() implies (#[trigger] start.run(
        events.take(n),
    )).served() by {
        lemma_orderly_prefix(start, events, n);
        lemma_served_after(start, events.take(n));
    }
}

/// A registration that finds the registry empty with a loop still alive starts
/// a second loop: sequences that are not orderly are those on which the
/// single loop is lost.
pub proof fn lemma_overtaking_starts_second_loop(start: System, events: Seq<Event>, k: int)
    requires
        0 <= k < events.len(),
        start.run(events.take(k)).overtaken_by(events[k]),
    ensures
        start.run(events.take(k + 1)).loops >= 2,
        !start.run(events.take(k + 1)).served(),
{
    assert(events.take(k + 1).drop_last() =~= events.take(k));
}

/// After a sequence of events in which no disconnect takes the last observer
/// away, a loop is alive exactly if an observer is registered.
proof fn lemma_in_step_after(start: System, events: Seq<Event>)
    requires
        start.wf(),
        start.in_step(),
        without_last_disconnect(start, events),
    ensures
        start.run(events).in_step(),
        start.run(events).wf(),
    decreases events.len(),
{
    if events.len() > 0 {
        let earlier = events.drop_last();
        lemma_without_last_disconnect_prefix(start, events, events.len() - 1);
        lemma_in_step_after(start, earlier);
        let before = start.run(earlier);
        lemma_step_wf(before, events.last());
        if let Event::Disconnect(peer) = events.last() {
            // Removing an observer leaves no more observers than there were.
            before.members.peers.lemma_filter_len(stays(seq![peer]));
        }
    }
}

/// The beginning of a sequence of events in which no disconnect takes the last
/// observer away is such a sequence.
proof fn lemma_without_last_disconnect_prefix(start: System, events: Seq<Event>, n: int)
    requires
        without_last_disconnect(start, events),
        0 <= n <= events.len(),
    ensures
        without_last_disconnect(start, events.take(n)),
{
    assert forall|k: int| 0 <= k < n implies !(#[trigger] start.run(
        events.take(n).take(k),
    )).emptied_by(events.take(n)[k]) by {
        assert(events.take(n).take(k) =~= events.take(k));
    }
}

/// Along every sequence of registrations, disconnects and broadcasts in which
/// no disconnect takes the last observer away, a loop is alive exactly while
/// an observer is registered, and then only one: the first registration
/// starts it, the broadcast that leaves the registry empty ends it, and the
/// next registration starts the next. This holds from a new registry, and
/// from every state in which it holds.
pub proof fn lemma_loop_follows_occupancy(start: System, events: Seq<Event>)
    requires
        start.wf(),
        start.in_step(),
        without_last_disconnect(start, events),
    ensures
        forall|n: int| 0 <= n <= events.len() ==> (#[trigger] start.run(events.take(n))).in_step(),
{
    assert forall|n: int| 0 <= n <= events.len() implies (#[trigger] start.run(
        events.take(n),
    )).in_step() by {
        lemma_without_last_disconnect_prefix(start, events, n);
        lemma_in_step_after(start, events.take(n));
    }
}

/// A disconnect that takes the last observer away leaves a loop alive over an
/// empty registry, until the loop's next broadcast.
pub proof fn lemma_last_disconnect_leaves_loop(start: System, events: Seq<Event>, k: int)
    requires
        0 <= k < events.len(),
        start.run(events.take(k)).in_step(),
        start.run(events.take(k)).emptied_by(events[k]),
    ensures
        !start.run(events.take(k + 1)).in_step(),
        start.run(events.take(k + 1)).loops == 1,
        !start.run(events.take(k + 1)).members.occupied(),
{
    assert(events.take(k + 1).drop_last() =~= events.take(k));
}

/// A new registry without a loop is a state from which both guarantees hold.
pub proof fn lemma_initial_in_step()
    ensures
        System::initial().wf(),
        System::initial().in_step(),
        System::initial().served(),
{
}

} // verus!
