//! One enumeration pass as a state machine: the registry's advertisements are
//! collected in order of arrival until the synchronization barrier resolves,
//! and the pass then ends in a report or in a protocol error.
use vstd::prelude::*;
use crate::normalize::{normalize, normalized};
use crate::record::{models, GlobalRecord};
use crate::snapshot::{assemble, Snapshot};

verus! {

/// An event delivered on the registry object.
pub enum RegistryEvent {
    /// The server offers `interface` at `version`, under the numeric `name`.
    Global { name: u32, interface: String, version: u32 },
    /// The global with numeric `name` is gone.
    GlobalRemove { name: u32 },
}

/// How the synchronization barrier ended.
#[derive(Clone, Copy, Debug, PartialEq, Eq, Structural)]
pub enum BarrierEvent {
    /// The server acknowledged every request sent before the marker.
    Acknowledged,
    /// The channel closed, a message was malformed, or reading failed.
    ChannelFailed,
}

/// Where a pass stands.
#[derive(Clone, Copy, Debug, PartialEq, Eq, Structural)]
pub enum Phase {
    Collecting,
    Synced,
    Failed,
}

/// The channel failed before the barrier resolved.
#[derive(Clone, Copy, Debug, PartialEq, Eq, Structural)]
pub struct ProtocolError;

/// The name and version that an event advertises, if it advertises one.
pub open spec fn advertised(event: RegistryEvent) -> Option<(Seq<char>, u32)> {
    match event {
        RegistryEvent::Global { interface, version, .. } => Some((interface@, version)),
        RegistryEvent::GlobalRemove { .. } => None,
    }
}

/// The phase that a barrier event leads to from `phase`.
pub open spec fn next_phase(phase: Phase, event: BarrierEvent) -> Phase {
    match phase {
        Phase::Collecting => match event {
            BarrierEvent::Acknowledged => Phase::Synced,
            BarrierEvent::ChannelFailed => Phase::Failed,
        },
        _ => phase,
    }
}

/// The state of one pass: its start time, the records collected so far in
/// order of arrival, and its phase.
pub struct Enumeration {
    pub generation_timestamp: u64,
    pub globals: Vec<GlobalRecord>,
    pub phase: Phase,
}

impl Enumeration {
    /// A pass that began at `generation_timestamp` and has collected nothing.
    pub fn new(generation_timestamp: u64) -> (r: Enumeration)
        ensures
            r.generation_timestamp == generation_timestamp,
            r.globals@.len() == 0,
            r.phase == Phase::Collecting,
    {
        Enumeration { generation_timestamp, globals: Vec::new(), phase: Phase::Collecting }
    }

    /// Records an advertisement while the pass collects; anything else
    /// leaves the state as it is.
    pub fn on_registry_event(&mut self, event: RegistryEvent)
        ensures
            final(self).generation_timestamp == old(self).generation_timestamp,
            final(self).phase == old(self).phase,
            models(final(self).globals@) == (match advertised(event) {
                Some(g) if old(self).phase == Phase::Collecting => models(old(self).globals@).push(g),
                _ => models(old(self).globals@),
            }),
    {
        let ghost before = models(self.globals@);
        match event {
            RegistryEvent::Global { interface, version, .. } => {
                if self.phase == Phase::Collecting {
                    self.globals.push(GlobalRecord::new(interface, version));
                    assert(models(self.globals@) =~= before.push((interface@, version)));
                }
            },
            RegistryEvent::GlobalRemove { .. } => {},
        }
    }

    /// Takes the outcome of the synchronization barrier.
    pub fn on_barrier(&mut self, event: BarrierEvent)
        ensures
            final(self).generation_timestamp == old(self).generation_timestamp,
            final(self).globals@ == old(self).globals@,
            final(self).phase == next_phase(old(self).phase, event),
    {
        if self.phase == Phase::Collecting {
            self.phase = match event {
                BarrierEvent::Acknowledged => Phase::Synced,
                BarrierEvent::ChannelFailed => Phase::Failed,
            };
        }
    }

    /// The report of a pass whose barrier resolved; a protocol error for a
    /// pass whose channel failed or whose barrier never resolved.
    pub fn finish(self, dedup: bool) -> (r: Result<Snapshot, ProtocolError>)
        ensures
            r is Ok <==> self.phase == Phase::Synced,
            r matches Ok(s) ==> s.generation_timestamp == self.generation_timestamp
                && models(s.globals@) == normalized(models(self.globals@), dedup),
    {
        if self.phase == Phase::Synced {
            let globals = normalize(&self.globals, dedup);
            Ok(assemble(self.generation_timestamp, globals))
        } else {
            Err(ProtocolError)
        }
    }
}

} // verus!
