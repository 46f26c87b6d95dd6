use vstd::prelude::*;

use crate::config::Config;
use crate::tiles::WorkItem;

verus! {

/// Where the pool's driver stands.
#[derive(Clone, Copy, Debug, PartialEq, Eq, Structural)]
pub enum PoolPhase {
    /// Waiting for a free worker slot.
    AwaitSlot,
    /// Holding a free slot, waiting for the next tile.
    AwaitTile,
    /// The tile stream has ended; no worker is started any more.
    Stopped,
}

/// What the driver learns from its channels.
#[derive(Clone, Copy, Debug, PartialEq, Eq, Structural)]
pub enum PoolEvent {
    /// A slot token was received.
    SlotFree,
    /// A tile was received.
    Tile(WorkItem),
    /// The tile channel is closed and drained.
    TilesClosed,
    /// The slot channel is closed.
    SlotsClosed,
}

/// What the driver does next.
#[derive(Clone, Copy, Debug, PartialEq, Eq, Structural)]
pub enum PoolAction {
    /// Block until a slot token arrives.
    ReceiveSlot,
    /// Block until a tile arrives or the tile channel closes.
    ReceiveTile,
    /// Start a worker on the tile; it hands its slot back when done.
    Spawn(WorkItem),
    /// Leave the driver loop.
    Stop,
}

/// The driver of the worker pool: at most `capacity` workers run at once, since
/// a worker is started only on a slot token and there are `capacity` tokens.
#[derive(Clone, Copy, Debug, PartialEq, Eq, Structural)]
pub struct WorkerPool {
    pub capacity: usize,
    pub phase: PoolPhase,
}

/// The action the driver takes in a phase while no event is pending.
pub open spec fn pending_action(phase: PoolPhase) -> PoolAction {
    match phase {
        PoolPhase::AwaitSlot => PoolAction::ReceiveSlot,
        PoolPhase::AwaitTile => PoolAction::ReceiveTile,
        PoolPhase::Stopped => PoolAction::Stop,
    }
}

/// The next phase and action of the driver on an event. A slot leads to a
/// tile request; a tile held with a slot starts a worker; the end of either
/// channel stops the driver for good; an event that the phase does not wait
/// for changes nothing.
pub open spec fn transition(phase: PoolPhase, event: PoolEvent) -> (PoolPhase, PoolAction) {
    match (phase, event) {
        (PoolPhase::Stopped, _) => (PoolPhase::Stopped, PoolAction::Stop),
        (_, PoolEvent::SlotsClosed) => (PoolPhase::Stopped, PoolAction::Stop),
        (PoolPhase::AwaitSlot, PoolEvent::SlotFree) => (PoolPhase::AwaitTile, PoolAction::ReceiveTile),
        (PoolPhase::AwaitTile, PoolEvent::Tile(t)) => (PoolPhase::AwaitSlot, PoolAction::Spawn(t)),
        (PoolPhase::AwaitTile, PoolEvent::TilesClosed) => (PoolPhase::Stopped, PoolAction::Stop),
        _ => (phase, pending_action(phase)),
    }
}

impl WorkerPool {
    /// A driver for `config.num_threads` workers, waiting for its first slot.
    pub fn new(config: Config) -> (pool: WorkerPool)
        ensures
            pool.capacity == config.num_threads,
            pool.phase == PoolPhase::AwaitSlot,
    {
        WorkerPool { capacity: config.num_threads, phase: PoolPhase::AwaitSlot }
    }

    /// The number of slot tokens to put in the slot channel before the driver starts.
    pub fn initial_slots(&self) -> (n: usize)
        ensures
            n == self.capacity,
    {
        self.capacity
    }

    /// What the driver does now, before any further event.
    pub fn next_action(&self) -> (a: PoolAction)
        ensures
            a == pending_action(self.phase),
    {
        match self.phase {
            PoolPhase::AwaitSlot => PoolAction::ReceiveSlot,
            PoolPhase::AwaitTile => PoolAction::ReceiveTile,
            PoolPhase::Stopped => PoolAction::Stop,
        }
    }

    /// Takes in one event and says what to do next.
    pub fn step(&mut self, event: PoolEvent) -> (a: PoolAction)
        ensures
            (final(self).phase, a) == transition(old(self).phase, event),
            final(self).capacity == old(self).capacity,
    {
        let (phase, action) = match (self.phase, event) {
            (PoolPhase::Stopped, _) => (PoolPhase::Stopped, PoolAction::Stop),
            (_, PoolEvent::SlotsClosed) => (PoolPhase::Stopped, PoolAction::Stop),
            (PoolPhase::AwaitSlot, PoolEvent::SlotFree) => (
                PoolPhase::AwaitTile,
                PoolAction::ReceiveTile,
            ),
            (PoolPhase::AwaitTile, PoolEvent::Tile(t)) => (PoolPhase::AwaitSlot, PoolAction::Spawn(t)),
            (PoolPhase::AwaitTile, PoolEvent::TilesClosed) => (PoolPhase::Stopped, PoolAction::Stop),
            _ => (self.phase, self.next_action()),
        };
        self.phase = phase;
        action
    }
}

/// A worker is started only by a tile that arrives while the driver holds a
/// slot, and on that very tile; once stopped, the driver stays stopped.
pub proof fn lemma_spawn_needs_slot(phase: PoolPhase, event: PoolEvent, t: WorkItem)
    ensures
        transition(phase, event).1 == PoolAction::Spawn(t) ==> phase == PoolPhase::AwaitTile
            && event == PoolEvent::Tile(t) && transition(phase, event).0 == PoolPhase::AwaitSlot,
        phase == PoolPhase::Stopped ==> transition(phase, event) == (
            PoolPhase::Stopped,
            PoolAction::Stop,
        ),
{
}

} // verus!
