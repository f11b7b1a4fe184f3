//! Shared per-tick resources threaded through the system pipeline.

use vstd::prelude::*;
use crate::fix::Vec2;

verus! {

/// Simulated time advanced by one fixed step, in milliseconds.
#[derive(Clone, Debug)]
pub struct Time {
    pub elapsed_millis: u32,
}

/// Interpolation factor in thousandths, in the closed-open interval
/// [0, 1000), with zero at the previous position and 1000 at the current
/// position.
#[derive(Clone, Copy, Debug)]
pub struct Subframe(pub u32);

/// One sampled input snapshot. Stick vectors are in milli-units, with 1000
/// as a fully deflected axis.
#[derive(Clone, Debug)]
pub struct Input {
    pub move_: Vec2,
    pub aim: Vec2,
    pub fire: bool,
    pub dpad_up: bool,
    pub dpad_down: bool,
    pub confirm: bool,
    pub start: bool,
}

/// Both stick vectors of the snapshot are representable.
pub open spec fn input_ok(i: Input) -> bool {
    crate::fix::v2_ok(i.move_) && crate::fix::v2_ok(i.aim)
}

/// Diagnostic counters for the collision pass. They carry no correctness
/// semantics and are reset wholesale at the start of each pass.
#[derive(Clone, Debug)]
pub struct CollideCounters {
    pub hitboxes: u64,
    pub hurtboxes: u64,
    pub dbvt_inserts: u64,
    pub dbvt_updates: u64,
    pub dbvt_removes: u64,
    pub dbvt_queries: u64,
    pub dbvt_hits: u64,
    pub mask_hits: u64,
    pub mask_misses: u64,
    pub narrow_hits: u64,
    pub narrow_misses: u64,
}

impl CollideCounters {
    /// All counters are zero.
    pub open spec fn is_zeroed(self) -> bool {
        &&& self.hitboxes == 0
        &&& self.hurtboxes == 0
        &&& self.dbvt_inserts == 0
        &&& self.dbvt_updates == 0
        &&& self.dbvt_removes == 0
        &&& self.dbvt_queries == 0
        &&& self.dbvt_hits == 0
        &&& self.mask_hits == 0
        &&& self.mask_misses == 0
        &&& self.narrow_hits == 0
        &&& self.narrow_misses == 0
    }
}

impl Default for CollideCounters {
    fn default() -> (c: CollideCounters)
        ensures
            c.is_zeroed(),
    {
        CollideCounters {
            hitboxes: 0,
            hurtboxes: 0,
            dbvt_inserts: 0,
            dbvt_updates: 0,
            dbvt_removes: 0,
            dbvt_queries: 0,
            dbvt_hits: 0,
            mask_hits: 0,
            mask_misses: 0,
            narrow_hits: 0,
            narrow_misses: 0,
        }
    }
}

/// Saturating increment for a diagnostic counter.
pub fn bump(c: u64) -> (r: u64)
    ensures
        r == if c < u64::MAX { c + 1 } else { c as int },
{
    if c < u64::MAX {
        c + 1
    } else {
        c
    }
}

/// An out-of-band event for the collaborating GUI to consume.
#[derive(Clone, Debug)]
pub enum GuiOverride {
    StationDocked,
}

/// A queue of GUI override events, filled during a step and drained by the
/// collaborator afterwards.
#[derive(Debug)]
pub struct GuiOverrideQueue {
    queue: Vec<GuiOverride>,
}

impl GuiOverrideQueue {
    /// The queued events, oldest first.
    pub closed spec fn view(self) -> Seq<GuiOverride> {
        self.queue@
    }

    /// An empty queue.
    pub fn new() -> (q: GuiOverrideQueue)
        ensures
            q@ == Seq::<GuiOverride>::empty(),
    {
        GuiOverrideQueue { queue: Vec::new() }
    }

    /// Append an event at the back.
    pub fn push_back(&mut self, gui_override: GuiOverride)
        ensures
            final(self)@ == old(self)@.push(gui_override),
    {
        self.queue.push(gui_override);
    }

    /// Take every queued event, oldest first, leaving the queue empty.
    pub fn drain(&mut self) -> (r: Vec<GuiOverride>)
        ensures
            r@ == old(self)@,
            final(self)@ == Seq::<GuiOverride>::empty(),
    {
        let mut r: Vec<GuiOverride> = Vec::new();
        core::mem::swap(&mut r, &mut self.queue);
        r
    }
}

impl Default for GuiOverrideQueue {
    fn default() -> (q: GuiOverrideQueue)
        ensures
            q@ == Seq::<GuiOverride>::empty(),
    {
        GuiOverrideQueue::new()
    }
}

} // verus!
