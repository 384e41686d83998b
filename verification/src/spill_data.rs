//! What the spill stage of the register allocator works on.
use crate::ranges::{LiveRangeKey, RangeMap};
use crate::regs::{MachineEnv, PReg, RegClass};
use std::collections::HashMap;
use vstd::prelude::*;

verus! {

/// A set of values that are spilled together, by number.
#[derive(Clone, Copy, Debug, PartialEq, Eq, Structural)]
pub struct SpillSetIndex {
    pub id: u32,
}

/// A slot that spill sets are assigned to, by number.
#[derive(Clone, Copy, Debug, PartialEq, Eq, Structural)]
pub struct SpillSlotIndex {
    pub id: u32,
}

/// A bundle of live ranges, by number.
#[derive(Clone, Copy, Debug, PartialEq, Eq, Structural)]
pub struct LiveBundleIndex {
    pub id: u32,
}

/// A live range, by number.
#[derive(Clone, Copy, Debug, PartialEq, Eq, Structural)]
pub struct LiveRangeIndex {
    pub id: u32,
}

/// The number that stands for no spill set.
pub const NO_INDEX: u32 = 0xffff_ffff;

/// The largest number of a slot in the frame.
pub const MAX_SPILLSLOT: u32 = 0xff_ffff;

/// A place in memory: a slot that the allocator lays out in the frame, or one that the
/// embedder has fixed.
#[derive(Clone, Copy, Debug, PartialEq, Eq, Structural)]
pub enum SpillSlot {
    Frame(u32),
    Fixed(u32),
}

/// Where a value lives.
#[derive(Clone, Copy, Debug, PartialEq, Eq, Structural)]
pub enum Allocation {
    Unassigned,
    Reg(PReg),
    Stack(SpillSlot),
}

impl Allocation {
    pub fn is_none(self) -> (r: bool)
        ensures
            r == (self is Unassigned),
    {
        matches!(self, Allocation::Unassigned)
    }
}

/// Values that are spilled together.
#[derive(Clone, Copy, Debug)]
pub struct SpillSet {
    /// The slot that the set is assigned to.
    pub slot: SpillSlotIndex,
    /// The register that the values would like best.
    pub hint: PReg,
    pub class: RegClass,
    /// Some value of the set has to live in memory.
    pub required: bool,
    /// The points at which a value of the set is live, from the first to the last.
    pub range: LiveRangeKey,
    /// The home that the embedder has chosen.
    pub fixed_slot: Option<SpillSlot>,
}

/// A live range of a bundle.
#[derive(Clone, Copy, Debug, PartialEq, Eq, Structural)]
pub struct LiveRangeListEntry {
    pub range: LiveRangeKey,
    pub index: LiveRangeIndex,
}

/// Live ranges that get the same location.
pub struct LiveBundle {
    pub ranges: Vec<LiveRangeListEntry>,
    /// The set that the bundle is spilled with, if it has one.
    pub spillset: SpillSetIndex,
    pub allocation: Allocation,
    /// The registers that the bundle can have are those with an encoding below this.
    pub limit: Option<u8>,
}

/// The register that a live range belongs to.
#[derive(Clone, Copy, Debug)]
pub struct LiveRange {
    pub vreg: u32,
}

/// The live ranges that a register is taken for.
pub struct PRegData {
    pub allocations: RangeMap<LiveRangeIndex>,
}

/// A slot for spill sets whose ranges do not overlap.
pub struct SpillSlotData {
    pub ranges: RangeMap<SpillSetIndex>,
    /// How many words of the frame the slot takes.
    pub slots: u32,
    pub alloc: Allocation,
}

/// The slots of a register class, and the one to try first.
pub struct SpillSlotList {
    pub slots: Vec<SpillSlotIndex>,
    pub probe_start: usize,
}

impl SpillSlotList {
    /// The next place in the list, in a circle.
    pub(crate) fn next_index(&self, index: usize) -> (r: usize)
        requires
            index < self.slots@.len(),
        ensures
            r == next_in(self.slots@.len(), index as int),
            r < self.slots@.len(),
    {
        if index == self.slots.len() - 1 {
            0
        } else {
            index + 1
        }
    }
}

/// The next place in a list of length `n`, in a circle.
pub open spec fn next_in(n: nat, i: int) -> int {
    if i == n - 1 {
        0
    } else {
        i + 1
    }
}

/// Figures of the spill stage.
#[derive(Clone, Copy, Debug)]
pub struct Stats {
    /// Bundles that a register was looked for.
    pub spill_bundle_reg_probes: usize,
    /// Bundles that a register was found for.
    pub spill_bundle_reg_success: usize,
}

/// What the allocator reports.
pub struct Output {
    /// The size of the frame, in words.
    pub num_spillslots: usize,
    pub stats: Stats,
}

/// The state of the allocator.
pub struct Ctx {
    pub ranges: Vec<LiveRange>,
    pub bundles: Vec<LiveBundle>,
    pub spillsets: Vec<SpillSet>,
    /// By register number.
    pub pregs: Vec<PRegData>,
    /// The bundles that got no register so far.
    pub spilled_bundles: Vec<LiveBundleIndex>,
    pub spillslots: Vec<SpillSlotData>,
    /// By register class.
    pub slots_by_class: [SpillSlotList; 3],
    /// The slot of each home that the embedder has fixed.
    pub fixed_spillslot_map: HashMap<u32, SpillSlotIndex>,
    pub output: Output,
    /// Empty maps for reuse.
    pub scratch_spillset_pool: Vec<RangeMap<SpillSetIndex>>,
}

/// What the allocator asks of the function that it works on.
pub trait Function {
    /// How many words a spilled value of a class takes.
    spec fn words(&self, class: RegClass) -> nat;

    /// A slot of several words goes by the number of the last of them.
    spec fn by_last(&self) -> bool;

    fn spillslot_size(&self, regclass: RegClass) -> (r: usize)
        ensures
            r == self.words(regclass),
    ;

    fn multi_spillslot_named_by_last_slot(&self) -> (r: bool)
        ensures
            r == self.by_last(),
    ;
}

/// A function whose spilled values take a fixed number of words by class.
#[derive(Clone, Copy, Debug)]
pub struct SlotSizes {
    pub int: usize,
    pub float: usize,
    pub vector: usize,
    pub named_by_last: bool,
}

impl Function for SlotSizes {
    open spec fn words(&self, class: RegClass) -> nat {
        match class {
            RegClass::Int => self.int as nat,
            RegClass::Float => self.float as nat,
            RegClass::Vector => self.vector as nat,
        }
    }

    open spec fn by_last(&self) -> bool {
        self.named_by_last
    }

    fn spillslot_size(&self, regclass: RegClass) -> (r: usize) {
        match regclass {
            RegClass::Int => self.int,
            RegClass::Float => self.float,
            RegClass::Vector => self.vector,
        }
    }

    fn multi_spillslot_named_by_last_slot(&self) -> (r: bool) {
        self.named_by_last
    }
}

/// The allocator at work.
pub struct Env<'a, F: Function> {
    pub func: &'a F,
    pub env: &'a MachineEnv,
    pub ctx: Ctx,
}

} // verus!
