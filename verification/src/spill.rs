//! Spill slot allocation.
use crate::ranges::{hit, in_order, inserted, lemma_inserted, LiveRangeKey, RangeMap};
use crate::regs::RegClass;
use crate::spill_data::{
    next_in, Allocation, Ctx, Env, Function, Output, SpillSet, SpillSetIndex, SpillSlot,
    SpillSlotData, SpillSlotIndex, SpillSlotList, MAX_SPILLSLOT,
};
use vstd::arithmetic::power2::pow2;
use vstd::prelude::*;

verus! {

/// `n` is a power of two that fits in 32 bits.
pub open spec fn is_power_of_two(n: int) -> bool {
    exists|k: nat| k < 32 && n == #[trigger] pow2(k)
}

/// The next multiple of `size` from `n` on.
pub open spec fn align_up(n: int, size: int) -> int {
    (n + size - 1) / size * size
}

/// The number that a slot of `size` words goes by, in a frame that has `n` words so far.
pub open spec fn frame_slot(n: int, size: int, by_last: bool) -> int {
    if by_last {
        align_up(n, size) + size - 1
    } else {
        align_up(n, size)
    }
}

proof fn lemma_align(x: u32, size: u32)
    requires
        is_power_of_two(size as int),
    ensures
        size >= 1,
        x & !((size - 1) as u32) == x as int / size as int * size as int,
{
    let k = choose|k: nat| k < 32 && size == #[trigger] pow2(k);
    let s = k as u32;
    vstd::bits::lemma_u32_shr_is_div(x, s);
    vstd::arithmetic::power2::lemma_pow2_pos(k);
    vstd::arithmetic::power2::lemma_pow2_unfold(32);
    let q = x >> s;
    assert(q == x as int / size as int);
    assert(q * size <= x) by (nonlinear_arith)
        requires
            q == x as int / size as int,
            size >= 1,
    ;
    vstd::bits::lemma_u32_shl_is_mul(1u32, s);
    vstd::bits::lemma_u32_shl_is_mul(q, s);
    assert(size == 1u32 << s);
    assert(x & !(((1u32 << s) - 1) as u32) == (x >> s) << s) by (bit_vector)
        requires
            s < 32,
    ;
}

impl<'a, F: Function> Env<'a, F> {
    /// Takes the next free words of the frame, aligned to their number.
    pub fn allocate_spillslot(&mut self, size: u32) -> (r: Allocation)
        requires
            is_power_of_two(size as int),
            frame_slot(
                old(self).ctx.output.num_spillslots as int,
                size as int,
                old(self).func.by_last(),
            ) <= MAX_SPILLSLOT,
            align_up(old(self).ctx.output.num_spillslots as int, size as int) + size <= u32::MAX,
        ensures
            r == Allocation::Stack(
                SpillSlot::Frame(
                    frame_slot(
                        old(self).ctx.output.num_spillslots as int,
                        size as int,
                        old(self).func.by_last(),
                    ) as u32,
                ),
            ),
            *final(self) == (Env {
                ctx: Ctx {
                    output: Output {
                        num_spillslots: (align_up(
                            old(self).ctx.output.num_spillslots as int,
                            size as int,
                        ) + size) as usize,
                        ..old(self).ctx.output
                    },
                    ..old(self).ctx
                },
                ..*old(self)
            }),
    {
        let n: usize = self.ctx.output.num_spillslots;
        proof {
            lemma_align(0, size);
            assert(n <= align_up(n as int, size as int)) by (nonlinear_arith)
                requires
                    size >= 1,
                    align_up(n as int, size as int) == (n + size - 1) / (size as int) * size,
            ;
        }
        let mut offset: u32 = n as u32;
        proof {
            lemma_align((offset + size - 1) as u32, size);
        }
        offset = (offset + size - 1) & !(size - 1);
        let slot = if self.func.multi_spillslot_named_by_last_slot() {
            offset + size - 1
        } else {
            offset
        };
        offset += size;
        self.ctx.output.num_spillslots = offset as usize;
        Allocation::Stack(SpillSlot::Frame(slot))
    }
}

/// What decides where a spill set is put.
#[verifier::ext_equal]
pub struct SetView {
    pub class: RegClass,
    pub required: bool,
    pub range: LiveRangeKey,
    pub fixed_slot: Option<SpillSlot>,
}

/// The view of a slot.
#[verifier::ext_equal]
pub struct SlotView {
    pub ranges: Seq<(LiveRangeKey, SpillSetIndex)>,
    pub slots: u32,
    pub alloc: Allocation,
}

/// The view of a list of slots.
#[verifier::ext_equal]
pub struct ListView {
    pub slots: Seq<SpillSlotIndex>,
    pub probe_start: int,
}

/// Which slots there are, and which slot each spill set is assigned to.
#[verifier::ext_equal]
pub struct Placement {
    /// The slot of each spill set.
    pub homes: Seq<SpillSlotIndex>,
    pub slots: Seq<SlotView>,
    /// The slots of each register class.
    pub lists: Seq<ListView>,
    /// The slot of each fixed home.
    pub fixed: Map<u32, SpillSlotIndex>,
}

impl View for SpillSlotData {
    type V = SlotView;

    open spec fn view(&self) -> SlotView {
        SlotView { ranges: self.ranges@, slots: self.slots, alloc: self.alloc }
    }
}

impl View for SpillSlotList {
    type V = ListView;

    open spec fn view(&self) -> ListView {
        ListView { slots: self.slots@, probe_start: self.probe_start as int }
    }
}

impl SpillSet {
    pub open spec fn set(&self) -> SetView {
        SetView {
            class: self.class,
            required: self.required,
            range: self.range,
            fixed_slot: self.fixed_slot,
        }
    }
}

impl Ctx {
    /// What decides where the spill sets are put.
    pub open spec fn sets(&self) -> Seq<SetView> {
        Seq::new(self.spillsets@.len(), |i: int| self.spillsets@[i].set())
    }

    pub open spec fn placement(&self) -> Placement {
        Placement {
            homes: Seq::new(self.spillsets@.len(), |i: int| self.spillsets@[i].slot),
            slots: Seq::new(self.spillslots@.len(), |i: int| self.spillslots@[i]@),
            lists: Seq::new(3, |i: int| self.slots_by_class@[i]@),
            fixed: self.fixed_spillslot_map@,
        }
    }
}

impl Placement {
    /// No range in the slot `i` overlaps `range`.
    pub open spec fn fits(self, i: SpillSlotIndex, range: LiveRangeKey) -> bool {
        !hit(self.slots[i.id as int].ranges, range)
    }

    /// The spill set `k` is assigned to the slot `i`.
    pub open spec fn put(self, k: int, range: LiveRangeKey, i: SpillSlotIndex) -> Placement {
        let slot = self.slots[i.id as int];
        Placement {
            homes: self.homes.update(k, i),
            slots: self.slots.update(
                i.id as int,
                SlotView {
                    ranges: inserted(slot.ranges, range, SpillSetIndex { id: k as u32 }),
                    ..slot
                },
            ),
            ..self
        }
    }
}

impl<'a, F: Function> Env<'a, F> {
    /// Nothing but the placement changes from `self` to `to`.
    pub open spec fn same_but_placement(&self, to: &Env<'a, F>) -> bool {
        &&& self.func == to.func
        &&& self.env == to.env
        &&& self.ctx.ranges == to.ctx.ranges
        &&& self.ctx.bundles == to.ctx.bundles
        &&& self.ctx.spillsets@.len() == to.ctx.spillsets@.len()
        &&& self.ctx.sets() == to.ctx.sets()
        &&& self.ctx.pregs == to.ctx.pregs
        &&& self.ctx.spilled_bundles == to.ctx.spilled_bundles
        &&& self.ctx.output == to.ctx.output
        &&& forall|i: int|
            0 <= i < self.ctx.spillsets@.len() ==> (#[trigger] to.ctx.spillsets@[i]).hint
                == self.ctx.spillsets@[i].hint
    }

    /// Whether no range in a slot overlaps that of a spill set.
    pub fn spillslot_can_fit_spillset(
        &mut self,
        spillslot: SpillSlotIndex,
        spillset: SpillSetIndex,
    ) -> (r: bool)
        requires
            spillslot.id < old(self).ctx.spillslots@.len(),
            spillset.id < old(self).ctx.spillsets@.len(),
            old(self).ctx.spillslots@[spillslot.id as int].ranges.wf(),
            old(self).ctx.spillsets@[spillset.id as int].range.ok(),
        ensures
            r == old(self).ctx.placement().fits(
                spillslot,
                old(self).ctx.spillsets@[spillset.id as int].range,
            ),
            *final(self) == *old(self),
    {
        let range = self.ctx.spillsets[spillset.id as usize].range;
        !self.ctx.spillslots[spillslot.id as usize].ranges.contains_key(range)
    }

    /// Assigns a spill set to a slot that it fits in.
    pub fn allocate_spillset_to_spillslot(
        &mut self,
        spillset: SpillSetIndex,
        spillslot: SpillSlotIndex,
    )
        requires
            spillslot.id < old(self).ctx.spillslots@.len(),
            spillset.id < old(self).ctx.spillsets@.len(),
            old(self).ctx.spillslots@[spillslot.id as int].ranges.wf(),
            old(self).ctx.spillsets@[spillset.id as int].range.ok(),
            old(self).ctx.placement().fits(
                spillslot,
                old(self).ctx.spillsets@[spillset.id as int].range,
            ),
        ensures
            final(self).ctx.placement() == old(self).ctx.placement().put(
                spillset.id as int,
                old(self).ctx.spillsets@[spillset.id as int].range,
                spillslot,
            ),
            final(self).ctx.spillslots@[spillslot.id as int].ranges.wf(),
            old(self).same_but_placement(final(self)),
            final(self).ctx.scratch_spillset_pool == old(self).ctx.scratch_spillset_pool,
    {
        self.ctx.spillsets[spillset.id as usize].slot = spillslot;
        let range = self.ctx.spillsets[spillset.id as usize].range;
        self.ctx.spillslots[spillslot.id as usize].ranges.insert(range, spillset);
        proof {
            assert(self.ctx.placement() =~= old(self).ctx.placement().put(
                spillset.id as int,
                range,
                spillslot,
            ));
            assert(self.ctx.sets() =~= old(self).ctx.sets());
        }
    }
}

/// How many slots of a class are tried before a new one is made.
pub const MAX_ATTEMPTS: usize = 10;

impl Placement {
    /// One slot more.
    pub open spec fn with_slot(self, slot: SlotView) -> Placement {
        Placement { slots: self.slots.push(slot), ..self }
    }

    /// The number of the next slot.
    pub open spec fn next_slot(self) -> SpillSlotIndex {
        SpillSlotIndex { id: self.slots.len() as u32 }
    }

    /// The list of the class `c` is `list`.
    pub open spec fn with_list(self, c: int, list: ListView) -> Placement {
        Placement { lists: self.lists.update(c, list), ..self }
    }

    /// The slot of the fixed home `f`. One is made where the home is named for the first
    /// time.
    pub open spec fn home(self, f: u32) -> (Placement, SpillSlotIndex) {
        if self.fixed.contains_key(f) {
            (self, self.fixed[f])
        } else {
            let p = self.with_slot(
                SlotView {
                    ranges: Seq::empty(),
                    slots: 0,
                    alloc: Allocation::Stack(SpillSlot::Fixed(f)),
                },
            );
            (
                Placement { fixed: p.fixed.insert(f, self.next_slot()), ..p },
                self.next_slot(),
            )
        }
    }

    /// The first place in the list of the class `c` whose slot has room for `range`, among
    /// the `attempts` places from `i` on.
    pub open spec fn probe(self, c: int, range: LiveRangeKey, i: int, attempts: nat) -> Option<int>
        decreases attempts,
    {
        let slots = self.lists[c].slots;
        if attempts == 0 {
            None
        } else if self.fits(slots[i], range) {
            Some(i)
        } else {
            self.probe(c, range, next_in(slots.len(), i), (attempts - 1) as nat)
        }
    }

    /// The place in the list of the class `c` that is found for `range`: no place is
    /// tried twice.
    pub open spec fn found(self, c: int, range: LiveRangeKey) -> Option<int> {
        let list = self.lists[c];
        self.probe(
            c,
            range,
            list.probe_start,
            if list.slots.len() < MAX_ATTEMPTS {
                list.slots.len()
            } else {
                MAX_ATTEMPTS as nat
            },
        )
    }

    /// The spill set `k` is assigned to a slot of its class: to the one that is found, or
    /// to a new one. The search for the next spill set begins there.
    pub open spec fn auto(self, k: int, set: SetView, words: nat) -> Placement {
        let c = set.class.number();
        let list = self.lists[c];
        match self.found(c, set.range) {
            Some(i) => self.put(k, set.range, list.slots[i]).with_list(
                c,
                ListView { probe_start: i, ..list },
            ),
            None => {
                let p = self.with_slot(
                    SlotView {
                        ranges: Seq::empty(),
                        slots: words as u32,
                        alloc: Allocation::Unassigned,
                    },
                );
                let p = p.with_list(
                    c,
                    ListView {
                        slots: list.slots.push(self.next_slot()),
                        probe_start: list.slots.len() as int,
                    },
                );
                p.put(k, set.range, self.next_slot())
            },
        }
    }

    /// The fixed home that a spill set asks for. The number zero stands for none.
    pub open spec fn wish(set: SetView) -> Option<u32> {
        match set.fixed_slot {
            Some(SpillSlot::Fixed(f)) => if f == 0 {
                None
            } else {
                Some(f)
            },
            _ => None,
        }
    }

    /// The spill set asks for a fixed home and gets it.
    pub open spec fn granted(self, set: SetView) -> bool {
        &&& Placement::wish(set) is Some
        &&& self.home(Placement::wish(set)->0).0.fits(
            self.home(Placement::wish(set)->0).1,
            set.range,
        )
    }

    /// The spill set `k` is assigned to a slot if it needs one: to the fixed home that it
    /// asks for, unless its range overlaps that of another spill set there, else to a slot
    /// of its class.
    pub open spec fn place(self, k: int, set: SetView, words: nat) -> Placement {
        if !set.required {
            self
        } else if Placement::wish(set) is Some {
            let (p, i) = self.home(Placement::wish(set)->0);
            if p.fits(i, set.range) {
                p.put(k, set.range, i)
            } else {
                p.auto(k, set, words)
            }
        } else {
            self.auto(k, set, words)
        }
    }

    /// The first `n` spill sets are placed, one after the other.
    pub open spec fn place_all(
        self,
        sets: Seq<SetView>,
        words: spec_fn(RegClass) -> nat,
        n: nat,
    ) -> Placement
        decreases n,
    {
        if n == 0 {
            self
        } else {
            self.place_all(sets, words, (n - 1) as nat).place(
                n - 1,
                sets[n - 1],
                words(sets[n - 1].class),
            )
        }
    }

    /// How many of the first `n` spill sets get the fixed home that they ask for.
    pub open spec fn n_fixed(
        self,
        sets: Seq<SetView>,
        words: spec_fn(RegClass) -> nat,
        n: nat,
    ) -> nat
        decreases n,
    {
        if n == 0 {
            0
        } else {
            let set = sets[n - 1];
            self.n_fixed(sets, words, (n - 1) as nat) + if set.required && self.place_all(
                sets,
                words,
                (n - 1) as nat,
            ).granted(set) {
                1nat
            } else {
                0nat
            }
        }
    }

    /// The slots are in order, and the lists and fixed homes name slots that exist.
    pub open spec fn usable(self) -> bool {
        &&& self.lists.len() == 3
        &&& forall|i: int| 0 <= i < self.slots.len() ==> in_order((#[trigger] self.slots[i]).ranges)
        &&& forall|c: int, j: int|
            0 <= c < 3 && 0 <= j < (#[trigger] self.lists[c]).slots.len() ==> (
            #[trigger] self.lists[c].slots[j]).id < self.slots.len()
        &&& forall|c: int|
            0 <= c < 3 && (#[trigger] self.lists[c]).slots.len() > 0 ==> 0
                <= self.lists[c].probe_start < self.lists[c].slots.len()
        &&& forall|f: u32| #[trigger]
            self.fixed.contains_key(f) ==> self.fixed[f].id < self.slots.len()
    }
}

/// How many of the first `n` spill sets need a slot.
pub open spec fn n_required(sets: Seq<SetView>, n: nat) -> nat
    decreases n,
{
    if n == 0 {
        0
    } else {
        n_required(sets, (n - 1) as nat) + if sets[n - 1].required {
            1nat
        } else {
            0nat
        }
    }
}

/// A spill set has a range, and a home that it asks for is fixed.
pub open spec fn set_ok(set: SetView) -> bool {
    &&& set.range.ok()
    &&& set.fixed_slot is Some ==> set.fixed_slot->0 is Fixed
}

/// The spill sets that need a slot are in order.
pub open spec fn sets_ok(sets: Seq<SetView>) -> bool {
    forall|k: int| 0 <= k < sets.len() && (#[trigger] sets[k]).required ==> set_ok(sets[k])
}

/// How many spill sets needed a slot, and how many of them got a fixed home.
#[derive(Clone, Copy, Debug, PartialEq, Eq, Structural)]
pub struct SpillCounts {
    pub required: usize,
    pub fixed: usize,
}

/// What is left of a pool after something was taken from its end `n` times, as long as
/// there was something.
pub open spec fn pool_after<T>(pool: Seq<T>, n: int) -> Seq<T> {
    pool.take(
        if n < pool.len() {
            pool.len() - n
        } else {
            0
        },
    )
}

proof fn lemma_pool_kept<T>(pool: Seq<T>)
    ensures
        pool_after(pool, 0) == pool,
{
    assert(pool_after(pool, 0) =~= pool);
}

/// Taking from a pool in two rounds.
proof fn lemma_pool_after<T>(pool: Seq<T>, a: int, b: int)
    requires
        0 <= a,
        0 <= b,
    ensures
        pool_after(pool_after(pool, a), b) == pool_after(pool, a + b),
{
    assert(pool_after(pool_after(pool, a), b) =~= pool_after(pool, a + b));
}

impl<'a, F: Function> Env<'a, F> {
    /// How many words a value of a class takes.
    pub open spec fn words(&self) -> spec_fn(RegClass) -> nat {
        |c: RegClass| self.func.words(c)
    }

    /// The maps that are kept for reuse hold no ranges.
    pub open spec fn pool_clean(&self) -> bool {
        forall|i: int|
            0 <= i < self.ctx.scratch_spillset_pool@.len() ==> (
            #[trigger] self.ctx.scratch_spillset_pool@[i])@ == Seq::<
                (LiveRangeKey, SpillSetIndex),
            >::empty()
    }

    /// From `self` to `to`, each new slot took a map from the pool, if there was one.
    pub open spec fn pool_used(&self, to: &Env<'a, F>) -> bool {
        to.ctx.scratch_spillset_pool@ == pool_after(
            self.ctx.scratch_spillset_pool@,
            to.ctx.spillslots@.len() - self.ctx.spillslots@.len(),
        )
    }

    /// The spill set `k` can be placed.
    pub open spec fn can_place(&self, k: int) -> bool {
        &&& 0 <= k < self.ctx.spillsets@.len()
        &&& self.ctx.spillsets@.len() <= u32::MAX
        &&& self.ctx.spillsets@[k].required ==> {
            &&& set_ok(self.ctx.spillsets@[k].set())
            &&& self.func.words(self.ctx.spillsets@[k].class) <= u32::MAX
        }
        &&& self.ctx.placement().usable()
        &&& self.ctx.spillslots@.len() + 2 < u32::MAX
        &&& self.pool_clean()
    }

    /// A map without ranges: the last one of the pool, or a new one if the pool is empty.
    fn empty_ranges(&mut self) -> (r: RangeMap<SpillSetIndex>)
        requires
            old(self).pool_clean(),
        ensures
            r@ == Seq::<(LiveRangeKey, SpillSetIndex)>::empty(),
            *final(self) == (Env {
                ctx: Ctx {
                    scratch_spillset_pool: final(self).ctx.scratch_spillset_pool,
                    ..old(self).ctx
                },
                ..*old(self)
            }),
            old(self).ctx.scratch_spillset_pool@.len() > 0 ==> r
                == old(self).ctx.scratch_spillset_pool@.last(),
            final(self).ctx.scratch_spillset_pool@ == pool_after(
                old(self).ctx.scratch_spillset_pool@,
                1,
            ),
            final(self).pool_clean(),
    {
        let ghost pool = self.ctx.scratch_spillset_pool@;
        let r = match self.ctx.scratch_spillset_pool.pop() {
            Some(r) => r,
            None => RangeMap::new(),
        };
        assert(self.ctx.scratch_spillset_pool@ =~= pool_after(pool, 1));
        r
    }

    /// The slot of a fixed home.
    fn fixed_home(&mut self, k: usize, f: u32) -> (r: SpillSlotIndex)
        requires
            old(self).can_place(k as int),
        ensures
            (final(self).ctx.placement(), r) == old(self).ctx.placement().home(f),
            r.id < final(self).ctx.spillslots@.len(),
            final(self).ctx.spillslots@.len() <= old(self).ctx.spillslots@.len() + 1,
            final(self).ctx.placement().usable(),
            old(self).same_but_placement(final(self)),
            old(self).pool_used(final(self)),
            final(self).pool_clean(),
    {
        broadcast use vstd::std_specs::hash::group_hash_axioms;

        match self.ctx.fixed_spillslot_map.get(&f) {
            Some(i) => {
                assert(self.ctx.placement().fixed.contains_key(f));
                proof {
                    lemma_pool_kept(old(self).ctx.scratch_spillset_pool@);
                }
                return *i;
            },
            None => {},
        }
        let i = SpillSlotIndex { id: self.ctx.spillslots.len() as u32 };
        let ranges = self.empty_ranges();
        self.ctx.spillslots.push(
            SpillSlotData { ranges, slots: 0, alloc: Allocation::Stack(SpillSlot::Fixed(f)) },
        );
        self.ctx.fixed_spillslot_map.insert(f, i);
        proof {
            assert(self.ctx.placement() =~= old(self).ctx.placement().home(f).0);
            assert(self.ctx.sets() =~= old(self).ctx.sets());
            lemma_usable_home(old(self).ctx.placement(), f);
        }
        i
    }
}

proof fn lemma_usable_home(p: Placement, f: u32)
    requires
        p.usable(),
        p.slots.len() < u32::MAX,
    ensures
        p.home(f).0.usable(),
        p.home(f).1.id < p.home(f).0.slots.len(),
{
    let q = p.home(f).0;
    assert forall|i: int| 0 <= i < q.slots.len() implies in_order(
        (#[trigger] q.slots[i]).ranges,
    ) by {
        if i < p.slots.len() {
            assert(q.slots[i] == p.slots[i]);
        }
    }
}

proof fn lemma_usable_put(p: Placement, k: int, range: LiveRangeKey, i: SpillSlotIndex)
    requires
        p.usable(),
        i.id < p.slots.len(),
        range.ok(),
        p.fits(i, range),
    ensures
        p.put(k, range, i).usable(),
{
    let q = p.put(k, range, i);
    lemma_inserted(p.slots[i.id as int].ranges, range, SpillSetIndex { id: k as u32 });
    assert forall|j: int| 0 <= j < q.slots.len() implies in_order(
        (#[trigger] q.slots[j]).ranges,
    ) by {
        if j != i.id {
            assert(q.slots[j] == p.slots[j]);
        }
    }
}

proof fn lemma_usable_auto(p: Placement, k: int, set: SetView, words: nat)
    requires
        p.usable(),
        set.range.ok(),
        p.slots.len() < u32::MAX,
    ensures
        p.auto(k, set, words).usable(),
        p.slots.len() <= p.auto(k, set, words).slots.len() <= p.slots.len() + 1,
{
    let c = set.class.number();
    let list = p.lists[c];
    match p.found(c, set.range) {
        Some(i) => {
            lemma_probe(
                p,
                c,
                set.range,
                list.probe_start,
                if list.slots.len() < MAX_ATTEMPTS {
                    list.slots.len()
                } else {
                    MAX_ATTEMPTS as nat
                },
            );
            lemma_usable_put(p, k, set.range, list.slots[i]);
        },
        None => {
            let a = p.with_slot(
                SlotView {
                    ranges: Seq::empty(),
                    slots: words as u32,
                    alloc: Allocation::Unassigned,
                },
            );
            let b = a.with_list(
                c,
                ListView {
                    slots: list.slots.push(p.next_slot()),
                    probe_start: list.slots.len() as int,
                },
            );
            assert forall|j: int| 0 <= j < b.slots.len() implies in_order(
                (#[trigger] b.slots[j]).ranges,
            ) by {
                if j < p.slots.len() {
                    assert(b.slots[j] == p.slots[j]);
                }
            }
            assert forall|d: int, j: int|
                0 <= d < 3 && 0 <= j < (#[trigger] b.lists[d]).slots.len() implies (
            #[trigger] b.lists[d].slots[j]).id < b.slots.len() by {
                if d != c {
                    assert(b.lists[d] == p.lists[d]);
                    assert(p.lists[d].slots[j].id < p.slots.len());
                } else if j < list.slots.len() {
                    assert(p.lists[c].slots[j].id < p.slots.len());
                }
            }
            lemma_usable_put(b, k, set.range, p.next_slot());
        },
    }
}

/// What is found has room.
proof fn lemma_probe(p: Placement, c: int, range: LiveRangeKey, i: int, attempts: nat)
    requires
        p.usable(),
        0 <= c < 3,
        attempts > 0 ==> 0 <= i < p.lists[c].slots.len(),
    ensures
        p.probe(c, range, i, attempts) matches Some(j) ==> 0 <= j < p.lists[c].slots.len()
            && p.fits(p.lists[c].slots[j], range) && p.lists[c].slots[j].id < p.slots.len(),
    decreases attempts,
{
    if attempts > 0 {
        if p.fits(p.lists[c].slots[i], range) {
            assert(p.lists[c].slots[i].id < p.slots.len());
        } else {
            lemma_probe(
                p,
                c,
                range,
                next_in(p.lists[c].slots.len(), i),
                (attempts - 1) as nat,
            );
        }
    }
}

proof fn lemma_usable_place(p: Placement, k: int, set: SetView, words: nat)
    requires
        p.usable(),
        set.required ==> set.range.ok(),
        p.slots.len() + 1 < u32::MAX,
    ensures
        p.place(k, set, words).usable(),
        p.slots.len() <= p.place(k, set, words).slots.len() <= p.slots.len() + 2,
{
    if set.required {
        if Placement::wish(set) is Some {
            let f = Placement::wish(set)->0;
            lemma_usable_home(p, f);
            let (q, i) = p.home(f);
            if q.fits(i, set.range) {
                lemma_usable_put(q, k, set.range, i);
            } else {
                lemma_usable_auto(q, k, set, words);
            }
        } else {
            lemma_usable_auto(p, k, set, words);
        }
    }
}

impl<'a, F: Function> Env<'a, F> {
    /// Assigns a spill set to a slot of its class.
    fn auto_slot(&mut self, k: usize)
        requires
            old(self).can_place(k as int),
            old(self).ctx.spillsets@[k as int].required,
        ensures
            final(self).ctx.placement() == old(self).ctx.placement().auto(
                k as int,
                old(self).ctx.spillsets@[k as int].set(),
                old(self).func.words(old(self).ctx.spillsets@[k as int].class),
            ),
            old(self).same_but_placement(final(self)),
            old(self).pool_used(final(self)),
            final(self).pool_clean(),
    {
        let spillset = SpillSetIndex { id: k as u32 };
        let set = self.ctx.spillsets[k];
        let c = set.class.index();
        let ghost p = self.ctx.placement();
        let ghost list = p.lists[c as int];
        assert(list == self.ctx.slots_by_class@[c as int]@);
        let n: usize = self.ctx.slots_by_class[c].slots.len();
        let attempts: usize = if n < MAX_ATTEMPTS {
            n
        } else {
            MAX_ATTEMPTS
        };
        let mut i: usize = self.ctx.slots_by_class[c].probe_start;
        let mut left: usize = attempts;
        while left > 0
            invariant
                *self == *old(self),
                self.can_place(k as int),
                self.ctx.spillsets@[k as int].required,
                k < self.ctx.spillsets@.len(),
                spillset.id == k,
                set == self.ctx.spillsets@[k as int],
                p == self.ctx.placement(),
                c == set.class.number(),
                0 <= c < 3,
                list == p.lists[c as int],
                list == self.ctx.slots_by_class@[c as int]@,
                n == list.slots.len(),
                left > 0 ==> i < n,
                p.found(c as int, set.range) == p.probe(c as int, set.range, i as int, left as nat),
            decreases left,
        {
            let spillslot = self.ctx.slots_by_class[c].slots[i];
            assert(p.lists[c as int].slots[i as int].id < p.slots.len());
            assert(p.slots[spillslot.id as int] == self.ctx.spillslots@[spillslot.id as int]@);
            if self.spillslot_can_fit_spillset(spillslot, spillset) {
                self.allocate_spillset_to_spillslot(spillset, spillslot);
                let ghost put = self.ctx.placement();
                self.ctx.slots_by_class[c].probe_start = i;
                proof {
                    assert(self.ctx.placement() =~= put.with_list(
                        c as int,
                        ListView { probe_start: i as int, ..list },
                    ));
                    assert(self.ctx.sets() =~= old(self).ctx.sets());
                    assert(put.slots.len() == p.slots.len());
                    lemma_pool_kept(old(self).ctx.scratch_spillset_pool@);
                }
                return;
            }
            i = self.ctx.slots_by_class[c].next_index(i);
            left -= 1;
        }
        let spillslot = SpillSlotIndex { id: self.ctx.spillslots.len() as u32 };
        let ranges = self.empty_ranges();
        let slots: u32 = self.func.spillslot_size(set.class) as u32;
        self.ctx.spillslots.push(
            SpillSlotData { ranges, slots, alloc: Allocation::Unassigned },
        );
        self.ctx.slots_by_class[c].slots.push(spillslot);
        self.ctx.slots_by_class[c].probe_start = self.ctx.slots_by_class[c].slots.len() - 1;
        proof {
            let q = p.with_slot(
                SlotView { ranges: Seq::empty(), slots, alloc: Allocation::Unassigned },
            ).with_list(
                c as int,
                ListView {
                    slots: list.slots.push(p.next_slot()),
                    probe_start: list.slots.len() as int,
                },
            );
            assert(self.ctx.placement() =~= q);
            assert(self.ctx.sets() =~= old(self).ctx.sets());
        }
        self.allocate_spillset_to_spillslot(spillset, spillslot);
        assert(self.ctx.placement().slots.len() == p.slots.len() + 1);
    }

    /// Assigns a spill set to a slot if it needs one. Whether it got a fixed home.
    fn place_spillset(&mut self, k: usize) -> (r: bool)
        requires
            old(self).can_place(k as int),
        ensures
            final(self).ctx.placement() == old(self).ctx.placement().place(
                k as int,
                old(self).ctx.spillsets@[k as int].set(),
                old(self).func.words(old(self).ctx.spillsets@[k as int].class),
            ),
            r == (old(self).ctx.spillsets@[k as int].required
                && old(self).ctx.placement().granted(old(self).ctx.spillsets@[k as int].set())),
            old(self).same_but_placement(final(self)),
            old(self).pool_used(final(self)),
            final(self).pool_clean(),
    {
        let set = self.ctx.spillsets[k];
        let ghost pool = self.ctx.scratch_spillset_pool@;
        let ghost start = self.ctx.spillslots@.len();
        proof {
            lemma_pool_kept(pool);
        }
        if !set.required {
            return false;
        }
        match set.fixed_slot {
            Some(SpillSlot::Fixed(f)) => {
                if f != 0 {
                    let i = self.fixed_home(k, f);
                    let spillset = SpillSetIndex { id: k as u32 };
                    assert(self.ctx.sets()[k as int] == old(self).ctx.sets()[k as int]);
                    assert(self.ctx.placement().slots[i.id as int]
                        == self.ctx.spillslots@[i.id as int]@);
                    if self.spillslot_can_fit_spillset(i, spillset) {
                        let ghost slots = self.ctx.placement().slots;
                        self.allocate_spillset_to_spillslot(spillset, i);
                        assert(self.ctx.placement().slots.len() == slots.len());
                        return true;
                    }
                }
            },
            _ => {},
        }
        assert(self.ctx.sets()[k as int] == old(self).ctx.sets()[k as int]);
        let ghost before = self.ctx.placement();
        self.auto_slot(k);
        proof {
            let made = before.slots.len() - start;
            let more = self.ctx.placement().slots.len() - before.slots.len();
            lemma_usable_auto(before, k as int, set.set(), self.func.words(set.class));
            lemma_pool_after(pool, made, more);
        }
        false
    }
}

/// Those of the first `n` slots that have no place yet get one in the frame, which has `num`
/// words so far: the slots then, and the number of words.
pub open spec fn laid_out(slots: Seq<SlotView>, num: int, by_last: bool, n: nat) -> (
    Seq<SlotView>,
    int,
)
    decreases n,
{
    if n == 0 {
        (slots, num)
    } else {
        let (s, num) = laid_out(slots, num, by_last, (n - 1) as nat);
        let slot = s[n - 1];
        if slot.alloc is Unassigned {
            let size = slot.slots as int;
            (
                s.update(
                    n - 1,
                    SlotView {
                        alloc: Allocation::Stack(
                            SpillSlot::Frame(frame_slot(num, size, by_last) as u32),
                        ),
                        ..slot
                    },
                ),
                align_up(num, size) + size,
            )
        } else {
            (s, num)
        }
    }
}

/// The sizes of the slots that have no place yet are powers of two, and the frame has room
/// for them.
pub open spec fn frame_fits(slots: Seq<SlotView>, num: int, by_last: bool) -> bool {
    forall|i: int|
        0 <= i < slots.len() && (#[trigger] slots[i]).alloc is Unassigned ==> {
            let n = laid_out(slots, num, by_last, i as nat).1;
            let size = slots[i].slots as int;
            &&& is_power_of_two(size)
            &&& frame_slot(n, size, by_last) <= MAX_SPILLSLOT
            &&& align_up(n, size) + size <= u32::MAX
        }
}

/// Slots behind the first `n` are as they were, and all keep their ranges.
pub proof fn lemma_laid_out_rest(slots: Seq<SlotView>, num: int, by_last: bool, n: nat)
    requires
        n <= slots.len(),
    ensures
        laid_out(slots, num, by_last, n).0.len() == slots.len(),
        forall|i: int|
            n <= i < slots.len() ==> #[trigger] laid_out(slots, num, by_last, n).0[i] == slots[i],
        forall|i: int|
            0 <= i < slots.len() ==> (#[trigger] laid_out(slots, num, by_last, n).0[i]).ranges
                == slots[i].ranges,
    decreases n,
{
    if n > 0 {
        lemma_laid_out_rest(slots, num, by_last, (n - 1) as nat);
    }
}

impl<'a, F: Function> Env<'a, F> {
    /// The spill slots can be allocated.
    pub open spec fn can_allocate_spillslots(&self) -> bool {
        let sets = self.ctx.sets();
        let p = self.ctx.placement();
        &&& sets.len() <= u32::MAX
        &&& p.usable()
        &&& p.slots.len() + 2 * sets.len() + 2 < u32::MAX
        &&& sets_ok(sets)
        &&& forall|k: int|
            0 <= k < sets.len() && (#[trigger] sets[k]).required ==> self.func.words(sets[k].class)
                <= u32::MAX
        &&& self.pool_clean()
        &&& frame_fits(
            p.place_all(sets, self.words(), sets.len()).slots,
            self.ctx.output.num_spillslots as int,
            self.func.by_last(),
        )
    }

    /// Assigns every spill set that needs one to a slot, then lays out in the frame the
    /// slots that have no place yet.
    pub fn allocate_spillslots(&mut self) -> (r: SpillCounts)
        requires
            old(self).can_allocate_spillslots(),
        ensures
            ({
                let sets = old(self).ctx.sets();
                let p = old(self).ctx.placement();
                let placed = p.place_all(sets, old(self).words(), sets.len());
                let (slots, num) = laid_out(
                    placed.slots,
                    old(self).ctx.output.num_spillslots as int,
                    old(self).func.by_last(),
                    placed.slots.len(),
                );
                &&& final(self).ctx.placement() == (Placement { slots, ..placed })
                &&& final(self).ctx.output.num_spillslots == num
                &&& r.required == n_required(sets, sets.len())
                &&& r.fixed == p.n_fixed(sets, old(self).words(), sets.len())
            }),
            final(self).ctx.output.stats == old(self).ctx.output.stats,
            final(self).ctx.sets() == old(self).ctx.sets(),
            final(self).ctx.bundles == old(self).ctx.bundles,
            final(self).ctx.pregs == old(self).ctx.pregs,
            final(self).ctx.ranges == old(self).ctx.ranges,
            final(self).ctx.spilled_bundles == old(self).ctx.spilled_bundles,
            final(self).func == old(self).func,
            final(self).env == old(self).env,
            forall|i: int|
                0 <= i < old(self).ctx.spillsets@.len() ==> (
                #[trigger] final(self).ctx.spillsets@[i]).hint == old(self).ctx.spillsets@[i].hint,
            final(self).ctx.placement().usable(),
            old(self).pool_used(final(self)),
            final(self).pool_clean(),
    {
        let ghost sets = self.ctx.sets();
        let ghost p = self.ctx.placement();
        let ghost words = self.words();
        let n: usize = self.ctx.spillsets.len();
        let mut required: usize = 0;
        let mut fixed: usize = 0;
        proof {
            lemma_pool_kept(self.ctx.scratch_spillset_pool@);
        }
        for k in 0..n
            invariant
                n == sets.len(),
                n <= u32::MAX,
                sets == old(self).ctx.sets(),
                p == old(self).ctx.placement(),
                words == old(self).words(),
                old(self).can_allocate_spillslots(),
                old(self).same_but_placement(self),
                self.ctx.placement() == p.place_all(sets, words, k as nat),
                self.ctx.placement().usable(),
                p.slots.len() <= self.ctx.spillslots@.len() <= p.slots.len() + 2 * k,
                required == n_required(sets, k as nat),
                fixed == p.n_fixed(sets, words, k as nat),
                fixed <= required <= k,
                old(self).pool_used(self),
                self.pool_clean(),
        {
            proof {
                assert(self.ctx.sets()[k as int] == sets[k as int]);
                assert(sets[k as int].required ==> set_ok(sets[k as int]));
                lemma_usable_place(
                    self.ctx.placement(),
                    k as int,
                    sets[k as int],
                    words(sets[k as int].class),
                );
            }
            let needed = self.ctx.spillsets[k].required;
            let ghost before = self.ctx.placement();
            if self.place_spillset(k) {
                fixed += 1;
            }
            if needed {
                required += 1;
            }
            assert(self.ctx.placement().slots.len() == self.ctx.spillslots@.len());
            proof {
                lemma_pool_after(
                    old(self).ctx.scratch_spillset_pool@,
                    before.slots.len() - p.slots.len(),
                    self.ctx.spillslots@.len() - before.slots.len(),
                );
            }
        }
        let ghost placed = self.ctx.placement();
        let ghost num = self.ctx.output.num_spillslots as int;
        let ghost by_last = self.func.by_last();
        let m: usize = self.ctx.spillslots.len();
        for i in 0..m
            invariant
                m == placed.slots.len(),
                m == self.ctx.spillslots@.len(),
                placed.usable(),
                by_last == self.func.by_last(),
                frame_fits(placed.slots, num, by_last),
                self.ctx.placement() == (Placement {
                    slots: laid_out(placed.slots, num, by_last, i as nat).0,
                    ..placed
                }),
                self.ctx.output.num_spillslots == laid_out(placed.slots, num, by_last, i as nat).1,
                self.ctx.output.stats == old(self).ctx.output.stats,
                self.ctx.sets() == sets,
                self.ctx.bundles == old(self).ctx.bundles,
                self.ctx.pregs == old(self).ctx.pregs,
                self.ctx.ranges == old(self).ctx.ranges,
                self.ctx.spilled_bundles == old(self).ctx.spilled_bundles,
                self.func == old(self).func,
                self.env == old(self).env,
                self.ctx.spillsets@.len() == old(self).ctx.spillsets@.len(),
                forall|i: int|
                    0 <= i < old(self).ctx.spillsets@.len() ==> (
                    #[trigger] self.ctx.spillsets@[i]).hint == old(self).ctx.spillsets@[i].hint,
                old(self).pool_used(self),
                self.pool_clean(),
        {
            let ghost before = *self;
            proof {
                lemma_laid_out_rest(placed.slots, num, by_last, i as nat);
                assert(self.ctx.placement().slots[i as int] == self.ctx.spillslots@[i as int]@);
                assert(placed.slots[i as int] == self.ctx.spillslots@[i as int]@);
            }
            if self.ctx.spillslots[i].alloc.is_none() {
                let size: u32 = self.ctx.spillslots[i].slots;
                let alloc = self.allocate_spillslot(size);
                self.ctx.spillslots[i].alloc = alloc;
                proof {
                    assert(self.ctx.placement() =~= Placement {
                        slots: laid_out(placed.slots, num, by_last, (i + 1) as nat).0,
                        ..placed
                    });
                    assert(self.ctx.sets() =~= before.ctx.sets());
                }
            }
        }
        proof {
            let slots = laid_out(placed.slots, num, by_last, m as nat).0;
            lemma_laid_out_rest(placed.slots, num, by_last, m as nat);
            assert forall|i: int| 0 <= i < slots.len() implies in_order(
                (#[trigger] slots[i]).ranges,
            ) by {
                assert(in_order(placed.slots[i].ranges));
            }
        }
        SpillCounts { required, fixed }
    }
}

} // verus!
