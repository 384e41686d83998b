//! What holds of every run of the spill stage.
use crate::ranges::{in_order, inserted, lemma_inserted, LiveRangeKey};
use crate::regs::RegClass;
use crate::spill::{
    align_up, frame_fits, frame_slot, is_power_of_two, laid_out, n_required, set_ok, sets_ok, ListView,
    Placement, SetView, SlotView, MAX_ATTEMPTS,
};
use crate::spill_data::{next_in, Allocation, SpillSetIndex, SpillSlot, SpillSlotIndex};
use vstd::prelude::*;

verus! {

impl Placement {
    /// Nothing is placed yet.
    pub open spec fn is_new(self) -> bool {
        &&& self.slots.len() == 0
        &&& self.lists.len() == 3
        &&& forall|c: int| 0 <= c < 3 ==> (#[trigger] self.lists[c]).slots.len() == 0
        &&& self.fixed == Map::<u32, SpillSlotIndex>::empty()
    }

    /// The spill set `k` has its range in a slot: in that of the fixed home that it asks
    /// for, or in one of its class.
    pub open spec fn settled(
        self,
        sets: Seq<SetView>,
        words: spec_fn(RegClass) -> nat,
        k: int,
    ) -> bool {
        let i = self.homes[k].id as int;
        let slot = self.slots[i];
        &&& i < self.slots.len()
        &&& slot.ranges.contains((sets[k].range, SpillSetIndex { id: k as u32 }))
        &&& match slot.alloc {
            Allocation::Stack(SpillSlot::Fixed(f)) => Placement::wish(sets[k]) == Some(f),
            Allocation::Unassigned => slot.slots == words(sets[k].class) as u32,
            _ => false,
        }
    }

    /// A slot has no place yet, or is that of a fixed home.
    pub open spec fn slot_known(self, i: int) -> bool {
        match self.slots[i].alloc {
            Allocation::Unassigned => true,
            Allocation::Stack(SpillSlot::Fixed(f)) => self.fixed.contains_key(f)
                && self.fixed[f].id == i,
            _ => false,
        }
    }

    /// What holds before and after each spill set is placed: the slots of a register class
    /// have its size and no place yet, and those of fixed homes have that place.
    pub open spec fn grounded(self, words: spec_fn(RegClass) -> nat) -> bool {
        &&& self.usable()
        &&& forall|i: int| 0 <= i < self.slots.len() ==> #[trigger] self.slot_known(i)
        &&& forall|c: int, j: int|
            #![trigger self.lists[c].slots[j]]
            0 <= c < 3 && 0 <= j < self.lists[c].slots.len() ==> {
                let slot = self.slots[self.lists[c].slots[j].id as int];
                &&& slot.alloc is Unassigned
                &&& forall|class: RegClass|
                    class.number() == c ==> slot.slots == #[trigger] words(class) as u32
            }
        &&& forall|f: u32| #[trigger]
            self.fixed.contains_key(f) ==> self.slots[self.fixed[f].id as int].alloc
                == Allocation::Stack(SpillSlot::Fixed(f))
    }

    /// What holds once the first `n` spill sets are placed.
    pub open spec fn in_step(self, sets: Seq<SetView>, words: spec_fn(RegClass) -> nat, n: nat) -> bool {
        &&& self.grounded(words)
        &&& self.homes.len() == sets.len()
        &&& forall|k: int|
            0 <= k < n && (#[trigger] sets[k]).required ==> self.settled(sets, words, k)
    }
}

/// Assigning the spill set `n` to a slot that has room for it.
proof fn lemma_in_step_put(
    p: Placement,
    sets: Seq<SetView>,
    words: spec_fn(RegClass) -> nat,
    n: nat,
    i: SpillSlotIndex,
)
    requires
        p.in_step(sets, words, n),
        n < sets.len(),
        sets.len() <= u32::MAX,
        sets[n as int].required,
        set_ok(sets[n as int]),
        i.id < p.slots.len(),
        p.fits(i, sets[n as int].range),
        match p.slots[i.id as int].alloc {
            Allocation::Stack(SpillSlot::Fixed(f)) => Placement::wish(sets[n as int]) == Some(f),
            Allocation::Unassigned => p.slots[i.id as int].slots == words(
                sets[n as int].class,
            ) as u32,
            _ => false,
        },
    ensures
        p.put(n as int, sets[n as int].range, i).in_step(sets, words, n + 1),
{
    let set = sets[n as int];
    let k = SpillSetIndex { id: n as u32 };
    let q = p.put(n as int, set.range, i);
    let old_ranges = p.slots[i.id as int].ranges;
    let new_ranges = inserted(old_ranges, set.range, k);
    lemma_inserted(old_ranges, set.range, k);
    assert(q.slots[i.id as int].ranges == new_ranges);
    assert forall|j: int| 0 <= j < q.slots.len() implies in_order(
        (#[trigger] q.slots[j]).ranges,
    ) by {
        if j != i.id {
            assert(q.slots[j] == p.slots[j]);
        }
    }
    assert forall|m: int|
        0 <= m < n + 1 && (#[trigger] sets[m]).required implies q.settled(sets, words, m) by {
        if m < n {
            assert(p.settled(sets, words, m));
            assert(q.homes[m] == p.homes[m]);
            let h = p.homes[m].id as int;
            let x = (sets[m].range, SpillSetIndex { id: m as u32 });
            if h == i.id {
                assert(new_ranges.contains(x));
            } else {
                assert(q.slots[h] == p.slots[h]);
            }
        } else {
            assert(new_ranges.contains((set.range, k)));
        }
    }
    assert forall|a: int| 0 <= a < q.slots.len() implies #[trigger] q.slot_known(a) by {
        assert(p.slot_known(a));
    }
    assert forall|c: int, j: int|
        #![trigger q.lists[c].slots[j]]
        0 <= c < 3 && 0 <= j < q.lists[c].slots.len() implies {
        let slot = q.slots[q.lists[c].slots[j].id as int];
        &&& slot.alloc is Unassigned
        &&& forall|class: RegClass|
            class.number() == c ==> slot.slots == #[trigger] words(class) as u32
    } by {
        assert(p.lists[c].slots[j] == q.lists[c].slots[j]);
    }
}

/// Making the slot of a fixed home.
proof fn lemma_in_step_home(
    p: Placement,
    sets: Seq<SetView>,
    words: spec_fn(RegClass) -> nat,
    n: nat,
    f: u32,
)
    requires
        p.in_step(sets, words, n),
        p.slots.len() < u32::MAX,
    ensures
        p.home(f).0.in_step(sets, words, n),
        p.home(f).1.id < p.home(f).0.slots.len(),
        p.home(f).0.slots[p.home(f).1.id as int].alloc == Allocation::Stack(SpillSlot::Fixed(f)),
{
    if !p.fixed.contains_key(f) {
        let q = p.home(f).0;
        assert(q.fixed.contains_key(f));
        lemma_in_step_more(
            p,
            sets,
            words,
            n,
            SlotView {
                ranges: Seq::empty(),
                slots: 0,
                alloc: Allocation::Stack(SpillSlot::Fixed(f)),
            },
            q,
        );
    }
}

/// One slot more that holds nothing.
proof fn lemma_in_step_more(
    p: Placement,
    sets: Seq<SetView>,
    words: spec_fn(RegClass) -> nat,
    n: nat,
    slot: SlotView,
    q: Placement,
)
    requires
        p.in_step(sets, words, n),
        p.slots.len() < u32::MAX,
        slot.ranges.len() == 0,
        q.homes == p.homes,
        q.slots == p.slots.push(slot),
        q.lists.len() == 3,
        q.lists == p.lists || slot.alloc is Unassigned && exists|class: RegClass|
            #![trigger class.number()]
            slot.slots == words(class) as u32 && q.lists == p.lists.update(
                class.number(),
                ListView {
                    slots: p.lists[class.number()].slots.push(p.next_slot()),
                    probe_start: p.lists[class.number()].slots.len() as int,
                },
            ),
        slot.alloc is Unassigned && q.fixed == p.fixed || exists|f: u32|
            #![trigger q.fixed.contains_key(f)]
            !p.fixed.contains_key(f) && slot.alloc == Allocation::Stack(SpillSlot::Fixed(f))
                && q.fixed == p.fixed.insert(f, p.next_slot()) && q.fixed.contains_key(f),
    ensures
        q.in_step(sets, words, n),
{
    let m = p.slots.len() as int;
    assert forall|i: int| 0 <= i < q.slots.len() implies in_order(
        (#[trigger] q.slots[i]).ranges,
    ) by {
        if i < m {
            assert(q.slots[i] == p.slots[i]);
        }
    }
    assert forall|k: int| 0 <= k < n && (#[trigger] sets[k]).required implies q.settled(
        sets,
        words,
        k,
    ) by {
        assert(p.settled(sets, words, k));
    }
    assert forall|i: int| 0 <= i < q.slots.len() implies #[trigger] q.slot_known(i) by {
        if i < m {
            assert(p.slot_known(i));
        }
    }
    assert forall|c: int, j: int|
        #![trigger q.lists[c].slots[j]]
        0 <= c < 3 && 0 <= j < q.lists[c].slots.len() implies {
        let s = q.slots[q.lists[c].slots[j].id as int];
        &&& s.alloc is Unassigned
        &&& forall|class: RegClass| class.number() == c ==> s.slots == #[trigger] words(class) as u32
    } by {
        if j < p.lists[c].slots.len() {
            assert(p.lists[c].slots[j] == q.lists[c].slots[j]);
            assert(p.lists[c].slots[j].id < p.slots.len());
        } else {
            let class = choose|class: RegClass|
                #![trigger class.number()]
                slot.slots == words(class) as u32 && q.lists == p.lists.update(
                    class.number(),
                    ListView {
                        slots: p.lists[class.number()].slots.push(p.next_slot()),
                        probe_start: p.lists[class.number()].slots.len() as int,
                    },
                );
            assert(c == class.number());
            assert(q.lists[c].slots[j].id == m);
            assert forall|d: RegClass| d.number() == c implies slot.slots == #[trigger] words(
                d,
            ) as u32 by {
                assert(d == class);
            }
        }
    }
    assert forall|c: int, j: int|
        0 <= c < 3 && 0 <= j < (#[trigger] q.lists[c]).slots.len() implies (
    #[trigger] q.lists[c].slots[j]).id < q.slots.len() by {
        if j < p.lists[c].slots.len() {
            assert(p.lists[c].slots[j] == q.lists[c].slots[j]);
            assert(p.lists[c].slots[j].id < p.slots.len());
        }
    }
    assert forall|c: int| 0 <= c < 3 && (#[trigger] q.lists[c]).slots.len() > 0 implies 0
        <= q.lists[c].probe_start < q.lists[c].slots.len() by {
        if q.lists[c] == p.lists[c] {
        }
    }
}

/// The places that are tried, one after the other.
pub proof fn lemma_probe_fits(p: Placement, c: int, range: LiveRangeKey, i: int, attempts: nat)
    requires
        0 <= c < 3,
        attempts > 0 ==> 0 <= i < p.lists[c].slots.len(),
    ensures
        p.probe(c, range, i, attempts) matches Some(j) ==> 0 <= j < p.lists[c].slots.len()
            && p.fits(p.lists[c].slots[j], range),
    decreases attempts,
{
    if attempts > 0 && !p.fits(p.lists[c].slots[i], range) {
        lemma_probe_fits(p, c, range, next_in(p.lists[c].slots.len(), i), (attempts - 1) as nat);
    }
}

/// Assigning the spill set `n` to a slot of its class.
proof fn lemma_in_step_auto(
    p: Placement,
    sets: Seq<SetView>,
    words: spec_fn(RegClass) -> nat,
    n: nat,
)
    requires
        p.in_step(sets, words, n),
        n < sets.len(),
        sets.len() <= u32::MAX,
        sets[n as int].required,
        set_ok(sets[n as int]),
        p.slots.len() < u32::MAX,
    ensures
        p.auto(n as int, sets[n as int], words(sets[n as int].class)).in_step(sets, words, n + 1),
        p.auto(n as int, sets[n as int], words(sets[n as int].class)).slots.len() <= p.slots.len()
            + 1,
{
    let set = sets[n as int];
    let c = set.class.number();
    let list = p.lists[c];
    let attempts = if list.slots.len() < MAX_ATTEMPTS {
        list.slots.len()
    } else {
        MAX_ATTEMPTS as nat
    };
    lemma_probe_fits(p, c, set.range, list.probe_start, attempts);
    match p.found(c, set.range) {
        Some(i) => {
            assert(p.lists[c].slots[i].id < p.slots.len());
            let q = p.put(n as int, set.range, list.slots[i]);
            lemma_in_step_put(p, sets, words, n, list.slots[i]);
            let r = q.with_list(c, ListView { probe_start: i, ..list });
            lemma_in_step_list(q, r, sets, words, n + 1, c);
        },
        None => {
            let slot = SlotView {
                ranges: Seq::empty(),
                slots: words(set.class) as u32,
                alloc: Allocation::Unassigned,
            };
            let q = p.with_slot(slot).with_list(
                c,
                ListView {
                    slots: list.slots.push(p.next_slot()),
                    probe_start: list.slots.len() as int,
                },
            );
            assert(set.class.number() == c);
            lemma_in_step_more(p, sets, words, n, slot, q);
            assert(q.slots[p.next_slot().id as int] == slot);
            lemma_in_step_put(q, sets, words, n, p.next_slot());
        },
    }
}

/// Another place of the list is tried first.
proof fn lemma_in_step_list(
    p: Placement,
    q: Placement,
    sets: Seq<SetView>,
    words: spec_fn(RegClass) -> nat,
    n: nat,
    c: int,
)
    requires
        p.in_step(sets, words, n),
        0 <= c < 3,
        q == p.with_list(c, q.lists[c]),
        q.lists[c].slots == p.lists[c].slots,
        0 <= q.lists[c].probe_start < q.lists[c].slots.len(),
    ensures
        q.in_step(sets, words, n),
{
    assert forall|d: int| 0 <= d < 3 implies (#[trigger] q.lists[d]).slots == p.lists[d].slots by {}
    assert forall|d: int, j: int|
        0 <= d < 3 && 0 <= j < (#[trigger] q.lists[d]).slots.len() implies (
    #[trigger] q.lists[d].slots[j]).id < q.slots.len() by {
        assert(p.lists[d].slots[j].id < p.slots.len());
    }
    assert forall|d: int| 0 <= d < 3 && (#[trigger] q.lists[d]).slots.len() > 0 implies 0
        <= q.lists[d].probe_start < q.lists[d].slots.len() by {
        if d != c {
            assert(q.lists[d] == p.lists[d]);
        }
    }
    assert forall|d: int, j: int|
        #![trigger q.lists[d].slots[j]]
        0 <= d < 3 && 0 <= j < q.lists[d].slots.len() implies {
        let s = q.slots[q.lists[d].slots[j].id as int];
        &&& s.alloc is Unassigned
        &&& forall|class: RegClass| class.number() == d ==> s.slots == #[trigger] words(class) as u32
    } by {
        assert(p.lists[d].slots[j] == q.lists[d].slots[j]);
    }
    assert forall|k: int| 0 <= k < n && (#[trigger] sets[k]).required implies q.settled(
        sets,
        words,
        k,
    ) by {
        assert(p.settled(sets, words, k));
    }
    assert forall|i: int| 0 <= i < q.slots.len() implies #[trigger] q.slot_known(i) by {
        assert(p.slot_known(i));
    }
}

proof fn lemma_in_step_place(
    p: Placement,
    sets: Seq<SetView>,
    words: spec_fn(RegClass) -> nat,
    n: nat,
)
    requires
        p.in_step(sets, words, n),
        n < sets.len(),
        sets.len() <= u32::MAX,
        sets[n as int].required ==> set_ok(sets[n as int]),
        p.slots.len() + 1 < u32::MAX,
    ensures
        p.place(n as int, sets[n as int], words(sets[n as int].class)).in_step(
            sets,
            words,
            n + 1,
        ),
        p.place(n as int, sets[n as int], words(sets[n as int].class)).slots.len()
            <= p.slots.len() + 2,
{
    let set = sets[n as int];
    if !set.required {
        assert forall|k: int| 0 <= k < n + 1 && (#[trigger] sets[k]).required implies p.settled(
            sets,
            words,
            k,
        ) by {
            assert(k < n);
        }
    } else if Placement::wish(set) is Some {
        let f = Placement::wish(set)->0;
        lemma_in_step_home(p, sets, words, n, f);
        let (q, i) = p.home(f);
        if q.fits(i, set.range) {
            lemma_in_step_put(q, sets, words, n, i);
        } else {
            lemma_in_step_auto(q, sets, words, n);
        }
    } else {
        lemma_in_step_auto(p, sets, words, n);
    }
}

pub proof fn lemma_in_step_all(
    p: Placement,
    sets: Seq<SetView>,
    words: spec_fn(RegClass) -> nat,
    n: nat,
)
    requires
        p.grounded(words),
        p.homes.len() == sets.len(),
        n <= sets.len(),
        p.slots.len() + 2 * sets.len() + 2 < u32::MAX,
        sets_ok(sets),
    ensures
        p.place_all(sets, words, n).in_step(sets, words, n),
        p.place_all(sets, words, n).slots.len() <= p.slots.len() + 2 * n,
    decreases n,
{
    if n > 0 {
        lemma_in_step_all(p, sets, words, (n - 1) as nat);
        assert(sets[n - 1].required ==> set_ok(sets[n - 1]));
        lemma_in_step_place(
            p.place_all(sets, words, (n - 1) as nat),
            sets,
            words,
            (n - 1) as nat,
        );
    }
}

/// A placement in which nothing is placed yet is grounded.
pub proof fn new_placements_are_grounded(p: Placement, words: spec_fn(RegClass) -> nat)
    requires
        p.is_new(),
    ensures
        p.grounded(words),
{
}

/// Placing spill sets keeps a placement grounded.
pub proof fn placing_keeps_a_placement_grounded(
    p: Placement,
    sets: Seq<SetView>,
    words: spec_fn(RegClass) -> nat,
    n: nat,
)
    requires
        p.grounded(words),
        p.homes.len() == sets.len(),
        p.slots.len() + 2 * sets.len() + 2 < u32::MAX,
        sets_ok(sets),
        n <= sets.len(),
    ensures
        p.place_all(sets, words, n).grounded(words),
{
    lemma_in_step_all(p, sets, words, n);
}

/// Every spill set that needs a slot has one: that of the fixed home that it asks for, or
/// one of its register class.
pub proof fn required_sets_are_settled(
    p: Placement,
    sets: Seq<SetView>,
    words: spec_fn(RegClass) -> nat,
    k: int,
)
    requires
        p.grounded(words),
        p.homes.len() == sets.len(),
        p.slots.len() + 2 * sets.len() + 2 < u32::MAX,
        sets_ok(sets),
        0 <= k < sets.len(),
        sets[k].required,
    ensures
        p.place_all(sets, words, sets.len()).settled(sets, words, k),
{
    lemma_in_step_all(p, sets, words, sets.len());
}

/// Spill sets that share a slot are never live at the same point.
pub proof fn sharing_sets_do_not_overlap(
    p: Placement,
    sets: Seq<SetView>,
    words: spec_fn(RegClass) -> nat,
    k: int,
    l: int,
)
    requires
        p.grounded(words),
        p.homes.len() == sets.len(),
        p.slots.len() + 2 * sets.len() + 2 < u32::MAX,
        sets_ok(sets),
        0 <= k < sets.len(),
        0 <= l < sets.len(),
        k != l,
        sets[k].required,
        sets[l].required,
        p.place_all(sets, words, sets.len()).homes[k] == p.place_all(
            sets,
            words,
            sets.len(),
        ).homes[l],
    ensures
        !sets[k].range.overlaps(sets[l].range),
{
    lemma_in_step_all(p, sets, words, sets.len());
    let q = p.place_all(sets, words, sets.len());
    assert(q.settled(sets, words, k));
    assert(q.settled(sets, words, l));
    let i = q.homes[k].id as int;
    let s = q.slots[i].ranges;
    let x = (sets[k].range, SpillSetIndex { id: k as u32 });
    let y = (sets[l].range, SpillSetIndex { id: l as u32 });
    let a = choose|a: int| 0 <= a < s.len() && s[a] == x;
    let b = choose|b: int| 0 <= b < s.len() && s[b] == y;
    assert(in_order(q.slots[i].ranges));
    assert(s[a] == x && s[b] == y);
    assert(a != b);
    if a < b {
        assert(s[a].0.to <= s[b].0.from);
    } else {
        assert(s[b].0.to <= s[a].0.from);
    }
}

/// The slots that are tried for a register class are never those of fixed homes.
pub proof fn fixed_homes_are_not_listed(
    p: Placement,
    sets: Seq<SetView>,
    words: spec_fn(RegClass) -> nat,
    n: nat,
    c: int,
    j: int,
)
    requires
        p.grounded(words),
        p.homes.len() == sets.len(),
        p.slots.len() + 2 * sets.len() + 2 < u32::MAX,
        sets_ok(sets),
        n <= sets.len(),
        0 <= c < 3,
        0 <= j < p.place_all(sets, words, n).lists[c].slots.len(),
    ensures
        ({
            let q = p.place_all(sets, words, n);
            q.slots[q.lists[c].slots[j].id as int].alloc is Unassigned
        }),
{
    lemma_in_step_all(p, sets, words, n);
    assert(p.place_all(sets, words, n).lists[c].slots[j].id >= 0);
}

/// All spill sets that are assigned to a fixed home share one slot.
pub proof fn a_fixed_home_has_one_slot(
    p: Placement,
    sets: Seq<SetView>,
    words: spec_fn(RegClass) -> nat,
    n: nat,
    f: u32,
    i: int,
    j: int,
)
    requires
        p.grounded(words),
        p.homes.len() == sets.len(),
        p.slots.len() + 2 * sets.len() + 2 < u32::MAX,
        sets_ok(sets),
        n <= sets.len(),
        0 <= i < p.place_all(sets, words, n).slots.len(),
        0 <= j < p.place_all(sets, words, n).slots.len(),
        p.place_all(sets, words, n).slots[i].alloc == Allocation::Stack(SpillSlot::Fixed(f)),
        p.place_all(sets, words, n).slots[j].alloc == Allocation::Stack(SpillSlot::Fixed(f)),
    ensures
        i == j,
{
    lemma_in_step_all(p, sets, words, n);
    let q = p.place_all(sets, words, n);
    assert(q.slot_known(i));
    assert(q.slot_known(j));
}

/// A spill set that needs no slot stays where it was.
pub proof fn other_sets_stay(
    p: Placement,
    sets: Seq<SetView>,
    words: spec_fn(RegClass) -> nat,
    n: nat,
    k: int,
)
    requires
        n <= sets.len(),
        p.homes.len() == sets.len(),
        0 <= k < sets.len(),
        !sets[k].required || k >= n,
    ensures
        p.place_all(sets, words, n).homes.len() == sets.len(),
        p.place_all(sets, words, n).homes[k] == p.homes[k],
    decreases n,
{
    if n > 0 {
        other_sets_stay(p, sets, words, (n - 1) as nat, k);
    }
}

/// No more spill sets get a fixed home than need a slot.
pub proof fn fixed_homes_are_for_required_sets(
    p: Placement,
    sets: Seq<SetView>,
    words: spec_fn(RegClass) -> nat,
    n: nat,
)
    ensures
        p.n_fixed(sets, words, n) <= n_required(sets, n) <= n,
    decreases n,
{
    if n > 0 {
        fixed_homes_are_for_required_sets(p, sets, words, (n - 1) as nat);
    }
}

/// The place that is tried after `a` others, from the place `i` on.
pub open spec fn place_after(n: nat, i: int, a: nat) -> int
    decreases a,
{
    if a == 0 {
        i
    } else {
        place_after(n, next_in(n, i), (a - 1) as nat)
    }
}

pub proof fn lemma_place_after(n: nat, i: int, a: nat)
    requires
        0 <= i < n,
        a < n,
    ensures
        place_after(n, i, a) == if i + a < n {
            i + a
        } else {
            i + a - n
        },
    decreases a,
{
    if a > 0 {
        lemma_place_after(n, next_in(n, i), (a - 1) as nat);
    }
}

/// No place of a list is tried twice.
pub proof fn no_place_is_tried_twice(n: nat, i: int, a: nat, b: nat)
    requires
        0 <= i < n,
        a < b < n,
    ensures
        0 <= place_after(n, i, a) < n,
        place_after(n, i, a) != place_after(n, i, b),
{
    lemma_place_after(n, i, a);
    lemma_place_after(n, i, b);
}

/// A new slot is made only if none of the places that are tried has room.
pub proof fn a_new_slot_is_the_last_resort(
    p: Placement,
    c: int,
    range: LiveRangeKey,
    i: int,
    attempts: nat,
    a: nat,
)
    requires
        p.probe(c, range, i, attempts) is None,
        a < attempts,
    ensures
        !p.fits(p.lists[c].slots[place_after(p.lists[c].slots.len(), i, a)], range),
    decreases attempts,
{
    if a > 0 {
        a_new_slot_is_the_last_resort(
            p,
            c,
            range,
            next_in(p.lists[c].slots.len(), i),
            (attempts - 1) as nat,
            (a - 1) as nat,
        );
    }
}

/// The size of the frame before the slot `i` is laid out.
pub open spec fn frame_before(slots: Seq<SlotView>, num: int, by_last: bool, i: int) -> int {
    laid_out(slots, num, by_last, i as nat).1
}

/// The first word of the slot `i`, which is laid out in the frame.
pub open spec fn first_word(slots: Seq<SlotView>, num: int, by_last: bool, i: int) -> int {
    align_up(frame_before(slots, num, by_last, i), slots[i].slots as int)
}

pub proof fn lemma_power_positive(n: int)
    requires
        is_power_of_two(n),
    ensures
        n >= 1,
{
    let k = choose|k: nat| k < 32 && n == #[trigger] vstd::arithmetic::power2::pow2(k);
    vstd::arithmetic::power2::lemma_pow2_pos(k);
}

proof fn lemma_align_up(n: int, size: int)
    requires
        size >= 1,
    ensures
        n <= align_up(n, size),
        align_up(n, size) % size == 0,
{
    let q = (n + size - 1) / size;
    assert(n <= q * size && (q * size) % size == 0) by (nonlinear_arith)
        requires
            size >= 1,
            q == (n + size - 1) / size,
    ;
}

/// What the first `n` slots are laid out to.
proof fn lemma_laid_out(slots: Seq<SlotView>, num: int, by_last: bool, n: nat)
    requires
        n <= slots.len(),
        frame_fits(slots, num, by_last),
        num >= 0,
    ensures
        laid_out(slots, num, by_last, n).0.len() == slots.len(),
        laid_out(slots, num, by_last, n).1 >= num,
        forall|i: int|
            0 <= i < n ==> {
                let slot = #[trigger] laid_out(slots, num, by_last, n).0[i];
                if slots[i].alloc is Unassigned {
                    slot == (SlotView {
                        alloc: Allocation::Stack(
                            SpillSlot::Frame(
                                frame_slot(
                                    frame_before(slots, num, by_last, i),
                                    slots[i].slots as int,
                                    by_last,
                                ) as u32,
                            ),
                        ),
                        ..slots[i]
                    })
                } else {
                    slot == slots[i]
                }
            },
        forall|i: int|
            n <= i < slots.len() ==> #[trigger] laid_out(slots, num, by_last, n).0[i] == slots[i],
        forall|i: int|
            0 <= i < n && (#[trigger] slots[i]).alloc is Unassigned ==> first_word(
                slots,
                num,
                by_last,
                i,
            ) + slots[i].slots <= laid_out(slots, num, by_last, n).1,
    decreases n,
{
    if n > 0 {
        let m = (n - 1) as nat;
        lemma_laid_out(slots, num, by_last, m);
        let slot = slots[m as int];
        if slot.alloc is Unassigned {
            let before = laid_out(slots, num, by_last, m).1;
            lemma_power_positive(slot.slots as int);
            lemma_align_up(before, slot.slots as int);
        }
    }
}

proof fn lemma_frame_grows(slots: Seq<SlotView>, num: int, by_last: bool, m: nat, n: nat)
    requires
        m <= n <= slots.len(),
        frame_fits(slots, num, by_last),
        num >= 0,
    ensures
        laid_out(slots, num, by_last, m).1 <= laid_out(slots, num, by_last, n).1,
    decreases n - m,
{
    if m < n {
        let l = (n - 1) as nat;
        lemma_frame_grows(slots, num, by_last, m, l);
        lemma_laid_out(slots, num, by_last, l);
        let slot = slots[l as int];
        if slot.alloc is Unassigned {
            lemma_power_positive(slot.slots as int);
            lemma_align_up(laid_out(slots, num, by_last, l).1, slot.slots as int);
        }
    }
}

/// A slot that has no place yet is laid out in the frame: behind what it held before, aligned
/// to its size, and within what the frame has in the end. A slot that has a place keeps it.
pub proof fn slots_are_laid_out_in_the_frame(
    slots: Seq<SlotView>,
    num: int,
    by_last: bool,
    i: int,
)
    requires
        num >= 0,
        frame_fits(slots, num, by_last),
        0 <= i < slots.len(),
    ensures
        ({
            let (out, total) = laid_out(slots, num, by_last, slots.len());
            let first = first_word(slots, num, by_last, i);
            let size = slots[i].slots;
            &&& out.len() == slots.len()
            &&& num <= total
            &&& if slots[i].alloc is Unassigned {
                &&& out[i].alloc matches Allocation::Stack(SpillSlot::Frame(a)) && word_of(
                    a,
                    size,
                    by_last,
                ) == first
                &&& out[i].slots == size
                &&& out[i].ranges == slots[i].ranges
                &&& num <= first
                &&& first % (size as int) == 0
                &&& first + size <= total
            } else {
                out[i] == slots[i]
            }
        }),
{
    let n = slots.len();
    lemma_laid_out(slots, num, by_last, n);
    let slot = laid_out(slots, num, by_last, n).0[i];
    if slots[i].alloc is Unassigned {
        lemma_laid_out(slots, num, by_last, i as nat);
        lemma_power_positive(slots[i].slots as int);
        lemma_align_up(frame_before(slots, num, by_last, i), slots[i].slots as int);
    }
}

/// Slots that all have a place take nothing of the frame.
pub proof fn slots_with_places_take_no_frame(
    slots: Seq<SlotView>,
    num: int,
    by_last: bool,
    n: nat,
)
    requires
        n <= slots.len(),
        forall|i: int| 0 <= i < slots.len() ==> (#[trigger] slots[i]).alloc !is Unassigned,
    ensures
        laid_out(slots, num, by_last, n) == (slots, num),
    decreases n,
{
    if n > 0 {
        slots_with_places_take_no_frame(slots, num, by_last, (n - 1) as nat);
    }
}

/// Slots are laid out in the frame behind what it held before, aligned to their size, and
/// without an overlap.
pub proof fn frame_slots_are_separate(
    slots: Seq<SlotView>,
    num: int,
    by_last: bool,
    i: int,
    j: int,
)
    requires
        num >= 0,
        frame_fits(slots, num, by_last),
        0 <= i < j < slots.len(),
        slots[i].alloc is Unassigned,
        slots[j].alloc is Unassigned,
    ensures
        num <= first_word(slots, num, by_last, i),
        first_word(slots, num, by_last, i) % (slots[i].slots as int) == 0,
        first_word(slots, num, by_last, i) + slots[i].slots <= first_word(slots, num, by_last, j),
        first_word(slots, num, by_last, j) + slots[j].slots <= laid_out(
            slots,
            num,
            by_last,
            slots.len(),
        ).1,
{
    let n = slots.len();
    lemma_laid_out(slots, num, by_last, i as nat);
    lemma_laid_out(slots, num, by_last, (i + 1) as nat);
    lemma_laid_out(slots, num, by_last, (j + 1) as nat);
    lemma_frame_grows(slots, num, by_last, (i + 1) as nat, j as nat);
    lemma_frame_grows(slots, num, by_last, (j + 1) as nat, n);
    lemma_power_positive(slots[i].slots as int);
    lemma_align_up(frame_before(slots, num, by_last, i), slots[i].slots as int);
    lemma_power_positive(slots[j].slots as int);
    lemma_align_up(frame_before(slots, num, by_last, j), slots[j].slots as int);
}

/// The first of the words that a slot of the frame with the number `a` takes.
pub open spec fn word_of(a: u32, size: u32, by_last: bool) -> int {
    if by_last {
        a - (size - 1)
    } else {
        a as int
    }
}

/// Two locations have no word in common. The sizes are those of the slots.
pub open spec fn apart(a: SlotView, b: SlotView, by_last: bool) -> bool {
    match (a.alloc, b.alloc) {
        (Allocation::Stack(SpillSlot::Fixed(f)), Allocation::Stack(SpillSlot::Fixed(g))) => f != g,
        (Allocation::Stack(SpillSlot::Frame(x)), Allocation::Stack(SpillSlot::Frame(y))) => {
            ||| word_of(x, a.slots, by_last) + a.slots <= word_of(y, b.slots, by_last)
            ||| word_of(y, b.slots, by_last) + b.slots <= word_of(x, a.slots, by_last)
        },
        (Allocation::Stack(_), Allocation::Stack(_)) => true,
        _ => false,
    }
}

/// Spill sets that are live at the same point never share memory: they have different
/// fixed homes, or separate words of the frame, or one has a fixed home and the other
/// words of the frame.
pub proof fn overlapping_sets_do_not_share_memory(
    p: Placement,
    sets: Seq<SetView>,
    words: spec_fn(RegClass) -> nat,
    num: int,
    by_last: bool,
    k: int,
    l: int,
)
    requires
        p.grounded(words),
        p.homes.len() == sets.len(),
        p.slots.len() + 2 * sets.len() + 2 < u32::MAX,
        sets_ok(sets),
        num >= 0,
        frame_fits(p.place_all(sets, words, sets.len()).slots, num, by_last),
        0 <= k < sets.len(),
        0 <= l < sets.len(),
        k != l,
        sets[k].required,
        sets[l].required,
        sets[k].range.overlaps(sets[l].range),
    ensures
        ({
            let q = p.place_all(sets, words, sets.len());
            let slots = laid_out(q.slots, num, by_last, q.slots.len()).0;
            &&& q.homes[k].id < slots.len()
            &&& q.homes[l].id < slots.len()
            &&& apart(slots[q.homes[k].id as int], slots[q.homes[l].id as int], by_last)
        }),
{
    let q = p.place_all(sets, words, sets.len());
    if q.homes[k] == q.homes[l] {
        sharing_sets_do_not_overlap(p, sets, words, k, l);
    }
    lemma_in_step_all(p, sets, words, sets.len());
    assert(q.settled(sets, words, k));
    assert(q.settled(sets, words, l));
    let i = q.homes[k].id as int;
    let j = q.homes[l].id as int;
    assert(q.slot_known(i));
    assert(q.slot_known(j));
    slots_are_laid_out_in_the_frame(q.slots, num, by_last, i);
    slots_are_laid_out_in_the_frame(q.slots, num, by_last, j);
    if q.slots[i].alloc is Unassigned && q.slots[j].alloc is Unassigned {
        if i < j {
            frame_slots_are_separate(q.slots, num, by_last, i, j);
        } else {
            frame_slots_are_separate(q.slots, num, by_last, j, i);
        }
    }
}

} // verus!
