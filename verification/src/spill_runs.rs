//! What a whole run of the spill stage leaves that begins with nothing placed.
use crate::ranges::{inserted, lemma_inserted, lemma_rank, rank, LiveRangeKey};
use crate::regs::RegClass;
use crate::spill::{
    frame_fits, laid_out, lemma_laid_out_rest, set_ok, sets_ok, Placement, SetView, SlotView, MAX_ATTEMPTS,
};
use crate::spill_data::{Allocation, SpillSetIndex, SpillSlot, SpillSlotIndex};
use crate::spill_laws::{
    a_new_slot_is_the_last_resort, lemma_in_step_all, lemma_place_after, lemma_probe_fits,
    new_placements_are_grounded, slots_are_laid_out_in_the_frame, slots_with_places_take_no_frame,
};
use vstd::prelude::*;

verus! {

impl Placement {
    /// The entry `x` of the slot `i` is that of one of the first `n` spill sets, which needs a
    /// slot and is assigned to this one.
    pub open spec fn owns(
        self,
        sets: Seq<SetView>,
        n: nat,
        i: int,
        x: (LiveRangeKey, SpillSetIndex),
    ) -> bool {
        let k = x.1.id as int;
        &&& k < n
        &&& sets[k].required
        &&& sets[k].range == x.0
        &&& self.homes[k].id == i
    }

    /// Every entry of a slot is that of a spill set that is assigned to it, and none occurs
    /// twice.
    pub open spec fn owned(self, sets: Seq<SetView>, n: nat) -> bool {
        &&& forall|i: int, x: (LiveRangeKey, SpillSetIndex)|
            0 <= i < self.slots.len() && #[trigger] self.slots[i].ranges.contains(x) ==> self.owns(
                sets,
                n,
                i,
                x,
            )
        &&& forall|i: int|
            0 <= i < self.slots.len() ==> (#[trigger] self.slots[i]).ranges.no_duplicates()
    }

    /// One of the first `n` spill sets is in the fixed home `f`, which it asks for.
    pub open spec fn inhabited(self, sets: Seq<SetView>, n: nat, f: u32) -> bool {
        exists|k: int|
            {
                &&& 0 <= k < n
                &&& (#[trigger] sets[k]).required
                &&& Placement::wish(sets[k]) == Some(f)
                &&& self.homes[k] == self.fixed[f]
            }
    }

    /// The fixed homes are those that the first `n` spill sets ask for. Their slots have no
    /// size.
    pub open spec fn homely(self, sets: Seq<SetView>, n: nat) -> bool {
        &&& forall|k: int|
            0 <= k < n && (#[trigger] sets[k]).required && Placement::wish(sets[k]) is Some
                ==> self.fixed.contains_key(Placement::wish(sets[k])->0)
        &&& forall|f: u32| #[trigger]
            self.fixed.contains_key(f) ==> {
                &&& f != 0
                &&& self.slots[self.fixed[f].id as int].slots == 0
                &&& self.inhabited(sets, n, f)
            }
    }

    /// The slot `i` stands at the place `j` of the list of the class `c`.
    pub open spec fn listed(self, i: int, c: int, j: int) -> bool {
        &&& 0 <= c < 3
        &&& 0 <= j < self.lists[c].slots.len()
        &&& self.lists[c].slots[j].id == i
    }

    /// Every slot that is not that of a fixed home stands in one list, once, and the spill
    /// sets that are assigned to it have the class of that list.
    pub open spec fn sorted(self, sets: Seq<SetView>, n: nat) -> bool {
        &&& forall|i: int|
            0 <= i < self.slots.len() && (#[trigger] self.slots[i]).alloc is Unassigned
                ==> exists|c: int, j: int| #[trigger] self.listed(i, c, j)
        &&& forall|i: int, c: int, j: int, d: int, l: int| #[trigger]
            self.listed(i, c, j) && #[trigger] self.listed(i, d, l) ==> c == d && j == l
        &&& forall|k: int, c: int, j: int|
            0 <= k < n && (#[trigger] sets[k]).required && #[trigger] self.listed(
                self.homes[k].id as int,
                c,
                j,
            ) ==> sets[k].class.number() == c
    }

    /// A spill set before `u` is assigned to the slot at the place `i` of the list of the
    /// class `c`, and its range overlaps that of `u`.
    pub open spec fn taken_before(self, sets: Seq<SetView>, c: int, i: int, u: int) -> bool {
        exists|t: int|
            {
                &&& 0 <= t < u
                &&& (#[trigger] sets[t]).required
                &&& self.homes[t] == self.lists[c].slots[i]
                &&& sets[t].range.overlaps(sets[u].range)
            }
    }

    /// The spill set `u` is the first one of the slot at the place `j` of the list of the
    /// class `c`. None of the places before it had room, as long as all of them are tried.
    pub open spec fn founds(self, sets: Seq<SetView>, n: nat, c: int, j: int, u: int) -> bool {
        let slot = self.lists[c].slots[j];
        &&& 0 <= u < n
        &&& sets[u].required
        &&& self.homes[u] == slot
        &&& forall|k: int|
            0 <= k < n && (#[trigger] sets[k]).required && self.homes[k] == slot ==> u <= k
        &&& j <= MAX_ATTEMPTS ==> forall|i: int|
            0 <= i < j ==> #[trigger] self.taken_before(sets, c, i, u)
    }

    /// The slot at the place `j` of the list of the class `c` has a first spill set.
    pub open spec fn has_founder(self, sets: Seq<SetView>, n: nat, c: int, j: int) -> bool {
        exists|u: int| #[trigger] self.founds(sets, n, c, j, u)
    }

    /// Every slot of a list has a first spill set.
    pub open spec fn founded(self, sets: Seq<SetView>, n: nat) -> bool {
        forall|c: int, j: int|
            0 <= c < 3 && 0 <= j < self.lists[c].slots.len() ==> #[trigger] self.has_founder(
                sets,
                n,
                c,
                j,
            )
    }

    /// What holds once the first `n` spill sets are placed, in a run that began with nothing
    /// placed.
    pub open spec fn run(self, sets: Seq<SetView>, words: spec_fn(RegClass) -> nat, n: nat) -> bool {
        &&& self.in_step(sets, words, n)
        &&& self.owned(sets, n)
        &&& self.homely(sets, n)
        &&& self.sorted(sets, n)
        &&& self.founded(sets, n)
    }
}

/// The spill set `k` goes to a slot that is there.
spec fn puts(p: Placement, q: Placement, sets: Seq<SetView>, k: int, i: SpillSlotIndex) -> bool {
    let slot = p.slots[i.id as int];
    &&& i.id < p.slots.len()
    &&& p.fits(i, sets[k].range)
    &&& q.homes == p.homes.update(k, i)
    &&& q.slots == p.slots.update(
        i.id as int,
        SlotView {
            ranges: inserted(slot.ranges, sets[k].range, SpillSetIndex { id: k as u32 }),
            ..slot
        },
    )
    &&& q.fixed == p.fixed
    &&& q.lists.len() == 3
    &&& forall|c: int| 0 <= c < 3 ==> (#[trigger] q.lists[c]).slots == p.lists[c].slots
}

/// The spill set `k` goes to a slot that is made for it.
spec fn opens(
    p: Placement,
    q: Placement,
    sets: Seq<SetView>,
    k: int,
    size: u32,
    alloc: Allocation,
) -> bool {
    let empty = Seq::<(LiveRangeKey, SpillSetIndex)>::empty();
    &&& q.homes == p.homes.update(k, p.next_slot())
    &&& q.slots == p.slots.push(
        SlotView {
            ranges: inserted(empty, sets[k].range, SpillSetIndex { id: k as u32 }),
            slots: size,
            alloc,
        },
    )
    &&& q.lists.len() == 3
}

/// A slot is made for the fixed home `f`.
spec fn opens_home(p: Placement, q: Placement, sets: Seq<SetView>, k: int, f: u32) -> bool {
    &&& opens(p, q, sets, k, 0, Allocation::Stack(SpillSlot::Fixed(f)))
    &&& Placement::wish(sets[k]) == Some(f)
    &&& !p.fixed.contains_key(f)
    &&& q.fixed == p.fixed.insert(f, p.next_slot())
    &&& q.lists == p.lists
}

/// A slot is made for a register class.
spec fn opens_listed(p: Placement, q: Placement, sets: Seq<SetView>, k: int, size: u32) -> bool {
    let c = sets[k].class.number();
    &&& opens(p, q, sets, k, size, Allocation::Unassigned)
    &&& p.found(c, sets[k].range) is None
    &&& q.fixed == p.fixed
    &&& q.lists[c].slots == p.lists[c].slots.push(p.next_slot())
    &&& forall|d: int| 0 <= d < 3 && d != c ==> #[trigger] q.lists[d] == p.lists[d]
}

/// A spill set goes to a slot in one of these ways.
proof fn lemma_ways(p: Placement, q: Placement, sets: Seq<SetView>, k: int, words: nat)
    requires
        p.usable(),
        p.slots.len() < u32::MAX,
        0 <= k < sets.len(),
        sets[k].required,
        set_ok(sets[k]),
        q == p.place(k, sets[k], words),
    ensures
        ({
            let wish = Placement::wish(sets[k]);
            let c = sets[k].class.number();
            ||| wish is Some && p.fixed.contains_key(wish->0) && puts(
                p,
                q,
                sets,
                k,
                p.fixed[wish->0],
            )
            ||| wish is Some && opens_home(p, q, sets, k, wish->0)
            ||| {
                &&& wish is Some ==> p.fixed.contains_key(wish->0)
                &&& exists|j: int|
                    {
                        &&& 0 <= j < p.lists[c].slots.len()
                        &&& puts(p, q, sets, k, #[trigger] p.lists[c].slots[j])
                    }
            }
            ||| (wish is Some ==> p.fixed.contains_key(wish->0)) && opens_listed(
                p,
                q,
                sets,
                k,
                words as u32,
            )
        }),
{
    let set = sets[k];
    let wish = Placement::wish(set);
    let c = set.class.number();
    let empty = Seq::<(LiveRangeKey, SpillSetIndex)>::empty();
    if wish is Some && !p.fixed.contains_key(wish->0) {
        let (h, i) = p.home(wish->0);
        assert(h.slots[i.id as int].ranges == empty);
        assert(h.fits(i, set.range));
        assert(q == h.put(k, set.range, i));
        assert(q.slots =~= p.slots.push(
            SlotView {
                ranges: inserted(empty, set.range, SpillSetIndex { id: k as u32 }),
                slots: 0,
                alloc: Allocation::Stack(SpillSlot::Fixed(wish->0)),
            },
        ));
        assert(opens_home(p, q, sets, k, wish->0));
    } else if wish is Some && p.fits(p.fixed[wish->0], set.range) {
        assert(puts(p, q, sets, k, p.fixed[wish->0]));
    } else {
        assert(q == p.auto(k, set, words));
        let list = p.lists[c];
        let attempts = if list.slots.len() < MAX_ATTEMPTS {
            list.slots.len()
        } else {
            MAX_ATTEMPTS as nat
        };
        lemma_probe_fits(p, c, set.range, list.probe_start, attempts);
        match p.found(c, set.range) {
            Some(j) => {
                assert(p.lists[c].slots[j].id < p.slots.len());
                assert(puts(p, q, sets, k, p.lists[c].slots[j]));
            },
            None => {
                assert(q.slots =~= p.slots.push(
                    SlotView {
                        ranges: inserted(empty, set.range, SpillSetIndex { id: k as u32 }),
                        slots: words as u32,
                        alloc: Allocation::Unassigned,
                    },
                ));
                assert(opens_listed(p, q, sets, k, words as u32));
            },
        }
    }
}

proof fn lemma_owned_put(
    p: Placement,
    q: Placement,
    sets: Seq<SetView>,
    n: nat,
    i: SpillSlotIndex,
)
    requires
        p.usable(),
        p.owned(sets, n),
        p.homes.len() == sets.len(),
        n < sets.len() <= u32::MAX,
        sets[n as int].required,
        set_ok(sets[n as int]),
        puts(p, q, sets, n as int, i),
    ensures
        q.owned(sets, n + 1),
{
    let range = sets[n as int].range;
    let k = SpillSetIndex { id: n as u32 };
    lemma_inserted(p.slots[i.id as int].ranges, range, k);
    assert forall|a: int, x: (LiveRangeKey, SpillSetIndex)|
        0 <= a < q.slots.len() && #[trigger] q.slots[a].ranges.contains(x) implies q.owns(
        sets,
        n + 1,
        a,
        x,
    ) by {
        if a == i.id && x == (range, k) {
        } else {
            assert(p.slots[a].ranges.contains(x));
            assert(p.owns(sets, n, a, x));
        }
    }
    assert forall|a: int| 0 <= a < q.slots.len() implies (
    #[trigger] q.slots[a]).ranges.no_duplicates() by {
        let old_ranges = p.slots[a].ranges;
        assert(old_ranges.no_duplicates());
        if a == i.id {
            assert(!old_ranges.contains((range, k))) by {
                if old_ranges.contains((range, k)) {
                    assert(p.owns(sets, n, a, (range, k)));
                }
            }
            lemma_rank(old_ranges, range, old_ranges.len());
            lemma_insert_new(old_ranges, rank(old_ranges, range, old_ranges.len()) as int, (range, k));
        }
    }
}

/// A new element does not make a duplicate.
proof fn lemma_insert_new<T>(s: Seq<T>, i: int, x: T)
    requires
        s.no_duplicates(),
        !s.contains(x),
        0 <= i <= s.len(),
    ensures
        s.insert(i, x).no_duplicates(),
{
    let t = s.insert(i, x);
    assert forall|a: int, b: int| 0 <= a < t.len() && 0 <= b < t.len() && a != b implies t[a]
        != t[b] by {
        if a != i {
            assert(s.contains(t[a])) by {
                assert(t[a] == s[if a < i { a } else { a - 1 }]);
            }
        }
        if b != i {
            assert(s.contains(t[b])) by {
                assert(t[b] == s[if b < i { b } else { b - 1 }]);
            }
        }
    }
}

proof fn lemma_owned_open(
    p: Placement,
    q: Placement,
    sets: Seq<SetView>,
    n: nat,
    size: u32,
    alloc: Allocation,
)
    requires
        p.owned(sets, n),
        p.homes.len() == sets.len(),
        p.slots.len() < u32::MAX,
        n < sets.len() <= u32::MAX,
        sets[n as int].required,
        set_ok(sets[n as int]),
        opens(p, q, sets, n as int, size, alloc),
    ensures
        q.owned(sets, n + 1),
{
    let range = sets[n as int].range;
    let k = SpillSetIndex { id: n as u32 };
    let empty = Seq::<(LiveRangeKey, SpillSetIndex)>::empty();
    lemma_inserted(empty, range, k);
    assert forall|a: int, x: (LiveRangeKey, SpillSetIndex)|
        0 <= a < q.slots.len() && #[trigger] q.slots[a].ranges.contains(x) implies q.owns(
        sets,
        n + 1,
        a,
        x,
    ) by {
        if a < p.slots.len() {
            assert(p.slots[a].ranges.contains(x));
            assert(p.owns(sets, n, a, x));
        } else {
            assert(!empty.contains(x));
            assert(x == (range, k));
        }
    }
}

/// The fixed homes of `p` are still those that are asked for.
proof fn lemma_homely(p: Placement, q: Placement, sets: Seq<SetView>, n: nat)
    requires
        p.usable(),
        p.homely(sets, n),
        p.homes.len() == sets.len(),
        n < sets.len(),
        q.homes == p.homes.update(n as int, q.homes[n as int]),
        p.slots.len() <= q.slots.len(),
        forall|i: int| 0 <= i < p.slots.len() ==> (#[trigger] q.slots[i]).slots == p.slots[i].slots,
        sets[n as int].required && Placement::wish(sets[n as int]) is Some
            ==> q.fixed.contains_key(Placement::wish(sets[n as int])->0),
        q.fixed == p.fixed || exists|f: u32|
            {
                &&& !p.fixed.contains_key(f)
                &&& q.fixed == #[trigger] p.fixed.insert(f, q.homes[n as int])
                &&& sets[n as int].required
                &&& Placement::wish(sets[n as int]) == Some(f)
                &&& q.slots[q.homes[n as int].id as int].slots == 0
            },
    ensures
        q.homely(sets, n + 1),
{
    assert forall|f: u32| #[trigger] q.fixed.contains_key(f) implies {
        &&& f != 0
        &&& q.slots[q.fixed[f].id as int].slots == 0
        &&& q.inhabited(sets, n + 1, f)
    } by {
        if p.fixed.contains_key(f) {
            assert(p.inhabited(sets, n, f));
            let k = choose|k: int|
                {
                    &&& 0 <= k < n
                    &&& (#[trigger] sets[k]).required
                    &&& Placement::wish(sets[k]) == Some(f)
                    &&& p.homes[k] == p.fixed[f]
                };
            assert(q.homes[k] == q.fixed[f]);
            assert(sets[k].required);
        } else {
            assert(sets[n as int].required);
        }
    }
    assert forall|k: int|
        0 <= k < n + 1 && (#[trigger] sets[k]).required && Placement::wish(
            sets[k],
        ) is Some implies q.fixed.contains_key(Placement::wish(sets[k])->0) by {
        if k < n {
            assert(p.fixed.contains_key(Placement::wish(sets[k])->0));
        }
    }
}

/// A spill set that is settled is in a slot that is there.
proof fn lemma_home_known(
    p: Placement,
    sets: Seq<SetView>,
    words: spec_fn(RegClass) -> nat,
    n: nat,
    k: int,
)
    requires
        p.in_step(sets, words, n),
        0 <= k < n,
        sets[k].required,
    ensures
        p.homes[k].id < p.slots.len(),
{
    assert(p.settled(sets, words, k));
}

/// The lists name the same slots as before.
proof fn lemma_sorted_same(
    p: Placement,
    q: Placement,
    sets: Seq<SetView>,
    words: spec_fn(RegClass) -> nat,
    n: nat,
)
    requires
        p.run(sets, words, n),
        n < sets.len(),
        q.homes == p.homes.update(n as int, q.homes[n as int]),
        p.slots.len() <= q.slots.len(),
        forall|i: int| 0 <= i < p.slots.len() ==> (#[trigger] q.slots[i]).alloc == p.slots[i].alloc,
        forall|i: int|
            p.slots.len() <= i < q.slots.len() ==> (#[trigger] q.slots[i]).alloc !is Unassigned,
        forall|c: int| 0 <= c < 3 ==> (#[trigger] q.lists[c]).slots == p.lists[c].slots,
        sets[n as int].required ==> forall|c: int, j: int| #[trigger]
            p.listed(q.homes[n as int].id as int, c, j) ==> sets[n as int].class.number() == c,
    ensures
        q.sorted(sets, n + 1),
        q.founded(sets, n + 1),
{
    assert forall|i: int, c: int, j: int| #[trigger] q.listed(i, c, j) == p.listed(i, c, j) by {
        if 0 <= c < 3 {
            assert(q.lists[c].slots == p.lists[c].slots);
        }
    }
    assert forall|i: int|
        0 <= i < q.slots.len() && (#[trigger] q.slots[i]).alloc is Unassigned implies exists|
        c: int,
        j: int,
    | #[trigger] q.listed(i, c, j) by {
        assert(p.slots[i].alloc is Unassigned);
        let (c, j) = choose|c: int, j: int| #[trigger] p.listed(i, c, j);
        assert(q.listed(i, c, j));
    }
    assert forall|i: int, c: int, j: int, d: int, l: int| #[trigger]
        q.listed(i, c, j) && #[trigger] q.listed(i, d, l) implies c == d && j == l by {
        assert(p.listed(i, c, j) && p.listed(i, d, l));
    }
    assert forall|k: int, c: int, j: int|
        0 <= k < n + 1 && (#[trigger] sets[k]).required && #[trigger] q.listed(
            q.homes[k].id as int,
            c,
            j,
        ) implies sets[k].class.number() == c by {
        assert(p.listed(q.homes[k].id as int, c, j));
        if k < n {
            assert(q.homes[k] == p.homes[k]);
        }
    }
    assert forall|c: int, j: int|
        0 <= c < 3 && 0 <= j < q.lists[c].slots.len() implies #[trigger] q.has_founder(
        sets,
        n + 1,
        c,
        j,
    ) by {
        assert(q.lists[c].slots == p.lists[c].slots);
        assert(p.lists[c].slots[j] == q.lists[c].slots[j]);
        assert(p.has_founder(sets, n, c, j));
        let u = choose|u: int| #[trigger] p.founds(sets, n, c, j, u);
        lemma_founds_kept(p, q, sets, n, c, j, u);
    }
}

/// The first spill set of a slot stays the first one.
proof fn lemma_founds_kept(
    p: Placement,
    q: Placement,
    sets: Seq<SetView>,
    n: nat,
    c: int,
    j: int,
    u: int,
)
    requires
        p.founds(sets, n, c, j, u),
        p.homes.len() == sets.len(),
        n < sets.len(),
        q.homes == p.homes.update(n as int, q.homes[n as int]),
        0 <= c < 3,
        0 <= j < p.lists[c].slots.len() <= q.lists[c].slots.len(),
        forall|i: int|
            0 <= i <= j ==> #[trigger] q.lists[c].slots[i] == p.lists[c].slots[i],
    ensures
        q.founds(sets, n + 1, c, j, u),
{
    assert(q.homes[u] == p.homes[u]);
    assert(q.lists[c].slots[j] == p.lists[c].slots[j]);
    assert forall|k: int|
        0 <= k < n + 1 && (#[trigger] sets[k]).required && q.homes[k]
            == q.lists[c].slots[j] implies u <= k by {
        if k < n {
            assert(p.homes[k] == q.homes[k]);
        }
    }
    if j <= MAX_ATTEMPTS {
        assert forall|i: int| 0 <= i < j implies #[trigger] q.taken_before(sets, c, i, u) by {
            assert(p.taken_before(sets, c, i, u));
            let t = choose|t: int|
                {
                    &&& 0 <= t < u
                    &&& (#[trigger] sets[t]).required
                    &&& p.homes[t] == p.lists[c].slots[i]
                    &&& sets[t].range.overlaps(sets[u].range)
                };
            assert(q.lists[c].slots[i] == p.lists[c].slots[i]);
            assert(q.homes[t] == p.homes[t]);
            assert(sets[t].required);
        }
    }
}

/// A list names one slot more, which was made for the spill set `n`.
proof fn lemma_sorted_more(
    p: Placement,
    q: Placement,
    sets: Seq<SetView>,
    words: spec_fn(RegClass) -> nat,
    n: nat,
    size: u32,
)
    requires
        p.run(sets, words, n),
        n < sets.len(),
        p.slots.len() < u32::MAX,
        sets[n as int].required,
        opens_listed(p, q, sets, n as int, size),
    ensures
        q.sorted(sets, n + 1),
        q.founded(sets, n + 1),
{
    let c0 = sets[n as int].class.number();
    let m = p.slots.len() as int;
    let len = p.lists[c0].slots.len() as int;
    assert forall|i: int, c: int, j: int| #[trigger] q.listed(i, c, j) implies p.listed(i, c, j)
        || i == m && c == c0 && j == len by {
        if c != c0 {
            assert(q.lists[c] == p.lists[c]);
        }
    }
    assert forall|i: int, c: int, j: int| #[trigger] p.listed(i, c, j) implies q.listed(i, c, j)
        && i < m by {
        assert(p.lists[c].slots[j].id < p.slots.len());
        if c != c0 {
            assert(q.lists[c] == p.lists[c]);
        }
    }
    assert(q.listed(m, c0, len));
    assert forall|i: int|
        0 <= i < q.slots.len() && (#[trigger] q.slots[i]).alloc is Unassigned implies exists|
        c: int,
        j: int,
    | #[trigger] q.listed(i, c, j) by {
        if i < m {
            assert(p.slots[i].alloc is Unassigned);
            let (c, j) = choose|c: int, j: int| #[trigger] p.listed(i, c, j);
            assert(q.listed(i, c, j));
        }
    }
    assert forall|k: int, c: int, j: int|
        0 <= k < n + 1 && (#[trigger] sets[k]).required && #[trigger] q.listed(
            q.homes[k].id as int,
            c,
            j,
        ) implies sets[k].class.number() == c by {
        if k < n {
            lemma_home_known(p, sets, words, n, k);
            assert(q.homes[k] == p.homes[k]);
            assert(p.listed(p.homes[k].id as int, c, j));
        } else {
            assert(q.listed(m, c, j));
        }
    }
    assert forall|c: int, j: int|
        0 <= c < 3 && 0 <= j < q.lists[c].slots.len() implies #[trigger] q.has_founder(
        sets,
        n + 1,
        c,
        j,
    ) by {
        if c != c0 {
            assert(q.lists[c] == p.lists[c]);
        }
        if c != c0 || j < len {
            assert(p.lists[c].slots[j] == q.lists[c].slots[j]);
            assert(p.has_founder(sets, n, c, j));
            let u = choose|u: int| #[trigger] p.founds(sets, n, c, j, u);
            lemma_founds_kept(p, q, sets, n, c, j, u);
        } else {
            lemma_founds_new(p, q, sets, words, n, size);
        }
    }
}

/// The spill set that a slot is made for is its first one.
proof fn lemma_founds_new(
    p: Placement,
    q: Placement,
    sets: Seq<SetView>,
    words: spec_fn(RegClass) -> nat,
    n: nat,
    size: u32,
)
    requires
        p.run(sets, words, n),
        n < sets.len(),
        p.slots.len() < u32::MAX,
        sets[n as int].required,
        opens_listed(p, q, sets, n as int, size),
    ensures
        q.founds(
            sets,
            n + 1,
            sets[n as int].class.number(),
            p.lists[sets[n as int].class.number()].slots.len() as int,
            n as int,
        ),
{
    let c = sets[n as int].class.number();
    let range = sets[n as int].range;
    let list = p.lists[c].slots;
    let len = list.len();
    assert(q.lists[c].slots[len as int] == p.next_slot());
    assert forall|k: int|
        0 <= k < n + 1 && (#[trigger] sets[k]).required && q.homes[k] == p.next_slot() implies n
        <= k by {
        if k < n {
            lemma_home_known(p, sets, words, n, k);
            assert(q.homes[k] == p.homes[k]);
        }
    }
    if len <= MAX_ATTEMPTS {
        let start = p.lists[c].probe_start;
        assert forall|i: int| 0 <= i < len implies #[trigger] q.taken_before(
            sets,
            c,
            i,
            n as int,
        ) by {
            let a: nat = if i >= start {
                (i - start) as nat
            } else {
                (i - start + len) as nat
            };
            lemma_place_after(len, start, a);
            a_new_slot_is_the_last_resort(p, c, range, start, len, a);
            assert(!p.fits(list[i], range));
            let ranges = p.slots[list[i].id as int].ranges;
            let b = choose|b: int| 0 <= b < ranges.len() && (#[trigger] ranges[b]).0.overlaps(range);
            let x = ranges[b];
            assert(list[i].id < p.slots.len());
            assert(p.slots[list[i].id as int].ranges.contains(x));
            assert(p.owns(sets, n, list[i].id as int, x));
            let t = x.1.id as int;
            assert(sets[t].required);
            assert(q.homes[t] == p.homes[t]);
            assert(q.lists[c].slots[i] == list[i]);
        }
    }
}

/// Each step keeps what holds of the run.
proof fn lemma_run_place(
    p: Placement,
    sets: Seq<SetView>,
    words: spec_fn(RegClass) -> nat,
    n: nat,
)
    requires
        p.run(sets, words, n),
        n < sets.len() <= u32::MAX,
        sets[n as int].required ==> set_ok(sets[n as int]),
        p.slots.len() < u32::MAX,
        p.place(n as int, sets[n as int], words(sets[n as int].class)).in_step(
            sets,
            words,
            n + 1,
        ),
    ensures
        p.place(n as int, sets[n as int], words(sets[n as int].class)).run(sets, words, n + 1),
{
    let k = n as int;
    let set = sets[k];
    let c = set.class.number();
    let q = p.place(k, set, words(set.class));
    if !set.required {
        lemma_run_skip(p, sets, words, n);
    } else {
        lemma_ways(p, q, sets, k, words(set.class));
        let wish = Placement::wish(set);
        if wish is Some && p.fixed.contains_key(wish->0) && puts(p, q, sets, k, p.fixed[wish->0]) {
            let i = p.fixed[wish->0];
            lemma_owned_put(p, q, sets, n, i);
            lemma_homely(p, q, sets, n);
            assert forall|c: int, j: int| #[trigger] p.listed(i.id as int, c, j) implies set.class.number()
                == c by {
                assert(p.lists[c].slots[j] == i);
                assert(p.slots[p.lists[c].slots[j].id as int].alloc is Unassigned);
            }
            lemma_sorted_same(p, q, sets, words, n);
        } else if wish is Some && opens_home(p, q, sets, k, wish->0) {
            let f = wish->0;
            lemma_owned_open(p, q, sets, n, 0, Allocation::Stack(SpillSlot::Fixed(f)));
            assert(q.fixed == p.fixed.insert(f, q.homes[k]));
            lemma_homely(p, q, sets, n);
            assert forall|c: int, j: int| #[trigger]
                p.listed(q.homes[k].id as int, c, j) implies set.class.number() == c by {
                assert(p.lists[c].slots[j].id < p.slots.len());
            }
            lemma_sorted_same(p, q, sets, words, n);
        } else if opens_listed(p, q, sets, k, words(set.class) as u32) {
            lemma_owned_open(p, q, sets, n, words(set.class) as u32, Allocation::Unassigned);
            lemma_homely(p, q, sets, n);
            lemma_sorted_more(p, q, sets, words, n, words(set.class) as u32);
        } else {
            let j = choose|j: int|
                {
                    &&& 0 <= j < p.lists[c].slots.len()
                    &&& puts(p, q, sets, k, #[trigger] p.lists[c].slots[j])
                };
            let i = p.lists[c].slots[j];
            lemma_owned_put(p, q, sets, n, i);
            lemma_homely(p, q, sets, n);
            assert(p.listed(i.id as int, c, j));
            lemma_sorted_same(p, q, sets, words, n);
        }
    }
}

/// A spill set that needs no slot changes nothing.
proof fn lemma_run_skip(
    p: Placement,
    sets: Seq<SetView>,
    words: spec_fn(RegClass) -> nat,
    n: nat,
)
    requires
        p.run(sets, words, n),
        n < sets.len(),
        !sets[n as int].required,
    ensures
        p.owned(sets, n + 1),
        p.homely(sets, n + 1),
        p.sorted(sets, n + 1),
        p.founded(sets, n + 1),
{
    assert(p.homes =~= p.homes.update(n as int, p.homes[n as int]));
    lemma_homely(p, p, sets, n);
    lemma_sorted_same(p, p, sets, words, n);
    assert forall|i: int, x: (LiveRangeKey, SpillSetIndex)|
        0 <= i < p.slots.len() && #[trigger] p.slots[i].ranges.contains(x) implies p.owns(
        sets,
        n + 1,
        i,
        x,
    ) by {
        assert(p.owns(sets, n, i, x));
    }
}

pub proof fn lemma_run(p: Placement, sets: Seq<SetView>, words: spec_fn(RegClass) -> nat, n: nat)
    requires
        p.is_new(),
        p.homes.len() == sets.len(),
        2 * sets.len() + 2 < u32::MAX,
        sets_ok(sets),
        n <= sets.len(),
    ensures
        p.place_all(sets, words, n).run(sets, words, n),
    decreases n,
{
    new_placements_are_grounded(p, words);
    lemma_in_step_all(p, sets, words, n);
    if n > 0 {
        let m = (n - 1) as nat;
        lemma_run(p, sets, words, m);
        lemma_in_step_all(p, sets, words, m);
        assert(sets[m as int].required ==> set_ok(sets[m as int]));
        lemma_run_place(p.place_all(sets, words, m), sets, words, m);
    }
}

/// The slots hold the ranges of the spill sets that need a slot: each in the slot that the
/// spill set is assigned to, once, and nothing else.
pub open spec fn hold_exactly(
    slots: Seq<SlotView>,
    homes: Seq<SpillSlotIndex>,
    sets: Seq<SetView>,
) -> bool {
    &&& forall|k: int|
        0 <= k < sets.len() && (#[trigger] sets[k]).required ==> {
            &&& homes[k].id < slots.len()
            &&& slots[homes[k].id as int].ranges.contains(
                (sets[k].range, SpillSetIndex { id: k as u32 }),
            )
        }
    &&& forall|i: int, a: int|
        0 <= i < slots.len() && 0 <= a < slots[i].ranges.len() ==> {
            let (range, k) = #[trigger] slots[i].ranges[a];
            &&& k.id < sets.len()
            &&& sets[k.id as int].required
            &&& sets[k.id as int].range == range
            &&& homes[k.id as int].id == i
        }
    &&& forall|i: int, a: int, j: int, b: int|
        {
            &&& 0 <= i < slots.len()
            &&& 0 <= j < slots.len()
            &&& 0 <= a < slots[i].ranges.len()
            &&& 0 <= b < slots[j].ranges.len()
            &&& (#[trigger] slots[i].ranges[a]).1 == (#[trigger] slots[j].ranges[b]).1
        } ==> i == j && a == b
}

/// In the end the slots hold the ranges of exactly those spill sets that need a slot, each
/// in the slot that the spill set is assigned to and once.
pub proof fn slots_hold_exactly_the_required_sets(
    p: Placement,
    sets: Seq<SetView>,
    words: spec_fn(RegClass) -> nat,
    num: int,
    by_last: bool,
)
    requires
        p.is_new(),
        p.homes.len() == sets.len(),
        2 * sets.len() + 2 < u32::MAX,
        sets_ok(sets),
    ensures
        ({
            let q = p.place_all(sets, words, sets.len());
            &&& hold_exactly(q.slots, q.homes, sets)
            &&& hold_exactly(laid_out(q.slots, num, by_last, q.slots.len()).0, q.homes, sets)
        }),
{
    let n = sets.len();
    let q = p.place_all(sets, words, n);
    let slots = q.slots;
    lemma_run(p, sets, words, n);
    assert forall|k: int| 0 <= k < n && (#[trigger] sets[k]).required implies {
        &&& q.homes[k].id < slots.len()
        &&& slots[q.homes[k].id as int].ranges.contains(
            (sets[k].range, SpillSetIndex { id: k as u32 }),
        )
    } by {
        assert(q.settled(sets, words, k));
    }
    assert forall|i: int, a: int|
        0 <= i < slots.len() && 0 <= a < slots[i].ranges.len() implies {
        let (range, k) = #[trigger] slots[i].ranges[a];
        &&& k.id < n
        &&& sets[k.id as int].required
        &&& sets[k.id as int].range == range
        &&& q.homes[k.id as int].id == i
    } by {
        let x = slots[i].ranges[a];
        assert(q.slots[i].ranges.contains(x));
        assert(q.owns(sets, n, i, x));
    }
    assert forall|i: int, a: int, j: int, b: int|
        {
            &&& 0 <= i < slots.len()
            &&& 0 <= j < slots.len()
            &&& 0 <= a < slots[i].ranges.len()
            &&& 0 <= b < slots[j].ranges.len()
            &&& (#[trigger] slots[i].ranges[a]).1 == (#[trigger] slots[j].ranges[b]).1
        } implies i == j && a == b by {
        let x = slots[i].ranges[a];
        let y = slots[j].ranges[b];
        assert(q.slots[i].ranges.contains(x));
        assert(q.owns(sets, n, i, x));
        assert(q.slots[j].ranges.contains(y));
        assert(q.owns(sets, n, j, y));
        assert(x == y);
        assert(slots[i].ranges.no_duplicates());
    }
    let out = laid_out(slots, num, by_last, slots.len()).0;
    lemma_laid_out_rest(slots, num, by_last, slots.len());
    assert forall|i: int, a: int|
        0 <= i < out.len() && 0 <= a < out[i].ranges.len() implies #[trigger] out[i].ranges[a]
        == slots[i].ranges[a] by {
        assert(out[i].ranges == slots[i].ranges);
    }
    assert forall|k: int| 0 <= k < n && (#[trigger] sets[k]).required implies {
        &&& q.homes[k].id < out.len()
        &&& out[q.homes[k].id as int].ranges.contains(
            (sets[k].range, SpillSetIndex { id: k as u32 }),
        )
    } by {
        assert(out[q.homes[k].id as int].ranges == slots[q.homes[k].id as int].ranges);
    }
    assert forall|i: int, a: int|
        0 <= i < out.len() && 0 <= a < out[i].ranges.len() implies {
        let (range, k) = #[trigger] out[i].ranges[a];
        &&& k.id < n
        &&& sets[k.id as int].required
        &&& sets[k.id as int].range == range
        &&& q.homes[k.id as int].id == i
    } by {
        assert(out[i].ranges == slots[i].ranges);
        assert(out[i].ranges[a] == slots[i].ranges[a]);
    }
    assert forall|i: int, a: int, j: int, b: int|
        {
            &&& 0 <= i < out.len()
            &&& 0 <= j < out.len()
            &&& 0 <= a < out[i].ranges.len()
            &&& 0 <= b < out[j].ranges.len()
            &&& (#[trigger] out[i].ranges[a]).1 == (#[trigger] out[j].ranges[b]).1
        } implies i == j && a == b by {
        assert(out[i].ranges == slots[i].ranges);
        assert(out[j].ranges == slots[j].ranges);
        assert(slots[i].ranges[a].1 == slots[j].ranges[b].1);
    }
}

/// A fixed home that a spill set in need of a slot asks for has one slot, without a size. The
/// map gives its number, no list names it, and only spill sets that ask for it are there.
pub proof fn fixed_homes_have_their_own_slots(
    p: Placement,
    sets: Seq<SetView>,
    words: spec_fn(RegClass) -> nat,
    f: u32,
)
    requires
        p.is_new(),
        p.homes.len() == sets.len(),
        2 * sets.len() + 2 < u32::MAX,
        sets_ok(sets),
    ensures
        ({
            let q = p.place_all(sets, words, sets.len());
            let i = q.fixed[f].id as int;
            &&& q.fixed.contains_key(f) <==> exists|k: int|
                0 <= k < sets.len() && (#[trigger] sets[k]).required && Placement::wish(sets[k])
                    == Some(f)
            &&& q.fixed.contains_key(f) ==> {
                &&& f != 0
                &&& i < q.slots.len()
                &&& q.slots[i].slots == 0
                &&& forall|j: int|
                    0 <= j < q.slots.len() ==> ((#[trigger] q.slots[j]).alloc == Allocation::Stack(
                        SpillSlot::Fixed(f),
                    ) <==> j == i)
                &&& forall|c: int, j: int| !#[trigger] q.listed(i, c, j)
                &&& forall|k: int|
                    0 <= k < sets.len() && (#[trigger] sets[k]).required && q.homes[k].id == i
                        ==> Placement::wish(sets[k]) == Some(f)
            }
        }),
{
    let n = sets.len();
    let q = p.place_all(sets, words, n);
    lemma_run(p, sets, words, n);
    if q.fixed.contains_key(f) {
        let i = q.fixed[f].id as int;
        assert(q.inhabited(sets, n, f));
        assert forall|j: int| 0 <= j < q.slots.len() implies ((#[trigger] q.slots[j]).alloc
            == Allocation::Stack(SpillSlot::Fixed(f)) <==> j == i) by {
            assert(q.slot_known(j));
        }
        assert forall|c: int, j: int| !#[trigger] q.listed(i, c, j) by {
            if q.listed(i, c, j) {
                assert(q.slots[q.lists[c].slots[j].id as int].alloc is Unassigned);
            }
        }
        assert forall|k: int|
            0 <= k < n && (#[trigger] sets[k]).required && q.homes[k].id == i implies Placement::wish(
            sets[k],
        ) == Some(f) by {
            assert(q.settled(sets, words, k));
        }
    }
}

/// A slot that is not that of a fixed home stands in the list of one register class, once. It
/// has the size of that class, and the spill sets there, at least one, have that class.
pub proof fn other_slots_belong_to_one_class(
    p: Placement,
    sets: Seq<SetView>,
    words: spec_fn(RegClass) -> nat,
    i: int,
)
    requires
        p.is_new(),
        p.homes.len() == sets.len(),
        2 * sets.len() + 2 < u32::MAX,
        sets_ok(sets),
        0 <= i < p.place_all(sets, words, sets.len()).slots.len(),
        p.place_all(sets, words, sets.len()).slots[i].alloc is Unassigned,
    ensures
        ({
            let q = p.place_all(sets, words, sets.len());
            exists|class: RegClass, j: int|
                {
                    &&& #[trigger] q.listed(i, class.number(), j)
                    &&& forall|d: int, l: int| #[trigger]
                        q.listed(i, d, l) ==> d == class.number() && l == j
                    &&& q.slots[i].slots == words(class) as u32
                    &&& forall|k: int|
                        0 <= k < sets.len() && (#[trigger] sets[k]).required && q.homes[k].id == i
                            ==> sets[k].class == class
                }
        }),
        ({
            let q = p.place_all(sets, words, sets.len());
            exists|k: int|
                0 <= k < sets.len() && (#[trigger] sets[k]).required && q.homes[k].id == i
        }),
{
    let n = sets.len();
    let q = p.place_all(sets, words, n);
    lemma_run(p, sets, words, n);
    let (c, j) = choose|c: int, j: int| #[trigger] q.listed(i, c, j);
    assert(q.has_founder(sets, n, c, j));
    let u = choose|u: int| #[trigger] q.founds(sets, n, c, j, u);
    assert(sets[u].required && q.homes[u].id == i);
    let class = sets[u].class;
    assert(q.listed(q.homes[u].id as int, c, j));
    assert(class.number() == c);
    assert(q.settled(sets, words, u));
    assert forall|k: int|
        0 <= k < n && (#[trigger] sets[k]).required && q.homes[k].id == i implies sets[k].class
        == class by {
        assert(q.listed(q.homes[k].id as int, c, j));
        assert(sets[k].class.number() == c);
    }
    assert(q.listed(i, class.number(), j));
}

/// The slot at one of the first places of a list was made only when no slot at a place before
/// it had room for its first spill set `u`.
pub proof fn slots_are_made_when_the_earlier_ones_are_taken(
    p: Placement,
    sets: Seq<SetView>,
    words: spec_fn(RegClass) -> nat,
    c: int,
    j: int,
    u: int,
    i: int,
)
    requires
        p.is_new(),
        p.homes.len() == sets.len(),
        2 * sets.len() + 2 < u32::MAX,
        sets_ok(sets),
        0 <= c < 3,
        0 <= i < j < p.place_all(sets, words, sets.len()).lists[c].slots.len(),
        j <= MAX_ATTEMPTS,
        0 <= u < sets.len(),
        sets[u].required,
        ({
            let q = p.place_all(sets, words, sets.len());
            let slot = q.lists[c].slots[j];
            &&& q.homes[u] == slot
            &&& forall|k: int|
                0 <= k < sets.len() && (#[trigger] sets[k]).required && q.homes[k] == slot ==> u
                    <= k
        }),
    ensures
        p.place_all(sets, words, sets.len()).taken_before(sets, c, i, u),
{
    let n = sets.len();
    let q = p.place_all(sets, words, n);
    lemma_run(p, sets, words, n);
    assert(q.has_founder(sets, n, c, j));
    let v = choose|v: int| #[trigger] q.founds(sets, n, c, j, v);
    assert(v <= u);
    assert(sets[v].required);
    assert(u <= v);
}

/// In the end every slot has a place on the stack: those of fixed homes keep theirs, and the
/// others get words of the frame.
pub proof fn every_slot_has_a_place(
    p: Placement,
    sets: Seq<SetView>,
    words: spec_fn(RegClass) -> nat,
    num: int,
    by_last: bool,
    i: int,
)
    requires
        p.is_new(),
        p.homes.len() == sets.len(),
        2 * sets.len() + 2 < u32::MAX,
        sets_ok(sets),
        num >= 0,
        frame_fits(p.place_all(sets, words, sets.len()).slots, num, by_last),
        0 <= i < p.place_all(sets, words, sets.len()).slots.len(),
    ensures
        ({
            let slots = p.place_all(sets, words, sets.len()).slots;
            let out = laid_out(slots, num, by_last, slots.len()).0;
            &&& out.len() == slots.len()
            &&& match slots[i].alloc {
                Allocation::Stack(SpillSlot::Fixed(f)) => out[i] == slots[i],
                Allocation::Unassigned => out[i].alloc matches Allocation::Stack(
                    SpillSlot::Frame(_),
                ),
                _ => false,
            }
        }),
{
    let q = p.place_all(sets, words, sets.len());
    lemma_run(p, sets, words, sets.len());
    assert(q.slot_known(i));
    slots_are_laid_out_in_the_frame(q.slots, num, by_last, i);
}

/// The frame does not grow where every spill set that needs a slot has a fixed home.
pub proof fn fixed_homes_take_no_frame(
    p: Placement,
    sets: Seq<SetView>,
    words: spec_fn(RegClass) -> nat,
    num: int,
    by_last: bool,
)
    requires
        p.is_new(),
        p.homes.len() == sets.len(),
        2 * sets.len() + 2 < u32::MAX,
        sets_ok(sets),
        forall|k: int|
            0 <= k < sets.len() && (#[trigger] sets[k]).required ==> {
                let q = p.place_all(sets, words, sets.len());
                q.slots[q.homes[k].id as int].alloc matches Allocation::Stack(SpillSlot::Fixed(_))
            },
    ensures
        ({
            let slots = p.place_all(sets, words, sets.len()).slots;
            laid_out(slots, num, by_last, slots.len()) == (slots, num)
        }),
{
    let q = p.place_all(sets, words, sets.len());
    assert forall|i: int| 0 <= i < q.slots.len() implies (
    #[trigger] q.slots[i]).alloc !is Unassigned by {
        if q.slots[i].alloc is Unassigned {
            other_slots_belong_to_one_class(p, sets, words, i);
            let k = choose|k: int|
                0 <= k < sets.len() && (#[trigger] sets[k]).required && q.homes[k].id == i;
            assert(q.slots[q.homes[k].id as int].alloc is Unassigned);
        }
    }
    slots_with_places_take_no_frame(q.slots, num, by_last, q.slots.len());
}

} // verus!
