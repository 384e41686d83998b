//! Which slot each spill set goes to, in a run of the spill stage that begins with nothing
//! placed, and where the slots come to lie.
use crate::ranges::LiveRangeKey;
use crate::regs::RegClass;
use crate::spill::{
    frame_fits, is_power_of_two, laid_out, lemma_laid_out_rest, n_required, set_ok, sets_ok,
    Placement, SetView, SlotView, MAX_ATTEMPTS,
};
use crate::spill_data::{next_in, Allocation, SpillSetIndex, SpillSlot, SpillSlotIndex};
use crate::spill_laws::{
    first_word, lemma_in_step_all, lemma_place_after, lemma_power_positive, lemma_probe_fits,
    place_after, slots_are_laid_out_in_the_frame, word_of,
};
use crate::spill_runs::lemma_run;
use vstd::prelude::*;

verus! {

/// Among the first `n` spill sets, one that needs a slot and is assigned to `slot` overlaps
/// `range`.
pub open spec fn occupied(
    homes: Seq<SpillSlotIndex>,
    sets: Seq<SetView>,
    n: int,
    slot: SpillSlotIndex,
    range: LiveRangeKey,
) -> bool {
    exists|t: int|
        {
            &&& 0 <= t < n
            &&& (#[trigger] sets[t]).required
            &&& homes[t] == slot
            &&& sets[t].range.overlaps(range)
        }
}

/// What was decided stays: spill sets keep their slots, fixed homes theirs, and lists only
/// get longer.
spec fn stays(p: Placement, q: Placement, n: int) -> bool {
    &&& q.homes.len() == p.homes.len()
    &&& forall|k: int| 0 <= k < n ==> #[trigger] q.homes[k] == p.homes[k]
    &&& forall|f: u32| #[trigger]
        p.fixed.contains_key(f) ==> q.fixed.contains_key(f) && q.fixed[f] == p.fixed[f]
    &&& p.slots.len() <= q.slots.len()
    &&& forall|i: int| 0 <= i < p.slots.len() ==> (#[trigger] q.slots[i]).alloc == p.slots[i].alloc
    &&& q.lists.len() == p.lists.len()
    &&& forall|c: int|
        0 <= c < p.lists.len() ==> p.lists[c].slots.is_prefix_of((#[trigger] q.lists[c]).slots)
}

proof fn lemma_stays_place(p: Placement, sets: Seq<SetView>, words: spec_fn(RegClass) -> nat, k: int)
    requires
        p.usable(),
        0 <= k < p.homes.len(),
        p.slots.len() + 1 < u32::MAX,
    ensures
        stays(p, p.place(k, sets[k], words(sets[k].class)), k),
{
    let set = sets[k];
    let c = set.class.number();
    let q = p.place(k, set, words(set.class));
    if set.required {
        let h = if Placement::wish(set) is Some {
            p.home(Placement::wish(set)->0).0
        } else {
            p
        };
        assert(stays(p, h, k));
        assert(q.lists.len() == 3);
        assert forall|d: int| 0 <= d < 3 implies p.lists[d].slots.is_prefix_of(
            (#[trigger] q.lists[d]).slots,
        ) by {
            assert(h.lists == p.lists);
        }
        lemma_probe_fits(
            h,
            c,
            set.range,
            h.lists[c].probe_start,
            if h.lists[c].slots.len() < MAX_ATTEMPTS {
                h.lists[c].slots.len()
            } else {
                MAX_ATTEMPTS as nat
            },
        );
        if h.found(c, set.range) is Some {
            assert(h.lists[c].slots[h.found(c, set.range)->0].id < h.slots.len());
        }
    }
}

proof fn lemma_stays(
    p: Placement,
    sets: Seq<SetView>,
    words: spec_fn(RegClass) -> nat,
    m: nat,
    n: nat,
)
    requires
        p.is_new(),
        p.homes.len() == sets.len(),
        2 * sets.len() + 2 < u32::MAX,
        sets_ok(sets),
        m <= n <= sets.len(),
    ensures
        stays(p.place_all(sets, words, m), p.place_all(sets, words, n), m as int),
    decreases n - m,
{
    if m < n {
        let l = (n - 1) as nat;
        lemma_stays(p, sets, words, m, l);
        lemma_run(p, sets, words, l);
        lemma_in_step_all(p, sets, words, l);
        let a = p.place_all(sets, words, m);
        let b = p.place_all(sets, words, l);
        let c = p.place_all(sets, words, n);
        lemma_stays_place(b, sets, words, l as int);
        assert forall|k: int| 0 <= k < m implies #[trigger] c.homes[k] == a.homes[k] by {
            assert(b.homes[k] == a.homes[k]);
        }
        assert forall|i: int| 0 <= i < a.slots.len() implies (#[trigger] c.slots[i]).alloc
            == a.slots[i].alloc by {
            assert(b.slots[i].alloc == a.slots[i].alloc);
        }
        assert forall|d: int| 0 <= d < a.lists.len() implies a.lists[d].slots.is_prefix_of(
            (#[trigger] c.lists[d]).slots,
        ) by {
            assert(a.lists[d].slots.is_prefix_of(b.lists[d].slots));
        }
    }
}

/// A slot that a range does not fit in is occupied.
proof fn lemma_occupied(
    p: Placement,
    sets: Seq<SetView>,
    n: nat,
    slot: SpillSlotIndex,
    range: LiveRangeKey,
)
    requires
        p.owned(sets, n),
        slot.id < p.slots.len(),
        !p.fits(slot, range),
    ensures
        occupied(p.homes, sets, n as int, slot, range),
{
    let ranges = p.slots[slot.id as int].ranges;
    let b = choose|b: int| 0 <= b < ranges.len() && (#[trigger] ranges[b]).0.overlaps(range);
    let x = ranges[b];
    assert(p.slots[slot.id as int].ranges.contains(x));
    assert(p.owns(sets, n, slot.id as int, x));
    let t = x.1.id as int;
    assert(sets[t].required && p.homes[t] == slot);
}

/// A slot that a range fits in is not.
proof fn lemma_not_occupied(
    p: Placement,
    sets: Seq<SetView>,
    words: spec_fn(RegClass) -> nat,
    n: nat,
    slot: SpillSlotIndex,
    range: LiveRangeKey,
)
    requires
        p.in_step(sets, words, n),
        p.fits(slot, range),
    ensures
        !occupied(p.homes, sets, n as int, slot, range),
{
    if occupied(p.homes, sets, n as int, slot, range) {
        let t = choose|t: int|
            {
                &&& 0 <= t < n
                &&& (#[trigger] sets[t]).required
                &&& p.homes[t] == slot
                &&& sets[t].range.overlaps(range)
            };
        assert(p.settled(sets, words, t));
        let ranges = p.slots[slot.id as int].ranges;
        let x = (sets[t].range, SpillSetIndex { id: t as u32 });
        let b = choose|b: int| 0 <= b < ranges.len() && ranges[b] == x;
        assert(ranges[b].0.overlaps(range));
    }
}

/// Whether a spill set is occupied depends on the earlier ones only.
proof fn lemma_occupied_later(
    p: Placement,
    q: Placement,
    sets: Seq<SetView>,
    n: int,
    slot: SpillSlotIndex,
    range: LiveRangeKey,
)
    requires
        stays(p, q, n),
    ensures
        occupied(q.homes, sets, n, slot, range) == occupied(p.homes, sets, n, slot, range),
{
    if occupied(p.homes, sets, n, slot, range) {
        let t = choose|t: int|
            {
                &&& 0 <= t < n
                &&& (#[trigger] sets[t]).required
                &&& p.homes[t] == slot
                &&& sets[t].range.overlaps(range)
            };
        assert(q.homes[t] == p.homes[t]);
        assert(sets[t].required);
    }
    if occupied(q.homes, sets, n, slot, range) {
        let t = choose|t: int|
            {
                &&& 0 <= t < n
                &&& (#[trigger] sets[t]).required
                &&& q.homes[t] == slot
                &&& sets[t].range.overlaps(range)
            };
        assert(q.homes[t] == p.homes[t]);
        assert(sets[t].required);
    }
}

/// A spill set that needs a slot and asks for a fixed home is there in the end, unless its
/// range overlaps that of an earlier spill set that is.
pub proof fn free_homes_are_granted(
    p: Placement,
    sets: Seq<SetView>,
    words: spec_fn(RegClass) -> nat,
    k: int,
    f: u32,
)
    requires
        p.is_new(),
        p.homes.len() == sets.len(),
        2 * sets.len() + 2 < u32::MAX,
        sets_ok(sets),
        0 <= k < sets.len(),
        sets[k].required,
        sets[k].fixed_slot == Some(SpillSlot::Fixed(f)),
        f != 0,
    ensures
        ({
            let q = p.place_all(sets, words, sets.len());
            let home = q.homes[k];
            let alloc = q.slots[home.id as int].alloc;
            &&& q.fixed.contains_key(f)
            &&& alloc == Allocation::Stack(SpillSlot::Fixed(f)) <==> home == q.fixed[f]
            &&& home == q.fixed[f] <==> !occupied(q.homes, sets, k, q.fixed[f], sets[k].range)
        }),
{
    let n = sets.len();
    let q = p.place_all(sets, words, n);
    let before = p.place_all(sets, words, k as nat);
    let after = p.place_all(sets, words, (k + 1) as nat);
    let set = sets[k];
    assert(Placement::wish(set) == Some(f));
    assert(set_ok(set));
    lemma_run(p, sets, words, k as nat);
    lemma_run(p, sets, words, (k + 1) as nat);
    lemma_run(p, sets, words, n);
    lemma_in_step_all(p, sets, words, k as nat);
    lemma_stays(p, sets, words, k as nat, (k + 1) as nat);
    lemma_stays(p, sets, words, (k + 1) as nat, n);
    lemma_stays(p, sets, words, k as nat, n);
    assert(after == before.place(k, set, words(set.class)));
    let (h, i) = before.home(f);
    assert(after.fixed.contains_key(f));
    assert(q.homes[k] == after.homes[k]);
    if !before.fixed.contains_key(f) {
        assert(h.slots[i.id as int].ranges.len() == 0);
        assert(h.fits(i, set.range));
        assert(after == h.put(k, set.range, i));
        assert(q.homes[k] == q.fixed[f]);
        if occupied(before.homes, sets, k, i, set.range) {
            let t = choose|t: int|
                {
                    &&& 0 <= t < k
                    &&& (#[trigger] sets[t]).required
                    &&& before.homes[t] == i
                    &&& sets[t].range.overlaps(set.range)
                };
            assert(before.settled(sets, words, t));
        }
        lemma_occupied_later(before, q, sets, k, i, set.range);
    } else {
        assert(q.fixed[f] == before.fixed[f] && h == before && i == before.fixed[f]);
        assert(i.id < before.slots.len());
        lemma_occupied_later(before, q, sets, k, i, set.range);
        if before.fits(i, set.range) {
            lemma_not_occupied(before, sets, words, k as nat, i, set.range);
            assert(after == before.put(k, set.range, i));
        } else {
            lemma_occupied(before, sets, k as nat, i, set.range);
            assert(after == before.auto(k, set, words(set.class)));
            lemma_auto_listed(before, set, words(set.class), k);
            let c = set.class.number();
            let j = choose|j: int|
                0 <= j < after.lists[c].slots.len() && #[trigger] after.lists[c].slots[j]
                    == after.homes[k];
            assert(after.slots[after.lists[c].slots[j].id as int].alloc is Unassigned);
            assert(q.homes[k] != q.fixed[f]);
        }
    }
    assert(q.settled(sets, words, k));
    assert(q.slot_known(q.homes[k].id as int));
}

/// A spill set that goes to a slot of its class goes to one of the list.
proof fn lemma_auto_listed(p: Placement, set: SetView, words: nat, k: int)
    requires
        p.usable(),
        p.slots.len() < u32::MAX,
        0 <= k < p.homes.len(),
    ensures
        exists|j: int|
            0 <= j < p.auto(k, set, words).lists[set.class.number()].slots.len()
                && #[trigger] p.auto(k, set, words).lists[set.class.number()].slots[j] == p.auto(
                k,
                set,
                words,
            ).homes[k],
{
    let c = set.class.number();
    let list = p.lists[c];
    let q = p.auto(k, set, words);
    let attempts = if list.slots.len() < MAX_ATTEMPTS {
        list.slots.len()
    } else {
        MAX_ATTEMPTS as nat
    };
    lemma_probe_fits(p, c, set.range, list.probe_start, attempts);
    match p.found(c, set.range) {
        Some(i) => {
            assert(q.lists[c].slots[i] == q.homes[k]);
        },
        None => {
            assert(q.lists[c].slots[list.slots.len() as int] == q.homes[k]);
        },
    }
}

/// The slot at the place `s` of the list of the class `c` is the one of the spill set that
/// was assigned last to a slot of the list, among the first `n`.
pub open spec fn latest(p: Placement, sets: Seq<SetView>, n: int, c: int, s: int) -> bool {
    exists|u: int|
        {
            &&& 0 <= u < n
            &&& (#[trigger] sets[u]).required
            &&& p.homes[u] == p.lists[c].slots[s]
            &&& forall|t: int|
                u < t < n && (#[trigger] sets[t]).required ==> !p.lists[c].slots.contains(
                    p.homes[t],
                )
        }
}

/// The place in a list of `len` slots that is tried after `a` others, from the place `s` on.
pub open spec fn around(s: int, a: int, len: nat) -> int {
    if s + a < len {
        s + a
    } else {
        s + a - len
    }
}

/// The spill set `k` goes to the first slot with room for it, among the ten from the one that
/// was used last; if none of them has room, to a new slot at the end of the list.
pub open spec fn goes_round(
    before: Placement,
    after: Placement,
    sets: Seq<SetView>,
    k: int,
    s: int,
    a: int,
) -> bool {
    let c = sets[k].class.number();
    let list = before.lists[c].slots;
    let tries: int = if list.len() < 10 {
        list.len() as int
    } else {
        10
    };
    &&& 0 <= a <= tries
    &&& list.len() > 0 ==> 0 <= s < list.len() && latest(before, sets, k, c, s)
    &&& forall|b: int|
        0 <= b < a ==> occupied(
            before.homes,
            sets,
            k,
            list[#[trigger] around(s, b, list.len())],
            sets[k].range,
        )
    &&& if a < tries {
        &&& !occupied(before.homes, sets, k, list[around(s, a, list.len())], sets[k].range)
        &&& after.homes[k] == list[around(s, a, list.len())]
        &&& after.slots.len() == before.slots.len()
        &&& after.lists[c].slots == list
    } else {
        &&& after.homes[k].id == before.slots.len()
        &&& after.slots.len() == before.slots.len() + 1
        &&& after.lists[c].slots == list.push(after.homes[k])
    }
}

/// The search begins where the last one ended.
spec fn remembers(p: Placement, sets: Seq<SetView>, n: int) -> bool {
    forall|c: int|
        0 <= c < 3 && (#[trigger] p.lists[c]).slots.len() > 0 ==> latest(
            p,
            sets,
            n,
            c,
            p.lists[c].probe_start,
        )
}

proof fn lemma_remembers_step(
    a: Placement,
    b: Placement,
    sets: Seq<SetView>,
    words: spec_fn(RegClass) -> nat,
    k: int,
    c: int,
)
    requires
        0 <= k < sets.len(),
        a.grounded(words),
        b.grounded(words),
        a.homes.len() == sets.len(),
        a.slots.len() + 1 < u32::MAX,
        b == a.place(k, sets[k], words(sets[k].class)),
        0 <= c < 3,
        b.sorted(sets, (k + 1) as nat),
        stays(a, b, k),
        remembers(a, sets, k),
        b.lists[c].slots.len() > 0,
    ensures
        latest(b, sets, k + 1, c, b.lists[c].probe_start),
{
    if b.lists[c] == a.lists[c] && !(sets[k].required && b.lists[c].slots.contains(b.homes[k])) {
        assert(a.lists[c].slots.len() > 0);
        lemma_latest_kept(a, b, sets, k, c);
    } else {
        lemma_latest_new(a, b, sets, words, k, c);
    }
}

proof fn lemma_remembers(
    p: Placement,
    sets: Seq<SetView>,
    words: spec_fn(RegClass) -> nat,
    n: nat,
)
    requires
        p.is_new(),
        p.homes.len() == sets.len(),
        2 * sets.len() + 2 < u32::MAX,
        sets_ok(sets),
        n <= sets.len(),
    ensures
        remembers(p.place_all(sets, words, n), sets, n as int),
    decreases n,
{
    if n > 0 {
        let m = (n - 1) as nat;
        let a = p.place_all(sets, words, m);
        let b = p.place_all(sets, words, n);
        lemma_remembers(p, sets, words, m);
        assert(stays(a, b, m as int)) by {
            lemma_stays(p, sets, words, m, n);
        }
        assert(b.sorted(sets, n) && b.grounded(words)) by {
            lemma_run(p, sets, words, n);
        }
        assert(a.grounded(words) && a.homes.len() == sets.len() && a.slots.len() <= 2 * m) by {
            lemma_run(p, sets, words, m);
            lemma_in_step_all(p, sets, words, m);
        }
        assert(b == a.place(m as int, sets[m as int], words(sets[m as int].class)));
        assert forall|c: int| 0 <= c < 3 && (#[trigger] b.lists[c]).slots.len() > 0 implies latest(
            b,
            sets,
            n as int,
            c,
            b.lists[c].probe_start,
        ) by {
            lemma_remembers_step(a, b, sets, words, m as int, c);
        }
    }
}

/// A spill set that does not go to the list leaves what was used last.
proof fn lemma_latest_kept(a: Placement, b: Placement, sets: Seq<SetView>, k: int, c: int)
    requires
        stays(a, b, k),
        b.lists[c] == a.lists[c],
        0 <= c < 3,
        0 <= k < sets.len(),
        sets[k].required ==> !b.lists[c].slots.contains(b.homes[k]),
        latest(a, sets, k, c, a.lists[c].probe_start),
    ensures
        latest(b, sets, k + 1, c, b.lists[c].probe_start),
{
    let s = a.lists[c].probe_start;
    let u = choose|u: int|
        {
            &&& 0 <= u < k
            &&& (#[trigger] sets[u]).required
            &&& a.homes[u] == a.lists[c].slots[s]
            &&& forall|t: int|
                u < t < k && (#[trigger] sets[t]).required ==> !a.lists[c].slots.contains(
                    a.homes[t],
                )
        };
    assert(b.homes[u] == a.homes[u]);
    assert forall|t: int| u < t < k + 1 && (#[trigger] sets[t]).required implies !b.lists[c].slots.contains(
        b.homes[t],
    ) by {
        if t < k {
            assert(b.homes[t] == a.homes[t]);
        }
    }
    assert(sets[u].required);
}

/// A spill set that goes to the list is the one that used it last.
proof fn lemma_latest_new(
    a: Placement,
    b: Placement,
    sets: Seq<SetView>,
    words: spec_fn(RegClass) -> nat,
    k: int,
    c: int,
)
    requires
        0 <= k < sets.len(),
        a.grounded(words),
        b.grounded(words),
        a.homes.len() == sets.len(),
        a.slots.len() + 1 < u32::MAX,
        b == a.place(k, sets[k], words(sets[k].class)),
        0 <= c < 3,
        b.lists[c] != a.lists[c] || sets[k].required && b.lists[c].slots.contains(b.homes[k]),
        b.sorted(sets, (k + 1) as nat),
    ensures
        latest(b, sets, k + 1, c, b.lists[c].probe_start),
{
    let set = sets[k];
    assert(set.required);
    let wish = Placement::wish(set);
    let h = if wish is Some {
        a.home(wish->0).0
    } else {
        a
    };
    let d = set.class.number();
    if wish is Some && h.fits(a.home(wish->0).1, set.range) {
        let i = a.home(wish->0).1;
        assert(b == h.put(k, set.range, i));
        assert(b.lists == a.lists);
        assert(b.fixed.contains_key(wish->0) && b.fixed[wish->0] == i);
        let j = choose|j: int| 0 <= j < b.lists[c].slots.len() && b.lists[c].slots[j] == b.homes[k];
        assert(b.slots[b.lists[c].slots[j].id as int].alloc is Unassigned);
        assert(false);
    }
    assert(b == h.auto(k, set, words(set.class)));
    assert(h.lists == a.lists);
    let list = h.lists[d];
    let attempts = if list.slots.len() < MAX_ATTEMPTS {
        list.slots.len()
    } else {
        MAX_ATTEMPTS as nat
    };
    lemma_probe_fits(h, d, set.range, list.probe_start, attempts);
    let s = match h.found(d, set.range) {
        Some(i) => i,
        None => list.slots.len() as int,
    };
    assert(b.lists[d].slots[s] == b.homes[k] && b.lists[d].probe_start == s);
    assert(b.listed(b.homes[k].id as int, d, s));
    if c != d {
        assert(b.lists[c] == a.lists[c]);
        let j = choose|j: int| 0 <= j < b.lists[c].slots.len() && b.lists[c].slots[j] == b.homes[k];
        assert(b.listed(b.homes[k].id as int, c, j));
        assert(false);
    }
    assert(sets[k].required);
}

/// A spill set that needs a slot and gets no fixed home goes to a slot of its class: the first
/// with room for it, among up to ten from the one that was used last, or a new one.
pub proof fn other_sets_go_round(
    p: Placement,
    sets: Seq<SetView>,
    words: spec_fn(RegClass) -> nat,
    k: int,
)
    requires
        p.is_new(),
        p.homes.len() == sets.len(),
        2 * sets.len() + 2 < u32::MAX,
        sets_ok(sets),
        0 <= k < sets.len(),
        sets[k].required,
        p.place_all(sets, words, sets.len()).slots[p.place_all(
            sets,
            words,
            sets.len(),
        ).homes[k].id as int].alloc is Unassigned,
    ensures
        exists|s: int, a: int| #[trigger]
            goes_round(
                p.place_all(sets, words, k as nat),
                p.place_all(sets, words, (k + 1) as nat),
                sets,
                k,
                s,
                a,
            ),
        p.place_all(sets, words, sets.len()).homes[k] == p.place_all(
            sets,
            words,
            (k + 1) as nat,
        ).homes[k],
{
    let n = sets.len();
    let q = p.place_all(sets, words, n);
    let before = p.place_all(sets, words, k as nat);
    let after = p.place_all(sets, words, (k + 1) as nat);
    let set = sets[k];
    let c = set.class.number();
    assert(set_ok(set));
    lemma_run(p, sets, words, k as nat);
    lemma_run(p, sets, words, n);
    lemma_run(p, sets, words, (k + 1) as nat);
    lemma_in_step_all(p, sets, words, k as nat);
    lemma_in_step_all(p, sets, words, (k + 1) as nat);
    lemma_remembers(p, sets, words, k as nat);
    lemma_stays(p, sets, words, (k + 1) as nat, n);
    assert(q.homes[k] == after.homes[k]);
    assert(after.settled(sets, words, k));
    let wish = Placement::wish(set);
    if wish is Some {
        let f = wish->0;
        let (h, i) = before.home(f);
        if !before.fixed.contains_key(f) {
            assert(h.slots[i.id as int].ranges.len() == 0);
        }
        if h.fits(i, set.range) {
            assert(after == h.put(k, set.range, i));
            assert(after.fixed.contains_key(f) && after.fixed[f] == i);
            assert(after.slots[i.id as int].alloc == Allocation::Stack(SpillSlot::Fixed(f)));
            assert(q.slots[i.id as int].alloc == after.slots[i.id as int].alloc);
            assert(false);
        }
    }
    assert(after == before.auto(k, set, words(set.class)));
    let list = before.lists[c].slots;
    let len = list.len();
    let tries: nat = if len < MAX_ATTEMPTS {
        len
    } else {
        MAX_ATTEMPTS as nat
    };
    let s = before.lists[c].probe_start;
    assert(before.lists[c].slots.len() > 0 ==> latest(before, sets, k, c, s));
    let a = lemma_probe_first(before, c, set.range, s, tries);
    assert forall|b: int| 0 <= b < a implies occupied(
        before.homes,
        sets,
        k,
        list[#[trigger] around(s, b, len)],
        set.range,
    ) by {
        lemma_place_after(len, s, b as nat);
        assert(place_after(len, s, b as nat) == around(s, b, len));
        assert(before.lists[c].slots[around(s, b, len)].id < before.slots.len());
        lemma_occupied(before, sets, k as nat, list[around(s, b, len)], set.range);
    }
    if a < tries {
        lemma_place_after(len, s, a as nat);
        assert(before.lists[c].slots[around(s, a, len)].id < before.slots.len());
        lemma_not_occupied(before, sets, words, k as nat, list[around(s, a, len)], set.range);
    }
    assert(goes_round(before, after, sets, k, s, a));
}

/// How many places are passed over until one with room is found.
proof fn lemma_probe_first(p: Placement, c: int, range: LiveRangeKey, i: int, tries: nat) -> (a: int)
    requires
        tries > 0 ==> 0 <= i < p.lists[c].slots.len(),
        tries <= p.lists[c].slots.len(),
    ensures
        0 <= a <= tries,
        forall|b: nat|
            b < a ==> !p.fits(
                p.lists[c].slots[#[trigger] place_after(p.lists[c].slots.len(), i, b)],
                range,
            ),
        a < tries ==> p.fits(
            p.lists[c].slots[place_after(p.lists[c].slots.len(), i, a as nat)],
            range,
        ) && p.probe(c, range, i, tries) == Some(
            place_after(p.lists[c].slots.len(), i, a as nat),
        ),
        a == tries ==> p.probe(c, range, i, tries) is None,
    decreases tries,
{
    let n = p.lists[c].slots.len();
    if tries == 0 {
        0
    } else if p.fits(p.lists[c].slots[i], range) {
        0
    } else {
        let next = next_in(n, i);
        let a = lemma_probe_first(p, c, range, next, (tries - 1) as nat);
        assert forall|b: nat| b < a + 1 implies !p.fits(
            p.lists[c].slots[#[trigger] place_after(n, i, b)],
            range,
        ) by {
            if b > 0 {
                assert(place_after(n, i, b) == place_after(n, next, (b - 1) as nat));
            }
        }
        assert(place_after(n, i, (a + 1) as nat) == place_after(n, next, a as nat));
        a + 1
    }
}

/// How many of the first `n` spill sets that need a slot are in a fixed home.
pub open spec fn in_homes(slots: Seq<SlotView>, homes: Seq<SpillSlotIndex>, sets: Seq<SetView>, n: nat) -> nat
    decreases n,
{
    if n == 0 {
        0
    } else {
        let k = n - 1;
        in_homes(slots, homes, sets, (n - 1) as nat) + if sets[k].required
            && slots[homes[k].id as int].alloc matches Allocation::Stack(SpillSlot::Fixed(_)) {
            1nat
        } else {
            0nat
        }
    }
}

proof fn lemma_in_homes_later(p: Placement, q: Placement, sets: Seq<SetView>, words: spec_fn(RegClass) -> nat, n: nat)
    requires
        stays(p, q, n as int),
        p.in_step(sets, words, n),
        n <= sets.len(),
    ensures
        in_homes(q.slots, q.homes, sets, n) == in_homes(p.slots, p.homes, sets, n),
{
    lemma_in_homes_part(p, q, sets, words, n, n);
}

proof fn lemma_in_homes_part(
    p: Placement,
    q: Placement,
    sets: Seq<SetView>,
    words: spec_fn(RegClass) -> nat,
    n: nat,
    m: nat,
)
    requires
        stays(p, q, n as int),
        p.in_step(sets, words, n),
        m <= n <= sets.len(),
    ensures
        in_homes(q.slots, q.homes, sets, m) == in_homes(p.slots, p.homes, sets, m),
    decreases m,
{
    if m > 0 {
        lemma_in_homes_part(p, q, sets, words, n, (m - 1) as nat);
        let k = m - 1;
        assert(q.homes[k] == p.homes[k]);
        if sets[k].required {
            assert(p.settled(sets, words, k));
            assert(q.slots[p.homes[k].id as int].alloc == p.slots[p.homes[k].id as int].alloc);
        }
    }
}

/// The count of spill sets with a fixed home is that of those that are in one in the end, and
/// the count of those that need a slot is right too.
pub proof fn counts_are_those_of_the_outcome(
    p: Placement,
    sets: Seq<SetView>,
    words: spec_fn(RegClass) -> nat,
    n: nat,
)
    requires
        p.is_new(),
        p.homes.len() == sets.len(),
        2 * sets.len() + 2 < u32::MAX,
        sets_ok(sets),
        n <= sets.len(),
    ensures
        p.n_fixed(sets, words, n) == in_homes(
            p.place_all(sets, words, n).slots,
            p.place_all(sets, words, n).homes,
            sets,
            n,
        ),
        n_required(sets, n) == sets.take(n as int).filter(|s: SetView| s.required).len(),
    decreases n,
{
    reveal(Seq::filter);
    if n > 0 {
        let m = (n - 1) as nat;
        let k = m as int;
        let set = sets[k];
        counts_are_those_of_the_outcome(p, sets, words, m);
        assert(sets.take(n as int).drop_last() =~= sets.take(k));
        let a = p.place_all(sets, words, m);
        let b = p.place_all(sets, words, n);
        lemma_run(p, sets, words, m);
        lemma_run(p, sets, words, n);
        lemma_in_step_all(p, sets, words, m);
        lemma_stays(p, sets, words, m, n);
        lemma_in_homes_later(a, b, sets, words, m);
        if set.required {
            assert(set_ok(set));
            assert(b.settled(sets, words, k));
            if a.granted(set) {
                let f = Placement::wish(set)->0;
                assert(b.fixed.contains_key(f) && b.fixed[f] == b.homes[k]);
            } else {
                let h = if Placement::wish(set) is Some {
                    a.home(Placement::wish(set)->0).0
                } else {
                    a
                };
                assert(h.usable());
                assert(h.slots.len() < u32::MAX);
                assert(b == h.auto(k, set, words(set.class)));
                lemma_auto_listed(h, set, words(set.class), k);
                let c = set.class.number();
                let j = choose|j: int|
                    0 <= j < b.lists[c].slots.len() && #[trigger] b.lists[c].slots[j] == b.homes[k];
                assert(b.slots[b.lists[c].slots[j].id as int].alloc is Unassigned);
            }
        }
    } else {
        assert(sets.take(0) =~= Seq::empty());
    }
}

/// Where the last slot before the slot `i` that is laid out in the frame ends: `end`.
pub open spec fn ends_before(
    slots: Seq<SlotView>,
    out: Seq<SlotView>,
    num: int,
    by_last: bool,
    i: int,
    end: int,
) -> bool {
    ||| end == num && forall|j: int|
        0 <= j < i ==> (#[trigger] slots[j]).alloc !is Unassigned
    ||| exists|l: int|
        {
            &&& 0 <= l < i
            &&& (#[trigger] slots[l]).alloc is Unassigned
            &&& forall|j: int| l < j < i ==> (#[trigger] slots[j]).alloc !is Unassigned
            &&& out[l].alloc matches Allocation::Stack(SpillSlot::Frame(a)) && end == word_of(
                a,
                slots[l].slots,
                by_last,
            ) + slots[l].slots
        }
}

/// A slot that has no place yet begins at the next multiple of its size behind the one before
/// it, and the frame ends behind the last one: no more is lost than the alignment asks for.
pub proof fn the_frame_is_packed(slots: Seq<SlotView>, num: int, by_last: bool, i: int, end: int)
    requires
        num >= 0,
        frame_fits(slots, num, by_last),
        0 <= i <= slots.len(),
        ends_before(slots, laid_out(slots, num, by_last, slots.len()).0, num, by_last, i, end),
    ensures
        i == slots.len() ==> laid_out(slots, num, by_last, slots.len()).1 == end,
        i < slots.len() && slots[i].alloc is Unassigned ==> (laid_out(
            slots,
            num,
            by_last,
            slots.len(),
        ).0[i].alloc matches Allocation::Stack(SpillSlot::Frame(a)) && {
            let first = word_of(a, slots[i].slots, by_last);
            &&& end <= first < end + slots[i].slots
            &&& first % (slots[i].slots as int) == 0
        }),
{
    let n = slots.len();
    let out = laid_out(slots, num, by_last, n).0;
    assert(laid_out(slots, num, by_last, i as nat).1 == end) by {
        if end == num && forall|j: int| 0 <= j < i ==> (#[trigger] slots[j]).alloc !is Unassigned {
            lemma_same_frame(slots, num, by_last, 0, i as nat);
        } else {
            let l = choose|l: int|
                {
                    &&& 0 <= l < i
                    &&& (#[trigger] slots[l]).alloc is Unassigned
                    &&& forall|j: int| l < j < i ==> (#[trigger] slots[j]).alloc !is Unassigned
                    &&& out[l].alloc matches Allocation::Stack(SpillSlot::Frame(a)) && end
                        == word_of(a, slots[l].slots, by_last) + slots[l].slots
                };
            slots_are_laid_out_in_the_frame(slots, num, by_last, l);
            lemma_laid_out_at(slots, num, by_last, l as nat);
            lemma_same_frame(slots, num, by_last, (l + 1) as nat, i as nat);
        }
    }
    if i < n && slots[i].alloc is Unassigned {
        slots_are_laid_out_in_the_frame(slots, num, by_last, i);
        let size = slots[i].slots as int;
        assert(is_power_of_two(size));
        lemma_power_positive(size);
        let q = (end + size - 1) / size;
        assert(end <= q * size && q * size < end + size) by (nonlinear_arith)
            requires
                size >= 1,
                q == (end + size - 1) / size,
        ;
    }
}

/// Slots that have a place do not change the frame.
proof fn lemma_same_frame(slots: Seq<SlotView>, num: int, by_last: bool, m: nat, n: nat)
    requires
        m <= n <= slots.len(),
        forall|j: int| m <= j < n ==> (#[trigger] slots[j]).alloc !is Unassigned,
    ensures
        laid_out(slots, num, by_last, n).1 == laid_out(slots, num, by_last, m).1,
    decreases n - m,
{
    if m < n {
        lemma_same_frame(slots, num, by_last, m, (n - 1) as nat);
        lemma_laid_out_rest(slots, num, by_last, (n - 1) as nat);
        assert(laid_out(slots, num, by_last, (n - 1) as nat).0[n - 1] == slots[n - 1]);
    }
}

/// What the frame has once the slot `l` is laid out.
proof fn lemma_laid_out_at(slots: Seq<SlotView>, num: int, by_last: bool, l: nat)
    requires
        l < slots.len(),
        slots[l as int].alloc is Unassigned,
    ensures
        laid_out(slots, num, by_last, l + 1).1 == first_word(slots, num, by_last, l as int)
            + slots[l as int].slots,
{
    lemma_laid_out_rest(slots, num, by_last, l);
    assert(laid_out(slots, num, by_last, l).0[l as int] == slots[l as int]);
}

/// A spill set is in a fixed home only if it asks for that home, by a number other than zero.
/// All others that need a slot have one of their class.
pub proof fn homes_are_for_those_who_ask(
    p: Placement,
    sets: Seq<SetView>,
    words: spec_fn(RegClass) -> nat,
    k: int,
)
    requires
        p.is_new(),
        p.homes.len() == sets.len(),
        2 * sets.len() + 2 < u32::MAX,
        sets_ok(sets),
        0 <= k < sets.len(),
        sets[k].required,
    ensures
        ({
            let q = p.place_all(sets, words, sets.len());
            let slot = q.slots[q.homes[k].id as int];
            &&& q.homes[k].id < q.slots.len()
            &&& match slot.alloc {
                Allocation::Unassigned => true,
                Allocation::Stack(SpillSlot::Fixed(f)) => f != 0 && sets[k].fixed_slot == Some(
                    SpillSlot::Fixed(f),
                ),
                _ => false,
            }
        }),
{
    let q = p.place_all(sets, words, sets.len());
    lemma_run(p, sets, words, sets.len());
    assert(q.settled(sets, words, k));
    if let Allocation::Stack(SpillSlot::Fixed(f)) = q.slots[q.homes[k].id as int].alloc {
        assert(sets[k].fixed_slot == Some(SpillSlot::Fixed(f)));
    }
}

} // verus!
