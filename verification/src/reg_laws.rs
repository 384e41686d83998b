//! What holds of every search for registers.
use crate::ranges::{hit, in_order, LiveRangeKey};
use crate::regs::{below, in_turn, rotated, MachineEnv, PReg, RegClass};
use crate::spill_data::{Allocation, LiveBundleIndex, LiveRangeIndex, LiveRangeListEntry};
use crate::spill_regs::{
    conflict, first_free, lemma_first_free, lemma_ok_try_bundle, lemma_sorted,
    lemma_sorted_in_order, lemma_sorted_separate, lemma_taken_for, sorted, BundleView, RegState, SetHint,
};
use vstd::prelude::*;

verus! {

proof fn lemma_filter_contains(s: Seq<PReg>, f: spec_fn(PReg) -> bool, r: PReg)
    ensures
        s.filter(f).contains(r) <==> s.contains(r) && f(r),
    decreases s.len(),
{
    reveal(Seq::filter);
    if s.len() > 0 {
        let rest = s.drop_last();
        lemma_filter_contains(rest, f, r);
        lemma_push_contains(rest, s.last(), r);
        lemma_push_contains(rest.filter(f), s.last(), r);
        assert(rest.push(s.last()) =~= s);
    }
}

proof fn lemma_push_contains(s: Seq<PReg>, x: PReg, r: PReg)
    ensures
        s.push(x).contains(r) <==> s.contains(r) || x == r,
{
    assert(s.push(x)[s.len() as int] == x);
    if s.contains(r) {
        let i = choose|i: int| 0 <= i < s.len() && s[i] == r;
        assert(s.push(x)[i] == r);
    }
    if s.push(x).contains(r) && x != r {
        let i = choose|i: int| 0 <= i < s.push(x).len() && s.push(x)[i] == r;
        assert(s[i] == r);
    }
}

proof fn lemma_add_contains(a: Seq<PReg>, b: Seq<PReg>, r: PReg)
    ensures
        (a + b).contains(r) <==> a.contains(r) || b.contains(r),
{
    if a.contains(r) {
        let i = choose|i: int| 0 <= i < a.len() && a[i] == r;
        assert((a + b)[i] == r);
    }
    if b.contains(r) {
        let i = choose|i: int| 0 <= i < b.len() && b[i] == r;
        assert((a + b)[a.len() + i] == r);
    }
    if (a + b).contains(r) {
        let i = choose|i: int| 0 <= i < (a + b).len() && (a + b)[i] == r;
        if i < a.len() {
            assert(a[i] == r);
        } else {
            assert(b[i - a.len()] == r);
        }
    }
}

proof fn lemma_turn_contains(
    regs: Seq<PReg>,
    bound: int,
    hint: Option<PReg>,
    limit: Option<u8>,
    r: PReg,
)
    ensures
        rotated(regs, bound).filter(|r: PReg| in_turn(r, hint, limit)).contains(r)
            <==> regs.contains(r) && in_turn(r, hint, limit),
{
    let high = |r: PReg| r.number() >= bound;
    let low = |r: PReg| r.number() < bound;
    let turn = |r: PReg| in_turn(r, hint, limit);
    lemma_filter_contains(regs, high, r);
    lemma_filter_contains(regs, low, r);
    lemma_add_contains(regs.filter(high), regs.filter(low), r);
    lemma_filter_contains(rotated(regs, bound), turn, r);
}

/// The registers that are tried are the hint and the registers of the class, those below
/// the limit.
pub proof fn traversal_covers_the_class(
    env: &MachineEnv,
    class: RegClass,
    hint: Option<PReg>,
    offset: nat,
    limit: Option<u8>,
    r: PReg,
)
    ensures
        env.traversal(class, hint, offset, limit).contains(r) <==> below(r, limit) && (hint
            == Some(r) || env.preferred(class).contains(r) || env.non_preferred(
            class,
        ).contains(r)),
{
    let bound = 64 * class.number() + offset as int % 63;
    let turn = |r: PReg| in_turn(r, hint, limit);
    let first = if hint is Some && below(hint->0, limit) {
        seq![hint->0]
    } else {
        Seq::empty()
    };
    let a = rotated(env.preferred(class), bound).filter(turn);
    let b = rotated(env.non_preferred(class), bound).filter(turn);
    lemma_turn_contains(env.preferred(class), bound, hint, limit, r);
    lemma_turn_contains(env.non_preferred(class), bound, hint, limit, r);
    lemma_add_contains(first, a, r);
    lemma_add_contains(first + a, b, r);
    if hint == Some(r) && below(r, limit) {
        assert(first[0] == r);
    }
}

/// A hint below the limit is tried first.
pub proof fn the_hint_is_tried_first(
    env: &MachineEnv,
    class: RegClass,
    hint: PReg,
    offset: nat,
    limit: Option<u8>,
)
    requires
        below(hint, limit),
    ensures
        env.traversal(class, Some(hint), offset, limit).len() > 0,
        env.traversal(class, Some(hint), offset, limit)[0] == hint,
{
}

proof fn lemma_filter_no_duplicates(s: Seq<PReg>, f: spec_fn(PReg) -> bool)
    requires
        s.no_duplicates(),
    ensures
        s.filter(f).no_duplicates(),
    decreases s.len(),
{
    reveal(Seq::filter);
    if s.len() > 0 {
        let rest = s.drop_last();
        assert(rest.no_duplicates());
        lemma_filter_no_duplicates(rest, f);
        if f(s.last()) {
            lemma_filter_contains(rest, f, s.last());
            if rest.contains(s.last()) {
                let i = choose|i: int| 0 <= i < rest.len() && rest[i] == s.last();
                assert(s[i] == s[s.len() - 1]);
            }
            let t = rest.filter(f);
            assert forall|i: int, j: int|
                0 <= i < t.push(s.last()).len() && 0 <= j < t.push(s.last()).len() && i
                    != j implies t.push(s.last())[i] != t.push(s.last())[j] by {
                if i < t.len() && j == t.len() {
                    assert(t.contains(t[i]));
                }
                if j < t.len() && i == t.len() {
                    assert(t.contains(t[j]));
                }
            }
        }
    }
}

proof fn lemma_add_no_duplicates(a: Seq<PReg>, b: Seq<PReg>)
    requires
        a.no_duplicates(),
        b.no_duplicates(),
        forall|r: PReg| !(#[trigger] a.contains(r) && b.contains(r)),
    ensures
        (a + b).no_duplicates(),
{
    let s = a + b;
    assert forall|i: int, j: int| 0 <= i < s.len() && 0 <= j < s.len() && i != j implies s[i]
        != s[j] by {
        if i < a.len() && j >= a.len() {
            assert(a.contains(a[i]));
            assert(b[j - a.len()] == s[j]);
            assert(b.contains(b[j - a.len()]));
        }
        if j < a.len() && i >= a.len() {
            assert(a.contains(a[j]));
            assert(b[i - a.len()] == s[i]);
            assert(b.contains(b[i - a.len()]));
        }
    }
}

proof fn lemma_turn_no_duplicates(
    regs: Seq<PReg>,
    bound: int,
    hint: Option<PReg>,
    limit: Option<u8>,
)
    requires
        regs.no_duplicates(),
    ensures
        rotated(regs, bound).filter(|r: PReg| in_turn(r, hint, limit)).no_duplicates(),
{
    let high = |r: PReg| r.number() >= bound;
    let low = |r: PReg| r.number() < bound;
    let turn = |r: PReg| in_turn(r, hint, limit);
    lemma_filter_no_duplicates(regs, high);
    lemma_filter_no_duplicates(regs, low);
    assert forall|r: PReg| !(#[trigger] regs.filter(high).contains(r) && regs.filter(low).contains(
        r,
    )) by {
        lemma_filter_contains(regs, high, r);
        lemma_filter_contains(regs, low, r);
    }
    lemma_add_no_duplicates(regs.filter(high), regs.filter(low));
    lemma_filter_no_duplicates(rotated(regs, bound), turn);
}

/// No register is tried twice.
pub proof fn no_register_is_tried_twice(
    env: &MachineEnv,
    class: RegClass,
    hint: Option<PReg>,
    offset: nat,
    limit: Option<u8>,
)
    requires
        env.preferred(class).no_duplicates(),
        env.non_preferred(class).no_duplicates(),
        forall|r: PReg|
            !(#[trigger] env.preferred(class).contains(r) && env.non_preferred(class).contains(r)),
    ensures
        env.traversal(class, hint, offset, limit).no_duplicates(),
{
    let bound = 64 * class.number() + offset as int % 63;
    let turn = |r: PReg| in_turn(r, hint, limit);
    let first = if hint is Some && below(hint->0, limit) {
        seq![hint->0]
    } else {
        Seq::empty()
    };
    let a = rotated(env.preferred(class), bound).filter(turn);
    let b = rotated(env.non_preferred(class), bound).filter(turn);
    lemma_turn_no_duplicates(env.preferred(class), bound, hint, limit);
    lemma_turn_no_duplicates(env.non_preferred(class), bound, hint, limit);
    assert forall|r: PReg| !(#[trigger] first.contains(r) && a.contains(r)) by {
        lemma_turn_contains(env.preferred(class), bound, hint, limit, r);
    }
    lemma_add_no_duplicates(first, a);
    assert forall|r: PReg| !(#[trigger] (first + a).contains(r) && b.contains(r)) by {
        lemma_add_contains(first, a, r);
        lemma_turn_contains(env.preferred(class), bound, hint, limit, r);
        lemma_turn_contains(env.non_preferred(class), bound, hint, limit, r);
    }
    lemma_add_no_duplicates(first + a, b);
}

impl RegState {
    /// The bundle `b` has no ranges, or its spill set needs a slot, or it has a register
    /// that is taken for all of its ranges.
    pub open spec fn served(self, b: LiveBundleIndex) -> bool {
        let bundle = self.bundles[b.id as int];
        ||| bundle.ranges.len() == 0
        ||| self.required[bundle.spillset.id as int]
        ||| bundle.allocation is Reg && forall|i: int|
            0 <= i < bundle.ranges.len() ==> self.pregs[bundle.allocation->Reg_0.number()].contains(
                ((#[trigger] bundle.ranges[i]).range, bundle.ranges[i].index),
            )
    }

    /// `to` came of a search: registers keep what they are taken for, spill sets that need
    /// a slot go on needing one, and no more registers were found than looked for.
    pub open spec fn grows_to(self, to: RegState) -> bool {
        &&& self.pregs.len() == to.pregs.len()
        &&& self.bundles.len() == to.bundles.len()
        &&& self.required.len() == to.required.len()
        &&& forall|r: int, x: (LiveRangeKey, LiveRangeIndex)|
            0 <= r < self.pregs.len() && self.pregs[r].contains(x) ==> #[trigger] to.pregs[r].contains(x)
        &&& forall|i: int|
            0 <= i < self.required.len() && self.required[i] ==> #[trigger] to.required[i]
        &&& self.success <= to.success
        &&& to.success - self.success <= to.probes - self.probes
    }
}

/// What trying a bundle does.
proof fn lemma_try_bundle(
    s: RegState,
    b: LiveBundleIndex,
    env: &MachineEnv,
    hints: Seq<SetHint>,
    spilled: Seq<LiveBundleIndex>,
)
    requires
        s.ok(spilled),
        s.bundle_ok(b),
    ensures
        s.grows_to(s.try_bundle(b, env, hints)),
        s.try_bundle(b, env, hints).served(b),
        forall|c: LiveBundleIndex|
            c.id != b.id && c.id < s.bundles.len() ==> s.try_bundle(
                b,
                env,
                hints,
            ).bundles[#[trigger] c.id as int] == s.bundles[c.id as int],
{
    let bundle = s.bundles[b.id as int];
    if bundle.ranges.len() > 0 {
        let t = s.try_bundle(b, env, hints);
        let ranges = sorted(bundle.ranges);
        lemma_sorted_separate(bundle.ranges);
        lemma_sorted(bundle.ranges);
        let set = bundle.spillset.id as int;
        let order = env.traversal(
            hints[set].class,
            hints[set].hint.valid(),
            b.id as nat,
            bundle.limit,
        );
        lemma_first_free(s.pregs, ranges, order, 0);
        match first_free(s.pregs, ranges, order, 0) {
            Some(r) => {
                lemma_taken_for(s.pregs[r.number()], ranges, ranges.len());
                let taken = t.pregs[r.number()];
                assert forall|i: int| 0 <= i < ranges.len() implies taken.contains(
                    ((#[trigger] ranges[i]).range, ranges[i].index),
                ) by {}
            },
            None => {},
        }
    }
}

/// After a search, every bundle that was spilled has a register that is taken for all of
/// its ranges, or a spill set that needs a slot. No register loses a range that it was
/// taken for.
pub proof fn spilled_bundles_are_served(
    s: RegState,
    spilled: Seq<LiveBundleIndex>,
    env: &MachineEnv,
    hints: Seq<SetHint>,
    n: nat,
)
    requires
        s.ok(spilled),
        n <= spilled.len(),
    ensures
        s.try_bundles(spilled, env, hints, n).ok(spilled),
        s.grows_to(s.try_bundles(spilled, env, hints, n)),
        forall|i: int|
            0 <= i < n ==> s.try_bundles(spilled, env, hints, n).served(#[trigger] spilled[i]),
    decreases n,
{
    if n > 0 {
        let m = (n - 1) as nat;
        spilled_bundles_are_served(s, spilled, env, hints, m);
        let t = s.try_bundles(spilled, env, hints, m);
        let b = spilled[m as int];
        assert(t.bundle_ok(b));
        lemma_ok_try_bundle(t, b, env, hints, spilled);
        lemma_try_bundle(t, b, env, hints, spilled);
        let u = t.try_bundle(b, env, hints);
        assert forall|r: int, x: (LiveRangeKey, LiveRangeIndex)|
            0 <= r < s.pregs.len() && s.pregs[r].contains(x) implies #[trigger] u.pregs[r].contains(
            x,
        ) by {
            assert(t.pregs[r].contains(x));
        }
        assert forall|i: int|
            0 <= i < s.required.len() && s.required[i] implies #[trigger] u.required[i] by {
            assert(t.required[i]);
        }
        assert forall|i: int| 0 <= i < n implies u.served(#[trigger] spilled[i]) by {
            let c = spilled[i];
            assert(t.bundle_ok(c));
            if c.id != b.id {
                assert(t.served(c));
                assert(u.bundles[c.id as int] == t.bundles[c.id as int]);
            } else {
                assert(c == b);
            }
        }
    }
}

/// Two live ranges that a register is taken for never overlap, whatever bundles were tried.
pub proof fn registers_are_taken_once(
    s: RegState,
    spilled: Seq<LiveBundleIndex>,
    env: &MachineEnv,
    hints: Seq<SetHint>,
    r: int,
    i: int,
    j: int,
)
    requires
        s.ok(spilled),
        0 <= r < s.pregs.len(),
        0 <= i < j < s.try_bundles(spilled, env, hints, spilled.len()).pregs[r].len(),
    ensures
        ({
            let taken = s.try_bundles(spilled, env, hints, spilled.len()).pregs[r];
            !taken[i].0.overlaps(taken[j].0)
        }),
{
    spilled_bundles_are_served(s, spilled, env, hints, spilled.len());
    let taken = s.try_bundles(spilled, env, hints, spilled.len()).pregs[r];
    assert(in_order(taken));
    assert(taken[i].0.to <= taken[j].0.from);
}

/// No live range that the register `r` is taken for in `s` overlaps one of the ranges.
pub open spec fn is_free(s: RegState, r: PReg, ranges: Seq<LiveRangeListEntry>) -> bool {
    forall|i: int, j: int|
        0 <= i < s.pregs[r.number()].len() && 0 <= j < ranges.len() ==> !(
        #[trigger] s.pregs[r.number()][i]).0.overlaps((#[trigger] ranges[j]).range)
}

/// The spilled bundle `b` as it was tried, from the state `before` to the state `after`: of the
/// registers of its class, the first that is free for it is taken for its ranges, and nothing
/// else. If none is free, its spill set needs a slot.
pub open spec fn tried(
    before: RegState,
    after: RegState,
    b: LiveBundleIndex,
    order: Seq<PReg>,
    found: Option<int>,
) -> bool {
    let was = before.bundles[b.id as int];
    let is = after.bundles[b.id as int];
    let set = was.spillset.id as int;
    &&& is.spillset == was.spillset && is.limit == was.limit
    &&& is.ranges.to_multiset() == was.ranges.to_multiset()
    &&& ascends(is.ranges)
    &&& after.probes == before.probes + 1
    &&& match found {
        Some(j) => {
            &&& 0 <= j < order.len()
            &&& is_free(before, order[j], was.ranges)
            &&& forall|i: int| 0 <= i < j ==> !is_free(before, #[trigger] order[i], was.ranges)
            &&& is.allocation == Allocation::Reg(order[j])
            &&& after.success == before.success + 1
            &&& after.required == before.required
            &&& forall|r: int|
                0 <= r < before.pregs.len() && r != order[j].number() ==> #[trigger] after.pregs[r]
                    == before.pregs[r]
            &&& forall|x: (LiveRangeKey, LiveRangeIndex)|
                #![trigger after.pregs[order[j].number()].contains(x)]
                after.pregs[order[j].number()].contains(x) <==> {
                    ||| before.pregs[order[j].number()].contains(x)
                    ||| exists|i: int|
                        0 <= i < was.ranges.len() && x == (
                            (#[trigger] was.ranges[i]).range,
                            was.ranges[i].index,
                        )
                }
        },
        None => {
            &&& forall|i: int|
                0 <= i < order.len() ==> !is_free(before, #[trigger] order[i], was.ranges)
            &&& is.allocation == was.allocation
            &&& after.success == before.success
            &&& after.pregs == before.pregs
            &&& after.required == before.required.update(set, true)
        },
    }
}

/// A register conflicts with the ranges in any order exactly if it is not free for them.
proof fn lemma_is_free(s: RegState, r: PReg, ranges: Seq<LiveRangeListEntry>)
    ensures
        conflict(s.pregs[r.number()], sorted(ranges)) <==> !is_free(s, r, ranges),
{
    let taken = s.pregs[r.number()];
    let order = sorted(ranges);
    lemma_sorted(ranges);
    if conflict(taken, order) {
        let j = choose|j: int| 0 <= j < order.len() && hit(taken, (#[trigger] order[j]).range);
        let i = choose|i: int|
            0 <= i < taken.len() && (#[trigger] taken[i]).0.overlaps(order[j].range);
        assert(order.contains(order[j]));
        let l = choose|l: int| 0 <= l < ranges.len() && ranges[l] == order[j];
        assert(s.pregs[r.number()][i].0.overlaps(ranges[l].range));
    }
    if !is_free(s, r, ranges) {
        let (i, j) = choose|i: int, j: int|
            0 <= i < s.pregs[r.number()].len() && 0 <= j < ranges.len() && (
            #[trigger] s.pregs[r.number()][i]).0.overlaps((#[trigger] ranges[j]).range);
        assert(ranges.contains(ranges[j]));
        assert(order.contains(ranges[j]));
        let l = choose|l: int| 0 <= l < order.len() && order[l] == ranges[j];
        assert(hit(taken, order[l].range)) by {
            assert(taken[i].0.overlaps(order[l].range));
        }
    }
}

/// Where the first register that is free stands in the order.
proof fn lemma_first_place(
    s: RegState,
    ranges: Seq<LiveRangeListEntry>,
    order: Seq<PReg>,
    i: int,
) -> (j: Option<int>)
    requires
        0 <= i <= order.len(),
    ensures
        match j {
            Some(j) => {
                &&& i <= j < order.len()
                &&& first_free(s.pregs, sorted(ranges), order, i) == Some(order[j])
                &&& is_free(s, order[j], ranges)
                &&& forall|l: int| i <= l < j ==> !is_free(s, #[trigger] order[l], ranges)
            },
            None => {
                &&& first_free(s.pregs, sorted(ranges), order, i) is None
                &&& forall|l: int| i <= l < order.len() ==> !is_free(s, #[trigger] order[l], ranges)
            },
        },
    decreases order.len() - i,
{
    if i == order.len() {
        None
    } else {
        lemma_is_free(s, order[i], ranges);
        if conflict(s.pregs[order[i].number()], sorted(ranges)) {
            lemma_first_place(s, ranges, order, i + 1)
        } else {
            Some(i)
        }
    }
}

/// Every spilled bundle with ranges is tried when its turn comes, whatever became of the
/// others. It gets the first register of its traversal that is free for all of its ranges
/// then, and its spill set needs a slot exactly if there is none. A bundle without ranges is
/// passed over.
pub proof fn spilled_bundles_are_tried_in_turn(
    s: RegState,
    spilled: Seq<LiveBundleIndex>,
    env: &MachineEnv,
    hints: Seq<SetHint>,
    n: nat,
)
    requires
        s.ok(spilled),
        n < spilled.len(),
    ensures
        ({
            let b = spilled[n as int];
            let before = s.try_bundles(spilled, env, hints, n);
            let after = s.try_bundles(spilled, env, hints, n + 1);
            let bundle = before.bundles[b.id as int];
            let set = bundle.spillset.id as int;
            let order = env.traversal(
                hints[set].class,
                hints[set].hint.valid(),
                b.id as nat,
                bundle.limit,
            );
            &&& b.id < before.bundles.len()
            &&& bundle.ranges.len() == s.bundles[b.id as int].ranges.len()
            &&& after.bundles.len() == before.bundles.len()
            &&& forall|c: int|
                0 <= c < before.bundles.len() && c != b.id ==> #[trigger] after.bundles[c]
                    == before.bundles[c]
            &&& if bundle.ranges.len() == 0 {
                after == before
            } else {
                exists|found: Option<int>| #[trigger] tried(before, after, b, order, found)
            }
        }),
{
    spilled_bundles_are_served(s, spilled, env, hints, n);
    lemma_bundles_keep_their_size(s, spilled, env, hints, n);
    let b = spilled[n as int];
    let before = s.try_bundles(spilled, env, hints, n);
    let after = s.try_bundles(spilled, env, hints, n + 1);
    assert(after == before.try_bundle(b, env, hints));
    assert(before.bundle_ok(b));
    let bundle = before.bundles[b.id as int];
    if bundle.ranges.len() > 0 {
        let set = bundle.spillset.id as int;
        let order = env.traversal(
            hints[set].class,
            hints[set].hint.valid(),
            b.id as nat,
            bundle.limit,
        );
        let ranges = sorted(bundle.ranges);
        lemma_sorted(bundle.ranges);
        lemma_sorted_separate(bundle.ranges);
        tried_ranges_ascend(bundle.ranges);
        let found = lemma_first_place(before, bundle.ranges, order, 0);
        if found is Some {
            let r = order[found->0];
            lemma_is_free(before, r, bundle.ranges);
            lemma_taken_for(before.pregs[r.number()], ranges, ranges.len());
            assert forall|x: (LiveRangeKey, LiveRangeIndex)|
                #![trigger after.pregs[r.number()].contains(x)]
                after.pregs[r.number()].contains(x) <==> {
                    ||| before.pregs[r.number()].contains(x)
                    ||| exists|i: int|
                        0 <= i < bundle.ranges.len() && x == (
                            (#[trigger] bundle.ranges[i]).range,
                            bundle.ranges[i].index,
                        )
                } by {
                lemma_same_entries(bundle.ranges, x);
            }
        }
        assert(tried(before, after, b, order, found));
    }
}

/// The sorted entries name the same ranges.
proof fn lemma_same_entries(ranges: Seq<LiveRangeListEntry>, x: (LiveRangeKey, LiveRangeIndex))
    ensures
        (exists|i: int|
            0 <= i < ranges.len() && x == ((#[trigger] ranges[i]).range, ranges[i].index)) <==> (
        exists|i: int|
            0 <= i < sorted(ranges).len() && x == (
                (#[trigger] sorted(ranges)[i]).range,
                sorted(ranges)[i].index,
            )),
{
    let order = sorted(ranges);
    lemma_sorted(ranges);
    if exists|i: int| 0 <= i < ranges.len() && x == ((#[trigger] ranges[i]).range, ranges[i].index) {
        let i = choose|i: int|
            0 <= i < ranges.len() && x == ((#[trigger] ranges[i]).range, ranges[i].index);
        assert(ranges.contains(ranges[i]));
        assert(order.contains(ranges[i]));
        let j = choose|j: int| 0 <= j < order.len() && order[j] == ranges[i];
        assert(x == (order[j].range, order[j].index));
    }
    if exists|i: int| 0 <= i < order.len() && x == ((#[trigger] order[i]).range, order[i].index) {
        let i = choose|i: int|
            0 <= i < order.len() && x == ((#[trigger] order[i]).range, order[i].index);
        assert(order.contains(order[i]));
        let j = choose|j: int| 0 <= j < ranges.len() && ranges[j] == order[i];
        assert(x == (ranges[j].range, ranges[j].index));
    }
}

proof fn lemma_bundles_keep_their_size(
    s: RegState,
    spilled: Seq<LiveBundleIndex>,
    env: &MachineEnv,
    hints: Seq<SetHint>,
    n: nat,
)
    requires
        s.ok(spilled),
        n <= spilled.len(),
    ensures
        s.try_bundles(spilled, env, hints, n).bundles.len() == s.bundles.len(),
        forall|c: int|
            0 <= c < s.bundles.len() ==> (#[trigger] s.try_bundles(
                spilled,
                env,
                hints,
                n,
            ).bundles[c]).ranges.len() == s.bundles[c].ranges.len(),
    decreases n,
{
    if n > 0 {
        let m = (n - 1) as nat;
        lemma_bundles_keep_their_size(s, spilled, env, hints, m);
        spilled_bundles_are_served(s, spilled, env, hints, m);
        let t = s.try_bundles(spilled, env, hints, m);
        assert(t.bundle_ok(spilled[m as int]));
        lemma_sorted(t.bundles[spilled[m as int].id as int].ranges);
        let u = s.try_bundles(spilled, env, hints, n);
        assert forall|c: int| 0 <= c < s.bundles.len() implies (
        #[trigger] u.bundles[c]).ranges.len() == s.bundles[c].ranges.len() by {
            assert(t.bundles[c].ranges.len() == s.bundles[c].ranges.len());
        }
    }
}

/// How many of the first `n` spilled bundles have ranges.
pub open spec fn n_with_ranges(
    bundles: Seq<BundleView>,
    spilled: Seq<LiveBundleIndex>,
    n: nat,
) -> nat {
    spilled.take(n as int).filter(
        |b: LiveBundleIndex| bundles[b.id as int].ranges.len() > 0,
    ).len()
}

/// The number of probes grows by the number of spilled bundles with ranges.
pub proof fn every_spilled_bundle_is_probed(
    s: RegState,
    spilled: Seq<LiveBundleIndex>,
    env: &MachineEnv,
    hints: Seq<SetHint>,
    n: nat,
)
    requires
        s.ok(spilled),
        n <= spilled.len(),
    ensures
        s.try_bundles(spilled, env, hints, n).probes == s.probes + n_with_ranges(
            s.bundles,
            spilled,
            n,
        ),
    decreases n,
{
    reveal(Seq::filter);
    if n > 0 {
        let m = (n - 1) as nat;
        every_spilled_bundle_is_probed(s, spilled, env, hints, m);
        spilled_bundles_are_tried_in_turn(s, spilled, env, hints, m);
        assert(spilled.take(n as int).drop_last() =~= spilled.take(m as int));
        assert(spilled.take(n as int).last() == spilled[m as int]);
    } else {
        assert(spilled.take(0) =~= Seq::empty());
    }
}

/// The bundle at the place `i` of the spilled ones belongs to the spill set `set`, and when
/// its turn came none of its registers was free for it.
pub open spec fn found_none(
    s: RegState,
    spilled: Seq<LiveBundleIndex>,
    env: &MachineEnv,
    hints: Seq<SetHint>,
    i: int,
    set: int,
) -> bool {
    let before = s.try_bundles(spilled, env, hints, i as nat);
    let b = spilled[i];
    let bundle = before.bundles[b.id as int];
    &&& bundle.spillset.id == set
    &&& bundle.ranges.len() > 0
    &&& forall|r: PReg|
        env.traversal(
            hints[set].class,
            hints[set].hint.valid(),
            b.id as nat,
            bundle.limit,
        ).contains(r) ==> !#[trigger] is_free(before, r, bundle.ranges)
}

/// In the end a spill set needs a slot if and only if it did before, or one of its bundles
/// found no register.
pub proof fn slots_are_for_bundles_without_a_register(
    s: RegState,
    spilled: Seq<LiveBundleIndex>,
    env: &MachineEnv,
    hints: Seq<SetHint>,
    n: nat,
    set: int,
)
    requires
        s.ok(spilled),
        n <= spilled.len(),
        0 <= set < s.required.len(),
    ensures
        s.try_bundles(spilled, env, hints, n).required.len() == s.required.len(),
        s.try_bundles(spilled, env, hints, n).required[set] <==> s.required[set] || exists|i: int|
            0 <= i < n && #[trigger] found_none(s, spilled, env, hints, i, set),
    decreases n,
{
    if n > 0 {
        let m = (n - 1) as nat;
        slots_are_for_bundles_without_a_register(s, spilled, env, hints, m, set);
        spilled_bundles_are_tried_in_turn(s, spilled, env, hints, m);
        spilled_bundles_are_served(s, spilled, env, hints, m);
        let before = s.try_bundles(spilled, env, hints, m);
        let after = s.try_bundles(spilled, env, hints, n);
        let b = spilled[m as int];
        assert(before.bundle_ok(b));
        let bundle = before.bundles[b.id as int];
        let own = bundle.spillset.id as int;
        let order = env.traversal(
            hints[own].class,
            hints[own].hint.valid(),
            b.id as nat,
            bundle.limit,
        );
        if bundle.ranges.len() > 0 {
            let found = choose|found: Option<int>| #[trigger] tried(before, after, b, order, found);
            if found is Some {
                assert(order.contains(order[found->0]));
                assert(is_free(before, order[found->0], bundle.ranges));
                assert(!found_none(s, spilled, env, hints, m as int, set));
            } else if own == set {
                assert forall|r: PReg| order.contains(r) implies !#[trigger] is_free(
                    before,
                    r,
                    bundle.ranges,
                ) by {
                    let i = choose|i: int| 0 <= i < order.len() && order[i] == r;
                    assert(!is_free(before, order[i], bundle.ranges));
                }
                assert(found_none(s, spilled, env, hints, m as int, set));
            } else {
                assert(!found_none(s, spilled, env, hints, m as int, set));
            }
        } else {
            assert(!found_none(s, spilled, env, hints, m as int, set));
        }
    }
}

/// The elements of a filtered list are in the order of the list.
proof fn lemma_filter_order(s: Seq<PReg>, f: spec_fn(PReg) -> bool, i: int, j: int) -> (r: (int, int))
    requires
        0 <= i < j < s.filter(f).len(),
    ensures
        0 <= r.0 < r.1 < s.len(),
        s[r.0] == s.filter(f)[i],
        s[r.1] == s.filter(f)[j],
    decreases s.len(),
{
    reveal(Seq::filter);
    let rest = s.drop_last();
    if j < rest.filter(f).len() {
        let (a, b) = lemma_filter_order(rest, f, i, j);
        (a, b)
    } else {
        assert(f(s.last()));
        let x = rest.filter(f)[i];
        lemma_filter_contains(rest, f, x);
        assert(rest.filter(f).contains(x));
        let a = choose|a: int| 0 <= a < rest.len() && rest[a] == x;
        (a, s.len() - 1)
    }
}

/// The register stands in the list before another one.
pub open spec fn precedes(s: Seq<PReg>, a: PReg, b: PReg) -> bool {
    exists|i: int, j: int| 0 <= i < j < s.len() && #[trigger] s[i] == a && #[trigger] s[j] == b
}

/// When the register `r` has its turn: first the preferred registers from the bound on, then
/// those before it, then the others in the same way.
pub open spec fn turn_of(env: &MachineEnv, class: RegClass, bound: int, r: PReg) -> int {
    if env.preferred(class).contains(r) {
        if r.number() >= bound {
            0
        } else {
            1
        }
    } else {
        if r.number() >= bound {
            2
        } else {
            3
        }
    }
}

/// The part of a list that is tried in one turn.
spec fn part(
    regs: Seq<PReg>,
    bound: int,
    high: bool,
    hint: Option<PReg>,
    limit: Option<u8>,
) -> Seq<PReg> {
    regs.filter(|r: PReg| (r.number() >= bound) == high).filter(|r: PReg| in_turn(r, hint, limit))
}

proof fn lemma_part(
    regs: Seq<PReg>,
    bound: int,
    high: bool,
    hint: Option<PReg>,
    limit: Option<u8>,
    i: int,
)
    requires
        0 <= i < part(regs, bound, high, hint, limit).len(),
    ensures
        ({
            let p = part(regs, bound, high, hint, limit);
            &&& regs.contains(p[i])
            &&& (p[i].number() >= bound) == high
            &&& in_turn(p[i], hint, limit)
            &&& forall|j: int| i < j < p.len() ==> precedes(regs, p[i], #[trigger] p[j])
        }),
{
    let f = |r: PReg| (r.number() >= bound) == high;
    let g = |r: PReg| in_turn(r, hint, limit);
    let p = part(regs, bound, high, hint, limit);
    assert(p.contains(p[i]));
    lemma_filter_contains(regs.filter(f), g, p[i]);
    lemma_filter_contains(regs, f, p[i]);
    assert forall|j: int| i < j < p.len() implies precedes(regs, p[i], #[trigger] p[j]) by {
        let (a, b) = lemma_filter_order(regs.filter(f), g, i, j);
        let (c, d) = lemma_filter_order(regs, f, a, b);
        assert(regs[c] == p[i] && regs[d] == p[j]);
    }
}

/// The traversal is made of its four parts, behind the hint.
proof fn lemma_parts(
    env: &MachineEnv,
    class: RegClass,
    hint: Option<PReg>,
    offset: nat,
    limit: Option<u8>,
)
    ensures
        ({
            let bound = 64 * class.number() + offset as int % 63;
            let first = if hint is Some && below(hint->0, limit) {
                seq![hint->0]
            } else {
                Seq::empty()
            };
            env.traversal(class, hint, offset, limit) == first + part(
                env.preferred(class),
                bound,
                true,
                hint,
                limit,
            ) + part(env.preferred(class), bound, false, hint, limit) + part(
                env.non_preferred(class),
                bound,
                true,
                hint,
                limit,
            ) + part(env.non_preferred(class), bound, false, hint, limit)
        }),
{
    let bound = 64 * class.number() + offset as int % 63;
    let high = |r: PReg| r.number() >= bound;
    let low = |r: PReg| r.number() < bound;
    let turn = |r: PReg| in_turn(r, hint, limit);
    let is_high = |r: PReg| (r.number() >= bound) == true;
    let is_low = |r: PReg| (r.number() >= bound) == false;
    assert(high =~= is_high);
    assert(low =~= is_low);
    let a = env.preferred(class);
    let b = env.non_preferred(class);
    Seq::filter_distributes_over_add(a.filter(high), a.filter(low), turn);
    Seq::filter_distributes_over_add(b.filter(high), b.filter(low), turn);
    let first = if hint is Some && below(hint->0, limit) {
        seq![hint->0]
    } else {
        Seq::empty()
    };
    assert(env.traversal(class, hint, offset, limit) =~= first + part(a, bound, true, hint, limit)
        + part(a, bound, false, hint, limit) + part(b, bound, true, hint, limit) + part(
        b,
        bound,
        false,
        hint,
        limit,
    ));
}

/// Behind the hint, the preferred registers are tried before the others, and in both lists
/// those from the bound on before the rest; within one turn they come as they are listed. The
/// bound moves with the offset.
#[verifier::rlimit(60)]
pub proof fn registers_are_tried_in_order(
    env: &MachineEnv,
    class: RegClass,
    hint: Option<PReg>,
    offset: nat,
    limit: Option<u8>,
    i: int,
    j: int,
)
    requires
        forall|r: PReg|
            !(#[trigger] env.preferred(class).contains(r) && env.non_preferred(class).contains(r)),
        0 <= i < j < env.traversal(class, hint, offset, limit).len(),
    ensures
        ({
            let bound = 64 * class.number() + offset as int % 63;
            let t = env.traversal(class, hint, offset, limit);
            let a = turn_of(env, class, bound, t[i]);
            let b = turn_of(env, class, bound, t[j]);
            i == 0 && hint == Some(t[0]) || {
                &&& a <= b
                &&& a == b ==> precedes(env.preferred(class), t[i], t[j]) || precedes(
                    env.non_preferred(class),
                    t[i],
                    t[j],
                )
            }
        }),
{
    let bound = 64 * class.number() + offset as int % 63;
    let t = env.traversal(class, hint, offset, limit);
    lemma_parts(env, class, hint, offset, limit);
    let first = if hint is Some && below(hint->0, limit) {
        seq![hint->0]
    } else {
        Seq::empty()
    };
    let p0 = part(env.preferred(class), bound, true, hint, limit);
    let p1 = part(env.preferred(class), bound, false, hint, limit);
    let p2 = part(env.non_preferred(class), bound, true, hint, limit);
    let p3 = part(env.non_preferred(class), bound, false, hint, limit);
    let n0 = first.len();
    let n1 = n0 + p0.len();
    let n2 = n1 + p1.len();
    let n3 = n2 + p2.len();
    if i >= n0 {
        lemma_turn_at(env, class, hint, offset, limit, i);
        lemma_turn_at(env, class, hint, offset, limit, j);
        if j < n1 {
            lemma_part(env.preferred(class), bound, true, hint, limit, i - n0);
            assert(t[i] == p0[i - n0] && t[j] == p0[j - n0]);
        } else if n1 <= i && j < n2 {
            lemma_part(env.preferred(class), bound, false, hint, limit, i - n1);
            assert(t[i] == p1[i - n1] && t[j] == p1[j - n1]);
        } else if n2 <= i && j < n3 {
            lemma_part(env.non_preferred(class), bound, true, hint, limit, i - n2);
            assert(t[i] == p2[i - n2] && t[j] == p2[j - n2]);
        } else if n3 <= i {
            lemma_part(env.non_preferred(class), bound, false, hint, limit, i - n3);
            assert(t[i] == p3[i - n3] && t[j] == p3[j - n3]);
        }
    } else {
        assert(t[0] == first[0]);
    }
}

/// In which part of the traversal a register stands.
proof fn lemma_turn_at(
    env: &MachineEnv,
    class: RegClass,
    hint: Option<PReg>,
    offset: nat,
    limit: Option<u8>,
    i: int,
)
    requires
        forall|r: PReg|
            !(#[trigger] env.preferred(class).contains(r) && env.non_preferred(class).contains(r)),
        0 <= i < env.traversal(class, hint, offset, limit).len(),
    ensures
        ({
            let bound = 64 * class.number() + offset as int % 63;
            let t = env.traversal(class, hint, offset, limit);
            let n0: nat = if hint is Some && below(hint->0, limit) {
                1
            } else {
                0
            };
            let n1 = n0 + part(env.preferred(class), bound, true, hint, limit).len();
            let n2 = n1 + part(env.preferred(class), bound, false, hint, limit).len();
            let n3 = n2 + part(env.non_preferred(class), bound, true, hint, limit).len();
            i >= n0 ==> turn_of(env, class, bound, t[i]) == if i < n1 {
                0int
            } else if i < n2 {
                1
            } else if i < n3 {
                2
            } else {
                3
            }
        }),
{
    let bound = 64 * class.number() + offset as int % 63;
    let t = env.traversal(class, hint, offset, limit);
    lemma_parts(env, class, hint, offset, limit);
    let p0 = part(env.preferred(class), bound, true, hint, limit);
    let p1 = part(env.preferred(class), bound, false, hint, limit);
    let p2 = part(env.non_preferred(class), bound, true, hint, limit);
    let p3 = part(env.non_preferred(class), bound, false, hint, limit);
    let n0: nat = if hint is Some && below(hint->0, limit) {
        1
    } else {
        0
    };
    let n1 = n0 + p0.len();
    let n2 = n1 + p1.len();
    let n3 = n2 + p2.len();
    if i >= n0 {
        if i < n1 {
            assert(t[i] == p0[i - n0]);
            lemma_part(env.preferred(class), bound, true, hint, limit, i - n0);
        } else if i < n2 {
            assert(t[i] == p1[i - n1]);
            lemma_part(env.preferred(class), bound, false, hint, limit, i - n1);
        } else if i < n3 {
            assert(t[i] == p2[i - n2]);
            lemma_part(env.non_preferred(class), bound, true, hint, limit, i - n2);
            assert(!(env.preferred(class).contains(t[i]) && env.non_preferred(class).contains(t[i])));
        } else {
            assert(t[i] == p3[i - n3]);
            lemma_part(env.non_preferred(class), bound, false, hint, limit, i - n3);
            assert(!(env.preferred(class).contains(t[i]) && env.non_preferred(class).contains(t[i])));
        }
    }
}

/// The encoding of a register counts within its class, and each class has room for 64.
pub proof fn encodings_count_within_a_class(r: PReg)
    ensures
        0 <= r.encoding() < 64,
        r.number() == 64 * (r.number() / 64) + r.encoding(),
{
}

/// The ranges begin one after the other.
pub open spec fn ascends(s: Seq<LiveRangeListEntry>) -> bool {
    forall|i: int, j: int|
        0 <= i < j < s.len() ==> (#[trigger] s[i]).range.from <= (#[trigger] s[j]).range.from
}

/// The ranges of a bundle that was tried begin one after the other.
pub proof fn tried_ranges_ascend(s: Seq<LiveRangeListEntry>)
    ensures
        ascends(sorted(s)),
{
    lemma_sorted_in_order(s);
}

} // verus!
