//! A last attempt to find registers for bundles that were spilled.
use crate::ranges::{hit, in_order, inserted, lemma_inserted, LiveRangeKey};
use crate::regs::{reg_traversal, MachineEnv, PReg, RegClass, NUM_PREGS};
use crate::spill_data::{
    Allocation, Ctx, Env, Function, LiveBundle, LiveBundleIndex, LiveRangeIndex, LiveRangeListEntry,
    SpillSet, SpillSetIndex,
};
use vstd::prelude::*;

verus! {

/// The live ranges of a register.
pub type Taken = Seq<(LiveRangeKey, LiveRangeIndex)>;

/// The entry `x` in its place behind the entries that begin no later.
pub open spec fn sort_in(s: Seq<LiveRangeListEntry>, x: LiveRangeListEntry) -> Seq<
    LiveRangeListEntry,
>
    decreases s.len(),
{
    if s.len() == 0 || s.last().range.from <= x.range.from {
        s.push(x)
    } else {
        sort_in(s.drop_last(), x).push(s.last())
    }
}

/// The entries in the order of their first points.
pub open spec fn sorted(s: Seq<LiveRangeListEntry>) -> Seq<LiveRangeListEntry>
    decreases s.len(),
{
    if s.len() == 0 {
        s
    } else {
        sort_in(sorted(s.drop_last()), s.last())
    }
}

/// Ranges that do not overlap one another.
pub open spec fn separate(s: Seq<LiveRangeListEntry>) -> bool {
    &&& forall|i: int| 0 <= i < s.len() ==> (#[trigger] s[i]).range.ok()
    &&& forall|i: int, j: int|
        0 <= i < s.len() && 0 <= j < s.len() && i != j ==> !(#[trigger] s[i]).range.overlaps(
            (#[trigger] s[j]).range,
        )
}

/// Some range of the bundle overlaps one that the register is taken for.
pub open spec fn conflict(taken: Taken, ranges: Seq<LiveRangeListEntry>) -> bool {
    exists|i: int| 0 <= i < ranges.len() && hit(taken, (#[trigger] ranges[i]).range)
}

/// The register is taken for the first `n` ranges too.
pub open spec fn taken_for(taken: Taken, ranges: Seq<LiveRangeListEntry>, n: nat) -> Taken
    decreases n,
{
    if n == 0 {
        taken
    } else {
        inserted(
            taken_for(taken, ranges, (n - 1) as nat),
            ranges[n - 1].range,
            ranges[n - 1].index,
        )
    }
}

/// The first register in the order, from the place `i` on, that is free for the ranges.
pub open spec fn first_free(
    pregs: Seq<Taken>,
    ranges: Seq<LiveRangeListEntry>,
    order: Seq<PReg>,
    i: int,
) -> Option<PReg>
    decreases order.len() - i,
{
    if i < 0 || i >= order.len() {
        None
    } else if !conflict(pregs[order[i].number()], ranges) {
        Some(order[i])
    } else {
        first_free(pregs, ranges, order, i + 1)
    }
}

/// The view of a bundle.
#[verifier::ext_equal]
pub struct BundleView {
    pub ranges: Seq<LiveRangeListEntry>,
    pub spillset: SpillSetIndex,
    pub allocation: Allocation,
    pub limit: Option<u8>,
}

impl View for LiveBundle {
    type V = BundleView;

    open spec fn view(&self) -> BundleView {
        BundleView {
            ranges: self.ranges@,
            spillset: self.spillset,
            allocation: self.allocation,
            limit: self.limit,
        }
    }
}

/// What the search for registers changes.
#[verifier::ext_equal]
pub struct RegState {
    pub bundles: Seq<BundleView>,
    pub pregs: Seq<Taken>,
    /// Which spill sets need a slot.
    pub required: Seq<bool>,
    /// Bundles that a register was looked for, and those that one was found for.
    pub probes: nat,
    pub success: nat,
}

/// What the search for registers goes by.
#[verifier::ext_equal]
pub struct SetHint {
    pub class: RegClass,
    pub hint: PReg,
}

impl Ctx {
    pub open spec fn reg_state(&self) -> RegState {
        RegState {
            bundles: Seq::new(self.bundles@.len(), |i: int| self.bundles@[i]@),
            pregs: Seq::new(self.pregs@.len(), |i: int| self.pregs@[i].allocations@),
            required: Seq::new(self.spillsets@.len(), |i: int| self.spillsets@[i].required),
            probes: self.output.stats.spill_bundle_reg_probes as nat,
            success: self.output.stats.spill_bundle_reg_success as nat,
        }
    }

    pub open spec fn hints(&self) -> Seq<SetHint> {
        Seq::new(
            self.spillsets@.len(),
            |i: int| SetHint { class: self.spillsets@[i].class, hint: self.spillsets@[i].hint },
        )
    }
}

impl RegState {
    /// The bundle `b` gets the first register that is free for all of its ranges. If there
    /// is none, its spill set needs a slot. A bundle without ranges is passed over.
    pub open spec fn try_bundle(
        self,
        b: LiveBundleIndex,
        env: &MachineEnv,
        hints: Seq<SetHint>,
    ) -> RegState {
        let bundle = self.bundles[b.id as int];
        let set = bundle.spillset.id as int;
        if bundle.ranges.len() == 0 {
            self
        } else {
            let ranges = sorted(bundle.ranges);
            let bundle = BundleView { ranges, ..bundle };
            let order = env.traversal(
                hints[set].class,
                hints[set].hint.valid(),
                b.id as nat,
                bundle.limit,
            );
            match first_free(self.pregs, ranges, order, 0) {
                Some(r) => RegState {
                    bundles: self.bundles.update(
                        b.id as int,
                        BundleView { allocation: Allocation::Reg(r), ..bundle },
                    ),
                    pregs: self.pregs.update(
                        r.number(),
                        taken_for(self.pregs[r.number()], ranges, ranges.len()),
                    ),
                    probes: self.probes + 1,
                    success: self.success + 1,
                    ..self
                },
                None => RegState {
                    bundles: self.bundles.update(b.id as int, bundle),
                    required: self.required.update(set, true),
                    probes: self.probes + 1,
                    ..self
                },
            }
        }
    }

    /// The first `n` of the spilled bundles are tried, one after the other.
    pub open spec fn try_bundles(
        self,
        spilled: Seq<LiveBundleIndex>,
        env: &MachineEnv,
        hints: Seq<SetHint>,
        n: nat,
    ) -> RegState
        decreases n,
    {
        if n == 0 {
            self
        } else {
            self.try_bundles(spilled, env, hints, (n - 1) as nat).try_bundle(
                spilled[n - 1],
                env,
                hints,
            )
        }
    }

    /// The ranges of the bundle `b` are separate, and unless it has none the bundle has a
    /// spill set.
    pub open spec fn bundle_ok(self, b: LiveBundleIndex) -> bool {
        let bundle = self.bundles[b.id as int];
        &&& b.id < self.bundles.len()
        &&& separate(bundle.ranges)
        &&& bundle.ranges.len() > 0 ==> bundle.spillset.id < self.required.len()
    }

    /// The ranges of each register are in order, and the spilled bundles can be tried.
    pub open spec fn ok(self, spilled: Seq<LiveBundleIndex>) -> bool {
        &&& self.pregs.len() == NUM_PREGS
        &&& forall|i: int| 0 <= i < self.pregs.len() ==> in_order(#[trigger] self.pregs[i])
        &&& forall|i: int| 0 <= i < spilled.len() ==> self.bundle_ok(#[trigger] spilled[i])
    }
}

proof fn lemma_sort_in(s: Seq<LiveRangeListEntry>, x: LiveRangeListEntry)
    ensures
        sort_in(s, x).len() == s.len() + 1,
        forall|y: LiveRangeListEntry| #[trigger]
            sort_in(s, x).contains(y) <==> s.contains(y) || y == x,
        sort_in(s, x).to_multiset() == s.to_multiset().insert(x),
    decreases s.len(),
{
    broadcast use vstd::seq_lib::group_to_multiset_ensures;

    let t = sort_in(s, x);
    if s.len() == 0 || s.last().range.from <= x.range.from {
        assert forall|y: LiveRangeListEntry| #[trigger] t.contains(y) <==> s.contains(y) || y == x by {
            assert(t[s.len() as int] == x);
            if s.contains(y) {
                let i = choose|i: int| 0 <= i < s.len() && s[i] == y;
                assert(t[i] == y);
            }
            if t.contains(y) && y != x {
                let i = choose|i: int| 0 <= i < t.len() && t[i] == y;
                assert(s[i] == y);
            }
        }
    } else {
        lemma_sort_in(s.drop_last(), x);
        let u = sort_in(s.drop_last(), x);
        assert(s == s.drop_last().push(s.last()));
        assert(t.to_multiset() =~= s.to_multiset().insert(x));
        assert forall|y: LiveRangeListEntry| #[trigger] t.contains(y) <==> s.contains(y) || y == x by {
            assert(t[s.len() as int] == s.last());
            if u.contains(y) {
                let i = choose|i: int| 0 <= i < u.len() && u[i] == y;
                assert(t[i] == y);
            }
            if t.contains(y) && y != s.last() {
                let i = choose|i: int| 0 <= i < t.len() && t[i] == y;
                assert(u[i] == y);
                assert(u.contains(y));
            }
            if s.contains(y) && y != s.last() {
                let i = choose|i: int| 0 <= i < s.len() && s[i] == y;
                assert(s.drop_last()[i] == y);
                assert(s.drop_last().contains(y));
            }
            if s.drop_last().contains(y) {
                let i = choose|i: int| 0 <= i < s.drop_last().len() && s.drop_last()[i] == y;
                assert(s[i] == y);
            }
        }
    }
}

proof fn lemma_sort_in_separate(s: Seq<LiveRangeListEntry>, x: LiveRangeListEntry)
    requires
        separate(s.push(x)),
    ensures
        separate(sort_in(s, x)),
    decreases s.len(),
{
    if s.len() == 0 || s.last().range.from <= x.range.from {
    } else {
        let r = s.drop_last();
        let all = s.push(x);
        assert forall|i: int, j: int|
            0 <= i < r.push(x).len() && 0 <= j < r.push(x).len() && i != j implies !(
        #[trigger] r.push(x)[i]).range.overlaps((#[trigger] r.push(x)[j]).range) by {
            let ii = if i < r.len() {
                i
            } else {
                all.len() - 1
            };
            let jj = if j < r.len() {
                j
            } else {
                all.len() - 1
            };
            assert(all[ii] == r.push(x)[i]);
            assert(all[jj] == r.push(x)[j]);
        }
        assert forall|i: int| 0 <= i < r.push(x).len() implies (
        #[trigger] r.push(x)[i]).range.ok() by {
            let ii = if i < r.len() {
                i
            } else {
                all.len() - 1
            };
            assert(all[ii] == r.push(x)[i]);
        }
        lemma_sort_in_separate(r, x);
        lemma_sort_in(r, x);
        let u = sort_in(r, x);
        let t = sort_in(s, x);
        let l = s.last();
        assert(all[s.len() - 1] == l);
        assert forall|i: int| 0 <= i < u.len() implies !(#[trigger] u[i]).range.overlaps(l.range)
            && !l.range.overlaps(u[i].range) by {
            assert(u.contains(u[i]));
            if u[i] == x {
                assert(all[s.len() as int] == x);
            } else {
                let k = choose|k: int| 0 <= k < r.len() && r[k] == u[i];
                assert(all[k] == u[i]);
            }
        }
        assert forall|i: int, j: int|
            0 <= i < t.len() && 0 <= j < t.len() && i != j implies !(
        #[trigger] t[i]).range.overlaps((#[trigger] t[j]).range) by {
            if i < u.len() {
                assert(t[i] == u[i]);
            }
            if j < u.len() {
                assert(t[j] == u[j]);
            }
        }
        assert forall|i: int| 0 <= i < t.len() implies (#[trigger] t[i]).range.ok() by {
            if i < u.len() {
                assert(t[i] == u[i]);
            }
        }
    }
}

/// Sorting keeps the entries.
pub proof fn lemma_sorted(s: Seq<LiveRangeListEntry>)
    ensures
        sorted(s).len() == s.len(),
        sorted(s).to_multiset() == s.to_multiset(),
        forall|y: LiveRangeListEntry| #[trigger] sorted(s).contains(y) <==> s.contains(y),
    decreases s.len(),
{
    broadcast use vstd::seq_lib::group_to_multiset_ensures;

    if s.len() > 0 {
        let r = s.drop_last();
        lemma_sorted(r);
        lemma_sort_in(sorted(r), s.last());
        assert(s == r.push(s.last()));
        assert(sorted(s).to_multiset() =~= s.to_multiset());
        assert forall|y: LiveRangeListEntry| #[trigger]
            sorted(s).contains(y) <==> s.contains(y) by {
            if s.contains(y) && y != s.last() {
                let i = choose|i: int| 0 <= i < s.len() && s[i] == y;
                assert(r[i] == y);
                assert(r.contains(y));
            }
            if r.contains(y) {
                let i = choose|i: int| 0 <= i < r.len() && r[i] == y;
                assert(s[i] == y);
            }
            assert(s[s.len() - 1] == s.last());
        }
    }
}

/// Sorting leaves the entries in order.
pub proof fn lemma_sorted_in_order(s: Seq<LiveRangeListEntry>)
    ensures
        forall|i: int, j: int|
            0 <= i <= j < sorted(s).len() ==> (#[trigger] sorted(s)[i]).range.from <= (
            #[trigger] sorted(s)[j]).range.from,
    decreases s.len(),
{
    if s.len() > 0 {
        lemma_sorted_in_order(s.drop_last());
        lemma_sort_in_in_order(sorted(s.drop_last()), s.last());
    }
}

proof fn lemma_sort_in_in_order(s: Seq<LiveRangeListEntry>, x: LiveRangeListEntry)
    requires
        forall|i: int, j: int|
            0 <= i <= j < s.len() ==> (#[trigger] s[i]).range.from <= (
            #[trigger] s[j]).range.from,
    ensures
        forall|i: int, j: int|
            0 <= i <= j < sort_in(s, x).len() ==> (#[trigger] sort_in(s, x)[i]).range.from <= (
            #[trigger] sort_in(s, x)[j]).range.from,
    decreases s.len(),
{
    let t = sort_in(s, x);
    if s.len() == 0 || s.last().range.from <= x.range.from {
        assert forall|i: int, j: int| 0 <= i <= j < t.len() implies (
        #[trigger] t[i]).range.from <= (#[trigger] t[j]).range.from by {
            if i < s.len() {
                assert(t[i] == s[i]);
                assert(s[i].range.from <= s[s.len() - 1].range.from);
            }
            if j < s.len() {
                assert(t[j] == s[j]);
            }
        }
    } else {
        let r = s.drop_last();
        lemma_sort_in_in_order(r, x);
        lemma_sort_in(r, x);
        let u = sort_in(r, x);
        assert forall|i: int| 0 <= i < u.len() implies (#[trigger] u[i]).range.from
            <= s.last().range.from by {
            assert(u.contains(u[i]));
            if u[i] != x {
                let k = choose|k: int| 0 <= k < r.len() && r[k] == u[i];
                assert(s[k] == u[i]);
                assert(s[k].range.from <= s[s.len() - 1].range.from);
            }
        }
        assert forall|i: int, j: int| 0 <= i <= j < t.len() implies (
        #[trigger] t[i]).range.from <= (#[trigger] t[j]).range.from by {
            if i < u.len() {
                assert(t[i] == u[i]);
            }
            if j < u.len() {
                assert(t[j] == u[j]);
            }
        }
    }
}

pub proof fn lemma_sorted_separate(s: Seq<LiveRangeListEntry>)
    requires
        separate(s),
    ensures
        separate(sorted(s)),
    decreases s.len(),
{
    if s.len() > 0 {
        let r = s.drop_last();
        let x = s.last();
        assert(separate(r)) by {
            assert forall|i: int, j: int|
                0 <= i < r.len() && 0 <= j < r.len() && i != j implies !(
            #[trigger] r[i]).range.overlaps((#[trigger] r[j]).range) by {
                assert(r[i] == s[i]);
                assert(r[j] == s[j]);
            }
            assert forall|i: int| 0 <= i < r.len() implies (#[trigger] r[i]).range.ok() by {
                assert(r[i] == s[i]);
            }
        }
        lemma_sorted_separate(r);
        lemma_sorted(r);
        let q = sorted(r);
        let t = q.push(x);
        assert(s[s.len() - 1] == x);
        assert forall|i: int| 0 <= i < q.len() implies !(#[trigger] q[i]).range.overlaps(x.range)
            && !x.range.overlaps(q[i].range) by {
            assert(q.contains(q[i]));
            let k = choose|k: int| 0 <= k < r.len() && r[k] == q[i];
            assert(s[k] == q[i]);
        }
        assert(separate(t)) by {
            assert forall|i: int, j: int|
                0 <= i < t.len() && 0 <= j < t.len() && i != j implies !(
            #[trigger] t[i]).range.overlaps((#[trigger] t[j]).range) by {
                if i < q.len() {
                    assert(t[i] == q[i]);
                }
                if j < q.len() {
                    assert(t[j] == q[j]);
                }
            }
            assert forall|i: int| 0 <= i < t.len() implies (#[trigger] t[i]).range.ok() by {
                if i < q.len() {
                    assert(t[i] == q[i]);
                }
            }
        }
        lemma_sort_in_separate(q, x);
    }
}

/// A register that is free for separate ranges can be taken for them one by one.
pub proof fn lemma_taken_for(taken: Taken, ranges: Seq<LiveRangeListEntry>, n: nat)
    requires
        in_order(taken),
        separate(ranges),
        !conflict(taken, ranges),
        n <= ranges.len(),
    ensures
        in_order(taken_for(taken, ranges, n)),
        forall|i: int|
            n <= i < ranges.len() ==> !hit(
                taken_for(taken, ranges, n),
                (#[trigger] ranges[i]).range,
            ),
        forall|x: (LiveRangeKey, LiveRangeIndex)| #[trigger]
            taken_for(taken, ranges, n).contains(x) <==> taken.contains(x) || exists|i: int|
                0 <= i < n && x == ((#[trigger] ranges[i]).range, ranges[i].index),
    decreases n,
{
    if n > 0 {
        let m = (n - 1) as nat;
        lemma_taken_for(taken, ranges, m);
        let t = taken_for(taken, ranges, m);
        let e = ranges[m as int];
        assert(!hit(t, e.range));
        lemma_inserted(t, e.range, e.index);
        let u = taken_for(taken, ranges, n);
        assert forall|i: int| n <= i < ranges.len() implies !hit(u, (#[trigger] ranges[i]).range) by {
            assert(!hit(t, ranges[i].range));
            if hit(u, ranges[i].range) {
                let k = choose|k: int| 0 <= k < u.len() && (#[trigger] u[k]).0.overlaps(
                    ranges[i].range,
                );
                assert(u.contains(u[k]));
                if u[k] == (e.range, e.index) {
                    assert(!ranges[m as int].range.overlaps(ranges[i].range));
                } else {
                    let l = choose|l: int| 0 <= l < t.len() && t[l] == u[k];
                    assert(t[l].0.overlaps(ranges[i].range));
                }
            }
        }
        assert forall|x: (LiveRangeKey, LiveRangeIndex)| #[trigger]
            u.contains(x) <==> taken.contains(x) || exists|i: int|
                0 <= i < n && x == ((#[trigger] ranges[i]).range, ranges[i].index) by {
            if x == (e.range, e.index) {
                assert(x == (ranges[m as int].range, ranges[m as int].index));
            }
            if t.contains(x) && !taken.contains(x) {
                let i = choose|i: int|
                    0 <= i < m && x == ((#[trigger] ranges[i]).range, ranges[i].index);
                assert(x == (ranges[i].range, ranges[i].index));
            }
        }
    } else {
        assert forall|i: int| n <= i < ranges.len() implies !hit(
            taken,
            (#[trigger] ranges[i]).range,
        ) by {
            if hit(taken, ranges[i].range) {
                assert(conflict(taken, ranges));
            }
        }
    }
}

/// Sorts the entries by their first points.
fn sort_by_from(v: &mut Vec<LiveRangeListEntry>)
    ensures
        final(v)@ == sorted(old(v)@),
{
    let ghost all = v@;
    let n: usize = v.len();
    let mut out: Vec<LiveRangeListEntry> = Vec::new();
    assert(all.take(0) =~= Seq::empty());
    for i in 0..n
        invariant
            all == v@,
            n == all.len(),
            out@ == sorted(all.take(i as int)),
    {
        let x = v[i];
        let ghost before = out@;
        let mut p: usize = out.len();
        proof {
            lemma_sorted(all.take(i as int));
            assert(before.take(p as int) =~= before);
            assert(sort_in(before, x) + before.skip(p as int) =~= sort_in(before, x));
        }
        while p > 0 && out[p - 1].range.from > x.range.from
            invariant
                p <= out@.len(),
                out@ == before,
                sort_in(before, x) == sort_in(before.take(p as int), x) + before.skip(p as int),
            decreases p,
        {
            proof {
                let s = before.take(p as int);
                assert(s.last() == before[p - 1]);
                assert(s.drop_last() =~= before.take(p - 1));
                assert(sort_in(s, x) == sort_in(before.take(p - 1), x).push(before[p - 1]));
                assert(sort_in(s, x) + before.skip(p as int) =~= sort_in(before.take(p - 1), x)
                    + before.skip(p - 1));
            }
            p -= 1;
        }
        proof {
            let s = before.take(p as int);
            assert(sort_in(s, x) == s.push(x));
            assert(s.push(x) + before.skip(p as int) =~= before.insert(p as int, x));
            assert(all.take(i + 1).drop_last() =~= all.take(i as int));
            assert(all.take(i + 1).last() == x);
        }
        out.insert(p, x);
    }
    assert(all.take(n as int) =~= all);
    *v = out;
}

impl<'a, F: Function> Env<'a, F> {
    /// Gives the bundle the register if the register is free for all ranges of the bundle.
    fn try_to_allocate_bundle_to_reg(&mut self, bundle: LiveBundleIndex, reg: PReg) -> (r: bool)
        requires
            bundle.id < old(self).ctx.bundles@.len(),
            old(self).ctx.pregs@.len() == NUM_PREGS,
            separate(old(self).ctx.bundles@[bundle.id as int].ranges@),
            old(self).ctx.pregs@[reg.number()].allocations.wf(),
        ensures
            r == !conflict(
                old(self).ctx.pregs@[reg.number()].allocations@,
                old(self).ctx.bundles@[bundle.id as int].ranges@,
            ),
            !r ==> *final(self) == *old(self),
            r ==> {
                let s = old(self).ctx.reg_state();
                let b = s.bundles[bundle.id as int];
                &&& final(self).ctx.reg_state() == (RegState {
                    bundles: s.bundles.update(
                        bundle.id as int,
                        BundleView { allocation: Allocation::Reg(reg), ..b },
                    ),
                    pregs: s.pregs.update(
                        reg.number(),
                        taken_for(s.pregs[reg.number()], b.ranges, b.ranges.len()),
                    ),
                    ..s
                })
                &&& *final(self) == (Env {
                    ctx: Ctx {
                        bundles: final(self).ctx.bundles,
                        pregs: final(self).ctx.pregs,
                        ..old(self).ctx
                    },
                    ..*old(self)
                })
            },
    {
        let b: usize = bundle.id as usize;
        let p: usize = reg.index();
        let n: usize = self.ctx.bundles[b].ranges.len();
        let ghost ranges = self.ctx.bundles@[b as int].ranges@;
        let ghost taken = self.ctx.pregs@[p as int].allocations@;
        for i in 0..n
            invariant
                *self == *old(self),
                b == bundle.id,
                b < self.ctx.bundles@.len(),
                p == reg.number(),
                p < self.ctx.pregs@.len(),
                ranges == self.ctx.bundles@[b as int].ranges@,
                taken == self.ctx.pregs@[p as int].allocations@,
                n == ranges.len(),
                separate(ranges),
                self.ctx.pregs@[p as int].allocations.wf(),
                forall|j: int| 0 <= j < i ==> !hit(taken, (#[trigger] ranges[j]).range),
        {
            let range = self.ctx.bundles[b].ranges[i].range;
            assert(ranges[i as int].range.ok());
            if self.ctx.pregs[p].allocations.contains_key(range) {
                assert(hit(taken, ranges[i as int].range));
                return false;
            }
        }
        assert(!conflict(taken, ranges));
        self.ctx.bundles[b].allocation = Allocation::Reg(reg);
        for i in 0..n
            invariant
                b == bundle.id,
                p == reg.number(),
                b < old(self).ctx.bundles@.len(),
                p < old(self).ctx.pregs@.len(),
                ranges == old(self).ctx.bundles@[b as int].ranges@,
                taken == old(self).ctx.pregs@[p as int].allocations@,
                n == ranges.len(),
                separate(ranges),
                in_order(taken),
                !conflict(taken, ranges),
                *self == (Env {
                    ctx: Ctx {
                        bundles: self.ctx.bundles,
                        pregs: self.ctx.pregs,
                        ..old(self).ctx
                    },
                    ..*old(self)
                }),
                self.ctx.bundles@.len() == old(self).ctx.bundles@.len(),
                forall|j: int|
                    0 <= j < self.ctx.bundles@.len() && j != b ==> #[trigger] self.ctx.bundles@[j]
                        == old(self).ctx.bundles@[j],
                self.ctx.bundles@[b as int]@ == (BundleView {
                    allocation: Allocation::Reg(reg),
                    ..old(self).ctx.bundles@[b as int]@
                }),
                self.ctx.pregs@.len() == old(self).ctx.pregs@.len(),
                forall|j: int|
                    0 <= j < self.ctx.pregs@.len() && j != p ==> #[trigger] self.ctx.pregs@[j]
                        == old(self).ctx.pregs@[j],
                self.ctx.pregs@[p as int].allocations@ == taken_for(taken, ranges, i as nat),
        {
            proof {
                lemma_taken_for(taken, ranges, i as nat);
                assert(ranges[i as int].range.ok());
            }
            let entry = self.ctx.bundles[b].ranges[i];
            self.ctx.pregs[p].allocations.insert(entry.range, entry.index);
        }
        proof {
            let s = old(self).ctx.reg_state();
            let v = s.bundles[bundle.id as int];
            assert(self.ctx.reg_state() =~= RegState {
                bundles: s.bundles.update(
                    bundle.id as int,
                    BundleView { allocation: Allocation::Reg(reg), ..v },
                ),
                pregs: s.pregs.update(
                    reg.number(),
                    taken_for(s.pregs[reg.number()], v.ranges, v.ranges.len()),
                ),
                ..s
            });
        }
        true
    }

    /// Nothing but what [`RegState`] holds changes from `self` to `to`.
    pub open spec fn same_but_regs(&self, to: &Env<'a, F>) -> bool {
        &&& self.func == to.func
        &&& self.env == to.env
        &&& self.ctx.ranges == to.ctx.ranges
        &&& self.ctx.hints() == to.ctx.hints()
        &&& self.ctx.spillsets@.len() == to.ctx.spillsets@.len()
        &&& forall|i: int|
            0 <= i < self.ctx.spillsets@.len() ==> (#[trigger] to.ctx.spillsets@[i]) == (SpillSet {
                required: to.ctx.spillsets@[i].required,
                ..self.ctx.spillsets@[i]
            })
        &&& self.ctx.spilled_bundles == to.ctx.spilled_bundles
        &&& self.ctx.spillslots == to.ctx.spillslots
        &&& self.ctx.slots_by_class == to.ctx.slots_by_class
        &&& self.ctx.fixed_spillslot_map == to.ctx.fixed_spillslot_map
        &&& self.ctx.output.num_spillslots == to.ctx.output.num_spillslots
        &&& self.ctx.scratch_spillset_pool == to.ctx.scratch_spillset_pool
    }

    /// Looks for a register for one bundle.
    fn try_bundle(&mut self, bundle: LiveBundleIndex)
        requires
            old(self).ctx.reg_state().ok(seq![bundle]),
            old(self).ctx.output.stats.spill_bundle_reg_probes < usize::MAX,
            old(self).ctx.output.stats.spill_bundle_reg_success < usize::MAX,
        ensures
            final(self).ctx.reg_state() == old(self).ctx.reg_state().try_bundle(
                bundle,
                old(self).env,
                old(self).ctx.hints(),
            ),
            old(self).same_but_regs(final(self)),
    {
        let b: usize = bundle.id as usize;
        let ghost start = self.ctx.reg_state();
        proof {
            assert(start.bundle_ok(seq![bundle][0]));
            assert(start.bundles[b as int] == self.ctx.bundles@[b as int]@);
        }
        if self.ctx.bundles[b].ranges.len() == 0 {
            return;
        }
        let ss: usize = self.ctx.bundles[b].spillset.id as usize;
        let class = self.ctx.spillsets[ss].class;
        let hint = self.ctx.spillsets[ss].hint.as_valid();
        let limit = self.ctx.bundles[b].limit;
        sort_by_from(&mut self.ctx.bundles[b].ranges);
        self.ctx.output.stats.spill_bundle_reg_probes =
        self.ctx.output.stats.spill_bundle_reg_probes + 1;
        let ghost mid = *self;
        let ghost ranges = sorted(start.bundles[b as int].ranges);
        proof {
            lemma_sorted_separate(start.bundles[b as int].ranges);
            assert(mid.ctx.reg_state() =~= RegState {
                bundles: start.bundles.update(
                    b as int,
                    BundleView { ranges, ..start.bundles[b as int] },
                ),
                probes: start.probes + 1,
                ..start
            });
            assert(mid.ctx.hints() =~= old(self).ctx.hints());
        }
        let order = reg_traversal(self.env, class, hint, b, limit);
        let n: usize = order.len();
        let mut i: usize = 0;
        while i < n
            invariant
                *self == mid,
                i <= n,
                n == order@.len(),
                bundle.id < self.ctx.bundles@.len(),
                b == bundle.id,
                self.ctx.pregs@.len() == NUM_PREGS,
                separate(ranges),
                ranges == self.ctx.bundles@[b as int].ranges@,
                ranges == sorted(start.bundles[b as int].ranges),
                start.pregs == self.ctx.reg_state().pregs,
                forall|j: int| 0 <= j < start.pregs.len() ==> in_order(#[trigger] start.pregs[j]),
                first_free(start.pregs, ranges, order@, 0) == first_free(
                    start.pregs,
                    ranges,
                    order@,
                    i as int,
                ),
                mid.ctx.reg_state() == (RegState {
                    bundles: start.bundles.update(
                        b as int,
                        BundleView { ranges, ..start.bundles[b as int] },
                    ),
                    probes: start.probes + 1,
                    ..start
                }),
                order@ == mid.env.traversal(class, hint, b as nat, limit),
                old(self).same_but_regs(&mid),
                start == old(self).ctx.reg_state(),
                old(self).ctx.reg_state().ok(seq![bundle]),
                0 <= b < start.bundles.len(),
                start.bundles[b as int].ranges.len() > 0,
                ss == start.bundles[b as int].spillset.id,
                limit == start.bundles[b as int].limit,
                class == old(self).ctx.hints()[ss as int].class,
                hint == old(self).ctx.hints()[ss as int].hint.valid(),
                mid.ctx.output.stats.spill_bundle_reg_success < usize::MAX,
            decreases n - i,
        {
            let preg = order[i];
            assert(start.pregs[preg.number()] == self.ctx.pregs@[preg.number()].allocations@);
            if self.try_to_allocate_bundle_to_reg(bundle, preg) {
                let ghost got = self.ctx.reg_state();
                self.ctx.output.stats.spill_bundle_reg_success =
                self.ctx.output.stats.spill_bundle_reg_success + 1;
                proof {
                    assert(first_free(start.pregs, ranges, order@, 0) == Some(preg));
                    assert(self.ctx.reg_state().bundles =~= got.bundles);
                    assert(self.ctx.reg_state().pregs =~= got.pregs);
                    assert(self.ctx.reg_state() =~= start.try_bundle(
                        bundle,
                        old(self).env,
                        old(self).ctx.hints(),
                    ));
                    assert(self.ctx.hints() =~= old(self).ctx.hints());
                }
                return;
            }
            i += 1;
        }
        self.ctx.spillsets[ss].required = true;
        proof {
            assert(first_free(start.pregs, ranges, order@, 0) is None);
            assert(self.ctx.reg_state() =~= start.try_bundle(
                bundle,
                old(self).env,
                old(self).ctx.hints(),
            ));
            assert(self.ctx.hints() =~= old(self).ctx.hints());
        }
    }
}

pub proof fn lemma_ok_try_bundle(
    s: RegState,
    b: LiveBundleIndex,
    env: &MachineEnv,
    hints: Seq<SetHint>,
    spilled: Seq<LiveBundleIndex>,
)
    requires
        s.ok(spilled),
        s.bundle_ok(b),
    ensures
        s.try_bundle(b, env, hints).ok(spilled),
        s.try_bundle(b, env, hints).success <= s.success + 1,
        s.try_bundle(b, env, hints).probes <= s.probes + 1,
{
    let bundle = s.bundles[b.id as int];
    if bundle.ranges.len() > 0 {
        let t = s.try_bundle(b, env, hints);
        let ranges = sorted(bundle.ranges);
        lemma_sorted_separate(bundle.ranges);
        lemma_sorted(bundle.ranges);
        let set = bundle.spillset.id as int;
        let order = env.traversal(
            hints[set].class,
            hints[set].hint.valid(),
            b.id as nat,
            bundle.limit,
        );
        lemma_first_free(s.pregs, ranges, order, 0);
        match first_free(s.pregs, ranges, order, 0) {
            Some(r) => {
                lemma_taken_for(s.pregs[r.number()], ranges, ranges.len());
            },
            None => {},
        }
        assert forall|i: int| 0 <= i < t.pregs.len() implies in_order(#[trigger] t.pregs[i]) by {
            assert(in_order(s.pregs[i]));
        }
        assert forall|i: int| 0 <= i < spilled.len() implies t.bundle_ok(
            #[trigger] spilled[i],
        ) by {
            assert(s.bundle_ok(spilled[i]));
            if spilled[i].id != b.id {
                assert(t.bundles[spilled[i].id as int] == s.bundles[spilled[i].id as int]);
            }
        }
    }
}

/// The register that is found is free.
pub proof fn lemma_first_free(
    pregs: Seq<Taken>,
    ranges: Seq<LiveRangeListEntry>,
    order: Seq<PReg>,
    i: int,
)
    ensures
        first_free(pregs, ranges, order, i) matches Some(r) ==> !conflict(
            pregs[r.number()],
            ranges,
        ) && order.contains(r),
    decreases order.len() - i,
{
    if 0 <= i < order.len() && conflict(pregs[order[i].number()], ranges) {
        lemma_first_free(pregs, ranges, order, i + 1);
    }
}

impl<'a, F: Function> Env<'a, F> {
    /// Looks for a register for each bundle that was spilled. The spill sets of those that
    /// get none need a slot.
    pub fn try_allocating_regs_for_spilled_bundles(&mut self)
        requires
            old(self).ctx.reg_state().ok(old(self).ctx.spilled_bundles@),
            old(self).ctx.output.stats.spill_bundle_reg_probes
                + old(self).ctx.spilled_bundles@.len() <= usize::MAX,
            old(self).ctx.output.stats.spill_bundle_reg_success
                + old(self).ctx.spilled_bundles@.len() <= usize::MAX,
        ensures
            final(self).ctx.reg_state() == old(self).ctx.reg_state().try_bundles(
                old(self).ctx.spilled_bundles@,
                old(self).env,
                old(self).ctx.hints(),
                old(self).ctx.spilled_bundles@.len(),
            ),
            final(self).ctx.reg_state().ok(old(self).ctx.spilled_bundles@),
            old(self).same_but_regs(final(self)),
    {
        let ghost start = self.ctx.reg_state();
        let ghost spilled = self.ctx.spilled_bundles@;
        let ghost hints = self.ctx.hints();
        let n: usize = self.ctx.spilled_bundles.len();
        for i in 0..n
            invariant
                n == spilled.len(),
                start == old(self).ctx.reg_state(),
                spilled == old(self).ctx.spilled_bundles@,
                hints == old(self).ctx.hints(),
                start.probes + n <= usize::MAX,
                start.success + n <= usize::MAX,
                self.ctx.reg_state() == start.try_bundles(spilled, old(self).env, hints, i as nat),
                self.ctx.reg_state().ok(spilled),
                self.ctx.reg_state().probes <= start.probes + i,
                self.ctx.reg_state().success <= start.success + i,
                old(self).same_but_regs(self),
        {
            let bundle = self.ctx.spilled_bundles[i];
            proof {
                assert(self.ctx.reg_state().bundle_ok(spilled[i as int]));
                lemma_ok_try_bundle(self.ctx.reg_state(), bundle, self.env, hints, spilled);
            }
            self.try_bundle(bundle);
        }
    }
}

} // verus!
