//! What is traced of the spill stage.
use crate::report::{decimal, digits};
use crate::spill::{SetView, SpillCounts};
use crate::spill_data::{Ctx, Env, Function};
use vstd::prelude::*;
use vstd::string::StringExecFns;

verus! {

impl Ctx {
    /// The virtual register `v` has a live range in a bundle of the spill set `ss`.
    pub open spec fn spills_vreg(&self, ss: int, v: u32) -> bool {
        exists|b: int, e: int| #[trigger] self.spills_vreg_at(ss, v, b, e)
    }

    /// The range `e` of the bundle `b`, which is spilled with the spill set `ss`, is one of
    /// the virtual register `v`.
    pub open spec fn spills_vreg_at(&self, ss: int, v: u32, b: int, e: int) -> bool {
        &&& 0 <= b < self.bundles@.len()
        &&& self.bundles@[b].spillset.id == ss
        &&& 0 <= e < self.bundles@[b].ranges@.len()
        &&& self.ranges@[self.bundles@[b].ranges@[e].index.id as int].vreg == v
    }

    /// The ranges of the bundles that have a spill set exist.
    pub open spec fn ranges_exist(&self) -> bool {
        forall|b: int, e: int|
            0 <= b < self.bundles@.len() && self.bundles@[b].spillset.id < self.spillsets@.len()
                && 0 <= e < self.bundles@[b].ranges@.len() ==> (
            #[trigger] self.bundles@[b].ranges@[e]).index.id < self.ranges@.len()
    }
}

/// Each element is larger than those before it.
pub open spec fn ascending(s: Seq<u32>) -> bool {
    forall|i: int, j: int| 0 <= i < j < s.len() ==> #[trigger] s[i] < #[trigger] s[j]
}

/// Adds a number to an ascending list, unless it is there already.
fn add_ascending(v: &mut Vec<u32>, x: u32)
    requires
        ascending(old(v)@),
    ensures
        ascending(final(v)@),
        forall|y: u32| #[trigger] final(v)@.contains(y) <==> old(v)@.contains(y) || y == x,
{
    let ghost before = v@;
    let mut p: usize = v.len();
    while p > 0 && v[p - 1] > x
        invariant
            p <= v@.len(),
            v@ == before,
            forall|i: int| p <= i < v@.len() ==> #[trigger] v@[i] > x,
        decreases p,
    {
        p -= 1;
    }
    if p > 0 && v[p - 1] == x {
        assert(before[p - 1] == x);
        return;
    }
    v.insert(p, x);
    proof {
        assert forall|i: int| 0 <= i < p implies #[trigger] before[i] < x by {
            assert(before[i] <= before[p - 1]);
        }
        assert forall|y: u32| #[trigger] v@.contains(y) <==> before.contains(y) || y == x by {
            assert(v@[p as int] == x);
            if before.contains(y) {
                let i = choose|i: int| 0 <= i < before.len() && before[i] == y;
                if i < p {
                    assert(v@[i] == y);
                } else {
                    assert(v@[i + 1] == y);
                }
            }
            if v@.contains(y) && y != x {
                let i = choose|i: int| 0 <= i < v@.len() && v@[i] == y;
                if i < p {
                    assert(before[i] == y);
                } else {
                    assert(before[i - 1] == y);
                }
            }
        }
    }
}

/// A spill set that needs a slot, and the virtual registers that are spilled with it.
pub struct RequiredSet {
    pub spillset: u32,
    pub vregs: Vec<u32>,
}

/// How many spill sets ask for a fixed home, and how many of those need no slot.
#[derive(Clone, Copy, Debug, PartialEq, Eq, Structural)]
pub struct FixedCounts {
    pub asked: usize,
    pub not_required: usize,
}

/// How many of the first `n` spill sets ask for a fixed home.
pub open spec fn n_asked(sets: Seq<SetView>, n: nat) -> nat
    decreases n,
{
    if n == 0 {
        0
    } else {
        n_asked(sets, (n - 1) as nat) + if sets[n - 1].fixed_slot is Some {
            1nat
        } else {
            0nat
        }
    }
}

/// How many of the first `n` spill sets ask for a fixed home and need no slot.
pub open spec fn n_asked_not_required(sets: Seq<SetView>, n: nat) -> nat
    decreases n,
{
    if n == 0 {
        0
    } else {
        n_asked_not_required(sets, (n - 1) as nat) + if sets[n - 1].fixed_slot is Some
            && !sets[n - 1].required {
            1nat
        } else {
            0nat
        }
    }
}

/// The line that sums up a run.
pub open spec fn trace_text(sets: Seq<SetView>, counts: SpillCounts) -> Seq<char> {
    "[fixspill:ra2] spillsets="@ + decimal(sets.len()) + " req="@ + decimal(counts.required as nat)
        + " fixed_req="@ + decimal(counts.fixed as nat) + " fixed_notreq="@ + decimal(
        n_asked_not_required(sets, sets.len()),
    ) + " auto="@ + decimal((counts.required - counts.fixed) as nat) + " n_seed_fixed="@ + decimal(
        n_asked(sets, sets.len()),
    )
}

impl<'a, F: Function> Env<'a, F> {
    /// The virtual registers that are spilled with the spill set `ss`, in their order.
    fn vregs_of(&self, ss: usize) -> (r: Vec<u32>)
        requires
            ss < self.ctx.spillsets@.len(),
            self.ctx.ranges_exist(),
        ensures
            ascending(r@),
            forall|v: u32| #[trigger] r@.contains(v) <==> self.ctx.spills_vreg(ss as int, v),
    {
        let mut r: Vec<u32> = Vec::new();
        let n: usize = self.ctx.bundles.len();
        for b in 0..n
            invariant
                n == self.ctx.bundles@.len(),
                ss < self.ctx.spillsets@.len(),
                self.ctx.ranges_exist(),
                ascending(r@),
                forall|v: u32| #[trigger]
                    r@.contains(v) <==> exists|c: int, e: int|
                        c < b && #[trigger] self.ctx.spills_vreg_at(ss as int, v, c, e),
        {
            if self.ctx.bundles[b].spillset.id as usize == ss {
                let m: usize = self.ctx.bundles[b].ranges.len();
                for i in 0..m
                    invariant
                        n == self.ctx.bundles@.len(),
                        b < n,
                        m == self.ctx.bundles@[b as int].ranges@.len(),
                        self.ctx.bundles@[b as int].spillset.id == ss,
                        ss < self.ctx.spillsets@.len(),
                        self.ctx.ranges_exist(),
                        ascending(r@),
                        forall|v: u32| #[trigger]
                            r@.contains(v) <==> exists|c: int, e: int|
                                (c < b || (c == b && e < i))
                                    && #[trigger] self.ctx.spills_vreg_at(ss as int, v, c, e),
                {
                    let ghost before = r@;
                    let index = self.ctx.bundles[b].ranges[i].index.id as usize;
                    assert(self.ctx.bundles@[b as int].ranges@[i as int].index.id
                        < self.ctx.ranges@.len());
                    let vreg = self.ctx.ranges[index].vreg;
                    add_ascending(&mut r, vreg);
                    proof {
                        assert forall|v: u32| #[trigger]
                            r@.contains(v) <==> exists|c: int, e: int|
                                (c < b || (c == b && e < i + 1))
                                    && #[trigger] self.ctx.spills_vreg_at(
                                    ss as int,
                                    v,
                                    c,
                                    e,
                                ) by {
                            if v == vreg {
                                assert(self.ctx.spills_vreg_at(ss as int, v, b as int, i as int));
                            }
                            if before.contains(v) {
                                let (c, e) = choose|c: int, e: int|
                                    (c < b || (c == b && e < i))
                                        && #[trigger] self.ctx.spills_vreg_at(ss as int, v, c, e);
                                assert(self.ctx.spills_vreg_at(ss as int, v, c, e));
                            }
                        }
                    }
                }
            }
            proof {
                assert forall|v: u32| #[trigger]
                    r@.contains(v) <==> exists|c: int, e: int|
                        c < b + 1 && #[trigger] self.ctx.spills_vreg_at(ss as int, v, c, e) by {
                    if r@.contains(v) {
                        let (c, e) = choose|c: int, e: int|
                            c < b + 1 && #[trigger] self.ctx.spills_vreg_at(ss as int, v, c, e);
                        assert(self.ctx.spills_vreg_at(ss as int, v, c, e));
                    }
                }
            }
        }
        proof {
            assert forall|v: u32| #[trigger]
                r@.contains(v) <==> self.ctx.spills_vreg(ss as int, v) by {
                if self.ctx.spills_vreg(ss as int, v) {
                    let (c, e) = choose|c: int, e: int| #[trigger]
                        self.ctx.spills_vreg_at(ss as int, v, c, e);
                    assert(c < n && self.ctx.spills_vreg_at(ss as int, v, c, e));
                }
            }
        }
        r
    }

    /// The spill sets that need a slot and have a live range, in their order, each with the
    /// virtual registers that are spilled with it.
    pub fn required_vregs(&self) -> (r: Vec<RequiredSet>)
        requires
            self.ctx.ranges_exist(),
            self.ctx.spillsets@.len() <= u32::MAX,
        ensures
            forall|i: int, j: int|
                0 <= i < j < r@.len() ==> (#[trigger] r@[i]).spillset < (#[trigger] r@[j]).spillset,
            forall|i: int|
                0 <= i < r@.len() ==> {
                    let ss = (#[trigger] r@[i]).spillset as int;
                    &&& ss < self.ctx.spillsets@.len()
                    &&& self.ctx.spillsets@[ss].required
                    &&& r@[i].vregs@.len() > 0
                    &&& ascending(r@[i].vregs@)
                    &&& forall|v: u32| #[trigger]
                        r@[i].vregs@.contains(v) <==> self.ctx.spills_vreg(ss, v)
                },
            forall|ss: int, v: u32|
                0 <= ss < self.ctx.spillsets@.len() && self.ctx.spillsets@[ss].required
                    && #[trigger] self.ctx.spills_vreg(ss, v) ==> exists|i: int|
                    0 <= i < r@.len() && (#[trigger] r@[i]).spillset == ss,
    {
        let mut r: Vec<RequiredSet> = Vec::new();
        let n: usize = self.ctx.spillsets.len();
        for ss in 0..n
            invariant
                n == self.ctx.spillsets@.len(),
                n <= u32::MAX,
                self.ctx.ranges_exist(),
                forall|i: int|
                    0 <= i < r@.len() ==> {
                        let s = (#[trigger] r@[i]).spillset as int;
                        &&& s < ss
                        &&& self.ctx.spillsets@[s].required
                        &&& r@[i].vregs@.len() > 0
                        &&& ascending(r@[i].vregs@)
                        &&& forall|v: u32| #[trigger]
                            r@[i].vregs@.contains(v) <==> self.ctx.spills_vreg(s, v)
                    },
                forall|i: int, j: int|
                    0 <= i < j < r@.len() ==> (#[trigger] r@[i]).spillset < (
                    #[trigger] r@[j]).spillset,
                forall|s: int, v: u32|
                    0 <= s < ss && self.ctx.spillsets@[s].required
                        && #[trigger] self.ctx.spills_vreg(s, v) ==> exists|i: int|
                        0 <= i < r@.len() && (#[trigger] r@[i]).spillset == s,
        {
            let ghost before = r@;
            if self.ctx.spillsets[ss].required {
                let vregs = self.vregs_of(ss);
                let ghost found = vregs@;
                if vregs.len() > 0 {
                    r.push(RequiredSet { spillset: ss as u32, vregs });
                }
                proof {
                    assert forall|s: int, v: u32|
                        0 <= s < ss + 1 && self.ctx.spillsets@[s].required
                            && #[trigger] self.ctx.spills_vreg(s, v) implies exists|i: int|
                        0 <= i < r@.len() && (#[trigger] r@[i]).spillset == s by {
                        if s < ss {
                            let i = choose|i: int|
                                0 <= i < before.len() && (#[trigger] before[i]).spillset == s;
                            assert(r@[i] == before[i]);
                        } else {
                            assert(found.contains(v));
                            assert(r@[before.len() as int].spillset == s);
                        }
                    }
                }
            }
        }
        r
    }

    /// How many spill sets ask for a fixed home, and how many of those need no slot.
    pub fn fixed_counts(&self) -> (r: FixedCounts)
        ensures
            r.asked == n_asked(self.ctx.sets(), self.ctx.sets().len()),
            r.not_required == n_asked_not_required(self.ctx.sets(), self.ctx.sets().len()),
    {
        let mut asked: usize = 0;
        let mut not_required: usize = 0;
        let n: usize = self.ctx.spillsets.len();
        for i in 0..n
            invariant
                n == self.ctx.spillsets@.len(),
                asked == n_asked(self.ctx.sets(), i as nat),
                not_required == n_asked_not_required(self.ctx.sets(), i as nat),
                not_required <= asked <= i,
        {
            assert(self.ctx.sets()[i as int] == self.ctx.spillsets@[i as int].set());
            if self.ctx.spillsets[i].fixed_slot.is_some() {
                asked += 1;
                if !self.ctx.spillsets[i].required {
                    not_required += 1;
                }
            }
        }
        FixedCounts { asked, not_required }
    }

    /// The line that sums up a run of which `counts` came.
    pub fn trace_line(&self, counts: SpillCounts) -> (r: String)
        requires
            counts.fixed <= counts.required,
        ensures
            r@ == trace_text(self.ctx.sets(), counts),
    {
        let fixed = self.fixed_counts();
        let mut s = String::from_str("[fixspill:ra2] spillsets=");
        s.append(digits(self.ctx.spillsets.len()).as_str());
        s.append(" req=");
        s.append(digits(counts.required).as_str());
        s.append(" fixed_req=");
        s.append(digits(counts.fixed).as_str());
        s.append(" fixed_notreq=");
        s.append(digits(fixed.not_required).as_str());
        s.append(" auto=");
        s.append(digits(counts.required - counts.fixed).as_str());
        s.append(" n_seed_fixed=");
        s.append(digits(fixed.asked).as_str());
        assert(s@ =~= trace_text(self.ctx.sets(), counts));
        s
    }
}

} // verus!
