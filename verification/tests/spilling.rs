use clprobe::ranges::{LiveRangeKey, RangeMap};
use clprobe::regs::{reg_traversal, MachineEnv, PReg, RegClass};
use clprobe::spill::SpillCounts;
use clprobe::spill_data::{
    Allocation, Ctx, Env, LiveBundle, LiveBundleIndex, LiveRange, LiveRangeIndex,
    LiveRangeListEntry, Output, PRegData, SlotSizes, SpillSet, SpillSetIndex, SpillSlot,
    SpillSlotData, SpillSlotIndex, SpillSlotList, Stats, NO_INDEX,
};
use clprobe::spill_trace::FixedCounts;
use std::collections::HashMap;

const WORDS: SlotSizes = SlotSizes { int: 1, float: 1, vector: 2, named_by_last: false };
const BY_LAST: SlotSizes = SlotSizes { int: 1, float: 1, vector: 2, named_by_last: true };

fn key(from: u32, to: u32) -> LiveRangeKey {
    LiveRangeKey { from, to }
}

fn reg(n: u8) -> PReg {
    PReg { bits: n }
}

fn machine(preferred: &[u8], others: &[u8]) -> MachineEnv {
    let list = |v: &[u8]| v.iter().map(|n| reg(*n)).collect::<Vec<PReg>>();
    MachineEnv {
        preferred_regs_by_class: [list(preferred), vec![], vec![]],
        non_preferred_regs_by_class: [list(others), vec![], vec![]],
    }
}

fn set(class: RegClass, from: u32, to: u32) -> SpillSet {
    SpillSet {
        slot: SpillSlotIndex { id: NO_INDEX },
        hint: PReg::invalid(),
        class,
        required: true,
        range: key(from, to),
        fixed_slot: None,
    }
}

fn fixed(f: u32, from: u32, to: u32) -> SpillSet {
    SpillSet { fixed_slot: Some(SpillSlot::Fixed(f)), ..set(RegClass::Int, from, to) }
}

fn list() -> SpillSlotList {
    SpillSlotList { slots: vec![], probe_start: 0 }
}

fn ctx(spillsets: Vec<SpillSet>) -> Ctx {
    Ctx {
        ranges: vec![],
        bundles: vec![],
        spillsets,
        pregs: (0..256).map(|_| PRegData { allocations: RangeMap::new() }).collect(),
        spilled_bundles: vec![],
        spillslots: vec![],
        slots_by_class: [list(), list(), list()],
        fixed_spillslot_map: HashMap::new(),
        output: Output {
            num_spillslots: 0,
            stats: Stats { spill_bundle_reg_probes: 0, spill_bundle_reg_success: 0 },
        },
        scratch_spillset_pool: vec![],
    }
}

fn homes(ctx: &Ctx) -> Vec<u32> {
    ctx.spillsets.iter().map(|s| s.slot.id).collect()
}

fn frame(n: u32) -> Allocation {
    Allocation::Stack(SpillSlot::Frame(n))
}

#[test]
fn ranges_are_kept_in_order() {
    let mut map: RangeMap<u32> = RangeMap::new();
    map.insert(key(10, 20), 1);
    map.insert(key(30, 40), 2);
    map.insert(key(20, 30), 3);
    map.insert(key(0, 5), 4);
    let order: Vec<u32> = map.entries.iter().map(|e| e.1).collect();
    assert_eq!(order, [4, 1, 3, 2]);
}

#[test]
fn ranges_overlap_where_they_share_a_point() {
    let mut map: RangeMap<u32> = RangeMap::new();
    assert!(!map.contains_key(key(0, 100)));
    map.insert(key(10, 20), 1);
    map.insert(key(30, 40), 2);
    for (from, to, hit) in [
        (0, 10, false),
        (0, 11, true),
        (19, 20, true),
        (20, 30, false),
        (20, 31, true),
        (40, 50, false),
        (0, 50, true),
        (15, 15, true),
        (10, 10, false),
        (25, 25, false),
    ] {
        assert_eq!(map.contains_key(key(from, to)), hit, "{from}..{to}");
    }
}

#[test]
fn a_register_has_a_number_and_an_encoding() {
    assert_eq!((reg(70).index(), reg(70).hw_enc()), (70, 6));
    assert_eq!(PReg::invalid().as_valid(), None);
    assert_eq!(reg(3).as_valid(), Some(reg(3)));
}

#[test]
fn registers_are_tried_from_an_offset_on() {
    let env = machine(&[0, 1, 2, 3], &[10, 11]);
    let tried = |hint: Option<PReg>, offset: usize, limit: Option<u8>| {
        let regs = reg_traversal(&env, RegClass::Int, hint, offset, limit);
        regs.iter().map(|r| r.bits).collect::<Vec<u8>>()
    };
    assert_eq!(tried(None, 0, None), [0, 1, 2, 3, 10, 11]);
    assert_eq!(tried(None, 2, None), [2, 3, 0, 1, 10, 11]);
    assert_eq!(tried(None, 11, None), [0, 1, 2, 3, 11, 10]);
    assert_eq!(tried(None, 63 + 2, None), [2, 3, 0, 1, 10, 11]);
    assert_eq!(tried(Some(reg(3)), 0, None), [3, 0, 1, 2, 10, 11]);
    assert_eq!(tried(Some(reg(40)), 0, None), [40, 0, 1, 2, 3, 10, 11]);
    assert_eq!(tried(None, 0, Some(2)), [0, 1]);
    assert_eq!(tried(Some(reg(3)), 0, Some(2)), [0, 1]);
    assert_eq!(tried(None, 0, Some(0)), Vec::<u8>::new());
    assert!(reg_traversal(&env, RegClass::Float, None, 0, None).is_empty());
}

#[test]
fn no_register_is_tried_twice_and_none_is_left_out() {
    let env = machine(&[0, 1, 2, 3], &[10, 11]);
    for offset in 0..130 {
        let mut regs = reg_traversal(&env, RegClass::Int, Some(reg(2)), offset, None);
        assert_eq!(regs[0], reg(2));
        regs.sort_by_key(|r| r.bits);
        assert_eq!(regs.iter().map(|r| r.bits).collect::<Vec<u8>>(), [0, 1, 2, 3, 10, 11]);
    }
}

#[test]
fn slots_are_aligned_in_the_frame() {
    let env = machine(&[], &[]);
    let mut e = Env { func: &WORDS, env: &env, ctx: ctx(vec![]) };
    assert_eq!(e.allocate_spillslot(1), frame(0));
    assert_eq!(e.allocate_spillslot(4), frame(4));
    assert_eq!(e.ctx.output.num_spillslots, 8);
    assert_eq!(e.allocate_spillslot(2), frame(8));
    assert_eq!(e.allocate_spillslot(1), frame(10));
    assert_eq!(e.ctx.output.num_spillslots, 11);
}

#[test]
fn slots_can_go_by_their_last_word() {
    let env = machine(&[], &[]);
    let mut e = Env { func: &BY_LAST, env: &env, ctx: ctx(vec![]) };
    assert_eq!(e.allocate_spillslot(1), frame(0));
    assert_eq!(e.allocate_spillslot(4), frame(7));
    assert_eq!(e.ctx.output.num_spillslots, 8);
}

#[test]
fn a_spill_set_fits_where_nothing_overlaps() {
    let env = machine(&[], &[]);
    let sets = vec![set(RegClass::Int, 0, 10), set(RegClass::Int, 5, 15), set(RegClass::Int, 10, 20)];
    let mut e = Env { func: &WORDS, env: &env, ctx: ctx(sets) };
    e.ctx.spillslots.push(SpillSlotData {
        ranges: RangeMap::new(),
        slots: 1,
        alloc: Allocation::Unassigned,
    });
    let slot = SpillSlotIndex { id: 0 };
    assert!(e.spillslot_can_fit_spillset(slot, SpillSetIndex { id: 0 }));
    e.allocate_spillset_to_spillslot(SpillSetIndex { id: 0 }, slot);
    assert_eq!(homes(&e.ctx), [0, NO_INDEX, NO_INDEX]);
    assert!(!e.spillslot_can_fit_spillset(slot, SpillSetIndex { id: 1 }));
    assert!(e.spillslot_can_fit_spillset(slot, SpillSetIndex { id: 2 }));
    e.allocate_spillset_to_spillslot(SpillSetIndex { id: 2 }, slot);
    assert_eq!(e.ctx.spillslots[0].ranges.entries.len(), 2);
}

#[test]
fn spill_sets_share_a_slot_where_they_do_not_overlap() {
    let env = machine(&[], &[]);
    let sets = vec![
        set(RegClass::Int, 0, 10),
        set(RegClass::Int, 5, 15),
        set(RegClass::Int, 10, 20),
        set(RegClass::Int, 20, 30),
    ];
    let mut e = Env { func: &WORDS, env: &env, ctx: ctx(sets) };
    assert_eq!(e.allocate_spillslots(), SpillCounts { required: 4, fixed: 0 });
    // the third is looked for from the second's slot on
    assert_eq!(homes(&e.ctx), [0, 1, 0, 0]);
    assert_eq!(e.ctx.output.num_spillslots, 2);
    assert_eq!(e.ctx.slots_by_class[0].probe_start, 0);
    assert_eq!((e.ctx.spillslots[0].alloc, e.ctx.spillslots[1].alloc), (frame(0), frame(1)));
}

#[test]
fn each_new_slot_takes_a_map_from_the_pool() {
    let env = machine(&[], &[]);
    for (pooled, left) in [(0, 0), (1, 0), (3, 0), (5, 2)] {
        // two slots of the class, one of a fixed home
        let sets = vec![
            set(RegClass::Int, 0, 10),
            set(RegClass::Int, 5, 15),
            set(RegClass::Int, 20, 30),
            fixed(7, 0, 10),
        ];
        let mut e = Env { func: &WORDS, env: &env, ctx: ctx(sets) };
        e.ctx.scratch_spillset_pool = (0..pooled).map(|_| RangeMap::new()).collect();
        e.allocate_spillslots();
        assert_eq!(e.ctx.spillslots.len(), 3);
        assert_eq!(e.ctx.scratch_spillset_pool.len(), left);
    }
}

#[test]
fn spill_sets_that_need_no_slot_get_none() {
    let env = machine(&[], &[]);
    let mut sets = vec![set(RegClass::Int, 0, 10), set(RegClass::Int, 5, 15)];
    sets[0].required = false;
    let mut e = Env { func: &WORDS, env: &env, ctx: ctx(sets) };
    assert_eq!(e.allocate_spillslots(), SpillCounts { required: 1, fixed: 0 });
    assert_eq!(homes(&e.ctx), [NO_INDEX, 0]);
}

#[test]
fn classes_have_slots_of_their_own() {
    let env = machine(&[], &[]);
    let sets = vec![
        set(RegClass::Int, 0, 10),
        set(RegClass::Vector, 20, 30),
        set(RegClass::Float, 40, 50),
        set(RegClass::Vector, 60, 70),
    ];
    let mut e = Env { func: &WORDS, env: &env, ctx: ctx(sets) };
    e.allocate_spillslots();
    assert_eq!(homes(&e.ctx), [0, 1, 2, 1]);
    let allocs: Vec<Allocation> = e.ctx.spillslots.iter().map(|s| s.alloc).collect();
    assert_eq!(allocs, [frame(0), frame(2), frame(4)]);
    assert_eq!(e.ctx.output.num_spillslots, 5);
}

#[test]
fn a_fixed_home_is_shared_where_nothing_overlaps() {
    let env = machine(&[], &[]);
    let sets = vec![fixed(3, 0, 10), fixed(3, 10, 20), fixed(3, 5, 15), fixed(7, 0, 100)];
    let mut e = Env { func: &WORDS, env: &env, ctx: ctx(sets) };
    assert_eq!(e.allocate_spillslots(), SpillCounts { required: 4, fixed: 3 });
    // the third overlaps both others, so it gets a slot in the frame
    assert_eq!(homes(&e.ctx), [0, 0, 1, 2]);
    assert_eq!(e.ctx.spillslots[0].alloc, Allocation::Stack(SpillSlot::Fixed(3)));
    assert_eq!(e.ctx.spillslots[1].alloc, frame(0));
    assert_eq!(e.ctx.spillslots[2].alloc, Allocation::Stack(SpillSlot::Fixed(7)));
    assert_eq!(e.ctx.output.num_spillslots, 1);
}

#[test]
fn the_fixed_home_zero_stands_for_none() {
    let env = machine(&[], &[]);
    let mut e = Env { func: &WORDS, env: &env, ctx: ctx(vec![fixed(0, 0, 10), fixed(0, 10, 20)]) };
    assert_eq!(e.allocate_spillslots(), SpillCounts { required: 2, fixed: 0 });
    assert_eq!(homes(&e.ctx), [0, 0]);
    assert_eq!(e.ctx.spillslots[0].alloc, frame(0));
    assert!(e.ctx.fixed_spillslot_map.is_empty());
}

#[test]
fn slots_of_the_frame_are_never_fixed_homes() {
    let env = machine(&[], &[]);
    let mut e = Env { func: &WORDS, env: &env, ctx: ctx(vec![fixed(3, 0, 10), set(RegClass::Int, 10, 20)]) };
    e.allocate_spillslots();
    assert_eq!(homes(&e.ctx), [0, 1]);
    assert_eq!(e.ctx.slots_by_class[0].slots, [SpillSlotIndex { id: 1 }]);
}

#[test]
fn ten_slots_are_tried_before_a_new_one_is_made() {
    let env = machine(&[], &[]);
    // eleven sets that overlap one another, then one that would fit in the first slot only
    let mut sets: Vec<SpillSet> = (0..11).map(|_| set(RegClass::Int, 10, 20)).collect();
    sets[0].range = key(10, 15);
    sets.push(set(RegClass::Int, 15, 20));
    let mut e = Env { func: &WORDS, env: &env, ctx: ctx(sets) };
    e.allocate_spillslots();
    // from the last slot on, the first slot is the second to be tried
    assert_eq!(e.ctx.spillsets[11].slot, SpillSlotIndex { id: 0 });

    let mut sets: Vec<SpillSet> = (0..11).map(|_| set(RegClass::Int, 10, 20)).collect();
    sets[9].range = key(10, 15);
    sets.push(set(RegClass::Int, 15, 20));
    let mut e = Env { func: &WORDS, env: &env, ctx: ctx(sets) };
    e.allocate_spillslots();
    // the tenth slot would be the eleventh to be tried
    assert_eq!(e.ctx.spillsets[11].slot, SpillSlotIndex { id: 11 });
}

#[test]
fn sets_that_overlap_do_not_share_memory() {
    let env = machine(&[], &[]);
    for func in [WORDS, BY_LAST] {
        let mut sets = vec![];
        for i in 0..40u32 {
            let class = [RegClass::Int, RegClass::Float, RegClass::Vector][i as usize % 3];
            let mut s = set(class, (i * 7) % 50, (i * 7) % 50 + 1 + i % 9);
            if i % 4 == 0 {
                s.fixed_slot = Some(SpillSlot::Fixed(i % 3));
            }
            sets.push(s);
        }
        let mut e = Env { func: &func, env: &env, ctx: ctx(sets) };
        e.allocate_spillslots();
        let words = |s: &SpillSet| {
            let slot = &e.ctx.spillslots[s.slot.id as usize];
            match slot.alloc {
                Allocation::Stack(SpillSlot::Frame(n)) => {
                    let first = if func.named_by_last { n + 1 - slot.slots } else { n };
                    (0, first, first + slot.slots)
                }
                Allocation::Stack(SpillSlot::Fixed(f)) => (1, f, f + 1),
                _ => panic!("no place"),
            }
        };
        for (i, a) in e.ctx.spillsets.iter().enumerate() {
            for b in &e.ctx.spillsets[i + 1..] {
                if a.range.to > b.range.from && a.range.from < b.range.to {
                    let (x, y) = (words(a), words(b));
                    assert!(x.0 != y.0 || x.2 <= y.1 || y.2 <= x.1);
                }
            }
        }
    }
}

fn bundle(spillset: u32, ranges: &[(u32, u32, u32)]) -> LiveBundle {
    LiveBundle {
        ranges: ranges
            .iter()
            .map(|(from, to, index)| LiveRangeListEntry {
                range: key(*from, *to),
                index: LiveRangeIndex { id: *index },
            })
            .collect(),
        spillset: SpillSetIndex { id: spillset },
        allocation: Allocation::Unassigned,
        limit: None,
    }
}

fn spilled(sets: usize, bundles: Vec<LiveBundle>) -> Ctx {
    let mut sets: Vec<SpillSet> = (0..sets).map(|_| set(RegClass::Int, 0, 100)).collect();
    for s in &mut sets {
        s.required = false;
    }
    let mut c = ctx(sets);
    c.spilled_bundles = (0..bundles.len()).map(|i| LiveBundleIndex { id: i as u32 }).collect();
    c.bundles = bundles;
    c
}

#[test]
fn spilled_bundles_get_a_free_register() {
    let env = machine(&[0, 1], &[2]);
    let c = spilled(
        3,
        vec![
            bundle(0, &[(20, 30, 1), (0, 10, 0)]),
            bundle(1, &[(10, 20, 2)]),
            bundle(2, &[(5, 25, 3)]),
        ],
    );
    let mut e = Env { func: &WORDS, env: &env, ctx: c };
    e.try_allocating_regs_for_spilled_bundles();
    let allocs: Vec<Allocation> = e.ctx.bundles.iter().map(|b| b.allocation).collect();
    let r = |n: u8| Allocation::Reg(reg(n));
    // the search for the bundle n begins at the register n
    assert_eq!(allocs, [r(0), r(1), r(2)]);
    let from: Vec<u32> = e.ctx.bundles[0].ranges.iter().map(|x| x.range.from).collect();
    assert_eq!(from, [0, 20]);
    assert_eq!(e.ctx.pregs[0].allocations.entries.len(), 2);
    assert_eq!(e.ctx.output.stats.spill_bundle_reg_probes, 3);
    assert_eq!(e.ctx.output.stats.spill_bundle_reg_success, 3);
    assert!(e.ctx.spillsets.iter().all(|s| !s.required));
}

#[test]
fn bundles_without_a_free_register_need_a_slot() {
    let env = machine(&[0], &[]);
    let c = spilled(2, vec![bundle(0, &[(0, 10, 0)]), bundle(1, &[(5, 6, 1)])]);
    let mut e = Env { func: &WORDS, env: &env, ctx: c };
    e.try_allocating_regs_for_spilled_bundles();
    assert_eq!(e.ctx.bundles[0].allocation, Allocation::Reg(reg(0)));
    assert_eq!(e.ctx.bundles[1].allocation, Allocation::Unassigned);
    assert!(!e.ctx.spillsets[0].required && e.ctx.spillsets[1].required);
    assert_eq!(e.ctx.output.stats.spill_bundle_reg_probes, 2);
    assert_eq!(e.ctx.output.stats.spill_bundle_reg_success, 1);
    assert_eq!(e.ctx.pregs[0].allocations.entries.len(), 1);
}

#[test]
fn a_bundle_without_ranges_is_passed_over() {
    let env = machine(&[0], &[]);
    let c = spilled(0, vec![bundle(NO_INDEX, &[])]);
    let mut e = Env { func: &WORDS, env: &env, ctx: c };
    e.try_allocating_regs_for_spilled_bundles();
    assert_eq!(e.ctx.output.stats.spill_bundle_reg_probes, 0);
    assert_eq!(e.ctx.bundles[0].allocation, Allocation::Unassigned);
}

#[test]
fn hints_and_limits_are_heeded() {
    let env = machine(&[0, 1, 2], &[]);
    let mut c = spilled(2, vec![bundle(0, &[(0, 10, 0)]), bundle(1, &[(0, 10, 1)])]);
    c.spillsets[0].hint = reg(2);
    c.bundles[1].limit = Some(1);
    let mut e = Env { func: &WORDS, env: &env, ctx: c };
    e.try_allocating_regs_for_spilled_bundles();
    assert_eq!(e.ctx.bundles[0].allocation, Allocation::Reg(reg(2)));
    assert_eq!(e.ctx.bundles[1].allocation, Allocation::Reg(reg(0)));
}

#[test]
fn what_a_register_is_taken_for_stays() {
    let env = machine(&[0, 1], &[]);
    let mut c = spilled(1, vec![bundle(0, &[(0, 10, 5)])]);
    c.pregs[0].allocations.insert(key(3, 4), LiveRangeIndex { id: 9 });
    let mut e = Env { func: &WORDS, env: &env, ctx: c };
    e.try_allocating_regs_for_spilled_bundles();
    assert_eq!(e.ctx.bundles[0].allocation, Allocation::Reg(reg(1)));
    assert_eq!(e.ctx.pregs[0].allocations.entries, [(key(3, 4), LiveRangeIndex { id: 9 })]);
    assert_eq!(e.ctx.pregs[1].allocations.entries, [(key(0, 10), LiveRangeIndex { id: 5 })]);
}

#[test]
fn the_trace_lists_virtual_registers_once_and_in_order() {
    let env = machine(&[], &[]);
    let mut c = spilled(
        4,
        vec![
            bundle(2, &[(0, 1, 0), (1, 2, 1)]),
            bundle(0, &[(0, 1, 2)]),
            bundle(2, &[(3, 4, 3)]),
            bundle(NO_INDEX, &[(0, 1, 0)]),
            bundle(1, &[(0, 1, 2)]),
        ],
    );
    c.ranges = [8, 3, 4, 8].map(|vreg| LiveRange { vreg }).to_vec();
    for i in [0, 2, 3] {
        c.spillsets[i].required = true;
    }
    let e = Env { func: &WORDS, env: &env, ctx: c };
    let sets = e.required_vregs();
    assert_eq!(sets.len(), 2);
    assert_eq!((sets[0].spillset, sets[0].vregs.clone()), (0, vec![4]));
    assert_eq!((sets[1].spillset, sets[1].vregs.clone()), (2, vec![3, 8]));
}

#[test]
fn the_trace_counts_fixed_homes() {
    let env = machine(&[], &[]);
    let mut sets = vec![fixed(3, 0, 10), fixed(4, 0, 10), set(RegClass::Int, 0, 10), fixed(3, 5, 6)];
    sets[1].required = false;
    let mut e = Env { func: &WORDS, env: &env, ctx: ctx(sets) };
    let counts = e.allocate_spillslots();
    assert_eq!(counts, SpillCounts { required: 3, fixed: 1 });
    assert_eq!(e.fixed_counts(), FixedCounts { asked: 3, not_required: 1 });
    assert_eq!(
        e.trace_line(counts),
        "[fixspill:ra2] spillsets=4 req=3 fixed_req=1 fixed_notreq=1 auto=2 n_seed_fixed=3"
    );
}

/// Sets of two classes, some with fixed homes and one that needs no slot.
fn mixed() -> Vec<SpillSet> {
    vec![
        set(RegClass::Int, 0, 10),
        fixed(4, 0, 10),
        set(RegClass::Int, 5, 15),
        SpillSet { required: false, ..set(RegClass::Int, 0, 100) },
        fixed(4, 5, 20),
        set(RegClass::Float, 0, 10),
        set(RegClass::Int, 30, 30),
        fixed(6, 50, 60),
        fixed(4, 10, 12),
        set(RegClass::Vector, 0, 1),
    ]
}

#[test]
fn slots_hold_the_sets_that_need_one_each_once() {
    let env = machine(&[], &[]);
    let mut e = Env { func: &WORDS, env: &env, ctx: ctx(mixed()) };
    e.allocate_spillslots();
    let ctx = e.ctx;
    let mut held: Vec<(u32, LiveRangeKey, u32)> = vec![];
    for (i, slot) in ctx.spillslots.iter().enumerate() {
        for (range, k) in &slot.ranges.entries {
            held.push((k.id, *range, i as u32));
        }
    }
    held.sort_by_key(|x| x.0);
    let expected: Vec<(u32, LiveRangeKey, u32)> = (0..10)
        .filter(|k| *k != 3)
        .map(|k| (k, ctx.spillsets[k as usize].range, ctx.spillsets[k as usize].slot.id))
        .collect();
    assert_eq!(held, expected);
}

#[test]
fn fixed_homes_have_slots_of_their_own() {
    let env = machine(&[], &[]);
    let mut e = Env { func: &WORDS, env: &env, ctx: ctx(mixed()) };
    e.allocate_spillslots();
    let ctx = e.ctx;
    assert_eq!(ctx.fixed_spillslot_map.len(), 2);
    for (f, sets) in [(4, vec![1, 8]), (6, vec![7])] {
        let i = ctx.fixed_spillslot_map[&f];
        let slot = &ctx.spillslots[i.id as usize];
        assert_eq!((slot.alloc, slot.slots), (Allocation::Stack(SpillSlot::Fixed(f)), 0));
        let there: Vec<usize> = (0..10).filter(|k| ctx.spillsets[*k].slot == i).collect();
        assert_eq!(there, sets);
        assert!(ctx.slots_by_class.iter().all(|l| !l.slots.contains(&i)));
    }
}

#[test]
fn other_slots_belong_to_one_class() {
    let env = machine(&[], &[]);
    let mut e = Env { func: &WORDS, env: &env, ctx: ctx(mixed()) };
    e.allocate_spillslots();
    let ctx = e.ctx;
    let classes = [(RegClass::Int, 1), (RegClass::Float, 1), (RegClass::Vector, 2)];
    for (i, slot) in ctx.spillslots.iter().enumerate() {
        let i = SpillSlotIndex { id: i as u32 };
        let named: Vec<usize> =
            (0..3).filter(|c| ctx.slots_by_class[*c].slots.contains(&i)).collect();
        if let Allocation::Stack(SpillSlot::Fixed(_)) = slot.alloc {
            assert!(named.is_empty());
        } else {
            assert_eq!(named.len(), 1);
            let (class, words) = classes[named[0]];
            assert_eq!(ctx.slots_by_class[named[0]].slots.iter().filter(|s| **s == i).count(), 1);
            assert_eq!(slot.slots, words);
            let mut there = ctx.spillsets.iter().filter(|s| s.required && s.slot == i).peekable();
            assert!(there.peek().is_some());
            assert!(there.all(|s| s.class == class));
        }
    }
}

#[test]
fn slots_are_made_when_the_earlier_ones_are_taken() {
    let env = machine(&[], &[]);
    let mut e = Env { func: &WORDS, env: &env, ctx: ctx(mixed()) };
    e.allocate_spillslots();
    let ctx = e.ctx;
    let of = |slot: SpillSlotIndex| -> Vec<usize> {
        (0..10).filter(|k| ctx.spillsets[*k].slot == slot).collect()
    };
    let list = &ctx.slots_by_class[0].slots;
    assert_eq!(list.len(), 3);
    for j in 0..list.len() {
        let first = of(list[j])[0];
        let range = ctx.spillsets[first].range;
        for slot in &list[..j] {
            assert!(of(*slot).iter().any(|t| {
                let other = ctx.spillsets[*t].range;
                *t < first && other.to > range.from && other.from < range.to
            }));
        }
    }
}

#[test]
fn fixed_homes_take_no_frame() {
    let env = machine(&[], &[]);
    let sets = vec![fixed(4, 0, 10), fixed(6, 5, 15), fixed(4, 10, 20)];
    let mut e = Env { func: &WORDS, env: &env, ctx: ctx(sets) };
    e.ctx.output.num_spillslots = 3;
    e.allocate_spillslots();
    assert_eq!(e.ctx.output.num_spillslots, 3);
}
