//! Where control goes in the code of memory accesses, and which addresses they use.
//!
//! As in [`crate::runs`], the laws hold for all [`Bits`] that go by the instructions. What
//! a load gives is open.
use crate::bytecode::{is_register, NUMBER_TAG, VR};
use crate::clif::{
    binary, compare, load, masked, resize, store, BinaryOp, Block, Clif, Cond, Flags, Inst, Resize,
    Ty, Value,
};
use crate::detours::{
    detours, joins_result, lemma_constant, lemma_detours, lemma_joins_result, lemma_passed_one,
    lemma_passed_two, lemma_pin, Detour,
};
use crate::growth::{
    begins, brif, goes, grows, grows_refl, keeps_tags, lemma_goes_pushed, lemma_respects_grown,
    lemma_tag_read, silent,
};
use crate::meaning::{
    cell_test_decides, int32_test_decides, is_cell, lemma_cell_bits, lemma_respects_push, respects,
    signed, truth, Bits,
};
use crate::runs::{added, is_int32, joins, lemma_joins, lemma_joins_switched};
use crate::slow::Slow;
use crate::template::{Frame, JSCELL_INDEXING, JSCELL_SID, JSOBJ_BUTTERFLY};
use vstd::prelude::*;

verus! {

broadcast use {crate::clif::group_clif, crate::template::group_frame};

/// The instruction stands in the block `b`, and `v` is its result.
pub open spec fn gives(m: Clif, b: Block, inst: Inst, v: Value) -> bool {
    exists|i: int|
        0 <= i < m.insts.len() && (#[trigger] m.insts[i]).block == b && m.insts[i].inst == inst
            && m.insts[i].results == seq![v]
}

/// The instruction stands in the block `b`.
pub open spec fn stands(m: Clif, b: Block, inst: Inst) -> bool {
    exists|i: int|
        0 <= i < m.insts.len() && (#[trigger] m.insts[i]).block == b && m.insts[i].inst == inst
}

/// An instruction that was appended stays.
pub proof fn lemma_stands(m: Clif, inst: Inst, n: Clif)
    requires
        grows(m.push(inst), n),
    ensures
        stands(n, m.current->0, inst),
        m.result_types(inst).len() == 1 ==> gives(n, m.current->0, inst, m.next()),
{
    reveal(Clif::push);
    reveal(grows);
    let p = m.push(inst);
    let i = m.insts.len() as int;
    assert(p.insts[i].inst == inst);
    assert(n.insts[i] == p.insts[i]);
    if m.result_types(inst).len() == 1 {
        assert(m.begun().result_types(inst) == m.result_types(inst));
        assert(p.insts[i].results =~= seq![m.next()]);
    }
}

/// What is known after the test for a cell.
pub proof fn lemma_not_cell(f: Frame, m: Clif, v: Value, n: Clif, e: Bits)
    requires
        begins(f, m, 2),
        m.is(v, Ty::I64),
        grows(f.not_cell(m, v).0, n),
        respects(n, e),
        keeps_tags(f, n, e),
    ensures
        m.continued_in(f.not_cell(m, v).0),
        m.within(f.not_cell(m, v).0, 2),
        f.not_cell(m, v).0.is(f.not_cell(m, v).1, Ty::I64),
        e(f.not_cell(m, v).1) == 0 <==> is_cell(e(v)),
{
    broadcast use crate::growth::group_grows;

    reveal(Frame::not_cell);
    lemma_tag_read(f, m, n, e);
    lemma_respects_grown(f.not_cell(m, v).0, n, e);
    cell_test_decides(f, m, v, e);
}

/// The block `b` compares the structure number of `v` with the one that is cached in the
/// metadata at `md_off`, and control goes to `hit` if they are the same, else to `slow`.
pub open spec fn compares_structures(
    n: Clif,
    e: Bits,
    b: Block,
    v: Value,
    md_off: i32,
    hit: Block,
    slow: Block,
) -> bool {
    exists|md: Value, cached: Value, actual: Value|
        {
            &&& #[trigger] gives(n, b, load(Ty::I32, Flags::ReadOnly, md, md_off), cached)
            &&& #[trigger] gives(n, b, load(Ty::I32, Flags::Trusted, v, JSCELL_SID), actual)
            &&& goes(
                n,
                e,
                b,
                if e(actual) == e(cached) {
                    hit
                } else {
                    slow
                },
                seq![],
            )
        }
}

/// [`Frame::same_structure`] and a branch on it do that.
proof fn lemma_compares_structures(
    f: Frame,
    m: Clif,
    v: Value,
    md_off: i32,
    hit: Block,
    slow: Block,
    n: Clif,
    e: Bits,
)
    requires
        begins(f, m, 5),
        m.is(v, Ty::I64),
        m.has_block(hit),
        m.has_block(slow),
        grows(
            f.same_structure(m, v, md_off).0.branch(f.same_structure(m, v, md_off).2, hit, slow),
            n,
        ),
        respects(n, e),
    ensures
        m.continued_in(f.same_structure(m, v, md_off).0),
        m.within(f.same_structure(m, v, md_off).0, 4),
        f.same_structure(m, v, md_off).0.is(f.same_structure(m, v, md_off).1, Ty::I64),
        f.same_structure(m, v, md_off).0.is(f.same_structure(m, v, md_off).2, Ty::I8),
        compares_structures(n, e, m.current->0, v, md_off, hit, slow),
{
    broadcast use crate::growth::group_grows;

    reveal(Frame::same_structure);
    let (m1, md) = m.get(f.md);
    let (m2, cached) = m1.ins(load(Ty::I32, Flags::ReadOnly, md, md_off));
    let (m3, actual) = m2.ins(load(Ty::I32, Flags::Trusted, v, JSCELL_SID));
    let (m4, same) = m3.ins(compare(Cond::Equal, actual, cached));
    assert(m4.branch(same, hit, slow) == m4.push(brif(same, hit, slow)));
    lemma_stands(m1, load(Ty::I32, Flags::ReadOnly, md, md_off), n);
    lemma_stands(m2, load(Ty::I32, Flags::Trusted, v, JSCELL_SID), n);
    lemma_goes_pushed(m4, brif(same, hit, slow), n, e);
    lemma_respects_grown(m4, n, e);
    lemma_respects_push(m3, compare(Cond::Equal, actual, cached), e);
    assert(gives(n, m.current->0, load(Ty::I32, Flags::ReadOnly, md, md_off), cached));
    assert(gives(n, m.current->0, load(Ty::I32, Flags::Trusted, v, JSCELL_SID), actual));
}

/// The address `k` times eight bytes behind `base`.
pub open spec fn behind(base: u64, k: int) -> u64 {
    (base + 8 * k) as u64
}

proof fn lemma_behind(base: u64, k: i64)
    ensures
        (base + ((k as u64) << 3)) as u64 == behind(base, k as int),
{
    assert((base + ((k as u64) << 3)) as u64 == (base + 8 * k) as u64) by (bit_vector);
}

/// What is known after the address of a slot was computed: it is as far behind `base` as
/// the number says that stands in the metadata.
pub proof fn lemma_slot_address(
    f: Frame,
    m: Clif,
    md: Value,
    offset: i32,
    base: Value,
    n: Clif,
    e: Bits,
)
    requires
        begins(f, m, 5),
        m.is(md, Ty::I64),
        m.is(base, Ty::I64),
        grows(f.slot_address(m, md, offset, base).0, n),
        respects(n, e),
    ensures
        m.continued_in(f.slot_address(m, md, offset, base).0),
        m.within(f.slot_address(m, md, offset, base).0, 5),
        f.slot_address(m, md, offset, base).0.is(f.slot_address(m, md, offset, base).1, Ty::I64),
        gives(n, m.current->0, load(Ty::I32, Flags::ReadOnly, md, offset), m.next()),
        e(f.slot_address(m, md, offset, base).1) == behind(
            e(base),
            e(m.next()) as u32 as i32 as int,
        ),
{
    broadcast use crate::growth::group_grows;

    reveal(Frame::slot_address);
    let i1 = load(Ty::I32, Flags::ReadOnly, md, offset);
    let (m1, slot) = m.ins(i1);
    let i2 = resize(Resize::Sextend, Ty::I64, slot);
    let (m2, wide) = m1.ins(i2);
    let i3 = Inst::Iconst { ty: Ty::I64, imm: masked(Ty::I64, 3) };
    let (m3, three) = m2.ins(i3);
    let i4 = binary(BinaryOp::Ishl, wide, three);
    let (m4, scaled) = m3.ins(i4);
    let i5 = binary(BinaryOp::Iadd, base, scaled);
    let (m5, addr) = m4.ins(i5);
    lemma_stands(m, i1, n);
    lemma_respects_grown(m5, n, e);
    lemma_respects_push(m4, i5, e);
    lemma_respects_push(m3, i4, e);
    lemma_respects_push(m2, i3, e);
    lemma_respects_push(m1, i2, e);
    assert(3i64 as u64 == 3) by (bit_vector);
    lemma_behind(e(base), signed(Ty::I32, e(slot)));
}

/// What is known after the address of an element was computed.
proof fn lemma_element_address(f: Frame, m: Clif, bf: Value, idx: Value, n: Clif, e: Bits)
    requires
        begins(f, m, 4),
        m.is(bf, Ty::I64),
        m.is(idx, Ty::I32),
        grows(f.element_address(m, bf, idx).0, n),
        respects(n, e),
        e(idx) <= u32::MAX,
    ensures
        m.continued_in(f.element_address(m, bf, idx).0),
        m.within(f.element_address(m, bf, idx).0, 4),
        f.element_address(m, bf, idx).0.is(f.element_address(m, bf, idx).1, Ty::I64),
        e(f.element_address(m, bf, idx).1) == behind(e(bf), e(idx) as int),
{
    broadcast use crate::growth::group_grows;

    reveal(Frame::element_address);
    let i1 = resize(Resize::Uextend, Ty::I64, idx);
    let (m1, wide) = m.ins(i1);
    let i2 = Inst::Iconst { ty: Ty::I64, imm: masked(Ty::I64, 3) };
    let (m2, three) = m1.ins(i2);
    let i3 = binary(BinaryOp::Ishl, wide, three);
    let (m3, scaled) = m2.ins(i3);
    let i4 = binary(BinaryOp::Iadd, bf, scaled);
    let (m4, addr) = m3.ins(i4);
    lemma_respects_grown(m4, n, e);
    lemma_respects_push(m3, i4, e);
    lemma_respects_push(m2, i3, e);
    lemma_respects_push(m1, i2, e);
    lemma_respects_push(m, i1, e);
    assert(3i64 as u64 == 3) by (bit_vector);
    lemma_behind(e(bf), e(idx) as i64);
}

/// The block `b` reads the slot of `bv` whose number stands in the metadata at `offset`,
/// and passes on what it read to `join`. The slots begin `start` bytes behind `bv`.
pub open spec fn reads_slot(
    n: Clif,
    e: Bits,
    b: Block,
    bv: Value,
    offset: i32,
    start: i32,
    join: Block,
) -> bool {
    exists|md: Value, slot: Value, addr: Value, v: Value|
        {
            &&& #[trigger] gives(n, b, load(Ty::I32, Flags::ReadOnly, md, offset), slot)
            &&& e(addr) == behind(e(bv), e(slot) as u32 as i32 as int)
            &&& #[trigger] gives(n, b, load(Ty::I64, Flags::Trusted, addr, start), v)
            &&& goes(n, e, b, join, seq![v])
        }
}

/// The block `b` writes `vv` to the slot of `bv` whose number stands in the metadata at
/// `offset`. The slots begin `start` bytes behind `bv`.
pub open spec fn writes_slot(
    n: Clif,
    e: Bits,
    b: Block,
    bv: Value,
    offset: i32,
    start: i32,
    vv: Value,
) -> bool {
    exists|md: Value, slot: Value, addr: Value|
        {
            &&& #[trigger] gives(n, b, load(Ty::I32, Flags::ReadOnly, md, offset), slot)
            &&& e(addr) == behind(e(bv), e(slot) as u32 as i32 as int)
            &&& #[trigger] stands(n, b, store(vv, addr, start))
        }
}

/// A property is read without a call only of a cell whose structure is the cached one: the
/// slot that the metadata names, sixteen bytes behind the start of the slots' base, goes to
/// the target. All others go to the slow path, whose result goes to the target.
pub open spec fn reads_property(
    f: Frame,
    m: Clif,
    n: Clif,
    dst: VR,
    base: VR,
    md_off: i32,
    ident: u32,
    bc: u32,
    cont: Block,
    e: Bits,
) -> bool {
    let cell = added(m, 0);
    let slow = added(m, 1);
    let hit = added(m, 2);
    let join = added(m, 3);
    let bv = m.value_of(f.var(base));
    let d = Detour {
        site: Some(bc),
        path: Slow::GetById,
        head: seq![n.defs[(f.go, slow)], n.defs[(f.cfr, slow)], bv],
        tail: seq![bc, ident],
    };
    &&& goes(n, e, m.current->0, if is_cell(e(bv)) { cell } else { slow }, seq![])
    &&& joins_result(f, m, n, e, slow, d, added(m, 4), join)
    &&& compares_structures(n, e, cell, bv, md_off, hit, slow)
    &&& reads_slot(n, e, hit, bv, (md_off + 4) as i32, 16, join)
    &&& joins(f, n, e, join, dst, cont)
}

/// That is so of the code itself, and of the code once another block is current.
#[verifier::rlimit(60)]
pub proof fn lemma_reads_property(
    f: Frame,
    m: Clif,
    n: Clif,
    dst: VR,
    base: VR,
    md_off: i32,
    ident: u32,
    bc: u32,
    cont: Block,
    after: Block,
    e: Bits,
)
    requires
        begins(f, m, 60),
        is_register(dst, f.args.len(), f.locs.len()),
        is_register(base, f.args.len(), f.locs.len()),
        md_off + 4 <= i32::MAX,
        m.has_block(cont),
        m.info(cont).args.len() == 0,
        n == f.get_by_id(m, dst, base, md_off, ident, bc, cont) || n == f.get_by_id(m, dst, base, md_off, ident, bc, cont).switch_to(after),
        respects(n, e),
        keeps_tags(f, n, e),
    ensures
        reads_property(f, m, n, dst, base, md_off, ident, bc, cont, e),
{
    broadcast use {crate::growth::group_grows, crate::growth::group_pieces_grow};

    reveal(Frame::get_by_id);
    let n0 = f.get_by_id(m, dst, base, md_off, ident, bc, cont);
    grows_refl(n0);
    assert(grows(n0, n) && silent(n0, n));
    let (m0, bv) = m.get(f.var(base));
    let (m1, notcell) = f.not_cell(m0, bv);
    let (m2, cell) = m1.new_block();
    let (m3, slow) = m2.new_cold_block();
    let (m4, hit) = m3.new_block();
    let (m5, join) = m4.new_join(Ty::I64);
    let m6 = m5.branch(notcell, slow, cell).switch_to(cell);
    let (m7, md, same) = f.same_structure(m6, bv, md_off);
    let m8 = m7.branch(same, hit, slow).switch_to(hit);
    let offset = (md_off + 4) as i32;
    let (m9, addr) = f.slot_address(m8, md, offset, bv);
    let read = load(Ty::I64, Flags::Trusted, addr, 16);
    let (m10, v) = m9.ins(read);
    let m11 = m10.goto_with(join, v).switch_to(slow);
    let m12 = f.stamp(m11, bc);
    let (m13, go) = m12.get(f.go);
    let (m14, cfr) = m13.get(f.cfr);
    let (m15, bc_v) = m14.constant(Ty::I32, bc as i64);
    let (m16, id_v) = m15.constant(Ty::I32, ident as i64);
    let (m17, r) = f.slow_result(m16, Slow::GetById, seq![go, cfr, bv, bc_v, id_v]);
    let m18 = f.join_result(m17, r, join);
    assert(n0 == f.write_joined(m18, join, dst, cont));
    lemma_joins(f, m5, m18, join, dst, cont, e);
    lemma_joins_switched(f, n0, n, e, join, dst, cont, after);
    lemma_not_cell(f, m0, bv, n, e);
    lemma_goes_pushed(m5, brif(notcell, slow, cell), n, e);
    lemma_compares_structures(f, m6, bv, md_off, hit, slow, n, e);
    lemma_slot_address(f, m8, md, offset, bv, n, e);
    lemma_stands(m9, read, n);
    lemma_goes_pushed(m10, Inst::Jump { to: join, args: seq![v] }, n, e);
    assert(gives(n, hit, load(Ty::I32, Flags::ReadOnly, md, offset), m8.next()));
    assert(gives(n, hit, read, v));
    assert(goes(n, e, hit, join, seq![v]));
    assert(reads_slot(n, e, hit, bv, offset, 16, join));
    let d = Detour {
        site: Some(bc),
        path: Slow::GetById,
        head: seq![go, cfr, bv],
        tail: seq![bc, ident],
    };
    lemma_pin(m12, f.go, n);
    lemma_pin(m13, f.cfr, n);
    lemma_constant(m14, bc as i64, n, e);
    lemma_constant(m15, ident as i64, n, e);
    lemma_passed_two(e, d, bc_v, id_v);
    lemma_joins_result(f, m, m11, m16, seq![go, cfr, bv, bc_v, id_v], n, e, slow, d, join);
    assert(cell == added(m, 0) && slow == added(m, 1) && hit == added(m, 2) && join == added(m, 3));
}

/// A property is read without a call only of a cell whose structure is the cached one: the
/// slot that the metadata names, sixteen bytes behind the start of the slots' base, goes to
/// the target. All others go to the slow path, whose result goes to the target.
pub proof fn cached_reads_are_guarded(
    f: Frame,
    m: Clif,
    dst: VR,
    base: VR,
    md_off: i32,
    ident: u32,
    bc: u32,
    cont: Block,
    e: Bits,
)
    requires
        begins(f, m, 60),
        is_register(dst, f.args.len(), f.locs.len()),
        is_register(base, f.args.len(), f.locs.len()),
        md_off + 4 <= i32::MAX,
        m.has_block(cont),
        m.info(cont).args.len() == 0,
        respects(f.get_by_id(m, dst, base, md_off, ident, bc, cont), e),
        keeps_tags(f, f.get_by_id(m, dst, base, md_off, ident, bc, cont), e),
    ensures
        reads_property(f, m, f.get_by_id(m, dst, base, md_off, ident, bc, cont), dst, base, md_off, ident, bc, cont, e),
{
    let n = f.get_by_id(m, dst, base, md_off, ident, bc, cont);
    lemma_reads_property(f, m, n, dst, base, md_off, ident, bc, cont, m.current->0, e);
}

/// A property is written without a call only to a cell whose structure is the cached one:
/// the value goes to the slot that the metadata names. All others are left to the slow path.
pub open spec fn writes_property(
    f: Frame,
    m: Clif,
    n: Clif,
    base: VR,
    val: VR,
    md_off: i32,
    ident: u32,
    bc: u32,
    cont: Block,
    e: Bits,
) -> bool {
    let cell = added(m, 0);
    let slow = added(m, 1);
    let hit = added(m, 2);
    let bv = m.value_of(f.var(base));
    let vv = m.use_var(f.var(base)).value_of(f.var(val));
    let d = Detour {
        site: Some(bc),
        path: Slow::PutById,
        head: seq![n.defs[(f.go, slow)], n.defs[(f.cfr, slow)], bv, vv],
        tail: seq![bc, ident],
    };
    &&& exists|r: Value| #[trigger] detours(f, m, n, e, slow, d, r, cont)
    &&& goes(n, e, m.current->0, if is_cell(e(bv)) { cell } else { slow }, seq![])
    &&& compares_structures(n, e, cell, bv, md_off, hit, slow)
    &&& writes_slot(n, e, hit, bv, (md_off + 4) as i32, 16, vv)
    &&& goes(n, e, hit, cont, seq![])
}

/// That is so of the code itself, and of the code once another block is current.
#[verifier::rlimit(60)]
pub proof fn lemma_writes_property(
    f: Frame,
    m: Clif,
    n: Clif,
    base: VR,
    val: VR,
    md_off: i32,
    ident: u32,
    bc: u32,
    cont: Block,
    after: Block,
    e: Bits,
)
    requires
        begins(f, m, 60),
        is_register(base, f.args.len(), f.locs.len()),
        is_register(val, f.args.len(), f.locs.len()),
        md_off + 4 <= i32::MAX,
        m.has_block(cont),
        m.info(cont).args.len() == 0,
        n == f.put_by_id(m, base, val, md_off, ident, bc, cont) || n == f.put_by_id(m, base, val, md_off, ident, bc, cont).switch_to(after),
        respects(n, e),
        keeps_tags(f, n, e),
    ensures
        writes_property(f, m, n, base, val, md_off, ident, bc, cont, e),
{
    broadcast use {crate::growth::group_grows, crate::growth::group_pieces_grow};

    reveal(Frame::put_by_id);
    let n0 = f.put_by_id(m, base, val, md_off, ident, bc, cont);
    grows_refl(n0);
    assert(grows(n0, n) && silent(n0, n));
    let (p, bv) = m.get(f.var(base));
    let (m0, vv) = p.get(f.var(val));
    let (m1, notcell) = f.not_cell(m0, bv);
    let (m2, cell) = m1.new_block();
    let (m3, slow) = m2.new_cold_block();
    let (m4, hit) = m3.new_block();
    let m5 = m4.branch(notcell, slow, cell).switch_to(cell);
    let (m6, md, same) = f.same_structure(m5, bv, md_off);
    let m7 = m6.branch(same, hit, slow).switch_to(hit);
    let offset = (md_off + 4) as i32;
    let (m8, addr) = f.slot_address(m7, md, offset, bv);
    let write = store(vv, addr, 16);
    let m9 = m8.push(write);
    let m10 = m9.goto(cont).switch_to(slow);
    let m11 = f.stamp(m10, bc);
    let (m12, go) = m11.get(f.go);
    let (m13, cfr) = m12.get(f.cfr);
    let (m14, bc_v) = m13.constant(Ty::I32, bc as i64);
    let (m15, id_v) = m14.constant(Ty::I32, ident as i64);
    let m16 = f.slow_void(m15, Slow::PutById, seq![go, cfr, bv, vv, bc_v, id_v]);
    assert(n0 == f.check_exc(m16, cont));
    lemma_not_cell(f, m0, bv, n, e);
    lemma_goes_pushed(m4, brif(notcell, slow, cell), n, e);
    lemma_compares_structures(f, m5, bv, md_off, hit, slow, n, e);
    lemma_slot_address(f, m7, md, offset, bv, n, e);
    lemma_stands(m8, write, n);
    lemma_goes_pushed(m9, Inst::Jump { to: cont, args: seq![] }, n, e);
    assert(gives(n, hit, load(Ty::I32, Flags::ReadOnly, md, offset), m7.next()));
    assert(stands(n, hit, write));
    assert(writes_slot(n, e, hit, bv, offset, 16, vv));
    let args = seq![go, cfr, bv, vv, bc_v, id_v];
    let d = Detour {
        site: Some(bc),
        path: Slow::PutById,
        head: seq![go, cfr, bv, vv],
        tail: seq![bc, ident],
    };
    lemma_pin(m11, f.go, n);
    lemma_pin(m12, f.cfr, n);
    lemma_constant(m13, bc as i64, n, e);
    lemma_constant(m14, ident as i64, n, e);
    lemma_passed_two(e, d, bc_v, id_v);
    grows_refl(m16);
    grows_refl(n);
    lemma_detours(f, m, m10, m15, args, m16, n, e, slow, d, cont);
    assert(cell == added(m, 0) && slow == added(m, 1) && hit == added(m, 2));
}

/// A property is written without a call only to a cell whose structure is the cached one:
/// the value goes to the slot that the metadata names. All others are left to the slow path.
pub proof fn cached_writes_are_guarded(
    f: Frame,
    m: Clif,
    base: VR,
    val: VR,
    md_off: i32,
    ident: u32,
    bc: u32,
    cont: Block,
    e: Bits,
)
    requires
        begins(f, m, 60),
        is_register(base, f.args.len(), f.locs.len()),
        is_register(val, f.args.len(), f.locs.len()),
        md_off + 4 <= i32::MAX,
        m.has_block(cont),
        m.info(cont).args.len() == 0,
        respects(f.put_by_id(m, base, val, md_off, ident, bc, cont), e),
        keeps_tags(f, f.put_by_id(m, base, val, md_off, ident, bc, cont), e),
    ensures
        writes_property(f, m, f.put_by_id(m, base, val, md_off, ident, bc, cont), base, val, md_off, ident, bc, cont, e),
{
    let n = f.put_by_id(m, base, val, md_off, ident, bc, cont);
    lemma_writes_property(f, m, n, base, val, md_off, ident, bc, cont, m.current->0, e);
}

/// The block `b` compares the index `iv` with the length at `offset` in the butterfly `bf`
/// of `bv`, and control goes to `within` if the index is below it, else to `slow`.
pub open spec fn compares_index(
    n: Clif,
    e: Bits,
    b: Block,
    bv: Value,
    iv: Value,
    offset: i32,
    bf: Value,
    within: Block,
    slow: Block,
) -> bool {
    exists|len: Value|
        {
            &&& gives(n, b, load(Ty::I64, Flags::Trusted, bv, JSOBJ_BUTTERFLY), bf)
            &&& #[trigger] gives(n, b, load(Ty::I32, Flags::Trusted, bf, offset), len)
            &&& goes(
                n,
                e,
                b,
                if (e(iv) as u32) < e(len) {
                    within
                } else {
                    slow
                },
                seq![],
            )
        }
}

/// [`Frame::in_bounds`] and a branch on it do that.
proof fn lemma_compares_index(
    f: Frame,
    m: Clif,
    bv: Value,
    iv: Value,
    offset: i32,
    within: Block,
    slow: Block,
    n: Clif,
    e: Bits,
)
    requires
        begins(f, m, 5),
        m.is(bv, Ty::I64),
        m.is(iv, Ty::I64),
        m.has_block(within),
        m.has_block(slow),
        grows(
            f.in_bounds(m, bv, iv, offset).0.branch(
                f.in_bounds(m, bv, iv, offset).3,
                within,
                slow,
            ),
            n,
        ),
        respects(n, e),
    ensures
        m.continued_in(f.in_bounds(m, bv, iv, offset).0),
        m.within(f.in_bounds(m, bv, iv, offset).0, 4),
        f.in_bounds(m, bv, iv, offset).0.is(f.in_bounds(m, bv, iv, offset).1, Ty::I32),
        f.in_bounds(m, bv, iv, offset).0.is(f.in_bounds(m, bv, iv, offset).2, Ty::I64),
        f.in_bounds(m, bv, iv, offset).0.is(f.in_bounds(m, bv, iv, offset).3, Ty::I8),
        e(f.in_bounds(m, bv, iv, offset).1) == e(iv) as u32,
        compares_index(
            n,
            e,
            m.current->0,
            bv,
            iv,
            offset,
            f.in_bounds(m, bv, iv, offset).2,
            within,
            slow,
        ),
{
    broadcast use crate::growth::group_grows;

    reveal(Frame::in_bounds);
    let i1 = resize(Resize::Ireduce, Ty::I32, iv);
    let (m1, idx) = m.ins(i1);
    let i2 = load(Ty::I64, Flags::Trusted, bv, JSOBJ_BUTTERFLY);
    let (m2, bf) = m1.ins(i2);
    let i3 = load(Ty::I32, Flags::Trusted, bf, offset);
    let (m3, len) = m2.ins(i3);
    let i4 = compare(Cond::UnsignedLessThan, idx, len);
    let (m4, inb) = m3.ins(i4);
    assert(m4.branch(inb, within, slow) == m4.push(brif(inb, within, slow)));
    lemma_stands(m1, i2, n);
    lemma_stands(m2, i3, n);
    lemma_goes_pushed(m4, brif(inb, within, slow), n, e);
    lemma_respects_grown(m4, n, e);
    lemma_respects_push(m3, i4, e);
    lemma_respects_grown(m1, n, e);
    lemma_respects_push(m, i1, e);
    let x = e(iv);
    assert(x & 0xffff_ffff == x as u32) by (bit_vector);
    assert(gives(n, m.current->0, i3, len));
}

/// The block `b` reads the byte of the cell `v` at `offset`, and control goes to `yes` if
/// `test` holds of it, else to `no`.
pub open spec fn tests_cell(
    n: Clif,
    e: Bits,
    b: Block,
    v: Value,
    offset: i32,
    test: spec_fn(u64) -> bool,
    yes: Block,
    no: Block,
) -> bool {
    exists|byte: Value|
        {
            &&& #[trigger] gives(n, b, load(Ty::I8, Flags::Trusted, v, offset), byte)
            &&& goes(
                n,
                e,
                b,
                if test(e(byte)) {
                    yes
                } else {
                    no
                },
                seq![],
            )
        }
}

/// The byte says that a cell has indexed elements.
pub open spec fn indexed() -> spec_fn(u64) -> bool {
    |byte: u64| byte & 0x0e != 0
}

/// [`Frame::has_elements`] and a branch on it test for that.
pub proof fn lemma_has_elements(
    f: Frame,
    m: Clif,
    v: Value,
    m2: Clif,
    yes: Block,
    no: Block,
    n: Clif,
    e: Bits,
)
    requires
        begins(f, m, 4),
        m.is(v, Ty::I64),
        grows(f.has_elements(m, v).0, m2),
        m2.current == m.current,
        grows(m2.branch(f.has_elements(m, v).1, yes, no), n),
        grows(m2, n),
        respects(n, e),
    ensures
        m.continued_in(f.has_elements(m, v).0),
        m.within(f.has_elements(m, v).0, 4),
        f.has_elements(m, v).0.is(f.has_elements(m, v).1, Ty::I32),
        tests_cell(n, e, m.current->0, v, JSCELL_INDEXING, indexed(), yes, no),
{
    broadcast use crate::growth::group_grows;

    reveal(Frame::has_elements);
    let i1 = load(Ty::I8, Flags::Trusted, v, JSCELL_INDEXING);
    let (m1, it) = m.ins(i1);
    let i2 = resize(Resize::Uextend, Ty::I32, it);
    let (p, it32) = m1.ins(i2);
    let i3 = Inst::Iconst { ty: Ty::I32, imm: masked(Ty::I32, 0x0e) };
    let (q, mask) = p.ins(i3);
    let i4 = binary(BinaryOp::Band, it32, mask);
    let (o, has) = q.ins(i4);
    lemma_stands(m, i1, n);
    lemma_respects_grown(o, n, e);
    lemma_respects_push(q, i4, e);
    lemma_respects_push(p, i3, e);
    lemma_respects_push(m1, i2, e);
    assert((0x0ei64 & 0xffff_ffff) as u64 == 0x0e) by (bit_vector);
    assert(m2.branch(has, yes, no) == m2.push(brif(has, yes, no)));
    lemma_goes_pushed(m2, brif(has, yes, no), n, e);
    assert(gives(n, m.current->0, i1, it));
}

/// What is known after the test for an `int32` with the tag `ntag`.
proof fn lemma_is_int32(f: Frame, m: Clif, v: Value, ntag: Value, n: Clif, e: Bits)
    requires
        begins(f, m, 2),
        m.is(v, Ty::I64),
        m.is(ntag, Ty::I64),
        grows(f.is_int32(m, v, ntag).0, n),
        respects(n, e),
        e(ntag) == NUMBER_TAG as u64,
    ensures
        m.continued_in(f.is_int32(m, v, ntag).0),
        m.within(f.is_int32(m, v, ntag).0, 2),
        f.is_int32(m, v, ntag).0.is(f.is_int32(m, v, ntag).1, Ty::I8),
        e(f.is_int32(m, v, ntag).1) == truth(is_int32(e(v))),
{
    reveal(Frame::is_int32);
    lemma_respects_grown(f.is_int32(m, v, ntag).0, n, e);
    int32_test_decides(f, m, v, ntag, e);
}

/// The block `b` reads the element of the butterfly `bf` with the index `iv`, and passes on
/// what it read to `join`; for a hole, which is zero, control goes to `slow`.
pub open spec fn reads_element(
    n: Clif,
    e: Bits,
    b: Block,
    bf: Value,
    iv: Value,
    join: Block,
    slow: Block,
) -> bool {
    exists|addr: Value, v: Value|
        {
            &&& e(addr) == behind(e(bf), e(iv) as u32 as int)
            &&& #[trigger] gives(n, b, load(Ty::I64, Flags::Trusted, addr, 0), v)
            &&& if e(v) != 0 {
                goes(n, e, b, join, seq![v])
            } else {
                goes(n, e, b, slow, seq![])
            }
        }
}

/// The block `b` writes `vv` to the element of the butterfly `bf` with the index `iv`.
pub open spec fn writes_element(
    n: Clif,
    e: Bits,
    b: Block,
    bf: Value,
    iv: Value,
    vv: Value,
) -> bool {
    exists|addr: Value|
        {
            &&& e(addr) == behind(e(bf), e(iv) as u32 as int)
            &&& #[trigger] stands(n, b, store(vv, addr, 0))
        }
}

/// An element is read without a call only of a cell with indexed elements, with an `int32`
/// below the public length as the index, and only if it is not a hole. All others go to the
/// slow path, whose result goes to the target.
pub open spec fn reads_indexed(
    f: Frame,
    m: Clif,
    n: Clif,
    dst: VR,
    base: VR,
    idx: VR,
    bc: u32,
    cont: Block,
    e: Bits,
) -> bool {
    let s1 = added(m, 0);
    let s2 = added(m, 1);
    let s3 = added(m, 2);
    let s4 = added(m, 3);
    let slow = added(m, 4);
    let join = added(m, 5);
    let bv = m.value_of(f.var(base));
    let iv = m.use_var(f.var(base)).value_of(f.var(idx));
    let d = Detour {
        site: Some(bc),
        path: Slow::GetByVal,
        head: seq![n.defs[(f.go, slow)], n.defs[(f.cfr, slow)], bv, iv],
        tail: seq![bc],
    };
    &&& goes(n, e, m.current->0, if is_cell(e(bv)) { s1 } else { slow }, seq![])
    &&& goes(n, e, s1, if is_int32(e(iv)) { s2 } else { slow }, seq![])
    &&& tests_cell(n, e, s2, bv, JSCELL_INDEXING, indexed(), s3, slow)
    &&& exists|bf: Value|
        {
            &&& #[trigger] compares_index(n, e, s3, bv, iv, (-8) as i32, bf, s4, slow)
            &&& reads_element(n, e, s4, bf, iv, join, slow)
        }
    &&& joins_result(f, m, n, e, slow, d, added(m, 6), join)
    &&& joins(f, n, e, join, dst, cont)
}

/// That is so of the code itself, and of the code once another block is current.
#[verifier::rlimit(60)]
pub proof fn lemma_reads_indexed(
    f: Frame,
    m: Clif,
    n: Clif,
    dst: VR,
    base: VR,
    idx: VR,
    bc: u32,
    cont: Block,
    after: Block,
    e: Bits,
)
    requires
        begins(f, m, 60),
        is_register(dst, f.args.len(), f.locs.len()),
        is_register(base, f.args.len(), f.locs.len()),
        is_register(idx, f.args.len(), f.locs.len()),
        m.has_block(cont),
        m.info(cont).args.len() == 0,
        n == f.get_by_val(m, dst, base, idx, bc, cont) || n == f.get_by_val(m, dst, base, idx, bc, cont).switch_to(after),
        respects(n, e),
        keeps_tags(f, n, e),
    ensures
        reads_indexed(f, m, n, dst, base, idx, bc, cont, e),
{
    broadcast use {crate::growth::group_grows, crate::growth::group_pieces_grow};

    reveal(Frame::get_by_val);
    let n0 = f.get_by_val(m, dst, base, idx, bc, cont);
    grows_refl(n0);
    assert(grows(n0, n) && silent(n0, n));
    let (p1, bv) = m.get(f.var(base));
    let (p2, iv) = p1.get(f.var(idx));
    let (p3, ncm) = p2.get(f.ncm);
    let (m0, ntag) = p3.get(f.ntag);
    let test = binary(BinaryOp::Band, bv, ncm);
    let (m1, notcell) = m0.ins(test);
    let (m2, s1) = m1.new_block();
    let (m3, s2) = m2.new_block();
    let (m4, s3) = m3.new_block();
    let (q, s4) = m4.new_block();
    let (m5, slow) = q.new_cold_block();
    let (m6, join) = m5.new_join(Ty::I64);
    let m7 = m6.branch(notcell, slow, s1).switch_to(s1);
    let (m8, isint) = f.is_int32(m7, iv, ntag);
    let q0 = m8.branch(isint, s2, slow).switch_to(s2);
    let (q1, has) = f.has_elements(q0, bv);
    let m9 = q1.branch(has, s3, slow).switch_to(s3);
    let (m10, i32v, bf, inb) = f.in_bounds(m9, bv, iv, (-8) as i32);
    let m11 = m10.branch(inb, s4, slow).switch_to(s4);
    let (m12, addr) = f.element_address(m11, bf, i32v);
    let read = load(Ty::I64, Flags::Trusted, addr, 0);
    let (m13, v) = m12.ins(read);
    let found = Inst::Brif {
        cond: v,
        then_block: join,
        then_args: seq![v],
        else_block: slow,
        else_args: seq![],
    };
    let m14 = m13.push(found).switch_to(slow);
    let m15 = f.stamp(m14, bc);
    let (m16, go) = m15.get(f.go);
    let (m17, cfr) = m16.get(f.cfr);
    let (m18, bc_v) = m17.constant(Ty::I32, bc as i64);
    let (m19, r) = f.slow_result(m18, Slow::GetByVal, seq![go, cfr, bv, iv, bc_v]);
    let m20 = f.join_result(m19, r, join);
    assert(n0 == f.write_joined(m20, join, dst, cont));
    lemma_joins(f, m6, m20, join, dst, cont, e);
    lemma_joins_switched(f, n0, n, e, join, dst, cont, after);
    lemma_tag_read(f, p2, n, e);
    lemma_tag_read(f, p3, n, e);
    lemma_respects_grown(m1, n, e);
    lemma_respects_push(m0, test, e);
    lemma_cell_bits(e(bv));
    lemma_goes_pushed(m6, brif(notcell, slow, s1), n, e);
    lemma_is_int32(f, m7, iv, ntag, n, e);
    lemma_goes_pushed(m8, brif(isint, s2, slow), n, e);
    grows_refl(q1);
    lemma_has_elements(f, q0, bv, q1, s3, slow, n, e);
    lemma_compares_index(f, m9, bv, iv, (-8) as i32, s4, slow, n, e);
    lemma_element_address(f, m11, bf, i32v, n, e);
    lemma_stands(m12, read, n);
    lemma_goes_pushed(m13, found, n, e);
    assert(compares_index(n, e, s3, bv, iv, (-8) as i32, bf, s4, slow));
    assert(gives(n, s4, read, v));
    assert(reads_element(n, e, s4, bf, iv, join, slow));
    let d = Detour {
        site: Some(bc),
        path: Slow::GetByVal,
        head: seq![go, cfr, bv, iv],
        tail: seq![bc],
    };
    lemma_pin(m15, f.go, n);
    lemma_pin(m16, f.cfr, n);
    lemma_constant(m17, bc as i64, n, e);
    lemma_passed_one(e, d, bc_v);
    lemma_joins_result(f, m, m14, m18, seq![go, cfr, bv, iv, bc_v], n, e, slow, d, join);
    assert(s1 == added(m, 0) && s2 == added(m, 1) && s3 == added(m, 2) && s4 == added(m, 3)
        && slow == added(m, 4) && join == added(m, 5));
}

/// An element is read without a call only of a cell with indexed elements, with an `int32`
/// below the public length as the index, and only if it is not a hole. All others go to the
/// slow path, whose result goes to the target.
pub proof fn indexed_reads_are_guarded(
    f: Frame,
    m: Clif,
    dst: VR,
    base: VR,
    idx: VR,
    bc: u32,
    cont: Block,
    e: Bits,
)
    requires
        begins(f, m, 60),
        is_register(dst, f.args.len(), f.locs.len()),
        is_register(base, f.args.len(), f.locs.len()),
        is_register(idx, f.args.len(), f.locs.len()),
        m.has_block(cont),
        m.info(cont).args.len() == 0,
        respects(f.get_by_val(m, dst, base, idx, bc, cont), e),
        keeps_tags(f, f.get_by_val(m, dst, base, idx, bc, cont), e),
    ensures
        reads_indexed(f, m, f.get_by_val(m, dst, base, idx, bc, cont), dst, base, idx, bc, cont, e),
{
    let n = f.get_by_val(m, dst, base, idx, bc, cont);
    lemma_reads_indexed(f, m, n, dst, base, idx, bc, cont, m.current->0, e);
}

/// An element is written without a call only of a cell, with an `int32` below the vector
/// length as the index. All others are left to the slow path.
pub open spec fn writes_indexed(
    f: Frame,
    m: Clif,
    n: Clif,
    base: VR,
    idx: VR,
    val: VR,
    bc: u32,
    cont: Block,
    e: Bits,
) -> bool {
    let s1 = added(m, 0);
    let s2 = added(m, 1);
    let s3 = added(m, 2);
    let slow = added(m, 3);
    let bv = m.value_of(f.var(base));
    let iv = m.use_var(f.var(base)).value_of(f.var(idx));
    let vv = m.use_var(f.var(base)).use_var(f.var(idx)).value_of(f.var(val));
    let d = Detour {
        site: Some(bc),
        path: Slow::PutByVal,
        head: seq![n.defs[(f.go, slow)], n.defs[(f.cfr, slow)], bv, iv, vv],
        tail: seq![bc],
    };
    &&& exists|r: Value| #[trigger] detours(f, m, n, e, slow, d, r, cont)
    &&& goes(n, e, m.current->0, if is_cell(e(bv)) { s1 } else { slow }, seq![])
    &&& goes(n, e, s1, if is_int32(e(iv)) { s2 } else { slow }, seq![])
    &&& exists|bf: Value|
        {
            &&& #[trigger] compares_index(n, e, s2, bv, iv, (-4) as i32, bf, s3, slow)
            &&& writes_element(n, e, s3, bf, iv, vv)
        }
    &&& goes(n, e, s3, cont, seq![])
}

/// That is so of the code itself, and of the code once another block is current.
#[verifier::rlimit(60)]
pub proof fn lemma_writes_indexed(
    f: Frame,
    m: Clif,
    n: Clif,
    base: VR,
    idx: VR,
    val: VR,
    bc: u32,
    cont: Block,
    after: Block,
    e: Bits,
)
    requires
        begins(f, m, 60),
        is_register(base, f.args.len(), f.locs.len()),
        is_register(idx, f.args.len(), f.locs.len()),
        is_register(val, f.args.len(), f.locs.len()),
        m.has_block(cont),
        m.info(cont).args.len() == 0,
        n == f.put_by_val(m, base, idx, val, bc, cont) || n == f.put_by_val(m, base, idx, val, bc, cont).switch_to(after),
        respects(n, e),
        keeps_tags(f, n, e),
    ensures
        writes_indexed(f, m, n, base, idx, val, bc, cont, e),
{
    broadcast use {crate::growth::group_grows, crate::growth::group_pieces_grow};

    reveal(Frame::put_by_val);
    let n0 = f.put_by_val(m, base, idx, val, bc, cont);
    grows_refl(n0);
    assert(grows(n0, n) && silent(n0, n));
    let (p1, bv) = m.get(f.var(base));
    let (p2, iv) = p1.get(f.var(idx));
    let (p3, vv) = p2.get(f.var(val));
    let (p4, ncm) = p3.get(f.ncm);
    let (m0, ntag) = p4.get(f.ntag);
    let (m1, s1) = m0.new_block();
    let (m2, s2) = m1.new_block();
    let (m3, s3) = m2.new_block();
    let (m4, slow) = m3.new_cold_block();
    let test = binary(BinaryOp::Band, bv, ncm);
    let (m5, notcell) = m4.ins(test);
    let m6 = m5.branch(notcell, slow, s1).switch_to(s1);
    let (m7, isint) = f.is_int32(m6, iv, ntag);
    let m8 = m7.branch(isint, s2, slow).switch_to(s2);
    let (m9, i32v, bf, inb) = f.in_bounds(m8, bv, iv, (-4) as i32);
    let m10 = m9.branch(inb, s3, slow).switch_to(s3);
    let (m11, addr) = f.element_address(m10, bf, i32v);
    let write = store(vv, addr, 0);
    let m12 = m11.push(write);
    let m13 = m12.goto(cont).switch_to(slow);
    let m14 = f.stamp(m13, bc);
    let (m15, go) = m14.get(f.go);
    let (m16, cfr) = m15.get(f.cfr);
    let (m17, bc_v) = m16.constant(Ty::I32, bc as i64);
    let args = seq![go, cfr, bv, iv, vv, bc_v];
    let m18 = f.slow_result(m17, Slow::PutByVal, args).0;
    assert(n0 == f.check_exc(m18, cont));
    lemma_tag_read(f, p3, n, e);
    lemma_tag_read(f, p4, n, e);
    lemma_respects_grown(m5, n, e);
    lemma_respects_push(m4, test, e);
    lemma_cell_bits(e(bv));
    lemma_goes_pushed(m5, brif(notcell, slow, s1), n, e);
    lemma_is_int32(f, m6, iv, ntag, n, e);
    lemma_goes_pushed(m7, brif(isint, s2, slow), n, e);
    lemma_compares_index(f, m8, bv, iv, (-4) as i32, s3, slow, n, e);
    lemma_element_address(f, m10, bf, i32v, n, e);
    lemma_stands(m11, write, n);
    lemma_goes_pushed(m12, Inst::Jump { to: cont, args: seq![] }, n, e);
    assert(compares_index(n, e, s2, bv, iv, (-4) as i32, bf, s3, slow));
    assert(stands(n, s3, write));
    assert(writes_element(n, e, s3, bf, iv, vv));
    let d = Detour {
        site: Some(bc),
        path: Slow::PutByVal,
        head: seq![go, cfr, bv, iv, vv],
        tail: seq![bc],
    };
    lemma_pin(m14, f.go, n);
    lemma_pin(m15, f.cfr, n);
    lemma_constant(m16, bc as i64, n, e);
    lemma_passed_one(e, d, bc_v);
    grows_refl(m18);
    grows_refl(n);
    lemma_detours(f, m, m13, m17, args, m18, n, e, slow, d, cont);
    assert(s1 == added(m, 0) && s2 == added(m, 1) && s3 == added(m, 2) && slow == added(m, 3));
}

/// An element is written without a call only of a cell, with an `int32` below the vector
/// length as the index. All others are left to the slow path.
pub proof fn indexed_writes_are_guarded(
    f: Frame,
    m: Clif,
    base: VR,
    idx: VR,
    val: VR,
    bc: u32,
    cont: Block,
    e: Bits,
)
    requires
        begins(f, m, 60),
        is_register(base, f.args.len(), f.locs.len()),
        is_register(idx, f.args.len(), f.locs.len()),
        is_register(val, f.args.len(), f.locs.len()),
        m.has_block(cont),
        m.info(cont).args.len() == 0,
        respects(f.put_by_val(m, base, idx, val, bc, cont), e),
        keeps_tags(f, f.put_by_val(m, base, idx, val, bc, cont), e),
    ensures
        writes_indexed(f, m, f.put_by_val(m, base, idx, val, bc, cont), base, idx, val, bc, cont, e),
{
    let n = f.put_by_val(m, base, idx, val, bc, cont);
    lemma_writes_indexed(f, m, n, base, idx, val, bc, cont, m.current->0, e);
}

} // verus!
