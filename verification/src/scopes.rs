//! Where control goes in the code of scope accesses and of the remaining checks.
//!
//! As in [`crate::runs`], the laws hold for all [`Bits`] that go by the instructions. What
//! a load gives is open.
use crate::accesses::{
    gives, indexed, lemma_has_elements, lemma_not_cell, lemma_slot_address, lemma_stands,
    reads_slot, stands, tests_cell, writes_slot,
};
use crate::bytecode::{is_register, VR};
use crate::clif::{
    binary, compare, load, masked, resize, store, BinaryOp, Block, Clif, Cond, Flags, Inst, Resize,
    Ty, Value,
};
use crate::detours::{
    call_place, calls_out, detours, joins_result, lemma_calls_out, lemma_constant, lemma_detours,
    lemma_joins_result, lemma_passed, lemma_passed_one, lemma_pin, Detour,
};
use crate::growth::{
    begins, brif, goes, grows, grows_refl, keeps_tags, lemma_def_pushed, lemma_goes_pushed,
    lemma_respects_grown, silent,
};
use crate::meaning::{is_cell, lemma_respects_push, respects, Bits};
use crate::runs::{added, boxed, joins, lemma_box_int32, lemma_joins, lemma_joins_switched, low};
use crate::slow::Slow;
use crate::template::{Frame, JSCELL_INDEXING, JSCELL_TYPE, JSOBJ_BUTTERFLY, VM_TRAPS_OFFSET};
use vstd::prelude::*;

verus! {

broadcast use {crate::clif::group_clif, crate::template::group_frame};

/// The block `b` reads how a scope access is resolved from the metadata at `md_off`, and
/// control goes to `fast` for the first six ways, else to `slow`.
pub open spec fn tests_resolution(
    n: Clif,
    e: Bits,
    b: Block,
    md: Value,
    md_off: i32,
    fast: Block,
    slow: Block,
) -> bool {
    exists|way: Value|
        {
            &&& #[trigger] gives(n, b, load(Ty::I32, Flags::ReadOnly, md, md_off), way)
            &&& goes(
                n,
                e,
                b,
                if e(way) < 6 {
                    fast
                } else {
                    slow
                },
                seq![],
            )
        }
}

/// What is known after the test of the resolution.
proof fn lemma_fast_scope(f: Frame, m: Clif, md_off: i32, n: Clif, e: Bits)
    requires
        begins(f, m, 4),
        grows(f.fast_scope(m, md_off).0, n),
        respects(n, e),
    ensures
        m.continued_in(f.fast_scope(m, md_off).0),
        m.within(f.fast_scope(m, md_off).0, 4),
        f.fast_scope(m, md_off).1 == m.value_of(f.md),
        f.fast_scope(m, md_off).0.is(f.fast_scope(m, md_off).1, Ty::I64),
        f.fast_scope(m, md_off).0.is(f.fast_scope(m, md_off).2, Ty::I8),
        exists|way: Value|
            {
                &&& #[trigger] gives(
                    n,
                    m.current->0,
                    load(Ty::I32, Flags::ReadOnly, m.value_of(f.md), md_off),
                    way,
                )
                &&& e(f.fast_scope(m, md_off).2) != 0 <==> e(way) < 6
            },
{
    broadcast use crate::growth::group_grows;

    reveal(Frame::fast_scope);
    let (m1, md) = m.get(f.md);
    let i2 = load(Ty::I32, Flags::ReadOnly, md, md_off);
    let (m2, way) = m1.ins(i2);
    let i3 = Inst::Iconst { ty: Ty::I32, imm: masked(Ty::I32, 6) };
    let (m3, six) = m2.ins(i3);
    let i4 = compare(Cond::UnsignedLessThan, way, six);
    let (m4, fast) = m3.ins(i4);
    lemma_stands(m1, i2, n);
    lemma_respects_grown(m4, n, e);
    lemma_respects_push(m3, i4, e);
    lemma_respects_push(m2, i3, e);
    assert((6i64 & 0xffff_ffff) as u64 == 6) by (bit_vector);
    assert(gives(n, m.current->0, i2, way));
}

/// A scope that is resolved in one of the first six ways is the constant one of the
/// metadata, or the scope that the lookup began with if there is none. In the other ways it
/// is the result of the slow path.
pub open spec fn resolves_scope(
    f: Frame,
    m: Clif,
    n: Clif,
    dst: VR,
    scope: VR,
    md_off: i32,
    bc: u32,
    cont: Block,
    e: Bits,
) -> bool {
    let fast = added(m, 0);
    let slow = added(m, 1);
    let join = added(m, 2);
    let use_constant = added(m, 3);
    let use_scope = added(m, 4);
    let sv = m.value_of(f.var(scope));
    let md = m.use_var(f.var(scope)).value_of(f.md);
    let d = Detour {
        site: Some(bc),
        path: Slow::ResolveScope,
        head: seq![n.defs[(f.go, slow)], n.defs[(f.cfr, slow)]],
        tail: seq![md_off as u32],
    };
    &&& joins_result(f, m, n, e, slow, d, added(m, 5), join)
    &&& tests_resolution(n, e, m.current->0, md, md_off, fast, slow)
    &&& exists|cs: Value|
        {
            &&& #[trigger] gives(
                n,
                fast,
                load(Ty::I64, Flags::ReadOnly, md, (md_off + 8) as i32),
                cs,
            )
            &&& goes(
                n,
                e,
                fast,
                if e(cs) != 0 {
                    use_constant
                } else {
                    use_scope
                },
                seq![],
            )
            &&& goes(n, e, use_constant, join, seq![cs])
        }
    &&& goes(n, e, use_scope, join, seq![sv])
    &&& joins(f, n, e, join, dst, cont)
}

/// That is so of the code itself, and of the code once another block is current.
#[verifier::rlimit(60)]
pub proof fn lemma_resolves_scope(
    f: Frame,
    m: Clif,
    n: Clif,
    dst: VR,
    scope: VR,
    md_off: i32,
    bc: u32,
    cont: Block,
    after: Block,
    e: Bits,
)
    requires
        begins(f, m, 60),
        is_register(dst, f.args.len(), f.locs.len()),
        is_register(scope, f.args.len(), f.locs.len()),
        md_off + 8 <= i32::MAX,
        m.has_block(cont),
        m.info(cont).args.len() == 0,
        n == f.resolve_scope(m, dst, scope, md_off, bc, cont) || n == f.resolve_scope(m, dst, scope, md_off, bc, cont).switch_to(after),
        respects(n, e),
    ensures
        resolves_scope(f, m, n, dst, scope, md_off, bc, cont, e),
{
    broadcast use {crate::growth::group_grows, crate::growth::group_pieces_grow};

    reveal(Frame::resolve_scope);
    let n0 = f.resolve_scope(m, dst, scope, md_off, bc, cont);
    grows_refl(n0);
    assert(grows(n0, n) && silent(n0, n));
    let (m0, sv) = m.get(f.var(scope));
    let (m1, md, isfast) = f.fast_scope(m0, md_off);
    let (m2, fast) = m1.new_block();
    let (m3, slow) = m2.new_cold_block();
    let (m4, join) = m3.new_join(Ty::I64);
    let m5 = m4.branch(isfast, fast, slow).switch_to(fast);
    let read = load(Ty::I64, Flags::ReadOnly, md, (md_off + 8) as i32);
    let (m6, cs) = m5.ins(read);
    let (m7, use_constant) = m6.new_block();
    let (m8, use_scope) = m7.new_block();
    let m9 = m8.branch(cs, use_constant, use_scope).switch_to(use_constant);
    let m10 = m9.goto_with(join, cs).switch_to(use_scope);
    let m11 = m10.goto_with(join, sv).switch_to(slow);
    let p = f.stamp(m11, bc);
    let (m12, go) = p.get(f.go);
    let (m13, cfr) = m12.get(f.cfr);
    let (m14, mo) = m13.constant(Ty::I32, md_off as i64);
    let (m15, r) = f.slow_result(m14, Slow::ResolveScope, seq![go, cfr, mo]);
    let m16 = f.join_result(m15, r, join);
    assert(n0 == f.write_joined(m16, join, dst, cont));
    lemma_joins(f, m4, m16, join, dst, cont, e);
    lemma_joins_switched(f, n0, n, e, join, dst, cont, after);
    lemma_fast_scope(f, m0, md_off, n, e);
    lemma_goes_pushed(m4, brif(isfast, fast, slow), n, e);
    lemma_stands(m5, read, n);
    lemma_goes_pushed(m8, brif(cs, use_constant, use_scope), n, e);
    lemma_goes_pushed(m9, Inst::Jump { to: join, args: seq![cs] }, n, e);
    lemma_goes_pushed(m10, Inst::Jump { to: join, args: seq![sv] }, n, e);
    assert(tests_resolution(n, e, m.current->0, md, md_off, fast, slow));
    assert(gives(n, fast, read, cs));
    assert(goes(n, e, use_constant, join, seq![cs]));
    let d = Detour {
        site: Some(bc),
        path: Slow::ResolveScope,
        head: seq![go, cfr],
        tail: seq![md_off as u32],
    };
    lemma_pin(p, f.go, n);
    lemma_pin(m12, f.cfr, n);
    lemma_constant(m13, md_off as i64, n, e);
    lemma_passed_one(e, d, mo);
    lemma_joins_result(f, m, m11, m14, seq![go, cfr, mo], n, e, slow, d, join);
    assert(fast == added(m, 0) && slow == added(m, 1) && join == added(m, 2) && use_constant
        == added(m, 3) && use_scope == added(m, 4));
}

/// A scope that is resolved in one of the first six ways is the constant one of the
/// metadata, or the scope that the lookup began with if there is none. In the other ways it
/// is the result of the slow path.
pub proof fn resolved_scopes_are_constant_or_given(
    f: Frame,
    m: Clif,
    dst: VR,
    scope: VR,
    md_off: i32,
    bc: u32,
    cont: Block,
    e: Bits,
)
    requires
        begins(f, m, 60),
        is_register(dst, f.args.len(), f.locs.len()),
        is_register(scope, f.args.len(), f.locs.len()),
        md_off + 8 <= i32::MAX,
        m.has_block(cont),
        m.info(cont).args.len() == 0,
        respects(f.resolve_scope(m, dst, scope, md_off, bc, cont), e),
    ensures
        resolves_scope(f, m, f.resolve_scope(m, dst, scope, md_off, bc, cont), dst, scope, md_off, bc, cont, e),
{
    let n = f.resolve_scope(m, dst, scope, md_off, bc, cont);
    lemma_resolves_scope(f, m, n, dst, scope, md_off, bc, cont, m.current->0, e);
}

/// A variable of a scope is read without a call only where the access is resolved in one of
/// the first six ways: it is the slot of the scope that the metadata names. In the other ways
/// it is the result of the slow path.
pub open spec fn reads_variable(
    f: Frame,
    m: Clif,
    n: Clif,
    dst: VR,
    scope: VR,
    md_off: i32,
    bc: u32,
    cont: Block,
    e: Bits,
) -> bool {
    let fast = added(m, 0);
    let slow = added(m, 1);
    let join = added(m, 2);
    let sv = m.value_of(f.var(scope));
    let md = m.use_var(f.var(scope)).value_of(f.md);
    let d = Detour {
        site: Some(bc),
        path: Slow::GetFromScope,
        head: seq![n.defs[(f.go, slow)], n.defs[(f.cfr, slow)], sv],
        tail: seq![md_off as u32],
    };
    &&& joins_result(f, m, n, e, slow, d, added(m, 3), join)
    &&& tests_resolution(n, e, m.current->0, md, md_off, fast, slow)
    &&& reads_slot(n, e, fast, sv, (md_off + 16) as i32, 64, join)
    &&& joins(f, n, e, join, dst, cont)
}

/// That is so of the code itself, and of the code once another block is current.
#[verifier::rlimit(60)]
pub proof fn lemma_reads_variable(
    f: Frame,
    m: Clif,
    n: Clif,
    dst: VR,
    scope: VR,
    md_off: i32,
    bc: u32,
    cont: Block,
    after: Block,
    e: Bits,
)
    requires
        begins(f, m, 60),
        is_register(dst, f.args.len(), f.locs.len()),
        is_register(scope, f.args.len(), f.locs.len()),
        md_off + 16 <= i32::MAX,
        m.has_block(cont),
        m.info(cont).args.len() == 0,
        n == f.get_from_scope(m, dst, scope, md_off, bc, cont) || n == f.get_from_scope(m, dst, scope, md_off, bc, cont).switch_to(after),
        respects(n, e),
    ensures
        reads_variable(f, m, n, dst, scope, md_off, bc, cont, e),
{
    broadcast use {crate::growth::group_grows, crate::growth::group_pieces_grow};

    reveal(Frame::get_from_scope);
    let n0 = f.get_from_scope(m, dst, scope, md_off, bc, cont);
    grows_refl(n0);
    assert(grows(n0, n) && silent(n0, n));
    let (m0, sv) = m.get(f.var(scope));
    let (m1, md, isfast) = f.fast_scope(m0, md_off);
    let (m2, fast) = m1.new_block();
    let (m3, slow) = m2.new_cold_block();
    let (m4, join) = m3.new_join(Ty::I64);
    let m5 = m4.branch(isfast, fast, slow).switch_to(fast);
    let offset = (md_off + 16) as i32;
    let (m6, addr) = f.slot_address(m5, md, offset, sv);
    let read = load(Ty::I64, Flags::Trusted, addr, 64);
    let (m7, v) = m6.ins(read);
    let m8 = m7.goto_with(join, v).switch_to(slow);
    let m9 = f.stamp(m8, bc);
    let (m10, go) = m9.get(f.go);
    let (m11, cfr) = m10.get(f.cfr);
    let (m12, mo) = m11.constant(Ty::I32, md_off as i64);
    let (m13, r) = f.slow_result(m12, Slow::GetFromScope, seq![go, cfr, sv, mo]);
    let m14 = f.join_result(m13, r, join);
    assert(n0 == f.write_joined(m14, join, dst, cont));
    lemma_joins(f, m4, m14, join, dst, cont, e);
    lemma_joins_switched(f, n0, n, e, join, dst, cont, after);
    lemma_fast_scope(f, m0, md_off, n, e);
    lemma_goes_pushed(m4, brif(isfast, fast, slow), n, e);
    lemma_slot_address(f, m5, md, offset, sv, n, e);
    lemma_stands(m6, read, n);
    lemma_goes_pushed(m7, Inst::Jump { to: join, args: seq![v] }, n, e);
    assert(tests_resolution(n, e, m.current->0, md, md_off, fast, slow));
    assert(gives(n, fast, load(Ty::I32, Flags::ReadOnly, md, offset), m5.next()));
    assert(gives(n, fast, read, v));
    assert(goes(n, e, fast, join, seq![v]));
    assert(reads_slot(n, e, fast, sv, offset, 64, join));
    let d = Detour {
        site: Some(bc),
        path: Slow::GetFromScope,
        head: seq![go, cfr, sv],
        tail: seq![md_off as u32],
    };
    lemma_pin(m9, f.go, n);
    lemma_pin(m10, f.cfr, n);
    lemma_constant(m11, md_off as i64, n, e);
    lemma_passed_one(e, d, mo);
    lemma_joins_result(f, m, m8, m12, seq![go, cfr, sv, mo], n, e, slow, d, join);
    assert(fast == added(m, 0) && slow == added(m, 1) && join == added(m, 2));
}

/// A variable of a scope is read without a call only where the access is resolved in one of
/// the first six ways: it is the slot of the scope that the metadata names. In the other ways
/// it is the result of the slow path.
pub proof fn scope_reads_are_guarded(
    f: Frame,
    m: Clif,
    dst: VR,
    scope: VR,
    md_off: i32,
    bc: u32,
    cont: Block,
    e: Bits,
)
    requires
        begins(f, m, 60),
        is_register(dst, f.args.len(), f.locs.len()),
        is_register(scope, f.args.len(), f.locs.len()),
        md_off + 16 <= i32::MAX,
        m.has_block(cont),
        m.info(cont).args.len() == 0,
        respects(f.get_from_scope(m, dst, scope, md_off, bc, cont), e),
    ensures
        reads_variable(f, m, f.get_from_scope(m, dst, scope, md_off, bc, cont), dst, scope, md_off, bc, cont, e),
{
    let n = f.get_from_scope(m, dst, scope, md_off, bc, cont);
    lemma_reads_variable(f, m, n, dst, scope, md_off, bc, cont, m.current->0, e);
}

/// A variable of a scope is written without a call only where the access is resolved in one
/// of the first six ways: it is the slot of the scope that the metadata names. In the other
/// ways it is left to the slow path.
pub open spec fn writes_variable(
    f: Frame,
    m: Clif,
    n: Clif,
    scope: VR,
    val: VR,
    md_off: i32,
    bc: u32,
    cont: Block,
    e: Bits,
) -> bool {
    let fast = added(m, 0);
    let slow = added(m, 1);
    let sv = m.value_of(f.var(scope));
    let m1 = m.use_var(f.var(scope));
    let vv = m1.value_of(f.var(val));
    let md = m1.use_var(f.var(val)).value_of(f.md);
    let d = Detour {
        site: Some(bc),
        path: Slow::PutToScope,
        head: seq![n.defs[(f.go, slow)], n.defs[(f.cfr, slow)], sv, vv],
        tail: seq![md_off as u32],
    };
    &&& exists|r: Value| #[trigger] detours(f, m, n, e, slow, d, r, cont)
    &&& tests_resolution(n, e, m.current->0, md, md_off, fast, slow)
    &&& writes_slot(n, e, fast, sv, (md_off + 16) as i32, 64, vv)
    &&& goes(n, e, fast, cont, seq![])
}

/// That is so of the code itself, and of the code once another block is current.
#[verifier::rlimit(60)]
pub proof fn lemma_writes_variable(
    f: Frame,
    m: Clif,
    n: Clif,
    scope: VR,
    val: VR,
    md_off: i32,
    bc: u32,
    cont: Block,
    after: Block,
    e: Bits,
)
    requires
        begins(f, m, 60),
        is_register(scope, f.args.len(), f.locs.len()),
        is_register(val, f.args.len(), f.locs.len()),
        md_off + 16 <= i32::MAX,
        m.has_block(cont),
        m.info(cont).args.len() == 0,
        n == f.put_to_scope(m, scope, val, md_off, bc, cont) || n == f.put_to_scope(m, scope, val, md_off, bc, cont).switch_to(after),
        respects(n, e),
    ensures
        writes_variable(f, m, n, scope, val, md_off, bc, cont, e),
{
    broadcast use {crate::growth::group_grows, crate::growth::group_pieces_grow};

    reveal(Frame::put_to_scope);
    let n0 = f.put_to_scope(m, scope, val, md_off, bc, cont);
    grows_refl(n0);
    assert(grows(n0, n) && silent(n0, n));
    let (p, sv) = m.get(f.var(scope));
    let (m0, vv) = p.get(f.var(val));
    let (m1, md, isfast) = f.fast_scope(m0, md_off);
    let (m2, fast) = m1.new_block();
    let (m3, slow) = m2.new_cold_block();
    let m4 = m3.branch(isfast, fast, slow).switch_to(fast);
    let offset = (md_off + 16) as i32;
    let (m5, addr) = f.slot_address(m4, md, offset, sv);
    let write = store(vv, addr, 64);
    let m6 = m5.push(write);
    let m7 = m6.goto(cont).switch_to(slow);
    let m8 = f.stamp(m7, bc);
    let (m9, go) = m8.get(f.go);
    let (m10, cfr) = m9.get(f.cfr);
    let (m11, mo) = m10.constant(Ty::I32, md_off as i64);
    let args = seq![go, cfr, sv, vv, mo];
    let m12 = f.slow_result(m11, Slow::PutToScope, args).0;
    assert(n0 == f.check_exc(m12, cont));
    lemma_fast_scope(f, m0, md_off, n, e);
    lemma_goes_pushed(m3, brif(isfast, fast, slow), n, e);
    lemma_slot_address(f, m4, md, offset, sv, n, e);
    lemma_stands(m5, write, n);
    lemma_goes_pushed(m6, Inst::Jump { to: cont, args: seq![] }, n, e);
    assert(tests_resolution(n, e, m.current->0, md, md_off, fast, slow));
    assert(gives(n, fast, load(Ty::I32, Flags::ReadOnly, md, offset), m4.next()));
    assert(stands(n, fast, write));
    assert(writes_slot(n, e, fast, sv, offset, 64, vv));
    let d = Detour {
        site: Some(bc),
        path: Slow::PutToScope,
        head: seq![go, cfr, sv, vv],
        tail: seq![md_off as u32],
    };
    lemma_pin(m8, f.go, n);
    lemma_pin(m9, f.cfr, n);
    lemma_constant(m10, md_off as i64, n, e);
    lemma_passed_one(e, d, mo);
    grows_refl(m12);
    grows_refl(n);
    lemma_detours(f, m, m7, m11, args, m12, n, e, slow, d, cont);
    assert(fast == added(m, 0) && slow == added(m, 1));
}

/// A variable of a scope is written without a call only where the access is resolved in one
/// of the first six ways: it is the slot of the scope that the metadata names. In the other
/// ways it is left to the slow path.
pub proof fn scope_writes_are_guarded(
    f: Frame,
    m: Clif,
    scope: VR,
    val: VR,
    md_off: i32,
    bc: u32,
    cont: Block,
    e: Bits,
)
    requires
        begins(f, m, 60),
        is_register(scope, f.args.len(), f.locs.len()),
        is_register(val, f.args.len(), f.locs.len()),
        md_off + 16 <= i32::MAX,
        m.has_block(cont),
        m.info(cont).args.len() == 0,
        respects(f.put_to_scope(m, scope, val, md_off, bc, cont), e),
    ensures
        writes_variable(f, m, f.put_to_scope(m, scope, val, md_off, bc, cont), scope, val, md_off, bc, cont, e),
{
    let n = f.put_to_scope(m, scope, val, md_off, bc, cont);
    lemma_writes_variable(f, m, n, scope, val, md_off, bc, cont, m.current->0, e);
}

/// The block `b` reads the public length from the butterfly of `bv`, and passes it on,
/// encoded, to `join`.
pub open spec fn reads_length(n: Clif, e: Bits, b: Block, bv: Value, join: Block) -> bool {
    exists|bf: Value, len: Value, v: Value|
        {
            &&& #[trigger] gives(n, b, load(Ty::I64, Flags::Trusted, bv, JSOBJ_BUTTERFLY), bf)
            &&& #[trigger] gives(n, b, load(Ty::I32, Flags::Trusted, bf, (-8) as i32), len)
            &&& #[trigger] e(v) == boxed(low(e(len)))
            &&& goes(n, e, b, join, seq![v])
        }
}

/// A length is read without a call only of a cell with indexed elements. All others go to
/// the slow path, whose result goes to the target.
pub open spec fn reads_array_length(
    f: Frame,
    m: Clif,
    n: Clif,
    dst: VR,
    base: VR,
    bc: u32,
    cont: Block,
    e: Bits,
) -> bool {
    let s1 = added(m, 0);
    let slow = added(m, 1);
    let join = added(m, 2);
    let s2 = added(m, 3);
    let bv = m.value_of(f.var(base));
    let d = Detour {
        site: Some(bc),
        path: Slow::GetLength,
        head: seq![n.defs[(f.go, slow)], n.defs[(f.cfr, slow)], bv],
        tail: seq![bc],
    };
    &&& goes(n, e, m.current->0, if is_cell(e(bv)) { s1 } else { slow }, seq![])
    &&& joins_result(f, m, n, e, slow, d, added(m, 4), join)
    &&& tests_cell(n, e, s1, bv, JSCELL_INDEXING, indexed(), s2, slow)
    &&& reads_length(n, e, s2, bv, join)
    &&& joins(f, n, e, join, dst, cont)
}

/// That is so of the code itself, and of the code once another block is current.
#[verifier::rlimit(60)]
pub proof fn lemma_reads_array_length(
    f: Frame,
    m: Clif,
    n: Clif,
    dst: VR,
    base: VR,
    bc: u32,
    cont: Block,
    after: Block,
    e: Bits,
)
    requires
        begins(f, m, 60),
        is_register(dst, f.args.len(), f.locs.len()),
        is_register(base, f.args.len(), f.locs.len()),
        m.has_block(cont),
        m.info(cont).args.len() == 0,
        n == f.get_length(m, dst, base, bc, cont) || n == f.get_length(m, dst, base, bc, cont).switch_to(after),
        respects(n, e),
        keeps_tags(f, n, e),
    ensures
        reads_array_length(f, m, n, dst, base, bc, cont, e),
{
    broadcast use {crate::growth::group_grows, crate::growth::group_pieces_grow};

    reveal(Frame::get_length);
    let n0 = f.get_length(m, dst, base, bc, cont);
    grows_refl(n0);
    assert(grows(n0, n) && silent(n0, n));
    let (m0, bv) = m.get(f.var(base));
    let (m1, notcell) = f.not_cell(m0, bv);
    let (m2, s1) = m1.new_block();
    let (m3, slow) = m2.new_cold_block();
    let (m4, join) = m3.new_join(Ty::I64);
    let m5 = m4.branch(notcell, slow, s1).switch_to(s1);
    let (m9, has) = f.has_elements(m5, bv);
    let (m10, s2) = m9.new_block();
    let m11 = m10.branch(has, s2, slow).switch_to(s2);
    let i12 = load(Ty::I64, Flags::Trusted, bv, JSOBJ_BUTTERFLY);
    let (m12, bf) = m11.ins(i12);
    let i13 = load(Ty::I32, Flags::Trusted, bf, (-8) as i32);
    let (m13, len) = m12.ins(i13);
    let (m14, v) = f.box_int32(m13, len);
    let m15 = m14.goto_with(join, v).switch_to(slow);
    let m16 = f.stamp(m15, bc);
    let (m17, go) = m16.get(f.go);
    let (m18, cfr) = m17.get(f.cfr);
    let (m19, bc_v) = m18.constant(Ty::I32, bc as i64);
    let (m20, r) = f.slow_result(m19, Slow::GetLength, seq![go, cfr, bv, bc_v]);
    let m21 = f.join_result(m20, r, join);
    assert(n0 == f.write_joined(m21, join, dst, cont));
    lemma_joins(f, m4, m21, join, dst, cont, e);
    lemma_joins_switched(f, n0, n, e, join, dst, cont, after);
    lemma_not_cell(f, m0, bv, n, e);
    lemma_goes_pushed(m4, brif(notcell, slow, s1), n, e);
    lemma_has_elements(f, m5, bv, m10, s2, slow, n, e);
    lemma_stands(m11, i12, n);
    lemma_stands(m12, i13, n);
    lemma_box_int32(f, m13, len, n, e);
    lemma_goes_pushed(m14, Inst::Jump { to: join, args: seq![v] }, n, e);
    assert(gives(n, s2, i12, bf));
    assert(gives(n, s2, i13, len));
    assert(goes(n, e, s2, join, seq![v]));
    assert(reads_length(n, e, s2, bv, join));
    let d = Detour {
        site: Some(bc),
        path: Slow::GetLength,
        head: seq![go, cfr, bv],
        tail: seq![bc],
    };
    lemma_pin(m16, f.go, n);
    lemma_pin(m17, f.cfr, n);
    lemma_constant(m18, bc as i64, n, e);
    lemma_passed_one(e, d, bc_v);
    lemma_joins_result(f, m, m15, m19, seq![go, cfr, bv, bc_v], n, e, slow, d, join);
    assert(s1 == added(m, 0) && slow == added(m, 1) && join == added(m, 2) && s2 == added(m, 3));
}

/// A length is read without a call only of a cell with indexed elements. All others go to
/// the slow path, whose result goes to the target.
pub proof fn length_reads_are_guarded(
    f: Frame,
    m: Clif,
    dst: VR,
    base: VR,
    bc: u32,
    cont: Block,
    e: Bits,
)
    requires
        begins(f, m, 60),
        is_register(dst, f.args.len(), f.locs.len()),
        is_register(base, f.args.len(), f.locs.len()),
        m.has_block(cont),
        m.info(cont).args.len() == 0,
        respects(f.get_length(m, dst, base, bc, cont), e),
        keeps_tags(f, f.get_length(m, dst, base, bc, cont), e),
    ensures
        reads_array_length(f, m, f.get_length(m, dst, base, bc, cont), dst, base, bc, cont, e),
{
    let n = f.get_length(m, dst, base, bc, cont);
    lemma_reads_array_length(f, m, n, dst, base, bc, cont, m.current->0, e);
}

/// The block `post` gives the variable of `this` the result of the one call, which is made
/// for `d`, and control goes on to `cont`.
pub open spec fn result_becomes_this(
    f: Frame,
    m: Clif,
    n: Clif,
    e: Bits,
    b: Block,
    d: Detour,
    post: Block,
    cont: Block,
) -> bool {
    &&& detours(f, m, n, e, b, d, n.defs[(f.vthis, post)], post)
    &&& n.defs.contains_key((f.vthis, post))
    &&& goes(n, e, post, cont, seq![])
}

/// The conversion of `this` lets through exactly the cells whose type is that of an object.
/// For all others the result of the slow path becomes `this`.
pub open spec fn converts_this(
    f: Frame,
    m: Clif,
    n: Clif,
    cont: Block,
    e: Bits,
) -> bool {
    let s1 = added(m, 0);
    let slow = added(m, 1);
    let tv = m.value_of(f.vthis);
    let d = Detour {
        site: None,
        path: Slow::ToThis,
        head: seq![n.defs[(f.go, slow)], n.defs[(f.cfr, slow)], tv],
        tail: seq![],
    };
    &&& result_becomes_this(f, m, n, e, slow, d, added(m, 2), cont)
    &&& goes(n, e, m.current->0, if is_cell(e(tv)) { s1 } else { slow }, seq![])
    &&& tests_cell(n, e, s1, tv, JSCELL_TYPE, |byte: u64| byte >= 0x17, cont, slow)
}

/// That is so of the code itself, and of the code once another block is current.
#[verifier::rlimit(60)]
pub proof fn lemma_converts_this(
    f: Frame,
    m: Clif,
    n: Clif,
    cont: Block,
    after: Block,
    e: Bits,
)
    requires
        begins(f, m, 60),
        m.has_block(cont),
        m.info(cont).args.len() == 0,
        n == f.to_this(m, cont) || n == f.to_this(m, cont).switch_to(after),
        respects(n, e),
        keeps_tags(f, n, e),
    ensures
        converts_this(f, m, n, cont, e),
{
    broadcast use {crate::growth::group_grows, crate::growth::group_pieces_grow};

    reveal(Frame::to_this);
    let n0 = f.to_this(m, cont);
    grows_refl(n0);
    assert(grows(n0, n) && silent(n0, n));
    let test = |byte: u64| byte >= 0x17;
    crate::template::frame_register(f, 0, m.setup);
    let (m0, tv) = m.get(f.var(0));
    let (m1, notcell) = f.not_cell(m0, tv);
    let (m2, s1) = m1.new_block();
    let (m3, slow) = m2.new_cold_block();
    let m4 = m3.branch(notcell, slow, s1).switch_to(s1);
    let i5 = load(Ty::I8, Flags::Trusted, tv, JSCELL_TYPE);
    let (m5, ty) = m4.ins(i5);
    let i6 = resize(Resize::Uextend, Ty::I32, ty);
    let (m6, ty32) = m5.ins(i6);
    let i7 = Inst::Iconst { ty: Ty::I32, imm: masked(Ty::I32, 0x17) };
    let (m7, object) = m6.ins(i7);
    let i8 = compare(Cond::UnsignedGreaterThanOrEqual, ty32, object);
    let (m8, isobj) = m7.ins(i8);
    let m9 = m8.branch(isobj, cont, slow).switch_to(slow);
    let (m10, go) = m9.get(f.go);
    let (m11, cfr) = m10.get(f.cfr);
    let (m12, r) = f.slow_result(m11, Slow::ToThis, seq![go, cfr, tv]);
    let (m13, post) = m12.new_block();
    let m14 = f.check_exc(m13, post).switch_to(post);
    let m15 = m14.def_var(f.var(0), r);
    let jump = Inst::Jump { to: cont, args: seq![] };
    assert(n0 == m15.push(jump));
    grows_refl(n);
    assert(grows(m15, n));
    lemma_not_cell(f, m0, tv, n, e);
    lemma_goes_pushed(m3, brif(notcell, slow, s1), n, e);
    lemma_stands(m4, i5, n);
    lemma_respects_grown(m8, n, e);
    lemma_respects_push(m7, i8, e);
    lemma_respects_push(m6, i7, e);
    lemma_respects_push(m5, i6, e);
    assert((0x17i64 & 0xffff_ffff) as u64 == 0x17) by (bit_vector);
    lemma_goes_pushed(m8, brif(isobj, cont, slow), n, e);
    assert(gives(n, s1, i5, ty));
    assert(tests_cell(n, e, s1, tv, JSCELL_TYPE, test, cont, slow));
    let d = Detour {
        site: None,
        path: Slow::ToThis,
        head: seq![go, cfr, tv],
        tail: seq![],
    };
    lemma_pin(m9, f.go, n);
    lemma_pin(m10, f.cfr, n);
    lemma_passed(e, d);
    lemma_detours(f, m, m9, m11, seq![go, cfr, tv], m13, n, e, slow, d, post);
    lemma_def_pushed(m14, f.var(0), r, jump);
    assert(n.defs == n0.defs) by {
        reveal(Clif::switch_to);
    }
    lemma_goes_pushed(m15, jump, n, e);
    assert(post == added(m, 2));
    assert(s1 == added(m, 0) && slow == added(m, 1));
}

/// The conversion of `this` lets through exactly the cells whose type is that of an object.
/// For all others the result of the slow path becomes `this`.
pub proof fn objects_stay_this(f: Frame, m: Clif, cont: Block, e: Bits)
    requires
        begins(f, m, 60),
        m.has_block(cont),
        m.info(cont).args.len() == 0,
        respects(f.to_this(m, cont), e),
        keeps_tags(f, f.to_this(m, cont), e),
    ensures
        converts_this(f, m, f.to_this(m, cont), cont, e),
{
    let n = f.to_this(m, cont);
    lemma_converts_this(f, m, n, cont, m.current->0, e);
}

/// A check of the trap bits goes on unless one of the low eight is set. If one is, the traps
/// are handled, and control goes to the exception sink if the result is not zero.
pub open spec fn checks_for_traps(
    f: Frame,
    m: Clif,
    n: Clif,
    bc: u32,
    cont: Block,
    e: Bits,
) -> bool {
    let slow = added(m, 0);
    let vm = m.value_of(f.vm);
    let d = Detour {
        site: Some(bc),
        path: Slow::HandleTraps,
        head: seq![n.defs[(f.go, slow)]],
        tail: seq![],
    };
    &&& exists|r: Value, i: int| #[trigger]
        calls_out(f, m, n, e, slow, d, r, i) && goes(
            n,
            e,
            slow,
            if e(r) != 0 {
                f.exc_sink
            } else {
                cont
            },
            seq![],
        )
    &&& exists|bits: Value|
        {
            &&& #[trigger] gives(
                n,
                m.current->0,
                load(Ty::I32, Flags::Trusted, vm, VM_TRAPS_OFFSET),
                bits,
            )
            &&& goes(
                n,
                e,
                m.current->0,
                if e(bits) & 0xff != 0 {
                    slow
                } else {
                    cont
                },
                seq![],
            )
        }
}

/// That is so of the code itself, and of the code once another block is current.
#[verifier::rlimit(60)]
pub proof fn lemma_checks_for_traps(
    f: Frame,
    m: Clif,
    n: Clif,
    bc: u32,
    cont: Block,
    after: Block,
    e: Bits,
)
    requires
        begins(f, m, 60),
        m.has_block(cont),
        m.info(cont).args.len() == 0,
        n == f.check_traps(m, bc, cont) || n == f.check_traps(m, bc, cont).switch_to(after),
        respects(n, e),
    ensures
        checks_for_traps(f, m, n, bc, cont, e),
{
    broadcast use {crate::growth::group_grows, crate::growth::group_pieces_grow};

    reveal(Frame::check_traps);
    let n0 = f.check_traps(m, bc, cont);
    grows_refl(n0);
    assert(grows(n0, n) && silent(n0, n));
    let (m0, vm) = m.get(f.vm);
    let i1 = load(Ty::I32, Flags::Trusted, vm, VM_TRAPS_OFFSET);
    let (m1, bits) = m0.ins(i1);
    let i2 = Inst::Iconst { ty: Ty::I32, imm: masked(Ty::I32, 0xff) };
    let (m2, mask) = m1.ins(i2);
    let i3 = binary(BinaryOp::Band, bits, mask);
    let (m3, need) = m2.ins(i3);
    let (m4, slow) = m3.new_cold_block();
    let m5 = m4.branch(need, slow, cont).switch_to(slow);
    let m6 = f.stamp(m5, bc);
    let (m7, go) = m6.get(f.go);
    let (m8, r) = f.slow_result(m7, Slow::HandleTraps, seq![go]);
    assert(n0 == m8.push(brif(r, f.exc_sink, cont)));
    grows_refl(n);
    assert(grows(m8, n));
    let d = Detour {
        site: Some(bc),
        path: Slow::HandleTraps,
        head: seq![go],
        tail: seq![],
    };
    lemma_pin(m6, f.go, n);
    lemma_passed(e, d);
    lemma_calls_out(f, m, m5, m7, seq![go], n, e, slow, d);
    lemma_goes_pushed(m8, brif(r, f.exc_sink, cont), n, e);
    assert(calls_out(f, m, n, e, slow, d, r, call_place(f, m7, Slow::HandleTraps)));
    lemma_stands(m0, i1, n);
    lemma_respects_grown(m3, n, e);
    lemma_respects_push(m2, i3, e);
    lemma_respects_push(m1, i2, e);
    assert((0xffi64 & 0xffff_ffff) as u64 == 0xff) by (bit_vector);
    lemma_goes_pushed(m4, brif(need, slow, cont), n, e);
    assert(gives(n, m.current->0, i1, bits));
    assert(slow == added(m, 0));
}

/// A check of the trap bits goes on unless one of the low eight is set. If one is, the traps
/// are handled, and control goes to the exception sink if the result is not zero.
pub proof fn checks_without_traps_go_on(f: Frame, m: Clif, bc: u32, cont: Block, e: Bits)
    requires
        begins(f, m, 60),
        m.has_block(cont),
        m.info(cont).args.len() == 0,
        respects(f.check_traps(m, bc, cont), e),
    ensures
        checks_for_traps(f, m, f.check_traps(m, bc, cont), bc, cont, e),
{
    let n = f.check_traps(m, bc, cont);
    lemma_checks_for_traps(f, m, n, bc, cont, m.current->0, e);
}

} // verus!
