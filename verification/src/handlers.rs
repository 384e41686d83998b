//! One emitter for each bytecode operation that needs more than a line of code.
//!
//! Each ends the current block and hands control to a block of the caller's. What it
//! emits is the function of the same name of [`crate::template::Frame`].
use crate::builder::{
    append_block_param, band, band_imm, block_param, bor_imm, bxor_imm, call, create_block,
    iadd_imm, iconst, inst_result, int_compare, int_compare_imm, ireduce, load, return_,
    sadd_overflow, set_cold_block, store, switch_to_block, uextend,
};
use crate::bytecode::{jsint, JS_FALSE, JS_NULL, NOT_UNDEFINED_BIT, VR};
use crate::clif::{lemma_pushed, Block, Cond, Flags, Inst, Ty, Value};
use crate::emit::{
    bit_result, both_int32, branch, branch_with, element_address, fast_scope, goto, goto_with,
    has_elements, in_bounds, is_bool, is_int32, join_result, not_both_cells, not_both_numbers,
    not_cell, same_structure, slot_address, slow_binary, write_joined, Emit,
};
use crate::slow::{lemma_place, slow_index, Slow};
use crate::template::{
    Frame, CFR_ARG0, CFR_ARGCOUNT, CFR_CALLEE, CFR_THIS, JSCELL_TYPE, JSOBJ_BUTTERFLY,
    VM_TRAPS_OFFSET,
};
use vstd::prelude::*;

verus! {

broadcast use {crate::clif::group_clif, crate::template::group_frame};

/// A property load.
#[verifier::rlimit(60)]
pub(crate) fn emit_get_by_id(
    e: &mut Emit,
    dst: VR,
    base: VR,
    md_off: i32,
    ident: u32,
    bc: u32,
    cont: Block,
)
    requires
        old(e).ready(64),
        old(e).has_register(dst),
        old(e).has_register(base),
        md_off + 4 <= i32::MAX,
        old(e).clif().has_block(cont),
        old(e).clif().info(cont).args.len() == 0,
    ensures
        old(e).same_frame(final(e)),
        final(e).clif() == old(e).frame().get_by_id(
            old(e).clif(),
            dst,
            base,
            md_off,
            ident,
            bc,
            cont,
        ),
        old(e).clif().finished_in(final(e).clif()),
        old(e).clif().within(final(e).clif(), 64),
        old(e).orderly() ==> final(e).orderly(),
{
    proof {
        reveal(Frame::get_by_id);
    }
    let bv = e.use_(base);
    let notcell = not_cell(e, bv);
    let cell_blk = create_block(&mut e.b);
    let slow_blk = create_block(&mut e.b);
    set_cold_block(&mut e.b, slow_blk);
    let hit_blk = create_block(&mut e.b);
    let merge = create_block(&mut e.b);
    append_block_param(&mut e.b, merge, Ty::I64);
    branch(&mut e.b, notcell, slow_blk, cell_blk);

    switch_to_block(&mut e.b, cell_blk);
    let (md, same) = same_structure(e, bv, md_off);
    branch(&mut e.b, same, hit_blk, slow_blk);

    switch_to_block(&mut e.b, hit_blk);
    let addr = slot_address(e, md, md_off + 4, bv);
    let val = load(&mut e.b, Ty::I64, Flags::Trusted, addr, 16);
    goto_with(&mut e.b, merge, val);

    switch_to_block(&mut e.b, slow_blk);
    e.stamp_callsite(bc);
    let go = e.go();
    let cfr = e.cfr();
    let bc_v = iconst(&mut e.b, Ty::I32, bc as i64);
    let id_v = iconst(&mut e.b, Ty::I32, ident as i64);
    let args: [Value; 5] = [go, cfr, bv, bc_v, id_v];
    assert(args@ =~= seq![go, cfr, bv, bc_v, id_v]);
    let r = e.slow_call_ret(Slow::GetById, &args);
    join_result(e, r, merge);

    write_joined(e, merge, dst, cont);
}

/// A property store.
#[verifier::rlimit(60)]
pub(crate) fn emit_put_by_id(
    e: &mut Emit,
    base: VR,
    val: VR,
    md_off: i32,
    ident: u32,
    bc: u32,
    cont: Block,
)
    requires
        old(e).ready(64),
        old(e).has_register(base),
        old(e).has_register(val),
        md_off + 4 <= i32::MAX,
        old(e).clif().has_block(cont),
        old(e).clif().info(cont).args.len() == 0,
    ensures
        old(e).same_frame(final(e)),
        final(e).clif() == old(e).frame().put_by_id(
            old(e).clif(),
            base,
            val,
            md_off,
            ident,
            bc,
            cont,
        ),
        old(e).clif().finished_in(final(e).clif()),
        old(e).clif().within(final(e).clif(), 64),
        old(e).orderly() ==> final(e).orderly(),
{
    proof {
        reveal(Frame::put_by_id);
    }
    let bv = e.use_(base);
    let vv = e.use_(val);
    let notcell = not_cell(e, bv);
    let cell_blk = create_block(&mut e.b);
    let slow_blk = create_block(&mut e.b);
    set_cold_block(&mut e.b, slow_blk);
    let hit_blk = create_block(&mut e.b);
    branch(&mut e.b, notcell, slow_blk, cell_blk);

    switch_to_block(&mut e.b, cell_blk);
    let (md, same) = same_structure(e, bv, md_off);
    branch(&mut e.b, same, hit_blk, slow_blk);

    switch_to_block(&mut e.b, hit_blk);
    let addr = slot_address(e, md, md_off + 4, bv);
    store(&mut e.b, Flags::Trusted, vv, addr, 16);
    goto(&mut e.b, cont);

    switch_to_block(&mut e.b, slow_blk);
    e.stamp_callsite(bc);
    let go = e.go();
    let cfr = e.cfr();
    let bc_v = iconst(&mut e.b, Ty::I32, bc as i64);
    let id_v = iconst(&mut e.b, Ty::I32, ident as i64);
    let args: [Value; 6] = [go, cfr, bv, vv, bc_v, id_v];
    assert(args@ =~= seq![go, cfr, bv, vv, bc_v, id_v]);
    e.slow_call_void(Slow::PutById, &args);
    e.check_exc_and_continue(cont);
}

/// An indexed load.
#[verifier::rlimit(60)]
pub(crate) fn emit_get_by_val(
    e: &mut Emit,
    dst: VR,
    base: VR,
    idx: VR,
    bc: u32,
    cont: Block,
)
    requires
        old(e).ready(64),
        old(e).has_register(dst),
        old(e).has_register(base),
        old(e).has_register(idx),
        old(e).clif().has_block(cont),
        old(e).clif().info(cont).args.len() == 0,
    ensures
        old(e).same_frame(final(e)),
        final(e).clif() == old(e).frame().get_by_val(
            old(e).clif(),
            dst,
            base,
            idx,
            bc,
            cont,
        ),
        old(e).clif().finished_in(final(e).clif()),
        old(e).clif().within(final(e).clif(), 64),
        old(e).orderly() ==> final(e).orderly(),
{
    proof {
        reveal(Frame::get_by_val);
    }
    let bv = e.use_(base);
    let iv = e.use_(idx);
    let ncm = e.ncm();
    let ntag = e.ntag();
    let notcell = band(&mut e.b, bv, ncm);
    let s1 = create_block(&mut e.b);
    let s2 = create_block(&mut e.b);
    let s3 = create_block(&mut e.b);
    let s4 = create_block(&mut e.b);
    let slow = create_block(&mut e.b);
    set_cold_block(&mut e.b, slow);
    let merge = create_block(&mut e.b);
    append_block_param(&mut e.b, merge, Ty::I64);
    branch(&mut e.b, notcell, slow, s1);

    switch_to_block(&mut e.b, s1);
    let isint = is_int32(e, iv, ntag);
    branch(&mut e.b, isint, s2, slow);

    switch_to_block(&mut e.b, s2);
    let has = has_elements(e, bv);
    branch(&mut e.b, has, s3, slow);

    switch_to_block(&mut e.b, s3);
    let (idx32, bf, inb) = in_bounds(e, bv, iv, -8);
    branch(&mut e.b, inb, s4, slow);

    switch_to_block(&mut e.b, s4);
    let addr = element_address(e, bf, idx32);
    let val = load(&mut e.b, Ty::I64, Flags::Trusted, addr, 0);
    branch_with(&mut e.b, val, merge, val, slow);

    switch_to_block(&mut e.b, slow);
    e.stamp_callsite(bc);
    let go = e.go();
    let cfr = e.cfr();
    let bc_v = iconst(&mut e.b, Ty::I32, bc as i64);
    let args: [Value; 5] = [go, cfr, bv, iv, bc_v];
    assert(args@ =~= seq![go, cfr, bv, iv, bc_v]);
    let r = e.slow_call_ret(Slow::GetByVal, &args);
    join_result(e, r, merge);

    write_joined(e, merge, dst, cont);
}

/// An indexed store.
#[verifier::rlimit(60)]
pub(crate) fn emit_put_by_val(
    e: &mut Emit,
    base: VR,
    idx: VR,
    val: VR,
    bc: u32,
    cont: Block,
)
    requires
        old(e).ready(64),
        old(e).has_register(base),
        old(e).has_register(idx),
        old(e).has_register(val),
        old(e).clif().has_block(cont),
        old(e).clif().info(cont).args.len() == 0,
    ensures
        old(e).same_frame(final(e)),
        final(e).clif() == old(e).frame().put_by_val(
            old(e).clif(),
            base,
            idx,
            val,
            bc,
            cont,
        ),
        old(e).clif().finished_in(final(e).clif()),
        old(e).clif().within(final(e).clif(), 64),
        old(e).orderly() ==> final(e).orderly(),
{
    proof {
        reveal(Frame::put_by_val);
    }
    let bv = e.use_(base);
    let iv = e.use_(idx);
    let vv = e.use_(val);
    let ncm = e.ncm();
    let ntag = e.ntag();
    let s1 = create_block(&mut e.b);
    let s2 = create_block(&mut e.b);
    let s3 = create_block(&mut e.b);
    let slow = create_block(&mut e.b);
    set_cold_block(&mut e.b, slow);
    let notcell = band(&mut e.b, bv, ncm);
    branch(&mut e.b, notcell, slow, s1);

    switch_to_block(&mut e.b, s1);
    let isint = is_int32(e, iv, ntag);
    branch(&mut e.b, isint, s2, slow);

    switch_to_block(&mut e.b, s2);
    let (idx32, bf, inb) = in_bounds(e, bv, iv, -4);
    branch(&mut e.b, inb, s3, slow);

    switch_to_block(&mut e.b, s3);
    let addr = element_address(e, bf, idx32);
    store(&mut e.b, Flags::Trusted, vv, addr, 0);
    goto(&mut e.b, cont);

    switch_to_block(&mut e.b, slow);
    e.stamp_callsite(bc);
    let go = e.go();
    let cfr = e.cfr();
    let bc_v = iconst(&mut e.b, Ty::I32, bc as i64);
    let args: [Value; 6] = [go, cfr, bv, iv, vv, bc_v];
    assert(args@ =~= seq![go, cfr, bv, iv, vv, bc_v]);
    e.slow_call_ret(Slow::PutByVal, &args);
    e.check_exc_and_continue(cont);
}

/// The length of an array.
#[verifier::rlimit(60)]
pub(crate) fn emit_get_length(
    e: &mut Emit,
    dst: VR,
    base: VR,
    bc: u32,
    cont: Block,
)
    requires
        old(e).ready(64),
        old(e).has_register(dst),
        old(e).has_register(base),
        old(e).clif().has_block(cont),
        old(e).clif().info(cont).args.len() == 0,
    ensures
        old(e).same_frame(final(e)),
        final(e).clif() == old(e).frame().get_length(
            old(e).clif(),
            dst,
            base,
            bc,
            cont,
        ),
        old(e).clif().finished_in(final(e).clif()),
        old(e).clif().within(final(e).clif(), 64),
        old(e).orderly() ==> final(e).orderly(),
{
    proof {
        reveal(Frame::get_length);
    }
    let bv = e.use_(base);
    let notcell = not_cell(e, bv);
    let s1 = create_block(&mut e.b);
    let slow = create_block(&mut e.b);
    set_cold_block(&mut e.b, slow);
    let merge = create_block(&mut e.b);
    append_block_param(&mut e.b, merge, Ty::I64);
    branch(&mut e.b, notcell, slow, s1);

    switch_to_block(&mut e.b, s1);
    let has = has_elements(e, bv);
    let s2 = create_block(&mut e.b);
    branch(&mut e.b, has, s2, slow);

    switch_to_block(&mut e.b, s2);
    let bf = load(&mut e.b, Ty::I64, Flags::Trusted, bv, JSOBJ_BUTTERFLY);
    let len = load(&mut e.b, Ty::I32, Flags::Trusted, bf, -8);
    let boxed = e.box_int32(len);
    goto_with(&mut e.b, merge, boxed);

    switch_to_block(&mut e.b, slow);
    e.stamp_callsite(bc);
    let go = e.go();
    let cfr = e.cfr();
    let bc_v = iconst(&mut e.b, Ty::I32, bc as i64);
    let args: [Value; 4] = [go, cfr, bv, bc_v];
    assert(args@ =~= seq![go, cfr, bv, bc_v]);
    let r = e.slow_call_ret(Slow::GetLength, &args);
    join_result(e, r, merge);

    write_joined(e, merge, dst, cont);
}

/// An addition.
#[verifier::rlimit(60)]
pub(crate) fn emit_add(
    e: &mut Emit,
    dst: VR,
    lhs: Value,
    rhs: Value,
    bc: u32,
    cont: Block,
)
    requires
        old(e).ready(60),
        old(e).has_register(dst),
        old(e).clif().is(lhs, Ty::I64),
        old(e).clif().is(rhs, Ty::I64),
        old(e).clif().has_block(cont),
        old(e).clif().info(cont).args.len() == 0,
    ensures
        old(e).same_frame(final(e)),
        final(e).clif() == old(e).frame().add_values(
            old(e).clif(),
            dst,
            lhs,
            rhs,
            bc,
            cont,
        ),
        old(e).clif().finished_in(final(e).clif()),
        old(e).clif().within(final(e).clif(), 60),
        old(e).orderly() ==> final(e).orderly(),
{
    proof {
        reveal(Frame::add_values);
    }
    let both = both_int32(e, lhs, rhs);
    let fast = create_block(&mut e.b);
    let slow = create_block(&mut e.b);
    set_cold_block(&mut e.b, slow);
    let merge = create_block(&mut e.b);
    append_block_param(&mut e.b, merge, Ty::I64);
    branch(&mut e.b, both, fast, slow);

    switch_to_block(&mut e.b, fast);
    let l32 = ireduce(&mut e.b, Ty::I32, lhs);
    let r32 = ireduce(&mut e.b, Ty::I32, rhs);
    let (sum, overflow) = sadd_overflow(&mut e.b, l32, r32);
    let fits = create_block(&mut e.b);
    branch(&mut e.b, overflow, slow, fits);

    switch_to_block(&mut e.b, fits);
    let boxed = e.box_int32(sum);
    goto_with(&mut e.b, merge, boxed);

    switch_to_block(&mut e.b, slow);
    let r = slow_binary(e, Slow::Add, lhs, rhs, bc);
    join_result(e, r, merge);

    write_joined(e, merge, dst, cont);
}

/// An increment.
pub(crate) fn emit_inc(
    e: &mut Emit,
    dst: VR,
    bc: u32,
    cont: Block,
)
    requires
        old(e).ready(64),
        old(e).has_register(dst),
        old(e).clif().has_block(cont),
        old(e).clif().info(cont).args.len() == 0,
    ensures
        old(e).same_frame(final(e)),
        final(e).clif() == old(e).frame().inc(
            old(e).clif(),
            dst,
            bc,
            cont,
        ),
        old(e).clif().finished_in(final(e).clif()),
        old(e).clif().within(final(e).clif(), 64),
        old(e).orderly() ==> final(e).orderly(),
{
    proof {
        reveal(Frame::inc);
    }
    let v = e.use_(dst);
    let one = iconst(&mut e.b, Ty::I64, jsint(1));
    emit_add(e, dst, v, one, bc, cont);
}

/// A bit operation.
#[verifier::rlimit(60)]
pub(crate) fn emit_bitop(
    e: &mut Emit,
    kind: u8,
    dst: VR,
    lhs: Value,
    rhs: Value,
    bc: u32,
    cont: Block,
)
    requires
        old(e).ready(60),
        kind <= 3,
        old(e).has_register(dst),
        old(e).clif().is(lhs, Ty::I64),
        old(e).clif().is(rhs, Ty::I64),
        old(e).clif().has_block(cont),
        old(e).clif().info(cont).args.len() == 0,
    ensures
        old(e).same_frame(final(e)),
        final(e).clif() == old(e).frame().bitop(
            old(e).clif(),
            kind,
            dst,
            lhs,
            rhs,
            bc,
            cont,
        ),
        old(e).clif().finished_in(final(e).clif()),
        old(e).clif().within(final(e).clif(), 60),
        old(e).orderly() ==> final(e).orderly(),
{
    proof {
        reveal(Frame::bitop);
    }
    let both = both_int32(e, lhs, rhs);
    let fast = create_block(&mut e.b);
    let slow = create_block(&mut e.b);
    set_cold_block(&mut e.b, slow);
    let merge = create_block(&mut e.b);
    append_block_param(&mut e.b, merge, Ty::I64);
    branch(&mut e.b, both, fast, slow);

    switch_to_block(&mut e.b, fast);
    let l32 = ireduce(&mut e.b, Ty::I32, lhs);
    let r32 = ireduce(&mut e.b, Ty::I32, rhs);
    let res32 = bit_result(e, kind, l32, r32);
    let boxed = e.box_int32(res32);
    goto_with(&mut e.b, merge, boxed);

    switch_to_block(&mut e.b, slow);
    let r = slow_binary(e, Slow::BitOp, lhs, rhs, bc);
    join_result(e, r, merge);

    write_joined(e, merge, dst, cont);
}

/// A branch on an order.
#[verifier::rlimit(60)]
pub(crate) fn emit_jless(
    e: &mut Emit,
    lhs: VR,
    rhs: VR,
    target: Block,
    fallthru: Block,
    invert: bool,
    bc: u32,
)
    requires
        old(e).ready(64),
        old(e).has_register(lhs),
        old(e).has_register(rhs),
        old(e).clif().has_block(target),
        old(e).clif().info(target).args.len() == 0,
        old(e).clif().has_block(fallthru),
        old(e).clif().info(fallthru).args.len() == 0,
    ensures
        old(e).same_frame(final(e)),
        final(e).clif() == old(e).frame().jless(
            old(e).clif(),
            lhs,
            rhs,
            target,
            fallthru,
            invert,
            bc,
        ),
        old(e).clif().finished_in(final(e).clif()),
        old(e).clif().within(final(e).clif(), 64),
        old(e).orderly() ==> final(e).orderly(),
{
    proof {
        reveal(Frame::jless);
    }
    let lv = e.use_(lhs);
    let rv = e.use_(rhs);
    let both = both_int32(e, lv, rv);
    let fast = create_block(&mut e.b);
    let slow = create_block(&mut e.b);
    set_cold_block(&mut e.b, slow);
    let decide = create_block(&mut e.b);
    append_block_param(&mut e.b, decide, Ty::I8);
    branch(&mut e.b, both, fast, slow);

    switch_to_block(&mut e.b, fast);
    let l32 = ireduce(&mut e.b, Ty::I32, lv);
    let r32 = ireduce(&mut e.b, Ty::I32, rv);
    let less = int_compare(&mut e.b, Cond::SignedLessThan, l32, r32);
    goto_with(&mut e.b, decide, less);

    switch_to_block(&mut e.b, slow);
    let r = slow_binary(e, Slow::Less, lv, rv, bc);
    let r8 = ireduce(&mut e.b, Ty::I8, r);
    join_result(e, r8, decide);

    switch_to_block(&mut e.b, decide);
    let c = block_param(&e.b, decide, 0);
    if invert {
        branch(&mut e.b, c, fallthru, target);
    } else {
        branch(&mut e.b, c, target, fallthru);
    }
}

/// A branch on strict equality.
#[verifier::rlimit(60)]
pub(crate) fn emit_jstricteq(
    e: &mut Emit,
    lv: Value,
    rv: Value,
    target: Block,
    fallthru: Block,
    invert: bool,
)
    requires
        old(e).ready(60),
        old(e).clif().is(lv, Ty::I64),
        old(e).clif().is(rv, Ty::I64),
        old(e).clif().has_block(target),
        old(e).clif().info(target).args.len() == 0,
        old(e).clif().has_block(fallthru),
        old(e).clif().info(fallthru).args.len() == 0,
    ensures
        old(e).same_frame(final(e)),
        final(e).clif() == old(e).frame().jstricteq(
            old(e).clif(),
            lv,
            rv,
            target,
            fallthru,
            invert,
        ),
        old(e).clif().finished_in(final(e).clif()),
        old(e).clif().within(final(e).clif(), 60),
        old(e).orderly() ==> final(e).orderly(),
{
    proof {
        reveal(Frame::jstricteq);
    }
    let yes = if invert {
        fallthru
    } else {
        target
    };
    let no = if invert {
        target
    } else {
        fallthru
    };
    let same = int_compare(&mut e.b, Cond::Equal, lv, rv);
    let check = create_block(&mut e.b);
    branch(&mut e.b, same, yes, check);

    switch_to_block(&mut e.b, check);
    let either = not_both_cells(e, lv, rv);
    let numbers = create_block(&mut e.b);
    let slow = create_block(&mut e.b);
    set_cold_block(&mut e.b, slow);
    branch(&mut e.b, either, numbers, slow);

    switch_to_block(&mut e.b, numbers);
    let other = not_both_numbers(e, lv, rv);
    branch(&mut e.b, other, no, slow);

    switch_to_block(&mut e.b, slow);
    let go = e.go();
    let args: [Value; 3] = [go, lv, rv];
    assert(args@ =~= seq![go, lv, rv]);
    let r = e.slow_call_ret(Slow::StrictEq, &args);
    let post = create_block(&mut e.b);
    e.check_exc_and_continue(post);

    switch_to_block(&mut e.b, post);
    branch(&mut e.b, r, yes, no);
}

/// A branch on the truth of a value.
#[verifier::rlimit(60)]
pub(crate) fn emit_jbool(
    e: &mut Emit,
    v: VR,
    target: Block,
    fallthru: Block,
    sense_true: bool,
)
    requires
        old(e).ready(64),
        old(e).has_register(v),
        old(e).clif().has_block(target),
        old(e).clif().info(target).args.len() == 0,
        old(e).clif().has_block(fallthru),
        old(e).clif().info(fallthru).args.len() == 0,
    ensures
        old(e).same_frame(final(e)),
        final(e).clif() == old(e).frame().jbool(
            old(e).clif(),
            v,
            target,
            fallthru,
            sense_true,
        ),
        old(e).clif().finished_in(final(e).clif()),
        old(e).clif().within(final(e).clif(), 64),
        old(e).orderly() ==> final(e).orderly(),
{
    proof {
        reveal(Frame::jbool);
    }
    let vv = e.use_(v);
    let isbool = is_bool(e, vv);
    let fast = create_block(&mut e.b);
    let slow = create_block(&mut e.b);
    set_cold_block(&mut e.b, slow);
    let decide = create_block(&mut e.b);
    append_block_param(&mut e.b, decide, Ty::I64);
    branch(&mut e.b, isbool, fast, slow);

    switch_to_block(&mut e.b, fast);
    let low = band_imm(&mut e.b, vv, 1);
    goto_with(&mut e.b, decide, low);

    switch_to_block(&mut e.b, slow);
    let go = e.go();
    let args: [Value; 2] = [go, vv];
    assert(args@ =~= seq![go, vv]);
    let r = e.slow_call_ret(Slow::ToBoolean, &args);
    join_result(e, r, decide);

    switch_to_block(&mut e.b, decide);
    let c = block_param(&e.b, decide, 0);
    if sense_true {
        branch(&mut e.b, c, target, fallthru);
    } else {
        branch(&mut e.b, c, fallthru, target);
    }
}

/// A scope lookup.
#[verifier::rlimit(60)]
pub(crate) fn emit_resolve_scope(
    e: &mut Emit,
    dst: VR,
    scope: VR,
    md_off: i32,
    bc: u32,
    cont: Block,
)
    requires
        old(e).ready(64),
        old(e).has_register(dst),
        old(e).has_register(scope),
        md_off + 8 <= i32::MAX,
        old(e).clif().has_block(cont),
        old(e).clif().info(cont).args.len() == 0,
    ensures
        old(e).same_frame(final(e)),
        final(e).clif() == old(e).frame().resolve_scope(
            old(e).clif(),
            dst,
            scope,
            md_off,
            bc,
            cont,
        ),
        old(e).clif().finished_in(final(e).clif()),
        old(e).clif().within(final(e).clif(), 64),
        old(e).orderly() ==> final(e).orderly(),
{
    proof {
        reveal(Frame::resolve_scope);
    }
    let sv = e.use_(scope);
    let (md, isfast) = fast_scope(e, md_off);
    let fast = create_block(&mut e.b);
    let slow = create_block(&mut e.b);
    set_cold_block(&mut e.b, slow);
    let merge = create_block(&mut e.b);
    append_block_param(&mut e.b, merge, Ty::I64);
    branch(&mut e.b, isfast, fast, slow);

    switch_to_block(&mut e.b, fast);
    let cs = load(&mut e.b, Ty::I64, Flags::ReadOnly, md, md_off + 8);
    let usecs = create_block(&mut e.b);
    let usearg = create_block(&mut e.b);
    branch(&mut e.b, cs, usecs, usearg);

    switch_to_block(&mut e.b, usecs);
    goto_with(&mut e.b, merge, cs);

    switch_to_block(&mut e.b, usearg);
    goto_with(&mut e.b, merge, sv);

    switch_to_block(&mut e.b, slow);
    e.stamp_callsite(bc);
    let go = e.go();
    let cfr = e.cfr();
    let mo = iconst(&mut e.b, Ty::I32, md_off as i64);
    let args: [Value; 3] = [go, cfr, mo];
    assert(args@ =~= seq![go, cfr, mo]);
    let r = e.slow_call_ret(Slow::ResolveScope, &args);
    join_result(e, r, merge);

    write_joined(e, merge, dst, cont);
}

/// A read of a scope variable.
#[verifier::rlimit(60)]
pub(crate) fn emit_get_from_scope(
    e: &mut Emit,
    dst: VR,
    scope: VR,
    md_off: i32,
    bc: u32,
    cont: Block,
)
    requires
        old(e).ready(64),
        old(e).has_register(dst),
        old(e).has_register(scope),
        md_off + 16 <= i32::MAX,
        old(e).clif().has_block(cont),
        old(e).clif().info(cont).args.len() == 0,
    ensures
        old(e).same_frame(final(e)),
        final(e).clif() == old(e).frame().get_from_scope(
            old(e).clif(),
            dst,
            scope,
            md_off,
            bc,
            cont,
        ),
        old(e).clif().finished_in(final(e).clif()),
        old(e).clif().within(final(e).clif(), 64),
        old(e).orderly() ==> final(e).orderly(),
{
    proof {
        reveal(Frame::get_from_scope);
    }
    let sv = e.use_(scope);
    let (md, isfast) = fast_scope(e, md_off);
    let fast = create_block(&mut e.b);
    let slow = create_block(&mut e.b);
    set_cold_block(&mut e.b, slow);
    let merge = create_block(&mut e.b);
    append_block_param(&mut e.b, merge, Ty::I64);
    branch(&mut e.b, isfast, fast, slow);

    switch_to_block(&mut e.b, fast);
    let addr = slot_address(e, md, md_off + 16, sv);
    let val = load(&mut e.b, Ty::I64, Flags::Trusted, addr, 64);
    goto_with(&mut e.b, merge, val);

    switch_to_block(&mut e.b, slow);
    e.stamp_callsite(bc);
    let go = e.go();
    let cfr = e.cfr();
    let mo = iconst(&mut e.b, Ty::I32, md_off as i64);
    let args: [Value; 4] = [go, cfr, sv, mo];
    assert(args@ =~= seq![go, cfr, sv, mo]);
    let r = e.slow_call_ret(Slow::GetFromScope, &args);
    join_result(e, r, merge);

    write_joined(e, merge, dst, cont);
}

/// A write of a scope variable.
#[verifier::rlimit(60)]
pub(crate) fn emit_put_to_scope(
    e: &mut Emit,
    scope: VR,
    val: VR,
    md_off: i32,
    bc: u32,
    cont: Block,
)
    requires
        old(e).ready(64),
        old(e).has_register(scope),
        old(e).has_register(val),
        md_off + 16 <= i32::MAX,
        old(e).clif().has_block(cont),
        old(e).clif().info(cont).args.len() == 0,
    ensures
        old(e).same_frame(final(e)),
        final(e).clif() == old(e).frame().put_to_scope(
            old(e).clif(),
            scope,
            val,
            md_off,
            bc,
            cont,
        ),
        old(e).clif().finished_in(final(e).clif()),
        old(e).clif().within(final(e).clif(), 64),
        old(e).orderly() ==> final(e).orderly(),
{
    proof {
        reveal(Frame::put_to_scope);
    }
    let sv = e.use_(scope);
    let vv = e.use_(val);
    let (md, isfast) = fast_scope(e, md_off);
    let fast = create_block(&mut e.b);
    let slow = create_block(&mut e.b);
    set_cold_block(&mut e.b, slow);
    branch(&mut e.b, isfast, fast, slow);

    switch_to_block(&mut e.b, fast);
    let addr = slot_address(e, md, md_off + 16, sv);
    store(&mut e.b, Flags::Trusted, vv, addr, 64);
    goto(&mut e.b, cont);

    switch_to_block(&mut e.b, slow);
    e.stamp_callsite(bc);
    let go = e.go();
    let cfr = e.cfr();
    let mo = iconst(&mut e.b, Ty::I32, md_off as i64);
    let args: [Value; 5] = [go, cfr, sv, vv, mo];
    assert(args@ =~= seq![go, cfr, sv, vv, mo]);
    e.slow_call_ret(Slow::PutToScope, &args);
    e.check_exc_and_continue(cont);
}

/// A check for traps.
pub(crate) fn emit_check_traps(
    e: &mut Emit,
    bc: u32,
    cont: Block,
)
    requires
        old(e).ready(64),
        old(e).clif().has_block(cont),
        old(e).clif().info(cont).args.len() == 0,
    ensures
        old(e).same_frame(final(e)),
        final(e).clif() == old(e).frame().check_traps(
            old(e).clif(),
            bc,
            cont,
        ),
        old(e).clif().finished_in(final(e).clif()),
        old(e).clif().within(final(e).clif(), 64),
        old(e).orderly() ==> final(e).orderly(),
{
    proof {
        reveal(Frame::check_traps);
    }
    let vm = e.vm();
    let bits = load(&mut e.b, Ty::I32, Flags::Trusted, vm, VM_TRAPS_OFFSET);
    let need = band_imm(&mut e.b, bits, 0xff);
    let slow = create_block(&mut e.b);
    set_cold_block(&mut e.b, slow);
    branch(&mut e.b, need, slow, cont);

    switch_to_block(&mut e.b, slow);
    e.stamp_callsite(bc);
    let go = e.go();
    let args: [Value; 1] = [go];
    assert(args@ =~= seq![go]);
    let r = e.slow_call_ret(Slow::HandleTraps, &args);
    let exc_sink = e.exc_sink;
    branch(&mut e.b, r, exc_sink, cont);
}

/// The conversion of `this`.
#[verifier::rlimit(60)]
pub(crate) fn emit_to_this(
    e: &mut Emit,
    cont: Block,
)
    requires
        old(e).ready(64),
        old(e).clif().has_block(cont),
        old(e).clif().info(cont).args.len() == 0,
    ensures
        old(e).same_frame(final(e)),
        final(e).clif() == old(e).frame().to_this(
            old(e).clif(),
            cont,
        ),
        old(e).clif().finished_in(final(e).clif()),
        old(e).clif().within(final(e).clif(), 64),
        old(e).orderly() ==> final(e).orderly(),
{
    proof {
        reveal(Frame::to_this);
    }
    let tv = e.use_(0);
    let notcell = not_cell(e, tv);
    let s1 = create_block(&mut e.b);
    let slow = create_block(&mut e.b);
    set_cold_block(&mut e.b, slow);
    branch(&mut e.b, notcell, slow, s1);

    switch_to_block(&mut e.b, s1);
    let ty = load(&mut e.b, Ty::I8, Flags::Trusted, tv, JSCELL_TYPE);
    let ty32 = uextend(&mut e.b, Ty::I32, ty);
    let isobj = int_compare_imm(&mut e.b, Cond::UnsignedGreaterThanOrEqual, ty32, 0x17);
    branch(&mut e.b, isobj, cont, slow);

    switch_to_block(&mut e.b, slow);
    let go = e.go();
    let cfr = e.cfr();
    let args: [Value; 3] = [go, cfr, tv];
    assert(args@ =~= seq![go, cfr, tv]);
    let r = e.slow_call_ret(Slow::ToThis, &args);
    let post = create_block(&mut e.b);
    e.check_exc_and_continue(post);
    switch_to_block(&mut e.b, post);
    e.def_(0, r);
    goto(&mut e.b, cont);
}

/// Writes the arguments of a call to the frame `nf`.
fn store_args(e: &mut Emit, nf: Value, args: &[VR])
    requires
        old(e).ready((2 * args@.len()) as nat),
        old(e).clif().is(nf, Ty::I64),
        CFR_ARG0 + 8 * (args@.len() - 1) <= i32::MAX,
        forall|i: int| 0 <= i < args@.len() ==> old(e).has_register(#[trigger] args@[i]),
    ensures
        old(e).same_frame(final(e)),
        final(e).clif() == old(e).frame().store_args(old(e).clif(), nf, args@),
        old(e).clif().continued_in(final(e).clif()),
        old(e).clif().within(final(e).clif(), (2 * args@.len()) as nat),
        old(e).orderly() ==> final(e).orderly(),
{
    let ghost m = e.clif();
    let ghost frame = e.frame();
    let n: usize = args.len();
    assert(args@.take(0) =~= Seq::empty());
    proof {
        reveal(Frame::store_args);
    }
    for i in 0..n
        invariant
            n == args@.len(),
            m == old(e).clif(),
            frame == old(e).frame(),
            old(e).same_frame(e),
            old(e).ready((2 * args@.len()) as nat),
            m.is(nf, Ty::I64),
            CFR_ARG0 + 8 * (args@.len() - 1) <= i32::MAX,
            forall|i: int| 0 <= i < args@.len() ==> old(e).has_register(#[trigger] args@[i]),
            e.clif() == frame.store_args(m, nf, args@.take(i as int)),
            m.continued_in(e.clif()),
            m.within(e.clif(), (2 * i) as nat),
            old(e).orderly() ==> e.orderly(),
    {
        proof {
            reveal(Frame::store_args);
            assert(args@.take(i + 1).drop_last() =~= args@.take(i as int));
            assert(args@.take(i + 1).last() == args@[i as int]);
        }
        assert(old(e).has_register(args@[i as int]));
        let av = e.use_(args[i]);
        store(&mut e.b, Flags::Trusted, av, nf, CFR_ARG0 + (i as i32) * 8);
    }
    assert(args@.take(n as int) =~= args@);
}

/// A call.
#[verifier::rlimit(60)]
pub(crate) fn emit_call(
    e: &mut Emit,
    dst: VR,
    callee: VR,
    this: VR,
    args: &[VR],
    frame_size: i32,
    bc: u32,
    cont: Block,
)
    requires
        old(e).ready((64 + 2 * args@.len()) as nat),
        old(e).has_register(dst),
        old(e).has_register(callee),
        old(e).has_register(this),
        forall|i: int| 0 <= i < args@.len() ==> old(e).has_register(#[trigger] args@[i]),
        i32::MIN < frame_size * 8 <= i32::MAX,
        CFR_ARG0 + 8 * (args@.len() - 1) <= i32::MAX,
        old(e).clif().has_block(cont),
        old(e).clif().info(cont).args.len() == 0,
    ensures
        old(e).same_frame(final(e)),
        final(e).clif() == old(e).frame().call(
            old(e).clif(),
            dst,
            callee,
            this,
            args@,
            frame_size,
            bc,
            cont,
        ),
        old(e).clif().finished_in(final(e).clif()),
        old(e).clif().within(final(e).clif(), (64 + 2 * args@.len()) as nat),
        old(e).orderly() ==> final(e).orderly(),
{
    proof {
        reveal(Frame::call);
    }
    let cfr = e.cfr();
    let callee_v = e.use_(callee);
    let this_v = e.use_(this);
    let nf = iadd_imm(&mut e.b, cfr, (-(frame_size * 8)) as i64);
    store(&mut e.b, Flags::Trusted, callee_v, nf, CFR_CALLEE);
    let argc = iconst(&mut e.b, Ty::I32, (args.len() as i64) + 1);
    store(&mut e.b, Flags::Trusted, argc, nf, CFR_ARGCOUNT);
    store(&mut e.b, Flags::Trusted, this_v, nf, CFR_THIS);
    store_args(e, nf, args);

    e.stamp_callsite(bc);
    let go = e.go();
    let bc_v = iconst(&mut e.b, Ty::I32, bc as i64);
    let argc64 = uextend(&mut e.b, Ty::I64, argc);
    let call_args: [Value; 7] = [go, cfr, callee_v, this_v, nf, argc64, bc_v];
    assert(call_args@ =~= seq![go, cfr, callee_v, this_v, nf, argc64, bc_v]);
    let r = dispatch(e, &call_args);

    let post = create_block(&mut e.b);
    e.check_exc_and_continue(post);
    switch_to_block(&mut e.b, post);
    e.def_(dst, r);
    goto(&mut e.b, cont);
}

/// Calls [`Slow::DispatchCall`], which returns its result in every mode.
fn dispatch(e: &mut Emit, args: &[Value]) -> (r: Value)
    requires
        old(e).ready(1),
        old(e).clif().all_typed(args@, Slow::DispatchCall.params()),
    ensures
        old(e).same_frame(final(e)),
        (final(e).clif(), r) == old(e).clif().ins(
            Inst::Call { callee: old(e).frame().callee(Slow::DispatchCall), args: args@ },
        ),
        old(e).clif().continued_in(final(e).clif()),
        old(e).clif().within(final(e).clif(), 1),
        old(e).orderly() ==> final(e).orderly(),
        final(e).clif().is(r, Ty::I64),
{
    proof {
        lemma_place(Slow::DispatchCall);
        reveal(Frame::resolves);
    }
    let fr = e.slows[slow_index(Slow::DispatchCall)];
    assert(fr == e.frame().callee(Slow::DispatchCall));
    proof {
        lemma_pushed(e.clif(), Inst::Call { callee: fr, args: args@ });
    }
    let c = call(&mut e.b, fr, args);
    inst_result(&e.b, c, 0)
}

/// An addition of two registers.
pub(crate) fn emit_add_registers(
    e: &mut Emit,
    dst: VR,
    lhs: VR,
    rhs: VR,
    bc: u32,
    cont: Block,
)
    requires
        old(e).ready(64),
        old(e).has_register(dst),
        old(e).has_register(lhs),
        old(e).has_register(rhs),
        old(e).clif().has_block(cont),
        old(e).clif().info(cont).args.len() == 0,
    ensures
        old(e).same_frame(final(e)),
        final(e).clif() == old(e).frame().add_registers(
            old(e).clif(),
            dst,
            lhs,
            rhs,
            bc,
            cont,
        ),
        old(e).clif().finished_in(final(e).clif()),
        old(e).clif().within(final(e).clif(), 64),
        old(e).orderly() ==> final(e).orderly(),
{
    proof {
        reveal(Frame::add_registers);
    }
    let l = e.use_(lhs);
    let r = e.use_(rhs);
    emit_add(e, dst, l, r, bc, cont);
}

/// An addition of a constant.
pub(crate) fn emit_add_constant(
    e: &mut Emit,
    dst: VR,
    lhs: VR,
    k: i32,
    bc: u32,
    cont: Block,
)
    requires
        old(e).ready(64),
        old(e).has_register(dst),
        old(e).has_register(lhs),
        old(e).clif().has_block(cont),
        old(e).clif().info(cont).args.len() == 0,
    ensures
        old(e).same_frame(final(e)),
        final(e).clif() == old(e).frame().add_constant(
            old(e).clif(),
            dst,
            lhs,
            k,
            bc,
            cont,
        ),
        old(e).clif().finished_in(final(e).clif()),
        old(e).clif().within(final(e).clif(), 64),
        old(e).orderly() ==> final(e).orderly(),
{
    proof {
        reveal(Frame::add_constant);
    }
    let l = e.use_(lhs);
    let r = iconst(&mut e.b, Ty::I64, jsint(k));
    emit_add(e, dst, l, r, bc, cont);
}

/// A bit operation on two registers.
pub(crate) fn emit_bitop_registers(
    e: &mut Emit,
    kind: u8,
    dst: VR,
    lhs: VR,
    rhs: VR,
    bc: u32,
    cont: Block,
)
    requires
        old(e).ready(64),
        kind <= 3,
        old(e).has_register(dst),
        old(e).has_register(lhs),
        old(e).has_register(rhs),
        old(e).clif().has_block(cont),
        old(e).clif().info(cont).args.len() == 0,
    ensures
        old(e).same_frame(final(e)),
        final(e).clif() == old(e).frame().bitop_registers(
            old(e).clif(),
            kind,
            dst,
            lhs,
            rhs,
            bc,
            cont,
        ),
        old(e).clif().finished_in(final(e).clif()),
        old(e).clif().within(final(e).clif(), 64),
        old(e).orderly() ==> final(e).orderly(),
{
    proof {
        reveal(Frame::bitop_registers);
    }
    let l = e.use_(lhs);
    let r = e.use_(rhs);
    emit_bitop(e, kind, dst, l, r, bc, cont);
}

/// A bit operation on a register and a constant.
pub(crate) fn emit_bitop_constant(
    e: &mut Emit,
    kind: u8,
    dst: VR,
    lhs: VR,
    k: i32,
    bc: u32,
    cont: Block,
)
    requires
        old(e).ready(64),
        kind <= 3,
        old(e).has_register(dst),
        old(e).has_register(lhs),
        old(e).clif().has_block(cont),
        old(e).clif().info(cont).args.len() == 0,
    ensures
        old(e).same_frame(final(e)),
        final(e).clif() == old(e).frame().bitop_constant(
            old(e).clif(),
            kind,
            dst,
            lhs,
            k,
            bc,
            cont,
        ),
        old(e).clif().finished_in(final(e).clif()),
        old(e).clif().within(final(e).clif(), 64),
        old(e).orderly() ==> final(e).orderly(),
{
    proof {
        reveal(Frame::bitop_constant);
    }
    let l = e.use_(lhs);
    let r = iconst(&mut e.b, Ty::I64, jsint(k));
    emit_bitop(e, kind, dst, l, r, bc, cont);
}

/// A branch on the strict equality of two registers.
pub(crate) fn emit_jstricteq_registers(
    e: &mut Emit,
    lhs: VR,
    rhs: VR,
    target: Block,
    fallthru: Block,
    invert: bool,
)
    requires
        old(e).ready(64),
        old(e).has_register(lhs),
        old(e).has_register(rhs),
        old(e).clif().has_block(target),
        old(e).clif().info(target).args.len() == 0,
        old(e).clif().has_block(fallthru),
        old(e).clif().info(fallthru).args.len() == 0,
    ensures
        old(e).same_frame(final(e)),
        final(e).clif() == old(e).frame().jstricteq_registers(
            old(e).clif(),
            lhs,
            rhs,
            target,
            fallthru,
            invert,
        ),
        old(e).clif().finished_in(final(e).clif()),
        old(e).clif().within(final(e).clif(), 64),
        old(e).orderly() ==> final(e).orderly(),
{
    proof {
        reveal(Frame::jstricteq_registers);
    }
    let l = e.use_(lhs);
    let r = e.use_(rhs);
    emit_jstricteq(e, l, r, target, fallthru, invert);
}

/// A branch on the strict equality of a register and a constant.
pub(crate) fn emit_jstricteq_constant(
    e: &mut Emit,
    lhs: VR,
    k: i64,
    target: Block,
    fallthru: Block,
    invert: bool,
)
    requires
        old(e).ready(64),
        old(e).has_register(lhs),
        old(e).clif().has_block(target),
        old(e).clif().info(target).args.len() == 0,
        old(e).clif().has_block(fallthru),
        old(e).clif().info(fallthru).args.len() == 0,
    ensures
        old(e).same_frame(final(e)),
        final(e).clif() == old(e).frame().jstricteq_constant(
            old(e).clif(),
            lhs,
            k,
            target,
            fallthru,
            invert,
        ),
        old(e).clif().finished_in(final(e).clif()),
        old(e).clif().within(final(e).clif(), 64),
        old(e).orderly() ==> final(e).orderly(),
{
    proof {
        reveal(Frame::jstricteq_constant);
    }
    let l = e.use_(lhs);
    let r = iconst(&mut e.b, Ty::I64, k);
    emit_jstricteq(e, l, r, target, fallthru, invert);
}

/// Tests for null and undefined.
fn is_nullish(e: &mut Emit, v: Value) -> (r: Value)
    requires
        old(e).ready(4),
        old(e).clif().is(v, Ty::I64),
    ensures
        old(e).same_frame(final(e)),
        (final(e).clif(), r) == old(e).frame().is_nullish(old(e).clif(), v),
        old(e).clif().continued_in(final(e).clif()),
        old(e).clif().within(final(e).clif(), 4),
        old(e).orderly() ==> final(e).orderly(),
        final(e).clif().is(r, Ty::I8),
{
    proof {
        reveal(Frame::is_nullish);
    }
    let bits = band_imm(&mut e.b, v, NOT_UNDEFINED_BIT);
    int_compare_imm(&mut e.b, Cond::Equal, bits, JS_NULL)
}

/// A test against null that leaves a boolean.
pub(crate) fn emit_neq_null(
    e: &mut Emit,
    dst: VR,
    src: VR,
)
    requires
        old(e).ready(64),
        old(e).has_register(dst),
        old(e).has_register(src),
    ensures
        old(e).same_frame(final(e)),
        final(e).clif() == old(e).frame().neq_null(
            old(e).clif(),
            dst,
            src,
        ),
        old(e).clif().continued_in(final(e).clif()),
        old(e).clif().within(final(e).clif(), 64),
        old(e).orderly() ==> final(e).orderly(),
{
    proof {
        reveal(Frame::neq_null);
    }
    let sv = e.use_(src);
    let nullish = is_nullish(e, sv);
    let wide = uextend(&mut e.b, Ty::I64, nullish);
    let inverted = bxor_imm(&mut e.b, wide, 1);
    let r = bor_imm(&mut e.b, inverted, JS_FALSE);
    e.def_(dst, r);
}

/// A branch on null and undefined.
pub(crate) fn emit_jnullish(
    e: &mut Emit,
    v: VR,
    target: Block,
    fallthru: Block,
    invert: bool,
)
    requires
        old(e).ready(64),
        old(e).has_register(v),
        old(e).clif().has_block(target),
        old(e).clif().info(target).args.len() == 0,
        old(e).clif().has_block(fallthru),
        old(e).clif().info(fallthru).args.len() == 0,
    ensures
        old(e).same_frame(final(e)),
        final(e).clif() == old(e).frame().jnullish(
            old(e).clif(),
            v,
            target,
            fallthru,
            invert,
        ),
        old(e).clif().finished_in(final(e).clif()),
        old(e).clif().within(final(e).clif(), 64),
        old(e).orderly() ==> final(e).orderly(),
{
    proof {
        reveal(Frame::jnullish);
    }
    let vv = e.use_(v);
    let nullish = is_nullish(e, vv);
    if invert {
        branch(&mut e.b, nullish, fallthru, target);
    } else {
        branch(&mut e.b, nullish, target, fallthru);
    }
}

/// A copy of a register.
pub(crate) fn emit_mov(
    e: &mut Emit,
    dst: VR,
    src: VR,
)
    requires
        old(e).ready(64),
        old(e).has_register(dst),
        old(e).has_register(src),
    ensures
        old(e).same_frame(final(e)),
        final(e).clif() == old(e).frame().mov(
            old(e).clif(),
            dst,
            src,
        ),
        old(e).clif().continued_in(final(e).clif()),
        old(e).clif().within(final(e).clif(), 64),
        old(e).orderly() ==> final(e).orderly(),
{
    proof {
        reveal(Frame::mov);
    }
    let v = e.use_(src);
    e.def_(dst, v);
}

/// A constant for a register.
pub(crate) fn emit_mov_constant(
    e: &mut Emit,
    dst: VR,
    k: i64,
)
    requires
        old(e).ready(64),
        old(e).has_register(dst),
    ensures
        old(e).same_frame(final(e)),
        final(e).clif() == old(e).frame().mov_constant(
            old(e).clif(),
            dst,
            k,
        ),
        old(e).clif().continued_in(final(e).clif()),
        old(e).clif().within(final(e).clif(), 64),
        old(e).orderly() ==> final(e).orderly(),
{
    proof {
        reveal(Frame::mov_constant);
    }
    let v = iconst(&mut e.b, Ty::I64, k);
    e.def_(dst, v);
}

/// A return of a register.
pub(crate) fn emit_ret(
    e: &mut Emit,
    src: VR,
)
    requires
        old(e).ready(64),
        old(e).has_register(src),
    ensures
        old(e).same_frame(final(e)),
        final(e).clif() == old(e).frame().ret(
            old(e).clif(),
            src,
        ),
        old(e).clif().finished_in(final(e).clif()),
        old(e).clif().within(final(e).clif(), 64),
        old(e).orderly() ==> final(e).orderly(),
        final(e).clif().current == old(e).clif().current,
        final(e).clif().blocks.len() == old(e).clif().blocks.len(),
{
    proof {
        reveal(Frame::ret);
        reveal(Frame::resolves);
    }
    let v = e.use_(src);
    let args: [Value; 1] = [v];
    assert(args@ =~= seq![v]);
    return_(&mut e.b, &args);
}

/// A return of a constant.
pub(crate) fn emit_ret_constant(
    e: &mut Emit,
    k: i64,
)
    requires
        old(e).ready(64),
    ensures
        old(e).same_frame(final(e)),
        final(e).clif() == old(e).frame().ret_constant(
            old(e).clif(),
            k,
        ),
        old(e).clif().finished_in(final(e).clif()),
        old(e).clif().within(final(e).clif(), 64),
        old(e).orderly() ==> final(e).orderly(),
        final(e).clif().current == old(e).clif().current,
        final(e).clif().blocks.len() == old(e).clif().blocks.len(),
{
    proof {
        reveal(Frame::ret_constant);
        reveal(Frame::resolves);
    }
    let v = iconst(&mut e.b, Ty::I64, k);
    let args: [Value; 1] = [v];
    assert(args@ =~= seq![v]);
    return_(&mut e.b, &args);
}

} // verus!
