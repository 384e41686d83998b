//! Where control goes in the code of arithmetic and of branches.
//!
//! The laws follow the code of an operation from the block that it begins in, for all
//! [`Bits`] that go by its instructions.
use crate::bytecode::{is_register, JS_FALSE, JS_TRUE, NUMBER_TAG, VR};
use crate::clif::{
    binary, compare, masked, resize, BinaryOp, Block, Clif, Cond, Inst, Resize, Ty, Value,
};
use crate::detours::{
    detours, joins_result, lemma_detours, lemma_join_result, lemma_joins_result, lemma_obeys,
    lemma_passed, lemma_pin, Detour,
};
use crate::function::pins_first;
use crate::growth::{
    begins, brif, goes, grows, grows_refl, keeps_tags, lemma_args_grown, lemma_def_pushed,
    lemma_goes_pushed, lemma_respects_grown, lemma_tag_read, placed, silent,
};
use crate::meaning::{
    bitop_bits, bitop_computes, bool_test_decides, boxing_encodes, cut, is_cell, is_nullish,
    is_number, lemma_respects_push, nullish_test_decides, respects, signed, truth,
    two_cells_test_decides, two_int32_test_decides, two_numbers_test_decides, Bits,
};
use crate::slow::Slow;
use crate::template::{pinned_values, Frame};
use vstd::prelude::*;

verus! {

broadcast use {crate::clif::group_clif, crate::template::group_frame};

/// The low half of some bits as a signed number.
pub open spec fn low(bits: u64) -> i32 {
    bits as u32 as i32
}

/// The bits encode an `int32`.
pub open spec fn is_int32(bits: u64) -> bool {
    bits >= NUMBER_TAG as u64
}

/// What [`Frame::box_int32`] makes of a number.
pub open spec fn boxed(k: i32) -> u64 {
    (k as i64 as u64) | NUMBER_TAG as u64
}

/// What is known after the test for two `int32`.
proof fn lemma_both_int32(f: Frame, m: Clif, l: Value, r: Value, n: Clif, e: Bits)
    requires
        begins(f, m, 5),
        m.is(l, Ty::I64),
        m.is(r, Ty::I64),
        grows(f.both_int32(m, l, r).0, n),
        respects(n, e),
        keeps_tags(f, n, e),
    ensures
        m.continued_in(f.both_int32(m, l, r).0),
        m.within(f.both_int32(m, l, r).0, 5),
        grows(m, f.both_int32(m, l, r).0),
        f.both_int32(m, l, r).0.is(f.both_int32(m, l, r).1, Ty::I8),
        e(f.both_int32(m, l, r).1) == truth(is_int32(e(l)) && is_int32(e(r))),
{
    broadcast use crate::growth::group_grows;

    reveal(Frame::both_int32);
    lemma_tag_read(f, m, n, e);
    lemma_respects_grown(f.both_int32(m, l, r).0, n, e);
    two_int32_test_decides(f, m, l, r, e);
}

/// The `i`-th block that is added to `m`.
pub open spec fn added(m: Clif, i: int) -> Block {
    Block { id: (m.blocks.len() + i) as u32 }
}

/// What is known after a bit operation.
proof fn lemma_bit_result(f: Frame, m: Clif, kind: u8, l: Value, r: Value)
    requires
        begins(f, m, 3),
        kind <= 3,
        m.is(l, Ty::I32),
        m.is(r, Ty::I32),
    ensures
        m.continued_in(f.bit_result(m, kind, l, r).0),
        m.within(f.bit_result(m, kind, l, r).0, 3),
        f.bit_result(m, kind, l, r).0.is(f.bit_result(m, kind, l, r).1, Ty::I32),
{
    reveal(Frame::bit_result);
}

/// What is known after the test for two cells.
proof fn lemma_not_both_cells(f: Frame, m: Clif, l: Value, r: Value, n: Clif, e: Bits)
    requires
        begins(f, m, 4),
        m.is(l, Ty::I64),
        m.is(r, Ty::I64),
        grows(f.not_both_cells(m, l, r).0, n),
        respects(n, e),
        keeps_tags(f, n, e),
    ensures
        m.continued_in(f.not_both_cells(m, l, r).0),
        m.within(f.not_both_cells(m, l, r).0, 4),
        f.not_both_cells(m, l, r).0.is(f.not_both_cells(m, l, r).1, Ty::I64),
        e(f.not_both_cells(m, l, r).1) == 0 <==> is_cell(e(l)) && is_cell(e(r)),
{
    broadcast use crate::growth::group_grows;

    reveal(Frame::not_both_cells);
    lemma_tag_read(f, m, n, e);
    lemma_respects_grown(f.not_both_cells(m, l, r).0, n, e);
    two_cells_test_decides(f, m, l, r, e);
}

/// What is known after the test for two numbers.
proof fn lemma_not_both_numbers(f: Frame, m: Clif, l: Value, r: Value, n: Clif, e: Bits)
    requires
        begins(f, m, 8),
        m.is(l, Ty::I64),
        m.is(r, Ty::I64),
        grows(f.not_both_numbers(m, l, r).0, n),
        respects(n, e),
        keeps_tags(f, n, e),
    ensures
        m.continued_in(f.not_both_numbers(m, l, r).0),
        m.within(f.not_both_numbers(m, l, r).0, 8),
        f.not_both_numbers(m, l, r).0.is(f.not_both_numbers(m, l, r).1, Ty::I8),
        e(f.not_both_numbers(m, l, r).1) == 0 <==> is_number(e(l)) && is_number(e(r)),
{
    broadcast use crate::growth::group_grows;

    reveal(Frame::not_both_numbers);
    lemma_tag_read(f, m, n, e);
    lemma_respects_grown(f.not_both_numbers(m, l, r).0, n, e);
    two_numbers_test_decides(f, m, l, r, e);
}

/// The call of `s` for two operands, with the call site `bc`.
pub open spec fn for_two(
    f: Frame,
    n: Clif,
    b: Block,
    s: Slow,
    l: Value,
    r: Value,
    bc: u32,
) -> Detour {
    Detour { site: Some(bc), path: s, head: seq![n.defs[(f.go, b)], l, r], tail: seq![] }
}

/// [`Frame::slow_binary`] and an exception check behind it make that call.
proof fn lemma_slow_binary(
    f: Frame,
    m: Clif,
    m0: Clif,
    s: Slow,
    l: Value,
    r: Value,
    bc: u32,
    m2: Clif,
    n: Clif,
    e: Bits,
    b: Block,
    post: Block,
)
    requires
        respects(n, e),
        f.fits(m),
        pins_first(f),
        grows(m, m0),
        silent(m, m0),
        placed(m0),
        m0.current == Some(b),
        s.has_result(),
        s != Slow::DispatchCall,
        grows(f.slow_binary(m0, s, l, r, bc).0, m2),
        silent(f.slow_binary(m0, s, l, r, bc).0, n),
        placed(m2),
        m2.current == Some(b),
        grows(f.check_exc(m2, post), n),
    ensures
        detours(
            f,
            m,
            n,
            e,
            b,
            for_two(f, n, b, s, l, r, bc),
            f.slow_binary(m0, s, l, r, bc).1,
            post,
        ),
{
    broadcast use {crate::growth::group_grows, crate::growth::group_pieces_grow};

    reveal(Frame::slow_binary);
    let p = f.stamp(m0, bc);
    let (m1, go) = p.get(f.go);
    let d = for_two(f, n, b, s, l, r, bc);
    lemma_pin(p, f.go, n);
    lemma_passed(e, d);
    lemma_detours(f, m, m0, m1, seq![go, l, r], m2, n, e, b, d, post);
}

/// The one call is made for `d`, and unless an exception is pending then, control goes
/// through `post` to `yes` if the result is not zero, else to `no`.
pub open spec fn result_decides(
    f: Frame,
    m: Clif,
    n: Clif,
    e: Bits,
    b: Block,
    d: Detour,
    post: Block,
    yes: Block,
    no: Block,
) -> bool {
    exists|r: Value| #[trigger]
        detours(f, m, n, e, b, d, r, post) && goes(
            n,
            e,
            post,
            if e(r) != 0 {
                yes
            } else {
                no
            },
            seq![],
        )
}

/// The one call is made for `d`, and unless an exception is pending then, control goes
/// through `post` to `join` with the low byte of the result.
pub open spec fn joins_low_byte(
    f: Frame,
    m: Clif,
    n: Clif,
    e: Bits,
    b: Block,
    d: Detour,
    post: Block,
    join: Block,
) -> bool {
    exists|r: Value, low_byte: Value|
        {
            &&& #[trigger] detours(f, m, n, e, b, d, r, post)
            &&& #[trigger] goes(n, e, post, join, seq![low_byte])
            &&& e(low_byte) == e(r) & 0xff
        }
}

/// What is known after the test for a boolean.
proof fn lemma_is_bool(f: Frame, m: Clif, v: Value, n: Clif, e: Bits)
    requires
        begins(f, m, 4),
        m.is(v, Ty::I64),
        grows(f.is_bool(m, v).0, n),
        respects(n, e),
    ensures
        m.continued_in(f.is_bool(m, v).0),
        m.within(f.is_bool(m, v).0, 4),
        f.is_bool(m, v).0.is(f.is_bool(m, v).1, Ty::I8),
        e(f.is_bool(m, v).1) == truth(e(v) == JS_TRUE as u64 || e(v) == JS_FALSE as u64),
{
    reveal(Frame::is_bool);
    lemma_respects_grown(f.is_bool(m, v).0, n, e);
    bool_test_decides(f, m, v, e);
}

/// What is known after a number was encoded.
pub proof fn lemma_box_int32(f: Frame, m: Clif, lo: Value, n: Clif, e: Bits)
    requires
        begins(f, m, 3),
        m.is(lo, Ty::I32),
        grows(f.box_int32(m, lo).0, n),
        respects(n, e),
        keeps_tags(f, n, e),
    ensures
        m.continued_in(f.box_int32(m, lo).0),
        m.within(f.box_int32(m, lo).0, 3),
        f.box_int32(m, lo).0.is(f.box_int32(m, lo).1, Ty::I64),
        e(f.box_int32(m, lo).1) == boxed(low(e(lo))),
{
    broadcast use crate::growth::group_grows;

    reveal(Frame::box_int32);
    lemma_tag_read(f, m.push(resize(Resize::Sextend, Ty::I64, lo)), n, e);
    lemma_respects_grown(f.box_int32(m, lo).0, n, e);
    boxing_encodes(f, m, lo, e);
}

/// The sum of two numbers, if it is an `int32`.
pub open spec fn int32_sum(a: i32, b: i32) -> Option<i32> {
    if i32::MIN <= a + b <= i32::MAX {
        Some((a + b) as i32)
    } else {
        None
    }
}

proof fn lemma_sum(x: u64, y: u64, s: u64)
    requires
        s == cut(Ty::I32, ((x & 0xffff_ffff) + (y & 0xffff_ffff)) as u64),
    ensures
        signed(Ty::I32, x & 0xffff_ffff) == low(x),
        signed(Ty::I32, y & 0xffff_ffff) == low(y),
        low(x) + low(y) == signed(Ty::I32, s) <==> int32_sum(low(x), low(y)) is Some,
        int32_sum(low(x), low(y)) is Some ==> low(s) == int32_sum(low(x), low(y))->0,
{
    let a = x as u32 as i32;
    let b = y as u32 as i32;
    let w = (((x & 0xffff_ffff) + (y & 0xffff_ffff)) as u64) & 0xffff_ffff;
    assert((x & 0xffff_ffff) as u32 as i32 as i64 == x as u32 as i32) by (bit_vector);
    assert((y & 0xffff_ffff) as u32 as i32 as i64 == y as u32 as i32) by (bit_vector);
    assert((x as u32 as i32 + y as u32 as i32 == w as u32 as i32) <==> -0x8000_0000 <= x as u32 as i32
        + y as u32 as i32 <= 0x7fff_ffff) by (bit_vector)
        requires
            w == (((x & 0xffff_ffff) + (y & 0xffff_ffff)) as u64) & 0xffff_ffff,
    ;
}

/// Behind `join`, which takes one value, `dst` has that value, and control goes to `cont`.
pub open spec fn joins(f: Frame, n: Clif, e: Bits, join: Block, dst: VR, cont: Block) -> bool {
    &&& n.info(join).args.len() == 1
    &&& n.defs.contains_key((f.var(dst), join))
    &&& n.defs[(f.var(dst), join)] == n.info(join).args[0]
    &&& goes(n, e, join, cont, seq![])
}

/// [`Frame::write_joined`] does that.
pub proof fn lemma_joins(f: Frame, begin: Clif, m: Clif, join: Block, dst: VR, cont: Block, e: Bits)
    requires
        grows(begin, m),
        begin.has_block(join),
        begin.info(join).args.len() == 1,
        pinned_values().len() <= f.var(dst).id,
    ensures
        grows(m, f.write_joined(m, join, dst, cont)),
        silent(m, f.write_joined(m, join, dst, cont)),
        joins(f, f.write_joined(m, join, dst, cont), e, join, dst, cont),
{
    broadcast use crate::growth::group_grows;

    reveal(Frame::write_joined);
    let n = f.write_joined(m, join, dst, cont);
    let m1 = m.switch_to(join);
    let x = m1.info(join).args[0];
    let jump = Inst::Jump { to: cont, args: seq![] };
    assert(m.has_block(join)) by {
        reveal(grows);
    }
    assert(n == m1.def_var(f.var(dst), x).push(jump));
    grows_refl(n);
    lemma_goes_pushed(m1.def_var(f.var(dst), x), jump, n, e);
    lemma_args_grown(begin, n, join);
    lemma_args_grown(begin, m1, join);
    lemma_def_pushed(m1, f.var(dst), x, jump);
}

/// It is so whatever block is current.
pub proof fn lemma_joins_switched(
    f: Frame,
    m: Clif,
    n: Clif,
    e: Bits,
    join: Block,
    dst: VR,
    cont: Block,
    after: Block,
)
    requires
        joins(f, m, e, join, dst, cont),
        n == m || n == m.switch_to(after),
    ensures
        joins(f, n, e, join, dst, cont),
{
    reveal(Clif::switch_to);
}

/// An addition of two `int32` whose sum is one goes through two blocks to the join with
/// the sum, encoded. All others go to the slow path, whose result goes to the join. Behind
/// the join, the target has what was passed.
pub open spec fn adds_values(
    f: Frame,
    m: Clif,
    n: Clif,
    dst: VR,
    lhs: Value,
    rhs: Value,
    bc: u32,
    cont: Block,
    e: Bits,
) -> bool {
    let fast = added(m, 0);
    let slow = added(m, 1);
    let join = added(m, 2);
    let fits = added(m, 3);
    let both = is_int32(e(lhs)) && is_int32(e(rhs));
    let sum = int32_sum(low(e(lhs)), low(e(rhs)));
    &&& goes(n, e, m.current->0, if both { fast } else { slow }, seq![])
    &&& goes(n, e, fast, if sum is Some { fits } else { slow }, seq![])
    &&& exists|v: Value|
        goes(n, e, fits, join, seq![v]) && (sum is Some ==> #[trigger] e(v) == boxed(sum->0))
    &&& joins_result(
        f,
        m,
        n,
        e,
        slow,
        for_two(f, n, slow, Slow::Add, lhs, rhs, bc),
        added(m, 4),
        join,
    )
    &&& joins(f, n, e, join, dst, cont)
}

/// That is so of the code itself, and of the code once another block is current.
#[verifier::rlimit(60)]
pub proof fn lemma_adds_values(
    f: Frame,
    m: Clif,
    n: Clif,
    dst: VR,
    lhs: Value,
    rhs: Value,
    bc: u32,
    cont: Block,
    after: Block,
    e: Bits,
)
    requires
        begins(f, m, 60),
        is_register(dst, f.args.len(), f.locs.len()),
        m.is(lhs, Ty::I64),
        m.is(rhs, Ty::I64),
        m.has_block(cont),
        m.info(cont).args.len() == 0,
        n == f.add_values(m, dst, lhs, rhs, bc, cont) || n == f.add_values(m, dst, lhs, rhs, bc, cont).switch_to(after),
        respects(n, e),
        keeps_tags(f, n, e),
    ensures
        adds_values(f, m, n, dst, lhs, rhs, bc, cont, e),
{
    broadcast use {crate::growth::group_grows, crate::growth::group_pieces_grow};

    reveal(Frame::add_values);
    let n0 = f.add_values(m, dst, lhs, rhs, bc, cont);
    grows_refl(n0);
    assert(grows(n0, n) && silent(n0, n));
    let (m1, both) = f.both_int32(m, lhs, rhs);
    let (m2, fast) = m1.new_block();
    let (m3, slow) = m2.new_cold_block();
    let (m4, join) = m3.new_join(Ty::I64);
    let m5 = m4.branch(both, fast, slow).switch_to(fast);
    let (m6, l32) = m5.ins(resize(Resize::Ireduce, Ty::I32, lhs));
    let (m7, r32) = m6.ins(resize(Resize::Ireduce, Ty::I32, rhs));
    let overflow = m7.after_next();
    let (m8, sum) = m7.ins(Inst::SaddOverflow { x: l32, y: r32 });
    let (m9, fits) = m8.new_block();
    let m10 = m9.branch(overflow, slow, fits).switch_to(fits);
    let (m11, v) = f.box_int32(m10, sum);
    let m12 = m11.goto_with(join, v);
    let (m13, r) = f.slow_binary(m12.switch_to(slow), Slow::Add, lhs, rhs, bc);
    let m14 = f.join_result(m13, r, join);
    assert(n0 == f.write_joined(m14, join, dst, cont));
    lemma_joins(f, m4, m14, join, dst, cont, e);
    lemma_joins_switched(f, n0, n, e, join, dst, cont, after);
    lemma_both_int32(f, m, lhs, rhs, n, e);
    lemma_goes_pushed(m4, brif(both, fast, slow), n, e);
    lemma_goes_pushed(m9, brif(overflow, slow, fits), n, e);
    lemma_goes_pushed(m11, Inst::Jump { to: join, args: seq![v] }, n, e);
    assert(goes(n, e, fits, join, seq![v]));
    lemma_respects_grown(m8, n, e);
    lemma_respects_push(m7, Inst::SaddOverflow { x: l32, y: r32 }, e);
    lemma_respects_push(m6, resize(Resize::Ireduce, Ty::I32, rhs), e);
    lemma_respects_push(m5, resize(Resize::Ireduce, Ty::I32, lhs), e);
    lemma_sum(e(lhs), e(rhs), e(sum));
    lemma_box_int32(f, m10, sum, n, e);
    let post = m13.next_block();
    lemma_join_result(f, m13, r, join, n, e);
    lemma_slow_binary(
        f,
        m,
        m12.switch_to(slow),
        Slow::Add,
        lhs,
        rhs,
        bc,
        m13.create_block(),
        n,
        e,
        slow,
        post,
    );
    assert(detours(f, m, n, e, slow, for_two(f, n, slow, Slow::Add, lhs, rhs, bc), r, post));
    assert(slow == added(m, 1) && join == added(m, 2) && post == added(m, 4));
}

/// An addition of two `int32` whose sum is one goes through two blocks to the join with
/// the sum, encoded. All others go to the slow path, whose result goes to the join. Behind
/// the join, the target has what was passed.
pub proof fn int32_additions_are_fast(
    f: Frame,
    m: Clif,
    dst: VR,
    lhs: Value,
    rhs: Value,
    bc: u32,
    cont: Block,
    e: Bits,
)
    requires
        begins(f, m, 60),
        is_register(dst, f.args.len(), f.locs.len()),
        m.is(lhs, Ty::I64),
        m.is(rhs, Ty::I64),
        m.has_block(cont),
        m.info(cont).args.len() == 0,
        respects(f.add_values(m, dst, lhs, rhs, bc, cont), e),
        keeps_tags(f, f.add_values(m, dst, lhs, rhs, bc, cont), e),
    ensures
        adds_values(f, m, f.add_values(m, dst, lhs, rhs, bc, cont), dst, lhs, rhs, bc, cont, e),
{
    let n = f.add_values(m, dst, lhs, rhs, bc, cont);
    lemma_adds_values(f, m, n, dst, lhs, rhs, bc, cont, m.current->0, e);
}

/// A bit operation on two `int32` goes through one block to the join with the result,
/// encoded. All others go to the slow path, whose result goes to the join.
pub open spec fn combines_bits(
    f: Frame,
    m: Clif,
    n: Clif,
    kind: u8,
    dst: VR,
    lhs: Value,
    rhs: Value,
    bc: u32,
    cont: Block,
    e: Bits,
) -> bool {
    let fast = added(m, 0);
    let slow = added(m, 1);
    let join = added(m, 2);
    let both = is_int32(e(lhs)) && is_int32(e(rhs));
    let r = bitop_bits(kind, e(lhs) as u32, e(rhs) as u32);
    &&& goes(n, e, m.current->0, if both { fast } else { slow }, seq![])
    &&& exists|v: Value|
        goes(n, e, fast, join, seq![v]) && #[trigger] e(v) == boxed(r as i32)
    &&& joins_result(
        f,
        m,
        n,
        e,
        slow,
        for_two(f, n, slow, Slow::BitOp, lhs, rhs, bc),
        added(m, 3),
        join,
    )
    &&& joins(f, n, e, join, dst, cont)
}

/// That is so of the code itself, and of the code once another block is current.
#[verifier::rlimit(60)]
pub proof fn lemma_combines_bits(
    f: Frame,
    m: Clif,
    n: Clif,
    kind: u8,
    dst: VR,
    lhs: Value,
    rhs: Value,
    bc: u32,
    cont: Block,
    after: Block,
    e: Bits,
)
    requires
        begins(f, m, 60),
        kind <= 3,
        is_register(dst, f.args.len(), f.locs.len()),
        m.is(lhs, Ty::I64),
        m.is(rhs, Ty::I64),
        m.has_block(cont),
        m.info(cont).args.len() == 0,
        n == f.bitop(m, kind, dst, lhs, rhs, bc, cont) || n == f.bitop(m, kind, dst, lhs, rhs, bc, cont).switch_to(after),
        respects(n, e),
        keeps_tags(f, n, e),
    ensures
        combines_bits(f, m, n, kind, dst, lhs, rhs, bc, cont, e),
{
    broadcast use {crate::growth::group_grows, crate::growth::group_pieces_grow};

    reveal(Frame::bitop);
    let n0 = f.bitop(m, kind, dst, lhs, rhs, bc, cont);
    grows_refl(n0);
    assert(grows(n0, n) && silent(n0, n));
    let (m1, both) = f.both_int32(m, lhs, rhs);
    let (m2, fast) = m1.new_block();
    let (m3, slow) = m2.new_cold_block();
    let (m4, join) = m3.new_join(Ty::I64);
    let m5 = m4.branch(both, fast, slow).switch_to(fast);
    let (m6, l32) = m5.ins(resize(Resize::Ireduce, Ty::I32, lhs));
    let (m7, r32) = m6.ins(resize(Resize::Ireduce, Ty::I32, rhs));
    let (m8, res) = f.bit_result(m7, kind, l32, r32);
    let (m9, v) = f.box_int32(m8, res);
    let m10 = m9.goto_with(join, v);
    let (m11, r) = f.slow_binary(m10.switch_to(slow), Slow::BitOp, lhs, rhs, bc);
    let m12 = f.join_result(m11, r, join);
    assert(n0 == f.write_joined(m12, join, dst, cont));
    lemma_joins(f, m4, m12, join, dst, cont, e);
    lemma_joins_switched(f, n0, n, e, join, dst, cont, after);
    lemma_both_int32(f, m, lhs, rhs, n, e);
    lemma_goes_pushed(m4, brif(both, fast, slow), n, e);
    lemma_goes_pushed(m9, Inst::Jump { to: join, args: seq![v] }, n, e);
    assert(goes(n, e, fast, join, seq![v]));
    lemma_bit_result(f, m7, kind, l32, r32);
    lemma_respects_grown(m8, n, e);
    lemma_respects_grown(m7, n, e);
    lemma_respects_push(m6, resize(Resize::Ireduce, Ty::I32, rhs), e);
    lemma_respects_push(m5, resize(Resize::Ireduce, Ty::I32, lhs), e);
    let x = e(lhs);
    let y = e(rhs);
    assert(x & 0xffff_ffff <= 0xffff_ffff && (x & 0xffff_ffff) as u32 == x as u32) by (bit_vector);
    assert(y & 0xffff_ffff <= 0xffff_ffff && (y & 0xffff_ffff) as u32 == y as u32) by (bit_vector);
    bitop_computes(f, m7, kind, l32, r32, e);
    lemma_box_int32(f, m8, res, n, e);
    let post = m11.next_block();
    lemma_join_result(f, m11, r, join, n, e);
    lemma_slow_binary(
        f,
        m,
        m10.switch_to(slow),
        Slow::BitOp,
        lhs,
        rhs,
        bc,
        m11.create_block(),
        n,
        e,
        slow,
        post,
    );
    assert(detours(f, m, n, e, slow, for_two(f, n, slow, Slow::BitOp, lhs, rhs, bc), r, post));
    assert(slow == added(m, 1) && join == added(m, 2) && post == added(m, 3));
}

/// A bit operation on two `int32` goes through one block to the join with the result,
/// encoded. All others go to the slow path, whose result goes to the join.
pub proof fn int32_bitops_are_fast(
    f: Frame,
    m: Clif,
    kind: u8,
    dst: VR,
    lhs: Value,
    rhs: Value,
    bc: u32,
    cont: Block,
    e: Bits,
)
    requires
        begins(f, m, 60),
        kind <= 3,
        is_register(dst, f.args.len(), f.locs.len()),
        m.is(lhs, Ty::I64),
        m.is(rhs, Ty::I64),
        m.has_block(cont),
        m.info(cont).args.len() == 0,
        respects(f.bitop(m, kind, dst, lhs, rhs, bc, cont), e),
        keeps_tags(f, f.bitop(m, kind, dst, lhs, rhs, bc, cont), e),
    ensures
        combines_bits(f, m, f.bitop(m, kind, dst, lhs, rhs, bc, cont), kind, dst, lhs, rhs, bc, cont, e),
{
    let n = f.bitop(m, kind, dst, lhs, rhs, bc, cont);
    lemma_combines_bits(f, m, n, kind, dst, lhs, rhs, bc, cont, m.current->0, e);
}

/// A comparison of two `int32` goes through one block to the decision with the truth of
/// `lhs < rhs`; all others go to the slow path, and the low byte of its result to the
/// decision. The decision goes to the target if what it takes is nonzero, or with `invert`
/// if it is zero.
pub open spec fn compares_numbers(
    f: Frame,
    m: Clif,
    n: Clif,
    lhs: VR,
    rhs: VR,
    target: Block,
    fallthru: Block,
    invert: bool,
    bc: u32,
    e: Bits,
) -> bool {
    let fast = added(m, 0);
    let slow = added(m, 1);
    let decide = added(m, 2);
    let l = e(m.value_of(f.var(lhs)));
    let r = e(m.use_var(f.var(lhs)).value_of(f.var(rhs)));
    let both = is_int32(l) && is_int32(r);
    &&& goes(n, e, m.current->0, if both { fast } else { slow }, seq![])
    &&& exists|v: Value|
        goes(n, e, fast, decide, seq![v]) && #[trigger] e(v) == truth(low(l) < low(r))
    &&& joins_low_byte(
        f,
        m,
        n,
        e,
        slow,
        for_two(
            f,
            n,
            slow,
            Slow::Less,
            m.value_of(f.var(lhs)),
            m.use_var(f.var(lhs)).value_of(f.var(rhs)),
            bc,
        ),
        added(m, 3),
        decide,
    )
    &&& n.info(decide).args.len() == 1
    &&& goes(
        n,
        e,
        decide,
        if (e(n.info(decide).args[0]) != 0) != invert {
            target
        } else {
            fallthru
        },
        seq![],
    )
}

/// That is so of the code itself, and of the code once another block is current.
#[verifier::rlimit(60)]
pub proof fn lemma_compares_numbers(
    f: Frame,
    m: Clif,
    n: Clif,
    lhs: VR,
    rhs: VR,
    target: Block,
    fallthru: Block,
    invert: bool,
    bc: u32,
    after: Block,
    e: Bits,
)
    requires
        begins(f, m, 60),
        is_register(lhs, f.args.len(), f.locs.len()),
        is_register(rhs, f.args.len(), f.locs.len()),
        m.has_block(target),
        m.has_block(fallthru),
        m.info(target).args.len() == 0,
        m.info(fallthru).args.len() == 0,
        n == f.jless(m, lhs, rhs, target, fallthru, invert, bc) || n == f.jless(m, lhs, rhs, target, fallthru, invert, bc).switch_to(after),
        respects(n, e),
        keeps_tags(f, n, e),
    ensures
        compares_numbers(f, m, n, lhs, rhs, target, fallthru, invert, bc, e),
{
    broadcast use {crate::growth::group_grows, crate::growth::group_pieces_grow};

    reveal(Frame::jless);
    let n0 = f.jless(m, lhs, rhs, target, fallthru, invert, bc);
    grows_refl(n0);
    assert(grows(n0, n) && silent(n0, n));
    let (p, lv) = m.get(f.var(lhs));
    let (m0, rv) = p.get(f.var(rhs));
    let (m1, both) = f.both_int32(m0, lv, rv);
    let (m2, fast) = m1.new_block();
    let (m3, slow) = m2.new_cold_block();
    let (m4, decide) = m3.new_join(Ty::I8);
    let m5 = m4.branch(both, fast, slow).switch_to(fast);
    let (m6, l32) = m5.ins(resize(Resize::Ireduce, Ty::I32, lv));
    let (m7, r32) = m6.ins(resize(Resize::Ireduce, Ty::I32, rv));
    let (m8, less) = m7.ins(compare(Cond::SignedLessThan, l32, r32));
    let m9 = m8.goto_with(decide, less);
    let (m10, r) = f.slow_binary(m9.switch_to(slow), Slow::Less, lv, rv, bc);
    let (m11, r8) = m10.ins(resize(Resize::Ireduce, Ty::I8, r));
    let m12 = f.join_result(m11, r8, decide).switch_to(decide);
    let c = m12.info(decide).args[0];
    let last = if invert {
        brif(c, fallthru, target)
    } else {
        brif(c, target, fallthru)
    };
    assert(n0 == m12.push(last));
    grows_refl(n);
    assert(grows(m12, n));
    lemma_both_int32(f, m0, lv, rv, n, e);
    lemma_goes_pushed(m4, brif(both, fast, slow), n, e);
    lemma_goes_pushed(m8, Inst::Jump { to: decide, args: seq![less] }, n, e);
    assert(goes(n, e, fast, decide, seq![less]));
    lemma_goes_pushed(m12, last, n, e);
    lemma_args_grown(m4, n, decide);
    lemma_args_grown(m4, m12, decide);
    lemma_respects_grown(m8, n, e);
    lemma_respects_push(m7, compare(Cond::SignedLessThan, l32, r32), e);
    lemma_respects_push(m6, resize(Resize::Ireduce, Ty::I32, rv), e);
    lemma_respects_push(m5, resize(Resize::Ireduce, Ty::I32, lv), e);
    let x = e(lv);
    let y = e(rv);
    assert((x & 0xffff_ffff) as u32 as i32 as i64 == x as u32 as i32) by (bit_vector);
    assert((y & 0xffff_ffff) as u32 as i32 as i64 == y as u32 as i32) by (bit_vector);
    let post = m11.next_block();
    lemma_join_result(f, m11, r8, decide, n, e);
    lemma_slow_binary(
        f,
        m,
        m9.switch_to(slow),
        Slow::Less,
        lv,
        rv,
        bc,
        m11.create_block(),
        n,
        e,
        slow,
        post,
    );
    lemma_obeys(m10, resize(Resize::Ireduce, Ty::I8, r), n, e);
    assert(detours(f, m, n, e, slow, for_two(f, n, slow, Slow::Less, lv, rv, bc), r, post));
    assert(goes(n, e, post, decide, seq![r8]));
    assert(slow == added(m, 1) && decide == added(m, 2) && post == added(m, 3));
}

/// A comparison of two `int32` goes through one block to the decision with the truth of
/// `lhs < rhs`; all others go to the slow path, and the low byte of its result to the
/// decision. The decision goes to the target if what it takes is nonzero, or with `invert`
/// if it is zero.
pub proof fn int32_comparisons_are_fast(
    f: Frame,
    m: Clif,
    lhs: VR,
    rhs: VR,
    target: Block,
    fallthru: Block,
    invert: bool,
    bc: u32,
    e: Bits,
)
    requires
        begins(f, m, 60),
        is_register(lhs, f.args.len(), f.locs.len()),
        is_register(rhs, f.args.len(), f.locs.len()),
        m.has_block(target),
        m.has_block(fallthru),
        m.info(target).args.len() == 0,
        m.info(fallthru).args.len() == 0,
        respects(f.jless(m, lhs, rhs, target, fallthru, invert, bc), e),
        keeps_tags(f, f.jless(m, lhs, rhs, target, fallthru, invert, bc), e),
    ensures
        compares_numbers(f, m, f.jless(m, lhs, rhs, target, fallthru, invert, bc), lhs, rhs, target, fallthru, invert, bc, e),
{
    let n = f.jless(m, lhs, rhs, target, fallthru, invert, bc);
    lemma_compares_numbers(f, m, n, lhs, rhs, target, fallthru, invert, bc, m.current->0, e);
}

/// Two values with the same bits are equal. Two cells or two numbers that differ in their
/// bits go to the slow path, whose result decides, and all others are unequal.
pub open spec fn compares_strictly(
    f: Frame,
    m: Clif,
    n: Clif,
    lv: Value,
    rv: Value,
    target: Block,
    fallthru: Block,
    invert: bool,
    e: Bits,
) -> bool {
    let check = added(m, 0);
    let numbers = added(m, 1);
    let slow = added(m, 2);
    let post = added(m, 3);
    let yes = if invert { fallthru } else { target };
    let no = if invert { target } else { fallthru };
    let both_cells = is_cell(e(lv)) && is_cell(e(rv));
    let both_numbers = is_number(e(lv)) && is_number(e(rv));
    let d = Detour {
        site: None,
        path: Slow::StrictEq,
        head: seq![n.defs[(f.go, slow)], lv, rv],
        tail: seq![],
    };
    &&& goes(n, e, m.current->0, if e(lv) == e(rv) { yes } else { check }, seq![])
    &&& goes(n, e, check, if both_cells { slow } else { numbers }, seq![])
    &&& goes(n, e, numbers, if both_numbers { slow } else { no }, seq![])
    &&& result_decides(f, m, n, e, slow, d, post, yes, no)
}

/// That is so of the code itself, and of the code once another block is current.
#[verifier::rlimit(60)]
pub proof fn lemma_compares_strictly(
    f: Frame,
    m: Clif,
    n: Clif,
    lv: Value,
    rv: Value,
    target: Block,
    fallthru: Block,
    invert: bool,
    after: Block,
    e: Bits,
)
    requires
        begins(f, m, 60),
        m.is(lv, Ty::I64),
        m.is(rv, Ty::I64),
        m.has_block(target),
        m.has_block(fallthru),
        m.info(target).args.len() == 0,
        m.info(fallthru).args.len() == 0,
        n == f.jstricteq(m, lv, rv, target, fallthru, invert) || n == f.jstricteq(m, lv, rv, target, fallthru, invert).switch_to(after),
        respects(n, e),
        keeps_tags(f, n, e),
    ensures
        compares_strictly(f, m, n, lv, rv, target, fallthru, invert, e),
{
    broadcast use {crate::growth::group_grows, crate::growth::group_pieces_grow};

    reveal(Frame::jstricteq);
    let n0 = f.jstricteq(m, lv, rv, target, fallthru, invert);
    grows_refl(n0);
    assert(grows(n0, n) && silent(n0, n));
    let yes = if invert { fallthru } else { target };
    let no = if invert { target } else { fallthru };
    let (m1, same) = m.ins(compare(Cond::Equal, lv, rv));
    let (m2, check) = m1.new_block();
    let m3 = m2.branch(same, yes, check).switch_to(check);
    let (m4, either) = f.not_both_cells(m3, lv, rv);
    let (p, numbers) = m4.new_block();
    let (m5, slow) = p.new_cold_block();
    let m6 = m5.branch(either, numbers, slow).switch_to(numbers);
    let (m7, other) = f.not_both_numbers(m6, lv, rv);
    let m8 = m7.branch(other, no, slow).switch_to(slow);
    let (m9, go) = m8.get(f.go);
    let (m10, r) = f.slow_result(m9, Slow::StrictEq, seq![go, lv, rv]);
    let (m11, post) = m10.new_block();
    let m12 = f.check_exc(m11, post).switch_to(post);
    assert(n0 == m12.push(brif(r, yes, no)));
    grows_refl(n);
    assert(grows(m12, n));
    lemma_goes_pushed(m2, brif(same, yes, check), n, e);
    lemma_goes_pushed(m5, brif(either, numbers, slow), n, e);
    lemma_goes_pushed(m7, brif(other, no, slow), n, e);
    lemma_goes_pushed(m12, brif(r, yes, no), n, e);
    lemma_respects_grown(m1, n, e);
    lemma_respects_push(m, compare(Cond::Equal, lv, rv), e);
    lemma_not_both_cells(f, m3, lv, rv, n, e);
    lemma_not_both_numbers(f, m6, lv, rv, n, e);
    let d = Detour {
        site: None,
        path: Slow::StrictEq,
        head: seq![go, lv, rv],
        tail: seq![],
    };
    lemma_pin(m8, f.go, n);
    lemma_passed(e, d);
    lemma_detours(f, m, m8, m9, seq![go, lv, rv], m11, n, e, slow, d, post);
    assert(detours(f, m, n, e, slow, d, r, post));
    assert(check == added(m, 0) && numbers == added(m, 1) && slow == added(m, 2) && post == added(
        m,
        3,
    ));
}

/// Two values with the same bits are equal. Two cells or two numbers that differ in their
/// bits go to the slow path, whose result decides, and all others are unequal.
pub proof fn strict_equality_is_slow_for_cells_and_numbers(
    f: Frame,
    m: Clif,
    lv: Value,
    rv: Value,
    target: Block,
    fallthru: Block,
    invert: bool,
    e: Bits,
)
    requires
        begins(f, m, 60),
        m.is(lv, Ty::I64),
        m.is(rv, Ty::I64),
        m.has_block(target),
        m.has_block(fallthru),
        m.info(target).args.len() == 0,
        m.info(fallthru).args.len() == 0,
        respects(f.jstricteq(m, lv, rv, target, fallthru, invert), e),
        keeps_tags(f, f.jstricteq(m, lv, rv, target, fallthru, invert), e),
    ensures
        compares_strictly(f, m, f.jstricteq(m, lv, rv, target, fallthru, invert), lv, rv, target, fallthru, invert, e),
{
    let n = f.jstricteq(m, lv, rv, target, fallthru, invert);
    lemma_compares_strictly(f, m, n, lv, rv, target, fallthru, invert, m.current->0, e);
}

/// A branch on a boolean goes through one block to the decision with its truth; all others
/// go to the slow path, whose result goes to the decision. The decision goes to the target
/// if what it takes is nonzero, or without `sense_true` if it is zero.
pub open spec fn branches_on_truth(
    f: Frame,
    m: Clif,
    n: Clif,
    v: VR,
    target: Block,
    fallthru: Block,
    sense_true: bool,
    e: Bits,
) -> bool {
    let fast = added(m, 0);
    let slow = added(m, 1);
    let decide = added(m, 2);
    let x = e(m.value_of(f.var(v)));
    let isbool = x == JS_TRUE as u64 || x == JS_FALSE as u64;
    let d = Detour {
        site: None,
        path: Slow::ToBoolean,
        head: seq![n.defs[(f.go, slow)], m.value_of(f.var(v))],
        tail: seq![],
    };
    &&& goes(n, e, m.current->0, if isbool { fast } else { slow }, seq![])
    &&& joins_result(f, m, n, e, slow, d, added(m, 3), decide)
    &&& exists|b: Value|
        goes(n, e, fast, decide, seq![b]) && (isbool ==> #[trigger] e(b) == truth(
            x == JS_TRUE as u64,
        ))
    &&& n.info(decide).args.len() == 1
    &&& goes(
        n,
        e,
        decide,
        if (e(n.info(decide).args[0]) != 0) == sense_true {
            target
        } else {
            fallthru
        },
        seq![],
    )
}

/// That is so of the code itself, and of the code once another block is current.
#[verifier::rlimit(60)]
pub proof fn lemma_branches_on_truth(
    f: Frame,
    m: Clif,
    n: Clif,
    v: VR,
    target: Block,
    fallthru: Block,
    sense_true: bool,
    after: Block,
    e: Bits,
)
    requires
        begins(f, m, 60),
        is_register(v, f.args.len(), f.locs.len()),
        m.has_block(target),
        m.has_block(fallthru),
        m.info(target).args.len() == 0,
        m.info(fallthru).args.len() == 0,
        n == f.jbool(m, v, target, fallthru, sense_true) || n == f.jbool(m, v, target, fallthru, sense_true).switch_to(after),
        respects(n, e),
        keeps_tags(f, n, e),
    ensures
        branches_on_truth(f, m, n, v, target, fallthru, sense_true, e),
{
    broadcast use {crate::growth::group_grows, crate::growth::group_pieces_grow};

    reveal(Frame::jbool);
    let n0 = f.jbool(m, v, target, fallthru, sense_true);
    grows_refl(n0);
    assert(grows(n0, n) && silent(n0, n));
    let (m0, vv) = m.get(f.var(v));
    let (m1, isbool) = f.is_bool(m0, vv);
    let (m2, fast) = m1.new_block();
    let (m3, slow) = m2.new_cold_block();
    let (m4, decide) = m3.new_join(Ty::I64);
    let m5 = m4.branch(isbool, fast, slow).switch_to(fast);
    let (m6, one) = m5.constant(Ty::I64, 1);
    let (m7, b) = m6.ins(binary(BinaryOp::Band, vv, one));
    let m8 = m7.goto_with(decide, b).switch_to(slow);
    let (m9, go) = m8.get(f.go);
    let (m10, r) = f.slow_result(m9, Slow::ToBoolean, seq![go, vv]);
    let m11 = f.join_result(m10, r, decide).switch_to(decide);
    let c = m11.info(decide).args[0];
    let last = if sense_true {
        brif(c, target, fallthru)
    } else {
        brif(c, fallthru, target)
    };
    assert(n0 == m11.push(last));
    grows_refl(n);
    assert(grows(m11, n));
    lemma_goes_pushed(m4, brif(isbool, fast, slow), n, e);
    lemma_goes_pushed(m7, Inst::Jump { to: decide, args: seq![b] }, n, e);
    assert(goes(n, e, fast, decide, seq![b]));
    lemma_goes_pushed(m11, last, n, e);
    lemma_args_grown(m4, n, decide);
    lemma_args_grown(m4, m11, decide);
    lemma_is_bool(f, m0, vv, n, e);
    lemma_respects_grown(m7, n, e);
    lemma_respects_push(m6, binary(BinaryOp::Band, vv, one), e);
    lemma_respects_push(m5, Inst::Iconst { ty: Ty::I64, imm: masked(Ty::I64, 1) }, e);
    assert((JS_TRUE as u64) & (1i64 as u64) == 1) by (bit_vector);
    assert((JS_FALSE as u64) & (1i64 as u64) == 0) by (bit_vector);
    let d = Detour {
        site: None,
        path: Slow::ToBoolean,
        head: seq![go, vv],
        tail: seq![],
    };
    lemma_pin(m8, f.go, n);
    lemma_passed(e, d);
    lemma_joins_result(f, m, m8, m9, seq![go, vv], n, e, slow, d, decide);
    assert(slow == added(m, 1) && decide == added(m, 2));
}

/// A branch on a boolean goes through one block to the decision with its truth; all others
/// go to the slow path, whose result goes to the decision. The decision goes to the target
/// if what it takes is nonzero, or without `sense_true` if it is zero.
pub proof fn branches_on_booleans_are_fast(
    f: Frame,
    m: Clif,
    v: VR,
    target: Block,
    fallthru: Block,
    sense_true: bool,
    e: Bits,
)
    requires
        begins(f, m, 60),
        is_register(v, f.args.len(), f.locs.len()),
        m.has_block(target),
        m.has_block(fallthru),
        m.info(target).args.len() == 0,
        m.info(fallthru).args.len() == 0,
        respects(f.jbool(m, v, target, fallthru, sense_true), e),
        keeps_tags(f, f.jbool(m, v, target, fallthru, sense_true), e),
    ensures
        branches_on_truth(f, m, f.jbool(m, v, target, fallthru, sense_true), v, target, fallthru, sense_true, e),
{
    let n = f.jbool(m, v, target, fallthru, sense_true);
    lemma_branches_on_truth(f, m, n, v, target, fallthru, sense_true, m.current->0, e);
}

/// A branch on null or undefined goes to the target for these two, or with `invert` for all
/// others.
pub proof fn branches_on_null_are_direct(
    f: Frame,
    m: Clif,
    v: VR,
    target: Block,
    fallthru: Block,
    invert: bool,
    e: Bits,
)
    requires
        begins(f, m, 60),
        is_register(v, f.args.len(), f.locs.len()),
        m.has_block(target),
        m.has_block(fallthru),
        m.info(target).args.len() == 0,
        m.info(fallthru).args.len() == 0,
        respects(f.jnullish(m, v, target, fallthru, invert), e),
    ensures
        goes(
            f.jnullish(m, v, target, fallthru, invert),
            e,
            m.current->0,
            if is_nullish(e(m.value_of(f.var(v)))) != invert {
                target
            } else {
                fallthru
            },
            seq![],
        ),
{
    broadcast use {crate::growth::group_grows, crate::growth::group_pieces_grow};

    reveal(Frame::jnullish);
    let n = f.jnullish(m, v, target, fallthru, invert);
    let (m0, vv) = m.get(f.var(v));
    let (m1, nullish) = f.is_nullish(m0, vv);
    let last = if invert {
        brif(nullish, fallthru, target)
    } else {
        brif(nullish, target, fallthru)
    };
    assert(n == m1.push(last));
    grows_refl(n);
    assert(grows(m1, n));
    lemma_goes_pushed(m1, last, n, e);
    assert(m1.wf()) by {
        reveal(Frame::is_nullish);
    }
    lemma_respects_grown(m1, n, e);
    nullish_test_decides(f, m0, vv, e);
}

} // verus!
