//! What the emitted code computes.
//!
//! A [`Bits`] gives every value of a function its bits. [`respects`] says that it goes by
//! the instructions: what an instruction computes of its operands is what its result
//! has. Loads, calls and reads of variables may give anything. The laws say what the
//! tests of the templates decide, for all such bits.
use crate::bytecode::{
    js_int, JS_FALSE, JS_NULL, JS_TRUE, JS_UNDEFINED, NOT_CELL_MASK, NOT_UNDEFINED_BIT, NUMBER_TAG,
    VR,
};
use crate::clif::{
    lemma_pushed, masked, type_of, BinaryOp, Clif, Cond, Inst, Line, Resize, Ty, Value,
};
use crate::template::Frame;
use vstd::prelude::*;

verus! {

broadcast use {crate::clif::group_clif, crate::template::group_frame};

/// The bits of each value, with zeros above the width of its type.
pub type Bits = spec_fn(Value) -> u64;

/// The bits that a type keeps.
pub open spec fn cut(ty: Ty, bits: u64) -> u64 {
    match ty {
        Ty::I8 => bits & 0xff,
        Ty::I32 => bits & 0xffff_ffff,
        Ty::I64 => bits,
    }
}

/// The bits of a type as a signed number.
pub open spec fn signed(ty: Ty, bits: u64) -> i64 {
    match ty {
        Ty::I8 => bits as u8 as i8 as i64,
        Ty::I32 => bits as u32 as i32 as i64,
        Ty::I64 => bits as i64,
    }
}

/// How many bits a type has.
pub open spec fn width(ty: Ty) -> u64 {
    match ty {
        Ty::I8 => 8,
        Ty::I32 => 32,
        Ty::I64 => 64,
    }
}

/// The result of a binary operation on values of type `ty`.
pub open spec fn binary_bits(op: BinaryOp, ty: Ty, a: u64, b: u64) -> u64 {
    match op {
        BinaryOp::Band => a & b,
        BinaryOp::Bor => a | b,
        BinaryOp::Bxor => a ^ b,
        BinaryOp::Iadd => cut(ty, (a + b) as u64),
        BinaryOp::Ishl => cut(ty, a << (b % width(ty))),
        BinaryOp::Sshr => cut(ty, (signed(ty, a) >> (b % width(ty))) as u64),
    }
}

/// Whether a condition holds of values of type `ty`.
pub open spec fn holds(cond: Cond, ty: Ty, a: u64, b: u64) -> bool {
    match cond {
        Cond::Equal => a == b,
        Cond::SignedLessThan => signed(ty, a) < signed(ty, b),
        Cond::UnsignedLessThan => a < b,
        Cond::UnsignedGreaterThanOrEqual => a >= b,
    }
}

/// The bits of a truth value.
pub open spec fn truth(b: bool) -> u64 {
    if b {
        1
    } else {
        0
    }
}

/// The bits go by the instruction.
pub open spec fn obeys(line: Line, values: Seq<Ty>, e: Bits) -> bool {
    let r = line.results[0];
    match line.inst {
        Inst::Iconst { ty, imm } => e(r) == imm as u64,
        Inst::Binary { op, x, y } => e(r) == binary_bits(op, type_of(values, x), e(x), e(y)),
        Inst::Compare { cond, x, y } => e(r) == truth(
            holds(cond, type_of(values, x), e(x), e(y)),
        ),
        Inst::Resize { op, ty, x } => e(r) == match op {
            Resize::Sextend => cut(ty, signed(type_of(values, x), e(x)) as u64),
            Resize::Uextend => e(x),
            Resize::Ireduce => cut(ty, e(x)),
        },
        Inst::SaddOverflow { x, y } => {
            let ty = type_of(values, x);
            let sum = signed(ty, e(x)) + signed(ty, e(y));
            &&& e(r) == cut(ty, (e(x) + e(y)) as u64)
            &&& e(line.results[1]) == truth(sum != signed(ty, e(r)))
        },
        _ => true,
    }
}

/// The bits go by all instructions of the function.
pub open spec fn respects(m: Clif, e: Bits) -> bool {
    forall|i: int| 0 <= i < m.insts.len() ==> obeys(#[trigger] m.insts[i], m.values, e)
}

/// What holds after an instruction was appended held before it too, and of the instruction.
pub proof fn lemma_respects_push(m: Clif, inst: Inst, e: Bits)
    requires
        m.wf(),
        m.accepts(inst),
        respects(m.push(inst), e),
    ensures
        respects(m, e),
        obeys(
            Line {
                block: m.current->0,
                inst,
                results: Seq::new(
                    m.result_types(inst).len(),
                    |i: int| Value { id: (m.values.len() + i) as u32 },
                ),
            },
            m.values,
            e,
        ),
{
    lemma_pushed(m, inst);
    let n = m.push(inst);
    assert forall|i: int| 0 <= i < m.insts.len() implies obeys(
        #[trigger] m.insts[i],
        m.values,
        e,
    ) by {
        assert(n.insts[i] == m.insts[i]);
        assert(m.line_ok(m.insts[i])) by {
            reveal(Clif::wf);
        }
    }
    assert(n.insts[m.insts.len() as int].inst == inst);
}

/// Reading a variable adds no instruction.
proof fn lemma_respects_get(m: Clif, var: crate::clif::Variable, e: Bits)
    requires
        m.wf(),
        m.writable(),
        respects(m.use_var(var), e),
    ensures
        respects(m, e),
{
    let n = m.use_var(var);
    assert forall|i: int| 0 <= i < m.insts.len() implies obeys(
        #[trigger] m.insts[i],
        m.values,
        e,
    ) by {
        assert(n.insts[i] == m.insts[i]);
        assert(m.line_ok(m.insts[i])) by {
            reveal(Clif::wf);
        }
    }
}

/// The test for an `int32` lets through exactly the values from the number tag on.
pub proof fn int32_test_decides(f: Frame, m: Clif, v: Value, ntag: Value, e: Bits)
    requires
        m.wf(),
        m.writable(),
        m.room(2),
        m.is(v, Ty::I64),
        m.is(ntag, Ty::I64),
        respects(f.is_int32(m, v, ntag).0, e),
        e(ntag) == NUMBER_TAG as u64,
    ensures
        e(f.is_int32(m, v, ntag).1) == truth(e(v) >= NUMBER_TAG as u64),
{
    reveal(Frame::is_int32);
    let band = crate::clif::binary(BinaryOp::Band, v, ntag);
    let n = m.push(band);
    lemma_respects_push(n, crate::clif::compare(Cond::Equal, m.next(), ntag), e);
    lemma_respects_push(m, band, e);
    let x = e(v);
    assert((x & (NUMBER_TAG as u64) == NUMBER_TAG as u64) <==> x >= NUMBER_TAG as u64)
        by (bit_vector);
}

/// The test for a cell leaves zero for exactly the values below 2^49 with a clear second
/// bit.
pub proof fn cell_test_decides(f: Frame, m: Clif, v: Value, e: Bits)
    requires
        m.wf(),
        m.writable(),
        m.room(2),
        f.fits(m),
        m.is(v, Ty::I64),
        respects(f.not_cell(m, v).0, e),
        e(m.value_of(f.ncm)) == NOT_CELL_MASK as u64,
    ensures
        e(f.not_cell(m, v).1) == 0 <==> is_cell(e(v)),
{
    reveal(Frame::not_cell);
    let n = m.use_var(f.ncm);
    lemma_respects_push(n, crate::clif::binary(BinaryOp::Band, v, m.value_of(f.ncm)), e);
    lemma_cell_bits(e(v));
}

/// A cell has none of the bits of the mask.
pub proof fn lemma_cell_bits(x: u64)
    ensures
        x & (NOT_CELL_MASK as u64) == 0 <==> is_cell(x),
{
    assert((x & (NOT_CELL_MASK as u64) == 0) <==> x < 0x2_0000_0000_0000 && (x / 2) % 2 == 0)
        by (bit_vector);
}

/// The value is the address of a cell.
pub open spec fn is_cell(v: u64) -> bool {
    v < 0x2_0000_0000_0000 && (v / 2) % 2 == 0
}

/// The test for two cells leaves zero for exactly two cells.
pub proof fn two_cells_test_decides(f: Frame, m: Clif, l: Value, r: Value, e: Bits)
    requires
        m.wf(),
        m.writable(),
        m.room(4),
        f.fits(m),
        m.is(l, Ty::I64),
        m.is(r, Ty::I64),
        respects(f.not_both_cells(m, l, r).0, e),
        e(m.value_of(f.ncm)) == NOT_CELL_MASK as u64,
    ensures
        e(f.not_both_cells(m, l, r).1) == 0 <==> is_cell(e(l)) && is_cell(e(r)),
{
    reveal(Frame::not_both_cells);
    let ncm = m.value_of(f.ncm);
    let m0 = m.use_var(f.ncm);
    let i1 = crate::clif::binary(BinaryOp::Band, l, ncm);
    let m1 = m0.push(i1);
    let i2 = crate::clif::binary(BinaryOp::Band, r, ncm);
    let m2 = m1.push(i2);
    lemma_respects_push(m2, crate::clif::binary(BinaryOp::Bor, m0.next(), m1.next()), e);
    lemma_respects_push(m1, i2, e);
    lemma_respects_push(m0, i1, e);
    let x = e(l);
    let y = e(r);
    assert(((x & (NOT_CELL_MASK as u64)) | (y & (NOT_CELL_MASK as u64)) == 0) <==> (x
        < 0x2_0000_0000_0000 && (x / 2) % 2 == 0 && y < 0x2_0000_0000_0000 && (y / 2) % 2 == 0))
        by (bit_vector);
}

/// The value encodes a number.
pub open spec fn is_number(v: u64) -> bool {
    v & (NUMBER_TAG as u64) != 0
}

/// The test for two numbers leaves zero for exactly two numbers.
pub proof fn two_numbers_test_decides(f: Frame, m: Clif, l: Value, r: Value, e: Bits)
    requires
        m.wf(),
        m.writable(),
        m.room(8),
        f.fits(m),
        m.is(l, Ty::I64),
        m.is(r, Ty::I64),
        respects(f.not_both_numbers(m, l, r).0, e),
        e(m.value_of(f.ntag)) == NUMBER_TAG as u64,
    ensures
        e(f.not_both_numbers(m, l, r).1) == 0 <==> is_number(e(l)) && is_number(e(r)),
{
    reveal(Frame::not_both_numbers);
    let ntag = m.value_of(f.ntag);
    let m0 = m.use_var(f.ntag);
    let i1 = crate::clif::binary(BinaryOp::Band, l, ntag);
    let m1 = m0.push(i1);
    let i2 = crate::clif::binary(BinaryOp::Band, r, ntag);
    let m2 = m1.push(i2);
    let zero = Inst::Iconst { ty: Ty::I64, imm: crate::clif::masked(Ty::I64, 0) };
    let m3 = m2.push(zero);
    let i4 = crate::clif::compare(Cond::Equal, m0.next(), m2.next());
    let m4 = m3.push(i4);
    let m5 = m4.push(zero);
    let i6 = crate::clif::compare(Cond::Equal, m1.next(), m4.next());
    let m6 = m5.push(i6);
    lemma_respects_push(m6, crate::clif::binary(BinaryOp::Bor, m3.next(), m5.next()), e);
    lemma_respects_push(m5, i6, e);
    lemma_respects_push(m4, zero, e);
    lemma_respects_push(m3, i4, e);
    lemma_respects_push(m2, zero, e);
    lemma_respects_push(m1, i2, e);
    lemma_respects_push(m0, i1, e);
    assert(0i64 as u64 == 0) by (bit_vector);
    assert((0u64 | 0u64) == 0 && (0u64 | 1u64) == 1 && (1u64 | 0u64) == 1 && (1u64 | 1u64) == 1)
        by (bit_vector);
}

/// The test for two `int32` lets through exactly two values from the number tag on.
pub proof fn two_int32_test_decides(f: Frame, m: Clif, l: Value, r: Value, e: Bits)
    requires
        m.wf(),
        m.writable(),
        m.room(5),
        f.fits(m),
        m.is(l, Ty::I64),
        m.is(r, Ty::I64),
        respects(f.both_int32(m, l, r).0, e),
        e(m.value_of(f.ntag)) == NUMBER_TAG as u64,
    ensures
        e(f.both_int32(m, l, r).1) == truth(
            e(l) >= NUMBER_TAG as u64 && e(r) >= NUMBER_TAG as u64,
        ),
{
    reveal(Frame::both_int32);
    let ntag = m.value_of(f.ntag);
    let m0 = m.use_var(f.ntag);
    let i1 = crate::clif::binary(BinaryOp::Band, l, ntag);
    let m1 = m0.push(i1);
    let i2 = crate::clif::binary(BinaryOp::Band, r, ntag);
    let m2 = m1.push(i2);
    let i3 = crate::clif::binary(BinaryOp::Band, m0.next(), m1.next());
    let m3 = m2.push(i3);
    lemma_respects_push(m3, crate::clif::compare(Cond::Equal, m2.next(), ntag), e);
    lemma_respects_push(m2, i3, e);
    lemma_respects_push(m1, i2, e);
    lemma_respects_push(m0, i1, e);
    let x = e(l);
    let y = e(r);
    assert(((x & (NUMBER_TAG as u64)) & (y & (NUMBER_TAG as u64)) == NUMBER_TAG as u64) <==> (x
        >= NUMBER_TAG as u64 && y >= NUMBER_TAG as u64)) by (bit_vector);
}

/// The test for a boolean lets through exactly true and false.
pub proof fn bool_test_decides(f: Frame, m: Clif, v: Value, e: Bits)
    requires
        m.wf(),
        m.writable(),
        m.room(4),
        m.is(v, Ty::I64),
        respects(f.is_bool(m, v).0, e),
    ensures
        e(f.is_bool(m, v).1) == truth(e(v) == JS_TRUE as u64 || e(v) == JS_FALSE as u64),
{
    reveal(Frame::is_bool);
    let i0 = Inst::Iconst { ty: Ty::I64, imm: masked(Ty::I64, 1) };
    let m1 = m.push(i0);
    let i1 = crate::clif::binary(BinaryOp::Bor, v, m.next());
    let m2 = m1.push(i1);
    let i2 = Inst::Iconst { ty: Ty::I64, imm: masked(Ty::I64, JS_TRUE) };
    let m3 = m2.push(i2);
    lemma_respects_push(m3, crate::clif::compare(Cond::Equal, m1.next(), m2.next()), e);
    lemma_respects_push(m2, i2, e);
    lemma_respects_push(m1, i1, e);
    lemma_respects_push(m, i0, e);
    let x = e(v);
    assert((x | (1i64 as u64) == JS_TRUE as u64) <==> (x == JS_TRUE as u64 || x
        == JS_FALSE as u64)) by (bit_vector);
}

/// The test for null lets through exactly null and undefined.
pub proof fn nullish_test_decides(f: Frame, m: Clif, v: Value, e: Bits)
    requires
        m.wf(),
        m.writable(),
        m.room(4),
        m.is(v, Ty::I64),
        respects(f.is_nullish(m, v).0, e),
    ensures
        respects(m, e),
        e(f.is_nullish(m, v).1) == truth(is_nullish(e(v))),
{
    reveal(Frame::is_nullish);
    let i0 = Inst::Iconst { ty: Ty::I64, imm: masked(Ty::I64, NOT_UNDEFINED_BIT) };
    let m1 = m.push(i0);
    let i1 = crate::clif::binary(BinaryOp::Band, v, m.next());
    let m2 = m1.push(i1);
    let i2 = Inst::Iconst { ty: Ty::I64, imm: masked(Ty::I64, JS_NULL) };
    let m3 = m2.push(i2);
    lemma_respects_push(m3, crate::clif::compare(Cond::Equal, m1.next(), m2.next()), e);
    lemma_respects_push(m2, i2, e);
    lemma_respects_push(m1, i1, e);
    lemma_respects_push(m, i0, e);
    let x = e(v);
    assert((x & (NOT_UNDEFINED_BIT as u64) == JS_NULL as u64) <==> (x == JS_NULL as u64 || x
        == JS_UNDEFINED as u64)) by (bit_vector);
}

/// The value is null or undefined.
pub open spec fn is_nullish(v: u64) -> bool {
    v == JS_NULL as u64 || v == JS_UNDEFINED as u64
}

/// A 32-bit integer is encoded as its sign extension with the number tag: for a number that
/// is not negative, this is the encoding that constants have.
pub proof fn boxing_encodes(f: Frame, m: Clif, lo: Value, e: Bits)
    requires
        m.wf(),
        m.writable(),
        m.room(3),
        f.fits(m),
        m.is(lo, Ty::I32),
        respects(f.box_int32(m, lo).0, e),
        e(m.push(crate::clif::resize(Resize::Sextend, Ty::I64, lo)).value_of(f.ntag))
            == NUMBER_TAG as u64,
    ensures
        e(f.box_int32(m, lo).1) == (e(lo) as u32 as i32 as i64 as u64) | NUMBER_TAG as u64,
        e(lo) as u32 as i32 >= 0 ==> e(f.box_int32(m, lo).1) == js_int(
            e(lo) as u32 as i32,
        ) as u64,
{
    reveal(Frame::box_int32);
    let i0 = crate::clif::resize(Resize::Sextend, Ty::I64, lo);
    let m1 = m.push(i0);
    let m2 = m1.use_var(f.ntag);
    lemma_respects_push(
        m2,
        crate::clif::binary(BinaryOp::Bor, m.next(), m1.value_of(f.ntag)),
        e,
    );
    lemma_respects_get(m1, f.ntag, e);
    lemma_respects_push(m, i0, e);
    let x = e(lo);
    let k = x as u32 as i32;
    assert(k >= 0 ==> (k as i64 as u64) | NUMBER_TAG as u64 == (NUMBER_TAG | (k as u32 as i64))
        as u64) by (bit_vector);
}

/// The boolean that is written for a test against null.
pub proof fn neq_null_writes_a_boolean(f: Frame, m: Clif, dst: VR, src: VR, e: Bits)
    requires
        m.wf(),
        m.writable(),
        m.room(64),
        f.fits(m),
        crate::bytecode::is_register(dst, f.args.len(), f.locs.len()),
        crate::bytecode::is_register(src, f.args.len(), f.locs.len()),
        respects(f.neq_null(m, dst, src), e),
    ensures
        f.neq_null(m, dst, src).defs.contains_key((f.var(dst), m.current->0)),
        e(f.neq_null(m, dst, src).defs[(f.var(dst), m.current->0)]) == if is_nullish(
            e(m.value_of(f.var(src))),
        ) {
            JS_FALSE as u64
        } else {
            JS_TRUE as u64
        },
{
    reveal(Frame::neq_null);
    reveal(Frame::is_nullish);
    reveal(Clif::def_var);
    let sv = m.value_of(f.var(src));
    let m0 = m.use_var(f.var(src));
    let (m1, nullish) = f.is_nullish(m0, sv);
    let i2 = crate::clif::resize(Resize::Uextend, Ty::I64, nullish);
    let m2 = m1.push(i2);
    let i3 = Inst::Iconst { ty: Ty::I64, imm: masked(Ty::I64, 1) };
    let m3 = m2.push(i3);
    let i4 = crate::clif::binary(BinaryOp::Bxor, m1.next(), m2.next());
    let m4 = m3.push(i4);
    let i5 = Inst::Iconst { ty: Ty::I64, imm: masked(Ty::I64, JS_FALSE) };
    let m5 = m4.push(i5);
    let i6 = crate::clif::binary(BinaryOp::Bor, m3.next(), m4.next());
    let m6 = m5.push(i6);
    let n = m6.def_var(f.var(dst), m5.next());
    assert(n == f.neq_null(m, dst, src));
    assert(respects(m6, e)) by {
        assert forall|i: int| 0 <= i < m6.insts.len() implies obeys(
            #[trigger] m6.insts[i],
            m6.values,
            e,
        ) by {
            assert(n.insts[i] == m6.insts[i]);
        }
    }
    lemma_respects_push(m5, i6, e);
    lemma_respects_push(m4, i5, e);
    lemma_respects_push(m3, i4, e);
    lemma_respects_push(m2, i3, e);
    lemma_respects_push(m1, i2, e);
    nullish_test_decides(f, m0, sv, e);
    assert((1u64 ^ (1i64 as u64)) | (JS_FALSE as u64) == JS_FALSE as u64) by (bit_vector);
    assert((0u64 ^ (1i64 as u64)) | (JS_FALSE as u64) == JS_TRUE as u64) by (bit_vector);
}

/// What a bit operation gives for two 32-bit integers. A shift goes by the low five bits
/// of its amount.
pub open spec fn bitop_bits(kind: u8, a: u32, b: u32) -> u32 {
    if kind == 0 {
        a & b
    } else if kind == 1 {
        a | b
    } else if kind == 2 {
        a ^ b
    } else {
        ((a as i32) >> (b & 31)) as u32
    }
}

/// The code of a bit operation computes it.
pub proof fn bitop_computes(f: Frame, m: Clif, kind: u8, l: Value, r: Value, e: Bits)
    requires
        m.wf(),
        m.writable(),
        m.room(3),
        m.is(l, Ty::I32),
        m.is(r, Ty::I32),
        kind <= 3,
        e(l) <= u32::MAX,
        e(r) <= u32::MAX,
        respects(f.bit_result(m, kind, l, r).0, e),
    ensures
        e(f.bit_result(m, kind, l, r).1) == bitop_bits(kind, e(l) as u32, e(r) as u32),
{
    reveal(Frame::bit_result);
    let a = e(l);
    let b = e(r);
    if kind == 0 {
        lemma_respects_push(m, crate::clif::binary(BinaryOp::Band, l, r), e);
        assert(a & b == (a as u32) & (b as u32)) by (bit_vector)
            requires
                a <= 0xffff_ffffu64,
                b <= 0xffff_ffffu64,
        ;
    } else if kind == 1 {
        lemma_respects_push(m, crate::clif::binary(BinaryOp::Bor, l, r), e);
        assert(a | b == (a as u32) | (b as u32)) by (bit_vector)
            requires
                a <= 0xffff_ffffu64,
                b <= 0xffff_ffffu64,
        ;
    } else if kind == 2 {
        lemma_respects_push(m, crate::clif::binary(BinaryOp::Bxor, l, r), e);
        assert(a ^ b == (a as u32) ^ (b as u32)) by (bit_vector)
            requires
                a <= 0xffff_ffffu64,
                b <= 0xffff_ffffu64,
        ;
    } else {
        let i0 = Inst::Iconst { ty: Ty::I32, imm: masked(Ty::I32, 31) };
        let m1 = m.push(i0);
        let i1 = crate::clif::binary(BinaryOp::Band, r, m.next());
        let m2 = m1.push(i1);
        lemma_respects_push(m2, crate::clif::binary(BinaryOp::Sshr, l, m1.next()), e);
        lemma_respects_push(m1, i1, e);
        lemma_respects_push(m, i0, e);
        assert(e(m.next()) == 31) by {
            assert((31i64 & 0xffff_ffff) as u64 == 31) by (bit_vector);
        }
        let amount = b & 31;
        assert(e(m1.next()) == amount);
        assert((((a as u32 as i32 as i64) >> (amount % 32)) as u64) & 0xffff_ffff == (((a as u32)
            as i32) >> ((b as u32) & 31)) as u32) by (bit_vector)
            requires
                a <= 0xffff_ffffu64,
                b <= 0xffff_ffffu64,
                amount == b & 31,
        ;
    }
}

/// Where the overflow flag is clear, the sum of an addition is exact.
pub proof fn sums_are_exact_without_overflow(m: Clif, x: Value, y: Value, e: Bits)
    requires
        m.wf(),
        m.accepts(Inst::SaddOverflow { x, y }),
        respects(m.push(Inst::SaddOverflow { x, y }), e),
        e(m.after_next()) == 0,
    ensures
        signed(m.ty(x), e(m.next())) == signed(m.ty(x), e(x)) + signed(m.ty(x), e(y)),
{
    lemma_respects_push(m, Inst::SaddOverflow { x, y }, e);
}

} // verus!
