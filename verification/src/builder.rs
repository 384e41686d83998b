//! Cranelift's function builder, behind contracts over [`Clif`].
//!
//! Nothing here is proved: each function makes one call into `cranelift-frontend` or
//! `cranelift-codegen` and its contract says what that call does to the function being
//! built. [`clif`] names what the builder holds. All of it holds as long as no block is
//! sealed, which is how the emitters use the builder: blocks are sealed together, at
//! the end.
use crate::clif::{
    binary, compare, masked, resize, BinaryOp, Block, Clif, Cond, Flags, FuncRef, Inst, InstId,
    Resize, StackSlot, Ty, Value, Variable,
};
use cranelift_codegen::ir;
use cranelift_codegen::ir::condcodes::IntCC;
use cranelift_codegen::ir::types;
use cranelift_codegen::ir::InstBuilder;
use cranelift_codegen::ir::MemFlagsData;
use cranelift_frontend::FunctionBuilder;
use vstd::prelude::*;

verus! {

#[verifier::external_type_specification]
#[verifier::external_body]
pub struct ExFunctionBuilder<'a>(FunctionBuilder<'a>);

/// What the function builder `b` holds.
pub uninterp spec fn clif(b: FunctionBuilder) -> Clif;

/// `FunctionBuilder::create_block`: a new, empty block with the next number.
#[verifier::external_body]
pub(crate) fn create_block(b: &mut FunctionBuilder) -> (r: Block)
    requires
        clif(*old(b)).blocks.len() + 1 < u32::MAX,
        !clif(*old(b)).setup.sealed,
    ensures
        r == clif(*old(b)).next_block(),
        clif(*final(b)) == clif(*old(b)).create_block(),
{
    Block { id: b.create_block().as_u32() }
}

/// `FunctionBuilder::set_cold_block`: marks a block as cold.
#[verifier::external_body]
pub(crate) fn set_cold_block(b: &mut FunctionBuilder, block: Block)
    requires
        clif(*old(b)).has_block(block),
    ensures
        clif(*final(b)) == clif(*old(b)).set_cold(block),
{
    b.set_cold_block(ir::Block::from_u32(block.id));
}

/// `FunctionBuilder::append_block_param`: a new parameter of a block that nothing was
/// done in yet. A block has at most 2^16 parameters.
#[verifier::external_body]
pub(crate) fn append_block_param(b: &mut FunctionBuilder, block: Block, ty: Ty) -> (r: Value)
    requires
        clif(*old(b)).has_block(block),
        clif(*old(b)).info(block).status is Empty,
        clif(*old(b)).info(block).args.len() + clif(*old(b)).info(block).phis.len() <= u16::MAX,
        clif(*old(b)).values.len() + 1 < u32::MAX,
    ensures
        r == clif(*old(b)).next(),
        clif(*final(b)) == clif(*old(b)).append_param(block, ty),
{
    let ty = match ty {
        Ty::I8 => types::I8,
        Ty::I32 => types::I32,
        Ty::I64 => types::I64,
    };
    Value { id: b.append_block_param(ir::Block::from_u32(block.id), ty).as_u32() }
}

/// `FunctionBuilder::block_params`: the parameter of a block at a position, among those
/// that branches pass a value for.
#[verifier::external_body]
pub(crate) fn block_param(b: &FunctionBuilder, block: Block, i: usize) -> (r: Value)
    requires
        clif(*b).has_block(block),
        i < clif(*b).info(block).args.len(),
    ensures
        r == clif(*b).info(block).args[i as int],
{
    Value { id: b.block_params(ir::Block::from_u32(block.id))[i].as_u32() }
}

/// `FunctionBuilder::switch_to_block`: instructions go to `block` from here on. The
/// block left behind is filled or untouched, and `block` is not filled.
#[verifier::external_body]
pub(crate) fn switch_to_block(b: &mut FunctionBuilder, block: Block)
    requires
        clif(*old(b)).leavable(),
        clif(*old(b)).has_block(block),
        clif(*old(b)).info(block).status !is Filled,
    ensures
        clif(*final(b)) == clif(*old(b)).switch_to(block),
{
    b.switch_to_block(ir::Block::from_u32(block.id));
}

/// `FunctionBuilder::use_var`: the value of a variable in the current block. In a block
/// that is not sealed this is the last definition made in the block or, where there is
/// none, a new parameter of the block, which counts as its definition from then on.
#[verifier::external_body]
pub(crate) fn use_var(b: &mut FunctionBuilder, var: Variable) -> (r: Value)
    requires
        clif(*old(b)).writable(),
        var.id < clif(*old(b)).setup.vars.len(),
        clif(*old(b)).values.len() + 1 < u32::MAX,
        clif(*old(b)).can_read(var),
    ensures
        r == clif(*old(b)).value_of(var),
        clif(*final(b)) == clif(*old(b)).use_var(var),
{
    Value { id: b.use_var(cranelift_frontend::Variable::from_u32(var.id)).as_u32() }
}

/// `FunctionBuilder::def_var`: a variable has a value from here on in the current block.
#[verifier::external_body]
pub(crate) fn def_var(b: &mut FunctionBuilder, var: Variable, x: Value)
    requires
        clif(*old(b)).current is Some,
        var.id < clif(*old(b)).setup.vars.len(),
        clif(*old(b)).is(x, clif(*old(b)).setup.vars[var.id as int]),
    ensures
        clif(*final(b)) == clif(*old(b)).def_var(var, x),
{
    b.def_var(cranelift_frontend::Variable::from_u32(var.id), ir::Value::from_u32(x.id));
}

/// `InstBuilder::iconst`: a constant, cut to the width of its type.
#[verifier::external_body]
pub(crate) fn iconst(b: &mut FunctionBuilder, ty: Ty, imm: i64) -> (r: Value)
    requires
        clif(*old(b)).accepts(Inst::Iconst { ty, imm: masked(ty, imm) }),
    ensures
        r == clif(*old(b)).next(),
        clif(*final(b)) == clif(*old(b)).push(Inst::Iconst { ty, imm: masked(ty, imm) }),
{
    let ty = match ty {
        Ty::I8 => types::I8,
        Ty::I32 => types::I32,
        Ty::I64 => types::I64,
    };
    Value { id: b.ins().iconst(ty, imm).as_u32() }
}

/// `InstBuilder::band`: bitwise and.
#[verifier::external_body]
pub(crate) fn band(b: &mut FunctionBuilder, x: Value, y: Value) -> (r: Value)
    requires
        clif(*old(b)).accepts(binary(BinaryOp::Band, x, y)),
    ensures
        r == clif(*old(b)).next(),
        clif(*final(b)) == clif(*old(b)).push(binary(BinaryOp::Band, x, y)),
{
    Value { id: b.ins().band(ir::Value::from_u32(x.id), ir::Value::from_u32(y.id)).as_u32() }
}

/// `InstBuilder::bor`: bitwise or.
#[verifier::external_body]
pub(crate) fn bor(b: &mut FunctionBuilder, x: Value, y: Value) -> (r: Value)
    requires
        clif(*old(b)).accepts(binary(BinaryOp::Bor, x, y)),
    ensures
        r == clif(*old(b)).next(),
        clif(*final(b)) == clif(*old(b)).push(binary(BinaryOp::Bor, x, y)),
{
    Value { id: b.ins().bor(ir::Value::from_u32(x.id), ir::Value::from_u32(y.id)).as_u32() }
}

/// `InstBuilder::bxor`: bitwise exclusive or.
#[verifier::external_body]
pub(crate) fn bxor(b: &mut FunctionBuilder, x: Value, y: Value) -> (r: Value)
    requires
        clif(*old(b)).accepts(binary(BinaryOp::Bxor, x, y)),
    ensures
        r == clif(*old(b)).next(),
        clif(*final(b)) == clif(*old(b)).push(binary(BinaryOp::Bxor, x, y)),
{
    Value { id: b.ins().bxor(ir::Value::from_u32(x.id), ir::Value::from_u32(y.id)).as_u32() }
}

/// `InstBuilder::iadd`: wrapping addition.
#[verifier::external_body]
pub(crate) fn iadd(b: &mut FunctionBuilder, x: Value, y: Value) -> (r: Value)
    requires
        clif(*old(b)).accepts(binary(BinaryOp::Iadd, x, y)),
    ensures
        r == clif(*old(b)).next(),
        clif(*final(b)) == clif(*old(b)).push(binary(BinaryOp::Iadd, x, y)),
{
    Value { id: b.ins().iadd(ir::Value::from_u32(x.id), ir::Value::from_u32(y.id)).as_u32() }
}

/// `InstBuilder::sshr`: signed shift right.
#[verifier::external_body]
pub(crate) fn sshr(b: &mut FunctionBuilder, x: Value, y: Value) -> (r: Value)
    requires
        clif(*old(b)).accepts(binary(BinaryOp::Sshr, x, y)),
    ensures
        r == clif(*old(b)).next(),
        clif(*final(b)) == clif(*old(b)).push(binary(BinaryOp::Sshr, x, y)),
{
    Value { id: b.ins().sshr(ir::Value::from_u32(x.id), ir::Value::from_u32(y.id)).as_u32() }
}

/// `InstBuilder::band_imm_u`: a constant of the type of `x`, then the bitwise and.
#[verifier::external_body]
pub(crate) fn band_imm(b: &mut FunctionBuilder, x: Value, imm: i64) -> (r: Value)
    requires
        clif(*old(b)).accepts_with_constant(x),
    ensures
        r == clif(*old(b)).after_next(),
        clif(*final(b)) == clif(*old(b)).constant(clif(*old(b)).ty(x), imm).0.push(
            binary(BinaryOp::Band, x, clif(*old(b)).next()),
        ),
{
    Value { id: b.ins().band_imm_u(ir::Value::from_u32(x.id), imm).as_u32() }
}

/// `InstBuilder::bor_imm_u`: a constant of the type of `x`, then the bitwise or.
#[verifier::external_body]
pub(crate) fn bor_imm(b: &mut FunctionBuilder, x: Value, imm: i64) -> (r: Value)
    requires
        clif(*old(b)).accepts_with_constant(x),
    ensures
        r == clif(*old(b)).after_next(),
        clif(*final(b)) == clif(*old(b)).constant(clif(*old(b)).ty(x), imm).0.push(
            binary(BinaryOp::Bor, x, clif(*old(b)).next()),
        ),
{
    Value { id: b.ins().bor_imm_u(ir::Value::from_u32(x.id), imm).as_u32() }
}

/// `InstBuilder::bxor_imm_u`: a constant of the type of `x`, then the bitwise exclusive or.
#[verifier::external_body]
pub(crate) fn bxor_imm(b: &mut FunctionBuilder, x: Value, imm: i64) -> (r: Value)
    requires
        clif(*old(b)).accepts_with_constant(x),
    ensures
        r == clif(*old(b)).after_next(),
        clif(*final(b)) == clif(*old(b)).constant(clif(*old(b)).ty(x), imm).0.push(
            binary(BinaryOp::Bxor, x, clif(*old(b)).next()),
        ),
{
    Value { id: b.ins().bxor_imm_u(ir::Value::from_u32(x.id), imm).as_u32() }
}

/// `InstBuilder::ishl_imm_u`: a constant of the type of `x`, then the shift left.
#[verifier::external_body]
pub(crate) fn ishl_imm(b: &mut FunctionBuilder, x: Value, imm: i64) -> (r: Value)
    requires
        clif(*old(b)).accepts_with_constant(x),
    ensures
        r == clif(*old(b)).after_next(),
        clif(*final(b)) == clif(*old(b)).constant(clif(*old(b)).ty(x), imm).0.push(
            binary(BinaryOp::Ishl, x, clif(*old(b)).next()),
        ),
{
    Value { id: b.ins().ishl_imm_u(ir::Value::from_u32(x.id), imm).as_u32() }
}

/// `InstBuilder::iadd_imm_s`: a constant of the type of `x`, then the wrapping addition.
#[verifier::external_body]
pub(crate) fn iadd_imm(b: &mut FunctionBuilder, x: Value, imm: i64) -> (r: Value)
    requires
        clif(*old(b)).accepts_with_constant(x),
    ensures
        r == clif(*old(b)).after_next(),
        clif(*final(b)) == clif(*old(b)).constant(clif(*old(b)).ty(x), imm).0.push(
            binary(BinaryOp::Iadd, x, clif(*old(b)).next()),
        ),
{
    Value { id: b.ins().iadd_imm_s(ir::Value::from_u32(x.id), imm).as_u32() }
}

/// `InstBuilder::sextend`: sign extension.
#[verifier::external_body]
pub(crate) fn sextend(b: &mut FunctionBuilder, ty: Ty, x: Value) -> (r: Value)
    requires
        clif(*old(b)).accepts(resize(Resize::Sextend, ty, x)),
    ensures
        r == clif(*old(b)).next(),
        clif(*final(b)) == clif(*old(b)).push(resize(Resize::Sextend, ty, x)),
{
    let ty = match ty {
        Ty::I8 => types::I8,
        Ty::I32 => types::I32,
        Ty::I64 => types::I64,
    };
    Value { id: b.ins().sextend(ty, ir::Value::from_u32(x.id)).as_u32() }
}

/// `InstBuilder::uextend`: zero extension.
#[verifier::external_body]
pub(crate) fn uextend(b: &mut FunctionBuilder, ty: Ty, x: Value) -> (r: Value)
    requires
        clif(*old(b)).accepts(resize(Resize::Uextend, ty, x)),
    ensures
        r == clif(*old(b)).next(),
        clif(*final(b)) == clif(*old(b)).push(resize(Resize::Uextend, ty, x)),
{
    let ty = match ty {
        Ty::I8 => types::I8,
        Ty::I32 => types::I32,
        Ty::I64 => types::I64,
    };
    Value { id: b.ins().uextend(ty, ir::Value::from_u32(x.id)).as_u32() }
}

/// `InstBuilder::ireduce`: the low bits.
#[verifier::external_body]
pub(crate) fn ireduce(b: &mut FunctionBuilder, ty: Ty, x: Value) -> (r: Value)
    requires
        clif(*old(b)).accepts(resize(Resize::Ireduce, ty, x)),
    ensures
        r == clif(*old(b)).next(),
        clif(*final(b)) == clif(*old(b)).push(resize(Resize::Ireduce, ty, x)),
{
    let ty = match ty {
        Ty::I8 => types::I8,
        Ty::I32 => types::I32,
        Ty::I64 => types::I64,
    };
    Value { id: b.ins().ireduce(ty, ir::Value::from_u32(x.id)).as_u32() }
}

/// `InstBuilder::sadd_overflow`: the wrapping sum, and whether the signed sum overflows.
#[verifier::external_body]
pub(crate) fn sadd_overflow(b: &mut FunctionBuilder, x: Value, y: Value) -> (r: (Value, Value))
    requires
        clif(*old(b)).accepts(Inst::SaddOverflow { x, y }),
    ensures
        r == (clif(*old(b)).next(), clif(*old(b)).after_next()),
        clif(*final(b)) == clif(*old(b)).push(Inst::SaddOverflow { x, y }),
{
    let (s, o) = b.ins().sadd_overflow(ir::Value::from_u32(x.id), ir::Value::from_u32(y.id));
    (Value { id: s.as_u32() }, Value { id: o.as_u32() })
}

/// `InstBuilder::load`: a load from an address plus an offset.
#[verifier::external_body]
pub(crate) fn load(
    b: &mut FunctionBuilder,
    ty: Ty,
    flags: Flags,
    addr: Value,
    offset: i32,
) -> (r: Value)
    requires
        clif(*old(b)).accepts(Inst::Load { ty, flags, addr, offset }),
    ensures
        r == clif(*old(b)).next(),
        clif(*final(b)) == clif(*old(b)).push(Inst::Load { ty, flags, addr, offset }),
{
    let ty = match ty {
        Ty::I8 => types::I8,
        Ty::I32 => types::I32,
        Ty::I64 => types::I64,
    };
    let flags = match flags {
        Flags::Trusted => MemFlagsData::trusted(),
        Flags::ReadOnly => MemFlagsData::trusted().with_readonly(),
        Flags::NoTrap => MemFlagsData::new().with_notrap(),
    };
    Value { id: b.ins().load(ty, flags, ir::Value::from_u32(addr.id), offset).as_u32() }
}

/// `InstBuilder::icmp`: 1 where the comparison holds, else 0.
#[verifier::external_body]
pub(crate) fn int_compare(b: &mut FunctionBuilder, cond: Cond, x: Value, y: Value) -> (r: Value)
    requires
        clif(*old(b)).accepts(Inst::Compare { cond, x, y }),
    ensures
        r == clif(*old(b)).next(),
        clif(*final(b)) == clif(*old(b)).push(Inst::Compare { cond, x, y }),
{
    let cond = match cond {
        Cond::Equal => IntCC::Equal,
        Cond::SignedLessThan => IntCC::SignedLessThan,
        Cond::UnsignedLessThan => IntCC::UnsignedLessThan,
        Cond::UnsignedGreaterThanOrEqual => IntCC::UnsignedGreaterThanOrEqual,
    };
    Value { id: b.ins().icmp(cond, ir::Value::from_u32(x.id), ir::Value::from_u32(y.id)).as_u32() }
}

/// `InstBuilder::brif`: to `then_block` where `cond` is not 0, else to `else_block`.
#[verifier::external_body]
pub(crate) fn brif(
    b: &mut FunctionBuilder,
    cond: Value,
    then_block: Block,
    then_args: &[Value],
    else_block: Block,
    else_args: &[Value],
)
    requires
        clif(*old(b)).accepts(
            Inst::Brif {
                cond,
                then_block,
                then_args: then_args@,
                else_block,
                else_args: else_args@,
            },
        ),
    ensures
        clif(*final(b)) == clif(*old(b)).push(
            Inst::Brif {
                cond,
                then_block,
                then_args: then_args@,
                else_block,
                else_args: else_args@,
            },
        ),
{
    let ta: Vec<ir::BlockArg> = then_args.iter().map(|v| ir::Value::from_u32(v.id).into()).collect();
    let ea: Vec<ir::BlockArg> = else_args.iter().map(|v| ir::Value::from_u32(v.id).into()).collect();
    let (t, e) = (ir::Block::from_u32(then_block.id), ir::Block::from_u32(else_block.id));
    b.ins().brif(ir::Value::from_u32(cond.id), t, &ta, e, &ea);
}

/// `InstBuilder::jump`: to a block.
#[verifier::external_body]
pub(crate) fn jump(b: &mut FunctionBuilder, to: Block, args: &[Value])
    requires
        clif(*old(b)).accepts(Inst::Jump { to, args: args@ }),
    ensures
        clif(*final(b)) == clif(*old(b)).push(Inst::Jump { to, args: args@ }),
{
    let args: Vec<ir::BlockArg> = args.iter().map(|v| ir::Value::from_u32(v.id).into()).collect();
    b.ins().jump(ir::Block::from_u32(to.id), &args);
}

/// `InstBuilder::icmp_imm_s`: a constant of the type of `x`, then the comparison with it.
#[verifier::external_body]
pub(crate) fn int_compare_imm(b: &mut FunctionBuilder, cond: Cond, x: Value, imm: i64) -> (r: Value)
    requires
        clif(*old(b)).accepts_with_constant(x),
    ensures
        r == clif(*old(b)).after_next(),
        clif(*final(b)) == clif(*old(b)).constant(clif(*old(b)).ty(x), imm).0.push(
            compare(cond, x, clif(*old(b)).next()),
        ),
{
    let cond = match cond {
        Cond::Equal => IntCC::Equal,
        Cond::SignedLessThan => IntCC::SignedLessThan,
        Cond::UnsignedLessThan => IntCC::UnsignedLessThan,
        Cond::UnsignedGreaterThanOrEqual => IntCC::UnsignedGreaterThanOrEqual,
    };
    Value { id: b.ins().icmp_imm_s(cond, ir::Value::from_u32(x.id), imm).as_u32() }
}

/// `InstBuilder::store`: a store to an address plus an offset.
#[verifier::external_body]
pub(crate) fn store(b: &mut FunctionBuilder, flags: Flags, x: Value, addr: Value, offset: i32)
    requires
        clif(*old(b)).accepts(Inst::Store { flags, x, addr, offset }),
    ensures
        clif(*final(b)) == clif(*old(b)).push(Inst::Store { flags, x, addr, offset }),
{
    let flags = match flags {
        Flags::Trusted => MemFlagsData::trusted(),
        Flags::ReadOnly => MemFlagsData::trusted().with_readonly(),
        Flags::NoTrap => MemFlagsData::new().with_notrap(),
    };
    b.ins().store(flags, ir::Value::from_u32(x.id), ir::Value::from_u32(addr.id), offset);
}

/// `InstBuilder::stack_addr`: the address of a stack slot plus an offset.
#[verifier::external_body]
pub(crate) fn stack_addr(b: &mut FunctionBuilder, ty: Ty, slot: StackSlot, offset: i32) -> (r:
    Value)
    requires
        clif(*old(b)).accepts(Inst::StackAddr { ty, slot, offset }),
    ensures
        r == clif(*old(b)).next(),
        clif(*final(b)) == clif(*old(b)).push(Inst::StackAddr { ty, slot, offset }),
{
    let ty = match ty {
        Ty::I8 => types::I8,
        Ty::I32 => types::I32,
        Ty::I64 => types::I64,
    };
    Value { id: b.ins().stack_addr(ty, ir::StackSlot::from_u32(slot.id), offset).as_u32() }
}

/// `InstBuilder::stack_load`, with 64-bit addresses: the address of a stack slot plus an
/// offset, then a load from it that cannot trap.
#[verifier::external_body]
pub(crate) fn stack_load(b: &mut FunctionBuilder, ty: Ty, slot: StackSlot, offset: i32) -> (r:
    Value)
    requires
        clif(*old(b)).writable(),
        slot.id < clif(*old(b)).setup.slots.len(),
        clif(*old(b)).values.len() + 2 < u32::MAX,
        clif(*old(b)).insts.len() + 2 < u32::MAX,
    ensures
        r == clif(*old(b)).after_next(),
        clif(*final(b)) == clif(*old(b)).push(Inst::StackAddr { ty: Ty::I64, slot, offset }).push(
            Inst::Load { ty, flags: Flags::NoTrap, addr: clif(*old(b)).next(), offset: 0 },
        ),
{
    let ty = match ty {
        Ty::I8 => types::I8,
        Ty::I32 => types::I32,
        Ty::I64 => types::I64,
    };
    let slot = ir::StackSlot::from_u32(slot.id);
    Value { id: b.ins().stack_load(types::I64, ty, slot, offset).as_u32() }
}

/// `InstBuilder::call`: a call. The results of the callee are the results of the
/// instruction.
#[verifier::external_body]
pub(crate) fn call(b: &mut FunctionBuilder, callee: FuncRef, args: &[Value]) -> (r: InstId)
    requires
        clif(*old(b)).accepts(Inst::Call { callee, args: args@ }),
    ensures
        r.id == clif(*old(b)).insts.len(),
        clif(*final(b)) == clif(*old(b)).push(Inst::Call { callee, args: args@ }),
{
    let args: Vec<ir::Value> = args.iter().map(|v| ir::Value::from_u32(v.id)).collect();
    InstId { id: b.ins().call(ir::FuncRef::from_u32(callee.id), &args).as_u32() }
}

/// `InstBuilder::return_`: a return.
#[verifier::external_body]
pub(crate) fn return_(b: &mut FunctionBuilder, args: &[Value])
    requires
        clif(*old(b)).accepts(Inst::Return { args: args@ }),
    ensures
        clif(*final(b)) == clif(*old(b)).push(Inst::Return { args: args@ }),
{
    let args: Vec<ir::Value> = args.iter().map(|v| ir::Value::from_u32(v.id)).collect();
    b.ins().return_(&args);
}

/// `FunctionBuilder::inst_results`: the result of an instruction at a position.
#[verifier::external_body]
pub(crate) fn inst_result(b: &FunctionBuilder, inst: InstId, i: usize) -> (r: Value)
    requires
        inst.id < clif(*b).insts.len(),
        i < clif(*b).insts[inst.id as int].results.len(),
    ensures
        r == clif(*b).insts[inst.id as int].results[i as int],
{
    Value { id: b.inst_results(ir::Inst::from_u32(inst.id))[i].as_u32() }
}

/// `FunctionBuilder::current_block`: the block that instructions are appended to.
#[verifier::external_body]
pub(crate) fn current_block(b: &FunctionBuilder) -> (r: Option<Block>)
    ensures
        r == clif(*b).current,
{
    b.current_block().map(|block| Block { id: block.as_u32() })
}

/// `Layout::last_inst`: the last instruction of a block, if the block has any. As long as no
/// block is sealed, instructions stand in the order of their numbers.
#[verifier::external_body]
pub(crate) fn last_inst(b: &FunctionBuilder, block: Block) -> (r: Option<InstId>)
    requires
        clif(*b).has_block(block),
        !clif(*b).setup.sealed,
    ensures
        match r {
            Some(inst) => {
                &&& inst.id < clif(*b).insts.len()
                &&& clif(*b).insts[inst.id as int].block == block
                &&& forall|i: int|
                    inst.id < i < clif(*b).insts.len() ==> (#[trigger] clif(*b).insts[i]).block
                        != block
            },
            None => forall|i: int|
                0 <= i < clif(*b).insts.len() ==> (#[trigger] clif(*b).insts[i]).block != block,
        },
{
    b.func.layout.last_inst(ir::Block::from_u32(block.id)).map(|i| InstId { id: i.as_u32() })
}

/// `Opcode::is_terminator`, of an instruction of the function.
#[verifier::external_body]
pub(crate) fn is_terminator(b: &FunctionBuilder, inst: InstId) -> (r: bool)
    requires
        inst.id < clif(*b).insts.len(),
    ensures
        r == clif(*b).insts[inst.id as int].inst.is_terminator(),
{
    b.func.dfg.insts[ir::Inst::from_u32(inst.id)].opcode().is_terminator()
}

/// `FunctionBuilder::declare_var`: a new variable with the next number.
#[verifier::external_body]
pub(crate) fn declare_var(b: &mut FunctionBuilder, ty: Ty) -> (r: Variable)
    requires
        clif(*old(b)).setup.vars.len() + 1 < u32::MAX,
    ensures
        r.id == clif(*old(b)).setup.vars.len(),
        clif(*final(b)) == clif(*old(b)).declare_var(ty),
{
    let ty = match ty {
        Ty::I8 => types::I8,
        Ty::I32 => types::I32,
        Ty::I64 => types::I64,
    };
    Variable { id: b.declare_var(ty).as_u32() }
}

/// `FunctionBuilder::create_sized_stack_slot`, of an explicit slot: a new stack slot with
/// the next number.
#[verifier::external_body]
pub(crate) fn create_sized_stack_slot(b: &mut FunctionBuilder, size: u32, align_shift: u8) -> (r:
    StackSlot)
    requires
        clif(*old(b)).setup.slots.len() + 1 < u32::MAX,
    ensures
        r.id == clif(*old(b)).setup.slots.len(),
        clif(*final(b)) == clif(*old(b)).create_slot(size, align_shift),
{
    let kind = ir::StackSlotKind::ExplicitSlot;
    let data = ir::StackSlotData::new(kind, size, align_shift);
    StackSlot { id: b.create_sized_stack_slot(data).as_u32() }
}

} // verus!
