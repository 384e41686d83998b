//! What the code of each bytecode operation does with the registers that the operation names.
//!
//! The laws speak of [`Frame::op`]: of the code of an operation as it stands in a function.
//! As in [`crate::runs`], they hold for all [`Bits`] that go by the instructions.
use crate::accesses::{
    lemma_reads_indexed, lemma_reads_property, lemma_stands, lemma_writes_indexed,
    lemma_writes_property, reads_indexed, reads_property, stands, writes_indexed, writes_property,
};
use crate::body::{op_cost, Code};
use crate::bytecode::{
    is_register, js_int, OpView, Operation, JS_FALSE, JS_TRUE, JS_UNDEFINED, VR,
};
use crate::calls::{calls_write_the_frame_of_the_callee, dispatches_call, lemma_dispatches_call};
use crate::clif::{masked, Block, Clif, Inst, Ty, Value};
use crate::detours::lemma_obeys;
use crate::growth::{
    begins, goes, grows, grows_refl, keeps_tags, lemma_goes_pushed,
};
use crate::meaning::{is_nullish, neq_null_writes_a_boolean, respects, Bits};
use crate::runs::{
    adds_values, branches_on_null_are_direct, branches_on_truth, combines_bits, compares_numbers,
    compares_strictly, lemma_adds_values, lemma_branches_on_truth, lemma_combines_bits,
    lemma_compares_numbers, lemma_compares_strictly,
};
use crate::scopes::{
    checks_for_traps, converts_this, lemma_checks_for_traps, lemma_converts_this,
    lemma_reads_array_length, lemma_reads_variable, lemma_resolves_scope, lemma_writes_variable,
    reads_array_length, reads_variable, resolves_scope, writes_variable,
};
use crate::template::Frame;
use vstd::prelude::*;

verus! {

broadcast use {crate::clif::group_clif, crate::template::group_frame};

/// The code of the operation can begin in `c`, and the bits go by all of it.
pub open spec fn starts(f: Frame, c: Code, op: OpView, e: Bits) -> bool {
    &&& begins(f, c.m, op_cost(op))
    &&& op.ok(f.args.len(), f.locs.len())
    &&& respects(f.op(c, op).m, e)
    &&& keeps_tags(f, f.op(c, op).m, e)
}

/// Control goes on in the next block, and the labels are the same.
pub open spec fn goes_on(c: Code, o: Code) -> bool {
    &&& o.m.current == Some(c.m.next_block())
    &&& o.labels == c.labels
}

/// What is known of the function once there is a block to go on in.
proof fn lemma_next(f: Frame, m: Clif, n: nat)
    requires
        begins(f, m, n),
        n >= 1,
    ensures
        begins(f, m.create_block(), (n - 1) as nat),
        m.create_block().has_block(m.next_block()),
        m.create_block().info(m.next_block()).args.len() == 0,
        m.create_block().current == m.current,
{
}

/// A constant has its bits.
proof fn lemma_wide_constant(m: Clif, k: i64, n: Clif, e: Bits)
    requires
        grows(m.constant(Ty::I64, k).0, n),
        respects(n, e),
    ensures
        e(m.next()) == k as u64,
{
    let inst = Inst::Iconst { ty: Ty::I64, imm: masked(Ty::I64, k) };
    assert(m.constant(Ty::I64, k).0 == m.push(inst));
    lemma_obeys(m, inst, n, e);
}

/// `this` is converted unless it is an object.
pub proof fn conversions_are_of_this(f: Frame, c: Code, e: Bits)
    requires
        starts(f, c, Operation::ToThis, e),
    ensures
        ({
            let o = f.op(c, Operation::ToThis);
            &&& goes_on(c, o)
            &&& converts_this(f, c.m.create_block(), o.m, c.m.next_block(), e)
        }),
{
    reveal(Frame::op);
    reveal(Frame::handler);
    let op: OpView = Operation::ToThis;
    let (m, next) = c.m.new_block();
    lemma_next(f, c.m, op_cost(op));
    lemma_converts_this(f, m, f.op(c, op).m, next, next, e);
}

/// A check for traps goes by the call site of the operation.
pub proof fn checks_have_their_site(f: Frame, c: Code, bc: u32, e: Bits)
    requires
        starts(f, c, Operation::CheckTraps { bc }, e),
    ensures
        ({
            let o = f.op(c, Operation::CheckTraps { bc });
            &&& goes_on(c, o)
            &&& checks_for_traps(f, c.m.create_block(), o.m, bc, c.m.next_block(), e)
        }),
{
    reveal(Frame::op);
    reveal(Frame::handler);
    let op: OpView = Operation::CheckTraps { bc };
    let (m, next) = c.m.new_block();
    lemma_next(f, c.m, op_cost(op));
    lemma_checks_for_traps(f, m, f.op(c, op).m, bc, next, next, e);
}

/// A property read goes from the register for the base to that for the result.
pub proof fn property_reads_use_their_registers(f: Frame, c: Code, dst: VR, base: VR, md_off: i32, ident: u32, bc: u32, e: Bits)
    requires
        starts(f, c, Operation::GetById { dst, base, md_off, ident, bc }, e),
    ensures
        ({
            let o = f.op(c, Operation::GetById { dst, base, md_off, ident, bc });
            &&& goes_on(c, o)
            &&& reads_property(f, c.m.create_block(), o.m, dst, base, md_off, ident, bc, c.m.next_block(), e)
        }),
{
    reveal(Frame::op);
    reveal(Frame::handler);
    let op: OpView = Operation::GetById { dst, base, md_off, ident, bc };
    let (m, next) = c.m.new_block();
    lemma_next(f, c.m, op_cost(op));
    lemma_reads_property(f, m, f.op(c, op).m, dst, base, md_off, ident, bc, next, next, e);
}

/// A property write puts the register for the value into that for the base.
pub proof fn property_writes_use_their_registers(f: Frame, c: Code, base: VR, val: VR, md_off: i32, ident: u32, bc: u32, e: Bits)
    requires
        starts(f, c, Operation::PutById { base, val, md_off, ident, bc }, e),
    ensures
        ({
            let o = f.op(c, Operation::PutById { base, val, md_off, ident, bc });
            &&& goes_on(c, o)
            &&& writes_property(f, c.m.create_block(), o.m, base, val, md_off, ident, bc, c.m.next_block(), e)
        }),
{
    reveal(Frame::op);
    reveal(Frame::handler);
    let op: OpView = Operation::PutById { base, val, md_off, ident, bc };
    let (m, next) = c.m.new_block();
    lemma_next(f, c.m, op_cost(op));
    lemma_writes_property(f, m, f.op(c, op).m, base, val, md_off, ident, bc, next, next, e);
}

/// An element read indexes the register for the base with that for the index.
pub proof fn element_reads_use_their_registers(f: Frame, c: Code, dst: VR, base: VR, idx: VR, bc: u32, e: Bits)
    requires
        starts(f, c, Operation::GetByVal { dst, base, idx, bc }, e),
    ensures
        ({
            let o = f.op(c, Operation::GetByVal { dst, base, idx, bc });
            &&& goes_on(c, o)
            &&& reads_indexed(f, c.m.create_block(), o.m, dst, base, idx, bc, c.m.next_block(), e)
        }),
{
    reveal(Frame::op);
    reveal(Frame::handler);
    let op: OpView = Operation::GetByVal { dst, base, idx, bc };
    let (m, next) = c.m.new_block();
    lemma_next(f, c.m, op_cost(op));
    lemma_reads_indexed(f, m, f.op(c, op).m, dst, base, idx, bc, next, next, e);
}

/// An element write puts the register for the value at the index into that for the base.
pub proof fn element_writes_use_their_registers(f: Frame, c: Code, base: VR, idx: VR, val: VR, bc: u32, e: Bits)
    requires
        starts(f, c, Operation::PutByVal { base, idx, val, bc }, e),
    ensures
        ({
            let o = f.op(c, Operation::PutByVal { base, idx, val, bc });
            &&& goes_on(c, o)
            &&& writes_indexed(f, c.m.create_block(), o.m, base, idx, val, bc, c.m.next_block(), e)
        }),
{
    reveal(Frame::op);
    reveal(Frame::handler);
    let op: OpView = Operation::PutByVal { base, idx, val, bc };
    let (m, next) = c.m.new_block();
    lemma_next(f, c.m, op_cost(op));
    lemma_writes_indexed(f, m, f.op(c, op).m, base, idx, val, bc, next, next, e);
}

/// A length is that of the register for the base.
pub proof fn length_reads_use_their_registers(f: Frame, c: Code, dst: VR, base: VR, bc: u32, e: Bits)
    requires
        starts(f, c, Operation::GetLength { dst, base, bc }, e),
    ensures
        ({
            let o = f.op(c, Operation::GetLength { dst, base, bc });
            &&& goes_on(c, o)
            &&& reads_array_length(f, c.m.create_block(), o.m, dst, base, bc, c.m.next_block(), e)
        }),
{
    reveal(Frame::op);
    reveal(Frame::handler);
    let op: OpView = Operation::GetLength { dst, base, bc };
    let (m, next) = c.m.new_block();
    lemma_next(f, c.m, op_cost(op));
    lemma_reads_array_length(f, m, f.op(c, op).m, dst, base, bc, next, next, e);
}

/// A scope lookup begins with the register for the scope.
pub proof fn scope_lookups_use_their_registers(f: Frame, c: Code, dst: VR, scope: VR, md_off: i32, bc: u32, e: Bits)
    requires
        starts(f, c, Operation::ResolveScope { dst, scope, md_off, bc }, e),
    ensures
        ({
            let o = f.op(c, Operation::ResolveScope { dst, scope, md_off, bc });
            &&& goes_on(c, o)
            &&& resolves_scope(f, c.m.create_block(), o.m, dst, scope, md_off, bc, c.m.next_block(), e)
        }),
{
    reveal(Frame::op);
    reveal(Frame::handler);
    let op: OpView = Operation::ResolveScope { dst, scope, md_off, bc };
    let (m, next) = c.m.new_block();
    lemma_next(f, c.m, op_cost(op));
    lemma_resolves_scope(f, m, f.op(c, op).m, dst, scope, md_off, bc, next, next, e);
}

/// A variable is read of the register for the scope.
pub proof fn variable_reads_use_their_registers(f: Frame, c: Code, dst: VR, scope: VR, md_off: i32, bc: u32, e: Bits)
    requires
        starts(f, c, Operation::GetFromScope { dst, scope, md_off, bc }, e),
    ensures
        ({
            let o = f.op(c, Operation::GetFromScope { dst, scope, md_off, bc });
            &&& goes_on(c, o)
            &&& reads_variable(f, c.m.create_block(), o.m, dst, scope, md_off, bc, c.m.next_block(), e)
        }),
{
    reveal(Frame::op);
    reveal(Frame::handler);
    let op: OpView = Operation::GetFromScope { dst, scope, md_off, bc };
    let (m, next) = c.m.new_block();
    lemma_next(f, c.m, op_cost(op));
    lemma_reads_variable(f, m, f.op(c, op).m, dst, scope, md_off, bc, next, next, e);
}

/// The register for the value is written to a variable of that for the scope.
pub proof fn variable_writes_use_their_registers(f: Frame, c: Code, scope: VR, val: VR, md_off: i32, bc: u32, e: Bits)
    requires
        starts(f, c, Operation::PutToScope { scope, val, md_off, bc }, e),
    ensures
        ({
            let o = f.op(c, Operation::PutToScope { scope, val, md_off, bc });
            &&& goes_on(c, o)
            &&& writes_variable(f, c.m.create_block(), o.m, scope, val, md_off, bc, c.m.next_block(), e)
        }),
{
    reveal(Frame::op);
    reveal(Frame::handler);
    let op: OpView = Operation::PutToScope { scope, val, md_off, bc };
    let (m, next) = c.m.new_block();
    lemma_next(f, c.m, op_cost(op));
    lemma_writes_variable(f, m, f.op(c, op).m, scope, val, md_off, bc, next, next, e);
}

/// An addition is of the registers for the operands: see [`adds_values`].
#[verifier::rlimit(40)]
pub proof fn additions_use_their_registers(f: Frame, c: Code, dst: VR, lhs: VR, rhs: VR, bc: u32, e: Bits)
    requires
        starts(f, c, Operation::Add { dst, lhs, rhs, bc }, e),
    ensures
        ({
            let o = f.op(c, Operation::Add { dst, lhs, rhs, bc });
            let (m1, l) = c.m.create_block().get(f.var(lhs));
            let (m2, r) = m1.get(f.var(rhs));
            &&& goes_on(c, o)
            &&& adds_values(f, m2, o.m, dst, l, r, bc, c.m.next_block(), e)
        }),
{
    broadcast use crate::growth::group_grows;

    reveal(Frame::op);
    reveal(Frame::handler);
    reveal(Frame::add_registers);
    let op: OpView = Operation::Add { dst, lhs, rhs, bc };
    let o = f.op(c, op);
    let (m, next) = c.m.new_block();
    lemma_next(f, c.m, op_cost(op));
    let (m1, l) = m.get(f.var(lhs));
    let (m2, r) = m1.get(f.var(rhs));
    assert(o.m == f.add_values(m2, dst, l, r, bc, next).switch_to(next));
    lemma_adds_values(f, m2, o.m, dst, l, r, bc, next, next, e);
}

/// An addition of a constant is of the register for the operand and of the constant.
#[verifier::rlimit(40)]
pub proof fn constant_additions_use_their_register(f: Frame, c: Code, dst: VR, lhs: VR, k: i32, bc: u32, e: Bits)
    requires
        starts(f, c, Operation::AddK { dst, lhs, k, bc }, e),
    ensures
        ({
            let o = f.op(c, Operation::AddK { dst, lhs, k, bc });
            let (m1, l) = c.m.create_block().get(f.var(lhs));
            let (m2, r) = m1.constant(Ty::I64, js_int(k));
            &&& goes_on(c, o)
            &&& e(r) == js_int(k) as u64
            &&& adds_values(f, m2, o.m, dst, l, r, bc, c.m.next_block(), e)
        }),
{
    broadcast use crate::growth::group_grows;

    reveal(Frame::op);
    reveal(Frame::handler);
    reveal(Frame::add_constant);
    let op: OpView = Operation::AddK { dst, lhs, k, bc };
    let o = f.op(c, op);
    let (m, next) = c.m.new_block();
    lemma_next(f, c.m, op_cost(op));
    let (m1, l) = m.get(f.var(lhs));
    let (m2, r) = m1.constant(Ty::I64, js_int(k));
    assert(o.m == f.add_values(m2, dst, l, r, bc, next).switch_to(next));
    lemma_adds_values(f, m2, o.m, dst, l, r, bc, next, next, e);
    lemma_add_values_grows(f, m2, dst, l, r, bc, next, next);
    lemma_wide_constant(m1, js_int(k), o.m, e);
}

/// An increment adds one to its register.
#[verifier::rlimit(40)]
pub proof fn increments_add_one(f: Frame, c: Code, dst: VR, bc: u32, e: Bits)
    requires
        starts(f, c, Operation::Inc { dst, bc }, e),
    ensures
        ({
            let o = f.op(c, Operation::Inc { dst, bc });
            let (m1, l) = c.m.create_block().get(f.var(dst));
            let (m2, r) = m1.constant(Ty::I64, js_int(1));
            &&& goes_on(c, o)
            &&& e(r) == js_int(1) as u64
            &&& adds_values(f, m2, o.m, dst, l, r, bc, c.m.next_block(), e)
        }),
{
    broadcast use crate::growth::group_grows;

    reveal(Frame::op);
    reveal(Frame::handler);
    reveal(Frame::inc);
    let op: OpView = Operation::Inc { dst, bc };
    let o = f.op(c, op);
    let (m, next) = c.m.new_block();
    lemma_next(f, c.m, op_cost(op));
    let (m1, l) = m.get(f.var(dst));
    let (m2, r) = m1.constant(Ty::I64, js_int(1));
    assert(o.m == f.add_values(m2, dst, l, r, bc, next).switch_to(next));
    lemma_adds_values(f, m2, o.m, dst, l, r, bc, next, next, e);
    lemma_add_values_grows(f, m2, dst, l, r, bc, next, next);
    lemma_wide_constant(m1, js_int(1), o.m, e);
}

/// A bit operation is of the registers for the operands: see [`combines_bits`].
#[verifier::rlimit(40)]
pub proof fn bit_operations_use_their_registers(f: Frame, c: Code, kind: u8, dst: VR, lhs: VR, rhs: VR, bc: u32, e: Bits)
    requires
        starts(f, c, Operation::BitOp { kind, dst, lhs, rhs, bc }, e),
    ensures
        ({
            let o = f.op(c, Operation::BitOp { kind, dst, lhs, rhs, bc });
            let (m1, l) = c.m.create_block().get(f.var(lhs));
            let (m2, r) = m1.get(f.var(rhs));
            &&& goes_on(c, o)
            &&& combines_bits(f, m2, o.m, kind, dst, l, r, bc, c.m.next_block(), e)
        }),
{
    broadcast use crate::growth::group_grows;

    reveal(Frame::op);
    reveal(Frame::handler);
    reveal(Frame::bitop_registers);
    let op: OpView = Operation::BitOp { kind, dst, lhs, rhs, bc };
    let o = f.op(c, op);
    let (m, next) = c.m.new_block();
    lemma_next(f, c.m, op_cost(op));
    let (m1, l) = m.get(f.var(lhs));
    let (m2, r) = m1.get(f.var(rhs));
    assert(o.m == f.bitop(m2, kind, dst, l, r, bc, next).switch_to(next));
    lemma_combines_bits(f, m2, o.m, kind, dst, l, r, bc, next, next, e);
}

/// A bit operation with a constant is of the register for the operand and of the constant.
#[verifier::rlimit(40)]
pub proof fn constant_bit_operations_use_their_register(f: Frame, c: Code, kind: u8, dst: VR, lhs: VR, k: i32, bc: u32, e: Bits)
    requires
        starts(f, c, Operation::BitOpK { kind, dst, lhs, k, bc }, e),
    ensures
        ({
            let o = f.op(c, Operation::BitOpK { kind, dst, lhs, k, bc });
            let (m1, l) = c.m.create_block().get(f.var(lhs));
            let (m2, r) = m1.constant(Ty::I64, js_int(k));
            &&& goes_on(c, o)
            &&& e(r) == js_int(k) as u64
            &&& combines_bits(f, m2, o.m, kind, dst, l, r, bc, c.m.next_block(), e)
        }),
{
    broadcast use crate::growth::group_grows;

    reveal(Frame::op);
    reveal(Frame::handler);
    reveal(Frame::bitop_constant);
    let op: OpView = Operation::BitOpK { kind, dst, lhs, k, bc };
    let o = f.op(c, op);
    let (m, next) = c.m.new_block();
    lemma_next(f, c.m, op_cost(op));
    let (m1, l) = m.get(f.var(lhs));
    let (m2, r) = m1.constant(Ty::I64, js_int(k));
    assert(o.m == f.bitop(m2, kind, dst, l, r, bc, next).switch_to(next));
    lemma_combines_bits(f, m2, o.m, kind, dst, l, r, bc, next, next, e);
    lemma_bitop_grows(f, m2, kind, dst, l, r, bc, next, next);
    lemma_wide_constant(m1, js_int(k), o.m, e);
}

/// The code of an addition is appended.
proof fn lemma_add_values_grows(
    f: Frame,
    m: Clif,
    dst: VR,
    l: Value,
    r: Value,
    bc: u32,
    cont: Block,
    after: Block,
)
    requires
        begins(f, m, 60),
        is_register(dst, f.args.len(), f.locs.len()),
    ensures
        grows(m, f.add_values(m, dst, l, r, bc, cont).switch_to(after)),
{
    broadcast use {crate::growth::group_grows, crate::growth::group_pieces_grow};

    reveal(Frame::add_values);
    reveal(Frame::write_joined);
}

/// The code of a bit operation is appended.
proof fn lemma_bitop_grows(
    f: Frame,
    m: Clif,
    kind: u8,
    dst: VR,
    l: Value,
    r: Value,
    bc: u32,
    cont: Block,
    after: Block,
)
    requires
        begins(f, m, 60),
        is_register(dst, f.args.len(), f.locs.len()),
    ensures
        grows(m, f.bitop(m, kind, dst, l, r, bc, cont).switch_to(after)),
{
    broadcast use {crate::growth::group_grows, crate::growth::group_pieces_grow};

    reveal(Frame::bitop);
    reveal(Frame::write_joined);
}

/// A call passes the registers for the arguments, in their order, to the register for the
/// callee, with that for `this`: see [`dispatches_call`].
pub proof fn calls_use_their_registers(
    f: Frame,
    c: Code,
    dst: VR,
    callee: VR,
    this: VR,
    args: Seq<VR>,
    frame_size: i32,
    bc: u32,
    e: Bits,
)
    requires
        starts(f, c, Operation::Call { dst, callee, this, args, frame_size, bc }, e),
    ensures
        ({
            let o = f.op(c, Operation::Call { dst, callee, this, args, frame_size, bc });
            &&& goes_on(c, o)
            &&& dispatches_call(
                f,
                c.m.create_block(),
                o.m,
                dst,
                callee,
                this,
                args,
                frame_size,
                bc,
                c.m.next_block(),
                e,
            )
        }),
{
    reveal(Frame::op);
    reveal(Frame::handler);
    let op: OpView = Operation::Call { dst, callee, this, args, frame_size, bc };
    let (m, next) = c.m.new_block();
    lemma_next(f, c.m, op_cost(op));
    let n = f.call(m, dst, callee, this, args, frame_size, bc, next);
    assert(f.op(c, op).m == n.switch_to(next));
    assert(n.insts == n.switch_to(next).insts && n.values == n.switch_to(next).values) by {
        reveal(Clif::switch_to);
    }
    assert(respects(n, e));
    calls_write_the_frame_of_the_callee(f, m, dst, callee, this, args, frame_size, bc, next, e);
    lemma_dispatches_call(f, m, n, dst, callee, this, args, frame_size, bc, next, next, e);
}

/// The function once the label `id` has a block, and that block.
pub open spec fn labelled(c: Code, id: u32) -> (Clif, Block) {
    if c.labels.contains_key(id) {
        (c.m, c.labels[id])
    } else {
        (c.m.create_block(), c.m.next_block())
    }
}

/// The block of the label `id`, if it has one, takes nothing.
pub open spec fn label_fits(c: Code, id: u32) -> bool {
    c.labels.contains_key(id) ==> c.m.has_block(c.labels[id]) && c.m.info(
        c.labels[id],
    ).args.len() == 0
}

/// Control goes on in a new block unless it goes to that of the label `id`.
pub open spec fn branches_to(c: Code, o: Code, id: u32) -> bool {
    &&& o.m.current == Some(labelled(c, id).0.next_block())
    &&& o.labels == c.labels.insert(id, labelled(c, id).1)
}

/// What is known of the function once the blocks that a branch goes to are there.
proof fn lemma_both(f: Frame, c: Code, id: u32, n: nat)
    requires
        begins(f, c.m, n),
        n >= 2,
        label_fits(c, id),
    ensures
        ({
            let (p, t) = labelled(c, id);
            let (m, next) = p.new_block();
            &&& begins(f, m, (n - 2) as nat)
            &&& m.has_block(t)
            &&& m.has_block(next)
            &&& m.info(t).args.len() == 0
            &&& m.info(next).args.len() == 0
            &&& m.current == c.m.current
        }),
        c.label(id).1 == labelled(c, id).1,
        c.label(id).0.m == labelled(c, id).0,
        c.label(id).0.labels == c.labels.insert(id, labelled(c, id).1),
{
    if c.labels.contains_key(id) {
        assert(c.labels =~= c.labels.insert(id, c.labels[id]));
        lemma_next(f, c.m, n);
    } else {
        lemma_next(f, c.m, n);
        lemma_next(f, c.m.create_block(), (n - 1) as nat);
    }
}

/// Control goes to the label if the register is true.
#[verifier::rlimit(40)]
pub proof fn true_branches_use_their_register(f: Frame, c: Code, cond: VR, target: u32, e: Bits)
    requires
        starts(f, c, Operation::JTrue { cond, target }, e),
        label_fits(c, target),
    ensures
        ({
            let o = f.op(c, Operation::JTrue { cond, target });
            let (p, t) = labelled(c, target);
            let (m, next) = p.new_block();
            &&& branches_to(c, o, target)
            &&& branches_on_truth(f, m, o.m, cond, t, next, true, e)
        }),
{
    broadcast use crate::growth::group_grows;

    reveal(Frame::op);
    reveal(Frame::branch);
    let op: OpView = Operation::JTrue { cond, target };
    let o = f.op(c, op);
    let (p, t) = labelled(c, target);
    let (m, next) = p.new_block();
    lemma_both(f, c, target, op_cost(op));
    lemma_branches_on_truth(f, m, o.m, cond, t, next, true, next, e);
}

/// Control goes to the label if the register is false.
#[verifier::rlimit(40)]
pub proof fn false_branches_use_their_register(f: Frame, c: Code, cond: VR, target: u32, e: Bits)
    requires
        starts(f, c, Operation::JFalse { cond, target }, e),
        label_fits(c, target),
    ensures
        ({
            let o = f.op(c, Operation::JFalse { cond, target });
            let (p, t) = labelled(c, target);
            let (m, next) = p.new_block();
            &&& branches_to(c, o, target)
            &&& branches_on_truth(f, m, o.m, cond, t, next, false, e)
        }),
{
    broadcast use crate::growth::group_grows;

    reveal(Frame::op);
    reveal(Frame::branch);
    let op: OpView = Operation::JFalse { cond, target };
    let o = f.op(c, op);
    let (p, t) = labelled(c, target);
    let (m, next) = p.new_block();
    lemma_both(f, c, target, op_cost(op));
    lemma_branches_on_truth(f, m, o.m, cond, t, next, false, next, e);
}

/// Control goes to the label if the register is null or undefined.
#[verifier::rlimit(40)]
pub proof fn null_branches_use_their_register(f: Frame, c: Code, v: VR, target: u32, e: Bits)
    requires
        starts(f, c, Operation::JEqNull { v, target }, e),
        label_fits(c, target),
    ensures
        ({
            let o = f.op(c, Operation::JEqNull { v, target });
            let (p, t) = labelled(c, target);
            let (m, next) = p.new_block();
            &&& branches_to(c, o, target)
            &&& goes(
                o.m,
                e,
                m.current->0,
                if is_nullish(e(m.value_of(f.var(v)))) {
                    t
                } else {
                    next
                },
                seq![],
            )
        }),
{
    broadcast use crate::growth::group_grows;

    reveal(Frame::op);
    reveal(Frame::branch);
    let op: OpView = Operation::JEqNull { v, target };
    let o = f.op(c, op);
    let (p, t) = labelled(c, target);
    let (m, next) = p.new_block();
    lemma_both(f, c, target, op_cost(op));
    let n = f.jnullish(m, v, t, next, false);
    assert(n.insts == o.m.insts && n.values == o.m.values) by {
        reveal(Clif::switch_to);
    }
    assert(respects(n, e));
    branches_on_null_are_direct(f, m, v, t, next, false, e);
}

/// Control goes to the label unless the register is null or undefined.
#[verifier::rlimit(40)]
pub proof fn other_than_null_branches_use_their_register(f: Frame, c: Code, v: VR, target: u32, e: Bits)
    requires
        starts(f, c, Operation::JNEqNull { v, target }, e),
        label_fits(c, target),
    ensures
        ({
            let o = f.op(c, Operation::JNEqNull { v, target });
            let (p, t) = labelled(c, target);
            let (m, next) = p.new_block();
            &&& branches_to(c, o, target)
            &&& goes(
                o.m,
                e,
                m.current->0,
                if is_nullish(e(m.value_of(f.var(v)))) {
                    next
                } else {
                    t
                },
                seq![],
            )
        }),
{
    broadcast use crate::growth::group_grows;

    reveal(Frame::op);
    reveal(Frame::branch);
    let op: OpView = Operation::JNEqNull { v, target };
    let o = f.op(c, op);
    let (p, t) = labelled(c, target);
    let (m, next) = p.new_block();
    lemma_both(f, c, target, op_cost(op));
    let n = f.jnullish(m, v, t, next, true);
    assert(n.insts == o.m.insts && n.values == o.m.values) by {
        reveal(Clif::switch_to);
    }
    assert(respects(n, e));
    branches_on_null_are_direct(f, m, v, t, next, true, e);
}

/// Control goes to the label if the registers are strictly equal.
#[verifier::rlimit(40)]
pub proof fn equality_branches_use_their_registers(f: Frame, c: Code, lhs: VR, rhs: VR, target: u32, e: Bits)
    requires
        starts(f, c, Operation::JStrictEq { lhs, rhs, target }, e),
        label_fits(c, target),
    ensures
        ({
            let o = f.op(c, Operation::JStrictEq { lhs, rhs, target });
            let (p, t) = labelled(c, target);
            let (m, next) = p.new_block();
            let (m1, l) = m.get(f.var(lhs));
            let (m2, r) = m1.get(f.var(rhs));
            &&& branches_to(c, o, target)
            &&& compares_strictly(f, m2, o.m, l, r, t, next, false, e)
        }),
{
    broadcast use crate::growth::group_grows;

    reveal(Frame::op);
    reveal(Frame::branch);
    reveal(Frame::jstricteq_registers);
    let op: OpView = Operation::JStrictEq { lhs, rhs, target };
    let o = f.op(c, op);
    let (p, t) = labelled(c, target);
    let (m, next) = p.new_block();
    lemma_both(f, c, target, op_cost(op));
    let (m1, l) = m.get(f.var(lhs));
    let (m2, r) = m1.get(f.var(rhs));
    assert(o.m == f.jstricteq(m2, l, r, t, next, false).switch_to(next));
    lemma_compares_strictly(f, m2, o.m, l, r, t, next, false, next, e);
}

/// Control goes to the label unless the registers are strictly equal.
#[verifier::rlimit(40)]
pub proof fn inequality_branches_use_their_registers(f: Frame, c: Code, lhs: VR, rhs: VR, target: u32, e: Bits)
    requires
        starts(f, c, Operation::JNStrictEq { lhs, rhs, target }, e),
        label_fits(c, target),
    ensures
        ({
            let o = f.op(c, Operation::JNStrictEq { lhs, rhs, target });
            let (p, t) = labelled(c, target);
            let (m, next) = p.new_block();
            let (m1, l) = m.get(f.var(lhs));
            let (m2, r) = m1.get(f.var(rhs));
            &&& branches_to(c, o, target)
            &&& compares_strictly(f, m2, o.m, l, r, t, next, true, e)
        }),
{
    broadcast use crate::growth::group_grows;

    reveal(Frame::op);
    reveal(Frame::branch);
    reveal(Frame::jstricteq_registers);
    let op: OpView = Operation::JNStrictEq { lhs, rhs, target };
    let o = f.op(c, op);
    let (p, t) = labelled(c, target);
    let (m, next) = p.new_block();
    lemma_both(f, c, target, op_cost(op));
    let (m1, l) = m.get(f.var(lhs));
    let (m2, r) = m1.get(f.var(rhs));
    assert(o.m == f.jstricteq(m2, l, r, t, next, true).switch_to(next));
    lemma_compares_strictly(f, m2, o.m, l, r, t, next, true, next, e);
}

/// Control goes to the label if the register is strictly equal to the constant.
#[verifier::rlimit(40)]
pub proof fn constant_equality_branches_use_their_register(f: Frame, c: Code, lhs: VR, k: i64, target: u32, e: Bits)
    requires
        starts(f, c, Operation::JStrictEqK { lhs, k, target }, e),
        label_fits(c, target),
    ensures
        ({
            let o = f.op(c, Operation::JStrictEqK { lhs, k, target });
            let (p, t) = labelled(c, target);
            let (m, next) = p.new_block();
            let (m1, l) = m.get(f.var(lhs));
            let (m2, r) = m1.constant(Ty::I64, k);
            &&& branches_to(c, o, target)
            &&& e(r) == k as u64
            &&& compares_strictly(f, m2, o.m, l, r, t, next, false, e)
        }),
{
    broadcast use crate::growth::group_grows;

    reveal(Frame::op);
    reveal(Frame::branch);
    reveal(Frame::jstricteq_constant);
    let op: OpView = Operation::JStrictEqK { lhs, k, target };
    let o = f.op(c, op);
    let (p, t) = labelled(c, target);
    let (m, next) = p.new_block();
    lemma_both(f, c, target, op_cost(op));
    let (m1, l) = m.get(f.var(lhs));
    let (m2, r) = m1.constant(Ty::I64, k);
    assert(o.m == f.jstricteq(m2, l, r, t, next, false).switch_to(next));
    lemma_compares_strictly(f, m2, o.m, l, r, t, next, false, next, e);
    lemma_jstricteq_grows(f, m2, l, r, t, next, false, next);
    lemma_wide_constant(m1, k, o.m, e);
}

/// Control goes to the label unless the register is strictly equal to the constant.
#[verifier::rlimit(40)]
pub proof fn constant_inequality_branches_use_their_register(f: Frame, c: Code, lhs: VR, k: i64, target: u32, e: Bits)
    requires
        starts(f, c, Operation::JNStrictEqK { lhs, k, target }, e),
        label_fits(c, target),
    ensures
        ({
            let o = f.op(c, Operation::JNStrictEqK { lhs, k, target });
            let (p, t) = labelled(c, target);
            let (m, next) = p.new_block();
            let (m1, l) = m.get(f.var(lhs));
            let (m2, r) = m1.constant(Ty::I64, k);
            &&& branches_to(c, o, target)
            &&& e(r) == k as u64
            &&& compares_strictly(f, m2, o.m, l, r, t, next, true, e)
        }),
{
    broadcast use crate::growth::group_grows;

    reveal(Frame::op);
    reveal(Frame::branch);
    reveal(Frame::jstricteq_constant);
    let op: OpView = Operation::JNStrictEqK { lhs, k, target };
    let o = f.op(c, op);
    let (p, t) = labelled(c, target);
    let (m, next) = p.new_block();
    lemma_both(f, c, target, op_cost(op));
    let (m1, l) = m.get(f.var(lhs));
    let (m2, r) = m1.constant(Ty::I64, k);
    assert(o.m == f.jstricteq(m2, l, r, t, next, true).switch_to(next));
    lemma_compares_strictly(f, m2, o.m, l, r, t, next, true, next, e);
    lemma_jstricteq_grows(f, m2, l, r, t, next, true, next);
    lemma_wide_constant(m1, k, o.m, e);
}

/// Control goes to the label if the first register is less than the second.
#[verifier::rlimit(40)]
pub proof fn less_branches_use_their_registers(f: Frame, c: Code, lhs: VR, rhs: VR, target: u32, bc: u32, e: Bits)
    requires
        starts(f, c, Operation::JLess { lhs, rhs, target, bc }, e),
        label_fits(c, target),
    ensures
        ({
            let o = f.op(c, Operation::JLess { lhs, rhs, target, bc });
            let (p, t) = labelled(c, target);
            let (m, next) = p.new_block();
            &&& branches_to(c, o, target)
            &&& compares_numbers(f, m, o.m, lhs, rhs, t, next, false, bc, e)
        }),
{
    broadcast use crate::growth::group_grows;

    reveal(Frame::op);
    reveal(Frame::branch);
    let op: OpView = Operation::JLess { lhs, rhs, target, bc };
    let o = f.op(c, op);
    let (p, t) = labelled(c, target);
    let (m, next) = p.new_block();
    lemma_both(f, c, target, op_cost(op));
    lemma_compares_numbers(f, m, o.m, lhs, rhs, t, next, false, bc, next, e);
}

/// Control goes to the label unless the first register is less than the second.
#[verifier::rlimit(40)]
pub proof fn not_less_branches_use_their_registers(f: Frame, c: Code, lhs: VR, rhs: VR, target: u32, bc: u32, e: Bits)
    requires
        starts(f, c, Operation::JNLess { lhs, rhs, target, bc }, e),
        label_fits(c, target),
    ensures
        ({
            let o = f.op(c, Operation::JNLess { lhs, rhs, target, bc });
            let (p, t) = labelled(c, target);
            let (m, next) = p.new_block();
            &&& branches_to(c, o, target)
            &&& compares_numbers(f, m, o.m, lhs, rhs, t, next, true, bc, e)
        }),
{
    broadcast use crate::growth::group_grows;

    reveal(Frame::op);
    reveal(Frame::branch);
    let op: OpView = Operation::JNLess { lhs, rhs, target, bc };
    let o = f.op(c, op);
    let (p, t) = labelled(c, target);
    let (m, next) = p.new_block();
    lemma_both(f, c, target, op_cost(op));
    lemma_compares_numbers(f, m, o.m, lhs, rhs, t, next, true, bc, next, e);
}

/// The code of a comparison is appended.
proof fn lemma_jstricteq_grows(
    f: Frame,
    m: Clif,
    l: Value,
    r: Value,
    target: Block,
    fallthru: Block,
    invert: bool,
    after: Block,
)
    requires
        begins(f, m, 60),
    ensures
        grows(m, f.jstricteq(m, l, r, target, fallthru, invert).switch_to(after)),
{
    broadcast use {crate::growth::group_grows, crate::growth::group_pieces_grow};

    reveal(Frame::jstricteq);
}

/// A move gives the second register's value to the first one, and nothing else happens.
pub proof fn moves_copy_registers(f: Frame, c: Code, d: VR, s: VR, e: Bits)
    requires
        starts(f, c, Operation::Mov(d, s), e),
    ensures
        ({
            let o = f.op(c, Operation::Mov(d, s));
            let b = c.m.current->0;
            &&& o.m.current == c.m.current && o.labels == c.labels
            &&& o.m.insts == c.m.insts
            &&& o.m.defs == c.m.defs.insert(
                (f.var(s), b),
                c.m.value_of(f.var(s)),
            ).insert((f.var(d), b), c.m.value_of(f.var(s)))
        }),
{
    reveal(Frame::op);
    reveal(Frame::straight);
    reveal(Frame::mov);
    reveal(Clif::use_var);
    reveal(Clif::value_of);
    reveal(Clif::def_var);
    let b = c.m.current->0;
    assert(c.m.begun().next() == c.m.next());
    let o = f.op(c, Operation::Mov(d, s));
    assert(o.m.defs =~= c.m.defs.insert((f.var(s), b), c.m.value_of(f.var(s))).insert(
        (f.var(d), b),
        c.m.value_of(f.var(s)),
    ));
}

/// A move of a constant gives it to the register.
pub proof fn constants_are_moved(f: Frame, c: Code, d: VR, k: i64, e: Bits)
    requires
        starts(f, c, Operation::MovK(d, k), e),
    ensures
        ({
            let o = f.op(c, Operation::MovK(d, k));
            let b = c.m.current->0;
            &&& o.m.current == c.m.current && o.labels == c.labels
            &&& o.m.defs == c.m.defs.insert((f.var(d), b), o.m.defs[(f.var(d), b)])
            &&& e(o.m.defs[(f.var(d), b)]) == k as u64
            &&& o.m.insts.len() == c.m.insts.len() + 1
        }),
{
    broadcast use crate::growth::group_grows;

    reveal(Frame::op);
    reveal(Frame::straight);
    reveal(Frame::mov_constant);
    let o = f.op(c, Operation::MovK(d, k));
    let m1 = c.m.constant(Ty::I64, k).0;
    assert(o.m == m1.def_var(f.var(d), c.m.next()));
    lemma_wide_constant(c.m, k, o.m, e);
    reveal(Clif::push);
    reveal(Clif::def_var);
    assert(o.m.defs =~= c.m.defs.insert((f.var(d), c.m.current->0), c.m.next()));
}

/// A test against null writes a boolean to the register for the result.
pub proof fn null_tests_use_their_registers(f: Frame, c: Code, dst: VR, src: VR, e: Bits)
    requires
        starts(f, c, Operation::NeqNull { dst, src }, e),
    ensures
        ({
            let o = f.op(c, Operation::NeqNull { dst, src });
            let b = c.m.current->0;
            &&& o.m.current == c.m.current && o.labels == c.labels
            &&& o.m.defs.contains_key((f.var(dst), b))
            &&& e(o.m.defs[(f.var(dst), b)]) == if is_nullish(e(c.m.value_of(f.var(src)))) {
                JS_FALSE as u64
            } else {
                JS_TRUE as u64
            }
        }),
{
    broadcast use {crate::growth::group_grows, crate::growth::group_pieces_grow};

    reveal(Frame::op);
    reveal(Frame::straight);
    neq_null_writes_a_boolean(f, c.m, dst, src, e);
    assert(f.neq_null(c.m, dst, src).current == c.m.current) by {
        reveal(Frame::neq_null);
        reveal(Clif::def_var);
    }
}

/// The block that a return stands in returns the value of a register.
pub proof fn returns_use_their_register(f: Frame, c: Code, r: VR, e: Bits)
    requires
        starts(f, c, Operation::Ret(Some(r)), e),
    ensures
        stands(
            f.op(c, Operation::Ret(Some(r))).m,
            c.m.current->0,
            Inst::Return { args: seq![c.m.value_of(f.var(r))] },
        ),
        f.op(c, Operation::Ret(Some(r))).m.insts.len() == c.m.insts.len() + 1,
{
    broadcast use crate::growth::group_grows;

    reveal(Frame::op);
    reveal(Frame::leave);
    reveal(Frame::ret);
    let (m, v) = c.m.get(f.var(r));
    let back = Inst::Return { args: seq![v] };
    grows_refl(m.push(back));
    lemma_stands(m, back, m.push(back));
    reveal(Clif::push);
    reveal(Clif::use_var);
}

/// The block returns a value with the bits `k`.
pub open spec fn returns_bits(n: Clif, e: Bits, b: Block, k: i64) -> bool {
    exists|v: Value| #[trigger] stands(n, b, Inst::Return { args: seq![v] }) && e(v) == k as u64
}

/// A return of a constant returns it, and one without a value returns undefined.
pub proof fn constants_are_returned(f: Frame, c: Code, op: OpView, k: i64, e: Bits)
    requires
        starts(f, c, op, e),
        op == OpView::RetK(k) || op == OpView::Ret(None) && k == JS_UNDEFINED,
    ensures
        returns_bits(f.op(c, op).m, e, c.m.current->0, k),
        f.op(c, op).m.insts.len() == c.m.insts.len() + 2,
{
    broadcast use crate::growth::group_grows;

    reveal(Frame::op);
    reveal(Frame::leave);
    reveal(Frame::ret_constant);
    let (m, v) = c.m.constant(Ty::I64, k);
    let back = Inst::Return { args: seq![v] };
    let n = m.push(back);
    assert(f.op(c, op).m == n);
    grows_refl(n);
    lemma_stands(m, back, n);
    lemma_wide_constant(c.m, k, n, e);
    assert(stands(n, c.m.current->0, back));
    reveal(Clif::push);
}

/// A jump goes to the block of its label.
pub proof fn jumps_go_to_their_label(f: Frame, c: Code, id: u32, e: Bits)
    requires
        starts(f, c, Operation::Jmp(id), e),
        label_fits(c, id),
    ensures
        ({
            let o = f.op(c, Operation::Jmp(id));
            let t = labelled(c, id).1;
            &&& o.labels == c.labels.insert(id, t)
            &&& goes(o.m, e, c.m.current->0, t, seq![])
            &&& o.m.insts.len() == c.m.insts.len() + 1
        }),
{
    broadcast use crate::growth::group_grows;

    reveal(Frame::op);
    let (m, t) = labelled(c, id);
    lemma_both(f, c, id, op_cost(Operation::Jmp(id)));
    let jump = Inst::Jump { to: t, args: seq![] };
    let n = m.push(jump);
    assert(f.op(c, Operation::Jmp(id)).m == n);
    grows_refl(n);
    lemma_goes_pushed(m, jump, n, e);
    reveal(Clif::push);
    reveal(Clif::create_block);
}

/// A label goes on in its block. Control runs into it if the block before is open.
pub proof fn labels_begin_their_block(f: Frame, c: Code, id: u32, e: Bits)
    requires
        c.m.current is Some,
        c.m.has_block(c.m.current->0),
        label_fits(c, id),
        c.m.blocks.len() + 1 < u32::MAX,
    ensures
        ({
            let o = f.op(c, Operation::Label(id));
            let t = labelled(c, id).1;
            &&& o.labels == c.labels.insert(id, t)
            &&& o.m.current == Some(t)
            &&& if c.m.info(c.m.current->0).status is Filled {
                o.m.insts == c.m.insts
            } else {
                &&& goes(o.m, e, c.m.current->0, t, seq![])
                &&& o.m.insts.len() == c.m.insts.len() + 1
            }
        }),
{
    broadcast use crate::growth::group_grows;

    reveal(Frame::op);
    let (m, t) = labelled(c, id);
    if c.labels.contains_key(id) {
        assert(c.labels =~= c.labels.insert(id, c.labels[id]));
    }
    assert(m.info(m.current->0).status == c.m.info(c.m.current->0).status && m.current
        == c.m.current && m.insts == c.m.insts && m.has_block(m.current->0)) by {
        reveal(Clif::create_block);
    }
    let o = f.op(c, Operation::Label(id));
    if !(c.m.info(c.m.current->0).status is Filled) {
        let jump = Inst::Jump { to: t, args: seq![] };
        assert(o.m == m.push(jump).switch_to(t));
        lemma_goes_pushed(m, jump, o.m, e);
        reveal(Clif::push);
    }
    reveal(Clif::switch_to);
}

/// Where a function is entered and where a loop begins, nothing is emitted.
pub proof fn hints_are_not_code(f: Frame, c: Code, op: OpView)
    requires
        op == OpView::Enter || op == OpView::LoopHint,
    ensures
        f.op(c, op) == c,
{
    reveal(Frame::op);
}

} // verus!
