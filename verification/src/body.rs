//! The code of a sequence of bytecode operations.
use crate::builder::{create_block, current_block, is_terminator, last_inst, switch_to_block};
use crate::bytecode::{bound, falls_through, ops_ok, Op, OpView, Operation, JS_UNDEFINED};
use crate::clif::{lemma_last_inst, Block, Clif};
use crate::emit::{goto, Emit};
use crate::handlers::{
    emit_add_constant, emit_add_registers, emit_bitop_constant, emit_bitop_registers, emit_call,
    emit_check_traps, emit_get_by_id, emit_get_by_val, emit_get_from_scope, emit_get_length,
    emit_inc, emit_jbool, emit_jless, emit_jnullish, emit_jstricteq_constant,
    emit_jstricteq_registers, emit_mov, emit_mov_constant, emit_neq_null, emit_put_by_id,
    emit_put_by_val, emit_put_to_scope, emit_resolve_scope, emit_ret, emit_ret_constant,
    emit_to_this,
};
use crate::template::Frame;
use vstd::prelude::*;

verus! {

broadcast use {
    crate::clif::group_clif,
    crate::template::group_frame,
    vstd::std_specs::hash::group_hash_axioms,
};

/// A function under construction, and the block of each label named so far.
#[verifier::ext_equal]
pub struct Code {
    pub m: Clif,
    pub labels: Map<u32, Block>,
}

impl Code {
    /// The block of a label. One is made where the label is named for the first time.
    pub open spec fn label(self, id: u32) -> (Code, Block) {
        if self.labels.contains_key(id) {
            (self, self.labels[id])
        } else {
            (
                Code {
                    m: self.m.create_block(),
                    labels: self.labels.insert(id, self.m.next_block()),
                },
                self.m.next_block(),
            )
        }
    }

    /// The same labels with another function.
    #[verifier::inline]
    pub open spec fn with(self, m: Clif) -> Code {
        Code { m, ..self }
    }
}

/// An operation without control flow.
pub open spec fn is_straight(op: OpView) -> bool {
    op is Mov || op is MovK || op is NeqNull
}

impl Frame {
    /// The code of an operation without control flow.
    #[verifier::opaque]
    pub open spec fn straight(self, m: Clif, op: OpView) -> Clif {
        match op {
            Operation::Mov(d, s) => self.mov(m, d, s),
            Operation::MovK(d, k) => self.mov_constant(m, d, k),
            Operation::NeqNull { dst, src } => self.neq_null(m, dst, src),
            _ => m,
        }
    }

    /// The code of a return.
    #[verifier::opaque]
    pub open spec fn leave(self, m: Clif, op: OpView) -> Clif {
        match op {
            Operation::Ret(Some(r)) => self.ret(m, r),
            Operation::Ret(None) => self.ret_constant(m, JS_UNDEFINED),
            Operation::RetK(k) => self.ret_constant(m, k),
            _ => m,
        }
    }

    /// The code of a conditional branch to `t`, or else to `f`.
    #[verifier::opaque]
    pub open spec fn branch(self, m: Clif, op: OpView, t: Block, f: Block) -> Clif {
        match op {
            Operation::JTrue { cond, .. } => self.jbool(m, cond, t, f, true),
            Operation::JFalse { cond, .. } => self.jbool(m, cond, t, f, false),
            Operation::JEqNull { v, .. } => self.jnullish(m, v, t, f, false),
            Operation::JNEqNull { v, .. } => self.jnullish(m, v, t, f, true),
            Operation::JStrictEq { lhs, rhs, .. } => self.jstricteq_registers(
                m,
                lhs,
                rhs,
                t,
                f,
                false,
            ),
            Operation::JNStrictEq { lhs, rhs, .. } => self.jstricteq_registers(
                m,
                lhs,
                rhs,
                t,
                f,
                true,
            ),
            Operation::JStrictEqK { lhs, k, .. } => self.jstricteq_constant(
                m,
                lhs,
                k,
                t,
                f,
                false,
            ),
            Operation::JNStrictEqK { lhs, k, .. } => self.jstricteq_constant(
                m,
                lhs,
                k,
                t,
                f,
                true,
            ),
            Operation::JLess { lhs, rhs, bc, .. } => self.jless(m, lhs, rhs, t, f, false, bc),
            Operation::JNLess { lhs, rhs, bc, .. } => self.jless(m, lhs, rhs, t, f, true, bc),
            _ => m,
        }
    }

    /// The code of an operation that goes on to `next`.
    #[verifier::opaque]
    pub open spec fn handler(self, m: Clif, op: OpView, next: Block) -> Clif {
        match op {
            Operation::ToThis => self.to_this(m, next),
            Operation::CheckTraps { bc } => self.check_traps(m, bc, next),
            Operation::GetById { dst, base, md_off, ident, bc } => self.get_by_id(
                m,
                dst,
                base,
                md_off,
                ident,
                bc,
                next,
            ),
            Operation::PutById { base, val, md_off, ident, bc } => self.put_by_id(
                m,
                base,
                val,
                md_off,
                ident,
                bc,
                next,
            ),
            Operation::GetByVal { dst, base, idx, bc } => self.get_by_val(
                m,
                dst,
                base,
                idx,
                bc,
                next,
            ),
            Operation::PutByVal { base, idx, val, bc } => self.put_by_val(
                m,
                base,
                idx,
                val,
                bc,
                next,
            ),
            Operation::GetLength { dst, base, bc } => self.get_length(m, dst, base, bc, next),
            Operation::Add { dst, lhs, rhs, bc } => self.add_registers(
                m,
                dst,
                lhs,
                rhs,
                bc,
                next,
            ),
            Operation::AddK { dst, lhs, k, bc } => self.add_constant(m, dst, lhs, k, bc, next),
            Operation::Inc { dst, bc } => self.inc(m, dst, bc, next),
            Operation::BitOp { kind, dst, lhs, rhs, bc } => self.bitop_registers(
                m,
                kind,
                dst,
                lhs,
                rhs,
                bc,
                next,
            ),
            Operation::BitOpK { kind, dst, lhs, k, bc } => self.bitop_constant(
                m,
                kind,
                dst,
                lhs,
                k,
                bc,
                next,
            ),
            Operation::ResolveScope { dst, scope, md_off, bc } => self.resolve_scope(
                m,
                dst,
                scope,
                md_off,
                bc,
                next,
            ),
            Operation::GetFromScope { dst, scope, md_off, bc } => self.get_from_scope(
                m,
                dst,
                scope,
                md_off,
                bc,
                next,
            ),
            Operation::PutToScope { scope, val, md_off, bc } => self.put_to_scope(
                m,
                scope,
                val,
                md_off,
                bc,
                next,
            ),
            Operation::Call { dst, callee, this, args, frame_size, bc } => self.call(
                m,
                dst,
                callee,
                this,
                args,
                frame_size,
                bc,
                next,
            ),
            _ => m,
        }
    }

    /// The code of an operation. A label begins a block, which control runs into unless the
    /// block before it is ended; an operation with a fast and a slow path goes on to a
    /// block of its own.
    #[verifier::opaque]
    pub open spec fn op(self, c: Code, op: OpView) -> Code {
        if op.is_silent() {
            c
        } else if op is Label {
            let (c, b) = c.label(op->Label_0);
            if c.m.info(c.m.current->0).status is Filled {
                c.with(c.m.switch_to(b))
            } else {
                c.with(c.m.goto(b).switch_to(b))
            }
        } else if op is Jmp {
            let (c, b) = c.label(op->Jmp_0);
            c.with(c.m.goto(b))
        } else if op.is_stop() {
            c.with(self.leave(c.m, op))
        } else if is_straight(op) {
            c.with(self.straight(c.m, op))
        } else if op.target() is Some {
            let (c, t) = c.label(op.target()->0);
            let (m, f) = c.m.new_block();
            c.with(self.branch(m, op, t, f).switch_to(f))
        } else {
            let (m, next) = c.m.new_block();
            c.with(self.handler(m, op, next).switch_to(next))
        }
    }

    /// The code of the operations, one after the other.
    pub open spec fn ops(self, c: Code, ops: Seq<OpView>) -> Code
        decreases ops.len(),
    {
        if ops.len() == 0 {
            c
        } else {
            self.op(self.ops(c, ops.drop_last()), ops.last())
        }
    }
}

/// At least as many values, instructions and blocks as the code of an operation adds.
pub open spec fn op_cost(op: OpView) -> nat {
    match op {
        Operation::Call { args, .. } => 70 + 2 * args.len(),
        _ => 70,
    }
}

/// At least as many values, instructions and blocks as the code of the operations adds.
pub open spec fn ops_cost(ops: Seq<OpView>) -> nat
    decreases ops.len(),
{
    if ops.len() == 0 {
        0
    } else {
        ops_cost(ops.drop_last()) + op_cost(ops.last())
    }
}

/// The label that an operation names.
pub open spec fn named(op: OpView) -> Option<u32> {
    match op {
        Operation::Label(id) => Some(id),
        _ => op.target(),
    }
}

impl Code {
    /// What the code of `op` leaves behind: the block that was current is ended or still
    /// current; the other blocks are as they were; all new blocks are ended but for the
    /// current one and that of a label named for the first time; and the current block is
    /// ended exactly by jumps and returns.
    pub open spec fn stepped_to(self, to: Code, op: OpView) -> bool {
        let m = self.m;
        let n = to.m;
        let b = m.current->0;
        let id = named(op)->0;
        &&& n.wf()
        &&& n.setup == m.setup
        &&& n.current is Some
        &&& n.has_block(n.current->0)
        &&& m.blocks.len() <= n.blocks.len()
        &&& forall|i: int|
            0 <= i < m.blocks.len() && i != b.id ==> #[trigger] n.blocks[i] == m.blocks[i]
        &&& n.info(b).args == m.info(b).args
        &&& n.info(b).cold == m.info(b).cold
        &&& n.current->0 == b || n.info(b).status is Filled
        &&& if named(op) is None || self.labels.contains_key(id) {
            to.labels == self.labels
        } else {
            let l = to.labels[id];
            &&& to.labels == self.labels.insert(id, l)
            &&& l.id >= m.blocks.len()
            &&& n.has_block(l)
            &&& n.info(l).args.len() == 0
            &&& n.info(l).status is Empty
        }
        &&& forall|i: int|
            m.blocks.len() <= i < n.blocks.len() ==> (#[trigger] n.blocks[i]).status is Filled || i
                == n.current->0.id || (named(op) is Some && i == to.labels[id].id)
        &&& if op is Label {
            n.current->0 == to.labels[id]
        } else {
            n.current->0 == b || n.current->0.id >= m.blocks.len() && (named(op) is Some
                ==> n.current->0 != to.labels[id])
        }
        &&& if op.is_silent() {
            n == m
        } else {
            n.info(n.current->0).status is Filled <==> op.is_stop()
        }
    }
}

impl<'a> Emit<'a> {
    /// The function and the labels.
    pub open spec fn code(&self) -> Code {
        Code { m: self.clif(), labels: self.labels@ }
    }

    /// A label that is already named has a block that takes no arguments.
    pub open spec fn label_ok(&self, id: u32) -> bool {
        self.labels@.contains_key(id) ==> {
            &&& self.clif().has_block(self.labels@[id])
            &&& self.clif().info(self.labels@[id]).args.len() == 0
        }
    }

    /// The code of `op` can be emitted.
    pub open spec fn takes_op(&self, op: OpView) -> bool {
        let m = self.clif();
        &&& m.wf()
        &&& m.current is Some
        &&& m.has_block(m.current->0)
        &&& m.room(op_cost(op))
        &&& self.frame().fits(m)
        &&& op.ok(self.args@.len(), self.locs@.len())
        &&& !op.is_silent() && op !is Label ==> m.writable()
        &&& named(op) is Some ==> self.label_ok(named(op)->0)
        &&& op is Label && self.labels@.contains_key(named(op)->0) ==> {
            &&& m.info(self.labels@[named(op)->0]).status !is Filled
            &&& self.labels@[named(op)->0] != m.current->0
        }
    }

    /// The block of a label.
    pub(crate) fn label(&mut self, id: u32) -> (b: Block)
        requires
            old(self).clif().room(1),
            !old(self).clif().setup.sealed,
        ensures
            old(self).frame() == final(self).frame(),
            (final(self).code(), b) == old(self).code().label(id),
    {
        match self.labels.get(&id) {
            Some(b) => {
                return *b;
            },
            None => {},
        }
        let b = create_block(&mut self.b);
        self.labels.insert(id, b);
        b
    }
}

/// Begins the block of a label. Control runs into it unless the block before it is ended.
fn emit_label(e: &mut Emit, id: u32)
    requires
        old(e).takes_op(OpView::Label(id)),
    ensures
        old(e).frame() == final(e).frame(),
        final(e).code() == old(e).frame().op(old(e).code(), OpView::Label(id)),
        old(e).code().stepped_to(final(e).code(), OpView::Label(id)),
        old(e).clif().within(final(e).clif(), 70),
        old(e).orderly() ==> final(e).orderly(),
{
    proof {
        reveal(Frame::op);
    }
    let blk = e.label(id);
    let needs_jump = match current_block(&e.b) {
        Some(cur) => {
            let last = last_inst(&e.b, cur);
            proof {
                lemma_last_inst(e.clif(), cur, last);
            }
            match last {
                Some(inst) => !is_terminator(&e.b, inst),
                None => true,
            }
        },
        None => false,
    };
    if needs_jump {
        goto(&mut e.b, blk);
    }
    switch_to_block(&mut e.b, blk);
}

/// An operation without control flow.
fn emit_straight(e: &mut Emit, op: &Op)
    requires
        is_straight(op@),
        old(e).takes_op(op@),
    ensures
        old(e).same_frame(final(e)),
        final(e).clif() == old(e).frame().straight(old(e).clif(), op@),
        old(e).clif().continued_in(final(e).clif()),
        old(e).clif().within(final(e).clif(), 64),
        old(e).orderly() ==> final(e).orderly(),
{
    proof {
        reveal(Frame::straight);
    }
    match op {
        Operation::Mov(d, s) => emit_mov(e, *d, *s),
        Operation::MovK(d, k) => emit_mov_constant(e, *d, *k),
        Operation::NeqNull { dst, src } => emit_neq_null(e, *dst, *src),
        _ => {},
    }
}

/// A return.
fn emit_leave(e: &mut Emit, op: &Op)
    requires
        op@ is Ret || op@ is RetK,
        old(e).takes_op(op@),
    ensures
        old(e).same_frame(final(e)),
        final(e).clif() == old(e).frame().leave(old(e).clif(), op@),
        old(e).clif().finished_in(final(e).clif()),
        final(e).clif().current == old(e).clif().current,
        final(e).clif().blocks.len() == old(e).clif().blocks.len(),
        old(e).clif().within(final(e).clif(), 64),
        old(e).orderly() ==> final(e).orderly(),
{
    proof {
        reveal(Frame::leave);
    }
    match op {
        Operation::Ret(Some(r)) => emit_ret(e, *r),
        Operation::Ret(None) => emit_ret_constant(e, JS_UNDEFINED),
        Operation::RetK(k) => emit_ret_constant(e, *k),
        _ => {},
    }
}

/// A conditional branch.
fn emit_branch(e: &mut Emit, op: &Op, t: Block, f: Block)
    requires
        op@.target() is Some && op@ !is Jmp,
        old(e).ready(64),
        op@.ok(old(e).args@.len(), old(e).locs@.len()),
        old(e).clif().has_block(t),
        old(e).clif().info(t).args.len() == 0,
        old(e).clif().has_block(f),
        old(e).clif().info(f).args.len() == 0,
    ensures
        old(e).same_frame(final(e)),
        final(e).clif() == old(e).frame().branch(old(e).clif(), op@, t, f),
        old(e).clif().finished_in(final(e).clif()),
        old(e).clif().within(final(e).clif(), 64),
        old(e).orderly() ==> final(e).orderly(),
{
    proof {
        reveal(Frame::branch);
    }
    match op {
        Operation::JTrue { cond, .. } => emit_jbool(e, *cond, t, f, true),
        Operation::JFalse { cond, .. } => emit_jbool(e, *cond, t, f, false),
        Operation::JEqNull { v, .. } => emit_jnullish(e, *v, t, f, false),
        Operation::JNEqNull { v, .. } => emit_jnullish(e, *v, t, f, true),
        Operation::JStrictEq { lhs, rhs, .. } => emit_jstricteq_registers(
            e,
            *lhs,
            *rhs,
            t,
            f,
            false,
        ),
        Operation::JNStrictEq { lhs, rhs, .. } => emit_jstricteq_registers(
            e,
            *lhs,
            *rhs,
            t,
            f,
            true,
        ),
        Operation::JStrictEqK { lhs, k, .. } => emit_jstricteq_constant(e, *lhs, *k, t, f, false),
        Operation::JNStrictEqK { lhs, k, .. } => emit_jstricteq_constant(e, *lhs, *k, t, f, true),
        Operation::JLess { lhs, rhs, bc, .. } => emit_jless(e, *lhs, *rhs, t, f, false, *bc),
        Operation::JNLess { lhs, rhs, bc, .. } => emit_jless(e, *lhs, *rhs, t, f, true, *bc),
        _ => {},
    }
}

/// An operation with a fast and a slow path.
fn emit_handler(e: &mut Emit, op: &Op, next: Block)
    requires
        !op@.is_silent() && named(op@) is None && !op@.is_stop() && !is_straight(op@),
        old(e).ready((op_cost(op@) - 6) as nat),
        op@.ok(old(e).args@.len(), old(e).locs@.len()),
        old(e).clif().has_block(next),
        old(e).clif().info(next).args.len() == 0,
    ensures
        old(e).same_frame(final(e)),
        final(e).clif() == old(e).frame().handler(old(e).clif(), op@, next),
        old(e).clif().finished_in(final(e).clif()),
        old(e).clif().within(final(e).clif(), (op_cost(op@) - 6) as nat),
        old(e).orderly() ==> final(e).orderly(),
{
    proof {
        reveal(Frame::handler);
    }
    match op {
        Operation::ToThis => emit_to_this(e, next),
        Operation::CheckTraps { bc } => emit_check_traps(e, *bc, next),
        Operation::GetById { dst, base, md_off, ident, bc } => emit_get_by_id(
            e,
            *dst,
            *base,
            *md_off,
            *ident,
            *bc,
            next,
        ),
        Operation::PutById { base, val, md_off, ident, bc } => emit_put_by_id(
            e,
            *base,
            *val,
            *md_off,
            *ident,
            *bc,
            next,
        ),
        Operation::GetByVal { dst, base, idx, bc } => emit_get_by_val(
            e,
            *dst,
            *base,
            *idx,
            *bc,
            next,
        ),
        Operation::PutByVal { base, idx, val, bc } => emit_put_by_val(
            e,
            *base,
            *idx,
            *val,
            *bc,
            next,
        ),
        Operation::GetLength { dst, base, bc } => emit_get_length(e, *dst, *base, *bc, next),
        Operation::Add { dst, lhs, rhs, bc } => emit_add_registers(
            e,
            *dst,
            *lhs,
            *rhs,
            *bc,
            next,
        ),
        Operation::AddK { dst, lhs, k, bc } => emit_add_constant(e, *dst, *lhs, *k, *bc, next),
        Operation::Inc { dst, bc } => emit_inc(e, *dst, *bc, next),
        Operation::BitOp { kind, dst, lhs, rhs, bc } => emit_bitop_registers(
            e,
            *kind,
            *dst,
            *lhs,
            *rhs,
            *bc,
            next,
        ),
        Operation::BitOpK { kind, dst, lhs, k, bc } => emit_bitop_constant(
            e,
            *kind,
            *dst,
            *lhs,
            *k,
            *bc,
            next,
        ),
        Operation::ResolveScope { dst, scope, md_off, bc } => emit_resolve_scope(
            e,
            *dst,
            *scope,
            *md_off,
            *bc,
            next,
        ),
        Operation::GetFromScope { dst, scope, md_off, bc } => emit_get_from_scope(
            e,
            *dst,
            *scope,
            *md_off,
            *bc,
            next,
        ),
        Operation::PutToScope { scope, val, md_off, bc } => emit_put_to_scope(
            e,
            *scope,
            *val,
            *md_off,
            *bc,
            next,
        ),
        Operation::Call { dst, callee, this, args, frame_size, bc } => emit_call(
            e,
            *dst,
            *callee,
            *this,
            args.as_slice(),
            *frame_size,
            *bc,
            next,
        ),
        _ => {},
    }
}

/// The code of one operation.
#[verifier::rlimit(60)]
pub(crate) fn emit_op(e: &mut Emit, op: &Op)
    requires
        old(e).takes_op(op@),
    ensures
        old(e).frame() == final(e).frame(),
        final(e).code() == old(e).frame().op(old(e).code(), op@),
        old(e).code().stepped_to(final(e).code(), op@),
        old(e).clif().within(final(e).clif(), op_cost(op@)),
        old(e).orderly() ==> final(e).orderly(),
{
    proof {
        reveal(Frame::op);
    }
    match op {
        Operation::Enter => {},
        Operation::LoopHint => {},
        Operation::Label(id) => {
            emit_label(e, *id);
        },
        Operation::Jmp(t) => {
            let blk = e.label(*t);
            goto(&mut e.b, blk);
        },
        Operation::Ret(_) | Operation::RetK(_) => {
            emit_leave(e, op);
        },
        Operation::Mov(..) | Operation::MovK(..) | Operation::NeqNull { .. } => {
            emit_straight(e, op);
        },
        Operation::JTrue { target, .. }
        | Operation::JFalse { target, .. }
        | Operation::JEqNull { target, .. }
        | Operation::JNEqNull { target, .. }
        | Operation::JStrictEq { target, .. }
        | Operation::JNStrictEq { target, .. }
        | Operation::JStrictEqK { target, .. }
        | Operation::JNStrictEqK { target, .. }
        | Operation::JLess { target, .. }
        | Operation::JNLess { target, .. } => {
            let t = e.label(*target);
            let f = create_block(&mut e.b);
            emit_branch(e, op, t, f);
            switch_to_block(&mut e.b, f);
        },
        _ => {
            let next = create_block(&mut e.b);
            emit_handler(e, op, next);
            switch_to_block(&mut e.b, next);
        },
    }
}

impl Code {
    /// The block of the label `id` after the first `n` operations. As long as the label
    /// itself has not been reached, nothing stands in it.
    pub open spec fn label_at(self, frame: Frame, ops: Seq<OpView>, n: int, id: u32) -> bool {
        let b = self.labels[id];
        &&& self.m.has_block(b)
        &&& self.m.info(b).args.len() == 0
        &&& b != frame.exc_sink
        &&& !bound(ops, n, id) ==> {
            &&& self.m.info(b).status is Empty
            &&& self.m.current != Some(b)
            &&& is_target(ops, n, id)
        }
    }

    /// The block `b` waits for its code after the first `n` operations: it belongs to a
    /// label that was branched to and has not been reached.
    pub open spec fn waits(self, ops: Seq<OpView>, n: int, b: int) -> bool {
        exists|id: u32| #[trigger]
            self.labels.contains_key(id) && !bound(ops, n, id) && self.labels[id].id == b
    }

    /// How things stand after the first `n` operations: all blocks are ended but for the
    /// current one, the exception sink, and the blocks of labels that are still to come;
    /// and the current block is open exactly where control falls through.
    #[verifier::opaque]
    pub open spec fn at(self, frame: Frame, ops: Seq<OpView>, n: int) -> bool {
        let m = self.m;
        let b = m.current->0;
        &&& m.wf()
        &&& m.current is Some
        &&& m.has_block(b)
        &&& frame.fits(m)
        &&& m.info(b).status is Filled <==> !falls_through(ops, n)
        &&& m.info(frame.exc_sink).status is Empty
        &&& b != frame.exc_sink
        &&& forall|id: u32| #[trigger]
            self.labels.contains_key(id) ==> self.label_at(frame, ops, n, id)
        &&& forall|id: u32| #[trigger] bound(ops, n, id) ==> self.labels.contains_key(id)
        &&& forall|id: u32, other: u32| #[trigger]
            self.labels.contains_key(id) && #[trigger] self.labels.contains_key(other) && id
                != other ==> self.labels[id] != self.labels[other]
        &&& forall|i: int|
            0 <= i < m.blocks.len() && i != b.id && i != frame.exc_sink.id ==> (
            #[trigger] m.blocks[i]).status is Filled || self.waits(ops, n, i)
    }
}

/// One of the first `n` operations may branch to `id`.
pub open spec fn is_target(ops: Seq<OpView>, n: int, id: u32) -> bool {
    exists|i: int| 0 <= i < n && (#[trigger] ops[i]).target() == Some(id)
}

/// Each operation takes the code from one such state to the next.
pub proof fn lemma_step(from: Code, to: Code, frame: Frame, ops: Seq<OpView>, n: int)
    requires
        0 <= n < ops.len(),
        ops_ok(ops, frame.args.len(), frame.locs.len()),
        from.at(frame, ops, n),
        from.stepped_to(to, ops[n]),
    ensures
        to.at(frame, ops, n + 1),
{
    reveal(Code::at);
    let op = ops[n];
    let m = from.m;
    let k = to.m;
    let b = m.current->0;
    assert(op.ok(frame.args.len(), frame.locs.len()));
    if !op.is_silent() && op !is Label {
        assert(falls_through(ops, n));
    }
    assert forall|id: u32| bound(ops, n, id) implies bound(ops, n + 1, id) by {
        let i = choose|i: int| 0 <= i < n && #[trigger] ops[i] == OpView::Label(id);
        assert(ops[i] == OpView::Label(id));
    }
    assert forall|id: u32| bound(ops, n + 1, id) && !bound(ops, n, id) implies op == OpView::Label(
        id,
    ) by {
        let i = choose|i: int| 0 <= i < n + 1 && #[trigger] ops[i] == OpView::Label(id);
        assert(ops[i] == OpView::Label(id));
    }
    if op is Label {
        assert(bound(ops, n + 1, op->Label_0));
    }
    if op.target() is Some {
        assert(is_target(ops, n + 1, op.target()->0));
    }
    assert forall|id: u32| is_target(ops, n, id) implies is_target(ops, n + 1, id) by {
        let i = choose|i: int| 0 <= i < n && (#[trigger] ops[i]).target() == Some(id);
        assert(ops[i].target() == Some(id));
    }
    assert forall|id: u32| #[trigger] to.labels.contains_key(id) implies to.label_at(
        frame,
        ops,
        n + 1,
        id,
    ) by {
        if from.labels.contains_key(id) {
            assert(from.label_at(frame, ops, n, id));
        }
    }
    assert forall|id: u32| #[trigger] bound(ops, n + 1, id) implies to.labels.contains_key(id) by {
        if bound(ops, n, id) {
            assert(from.labels.contains_key(id));
        }
    }
    assert forall|id: u32, other: u32| #[trigger]
        to.labels.contains_key(id) && #[trigger] to.labels.contains_key(other) && id
            != other implies to.labels[id] != to.labels[other] by {
        if from.labels.contains_key(id) {
            assert(from.label_at(frame, ops, n, id));
        }
        if from.labels.contains_key(other) {
            assert(from.label_at(frame, ops, n, other));
        }
    }
    assert forall|i: int|
        0 <= i < k.blocks.len() && i != k.current->0.id && i != frame.exc_sink.id implies (
    #[trigger] k.blocks[i]).status is Filled || to.waits(ops, n + 1, i) by {
        if i < m.blocks.len() {
            if i != b.id && from.waits(ops, n, i) {
                let id = choose|id: u32| #[trigger]
                    from.labels.contains_key(id) && !bound(ops, n, id) && from.labels[id].id == i;
                assert(to.labels.contains_key(id));
                assert(to.labels[id] == from.labels[id]);
                if bound(ops, n + 1, id) {
                    assert(k.current->0 == to.labels[id]);
                }
                assert(to.waits(ops, n + 1, i));
            }
        } else if named(op) is Some && i == to.labels[named(op)->0].id {
            let id = named(op)->0;
            if from.labels.contains_key(id) {
                assert(from.label_at(frame, ops, n, id));
            }
            assert(to.labels.contains_key(id));
            if op !is Label {
                assert(!bound(ops, n, id));
                assert(to.waits(ops, n + 1, i));
            }
        }
    }
}

/// The views of operations.
pub open spec fn op_views(ops: Seq<Op>) -> Seq<OpView> {
    ops.map_values(|op: Op| op@)
}

proof fn lemma_cost_take(ops: Seq<OpView>, n: int)
    requires
        0 <= n <= ops.len(),
    ensures
        ops_cost(ops.take(n)) <= ops_cost(ops),
    decreases ops.len() - n,
{
    if n < ops.len() {
        lemma_cost_take(ops, n + 1);
        assert(ops.take(n + 1).drop_last() =~= ops.take(n));
    } else {
        assert(ops.take(n) =~= ops);
    }
}

/// The code of operations can be emitted in parts: the code of the later ones is appended to
/// that of the earlier ones.
pub proof fn operations_can_be_emitted_in_parts(
    frame: Frame,
    c: Code,
    first: Seq<OpView>,
    rest: Seq<OpView>,
)
    ensures
        frame.ops(c, first + rest) == frame.ops(frame.ops(c, first), rest),
    decreases rest.len(),
{
    if rest.len() == 0 {
        assert(first + rest =~= first);
    } else {
        assert((first + rest).drop_last() =~= first + rest.drop_last());
        operations_can_be_emitted_in_parts(frame, c, first, rest.drop_last());
    }
}

/// The code of one operation alone is that of the operation, and no operation has no code.
pub proof fn operations_are_emitted_one_by_one(frame: Frame, c: Code, op: OpView)
    ensures
        frame.ops(c, Seq::empty()) == c,
        frame.ops(c, seq![op]) == frame.op(c, op),
{
    reveal_with_fuel(Frame::ops, 2);
    assert(seq![op].drop_last() =~= Seq::empty());
}

/// Whether control falls through the first operations does not depend on those that follow.
proof fn lemma_falls_through_more(first: Seq<OpView>, rest: Seq<OpView>, n: int)
    requires
        n <= first.len(),
    ensures
        falls_through(first + rest, n) == falls_through(first, n),
    decreases n,
{
    if n > 0 {
        assert((first + rest)[n - 1] == first[n - 1]);
        lemma_falls_through_more(first, rest, n - 1);
    }
}

/// How things stand after the first operations does not depend on those that follow.
proof fn lemma_at_more(c: Code, frame: Frame, first: Seq<OpView>, rest: Seq<OpView>)
    requires
        c.at(frame, first, first.len() as int),
    ensures
        c.at(frame, first + rest, first.len() as int),
{
    reveal(Code::at);
    let n = first.len() as int;
    let all = first + rest;
    assert forall|i: int| 0 <= i < n implies #[trigger] all[i] == first[i] by {
    }
    lemma_falls_through_more(first, rest, n);
    assert forall|id: u32| #[trigger] bound(all, n, id) == bound(first, n, id) by {
        if bound(first, n, id) {
            let i = choose|i: int| 0 <= i < n && #[trigger] first[i] == OpView::Label(id);
            assert(all[i] == OpView::Label(id));
        }
    }
    assert forall|id: u32| #[trigger] is_target(all, n, id) == is_target(first, n, id) by {
        if is_target(first, n, id) {
            let i = choose|i: int| 0 <= i < n && (#[trigger] first[i]).target() == Some(id);
            assert(all[i].target() == Some(id));
        }
    }
    assert forall|id: u32| #[trigger] c.labels.contains_key(id) implies c.label_at(
        frame,
        all,
        n,
        id,
    ) by {
        assert(c.label_at(frame, first, n, id));
        assert(is_target(all, n, id) == is_target(first, n, id));
        assert(bound(all, n, id) == bound(first, n, id));
    }
    assert forall|i: int| c.waits(first, n, i) implies #[trigger] c.waits(all, n, i) by {
        let id = choose|id: u32| #[trigger]
            c.labels.contains_key(id) && !bound(first, n, id) && c.labels[id].id == i;
        assert(!bound(all, n, id));
    }
    assert forall|i: int|
        0 <= i < c.m.blocks.len() && i != c.m.current->0.id && i != frame.exc_sink.id implies (
    #[trigger] c.m.blocks[i]).status is Filled || c.waits(all, n, i) by {
        if c.waits(first, n, i) {
            assert(c.waits(all, n, i));
        }
    }
}

/// The code of the operations, one after the other, behind that of the operations `done`.
pub(crate) fn emit_body(e: &mut Emit, ops: &Vec<Op>, Ghost(done): Ghost<Seq<OpView>>)
    requires
        old(e).code().at(old(e).frame(), done, done.len() as int),
        ops_ok(done + op_views(ops@), old(e).args@.len(), old(e).locs@.len()),
        old(e).clif().room(ops_cost(op_views(ops@))),
    ensures
        old(e).frame() == final(e).frame(),
        final(e).code() == old(e).frame().ops(old(e).code(), op_views(ops@)),
        final(e).code().at(
            old(e).frame(),
            done + op_views(ops@),
            (done.len() + ops@.len()) as int,
        ),
        final(e).clif().setup == old(e).clif().setup,
        old(e).clif().within(final(e).clif(), ops_cost(op_views(ops@))),
        old(e).orderly() ==> final(e).orderly(),
{
    let ghost all = op_views(ops@);
    let ghost frame = e.frame();
    let ghost start = e.code();
    let ghost whole = done + all;
    proof {
        lemma_at_more(start, frame, done, all);
    }
    assert(all.take(0) =~= Seq::empty());
    let mut i: usize = 0;
    while i < ops.len()
        invariant
            i <= ops@.len(),
            all == op_views(ops@),
            frame == old(e).frame(),
            start == old(e).code(),
            e.frame() == frame,
            whole == done + all,
            ops_ok(whole, frame.args.len(), frame.locs.len()),
            start.m.room(ops_cost(all)),
            e.code() == frame.ops(start, all.take(i as int)),
            e.code().at(frame, whole, done.len() + i),
            e.clif().setup == start.m.setup,
            start.m.within(e.clif(), ops_cost(all.take(i as int))),
            old(e).orderly() ==> e.orderly(),
        decreases ops@.len() - i,
    {
        let ghost before = e.code();
        proof {
            assert(all[i as int] == ops@[i as int]@);
            assert(whole[done.len() + i] == all[i as int]);
            assert(all.take(i + 1).drop_last() =~= all.take(i as int));
            assert(all.take(i + 1).last() == all[i as int]);
            lemma_cost_take(all, i + 1);
            lemma_takes(before, frame, whole, done.len() + i);
        }
        emit_op(e, &ops[i]);
        proof {
            lemma_step(before, e.code(), frame, whole, done.len() + i);
        }
        i += 1;
    }
    assert(all.take(ops@.len() as int) =~= all);
}

/// What an operation asks for holds where it stands.
proof fn lemma_takes(c: Code, frame: Frame, ops: Seq<OpView>, n: int)
    requires
        0 <= n < ops.len(),
        ops_ok(ops, frame.args.len(), frame.locs.len()),
        c.at(frame, ops, n),
    ensures
        c.m.wf(),
        c.m.current is Some,
        c.m.has_block(c.m.current->0),
        frame.fits(c.m),
        ops[n].ok(frame.args.len(), frame.locs.len()),
        !ops[n].is_silent() && ops[n] !is Label ==> c.m.writable(),
        named(ops[n]) is Some && c.labels.contains_key(named(ops[n])->0) ==> {
            let b = c.labels[named(ops[n])->0];
            &&& c.m.has_block(b)
            &&& c.m.info(b).args.len() == 0
            &&& ops[n] is Label ==> c.m.info(b).status is Empty && b != c.m.current->0
        },
{
    reveal(Code::at);
    if named(ops[n]) is Some && c.labels.contains_key(named(ops[n])->0) {
        let id = named(ops[n])->0;
        assert(c.label_at(frame, ops, n, id));
        if ops[n] is Label && bound(ops, n, id) {
            let i = choose|i: int| 0 <= i < n && #[trigger] ops[i] == OpView::Label(id);
            assert(ops[i] != ops[n]);
        }
    }
}

} // verus!
