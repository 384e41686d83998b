//! The emitters: what [`crate::template`] says, done with a function builder.
use crate::builder::{
    band, band_imm, block_param, bor, bor_imm, brif, bxor, call, clif, create_block, def_var, iadd,
    iconst, inst_result, int_compare, int_compare_imm, ireduce, ishl_imm, jump, load, sextend, sshr,
    stack_addr, stack_load, store, switch_to_block, uextend, use_var,
};
use crate::bytecode::{is_register, JS_TRUE, VR};
use crate::clif::{
    lemma_pushed, Block, Clif, Cond, Flags, FuncRef, Inst, StackSlot, Ty, Value, Variable,
};
use crate::slow::{lemma_place, slow_index, Slow};
use crate::template::{
    frame_register, pinned_values, Frame, CFR_CALLSITE, JSCELL_INDEXING, JSCELL_SID,
    JSOBJ_BUTTERFLY, VM_EXC_OFFSET,
};
use cranelift_frontend::FunctionBuilder;
use std::collections::HashMap;
use vstd::prelude::*;

verus! {

broadcast use {crate::clif::group_clif, crate::template::group_frame};

/// A function being generated.
pub struct Emit<'a> {
    pub b: FunctionBuilder<'a>,
    pub go: Variable,
    pub cfr: Variable,
    pub md: Variable,
    pub vm: Variable,
    pub ntag: Variable,
    pub ncm: Variable,
    pub vthis: Variable,
    pub args: Vec<Variable>,
    pub locs: Vec<Variable>,
    /// The block of each label that has been named so far.
    pub labels: HashMap<u32, Block>,
    pub exc_sink: Block,
    /// The slow paths, in the order in which they are declared.
    pub slows: Vec<FuncRef>,
    pub out_slot: StackSlot,
    pub pa: bool,
}

/// A conditional branch that passes no arguments.
pub(crate) fn branch(b: &mut FunctionBuilder, cond: Value, then_block: Block, else_block: Block)
    requires
        clif(*old(b)).writable(),
        clif(*old(b)).room(1),
        clif(*old(b)).has(cond),
        clif(*old(b)).has_block(then_block),
        clif(*old(b)).has_block(else_block),
        clif(*old(b)).info(then_block).args.len() == 0,
        clif(*old(b)).info(else_block).args.len() == 0,
    ensures
        clif(*final(b)) == clif(*old(b)).branch(cond, then_block, else_block),
{
    let none: &[Value] = &[];
    assert(none@ =~= Seq::empty());
    brif(b, cond, then_block, none, else_block, none);
}

/// A conditional branch that passes one argument if the condition holds.
pub(crate) fn branch_with(
    b: &mut FunctionBuilder,
    cond: Value,
    then_block: Block,
    x: Value,
    else_block: Block,
)
    requires
        clif(*old(b)).writable(),
        clif(*old(b)).room(1),
        clif(*old(b)).has(cond),
        clif(*old(b)).takes(then_block, seq![x]),
        clif(*old(b)).has_block(else_block),
        clif(*old(b)).info(else_block).args.len() == 0,
    ensures
        clif(*final(b)) == clif(*old(b)).branch_with(cond, then_block, x, else_block),
{
    let none: &[Value] = &[];
    assert(none@ =~= Seq::empty());
    let args: &[Value] = &[x];
    assert(args@ =~= seq![x]);
    brif(b, cond, then_block, args, else_block, none);
}

/// A jump that passes no arguments.
pub(crate) fn goto(b: &mut FunctionBuilder, to: Block)
    requires
        clif(*old(b)).writable(),
        clif(*old(b)).room(1),
        clif(*old(b)).has_block(to),
        clif(*old(b)).info(to).args.len() == 0,
    ensures
        clif(*final(b)) == clif(*old(b)).goto(to),
{
    let none: &[Value] = &[];
    assert(none@ =~= Seq::empty());
    jump(b, to, none);
}

/// A jump that passes one argument.
pub(crate) fn goto_with(b: &mut FunctionBuilder, to: Block, x: Value)
    requires
        clif(*old(b)).writable(),
        clif(*old(b)).room(1),
        clif(*old(b)).takes(to, seq![x]),
    ensures
        clif(*final(b)) == clif(*old(b)).goto_with(to, x),
{
    let args: &[Value] = &[x];
    assert(args@ =~= seq![x]);
    jump(b, to, args);
}

impl<'a> Emit<'a> {
    /// The function as it stands.
    pub open spec fn clif(&self) -> Clif {
        clif(self.b)
    }

    pub open spec fn frame(&self) -> Frame {
        Frame {
            go: self.go,
            cfr: self.cfr,
            md: self.md,
            vm: self.vm,
            ntag: self.ntag,
            ncm: self.ncm,
            vthis: self.vthis,
            args: self.args@,
            locs: self.locs@,
            exc_sink: self.exc_sink,
            slows: self.slows@,
            out_slot: self.out_slot,
            pa: self.pa,
        }
    }

    /// Code can be appended to the current block, and up to `n` values, instructions and
    /// blocks can be added.
    pub open spec fn ready(&self, n: nat) -> bool {
        &&& self.clif().wf()
        &&& self.clif().writable()
        &&& self.clif().room(n)
        &&& self.frame().fits(self.clif())
    }

    /// `r` is one of the registers of the function.
    pub open spec fn has_register(&self, r: VR) -> bool {
        is_register(r, self.args@.len(), self.locs@.len())
    }

    /// Every call but those of [`Slow::DispatchCall`] stands in a cold block, the pinned
    /// variables keep their values, and the first block takes the parameters of the function.
    pub open spec fn tidy(&self) -> bool {
        self.clif().orderly(self.frame().callee(Slow::DispatchCall), pinned_values())
    }

    /// Besides, the first block has values for all variables, and nothing leads to it.
    pub open spec fn orderly(&self) -> bool {
        self.tidy() && self.clif().opened()
    }

    /// The current block is cold.
    pub open spec fn in_cold_block(&self) -> bool {
        self.clif().info(self.clif().current->0).cold
    }

    /// Nothing but the function changes from `self` to `to`.
    pub open spec fn same_frame(&self, to: &Emit<'a>) -> bool {
        &&& self.frame() == to.frame()
        &&& self.labels@ == to.labels@
    }

    /// The variable of a register.
    pub(crate) fn vr(&self, r: VR) -> (v: Variable)
        requires
            self.has_register(r),
            self.frame().fits(self.clif()),
        ensures
            v == self.frame().var(r),
            v.id < self.clif().setup.vars.len(),
    {
        proof {
            frame_register(self.frame(), r, self.clif().setup);
        }
        if r == 0 {
            self.vthis
        } else if r > 0 {
            self.args[(r - 1) as usize]
        } else {
            self.locs[(-(r + 1)) as usize]
        }
    }

    /// Reads a register.
    pub(crate) fn use_(&mut self, r: VR) -> (v: Value)
        requires
            old(self).ready(1),
            old(self).has_register(r),
        ensures
            old(self).same_frame(final(self)),
            (final(self).clif(), v) == old(self).clif().get(old(self).frame().var(r)),
    {
        let var = self.vr(r);
        use_var(&mut self.b, var)
    }

    /// Writes a register.
    pub(crate) fn def_(&mut self, r: VR, v: Value)
        requires
            old(self).clif().current is Some,
            old(self).frame().fits(old(self).clif()),
            old(self).has_register(r),
            old(self).clif().is(v, Ty::I64),
        ensures
            old(self).same_frame(final(self)),
            final(self).clif() == old(self).clif().def_var(old(self).frame().var(r), v),
    {
        let var = self.vr(r);
        def_var(&mut self.b, var, v);
    }

    pub(crate) fn go(&mut self) -> (v: Value)
        requires
            old(self).ready(1),
        ensures
            old(self).same_frame(final(self)),
            (final(self).clif(), v) == old(self).clif().get(old(self).go),
    {
        use_var(&mut self.b, self.go)
    }

    pub(crate) fn cfr(&mut self) -> (v: Value)
        requires
            old(self).ready(1),
        ensures
            old(self).same_frame(final(self)),
            (final(self).clif(), v) == old(self).clif().get(old(self).cfr),
    {
        use_var(&mut self.b, self.cfr)
    }

    pub(crate) fn md(&mut self) -> (v: Value)
        requires
            old(self).ready(1),
        ensures
            old(self).same_frame(final(self)),
            (final(self).clif(), v) == old(self).clif().get(old(self).md),
    {
        use_var(&mut self.b, self.md)
    }

    pub(crate) fn vm(&mut self) -> (v: Value)
        requires
            old(self).ready(1),
        ensures
            old(self).same_frame(final(self)),
            (final(self).clif(), v) == old(self).clif().get(old(self).vm),
    {
        use_var(&mut self.b, self.vm)
    }

    pub(crate) fn ntag(&mut self) -> (v: Value)
        requires
            old(self).ready(1),
        ensures
            old(self).same_frame(final(self)),
            (final(self).clif(), v) == old(self).clif().get(old(self).ntag),
    {
        use_var(&mut self.b, self.ntag)
    }

    pub(crate) fn ncm(&mut self) -> (v: Value)
        requires
            old(self).ready(1),
        ensures
            old(self).same_frame(final(self)),
            (final(self).clif(), v) == old(self).clif().get(old(self).ncm),
    {
        use_var(&mut self.b, self.ncm)
    }

    /// Calls a slow path that has a result. In `pa` mode the result comes through the
    /// out slot, else it is what the call returns.
    pub(crate) fn slow_call_ret(&mut self, s: Slow, args: &[Value]) -> (v: Value)
        requires
            old(self).ready(4),
            s.has_result(),
            s != Slow::DispatchCall,
            old(self).clif().all_typed(args@, s.params()),
        ensures
            old(self).same_frame(final(self)),
            (final(self).clif(), v) == old(self).frame().slow_result(old(self).clif(), s, args@),
            old(self).clif().continued_in(final(self).clif()),
            old(self).clif().within(final(self).clif(), 4),
            old(self).in_cold_block() && old(self).orderly() ==> final(self).orderly(),
            final(self).clif().is(v, Ty::I64),
    {
        proof {
            reveal(Frame::slow_result);
            lemma_place(s);
            reveal(Frame::resolves);
        }
        let fr = self.slows[slow_index(s)];
        assert(fr == self.frame().callee(s));
        if self.pa {
            let outp = stack_addr(&mut self.b, Ty::I64, self.out_slot, 0);
            let mut a: Vec<Value> = vstd::slice::slice_to_vec(args);
            a.push(outp);
            assert(a@ =~= args@.push(outp));
            assert(s.abi(self.pa).params =~= s.params().push(Ty::I64));
            call(&mut self.b, fr, a.as_slice());
            stack_load(&mut self.b, Ty::I64, self.out_slot, 0)
        } else {
            assert(s.abi(self.pa).params =~= s.params());
            proof {
                lemma_pushed(self.clif(), Inst::Call { callee: fr, args: args@ });
            }
            let c = call(&mut self.b, fr, args);
            inst_result(&self.b, c, 0)
        }
    }

    /// Calls a slow path that has no result.
    pub(crate) fn slow_call_void(&mut self, s: Slow, args: &[Value])
        requires
            old(self).ready(1),
            !s.has_result(),
            old(self).clif().all_typed(args@, s.params()),
        ensures
            old(self).same_frame(final(self)),
            final(self).clif() == old(self).frame().slow_void(old(self).clif(), s, args@),
            old(self).clif().continued_in(final(self).clif()),
            old(self).clif().within(final(self).clif(), 1),
            old(self).in_cold_block() && old(self).orderly() ==> final(self).orderly(),
    {
        proof {
            reveal(Frame::slow_void);
            lemma_place(s);
            reveal(Frame::resolves);
        }
        let fr = self.slows[slow_index(s)];
        assert(fr == self.frame().callee(s));
        assert(s.abi(self.pa).params =~= s.params());
        call(&mut self.b, fr, args);
    }

    /// Writes the call site to the call frame.
    pub(crate) fn stamp_callsite(&mut self, bc: u32)
        requires
            old(self).ready(3),
        ensures
            old(self).same_frame(final(self)),
            final(self).clif() == old(self).frame().stamp(old(self).clif(), bc),
            old(self).clif().continued_in(final(self).clif()),
            old(self).clif().within(final(self).clif(), 3),
            old(self).orderly() ==> final(self).orderly(),
    {
        proof {
            reveal(Frame::stamp);
        }
        let cfr = self.cfr();
        let k = iconst(&mut self.b, Ty::I32, bc as i64);
        store(&mut self.b, Flags::Trusted, k, cfr, CFR_CALLSITE);
    }

    /// Branches to the exception sink if an exception is pending, else to `cont`.
    pub(crate) fn check_exc_and_continue(&mut self, cont: Block)
        requires
            old(self).ready(3),
            old(self).clif().has_block(cont),
            old(self).clif().info(cont).args.len() == 0,
        ensures
            old(self).same_frame(final(self)),
            final(self).clif() == old(self).frame().check_exc(old(self).clif(), cont),
            old(self).clif().finished_in(final(self).clif()),
            old(self).clif().within(final(self).clif(), 3),
            old(self).orderly() ==> final(self).orderly(),
            final(self).clif().blocks.len() == old(self).clif().blocks.len(),
    {
        proof {
            reveal(Frame::check_exc);
        }
        let vm = self.vm();
        let exc = load(&mut self.b, Ty::I64, Flags::Trusted, vm, VM_EXC_OFFSET);
        let exc_sink = self.exc_sink;
        branch(&mut self.b, exc, exc_sink, cont);
    }

    /// Encodes a 32-bit integer.
    pub(crate) fn box_int32(&mut self, lo: Value) -> (v: Value)
        requires
            old(self).ready(3),
            old(self).clif().is(lo, Ty::I32),
        ensures
            old(self).same_frame(final(self)),
            (final(self).clif(), v) == old(self).frame().box_int32(old(self).clif(), lo),
            old(self).clif().continued_in(final(self).clif()),
            old(self).clif().within(final(self).clif(), 3),
            old(self).orderly() ==> final(self).orderly(),
            final(self).clif().is(v, Ty::I64),
    {
        proof {
            reveal(Frame::box_int32);
        }
        let w = sextend(&mut self.b, Ty::I64, lo);
        let tag = self.ntag();
        bor(&mut self.b, w, tag)
    }
}

/// After a slow path with the result `r`: checks for an exception and passes `r` on.
pub(crate) fn join_result(e: &mut Emit, r: Value, join: Block)
    requires
        old(e).ready(5),
        old(e).clif().takes(join, seq![r]),
    ensures
        old(e).same_frame(final(e)),
        final(e).clif() == old(e).frame().join_result(old(e).clif(), r, join),
        old(e).clif().finished_in(final(e).clif()),
        old(e).clif().within(final(e).clif(), 5),
        old(e).orderly() ==> final(e).orderly(),
{
    proof {
        reveal(Frame::join_result);
    }
    let post = create_block(&mut e.b);
    e.check_exc_and_continue(post);
    switch_to_block(&mut e.b, post);
    goto_with(&mut e.b, join, r);
}

/// Writes the parameter of `join` to `dst` and goes on to `cont`.
pub(crate) fn write_joined(e: &mut Emit, join: Block, dst: VR, cont: Block)
    requires
        old(e).clif().wf(),
        old(e).clif().leavable(),
        old(e).clif().room(1),
        old(e).frame().fits(old(e).clif()),
        old(e).has_register(dst),
        old(e).clif().has_block(join),
        old(e).clif().info(join).status !is Filled,
        old(e).clif().info(join).args.len() == 1,
        old(e).clif().is(old(e).clif().info(join).args[0], Ty::I64),
        old(e).clif().has_block(cont),
        old(e).clif().info(cont).args.len() == 0,
    ensures
        old(e).same_frame(final(e)),
        final(e).clif() == old(e).frame().write_joined(old(e).clif(), join, dst, cont),
        old(e).clif().switch_to(join).finished_in(final(e).clif()),
        old(e).clif().within(final(e).clif(), 1),
        old(e).orderly() ==> final(e).orderly(),
{
    proof {
        reveal(Frame::write_joined);
    }
    switch_to_block(&mut e.b, join);
    let out = block_param(&e.b, join, 0);
    e.def_(dst, out);
    goto(&mut e.b, cont);
}

/// Tests for a cell.
pub(crate) fn not_cell(e: &mut Emit, v: Value) -> (r: Value)
    requires
        old(e).ready(2),
        old(e).clif().is(v, Ty::I64),
    ensures
        old(e).same_frame(final(e)),
        (final(e).clif(), r) == old(e).frame().not_cell(old(e).clif(), v),
        old(e).clif().continued_in(final(e).clif()),
        old(e).clif().within(final(e).clif(), 2),
        old(e).orderly() ==> final(e).orderly(),
        final(e).clif().is(r, Ty::I64),
{
    proof {
        reveal(Frame::not_cell);
    }
    let ncm = e.ncm();
    band(&mut e.b, v, ncm)
}

/// Tests for an `int32`.
pub(crate) fn is_int32(e: &mut Emit, v: Value, ntag: Value) -> (r: Value)
    requires
        old(e).ready(2),
        old(e).clif().is(v, Ty::I64),
        old(e).clif().is(ntag, Ty::I64),
    ensures
        old(e).same_frame(final(e)),
        (final(e).clif(), r) == old(e).frame().is_int32(old(e).clif(), v, ntag),
        old(e).clif().continued_in(final(e).clif()),
        old(e).clif().within(final(e).clif(), 2),
        old(e).orderly() ==> final(e).orderly(),
        final(e).clif().is(r, Ty::I8),
{
    proof {
        reveal(Frame::is_int32);
    }
    let bits = band(&mut e.b, v, ntag);
    int_compare(&mut e.b, Cond::Equal, bits, ntag)
}

/// Tests for two `int32`.
pub(crate) fn both_int32(e: &mut Emit, l: Value, r: Value) -> (both: Value)
    requires
        old(e).ready(5),
        old(e).clif().is(l, Ty::I64),
        old(e).clif().is(r, Ty::I64),
    ensures
        old(e).same_frame(final(e)),
        (final(e).clif(), both) == old(e).frame().both_int32(old(e).clif(), l, r),
        old(e).clif().continued_in(final(e).clif()),
        old(e).clif().within(final(e).clif(), 5),
        old(e).orderly() ==> final(e).orderly(),
        final(e).clif().is(both, Ty::I8),
{
    proof {
        reveal(Frame::both_int32);
    }
    let ntag = e.ntag();
    let lt = band(&mut e.b, l, ntag);
    let rt = band(&mut e.b, r, ntag);
    let tags = band(&mut e.b, lt, rt);
    int_compare(&mut e.b, Cond::Equal, tags, ntag)
}

/// Tests for a boolean.
pub(crate) fn is_bool(e: &mut Emit, v: Value) -> (r: Value)
    requires
        old(e).ready(4),
        old(e).clif().is(v, Ty::I64),
    ensures
        old(e).same_frame(final(e)),
        (final(e).clif(), r) == old(e).frame().is_bool(old(e).clif(), v),
        old(e).clif().continued_in(final(e).clif()),
        old(e).clif().within(final(e).clif(), 4),
        old(e).orderly() ==> final(e).orderly(),
        final(e).clif().is(r, Ty::I8),
{
    proof {
        reveal(Frame::is_bool);
    }
    let set = bor_imm(&mut e.b, v, 1);
    let k = iconst(&mut e.b, Ty::I64, JS_TRUE);
    int_compare(&mut e.b, Cond::Equal, set, k)
}

/// Tests for two cells.
pub(crate) fn not_both_cells(e: &mut Emit, l: Value, r: Value) -> (either: Value)
    requires
        old(e).ready(4),
        old(e).clif().is(l, Ty::I64),
        old(e).clif().is(r, Ty::I64),
    ensures
        old(e).same_frame(final(e)),
        (final(e).clif(), either) == old(e).frame().not_both_cells(old(e).clif(), l, r),
        old(e).clif().continued_in(final(e).clif()),
        old(e).clif().within(final(e).clif(), 4),
        old(e).orderly() ==> final(e).orderly(),
        final(e).clif().is(either, Ty::I64),
{
    proof {
        reveal(Frame::not_both_cells);
    }
    let ncm = e.ncm();
    let lnc = band(&mut e.b, l, ncm);
    let rnc = band(&mut e.b, r, ncm);
    bor(&mut e.b, lnc, rnc)
}

/// Tests for two numbers.
pub(crate) fn not_both_numbers(e: &mut Emit, l: Value, r: Value) -> (either: Value)
    requires
        old(e).ready(8),
        old(e).clif().is(l, Ty::I64),
        old(e).clif().is(r, Ty::I64),
    ensures
        old(e).same_frame(final(e)),
        (final(e).clif(), either) == old(e).frame().not_both_numbers(old(e).clif(), l, r),
        old(e).clif().continued_in(final(e).clif()),
        old(e).clif().within(final(e).clif(), 8),
        old(e).orderly() ==> final(e).orderly(),
        final(e).clif().is(either, Ty::I8),
{
    proof {
        reveal(Frame::not_both_numbers);
    }
    let ntag = e.ntag();
    let lt = band(&mut e.b, l, ntag);
    let rt = band(&mut e.b, r, ntag);
    let lnn = int_compare_imm(&mut e.b, Cond::Equal, lt, 0);
    let rnn = int_compare_imm(&mut e.b, Cond::Equal, rt, 0);
    bor(&mut e.b, lnn, rnn)
}

/// Tests a cell for indexed elements.
pub(crate) fn has_elements(e: &mut Emit, v: Value) -> (has: Value)
    requires
        old(e).ready(4),
        old(e).clif().is(v, Ty::I64),
    ensures
        old(e).same_frame(final(e)),
        (final(e).clif(), has) == old(e).frame().has_elements(old(e).clif(), v),
        old(e).clif().continued_in(final(e).clif()),
        old(e).clif().within(final(e).clif(), 4),
        old(e).orderly() ==> final(e).orderly(),
        final(e).clif().is(has, Ty::I32),
{
    proof {
        reveal(Frame::has_elements);
    }
    let it = load(&mut e.b, Ty::I8, Flags::Trusted, v, JSCELL_INDEXING);
    let it32 = uextend(&mut e.b, Ty::I32, it);
    band_imm(&mut e.b, it32, 0x0e)
}

/// Compares the structure number of a cell with the cached one.
pub(crate) fn same_structure(e: &mut Emit, v: Value, md_off: i32) -> (r: (Value, Value))
    requires
        old(e).ready(4),
        old(e).clif().is(v, Ty::I64),
    ensures
        old(e).same_frame(final(e)),
        (final(e).clif(), r.0, r.1) == old(e).frame().same_structure(old(e).clif(), v, md_off),
        old(e).clif().continued_in(final(e).clif()),
        old(e).clif().within(final(e).clif(), 4),
        old(e).orderly() ==> final(e).orderly(),
        final(e).clif().is(r.0, Ty::I64),
        final(e).clif().is(r.1, Ty::I8),
{
    proof {
        reveal(Frame::same_structure);
    }
    let md = e.md();
    let cached = load(&mut e.b, Ty::I32, Flags::ReadOnly, md, md_off);
    let actual = load(&mut e.b, Ty::I32, Flags::Trusted, v, JSCELL_SID);
    let same = int_compare(&mut e.b, Cond::Equal, actual, cached);
    (md, same)
}

/// Tests whether a scope access has a fast path.
pub(crate) fn fast_scope(e: &mut Emit, md_off: i32) -> (r: (Value, Value))
    requires
        old(e).ready(4),
    ensures
        old(e).same_frame(final(e)),
        (final(e).clif(), r.0, r.1) == old(e).frame().fast_scope(old(e).clif(), md_off),
        old(e).clif().continued_in(final(e).clif()),
        old(e).clif().within(final(e).clif(), 4),
        old(e).orderly() ==> final(e).orderly(),
        final(e).clif().is(r.0, Ty::I64),
        final(e).clif().is(r.1, Ty::I8),
{
    proof {
        reveal(Frame::fast_scope);
    }
    let md = e.md();
    let resolve_type = load(&mut e.b, Ty::I32, Flags::ReadOnly, md, md_off);
    let fast = int_compare_imm(&mut e.b, Cond::UnsignedLessThan, resolve_type, 6);
    (md, fast)
}

/// The address of the slot whose number stands in the metadata.
pub(crate) fn slot_address(e: &mut Emit, md: Value, offset: i32, base: Value) -> (r: Value)
    requires
        old(e).ready(5),
        old(e).clif().is(md, Ty::I64),
        old(e).clif().is(base, Ty::I64),
    ensures
        old(e).same_frame(final(e)),
        (final(e).clif(), r) == old(e).frame().slot_address(old(e).clif(), md, offset, base),
        old(e).clif().continued_in(final(e).clif()),
        old(e).clif().within(final(e).clif(), 5),
        old(e).orderly() ==> final(e).orderly(),
        final(e).clif().is(r, Ty::I64),
{
    proof {
        reveal(Frame::slot_address);
    }
    let slot = load(&mut e.b, Ty::I32, Flags::ReadOnly, md, offset);
    let wide = sextend(&mut e.b, Ty::I64, slot);
    let scaled = ishl_imm(&mut e.b, wide, 3);
    iadd(&mut e.b, base, scaled)
}

/// Tests an index against a length in the butterfly.
pub(crate) fn in_bounds(e: &mut Emit, bv: Value, iv: Value, offset: i32) -> (r: (Value, Value, Value))
    requires
        old(e).ready(4),
        old(e).clif().is(bv, Ty::I64),
        old(e).clif().is(iv, Ty::I64),
    ensures
        old(e).same_frame(final(e)),
        (final(e).clif(), r.0, r.1, r.2) == old(e).frame().in_bounds(old(e).clif(), bv, iv, offset),
        old(e).clif().continued_in(final(e).clif()),
        old(e).clif().within(final(e).clif(), 4),
        old(e).orderly() ==> final(e).orderly(),
        final(e).clif().is(r.0, Ty::I32),
        final(e).clif().is(r.1, Ty::I64),
        final(e).clif().is(r.2, Ty::I8),
{
    proof {
        reveal(Frame::in_bounds);
    }
    let idx = ireduce(&mut e.b, Ty::I32, iv);
    let bf = load(&mut e.b, Ty::I64, Flags::Trusted, bv, JSOBJ_BUTTERFLY);
    let len = load(&mut e.b, Ty::I32, Flags::Trusted, bf, offset);
    let inb = int_compare(&mut e.b, Cond::UnsignedLessThan, idx, len);
    (idx, bf, inb)
}

/// The address of an element.
pub(crate) fn element_address(e: &mut Emit, bf: Value, idx: Value) -> (r: Value)
    requires
        old(e).ready(4),
        old(e).clif().is(bf, Ty::I64),
        old(e).clif().is(idx, Ty::I32),
    ensures
        old(e).same_frame(final(e)),
        (final(e).clif(), r) == old(e).frame().element_address(old(e).clif(), bf, idx),
        old(e).clif().continued_in(final(e).clif()),
        old(e).clif().within(final(e).clif(), 4),
        old(e).orderly() ==> final(e).orderly(),
        final(e).clif().is(r, Ty::I64),
{
    proof {
        reveal(Frame::element_address);
    }
    let wide = uextend(&mut e.b, Ty::I64, idx);
    let scaled = ishl_imm(&mut e.b, wide, 3);
    iadd(&mut e.b, bf, scaled)
}

/// A bit operation on two 32-bit integers.
pub(crate) fn bit_result(e: &mut Emit, kind: u8, l: Value, r: Value) -> (res: Value)
    requires
        old(e).ready(3),
        kind <= 3,
        old(e).clif().is(l, Ty::I32),
        old(e).clif().is(r, Ty::I32),
    ensures
        old(e).same_frame(final(e)),
        (final(e).clif(), res) == old(e).frame().bit_result(old(e).clif(), kind, l, r),
        old(e).clif().continued_in(final(e).clif()),
        old(e).clif().within(final(e).clif(), 3),
        old(e).orderly() ==> final(e).orderly(),
        final(e).clif().is(res, Ty::I32),
{
    proof {
        reveal(Frame::bit_result);
    }
    match kind {
        0 => band(&mut e.b, l, r),
        1 => bor(&mut e.b, l, r),
        2 => bxor(&mut e.b, l, r),
        _ => {
            let amount = band_imm(&mut e.b, r, 31);
            sshr(&mut e.b, l, amount)
        },
    }
}

/// The slow path of an arithmetic operation.
pub(crate) fn slow_binary(e: &mut Emit, s: Slow, l: Value, r: Value, bc: u32) -> (v: Value)
    requires
        old(e).ready(8),
        s.has_result(),
        s.arity() == (3nat, 0nat),
        old(e).clif().is(l, Ty::I64),
        old(e).clif().is(r, Ty::I64),
    ensures
        old(e).same_frame(final(e)),
        (final(e).clif(), v) == old(e).frame().slow_binary(old(e).clif(), s, l, r, bc),
        old(e).clif().continued_in(final(e).clif()),
        old(e).clif().within(final(e).clif(), 8),
        old(e).in_cold_block() && old(e).orderly() ==> final(e).orderly(),
        final(e).clif().is(v, Ty::I64),
{
    proof {
        reveal(Frame::slow_binary);
    }
    e.stamp_callsite(bc);
    let go = e.go();
    let args: [Value; 3] = [go, l, r];
    assert(args@ =~= seq![go, l, r]);
    e.slow_call_ret(s, &args)
}

} // verus!
