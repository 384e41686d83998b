//! The code of a whole function: prologue, operations, and the exception sink.
use crate::body::{emit_body, op_cost, op_views, ops_cost, Code};
use crate::builder::{
    block_param, clif, create_block, create_sized_stack_slot, declare_var, def_var, iconst, load,
    return_, set_cold_block, switch_to_block,
};
use crate::bytecode::{bound, Body, BodyView, OpView, JS_UNDEFINED, NOT_CELL_MASK, NUMBER_TAG};
use crate::clif::{
    all_filled, lemma_empty_wf, lemma_take_function_params, Block, CallConv, Clif, Flags, FuncRef,
    Inst, Setup, Sig, StackSlot, Ty, Value, Variable,
};
use crate::emit::Emit;
use crate::module::{
    append_block_params_for_function_params, data_names, declare_func_in_func, defined, functions,
    sealed_as, target, FuncId,
};
use crate::slow::{slow_paths, Slow};
use crate::template::{
    pinned_values, Frame, CB_METADATA, CFR_ARG0, CFR_CALLEE, CFR_CODEBLOCK, CFR_THIS, GO_VM_OFFSET,
    JSCALLEE_SCOPE,
};
use cranelift_frontend::FunctionBuilder;
use cranelift_object::ObjectModule;
use std::collections::HashMap;
use vstd::prelude::*;

verus! {

broadcast use {crate::clif::group_clif, crate::template::group_frame};

/// Every generated function takes the global object and the call frame, and returns a
/// value.
pub open spec fn entry_sig() -> Sig {
    Sig {
        conv: CallConv::SystemV,
        params: seq![Ty::I64, Ty::I64],
        returns: seq![Ty::I64],
    }
}

/// How many variables the function of a body has: six that are pinned, `this`, the
/// arguments and the locals.
pub open spec fn n_vars(body: BodyView) -> nat {
    (7 + body.n_args + body.n_locals) as nat
}

/// At least as many values, instructions and blocks as the function of a body has.
pub open spec fn size_bound(body: BodyView) -> nat {
    ops_cost(body.ops) + body.n_args as nat + 64
}

/// The function of the body can be numbered, reads of variables included.
pub open spec fn fits_limits(body: BodyView) -> bool {
    &&& n_vars(body) + 2 <= u16::MAX
    &&& size_bound(body) * (2 * n_vars(body) + 1) < u32::MAX
}

/// The function of the body is small enough to be compiled: what the compiler numbers in it
/// stays below the limits of its register allocator.
pub open spec fn fits_compiler(body: BodyView) -> bool {
    size_bound(body) * (2 * n_vars(body) + 1) <= 0x40_0000
}

proof fn lemma_cost_bound(ops: Seq<OpView>, k: nat)
    requires
        forall|i: int| 0 <= i < ops.len() ==> op_cost(#[trigger] ops[i]) <= k,
    ensures
        ops_cost(ops) <= k * ops.len(),
    decreases ops.len(),
{
    if ops.len() > 0 {
        let rest = ops.drop_last();
        assert forall|i: int| 0 <= i < rest.len() implies op_cost(#[trigger] rest[i]) <= k by {
            assert(rest[i] == ops[i]);
        }
        lemma_cost_bound(rest, k);
        assert(op_cost(ops[ops.len() - 1]) <= k);
        assert(k * (ops.len() - 1) + k == k * ops.len()) by (nonlinear_arith);
    }
}

/// A body of up to a hundred operations with few registers and arguments fits.
pub proof fn lemma_small_body_fits(body: BodyView)
    requires
        body.ops.len() <= 100,
        body.n_args + body.n_locals <= 100,
        forall|i: int| 0 <= i < body.ops.len() ==> op_cost(#[trigger] body.ops[i]) <= 100,
    ensures
        fits_limits(body),
        fits_compiler(body),
{
    lemma_cost_bound(body.ops, 100);
    let size = size_bound(body);
    let n = 2 * n_vars(body) + 1;
    assert(size * n <= 11000 * 300) by (nonlinear_arith)
        requires
            size <= 11000,
            n <= 300,
    ;
}

/// What is declared before any code is written. The function has the number `own`, the slow
/// paths have the numbers `ids`.
pub open spec fn setup_of(body: BodyView, pa: bool, own: u32, ids: Seq<FuncId>) -> Setup {
    Setup {
        signature: entry_sig(),
        own,
        vars: Seq::new(n_vars(body), |i: int| Ty::I64),
        callees: slow_paths().map_values(|s: Slow| s.abi(pa)),
        names: ids.map_values(|f: FuncId| f.id),
        slots: seq![(8u32, 3u8)],
        sealed: false,
    }
}

/// What the code of a body refers to.
pub open spec fn frame_of(body: BodyView, pa: bool) -> Frame {
    Frame {
        go: Variable { id: 0 },
        cfr: Variable { id: 1 },
        md: Variable { id: 2 },
        vm: Variable { id: 3 },
        ntag: Variable { id: 4 },
        ncm: Variable { id: 5 },
        vthis: Variable { id: 6 },
        args: Seq::new(body.n_args as nat, |i: int| Variable { id: (7 + i) as u32 }),
        locs: Seq::new(
            body.n_locals as nat,
            |i: int| Variable { id: (7 + body.n_args + i) as u32 },
        ),
        exc_sink: Block { id: 1 },
        slows: Seq::new(slow_paths().len(), |i: int| FuncRef { id: i as u32 }),
        out_slot: StackSlot { id: 0 },
        pa,
    }
}

impl Frame {
    /// The first `n` arguments are read from the call frame.
    #[verifier::opaque]
    pub open spec fn load_args(self, m: Clif, cfr: Value, n: nat) -> Clif
        decreases n,
    {
        if n == 0 {
            m
        } else {
            let m = self.load_args(m, cfr, (n - 1) as nat);
            let (m, v) = m.ins(
                crate::clif::load(Ty::I64, Flags::Trusted, cfr, (CFR_ARG0 + 8 * (n - 1)) as i32),
            );
            m.def_var(self.args[n - 1], v)
        }
    }

    /// The first local is the scope, the next `n - 1` are undefined.
    #[verifier::opaque]
    pub open spec fn init_locs(self, m: Clif, scope: Value, und: Value, n: nat) -> Clif
        decreases n,
    {
        if n == 0 {
            m
        } else {
            let m = self.init_locs(m, scope, und, (n - 1) as nat);
            m.def_var(
                self.locs[n - 1],
                if n == 1 {
                    scope
                } else {
                    und
                },
            )
        }
    }

    /// The entry block and the exception sink; control is in the entry block.
    #[verifier::opaque]
    pub open spec fn enter(self, m: Clif) -> Clif {
        let (m, entry) = m.new_block();
        let m = m.take_function_params(entry);
        let (m, sink) = m.new_cold_block();
        m.switch_to(entry)
    }

    /// The pinned variables and `this` get their values: `go` and `cfr` are the parameters
    /// of the function.
    #[verifier::opaque]
    pub open spec fn pin(self, m: Clif, go: Value, cfr: Value) -> Clif {
        let m = m.def_var(self.go, go).def_var(self.cfr, cfr);
        let (m, vm) = m.ins(crate::clif::load(Ty::I64, Flags::ReadOnly, go, GO_VM_OFFSET));
        let m = m.def_var(self.vm, vm);
        let (m, cb) = m.ins(crate::clif::load(Ty::I64, Flags::ReadOnly, cfr, CFR_CODEBLOCK));
        let (m, md) = m.ins(crate::clif::load(Ty::I64, Flags::ReadOnly, cb, CB_METADATA));
        let m = m.def_var(self.md, md);
        let (m, ntag) = m.constant(Ty::I64, NUMBER_TAG);
        let m = m.def_var(self.ntag, ntag);
        let (m, ncm) = m.constant(Ty::I64, NOT_CELL_MASK);
        let m = m.def_var(self.ncm, ncm);
        let (m, this) = m.ins(crate::clif::load(Ty::I64, Flags::Trusted, cfr, CFR_THIS));
        m.def_var(self.vthis, this)
    }

    /// The prologue: all variables get their first values.
    pub open spec fn prologue(self, m: Clif) -> Clif {
        let m = self.enter(m);
        let go = m.info(m.current->0).args[0];
        let cfr = m.info(m.current->0).args[1];
        let m = self.pin(m, go, cfr);
        let m = self.load_args(m, cfr, self.args.len());
        let (m, und) = m.constant(Ty::I64, JS_UNDEFINED);
        let (m, callee) = m.ins(crate::clif::load(Ty::I64, Flags::Trusted, cfr, CFR_CALLEE));
        let (m, scope) = m.ins(crate::clif::load(Ty::I64, Flags::Trusted, callee, JSCALLEE_SCOPE));
        self.init_locs(m, scope, und, self.locs.len())
    }

    /// The exception sink returns undefined.
    #[verifier::opaque]
    pub open spec fn sink(self, m: Clif) -> Clif {
        let (m, und) = m.switch_to(self.exc_sink).constant(Ty::I64, JS_UNDEFINED);
        m.push(Inst::Return { args: seq![und] })
    }
}

/// The function of a body. It has the number `own`, the slow paths have the numbers `ids`.
pub open spec fn program(body: BodyView, pa: bool, own: u32, ids: Seq<FuncId>) -> Clif {
    let frame = frame_of(body, pa);
    let m = frame.prologue(
        Clif { setup: setup_of(body, pa, own, ids), ..Clif::empty(entry_sig(), own) },
    );
    frame.sink(frame.ops(Code { m, labels: Map::empty() }, body.ops).m)
}

/// `m` is what sealing leaves of the function of `body`, which is in order and small enough.
pub open spec fn generated_from(
    m: Clif,
    body: BodyView,
    pa: bool,
    own: u32,
    ids: Seq<FuncId>,
) -> bool {
    &&& body.ok()
    &&& fits_limits(body)
    &&& fits_compiler(body)
    &&& ids.len() == slow_paths().len()
    &&& m == sealed_as(program(body, pa, own, ids))
}

/// `m` is what sealing leaves of the function of some body that can be compiled.
pub open spec fn generated(m: Clif) -> bool {
    exists|body: BodyView, pa: bool, own: u32, ids: Seq<FuncId>| #[trigger]
        generated_from(m, body, pa, own, ids)
}

/// The slow paths are declared in a module under the numbers `ids`, in the order of
/// [`slow_paths`].
pub open spec fn slows_declared(module: ObjectModule, ids: Seq<FuncId>, pa: bool) -> bool {
    &&& ids.len() == slow_paths().len()
    &&& forall|i: int|
        0 <= i < ids.len() ==> {
            &&& (#[trigger] ids[i]).id < functions(module).len()
            &&& functions(module)[ids[i].id as int].sig == Some(slow_paths()[i].abi(pa))
        }
}

/// `n` more variables.
fn declare_vars(b: &mut FunctionBuilder, n: u32) -> (r: Vec<Variable>)
    requires
        clif(*old(b)).setup.vars.len() + n + 1 < u32::MAX,
    ensures
        r@ == Seq::new(
            n as nat,
            |i: int| Variable { id: (clif(*old(b)).setup.vars.len() + i) as u32 },
        ),
        clif(*final(b)) == (Clif {
            setup: Setup {
                vars: clif(*old(b)).setup.vars + Seq::new(n as nat, |i: int| Ty::I64),
                ..clif(*old(b)).setup
            },
            ..clif(*old(b))
        }),
{
    let ghost m = clif(*b);
    let mut r: Vec<Variable> = Vec::new();
    proof {
        assert(m.setup.vars + Seq::new(0, |i: int| Ty::I64) =~= m.setup.vars);
    }
    for i in 0..n
        invariant
            m == clif(*old(b)),
            m.setup.vars.len() + n + 1 < u32::MAX,
            r@.len() == i,
            forall|j: int|
                0 <= j < i ==> #[trigger] r@[j] == (Variable {
                    id: (m.setup.vars.len() + j) as u32,
                }),
            clif(*b) == (Clif {
                setup: Setup {
                    vars: m.setup.vars + Seq::new(i as nat, |i: int| Ty::I64),
                    ..m.setup
                },
                ..m
            }),
    {
        let v = declare_var(b, Ty::I64);
        r.push(v);
        proof {
            reveal(Clif::declare_var);
            assert((m.setup.vars + Seq::new(i as nat, |i: int| Ty::I64)).push(Ty::I64)
                =~= m.setup.vars + Seq::new((i + 1) as nat, |i: int| Ty::I64));
        }
    }
    r
}

/// The slow paths become callable.
fn import_slows(
    module: &mut ObjectModule,
    ids: &Vec<FuncId>,
    b: &mut FunctionBuilder,
    Ghost(pa): Ghost<bool>,
) -> (r: Vec<FuncRef>)
    requires
        slows_declared(*old(module), ids@, pa),
        clif(*old(b)).setup.callees.len() == 0,
        clif(*old(b)).setup.names.len() == 0,
    ensures
        functions(*final(module)) == functions(*old(module)),
        data_names(*final(module)) == data_names(*old(module)),
        defined(*final(module)) == defined(*old(module)),
        target(*final(module)) == target(*old(module)),
        r@ == Seq::new(slow_paths().len(), |i: int| FuncRef { id: i as u32 }),
        clif(*final(b)) == (Clif {
            setup: Setup {
                callees: slow_paths().map_values(|s: Slow| s.abi(pa)),
                names: ids@.map_values(|f: FuncId| f.id),
                ..clif(*old(b)).setup
            },
            ..clif(*old(b))
        }),
{
    let ghost m = clif(*b);
    let ghost abis = slow_paths().map_values(|s: Slow| s.abi(pa));
    let ghost names = ids@.map_values(|f: FuncId| f.id);
    let mut r: Vec<FuncRef> = Vec::new();
    let n: usize = ids.len();
    assert(abis.take(0) =~= m.setup.callees);
    assert(names.take(0) =~= m.setup.names);
    for i in 0..n
        invariant
            n == ids@.len(),
            m == clif(*old(b)),
            abis == slow_paths().map_values(|s: Slow| s.abi(pa)),
            names == ids@.map_values(|f: FuncId| f.id),
            slows_declared(*old(module), ids@, pa),
            functions(*module) == functions(*old(module)),
            data_names(*module) == data_names(*old(module)),
            defined(*module) == defined(*old(module)),
            target(*module) == target(*old(module)),
            r@.len() == i,
            forall|j: int| 0 <= j < i ==> #[trigger] r@[j] == (FuncRef { id: j as u32 }),
            clif(*b) == (Clif {
                setup: Setup {
                    callees: abis.take(i as int),
                    names: names.take(i as int),
                    ..m.setup
                },
                ..m
            }),
    {
        assert(ids@[i as int].id < functions(*old(module)).len());
        let f = declare_func_in_func(module, ids[i], b);
        r.push(f);
        proof {
            reveal(Clif::import);
            assert(abis.take(i as int).push(abis[i as int]) =~= abis.take(i + 1));
            assert(names.take(i as int).push(names[i as int]) =~= names.take(i + 1));
        }
    }
    assert(abis.take(n as int) =~= abis);
    assert(names.take(n as int) =~= names);
    r
}

/// What the code before the operations leaves behind: one open block, and the exception
/// sink with nothing in it.
pub open spec fn entered(frame: Frame, m: Clif) -> bool {
    &&& m.wf()
    &&& m.writable()
    &&& m.current == Some(Block { id: 0 })
    &&& m.blocks.len() == 2
    &&& m.info(Block { id: 1 }).status is Empty
    &&& m.info(Block { id: 1 }).args.len() == 0
    &&& frame.exc_sink == Block { id: 1 }
    &&& frame.resolves(m.setup)
}

proof fn lemma_resolves(body: BodyView, pa: bool, own: u32, ids: Seq<FuncId>)
    requires
        fits_limits(body),
    ensures
        frame_of(body, pa).resolves(setup_of(body, pa, own, ids)),
{
    reveal(Frame::resolves);
    let frame = frame_of(body, pa);
    let setup = setup_of(body, pa, own, ids);
    assert forall|s: Slow|
        (#[trigger] frame.callee(s)).id < setup.callees.len() && setup.callees[frame.callee(
            s,
        ).id as int] == s.abi(frame.pa) by {
        crate::slow::lemma_place(s);
    }
}

/// Nothing but the parameters of the function is there, and nothing was written.
pub open spec fn untouched(m: Clif) -> bool {
    &&& m.insts.len() == 0
    &&& m.values.len() == 2
    &&& m.defs == Map::<(Variable, Block), Value>::empty()
    &&& m.current == Some(Block { id: 0 })
    &&& m.layout.len() == 0
    &&& m.has_block(Block { id: 0 })
    &&& m.info(Block { id: 0 }).status is Empty
    &&& !m.info(Block { id: 0 }).cold
    &&& m.all_typed(m.info(Block { id: 0 }).args, m.setup.signature.params)
}

/// The pinned variables are the first ones.
pub open spec fn pins_first(frame: Frame) -> bool {
    &&& frame.go.id == 0
    &&& frame.cfr.id == 1
    &&& frame.md.id == 2
    &&& frame.vm.id == 3
    &&& frame.ntag.id == 4
    &&& frame.ncm.id == 5
    &&& frame.vthis.id == 6
}

/// [`Frame::pin`] gives the pinned variables the values that they keep.
proof fn lemma_pinned(frame: Frame, m: Clif, hot: FuncRef)
    requires
        untouched(m),
        pins_first(frame),
    ensures
        frame.pin(m, Value { id: 0 }, Value { id: 1 }).orderly(hot, pinned_values()),
{
    reveal(Frame::pin);
    reveal(Clif::push);
    reveal(Clif::def_var);
    reveal(Clif::orderly);
    reveal(crate::clif::known);
    reveal(crate::clif::type_of);
}

/// Begins the entry block.
fn enter(e: &mut Emit) -> (r: (Value, Value))
    requires
        old(e).clif() == (Clif {
            setup: old(e).clif().setup,
            ..Clif::empty(old(e).clif().setup.signature, old(e).clif().setup.own)
        }),
        old(e).clif().setup.signature == entry_sig(),
        old(e).frame().resolves(old(e).clif().setup),
        old(e).exc_sink == (Block { id: 1 }),
    ensures
        old(e).same_frame(final(e)),
        final(e).clif() == old(e).frame().enter(old(e).clif()),
        r.0 == final(e).clif().info(final(e).clif().current->0).args[0],
        r.1 == final(e).clif().info(final(e).clif().current->0).args[1],
        final(e).clif().is(r.0, Ty::I64),
        final(e).clif().is(r.1, Ty::I64),
        entered(old(e).frame(), final(e).clif()),
        final(e).clif().setup == old(e).clif().setup,
        old(e).clif().within(final(e).clif(), 2),
        untouched(final(e).clif()),
        final(e).clif().info(Block { id: 0 }).args == seq![Value { id: 0 }, Value { id: 1 }],
        final(e).clif().info(Block { id: 0 }).phis.len() == 0,
        r == (Value { id: 0 }, Value { id: 1 }),
{
    proof {
        reveal(Frame::enter);
        lemma_empty_wf(e.clif());
        lemma_take_function_params(e.clif());
    }
    let entry = create_block(&mut e.b);
    append_block_params_for_function_params(&mut e.b, entry);
    let sink = create_block(&mut e.b);
    set_cold_block(&mut e.b, sink);
    switch_to_block(&mut e.b, entry);
    assert(untouched(e.clif()) && e.clif().info(entry).args == seq![
        Value { id: 0 },
        Value { id: 1 },
    ] && e.clif().info(entry).phis.len() == 0) by {
        reveal(Clif::create_block);
        reveal(Clif::take_function_params);
        reveal(Clif::set_cold);
        reveal(Clif::switch_to);
    }
    (block_param(&e.b, entry, 0), block_param(&e.b, entry, 1))
}

/// Gives the pinned variables and `this` their values.
fn pin(e: &mut Emit, go: Value, cfr: Value)
    requires
        old(e).ready(10),
        old(e).clif().is(go, Ty::I64),
        old(e).clif().is(cfr, Ty::I64),
        untouched(old(e).clif()),
        pins_first(old(e).frame()),
        (go, cfr) == (Value { id: 0 }, Value { id: 1 }),
    ensures
        old(e).same_frame(final(e)),
        final(e).clif() == old(e).frame().pin(old(e).clif(), go, cfr),
        old(e).clif().continued_in(final(e).clif()),
        old(e).clif().within(final(e).clif(), 10),
        final(e).tidy(),
{
    proof {
        lemma_pinned(e.frame(), e.clif(), e.frame().callee(Slow::DispatchCall));
        reveal(Frame::pin);
    }
    def_var(&mut e.b, e.go, go);
    def_var(&mut e.b, e.cfr, cfr);
    let vm = load(&mut e.b, Ty::I64, Flags::ReadOnly, go, GO_VM_OFFSET);
    def_var(&mut e.b, e.vm, vm);
    let cb = load(&mut e.b, Ty::I64, Flags::ReadOnly, cfr, CFR_CODEBLOCK);
    let md = load(&mut e.b, Ty::I64, Flags::ReadOnly, cb, CB_METADATA);
    def_var(&mut e.b, e.md, md);
    let ntag = iconst(&mut e.b, Ty::I64, NUMBER_TAG);
    def_var(&mut e.b, e.ntag, ntag);
    let ncm = iconst(&mut e.b, Ty::I64, NOT_CELL_MASK);
    def_var(&mut e.b, e.ncm, ncm);
    let this = load(&mut e.b, Ty::I64, Flags::Trusted, cfr, CFR_THIS);
    def_var(&mut e.b, e.vthis, this);
}

/// Reads the arguments from the call frame.
fn load_args(e: &mut Emit, cfr: Value)
    requires
        old(e).ready(old(e).args@.len()),
        old(e).args@.len() <= u16::MAX,
        old(e).clif().is(cfr, Ty::I64),
    ensures
        old(e).same_frame(final(e)),
        final(e).clif() == old(e).frame().load_args(old(e).clif(), cfr, old(e).args@.len()),
        old(e).clif().continued_in(final(e).clif()),
        old(e).clif().within(final(e).clif(), old(e).args@.len()),
        old(e).tidy() ==> final(e).tidy(),
{
    let ghost m = e.clif();
    let ghost frame = e.frame();
    let n: usize = e.args.len();
    proof {
        reveal(Frame::load_args);
    }
    for i in 0..n
        invariant
            m == old(e).clif(),
            frame == old(e).frame(),
            n == frame.args.len(),
            n <= u16::MAX,
            old(e).same_frame(e),
            old(e).ready(n as nat),
            m.is(cfr, Ty::I64),
            e.clif() == frame.load_args(m, cfr, i as nat),
            m.continued_in(e.clif()),
            m.within(e.clif(), i as nat),
            old(e).tidy() ==> e.tidy(),
    {
        proof {
            reveal(Frame::load_args);
            crate::template::frame_register(frame, (i + 1) as i32, e.clif().setup);
        }
        assert(frame.var((i + 1) as i32) == e.args@[i as int]);
        let v = load(&mut e.b, Ty::I64, Flags::Trusted, cfr, CFR_ARG0 + 8 * (i as i32));
        def_var(&mut e.b, e.args[i], v);
    }
}

/// Gives the locals their first values.
fn init_locs(e: &mut Emit, scope: Value, und: Value)
    requires
        old(e).ready(0),
        old(e).locs@.len() <= u16::MAX,
        old(e).clif().is(scope, Ty::I64),
        old(e).clif().is(und, Ty::I64),
    ensures
        old(e).same_frame(final(e)),
        final(e).clif() == old(e).frame().init_locs(
            old(e).clif(),
            scope,
            und,
            old(e).locs@.len(),
        ),
        old(e).clif().continued_in(final(e).clif()),
        old(e).clif().within(final(e).clif(), 0),
        old(e).tidy() ==> final(e).tidy(),
{
    let ghost m = e.clif();
    let ghost frame = e.frame();
    let n: usize = e.locs.len();
    proof {
        reveal(Frame::init_locs);
    }
    for i in 0..n
        invariant
            m == old(e).clif(),
            frame == old(e).frame(),
            n == frame.locs.len(),
            n <= u16::MAX,
            old(e).same_frame(e),
            old(e).ready(0),
            m.is(scope, Ty::I64),
            m.is(und, Ty::I64),
            e.clif() == frame.init_locs(m, scope, und, i as nat),
            m.continued_in(e.clif()),
            m.within(e.clif(), 0),
            old(e).tidy() ==> e.tidy(),
    {
        proof {
            reveal(Frame::init_locs);
            crate::template::frame_register(frame, (-1 - i) as i32, e.clif().setup);
        }
        assert(frame.var((-1 - i) as i32) == e.locs@[i as int]);
        if i == 0 {
            def_var(&mut e.b, e.locs[i], scope);
        } else {
            def_var(&mut e.b, e.locs[i], und);
        }
    }
}

/// No instruction is a branch.
spec fn straight(m: Clif) -> bool {
    forall|i: int| 0 <= i < m.insts.len() ==> !(#[trigger] m.insts[i]).inst.is_terminator()
}

/// What only gives values to variables of a block that was begun.
spec fn only_defines(m: Clif, q: Clif) -> bool {
    &&& q.current == m.current
    &&& q.blocks == m.blocks
    &&& q.layout == m.layout
    &&& q.setup == m.setup
    &&& forall|k: (Variable, Block)| #[trigger]
        m.defs.contains_key(k) ==> q.defs.contains_key(k)
    &&& straight(m) ==> straight(q)
}

proof fn lemma_only_defines(m: Clif, inst: Inst)
    requires
        m.current is Some,
        m.has_block(m.current->0),
        m.info(m.current->0).status !is Empty,
        !inst.is_terminator(),
    ensures
        only_defines(m, m.push(inst)),
{
    reveal(Clif::push);
}

/// The arguments that are read get values.
proof fn lemma_args_defined(frame: Frame, m: Clif, cfr: Value, n: nat)
    requires
        m.current is Some,
        m.has_block(m.current->0),
        m.info(m.current->0).status !is Empty,
        n <= frame.args.len(),
    ensures
        only_defines(m, frame.load_args(m, cfr, n)),
        forall|j: int|
            0 <= j < n ==> frame.load_args(m, cfr, n).defs.contains_key(
                (#[trigger] frame.args[j], m.current->0),
            ),
    decreases n,
{
    reveal(Frame::load_args);
    if n > 0 {
        lemma_args_defined(frame, m, cfr, (n - 1) as nat);
        let p = frame.load_args(m, cfr, (n - 1) as nat);
        let read = crate::clif::load(
            Ty::I64,
            Flags::Trusted,
            cfr,
            (CFR_ARG0 + 8 * (n - 1)) as i32,
        );
        lemma_only_defines(p, read);
        reveal(Clif::def_var);
        assert(frame.load_args(m, cfr, n) == p.push(read).def_var(frame.args[n - 1], p.next()));
    }
}

/// The locals get values.
proof fn lemma_locs_defined(frame: Frame, m: Clif, scope: Value, und: Value, n: nat)
    requires
        m.current is Some,
        n <= frame.locs.len(),
    ensures
        only_defines(m, frame.init_locs(m, scope, und, n)),
        forall|j: int|
            0 <= j < n ==> frame.init_locs(m, scope, und, n).defs.contains_key(
                (#[trigger] frame.locs[j], m.current->0),
            ),
    decreases n,
{
    reveal(Frame::init_locs);
    if n > 0 {
        lemma_locs_defined(frame, m, scope, und, (n - 1) as nat);
        reveal(Clif::def_var);
    }
}

/// The pinned variables and `this` get values.
proof fn lemma_pins_defined(frame: Frame, m: Clif)
    requires
        untouched(m),
        pins_first(frame),
    ensures
        ({
            let q = frame.pin(m, Value { id: 0 }, Value { id: 1 });
            let b = Block { id: 0 };
            &&& q.current == Some(b)
            &&& q.has_block(b)
            &&& q.info(b).status is Partial
            &&& q.info(b).args == m.info(b).args
            &&& q.info(b).phis == m.info(b).phis
            &&& q.layout == seq![b]
            &&& q.setup == m.setup
            &&& straight(q)
            &&& forall|v: Variable| v.id < 7 ==> #[trigger] q.defs.contains_key((v, b))
        }),
{
    reveal(Frame::pin);
    reveal(Clif::push);
    reveal(Clif::def_var);
    let q = frame.pin(m, Value { id: 0 }, Value { id: 1 });
    assert(q.layout =~= seq![Block { id: 0 }]);
}

/// The prologue gives values to all variables, in the first block.
proof fn lemma_opened(body: BodyView, pa: bool, m: Clif)
    requires
        fits_limits(body),
        untouched(m),
        m.info(Block { id: 0 }).phis.len() == 0,
        m.setup.signature == entry_sig(),
        m.setup.vars.len() == n_vars(body),
        m.info(Block { id: 0 }).args == seq![Value { id: 0 }, Value { id: 1 }],
    ensures
        ({
            let frame = frame_of(body, pa);
            let cfr = Value { id: 1 };
            let m = frame.pin(m, Value { id: 0 }, cfr);
            let m = frame.load_args(m, cfr, frame.args.len());
            let (m, und) = m.constant(Ty::I64, JS_UNDEFINED);
            let (m, callee) = m.ins(crate::clif::load(Ty::I64, Flags::Trusted, cfr, CFR_CALLEE));
            let (m, scope) = m.ins(
                crate::clif::load(Ty::I64, Flags::Trusted, callee, JSCALLEE_SCOPE),
            );
            frame.init_locs(m, scope, und, frame.locs.len()).opened()
        }),
{
    reveal(Clif::opened);
    let frame = frame_of(body, pa);
    let b = Block { id: 0 };
    let cfr = Value { id: 1 };
    let m1 = frame.pin(m, Value { id: 0 }, cfr);
    lemma_pins_defined(frame, m);
    let m2 = frame.load_args(m1, cfr, frame.args.len());
    lemma_args_defined(frame, m1, cfr, frame.args.len());
    let (m3, und) = m2.constant(Ty::I64, JS_UNDEFINED);
    lemma_only_defines(
        m2,
        Inst::Iconst { ty: Ty::I64, imm: crate::clif::masked(Ty::I64, JS_UNDEFINED) },
    );
    let i4 = crate::clif::load(Ty::I64, Flags::Trusted, cfr, CFR_CALLEE);
    let (m4, callee) = m3.ins(i4);
    lemma_only_defines(m3, i4);
    let i5 = crate::clif::load(Ty::I64, Flags::Trusted, callee, JSCALLEE_SCOPE);
    let (m5, scope) = m4.ins(i5);
    lemma_only_defines(m4, i5);
    let m6 = frame.init_locs(m5, scope, und, frame.locs.len());
    lemma_locs_defined(frame, m5, scope, und, frame.locs.len());
    assert forall|v: Variable| v.id < m6.setup.vars.len() implies #[trigger] m6.defs.contains_key(
        (v, b),
    ) by {
        if v.id < 7 {
            assert(m1.defs.contains_key((v, b)));
        } else if v.id < 7 + body.n_args {
            assert(frame.args[v.id - 7] == v);
            assert(m2.defs.contains_key((v, b)));
        } else {
            assert(frame.locs[v.id - 7 - body.n_args] == v);
        }
    }
}

/// The function is well formed, and all its blocks are ended.
pub open spec fn complete(m: Clif) -> bool {
    &&& m.wf()
    &&& !m.setup.sealed
    &&& all_filled(m)
}

/// Every call is of a slow path, passes what that takes, and gets what that returns.
pub open spec fn calls_fit(m: Clif, pa: bool) -> bool {
    forall|i: int|
        0 <= i < m.insts.len() ==> match (#[trigger] m.insts[i]).inst {
            Inst::Call { callee, args } => {
                let abi = slow_paths()[callee.id as int].abi(pa);
                &&& callee.id < slow_paths().len()
                &&& m.all_typed(args, abi.params)
                &&& m.all_typed(m.insts[i].results, abi.returns)
            },
            _ => true,
        }
}

proof fn lemma_calls_fit(m: Clif, body: BodyView, pa: bool, own: u32, ids: Seq<FuncId>)
    requires
        m.wf(),
        m.setup == setup_of(body, pa, own, ids),
    ensures
        calls_fit(m, pa),
{
    reveal(Clif::wf);
    assert forall|i: int| 0 <= i < m.insts.len() implies match (#[trigger] m.insts[i]).inst {
        Inst::Call { callee, args } => {
            let abi = slow_paths()[callee.id as int].abi(pa);
            &&& callee.id < slow_paths().len()
            &&& m.all_typed(args, abi.params)
            &&& m.all_typed(m.insts[i].results, abi.returns)
        },
        _ => true,
    } by {
        assert(m.line_ok(m.insts[i]));
    }
}

/// The code that the operations of a body are appended to is a place to begin.
proof fn lemma_entered(frame: Frame, m: Clif)
    requires
        entered(frame, m),
    ensures
        (Code { m, labels: Map::empty() }).at(frame, Seq::empty(), 0),
{
    reveal(Code::at);
}

/// Behind the operations of a body, only the exception sink is open.
proof fn lemma_left(c: Code, frame: Frame, body: BodyView)
    requires
        body.ok(),
        c.at(frame, body.ops, body.ops.len() as int),
    ensures
        c.m.wf(),
        frame.fits(c.m),
        c.m.leavable(),
        c.m.info(frame.exc_sink).status is Empty,
        forall|i: int|
            0 <= i < c.m.blocks.len() && i != frame.exc_sink.id ==> (
            #[trigger] c.m.blocks[i]).status is Filled,
{
    reveal(Code::at);
    let ops = body.ops;
    let n = ops.len() as int;
    assert forall|i: int|
        0 <= i < c.m.blocks.len() && i != frame.exc_sink.id implies (
    #[trigger] c.m.blocks[i]).status is Filled by {
        if c.waits(ops, n, i) {
            let id = choose|id: u32| #[trigger]
                c.labels.contains_key(id) && !bound(ops, n, id) && c.labels[id].id == i;
            assert(c.label_at(frame, ops, n, id));
            let j = choose|j: int| 0 <= j < n && (#[trigger] ops[j]).target() == Some(id);
            assert(ops[j].target() is Some);
        }
    }
}

/// Ends the exception sink.
fn sink(e: &mut Emit)
    requires
        old(e).clif().wf(),
        old(e).clif().leavable(),
        old(e).clif().room(2),
        old(e).frame().fits(old(e).clif()),
        old(e).clif().info(old(e).exc_sink).status is Empty,
        forall|i: int|
            0 <= i < old(e).clif().blocks.len() && i != old(e).exc_sink.id ==> (
            #[trigger] old(e).clif().blocks[i]).status is Filled,
    ensures
        old(e).frame() == final(e).frame(),
        final(e).clif() == old(e).frame().sink(old(e).clif()),
        complete(final(e).clif()),
        final(e).clif().setup == old(e).clif().setup,
        old(e).clif().within(final(e).clif(), 2),
        old(e).orderly() ==> final(e).orderly(),
        final(e).clif().blocks.len() == old(e).clif().blocks.len(),
{
    proof {
        reveal(Frame::sink);
        reveal(Frame::resolves);
    }
    let sink = e.exc_sink;
    switch_to_block(&mut e.b, sink);
    let und = iconst(&mut e.b, Ty::I64, JS_UNDEFINED);
    let args: [Value; 1] = [und];
    assert(args@ =~= seq![und]);
    return_(&mut e.b, &args);
}

/// Generates the function of a body with a new builder.
pub(crate) fn emit_function<'a>(
    b: FunctionBuilder<'a>,
    module: &mut ObjectModule,
    slow_ids: &Vec<FuncId>,
    body: &Body,
    pa: bool,
) -> (r: FunctionBuilder<'a>)
    requires
        clif(b) == Clif::empty(entry_sig(), clif(b).setup.own),
        body@.ok(),
        fits_limits(body@),
        slows_declared(*old(module), slow_ids@, pa),
    ensures
        functions(*final(module)) == functions(*old(module)),
        data_names(*final(module)) == data_names(*old(module)),
        defined(*final(module)) == defined(*old(module)),
        target(*final(module)) == target(*old(module)),
        clif(r) == program(body@, pa, clif(b).setup.own, slow_ids@),
        complete(clif(r)),
        clif(r).calls_are_cold(frame_of(body@, pa).callee(Slow::DispatchCall)),
        clif(r).pinned(pinned_values()),
        clif(r).has_entry(),
        clif(r).opened(),
        calls_fit(clif(r), pa),
        clif(r).setup == setup_of(body@, pa, clif(b).setup.own, slow_ids@),
        clif(b).within(clif(r), size_bound(body@)),
{
    let ghost view = body@;
    let ghost own = clif(b).setup.own;
    let ghost frame = frame_of(view, pa);
    proof {
        lemma_resolves(view, pa, own, slow_ids@);
        assert(size_bound(view) <= size_bound(view) * (2 * n_vars(view) + 1)) by (nonlinear_arith)
            requires
                size_bound(view) >= 0,
                n_vars(view) >= 0,
        ;
    }
    let mut b = b;
    let pinned = declare_vars(&mut b, 7);
    let args = declare_vars(&mut b, body.n_args);
    let locs = declare_vars(&mut b, body.n_locals);
    let slows = import_slows(module, slow_ids, &mut b, Ghost(pa));
    let out_slot = create_sized_stack_slot(&mut b, 8, 3);
    proof {
        reveal(Clif::create_slot);
        assert(clif(b).setup.vars =~= setup_of(view, pa, own, slow_ids@).vars);
        assert(clif(b).setup.slots =~= setup_of(view, pa, own, slow_ids@).slots);
        assert(clif(b) == Clif { setup: setup_of(view, pa, own, slow_ids@), ..Clif::empty(entry_sig(), own) });
        assert(pinned@[0].id == 0);
    }
    let mut e = Emit {
        b,
        go: pinned[0],
        cfr: pinned[1],
        md: pinned[2],
        vm: pinned[3],
        ntag: pinned[4],
        ncm: pinned[5],
        vthis: pinned[6],
        args,
        locs,
        labels: HashMap::new(),
        // the second block, which `enter` makes
        exc_sink: Block { id: 1 },
        slows,
        out_slot,
        pa,
    };
    proof {
        assert(e.args@ =~= frame.args);
        assert(e.locs@ =~= frame.locs);
        assert(e.frame() == frame);
    }
    let ghost start = e.clif();
    let (go, cfr) = enter(&mut e);
    proof {
        lemma_opened(view, pa, e.clif());
    }
    pin(&mut e, go, cfr);
    load_args(&mut e, cfr);
    let und = iconst(&mut e.b, Ty::I64, JS_UNDEFINED);
    let callee = load(&mut e.b, Ty::I64, Flags::Trusted, cfr, CFR_CALLEE);
    let scope = load(&mut e.b, Ty::I64, Flags::Trusted, callee, JSCALLEE_SCOPE);
    init_locs(&mut e, scope, und);
    proof {
        assert(e.clif() == frame.prologue(start));
        assert(e.clif().opened());
        lemma_entered(frame, e.clif());
        assert(e.labels@ =~= Map::empty());
        assert(op_views(body.ops@) == view.ops);
        assert(Seq::empty() + view.ops =~= view.ops);
    }
    emit_body(&mut e, &body.ops, Ghost(Seq::empty()));
    proof {
        lemma_left(e.code(), frame, view);
    }
    sink(&mut e);
    proof {
        reveal(Clif::orderly);
        lemma_calls_fit(e.clif(), view, pa, own, slow_ids@);
    }
    e.b
}

} // verus!
