//! What the registers hold when a function is entered, and what an exception returns.
use crate::accesses::{gives, lemma_stands};
use crate::bytecode::{is_register, BodyView, JS_UNDEFINED, NOT_CELL_MASK, NUMBER_TAG, VR};
use crate::clif::{load, masked, Block, Clif, Flags, Inst, Ty, Value, Variable};
use crate::detours::lemma_obeys;
use crate::function::{entry_sig, fits_limits, frame_of, setup_of, untouched};
use crate::growth::{grows_refl, placed};
use crate::meaning::{respects, Bits};
use crate::module::FuncId;
use crate::operations::returns_bits;
use crate::template::{
    Frame, CB_METADATA, CFR_ARG0, CFR_CALLEE, CFR_CODEBLOCK, CFR_THIS, GO_VM_OFFSET, JSCALLEE_SCOPE,
};
use vstd::prelude::*;

verus! {

broadcast use {crate::clif::group_clif, crate::template::group_frame};

/// Different registers of a body have different variables.
pub proof fn registers_have_their_own_variables(body: BodyView, pa: bool, r: VR, q: VR)
    requires
        fits_limits(body),
        is_register(r, body.n_args as nat, body.n_locals as nat),
        is_register(q, body.n_args as nat, body.n_locals as nat),
        frame_of(body, pa).var(r) == frame_of(body, pa).var(q),
    ensures
        r == q,
{
}

/// All that stood in `m` stands in `n`.
spec fn longer(m: Clif, n: Clif) -> bool {
    &&& m.insts.len() <= n.insts.len()
    &&& forall|i: int| 0 <= i < m.insts.len() ==> #[trigger] n.insts[i] == m.insts[i]
}

proof fn lemma_gives_longer(m: Clif, n: Clif, b: Block, inst: Inst, v: Value)
    requires
        longer(m, n),
        gives(m, b, inst, v),
    ensures
        gives(n, b, inst, v),
{
    let i = choose|i: int|
        0 <= i < m.insts.len() && (#[trigger] m.insts[i]).block == b && m.insts[i].inst == inst
            && m.insts[i].results == seq![v];
    assert(n.insts[i] == m.insts[i]);
}

/// The block `b` begins with `var` as what stands at `offset` behind `base`.
pub open spec fn holds_loaded(
    n: Clif,
    b: Block,
    var: Variable,
    flags: Flags,
    base: Value,
    offset: i32,
) -> bool {
    &&& n.defs.contains_key((var, b))
    &&& gives(n, b, load(Ty::I64, flags, base, offset), n.defs[(var, b)])
}

/// One read, whose result becomes the value of a variable.
proof fn lemma_loaded(m: Clif, var: Variable, flags: Flags, base: Value, offset: i32)
    requires
        m.current is Some,
        m.has_block(m.current->0),
    ensures
        ({
            let n = m.push(load(Ty::I64, flags, base, offset)).def_var(var, m.next());
            &&& longer(m, n)
            &&& holds_loaded(n, m.current->0, var, flags, base, offset)
            &&& n.current == m.current
            &&& n.has_block(m.current->0)
            &&& n.defs == m.defs.insert((var, m.current->0), m.next())
            &&& gives(n, m.current->0, load(Ty::I64, flags, base, offset), m.next())
        }),
{
    let inst = load(Ty::I64, flags, base, offset);
    grows_refl(m.push(inst));
    lemma_stands(m, inst, m.push(inst));
    reveal(Clif::push);
    reveal(Clif::def_var);
}

/// The arguments are read one after the other.
proof fn lemma_args(body: BodyView, pa: bool, m: Clif, cfr: Value, n: nat)
    requires
        fits_limits(body),
        m.current is Some,
        m.has_block(m.current->0),
        n <= body.n_args,
    ensures
        ({
            let f = frame_of(body, pa);
            let q = f.load_args(m, cfr, n);
            let b = m.current->0;
            &&& longer(m, q)
            &&& q.current == m.current
            &&& q.has_block(b)
            &&& forall|j: int|
                0 <= j < n ==> #[trigger] holds_loaded(
                    q,
                    b,
                    f.args[j],
                    Flags::Trusted,
                    cfr,
                    (CFR_ARG0 + 8 * j) as i32,
                )
            &&& forall|k: (Variable, Block)|
                #![trigger q.defs[k]]
                #![trigger q.defs.contains_key(k)]
                !(7 <= k.0.id < 7 + n) ==> q.defs.contains_key(k) == m.defs.contains_key(k)
                    && q.defs[k] == m.defs[k]
        }),
    decreases n,
{
    reveal(Frame::load_args);
    let f = frame_of(body, pa);
    let b = m.current->0;
    if n > 0 {
        let l = (n - 1) as nat;
        lemma_args(body, pa, m, cfr, l);
        let p = f.load_args(m, cfr, l);
        let q = f.load_args(m, cfr, n);
        lemma_loaded(p, f.args[n - 1], Flags::Trusted, cfr, (CFR_ARG0 + 8 * (n - 1)) as i32);
        assert(q == p.push(load(Ty::I64, Flags::Trusted, cfr, (CFR_ARG0 + 8 * (n - 1)) as i32)).def_var(
            f.args[n - 1],
            p.next(),
        ));
        assert forall|j: int| 0 <= j < n implies #[trigger] holds_loaded(
            q,
            b,
            f.args[j],
            Flags::Trusted,
            cfr,
            (CFR_ARG0 + 8 * j) as i32,
        ) by {
            if j < n - 1 {
                assert(holds_loaded(p, b, f.args[j], Flags::Trusted, cfr, (CFR_ARG0 + 8 * j) as i32));
                assert(q.defs[(f.args[j], b)] == p.defs[(f.args[j], b)]);
                lemma_gives_longer(
                    p,
                    q,
                    b,
                    load(Ty::I64, Flags::Trusted, cfr, (CFR_ARG0 + 8 * j) as i32),
                    p.defs[(f.args[j], b)],
                );
            }
        }
    }
}

/// The locals get their first values.
proof fn lemma_locs(body: BodyView, pa: bool, m: Clif, scope: Value, und: Value, n: nat)
    requires
        fits_limits(body),
        m.current is Some,
        n <= body.n_locals,
    ensures
        ({
            let f = frame_of(body, pa);
            let q = f.init_locs(m, scope, und, n);
            let b = m.current->0;
            &&& q.insts == m.insts
            &&& q.values == m.values
            &&& q.current == m.current
            &&& forall|j: int|
                0 <= j < n ==> q.defs.contains_key((#[trigger] f.locs[j], b)) && q.defs[(
                    f.locs[j],
                    b,
                )] == if j == 0 {
                    scope
                } else {
                    und
                }
            &&& forall|k: (Variable, Block)|
                #![trigger q.defs[k]]
                #![trigger q.defs.contains_key(k)]
                k.0.id < 7 + body.n_args ==> q.defs.contains_key(k) == m.defs.contains_key(k)
                    && q.defs[k] == m.defs[k]
        }),
    decreases n,
{
    reveal(Frame::init_locs);
    reveal(Clif::def_var);
    if n > 0 {
        lemma_locs(body, pa, m, scope, und, (n - 1) as nat);
    }
}

/// What the registers and the pinned variables hold at the end of the prologue `n`, in the
/// first block: the arguments, `this` and the callee's scope come from the call frame, and the
/// other locals are undefined.
pub open spec fn registers_are_set(f: Frame, n: Clif, e: Bits) -> bool {
    let b = Block { id: 0 };
    let go = Value { id: 0 };
    let cfr = Value { id: 1 };
    &&& n.defs.contains_key((f.go, b)) && n.defs[(f.go, b)] == go
    &&& n.defs.contains_key((f.cfr, b)) && n.defs[(f.cfr, b)] == cfr
    &&& holds_loaded(n, b, f.vm, Flags::ReadOnly, go, GO_VM_OFFSET)
    &&& exists|block: Value|
        {
            &&& #[trigger] gives(n, b, load(Ty::I64, Flags::ReadOnly, cfr, CFR_CODEBLOCK), block)
            &&& holds_loaded(n, b, f.md, Flags::ReadOnly, block, CB_METADATA)
        }
    &&& n.defs.contains_key((f.ntag, b)) && e(n.defs[(f.ntag, b)]) == NUMBER_TAG as u64
    &&& n.defs.contains_key((f.ncm, b)) && e(n.defs[(f.ncm, b)]) == NOT_CELL_MASK as u64
    &&& holds_loaded(n, b, f.var(0), Flags::Trusted, cfr, CFR_THIS)
    &&& forall|j: int|
        0 <= j < f.args.len() ==> holds_loaded(
            n,
            b,
            #[trigger] f.var((j + 1) as VR),
            Flags::Trusted,
            cfr,
            (CFR_ARG0 + 8 * j) as i32,
        )
    &&& f.locs.len() > 0 ==> exists|callee: Value|
        {
            &&& #[trigger] gives(n, b, load(Ty::I64, Flags::Trusted, cfr, CFR_CALLEE), callee)
            &&& holds_loaded(n, b, f.var(-1i32), Flags::Trusted, callee, JSCALLEE_SCOPE)
        }
    &&& forall|j: int|
        1 <= j < f.locs.len() ==> n.defs.contains_key((#[trigger] f.var((-1 - j) as VR), b)) && e(
            n.defs[(f.var((-1 - j) as VR), b)],
        ) == JS_UNDEFINED as u64
}

/// A constant that stands in the code has its bits.
proof fn lemma_constant_bits(n: Clif, b: Block, k: i64, v: Value, e: Bits)
    requires
        gives(n, b, Inst::Iconst { ty: Ty::I64, imm: masked(Ty::I64, k) }, v),
        respects(n, e),
    ensures
        e(v) == k as u64,
{
    let inst = Inst::Iconst { ty: Ty::I64, imm: masked(Ty::I64, k) };
    let i = choose|i: int|
        0 <= i < n.insts.len() && (#[trigger] n.insts[i]).block == b && n.insts[i].inst == inst
            && n.insts[i].results == seq![v];
    assert(crate::meaning::obeys(n.insts[i], n.values, e));
}

/// What [`Frame::pin`] leaves.
#[verifier::rlimit(60)]
proof fn lemma_pins(body: BodyView, pa: bool, m: Clif)
    requires
        fits_limits(body),
        untouched(m),
    ensures
        ({
            let f = frame_of(body, pa);
            let b = Block { id: 0 };
            let go = Value { id: 0 };
            let cfr = Value { id: 1 };
            let n = f.pin(m, go, cfr);
            &&& n.current == Some(b)
            &&& n.has_block(b)
            &&& n.defs.contains_key((f.go, b)) && n.defs[(f.go, b)] == go
            &&& n.defs.contains_key((f.cfr, b)) && n.defs[(f.cfr, b)] == cfr
            &&& holds_loaded(n, b, f.vm, Flags::ReadOnly, go, GO_VM_OFFSET)
            &&& exists|block: Value|
                {
                    &&& #[trigger] gives(
                        n,
                        b,
                        load(Ty::I64, Flags::ReadOnly, cfr, CFR_CODEBLOCK),
                        block,
                    )
                    &&& holds_loaded(n, b, f.md, Flags::ReadOnly, block, CB_METADATA)
                }
            &&& n.defs.contains_key((f.ntag, b)) && gives(
                n,
                b,
                Inst::Iconst { ty: Ty::I64, imm: masked(Ty::I64, NUMBER_TAG) },
                n.defs[(f.ntag, b)],
            )
            &&& n.defs.contains_key((f.ncm, b)) && gives(
                n,
                b,
                Inst::Iconst { ty: Ty::I64, imm: masked(Ty::I64, NOT_CELL_MASK) },
                n.defs[(f.ncm, b)],
            )
            &&& holds_loaded(n, b, f.vthis, Flags::Trusted, cfr, CFR_THIS)
        }),
{
    reveal(Frame::pin);
    reveal(Clif::push);
    reveal(Clif::def_var);
    let f = frame_of(body, pa);
    let b = Block { id: 0 };
    let go = Value { id: 0 };
    let cfr = Value { id: 1 };
    let n = f.pin(m, go, cfr);
    assert(n.insts.len() == 6);
    assert(n.insts[0].block == b && n.insts[0].inst == load(
        Ty::I64,
        Flags::ReadOnly,
        go,
        GO_VM_OFFSET,
    ) && n.insts[0].results =~= seq![n.defs[(f.vm, b)]]);
    let block = Value { id: 3 };
    assert(n.insts[1].block == b && n.insts[1].inst == load(
        Ty::I64,
        Flags::ReadOnly,
        cfr,
        CFR_CODEBLOCK,
    ) && n.insts[1].results =~= seq![block]);
    assert(n.insts[2].block == b && n.insts[2].inst == load(
        Ty::I64,
        Flags::ReadOnly,
        block,
        CB_METADATA,
    ) && n.insts[2].results =~= seq![n.defs[(f.md, b)]]);
    assert(n.insts[3].block == b && n.insts[3].inst == (Inst::Iconst {
        ty: Ty::I64,
        imm: masked(Ty::I64, NUMBER_TAG),
    }) && n.insts[3].results =~= seq![n.defs[(f.ntag, b)]]);
    assert(n.insts[4].block == b && n.insts[4].inst == (Inst::Iconst {
        ty: Ty::I64,
        imm: masked(Ty::I64, NOT_CELL_MASK),
    }) && n.insts[4].results =~= seq![n.defs[(f.ncm, b)]]);
    assert(n.insts[5].block == b && n.insts[5].inst == load(
        Ty::I64,
        Flags::Trusted,
        cfr,
        CFR_THIS,
    ) && n.insts[5].results =~= seq![n.defs[(f.vthis, b)]]);
    assert(gives(n, b, load(Ty::I64, Flags::ReadOnly, cfr, CFR_CODEBLOCK), block));
    assert(holds_loaded(n, b, f.md, Flags::ReadOnly, block, CB_METADATA));
}

/// What [`Frame::enter`] leaves of a function in which nothing was done yet.
proof fn lemma_entered(f: Frame, m: Clif)
    requires
        m == (Clif { setup: m.setup, ..Clif::empty(m.setup.signature, m.setup.own) }),
        m.setup.signature == entry_sig(),
    ensures
        untouched(f.enter(m)),
{
    reveal(Frame::enter);
    reveal(Clif::create_block);
    reveal(Clif::take_function_params);
    reveal(Clif::set_cold);
    reveal(Clif::switch_to);
    reveal(crate::clif::known);
    reveal(crate::clif::type_of);
    let n = f.enter(m);
    let b = Block { id: 0 };
    assert(n.info(b).args =~= seq![Value { id: 0 }, Value { id: 1 }]);
    assert(n.values =~= seq![Ty::I64, Ty::I64]);
    assert(n.all_typed(n.info(b).args, n.setup.signature.params));
}

/// At the end of the prologue the registers hold what the caller passed: see
/// [`registers_are_set`]. The function is entered with the global object and the call frame.
#[verifier::rlimit(60)]
pub proof fn functions_begin_with_their_arguments(
    body: BodyView,
    pa: bool,
    own: u32,
    ids: Seq<FuncId>,
    e: Bits,
)
    requires
        fits_limits(body),
        respects(
            frame_of(body, pa).prologue(
                Clif { setup: setup_of(body, pa, own, ids), ..Clif::empty(entry_sig(), own) },
            ),
            e,
        ),
    ensures
        registers_are_set(
            frame_of(body, pa),
            frame_of(body, pa).prologue(
                Clif { setup: setup_of(body, pa, own, ids), ..Clif::empty(entry_sig(), own) },
            ),
            e,
        ),
{
    let f = frame_of(body, pa);
    let b = Block { id: 0 };
    let go = Value { id: 0 };
    let cfr = Value { id: 1 };
    let m = Clif { setup: setup_of(body, pa, own, ids), ..Clif::empty(entry_sig(), own) };
    lemma_entered(f, m);
    let m0 = f.enter(m);
    assert(m0.info(b).args =~= seq![go, cfr]) by {
        reveal(Frame::enter);
        reveal(Clif::create_block);
        reveal(Clif::take_function_params);
        reveal(Clif::set_cold);
        reveal(Clif::switch_to);
    }
    let m1 = f.pin(m0, go, cfr);
    lemma_pins(body, pa, m0);
    let m2 = f.load_args(m1, cfr, f.args.len());
    lemma_args(body, pa, m1, cfr, f.args.len());
    let und_inst = Inst::Iconst { ty: Ty::I64, imm: masked(Ty::I64, JS_UNDEFINED) };
    let (m3, und) = m2.constant(Ty::I64, JS_UNDEFINED);
    let i4 = load(Ty::I64, Flags::Trusted, cfr, CFR_CALLEE);
    let (m4, callee) = m3.ins(i4);
    let i5 = load(Ty::I64, Flags::Trusted, callee, JSCALLEE_SCOPE);
    let (m5, scope) = m4.ins(i5);
    let n = f.init_locs(m5, scope, und, f.locs.len());
    lemma_pushed_on(m2, und_inst);
    lemma_pushed_on(m3, i4);
    lemma_pushed_on(m4, i5);
    lemma_locs(body, pa, m5, scope, und, f.locs.len());
    assert(n == f.prologue(m));
    assert(longer(m3, n) && longer(m4, n) && longer(m5, n) && longer(m2, n) && longer(m1, n));
    lemma_gives_longer(m3, n, b, und_inst, und);
    lemma_gives_longer(m4, n, b, i4, callee);
    lemma_gives_longer(m5, n, b, i5, scope);
    lemma_constant_bits(n, b, JS_UNDEFINED, und, e);
    assert forall|k: (Variable, Block)| k.0.id < 7 implies n.defs.contains_key(k)
        == m1.defs.contains_key(k) && #[trigger] n.defs[k] == m1.defs[k] by {
        assert(m5.defs == m2.defs);
        assert(m2.defs[k] == m1.defs[k]);
    }
    let block = choose|block: Value|
        {
            &&& #[trigger] gives(m1, b, load(Ty::I64, Flags::ReadOnly, cfr, CFR_CODEBLOCK), block)
            &&& holds_loaded(m1, b, f.md, Flags::ReadOnly, block, CB_METADATA)
        };
    lemma_gives_longer(m1, n, b, load(Ty::I64, Flags::ReadOnly, cfr, CFR_CODEBLOCK), block);
    lemma_gives_longer(
        m1,
        n,
        b,
        load(Ty::I64, Flags::ReadOnly, block, CB_METADATA),
        m1.defs[(f.md, b)],
    );
    lemma_gives_longer(
        m1,
        n,
        b,
        load(Ty::I64, Flags::ReadOnly, go, GO_VM_OFFSET),
        m1.defs[(f.vm, b)],
    );
    lemma_gives_longer(m1, n, b, load(Ty::I64, Flags::Trusted, cfr, CFR_THIS), m1.defs[(f.vthis, b)]);
    lemma_gives_longer(
        m1,
        n,
        b,
        Inst::Iconst { ty: Ty::I64, imm: masked(Ty::I64, NUMBER_TAG) },
        m1.defs[(f.ntag, b)],
    );
    lemma_gives_longer(
        m1,
        n,
        b,
        Inst::Iconst { ty: Ty::I64, imm: masked(Ty::I64, NOT_CELL_MASK) },
        m1.defs[(f.ncm, b)],
    );
    lemma_constant_bits(n, b, NUMBER_TAG, n.defs[(f.ntag, b)], e);
    lemma_constant_bits(n, b, NOT_CELL_MASK, n.defs[(f.ncm, b)], e);
    assert(holds_loaded(n, b, f.md, Flags::ReadOnly, block, CB_METADATA));
    assert(f.var(0) == f.vthis);
    assert forall|j: int| 0 <= j < f.args.len() implies holds_loaded(
        n,
        b,
        #[trigger] f.var((j + 1) as VR),
        Flags::Trusted,
        cfr,
        (CFR_ARG0 + 8 * j) as i32,
    ) by {
        assert(f.var((j + 1) as VR) == f.args[j]);
        assert(holds_loaded(m2, b, f.args[j], Flags::Trusted, cfr, (CFR_ARG0 + 8 * j) as i32));
        assert(n.defs[(f.args[j], b)] == m5.defs[(f.args[j], b)]);
        lemma_gives_longer(
            m2,
            n,
            b,
            load(Ty::I64, Flags::Trusted, cfr, (CFR_ARG0 + 8 * j) as i32),
            m2.defs[(f.args[j], b)],
        );
    }
    if f.locs.len() > 0 {
        assert(f.var(-1i32) == f.locs[0]);
        assert(holds_loaded(n, b, f.var(-1i32), Flags::Trusted, callee, JSCALLEE_SCOPE));
    }
    assert forall|j: int| 1 <= j < f.locs.len() implies n.defs.contains_key(
        (#[trigger] f.var((-1 - j) as VR), b),
    ) && e(n.defs[(f.var((-1 - j) as VR), b)]) == JS_UNDEFINED as u64 by {
        assert(f.var((-1 - j) as VR) == f.locs[j]);
    }
}

/// One instruction more.
proof fn lemma_pushed_on(m: Clif, inst: Inst)
    requires
        m.current is Some,
        m.has_block(m.current->0),
        m.result_types(inst).len() == 1,
        !inst.is_terminator(),
    ensures
        longer(m, m.push(inst)),
        gives(m.push(inst), m.current->0, inst, m.next()),
        m.push(inst).current == m.current,
        m.push(inst).has_block(m.current->0),
        m.push(inst).defs == m.defs,
{
    grows_refl(m.push(inst));
    lemma_stands(m, inst, m.push(inst));
    reveal(Clif::push);
}

/// The exception sink returns undefined.
pub proof fn exceptions_return_undefined(f: Frame, m: Clif, e: Bits)
    requires
        m.has_block(f.exc_sink),
        respects(f.sink(m), e),
    ensures
        returns_bits(f.sink(m), e, f.exc_sink, JS_UNDEFINED),
        f.sink(m).insts.len() == m.insts.len() + 2,
{
    broadcast use crate::growth::group_grows;

    reveal(Frame::sink);
    let m0 = m.switch_to(f.exc_sink);
    let (m1, und) = m0.constant(Ty::I64, JS_UNDEFINED);
    let back = Inst::Return { args: seq![und] };
    let n = m1.push(back);
    assert(n == f.sink(m));
    assert(placed(m0)) by {
        reveal(Clif::switch_to);
    }
    grows_refl(n);
    lemma_stands(m1, back, n);
    let inst = Inst::Iconst { ty: Ty::I64, imm: masked(Ty::I64, JS_UNDEFINED) };
    lemma_obeys(m0, inst, n, e);
    assert(crate::accesses::stands(n, f.exc_sink, back));
    reveal(Clif::push);
    reveal(Clif::switch_to);
}

} // verus!
