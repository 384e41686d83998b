//! The slow sides of operations: which slow path is called, for what, and who goes on.
//!
//! As in [`crate::runs`], the claims are made for all [`Bits`] that go by the instructions.
use crate::clif::{load, masked, store, Block, Clif, Flags, Inst, Line, Ty, Value, Variable};
use crate::growth::{brif, goes, grows, lemma_goes_pushed, placed, silent};
use crate::meaning::{obeys, respects, Bits};
use crate::slow::Slow;
use crate::template::{pinned_values, Frame, CFR_CALLSITE, VM_EXC_OFFSET};
use vstd::prelude::*;

verus! {

broadcast use {crate::clif::group_clif, crate::template::group_frame};

/// What a slow path is called for.
pub struct Detour {
    /// The call site, if it is written to the call frame before the call.
    pub site: Option<u32>,
    pub path: Slow,
    /// The first arguments.
    pub head: Seq<Value>,
    /// The bits of the other arguments, which are constants.
    pub tail: Seq<u32>,
}

/// The `i`-th instruction of the function is `inst`, in the block `b`.
pub open spec fn line_is(n: Clif, i: int, b: Block, inst: Inst) -> bool {
    &&& 0 <= i < n.insts.len()
    &&& n.insts[i].block == b
    &&& n.insts[i].inst == inst
}

/// The `i`-th instruction of the function is `inst`, in the block `b`, and gives `v`.
pub open spec fn line_gives(n: Clif, i: int, b: Block, inst: Inst, v: Value) -> bool {
    line_is(n, i, b, inst) && n.insts[i].results == seq![v]
}

/// The block `b` writes the call site `bc` to the call frame before the instruction `i`.
pub open spec fn stamps(f: Frame, n: Clif, e: Bits, b: Block, bc: u32, i: int) -> bool {
    exists|j: int, k: Value|
        {
            &&& j < i
            &&& #[trigger] line_is(n, j, b, store(k, n.defs[(f.cfr, b)], CFR_CALLSITE))
            &&& e(k) == bc
        }
}

/// The address of the slot for results.
pub open spec fn out_address(f: Frame) -> Inst {
    Inst::StackAddr { ty: Ty::I64, slot: f.out_slot, offset: 0 }
}

/// The instruction `i`, in the block `b`, calls `s` with `args`, and `r` is the result if
/// there is one: what the call gives, or what it left in the slot whose address was passed
/// last.
pub open spec fn calls(
    f: Frame,
    n: Clif,
    b: Block,
    s: Slow,
    args: Seq<Value>,
    r: Value,
    i: int,
) -> bool {
    let callee = f.callee(s);
    if !s.has_result() {
        line_is(n, i, b, Inst::Call { callee, args })
    } else if f.pa {
        exists|out: Value, again: Value|
            {
                &&& #[trigger] line_gives(n, i - 1, b, out_address(f), out)
                &&& line_is(n, i, b, Inst::Call { callee, args: args.push(out) })
                &&& #[trigger] line_gives(n, i + 1, b, out_address(f), again)
                &&& line_gives(n, i + 2, b, load(Ty::I64, Flags::NoTrap, again, 0), r)
            }
    } else {
        line_gives(n, i, b, Inst::Call { callee, args }, r)
    }
}

/// Behind the instruction `i`, a pending exception takes control from the block `b` to the
/// exception sink, else it goes to `post`.
pub open spec fn checks(f: Frame, n: Clif, e: Bits, b: Block, i: int, post: Block) -> bool {
    exists|j: int, exc: Value|
        {
            &&& i < j
            &&& #[trigger] line_gives(
                n,
                j,
                b,
                load(Ty::I64, Flags::Trusted, n.defs[(f.vm, b)], VM_EXC_OFFSET),
                exc,
            )
            &&& goes(
                n,
                e,
                b,
                if e(exc) != 0 {
                    f.exc_sink
                } else {
                    post
                },
                seq![],
            )
        }
}

/// The arguments are those of the detour.
pub open spec fn passed(e: Bits, d: Detour, args: Seq<Value>) -> bool {
    &&& args.len() == d.head.len() + d.tail.len()
    &&& forall|k: int| 0 <= k < d.head.len() ==> #[trigger] args[k] == d.head[k]
    &&& forall|k: int| 0 <= k < d.tail.len() ==> e(args[d.head.len() + k]) == #[trigger] d.tail[k]
}

/// The instruction `i` is the only call that `n` has beyond those of `m`.
pub open spec fn only_call(m: Clif, n: Clif, i: int) -> bool {
    forall|j: int|
        m.insts.len() <= j < n.insts.len() && j != i ==> !((#[trigger] n.insts[j]).inst is Call)
}

/// In the code that `n` has beyond that of `m`, the one call is in the block `b`. It is made
/// for `d`, behind the write of the call site if there is one, and has the result `r`.
pub open spec fn calls_out(
    f: Frame,
    m: Clif,
    n: Clif,
    e: Bits,
    b: Block,
    d: Detour,
    r: Value,
    i: int,
) -> bool {
    &&& only_call(m, n, i)
    &&& d.site is Some ==> stamps(f, n, e, b, d.site->0, i)
    &&& exists|args: Seq<Value>| #[trigger]
        calls(f, n, b, d.path, args, r, i) && passed(e, d, args)
}

/// The one call is made for `d`, and unless an exception is pending then, control goes to
/// `post`.
pub open spec fn detours(
    f: Frame,
    m: Clif,
    n: Clif,
    e: Bits,
    b: Block,
    d: Detour,
    r: Value,
    post: Block,
) -> bool {
    exists|i: int| #[trigger] calls_out(f, m, n, e, b, d, r, i) && checks(f, n, e, b, i, post)
}

/// The one call is made for `d`, and unless an exception is pending then, control goes
/// through `post` to `join` with the result.
pub open spec fn joins_result(
    f: Frame,
    m: Clif,
    n: Clif,
    e: Bits,
    b: Block,
    d: Detour,
    post: Block,
    join: Block,
) -> bool {
    exists|r: Value|
        #[trigger] detours(f, m, n, e, b, d, r, post) && goes(n, e, post, join, seq![r])
}

/// The bits go by an instruction that was appended.
pub proof fn lemma_obeys(m: Clif, inst: Inst, n: Clif, e: Bits)
    requires
        grows(m.push(inst), n),
        respects(n, e),
    ensures
        obeys(
            Line {
                block: m.current->0,
                inst,
                results: Seq::new(
                    m.result_types(inst).len(),
                    |i: int| Value { id: (m.values.len() + i) as u32 },
                ),
            },
            n.values,
            e,
        ),
{
    reveal(Clif::push);
    reveal(grows);
    let i = m.insts.len() as int;
    assert(m.begun().result_types(inst) == m.result_types(inst));
    assert(m.push(inst).insts[i].inst == inst);
    assert(n.insts[i] == m.push(inst).insts[i]);
}

/// A 32-bit constant has its bits.
pub proof fn lemma_constant(m: Clif, k: i64, n: Clif, e: Bits)
    requires
        grows(m.constant(Ty::I32, k).0, n),
        respects(n, e),
    ensures
        e(m.next()) == k as u32,
{
    let inst = Inst::Iconst { ty: Ty::I32, imm: masked(Ty::I32, k) };
    assert(m.constant(Ty::I32, k).0 == m.push(inst));
    lemma_obeys(m, inst, n, e);
    assert((k & 0xffff_ffff) as u64 == k as u32) by (bit_vector);
}

/// A pinned variable that was read has the value that the read gave.
pub proof fn lemma_pin(m: Clif, var: Variable, n: Clif)
    requires
        var.id < pinned_values().len(),
        grows(m.use_var(var), n),
    ensures
        n.defs[(var, m.current->0)] == m.value_of(var),
{
    reveal(grows);
    reveal(Clif::use_var);
    reveal(Clif::value_of);
    assert(m.begun().next() == m.next());
    assert(m.use_var(var).defs.contains_key((var, m.current->0)));
}

/// An instruction that was appended stays where it is.
pub proof fn lemma_line(m: Clif, inst: Inst, n: Clif)
    requires
        grows(m.push(inst), n),
    ensures
        m.push(inst).insts.len() == m.insts.len() + 1,
        line_is(n, m.insts.len() as int, m.current->0, inst),
        m.result_types(inst).len() == 1 ==> line_gives(
            n,
            m.insts.len() as int,
            m.current->0,
            inst,
            m.next(),
        ),
{
    reveal(Clif::push);
    reveal(grows);
    let p = m.push(inst);
    let i = m.insts.len() as int;
    assert(p.insts[i].inst == inst);
    assert(n.insts[i] == p.insts[i]);
    if m.result_types(inst).len() == 1 {
        assert(m.begun().result_types(inst) == m.result_types(inst));
        assert(p.insts[i].results =~= seq![m.next()]);
    }
}

/// [`Frame::stamp`] writes the call site.
pub proof fn lemma_stamps(f: Frame, m: Clif, bc: u32, n: Clif, e: Bits, i: int)
    requires
        placed(m),
        f.cfr.id < pinned_values().len(),
        grows(f.stamp(m, bc), n),
        f.stamp(m, bc).insts.len() <= i,
        respects(n, e),
    ensures
        stamps(f, n, e, m.current->0, bc, i),
{
    broadcast use crate::growth::group_grows;

    reveal(Frame::stamp);
    let (m1, cfr) = m.get(f.cfr);
    let (m2, k) = m1.constant(Ty::I32, bc as i64);
    let write = store(k, cfr, CFR_CALLSITE);
    assert(f.stamp(m, bc) == m2.push(write));
    lemma_pin(m, f.cfr, n);
    lemma_constant(m1, bc as i64, n, e);
    lemma_line(m2, write, n);
    assert(line_is(n, m2.insts.len() as int, m.current->0, write));
}

/// [`Frame::check_exc`] checks for an exception.
pub proof fn lemma_checks(f: Frame, m: Clif, post: Block, n: Clif, e: Bits, i: int)
    requires
        placed(m),
        f.vm.id < pinned_values().len(),
        grows(f.check_exc(m, post), n),
        i < m.insts.len(),
    ensures
        checks(f, n, e, m.current->0, i, post),
{
    broadcast use crate::growth::group_grows;

    reveal(Frame::check_exc);
    let (m1, vm) = m.get(f.vm);
    let read = load(Ty::I64, Flags::Trusted, vm, VM_EXC_OFFSET);
    let (m2, exc) = m1.ins(read);
    assert(f.check_exc(m, post) == m2.push(brif(exc, f.exc_sink, post)));
    assert(m1.insts == m.insts) by {
        reveal(Clif::use_var);
    }
    lemma_pin(m, f.vm, n);
    lemma_line(m1, read, n);
    lemma_goes_pushed(m2, brif(exc, f.exc_sink, post), n, e);
    assert(line_gives(n, m1.insts.len() as int, m.current->0, read, exc));
}

/// Where the call of a slow path stands.
pub open spec fn call_place(f: Frame, m: Clif, s: Slow) -> int {
    if f.pa && s.has_result() {
        m.insts.len() as int + 1
    } else {
        m.insts.len() as int
    }
}

/// [`Frame::slow_result`] and [`Frame::slow_void`], as the slow path has a result or not.
pub open spec fn slow_call(f: Frame, m: Clif, s: Slow, args: Seq<Value>) -> Clif {
    if s.has_result() {
        f.slow_result(m, s, args).0
    } else {
        f.slow_void(m, s, args)
    }
}

/// The value that a slow path gives.
pub open spec fn slow_value(f: Frame, m: Clif, s: Slow, args: Seq<Value>) -> Value {
    f.slow_result(m, s, args).1
}

/// A call of a slow path stays where it is, and nothing else of it is a call.
proof fn lemma_calls(f: Frame, m: Clif, s: Slow, args: Seq<Value>, n: Clif)
    requires
        placed(m),
        f.fits(m),
        s != Slow::DispatchCall,
        grows(slow_call(f, m, s, args), n),
    ensures
        calls(f, n, m.current->0, s, args, slow_value(f, m, s, args), call_place(f, m, s)),
        m.insts.len() <= call_place(f, m, s) < slow_call(f, m, s, args).insts.len()
            <= n.insts.len(),
        forall|j: int|
            m.insts.len() <= j < slow_call(f, m, s, args).insts.len() && j != call_place(f, m, s)
                ==> !((#[trigger] n.insts[j]).inst is Call),
{
    broadcast use crate::growth::group_grows;

    reveal(Frame::slow_result);
    reveal(Frame::slow_void);
    let b = m.current->0;
    let callee = f.callee(s);
    assert(m.setup.callees[callee.id as int] == s.abi(f.pa)) by {
        reveal(Frame::resolves);
    }
    assert(n.insts.len() >= slow_call(f, m, s, args).insts.len()) by {
        reveal(grows);
    }
    if !s.has_result() {
        lemma_line(m, Inst::Call { callee, args }, n);
    } else if f.pa {
        let slot = out_address(f);
        let (m1, out) = m.ins(slot);
        let call = Inst::Call { callee, args: args.push(out) };
        let m2 = m1.push(call);
        let (m3, again) = m2.ins(slot);
        let read = load(Ty::I64, Flags::NoTrap, again, 0);
        let (m4, r) = m3.ins(read);
        assert((m4, r) == f.slow_result(m, s, args));
        lemma_line(m, slot, n);
        lemma_line(m1, call, n);
        lemma_line(m2, slot, n);
        lemma_line(m3, read, n);
        let i = call_place(f, m, s);
        assert(line_gives(n, i - 1, b, slot, out));
        assert(line_gives(n, i + 1, b, slot, again));
    } else {
        let call = Inst::Call { callee, args };
        assert(f.slow_result(m, s, args) == m.ins(call));
        lemma_line(m, call, n);
    }
}

/// The parts of a slow side up to the call, put together. It begins with `m0` in the block
/// for it, and `m1` is what the call is appended to.
pub proof fn lemma_calls_out(
    f: Frame,
    m: Clif,
    m0: Clif,
    m1: Clif,
    args: Seq<Value>,
    n: Clif,
    e: Bits,
    b: Block,
    d: Detour,
)
    requires
        respects(n, e),
        f.fits(m),
        f.cfr.id < pinned_values().len(),
        placed(m0),
        m0.current == Some(b),
        d.site is Some ==> grows(f.stamp(m0, d.site->0), m1),
        grows(m, m1),
        silent(m, m1),
        placed(m1),
        m1.current == Some(b),
        d.path != Slow::DispatchCall,
        passed(e, d, args),
        grows(slow_call(f, m1, d.path, args), n),
        silent(slow_call(f, m1, d.path, args), n),
    ensures
        calls_out(
            f,
            m,
            n,
            e,
            b,
            d,
            slow_value(f, m1, d.path, args),
            call_place(f, m1, d.path),
        ),
        call_place(f, m1, d.path) < slow_call(f, m1, d.path, args).insts.len(),
{
    broadcast use {crate::growth::group_grows, crate::growth::group_pieces_grow};

    let p = slow_call(f, m1, d.path, args);
    let i = call_place(f, m1, d.path);
    assert(f.fits(m1)) by {
        reveal(grows);
    }
    assert(grows(m1, p));
    assert(grows(m1, n));
    lemma_calls(f, m1, d.path, args, n);
    if d.site is Some {
        assert(f.stamp(m0, d.site->0).insts.len() <= i) by {
            reveal(grows);
        }
        lemma_stamps(f, m0, d.site->0, n, e, i);
    }
    assert(only_call(m, n, i)) by {
        reveal(grows);
        reveal(silent);
        assert forall|j: int| m.insts.len() <= j < n.insts.len() && j != i implies !((
        #[trigger] n.insts[j]).inst is Call) by {
            if j < m1.insts.len() {
                assert(n.insts[j] == m1.insts[j]);
            }
        }
    }
    assert(calls(f, n, b, d.path, args, slow_value(f, m1, d.path, args), i));
}

/// The parts of a slow side, put together; `m2` is what the check is appended to.
pub proof fn lemma_detours(
    f: Frame,
    m: Clif,
    m0: Clif,
    m1: Clif,
    args: Seq<Value>,
    m2: Clif,
    n: Clif,
    e: Bits,
    b: Block,
    d: Detour,
    post: Block,
)
    requires
        respects(n, e),
        f.fits(m),
        f.cfr.id < pinned_values().len(),
        f.vm.id < pinned_values().len(),
        placed(m0),
        m0.current == Some(b),
        d.site is Some ==> grows(f.stamp(m0, d.site->0), m1),
        grows(m, m1),
        silent(m, m1),
        placed(m1),
        m1.current == Some(b),
        d.path != Slow::DispatchCall,
        passed(e, d, args),
        grows(slow_call(f, m1, d.path, args), m2),
        silent(slow_call(f, m1, d.path, args), n),
        placed(m2),
        m2.current == Some(b),
        grows(f.check_exc(m2, post), n),
    ensures
        detours(f, m, n, e, b, d, slow_value(f, m1, d.path, args), post),
{
    broadcast use {crate::growth::group_grows, crate::growth::group_pieces_grow};

    let p = slow_call(f, m1, d.path, args);
    let i = call_place(f, m1, d.path);
    assert(grows(p, n));
    lemma_calls_out(f, m, m0, m1, args, n, e, b, d);
    assert(i < m2.insts.len()) by {
        reveal(grows);
    }
    lemma_checks(f, m2, post, n, e, i);
    assert(calls_out(f, m, n, e, b, d, slow_value(f, m1, d.path, args), i));
}

/// What [`Frame::join_result`] does with the value `r` that it passes on.
pub proof fn lemma_join_result(f: Frame, m: Clif, r: Value, join: Block, n: Clif, e: Bits)
    requires
        placed(m),
        m.blocks.len() < u32::MAX,
        grows(f.join_result(m, r, join), n),
    ensures
        grows(m, m.create_block()),
        placed(m.create_block()),
        m.create_block().current == m.current,
        grows(f.check_exc(m.create_block(), m.next_block()), n),
        goes(n, e, m.next_block(), join, seq![r]),
{
    broadcast use {crate::growth::group_grows, crate::growth::group_pieces_grow};

    reveal(Frame::join_result);
    let (m1, post) = m.new_block();
    let m2 = f.check_exc(m1, post).switch_to(post);
    let jump = Inst::Jump { to: join, args: seq![r] };
    assert(f.join_result(m, r, join) == m2.push(jump));
    lemma_goes_pushed(m2, jump, n, e);
}

/// A slow side whose result goes to a join.
pub proof fn lemma_joins_result(
    f: Frame,
    m: Clif,
    m0: Clif,
    m1: Clif,
    args: Seq<Value>,
    n: Clif,
    e: Bits,
    b: Block,
    d: Detour,
    join: Block,
)
    requires
        respects(n, e),
        f.fits(m),
        f.cfr.id < pinned_values().len(),
        f.vm.id < pinned_values().len(),
        placed(m0),
        m0.current == Some(b),
        d.site is Some ==> grows(f.stamp(m0, d.site->0), m1),
        grows(m, m1),
        silent(m, m1),
        placed(m1),
        m1.current == Some(b),
        m1.blocks.len() < u32::MAX,
        d.path != Slow::DispatchCall,
        d.path.has_result(),
        passed(e, d, args),
        grows(
            f.join_result(
                f.slow_result(m1, d.path, args).0,
                f.slow_result(m1, d.path, args).1,
                join,
            ),
            n,
        ),
        silent(
            f.join_result(
                f.slow_result(m1, d.path, args).0,
                f.slow_result(m1, d.path, args).1,
                join,
            ),
            n,
        ),
    ensures
        joins_result(
            f,
            m,
            n,
            e,
            b,
            d,
            Block { id: m1.blocks.len() as u32 },
            join,
        ),
{
    broadcast use {crate::growth::group_grows, crate::growth::group_pieces_grow};

    let (p, r) = f.slow_result(m1, d.path, args);
    let post = p.next_block();
    lemma_join_result(f, p, r, join, n, e);
    assert(silent(p, n));
    lemma_detours(f, m, m0, m1, args, p.create_block(), n, e, b, d, post);
    assert(detours(f, m, n, e, b, d, r, post));
}

/// The arguments are the values alone.
pub proof fn lemma_passed(e: Bits, d: Detour)
    requires
        d.tail.len() == 0,
    ensures
        passed(e, d, d.head),
{
}

/// The arguments are the values and one constant.
pub proof fn lemma_passed_one(e: Bits, d: Detour, x: Value)
    requires
        d.tail == seq![e(x) as u32],
        e(x) <= u32::MAX,
    ensures
        passed(e, d, d.head.push(x)),
{
}

/// The arguments are the values and two constants.
pub proof fn lemma_passed_two(e: Bits, d: Detour, x: Value, y: Value)
    requires
        d.tail == seq![e(x) as u32, e(y) as u32],
        e(x) <= u32::MAX,
        e(y) <= u32::MAX,
    ensures
        passed(e, d, d.head.push(x).push(y)),
{
    let args = d.head.push(x).push(y);
    assert forall|k: int| 0 <= k < d.tail.len() implies e(args[d.head.len() + k]) == #[trigger]
        d.tail[k] by {
        assert(k == 0 || k == 1);
    }
}

/// What a block does before and behind a call is the same whatever block is current.
pub proof fn lemma_switched(f: Frame, m: Clif, e: Bits, b: Block, bc: u32, i: int, post: Block, after: Block)
    ensures
        stamps(f, m, e, b, bc, i) ==> stamps(f, m.switch_to(after), e, b, bc, i),
        checks(f, m, e, b, i, post) ==> checks(f, m.switch_to(after), e, b, i, post),
{
    reveal(Clif::switch_to);
    let n = m.switch_to(after);
    if stamps(f, m, e, b, bc, i) {
        let (j, k) = choose|j: int, k: Value|
            {
                &&& j < i
                &&& #[trigger] line_is(m, j, b, store(k, m.defs[(f.cfr, b)], CFR_CALLSITE))
                &&& e(k) == bc
            };
        assert(line_is(n, j, b, store(k, n.defs[(f.cfr, b)], CFR_CALLSITE)));
    }
    if checks(f, m, e, b, i, post) {
        let read = load(Ty::I64, Flags::Trusted, m.defs[(f.vm, b)], VM_EXC_OFFSET);
        let (j, exc) = choose|j: int, exc: Value|
            {
                &&& i < j
                &&& #[trigger] line_gives(
                    m,
                    j,
                    b,
                    load(Ty::I64, Flags::Trusted, m.defs[(f.vm, b)], VM_EXC_OFFSET),
                    exc,
                )
                &&& goes(
                    m,
                    e,
                    b,
                    if e(exc) != 0 {
                        f.exc_sink
                    } else {
                        post
                    },
                    seq![],
                )
            };
        assert(line_gives(
            n,
            j,
            b,
            load(Ty::I64, Flags::Trusted, n.defs[(f.vm, b)], VM_EXC_OFFSET),
            exc,
        ));
    }
}

} // verus!
