//! What the code of a call writes, passes on and reads back.
//!
//! As in [`crate::runs`], the law holds for all [`Bits`] that go by the instructions.
use crate::accesses::{behind, lemma_stands, stands};
use crate::bytecode::{is_register, VR};
use crate::clif::{
    binary, masked, resize, store, BinaryOp, Block, Clif, Inst, Resize, Ty, Value, Variable,
};
use crate::detours::{
    checks, lemma_checks, lemma_line, lemma_obeys, lemma_stamps, lemma_switched, line_gives, only_call,
    stamps,
};
use crate::function::pins_first;
use crate::growth::{begins, goes, grows, grows_refl, lemma_goes_pushed, placed, silent};
use crate::meaning::{respects, Bits};
use crate::runs::added;
use crate::slow::Slow;
use crate::template::{Frame, CFR_ARG0, CFR_ARGCOUNT, CFR_CALLEE, CFR_THIS};
use vstd::prelude::*;

verus! {

broadcast use {crate::clif::group_clif, crate::template::group_frame};

/// What the blocks of `m` have of variables, they have in `n`.
#[verifier::opaque]
pub open spec fn keeps(m: Clif, n: Clif) -> bool {
    forall|k: (Variable, Block)| #[trigger]
        m.defs.contains_key(k) ==> n.defs.contains_key(k) && n.defs[k] == m.defs[k]
}

pub broadcast proof fn keeps_trans(m: Clif, n: Clif, o: Clif)
    requires
        #[trigger] keeps(m, n),
        #[trigger] keeps(n, o),
    ensures
        keeps(m, o),
{
    reveal(keeps);
}

pub broadcast proof fn push_keeps(m: Clif, inst: Inst)
    ensures
        keeps(m, #[trigger] m.push(inst)),
{
    reveal(keeps);
    reveal(Clif::push);
}

pub broadcast proof fn use_var_keeps(m: Clif, var: Variable)
    ensures
        keeps(m, #[trigger] m.use_var(var)),
{
    reveal(keeps);
    reveal(Clif::use_var);
}

pub broadcast proof fn create_block_keeps(m: Clif)
    ensures
        keeps(m, #[trigger] m.create_block()),
{
    reveal(keeps);
    reveal(Clif::create_block);
}

pub broadcast proof fn switch_to_keeps(m: Clif, b: Block)
    ensures
        keeps(m, #[trigger] m.switch_to(b)),
{
    reveal(keeps);
    reveal(Clif::switch_to);
}

pub broadcast proof fn stamp_keeps(f: Frame, m: Clif, bc: u32)
    ensures
        keeps(m, #[trigger] f.stamp(m, bc)),
{
    broadcast use group_keeps;

    reveal(Frame::stamp);
}

pub broadcast group group_keeps {
    keeps_trans,
    push_keeps,
    use_var_keeps,
    create_block_keeps,
    switch_to_keeps,
}

/// A variable that was read has the value that the read gave.
proof fn lemma_read(m: Clif, var: Variable, o: Clif)
    requires
        keeps(m.use_var(var), o),
    ensures
        o.defs[(var, m.current->0)] == m.value_of(var),
{
    reveal(keeps);
    reveal(Clif::use_var);
    reveal(Clif::value_of);
    assert(m.begun().next() == m.next());
    assert(m.use_var(var).defs.contains_key((var, m.current->0)));
}

/// The argument `i` of a call is written to its place in the frame `nf`.
pub open spec fn passes(f: Frame, n: Clif, o: Clif, b: Block, nf: Value, args: Seq<VR>, i: int) -> bool {
    stands(n, b, store(o.defs[(f.var(args[i]), b)], nf, (CFR_ARG0 + 8 * i) as i32))
}

/// [`Frame::store_args`] writes the arguments one after the other, in the current block.
proof fn lemma_store_args(f: Frame, m: Clif, nf: Value, args: Seq<VR>)
    requires
        placed(m),
    ensures
        placed(f.store_args(m, nf, args)),
        f.store_args(m, nf, args).current == m.current,
        f.store_args(m, nf, args).blocks.len() == m.blocks.len(),
        grows(m, f.store_args(m, nf, args)),
        silent(m, f.store_args(m, nf, args)),
        keeps(m, f.store_args(m, nf, args)),
    decreases args.len(),
{
    broadcast use {crate::growth::group_grows, group_keeps};

    reveal(Frame::store_args);
    if args.len() > 0 {
        lemma_store_args(f, m, nf, args.drop_last());
    } else {
        grows_refl(m);
        reveal(keeps);
    }
}

/// The arguments stay where they were written.
proof fn lemma_passes(f: Frame, m: Clif, nf: Value, args: Seq<VR>, n: Clif, o: Clif)
    requires
        placed(m),
        grows(f.store_args(m, nf, args), n),
        keeps(f.store_args(m, nf, args), o),
    ensures
        forall|i: int| 0 <= i < args.len() ==> #[trigger] passes(f, n, o, m.current->0, nf, args, i),
    decreases args.len(),
{
    broadcast use {crate::growth::group_grows, group_keeps};

    reveal(Frame::store_args);
    if args.len() > 0 {
        let rest = args.drop_last();
        let p = f.store_args(m, nf, rest);
        lemma_store_args(f, m, nf, rest);
        let var = f.var(args.last());
        let (q, av) = p.get(var);
        let write = store(av, nf, (CFR_ARG0 + 8 * (args.len() - 1)) as i32);
        assert(f.store_args(m, nf, args) == q.push(write));
        assert(grows(p, n));
        assert(keeps(p, o));
        lemma_passes(f, m, nf, rest, n, o);
        lemma_read(p, var, o);
        lemma_stands(q, write, n);
        assert forall|i: int| 0 <= i < args.len() implies #[trigger] passes(
            f,
            n,
            o,
            m.current->0,
            nf,
            args,
            i,
        ) by {
            if i < rest.len() {
                assert(rest[i] == args[i]);
                assert(passes(f, n, o, m.current->0, nf, rest, i));
            }
        }
    }
}

/// What the block `b` does for a call: it writes the frame `nf` of the callee, as far below
/// the call frame as `frame_size` says, with the callee, the number of arguments, `this` and
/// the arguments, and the call site to its own frame. Then it dispatches the call with the
/// result `r`: that is the instruction `i`, the only call beyond those of `m`.
pub open spec fn writes_frame(
    f: Frame,
    m: Clif,
    n: Clif,
    e: Bits,
    b: Block,
    callee: VR,
    this: VR,
    args: Seq<VR>,
    frame_size: i32,
    bc: u32,
    nf: Value,
    argc: Value,
    argc64: Value,
    bc_v: Value,
    r: Value,
    i: int,
) -> bool {
    let callee_v = n.defs[(f.var(callee), b)];
    let this_v = n.defs[(f.var(this), b)];
    let cfr = n.defs[(f.cfr, b)];
    &&& e(nf) == behind(e(cfr), -frame_size)
    &&& stands(n, b, store(callee_v, nf, CFR_CALLEE))
    &&& e(argc) == args.len() + 1
    &&& stands(n, b, store(argc, nf, CFR_ARGCOUNT))
    &&& stands(n, b, store(this_v, nf, CFR_THIS))
    &&& forall|i: int| 0 <= i < args.len() ==> #[trigger] passes(f, n, n, b, nf, args, i)
    &&& e(argc64) == e(argc)
    &&& e(bc_v) == bc
    &&& stamps(f, n, e, b, bc, i)
    &&& only_call(m, n, i)
    &&& line_gives(
        n,
        i,
        b,
        Inst::Call {
            callee: f.callee(Slow::DispatchCall),
            args: seq![n.defs[(f.go, b)], cfr, callee_v, this_v, nf, argc64, bc_v],
        },
        r,
    )
}

proof fn lemma_wrapped(a: u64, d: i64)
    ensures
        (a + (d as u64)) as u64 == (a + d) as u64,
{
    assert((a + (d as u64)) as u64 == (a + d) as u64) by (bit_vector);
}

proof fn lemma_small(k: i64)
    requires
        0 <= k <= 0xffff_ffff,
    ensures
        masked(Ty::I32, k) as u64 == k,
{
    assert((k & 0xffff_ffff) as u64 == k) by (bit_vector)
        requires
            0 <= k <= 0xffff_ffff,
    ;
}

/// What follows the call: the exception check, and the result in `dst` behind it.
proof fn lemma_after_call(
    f: Frame,
    m: Clif,
    dst: VR,
    r: Value,
    cont: Block,
    b: Block,
    e: Bits,
    i: int,
)
    requires
        pins_first(f),
        i < m.insts.len(),
        placed(m),
        m.current == Some(b),
        m.blocks.len() < u32::MAX,
        f.var(dst).id >= crate::template::pinned_values().len(),
    ensures
        ({
            let post = m.next_block();
            let o = f.check_exc(m.create_block(), post).switch_to(post);
            let n = o.def_var(f.var(dst), r).goto(cont);
            &&& grows(m, n)
            &&& silent(m, n)
            &&& keeps(m, o)
            &&& forall|v: Variable| #[trigger] n.defs[(v, b)] == o.defs[(v, b)]
            &&& n.defs.contains_key((f.var(dst), post))
            &&& n.defs[(f.var(dst), post)] == r
            &&& checks(f, n, e, b, i, post)
            &&& goes(n, e, post, cont, seq![])
        }),
{
    broadcast use {crate::growth::group_grows, crate::growth::group_pieces_grow, group_keeps};

    let (m1, post) = m.new_block();
    let o = f.check_exc(m1, post).switch_to(post);
    assert(keeps(m1, f.check_exc(m1, post))) by {
        reveal(Frame::check_exc);
    }
    let p = o.def_var(f.var(dst), r);
    let jump = Inst::Jump { to: cont, args: seq![] };
    let n = p.push(jump);
    assert(n == p.goto(cont));
    grows_refl(n);
    assert(grows(o, n));
    crate::growth::lemma_def_pushed(o, f.var(dst), r, jump);
    assert forall|v: Variable| #[trigger] n.defs[(v, b)] == o.defs[(v, b)] by {
        reveal(Clif::push);
        reveal(Clif::def_var);
    }
    lemma_goes_pushed(p, jump, n, e);
    assert(i < m1.insts.len()) by {
        reveal(grows);
    }
    lemma_checks(f, m1, post, n, e, i);
}

/// A call writes the frame of the callee and the call site, and dispatches the call. Unless
/// an exception is pending then, the result goes to the target.
pub open spec fn dispatches_call(
    f: Frame,
    m: Clif,
    n: Clif,
    dst: VR,
    callee: VR,
    this: VR,
    args: Seq<VR>,
    frame_size: i32,
    bc: u32,
    cont: Block,
    e: Bits,
) -> bool {
    let b = m.current->0;
    let post = added(m, 0);
    &&& exists|nf: Value, argc: Value, argc64: Value, bc_v: Value, i: int|
        #[trigger] writes_frame(
            f,
            m,
            n,
            e,
            b,
            callee,
            this,
            args,
            frame_size,
            bc,
            nf,
            argc,
            argc64,
            bc_v,
            n.defs[(f.var(dst), post)],
            i,
        ) && checks(f, n, e, b, i, post)
    &&& n.defs.contains_key((f.var(dst), post))
    &&& goes(n, e, post, cont, seq![])
}

/// That is so whatever block is current.
pub proof fn lemma_dispatches_call(
    f: Frame,
    m: Clif,
    n: Clif,
    dst: VR,
    callee: VR,
    this: VR,
    args: Seq<VR>,
    frame_size: i32,
    bc: u32,
    cont: Block,
    after: Block,
    e: Bits,
)
    requires
        dispatches_call(f, m, n, dst, callee, this, args, frame_size, bc, cont, e),
    ensures
        dispatches_call(f, m, n.switch_to(after), dst, callee, this, args, frame_size, bc, cont, e),
{
    reveal(Clif::switch_to);
    let n2 = n.switch_to(after);
    let b = m.current->0;
    let post = added(m, 0);
    let r = n.defs[(f.var(dst), post)];
    let (nf, argc, argc64, bc_v, i) = choose|nf: Value, argc: Value, argc64: Value, bc_v: Value, i: int|
        #[trigger] writes_frame(
            f,
            m,
            n,
            e,
            b,
            callee,
            this,
            args,
            frame_size,
            bc,
            nf,
            argc,
            argc64,
            bc_v,
            r,
            i,
        ) && checks(f, n, e, b, i, post);
    lemma_switched(f, n, e, b, bc, i, post, after);
    assert forall|j: int| 0 <= j < args.len() implies #[trigger] passes(f, n2, n2, b, nf, args, j) by {
        assert(passes(f, n, n, b, nf, args, j));
    }
    assert(writes_frame(
        f,
        m,
        n2,
        e,
        b,
        callee,
        this,
        args,
        frame_size,
        bc,
        nf,
        argc,
        argc64,
        bc_v,
        n2.defs[(f.var(dst), post)],
        i,
    ));
}

/// A call writes the frame of the callee and the call site, and dispatches the call. Unless
/// an exception is pending then, the result goes to the target.
#[verifier::rlimit(60)]
pub proof fn calls_write_the_frame_of_the_callee(
    f: Frame,
    m: Clif,
    dst: VR,
    callee: VR,
    this: VR,
    args: Seq<VR>,
    frame_size: i32,
    bc: u32,
    cont: Block,
    e: Bits,
)
    requires
        begins(f, m, 64 + 2 * args.len()),
        is_register(dst, f.args.len(), f.locs.len()),
        is_register(callee, f.args.len(), f.locs.len()),
        is_register(this, f.args.len(), f.locs.len()),
        forall|i: int|
            0 <= i < args.len() ==> is_register(#[trigger] args[i], f.args.len(), f.locs.len()),
        i32::MIN < frame_size * 8 <= i32::MAX,
        CFR_ARG0 + 8 * (args.len() - 1) <= i32::MAX,
        m.has_block(cont),
        m.info(cont).args.len() == 0,
        respects(f.call(m, dst, callee, this, args, frame_size, bc, cont), e),
    ensures
        dispatches_call(
            f,
            m,
            f.call(m, dst, callee, this, args, frame_size, bc, cont),
            dst,
            callee,
            this,
            args,
            frame_size,
            bc,
            cont,
            e,
        ),
{
    broadcast use {
        crate::growth::group_grows,
        crate::growth::group_pieces_grow,
        group_keeps,
        stamp_keeps,
    };

    reveal(Frame::call);
    let n = f.call(m, dst, callee, this, args, frame_size, bc, cont);
    let b = m.current->0;
    let (m1, cfr) = m.get(f.cfr);
    let (m2, callee_v) = m1.get(f.var(callee));
    let (m3, this_v) = m2.get(f.var(this));
    let i4 = Inst::Iconst { ty: Ty::I64, imm: masked(Ty::I64, (-(frame_size * 8)) as i64) };
    let (m4, distance) = m3.ins(i4);
    let i5 = binary(BinaryOp::Iadd, cfr, distance);
    let (m5, nf) = m4.ins(i5);
    let i6 = store(callee_v, nf, CFR_CALLEE);
    let m6 = m5.push(i6);
    let i7 = Inst::Iconst { ty: Ty::I32, imm: masked(Ty::I32, (args.len() + 1) as i64) };
    let (m7, argc) = m6.ins(i7);
    let i8 = store(argc, nf, CFR_ARGCOUNT);
    let m8 = m7.push(i8);
    let i9 = store(this_v, nf, CFR_THIS);
    let m9 = m8.push(i9);
    let m10 = f.store_args(m9, nf, args);
    lemma_store_args(f, m9, nf, args);
    let m11 = f.stamp(m10, bc);
    let (m12, go) = m11.get(f.go);
    let i13 = Inst::Iconst { ty: Ty::I32, imm: masked(Ty::I32, bc as i64) };
    let (m13, bc_v) = m12.ins(i13);
    let i14 = resize(Resize::Uextend, Ty::I64, argc);
    let (m14, argc64) = m13.ins(i14);
    let call = Inst::Call {
        callee: f.callee(Slow::DispatchCall),
        args: seq![go, cfr, callee_v, this_v, nf, argc64, bc_v],
    };
    let (m15, r) = m14.ins(call);
    let post = m15.next_block();
    let o = f.check_exc(m15.create_block(), post).switch_to(post);
    assert(n == o.def_var(f.var(dst), r).goto(cont));
    let i = m14.insts.len() as int;
    assert(m15.insts.len() == i + 1) by {
        grows_refl(m15);
        lemma_line(m14, call, m15);
    }
    lemma_after_call(f, m15, dst, r, cont, b, e, i);
    assert(m11.insts.len() <= i) by {
        assert(grows(m11, m14));
        reveal(grows);
    }
    lemma_stamps(f, m10, bc, n, e, i);
    assert(only_call(m, n, i)) by {
        assert(silent(m, m14));
        assert(grows(m14, n));
        reveal(grows);
        reveal(silent);
        assert forall|j: int| m.insts.len() <= j < n.insts.len() && j != i implies !((
        #[trigger] n.insts[j]).inst is Call) by {
            if j < i {
                assert(n.insts[j] == m14.insts[j]);
            }
        }
    }
    lemma_read(m, f.cfr, o);
    lemma_read(m1, f.var(callee), o);
    lemma_read(m2, f.var(this), o);
    lemma_read(m11, f.go, o);
    lemma_obeys(m3, i4, n, e);
    lemma_obeys(m4, i5, n, e);
    lemma_obeys(m6, i7, n, e);
    lemma_obeys(m12, i13, n, e);
    lemma_obeys(m13, i14, n, e);
    assert(crate::clif::type_of(n.values, cfr) == Ty::I64) by {
        assert(grows(m1, n));
        reveal(grows);
    }
    lemma_wrapped(e(cfr), (-(frame_size * 8)) as i64);
    lemma_small((args.len() + 1) as i64);
    lemma_small(bc as i64);
    lemma_stands(m5, i6, n);
    lemma_stands(m7, i8, n);
    lemma_stands(m8, i9, n);
    lemma_passes(f, m9, nf, args, n, o);
    assert forall|i: int| 0 <= i < args.len() implies #[trigger] passes(
        f,
        n,
        n,
        b,
        nf,
        args,
        i,
    ) by {
        assert(passes(f, n, o, b, nf, args, i));
        assert(n.defs[(f.var(args[i]), b)] == o.defs[(f.var(args[i]), b)]);
    }
    assert(n.defs[(f.cfr, b)] == cfr);
    assert(n.defs[(f.go, b)] == go);
    assert(n.defs[(f.var(callee), b)] == callee_v);
    assert(n.defs[(f.var(this), b)] == this_v);
    assert(m14.result_types(call).len() == 1) by {
        assert(grows(m, m14));
        reveal(grows);
        reveal(Frame::resolves);
        assert(m.setup.callees[f.callee(Slow::DispatchCall).id as int] == Slow::DispatchCall.abi(
            f.pa,
        ));
    }
    lemma_line(m14, call, n);
    assert(post == added(m, 0));
    assert(writes_frame(
        f,
        m,
        n,
        e,
        b,
        callee,
        this,
        args,
        frame_size,
        bc,
        nf,
        argc,
        argc64,
        bc_v,
        r,
        i,
    ));
}

} // verus!
