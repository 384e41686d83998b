//! Which registers the code of an operation writes.
//!
//! [`spares`] says that no variable got a new value: where a block has one that it did not
//! have, it takes it as a parameter, for a read.
use crate::body::{op_cost, Code};
use crate::bytecode::{OpView, Operation, VR};
use crate::clif::{binary, store, BinaryOp, Block, Clif, Inst, Ty, Value, Variable};
use crate::growth::{begins, placed};
use crate::slow::Slow;
use crate::template::{Frame, CFR_ARGCOUNT, CFR_CALLEE, CFR_THIS};
use vstd::prelude::*;

verus! {

broadcast use {crate::clif::group_clif, crate::template::group_frame};

/// What a block of `n` has of a variable is what it had of it in `m`, or what it takes for it.
/// The variable `w` is left out.
#[verifier::opaque]
pub open spec fn writes_only(m: Clif, n: Clif, w: Option<Variable>) -> bool {
    &&& forall|k: (Variable, Block)| #[trigger]
        m.defs.contains_key(k) && w != Some(k.0) ==> n.defs.contains_key(k) && n.defs[k]
            == m.defs[k]
    &&& forall|k: (Variable, Block)| #[trigger]
        n.defs.contains_key(k) && w != Some(k.0) && !m.defs.contains_key(k) ==> n.has_block(k.1)
            && n.info(k.1).phis.contains((k.0, n.defs[k]))
}

/// No variable was written.
#[verifier::opaque]
pub open spec fn spares(m: Clif, n: Clif) -> bool {
    &&& m.blocks.len() <= n.blocks.len()
    &&& forall|i: int|
        0 <= i < m.blocks.len() ==> m.blocks[i].phis.is_prefix_of((#[trigger] n.blocks[i]).phis)
    &&& forall|k: (Variable, Block)| #[trigger]
        m.defs.contains_key(k) ==> n.defs.contains_key(k) && n.defs[k] == m.defs[k]
    &&& forall|k: (Variable, Block)| #[trigger]
        n.defs.contains_key(k) && !m.defs.contains_key(k) ==> n.has_block(k.1) && n.info(
            k.1,
        ).phis.contains((k.0, n.defs[k]))
}

proof fn lemma_prefix_contains<T>(a: Seq<T>, b: Seq<T>, x: T)
    requires
        a.is_prefix_of(b),
        a.contains(x),
    ensures
        b.contains(x),
{
    let i = choose|i: int| 0 <= i < a.len() && a[i] == x;
    assert(b[i] == x);
}

pub broadcast proof fn spares_trans(a: Clif, b: Clif, c: Clif)
    requires
        #[trigger] spares(a, b),
        #[trigger] spares(b, c),
    ensures
        spares(a, c),
{
    reveal(spares);
    assert forall|i: int| 0 <= i < a.blocks.len() implies a.blocks[i].phis.is_prefix_of(
        (#[trigger] c.blocks[i]).phis,
    ) by {
        assert(a.blocks[i].phis.is_prefix_of(b.blocks[i].phis));
    }
    assert forall|k: (Variable, Block)| #[trigger]
        c.defs.contains_key(k) && !a.defs.contains_key(k) implies c.has_block(k.1) && c.info(
        k.1,
    ).phis.contains((k.0, c.defs[k])) by {
        if b.defs.contains_key(k) {
            assert(b.blocks[k.1.id as int].phis.is_prefix_of(c.blocks[k.1.id as int].phis));
            lemma_prefix_contains(b.info(k.1).phis, c.info(k.1).phis, (k.0, b.defs[k]));
        }
    }
}

pub broadcast proof fn push_spares(m: Clif, inst: Inst)
    requires
        placed(m),
    ensures
        spares(m, #[trigger] m.push(inst)),
{
    reveal(spares);
    reveal(Clif::push);
}

pub broadcast proof fn create_block_spares(m: Clif)
    ensures
        spares(m, #[trigger] m.create_block()),
{
    reveal(spares);
    reveal(Clif::create_block);
}

pub broadcast proof fn set_cold_spares(m: Clif, b: Block)
    requires
        m.has_block(b),
    ensures
        spares(m, #[trigger] m.set_cold(b)),
{
    reveal(spares);
    reveal(Clif::set_cold);
}

pub broadcast proof fn append_param_spares(m: Clif, b: Block, ty: Ty)
    requires
        m.has_block(b),
    ensures
        spares(m, #[trigger] m.append_param(b, ty)),
{
    reveal(spares);
    reveal(Clif::append_param);
}

pub broadcast proof fn switch_to_spares(m: Clif, b: Block)
    ensures
        spares(m, #[trigger] m.switch_to(b)),
{
    reveal(spares);
    reveal(Clif::switch_to);
}

pub broadcast proof fn use_var_spares(m: Clif, var: Variable)
    requires
        placed(m),
    ensures
        spares(m, #[trigger] m.use_var(var)),
{
    reveal(spares);
    reveal(Clif::use_var);
    let n = m.use_var(var);
    let b = m.current->0;
    if !m.defs.contains_key((var, b)) {
        let phis = n.info(b).phis;
        assert(phis[phis.len() - 1] == (var, m.begun().next()));
    }
}

pub broadcast group group_spares {
    spares_trans,
    push_spares,
    create_block_spares,
    set_cold_spares,
    append_param_spares,
    switch_to_spares,
    use_var_spares,
}

pub broadcast proof fn stamp_spares(f: Frame, m: Clif, bc: u32)
    requires
        placed(m),
    ensures
        #![trigger f.stamp(m, bc)]
        spares(m, f.stamp(m, bc)),
{
    broadcast use {crate::growth::group_grows, group_spares};

    reveal(Frame::stamp);
}

pub broadcast proof fn slow_result_spares(f: Frame, m: Clif, s: Slow, args: Seq<Value>)
    requires
        placed(m),
    ensures
        #![trigger f.slow_result(m, s, args)]
        spares(m, f.slow_result(m, s, args).0),
{
    broadcast use {crate::growth::group_grows, group_spares};

    reveal(Frame::slow_result);
}

pub broadcast proof fn check_exc_spares(f: Frame, m: Clif, cont: Block)
    requires
        placed(m),
    ensures
        #![trigger f.check_exc(m, cont)]
        spares(m, f.check_exc(m, cont)),
{
    broadcast use {crate::growth::group_grows, group_spares};

    reveal(Frame::check_exc);
}

pub broadcast proof fn box_int32_spares(f: Frame, m: Clif, lo: Value)
    requires
        placed(m),
    ensures
        #![trigger f.box_int32(m, lo)]
        spares(m, f.box_int32(m, lo).0),
{
    broadcast use {crate::growth::group_grows, group_spares};

    reveal(Frame::box_int32);
}

pub broadcast proof fn both_int32_spares(f: Frame, m: Clif, l: Value, r: Value)
    requires
        placed(m),
    ensures
        #![trigger f.both_int32(m, l, r)]
        spares(m, f.both_int32(m, l, r).0),
{
    broadcast use {crate::growth::group_grows, group_spares};

    reveal(Frame::both_int32);
}

pub broadcast proof fn bit_result_spares(f: Frame, m: Clif, kind: u8, l: Value, r: Value)
    requires
        placed(m),
    ensures
        #![trigger f.bit_result(m, kind, l, r)]
        spares(m, f.bit_result(m, kind, l, r).0),
{
    broadcast use {crate::growth::group_grows, group_spares};

    reveal(Frame::bit_result);
}

pub broadcast proof fn not_both_cells_spares(f: Frame, m: Clif, l: Value, r: Value)
    requires
        placed(m),
    ensures
        #![trigger f.not_both_cells(m, l, r)]
        spares(m, f.not_both_cells(m, l, r).0),
{
    broadcast use {crate::growth::group_grows, group_spares};

    reveal(Frame::not_both_cells);
}

pub broadcast proof fn not_both_numbers_spares(f: Frame, m: Clif, l: Value, r: Value)
    requires
        placed(m),
    ensures
        #![trigger f.not_both_numbers(m, l, r)]
        spares(m, f.not_both_numbers(m, l, r).0),
{
    broadcast use {crate::growth::group_grows, group_spares};

    reveal(Frame::not_both_numbers);
}

pub broadcast proof fn has_elements_spares(f: Frame, m: Clif, v: Value)
    requires
        placed(m),
    ensures
        #![trigger f.has_elements(m, v)]
        spares(m, f.has_elements(m, v).0),
{
    broadcast use {crate::growth::group_grows, group_spares};

    reveal(Frame::has_elements);
}

pub broadcast proof fn is_bool_spares(f: Frame, m: Clif, v: Value)
    requires
        placed(m),
    ensures
        #![trigger f.is_bool(m, v)]
        spares(m, f.is_bool(m, v).0),
{
    broadcast use {crate::growth::group_grows, group_spares};

    reveal(Frame::is_bool);
}

pub broadcast proof fn is_nullish_spares(f: Frame, m: Clif, v: Value)
    requires
        placed(m),
    ensures
        #![trigger f.is_nullish(m, v)]
        spares(m, f.is_nullish(m, v).0),
{
    broadcast use {crate::growth::group_grows, group_spares};

    reveal(Frame::is_nullish);
}

pub broadcast proof fn not_cell_spares(f: Frame, m: Clif, v: Value)
    requires
        placed(m),
    ensures
        #![trigger f.not_cell(m, v)]
        spares(m, f.not_cell(m, v).0),
{
    broadcast use {crate::growth::group_grows, group_spares};

    reveal(Frame::not_cell);
}

pub broadcast proof fn is_int32_spares(f: Frame, m: Clif, v: Value, ntag: Value)
    requires
        placed(m),
    ensures
        #![trigger f.is_int32(m, v, ntag)]
        spares(m, f.is_int32(m, v, ntag).0),
{
    broadcast use {crate::growth::group_grows, group_spares};

    reveal(Frame::is_int32);
}

pub broadcast proof fn same_structure_spares(f: Frame, m: Clif, v: Value, md_off: i32)
    requires
        placed(m),
    ensures
        #![trigger f.same_structure(m, v, md_off)]
        spares(m, f.same_structure(m, v, md_off).0),
{
    broadcast use {crate::growth::group_grows, group_spares};

    reveal(Frame::same_structure);
}

pub broadcast proof fn slot_address_spares(f: Frame, m: Clif, md: Value, offset: i32, base: Value)
    requires
        placed(m),
    ensures
        #![trigger f.slot_address(m, md, offset, base)]
        spares(m, f.slot_address(m, md, offset, base).0),
{
    broadcast use {crate::growth::group_grows, group_spares};

    reveal(Frame::slot_address);
}

pub broadcast proof fn in_bounds_spares(f: Frame, m: Clif, bv: Value, iv: Value, offset: i32)
    requires
        placed(m),
    ensures
        #![trigger f.in_bounds(m, bv, iv, offset)]
        spares(m, f.in_bounds(m, bv, iv, offset).0),
{
    broadcast use {crate::growth::group_grows, group_spares};

    reveal(Frame::in_bounds);
}

pub broadcast proof fn element_address_spares(f: Frame, m: Clif, bf: Value, idx: Value)
    requires
        placed(m),
    ensures
        #![trigger f.element_address(m, bf, idx)]
        spares(m, f.element_address(m, bf, idx).0),
{
    broadcast use {crate::growth::group_grows, group_spares};

    reveal(Frame::element_address);
}

pub broadcast proof fn slow_void_spares(f: Frame, m: Clif, s: Slow, args: Seq<Value>)
    requires
        placed(m),
    ensures
        #![trigger f.slow_void(m, s, args)]
        spares(m, f.slow_void(m, s, args)),
{
    broadcast use {crate::growth::group_grows, group_spares};

    reveal(Frame::slow_void);
}

pub broadcast proof fn fast_scope_spares(f: Frame, m: Clif, md_off: i32)
    requires
        placed(m),
    ensures
        #![trigger f.fast_scope(m, md_off)]
        spares(m, f.fast_scope(m, md_off).0),
{
    broadcast use {crate::growth::group_grows, group_spares};

    reveal(Frame::fast_scope);
}

pub broadcast proof fn join_result_spares(f: Frame, m: Clif, r: Value, join: Block)
    requires
        placed(m),
        m.blocks.len() < u32::MAX,
    ensures
        #![trigger f.join_result(m, r, join)]
        spares(m, f.join_result(m, r, join)),
{
    broadcast use {crate::growth::group_grows, group_spares, check_exc_spares, crate::growth::check_exc_grows};

    reveal(Frame::join_result);
}

pub broadcast proof fn slow_binary_spares(f: Frame, m: Clif, s: Slow, l: Value, r: Value, bc: u32)
    requires
        placed(m),
    ensures
        #![trigger f.slow_binary(m, s, l, r, bc)]
        spares(m, f.slow_binary(m, s, l, r, bc).0),
{
    broadcast use {crate::growth::group_grows, group_spares, stamp_spares, slow_result_spares, crate::growth::stamp_grows, crate::growth::slow_result_grows};

    reveal(Frame::slow_binary);
}

pub broadcast group group_pieces_spare {
    stamp_spares,
    slow_result_spares,
    check_exc_spares,
    box_int32_spares,
    both_int32_spares,
    bit_result_spares,
    not_both_cells_spares,
    not_both_numbers_spares,
    has_elements_spares,
    is_bool_spares,
    is_nullish_spares,
    not_cell_spares,
    is_int32_spares,
    same_structure_spares,
    slot_address_spares,
    in_bounds_spares,
    element_address_spares,
    slow_void_spares,
    fast_scope_spares,
    join_result_spares,
    slow_binary_spares,
}

/// No variable was written but the one that is given a value last.
pub broadcast proof fn written_last(m: Clif, p: Clif, var: Variable, x: Value, inst: Inst)
    requires
        #[trigger] spares(m, p),
        placed(p),
    ensures
        writes_only(m, #[trigger] p.def_var(var, x).push(inst), Some(var)),
{
    reveal(spares);
    reveal(writes_only);
    reveal(Clif::def_var);
    reveal(Clif::push);
}

/// No variable was written but the one that gets what a block takes.
pub broadcast proof fn written_joined(f: Frame, m: Clif, p: Clif, join: Block, dst: VR, cont: Block)
    requires
        #[trigger] spares(m, p),
        p.has_block(join),
    ensures
        writes_only(m, #[trigger] f.write_joined(p, join, dst, cont), Some(f.var(dst))),
{
    broadcast use {crate::growth::group_grows, group_spares, written_last};

    reveal(Frame::write_joined);
    let q = p.switch_to(join);
    assert(placed(q));
    assert(spares(m, q));
}

/// It is so whatever block is current.
pub broadcast proof fn written_switched(m: Clif, n: Clif, w: Option<Variable>, b: Block)
    requires
        #[trigger] writes_only(m, n, w),
    ensures
        writes_only(m, #[trigger] n.switch_to(b), w),
{
    reveal(writes_only);
    reveal(Clif::switch_to);
}

/// No variable was written at all.
pub broadcast proof fn spares_all(m: Clif, n: Clif)
    requires
        #[trigger] spares(m, n),
    ensures
        m.blocks.len() <= n.blocks.len(),
        forall|w: Option<Variable>| #[trigger] writes_only(m, n, w),
{
    reveal(spares);
    reveal(writes_only);
}

pub broadcast group group_written {
    written_last,
    written_joined,
    written_switched,
    spares_all,
}

/// The register that an operation writes.
pub open spec fn written(op: OpView) -> Option<VR> {
    match op {
        Operation::Mov(d, _) => Some(d),
        Operation::MovK(d, _) => Some(d),
        Operation::ToThis => Some(0),
        Operation::GetById { dst, .. } => Some(dst),
        Operation::GetByVal { dst, .. } => Some(dst),
        Operation::GetLength { dst, .. } => Some(dst),
        Operation::Add { dst, .. } => Some(dst),
        Operation::AddK { dst, .. } => Some(dst),
        Operation::Inc { dst, .. } => Some(dst),
        Operation::BitOp { dst, .. } => Some(dst),
        Operation::BitOpK { dst, .. } => Some(dst),
        Operation::ResolveScope { dst, .. } => Some(dst),
        Operation::GetFromScope { dst, .. } => Some(dst),
        Operation::Call { dst, .. } => Some(dst),
        Operation::NeqNull { dst, .. } => Some(dst),
        _ => None,
    }
}

/// The variable of the register that an operation writes.
pub open spec fn target_of(f: Frame, op: OpView) -> Option<Variable> {
    match written(op) {
        Some(r) => Some(f.var(r)),
        None => None,
    }
}

#[verifier::rlimit(60)]
proof fn lemma_to_this_writes(f: Frame, c: Code, op: OpView)
    requires
        begins(f, c.m, op_cost(op)),
        op is ToThis,
    ensures
        writes_only(c.m, f.op(c, op).m, target_of(f, op)),
{
    broadcast use {
        crate::growth::group_grows,
        crate::growth::group_pieces_grow,
        group_spares,
        group_pieces_spare,
        group_written,
    };

    reveal(Frame::op);
    reveal(Frame::handler);
    reveal(Frame::to_this);
}

#[verifier::rlimit(60)]
proof fn lemma_check_traps_writes(f: Frame, c: Code, op: OpView)
    requires
        begins(f, c.m, op_cost(op)),
        op is CheckTraps,
    ensures
        writes_only(c.m, f.op(c, op).m, target_of(f, op)),
{
    broadcast use {
        crate::growth::group_grows,
        crate::growth::group_pieces_grow,
        group_spares,
        group_pieces_spare,
        group_written,
    };

    reveal(Frame::op);
    reveal(Frame::handler);
    reveal(Frame::check_traps);
}

#[verifier::rlimit(60)]
proof fn lemma_get_by_id_writes(f: Frame, c: Code, op: OpView)
    requires
        begins(f, c.m, op_cost(op)),
        op is GetById,
    ensures
        writes_only(c.m, f.op(c, op).m, target_of(f, op)),
{
    broadcast use {
        crate::growth::group_grows,
        crate::growth::group_pieces_grow,
        group_spares,
        group_pieces_spare,
        group_written,
    };

    reveal(Frame::op);
    reveal(Frame::handler);
    reveal(Frame::get_by_id);
}

#[verifier::rlimit(60)]
proof fn lemma_put_by_id_writes(f: Frame, c: Code, op: OpView)
    requires
        begins(f, c.m, op_cost(op)),
        op is PutById,
    ensures
        writes_only(c.m, f.op(c, op).m, target_of(f, op)),
{
    broadcast use {
        crate::growth::group_grows,
        crate::growth::group_pieces_grow,
        group_spares,
        group_pieces_spare,
        group_written,
    };

    reveal(Frame::op);
    reveal(Frame::handler);
    reveal(Frame::put_by_id);
}

#[verifier::rlimit(60)]
proof fn lemma_get_by_val_writes(f: Frame, c: Code, op: OpView)
    requires
        begins(f, c.m, op_cost(op)),
        op is GetByVal,
    ensures
        writes_only(c.m, f.op(c, op).m, target_of(f, op)),
{
    broadcast use {
        crate::growth::group_grows,
        crate::growth::group_pieces_grow,
        group_spares,
        group_pieces_spare,
        group_written,
    };

    reveal(Frame::op);
    reveal(Frame::handler);
    reveal(Frame::get_by_val);
}

#[verifier::rlimit(60)]
proof fn lemma_put_by_val_writes(f: Frame, c: Code, op: OpView)
    requires
        begins(f, c.m, op_cost(op)),
        op is PutByVal,
    ensures
        writes_only(c.m, f.op(c, op).m, target_of(f, op)),
{
    broadcast use {
        crate::growth::group_grows,
        crate::growth::group_pieces_grow,
        group_spares,
        group_pieces_spare,
        group_written,
    };

    reveal(Frame::op);
    reveal(Frame::handler);
    reveal(Frame::put_by_val);
}

#[verifier::rlimit(60)]
proof fn lemma_get_length_writes(f: Frame, c: Code, op: OpView)
    requires
        begins(f, c.m, op_cost(op)),
        op is GetLength,
    ensures
        writes_only(c.m, f.op(c, op).m, target_of(f, op)),
{
    broadcast use {
        crate::growth::group_grows,
        crate::growth::group_pieces_grow,
        group_spares,
        group_pieces_spare,
        group_written,
    };

    reveal(Frame::op);
    reveal(Frame::handler);
    reveal(Frame::get_length);
}

#[verifier::rlimit(60)]
proof fn lemma_add_writes(f: Frame, c: Code, op: OpView)
    requires
        begins(f, c.m, op_cost(op)),
        op is Add,
    ensures
        writes_only(c.m, f.op(c, op).m, target_of(f, op)),
{
    broadcast use {
        crate::growth::group_grows,
        crate::growth::group_pieces_grow,
        group_spares,
        group_pieces_spare,
        group_written,
    };

    reveal(Frame::op);
    reveal(Frame::handler);
    reveal(Frame::add_registers);
    reveal(Frame::add_values);
}

#[verifier::rlimit(60)]
proof fn lemma_add_k_writes(f: Frame, c: Code, op: OpView)
    requires
        begins(f, c.m, op_cost(op)),
        op is AddK,
    ensures
        writes_only(c.m, f.op(c, op).m, target_of(f, op)),
{
    broadcast use {
        crate::growth::group_grows,
        crate::growth::group_pieces_grow,
        group_spares,
        group_pieces_spare,
        group_written,
    };

    reveal(Frame::op);
    reveal(Frame::handler);
    reveal(Frame::add_constant);
    reveal(Frame::add_values);
}

#[verifier::rlimit(60)]
proof fn lemma_inc_writes(f: Frame, c: Code, op: OpView)
    requires
        begins(f, c.m, op_cost(op)),
        op is Inc,
    ensures
        writes_only(c.m, f.op(c, op).m, target_of(f, op)),
{
    broadcast use {
        crate::growth::group_grows,
        crate::growth::group_pieces_grow,
        group_spares,
        group_pieces_spare,
        group_written,
    };

    reveal(Frame::op);
    reveal(Frame::handler);
    reveal(Frame::inc);
    reveal(Frame::add_values);
}

#[verifier::rlimit(60)]
proof fn lemma_bit_op_writes(f: Frame, c: Code, op: OpView)
    requires
        begins(f, c.m, op_cost(op)),
        op is BitOp,
    ensures
        writes_only(c.m, f.op(c, op).m, target_of(f, op)),
{
    broadcast use {
        crate::growth::group_grows,
        crate::growth::group_pieces_grow,
        group_spares,
        group_pieces_spare,
        group_written,
    };

    reveal(Frame::op);
    reveal(Frame::handler);
    reveal(Frame::bitop_registers);
    reveal(Frame::bitop);
}

#[verifier::rlimit(60)]
proof fn lemma_bit_op_k_writes(f: Frame, c: Code, op: OpView)
    requires
        begins(f, c.m, op_cost(op)),
        op is BitOpK,
    ensures
        writes_only(c.m, f.op(c, op).m, target_of(f, op)),
{
    broadcast use {
        crate::growth::group_grows,
        crate::growth::group_pieces_grow,
        group_spares,
        group_pieces_spare,
        group_written,
    };

    reveal(Frame::op);
    reveal(Frame::handler);
    reveal(Frame::bitop_constant);
    reveal(Frame::bitop);
}

#[verifier::rlimit(60)]
proof fn lemma_resolve_scope_writes(f: Frame, c: Code, op: OpView)
    requires
        begins(f, c.m, op_cost(op)),
        op is ResolveScope,
    ensures
        writes_only(c.m, f.op(c, op).m, target_of(f, op)),
{
    broadcast use {
        crate::growth::group_grows,
        crate::growth::group_pieces_grow,
        group_spares,
        group_pieces_spare,
        group_written,
    };

    reveal(Frame::op);
    reveal(Frame::handler);
    reveal(Frame::resolve_scope);
}

#[verifier::rlimit(60)]
proof fn lemma_get_from_scope_writes(f: Frame, c: Code, op: OpView)
    requires
        begins(f, c.m, op_cost(op)),
        op is GetFromScope,
    ensures
        writes_only(c.m, f.op(c, op).m, target_of(f, op)),
{
    broadcast use {
        crate::growth::group_grows,
        crate::growth::group_pieces_grow,
        group_spares,
        group_pieces_spare,
        group_written,
    };

    reveal(Frame::op);
    reveal(Frame::handler);
    reveal(Frame::get_from_scope);
}

#[verifier::rlimit(60)]
proof fn lemma_put_to_scope_writes(f: Frame, c: Code, op: OpView)
    requires
        begins(f, c.m, op_cost(op)),
        op is PutToScope,
    ensures
        writes_only(c.m, f.op(c, op).m, target_of(f, op)),
{
    broadcast use {
        crate::growth::group_grows,
        crate::growth::group_pieces_grow,
        group_spares,
        group_pieces_spare,
        group_written,
    };

    reveal(Frame::op);
    reveal(Frame::handler);
    reveal(Frame::put_to_scope);
}

#[verifier::rlimit(60)]
proof fn lemma_j_true_writes(f: Frame, c: Code, op: OpView)
    requires
        begins(f, c.m, op_cost(op)),
        op is JTrue,
    ensures
        writes_only(c.m, f.op(c, op).m, target_of(f, op)),
{
    broadcast use {
        crate::growth::group_grows,
        crate::growth::group_pieces_grow,
        group_spares,
        group_pieces_spare,
        group_written,
    };

    reveal(Frame::op);
    reveal(Frame::branch);
    reveal(Frame::jbool);
}

#[verifier::rlimit(60)]
proof fn lemma_j_false_writes(f: Frame, c: Code, op: OpView)
    requires
        begins(f, c.m, op_cost(op)),
        op is JFalse,
    ensures
        writes_only(c.m, f.op(c, op).m, target_of(f, op)),
{
    broadcast use {
        crate::growth::group_grows,
        crate::growth::group_pieces_grow,
        group_spares,
        group_pieces_spare,
        group_written,
    };

    reveal(Frame::op);
    reveal(Frame::branch);
    reveal(Frame::jbool);
}

#[verifier::rlimit(60)]
proof fn lemma_j_eq_null_writes(f: Frame, c: Code, op: OpView)
    requires
        begins(f, c.m, op_cost(op)),
        op is JEqNull,
    ensures
        writes_only(c.m, f.op(c, op).m, target_of(f, op)),
{
    broadcast use {
        crate::growth::group_grows,
        crate::growth::group_pieces_grow,
        group_spares,
        group_pieces_spare,
        group_written,
    };

    reveal(Frame::op);
    reveal(Frame::branch);
    reveal(Frame::jnullish);
}

#[verifier::rlimit(60)]
proof fn lemma_j_n_eq_null_writes(f: Frame, c: Code, op: OpView)
    requires
        begins(f, c.m, op_cost(op)),
        op is JNEqNull,
    ensures
        writes_only(c.m, f.op(c, op).m, target_of(f, op)),
{
    broadcast use {
        crate::growth::group_grows,
        crate::growth::group_pieces_grow,
        group_spares,
        group_pieces_spare,
        group_written,
    };

    reveal(Frame::op);
    reveal(Frame::branch);
    reveal(Frame::jnullish);
}

#[verifier::rlimit(60)]
proof fn lemma_j_strict_eq_writes(f: Frame, c: Code, op: OpView)
    requires
        begins(f, c.m, op_cost(op)),
        op is JStrictEq,
    ensures
        writes_only(c.m, f.op(c, op).m, target_of(f, op)),
{
    broadcast use {
        crate::growth::group_grows,
        crate::growth::group_pieces_grow,
        group_spares,
        group_pieces_spare,
        group_written,
    };

    reveal(Frame::op);
    reveal(Frame::branch);
    reveal(Frame::jstricteq_registers);
    reveal(Frame::jstricteq);
}

#[verifier::rlimit(60)]
proof fn lemma_j_n_strict_eq_writes(f: Frame, c: Code, op: OpView)
    requires
        begins(f, c.m, op_cost(op)),
        op is JNStrictEq,
    ensures
        writes_only(c.m, f.op(c, op).m, target_of(f, op)),
{
    broadcast use {
        crate::growth::group_grows,
        crate::growth::group_pieces_grow,
        group_spares,
        group_pieces_spare,
        group_written,
    };

    reveal(Frame::op);
    reveal(Frame::branch);
    reveal(Frame::jstricteq_registers);
    reveal(Frame::jstricteq);
}

#[verifier::rlimit(60)]
proof fn lemma_j_strict_eq_k_writes(f: Frame, c: Code, op: OpView)
    requires
        begins(f, c.m, op_cost(op)),
        op is JStrictEqK,
    ensures
        writes_only(c.m, f.op(c, op).m, target_of(f, op)),
{
    broadcast use {
        crate::growth::group_grows,
        crate::growth::group_pieces_grow,
        group_spares,
        group_pieces_spare,
        group_written,
    };

    reveal(Frame::op);
    reveal(Frame::branch);
    reveal(Frame::jstricteq_constant);
    reveal(Frame::jstricteq);
}

#[verifier::rlimit(60)]
proof fn lemma_j_n_strict_eq_k_writes(f: Frame, c: Code, op: OpView)
    requires
        begins(f, c.m, op_cost(op)),
        op is JNStrictEqK,
    ensures
        writes_only(c.m, f.op(c, op).m, target_of(f, op)),
{
    broadcast use {
        crate::growth::group_grows,
        crate::growth::group_pieces_grow,
        group_spares,
        group_pieces_spare,
        group_written,
    };

    reveal(Frame::op);
    reveal(Frame::branch);
    reveal(Frame::jstricteq_constant);
    reveal(Frame::jstricteq);
}

#[verifier::rlimit(60)]
proof fn lemma_j_less_writes(f: Frame, c: Code, op: OpView)
    requires
        begins(f, c.m, op_cost(op)),
        op is JLess,
    ensures
        writes_only(c.m, f.op(c, op).m, target_of(f, op)),
{
    broadcast use {
        crate::growth::group_grows,
        crate::growth::group_pieces_grow,
        group_spares,
        group_pieces_spare,
        group_written,
    };

    reveal(Frame::op);
    reveal(Frame::branch);
    reveal(Frame::jless);
}

#[verifier::rlimit(60)]
proof fn lemma_j_n_less_writes(f: Frame, c: Code, op: OpView)
    requires
        begins(f, c.m, op_cost(op)),
        op is JNLess,
    ensures
        writes_only(c.m, f.op(c, op).m, target_of(f, op)),
{
    broadcast use {
        crate::growth::group_grows,
        crate::growth::group_pieces_grow,
        group_spares,
        group_pieces_spare,
        group_written,
    };

    reveal(Frame::op);
    reveal(Frame::branch);
    reveal(Frame::jless);
}

/// [`Frame::store_args`] writes no variable.
proof fn lemma_store_args_spares(f: Frame, m: Clif, nf: Value, args: Seq<VR>)
    requires
        placed(m),
    ensures
        spares(m, f.store_args(m, nf, args)),
        placed(f.store_args(m, nf, args)),
        f.store_args(m, nf, args).current == m.current,
        f.store_args(m, nf, args).blocks.len() == m.blocks.len(),
    decreases args.len(),
{
    broadcast use {crate::growth::group_grows, group_spares};

    reveal(Frame::store_args);
    if args.len() > 0 {
        lemma_store_args_spares(f, m, nf, args.drop_last());
    } else {
        reveal(spares);
    }
}

#[verifier::rlimit(60)]
proof fn lemma_call_writes(f: Frame, c: Code, op: OpView)
    requires
        begins(f, c.m, op_cost(op)),
        op is Call,
    ensures
        writes_only(c.m, f.op(c, op).m, target_of(f, op)),
{
    broadcast use {
        crate::growth::group_grows,
        crate::growth::group_pieces_grow,
        group_spares,
        group_pieces_spare,
        group_written,
    };

    reveal(Frame::op);
    reveal(Frame::handler);
    reveal(Frame::call);
    if let Operation::Call { dst, callee, this, args, frame_size, bc } = op {
        let (m, next) = c.m.new_block();
        let (m, cfr) = m.get(f.cfr);
        let (m, callee_v) = m.get(f.var(callee));
        let (m, this_v) = m.get(f.var(this));
        let (m, distance) = m.constant(Ty::I64, (-(frame_size * 8)) as i64);
        let (m, nf) = m.ins(binary(BinaryOp::Iadd, cfr, distance));
        let m = m.push(store(callee_v, nf, CFR_CALLEE));
        let (m, argc) = m.constant(Ty::I32, (args.len() + 1) as i64);
        let m = m.push(store(argc, nf, CFR_ARGCOUNT));
        let m = m.push(store(this_v, nf, CFR_THIS));
        lemma_store_args_spares(f, m, nf, args);
    }
}

#[verifier::rlimit(60)]
proof fn lemma_plain_writes(f: Frame, c: Code, op: OpView)
    requires
        begins(f, c.m, op_cost(op)),
        op is Mov || op is MovK || op is NeqNull || op is Ret || op is RetK || op is Jmp
            || op is Enter || op is LoopHint,
    ensures
        writes_only(c.m, f.op(c, op).m, target_of(f, op)),
{
    broadcast use {
        crate::growth::group_grows,
        crate::growth::group_pieces_grow,
        group_spares,
        group_pieces_spare,
        group_written,
    };

    reveal(Frame::op);
    reveal(Frame::straight);
    reveal(Frame::leave);
    reveal(Frame::mov);
    reveal(Frame::mov_constant);
    reveal(Frame::neq_null);
    reveal(Frame::ret);
    reveal(Frame::ret_constant);
    reveal(spares);
    reveal(writes_only);
    reveal(Clif::def_var);
}

/// The code of an operation gives no variable a value but that of the register that the
/// operation writes: every other register has what it had.
pub proof fn other_registers_stay(f: Frame, c: Code, op: OpView)
    requires
        begins(f, c.m, op_cost(op)),
        op !is Label,
    ensures
        writes_only(c.m, f.op(c, op).m, target_of(f, op)),
{
    match op {
        Operation::ToThis => lemma_to_this_writes(f, c, op),
        Operation::CheckTraps { .. } => lemma_check_traps_writes(f, c, op),
        Operation::GetById { .. } => lemma_get_by_id_writes(f, c, op),
        Operation::PutById { .. } => lemma_put_by_id_writes(f, c, op),
        Operation::GetByVal { .. } => lemma_get_by_val_writes(f, c, op),
        Operation::PutByVal { .. } => lemma_put_by_val_writes(f, c, op),
        Operation::GetLength { .. } => lemma_get_length_writes(f, c, op),
        Operation::Add { .. } => lemma_add_writes(f, c, op),
        Operation::AddK { .. } => lemma_add_k_writes(f, c, op),
        Operation::Inc { .. } => lemma_inc_writes(f, c, op),
        Operation::BitOp { .. } => lemma_bit_op_writes(f, c, op),
        Operation::BitOpK { .. } => lemma_bit_op_k_writes(f, c, op),
        Operation::ResolveScope { .. } => lemma_resolve_scope_writes(f, c, op),
        Operation::GetFromScope { .. } => lemma_get_from_scope_writes(f, c, op),
        Operation::PutToScope { .. } => lemma_put_to_scope_writes(f, c, op),
        Operation::JTrue { .. } => lemma_j_true_writes(f, c, op),
        Operation::JFalse { .. } => lemma_j_false_writes(f, c, op),
        Operation::JEqNull { .. } => lemma_j_eq_null_writes(f, c, op),
        Operation::JNEqNull { .. } => lemma_j_n_eq_null_writes(f, c, op),
        Operation::JStrictEq { .. } => lemma_j_strict_eq_writes(f, c, op),
        Operation::JNStrictEq { .. } => lemma_j_n_strict_eq_writes(f, c, op),
        Operation::JStrictEqK { .. } => lemma_j_strict_eq_k_writes(f, c, op),
        Operation::JNStrictEqK { .. } => lemma_j_n_strict_eq_k_writes(f, c, op),
        Operation::JLess { .. } => lemma_j_less_writes(f, c, op),
        Operation::JNLess { .. } => lemma_j_n_less_writes(f, c, op),
        Operation::Call { .. } => lemma_call_writes(f, c, op),
        _ => lemma_plain_writes(f, c, op),
    }
}

} // verus!
