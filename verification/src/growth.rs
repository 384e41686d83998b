//! What stays as code is appended, and where control goes.
//!
//! [`grows`] says that a function holds all that an earlier state of it held, and
//! [`goes`] which block follows on which for given [`Bits`].
use crate::bytecode::{NOT_CELL_MASK, NUMBER_TAG};
use crate::clif::{values_grow, Block, Clif, Inst, Ty, Value, Variable};
use crate::function::pins_first;
use crate::meaning::{respects, Bits};
use crate::slow::Slow;
use crate::template::{pinned_values, Frame};
use vstd::prelude::*;

verus! {

broadcast use crate::clif::group_clif;

/// A block that control goes to, with the arguments passed.
pub struct Exit {
    pub to: Block,
    pub args: Seq<Value>,
}

/// Where a terminator takes control.
pub open spec fn destination(inst: Inst, e: Bits) -> Option<Exit> {
    match inst {
        Inst::Brif { cond, then_block, then_args, else_block, else_args } => Some(
            if e(cond) != 0 {
                Exit { to: then_block, args: then_args }
            } else {
                Exit { to: else_block, args: else_args }
            },
        ),
        Inst::Jump { to, args } => Some(Exit { to, args }),
        _ => None,
    }
}

/// Control goes from the block `b` to the block `to`, with `args`.
pub open spec fn goes(m: Clif, e: Bits, b: Block, to: Block, args: Seq<Value>) -> bool {
    exists|i: int|
        0 <= i < m.insts.len() && (#[trigger] m.insts[i]).block == b && destination(
            m.insts[i].inst,
            e,
        ) == Some(Exit { to, args })
}

/// Control is in a block of the function.
pub open spec fn placed(m: Clif) -> bool {
    m.current is Some && m.has_block(m.current->0)
}

/// What `m` holds is there in `n`: its instructions, its values, the parameters of its
/// blocks, and what it gave to pinned variables.
#[verifier::opaque]
pub open spec fn grows(m: Clif, n: Clif) -> bool {
    &&& n.setup == m.setup
    &&& m.insts.len() <= n.insts.len()
    &&& forall|i: int| 0 <= i < m.insts.len() ==> #[trigger] n.insts[i] == m.insts[i]
    &&& values_grow(m.values, n.values)
    &&& m.blocks.len() <= n.blocks.len()
    &&& forall|i: int|
        0 <= i < m.blocks.len() ==> (#[trigger] n.blocks[i]).args == m.blocks[i].args
    &&& forall|k: (Variable, Block)|
        #![trigger n.defs[k]]
        #![trigger n.defs.contains_key(k)]
        m.defs.contains_key(k) && k.0.id < pinned_values().len() ==> n.defs.contains_key(k)
            && n.defs[k] == m.defs[k]
}

pub broadcast proof fn grows_trans(a: Clif, b: Clif, c: Clif)
    requires
        #[trigger] grows(a, b),
        #[trigger] grows(b, c),
    ensures
        grows(a, c),
{
    reveal(grows);
    assert forall|i: int| 0 <= i < a.insts.len() implies #[trigger] c.insts[i] == a.insts[i] by {
        assert(b.insts[i] == a.insts[i]);
    }
    assert forall|i: int| 0 <= i < a.blocks.len() implies (#[trigger] c.blocks[i]).args
        == a.blocks[i].args by {
        assert(b.blocks[i].args == a.blocks[i].args);
    }
    assert forall|k: (Variable, Block)|
        #![trigger c.defs[k]]
        #![trigger c.defs.contains_key(k)]
        a.defs.contains_key(k) && k.0.id < pinned_values().len() implies c.defs.contains_key(k)
        && c.defs[k] == a.defs[k] by {
        assert(b.defs.contains_key(k));
    }
}

/// What `m` holds of instructions is there in `n`, and no call was added.
#[verifier::opaque]
pub open spec fn silent(m: Clif, n: Clif) -> bool {
    &&& m.insts.len() <= n.insts.len()
    &&& forall|i: int| 0 <= i < m.insts.len() ==> #[trigger] n.insts[i] == m.insts[i]
    &&& forall|i: int|
        m.insts.len() <= i < n.insts.len() ==> !((#[trigger] n.insts[i]).inst is Call)
}

pub broadcast proof fn silent_trans(a: Clif, b: Clif, c: Clif)
    requires
        #[trigger] silent(a, b),
        #[trigger] silent(b, c),
    ensures
        silent(a, c),
{
    reveal(silent);
    assert forall|i: int| 0 <= i < b.insts.len() implies #[trigger] c.insts[i] == b.insts[i] by {
    }
}

pub proof fn grows_refl(m: Clif)
    ensures
        grows(m, m),
        silent(m, m),
{
    reveal(grows);
    reveal(silent);
}

pub broadcast proof fn push_grows(m: Clif, inst: Inst)
    requires
        placed(m),
    ensures
        #![trigger m.push(inst)]
        grows(m, m.push(inst)),
        !(inst is Call) ==> silent(m, m.push(inst)),
        placed(m.push(inst)),
        m.push(inst).current == m.current,
        m.push(inst).blocks.len() == m.blocks.len(),
{
    reveal(grows);
    reveal(silent);
    reveal(crate::clif::known);
    reveal(crate::clif::type_of);
    reveal(Clif::push);
}

pub broadcast proof fn create_block_grows(m: Clif)
    ensures
        grows(m, #[trigger] m.create_block()),
        silent(m, m.create_block()),
{
    reveal(grows);
    reveal(silent);
    reveal(Clif::create_block);
}

pub broadcast proof fn set_cold_grows(m: Clif, b: Block)
    requires
        m.has_block(b),
    ensures
        grows(m, #[trigger] m.set_cold(b)),
        silent(m, m.set_cold(b)),
{
    reveal(grows);
    reveal(silent);
    reveal(Clif::set_cold);
}

pub broadcast proof fn new_join_grows(m: Clif, b: Block, ty: Ty)
    requires
        b.id == m.blocks.len(),
    ensures
        grows(m, #[trigger] m.create_block().append_param(b, ty)),
        silent(m, m.create_block().append_param(b, ty)),
{
    reveal(grows);
    reveal(silent);
    reveal(crate::clif::known);
    reveal(crate::clif::type_of);
    reveal(Clif::create_block);
    reveal(Clif::append_param);
}

pub broadcast proof fn switch_to_grows(m: Clif, b: Block)
    ensures
        grows(m, #[trigger] m.switch_to(b)),
        silent(m, m.switch_to(b)),
{
    reveal(grows);
    reveal(silent);
    reveal(Clif::switch_to);
}

pub broadcast proof fn use_var_grows(m: Clif, var: Variable)
    requires
        placed(m),
    ensures
        #![trigger m.use_var(var)]
        grows(m, m.use_var(var)),
        silent(m, m.use_var(var)),
        placed(m.use_var(var)),
        m.use_var(var).current == m.current,
        m.use_var(var).blocks.len() == m.blocks.len(),
{
    reveal(grows);
    reveal(silent);
    reveal(crate::clif::known);
    reveal(crate::clif::type_of);
    reveal(Clif::use_var);
}

pub broadcast proof fn def_var_grows(m: Clif, var: Variable, x: Value)
    requires
        var.id >= pinned_values().len(),
    ensures
        grows(m, #[trigger] m.def_var(var, x)),
        silent(m, m.def_var(var, x)),
{
    reveal(grows);
    reveal(silent);
    reveal(Clif::def_var);
}

pub broadcast group group_grows {
    grows_trans,
    silent_trans,
    push_grows,
    create_block_grows,
    set_cold_grows,
    new_join_grows,
    switch_to_grows,
    use_var_grows,
    def_var_grows,
}

pub broadcast proof fn stamp_grows(f: Frame, m: Clif, bc: u32)
    requires
        placed(m),
    ensures
        #![trigger f.stamp(m, bc)]
        grows(m, f.stamp(m, bc)),
        silent(m, f.stamp(m, bc)),
        placed(f.stamp(m, bc)),
        f.stamp(m, bc).current == m.current,
        f.stamp(m, bc).blocks.len() == m.blocks.len(),
{
    broadcast use group_grows;

    reveal(Frame::stamp);
}

pub broadcast proof fn slow_result_grows(f: Frame, m: Clif, s: Slow, args: Seq<Value>)
    requires
        placed(m),
    ensures
        #![trigger f.slow_result(m, s, args)]
        grows(m, f.slow_result(m, s, args).0),
        placed(f.slow_result(m, s, args).0),
        f.slow_result(m, s, args).0.current == m.current,
        f.slow_result(m, s, args).0.blocks.len() == m.blocks.len(),
{
    broadcast use group_grows;

    reveal(Frame::slow_result);
}

pub broadcast proof fn check_exc_grows(f: Frame, m: Clif, cont: Block)
    requires
        placed(m),
    ensures
        #![trigger f.check_exc(m, cont)]
        grows(m, f.check_exc(m, cont)),
        silent(m, f.check_exc(m, cont)),
        placed(f.check_exc(m, cont)),
        f.check_exc(m, cont).current == m.current,
        f.check_exc(m, cont).blocks.len() == m.blocks.len(),
{
    broadcast use group_grows;

    reveal(Frame::check_exc);
}

pub broadcast proof fn box_int32_grows(f: Frame, m: Clif, lo: Value)
    requires
        placed(m),
    ensures
        #![trigger f.box_int32(m, lo)]
        grows(m, f.box_int32(m, lo).0),
        silent(m, f.box_int32(m, lo).0),
        placed(f.box_int32(m, lo).0),
        f.box_int32(m, lo).0.current == m.current,
        f.box_int32(m, lo).0.blocks.len() == m.blocks.len(),
{
    broadcast use group_grows;

    reveal(Frame::box_int32);
}

pub broadcast proof fn both_int32_grows(f: Frame, m: Clif, l: Value, r: Value)
    requires
        placed(m),
    ensures
        #![trigger f.both_int32(m, l, r)]
        grows(m, f.both_int32(m, l, r).0),
        silent(m, f.both_int32(m, l, r).0),
        placed(f.both_int32(m, l, r).0),
        f.both_int32(m, l, r).0.current == m.current,
        f.both_int32(m, l, r).0.blocks.len() == m.blocks.len(),
{
    broadcast use group_grows;

    reveal(Frame::both_int32);
}

pub broadcast proof fn bit_result_grows(f: Frame, m: Clif, kind: u8, l: Value, r: Value)
    requires
        placed(m),
    ensures
        #![trigger f.bit_result(m, kind, l, r)]
        grows(m, f.bit_result(m, kind, l, r).0),
        silent(m, f.bit_result(m, kind, l, r).0),
        placed(f.bit_result(m, kind, l, r).0),
        f.bit_result(m, kind, l, r).0.current == m.current,
        f.bit_result(m, kind, l, r).0.blocks.len() == m.blocks.len(),
{
    broadcast use group_grows;

    reveal(Frame::bit_result);
}

pub broadcast proof fn not_both_cells_grows(f: Frame, m: Clif, l: Value, r: Value)
    requires
        placed(m),
    ensures
        #![trigger f.not_both_cells(m, l, r)]
        grows(m, f.not_both_cells(m, l, r).0),
        silent(m, f.not_both_cells(m, l, r).0),
        placed(f.not_both_cells(m, l, r).0),
        f.not_both_cells(m, l, r).0.current == m.current,
        f.not_both_cells(m, l, r).0.blocks.len() == m.blocks.len(),
{
    broadcast use group_grows;

    reveal(Frame::not_both_cells);
}

pub broadcast proof fn not_both_numbers_grows(f: Frame, m: Clif, l: Value, r: Value)
    requires
        placed(m),
    ensures
        #![trigger f.not_both_numbers(m, l, r)]
        grows(m, f.not_both_numbers(m, l, r).0),
        silent(m, f.not_both_numbers(m, l, r).0),
        placed(f.not_both_numbers(m, l, r).0),
        f.not_both_numbers(m, l, r).0.current == m.current,
        f.not_both_numbers(m, l, r).0.blocks.len() == m.blocks.len(),
{
    broadcast use group_grows;

    reveal(Frame::not_both_numbers);
}

pub broadcast proof fn has_elements_grows(f: Frame, m: Clif, v: Value)
    requires
        placed(m),
    ensures
        #![trigger f.has_elements(m, v)]
        grows(m, f.has_elements(m, v).0),
        silent(m, f.has_elements(m, v).0),
        placed(f.has_elements(m, v).0),
        f.has_elements(m, v).0.current == m.current,
        f.has_elements(m, v).0.blocks.len() == m.blocks.len(),
{
    broadcast use group_grows;

    reveal(Frame::has_elements);
}

pub broadcast proof fn is_bool_grows(f: Frame, m: Clif, v: Value)
    requires
        placed(m),
    ensures
        #![trigger f.is_bool(m, v)]
        grows(m, f.is_bool(m, v).0),
        silent(m, f.is_bool(m, v).0),
        placed(f.is_bool(m, v).0),
        f.is_bool(m, v).0.current == m.current,
        f.is_bool(m, v).0.blocks.len() == m.blocks.len(),
{
    broadcast use group_grows;

    reveal(Frame::is_bool);
}

pub broadcast proof fn is_nullish_grows(f: Frame, m: Clif, v: Value)
    requires
        placed(m),
    ensures
        #![trigger f.is_nullish(m, v)]
        grows(m, f.is_nullish(m, v).0),
        silent(m, f.is_nullish(m, v).0),
        placed(f.is_nullish(m, v).0),
        f.is_nullish(m, v).0.current == m.current,
        f.is_nullish(m, v).0.blocks.len() == m.blocks.len(),
{
    broadcast use group_grows;

    reveal(Frame::is_nullish);
}

pub broadcast proof fn not_cell_grows(f: Frame, m: Clif, v: Value)
    requires
        placed(m),
    ensures
        #![trigger f.not_cell(m, v)]
        grows(m, f.not_cell(m, v).0),
        silent(m, f.not_cell(m, v).0),
        placed(f.not_cell(m, v).0),
        f.not_cell(m, v).0.current == m.current,
        f.not_cell(m, v).0.blocks.len() == m.blocks.len(),
{
    broadcast use group_grows;

    reveal(Frame::not_cell);
}

pub broadcast proof fn is_int32_grows(f: Frame, m: Clif, v: Value, ntag: Value)
    requires
        placed(m),
    ensures
        #![trigger f.is_int32(m, v, ntag)]
        grows(m, f.is_int32(m, v, ntag).0),
        silent(m, f.is_int32(m, v, ntag).0),
        placed(f.is_int32(m, v, ntag).0),
        f.is_int32(m, v, ntag).0.current == m.current,
        f.is_int32(m, v, ntag).0.blocks.len() == m.blocks.len(),
{
    broadcast use group_grows;

    reveal(Frame::is_int32);
}

pub broadcast proof fn same_structure_grows(f: Frame, m: Clif, v: Value, md_off: i32)
    requires
        placed(m),
    ensures
        #![trigger f.same_structure(m, v, md_off)]
        grows(m, f.same_structure(m, v, md_off).0),
        silent(m, f.same_structure(m, v, md_off).0),
        placed(f.same_structure(m, v, md_off).0),
        f.same_structure(m, v, md_off).0.current == m.current,
        f.same_structure(m, v, md_off).0.blocks.len() == m.blocks.len(),
{
    broadcast use group_grows;

    reveal(Frame::same_structure);
}

pub broadcast proof fn slot_address_grows(f: Frame, m: Clif, md: Value, offset: i32, base: Value)
    requires
        placed(m),
    ensures
        #![trigger f.slot_address(m, md, offset, base)]
        grows(m, f.slot_address(m, md, offset, base).0),
        silent(m, f.slot_address(m, md, offset, base).0),
        placed(f.slot_address(m, md, offset, base).0),
        f.slot_address(m, md, offset, base).0.current == m.current,
        f.slot_address(m, md, offset, base).0.blocks.len() == m.blocks.len(),
{
    broadcast use group_grows;

    reveal(Frame::slot_address);
}

pub broadcast proof fn in_bounds_grows(f: Frame, m: Clif, bv: Value, iv: Value, offset: i32)
    requires
        placed(m),
    ensures
        #![trigger f.in_bounds(m, bv, iv, offset)]
        grows(m, f.in_bounds(m, bv, iv, offset).0),
        silent(m, f.in_bounds(m, bv, iv, offset).0),
        placed(f.in_bounds(m, bv, iv, offset).0),
        f.in_bounds(m, bv, iv, offset).0.current == m.current,
        f.in_bounds(m, bv, iv, offset).0.blocks.len() == m.blocks.len(),
{
    broadcast use group_grows;

    reveal(Frame::in_bounds);
}

pub broadcast proof fn element_address_grows(f: Frame, m: Clif, bf: Value, idx: Value)
    requires
        placed(m),
    ensures
        #![trigger f.element_address(m, bf, idx)]
        grows(m, f.element_address(m, bf, idx).0),
        silent(m, f.element_address(m, bf, idx).0),
        placed(f.element_address(m, bf, idx).0),
        f.element_address(m, bf, idx).0.current == m.current,
        f.element_address(m, bf, idx).0.blocks.len() == m.blocks.len(),
{
    broadcast use group_grows;

    reveal(Frame::element_address);
}

pub broadcast proof fn slow_void_grows(f: Frame, m: Clif, s: Slow, args: Seq<Value>)
    requires
        placed(m),
    ensures
        #![trigger f.slow_void(m, s, args)]
        grows(m, f.slow_void(m, s, args)),
        placed(f.slow_void(m, s, args)),
        f.slow_void(m, s, args).current == m.current,
        f.slow_void(m, s, args).blocks.len() == m.blocks.len(),
{
    broadcast use group_grows;

    reveal(Frame::slow_void);
}

pub broadcast proof fn fast_scope_grows(f: Frame, m: Clif, md_off: i32)
    requires
        placed(m),
    ensures
        #![trigger f.fast_scope(m, md_off)]
        grows(m, f.fast_scope(m, md_off).0),
        silent(m, f.fast_scope(m, md_off).0),
        placed(f.fast_scope(m, md_off).0),
        f.fast_scope(m, md_off).0.current == m.current,
        f.fast_scope(m, md_off).0.blocks.len() == m.blocks.len(),
{
    broadcast use group_grows;

    reveal(Frame::fast_scope);
}

pub broadcast proof fn join_result_grows(f: Frame, m: Clif, r: Value, join: Block)
    requires
        placed(m),
        m.blocks.len() < u32::MAX,
    ensures
        #![trigger f.join_result(m, r, join)]
        grows(m, f.join_result(m, r, join)),
        silent(m, f.join_result(m, r, join)),
        f.join_result(m, r, join).blocks.len() == m.blocks.len() + 1,
{
    broadcast use {group_grows, check_exc_grows};

    reveal(Frame::join_result);
}

pub broadcast proof fn slow_binary_grows(f: Frame, m: Clif, s: Slow, l: Value, r: Value, bc: u32)
    requires
        placed(m),
    ensures
        #![trigger f.slow_binary(m, s, l, r, bc)]
        grows(m, f.slow_binary(m, s, l, r, bc).0),
        placed(f.slow_binary(m, s, l, r, bc).0),
        f.slow_binary(m, s, l, r, bc).0.current == m.current,
        f.slow_binary(m, s, l, r, bc).0.blocks.len() == m.blocks.len(),
{
    broadcast use {group_grows, stamp_grows, slow_result_grows};

    reveal(Frame::slow_binary);
}

pub broadcast group group_pieces_grow {
    stamp_grows,
    slow_result_grows,
    check_exc_grows,
    join_result_grows,
    slow_binary_grows,
    box_int32_grows,
    both_int32_grows,
    bit_result_grows,
    not_both_cells_grows,
    not_both_numbers_grows,
    has_elements_grows,
    is_bool_grows,
    is_nullish_grows,
    not_cell_grows,
    is_int32_grows,
    same_structure_grows,
    slot_address_grows,
    in_bounds_grows,
    element_address_grows,
    slow_void_grows,
    fast_scope_grows,
}

/// What goes by the instructions of `n` goes by those of what `n` grew from.
pub proof fn lemma_respects_grown(m: Clif, n: Clif, e: Bits)
    requires
        m.wf(),
        grows(m, n),
        respects(n, e),
    ensures
        respects(m, e),
{
    reveal(grows);
    assert forall|i: int| 0 <= i < m.insts.len() implies crate::meaning::obeys(
        #[trigger] m.insts[i],
        m.values,
        e,
    ) by {
        assert(n.insts[i] == m.insts[i]);
        assert(m.line_ok(m.insts[i])) by {
            reveal(Clif::wf);
        }
    }
}

/// Control goes as it went in what `n` grew from.
pub proof fn lemma_goes_grown(m: Clif, n: Clif, e: Bits, b: Block, to: Block, args: Seq<Value>)
    requires
        grows(m, n),
        goes(m, e, b, to, args),
    ensures
        goes(n, e, b, to, args),
{
    reveal(grows);
    let i = choose|i: int|
        0 <= i < m.insts.len() && (#[trigger] m.insts[i]).block == b && destination(
            m.insts[i].inst,
            e,
        ) == Some(Exit { to, args });
    assert(n.insts[i] == m.insts[i]);
}

/// Control goes as the terminator says that was appended last.
pub proof fn lemma_goes_pushed(m: Clif, inst: Inst, n: Clif, e: Bits)
    requires
        destination(inst, e) is Some,
        grows(m.push(inst), n),
    ensures
        goes(n, e, m.current->0, destination(inst, e)->0.to, destination(inst, e)->0.args),
{
    reveal(Clif::push);
    let p = m.push(inst);
    assert(p.insts[m.insts.len() as int].inst == inst);
    lemma_goes_grown(p, n, e, m.current->0, destination(inst, e)->0.to, destination(inst, e)->0.args);
}

/// A branch that passes nothing.
pub open spec fn brif(cond: Value, then_block: Block, else_block: Block) -> Inst {
    Inst::Brif { cond, then_block, then_args: seq![], else_block, else_args: seq![] }
}

/// A block takes what it took in what `n` grew from.
pub proof fn lemma_args_grown(m: Clif, n: Clif, b: Block)
    requires
        grows(m, n),
        m.has_block(b),
    ensures
        n.info(b).args == m.info(b).args,
{
    reveal(grows);
}

/// The value that a variable got stays if only an instruction follows.
pub proof fn lemma_def_pushed(m: Clif, var: Variable, x: Value, inst: Inst)
    ensures
        m.def_var(var, x).push(inst).defs.contains_key((var, m.current->0)),
        m.def_var(var, x).push(inst).defs[(var, m.current->0)] == x,
{
    reveal(Clif::push);
    reveal(Clif::def_var);
}

/// The variables for the number tag and the cell mask have these values wherever they are read.
pub open spec fn keeps_tags(f: Frame, m: Clif, e: Bits) -> bool {
    &&& forall|b: Block| #[trigger]
        m.defs.contains_key((f.ntag, b)) ==> e(m.defs[(f.ntag, b)]) == NUMBER_TAG as u64
    &&& forall|b: Block| #[trigger]
        m.defs.contains_key((f.ncm, b)) ==> e(m.defs[(f.ncm, b)]) == NOT_CELL_MASK as u64
}

/// A read of one of the two variables gives its value.
pub proof fn lemma_tag_read(f: Frame, m: Clif, n: Clif, e: Bits)
    requires
        pins_first(f),
        keeps_tags(f, n, e),
    ensures
        grows(m.use_var(f.ntag), n) ==> e(m.value_of(f.ntag)) == NUMBER_TAG as u64,
        grows(m.use_var(f.ncm), n) ==> e(m.value_of(f.ncm)) == NOT_CELL_MASK as u64,
{
    reveal(grows);
    reveal(Clif::use_var);
    reveal(Clif::value_of);
    assert(m.begun().next() == m.next());
    let b = m.current->0;
    if grows(m.use_var(f.ntag), n) {
        assert(m.use_var(f.ntag).defs.contains_key((f.ntag, b)));
        assert(n.defs.contains_key((f.ntag, b)));
    }
    if grows(m.use_var(f.ncm), n) {
        assert(m.use_var(f.ncm).defs.contains_key((f.ncm, b)));
        assert(n.defs.contains_key((f.ncm, b)));
    }
}

/// The code of an operation can begin in `m`.
pub open spec fn begins(f: Frame, m: Clif, n: nat) -> bool {
    &&& m.wf()
    &&& m.writable()
    &&& m.room(n)
    &&& f.fits(m)
    &&& pins_first(f)
}

} // verus!
