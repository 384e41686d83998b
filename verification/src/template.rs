//! The code of each bytecode operation: an inline fast path, and a cold block that calls
//! a slow path.
//!
//! Each function of [`Frame`] says what a piece of code adds to a function under
//! construction, one instruction after the other. Those that a value comes out of return
//! it beside the function.
use crate::bytecode::{is_register, js_int, JS_FALSE, JS_NULL, JS_TRUE, NOT_UNDEFINED_BIT, VR};
use crate::clif::{
    binary, compare, load, resize, store, BinaryOp, Block, Clif, Cond, Flags, FuncRef, Inst, Resize,
    Setup, StackSlot, Ty, Value, Variable,
};
use crate::slow::{slow_paths, Slow};
use vstd::prelude::*;

verus! {

/// The offset of the code block in a call frame.
pub const CFR_CODEBLOCK: i32 = 2 * 8;

/// The offset of the callee in a call frame.
pub const CFR_CALLEE: i32 = 3 * 8;

/// The offset of the argument count in a call frame.
pub const CFR_ARGCOUNT: i32 = 4 * 8;

/// The offset of the call site in a call frame: the upper half of the argument count's slot.
pub const CFR_CALLSITE: i32 = 4 * 8 + 4;

/// The offset of `this` in a call frame.
pub const CFR_THIS: i32 = 5 * 8;

/// The offset of the first argument in a call frame.
pub const CFR_ARG0: i32 = 6 * 8;

/// The offset of the structure number in a cell.
pub const JSCELL_SID: i32 = 0;

/// The offset of the type in a cell.
pub const JSCELL_TYPE: i32 = 5;

/// The offset of the indexing type in a cell.
pub const JSCELL_INDEXING: i32 = 6;

/// The offset of the butterfly in an object.
pub const JSOBJ_BUTTERFLY: i32 = 8;

/// The offset of the scope in a callee.
pub const JSCALLEE_SCOPE: i32 = 16;

/// The offset of the virtual machine in a global object.
pub const GO_VM_OFFSET: i32 = 0x38;

/// The offset of the pending exception in the virtual machine.
pub const VM_EXC_OFFSET: i32 = 0x1f508;

/// The offset of the trap bits in the virtual machine.
pub const VM_TRAPS_OFFSET: i32 = 0x28a40;

/// The offset of the metadata in a code block.
pub const CB_METADATA: i32 = 0x88;

/// What the code of an operation refers to in the function that it stands in.
pub struct Frame {
    /// The global object.
    pub go: Variable,
    /// The call frame.
    pub cfr: Variable,
    /// The metadata of the code block.
    pub md: Variable,
    /// The virtual machine.
    pub vm: Variable,
    /// The number tag.
    pub ntag: Variable,
    /// The mask of the bits that no cell has.
    pub ncm: Variable,
    pub vthis: Variable,
    pub args: Seq<Variable>,
    pub locs: Seq<Variable>,
    /// Where control goes on an exception.
    pub exc_sink: Block,
    /// The slow paths, in the order of [`slow_paths`].
    pub slows: Seq<FuncRef>,
    /// Where slow paths write their result in `pa` mode.
    pub out_slot: StackSlot,
    /// Slow paths preserve all registers and write their result through a pointer.
    pub pa: bool,
}

/// What the pinned variables keep throughout, in the order of [`Frame`]: the parameters of
/// the function, and what the prologue computes from them first.
pub open spec fn pinned_values() -> Seq<Value> {
    seq![
        Value { id: 0 },
        Value { id: 1 },
        Value { id: 4 },
        Value { id: 2 },
        Value { id: 5 },
        Value { id: 6 },
    ]
}

impl Frame {
    /// The variable of a register.
    pub open spec fn var(self, r: VR) -> Variable {
        if r == 0 {
            self.vthis
        } else if r > 0 {
            self.args[r - 1]
        } else {
            self.locs[-r - 1]
        }
    }

    /// The function to call for a slow path.
    pub open spec fn callee(self, s: Slow) -> FuncRef {
        self.slows[s.place()]
    }

    /// All that the frame names is there: its variables are 64 bits wide and those of the
    /// registers are not pinned, its slow paths are called as their mode asks, and the
    /// function returns 64 bits.
    #[verifier::opaque]
    pub open spec fn resolves(self, setup: Setup) -> bool {
        let vars = setup.vars;
        &&& !setup.sealed
        &&& forall|i: int| 0 <= i < vars.len() ==> #[trigger] vars[i] == Ty::I64
        &&& vars.len() + 2 <= u16::MAX
        &&& self.go.id < vars.len()
        &&& self.cfr.id < vars.len()
        &&& self.md.id < vars.len()
        &&& self.vm.id < vars.len()
        &&& self.ntag.id < vars.len()
        &&& self.ncm.id < vars.len()
        &&& pinned_values().len() <= self.vthis.id < vars.len()
        &&& forall|i: int|
            0 <= i < self.args.len() ==> pinned_values().len() <= (#[trigger] self.args[i]).id
                < vars.len()
        &&& forall|i: int|
            0 <= i < self.locs.len() ==> pinned_values().len() <= (#[trigger] self.locs[i]).id
                < vars.len()
        &&& self.slows.len() == slow_paths().len()
        &&& forall|s: Slow|
            (#[trigger] self.callee(s)).id < setup.callees.len() && setup.callees[self.callee(
                s,
            ).id as int] == s.abi(self.pa)
        &&& self.out_slot.id < setup.slots.len()
        &&& setup.signature.returns == seq![Ty::I64]
    }

    /// The frame belongs to `m`, and the exception sink is a block that takes no arguments.
    pub open spec fn fits(self, m: Clif) -> bool {
        &&& self.resolves(m.setup)
        &&& m.has_block(self.exc_sink)
        &&& m.info(self.exc_sink).args.len() == 0
    }

    /// The call site is written to the call frame.
    #[verifier::opaque]
    pub open spec fn stamp(self, m: Clif, bc: u32) -> Clif {
        let (m, cfr) = m.get(self.cfr);
        let (m, k) = m.constant(Ty::I32, bc as i64);
        m.push(store(k, cfr, CFR_CALLSITE))
    }

    /// A call of a slow path that has a result.
    #[verifier::opaque]
    pub open spec fn slow_result(self, m: Clif, s: Slow, args: Seq<Value>) -> (Clif, Value) {
        if self.pa {
            let slot = Inst::StackAddr { ty: Ty::I64, slot: self.out_slot, offset: 0 };
            let (m, out) = m.ins(slot);
            let m = m.push(Inst::Call { callee: self.callee(s), args: args.push(out) });
            let (m, out) = m.ins(slot);
            m.ins(load(Ty::I64, Flags::NoTrap, out, 0))
        } else {
            m.ins(Inst::Call { callee: self.callee(s), args })
        }
    }

    /// A call of a slow path that has no result.
    #[verifier::opaque]
    pub open spec fn slow_void(self, m: Clif, s: Slow, args: Seq<Value>) -> Clif {
        m.push(Inst::Call { callee: self.callee(s), args })
    }

    /// Control goes to the exception sink if an exception is pending, else to `cont`.
    #[verifier::opaque]
    pub open spec fn check_exc(self, m: Clif, cont: Block) -> Clif {
        let (m, vm) = m.get(self.vm);
        let (m, exc) = m.ins(load(Ty::I64, Flags::Trusted, vm, VM_EXC_OFFSET));
        m.branch(exc, self.exc_sink, cont)
    }

    /// A 32-bit integer as an encoded number.
    #[verifier::opaque]
    pub open spec fn box_int32(self, m: Clif, lo: Value) -> (Clif, Value) {
        let (m, wide) = m.ins(resize(Resize::Sextend, Ty::I64, lo));
        let (m, tag) = m.get(self.ntag);
        m.ins(binary(BinaryOp::Bor, wide, tag))
    }

    /// What follows a slow path with the result `r`: an exception check, then a jump to
    /// `join` with the result.
    #[verifier::opaque]
    pub open spec fn join_result(self, m: Clif, r: Value, join: Block) -> Clif {
        let (m, post) = m.new_block();
        let m = self.check_exc(m, post);
        m.switch_to(post).goto_with(join, r)
    }

    /// The parameter of `join` is written to `dst`, and control goes to `cont`.
    #[verifier::opaque]
    pub open spec fn write_joined(self, m: Clif, join: Block, dst: VR, cont: Block) -> Clif {
        let m = m.switch_to(join);
        m.def_var(self.var(dst), m.info(join).args[0]).goto(cont)
    }

    /// Zero if and only if `v` is a cell.
    #[verifier::opaque]
    pub open spec fn not_cell(self, m: Clif, v: Value) -> (Clif, Value) {
        let (m, ncm) = m.get(self.ncm);
        m.ins(binary(BinaryOp::Band, v, ncm))
    }

    /// Whether `v` is an `int32`; `ntag` is the number tag.
    #[verifier::opaque]
    pub open spec fn is_int32(self, m: Clif, v: Value, ntag: Value) -> (Clif, Value) {
        let (m, bits) = m.ins(binary(BinaryOp::Band, v, ntag));
        m.ins(compare(Cond::Equal, bits, ntag))
    }

    /// Whether both `l` and `r` are `int32`.
    #[verifier::opaque]
    pub open spec fn both_int32(self, m: Clif, l: Value, r: Value) -> (Clif, Value) {
        let (m, ntag) = m.get(self.ntag);
        let (m, lt) = m.ins(binary(BinaryOp::Band, l, ntag));
        let (m, rt) = m.ins(binary(BinaryOp::Band, r, ntag));
        let (m, both) = m.ins(binary(BinaryOp::Band, lt, rt));
        m.ins(compare(Cond::Equal, both, ntag))
    }

    /// Whether `v` is a boolean: the two differ in the lowest bit.
    #[verifier::opaque]
    pub open spec fn is_bool(self, m: Clif, v: Value) -> (Clif, Value) {
        let (m, one) = m.constant(Ty::I64, 1);
        let (m, set) = m.ins(binary(BinaryOp::Bor, v, one));
        let (m, k) = m.constant(Ty::I64, JS_TRUE);
        m.ins(compare(Cond::Equal, set, k))
    }

    /// Zero if and only if both `l` and `r` are cells.
    #[verifier::opaque]
    pub open spec fn not_both_cells(self, m: Clif, l: Value, r: Value) -> (Clif, Value) {
        let (m, ncm) = m.get(self.ncm);
        let (m, lnc) = m.ins(binary(BinaryOp::Band, l, ncm));
        let (m, rnc) = m.ins(binary(BinaryOp::Band, r, ncm));
        m.ins(binary(BinaryOp::Bor, lnc, rnc))
    }

    /// Zero if and only if both `l` and `r` are numbers.
    #[verifier::opaque]
    pub open spec fn not_both_numbers(self, m: Clif, l: Value, r: Value) -> (Clif, Value) {
        let (m, ntag) = m.get(self.ntag);
        let (m, lt) = m.ins(binary(BinaryOp::Band, l, ntag));
        let (m, rt) = m.ins(binary(BinaryOp::Band, r, ntag));
        let (m, lzero) = m.constant(Ty::I64, 0);
        let (m, lnn) = m.ins(compare(Cond::Equal, lt, lzero));
        let (m, rzero) = m.constant(Ty::I64, 0);
        let (m, rnn) = m.ins(compare(Cond::Equal, rt, rzero));
        m.ins(binary(BinaryOp::Bor, lnn, rnn))
    }

    /// Nonzero if and only if the cell `v` has indexed elements.
    #[verifier::opaque]
    pub open spec fn has_elements(self, m: Clif, v: Value) -> (Clif, Value) {
        let (m, it) = m.ins(load(Ty::I8, Flags::Trusted, v, JSCELL_INDEXING));
        let (m, it32) = m.ins(resize(Resize::Uextend, Ty::I32, it));
        let (m, mask) = m.constant(Ty::I32, 0x0e);
        m.ins(binary(BinaryOp::Band, it32, mask))
    }

    /// The metadata, and whether the structure number of the cell `v` is the cached one.
    #[verifier::opaque]
    pub open spec fn same_structure(self, m: Clif, v: Value, md_off: i32) -> (Clif, Value, Value) {
        let (m, md) = m.get(self.md);
        let (m, cached) = m.ins(load(Ty::I32, Flags::ReadOnly, md, md_off));
        let (m, actual) = m.ins(load(Ty::I32, Flags::Trusted, v, JSCELL_SID));
        let (m, same) = m.ins(compare(Cond::Equal, actual, cached));
        (m, md, same)
    }

    /// The metadata, and whether it says that the scope access has a fast path.
    #[verifier::opaque]
    pub open spec fn fast_scope(self, m: Clif, md_off: i32) -> (Clif, Value, Value) {
        let (m, md) = m.get(self.md);
        let (m, resolve_type) = m.ins(load(Ty::I32, Flags::ReadOnly, md, md_off));
        let (m, six) = m.constant(Ty::I32, 6);
        let (m, fast) = m.ins(compare(Cond::UnsignedLessThan, resolve_type, six));
        (m, md, fast)
    }

    /// `base` plus eight times the 32-bit slot number that stands in the metadata.
    #[verifier::opaque]
    pub open spec fn slot_address(self, m: Clif, md: Value, offset: i32, base: Value) -> (
        Clif,
        Value,
    ) {
        let (m, slot) = m.ins(load(Ty::I32, Flags::ReadOnly, md, offset));
        let (m, wide) = m.ins(resize(Resize::Sextend, Ty::I64, slot));
        let (m, three) = m.constant(Ty::I64, 3);
        let (m, scaled) = m.ins(binary(BinaryOp::Ishl, wide, three));
        m.ins(binary(BinaryOp::Iadd, base, scaled))
    }

    /// The integer in `iv`, the butterfly of `bv`, and whether the integer is below the
    /// length that stands at `offset` in the butterfly.
    #[verifier::opaque]
    pub open spec fn in_bounds(self, m: Clif, bv: Value, iv: Value, offset: i32) -> (
        Clif,
        Value,
        Value,
        Value,
    ) {
        let (m, idx) = m.ins(resize(Resize::Ireduce, Ty::I32, iv));
        let (m, bf) = m.ins(load(Ty::I64, Flags::Trusted, bv, JSOBJ_BUTTERFLY));
        let (m, len) = m.ins(load(Ty::I32, Flags::Trusted, bf, offset));
        let (m, inb) = m.ins(compare(Cond::UnsignedLessThan, idx, len));
        (m, idx, bf, inb)
    }

    /// The address of the element `idx` of the butterfly `bf`.
    #[verifier::opaque]
    pub open spec fn element_address(self, m: Clif, bf: Value, idx: Value) -> (Clif, Value) {
        let (m, wide) = m.ins(resize(Resize::Uextend, Ty::I64, idx));
        let (m, three) = m.constant(Ty::I64, 3);
        let (m, scaled) = m.ins(binary(BinaryOp::Ishl, wide, three));
        m.ins(binary(BinaryOp::Iadd, bf, scaled))
    }

    /// The result of a bit operation on two 32-bit integers. A shift takes the low five
    /// bits of its amount.
    #[verifier::opaque]
    pub open spec fn bit_result(self, m: Clif, kind: u8, l: Value, r: Value) -> (Clif, Value) {
        if kind == 0 {
            m.ins(binary(BinaryOp::Band, l, r))
        } else if kind == 1 {
            m.ins(binary(BinaryOp::Bor, l, r))
        } else if kind == 2 {
            m.ins(binary(BinaryOp::Bxor, l, r))
        } else {
            let (m, mask) = m.constant(Ty::I32, 31);
            let (m, amount) = m.ins(binary(BinaryOp::Band, r, mask));
            m.ins(binary(BinaryOp::Sshr, l, amount))
        }
    }

    /// A cached property load: where the structure number of the base is the one in the
    /// metadata, the slot that the metadata names is loaded.
    #[verifier::opaque]
    pub open spec fn get_by_id(
        self,
        m: Clif,
        dst: VR,
        base: VR,
        md_off: i32,
        ident: u32,
        bc: u32,
        cont: Block,
    ) -> Clif {
        let (m, bv) = m.get(self.var(base));
        let (m, notcell) = self.not_cell(m, bv);
        let (m, cell) = m.new_block();
        let (m, slow) = m.new_cold_block();
        let (m, hit) = m.new_block();
        let (m, join) = m.new_join(Ty::I64);
        let m = m.branch(notcell, slow, cell);
        let (m, md, same) = self.same_structure(m.switch_to(cell), bv, md_off);
        let m = m.branch(same, hit, slow);
        let (m, addr) = self.slot_address(m.switch_to(hit), md, (md_off + 4) as i32, bv);
        let (m, val) = m.ins(load(Ty::I64, Flags::Trusted, addr, 16));
        let m = m.goto_with(join, val);
        let m = self.stamp(m.switch_to(slow), bc);
        let (m, go) = m.get(self.go);
        let (m, cfr) = m.get(self.cfr);
        let (m, bc_v) = m.constant(Ty::I32, bc as i64);
        let (m, id_v) = m.constant(Ty::I32, ident as i64);
        let (m, r) = self.slow_result(m, Slow::GetById, seq![go, cfr, bv, bc_v, id_v]);
        let m = self.join_result(m, r, join);
        self.write_joined(m, join, dst, cont)
    }

    /// A cached property store.
    #[verifier::opaque]
    pub open spec fn put_by_id(
        self,
        m: Clif,
        base: VR,
        val: VR,
        md_off: i32,
        ident: u32,
        bc: u32,
        cont: Block,
    ) -> Clif {
        let (m, bv) = m.get(self.var(base));
        let (m, vv) = m.get(self.var(val));
        let (m, notcell) = self.not_cell(m, bv);
        let (m, cell) = m.new_block();
        let (m, slow) = m.new_cold_block();
        let (m, hit) = m.new_block();
        let m = m.branch(notcell, slow, cell);
        let (m, md, same) = self.same_structure(m.switch_to(cell), bv, md_off);
        let m = m.branch(same, hit, slow);
        let (m, addr) = self.slot_address(m.switch_to(hit), md, (md_off + 4) as i32, bv);
        let m = m.push(store(vv, addr, 16)).goto(cont);
        let m = self.stamp(m.switch_to(slow), bc);
        let (m, go) = m.get(self.go);
        let (m, cfr) = m.get(self.cfr);
        let (m, bc_v) = m.constant(Ty::I32, bc as i64);
        let (m, id_v) = m.constant(Ty::I32, ident as i64);
        let m = self.slow_void(m, Slow::PutById, seq![go, cfr, bv, vv, bc_v, id_v]);
        self.check_exc(m, cont)
    }

    /// An indexed load: the base is a cell with indexed elements, the index an `int32`
    /// below the public length, and the element is not a hole.
    #[verifier::opaque]
    pub open spec fn get_by_val(
        self,
        m: Clif,
        dst: VR,
        base: VR,
        idx: VR,
        bc: u32,
        cont: Block,
    ) -> Clif {
        let (m, bv) = m.get(self.var(base));
        let (m, iv) = m.get(self.var(idx));
        let (m, ncm) = m.get(self.ncm);
        let (m, ntag) = m.get(self.ntag);
        let (m, notcell) = m.ins(binary(BinaryOp::Band, bv, ncm));
        let (m, s1) = m.new_block();
        let (m, s2) = m.new_block();
        let (m, s3) = m.new_block();
        let (m, s4) = m.new_block();
        let (m, slow) = m.new_cold_block();
        let (m, join) = m.new_join(Ty::I64);
        let m = m.branch(notcell, slow, s1);
        let (m, isint) = self.is_int32(m.switch_to(s1), iv, ntag);
        let m = m.branch(isint, s2, slow);
        let (m, has) = self.has_elements(m.switch_to(s2), bv);
        let m = m.branch(has, s3, slow);
        let (m, i32v, bf, inb) = self.in_bounds(m.switch_to(s3), bv, iv, (-8) as i32);
        let m = m.branch(inb, s4, slow);
        let (m, addr) = self.element_address(m.switch_to(s4), bf, i32v);
        let (m, val) = m.ins(load(Ty::I64, Flags::Trusted, addr, 0));
        let m = m.branch_with(val, join, val, slow);
        let m = self.stamp(m.switch_to(slow), bc);
        let (m, go) = m.get(self.go);
        let (m, cfr) = m.get(self.cfr);
        let (m, bc_v) = m.constant(Ty::I32, bc as i64);
        let (m, r) = self.slow_result(m, Slow::GetByVal, seq![go, cfr, bv, iv, bc_v]);
        let m = self.join_result(m, r, join);
        self.write_joined(m, join, dst, cont)
    }

    /// An indexed store, below the vector length.
    #[verifier::opaque]
    pub open spec fn put_by_val(
        self,
        m: Clif,
        base: VR,
        idx: VR,
        val: VR,
        bc: u32,
        cont: Block,
    ) -> Clif {
        let (m, bv) = m.get(self.var(base));
        let (m, iv) = m.get(self.var(idx));
        let (m, vv) = m.get(self.var(val));
        let (m, ncm) = m.get(self.ncm);
        let (m, ntag) = m.get(self.ntag);
        let (m, s1) = m.new_block();
        let (m, s2) = m.new_block();
        let (m, s3) = m.new_block();
        let (m, slow) = m.new_cold_block();
        let (m, notcell) = m.ins(binary(BinaryOp::Band, bv, ncm));
        let m = m.branch(notcell, slow, s1);
        let (m, isint) = self.is_int32(m.switch_to(s1), iv, ntag);
        let m = m.branch(isint, s2, slow);
        let (m, i32v, bf, inb) = self.in_bounds(m.switch_to(s2), bv, iv, (-4) as i32);
        let m = m.branch(inb, s3, slow);
        let (m, addr) = self.element_address(m.switch_to(s3), bf, i32v);
        let m = m.push(store(vv, addr, 0)).goto(cont);
        let m = self.stamp(m.switch_to(slow), bc);
        let (m, go) = m.get(self.go);
        let (m, cfr) = m.get(self.cfr);
        let (m, bc_v) = m.constant(Ty::I32, bc as i64);
        let (m, _) = self.slow_result(m, Slow::PutByVal, seq![go, cfr, bv, iv, vv, bc_v]);
        self.check_exc(m, cont)
    }

    /// The length of an array-shaped cell.
    #[verifier::opaque]
    pub open spec fn get_length(self, m: Clif, dst: VR, base: VR, bc: u32, cont: Block) -> Clif {
        let (m, bv) = m.get(self.var(base));
        let (m, notcell) = self.not_cell(m, bv);
        let (m, s1) = m.new_block();
        let (m, slow) = m.new_cold_block();
        let (m, join) = m.new_join(Ty::I64);
        let m = m.branch(notcell, slow, s1);
        let (m, has) = self.has_elements(m.switch_to(s1), bv);
        let (m, s2) = m.new_block();
        let m = m.branch(has, s2, slow);
        let (m, bf) = m.switch_to(s2).ins(load(Ty::I64, Flags::Trusted, bv, JSOBJ_BUTTERFLY));
        let (m, len) = m.ins(load(Ty::I32, Flags::Trusted, bf, (-8) as i32));
        let (m, boxed) = self.box_int32(m, len);
        let m = m.goto_with(join, boxed);
        let m = self.stamp(m.switch_to(slow), bc);
        let (m, go) = m.get(self.go);
        let (m, cfr) = m.get(self.cfr);
        let (m, bc_v) = m.constant(Ty::I32, bc as i64);
        let (m, r) = self.slow_result(m, Slow::GetLength, seq![go, cfr, bv, bc_v]);
        let m = self.join_result(m, r, join);
        self.write_joined(m, join, dst, cont)
    }

    /// What `s` gives for two operands on the slow path of an arithmetic operation.
    #[verifier::opaque]
    pub open spec fn slow_binary(self, m: Clif, s: Slow, l: Value, r: Value, bc: u32) -> (
        Clif,
        Value,
    ) {
        let m = self.stamp(m, bc);
        let (m, go) = m.get(self.go);
        self.slow_result(m, s, seq![go, l, r])
    }

    /// An addition: of two `int32` with an overflow check, else on the slow path.
    #[verifier::opaque]
    pub open spec fn add_values(
        self,
        m: Clif,
        dst: VR,
        lhs: Value,
        rhs: Value,
        bc: u32,
        cont: Block,
    ) -> Clif {
        let (m, both) = self.both_int32(m, lhs, rhs);
        let (m, fast) = m.new_block();
        let (m, slow) = m.new_cold_block();
        let (m, join) = m.new_join(Ty::I64);
        let m = m.branch(both, fast, slow);
        let (m, l32) = m.switch_to(fast).ins(resize(Resize::Ireduce, Ty::I32, lhs));
        let (m, r32) = m.ins(resize(Resize::Ireduce, Ty::I32, rhs));
        let overflow = m.after_next();
        let (m, sum) = m.ins(Inst::SaddOverflow { x: l32, y: r32 });
        let (m, fits) = m.new_block();
        let m = m.branch(overflow, slow, fits);
        let (m, boxed) = self.box_int32(m.switch_to(fits), sum);
        let m = m.goto_with(join, boxed);
        let (m, r) = self.slow_binary(m.switch_to(slow), Slow::Add, lhs, rhs, bc);
        let m = self.join_result(m, r, join);
        self.write_joined(m, join, dst, cont)
    }

    /// An increment: the addition of one.
    #[verifier::opaque]
    pub open spec fn inc(self, m: Clif, dst: VR, bc: u32, cont: Block) -> Clif {
        let (m, v) = m.get(self.var(dst));
        let (m, one) = m.constant(Ty::I64, js_int(1));
        self.add_values(m, dst, v, one, bc, cont)
    }

    /// A bit operation: of two `int32`, else on the slow path.
    #[verifier::opaque]
    pub open spec fn bitop(
        self,
        m: Clif,
        kind: u8,
        dst: VR,
        lhs: Value,
        rhs: Value,
        bc: u32,
        cont: Block,
    ) -> Clif {
        let (m, both) = self.both_int32(m, lhs, rhs);
        let (m, fast) = m.new_block();
        let (m, slow) = m.new_cold_block();
        let (m, join) = m.new_join(Ty::I64);
        let m = m.branch(both, fast, slow);
        let (m, l32) = m.switch_to(fast).ins(resize(Resize::Ireduce, Ty::I32, lhs));
        let (m, r32) = m.ins(resize(Resize::Ireduce, Ty::I32, rhs));
        let (m, res) = self.bit_result(m, kind, l32, r32);
        let (m, boxed) = self.box_int32(m, res);
        let m = m.goto_with(join, boxed);
        let (m, r) = self.slow_binary(m.switch_to(slow), Slow::BitOp, lhs, rhs, bc);
        let m = self.join_result(m, r, join);
        self.write_joined(m, join, dst, cont)
    }

    /// A branch on `lhs < rhs`, or on its opposite.
    #[verifier::opaque]
    pub open spec fn jless(
        self,
        m: Clif,
        lhs: VR,
        rhs: VR,
        target: Block,
        fallthru: Block,
        invert: bool,
        bc: u32,
    ) -> Clif {
        let (m, lv) = m.get(self.var(lhs));
        let (m, rv) = m.get(self.var(rhs));
        let (m, both) = self.both_int32(m, lv, rv);
        let (m, fast) = m.new_block();
        let (m, slow) = m.new_cold_block();
        let (m, decide) = m.new_join(Ty::I8);
        let m = m.branch(both, fast, slow);
        let (m, l32) = m.switch_to(fast).ins(resize(Resize::Ireduce, Ty::I32, lv));
        let (m, r32) = m.ins(resize(Resize::Ireduce, Ty::I32, rv));
        let (m, less) = m.ins(compare(Cond::SignedLessThan, l32, r32));
        let m = m.goto_with(decide, less);
        let (m, r) = self.slow_binary(m.switch_to(slow), Slow::Less, lv, rv, bc);
        let (m, r8) = m.ins(resize(Resize::Ireduce, Ty::I8, r));
        let m = self.join_result(m, r8, decide).switch_to(decide);
        let c = m.info(decide).args[0];
        if invert {
            m.branch(c, fallthru, target)
        } else {
            m.branch(c, target, fallthru)
        }
    }

    /// A branch on strict equality, or on its opposite: values with the same bits are
    /// equal, two cells or two numbers are compared on the slow path, and all others differ.
    #[verifier::opaque]
    pub open spec fn jstricteq(
        self,
        m: Clif,
        lv: Value,
        rv: Value,
        target: Block,
        fallthru: Block,
        invert: bool,
    ) -> Clif {
        let yes = if invert {
            fallthru
        } else {
            target
        };
        let no = if invert {
            target
        } else {
            fallthru
        };
        let (m, same) = m.ins(compare(Cond::Equal, lv, rv));
        let (m, check) = m.new_block();
        let m = m.branch(same, yes, check);
        let (m, either) = self.not_both_cells(m.switch_to(check), lv, rv);
        let (m, numbers) = m.new_block();
        let (m, slow) = m.new_cold_block();
        let m = m.branch(either, numbers, slow);
        let (m, other) = self.not_both_numbers(m.switch_to(numbers), lv, rv);
        let m = m.branch(other, no, slow);
        let (m, go) = m.switch_to(slow).get(self.go);
        let (m, r) = self.slow_result(m, Slow::StrictEq, seq![go, lv, rv]);
        let (m, post) = m.new_block();
        let m = self.check_exc(m, post);
        m.switch_to(post).branch(r, yes, no)
    }

    /// A branch on the truth of a value: a boolean by its low bit, all others on the slow
    /// path.
    #[verifier::opaque]
    pub open spec fn jbool(
        self,
        m: Clif,
        v: VR,
        target: Block,
        fallthru: Block,
        sense_true: bool,
    ) -> Clif {
        let (m, vv) = m.get(self.var(v));
        let (m, isbool) = self.is_bool(m, vv);
        let (m, fast) = m.new_block();
        let (m, slow) = m.new_cold_block();
        let (m, decide) = m.new_join(Ty::I64);
        let m = m.branch(isbool, fast, slow);
        let (m, one) = m.switch_to(fast).constant(Ty::I64, 1);
        let (m, low) = m.ins(binary(BinaryOp::Band, vv, one));
        let m = m.goto_with(decide, low);
        let (m, go) = m.switch_to(slow).get(self.go);
        let (m, r) = self.slow_result(m, Slow::ToBoolean, seq![go, vv]);
        let m = self.join_result(m, r, decide).switch_to(decide);
        let c = m.info(decide).args[0];
        if sense_true {
            m.branch(c, target, fallthru)
        } else {
            m.branch(c, fallthru, target)
        }
    }

    /// A scope lookup: the constant scope of the metadata if there is one, else the scope
    /// itself.
    #[verifier::opaque]
    pub open spec fn resolve_scope(
        self,
        m: Clif,
        dst: VR,
        scope: VR,
        md_off: i32,
        bc: u32,
        cont: Block,
    ) -> Clif {
        let (m, sv) = m.get(self.var(scope));
        let (m, md, isfast) = self.fast_scope(m, md_off);
        let (m, fast) = m.new_block();
        let (m, slow) = m.new_cold_block();
        let (m, join) = m.new_join(Ty::I64);
        let m = m.branch(isfast, fast, slow);
        let (m, cs) = m.switch_to(fast).ins(
            load(Ty::I64, Flags::ReadOnly, md, (md_off + 8) as i32),
        );
        let (m, use_constant) = m.new_block();
        let (m, use_scope) = m.new_block();
        let m = m.branch(cs, use_constant, use_scope);
        let m = m.switch_to(use_constant).goto_with(join, cs);
        let m = m.switch_to(use_scope).goto_with(join, sv);
        let m = self.stamp(m.switch_to(slow), bc);
        let (m, go) = m.get(self.go);
        let (m, cfr) = m.get(self.cfr);
        let (m, mo) = m.constant(Ty::I32, md_off as i64);
        let (m, r) = self.slow_result(m, Slow::ResolveScope, seq![go, cfr, mo]);
        let m = self.join_result(m, r, join);
        self.write_joined(m, join, dst, cont)
    }

    /// A read of a variable of a scope.
    #[verifier::opaque]
    pub open spec fn get_from_scope(
        self,
        m: Clif,
        dst: VR,
        scope: VR,
        md_off: i32,
        bc: u32,
        cont: Block,
    ) -> Clif {
        let (m, sv) = m.get(self.var(scope));
        let (m, md, isfast) = self.fast_scope(m, md_off);
        let (m, fast) = m.new_block();
        let (m, slow) = m.new_cold_block();
        let (m, join) = m.new_join(Ty::I64);
        let m = m.branch(isfast, fast, slow);
        let (m, addr) = self.slot_address(m.switch_to(fast), md, (md_off + 16) as i32, sv);
        let (m, val) = m.ins(load(Ty::I64, Flags::Trusted, addr, 64));
        let m = m.goto_with(join, val);
        let m = self.stamp(m.switch_to(slow), bc);
        let (m, go) = m.get(self.go);
        let (m, cfr) = m.get(self.cfr);
        let (m, mo) = m.constant(Ty::I32, md_off as i64);
        let (m, r) = self.slow_result(m, Slow::GetFromScope, seq![go, cfr, sv, mo]);
        let m = self.join_result(m, r, join);
        self.write_joined(m, join, dst, cont)
    }

    /// A write of a variable of a scope.
    #[verifier::opaque]
    pub open spec fn put_to_scope(
        self,
        m: Clif,
        scope: VR,
        val: VR,
        md_off: i32,
        bc: u32,
        cont: Block,
    ) -> Clif {
        let (m, sv) = m.get(self.var(scope));
        let (m, vv) = m.get(self.var(val));
        let (m, md, isfast) = self.fast_scope(m, md_off);
        let (m, fast) = m.new_block();
        let (m, slow) = m.new_cold_block();
        let m = m.branch(isfast, fast, slow);
        let (m, addr) = self.slot_address(m.switch_to(fast), md, (md_off + 16) as i32, sv);
        let m = m.push(store(vv, addr, 64)).goto(cont);
        let m = self.stamp(m.switch_to(slow), bc);
        let (m, go) = m.get(self.go);
        let (m, cfr) = m.get(self.cfr);
        let (m, mo) = m.constant(Ty::I32, md_off as i64);
        let (m, _) = self.slow_result(m, Slow::PutToScope, seq![go, cfr, sv, vv, mo]);
        self.check_exc(m, cont)
    }

    /// The arguments of a call are written to the frame `nf`.
    #[verifier::opaque]
    pub open spec fn store_args(self, m: Clif, nf: Value, args: Seq<VR>) -> Clif
        decreases args.len(),
    {
        if args.len() == 0 {
            m
        } else {
            let m = self.store_args(m, nf, args.drop_last());
            let (m, av) = m.get(self.var(args.last()));
            m.push(store(av, nf, (CFR_ARG0 + 8 * (args.len() - 1)) as i32))
        }
    }

    /// A call: the frame of the callee is written below the current one, then the call is
    /// dispatched.
    #[verifier::opaque]
    pub open spec fn call(
        self,
        m: Clif,
        dst: VR,
        callee: VR,
        this: VR,
        args: Seq<VR>,
        frame_size: i32,
        bc: u32,
        cont: Block,
    ) -> Clif {
        let (m, cfr) = m.get(self.cfr);
        let (m, callee_v) = m.get(self.var(callee));
        let (m, this_v) = m.get(self.var(this));
        let (m, distance) = m.constant(Ty::I64, (-(frame_size * 8)) as i64);
        let (m, nf) = m.ins(binary(BinaryOp::Iadd, cfr, distance));
        let m = m.push(store(callee_v, nf, CFR_CALLEE));
        let (m, argc) = m.constant(Ty::I32, (args.len() + 1) as i64);
        let m = m.push(store(argc, nf, CFR_ARGCOUNT));
        let m = m.push(store(this_v, nf, CFR_THIS));
        let m = self.stamp(self.store_args(m, nf, args), bc);
        let (m, go) = m.get(self.go);
        let (m, bc_v) = m.constant(Ty::I32, bc as i64);
        let (m, argc64) = m.ins(resize(Resize::Uextend, Ty::I64, argc));
        let (m, r) = m.ins(
            Inst::Call {
                callee: self.callee(Slow::DispatchCall),
                args: seq![go, cfr, callee_v, this_v, nf, argc64, bc_v],
            },
        );
        let (m, post) = m.new_block();
        let m = self.check_exc(m, post).switch_to(post);
        m.def_var(self.var(dst), r).goto(cont)
    }

    /// A check of the trap bits.
    #[verifier::opaque]
    pub open spec fn check_traps(self, m: Clif, bc: u32, cont: Block) -> Clif {
        let (m, vm) = m.get(self.vm);
        let (m, bits) = m.ins(load(Ty::I32, Flags::Trusted, vm, VM_TRAPS_OFFSET));
        let (m, mask) = m.constant(Ty::I32, 0xff);
        let (m, need) = m.ins(binary(BinaryOp::Band, bits, mask));
        let (m, slow) = m.new_cold_block();
        let m = m.branch(need, slow, cont);
        let m = self.stamp(m.switch_to(slow), bc);
        let (m, go) = m.get(self.go);
        let (m, r) = self.slow_result(m, Slow::HandleTraps, seq![go]);
        m.branch(r, self.exc_sink, cont)
    }

    /// The conversion of `this`: an object stays as it is.
    #[verifier::opaque]
    pub open spec fn to_this(self, m: Clif, cont: Block) -> Clif {
        let (m, tv) = m.get(self.var(0));
        let (m, notcell) = self.not_cell(m, tv);
        let (m, s1) = m.new_block();
        let (m, slow) = m.new_cold_block();
        let m = m.branch(notcell, slow, s1);
        let (m, ty) = m.switch_to(s1).ins(load(Ty::I8, Flags::Trusted, tv, JSCELL_TYPE));
        let (m, ty32) = m.ins(resize(Resize::Uextend, Ty::I32, ty));
        let (m, object) = m.constant(Ty::I32, 0x17);
        let (m, isobj) = m.ins(compare(Cond::UnsignedGreaterThanOrEqual, ty32, object));
        let m = m.branch(isobj, cont, slow);
        let (m, go) = m.switch_to(slow).get(self.go);
        let (m, cfr) = m.get(self.cfr);
        let (m, r) = self.slow_result(m, Slow::ToThis, seq![go, cfr, tv]);
        let (m, post) = m.new_block();
        let m = self.check_exc(m, post).switch_to(post);
        m.def_var(self.var(0), r).goto(cont)
    }

    /// The addition of two registers.
    #[verifier::opaque]
    pub open spec fn add_registers(
        self,
        m: Clif,
        dst: VR,
        lhs: VR,
        rhs: VR,
        bc: u32,
        cont: Block,
    ) -> Clif {
        let (m, l) = m.get(self.var(lhs));
        let (m, r) = m.get(self.var(rhs));
        self.add_values(m, dst, l, r, bc, cont)
    }

    /// The addition of an `int32` constant to a register.
    #[verifier::opaque]
    pub open spec fn add_constant(
        self,
        m: Clif,
        dst: VR,
        lhs: VR,
        k: i32,
        bc: u32,
        cont: Block,
    ) -> Clif {
        let (m, l) = m.get(self.var(lhs));
        let (m, r) = m.constant(Ty::I64, js_int(k));
        self.add_values(m, dst, l, r, bc, cont)
    }

    /// A bit operation on two registers.
    #[verifier::opaque]
    pub open spec fn bitop_registers(
        self,
        m: Clif,
        kind: u8,
        dst: VR,
        lhs: VR,
        rhs: VR,
        bc: u32,
        cont: Block,
    ) -> Clif {
        let (m, l) = m.get(self.var(lhs));
        let (m, r) = m.get(self.var(rhs));
        self.bitop(m, kind, dst, l, r, bc, cont)
    }

    /// A bit operation on a register and an `int32` constant.
    #[verifier::opaque]
    pub open spec fn bitop_constant(
        self,
        m: Clif,
        kind: u8,
        dst: VR,
        lhs: VR,
        k: i32,
        bc: u32,
        cont: Block,
    ) -> Clif {
        let (m, l) = m.get(self.var(lhs));
        let (m, r) = m.constant(Ty::I64, js_int(k));
        self.bitop(m, kind, dst, l, r, bc, cont)
    }

    /// A branch on the strict equality of two registers, or on its opposite.
    #[verifier::opaque]
    pub open spec fn jstricteq_registers(
        self,
        m: Clif,
        lhs: VR,
        rhs: VR,
        target: Block,
        fallthru: Block,
        invert: bool,
    ) -> Clif {
        let (m, l) = m.get(self.var(lhs));
        let (m, r) = m.get(self.var(rhs));
        self.jstricteq(m, l, r, target, fallthru, invert)
    }

    /// A branch on the strict equality of a register and a constant, or on its opposite.
    #[verifier::opaque]
    pub open spec fn jstricteq_constant(
        self,
        m: Clif,
        lhs: VR,
        k: i64,
        target: Block,
        fallthru: Block,
        invert: bool,
    ) -> Clif {
        let (m, l) = m.get(self.var(lhs));
        let (m, r) = m.constant(Ty::I64, k);
        self.jstricteq(m, l, r, target, fallthru, invert)
    }

    /// Whether `v` is null or undefined: the two differ in one bit.
    #[verifier::opaque]
    pub open spec fn is_nullish(self, m: Clif, v: Value) -> (Clif, Value) {
        let (m, mask) = m.constant(Ty::I64, NOT_UNDEFINED_BIT);
        let (m, bits) = m.ins(binary(BinaryOp::Band, v, mask));
        let (m, null) = m.constant(Ty::I64, JS_NULL);
        m.ins(compare(Cond::Equal, bits, null))
    }

    /// A boolean that says whether `src` is neither null nor undefined goes to `dst`.
    #[verifier::opaque]
    pub open spec fn neq_null(self, m: Clif, dst: VR, src: VR) -> Clif {
        let (m, sv) = m.get(self.var(src));
        let (m, nullish) = self.is_nullish(m, sv);
        let (m, wide) = m.ins(resize(Resize::Uextend, Ty::I64, nullish));
        let (m, one) = m.constant(Ty::I64, 1);
        let (m, inverted) = m.ins(binary(BinaryOp::Bxor, wide, one));
        let (m, no) = m.constant(Ty::I64, JS_FALSE);
        let (m, r) = m.ins(binary(BinaryOp::Bor, inverted, no));
        m.def_var(self.var(dst), r)
    }

    /// A branch on a register being null or undefined, or on the opposite.
    #[verifier::opaque]
    pub open spec fn jnullish(
        self,
        m: Clif,
        v: VR,
        target: Block,
        fallthru: Block,
        invert: bool,
    ) -> Clif {
        let (m, vv) = m.get(self.var(v));
        let (m, nullish) = self.is_nullish(m, vv);
        if invert {
            m.branch(nullish, fallthru, target)
        } else {
            m.branch(nullish, target, fallthru)
        }
    }

    /// One register is copied to another.
    #[verifier::opaque]
    pub open spec fn mov(self, m: Clif, dst: VR, src: VR) -> Clif {
        let (m, v) = m.get(self.var(src));
        m.def_var(self.var(dst), v)
    }

    /// A constant goes to a register.
    #[verifier::opaque]
    pub open spec fn mov_constant(self, m: Clif, dst: VR, k: i64) -> Clif {
        let (m, v) = m.constant(Ty::I64, k);
        m.def_var(self.var(dst), v)
    }

    /// A return of a register.
    #[verifier::opaque]
    pub open spec fn ret(self, m: Clif, src: VR) -> Clif {
        let (m, v) = m.get(self.var(src));
        m.push(Inst::Return { args: seq![v] })
    }

    /// A return of a constant.
    #[verifier::opaque]
    pub open spec fn ret_constant(self, m: Clif, k: i64) -> Clif {
        let (m, v) = m.constant(Ty::I64, k);
        m.push(Inst::Return { args: seq![v] })
    }
}

/// The variables of a frame are those of the function, 64 bits wide.
pub broadcast proof fn frame_variables(f: Frame, setup: Setup)
    requires
        #[trigger] f.resolves(setup),
    ensures
        !setup.sealed,
        setup.vars.len() + 2 <= u16::MAX,
        f.go.id < setup.vars.len() && setup.vars[f.go.id as int] == Ty::I64,
        f.cfr.id < setup.vars.len() && setup.vars[f.cfr.id as int] == Ty::I64,
        f.md.id < setup.vars.len() && setup.vars[f.md.id as int] == Ty::I64,
        f.vm.id < setup.vars.len() && setup.vars[f.vm.id as int] == Ty::I64,
        f.ntag.id < setup.vars.len() && setup.vars[f.ntag.id as int] == Ty::I64,
        f.ncm.id < setup.vars.len() && setup.vars[f.ncm.id as int] == Ty::I64,
        f.vthis.id < setup.vars.len() && setup.vars[f.vthis.id as int] == Ty::I64,
{
    reveal(Frame::resolves);
}

/// The variable of a register is 64 bits wide, and it is not pinned.
pub broadcast proof fn frame_register(f: Frame, r: VR, setup: Setup)
    requires
        #[trigger] f.resolves(setup),
        is_register(r, f.args.len(), f.locs.len()),
    ensures
        pinned_values().len() <= (#[trigger] f.var(r)).id < setup.vars.len(),
        setup.vars[f.var(r).id as int] == Ty::I64,
{
    reveal(Frame::resolves);
}

pub broadcast group group_frame {
    frame_variables,
    frame_register,
}

} // verus!
