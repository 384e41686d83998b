//! The bytecode that code is generated from, and the encoding of its values.
use vstd::prelude::*;

verus! {

/// The bits that mark a number. An `int32` has all of them and its value in the low half.
pub const NUMBER_TAG: i64 = -0x2_0000_0000_0000;

/// No bit of a pointer to a cell is among these.
pub const NOT_CELL_MASK: i64 = -0x1_ffff_ffff_fffe;

pub const JS_UNDEFINED: i64 = 0x0a;

pub const JS_NULL: i64 = 0x02;

/// All bits but the one in which null and undefined differ.
pub const NOT_UNDEFINED_BIT: i64 = -9;

pub const JS_TRUE: i64 = 0x07;

pub const JS_FALSE: i64 = 0x06;

/// A virtual register: 0 is `this`, `n > 0` is the n-th argument, `-n < 0` the n-th local.
pub type VR = i32;

/// The n-th local.
pub open spec fn loc(n: int) -> VR {
    (-n) as VR
}

/// The encoding of an `int32`.
pub open spec fn js_int(k: i32) -> i64 {
    NUMBER_TAG | (k as u32 as i64)
}

/// The encoding of an `int32`.
pub fn jsint(k: i32) -> (r: i64)
    ensures
        r == js_int(k),
{
    NUMBER_TAG | (k as u32 as i64)
}

/// The mask for cells is the number tag and the bit that null, undefined and the booleans
/// have.
pub proof fn cell_mask_is_the_tag_and_a_bit()
    ensures
        NOT_CELL_MASK == NUMBER_TAG | 2,
{
    assert(NOT_CELL_MASK == NUMBER_TAG | 2) by (bit_vector);
}

/// The encoding of an `int32` has the tag, and the number in its low half.
pub proof fn int32_can_be_read_back(k: i32)
    ensures
        js_int(k) & NUMBER_TAG == NUMBER_TAG,
        js_int(k) as i32 == k,
        js_int(k) == NUMBER_TAG + if k >= 0 {
            k as int
        } else {
            k + 0x1_0000_0000
        },
{
    assert((NUMBER_TAG | (k as u32 as i64)) & NUMBER_TAG == NUMBER_TAG) by (bit_vector);
    assert((NUMBER_TAG | (k as u32 as i64)) as i32 == k) by (bit_vector);
    assert(k >= 0 ==> NUMBER_TAG | (k as u32 as i64) == NUMBER_TAG + k) by (bit_vector);
    assert(k < 0 ==> NUMBER_TAG | (k as u32 as i64) == NUMBER_TAG + k + 0x1_0000_0000)
        by (bit_vector);
}

/// Different `int32` have different encodings.
pub proof fn int32_encodings_are_distinct(j: i32, k: i32)
    requires
        js_int(j) == js_int(k),
    ensures
        j == k,
{
    int32_can_be_read_back(j);
    int32_can_be_read_back(k);
}

/// Null, undefined and the booleans are neither cells nor numbers.
pub proof fn special_values_are_no_cells(v: i64)
    requires
        v == JS_NULL || v == JS_UNDEFINED || v == JS_TRUE || v == JS_FALSE,
    ensures
        v & NOT_CELL_MASK != 0,
        v & NUMBER_TAG == 0,
{
    assert(v == 2 || v == 10 || v == 7 || v == 6 ==> v & NOT_CELL_MASK != 0 && v & NUMBER_TAG == 0)
        by (bit_vector);
}

/// A bytecode operation, with the arguments of a call in a list of type `A`.
#[derive(Debug)]
#[verifier::ext_equal]
#[allow(inconsistent_fields)]
pub enum Operation<A> {
    Enter,
    /// Destination, source.
    Mov(VR, VR),
    /// Destination, encoded constant.
    MovK(VR, i64),
    ToThis,
    GetById { dst: VR, base: VR, md_off: i32, ident: u32, bc: u32 },
    PutById { base: VR, val: VR, md_off: i32, ident: u32, bc: u32 },
    GetByVal { dst: VR, base: VR, idx: VR, bc: u32 },
    PutByVal { base: VR, idx: VR, val: VR, bc: u32 },
    GetLength { dst: VR, base: VR, bc: u32 },
    Add { dst: VR, lhs: VR, rhs: VR, bc: u32 },
    AddK { dst: VR, lhs: VR, k: i32, bc: u32 },
    Inc { dst: VR, bc: u32 },
    /// The kinds are 0 and, 1 or, 2 exclusive or, 3 signed shift right.
    BitOp { kind: u8, dst: VR, lhs: VR, rhs: VR, bc: u32 },
    BitOpK { kind: u8, dst: VR, lhs: VR, k: i32, bc: u32 },
    ResolveScope { dst: VR, scope: VR, md_off: i32, bc: u32 },
    GetFromScope { dst: VR, scope: VR, md_off: i32, bc: u32 },
    PutToScope { scope: VR, val: VR, md_off: i32, bc: u32 },
    Call { dst: VR, callee: VR, this: VR, args: A, frame_size: i32, bc: u32 },
    CheckTraps { bc: u32 },
    LoopHint,
    JTrue { cond: VR, target: u32 },
    JFalse { cond: VR, target: u32 },
    JEqNull { v: VR, target: u32 },
    JNEqNull { v: VR, target: u32 },
    JStrictEq { lhs: VR, rhs: VR, target: u32 },
    JNStrictEq { lhs: VR, rhs: VR, target: u32 },
    JStrictEqK { lhs: VR, k: i64, target: u32 },
    JNStrictEqK { lhs: VR, k: i64, target: u32 },
    JLess { lhs: VR, rhs: VR, target: u32, bc: u32 },
    JNLess { lhs: VR, rhs: VR, target: u32, bc: u32 },
    NeqNull { dst: VR, src: VR },
    Jmp(u32),
    Label(u32),
    Ret(Option<VR>),
    RetK(i64),
}

/// A bytecode operation.
pub type Op = Operation<Vec<VR>>;

/// The view of an [`Op`].
pub type OpView = Operation<Seq<VR>>;

impl View for Operation<Vec<VR>> {
    type V = Operation<Seq<VR>>;

    open spec fn view(&self) -> Operation<Seq<VR>> {
        match *self {
            Operation::Enter => Operation::Enter,
            Operation::Mov(d, s) => Operation::Mov(d, s),
            Operation::MovK(d, k) => Operation::MovK(d, k),
            Operation::ToThis => Operation::ToThis,
            Operation::GetById { dst, base, md_off, ident, bc } => Operation::GetById {
                dst,
                base,
                md_off,
                ident,
                bc,
            },
            Operation::PutById { base, val, md_off, ident, bc } => Operation::PutById {
                base,
                val,
                md_off,
                ident,
                bc,
            },
            Operation::GetByVal { dst, base, idx, bc } => Operation::GetByVal {
                dst,
                base,
                idx,
                bc,
            },
            Operation::PutByVal { base, idx, val, bc } => Operation::PutByVal {
                base,
                idx,
                val,
                bc,
            },
            Operation::GetLength { dst, base, bc } => Operation::GetLength { dst, base, bc },
            Operation::Add { dst, lhs, rhs, bc } => Operation::Add { dst, lhs, rhs, bc },
            Operation::AddK { dst, lhs, k, bc } => Operation::AddK { dst, lhs, k, bc },
            Operation::Inc { dst, bc } => Operation::Inc { dst, bc },
            Operation::BitOp { kind, dst, lhs, rhs, bc } => Operation::BitOp {
                kind,
                dst,
                lhs,
                rhs,
                bc,
            },
            Operation::BitOpK { kind, dst, lhs, k, bc } => Operation::BitOpK {
                kind,
                dst,
                lhs,
                k,
                bc,
            },
            Operation::ResolveScope { dst, scope, md_off, bc } => Operation::ResolveScope {
                dst,
                scope,
                md_off,
                bc,
            },
            Operation::GetFromScope { dst, scope, md_off, bc } => Operation::GetFromScope {
                dst,
                scope,
                md_off,
                bc,
            },
            Operation::PutToScope { scope, val, md_off, bc } => Operation::PutToScope {
                scope,
                val,
                md_off,
                bc,
            },
            Operation::Call { dst, callee, this, args, frame_size, bc } => Operation::Call {
                dst,
                callee,
                this,
                args: args@,
                frame_size,
                bc,
            },
            Operation::CheckTraps { bc } => Operation::CheckTraps { bc },
            Operation::LoopHint => Operation::LoopHint,
            Operation::JTrue { cond, target } => Operation::JTrue { cond, target },
            Operation::JFalse { cond, target } => Operation::JFalse { cond, target },
            Operation::JEqNull { v, target } => Operation::JEqNull { v, target },
            Operation::JNEqNull { v, target } => Operation::JNEqNull { v, target },
            Operation::JStrictEq { lhs, rhs, target } => Operation::JStrictEq {
                lhs,
                rhs,
                target,
            },
            Operation::JNStrictEq { lhs, rhs, target } => Operation::JNStrictEq {
                lhs,
                rhs,
                target,
            },
            Operation::JStrictEqK { lhs, k, target } => Operation::JStrictEqK {
                lhs,
                k,
                target,
            },
            Operation::JNStrictEqK { lhs, k, target } => Operation::JNStrictEqK {
                lhs,
                k,
                target,
            },
            Operation::JLess { lhs, rhs, target, bc } => Operation::JLess {
                lhs,
                rhs,
                target,
                bc,
            },
            Operation::JNLess { lhs, rhs, target, bc } => Operation::JNLess {
                lhs,
                rhs,
                target,
                bc,
            },
            Operation::NeqNull { dst, src } => Operation::NeqNull { dst, src },
            Operation::Jmp(t) => Operation::Jmp(t),
            Operation::Label(id) => Operation::Label(id),
            Operation::Ret(v) => Operation::Ret(v),
            Operation::RetK(k) => Operation::RetK(k),
        }
    }
}

/// The view of an operation differs from it in nothing: it has the same fields, and the
/// arguments of a call in the same order.
pub proof fn views_keep_every_field(op: Op, v: OpView)
    requires
        v == op@,
    ensures
        match op {
            Operation::Enter => v is Enter,
            Operation::Mov(d, s) => v == OpView::Mov(d, s),
            Operation::MovK(d, k) => v == OpView::MovK(d, k),
            Operation::ToThis => v is ToThis,
            Operation::GetById { dst, base, md_off, ident, bc } => v matches Operation::GetById {
                dst: a,
                base: b,
                md_off: c,
                ident: d,
                bc: e,
            } && a == dst && b == base && c == md_off && d == ident && e == bc,
            Operation::PutById { base, val, md_off, ident, bc } => v matches Operation::PutById {
                base: a,
                val: b,
                md_off: c,
                ident: d,
                bc: e,
            } && a == base && b == val && c == md_off && d == ident && e == bc,
            Operation::GetByVal { dst, base, idx, bc } => v matches Operation::GetByVal {
                dst: a,
                base: b,
                idx: c,
                bc: d,
            } && a == dst && b == base && c == idx && d == bc,
            Operation::PutByVal { base, idx, val, bc } => v matches Operation::PutByVal {
                base: a,
                idx: b,
                val: c,
                bc: d,
            } && a == base && b == idx && c == val && d == bc,
            Operation::GetLength { dst, base, bc } => v matches Operation::GetLength {
                dst: a,
                base: b,
                bc: c,
            } && a == dst && b == base && c == bc,
            Operation::Add { dst, lhs, rhs, bc } => v matches Operation::Add {
                dst: a,
                lhs: b,
                rhs: c,
                bc: d,
            } && a == dst && b == lhs && c == rhs && d == bc,
            Operation::AddK { dst, lhs, k, bc } => v matches Operation::AddK {
                dst: a,
                lhs: b,
                k: c,
                bc: d,
            } && a == dst && b == lhs && c == k && d == bc,
            Operation::Inc { dst, bc } => v matches Operation::Inc { dst: a, bc: b } && a == dst
                && b == bc,
            Operation::BitOp { kind, dst, lhs, rhs, bc } => v matches Operation::BitOp {
                kind: a,
                dst: b,
                lhs: c,
                rhs: d,
                bc: e,
            } && a == kind && b == dst && c == lhs && d == rhs && e == bc,
            Operation::BitOpK { kind, dst, lhs, k, bc } => v matches Operation::BitOpK {
                kind: a,
                dst: b,
                lhs: c,
                k: d,
                bc: e,
            } && a == kind && b == dst && c == lhs && d == k && e == bc,
            Operation::ResolveScope {
                dst,
                scope,
                md_off,
                bc,
            } => v matches Operation::ResolveScope { dst: a, scope: b, md_off: c, bc: d } && a
                == dst && b == scope && c == md_off && d == bc,
            Operation::GetFromScope {
                dst,
                scope,
                md_off,
                bc,
            } => v matches Operation::GetFromScope { dst: a, scope: b, md_off: c, bc: d } && a
                == dst && b == scope && c == md_off && d == bc,
            Operation::PutToScope { scope, val, md_off, bc } => v matches Operation::PutToScope {
                scope: a,
                val: b,
                md_off: c,
                bc: d,
            } && a == scope && b == val && c == md_off && d == bc,
            Operation::Call {
                dst,
                callee,
                this,
                args,
                frame_size,
                bc,
            } => v matches Operation::Call {
                dst: a,
                callee: b,
                this: c,
                args: d,
                frame_size: e,
                bc: f,
            } && a == dst && b == callee && c == this && d == args@ && e == frame_size && f == bc,
            Operation::CheckTraps { bc } => v matches Operation::CheckTraps { bc: a } && a == bc,
            Operation::LoopHint => v is LoopHint,
            Operation::JTrue { cond, target } => v matches Operation::JTrue { cond: a, target: b }
                && a == cond && b == target,
            Operation::JFalse { cond, target } => v matches Operation::JFalse {
                cond: a,
                target: b,
            } && a == cond && b == target,
            Operation::JEqNull { v: r, target } => v matches Operation::JEqNull {
                v: a,
                target: b,
            } && a == r && b == target,
            Operation::JNEqNull { v: r, target } => v matches Operation::JNEqNull {
                v: a,
                target: b,
            } && a == r && b == target,
            Operation::JStrictEq { lhs, rhs, target } => v matches Operation::JStrictEq {
                lhs: a,
                rhs: b,
                target: c,
            } && a == lhs && b == rhs && c == target,
            Operation::JNStrictEq { lhs, rhs, target } => v matches Operation::JNStrictEq {
                lhs: a,
                rhs: b,
                target: c,
            } && a == lhs && b == rhs && c == target,
            Operation::JStrictEqK { lhs, k, target } => v matches Operation::JStrictEqK {
                lhs: a,
                k: b,
                target: c,
            } && a == lhs && b == k && c == target,
            Operation::JNStrictEqK { lhs, k, target } => v matches Operation::JNStrictEqK {
                lhs: a,
                k: b,
                target: c,
            } && a == lhs && b == k && c == target,
            Operation::JLess { lhs, rhs, target, bc } => v matches Operation::JLess {
                lhs: a,
                rhs: b,
                target: c,
                bc: d,
            } && a == lhs && b == rhs && c == target && d == bc,
            Operation::JNLess { lhs, rhs, target, bc } => v matches Operation::JNLess {
                lhs: a,
                rhs: b,
                target: c,
                bc: d,
            } && a == lhs && b == rhs && c == target && d == bc,
            Operation::NeqNull { dst, src } => v matches Operation::NeqNull { dst: a, src: b } && a
                == dst && b == src,
            Operation::Jmp(t) => v == OpView::Jmp(t),
            Operation::Label(id) => v == OpView::Label(id),
            Operation::Ret(r) => v == OpView::Ret(r),
            Operation::RetK(k) => v == OpView::RetK(k),
        },
{
}

/// A function in bytecode.
pub struct Body {
    pub name: &'static str,
    pub n_args: u32,
    pub n_locals: u32,
    pub ops: Vec<Op>,
}

/// The view of a [`Body`].
#[verifier::ext_equal]
pub struct BodyView {
    pub name: Seq<char>,
    pub n_args: u32,
    pub n_locals: u32,
    pub ops: Seq<OpView>,
}

impl View for Body {
    type V = BodyView;

    open spec fn view(&self) -> BodyView {
        BodyView {
            name: self.name@,
            n_args: self.n_args,
            n_locals: self.n_locals,
            ops: self.ops@.map_values(|op: Op| op@),
        }
    }
}

/// `r` is `this`, one of `n_args` arguments or one of `n_locals` locals.
pub open spec fn is_register(r: VR, n_args: nat, n_locals: nat) -> bool {
    -n_locals <= r <= n_args
}

impl Operation<Seq<VR>> {
    /// The label that the operation may branch to.
    pub open spec fn target(self) -> Option<u32> {
        match self {
            Operation::JTrue { target, .. } => Some(target),
            Operation::JFalse { target, .. } => Some(target),
            Operation::JEqNull { target, .. } => Some(target),
            Operation::JNEqNull { target, .. } => Some(target),
            Operation::JStrictEq { target, .. } => Some(target),
            Operation::JNStrictEq { target, .. } => Some(target),
            Operation::JStrictEqK { target, .. } => Some(target),
            Operation::JNStrictEqK { target, .. } => Some(target),
            Operation::JLess { target, .. } => Some(target),
            Operation::JNLess { target, .. } => Some(target),
            Operation::Jmp(t) => Some(t),
            _ => None,
        }
    }

    /// Control never passes from the operation to the one behind it.
    pub open spec fn is_stop(self) -> bool {
        self is Jmp || self is Ret || self is RetK
    }

    /// No code is emitted for the operation.
    pub open spec fn is_silent(self) -> bool {
        self is Enter || self is LoopHint
    }

    /// The registers of the operation are there, the offsets that it asks for fit in 32
    /// bits, and the kind of a bit operation is one of the four.
    pub open spec fn ok(self, n_args: nat, n_locals: nat) -> bool {
        match self {
            Operation::Mov(d, s) => is_register(d, n_args, n_locals) && is_register(
                s,
                n_args,
                n_locals,
            ),
            Operation::MovK(d, _) => is_register(d, n_args, n_locals),
            Operation::GetById { dst, base, md_off, .. } => {
                &&& is_register(dst, n_args, n_locals)
                &&& is_register(base, n_args, n_locals)
                &&& md_off + 4 <= i32::MAX
            },
            Operation::PutById { base, val, md_off, .. } => {
                &&& is_register(base, n_args, n_locals)
                &&& is_register(val, n_args, n_locals)
                &&& md_off + 4 <= i32::MAX
            },
            Operation::GetByVal { dst, base, idx, .. } => {
                &&& is_register(dst, n_args, n_locals)
                &&& is_register(base, n_args, n_locals)
                &&& is_register(idx, n_args, n_locals)
            },
            Operation::PutByVal { base, idx, val, .. } => {
                &&& is_register(base, n_args, n_locals)
                &&& is_register(idx, n_args, n_locals)
                &&& is_register(val, n_args, n_locals)
            },
            Operation::GetLength { dst, base, .. } => {
                &&& is_register(dst, n_args, n_locals)
                &&& is_register(base, n_args, n_locals)
            },
            Operation::Add { dst, lhs, rhs, .. } => {
                &&& is_register(dst, n_args, n_locals)
                &&& is_register(lhs, n_args, n_locals)
                &&& is_register(rhs, n_args, n_locals)
            },
            Operation::AddK { dst, lhs, .. } => {
                &&& is_register(dst, n_args, n_locals)
                &&& is_register(lhs, n_args, n_locals)
            },
            Operation::Inc { dst, .. } => is_register(dst, n_args, n_locals),
            Operation::BitOp { kind, dst, lhs, rhs, .. } => {
                &&& kind <= 3
                &&& is_register(dst, n_args, n_locals)
                &&& is_register(lhs, n_args, n_locals)
                &&& is_register(rhs, n_args, n_locals)
            },
            Operation::BitOpK { kind, dst, lhs, .. } => {
                &&& kind <= 3
                &&& is_register(dst, n_args, n_locals)
                &&& is_register(lhs, n_args, n_locals)
            },
            Operation::ResolveScope { dst, scope, md_off, .. } => {
                &&& is_register(dst, n_args, n_locals)
                &&& is_register(scope, n_args, n_locals)
                &&& md_off + 8 <= i32::MAX
            },
            Operation::GetFromScope { dst, scope, md_off, .. } => {
                &&& is_register(dst, n_args, n_locals)
                &&& is_register(scope, n_args, n_locals)
                &&& md_off + 16 <= i32::MAX
            },
            Operation::PutToScope { scope, val, md_off, .. } => {
                &&& is_register(scope, n_args, n_locals)
                &&& is_register(val, n_args, n_locals)
                &&& md_off + 16 <= i32::MAX
            },
            Operation::Call { dst, callee, this, args, frame_size, .. } => {
                &&& is_register(dst, n_args, n_locals)
                &&& is_register(callee, n_args, n_locals)
                &&& is_register(this, n_args, n_locals)
                &&& forall|i: int|
                    0 <= i < args.len() ==> is_register(#[trigger] args[i], n_args, n_locals)
                &&& i32::MIN < frame_size * 8 <= i32::MAX
                &&& 48 + 8 * (args.len() - 1) <= i32::MAX
            },
            Operation::JTrue { cond, .. } => is_register(cond, n_args, n_locals),
            Operation::JFalse { cond, .. } => is_register(cond, n_args, n_locals),
            Operation::JEqNull { v, .. } => is_register(v, n_args, n_locals),
            Operation::JNEqNull { v, .. } => is_register(v, n_args, n_locals),
            Operation::JStrictEq { lhs, rhs, .. } => {
                &&& is_register(lhs, n_args, n_locals)
                &&& is_register(rhs, n_args, n_locals)
            },
            Operation::JNStrictEq { lhs, rhs, .. } => {
                &&& is_register(lhs, n_args, n_locals)
                &&& is_register(rhs, n_args, n_locals)
            },
            Operation::JStrictEqK { lhs, .. } => is_register(lhs, n_args, n_locals),
            Operation::JNStrictEqK { lhs, .. } => is_register(lhs, n_args, n_locals),
            Operation::JLess { lhs, rhs, .. } => {
                &&& is_register(lhs, n_args, n_locals)
                &&& is_register(rhs, n_args, n_locals)
            },
            Operation::JNLess { lhs, rhs, .. } => {
                &&& is_register(lhs, n_args, n_locals)
                &&& is_register(rhs, n_args, n_locals)
            },
            Operation::NeqNull { dst, src } => {
                &&& is_register(dst, n_args, n_locals)
                &&& is_register(src, n_args, n_locals)
            },
            Operation::Ret(Some(r)) => is_register(r, n_args, n_locals),
            _ => true,
        }
    }
}

/// Control can pass from the first `n` operations to the one behind them.
pub open spec fn falls_through(ops: Seq<OpView>, n: int) -> bool
    decreases n,
{
    if n <= 0 {
        true
    } else if ops[n - 1].is_silent() {
        falls_through(ops, n - 1)
    } else {
        !ops[n - 1].is_stop()
    }
}

/// The label `id` stands among the first `n` operations.
pub open spec fn bound(ops: Seq<OpView>, n: int, id: u32) -> bool {
    exists|i: int| 0 <= i < n && #[trigger] ops[i] == OpView::Label(id)
}

/// Code can be emitted for the operations: each of them is in order, what follows a jump
/// or a return is a label, and no label occurs twice.
pub open spec fn ops_ok(ops: Seq<OpView>, n_args: nat, n_locals: nat) -> bool {
    &&& forall|i: int| 0 <= i < ops.len() ==> (#[trigger] ops[i]).ok(n_args, n_locals)
    &&& forall|i: int|
        0 <= i < ops.len() && !(#[trigger] ops[i]).is_silent() && ops[i] !is Label
            ==> falls_through(ops, i)
    &&& forall|i: int, j: int|
        0 <= i < j < ops.len() && (#[trigger] ops[i]) is Label ==> ops[i] != #[trigger] ops[j]
}

impl BodyView {
    /// A function can be generated from the body: besides what [`ops_ok`] says, every
    /// label that is branched to occurs, control does not run off the end, and the
    /// registers can be numbered.
    pub open spec fn ok(self) -> bool {
        &&& ops_ok(self.ops, self.n_args as nat, self.n_locals as nat)
        &&& forall|i: int|
            0 <= i < self.ops.len() && (#[trigger] self.ops[i]).target() is Some ==> bound(
                self.ops,
                self.ops.len() as int,
                self.ops[i].target()->0,
            )
        &&& !falls_through(self.ops, self.ops.len() as int)
    }
}

/// How many operations there are besides labels and loop hints.
pub open spec fn n_ops(ops: Seq<OpView>) -> nat {
    ops.filter(|op: OpView| op !is Label && op !is LoopHint).len()
}

/// How many operations there are besides labels and loop hints.
pub fn count_ops(ops: &Vec<Op>) -> (r: usize)
    ensures
        r == n_ops(ops@.map_values(|op: Op| op@)),
{
    let ghost all = ops@.map_values(|op: Op| op@);
    let ghost counted = |op: OpView| op !is Label && op !is LoopHint;
    let mut r: usize = 0;
    for i in 0..ops.len()
        invariant
            all == ops@.map_values(|op: Op| op@),
            counted == (|op: OpView| op !is Label && op !is LoopHint),
            r == all.take(i as int).filter(counted).len(),
            r <= i,
    {
        assert(all.take(i + 1).drop_last() =~= all.take(i as int));
        reveal(Seq::filter);
        match &ops[i] {
            Operation::Label(_) => {},
            Operation::LoopHint => {},
            _ => {
                r += 1;
            },
        }
    }
    assert(all.take(ops.len() as int) =~= all);
    r
}

} // verus!
