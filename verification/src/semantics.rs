//! What the bytecode means.
//!
//! A [`World`] says what the engine answers to a [`Request`] of the running function. It
//! changes with what the function writes and calls, and with nothing else. [`step`] says what
//! each operation does with its registers, what it asks the world, and where it goes on.
use crate::bytecode::{
    js_int, BodyView, OpView, Operation, JS_FALSE, JS_NULL, JS_TRUE, JS_UNDEFINED, NUMBER_TAG, VR,
};
use crate::meaning::{bitop_bits, is_cell, is_nullish, is_number};
use crate::runs::{boxed, int32_sum, is_int32, low};
use vstd::prelude::*;

verus! {

/// What a function asks of the engine.
pub enum Request {
    GetById { base: u64, md_off: i32, ident: u32, bc: u32 },
    PutById { base: u64, val: u64, md_off: i32, ident: u32, bc: u32 },
    GetByVal { base: u64, idx: u64, bc: u32 },
    PutByVal { base: u64, idx: u64, val: u64, bc: u32 },
    GetLength { base: u64, bc: u32 },
    Add { lhs: u64, rhs: u64, bc: u32 },
    BitOp { kind: u8, lhs: u64, rhs: u64, bc: u32 },
    Less { lhs: u64, rhs: u64, bc: u32 },
    StrictEq { lhs: u64, rhs: u64 },
    ToBoolean { v: u64 },
    ToThis { this: u64 },
    ResolveScope { scope: u64, md_off: i32, bc: u32 },
    GetFromScope { scope: u64, md_off: i32, bc: u32 },
    PutToScope { scope: u64, val: u64, md_off: i32, bc: u32 },
    Call { callee: u64, this: u64, args: Seq<u64>, frame_size: i32, bc: u32 },
    HandleTraps { bc: u32 },
}

/// What the engine answers once the function has made the given writes and calls. Without an
/// answer there is an exception.
pub type World = spec_fn(Seq<Request>, Request) -> Option<u64>;

/// How far a function has come: the operation that is next, the values of the registers, and
/// the writes and calls that it made.
#[verifier::ext_equal]
pub struct State {
    pub pc: int,
    pub regs: Map<VR, u64>,
    pub made: Seq<Request>,
}

/// What follows on an operation: another one, or the end, with what was made and returned.
pub enum Next {
    Go(State),
    Done(Seq<Request>, u64),
}

/// The sum of two values.
#[verifier::opaque]
pub open spec fn sum(w: World, made: Seq<Request>, l: u64, r: u64, bc: u32) -> Option<u64> {
    if is_int32(l) && is_int32(r) && int32_sum(low(l), low(r)) is Some {
        Some(boxed(int32_sum(low(l), low(r))->0))
    } else {
        w(made, Request::Add { lhs: l, rhs: r, bc })
    }
}

/// The result of a bit operation on two values.
#[verifier::opaque]
pub open spec fn bits(
    w: World,
    made: Seq<Request>,
    kind: u8,
    l: u64,
    r: u64,
    bc: u32,
) -> Option<u64> {
    if is_int32(l) && is_int32(r) {
        Some(boxed(bitop_bits(kind, l as u32, r as u32) as i32))
    } else {
        w(made, Request::BitOp { kind, lhs: l, rhs: r, bc })
    }
}

/// Whether the first value is less than the second.
pub open spec fn less(w: World, made: Seq<Request>, l: u64, r: u64, bc: u32) -> Option<bool> {
    if is_int32(l) && is_int32(r) {
        Some(low(l) < low(r))
    } else {
        match w(made, Request::Less { lhs: l, rhs: r, bc }) {
            Some(v) => Some(v & 0xff != 0),
            None => None,
        }
    }
}

/// Whether two values are strictly equal.
pub open spec fn same(w: World, made: Seq<Request>, l: u64, r: u64) -> Option<bool> {
    if l == r {
        Some(true)
    } else if is_cell(l) && is_cell(r) || is_number(l) && is_number(r) {
        match w(made, Request::StrictEq { lhs: l, rhs: r }) {
            Some(v) => Some(v != 0),
            None => None,
        }
    } else {
        Some(false)
    }
}

/// Whether a value is true.
pub open spec fn truthy(w: World, made: Seq<Request>, v: u64) -> Option<bool> {
    if v == JS_TRUE as u64 {
        Some(true)
    } else if v == JS_FALSE as u64 {
        Some(false)
    } else {
        match w(made, Request::ToBoolean { v }) {
            Some(b) => Some(b != 0),
            None => None,
        }
    }
}

/// Where a label stands.
pub open spec fn place_of(ops: Seq<OpView>, id: u32) -> int {
    choose|i: int| 0 <= i < ops.len() && ops[i] == OpView::Label(id)
}

impl State {
    /// The value of a register.
    pub open spec fn reg(self, r: VR) -> u64 {
        self.regs[r]
    }

    /// The next operation is due.
    pub open spec fn on(self) -> State {
        State { pc: self.pc + 1, ..self }
    }

    /// The next operation is due, and a register has a new value.
    pub open spec fn set(self, r: VR, v: u64) -> State {
        State { pc: self.pc + 1, regs: self.regs.insert(r, v), ..self }
    }

    /// A write or a call was made.
    pub open spec fn with(self, q: Request) -> State {
        State { made: self.made.push(q), ..self }
    }

    /// The end, by an exception.
    pub open spec fn thrown(self) -> Next {
        Next::Done(self.made, JS_UNDEFINED as u64)
    }

    /// A register gets the value that came out, if one did.
    pub open spec fn take(self, r: VR, v: Option<u64>) -> Next {
        match v {
            Some(v) => Next::Go(self.set(r, v)),
            None => self.thrown(),
        }
    }

    /// A write was made.
    pub open spec fn write(self, w: World, q: Request) -> Next {
        match w(self.made, q) {
            Some(_) => Next::Go(self.with(q).on()),
            None => self.with(q).thrown(),
        }
    }

    /// The label is next if the condition holds.
    pub open spec fn jump(self, ops: Seq<OpView>, holds: Option<bool>, id: u32) -> Next {
        match holds {
            Some(true) => Next::Go(State { pc: place_of(ops, id), ..self }),
            Some(false) => Next::Go(self.on()),
            None => self.thrown(),
        }
    }
}

/// The opposite of a condition.
pub open spec fn opposite(holds: Option<bool>) -> Option<bool> {
    match holds {
        Some(b) => Some(!b),
        None => None,
    }
}

/// What the operation that is next does.
#[verifier::opaque]
pub open spec fn step(ops: Seq<OpView>, w: World, s: State) -> Next {
    let made = s.made;
    match ops[s.pc] {
        Operation::Enter => Next::Go(s.on()),
        Operation::LoopHint => Next::Go(s.on()),
        Operation::Label(_) => Next::Go(s.on()),
        Operation::Mov(d, r) => Next::Go(s.set(d, s.reg(r))),
        Operation::MovK(d, k) => Next::Go(s.set(d, k as u64)),
        Operation::ToThis => s.take(0, w(made, Request::ToThis { this: s.reg(0) })),
        Operation::GetById { dst, base, md_off, ident, bc } => s.take(
            dst,
            w(made, Request::GetById { base: s.reg(base), md_off, ident, bc }),
        ),
        Operation::PutById { base, val, md_off, ident, bc } => s.write(
            w,
            Request::PutById { base: s.reg(base), val: s.reg(val), md_off, ident, bc },
        ),
        Operation::GetByVal { dst, base, idx, bc } => s.take(
            dst,
            w(made, Request::GetByVal { base: s.reg(base), idx: s.reg(idx), bc }),
        ),
        Operation::PutByVal { base, idx, val, bc } => s.write(
            w,
            Request::PutByVal { base: s.reg(base), idx: s.reg(idx), val: s.reg(val), bc },
        ),
        Operation::GetLength { dst, base, bc } => s.take(
            dst,
            w(made, Request::GetLength { base: s.reg(base), bc }),
        ),
        Operation::Add { dst, lhs, rhs, bc } => s.take(
            dst,
            sum(w, made, s.reg(lhs), s.reg(rhs), bc),
        ),
        Operation::AddK { dst, lhs, k, bc } => s.take(
            dst,
            sum(w, made, s.reg(lhs), js_int(k) as u64, bc),
        ),
        Operation::Inc { dst, bc } => s.take(
            dst,
            sum(w, made, s.reg(dst), js_int(1) as u64, bc),
        ),
        Operation::BitOp { kind, dst, lhs, rhs, bc } => s.take(
            dst,
            bits(w, made, kind, s.reg(lhs), s.reg(rhs), bc),
        ),
        Operation::BitOpK { kind, dst, lhs, k, bc } => s.take(
            dst,
            bits(w, made, kind, s.reg(lhs), js_int(k) as u64, bc),
        ),
        Operation::ResolveScope { dst, scope, md_off, bc } => s.take(
            dst,
            w(made, Request::ResolveScope { scope: s.reg(scope), md_off, bc }),
        ),
        Operation::GetFromScope { dst, scope, md_off, bc } => s.take(
            dst,
            w(made, Request::GetFromScope { scope: s.reg(scope), md_off, bc }),
        ),
        Operation::PutToScope { scope, val, md_off, bc } => s.write(
            w,
            Request::PutToScope { scope: s.reg(scope), val: s.reg(val), md_off, bc },
        ),
        Operation::Call { dst, callee, this, args, frame_size, bc } => {
            let q = Request::Call {
                callee: s.reg(callee),
                this: s.reg(this),
                args: args.map_values(|r: VR| s.reg(r)),
                frame_size,
                bc,
            };
            s.with(q).take(dst, w(made, q))
        },
        Operation::CheckTraps { bc } => match w(made, Request::HandleTraps { bc }) {
            Some(v) => if v == 0 {
                Next::Go(s.on())
            } else {
                s.thrown()
            },
            None => s.thrown(),
        },
        Operation::JTrue { cond, target } => s.jump(ops, truthy(w, made, s.reg(cond)), target),
        Operation::JFalse { cond, target } => s.jump(
            ops,
            opposite(truthy(w, made, s.reg(cond))),
            target,
        ),
        Operation::JEqNull { v, target } => s.jump(ops, Some(is_nullish(s.reg(v))), target),
        Operation::JNEqNull { v, target } => s.jump(ops, Some(!is_nullish(s.reg(v))), target),
        Operation::JStrictEq { lhs, rhs, target } => s.jump(
            ops,
            same(w, made, s.reg(lhs), s.reg(rhs)),
            target,
        ),
        Operation::JNStrictEq { lhs, rhs, target } => s.jump(
            ops,
            opposite(same(w, made, s.reg(lhs), s.reg(rhs))),
            target,
        ),
        Operation::JStrictEqK { lhs, k, target } => s.jump(
            ops,
            same(w, made, s.reg(lhs), k as u64),
            target,
        ),
        Operation::JNStrictEqK { lhs, k, target } => s.jump(
            ops,
            opposite(same(w, made, s.reg(lhs), k as u64)),
            target,
        ),
        Operation::JLess { lhs, rhs, target, bc } => s.jump(
            ops,
            less(w, made, s.reg(lhs), s.reg(rhs), bc),
            target,
        ),
        Operation::JNLess { lhs, rhs, target, bc } => s.jump(
            ops,
            opposite(less(w, made, s.reg(lhs), s.reg(rhs), bc)),
            target,
        ),
        Operation::NeqNull { dst, src } => Next::Go(
            s.set(
                dst,
                if is_nullish(s.reg(src)) {
                    JS_FALSE as u64
                } else {
                    JS_TRUE as u64
                },
            ),
        ),
        Operation::Jmp(t) => s.jump(ops, Some(true), t),
        Operation::Ret(Some(r)) => Next::Done(made, s.reg(r)),
        Operation::Ret(None) => Next::Done(made, JS_UNDEFINED as u64),
        Operation::RetK(k) => Next::Done(made, k as u64),
    }
}

/// What follows on `n` operations.
pub open spec fn steps(ops: Seq<OpView>, w: World, s: State, n: nat) -> Next
    decreases n,
{
    if n == 0 {
        Next::Go(s)
    } else {
        match steps(ops, w, s, (n - 1) as nat) {
            Next::Go(t) => step(ops, w, t),
            done => done,
        }
    }
}

/// The function comes from `s` to `t`.
pub open spec fn reaches(ops: Seq<OpView>, w: World, s: State, t: State) -> bool {
    exists|n: nat| #[trigger] steps(ops, w, s, n) == Next::Go(t)
}

/// From `s` on, the function ends with the value `v`, having made these writes and calls.
pub open spec fn ends(ops: Seq<OpView>, w: World, s: State, made: Seq<Request>, v: u64) -> bool {
    exists|n: nat| #[trigger] steps(ops, w, s, n) == Next::Done(made, v)
}

/// How a function begins: `this` and the arguments are given, the first local is the scope,
/// and the others are undefined.
pub open spec fn entry(body: BodyView, this: u64, args: Seq<u64>, scope: u64) -> State {
    State {
        pc: 0,
        regs: Map::new(
            |r: VR| -body.n_locals <= r <= body.n_args,
            |r: VR|
                if r == 0 {
                    this
                } else if r > 0 {
                    args[r - 1]
                } else if r == -1 {
                    scope
                } else {
                    JS_UNDEFINED as u64
                },
        ),
        made: Seq::empty(),
    }
}

/// The function returns `v` when it is called in the world, having made these writes and
/// calls.
pub open spec fn results_in(
    body: BodyView,
    w: World,
    this: u64,
    args: Seq<u64>,
    scope: u64,
    made: Seq<Request>,
    v: u64,
) -> bool {
    ends(body.ops, w, entry(body, this, args, scope), made, v)
}

/// The world answers everything, and there are no traps.
pub open spec fn calm(w: World) -> bool {
    &&& forall|made: Seq<Request>, q: Request| #[trigger] w(made, q) is Some
    &&& forall|made: Seq<Request>, bc: u32|
        #[trigger] w(made, Request::HandleTraps { bc }) == Some(0u64)
}

/// Another operation.
pub proof fn lemma_more(ops: Seq<OpView>, w: World, s: State, t: State, u: State)
    requires
        reaches(ops, w, s, t),
        step(ops, w, t) == Next::Go(u),
    ensures
        reaches(ops, w, s, u),
{
    let n = choose|n: nat| #[trigger] steps(ops, w, s, n) == Next::Go(t);
    assert(steps(ops, w, s, n + 1) == Next::Go(u));
}

/// No operation yet.
pub proof fn lemma_here(ops: Seq<OpView>, w: World, s: State)
    ensures
        reaches(ops, w, s, s),
{
    assert(steps(ops, w, s, 0) == Next::Go(s));
}

/// The last operation.
pub proof fn lemma_done(ops: Seq<OpView>, w: World, s: State, t: State, made: Seq<Request>, v: u64)
    requires
        reaches(ops, w, s, t),
        step(ops, w, t) == Next::Done(made, v),
    ensures
        ends(ops, w, s, made, v),
{
    let n = choose|n: nat| #[trigger] steps(ops, w, s, n) == Next::Go(t);
    assert(steps(ops, w, s, n + 1) == Next::Done(made, v));
}

proof fn lemma_steps_add(ops: Seq<OpView>, w: World, s: State, t: State, m: nat, n: nat)
    requires
        steps(ops, w, s, m) == Next::Go(t),
    ensures
        steps(ops, w, s, m + n) == steps(ops, w, t, n),
    decreases n,
{
    if n > 0 {
        lemma_steps_add(ops, w, s, t, m, (n - 1) as nat);
    }
}

/// What is reached from what is reached is reached, and so it is with the end.
pub proof fn lemma_joined(ops: Seq<OpView>, w: World, s: State, t: State)
    requires
        reaches(ops, w, s, t),
    ensures
        forall|u: State| #[trigger] reaches(ops, w, t, u) ==> reaches(ops, w, s, u),
        forall|made: Seq<Request>, v: u64| #[trigger]
            ends(ops, w, t, made, v) ==> ends(ops, w, s, made, v),
{
    let m = choose|m: nat| #[trigger] steps(ops, w, s, m) == Next::Go(t);
    assert forall|u: State| #[trigger] reaches(ops, w, t, u) implies reaches(ops, w, s, u) by {
        let n = choose|n: nat| #[trigger] steps(ops, w, t, n) == Next::Go(u);
        lemma_steps_add(ops, w, s, t, m, n);
        assert(steps(ops, w, s, m + n) == Next::Go(u));
    }
    assert forall|made: Seq<Request>, v: u64| #[trigger] ends(ops, w, t, made, v) implies ends(
        ops,
        w,
        s,
        made,
        v,
    ) by {
        let n = choose|n: nat| #[trigger] steps(ops, w, t, n) == Next::Done(made, v);
        lemma_steps_add(ops, w, s, t, m, n);
        assert(steps(ops, w, s, m + n) == Next::Done(made, v));
    }
}

proof fn lemma_stays_done(ops: Seq<OpView>, w: World, s: State, m: nat, n: nat)
    requires
        m <= n,
        steps(ops, w, s, m) is Done,
    ensures
        steps(ops, w, s, n) == steps(ops, w, s, m),
    decreases n - m,
{
    if m < n {
        lemma_stays_done(ops, w, s, m, (n - 1) as nat);
    }
}

/// A function that ends does so in one way.
pub proof fn functions_end_in_one_way(
    ops: Seq<OpView>,
    w: World,
    s: State,
    made: Seq<Request>,
    v: u64,
    other: Seq<Request>,
    u: u64,
)
    requires
        ends(ops, w, s, made, v),
        ends(ops, w, s, other, u),
    ensures
        made == other && v == u,
{
    let m = choose|n: nat| #[trigger] steps(ops, w, s, n) == Next::Done(made, v);
    let n = choose|n: nat| #[trigger] steps(ops, w, s, n) == Next::Done(other, u);
    if m <= n {
        lemma_stays_done(ops, w, s, m, n);
    } else {
        lemma_stays_done(ops, w, s, n, m);
    }
}

/// A label that stands once stands there.
pub proof fn lemma_place_of(body: BodyView, id: u32, i: int)
    requires
        body.ok(),
        0 <= i < body.ops.len(),
        body.ops[i] == OpView::Label(id),
    ensures
        place_of(body.ops, id) == i,
{
    let j = place_of(body.ops, id);
    assert(0 <= j < body.ops.len() && body.ops[j] == OpView::Label(id));
    if i < j {
        assert(body.ops[i] != body.ops[j]);
    } else if j < i {
        assert(body.ops[j] != body.ops[i]);
    }
}

/// What is known of encoded numbers.
pub proof fn lemma_encoded(k: i32)
    ensures
        is_int32(boxed(k)),
        low(boxed(k)) == k,
        is_int32(js_int(k) as u64),
        low(js_int(k) as u64) == k,
        k >= 0 ==> boxed(k) == js_int(k) as u64,
        (js_int(k) as u64) as u32 == k as u32,
{
    let b = (k as i64 as u64) | (NUMBER_TAG as u64);
    let j = (NUMBER_TAG | (k as u32 as i64)) as u64;
    assert(b >= (NUMBER_TAG as u64) && b as u32 as i32 == k && j >= (NUMBER_TAG as u64)
        && j as u32 as i32 == k && j as u32 == k as u32 && (k >= 0 ==> b == j)) by (bit_vector)
        requires
            b == (k as i64 as u64) | (NUMBER_TAG as u64),
            j == (NUMBER_TAG | (k as u32 as i64)) as u64,
    ;
}

/// Nothing but null is strictly equal to null, and no engine is asked.
pub proof fn lemma_same_null(w: World, made: Seq<Request>, v: u64)
    ensures
        same(w, made, v, JS_NULL as u64) == Some(v == JS_NULL as u64),
{
    assert((2u64 & (NUMBER_TAG as u64)) == 0) by (bit_vector);
    assert(JS_NULL as u64 == 2u64);
}

/// Where the world answers everything, two values have a sum, and so it is with bit
/// operations.
pub proof fn lemma_given(w: World, made: Seq<Request>, kind: u8, l: u64, r: u64, bc: u32)
    requires
        calm(w),
    ensures
        sum(w, made, l, r, bc) is Some,
        bits(w, made, kind, l, r, bc) is Some,
{
    reveal(sum);
    reveal(bits);
}

/// The sum of a number that can be counted on and one.
pub proof fn lemma_counted_on(w: World, made: Seq<Request>, k: i32, bc: u32)
    requires
        k < i32::MAX,
    ensures
        sum(w, made, boxed(k), js_int(1) as u64, bc) == Some(boxed((k + 1) as i32)),
{
    reveal(sum);
    lemma_encoded(k);
    lemma_encoded(1);
}

/// The next operation emits no code, or checks for traps.
pub proof fn lemma_on(ops: Seq<OpView>, w: World, s0: State, s: State) -> (t: State)
    requires
        reaches(ops, w, s0, s),
        ops[s.pc] is Enter || ops[s.pc] is LoopHint || ops[s.pc] is Label || (
        ops[s.pc] matches Operation::CheckTraps { bc } && w(s.made, Request::HandleTraps { bc })
            == Some(0u64)),
    ensures
        t == s.on(),
        reaches(ops, w, s0, t),
{
    reveal(step);
    lemma_more(ops, w, s0, s, s.on());
    s.on()
}

/// A register is copied.
pub proof fn lemma_mov(ops: Seq<OpView>, w: World, s0: State, s: State, d: VR, r: VR) -> (t: State)
    requires
        reaches(ops, w, s0, s),
        ops[s.pc] == (OpView::Mov(d, r)),
    ensures
        t == s.set(d, s.reg(r)),
        reaches(ops, w, s0, t),
{
    reveal(step);
    let t = s.set(d, s.reg(r));
    lemma_more(ops, w, s0, s, t);
    t
}

/// A constant is moved.
pub proof fn lemma_mov_constant(ops: Seq<OpView>, w: World, s0: State, s: State, d: VR, k: i64) -> (t: State)
    requires
        reaches(ops, w, s0, s),
        ops[s.pc] == (OpView::MovK(d, k)),
    ensures
        t == s.set(d, k as u64),
        reaches(ops, w, s0, t),
{
    reveal(step);
    let t = s.set(d, k as u64);
    lemma_more(ops, w, s0, s, t);
    t
}

/// `this` is converted.
pub proof fn lemma_to_this(ops: Seq<OpView>, w: World, s0: State, s: State) -> (t: State)
    requires
        reaches(ops, w, s0, s),
        ops[s.pc] == (OpView::ToThis),
        w(s.made, Request::ToThis { this: s.reg(0) }) is Some,
    ensures
        t == s.set(0, w(s.made, Request::ToThis { this: s.reg(0) })->0),
        reaches(ops, w, s0, t),
{
    reveal(step);
    let t = s.set(0, w(s.made, Request::ToThis { this: s.reg(0) })->0);
    lemma_more(ops, w, s0, s, t);
    t
}

/// A property is read.
pub proof fn lemma_get_by_id(ops: Seq<OpView>, w: World, s0: State, s: State, dst: VR, base: VR, md_off: i32, ident: u32, bc: u32) -> (t: State)
    requires
        reaches(ops, w, s0, s),
        ops[s.pc] == (OpView::GetById { dst, base, md_off, ident, bc }),
        w(s.made, Request::GetById { base: s.reg(base), md_off, ident, bc }) is Some,
    ensures
        t == s.set(dst, w(s.made, Request::GetById { base: s.reg(base), md_off, ident, bc })->0),
        reaches(ops, w, s0, t),
{
    reveal(step);
    let t = s.set(dst, w(s.made, Request::GetById { base: s.reg(base), md_off, ident, bc })->0);
    lemma_more(ops, w, s0, s, t);
    t
}

/// An element is read.
pub proof fn lemma_get_by_val(ops: Seq<OpView>, w: World, s0: State, s: State, dst: VR, base: VR, idx: VR, bc: u32) -> (t: State)
    requires
        reaches(ops, w, s0, s),
        ops[s.pc] == (OpView::GetByVal { dst, base, idx, bc }),
        w(s.made, Request::GetByVal { base: s.reg(base), idx: s.reg(idx), bc }) is Some,
    ensures
        t == s.set(dst, w(s.made, Request::GetByVal { base: s.reg(base), idx: s.reg(idx), bc })->0),
        reaches(ops, w, s0, t),
{
    reveal(step);
    let t = s.set(dst, w(s.made, Request::GetByVal { base: s.reg(base), idx: s.reg(idx), bc })->0);
    lemma_more(ops, w, s0, s, t);
    t
}

/// A length is read.
pub proof fn lemma_get_length(ops: Seq<OpView>, w: World, s0: State, s: State, dst: VR, base: VR, bc: u32) -> (t: State)
    requires
        reaches(ops, w, s0, s),
        ops[s.pc] == (OpView::GetLength { dst, base, bc }),
        w(s.made, Request::GetLength { base: s.reg(base), bc }) is Some,
    ensures
        t == s.set(dst, w(s.made, Request::GetLength { base: s.reg(base), bc })->0),
        reaches(ops, w, s0, t),
{
    reveal(step);
    let t = s.set(dst, w(s.made, Request::GetLength { base: s.reg(base), bc })->0);
    lemma_more(ops, w, s0, s, t);
    t
}

/// A scope is looked up.
pub proof fn lemma_resolve_scope(ops: Seq<OpView>, w: World, s0: State, s: State, dst: VR, scope: VR, md_off: i32, bc: u32) -> (t: State)
    requires
        reaches(ops, w, s0, s),
        ops[s.pc] == (OpView::ResolveScope { dst, scope, md_off, bc }),
        w(s.made, Request::ResolveScope { scope: s.reg(scope), md_off, bc }) is Some,
    ensures
        t == s.set(dst, w(s.made, Request::ResolveScope { scope: s.reg(scope), md_off, bc })->0),
        reaches(ops, w, s0, t),
{
    reveal(step);
    let t = s.set(dst, w(s.made, Request::ResolveScope { scope: s.reg(scope), md_off, bc })->0);
    lemma_more(ops, w, s0, s, t);
    t
}

/// A variable is read.
pub proof fn lemma_get_from_scope(ops: Seq<OpView>, w: World, s0: State, s: State, dst: VR, scope: VR, md_off: i32, bc: u32) -> (t: State)
    requires
        reaches(ops, w, s0, s),
        ops[s.pc] == (OpView::GetFromScope { dst, scope, md_off, bc }),
        w(s.made, Request::GetFromScope { scope: s.reg(scope), md_off, bc }) is Some,
    ensures
        t == s.set(dst, w(s.made, Request::GetFromScope { scope: s.reg(scope), md_off, bc })->0),
        reaches(ops, w, s0, t),
{
    reveal(step);
    let t = s.set(dst, w(s.made, Request::GetFromScope { scope: s.reg(scope), md_off, bc })->0);
    lemma_more(ops, w, s0, s, t);
    t
}

/// A property is written.
pub proof fn lemma_put_by_id(ops: Seq<OpView>, w: World, s0: State, s: State, base: VR, val: VR, md_off: i32, ident: u32, bc: u32) -> (t: State)
    requires
        reaches(ops, w, s0, s),
        ops[s.pc] == (OpView::PutById { base, val, md_off, ident, bc }),
        w(s.made, Request::PutById { base: s.reg(base), val: s.reg(val), md_off, ident, bc }) is Some,
    ensures
        t == s.with(Request::PutById { base: s.reg(base), val: s.reg(val), md_off, ident, bc }).on(),
        reaches(ops, w, s0, t),
{
    reveal(step);
    let t = s.with(Request::PutById { base: s.reg(base), val: s.reg(val), md_off, ident, bc }).on();
    lemma_more(ops, w, s0, s, t);
    t
}

/// An element is written.
pub proof fn lemma_put_by_val(ops: Seq<OpView>, w: World, s0: State, s: State, base: VR, idx: VR, val: VR, bc: u32) -> (t: State)
    requires
        reaches(ops, w, s0, s),
        ops[s.pc] == (OpView::PutByVal { base, idx, val, bc }),
        w(s.made, Request::PutByVal { base: s.reg(base), idx: s.reg(idx), val: s.reg(val), bc }) is Some,
    ensures
        t == s.with(Request::PutByVal { base: s.reg(base), idx: s.reg(idx), val: s.reg(val), bc }).on(),
        reaches(ops, w, s0, t),
{
    reveal(step);
    let t = s.with(Request::PutByVal { base: s.reg(base), idx: s.reg(idx), val: s.reg(val), bc }).on();
    lemma_more(ops, w, s0, s, t);
    t
}

/// A variable is written.
pub proof fn lemma_put_to_scope(ops: Seq<OpView>, w: World, s0: State, s: State, scope: VR, val: VR, md_off: i32, bc: u32) -> (t: State)
    requires
        reaches(ops, w, s0, s),
        ops[s.pc] == (OpView::PutToScope { scope, val, md_off, bc }),
        w(s.made, Request::PutToScope { scope: s.reg(scope), val: s.reg(val), md_off, bc }) is Some,
    ensures
        t == s.with(Request::PutToScope { scope: s.reg(scope), val: s.reg(val), md_off, bc }).on(),
        reaches(ops, w, s0, t),
{
    reveal(step);
    let t = s.with(Request::PutToScope { scope: s.reg(scope), val: s.reg(val), md_off, bc }).on();
    lemma_more(ops, w, s0, s, t);
    t
}

/// A call is made, with the values `vals` of the registers for the arguments.
pub proof fn lemma_call(
    ops: Seq<OpView>,
    w: World,
    s0: State,
    s: State,
    dst: VR,
    callee: VR,
    this: VR,
    args: Seq<VR>,
    frame_size: i32,
    bc: u32,
    vals: Seq<u64>,
) -> (t: State)
    requires
        reaches(ops, w, s0, s),
        ops[s.pc] == (OpView::Call { dst, callee, this, args, frame_size, bc }),
        calm(w),
        vals.len() == args.len(),
        forall|i: int| 0 <= i < args.len() ==> vals[i] == s.reg(#[trigger] args[i]),
    ensures
        ({
            let q = Request::Call {
                callee: s.reg(callee),
                this: s.reg(this),
                args: vals,
                frame_size,
                bc,
            };
            t == s.with(q).set(dst, w(s.made, q)->0)
        }),
        reaches(ops, w, s0, t),
{
    reveal(step);
    assert(args.map_values(|r: VR| s.reg(r)) =~= vals);
    let q = Request::Call { callee: s.reg(callee), this: s.reg(this), args: vals, frame_size, bc };
    let t = s.with(q).set(dst, w(s.made, q)->0);
    assert(w(s.made, q) is Some);
    lemma_more(ops, w, s0, s, t);
    t
}

/// Two registers are added.
pub proof fn lemma_add(ops: Seq<OpView>, w: World, s0: State, s: State, dst: VR, lhs: VR, rhs: VR, bc: u32) -> (t: State)
    requires
        reaches(ops, w, s0, s),
        ops[s.pc] == (OpView::Add { dst, lhs, rhs, bc }),
        calm(w),
    ensures
        t == s.set(dst, sum(w, s.made, s.reg(lhs), s.reg(rhs), bc)->0),
        reaches(ops, w, s0, t),
{
    reveal(step);
    lemma_given(w, s.made, 0, s.reg(lhs), s.reg(rhs), bc);
    let t = s.set(dst, sum(w, s.made, s.reg(lhs), s.reg(rhs), bc)->0);
    lemma_more(ops, w, s0, s, t);
    t
}

/// A constant is added.
pub proof fn lemma_add_constant(ops: Seq<OpView>, w: World, s0: State, s: State, dst: VR, lhs: VR, k: i32, bc: u32) -> (t: State)
    requires
        reaches(ops, w, s0, s),
        ops[s.pc] == (OpView::AddK { dst, lhs, k, bc }),
        calm(w),
    ensures
        t == s.set(dst, sum(w, s.made, s.reg(lhs), js_int(k) as u64, bc)->0),
        reaches(ops, w, s0, t),
{
    reveal(step);
    lemma_given(w, s.made, 0, s.reg(lhs), js_int(k) as u64, bc);
    let t = s.set(dst, sum(w, s.made, s.reg(lhs), js_int(k) as u64, bc)->0);
    lemma_more(ops, w, s0, s, t);
    t
}

/// A bit operation on two registers.
pub proof fn lemma_bitop(ops: Seq<OpView>, w: World, s0: State, s: State, kind: u8, dst: VR, lhs: VR, rhs: VR, bc: u32) -> (t: State)
    requires
        reaches(ops, w, s0, s),
        ops[s.pc] == (OpView::BitOp { kind, dst, lhs, rhs, bc }),
        calm(w),
    ensures
        t == s.set(dst, bits(w, s.made, kind, s.reg(lhs), s.reg(rhs), bc)->0),
        reaches(ops, w, s0, t),
{
    reveal(step);
    lemma_given(w, s.made, kind, s.reg(lhs), s.reg(rhs), bc);
    let t = s.set(dst, bits(w, s.made, kind, s.reg(lhs), s.reg(rhs), bc)->0);
    lemma_more(ops, w, s0, s, t);
    t
}

/// A bit operation with a constant.
pub proof fn lemma_bitop_constant(ops: Seq<OpView>, w: World, s0: State, s: State, kind: u8, dst: VR, lhs: VR, k: i32, bc: u32) -> (t: State)
    requires
        reaches(ops, w, s0, s),
        ops[s.pc] == (OpView::BitOpK { kind, dst, lhs, k, bc }),
        calm(w),
    ensures
        t == s.set(dst, bits(w, s.made, kind, s.reg(lhs), js_int(k) as u64, bc)->0),
        reaches(ops, w, s0, t),
{
    reveal(step);
    lemma_given(w, s.made, kind, s.reg(lhs), js_int(k) as u64, bc);
    let t = s.set(dst, bits(w, s.made, kind, s.reg(lhs), js_int(k) as u64, bc)->0);
    lemma_more(ops, w, s0, s, t);
    t
}

/// A register that holds the number `i` is incremented.
pub proof fn lemma_inc(ops: Seq<OpView>, w: World, s0: State, s: State, dst: VR, bc: u32, i: i32) -> (t: State)
    requires
        reaches(ops, w, s0, s),
        ops[s.pc] == (OpView::Inc { dst, bc }),
        s.reg(dst) == boxed(i),
        i < i32::MAX,
    ensures
        t == s.set(dst, boxed((i + 1) as i32)),
        reaches(ops, w, s0, t),
{
    reveal(step);
    lemma_counted_on(w, s.made, i, bc);
    let t = s.set(dst, boxed((i + 1) as i32));
    lemma_more(ops, w, s0, s, t);
    t
}

/// A register is tested against null.
pub proof fn lemma_neq_null(ops: Seq<OpView>, w: World, s0: State, s: State, dst: VR, src: VR) -> (t: State)
    requires
        reaches(ops, w, s0, s),
        ops[s.pc] == (OpView::NeqNull { dst, src }),
    ensures
        t == s.set(dst, if is_nullish(s.reg(src)) { JS_FALSE as u64 } else { JS_TRUE as u64 }),
        reaches(ops, w, s0, t),
{
    reveal(step);
    let t = s.set(dst, if is_nullish(s.reg(src)) { JS_FALSE as u64 } else { JS_TRUE as u64 });
    lemma_more(ops, w, s0, s, t);
    t
}

/// Control goes to the label that stands at `at` if `holds`, else on.
pub open spec fn gone(s: State, holds: bool, at: int) -> State {
    if holds {
        State { pc: at, ..s }
    } else {
        s.on()
    }
}

/// A jump.
pub proof fn lemma_jmp(ops: Seq<OpView>, w: World, s0: State, s: State, target: u32, holds: bool, at: int) -> (t: State)
    requires
        reaches(ops, w, s0, s),
        ops[s.pc] == (OpView::Jmp(target)),
        holds,
        place_of(ops, target) == at,
    ensures
        t == gone(s, holds, at),
        reaches(ops, w, s0, t),
{
    reveal(step);
    let t = gone(s, holds, at);
    lemma_more(ops, w, s0, s, t);
    t
}

/// A branch on truth.
pub proof fn lemma_jtrue(ops: Seq<OpView>, w: World, s0: State, s: State, cond: VR, target: u32, holds: bool, at: int) -> (t: State)
    requires
        reaches(ops, w, s0, s),
        ops[s.pc] == (OpView::JTrue { cond, target }),
        truthy(w, s.made, s.reg(cond)) == Some(holds),
        place_of(ops, target) == at,
    ensures
        t == gone(s, holds, at),
        reaches(ops, w, s0, t),
{
    reveal(step);
    let t = gone(s, holds, at);
    lemma_more(ops, w, s0, s, t);
    t
}

/// A branch on the opposite.
pub proof fn lemma_jfalse(ops: Seq<OpView>, w: World, s0: State, s: State, cond: VR, target: u32, holds: bool, at: int) -> (t: State)
    requires
        reaches(ops, w, s0, s),
        ops[s.pc] == (OpView::JFalse { cond, target }),
        truthy(w, s.made, s.reg(cond)) == Some(!holds),
        place_of(ops, target) == at,
    ensures
        t == gone(s, holds, at),
        reaches(ops, w, s0, t),
{
    reveal(step);
    let t = gone(s, holds, at);
    lemma_more(ops, w, s0, s, t);
    t
}

/// A branch on null or undefined.
pub proof fn lemma_jeqnull(ops: Seq<OpView>, w: World, s0: State, s: State, v: VR, target: u32, holds: bool, at: int) -> (t: State)
    requires
        reaches(ops, w, s0, s),
        ops[s.pc] == (OpView::JEqNull { v, target }),
        is_nullish(s.reg(v)) == holds,
        place_of(ops, target) == at,
    ensures
        t == gone(s, holds, at),
        reaches(ops, w, s0, t),
{
    reveal(step);
    let t = gone(s, holds, at);
    lemma_more(ops, w, s0, s, t);
    t
}

/// A branch on strict equality.
pub proof fn lemma_jstricteq(ops: Seq<OpView>, w: World, s0: State, s: State, lhs: VR, rhs: VR, target: u32, holds: bool, at: int) -> (t: State)
    requires
        reaches(ops, w, s0, s),
        ops[s.pc] == (OpView::JStrictEq { lhs, rhs, target }),
        same(w, s.made, s.reg(lhs), s.reg(rhs)) == Some(holds),
        place_of(ops, target) == at,
    ensures
        t == gone(s, holds, at),
        reaches(ops, w, s0, t),
{
    reveal(step);
    let t = gone(s, holds, at);
    lemma_more(ops, w, s0, s, t);
    t
}

/// A branch on a register being null.
pub proof fn lemma_jnull(
    ops: Seq<OpView>,
    w: World,
    s0: State,
    s: State,
    lhs: VR,
    target: u32,
    holds: bool,
    at: int,
) -> (t: State)
    requires
        reaches(ops, w, s0, s),
        ops[s.pc] == (OpView::JStrictEqK { lhs, k: JS_NULL, target }),
        (s.reg(lhs) == JS_NULL as u64) == holds,
        place_of(ops, target) == at,
    ensures
        t == gone(s, holds, at),
        reaches(ops, w, s0, t),
{
    reveal(step);
    lemma_same_null(w, s.made, s.reg(lhs));
    let t = gone(s, holds, at);
    lemma_more(ops, w, s0, s, t);
    t
}

/// A branch on a register being other than null.
pub proof fn lemma_jnnull(
    ops: Seq<OpView>,
    w: World,
    s0: State,
    s: State,
    lhs: VR,
    target: u32,
    holds: bool,
    at: int,
) -> (t: State)
    requires
        reaches(ops, w, s0, s),
        ops[s.pc] == (OpView::JNStrictEqK { lhs, k: JS_NULL, target }),
        (s.reg(lhs) == JS_NULL as u64) == !holds,
        place_of(ops, target) == at,
    ensures
        t == gone(s, holds, at),
        reaches(ops, w, s0, t),
{
    reveal(step);
    lemma_same_null(w, s.made, s.reg(lhs));
    let t = gone(s, holds, at);
    lemma_more(ops, w, s0, s, t);
    t
}

/// A branch on one number being less than another.
pub proof fn lemma_jless(ops: Seq<OpView>, w: World, s0: State, s: State, lhs: VR, rhs: VR, target: u32, bc: u32, holds: bool, at: int) -> (t: State)
    requires
        reaches(ops, w, s0, s),
        ops[s.pc] == (OpView::JLess { lhs, rhs, target, bc }),
        is_int32(s.reg(lhs)),
        is_int32(s.reg(rhs)),
        (low(s.reg(lhs)) < low(s.reg(rhs))) == holds,
        place_of(ops, target) == at,
    ensures
        t == gone(s, holds, at),
        reaches(ops, w, s0, t),
{
    reveal(step);
    let t = gone(s, holds, at);
    lemma_more(ops, w, s0, s, t);
    t
}

/// A branch on the opposite.
pub proof fn lemma_jnless(ops: Seq<OpView>, w: World, s0: State, s: State, lhs: VR, rhs: VR, target: u32, bc: u32, holds: bool, at: int) -> (t: State)
    requires
        reaches(ops, w, s0, s),
        ops[s.pc] == (OpView::JNLess { lhs, rhs, target, bc }),
        is_int32(s.reg(lhs)),
        is_int32(s.reg(rhs)),
        (low(s.reg(lhs)) < low(s.reg(rhs))) == !holds,
        place_of(ops, target) == at,
    ensures
        t == gone(s, holds, at),
        reaches(ops, w, s0, t),
{
    reveal(step);
    let t = gone(s, holds, at);
    lemma_more(ops, w, s0, s, t);
    t
}

/// The function returns.
pub proof fn lemma_ret(ops: Seq<OpView>, w: World, s0: State, s: State, v: u64)
    requires
        reaches(ops, w, s0, s),
        match ops[s.pc] {
            Operation::Ret(Some(r)) => v == s.reg(r),
            Operation::Ret(None) => v == JS_UNDEFINED as u64,
            Operation::RetK(k) => v == k as u64,
            _ => false,
        },
    ensures
        ends(ops, w, s0, s.made, v),
{
    reveal(step);
    lemma_done(ops, w, s0, s, s.made, v);
}

} // verus!
