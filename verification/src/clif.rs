//! A model of a Cranelift function under construction.
//!
//! [`Clif`] says what a function builder holds while no block is sealed: the
//! instructions appended so far, in the order in which they were created, each with
//! the block that it stands in; the type of every value; what is known of every
//! block; and, per block, the value that each variable has at that point. The
//! builder's operations are the functions of [`Clif`] that return a new [`Clif`].
use vstd::prelude::*;

verus! {

/// The integer types that the emitted code uses.
#[derive(Clone, Copy, Debug, PartialEq, Eq, Structural)]
pub enum Ty {
    I8,
    I32,
    I64,
}

/// An SSA value, by number.
#[derive(Clone, Copy, Debug, PartialEq, Eq, Structural)]
pub struct Value {
    pub id: u32,
}

/// A basic block, by number.
#[derive(Clone, Copy, Debug, PartialEq, Eq, Structural)]
pub struct Block {
    pub id: u32,
}

/// A mutable variable of the function builder, by number.
#[derive(Clone, Copy, Debug, PartialEq, Eq, Structural)]
pub struct Variable {
    pub id: u32,
}

/// A function that the function being built may call, by number.
#[derive(Clone, Copy, Debug, PartialEq, Eq, Structural)]
pub struct FuncRef {
    pub id: u32,
}

/// A stack slot of the function being built, by number.
#[derive(Clone, Copy, Debug, PartialEq, Eq, Structural)]
pub struct StackSlot {
    pub id: u32,
}

/// An instruction, by number.
#[derive(Clone, Copy, Debug, PartialEq, Eq, Structural)]
pub struct InstId {
    pub id: u32,
}

/// What a memory access may assume.
#[derive(Clone, Copy, Debug, PartialEq, Eq, Structural)]
pub enum Flags {
    /// Aligned, cannot trap.
    Trusted,
    /// Aligned, cannot trap, and the memory does not change.
    ReadOnly,
    /// Cannot trap.
    NoTrap,
}

/// Integer comparisons.
#[derive(Clone, Copy, Debug, PartialEq, Eq, Structural)]
pub enum Cond {
    Equal,
    SignedLessThan,
    UnsignedLessThan,
    UnsignedGreaterThanOrEqual,
}

/// Instructions with two operands and one result of the type of the first.
#[derive(Clone, Copy, Debug, PartialEq, Eq, Structural)]
pub enum BinaryOp {
    Band,
    Bor,
    Bxor,
    Iadd,
    Ishl,
    Sshr,
}

/// Changes of width.
#[derive(Clone, Copy, Debug, PartialEq, Eq, Structural)]
pub enum Resize {
    Sextend,
    Uextend,
    Ireduce,
}

/// Calling conventions.
#[derive(Clone, Copy, Debug, PartialEq, Eq, Structural)]
pub enum CallConv {
    SystemV,
    PreserveAll,
}

/// What a function takes and returns.
pub struct Prototype {
    pub conv: CallConv,
    pub params: Vec<Ty>,
    pub returns: Vec<Ty>,
}

/// The view of a [`Prototype`].
#[verifier::ext_equal]
pub struct Sig {
    pub conv: CallConv,
    pub params: Seq<Ty>,
    pub returns: Seq<Ty>,
}

impl View for Prototype {
    type V = Sig;

    open spec fn view(&self) -> Sig {
        Sig { conv: self.conv, params: self.params@, returns: self.returns@ }
    }
}

/// An instruction with its operands.
#[verifier::ext_equal]
#[allow(inconsistent_fields)]
pub enum Inst {
    Iconst { ty: Ty, imm: i64 },
    Binary { op: BinaryOp, x: Value, y: Value },
    Compare { cond: Cond, x: Value, y: Value },
    Resize { op: Resize, ty: Ty, x: Value },
    SaddOverflow { x: Value, y: Value },
    Load { ty: Ty, flags: Flags, addr: Value, offset: i32 },
    Store { flags: Flags, x: Value, addr: Value, offset: i32 },
    StackAddr { ty: Ty, slot: StackSlot, offset: i32 },
    Call { callee: FuncRef, args: Seq<Value> },
    Brif {
        cond: Value,
        then_block: Block,
        then_args: Seq<Value>,
        else_block: Block,
        else_args: Seq<Value>,
    },
    Jump { to: Block, args: Seq<Value> },
    Return { args: Seq<Value> },
}

impl Inst {
    /// No instruction follows a terminator in its block.
    pub open spec fn is_terminator(self) -> bool {
        match self {
            Inst::Brif { .. } => true,
            Inst::Jump { .. } => true,
            Inst::Return { .. } => true,
            _ => false,
        }
    }

    /// Control may go to the block `b`.
    pub open spec fn leads_to(self, b: Block) -> bool {
        match self {
            Inst::Brif { then_block, else_block, .. } => then_block == b || else_block == b,
            Inst::Jump { to, .. } => to == b,
            _ => false,
        }
    }

    /// No branch passes more than one value.
    pub open spec fn passes_one(self) -> bool {
        match self {
            Inst::Brif { then_args, else_args, .. } => then_args.len() <= 1 && else_args.len() <= 1,
            Inst::Jump { args, .. } => args.len() <= 1,
            _ => true,
        }
    }
}

/// An instruction where it stands, with its results.
#[verifier::ext_equal]
pub struct Line {
    pub block: Block,
    pub inst: Inst,
    pub results: Seq<Value>,
}

impl Line {
    /// What stands in the place of this line once the blocks are sealed: the same, but that
    /// a branch also passes the values of variables that the block it goes to was found to
    /// read.
    pub open spec fn becomes(self, after: Line) -> bool {
        &&& after.block == self.block
        &&& after.results == self.results
        &&& match (self.inst, after.inst) {
            (
                Inst::Brif { cond, then_block, then_args, else_block, else_args },
                Inst::Brif {
                    cond: cond2,
                    then_block: then_block2,
                    then_args: then_args2,
                    else_block: else_block2,
                    else_args: else_args2,
                },
            ) => {
                &&& cond2 == cond
                &&& then_block2 == then_block
                &&& then_args.is_prefix_of(then_args2)
                &&& else_block2 == else_block
                &&& else_args.is_prefix_of(else_args2)
            },
            (Inst::Jump { to, args }, Inst::Jump { to: to2, args: args2 }) => {
                &&& to2 == to
                &&& args.is_prefix_of(args2)
            },
            (inst, inst2) => inst2 == inst,
        }
    }
}

/// How far a block has come.
pub enum Status {
    /// Nothing stands in it and nothing was read in it.
    Empty,
    /// It is being filled.
    Partial,
    /// It ends in a terminator.
    Filled,
}

/// What is known of a block.
#[verifier::ext_equal]
pub struct BlockInfo {
    /// The parameters that branches to the block pass a value for.
    pub args: Seq<Value>,
    /// The variables that were read in the block before the block gave them a value, in that
    /// order, each with what the read gave: a further parameter of the block, behind `args`.
    pub phis: Seq<(Variable, Value)>,
    pub cold: bool,
    pub status: Status,
}

impl BlockInfo {
    /// The variables that were read in the block before the block gave them a value.
    pub open spec fn phi_vars(self) -> Seq<Variable> {
        self.phis.map_values(|phi: (Variable, Value)| phi.0)
    }
}

/// What does not change while code is appended.
#[verifier::ext_equal]
pub struct Setup {
    pub signature: Sig,
    /// The number of the function in the module.
    pub own: u32,
    /// The type of each variable.
    pub vars: Seq<Ty>,
    /// The functions that may be called.
    pub callees: Seq<Sig>,
    /// The number of each of them in the module.
    pub names: Seq<u32>,
    /// Size and alignment shift of each stack slot.
    pub slots: Seq<(u32, u8)>,
    /// All blocks are sealed.
    pub sealed: bool,
}

/// A function under construction, with no block sealed unless `sealed` says so.
#[verifier::ext_equal]
pub struct Clif {
    pub setup: Setup,
    /// The instructions in the order in which they were created.
    pub insts: Seq<Line>,
    /// The type of each value.
    pub values: Seq<Ty>,
    /// The value of a variable at the end of what a block holds so far.
    pub defs: Map<(Variable, Block), Value>,
    pub blocks: Seq<BlockInfo>,
    /// The blocks that code was begun in, in that order.
    pub layout: Seq<Block>,
    /// The block that instructions are appended to.
    pub current: Option<Block>,
    /// The values that stand for others, once the blocks are sealed.
    pub aliases: Map<Value, Value>,
}

/// The bits of `imm` that a constant of type `ty` keeps.
pub open spec fn masked(ty: Ty, imm: i64) -> i64 {
    match ty {
        Ty::I8 => imm & 0xff,
        Ty::I32 => imm & 0xffff_ffff,
        Ty::I64 => imm,
    }
}

/// `v` is one of `values`, which are given by their types.
#[verifier::opaque]
pub open spec fn known(values: Seq<Ty>, v: Value) -> bool {
    v.id < values.len()
}

/// The type of `v`, one of `values`.
#[verifier::opaque]
pub open spec fn type_of(values: Seq<Ty>, v: Value) -> Ty {
    values[v.id as int]
}

/// What is one of `values` is one of `more`, with the same type.
pub open spec fn values_grow(values: Seq<Ty>, more: Seq<Ty>) -> bool {
    &&& values.len() <= more.len()
    &&& forall|v: Value|
        #![trigger known(more, v)]
        #![trigger type_of(more, v)]
        known(values, v) ==> known(more, v) && type_of(more, v) == type_of(values, v)
}

impl Clif {
    pub open spec fn info(self, b: Block) -> BlockInfo {
        self.blocks[b.id as int]
    }

    pub open spec fn has_block(self, b: Block) -> bool {
        b.id < self.blocks.len()
    }

    #[verifier::inline]
    pub open spec fn has(self, v: Value) -> bool {
        known(self.values, v)
    }

    #[verifier::inline]
    pub open spec fn ty(self, v: Value) -> Ty {
        type_of(self.values, v)
    }

    /// `v` is a value of type `ty`.
    pub open spec fn is(self, v: Value, ty: Ty) -> bool {
        self.has(v) && self.ty(v) == ty
    }

    pub open spec fn all_typed(self, vs: Seq<Value>, tys: Seq<Ty>) -> bool {
        &&& vs.len() == tys.len()
        &&& forall|i: int| 0 <= i < vs.len() ==> self.is(#[trigger] vs[i], tys[i])
    }

    /// The number that the next value will have.
    pub open spec fn next(self) -> Value {
        Value { id: self.values.len() as u32 }
    }

    /// The number that the value after the next will have.
    pub open spec fn after_next(self) -> Value {
        Value { id: (self.values.len() + 1) as u32 }
    }

    pub open spec fn next_block(self) -> Block {
        Block { id: self.blocks.len() as u32 }
    }

    /// Up to `n` more values, instructions and blocks can be numbered.
    pub open spec fn room(self, n: nat) -> bool {
        &&& self.values.len() + n < u32::MAX
        &&& self.insts.len() + n < u32::MAX
        &&& self.blocks.len() + n < u32::MAX
    }

    /// There is a current block, and it can take instructions.
    pub open spec fn writable(self) -> bool {
        &&& !self.setup.sealed
        &&& self.current is Some
        &&& self.has_block(self.current->0)
        &&& self.info(self.current->0).status !is Filled
    }

    /// The current block holds nothing or is filled.
    pub open spec fn leavable(self) -> bool {
        self.current is Some ==> {
            &&& self.has_block(self.current->0)
            &&& self.info(self.current->0).status !is Partial
        }
    }

    /// A branch to `b` may pass `args`.
    pub open spec fn takes(self, b: Block, args: Seq<Value>) -> bool {
        &&& self.has_block(b)
        &&& args.len() == self.info(b).args.len()
        &&& forall|i: int|
            #![trigger args[i]]
            #![trigger self.info(b).args[i]]
            0 <= i < args.len() ==> {
                &&& self.has(self.info(b).args[i])
                &&& self.is(args[i], self.ty(self.info(b).args[i]))
            }
    }

    /// The operands of `inst` exist and have types that go together.
    pub open spec fn typed(self, inst: Inst) -> bool {
        match inst {
            Inst::Iconst { ty, imm } => imm == masked(ty, imm),
            Inst::Binary { op, x, y } => self.has(x) && self.is(y, self.ty(x)),
            Inst::Compare { cond, x, y } => self.has(x) && self.is(y, self.ty(x)),
            Inst::Resize { op, ty, x } => self.has(x) && match op {
                Resize::Ireduce => narrower(ty, self.ty(x)),
                _ => narrower(self.ty(x), ty),
            },
            Inst::SaddOverflow { x, y } => self.has(x) && self.is(y, self.ty(x)),
            Inst::Load { ty, flags, addr, offset } => self.is(addr, Ty::I64),
            Inst::Store { flags, x, addr, offset } => self.has(x) && self.is(addr, Ty::I64),
            Inst::StackAddr { ty, slot, offset } => slot.id < self.setup.slots.len(),
            Inst::Call { callee, args } => {
                &&& callee.id < self.setup.callees.len()
                &&& self.all_typed(args, self.setup.callees[callee.id as int].params)
            },
            Inst::Brif { cond, then_block, then_args, else_block, else_args } => {
                &&& self.has(cond)
                &&& self.takes(then_block, then_args)
                &&& self.takes(else_block, else_args)
            },
            Inst::Jump { to, args } => self.takes(to, args),
            Inst::Return { args } => self.all_typed(args, self.setup.signature.returns),
        }
    }

    /// The types of the results of `inst`.
    pub open spec fn result_types(self, inst: Inst) -> Seq<Ty> {
        match inst {
            Inst::Iconst { ty, .. } => seq![ty],
            Inst::Binary { x, .. } => seq![self.ty(x)],
            Inst::Compare { .. } => seq![Ty::I8],
            Inst::Resize { ty, .. } => seq![ty],
            Inst::SaddOverflow { x, .. } => seq![self.ty(x), Ty::I8],
            Inst::Load { ty, .. } => seq![ty],
            Inst::StackAddr { ty, .. } => seq![ty],
            Inst::Call { callee, .. } => self.setup.callees[callee.id as int].returns,
            _ => Seq::empty(),
        }
    }

    /// `inst` can be appended to the current block.
    pub open spec fn accepts(self, inst: Inst) -> bool {
        &&& self.writable()
        &&& self.typed(inst)
        &&& self.insts.len() + 1 < u32::MAX
        &&& self.values.len() + self.result_types(inst).len() < u32::MAX
    }

    /// A constant of the type of `x`, then an instruction on `x` and the constant, can be
    /// appended to the current block.
    pub open spec fn accepts_with_constant(self, x: Value) -> bool {
        &&& self.writable()
        &&& self.has(x)
        &&& self.insts.len() + 2 < u32::MAX
        &&& self.values.len() + 2 < u32::MAX
    }

    /// The current block has room for the parameter that a read of `var` may add to it.
    #[verifier::opaque]
    pub open spec fn can_read(self, var: Variable) -> bool {
        let b = self.current->0;
        !self.defs.contains_key((var, b)) ==> self.info(b).args.len() + self.info(b).phis.len()
            <= u16::MAX
    }

    /// Work has begun in the current block.
    pub open spec fn begun(self) -> Clif {
        let b = self.current->0;
        let info = self.info(b);
        if info.status is Empty {
            Clif {
                blocks: self.blocks.update(
                    b.id as int,
                    BlockInfo { status: Status::Partial, ..info },
                ),
                layout: self.layout.push(b),
                ..self
            }
        } else {
            self
        }
    }

    /// `inst` stands at the end of the current block; its results are the next values.
    #[verifier::opaque]
    pub open spec fn push(self, inst: Inst) -> Clif {
        let m = self.begun();
        let b = m.current->0;
        let tys = m.result_types(inst);
        Clif {
            insts: m.insts.push(
                Line {
                    block: b,
                    inst,
                    results: Seq::new(
                        tys.len(),
                        |i: int| Value { id: (m.values.len() + i) as u32 },
                    ),
                },
            ),
            values: m.values + tys,
            blocks: if inst.is_terminator() {
                m.blocks.update(b.id as int, BlockInfo { status: Status::Filled, ..m.info(b) })
            } else {
                m.blocks
            },
            ..m
        }
    }

    /// A new block is there, with the next number.
    #[verifier::opaque]
    pub open spec fn create_block(self) -> Clif {
        Clif {
            blocks: self.blocks.push(
                BlockInfo {
                    args: Seq::empty(),
                    phis: Seq::empty(),
                    cold: false,
                    status: Status::Empty,
                },
            ),
            ..self
        }
    }

    #[verifier::opaque]
    pub open spec fn set_cold(self, b: Block) -> Clif {
        Clif {
            blocks: self.blocks.update(b.id as int, BlockInfo { cold: true, ..self.info(b) }),
            ..self
        }
    }

    /// The next value is a parameter of `b`, of type `ty`.
    #[verifier::opaque]
    pub open spec fn append_param(self, b: Block, ty: Ty) -> Clif {
        Clif {
            values: self.values.push(ty),
            blocks: self.blocks.update(
                b.id as int,
                BlockInfo { args: self.info(b).args.push(self.next()), ..self.info(b) },
            ),
            ..self
        }
    }

    #[verifier::opaque]
    pub open spec fn switch_to(self, b: Block) -> Clif {
        Clif { current: Some(b), ..self }
    }

    #[verifier::opaque]
    pub open spec fn declare_var(self, ty: Ty) -> Clif {
        Clif { setup: Setup { vars: self.setup.vars.push(ty), ..self.setup }, ..self }
    }

    /// The value that a read of `var` gives in the current block.
    #[verifier::opaque]
    pub open spec fn value_of(self, var: Variable) -> Value {
        let key = (var, self.current->0);
        if self.defs.contains_key(key) {
            self.defs[key]
        } else {
            self.next()
        }
    }

    /// `var` was read in the current block.
    #[verifier::opaque]
    pub open spec fn use_var(self, var: Variable) -> Clif {
        let m = self.begun();
        let b = self.current->0;
        if self.defs.contains_key((var, b)) {
            m
        } else {
            Clif {
                values: m.values.push(m.setup.vars[var.id as int]),
                blocks: m.blocks.update(
                    b.id as int,
                    BlockInfo { phis: m.info(b).phis.push((var, m.next())), ..m.info(b) },
                ),
                defs: m.defs.insert((var, b), m.next()),
                ..m
            }
        }
    }

    /// `var` has the value `x` from here on in the current block.
    #[verifier::opaque]
    pub open spec fn def_var(self, var: Variable, x: Value) -> Clif {
        Clif { defs: self.defs.insert((var, self.current->0), x), ..self }
    }

    #[verifier::opaque]
    pub open spec fn create_slot(self, size: u32, align_shift: u8) -> Clif {
        Clif {
            setup: Setup { slots: self.setup.slots.push((size, align_shift)), ..self.setup },
            ..self
        }
    }

    #[verifier::opaque]
    pub open spec fn import(self, sig: Sig, name: u32) -> Clif {
        Clif {
            setup: Setup {
                callees: self.setup.callees.push(sig),
                names: self.setup.names.push(name),
                ..self.setup
            },
            ..self
        }
    }

    /// A function without variables, blocks and code.
    pub open spec fn empty(signature: Sig, own: u32) -> Clif {
        Clif {
            setup: Setup {
                signature,
                own,
                vars: Seq::empty(),
                callees: Seq::empty(),
                names: Seq::empty(),
                slots: Seq::empty(),
                sealed: false,
            },
            insts: Seq::empty(),
            values: Seq::empty(),
            defs: Map::empty(),
            blocks: Seq::empty(),
            layout: Seq::empty(),
            current: None,
            aliases: Map::empty(),
        }
    }

    /// The parameters of the function, as parameters of the block `b`.
    #[verifier::opaque]
    pub open spec fn take_function_params(self, b: Block) -> Clif {
        let tys = self.setup.signature.params;
        Clif {
            values: self.values + tys,
            blocks: self.blocks.update(
                b.id as int,
                BlockInfo {
                    args: self.info(b).args + Seq::new(
                        tys.len(),
                        |i: int| Value { id: (self.values.len() + i) as u32 },
                    ),
                    ..self.info(b)
                },
            ),
            ..self
        }
    }

    /// A read of a variable, with the value that it gives.
    #[verifier::inline]
    pub open spec fn get(self, var: Variable) -> (Clif, Value) {
        (self.use_var(var), self.value_of(var))
    }

    /// An instruction with one result, and that result.
    #[verifier::inline]
    pub open spec fn ins(self, inst: Inst) -> (Clif, Value) {
        (self.push(inst), self.next())
    }

    /// A constant of type `ty`.
    #[verifier::inline]
    pub open spec fn constant(self, ty: Ty, imm: i64) -> (Clif, Value) {
        self.ins(Inst::Iconst { ty, imm: masked(ty, imm) })
    }

    /// A new block.
    #[verifier::inline]
    pub open spec fn new_block(self) -> (Clif, Block) {
        (self.create_block(), self.next_block())
    }

    /// A new block that is cold.
    #[verifier::inline]
    pub open spec fn new_cold_block(self) -> (Clif, Block) {
        (self.create_block().set_cold(self.next_block()), self.next_block())
    }

    /// A new block with one parameter, of type `ty`.
    #[verifier::inline]
    pub open spec fn new_join(self, ty: Ty) -> (Clif, Block) {
        (self.create_block().append_param(self.next_block(), ty), self.next_block())
    }

    /// A conditional branch that passes no arguments.
    #[verifier::inline]
    pub open spec fn branch(self, cond: Value, then_block: Block, else_block: Block) -> Clif {
        self.push(
            Inst::Brif {
                cond,
                then_block,
                then_args: Seq::empty(),
                else_block,
                else_args: Seq::empty(),
            },
        )
    }

    /// A conditional branch that passes one argument if the condition holds.
    #[verifier::inline]
    pub open spec fn branch_with(
        self,
        cond: Value,
        then_block: Block,
        x: Value,
        else_block: Block,
    ) -> Clif {
        self.push(
            Inst::Brif {
                cond,
                then_block,
                then_args: seq![x],
                else_block,
                else_args: Seq::empty(),
            },
        )
    }

    /// A jump that passes no arguments.
    #[verifier::inline]
    pub open spec fn goto(self, to: Block) -> Clif {
        self.push(Inst::Jump { to, args: Seq::empty() })
    }

    /// A jump that passes one argument.
    #[verifier::inline]
    pub open spec fn goto_with(self, to: Block, x: Value) -> Clif {
        self.push(Inst::Jump { to, args: seq![x] })
    }
}

/// `x op y`.
#[verifier::inline]
pub open spec fn binary(op: BinaryOp, x: Value, y: Value) -> Inst {
    Inst::Binary { op, x, y }
}

/// `x` compared with `y`.
#[verifier::inline]
pub open spec fn compare(cond: Cond, x: Value, y: Value) -> Inst {
    Inst::Compare { cond, x, y }
}

/// `x` sign-extended, zero-extended or cut to the type `ty`.
#[verifier::inline]
pub open spec fn resize(op: Resize, ty: Ty, x: Value) -> Inst {
    Inst::Resize { op, ty, x }
}

/// A load of a value of type `ty`.
#[verifier::inline]
pub open spec fn load(ty: Ty, flags: Flags, addr: Value, offset: i32) -> Inst {
    Inst::Load { ty, flags, addr, offset }
}

/// A store that cannot trap.
#[verifier::inline]
pub open spec fn store(x: Value, addr: Value, offset: i32) -> Inst {
    Inst::Store { flags: Flags::Trusted, x, addr, offset }
}

/// Every block is filled.
pub open spec fn all_filled(m: Clif) -> bool {
    forall|i: int| 0 <= i < m.blocks.len() ==> (#[trigger] m.blocks[i]).status is Filled
}

/// `after` is what sealing the blocks of `before`, all of them filled, leaves: each line
/// stays (see [`Line::becomes`]), and so do the parameters of the blocks, but for those that
/// stand for variables. A block that has values for all variables and takes none for them
/// still takes none. Blocks that nothing leads to may have got zeros for variables that they
/// read.
pub open spec fn seals(before: Clif, after: Clif) -> bool {
    &&& after.setup == (Setup { sealed: true, ..before.setup })
    &&& after.layout == before.layout
    &&& after.current == before.current
    &&& before.values.is_prefix_of(after.values)
    &&& after.blocks.len() == before.blocks.len()
    &&& all_filled(after)
    &&& forall|i: int|
        0 <= i < after.blocks.len() ==> {
            &&& (#[trigger] after.blocks[i]).cold == before.blocks[i].cold
            &&& after.blocks[i].args == before.blocks[i].args
        }
    &&& forall|b: Block| #[trigger] before.complete_at(b) ==> after.info(b).phis.len() == 0
    &&& before.insts.len() <= after.insts.len() < u32::MAX
    &&& forall|i: int|
        0 <= i < before.insts.len() ==> before.insts[i].becomes(#[trigger] after.insts[i])
    &&& forall|i: int|
        before.insts.len() <= i < after.insts.len() ==> {
            &&& after.layout.contains((#[trigger] after.insts[i]).block)
            &&& after.insts[i].inst matches Inst::Iconst { ty, imm } && imm == 0
                && before.setup.vars.contains(ty)
        }
}

/// How many of the instructions stand in the block `b`.
pub open spec fn size_of(insts: Seq<Line>, b: Block) -> nat
    decreases insts.len(),
{
    if insts.len() == 0 {
        0
    } else if insts.last().block == b {
        size_of(insts.drop_last(), b) + 1
    } else {
        size_of(insts.drop_last(), b)
    }
}

impl Clif {
    /// Some instruction of `b` is a terminator.
    pub open spec fn ends(self, b: Block) -> bool {
        exists|i: int|
            0 <= i < self.insts.len() && (#[trigger] self.insts[i]).block == b
                && self.insts[i].inst.is_terminator()
    }

    pub open spec fn line_ok(self, line: Line) -> bool {
        &&& self.has_block(line.block)
        &&& self.info(line.block).status !is Empty
        &&& self.typed(line.inst)
        &&& self.all_typed(line.results, self.result_types(line.inst))
    }

    pub open spec fn block_ok(self, b: Block) -> bool {
        let info = self.info(b);
        &&& info.args.len() <= 2
        &&& forall|i: int| 0 <= i < info.args.len() ==> self.has(#[trigger] info.args[i])
        &&& info.phi_vars().no_duplicates()
        &&& forall|i: int|
            0 <= i < info.phis.len() ==> {
                &&& (#[trigger] info.phis[i]).0.id < self.setup.vars.len()
                &&& self.defs.contains_key((info.phis[i].0, b))
            }
        &&& info.status is Empty ==> info.phis.len() == 0
        &&& info.status is Filled <==> self.ends(b)
        &&& info.status !is Empty <==> self.layout.contains(b)
    }

    pub open spec fn def_ok(self, key: (Variable, Block)) -> bool {
        &&& key.0.id < self.setup.vars.len()
        &&& self.has_block(key.1)
        &&& self.is(self.defs[key], self.setup.vars[key.0.id as int])
    }

    /// Every instruction has operands of the types that it asks for, and as many branch
    /// arguments as the block branched to has parameters; nothing follows a terminator in
    /// its block; the filled blocks are those that end in one; and every definition of a
    /// variable has the variable's type.
    #[verifier::opaque]
    pub open spec fn wf(self) -> bool {
        &&& forall|i: int| 0 <= i < self.insts.len() ==> self.line_ok(#[trigger] self.insts[i])
        &&& forall|i: int, j: int|
            0 <= i < j < self.insts.len() && (#[trigger] self.insts[i]).block == (
            #[trigger] self.insts[j]).block ==> !self.insts[i].inst.is_terminator()
        &&& forall|b: Block| #[trigger] self.has_block(b) ==> self.block_ok(b)
        &&& forall|k: (Variable, Block)| #[trigger]
            self.defs.contains_key(k) ==> self.def_ok(k)
        &&& self.current is Some ==> self.has_block(self.current->0)
        &&& self.layout.no_duplicates()
        &&& forall|i: int| 0 <= i < self.layout.len() ==> self.has_block(#[trigger] self.layout[i])
        &&& self.values.len() <= u32::MAX
        &&& self.blocks.len() <= u32::MAX
    }

    /// Every call stands in a cold block, but for calls of `hot`.
    pub open spec fn calls_are_cold(self, hot: FuncRef) -> bool {
        forall|i: int|
            0 <= i < self.insts.len() ==> match (#[trigger] self.insts[i]).inst {
                Inst::Call { callee, .. } => callee == hot || self.info(self.insts[i].block).cold,
                _ => true,
            }
    }

    /// The first variables keep the values `pins`: that is what they have in the first block,
    /// and any other block has them only as the parameters that it takes for them.
    pub open spec fn pinned(self, pins: Seq<Value>) -> bool {
        &&& forall|v: Variable|
            v.id < pins.len() ==> #[trigger] self.defs.contains_key((v, Block { id: 0 }))
                && self.defs[(v, Block { id: 0 })] == pins[v.id as int]
        &&& forall|k: (Variable, Block)| #[trigger]
            self.defs.contains_key(k) && k.0.id < pins.len() && k.1.id != 0 ==> self.info(
                k.1,
            ).phis.contains((k.0, self.defs[k]))
    }

    /// The function has a first block. It is not cold, and takes the parameters of the
    /// function.
    pub open spec fn has_entry(self) -> bool {
        &&& self.layout.len() > 0
        &&& self.has_block(self.layout[0])
        &&& !self.info(self.layout[0]).cold
        &&& self.all_typed(self.info(self.layout[0]).args, self.setup.signature.params)
    }

    /// The block `b` has values for all variables, and takes none for them.
    pub open spec fn complete_at(self, b: Block) -> bool {
        &&& self.has_block(b)
        &&& self.info(b).phis.len() == 0
        &&& forall|v: Variable|
            v.id < self.setup.vars.len() ==> #[trigger] self.defs.contains_key((v, b))
    }

    /// The first block takes two values, but none that stands for a variable: it has values
    /// for all variables. Nothing leads to it.
    #[verifier::opaque]
    pub open spec fn opened(self) -> bool {
        let b = self.layout[0];
        &&& self.layout.len() > 0
        &&& self.info(b).args.len() == 2
        &&& self.info(b).phis.len() == 0
        &&& forall|v: Variable|
            v.id < self.setup.vars.len() ==> #[trigger] self.defs.contains_key((v, b))
        &&& forall|i: int|
            0 <= i < self.insts.len() ==> !(#[trigger] self.insts[i]).inst.leads_to(b)
    }

    /// What all generated code keeps: see [`Clif::calls_are_cold`], [`Clif::pinned`] and
    /// [`Clif::has_entry`].
    #[verifier::opaque]
    pub open spec fn orderly(self, hot: FuncRef, pins: Seq<Value>) -> bool {
        self.calls_are_cold(hot) && self.pinned(pins) && self.has_entry()
    }

    /// `to` has all that `self` has: its values, its blocks with their parameters, its
    /// variables, callees and stack slots.
    pub open spec fn extends_to(self, to: Clif) -> bool {
        &&& values_grow(self.values, to.values)
        &&& self.blocks.len() <= to.blocks.len()
        &&& forall|i: int|
            0 <= i < self.blocks.len() ==> (#[trigger] to.blocks[i]).args == self.blocks[i].args
        &&& self.setup.vars.len() <= to.setup.vars.len()
        &&& forall|i: int| 0 <= i < self.setup.vars.len() ==> to.setup.vars[i] == #[trigger] self.setup.vars[i]
        &&& self.setup.callees.len() <= to.setup.callees.len()
        &&& forall|i: int|
            0 <= i < self.setup.callees.len() ==> to.setup.callees[i] == #[trigger] self.setup.callees[i]
        &&& self.setup.slots.len() <= to.setup.slots.len()
        &&& self.setup.signature == to.setup.signature
    }
}

impl Clif {
    /// `to` is what the current block was finished to: the block and all blocks that were
    /// added end in a terminator, and the other blocks are as they were.
    pub open spec fn finished_in(self, to: Clif) -> bool {
        let b = self.current->0;
        &&& to.wf()
        &&& values_grow(self.values, to.values)
        &&& self.blocks.len() <= to.blocks.len()
        &&& forall|i: int|
            0 <= i < self.blocks.len() && i != b.id ==> #[trigger] to.blocks[i] == self.blocks[i]
        &&& to.info(b).status is Filled
        &&& to.info(b).args == self.info(b).args
        &&& to.info(b).cold == self.info(b).cold
        &&& forall|i: int|
            self.blocks.len() <= i < to.blocks.len() ==> (#[trigger] to.blocks[i]).status is Filled
        &&& to.current is Some
        &&& to.has_block(to.current->0)
        &&& to.info(to.current->0).status is Filled
        &&& to.setup == self.setup
    }

    /// `to` is the function with code appended to the current block, which is not ended.
    pub open spec fn continued_in(self, to: Clif) -> bool {
        let b = self.current->0;
        &&& to.wf()
        &&& to.writable()
        &&& to.current == self.current
        &&& values_grow(self.values, to.values)
        &&& to.blocks.len() == self.blocks.len()
        &&& forall|i: int|
            0 <= i < self.blocks.len() && i != b.id ==> #[trigger] to.blocks[i] == self.blocks[i]
        &&& to.info(b).args == self.info(b).args
        &&& to.info(b).cold == self.info(b).cold
        &&& to.setup == self.setup
    }

    /// At most `n` values, instructions and blocks were added.
    pub open spec fn within(self, to: Clif, n: nat) -> bool {
        &&& to.values.len() <= self.values.len() + n
        &&& to.insts.len() <= self.insts.len() + n
        &&& to.blocks.len() <= self.blocks.len() + n
    }
}

/// What `m` accepts stays well typed in what `m` grows to.
pub proof fn lemma_typed_extends(m: Clif, n: Clif, inst: Inst)
    requires
        m.extends_to(n),
        m.typed(inst),
    ensures
        n.typed(inst),
        n.result_types(inst) == m.result_types(inst),
{
    match inst {
        Inst::Brif { cond, then_block, then_args, else_block, else_args } => {
            lemma_takes_extends(m, n, then_block, then_args);
            lemma_takes_extends(m, n, else_block, else_args);
        },
        Inst::Jump { to, args } => {
            lemma_takes_extends(m, n, to, args);
        },
        _ => {},
    }
}

proof fn lemma_takes_extends(m: Clif, n: Clif, b: Block, args: Seq<Value>)
    requires
        m.extends_to(n),
        m.takes(b, args),
    ensures
        n.takes(b, args),
{
    assert(n.info(b).args == m.info(b).args);
}

/// `a` has fewer bits than `b`.
pub open spec fn narrower(a: Ty, b: Ty) -> bool {
    match (a, b) {
        (Ty::I8, Ty::I32) => true,
        (Ty::I8, Ty::I64) => true,
        (Ty::I32, Ty::I64) => true,
        _ => false,
    }
}

/// What [`Clif::push`] changes.
pub broadcast proof fn push_facts(m: Clif, inst: Inst)
    requires
        m.writable(),
    ensures
        #![trigger m.push(inst)]
        m.push(inst).values.len() == m.values.len() + m.result_types(inst).len(),
        values_grow(m.values, m.push(inst).values),
        m.result_types(inst).len() >= 1 && m.values.len() < u32::MAX ==> m.push(inst).is(
            m.next(),
            m.result_types(inst)[0],
        ),
        m.result_types(inst).len() >= 2 && m.values.len() + 1 < u32::MAX ==> m.push(inst).is(
            m.after_next(),
            m.result_types(inst)[1],
        ),
        m.push(inst).insts.len() == m.insts.len() + 1,
        m.push(inst).blocks.len() == m.blocks.len(),
        m.push(inst).info(m.current->0).args == m.info(m.current->0).args,
        m.push(inst).info(m.current->0).cold == m.info(m.current->0).cold,
        m.push(inst).info(m.current->0).status == if inst.is_terminator() {
            Status::Filled
        } else {
            Status::Partial
        },
        forall|i: int|
            0 <= i < m.blocks.len() && i != m.current->0.id ==> #[trigger] m.push(inst).blocks[i]
                == m.blocks[i],
        m.push(inst).current == m.current,
        m.push(inst).setup == m.setup,
{
    reveal(known);
    reveal(type_of);
    reveal(Clif::push);
}

pub broadcast proof fn create_block_facts(m: Clif)
    ensures
        #![trigger m.create_block()]
        m.create_block().blocks.len() == m.blocks.len() + 1,
        m.create_block().blocks[m.blocks.len() as int] == (BlockInfo {
            args: Seq::empty(),
            phis: Seq::empty(),
            cold: false,
            status: Status::Empty,
        }),
        forall|i: int|
            0 <= i < m.blocks.len() ==> #[trigger] m.create_block().blocks[i] == m.blocks[i],
        m.create_block().values == m.values,
        m.create_block().insts == m.insts,
        m.create_block().current == m.current,
        m.create_block().setup == m.setup,
{
    reveal(Clif::create_block);
}

pub broadcast proof fn set_cold_facts(m: Clif, b: Block)
    requires
        m.has_block(b),
    ensures
        #![trigger m.set_cold(b)]
        m.set_cold(b).blocks.len() == m.blocks.len(),
        m.set_cold(b).info(b) == (BlockInfo { cold: true, ..m.info(b) }),
        forall|i: int|
            0 <= i < m.blocks.len() && i != b.id ==> #[trigger] m.set_cold(b).blocks[i]
                == m.blocks[i],
        m.set_cold(b).values == m.values,
        m.set_cold(b).insts == m.insts,
        m.set_cold(b).current == m.current,
        m.set_cold(b).setup == m.setup,
{
    reveal(Clif::set_cold);
}

pub broadcast proof fn append_param_facts(m: Clif, b: Block, ty: Ty)
    requires
        m.has_block(b),
    ensures
        #![trigger m.append_param(b, ty)]
        m.append_param(b, ty).values.len() == m.values.len() + 1,
        values_grow(m.values, m.append_param(b, ty).values),
        m.values.len() < u32::MAX ==> m.append_param(b, ty).is(m.next(), ty),
        m.append_param(b, ty).blocks.len() == m.blocks.len(),
        m.append_param(b, ty).info(b) == (BlockInfo {
            args: m.info(b).args.push(m.next()),
            ..m.info(b)
        }),
        forall|i: int|
            0 <= i < m.blocks.len() && i != b.id ==> #[trigger] m.append_param(b, ty).blocks[i]
                == m.blocks[i],
        m.append_param(b, ty).insts == m.insts,
        m.append_param(b, ty).current == m.current,
        m.append_param(b, ty).setup == m.setup,
{
    reveal(known);
    reveal(type_of);
    reveal(Clif::append_param);
}

pub broadcast proof fn switch_to_facts(m: Clif, b: Block)
    ensures
        #![trigger m.switch_to(b)]
        m.switch_to(b).current == Some(b),
        m.switch_to(b).values == m.values,
        m.switch_to(b).insts == m.insts,
        m.switch_to(b).blocks == m.blocks,
        m.switch_to(b).setup == m.setup,
{
    reveal(Clif::switch_to);
}

pub broadcast proof fn def_var_facts(m: Clif, var: Variable, x: Value)
    ensures
        #![trigger m.def_var(var, x)]
        m.def_var(var, x).values == m.values,
        m.def_var(var, x).insts == m.insts,
        m.def_var(var, x).blocks == m.blocks,
        m.def_var(var, x).current == m.current,
        m.def_var(var, x).setup == m.setup,
{
    reveal(Clif::def_var);
}

/// What [`Clif::use_var`] changes.
pub broadcast proof fn use_var_facts(m: Clif, var: Variable)
    requires
        m.writable(),
    ensures
        #![trigger m.use_var(var)]
        m.values.len() <= m.use_var(var).values.len() <= m.values.len() + 1,
        values_grow(m.values, m.use_var(var).values),
        m.use_var(var).insts == m.insts,
        m.use_var(var).blocks.len() == m.blocks.len(),
        m.use_var(var).info(m.current->0).args == m.info(m.current->0).args,
        m.use_var(var).info(m.current->0).cold == m.info(m.current->0).cold,
        m.use_var(var).info(m.current->0).status == Status::Partial,
        forall|i: int|
            0 <= i < m.blocks.len() && i != m.current->0.id ==> #[trigger] m.use_var(var).blocks[i]
                == m.blocks[i],
        m.use_var(var).current == m.current,
        m.use_var(var).setup == m.setup,
{
    reveal(known);
    reveal(type_of);
    reveal(Clif::use_var);
}

/// The last instruction after [`Clif::push`].
pub proof fn lemma_pushed(m: Clif, inst: Inst)
    requires
        m.writable(),
    ensures
        m.push(inst).insts == m.insts.push(
            Line {
                block: m.current->0,
                inst,
                results: Seq::new(
                    m.result_types(inst).len(),
                    |i: int| Value { id: (m.values.len() + i) as u32 },
                ),
            },
        ),
{
    reveal(Clif::push);
    assert(m.begun().insts == m.insts);
    assert(m.begun().values == m.values);
    assert(m.begun().result_types(inst) == m.result_types(inst));
}

/// A block is filled if and only if its last instruction is a terminator.
pub proof fn lemma_last_inst(m: Clif, b: Block, last: Option<InstId>)
    requires
        m.wf(),
        m.has_block(b),
        match last {
            Some(inst) => {
                &&& inst.id < m.insts.len()
                &&& m.insts[inst.id as int].block == b
                &&& forall|i: int|
                    inst.id < i < m.insts.len() ==> (#[trigger] m.insts[i]).block != b
            },
            None => forall|i: int| 0 <= i < m.insts.len() ==> (#[trigger] m.insts[i]).block != b,
        },
    ensures
        m.info(b).status is Filled <==> last is Some
            && m.insts[last->0.id as int].inst.is_terminator(),
{
    reveal(Clif::wf);
    assert(m.block_ok(b));
    if m.ends(b) {
        let i = choose|i: int|
            0 <= i < m.insts.len() && (#[trigger] m.insts[i]).block == b
                && m.insts[i].inst.is_terminator();
        assert(m.insts[i].block == b);
        let j = last->0.id as int;
        assert(m.insts[j].block == b);
    }
}

/// What a constant keeps is kept again.
pub broadcast proof fn masked_twice(ty: Ty, imm: i64)
    ensures
        #[trigger] masked(ty, masked(ty, imm)) == masked(ty, imm),
{
    assert((imm & 0xff) & 0xff == imm & 0xff) by (bit_vector);
    assert((imm & 0xffff_ffff) & 0xffff_ffff == imm & 0xffff_ffff) by (bit_vector);
}

/// [`Clif::push`] keeps a function well formed.
pub broadcast proof fn push_wf(m: Clif, inst: Inst)
    requires
        m.wf(),
        m.accepts(inst),
    ensures
        #[trigger] m.push(inst).wf(),
{
    reveal(Clif::wf);
    reveal(known);
    reveal(type_of);
    reveal(Clif::push);
    let n = m.push(inst);
    let c = m.current->0;
    assert(m.block_ok(c));
    assert(m.extends_to(n));
    lemma_typed_extends(m, n, inst);
    assert forall|i: int| 0 <= i < n.insts.len() implies n.line_ok(#[trigger] n.insts[i]) by {
        if i < m.insts.len() {
            assert(m.line_ok(m.insts[i]));
            lemma_typed_extends(m, n, m.insts[i].inst);
        }
    }
    assert forall|i: int, j: int|
        0 <= i < j < n.insts.len() && (#[trigger] n.insts[i]).block == (
        #[trigger] n.insts[j]).block implies !n.insts[i].inst.is_terminator() by {
        if j == m.insts.len() {
            if n.insts[i].inst.is_terminator() {
                assert(m.ends(c));
            }
        }
    }
    assert forall|b: Block| #[trigger] n.has_block(b) implies n.block_ok(b) by {
        assert(m.has_block(b));
        assert(m.block_ok(b));
        if m.ends(b) {
            let i = choose|i: int|
                0 <= i < m.insts.len() && (#[trigger] m.insts[i]).block == b
                    && m.insts[i].inst.is_terminator();
            assert(n.insts[i] == m.insts[i]);
        }
        if b == c && inst.is_terminator() {
            let last = n.insts[m.insts.len() as int];
            assert(n.ends(b));
        }
        if n.ends(b) && !m.ends(b) {
            let i = choose|i: int|
                0 <= i < n.insts.len() && (#[trigger] n.insts[i]).block == b
                    && n.insts[i].inst.is_terminator();
            if i < m.insts.len() {
                assert(n.insts[i] == m.insts[i]);
                assert(m.ends(b));
            }
        }
        lemma_begun_layout(m, b);
    }
    assert forall|k: (Variable, Block)| #[trigger] n.defs.contains_key(k) implies n.def_ok(k) by {
        assert(m.def_ok(k));
    }
    lemma_begun_no_duplicates(m);
}

proof fn lemma_begun_layout(m: Clif, b: Block)
    requires
        m.writable(),
        m.has_block(b),
        m.block_ok(b),
    ensures
        m.begun().layout.contains(b) <==> m.begun().info(b).status !is Empty,
{
    let c = m.current->0;
    if m.info(c).status is Empty {
        let l = m.layout.push(c);
        if m.layout.contains(b) {
            let i = choose|i: int| 0 <= i < m.layout.len() && m.layout[i] == b;
            assert(l[i] == b);
        }
        if b == c {
            assert(l[m.layout.len() as int] == b);
        }
        if l.contains(b) && b != c {
            let i = choose|i: int| 0 <= i < l.len() && l[i] == b;
            assert(m.layout[i] == b);
        }
    }
}

proof fn lemma_begun_no_duplicates(m: Clif)
    requires
        m.writable(),
        m.block_ok(m.current->0),
        m.layout.no_duplicates(),
        forall|i: int| 0 <= i < m.layout.len() ==> m.has_block(#[trigger] m.layout[i]),
    ensures
        m.begun().layout.no_duplicates(),
        forall|i: int|
            0 <= i < m.begun().layout.len() ==> m.begun().has_block(#[trigger] m.begun().layout[i]),
{
}

pub broadcast proof fn create_block_wf(m: Clif)
    requires
        m.wf(),
        m.blocks.len() + 1 < u32::MAX,
    ensures
        #[trigger] m.create_block().wf(),
{
    reveal(Clif::wf);
    reveal(known);
    reveal(type_of);
    reveal(Clif::create_block);
    let n = m.create_block();
    assert(m.extends_to(n));
    lemma_lines_extend(m, n);
    assert forall|b: Block| #[trigger] n.has_block(b) implies n.block_ok(b) by {
        if m.has_block(b) {
            assert(m.block_ok(b));
            lemma_ends_same(m, n, b);
        } else {
            if n.ends(b) {
                let i = choose|i: int|
                    0 <= i < n.insts.len() && (#[trigger] n.insts[i]).block == b
                        && n.insts[i].inst.is_terminator();
                assert(m.line_ok(m.insts[i]));
            }
            if n.layout.contains(b) {
                let i = choose|i: int| 0 <= i < n.layout.len() && n.layout[i] == b;
                assert(m.has_block(m.layout[i]));
            }
        }
    }
    assert forall|k: (Variable, Block)| #[trigger] n.defs.contains_key(k) implies n.def_ok(k) by {
        assert(m.def_ok(k));
    }
    assert forall|i: int| 0 <= i < n.layout.len() implies n.has_block(#[trigger] n.layout[i]) by {
        assert(m.has_block(m.layout[i]));
    }
}

/// Where only the functions, values and blocks grow, the instructions stay well formed.
proof fn lemma_lines_extend(m: Clif, n: Clif)
    requires
        m.wf(),
        m.extends_to(n),
        m.insts == n.insts,
        forall|i: int|
            0 <= i < m.blocks.len() && m.blocks[i].status !is Empty ==> (
            #[trigger] n.blocks[i]).status !is Empty,
    ensures
        forall|i: int| 0 <= i < n.insts.len() ==> n.line_ok(#[trigger] n.insts[i]),
{
    reveal(Clif::wf);
    reveal(known);
    reveal(type_of);
    assert forall|i: int| 0 <= i < n.insts.len() implies n.line_ok(#[trigger] n.insts[i]) by {
        assert(m.line_ok(m.insts[i]));
        lemma_typed_extends(m, n, m.insts[i].inst);
    }
}

proof fn lemma_ends_same(m: Clif, n: Clif, b: Block)
    requires
        m.insts == n.insts,
    ensures
        m.ends(b) == n.ends(b),
{
}

pub broadcast proof fn set_cold_wf(m: Clif, b: Block)
    requires
        m.wf(),
        m.has_block(b),
    ensures
        #[trigger] m.set_cold(b).wf(),
{
    reveal(Clif::wf);
    reveal(known);
    reveal(type_of);
    reveal(Clif::set_cold);
    let n = m.set_cold(b);
    assert(m.extends_to(n));
    lemma_lines_extend(m, n);
    assert forall|a: Block| #[trigger] n.has_block(a) implies n.block_ok(a) by {
        assert(m.has_block(a));
        assert(m.block_ok(a));
        lemma_ends_same(m, n, a);
    }
    assert forall|k: (Variable, Block)| #[trigger] n.defs.contains_key(k) implies n.def_ok(k) by {
        assert(m.def_ok(k));
    }
    assert forall|i: int| 0 <= i < n.layout.len() implies n.has_block(#[trigger] n.layout[i]) by {
        assert(m.has_block(m.layout[i]));
    }
}

pub broadcast proof fn switch_to_wf(m: Clif, b: Block)
    requires
        m.wf(),
        m.has_block(b),
    ensures
        #[trigger] m.switch_to(b).wf(),
{
    reveal(Clif::wf);
    reveal(known);
    reveal(type_of);
    reveal(Clif::switch_to);
    let n = m.switch_to(b);
    assert(m.extends_to(n));
    lemma_lines_extend(m, n);
    assert forall|a: Block| #[trigger] n.has_block(a) implies n.block_ok(a) by {
        assert(m.has_block(a));
        assert(m.block_ok(a));
        lemma_ends_same(m, n, a);
    }
    assert forall|k: (Variable, Block)| #[trigger] n.defs.contains_key(k) implies n.def_ok(k) by {
        assert(m.def_ok(k));
    }
    assert forall|i: int| 0 <= i < n.layout.len() implies n.has_block(#[trigger] n.layout[i]) by {
        assert(m.has_block(m.layout[i]));
    }
}

pub broadcast proof fn def_var_wf(m: Clif, var: Variable, x: Value)
    requires
        m.wf(),
        m.current is Some,
        var.id < m.setup.vars.len(),
        m.is(x, m.setup.vars[var.id as int]),
    ensures
        #[trigger] m.def_var(var, x).wf(),
{
    reveal(Clif::wf);
    reveal(known);
    reveal(type_of);
    reveal(Clif::def_var);
    let n = m.def_var(var, x);
    assert(m.extends_to(n));
    lemma_lines_extend(m, n);
    assert forall|a: Block| #[trigger] n.has_block(a) implies n.block_ok(a) by {
        assert(m.has_block(a));
        assert(m.block_ok(a));
        lemma_ends_same(m, n, a);
    }
    assert forall|k: (Variable, Block)| #[trigger] n.defs.contains_key(k) implies n.def_ok(k) by {
        if k != (var, m.current->0) {
            assert(m.defs.contains_key(k));
            assert(m.def_ok(k));
        }
    }
    assert forall|i: int| 0 <= i < n.layout.len() implies n.has_block(#[trigger] n.layout[i]) by {
        assert(m.has_block(m.layout[i]));
    }
}

pub broadcast proof fn use_var_wf(m: Clif, var: Variable)
    requires
        m.wf(),
        m.writable(),
        var.id < m.setup.vars.len(),
        m.values.len() + 1 < u32::MAX,
    ensures
        #![trigger m.use_var(var)]
        m.use_var(var).wf(),
        m.use_var(var).is(m.value_of(var), m.setup.vars[var.id as int]),
        m.setup.vars.len() + 2 <= u16::MAX ==> m.can_read(var),
{
    reveal(Clif::wf);
    reveal(known);
    reveal(type_of);
    reveal(Clif::use_var);
    reveal(Clif::value_of);
    reveal(Clif::can_read);
    let n = m.use_var(var);
    let c = m.current->0;
    assert(m.block_ok(c));
    assert(m.extends_to(n));
    lemma_lines_extend(m, n);
    assert forall|b: Block| #[trigger] n.has_block(b) implies n.block_ok(b) by {
        assert(m.has_block(b));
        assert(m.block_ok(b));
        lemma_ends_same(m, n, b);
        lemma_begun_layout(m, b);
        if b == c && !m.defs.contains_key((var, c)) {
            let phis = m.info(c).phis;
            assert(n.info(c).phi_vars() =~= m.info(c).phi_vars().push(var));
            assert forall|i: int| 0 <= i < phis.len() implies (#[trigger] phis[i]).0 != var by {
                assert(m.defs.contains_key((phis[i].0, c)));
            }
        }
    }
    assert forall|k: (Variable, Block)| #[trigger] n.defs.contains_key(k) implies n.def_ok(k) by {
        if m.defs.contains_key(k) {
            assert(m.def_ok(k));
        }
    }
    lemma_begun_no_duplicates(m);
    if m.defs.contains_key((var, c)) {
        assert(m.def_ok((var, c)));
    } else {
        assert(n.info(c).phi_vars() =~= m.info(c).phi_vars().push(var));
        lemma_bounded_distinct(n.info(c).phi_vars(), m.setup.vars.len());
    }
}

/// A sequence of distinct variables below `n` has at most `n` of them.
proof fn lemma_bounded_distinct(s: Seq<Variable>, n: nat)
    requires
        s.no_duplicates(),
        forall|i: int| 0 <= i < s.len() ==> (#[trigger] s[i]).id < n,
    ensures
        s.len() <= n,
{
    let ids = s.map_values(|v: Variable| v.id as int);
    assert forall|i: int, j: int| 0 <= i < ids.len() && 0 <= j < ids.len() && i != j implies ids[i]
        != ids[j] by {
        assert(s[i] != s[j]);
    }
    ids.unique_seq_to_set();
    let range = vstd::set_lib::set_int_range(0, n as int);
    vstd::set_lib::lemma_int_range(0, n as int);
    assert(ids.to_set().subset_of(range));
    vstd::set_lib::lemma_len_subset(ids.to_set(), range);
}

/// A block that was just created takes a parameter.
pub broadcast proof fn append_param_wf(m: Clif, b: Block, ty: Ty)
    requires
        m.wf(),
        m.blocks.len() + 1 < u32::MAX,
        m.values.len() + 1 < u32::MAX,
        b == m.next_block(),
    ensures
        #[trigger] m.create_block().append_param(b, ty).wf(),
{
    reveal(Clif::wf);
    reveal(known);
    reveal(type_of);
    reveal(Clif::append_param);
    create_block_wf(m);
    reveal(Clif::create_block);
    let p = m.create_block();
    let n = p.append_param(b, ty);
    assert(m.extends_to(n));
    lemma_lines_extend(m, n);
    assert forall|a: Block| #[trigger] n.has_block(a) implies n.block_ok(a) by {
        assert(p.has_block(a));
        assert(p.block_ok(a));
        lemma_ends_same(p, n, a);
    }
    assert forall|k: (Variable, Block)| #[trigger] n.defs.contains_key(k) implies n.def_ok(k) by {
        assert(m.def_ok(k));
    }
    assert forall|i: int| 0 <= i < n.layout.len() implies n.has_block(#[trigger] n.layout[i]) by {
        assert(p.has_block(p.layout[i]));
    }
}

/// `n` is as orderly as `m`: it adds calls in cold blocks or of `hot` only, and where it has a
/// pinned variable that `m` has not, it has it as a parameter.
proof fn lemma_orderly(m: Clif, n: Clif, hot: FuncRef, pins: Seq<Value>)
    requires
        m.wf(),
        m.orderly(hot, pins),
        m.insts.len() <= n.insts.len(),
        forall|i: int| 0 <= i < m.insts.len() ==> #[trigger] n.insts[i] == m.insts[i],
        forall|i: int|
            m.insts.len() <= i < n.insts.len() ==> match (#[trigger] n.insts[i]).inst {
                Inst::Call { callee, .. } => callee == hot || n.info(n.insts[i].block).cold,
                _ => true,
            },
        m.blocks.len() <= n.blocks.len(),
        forall|i: int|
            0 <= i < m.blocks.len() ==> {
                &&& m.blocks[i].cold ==> (#[trigger] n.blocks[i]).cold
                &&& m.blocks[i].phis.is_prefix_of(n.blocks[i].phis)
                &&& m.blocks[i].status !is Empty ==> n.blocks[i].cold == m.blocks[i].cold
                    && n.blocks[i].args == m.blocks[i].args
            },
        n.setup == m.setup,
        values_grow(m.values, n.values),
        m.layout.is_prefix_of(n.layout),
        forall|k: (Variable, Block)| #[trigger]
            m.defs.contains_key(k) && k.0.id < pins.len() ==> n.defs.contains_key(k) && n.defs[k]
                == m.defs[k],
        forall|k: (Variable, Block)| #[trigger]
            n.defs.contains_key(k) && k.0.id < pins.len() ==> m.defs.contains_key(k) || n.info(
                k.1,
            ).phis.contains((k.0, n.defs[k])),
    ensures
        n.orderly(hot, pins),
{
    reveal(Clif::wf);
    reveal(Clif::orderly);
    assert forall|i: int| 0 <= i < n.insts.len() implies match (#[trigger] n.insts[i]).inst {
        Inst::Call { callee, .. } => callee == hot || n.info(n.insts[i].block).cold,
        _ => true,
    } by {
        if i < m.insts.len() {
            assert(m.line_ok(m.insts[i]));
        }
    }
    assert(n.has_entry()) by {
        let b = m.layout[0];
        assert(n.layout[0] == b);
        assert(m.layout.contains(b));
        assert(m.block_ok(b));
        assert(n.blocks[b.id as int].args == m.blocks[b.id as int].args);
        reveal(known);
        reveal(type_of);
    }
    assert forall|v: Variable| v.id < pins.len() implies #[trigger] n.defs.contains_key(
        (v, Block { id: 0 }),
    ) && n.defs[(v, Block { id: 0 })] == pins[v.id as int] by {
        assert(m.defs.contains_key((v, Block { id: 0 })));
    }
    assert forall|k: (Variable, Block)| #[trigger]
        n.defs.contains_key(k) && k.0.id < pins.len() && k.1.id != 0 implies n.info(
        k.1,
    ).phis.contains((k.0, n.defs[k])) by {
        if m.defs.contains_key(k) {
            assert(m.def_ok(k));
            let phi = (k.0, m.defs[k]);
            let i = choose|i: int| 0 <= i < m.info(k.1).phis.len() && m.info(k.1).phis[i] == phi;
            assert(n.info(k.1).phis[i] == phi);
        }
    }
}

/// Instructions other than calls can stand in any block.
pub broadcast proof fn push_orderly(m: Clif, inst: Inst, hot: FuncRef, pins: Seq<Value>)
    requires
        m.wf(),
        m.orderly(hot, pins),
        m.writable(),
        inst matches Inst::Call { callee, .. } ==> callee == hot || m.info(m.current->0).cold,
    ensures
        #[trigger] m.push(inst).orderly(hot, pins),
{
    reveal(Clif::push);
    reveal(known);
    reveal(type_of);
    lemma_orderly(m, m.push(inst), hot, pins);
}

pub broadcast proof fn create_block_orderly(m: Clif, hot: FuncRef, pins: Seq<Value>)
    requires
        m.wf(),
        m.orderly(hot, pins),
    ensures
        #[trigger] m.create_block().orderly(hot, pins),
{
    reveal(Clif::create_block);
    lemma_orderly(m, m.create_block(), hot, pins);
}

pub broadcast proof fn set_cold_orderly(m: Clif, b: Block, hot: FuncRef, pins: Seq<Value>)
    requires
        m.wf(),
        m.orderly(hot, pins),
        m.has_block(b),
        m.info(b).status is Empty,
    ensures
        #[trigger] m.set_cold(b).orderly(hot, pins),
{
    reveal(Clif::set_cold);
    lemma_orderly(m, m.set_cold(b), hot, pins);
}

pub broadcast proof fn append_param_orderly(m: Clif, b: Block, ty: Ty, hot: FuncRef, pins: Seq<Value>)
    requires
        m.wf(),
        m.orderly(hot, pins),
        m.has_block(b),
        m.info(b).status is Empty,
    ensures
        #[trigger] m.append_param(b, ty).orderly(hot, pins),
{
    reveal(Clif::append_param);
    reveal(known);
    reveal(type_of);
    lemma_orderly(m, m.append_param(b, ty), hot, pins);
}

pub broadcast proof fn switch_to_orderly(m: Clif, b: Block, hot: FuncRef, pins: Seq<Value>)
    requires
        m.wf(),
        m.orderly(hot, pins),
    ensures
        #[trigger] m.switch_to(b).orderly(hot, pins),
{
    reveal(Clif::switch_to);
    lemma_orderly(m, m.switch_to(b), hot, pins);
}

/// Variables that are not pinned can be written.
pub broadcast proof fn def_var_orderly(m: Clif, var: Variable, x: Value, hot: FuncRef, pins: Seq<Value>)
    requires
        m.wf(),
        m.orderly(hot, pins),
        var.id >= pins.len(),
    ensures
        #[trigger] m.def_var(var, x).orderly(hot, pins),
{
    reveal(Clif::def_var);
    lemma_orderly(m, m.def_var(var, x), hot, pins);
}

pub broadcast proof fn use_var_orderly(m: Clif, var: Variable, hot: FuncRef, pins: Seq<Value>)
    requires
        m.wf(),
        m.orderly(hot, pins),
        m.writable(),
    ensures
        #[trigger] m.use_var(var).orderly(hot, pins),
{
    reveal(Clif::use_var);
    reveal(known);
    reveal(type_of);
    let n = m.use_var(var);
    let b = m.current->0;
    if !m.defs.contains_key((var, b)) {
        let phis = n.info(b).phis;
        assert(phis[phis.len() - 1] == (var, m.next()));
    }
    lemma_orderly(m, n, hot, pins);
}

/// The first block of `n` is as it was in `m`, and nothing that is new leads there.
proof fn lemma_opened(m: Clif, n: Clif)
    requires
        m.wf(),
        m.opened(),
        m.insts.len() <= n.insts.len(),
        forall|i: int| 0 <= i < m.insts.len() ==> #[trigger] n.insts[i] == m.insts[i],
        forall|i: int|
            m.insts.len() <= i < n.insts.len() ==> !(#[trigger] n.insts[i]).inst.leads_to(
                m.layout[0],
            ),
        m.blocks.len() <= n.blocks.len(),
        forall|i: int|
            0 <= i < m.blocks.len() && m.blocks[i].status !is Empty ==> {
                &&& (#[trigger] n.blocks[i]).args == m.blocks[i].args
                &&& i == m.layout[0].id ==> n.blocks[i].phis == m.blocks[i].phis
            },
        forall|k: (Variable, Block)| #[trigger]
            m.defs.contains_key(k) ==> n.defs.contains_key(k),
        n.setup == m.setup,
        m.layout.is_prefix_of(n.layout),
    ensures
        n.opened(),
{
    reveal(Clif::wf);
    reveal(Clif::opened);
    let b = m.layout[0];
    assert(n.layout[0] == b);
    assert(m.has_block(b));
    assert(m.layout.contains(b));
    assert(m.block_ok(b));
    assert(n.blocks[b.id as int].args == m.blocks[b.id as int].args);
    assert forall|v: Variable| v.id < n.setup.vars.len() implies #[trigger] n.defs.contains_key(
        (v, b),
    ) by {
        assert(m.defs.contains_key((v, b)));
    }
    assert forall|i: int| 0 <= i < n.insts.len() implies !(#[trigger] n.insts[i]).inst.leads_to(
        b,
    ) by {
        if i < m.insts.len() {
            assert(n.insts[i] == m.insts[i]);
        }
    }
}

pub broadcast proof fn push_opened(m: Clif, inst: Inst)
    requires
        m.wf(),
        m.opened(),
        m.accepts(inst),
        inst.passes_one(),
    ensures
        #[trigger] m.push(inst).opened(),
{
    reveal(Clif::push);
    assert(!inst.leads_to(m.layout[0])) by {
        reveal(Clif::opened);
    }
    lemma_opened(m, m.push(inst));
}

pub broadcast proof fn create_block_opened(m: Clif)
    requires
        m.wf(),
        m.opened(),
    ensures
        #[trigger] m.create_block().opened(),
{
    reveal(Clif::create_block);
    lemma_opened(m, m.create_block());
}

pub broadcast proof fn set_cold_opened(m: Clif, b: Block)
    requires
        m.wf(),
        m.opened(),
        m.has_block(b),
    ensures
        #[trigger] m.set_cold(b).opened(),
{
    reveal(Clif::set_cold);
    lemma_opened(m, m.set_cold(b));
}

pub broadcast proof fn append_param_opened(m: Clif, b: Block, ty: Ty)
    requires
        m.wf(),
        m.opened(),
        m.has_block(b),
        m.info(b).status is Empty,
    ensures
        #[trigger] m.append_param(b, ty).opened(),
{
    reveal(Clif::append_param);
    assert(b != m.layout[0]) by {
        reveal(Clif::wf);
        reveal(Clif::opened);
        assert(m.layout.contains(m.layout[0]));
        assert(m.block_ok(m.layout[0]));
    }
    lemma_opened(m, m.append_param(b, ty));
}

pub broadcast proof fn switch_to_opened(m: Clif, b: Block)
    requires
        m.wf(),
        m.opened(),
    ensures
        #[trigger] m.switch_to(b).opened(),
{
    reveal(Clif::switch_to);
    lemma_opened(m, m.switch_to(b));
}

pub broadcast proof fn def_var_opened(m: Clif, var: Variable, x: Value)
    requires
        m.wf(),
        m.opened(),
    ensures
        #[trigger] m.def_var(var, x).opened(),
{
    reveal(Clif::def_var);
    lemma_opened(m, m.def_var(var, x));
}

pub broadcast proof fn use_var_opened(m: Clif, var: Variable)
    requires
        m.wf(),
        m.opened(),
        m.writable(),
        var.id < m.setup.vars.len(),
    ensures
        #[trigger] m.use_var(var).opened(),
{
    reveal(Clif::use_var);
    assert(m.defs.contains_key((var, m.layout[0]))) by {
        reveal(Clif::opened);
    }
    lemma_opened(m, m.use_var(var));
}

/// A new block takes the parameters of the function.
pub proof fn lemma_take_function_params(m: Clif)
    requires
        m.wf(),
        m.setup.signature.params.len() <= 2,
        m.blocks.len() + 1 < u32::MAX,
        m.values.len() + 2 < u32::MAX,
    ensures
        ({
            let b = m.next_block();
            let n = m.create_block().take_function_params(b);
            &&& n.wf()
            &&& values_grow(m.values, n.values)
            &&& n.values.len() == m.values.len() + m.setup.signature.params.len()
            &&& n.info(b).args.len() == m.setup.signature.params.len()
            &&& n.all_typed(n.info(b).args, m.setup.signature.params)
            &&& n.info(b).status is Empty
            &&& n.blocks.len() == m.blocks.len() + 1
            &&& forall|i: int|
                0 <= i < m.blocks.len() ==> #[trigger] n.blocks[i] == m.blocks[i]
            &&& n.insts == m.insts
            &&& n.current == m.current
            &&& n.setup == m.setup
        }),
{
    reveal(Clif::wf);
    reveal(known);
    reveal(type_of);
    reveal(Clif::take_function_params);
    create_block_wf(m);
    reveal(Clif::create_block);
    let b = m.next_block();
    let p = m.create_block();
    let n = p.take_function_params(b);
    assert(m.extends_to(n));
    lemma_lines_extend(m, n);
    assert forall|a: Block| #[trigger] n.has_block(a) implies n.block_ok(a) by {
        assert(p.has_block(a));
        assert(p.block_ok(a));
        lemma_ends_same(p, n, a);
    }
    assert forall|k: (Variable, Block)| #[trigger] n.defs.contains_key(k) implies n.def_ok(k) by {
        assert(m.def_ok(k));
    }
    assert forall|i: int| 0 <= i < n.layout.len() implies n.has_block(#[trigger] n.layout[i]) by {
        assert(p.has_block(p.layout[i]));
    }
}

/// A function without blocks is well formed.
pub proof fn lemma_empty_wf(m: Clif)
    requires
        m == (Clif { setup: m.setup, ..Clif::empty(m.setup.signature, m.setup.own) }),
    ensures
        m.wf(),
{
    reveal(Clif::wf);
}

pub broadcast group group_clif {
    masked_twice,
    push_facts,
    create_block_facts,
    set_cold_facts,
    append_param_facts,
    switch_to_facts,
    def_var_facts,
    use_var_facts,
    push_wf,
    create_block_wf,
    set_cold_wf,
    switch_to_wf,
    def_var_wf,
    use_var_wf,
    append_param_wf,
    push_orderly,
    create_block_orderly,
    set_cold_orderly,
    append_param_orderly,
    switch_to_orderly,
    def_var_orderly,
    use_var_orderly,
    push_opened,
    create_block_opened,
    set_cold_opened,
    append_param_opened,
    switch_to_opened,
    def_var_opened,
    use_var_opened,
}

} // verus!
