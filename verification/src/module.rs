//! Cranelift's object module and compilation context, behind contracts.
//!
//! As in [`crate::builder`], nothing here is proved: each function makes one call into
//! Cranelift and its contract says what the call does. [`functions`] names the functions
//! that a module declares, in the order of their numbers.
use crate::builder::clif;
use crate::clif::{
    all_filled, seals, size_of, Block, CallConv, Clif, FuncRef, InstId, Prototype, Sig, Ty,
};
use crate::function::generated;
use cranelift_codegen::ir;
use cranelift_codegen::ir::types;
use cranelift_codegen::isa;
use cranelift_codegen::Context;
use cranelift_frontend::FunctionBuilder;
use cranelift_frontend::FunctionBuilderContext;
use cranelift_module::Module;
use cranelift_module::ModuleError;
use cranelift_object::ObjectModule;
use vstd::prelude::*;

verus! {

#[verifier::external_type_specification]
#[verifier::external_body]
pub struct ExObjectModule(ObjectModule);

#[verifier::external_type_specification]
#[verifier::external_body]
pub struct ExModuleError(ModuleError);

#[verifier::external_type_specification]
#[verifier::external_body]
pub struct ExContext(Context);

#[verifier::external_type_specification]
#[verifier::external_body]
pub struct ExFunctionBuilderContext(FunctionBuilderContext);

#[verifier::external_type_specification]
#[verifier::external_body]
pub struct ExSignature(ir::Signature);

/// A function of a module, by number.
#[derive(Clone, Copy, Debug, PartialEq, Eq, Structural)]
pub struct FuncId {
    pub id: u32,
}

/// How visible a function is.
#[derive(Clone, Copy, Debug, PartialEq, Eq, Structural)]
pub enum Linkage {
    Import,
    Local,
    Preemptible,
    Hidden,
    Export,
}

impl Linkage {
    /// The linkage of a function that is declared twice.
    pub open spec fn merge(self, other: Linkage) -> Linkage {
        match (self, other) {
            (Linkage::Import, _) => other,
            (_, Linkage::Import) => self,
            (Linkage::Export, _) => Linkage::Export,
            (_, Linkage::Export) => Linkage::Export,
            (Linkage::Preemptible, _) => Linkage::Preemptible,
            (_, Linkage::Preemptible) => Linkage::Preemptible,
            (Linkage::Hidden, _) => Linkage::Hidden,
            (_, Linkage::Hidden) => Linkage::Hidden,
            (Linkage::Local, Linkage::Local) => Linkage::Local,
        }
    }
}

/// What a module compiles for.
pub struct Target {
    /// The instruction set.
    pub name: String,
    /// Functions are checked before they are compiled.
    pub verifier: bool,
    /// Large stack frames are probed.
    pub probestack: bool,
    /// How much padding stands between blocks, zero for none.
    pub bb_padding: u8,
    /// The binary logarithm of the alignment of functions.
    pub min_alignment: u8,
}

/// The view of a target.
#[verifier::ext_equal]
pub struct TargetView {
    pub name: Seq<char>,
    pub verifier: bool,
    pub probestack: bool,
    pub bb_padding: u8,
    pub min_alignment: u8,
}

impl View for Target {
    type V = TargetView;

    open spec fn view(&self) -> TargetView {
        TargetView {
            name: self.name@,
            verifier: self.verifier,
            probestack: self.probestack,
            bb_padding: self.bb_padding,
            min_alignment: self.min_alignment,
        }
    }
}

impl TargetView {
    /// Functions can be compiled for the target: it has the instruction set that the
    /// layouts of the engine are given for, checks functions, and neither probes the stack
    /// nor pads blocks; and the alignment of functions fits in 32 bits.
    pub open spec fn supported(self) -> bool {
        &&& self.name == "x64"@
        &&& self.verifier
        &&& !self.probestack
        &&& self.bb_padding == 0
        &&& self.min_alignment < 32
    }
}

/// A function that a module declares. The signature is there if [`Sig`] can say it.
#[verifier::ext_equal]
pub struct Declared {
    pub name: Option<Seq<char>>,
    pub linkage: Linkage,
    pub sig: Option<Sig>,
}

impl Declared {
    /// The function once its name is declared again.
    pub open spec fn redeclared(self, linkage: Linkage) -> Declared {
        Declared { linkage: self.linkage.merge(linkage), ..self }
    }
}

/// What a refused declaration of `name` leaves of the functions of a module: all of them,
/// but that the one that has the name may have merged its linkage.
pub open spec fn refused(
    before: Seq<Declared>,
    after: Seq<Declared>,
    name: Seq<char>,
    linkage: Linkage,
) -> bool {
    &&& after.len() == before.len()
    &&& forall|i: int|
        0 <= i < after.len() ==> {
            ||| #[trigger] after[i] == before[i]
            ||| before[i].name == Some(name) && after[i] == before[i].redeclared(linkage)
        }
}

/// The functions that a module declares.
pub uninterp spec fn functions(module: ObjectModule) -> Seq<Declared>;

/// The names of the data objects that a module declares.
pub uninterp spec fn data_names(module: ObjectModule) -> Set<Seq<char>>;

/// The numbers of the functions of a module that have code.
pub uninterp spec fn defined(module: ObjectModule) -> Set<u32>;

/// What a module compiles for.
pub uninterp spec fn target(module: ObjectModule) -> TargetView;

/// What a signature says, if [`Sig`] can say it.
pub uninterp spec fn sig_of(sig: ir::Signature) -> Option<Sig>;

/// The function in a context, if it holds no code yet and [`Sig`] can say its signature.
pub uninterp spec fn unbuilt(ctx: Context) -> Option<Clif>;

/// The function in a context.
pub uninterp spec fn code(ctx: Context) -> Clif;

/// The text of the function in a context.
pub uninterp spec fn text(ctx: Context) -> Seq<char>;

/// No function is being built with the context.
pub uninterp spec fn idle(ctx: FunctionBuilderContext) -> bool;

/// The function that the machine code in a context was compiled from, if there is any.
pub uninterp spec fn compiled(ctx: Context) -> Option<Clif>;

/// `Module::make_signature`, then the fields that a signature consists of.
#[verifier::external_body]
pub(crate) fn make_signature(module: &ObjectModule, sig: &Prototype) -> (r: ir::Signature)
    ensures
        sig_of(r) == Some(sig@),
{
    let param = |ty: &Ty| match ty {
        Ty::I8 => ir::AbiParam::new(types::I8),
        Ty::I32 => ir::AbiParam::new(types::I32),
        Ty::I64 => ir::AbiParam::new(types::I64),
    };
    let mut r = module.make_signature();
    r.call_conv = match sig.conv {
        CallConv::SystemV => isa::CallConv::SystemV,
        CallConv::PreserveAll => isa::CallConv::PreserveAll,
    };
    r.params = sig.params.iter().map(param).collect();
    r.returns = sig.returns.iter().map(param).collect();
    r
}

/// `name` can be declared as a function with the signature `sig`: it holds no null
/// character, no data object has it, and a function that has it has the same signature.
pub open spec fn declarable(module: ObjectModule, name: Seq<char>, sig: Option<Sig>) -> bool {
    &&& !name.contains('\0')
    &&& !data_names(module).contains(name)
    &&& forall|i: int|
        0 <= i < functions(module).len() && (#[trigger] functions(module)[i]).name == Some(name)
            ==> functions(module)[i].sig == sig
}

/// `name` is the name of a function of the module.
pub open spec fn is_declared(module: ObjectModule, name: Seq<char>) -> bool {
    exists|i: int|
        0 <= i < functions(module).len() && (#[trigger] functions(module)[i]).name == Some(name)
}

/// `Module::declare_function`, of an object module: a new name gets the next number. A
/// name that is declared already keeps its number and merges its linkage.
#[verifier::external_body]
pub(crate) fn declare_function(
    module: &mut ObjectModule,
    name: &str,
    linkage: Linkage,
    sig: &ir::Signature,
) -> (r: Result<FuncId, ModuleError>)
    requires
        sig_of(*sig) is Some,
        functions(*old(module)).len() + 1 < u32::MAX,
    ensures
        r is Ok <==> declarable(*old(module), name@, sig_of(*sig)),
        data_names(*final(module)) == data_names(*old(module)),
        defined(*final(module)) == defined(*old(module)),
        target(*final(module)) == target(*old(module)),
        match r {
            Ok(f) => if is_declared(*old(module), name@) {
                let d = functions(*old(module))[f.id as int];
                &&& f.id < functions(*old(module)).len()
                &&& d.name == Some(name@)
                &&& functions(*final(module)) == functions(*old(module)).update(
                    f.id as int,
                    d.redeclared(linkage),
                )
            } else {
                &&& f.id == functions(*old(module)).len()
                &&& functions(*final(module)) == functions(*old(module)).push(
                    Declared { name: Some(name@), linkage, sig: sig_of(*sig) },
                )
                &&& !defined(*final(module)).contains(f.id)
            },
            Err(_) => refused(functions(*old(module)), functions(*final(module)), name@, linkage),
        },
{
    let linkage = match linkage {
        Linkage::Import => cranelift_module::Linkage::Import,
        Linkage::Local => cranelift_module::Linkage::Local,
        Linkage::Preemptible => cranelift_module::Linkage::Preemptible,
        Linkage::Hidden => cranelift_module::Linkage::Hidden,
        Linkage::Export => cranelift_module::Linkage::Export,
    };
    module.declare_function(name, linkage, sig).map(|f| FuncId { id: f.as_u32() })
}

/// `ModuleDeclarations::get_functions`: the functions of a module, in their order.
#[verifier::external_body]
pub(crate) fn get_functions(module: &ObjectModule) -> (r: Vec<FuncId>)
    ensures
        r@ == Seq::new(functions(*module).len(), |i: int| FuncId { id: i as u32 }),
{
    module.declarations().get_functions().map(|(f, _)| FuncId { id: f.as_u32() }).collect()
}

/// `Module::declare_func_in_func`: the function being built may call `f` from here on.
#[verifier::external_body]
pub(crate) fn declare_func_in_func(
    module: &mut ObjectModule,
    f: FuncId,
    b: &mut FunctionBuilder,
) -> (r: FuncRef)
    requires
        f.id < functions(*old(module)).len(),
        functions(*old(module))[f.id as int].sig is Some,
        clif(*old(b)).setup.callees.len() + 1 < u32::MAX,
    ensures
        r.id == clif(*old(b)).setup.callees.len(),
        clif(*final(b)) == clif(*old(b)).import(
            functions(*old(module))[f.id as int].sig->0,
            f.id,
        ),
        functions(*final(module)) == functions(*old(module)),
        data_names(*final(module)) == data_names(*old(module)),
        defined(*final(module)) == defined(*old(module)),
        target(*final(module)) == target(*old(module)),
{
    let f = cranelift_module::FuncId::from_u32(f.id);
    FuncRef { id: module.declare_func_in_func(f, b.func).as_u32() }
}

/// `Module::make_context`, then the signature and the name of the function.
#[verifier::external_body]
pub(crate) fn make_context(module: &ObjectModule, sig: ir::Signature, f: FuncId) -> (r: Context)
    ensures
        sig_of(sig) matches Some(s) ==> unbuilt(r) == Some(Clif::empty(s, f.id)),
{
    let mut ctx = module.make_context();
    ctx.func.signature = sig;
    ctx.func.name = ir::UserFuncName::user(0, f.id);
    ctx
}

/// `FunctionBuilderContext::new`.
#[verifier::external_body]
pub(crate) fn new_builder_context() -> (r: FunctionBuilderContext)
    ensures
        idle(r),
{
    FunctionBuilderContext::new()
}

/// `FunctionBuilder::new`: a builder for the function in `ctx`.
#[verifier::external_body]
pub(crate) fn new_builder<'a>(
    ctx: &'a mut Context,
    builder_ctx: &'a mut FunctionBuilderContext,
) -> (b: FunctionBuilder<'a>)
    requires
        unbuilt(*old(ctx)) is Some,
        idle(*old(builder_ctx)),
    ensures
        clif(b) == unbuilt(*old(ctx))->0,
{
    FunctionBuilder::new(&mut ctx.func, builder_ctx)
}

/// `FunctionBuilder::append_block_params_for_function_params`: the parameters of the
/// function become parameters of a block that nothing was done in yet.
#[verifier::external_body]
pub(crate) fn append_block_params_for_function_params(b: &mut FunctionBuilder, block: Block)
    requires
        clif(*old(b)).has_block(block),
        clif(*old(b)).info(block).status is Empty,
        clif(*old(b)).insts.len() == 0,
        clif(*old(b)).info(block).args.len() + clif(*old(b)).info(block).phis.len() + clif(
            *old(b),
        ).setup.signature.params.len() <= u16::MAX,
        clif(*old(b)).values.len() + clif(*old(b)).setup.signature.params.len() < u32::MAX,
    ensures
        clif(*final(b)) == clif(*old(b)).take_function_params(block),
{
    b.append_block_params_for_function_params(ir::Block::from_u32(block.id));
}

/// What sealing the blocks leaves of a function.
pub uninterp spec fn sealed_as(m: Clif) -> Clif;

/// `FunctionBuilder::seal_all_blocks`, once every block is filled: reads of variables are
/// resolved. Parameters that this adds to blocks, and zeros that stand for variables
/// never written, need numbers: for each block and variable one of both at most. Which
/// values the reads resolve to depends on the function alone.
#[verifier::external_body]
pub(crate) fn seal_all_blocks(b: &mut FunctionBuilder)
    requires
        !clif(*old(b)).setup.sealed,
        clif(*old(b)).wf(),
        all_filled(clif(*old(b))),
        clif(*old(b)).setup.vars.len() + 2 <= u16::MAX,
        clif(*old(b)).values.len() + 2 * (clif(*old(b)).setup.vars.len() * clif(
            *old(b),
        ).blocks.len()) < u32::MAX,
        clif(*old(b)).insts.len() + clif(*old(b)).setup.vars.len() * clif(*old(b)).blocks.len()
            < u32::MAX,
    ensures
        seals(clif(*old(b)), clif(*final(b))),
        clif(*final(b)) == sealed_as(clif(*old(b))),
{
    b.seal_all_blocks();
}

/// At least as many bytes as the stack slots take: their sizes, and what may be lost to the
/// alignment of each.
pub open spec fn slot_bytes(slots: Seq<(u32, u8)>) -> nat
    decreases slots.len(),
{
    if slots.len() == 0 {
        0
    } else {
        let (size, align) = slots.last();
        slot_bytes(slots.drop_last()) + size as nat + vstd::arithmetic::power2::pow2(
            align as nat,
        ) + 8
    }
}

/// A function that is finished: every block is sealed and filled, the first one takes the
/// parameters of the function and nothing else, no branch leads there, the alignments of the
/// stack slots fit in 32 bits, and together they take no more than 2^30 bytes.
pub open spec fn finished(m: Clif) -> bool {
    &&& m.setup.sealed
    &&& all_filled(m)
    &&& m.has_entry()
    &&& m.info(m.layout[0]).phis.len() == 0
    &&& forall|i: int|
        0 <= i < m.insts.len() ==> !(#[trigger] m.insts[i]).inst.leads_to(m.layout[0])
    &&& forall|i: int| 0 <= i < m.setup.slots.len() ==> (#[trigger] m.setup.slots[i]).1 < 32
    &&& slot_bytes(m.setup.slots) <= 0x4000_0000
}

/// The functions that may be called have numbers below `n`.
pub open spec fn calls_within(m: Clif, n: nat) -> bool {
    forall|i: int| 0 <= i < m.setup.names.len() ==> #[trigger] m.setup.names[i] < n
}

/// `Context::for_function`: a context with the function as the builder holds it.
#[verifier::external_body]
pub(crate) fn context_for(b: &FunctionBuilder) -> (r: Context)
    ensures
        code(r) == clif(*b),
{
    Context::for_function(b.func.clone())
}

/// A disassembly is asked for when the function in the context is compiled.
pub uninterp spec fn wants_disassembly(ctx: Context) -> bool;

/// `Context::set_disasm`: whether a disassembly is asked for. The function stays as it is.
#[verifier::external_body]
pub(crate) fn set_disasm(ctx: &mut Context, want: bool)
    ensures
        wants_disassembly(*final(ctx)) == want,
        code(*final(ctx)) == code(*old(ctx)),
        text(*final(ctx)) == text(*old(ctx)),
{
    ctx.set_disasm(want);
}

/// `Module::isa`: the target of a module, by its name and by those of its settings that
/// [`Target`] holds.
#[verifier::external_body]
pub(crate) fn isa_of(module: &ObjectModule) -> (r: Target)
    ensures
        r@ == target(*module),
{
    let flags = module.isa().flags();
    Target {
        name: module.isa().name().to_string(),
        verifier: flags.enable_verifier(),
        probestack: flags.enable_probestack(),
        bb_padding: flags.bb_padding_log2_minus_one(),
        min_alignment: flags.log2_min_function_alignment(),
    }
}

/// `FunctionBuilder::finalize`: every block is sealed and filled. With no values declared
/// to need a stack map, the function stays as it is.
#[verifier::external_body]
pub(crate) fn finalize(b: FunctionBuilder, module: &ObjectModule)
    requires
        clif(b).setup.sealed,
        all_filled(clif(b)),
{
    b.finalize(module.isa().frontend_config());
}

/// `Layout::blocks`: the blocks in the order in which they stand in the function.
#[verifier::external_body]
pub(crate) fn layout_blocks(ctx: &Context) -> (r: Vec<Block>)
    ensures
        r@ == code(*ctx).layout,
{
    ctx.func.layout.blocks().map(|block| Block { id: block.as_u32() }).collect()
}

/// `Layout::block_insts`: the instructions that stand in a block, each once.
#[verifier::external_body]
pub(crate) fn block_insts(ctx: &Context, block: Block) -> (r: Vec<InstId>)
    requires
        code(*ctx).layout.contains(block),
    ensures
        r@.no_duplicates(),
        forall|i: int|
            0 <= i < r@.len() ==> (#[trigger] r@[i]).id < code(*ctx).insts.len() && code(
                *ctx,
            ).insts[r@[i].id as int].block == block,
        r@.len() == size_of(code(*ctx).insts, block),
{
    let insts = ctx.func.layout.block_insts(ir::Block::from_u32(block.id));
    insts.map(|inst| InstId { id: inst.as_u32() }).collect()
}

/// `Function::display`: the text of the function.
#[verifier::external_body]
pub(crate) fn display(ctx: &Context) -> (r: String)
    requires
        finished(code(*ctx)),
    ensures
        r@ == text(*ctx),
{
    format!("{}", ctx.func.display())
}

/// What compiling the function in `ctx` for the target of `module` gives, if it succeeds:
/// the length of the machine code, and the disassembly.
pub uninterp spec fn outcome(module: ObjectModule, ctx: Context) -> Option<(nat, Seq<char>)>;

/// `Module::define_function`, of an object module with a supported target: compiles the
/// finished function in `ctx`, which is the one of a body (see [`generated`]) and calls
/// functions of the module only. That succeeds if the compiler accepts the function, which
/// depends on the module and the context alone, and if the number is neither that of an
/// imported function nor that of one that has code. Then `ctx` holds the machine code, and
/// the disassembly if it was asked for. Which functions the compiler accepts, and which code
/// it makes of them, is not stated.
#[verifier::external_body]
pub(crate) fn define_function(module: &mut ObjectModule, f: FuncId, ctx: &mut Context) -> (r:
    Result<(), ModuleError>)
    requires
        f.id < functions(*old(module)).len(),
        target(*old(module)).supported(),
        generated(code(*old(ctx))),
        finished(code(*old(ctx))),
        calls_within(code(*old(ctx)), functions(*old(module)).len()),
    ensures
        functions(*final(module)) == functions(*old(module)),
        data_names(*final(module)) == data_names(*old(module)),
        target(*final(module)) == target(*old(module)),
        r is Ok <==> {
            &&& functions(*old(module))[f.id as int].linkage !is Import
            &&& !defined(*old(module)).contains(f.id)
            &&& outcome(*old(module), *old(ctx)) is Some
        },
        defined(*final(module)) == if r is Ok {
            defined(*old(module)).insert(f.id)
        } else {
            defined(*old(module))
        },
        r is Ok ==> compiled(*final(ctx)) == Some(code(*old(ctx))),
        r is Ok ==> code_size(*final(ctx)) == (outcome(*old(module), *old(ctx))->0).0,
        r is Ok && wants_disassembly(*old(ctx)) ==> disassembly(*final(ctx)) == Some(
            (outcome(*old(module), *old(ctx))->0).1,
        ),
{
    module.define_function(cranelift_module::FuncId::from_u32(f.id), ctx)
}

/// `CompiledCode::code_buffer`: the length of the machine code.
#[verifier::external_body]
pub(crate) fn code_len(ctx: &Context) -> (r: usize)
    requires
        compiled(*ctx) is Some,
    ensures
        r == code_size(*ctx),
{
    ctx.compiled_code().unwrap().code_buffer().len()
}

/// `CompiledCode::vcode`: the disassembly, if there is one.
#[verifier::external_body]
pub(crate) fn vcode(ctx: &Context) -> (r: Option<String>)
    requires
        compiled(*ctx) is Some,
    ensures
        r is Some <==> disassembly(*ctx) is Some,
        r matches Some(s) ==> s@ == disassembly(*ctx)->0,
{
    ctx.compiled_code().unwrap().vcode.clone()
}

/// The length of the compiled code that a context holds.
pub uninterp spec fn code_size(ctx: Context) -> nat;

/// The disassembly that a context holds, if it does.
pub uninterp spec fn disassembly(ctx: Context) -> Option<Seq<char>>;

} // verus!
