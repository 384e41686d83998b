//! From a body to an object: the functions are declared, generated and compiled.
use crate::builder::clif;
use crate::bytecode::{count_ops, n_ops, Body};
use crate::clif::{seals, size_of, Block, CallConv, Clif, Line, Prototype, Ty};
use crate::function::{
    calls_fit, complete, emit_function, entry_sig, fits_compiler, fits_limits, frame_of, generated,
    generated_from, n_vars, program, setup_of, size_bound, slows_declared,
};
use crate::module::{
    block_insts, calls_within, code, code_len, code_size, compiled, context_for,
    data_names, declarable, declare_function, define_function, defined, disassembly, display,
    finalize, finished, functions, get_functions, is_declared, isa_of, layout_blocks,
    make_context, make_signature, new_builder, new_builder_context, outcome, refused,
    seal_all_blocks, sealed_as, set_disasm, slot_bytes, target, text, vcode, wants_disassembly,
    Declared, FuncId, Linkage,
};
use crate::report::{count_mach_instrs, mach_instrs, BodyResult};
use crate::slow::{
    all_slows, slow_abi, slow_paths, slow_sig, symbols_are_distinct, symbols_have_a_capital, Slow,
};
use crate::template::pinned_values;
use cranelift_codegen::Context;
use cranelift_module::ModuleError;
use cranelift_object::ObjectModule;
use vstd::prelude::*;
use vstd::string::StringExecFns;

verus! {

/// Why a function was not built.
pub enum BuildError {
    /// A name could not be declared.
    Declare(ModuleError),
    /// The function could not be compiled.
    Define(ModuleError),
}

/// Whether `n` more functions can be numbered in a module.
pub fn has_room(module: &ObjectModule, n: usize) -> (r: bool)
    ensures
        r == (functions(*module).len() + n < u32::MAX),
{
    let limit: u64 = u32::MAX as u64;
    let count: u64 = get_functions(module).len() as u64;
    count < limit && (n as u64) < limit - count
}

/// Whether functions can be compiled for the target of a module.
pub fn can_compile(module: &ObjectModule) -> (r: bool)
    ensures
        r == target(*module).supported(),
{
    let isa = isa_of(module);
    let x64 = String::from_str("x64");
    isa.name == x64 && isa.verifier && !isa.probestack && isa.bb_padding == 0 && isa.min_alignment
        < 32
}

/// How a slow path is declared.
pub open spec fn slow_declaration(s: Slow, pa: bool) -> Declared {
    Declared { name: Some(s.symbol()), linkage: Linkage::Import, sig: Some(s.abi(pa)) }
}

/// Those of the first `k` slow paths that a module does not declare, as they are declared.
pub open spec fn new_slows(module: ObjectModule, pa: bool, k: int) -> Seq<Declared> {
    slow_paths().take(k).filter(
        |s: Slow| !is_declared(module, s.symbol()),
    ).map_values(|s: Slow| slow_declaration(s, pa))
}

/// The slow path at `k` cannot be declared in a module, and those before it can.
pub open spec fn first_refused(module: ObjectModule, pa: bool, k: int) -> bool {
    &&& 0 <= k < slow_paths().len()
    &&& !declarable(module, slow_paths()[k].symbol(), Some(slow_paths()[k].abi(pa)))
    &&& forall|j: int|
        0 <= j < k ==> declarable(
            module,
            (#[trigger] slow_paths()[j]).symbol(),
            Some(slow_paths()[j].abi(pa)),
        )
}

/// One of the first `k` declarations.
spec fn among(d: Declared, decls: Seq<Declared>, k: int) -> bool {
    exists|j: int| 0 <= j < k && d == #[trigger] decls[j]
}

/// Declares the slow paths. Those that are declared already keep their numbers; the others
/// get the next numbers, in their order.
pub fn declare_slows(module: &mut ObjectModule, preserve_all: bool) -> (r: Result<
    Vec<FuncId>,
    BuildError,
>)
    requires
        functions(*old(module)).len() + slow_paths().len() + 1 < u32::MAX,
    ensures
        r is Ok <==> forall|s: Slow| #[trigger]
            declarable(*old(module), s.symbol(), Some(s.abi(preserve_all))),
        r matches Err(e) ==> {
            &&& e is Declare
            &&& exists|k: int|
                {
                    &&& #[trigger] first_refused(*old(module), preserve_all, k)
                    &&& functions(*final(module)) == functions(*old(module)) + new_slows(
                        *old(module),
                        preserve_all,
                        k,
                    )
                }
        },
        data_names(*final(module)) == data_names(*old(module)),
        defined(*final(module)) == defined(*old(module)),
        target(*final(module)) == target(*old(module)),
        r matches Ok(ids) ==> {
            &&& slows_declared(*final(module), ids@, preserve_all)
            &&& forall|i: int|
                0 <= i < ids@.len() ==> functions(*final(module))[(
                #[trigger] ids@[i]).id as int].name == Some(slow_paths()[i].symbol())
            &&& functions(*final(module)) == functions(*old(module)) + new_slows(
                *old(module),
                preserve_all,
                slow_paths().len() as int,
            )
        },
{
    let slows = all_slows();
    let mut ids: Vec<FuncId> = Vec::new();
    let ghost start = *module;
    let ghost decls = slow_paths().map_values(|s: Slow| slow_declaration(s, preserve_all));
    let n: usize = slows.len();
    proof {
        reveal(Seq::filter);
        assert(functions(start) + new_slows(start, preserve_all, 0) =~= functions(start));
    }
    for k in 0..n
        invariant
            n == slows@.len(),
            slows@ == slow_paths(),
            start == *old(module),
            decls == slow_paths().map_values(|s: Slow| slow_declaration(s, preserve_all)),
            functions(start).len() + n + 1 < u32::MAX,
            functions(start).len() <= functions(*module).len() <= functions(start).len() + k,
            data_names(*module) == data_names(start),
            defined(*module) == defined(start),
            target(*module) == target(start),
            ids@.len() == k,
            forall|i: int|
                0 <= i < functions(start).len() ==> #[trigger] functions(*module)[i] == functions(
                    start,
                )[i],
            forall|i: int|
                functions(start).len() <= i < functions(*module).len() ==> among(
                    #[trigger] functions(*module)[i],
                    decls,
                    k as int,
                ),
            forall|i: int|
                0 <= i < k ==> {
                    &&& (#[trigger] ids@[i]).id < functions(*module).len()
                    &&& functions(*module)[ids@[i].id as int].sig == Some(
                        slow_paths()[i].abi(preserve_all),
                    )
                    &&& functions(*module)[ids@[i].id as int].name == Some(
                        slow_paths()[i].symbol(),
                    )
                },
            forall|i: int|
                0 <= i < k ==> declarable(
                    start,
                    (#[trigger] slow_paths()[i]).symbol(),
                    Some(slow_paths()[i].abi(preserve_all)),
                ),
            functions(*module) == functions(start) + new_slows(start, preserve_all, k as int),
    {
        let s = slows[k];
        let (_, _, name) = slow_sig(s);
        let sig = make_signature(module, &slow_abi(s, preserve_all));
        let ghost before = *module;
        proof {
            lemma_still_declarable(start, before, s, preserve_all, decls, k as int);
        }
        match declare_function(module, name, Linkage::Import, &sig) {
            Ok(f) => {
                ids.push(f);
                proof {
                    let after = functions(*module);
                    assert forall|i: int|
                        0 <= i < functions(start).len() implies #[trigger] after[i] == functions(
                        start,
                    )[i] by {
                        assert(functions(before)[i] == functions(start)[i]);
                    }
                    assert(decls[k as int] == slow_declaration(s, preserve_all));
                    assert forall|i: int|
                        functions(start).len() <= i < after.len() implies among(
                        #[trigger] after[i],
                        decls,
                        k + 1,
                    ) by {
                        if i < functions(before).len() {
                            assert(among(functions(before)[i], decls, k as int));
                            let j = choose|j: int|
                                0 <= j < k && functions(before)[i] == #[trigger] decls[j];
                            assert(after[i] == functions(before)[i]);
                            assert(decls[j] == after[i]);
                        } else {
                            assert(after[i] == decls[k as int]);
                        }
                    }
                    reveal(Seq::filter);
                    assert(slow_paths().take(k + 1).drop_last() =~= slow_paths().take(k as int));
                    assert(after =~= functions(start) + new_slows(start, preserve_all, k + 1));
                }
            },
            Err(e) => {
                proof {
                    assert(functions(*module) =~= functions(before)) by {
                        assert forall|i: int| 0 <= i < functions(before).len() implies #[trigger]
                            functions(*module)[i] == functions(before)[i] by {
                            let d = functions(before)[i];
                            assert(d.redeclared(Linkage::Import) == d);
                        }
                    }
                    assert(slow_paths()[k as int] == s);
                    assert(first_refused(start, preserve_all, k as int));
                }
                return Err(BuildError::Declare(e));
            },
        }
    }
    proof {
        assert forall|s: Slow| #[trigger]
            declarable(start, s.symbol(), Some(s.abi(preserve_all))) by {
            crate::slow::lemma_place(s);
            assert(slow_paths()[s.place()] == s);
        }
    }
    Ok(ids)
}

/// The slow paths that are declared by now do not stand in the way of another one.
proof fn lemma_still_declarable(
    start: ObjectModule,
    now: ObjectModule,
    s: Slow,
    pa: bool,
    decls: Seq<Declared>,
    k: int,
)
    requires
        0 <= k < slow_paths().len(),
        s == slow_paths()[k],
        decls == slow_paths().map_values(|s: Slow| slow_declaration(s, pa)),
        functions(start).len() <= functions(now).len(),
        data_names(now) == data_names(start),
        forall|i: int|
            0 <= i < functions(start).len() ==> #[trigger] functions(now)[i] == functions(start)[i],
        forall|i: int|
            functions(start).len() <= i < functions(now).len() ==> among(
                #[trigger] functions(now)[i],
                decls,
                k,
            ),
    ensures
        declarable(now, s.symbol(), Some(s.abi(pa))) <==> declarable(
            start,
            s.symbol(),
            Some(s.abi(pa)),
        ),
        is_declared(now, s.symbol()) <==> is_declared(start, s.symbol()),
{
    assert forall|i: int| functions(start).len() <= i < functions(now).len() implies (
    #[trigger] functions(now)[i]).name != Some(s.symbol()) by {
        assert(among(functions(now)[i], decls, k));
        let j = choose|j: int| 0 <= j < k && functions(now)[i] == #[trigger] decls[j];
        let t = slow_paths()[j];
        assert(decls[j] == slow_declaration(t, pa));
        if t.symbol() == s.symbol() {
            symbols_are_distinct(s, t);
            assert(s.place() == k);
            assert(t.place() == j);
        }
    }
    if is_declared(start, s.symbol()) {
        let i = choose|i: int|
            0 <= i < functions(start).len() && (#[trigger] functions(start)[i]).name == Some(
                s.symbol(),
            );
        assert(functions(now)[i] == functions(start)[i]);
    }
    if is_declared(now, s.symbol()) {
        let i = choose|i: int|
            0 <= i < functions(now).len() && (#[trigger] functions(now)[i]).name == Some(
                s.symbol(),
            );
        assert(functions(now)[i].name == Some(s.symbol()));
        assert(i < functions(start).len());
        assert(functions(start)[i] == functions(now)[i]);
    }
    if declarable(now, s.symbol(), Some(s.abi(pa))) {
        assert forall|i: int|
            0 <= i < functions(start).len() && (#[trigger] functions(start)[i]).name == Some(
                s.symbol(),
            ) implies functions(start)[i].sig == Some(s.abi(pa)) by {
            assert(functions(now)[i] == functions(start)[i]);
        }
    }
    if declarable(start, s.symbol(), Some(s.abi(pa))) {
        assert forall|i: int|
            0 <= i < functions(now).len() && (#[trigger] functions(now)[i]).name == Some(
                s.symbol(),
            ) implies functions(now)[i].sig == Some(s.abi(pa)) by {
            assert(i < functions(start).len());
            assert(functions(now)[i] == functions(start)[i]);
        }
    }
}

/// The text of a generated function, and how many instructions and blocks it has.
pub struct Listing {
    pub clif_text: String,
    pub clif_instrs: usize,
    pub clif_blocks: usize,
}

/// Machine code: its length, its disassembly, and how many instructions that shows.
pub struct Machine {
    pub text_bytes: usize,
    pub vcode: String,
    pub mach_instrs: usize,
}

/// The symbol of the function of a body.
pub open spec fn function_symbol(name: Seq<char>) -> Seq<char> {
    "aotgen_"@ + name
}

/// The functions of bodies with different names have different symbols, and none of them is
/// that of a slow path.
pub proof fn function_symbols_are_their_own(a: Seq<char>, b: Seq<char>, s: Slow)
    ensures
        function_symbol(a) == function_symbol(b) ==> a == b,
        function_symbol(a) != s.symbol(),
        function_symbol(a).take(7) == "aotgen_"@,
        function_symbol(a).skip(7) == a,
{
    reveal_strlit("aotgen_");
    symbols_have_a_capital(s);
    assert(function_symbol(a)[3] == 'g');
    assert(function_symbol(a).take(7) =~= "aotgen_"@);
    assert(function_symbol(a).skip(7) =~= a);
    assert(function_symbol(b).skip(7) =~= b);
}

/// How the function of a body is declared.
pub open spec fn entry_declaration(name: Seq<char>) -> Declared {
    Declared {
        name: Some(function_symbol(name)),
        linkage: Linkage::Export,
        sig: Some(entry_sig()),
    }
}

/// The sizes of all blocks.
spec fn total_size(insts: Seq<Line>, blocks: Seq<Block>) -> nat
    decreases blocks.len(),
{
    if blocks.len() == 0 {
        0
    } else {
        total_size(insts, blocks.drop_last()) + size_of(insts, blocks.last())
    }
}

/// Where every instruction stands in one of the blocks, the sizes of the blocks add up to
/// the number of the instructions.
proof fn lemma_total_size(insts: Seq<Line>, blocks: Seq<Block>)
    requires
        blocks.no_duplicates(),
        forall|i: int| 0 <= i < insts.len() ==> blocks.contains((#[trigger] insts[i]).block),
    ensures
        total_size(insts, blocks) == insts.len(),
    decreases insts.len(),
{
    if insts.len() == 0 {
        lemma_no_insts(insts, blocks);
    } else {
        let rest = insts.drop_last();
        assert forall|i: int| 0 <= i < rest.len() implies blocks.contains(
            (#[trigger] rest[i]).block,
        ) by {
            assert(rest[i] == insts[i]);
        }
        lemma_total_size(rest, blocks);
        lemma_one_more(insts, blocks);
    }
}

proof fn lemma_no_insts(insts: Seq<Line>, blocks: Seq<Block>)
    requires
        insts.len() == 0,
    ensures
        total_size(insts, blocks) == 0,
    decreases blocks.len(),
{
    if blocks.len() > 0 {
        lemma_no_insts(insts, blocks.drop_last());
    }
}

proof fn lemma_one_more(insts: Seq<Line>, blocks: Seq<Block>)
    requires
        insts.len() > 0,
        blocks.no_duplicates(),
    ensures
        total_size(insts, blocks) == total_size(insts.drop_last(), blocks) + if blocks.contains(
            insts.last().block,
        ) {
            1nat
        } else {
            0nat
        },
    decreases blocks.len(),
{
    if blocks.len() > 0 {
        let b = insts.last().block;
        let rest = blocks.drop_last();
        lemma_one_more(insts, rest);
        if rest.contains(b) {
            let i = choose|i: int| 0 <= i < rest.len() && rest[i] == b;
            assert(blocks[i] == b);
            assert(blocks.last() != b);
        } else if blocks.contains(b) {
            let i = choose|i: int| 0 <= i < blocks.len() && blocks[i] == b;
            if i < rest.len() {
                assert(rest[i] == b);
            }
        }
        if blocks.last() == b {
            assert(blocks[blocks.len() - 1] == b);
        }
    }
}

proof fn lemma_size_take(insts: Seq<Line>, blocks: Seq<Block>, n: int)
    requires
        0 <= n <= blocks.len(),
    ensures
        total_size(insts, blocks.take(n)) <= total_size(insts, blocks),
    decreases blocks.len() - n,
{
    if n < blocks.len() {
        lemma_size_take(insts, blocks, n + 1);
        assert(blocks.take(n + 1).drop_last() =~= blocks.take(n));
    } else {
        assert(blocks.take(n) =~= blocks);
    }
}

/// The text of the function in a context, and how many instructions and blocks it has.
fn list_function(ctx: &Context) -> (r: Listing)
    requires
        finished(code(*ctx)),
        code(*ctx).insts.len() < u32::MAX,
        code(*ctx).layout.no_duplicates(),
        forall|i: int|
            0 <= i < code(*ctx).insts.len() ==> code(*ctx).layout.contains(
                (#[trigger] code(*ctx).insts[i]).block,
            ),
    ensures
        r.clif_text@ == text(*ctx),
        r.clif_instrs == code(*ctx).insts.len(),
        r.clif_blocks == code(*ctx).layout.len(),
{
    let blocks = layout_blocks(ctx);
    let ghost m = code(*ctx);
    proof {
        lemma_total_size(m.insts, m.layout);
        assert(m.layout.take(0) =~= Seq::empty());
    }
    let mut clif_instrs: usize = 0;
    for i in 0..blocks.len()
        invariant
            m == code(*ctx),
            blocks@ == m.layout,
            m.insts.len() < u32::MAX,
            total_size(m.insts, m.layout) == m.insts.len(),
            clif_instrs == total_size(m.insts, m.layout.take(i as int)),
    {
        assert(m.layout.contains(blocks@[i as int]));
        let insts = block_insts(ctx, blocks[i]);
        proof {
            lemma_size_take(m.insts, m.layout, i + 1);
            assert(m.layout.take(i + 1).drop_last() =~= m.layout.take(i as int));
        }
        clif_instrs += insts.len();
    }
    assert(m.layout.take(m.layout.len() as int) =~= m.layout);
    Listing { clif_text: display(ctx), clif_instrs, clif_blocks: blocks.len() }
}

/// A complete function lays out each of its blocks once, and every instruction stands in
/// one of them.
proof fn lemma_complete_layout(m: Clif)
    requires
        complete(m),
    ensures
        m.layout.len() == m.blocks.len(),
        m.layout.no_duplicates(),
        forall|i: int| 0 <= i < m.insts.len() ==> m.layout.contains((#[trigger] m.insts[i]).block),
{
    reveal(Clif::wf);
    let n = m.blocks.len() as int;
    let ids = m.layout.map_values(|b: Block| b.id as int);
    assert forall|i: int, j: int| 0 <= i < ids.len() && 0 <= j < ids.len() && i != j implies ids[i]
        != ids[j] by {
        assert(m.layout[i] != m.layout[j]);
    }
    ids.unique_seq_to_set();
    let range = vstd::set_lib::set_int_range(0, n);
    vstd::set_lib::lemma_int_range(0, n);
    assert forall|k: int| range.contains(k) implies ids.to_set().contains(k) by {
        let b = Block { id: k as u32 };
        assert(m.has_block(b));
        assert(m.block_ok(b));
        assert(m.blocks[k].status is Filled);
        assert(m.layout.contains(b));
        let i = choose|i: int| 0 <= i < m.layout.len() && m.layout[i] == b;
        assert(ids[i] == k);
    }
    assert forall|k: int| ids.to_set().contains(k) implies range.contains(k) by {
        let i = choose|i: int| 0 <= i < ids.len() && ids[i] == k;
        assert(m.has_block(m.layout[i]));
    }
    assert(ids.to_set() =~= range);
    assert forall|i: int| 0 <= i < m.insts.len() implies m.layout.contains(
        (#[trigger] m.insts[i]).block,
    ) by {
        assert(m.line_ok(m.insts[i]));
        assert(m.block_ok(m.insts[i].block));
    }
}

/// Generates the function of a body, in a context from which it can be compiled: it is what
/// sealing leaves of [`program`].
pub fn build_clif(
    module: &mut ObjectModule,
    slow_ids: &Vec<FuncId>,
    body: &Body,
    preserve_all: bool,
) -> (r: Result<(FuncId, Context, Listing), BuildError>)
    requires
        body@.ok(),
        fits_limits(body@),
        slows_declared(*old(module), slow_ids@, preserve_all),
        functions(*old(module)).len() + 1 < u32::MAX,
    ensures
        r is Ok <==> declarable(*old(module), function_symbol(body@.name), Some(entry_sig())),
        r matches Err(e) ==> {
            &&& e is Declare
            &&& refused(
                functions(*old(module)),
                functions(*final(module)),
                function_symbol(body@.name),
                Linkage::Export,
            )
        },
        data_names(*final(module)) == data_names(*old(module)),
        defined(*final(module)) == defined(*old(module)),
        target(*final(module)) == target(*old(module)),
        r matches Ok((f, ctx, listing)) ==> {
            let d = functions(*old(module))[f.id as int];
            &&& if is_declared(*old(module), function_symbol(body@.name)) {
                &&& f.id < functions(*old(module)).len()
                &&& d.name == Some(function_symbol(body@.name))
                &&& functions(*final(module)) == functions(*old(module)).update(
                    f.id as int,
                    d.redeclared(Linkage::Export),
                )
            } else {
                &&& f.id == functions(*old(module)).len()
                &&& functions(*final(module)) == functions(*old(module)).push(
                    entry_declaration(body@.name),
                )
                &&& !defined(*final(module)).contains(f.id)
            }
            &&& slows_declared(*final(module), slow_ids@, preserve_all)
            &&& complete(program(body@, preserve_all, f.id, slow_ids@))
            &&& program(body@, preserve_all, f.id, slow_ids@).setup == setup_of(
                body@,
                preserve_all,
                f.id,
                slow_ids@,
            )
            &&& program(body@, preserve_all, f.id, slow_ids@).calls_are_cold(
                frame_of(body@, preserve_all).callee(Slow::DispatchCall),
            )
            &&& program(body@, preserve_all, f.id, slow_ids@).pinned(pinned_values())
            &&& program(body@, preserve_all, f.id, slow_ids@).has_entry()
            &&& program(body@, preserve_all, f.id, slow_ids@).opened()
            &&& calls_fit(program(body@, preserve_all, f.id, slow_ids@), preserve_all)
            &&& seals(program(body@, preserve_all, f.id, slow_ids@), code(ctx))
            &&& code(ctx) == sealed_as(program(body@, preserve_all, f.id, slow_ids@))
            &&& wants_disassembly(ctx)
            &&& fits_compiler(body@) ==> generated(code(ctx))
            &&& finished(code(ctx))
            &&& calls_within(code(ctx), functions(*final(module)).len())
            &&& listing.clif_text@ == text(ctx)
            &&& listing.clif_instrs == code(ctx).insts.len()
            &&& listing.clif_blocks == code(ctx).blocks.len()
        },
{
    let ghost start = *module;
    let entry = Prototype {
        conv: CallConv::SystemV,
        params: vec![Ty::I64, Ty::I64],
        returns: vec![Ty::I64],
    };
    let sig = make_signature(module, &entry);
    assert(entry@ =~= entry_sig());
    let mut name = String::from_str("aotgen_");
    name.append(body.name);
    assert(name@ =~= function_symbol(body@.name));
    let f = match declare_function(module, name.as_str(), Linkage::Export, &sig) {
        Ok(f) => f,
        Err(e) => {
            return Err(BuildError::Declare(e));
        },
    };
    assert forall|i: int| 0 <= i < slow_ids@.len() implies {
        &&& (#[trigger] slow_ids@[i]).id < functions(*module).len()
        &&& functions(*module)[slow_ids@[i].id as int].sig == Some(
            slow_paths()[i].abi(preserve_all),
        )
    } by {
        assert(slow_ids@[i].id < functions(start).len());
    }
    let mut draft = make_context(module, sig, f);
    let mut builder_ctx = new_builder_context();
    let b = new_builder(&mut draft, &mut builder_ctx);
    let mut b = emit_function(b, module, slow_ids, body, preserve_all);
    let ghost built = clif(b);
    proof {
        lemma_complete_layout(built);
        let v = n_vars(body@);
        let n = size_bound(body@);
        let blocks = built.blocks.len();
        assert(n * (2 * v + 1) == 2 * (v * n) + n) by (nonlinear_arith);
        assert(v * blocks <= v * n) by (nonlinear_arith)
            requires
                blocks <= n,
        ;
    }
    seal_all_blocks(&mut b);
    let mut ctx = context_for(&b);
    set_disasm(&mut ctx, true);
    finalize(b, module);
    proof {
        let m = code(ctx);
        assert(fits_compiler(body@) ==> generated_from(m, body@, preserve_all, f.id, slow_ids@));
        assert(slot_bytes(m.setup.slots) <= 0x4000_0000) by {
            let slots = m.setup.slots;
            assert(slots == seq![(8u32, 3u8)]);
            assert(slots.drop_last() =~= Seq::empty());
            reveal_with_fuel(slot_bytes, 2);
            vstd::arithmetic::power2::lemma2_to64();
        }
        assert(m.has_entry()) by {
            let b = built.layout[0];
            assert(m.blocks[b.id as int].args == built.blocks[b.id as int].args);
            reveal(crate::clif::known);
            reveal(crate::clif::type_of);
        }
        reveal(Clif::opened);
        assert(built.complete_at(built.layout[0]));
        assert forall|i: int| 0 <= i < m.insts.len() implies !(
        #[trigger] m.insts[i]).inst.leads_to(m.layout[0]) by {
            if i < built.insts.len() {
                assert(built.insts[i].becomes(m.insts[i]));
                assert(!built.insts[i].inst.leads_to(built.layout[0]));
            }
        }
        assert forall|i: int| 0 <= i < m.insts.len() implies m.layout.contains(
            (#[trigger] m.insts[i]).block,
        ) by {
            if i < built.insts.len() {
                assert(built.insts[i].becomes(m.insts[i]));
            }
        }
    }
    let listing = list_function(&ctx);
    Ok((f, ctx, listing))
}

/// Compiles the function of a body. That succeeds if the compiler accepts it, and if the number
/// is neither that of an imported function nor that of one that has code.
pub fn compile_body(module: &mut ObjectModule, f: FuncId, ctx: &mut Context) -> (r: Result<
    Machine,
    BuildError,
>)
    requires
        f.id < functions(*old(module)).len(),
        target(*old(module)).supported(),
        generated(code(*old(ctx))),
        finished(code(*old(ctx))),
        calls_within(code(*old(ctx)), functions(*old(module)).len()),
    ensures
        functions(*final(module)) == functions(*old(module)),
        data_names(*final(module)) == data_names(*old(module)),
        target(*final(module)) == target(*old(module)),
        r is Ok <==> {
            &&& functions(*old(module))[f.id as int].linkage !is Import
            &&& !defined(*old(module)).contains(f.id)
            &&& outcome(*old(module), *old(ctx)) is Some
        },
        defined(*final(module)) == if r is Ok {
            defined(*old(module)).insert(f.id)
        } else {
            defined(*old(module))
        },
        match r {
            Ok(machine) => {
                let (len, text) = outcome(*old(module), *old(ctx))->0;
                &&& compiled(*final(ctx)) == Some(code(*old(ctx)))
                &&& machine.text_bytes == len
                &&& code_size(*final(ctx)) == len
                &&& wants_disassembly(*old(ctx)) ==> machine.vcode@ == text
                &&& match disassembly(*final(ctx)) {
                    Some(text) => machine.vcode@ == text,
                    None => machine.vcode@.len() == 0,
                }
                &&& machine.mach_instrs == mach_instrs(machine.vcode@)
            },
            Err(e) => e is Define,
        },
{
    match define_function(module, f, ctx) {
        Ok(()) => {},
        Err(e) => {
            return Err(BuildError::Define(e));
        },
    }
    let text_bytes = code_len(ctx);
    let text = match vcode(ctx) {
        Some(text) => text,
        None => String::from_str(""),
    };
    proof {
        reveal_strlit("");
    }
    let mach_instrs = count_mach_instrs(text.as_str());
    Ok(Machine { text_bytes, vcode: text, mach_instrs })
}

/// What is reported of a body.
pub fn body_result(body: &Body, listing: &Listing, machine: &Machine) -> (r: BodyResult)
    ensures
        r.name@ == body@.name,
        r.n_ops == n_ops(body@.ops),
        r.clif_instrs == listing.clif_instrs,
        r.clif_blocks == listing.clif_blocks,
        r.text_bytes == machine.text_bytes,
        r.mach_instrs == machine.mach_instrs,
{
    BodyResult {
        name: String::from_str(body.name),
        n_ops: count_ops(&body.ops),
        clif_instrs: listing.clif_instrs,
        clif_blocks: listing.clif_blocks,
        text_bytes: machine.text_bytes,
        mach_instrs: machine.mach_instrs,
    }
}

} // verus!
