use clprobe::bodies::{
    body_arehookinputsequal, body_closurevar_fn5, body_scheduler_schedule, body_typedarray_fn1,
    body_updateworkinprogresshook,
};
use clprobe::bytecode::{Body, Op, Operation};
use clprobe::compile::{
    body_result, build_clif, can_compile, compile_body, declare_slows, has_room, BuildError,
};
use clprobe::slow::{slow_index, Slow};
use cranelift_codegen::settings;
use cranelift_codegen::settings::Configurable;
use cranelift_object::{ObjectBuilder, ObjectModule};

fn new_module() -> ObjectModule {
    module_with("enable_verifier", "true")
}

fn module_with(setting: &str, value: &str) -> ObjectModule {
    let mut flags = settings::builder();
    flags.set("opt_level", "speed").unwrap();
    flags.set("enable_verifier", "true").unwrap();
    flags.set("is_pic", "true").unwrap();
    flags.set("preserve_frame_pointers", "true").unwrap();
    flags.set(setting, value).unwrap();
    let isa = cranelift_native::builder().unwrap().finish(settings::Flags::new(flags)).unwrap();
    let names = cranelift_module::default_libcall_names();
    ObjectModule::new(ObjectBuilder::new(isa, "clprobe", names).unwrap())
}

fn probe(ops: Vec<Op>) -> Body {
    Body { name: "probe", n_args: 2, n_locals: 2, ops }
}

fn text(pa: bool, ops: Vec<Op>) -> String {
    let mut module = new_module();
    let slows = declare_slows(&mut module, pa).ok().unwrap();
    let (_, _, listing) = build_clif(&mut module, &slows, &probe(ops), pa).ok().unwrap();
    listing.clif_text
}

/// A line of code without the names of values, the arguments of blocks and calls, and
/// comments.
fn shape(line: &str) -> String {
    let line = line.trim().split("  ;").next().unwrap();
    let line = match line.split_once(" = ") {
        Some((_, rest)) => rest,
        None => line,
    };
    let mut out = String::new();
    let mut depth = 0;
    let mut in_value = false;
    let mut last = ' ';
    for c in line.chars() {
        if c == '(' {
            depth += 1;
        } else if c == ')' {
            depth -= 1;
        } else if depth == 0 {
            if in_value && c.is_ascii_digit() {
                continue;
            }
            in_value = c == 'v' && last == ' ';
            out.push(c);
        }
        last = c;
    }
    let mut out = out.trim_end_matches(':').to_string();
    for op in ["band", "bor", "bxor", "iadd", "ishl", "sshr", "icmp", "store", "sadd_overflow"] {
        for ty in [".i64", ".i32", ".i8"] {
            let typed = format!("{op}{ty} ");
            if out.starts_with(&typed) {
                out = out.replacen(ty, "", 1);
            }
        }
    }
    out
}

/// The code behind the prologue.
fn shapes(pa: bool, ops: Vec<Op>) -> Vec<String> {
    let text = text(pa, ops);
    let code = text.split_once("\nblock0").unwrap().1;
    let lines: Vec<String> = code
        .lines()
        .skip(1)
        .filter(|l| !l.contains(" -> ") && !l.trim().is_empty() && l.trim() != "}")
        .map(shape)
        .collect();
    lines[11..].to_vec()
}

const EXC: &str = "load.i64 notrap aligned v+0x0001_f508";
const STAMP: [&str; 2] = ["iconst.i32 9", "store notrap aligned v, v+36"];
const DONE: [&str; 5] = ["block2", "return v", "block1 cold", "iconst.i64 10", "return v"];

fn check(pa: bool, op: Op, expected: &[&[&str]]) {
    let mut all: Vec<&str> = expected.concat();
    all.extend(DONE);
    assert_eq!(shapes(pa, vec![op, Operation::Ret(Some(1))]), all);
}

fn check_branch(op: Op, expected: &[&[&str]]) {
    let mut all: Vec<&str> = expected.concat();
    all.extend([
        "block3", "iconst.i64 6", "return v", "block2", "iconst.i64 7", "return v",
        "block1 cold", "iconst.i64 10", "return v",
    ]);
    let ops = vec![op, Operation::RetK(6), Operation::Label(3), Operation::RetK(7)];
    assert_eq!(shapes(false, ops), all);
}

#[test]
fn get_by_id_code() {
    check(
        false,
        Operation::GetById { dst: 1, base: 2, md_off: 100, ident: 7, bc: 9 },
        &[
            &["band v, v", "brif v, block4, block3"],
            &["block3", "load.i32 notrap aligned readonly v+100", "load.i32 notrap aligned v", "icmp eq v, v", "brif v, block5, block4", "block5"],
            &["load.i32 notrap aligned readonly v+104", "sextend.i64 v", "iconst.i64 3", "ishl v, v", "iadd v, v"],
            &["load.i64 notrap aligned v+16", "jump block6", "block4 cold"],
            &STAMP,
            &["iconst.i32 9", "iconst.i32 7"],
            &["call fn0"],
            &[EXC],
            &["brif v, block1, block7", "block7", "jump block6", "block6", "jump block2"],
        ],
    );
}

#[test]
fn get_by_id_code_with_out_slot() {
    check(
        true,
        Operation::GetById { dst: 1, base: 2, md_off: 100, ident: 7, bc: 9 },
        &[
            &["band v, v", "brif v, block4, block3"],
            &["block3", "load.i32 notrap aligned readonly v+100", "load.i32 notrap aligned v", "icmp eq v, v", "brif v, block5, block4", "block5"],
            &["load.i32 notrap aligned readonly v+104", "sextend.i64 v", "iconst.i64 3", "ishl v, v", "iadd v, v"],
            &["load.i64 notrap aligned v+16", "jump block6", "block4 cold"],
            &STAMP,
            &["iconst.i32 9", "iconst.i32 7"],
            &["stack_addr.i64 ss0", "call fn0", "stack_addr.i64 ss0", "load.i64 notrap v"],
            &[EXC],
            &["brif v, block1, block7", "block7", "jump block6", "block6", "jump block2"],
        ],
    );
}

#[test]
fn put_by_id_code() {
    check(
        false,
        Operation::PutById { base: 2, val: 1, md_off: 100, ident: 7, bc: 9 },
        &[
            &["band v, v", "brif v, block4, block3"],
            &["block3", "load.i32 notrap aligned readonly v+100", "load.i32 notrap aligned v", "icmp eq v, v", "brif v, block5, block4", "block5"],
            &["load.i32 notrap aligned readonly v+104", "sextend.i64 v", "iconst.i64 3", "ishl v, v", "iadd v, v"],
            &["store notrap aligned v, v+16", "jump block2", "block4 cold"],
            &STAMP,
            &["iconst.i32 9", "iconst.i32 7", "call fn1"],
            &[EXC],
            &["brif v, block1, block2"],
        ],
    );
}

#[test]
fn put_by_id_code_is_the_same_with_out_slot() {
    check(
        true,
        Operation::PutById { base: 2, val: 1, md_off: 100, ident: 7, bc: 9 },
        &[
            &["band v, v", "brif v, block4, block3"],
            &["block3", "load.i32 notrap aligned readonly v+100", "load.i32 notrap aligned v", "icmp eq v, v", "brif v, block5, block4", "block5"],
            &["load.i32 notrap aligned readonly v+104", "sextend.i64 v", "iconst.i64 3", "ishl v, v", "iadd v, v"],
            &["store notrap aligned v, v+16", "jump block2", "block4 cold"],
            &STAMP,
            &["iconst.i32 9", "iconst.i32 7", "call fn1"],
            &[EXC],
            &["brif v, block1, block2"],
        ],
    );
}

#[test]
fn get_by_val_code() {
    check(
        false,
        Operation::GetByVal { dst: 1, base: 2, idx: -1, bc: 9 },
        &[
            &["band v, v", "brif v, block7, block3", "block3", "band v, v", "icmp eq v, v", "brif v, block4, block7"],
            &["block4", "load.i8 notrap aligned v+6", "uextend.i32 v", "iconst.i32 14", "band v, v", "brif v, block5, block7"],
            &["block5", "ireduce.i32 v", "load.i64 notrap aligned v+8", "load.i32 notrap aligned v-8", "icmp ult v, v", "brif v, block6, block7", "block6", "uextend.i64 v", "iconst.i64 3", "ishl v, v", "iadd v, v"],
            &["load.i64 notrap aligned v", "brif v, block8, block7", "block7 cold"],
            &STAMP,
            &["iconst.i32 9", "call fn2"],
            &[EXC],
            &["brif v, block1, block9", "block9", "jump block8", "block8", "jump block2"],
        ],
    );
}

#[test]
fn put_by_val_code() {
    check(
        false,
        Operation::PutByVal { base: 2, idx: -1, val: 1, bc: 9 },
        &[
            &["band v, v", "brif v, block6, block3", "block3", "band v, v", "icmp eq v, v", "brif v, block4, block6", "block4", "ireduce.i32 v", "load.i64 notrap aligned v+8", "load.i32 notrap aligned v-4", "icmp ult v, v", "brif v, block5, block6", "block5", "uextend.i64 v", "iconst.i64 3", "ishl v, v", "iadd v, v"],
            &["store notrap aligned v, v", "jump block2", "block6 cold"],
            &STAMP,
            &["iconst.i32 9", "call fn3"],
            &[EXC],
            &["brif v, block1, block2"],
        ],
    );
}

#[test]
fn put_by_val_code_with_out_slot() {
    check(
        true,
        Operation::PutByVal { base: 2, idx: -1, val: 1, bc: 9 },
        &[
            &["band v, v", "brif v, block6, block3", "block3", "band v, v", "icmp eq v, v", "brif v, block4, block6", "block4", "ireduce.i32 v", "load.i64 notrap aligned v+8", "load.i32 notrap aligned v-4", "icmp ult v, v", "brif v, block5, block6", "block5", "uextend.i64 v", "iconst.i64 3", "ishl v, v", "iadd v, v"],
            &["store notrap aligned v, v", "jump block2", "block6 cold"],
            &STAMP,
            &["iconst.i32 9", "stack_addr.i64 ss0", "call fn3", "stack_addr.i64 ss0", "load.i64 notrap v"],
            &[EXC],
            &["brif v, block1, block2"],
        ],
    );
}

#[test]
fn get_length_code() {
    check(
        false,
        Operation::GetLength { dst: 1, base: 2, bc: 9 },
        &[
            &["band v, v", "brif v, block4, block3", "block3", "load.i8 notrap aligned v+6", "uextend.i32 v", "iconst.i32 14", "band v, v", "brif v, block6, block4", "block6", "load.i64 notrap aligned v+8", "load.i32 notrap aligned v-8", "sextend.i64 v", "bor v, v", "jump block5", "block4 cold"],
            &STAMP,
            &["iconst.i32 9", "call fn4"],
            &[EXC],
            &["brif v, block1, block7", "block7", "jump block5", "block5", "jump block2"],
        ],
    );
}

#[test]
fn add_code() {
    check(
        false,
        Operation::Add { dst: 1, lhs: 2, rhs: -1, bc: 9 },
        &[
            &["band v, v", "band v, v", "band v, v", "icmp eq v, v"],
            &["brif v, block3, block4", "block3", "ireduce.i32 v", "ireduce.i32 v", "sadd_overflow v, v", "brif v, block4, block6", "block6", "sextend.i64 v", "bor v, v", "jump block5", "block4 cold"],
            &STAMP,
            &["call fn5"],
            &[EXC],
            &["brif v, block1, block7", "block7", "jump block5", "block5", "jump block2"],
        ],
    );
}

#[test]
fn add_constant_code() {
    check(
        false,
        Operation::AddK { dst: 1, lhs: 2, k: -1, bc: 9 },
        &[
            &["iconst.i64 -562945658454017"],
            &["band v, v", "band v, v", "band v, v", "icmp eq v, v"],
            &["brif v, block3, block4", "block3", "ireduce.i32 v", "ireduce.i32 v", "sadd_overflow v, v", "brif v, block4, block6", "block6", "sextend.i64 v", "bor v, v", "jump block5", "block4 cold"],
            &STAMP,
            &["call fn5"],
            &[EXC],
            &["brif v, block1, block7", "block7", "jump block5", "block5", "jump block2"],
        ],
    );
}

#[test]
fn inc_code() {
    check(
        false,
        Operation::Inc { dst: 1, bc: 9 },
        &[
            &["iconst.i64 -562949953421311"],
            &["band v, v", "band v, v", "band v, v", "icmp eq v, v"],
            &["brif v, block3, block4", "block3", "ireduce.i32 v", "ireduce.i32 v", "sadd_overflow v, v", "brif v, block4, block6", "block6", "sextend.i64 v", "bor v, v", "jump block5", "block4 cold"],
            &STAMP,
            &["call fn5"],
            &[EXC],
            &["brif v, block1, block7", "block7", "jump block5", "block5", "jump block2"],
        ],
    );
}

#[test]
fn bitop_band_code() {
    check(
        false,
        Operation::BitOp { kind: 0, dst: 1, lhs: 2, rhs: -1, bc: 9 },
        &[
            &["band v, v", "band v, v", "band v, v", "icmp eq v, v"],
            &["brif v, block3, block4", "block3", "ireduce.i32 v", "ireduce.i32 v"],
            &["band v, v"],
            &["sextend.i64 v", "bor v, v", "jump block5", "block4 cold"],
            &STAMP,
            &["call fn8"],
            &[EXC],
            &["brif v, block1, block6", "block6", "jump block5", "block5", "jump block2"],
        ],
    );
}

#[test]
fn bitop_bor_code() {
    check(
        false,
        Operation::BitOp { kind: 1, dst: 1, lhs: 2, rhs: -1, bc: 9 },
        &[
            &["band v, v", "band v, v", "band v, v", "icmp eq v, v"],
            &["brif v, block3, block4", "block3", "ireduce.i32 v", "ireduce.i32 v"],
            &["bor v, v"],
            &["sextend.i64 v", "bor v, v", "jump block5", "block4 cold"],
            &STAMP,
            &["call fn8"],
            &[EXC],
            &["brif v, block1, block6", "block6", "jump block5", "block5", "jump block2"],
        ],
    );
}

#[test]
fn bitop_bxor_code() {
    check(
        false,
        Operation::BitOp { kind: 2, dst: 1, lhs: 2, rhs: -1, bc: 9 },
        &[
            &["band v, v", "band v, v", "band v, v", "icmp eq v, v"],
            &["brif v, block3, block4", "block3", "ireduce.i32 v", "ireduce.i32 v"],
            &["bxor v, v"],
            &["sextend.i64 v", "bor v, v", "jump block5", "block4 cold"],
            &STAMP,
            &["call fn8"],
            &[EXC],
            &["brif v, block1, block6", "block6", "jump block5", "block5", "jump block2"],
        ],
    );
}

#[test]
fn bitop_shift_code() {
    check(
        false,
        Operation::BitOpK { kind: 3, dst: 1, lhs: 2, k: 5, bc: 9 },
        &[
            &["iconst.i64 -562949953421307"],
            &["band v, v", "band v, v", "band v, v", "icmp eq v, v"],
            &["brif v, block3, block4", "block3", "ireduce.i32 v", "ireduce.i32 v"],
            &["iconst.i32 31", "band v, v", "sshr v, v"],
            &["sextend.i64 v", "bor v, v", "jump block5", "block4 cold"],
            &STAMP,
            &["call fn8"],
            &[EXC],
            &["brif v, block1, block6", "block6", "jump block5", "block5", "jump block2"],
        ],
    );
}

#[test]
fn resolve_scope_code() {
    check(
        false,
        Operation::ResolveScope { dst: 1, scope: -1, md_off: 100, bc: 9 },
        &[
            &["load.i32 notrap aligned readonly v+100", "iconst.i32 6", "icmp ult v, v", "brif v, block3, block4", "block3"],
            &["load.i64 notrap aligned readonly v+108", "brif v, block6, block7", "block6", "jump block5", "block7", "jump block5", "block4 cold"],
            &STAMP,
            &["iconst.i32 100", "call fn10"],
            &[EXC],
            &["brif v, block1, block8", "block8", "jump block5", "block5", "jump block2"],
        ],
    );
}

#[test]
fn get_from_scope_code() {
    check(
        false,
        Operation::GetFromScope { dst: 1, scope: -1, md_off: 100, bc: 9 },
        &[
            &["load.i32 notrap aligned readonly v+100", "iconst.i32 6", "icmp ult v, v", "brif v, block3, block4", "block3"],
            &["load.i32 notrap aligned readonly v+116", "sextend.i64 v", "iconst.i64 3", "ishl v, v", "iadd v, v"],
            &["load.i64 notrap aligned v+64", "jump block5", "block4 cold"],
            &STAMP,
            &["iconst.i32 100", "call fn11"],
            &[EXC],
            &["brif v, block1, block6", "block6", "jump block5", "block5", "jump block2"],
        ],
    );
}

#[test]
fn put_to_scope_code() {
    check(
        false,
        Operation::PutToScope { scope: -1, val: 1, md_off: 100, bc: 9 },
        &[
            &["load.i32 notrap aligned readonly v+100", "iconst.i32 6", "icmp ult v, v", "brif v, block3, block4", "block3"],
            &["load.i32 notrap aligned readonly v+116", "sextend.i64 v", "iconst.i64 3", "ishl v, v", "iadd v, v"],
            &["store notrap aligned v, v+64", "jump block2", "block4 cold"],
            &STAMP,
            &["iconst.i32 100", "call fn12"],
            &[EXC],
            &["brif v, block1, block2"],
        ],
    );
}

#[test]
fn call_code() {
    check(
        false,
        Operation::Call { dst: 1, callee: 2, this: 0, args: vec![-1, -2], frame_size: 10, bc: 9 },
        &[
            &["iconst.i64 -80", "iadd v, v", "store notrap aligned v, v+24", "iconst.i32 3", "store notrap aligned v, v+32", "store notrap aligned v, v+40", "store notrap aligned v, v+48", "store notrap aligned v, v+56"],
            &STAMP,
            &["iconst.i32 9", "uextend.i64 v", "call fn13"],
            &[EXC],
            &["brif v, block1, block3", "block3", "jump block2"],
        ],
    );
}

#[test]
fn call_code_is_the_same_with_out_slot() {
    check(
        true,
        Operation::Call { dst: 1, callee: 2, this: 0, args: vec![-1, -2], frame_size: 10, bc: 9 },
        &[
            &["iconst.i64 -80", "iadd v, v", "store notrap aligned v, v+24", "iconst.i32 3", "store notrap aligned v, v+32", "store notrap aligned v, v+40", "store notrap aligned v, v+48", "store notrap aligned v, v+56"],
            &STAMP,
            &["iconst.i32 9", "uextend.i64 v", "call fn13"],
            &[EXC],
            &["brif v, block1, block3", "block3", "jump block2"],
        ],
    );
}

#[test]
fn check_traps_code() {
    check(
        false,
        Operation::CheckTraps { bc: 9 },
        &[
            &["load.i32 notrap aligned v+0x0002_8a40", "iconst.i32 255", "band v, v", "brif v, block3, block2", "block3 cold"],
            &STAMP,
            &["call fn14", "brif v, block1, block2"],
        ],
    );
}

#[test]
fn to_this_code() {
    check(
        false,
        Operation::ToThis,
        &[
            &["band v, v", "brif v, block4, block3", "block3", "load.i8 notrap aligned v+5", "uextend.i32 v", "iconst.i32 23", "icmp uge v, v", "brif v, block2, block4", "block4 cold", "call fn9"],
            &[EXC],
            &["brif v, block1, block5", "block5", "jump block2"],
        ],
    );
}

#[test]
fn neq_null_code() {
    let lines = shapes(false, vec![Operation::NeqNull { dst: 1, src: 2 }, Operation::Ret(Some(1))]);
    assert_eq!(
        lines,
        [
            "iconst.i64 -9", "band v, v", "iconst.i64 2", "icmp eq v, v", "uextend.i64 v",
            "iconst.i64 1", "bxor v, v", "iconst.i64 6", "bor v, v", "return v", "block1 cold",
            "iconst.i64 10", "return v",
        ]
    );
}

#[test]
fn jtrue_code() {
    check_branch(
        Operation::JTrue { cond: 1, target: 3 },
        &[
            &["iconst.i64 1", "bor v, v", "iconst.i64 7", "icmp eq v, v", "brif v, block4, block5", "block4", "iconst.i64 1", "band v, v", "jump block6", "block5 cold", "call fn16", EXC, "brif v, block1, block7", "block7", "jump block6", "block6", "brif v, block2, block3"],
        ],
    );
}

#[test]
fn jfalse_code() {
    check_branch(
        Operation::JFalse { cond: 1, target: 3 },
        &[
            &["iconst.i64 1", "bor v, v", "iconst.i64 7", "icmp eq v, v", "brif v, block4, block5", "block4", "iconst.i64 1", "band v, v", "jump block6", "block5 cold", "call fn16", EXC, "brif v, block1, block7", "block7", "jump block6", "block6", "brif v, block3, block2"],
        ],
    );
}

#[test]
fn jeqnull_code() {
    check_branch(
        Operation::JEqNull { v: 1, target: 3 },
        &[
            &["iconst.i64 -9", "band v, v", "iconst.i64 2", "icmp eq v, v"],
            &["brif v, block2, block3"],
        ],
    );
}

#[test]
fn jneqnull_code() {
    check_branch(
        Operation::JNEqNull { v: 1, target: 3 },
        &[
            &["iconst.i64 -9", "band v, v", "iconst.i64 2", "icmp eq v, v"],
            &["brif v, block3, block2"],
        ],
    );
}

#[test]
fn jstricteq_code() {
    check_branch(
        Operation::JStrictEq { lhs: 1, rhs: 2, target: 3 },
        &[
            &["icmp eq v, v", "brif v, block2, block4", "block4", "band v, v", "band v, v", "bor v, v", "brif v, block5, block6"],
            &["block5", "band v, v", "band v, v", "iconst.i64 0", "icmp eq v, v", "iconst.i64 0", "icmp eq v, v", "bor v, v", "brif v, block3, block6"],
            &["block6 cold", "call fn15", EXC, "brif v, block1, block7", "block7", "brif.i64 v, block2, block3"],
        ],
    );
}

#[test]
fn jnstricteq_code() {
    check_branch(
        Operation::JNStrictEq { lhs: 1, rhs: 2, target: 3 },
        &[
            &["icmp eq v, v", "brif v, block3, block4", "block4", "band v, v", "band v, v", "bor v, v", "brif v, block5, block6"],
            &["block5", "band v, v", "band v, v", "iconst.i64 0", "icmp eq v, v", "iconst.i64 0", "icmp eq v, v", "bor v, v", "brif v, block2, block6"],
            &["block6 cold", "call fn15", EXC, "brif v, block1, block7", "block7", "brif.i64 v, block3, block2"],
        ],
    );
}

#[test]
fn jstricteq_constant_code() {
    check_branch(
        Operation::JStrictEqK { lhs: 1, k: 2, target: 3 },
        &[
            &["iconst.i64 2"],
            &["icmp eq v, v", "brif v, block2, block4", "block4", "band v, v", "band v, v", "bor v, v", "brif v, block5, block6"],
            &["block5", "band v, v", "band v, v", "iconst.i64 0", "icmp eq v, v", "iconst.i64 0", "icmp eq v, v", "bor v, v", "brif v, block3, block6"],
            &["block6 cold", "call fn15", EXC, "brif v, block1, block7", "block7", "brif.i64 v, block2, block3"],
        ],
    );
}

#[test]
fn jnstricteq_constant_code() {
    check_branch(
        Operation::JNStrictEqK { lhs: 1, k: 2, target: 3 },
        &[
            &["iconst.i64 2"],
            &["icmp eq v, v", "brif v, block3, block4", "block4", "band v, v", "band v, v", "bor v, v", "brif v, block5, block6"],
            &["block5", "band v, v", "band v, v", "iconst.i64 0", "icmp eq v, v", "iconst.i64 0", "icmp eq v, v", "bor v, v", "brif v, block2, block6"],
            &["block6 cold", "call fn15", EXC, "brif v, block1, block7", "block7", "brif.i64 v, block3, block2"],
        ],
    );
}

#[test]
fn jless_code() {
    check_branch(
        Operation::JLess { lhs: 1, rhs: 2, target: 3, bc: 9 },
        &[
            &["band v, v", "band v, v", "band v, v", "icmp eq v, v"],
            &["brif v, block4, block5", "block4", "ireduce.i32 v", "ireduce.i32 v", "icmp slt v, v", "jump block6", "block5 cold"],
            &STAMP,
            &["call fn6", "ireduce.i8 v"],
            &[EXC],
            &["brif v, block1, block7", "block7", "jump block6", "block6", "brif v, block2, block3"],
        ],
    );
}

#[test]
fn jnless_code() {
    check_branch(
        Operation::JNLess { lhs: 1, rhs: 2, target: 3, bc: 9 },
        &[
            &["band v, v", "band v, v", "band v, v", "icmp eq v, v"],
            &["brif v, block4, block5", "block4", "ireduce.i32 v", "ireduce.i32 v", "icmp slt v, v", "jump block6", "block5 cold"],
            &STAMP,
            &["call fn6", "ireduce.i8 v"],
            &[EXC],
            &["brif v, block1, block7", "block7", "jump block6", "block6", "brif v, block3, block2"],
        ],
    );
}

#[test]
fn labels_are_entered_from_above_and_by_jumps() {
    let ops = vec![
        Operation::Enter,
        Operation::Label(4),
        Operation::LoopHint,
        Operation::JEqNull { v: 1, target: 8 },
        Operation::Jmp(4),
        Operation::Label(8),
        Operation::Ret(None),
    ];
    assert_eq!(
        shapes(false, ops),
        [
            "jump block2", "block2", "iconst.i64 -9", "band v, v", "iconst.i64 2",
            "icmp eq v, v", "brif v, block3, block4", "block4", "jump block2", "block3",
            "iconst.i64 10", "return v", "block1 cold", "iconst.i64 10", "return v",
        ]
    );
}

#[test]
fn registers_name_this_arguments_and_locals() {
    // v7 is `this`, v8 and v9 the arguments, v12 the scope, v10 undefined
    for (r, v) in [(0, "v7"), (1, "v8"), (2, "v9"), (-1, "v12"), (-2, "v10")] {
        let text = text(false, vec![Operation::Ret(Some(r))]);
        assert!(text.contains(&format!("    return {v}")), "{text}");
    }
    let moved = text(false, vec![Operation::Mov(1, 2), Operation::Ret(Some(1))]);
    assert!(moved.contains("    return v9"));
    let constant = text(false, vec![Operation::MovK(1, 77), Operation::Ret(Some(1))]);
    assert!(constant.contains("v13 = iconst.i64 77") && constant.contains("    return v13"));
}

#[test]
fn the_prologue_reads_the_frame() {
    let text = text(true, vec![Operation::Ret(None)]);
    let lines: Vec<&str> = text.lines().map(|l| l.trim()).collect();
    let start = lines.iter().position(|l| l.starts_with("block0")).unwrap();
    assert_eq!(
        lines[start..start + 12],
        [
            "block0(v0: i64, v1: i64):",
            "v2 = load.i64 notrap aligned readonly v0+56",
            "v3 = load.i64 notrap aligned readonly v1+16",
            "v4 = load.i64 notrap aligned readonly v3+136",
            "v5 = iconst.i64 -562949953421312",
            "v6 = iconst.i64 -562949953421310",
            "v7 = load.i64 notrap aligned v1+40",
            "v8 = load.i64 notrap aligned v1+48",
            "v9 = load.i64 notrap aligned v1+56",
            "v10 = iconst.i64 10",
            "v11 = load.i64 notrap aligned v1+24",
            "v12 = load.i64 notrap aligned v11+16",
        ]
    );
    assert!(text.contains("function u0:17(i64, i64) -> i64 system_v"));
    assert!(text.contains("ss0 = explicit_slot 8, align = 8"));
}

#[test]
fn slow_paths_are_imported_as_their_mode_asks() {
    let pa = text(true, vec![Operation::Ret(None)]);
    assert!(pa.contains("sig0 = (i64, i64, i64, i32, i32, i64) preserve_all\n"));
    assert!(pa.contains("sig1 = (i64, i64, i64, i64, i32, i32) preserve_all\n"));
    assert!(pa.contains("sig3 = (i64, i64, i64, i64, i64, i32, i64) preserve_all\n"));
    assert!(pa.contains("sig12 = (i64, i64, i64, i64, i32, i64) preserve_all\n"));
    assert!(pa.contains("sig13 = (i64, i64, i64, i64, i64, i64, i32) -> i64 system_v\n"));
    let sv = text(false, vec![Operation::Ret(None)]);
    assert!(sv.contains("sig0 = (i64, i64, i64, i32, i32) -> i64 system_v\n"));
    assert!(sv.contains("sig1 = (i64, i64, i64, i64, i32, i32) system_v\n"));
    assert!(sv.contains("sig3 = (i64, i64, i64, i64, i64, i32) -> i64 system_v\n"));
    assert!(sv.contains("sig12 = (i64, i64, i64, i64, i32) -> i64 system_v\n"));
    assert!(sv.contains("sig13 = (i64, i64, i64, i64, i64, i64, i32) -> i64 system_v\n"));
}

#[test]
fn all_bodies_are_built_and_compiled_in_both_modes() {
    // operations, instructions and blocks
    let expected = [
        (true, [(19, 335, 84), (46, 849, 219), (30, 471, 109), (22, 328, 84), (35, 604, 145)]),
        (false, [(19, 293, 84), (46, 750, 219), (30, 426, 109), (22, 286, 84), (35, 529, 145)]),
    ];
    for (pa, figures) in expected {
        let mut module = new_module();
        let slows = declare_slows(&mut module, pa).ok().unwrap();
        let bodies = [
            body_arehookinputsequal(),
            body_updateworkinprogresshook(),
            body_scheduler_schedule(),
            body_closurevar_fn5(),
            body_typedarray_fn1(),
        ];
        for (body, (n_ops, instrs, blocks)) in bodies.iter().zip(figures) {
            let (f, mut ctx, listing) = build_clif(&mut module, &slows, body, pa).ok().unwrap();
            let machine = compile_body(&mut module, f, &mut ctx).ok().unwrap();
            let r = body_result(body, &listing, &machine);
            assert_eq!(r.name, body.name);
            assert_eq!((r.n_ops, r.clif_instrs, r.clif_blocks), (n_ops, instrs, blocks));
            let cold = listing.clif_text.matches(" cold:").count();
            assert!(cold > 0);
            assert_eq!(r.text_bytes, ctx.compiled_code().unwrap().code_buffer().len());
            assert!(r.text_bytes > 0);
            assert_eq!(Some(&machine.vcode), ctx.compiled_code().unwrap().vcode.as_ref());
            assert!(r.mach_instrs > 0 && r.mach_instrs <= machine.vcode.lines().count());
        }
        let object = module.finish().emit().unwrap();
        assert!(!object.is_empty());
    }
}

#[test]
fn declaring_the_slow_paths_again_changes_nothing() {
    let mut module = new_module();
    let first = declare_slows(&mut module, true).ok().unwrap();
    assert_eq!(first.iter().map(|f| f.id).collect::<Vec<u32>>(), (0..17).collect::<Vec<u32>>());
    let again = declare_slows(&mut module, true).ok().unwrap();
    assert_eq!(first, again);
}

#[test]
fn slow_paths_cannot_be_declared_in_two_modes() {
    let mut module = new_module();
    assert!(declare_slows(&mut module, true).is_ok());
    assert!(matches!(declare_slows(&mut module, false), Err(BuildError::Declare(_))));
}

#[test]
fn a_function_gets_the_next_number() {
    let mut module = new_module();
    let slows = declare_slows(&mut module, false).ok().unwrap();
    let body = probe(vec![Operation::Ret(None)]);
    let (f, _, listing) = build_clif(&mut module, &slows, &body, false).ok().unwrap();
    assert_eq!(f.id, 17);
    assert_eq!((listing.clif_instrs, listing.clif_blocks), (15, 2));
    let (again, _, _) = build_clif(&mut module, &slows, &body, false).ok().unwrap();
    assert_eq!(again.id, 17);
}

#[test]
fn a_name_with_a_null_character_is_refused() {
    let mut module = new_module();
    let slows = declare_slows(&mut module, false).ok().unwrap();
    let body = Body { name: "a\0b", n_args: 0, n_locals: 0, ops: vec![Operation::Ret(None)] };
    let r = build_clif(&mut module, &slows, &body, false);
    assert!(matches!(r, Err(BuildError::Declare(_))));
}

#[test]
fn a_function_is_compiled_once() {
    let mut module = new_module();
    let slows = declare_slows(&mut module, false).ok().unwrap();
    let body = probe(vec![Operation::Ret(None)]);
    let (f, mut ctx, _) = build_clif(&mut module, &slows, &body, false).ok().unwrap();
    assert!(compile_body(&mut module, f, &mut ctx).is_ok());
    let (f, mut ctx, _) = build_clif(&mut module, &slows, &body, false).ok().unwrap();
    assert!(matches!(compile_body(&mut module, f, &mut ctx), Err(BuildError::Define(_))));
}

#[test]
fn calls_are_of_the_declared_functions() {
    // the numbers of the slow paths come behind that of another function
    let mut module = new_module();
    let slows = declare_slows(&mut module, false).ok().unwrap();
    let (_, _, first) = build_clif(
        &mut module,
        &slows,
        &probe(vec![
            Operation::Add { dst: 1, lhs: 1, rhs: 2, bc: 7 },
            Operation::GetLength { dst: 1, base: 2, bc: 8 },
            Operation::Ret(None),
        ]),
        false,
    )
    .ok()
    .unwrap();
    let called: Vec<&str> = first
        .clif_text
        .lines()
        .filter_map(|l| l.trim().split_once(" = call "))
        .map(|(_, callee)| callee.split('(').next().unwrap())
        .collect();
    let expected: Vec<usize> = vec![slow_index(Slow::Add), slow_index(Slow::GetLength)];
    assert_eq!(called.len(), 2);
    for (name, slow) in called.iter().zip(expected) {
        let declared = format!("{} = u0:{} ", name, slows[slow].id);
        assert!(first.clif_text.contains(&declared));
    }
    assert!(first.clif_text.starts_with("function u0:17(i64, i64) -> i64 system_v {"));
}

/// The value that a name stands for.
fn resolved<'a>(code: &'a str, name: &'a str) -> &'a str {
    match code.lines().filter_map(|l| l.trim().split_once(" -> ")).find(|(n, _)| *n == name) {
        Some((_, other)) => resolved(code, other),
        None => name,
    }
}

#[test]
fn pinned_variables_keep_their_values() {
    let code = text(
        false,
        vec![Operation::Add { dst: 1, lhs: 1, rhs: 2, bc: 7 }, Operation::Ret(None)],
    );
    // the call site is written to the call frame, which is the second parameter
    let frames: Vec<&str> = code
        .lines()
        .filter_map(|l| l.split_once("+36").filter(|(store, _)| store.contains("store")))
        .map(|(store, _)| resolved(&code, store.rsplit(", ").next().unwrap()))
        .collect();
    assert_eq!(frames, ["v1"]);
    // the tests of the addition use the number tag
    let tags: Vec<&str> = code
        .lines()
        .filter_map(|l| l.split_once(" = band "))
        .map(|(_, operands)| operands.split("  ;").next().unwrap().rsplit(", ").next().unwrap())
        .map(|tag| resolved(&code, tag))
        .collect();
    assert_eq!(&tags[..2], ["v5", "v5"]);
}

#[test]
fn an_imported_function_cannot_be_compiled() {
    let mut module = new_module();
    let slows = declare_slows(&mut module, false).ok().unwrap();
    let body = probe(vec![Operation::Ret(None)]);
    let (_, mut ctx, _) = build_clif(&mut module, &slows, &body, false).ok().unwrap();
    assert!(matches!(compile_body(&mut module, slows[0], &mut ctx), Err(BuildError::Define(_))));
}

#[test]
fn modules_have_room_for_a_limited_number_of_functions() {
    let mut module = new_module();
    assert!(has_room(&module, 4294967294));
    assert!(!has_room(&module, 4294967295));
    declare_slows(&mut module, false).ok().unwrap();
    assert!(has_room(&module, 4294967277));
    assert!(!has_room(&module, 4294967278));
}

#[test]
fn functions_can_be_compiled_for_some_targets_only() {
    assert!(can_compile(&new_module()));
    for (setting, value, expected) in [
        ("enable_verifier", "false", false),
        ("enable_probestack", "true", false),
        ("bb_padding_log2_minus_one", "1", false),
        ("log2_min_function_alignment", "31", true),
        ("log2_min_function_alignment", "32", false),
        ("opt_level", "none", true),
        ("is_pic", "false", true),
    ] {
        assert_eq!(can_compile(&module_with(setting, value)), expected, "{setting}={value}");
    }
}

#[test]
fn compiling_the_same_function_gives_the_same_code() {
    let compile = || {
        let mut module = new_module();
        let slows = declare_slows(&mut module, true).ok().unwrap();
        let body = body_scheduler_schedule();
        let (f, mut ctx, listing) = build_clif(&mut module, &slows, &body, true).ok().unwrap();
        let machine = compile_body(&mut module, f, &mut ctx).ok().unwrap();
        assert!(!machine.vcode.is_empty());
        (listing.clif_text, machine.text_bytes, machine.vcode, machine.mach_instrs)
    };
    assert_eq!(compile(), compile());
}

#[test]
fn the_entry_block_takes_the_parameters_of_the_function() {
    let text = text(false, vec![Operation::Label(1), Operation::LoopHint, Operation::Jmp(1)]);
    assert!(text.contains("\nblock0(v0: i64, v1: i64):\n"));
    assert!(!text.contains("jump block0"));
}
