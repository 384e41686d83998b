//! The bodies that code is generated for.
use crate::body::op_cost;
use crate::bytecode::{
    falls_through, js_int, jsint, loc, Body, BodyView, OpView, Operation, JS_FALSE, JS_NULL, JS_TRUE,
    VR,
};
use crate::function::{fits_compiler, fits_limits, lemma_small_body_fits};
use vstd::prelude::*;

verus! {

/// Compares two arrays element by element, up to the shorter length.
pub open spec fn are_hook_inputs_equal() -> BodyView {
    BodyView {
        name: "areHookInputsEqual"@,
        n_args: 2,
        n_locals: 4,
        ops: seq![
            Operation::Enter,
            Operation::JNStrictEqK { lhs: 2, k: JS_NULL, target: 7 },
            Operation::RetK(JS_FALSE),
            Operation::Label(7),
            Operation::MovK(loc(2), js_int(0)),
            Operation::GetLength { dst: loc(3), base: 2, bc: 10 },
            Operation::JNLess { lhs: loc(2), rhs: loc(3), target: 69, bc: 15 },
            Operation::GetLength { dst: loc(3), base: 1, bc: 19 },
            Operation::JNLess { lhs: loc(2), rhs: loc(3), target: 69, bc: 24 },
            Operation::Label(28),
            Operation::LoopHint,
            Operation::CheckTraps { bc: 29 },
            Operation::GetByVal { dst: loc(3), base: 1, idx: loc(2), bc: 30 },
            Operation::GetByVal { dst: loc(4), base: 2, idx: loc(2), bc: 36 },
            Operation::JStrictEq { lhs: loc(3), rhs: loc(4), target: 48 },
            Operation::RetK(JS_FALSE),
            Operation::Label(48),
            Operation::Inc { dst: loc(2), bc: 48 },
            Operation::GetLength { dst: loc(3), base: 2, bc: 51 },
            Operation::JNLess { lhs: loc(2), rhs: loc(3), target: 69, bc: 56 },
            Operation::GetLength { dst: loc(3), base: 1, bc: 60 },
            Operation::JLess { lhs: loc(2), rhs: loc(3), target: 28, bc: 65 },
            Operation::Label(69),
            Operation::RetK(JS_TRUE),
        ],
    }
}

/// Compares two arrays element by element, up to the shorter length.
pub fn body_arehookinputsequal() -> (r: Body)
    ensures
        r@ == are_hook_inputs_equal(),
        r@.ok(),
        fits_limits(r@),
        fits_compiler(r@),
{
    let r = Body {
        name: "areHookInputsEqual",
        n_args: 2,
        n_locals: 4,
        ops: vec![
            Operation::Enter,
            Operation::JNStrictEqK { lhs: 2, k: JS_NULL, target: 7 },
            Operation::RetK(JS_FALSE),
            Operation::Label(7),
            Operation::MovK(-2, jsint(0)),
            Operation::GetLength { dst: -3, base: 2, bc: 10 },
            Operation::JNLess { lhs: -2, rhs: -3, target: 69, bc: 15 },
            Operation::GetLength { dst: -3, base: 1, bc: 19 },
            Operation::JNLess { lhs: -2, rhs: -3, target: 69, bc: 24 },
            Operation::Label(28),
            Operation::LoopHint,
            Operation::CheckTraps { bc: 29 },
            Operation::GetByVal { dst: -3, base: 1, idx: -2, bc: 30 },
            Operation::GetByVal { dst: -4, base: 2, idx: -2, bc: 36 },
            Operation::JStrictEq { lhs: -3, rhs: -4, target: 48 },
            Operation::RetK(JS_FALSE),
            Operation::Label(48),
            Operation::Inc { dst: -2, bc: 48 },
            Operation::GetLength { dst: -3, base: 2, bc: 51 },
            Operation::JNLess { lhs: -2, rhs: -3, target: 69, bc: 56 },
            Operation::GetLength { dst: -3, base: 1, bc: 60 },
            Operation::JLess { lhs: -2, rhs: -3, target: 28, bc: 65 },
            Operation::Label(69),
            Operation::RetK(JS_TRUE),
        ],
    };
    assert(r@.ops =~~= are_hook_inputs_equal().ops);
    proof {
        lemma_are_hook_inputs_equal();
    }
    r
}

pub proof fn lemma_are_hook_inputs_equal()
    ensures
        are_hook_inputs_equal().ok(),
        fits_limits(are_hook_inputs_equal()),
        fits_compiler(are_hook_inputs_equal()),
{
    let body = are_hook_inputs_equal();
    let ops = body.ops;
    assert(ops[3] == Operation::<Seq<i32>>::Label(7));
    assert(ops[9] == Operation::<Seq<i32>>::Label(28));
    assert(ops[16] == Operation::<Seq<i32>>::Label(48));
    assert(ops[22] == Operation::<Seq<i32>>::Label(69));
    assert forall|i: int| 0 <= i < ops.len() implies (#[trigger] ops[i]).ok(
        body.n_args as nat,
        body.n_locals as nat,
    ) by {}
    reveal_with_fuel(falls_through, 3);
    assert forall|i: int|
        0 <= i < ops.len() && !(#[trigger] ops[i]).is_silent() && ops[i] !is Label implies falls_through(
        ops,
        i,
    ) by {}
    assert forall|i: int| 0 <= i < ops.len() implies op_cost(#[trigger] ops[i]) <= 100 by {}
    lemma_small_body_fits(body);
}

/// A chain of scope lookups and property accesses, with two calls.
pub open spec fn update_work_in_progress_hook() -> BodyView {
    BodyView {
        name: "updateWorkInProgressHook"@,
        n_args: 0,
        n_locals: 8,
        ops: seq![
            Operation::Enter,
            Operation::ResolveScope { dst: loc(5), scope: loc(1), md_off: 200, bc: 1 },
            Operation::GetFromScope { dst: loc(5), scope: loc(5), md_off: 232, bc: 8 },
            Operation::JNStrictEqK { lhs: loc(5), k: JS_NULL, target: 60 },
            Operation::ResolveScope { dst: loc(6), scope: loc(1), md_off: 248, bc: 21 },
            Operation::GetFromScope { dst: loc(6), scope: loc(6), md_off: 280, bc: 28 },
            Operation::GetById { dst: loc(2), base: loc(6), md_off: 312, ident: 0, bc: 37 },
            Operation::JStrictEqK { lhs: loc(2), k: JS_NULL, target: 55 },
            Operation::GetById { dst: loc(2), base: loc(2), md_off: 328, ident: 1, bc: 47 },
            Operation::Jmp(58),
            Operation::Label(55),
            Operation::MovK(loc(2), JS_NULL),
            Operation::Label(58),
            Operation::Jmp(82),
            Operation::Label(60),
            Operation::ResolveScope { dst: loc(6), scope: loc(1), md_off: 344, bc: 60 },
            Operation::GetFromScope { dst: loc(6), scope: loc(6), md_off: 376, bc: 67 },
            Operation::GetById { dst: loc(2), base: loc(6), md_off: 408, ident: 2, bc: 76 },
            Operation::Label(82),
            Operation::ResolveScope { dst: loc(6), scope: loc(1), md_off: 424, bc: 82 },
            Operation::GetFromScope { dst: loc(5), scope: loc(6), md_off: 456, bc: 89 },
            Operation::JNStrictEqK { lhs: loc(5), k: JS_NULL, target: 126 },
            Operation::ResolveScope { dst: loc(6), scope: loc(1), md_off: 488, bc: 102 },
            Operation::GetFromScope { dst: loc(6), scope: loc(6), md_off: 520, bc: 109 },
            Operation::GetById { dst: loc(3), base: loc(6), md_off: 552, ident: 3, bc: 118 },
            Operation::Jmp(148),
            Operation::Label(126),
            Operation::ResolveScope { dst: loc(6), scope: loc(1), md_off: 568, bc: 126 },
            Operation::GetFromScope { dst: loc(6), scope: loc(6), md_off: 600, bc: 133 },
            Operation::GetById { dst: loc(3), base: loc(6), md_off: 632, ident: 4, bc: 142 },
            Operation::Label(148),
            Operation::ResolveScope { dst: loc(6), scope: loc(1), md_off: 648, bc: 152 },
            Operation::PutToScope { scope: loc(6), val: loc(2), md_off: 680, bc: 159 },
            Operation::ResolveScope { dst: loc(6), scope: loc(1), md_off: 712, bc: 167 },
            Operation::PutToScope { scope: loc(6), val: loc(3), md_off: 744, bc: 174 },
            Operation::JStrictEqK { lhs: loc(3), k: JS_NULL, target: 184 },
            Operation::ResolveScope { dst: loc(7), scope: loc(1), md_off: 776, bc: 188 },
            Operation::GetFromScope { dst: loc(7), scope: loc(7), md_off: 808, bc: 195 },
            Operation::GetById { dst: loc(8), base: loc(7), md_off: 840, ident: 5, bc: 204 },
            Operation::Call { dst: loc(4), callee: loc(8), this: loc(7), args: seq![loc(3)], frame_size: 16, bc: 249 },
            Operation::Call { dst: loc(4), callee: loc(4), this: loc(7), args: Seq::empty(), frame_size: 16, bc: 256 },
            Operation::Label(184),
            Operation::GetById { dst: loc(4), base: loc(2), md_off: 856, ident: 6, bc: 351 },
            Operation::PutById { base: loc(3), val: loc(4), md_off: 880, ident: 6, bc: 357 },
            Operation::GetById { dst: loc(4), base: loc(2), md_off: 904, ident: 7, bc: 379 },
            Operation::PutById { base: loc(3), val: loc(4), md_off: 928, ident: 7, bc: 385 },
            Operation::GetById { dst: loc(4), base: loc(2), md_off: 952, ident: 8, bc: 407 },
            Operation::PutById { base: loc(3), val: loc(4), md_off: 976, ident: 8, bc: 413 },
            Operation::MovK(loc(4), JS_NULL),
            Operation::PutById { base: loc(3), val: loc(4), md_off: 1000, ident: 9, bc: 447 },
            Operation::ResolveScope { dst: loc(6), scope: loc(1), md_off: 1024, bc: 558 },
            Operation::GetFromScope { dst: loc(4), scope: loc(6), md_off: 1056, bc: 565 },
            Operation::Ret(Some(loc(4))),
        ],
    }
}

/// A chain of scope lookups and property accesses, with two calls.
pub fn body_updateworkinprogresshook() -> (r: Body)
    ensures
        r@ == update_work_in_progress_hook(),
        r@.ok(),
        fits_limits(r@),
        fits_compiler(r@),
{
    let r = Body {
        name: "updateWorkInProgressHook",
        n_args: 0,
        n_locals: 8,
        ops: vec![
            Operation::Enter,
            Operation::ResolveScope { dst: -5, scope: -1, md_off: 200, bc: 1 },
            Operation::GetFromScope { dst: -5, scope: -5, md_off: 232, bc: 8 },
            Operation::JNStrictEqK { lhs: -5, k: JS_NULL, target: 60 },
            Operation::ResolveScope { dst: -6, scope: -1, md_off: 248, bc: 21 },
            Operation::GetFromScope { dst: -6, scope: -6, md_off: 280, bc: 28 },
            Operation::GetById { dst: -2, base: -6, md_off: 312, ident: 0, bc: 37 },
            Operation::JStrictEqK { lhs: -2, k: JS_NULL, target: 55 },
            Operation::GetById { dst: -2, base: -2, md_off: 328, ident: 1, bc: 47 },
            Operation::Jmp(58),
            Operation::Label(55),
            Operation::MovK(-2, JS_NULL),
            Operation::Label(58),
            Operation::Jmp(82),
            Operation::Label(60),
            Operation::ResolveScope { dst: -6, scope: -1, md_off: 344, bc: 60 },
            Operation::GetFromScope { dst: -6, scope: -6, md_off: 376, bc: 67 },
            Operation::GetById { dst: -2, base: -6, md_off: 408, ident: 2, bc: 76 },
            Operation::Label(82),
            Operation::ResolveScope { dst: -6, scope: -1, md_off: 424, bc: 82 },
            Operation::GetFromScope { dst: -5, scope: -6, md_off: 456, bc: 89 },
            Operation::JNStrictEqK { lhs: -5, k: JS_NULL, target: 126 },
            Operation::ResolveScope { dst: -6, scope: -1, md_off: 488, bc: 102 },
            Operation::GetFromScope { dst: -6, scope: -6, md_off: 520, bc: 109 },
            Operation::GetById { dst: -3, base: -6, md_off: 552, ident: 3, bc: 118 },
            Operation::Jmp(148),
            Operation::Label(126),
            Operation::ResolveScope { dst: -6, scope: -1, md_off: 568, bc: 126 },
            Operation::GetFromScope { dst: -6, scope: -6, md_off: 600, bc: 133 },
            Operation::GetById { dst: -3, base: -6, md_off: 632, ident: 4, bc: 142 },
            Operation::Label(148),
            Operation::ResolveScope { dst: -6, scope: -1, md_off: 648, bc: 152 },
            Operation::PutToScope { scope: -6, val: -2, md_off: 680, bc: 159 },
            Operation::ResolveScope { dst: -6, scope: -1, md_off: 712, bc: 167 },
            Operation::PutToScope { scope: -6, val: -3, md_off: 744, bc: 174 },
            Operation::JStrictEqK { lhs: -3, k: JS_NULL, target: 184 },
            Operation::ResolveScope { dst: -7, scope: -1, md_off: 776, bc: 188 },
            Operation::GetFromScope { dst: -7, scope: -7, md_off: 808, bc: 195 },
            Operation::GetById { dst: -8, base: -7, md_off: 840, ident: 5, bc: 204 },
            Operation::Call { dst: -4, callee: -8, this: -7, args: vec![-3], frame_size: 16, bc: 249 },
            Operation::Call { dst: -4, callee: -4, this: -7, args: Vec::new(), frame_size: 16, bc: 256 },
            Operation::Label(184),
            Operation::GetById { dst: -4, base: -2, md_off: 856, ident: 6, bc: 351 },
            Operation::PutById { base: -3, val: -4, md_off: 880, ident: 6, bc: 357 },
            Operation::GetById { dst: -4, base: -2, md_off: 904, ident: 7, bc: 379 },
            Operation::PutById { base: -3, val: -4, md_off: 928, ident: 7, bc: 385 },
            Operation::GetById { dst: -4, base: -2, md_off: 952, ident: 8, bc: 407 },
            Operation::PutById { base: -3, val: -4, md_off: 976, ident: 8, bc: 413 },
            Operation::MovK(-4, JS_NULL),
            Operation::PutById { base: -3, val: -4, md_off: 1000, ident: 9, bc: 447 },
            Operation::ResolveScope { dst: -6, scope: -1, md_off: 1024, bc: 558 },
            Operation::GetFromScope { dst: -4, scope: -6, md_off: 1056, bc: 565 },
            Operation::Ret(Some(-4)),
        ],
    };
    assert(r@.ops =~~= update_work_in_progress_hook().ops);
    proof {
        lemma_update_work_in_progress_hook();
    }
    r
}

pub proof fn lemma_update_work_in_progress_hook()
    ensures
        update_work_in_progress_hook().ok(),
        fits_limits(update_work_in_progress_hook()),
        fits_compiler(update_work_in_progress_hook()),
{
    let body = update_work_in_progress_hook();
    let ops = body.ops;
    assert(ops[10] == Operation::<Seq<i32>>::Label(55));
    assert(ops[12] == Operation::<Seq<i32>>::Label(58));
    assert(ops[14] == Operation::<Seq<i32>>::Label(60));
    assert(ops[18] == Operation::<Seq<i32>>::Label(82));
    assert(ops[26] == Operation::<Seq<i32>>::Label(126));
    assert(ops[30] == Operation::<Seq<i32>>::Label(148));
    assert(ops[41] == Operation::<Seq<i32>>::Label(184));
    assert forall|i: int| 0 <= i < ops.len() implies (#[trigger] ops[i]).ok(
        body.n_args as nat,
        body.n_locals as nat,
    ) by {}
    reveal_with_fuel(falls_through, 3);
    assert forall|i: int|
        0 <= i < ops.len() && !(#[trigger] ops[i]).is_silent() && ops[i] !is Label implies falls_through(
        ops,
        i,
    ) by {}
    assert forall|i: int| 0 <= i < ops.len() implies op_cost(#[trigger] ops[i]) <= 100 by {}
    lemma_small_body_fits(body);
}

/// A loop over a linked list that calls through properties of `this`.
pub open spec fn scheduler_schedule() -> BodyView {
    BodyView {
        name: "scheduler_schedule"@,
        n_args: 0,
        n_locals: 4,
        ops: seq![
            Operation::Enter,
            Operation::ToThis,
            Operation::Mov(loc(2), 0),
            Operation::GetById { dst: loc(3), base: 0, md_off: 200, ident: 0, bc: 9 },
            Operation::PutById { base: loc(2), val: loc(3), md_off: 104, ident: 1, bc: 15 },
            Operation::GetById { dst: loc(2), base: 0, md_off: 216, ident: 1, bc: 21 },
            Operation::JEqNull { v: loc(2), target: 138 },
            Operation::Label(30),
            Operation::LoopHint,
            Operation::CheckTraps { bc: 31 },
            Operation::GetById { dst: loc(4), base: 0, md_off: 232, ident: 1, bc: 32 },
            Operation::GetById { dst: loc(2), base: loc(4), md_off: 248, ident: 2, bc: 38 },
            Operation::Call { dst: loc(2), callee: loc(2), this: loc(4), args: Seq::empty(), frame_size: 10, bc: 44 },
            Operation::JFalse { cond: loc(2), target: 77 },
            Operation::Mov(loc(2), 0),
            Operation::GetById { dst: loc(4), base: 0, md_off: 264, ident: 1, bc: 57 },
            Operation::GetById { dst: loc(3), base: loc(4), md_off: 280, ident: 3, bc: 63 },
            Operation::PutById { base: loc(2), val: loc(3), md_off: 128, ident: 1, bc: 69 },
            Operation::Jmp(126),
            Operation::Label(77),
            Operation::Mov(loc(2), 0),
            Operation::GetById { dst: loc(4), base: 0, md_off: 296, ident: 1, bc: 80 },
            Operation::GetById { dst: loc(3), base: loc(4), md_off: 312, ident: 4, bc: 86 },
            Operation::PutById { base: loc(2), val: loc(3), md_off: 152, ident: 5, bc: 92 },
            Operation::Mov(loc(2), 0),
            Operation::GetById { dst: loc(4), base: 0, md_off: 328, ident: 1, bc: 101 },
            Operation::GetById { dst: loc(3), base: loc(4), md_off: 344, ident: 6, bc: 107 },
            Operation::Call { dst: loc(3), callee: loc(3), this: loc(4), args: Seq::empty(), frame_size: 10, bc: 113 },
            Operation::PutById { base: loc(2), val: loc(3), md_off: 176, ident: 1, bc: 120 },
            Operation::Label(126),
            Operation::GetById { dst: loc(2), base: 0, md_off: 360, ident: 1, bc: 126 },
            Operation::NeqNull { dst: loc(2), src: loc(2) },
            Operation::JTrue { cond: loc(2), target: 30 },
            Operation::Label(138),
            Operation::Ret(None),
        ],
    }
}

/// A loop over a linked list that calls through properties of `this`.
pub fn body_scheduler_schedule() -> (r: Body)
    ensures
        r@ == scheduler_schedule(),
        r@.ok(),
        fits_limits(r@),
        fits_compiler(r@),
{
    let r = Body {
        name: "scheduler_schedule",
        n_args: 0,
        n_locals: 4,
        ops: vec![
            Operation::Enter,
            Operation::ToThis,
            Operation::Mov(-2, 0),
            Operation::GetById { dst: -3, base: 0, md_off: 200, ident: 0, bc: 9 },
            Operation::PutById { base: -2, val: -3, md_off: 104, ident: 1, bc: 15 },
            Operation::GetById { dst: -2, base: 0, md_off: 216, ident: 1, bc: 21 },
            Operation::JEqNull { v: -2, target: 138 },
            Operation::Label(30),
            Operation::LoopHint,
            Operation::CheckTraps { bc: 31 },
            Operation::GetById { dst: -4, base: 0, md_off: 232, ident: 1, bc: 32 },
            Operation::GetById { dst: -2, base: -4, md_off: 248, ident: 2, bc: 38 },
            Operation::Call { dst: -2, callee: -2, this: -4, args: Vec::new(), frame_size: 10, bc: 44 },
            Operation::JFalse { cond: -2, target: 77 },
            Operation::Mov(-2, 0),
            Operation::GetById { dst: -4, base: 0, md_off: 264, ident: 1, bc: 57 },
            Operation::GetById { dst: -3, base: -4, md_off: 280, ident: 3, bc: 63 },
            Operation::PutById { base: -2, val: -3, md_off: 128, ident: 1, bc: 69 },
            Operation::Jmp(126),
            Operation::Label(77),
            Operation::Mov(-2, 0),
            Operation::GetById { dst: -4, base: 0, md_off: 296, ident: 1, bc: 80 },
            Operation::GetById { dst: -3, base: -4, md_off: 312, ident: 4, bc: 86 },
            Operation::PutById { base: -2, val: -3, md_off: 152, ident: 5, bc: 92 },
            Operation::Mov(-2, 0),
            Operation::GetById { dst: -4, base: 0, md_off: 328, ident: 1, bc: 101 },
            Operation::GetById { dst: -3, base: -4, md_off: 344, ident: 6, bc: 107 },
            Operation::Call { dst: -3, callee: -3, this: -4, args: Vec::new(), frame_size: 10, bc: 113 },
            Operation::PutById { base: -2, val: -3, md_off: 176, ident: 1, bc: 120 },
            Operation::Label(126),
            Operation::GetById { dst: -2, base: 0, md_off: 360, ident: 1, bc: 126 },
            Operation::NeqNull { dst: -2, src: -2 },
            Operation::JTrue { cond: -2, target: 30 },
            Operation::Label(138),
            Operation::Ret(None),
        ],
    };
    assert(r@.ops =~~= scheduler_schedule().ops);
    proof {
        lemma_scheduler_schedule();
    }
    r
}

pub proof fn lemma_scheduler_schedule()
    ensures
        scheduler_schedule().ok(),
        fits_limits(scheduler_schedule()),
        fits_compiler(scheduler_schedule()),
{
    let body = scheduler_schedule();
    let ops = body.ops;
    assert(ops[7] == Operation::<Seq<i32>>::Label(30));
    assert(ops[19] == Operation::<Seq<i32>>::Label(77));
    assert(ops[29] == Operation::<Seq<i32>>::Label(126));
    assert(ops[33] == Operation::<Seq<i32>>::Label(138));
    assert forall|i: int| 0 <= i < ops.len() implies (#[trigger] ops[i]).ok(
        body.n_args as nat,
        body.n_locals as nat,
    ) by {}
    reveal_with_fuel(falls_through, 3);
    assert forall|i: int|
        0 <= i < ops.len() && !(#[trigger] ops[i]).is_silent() && ops[i] !is Label implies falls_through(
        ops,
        i,
    ) by {}
    assert forall|i: int| 0 <= i < ops.len() implies op_cost(#[trigger] ops[i]) <= 100 by {}
    lemma_small_body_fits(body);
}

/// A counting loop that calls a function found in a scope.
pub open spec fn closurevar_fn5() -> BodyView {
    BodyView {
        name: "closurevar_fn5"@,
        n_args: 1,
        n_locals: 14,
        ops: seq![
            Operation::Enter,
            Operation::MovK(loc(3), js_int(0)),
            Operation::MovK(loc(4), js_int(0)),
            Operation::JNLess { lhs: loc(4), rhs: 1, target: 85, bc: 10 },
            Operation::Label(14),
            Operation::LoopHint,
            Operation::CheckTraps { bc: 15 },
            Operation::Mov(loc(5), loc(3)),
            Operation::ResolveScope { dst: loc(14), scope: loc(1), md_off: 200, bc: 19 },
            Operation::GetFromScope { dst: loc(6), scope: loc(14), md_off: 232, bc: 26 },
            Operation::Mov(loc(13), loc(4)),
            Operation::AddK { dst: loc(12), lhs: loc(4), k: 1, bc: 38 },
            Operation::AddK { dst: loc(11), lhs: loc(4), k: 2, bc: 44 },
            Operation::AddK { dst: loc(10), lhs: loc(4), k: 3, bc: 50 },
            Operation::AddK { dst: loc(9), lhs: loc(4), k: 4, bc: 56 },
            Operation::Call { dst: loc(6), callee: loc(6), this: loc(14), args: seq![loc(13), loc(12), loc(11), loc(10), loc(9)], frame_size: 20, bc: 62 },
            Operation::Add { dst: loc(5), lhs: loc(5), rhs: loc(6), bc: 69 },
            Operation::Mov(loc(3), loc(5)),
            Operation::Inc { dst: loc(4), bc: 78 },
            Operation::JLess { lhs: loc(4), rhs: 1, target: 14, bc: 81 },
            Operation::Label(85),
            Operation::ResolveScope { dst: loc(5), scope: loc(1), md_off: 216, bc: 85 },
            Operation::GetFromScope { dst: loc(6), scope: loc(5), md_off: 256, bc: 92 },
            Operation::Add { dst: loc(7), lhs: loc(3), rhs: loc(6), bc: 101 },
            Operation::Ret(Some(loc(7))),
        ],
    }
}

/// A counting loop that calls a function found in a scope.
pub fn body_closurevar_fn5() -> (r: Body)
    ensures
        r@ == closurevar_fn5(),
        r@.ok(),
        fits_limits(r@),
        fits_compiler(r@),
{
    let r = Body {
        name: "closurevar_fn5",
        n_args: 1,
        n_locals: 14,
        ops: vec![
            Operation::Enter,
            Operation::MovK(-3, jsint(0)),
            Operation::MovK(-4, jsint(0)),
            Operation::JNLess { lhs: -4, rhs: 1, target: 85, bc: 10 },
            Operation::Label(14),
            Operation::LoopHint,
            Operation::CheckTraps { bc: 15 },
            Operation::Mov(-5, -3),
            Operation::ResolveScope { dst: -14, scope: -1, md_off: 200, bc: 19 },
            Operation::GetFromScope { dst: -6, scope: -14, md_off: 232, bc: 26 },
            Operation::Mov(-13, -4),
            Operation::AddK { dst: -12, lhs: -4, k: 1, bc: 38 },
            Operation::AddK { dst: -11, lhs: -4, k: 2, bc: 44 },
            Operation::AddK { dst: -10, lhs: -4, k: 3, bc: 50 },
            Operation::AddK { dst: -9, lhs: -4, k: 4, bc: 56 },
            Operation::Call { dst: -6, callee: -6, this: -14, args: vec![-13, -12, -11, -10, -9], frame_size: 20, bc: 62 },
            Operation::Add { dst: -5, lhs: -5, rhs: -6, bc: 69 },
            Operation::Mov(-3, -5),
            Operation::Inc { dst: -4, bc: 78 },
            Operation::JLess { lhs: -4, rhs: 1, target: 14, bc: 81 },
            Operation::Label(85),
            Operation::ResolveScope { dst: -5, scope: -1, md_off: 216, bc: 85 },
            Operation::GetFromScope { dst: -6, scope: -5, md_off: 256, bc: 92 },
            Operation::Add { dst: -7, lhs: -3, rhs: -6, bc: 101 },
            Operation::Ret(Some(-7)),
        ],
    };
    assert(r@.ops =~~= closurevar_fn5().ops);
    proof {
        lemma_closurevar_fn5();
    }
    r
}

pub proof fn lemma_closurevar_fn5()
    ensures
        closurevar_fn5().ok(),
        fits_limits(closurevar_fn5()),
        fits_compiler(closurevar_fn5()),
{
    let body = closurevar_fn5();
    let ops = body.ops;
    assert(ops[4] == Operation::<Seq<i32>>::Label(14));
    assert(ops[20] == Operation::<Seq<i32>>::Label(85));
    assert forall|i: int| 0 <= i < ops.len() implies (#[trigger] ops[i]).ok(
        body.n_args as nat,
        body.n_locals as nat,
    ) by {}
    reveal_with_fuel(falls_through, 3);
    assert forall|i: int|
        0 <= i < ops.len() && !(#[trigger] ops[i]).is_silent() && ops[i] !is Label implies falls_through(
        ops,
        i,
    ) by {}
    assert forall|i: int| 0 <= i < ops.len() implies op_cost(#[trigger] ops[i]) <= 100 by {}
    lemma_small_body_fits(body);
}

/// A loop of integer arithmetic on array elements.
pub open spec fn typedarray_fn1() -> BodyView {
    BodyView {
        name: "typedarray_fn1"@,
        n_args: 3,
        n_locals: 12,
        ops: seq![
            Operation::Enter,
            Operation::GetLength { dst: loc(9), base: 2, bc: 1 },
            Operation::BitOpK { kind: 1, dst: loc(5), lhs: loc(9), k: 0, bc: 6 },
            Operation::MovK(loc(6), js_int(0)),
            Operation::MovK(loc(2), js_int(0)),
            Operation::MovK(loc(4), js_int(0)),
            Operation::JNLess { lhs: loc(4), rhs: loc(5), target: 174, bc: 21 },
            Operation::Label(25),
            Operation::LoopHint,
            Operation::CheckTraps { bc: 26 },
            Operation::ResolveScope { dst: loc(12), scope: loc(1), md_off: 232, bc: 27 },
            Operation::GetFromScope { dst: loc(9), scope: loc(12), md_off: 248, bc: 34 },
            Operation::Mov(loc(11), 1),
            Operation::Mov(loc(10), loc(6)),
            Operation::Call { dst: loc(8), callee: loc(9), this: loc(12), args: seq![loc(11), loc(10)], frame_size: 18, bc: 49 },
            Operation::BitOpK { kind: 0, dst: loc(9), lhs: loc(8), k: 511, bc: 56 },
            Operation::GetByVal { dst: loc(7), base: 3, idx: loc(9), bc: 62 },
            Operation::BitOpK { kind: 3, dst: loc(9), lhs: loc(6), k: 3, bc: 68 },
            Operation::AddK { dst: loc(9), lhs: loc(9), k: 3, bc: 73 },
            Operation::GetByVal { dst: loc(3), base: 1, idx: loc(9), bc: 79 },
            Operation::Mov(loc(9), 2),
            Operation::Mov(loc(10), loc(4)),
            Operation::BitOp { kind: 2, dst: loc(11), lhs: loc(8), rhs: loc(7), bc: 91 },
            Operation::BitOp { kind: 2, dst: loc(11), lhs: loc(11), rhs: loc(3), bc: 97 },
            Operation::BitOp { kind: 2, dst: loc(11), lhs: loc(11), rhs: loc(2), bc: 103 },
            Operation::BitOpK { kind: 0, dst: loc(11), lhs: loc(11), k: 255, bc: 109 },
            Operation::PutByVal { base: loc(9), idx: loc(10), val: loc(11), bc: 115 },
            Operation::GetByVal { dst: loc(9), base: 2, idx: loc(4), bc: 121 },
            Operation::Add { dst: loc(10), lhs: loc(2), rhs: loc(9), bc: 127 },
            Operation::BitOpK { kind: 1, dst: loc(2), lhs: loc(10), k: 0, bc: 133 },
            Operation::BitOpK { kind: 0, dst: loc(9), lhs: loc(7), k: 15, bc: 139 },
            Operation::Add { dst: loc(10), lhs: loc(6), rhs: loc(9), bc: 145 },
            Operation::AddK { dst: loc(10), lhs: loc(10), k: 1, bc: 151 },
            Operation::BitOpK { kind: 1, dst: loc(6), lhs: loc(10), k: 0, bc: 157 },
            Operation::Inc { dst: loc(4), bc: 163 },
            Operation::JLess { lhs: loc(4), rhs: loc(5), target: 25, bc: 166 },
            Operation::Label(174),
            Operation::Ret(Some(loc(2))),
        ],
    }
}

/// A loop of integer arithmetic on array elements.
pub fn body_typedarray_fn1() -> (r: Body)
    ensures
        r@ == typedarray_fn1(),
        r@.ok(),
        fits_limits(r@),
        fits_compiler(r@),
{
    let r = Body {
        name: "typedarray_fn1",
        n_args: 3,
        n_locals: 12,
        ops: vec![
            Operation::Enter,
            Operation::GetLength { dst: -9, base: 2, bc: 1 },
            Operation::BitOpK { kind: 1, dst: -5, lhs: -9, k: 0, bc: 6 },
            Operation::MovK(-6, jsint(0)),
            Operation::MovK(-2, jsint(0)),
            Operation::MovK(-4, jsint(0)),
            Operation::JNLess { lhs: -4, rhs: -5, target: 174, bc: 21 },
            Operation::Label(25),
            Operation::LoopHint,
            Operation::CheckTraps { bc: 26 },
            Operation::ResolveScope { dst: -12, scope: -1, md_off: 232, bc: 27 },
            Operation::GetFromScope { dst: -9, scope: -12, md_off: 248, bc: 34 },
            Operation::Mov(-11, 1),
            Operation::Mov(-10, -6),
            Operation::Call { dst: -8, callee: -9, this: -12, args: vec![-11, -10], frame_size: 18, bc: 49 },
            Operation::BitOpK { kind: 0, dst: -9, lhs: -8, k: 511, bc: 56 },
            Operation::GetByVal { dst: -7, base: 3, idx: -9, bc: 62 },
            Operation::BitOpK { kind: 3, dst: -9, lhs: -6, k: 3, bc: 68 },
            Operation::AddK { dst: -9, lhs: -9, k: 3, bc: 73 },
            Operation::GetByVal { dst: -3, base: 1, idx: -9, bc: 79 },
            Operation::Mov(-9, 2),
            Operation::Mov(-10, -4),
            Operation::BitOp { kind: 2, dst: -11, lhs: -8, rhs: -7, bc: 91 },
            Operation::BitOp { kind: 2, dst: -11, lhs: -11, rhs: -3, bc: 97 },
            Operation::BitOp { kind: 2, dst: -11, lhs: -11, rhs: -2, bc: 103 },
            Operation::BitOpK { kind: 0, dst: -11, lhs: -11, k: 255, bc: 109 },
            Operation::PutByVal { base: -9, idx: -10, val: -11, bc: 115 },
            Operation::GetByVal { dst: -9, base: 2, idx: -4, bc: 121 },
            Operation::Add { dst: -10, lhs: -2, rhs: -9, bc: 127 },
            Operation::BitOpK { kind: 1, dst: -2, lhs: -10, k: 0, bc: 133 },
            Operation::BitOpK { kind: 0, dst: -9, lhs: -7, k: 15, bc: 139 },
            Operation::Add { dst: -10, lhs: -6, rhs: -9, bc: 145 },
            Operation::AddK { dst: -10, lhs: -10, k: 1, bc: 151 },
            Operation::BitOpK { kind: 1, dst: -6, lhs: -10, k: 0, bc: 157 },
            Operation::Inc { dst: -4, bc: 163 },
            Operation::JLess { lhs: -4, rhs: -5, target: 25, bc: 166 },
            Operation::Label(174),
            Operation::Ret(Some(-2)),
        ],
    };
    assert(r@.ops =~~= typedarray_fn1().ops);
    proof {
        lemma_typedarray_fn1();
    }
    r
}

pub proof fn lemma_typedarray_fn1()
    ensures
        typedarray_fn1().ok(),
        fits_limits(typedarray_fn1()),
        fits_compiler(typedarray_fn1()),
{
    let body = typedarray_fn1();
    let ops = body.ops;
    assert(ops[7] == Operation::<Seq<i32>>::Label(25));
    assert(ops[36] == Operation::<Seq<i32>>::Label(174));
    assert forall|i: int| 0 <= i < ops.len() implies (#[trigger] ops[i]).ok(
        body.n_args as nat,
        body.n_locals as nat,
    ) by {}
    reveal_with_fuel(falls_through, 3);
    assert forall|i: int|
        0 <= i < ops.len() && !(#[trigger] ops[i]).is_silent() && ops[i] !is Label implies falls_through(
        ops,
        i,
    ) by {}
    assert forall|i: int| 0 <= i < ops.len() implies op_cost(#[trigger] ops[i]) <= 100 by {}
    lemma_small_body_fits(body);
}

/// The operation names the register `r`.
pub open spec fn names_register(op: OpView, r: VR) -> bool {
    match op {
        Operation::Mov(d, s) => r == d || r == s,
        Operation::MovK(d, _) => r == d,
        Operation::GetById { dst, base, .. } => r == dst || r == base,
        Operation::GetByVal { dst, base, idx, .. } => r == dst || r == base || r == idx,
        Operation::GetLength { dst, base, .. } => r == dst || r == base,
        Operation::ResolveScope { dst, scope, .. } => r == dst || r == scope,
        Operation::JLess { lhs, rhs, .. } => r == lhs || r == rhs,
        _ => false,
    }
}

/// A body has as many arguments and locals as its operations name: the last of each is named.
pub open spec fn registers_are_tight(body: BodyView) -> bool {
    &&& body.n_args > 0 ==> exists|i: int|
        0 <= i < body.ops.len() && #[trigger] names_register(body.ops[i], body.n_args as VR)
    &&& body.n_locals > 0 ==> exists|i: int|
        0 <= i < body.ops.len() && #[trigger] names_register(
            body.ops[i],
            loc(body.n_locals as int),
        )
}

/// The bodies have their names, and registers for what they name.
pub proof fn bodies_have_names_and_registers()
    ensures
        are_hook_inputs_equal().name == "areHookInputsEqual"@,
        update_work_in_progress_hook().name == "updateWorkInProgressHook"@,
        scheduler_schedule().name == "scheduler_schedule"@,
        closurevar_fn5().name == "closurevar_fn5"@,
        typedarray_fn1().name == "typedarray_fn1"@,
        registers_are_tight(are_hook_inputs_equal()),
        registers_are_tight(update_work_in_progress_hook()),
        registers_are_tight(scheduler_schedule()),
        registers_are_tight(closurevar_fn5()),
        registers_are_tight(typedarray_fn1()),
{
    let a = are_hook_inputs_equal().ops;
    assert(are_hook_inputs_equal().n_args as VR == 2i32);
    assert(names_register(a[13], 2i32));
    assert(names_register(a[13], loc(4)));
    let b = update_work_in_progress_hook().ops;
    assert(names_register(b[38], loc(8)));
    let c = scheduler_schedule().ops;
    assert(names_register(c[10], loc(4)));
    let d = closurevar_fn5().ops;
    assert(names_register(d[8], loc(14)));
    assert(closurevar_fn5().n_args as VR == 1i32);
    assert(names_register(d[19], 1i32));
    let e = typedarray_fn1().ops;
    assert(names_register(e[10], loc(12)));
    assert(typedarray_fn1().n_args as VR == 3i32);
    assert(names_register(e[16], 3i32));
}

} // verus!
