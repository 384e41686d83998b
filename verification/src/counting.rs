//! What the counting loop does, in terms of what the engine answers.
use crate::bodies::{closurevar_fn5, lemma_closurevar_fn5};
use crate::bytecode::{js_int, loc};
use crate::hook_updates::variable;
use crate::runs::{boxed, is_int32, low};
use crate::semantics::{
    calm, entry, lemma_add, lemma_add_constant, lemma_call, lemma_encoded, lemma_get_from_scope,
    lemma_here, lemma_inc, lemma_jless, lemma_jnless, lemma_joined, lemma_mov, lemma_mov_constant,
    lemma_on, lemma_place_of, lemma_resolve_scope, lemma_ret, reaches, results_in, sum, Request,
    State, World,
};
use vstd::prelude::*;

verus! {

/// One round of the counting loop: a function found in a scope is called with the counter and
/// the four sums behind it, and what it gives is added up.
pub open spec fn counted(w: World, scope: u64, i: u64, made: Seq<Request>, total: u64) -> (
    Seq<Request>,
    u64,
) {
    let this = w(made, Request::ResolveScope { scope, md_off: 200, bc: 19 })->0;
    let call = Request::Call {
        callee: w(made, Request::GetFromScope { scope: this, md_off: 232, bc: 26 })->0,
        this,
        args: seq![
            i,
            sum(w, made, i, js_int(1) as u64, 38)->0,
            sum(w, made, i, js_int(2) as u64, 44)->0,
            sum(w, made, i, js_int(3) as u64, 50)->0,
            sum(w, made, i, js_int(4) as u64, 56)->0,
        ],
        frame_size: 20,
        bc: 62,
    };
    (made.push(call), sum(w, made.push(call), total, w(made, call)->0, 69)->0)
}

/// What is made in the first `n` rounds, and the total then.
pub open spec fn counted_up(w: World, scope: u64, n: nat) -> (Seq<Request>, u64)
    decreases n,
{
    if n == 0 {
        (Seq::empty(), boxed(0))
    } else {
        let (made, total) = counted_up(w, scope, (n - 1) as nat);
        counted(w, scope, boxed((n - 1) as i32), made, total)
    }
}

/// One round, from the state `s` at the head of the loop.
#[verifier::rlimit(60)]
proof fn lemma_counting_round(w: World, scope: u64, count: u64, s: State, i: int) -> (t: State)
    requires
        calm(w),
        is_int32(count),
        0 <= i < low(count),
        s.pc == 4,
        s.reg(1) == count,
        s.reg(loc(1)) == scope,
        s.reg(loc(4)) == boxed(i as i32),
    ensures
        reaches(closurevar_fn5().ops, w, s, t),
        (t.made, t.reg(loc(3))) == counted(w, scope, boxed(i as i32), s.made, s.reg(loc(3))),
        t.reg(1) == count,
        t.reg(loc(1)) == scope,
        t.reg(loc(4)) == boxed((i + 1) as i32),
        t.pc == if i + 1 < low(count) {
            4int
        } else {
            20int
        },
{
    let body = closurevar_fn5();
    let ops = body.ops;
    lemma_closurevar_fn5();
    lemma_place_of(body, 14, 4);
    lemma_place_of(body, 85, 20);
    lemma_here(ops, w, s);
    lemma_encoded(i as i32);
    lemma_encoded((i + 1) as i32);
    lemma_encoded(1);
    let s1 = lemma_on(ops, w, s, s);
    let s2 = lemma_on(ops, w, s, s1);
    let s3 = lemma_on(ops, w, s, s2);
    let s4 = lemma_mov(ops, w, s, s3, loc(5), loc(3));
    let s5 = lemma_resolve_scope(ops, w, s, s4, loc(14), loc(1), 200, 19);
    let s6 = lemma_get_from_scope(ops, w, s, s5, loc(6), loc(14), 232, 26);
    let s7 = lemma_mov(ops, w, s, s6, loc(13), loc(4));
    let s8 = lemma_add_constant(ops, w, s, s7, loc(12), loc(4), 1, 38);
    let s9 = lemma_add_constant(ops, w, s, s8, loc(11), loc(4), 2, 44);
    let s10 = lemma_add_constant(ops, w, s, s9, loc(10), loc(4), 3, 50);
    let s11 = lemma_add_constant(ops, w, s, s10, loc(9), loc(4), 4, 56);
    let s12 = lemma_call(
        ops,
        w,
        s,
        s11,
        loc(6),
        loc(6),
        loc(14),
        seq![loc(13), loc(12), loc(11), loc(10), loc(9)],
        20,
        62,
        seq![s11.reg(loc(13)), s11.reg(loc(12)), s11.reg(loc(11)), s11.reg(loc(10)), s11.reg(loc(9))],
    );
    let s13 = lemma_add(ops, w, s, s12, loc(5), loc(5), loc(6), 69);
    let s14 = lemma_mov(ops, w, s, s13, loc(3), loc(5));
    let s15 = lemma_inc(ops, w, s, s14, loc(4), 78, i as i32);
    assert(s15.reg(loc(4)) == boxed((i + 1) as i32));
    if i + 1 < low(count) {
        let b1 = lemma_jless(ops, w, s, s15, loc(4), 1, 14, 81, true, 4);
        b1
    } else {
        let c1 = lemma_jless(ops, w, s, s15, loc(4), 1, 14, 81, false, 4);
        c1
    }
}

/// The rounds from the `i`-th on.
proof fn lemma_counting_rounds(w: World, scope: u64, count: u64, s: State, i: int) -> (t: State)
    requires
        calm(w),
        is_int32(count),
        0 <= i < low(count),
        s.pc == 4,
        s.reg(1) == count,
        s.reg(loc(1)) == scope,
        s.reg(loc(4)) == boxed(i as i32),
        (s.made, s.reg(loc(3))) == counted_up(w, scope, i as nat),
    ensures
        reaches(closurevar_fn5().ops, w, s, t),
        (t.made, t.reg(loc(3))) == counted_up(w, scope, low(count) as nat),
        t.reg(loc(1)) == scope,
        t.pc == 20,
    decreases low(count) - i,
{
    let t = lemma_counting_round(w, scope, count, s, i);
    assert((t.made, t.reg(loc(3))) == counted_up(w, scope, (i + 1) as nat));
    if i + 1 < low(count) {
        let u = lemma_counting_rounds(w, scope, count, t, i + 1);
        lemma_joined(closurevar_fn5().ops, w, s, t);
        u
    } else {
        t
    }
}

/// The counting loop calls a function as often as its argument says, with the counter from
/// zero on (see [`counted`]), and returns the sum of what the calls gave and of a variable.
#[verifier::rlimit(60)]
pub proof fn calls_are_counted(w: World, this: u64, count: u64, scope: u64)
    requires
        calm(w),
        is_int32(count),
    ensures
        ({
            let n = if low(count) > 0 {
                low(count) as nat
            } else {
                0
            };
            let (made, total) = counted_up(w, scope, n);
            results_in(
                closurevar_fn5(),
                w,
                this,
                seq![count],
                scope,
                made,
                sum(w, made, total, variable(w, made, scope, (216, 85), (256, 92)), 101)->0,
            )
        }),
{
    let body = closurevar_fn5();
    let ops = body.ops;
    lemma_closurevar_fn5();
    lemma_place_of(body, 14, 4);
    lemma_place_of(body, 85, 20);
    let s = entry(body, this, seq![count], scope);
    lemma_here(ops, w, s);
    lemma_encoded(0);
    let s1 = lemma_on(ops, w, s, s);
    let s2 = lemma_mov_constant(ops, w, s, s1, loc(3), js_int(0));
    let s3 = lemma_mov_constant(ops, w, s, s2, loc(4), js_int(0));
    let m = if low(count) <= 0 {
        let b1 = lemma_jnless(ops, w, s, s3, loc(4), 1, 85, 10, true, 20);
        b1
    } else {
        let c1 = lemma_jnless(ops, w, s, s3, loc(4), 1, 85, 10, false, 20);
        let u = lemma_counting_rounds(w, scope, count, c1, 0);
        lemma_joined(ops, w, s, c1);
        u
    };
    let d1 = lemma_on(ops, w, s, m);
    let d2 = lemma_resolve_scope(ops, w, s, d1, loc(5), loc(1), 216, 85);
    let d3 = lemma_get_from_scope(ops, w, s, d2, loc(6), loc(5), 256, 92);
    let d4 = lemma_add(ops, w, s, d3, loc(7), loc(3), loc(6), 101);
    lemma_ret(ops, w, s, d4, d4.reg(loc(7)));
}

} // verus!
