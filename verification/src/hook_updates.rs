//! What the update of the hook in work does, in terms of what the engine answers.
use crate::bodies::{lemma_update_work_in_progress_hook, update_work_in_progress_hook};
use crate::bytecode::{loc, JS_NULL};
use crate::semantics::{
    calm, ends, entry, lemma_call, lemma_get_by_id, lemma_get_from_scope, lemma_here, lemma_jmp,
    lemma_jnnull, lemma_jnull, lemma_joined, lemma_mov_constant, lemma_on, lemma_place_of,
    lemma_put_by_id, lemma_put_to_scope, lemma_resolve_scope, lemma_ret, reaches, results_in,
    Request, State, World,
};
use vstd::prelude::*;

verus! {

/// The value of a variable: the scope is looked up at one call site, and the variable read at
/// another.
pub open spec fn variable(
    w: World,
    made: Seq<Request>,
    scope: u64,
    lookup: (i32, u32),
    read: (i32, u32),
) -> u64 {
    let found = w(made, Request::ResolveScope { scope, md_off: lookup.0, bc: lookup.1 })->0;
    w(made, Request::GetFromScope { scope: found, md_off: read.0, bc: read.1 })->0
}

/// The value of a property.
pub open spec fn property(
    w: World,
    made: Seq<Request>,
    base: u64,
    ident: u32,
    read: (i32, u32),
) -> u64 {
    w(made, Request::GetById { base, md_off: read.0, ident, bc: read.1 })->0
}

/// A value is written to a variable.
pub open spec fn assigned(
    w: World,
    made: Seq<Request>,
    scope: u64,
    val: u64,
    lookup: (i32, u32),
    write: (i32, u32),
) -> Seq<Request> {
    let found = w(made, Request::ResolveScope { scope, md_off: lookup.0, bc: lookup.1 })->0;
    made.push(Request::PutToScope { scope: found, val, md_off: write.0, bc: write.1 })
}

/// A property of `from` is copied to `to`.
pub open spec fn copied(
    w: World,
    made: Seq<Request>,
    from: u64,
    to: u64,
    ident: u32,
    read: (i32, u32),
    write: (i32, u32),
) -> Seq<Request> {
    let val = property(w, made, from, ident, read);
    made.push(Request::PutById { base: to, val, md_off: write.0, ident, bc: write.1 })
}

/// The next hook of the fiber that is shown: the one behind the current hook, or the first
/// one if there is no current hook.
pub open spec fn next_hook(w: World, scope: u64) -> u64 {
    let none = Seq::empty();
    if variable(w, none, scope, (200, 1), (232, 8)) == JS_NULL as u64 {
        let shown = property(w, none, variable(w, none, scope, (248, 21), (280, 28)), 0, (312, 37));
        if shown == JS_NULL as u64 {
            JS_NULL as u64
        } else {
            property(w, none, shown, 1, (328, 47))
        }
    } else {
        property(w, none, variable(w, none, scope, (344, 60), (376, 67)), 2, (408, 76))
    }
}

/// The next hook of the fiber in work: the one behind the hook in work, or the first one if
/// there is none.
pub open spec fn next_hook_in_work(w: World, scope: u64) -> u64 {
    let none = Seq::empty();
    if variable(w, none, scope, (424, 82), (456, 89)) == JS_NULL as u64 {
        property(w, none, variable(w, none, scope, (488, 102), (520, 109)), 3, (552, 118))
    } else {
        property(w, none, variable(w, none, scope, (568, 126), (600, 133)), 4, (632, 142))
    }
}

/// Unless there is no hook in work, a function found in a scope is called with it, and then
/// what that gave.
pub open spec fn reported(w: World, made: Seq<Request>, scope: u64, hook: u64) -> Seq<Request> {
    if hook == JS_NULL as u64 {
        made
    } else {
        let this = variable(w, made, scope, (776, 188), (808, 195));
        let first = Request::Call {
            callee: property(w, made, this, 5, (840, 204)),
            this,
            args: seq![hook],
            frame_size: 16,
            bc: 249,
        };
        let second = Request::Call {
            callee: w(made, first)->0,
            this,
            args: Seq::empty(),
            frame_size: 16,
            bc: 256,
        };
        made.push(first).push(second)
    }
}

/// The first part finds the next hook.
#[verifier::rlimit(60)]
proof fn lemma_hook_found(w: World, scope: u64, s: State) -> (t: State)
    requires
        calm(w),
        s.pc == 0,
        s.made =~= Seq::empty(),
        s.reg(loc(1)) == scope,
    ensures
        reaches(update_work_in_progress_hook().ops, w, s, t),
        t.pc == 18,
        t.made =~= Seq::empty(),
        t.reg(loc(1)) == scope,
        t.reg(loc(2)) == next_hook(w, scope),
{
    let body = update_work_in_progress_hook();
    let ops = body.ops;
    lemma_update_work_in_progress_hook();
    lemma_place_of(body, 55, 10);
    lemma_place_of(body, 58, 12);
    lemma_place_of(body, 60, 14);
    lemma_place_of(body, 82, 18);
    lemma_place_of(body, 126, 26);
    lemma_place_of(body, 148, 30);
    lemma_place_of(body, 184, 41);
    lemma_here(ops, w, s);
    let s1 = lemma_on(ops, w, s, s);
    let s2 = lemma_resolve_scope(ops, w, s, s1, loc(5), loc(1), 200, 1);
    let s3 = lemma_get_from_scope(ops, w, s, s2, loc(5), loc(5), 232, 8);
    if s3.reg(loc(5)) != JS_NULL as u64 {
        let b1 = lemma_jnnull(ops, w, s, s3, loc(5), 60, true, 14);
        let b2 = lemma_on(ops, w, s, b1);
        let b3 = lemma_resolve_scope(ops, w, s, b2, loc(6), loc(1), 344, 60);
        let b4 = lemma_get_from_scope(ops, w, s, b3, loc(6), loc(6), 376, 67);
        let b5 = lemma_get_by_id(ops, w, s, b4, loc(2), loc(6), 408, 2, 76);
        b5
    } else {
        let c1 = lemma_jnnull(ops, w, s, s3, loc(5), 60, false, 14);
        let c2 = lemma_resolve_scope(ops, w, s, c1, loc(6), loc(1), 248, 21);
        let c3 = lemma_get_from_scope(ops, w, s, c2, loc(6), loc(6), 280, 28);
        let c4 = lemma_get_by_id(ops, w, s, c3, loc(2), loc(6), 312, 0, 37);
        if c4.reg(loc(2)) == JS_NULL as u64 {
            let d1 = lemma_jnull(ops, w, s, c4, loc(2), 55, true, 10);
            let d2 = lemma_on(ops, w, s, d1);
            let d3 = lemma_mov_constant(ops, w, s, d2, loc(2), JS_NULL);
            let d4 = lemma_on(ops, w, s, d3);
            let d5 = lemma_jmp(ops, w, s, d4, 82, true, 18);
            d5
        } else {
            let g1 = lemma_jnull(ops, w, s, c4, loc(2), 55, false, 10);
            let g2 = lemma_get_by_id(ops, w, s, g1, loc(2), loc(2), 328, 1, 47);
            let g3 = lemma_jmp(ops, w, s, g2, 58, true, 12);
            let g4 = lemma_on(ops, w, s, g3);
            let g5 = lemma_jmp(ops, w, s, g4, 82, true, 18);
            g5
        }
    }
}

/// The second part finds the next hook in work.
#[verifier::rlimit(60)]
proof fn lemma_hook_in_work_found(w: World, scope: u64, s: State) -> (t: State)
    requires
        calm(w),
        s.pc == 18,
        s.made =~= Seq::empty(),
        s.reg(loc(1)) == scope,
    ensures
        reaches(update_work_in_progress_hook().ops, w, s, t),
        t.pc == 30,
        t.made =~= Seq::empty(),
        t.reg(loc(1)) == scope,
        t.reg(loc(2)) == s.reg(loc(2)),
        t.reg(loc(3)) == next_hook_in_work(w, scope),
{
    let body = update_work_in_progress_hook();
    let ops = body.ops;
    lemma_update_work_in_progress_hook();
    lemma_place_of(body, 55, 10);
    lemma_place_of(body, 58, 12);
    lemma_place_of(body, 60, 14);
    lemma_place_of(body, 82, 18);
    lemma_place_of(body, 126, 26);
    lemma_place_of(body, 148, 30);
    lemma_place_of(body, 184, 41);
    lemma_here(ops, w, s);
    let s1 = lemma_on(ops, w, s, s);
    let s2 = lemma_resolve_scope(ops, w, s, s1, loc(6), loc(1), 424, 82);
    let s3 = lemma_get_from_scope(ops, w, s, s2, loc(5), loc(6), 456, 89);
    if s3.reg(loc(5)) != JS_NULL as u64 {
        let b1 = lemma_jnnull(ops, w, s, s3, loc(5), 126, true, 26);
        let b2 = lemma_on(ops, w, s, b1);
        let b3 = lemma_resolve_scope(ops, w, s, b2, loc(6), loc(1), 568, 126);
        let b4 = lemma_get_from_scope(ops, w, s, b3, loc(6), loc(6), 600, 133);
        let b5 = lemma_get_by_id(ops, w, s, b4, loc(3), loc(6), 632, 4, 142);
        b5
    } else {
        let c1 = lemma_jnnull(ops, w, s, s3, loc(5), 126, false, 26);
        let c2 = lemma_resolve_scope(ops, w, s, c1, loc(6), loc(1), 488, 102);
        let c3 = lemma_get_from_scope(ops, w, s, c2, loc(6), loc(6), 520, 109);
        let c4 = lemma_get_by_id(ops, w, s, c3, loc(3), loc(6), 552, 3, 118);
        let c5 = lemma_jmp(ops, w, s, c4, 148, true, 30);
        c5
    }
}

/// The third part writes both hooks to variables and reports the one in work.
#[verifier::rlimit(60)]
proof fn lemma_hooks_assigned(w: World, scope: u64, s: State) -> (t: State)
    requires
        calm(w),
        s.pc == 30,
        s.reg(loc(1)) == scope,
    ensures
        reaches(update_work_in_progress_hook().ops, w, s, t),
        t.pc == 41,
        t.made == reported(
            w,
            assigned(
                w,
                assigned(w, s.made, scope, s.reg(loc(2)), (648, 152), (680, 159)),
                scope,
                s.reg(loc(3)),
                (712, 167),
                (744, 174),
            ),
            scope,
            s.reg(loc(3)),
        ),
        t.reg(loc(1)) == scope,
        t.reg(loc(2)) == s.reg(loc(2)),
        t.reg(loc(3)) == s.reg(loc(3)),
{
    let body = update_work_in_progress_hook();
    let ops = body.ops;
    lemma_update_work_in_progress_hook();
    lemma_place_of(body, 55, 10);
    lemma_place_of(body, 58, 12);
    lemma_place_of(body, 60, 14);
    lemma_place_of(body, 82, 18);
    lemma_place_of(body, 126, 26);
    lemma_place_of(body, 148, 30);
    lemma_place_of(body, 184, 41);
    lemma_here(ops, w, s);
    let s1 = lemma_on(ops, w, s, s);
    let s2 = lemma_resolve_scope(ops, w, s, s1, loc(6), loc(1), 648, 152);
    let s3 = lemma_put_to_scope(ops, w, s, s2, loc(6), loc(2), 680, 159);
    let s4 = lemma_resolve_scope(ops, w, s, s3, loc(6), loc(1), 712, 167);
    let s5 = lemma_put_to_scope(ops, w, s, s4, loc(6), loc(3), 744, 174);
    if s5.reg(loc(3)) == JS_NULL as u64 {
        let b1 = lemma_jnull(ops, w, s, s5, loc(3), 184, true, 41);
        b1
    } else {
        let c1 = lemma_jnull(ops, w, s, s5, loc(3), 184, false, 41);
        let c2 = lemma_resolve_scope(ops, w, s, c1, loc(7), loc(1), 776, 188);
        let c3 = lemma_get_from_scope(ops, w, s, c2, loc(7), loc(7), 808, 195);
        let c4 = lemma_get_by_id(ops, w, s, c3, loc(8), loc(7), 840, 5, 204);
        let c5 = lemma_call(
            ops,
            w,
            s,
            c4,
            loc(4),
            loc(8),
            loc(7),
            seq![loc(3)],
            16,
            249,
            seq![c4.reg(loc(3))],
        );
        let c6 = lemma_call(
            ops,
            w,
            s,
            c5,
            loc(4),
            loc(4),
            loc(7),
            Seq::empty(),
            16,
            256,
            Seq::empty(),
        );
        c6
    }
}

/// The last part copies three properties to the hook in work, clears a fourth, and returns a
/// variable.
#[verifier::rlimit(60)]
proof fn lemma_hook_filled(w: World, scope: u64, s: State)
    requires
        calm(w),
        s.pc == 41,
        s.reg(loc(1)) == scope,
    ensures
        ({
            let made = filled(w, s.made, s.reg(loc(2)), s.reg(loc(3)));
            ends(update_work_in_progress_hook().ops, w, s, made, variable(w, made, scope, (1024, 558), (1056, 565)))
        }),
{
    let body = update_work_in_progress_hook();
    let ops = body.ops;
    lemma_update_work_in_progress_hook();
    lemma_place_of(body, 55, 10);
    lemma_place_of(body, 58, 12);
    lemma_place_of(body, 60, 14);
    lemma_place_of(body, 82, 18);
    lemma_place_of(body, 126, 26);
    lemma_place_of(body, 148, 30);
    lemma_place_of(body, 184, 41);
    lemma_here(ops, w, s);
    let s1 = lemma_on(ops, w, s, s);
    let s2 = lemma_get_by_id(ops, w, s, s1, loc(4), loc(2), 856, 6, 351);
    let s3 = lemma_put_by_id(ops, w, s, s2, loc(3), loc(4), 880, 6, 357);
    let s4 = lemma_get_by_id(ops, w, s, s3, loc(4), loc(2), 904, 7, 379);
    let s5 = lemma_put_by_id(ops, w, s, s4, loc(3), loc(4), 928, 7, 385);
    let s6 = lemma_get_by_id(ops, w, s, s5, loc(4), loc(2), 952, 8, 407);
    let s7 = lemma_put_by_id(ops, w, s, s6, loc(3), loc(4), 976, 8, 413);
    let s8 = lemma_mov_constant(ops, w, s, s7, loc(4), JS_NULL);
    let s9 = lemma_put_by_id(ops, w, s, s8, loc(3), loc(4), 1000, 9, 447);
    let s10 = lemma_resolve_scope(ops, w, s, s9, loc(6), loc(1), 1024, 558);
    let s11 = lemma_get_from_scope(ops, w, s, s10, loc(4), loc(6), 1056, 565);
    let made = filled(w, s.made, s.reg(loc(2)), s.reg(loc(3)));
    assert(s11.made == made);
    lemma_ret(ops, w, s, s11, variable(w, made, scope, (1024, 558), (1056, 565)));
}

/// Three properties are copied from a hook to the hook in work, and a fourth is cleared.
pub open spec fn filled(w: World, made: Seq<Request>, hook: u64, in_work: u64) -> Seq<Request> {
    let made = copied(w, made, hook, in_work, 6, (856, 351), (880, 357));
    let made = copied(w, made, hook, in_work, 7, (904, 379), (928, 385));
    let made = copied(w, made, hook, in_work, 8, (952, 407), (976, 413));
    made.push(
        Request::PutById {
            base: in_work,
            val: JS_NULL as u64,
            md_off: 1000,
            ident: 9,
            bc: 447,
        },
    )
}

/// The update makes the next hook current, and the next hook in work the one in work. It
/// reports the hook in work if there is one, gives it three properties of the current hook and
/// an empty fourth, and returns a variable. What is written and called is that, in this order.
pub proof fn hooks_are_updated(w: World, this: u64, scope: u64)
    requires
        calm(w),
    ensures
        ({
            let hook = next_hook(w, scope);
            let in_work = next_hook_in_work(w, scope);
            let made = assigned(w, Seq::empty(), scope, hook, (648, 152), (680, 159));
            let made = assigned(w, made, scope, in_work, (712, 167), (744, 174));
            let made = filled(w, reported(w, made, scope, in_work), hook, in_work);
            results_in(
                update_work_in_progress_hook(),
                w,
                this,
                Seq::empty(),
                scope,
                made,
                variable(w, made, scope, (1024, 558), (1056, 565)),
            )
        }),
{
    let ops = update_work_in_progress_hook().ops;
    let s = entry(update_work_in_progress_hook(), this, Seq::empty(), scope);
    let s1 = lemma_hook_found(w, scope, s);
    let s2 = lemma_hook_in_work_found(w, scope, s1);
    let s3 = lemma_hooks_assigned(w, scope, s2);
    lemma_hook_filled(w, scope, s3);
    lemma_joined(ops, w, s2, s3);
    lemma_joined(ops, w, s1, s2);
    lemma_joined(ops, w, s, s1);
}

} // verus!
