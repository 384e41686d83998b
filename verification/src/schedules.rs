//! What the scheduler does, in terms of what the engine answers.
use crate::bodies::{lemma_scheduler_schedule, scheduler_schedule};
use crate::bytecode::{loc, JS_UNDEFINED};
use crate::hook_updates::property;
use crate::meaning::is_nullish;
use crate::semantics::{
    calm, ends, entry, lemma_call, lemma_get_by_id, lemma_here, lemma_jeqnull, lemma_jfalse,
    lemma_jmp, lemma_joined, lemma_jtrue, lemma_mov, lemma_neq_null, lemma_on, lemma_place_of,
    lemma_put_by_id, lemma_ret, lemma_to_this, reaches, results_in, truthy, Request, State, World,
};
use vstd::prelude::*;

verus! {

/// One round of the scheduler: the current task is asked whether it is held. If it is, the
/// task behind it becomes current. Else its number is noted, it runs, and what it gives
/// becomes current.
pub open spec fn scheduled(w: World, this: u64, made: Seq<Request>) -> Seq<Request> {
    let task = property(w, made, this, 1, (232, 32));
    let ask = Request::Call {
        callee: property(w, made, task, 2, (248, 38)),
        this: task,
        args: Seq::empty(),
        frame_size: 10,
        bc: 44,
    };
    let held = truthy(w, made.push(ask), w(made, ask)->0) == Some(true);
    let made = made.push(ask);
    if held {
        let task = property(w, made, this, 1, (264, 57));
        let behind = property(w, made, task, 3, (280, 63));
        made.push(Request::PutById { base: this, val: behind, md_off: 128, ident: 1, bc: 69 })
    } else {
        let task = property(w, made, this, 1, (296, 80));
        let number = property(w, made, task, 4, (312, 86));
        let made = made.push(
            Request::PutById { base: this, val: number, md_off: 152, ident: 5, bc: 92 },
        );
        let task = property(w, made, this, 1, (328, 101));
        let run = Request::Call {
            callee: property(w, made, task, 6, (344, 107)),
            this: task,
            args: Seq::empty(),
            frame_size: 10,
            bc: 113,
        };
        made.push(run).push(
            Request::PutById {
                base: this,
                val: w(made, run)->0,
                md_off: 176,
                ident: 1,
                bc: 120,
            },
        )
    }
}

/// What is made before the first round: the first task becomes current.
pub open spec fn schedule_begun(w: World, this: u64) -> Seq<Request> {
    let first = property(w, Seq::empty(), this, 0, (200, 9));
    seq![Request::PutById { base: this, val: first, md_off: 104, ident: 1, bc: 15 }]
}

/// What is made in the first `n` rounds.
pub open spec fn schedule_rounds(w: World, this: u64, n: nat) -> Seq<Request>
    decreases n,
{
    if n == 0 {
        schedule_begun(w, this)
    } else {
        scheduled(w, this, schedule_rounds(w, this, (n - 1) as nat))
    }
}

/// There is a current task before the round `i`.
pub open spec fn task_left(w: World, this: u64, i: nat) -> bool {
    let site = if i == 0 {
        (216i32, 21u32)
    } else {
        (360i32, 126u32)
    };
    !is_nullish(property(w, schedule_rounds(w, this, i), this, 1, site))
}

/// One round, from the state `s` at the head of the loop to the test at its end.
#[verifier::rlimit(60)]
proof fn lemma_schedule_round(w: World, this: u64, s: State) -> (t: State)
    requires
        calm(w),
        s.pc == 7,
        s.reg(0) == this,
    ensures
        reaches(scheduler_schedule().ops, w, s, t),
        t.made == scheduled(w, this, s.made),
        t.reg(0) == this,
        t.pc == if is_nullish(property(w, t.made, this, 1, (360, 126))) {
            34int
        } else {
            7int
        },
{
    let body = scheduler_schedule();
    let ops = body.ops;
    lemma_scheduler_schedule();
    lemma_place_of(body, 30, 7);
    lemma_place_of(body, 77, 19);
    lemma_place_of(body, 126, 29);
    lemma_place_of(body, 138, 33);
    lemma_here(ops, w, s);
    let s1 = lemma_on(ops, w, s, s);
    let s2 = lemma_on(ops, w, s, s1);
    let s3 = lemma_on(ops, w, s, s2);
    let s4 = lemma_get_by_id(ops, w, s, s3, loc(4), 0, 232, 1, 32);
    let s5 = lemma_get_by_id(ops, w, s, s4, loc(2), loc(4), 248, 2, 38);
    let s6 = lemma_call(ops, w, s, s5, loc(2), loc(2), loc(4), Seq::empty(), 10, 44, Seq::empty());
    let v = s6.reg(loc(2));
    assert(truthy(w, s6.made, v) is Some);
    let m = if truthy(w, s6.made, v) == Some(true) {
        let b1 = lemma_jfalse(ops, w, s, s6, loc(2), 77, false, 19);
        let b2 = lemma_mov(ops, w, s, b1, loc(2), 0);
        let b3 = lemma_get_by_id(ops, w, s, b2, loc(4), 0, 264, 1, 57);
        let b4 = lemma_get_by_id(ops, w, s, b3, loc(3), loc(4), 280, 3, 63);
        let b5 = lemma_put_by_id(ops, w, s, b4, loc(2), loc(3), 128, 1, 69);
        let b6 = lemma_jmp(ops, w, s, b5, 126, true, 29);
        let b7 = lemma_on(ops, w, s, b6);
        let b8 = lemma_get_by_id(ops, w, s, b7, loc(2), 0, 360, 1, 126);
        let b9 = lemma_neq_null(ops, w, s, b8, loc(2), loc(2));
        b9
    } else {
        let c1 = lemma_jfalse(ops, w, s, s6, loc(2), 77, true, 19);
        let c2 = lemma_on(ops, w, s, c1);
        let c3 = lemma_mov(ops, w, s, c2, loc(2), 0);
        let c4 = lemma_get_by_id(ops, w, s, c3, loc(4), 0, 296, 1, 80);
        let c5 = lemma_get_by_id(ops, w, s, c4, loc(3), loc(4), 312, 4, 86);
        let c6 = lemma_put_by_id(ops, w, s, c5, loc(2), loc(3), 152, 5, 92);
        let c7 = lemma_mov(ops, w, s, c6, loc(2), 0);
        let c8 = lemma_get_by_id(ops, w, s, c7, loc(4), 0, 328, 1, 101);
        let c9 = lemma_get_by_id(ops, w, s, c8, loc(3), loc(4), 344, 6, 107);
        let c10 = lemma_call(
            ops,
            w,
            s,
            c9,
            loc(3),
            loc(3),
            loc(4),
            Seq::empty(),
            10,
            113,
            Seq::empty(),
        );
        let c11 = lemma_put_by_id(ops, w, s, c10, loc(2), loc(3), 176, 1, 120);
        let c12 = lemma_on(ops, w, s, c11);
        let c13 = lemma_get_by_id(ops, w, s, c12, loc(2), 0, 360, 1, 126);
        let c14 = lemma_neq_null(ops, w, s, c13, loc(2), loc(2));
        c14
    };
    assert(m.made == scheduled(w, this, s.made));
    let left = !is_nullish(property(w, m.made, this, 1, (360, 126)));
    assert(truthy(w, m.made, m.reg(loc(2))) == Some(left));
    if left {
        let d1 = lemma_jtrue(ops, w, s, m, loc(2), 30, true, 7);
        d1
    } else {
        let g1 = lemma_jtrue(ops, w, s, m, loc(2), 30, false, 7);
        let g2 = lemma_on(ops, w, s, g1);
        g2
    }
}

/// The rounds from the `i`-th on, of `n` in all.
proof fn lemma_schedule_rounds(w: World, this: u64, s: State, i: nat, n: nat)
    requires
        calm(w),
        s.pc == 7,
        s.reg(0) == this,
        s.made == schedule_rounds(w, this, i),
        i < n,
        forall|j: nat| i < j < n ==> #[trigger] task_left(w, this, j),
        !task_left(w, this, n),
    ensures
        ends(scheduler_schedule().ops, w, s, schedule_rounds(w, this, n), JS_UNDEFINED as u64),
    decreases n - i,
{
    let ops = scheduler_schedule().ops;
    let t = lemma_schedule_round(w, this, s);
    assert(t.made == schedule_rounds(w, this, i + 1));
    if i + 1 < n {
        assert(task_left(w, this, i + 1));
        lemma_schedule_rounds(w, this, t, i + 1, n);
        lemma_joined(ops, w, s, t);
    } else {
        assert(!task_left(w, this, i + 1));
        lemma_ret(ops, w, s, t, JS_UNDEFINED as u64);
    }
}

/// The scheduler makes the first task current and goes round as long as there is a current
/// task: see [`scheduled`]. It returns undefined, and what is written and called is that of the
/// rounds.
#[verifier::rlimit(60)]
pub proof fn tasks_are_scheduled(w: World, this: u64, scope: u64, n: nat)
    requires
        calm(w),
        ({
            let this = w(Seq::empty(), Request::ToThis { this })->0;
            &&& forall|i: nat| i < n ==> #[trigger] task_left(w, this, i)
            &&& !task_left(w, this, n)
        }),
    ensures
        results_in(
            scheduler_schedule(),
            w,
            this,
            Seq::empty(),
            scope,
            schedule_rounds(w, w(Seq::empty(), Request::ToThis { this })->0, n),
            JS_UNDEFINED as u64,
        ),
{
    let body = scheduler_schedule();
    let ops = body.ops;
    lemma_scheduler_schedule();
    lemma_place_of(body, 30, 7);
    lemma_place_of(body, 77, 19);
    lemma_place_of(body, 126, 29);
    lemma_place_of(body, 138, 33);
    let s = entry(body, this, Seq::empty(), scope);
    let object = w(Seq::empty(), Request::ToThis { this })->0;
    lemma_here(ops, w, s);
    let s1 = lemma_on(ops, w, s, s);
    let s2 = lemma_to_this(ops, w, s, s1);
    let s3 = lemma_mov(ops, w, s, s2, loc(2), 0);
    let s4 = lemma_get_by_id(ops, w, s, s3, loc(3), 0, 200, 0, 9);
    let s5 = lemma_put_by_id(ops, w, s, s4, loc(2), loc(3), 104, 1, 15);
    let s6 = lemma_get_by_id(ops, w, s, s5, loc(2), 0, 216, 1, 21);
    assert(s6.made =~= schedule_begun(w, object));
    assert(schedule_rounds(w, object, 0) == schedule_begun(w, object));
    if n == 0 {
        assert(!task_left(w, object, 0));
        let b1 = lemma_jeqnull(ops, w, s, s6, loc(2), 138, true, 33);
        let b2 = lemma_on(ops, w, s, b1);
        lemma_ret(ops, w, s, b2, JS_UNDEFINED as u64);
    } else {
        assert(task_left(w, object, 0));
        let c1 = lemma_jeqnull(ops, w, s, s6, loc(2), 138, false, 33);
        lemma_schedule_rounds(w, object, c1, 0, n);
        lemma_joined(ops, w, s, c1);
    }
}

} // verus!
