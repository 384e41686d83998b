//! What the comparison of hook inputs says, in terms of the arrays that it compares.
use crate::bodies::{are_hook_inputs_equal, lemma_are_hook_inputs_equal};
use crate::bytecode::{js_int, loc, JS_FALSE, JS_NULL, JS_TRUE};
use crate::meaning::{is_cell, is_number};
use crate::runs::boxed;
use crate::semantics::{
    ends, entry, lemma_encoded, lemma_get_by_val, lemma_get_length, lemma_here, lemma_inc,
    lemma_jless, lemma_jnless, lemma_jnnull, lemma_joined, lemma_jstricteq, lemma_mov_constant,
    lemma_on, lemma_place_of, lemma_ret, reaches, results_in, same, Request, State, World,
};
use vstd::prelude::*;

verus! {

/// Two values are strictly equal, where `eq` says which cells and which numbers are.
pub open spec fn equal(eq: spec_fn(u64, u64) -> bool, l: u64, r: u64) -> bool {
    l == r || (is_cell(l) && is_cell(r) || is_number(l) && is_number(r)) && eq(l, r)
}

/// The value `v` is an array with the elements `xs`, for those who ask for its length or for
/// an element at one of the given call sites.
pub open spec fn is_array(
    w: World,
    v: u64,
    xs: Seq<u64>,
    length_sites: Set<u32>,
    element_site: u32,
) -> bool {
    &&& xs.len() <= i32::MAX
    &&& forall|made: Seq<Request>, bc: u32|
        length_sites.contains(bc) ==> #[trigger] w(made, Request::GetLength { base: v, bc })
            == Some(boxed(xs.len() as i32))
    &&& forall|made: Seq<Request>, i: int|
        #![trigger w(made, Request::GetByVal { base: v, idx: boxed(i as i32), bc: element_site })]
        0 <= i < xs.len() ==> w(
            made,
            Request::GetByVal { base: v, idx: boxed(i as i32), bc: element_site },
        ) == Some(xs[i])
}

/// What the comparison of two arrays goes by.
pub open spec fn compares(
    w: World,
    eq: spec_fn(u64, u64) -> bool,
    next: u64,
    prev: u64,
    xs: Seq<u64>,
    ys: Seq<u64>,
) -> bool {
    &&& is_array(w, next, xs, set![19u32, 60u32], 30)
    &&& is_array(w, prev, ys, set![10u32, 51u32], 36)
    &&& forall|made: Seq<Request>| #[trigger]
        w(made, Request::HandleTraps { bc: 29 }) == Some(0u64)
    &&& forall|made: Seq<Request>, l: u64, r: u64| #[trigger]
        w(made, Request::StrictEq { lhs: l, rhs: r }) == Some(
            if eq(l, r) {
                1u64
            } else {
                0u64
            },
        )
}

/// One round of the comparison, from the state `s` at the head of the loop.
#[verifier::rlimit(60)]
proof fn lemma_hook_round(
    w: World,
    eq: spec_fn(u64, u64) -> bool,
    next: u64,
    prev: u64,
    xs: Seq<u64>,
    ys: Seq<u64>,
    s: State,
    i: int,
) -> (t: State)
    requires
        compares(w, eq, next, prev, xs, ys),
        s.pc == 9,
        s.made.len() == 0,
        s.reg(1) == next,
        s.reg(2) == prev,
        s.reg(loc(2)) == boxed(i as i32),
        0 <= i < xs.len(),
        i < ys.len(),
    ensures
        ({
            let ops = are_hook_inputs_equal().ops;
            if !equal(eq, xs[i], ys[i]) {
                ends(ops, w, s, Seq::empty(), JS_FALSE as u64)
            } else if i + 1 >= xs.len() || i + 1 >= ys.len() {
                ends(ops, w, s, Seq::empty(), JS_TRUE as u64)
            } else {
                &&& reaches(ops, w, s, t)
                &&& t.pc == 9
                &&& t.made.len() == 0
                &&& t.reg(1) == next
                &&& t.reg(2) == prev
                &&& t.reg(loc(2)) == boxed((i + 1) as i32)
            }
        }),
{
    let body = are_hook_inputs_equal();
    let ops = body.ops;
    lemma_are_hook_inputs_equal();
    lemma_place_of(body, 7, 3);
    lemma_place_of(body, 28, 9);
    lemma_place_of(body, 48, 16);
    lemma_place_of(body, 69, 22);
    lemma_here(ops, w, s);
    lemma_encoded(i as i32);
    lemma_encoded((i + 1) as i32);
    lemma_encoded(1);
    lemma_encoded(xs.len() as i32);
    lemma_encoded(ys.len() as i32);
    assert(s.made =~= Seq::empty());
    let s1 = lemma_on(ops, w, s, s);
    let s2 = lemma_on(ops, w, s, s1);
    let s3 = lemma_on(ops, w, s, s2);
    let s4 = lemma_get_by_val(ops, w, s, s3, loc(3), 1, loc(2), 30);
    let s5 = lemma_get_by_val(ops, w, s, s4, loc(4), 2, loc(2), 36);
    assert(s5.reg(loc(3)) == xs[i] && s5.reg(loc(4)) == ys[i]);
    assert(same(w, s5.made, xs[i], ys[i]) == Some(equal(eq, xs[i], ys[i])));
    if !equal(eq, xs[i], ys[i]) {
        let t1 = lemma_jstricteq(ops, w, s, s5, loc(3), loc(4), 48, false, 16);
        lemma_ret(ops, w, s, t1, JS_FALSE as u64);
        s
    } else {
        let u1 = lemma_jstricteq(ops, w, s, s5, loc(3), loc(4), 48, true, 16);
        let u2 = lemma_on(ops, w, s, u1);
        let u3 = lemma_inc(ops, w, s, u2, loc(2), 48, i as i32);
        let u4 = lemma_get_length(ops, w, s, u3, loc(3), 2, 51);
        assert(u4.reg(loc(2)) == boxed((i + 1) as i32));
        assert(u4.reg(loc(3)) == boxed(ys.len() as i32));
        if i + 1 >= ys.len() {
            let v1 = lemma_jnless(ops, w, s, u4, loc(2), loc(3), 69, 56, true, 22);
            let v2 = lemma_on(ops, w, s, v1);
            lemma_ret(ops, w, s, v2, JS_TRUE as u64);
            s
        } else {
            let x1 = lemma_jnless(ops, w, s, u4, loc(2), loc(3), 69, 56, false, 22);
            let x2 = lemma_get_length(ops, w, s, x1, loc(3), 1, 60);
            assert(x2.reg(loc(3)) == boxed(xs.len() as i32));
            if i + 1 >= xs.len() {
                let y1 = lemma_jless(ops, w, s, x2, loc(2), loc(3), 28, 65, false, 9);
                let y2 = lemma_on(ops, w, s, y1);
                lemma_ret(ops, w, s, y2, JS_TRUE as u64);
                s
            } else {
                let z1 = lemma_jless(ops, w, s, x2, loc(2), loc(3), 28, 65, true, 9);
                z1
            }
        }
    }
}

/// All rounds from the `i`-th on.
proof fn lemma_hook_rounds(
    w: World,
    eq: spec_fn(u64, u64) -> bool,
    next: u64,
    prev: u64,
    xs: Seq<u64>,
    ys: Seq<u64>,
    s: State,
    i: int,
)
    requires
        compares(w, eq, next, prev, xs, ys),
        s.pc == 9,
        s.made.len() == 0,
        s.reg(1) == next,
        s.reg(2) == prev,
        s.reg(loc(2)) == boxed(i as i32),
        0 <= i < xs.len(),
        i < ys.len(),
    ensures
        ends(
            are_hook_inputs_equal().ops,
            w,
            s,
            Seq::empty(),
            if forall|j: int| i <= j < xs.len() && j < ys.len() ==> #[trigger] equal(eq, xs[j], ys[j]) {
                JS_TRUE as u64
            } else {
                JS_FALSE as u64
            },
        ),
    decreases xs.len() - i,
{
    let t = lemma_hook_round(w, eq, next, prev, xs, ys, s, i);
    if equal(eq, xs[i], ys[i]) && i + 1 < xs.len() && i + 1 < ys.len() {
        lemma_hook_rounds(w, eq, next, prev, xs, ys, t, i + 1);
        lemma_joined(are_hook_inputs_equal().ops, w, s, t);
        assert((forall|j: int|
            i <= j < xs.len() && j < ys.len() ==> #[trigger] equal(eq, xs[j], ys[j])) <==> (forall|
            j: int,
        |
            i + 1 <= j < xs.len() && j < ys.len() ==> #[trigger] equal(eq, xs[j], ys[j])));
    }
}

/// The comparison says true if and only if the second argument is not null and the elements
/// of the two arrays are strictly equal, up to the shorter length. Else it says false. Nothing
/// is written or called.
#[verifier::rlimit(60)]
pub proof fn hook_inputs_are_compared(
    w: World,
    eq: spec_fn(u64, u64) -> bool,
    this: u64,
    next: u64,
    prev: u64,
    scope: u64,
    xs: Seq<u64>,
    ys: Seq<u64>,
)
    requires
        prev != JS_NULL as u64 ==> compares(w, eq, next, prev, xs, ys),
    ensures
        results_in(
            are_hook_inputs_equal(),
            w,
            this,
            seq![next, prev],
            scope,
            Seq::empty(),
            if prev != JS_NULL as u64 && forall|j: int|
                0 <= j < xs.len() && j < ys.len() ==> #[trigger] equal(eq, xs[j], ys[j]) {
                JS_TRUE as u64
            } else {
                JS_FALSE as u64
            },
        ),
{
    let body = are_hook_inputs_equal();
    let ops = body.ops;
    lemma_are_hook_inputs_equal();
    lemma_place_of(body, 7, 3);
    lemma_place_of(body, 28, 9);
    lemma_place_of(body, 48, 16);
    lemma_place_of(body, 69, 22);
    let s = entry(body, this, seq![next, prev], scope);
    lemma_here(ops, w, s);
    let s1 = lemma_on(ops, w, s, s);
    if prev == JS_NULL as u64 {
        let n1 = lemma_jnnull(ops, w, s, s1, 2, 7, false, 3);
        lemma_ret(ops, w, s, n1, JS_FALSE as u64);
    } else {
        lemma_encoded(0);
        lemma_encoded(xs.len() as i32);
        lemma_encoded(ys.len() as i32);
        let m1 = lemma_jnnull(ops, w, s, s1, 2, 7, true, 3);
        let m2 = lemma_on(ops, w, s, m1);
        let m3 = lemma_mov_constant(ops, w, s, m2, loc(2), js_int(0));
        let m4 = lemma_get_length(ops, w, s, m3, loc(3), 2, 10);
        assert(m4.reg(loc(2)) == boxed(0) && m4.reg(loc(3)) == boxed(ys.len() as i32));
        if ys.len() == 0 {
            let o1 = lemma_jnless(ops, w, s, m4, loc(2), loc(3), 69, 15, true, 22);
            let o2 = lemma_on(ops, w, s, o1);
            lemma_ret(ops, w, s, o2, JS_TRUE as u64);
        } else {
            let p1 = lemma_jnless(ops, w, s, m4, loc(2), loc(3), 69, 15, false, 22);
            let p2 = lemma_get_length(ops, w, s, p1, loc(3), 1, 19);
            assert(p2.reg(loc(3)) == boxed(xs.len() as i32));
            if xs.len() == 0 {
                let r1 = lemma_jnless(ops, w, s, p2, loc(2), loc(3), 69, 24, true, 22);
                let r2 = lemma_on(ops, w, s, r1);
                lemma_ret(ops, w, s, r2, JS_TRUE as u64);
            } else {
                let h1 = lemma_jnless(ops, w, s, p2, loc(2), loc(3), 69, 24, false, 22);
                lemma_hook_rounds(w, eq, next, prev, xs, ys, h1, 0);
                lemma_joined(ops, w, s, h1);
            }
        }
    }
}

} // verus!
