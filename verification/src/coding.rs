//! What the loop over a typed array does, in terms of what the engine answers.
use crate::bodies::{lemma_typedarray_fn1, typedarray_fn1};
use crate::bytecode::{js_int, loc};
use crate::runs::{boxed, is_int32, low};
use crate::semantics::{
    bits, calm, entry, lemma_add, lemma_add_constant, lemma_bitop, lemma_bitop_constant,
    lemma_call, lemma_encoded, lemma_get_by_val, lemma_get_from_scope, lemma_get_length,
    lemma_here, lemma_inc, lemma_jless, lemma_jnless, lemma_joined, lemma_mov, lemma_mov_constant,
    lemma_on, lemma_place_of, lemma_put_by_val, lemma_resolve_scope, lemma_ret, reaches,
    results_in, sum, Request, State, World,
};
use vstd::prelude::*;

verus! {

/// What the loop over a typed array has come to: what it made, its position in the input, and
/// the sum of the bytes that it wrote.
pub struct Coded {
    pub made: Seq<Request>,
    pub position: u64,
    pub total: u64,
}

/// One round of the loop: a word is read at the position, by a function found in a scope. The
/// byte at `i` of the output is the exclusive or of the word, an entry of the table, an element
/// of the input and the sum so far. The sum and the position go on.
pub open spec fn coded(
    w: World,
    scope: u64,
    input: u64,
    output: u64,
    table: u64,
    i: u64,
    c: Coded,
) -> Coded {
    let made = c.made;
    let this = w(made, Request::ResolveScope { scope, md_off: 232, bc: 27 })->0;
    let call = Request::Call {
        callee: w(made, Request::GetFromScope { scope: this, md_off: 248, bc: 34 })->0,
        this,
        args: seq![input, c.position],
        frame_size: 18,
        bc: 49,
    };
    let word = w(made, call)->0;
    let made = made.push(call);
    let entry = w(
        made,
        Request::GetByVal {
            base: table,
            idx: bits(w, made, 0, word, js_int(511) as u64, 56)->0,
            bc: 62,
        },
    )->0;
    let eighth = bits(w, made, 3, c.position, js_int(3) as u64, 68)->0;
    let element = w(
        made,
        Request::GetByVal {
            base: input,
            idx: sum(w, made, eighth, js_int(3) as u64, 73)->0,
            bc: 79,
        },
    )->0;
    let mixed = bits(w, made, 2, word, entry, 91)->0;
    let mixed = bits(w, made, 2, mixed, element, 97)->0;
    let mixed = bits(w, made, 2, mixed, c.total, 103)->0;
    let byte = bits(w, made, 0, mixed, js_int(255) as u64, 109)->0;
    let made = made.push(Request::PutByVal { base: output, idx: i, val: byte, bc: 115 });
    let written = w(made, Request::GetByVal { base: output, idx: i, bc: 121 })->0;
    let total = sum(w, made, c.total, written, 127)->0;
    let length = bits(w, made, 0, entry, js_int(15) as u64, 139)->0;
    let position = sum(w, made, c.position, length, 145)->0;
    let position = sum(w, made, position, js_int(1) as u64, 151)->0;
    Coded {
        made,
        position: bits(w, made, 1, position, js_int(0) as u64, 157)->0,
        total: bits(w, made, 1, total, js_int(0) as u64, 133)->0,
    }
}

/// What the first `n` rounds come to.
pub open spec fn coded_up(
    w: World,
    scope: u64,
    input: u64,
    output: u64,
    table: u64,
    n: nat,
) -> Coded
    decreases n,
{
    if n == 0 {
        Coded { made: Seq::empty(), position: boxed(0), total: boxed(0) }
    } else {
        coded(
            w,
            scope,
            input,
            output,
            table,
            boxed((n - 1) as i32),
            coded_up(w, scope, input, output, table, (n - 1) as nat),
        )
    }
}

/// The state has come to that.
spec fn has_come(s: State, scope: u64, input: u64, output: u64, table: u64, c: Coded) -> bool {
    &&& s.made == c.made
    &&& s.reg(loc(6)) == c.position
    &&& s.reg(loc(2)) == c.total
    &&& s.reg(loc(1)) == scope
    &&& s.reg(1) == input
    &&& s.reg(2) == output
    &&& s.reg(3) == table
}

/// One round, from the state `s` at the head of the loop.
#[verifier::rlimit(100)]
proof fn lemma_coding_round(
    w: World,
    scope: u64,
    input: u64,
    output: u64,
    table: u64,
    count: u64,
    s: State,
    i: int,
    c: Coded,
) -> (t: State)
    requires
        calm(w),
        is_int32(count),
        0 <= i < low(count),
        s.pc == 7,
        s.reg(loc(5)) == count,
        s.reg(loc(4)) == boxed(i as i32),
        has_come(s, scope, input, output, table, c),
    ensures
        reaches(typedarray_fn1().ops, w, s, t),
        has_come(t, scope, input, output, table, coded(w, scope, input, output, table, boxed(i as i32), c)),
        t.reg(loc(5)) == count,
        t.reg(loc(4)) == boxed((i + 1) as i32),
        t.pc == if i + 1 < low(count) {
            7int
        } else {
            36int
        },
{
    let body = typedarray_fn1();
    let ops = body.ops;
    lemma_typedarray_fn1();
    lemma_place_of(body, 25, 7);
    lemma_place_of(body, 174, 36);
    lemma_here(ops, w, s);
    lemma_encoded(i as i32);
    lemma_encoded((i + 1) as i32);
    lemma_encoded(1);
    let s1 = lemma_on(ops, w, s, s);
    let s2 = lemma_on(ops, w, s, s1);
    let s3 = lemma_on(ops, w, s, s2);
    let s4 = lemma_resolve_scope(ops, w, s, s3, loc(12), loc(1), 232, 27);
    let s5 = lemma_get_from_scope(ops, w, s, s4, loc(9), loc(12), 248, 34);
    let s6 = lemma_mov(ops, w, s, s5, loc(11), 1);
    let s7 = lemma_mov(ops, w, s, s6, loc(10), loc(6));
    let s8 = lemma_call(
        ops,
        w,
        s,
        s7,
        loc(8),
        loc(9),
        loc(12),
        seq![loc(11), loc(10)],
        18,
        49,
        seq![s7.reg(loc(11)), s7.reg(loc(10))],
    );
    let s9 = lemma_bitop_constant(ops, w, s, s8, 0, loc(9), loc(8), 511, 56);
    let s10 = lemma_get_by_val(ops, w, s, s9, loc(7), 3, loc(9), 62);
    let s11 = lemma_bitop_constant(ops, w, s, s10, 3, loc(9), loc(6), 3, 68);
    let s12 = lemma_add_constant(ops, w, s, s11, loc(9), loc(9), 3, 73);
    let s13 = lemma_get_by_val(ops, w, s, s12, loc(3), 1, loc(9), 79);
    let s14 = lemma_mov(ops, w, s, s13, loc(9), 2);
    let s15 = lemma_mov(ops, w, s, s14, loc(10), loc(4));
    let s16 = lemma_bitop(ops, w, s, s15, 2, loc(11), loc(8), loc(7), 91);
    let s17 = lemma_bitop(ops, w, s, s16, 2, loc(11), loc(11), loc(3), 97);
    let s18 = lemma_bitop(ops, w, s, s17, 2, loc(11), loc(11), loc(2), 103);
    let s19 = lemma_bitop_constant(ops, w, s, s18, 0, loc(11), loc(11), 255, 109);
    let s20 = lemma_put_by_val(ops, w, s, s19, loc(9), loc(10), loc(11), 115);
    let s21 = lemma_get_by_val(ops, w, s, s20, loc(9), 2, loc(4), 121);
    let s22 = lemma_add(ops, w, s, s21, loc(10), loc(2), loc(9), 127);
    let s23 = lemma_bitop_constant(ops, w, s, s22, 1, loc(2), loc(10), 0, 133);
    let s24 = lemma_bitop_constant(ops, w, s, s23, 0, loc(9), loc(7), 15, 139);
    let s25 = lemma_add(ops, w, s, s24, loc(10), loc(6), loc(9), 145);
    let s26 = lemma_add_constant(ops, w, s, s25, loc(10), loc(10), 1, 151);
    let s27 = lemma_bitop_constant(ops, w, s, s26, 1, loc(6), loc(10), 0, 157);
    let s28 = lemma_inc(ops, w, s, s27, loc(4), 163, i as i32);
    assert(s28.reg(loc(4)) == boxed((i + 1) as i32));
    assert(has_come(s28, scope, input, output, table, coded(w, scope, input, output, table, boxed(i as i32), c)));
    if i + 1 < low(count) {
        let b1 = lemma_jless(ops, w, s, s28, loc(4), loc(5), 25, 166, true, 7);
        b1
    } else {
        let c1 = lemma_jless(ops, w, s, s28, loc(4), loc(5), 25, 166, false, 7);
        c1
    }
}

/// The rounds from the `i`-th on.
proof fn lemma_coding_rounds(
    w: World,
    scope: u64,
    input: u64,
    output: u64,
    table: u64,
    count: u64,
    s: State,
    i: int,
) -> (t: State)
    requires
        calm(w),
        is_int32(count),
        0 <= i < low(count),
        s.pc == 7,
        s.reg(loc(5)) == count,
        s.reg(loc(4)) == boxed(i as i32),
        has_come(s, scope, input, output, table, coded_up(w, scope, input, output, table, i as nat)),
    ensures
        reaches(typedarray_fn1().ops, w, s, t),
        has_come(t, scope, input, output, table, coded_up(w, scope, input, output, table, low(count) as nat)),
        t.pc == 36,
    decreases low(count) - i,
{
    let t = lemma_coding_round(
        w,
        scope,
        input,
        output,
        table,
        count,
        s,
        i,
        coded_up(w, scope, input, output, table, i as nat),
    );
    assert(coded_up(w, scope, input, output, table, (i + 1) as nat) == coded(w, scope, input, output, table, boxed(i as i32), coded_up(w, scope, input, output, table, i as nat)));
    if i + 1 < low(count) {
        let u = lemma_coding_rounds(w, scope, input, output, table, count, t, i + 1);
        lemma_joined(typedarray_fn1().ops, w, s, t);
        u
    } else {
        t
    }
}

/// The loop over a typed array writes one byte for each element of the output, in order (see
/// [`coded`]), and returns the sum of the bytes.
#[verifier::rlimit(60)]
pub proof fn arrays_are_coded(w: World, this: u64, input: u64, output: u64, table: u64, scope: u64)
    requires
        calm(w),
        is_int32(w(Seq::empty(), Request::GetLength { base: output, bc: 1 })->0),
    ensures
        ({
            let len = low(w(Seq::empty(), Request::GetLength { base: output, bc: 1 })->0);
            let n = if len > 0 {
                len as nat
            } else {
                0
            };
            let c = coded_up(w, scope, input, output, table, n);
            results_in(typedarray_fn1(), w, this, seq![input, output, table], scope, c.made, c.total)
        }),
{
    let body = typedarray_fn1();
    let ops = body.ops;
    lemma_typedarray_fn1();
    lemma_place_of(body, 25, 7);
    lemma_place_of(body, 174, 36);
    let s = entry(body, this, seq![input, output, table], scope);
    let len = w(Seq::empty(), Request::GetLength { base: output, bc: 1 })->0;
    lemma_here(ops, w, s);
    lemma_encoded(0);
    lemma_encoded(low(len));
    assert((len as u32) | 0u32 == len as u32) by (bit_vector);
    reveal(bits);
    let s1 = lemma_on(ops, w, s, s);
    let s2 = lemma_get_length(ops, w, s, s1, loc(9), 2, 1);
    let s3 = lemma_bitop_constant(ops, w, s, s2, 1, loc(5), loc(9), 0, 6);
    let s4 = lemma_mov_constant(ops, w, s, s3, loc(6), js_int(0));
    let s5 = lemma_mov_constant(ops, w, s, s4, loc(2), js_int(0));
    let s6 = lemma_mov_constant(ops, w, s, s5, loc(4), js_int(0));
    let count = s6.reg(loc(5));
    assert(count == boxed(low(len)));
    let c = coded_up(w, scope, input, output, table, 0);
    assert(has_come(s6, scope, input, output, table, c));
    let m = if low(len) <= 0 {
        let b1 = lemma_jnless(ops, w, s, s6, loc(4), loc(5), 174, 21, true, 36);
        b1
    } else {
        let c1 = lemma_jnless(ops, w, s, s6, loc(4), loc(5), 174, 21, false, 36);
        let u = lemma_coding_rounds(w, scope, input, output, table, count, c1, 0);
        lemma_joined(ops, w, s, c1);
        u
    };
    let d1 = lemma_on(ops, w, s, m);
    lemma_ret(ops, w, s, d1, d1.reg(loc(2)));
}

} // verus!
