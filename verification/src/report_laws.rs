//! What holds of the figures that are reported.
use crate::bytecode::{n_ops, OpView};
use crate::report::{
    decimal, digit, is_instruction, is_white_space, lines, mach_instrs, pad_left, pad_right,
    result_row, result_rows, spaces, split, strip, BodyResult,
};
use crate::spill::SetView;
use crate::spill_trace::{n_asked, n_asked_not_required};
use vstd::prelude::*;

verus! {

/// The number that some digits say.
pub open spec fn number(s: Seq<char>) -> int
    decreases s.len(),
{
    if s.len() == 0 {
        0
    } else {
        10 * number(s.drop_last()) + (s.last() as u32 - '0' as u32)
    }
}

/// A number in decimal can be read back. It is made of digits, and does not begin with a zero
/// unless it is one.
pub proof fn decimals_can_be_read_back(n: nat)
    ensures
        number(decimal(n)) == n,
        decimal(n).len() > 0,
        forall|i: int| 0 <= i < decimal(n).len() ==> '0' <= #[trigger] decimal(n)[i] <= '9',
        n > 0 ==> decimal(n)[0] != '0',
    decreases n,
{
    assert(digit(n) as u32 == '0' as u32 + n % 10);
    if n < 10 {
        assert(decimal(n).drop_last() =~= Seq::empty());
        reveal_with_fuel(number, 2);
    } else {
        decimals_can_be_read_back(n / 10);
        assert(decimal(n).drop_last() =~= decimal(n / 10));
        assert(decimal(n).last() == digit(n));
        assert(decimal(n)[0] == decimal(n / 10)[0]);
    }
}

/// Numbers that differ look different.
pub proof fn decimals_are_distinct(m: nat, n: nat)
    requires
        decimal(m) == decimal(n),
    ensures
        m == n,
{
    decimals_can_be_read_back(m);
    decimals_can_be_read_back(n);
}

proof fn lemma_split_some(s: Seq<char>)
    ensures
        split(s).len() > 0,
    decreases s.len(),
{
    if s.len() > 0 {
        lemma_split_some(s.drop_last());
    }
}

/// Behind a line feed, the pieces begin anew.
proof fn lemma_split_add(a: Seq<char>, b: Seq<char>)
    ensures
        split(a.push('\n') + b) == split(a) + split(b),
        split(b).len() > 0,
    decreases b.len(),
{
    lemma_split_some(a);
    lemma_split_some(b);
    if b.len() == 0 {
        assert(a.push('\n') + b =~= a.push('\n'));
        assert(a.push('\n').drop_last() =~= a);
        assert(split(a) + split(b) =~= split(a).push(Seq::empty()));
    } else {
        let c = b.drop_last();
        lemma_split_add(a, c);
        lemma_split_some(c);
        let whole = a.push('\n') + b;
        assert(whole.drop_last() =~= a.push('\n') + c);
        assert(whole.last() == b.last());
        let p = split(a) + split(c);
        assert(p.last() == split(c).last());
        assert(p.drop_last() =~= split(a) + split(c).drop_last());
        assert(split(whole) =~= split(a) + split(b));
    }
}

/// The instructions of two texts add up where the first ends in a line feed.
pub proof fn instructions_add_up(a: Seq<char>, b: Seq<char>)
    ensures
        mach_instrs(a.push('\n') + b) == mach_instrs(a.push('\n')) + mach_instrs(b),
{
    let none = Seq::<char>::empty();
    let f = |line: Seq<char>| is_instruction(line);
    let g = |p: Seq<char>| strip(p);
    lemma_split_add(a, b);
    lemma_split_add(a, none);
    lemma_split_some(a);
    lemma_split_some(b);
    assert(a.push('\n') + none =~= a.push('\n'));
    assert(split(none) =~= seq![none]);
    let pa = split(a);
    let pb = split(b);
    assert((pa + seq![none]).drop_last() =~= pa);
    assert((pa + pb).drop_last() =~= pa + pb.drop_last());
    assert((pa + pb).last() == pb.last());
    assert(lines(a.push('\n')) == pa.map_values(g));
    assert(lines(a.push('\n') + b) =~= pa.map_values(g) + lines(b));
    Seq::filter_distributes_over_add(pa.map_values(g), lines(b), f);
}

/// There is one piece where there is no line feed.
proof fn lemma_one_piece(line: Seq<char>)
    requires
        !line.contains('\n'),
    ensures
        split(line) == seq![line],
    decreases line.len(),
{
    if line.len() == 0 {
        assert(line =~= Seq::empty());
    } else {
        let rest = line.drop_last();
        assert(!rest.contains('\n')) by {
            if rest.contains('\n') {
                let i = choose|i: int| 0 <= i < rest.len() && rest[i] == '\n';
                assert(line[i] == '\n');
            }
        }
        lemma_one_piece(rest);
        assert(line[line.len() - 1] == line.last());
        assert(line.last() != '\n');
        assert(rest.push(line.last()) =~= line);
        assert(split(line) =~= seq![line]);
    }
}

/// Filtering one line.
proof fn lemma_filter_one(line: Seq<char>)
    ensures
        seq![line].filter(|line: Seq<char>| is_instruction(line)).len() == if is_instruction(line) {
            1nat
        } else {
            0nat
        },
        Seq::<Seq<char>>::empty().filter(|line: Seq<char>| is_instruction(line)).len() == 0,
{
    let f = |line: Seq<char>| is_instruction(line);
    reveal(Seq::filter);
    assert(seq![line].drop_last() =~= Seq::empty());
    assert(Seq::<Seq<char>>::empty().filter(f) =~= Seq::empty());
}

/// A line counts as one instruction if it holds one. A carriage return before the line feed
/// does not belong to it.
pub proof fn lines_are_counted_once(line: Seq<char>)
    requires
        !line.contains('\n'),
    ensures
        mach_instrs(line) == if is_instruction(line) {
            1nat
        } else {
            0nat
        },
        mach_instrs(line.push('\n')) == if is_instruction(strip(line)) {
            1nat
        } else {
            0nat
        },
{
    let none = Seq::<char>::empty();
    lemma_one_piece(line);
    lemma_split_add(line, none);
    assert(line.push('\n') + none =~= line.push('\n'));
    assert(split(none) =~= seq![none]);
    assert((seq![line] + seq![none]).drop_last() =~= seq![line]);
    assert(lines(line.push('\n')) =~= seq![strip(line)]);
    lemma_filter_one(line);
    lemma_filter_one(strip(line));
    if line.len() > 0 {
        assert(lines(line) =~= seq![line]);
    } else {
        assert(lines(line) =~= Seq::empty());
        assert(!is_instruction(line));
    }
}

/// White space before a line does not matter. Behind it, headings, comments, labels and blocks
/// hold no instruction, and all else does.
pub proof fn instructions_are_told_by_their_text(c: char, line: Seq<char>)
    ensures
        !is_instruction(Seq::empty()),
        is_white_space(c) ==> is_instruction(seq![c] + line) == is_instruction(line),
        !is_white_space(c) ==> (is_instruction(seq![c] + line) <==> {
            let t = seq![c] + line;
            &&& c != ';'
            &&& t.last() != ':'
            &&& !"block"@.is_prefix_of(t)
            &&& !"VCode"@.is_prefix_of(t)
            &&& !"Disasm"@.is_prefix_of(t)
        }),
{
    let t = seq![c] + line;
    assert(t[0] == c);
    assert(t.skip(1) =~= line);
}

/// A padded text has at least the width, and nothing but spaces is added on the one side.
pub proof fn padding_adds_spaces(s: Seq<char>, width: int, i: int)
    requires
        width >= 0,
    ensures
        ({
            let len = if s.len() < width {
                width
            } else {
                s.len() as int
            };
            let l = pad_left(s, width);
            let r = pad_right(s, width);
            &&& l.len() == len && r.len() == len
            &&& r.take(s.len() as int) == s && l.skip(len - s.len()) == s
            &&& s.len() <= i < len ==> r[i] == ' '
            &&& 0 <= i < len - s.len() ==> l[i] == ' '
        }),
{
    let len = if s.len() < width {
        width
    } else {
        s.len() as int
    };
    assert(spaces(width - s.len()).len() == len - s.len());
    assert(pad_right(s, width).take(s.len() as int) =~= s);
    assert(pad_left(s, width).skip(len - s.len()) =~= s);
}

/// The rows of two lists of results come one after the other, and one result has one row.
pub proof fn rows_come_in_order(a: Seq<BodyResult>, b: Seq<BodyResult>, r: BodyResult)
    ensures
        result_rows(a + b) == result_rows(a) + result_rows(b),
        result_rows(seq![r]) == result_row(r),
    decreases b.len(),
{
    reveal_with_fuel(result_rows, 2);
    assert(seq![r].drop_last() =~= Seq::empty());
    assert(result_rows(seq![r]) =~= result_row(r));
    if b.len() == 0 {
        assert(a + b =~= a);
        assert(result_rows(a) + result_rows(b) =~= result_rows(a));
    } else {
        rows_come_in_order(a, b.drop_last(), r);
        assert((a + b).drop_last() =~= a + b.drop_last());
        assert(result_rows(a + b) =~= result_rows(a) + result_rows(b));
    }
}

/// Every operation is counted but labels and loop hints.
pub proof fn operations_are_counted(a: Seq<OpView>, op: OpView)
    ensures
        n_ops(Seq::empty()) == 0,
        n_ops(a.push(op)) == n_ops(a) + if op is Label || op is LoopHint {
            0nat
        } else {
            1nat
        },
{
    reveal(Seq::filter);
    assert(a.push(op).drop_last() =~= a);
}

/// The traced counts are those of the spill sets that ask for a home.
pub proof fn homes_are_counted(sets: Seq<SetView>, n: nat)
    requires
        n <= sets.len(),
    ensures
        n_asked(sets, n) == sets.take(n as int).filter(|s: SetView| s.fixed_slot is Some).len(),
        n_asked_not_required(sets, n) == sets.take(n as int).filter(
            |s: SetView| s.fixed_slot is Some && !s.required,
        ).len(),
    decreases n,
{
    reveal(Seq::filter);
    if n > 0 {
        homes_are_counted(sets, (n - 1) as nat);
        assert(sets.take(n as int).drop_last() =~= sets.take(n - 1));
        assert(sets.take(n as int).last() == sets[n - 1]);
    } else {
        assert(sets.take(0) =~= Seq::empty());
    }
}

} // verus!
