//! Figures on the generated code, and the table that they are reported in.
use vstd::prelude::*;
use vstd::string::{StrSliceExecFns, StringExecFns};

verus! {

/// `String::push`: appends a character.
pub assume_specification[ String::push ](s: &mut String, c: char)
    ensures
        final(s)@ == old(s)@.push(c),
;

/// The characters that Unicode counts as white space.
pub open spec fn is_white_space(c: char) -> bool {
    ||| '\u{9}' <= c <= '\u{d}'
    ||| c == ' '
    ||| c == '\u{85}'
    ||| c == '\u{a0}'
    ||| c == '\u{1680}'
    ||| '\u{2000}' <= c <= '\u{200a}'
    ||| c == '\u{2028}'
    ||| c == '\u{2029}'
    ||| c == '\u{202f}'
    ||| c == '\u{205f}'
    ||| c == '\u{3000}'
}

/// The text behind the white space that it begins with.
pub open spec fn trim_start(s: Seq<char>) -> Seq<char>
    decreases s.len(),
{
    if s.len() > 0 && is_white_space(s[0]) {
        trim_start(s.skip(1))
    } else {
        s
    }
}

/// The pieces between the line feeds of a text.
pub open spec fn split(s: Seq<char>) -> Seq<Seq<char>>
    decreases s.len(),
{
    if s.len() == 0 {
        seq![Seq::empty()]
    } else {
        let pieces = split(s.drop_last());
        if s.last() == '\n' {
            pieces.push(Seq::empty())
        } else {
            pieces.drop_last().push(pieces.last().push(s.last()))
        }
    }
}

/// A piece without the carriage return before a line feed.
pub open spec fn strip(piece: Seq<char>) -> Seq<char> {
    if piece.len() > 0 && piece.last() == '\r' {
        piece.drop_last()
    } else {
        piece
    }
}

/// The lines of a text. A line ends in a line feed, which may follow a carriage return;
/// behind the last line feed there is another line unless nothing stands there.
pub open spec fn lines(s: Seq<char>) -> Seq<Seq<char>> {
    let pieces = split(s);
    let ended = pieces.drop_last().map_values(|p: Seq<char>| strip(p));
    if pieces.last().len() > 0 {
        ended.push(pieces.last())
    } else {
        ended
    }
}

/// A line of a disassembly that holds an instruction: no heading, no comment, no label.
pub open spec fn is_instruction(line: Seq<char>) -> bool {
    let t = trim_start(line);
    &&& t.len() > 0
    &&& !"block"@.is_prefix_of(t)
    &&& t[0] != ';'
    &&& !"VCode"@.is_prefix_of(t)
    &&& !"Disasm"@.is_prefix_of(t)
    &&& t.last() != ':'
}

/// How many instructions a disassembly shows.
pub open spec fn mach_instrs(vcode: Seq<char>) -> nat {
    lines(vcode).filter(|line: Seq<char>| is_instruction(line)).len()
}

/// The characters of a text.
fn chars_of(s: &str) -> (r: Vec<char>)
    ensures
        r@ == s@,
{
    let mut r: Vec<char> = Vec::new();
    for c in it: s.chars()
        invariant
            it.seq() == s@,
            r@ == s@.take(it.index() as int),
    {
        assert(s@.take(it.index() as int).push(c) =~= s@.take(it.index() + 1));
        r.push(c);
    }
    assert(s@.take(s@.len() as int) =~= s@);
    r
}

fn is_space(c: char) -> (r: bool)
    ensures
        r == is_white_space(c),
{
    ('\u{9}' <= c && c <= '\u{d}') || c == ' ' || c == '\u{85}' || c == '\u{a0}' || c == '\u{1680}'
        || ('\u{2000}' <= c && c <= '\u{200a}') || c == '\u{2028}' || c == '\u{2029}' || c
        == '\u{202f}' || c == '\u{205f}' || c == '\u{3000}'
}

/// `prefix` stands at the position `from` of a text.
fn begins_with(text: &Vec<char>, from: usize, prefix: &str) -> (r: bool)
    requires
        from <= text@.len(),
    ensures
        r == prefix@.is_prefix_of(text@.skip(from as int)),
{
    let p = chars_of(prefix);
    let n: usize = text.len();
    if p.len() > n - from {
        return false;
    }
    for i in 0..p.len()
        invariant
            p@ == prefix@,
            n == text@.len(),
            from + p@.len() <= n,
            forall|j: int| 0 <= j < i ==> #[trigger] p@[j] == text@[from + j],
    {
        if p[i] != text[from + i] {
            assert(text@.skip(from as int)[i as int] == text@[from + i]);
            return false;
        }
    }
    assert(prefix@ =~= text@.skip(from as int).subrange(0, prefix@.len() as int));
    true
}

/// A line of a disassembly holds an instruction.
fn holds_instruction(line: &Vec<char>) -> (r: bool)
    ensures
        r == is_instruction(line@),
{
    let mut from: usize = 0;
    assert(line@.skip(0) =~= line@);
    while from < line.len() && is_space(line[from])
        invariant
            from <= line@.len(),
            trim_start(line@.skip(from as int)) == trim_start(line@),
        decreases line@.len() - from,
    {
        assert(line@.skip(from as int).skip(1) =~= line@.skip(from + 1));
        from += 1;
    }
    let ghost t = line@.skip(from as int);
    assert(trim_start(line@) == t);
    if from == line.len() {
        return false;
    }
    assert(t[0] == line@[from as int]);
    assert(t.last() == line@.last());
    !begins_with(line, from, "block") && line[from] != ';' && !begins_with(line, from, "VCode")
        && !begins_with(line, from, "Disasm") && line[line.len() - 1] != ':'
}

/// The lines that are ended so far hold this many instructions.
spec fn ended_instrs(s: Seq<char>) -> nat {
    split(s).drop_last().map_values(|p: Seq<char>| strip(p)).filter(
        |line: Seq<char>| is_instruction(line),
    ).len()
}

proof fn lemma_split_nonempty(s: Seq<char>)
    ensures
        split(s).len() >= 1,
    decreases s.len(),
{
    if s.len() > 0 {
        lemma_split_nonempty(s.drop_last());
    }
}

proof fn lemma_ended(s: Seq<char>, c: char)
    ensures
        c == '\n' ==> {
            &&& split(s.push(c)).last() == Seq::<char>::empty()
            &&& ended_instrs(s.push(c)) == ended_instrs(s) + if is_instruction(
                strip(split(s).last()),
            ) {
                1nat
            } else {
                0nat
            }
        },
        c != '\n' ==> {
            &&& split(s.push(c)).last() == split(s).last().push(c)
            &&& ended_instrs(s.push(c)) == ended_instrs(s)
        },
{
    lemma_split_nonempty(s);
    assert(s.push(c).drop_last() =~= s);
    let pieces = split(s);
    let counted = |line: Seq<char>| is_instruction(line);
    let stripped = |p: Seq<char>| strip(p);
    if c == '\n' {
        assert(split(s.push(c)).drop_last() =~= pieces);
        let before = pieces.drop_last().map_values(stripped);
        let after = pieces.map_values(stripped);
        assert(after.drop_last() =~= before);
        assert(after.last() == strip(pieces.last()));
        reveal(Seq::filter);
    } else {
        assert(split(s.push(c)).drop_last() =~= pieces.drop_last());
    }
}

/// How many instructions a disassembly shows.
pub fn count_mach_instrs(vcode: &str) -> (r: usize)
    ensures
        r == mach_instrs(vcode@),
{
    let text = chars_of(vcode);
    let mut r: usize = 0;
    let mut piece: Vec<char> = Vec::new();
    let n: usize = text.len();
    assert(text@.take(0) =~= Seq::empty());
    proof {
        reveal(Seq::filter);
        assert(split(text@.take(0)).drop_last() =~= Seq::empty());
    }
    for i in 0..n
        invariant
            n == text@.len(),
            r <= i,
            r == ended_instrs(text@.take(i as int)),
            piece@ == split(text@.take(i as int)).last(),
    {
        let c = text[i];
        proof {
            lemma_ended(text@.take(i as int), c);
            assert(text@.take(i as int).push(c) =~= text@.take(i + 1));
        }
        if c == '\n' {
            if piece.len() > 0 && piece[piece.len() - 1] == '\r' {
                piece.pop();
            }
            assert(piece@ == strip(split(text@.take(i as int)).last()));
            if holds_instruction(&piece) {
                r += 1;
            }
            piece = Vec::new();
        } else {
            piece.push(c);
        }
    }
    assert(text@.take(n as int) =~= vcode@);
    proof {
        let ended = split(vcode@).drop_last().map_values(|p: Seq<char>| strip(p));
        lemma_split_nonempty(vcode@);
        if split(vcode@).last().len() > 0 {
            reveal(Seq::filter);
            assert(lines(vcode@).drop_last() =~= ended);
            assert(vcode@.len() > 0);
            lemma_ended_bound(vcode@);
        } else {
            assert(lines(vcode@) == ended);
        }
    }
    if piece.len() > 0 && holds_instruction(&piece) {
        r += 1;
    }
    r
}

/// Each line that is ended takes a character.
proof fn lemma_ended_bound(s: Seq<char>)
    ensures
        ended_instrs(s) + split(s).last().len() <= s.len(),
    decreases s.len(),
{
    if s.len() == 0 {
        reveal(Seq::filter);
        assert(split(s).drop_last() =~= Seq::empty());
    } else {
        lemma_ended_bound(s.drop_last());
        lemma_ended(s.drop_last(), s.last());
        assert(s.drop_last().push(s.last()) =~= s);
    }
}

/// What was found out about the function of a body.
pub struct BodyResult {
    pub name: String,
    pub n_ops: usize,
    pub clif_instrs: usize,
    pub clif_blocks: usize,
    pub text_bytes: usize,
    pub mach_instrs: usize,
}

/// A digit.
pub open spec fn digit(n: nat) -> char {
    ('0' as u32 + n % 10) as char
}

/// A number in decimal.
pub open spec fn decimal(n: nat) -> Seq<char>
    decreases n,
{
    if n < 10 {
        seq![digit(n)]
    } else {
        decimal(n / 10).push(digit(n))
    }
}

/// `n` spaces.
pub open spec fn spaces(n: int) -> Seq<char> {
    Seq::new(
        if n > 0 {
            n as nat
        } else {
            0
        },
        |i: int| ' ',
    )
}

/// A text with spaces behind it, up to `width` characters.
pub open spec fn pad_right(s: Seq<char>, width: int) -> Seq<char> {
    s + spaces(width - s.len())
}

/// A text with spaces before it, up to `width` characters.
pub open spec fn pad_left(s: Seq<char>, width: int) -> Seq<char> {
    spaces(width - s.len()) + s
}

/// A line of the table.
pub open spec fn row(
    name: Seq<char>,
    ops: Seq<char>,
    instrs: Seq<char>,
    blocks: Seq<char>,
    mach: Seq<char>,
    bytes: Seq<char>,
) -> Seq<char> {
    pad_right(name, 28) + " "@ + pad_left(ops, 6) + " "@ + pad_left(instrs, 10) + " "@ + pad_left(
        blocks,
        10,
    ) + " "@ + pad_left(mach, 11) + " "@ + pad_left(bytes, 11) + "\n"@
}

/// The line of a body.
pub open spec fn result_row(r: BodyResult) -> Seq<char> {
    row(
        r.name@,
        decimal(r.n_ops as nat),
        decimal(r.clif_instrs as nat),
        decimal(r.clif_blocks as nat),
        decimal(r.mach_instrs as nat),
        decimal(r.text_bytes as nat),
    )
}

/// The lines of several bodies.
pub open spec fn result_rows(rs: Seq<BodyResult>) -> Seq<char>
    decreases rs.len(),
{
    if rs.len() == 0 {
        Seq::empty()
    } else {
        result_rows(rs.drop_last()) + result_row(rs.last())
    }
}

/// The table of a variant.
pub open spec fn table(tag: Seq<char>, rs: Seq<BodyResult>) -> Seq<char> {
    "## "@ + tag + "\n"@ + row(
        "body"@,
        "ops"@,
        "clif-inst"@,
        "clif-blks"@,
        "mach-inst"@,
        ".text bytes"@,
    ) + result_rows(rs) + "\n"@
}

/// What the summary begins with.
pub open spec fn heading() -> Seq<char> {
    "# clprobe summary (opt_level=speed)\n"@
        + "# variant=preserve_all: slow paths use CallConv::PreserveAll (DispatchCall stays SystemV)\n"@
        + "# variant=systemv:      slow paths use CallConv::SystemV (worst case)\n\n"@
}

/// The decimal digits of a number.
pub(crate) fn digits(n: usize) -> (r: String)
    ensures
        r@ == decimal(n as nat),
    decreases n,
{
    let mut r = if n < 10 {
        String::new()
    } else {
        digits(n / 10)
    };
    let d: u8 = (n % 10) as u8;
    assert(digit(n as nat) == ('0' as u32 + d) as char);
    r.push((48u8 + d) as char);
    assert(r@ =~= decimal(n as nat));
    r
}

/// Appends `n` spaces.
fn push_spaces(s: &mut String, n: usize)
    ensures
        final(s)@ == old(s)@ + spaces(n as int),
{
    let ghost start = s@;
    assert(start + spaces(0) =~= start);
    for i in 0..n
        invariant
            s@ == start + spaces(i as int),
    {
        s.push(' ');
        assert((start + spaces(i as int)).push(' ') =~= start + spaces(i + 1));
    }
}

/// Appends a text and spaces behind it.
fn push_right(s: &mut String, text: &str, width: usize)
    ensures
        final(s)@ == old(s)@ + pad_right(text@, width as int),
{
    let n: usize = text.unicode_len();
    s.append(text);
    if n < width {
        push_spaces(s, width - n);
    }
    assert(s@ =~= old(s)@ + pad_right(text@, width as int));
}

/// Appends spaces and a text behind them.
fn push_left(s: &mut String, text: &str, width: usize)
    ensures
        final(s)@ == old(s)@ + pad_left(text@, width as int),
{
    let n: usize = text.unicode_len();
    if n < width {
        push_spaces(s, width - n);
    }
    s.append(text);
    assert(s@ =~= old(s)@ + pad_left(text@, width as int));
}

/// Appends a line of the table.
fn push_row(
    s: &mut String,
    name: &str,
    ops: &str,
    instrs: &str,
    blocks: &str,
    mach: &str,
    bytes: &str,
)
    ensures
        final(s)@ == old(s)@ + row(name@, ops@, instrs@, blocks@, mach@, bytes@),
{
    push_right(s, name, 28);
    s.append(" ");
    push_left(s, ops, 6);
    s.append(" ");
    push_left(s, instrs, 10);
    s.append(" ");
    push_left(s, blocks, 10);
    s.append(" ");
    push_left(s, mach, 11);
    s.append(" ");
    push_left(s, bytes, 11);
    s.append("\n");
    assert(s@ =~= old(s)@ + row(name@, ops@, instrs@, blocks@, mach@, bytes@));
}

/// Appends the table of a variant.
fn push_table(s: &mut String, tag: &str, rs: &Vec<BodyResult>)
    ensures
        final(s)@ == old(s)@ + table(tag@, rs@),
{
    s.append("## ");
    s.append(tag);
    s.append("\n");
    push_row(s, "body", "ops", "clif-inst", "clif-blks", "mach-inst", ".text bytes");
    let ghost start = s@;
    assert(rs@.take(0) =~= Seq::empty());
    assert(start + result_rows(rs@.take(0)) =~= start);
    for i in 0..rs.len()
        invariant
            s@ == start + result_rows(rs@.take(i as int)),
    {
        let r = &rs[i];
        push_row(
            s,
            r.name.as_str(),
            digits(r.n_ops).as_str(),
            digits(r.clif_instrs).as_str(),
            digits(r.clif_blocks).as_str(),
            digits(r.mach_instrs).as_str(),
            digits(r.text_bytes).as_str(),
        );
        assert(rs@.take(i + 1).drop_last() =~= rs@.take(i as int));
        assert(rs@.take(i + 1).last() == rs@[i as int]);
        assert(s@ =~= start + result_rows(rs@.take(i + 1)));
    }
    assert(rs@.take(rs@.len() as int) =~= rs@);
    s.append("\n");
    assert(s@ =~= old(s)@ + table(tag@, rs@));
}

/// The summary of both variants.
pub fn summary(preserve_all: &Vec<BodyResult>, systemv: &Vec<BodyResult>) -> (r: String)
    ensures
        r@ == heading() + table("preserve_all"@, preserve_all@) + table("systemv"@, systemv@),
{
    let mut s = String::new();
    s.append("# clprobe summary (opt_level=speed)\n");
    s.append(
        "# variant=preserve_all: slow paths use CallConv::PreserveAll (DispatchCall stays SystemV)\n",
    );
    s.append("# variant=systemv:      slow paths use CallConv::SystemV (worst case)\n\n");
    assert(s@ =~= heading());
    push_table(&mut s, "preserve_all", preserve_all);
    push_table(&mut s, "systemv", systemv);
    s
}

} // verus!
