use clprobe::report::{count_mach_instrs, summary, BodyResult};

#[test]
fn headings_comments_and_labels_are_no_instructions() {
    let vcode = "VCode {\nblock0:\n  pushq %rbp\n  ; a comment\n  movq %rsp, %rbp\nlabel1:\n\n   \n  ret\nDisasm:\n}\n";
    // the three instructions and the closing brace
    assert_eq!(count_mach_instrs(vcode), 4);
}

#[test]
fn lines_end_in_line_feeds_and_carriage_returns() {
    assert_eq!(count_mach_instrs(""), 0);
    assert_eq!(count_mach_instrs("\n"), 0);
    assert_eq!(count_mach_instrs("ret"), 1);
    assert_eq!(count_mach_instrs("ret\nret"), 2);
    assert_eq!(count_mach_instrs("label:\r\nret\r\n"), 1);
    // at the end of the text a carriage return belongs to the line
    assert_eq!(count_mach_instrs("label:\r"), 1);
    assert_eq!(count_mach_instrs("label:"), 0);
}

#[test]
fn white_space_before_a_line_is_passed_over() {
    assert_eq!(count_mach_instrs("\t \u{a0}\u{3000}block1: x"), 0);
    assert_eq!(count_mach_instrs("\u{2028}\u{85}; x"), 0);
    assert_eq!(count_mach_instrs("\u{200b}; x"), 1);
    assert_eq!(count_mach_instrs(" Block"), 1);
}

#[test]
fn counts_agree_with_the_lines_of_std() {
    let text = "  a\r\n\r\n b:\n;c\n\u{2003}d\n e \u{3000}\n\u{1680}block\nVCode\nDisas\nDisasm\n\r";
    let expected = text
        .lines()
        .filter(|l| {
            let t = l.trim_start();
            !t.is_empty()
                && !t.starts_with("block")
                && !t.starts_with(';')
                && !t.starts_with("VCode")
                && !t.starts_with("Disasm")
                && !t.ends_with(':')
        })
        .count();
    assert_eq!(expected, 4);
    assert_eq!(count_mach_instrs(text), expected);
}

fn result(name: &str, n: usize) -> BodyResult {
    BodyResult {
        name: name.to_string(),
        n_ops: n,
        clif_instrs: 10 * n,
        clif_blocks: n + 1,
        text_bytes: 1234567890123,
        mach_instrs: 0,
    }
}

#[test]
fn the_summary_is_a_table_for_each_variant() {
    let pa = vec![result("first", 19), result("a name that is longer than the column", 9)];
    let sv = vec![];
    let mut expected = String::new();
    expected.push_str("# clprobe summary (opt_level=speed)\n");
    expected.push_str(
        "# variant=preserve_all: slow paths use CallConv::PreserveAll (DispatchCall stays SystemV)\n",
    );
    expected.push_str("# variant=systemv:      slow paths use CallConv::SystemV (worst case)\n\n");
    for (tag, rs) in [("preserve_all", &pa), ("systemv", &sv)] {
        expected.push_str(&format!("## {tag}\n"));
        expected.push_str(&format!(
            "{:<28} {:>6} {:>10} {:>10} {:>11} {:>11}\n",
            "body", "ops", "clif-inst", "clif-blks", "mach-inst", ".text bytes"
        ));
        for r in rs {
            expected.push_str(&format!(
                "{:<28} {:>6} {:>10} {:>10} {:>11} {:>11}\n",
                r.name, r.n_ops, r.clif_instrs, r.clif_blocks, r.mach_instrs, r.text_bytes
            ));
        }
        expected.push('\n');
    }
    assert_eq!(summary(&pa, &sv), expected);
}

#[test]
fn a_row_of_the_table() {
    let text = summary(&vec![], &vec![result("x", 7)]);
    let row = "x                                 7         70          8           0 1234567890123\n";
    assert!(text.ends_with(&format!("{row}\n")));
}
