use align::dyn_vec::DynVec;
use align::layout::{format_lines, leading_indent, render_line};
use align::positioning::{parse_positioning, Alignment, Positioning, PositioningError};
use align::width::{word_width, WidthMode};
use align::words::{is_indent, Words};

fn chars(s: &str) -> Vec<char> {
    s.chars().collect()
}

fn text(v: &[char]) -> String {
    v.iter().collect()
}

fn run(lines: &[&str], fmt: &str, sep: &str, delim: char, until: usize, mode: WidthMode) -> Vec<String> {
    let input: Vec<Vec<char>> = lines.iter().map(|l| chars(l)).collect();
    let pos = parse_positioning(fmt).unwrap();
    format_lines(&input, delim, until, &chars(sep), mode, pos)
        .iter()
        .map(|l| text(l))
        .collect()
}

fn run_default(lines: &[&str]) -> Vec<String> {
    run(lines, "", " ", '"', usize::MAX, WidthMode::Unicode)
}

fn words(line: &str, delim: char, until: usize) -> Vec<String> {
    Words::new(chars(line), delim, until).iter().iter().map(|w| text(w)).collect()
}

#[test]
fn default_config_left_aligns() {
    assert_eq!(run_default(&["a bb", "ccc d"]), vec!["a   bb\n", "ccc d\n"]);
}

#[test]
fn right_alignment_pads_before() {
    let out = run(&["a bb", "ccc d"], ">", " ", '"', usize::MAX, WidthMode::Unicode);
    assert_eq!(out, vec!["  a bb\n", "ccc  d\n"]);
}

#[test]
fn no_lines_give_no_output() {
    assert!(run_default(&[]).is_empty());
}

#[test]
fn one_output_line_per_input_line() {
    let out = run_default(&["x", "", "  ", "a b c"]);
    assert_eq!(out.len(), 4);
}

#[test]
fn line_without_words_is_bare_newline() {
    let out = run_default(&["  a b", "", "   \t "]);
    assert_eq!(out, vec!["  a b\n", "\n", "\n"]);
}

#[test]
fn first_line_indentation_is_kept() {
    let out = run_default(&["\t x y", "zz w"]);
    assert_eq!(out, vec!["\t x  y\n", "\t zz w\n"]);
}

#[test]
fn quoted_word_is_one_word() {
    assert_eq!(words("\"a b\" c", '"', usize::MAX), vec!["\"a b\"", "c"]);
}

#[test]
fn escaped_delimiter_does_not_close_quote() {
    assert_eq!(words("\"a\\\" b\" c", '"', usize::MAX), vec!["\"a\\\" b\"", "c"]);
}

#[test]
fn escaped_backslash_then_delimiter_closes_quote() {
    assert_eq!(words("\"a\\\\\" b", '"', usize::MAX), vec!["\"a\\\\\"", "b"]);
}

#[test]
fn nul_delimiter_disables_quoting() {
    assert_eq!(words("\"a b\"", '\0', usize::MAX), vec!["\"a", "b\""]);
}

#[test]
fn until_makes_rest_one_word() {
    assert_eq!(words("a b  c d", '"', 2), vec!["a", "b", "c d"]);
    assert_eq!(words("  a b", '"', 0), vec!["a b"]);
}

#[test]
fn rejoined_words_tokenize_the_same() {
    let ws = words("  x \"q r\"\ty\\ z", '"', usize::MAX);
    let joined = ws.join(" ");
    assert_eq!(words(&joined, '"', usize::MAX), ws);
}

#[test]
fn reformatting_own_output_is_stable() {
    let first = run_default(&["a bb ccc", "dddd e f"]);
    let again: Vec<&str> = first.iter().map(|l| l.trim_end_matches('\n')).collect();
    assert_eq!(run_default(&again), first);
}

#[test]
fn centered_padding_splits_floor_and_ceil() {
    let out = run(&["abcdef x", "a y"], "=", "|", '"', usize::MAX, WidthMode::Unicode);
    assert_eq!(out, vec!["abcdef|x\n", "  a   |y\n"]);
}

#[test]
fn last_word_is_not_padded_after() {
    let out = run(&["a", "bbb"], "=", " ", '"', usize::MAX, WidthMode::Unicode);
    assert_eq!(out, vec![" a\n", "bbb\n"]);
}

#[test]
fn minimum_width_from_format() {
    let out = run(&["a b", "c d"], "5<", " ", '"', usize::MAX, WidthMode::Unicode);
    assert_eq!(out, vec!["a     b\n", "c     d\n"]);
}

#[test]
fn separator_is_placed_between_words() {
    let out = run(&["a b c"], "", ", ", '"', usize::MAX, WidthMode::Unicode);
    assert_eq!(out, vec!["a, b, c\n"]);
}

#[test]
fn wide_characters_count_twice_in_unicode_mode() {
    let out = run(&["日本 x", "abc y"], "", " ", '"', usize::MAX, WidthMode::Unicode);
    assert_eq!(out, vec!["日本 x\n", "abc  y\n"]);
}

#[test]
fn bytes_mode_counts_utf8_length() {
    let out = run(&["é x", "abc y"], "", " ", '"', usize::MAX, WidthMode::Bytes);
    assert_eq!(out, vec!["é  x\n", "abc y\n"]);
}

#[test]
fn word_width_by_mode() {
    let line = chars("a日é");
    assert_eq!(word_width(WidthMode::Bytes, &line, 0, 3), 6);
    assert_eq!(word_width(WidthMode::Unicode, &line, 0, 3), 4);
    assert_eq!(word_width(WidthMode::Unicode, &line, 1, 2), 2);
    assert_eq!(word_width(WidthMode::Unicode, &line, 2, 2), 0);
}

#[test]
fn parse_widths_and_alignments() {
    let p = parse_positioning("<50>=").unwrap();
    assert_eq!(p.max_width.vec, vec![0, 50, 0, 0]);
    assert_eq!(p.max_width.default, 0);
    assert_eq!(p.align.vec, vec![Alignment::Left, Alignment::Right, Alignment::Centered]);
    assert_eq!(p.align.default, Alignment::Centered);
    assert_eq!(p.align.get(7), Alignment::Centered);
}

#[test]
fn parse_empty_format() {
    let p = parse_positioning("").unwrap();
    assert_eq!(p.max_width.vec, vec![0]);
    assert_eq!(p.align.vec, Vec::<Alignment>::new());
    assert_eq!(p.align.default, Alignment::Left);
}

#[test]
fn parse_rejects_missing_alignment() {
    assert_eq!(parse_positioning("<12").err(), Some(PositioningError::InvalidSequence));
}

#[test]
fn parse_rejects_bad_character() {
    assert_eq!(parse_positioning("<3x").err(), Some(PositioningError::InvalidCharacter(b'x')));
}

#[test]
fn parse_rejects_huge_width() {
    assert_eq!(
        parse_positioning("99999999999999999999999<").err(),
        Some(PositioningError::InvalidWidth)
    );
}

#[test]
fn default_positioning_is_left_and_zero() {
    let p = Positioning::default();
    assert!(p.max_width.vec.is_empty());
    assert_eq!(p.max_width.get(3), 0);
    assert_eq!(p.align.get(3), Alignment::Left);
}

#[test]
fn dyn_vec_set_fills_with_default() {
    let mut v = DynVec::new(7usize);
    v.set(2, 1);
    assert_eq!(v.vec, vec![7, 7, 1]);
    assert_eq!(v.get(5), 7);
    v.push(4);
    assert_eq!(v.vec, vec![7, 7, 1, 4]);
    assert_eq!(v.get(9), 4);
    v.set(6, 0);
    assert_eq!(v.vec, vec![7, 7, 1, 4, 4, 4, 0]);
}

#[test]
fn indentation_helpers() {
    assert!(is_indent(' '));
    assert!(is_indent('\t'));
    assert!(!is_indent('\n'));
    assert_eq!(leading_indent(&chars(" \t x ")), chars(" \t "));
    assert_eq!(leading_indent(&chars("x")), Vec::<char>::new());
}

#[test]
fn render_single_line() {
    let line = Words::new(chars("ab c d"), '"', usize::MAX);
    let mut pos = Positioning::default();
    pos.max_width.set(0, 4);
    pos.max_width.set(1, 3);
    pos.max_width.set(2, 1);
    pos.align.push(Alignment::Left);
    pos.align.push(Alignment::Right);
    let out = render_line(&line, &chars(">"), &chars("|"), WidthMode::Unicode, &pos);
    assert_eq!(text(&out), ">ab  |  c|d\n");
}
