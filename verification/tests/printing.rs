use alofmt::doc::{trailing_width, Builder, Line, COMMENT_PRIORITY, HEREDOC_PRIORITY};
use alofmt::print::{matches_source, print, PrintOptions};

fn options(width: usize) -> PrintOptions {
    PrintOptions { line_width: width, indent_width: 2, fit_indent_width: 2, output_capacity: 0 }
}

#[test]
fn lower_priority_suffixes_print_first() {
    let mut b = Builder::new();
    b.text("x");
    b.push_target();
    b.text(" # a");
    b.close_line_suffix(COMMENT_PRIORITY);
    b.push_target();
    b.text(" <<h");
    b.close_line_suffix(HEREDOC_PRIORITY);
    b.push_target();
    b.text(" # b");
    b.close_line_suffix(COMMENT_PRIORITY);
    b.hard();
    b.text("y");
    assert_eq!(print(&b.finish(), "", options(80)), "x # a # b <<h\ny");
}

#[test]
fn suffixes_left_at_the_end_are_printed() {
    let mut b = Builder::new();
    b.text("x");
    b.push_target();
    b.text(" # end");
    b.close_line_suffix(COMMENT_PRIORITY);
    assert_eq!(print(&b.finish(), "", options(80)), "x # end");
}

#[test]
fn align_adds_columns_and_return_restarts_at_zero() {
    let mut b = Builder::new();
    b.text("foo ");
    b.push_target();
    b.text("a,");
    b.hard();
    b.text("b");
    b.line(Line::ret());
    b.text("END");
    b.close_align(4);
    assert_eq!(print(&b.finish(), "", options(80)), "foo a,\n    b\nEND");
}

#[test]
fn checks_see_trailing_blanks_that_a_line_removes() {
    let mut b = Builder::new();
    b.text("a ");
    b.hard();
    b.text("b");
    let docs = b.finish();
    assert_eq!(print(&docs, "", options(80)), "a\nb");
    assert!(matches_source(&docs, "a\nb", options(80)));
    assert!(!matches_source(&docs, "a \nb", options(80)));
    assert!(!matches_source(&docs, "a\nb\n", options(80)));
    assert!(!matches_source(&docs, "a\n", options(80)));
}

#[test]
fn width_counts_characters_not_bytes() {
    let mut b = Builder::new();
    b.open_group();
    b.text("é");
    b.space();
    b.text("ü");
    b.close_group();
    assert_eq!(print(&b.finish(), "", options(3)), "é ü");
}

#[test]
fn trailing_width_starts_after_the_last_line() {
    let mut b = Builder::new();
    b.push_target();
    b.text("abc");
    b.soft();
    b.text("de");
    b.source(0, 4);
    let docs = b.pop_target();
    assert_eq!(trailing_width(&b, docs, "xyé".as_bytes()), 5);
    b.push_target();
    b.text("abc");
    let docs = b.pop_target();
    assert_eq!(trailing_width(&b, docs, b""), 3);
}

#[test]
fn text_in_pieces_prints_as_one_node() {
    let mut b = Builder::new();
    b.text("ab");
    b.text("cd");
    b.source(0, 1);
    b.source(1, 2);
    let docs = b.finish();
    assert_eq!(docs.root_nodes().len(), 2);
    assert_eq!(print(&docs, "xy", options(80)), "abcdxy");
}

#[test]
fn restoring_flags_undoes_a_forced_break() {
    let mut b = Builder::new();
    b.open_group();
    let saved = b.broken_flags();
    assert!(!b.current_group_broken());
    b.break_parent();
    assert!(b.current_group_broken());
    b.restore_broken_flags(saved);
    assert!(!b.current_group_broken());
    b.close_group();
}
