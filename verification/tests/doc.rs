use alofmt::doc::{Builder, Doc, Line, Span, COMMENT_PRIORITY};
use alofmt::print::{matches_source, print, PrintOptions};

fn options(width: usize, indent_width: usize) -> PrintOptions {
    PrintOptions {
        line_width: width,
        indent_width,
        fit_indent_width: 2,
        output_capacity: 0,
    }
}

fn render(b: Builder, width: usize) -> String {
    print(&b.finish(), "", options(width, 4))
}

/// `[` soft `1,` space `2` soft `]` in a group, the items indented.
fn bracketed(b: &mut Builder, first: &str, second: &str) {
    b.open_group();
    b.text("[");
    b.push_target();
    b.soft();
    b.text(first);
    b.space();
    b.text(second);
    b.close_indent();
    b.soft();
    b.text("]");
    b.close_group();
}

#[test]
fn flat_when_it_fits() {
    let mut b = Builder::new();
    bracketed(&mut b, "1,", "2");
    assert_eq!(render(b, 80), "[1, 2]");
}

#[test]
fn breaks_with_four_space_indent_counted_as_two() {
    let mut b = Builder::new();
    bracketed(&mut b, "aaaa,", "bbbb");
    assert_eq!(render(b, 8), "[\n    aaaa,\n    bbbb\n]");
}

#[test]
fn forced_break_propagates_to_enclosing_groups() {
    let mut b = Builder::new();
    b.open_group();
    b.text("a");
    b.space();
    b.open_group();
    b.text("b");
    b.hard();
    b.text("c");
    b.close_group();
    b.close_group();
    assert_eq!(render(b, 80), "a\nb\nc");
}

#[test]
fn line_suffix_defers_to_end_of_line() {
    let mut b = Builder::new();
    b.text("x = 1");
    b.push_target();
    b.text(" # hi");
    b.close_line_suffix(COMMENT_PRIORITY);
    b.hard();
    b.text("y");
    assert_eq!(render(b, 80), "x = 1 # hi\ny");
}

fn call_with_optional_comma(b: &mut Builder) {
    b.open_group();
    b.text("f(");
    b.push_target();
    b.soft();
    b.text("arg");
    // Both branches are built; the printer picks one.
    b.push_target();
    b.text(",");
    let broken = b.pop_target();
    let flat = if b.current_group_broken() {
        let flags = b.broken_flags();
        b.push_target();
        b.pop_target();
        b.restore_broken_flags(flags);
        alofmt::doc::Fragment::empty()
    } else {
        b.push_target();
        b.pop_target()
    };
    b.close_if_break(broken, flat);
    b.close_indent();
    b.soft();
    b.text(")");
    b.close_group();
}

#[test]
fn if_break_selects_by_mode() {
    let mut b = Builder::new();
    call_with_optional_comma(&mut b);
    assert_eq!(render(b, 80), "f(arg)");
    let mut b = Builder::new();
    call_with_optional_comma(&mut b);
    assert_eq!(render(b, 4), "f(\n    arg,\n)");
}

#[test]
fn trim_refunds_only_trailing_whitespace_while_fitting() {
    let mut b = Builder::new();
    b.open_group();
    b.text("a  ");
    b.trim();
    b.space();
    b.text("b");
    b.close_group();
    assert_eq!(render(b, 3), "a b");
}

#[test]
fn output_and_fit_indentation_are_independent() {
    let mut b = Builder::new();
    b.open_group();
    b.text("[");
    b.push_target();
    b.soft();
    b.text("item");
    b.close_indent();
    b.soft();
    b.text("]");
    b.close_group();

    assert_eq!(print(&b.finish(), "", options(4, 2)), "[\n  item\n]");
}

#[test]
fn compares_rendered_output_without_materialising_it() {
    let mut b = Builder::new();
    b.text("a  ");
    b.trim();
    b.push_target();
    b.line(Line::hard());
    b.text("b");
    b.close_indent();
    let docs = b.finish();
    let options = options(80, 4);

    assert_eq!(print(&docs, "", options), "a\n    b");
    assert!(matches_source(&docs, "a\n    b", options));
    assert!(!matches_source(&docs, "a  \n    b", options));
    assert!(!matches_source(&docs, "a\n  b", options));
}

#[test]
fn source_spans_are_rendered_without_owned_text() {
    let mut b = Builder::new();
    b.source(0, 1);
    b.source(1, 3);

    let docs = b.finish();
    let root = docs.root_nodes();
    assert!(matches!(root.first(), Some(Doc::Source(Span { start: 0, end: 3 }))));
    assert_eq!(root.len(), 1);
    assert_eq!(
        print(
            &docs,
            "abc",
            PrintOptions {
                line_width: 80,
                indent_width: 2,
                fit_indent_width: 2,
                output_capacity: 3,
            },
        ),
        "abc"
    );
}
