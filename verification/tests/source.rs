use alofmt::options::{FormatOptions, OptionsError};
use alofmt::source::{finish_output, line_of, line_starts, prepare, print_options, Prepared, SourceError};

#[test]
fn rejects_non_utf8_input() {
    let error = prepare(b"x = \xff\n", &FormatOptions::default()).expect_err("invalid UTF-8 should fail");

    assert_eq!(error.message(), "source is not valid UTF-8");
}

#[test]
fn strips_and_remembers_a_byte_order_mark() {
    let prepared = prepare(b"\xef\xbb\xbfx=1\n", &FormatOptions::default()).expect("valid source");
    assert_eq!(prepared, Prepared { has_bom: true, text_start: 3 });
    let prepared = prepare(b"\xef\xbb\xbf", &FormatOptions::default()).expect("bare BOM");
    assert_eq!(prepared, Prepared { has_bom: true, text_start: 3 });
    let prepared = prepare(b"x = 1\n", &FormatOptions::default()).expect("valid source");
    assert_eq!(prepared, Prepared { has_bom: false, text_start: 0 });
    let prepared = prepare(b"", &FormatOptions::default()).expect("empty source");
    assert_eq!(prepared, Prepared { has_bom: false, text_start: 0 });
}

#[test]
fn invalid_options_are_refused_before_the_source() {
    let options = FormatOptions { line_width: 0, ..FormatOptions::default() };
    assert_eq!(prepare(b"\xff", &options), Err(SourceError::Options(OptionsError::ZeroLineWidth)));
    assert_eq!(SourceError::Options(OptionsError::ZeroLineWidth).message(), "line width must be greater than zero");
    assert_eq!(SourceError::TooLarge.message(), "source exceeds the 4 GiB document-offset limit");
}

#[test]
fn a_byte_order_mark_is_preserved_in_the_output() {
    let prepared = prepare(b"\xef\xbb\xbfx=1\n", &FormatOptions::default()).expect("valid source");
    assert_eq!(finish_output(prepared, "x = 1\n".to_owned()), "\u{feff}x = 1\n");
    let prepared = prepare(b"x=1\n", &FormatOptions::default()).expect("valid source");
    assert_eq!(finish_output(prepared, "x = 1\n".to_owned()), "x = 1\n");
}

#[test]
fn lines_are_counted_from_one() {
    let source = b"a\nbb\n\nc";
    assert_eq!(line_of(source, 0), 1);
    assert_eq!(line_of(source, 2), 2);
    assert_eq!(line_of(source, 5), 3);
    assert_eq!(line_of(source, 6), 4);
    assert_eq!(line_of(source, 100), 4);
    assert_eq!(line_starts(source), [0, 2, 5, 6]);
    assert_eq!(line_starts(b""), [0]);
}

#[test]
fn print_options_reserve_one_more_byte() {
    let options = FormatOptions { line_width: 30, indent_width: 4, fit_indent_width: 2, ..FormatOptions::default() };
    let print = print_options(&options, 10);
    assert_eq!((print.line_width, print.indent_width, print.fit_indent_width, print.output_capacity), (30, 4, 2, 11));
    assert_eq!(print_options(&options, usize::MAX).output_capacity, usize::MAX);
}
