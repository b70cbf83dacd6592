use alofmt::comments::Comment;
use alofmt::layout::{layout_program, LayoutError, Syntax, SyntaxKind, SyntaxNode};
use alofmt::options::{FormatOptions, PercentArrays, QuoteStyle};
use alofmt::print::{matches_source, print};
use alofmt::source::{finish_output, prepare, print_options};

fn node(kind: SyntaxKind, start: usize, end: usize) -> SyntaxNode {
    SyntaxNode {
        kind,
        start,
        end,
        head: (0, 0),
        middle: (0, 0),
        tail: (0, 0),
        children_start: 0,
        child_count: 0,
        trailing: (0, 0),
        body: (0, 0),
    }
}

fn comment(start: usize, end: usize, own_line: bool) -> Comment {
    Comment { start, end, own_line, embdoc: false }
}

/// A statement list holding `target = value` and nothing else: the target
/// at `target`, the operator at `operator`, an integer at `value`.
fn assignment(end: usize, target: (usize, usize), operator: (usize, usize), value: (usize, usize)) -> Syntax {
    let statements = SyntaxNode { child_count: 1, ..node(SyntaxKind::Statements, 0, end) };
    let write = SyntaxNode {
        head: target,
        middle: operator,
        children_start: 1,
        child_count: 1,
        ..node(SyntaxKind::Write, target.0, value.1)
    };
    let integer = node(SyntaxKind::Integer, value.0, value.1);
    Syntax { nodes: vec![statements, write, integer], children: vec![1, 2], notes: vec![] }
}

/// Formats `source` whose text (after any byte-order mark) `syntax` describes.
fn format_laid(source: &[u8], syntax: &Syntax, options: &FormatOptions) -> String {
    let prepared = prepare(source, options).expect("valid source");
    let text = std::str::from_utf8(&source[prepared.text_start..]).expect("UTF-8");
    let document = layout_program(syntax, text.as_bytes(), options).expect("laid out");
    let printed = print(&document, text, print_options(options, text.len()));
    finish_output(prepared, printed)
}

fn is_formatted_laid(source: &[u8], syntax: &Syntax, options: &FormatOptions) -> bool {
    let prepared = prepare(source, options).expect("valid source");
    let text = std::str::from_utf8(&source[prepared.text_start..]).expect("UTF-8");
    let document = layout_program(syntax, text.as_bytes(), options).expect("laid out");
    let formatted = matches_source(&document, text, print_options(options, 0));
    formatted && !prepared.has_bom || formatted && prepared.has_bom && text.len() + 3 == source.len()
}

fn empty_program() -> Syntax {
    Syntax { nodes: vec![node(SyntaxKind::Statements, 0, 0)], children: vec![], notes: vec![] }
}

#[test]
fn preserves_a_byte_order_mark() {
    let options = FormatOptions::default();
    let source = b"\xef\xbb\xbfx=1\n";
    assert_eq!(format_laid(source, &assignment(3, (0, 1), (1, 2), (2, 3)), &options), "\u{feff}x = 1\n");
    assert_eq!(format_laid(b"\xef\xbb\xbf", &empty_program(), &options), "\u{feff}\n");
}

#[test]
fn checks_formatting_without_rendering_an_output_string() {
    let options = FormatOptions::default();
    assert!(is_formatted_laid(b"x = 1\n", &assignment(5, (0, 1), (2, 3), (4, 5)), &options));
    assert!(is_formatted_laid(b"\xef\xbb\xbfx = 1\n", &assignment(5, (0, 1), (2, 3), (4, 5)), &options));
    assert!(!is_formatted_laid(b"x=1\n", &assignment(3, (0, 1), (1, 2), (2, 3)), &options));
    assert!(!is_formatted_laid(b"\xef\xbb\xbf", &empty_program(), &options));
}

#[test]
fn assignments_move_a_long_value_down() {
    let options = FormatOptions { line_width: 8, ..FormatOptions::default() };
    assert_eq!(format_laid(b"n=10000\n", &assignment(7, (0, 1), (1, 2), (2, 7)), &options), "n =\n  10000\n");
}

#[test]
fn integers_take_separators_when_asked() {
    let options = FormatOptions { normalize_number_separators: true, ..FormatOptions::default() };
    assert_eq!(format_laid(b"n=10000\n", &assignment(7, (0, 1), (1, 2), (2, 7)), &options), "n = 10_000\n");
}

#[test]
fn statements_keep_at_most_one_blank_line() {
    let source = b"a\n\n\n\nb\nc\n";
    let statements = SyntaxNode { child_count: 3, ..node(SyntaxKind::Statements, 0, 8) };
    let syntax = Syntax {
        nodes: vec![
            statements,
            node(SyntaxKind::Verbatim, 0, 1),
            node(SyntaxKind::Verbatim, 5, 6),
            node(SyntaxKind::Verbatim, 7, 8),
        ],
        children: vec![1, 2, 3],
        notes: vec![],
    };
    assert_eq!(format_laid(source, &syntax, &FormatOptions::default()), "a\n\nb\nc\n");
}

#[test]
fn strings_follow_the_quote_style() {
    let source = b"x='hello'\n";
    let statements = SyntaxNode { child_count: 1, ..node(SyntaxKind::Statements, 0, 9) };
    let write = SyntaxNode {
        head: (0, 1),
        middle: (1, 2),
        children_start: 1,
        child_count: 1,
        ..node(SyntaxKind::Write, 0, 9)
    };
    let string = SyntaxNode { head: (2, 3), middle: (3, 8), tail: (8, 9), ..node(SyntaxKind::String, 2, 9) };
    let syntax = Syntax { nodes: vec![statements, write, string], children: vec![1, 2], notes: vec![] };
    let double = FormatOptions { quote_style: QuoteStyle::Double, ..FormatOptions::default() };
    assert_eq!(format_laid(source, &syntax, &double), "x = \"hello\"\n");
    assert_eq!(format_laid(source, &syntax, &FormatOptions::default()), "x = 'hello'\n");
}

#[test]
fn nodes_without_a_layout_are_reported() {
    let statements = SyntaxNode { child_count: 1, ..node(SyntaxKind::Statements, 0, 3) };
    let syntax =
        Syntax { nodes: vec![statements, node(SyntaxKind::Unsupported(7), 0, 3)], children: vec![1], notes: vec![] };
    match layout_program(&syntax, b"foo\n", &FormatOptions::default()) {
        Err(LayoutError::Unsupported(kinds)) => assert_eq!(kinds, vec![7]),
        _ => panic!("expected the kind to be reported"),
    }
}

#[test]
fn malformed_trees_are_refused() {
    let statements = SyntaxNode { child_count: 1, ..node(SyntaxKind::Statements, 0, 3) };
    let syntax = Syntax { nodes: vec![statements], children: vec![0], notes: vec![] };
    assert!(matches!(layout_program(&syntax, b"foo", &FormatOptions::default()), Err(LayoutError::Malformed)));
    let outside = Syntax { nodes: vec![node(SyntaxKind::Verbatim, 0, 9)], children: vec![], notes: vec![] };
    assert!(matches!(layout_program(&outside, b"foo", &FormatOptions::default()), Err(LayoutError::Malformed)));
}

#[test]
fn trailing_comments_stay_at_the_end_of_their_line() {
    let source = b"x=1 # one\n";
    let mut syntax = assignment(3, (0, 1), (1, 2), (2, 3));
    syntax.nodes[1].trailing = (0, 1);
    syntax.notes = vec![comment(4, 9, false)];
    assert_eq!(format_laid(source, &syntax, &FormatOptions::default()), "x = 1 # one\n");
}

#[test]
fn a_comment_trailing_the_value_breaks_the_assignment() {
    // The comment breaks every group around it, so the value moves down
    // even though it would fit.
    let source = b"x=1 # one\n";
    let mut syntax = assignment(3, (0, 1), (1, 2), (2, 3));
    syntax.nodes[2].trailing = (0, 1);
    syntax.notes = vec![comment(4, 9, false)];
    assert_eq!(format_laid(source, &syntax, &FormatOptions::default()), "x =\n  1 # one\n");
}

#[test]
fn own_line_comments_sit_among_statements_in_source_order() {
    let source = b"# top\na\n\n\n# mid\nb\n";
    let statements = SyntaxNode { child_count: 2, body: (0, 2), ..node(SyntaxKind::Statements, 0, 18) };
    let syntax = Syntax {
        nodes: vec![statements, node(SyntaxKind::Verbatim, 6, 7), node(SyntaxKind::Verbatim, 16, 17)],
        children: vec![1, 2],
        notes: vec![comment(0, 5, true), comment(10, 15, true)],
    };
    assert_eq!(format_laid(source, &syntax, &FormatOptions::default()), "# top\na\n\n# mid\nb\n");
}

#[test]
fn comments_outside_the_source_are_refused() {
    let statements = SyntaxNode { body: (0, 2), ..node(SyntaxKind::Statements, 0, 3) };
    let syntax = Syntax { nodes: vec![statements], children: vec![], notes: vec![comment(0, 3, true)] };
    assert!(matches!(layout_program(&syntax, b"# a", &FormatOptions::default()), Err(LayoutError::Malformed)));
}

/// `name(1, 2)` or `name 1, 2`: a call without a receiver, its two integer
/// arguments at `first` and `second`.
fn call_of_two(
    end: usize,
    name: (usize, usize),
    paren: (usize, usize),
    first: (usize, usize),
    second: (usize, usize),
) -> Syntax {
    let statements = SyntaxNode { child_count: 1, ..node(SyntaxKind::Statements, 0, end) };
    let call = SyntaxNode {
        middle: name,
        tail: paren,
        children_start: 1,
        child_count: 2,
        ..node(SyntaxKind::Call(4), name.0, end)
    };
    Syntax {
        nodes: vec![
            statements,
            call,
            node(SyntaxKind::Integer, first.0, first.1),
            node(SyntaxKind::Integer, second.0, second.1),
        ],
        children: vec![1, 2, 3],
        notes: vec![],
    }
}

#[test]
fn parenthesized_arguments_stay_flat_when_they_fit() {
    let syntax = call_of_two(8, (0, 3), (3, 4), (4, 5), (6, 7));
    assert_eq!(format_laid(b"foo(1,2)\n", &syntax, &FormatOptions::default()), "foo(1, 2)\n");
}

#[test]
fn parenthesized_arguments_break_one_per_line() {
    let syntax = call_of_two(8, (0, 3), (3, 4), (4, 5), (6, 7));
    let narrow = FormatOptions { line_width: 6, ..FormatOptions::default() };
    assert_eq!(format_laid(b"foo(1,2)\n", &syntax, &narrow), "foo(\n  1,\n  2\n)\n");
    let commas = FormatOptions { line_width: 6, trailing_commas: true, ..FormatOptions::default() };
    assert_eq!(format_laid(b"foo(1,2)\n", &syntax, &commas), "foo(\n  1,\n  2,\n)\n");
    let flat = FormatOptions { trailing_commas: true, ..FormatOptions::default() };
    assert_eq!(format_laid(b"foo(1,2)\n", &syntax, &flat), "foo(1, 2)\n");
}

#[test]
fn command_arguments_align_under_the_first() {
    let syntax = call_of_two(10, (0, 4), (0, 0), (5, 6), (9, 10));
    assert_eq!(format_laid(b"puts 1,  2\n", &syntax, &FormatOptions::default()), "puts 1, 2\n");
    let narrow = FormatOptions { line_width: 8, ..FormatOptions::default() };
    assert_eq!(format_laid(b"puts 1,  2\n", &syntax, &narrow), "puts 1,\n     2\n");
    let unaligned = FormatOptions { line_width: 8, max_command_alignment: 0, ..FormatOptions::default() };
    assert_eq!(format_laid(b"puts 1,  2\n", &syntax, &unaligned), "puts 1,\n2\n");
}

#[test]
fn empty_parentheses_and_call_operators_are_normalized() {
    // `a&.b()` keeps its safe navigation; `A::c()` takes a dot.
    for (source, expected) in [(&b"a&.b()\n"[..], "a&.b()\n"), (&b"A::c()\n"[..], "A.c()\n")] {
        let statements = SyntaxNode { child_count: 1, ..node(SyntaxKind::Statements, 0, 6) };
        let call = SyntaxNode {
            head: (1, 3),
            middle: (3, 4),
            tail: (4, 5),
            children_start: 1,
            child_count: 1,
            ..node(SyntaxKind::Call(0), 0, 6)
        };
        let syntax = Syntax {
            nodes: vec![statements, call, node(SyntaxKind::Verbatim, 0, 1)],
            children: vec![1, 2],
            notes: vec![],
        };
        assert_eq!(format_laid(source, &syntax, &FormatOptions::default()), expected);
    }
}

#[test]
fn long_chains_are_reported() {
    // `a.b.c.d`: three chained calls reach the default threshold.
    let statements = SyntaxNode { child_count: 1, ..node(SyntaxKind::Statements, 0, 7) };
    let call = |end: usize, receiver: usize| SyntaxNode {
        head: (end - 2, end - 1),
        middle: (end - 1, end),
        children_start: receiver,
        child_count: 1,
        ..node(SyntaxKind::Call(9), 0, end)
    };
    let syntax = Syntax {
        nodes: vec![statements, call(7, 1), call(5, 2), call(3, 3), node(SyntaxKind::Verbatim, 0, 1)],
        children: vec![1, 2, 3, 4],
        notes: vec![],
    };
    match layout_program(&syntax, b"a.b.c.d\n", &FormatOptions::default()) {
        Err(LayoutError::Unsupported(kinds)) => assert_eq!(kinds, vec![9]),
        _ => panic!("expected the chain to be reported"),
    }
    let shorter = FormatOptions { chain_break_threshold: 4, ..FormatOptions::default() };
    assert_eq!(format_laid(b"a.b.c.d\n", &syntax, &shorter), "a.b.c.d\n");
}

/// `[1, 2]` with its elements at `first` and `second`, ending at `end`.
fn array_of_two(end: usize, first: (usize, usize), second: (usize, usize)) -> Syntax {
    let statements = SyntaxNode { child_count: 1, ..node(SyntaxKind::Statements, 0, end) };
    let array = SyntaxNode { children_start: 1, child_count: 2, ..node(SyntaxKind::Array(2), 0, end) };
    Syntax {
        nodes: vec![
            statements,
            array,
            node(SyntaxKind::Integer, first.0, first.1),
            node(SyntaxKind::Integer, second.0, second.1),
        ],
        children: vec![1, 2, 3],
        notes: vec![],
    }
}

#[test]
fn arrays_break_one_element_per_line() {
    let syntax = array_of_two(5, (1, 2), (3, 4));
    assert_eq!(format_laid(b"[1,2]\n", &syntax, &FormatOptions::default()), "[1, 2]\n");
    let narrow = FormatOptions { line_width: 4, ..FormatOptions::default() };
    assert_eq!(format_laid(b"[1,2]\n", &syntax, &narrow), "[\n  1,\n  2\n]\n");
    let commas = FormatOptions { line_width: 4, trailing_commas: true, ..FormatOptions::default() };
    assert_eq!(format_laid(b"[1,2]\n", &syntax, &commas), "[\n  1,\n  2,\n]\n");
}

#[test]
fn empty_arrays_print_as_brackets() {
    let statements = SyntaxNode { child_count: 1, ..node(SyntaxKind::Statements, 0, 3) };
    let syntax = Syntax {
        nodes: vec![statements, node(SyntaxKind::Array(2), 0, 3)],
        children: vec![1],
        notes: vec![],
    };
    assert_eq!(format_laid(b"[ ]\n", &syntax, &FormatOptions::default()), "[]\n");
}

#[test]
fn arrays_that_may_take_a_percent_form_are_reported() {
    let statements = SyntaxNode { child_count: 1, ..node(SyntaxKind::Statements, 0, 8) };
    let array = SyntaxNode { children_start: 1, child_count: 2, ..node(SyntaxKind::Array(2), 0, 8) };
    let syntax = Syntax {
        nodes: vec![statements, array, node(SyntaxKind::Verbatim, 1, 3), node(SyntaxKind::Verbatim, 5, 7)],
        children: vec![1, 2, 3],
        notes: vec![],
    };
    let prefer = FormatOptions { percent_arrays: PercentArrays::Prefer, ..FormatOptions::default() };
    match layout_program(&syntax, b"[:a, :b]\n", &prefer) {
        Err(LayoutError::Unsupported(kinds)) => assert_eq!(kinds, vec![2]),
        _ => panic!("expected the array to be reported"),
    }
    assert_eq!(format_laid(b"[:a, :b]\n", &syntax, &FormatOptions::default()), "[:a, :b]\n");
}

#[test]
fn an_assigned_array_stays_beside_the_operator() {
    let source = b"x=[1,2]\n";
    let statements = SyntaxNode { child_count: 1, ..node(SyntaxKind::Statements, 0, 7) };
    let write = SyntaxNode {
        head: (0, 1),
        middle: (1, 2),
        children_start: 1,
        child_count: 1,
        ..node(SyntaxKind::Write, 0, 7)
    };
    let array = SyntaxNode { children_start: 2, child_count: 2, ..node(SyntaxKind::Array(2), 2, 7) };
    let syntax = Syntax {
        nodes: vec![statements, write, array, node(SyntaxKind::Integer, 3, 4), node(SyntaxKind::Integer, 5, 6)],
        children: vec![1, 2, 3, 4],
        notes: vec![],
    };
    assert_eq!(format_laid(source, &syntax, &FormatOptions::default()), "x = [1, 2]\n");
    let narrow = FormatOptions { line_width: 8, ..FormatOptions::default() };
    assert_eq!(format_laid(source, &syntax, &narrow), "x = [\n  1,\n  2\n]\n");
}

#[test]
fn definitions_indent_their_bodies() {
    // "class A<B\nx=1\nend\n"
    let source = b"class A<B\nx=1\nend\n";
    let class = SyntaxNode { middle: (7, 8), children_start: 1, child_count: 3, ..node(SyntaxKind::Class, 0, 17) };
    let body = SyntaxNode { children_start: 4, child_count: 1, ..node(SyntaxKind::Statements, 10, 13) };
    let write = SyntaxNode {
        head: (10, 11),
        middle: (11, 12),
        children_start: 5,
        child_count: 1,
        ..node(SyntaxKind::Write, 10, 13)
    };
    let syntax = Syntax {
        nodes: vec![
            SyntaxNode { child_count: 1, ..node(SyntaxKind::Statements, 0, 17) },
            class,
            node(SyntaxKind::Verbatim, 6, 7),
            node(SyntaxKind::Verbatim, 8, 9),
            body,
            write,
            node(SyntaxKind::Integer, 12, 13),
        ],
        children: vec![1, 2, 3, 4, 5, 6],
        notes: vec![],
    };
    assert_eq!(format_laid(source, &syntax, &FormatOptions::default()), "class A < B\n  x = 1\nend\n");
}

#[test]
fn methods_without_parameters_keep_their_empty_parentheses() {
    // "def self.a()\nend\n"
    let source = b"def self.a()\nend\n";
    let def = SyntaxNode {
        head: (8, 9),
        middle: (9, 10),
        tail: (10, 11),
        children_start: 1,
        child_count: 1,
        ..node(SyntaxKind::Def, 0, 16)
    };
    let syntax = Syntax {
        nodes: vec![
            SyntaxNode { child_count: 1, ..node(SyntaxKind::Statements, 0, 16) },
            def,
            node(SyntaxKind::Verbatim, 4, 8),
        ],
        children: vec![1, 2],
        notes: vec![],
    };
    assert_eq!(format_laid(source, &syntax, &FormatOptions::default()), "def self.a()\nend\n");
    let module = SyntaxNode { children_start: 1, child_count: 1, ..node(SyntaxKind::Module, 0, 12) };
    let empty = Syntax {
        nodes: vec![
            SyntaxNode { child_count: 1, ..node(SyntaxKind::Statements, 0, 12) },
            module,
            node(SyntaxKind::Verbatim, 7, 8),
        ],
        children: vec![1, 2],
        notes: vec![],
    };
    assert_eq!(format_laid(b"module M;end\n", &empty, &FormatOptions::default()), "module M\nend\n");
}

#[test]
fn constant_paths_print_their_parent_and_name() {
    // "A::B\n::C\n"
    let source = b"A::B\n::C\n";
    let outer = SyntaxNode { middle: (3, 4), children_start: 2, child_count: 1, ..node(SyntaxKind::ConstantPath, 0, 4) };
    let top = SyntaxNode { middle: (7, 8), ..node(SyntaxKind::ConstantPath, 5, 8) };
    let syntax = Syntax {
        nodes: vec![
            SyntaxNode { child_count: 2, ..node(SyntaxKind::Statements, 0, 8) },
            outer,
            top,
            node(SyntaxKind::Verbatim, 0, 1),
        ],
        children: vec![1, 2, 3],
        notes: vec![],
    };
    assert_eq!(format_laid(source, &syntax, &FormatOptions::default()), "A::B\n::C\n");
}

#[test]
fn the_right_operand_of_a_boolean_moves_down_when_it_does_not_fit() {
    // "a&&b\n"
    let boolean = SyntaxNode { middle: (1, 3), children_start: 1, child_count: 2, ..node(SyntaxKind::Boolean, 0, 4) };
    let syntax = Syntax {
        nodes: vec![
            SyntaxNode { child_count: 1, ..node(SyntaxKind::Statements, 0, 4) },
            boolean,
            node(SyntaxKind::Verbatim, 0, 1),
            node(SyntaxKind::Verbatim, 3, 4),
        ],
        children: vec![1, 2, 3],
        notes: vec![],
    };
    assert_eq!(format_laid(b"a&&b\n", &syntax, &FormatOptions::default()), "a && b\n");
    let narrow = FormatOptions { line_width: 4, ..FormatOptions::default() };
    assert_eq!(format_laid(b"a&&b\n", &syntax, &narrow), "a &&\n  b\n");
}

/// `return` with integer arguments at `arguments`, ending at `end`.
fn jump(end: usize, arguments: &[(usize, usize)]) -> Syntax {
    let jump = SyntaxNode {
        middle: (0, 6),
        children_start: 1,
        child_count: arguments.len(),
        ..node(SyntaxKind::Jump(5), 0, end)
    };
    let mut nodes = vec![SyntaxNode { child_count: 1, ..node(SyntaxKind::Statements, 0, end) }, jump];
    let mut children = vec![1];
    for (k, argument) in arguments.iter().enumerate() {
        nodes.push(node(SyntaxKind::Integer, argument.0, argument.1));
        children.push(2 + k);
    }
    Syntax { nodes, children, notes: vec![] }
}

#[test]
fn a_returned_value_gains_parentheses_when_it_breaks() {
    let syntax = jump(8, &[(7, 8)]);
    assert_eq!(format_laid(b"return 1\n", &syntax, &FormatOptions::default()), "return 1\n");
    let narrow = FormatOptions { line_width: 6, ..FormatOptions::default() };
    assert_eq!(format_laid(b"return 1\n", &syntax, &narrow), "return(\n  1\n)\n");
    assert_eq!(format_laid(b"return\n", &jump(6, &[]), &narrow), "return\n");
}

#[test]
fn several_returned_values_take_brackets_when_they_break() {
    let syntax = jump(12, &[(7, 8), (11, 12)]);
    assert_eq!(format_laid(b"return 1,  2\n", &syntax, &FormatOptions::default()), "return 1, 2\n");
    let narrow = FormatOptions { line_width: 8, ..FormatOptions::default() };
    assert_eq!(format_laid(b"return 1,  2\n", &syntax, &narrow), "return [\n  1,\n  2\n]\n");
}

#[test]
fn an_own_line_comment_trailing_a_statement_keeps_its_own_line() {
    let source = b"x=1\n# c\n";
    let mut syntax = assignment(3, (0, 1), (1, 2), (2, 3));
    syntax.nodes[1].trailing = (0, 1);
    syntax.notes = vec![comment(4, 7, true)];
    assert_eq!(format_laid(source, &syntax, &FormatOptions::default()), "x = 1\n# c\n");
}

#[test]
fn parentheses_break_around_their_contents() {
    // "(1)\n()\n"
    let inner = SyntaxNode { child_count: 1, children_start: 3, ..node(SyntaxKind::Statements, 1, 2) };
    let syntax = Syntax {
        nodes: vec![
            SyntaxNode { child_count: 2, ..node(SyntaxKind::Statements, 0, 6) },
            SyntaxNode { child_count: 1, children_start: 2, ..node(SyntaxKind::Parentheses, 0, 3) },
            node(SyntaxKind::Parentheses, 4, 6),
            inner,
            node(SyntaxKind::Integer, 1, 2),
        ],
        children: vec![1, 2, 3, 4],
        notes: vec![],
    };
    assert_eq!(format_laid(b"(1)\n()\n", &syntax, &FormatOptions::default()), "(1)\n()\n");
}

#[test]
fn spans_that_split_a_character_or_trees_of_the_wrong_shape_are_malformed() {
    // "é" is two bytes; a verbatim node ending inside it does not fit.
    let source = "é\n".as_bytes();
    let statements = SyntaxNode { child_count: 1, ..node(SyntaxKind::Statements, 0, 2) };
    let split = Syntax { nodes: vec![statements, node(SyntaxKind::Verbatim, 0, 1)], children: vec![1], notes: vec![] };
    assert!(matches!(layout_program(&split, source, &FormatOptions::default()), Err(LayoutError::Malformed)));
    let whole = Syntax { nodes: vec![statements, node(SyntaxKind::Verbatim, 0, 2)], children: vec![1], notes: vec![] };
    assert!(layout_program(&whole, source, &FormatOptions::default()).is_ok());
    // A write holds exactly one value.
    let write = SyntaxNode { head: (0, 1), middle: (1, 2), children_start: 1, child_count: 0, ..node(SyntaxKind::Write, 0, 2) };
    let bare = Syntax { nodes: vec![statements, write], children: vec![1], notes: vec![] };
    assert!(matches!(layout_program(&bare, b"x=\n", &FormatOptions::default()), Err(LayoutError::Malformed)));
}
