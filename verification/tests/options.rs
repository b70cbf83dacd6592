use alofmt::options::{
    BlockDelimiters, DelimitedArgumentAlignment, FormatOptions, MethodCallParentheses, MultilineAssignmentLayout,
    OptionsError, PercentArrays, QuoteStyle, RedundantSelf, StyleOptions,
};

fn no_overrides() -> StyleOptions {
    StyleOptions {
        line_width: None,
        indent_width: None,
        fit_indent_width: None,
        quote_style: None,
        trailing_commas: None,
        percent_arrays: None,
        normalize_number_separators: None,
        explicit_standard_error: None,
        ignore_directives: Vec::new(),
        no_ignore_directives: false,
        chain_break_threshold: None,
        compact_chain_break_threshold: None,
        compact_chain_blocks: Vec::new(),
        no_compact_chain_blocks: false,
        unaligned_command_calls: Vec::new(),
        no_unaligned_command_calls: false,
        max_command_alignment: None,
        delimited_argument_alignment: None,
        multiline_assignment_layout: None,
        block_delimiters: None,
        method_call_with_args_parentheses: None,
        method_call_without_args_parentheses: None,
        redundant_self: None,
        allowed_methods: Vec::new(),
        no_allowed_methods: false,
        member_macros: Vec::new(),
        no_member_macros: false,
    }
}

#[test]
fn defaults_do_not_encode_project_method_names_or_syntax_rewrites() {
    let options = FormatOptions::default();

    assert_eq!(options.indent_width, options.fit_indent_width);
    assert_eq!(options.quote_style, QuoteStyle::Preserve);
    assert!(!options.trailing_commas);
    assert_eq!(options.percent_arrays, PercentArrays::Preserve);
    assert!(!options.normalize_number_separators);
    assert!(!options.explicit_standard_error);
    assert_eq!(options.ignore_directives, ["alofmt-ignore"]);
    assert!(options.compact_chain_blocks.is_empty());
    assert!(options.unaligned_command_calls.is_empty());
    assert_eq!(options.delimited_argument_alignment, DelimitedArgumentAlignment::Aligned);
    assert_eq!(options.multiline_assignment_layout, MultilineAssignmentLayout::NewLine);
    assert_eq!(options.block_delimiters, BlockDelimiters::LineCountBased);
}

#[test]
fn defaults_follow_the_configuration_reference() {
    let options = FormatOptions::default();
    assert_eq!(options.line_width, 80);
    assert_eq!(options.indent_width, 2);
    assert_eq!(options.chain_break_threshold, 3);
    assert_eq!(options.compact_chain_break_threshold, 3);
    assert_eq!(options.max_command_alignment, 40);
    assert_eq!(options.method_call_with_args_parentheses, MethodCallParentheses::Preserve);
    assert_eq!(options.method_call_without_args_parentheses, MethodCallParentheses::Preserve);
    assert_eq!(options.redundant_self, RedundantSelf::Preserve);
    assert!(options.allowed_methods.is_empty());
    assert_eq!(options.member_macros, ["attr", "attr_reader", "attr_accessor", "define_method"]);
    assert_eq!(options.validate(), Ok(()));
}

#[test]
fn rejects_zero_widths() {
    let options = FormatOptions { line_width: 0, ..FormatOptions::default() };

    let error = options.validate().expect_err("zero width should fail");
    assert_eq!(error.message(), "line width must be greater than zero");
}

#[test]
fn rejects_multiline_ignore_directives() {
    let options = FormatOptions { ignore_directives: vec!["alofmt-ignore\nnext".to_owned()], ..FormatOptions::default() };

    let error = options.validate().expect_err("multiline directive should fail");
    assert_eq!(error.message(), "ignore directives cannot contain line breaks");
}

#[test]
fn every_validation_error_has_its_input() {
    let cases: Vec<(FormatOptions, OptionsError, &str)> = vec![
        (FormatOptions { indent_width: 0, ..FormatOptions::default() }, OptionsError::ZeroIndentWidth, "indent width must be greater than zero"),
        (FormatOptions { fit_indent_width: 0, ..FormatOptions::default() }, OptionsError::ZeroFitIndentWidth, "fit indent width must be greater than zero"),
        (FormatOptions { chain_break_threshold: 0, ..FormatOptions::default() }, OptionsError::ZeroChainBreakThreshold, "chain break threshold must be greater than zero"),
        (FormatOptions { compact_chain_break_threshold: 0, ..FormatOptions::default() }, OptionsError::ZeroCompactChainBreakThreshold, "compact chain break threshold must be greater than zero"),
        (FormatOptions { ignore_directives: vec![String::new()], ..FormatOptions::default() }, OptionsError::EmptyIgnoreDirective, "ignore directives cannot be empty"),
        (FormatOptions { ignore_directives: vec!["keep\r".to_owned()], ..FormatOptions::default() }, OptionsError::MultilineIgnoreDirective, "ignore directives cannot contain line breaks"),
    ];
    for (options, expected, message) in cases {
        let error = options.validate().expect_err("invalid options");
        assert_eq!(error, expected);
        assert_eq!(error.message(), message);
    }
}

#[test]
fn the_first_failing_check_is_reported() {
    let options = FormatOptions {
        line_width: 0,
        indent_width: 0,
        ignore_directives: vec![String::new()],
        ..FormatOptions::default()
    };
    assert_eq!(options.validate(), Err(OptionsError::ZeroLineWidth));
    let options = FormatOptions {
        ignore_directives: vec!["ok".to_owned(), "two\nlines".to_owned(), String::new()],
        ..FormatOptions::default()
    };
    assert_eq!(options.validate(), Err(OptionsError::MultilineIgnoreDirective));
}

#[test]
fn style_flags_override_defaults() {
    let style = StyleOptions {
        line_width: Some(100),
        quote_style: Some(QuoteStyle::Preserve),
        trailing_commas: Some(false),
        no_ignore_directives: true,
        ..no_overrides()
    };

    let mut options = FormatOptions::default();
    style.apply(&mut options).expect("valid options");
    assert_eq!(options.line_width, 100);
    assert_eq!(options.quote_style, QuoteStyle::Preserve);
    assert!(!options.trailing_commas);
    assert!(options.ignore_directives.is_empty());
}

#[test]
fn no_overrides_leave_the_options_alone() {
    let mut options = FormatOptions { line_width: 120, compact_chain_blocks: vec!["sig".to_owned()], ..FormatOptions::default() };
    let before = options.clone();
    no_overrides().apply(&mut options).expect("valid options");
    assert_eq!(options, before);
}

#[test]
fn list_flags_replace_or_clear_the_configured_list() {
    let mut options = FormatOptions::default();
    let style = StyleOptions {
        compact_chain_blocks: vec!["sig".to_owned(), "typed".to_owned()],
        unaligned_command_calls: vec!["to".to_owned()],
        no_member_macros: true,
        allowed_methods: vec!["raise".to_owned()],
        ..no_overrides()
    };
    style.apply(&mut options).expect("valid options");
    assert_eq!(options.compact_chain_blocks, ["sig", "typed"]);
    assert_eq!(options.unaligned_command_calls, ["to"]);
    assert!(options.member_macros.is_empty());
    assert_eq!(options.allowed_methods, ["raise"]);
    assert_eq!(options.ignore_directives, ["alofmt-ignore"]);
}

#[test]
fn overrides_are_validated_after_applying() {
    let mut options = FormatOptions::default();
    let style = StyleOptions { fit_indent_width: Some(0), ..no_overrides() };
    assert_eq!(style.apply(&mut options), Err(OptionsError::ZeroFitIndentWidth));
    assert_eq!(options.fit_indent_width, 0);
}
