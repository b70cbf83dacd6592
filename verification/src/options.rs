//! Formatting policy: the options, their defaults, their validation, and
//! the command line's overrides on top of a loaded configuration.

use vstd::prelude::*;
use vstd::string::StringSliceAdditionalSpecFns;
use vstd::utf8::encode_utf8;

verus! {

/// Preferred delimiter for plain strings and quoted symbols.
#[derive(Clone, Copy, Debug, PartialEq, Eq, Structural)]
pub enum QuoteStyle {
    /// Prefer single quotes where changing delimiters is semantics-preserving.
    Single,
    /// Prefer double quotes where changing delimiters is semantics-preserving.
    Double,
    /// Keep the source delimiter.
    Preserve,
}

/// How an array of single-word strings or symbols is spelled.
#[derive(Clone, Copy, Debug, PartialEq, Eq, Structural)]
pub enum PercentArrays {
    /// Collapse an eligible bracketed array to its `%w` or `%i` literal.
    Prefer,
    /// Keep every array as written.
    Preserve,
    /// Rewrite a `%w` or `%i` literal as a bracketed array where the words
    /// allow it.
    Avoid,
}

/// Which delimiters a block prints with, where either would parse the same.
#[derive(Clone, Copy, Debug, PartialEq, Eq, Structural)]
pub enum BlockDelimiters {
    /// `{ }` when the block fits on one line, `do`/`end` when it breaks.
    LineCountBased,
    /// `{ }` whether the block fits or breaks.
    AlwaysBraces,
    /// `do`/`end` on its own lines, even for a block that would fit.
    AlwaysDoEnd,
    /// The source's delimiters, flat or broken as the block fits.
    Preserve,
}

/// Where the contents of a command call's sole bracketed argument sit when
/// the call has to break.
#[derive(Clone, Copy, Debug, PartialEq, Eq, Structural)]
pub enum DelimitedArgumentAlignment {
    /// Under the argument's own column, closing bracket alongside.
    Aligned,
    /// One level in from the start of the line, closing bracket back at the
    /// line's indent.
    Consistent,
}

/// Where the value of an assignment that cannot fit on one line goes.
#[derive(Clone, Copy, Debug, PartialEq, Eq, Structural)]
pub enum MultilineAssignmentLayout {
    /// The whole value moves to an indented line, unless it opens a bracket.
    NewLine,
    /// A breakable value keeps its head on the assignment line.
    SameLine,
}

/// Parentheses around a call's arguments, or empty ones on a call without.
#[derive(Clone, Copy, Debug, PartialEq, Eq, Structural)]
pub enum MethodCallParentheses {
    RequireParentheses,
    OmitParentheses,
    Preserve,
}

/// A literal `self.` receiver on member calls.
#[derive(Clone, Copy, Debug, PartialEq, Eq, Structural)]
pub enum RedundantSelf {
    RequireSelf,
    OmitSelf,
    Preserve,
}

/// Formatting policy.
#[derive(Clone, Debug, PartialEq, Eq)]
pub struct FormatOptions {
    /// Maximum width used when deciding whether a document group fits.
    pub line_width: usize,
    /// Spaces emitted for one indentation level.
    pub indent_width: usize,
    /// Width charged to one indentation level while measuring a line.
    pub fit_indent_width: usize,
    /// Preferred delimiter for plain strings and quoted symbols.
    pub quote_style: QuoteStyle,
    /// Add a trailing comma when a collection or argument list breaks.
    pub trailing_commas: bool,
    /// Whether single-word arrays collapse to, or expand from, `%w`/`%i`.
    pub percent_arrays: PercentArrays,
    /// Add thousands separators to eligible decimal integer literals.
    pub normalize_number_separators: bool,
    /// Spell an omitted rescue class as `StandardError`.
    pub explicit_standard_error: bool,
    /// Comment bodies that make the following node print verbatim.
    pub ignore_directives: Vec<String>,
    /// Number of chained calls that makes a chain break by default.
    pub chain_break_threshold: usize,
    /// Chain threshold inside blocks named by `compact_chain_blocks`.
    pub compact_chain_break_threshold: usize,
    /// Block-call names that use `compact_chain_break_threshold`.
    pub compact_chain_blocks: Vec<String>,
    /// Command-call names whose continuations do not align under the first
    /// argument.
    pub unaligned_command_calls: Vec<String>,
    /// Longest command prefix eligible for continuation alignment; zero
    /// disables prefix alignment.
    pub max_command_alignment: usize,
    /// Where a command call's sole bracketed argument sits when it breaks.
    pub delimited_argument_alignment: DelimitedArgumentAlignment,
    /// Where the value of an assignment that cannot fit on one line goes.
    pub multiline_assignment_layout: MultilineAssignmentLayout,
    /// Which delimiters a block prints with, where either would parse the same.
    pub block_delimiters: BlockDelimiters,
    /// Parentheses around the arguments of a call.
    pub method_call_with_args_parentheses: MethodCallParentheses,
    /// Empty parentheses on a call with no arguments.
    pub method_call_without_args_parentheses: MethodCallParentheses,
    /// A `self.` receiver on member calls.
    pub redundant_self: RedundantSelf,
    /// Method names exempt from the call policies.
    pub allowed_methods: Vec<String>,
    /// Calls whose positional symbol and string arguments name members.
    pub member_macros: Vec<String>,
}

/// The characters of each string.
pub open spec fn strings_view(v: Seq<String>) -> Seq<Seq<char>> {
    v.map_values(|s: String| s@)
}

impl FormatOptions {
    /// The project-neutral defaults.
    pub open spec fn is_default(self) -> bool {
        &&& self.line_width == 80
        &&& self.indent_width == 2
        &&& self.fit_indent_width == 2
        &&& self.quote_style == QuoteStyle::Preserve
        &&& !self.trailing_commas
        &&& self.percent_arrays == PercentArrays::Preserve
        &&& !self.normalize_number_separators
        &&& !self.explicit_standard_error
        &&& strings_view(self.ignore_directives@) == seq!["alofmt-ignore"@]
        &&& self.chain_break_threshold == 3
        &&& self.compact_chain_break_threshold == 3
        &&& self.compact_chain_blocks@.len() == 0
        &&& self.unaligned_command_calls@.len() == 0
        &&& self.max_command_alignment == 40
        &&& self.delimited_argument_alignment == DelimitedArgumentAlignment::Aligned
        &&& self.multiline_assignment_layout == MultilineAssignmentLayout::NewLine
        &&& self.block_delimiters == BlockDelimiters::LineCountBased
        &&& self.method_call_with_args_parentheses == MethodCallParentheses::Preserve
        &&& self.method_call_without_args_parentheses == MethodCallParentheses::Preserve
        &&& self.redundant_self == RedundantSelf::Preserve
        &&& self.allowed_methods@.len() == 0
        &&& strings_view(self.member_macros@) == seq![
            "attr"@,
            "attr_reader"@,
            "attr_accessor"@,
            "define_method"@,
        ]
    }
}

impl Default for FormatOptions {
    fn default() -> (options: Self)
        ensures
            options.is_default(),
    {
        let options = FormatOptions {
            line_width: 80,
            indent_width: 2,
            fit_indent_width: 2,
            quote_style: QuoteStyle::Preserve,
            trailing_commas: false,
            percent_arrays: PercentArrays::Preserve,
            normalize_number_separators: false,
            explicit_standard_error: false,
            ignore_directives: vec!["alofmt-ignore".to_owned()],
            chain_break_threshold: 3,
            compact_chain_break_threshold: 3,
            compact_chain_blocks: Vec::new(),
            unaligned_command_calls: Vec::new(),
            max_command_alignment: 40,
            delimited_argument_alignment: DelimitedArgumentAlignment::Aligned,
            multiline_assignment_layout: MultilineAssignmentLayout::NewLine,
            block_delimiters: BlockDelimiters::LineCountBased,
            method_call_with_args_parentheses: MethodCallParentheses::Preserve,
            method_call_without_args_parentheses: MethodCallParentheses::Preserve,
            redundant_self: RedundantSelf::Preserve,
            allowed_methods: Vec::new(),
            member_macros: vec![
                "attr".to_owned(),
                "attr_reader".to_owned(),
                "attr_accessor".to_owned(),
                "define_method".to_owned(),
            ],
        };
        proof {
            assert(strings_view(options.ignore_directives@) =~= seq!["alofmt-ignore"@]);
            assert(strings_view(options.member_macros@) =~= seq![
                "attr"@,
                "attr_reader"@,
                "attr_accessor"@,
                "define_method"@,
            ]);
        }
        options
    }
}

/// Why a set of options was refused.
#[derive(Clone, Copy, Debug, PartialEq, Eq, Structural)]
pub enum OptionsError {
    ZeroLineWidth,
    ZeroIndentWidth,
    ZeroFitIndentWidth,
    ZeroChainBreakThreshold,
    ZeroCompactChainBreakThreshold,
    EmptyIgnoreDirective,
    MultilineIgnoreDirective,
}

impl OptionsError {
    /// The message reported for the error.
    pub fn message(&self) -> (text: &'static str)
        ensures
            text@ == self.message_text(),
    {
        match self {
            OptionsError::ZeroLineWidth => "line width must be greater than zero",
            OptionsError::ZeroIndentWidth => "indent width must be greater than zero",
            OptionsError::ZeroFitIndentWidth => "fit indent width must be greater than zero",
            OptionsError::ZeroChainBreakThreshold => "chain break threshold must be greater than zero",
            OptionsError::ZeroCompactChainBreakThreshold => "compact chain break threshold must be greater than zero",
            OptionsError::EmptyIgnoreDirective => "ignore directives cannot be empty",
            OptionsError::MultilineIgnoreDirective => "ignore directives cannot contain line breaks",
        }
    }

    pub open spec fn message_text(&self) -> Seq<char> {
        match self {
            OptionsError::ZeroLineWidth => "line width must be greater than zero"@,
            OptionsError::ZeroIndentWidth => "indent width must be greater than zero"@,
            OptionsError::ZeroFitIndentWidth => "fit indent width must be greater than zero"@,
            OptionsError::ZeroChainBreakThreshold => "chain break threshold must be greater than zero"@,
            OptionsError::ZeroCompactChainBreakThreshold => "compact chain break threshold must be greater than zero"@,
            OptionsError::EmptyIgnoreDirective => "ignore directives cannot be empty"@,
            OptionsError::MultilineIgnoreDirective => "ignore directives cannot contain line breaks"@,
        }
    }
}

/// A line feed or carriage return among a string's bytes.
pub open spec fn has_line_break(chars: Seq<char>) -> bool {
    encode_utf8(chars).contains(10u8) || encode_utf8(chars).contains(13u8)
}

/// The error for the first directive that is empty or spans lines.
pub open spec fn directive_error(directives: Seq<Seq<char>>) -> Option<OptionsError>
    decreases directives.len(),
{
    if directives.len() == 0 {
        None
    } else if directives[0].len() == 0 {
        Some(OptionsError::EmptyIgnoreDirective)
    } else if has_line_break(directives[0]) {
        Some(OptionsError::MultilineIgnoreDirective)
    } else {
        directive_error(directives.drop_first())
    }
}

/// Whether the bytes hold a line feed or a carriage return.
fn contains_line_break(bytes: &[u8]) -> (found: bool)
    ensures
        found == (bytes@.contains(10u8) || bytes@.contains(13u8)),
{
    let mut i: usize = 0;
    while i < bytes.len()
        invariant
            i <= bytes@.len(),
            forall|j: int| 0 <= j < i ==> #[trigger] bytes@[j] != 10u8 && bytes@[j] != 13u8,
        decreases bytes.len() - i,
    {
        if bytes[i] == 10u8 || bytes[i] == 13u8 {
            return true;
        }
        i = i + 1;
    }
    false
}

impl FormatOptions {
    /// The first check these options fail, in the order they are made.
    pub open spec fn validation_error(self) -> Option<OptionsError> {
        if self.line_width == 0 {
            Some(OptionsError::ZeroLineWidth)
        } else if self.indent_width == 0 {
            Some(OptionsError::ZeroIndentWidth)
        } else if self.fit_indent_width == 0 {
            Some(OptionsError::ZeroFitIndentWidth)
        } else if self.chain_break_threshold == 0 {
            Some(OptionsError::ZeroChainBreakThreshold)
        } else if self.compact_chain_break_threshold == 0 {
            Some(OptionsError::ZeroCompactChainBreakThreshold)
        } else {
            directive_error(strings_view(self.ignore_directives@))
        }
    }

    /// Validates options assembled programmatically.
    pub fn validate(&self) -> (result: Result<(), OptionsError>)
        ensures
            result is Ok <==> self.validation_error() is None,
            result matches Err(e) ==> self.validation_error() == Some(e),
    {
        if self.line_width == 0 {
            return Err(OptionsError::ZeroLineWidth);
        }
        if self.indent_width == 0 {
            return Err(OptionsError::ZeroIndentWidth);
        }
        if self.fit_indent_width == 0 {
            return Err(OptionsError::ZeroFitIndentWidth);
        }
        if self.chain_break_threshold == 0 {
            return Err(OptionsError::ZeroChainBreakThreshold);
        }
        if self.compact_chain_break_threshold == 0 {
            return Err(OptionsError::ZeroCompactChainBreakThreshold);
        }
        let ghost all = strings_view(self.ignore_directives@);
        let mut k: usize = 0;
        proof {
            assert(all.subrange(0, all.len() as int) =~= all);
        }
        while k < self.ignore_directives.len()
            invariant
                k <= self.ignore_directives@.len(),
                all == strings_view(self.ignore_directives@),
                self.validation_error() == directive_error(all),
                directive_error(all) == directive_error(all.subrange(k as int, all.len() as int)),
            decreases self.ignore_directives.len() - k,
        {
            let directive: &str = self.ignore_directives[k].as_str();
            let bytes: &[u8] = directive.as_bytes();
            proof {
                let rest = all.subrange(k as int, all.len() as int);
                assert(rest[0] == directive@);
                assert(rest.drop_first() =~= all.subrange(k + 1, all.len() as int));
                assert(bytes@ == encode_utf8(directive@));
                assert(directive@.len() == 0 <==> bytes@.len() == 0) by {
                    if directive@.len() > 0 {
                        vstd::utf8::encode_utf8_first_scalar(directive@);
                    }
                }
            }
            let ghost rest = all.subrange(k as int, all.len() as int);
            if bytes.len() == 0 {
                proof {
                    assert(rest[0].len() == 0);
                    assert(directive_error(rest) == Some(OptionsError::EmptyIgnoreDirective));
                }
                return Err(OptionsError::EmptyIgnoreDirective);
            }
            if contains_line_break(bytes) {
                proof {
                    assert(has_line_break(rest[0]));
                    assert(directive_error(rest) == Some(OptionsError::MultilineIgnoreDirective));
                }
                return Err(OptionsError::MultilineIgnoreDirective);
            }
            proof {
                assert(directive_error(rest) == directive_error(rest.drop_first()));
            }
            k = k + 1;
        }
        proof {
            assert(all.subrange(all.len() as int, all.len() as int) =~= Seq::<Seq<char>>::empty());
        }
        Ok(())
    }
}


/// `value` where one is given, else `current`.
pub open spec fn or_keep<T>(current: T, value: Option<T>) -> T {
    match value {
        Some(v) => v,
        None => current,
    }
}

/// A list after a repeatable flag: cleared, replaced by the values given,
/// or kept when none are given.
pub open spec fn replaced(current: Seq<String>, values: Seq<String>, clear: bool) -> Seq<String> {
    if clear {
        Seq::empty()
    } else if values.len() > 0 {
        values
    } else {
        current
    }
}

/// Style overrides given on the command line, applied over the loaded
/// configuration.
#[derive(Clone, Debug)]
pub struct StyleOptions {
    pub line_width: Option<usize>,
    pub indent_width: Option<usize>,
    pub fit_indent_width: Option<usize>,
    pub quote_style: Option<QuoteStyle>,
    pub trailing_commas: Option<bool>,
    pub percent_arrays: Option<PercentArrays>,
    pub normalize_number_separators: Option<bool>,
    pub explicit_standard_error: Option<bool>,
    /// Replaces the configured ignore directives when not empty.
    pub ignore_directives: Vec<String>,
    /// Clears the ignore directives.
    pub no_ignore_directives: bool,
    pub chain_break_threshold: Option<usize>,
    pub compact_chain_break_threshold: Option<usize>,
    pub compact_chain_blocks: Vec<String>,
    pub no_compact_chain_blocks: bool,
    pub unaligned_command_calls: Vec<String>,
    pub no_unaligned_command_calls: bool,
    pub max_command_alignment: Option<usize>,
    pub delimited_argument_alignment: Option<DelimitedArgumentAlignment>,
    pub multiline_assignment_layout: Option<MultilineAssignmentLayout>,
    pub block_delimiters: Option<BlockDelimiters>,
    pub method_call_with_args_parentheses: Option<MethodCallParentheses>,
    pub method_call_without_args_parentheses: Option<MethodCallParentheses>,
    pub redundant_self: Option<RedundantSelf>,
    pub allowed_methods: Vec<String>,
    pub no_allowed_methods: bool,
    pub member_macros: Vec<String>,
    pub no_member_macros: bool,
}

impl StyleOptions {
    /// `after` is `before` with these overrides applied.
    pub open spec fn overrides(self, before: FormatOptions, after: FormatOptions) -> bool {
        &&& after.line_width == or_keep(before.line_width, self.line_width)
        &&& after.indent_width == or_keep(before.indent_width, self.indent_width)
        &&& after.fit_indent_width == or_keep(before.fit_indent_width, self.fit_indent_width)
        &&& after.quote_style == or_keep(before.quote_style, self.quote_style)
        &&& after.trailing_commas == or_keep(before.trailing_commas, self.trailing_commas)
        &&& after.percent_arrays == or_keep(before.percent_arrays, self.percent_arrays)
        &&& after.normalize_number_separators == or_keep(
            before.normalize_number_separators,
            self.normalize_number_separators,
        )
        &&& after.explicit_standard_error == or_keep(before.explicit_standard_error, self.explicit_standard_error)
        &&& after.ignore_directives@ == replaced(
            before.ignore_directives@,
            self.ignore_directives@,
            self.no_ignore_directives,
        )
        &&& after.chain_break_threshold == or_keep(before.chain_break_threshold, self.chain_break_threshold)
        &&& after.compact_chain_break_threshold == or_keep(
            before.compact_chain_break_threshold,
            self.compact_chain_break_threshold,
        )
        &&& after.compact_chain_blocks@ == replaced(
            before.compact_chain_blocks@,
            self.compact_chain_blocks@,
            self.no_compact_chain_blocks,
        )
        &&& after.unaligned_command_calls@ == replaced(
            before.unaligned_command_calls@,
            self.unaligned_command_calls@,
            self.no_unaligned_command_calls,
        )
        &&& after.max_command_alignment == or_keep(before.max_command_alignment, self.max_command_alignment)
        &&& after.delimited_argument_alignment == or_keep(
            before.delimited_argument_alignment,
            self.delimited_argument_alignment,
        )
        &&& after.multiline_assignment_layout == or_keep(
            before.multiline_assignment_layout,
            self.multiline_assignment_layout,
        )
        &&& after.block_delimiters == or_keep(before.block_delimiters, self.block_delimiters)
        &&& after.method_call_with_args_parentheses == or_keep(
            before.method_call_with_args_parentheses,
            self.method_call_with_args_parentheses,
        )
        &&& after.method_call_without_args_parentheses == or_keep(
            before.method_call_without_args_parentheses,
            self.method_call_without_args_parentheses,
        )
        &&& after.redundant_self == or_keep(before.redundant_self, self.redundant_self)
        &&& after.allowed_methods@ == replaced(
            before.allowed_methods@,
            self.allowed_methods@,
            self.no_allowed_methods,
        )
        &&& after.member_macros@ == replaced(before.member_macros@, self.member_macros@, self.no_member_macros)
    }

    /// Applies the overrides to `options`, then validates the result.
    pub fn apply(self, options: &mut FormatOptions) -> (result: Result<(), OptionsError>)
        ensures
            self.overrides(*old(options), *final(options)),
            result is Ok <==> final(options).validation_error() is None,
            result matches Err(e) ==> final(options).validation_error() == Some(e),
    {
        let ghost style = self;
        set_if_some(&mut options.line_width, self.line_width);
        set_if_some(&mut options.indent_width, self.indent_width);
        set_if_some(&mut options.fit_indent_width, self.fit_indent_width);
        set_if_some(&mut options.quote_style, self.quote_style);
        set_if_some(&mut options.trailing_commas, self.trailing_commas);
        set_if_some(&mut options.percent_arrays, self.percent_arrays);
        set_if_some(&mut options.normalize_number_separators, self.normalize_number_separators);
        set_if_some(&mut options.explicit_standard_error, self.explicit_standard_error);
        set_if_some(&mut options.chain_break_threshold, self.chain_break_threshold);
        set_if_some(&mut options.compact_chain_break_threshold, self.compact_chain_break_threshold);
        set_if_some(&mut options.max_command_alignment, self.max_command_alignment);
        set_if_some(&mut options.delimited_argument_alignment, self.delimited_argument_alignment);
        set_if_some(&mut options.multiline_assignment_layout, self.multiline_assignment_layout);
        set_if_some(&mut options.block_delimiters, self.block_delimiters);
        set_if_some(&mut options.method_call_with_args_parentheses, self.method_call_with_args_parentheses);
        set_if_some(&mut options.method_call_without_args_parentheses, self.method_call_without_args_parentheses);
        set_if_some(&mut options.redundant_self, self.redundant_self);
        replace_list(&mut options.ignore_directives, self.ignore_directives, self.no_ignore_directives);
        replace_list(&mut options.compact_chain_blocks, self.compact_chain_blocks, self.no_compact_chain_blocks);
        replace_list(
            &mut options.unaligned_command_calls,
            self.unaligned_command_calls,
            self.no_unaligned_command_calls,
        );
        replace_list(&mut options.allowed_methods, self.allowed_methods, self.no_allowed_methods);
        replace_list(&mut options.member_macros, self.member_macros, self.no_member_macros);
        options.validate()
    }
}

fn set_if_some<T>(target: &mut T, value: Option<T>)
    ensures
        *final(target) == or_keep(*old(target), value),
{
    if let Some(value) = value {
        *target = value;
    }
}

fn replace_list(target: &mut Vec<String>, values: Vec<String>, clear: bool)
    ensures
        final(target)@ == replaced(old(target)@, values@, clear),
{
    if clear {
        target.clear();
    } else if values.len() > 0 {
        *target = values;
    }
}


// ---------------------------------------------------------------------------
// Laws of the options.

/// An ASCII string holds a byte exactly where it holds the character.
proof fn lemma_ascii_has_no_break(chars: Seq<char>)
    requires
        vstd::utf8::is_ascii_chars(chars),
        forall|i: int| 0 <= i < chars.len() ==> #[trigger] chars[i] != '\n' && chars[i] != '\r',
    ensures
        !has_line_break(chars),
{
    vstd::utf8::is_ascii_chars_encode_utf8(chars);
    let bytes = encode_utf8(chars);
    assert forall|i: int| 0 <= i < bytes.len() implies bytes[i] != 10u8 && bytes[i] != 13u8 by {
        assert(chars[i] as u8 == bytes[i]);
        assert(chars[i] != '\n' && chars[i] != '\r');
        assert((chars[i] as u32) < 128);
    }
}

/// The project-neutral defaults pass validation.
pub proof fn law_defaults_validate(options: FormatOptions)
    requires
        options.is_default(),
    ensures
        options.validation_error() is None,
{
    reveal_strlit("alofmt-ignore");
    let directive = "alofmt-ignore"@;
    assert(vstd::utf8::is_ascii_chars(directive));
    lemma_ascii_has_no_break(directive);
    let all = strings_view(options.ignore_directives@);
    assert(all == seq![directive]);
    assert(all.drop_first() =~= Seq::<Seq<char>>::empty());
    assert(directive.len() == 13);
    assert(all[0] == directive);
    assert(directive_error(all.drop_first()) is None);
    assert(directive_error(all) is None);
}

impl StyleOptions {
    /// No override given: every option is left as it is.
    pub open spec fn is_empty(self) -> bool {
        &&& self.line_width is None
        &&& self.indent_width is None
        &&& self.fit_indent_width is None
        &&& self.quote_style is None
        &&& self.trailing_commas is None
        &&& self.percent_arrays is None
        &&& self.normalize_number_separators is None
        &&& self.explicit_standard_error is None
        &&& self.ignore_directives@.len() == 0
        &&& !self.no_ignore_directives
        &&& self.chain_break_threshold is None
        &&& self.compact_chain_break_threshold is None
        &&& self.compact_chain_blocks@.len() == 0
        &&& !self.no_compact_chain_blocks
        &&& self.unaligned_command_calls@.len() == 0
        &&& !self.no_unaligned_command_calls
        &&& self.max_command_alignment is None
        &&& self.delimited_argument_alignment is None
        &&& self.multiline_assignment_layout is None
        &&& self.block_delimiters is None
        &&& self.method_call_with_args_parentheses is None
        &&& self.method_call_without_args_parentheses is None
        &&& self.redundant_self is None
        &&& self.allowed_methods@.len() == 0
        &&& !self.no_allowed_methods
        &&& self.member_macros@.len() == 0
        &&& !self.no_member_macros
    }
}

/// Applying no override changes no option: the configuration loaded from
/// the file is what runs.
pub proof fn law_no_overrides(style: StyleOptions, before: FormatOptions, after: FormatOptions)
    requires
        style.is_empty(),
        style.overrides(before, after),
    ensures
        after.line_width == before.line_width,
        after.indent_width == before.indent_width,
        after.fit_indent_width == before.fit_indent_width,
        after.quote_style == before.quote_style,
        after.trailing_commas == before.trailing_commas,
        after.percent_arrays == before.percent_arrays,
        after.normalize_number_separators == before.normalize_number_separators,
        after.explicit_standard_error == before.explicit_standard_error,
        after.ignore_directives@ == before.ignore_directives@,
        after.chain_break_threshold == before.chain_break_threshold,
        after.compact_chain_break_threshold == before.compact_chain_break_threshold,
        after.compact_chain_blocks@ == before.compact_chain_blocks@,
        after.unaligned_command_calls@ == before.unaligned_command_calls@,
        after.max_command_alignment == before.max_command_alignment,
        after.delimited_argument_alignment == before.delimited_argument_alignment,
        after.multiline_assignment_layout == before.multiline_assignment_layout,
        after.block_delimiters == before.block_delimiters,
        after.method_call_with_args_parentheses == before.method_call_with_args_parentheses,
        after.method_call_without_args_parentheses == before.method_call_without_args_parentheses,
        after.redundant_self == before.redundant_self,
        after.allowed_methods@ == before.allowed_methods@,
        after.member_macros@ == before.member_macros@,
{
}

/// A list flag and its clearing flag: clearing wins, given values replace
/// the list, and neither keeps it.
pub proof fn law_list_flags(current: Seq<String>, values: Seq<String>, clear: bool)
    ensures
        clear ==> replaced(current, values, clear).len() == 0,
        !clear && values.len() > 0 ==> replaced(current, values, clear) == values,
        !clear && values.len() == 0 ==> replaced(current, values, clear) == current,
{
}

} // verus!
