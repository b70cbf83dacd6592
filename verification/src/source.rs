//! Preparing a source for formatting: the byte-order mark, the offset
//! limit, the encoding, and line numbers.

use vstd::prelude::*;
use vstd::utf8::{valid_utf8, encode_utf8, decode_utf8, codepoint_width_3, decode_first_codepoint, pop_first_scalar};
use vstd::string::StringSliceAdditionalSpecFns;
use crate::options::{FormatOptions, OptionsError};
use crate::print::PrintOptions;

verus! {

/// Why a source was refused before parsing.
#[derive(Clone, Copy, Debug, PartialEq, Eq, Structural)]
pub enum SourceError {
    /// The options do not validate.
    Options(OptionsError),
    /// The source is longer than byte offsets stored as `u32` can address.
    TooLarge,
    /// The source is not valid UTF-8.
    InvalidUtf8,
}

impl SourceError {
    /// The message reported for the error.
    pub fn message(&self) -> (text: &'static str)
        ensures
            text@ == self.message_text(),
    {
        match self {
            SourceError::Options(e) => e.message(),
            SourceError::TooLarge => "source exceeds the 4 GiB document-offset limit",
            SourceError::InvalidUtf8 => "source is not valid UTF-8",
        }
    }

    pub open spec fn message_text(&self) -> Seq<char> {
        match self {
            SourceError::Options(e) => e.message_text(),
            SourceError::TooLarge => "source exceeds the 4 GiB document-offset limit"@,
            SourceError::InvalidUtf8 => "source is not valid UTF-8"@,
        }
    }
}

/// The UTF-8 byte-order mark.
pub open spec fn bom() -> Seq<u8> {
    seq![0xEFu8, 0xBBu8, 0xBFu8]
}

/// Whether `s` starts with the byte-order mark.
pub open spec fn has_bom(s: Seq<u8>) -> bool {
    s.len() >= 3 && s.subrange(0, 3) == bom()
}

/// Largest source, in bytes, whose offsets fit in a `u32`.
pub const MAX_SOURCE_LEN: usize = 0xFFFF_FFFFusize;

/// A source ready to parse: where its text starts after any byte-order
/// mark.
#[derive(Clone, Copy, Debug, PartialEq, Eq, Structural)]
pub struct Prepared {
    /// The source starts with a byte-order mark, which the output keeps.
    pub has_bom: bool,
    /// Where the text after the mark starts.
    pub text_start: usize,
}

/// What preparing `source` under `options` gives.
pub open spec fn preparation(source: Seq<u8>, options: FormatOptions) -> Result<Prepared, SourceError> {
    if options.validation_error() is Some {
        Err(SourceError::Options(options.validation_error()->0))
    } else if source.len() == 0 {
        Ok(Prepared { has_bom: false, text_start: 0 })
    } else {
        let start: int = if has_bom(source) {
            3
        } else {
            0
        };
        if source.len() - start > MAX_SOURCE_LEN {
            Err(SourceError::TooLarge)
        } else if !valid_utf8(source.subrange(start, source.len() as int)) {
            Err(SourceError::InvalidUtf8)
        } else {
            Ok(Prepared { has_bom: has_bom(source), text_start: start as usize })
        }
    }
}

/// Validates the options and the source: strips a byte-order mark, and
/// refuses a source too long for `u32` offsets or not valid UTF-8.
pub fn prepare(source: &[u8], options: &FormatOptions) -> (prepared: Result<Prepared, SourceError>)
    ensures
        prepared == preparation(source@, *options),
{
    match options.validate() {
        Err(e) => return Err(SourceError::Options(e)),
        Ok(()) => {},
    }
    if source.len() == 0 {
        return Ok(Prepared { has_bom: false, text_start: 0 });
    }
    let bom_present: bool = source.len() >= 3 && source[0] == 0xEFu8 && source[1] == 0xBBu8 && source[2] == 0xBFu8;
    proof {
        if source@.len() >= 3 {
            assert(bom_present == (source@.subrange(0, 3) =~= bom()));
        }
    }
    let start: usize = if bom_present {
        3
    } else {
        0
    };
    if source.len() - start > MAX_SOURCE_LEN {
        return Err(SourceError::TooLarge);
    }
    let text: &[u8] = vstd::slice::slice_subrange(source, start, source.len());
    match crate::unicode::str_from_utf8(text) {
        None => Err(SourceError::InvalidUtf8),
        Some(_) => Ok(Prepared { has_bom: bom_present, text_start: start }),
    }
}

/// The number of line feeds in `s`.
pub open spec fn newlines(s: Seq<u8>) -> nat
    decreases s.len(),
{
    if s.len() == 0 {
        0
    } else {
        newlines(s.drop_last()) + if s.last() == 10u8 {
            1nat
        } else {
            0nat
        }
    }
}

/// The 1-based line that byte `offset` of `source` is on; an offset past
/// the end counts the whole source.
pub fn line_of(source: &[u8], offset: usize) -> (line: usize)
    requires
        source@.len() < usize::MAX,
    ensures
        line == 1 + newlines(source@.subrange(0, if offset < source@.len() { offset as int } else { source@.len() as int })),
{
    let end: usize = if offset < source.len() {
        offset
    } else {
        source.len()
    };
    let mut count: usize = 0;
    let mut k: usize = 0;
    while k < end
        invariant
            end <= source@.len() < usize::MAX,
            k <= end,
            count == newlines(source@.subrange(0, k as int)),
            count <= k,
        decreases end - k,
    {
        proof {
            let next = source@.subrange(0, k + 1);
            assert(next.drop_last() =~= source@.subrange(0, k as int));
        }
        if source[k] == 10u8 {
            count = count + 1;
        }
        k = k + 1;
    }
    count + 1
}

/// `memchr::memchr_iter`: every offset of `needle` in `haystack`, in order.
#[verifier::external_body]
fn offsets_of(needle: u8, haystack: &[u8]) -> (offsets: Vec<usize>)
    ensures
        forall|i: int, j: int| 0 <= i < j < offsets@.len() ==> #[trigger] offsets@[i] < #[trigger] offsets@[j],
        forall|i: int| 0 <= i < offsets@.len() ==> #[trigger] offsets@[i] < haystack@.len() && haystack@[offsets@[i] as int] == needle,
        forall|j: int| 0 <= j < haystack@.len() && haystack@[j] == needle ==> offsets@.contains(j as usize),
{
    memchr::memchr_iter(needle, haystack).collect()
}

/// Where each line of `source` starts: at zero, and after every line feed.
pub fn line_starts(source: &[u8]) -> (starts: Vec<usize>)
    requires
        source@.len() < usize::MAX,
    ensures
        starts@.len() >= 1,
        starts@[0] == 0,
        forall|i: int, j: int| 0 <= i < j < starts@.len() ==> #[trigger] starts@[i] < #[trigger] starts@[j],
        forall|i: int| 1 <= i < starts@.len() ==> source@[#[trigger] starts@[i] - 1] == 10u8,
        forall|j: int| 0 <= j < source@.len() && source@[j] == 10u8 ==> starts@.contains((j + 1) as usize),
{
    let newlines: Vec<usize> = offsets_of(10u8, source);
    let mut starts: Vec<usize> = Vec::new();
    starts.push(0);
    let mut k: usize = 0;
    while k < newlines.len()
        invariant
            source@.len() < usize::MAX,
            k <= newlines@.len(),
            starts@.len() == k + 1,
            starts@[0] == 0,
            forall|q: int| 1 <= q <= k ==> #[trigger] starts@[q] == newlines@[q - 1] + 1,
            forall|i: int, j: int| 0 <= i < j < newlines@.len() ==> #[trigger] newlines@[i] < #[trigger] newlines@[j],
            forall|i: int| 0 <= i < newlines@.len() ==> #[trigger] newlines@[i] < source@.len() && source@[newlines@[i] as int] == 10u8,
        decreases newlines.len() - k,
    {
        starts.push(newlines[k] + 1);
        k = k + 1;
    }
    proof {
        assert forall|i: int, j: int| 0 <= i < j < starts@.len() implies #[trigger] starts@[i] < #[trigger] starts@[j] by {
            if i > 0 {
                assert(starts@[i] == newlines@[i - 1] + 1);
            }
            assert(starts@[j] == newlines@[j - 1] + 1);
            if i > 0 {
                assert(newlines@[i - 1] < newlines@[j - 1]);
            }
        }
        assert forall|i: int| 1 <= i < starts@.len() implies source@[#[trigger] starts@[i] - 1] == 10u8 by {
            assert(starts@[i] == newlines@[i - 1] + 1);
        }
        assert forall|j: int| 0 <= j < source@.len() && source@[j] == 10u8 implies starts@.contains((j + 1) as usize) by {
            assert(newlines@.contains(j as usize));
            let q = choose|q: int| 0 <= q < newlines@.len() && newlines@[q] == j as usize;
            assert(starts@[q + 1] == newlines@[q] + 1);
            assert(starts@.contains(starts@[q + 1]));
        }
    }
    starts
}

/// The printer's options for these formatting options.
pub fn print_options(options: &FormatOptions, output_capacity: usize) -> (print: PrintOptions)
    ensures
        print.line_width == options.line_width,
        print.indent_width == options.indent_width,
        print.fit_indent_width == options.fit_indent_width,
        print.output_capacity == if output_capacity == usize::MAX { usize::MAX } else { (output_capacity + 1) as usize },
{
    PrintOptions {
        line_width: options.line_width,
        indent_width: options.indent_width,
        fit_indent_width: options.fit_indent_width,
        output_capacity: output_capacity.saturating_add(1),
    }
}


/// The byte-order mark is a valid encoding.
proof fn lemma_bom_valid()
    ensures
        valid_utf8(bom()),
{
    let b = bom();
    assert(codepoint_width_3(0xEFu8, 0xBBu8, 0xBFu8) == 0xFEFFu32) by (bit_vector);
    assert(b[0] == 0xEFu8 && b[1] == 0xBBu8 && b[2] == 0xBFu8);
    assert(decode_first_codepoint(b) == 0xFEFFu32);
    assert(vstd::utf8::valid_leading_and_continuation_bytes_first_codepoint(b));
    assert(vstd::utf8::length_of_first_codepoint(b) == 3);
    assert(vstd::utf8::valid_first_scalar(b));
    assert(pop_first_scalar(b) =~= Seq::<u8>::empty());
    assert(valid_utf8(pop_first_scalar(b)));
}

/// The formatted text, behind the byte-order mark the source had.
pub fn finish_output(prepared: Prepared, printed: String) -> (output: String)
    ensures
        encode_utf8(output@) == if prepared.has_bom {
            bom() + encode_utf8(printed@)
        } else {
            encode_utf8(printed@)
        },
{
    if !prepared.has_bom {
        return printed;
    }
    let text: &[u8] = printed.as_str().as_bytes();
    let mut bytes: Vec<u8> = Vec::with_capacity(text.len().saturating_add(3));
    bytes.push(0xEFu8);
    bytes.push(0xBBu8);
    bytes.push(0xBFu8);
    let mut k: usize = 0;
    proof {
        assert(bytes@ =~= bom() + text@.subrange(0, 0));
    }
    while k < text.len()
        invariant
            k <= text@.len(),
            bytes@ == bom() + text@.subrange(0, k as int),
        decreases text.len() - k,
    {
        bytes.push(text[k]);
        k = k + 1;
        proof {
            assert(bytes@ =~= bom() + text@.subrange(0, k as int));
        }
    }
    proof {
        assert(text@.subrange(0, text@.len() as int) =~= text@);
        assert(text@ == encode_utf8(printed@));
        lemma_bom_valid();
        vstd::utf8::encode_utf8_valid_utf8(printed@);
        crate::unicode::lemma_valid_concat(bom(), text@);
    }
    let ghost all = bytes@;
    match crate::print::string_from_utf8(bytes) {
        Some(output) => {
            proof {
                vstd::utf8::decode_utf8_encode_utf8(all);
            }
            output
        },
        None => {
            proof {
                assert(false);
            }
            printed
        },
    }
}

} // verus!
