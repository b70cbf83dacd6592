//! How literals are spelled: thousands separators in integers, and the
//! delimiters a plain string or character literal prints with.

use vstd::prelude::*;
use vstd::string::StringSliceAdditionalSpecFns;
use vstd::utf8::{encode_utf8, valid_utf8};
use crate::options::QuoteStyle;
use crate::words::{is_ascii_digit, quote_holds};

verus! {

// ---------------------------------------------------------------------------
// Integers.

/// Five or more ASCII digits, the first not `0`.
pub open spec fn plain_decimal(digits: Seq<u8>) -> bool {
    &&& digits.len() >= 5
    &&& digits[0] != 48u8
    &&& forall|i: int| 0 <= i < digits.len() ==> is_ascii_digit(#[trigger] digits[i])
}

/// `digits` with `_` between groups of three, counted from the right.
pub open spec fn grouped(digits: Seq<u8>) -> Seq<u8>
    decreases digits.len(),
{
    if digits.len() <= 3 {
        digits
    } else {
        grouped(digits.subrange(0, digits.len() - 3)) + seq![95u8] + digits.subrange(
            digits.len() - 3,
            digits.len() as int,
        )
    }
}

/// An integer's text split into its `-` sign, if any, and the rest.
pub open spec fn sign_split(text: Seq<u8>) -> (Seq<u8>, Seq<u8>) {
    if text.len() > 0 && text[0] == 45u8 {
        (seq![45u8], text.drop_first())
    } else {
        (Seq::empty(), text)
    }
}

/// The separated spelling of an integer literal, or `None` where it is
/// kept as written: normalization off, a prefix, a leading zero, its own
/// underscores, or fewer than five digits.
pub open spec fn integer_rewrite(normalize: bool, text: Seq<u8>) -> Option<Seq<u8>> {
    let (sign, digits) = sign_split(text);
    if normalize && plain_decimal(digits) {
        Some(sign + grouped(digits))
    } else {
        None
    }
}

/// Whether every byte of `s` is below 0x80.
spec fn ascii(s: Seq<u8>) -> bool {
    forall|i: int| 0 <= i < s.len() ==> #[trigger] s[i] < 128u8
}

/// The text an integer literal prints as: decimal integers of five or more
/// digits get `_` thousands separators when `normalize` is set; `None`
/// keeps the literal as written.
pub fn integer_text(normalize: bool, text: &str) -> (out: Option<String>)
    ensures
        match integer_rewrite(normalize, text.spec_bytes()) {
            Some(bytes) => out is Some && encode_utf8(out->0@) == bytes,
            None => out is None,
        },
{
    if !normalize {
        return None;
    }
    let bytes: &[u8] = text.as_bytes();
    let negative: bool = bytes.len() > 0 && bytes[0] == 45u8;
    let start: usize = if negative {
        1
    } else {
        0
    };
    let ghost sign = sign_split(bytes@).0;
    let ghost digits = sign_split(bytes@).1;
    proof {
        if negative {
            assert(digits =~= bytes@.subrange(1, bytes@.len() as int));
        } else {
            assert(digits =~= bytes@.subrange(0, bytes@.len() as int));
        }
    }
    let n: usize = bytes.len() - start;
    proof {
        assert(bytes@ == text.spec_bytes());
        assert(digits.len() == n);
    }
    if n < 5 || bytes[start] == 48u8 {
        proof {
            if n >= 5 {
                assert(digits[0] == bytes@[start as int]);
            }
            assert(!plain_decimal(digits));
        }
        return None;
    }
    let mut k: usize = 0;
    while k < n
        invariant
            k <= n,
            n == digits.len(),
            start + n == bytes@.len(),
            bytes.len() == bytes@.len(),
            normalize,
            bytes@ == text.spec_bytes(),
            sign == sign_split(bytes@).0,
            digits == sign_split(bytes@).1,
            digits == bytes@.subrange(start as int, bytes@.len() as int),
            forall|i: int| 0 <= i < k ==> is_ascii_digit(#[trigger] digits[i]),
        decreases n - k,
    {
        let b: u8 = bytes[start + k];
        proof {
            assert(digits[k as int] == b);
        }
        if !(48u8 <= b && b <= 57u8) {
            proof {
                assert(!is_ascii_digit(digits[k as int]));
            }
            return None;
        }
        k = k + 1;
    }
    proof {
        assert(digits[0] == bytes@[start as int]);
        assert(plain_decimal(digits));
    }
    let mut out: Vec<u8> = Vec::with_capacity(n.saturating_add(n / 3));
    if negative {
        out.push(45u8);
    }
    proof {
        assert(out@ =~= sign + digits.subrange(0, 0));
    }
    let first: usize = if n % 3 == 0 {
        3
    } else {
        n % 3
    };
    let mut j: usize = 0;
    while j < first
        invariant
            j <= first <= 3,
            first <= n,
            n == digits.len(),
            start + n == bytes@.len(),
            bytes.len() == bytes@.len(),
            normalize,
            bytes@ == text.spec_bytes(),
            sign == sign_split(bytes@).0,
            digits == sign_split(bytes@).1,
            digits == bytes@.subrange(start as int, bytes@.len() as int),
            plain_decimal(digits),
            out@ == sign + digits.subrange(0, j as int),
            ascii(sign),
        decreases first - j,
    {
        out.push(bytes[start + j]);
        j = j + 1;
        proof {
            assert(out@ =~= sign + digits.subrange(0, j as int));
        }
    }
    let mut k: usize = first;
    proof {
        assert(grouped(digits.subrange(0, first as int)) == digits.subrange(0, first as int));
    }
    while k < n
        invariant
            1 <= k <= n,
            (n - k) % 3 == 0,
            n == digits.len(),
            start + n == bytes@.len(),
            bytes.len() == bytes@.len(),
            normalize,
            bytes@ == text.spec_bytes(),
            sign == sign_split(bytes@).0,
            digits == sign_split(bytes@).1,
            digits == bytes@.subrange(start as int, bytes@.len() as int),
            plain_decimal(digits),
            out@ == sign + grouped(digits.subrange(0, k as int)),
        decreases n - k,
    {
        let ghost before = out@;
        out.push(95u8);
        out.push(bytes[start + k]);
        out.push(bytes[start + k + 1]);
        out.push(bytes[start + k + 2]);
        proof {
            let next = digits.subrange(0, k + 3);
            assert(next.subrange(0, next.len() - 3) =~= digits.subrange(0, k as int));
            assert(next.subrange(next.len() - 3, next.len() as int) =~= digits.subrange(k as int, k + 3));
            assert(out@ =~= before + seq![95u8] + digits.subrange(k as int, k + 3));
        }
        k = k + 3;
    }
    proof {
        assert(digits.subrange(0, n as int) =~= digits);
        assert(ascii(digits)) by {
            assert forall|i: int| 0 <= i < digits.len() implies #[trigger] digits[i] < 128u8 by {
                assert(is_ascii_digit(digits[i]));
            }
        }
        lemma_grouped_ascii(digits);
        assert(ascii(out@)) by {
            assert forall|i: int| 0 <= i < out@.len() implies #[trigger] out@[i] < 128u8 by {
                if i < sign.len() {
                    assert(out@[i] == sign[i]);
                } else {
                    assert(out@[i] == grouped(digits)[i - sign.len()]);
                }
            }
        }
        lemma_ascii_valid_bytes(out@);
    }
    let ghost all = out@;
    match crate::print::string_from_utf8(out) {
        Some(s) => {
            proof {
                vstd::utf8::decode_utf8_encode_utf8(all);
            }
            Some(s)
        },
        None => None,
    }
}

/// Not a `_`.
pub open spec fn not_separator(b: u8) -> bool {
    b != 95u8
}

/// A sequence each of whose bytes passes `keep` filters to itself.
proof fn lemma_filter_keeps_all(s: Seq<u8>)
    requires
        forall|i: int| 0 <= i < s.len() ==> not_separator(#[trigger] s[i]),
    ensures
        s.filter(|b: u8| not_separator(b)) == s,
    decreases s.len(),
{
    reveal(Seq::filter);
    if s.len() > 0 {
        lemma_filter_keeps_all(s.drop_last());
        assert(s.drop_last().push(s.last()) =~= s);
    }
}

/// Separators are all that grouping adds.
proof fn lemma_grouped_strips(digits: Seq<u8>)
    requires
        forall|i: int| 0 <= i < digits.len() ==> not_separator(#[trigger] digits[i]),
    ensures
        grouped(digits).filter(|b: u8| not_separator(b)) == digits,
    decreases digits.len(),
{
    let keep = |b: u8| not_separator(b);
    if digits.len() <= 3 {
        lemma_filter_keeps_all(digits);
    } else {
        let front = digits.subrange(0, digits.len() - 3);
        let back = digits.subrange(digits.len() - 3, digits.len() as int);
        lemma_grouped_strips(front);
        lemma_filter_keeps_all(back);
        reveal(Seq::filter);
        let mark: Seq<u8> = seq![95u8];
        assert(mark.drop_last() =~= Seq::<u8>::empty());
        assert(Seq::<u8>::empty().filter(keep) =~= Seq::<u8>::empty());
        assert(mark.filter(keep) =~= Seq::<u8>::empty());
        Seq::filter_distributes_over_add(grouped(front), mark, keep);
        Seq::filter_distributes_over_add(grouped(front) + mark, back, keep);
        assert(digits =~= front + back);
    }
}

/// Normalizing an integer only inserts separators: with the `_` taken out,
/// the separated spelling is the literal as written.
pub proof fn law_separators_only(normalize: bool, text: Seq<u8>)
    requires
        integer_rewrite(normalize, text) is Some,
    ensures
        integer_rewrite(normalize, text)->0.filter(|b: u8| not_separator(b)) == text,
{
    let (sign, digits) = sign_split(text);
    let keep = |b: u8| not_separator(b);
    assert forall|i: int| 0 <= i < digits.len() implies not_separator(#[trigger] digits[i]) by {
        assert(is_ascii_digit(digits[i]));
    }
    lemma_grouped_strips(digits);
    if sign.len() > 0 {
        assert(sign[0] == 45u8);
    }
    assert forall|i: int| 0 <= i < sign.len() implies not_separator(#[trigger] sign[i]) by {}
    lemma_filter_keeps_all(sign);
    Seq::filter_distributes_over_add(sign, grouped(digits), keep);
    if text.len() > 0 && text[0] == 45u8 {
        assert(text =~= sign + digits);
    } else {
        assert(text =~= sign + digits);
    }
}

/// Every group after the first holds three digits: the byte three places
/// after a separator and before the end is another separator.
pub proof fn law_groups_of_three(digits: Seq<u8>, i: int)
    requires
        plain_decimal(digits),
        0 <= i < grouped(digits).len(),
        grouped(digits)[i] == 95u8,
    ensures
        i + 4 == grouped(digits).len() || (i + 4 < grouped(digits).len() && grouped(digits)[i + 4] == 95u8),
{
    lemma_groups_of_three(digits, i);
}

/// A separator sits four places before the end or before another one.
proof fn lemma_groups_of_three(digits: Seq<u8>, i: int)
    requires
        forall|k: int| 0 <= k < digits.len() ==> not_separator(#[trigger] digits[k]),
        0 <= i < grouped(digits).len(),
        grouped(digits)[i] == 95u8,
    ensures
        i + 4 == grouped(digits).len() || (i + 4 < grouped(digits).len() && grouped(digits)[i + 4] == 95u8),
    decreases digits.len(),
{
    if digits.len() <= 3 {
        assert(not_separator(digits[i]));
    } else {
        let front = digits.subrange(0, digits.len() - 3);
        let back = digits.subrange(digits.len() - 3, digits.len() as int);
        let gf = grouped(front);
        let g = grouped(digits);
        assert(g == gf + seq![95u8] + back);
        assert(g.len() == gf.len() + 4);
        if i < gf.len() {
            assert(gf[i] == g[i]);
            assert forall|k: int| 0 <= k < front.len() implies not_separator(#[trigger] front[k]) by {
                assert(front[k] == digits[k]);
            }
            lemma_groups_of_three(front, i);
            if i + 4 == gf.len() {
                assert(g[i + 4] == 95u8);
            } else {
                assert(g[i + 4] == gf[i + 4]);
            }
        } else if i > gf.len() {
            assert(g[i] == back[i - gf.len() - 1]);
            assert(back[i - gf.len() - 1] == digits[digits.len() - 3 + (i - gf.len() - 1)]);
            assert(not_separator(digits[digits.len() - 3 + (i - gf.len() - 1)]));
        }
    }
}

// ---------------------------------------------------------------------------
// Strings and character literals.

/// The delimiters a plain string literal prints with.
#[derive(Clone, Copy, Debug, PartialEq, Eq, Structural)]
pub enum StringForm {
    /// Between single quotes.
    SingleQuoted,
    /// Between double quotes.
    DoubleQuoted,
    /// As a character literal (`?a`), respelled under the single style.
    Character,
    /// With the delimiters the source used.
    AsWritten,
}

/// The form of a plain string under `style`: `question` marks a character
/// literal, `content` is the text between the delimiters. A delimiter
/// changes only where the new one holds the content verbatim.
pub open spec fn string_form_of(style: QuoteStyle, question: bool, content: Seq<u8>) -> StringForm {
    match style {
        QuoteStyle::Single => if question {
            StringForm::Character
        } else if quote_holds(content, 39u8) {
            StringForm::SingleQuoted
        } else {
            StringForm::AsWritten
        },
        QuoteStyle::Double => if quote_holds(content, 34u8) {
            StringForm::DoubleQuoted
        } else {
            StringForm::AsWritten
        },
        QuoteStyle::Preserve => StringForm::AsWritten,
    }
}

/// Under the single style a plain string whose content holds neither a
/// backslash nor a single quote, the empty one included, prints in single
/// quotes; under the double style one that also holds no `#{`, `#@` or
/// `#$` prints in double quotes; a string the preferred quote cannot hold
/// keeps its delimiters, and the preserving style keeps every string's.
pub proof fn law_quote_style_picks_the_quote_it_can(content: Seq<u8>, question: bool)
    ensures
        !content.contains(92u8) && !content.contains(39u8) ==> string_form_of(QuoteStyle::Single, false, content)
            == StringForm::SingleQuoted,
        (content.contains(92u8) || content.contains(39u8)) ==> string_form_of(QuoteStyle::Single, false, content)
            == StringForm::AsWritten,
        question ==> string_form_of(QuoteStyle::Single, question, content) == StringForm::Character,
        !content.contains(92u8) && !content.contains(34u8) && !crate::words::contains_bytes(content, seq![35u8, 123u8])
            && !crate::words::contains_bytes(content, seq![35u8, 64u8]) && !crate::words::contains_bytes(
            content,
            seq![35u8, 36u8],
        ) ==> string_form_of(QuoteStyle::Double, question, content) == StringForm::DoubleQuoted,
        (content.contains(92u8) || content.contains(34u8)) ==> string_form_of(QuoteStyle::Double, question, content)
            == StringForm::AsWritten,
        string_form_of(QuoteStyle::Preserve, question, content) == StringForm::AsWritten,
{
}

/// Decides the delimiters of a plain string literal.
pub fn string_form(style: QuoteStyle, question: bool, content: &str) -> (form: StringForm)
    ensures
        form == string_form_of(style, question, content.spec_bytes()),
{
    match style {
        QuoteStyle::Single => if question {
            StringForm::Character
        } else if crate::words::can_use_quote(content, 39u8) {
            StringForm::SingleQuoted
        } else {
            StringForm::AsWritten
        },
        QuoteStyle::Double => if crate::words::can_use_quote(content, 34u8) {
            StringForm::DoubleQuoted
        } else {
            StringForm::AsWritten
        },
        QuoteStyle::Preserve => StringForm::AsWritten,
    }
}

/// How a character literal (`?c`) is respelled under the single style.
#[derive(Clone, Copy, Debug, PartialEq, Eq, Structural)]
pub enum CharacterForm {
    /// `?'`, printed as three single quotes.
    Apostrophe,
    /// `?"`, printed as a backslash and a double quote between single
    /// quotes.
    DoubleQuote,
    /// An escape such as `?\n`, kept as a character literal.
    Escape,
    /// Any other character, between single quotes.
    SingleQuoted,
}

pub open spec fn character_form_of(content: Seq<u8>) -> CharacterForm {
    if content == seq![39u8] {
        CharacterForm::Apostrophe
    } else if content == seq![34u8] {
        CharacterForm::DoubleQuote
    } else if content.len() > 0 && content[0] == 92u8 {
        CharacterForm::Escape
    } else {
        CharacterForm::SingleQuoted
    }
}

/// Decides how the character literal with `content` is respelled.
pub fn character_form(content: &str) -> (form: CharacterForm)
    ensures
        form == character_form_of(content.spec_bytes()),
{
    let bytes: &[u8] = content.as_bytes();
    if bytes.len() == 1 && bytes[0] == 39u8 {
        proof {
            assert(bytes@ =~= seq![39u8]);
        }
        CharacterForm::Apostrophe
    } else if bytes.len() == 1 && bytes[0] == 34u8 {
        proof {
            assert(bytes@ =~= seq![34u8]);
            assert(bytes@ != seq![39u8]);
        }
        CharacterForm::DoubleQuote
    } else {
        proof {
            if bytes@ == seq![39u8] {
                assert(bytes@[0] == 39u8);
            }
            if bytes@ == seq![34u8] {
                assert(bytes@[0] == 34u8);
            }
        }
        if bytes.len() > 0 && bytes[0] == 92u8 {
            CharacterForm::Escape
        } else {
            CharacterForm::SingleQuoted
        }
    }
}

/// Quote conversion keeps a string's meaning: a string changes to single
/// or double quotes only where that quote holds its content verbatim, and
/// under the preserve style nothing changes.
pub proof fn law_conversion_keeps_meaning(style: QuoteStyle, question: bool, content: Seq<u8>)
    ensures
        string_form_of(style, question, content) == StringForm::SingleQuoted ==> quote_holds(content, 39u8),
        string_form_of(style, question, content) == StringForm::DoubleQuoted ==> quote_holds(content, 34u8),
        style == QuoteStyle::Preserve ==> string_form_of(style, question, content) == StringForm::AsWritten,
        string_form_of(style, question, content) == StringForm::Character ==> style == QuoteStyle::Single && question,
{
}

/// Grouping digits adds only `_`, so the result stays ASCII.
proof fn lemma_grouped_ascii(digits: Seq<u8>)
    requires
        ascii(digits),
    ensures
        ascii(grouped(digits)),
    decreases digits.len(),
{
    if digits.len() > 3 {
        let front = digits.subrange(0, digits.len() - 3);
        let back = digits.subrange(digits.len() - 3, digits.len() as int);
        assert(ascii(front));
        lemma_grouped_ascii(front);
        let g = grouped(digits);
        assert forall|i: int| 0 <= i < g.len() implies #[trigger] g[i] < 128u8 by {
            let gf = grouped(front);
            if i < gf.len() {
                assert(g[i] == gf[i]);
            } else if i == gf.len() {
                assert(g[i] == 95u8);
            } else {
                assert(g[i] == back[i - gf.len() - 1]);
            }
        }
    }
}

proof fn lemma_ascii_valid_bytes(s: Seq<u8>)
    requires
        ascii(s),
    ensures
        valid_utf8(s),
{
    crate::unicode::lemma_ascii_valid(s);
}

} // verus!
