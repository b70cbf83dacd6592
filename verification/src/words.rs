//! Small decisions the layouts make about words, quotes and clauses.

use vstd::prelude::*;
use vstd::string::StringSliceAdditionalSpecFns;
use vstd::utf8::encode_utf8;
use crate::comments::{Comment, is_ascii_space, trailing_space, trim_end};
use crate::options::QuoteStyle;

verus! {

pub open spec fn is_ascii_alpha(b: u8) -> bool {
    (65 <= b <= 90) || (97 <= b <= 122)
}

pub open spec fn is_ascii_digit(b: u8) -> bool {
    48 <= b <= 57
}

/// A byte that may continue an identifier.
pub open spec fn is_word_byte(b: u8) -> bool {
    is_ascii_alpha(b) || is_ascii_digit(b) || b == 95
}

/// A name made of an ASCII letter or `_`, then letters, digits and `_`,
/// optionally ending in one `?` or `!`.
pub open spec fn label_identifier(s: Seq<u8>) -> bool {
    identifier(label_body(s))
}

/// `s` without one final `?` or `!`.
pub open spec fn label_body(s: Seq<u8>) -> Seq<u8> {
    if s.len() > 0 && (s.last() == 63u8 || s.last() == 33u8) {
        s.drop_last()
    } else {
        s
    }
}

/// An ASCII letter or `_`, then letters, digits and `_`.
pub open spec fn identifier(body: Seq<u8>) -> bool {
    &&& body.len() > 0
    &&& (is_ascii_alpha(body[0]) || body[0] == 95u8)
    &&& forall|i: int| 1 <= i < body.len() ==> is_word_byte(#[trigger] body[i])
}

/// Whether `value` can be written as a label or bare symbol.
fn is_label_identifier(value: &str) -> (label: bool)
    ensures
        label == label_identifier(value.spec_bytes()),
{
    let bytes: &[u8] = value.as_bytes();
    let mut len: usize = bytes.len();
    if len > 0 && (bytes[len - 1] == 63u8 || bytes[len - 1] == 33u8) {
        len = len - 1;
    }
    let ghost body = bytes@.subrange(0, len as int);
    proof {
        if bytes@.len() > 0 && (bytes@.last() == 63u8 || bytes@.last() == 33u8) {
            assert(body =~= bytes@.drop_last());
        } else {
            assert(body =~= bytes@);
        }
    }
    if len == 0 {
        return false;
    }
    let first: u8 = bytes[0];
    if !((65u8 <= first && first <= 90u8) || (97u8 <= first && first <= 122u8) || first == 95u8) {
        return false;
    }
    let mut k: usize = 1;
    while k < len
        invariant
            1 <= k <= len <= bytes@.len(),
            body == bytes@.subrange(0, len as int),
            bytes@ == value.spec_bytes(),
            body == label_body(bytes@),
            body.len() > 0,
            is_ascii_alpha(body[0]) || body[0] == 95u8,
            forall|i: int| 1 <= i < k ==> is_word_byte(#[trigger] body[i]),
        decreases len - k,
    {
        let b: u8 = bytes[k];
        proof {
            assert(body[k as int] == b);
        }
        if !((65u8 <= b && b <= 90u8) || (97u8 <= b && b <= 122u8) || (48u8 <= b && b <= 57u8) || b == 95u8) {
            proof {
                assert(!is_word_byte(body[k as int]));

            }
            return false;
        }
        k = k + 1;
    }
    true
}

/// Whether a bare word from a `%i` literal prints as `:word`.
pub fn is_bare_symbol(value: &str) -> (bare: bool)
    ensures
        bare == label_identifier(value.spec_bytes()),
{
    is_label_identifier(value)
}

/// Whether `s` holds `pattern` at some offset.
pub open spec fn contains_bytes(s: Seq<u8>, pattern: Seq<u8>) -> bool {
    exists|i: int| 0 <= i && i + pattern.len() <= s.len() && #[trigger] s.subrange(i, i + pattern.len()) == pattern
}

/// Content a quote can hold verbatim: no backslash and no quote of its
/// kind, and in double quotes nothing that would start interpolation.
pub open spec fn quote_holds(content: Seq<u8>, quote: u8) -> bool {
    &&& !content.contains(92u8)
    &&& !content.contains(quote)
    &&& (quote != 34u8 || (!contains_bytes(content, seq![35u8, 123u8]) && !contains_bytes(content, seq![35u8, 64u8])
        && !contains_bytes(content, seq![35u8, 36u8])))
}

/// Whether `#` followed by `next` occurs in `bytes`.
fn has_hash_then(bytes: &[u8], next: u8) -> (found: bool)
    ensures
        found == contains_bytes(bytes@, seq![35u8, next]),
{
    let mut k: usize = 0;
    while bytes.len() >= 2 && k < bytes.len() - 1
        invariant
            k <= bytes@.len(),
            forall|i: int| 0 <= i < k && i + 2 <= bytes@.len() ==> #[trigger] bytes@.subrange(i, i + 2) != seq![35u8, next],
        decreases bytes.len() - k,
    {
        if bytes[k] == 35u8 && bytes[k + 1] == next {
            proof {
                assert(bytes@.subrange(k as int, k + 2) =~= seq![35u8, next]);
            }
            return true;
        }
        proof {
            assert(bytes@.subrange(k as int, k + 2) != seq![35u8, next]) by {
                if bytes@.subrange(k as int, k + 2) == seq![35u8, next] {
                    assert(bytes@.subrange(k as int, k + 2)[0] == bytes@[k as int]);
                    assert(bytes@.subrange(k as int, k + 2)[1] == bytes@[k + 1]);
                }
            }
        }
        k = k + 1;
    }
    proof {
        if contains_bytes(bytes@, seq![35u8, next]) {
            let i = choose|i: int| 0 <= i && i + 2 <= bytes@.len() && #[trigger] bytes@.subrange(i, i + 2) == seq![35u8, next];
            assert(i < k);
        }
    }
    false
}

/// Whether `bytes` holds `b`.
fn has_byte(bytes: &[u8], b: u8) -> (found: bool)
    ensures
        found == bytes@.contains(b),
{
    let mut k: usize = 0;
    while k < bytes.len()
        invariant
            k <= bytes@.len(),
            forall|i: int| 0 <= i < k ==> bytes@[i] != b,
        decreases bytes.len() - k,
    {
        if bytes[k] == b {
            return true;
        }
        k = k + 1;
    }
    false
}

/// Whether `content` can be written between quotes `quote` (an ASCII
/// quote byte) verbatim.
pub(crate) fn can_use_quote(content: &str, quote: u8) -> (usable: bool)
    ensures
        usable == quote_holds(content.spec_bytes(), quote),
{
    let bytes: &[u8] = content.as_bytes();
    !has_byte(bytes, 92u8) && !has_byte(bytes, quote) && (quote != 34u8 || (!has_hash_then(bytes, 123u8)
        && !has_hash_then(bytes, 64u8) && !has_hash_then(bytes, 36u8)))
}

/// The quote a bare word from a `%w` literal takes as a plain string under
/// the quote style: the preferred one where it holds the word verbatim,
/// else the other, else none.
pub fn word_quote(style: QuoteStyle, content: &str) -> (quote: Option<u8>)
    ensures
        ({
            let (first, second) = if style == QuoteStyle::Double {
                (34u8, 39u8)
            } else {
                (39u8, 34u8)
            };
            quote == if quote_holds(content.spec_bytes(), first) {
                Some(first)
            } else if quote_holds(content.spec_bytes(), second) {
                Some(second)
            } else {
                None
            }
        }),
{
    let (first, second) = match style {
        QuoteStyle::Double => (34u8, 39u8),
        QuoteStyle::Single | QuoteStyle::Preserve => (39u8, 34u8),
    };
    if can_use_quote(content, first) {
        Some(first)
    } else if can_use_quote(content, second) {
        Some(second)
    } else {
        None
    }
}

/// An operator method name: it starts with an ASCII byte that is neither
/// alphanumeric, `_` nor `[`.
pub open spec fn operator_name(name: Seq<u8>) -> bool {
    name.len() > 0 && name[0] < 128 && !is_ascii_alpha(name[0]) && !is_ascii_digit(name[0]) && name[0] != 95u8
        && name[0] != 91u8
}

/// Whether a method name is an operator.
pub fn is_operator(name: &[u8]) -> (operator: bool)
    ensures
        operator == operator_name(name@),
{
    if name.len() == 0 {
        return false;
    }
    let b: u8 = name[0];
    b < 128u8 && !((65u8 <= b && b <= 90u8) || (97u8 <= b && b <= 122u8) || (48u8 <= b && b <= 57u8)) && b != 95u8
        && b != 91u8
}

/// How a `while` or `until` loop is written.
#[derive(Clone, Copy, Debug, PartialEq, Eq, Structural)]
pub enum LoopForm {
    Block,
    Modifier,
    /// `begin ... end while p`.
    BeginModifier,
}

/// The form of a loop: `begin ... end while p` first, then a block loop
/// when it has a closing `end`, else a modifier.
pub fn loop_form(begin_modifier: bool, closed: bool) -> (form: LoopForm)
    ensures
        form == if begin_modifier {
            LoopForm::BeginModifier
        } else if closed {
            LoopForm::Block
        } else {
            LoopForm::Modifier
        },
{
    if begin_modifier {
        LoopForm::BeginModifier
    } else if closed {
        LoopForm::Block
    } else {
        LoopForm::Modifier
    }
}

/// The comments from `printed` on that start before `offset`, with
/// `printed` moved past them: the own-line comments a clause-bearing node
/// holds before the clause at `offset`.
pub fn comments_before(dangling: &[Comment], offset: usize, printed: &mut usize) -> (out: Vec<Comment>)
    requires
        *old(printed) <= dangling@.len(),
    ensures
        *old(printed) <= *final(printed) <= dangling@.len(),
        out@ == dangling@.subrange(*old(printed) as int, *final(printed) as int),
        forall|i: int| *old(printed) <= i < *final(printed) ==> #[trigger] dangling@[i].start < offset,
        *final(printed) < dangling@.len() ==> dangling@[*final(printed) as int].start >= offset,
{
    let ghost first = *printed;
    let mut out: Vec<Comment> = Vec::new();
    while *printed < dangling.len() && dangling[*printed].start < offset
        invariant
            first <= *printed <= dangling@.len(),
            out@ == dangling@.subrange(first as int, *printed as int),
            forall|i: int| first <= i < *printed ==> #[trigger] dangling@[i].start < offset,
        decreases dangling@.len() - *printed,
    {
        out.push(dangling[*printed]);
        *printed = *printed + 1;
        proof {
            assert(out@ =~= dangling@.subrange(first as int, *printed as int));
        }
    }
    out
}

/// The number of ASCII whitespace bytes that start `s`.
pub open spec fn leading_space(s: Seq<u8>) -> nat
    decreases s.len(),
{
    if s.len() > 0 && is_ascii_space(s[0]) {
        1 + leading_space(s.drop_first())
    } else {
        0
    }
}

/// `s` without the ASCII whitespace that starts and ends it.
pub open spec fn trim_ascii(s: Seq<u8>) -> Seq<u8> {
    let rest = s.subrange(leading_space(s) as int, s.len() as int);
    rest.subrange(0, rest.len() - trailing_space(rest))
}

/// The directives as bytes.
pub open spec fn directive_bytes(directives: Seq<String>) -> Seq<Seq<u8>> {
    directives.map_values(|d: String| encode_utf8(d@))
}

/// A `#` comment whose body, trimmed, is one of the directives: the node
/// after it is copied from the source.
pub open spec fn ignore_comment(source: Seq<u8>, comment: Comment, directives: Seq<Seq<u8>>) -> bool {
    &&& !comment.embdoc
    &&& directives.contains(trim_ascii(source.subrange(comment.start + 1, comment.end as int)))
}

/// `bytes` without the ASCII whitespace that starts it.
fn trim_start(bytes: &[u8]) -> (trimmed: &[u8])
    ensures
        trimmed@ == bytes@.subrange(leading_space(bytes@) as int, bytes@.len() as int),
{
    let mut k: usize = 0;
    proof {
        assert(bytes@.subrange(0, bytes@.len() as int) =~= bytes@);
    }
    while k < bytes.len() && (bytes[k] == 32u8 || bytes[k] == 9u8 || bytes[k] == 10u8 || bytes[k] == 12u8 || bytes[k]
        == 13u8)
        invariant
            k <= bytes@.len(),
            leading_space(bytes@) == k + leading_space(bytes@.subrange(k as int, bytes@.len() as int)),
        decreases bytes.len() - k,
    {
        proof {
            let s = bytes@.subrange(k as int, bytes@.len() as int);
            assert(s[0] == bytes@[k as int]);
            assert(s.drop_first() =~= bytes@.subrange(k + 1, bytes@.len() as int));
        }
        k = k + 1;
    }
    proof {
        let s = bytes@.subrange(k as int, bytes@.len() as int);
        if k < bytes@.len() {
            assert(s[0] == bytes@[k as int]);
        }
        assert(leading_space(s) == 0);
    }
    vstd::slice::slice_subrange(bytes, k, bytes.len())
}

/// Whether two byte strings are equal.
fn same_bytes(a: &[u8], b: &[u8]) -> (same: bool)
    ensures
        same == (a@ == b@),
{
    if a.len() != b.len() {
        return false;
    }
    let mut k: usize = 0;
    while k < a.len()
        invariant
            a@.len() == b@.len(),
            k <= a@.len(),
            forall|i: int| 0 <= i < k ==> a@[i] == b@[i],
        decreases a.len() - k,
    {
        if a[k] != b[k] {
            return false;
        }
        k = k + 1;
    }
    proof {
        assert(a@ =~= b@);
    }
    true
}

/// Whether `comment`, a `#` comment or an embedded document in `source`,
/// is an ignore directive: a `#` comment whose body, with ASCII whitespace
/// trimmed, is one of `directives`.
pub fn is_ignore(source: &[u8], comment: Comment, directives: &[String]) -> (ignore: bool)
    requires
        comment.start < comment.end <= source@.len(),
    ensures
        ignore == ignore_comment(source@, comment, directive_bytes(directives@)),
{
    if comment.embdoc {
        return false;
    }
    let text: &[u8] = vstd::slice::slice_subrange(source, comment.start + 1, comment.end);
    let body: &[u8] = trim_end(trim_start(text));
    proof {
        assert(body@ == trim_ascii(text@));
    }
    listed(body, directives)
}

/// Whether `bytes` is one of `names`, each taken as its UTF-8 bytes.
pub fn listed(bytes: &[u8], names: &[String]) -> (found: bool)
    ensures
        found == directive_bytes(names@).contains(bytes@),
{
    let ghost all = directive_bytes(names@);
    let mut k: usize = 0;
    while k < names.len()
        invariant
            k <= names@.len(),
            all == directive_bytes(names@),
            forall|i: int| 0 <= i < k ==> all[i] != bytes@,
        decreases names.len() - k,
    {
        let d: &[u8] = names[k].as_str().as_bytes();
        proof {
            assert(all[k as int] == encode_utf8(names@[k as int]@));
        }
        if same_bytes(bytes, d) {
            proof {
                assert(all[k as int] == bytes@);
                assert(all.contains(bytes@));
            }
            return true;
        }
        k = k + 1;
    }
    proof {
        if all.contains(bytes@) {
            let i = choose|i: int| 0 <= i < all.len() && all[i] == bytes@;
            assert(i < k);
        }
    }
    false
}

/// With no directives configured, no comment is an ignore directive.
pub proof fn law_no_directives_ignore_nothing(source: Seq<u8>, comment: Comment)
    ensures
        !ignore_comment(source, comment, directive_bytes(Seq::<String>::empty())),
{
    assert(directive_bytes(Seq::<String>::empty()) =~= Seq::<Seq<u8>>::empty());
}

} // verus!
