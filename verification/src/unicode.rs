//! Facts about UTF-8 byte sequences that the printer relies on: gluing two
//! valid encodings, appending ASCII, and trimming ASCII from the end all
//! keep an encoding valid.

use vstd::prelude::*;
use vstd::utf8::*;
use vstd::string::StringSliceAdditionalSpecFns;

verus! {

/// Whether every byte is below 0x80.
pub open spec fn all_ascii(bytes: Seq<u8>) -> bool {
    forall|i: int| 0 <= i < bytes.len() ==> #[trigger] bytes[i] < 0x80
}

/// The number of bytes that start a character: for valid UTF-8, the number
/// of characters the bytes encode.
pub open spec fn char_count(bytes: Seq<u8>) -> nat
    decreases bytes.len(),
{
    if bytes.len() == 0 {
        0
    } else {
        char_count(bytes.drop_last()) + if is_continuation_byte(bytes.last()) {
            0nat
        } else {
            1nat
        }
    }
}

proof fn lemma_first_scalar_of_concat(a: Seq<u8>, b: Seq<u8>)
    requires
        a.len() > 0,
        valid_first_scalar(a),
    ensures
        valid_first_scalar(a + b),
        length_of_first_scalar(a + b) == length_of_first_scalar(a),
        pop_first_scalar(a + b) =~= pop_first_scalar(a) + b,
{
    let ab = a + b;
    assert(ab[0] == a[0]);
    if a.len() > 1 {
        assert(ab[1] == a[1]);
    }
    if a.len() > 2 {
        assert(ab[2] == a[2]);
    }
    if a.len() > 3 {
        assert(ab[3] == a[3]);
    }
}

/// Two valid encodings glued together form a valid encoding.
pub proof fn lemma_valid_concat(a: Seq<u8>, b: Seq<u8>)
    requires
        valid_utf8(a),
        valid_utf8(b),
    ensures
        valid_utf8(a + b),
    decreases a.len(),
{
    if a.len() == 0 {
        assert(a + b =~= b);
    } else {
        lemma_first_scalar_of_concat(a, b);
        let rest = pop_first_scalar(a);
        lemma_valid_concat(rest, b);
    }
}

/// ASCII bytes are a valid encoding.
pub proof fn lemma_ascii_valid(bytes: Seq<u8>)
    requires
        all_ascii(bytes),
    ensures
        valid_utf8(bytes),
    decreases bytes.len(),
{
    if bytes.len() > 0 {
        assert(bytes[0] < 0x80);
        let rest = pop_first_scalar(bytes);
        assert(rest =~= bytes.subrange(1, bytes.len() as int));
        assert(all_ascii(rest)) by {
            assert forall|i: int| 0 <= i < rest.len() implies #[trigger] rest[i] < 0x80 by {
                assert(rest[i] == bytes[i + 1]);
            }
        }
        lemma_ascii_valid(rest);
    }
}

/// Removing a final ASCII byte from a valid encoding leaves a valid one.
pub proof fn lemma_valid_drop_last_ascii(s: Seq<u8>)
    requires
        valid_utf8(s),
        s.len() > 0,
        s.last() < 0x80,
    ensures
        valid_utf8(s.drop_last()),
    decreases s.len(),
{
    let n = length_of_first_scalar(s);
    let d = s.drop_last();
    if n == s.len() {
        if n > 1 {
            assert(is_continuation_byte(s[n - 1]));
        }
        assert(d.len() == 0);
    } else {
        assert(d[0] == s[0]);
        if d.len() > 1 {
            assert(d[1] == s[1]);
        }
        if d.len() > 2 {
            assert(d[2] == s[2]);
        }
        if d.len() > 3 {
            assert(d[3] == s[3]);
        }
        assert(valid_first_scalar(d));
        let rest = pop_first_scalar(s);
        assert(pop_first_scalar(d) =~= rest.drop_last());
        assert(rest.last() == s.last());
        lemma_valid_drop_last_ascii(rest);
    }
}

/// A valid encoding followed by ASCII bytes is a valid encoding.
pub proof fn lemma_valid_append_ascii(a: Seq<u8>, b: Seq<u8>)
    requires
        valid_utf8(a),
        all_ascii(b),
    ensures
        valid_utf8(a + b),
{
    lemma_ascii_valid(b);
    lemma_valid_concat(a, b);
}

/// Adjacent valid slices of one buffer join into a valid slice.
pub proof fn lemma_valid_adjacent(s: Seq<u8>, i: int, j: int, k: int)
    requires
        0 <= i <= j <= k <= s.len(),
        valid_utf8(s.subrange(i, j)),
        valid_utf8(s.subrange(j, k)),
    ensures
        valid_utf8(s.subrange(i, k)),
{
    lemma_valid_concat(s.subrange(i, j), s.subrange(j, k));
    assert(s.subrange(i, j) + s.subrange(j, k) =~= s.subrange(i, k));
}

/// A string's bytes are a valid encoding.
pub proof fn lemma_str_valid(s: &str)
    ensures
        valid_utf8(s.spec_bytes()),
{
    encode_utf8_valid_utf8(s@);
}

/// `std::str::from_utf8`: the bytes as a string when they are valid UTF-8,
/// and nothing otherwise.
#[verifier::external_body]
pub(crate) fn str_from_utf8(bytes: &[u8]) -> (s: Option<&str>)
    ensures
        s is Some <==> valid_utf8(bytes@),
        s matches Some(s) ==> s.spec_bytes() == bytes@,
{
    match std::str::from_utf8(bytes) {
        Ok(s) => Some(s),
        Err(_) => None,
    }
}

} // verus!
