use alofmt::comments::Comment;
use alofmt::literals::{character_form, integer_text, string_form, CharacterForm, StringForm};
use alofmt::options::QuoteStyle;
use alofmt::words::is_ignore;

#[test]
fn integers_get_thousands_separators() {
    assert_eq!(integer_text(true, "10000").as_deref(), Some("10_000"));
    assert_eq!(integer_text(true, "100000").as_deref(), Some("100_000"));
    assert_eq!(integer_text(true, "1234567").as_deref(), Some("1_234_567"));
    assert_eq!(integer_text(true, "-123456").as_deref(), Some("-123_456"));
}

#[test]
fn integers_that_keep_their_spelling() {
    assert_eq!(integer_text(false, "10000"), None);
    assert_eq!(integer_text(true, "1234"), None);
    assert_eq!(integer_text(true, "01234"), None);
    assert_eq!(integer_text(true, "0x1234f"), None);
    assert_eq!(integer_text(true, "12_345"), None);
    assert_eq!(integer_text(true, "-1234"), None);
    assert_eq!(integer_text(true, ""), None);
}

#[test]
fn separated_integers_read_back_as_written() {
    for text in ["10000", "987654321", "-1000000"] {
        let separated = integer_text(true, text).expect("eligible");
        assert_eq!(separated.replace('_', ""), text);
    }
}

#[test]
fn strings_change_quotes_only_when_the_content_allows() {
    assert_eq!(string_form(QuoteStyle::Double, false, "hello"), StringForm::DoubleQuoted);
    assert_eq!(string_form(QuoteStyle::Double, false, "#@name"), StringForm::AsWritten);
    assert_eq!(string_form(QuoteStyle::Double, false, "say \"hi\""), StringForm::AsWritten);
    assert_eq!(string_form(QuoteStyle::Single, false, "hello"), StringForm::SingleQuoted);
    assert_eq!(string_form(QuoteStyle::Single, false, "it's"), StringForm::AsWritten);
    assert_eq!(string_form(QuoteStyle::Single, false, "a\\n"), StringForm::AsWritten);
    assert_eq!(string_form(QuoteStyle::Preserve, false, "hello"), StringForm::AsWritten);
}

#[test]
fn character_literals_follow_the_style() {
    assert_eq!(string_form(QuoteStyle::Single, true, "a"), StringForm::Character);
    assert_eq!(string_form(QuoteStyle::Double, true, "a"), StringForm::DoubleQuoted);
    assert_eq!(string_form(QuoteStyle::Double, true, "\""), StringForm::AsWritten);
    assert_eq!(string_form(QuoteStyle::Preserve, true, "a"), StringForm::AsWritten);
    assert_eq!(character_form("'"), CharacterForm::Apostrophe);
    assert_eq!(character_form("\""), CharacterForm::DoubleQuote);
    assert_eq!(character_form("\\n"), CharacterForm::Escape);
    assert_eq!(character_form("a"), CharacterForm::SingleQuoted);
}

fn comment(start: usize, end: usize, embdoc: bool) -> Comment {
    Comment { start, end, own_line: true, embdoc }
}

#[test]
fn ignore_directives_match_the_trimmed_comment_body() {
    let source = b"# keep\nx=  1\n";
    assert!(is_ignore(source, comment(0, 6, false), &["keep".to_owned()]));
    assert!(!is_ignore(source, comment(0, 6, false), &["alofmt-ignore".to_owned()]));
    assert!(!is_ignore(source, comment(0, 6, false), &[]));
    let spaced = b"#   alofmt-ignore  \t";
    assert!(is_ignore(spaced, comment(0, spaced.len(), false), &["alofmt-ignore".to_owned()]));
    assert!(!is_ignore(b"# alofmt-ignore-not", comment(0, 19, false), &["alofmt-ignore".to_owned()]));
}

#[test]
fn embedded_documents_are_never_ignore_directives() {
    let source = b"=begin\nkeep\n=end\n";
    assert!(!is_ignore(source, comment(0, 16, true), &["keep".to_owned()]));
}
