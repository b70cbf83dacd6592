use alofmt::comments::Comment;
use alofmt::options::QuoteStyle;
use alofmt::words::{comments_before, is_bare_symbol, is_operator, loop_form, word_quote, LoopForm};

#[test]
fn bare_symbols_are_identifiers_with_an_optional_suffix() {
    assert!(is_bare_symbol("foo"));
    assert!(is_bare_symbol("_private?"));
    assert!(is_bare_symbol("save!"));
    assert!(is_bare_symbol("a1_b2"));
    assert!(!is_bare_symbol(""));
    assert!(!is_bare_symbol("?"));
    assert!(!is_bare_symbol("1abc"));
    assert!(!is_bare_symbol("foo-bar"));
    assert!(!is_bare_symbol("b??"));
    assert!(!is_bare_symbol("héllo"));
}

#[test]
fn words_take_the_preferred_quote_that_holds_them() {
    assert_eq!(word_quote(QuoteStyle::Single, "c"), Some(b'\''));
    assert_eq!(word_quote(QuoteStyle::Preserve, "c"), Some(b'\''));
    assert_eq!(word_quote(QuoteStyle::Double, "c"), Some(b'"'));
    assert_eq!(word_quote(QuoteStyle::Single, "it's"), Some(b'"'));
    assert_eq!(word_quote(QuoteStyle::Double, "#{x}"), Some(b'\''));
    assert_eq!(word_quote(QuoteStyle::Double, "#@x"), Some(b'\''));
    assert_eq!(word_quote(QuoteStyle::Single, "a\\b"), None);
    assert_eq!(word_quote(QuoteStyle::Single, "'#$x"), None);
}

#[test]
fn operators_start_with_punctuation() {
    assert!(is_operator(b"+"));
    assert!(is_operator(b"<=>"));
    assert!(is_operator(b"!"));
    assert!(!is_operator(b"[]"));
    assert!(!is_operator(b"foo"));
    assert!(!is_operator(b"_x"));
    assert!(!is_operator(b"9"));
    assert!(!is_operator(b""));
    assert!(!is_operator("é".as_bytes()));
}

#[test]
fn loop_forms_follow_how_the_loop_is_written() {
    assert_eq!(loop_form(true, true), LoopForm::BeginModifier);
    assert_eq!(loop_form(true, false), LoopForm::BeginModifier);
    assert_eq!(loop_form(false, true), LoopForm::Block);
    assert_eq!(loop_form(false, false), LoopForm::Modifier);
}

fn comment(start: usize) -> Comment {
    Comment { start, end: start + 3, own_line: true, embdoc: false }
}

#[test]
fn comments_before_a_clause_are_taken_in_order() {
    let dangling = [comment(5), comment(10), comment(20), comment(30)];
    let mut printed = 0;
    assert_eq!(comments_before(&dangling, 15, &mut printed), [comment(5), comment(10)]);
    assert_eq!(printed, 2);
    assert_eq!(comments_before(&dangling, 15, &mut printed), []);
    assert_eq!(comments_before(&dangling, 100, &mut printed), [comment(20), comment(30)]);
    assert_eq!(printed, 4);
}
