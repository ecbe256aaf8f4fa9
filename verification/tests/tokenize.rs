use lisp::token::{tokenize, LispLexingError, TokenType};
use lisp::Location;

fn loc(line: usize, col: usize) -> Location {
    Location { line, col }
}

#[test]
fn empty_parens() {
    let tokens = tokenize("()").unwrap();
    assert_eq!(tokens.len(), 2);
    assert_eq!(tokens[0].inner, TokenType::OpenParen);
    assert_eq!(tokens[0].loc, loc(1, 1));
    assert_eq!(tokens[1].inner, TokenType::CloseParen);
    assert_eq!(tokens[1].loc, loc(1, 2));
}

#[test]
fn unmatched_open_paren() {
    let (e, l) = tokenize("(").unwrap_err();
    assert_eq!(e, LispLexingError::UnMatched('('));
    assert_eq!(l, loc(1, 1));
}

#[test]
fn unmatched_open_paren_reported_at_earliest() {
    let (e, l) = tokenize("(()").unwrap_err();
    assert_eq!(e, LispLexingError::UnMatched('('));
    assert_eq!(l, loc(1, 1));
}

#[test]
fn unmatched_close_paren() {
    let (e, l) = tokenize(")").unwrap_err();
    assert_eq!(e, LispLexingError::UnMatched(')'));
    assert_eq!(l, loc(1, 1));
}

#[test]
fn unmatched_close_paren_after_balanced_group() {
    let (e, l) = tokenize("())").unwrap_err();
    assert_eq!(e, LispLexingError::UnMatched(')'));
    assert_eq!(l, loc(1, 3));
}

#[test]
fn trailing_garbage_in_number() {
    let (e, l) = tokenize("1.2.3").unwrap_err();
    assert_eq!(e, LispLexingError::TrailingGarbage);
    assert_eq!(l, loc(1, 4));
}

#[test]
fn trailing_garbage_after_digit_run() {
    let (e, l) = tokenize("12ab").unwrap_err();
    assert_eq!(e, LispLexingError::TrailingGarbage);
    assert_eq!(l, loc(1, 3));
}

#[test]
fn unterminated_string() {
    let (e, l) = tokenize("\"abc").unwrap_err();
    assert_eq!(e, LispLexingError::UnMatched('"'));
    assert_eq!(l, loc(1, 1));
}

#[test]
fn string_stopped_by_newline() {
    let (e, l) = tokenize("\"ab\ncd\"").unwrap_err();
    assert_eq!(e, LispLexingError::UnMatched('"'));
    assert_eq!(l, loc(1, 1));
}

#[test]
fn empty_input() {
    let (e, l) = tokenize("").unwrap_err();
    assert_eq!(e, LispLexingError::Empty);
    assert_eq!(l, loc(1, 1));
}

#[test]
fn whitespace_only_input_is_empty() {
    let (e, l) = tokenize("   ").unwrap_err();
    assert_eq!(e, LispLexingError::Empty);
    assert_eq!(l, loc(1, 4));
}

#[test]
fn comment_only_input_is_empty() {
    let (e, _) = tokenize("; nothing here").unwrap_err();
    assert_eq!(e, LispLexingError::Empty);
}

#[test]
fn comment_line_is_skipped() {
    let with_comment = tokenize("; comment\n(a)").unwrap();
    let without = tokenize("(a)").unwrap();
    assert_eq!(with_comment.len(), without.len());
    for (a, b) in with_comment.iter().zip(without.iter()) {
        assert_eq!(a.inner, b.inner);
    }
    // the comment shifts everything one line down
    assert_eq!(with_comment[0].loc, loc(2, 1));
    assert_eq!(without[0].loc, loc(1, 1));
}

#[test]
fn integer_number_token() {
    let tokens = tokenize("42").unwrap();
    assert_eq!(tokens.len(), 1);
    assert_eq!(tokens[0].inner, TokenType::Number("42".to_string()));
    assert_eq!(tokens[0].loc, loc(1, 1));
}

#[test]
fn float_number_token() {
    let tokens = tokenize("3.5 x").unwrap();
    assert_eq!(tokens.len(), 2);
    assert_eq!(tokens[0].inner, TokenType::Number("3.5".to_string()));
    assert_eq!(tokens[1].inner, TokenType::Symbol("x".to_string()));
    assert_eq!(tokens[1].loc, loc(1, 5));
}

#[test]
fn number_with_empty_fraction() {
    // the frozen grammar accepts a digit run followed by a bare dot
    // when a delimiter (here the end of the input) follows
    let tokens = tokenize("1.").unwrap();
    assert_eq!(tokens.len(), 1);
    assert_eq!(tokens[0].inner, TokenType::Number("1.".to_string()));
}

#[test]
fn string_token() {
    let tokens = tokenize("\"hi\"").unwrap();
    assert_eq!(tokens.len(), 1);
    assert_eq!(tokens[0].inner, TokenType::String("hi".to_string()));
    assert_eq!(tokens[0].loc, loc(1, 1));
}

#[test]
fn empty_string_token() {
    let tokens = tokenize("\"\"").unwrap();
    assert_eq!(tokens.len(), 1);
    assert_eq!(tokens[0].inner, TokenType::String(String::new()));
}

#[test]
fn quote_token() {
    let tokens = tokenize("'a").unwrap();
    assert_eq!(tokens.len(), 2);
    assert_eq!(tokens[0].inner, TokenType::Quote);
    assert_eq!(tokens[0].loc, loc(1, 1));
    assert_eq!(tokens[1].inner, TokenType::Symbol("a".to_string()));
    assert_eq!(tokens[1].loc, loc(1, 2));
}

#[test]
fn quasiquote_and_unquote_tokens() {
    let tokens = tokenize("`(a ,b)").unwrap();
    let kinds: Vec<TokenType> = tokens.into_iter().map(|t| t.inner).collect();
    assert_eq!(
        kinds,
        vec![
            TokenType::Quasiquote,
            TokenType::OpenParen,
            TokenType::Symbol("a".to_string()),
            TokenType::Unquote,
            TokenType::Symbol("b".to_string()),
            TokenType::CloseParen,
        ]
    );
}

#[test]
fn dot_token_in_dotted_pair() {
    let tokens = tokenize("(a . b)").unwrap();
    let kinds: Vec<TokenType> = tokens.into_iter().map(|t| t.inner).collect();
    assert_eq!(
        kinds,
        vec![
            TokenType::OpenParen,
            TokenType::Symbol("a".to_string()),
            TokenType::Dot,
            TokenType::Symbol("b".to_string()),
            TokenType::CloseParen,
        ]
    );
}

#[test]
fn unknown_character() {
    let (e, l) = tokenize("\\").unwrap_err();
    assert_eq!(e, LispLexingError::UnKnownChar('\\'));
    assert_eq!(l, loc(1, 1));
}

#[test]
fn locations_across_lines() {
    let tokens = tokenize("(\n)").unwrap();
    assert_eq!(tokens[0].loc, loc(1, 1));
    assert_eq!(tokens[1].loc, loc(2, 1));
}

#[test]
fn token_count_of_small_program() {
    let tokens = tokenize("(add 1 2)").unwrap();
    assert_eq!(tokens.len(), 5);
}

#[test]
fn symbol_may_contain_digits() {
    let tokens = tokenize("a1").unwrap();
    assert_eq!(tokens.len(), 1);
    assert_eq!(tokens[0].inner, TokenType::Symbol("a1".to_string()));
}

#[test]
fn vertical_tab_separates_symbols() {
    let tokens = tokenize("a\u{000B}b").unwrap();
    assert_eq!(tokens.len(), 2);
    assert_eq!(tokens[0].inner, TokenType::Symbol("a".to_string()));
    assert_eq!(tokens[1].inner, TokenType::Symbol("b".to_string()));
}

#[test]
fn form_feed_delimits_a_number() {
    let tokens = tokenize("12\u{000C}").unwrap();
    assert_eq!(tokens.len(), 1);
    assert_eq!(tokens[0].inner, TokenType::Number("12".to_string()));
}

#[test]
fn unicode_whitespace_only_input_is_empty() {
    let (e, _) = tokenize("\u{2028}\u{00A0}\u{3000}").unwrap_err();
    assert_eq!(e, LispLexingError::Empty);
}

#[test]
fn no_break_space_separates_symbols() {
    let tokens = tokenize("x\u{00A0}y").unwrap();
    assert_eq!(tokens.len(), 2);
    assert_eq!(tokens[0].inner, TokenType::Symbol("x".to_string()));
    assert_eq!(tokens[1].inner, TokenType::Symbol("y".to_string()));
    // a no-break space takes one column, like any non-newline character
    assert_eq!(tokens[1].loc, loc(1, 3));
}

#[test]
fn error_messages() {
    assert_eq!(LispLexingError::TrailingGarbage.message(), "trailing garbage");
    assert_eq!(LispLexingError::Empty.message(), "empty program");
    assert_eq!(
        LispLexingError::UnKnownChar('#').message(),
        "unknown character '#'"
    );
    assert_eq!(LispLexingError::UnMatched('(').message(), "unmatched '('");
}
