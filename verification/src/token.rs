//! The tokenizer: a single left-to-right pass over the source text that
//! produces an ordered sequence of located tokens, or a located lexical
//! error.
//!
//! The grammar is frozen as follows. Whitespace is any character with
//! the Unicode White_Space property. A digit is an ASCII digit. A
//! symbolic character is anything that is neither whitespace nor one of
//! the reserved characters `'`, `.`, `,`, `` ` ``, `(`, `)`, `\`, `"`;
//! in particular `.` is never part of a bare symbol: it is absorbed
//! inside a numeric literal or tokenized alone as `Dot`. A numeric
//! literal is a digit run, optionally followed by `.` and a further digit
//! run, and must be delimited by whitespace, a parenthesis, or the end of
//! the input; so must a symbol.

use vstd::prelude::*;

use crate::scanner::Scanner;
use crate::{line_col_at, LocModel, Location};

verus! {

/// Whitespace: the characters with the Unicode White_Space property —
/// the ASCII whitespace controls and space, next line, no-break space,
/// Ogham space mark, the en-quad..hair-space range, the line and
/// paragraph separators, narrow no-break space, medium mathematical
/// space, and ideographic space.
pub open spec fn spec_is_space(c: char) -> bool {
    let u = c as u32;
    ||| (0x09 <= u <= 0x0D)
    ||| u == 0x20
    ||| u == 0x85
    ||| u == 0xA0
    ||| u == 0x1680
    ||| (0x2000 <= u <= 0x200A)
    ||| u == 0x2028
    ||| u == 0x2029
    ||| u == 0x202F
    ||| u == 0x205F
    ||| u == 0x3000
}

/// An ASCII digit.
pub open spec fn spec_is_digit(c: char) -> bool {
    48 <= c as u32 <= 57
}

/// A character that may stand in a symbol: not whitespace and not one of
/// the reserved characters.
pub open spec fn spec_is_symbolic(c: char) -> bool {
    &&& !spec_is_space(c)
    &&& c != '\''
    &&& c != '.'
    &&& c != ','
    &&& c != '`'
    &&& c != '('
    &&& c != ')'
    &&& c != '\\'
    &&& c != '"'
}

fn is_space_char(c: char) -> (r: bool)
    ensures
        r == spec_is_space(c),
{
    let u = c as u32;
    (0x09 <= u && u <= 0x0D) || u == 0x20 || u == 0x85 || u == 0xA0 || u == 0x1680 || (0x2000 <= u
        && u <= 0x200A) || u == 0x2028 || u == 0x2029 || u == 0x202F || u == 0x205F || u == 0x3000
}

fn is_digit_char(c: char) -> (r: bool)
    ensures
        r == spec_is_digit(c),
{
    let u = c as u32;
    48 <= u && u <= 57
}

/// Whether `c` may stand in a symbol.
pub fn is_symbolic(c: char) -> (r: bool)
    ensures
        r == spec_is_symbolic(c),
{
    !is_space_char(c) && c != '\'' && c != '.' && c != ',' && c != '`' && c != '(' && c != ')'
        && c != '\\' && c != '"'
}

/// A lexical error. Every kind is fatal to the tokenize call that raised
/// it; the paired location says where (see `tokenize`).
#[derive(Debug, Clone, Copy, PartialEq, Eq)]
pub enum LispLexingError {
    /// A numeric or symbol literal was followed by a character that may
    /// not end it.
    TrailingGarbage,
    /// The whole input produced no token at all.
    Empty,
    /// A character that no rule of the grammar accepts.
    UnKnownChar(char),
    /// An unbalanced `(`, `)` or `"`.
    UnMatched(char),
}

/// The one-line message text of `e`, for a caller that formats
/// diagnostics around it.
pub open spec fn spec_message(e: LispLexingError) -> Seq<char> {
    match e {
        LispLexingError::TrailingGarbage => "trailing garbage"@,
        LispLexingError::Empty => "empty program"@,
        LispLexingError::UnKnownChar(c) => "unknown character '"@ + seq![c] + seq!['\''],
        LispLexingError::UnMatched(c) => "unmatched '"@ + seq![c] + seq!['\''],
    }
}

impl LispLexingError {
    /// The one-line message text of this error. Rendering it with source
    /// context is the caller's concern; this supplies the words.
    pub fn message(&self) -> (r: String)
        ensures
            r@ == spec_message(*self),
    {
        match self {
            LispLexingError::TrailingGarbage => String::from_str("trailing garbage"),
            LispLexingError::Empty => String::from_str("empty program"),
            LispLexingError::UnKnownChar(c) => {
                let mut out = crate::scanner::str_chars("unknown character '");
                out.push(*c);
                out.push('\'');
                crate::scanner::chars_to_string(out)
            },
            LispLexingError::UnMatched(c) => {
                let mut out = crate::scanner::str_chars("unmatched '");
                out.push(*c);
                out.push('\'');
                crate::scanner::chars_to_string(out)
            },
        }
    }
}

/// A token kind. Numeric literals carry their source text, which is
/// exact; reading it as a machine number is the consumer's concern.
#[derive(Debug, Clone, PartialEq)]
pub enum TokenType {
    OpenParen,
    CloseParen,
    Number(String),
    Symbol(String),
    String(String),
    Quote,
    Dot,
    Quasiquote,
    Unquote,
}

/// A token: its kind together with the location of its first character.
#[derive(Debug, Clone, PartialEq)]
pub struct Token {
    pub loc: Location,
    pub inner: TokenType,
}

/// The mathematical model of a `TokenType`: the same variants over
/// character sequences.
pub enum TokenKindModel {
    OpenParen,
    CloseParen,
    Number(Seq<char>),
    Symbol(Seq<char>),
    String(Seq<char>),
    Quote,
    Dot,
    Quasiquote,
    Unquote,
}

/// The mathematical model of a `Token`.
pub struct TokenModel {
    pub loc: LocModel,
    pub kind: TokenKindModel,
}

impl View for TokenType {
    type V = TokenKindModel;

    open spec fn view(&self) -> TokenKindModel {
        match self {
            TokenType::OpenParen => TokenKindModel::OpenParen,
            TokenType::CloseParen => TokenKindModel::CloseParen,
            TokenType::Number(s) => TokenKindModel::Number(s@),
            TokenType::Symbol(s) => TokenKindModel::Symbol(s@),
            TokenType::String(s) => TokenKindModel::String(s@),
            TokenType::Quote => TokenKindModel::Quote,
            TokenType::Dot => TokenKindModel::Dot,
            TokenType::Quasiquote => TokenKindModel::Quasiquote,
            TokenType::Unquote => TokenKindModel::Unquote,
        }
    }
}

impl View for Token {
    type V = TokenModel;

    open spec fn view(&self) -> TokenModel {
        TokenModel { loc: self.loc@, kind: self.inner@ }
    }
}

/// The end of the maximal run of characters satisfying `pred` that starts
/// at `i`: the least `j >= i` with `j == s.len()` or `!pred(s[j])`.
pub open spec fn run_end(s: Seq<char>, i: int, pred: spec_fn(char) -> bool) -> int
    decreases s.len() - i,
{
    if i < 0 || i >= s.len() {
        i
    } else if pred(s[i]) {
        run_end(s, i + 1, pred)
    } else {
        i
    }
}

pub proof fn lemma_run_end(s: Seq<char>, i: int, pred: spec_fn(char) -> bool)
    requires
        0 <= i <= s.len(),
    ensures
        i <= run_end(s, i, pred) <= s.len(),
        forall|k: int| i <= k < run_end(s, i, pred) ==> pred(#[trigger] s[k]),
        run_end(s, i, pred) < s.len() ==> !pred(s[run_end(s, i, pred)]),
    decreases s.len() - i,
{
    if i < s.len() && pred(s[i]) {
        lemma_run_end(s, i + 1, pred);
    }
}

/// A maximal run is pinned by its endpoint: if everything in `[i, j)`
/// satisfies `pred` and `j` is the end of the input or fails `pred`, then
/// `j` is the run's end.
pub proof fn lemma_run_end_is(s: Seq<char>, i: int, pred: spec_fn(char) -> bool, j: int)
    requires
        0 <= i <= j <= s.len(),
        forall|k: int| i <= k < j ==> pred(#[trigger] s[k]),
        j < s.len() ==> !pred(s[j]),
    ensures
        run_end(s, i, pred) == j,
    decreases j - i,
{
    if i < j {
        lemma_run_end_is(s, i + 1, pred, j);
    }
}

/// The digit-run predicate, as one shared term.
pub open spec fn digit_pred() -> spec_fn(char) -> bool {
    |x: char| spec_is_digit(x)
}

/// The whitespace-run predicate, as one shared term.
pub open spec fn space_pred() -> spec_fn(char) -> bool {
    |x: char| spec_is_space(x)
}

/// The symbol-run predicate, as one shared term.
pub open spec fn symbolic_pred() -> spec_fn(char) -> bool {
    |x: char| spec_is_symbolic(x)
}

/// The comment-run predicate: a comment runs up to (excluding) the next
/// newline.
pub open spec fn comment_pred() -> spec_fn(char) -> bool {
    |x: char| x != '\n'
}

/// The string-body predicate: a string literal's text runs up to
/// (excluding) the next `"` or newline.
pub open spec fn string_body_pred() -> spec_fn(char) -> bool {
    |x: char| x != '"' && x != '\n'
}

/// Whether position `i` may end a numeric or symbol literal: the end of
/// the input, whitespace, or a parenthesis.
pub open spec fn spec_is_delimited(s: Seq<char>, i: int) -> bool {
    i >= s.len() || spec_is_space(s[i]) || s[i] == '(' || s[i] == ')'
}

/// Prepends one token to the token sequence of a result, passing an error
/// through unchanged.
pub open spec fn prepend(
    t: TokenModel,
    r: Result<Seq<TokenModel>, (LispLexingError, LocModel)>,
) -> Result<Seq<TokenModel>, (LispLexingError, LocModel)> {
    match r {
        Ok(rest) => Ok(seq![t] + rest),
        Err(e) => Err(e),
    }
}

/// The token sequence lexed from position `i` of `s`, given the stack of
/// the locations of the open parentheses seen so far (earliest first).
///
/// Case analysis per position, in this priority order: comment, `(`, `)`,
/// numeric literal, symbol, string literal, the single-character tokens
/// `'` `.` `` ` `` `,`, whitespace; anything else — which under the
/// frozen grammar is only `\` — is an unknown character. At the end of
/// the input a non-empty stack of open parentheses is reported as an
/// unmatched `(` at the earliest unmatched opening.
pub open spec fn lex_at(
    s: Seq<char>,
    i: int,
    opens: Seq<LocModel>,
) -> Result<Seq<TokenModel>, (LispLexingError, LocModel)>
    decreases s.len() - i,
    via lex_at_decreases
{
    if i < 0 || i >= s.len() {
        if opens.len() > 0 {
            Err((LispLexingError::UnMatched('('), opens[0]))
        } else {
            Ok(Seq::empty())
        }
    } else {
        let c = s[i];
        let here = line_col_at(s, i);
        if c == ';' {
            lex_at(s, run_end(s, i + 1, comment_pred()), opens)
        } else if c == '(' {
            prepend(
                TokenModel { loc: here, kind: TokenKindModel::OpenParen },
                lex_at(s, i + 1, opens.push(here)),
            )
        } else if c == ')' {
            if opens.len() > 0 {
                prepend(
                    TokenModel { loc: here, kind: TokenKindModel::CloseParen },
                    lex_at(s, i + 1, opens.drop_last()),
                )
            } else {
                Err((LispLexingError::UnMatched(')'), here))
            }
        } else if spec_is_digit(c) {
            let j = run_end(s, i, digit_pred());
            let end = if j < s.len() && s[j] == '.' {
                run_end(s, j + 1, digit_pred())
            } else {
                j
            };
            if spec_is_delimited(s, end) {
                prepend(
                    TokenModel { loc: here, kind: TokenKindModel::Number(s.subrange(i, end)) },
                    lex_at(s, end, opens),
                )
            } else {
                Err((LispLexingError::TrailingGarbage, line_col_at(s, end)))
            }
        } else if spec_is_symbolic(c) {
            let j = run_end(s, i, symbolic_pred());
            if spec_is_delimited(s, j) {
                prepend(
                    TokenModel { loc: here, kind: TokenKindModel::Symbol(s.subrange(i, j)) },
                    lex_at(s, j, opens),
                )
            } else {
                Err((LispLexingError::TrailingGarbage, line_col_at(s, j)))
            }
        } else if c == '"' {
            let j = run_end(s, i + 1, string_body_pred());
            if j < s.len() && s[j] == '"' {
                prepend(
                    TokenModel { loc: here, kind: TokenKindModel::String(s.subrange(i + 1, j)) },
                    lex_at(s, j + 1, opens),
                )
            } else {
                Err((LispLexingError::UnMatched('"'), here))
            }
        } else if c == '\'' {
            prepend(TokenModel { loc: here, kind: TokenKindModel::Quote }, lex_at(s, i + 1, opens))
        } else if c == '.' {
            prepend(TokenModel { loc: here, kind: TokenKindModel::Dot }, lex_at(s, i + 1, opens))
        } else if c == '`' {
            prepend(
                TokenModel { loc: here, kind: TokenKindModel::Quasiquote },
                lex_at(s, i + 1, opens),
            )
        } else if c == ',' {
            prepend(
                TokenModel { loc: here, kind: TokenKindModel::Unquote },
                lex_at(s, i + 1, opens),
            )
        } else if spec_is_space(c) {
            lex_at(s, run_end(s, i, space_pred()), opens)
        } else {
            Err((LispLexingError::UnKnownChar(c), here))
        }
    }
}

#[via_fn]
proof fn lex_at_decreases(s: Seq<char>, i: int, opens: Seq<LocModel>) {
    if 0 <= i < s.len() {
        lemma_run_end(s, i + 1, comment_pred());
        lemma_run_end(s, i, digit_pred());
        let j = run_end(s, i, digit_pred());
        if 0 <= j + 1 <= s.len() {
            lemma_run_end(s, j + 1, digit_pred());
        }
        lemma_run_end(s, i, symbolic_pred());
        lemma_run_end(s, i + 1, string_body_pred());
        lemma_run_end(s, i, space_pred());
    }
}

/// The result of tokenizing `s` whole: the tokens lexed from the start
/// with no parenthesis yet open — except that a run that produced no
/// token at all is the `Empty` error, located at the end of the input.
pub open spec fn spec_tokenize(s: Seq<char>) -> Result<
    Seq<TokenModel>,
    (LispLexingError, LocModel),
> {
    match lex_at(s, 0, Seq::empty()) {
        Ok(tokens) => {
            if tokens.len() == 0 {
                Err((LispLexingError::Empty, line_col_at(s, s.len() as int)))
            } else {
                Ok(tokens)
            }
        },
        Err(e) => Err(e),
    }
}

/// How many `OpenParen` tokens a sequence holds.
pub open spec fn open_paren_count(ts: Seq<TokenModel>) -> int
    decreases ts.len(),
{
    if ts.len() == 0 {
        0
    } else {
        (if ts[0].kind is OpenParen {
            1int
        } else {
            0int
        }) + open_paren_count(ts.drop_first())
    }
}

/// How many `CloseParen` tokens a sequence holds.
pub open spec fn close_paren_count(ts: Seq<TokenModel>) -> int
    decreases ts.len(),
{
    if ts.len() == 0 {
        0
    } else {
        (if ts[0].kind is CloseParen {
            1int
        } else {
            0int
        }) + close_paren_count(ts.drop_first())
    }
}

proof fn lemma_counts_of_prepended(t: TokenModel, rest: Seq<TokenModel>)
    ensures
        open_paren_count(seq![t] + rest) == (if t.kind is OpenParen {
            1int
        } else {
            0int
        }) + open_paren_count(rest),
        close_paren_count(seq![t] + rest) == (if t.kind is CloseParen {
            1int
        } else {
            0int
        }) + close_paren_count(rest),
{
    assert((seq![t] + rest)[0] == t);
    assert((seq![t] + rest).drop_first() =~= rest);
}

proof fn lemma_lex_at_balanced(s: Seq<char>, i: int, opens: Seq<LocModel>)
    requires
        0 <= i <= s.len(),
    ensures
        lex_at(s, i, opens) matches Ok(toks) ==> open_paren_count(toks) + opens.len()
            == close_paren_count(toks),
    decreases s.len() - i,
{
    if i >= s.len() {
    } else {
        let c = s[i];
        let here = line_col_at(s, i);
        if c == ';' {
            lemma_run_end(s, i + 1, comment_pred());
            lemma_lex_at_balanced(s, run_end(s, i + 1, comment_pred()), opens);
        } else if c == '(' {
            lemma_lex_at_balanced(s, i + 1, opens.push(here));
            let t = TokenModel { loc: here, kind: TokenKindModel::OpenParen };
            if let Ok(rest) = lex_at(s, i + 1, opens.push(here)) {
                lemma_counts_of_prepended(t, rest);
            }
        } else if c == ')' {
            if opens.len() > 0 {
                lemma_lex_at_balanced(s, i + 1, opens.drop_last());
                let t = TokenModel { loc: here, kind: TokenKindModel::CloseParen };
                if let Ok(rest) = lex_at(s, i + 1, opens.drop_last()) {
                    lemma_counts_of_prepended(t, rest);
                }
            }
        } else if spec_is_digit(c) {
            lemma_run_end(s, i, digit_pred());
            let j = run_end(s, i, digit_pred());
            let end = if j < s.len() && s[j] == '.' {
                run_end(s, j + 1, digit_pred())
            } else {
                j
            };
            if j < s.len() && s[j] == '.' {
                lemma_run_end(s, j + 1, digit_pred());
            }
            if spec_is_delimited(s, end) {
                lemma_lex_at_balanced(s, end, opens);
                let t = TokenModel { loc: here, kind: TokenKindModel::Number(s.subrange(i, end)) };
                if let Ok(rest) = lex_at(s, end, opens) {
                    lemma_counts_of_prepended(t, rest);
                }
            }
        } else if spec_is_symbolic(c) {
            lemma_run_end(s, i, symbolic_pred());
            let j = run_end(s, i, symbolic_pred());
            if spec_is_delimited(s, j) {
                lemma_lex_at_balanced(s, j, opens);
                let t = TokenModel { loc: here, kind: TokenKindModel::Symbol(s.subrange(i, j)) };
                if let Ok(rest) = lex_at(s, j, opens) {
                    lemma_counts_of_prepended(t, rest);
                }
            }
        } else if c == '"' {
            lemma_run_end(s, i + 1, string_body_pred());
            let j = run_end(s, i + 1, string_body_pred());
            if j < s.len() && s[j] == '"' {
                lemma_lex_at_balanced(s, j + 1, opens);
                let t = TokenModel {
                    loc: here,
                    kind: TokenKindModel::String(s.subrange(i + 1, j)),
                };
                if let Ok(rest) = lex_at(s, j + 1, opens) {
                    lemma_counts_of_prepended(t, rest);
                }
            }
        } else if c == '\'' || c == '.' || c == '`' || c == ',' {
            lemma_lex_at_balanced(s, i + 1, opens);
            let t = TokenModel {
                loc: here,
                kind: if c == '\'' {
                    TokenKindModel::Quote
                } else if c == '.' {
                    TokenKindModel::Dot
                } else if c == '`' {
                    TokenKindModel::Quasiquote
                } else {
                    TokenKindModel::Unquote
                },
            };
            if let Ok(rest) = lex_at(s, i + 1, opens) {
                lemma_counts_of_prepended(t, rest);
            }
        } else if spec_is_space(c) {
            lemma_run_end(s, i, space_pred());
            lemma_lex_at_balanced(s, run_end(s, i, space_pred()), opens);
        }
    }
}

/// In every successful tokenization the parentheses balance: the token
/// sequence holds exactly as many `OpenParen` as `CloseParen` tokens.
pub proof fn lemma_tokenize_balanced(s: Seq<char>)
    ensures
        spec_tokenize(s) matches Ok(toks) ==> open_paren_count(toks) == close_paren_count(toks),
{
    lemma_lex_at_balanced(s, 0, Seq::empty());
}

/// Whether the grammar accepts the text from position `i` to the end
/// with `depth` parenthesis groups open: parentheses balance, every
/// numeric and symbol literal is delimited, every string literal is
/// closed before a newline, and no character falls outside the grammar.
pub open spec fn lex_ok(s: Seq<char>, i: int, depth: int) -> bool
    decreases s.len() - i,
    via lex_ok_decreases
{
    if i < 0 || i >= s.len() {
        depth == 0
    } else {
        let c = s[i];
        if c == ';' {
            lex_ok(s, run_end(s, i + 1, comment_pred()), depth)
        } else if c == '(' {
            lex_ok(s, i + 1, depth + 1)
        } else if c == ')' {
            depth > 0 && lex_ok(s, i + 1, depth - 1)
        } else if spec_is_digit(c) {
            let j = run_end(s, i, digit_pred());
            let end = if j < s.len() && s[j] == '.' {
                run_end(s, j + 1, digit_pred())
            } else {
                j
            };
            spec_is_delimited(s, end) && lex_ok(s, end, depth)
        } else if spec_is_symbolic(c) {
            let j = run_end(s, i, symbolic_pred());
            spec_is_delimited(s, j) && lex_ok(s, j, depth)
        } else if c == '"' {
            let j = run_end(s, i + 1, string_body_pred());
            j < s.len() && s[j] == '"' && lex_ok(s, j + 1, depth)
        } else if c == '\'' || c == '.' || c == '`' || c == ',' {
            lex_ok(s, i + 1, depth)
        } else if spec_is_space(c) {
            lex_ok(s, run_end(s, i, space_pred()), depth)
        } else {
            false
        }
    }
}

#[via_fn]
proof fn lex_ok_decreases(s: Seq<char>, i: int, depth: int) {
    if 0 <= i < s.len() {
        lemma_run_end(s, i + 1, comment_pred());
        lemma_run_end(s, i, digit_pred());
        let j = run_end(s, i, digit_pred());
        if 0 <= j + 1 <= s.len() {
            lemma_run_end(s, j + 1, digit_pred());
        }
        lemma_run_end(s, i, symbolic_pred());
        lemma_run_end(s, i + 1, string_body_pred());
        lemma_run_end(s, i, space_pred());
    }
}

/// How many tokens the grammar carves out of the text from position `i`
/// to the end: one for each atom — number, symbol, string — and each
/// punctuation mark, while comments and whitespace contribute none.
/// Meaningful where `lex_ok` holds.
pub open spec fn token_count_at(s: Seq<char>, i: int) -> int
    decreases s.len() - i,
    via token_count_at_decreases
{
    if i < 0 || i >= s.len() {
        0
    } else {
        let c = s[i];
        if c == ';' {
            token_count_at(s, run_end(s, i + 1, comment_pred()))
        } else if c == '(' || c == ')' || c == '\'' || c == '.' || c == '`' || c == ',' {
            1 + token_count_at(s, i + 1)
        } else if spec_is_digit(c) {
            let j = run_end(s, i, digit_pred());
            let end = if j < s.len() && s[j] == '.' {
                run_end(s, j + 1, digit_pred())
            } else {
                j
            };
            1 + token_count_at(s, end)
        } else if spec_is_symbolic(c) {
            1 + token_count_at(s, run_end(s, i, symbolic_pred()))
        } else if c == '"' {
            let j = run_end(s, i + 1, string_body_pred());
            if j < s.len() && s[j] == '"' {
                1 + token_count_at(s, j + 1)
            } else {
                1
            }
        } else if spec_is_space(c) {
            token_count_at(s, run_end(s, i, space_pred()))
        } else {
            0
        }
    }
}

#[via_fn]
proof fn token_count_at_decreases(s: Seq<char>, i: int) {
    if 0 <= i < s.len() {
        lemma_run_end(s, i + 1, comment_pred());
        lemma_run_end(s, i, digit_pred());
        let j = run_end(s, i, digit_pred());
        if 0 <= j + 1 <= s.len() {
            lemma_run_end(s, j + 1, digit_pred());
        }
        lemma_run_end(s, i, symbolic_pred());
        lemma_run_end(s, i + 1, string_body_pred());
        lemma_run_end(s, i, space_pred());
    }
}

proof fn lemma_lex_at_ok(s: Seq<char>, i: int, opens: Seq<LocModel>)
    requires
        0 <= i <= s.len(),
    ensures
        lex_at(s, i, opens) is Ok <==> lex_ok(s, i, opens.len() as int),
        lex_at(s, i, opens) matches Ok(toks) ==> toks.len() == token_count_at(s, i),
    decreases s.len() - i,
{
    if i >= s.len() {
    } else {
        let c = s[i];
        if c == ';' {
            lemma_run_end(s, i + 1, comment_pred());
            lemma_lex_at_ok(s, run_end(s, i + 1, comment_pred()), opens);
        } else if c == '(' {
            let here = line_col_at(s, i);
            lemma_lex_at_ok(s, i + 1, opens.push(here));
        } else if c == ')' {
            if opens.len() > 0 {
                lemma_lex_at_ok(s, i + 1, opens.drop_last());
            }
        } else if spec_is_digit(c) {
            lemma_run_end(s, i, digit_pred());
            let j = run_end(s, i, digit_pred());
            let end = if j < s.len() && s[j] == '.' {
                run_end(s, j + 1, digit_pred())
            } else {
                j
            };
            if j < s.len() && s[j] == '.' {
                lemma_run_end(s, j + 1, digit_pred());
            }
            if spec_is_delimited(s, end) {
                lemma_lex_at_ok(s, end, opens);
            }
        } else if spec_is_symbolic(c) {
            lemma_run_end(s, i, symbolic_pred());
            let j = run_end(s, i, symbolic_pred());
            if spec_is_delimited(s, j) {
                lemma_lex_at_ok(s, j, opens);
            }
        } else if c == '"' {
            lemma_run_end(s, i + 1, string_body_pred());
            let j = run_end(s, i + 1, string_body_pred());
            if j < s.len() && s[j] == '"' {
                lemma_lex_at_ok(s, j + 1, opens);
            }
        } else if c == '\'' || c == '.' || c == '`' || c == ',' {
            lemma_lex_at_ok(s, i + 1, opens);
        } else if spec_is_space(c) {
            lemma_run_end(s, i, space_pred());
            lemma_lex_at_ok(s, run_end(s, i, space_pred()), opens);
        }
    }
}

/// Tokenizing succeeds exactly on the well-formed inputs that hold at
/// least one token — balanced parentheses, delimited literals, closed
/// strings, nothing outside the grammar — and then the token count is
/// the grammar's count of atoms and punctuation marks; comments and
/// whitespace contribute no tokens.
pub proof fn lemma_tokenize_well_formed(s: Seq<char>)
    ensures
        spec_tokenize(s) is Ok <==> (lex_ok(s, 0, 0) && token_count_at(s, 0) > 0),
        spec_tokenize(s) matches Ok(toks) ==> toks.len() == token_count_at(s, 0),
{
    lemma_lex_at_ok(s, 0, Seq::empty());
}

/// The models of a sequence of tokens.
pub open spec fn views_of(tokens: Seq<Token>) -> Seq<TokenModel> {
    tokens.map_values(|t: Token| t@)
}

/// The models of a sequence of locations.
pub open spec fn loc_views_of(locs: Seq<Location>) -> Seq<LocModel> {
    locs.map_values(|l: Location| l@)
}

/// Prepends a sequence of tokens to the token sequence of a result,
/// passing an error through unchanged.
pub open spec fn prepend_all(
    ts: Seq<TokenModel>,
    r: Result<Seq<TokenModel>, (LispLexingError, LocModel)>,
) -> Result<Seq<TokenModel>, (LispLexingError, LocModel)> {
    match r {
        Ok(rest) => Ok(ts + rest),
        Err(e) => Err(e),
    }
}

proof fn lemma_prepend_all_nil(r: Result<Seq<TokenModel>, (LispLexingError, LocModel)>)
    ensures
        prepend_all(Seq::empty(), r) == r,
{
    match r {
        Ok(rest) => {
            assert(Seq::empty() + rest =~= rest);
        },
        Err(_) => {},
    }
}

proof fn lemma_prepend_all_push(
    ts: Seq<TokenModel>,
    t: TokenModel,
    r: Result<Seq<TokenModel>, (LispLexingError, LocModel)>,
)
    ensures
        prepend_all(ts.push(t), r) == prepend_all(ts, prepend(t, r)),
{
    match r {
        Ok(rest) => {
            assert(ts.push(t) + rest =~= ts + (seq![t] + rest));
        },
        Err(_) => {},
    }
}

proof fn lemma_views_push(ts: Seq<Token>, t: Token)
    ensures
        views_of(ts.push(t)) == views_of(ts).push(t@),
{
    assert(views_of(ts.push(t)) =~= views_of(ts).push(t@));
}

proof fn lemma_loc_views_push(ls: Seq<Location>, l: Location)
    ensures
        loc_views_of(ls.push(l)) == loc_views_of(ls).push(l@),
{
    assert(loc_views_of(ls.push(l)) =~= loc_views_of(ls).push(l@));
}

proof fn lemma_loc_views_drop_last(ls: Seq<Location>)
    requires
        ls.len() > 0,
    ensures
        loc_views_of(ls.drop_last()) == loc_views_of(ls).drop_last(),
{
    assert(loc_views_of(ls.drop_last()) =~= loc_views_of(ls).drop_last());
}

fn is_newline_char(c: char) -> (r: bool)
    ensures
        r == (c == '\n'),
{
    c == '\n'
}

fn is_string_stop_char(c: char) -> (r: bool)
    ensures
        r == (c == '"' || c == '\n'),
{
    c == '"' || c == '\n'
}

/// Whether the scanner stands at a position that may end a numeric or
/// symbol literal: the end of the input, whitespace, or a parenthesis.
fn at_delimiter(scanner: &Scanner) -> (r: bool)
    requires
        scanner.wf(),
    ensures
        r == spec_is_delimited(scanner.src(), scanner.cursor as int),
{
    let r = scanner.is_empty() || scanner.next_matches(is_space_char) || scanner.next_is_one_of(
        "()",
    );
    proof {
        reveal_strlit("()");
        if scanner.cursor < scanner.src().len() {
            let x = scanner.src()[scanner.cursor as int];
            if x == '(' {
                assert("()"@[0] == x);
                assert("()"@.contains(x));
            } else if x == ')' {
                assert("()"@[1] == x);
                assert("()"@.contains(x));
            } else {
                assert(forall|m: int| 0 <= m < 2 ==> "()"@[m] != x);
                assert(!"()"@.contains(x));
            }
        }
    }
    r
}

/// Turns source text into its token sequence, or reports the first
/// lexical error together with its location, exactly as `spec_tokenize`
/// lays down: unmatched `)` at its own position, unmatched `(` at the
/// earliest unmatched opening, an unterminated string at its opening
/// quote, trailing garbage right after the malformed literal, and `Empty`
/// when the whole input produced no token.
#[verifier::rlimit(100)]
pub fn tokenize(expression: &str) -> (r: Result<Vec<Token>, (LispLexingError, Location)>)
    requires
        expression@.len() < usize::MAX,
    ensures
        match r {
            Ok(tokens) => spec_tokenize(expression@) == Ok::<
                Seq<TokenModel>,
                (LispLexingError, LocModel),
            >(views_of(tokens@)),
            Err(e) => spec_tokenize(expression@) == Err::<
                Seq<TokenModel>,
                (LispLexingError, LocModel),
            >((e.0, e.1@)),
        },
{
    let ghost src = expression@;
    let mut scanner = Scanner::new(expression);

    let mut tokens: Vec<Token> = Vec::new();

    // locations of the opening parentheses not yet matched, earliest first
    let mut unmatched_parens: Vec<Location> = Vec::new();

    proof {
        assert(views_of(tokens@) =~= Seq::<TokenModel>::empty());
        assert(loc_views_of(unmatched_parens@) =~= Seq::<LocModel>::empty());
        lemma_prepend_all_nil(lex_at(src, 0, Seq::empty()));
    }

    while scanner.not_empty()
        invariant
            expression@ == src,
            scanner.wf(),
            scanner.src() == src,
            lex_at(src, 0, Seq::empty()) == prepend_all(
                views_of(tokens@),
                lex_at(src, scanner.cursor as int, loc_views_of(unmatched_parens@)),
            ),
        decreases src.len() - scanner.cursor,
    {
        let ghost i0 = scanner.cursor as int;
        let ghost opens0 = loc_views_of(unmatched_parens@);
        let ghost toks0 = views_of(tokens@);
        let ghost tokens_snap = tokens@;
        let ghost parens_vsnap = unmatched_parens@;

        if scanner.take(';').is_some() {
            let _ = scanner.take_until(is_newline_char);
            proof {
                lemma_run_end_is(src, i0 + 1, comment_pred(), scanner.cursor as int);
                assert(lex_at(src, i0, opens0) == lex_at(src, scanner.cursor as int, opens0));
            }
        } else if scanner.next_is('(') {
            let token = Token { loc: scanner.loc(), inner: TokenType::OpenParen };
            let _ = scanner.next();
            unmatched_parens.push(token.loc);
            tokens.push(token);
            proof {
                let here = line_col_at(src, i0);
                let t = TokenModel { loc: here, kind: TokenKindModel::OpenParen };
                assert(token@ == t);
                assert(lex_at(src, i0, opens0) == prepend(t, lex_at(src, i0 + 1, opens0.push(here))));
                lemma_loc_views_push(parens_vsnap, token.loc);
                lemma_views_push(tokens_snap, token);
                lemma_prepend_all_push(toks0, t, lex_at(src, i0 + 1, opens0.push(here)));
            }
        } else if scanner.next_is(')') {
            if unmatched_parens.len() > 0 {
                let ghost parens_snap = unmatched_parens@;
                let _ = unmatched_parens.pop();
                let token = Token { loc: scanner.loc(), inner: TokenType::CloseParen };
                tokens.push(token);
                let _ = scanner.next();
                proof {
                    let here = line_col_at(src, i0);
                    let t = TokenModel { loc: here, kind: TokenKindModel::CloseParen };
                    assert(token@ == t);
                    assert(opens0.len() > 0);
                    assert(lex_at(src, i0, opens0) == prepend(
                        t,
                        lex_at(src, i0 + 1, opens0.drop_last()),
                    ));
                    lemma_loc_views_drop_last(parens_snap);
                    lemma_views_push(tokens_snap, token);
                    lemma_prepend_all_push(toks0, t, lex_at(src, i0 + 1, opens0.drop_last()));
                }
            } else {
                proof {
                    assert(lex_at(src, i0, opens0) == Err::<
                        Seq<TokenModel>,
                        (LispLexingError, LocModel),
                    >((LispLexingError::UnMatched(')'), line_col_at(src, i0))));
                }
                return Err((LispLexingError::UnMatched(')'), scanner.loc()));
            }
        } else if scanner.next_matches(is_digit_char) {
            let token_start = scanner.loc();
            let num_opt = scanner.take_while(is_digit_char);
            let mut num = match num_opt {
                Some(n) => n,
                None => {
                    proof {
                        assert(false);
                    }
                    String::new()
                },
            };
            let ghost j = scanner.cursor as int;
            proof {
                assert forall|k: int| i0 <= k < j implies digit_pred()(src[k]) by {
                    assert(call_ensures(is_digit_char, (src[k],), true));
                }
                if j < src.len() {
                    assert(call_ensures(is_digit_char, (src[j],), false));
                }
                lemma_run_end_is(src, i0, digit_pred(), j);
            }
            if scanner.take('.').is_some() {
                num.append(".");
                let frac_opt = scanner.take_while(is_digit_char);
                match frac_opt {
                    Some(f) => num.append(f.as_str()),
                    None => (),
                }
                let ghost end = scanner.cursor as int;
                proof {
                    assert forall|k: int| j + 1 <= k < end implies digit_pred()(src[k]) by {
                        assert(call_ensures(is_digit_char, (src[k],), true));
                    }
                    if end < src.len() {
                        assert(call_ensures(is_digit_char, (src[end],), false));
                    }
                    lemma_run_end_is(src, j + 1, digit_pred(), end);
                    reveal_strlit(".");
                    assert(num@ =~= src.subrange(i0, end));
                }
                if at_delimiter(&scanner) {
                    let token = Token { loc: token_start, inner: TokenType::Number(num) };
                    tokens.push(token);
                    proof {
                        let here = line_col_at(src, i0);
                        let t = TokenModel {
                            loc: here,
                            kind: TokenKindModel::Number(src.subrange(i0, end)),
                        };
                        assert(token@ == t);
                        assert(lex_at(src, i0, opens0) == prepend(t, lex_at(src, end, opens0)));
                        lemma_views_push(tokens_snap, token);
                        lemma_prepend_all_push(toks0, t, lex_at(src, end, opens0));
                    }
                } else {
                    proof {
                        assert(lex_at(src, i0, opens0) == Err::<
                            Seq<TokenModel>,
                            (LispLexingError, LocModel),
                        >((LispLexingError::TrailingGarbage, line_col_at(src, end))));
                    }
                    return Err((LispLexingError::TrailingGarbage, scanner.loc()));
                }
            } else if at_delimiter(&scanner) {
                let token = Token { loc: token_start, inner: TokenType::Number(num) };
                tokens.push(token);
                proof {
                    let here = line_col_at(src, i0);
                    let t = TokenModel {
                        loc: here,
                        kind: TokenKindModel::Number(src.subrange(i0, j)),
                    };
                    assert(token@ == t);
                    assert(lex_at(src, i0, opens0) == prepend(t, lex_at(src, j, opens0)));
                    lemma_views_push(tokens_snap, token);
                    lemma_prepend_all_push(toks0, t, lex_at(src, j, opens0));
                }
            } else {
                proof {
                    assert(lex_at(src, i0, opens0) == Err::<
                        Seq<TokenModel>,
                        (LispLexingError, LocModel),
                    >((LispLexingError::TrailingGarbage, line_col_at(src, j))));
                }
                return Err((LispLexingError::TrailingGarbage, scanner.loc()));
            }
        } else if scanner.next_matches(is_symbolic) {
            let token_start = scanner.loc();
            let name_opt = scanner.take_while(is_symbolic);
            let name = match name_opt {
                Some(n) => n,
                None => {
                    proof {
                        assert(false);
                    }
                    String::new()
                },
            };
            let ghost j = scanner.cursor as int;
            proof {
                assert forall|k: int| i0 <= k < j implies symbolic_pred()(src[k]) by {
                    assert(call_ensures(is_symbolic, (src[k],), true));
                }
                if j < src.len() {
                    assert(call_ensures(is_symbolic, (src[j],), false));
                }
                lemma_run_end_is(src, i0, symbolic_pred(), j);
            }
            if at_delimiter(&scanner) {
                let token = Token { loc: token_start, inner: TokenType::Symbol(name) };
                tokens.push(token);
                proof {
                    let here = line_col_at(src, i0);
                    let t = TokenModel {
                        loc: here,
                        kind: TokenKindModel::Symbol(src.subrange(i0, j)),
                    };
                    assert(token@ == t);
                    assert(lex_at(src, i0, opens0) == prepend(t, lex_at(src, j, opens0)));
                    lemma_views_push(tokens_snap, token);
                    lemma_prepend_all_push(toks0, t, lex_at(src, j, opens0));
                }
            } else {
                proof {
                    assert(lex_at(src, i0, opens0) == Err::<
                        Seq<TokenModel>,
                        (LispLexingError, LocModel),
                    >((LispLexingError::TrailingGarbage, line_col_at(src, j))));
                }
                return Err((LispLexingError::TrailingGarbage, scanner.loc()));
            }
        } else if scanner.next_is('"') {
            let first_double_quote = scanner.loc();
            let _ = scanner.next();
            let text_opt = scanner.take_until(is_string_stop_char);
            let text = match text_opt {
                Some(t) => t,
                None => String::new(),
            };
            let ghost j = scanner.cursor as int;
            proof {
                assert forall|k: int| i0 + 1 <= k < j implies string_body_pred()(src[k]) by {
                    assert(call_ensures(is_string_stop_char, (src[k],), false));
                }
                if j < src.len() {
                    assert(call_ensures(is_string_stop_char, (src[j],), true));
                }
                lemma_run_end_is(src, i0 + 1, string_body_pred(), j);
                assert(text@ =~= src.subrange(i0 + 1, j));
            }
            if scanner.next_is('"') {
                let _ = scanner.next();
                let token = Token { loc: first_double_quote, inner: TokenType::String(text) };
                tokens.push(token);
                proof {
                    let here = line_col_at(src, i0);
                    let t = TokenModel {
                        loc: here,
                        kind: TokenKindModel::String(src.subrange(i0 + 1, j)),
                    };
                    assert(token@ == t);
                    assert(lex_at(src, i0, opens0) == prepend(t, lex_at(src, j + 1, opens0)));
                    lemma_views_push(tokens_snap, token);
                    lemma_prepend_all_push(toks0, t, lex_at(src, j + 1, opens0));
                }
            } else {
                proof {
                    assert(lex_at(src, i0, opens0) == Err::<
                        Seq<TokenModel>,
                        (LispLexingError, LocModel),
                    >((LispLexingError::UnMatched('"'), line_col_at(src, i0))));
                }
                return Err((LispLexingError::UnMatched('"'), first_double_quote));
            }
        } else if scanner.next_is('\'') {
            let token = Token { loc: scanner.loc(), inner: TokenType::Quote };
            let _ = scanner.next();
            tokens.push(token);
            proof {
                let here = line_col_at(src, i0);
                let t = TokenModel { loc: here, kind: TokenKindModel::Quote };
                assert(token@ == t);
                assert(lex_at(src, i0, opens0) == prepend(t, lex_at(src, i0 + 1, opens0)));
                lemma_views_push(tokens_snap, token);
                lemma_prepend_all_push(toks0, t, lex_at(src, i0 + 1, opens0));
            }
        } else if scanner.next_is('.') {
            let token = Token { loc: scanner.loc(), inner: TokenType::Dot };
            let _ = scanner.next();
            tokens.push(token);
            proof {
                let here = line_col_at(src, i0);
                let t = TokenModel { loc: here, kind: TokenKindModel::Dot };
                assert(token@ == t);
                assert(lex_at(src, i0, opens0) == prepend(t, lex_at(src, i0 + 1, opens0)));
                lemma_views_push(tokens_snap, token);
                lemma_prepend_all_push(toks0, t, lex_at(src, i0 + 1, opens0));
            }
        } else if scanner.next_is('`') {
            let token = Token { loc: scanner.loc(), inner: TokenType::Quasiquote };
            let _ = scanner.next();
            tokens.push(token);
            proof {
                let here = line_col_at(src, i0);
                let t = TokenModel { loc: here, kind: TokenKindModel::Quasiquote };
                assert(token@ == t);
                assert(lex_at(src, i0, opens0) == prepend(t, lex_at(src, i0 + 1, opens0)));
                lemma_views_push(tokens_snap, token);
                lemma_prepend_all_push(toks0, t, lex_at(src, i0 + 1, opens0));
            }
        } else if scanner.next_is(',') {
            let token = Token { loc: scanner.loc(), inner: TokenType::Unquote };
            let _ = scanner.next();
            tokens.push(token);
            proof {
                let here = line_col_at(src, i0);
                let t = TokenModel { loc: here, kind: TokenKindModel::Unquote };
                assert(token@ == t);
                assert(lex_at(src, i0, opens0) == prepend(t, lex_at(src, i0 + 1, opens0)));
                lemma_views_push(tokens_snap, token);
                lemma_prepend_all_push(toks0, t, lex_at(src, i0 + 1, opens0));
            }
        } else if scanner.next_matches(is_space_char) {
            let _ = scanner.take_while(is_space_char);
            proof {
                let j = scanner.cursor as int;
                assert forall|k: int| i0 <= k < j implies space_pred()(src[k]) by {
                    assert(call_ensures(is_space_char, (src[k],), true));
                }
                if j < src.len() {
                    assert(call_ensures(is_space_char, (src[j],), false));
                }
                lemma_run_end_is(src, i0, space_pred(), j);
                assert(lex_at(src, i0, opens0) == lex_at(src, j, opens0));
            }
        } else {
            let c = match scanner.peek() {
                Some(c) => c,
                None => {
                    proof {
                        assert(false);
                    }
                    ' '
                },
            };
            proof {
                assert(lex_at(src, i0, opens0) == Err::<
                    Seq<TokenModel>,
                    (LispLexingError, LocModel),
                >((LispLexingError::UnKnownChar(src[i0]), line_col_at(src, i0))));
            }
            return Err((LispLexingError::UnKnownChar(c), scanner.loc()));
        }
    }

    if unmatched_parens.len() > 0 {
        let loc0 = unmatched_parens[0];
        proof {
            assert(loc_views_of(unmatched_parens@).len() > 0);
            assert(loc_views_of(unmatched_parens@)[0] == loc0@);
            assert(lex_at(src, scanner.cursor as int, loc_views_of(unmatched_parens@)) == Err::<
                Seq<TokenModel>,
                (LispLexingError, LocModel),
            >((LispLexingError::UnMatched('('), loc0@)));
        }
        return Err((LispLexingError::UnMatched('('), loc0));
    }

    proof {
        assert(loc_views_of(unmatched_parens@).len() == 0);
        assert(lex_at(src, scanner.cursor as int, loc_views_of(unmatched_parens@)) == Ok::<
            Seq<TokenModel>,
            (LispLexingError, LocModel),
        >(Seq::empty()));
        assert(views_of(tokens@) + Seq::<TokenModel>::empty() =~= views_of(tokens@));
    }

    if tokens.len() == 0 {
        Err((LispLexingError::Empty, scanner.loc()))
    } else {
        Ok(tokens)
    }
}

} // verus!
