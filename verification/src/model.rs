//! Mathematical model of the scan: character classes, maximal runs, and a
//! recursive specification function that maps a source text (as a sequence
//! of characters), a cursor and a line counter to the exact token sequence,
//! the accumulated non-fatal reports, and the final line counter — or to
//! the line of a fatal unterminated string.

use vstd::prelude::*;
use crate::token::{TokenType, TokenView, UnexpectedCharView, Token, UnexpectedChar, keyword_kind};

verus! {

/// ASCII decimal digit.
pub open spec fn is_digit_char(c: char) -> bool {
    '0' <= c && c <= '9'
}

/// ASCII letter or underscore: what may start an identifier.
pub open spec fn is_alpha_char(c: char) -> bool {
    ('a' <= c && c <= 'z') || ('A' <= c && c <= 'Z') || c == '_'
}

/// What may continue an identifier.
pub open spec fn is_ident_char(c: char) -> bool {
    is_alpha_char(c) || is_digit_char(c)
}

/// Horizontal whitespace, skipped without effect on the line counter.
pub open spec fn is_blank_char(c: char) -> bool {
    c == ' ' || c == '\t' || c == '\r'
}

/// End of the maximal digit run that starts at `i`.
pub open spec fn digit_run_end(s: Seq<char>, i: int) -> int
    decreases s.len() - i when 0 <= i <= s.len()
{
    if i >= s.len() || !is_digit_char(s[i]) {
        i
    } else {
        digit_run_end(s, i + 1)
    }
}

/// End of the maximal identifier-character run that starts at `i`.
pub open spec fn ident_run_end(s: Seq<char>, i: int) -> int
    decreases s.len() - i when 0 <= i <= s.len()
{
    if i >= s.len() || !is_ident_char(s[i]) {
        i
    } else {
        ident_run_end(s, i + 1)
    }
}

/// First position at or after `i` holding `c`, or `s.len()` if there is none.
pub open spec fn find_from(s: Seq<char>, i: int, c: char) -> int
    decreases s.len() - i when 0 <= i <= s.len()
{
    if i >= s.len() || s[i] == c {
        i
    } else {
        find_from(s, i + 1, c)
    }
}

/// Number of newline characters in `s[i..j]`.
pub open spec fn count_nl(s: Seq<char>, i: int, j: int) -> int
    decreases j - i,
{
    if i >= j {
        0
    } else {
        count_nl(s, i, j - 1) + (if s[j - 1] == '\n' { 1int } else { 0int })
    }
}

pub proof fn lemma_digit_run_end(s: Seq<char>, i: int)
    requires
        0 <= i <= s.len(),
    ensures
        i <= digit_run_end(s, i) <= s.len(),
        forall|j: int| i <= j < digit_run_end(s, i) ==> is_digit_char(s[j]),
        digit_run_end(s, i) < s.len() ==> !is_digit_char(s[digit_run_end(s, i)]),
    decreases s.len() - i,
{
    if i < s.len() && is_digit_char(s[i]) {
        lemma_digit_run_end(s, i + 1);
    }
}

pub proof fn lemma_ident_run_end(s: Seq<char>, i: int)
    requires
        0 <= i <= s.len(),
    ensures
        i <= ident_run_end(s, i) <= s.len(),
        forall|j: int| i <= j < ident_run_end(s, i) ==> is_ident_char(s[j]),
        ident_run_end(s, i) < s.len() ==> !is_ident_char(s[ident_run_end(s, i)]),
    decreases s.len() - i,
{
    if i < s.len() && is_ident_char(s[i]) {
        lemma_ident_run_end(s, i + 1);
    }
}

pub proof fn lemma_find_from(s: Seq<char>, i: int, c: char)
    requires
        0 <= i <= s.len(),
    ensures
        i <= find_from(s, i, c) <= s.len(),
        forall|j: int| i <= j < find_from(s, i, c) ==> s[j] != c,
        find_from(s, i, c) < s.len() ==> s[find_from(s, i, c)] == c,
    decreases s.len() - i,
{
    if i < s.len() && s[i] != c {
        lemma_find_from(s, i + 1, c);
    }
}

pub proof fn lemma_count_nl_bounds(s: Seq<char>, i: int, j: int)
    requires
        i <= j,
    ensures
        0 <= count_nl(s, i, j) <= j - i,
    decreases j - i,
{
    if i < j {
        lemma_count_nl_bounds(s, i, j - 1);
    }
}

/// One dispatch step of the scanner, started at position `i` with line
/// counter `line`: where the cursor moves, the new line counter, and what
/// (if anything) is emitted.
#[verifier::ext_equal]
pub ghost enum Step {
    /// A token is emitted; `line` is the counter after the step (it moves
    /// only for multi-line string literals).
    Tok { next: int, line: int, token: TokenView },
    /// Nothing is emitted: whitespace, a newline, or a line comment.
    Skip { next: int, line: int },
    /// A byte that starts no token: recorded, cursor moves one past it.
    Reject { next: int, ch: char },
    /// End of input inside a string literal; `line` is the counter at the
    /// end of the input.
    Halt { line: int },
}

/// The token view for a fixed-spelling token spanning `s[i..next]`.
pub open spec fn punct_token(tt: TokenType, s: Seq<char>, i: int, next: int, line: int) -> TokenView {
    TokenView { token_type: tt, lexeme: s.subrange(i, next), literal: Option::None, line }
}

/// The final token of every successful scan: `Eof` with an empty lexeme.
pub open spec fn eof_view(line: int) -> TokenView {
    TokenView {
        token_type: TokenType::Eof,
        lexeme: Seq::empty(),
        literal: Option::None,
        line,
    }
}

/// Where the number literal that starts with the digit at `i` ends: the
/// maximal digit run, extended across a dot only when at least one digit
/// follows the dot (a trailing dot is not part of the number).
pub open spec fn number_end(s: Seq<char>, i: int) -> int {
    let j = digit_run_end(s, i + 1);
    if j < s.len() && s[j] == '.' && j + 1 < s.len() && is_digit_char(s[j + 1]) {
        digit_run_end(s, j + 1)
    } else {
        j
    }
}

/// Classify and consume exactly one construct at position `i` of `s`.
pub open spec fn scan_step(s: Seq<char>, i: int, line: int) -> Step
    recommends
        0 <= i < s.len(),
{
    let c = s[i];
    if c == '(' {
        Step::Tok { next: i + 1, line, token: punct_token(TokenType::LeftParen, s, i, i + 1, line) }
    } else if c == ')' {
        Step::Tok { next: i + 1, line, token: punct_token(TokenType::RightParen, s, i, i + 1, line) }
    } else if c == '{' {
        Step::Tok { next: i + 1, line, token: punct_token(TokenType::LeftBrace, s, i, i + 1, line) }
    } else if c == '}' {
        Step::Tok { next: i + 1, line, token: punct_token(TokenType::RightBrace, s, i, i + 1, line) }
    } else if c == ',' {
        Step::Tok { next: i + 1, line, token: punct_token(TokenType::Comma, s, i, i + 1, line) }
    } else if c == '.' {
        Step::Tok { next: i + 1, line, token: punct_token(TokenType::Dot, s, i, i + 1, line) }
    } else if c == '-' {
        Step::Tok { next: i + 1, line, token: punct_token(TokenType::Minus, s, i, i + 1, line) }
    } else if c == '+' {
        Step::Tok { next: i + 1, line, token: punct_token(TokenType::Plus, s, i, i + 1, line) }
    } else if c == ';' {
        Step::Tok { next: i + 1, line, token: punct_token(TokenType::Semicolon, s, i, i + 1, line) }
    } else if c == '*' {
        Step::Tok { next: i + 1, line, token: punct_token(TokenType::Star, s, i, i + 1, line) }
    } else if c == '!' || c == '=' || c == '<' || c == '>' {
        let two = i + 1 < s.len() && s[i + 1] == '=';
        let next = if two { i + 2 } else { i + 1 };
        let tt = if c == '!' {
            if two { TokenType::BangEqual } else { TokenType::Bang }
        } else if c == '=' {
            if two { TokenType::EqualEqual } else { TokenType::Equal }
        } else if c == '<' {
            if two { TokenType::LessEqual } else { TokenType::Less }
        } else {
            if two { TokenType::GreaterEqual } else { TokenType::Greater }
        };
        Step::Tok { next, line, token: punct_token(tt, s, i, next, line) }
    } else if is_blank_char(c) {
        Step::Skip { next: i + 1, line }
    } else if c == '\n' {
        Step::Skip { next: i + 1, line: line + 1 }
    } else if c == '/' {
        if i + 1 < s.len() && s[i + 1] == '/' {
            // A line comment runs to the end of the line; the newline
            // itself is left for the next step.
            Step::Skip { next: find_from(s, i + 2, '\n'), line }
        } else {
            Step::Tok { next: i + 1, line, token: punct_token(TokenType::Slash, s, i, i + 1, line) }
        }
    } else if c == '"' {
        let close = find_from(s, i + 1, '"');
        if close >= s.len() {
            Step::Halt { line: line + count_nl(s, i + 1, s.len() as int) }
        } else {
            Step::Tok {
                next: close + 1,
                line: line + count_nl(s, i + 1, close),
                token: TokenView {
                    token_type: TokenType::String,
                    lexeme: s.subrange(i, close + 1),
                    literal: Option::Some(s.subrange(i + 1, close)),
                    line,
                },
            }
        }
    } else if is_digit_char(c) {
        let next = number_end(s, i);
        Step::Tok {
            next,
            line,
            token: TokenView {
                token_type: TokenType::Number,
                lexeme: s.subrange(i, next),
                literal: Option::Some(s.subrange(i, next)),
                line,
            },
        }
    } else if is_alpha_char(c) {
        let next = ident_run_end(s, i + 1);
        Step::Tok {
            next,
            line,
            token: TokenView {
                token_type: keyword_kind(s.subrange(i, next)),
                lexeme: s.subrange(i, next),
                literal: Option::None,
                line,
            },
        }
    } else {
        Step::Reject { next: i + 1, ch: c }
    }
}

/// Every step either halts or moves the cursor forward, never past the end.
pub proof fn lemma_scan_step_bounds(s: Seq<char>, i: int, line: int)
    requires
        0 <= i < s.len(),
    ensures
        (match scan_step(s, i, line) {
            Step::Tok { next, .. } => i < next <= s.len(),
            Step::Skip { next, .. } => i < next <= s.len(),
            Step::Reject { next, .. } => next == i + 1,
            Step::Halt { .. } => true,
        }),
{
    let c = s[i];
    if c == '/' && i + 1 < s.len() && s[i + 1] == '/' {
        lemma_find_from(s, i + 2, '\n');
    }
    if c == '"' {
        lemma_find_from(s, i + 1, '"');
    }
    if is_digit_char(c) {
        lemma_digit_run_end(s, i + 1);
        let j = digit_run_end(s, i + 1);
        if j < s.len() && s[j] == '.' && j + 1 < s.len() && is_digit_char(s[j + 1]) {
            lemma_digit_run_end(s, j + 1);
        }
    }
    if is_alpha_char(c) {
        lemma_ident_run_end(s, i + 1);
    }
}

/// Everything a successful scan yields: the tokens in order (ending in
/// `Eof`), the unexpected-character reports in order, and the final value
/// of the line counter.
#[verifier::ext_equal]
pub ghost struct ScanOut {
    pub tokens: Seq<TokenView>,
    pub rejects: Seq<UnexpectedCharView>,
    pub end_line: int,
}

/// The whole scan from position `i` with line counter `line`: the token
/// sequence and report list it produces, or `Err` with the line counter at
/// the end of the input if a string literal is left unterminated.
pub open spec fn scan_from(s: Seq<char>, i: int, line: int) -> Result<ScanOut, int>
    decreases s.len() - i
        when 0 <= i <= s.len()
        via scan_from_decreases
{
    if i >= s.len() {
        Result::Ok(ScanOut { tokens: seq![eof_view(line)], rejects: Seq::empty(), end_line: line })
    } else {
        match scan_step(s, i, line) {
            Step::Tok { next, line: l2, token } => match scan_from(s, next, l2) {
                Result::Ok(out) => Result::Ok(ScanOut {
                    tokens: seq![token] + out.tokens,
                    rejects: out.rejects,
                    end_line: out.end_line,
                }),
                Result::Err(l) => Result::Err(l),
            },
            Step::Skip { next, line: l2 } => scan_from(s, next, l2),
            Step::Reject { next, ch } => match scan_from(s, next, line) {
                Result::Ok(out) => Result::Ok(ScanOut {
                    tokens: out.tokens,
                    rejects: seq![UnexpectedCharView { line, ch }] + out.rejects,
                    end_line: out.end_line,
                }),
                Result::Err(l) => Result::Err(l),
            },
            Step::Halt { line: l } => Result::Err(l),
        }
    }
}

#[via_fn]
proof fn scan_from_decreases(s: Seq<char>, i: int, line: int) {
    if 0 <= i < s.len() {
        lemma_scan_step_bounds(s, i, line);
    }
}

/// The views of a sequence of scanned tokens.
pub open spec fn token_views(ts: Seq<Token>) -> Seq<TokenView> {
    ts.map_values(|t: Token| t@)
}

/// The views of a sequence of unexpected-character reports.
pub open spec fn reject_views(es: Seq<UnexpectedChar>) -> Seq<UnexpectedCharView> {
    es.map_values(|e: UnexpectedChar| e@)
}

pub proof fn lemma_token_views_push(ts: Seq<Token>, t: Token)
    ensures
        token_views(ts.push(t)) == token_views(ts).push(t@),
{
    assert(token_views(ts.push(t)) =~= token_views(ts).push(t@));
}

pub proof fn lemma_reject_views_push(es: Seq<UnexpectedChar>, e: UnexpectedChar)
    ensures
        reject_views(es.push(e)) == reject_views(es).push(e@),
{
    assert(reject_views(es.push(e)) =~= reject_views(es).push(e@));
}

} // verus!
