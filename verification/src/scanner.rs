//! The scanner: a single forward cursor over an ASCII source buffer, with
//! one-character lookahead, that produces the token sequence the model in
//! `crate::model` describes.

use vstd::prelude::*;
use crate::token::{Token, TokenType, TokenView, ScanError, UnexpectedChar, UnexpectedCharView, opt_view};
use crate::token::{keyword_kind, keyword_or_identifier};
use crate::model::{
    is_digit_char, is_alpha_char, is_ident_char,
    digit_run_end, ident_run_end, find_from, count_nl, number_end,
    lemma_digit_run_end, lemma_ident_run_end, lemma_find_from, lemma_count_nl_bounds,
    token_views, reject_views, lemma_token_views_push, lemma_reject_views_push,
    Step, ScanOut, scan_step, scan_from, eof_view, lemma_scan_step_bounds,
};

verus! {

/// Single-pass lexical scanner. It borrows the source read-only for its
/// lifetime, keeps a cursor (`start` marks the token under construction,
/// `current` the next unread character), counts lines from 1, and grows the
/// token and report lists. Each scan is independent: nothing persists
/// between scanners.
pub struct Scanner<'a> {
    pub source: &'a str,
    pub tokens: Vec<Token>,
    pub errors: Vec<UnexpectedChar>,
    pub start: usize,
    pub current: usize,
    pub line: usize,
}

impl<'a> Scanner<'a> {
    /// The scanner's invariant: the source is ASCII (one byte per
    /// character, so byte offsets are character offsets), the cursor stays
    /// inside the buffer, and the line counter — which grows by at most one
    /// per consumed character — cannot overflow before the end of input.
    pub open spec fn wf(&self) -> bool {
        &&& self.source.is_ascii()
        &&& self.source@.len() + 1 <= usize::MAX
        &&& self.start <= self.current <= self.source@.len()
        &&& 1 <= self.line
        &&& self.line + self.source@.len() - self.current <= usize::MAX
    }

    /// Fresh scanner over `source`, positioned at the start of line 1 with
    /// nothing scanned. Non-ASCII input is a construction-time contract
    /// violation (downstream indexing assumes one byte per character), so
    /// the caller must validate encoding first; the length bound keeps the
    /// line counter within machine range on any input.
    pub fn new(source: &'a str) -> (s: Scanner<'a>)
        requires
            source.is_ascii(),
            source@.len() + 1 <= usize::MAX,
        ensures
            s.wf(),
            s.source == source,
            s.tokens@ == Seq::<Token>::empty(),
            s.errors@ == Seq::<UnexpectedChar>::empty(),
            s.start == 0,
            s.current == 0,
            s.line == 1,
    {
        Scanner {
            source,
            // Pre-size to the input length as a capacity hint.
            tokens: Vec::with_capacity(source.unicode_len()),
            errors: Vec::new(),
            start: 0,
            current: 0,
            line: 1,
        }
    }

    /// Whether every character has been consumed.
    pub fn is_at_end(&self) -> (r: bool)
        requires
            self.wf(),
        ensures
            r == (self.current >= self.source@.len()),
    {
        self.current >= self.source.unicode_len()
    }

    /// Consume and return the next character.
    pub fn advance(&mut self) -> (c: char)
        requires
            old(self).wf(),
            old(self).current < old(self).source@.len(),
        ensures
            final(self).wf(),
            c == old(self).source@[old(self).current as int],
            final(self).current == old(self).current + 1,
            *final(self) == (Scanner { current: final(self).current, ..*old(self) }),
    {
        let c = self.source.get_char(self.current);
        self.current = self.current + 1;
        c
    }

    /// The next unread character, or `'\0'` at the end of input; never
    /// reads past the buffer and never moves the cursor.
    pub fn peek(&self) -> (c: char)
        requires
            self.wf(),
        ensures
            c == (if self.current < self.source@.len() {
                self.source@[self.current as int]
            } else {
                '\0'
            }),
    {
        if self.is_at_end() {
            '\0'
        } else {
            self.source.get_char(self.current)
        }
    }

    /// The character after the next one, or `'\0'` if out of range.
    pub fn peek_next(&self) -> (c: char)
        requires
            self.wf(),
        ensures
            c == (if self.current + 1 < self.source@.len() {
                self.source@[self.current as int + 1]
            } else {
                '\0'
            }),
    {
        if self.current + 1 >= self.source.unicode_len() {
            '\0'
        } else {
            self.source.get_char(self.current + 1)
        }
    }

    /// Consume the next character only if it equals `expected`; otherwise
    /// leave the cursor unmoved.
    pub fn match_next(&mut self, expected: char) -> (r: bool)
        requires
            old(self).wf(),
        ensures
            final(self).wf(),
            r == (old(self).current < old(self).source@.len()
                && old(self).source@[old(self).current as int] == expected),
            final(self).current as int == (if r { old(self).current + 1 } else { old(self).current as int }),
            *final(self) == (Scanner { current: final(self).current, ..*old(self) }),
    {
        if self.is_at_end() {
            return false;
        }
        if self.source.get_char(self.current) != expected {
            return false;
        }
        self.current = self.current + 1;
        true
    }

    /// ASCII decimal digit test.
    pub fn is_digit(&self, c: char) -> (r: bool)
        ensures
            r == is_digit_char(c),
    {
        c >= '0' && c <= '9'
    }

    /// ASCII letter-or-underscore test: what may start an identifier.
    pub fn is_alpha(&self, c: char) -> (r: bool)
        ensures
            r == is_alpha_char(c),
    {
        (c >= 'a' && c <= 'z') || (c >= 'A' && c <= 'Z') || c == '_'
    }

    /// What may continue an identifier.
    pub fn is_alphanumeric(&self, c: char) -> (r: bool)
        ensures
            r == is_ident_char(c),
    {
        self.is_alpha(c) || self.is_digit(c)
    }

    /// Append one token of the given category: its lexeme is the exact
    /// source substring from `start` to `current`, its line the current
    /// line counter.
    pub fn add_token(&mut self, token_type: TokenType, literal: Option<String>)
        requires
            old(self).wf(),
        ensures
            final(self).wf(),
            token_views(final(self).tokens@) == token_views(old(self).tokens@).push(
                (TokenView {
                    token_type,
                    lexeme: old(self).source@.subrange(
                        old(self).start as int,
                        old(self).current as int,
                    ),
                    literal: opt_view(literal),
                    line: old(self).line as int,
                }),
            ),
            *final(self) == (Scanner { tokens: final(self).tokens, ..*old(self) }),
    {
        let lexeme_slice = self.source.substring_ascii(self.start, self.current);
        let tok = Token {
            token_type,
            lexeme: lexeme_slice.to_owned(),
            literal,
            line: self.line,
        };
        proof {
            lemma_token_views_push(self.tokens@, tok);
        }
        self.tokens.push(tok);
    }

    /// Scan the rest of a number literal whose first digit has just been
    /// consumed: the maximal digit run, extended across a dot only when at
    /// least one digit follows it (a trailing dot is left for the next
    /// token). The decoded literal is the matched text itself.
    #[verifier::loop_isolation(false)]
    pub fn number(&mut self)
        requires
            old(self).wf(),
            old(self).start < old(self).source@.len(),
            old(self).current == old(self).start + 1,
            is_digit_char(old(self).source@[old(self).start as int]),
        ensures
            final(self).wf(),
            final(self).current as int == number_end(old(self).source@, old(self).start as int),
            token_views(final(self).tokens@) == token_views(old(self).tokens@).push(
                (TokenView {
                    token_type: TokenType::Number,
                    lexeme: old(self).source@.subrange(
                        old(self).start as int,
                        number_end(old(self).source@, old(self).start as int),
                    ),
                    literal: Option::Some(old(self).source@.subrange(
                        old(self).start as int,
                        number_end(old(self).source@, old(self).start as int),
                    )),
                    line: old(self).line as int,
                }),
            ),
            *final(self) == (Scanner {
                tokens: final(self).tokens,
                current: final(self).current,
                ..*old(self)
            }),
    {
        let ghost s = self.source@;
        let ghost d1 = digit_run_end(s, old(self).start + 1);
        proof {
            lemma_digit_run_end(s, old(self).start + 1);
        }
        while self.is_digit(self.peek())
            invariant
                self.wf(),
                self.source == old(self).source,
                self.start == old(self).start,
                self.line == old(self).line,
                self.tokens == old(self).tokens,
                self.errors == old(self).errors,
                old(self).start + 1 <= self.current as int <= d1,
            decreases s.len() - self.current,
        {
            proof {
                lemma_digit_run_end(s, old(self).start + 1);
            }
            self.advance();
        }
        proof {
            lemma_digit_run_end(s, old(self).start + 1);
            assert(self.current as int == d1);
        }
        if self.peek() == '.' && self.is_digit(self.peek_next()) {
            // Consume the dot, then the fractional digit run.
            self.advance();
            let ghost d2 = digit_run_end(s, d1 + 1);
            proof {
                lemma_digit_run_end(s, d1 + 1);
            }
            while self.is_digit(self.peek())
                invariant
                    self.wf(),
                    self.source == old(self).source,
                    self.start == old(self).start,
                    self.line == old(self).line,
                    self.tokens == old(self).tokens,
                    self.errors == old(self).errors,
                    d1 + 1 <= self.current as int <= d2,
                decreases s.len() - self.current,
            {
                proof {
                    lemma_digit_run_end(s, d1 + 1);
                }
                self.advance();
            }
            proof {
                lemma_digit_run_end(s, d1 + 1);
                assert(self.current as int == d2);
            }
        }
        let value_slice = self.source.substring_ascii(self.start, self.current);
        let value = value_slice.to_owned();
        self.add_token(TokenType::Number, Option::Some(value));
    }

    /// Scan the rest of a string literal whose opening quote has just been
    /// consumed. Strings may span lines; the emitted token carries the line
    /// on which the string started, while the scanner's counter moves to
    /// the line on which it ends. Reaching the end of input first is the
    /// one fatal scan error, reported with the line at the end of input.
    #[verifier::loop_isolation(false)]
    pub fn string(&mut self) -> (r: Result<(), ScanError>)
        requires
            old(self).wf(),
            old(self).start < old(self).source@.len(),
            old(self).current == old(self).start + 1,
            old(self).source@[old(self).start as int] == '"',
        ensures
            final(self).wf(),
            final(self).source == old(self).source,
            final(self).start == old(self).start,
            ({
                let s = old(self).source@;
                let i = old(self).start as int;
                let close = find_from(s, i + 1, '"');
                if close >= s.len() {
                    &&& (match r {
                        Result::Err(ScanError::UnterminatedString { line }) =>
                            line as int == old(self).line + count_nl(s, i + 1, s.len() as int),
                        _ => false,
                    })
                    &&& final(self).tokens == old(self).tokens
                    &&& final(self).errors == old(self).errors
                } else {
                    &&& r == Result::Ok::<(), ScanError>(())
                    &&& final(self).current as int == close + 1
                    &&& final(self).line as int == old(self).line + count_nl(s, i + 1, close)
                    &&& token_views(final(self).tokens@) == token_views(old(self).tokens@).push(
                        (TokenView {
                            token_type: TokenType::String,
                            lexeme: s.subrange(i, close + 1),
                            literal: Option::Some(s.subrange(i + 1, close)),
                            line: old(self).line as int,
                        }),
                    )
                    &&& final(self).errors == old(self).errors
                }
            }),
    {
        let ghost s = self.source@;
        let ghost i0 = old(self).start + 1 as int;
        let ghost close = find_from(s, i0, '"');
        // Newlines crossed inside the literal; folded into the line counter
        // only once the token (which carries its starting line) is out.
        let mut nl: usize = 0;
        proof {
            lemma_find_from(s, i0, '"');
        }
        while self.peek() != '"' && !self.is_at_end()
            invariant
                self.wf(),
                self.source == old(self).source,
                self.start == old(self).start,
                self.line == old(self).line,
                self.tokens == old(self).tokens,
                self.errors == old(self).errors,
                i0 <= self.current as int <= close,
                nl as int == count_nl(s, i0, self.current as int),
            decreases s.len() - self.current,
        {
            proof {
                lemma_find_from(s, i0, '"');
                lemma_count_nl_bounds(s, i0, self.current as int);
            }
            let c = self.advance();
            if c == '\n' {
                nl = nl + 1;
            }
        }
        proof {
            lemma_find_from(s, i0, '"');
            lemma_count_nl_bounds(s, i0, self.current as int);
        }
        if self.is_at_end() {
            return Result::Err(ScanError::UnterminatedString { line: self.line + nl });
        }
        proof {
            assert(self.current as int == close);
        }
        // Consume the closing quote; the literal is the text strictly
        // between the quotes.
        self.advance();
        let value_slice = self.source.substring_ascii(self.start + 1, self.current - 1);
        let value = value_slice.to_owned();
        self.add_token(TokenType::String, Option::Some(value));
        self.line = self.line + nl;
        Result::Ok(())
    }

    /// Scan the rest of an identifier whose first character has just been
    /// consumed: the maximal run of letters, digits and underscores, then
    /// resolve the lexeme against the keyword table.
    #[verifier::loop_isolation(false)]
    pub fn identifier(&mut self)
        requires
            old(self).wf(),
            old(self).start < old(self).source@.len(),
            old(self).current == old(self).start + 1,
            is_alpha_char(old(self).source@[old(self).start as int]),
        ensures
            final(self).wf(),
            final(self).current as int == ident_run_end(old(self).source@, old(self).start + 1),
            token_views(final(self).tokens@) == token_views(old(self).tokens@).push(
                (TokenView {
                    token_type: keyword_kind(old(self).source@.subrange(
                        old(self).start as int,
                        ident_run_end(old(self).source@, old(self).start + 1),
                    )),
                    lexeme: old(self).source@.subrange(
                        old(self).start as int,
                        ident_run_end(old(self).source@, old(self).start + 1),
                    ),
                    literal: Option::None,
                    line: old(self).line as int,
                }),
            ),
            *final(self) == (Scanner {
                tokens: final(self).tokens,
                current: final(self).current,
                ..*old(self)
            }),
    {
        let ghost s = self.source@;
        let ghost e = ident_run_end(s, old(self).start + 1);
        proof {
            lemma_ident_run_end(s, old(self).start + 1);
        }
        while self.is_alphanumeric(self.peek())
            invariant
                self.wf(),
                self.source == old(self).source,
                self.start == old(self).start,
                self.line == old(self).line,
                self.tokens == old(self).tokens,
                self.errors == old(self).errors,
                old(self).start + 1 <= self.current as int <= e,
            decreases s.len() - self.current,
        {
            proof {
                lemma_ident_run_end(s, old(self).start + 1);
            }
            self.advance();
        }
        proof {
            lemma_ident_run_end(s, old(self).start + 1);
            assert(self.current as int == e);
        }
        let lex_slice = self.source.substring_ascii(self.start, self.current);
        let tt = keyword_or_identifier(lex_slice);
        self.add_token(tt, Option::None);
    }

    /// Consume one character and classify it, performing exactly one step
    /// of the model: emit a token, skip whitespace or a comment, record an
    /// unexpected character and keep going, or fail on an unterminated
    /// string.
    #[verifier::loop_isolation(false)]
    fn scan_token(&mut self) -> (r: Result<(), ScanError>)
        requires
            old(self).wf(),
            old(self).current < old(self).source@.len(),
            old(self).start == old(self).current,
        ensures
            final(self).wf(),
            final(self).source == old(self).source,
            final(self).start == old(self).start,
            (match scan_step(old(self).source@, old(self).current as int, old(self).line as int) {
                Step::Tok { next, line, token } => {
                    &&& r == Result::Ok::<(), ScanError>(())
                    &&& final(self).current as int == next
                    &&& final(self).line as int == line
                    &&& token_views(final(self).tokens@) == token_views(old(self).tokens@).push(token)
                    &&& final(self).errors == old(self).errors
                },
                Step::Skip { next, line } => {
                    &&& r == Result::Ok::<(), ScanError>(())
                    &&& final(self).current as int == next
                    &&& final(self).line as int == line
                    &&& final(self).tokens == old(self).tokens
                    &&& final(self).errors == old(self).errors
                },
                Step::Reject { next, ch } => {
                    &&& r == Result::Ok::<(), ScanError>(())
                    &&& final(self).current as int == next
                    &&& final(self).line == old(self).line
                    &&& final(self).tokens == old(self).tokens
                    &&& reject_views(final(self).errors@) == reject_views(old(self).errors@).push(
                        (UnexpectedCharView { line: old(self).line as int, ch }),
                    )
                },
                Step::Halt { line } => {
                    &&& (match r {
                        Result::Err(ScanError::UnterminatedString { line: el }) => el as int == line,
                        _ => false,
                    })
                    &&& final(self).tokens == old(self).tokens
                    &&& final(self).errors == old(self).errors
                },
            }),
    {
        let c = self.advance();
        match c {
            '(' => self.add_token(TokenType::LeftParen, Option::None),
            ')' => self.add_token(TokenType::RightParen, Option::None),
            '{' => self.add_token(TokenType::LeftBrace, Option::None),
            '}' => self.add_token(TokenType::RightBrace, Option::None),
            ',' => self.add_token(TokenType::Comma, Option::None),
            '.' => self.add_token(TokenType::Dot, Option::None),
            '-' => self.add_token(TokenType::Minus, Option::None),
            '+' => self.add_token(TokenType::Plus, Option::None),
            ';' => self.add_token(TokenType::Semicolon, Option::None),
            '*' => self.add_token(TokenType::Star, Option::None),
            '!' => {
                let token_type = if self.match_next('=') {
                    TokenType::BangEqual
                } else {
                    TokenType::Bang
                };
                self.add_token(token_type, Option::None);
            },
            '=' => {
                let token_type = if self.match_next('=') {
                    TokenType::EqualEqual
                } else {
                    TokenType::Equal
                };
                self.add_token(token_type, Option::None);
            },
            '<' => {
                let token_type = if self.match_next('=') {
                    TokenType::LessEqual
                } else {
                    TokenType::Less
                };
                self.add_token(token_type, Option::None);
            },
            '>' => {
                let token_type = if self.match_next('=') {
                    TokenType::GreaterEqual
                } else {
                    TokenType::Greater
                };
                self.add_token(token_type, Option::None);
            },
            ' ' | '\t' | '\r' => {},
            '\n' => {
                self.line = self.line + 1;
            },
            '/' => {
                if self.match_next('/') {
                    // A line comment runs to the end of the line; the
                    // newline itself is left for the next step.
                    let ghost s = self.source@;
                    let ghost c2 = self.current as int;
                    let ghost stop = find_from(s, c2, '\n');
                    proof {
                        lemma_find_from(s, c2, '\n');
                    }
                    while self.peek() != '\n' && !self.is_at_end()
                        invariant
                            self.wf(),
                            self.source == old(self).source,
                            self.start == old(self).start,
                            self.line == old(self).line,
                            self.tokens == old(self).tokens,
                            self.errors == old(self).errors,
                            c2 <= self.current as int <= stop,
                        decreases s.len() - self.current,
                    {
                        proof {
                            lemma_find_from(s, c2, '\n');
                        }
                        self.advance();
                    }
                    proof {
                        lemma_find_from(s, c2, '\n');
                        assert(self.current as int == stop);
                    }
                } else {
                    self.add_token(TokenType::Slash, Option::None);
                }
            },
            '"' => {
                return self.string();
            },
            _ => {
                if self.is_digit(c) {
                    self.number();
                } else if self.is_alpha(c) {
                    self.identifier();
                } else {
                    let report = UnexpectedChar { line: self.line, ch: c };
                    proof {
                        lemma_reject_views_push(self.errors@, report);
                    }
                    self.errors.push(report);
                }
            },
        }
        Result::Ok(())
    }

    /// An element-wise copy of a token list.
    fn clone_tokens(v: &Vec<Token>) -> (r: Vec<Token>)
        ensures
            r@ == v@,
    {
        let mut r: Vec<Token> = Vec::new();
        let mut i: usize = 0;
        while i < v.len()
            invariant
                i <= v@.len(),
                r@ == v@.subrange(0, i as int),
            decreases v@.len() - i,
        {
            let t = v[i].clone();
            r.push(t);
            proof {
                assert(r@ =~= v@.subrange(0, i + 1 as int));
            }
            i = i + 1;
        }
        proof {
            assert(v@.subrange(0, v@.len() as int) =~= v@);
        }
        r
    }

    /// Scan the whole remaining input: repeatedly scan one token, then
    /// append the single closing `Eof` token (empty lexeme, final line) and
    /// return a copy of the token list. On success the token list and the
    /// unexpected-character reports are exactly those of the model
    /// `scan_from`; an unterminated string stops the scan with the model's
    /// error line instead, and no token sequence is returned.
    #[verifier::loop_isolation(false)]
    pub fn scan_tokens(&mut self) -> (r: Result<Vec<Token>, ScanError>)
        requires
            old(self).wf(),
        ensures
            final(self).wf(),
            final(self).source == old(self).source,
            (match scan_from(old(self).source@, old(self).current as int, old(self).line as int) {
                Result::Ok(out) => {
                    &&& (match r {
                        Result::Ok(ts) => {
                            &&& ts@ == final(self).tokens@
                            &&& token_views(ts@) == token_views(old(self).tokens@) + out.tokens
                        },
                        Result::Err(_) => false,
                    })
                    &&& reject_views(final(self).errors@) == reject_views(old(self).errors@)
                        + out.rejects
                    &&& final(self).line as int == out.end_line
                    &&& final(self).current == final(self).source@.len()
                },
                Result::Err(l) => (match r {
                    Result::Err(ScanError::UnterminatedString { line: el }) => el as int == l,
                    Result::Ok(_) => false,
                }),
            }),
    {
        let ghost src = old(self).source@;
        let ghost c0 = old(self).current as int;
        let ghost l0 = old(self).line as int;
        let ghost tv0 = token_views(old(self).tokens@);
        let ghost ev0 = reject_views(old(self).errors@);
        let ghost n0 = old(self).tokens@.len() as int;
        let ghost e0 = old(self).errors@.len() as int;
        proof {
            assert(tv0.subrange(0, n0) =~= tv0);
            assert(ev0.subrange(0, e0) =~= ev0);
            match scan_from(src, c0, l0) {
                Result::Ok(out) => {
                    assert(tv0.skip(n0) + out.tokens =~= out.tokens);
                    assert(ev0.skip(e0) + out.rejects =~= out.rejects);
                    assert((ScanOut {
                        tokens: tv0.skip(n0) + out.tokens,
                        rejects: ev0.skip(e0) + out.rejects,
                        end_line: out.end_line,
                    }) =~= out);
                },
                Result::Err(_) => {},
            }
        }
        while !self.is_at_end()
            invariant
                self.wf(),
                self.source == old(self).source,
                n0 <= self.tokens@.len(),
                e0 <= self.errors@.len(),
                token_views(self.tokens@).subrange(0, n0) == tv0,
                reject_views(self.errors@).subrange(0, e0) == ev0,
                (match scan_from(src, self.current as int, self.line as int) {
                    Result::Ok(out) => scan_from(src, c0, l0) == Result::Ok::<ScanOut, int>(
                        (ScanOut {
                            tokens: token_views(self.tokens@).skip(n0) + out.tokens,
                            rejects: reject_views(self.errors@).skip(e0) + out.rejects,
                            end_line: out.end_line,
                        }),
                    ),
                    Result::Err(l) => scan_from(src, c0, l0) == Result::Err::<ScanOut, int>(l),
                }),
            decreases src.len() - self.current,
        {
            self.start = self.current;
            let ghost pre = *self;
            let res = self.scan_token();
            proof {
                lemma_scan_step_bounds(src, pre.current as int, pre.line as int);
                match scan_step(src, pre.current as int, pre.line as int) {
                    Step::Tok { next, line: l2, token } => {
                        assert(token_views(self.tokens@).subrange(0, n0)
                            =~= token_views(pre.tokens@).subrange(0, n0));
                        assert(token_views(self.tokens@).skip(n0)
                            =~= token_views(pre.tokens@).skip(n0).push(token));
                        match scan_from(src, next, l2) {
                            Result::Ok(out2) => {
                                assert(token_views(pre.tokens@).skip(n0)
                                    + (seq![token] + out2.tokens)
                                    =~= token_views(self.tokens@).skip(n0) + out2.tokens);
                                assert((ScanOut {
                                    tokens: token_views(pre.tokens@).skip(n0)
                                        + (seq![token] + out2.tokens),
                                    rejects: reject_views(self.errors@).skip(e0) + out2.rejects,
                                    end_line: out2.end_line,
                                }) =~= (ScanOut {
                                    tokens: token_views(self.tokens@).skip(n0) + out2.tokens,
                                    rejects: reject_views(self.errors@).skip(e0) + out2.rejects,
                                    end_line: out2.end_line,
                                }));
                            },
                            Result::Err(_) => {},
                        }
                    },
                    Step::Skip { .. } => {},
                    Step::Reject { next, ch } => {
                        assert(reject_views(self.errors@).subrange(0, e0)
                            =~= reject_views(pre.errors@).subrange(0, e0));
                        assert(reject_views(self.errors@).skip(e0)
                            =~= reject_views(pre.errors@).skip(e0).push(
                                (UnexpectedCharView { line: pre.line as int, ch }),
                            ));
                        match scan_from(src, next, pre.line as int) {
                            Result::Ok(out2) => {
                                assert(reject_views(pre.errors@).skip(e0)
                                    + (seq![UnexpectedCharView { line: pre.line as int, ch }]
                                        + out2.rejects)
                                    =~= reject_views(self.errors@).skip(e0) + out2.rejects);
                                assert((ScanOut {
                                    tokens: token_views(self.tokens@).skip(n0) + out2.tokens,
                                    rejects: reject_views(pre.errors@).skip(e0)
                                        + (seq![UnexpectedCharView { line: pre.line as int, ch }]
                                            + out2.rejects),
                                    end_line: out2.end_line,
                                }) =~= (ScanOut {
                                    tokens: token_views(self.tokens@).skip(n0) + out2.tokens,
                                    rejects: reject_views(self.errors@).skip(e0) + out2.rejects,
                                    end_line: out2.end_line,
                                }));
                            },
                            Result::Err(_) => {},
                        }
                    },
                    Step::Halt { .. } => {},
                }
            }
            if let Result::Err(e) = res {
                return Result::Err(e);
            }
        }
        let ghost pre_eof = *self;
        let eof_token = Token {
            token_type: TokenType::Eof,
            lexeme: String::new(),
            literal: Option::None,
            line: self.line,
        };
        proof {
            lemma_token_views_push(self.tokens@, eof_token);
        }
        self.tokens.push(eof_token);
        proof {
            assert(token_views(self.tokens@).subrange(0, n0)
                =~= token_views(pre_eof.tokens@).subrange(0, n0));
            assert(token_views(self.tokens@).skip(n0)
                =~= token_views(pre_eof.tokens@).skip(n0) + seq![eof_view(pre_eof.line as int)]);
            assert(token_views(self.tokens@)
                =~= tv0 + token_views(self.tokens@).skip(n0));
            assert(reject_views(self.errors@)
                =~= ev0 + reject_views(self.errors@).skip(e0));
            assert(reject_views(self.errors@).skip(e0) + Seq::<UnexpectedCharView>::empty()
                =~= reject_views(self.errors@).skip(e0));
        }
        let result = Self::clone_tokens(&self.tokens);
        Result::Ok(result)
    }
}

} // verus!
