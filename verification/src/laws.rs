//! Laws of the scan, proved once and for all against the model in
//! `crate::model`: every successful scan ends in exactly one `Eof` token
//! with an empty lexeme; the concatenated lexemes of a clean scan
//! reconstruct the significant characters of the input in order; and the
//! outcome is a function of the input text alone.

use vstd::prelude::*;
use crate::token::{TokenType, TokenView};
use crate::model::{
    is_blank_char, is_digit_char, is_alpha_char, find_from, digit_run_end,
    lemma_find_from, lemma_digit_run_end, lemma_ident_run_end, lemma_scan_step_bounds,
    Step, ScanOut, scan_step, scan_from, eof_view,
};

verus! {

/// The token emitted by a single step is never `Eof`: only the end of
/// input produces one.
proof fn lemma_scan_step_token_not_eof(s: Seq<char>, i: int, line: int)
    requires
        0 <= i < s.len(),
    ensures
        (match scan_step(s, i, line) {
            Step::Tok { token, .. } => token.token_type != TokenType::Eof,
            _ => true,
        }),
{
}

/// Every successful scan yields at least one token; the last is `Eof`,
/// carries an empty lexeme and the final line counter, and no other token
/// is an `Eof`.
pub proof fn lemma_scan_ends_with_eof(s: Seq<char>, i: int, line: int, out: ScanOut)
    requires
        0 <= i <= s.len(),
        scan_from(s, i, line) == Result::Ok::<ScanOut, int>(out),
    ensures
        out.tokens.len() >= 1,
        out.tokens.last() == eof_view(out.end_line),
        forall|k: int|
            0 <= k < out.tokens.len() - 1 ==> (#[trigger] out.tokens[k]).token_type
                != TokenType::Eof,
    decreases s.len() - i,
{
    if i >= s.len() {
    } else {
        lemma_scan_step_bounds(s, i, line);
        match scan_step(s, i, line) {
            Step::Tok { next, line: l2, token } => {
                match scan_from(s, next, l2) {
                    Result::Ok(out2) => {
                        lemma_scan_ends_with_eof(s, next, l2, out2);
                        lemma_scan_step_token_not_eof(s, i, line);
                        assert(out.tokens == seq![token] + out2.tokens);
                        assert(out.tokens.last() == out2.tokens.last());
                        assert(forall|k: int|
                            0 <= k < out.tokens.len() - 1 ==> (#[trigger] out.tokens[k]).token_type
                                != TokenType::Eof) by {
                            assert(forall|k: int|
                                1 <= k < out.tokens.len() ==> out.tokens[k] == out2.tokens[
                                k - 1]);
                        }
                    },
                    Result::Err(_) => {},
                }
            },
            Step::Skip { next, line: l2 } => {
                lemma_scan_ends_with_eof(s, next, l2, out);
            },
            Step::Reject { next, .. } => {
                match scan_from(s, next, line) {
                    Result::Ok(out2) => {
                        lemma_scan_ends_with_eof(s, next, line, out2);
                    },
                    Result::Err(_) => {},
                }
            },
            Step::Halt { .. } => {},
        }
    }
}

/// The characters of the input that belong to some token: everything except
/// whitespace, newlines and line comments. A string literal is carried over
/// whole (its quotes and any inner whitespace are significant).
pub open spec fn significant_text(s: Seq<char>, i: int) -> Seq<char>
    decreases s.len() - i
        when 0 <= i <= s.len()
        via significant_text_decreases
{
    if i >= s.len() {
        Seq::empty()
    } else {
        let c = s[i];
        if is_blank_char(c) || c == '\n' {
            significant_text(s, i + 1)
        } else if c == '/' && i + 1 < s.len() && s[i + 1] == '/' {
            significant_text(s, find_from(s, i + 2, '\n'))
        } else if c == '"' {
            let close = find_from(s, i + 1, '"');
            if close < s.len() {
                s.subrange(i, close + 1) + significant_text(s, close + 1)
            } else {
                s.subrange(i, s.len() as int)
            }
        } else {
            seq![c] + significant_text(s, i + 1)
        }
    }
}

#[via_fn]
proof fn significant_text_decreases(s: Seq<char>, i: int) {
    if 0 <= i < s.len() {
        if s[i] == '/' && i + 1 < s.len() && s[i + 1] == '/' {
            lemma_find_from(s, i + 2, '\n');
        }
        if s[i] == '"' {
            lemma_find_from(s, i + 1, '"');
        }
    }
}

/// The concatenation of the lexemes of a token sequence, in order.
pub open spec fn concat_lexemes(toks: Seq<TokenView>) -> Seq<char>
    decreases toks.len(),
{
    if toks.len() == 0 {
        Seq::empty()
    } else {
        toks[0].lexeme + concat_lexemes(toks.drop_first())
    }
}

proof fn lemma_concat_lexemes_cons(t: TokenView, rest: Seq<TokenView>)
    ensures
        concat_lexemes(seq![t] + rest) == t.lexeme + concat_lexemes(rest),
{
    assert((seq![t] + rest).drop_first() =~= rest);
    assert((seq![t] + rest)[0] == t);
}

/// A position whose character neither is skippable nor opens a string or a
/// comment: a step started anywhere in such a run consumes it into lexemes
/// character for character.
spec fn plain_at(s: Seq<char>, j: int) -> bool {
    &&& !is_blank_char(s[j])
    &&& s[j] != '\n'
    &&& s[j] != '"'
    &&& !(s[j] == '/' && j + 1 < s.len() && s[j + 1] == '/')
}

proof fn lemma_significant_plain_run(s: Seq<char>, i: int, m: int)
    requires
        0 <= i <= m <= s.len(),
        forall|j: int| i <= j < m ==> plain_at(s, j),
    ensures
        significant_text(s, i) == s.subrange(i, m) + significant_text(s, m),
    decreases m - i,
{
    if i < m {
        assert(plain_at(s, i));
        assert(significant_text(s, i) == seq![s[i]] + significant_text(s, i + 1));
        lemma_significant_plain_run(s, i + 1, m);
        assert(seq![s[i]] + (s.subrange(i + 1, m) + significant_text(s, m)) =~= s.subrange(i, m)
            + significant_text(s, m));
    } else {
        assert(s.subrange(i, m) + significant_text(s, m) =~= significant_text(s, m));
    }
}

/// Reconstruction: on an input whose scan succeeds with no unexpected
/// characters, the concatenated lexemes of the scanned tokens (the closing
/// `Eof` contributes its empty lexeme) are exactly the significant
/// characters of the input, in order — nothing is lost, duplicated or
/// reordered, and only whitespace and comments are dropped.
pub proof fn lemma_tokens_reconstruct_source(s: Seq<char>, i: int, line: int, out: ScanOut)
    requires
        0 <= i <= s.len(),
        scan_from(s, i, line) == Result::Ok::<ScanOut, int>(out),
        out.rejects.len() == 0,
    ensures
        concat_lexemes(out.tokens) == significant_text(s, i),
    decreases s.len() - i,
{
    if i >= s.len() {
        assert(out.tokens == seq![eof_view(line)]);
        assert(out.tokens.drop_first() =~= Seq::<TokenView>::empty());
        assert(concat_lexemes(out.tokens.drop_first()) == Seq::<char>::empty());
        assert(concat_lexemes(out.tokens) =~= significant_text(s, i));
    } else {
        lemma_scan_step_bounds(s, i, line);
        let c = s[i];
        match scan_step(s, i, line) {
            Step::Tok { next, line: l2, token } => {
                match scan_from(s, next, l2) {
                    Result::Ok(out2) => {
                        lemma_tokens_reconstruct_source(s, next, l2, out2);
                        lemma_concat_lexemes_cons(token, out2.tokens);
                        if c == '"' {
                            let close = find_from(s, i + 1, '"');
                            assert(token.lexeme == s.subrange(i, close + 1));
                        } else {
                            assert(forall|j: int| i <= j < next ==> plain_at(s, j)) by {
                                if is_digit_char(c) {
                                    lemma_digit_run_end(s, i + 1);
                                    let d1 = digit_run_end(s, i + 1);
                                    if d1 < s.len() && s[d1] == '.' && d1 + 1 < s.len()
                                        && is_digit_char(s[d1 + 1]) {
                                        lemma_digit_run_end(s, d1 + 1);
                                    }
                                }
                                if is_alpha_char(c) {
                                    lemma_ident_run_end(s, i + 1);
                                }
                            }
                            lemma_significant_plain_run(s, i, next);
                            assert(token.lexeme == s.subrange(i, next));
                        }
                        assert(token.lexeme + concat_lexemes(out2.tokens) == significant_text(
                            s,
                            i,
                        ));
                    },
                    Result::Err(_) => {},
                }
            },
            Step::Skip { next, line: l2 } => {
                lemma_tokens_reconstruct_source(s, next, l2, out);
            },
            Step::Reject { next, .. } => {
                match scan_from(s, next, line) {
                    Result::Ok(out2) => {
                        assert(out.rejects.len() >= 1);
                    },
                    Result::Err(_) => {},
                }
            },
            Step::Halt { .. } => {},
        }
    }
}

/// The line counter never decreases: every token's line lies between the
/// counter at the start of the scan and the counter at its end, and the
/// tokens' lines are non-decreasing in emission order.
pub proof fn lemma_token_lines_monotone(s: Seq<char>, i: int, line: int, out: ScanOut)
    requires
        0 <= i <= s.len(),
        scan_from(s, i, line) == Result::Ok::<ScanOut, int>(out),
    ensures
        line <= out.end_line,
        forall|k: int|
            0 <= k < out.tokens.len() ==> line <= (#[trigger] out.tokens[k]).line
                <= out.end_line,
        forall|k1: int, k2: int|
            0 <= k1 <= k2 < out.tokens.len() ==> (#[trigger] out.tokens[k1]).line <= (
            #[trigger] out.tokens[k2]).line,
    decreases s.len() - i,
{
    if i >= s.len() {
    } else {
        lemma_scan_step_bounds(s, i, line);
        match scan_step(s, i, line) {
            Step::Tok { next, line: l2, token } => {
                assert(line <= l2 && token.line == line) by {
                    if s[i] == '"' {
                        lemma_find_from(s, i + 1, '"');
                        crate::model::lemma_count_nl_bounds(s, i + 1, find_from(s, i + 1, '"'));
                    }
                }
                match scan_from(s, next, l2) {
                    Result::Ok(out2) => {
                        lemma_token_lines_monotone(s, next, l2, out2);
                        assert(out.tokens == seq![token] + out2.tokens);
                        assert(forall|k: int|
                            1 <= k < out.tokens.len() ==> out.tokens[k] == out2.tokens[k - 1]);
                    },
                    Result::Err(_) => {},
                }
            },
            Step::Skip { next, line: l2 } => {
                lemma_token_lines_monotone(s, next, l2, out);
            },
            Step::Reject { next, .. } => {
                match scan_from(s, next, line) {
                    Result::Ok(out2) => {
                        lemma_token_lines_monotone(s, next, line, out2);
                    },
                    Result::Err(_) => {},
                }
            },
            Step::Halt { .. } => {},
        }
    }
}

/// The scan keeps no hidden state: its outcome is a function of the input
/// text alone, so scanning the same text twice yields the same tokens, the
/// same reports and the same final line counter.
pub proof fn lemma_scan_repeatable(s: Seq<char>, out1: ScanOut, out2: ScanOut)
    requires
        scan_from(s, 0, 1) == Result::Ok::<ScanOut, int>(out1),
        scan_from(s, 0, 1) == Result::Ok::<ScanOut, int>(out2),
    ensures
        out1 == out2,
{
}

} // verus!
