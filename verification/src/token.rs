//! Token model: lexical categories, the token record, and the error types
//! the scanner can report.

use vstd::prelude::*;

verus! {

/// Closed enumeration of the lexical categories the scanner can emit.
#[derive(Debug, Clone, Copy, PartialEq, Eq, Structural)]
pub enum TokenType {
    // Single-character punctuation.
    LeftParen,
    RightParen,
    LeftBrace,
    RightBrace,
    Comma,
    Dot,
    Minus,
    Plus,
    Semicolon,
    Slash,
    Star,
    // One- or two-character operators.
    Bang,
    BangEqual,
    Equal,
    EqualEqual,
    Greater,
    GreaterEqual,
    Less,
    LessEqual,
    // Literals.
    Identifier,
    String,
    Number,
    // Reserved keywords.
    And,
    Class,
    Else,
    False,
    Fun,
    For,
    If,
    Nil,
    Or,
    Print,
    Return,
    Super,
    This,
    True,
    Var,
    While,
    // End of input; exactly one, always last.
    Eof,
}

/// Mathematical image of a token: the category, the exact source substring
/// consumed (as a character sequence), the decoded literal for number and
/// string tokens, and the 1-based line on which the token started.
#[verifier::ext_equal]
pub ghost struct TokenView {
    pub token_type: TokenType,
    pub lexeme: Seq<char>,
    pub literal: Option<Seq<char>>,
    pub line: int,
}

/// One scanned token. `lexeme` is the exact source substring consumed for
/// this token (empty for `Eof`); `literal` holds the decoded value for
/// `Number` and `String` tokens and is `None` otherwise; `line` is the
/// 1-based source line on which the token started. Lexemes are owned
/// copies, so tokens outlive the source buffer they were scanned from.
#[derive(Debug, PartialEq)]
pub struct Token {
    pub token_type: TokenType,
    pub lexeme: String,
    pub literal: Option<String>,
    pub line: usize,
}

/// The view of an optional owned string: the character sequence it holds.
pub open spec fn opt_view(o: Option<String>) -> Option<Seq<char>> {
    match o {
        Option::Some(s) => Option::Some(s@),
        Option::None => Option::None,
    }
}

impl View for Token {
    type V = TokenView;

    open spec fn view(&self) -> TokenView {
        TokenView {
            token_type: self.token_type,
            lexeme: self.lexeme@,
            literal: opt_view(self.literal),
            line: self.line as int,
        }
    }
}

impl Clone for Token {
    fn clone(&self) -> (r: Token)
        ensures
            r == *self,
    {
        Token {
            token_type: self.token_type,
            lexeme: self.lexeme.clone(),
            literal: match &self.literal {
                Option::Some(s) => Option::Some(s.clone()),
                Option::None => Option::None,
            },
            line: self.line,
        }
    }
}

/// Fatal scan failure: the scan stops and no usable token sequence is
/// returned for that invocation.
#[derive(Debug, Clone, Copy, PartialEq, Eq, Structural)]
pub enum ScanError {
    /// End of input was reached while inside a string literal; carries the
    /// line on which the scan of the string ended.
    UnterminatedString { line: usize },
}

/// Non-fatal lexical problem: a byte that starts no token. The scanner
/// records the 1-based line and the offending character and keeps going,
/// so one bad character does not hide later ones. The driver decides
/// whether a non-empty report set blocks downstream stages.
#[derive(Debug, Clone, Copy, PartialEq, Eq, Structural)]
pub struct UnexpectedChar {
    pub line: usize,
    pub ch: char,
}

/// Mathematical image of an `UnexpectedChar` report.
#[verifier::ext_equal]
pub ghost struct UnexpectedCharView {
    pub line: int,
    pub ch: char,
}

impl View for UnexpectedChar {
    type V = UnexpectedCharView;

    open spec fn view(&self) -> UnexpectedCharView {
        UnexpectedCharView { line: self.line as int, ch: self.ch }
    }
}

/// The fixed keyword table: the category an identifier lexeme resolves to.
/// A lexeme that matches no keyword exactly is an `Identifier`.
pub open spec fn keyword_kind(lex: Seq<char>) -> TokenType {
    if lex == "and"@ {
        TokenType::And
    } else if lex == "class"@ {
        TokenType::Class
    } else if lex == "else"@ {
        TokenType::Else
    } else if lex == "false"@ {
        TokenType::False
    } else if lex == "fun"@ {
        TokenType::Fun
    } else if lex == "for"@ {
        TokenType::For
    } else if lex == "if"@ {
        TokenType::If
    } else if lex == "nil"@ {
        TokenType::Nil
    } else if lex == "or"@ {
        TokenType::Or
    } else if lex == "print"@ {
        TokenType::Print
    } else if lex == "return"@ {
        TokenType::Return
    } else if lex == "super"@ {
        TokenType::Super
    } else if lex == "this"@ {
        TokenType::This
    } else if lex == "true"@ {
        TokenType::True
    } else if lex == "var"@ {
        TokenType::Var
    } else if lex == "while"@ {
        TokenType::While
    } else {
        TokenType::Identifier
    }
}

/// Character-by-character string equality, decided without assuming
/// anything about encoding.
fn str_eq(a: &str, b: &str) -> (r: bool)
    ensures
        r == (a@ == b@),
{
    let n = a.unicode_len();
    if n != b.unicode_len() {
        return false;
    }
    let mut i: usize = 0;
    while i < n
        invariant
            i <= n,
            n == a@.len(),
            n == b@.len(),
            forall|j: int| 0 <= j < i ==> a@[j] == b@[j],
        decreases n - i,
    {
        if a.get_char(i) != b.get_char(i) {
            return false;
        }
        i = i + 1;
    }
    proof {
        assert(a@ =~= b@);
    }
    true
}

/// Resolve a completed identifier lexeme against the keyword table.
pub fn keyword_or_identifier(lex: &str) -> (t: TokenType)
    ensures
        t == keyword_kind(lex@),
{
    if str_eq(lex, "and") {
        TokenType::And
    } else if str_eq(lex, "class") {
        TokenType::Class
    } else if str_eq(lex, "else") {
        TokenType::Else
    } else if str_eq(lex, "false") {
        TokenType::False
    } else if str_eq(lex, "fun") {
        TokenType::Fun
    } else if str_eq(lex, "for") {
        TokenType::For
    } else if str_eq(lex, "if") {
        TokenType::If
    } else if str_eq(lex, "nil") {
        TokenType::Nil
    } else if str_eq(lex, "or") {
        TokenType::Or
    } else if str_eq(lex, "print") {
        TokenType::Print
    } else if str_eq(lex, "return") {
        TokenType::Return
    } else if str_eq(lex, "super") {
        TokenType::Super
    } else if str_eq(lex, "this") {
        TokenType::This
    } else if str_eq(lex, "true") {
        TokenType::True
    } else if str_eq(lex, "var") {
        TokenType::Var
    } else if str_eq(lex, "while") {
        TokenType::While
    } else {
        TokenType::Identifier
    }
}

} // verus!
