//! The token data model: token tags, literal payloads, and the `Token`
//! record emitted by the scanner, together with its mathematical view.

use vstd::prelude::*;
use vstd::string::StringExecFns;

verus! {

/// The closed set of token tags.
#[derive(Debug, Clone, Copy, PartialEq, Eq, Structural)]
pub enum TokenType {
    // Single-character punctuation.
    LeftParen,
    RightParen,
    LeftBrace,
    RightBrace,
    Comma,
    Dot,
    Minus,
    Plus,
    Semicolon,
    Slash,
    Star,
    // One- or two-character operators.
    Bang,
    BangEqual,
    Equal,
    EqualEqual,
    Greater,
    GreaterEqual,
    Less,
    LessEqual,
    // Literal classes.
    Identifier,
    String,
    Number,
    // Reserved keywords.
    And,
    Class,
    Else,
    False,
    Fun,
    For,
    If,
    Nil,
    Or,
    Print,
    Return,
    Super,
    This,
    True,
    Var,
    While,
    // End-of-input sentinel.
    Eof,
}

/// Typed literal payload of a token.
///
/// A string token carries its text with the surrounding quotes stripped.
/// A number token carries the exact decimal text of its lexeme; the scanner
/// itself never converts it to a floating-point value (callers that want the
/// numeric value parse this text, which always matches `digits (.digits)?`).
#[derive(Debug, Clone, PartialEq, Eq)]
pub enum LiteralValue {
    Str(String),
    Num(String),
}

/// One scanned token: its tag, the verbatim source slice it was scanned
/// from, its literal payload (strings and numbers only), and the 1-based
/// source line on which the token started (the end-of-input sentinel
/// carries the line the cursor ended on).
#[derive(Debug, Clone, PartialEq, Eq)]
pub struct Token {
    pub token_type: TokenType,
    pub lexeme: String,
    pub literal: Option<LiteralValue>,
    pub line: usize,
}

/// Mathematical counterpart of `LiteralValue`.
#[verifier::ext_equal]
pub ghost enum SpecLiteral {
    Str(Seq<char>),
    Num(Seq<char>),
}

/// Mathematical counterpart of `Token`: the same record over `Seq<char>`
/// and unbounded integers.
#[verifier::ext_equal]
pub ghost struct SpecToken {
    pub token_type: TokenType,
    pub lexeme: Seq<char>,
    pub literal: Option<SpecLiteral>,
    pub line: int,
}

/// The mathematical value of a literal payload.
pub open spec fn spec_literal(l: Option<LiteralValue>) -> Option<SpecLiteral> {
    match l {
        Option::Some(LiteralValue::Str(s)) => Option::Some(SpecLiteral::Str(s@)),
        Option::Some(LiteralValue::Num(s)) => Option::Some(SpecLiteral::Num(s@)),
        Option::None => Option::None,
    }
}

impl View for Token {
    type V = SpecToken;

    open spec fn view(&self) -> SpecToken {
        SpecToken {
            token_type: self.token_type,
            lexeme: self.lexeme@,
            literal: spec_literal(self.literal),
            line: self.line as int,
        }
    }
}

/// The keyword table: maps the character sequence of a lexeme to its
/// reserved-keyword tag, or `None` for an ordinary identifier.
pub open spec fn spec_keyword(s: Seq<char>) -> Option<TokenType> {
    if s == seq!['a', 'n', 'd'] {
        Option::Some(TokenType::And)
    } else if s == seq!['c', 'l', 'a', 's', 's'] {
        Option::Some(TokenType::Class)
    } else if s == seq!['e', 'l', 's', 'e'] {
        Option::Some(TokenType::Else)
    } else if s == seq!['f', 'a', 'l', 's', 'e'] {
        Option::Some(TokenType::False)
    } else if s == seq!['f', 'u', 'n'] {
        Option::Some(TokenType::Fun)
    } else if s == seq!['f', 'o', 'r'] {
        Option::Some(TokenType::For)
    } else if s == seq!['i', 'f'] {
        Option::Some(TokenType::If)
    } else if s == seq!['n', 'i', 'l'] {
        Option::Some(TokenType::Nil)
    } else if s == seq!['o', 'r'] {
        Option::Some(TokenType::Or)
    } else if s == seq!['p', 'r', 'i', 'n', 't'] {
        Option::Some(TokenType::Print)
    } else if s == seq!['r', 'e', 't', 'u', 'r', 'n'] {
        Option::Some(TokenType::Return)
    } else if s == seq!['s', 'u', 'p', 'e', 'r'] {
        Option::Some(TokenType::Super)
    } else if s == seq!['t', 'h', 'i', 's'] {
        Option::Some(TokenType::This)
    } else if s == seq!['t', 'r', 'u', 'e'] {
        Option::Some(TokenType::True)
    } else if s == seq!['v', 'a', 'r'] {
        Option::Some(TokenType::Var)
    } else if s == seq!['w', 'h', 'i', 'l', 'e'] {
        Option::Some(TokenType::While)
    } else {
        Option::None
    }
}

impl Token {
    /// Look a lexeme up in the fixed keyword table: the corresponding
    /// keyword tag on an exact, case-sensitive match, `None` otherwise.
    pub fn parse_keyword(text: &String) -> (t: Option<TokenType>)
        ensures
            t == spec_keyword(text@),
    {
        proof {
            reveal_strlit("and");
            reveal_strlit("class");
            reveal_strlit("else");
            reveal_strlit("false");
            reveal_strlit("fun");
            reveal_strlit("for");
            reveal_strlit("if");
            reveal_strlit("nil");
            reveal_strlit("or");
            reveal_strlit("print");
            reveal_strlit("return");
            reveal_strlit("super");
            reveal_strlit("this");
            reveal_strlit("true");
            reveal_strlit("var");
            reveal_strlit("while");
            assert("and"@ =~= seq!['a', 'n', 'd']);
            assert("class"@ =~= seq!['c', 'l', 'a', 's', 's']);
            assert("else"@ =~= seq!['e', 'l', 's', 'e']);
            assert("false"@ =~= seq!['f', 'a', 'l', 's', 'e']);
            assert("fun"@ =~= seq!['f', 'u', 'n']);
            assert("for"@ =~= seq!['f', 'o', 'r']);
            assert("if"@ =~= seq!['i', 'f']);
            assert("nil"@ =~= seq!['n', 'i', 'l']);
            assert("or"@ =~= seq!['o', 'r']);
            assert("print"@ =~= seq!['p', 'r', 'i', 'n', 't']);
            assert("return"@ =~= seq!['r', 'e', 't', 'u', 'r', 'n']);
            assert("super"@ =~= seq!['s', 'u', 'p', 'e', 'r']);
            assert("this"@ =~= seq!['t', 'h', 'i', 's']);
            assert("true"@ =~= seq!['t', 'r', 'u', 'e']);
            assert("var"@ =~= seq!['v', 'a', 'r']);
            assert("while"@ =~= seq!['w', 'h', 'i', 'l', 'e']);
        }
        if *text == String::from_str("and") {
            Option::Some(TokenType::And)
        } else if *text == String::from_str("class") {
            Option::Some(TokenType::Class)
        } else if *text == String::from_str("else") {
            Option::Some(TokenType::Else)
        } else if *text == String::from_str("false") {
            Option::Some(TokenType::False)
        } else if *text == String::from_str("fun") {
            Option::Some(TokenType::Fun)
        } else if *text == String::from_str("for") {
            Option::Some(TokenType::For)
        } else if *text == String::from_str("if") {
            Option::Some(TokenType::If)
        } else if *text == String::from_str("nil") {
            Option::Some(TokenType::Nil)
        } else if *text == String::from_str("or") {
            Option::Some(TokenType::Or)
        } else if *text == String::from_str("print") {
            Option::Some(TokenType::Print)
        } else if *text == String::from_str("return") {
            Option::Some(TokenType::Return)
        } else if *text == String::from_str("super") {
            Option::Some(TokenType::Super)
        } else if *text == String::from_str("this") {
            Option::Some(TokenType::This)
        } else if *text == String::from_str("true") {
            Option::Some(TokenType::True)
        } else if *text == String::from_str("var") {
            Option::Some(TokenType::Var)
        } else if *text == String::from_str("while") {
            Option::Some(TokenType::While)
        } else {
            Option::None
        }
    }
}

} // verus!
