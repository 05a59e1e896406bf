//! The mathematical model of the scan.
//!
//! `scan_rest(s, line)` says, for any remaining input `s` and current
//! 1-based line number, exactly which tokens and which diagnostics one
//! full scan pass over `s` produces. The executable scanner is proved to
//! return `scan_rest(source, 1)`, so every property of the scanner is a
//! property of this function.

use crate::diagnostic::{Diagnostic, DiagnosticKind, SpecDiag};
use crate::token::{spec_keyword, SpecLiteral, SpecToken, Token, TokenType};
use vstd::prelude::*;

verus! {

// ---------------------------------------------------------------------------
// Character classes
// ---------------------------------------------------------------------------
/// ASCII decimal digit.
pub open spec fn spec_is_digit(c: char) -> bool {
    '0' <= c && c <= '9'
}

/// ASCII letter or underscore: the characters an identifier may start with.
pub open spec fn spec_is_alpha(c: char) -> bool {
    ('a' <= c && c <= 'z') || ('A' <= c && c <= 'Z') || c == '_'
}

/// Character that may continue an identifier.
pub open spec fn spec_is_alnum(c: char) -> bool {
    spec_is_alpha(c) || spec_is_digit(c)
}

/// The tag of a fixed single-character punctuation token, if `c` is one.
/// `/` is not here: it needs one character of lookahead (line comments).
pub open spec fn single_type(c: char) -> Option<TokenType> {
    if c == '(' {
        Option::Some(TokenType::LeftParen)
    } else if c == ')' {
        Option::Some(TokenType::RightParen)
    } else if c == '{' {
        Option::Some(TokenType::LeftBrace)
    } else if c == '}' {
        Option::Some(TokenType::RightBrace)
    } else if c == ',' {
        Option::Some(TokenType::Comma)
    } else if c == '.' {
        Option::Some(TokenType::Dot)
    } else if c == '-' {
        Option::Some(TokenType::Minus)
    } else if c == '+' {
        Option::Some(TokenType::Plus)
    } else if c == ';' {
        Option::Some(TokenType::Semicolon)
    } else if c == '*' {
        Option::Some(TokenType::Star)
    } else {
        Option::None
    }
}

/// For the four operators that may pair with a following `=`: the
/// one-character tag and the two-character tag, in that order.
pub open spec fn op_types(c: char) -> Option<(TokenType, TokenType)> {
    if c == '!' {
        Option::Some((TokenType::Bang, TokenType::BangEqual))
    } else if c == '=' {
        Option::Some((TokenType::Equal, TokenType::EqualEqual))
    } else if c == '<' {
        Option::Some((TokenType::Less, TokenType::LessEqual))
    } else if c == '>' {
        Option::Some((TokenType::Greater, TokenType::GreaterEqual))
    } else {
        Option::None
    }
}

/// A character that some scanning rule accepts. Anything else is reported
/// as an unexpected character.
pub open spec fn recognized_char(c: char) -> bool {
    single_type(c) is Some || op_types(c) is Some || c == '/' || c == ' ' || c == '\r' || c == '\t'
        || c == '\n' || c == '"' || spec_is_digit(c) || spec_is_alpha(c)
}

// ---------------------------------------------------------------------------
// Leading-run lengths
// ---------------------------------------------------------------------------
/// Length of the leading run of ASCII digits.
pub open spec fn digits_len(s: Seq<char>) -> int
    decreases s.len(),
{
    if s.len() > 0 && spec_is_digit(s[0]) {
        1 + digits_len(s.skip(1))
    } else {
        0
    }
}

/// Length of the leading run of identifier characters.
pub open spec fn ident_len(s: Seq<char>) -> int
    decreases s.len(),
{
    if s.len() > 0 && spec_is_alnum(s[0]) {
        1 + ident_len(s.skip(1))
    } else {
        0
    }
}

/// Length of the leading run of characters before a newline: how far a
/// line comment reaches (the newline itself is not part of the comment).
pub open spec fn comment_len(s: Seq<char>) -> int
    decreases s.len(),
{
    if s.len() > 0 && s[0] != '\n' {
        1 + comment_len(s.skip(1))
    } else {
        0
    }
}

/// Length of the leading run of characters before a double quote: the
/// body of a string literal whose opening quote was just consumed.
pub open spec fn str_body_len(s: Seq<char>) -> int
    decreases s.len(),
{
    if s.len() > 0 && s[0] != '"' {
        1 + str_body_len(s.skip(1))
    } else {
        0
    }
}

/// Number of newline characters in `s`.
pub open spec fn count_nl(s: Seq<char>) -> int
    decreases s.len(),
{
    if s.len() > 0 {
        count_nl(s.drop_last()) + if s.last() == '\n' {
            1int
        } else {
            0int
        }
    } else {
        0
    }
}

/// Length of a numeric lexeme starting at the front of `s`: a run of
/// digits, then a fractional part only when a `.` is directly followed by
/// another digit (two characters of lookahead).
pub open spec fn number_len(s: Seq<char>) -> int {
    let d = digits_len(s);
    if d < s.len() && s[d] == '.' && d + 1 < s.len() && spec_is_digit(s[d + 1]) {
        d + 1 + digits_len(s.skip(d + 1))
    } else {
        d
    }
}

/// The tag of an identifier-shaped lexeme: a keyword tag on an exact
/// match, `Identifier` otherwise.
pub open spec fn ident_type(lexeme: Seq<char>) -> TokenType {
    match spec_keyword(lexeme) {
        Option::Some(t) => t,
        Option::None => TokenType::Identifier,
    }
}

// ---------------------------------------------------------------------------
// Token constructors and the scan function
// ---------------------------------------------------------------------------
/// A token without a literal payload.
pub open spec fn plain_token(ty: TokenType, lexeme: Seq<char>, line: int) -> SpecToken {
    SpecToken { token_type: ty, lexeme, literal: Option::None, line }
}

/// The end-of-input sentinel: empty lexeme, no payload.
pub open spec fn spec_eof(line: int) -> SpecToken {
    plain_token(TokenType::Eof, Seq::empty(), line)
}

/// A string token: the lexeme keeps both quotes, the payload is the text
/// strictly between them.
pub open spec fn string_token(lexeme: Seq<char>, value: Seq<char>, line: int) -> SpecToken {
    SpecToken {
        token_type: TokenType::String,
        lexeme,
        literal: Option::Some(SpecLiteral::Str(value)),
        line,
    }
}

/// A number token: the payload is the exact decimal text of the lexeme.
pub open spec fn number_token(lexeme: Seq<char>, line: int) -> SpecToken {
    SpecToken {
        token_type: TokenType::Number,
        lexeme,
        literal: Option::Some(SpecLiteral::Num(lexeme)),
        line,
    }
}

/// Everything one scan pass produces: the token sequence and the
/// diagnostics, each in source order.
#[verifier::ext_equal]
pub ghost struct ScanOut {
    pub tokens: Seq<SpecToken>,
    pub diags: Seq<SpecDiag>,
}

/// Prepend the output of one scanning step to the output of the rest of
/// the pass.
pub open spec fn out_cons(ts: Seq<SpecToken>, ds: Seq<SpecDiag>, rest: ScanOut) -> ScanOut {
    ScanOut { tokens: ts + rest.tokens, diags: ds + rest.diags }
}

/// What scanning the remaining input `s` produces, starting on `line`.
///
/// Each step consumes at least one character, so the scan always
/// terminates; the empty input yields exactly the end-of-input sentinel.
pub open spec fn scan_rest(s: Seq<char>, line: int) -> ScanOut
    decreases s.len(),
    via scan_rest_decreases
{
    if s.len() == 0 {
        ScanOut { tokens: seq![spec_eof(line)], diags: seq![] }
    } else {
        let c = s[0];
        match single_type(c) {
            Option::Some(ty) => out_cons(
                seq![plain_token(ty, s.take(1), line)],
                seq![],
                scan_rest(s.skip(1), line),
            ),
            Option::None => match op_types(c) {
                Option::Some(pair) => if s.len() >= 2 && s[1] == '=' {
                    out_cons(
                        seq![plain_token(pair.1, s.take(2), line)],
                        seq![],
                        scan_rest(s.skip(2), line),
                    )
                } else {
                    out_cons(
                        seq![plain_token(pair.0, s.take(1), line)],
                        seq![],
                        scan_rest(s.skip(1), line),
                    )
                },
                Option::None => if c == '/' {
                    if s.len() >= 2 && s[1] == '/' {
                        scan_rest(s.skip(2 + comment_len(s.skip(2))), line)
                    } else {
                        out_cons(
                            seq![plain_token(TokenType::Slash, s.take(1), line)],
                            seq![],
                            scan_rest(s.skip(1), line),
                        )
                    }
                } else if c == ' ' || c == '\r' || c == '\t' {
                    scan_rest(s.skip(1), line)
                } else if c == '\n' {
                    scan_rest(s.skip(1), line + 1)
                } else if c == '"' {
                    let b = str_body_len(s.skip(1));
                    if 1 + b < s.len() {
                        let value = s.subrange(1, 1 + b);
                        let line2 = line + count_nl(value);
                        out_cons(
                            seq![string_token(s.take(b + 2), value, line)],
                            seq![],
                            scan_rest(s.skip(b + 2), line2),
                        )
                    } else {
                        let line2 = line + count_nl(s.skip(1));
                        out_cons(
                            seq![],
                            seq![SpecDiag { kind: DiagnosticKind::UnterminatedString, line: line2 }],
                            scan_rest(s.skip(s.len() as int), line2),
                        )
                    }
                } else if spec_is_digit(c) {
                    let n = number_len(s);
                    out_cons(
                        seq![number_token(s.take(n), line)],
                        seq![],
                        scan_rest(s.skip(n), line),
                    )
                } else if spec_is_alpha(c) {
                    let n = ident_len(s);
                    out_cons(
                        seq![plain_token(ident_type(s.take(n)), s.take(n), line)],
                        seq![],
                        scan_rest(s.skip(n), line),
                    )
                } else {
                    out_cons(
                        seq![],
                        seq![SpecDiag { kind: DiagnosticKind::UnexpectedCharacter, line }],
                        scan_rest(s.skip(1), line),
                    )
                },
            },
        }
    }
}

#[via_fn]
proof fn scan_rest_decreases(s: Seq<char>, line: int) {
    if s.len() > 0 {
        if s[0] == '/' && s.len() >= 2 && s[1] == '/' {
            lemma_comment_len(s.skip(2));
        }
        if s[0] == '"' {
            lemma_str_body_len(s.skip(1));
        }
        if spec_is_digit(s[0]) {
            lemma_number_len(s);
        }
        if spec_is_alpha(s[0]) {
            lemma_ident_len(s);
        }
    }
}

// ---------------------------------------------------------------------------
// Characterizations of the run lengths
// ---------------------------------------------------------------------------
/// `digits_len` is the length of the maximal leading digit run.
pub proof fn lemma_digits_len(s: Seq<char>)
    ensures
        0 <= digits_len(s) <= s.len(),
        forall|i: int| 0 <= i < digits_len(s) ==> spec_is_digit(s[i]),
        digits_len(s) < s.len() ==> !spec_is_digit(s[digits_len(s)]),
    decreases s.len(),
{
    if s.len() > 0 && spec_is_digit(s[0]) {
        lemma_digits_len(s.skip(1));
        assert forall|i: int| 0 <= i < digits_len(s) implies spec_is_digit(s[i]) by {
            if i > 0 {
                assert(s.skip(1)[i - 1] == s[i]);
            }
        }
        if digits_len(s) < s.len() {
            assert(s.skip(1)[digits_len(s) - 1] == s[digits_len(s)]);
        }
    }
}

/// The digit run ends exactly where the digits end.
pub proof fn lemma_digits_len_is(s: Seq<char>, m: int)
    requires
        0 <= m <= s.len(),
        forall|i: int| 0 <= i < m ==> spec_is_digit(s[i]),
        m < s.len() ==> !spec_is_digit(s[m]),
    ensures
        digits_len(s) == m,
{
    lemma_digits_len(s);
}

/// `ident_len` is the length of the maximal leading identifier run.
pub proof fn lemma_ident_len(s: Seq<char>)
    ensures
        0 <= ident_len(s) <= s.len(),
        forall|i: int| 0 <= i < ident_len(s) ==> spec_is_alnum(s[i]),
        ident_len(s) < s.len() ==> !spec_is_alnum(s[ident_len(s)]),
    decreases s.len(),
{
    if s.len() > 0 && spec_is_alnum(s[0]) {
        lemma_ident_len(s.skip(1));
        assert forall|i: int| 0 <= i < ident_len(s) implies spec_is_alnum(s[i]) by {
            if i > 0 {
                assert(s.skip(1)[i - 1] == s[i]);
            }
        }
        if ident_len(s) < s.len() {
            assert(s.skip(1)[ident_len(s) - 1] == s[ident_len(s)]);
        }
    }
}

/// The identifier run ends exactly where the identifier characters end.
pub proof fn lemma_ident_len_is(s: Seq<char>, m: int)
    requires
        0 <= m <= s.len(),
        forall|i: int| 0 <= i < m ==> spec_is_alnum(s[i]),
        m < s.len() ==> !spec_is_alnum(s[m]),
    ensures
        ident_len(s) == m,
{
    lemma_ident_len(s);
}

/// `comment_len` is the length of the maximal leading newline-free run.
pub proof fn lemma_comment_len(s: Seq<char>)
    ensures
        0 <= comment_len(s) <= s.len(),
        forall|i: int| 0 <= i < comment_len(s) ==> s[i] != '\n',
        comment_len(s) < s.len() ==> s[comment_len(s)] == '\n',
    decreases s.len(),
{
    if s.len() > 0 && s[0] != '\n' {
        lemma_comment_len(s.skip(1));
        assert forall|i: int| 0 <= i < comment_len(s) implies s[i] != '\n' by {
            if i > 0 {
                assert(s.skip(1)[i - 1] == s[i]);
            }
        }
        if comment_len(s) < s.len() {
            assert(s.skip(1)[comment_len(s) - 1] == s[comment_len(s)]);
        }
    }
}

/// The comment ends exactly at the next newline, or at end of input.
pub proof fn lemma_comment_len_is(s: Seq<char>, m: int)
    requires
        0 <= m <= s.len(),
        forall|i: int| 0 <= i < m ==> s[i] != '\n',
        m < s.len() ==> s[m] == '\n',
    ensures
        comment_len(s) == m,
{
    lemma_comment_len(s);
}

/// `str_body_len` is the length of the maximal leading quote-free run.
pub proof fn lemma_str_body_len(s: Seq<char>)
    ensures
        0 <= str_body_len(s) <= s.len(),
        forall|i: int| 0 <= i < str_body_len(s) ==> s[i] != '"',
        str_body_len(s) < s.len() ==> s[str_body_len(s)] == '"',
    decreases s.len(),
{
    if s.len() > 0 && s[0] != '"' {
        lemma_str_body_len(s.skip(1));
        assert forall|i: int| 0 <= i < str_body_len(s) implies s[i] != '"' by {
            if i > 0 {
                assert(s.skip(1)[i - 1] == s[i]);
            }
        }
        if str_body_len(s) < s.len() {
            assert(s.skip(1)[str_body_len(s) - 1] == s[str_body_len(s)]);
        }
    }
}

/// The string body ends exactly at the closing quote, or at end of input.
pub proof fn lemma_str_body_len_is(s: Seq<char>, m: int)
    requires
        0 <= m <= s.len(),
        forall|i: int| 0 <= i < m ==> s[i] != '"',
        m < s.len() ==> s[m] == '"',
    ensures
        str_body_len(s) == m,
{
    lemma_str_body_len(s);
}

/// A numeric lexeme is never empty and never longer than the input.
pub proof fn lemma_number_len(s: Seq<char>)
    ensures
        0 <= number_len(s) <= s.len(),
        s.len() > 0 && spec_is_digit(s[0]) ==> 1 <= number_len(s),
{
    lemma_digits_len(s);
    let d = digits_len(s);
    if d < s.len() && s[d] == '.' && d + 1 < s.len() && spec_is_digit(s[d + 1]) {
        lemma_digits_len(s.skip(d + 1));
    }
}

// ---------------------------------------------------------------------------
// Views of the executable token and diagnostic vectors
// ---------------------------------------------------------------------------
/// The mathematical token sequence that a token vector stands for.
pub open spec fn tokens_view(ts: Seq<Token>) -> Seq<SpecToken> {
    ts.map_values(|t: Token| t@)
}

/// The mathematical diagnostic sequence that a diagnostic vector stands for.
pub open spec fn diags_view(ds: Seq<Diagnostic>) -> Seq<SpecDiag> {
    ds.map_values(|d: Diagnostic| d@)
}

pub proof fn lemma_tokens_view_push(ts: Seq<Token>, t: Token)
    ensures
        tokens_view(ts.push(t)) =~= tokens_view(ts).push(t@),
{
}

pub proof fn lemma_diags_view_push(ds: Seq<Diagnostic>, d: Diagnostic)
    ensures
        diags_view(ds.push(d)) =~= diags_view(ds).push(d@),
{
}

// ---------------------------------------------------------------------------
// One-step unfoldings of `scan_rest`, in whole-source coordinates
// ---------------------------------------------------------------------------
/// A single-character punctuation token at position `i`.
pub proof fn lemma_step_single(s: Seq<char>, i: int, line: int, ty: TokenType)
    requires
        0 <= i < s.len(),
        single_type(s[i]) == Option::Some(ty),
    ensures
        scan_rest(s.skip(i), line).tokens =~= seq![plain_token(ty, s.subrange(i, i + 1), line)]
            + scan_rest(s.skip(i + 1), line).tokens,
        scan_rest(s.skip(i), line).diags =~= scan_rest(s.skip(i + 1), line).diags,
{
    let r = s.skip(i);
    assert(r[0] == s[i]);
    assert(r.skip(1) =~= s.skip(i + 1));
    assert(r.take(1) =~= s.subrange(i, i + 1));
}

/// A two-character operator (`!=`, `==`, `<=`, `>=`) at position `i`.
pub proof fn lemma_step_op_two(s: Seq<char>, i: int, line: int, one: TokenType, two: TokenType)
    requires
        0 <= i,
        i + 1 < s.len(),
        op_types(s[i]) == Option::Some((one, two)),
        s[i + 1] == '=',
    ensures
        scan_rest(s.skip(i), line).tokens =~= seq![plain_token(two, s.subrange(i, i + 2), line)]
            + scan_rest(s.skip(i + 2), line).tokens,
        scan_rest(s.skip(i), line).diags =~= scan_rest(s.skip(i + 2), line).diags,
{
    let r = s.skip(i);
    assert(r[0] == s[i]);
    assert(r[1] == s[i + 1]);
    assert(r.skip(2) =~= s.skip(i + 2));
    assert(r.take(2) =~= s.subrange(i, i + 2));
}

/// A one-character operator (`!`, `=`, `<`, `>`) not followed by `=`.
pub proof fn lemma_step_op_one(s: Seq<char>, i: int, line: int, one: TokenType, two: TokenType)
    requires
        0 <= i < s.len(),
        op_types(s[i]) == Option::Some((one, two)),
        i + 1 == s.len() || s[i + 1] != '=',
    ensures
        scan_rest(s.skip(i), line).tokens =~= seq![plain_token(one, s.subrange(i, i + 1), line)]
            + scan_rest(s.skip(i + 1), line).tokens,
        scan_rest(s.skip(i), line).diags =~= scan_rest(s.skip(i + 1), line).diags,
{
    let r = s.skip(i);
    assert(r[0] == s[i]);
    if i + 1 < s.len() {
        assert(r[1] == s[i + 1]);
    }
    assert(r.skip(1) =~= s.skip(i + 1));
    assert(r.take(1) =~= s.subrange(i, i + 1));
}

/// A line comment `//...`: everything up to the next newline is consumed
/// and nothing is emitted.
pub proof fn lemma_step_comment(s: Seq<char>, i: int, line: int)
    requires
        0 <= i,
        i + 1 < s.len(),
        s[i] == '/',
        s[i + 1] == '/',
    ensures
        scan_rest(s.skip(i), line) == scan_rest(
            s.skip(i + 2 + comment_len(s.skip(i + 2))),
            line,
        ),
{
    let r = s.skip(i);
    assert(r[0] == s[i]);
    assert(r[1] == s[i + 1]);
    assert(r.skip(2) =~= s.skip(i + 2));
    let cl = comment_len(s.skip(i + 2));
    lemma_comment_len(s.skip(i + 2));
    assert(r.skip(2 + cl) =~= s.skip(i + 2 + cl));
}

/// A `/` not starting a comment: a `Slash` token.
pub proof fn lemma_step_slash(s: Seq<char>, i: int, line: int)
    requires
        0 <= i < s.len(),
        s[i] == '/',
        i + 1 == s.len() || s[i + 1] != '/',
    ensures
        scan_rest(s.skip(i), line).tokens =~= seq![
            plain_token(TokenType::Slash, s.subrange(i, i + 1), line),
        ] + scan_rest(s.skip(i + 1), line).tokens,
        scan_rest(s.skip(i), line).diags =~= scan_rest(s.skip(i + 1), line).diags,
{
    let r = s.skip(i);
    assert(r[0] == s[i]);
    if i + 1 < s.len() {
        assert(r[1] == s[i + 1]);
    }
    assert(r.skip(1) =~= s.skip(i + 1));
    assert(r.take(1) =~= s.subrange(i, i + 1));
}

/// Whitespace is consumed silently.
pub proof fn lemma_step_ws(s: Seq<char>, i: int, line: int)
    requires
        0 <= i < s.len(),
        s[i] == ' ' || s[i] == '\r' || s[i] == '\t',
    ensures
        scan_rest(s.skip(i), line) == scan_rest(s.skip(i + 1), line),
{
    let r = s.skip(i);
    assert(r[0] == s[i]);
    assert(r.skip(1) =~= s.skip(i + 1));
}

/// A newline is consumed silently and the line counter moves on.
pub proof fn lemma_step_newline(s: Seq<char>, i: int, line: int)
    requires
        0 <= i < s.len(),
        s[i] == '\n',
    ensures
        scan_rest(s.skip(i), line) == scan_rest(s.skip(i + 1), line + 1),
{
    let r = s.skip(i);
    assert(r[0] == s[i]);
    assert(r.skip(1) =~= s.skip(i + 1));
}

/// A terminated string literal starting at position `i`. The token is
/// stamped with the line its opening quote sits on; the scan continues on
/// the line its closing quote sits on.
pub proof fn lemma_step_string(s: Seq<char>, i: int, line: int)
    requires
        0 <= i < s.len(),
        s[i] == '"',
        i + 1 + str_body_len(s.skip(i + 1)) < s.len(),
    ensures
        ({
            let b = str_body_len(s.skip(i + 1));
            let value = s.subrange(i + 1, i + 1 + b);
            let line2 = line + count_nl(value);
            scan_rest(s.skip(i), line).tokens =~= seq![
                string_token(s.subrange(i, i + b + 2), value, line),
            ] + scan_rest(s.skip(i + b + 2), line2).tokens
                && scan_rest(s.skip(i), line).diags =~= scan_rest(s.skip(i + b + 2), line2).diags
        }),
{
    let r = s.skip(i);
    assert(r[0] == s[i]);
    assert(r.skip(1) =~= s.skip(i + 1));
    let b = str_body_len(s.skip(i + 1));
    lemma_str_body_len(s.skip(i + 1));
    assert(r.subrange(1, 1 + b) =~= s.subrange(i + 1, i + 1 + b));
    assert(r.take(b + 2) =~= s.subrange(i, i + b + 2));
    assert(r.skip(b + 2) =~= s.skip(i + b + 2));
}

/// An unterminated string: one diagnostic, and the pass ends with the
/// sentinel on the line the input ran out on.
pub proof fn lemma_step_string_unterminated(s: Seq<char>, i: int, line: int)
    requires
        0 <= i < s.len(),
        s[i] == '"',
        i + 1 + str_body_len(s.skip(i + 1)) >= s.len(),
    ensures
        ({
            let line2 = line + count_nl(s.skip(i + 1));
            scan_rest(s.skip(i), line).tokens =~= seq![spec_eof(line2)] && scan_rest(
                s.skip(i),
                line,
            ).diags =~= seq![SpecDiag { kind: DiagnosticKind::UnterminatedString, line: line2 }]
        }),
{
    reveal_with_fuel(scan_rest, 2);
    let r = s.skip(i);
    assert(r[0] == s[i]);
    assert(r.skip(1) =~= s.skip(i + 1));
    lemma_str_body_len(s.skip(i + 1));
    let e = r.skip(r.len() as int);
    assert(e.len() == 0);
}

/// A numeric literal starting at position `i`.
pub proof fn lemma_step_number(s: Seq<char>, i: int, line: int)
    requires
        0 <= i < s.len(),
        spec_is_digit(s[i]),
    ensures
        ({
            let n = number_len(s.skip(i));
            scan_rest(s.skip(i), line).tokens =~= seq![
                number_token(s.subrange(i, i + n), line),
            ] + scan_rest(s.skip(i + n), line).tokens
                && scan_rest(s.skip(i), line).diags =~= scan_rest(s.skip(i + n), line).diags
        }),
{
    let r = s.skip(i);
    assert(r[0] == s[i]);
    let n = number_len(r);
    lemma_number_len(r);
    assert(r.take(n) =~= s.subrange(i, i + n));
    assert(r.skip(n) =~= s.skip(i + n));
}

/// An identifier or keyword starting at position `i`.
pub proof fn lemma_step_ident(s: Seq<char>, i: int, line: int)
    requires
        0 <= i < s.len(),
        spec_is_alpha(s[i]),
    ensures
        ({
            let n = ident_len(s.skip(i));
            let lex = s.subrange(i, i + n);
            scan_rest(s.skip(i), line).tokens =~= seq![plain_token(ident_type(lex), lex, line)]
                + scan_rest(s.skip(i + n), line).tokens
                && scan_rest(s.skip(i), line).diags =~= scan_rest(s.skip(i + n), line).diags
        }),
{
    let r = s.skip(i);
    assert(r[0] == s[i]);
    let n = ident_len(r);
    lemma_ident_len(r);
    assert(r.take(n) =~= s.subrange(i, i + n));
    assert(r.skip(n) =~= s.skip(i + n));
}

/// A character no rule accepts: one diagnostic, the character is skipped.
pub proof fn lemma_step_unexpected(s: Seq<char>, i: int, line: int)
    requires
        0 <= i < s.len(),
        !recognized_char(s[i]),
    ensures
        scan_rest(s.skip(i), line).tokens =~= scan_rest(s.skip(i + 1), line).tokens,
        scan_rest(s.skip(i), line).diags =~= seq![
            SpecDiag { kind: DiagnosticKind::UnexpectedCharacter, line },
        ] + scan_rest(s.skip(i + 1), line).diags,
{
    let r = s.skip(i);
    assert(r[0] == s[i]);
    assert(r.skip(1) =~= s.skip(i + 1));
}

} // verus!
