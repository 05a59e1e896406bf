//! Laws of the scan, stated and proved once and for all over the model in
//! `crate::model`. Since `Scanner::run` is proved to return exactly
//! `scan_rest(source, 1)`, each law here holds of the executable scanner.

use crate::diagnostic::{DiagnosticKind, SpecDiag};
use crate::model::{
    comment_len, count_nl, digits_len, ident_len, ident_type, lemma_comment_len,
    lemma_digits_len, lemma_digits_len_is, lemma_ident_len, lemma_ident_len_is, lemma_number_len,
    lemma_str_body_len, lemma_str_body_len_is, number_len, number_token, op_types, plain_token,
    recognized_char, scan_rest, single_type, spec_eof, spec_is_alnum, spec_is_alpha,
    spec_is_digit, str_body_len, string_token,
};
use crate::token::{spec_keyword, SpecLiteral, SpecToken, TokenType};
use vstd::prelude::*;

verus! {

/// The scan of any input yields at least one token; the last one is the
/// end-of-input sentinel, and no other token is a sentinel.
pub proof fn lemma_ends_in_one_eof(s: Seq<char>, line: int)
    ensures
        scan_rest(s, line).tokens.len() >= 1,
        scan_rest(s, line).tokens.last().token_type == TokenType::Eof,
        forall|k: int|
            0 <= k < scan_rest(s, line).tokens.len() - 1 ==> (#[trigger] scan_rest(
                s,
                line,
            ).tokens[k]).token_type != TokenType::Eof,
    decreases s.len(),
{
    if s.len() == 0 {
    } else {
        let c = s[0];
        match single_type(c) {
            Option::Some(ty) => {
                lemma_ends_in_one_eof(s.skip(1), line);
            },
            Option::None => match op_types(c) {
                Option::Some(pair) => {
                    if s.len() >= 2 && s[1] == '=' {
                        lemma_ends_in_one_eof(s.skip(2), line);
                    } else {
                        lemma_ends_in_one_eof(s.skip(1), line);
                    }
                },
                Option::None => {
                    if c == '/' {
                        if s.len() >= 2 && s[1] == '/' {
                            lemma_comment_len(s.skip(2));
                            lemma_ends_in_one_eof(s.skip(2 + comment_len(s.skip(2))), line);
                        } else {
                            lemma_ends_in_one_eof(s.skip(1), line);
                        }
                    } else if c == ' ' || c == '\r' || c == '\t' {
                        lemma_ends_in_one_eof(s.skip(1), line);
                    } else if c == '\n' {
                        lemma_ends_in_one_eof(s.skip(1), line + 1);
                    } else if c == '"' {
                        let b = str_body_len(s.skip(1));
                        lemma_str_body_len(s.skip(1));
                        if 1 + b < s.len() {
                            lemma_ends_in_one_eof(
                                s.skip(b + 2),
                                line + count_nl(s.subrange(1, 1 + b)),
                            );
                        } else {
                            lemma_ends_in_one_eof(
                                s.skip(s.len() as int),
                                line + count_nl(s.skip(1)),
                            );
                        }
                    } else if spec_is_digit(c) {
                        lemma_number_len(s);
                        lemma_ends_in_one_eof(s.skip(number_len(s)), line);
                    } else if spec_is_alpha(c) {
                        lemma_ident_len(s);
                        lemma_ends_in_one_eof(s.skip(ident_len(s)), line);
                    } else {
                        lemma_ends_in_one_eof(s.skip(1), line);
                    }
                },
            },
        }
    }
}

/// If no character of the input is accepted by any scanning rule, the
/// scan emits no token but the sentinel, and one unexpected-character
/// diagnostic per character, all on line `line`.
pub proof fn lemma_unrecognized_input(s: Seq<char>, line: int)
    requires
        forall|k: int| 0 <= k < s.len() ==> !recognized_char(#[trigger] s[k]),
    ensures
        scan_rest(s, line).tokens =~= seq![spec_eof(line)],
        scan_rest(s, line).diags.len() == s.len(),
        forall|k: int|
            0 <= k < s.len() ==> #[trigger] scan_rest(s, line).diags[k] == (SpecDiag {
                kind: DiagnosticKind::UnexpectedCharacter,
                line,
            }),
    decreases s.len(),
{
    if s.len() > 0 {
        assert(!recognized_char(s[0]));
        assert forall|k: int| 0 <= k < s.skip(1).len() implies !recognized_char(
            #[trigger] s.skip(1)[k],
        ) by {
            assert(s.skip(1)[k] == s[k + 1]);
        }
        lemma_unrecognized_input(s.skip(1), line);
    }
}

/// Wrapping any quote-free text in quotes and scanning it yields exactly
/// one string token, whose payload is that text again: scanning is a left
/// inverse of quoting. (Every payload a scan produces is quote-free, see
/// `lemma_literal_shapes`, so re-scanning a scanned string literal gives
/// the same payload back.)
pub proof fn lemma_string_roundtrip(v: Seq<char>, line: int)
    requires
        forall|k: int| 0 <= k < v.len() ==> #[trigger] v[k] != '"',
    ensures
        ({
            let s = seq!['"'] + v + seq!['"'];
            let out = scan_rest(s, line);
            &&& out.tokens =~= seq![string_token(s, v, line), spec_eof(line + count_nl(v))]
            &&& out.diags =~= Seq::<SpecDiag>::empty()
        }),
{
    reveal_with_fuel(scan_rest, 2);
    let s = seq!['"'] + v + seq!['"'];
    assert(s.len() == v.len() + 2);
    assert(s[0] == '"');
    assert(s.skip(1) =~= v + seq!['"']);
    assert forall|k: int| 0 <= k < v.len() implies s.skip(1)[k] != '"' by {
        assert(s.skip(1)[k] == v[k]);
    }
    assert(s.skip(1)[v.len() as int] == '"');
    lemma_str_body_len_is(s.skip(1), v.len() as int);
    assert(s.subrange(1, 1 + v.len() as int) =~= v);
    assert(s.take(v.len() as int + 2) =~= s);
    assert(s.skip(v.len() as int + 2).len() == 0);
}

/// The shape of every literal payload the scan ever emits: a number token
/// carries exactly its lexeme, which matches `digits (.digits)?`; a string
/// token carries its lexeme stripped of the two enclosing quotes, and the
/// payload never contains a quote; every other token carries no payload.
pub open spec fn token_shape_ok(t: SpecToken) -> bool {
    &&& (t.token_type == TokenType::Number ==> t.literal == Option::Some(
        SpecLiteral::Num(t.lexeme),
    ) && number_shaped(t.lexeme))
    &&& (t.token_type == TokenType::String ==> (match t.literal {
        Option::Some(SpecLiteral::Str(v)) => t.lexeme == seq!['"'] + v + seq!['"'] && (forall|
            j: int,
        | 0 <= j < v.len() ==> #[trigger] v[j] != '"'),
        _ => false,
    }))
    &&& (t.token_type != TokenType::Number && t.token_type != TokenType::String ==> t.literal
        is None)
}

/// The lexeme of a numeric literal: a non-empty run of digits, optionally
/// followed by a dot and another non-empty run of digits.
pub open spec fn number_shaped(x: Seq<char>) -> bool {
    let d = digits_len(x);
    &&& x.len() > 0
    &&& d > 0
    &&& (d == x.len() || (x[d] == '.' && d + 1 < x.len() && digits_len(x.skip(d + 1)) == x.len()
        - d - 1))
}

/// If the head token is well-shaped and so is every token of the tail,
/// every token of the whole sequence is.
proof fn lemma_shape_cons(tok: SpecToken, rest: Seq<SpecToken>, ts: Seq<SpecToken>)
    requires
        ts == seq![tok] + rest,
        token_shape_ok(tok),
        forall|k: int| 0 <= k < rest.len() ==> token_shape_ok(#[trigger] rest[k]),
    ensures
        forall|k: int| 0 <= k < ts.len() ==> token_shape_ok(#[trigger] ts[k]),
{
    assert forall|k: int| 0 <= k < ts.len() implies token_shape_ok(#[trigger] ts[k]) by {
        if k > 0 {
            assert(ts[k] == rest[k - 1]);
        }
    }
}

/// Every token of every scan satisfies `token_shape_ok`.
pub proof fn lemma_literal_shapes(s: Seq<char>, line: int)
    ensures
        forall|k: int|
            0 <= k < scan_rest(s, line).tokens.len() ==> token_shape_ok(
                #[trigger] scan_rest(s, line).tokens[k],
            ),
    decreases s.len(),
{
    if s.len() == 0 {
        assert(token_shape_ok(spec_eof(line)));
        assert forall|k: int| 0 <= k < scan_rest(s, line).tokens.len() implies token_shape_ok(
            #[trigger] scan_rest(s, line).tokens[k],
        ) by {
            assert(scan_rest(s, line).tokens[k] == spec_eof(line));
        }
    } else {
        let c = s[0];
        match single_type(c) {
            Option::Some(ty) => {
                lemma_literal_shapes(s.skip(1), line);
                lemma_shape_cons(
                    plain_token(ty, s.take(1), line),
                    scan_rest(s.skip(1), line).tokens,
                    scan_rest(s, line).tokens,
                );
            },
            Option::None => match op_types(c) {
                Option::Some(pair) => {
                    if s.len() >= 2 && s[1] == '=' {
                        lemma_literal_shapes(s.skip(2), line);
                        lemma_shape_cons(
                            plain_token(pair.1, s.take(2), line),
                            scan_rest(s.skip(2), line).tokens,
                            scan_rest(s, line).tokens,
                        );
                    } else {
                        lemma_literal_shapes(s.skip(1), line);
                        lemma_shape_cons(
                            plain_token(pair.0, s.take(1), line),
                            scan_rest(s.skip(1), line).tokens,
                            scan_rest(s, line).tokens,
                        );
                    }
                },
                Option::None => {
                    if c == '/' {
                        if s.len() >= 2 && s[1] == '/' {
                            let rest = s.skip(2 + comment_len(s.skip(2)));
                            lemma_comment_len(s.skip(2));
                            lemma_literal_shapes(rest, line);
                            assert forall|k: int|
                                0 <= k < scan_rest(s, line).tokens.len() implies token_shape_ok(
                                #[trigger] scan_rest(s, line).tokens[k],
                            ) by {
                                assert(scan_rest(s, line).tokens[k] == scan_rest(
                                    rest,
                                    line,
                                ).tokens[k]);
                            }
                        } else {
                            lemma_literal_shapes(s.skip(1), line);
                            lemma_shape_cons(
                                plain_token(TokenType::Slash, s.take(1), line),
                                scan_rest(s.skip(1), line).tokens,
                                scan_rest(s, line).tokens,
                            );
                        }
                    } else if c == ' ' || c == '\r' || c == '\t' {
                        lemma_literal_shapes(s.skip(1), line);
                        assert forall|k: int|
                            0 <= k < scan_rest(s, line).tokens.len() implies token_shape_ok(
                            #[trigger] scan_rest(s, line).tokens[k],
                        ) by {
                            assert(scan_rest(s, line).tokens[k] == scan_rest(
                                s.skip(1),
                                line,
                            ).tokens[k]);
                        }
                    } else if c == '\n' {
                        lemma_literal_shapes(s.skip(1), line + 1);
                        assert forall|k: int|
                            0 <= k < scan_rest(s, line).tokens.len() implies token_shape_ok(
                            #[trigger] scan_rest(s, line).tokens[k],
                        ) by {
                            assert(scan_rest(s, line).tokens[k] == scan_rest(
                                s.skip(1),
                                line + 1,
                            ).tokens[k]);
                        }
                    } else if c == '"' {
                        let b = str_body_len(s.skip(1));
                        lemma_str_body_len(s.skip(1));
                        if 1 + b < s.len() {
                            let value = s.subrange(1, 1 + b);
                            let line2 = line + count_nl(value);
                            lemma_literal_shapes(s.skip(b + 2), line2);
                            assert forall|j: int| 0 <= j < value.len() implies #[trigger] value[j]
                                != '"' by {
                                assert(value[j] == s.skip(1)[j]);
                            }
                            assert(s.skip(1)[b] == '"');
                            assert(s.take(b + 2) =~= seq!['"'] + value + seq!['"']);
                            assert(token_shape_ok(string_token(s.take(b + 2), value, line)));
                            lemma_shape_cons(
                                string_token(s.take(b + 2), value, line),
                                scan_rest(s.skip(b + 2), line2).tokens,
                                scan_rest(s, line).tokens,
                            );
                        } else {
                            lemma_literal_shapes(
                                s.skip(s.len() as int),
                                line + count_nl(s.skip(1)),
                            );
                            assert(scan_rest(s, line).tokens =~= scan_rest(
                                s.skip(s.len() as int),
                                line + count_nl(s.skip(1)),
                            ).tokens);
                            assert forall|k: int|
                                0 <= k < scan_rest(s, line).tokens.len() implies token_shape_ok(
                                #[trigger] scan_rest(s, line).tokens[k],
                            ) by {
                                assert(scan_rest(s, line).tokens[k] == scan_rest(
                                    s.skip(s.len() as int),
                                    line + count_nl(s.skip(1)),
                                ).tokens[k]);
                            }
                        }
                    } else if spec_is_digit(c) {
                        let n = number_len(s);
                        lemma_number_len(s);
                        lemma_literal_shapes(s.skip(n), line);
                        lemma_number_lexeme_shaped(s);
                        assert(token_shape_ok(number_token(s.take(n), line)));
                        lemma_shape_cons(
                            number_token(s.take(n), line),
                            scan_rest(s.skip(n), line).tokens,
                            scan_rest(s, line).tokens,
                        );
                    } else if spec_is_alpha(c) {
                        let n = ident_len(s);
                        lemma_ident_len(s);
                        lemma_literal_shapes(s.skip(n), line);
                        lemma_shape_cons(
                            plain_token(ident_type(s.take(n)), s.take(n), line),
                            scan_rest(s.skip(n), line).tokens,
                            scan_rest(s, line).tokens,
                        );
                    } else {
                        lemma_literal_shapes(s.skip(1), line);
                        assert(scan_rest(s, line).tokens =~= scan_rest(s.skip(1), line).tokens);
                        assert forall|k: int|
                            0 <= k < scan_rest(s, line).tokens.len() implies token_shape_ok(
                            #[trigger] scan_rest(s, line).tokens[k],
                        ) by {
                            assert(scan_rest(s, line).tokens[k] == scan_rest(
                                s.skip(1),
                                line,
                            ).tokens[k]);
                        }
                    }
                },
            },
        }
    }
}

/// The lexeme cut out by `number_len` matches `digits (.digits)?`.
proof fn lemma_number_lexeme_shaped(s: Seq<char>)
    requires
        s.len() > 0,
        spec_is_digit(s[0]),
    ensures
        number_shaped(s.take(number_len(s))),
{
    let d = digits_len(s);
    lemma_digits_len(s);
    let n = number_len(s);
    let x = s.take(n);
    if d < s.len() && s[d] == '.' && d + 1 < s.len() && spec_is_digit(s[d + 1]) {
        let e = digits_len(s.skip(d + 1));
        lemma_digits_len(s.skip(d + 1));
        assert(s.skip(d + 1)[0] == s[d + 1]);
        assert(e >= 1);
        assert(n == d + 1 + e);
        assert forall|k: int| 0 <= k < d implies spec_is_digit(x[k]) by {
            assert(x[k] == s[k]);
        }
        assert(x[d] == s[d]);
        lemma_digits_len_is(x, d);
        assert forall|k: int| 0 <= k < e implies spec_is_digit(#[trigger] x.skip(d + 1)[k]) by {
            assert(x.skip(d + 1)[k] == s[d + 1 + k]);
            assert(s.skip(d + 1)[k] == s[d + 1 + k]);
        }
        lemma_digits_len_is(x.skip(d + 1), e);
    } else {
        assert(n == d);
        assert forall|k: int| 0 <= k < d implies spec_is_digit(x[k]) by {
            assert(x[k] == s[k]);
        }
        lemma_digits_len_is(x, d);
    }
}

/// The sequence of `k` newline characters.
pub open spec fn newlines(k: nat) -> Seq<char> {
    Seq::new(k, |i: int| '\n')
}

/// Line tracking: `k` newlines in front of the input shift every line
/// number the scan reports by exactly `k` — scanning the rest from line
/// `line + k` is the same as scanning the whole from line `line`.
pub proof fn lemma_newline_prefix(s: Seq<char>, k: nat, line: int)
    ensures
        scan_rest(newlines(k) + s, line) == scan_rest(s, line + k),
    decreases k,
{
    if k == 0 {
        assert(newlines(0) + s =~= s);
    } else {
        let t = newlines(k) + s;
        assert(t.len() > 0);
        assert(t[0] == '\n');
        assert(t.skip(1) =~= newlines((k - 1) as nat) + s);
        lemma_newline_prefix(s, (k - 1) as nat, line + 1);
    }
}

/// Maximal munch at the keyword boundary: a run of identifier characters
/// is one single lexeme, and it is a keyword token only on an exact,
/// whole-lexeme match. In particular a keyword followed by more identifier
/// characters scans as one identifier, never as the keyword plus a rest.
pub proof fn lemma_keyword_needs_exact_match(s: Seq<char>, line: int)
    requires
        s.len() > 0,
        spec_is_alpha(s[0]),
        forall|k: int| 0 <= k < s.len() ==> spec_is_alnum(#[trigger] s[k]),
        spec_keyword(s) is None,
    ensures
        scan_rest(s, line).tokens =~= seq![
            plain_token(TokenType::Identifier, s, line),
            spec_eof(line),
        ],
        scan_rest(s, line).diags =~= Seq::<SpecDiag>::empty(),
{
    reveal_with_fuel(scan_rest, 2);
    lemma_ident_len_is(s, s.len() as int);
    assert(s.take(s.len() as int) =~= s);
    assert(ident_type(s) == TokenType::Identifier);
    assert(s.skip(s.len() as int).len() == 0);
}

} // verus!
