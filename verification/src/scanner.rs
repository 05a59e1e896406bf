//! The scanner: one forward pass over the source text, emitting tokens and
//! structured diagnostics. Every method is verified against the model in
//! `crate::model`: `run` produces exactly `scan_rest(source, 1)`.

use crate::diagnostic::{Diagnostic, DiagnosticKind, SpecDiag};
use crate::model::{
    count_nl, diags_view, lemma_comment_len_is, lemma_diags_view_push, lemma_digits_len_is,
    lemma_ident_len_is, lemma_str_body_len_is, lemma_step_comment, lemma_step_ident,
    lemma_step_newline, lemma_step_number, lemma_step_op_one, lemma_step_op_two,
    lemma_step_single, lemma_step_slash, lemma_step_string, lemma_step_string_unterminated,
    lemma_step_unexpected, lemma_step_ws, lemma_tokens_view_push, number_len, number_token,
    plain_token, scan_rest, spec_eof, spec_is_alnum, spec_is_alpha, spec_is_digit, string_token,
    tokens_view, ScanOut,
};
use crate::token::{spec_literal, LiteralValue, SpecToken, Token, TokenType};
use vstd::prelude::*;
use vstd::string::{StrSliceExecFns, StringExecFns};

verus! {

/// Appending one element and then a tail is the same as appending the
/// element-then-tail in one piece.
proof fn lemma_push_cons<A>(xs: Seq<A>, x: A, rest: Seq<A>)
    ensures
        xs.push(x) + rest =~= xs + (seq![x] + rest),
{
}

/// Materialize a string into a random-access sequence of characters, so
/// that the scanner's cursor arithmetic is over plain indices.
fn to_chars(s: &str) -> (v: Vec<char>)
    ensures
        v@ == s@,
{
    let n = s.unicode_len();
    let mut v: Vec<char> = Vec::new();
    let mut i: usize = 0;
    while i < n
        invariant
            i <= n,
            n == s@.len(),
            v@ == s@.take(i as int),
        decreases n - i,
    {
        let c = s.get_char(i);
        v.push(c);
        proof {
            assert(s@.take(i as int).push(s@[i as int]) =~= s@.take(i + 1));
        }
        i = i + 1;
    }
    proof {
        assert(s@.take(n as int) =~= s@);
    }
    v
}

/// The scanner state for one pass: the source (both as the string it was
/// given and as a random-access character buffer), the tokens and diagnostics
/// produced so far, the lexeme cursor pair, the 1-based line counter, and
/// the sticky error flag.
pub struct Scanner {
    pub source: String,
    pub chars: Vec<char>,
    pub tokens: Vec<Token>,
    pub diagnostics: Vec<Diagnostic>,
    pub start: usize,
    pub current: usize,
    pub line: usize,
    pub had_error: bool,
}

impl Scanner {
    /// Internal well-formedness: the character buffer mirrors the source,
    /// the cursor pair is in bounds, the line counter cannot outrun the
    /// cursor, and the error flag agrees with the recorded diagnostics.
    pub closed spec fn wf(self) -> bool {
        &&& self.source@ == self.chars@
        &&& self.current <= self.chars@.len()
        &&& self.start <= self.current
        &&& self.chars@.len() < usize::MAX
        &&& 1 <= self.line
        &&& self.line as int <= 1 + self.current as int
        &&& self.had_error == (self.diagnostics@.len() > 0)
    }

    /// The output the whole pass will have produced once it finishes, were
    /// the cursor at `pos` on line `line`: what is already recorded,
    /// followed by everything the model says the rest of the input yields.
    pub closed spec fn outcome_at(self, pos: int, line: int) -> ScanOut {
        ScanOut {
            tokens: tokens_view(self.tokens@) + scan_rest(self.chars@.skip(pos), line).tokens,
            diags: diags_view(self.diagnostics@) + scan_rest(self.chars@.skip(pos), line).diags,
        }
    }

    /// `outcome_at` at the scanner's own cursor.
    pub closed spec fn outcome(self) -> ScanOut {
        self.outcome_at(self.current as int, self.line as int)
    }

    /// A fresh scanner: empty source, no tokens, no diagnostics, cursor at
    /// the origin, line 1, no error.
    pub fn default() -> (s: Scanner)
        ensures
            s.wf(),
            s.source@ == Seq::<char>::empty(),
            s.chars@ == Seq::<char>::empty(),
            s.tokens@.len() == 0,
            s.diagnostics@.len() == 0,
            s.start == 0,
            s.current == 0,
            s.line == 1,
            !s.had_error,
    {
        Scanner {
            source: String::new(),
            chars: Vec::new(),
            tokens: Vec::new(),
            diagnostics: Vec::new(),
            start: 0,
            current: 0,
            line: 1,
            had_error: false,
        }
    }

    /// Scan one complete source string. Afterwards `tokens` is exactly the
    /// token sequence of the model (always ending in the end-of-input
    /// sentinel), `diagnostics` is exactly its diagnostic sequence, and
    /// `had_error` says whether there was at least one diagnostic.
    ///
    /// The length bound is a machine limit: the line counter must fit in
    /// `usize` even if every character is a newline.
    pub fn run(&mut self, source: String)
        requires
            source@.len() < usize::MAX,
        ensures
            final(self).wf(),
            tokens_view(final(self).tokens@) == scan_rest(source@, 1).tokens,
            diags_view(final(self).diagnostics@) == scan_rest(source@, 1).diags,
            final(self).had_error == (scan_rest(source@, 1).diags.len() > 0),
    {
        let chars = to_chars(source.as_str());
        self.source = source;
        self.chars = chars;
        self.tokens = Vec::new();
        self.diagnostics = Vec::new();
        self.start = 0;
        self.current = 0;
        self.line = 1;
        self.had_error = false;
        self.scan_tokens();
    }

    /// The main loop: scan lexeme after lexeme until the input is
    /// exhausted, then append the end-of-input sentinel.
    fn scan_tokens(&mut self)
        requires
            old(self).wf(),
            old(self).current == 0,
            old(self).line == 1,
            old(self).tokens@.len() == 0,
            old(self).diagnostics@.len() == 0,
        ensures
            final(self).wf(),
            tokens_view(final(self).tokens@) == scan_rest(old(self).chars@, 1).tokens,
            diags_view(final(self).diagnostics@) == scan_rest(old(self).chars@, 1).diags,
            final(self).had_error == (scan_rest(old(self).chars@, 1).diags.len() > 0),
    {
        let ghost s = self.chars@;
        let ghost init = *self;
        while self.current < self.chars.len()
            invariant
                self.wf(),
                self.chars@ == s,
                self.outcome() == init.outcome(),
            decreases s.len() - self.current,
        {
            self.start = self.current;
            self.scan_token();
        }
        proof {
            assert(s.skip(0) =~= s);
            assert(tokens_view(init.tokens@) =~= Seq::<SpecToken>::empty());
            assert(diags_view(init.diagnostics@) =~= Seq::<SpecDiag>::empty());
            assert(init.outcome().tokens =~= scan_rest(s, 1).tokens);
            assert(init.outcome().diags =~= scan_rest(s, 1).diags);
            assert(s.skip(self.current as int).len() == 0);
        }
        let ghost before = *self;
        let eof_token = Token {
            token_type: TokenType::Eof,
            lexeme: String::new(),
            literal: Option::None,
            line: self.line,
        };
        proof {
            lemma_tokens_view_push(self.tokens@, eof_token);
            assert(eof_token@ =~= spec_eof(self.line as int));
        }
        self.tokens.push(eof_token);
        proof {
            let l = before.line as int;
            assert(scan_rest(s.skip(before.current as int), l).tokens =~= seq![spec_eof(l)]);
            assert(scan_rest(s.skip(before.current as int), l).diags =~= Seq::<SpecDiag>::empty());
            assert(tokens_view(self.tokens@) =~= tokens_view(before.tokens@) + seq![spec_eof(l)]);
            assert(tokens_view(self.tokens@) =~= scan_rest(s, 1).tokens);
            assert(diags_view(self.diagnostics@) =~= scan_rest(s, 1).diags);
        }
    }

    /// Scan a single lexeme: consume one character, dispatch on it, and
    /// emit whatever token or diagnostic the model prescribes for it.
    fn scan_token(&mut self)
        requires
            old(self).wf(),
            old(self).current < old(self).chars@.len(),
            old(self).start == old(self).current,
        ensures
            final(self).wf(),
            final(self).chars@ == old(self).chars@,
            old(self).current < final(self).current <= final(self).chars@.len(),
            final(self).outcome() == old(self).outcome(),
    {
        let ghost s = self.chars@;
        let ghost i = self.current as int;
        let ghost l = self.line as int;
        let ghost tv0 = tokens_view(self.tokens@);
        let ghost dv0 = diags_view(self.diagnostics@);

        let c = self.peek();
        self.current = self.current + 1;

        match c {
            '(' => {
                self.add_token(TokenType::LeftParen);
                proof {
                    lemma_step_single(s, i, l, TokenType::LeftParen);
                    lemma_push_cons(
                        tv0,
                        plain_token(TokenType::LeftParen, s.subrange(i, i + 1), l),
                        scan_rest(s.skip(i + 1), l).tokens,
                    );
                    assert(self.outcome() =~= old(self).outcome());
                }
            },
            ')' => {
                self.add_token(TokenType::RightParen);
                proof {
                    lemma_step_single(s, i, l, TokenType::RightParen);
                    lemma_push_cons(
                        tv0,
                        plain_token(TokenType::RightParen, s.subrange(i, i + 1), l),
                        scan_rest(s.skip(i + 1), l).tokens,
                    );
                    assert(self.outcome() =~= old(self).outcome());
                }
            },
            '{' => {
                self.add_token(TokenType::LeftBrace);
                proof {
                    lemma_step_single(s, i, l, TokenType::LeftBrace);
                    lemma_push_cons(
                        tv0,
                        plain_token(TokenType::LeftBrace, s.subrange(i, i + 1), l),
                        scan_rest(s.skip(i + 1), l).tokens,
                    );
                    assert(self.outcome() =~= old(self).outcome());
                }
            },
            '}' => {
                self.add_token(TokenType::RightBrace);
                proof {
                    lemma_step_single(s, i, l, TokenType::RightBrace);
                    lemma_push_cons(
                        tv0,
                        plain_token(TokenType::RightBrace, s.subrange(i, i + 1), l),
                        scan_rest(s.skip(i + 1), l).tokens,
                    );
                    assert(self.outcome() =~= old(self).outcome());
                }
            },
            ',' => {
                self.add_token(TokenType::Comma);
                proof {
                    lemma_step_single(s, i, l, TokenType::Comma);
                    lemma_push_cons(
                        tv0,
                        plain_token(TokenType::Comma, s.subrange(i, i + 1), l),
                        scan_rest(s.skip(i + 1), l).tokens,
                    );
                    assert(self.outcome() =~= old(self).outcome());
                }
            },
            '.' => {
                self.add_token(TokenType::Dot);
                proof {
                    lemma_step_single(s, i, l, TokenType::Dot);
                    lemma_push_cons(
                        tv0,
                        plain_token(TokenType::Dot, s.subrange(i, i + 1), l),
                        scan_rest(s.skip(i + 1), l).tokens,
                    );
                    assert(self.outcome() =~= old(self).outcome());
                }
            },
            '-' => {
                self.add_token(TokenType::Minus);
                proof {
                    lemma_step_single(s, i, l, TokenType::Minus);
                    lemma_push_cons(
                        tv0,
                        plain_token(TokenType::Minus, s.subrange(i, i + 1), l),
                        scan_rest(s.skip(i + 1), l).tokens,
                    );
                    assert(self.outcome() =~= old(self).outcome());
                }
            },
            '+' => {
                self.add_token(TokenType::Plus);
                proof {
                    lemma_step_single(s, i, l, TokenType::Plus);
                    lemma_push_cons(
                        tv0,
                        plain_token(TokenType::Plus, s.subrange(i, i + 1), l),
                        scan_rest(s.skip(i + 1), l).tokens,
                    );
                    assert(self.outcome() =~= old(self).outcome());
                }
            },
            ';' => {
                self.add_token(TokenType::Semicolon);
                proof {
                    lemma_step_single(s, i, l, TokenType::Semicolon);
                    lemma_push_cons(
                        tv0,
                        plain_token(TokenType::Semicolon, s.subrange(i, i + 1), l),
                        scan_rest(s.skip(i + 1), l).tokens,
                    );
                    assert(self.outcome() =~= old(self).outcome());
                }
            },
            '*' => {
                self.add_token(TokenType::Star);
                proof {
                    lemma_step_single(s, i, l, TokenType::Star);
                    lemma_push_cons(
                        tv0,
                        plain_token(TokenType::Star, s.subrange(i, i + 1), l),
                        scan_rest(s.skip(i + 1), l).tokens,
                    );
                    assert(self.outcome() =~= old(self).outcome());
                }
            },
            '!' => {
                match self.match_tokens('=') {
                    true => {
                        self.add_token(TokenType::BangEqual);
                        proof {
                            lemma_step_op_two(s, i, l, TokenType::Bang, TokenType::BangEqual);
                            lemma_push_cons(
                                tv0,
                                plain_token(TokenType::BangEqual, s.subrange(i, i + 2), l),
                                scan_rest(s.skip(i + 2), l).tokens,
                            );
                            assert(self.outcome() =~= old(self).outcome());
                        }
                    },
                    false => {
                        self.add_token(TokenType::Bang);
                        proof {
                            lemma_step_op_one(s, i, l, TokenType::Bang, TokenType::BangEqual);
                            lemma_push_cons(
                                tv0,
                                plain_token(TokenType::Bang, s.subrange(i, i + 1), l),
                                scan_rest(s.skip(i + 1), l).tokens,
                            );
                            assert(self.outcome() =~= old(self).outcome());
                        }
                    },
                }
            },
            '=' => {
                match self.match_tokens('=') {
                    true => {
                        self.add_token(TokenType::EqualEqual);
                        proof {
                            lemma_step_op_two(s, i, l, TokenType::Equal, TokenType::EqualEqual);
                            lemma_push_cons(
                                tv0,
                                plain_token(TokenType::EqualEqual, s.subrange(i, i + 2), l),
                                scan_rest(s.skip(i + 2), l).tokens,
                            );
                            assert(self.outcome() =~= old(self).outcome());
                        }
                    },
                    false => {
                        self.add_token(TokenType::Equal);
                        proof {
                            lemma_step_op_one(s, i, l, TokenType::Equal, TokenType::EqualEqual);
                            lemma_push_cons(
                                tv0,
                                plain_token(TokenType::Equal, s.subrange(i, i + 1), l),
                                scan_rest(s.skip(i + 1), l).tokens,
                            );
                            assert(self.outcome() =~= old(self).outcome());
                        }
                    },
                }
            },
            '<' => {
                match self.match_tokens('=') {
                    true => {
                        self.add_token(TokenType::LessEqual);
                        proof {
                            lemma_step_op_two(s, i, l, TokenType::Less, TokenType::LessEqual);
                            lemma_push_cons(
                                tv0,
                                plain_token(TokenType::LessEqual, s.subrange(i, i + 2), l),
                                scan_rest(s.skip(i + 2), l).tokens,
                            );
                            assert(self.outcome() =~= old(self).outcome());
                        }
                    },
                    false => {
                        self.add_token(TokenType::Less);
                        proof {
                            lemma_step_op_one(s, i, l, TokenType::Less, TokenType::LessEqual);
                            lemma_push_cons(
                                tv0,
                                plain_token(TokenType::Less, s.subrange(i, i + 1), l),
                                scan_rest(s.skip(i + 1), l).tokens,
                            );
                            assert(self.outcome() =~= old(self).outcome());
                        }
                    },
                }
            },
            '>' => {
                match self.match_tokens('=') {
                    true => {
                        self.add_token(TokenType::GreaterEqual);
                        proof {
                            lemma_step_op_two(s, i, l, TokenType::Greater, TokenType::GreaterEqual);
                            lemma_push_cons(
                                tv0,
                                plain_token(TokenType::GreaterEqual, s.subrange(i, i + 2), l),
                                scan_rest(s.skip(i + 2), l).tokens,
                            );
                            assert(self.outcome() =~= old(self).outcome());
                        }
                    },
                    false => {
                        self.add_token(TokenType::Greater);
                        proof {
                            lemma_step_op_one(s, i, l, TokenType::Greater, TokenType::GreaterEqual);
                            lemma_push_cons(
                                tv0,
                                plain_token(TokenType::Greater, s.subrange(i, i + 1), l),
                                scan_rest(s.skip(i + 1), l).tokens,
                            );
                            assert(self.outcome() =~= old(self).outcome());
                        }
                    },
                }
            },
            '/' => {
                match self.match_tokens('/') {
                    true => {
                        // A line comment reaches to the end of the line and
                        // produces no token.
                        let ghost j0 = self.current as int;
                        let ghost pre = *self;
                        while self.peek() != '\n' && !self.at_end()
                            invariant
                                self.wf(),
                                self.chars@ == s,
                                self.tokens@ == pre.tokens@,
                                self.diagnostics@ == pre.diagnostics@,
                                self.had_error == pre.had_error,
                                self.start == pre.start,
                                self.line == pre.line,
                                j0 <= self.current as int <= s.len(),
                                forall|k: int| j0 <= k < self.current as int ==> s[k] != '\n',
                            decreases s.len() - self.current,
                        {
                            self.current = self.current + 1;
                        }
                        proof {
                            let m = self.current as int - j0;
                            assert forall|k: int| 0 <= k < m implies s.skip(j0)[k] != '\n' by {
                                assert(s.skip(j0)[k] == s[j0 + k]);
                            }
                            if m < s.len() - j0 {
                                assert(s.skip(j0)[m] == s[j0 + m]);
                            }
                            lemma_comment_len_is(s.skip(j0), m);
                            lemma_step_comment(s, i, l);
                            assert(self.outcome() =~= old(self).outcome());
                        }
                    },
                    false => {
                        self.add_token(TokenType::Slash);
                        proof {
                            lemma_step_slash(s, i, l);
                            lemma_push_cons(
                                tv0,
                                plain_token(TokenType::Slash, s.subrange(i, i + 1), l),
                                scan_rest(s.skip(i + 1), l).tokens,
                            );
                            assert(self.outcome() =~= old(self).outcome());
                        }
                    },
                }
            },
            ' ' => {
                proof {
                    lemma_step_ws(s, i, l);
                    assert(self.outcome() =~= old(self).outcome());
                }
            },
            '\r' => {
                proof {
                    lemma_step_ws(s, i, l);
                    assert(self.outcome() =~= old(self).outcome());
                }
            },
            '\t' => {
                proof {
                    lemma_step_ws(s, i, l);
                    assert(self.outcome() =~= old(self).outcome());
                }
            },
            '\n' => {
                proof {
                    assert(self.line as int <= s.len());
                }
                self.line = self.line + 1;
                proof {
                    lemma_step_newline(s, i, l);
                    assert(self.outcome() =~= old(self).outcome());
                }
            },
            '"' => {
                let ghost pre = *self;
                self.string_literal();
                proof {
                    assert(pre.outcome_at(pre.start as int, pre.line as int) =~= old(
                        self,
                    ).outcome());
                    assert(self.outcome() =~= old(self).outcome());
                }
            },
            _ => {
                if self.is_digit(c) {
                    let ghost pre = *self;
                    self.number_literal();
                    proof {
                        assert(pre.outcome_at(pre.start as int, pre.line as int) =~= old(
                            self,
                        ).outcome());
                        assert(self.outcome() =~= old(self).outcome());
                    }
                } else if self.is_alpha(c) {
                    let ghost pre = *self;
                    self.identifier();
                    proof {
                        assert(pre.outcome_at(pre.start as int, pre.line as int) =~= old(
                            self,
                        ).outcome());
                        assert(self.outcome() =~= old(self).outcome());
                    }
                } else {
                    self.error(DiagnosticKind::UnexpectedCharacter);
                    proof {
                        lemma_step_unexpected(s, i, l);
                        lemma_push_cons(
                            dv0,
                            SpecDiag { kind: DiagnosticKind::UnexpectedCharacter, line: l },
                            scan_rest(s.skip(i + 1), l).diags,
                        );
                        assert(self.outcome() =~= old(self).outcome());
                    }
                }
            },
        }
    }

    /// Scan the rest of a string literal, the opening quote already
    /// consumed. The string may span lines; an unterminated string is a
    /// diagnostic and emits no token.
    fn string_literal(&mut self)
        requires
            old(self).wf(),
            old(self).current == old(self).start + 1,
            old(self).current <= old(self).chars@.len(),
            old(self).chars@[old(self).start as int] == '"',
        ensures
            final(self).wf(),
            final(self).chars@ == old(self).chars@,
            final(self).start == old(self).start,
            old(self).current <= final(self).current <= final(self).chars@.len(),
            final(self).outcome() == old(self).outcome_at(
                old(self).start as int,
                old(self).line as int,
            ),
    {
        let ghost s = self.chars@;
        let ghost st = self.start as int;
        let ghost j0 = self.current as int;
        let ghost l0 = self.line as int;
        let ghost pre = *self;
        let ghost tv0 = tokens_view(self.tokens@);
        let ghost dv0 = diags_view(self.diagnostics@);

        // The line of the opening quote: the token is stamped with it even
        // when the string spans further lines.
        let start_line = self.line;

        while self.peek() != '"' && !self.at_end()
            invariant
                self.wf(),
                self.chars@ == s,
                self.tokens@ == pre.tokens@,
                self.diagnostics@ == pre.diagnostics@,
                self.had_error == pre.had_error,
                self.start == pre.start,
                0 <= j0 <= self.current as int <= s.len(),
                forall|k: int| j0 <= k < self.current as int ==> s[k] != '"',
                self.line as int == l0 + count_nl(s.subrange(j0, self.current as int)),
            decreases s.len() - self.current,
        {
            let ghost cur = self.current as int;
            if self.peek() == '\n' {
                proof {
                    assert(self.line as int <= s.len());
                }
                self.line = self.line + 1;
            }
            self.current = self.current + 1;
            proof {
                assert(j0 <= cur);
                assert(cur < s.len());
                let t = s.subrange(j0, cur + 1);
                assert(t.len() == cur + 1 - j0);
                assert(t.drop_last() =~= s.subrange(j0, cur));
                assert(t.last() == s[cur]);
                assert(count_nl(t) == count_nl(t.drop_last()) + (if t.last() == '\n' {
                    1int
                } else {
                    0int
                }));
            }
        }

        proof {
            let m = self.current as int - j0;
            assert forall|k: int| 0 <= k < m implies s.skip(j0)[k] != '"' by {
                assert(s.skip(j0)[k] == s[j0 + k]);
            }
            if m < s.len() - j0 {
                assert(s.skip(j0)[m] == s[j0 + m]);
            }
            lemma_str_body_len_is(s.skip(j0), m);
        }

        if self.at_end() {
            proof {
                lemma_step_string_unterminated(s, st, l0);
                assert(s.subrange(j0, s.len() as int) =~= s.skip(j0));
            }
            self.error(DiagnosticKind::UnterminatedString);
            proof {
                let l2 = l0 + crate::model::count_nl(s.skip(j0));
                assert(s.skip(self.current as int).len() == 0);
                assert(scan_rest(s.skip(self.current as int), self.line as int).tokens =~= seq![
                    spec_eof(l2),
                ]);
                assert(scan_rest(s.skip(self.current as int), self.line as int).diags
                    =~= Seq::<SpecDiag>::empty());
                assert(dv0.push(SpecDiag { kind: DiagnosticKind::UnterminatedString, line: l2 })
                    =~= dv0 + seq![
                    SpecDiag { kind: DiagnosticKind::UnterminatedString, line: l2 },
                ]);
                assert(self.outcome() =~= old(self).outcome_at(st, l0));
            }
            return ;
        }

        // The closing quote.
        self.current = self.current + 1;

        proof {
            lemma_step_string(s, st, l0);
        }
        let value = String::from_str(
            self.source.as_str().substring_char(self.start + 1, self.current - 1),
        );
        self.add_token_literal(TokenType::String, Option::Some(LiteralValue::Str(value)), start_line);
        proof {
            let b = crate::model::str_body_len(s.skip(st + 1));
            let lex = s.subrange(st, st + b + 2);
            let val = s.subrange(st + 1, st + 1 + b);
            let l2 = l0 + crate::model::count_nl(val);
            assert(s.skip(j0) =~= s.skip(st + 1));
            assert(s.subrange(j0, j0 + b) =~= val);
            lemma_push_cons(tv0, string_token(lex, val, l0), scan_rest(s.skip(st + b + 2), l2).tokens);
            assert(tokens_view(self.tokens@) =~= tv0.push(string_token(lex, val, l0)));
            assert(self.outcome() =~= old(self).outcome_at(st, l0));
        }
    }

    /// Scan the rest of a numeric literal, the first digit already
    /// consumed: the remaining digits, and a fractional part only when a
    /// `.` is directly followed by another digit.
    fn number_literal(&mut self)
        requires
            old(self).wf(),
            old(self).current == old(self).start + 1,
            old(self).current <= old(self).chars@.len(),
            spec_is_digit(old(self).chars@[old(self).start as int]),
        ensures
            final(self).wf(),
            final(self).chars@ == old(self).chars@,
            final(self).start == old(self).start,
            old(self).current <= final(self).current <= final(self).chars@.len(),
            final(self).outcome() == old(self).outcome_at(
                old(self).start as int,
                old(self).line as int,
            ),
    {
        let ghost s = self.chars@;
        let ghost st = self.start as int;
        let ghost l0 = self.line as int;
        let ghost pre = *self;
        let ghost tv0 = tokens_view(self.tokens@);

        while self.is_digit(self.peek())
            invariant
                self.wf(),
                self.chars@ == s,
                self.tokens@ == pre.tokens@,
                self.diagnostics@ == pre.diagnostics@,
                self.had_error == pre.had_error,
                self.start == pre.start,
                self.line == pre.line,
                st < self.current as int <= s.len(),
                forall|k: int| st <= k < self.current as int ==> spec_is_digit(s[k]),
            decreases s.len() - self.current,
        {
            self.current = self.current + 1;
        }
        let ghost d = self.current as int - st;
        proof {
            assert forall|k: int| 0 <= k < d implies spec_is_digit(s.skip(st)[k]) by {
                assert(s.skip(st)[k] == s[st + k]);
            }
            if d < s.len() - st {
                assert(s.skip(st)[d] == s[st + d]);
            }
            lemma_digits_len_is(s.skip(st), d);
        }

        if self.peek() == '.' && self.is_digit(self.peek_next()) {
            // Two characters of lookahead: consume the dot only when a
            // digit follows, so a trailing dot is left for the next lexeme.
            self.current = self.current + 1;
            let ghost f0 = self.current as int;
            while self.is_digit(self.peek())
                invariant
                    self.wf(),
                    self.chars@ == s,
                    self.tokens@ == pre.tokens@,
                    self.diagnostics@ == pre.diagnostics@,
                    self.had_error == pre.had_error,
                    self.start == pre.start,
                    self.line == pre.line,
                    f0 <= self.current as int <= s.len(),
                    forall|k: int| f0 <= k < self.current as int ==> spec_is_digit(s[k]),
                decreases s.len() - self.current,
            {
                self.current = self.current + 1;
            }
            proof {
                let d2 = self.current as int - f0;
                assert forall|k: int| 0 <= k < d2 implies spec_is_digit(s.skip(f0)[k]) by {
                    assert(s.skip(f0)[k] == s[f0 + k]);
                }
                if d2 < s.len() - f0 {
                    assert(s.skip(f0)[d2] == s[f0 + d2]);
                }
                lemma_digits_len_is(s.skip(f0), d2);
                assert(s.skip(st)[d] == s[st + d]);
                assert(s.skip(st)[d + 1] == s[st + d + 1]);
                assert(s.skip(st).skip(d + 1) =~= s.skip(f0));
                assert(number_len(s.skip(st)) == self.current as int - st);
            }
        } else {
            proof {
                if st + d < s.len() {
                    assert(s.skip(st)[d] == s[st + d]);
                }
                if st + d + 1 < s.len() {
                    assert(s.skip(st)[d + 1] == s[st + d + 1]);
                }
                assert(number_len(s.skip(st)) == d);
            }
        }

        let value = String::from_str(self.source.as_str().substring_char(self.start, self.current));
        let line = self.line;
        self.add_token_literal(TokenType::Number, Option::Some(LiteralValue::Num(value)), line);
        proof {
            let n = number_len(s.skip(st));
            lemma_step_number(s, st, l0);
            lemma_push_cons(
                tv0,
                number_token(s.subrange(st, st + n), l0),
                scan_rest(s.skip(st + n), l0).tokens,
            );
            assert(tokens_view(self.tokens@) =~= tv0.push(number_token(s.subrange(st, st + n), l0)));
            assert(self.outcome() =~= old(self).outcome_at(st, l0));
        }
    }

    /// Scan the rest of an identifier, the first character already
    /// consumed, and emit a keyword token on an exact match against the
    /// reserved-word table, an identifier token otherwise.
    fn identifier(&mut self)
        requires
            old(self).wf(),
            old(self).current == old(self).start + 1,
            old(self).current <= old(self).chars@.len(),
            spec_is_alpha(old(self).chars@[old(self).start as int]),
        ensures
            final(self).wf(),
            final(self).chars@ == old(self).chars@,
            final(self).start == old(self).start,
            old(self).current <= final(self).current <= final(self).chars@.len(),
            final(self).outcome() == old(self).outcome_at(
                old(self).start as int,
                old(self).line as int,
            ),
    {
        let ghost s = self.chars@;
        let ghost st = self.start as int;
        let ghost l0 = self.line as int;
        let ghost pre = *self;
        let ghost tv0 = tokens_view(self.tokens@);

        while self.is_alpha_numeric(self.peek())
            invariant
                self.wf(),
                self.chars@ == s,
                self.tokens@ == pre.tokens@,
                self.diagnostics@ == pre.diagnostics@,
                self.had_error == pre.had_error,
                self.start == pre.start,
                self.line == pre.line,
                st < self.current as int <= s.len(),
                forall|k: int| st <= k < self.current as int ==> spec_is_alnum(s[k]),
            decreases s.len() - self.current,
        {
            self.current = self.current + 1;
        }
        proof {
            let m = self.current as int - st;
            assert forall|k: int| 0 <= k < m implies spec_is_alnum(s.skip(st)[k]) by {
                assert(s.skip(st)[k] == s[st + k]);
            }
            if m < s.len() - st {
                assert(s.skip(st)[m] == s[st + m]);
            }
            lemma_ident_len_is(s.skip(st), m);
        }

        let text = String::from_str(self.source.as_str().substring_char(self.start, self.current));

        let token_type = Token::parse_keyword(&text);

        match token_type {
            Option::Some(token_type) => self.add_token(token_type),
            Option::None => self.add_token(TokenType::Identifier),
        }

        proof {
            let n = crate::model::ident_len(s.skip(st));
            let lex = s.subrange(st, st + n);
            lemma_step_ident(s, st, l0);
            lemma_push_cons(
                tv0,
                plain_token(crate::model::ident_type(lex), lex, l0),
                scan_rest(s.skip(st + n), l0).tokens,
            );
            assert(tokens_view(self.tokens@) =~= tv0.push(
                plain_token(crate::model::ident_type(lex), lex, l0),
            ));
            assert(self.outcome() =~= old(self).outcome_at(st, l0));
        }
    }

    /// Append a token without a literal payload for the current lexeme.
    fn add_token(&mut self, token_type: TokenType)
        requires
            old(self).wf(),
        ensures
            final(self).wf(),
            final(self).chars@ == old(self).chars@,
            final(self).source@ == old(self).source@,
            final(self).diagnostics@ == old(self).diagnostics@,
            final(self).start == old(self).start,
            final(self).current == old(self).current,
            final(self).line == old(self).line,
            final(self).had_error == old(self).had_error,
            tokens_view(final(self).tokens@) == tokens_view(old(self).tokens@).push(
                plain_token(
                    token_type,
                    old(self).chars@.subrange(old(self).start as int, old(self).current as int),
                    old(self).line as int,
                ),
            ),
    {
        let line = self.line;
        self.add_token_literal(token_type, Option::None, line);
    }

    /// Append a token for the current lexeme (`source[start..current)`),
    /// with the given literal payload, stamped with the given line — the
    /// line the lexeme started on, which for a multi-line string literal
    /// is earlier than the line the cursor has reached.
    fn add_token_literal(&mut self, token_type: TokenType, literal: Option<LiteralValue>, line: usize)
        requires
            old(self).wf(),
        ensures
            final(self).wf(),
            final(self).chars@ == old(self).chars@,
            final(self).source@ == old(self).source@,
            final(self).diagnostics@ == old(self).diagnostics@,
            final(self).start == old(self).start,
            final(self).current == old(self).current,
            final(self).line == old(self).line,
            final(self).had_error == old(self).had_error,
            tokens_view(final(self).tokens@) == tokens_view(old(self).tokens@).push(
                SpecToken {
                    token_type,
                    lexeme: old(self).chars@.subrange(
                        old(self).start as int,
                        old(self).current as int,
                    ),
                    literal: spec_literal(literal),
                    line: line as int,
                },
            ),
    {
        let text = String::from_str(self.source.as_str().substring_char(self.start, self.current));
        let token = Token { token_type, lexeme: text, literal, line };
        proof {
            lemma_tokens_view_push(self.tokens@, token);
            assert(token@ =~= SpecToken {
                token_type,
                lexeme: self.chars@.subrange(self.start as int, self.current as int),
                literal: spec_literal(literal),
                line: line as int,
            });
        }
        self.tokens.push(token);
    }

    /// Record one diagnostic on the current line and set the sticky flag.
    fn error(&mut self, kind: DiagnosticKind)
        requires
            old(self).wf(),
        ensures
            final(self).wf(),
            final(self).chars@ == old(self).chars@,
            final(self).source@ == old(self).source@,
            final(self).tokens@ == old(self).tokens@,
            final(self).start == old(self).start,
            final(self).current == old(self).current,
            final(self).line == old(self).line,
            final(self).had_error,
            diags_view(final(self).diagnostics@) == diags_view(old(self).diagnostics@).push(
                SpecDiag { kind, line: old(self).line as int },
            ),
    {
        let diag = Diagnostic { kind, line: self.line };
        proof {
            lemma_diags_view_push(self.diagnostics@, diag);
        }
        self.diagnostics.push(diag);
        self.had_error = true;
    }

    /// ASCII decimal digit test.
    fn is_digit(&self, c: char) -> (r: bool)
        ensures
            r == spec_is_digit(c),
    {
        c >= '0' && c <= '9'
    }

    /// ASCII letter or underscore test.
    fn is_alpha(&self, c: char) -> (r: bool)
        ensures
            r == spec_is_alpha(c),
    {
        (c >= 'a' && c <= 'z') || (c >= 'A' && c <= 'Z') || c == '_'
    }

    /// Identifier-continuation test.
    fn is_alpha_numeric(&self, c: char) -> (r: bool)
        ensures
            r == spec_is_alnum(c),
    {
        self.is_alpha(c) || self.is_digit(c)
    }

    /// Has the cursor consumed the whole input?
    fn at_end(&self) -> (r: bool)
        ensures
            r == (self.current >= self.chars@.len()),
    {
        self.current >= self.chars.len()
    }

    /// The next unconsumed character, or NUL at end of input.
    fn peek(&self) -> (c: char)
        ensures
            c == (if self.current < self.chars@.len() {
                self.chars@[self.current as int]
            } else {
                '\0'
            }),
    {
        if self.current < self.chars.len() {
            self.chars[self.current]
        } else {
            '\0'
        }
    }

    /// The character after the next one, or NUL if past end of input.
    fn peek_next(&self) -> (c: char)
        requires
            self.current <= self.chars@.len(),
            self.chars@.len() < usize::MAX,
        ensures
            c == (if self.current + 1 < self.chars@.len() {
                self.chars@[self.current + 1]
            } else {
                '\0'
            }),
    {
        if self.current + 1 < self.chars.len() {
            self.chars[self.current + 1]
        } else {
            '\0'
        }
    }

    /// One-character lookahead: consume the next character only when it is
    /// `expected`, and report whether it was.
    fn match_tokens(&mut self, expected: char) -> (r: bool)
        requires
            old(self).wf(),
        ensures
            final(self).wf(),
            final(self).chars@ == old(self).chars@,
            final(self).source@ == old(self).source@,
            final(self).tokens@ == old(self).tokens@,
            final(self).diagnostics@ == old(self).diagnostics@,
            final(self).start == old(self).start,
            final(self).line == old(self).line,
            final(self).had_error == old(self).had_error,
            r == (old(self).current < old(self).chars@.len() && old(self).chars@[old(
                self,
            ).current as int] == expected),
            r ==> final(self).current == old(self).current + 1,
            !r ==> final(self).current == old(self).current,
    {
        if self.at_end() {
            return false;
        }
        if self.peek() != expected {
            return false;
        }
        self.current = self.current + 1;
        true
    }
}

} // verus!
