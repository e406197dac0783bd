//! The executable lexer: a pull-based token producer over an owned
//! character sequence, verified against the model in [`crate::model`].

use vstd::prelude::*;
use crate::chars::{char_is_alphabetic, char_is_numeric, char_is_whitespace, push_char};
use crate::model::{
    ScanClass, StepOut, all_decimal_digits, class_holds, is_decimal_digit,
    lemma_parse_digits_prefix, lemma_run_len_is, run_len, spec_parse_digits, spec_parse_i32,
    spec_step, spec_tokens,
};
use crate::token::{
    Keyword, LexError, LexErrorKind, LexFailure, Token, TokenModel, TokenizerState, views_of,
};

verus! {

/// Whether `c` belongs to the class `k`, decided with std's character
/// classification.
fn holds_class(k: ScanClass, c: char) -> (r: bool)
    ensures
        r == class_holds(k, c),
{
    match k {
        ScanClass::TemplateText => c != '{',
        ScanClass::Whitespace => char_is_whitespace(c),
        ScanClass::NameChar => char_is_alphabetic(c) || char_is_numeric(c),
        ScanClass::NumberChar => char_is_numeric(c),
        ScanClass::StringBody => c != '"',
    }
}

/// Scans forward from `start` over the characters of class `k` and returns
/// the position just after the run.
fn scan_from(chars: &Vec<char>, start: usize, k: ScanClass) -> (end: usize)
    requires
        start <= chars@.len(),
    ensures
        start <= end <= chars@.len(),
        end - start == run_len(k, chars@.skip(start as int)),
{
    let ghost s = chars@.skip(start as int);
    let mut i: usize = start;
    while i < chars.len() && holds_class(k, chars[i])
        invariant
            start <= i <= chars@.len(),
            s == chars@.skip(start as int),
            forall|j: int| start <= j < i ==> class_holds(k, chars@[j]),
        decreases chars@.len() - i,
    {
        i = i + 1;
    }
    proof {
        assert forall|j: int| 0 <= j < i - start implies class_holds(k, s[j]) by {
            assert(s[j] == chars@[start + j]);
        }
        if i < chars@.len() {
            assert(s[i - start] == chars@[i as int]);
        }
        lemma_run_len_is(k, s, (i - start) as nat);
    }
    i
}

/// Copies the characters of `chars` between `start` and `end` into a new
/// string.
fn string_of_range(chars: &Vec<char>, start: usize, end: usize) -> (r: String)
    requires
        start <= end <= chars@.len(),
    ensures
        r@ == chars@.subrange(start as int, end as int),
{
    let mut s = String::new();
    let mut i: usize = start;
    while i < end
        invariant
            start <= i <= end <= chars@.len(),
            s@ == chars@.subrange(start as int, i as int),
        decreases end - i,
    {
        push_char(&mut s, chars[i]);
        proof {
            assert(s@ =~= chars@.subrange(start as int, i + 1));
        }
        i = i + 1;
    }
    s
}

/// Parses the characters of `chars` between `start` and `end` as a signed
/// 32-bit integer: their base-ten value if all are decimal digits and the
/// value fits, and `None` otherwise.
fn parse_decimal(chars: &Vec<char>, start: usize, end: usize) -> (r: Option<i32>)
    requires
        start <= end <= chars@.len(),
    ensures
        match spec_parse_i32(chars@.subrange(start as int, end as int)) {
            Some(v) => r matches Some(x) && x as int == v,
            None => r is None,
        },
{
    let ghost s = chars@.subrange(start as int, end as int);
    if start == end {
        return None;
    }
    let mut acc: u64 = 0;
    let mut i: usize = start;
    while i < end
        invariant
            start <= i <= end <= chars@.len(),
            s == chars@.subrange(start as int, end as int),
            all_decimal_digits(s.take(i - start)),
            acc == spec_parse_digits(s.take(i - start)),
            acc <= i32::MAX,
        decreases end - i,
    {
        let c = chars[i];
        let cv = c as u32;
        if cv < '0' as u32 || cv > '9' as u32 {
            proof {
                assert(!is_decimal_digit(s[i - start]));
            }
            return None;
        }
        let d = (cv - '0' as u32) as u64;
        let ghost prev = s.take(i - start);
        acc = acc * 10 + d;
        proof {
            let cur = s.take(i + 1 - start);
            assert(cur.drop_last() =~= prev);
            assert(cur.last() == s[i - start]);
            assert(acc == spec_parse_digits(cur));
            assert forall|j: int| 0 <= j < cur.len() implies is_decimal_digit(cur[j]) by {
                if j < prev.len() {
                    assert(cur[j] == prev[j]);
                }
            }
        }
        if acc > i32::MAX as u64 {
            proof {
                if all_decimal_digits(s) {
                    lemma_parse_digits_prefix(s, i + 1 - start);
                    assert(spec_parse_digits(s) > i32::MAX);
                }
            }
            return None;
        }
        i = i + 1;
    }
    proof {
        assert(s.take(i - start) =~= s);
    }
    Some(acc as i32)
}

/// A pull-based token producer: each call of [`TokenIter::next`] consumes
/// part of the input and yields one token, the end-of-stream signal, or a
/// lexical error.  The sequence is forward-only; there is no pushback and
/// no restart.
pub struct TokenIter {
    chars: Vec<char>,
    pos: usize,
    state: TokenizerState,
}

impl TokenIter {
    /// The whole input sequence this lexer owns.
    pub closed spec fn input(&self) -> Seq<char> {
        self.chars@
    }

    /// How many characters have been consumed so far.
    pub closed spec fn cursor(&self) -> int {
        self.pos as int
    }

    /// The lexer's current mode.
    pub closed spec fn cur_state(&self) -> TokenizerState {
        self.state
    }

    /// The input that is still to be consumed.
    pub open spec fn remaining(&self) -> Seq<char> {
        self.input().skip(self.cursor())
    }

    /// The cursor never runs past the input.
    pub closed spec fn wf(&self) -> bool {
        self.pos <= self.chars@.len()
    }

    /// Produces the next token, or `Ok(None)` at the end of the stream, or
    /// the first lexical error.  One call performs exactly one step of the
    /// model: on a token the cursor advances past it and the mode follows
    /// the model's transition; on end of stream and on an error nothing is
    /// consumed, and the error reports its kind, its absolute character
    /// offset, and the mode at the point of failure.
    pub fn next(&mut self) -> (r: Result<Option<Token>, LexError>)
        requires
            old(self).wf(),
        ensures
            final(self).wf(),
            final(self).input() == old(self).input(),
            match spec_step(old(self).remaining(), old(self).cur_state()) {
                StepOut::Done => {
                    &&& r == Ok::<Option<Token>, LexError>(None)
                    &&& *final(self) == *old(self)
                },
                StepOut::Tok { tok, used, next } => {
                    &&& r matches Ok(Some(t)) && t@ == tok
                    &&& final(self).cursor() == old(self).cursor() + used
                    &&& final(self).cur_state() == next
                },
                StepOut::Fail { kind, at } => {
                    &&& r matches Err(e) && e.kind == kind && e.offset == old(self).cursor() + at
                        && e.state == old(self).cur_state()
                    &&& *final(self) == *old(self)
                },
            },
    {
        let ghost rem = self.remaining();
        match self.state {
            TokenizerState::Neutral => {
                if self.pos == self.chars.len() {
                    return Ok(None);
                }
                let c0 = self.chars[self.pos];
                proof {
                    assert(rem[0] == c0);
                }
                if c0 == '{' {
                    if self.pos + 1 == self.chars.len() {
                        return Err(LexError {
                            kind: LexErrorKind::MalformedBraceOpen,
                            offset: self.pos,
                            state: self.state,
                        });
                    }
                    let c1 = self.chars[self.pos + 1];
                    proof {
                        assert(rem[1] == c1);
                    }
                    if c1 == '{' {
                        self.pos = self.pos + 2;
                        self.state = TokenizerState::InsideSubstitution;
                        Ok(Some(Token::BeginSubstitution))
                    } else if c1 == '%' {
                        self.pos = self.pos + 2;
                        self.state = TokenizerState::InsideDirective;
                        Ok(Some(Token::BeginDirective))
                    } else {
                        Err(LexError {
                            kind: LexErrorKind::MalformedBraceOpen,
                            offset: self.pos,
                            state: self.state,
                        })
                    }
                } else {
                    let end = scan_from(&self.chars, self.pos, ScanClass::TemplateText);
                    let text = string_of_range(&self.chars, self.pos, end);
                    proof {
                        let n = run_len(ScanClass::TemplateText, rem);
                        assert(rem.take(n as int) =~= self.chars@.subrange(
                            self.pos as int,
                            end as int,
                        ));
                    }
                    self.pos = end;
                    Ok(Some(Token::TextContent(text)))
                }
            },
            _ => {
                let w_end = scan_from(&self.chars, self.pos, ScanClass::Whitespace);
                let ghost w = run_len(ScanClass::Whitespace, rem);
                let ghost rest = rem.skip(w as int);
                proof {
                    assert(rest =~= self.chars@.skip(w_end as int));
                }
                if w_end == self.chars.len() {
                    return Err(LexError {
                        kind: LexErrorKind::UnterminatedRegion,
                        offset: self.chars.len(),
                        state: self.state,
                    });
                }
                let c = self.chars[w_end];
                proof {
                    assert(rest[0] == c);
                }
                if char_is_alphabetic(c) {
                    let end = scan_from(&self.chars, w_end, ScanClass::NameChar);
                    let word = string_of_range(&self.chars, w_end, end);
                    proof {
                        let n = run_len(ScanClass::NameChar, rest);
                        assert(rest.take(n as int) =~= self.chars@.subrange(
                            w_end as int,
                            end as int,
                        ));
                    }
                    self.pos = end;
                    match Keyword::from_string(word.as_str()) {
                        Some(k) => Ok(Some(Token::Keyword(k))),
                        None => Ok(Some(Token::VariableName(word))),
                    }
                } else if char_is_numeric(c) {
                    let end = scan_from(&self.chars, w_end, ScanClass::NumberChar);
                    proof {
                        let n = run_len(ScanClass::NumberChar, rest);
                        assert(rest.take(n as int) =~= self.chars@.subrange(
                            w_end as int,
                            end as int,
                        ));
                    }
                    match parse_decimal(&self.chars, w_end, end) {
                        Some(v) => {
                            self.pos = end;
                            Ok(Some(Token::NumberLiteral(v)))
                        },
                        None => Err(LexError {
                            kind: LexErrorKind::InvalidNumberLiteral,
                            offset: w_end,
                            state: self.state,
                        }),
                    }
                } else if c == '%' || c == '}' {
                    if w_end + 1 == self.chars.len() {
                        return Err(LexError {
                            kind: LexErrorKind::UnknownOperator,
                            offset: w_end,
                            state: self.state,
                        });
                    }
                    let c2 = self.chars[w_end + 1];
                    proof {
                        assert(rest[1] == c2);
                    }
                    if c == '%' && c2 == '}' {
                        match self.state {
                            TokenizerState::InsideDirective => {
                                self.pos = w_end + 2;
                                self.state = TokenizerState::Neutral;
                                Ok(Some(Token::EndDirective))
                            },
                            _ => Err(LexError {
                                kind: LexErrorKind::MismatchedClose,
                                offset: w_end,
                                state: self.state,
                            }),
                        }
                    } else if c == '}' && c2 == '}' {
                        match self.state {
                            TokenizerState::InsideSubstitution => {
                                self.pos = w_end + 2;
                                self.state = TokenizerState::Neutral;
                                Ok(Some(Token::EndSubstitution))
                            },
                            _ => Err(LexError {
                                kind: LexErrorKind::MismatchedClose,
                                offset: w_end,
                                state: self.state,
                            }),
                        }
                    } else {
                        Err(LexError {
                            kind: LexErrorKind::UnknownOperator,
                            offset: w_end,
                            state: self.state,
                        })
                    }
                } else if c == '"' {
                    let ghost body = rest.skip(1);
                    proof {
                        assert(body =~= self.chars@.skip(w_end + 1));
                    }
                    let body_end = scan_from(&self.chars, w_end + 1, ScanClass::StringBody);
                    if body_end == self.chars.len() {
                        return Err(LexError {
                            kind: LexErrorKind::UnterminatedRegion,
                            offset: self.chars.len(),
                            state: self.state,
                        });
                    }
                    let text = string_of_range(&self.chars, w_end + 1, body_end);
                    proof {
                        let q = run_len(ScanClass::StringBody, body);
                        assert(body.take(q as int) =~= self.chars@.subrange(
                            w_end + 1,
                            body_end as int,
                        ));
                    }
                    self.pos = body_end + 1;
                    Ok(Some(Token::StringLiteral(text)))
                } else {
                    let mut op = String::new();
                    push_char(&mut op, c);
                    proof {
                        assert(op@ =~= rest.take(1));
                    }
                    self.pos = w_end + 1;
                    Ok(Some(Token::Operator(op)))
                }
            },
        }
    }
}

/// Creates a lexer over `chars`, starting in `Neutral` mode at the first
/// character.
pub fn tokenize(chars: Vec<char>) -> (r: TokenIter)
    ensures
        r.wf(),
        r.input() == chars@,
        r.cursor() == 0,
        r.cur_state() is Neutral,
{
    TokenIter { chars, pos: 0, state: TokenizerState::Neutral }
}

/// How a partial result extends to a whole one: tokens already produced go
/// in front, and an error's offset moves past the input already consumed.
spec fn lex_extend(
    prefix: Seq<TokenModel>,
    consumed: int,
    rest: Result<Seq<TokenModel>, LexFailure>,
) -> Result<Seq<TokenModel>, LexFailure> {
    match rest {
        Ok(ts) => Ok(prefix + ts),
        Err(f) => Err(LexFailure { kind: f.kind, offset: f.offset + consumed, state: f.state }),
    }
}

/// Tokenizes all of `chars`: the whole token sequence of the model, or the
/// first lexical error with its kind, offset and state.
pub fn tokenize_all(chars: Vec<char>) -> (r: Result<Vec<Token>, LexError>)
    ensures
        match spec_tokens(chars@, TokenizerState::Neutral) {
            Ok(ts) => match r {
                Ok(v) => views_of(v@) == ts,
                Err(_) => false,
            },
            Err(f) => match r {
                Ok(_) => false,
                Err(e) => e.kind == f.kind && e.offset == f.offset && e.state == f.state,
            },
        },
{
    let ghost input = chars@;
    let mut it = tokenize(chars);
    let mut out: Vec<Token> = Vec::new();
    proof {
        assert(it.remaining() =~= input);
        assert(views_of(out@) + spec_tokens(input, TokenizerState::Neutral)->Ok_0 =~= spec_tokens(
            input,
            TokenizerState::Neutral,
        )->Ok_0);
        if spec_tokens(input, TokenizerState::Neutral) is Err {
            let f = spec_tokens(input, TokenizerState::Neutral)->Err_0;
            assert(LexFailure { kind: f.kind, offset: f.offset + 0, state: f.state } == f);
        }
    }
    #[verifier::loop_isolation(false)]
    loop
        invariant
            it.wf(),
            it.input() == input,
            spec_tokens(input, TokenizerState::Neutral) == lex_extend(
                views_of(out@),
                it.cursor(),
                spec_tokens(it.remaining(), it.cur_state()),
            ),
        decreases it.remaining().len(),
    {
        let ghost rem = it.remaining();
        let ghost st = it.cur_state();
        proof {
            crate::model::lemma_step_used(rem, st);
        }
        match it.next() {
            Ok(Some(tok)) => {
                let ghost step = spec_step(rem, st);
                proof {
                    let used = step->Tok_used;
                    assert(it.remaining() =~= rem.skip(used as int));
                    assert(views_of(out@.push(tok)) =~= views_of(out@) + seq![tok@]);
                    match spec_tokens(rem.skip(used as int), step->Tok_next) {
                        Ok(toks) => {
                            assert(views_of(out@) + (seq![tok@] + toks) =~= (views_of(out@)
                                + seq![tok@]) + toks);
                        },
                        Err(_) => {},
                    }
                }
                out.push(tok);
            },
            Ok(None) => {
                proof {
                    crate::model::lemma_step_done(rem, st);
                    assert(spec_tokens(rem, st) == Ok::<Seq<TokenModel>, LexFailure>(Seq::empty()));
                    assert(views_of(out@) + Seq::<TokenModel>::empty() =~= views_of(out@));
                }
                return Ok(out);
            },
            Err(e) => {
                return Err(e);
            },
        }
    }
}

} // verus!
