//! The mathematical model of the lexer: what one token request consumes and
//! produces, and what a whole tokenization yields.
//!
//! [`spec_step`] describes a single `next` call on the remaining input and
//! the current mode; [`spec_tokens`] iterates it over the whole input.  The
//! executable lexer in [`crate::tokenizer`] is proved to follow this model
//! step by step.

use vstd::prelude::*;
use crate::chars::{is_alphabetic_char, is_numeric_char, is_whitespace_char};
use crate::token::{Keyword, LexErrorKind, LexFailure, TokenModel, TokenizerState, spec_keyword_of};

verus! {

/// The classes of characters that a single consumption rule absorbs.
#[derive(Clone, Copy, Debug)]
pub enum ScanClass {
    /// Literal template text: anything but an opening brace.
    TemplateText,
    /// Whitespace, skipped at the start of a bracketed-region scan.
    Whitespace,
    /// A character that continues a name: alphabetic or numeric.
    NameChar,
    /// A character that continues a number: numeric.
    NumberChar,
    /// A character inside a string literal: anything but a double quote.
    StringBody,
}

/// Whether `c` belongs to the class `k`.
pub open spec fn class_holds(k: ScanClass, c: char) -> bool {
    match k {
        ScanClass::TemplateText => c != '{',
        ScanClass::Whitespace => is_whitespace_char(c),
        ScanClass::NameChar => is_alphabetic_char(c) || is_numeric_char(c),
        ScanClass::NumberChar => is_numeric_char(c),
        ScanClass::StringBody => c != '"',
    }
}

/// The length of the longest prefix of `s` whose characters all belong to
/// the class `k`.
pub open spec fn run_len(k: ScanClass, s: Seq<char>) -> nat
    decreases s.len(),
{
    if s.len() == 0 {
        0
    } else if !class_holds(k, s[0]) {
        0
    } else {
        1 + run_len(k, s.drop_first())
    }
}

/// The run is a maximal prefix: its characters belong to the class and the
/// character after it, if any, does not.
pub proof fn lemma_run_len_bounds(k: ScanClass, s: Seq<char>)
    ensures
        run_len(k, s) <= s.len(),
        forall|j: int| 0 <= j < run_len(k, s) ==> class_holds(k, s[j]),
        run_len(k, s) < s.len() ==> !class_holds(k, s[run_len(k, s) as int]),
    decreases s.len(),
{
    if s.len() == 0 || !class_holds(k, s[0]) {
    } else {
        let t = s.drop_first();
        lemma_run_len_bounds(k, t);
        assert forall|j: int| 0 <= j < run_len(k, s) implies class_holds(k, s[j]) by {
            if j > 0 {
                assert(t[j - 1] == s[j]);
            }
        }
        if run_len(k, s) < s.len() {
            assert(t[run_len(k, t) as int] == s[run_len(k, s) as int]);
        }
    }
}

/// The run length is the unique `n` with all of the class before it and a
/// character outside the class (or the end of the input) at it.
pub proof fn lemma_run_len_is(k: ScanClass, s: Seq<char>, n: nat)
    requires
        n <= s.len(),
        forall|j: int| 0 <= j < n ==> class_holds(k, s[j]),
        n == s.len() || !class_holds(k, s[n as int]),
    ensures
        run_len(k, s) == n,
    decreases s.len(),
{
    if s.len() == 0 {
    } else if !class_holds(k, s[0]) {
        if n > 0 {
            assert(class_holds(k, s[0]));
        }
    } else {
        assert(n > 0) by {
            if n == 0 {
                assert(!class_holds(k, s[0]));
            }
        }
        let t = s.drop_first();
        assert forall|j: int| 0 <= j < n - 1 implies class_holds(k, t[j]) by {
            assert(t[j] == s[j + 1]);
        }
        if n < s.len() {
            assert(t[n - 1] == s[n as int]);
        }
        lemma_run_len_is(k, t, (n - 1) as nat);
    }
}

/// How a run over a concatenation relates to the runs over the parts: it is
/// the run over `a` if that stops before `a` ends, and otherwise it spans
/// all of `a` and continues with the run over `b`.
pub proof fn lemma_run_len_concat(k: ScanClass, a: Seq<char>, b: Seq<char>)
    ensures
        run_len(k, a + b) == if run_len(k, a) < a.len() {
            run_len(k, a) as int
        } else {
            a.len() + run_len(k, b) as int
        },
    decreases a.len(),
{
    if a.len() == 0 {
        assert(a + b =~= b);
    } else {
        assert((a + b)[0] == a[0]);
        if !class_holds(k, a[0]) {
        } else {
            lemma_run_len_concat(k, a.drop_first(), b);
            assert((a + b).drop_first() =~= a.drop_first() + b);
            lemma_run_len_bounds(k, a.drop_first());
        }
    }
}

/// Whether `c` is one of the decimal digits `0` through `9`.
pub open spec fn is_decimal_digit(c: char) -> bool {
    '0' as u32 <= c as u32 && c as u32 <= '9' as u32
}

/// The value of the decimal digit `c`.
pub open spec fn digit_value(c: char) -> int {
    c as u32 - '0' as u32
}

/// Whether every character of `s` is a decimal digit.
pub open spec fn all_decimal_digits(s: Seq<char>) -> bool {
    forall|i: int| 0 <= i < s.len() ==> is_decimal_digit(s[i])
}

/// The value of the digit string `s` read in base ten.
pub open spec fn spec_parse_digits(s: Seq<char>) -> int
    decreases s.len(),
{
    if s.len() == 0 {
        0
    } else {
        spec_parse_digits(s.drop_last()) * 10 + digit_value(s.last())
    }
}

/// What parsing `s` as a signed 32-bit integer yields: its base-ten value
/// if `s` is a non-empty run of decimal digits whose value fits, and
/// nothing otherwise.  A run of non-decimal numeric characters does not
/// parse, and no sign is accepted.
pub open spec fn spec_parse_i32(s: Seq<char>) -> Option<int> {
    if s.len() > 0 && all_decimal_digits(s) && spec_parse_digits(s) <= i32::MAX {
        Some(spec_parse_digits(s))
    } else {
        None
    }
}

/// The value of a digit string is never negative.
pub proof fn lemma_parse_digits_nonneg(s: Seq<char>)
    requires
        all_decimal_digits(s),
    ensures
        spec_parse_digits(s) >= 0,
    decreases s.len(),
{
    if s.len() > 0 {
        let t = s.drop_last();
        assert forall|i: int| 0 <= i < t.len() implies is_decimal_digit(t[i]) by {
            assert(t[i] == s[i]);
        }
        lemma_parse_digits_nonneg(t);
        assert(is_decimal_digit(s.last()));
    }
}

/// Extending a digit string never shrinks its value.
pub proof fn lemma_parse_digits_prefix(s: Seq<char>, n: int)
    requires
        all_decimal_digits(s),
        0 <= n <= s.len(),
    ensures
        spec_parse_digits(s.take(n)) <= spec_parse_digits(s),
    decreases s.len(),
{
    if n == s.len() {
        assert(s.take(n) =~= s);
    } else {
        let t = s.drop_last();
        assert forall|i: int| 0 <= i < t.len() implies is_decimal_digit(t[i]) by {
            assert(t[i] == s[i]);
        }
        assert(s.take(n) =~= t.take(n));
        lemma_parse_digits_prefix(t, n);
        lemma_parse_digits_nonneg(t);
        assert(is_decimal_digit(s.last()));
    }
}

/// The outcome of one token request.
pub enum StepOut {
    /// A token was produced; `used` characters of the remaining input were
    /// consumed and the lexer is now in state `next`.
    Tok { tok: TokenModel, used: nat, next: TokenizerState },
    /// The input is exhausted at a valid boundary: end of stream.
    Done,
    /// A lexical error of kind `kind`, `at` characters into the remaining
    /// input.
    Fail { kind: LexErrorKind, at: nat },
}

/// One token request in `Neutral` mode.
///
/// An opening brace seen first consumes two characters and switches mode;
/// any other first character starts a text token that runs to the next
/// opening brace or to the end of the input.
pub open spec fn step_neutral(inp: Seq<char>) -> StepOut {
    if inp.len() == 0 {
        StepOut::Done
    } else if inp[0] == '{' {
        if inp.len() >= 2 && inp[1] == '{' {
            StepOut::Tok {
                tok: TokenModel::BeginSubstitution,
                used: 2,
                next: TokenizerState::InsideSubstitution,
            }
        } else if inp.len() >= 2 && inp[1] == '%' {
            StepOut::Tok {
                tok: TokenModel::BeginDirective,
                used: 2,
                next: TokenizerState::InsideDirective,
            }
        } else {
            StepOut::Fail { kind: LexErrorKind::MalformedBraceOpen, at: 0 }
        }
    } else {
        let n = run_len(ScanClass::TemplateText, inp);
        StepOut::Tok {
            tok: TokenModel::TextContent(inp.take(n as int)),
            used: n,
            next: TokenizerState::Neutral,
        }
    }
}

/// One token request inside a directive or substitution.
///
/// Leading whitespace is discarded; the first remaining character picks the
/// consumption rule: a name, a number, a two-character closing bracket, a
/// string literal, or a single-character operator.
pub open spec fn step_inside(inp: Seq<char>, st: TokenizerState) -> StepOut {
    let w = run_len(ScanClass::Whitespace, inp);
    let rest = inp.skip(w as int);
    if rest.len() == 0 {
        StepOut::Fail { kind: LexErrorKind::UnterminatedRegion, at: inp.len() }
    } else {
        let c = rest[0];
        if is_alphabetic_char(c) {
            let n = run_len(ScanClass::NameChar, rest);
            let word = rest.take(n as int);
            let tok = match spec_keyword_of(word) {
                Some(k) => TokenModel::Keyword(k),
                None => TokenModel::VariableName(word),
            };
            StepOut::Tok { tok, used: w + n, next: st }
        } else if is_numeric_char(c) {
            let n = run_len(ScanClass::NumberChar, rest);
            match spec_parse_i32(rest.take(n as int)) {
                Some(v) => StepOut::Tok {
                    tok: TokenModel::NumberLiteral(v),
                    used: w + n,
                    next: st,
                },
                None => StepOut::Fail { kind: LexErrorKind::InvalidNumberLiteral, at: w },
            }
        } else if c == '%' || c == '}' {
            if rest.len() == 1 {
                StepOut::Fail { kind: LexErrorKind::UnknownOperator, at: w }
            } else if rest[0] == '%' && rest[1] == '}' {
                if st is InsideDirective {
                    StepOut::Tok {
                        tok: TokenModel::EndDirective,
                        used: w + 2,
                        next: TokenizerState::Neutral,
                    }
                } else {
                    StepOut::Fail { kind: LexErrorKind::MismatchedClose, at: w }
                }
            } else if rest[0] == '}' && rest[1] == '}' {
                if st is InsideSubstitution {
                    StepOut::Tok {
                        tok: TokenModel::EndSubstitution,
                        used: w + 2,
                        next: TokenizerState::Neutral,
                    }
                } else {
                    StepOut::Fail { kind: LexErrorKind::MismatchedClose, at: w }
                }
            } else {
                StepOut::Fail { kind: LexErrorKind::UnknownOperator, at: w }
            }
        } else if c == '"' {
            let body = rest.skip(1);
            let q = run_len(ScanClass::StringBody, body);
            if q == body.len() {
                StepOut::Fail { kind: LexErrorKind::UnterminatedRegion, at: inp.len() }
            } else {
                StepOut::Tok {
                    tok: TokenModel::StringLiteral(body.take(q as int)),
                    used: w + 2 + q,
                    next: st,
                }
            }
        } else {
            StepOut::Tok { tok: TokenModel::Operator(rest.take(1)), used: w + 1, next: st }
        }
    }
}

/// One token request: what it consumes of the remaining input `inp`, what
/// it produces, and the lexer's next state.
pub open spec fn spec_step(inp: Seq<char>, st: TokenizerState) -> StepOut {
    match st {
        TokenizerState::Neutral => step_neutral(inp),
        _ => step_inside(inp, st),
    }
}

/// A produced token always consumes between one character and the whole
/// remaining input.
pub proof fn lemma_step_used(inp: Seq<char>, st: TokenizerState)
    ensures
        spec_step(inp, st) matches StepOut::Tok { used, .. } ==> 1 <= used <= inp.len(),
{
    match st {
        TokenizerState::Neutral => {
            if inp.len() > 0 && inp[0] != '{' {
                lemma_run_len_bounds(ScanClass::TemplateText, inp);
            }
        },
        _ => {
            let w = run_len(ScanClass::Whitespace, inp);
            lemma_run_len_bounds(ScanClass::Whitespace, inp);
            let rest = inp.skip(w as int);
            if rest.len() > 0 {
                lemma_run_len_bounds(ScanClass::NameChar, rest);
                lemma_run_len_bounds(ScanClass::NumberChar, rest);
                lemma_run_len_bounds(ScanClass::StringBody, rest.skip(1));
            }
        },
    }
}

/// End of stream is signalled only in `Neutral` mode with nothing left.
pub proof fn lemma_step_done(inp: Seq<char>, st: TokenizerState)
    ensures
        spec_step(inp, st) is Done <==> (st is Neutral && inp.len() == 0),
{
    if !(st is Neutral) {
        let w = run_len(ScanClass::Whitespace, inp);
        let rest = inp.skip(w as int);
        if rest.len() != 0 {
            assert(!(step_inside(inp, st) is Done));
        }
    }
}

/// What tokenizing all of `inp` from state `st` yields: the full token
/// sequence, or the first lexical error with its offset into `inp` and the
/// state at the point of failure.
pub open spec fn spec_tokens(inp: Seq<char>, st: TokenizerState) -> Result<
    Seq<TokenModel>,
    LexFailure,
>
    decreases inp.len(),
{
    match spec_step(inp, st) {
        StepOut::Done => Ok(Seq::empty()),
        StepOut::Fail { kind, at } => Err(LexFailure { kind, offset: at as int, state: st }),
        StepOut::Tok { tok, used, next } => {
            // The bound always holds (see `lemma_step_used`); it is restated
            // here so that the recursion visibly terminates.
            if 1 <= used <= inp.len() {
                match spec_tokens(inp.skip(used as int), next) {
                    Ok(toks) => Ok(seq![tok] + toks),
                    Err(f) => Err(
                        LexFailure { kind: f.kind, offset: f.offset + used, state: f.state },
                    ),
                }
            } else {
                Ok(Seq::empty())
            }
        },
    }
}

} // verus!
