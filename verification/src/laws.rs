//! Laws of the tokenization as a whole, proved over the model that the
//! executable lexer follows.

use vstd::prelude::*;
use crate::model::{
    ScanClass, StepOut, lemma_run_len_bounds, lemma_run_len_concat, lemma_step_done,
    lemma_step_used, run_len, spec_step, spec_tokens,
};
use crate::token::{LexFailure, TokenModel, TokenizerState};

verus! {

/// Plain text never enters a bracketed mode: tokenizing a non-empty input
/// without an opening brace yields exactly one `TextContent` token equal to
/// the input, and then the end of the stream.
pub proof fn lemma_plain_text_single_token(inp: Seq<char>)
    requires
        inp.len() > 0,
        forall|i: int| 0 <= i < inp.len() ==> inp[i] != '{',
    ensures
        spec_tokens(inp, TokenizerState::Neutral) == Ok::<Seq<TokenModel>, LexFailure>(
            seq![TokenModel::TextContent(inp)],
        ),
{
    crate::model::lemma_run_len_is(ScanClass::TemplateText, inp, inp.len());
    assert(inp.take(inp.len() as int) =~= inp);
    assert(inp.skip(inp.len() as int) =~= Seq::<char>::empty());
    assert(spec_tokens(Seq::<char>::empty(), TokenizerState::Neutral) == Ok::<
        Seq<TokenModel>,
        LexFailure,
    >(Seq::empty()));
    assert(seq![TokenModel::TextContent(inp)] + Seq::<TokenModel>::empty()
        =~= seq![TokenModel::TextContent(inp)]);
}

/// The bracket tokens mark exactly the mode transitions: `BeginDirective`
/// is produced precisely when the lexer moves from `Neutral` into
/// `InsideDirective` and `EndDirective` precisely on the way back, and
/// symmetrically for substitutions.  Every other token leaves the mode as
/// it was, so the two bracketed modes are never nested and never entered
/// from each other directly.
pub proof fn lemma_mode_transitions(inp: Seq<char>, st: TokenizerState)
    ensures
        spec_step(inp, st) matches (StepOut::Tok { tok, next, .. }) ==> {
            &&& tok is BeginDirective <==> (st is Neutral && next is InsideDirective)
            &&& tok is BeginSubstitution <==> (st is Neutral && next is InsideSubstitution)
            &&& tok is EndDirective <==> (st is InsideDirective && next is Neutral)
            &&& tok is EndSubstitution <==> (st is InsideSubstitution && next is Neutral)
            &&& !(tok is BeginDirective || tok is BeginSubstitution || tok is EndDirective
                || tok is EndSubstitution) ==> next == st
        },
{
}

/// When the input does not begin with an opening brace, the first token it
/// yields is text.
proof fn lemma_first_token_is_text(b: Seq<char>, tb: Seq<TokenModel>)
    requires
        b.len() > 0,
        b[0] != '{',
        spec_tokens(b, TokenizerState::Neutral) == Ok::<Seq<TokenModel>, LexFailure>(tb),
    ensures
        tb.len() > 0,
        tb[0] is TextContent,
{
    lemma_step_used(b, TokenizerState::Neutral);
    let n = run_len(ScanClass::TemplateText, b);
    match spec_tokens(b.skip(n as int), TokenizerState::Neutral) {
        Ok(toks) => {
            assert(tb == seq![TokenModel::TextContent(b.take(n as int))] + toks);
        },
        Err(_) => {
            assert(false);
        },
    }
}

/// One step of the lexer reads nothing past the characters it consumes and
/// the one that stops it, so a step that produces a token from `a` produces
/// the same token from `a + b` — except for a text token that runs to the
/// very end of `a`, which keeps absorbing text from `b` unless `b` opens
/// with a brace.  The concatenation law below excludes exactly that case.
proof fn lemma_concat_from(
    a: Seq<char>,
    b: Seq<char>,
    st: TokenizerState,
    ta: Seq<TokenModel>,
    tb: Seq<TokenModel>,
)
    requires
        spec_tokens(a, st) == Ok::<Seq<TokenModel>, LexFailure>(ta),
        spec_tokens(b, TokenizerState::Neutral) == Ok::<Seq<TokenModel>, LexFailure>(tb),
        !(ta.len() > 0 && ta.last() is TextContent && tb.len() > 0 && tb[0] is TextContent),
    ensures
        spec_tokens(a + b, st) == Ok::<Seq<TokenModel>, LexFailure>(ta + tb),
    decreases a.len(),
{
    if b.len() == 0 {
        assert(a + b =~= a);
        assert(tb == Seq::<TokenModel>::empty());
        assert(ta + tb =~= ta);
    } else {
        match spec_step(a, st) {
            StepOut::Done => {
                lemma_step_done(a, st);
                assert(a + b =~= b);
                assert(ta == Seq::<TokenModel>::empty());
                assert(ta + tb =~= tb);
            },
            StepOut::Fail { kind, at } => {
                assert(false);
            },
            StepOut::Tok { tok, used, next } => {
                lemma_step_used(a, st);
                match spec_tokens(a.skip(used as int), next) {
                    Err(_) => {
                        assert(false);
                    },
                    Ok(toks) => {
                        assert(ta == seq![tok] + toks);
                        // The same step happens on `a + b`.
                        assert(spec_step(a + b, st) == StepOut::Tok { tok, used, next }) by {
                            lemma_step_agrees(a, b, st, tok, used, next, toks, tb);
                        }
                        // The rest of `a` concatenates by induction.
                        assert(toks.len() > 0 ==> toks.last() == ta.last());
                        lemma_concat_from(a.skip(used as int), b, next, toks, tb);
                        assert((a + b).skip(used as int) =~= a.skip(used as int) + b);
                        assert(spec_tokens(a + b, st) == Ok::<Seq<TokenModel>, LexFailure>(
                            seq![tok] + (toks + tb),
                        ));
                        assert(seq![tok] + (toks + tb) =~= (seq![tok] + toks) + tb);
                    },
                }
            },
        }
    }
}

/// The step that produced `tok` from `a` produces the same token, consuming
/// the same characters, from `a + b`.
proof fn lemma_step_agrees(
    a: Seq<char>,
    b: Seq<char>,
    st: TokenizerState,
    tok: TokenModel,
    used: nat,
    next: TokenizerState,
    toks: Seq<TokenModel>,
    tb: Seq<TokenModel>,
)
    requires
        spec_step(a, st) == (StepOut::Tok { tok, used, next }),
        1 <= used <= a.len(),
        spec_tokens(a.skip(used as int), next) == Ok::<Seq<TokenModel>, LexFailure>(toks),
        spec_tokens(b, TokenizerState::Neutral) == Ok::<Seq<TokenModel>, LexFailure>(tb),
        b.len() > 0,
        !(tok is TextContent && toks.len() == 0 && tb.len() > 0 && tb[0] is TextContent),
    ensures
        spec_step(a + b, st) == (StepOut::Tok { tok, used, next }),
{
    assert((a + b)[0] == a[0]);
    match st {
        TokenizerState::Neutral => {
            if a[0] == '{' {
                assert(a.len() >= 2);
                assert((a + b)[1] == a[1]);
            } else {
                let n = run_len(ScanClass::TemplateText, a);
                lemma_run_len_bounds(ScanClass::TemplateText, a);
                lemma_run_len_concat(ScanClass::TemplateText, a, b);
                if n < a.len() {
                    assert((a + b).take(n as int) =~= a.take(n as int));
                } else {
                    // The text token runs to the end of `a`; nothing of `a`
                    // is left, so `toks` is empty and `b` must open with a
                    // brace, which stops the text run at the boundary.
                    assert(a.skip(used as int) =~= Seq::<char>::empty());
                    assert(Seq::<char>::empty().skip(0) =~= Seq::<char>::empty());
                    assert(toks.len() == 0);
                    if b[0] != '{' {
                        lemma_first_token_is_text(b, tb);
                        assert(false);
                    }
                    assert(run_len(ScanClass::TemplateText, b) == 0);
                    assert((a + b).take(n as int) =~= a.take(n as int));
                }
            }
        },
        _ => {
            let w = run_len(ScanClass::Whitespace, a);
            lemma_run_len_bounds(ScanClass::Whitespace, a);
            let rest = a.skip(w as int);
            assert(rest.len() > 0);
            lemma_run_len_concat(ScanClass::Whitespace, a, b);
            let rest2 = (a + b).skip(w as int);
            assert(rest2 =~= rest + b);
            let c = rest[0];
            assert(rest2[0] == c);
            if crate::chars::is_alphabetic_char(c) {
                let n = run_len(ScanClass::NameChar, rest);
                lemma_run_len_bounds(ScanClass::NameChar, rest);
                lemma_run_len_concat(ScanClass::NameChar, rest, b);
                if n == rest.len() {
                    assert(used == a.len());
                    assert(a.skip(used as int) =~= Seq::<char>::empty());
                    assert(Seq::<char>::empty().skip(0) =~= Seq::<char>::empty());
                    assert(spec_tokens(a.skip(used as int), next) is Err);
                    assert(false);
                } else {
                    assert((rest + b).take(n as int) =~= rest.take(n as int));
                }
            } else if crate::chars::is_numeric_char(c) {
                let n = run_len(ScanClass::NumberChar, rest);
                lemma_run_len_bounds(ScanClass::NumberChar, rest);
                lemma_run_len_concat(ScanClass::NumberChar, rest, b);
                if n == rest.len() {
                    assert(used == a.len());
                    assert(a.skip(used as int) =~= Seq::<char>::empty());
                    assert(Seq::<char>::empty().skip(0) =~= Seq::<char>::empty());
                    assert(spec_tokens(a.skip(used as int), next) is Err);
                    assert(false);
                } else {
                    assert((rest + b).take(n as int) =~= rest.take(n as int));
                }
            } else if c == '%' || c == '}' {
                assert(rest.len() >= 2);
                assert(rest2[1] == rest[1]);
            } else if c == '"' {
                let body = rest.skip(1);
                let q = run_len(ScanClass::StringBody, body);
                lemma_run_len_bounds(ScanClass::StringBody, body);
                assert(q < body.len());
                lemma_run_len_concat(ScanClass::StringBody, body, b);
                assert(rest2.skip(1) =~= body + b);
                assert((body + b).take(q as int) =~= body.take(q as int));
            } else {
                assert(rest2.take(1) =~= rest.take(1));
            }
        },
    }
}

/// Tokenizing the concatenation of two fragments that each tokenize
/// without error yields the concatenation of their token sequences.  Both
/// fragments end at a `Neutral` boundary, since a fragment that ends inside
/// a bracketed region does not tokenize without error.  The one exception
/// is a text token at the seam: when the first fragment ends in literal
/// text and the second begins with some, the two runs merge into a single
/// `TextContent` token, so that case is excluded.
pub proof fn lemma_concat_fragments(
    a: Seq<char>,
    b: Seq<char>,
    ta: Seq<TokenModel>,
    tb: Seq<TokenModel>,
)
    requires
        spec_tokens(a, TokenizerState::Neutral) == Ok::<Seq<TokenModel>, LexFailure>(ta),
        spec_tokens(b, TokenizerState::Neutral) == Ok::<Seq<TokenModel>, LexFailure>(tb),
        !(ta.len() > 0 && ta.last() is TextContent && tb.len() > 0 && tb[0] is TextContent),
    ensures
        spec_tokens(a + b, TokenizerState::Neutral) == Ok::<Seq<TokenModel>, LexFailure>(ta + tb),
{
    lemma_concat_from(a, b, TokenizerState::Neutral, ta, tb);
}

} // verus!
