//! The token vocabulary of the template language, the lexer's mode, and the
//! error values that a failed tokenization reports.

use vstd::prelude::*;
use vstd::string::StrSliceExecFns;

verus! {

/// A reserved directive word.  Matching is exact and case-sensitive.
#[derive(Clone, Copy, Debug, PartialEq, Eq, Structural)]
pub enum Keyword {
    For,
    If,
    Then,
    Else,
    ElseIf,
    EndFor,
    EndIf,
}

/// The keyword, if any, that the character sequence `s` spells.
pub open spec fn spec_keyword_of(s: Seq<char>) -> Option<Keyword> {
    if s == "for"@ {
        Some(Keyword::For)
    } else if s == "if"@ {
        Some(Keyword::If)
    } else if s == "then"@ {
        Some(Keyword::Then)
    } else if s == "else"@ {
        Some(Keyword::Else)
    } else if s == "elseif"@ {
        Some(Keyword::ElseIf)
    } else if s == "endfor"@ {
        Some(Keyword::EndFor)
    } else if s == "endif"@ {
        Some(Keyword::EndIf)
    } else {
        None
    }
}

/// Character-wise string equality.
fn str_eq(a: &str, b: &str) -> (r: bool)
    ensures
        r == (a@ == b@),
{
    let n = a.unicode_len();
    if n != b.unicode_len() {
        return false;
    }
    let mut i: usize = 0;
    while i < n
        invariant
            i <= n,
            n == a@.len(),
            n == b@.len(),
            forall|j: int| 0 <= j < i ==> a@[j] == b@[j],
        decreases n - i,
    {
        if a.get_char(i) != b.get_char(i) {
            return false;
        }
        i = i + 1;
    }
    proof {
        assert(a@ =~= b@);
    }
    true
}

impl Keyword {
    /// The keyword spelled by `s`, or `None` if `s` is not a reserved word.
    pub fn from_string(s: &str) -> (r: Option<Keyword>)
        ensures
            r == spec_keyword_of(s@),
    {
        if str_eq(s, "for") {
            Some(Keyword::For)
        } else if str_eq(s, "if") {
            Some(Keyword::If)
        } else if str_eq(s, "then") {
            Some(Keyword::Then)
        } else if str_eq(s, "else") {
            Some(Keyword::Else)
        } else if str_eq(s, "elseif") {
            Some(Keyword::ElseIf)
        } else if str_eq(s, "endfor") {
            Some(Keyword::EndFor)
        } else if str_eq(s, "endif") {
            Some(Keyword::EndIf)
        } else {
            None
        }
    }
}

/// One lexical token.
#[derive(Debug, PartialEq)]
pub enum Token {
    /// A reserved directive word.
    Keyword(Keyword),
    /// Entry into a `{% ... %}` region.
    BeginDirective,
    /// Exit from a `{% ... %}` region.
    EndDirective,
    /// Entry into a `{{ ... }}` region.
    BeginSubstitution,
    /// Exit from a `{{ ... }}` region.
    EndSubstitution,
    /// An identifier inside a bracketed region that is not a keyword.
    VariableName(String),
    /// A single-character symbol inside a bracketed region.
    Operator(String),
    /// A double-quoted literal, quotes stripped, no escape processing.
    StringLiteral(String),
    /// A run of digits parsed as a signed 32-bit integer.
    NumberLiteral(i32),
    /// Literal template text outside any bracketed region.
    TextContent(String),
}

/// The mathematical value of a [`Token`]: text as a character sequence, a
/// number as an unbounded integer.
pub enum TokenModel {
    Keyword(Keyword),
    BeginDirective,
    EndDirective,
    BeginSubstitution,
    EndSubstitution,
    VariableName(Seq<char>),
    Operator(Seq<char>),
    StringLiteral(Seq<char>),
    NumberLiteral(int),
    TextContent(Seq<char>),
}

impl View for Token {
    type V = TokenModel;

    open spec fn view(&self) -> TokenModel {
        match self {
            Token::Keyword(k) => TokenModel::Keyword(*k),
            Token::BeginDirective => TokenModel::BeginDirective,
            Token::EndDirective => TokenModel::EndDirective,
            Token::BeginSubstitution => TokenModel::BeginSubstitution,
            Token::EndSubstitution => TokenModel::EndSubstitution,
            Token::VariableName(s) => TokenModel::VariableName(s@),
            Token::Operator(s) => TokenModel::Operator(s@),
            Token::StringLiteral(s) => TokenModel::StringLiteral(s@),
            Token::NumberLiteral(v) => TokenModel::NumberLiteral(*v as int),
            Token::TextContent(s) => TokenModel::TextContent(s@),
        }
    }
}

/// The views of a token sequence.
pub open spec fn views_of(ts: Seq<Token>) -> Seq<TokenModel> {
    ts.map_values(|t: Token| t@)
}

/// The lexer's scanning mode.  `BeginDirective` is emitted exactly on the
/// transition `Neutral -> InsideDirective` and `EndDirective` exactly on
/// `InsideDirective -> Neutral`; symmetrically for substitutions.  The two
/// bracketed modes are never nested: every transition passes through
/// `Neutral`.
#[derive(Clone, Copy, Debug, PartialEq, Eq, Structural)]
pub enum TokenizerState {
    Neutral,
    InsideDirective,
    InsideSubstitution,
}

/// What went wrong, lexically.
#[derive(Clone, Copy, Debug, PartialEq, Eq, Structural)]
pub enum LexErrorKind {
    /// A `{` was followed by neither `{` nor `%` (or by nothing at all).
    MalformedBraceOpen,
    /// A `%}` or `}}` was seen while the state did not match.
    MismatchedClose,
    /// A two-character symbol run starting with `%` or `}` that is neither
    /// `%}` nor `}}`.
    UnknownOperator,
    /// Input ended while inside a directive, a substitution, or an unclosed
    /// string literal.
    UnterminatedRegion,
    /// A digit run that cannot be represented as a signed 32-bit integer.
    InvalidNumberLiteral,
}

/// A lexical error: its kind, the character offset into the input at the
/// point of failure, and the lexer state there.
#[derive(Clone, Copy, Debug, PartialEq, Eq)]
pub struct LexError {
    pub kind: LexErrorKind,
    pub offset: usize,
    pub state: TokenizerState,
}

/// The mathematical value of a [`LexError`], with an unbounded offset.
pub struct LexFailure {
    pub kind: LexErrorKind,
    pub offset: int,
    pub state: TokenizerState,
}

} // verus!
