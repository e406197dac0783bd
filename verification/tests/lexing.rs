use template_lexer::token::{Keyword, LexError, LexErrorKind, Token, TokenizerState};
use template_lexer::tokenizer::{tokenize, tokenize_all};

fn lex(s: &str) -> Result<Vec<Token>, LexError> {
    tokenize_all(s.chars().collect())
}

fn lex_ok(s: &str) -> Vec<Token> {
    lex(s).expect("expected a successful tokenization")
}

fn lex_err(s: &str) -> LexError {
    match lex(s) {
        Ok(tokens) => panic!("expected a lexical error, got {:?}", tokens),
        Err(e) => e,
    }
}

#[test]
fn empty_input_produces_no_tokens() {
    assert_eq!(lex_ok(""), vec![]);
}

#[test]
fn plain_text_is_one_token() {
    assert_eq!(
        lex_ok("hello world"),
        vec![Token::TextContent("hello world".to_string())]
    );
}

#[test]
fn text_may_contain_closing_symbols() {
    assert_eq!(
        lex_ok("a}b%c}}"),
        vec![Token::TextContent("a}b%c}}".to_string())]
    );
}

#[test]
fn substitution_with_variable() {
    assert_eq!(
        lex_ok("{{ x }}"),
        vec![
            Token::BeginSubstitution,
            Token::VariableName("x".to_string()),
            Token::EndSubstitution,
        ]
    );
}

#[test]
fn directive_with_if_keyword() {
    assert_eq!(
        lex_ok("{% if %}"),
        vec![
            Token::BeginDirective,
            Token::Keyword(Keyword::If),
            Token::EndDirective,
        ]
    );
}

#[test]
fn directive_with_endfor_keyword() {
    assert_eq!(
        lex_ok("{% endfor %}"),
        vec![
            Token::BeginDirective,
            Token::Keyword(Keyword::EndFor),
            Token::EndDirective,
        ]
    );
}

#[test]
fn keyword_matching_is_case_sensitive() {
    assert_eq!(
        lex_ok("{% EndFor %}"),
        vec![
            Token::BeginDirective,
            Token::VariableName("EndFor".to_string()),
            Token::EndDirective,
        ]
    );
}

#[test]
fn all_keywords_are_recognized() {
    assert_eq!(
        lex_ok("{% for if then else elseif endfor endif %}"),
        vec![
            Token::BeginDirective,
            Token::Keyword(Keyword::For),
            Token::Keyword(Keyword::If),
            Token::Keyword(Keyword::Then),
            Token::Keyword(Keyword::Else),
            Token::Keyword(Keyword::ElseIf),
            Token::Keyword(Keyword::EndFor),
            Token::Keyword(Keyword::EndIf),
            Token::EndDirective,
        ]
    );
}

#[test]
fn keyword_from_string_exact_match() {
    assert_eq!(Keyword::from_string("for"), Some(Keyword::For));
    assert_eq!(Keyword::from_string("elseif"), Some(Keyword::ElseIf));
    assert_eq!(Keyword::from_string("For"), None);
    assert_eq!(Keyword::from_string("forx"), None);
    assert_eq!(Keyword::from_string(""), None);
}

#[test]
fn number_literal() {
    assert_eq!(
        lex_ok("{{ 123 }}"),
        vec![
            Token::BeginSubstitution,
            Token::NumberLiteral(123),
            Token::EndSubstitution,
        ]
    );
}

#[test]
fn number_literal_at_the_limit() {
    assert_eq!(
        lex_ok("{{ 2147483647 }}"),
        vec![
            Token::BeginSubstitution,
            Token::NumberLiteral(2147483647),
            Token::EndSubstitution,
        ]
    );
}

#[test]
fn number_literal_overflow_is_an_error() {
    let e = lex_err("{{ 2147483648 }}");
    assert_eq!(e.kind, LexErrorKind::InvalidNumberLiteral);
    assert_eq!(e.offset, 3);
    assert_eq!(e.state, TokenizerState::InsideSubstitution);
}

#[test]
fn non_decimal_numeral_is_an_error() {
    // U+0663 is a numeric character but not a decimal digit of a number
    // literal.
    let e = lex_err("{{ \u{0663} }}");
    assert_eq!(e.kind, LexErrorKind::InvalidNumberLiteral);
    assert_eq!(e.offset, 3);
}

#[test]
fn number_then_name() {
    assert_eq!(
        lex_ok("{{ 12ab }}"),
        vec![
            Token::BeginSubstitution,
            Token::NumberLiteral(12),
            Token::VariableName("ab".to_string()),
            Token::EndSubstitution,
        ]
    );
}

#[test]
fn string_literal_quotes_stripped() {
    assert_eq!(
        lex_ok("{{ \"hi\" }}"),
        vec![
            Token::BeginSubstitution,
            Token::StringLiteral("hi".to_string()),
            Token::EndSubstitution,
        ]
    );
}

#[test]
fn empty_string_literal() {
    assert_eq!(
        lex_ok("{{ \"\" }}"),
        vec![
            Token::BeginSubstitution,
            Token::StringLiteral("".to_string()),
            Token::EndSubstitution,
        ]
    );
}

#[test]
fn single_character_operator() {
    assert_eq!(
        lex_ok("{{ + }}"),
        vec![
            Token::BeginSubstitution,
            Token::Operator("+".to_string()),
            Token::EndSubstitution,
        ]
    );
}

#[test]
fn text_before_construct_is_emitted_first() {
    assert_eq!(
        lex_ok("ab{{ x }}"),
        vec![
            Token::TextContent("ab".to_string()),
            Token::BeginSubstitution,
            Token::VariableName("x".to_string()),
            Token::EndSubstitution,
        ]
    );
}

#[test]
fn no_whitespace_inside_brackets_needed() {
    assert_eq!(
        lex_ok("{%if%}"),
        vec![
            Token::BeginDirective,
            Token::Keyword(Keyword::If),
            Token::EndDirective,
        ]
    );
}

#[test]
fn mismatched_close_is_reported() {
    let e = lex_err("{{ x %}");
    assert_eq!(e.kind, LexErrorKind::MismatchedClose);
    assert_eq!(e.offset, 5);
    assert_eq!(e.state, TokenizerState::InsideSubstitution);
}

#[test]
fn mismatched_close_in_directive() {
    let e = lex_err("{% x }}");
    assert_eq!(e.kind, LexErrorKind::MismatchedClose);
    assert_eq!(e.offset, 5);
    assert_eq!(e.state, TokenizerState::InsideDirective);
}

#[test]
fn malformed_brace_open() {
    let e = lex_err("{x");
    assert_eq!(e.kind, LexErrorKind::MalformedBraceOpen);
    assert_eq!(e.offset, 0);
    assert_eq!(e.state, TokenizerState::Neutral);
}

#[test]
fn brace_at_end_of_input() {
    let e = lex_err("{");
    assert_eq!(e.kind, LexErrorKind::MalformedBraceOpen);
    assert_eq!(e.offset, 0);
}

#[test]
fn brace_after_text_is_checked_on_the_next_pull() {
    let mut it = tokenize("ab{".chars().collect());
    assert_eq!(it.next(), Ok(Some(Token::TextContent("ab".to_string()))));
    assert_eq!(
        it.next(),
        Err(LexError {
            kind: LexErrorKind::MalformedBraceOpen,
            offset: 2,
            state: TokenizerState::Neutral,
        })
    );
}

#[test]
fn unknown_operator() {
    let e = lex_err("{% %% %}");
    assert_eq!(e.kind, LexErrorKind::UnknownOperator);
    assert_eq!(e.offset, 3);
    assert_eq!(e.state, TokenizerState::InsideDirective);
}

#[test]
fn lone_percent_at_end_is_unknown_operator() {
    let e = lex_err("{% %");
    assert_eq!(e.kind, LexErrorKind::UnknownOperator);
    assert_eq!(e.offset, 3);
}

#[test]
fn unterminated_directive() {
    let e = lex_err("{% if");
    assert_eq!(e.kind, LexErrorKind::UnterminatedRegion);
    assert_eq!(e.offset, 5);
    assert_eq!(e.state, TokenizerState::InsideDirective);
}

#[test]
fn unterminated_substitution_with_whitespace() {
    let e = lex_err("{{ ");
    assert_eq!(e.kind, LexErrorKind::UnterminatedRegion);
    assert_eq!(e.offset, 3);
    assert_eq!(e.state, TokenizerState::InsideSubstitution);
}

#[test]
fn unterminated_string_literal() {
    let e = lex_err("{{ \"ab");
    assert_eq!(e.kind, LexErrorKind::UnterminatedRegion);
    assert_eq!(e.offset, 6);
    assert_eq!(e.state, TokenizerState::InsideSubstitution);
}

#[test]
fn concatenating_valid_fragments_concatenates_their_tokens() {
    let a = "pre {{ x }}";
    let b = "{% if %}post";
    let mut expected = lex_ok(a);
    expected.extend(lex_ok(b));
    let joined = format!("{}{}", a, b);
    assert_eq!(lex_ok(&joined), expected);
}

#[test]
fn pull_based_iteration() {
    let mut it = tokenize("a{{x}}".chars().collect());
    assert_eq!(it.next(), Ok(Some(Token::TextContent("a".to_string()))));
    assert_eq!(it.next(), Ok(Some(Token::BeginSubstitution)));
    assert_eq!(it.next(), Ok(Some(Token::VariableName("x".to_string()))));
    assert_eq!(it.next(), Ok(Some(Token::EndSubstitution)));
    assert_eq!(it.next(), Ok(None));
    assert_eq!(it.next(), Ok(None));
}

#[test]
fn mixed_template() {
    assert_eq!(
        lex_ok("foo bar {{ stringthing }} more text {% if for thing \"string\" 123 %}"),
        vec![
            Token::TextContent("foo bar ".to_string()),
            Token::BeginSubstitution,
            Token::VariableName("stringthing".to_string()),
            Token::EndSubstitution,
            Token::TextContent(" more text ".to_string()),
            Token::BeginDirective,
            Token::Keyword(Keyword::If),
            Token::Keyword(Keyword::For),
            Token::VariableName("thing".to_string()),
            Token::StringLiteral("string".to_string()),
            Token::NumberLiteral(123),
            Token::EndDirective,
        ]
    );
}

#[test]
fn variable_names_may_contain_digits() {
    assert_eq!(
        lex_ok("{{ x1 }}"),
        vec![
            Token::BeginSubstitution,
            Token::VariableName("x1".to_string()),
            Token::EndSubstitution,
        ]
    );
}
