use clexer::render::render;
use clexer::scan::scan;
use clexer::token::{LexError, Token};

fn ident(name: &str) -> Token {
    Token::Identifier(name.to_string())
}

fn constant(digits: &str) -> Token {
    Token::Constant(digits.to_string())
}

#[test]
fn empty_input_yields_no_tokens() {
    assert_eq!(scan(""), Ok(vec![]));
}

#[test]
fn whitespace_only_yields_no_tokens() {
    assert_eq!(scan(" \t\n  \n"), Ok(vec![]));
}

#[test]
fn keywords_scan_as_keywords() {
    assert_eq!(scan("int"), Ok(vec![Token::IntKeyword]));
    assert_eq!(scan("void"), Ok(vec![Token::VoidKeyword]));
    assert_eq!(scan("return"), Ok(vec![Token::ReturnKeyword]));
}

#[test]
fn keyword_prefix_word_is_an_identifier() {
    assert_eq!(scan("integer"), Ok(vec![ident("integer")]));
    assert_eq!(scan("voidx"), Ok(vec![ident("voidx")]));
    assert_eq!(scan("returns"), Ok(vec![ident("returns")]));
}

#[test]
fn punctuation_scans_one_token_each() {
    assert_eq!(
        scan("(){};"),
        Ok(vec![
            Token::OpenParenthesis,
            Token::CloseParenthesis,
            Token::OpenBrace,
            Token::CloseBrace,
            Token::Semicolon,
        ])
    );
}

#[test]
fn constants_are_maximal_digit_runs() {
    assert_eq!(
        scan("0 42;"),
        Ok(vec![constant("0"), constant("42"), Token::Semicolon])
    );
}

#[test]
fn main_program_scans_to_expected_sequence() {
    assert_eq!(
        scan("int main(void){return 2;}"),
        Ok(vec![
            Token::IntKeyword,
            ident("main"),
            Token::OpenParenthesis,
            Token::VoidKeyword,
            Token::CloseParenthesis,
            Token::OpenBrace,
            Token::ReturnKeyword,
            constant("2"),
            Token::Semicolon,
            Token::CloseBrace,
        ])
    );
}

#[test]
fn digit_run_followed_by_letter_is_malformed() {
    assert_eq!(
        scan("123abc"),
        Err(LexError::MalformedNumericLiteral {
            digits: "123".to_string(),
            next: 'a',
        })
    );
    assert_eq!(
        scan("9x"),
        Err(LexError::MalformedNumericLiteral {
            digits: "9".to_string(),
            next: 'x',
        })
    );
}

#[test]
fn digit_run_followed_by_underscore_is_malformed() {
    assert_eq!(
        scan("1_"),
        Err(LexError::MalformedNumericLiteral {
            digits: "1".to_string(),
            next: '_',
        })
    );
}

#[test]
fn lone_underscore_is_an_invalid_identifier() {
    assert_eq!(
        scan("_"),
        Err(LexError::InvalidIdentifier {
            text: "_".to_string(),
        })
    );
}

#[test]
fn underscore_prefixed_word_is_a_valid_identifier() {
    assert_eq!(scan("_x"), Ok(vec![ident("_x")]));
    assert_eq!(scan("_1"), Ok(vec![ident("_1")]));
    assert_eq!(scan("a_b_2"), Ok(vec![ident("a_b_2")]));
}

#[test]
fn line_comment_is_ignored() {
    let with_comment = scan("int x; // ignore this\nreturn x;");
    let without_comment = scan("int x; \nreturn x;");
    assert!(with_comment.is_ok());
    assert_eq!(with_comment, without_comment);
}

#[test]
fn line_comment_without_newline_runs_to_end_of_input() {
    assert_eq!(scan("// only a comment"), Ok(vec![]));
    assert_eq!(scan("int//tail"), Ok(vec![Token::IntKeyword]));
}

#[test]
fn block_comment_is_ignored() {
    assert_eq!(scan("/* a * b */int"), Ok(vec![Token::IntKeyword]));
}

#[test]
fn block_comment_closer_needs_its_own_star() {
    // the opener's `*` cannot double as the closer's, so `/*/` stays open
    assert_eq!(scan("/*/"), Ok(vec![]));
    assert_eq!(scan("/***/int"), Ok(vec![Token::IntKeyword]));
    assert_eq!(scan("/*/*/int"), Ok(vec![Token::IntKeyword]));
    assert_eq!(scan("/**/void"), Ok(vec![Token::VoidKeyword]));
}

#[test]
fn unterminated_block_comment_consumes_rest_of_input() {
    assert_eq!(scan("/* abc"), Ok(vec![]));
    assert_eq!(scan("int /* tail"), Ok(vec![Token::IntKeyword]));
}

#[test]
fn bare_slash_is_an_unsupported_operator() {
    assert_eq!(scan("/"), Err(LexError::UnsupportedOperator));
    assert_eq!(scan("int/ x"), Err(LexError::UnsupportedOperator));
}

#[test]
fn unrecognized_character_is_invalid() {
    assert_eq!(scan("@"), Err(LexError::InvalidCharacter { ch: '@' }));
    assert_eq!(scan("int $;"), Err(LexError::InvalidCharacter { ch: '$' }));
}

#[test]
fn error_discards_all_tokens() {
    // tokens scanned before the offending construct are not returned
    assert_eq!(scan("int x; @"), Err(LexError::InvalidCharacter { ch: '@' }));
}

#[test]
fn render_joins_minimal_forms_with_spaces() {
    let tokens = vec![Token::IntKeyword, ident("main"), Token::Semicolon];
    assert_eq!(render(&tokens), "int main ; ");
}

#[test]
fn scanned_tokens_render_and_rescan_to_same_sequence() {
    let source = "int main(void){\n    // answer\n    return 42; /* done */\n}";
    let tokens = scan(source).unwrap();
    let rendered = render(&tokens);
    assert_eq!(scan(&rendered), Ok(tokens));
}
