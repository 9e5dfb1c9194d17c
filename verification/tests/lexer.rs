use lambda_front::lexer::{char_type, lex_str, CharType, LexError, Token};

fn ws(text: &str) -> Token {
    Token::Whitespace(text.to_string())
}

fn id(text: &str) -> Token {
    Token::Identifier(text.to_string())
}

fn num(text: &str) -> Token {
    Token::Number(text.to_string())
}

fn sym(ch: char) -> Token {
    Token::Symbol(ch)
}

fn spell(tokens: &[Token]) -> String {
    let mut text = String::new();
    for token in tokens {
        match token {
            Token::Whitespace(run) | Token::Identifier(run) | Token::Number(run) => {
                text.push_str(run)
            }
            Token::Symbol(ch) => text.push(*ch),
        }
    }
    text
}

#[test]
fn empty_text_has_no_tokens() {
    assert_eq!(lex_str(""), Ok(vec![]));
}

#[test]
fn application_is_lexed_with_its_whitespace() {
    assert_eq!(
        lex_str("(add 1 2)"),
        Ok(vec![sym('('), id("add"), ws(" "), num("1"), ws(" "), num("2"), sym(')')])
    );
}

#[test]
fn runs_are_maximal() {
    assert_eq!(
        lex_str("abc123  \t\nxyz"),
        Ok(vec![id("abc"), num("123"), ws("  \t\n"), id("xyz")])
    );
}

#[test]
fn a_run_of_three_characters_keeps_all_three() {
    assert_eq!(lex_str("foo"), Ok(vec![id("foo")]));
    assert_eq!(lex_str("2024"), Ok(vec![num("2024")]));
}

#[test]
fn each_symbol_is_a_token_of_its_own() {
    assert_eq!(lex_str("(("), Ok(vec![sym('('), sym('(')]));
    assert_eq!(
        lex_str("(){}[]+-*/"),
        Ok(vec![
            sym('('),
            sym(')'),
            sym('{'),
            sym('}'),
            sym('['),
            sym(']'),
            sym('+'),
            sym('-'),
            sym('*'),
            sym('/'),
        ])
    );
}

#[test]
fn lambda_marker_and_arrow_are_symbols() {
    assert_eq!(
        lex_str("\\x -> x"),
        Ok(vec![sym('\\'), id("x"), ws(" "), sym('-'), sym('>'), ws(" "), id("x")])
    );
}

#[test]
fn unknown_character_is_reported() {
    assert_eq!(lex_str("$"), Err(LexError { character: '$' }));
    assert_eq!(lex_str("(add 1 ?)"), Err(LexError { character: '?' }));
}

#[test]
fn first_unknown_character_is_the_one_reported() {
    assert_eq!(lex_str("ab # cd ! ef"), Err(LexError { character: '#' }));
}

#[test]
fn carriage_return_and_underscore_belong_to_no_class() {
    assert_eq!(lex_str("a\r\nb"), Err(LexError { character: '\r' }));
    assert_eq!(lex_str("a_b"), Err(LexError { character: '_' }));
    assert_eq!(lex_str("1.5"), Err(LexError { character: '.' }));
}

#[test]
fn letters_outside_ascii_belong_to_no_class() {
    assert_eq!(lex_str("caf\u{e9}"), Err(LexError { character: '\u{e9}' }));
}

#[test]
fn tokens_spell_the_text() {
    let texts = [
        "",
        "x",
        "(add 1 2)",
        "  (add\t(add 1 2)\n 3 )  ",
        "\\x -> (add x 1)",
        "abc123def 456ghi",
        "((((",
        "+-*/ [] {}",
    ];
    for text in texts {
        let tokens = lex_str(text).unwrap();
        assert_eq!(spell(&tokens), text);
    }
}

#[test]
fn no_two_neighbours_are_runs_of_one_class() {
    let tokens = lex_str("aa  bb11  22cc\n\n(dd)").unwrap();
    for pair in tokens.windows(2) {
        let same = matches!(
            (&pair[0], &pair[1]),
            (Token::Whitespace(_), Token::Whitespace(_))
                | (Token::Identifier(_), Token::Identifier(_))
                | (Token::Number(_), Token::Number(_))
        );
        assert!(!same);
    }
}

#[test]
fn characters_are_classified() {
    assert_eq!(char_type(&' '), CharType::Whitespace);
    assert_eq!(char_type(&'\t'), CharType::Whitespace);
    assert_eq!(char_type(&'\n'), CharType::Whitespace);
    assert_eq!(char_type(&'a'), CharType::Alpha);
    assert_eq!(char_type(&'z'), CharType::Alpha);
    assert_eq!(char_type(&'A'), CharType::Alpha);
    assert_eq!(char_type(&'Z'), CharType::Alpha);
    assert_eq!(char_type(&'0'), CharType::Numeric);
    assert_eq!(char_type(&'9'), CharType::Numeric);
    assert_eq!(char_type(&'('), CharType::Symbolic);
    assert_eq!(char_type(&'\\'), CharType::Symbolic);
    assert_eq!(char_type(&'>'), CharType::Symbolic);
    assert_eq!(char_type(&'<'), CharType::Other);
    assert_eq!(char_type(&'@'), CharType::Other);
    assert_eq!(char_type(&'`'), CharType::Other);
    assert_eq!(char_type(&'{'), CharType::Symbolic);
    assert_eq!(char_type(&'|'), CharType::Other);
}
