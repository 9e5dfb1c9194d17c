use lambda_front::ast::{Declaration, Expr};
use lambda_front::lexer::{lex_str, Token};
use lambda_front::parser::{parse_tokens, ParseError};

fn parse(text: &str) -> Result<Vec<Expr>, ParseError> {
    parse_tokens(&lex_str(text).unwrap())
}

fn ident(name: &str) -> Expr {
    Expr::Identifier(name.to_string())
}

fn number(digits: &str) -> Expr {
    Expr::Number(digits.to_string())
}

fn apply(abs: Expr, args: Vec<Expr>) -> Expr {
    Expr::Application { abs: Box::new(abs), args }
}

fn lambda(name: &str, body: Expr) -> Expr {
    Expr::Abstraction {
        args: vec![Declaration { name: name.to_string(), annotation: None }],
        body: Box::new(body),
    }
}

#[test]
fn no_tokens_are_an_empty_program() {
    assert_eq!(parse_tokens(&[]), Ok(vec![]));
}

#[test]
fn bare_identifier_and_number() {
    assert_eq!(parse("x"), Ok(vec![ident("x")]));
    assert_eq!(parse("42"), Ok(vec![number("42")]));
}

#[test]
fn number_keeps_its_digits() {
    assert_eq!(parse("007"), Ok(vec![number("007")]));
    assert_eq!(
        parse("123456789012345678901234567890"),
        Ok(vec![number("123456789012345678901234567890")])
    );
}

#[test]
fn group_of_three_is_an_application() {
    assert_eq!(
        parse("(add 1 2)"),
        Ok(vec![apply(ident("add"), vec![number("1"), number("2")])])
    );
}

#[test]
fn group_of_two_is_an_application_of_one_argument() {
    assert_eq!(parse("(add 1)"), Ok(vec![apply(ident("add"), vec![number("1")])]));
}

#[test]
fn group_of_one_is_its_element() {
    assert_eq!(parse("(x)"), Ok(vec![ident("x")]));
    assert_eq!(parse("(((7)))"), Ok(vec![number("7")]));
    assert_eq!(
        parse("((add 1 2))"),
        Ok(vec![apply(ident("add"), vec![number("1"), number("2")])])
    );
}

#[test]
fn groups_nest() {
    assert_eq!(
        parse("(add (add 1 2) (add 3 4))"),
        Ok(vec![apply(
            ident("add"),
            vec![
                apply(ident("add"), vec![number("1"), number("2")]),
                apply(ident("add"), vec![number("3"), number("4")]),
            ]
        )])
    );
}

#[test]
fn empty_group_is_an_error() {
    assert_eq!(parse("()"), Err(ParseError::EmptyGroup { position: 0 }));
    assert_eq!(parse("(add ())"), Err(ParseError::EmptyGroup { position: 3 }));
}

#[test]
fn group_without_end_is_an_error() {
    assert_eq!(parse("("), Err(ParseError::UnexpectedEnd));
    assert_eq!(parse("(add 1"), Err(ParseError::UnexpectedEnd));
    assert_eq!(parse("(add (add 1 2)"), Err(ParseError::UnexpectedEnd));
}

#[test]
fn closing_parenthesis_starts_no_expression() {
    assert_eq!(parse(")"), Err(ParseError::NoRuleMatched { position: 0 }));
    assert_eq!(parse("x )"), Err(ParseError::NoRuleMatched { position: 2 }));
}

#[test]
fn other_symbols_start_no_expression() {
    assert_eq!(parse("+"), Err(ParseError::NoRuleMatched { position: 0 }));
    assert_eq!(parse("(add 1 [)"), Err(ParseError::NoRuleMatched { position: 5 }));
    assert_eq!(parse(">"), Err(ParseError::NoRuleMatched { position: 0 }));
}

#[test]
fn lambda_has_one_parameter_without_a_type() {
    assert_eq!(
        parse("\\x -> (add x 1)"),
        Ok(vec![lambda("x", apply(ident("add"), vec![ident("x"), number("1")]))])
    );
}

#[test]
fn lambda_needs_no_whitespace_around_its_arrow() {
    assert_eq!(parse("\\x->x"), Ok(vec![lambda("x", ident("x"))]));
    assert_eq!(parse("\\x  \n ->   x"), Ok(vec![lambda("x", ident("x"))]));
}

#[test]
fn lambdas_nest_to_the_right() {
    assert_eq!(
        parse("\\x -> \\y -> (add x y)"),
        Ok(vec![lambda(
            "x",
            lambda("y", apply(ident("add"), vec![ident("x"), ident("y")]))
        )])
    );
}

#[test]
fn lambda_in_a_group() {
    assert_eq!(
        parse("((\\x -> x) 1)"),
        Ok(vec![apply(lambda("x", ident("x")), vec![number("1")])])
    );
}

#[test]
fn lambda_with_a_broken_head_matches_no_rule() {
    assert_eq!(parse("\\"), Err(ParseError::NoRuleMatched { position: 0 }));
    assert_eq!(parse("\\x"), Err(ParseError::NoRuleMatched { position: 0 }));
    assert_eq!(parse("\\ x -> x"), Err(ParseError::NoRuleMatched { position: 0 }));
    assert_eq!(parse("\\1 -> x"), Err(ParseError::NoRuleMatched { position: 0 }));
    assert_eq!(parse("\\x - > x"), Err(ParseError::NoRuleMatched { position: 0 }));
    assert_eq!(parse("\\x > x"), Err(ParseError::NoRuleMatched { position: 0 }));
    assert_eq!(parse("\\x -"), Err(ParseError::NoRuleMatched { position: 0 }));
    assert_eq!(parse("  \\x y"), Err(ParseError::NoRuleMatched { position: 1 }));
}

#[test]
fn lambda_fails_as_its_body_fails() {
    assert_eq!(parse("\\x -> ()"), Err(ParseError::EmptyGroup { position: 6 }));
    assert_eq!(parse("\\x -> (add x"), Err(ParseError::UnexpectedEnd));
    assert_eq!(parse("\\x ->"), Err(ParseError::NoRuleMatched { position: 5 }));
}

#[test]
fn whitespace_in_front_of_an_expression_is_skipped() {
    assert_eq!(parse("  \n\tx"), Ok(vec![ident("x")]));
    assert_eq!(
        parse("(  add   1\n2)"),
        Ok(vec![apply(ident("add"), vec![number("1"), number("2")])])
    );
}

#[test]
fn whitespace_in_front_of_a_closing_parenthesis_is_not_skipped() {
    assert_eq!(parse("(add 1 2 )"), Err(ParseError::NoRuleMatched { position: 7 }));
    assert_eq!(parse("( )"), Err(ParseError::NoRuleMatched { position: 2 }));
}

#[test]
fn whitespace_at_the_end_starts_no_expression() {
    assert_eq!(parse("x "), Err(ParseError::NoRuleMatched { position: 2 }));
    assert_eq!(parse(" "), Err(ParseError::NoRuleMatched { position: 1 }));
    assert_eq!(parse("(add 1 "), Err(ParseError::NoRuleMatched { position: 5 }));
}

#[test]
fn program_is_a_sequence_of_expressions() {
    assert_eq!(
        parse("1 x (add 1 2)"),
        Ok(vec![
            number("1"),
            ident("x"),
            apply(ident("add"), vec![number("1"), number("2")]),
        ])
    );
    assert_eq!(parse("(a)(b)"), Ok(vec![ident("a"), ident("b")]));
}

#[test]
fn first_failing_expression_fails_the_program() {
    assert_eq!(parse("1 2 () 3 ("), Err(ParseError::EmptyGroup { position: 4 }));
}

#[test]
fn adjacent_tokens_need_no_whitespace() {
    let tokens = vec![
        Token::Symbol('('),
        Token::Identifier("f".to_string()),
        Token::Identifier("x".to_string()),
        Token::Number("1".to_string()),
        Token::Symbol(')'),
    ];
    assert_eq!(
        parse_tokens(&tokens),
        Ok(vec![apply(ident("f"), vec![ident("x"), number("1")])])
    );
}

#[test]
fn number_token_must_be_a_run_of_digits() {
    let tokens = vec![Token::Number("1.5".to_string())];
    assert_eq!(parse_tokens(&tokens), Err(ParseError::NoRuleMatched { position: 0 }));
    let tokens = vec![Token::Number(String::new())];
    assert_eq!(parse_tokens(&tokens), Err(ParseError::NoRuleMatched { position: 0 }));
    let tokens = vec![Token::Number("12a".to_string())];
    assert_eq!(parse_tokens(&tokens), Err(ParseError::NoRuleMatched { position: 0 }));
}

#[test]
fn identifier_token_is_taken_as_it_is() {
    let tokens = vec![Token::Identifier("snake_case".to_string())];
    assert_eq!(parse_tokens(&tokens), Ok(vec![ident("snake_case")]));
}

#[test]
fn parsed_application_has_an_argument() {
    for text in ["(f x)", "(f (g y) z)", "((f x))", "\\x -> (f x)"] {
        for expr in parse(text).unwrap() {
            assert!(applications_have_arguments(&expr));
        }
    }
}

fn applications_have_arguments(expr: &Expr) -> bool {
    match expr {
        Expr::Identifier(_) | Expr::Number(_) => true,
        Expr::Application { abs, args } => {
            !args.is_empty()
                && applications_have_arguments(abs)
                && args.iter().all(applications_have_arguments)
        }
        Expr::Abstraction { args, body } => args.len() == 1 && applications_have_arguments(body),
    }
}

fn spell(expr: &Expr, tokens: &mut Vec<Token>) {
    match expr {
        Expr::Identifier(name) => tokens.push(Token::Identifier(name.clone())),
        Expr::Number(digits) => tokens.push(Token::Number(digits.clone())),
        Expr::Application { abs, args } => {
            tokens.push(Token::Symbol('('));
            spell(abs, tokens);
            for arg in args {
                spell(arg, tokens);
            }
            tokens.push(Token::Symbol(')'));
        }
        Expr::Abstraction { args, body } => {
            tokens.push(Token::Symbol('\\'));
            tokens.push(Token::Identifier(args[0].name.clone()));
            tokens.push(Token::Symbol('-'));
            tokens.push(Token::Symbol('>'));
            spell(body, tokens);
        }
    }
}

#[test]
fn parsing_undoes_spelling() {
    let exprs = vec![
        ident("x"),
        number("0"),
        apply(ident("f"), vec![number("1")]),
        apply(
            apply(ident("f"), vec![ident("a"), ident("b")]),
            vec![lambda("x", ident("x")), apply(ident("g"), vec![number("2")])],
        ),
        lambda("x", lambda("y", apply(ident("add"), vec![ident("x"), ident("y")]))),
        apply(lambda("x", apply(ident("add"), vec![ident("x"), number("1")])), vec![number("2")]),
    ];
    for expr in &exprs {
        let mut tokens = Vec::new();
        spell(expr, &mut tokens);
        assert_eq!(parse_tokens(&tokens), Ok(vec![expr.clone()]));
    }
    let mut tokens = Vec::new();
    for expr in &exprs {
        spell(expr, &mut tokens);
    }
    assert_eq!(parse_tokens(&tokens), Ok(exprs));
}

#[test]
fn body_of_a_lambda_is_one_expression() {
    assert_eq!(
        parse("(\\x -> x 1)"),
        Ok(vec![apply(lambda("x", ident("x")), vec![number("1")])])
    );
    assert_eq!(
        parse("(f \\x -> x)"),
        Ok(vec![apply(ident("f"), vec![lambda("x", ident("x"))])])
    );
}
