use lambda_front::ast::{Declaration, Expr};
use lambda_front::lexer::lex_str;
use lambda_front::parser::parse_tokens;
use lambda_front::types::{
    order_typevars, parse_type, type_expr, type_expr_default, Binding, Env, Type, TypeError,
};

fn parse_one(text: &str) -> Expr {
    let mut exprs = parse_tokens(&lex_str(text).unwrap()).unwrap();
    assert_eq!(exprs.len(), 1);
    exprs.remove(0)
}

fn infer(text: &str) -> Result<Type, TypeError> {
    type_expr_default(&parse_one(text))
}

fn function(arg_types: Vec<Type>, result: Type) -> Type {
    Type::Abs { arg_types, result: Box::new(result) }
}

fn ident(name: &str) -> Expr {
    Expr::Identifier(name.to_string())
}

fn number(digits: &str) -> Expr {
    Expr::Number(digits.to_string())
}

fn apply(abs: Expr, args: Vec<Expr>) -> Expr {
    Expr::Application { abs: Box::new(abs), args }
}

fn parameter(name: &str, annotation: Option<&str>) -> Declaration {
    Declaration { name: name.to_string(), annotation: annotation.map(|text| text.to_string()) }
}

fn abstraction(args: Vec<Declaration>, body: Expr) -> Expr {
    Expr::Abstraction { args, body: Box::new(body) }
}

fn slot(name: &str, ty: Type) -> Binding {
    Binding { name: name.to_string(), ty }
}

#[test]
fn number_literal_is_a_number() {
    assert_eq!(infer("1"), Ok(Type::Number));
}

#[test]
fn add_is_a_function_of_two_numbers() {
    assert_eq!(infer("add"), Ok(function(vec![Type::Number, Type::Number], Type::Number)));
}

#[test]
fn full_application_of_add_is_a_number() {
    assert_eq!(infer("(add 1 2)"), Ok(Type::Number));
}

#[test]
fn partial_application_of_add_is_a_function_of_one_number() {
    assert_eq!(infer("(add 1)"), Ok(function(vec![Type::Number], Type::Number)));
}

#[test]
fn partial_application_can_be_completed() {
    assert_eq!(infer("((add 1) 2)"), Ok(Type::Number));
}

#[test]
fn parameter_is_unified_with_its_use() {
    assert_eq!(infer("\\x -> (add x 1)"), Ok(function(vec![Type::Number], Type::Number)));
    assert_eq!(infer("\\x -> (add 1 x)"), Ok(function(vec![Type::Number], Type::Number)));
    assert_eq!(infer("\\x -> (add x x)"), Ok(function(vec![Type::Number], Type::Number)));
}

#[test]
fn parameter_used_in_a_partial_application() {
    assert_eq!(
        infer("\\x -> (add x)"),
        Ok(function(vec![Type::Number], function(vec![Type::Number], Type::Number)))
    );
}

#[test]
fn nested_lambdas_give_nested_function_types() {
    assert_eq!(
        infer("\\x -> \\y -> (add x y)"),
        Ok(function(vec![Type::Number], function(vec![Type::Number], Type::Number)))
    );
}

#[test]
fn lambda_can_be_applied() {
    assert_eq!(infer("((\\x -> (add x 1)) 2)"), Ok(Type::Number));
}

#[test]
fn body_that_is_the_parameter_takes_its_type() {
    assert_eq!(
        infer("\\x -> (add ((\\y -> (add y 1)) x) 1)"),
        Ok(function(vec![Type::Number], Type::Number))
    );
}

#[test]
fn unknown_identifier_is_reported_by_name() {
    assert_eq!(infer("(foo 1)"), Err(TypeError::UnknownIdentifier("foo".to_string())));
    assert_eq!(infer("foo"), Err(TypeError::UnknownIdentifier("foo".to_string())));
    assert_eq!(infer("(add foo 1)"), Err(TypeError::UnknownIdentifier("foo".to_string())));
}

#[test]
fn parameter_is_unknown_outside_its_lambda() {
    assert_eq!(
        infer("(add ((\\x -> (add x 1)) 1) x)"),
        Err(TypeError::UnknownIdentifier("x".to_string()))
    );
}

#[test]
fn applied_number_is_not_a_function() {
    assert_eq!(infer("(1 2)"), Err(TypeError::NotAFunction(number("1"), Type::Number)));
}

#[test]
fn applied_result_of_add_is_not_a_function() {
    assert_eq!(
        infer("((add 1 2) 3)"),
        Err(TypeError::NotAFunction(
            apply(ident("add"), vec![number("1"), number("2")]),
            Type::Number
        ))
    );
}

#[test]
fn applied_parameter_of_unknown_type_is_not_a_function() {
    assert_eq!(
        infer("\\f -> (f 1)"),
        Err(TypeError::NotAFunction(ident("f"), Type::Var(1)))
    );
}

#[test]
fn too_many_arguments_are_an_error() {
    assert_eq!(
        infer("(add 1 2 3)"),
        Err(TypeError::TooManyArguments { parameters: 2, arguments: 3 })
    );
    assert_eq!(
        infer("((add 1) 2 3)"),
        Err(TypeError::TooManyArguments { parameters: 1, arguments: 2 })
    );
}

#[test]
fn too_many_arguments_are_seen_before_the_arguments() {
    assert_eq!(
        infer("(add 1 2 foo)"),
        Err(TypeError::TooManyArguments { parameters: 2, arguments: 3 })
    );
}

#[test]
fn function_where_a_number_is_asked_for_is_a_mismatch() {
    assert_eq!(
        infer("(add add 1)"),
        Err(TypeError::TypeMismatch(
            Type::Number,
            function(vec![Type::Number, Type::Number], Type::Number)
        ))
    );
    assert_eq!(
        infer("(add 1 (add 1))"),
        Err(TypeError::TypeMismatch(Type::Number, function(vec![Type::Number], Type::Number)))
    );
}

#[test]
fn arguments_are_matched_from_the_last_back() {
    assert_eq!(
        infer("(add foo (add 1))"),
        Err(TypeError::TypeMismatch(Type::Number, function(vec![Type::Number], Type::Number)))
    );
    assert_eq!(infer("(add foo bar)"), Err(TypeError::UnknownIdentifier("bar".to_string())));
}

#[test]
fn one_argument_is_matched_against_the_last_parameter() {
    let mut env = Env::new();
    env.push_binding(
        "f".to_string(),
        function(
            vec![function(vec![Type::Number], Type::Number), Type::Number],
            Type::Number,
        ),
    );
    assert_eq!(
        type_expr(&mut env, &apply(ident("f"), vec![number("1")])),
        Ok(function(vec![function(vec![Type::Number], Type::Number)], Type::Number))
    );
}

#[test]
fn parameter_that_nothing_constrains_needs_a_type() {
    assert_eq!(infer("\\x -> x"), Err(TypeError::MissingAnnotation("x".to_string())));
    assert_eq!(infer("\\x -> 1"), Err(TypeError::MissingAnnotation("x".to_string())));
    assert_eq!(
        infer("\\x -> \\y -> (add x 1)"),
        Err(TypeError::MissingAnnotation("y".to_string()))
    );
}

#[test]
fn written_type_of_a_parameter_is_used() {
    let identity = abstraction(vec![parameter("x", Some("Num"))], ident("x"));
    assert_eq!(type_expr_default(&identity), Ok(function(vec![Type::Number], Type::Number)));
}

#[test]
fn unknown_type_name_is_reported() {
    let expr = abstraction(vec![parameter("x", Some("Text"))], ident("x"));
    assert_eq!(type_expr_default(&expr), Err(TypeError::UnknownTypeName("Text".to_string())));
}

#[test]
fn several_parameters_keep_their_order() {
    let expr = abstraction(
        vec![parameter("f", Some("Num")), parameter("x", None), parameter("y", None)],
        apply(ident("add"), vec![ident("x"), ident("y")]),
    );
    assert_eq!(
        type_expr_default(&expr),
        Ok(function(vec![Type::Number, Type::Number, Type::Number], Type::Number))
    );
}

#[test]
fn last_unconstrained_parameter_is_the_one_reported() {
    let expr = abstraction(vec![parameter("x", None), parameter("y", None)], number("1"));
    assert_eq!(type_expr_default(&expr), Err(TypeError::MissingAnnotation("y".to_string())));
}

#[test]
fn abstraction_without_parameters_is_a_function_of_none() {
    let expr = abstraction(vec![], number("1"));
    assert_eq!(type_expr_default(&expr), Ok(function(vec![], Type::Number)));
}

#[test]
fn inner_binding_shadows_outer_one() {
    assert_eq!(
        infer("\\add -> (add 1)"),
        Err(TypeError::NotAFunction(ident("add"), Type::Var(1)))
    );
    let expr = abstraction(vec![parameter("add", Some("Num"))], ident("add"));
    assert_eq!(type_expr_default(&expr), Ok(function(vec![Type::Number], Type::Number)));
}

#[test]
fn stale_variable_in_the_body_type_is_resolved() {
    let constant = abstraction(vec![parameter("y", Some("Num"))], ident("x"));
    let expr = abstraction(
        vec![parameter("x", None)],
        apply(constant, vec![apply(ident("add"), vec![ident("x"), number("1")])]),
    );
    assert_eq!(type_expr_default(&expr), Ok(function(vec![Type::Number], Type::Number)));
}

#[test]
fn inference_gives_the_same_type_again() {
    for text in ["(add 1 2)", "(add 1)", "\\x -> (add x 1)", "(foo 1)", "(1 2)", "(add 1 2 3)"] {
        let expr = parse_one(text);
        let first = type_expr_default(&expr);
        let second = type_expr_default(&expr);
        assert_eq!(first, second);
        let copy = expr.clone();
        assert_eq!(copy, expr);
        assert_eq!(type_expr_default(&copy), first);
    }
}

#[test]
fn successful_inference_keeps_the_depth_of_the_environment() {
    let mut env = Env::default();
    let expr = parse_one("\\x -> \\y -> (add x y)");
    assert!(type_expr(&mut env, &expr).is_ok());
    assert_eq!(env, Env::default());
}

#[test]
fn failed_inference_keeps_what_was_bound_before() {
    let mut env = Env::new();
    env.push_unbound("x".to_string());
    env.push_binding("add".to_string(), function(vec![Type::Number, Type::Number], Type::Number));
    let expr = apply(ident("add"), vec![ident("y"), ident("x")]);
    assert_eq!(type_expr(&mut env, &expr), Err(TypeError::UnknownIdentifier("y".to_string())));
    assert_eq!(env.resolve_type(Type::Var(0)), Type::Number);
    assert_eq!(env.len(), 2);
}

#[test]
fn failed_abstraction_leaves_its_slots() {
    let mut env = Env::default();
    let expr = parse_one("\\x -> foo");
    assert!(type_expr(&mut env, &expr).is_err());
    assert_eq!(env.len(), 2);
    assert_eq!(env.resolve("x"), Some(&Type::Var(1)));
}

#[test]
fn default_environment_holds_add() {
    let env = Env::default();
    assert_eq!(env.len(), 1);
    assert_eq!(
        env.resolve("add"),
        Some(&function(vec![Type::Number, Type::Number], Type::Number))
    );
    assert_eq!(env.resolve("sub"), None);
    assert_eq!(env.resolve("ad"), None);
    assert_eq!(env.resolve("addd"), None);
}

#[test]
fn new_environment_is_empty() {
    let mut env = Env::new();
    assert_eq!(env.len(), 0);
    assert_eq!(env.resolve("add"), None);
    assert_eq!(env.pop_binding(), None);
    assert_eq!(env.len(), 0);
}

#[test]
fn newest_slot_of_a_name_wins() {
    let mut env = Env::new();
    env.push_binding("x".to_string(), Type::Number);
    env.push_binding("y".to_string(), Type::Number);
    env.push_binding("x".to_string(), function(vec![Type::Number], Type::Number));
    assert_eq!(env.resolve("x"), Some(&function(vec![Type::Number], Type::Number)));
    assert_eq!(env.pop_binding(), Some(slot("x", function(vec![Type::Number], Type::Number))));
    assert_eq!(env.resolve("x"), Some(&Type::Number));
    assert_eq!(env.pop_binding(), Some(slot("y", Type::Number)));
    assert_eq!(env.pop_binding(), Some(slot("x", Type::Number)));
    assert_eq!(env.pop_binding(), None);
}

#[test]
fn unbound_slot_holds_its_own_variable() {
    let mut env = Env::default();
    assert_eq!(env.push_unbound("x".to_string()), Type::Var(1));
    assert_eq!(env.push_unbound("y".to_string()), Type::Var(2));
    assert_eq!(env.resolve("x"), Some(&Type::Var(1)));
    assert_eq!(env.resolve("y"), Some(&Type::Var(2)));
    assert_eq!(env.resolve_type(Type::Var(1)), Type::Var(1));
    assert_eq!(env.resolve_type(Type::Var(2)), Type::Var(2));
}

#[test]
fn resolving_follows_variables_down_to_a_type() {
    let mut env = Env::new();
    env.push_binding("a".to_string(), Type::Number);
    env.push_binding("b".to_string(), Type::Var(0));
    env.push_binding("c".to_string(), Type::Var(1));
    assert_eq!(env.resolve_type(Type::Var(2)), Type::Number);
    assert_eq!(env.resolve_type(Type::Var(1)), Type::Number);
    assert_eq!(env.resolve_type(Type::Var(0)), Type::Number);
    assert_eq!(env.resolve_type(Type::Number), Type::Number);
}

#[test]
fn resolving_stops_at_an_unresolved_variable() {
    let mut env = Env::new();
    env.push_unbound("a".to_string());
    env.push_binding("b".to_string(), Type::Var(0));
    assert_eq!(env.resolve_type(Type::Var(1)), Type::Var(0));
    assert_eq!(env.resolve_type(Type::Var(0)), Type::Var(0));
}

#[test]
fn variable_without_a_slot_resolves_to_itself() {
    let env = Env::default();
    assert_eq!(env.resolve_type(Type::Var(7)), Type::Var(7));
}

#[test]
fn slot_that_points_upward_counts_as_unresolved() {
    let mut env = Env::new();
    env.push_binding("a".to_string(), Type::Var(1));
    env.push_binding("b".to_string(), Type::Number);
    assert_eq!(env.resolve_type(Type::Var(0)), Type::Var(0));
}

#[test]
fn resolving_does_not_look_inside_a_function_type() {
    let mut env = Env::new();
    env.push_binding("a".to_string(), Type::Number);
    let ty = function(vec![Type::Var(0)], Type::Var(0));
    assert_eq!(env.resolve_type(function(vec![Type::Var(0)], Type::Var(0))), ty);
}

#[test]
fn unifying_equal_types_changes_nothing() {
    let mut env = Env::default();
    assert_eq!(env.unify_types(Type::Number, Type::Number), Ok(()));
    assert_eq!(env, Env::default());
}

#[test]
fn unifying_a_variable_with_a_type_binds_it() {
    let mut env = Env::new();
    env.push_unbound("x".to_string());
    assert_eq!(env.unify_types(Type::Var(0), Type::Number), Ok(()));
    assert_eq!(env.resolve("x"), Some(&Type::Number));
    let mut env = Env::new();
    env.push_unbound("x".to_string());
    assert_eq!(env.unify_types(function(vec![Type::Number], Type::Number), Type::Var(0)), Ok(()));
    assert_eq!(env.resolve("x"), Some(&function(vec![Type::Number], Type::Number)));
}

#[test]
fn unifying_two_variables_binds_the_higher_to_the_lower() {
    let mut env = Env::new();
    env.push_unbound("x".to_string());
    env.push_unbound("y".to_string());
    assert_eq!(env.unify_types(Type::Var(0), Type::Var(1)), Ok(()));
    assert_eq!(env.resolve("x"), Some(&Type::Var(0)));
    assert_eq!(env.resolve("y"), Some(&Type::Var(0)));
    let mut env = Env::new();
    env.push_unbound("x".to_string());
    env.push_unbound("y".to_string());
    assert_eq!(env.unify_types(Type::Var(1), Type::Var(0)), Ok(()));
    assert_eq!(env.resolve("x"), Some(&Type::Var(0)));
    assert_eq!(env.resolve("y"), Some(&Type::Var(0)));
    assert_eq!(env.unify_types(Type::Var(1), Type::Number), Ok(()));
    assert_eq!(env.resolve("x"), Some(&Type::Number));
    assert_eq!(env.resolve_type(Type::Var(1)), Type::Number);
}

#[test]
fn unifying_a_variable_with_itself_changes_nothing() {
    let mut env = Env::new();
    env.push_unbound("x".to_string());
    assert_eq!(env.unify_types(Type::Var(0), Type::Var(0)), Ok(()));
    assert_eq!(env.resolve("x"), Some(&Type::Var(0)));
}

#[test]
fn unifying_different_types_is_a_mismatch() {
    let mut env = Env::default();
    assert_eq!(
        env.unify_types(Type::Number, function(vec![Type::Number], Type::Number)),
        Err(TypeError::TypeMismatch(Type::Number, function(vec![Type::Number], Type::Number)))
    );
    assert_eq!(
        env.unify_types(
            function(vec![Type::Number], Type::Number),
            function(vec![Type::Number, Type::Number], Type::Number)
        ),
        Err(TypeError::TypeMismatch(
            function(vec![Type::Number], Type::Number),
            function(vec![Type::Number, Type::Number], Type::Number)
        ))
    );
    assert_eq!(env, Env::default());
}

#[test]
fn mismatch_reports_the_resolved_types() {
    let mut env = Env::new();
    env.push_binding("n".to_string(), Type::Number);
    assert_eq!(
        env.unify_types(Type::Var(0), function(vec![], Type::Number)),
        Err(TypeError::TypeMismatch(Type::Number, function(vec![], Type::Number)))
    );
}

#[test]
fn variable_without_a_slot_cannot_be_bound() {
    let mut env = Env::default();
    assert_eq!(
        env.unify_types(Type::Var(5), Type::Number),
        Err(TypeError::TypeMismatch(Type::Var(5), Type::Number))
    );
    assert_eq!(
        env.unify_types(Type::Number, Type::Var(5)),
        Err(TypeError::TypeMismatch(Type::Number, Type::Var(5)))
    );
    assert_eq!(env.unify_types(Type::Var(5), Type::Var(5)), Ok(()));
    env.push_unbound("x".to_string());
    assert_eq!(
        env.unify_types(Type::Var(1), Type::Var(5)),
        Err(TypeError::TypeMismatch(Type::Var(1), Type::Var(5)))
    );
    assert_eq!(
        env.unify_types(Type::Var(5), Type::Var(1)),
        Err(TypeError::TypeMismatch(Type::Var(5), Type::Var(1)))
    );
}

#[test]
fn types_are_ordered_for_binding() {
    let mut t1 = Type::Number;
    let mut t2 = Type::Var(3);
    assert!(order_typevars(&mut t1, &mut t2));
    assert_eq!((t1, t2), (Type::Var(3), Type::Number));

    let mut t1 = Type::Var(3);
    let mut t2 = Type::Number;
    assert!(!order_typevars(&mut t1, &mut t2));
    assert_eq!((t1, t2), (Type::Var(3), Type::Number));

    let mut t1 = Type::Var(1);
    let mut t2 = Type::Var(4);
    assert!(order_typevars(&mut t1, &mut t2));
    assert_eq!((t1, t2), (Type::Var(4), Type::Var(1)));

    let mut t1 = Type::Var(4);
    let mut t2 = Type::Var(1);
    assert!(!order_typevars(&mut t1, &mut t2));
    assert_eq!((t1, t2), (Type::Var(4), Type::Var(1)));

    let mut t1 = Type::Var(2);
    let mut t2 = Type::Var(2);
    assert!(!order_typevars(&mut t1, &mut t2));

    let mut t1 = Type::Number;
    let mut t2 = Type::Number;
    assert!(!order_typevars(&mut t1, &mut t2));
}

#[test]
fn only_num_names_a_type() {
    assert_eq!(parse_type("Num"), Ok(Type::Number));
    assert_eq!(parse_type("num"), Err(TypeError::UnknownTypeName("num".to_string())));
    assert_eq!(parse_type("Nu"), Err(TypeError::UnknownTypeName("Nu".to_string())));
    assert_eq!(parse_type("Number"), Err(TypeError::UnknownTypeName("Number".to_string())));
    assert_eq!(parse_type(""), Err(TypeError::UnknownTypeName(String::new())));
}

#[test]
fn same_type_is_told_from_another() {
    let unary = function(vec![Type::Number], Type::Number);
    let binary = function(vec![Type::Number, Type::Number], Type::Number);
    assert!(Type::Number.same_as(&Type::Number));
    assert!(unary.same_as(&function(vec![Type::Number], Type::Number)));
    assert!(!unary.same_as(&binary));
    assert!(!unary.same_as(&Type::Number));
    assert!(Type::Var(2).same_as(&Type::Var(2)));
    assert!(!Type::Var(2).same_as(&Type::Var(3)));
    assert!(!function(vec![Type::Var(1)], Type::Number).same_as(&unary));
    assert!(!function(vec![Type::Number], Type::Var(1)).same_as(&unary));
}

#[test]
fn copy_of_a_type_is_the_same_type() {
    let ty = function(
        vec![Type::Var(1), function(vec![Type::Number], Type::Var(0))],
        function(vec![], Type::Number),
    );
    assert_eq!(ty.clone(), ty);
}

#[test]
fn application_without_arguments_has_the_type_of_its_function() {
    let expr = apply(ident("add"), vec![]);
    assert_eq!(
        type_expr_default(&expr),
        Ok(function(vec![Type::Number, Type::Number], Type::Number))
    );
}

#[test]
fn unified_types_stand_for_the_same_type() {
    let cases = vec![
        (Type::Var(0), Type::Number),
        (Type::Number, Type::Var(1)),
        (Type::Var(0), Type::Var(1)),
        (Type::Var(1), Type::Var(0)),
        (Type::Var(2), Type::Var(1)),
        (Type::Var(2), function(vec![Type::Var(0)], Type::Number)),
        (Type::Var(3), Type::Var(0)),
        (Type::Var(3), Type::Number),
        (Type::Number, Type::Number),
    ];
    for (left, right) in cases {
        let mut env = Env::new();
        env.push_unbound("a".to_string());
        env.push_unbound("b".to_string());
        env.push_binding("c".to_string(), Type::Var(1));
        env.push_binding("d".to_string(), Type::Number);
        assert_eq!(env.unify_types(left.clone(), right.clone()), Ok(()));
        assert_eq!(env.resolve_type(left), env.resolve_type(right));
        assert_eq!(env.len(), 4);
        assert_eq!(env.resolve("d"), Some(&Type::Number));
    }
}

#[test]
fn variables_are_bound_downward() {
    let mut env = Env::default();
    let expr = abstraction(
        vec![parameter("x", None), parameter("y", None)],
        apply(
            abstraction(
                vec![parameter("z", None)],
                apply(ident("add"), vec![ident("z"), ident("unknown")]),
            ),
            vec![ident("x")],
        ),
    );
    assert_eq!(
        type_expr(&mut env, &expr),
        Err(TypeError::UnknownIdentifier("unknown".to_string()))
    );
    let mut index = env.len();
    while let Some(binding) = env.pop_binding() {
        index -= 1;
        if let Type::Var(target) = binding.ty {
            assert!(target <= index);
        }
    }
}

#[test]
fn parameter_bound_to_an_outer_variable_is_reported_as_that_variable() {
    let mut env = Env::new();
    env.push_unbound("outer".to_string());
    env.push_binding(
        "same".to_string(),
        function(vec![Type::Var(0), Type::Var(0)], Type::Number),
    );
    let expr = abstraction(
        vec![parameter("x", None)],
        apply(ident("same"), vec![ident("outer"), ident("x")]),
    );
    assert_eq!(type_expr(&mut env, &expr), Ok(function(vec![Type::Var(0)], Type::Number)));
    assert_eq!(env.len(), 2);
    assert_eq!(env.resolve("outer"), Some(&Type::Var(0)));
}

#[test]
fn parameters_bound_to_each_other_need_a_type() {
    let mut env = Env::new();
    env.push_unbound("t".to_string());
    env.push_binding(
        "same".to_string(),
        function(vec![Type::Var(0), Type::Var(0)], Type::Number),
    );
    let expr = apply(
        abstraction(
            vec![parameter("x", None), parameter("y", None)],
            apply(ident("same"), vec![ident("x"), ident("y")]),
        ),
        vec![],
    );
    let outcome = type_expr(&mut env, &expr);
    assert_eq!(outcome, Ok(function(vec![Type::Var(0), Type::Var(0)], Type::Number)));
}
