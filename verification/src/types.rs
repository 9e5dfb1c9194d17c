//! Types, the binding environment, and type inference by unification.
//!
//! The environment is a stack of named slots. A parameter without a written
//! type gets a slot that holds the type variable of its own index; unification
//! later overwrites such a slot with what the variable turned out to be.

use crate::ast::{DeclarationView, Expr, ExprView};
use vstd::prelude::*;

verus! {

/// A type: the number type, a function type, or a type variable, which names
/// the slot of the environment that says what it stands for.
#[derive(Debug, PartialEq, Eq)]
pub enum Type {
    Number,
    Abs { arg_types: Vec<Type>, result: Box<Type> },
    Var(usize),
}

/// The mathematical value of a [`Type`].
pub enum TypeView {
    Number,
    Abs { arg_types: Seq<TypeView>, result: Box<TypeView> },
    Var(nat),
}

/// The value of `ty`, with the values of its parts in place of the parts.
pub open spec fn type_view(ty: Type) -> TypeView
    decreases ty,
{
    match ty {
        Type::Number => TypeView::Number,
        Type::Abs { arg_types, result } => TypeView::Abs {
            arg_types: Seq::new(
                arg_types@.len(),
                |i: int|
                    if 0 <= i < arg_types@.len() {
                        type_view(arg_types@[i])
                    } else {
                        TypeView::Number
                    },
            ),
            result: Box::new(type_view(*result)),
        },
        Type::Var(index) => TypeView::Var(index as nat),
    }
}

impl View for Type {
    type V = TypeView;

    open spec fn view(&self) -> TypeView {
        type_view(*self)
    }
}

impl DeepView for Type {
    type V = TypeView;

    open spec fn deep_view(&self) -> TypeView {
        type_view(*self)
    }
}

impl Clone for Type {
    #[verifier::loop_isolation(false)]
    fn clone(&self) -> (copy: Self)
        ensures
            copy@ == self@,
        decreases self,
    {
        match self {
            Type::Number => Type::Number,
            Type::Abs { arg_types, result } => {
                let mut copies: Vec<Type> = Vec::new();
                let mut i: usize = 0;
                while i < arg_types.len()
                    invariant
                        i <= arg_types.len(),
                        copies.len() == i,
                        forall|j: int| 0 <= j < i ==> copies@[j]@ == arg_types@[j]@,
                    decreases arg_types.len() - i,
                {
                    copies.push(arg_types[i].clone());
                    i += 1;
                }
                let copy = Type::Abs { arg_types: copies, result: Box::new((**result).clone()) };
                assert(copy@->arg_types =~= self@->arg_types);
                copy
            },
            Type::Var(index) => Type::Var(*index),
        }
    }
}

impl Type {
    /// Whether `self` and `other` are the same type: the same variant, with
    /// the same parts throughout.
    #[verifier::loop_isolation(false)]
    pub fn same_as(&self, other: &Type) -> (same: bool)
        ensures
            same == (self@ == other@),
        decreases self,
    {
        match (self, other) {
            (Type::Number, Type::Number) => true,
            (Type::Var(i), Type::Var(j)) => *i == *j,
            (
                Type::Abs { arg_types: left, result: left_result },
                Type::Abs { arg_types: right, result: right_result },
            ) => {
                if left.len() != right.len() {
                    assert(self@->arg_types.len() != other@->arg_types.len());
                    return false;
                }
                let mut k: usize = 0;
                while k < left.len()
                    invariant
                        k <= left.len(),
                        forall|j: int| 0 <= j < k ==> left@[j]@ == right@[j]@,
                    decreases left.len() - k,
                {
                    if !left[k].same_as(&right[k]) {
                        assert(self@->arg_types[k as int] == left@[k as int]@);
                        assert(other@->arg_types[k as int] == right@[k as int]@);
                        return false;
                    }
                    k += 1;
                }
                assert(self@->arg_types =~= other@->arg_types);
                left_result.same_as(right_result)
            },
            _ => false,
        }
    }
}

/// Why an expression has no type.
#[derive(Debug, PartialEq, Eq)]
pub enum TypeError {
    /// No binding in scope has this name.
    UnknownIdentifier(String),
    /// The expression is applied to arguments, and its type, given second, is
    /// no function type.
    NotAFunction(Expr, Type),
    /// A parameter asks for the first type and the argument has the second.
    TypeMismatch(Type, Type),
    /// Nothing in its abstraction says what the type of this parameter is.
    MissingAnnotation(String),
    /// A parameter is declared with this type name, which names no type.
    UnknownTypeName(String),
    /// A function of `parameters` parameters is applied to `arguments`
    /// arguments, which are more.
    TooManyArguments { parameters: usize, arguments: usize },
}

/// The mathematical value of a [`TypeError`].
pub enum TypeErrorView {
    UnknownIdentifier(Seq<char>),
    NotAFunction(ExprView, TypeView),
    TypeMismatch(TypeView, TypeView),
    MissingAnnotation(Seq<char>),
    UnknownTypeName(Seq<char>),
    TooManyArguments { parameters: nat, arguments: nat },
}

impl View for TypeError {
    type V = TypeErrorView;

    open spec fn view(&self) -> TypeErrorView {
        match self {
            TypeError::UnknownIdentifier(name) => TypeErrorView::UnknownIdentifier(name@),
            TypeError::NotAFunction(expr, ty) => TypeErrorView::NotAFunction(expr@, ty@),
            TypeError::TypeMismatch(expected, found) => TypeErrorView::TypeMismatch(
                expected@,
                found@,
            ),
            TypeError::MissingAnnotation(name) => TypeErrorView::MissingAnnotation(name@),
            TypeError::UnknownTypeName(name) => TypeErrorView::UnknownTypeName(name@),
            TypeError::TooManyArguments { parameters, arguments } => {
                TypeErrorView::TooManyArguments {
                    parameters: *parameters as nat,
                    arguments: *arguments as nat,
                }
            },
        }
    }
}

/// The value of the outcome of an inference.
pub open spec fn outcome_view(outcome: Result<Type, TypeError>) -> Result<
    TypeView,
    TypeErrorView,
> {
    match outcome {
        Ok(ty) => Ok(ty@),
        Err(error) => Err(error@),
    }
}

/// One slot of the environment.
#[derive(Debug, PartialEq, Eq)]
pub struct Binding {
    pub name: String,
    pub ty: Type,
}

/// The mathematical value of a [`Binding`].
pub struct BindingView {
    pub name: Seq<char>,
    pub ty: TypeView,
}

impl View for Binding {
    type V = BindingView;

    open spec fn view(&self) -> BindingView {
        BindingView { name: self.name@, ty: self.ty@ }
    }
}

impl DeepView for Binding {
    type V = BindingView;

    open spec fn deep_view(&self) -> BindingView {
        self@
    }
}

/// The binding environment: a stack of slots, the newest last. Its value is
/// the sequence of the values of its slots.
#[derive(Debug, PartialEq, Eq)]
pub struct Env {
    bindings: Vec<Binding>,
}

impl View for Env {
    type V = Seq<BindingView>;

    closed spec fn view(&self) -> Seq<BindingView> {
        self.bindings.deep_view()
    }
}

/// The type that the name of a type stands for. `Num` is the only name.
pub open spec fn annotation_type(name: Seq<char>) -> Result<TypeView, TypeErrorView> {
    if name == seq!['N', 'u', 'm'] {
        Ok(TypeView::Number)
    } else {
        Err(TypeErrorView::UnknownTypeName(name))
    }
}

/// The type of the newest slot of `env` with the name `name`.
pub open spec fn lookup(env: Seq<BindingView>, name: Seq<char>) -> Option<TypeView>
    decreases env.len(),
{
    if env.len() == 0 {
        None
    } else if env.last().name == name {
        Some(env.last().ty)
    } else {
        lookup(env.drop_last(), name)
    }
}

/// What the type variable `index` stands for in `env`. A slot that holds a
/// variable of a lower index passes the question on to that variable. A
/// variable whose slot holds anything else than that stands for what the slot
/// holds, where that is no variable, and otherwise for itself, as does a
/// variable without a slot: such a variable is unresolved.
pub open spec fn resolve_variable(env: Seq<BindingView>, index: nat) -> TypeView
    decreases index,
{
    if index < env.len() {
        match env[index as int].ty {
            TypeView::Var(next) => if next < index {
                resolve_variable(env, next)
            } else {
                TypeView::Var(index)
            },
            concrete => concrete,
        }
    } else {
        TypeView::Var(index)
    }
}

/// What `ty` stands for in `env`: itself, unless it is a type variable.
pub open spec fn resolve(env: Seq<BindingView>, ty: TypeView) -> TypeView {
    match ty {
        TypeView::Var(index) => resolve_variable(env, index),
        _ => ty,
    }
}

/// `env` with the type `ty` in the slot `index`.
pub open spec fn bind(env: Seq<BindingView>, index: nat, ty: TypeView) -> Seq<BindingView> {
    env.update(index as int, BindingView { name: env[index as int].name, ty })
}

/// The environment after the types `expected` and `found` are made equal in
/// `env`. Both are resolved first. Equal types leave the environment as it
/// is. Of two unresolved variables the one with the higher index is bound to
/// the other; an unresolved variable is bound to a type that is none. A
/// variable can be bound only if it has a slot. Everything else is a mismatch
/// of the two resolved types.
pub open spec fn unify(env: Seq<BindingView>, expected: TypeView, found: TypeView) -> Result<
    Seq<BindingView>,
    TypeErrorView,
> {
    let left = resolve(env, expected);
    let right = resolve(env, found);
    if left == right {
        Ok(env)
    } else {
        match (left, right) {
            (TypeView::Var(i), TypeView::Var(j)) => {
                if i < j && j < env.len() {
                    Ok(bind(env, j, left))
                } else if j < i && i < env.len() {
                    Ok(bind(env, i, right))
                } else {
                    Err(TypeErrorView::TypeMismatch(left, right))
                }
            },
            (TypeView::Var(i), _) => {
                if i < env.len() {
                    Ok(bind(env, i, right))
                } else {
                    Err(TypeErrorView::TypeMismatch(left, right))
                }
            },
            (_, TypeView::Var(j)) => {
                if j < env.len() {
                    Ok(bind(env, j, left))
                } else {
                    Err(TypeErrorView::TypeMismatch(left, right))
                }
            },
            _ => Err(TypeErrorView::TypeMismatch(left, right)),
        }
    }
}

/// The environment that a step of inference leaves, and what the step gave.
/// A step that fails leaves the environment as it was when it failed.
pub struct Step<T> {
    pub env: Seq<BindingView>,
    pub outcome: Result<T, TypeErrorView>,
}

/// The environment after a slot is pushed for each of `parameters` from the
/// index `done` on, in their order: with the written type, where there is
/// one, and else with a fresh type variable, the one of the slot's own index.
pub open spec fn push_parameters(
    env: Seq<BindingView>,
    parameters: Seq<DeclarationView>,
    done: nat,
) -> Step<()>
    decreases parameters.len() - done,
{
    if done >= parameters.len() {
        Step { env, outcome: Ok(()) }
    } else {
        let parameter = parameters[done as int];
        match parameter.annotation {
            Some(name) => match annotation_type(name) {
                Ok(ty) => push_parameters(
                    env.push(BindingView { name: parameter.name, ty }),
                    parameters,
                    done + 1,
                ),
                Err(error) => Step { env, outcome: Err(error) },
            },
            None => push_parameters(
                env.push(BindingView { name: parameter.name, ty: TypeView::Var(env.len()) }),
                parameters,
                done + 1,
            ),
        }
    }
}

/// Takes the slots from the index `base` on off `env`, the newest first, and
/// puts what the variable of each stands for in front of `collected`. A slot
/// whose variable is still unresolved stops this: nothing says what the type
/// of that parameter is.
pub open spec fn close_scope(env: Seq<BindingView>, base: nat, collected: Seq<TypeView>) -> Step<
    Seq<TypeView>,
>
    decreases env.len(),
{
    if env.len() <= base {
        Step { env, outcome: Ok(collected) }
    } else {
        let top = (env.len() - 1) as nat;
        let ty = resolve_variable(env, top);
        if ty == TypeView::Var(top) {
            Step { env, outcome: Err(TypeErrorView::MissingAnnotation(env[top as int].name)) }
        } else {
            close_scope(env.drop_last(), base, seq![ty] + collected)
        }
    }
}

/// The type of an application of a function with the parameter types
/// `parameters` and the result type `result` to `arguments` arguments, which
/// are not more than the parameters: the result type if all parameters are
/// served, and else a function of the leading parameters that are not.
pub open spec fn applied_type(parameters: Seq<TypeView>, result: TypeView, arguments: nat)
    -> TypeView {
    if parameters.len() > arguments {
        TypeView::Abs {
            arg_types: parameters.take(parameters.len() - arguments),
            result: Box::new(result),
        }
    } else {
        result
    }
}

/// The type of `expr` in `env`, and the environment that inferring it leaves.
///
/// - A number has the number type.
/// - An identifier has the type of the newest slot with its name.
/// - An abstraction pushes a slot for each parameter, infers its body, and
///   takes the slots off again. Its type is a function type: from what the
///   parameters turned out to be, to what the type of the body stands for.
/// - An application infers its function, whose type must stand for a
///   function type with no fewer parameters than there are arguments, and
///   then matches the arguments against the trailing parameters.
pub open spec fn infer(env: Seq<BindingView>, expr: ExprView) -> Step<TypeView>
    decreases expr, 0nat,
{
    match expr {
        ExprView::Number(_) => Step { env, outcome: Ok(TypeView::Number) },
        ExprView::Identifier(name) => match lookup(env, name) {
            Some(ty) => Step { env, outcome: Ok(ty) },
            None => Step { env, outcome: Err(TypeErrorView::UnknownIdentifier(name)) },
        },
        ExprView::Abstraction { args, body } => {
            let pushed = push_parameters(env, args, 0);
            match pushed.outcome {
                Err(error) => Step { env: pushed.env, outcome: Err(error) },
                Ok(_) => {
                    let inner = infer(pushed.env, *body);
                    match inner.outcome {
                        Err(error) => Step { env: inner.env, outcome: Err(error) },
                        Ok(body_type) => {
                            let result = resolve(inner.env, body_type);
                            let closed = close_scope(inner.env, env.len(), Seq::empty());
                            match closed.outcome {
                                Err(error) => Step { env: closed.env, outcome: Err(error) },
                                Ok(arg_types) => Step {
                                    env: closed.env,
                                    outcome: Ok(
                                        TypeView::Abs { arg_types, result: Box::new(result) },
                                    ),
                                },
                            }
                        },
                    }
                },
            }
        },
        ExprView::Application { abs, args } => {
            let function = infer(env, *abs);
            match function.outcome {
                Err(error) => Step { env: function.env, outcome: Err(error) },
                Ok(function_type) => match resolve(function.env, function_type) {
                    TypeView::Abs { arg_types, result } => {
                        if args.len() > arg_types.len() {
                            Step {
                                env: function.env,
                                outcome: Err(
                                    TypeErrorView::TooManyArguments {
                                        parameters: arg_types.len(),
                                        arguments: args.len(),
                                    },
                                ),
                            }
                        } else {
                            let matched = match_arguments(function.env, arg_types, args, 0);
                            match matched.outcome {
                                Err(error) => Step { env: matched.env, outcome: Err(error) },
                                Ok(_) => Step {
                                    env: matched.env,
                                    outcome: Ok(applied_type(arg_types, *result, args.len())),
                                },
                            }
                        }
                    },
                    actual => Step {
                        env: function.env,
                        outcome: Err(TypeErrorView::NotAFunction(*abs, actual)),
                    },
                },
            }
        },
    }
}

/// The environment after the arguments `arguments` are matched against the
/// trailing ones of the parameter types `parameters`, from the last argument
/// back to the first, when `done` of them are matched already: each argument
/// is inferred, and its type is unified with the type of its parameter.
pub open spec fn match_arguments(
    env: Seq<BindingView>,
    parameters: Seq<TypeView>,
    arguments: Seq<ExprView>,
    done: nat,
) -> Step<()>
    decreases arguments, arguments.len() - done,
{
    if done >= arguments.len() {
        Step { env, outcome: Ok(()) }
    } else {
        let argument = infer(env, arguments[arguments.len() - 1 - done]);
        match argument.outcome {
            Err(error) => Step { env: argument.env, outcome: Err(error) },
            Ok(found) => match unify(
                argument.env,
                parameters[parameters.len() - 1 - done],
                found,
            ) {
                Err(error) => Step { env: argument.env, outcome: Err(error) },
                Ok(unified) => match_arguments(unified, parameters, arguments, done + 1),
            },
        }
    }
}

/// The type of `add`, the one name that every program can use: two numbers
/// to a number.
pub open spec fn add_type() -> TypeView {
    TypeView::Abs {
        arg_types: seq![TypeView::Number, TypeView::Number],
        result: Box::new(TypeView::Number),
    }
}

/// The environment that inference starts from: `add` and nothing else.
pub open spec fn default_env() -> Seq<BindingView> {
    seq![BindingView { name: seq!['a', 'd', 'd'], ty: add_type() }]
}

/// `str` equality of the standard library compares the two texts character
/// by character.
pub assume_specification[ <str as PartialEq>::eq ](left: &str, right: &str) -> (equal: bool)
    ensures
        equal == (left@ == right@),
;

/// The type that `name` stands for as the written type of a parameter.
pub fn parse_type(name: &str) -> (outcome: Result<Type, TypeError>)
    ensures
        outcome_view(outcome) == annotation_type(name@),
{
    proof {
        reveal_strlit("Num");
        assert("Num"@ =~= seq!['N', 'u', 'm']);
    }
    if name.eq("Num") {
        Ok(Type::Number)
    } else {
        Err(TypeError::UnknownTypeName(name.to_owned()))
    }
}

impl Env {
    /// An environment without slots.
    pub fn new() -> (env: Env)
        ensures
            env@ == Seq::<BindingView>::empty(),
    {
        let env = Env { bindings: Vec::new() };
        assert(env@ =~= Seq::<BindingView>::empty());
        env
    }

    /// The number of slots.
    pub fn len(&self) -> (len: usize)
        ensures
            len == self@.len(),
    {
        self.bindings.len()
    }

    /// The type of the newest slot with the name `name`: inner bindings
    /// shadow outer ones.
    pub fn resolve(&self, name: &str) -> (found: Option<&Type>)
        ensures
            match found {
                Some(ty) => lookup(self@, name@) == Some(ty@),
                None => lookup(self@, name@) is None,
            },
    {
        let mut i: usize = self.bindings.len();
        assert(self@.take(i as int) == self@);
        while i > 0
            invariant
                i <= self.bindings.len(),
                lookup(self@, name@) == lookup(self@.take(i as int), name@),
            decreases i,
        {
            i -= 1;
            let binding = &self.bindings[i];
            proof {
                let prefix = self@.take(i + 1);
                assert(prefix.last() == binding@);
                assert(prefix.drop_last() == self@.take(i as int));
            }
            if binding.name.as_str().eq(name) {
                return Some(&binding.ty);
            }
        }
        None
    }

    /// Puts a slot with the name `name` and the type `ty` on top.
    pub fn push_binding(&mut self, name: String, ty: Type)
        ensures
            final(self)@ == old(self)@.push(BindingView { name: name@, ty: ty@ }),
    {
        self.bindings.push(Binding { name, ty });
        assert(final(self)@ =~= old(self)@.push(BindingView { name: name@, ty: ty@ }));
    }

    /// Puts a slot with the name `name` on top whose type is a fresh type
    /// variable, the one of the slot's own index, and returns that variable.
    pub fn push_unbound(&mut self, name: String) -> (ty: Type)
        ensures
            ty@ == TypeView::Var(old(self)@.len()),
            final(self)@ == old(self)@.push(BindingView { name: name@, ty: ty@ }),
    {
        let ty = Type::Var(self.bindings.len());
        self.push_binding(name, ty.clone());
        ty
    }

    /// Takes the newest slot off, if there is one.
    pub fn pop_binding(&mut self) -> (top: Option<Binding>)
        ensures
            old(self)@.len() == 0 ==> top is None && final(self)@ == old(self)@,
            old(self)@.len() > 0 ==> top is Some && top->0@ == old(self)@.last() && final(self)@
                == old(self)@.drop_last(),
    {
        let top = self.bindings.pop();
        assert(old(self)@.len() > 0 ==> final(self)@ =~= old(self)@.drop_last());
        top
    }

    /// What `t` stands for in this environment.
    pub fn resolve_type(&self, t: Type) -> (resolved: Type)
        ensures
            resolved@ == resolve(self@, t@),
    {
        let mut current = t;
        loop
            invariant
                resolve(self@, current@) == resolve(self@, t@),
            ensures
                current@ == resolve(self@, t@),
            decreases
                    match current@ {
                        TypeView::Var(index) => index + 1,
                        _ => 0,
                    },
        {
            let index = match &current {
                Type::Var(index) => *index,
                _ => {
                    break;
                },
            };
            if index >= self.bindings.len() {
                break;
            }
            match &self.bindings[index].ty {
                Type::Var(next) => {
                    if *next < index {
                        current = Type::Var(*next);
                    } else {
                        break;
                    }
                },
                concrete => {
                    current = concrete.clone();
                    break;
                },
            }
        }
        current
    }

    /// Makes `t1`, the type that is asked for, and `t2`, the type that was
    /// found, equal in this environment, by binding an unresolved type
    /// variable where they are not equal already. Where that cannot be done
    /// the environment stays as it is and the two resolved types are reported.
    pub fn unify_types(&mut self, t1: Type, t2: Type) -> (outcome: Result<(), TypeError>)
        ensures
            match outcome {
                Ok(()) => unify(old(self)@, t1@, t2@) == Ok::<Seq<BindingView>, TypeErrorView>(
                    final(self)@,
                ),
                Err(error) => unify(old(self)@, t1@, t2@) == Err::<Seq<BindingView>, TypeErrorView>(
                    error@,
                ) && final(self)@ == old(self)@,
            },
    {
        let mut left = self.resolve_type(t1);
        let mut right = self.resolve_type(t2);
        if left.same_as(&right) {
            return Ok(());
        }
        let swapped = order_typevars(&mut left, &mut right);
        if let Type::Var(index) = &left {
            let index = *index;
            if index < self.bindings.len() {
                self.bindings[index].ty = right;
                assert(final(self)@ =~= bind(old(self)@, index as nat, right@));
                return Ok(());
            }
        }
        if swapped {
            Err(TypeError::TypeMismatch(right, left))
        } else {
            Err(TypeError::TypeMismatch(left, right))
        }
    }
}

/// Infers the type of `expr` in `env`.
///
/// Inference binds type variables as it goes, and a failure leaves the
/// bindings made before it in place.
#[verifier::loop_isolation(false)]
pub fn type_expr(env: &mut Env, expr: &Expr) -> (outcome: Result<Type, TypeError>)
    ensures
        final(env)@ == infer(old(env)@, expr@).env,
        outcome_view(outcome) == infer(old(env)@, expr@).outcome,
    decreases expr,
{
    match expr {
        Expr::Identifier(id) => {
            match env.resolve(id.as_str()) {
                Some(ty) => Ok(ty.clone()),
                None => Err(TypeError::UnknownIdentifier(id.clone())),
            }
        },
        Expr::Number(_) => Ok(Type::Number),
        Expr::Abstraction { args, body } => {
            let base = env.len();
            let ghost parameters = args.deep_view();
            let mut pushed: usize = 0;
            while pushed < args.len()
                invariant
                    pushed <= args.len(),
                    push_parameters(old(env)@, parameters, 0) == push_parameters(
                        env@,
                        parameters,
                        pushed as nat,
                    ),
                decreases args.len() - pushed,
            {
                let arg = &args[pushed];
                assert(parameters[pushed as int] == arg@);
                match &arg.annotation {
                    Some(annotation) => {
                        match parse_type(annotation.as_str()) {
                            Ok(ty) => {
                                env.push_binding(arg.name.clone(), ty);
                            },
                            Err(error) => {
                                return Err(error);
                            },
                        }
                    },
                    None => {
                        env.push_unbound(arg.name.clone());
                    },
                }
                pushed += 1;
            }
            let body_type = match type_expr(env, body) {
                Ok(body_type) => body_type,
                Err(error) => {
                    return Err(error);
                },
            };
            let result = env.resolve_type(body_type);
            let ghost inner = env@;
            let mut arg_types: Vec<Type> = Vec::new();
            assert(arg_types.deep_view() =~= Seq::<TypeView>::empty());
            while env.len() > base
                invariant
                    close_scope(inner, base as nat, Seq::empty()) == close_scope(
                        env@,
                        base as nat,
                        arg_types.deep_view(),
                    ),
                decreases env@.len(),
            {
                let top = env.len() - 1;
                let ty = env.resolve_type(Type::Var(top));
                if ty.same_as(&Type::Var(top)) {
                    return Err(TypeError::MissingAnnotation(env.bindings[top].name.clone()));
                }
                let ghost collected = arg_types.deep_view();
                env.pop_binding();
                arg_types.insert(0, ty);
                assert(arg_types.deep_view() =~= seq![ty@] + collected);
            }
            let abstraction = Type::Abs { arg_types, result: Box::new(result) };
            assert(abstraction@->arg_types =~= arg_types.deep_view());
            Ok(abstraction)
        },
        Expr::Application { abs, args } => {
            let function_type = match type_expr(env, abs) {
                Ok(function_type) => function_type,
                Err(error) => {
                    return Err(error);
                },
            };
            let resolved = env.resolve_type(function_type);
            let ghost function = resolved@;
            match resolved {
                Type::Abs { arg_types, result } => {
                    assert(function->arg_types =~= arg_types.deep_view());
                    if args.len() > arg_types.len() {
                        return Err(
                            TypeError::TooManyArguments {
                                parameters: arg_types.len(),
                                arguments: args.len(),
                            },
                        );
                    }
                    let ghost function_env = env@;
                    let ghost parameters = arg_types.deep_view();
                    let ghost arguments = expr@->Application_args;
                    let mut done: usize = 0;
                    while done < args.len()
                        invariant
                            done <= args.len() <= arg_types.len(),
                            match_arguments(function_env, parameters, arguments, 0)
                                == match_arguments(env@, parameters, arguments, done as nat),
                        decreases args.len() - done,
                    {
                        let ghost before = env@;
                        let arg_type = arg_types[arg_types.len() - 1 - done].clone();
                        let arg = &args[args.len() - 1 - done];
                        assert(arguments[arguments.len() - 1 - done] == arg@);
                        assert(parameters[parameters.len() - 1 - done] == arg_type@);
                        let expr_type = match type_expr(env, arg) {
                            Ok(expr_type) => expr_type,
                            Err(error) => {
                                assert(match_arguments(before, parameters, arguments, done as nat)
                                    == Step::<()> { env: env@, outcome: Err(error@) });
                                return Err(error);
                            },
                        };
                        match env.unify_types(arg_type, expr_type) {
                            Ok(()) => {},
                            Err(error) => {
                                assert(match_arguments(before, parameters, arguments, done as nat)
                                    == Step::<()> { env: env@, outcome: Err(error@) });
                                return Err(error);
                            },
                        }
                        done += 1;
                    }
                    if arg_types.len() > args.len() {
                        let mut leading = arg_types;
                        leading.truncate(leading.len() - args.len());
                        let partial = Type::Abs { arg_types: leading, result };
                        assert(partial@->arg_types =~= parameters.take(
                            parameters.len() - arguments.len(),
                        ));
                        Ok(partial)
                    } else {
                        Ok(*result)
                    }
                },
                actual => Err(TypeError::NotAFunction((**abs).clone(), actual)),
            }
        },
    }
}

/// Infers the type of `expr` in the environment that holds `add` and nothing
/// else.
pub fn type_expr_default(expr: &Expr) -> (outcome: Result<Type, TypeError>)
    ensures
        outcome_view(outcome) == infer(default_env(), expr@).outcome,
{
    let mut env = Env::default();
    type_expr(&mut env, expr)
}

impl Default for Env {
    /// The environment that holds `add` and nothing else.
    fn default() -> (env: Env)
        ensures
            env@ == default_env(),
    {
        let mut env = Env::new();
        let mut arg_types: Vec<Type> = Vec::new();
        arg_types.push(Type::Number);
        arg_types.push(Type::Number);
        assert(arg_types@[0]@ == TypeView::Number && arg_types@[1]@ == TypeView::Number);
        let add = Type::Abs { arg_types, result: Box::new(Type::Number) };
        assert(add@->arg_types =~= seq![TypeView::Number, TypeView::Number]);
        proof {
            reveal_strlit("add");
            assert("add"@ =~= seq!['a', 'd', 'd']);
        }
        env.push_binding("add".to_owned(), add);
        assert(env@ =~= default_env());
        env
    }
}

/// Orders two types for binding: after the call `t1` is a type variable if
/// either of them was one, and the one with the higher index if both were.
/// Returns whether the two have changed places.
pub fn order_typevars(t1: &mut Type, t2: &mut Type) -> (swapped: bool)
    ensures
        swapped == match (old(t1)@, old(t2)@) {
            (TypeView::Var(i), TypeView::Var(j)) => i < j,
            (_, TypeView::Var(_)) => true,
            _ => false,
        },
        swapped ==> *final(t1) == *old(t2) && *final(t2) == *old(t1),
        !swapped ==> *final(t1) == *old(t1) && *final(t2) == *old(t2),
{
    let swap = match (&*t1, &*t2) {
        (Type::Var(i), Type::Var(j)) => *i < *j,
        (_, Type::Var(_)) => true,
        _ => false,
    };
    if swap {
        std::mem::swap(t1, t2);
    }
    swap
}

/// Whether `after` has the slots of `before` under their names: as many
/// slots, and each with the name it had.
pub open spec fn same_scope(before: Seq<BindingView>, after: Seq<BindingView>) -> bool {
    &&& after.len() == before.len()
    &&& forall|i: int| 0 <= i < before.len() ==> (#[trigger] after[i]).name == before[i].name
}

/// Inference is a function of the expression and of the environment it
/// starts from: run again on the same expression, from the same environment,
/// it gives the same type or the same error, and leaves the same environment.
pub proof fn lemma_inference_repeats(
    first_env: Seq<BindingView>,
    first_expr: ExprView,
    second_env: Seq<BindingView>,
    second_expr: ExprView,
)
    requires
        first_env == second_env,
        first_expr == second_expr,
    ensures
        infer(first_env, first_expr) == infer(second_env, second_expr),
{
}

/// Resolving ends at a type that is no variable, or at an unresolved variable
/// of an index that is not higher than the one it started from. Resolving
/// what it ends at changes nothing.
pub proof fn lemma_resolve_variable(env: Seq<BindingView>, index: nat)
    ensures
        resolve_variable(env, index) matches TypeView::Var(end) ==> end <= index,
        resolve(env, resolve_variable(env, index)) == resolve_variable(env, index),
    decreases index,
{
    if index < env.len() {
        if let TypeView::Var(next) = env[index as int].ty {
            if next < index {
                lemma_resolve_variable(env, next);
            }
        }
    }
}

/// Binding an unresolved variable changes what exactly those variables stand
/// for that stood for it: they now stand for what it is bound to.
pub proof fn lemma_resolve_after_bind(env: Seq<BindingView>, bound: nat, ty: TypeView, index: nat)
    requires
        bound < env.len(),
        resolve_variable(env, bound) == TypeView::Var(bound),
        ty matches TypeView::Var(target) ==> target < bound && resolve_variable(env, target)
            == TypeView::Var(target),
    ensures
        resolve_variable(bind(env, bound, ty), index) == if resolve_variable(env, index)
            == TypeView::Var(bound) {
            ty
        } else {
            resolve_variable(env, index)
        },
    decreases index,
{
    let after = bind(env, bound, ty);
    if index >= env.len() {
    } else if index == bound {
        if let TypeView::Var(target) = ty {
            lemma_resolve_variable(env, target);
            if let TypeView::Var(below) = env[target as int].ty {
                if below < target {
                    lemma_resolve_variable(env, below);
                }
            }
            assert(after[target as int] == env[target as int]);
        }
    } else {
        assert(after[index as int] == env[index as int]);
        if let TypeView::Var(next) = env[index as int].ty {
            if next < index {
                lemma_resolve_after_bind(env, bound, ty, next);
            }
        }
    }
}

/// Unification makes equal: in the environment that it leaves, the two types
/// stand for the same type.
pub proof fn lemma_unify_makes_equal(env: Seq<BindingView>, expected: TypeView, found: TypeView)
    ensures
        unify(env, expected, found) matches Ok(unified) ==> resolve(unified, expected) == resolve(
            unified,
            found,
        ),
{
    let left = resolve(env, expected);
    let right = resolve(env, found);
    if let TypeView::Var(index) = expected {
        lemma_resolve_variable(env, index);
    }
    if let TypeView::Var(index) = found {
        lemma_resolve_variable(env, index);
    }
    if left != right {
        if let Ok(unified) = unify(env, expected, found) {
            let (bound, ty) = match (left, right) {
                (TypeView::Var(i), TypeView::Var(j)) => if i < j {
                    (j, left)
                } else {
                    (i, right)
                },
                (TypeView::Var(i), _) => (i, right),
                (_, TypeView::Var(j)) => (j, left),
                _ => (0nat, left),
            };
            assert(unified == bind(env, bound, ty));
            if let TypeView::Var(index) = expected {
                lemma_resolve_after_bind(env, bound, ty, index);
            }
            if let TypeView::Var(index) = found {
                lemma_resolve_after_bind(env, bound, ty, index);
            }
        }
    }
}

/// Unification keeps the slots and their names, and fills at most one slot.
pub proof fn lemma_unify_keeps_scope(env: Seq<BindingView>, expected: TypeView, found: TypeView)
    ensures
        unify(env, expected, found) matches Ok(unified) ==> same_scope(env, unified),
{
}

/// Pushing parameters puts one slot for each of them on the environment and
/// leaves the slots below as they are.
pub proof fn lemma_push_parameters(
    env: Seq<BindingView>,
    parameters: Seq<DeclarationView>,
    done: nat,
)
    requires
        done <= parameters.len(),
    ensures
        push_parameters(env, parameters, done).outcome is Ok ==> {
            &&& push_parameters(env, parameters, done).env.len() == env.len() + parameters.len()
                - done
            &&& push_parameters(env, parameters, done).env.take(env.len() as int) == env
        },
    decreases parameters.len() - done,
{
    if done < parameters.len() {
        let parameter = parameters[done as int];
        let ty = match parameter.annotation {
            Some(name) => match annotation_type(name) {
                Ok(ty) => ty,
                Err(_) => TypeView::Number,
            },
            None => TypeView::Var(env.len()),
        };
        let next = env.push(BindingView { name: parameter.name, ty });
        lemma_push_parameters(next, parameters, done + 1);
        let pushed = push_parameters(env, parameters, done);
        if pushed.outcome is Ok {
            assert(pushed.env.take(env.len() as int) =~= next.take(next.len() as int).take(
                env.len() as int,
            ));
            assert(next.take(env.len() as int) =~= env);
        }
    } else {
        assert(env.take(env.len() as int) =~= env);
    }
}

/// What a variable stands for depends on the slots up to its own only.
pub proof fn lemma_resolve_in_prefix(env: Seq<BindingView>, length: nat, index: nat)
    requires
        index < length <= env.len(),
    ensures
        resolve_variable(env.take(length as int), index) == resolve_variable(env, index),
    decreases index,
{
    if let TypeView::Var(next) = env[index as int].ty {
        if next < index {
            lemma_resolve_in_prefix(env, length, next);
        }
    }
}

/// Closing a scope takes off exactly the slots from its base on. It succeeds
/// only if the variable of each of them is resolved, and then collects, in
/// the order of the slots, what each of these variables stands for.
pub proof fn lemma_close_scope(env: Seq<BindingView>, base: nat, collected: Seq<TypeView>)
    requires
        base <= env.len(),
    ensures
        close_scope(env, base, collected).outcome matches Ok(types) ==> {
            &&& close_scope(env, base, collected).env == env.take(base as int)
            &&& types.len() == collected.len() + env.len() - base
            &&& forall|k: int|
                0 <= k < env.len() - base ==> #[trigger] types[k] == resolve_variable(
                    env,
                    (base + k) as nat,
                ) && types[k] != TypeView::Var((base + k) as nat)
            &&& forall|k: int|
                0 <= k < collected.len() ==> types[env.len() - base + k] == #[trigger] collected[k]
        },
    decreases env.len(),
{
    if env.len() > base {
        let top = (env.len() - 1) as nat;
        let ty = resolve_variable(env, top);
        if ty != TypeView::Var(top) {
            let below = env.drop_last();
            let grown = seq![ty] + collected;
            lemma_close_scope(below, base, grown);
            assert(below.take(base as int) =~= env.take(base as int));
            if let Ok(types) = close_scope(env, base, collected).outcome {
                assert forall|k: int| 0 <= k < env.len() - base implies #[trigger] types[k]
                    == resolve_variable(env, (base + k) as nat) && types[k] != TypeView::Var(
                    (base + k) as nat,
                ) by {
                    if k < below.len() - base {
                        assert(below == env.take(below.len() as int));
                        lemma_resolve_in_prefix(env, below.len(), (base + k) as nat);
                    } else {
                        assert(types[below.len() - base + 0] == grown[0]);
                    }
                }
                assert forall|k: int| 0 <= k < collected.len() implies types[env.len() - base + k]
                    == #[trigger] collected[k] by {
                    assert(types[below.len() - base + (k + 1)] == grown[k + 1]);
                }
            }
        }
    } else {
        assert(env.take(base as int) =~= env);
    }
}

/// Whether no slot of `env` holds a type variable of a higher index than its
/// own: variables are bound downward only.
pub open spec fn links_downward(env: Seq<BindingView>) -> bool {
    forall|i: int|
        0 <= i < env.len() ==> ((#[trigger] env[i]).ty matches TypeView::Var(target) ==> target
            <= i)
}

/// Unification binds downward: the higher of two variables to the lower.
pub proof fn lemma_unify_links_downward(
    env: Seq<BindingView>,
    expected: TypeView,
    found: TypeView,
)
    requires
        links_downward(env),
    ensures
        unify(env, expected, found) matches Ok(unified) ==> links_downward(unified),
{
    if let TypeView::Var(index) = expected {
        lemma_resolve_variable(env, index);
    }
    if let TypeView::Var(index) = found {
        lemma_resolve_variable(env, index);
    }
}

/// Pushing parameters keeps variables bound downward: a fresh variable is
/// the one of its own slot.
pub proof fn lemma_push_parameters_links_downward(
    env: Seq<BindingView>,
    parameters: Seq<DeclarationView>,
    done: nat,
)
    requires
        links_downward(env),
    ensures
        links_downward(push_parameters(env, parameters, done).env),
    decreases parameters.len() - done,
{
    if done < parameters.len() {
        let parameter = parameters[done as int];
        match parameter.annotation {
            Some(name) => {
                if let Ok(ty) = annotation_type(name) {
                    lemma_push_parameters_links_downward(
                        env.push(BindingView { name: parameter.name, ty }),
                        parameters,
                        done + 1,
                    );
                }
            },
            None => {
                lemma_push_parameters_links_downward(
                    env.push(BindingView { name: parameter.name, ty: TypeView::Var(env.len()) }),
                    parameters,
                    done + 1,
                );
            },
        }
    }
}

/// Closing a scope keeps variables bound downward.
pub proof fn lemma_close_scope_links_downward(
    env: Seq<BindingView>,
    base: nat,
    collected: Seq<TypeView>,
)
    requires
        links_downward(env),
    ensures
        links_downward(close_scope(env, base, collected).env),
    decreases env.len(),
{
    if env.len() > base {
        let top = (env.len() - 1) as nat;
        let ty = resolve_variable(env, top);
        if ty != TypeView::Var(top) {
            lemma_close_scope_links_downward(env.drop_last(), base, seq![ty] + collected);
        }
    }
}

/// Inference keeps variables bound downward, whether it succeeds or fails.
/// So a variable never comes to stand for itself through other variables,
/// and resolving follows every binding that inference has made.
pub proof fn lemma_infer_links_downward(env: Seq<BindingView>, expr: ExprView)
    requires
        links_downward(env),
    ensures
        links_downward(infer(env, expr).env),
    decreases expr, 0nat,
{
    match expr {
        ExprView::Number(_) => {},
        ExprView::Identifier(_) => {},
        ExprView::Abstraction { args, body } => {
            let pushed = push_parameters(env, args, 0);
            lemma_push_parameters_links_downward(env, args, 0);
            if pushed.outcome is Ok {
                let inner = infer(pushed.env, *body);
                lemma_infer_links_downward(pushed.env, *body);
                if inner.outcome is Ok {
                    lemma_close_scope_links_downward(inner.env, env.len(), Seq::empty());
                }
            }
        },
        ExprView::Application { abs, args } => {
            let function = infer(env, *abs);
            lemma_infer_links_downward(env, *abs);
            if let Ok(function_type) = function.outcome {
                if let TypeView::Abs { arg_types, result } = resolve(function.env, function_type) {
                    if args.len() <= arg_types.len() {
                        lemma_match_arguments_links_downward(function.env, arg_types, args, 0);
                    }
                }
            }
        },
    }
}

/// Matching arguments keeps variables bound downward.
pub proof fn lemma_match_arguments_links_downward(
    env: Seq<BindingView>,
    parameters: Seq<TypeView>,
    arguments: Seq<ExprView>,
    done: nat,
)
    requires
        links_downward(env),
    ensures
        links_downward(match_arguments(env, parameters, arguments, done).env),
    decreases arguments, arguments.len() - done,
{
    if done < arguments.len() {
        let argument = infer(env, arguments[arguments.len() - 1 - done]);
        lemma_infer_links_downward(env, arguments[arguments.len() - 1 - done]);
        if let Ok(found) = argument.outcome {
            let parameter = parameters[parameters.len() - 1 - done];
            lemma_unify_links_downward(argument.env, parameter, found);
            if let Ok(unified) = unify(argument.env, parameter, found) {
                lemma_match_arguments_links_downward(unified, parameters, arguments, done + 1);
            }
        }
    }
}

/// No variable of a scope leaves it unresolved: the type of an abstraction
/// has, for each parameter in its order, what the variable of the parameter's
/// slot stands for when the body is inferred, and neither these types nor the
/// result type are a variable of one of these slots.
pub proof fn lemma_abstraction_type(
    env: Seq<BindingView>,
    parameters: Seq<DeclarationView>,
    body: ExprView,
)
    ensures
        infer(env, ExprView::Abstraction { args: parameters, body: Box::new(body) }).outcome
            matches Ok(ty) ==> {
            let inner = infer(push_parameters(env, parameters, 0).env, body);
            &&& ty matches TypeView::Abs { arg_types, result }
            &&& arg_types.len() == parameters.len()
            &&& forall|k: int|
                0 <= k < parameters.len() ==> #[trigger] arg_types[k] == resolve_variable(
                    inner.env,
                    (env.len() + k) as nat,
                )
            &&& forall|k: int|
                0 <= k < parameters.len() ==> !is_variable_from(
                    #[trigger] arg_types[k],
                    env.len(),
                    parameters.len(),
                )
            &&& inner.outcome matches Ok(body_type) && *result == resolve(inner.env, body_type)
            &&& !is_variable_from(*result, env.len(), parameters.len())
        },
{
    let expr = ExprView::Abstraction { args: parameters, body: Box::new(body) };
    let pushed = push_parameters(env, parameters, 0);
    lemma_push_parameters(env, parameters, 0);
    if pushed.outcome is Ok {
        let inner = infer(pushed.env, body);
        lemma_infer_keeps_scope(pushed.env, body);
        if let Ok(body_type) = inner.outcome {
            let result = resolve(inner.env, body_type);
            lemma_close_scope(inner.env, env.len(), Seq::empty());
            if let Ok(arg_types) = close_scope(inner.env, env.len(), Seq::empty()).outcome {
                assert forall|k: int| 0 <= k < parameters.len() implies !is_variable_from(
                    #[trigger] arg_types[k],
                    env.len(),
                    parameters.len(),
                ) by {
                    if let TypeView::Var(index) = arg_types[k] {
                        lemma_resolve_variable(inner.env, (env.len() + k) as nat);
                        if env.len() <= index < env.len() + parameters.len() {
                            assert(arg_types[index - env.len()] == resolve_variable(
                                inner.env,
                                index,
                            ));
                        }
                    }
                }
                if let TypeView::Var(index) = result {
                    if let TypeView::Var(start) = body_type {
                        lemma_resolve_variable(inner.env, start);
                    }
                    if env.len() <= index < env.len() + parameters.len() {
                        assert(arg_types[index - env.len()] == resolve_variable(inner.env, index));
                    }
                }
            }
        }
    }
}

/// Whether `ty` is a type variable of one of the `count` slots from `base`
/// on.
pub open spec fn is_variable_from(ty: TypeView, base: nat, count: nat) -> bool {
    ty matches TypeView::Var(index) && base <= index < base + count
}

/// The scope discipline of inference: an expression that has a type leaves
/// the environment with the slots that it found, under their names. Only what
/// type variables are bound to may have changed. The type of an abstraction
/// has one parameter type for each parameter.
pub proof fn lemma_infer_keeps_scope(env: Seq<BindingView>, expr: ExprView)
    ensures
        infer(env, expr).outcome is Ok ==> same_scope(env, infer(env, expr).env),
        infer(env, expr).outcome matches Ok(ty) ==> (expr matches ExprView::Abstraction {
            args,
            ..
        } ==> ty is Abs && ty->arg_types.len() == args.len()),
    decreases expr, 0nat,
{
    match expr {
        ExprView::Number(_) => {},
        ExprView::Identifier(_) => {},
        ExprView::Abstraction { args, body } => {
            let pushed = push_parameters(env, args, 0);
            lemma_push_parameters(env, args, 0);
            if pushed.outcome is Ok {
                let inner = infer(pushed.env, *body);
                lemma_infer_keeps_scope(pushed.env, *body);
                if inner.outcome is Ok {
                    lemma_close_scope(inner.env, env.len(), Seq::empty());
                    let closed = close_scope(inner.env, env.len(), Seq::empty());
                    if closed.outcome is Ok {
                        assert forall|i: int| 0 <= i < env.len() implies (
                        #[trigger] closed.env[i]).name == env[i].name by {
                            assert(closed.env[i] == inner.env[i]);
                            assert(pushed.env.take(env.len() as int)[i] == pushed.env[i]);
                        }
                    }
                }
            }
        },
        ExprView::Application { abs, args } => {
            let function = infer(env, *abs);
            lemma_infer_keeps_scope(env, *abs);
            if let Ok(function_type) = function.outcome {
                if let TypeView::Abs { arg_types, result } = resolve(function.env, function_type) {
                    if args.len() <= arg_types.len() {
                        lemma_match_arguments_keeps_scope(function.env, arg_types, args, 0);
                    }
                }
            }
        },
    }
}

/// Matching arguments that all fit leaves the environment with the slots
/// that it found, under their names.
pub proof fn lemma_match_arguments_keeps_scope(
    env: Seq<BindingView>,
    parameters: Seq<TypeView>,
    arguments: Seq<ExprView>,
    done: nat,
)
    ensures
        match_arguments(env, parameters, arguments, done).outcome is Ok ==> same_scope(
            env,
            match_arguments(env, parameters, arguments, done).env,
        ),
    decreases arguments, arguments.len() - done,
{
    if done < arguments.len() {
        let argument = infer(env, arguments[arguments.len() - 1 - done]);
        lemma_infer_keeps_scope(env, arguments[arguments.len() - 1 - done]);
        if let Ok(found) = argument.outcome {
            let parameter = parameters[parameters.len() - 1 - done];
            lemma_unify_keeps_scope(argument.env, parameter, found);
            if let Ok(unified) = unify(argument.env, parameter, found) {
                lemma_match_arguments_keeps_scope(unified, parameters, arguments, done + 1);
            }
        }
    }
}

} // verus!
