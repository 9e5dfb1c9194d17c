//! The expression tree that the parser builds and the type engine reads.

use crate::lexer::{all_of_class, CharType};
use vstd::prelude::*;

verus! {

/// A parameter of an abstraction: its name, and the name of its type where
/// the program gives one.
#[derive(Debug, PartialEq, Eq)]
pub struct Declaration {
    pub name: String,
    pub annotation: Option<String>,
}

/// An expression. A number keeps the digits of its literal.
#[derive(Debug, PartialEq, Eq)]
#[allow(inconsistent_fields)]
pub enum Expr {
    Identifier(String),
    Number(String),
    Application { abs: Box<Expr>, args: Vec<Expr> },
    Abstraction { args: Vec<Declaration>, body: Box<Expr> },
}

/// The mathematical value of a [`Declaration`].
pub struct DeclarationView {
    pub name: Seq<char>,
    pub annotation: Option<Seq<char>>,
}

/// The mathematical value of an [`Expr`].
#[allow(inconsistent_fields)]
pub enum ExprView {
    Identifier(Seq<char>),
    Number(Seq<char>),
    Application { abs: Box<ExprView>, args: Seq<ExprView> },
    Abstraction { args: Seq<DeclarationView>, body: Box<ExprView> },
}

impl View for Declaration {
    type V = DeclarationView;

    open spec fn view(&self) -> DeclarationView {
        DeclarationView {
            name: self.name@,
            annotation: match self.annotation {
                Some(annotation) => Some(annotation@),
                None => None,
            },
        }
    }
}

impl DeepView for Declaration {
    type V = DeclarationView;

    open spec fn deep_view(&self) -> DeclarationView {
        self@
    }
}

/// The value of `expr`, with the values of its parts in place of the parts.
pub open spec fn expr_view(expr: Expr) -> ExprView
    decreases expr,
{
    match expr {
        Expr::Identifier(name) => ExprView::Identifier(name@),
        Expr::Number(digits) => ExprView::Number(digits@),
        Expr::Application { abs, args } => ExprView::Application {
            abs: Box::new(expr_view(*abs)),
            args: Seq::new(
                args@.len(),
                |i: int|
                    if 0 <= i < args@.len() {
                        expr_view(args@[i])
                    } else {
                        ExprView::Number(Seq::empty())
                    },
            ),
        },
        Expr::Abstraction { args, body } => ExprView::Abstraction {
            args: args.deep_view(),
            body: Box::new(expr_view(*body)),
        },
    }
}

impl View for Expr {
    type V = ExprView;

    open spec fn view(&self) -> ExprView {
        expr_view(*self)
    }
}

impl DeepView for Expr {
    type V = ExprView;

    open spec fn deep_view(&self) -> ExprView {
        expr_view(*self)
    }
}

/// Whether `digits` can be the text of a number: one digit or more.
pub open spec fn is_number_literal(digits: Seq<char>) -> bool {
    digits.len() > 0 && all_of_class(digits, CharType::Numeric)
}

impl ExprView {
    /// An expression as the parser makes it: every application has at least
    /// one argument, every number is a run of digits, and every abstraction
    /// has one parameter, without a type.
    pub open spec fn well_formed(self) -> bool
        decreases self,
    {
        match self {
            ExprView::Identifier(_) => true,
            ExprView::Number(digits) => is_number_literal(digits),
            ExprView::Application { abs, args } => {
                &&& abs.well_formed()
                &&& args.len() > 0
                &&& forall|i: int| 0 <= i < args.len() ==> (#[trigger] args[i]).well_formed()
            },
            ExprView::Abstraction { args, body } => {
                &&& args.len() == 1
                &&& args[0].annotation is None
                &&& body.well_formed()
            },
        }
    }
}

impl Clone for Declaration {
    fn clone(&self) -> (copy: Self)
        ensures
            copy@ == self@,
    {
        Declaration {
            name: self.name.clone(),
            annotation: match &self.annotation {
                Some(annotation) => Some(annotation.clone()),
                None => None,
            },
        }
    }
}

impl Clone for Expr {
    #[verifier::loop_isolation(false)]
    fn clone(&self) -> (copy: Self)
        ensures
            copy@ == self@,
        decreases self,
    {
        match self {
            Expr::Identifier(name) => Expr::Identifier(name.clone()),
            Expr::Number(digits) => Expr::Number(digits.clone()),
            Expr::Application { abs, args } => {
                let mut copies: Vec<Expr> = Vec::new();
                let mut i: usize = 0;
                while i < args.len()
                    invariant
                        i <= args.len(),
                        copies.len() == i,
                        forall|j: int| 0 <= j < i ==> copies@[j]@ == args@[j]@,
                    decreases args.len() - i,
                {
                    copies.push(args[i].clone());
                    i += 1;
                }
                let copy = Expr::Application { abs: Box::new((**abs).clone()), args: copies };
                assert(copy@->Application_args =~= self@->Application_args);
                copy
            },
            Expr::Abstraction { args, body } => {
                let mut copies: Vec<Declaration> = Vec::new();
                let mut i: usize = 0;
                while i < args.len()
                    invariant
                        i <= args.len(),
                        copies.len() == i,
                        forall|j: int| 0 <= j < i ==> copies@[j]@ == args@[j]@,
                    decreases args.len() - i,
                {
                    copies.push(args[i].clone());
                    i += 1;
                }
                let copy = Expr::Abstraction { args: copies, body: Box::new((**body).clone()) };
                assert(copy@->Abstraction_args =~= self@->Abstraction_args);
                copy
            },
        }
    }
}

} // verus!
