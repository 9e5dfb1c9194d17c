//! The parser: tokens to expressions, by recursive descent.
//!
//! ```text
//! program := expr*
//! expr    := whitespace* ( group | identifier | number | lambda )
//! group   := "(" expr* ")"
//! lambda  := "\" identifier whitespace* "-" ">" expr
//! ```
//!
//! Whitespace is skipped in front of an expression and in front of the arrow
//! of a lambda, and nowhere else. A group of one expression is that
//! expression; a group of more applies the first to the others.

use crate::ast::{is_number_literal, Declaration, DeclarationView, Expr, ExprView};
use crate::lexer::{char_type, classify, CharType, Token, TokenView};
use vstd::prelude::*;

verus! {

/// Why a sequence of tokens is no program. A position is the index of a token.
#[derive(Clone, Copy, Debug, PartialEq, Eq, Structural)]
pub enum ParseError {
    /// No expression starts at `position`, which may be the end of the tokens.
    NoRuleMatched { position: usize },
    /// The tokens end inside a group.
    UnexpectedEnd,
    /// The group that opens at `position` holds no expression.
    EmptyGroup { position: usize },
}

/// An expression together with the position of the first token behind it.
pub struct Parsed {
    pub expr: ExprView,
    pub next: int,
}

/// The first position from `pos` on that holds no whitespace token.
pub open spec fn skip_whitespace_from(tokens: Seq<TokenView>, pos: int) -> int
    decreases tokens.len() - pos,
{
    if 0 <= pos < tokens.len() && tokens[pos] is Whitespace {
        skip_whitespace_from(tokens, pos + 1)
    } else {
        pos
    }
}

/// What a group of the expressions `items`, one or more, stands for.
pub open spec fn group_expr(items: Seq<ExprView>) -> ExprView {
    if items.len() == 1 {
        items[0]
    } else {
        ExprView::Application { abs: Box::new(items[0]), args: items.skip(1) }
    }
}

/// An abstraction of the one parameter `name`, without a written type.
pub open spec fn lambda_expr(name: Seq<char>, body: ExprView) -> ExprView {
    ExprView::Abstraction {
        args: seq![DeclarationView { name, annotation: None }],
        body: Box::new(body),
    }
}

/// The expression that starts at `pos`, behind any whitespace there, and the
/// position behind it.
///
/// The token behind the whitespace decides: `(` opens a group, an identifier
/// and a number stand for themselves, `\` starts a lambda. Anything else, the
/// end of the tokens, a number token that is no run of digits, and a `\` that
/// no identifier and arrow follow, match no rule. What fails inside a group
/// or the body of a lambda is the failure of the whole.
pub open spec fn parse_expr_at(tokens: Seq<TokenView>, pos: int) -> Result<Parsed, ParseError>
    decreases tokens.len() - pos, 0nat,
    via parse_expr_at_decreases
{
    let start = skip_whitespace_from(tokens, pos);
    let no_rule = Err::<Parsed, ParseError>(ParseError::NoRuleMatched { position: start as usize });
    if !(0 <= start < tokens.len()) {
        no_rule
    } else if tokens[start] == TokenView::Symbol('(') {
        parse_group_at(tokens, start + 1, Seq::empty(), start)
    } else if is_lambda_head(tokens, start) {
        match parse_expr_at(tokens, lambda_arrow(tokens, start) + 2) {
            Ok(body) => Ok(
                Parsed {
                    expr: lambda_expr(tokens[start + 1]->Identifier_0, body.expr),
                    next: body.next,
                },
            ),
            Err(error) => Err(error),
        }
    } else {
        match tokens[start] {
            TokenView::Identifier(name) => Ok(
                Parsed { expr: ExprView::Identifier(name), next: start + 1 },
            ),
            TokenView::Number(digits) => {
                if is_number_literal(digits) {
                    Ok(Parsed { expr: ExprView::Number(digits), next: start + 1 })
                } else {
                    no_rule
                }
            },
            _ => no_rule,
        }
    }
}

/// The position of the arrow of a lambda whose `\` is at `start`: behind the
/// parameter and any whitespace that follows it.
pub open spec fn lambda_arrow(tokens: Seq<TokenView>, start: int) -> int {
    skip_whitespace_from(tokens, start + 2)
}

/// Whether the head of a lambda stands at `start`: `\`, an identifier right
/// behind it, and then, behind any whitespace, `-` and `>` side by side.
pub open spec fn is_lambda_head(tokens: Seq<TokenView>, start: int) -> bool {
    &&& 0 <= start
    &&& lambda_arrow(tokens, start) + 1 < tokens.len()
    &&& tokens[start] == TokenView::Symbol('\\')
    &&& tokens[start + 1] is Identifier
    &&& tokens[lambda_arrow(tokens, start)] == TokenView::Symbol('-')
    &&& tokens[lambda_arrow(tokens, start) + 1] == TokenView::Symbol('>')
}

/// The rest of the group that opened at `open`, from `pos` on, when the
/// expressions `items` of it are read already: the end of the tokens is an
/// error, `)` closes the group, and anything else must start an expression.
/// (An expression always ends behind the position where it starts, inside the
/// tokens: see [`lemma_parse_expr_progress`].)
pub open spec fn parse_group_at(
    tokens: Seq<TokenView>,
    pos: int,
    items: Seq<ExprView>,
    open: int,
) -> Result<Parsed, ParseError>
    decreases tokens.len() - pos, 1nat,
{
    if pos < 0 || pos >= tokens.len() {
        Err(ParseError::UnexpectedEnd)
    } else if tokens[pos] == TokenView::Symbol(')') {
        if items.len() == 0 {
            Err(ParseError::EmptyGroup { position: open as usize })
        } else {
            Ok(Parsed { expr: group_expr(items), next: pos + 1 })
        }
    } else {
        match parse_expr_at(tokens, pos) {
            Ok(item) => {
                if pos < item.next <= tokens.len() {
                    parse_group_at(tokens, item.next, items.push(item.expr), open)
                } else {
                    Err(ParseError::UnexpectedEnd)
                }
            },
            Err(error) => Err(error),
        }
    }
}

#[via_fn]
proof fn parse_expr_at_decreases(tokens: Seq<TokenView>, pos: int) {
    lemma_skip_whitespace(tokens, pos);
    lemma_skip_whitespace(tokens, skip_whitespace_from(tokens, pos) + 2);
}

/// The expressions from `pos` to the end of the tokens, behind the
/// expressions `items` that are read already.
pub open spec fn parse_program_from(tokens: Seq<TokenView>, pos: int, items: Seq<ExprView>)
    -> Result<Seq<ExprView>, ParseError>
    decreases tokens.len() - pos,
    via parse_program_from_decreases
{
    if pos < 0 || pos >= tokens.len() {
        Ok(items)
    } else {
        match parse_expr_at(tokens, pos) {
            Ok(item) => parse_program_from(tokens, item.next, items.push(item.expr)),
            Err(error) => Err(error),
        }
    }
}

#[via_fn]
proof fn parse_program_from_decreases(tokens: Seq<TokenView>, pos: int, items: Seq<ExprView>) {
    if 0 <= pos {
        lemma_parse_expr_progress(tokens, pos);
    }
}

/// The expressions that `tokens` spell, or why they spell none.
pub open spec fn parse_program(tokens: Seq<TokenView>) -> Result<Seq<ExprView>, ParseError> {
    parse_program_from(tokens, 0, Seq::empty())
}

/// A cursor over a slice of tokens.
struct TokenStream<'a> {
    pos: usize,
    tokens: &'a [Token],
}

impl<'a> TokenStream<'a> {
    /// The cursor lies inside the tokens or at their end.
    spec fn well_formed(&self) -> bool {
        self.pos <= self.tokens.len()
    }

    /// The values of all tokens of the stream.
    spec fn tokens(&self) -> Seq<TokenView> {
        self.tokens.deep_view()
    }

    /// The position of the cursor.
    spec fn position(&self) -> int {
        self.pos as int
    }

    /// A stream at the first of `tokens`.
    fn new(tokens: &'a [Token]) -> (stream: Self)
        ensures
            stream.well_formed(),
            stream.tokens() == tokens.deep_view(),
            stream.position() == 0,
    {
        TokenStream { pos: 0, tokens }
    }

    /// The token under the cursor, if there is one.
    fn pos(&self) -> (token: Option<&'a Token>)
        requires
            self.well_formed(),
        ensures
            self.position() < self.tokens().len() ==> token is Some && token->0@
                == self.tokens()[self.position()],
            self.position() >= self.tokens().len() ==> token is None,
    {
        if self.pos < self.tokens.len() {
            Some(&self.tokens[self.pos])
        } else {
            None
        }
    }

    /// Moves the cursor one token on; at the end of the tokens it stays.
    fn advance(&mut self)
        requires
            old(self).well_formed(),
        ensures
            final(self).well_formed(),
            final(self).tokens() == old(self).tokens(),
            final(self).position() == if old(self).position() < old(self).tokens().len() {
                old(self).position() + 1
            } else {
                old(self).position()
            },
    {
        if self.pos < self.tokens.len() {
            self.pos = self.pos + 1;
        }
    }
}

/// Whether the token under the cursor is the symbol `symbol`.
fn at_symbol(stream: &TokenStream, symbol: char) -> (found: bool)
    requires
        stream.well_formed(),
    ensures
        found == (stream.position() < stream.tokens().len() && stream.tokens()[stream.position()]
            == TokenView::Symbol(symbol)),
{
    match stream.pos() {
        Some(Token::Symbol(ch)) => *ch == symbol,
        _ => false,
    }
}

/// Whether `text` is one digit or more.
fn is_digits(text: &str) -> (digits: bool)
    ensures
        digits == is_number_literal(text@),
{
    let mut empty = true;
    for ch in iter: text.chars()
        invariant
            iter.seq() == text@,
            empty == (iter.index() == 0),
            forall|i: int| 0 <= i < iter.index() ==> classify(#[trigger] text@[i]) == CharType::Numeric,
    {
        if char_type(&ch) != CharType::Numeric {
            return false;
        }
        empty = false;
    }
    !empty
}

/// Moves the cursor over the whitespace tokens under it.
fn skip_whitespace(stream: &mut TokenStream)
    requires
        old(stream).well_formed(),
    ensures
        final(stream).well_formed(),
        final(stream).tokens() == old(stream).tokens(),
        final(stream).position() == skip_whitespace_from(old(stream).tokens(), old(stream).position()),
{
    loop
        invariant
            stream.well_formed(),
            stream.tokens() == old(stream).tokens(),
            skip_whitespace_from(stream.tokens(), stream.position()) == skip_whitespace_from(
                old(stream).tokens(),
                old(stream).position(),
            ),
        ensures
            stream.well_formed(),
            stream.tokens() == old(stream).tokens(),
            stream.position() == skip_whitespace_from(old(stream).tokens(), old(stream).position()),
        decreases stream.tokens().len() - stream.position(),
    {
        match stream.pos() {
            Some(Token::Whitespace(_)) => {
                stream.advance();
            },
            _ => {
                break;
            },
        }
    }
}

/// Reads an identifier, if one is under the cursor; else the cursor stays.
fn parse_identifier(stream: &mut TokenStream) -> (parsed: Option<Expr>)
    requires
        old(stream).well_formed(),
    ensures
        final(stream).well_formed(),
        final(stream).tokens() == old(stream).tokens(),
        match parsed {
            Some(expr) => {
                &&& old(stream).position() < old(stream).tokens().len()
                &&& old(stream).tokens()[old(stream).position()] matches TokenView::Identifier(name)
                &&& expr@ == ExprView::Identifier(name)
                &&& final(stream).position() == old(stream).position() + 1
            },
            None => {
                &&& final(stream).position() == old(stream).position()
                &&& old(stream).position() < old(stream).tokens().len() ==> !(
                old(stream).tokens()[old(stream).position()] is Identifier)
            },
        },
{
    match stream.pos() {
        Some(Token::Identifier(id)) => {
            stream.advance();
            Some(Expr::Identifier(id.clone()))
        },
        _ => None,
    }
}

/// Reads a number, if a run of digits is under the cursor; else the cursor
/// stays.
fn parse_number(stream: &mut TokenStream) -> (parsed: Option<Expr>)
    requires
        old(stream).well_formed(),
    ensures
        final(stream).well_formed(),
        final(stream).tokens() == old(stream).tokens(),
        match parsed {
            Some(expr) => {
                &&& old(stream).position() < old(stream).tokens().len()
                &&& old(stream).tokens()[old(stream).position()] matches TokenView::Number(digits)
                &&& is_number_literal(digits)
                &&& expr@ == ExprView::Number(digits)
                &&& final(stream).position() == old(stream).position() + 1
            },
            None => {
                &&& final(stream).position() == old(stream).position()
                &&& old(stream).position() < old(stream).tokens().len() ==> !(
                old(stream).tokens()[old(stream).position()] matches TokenView::Number(digits)
                    && is_number_literal(digits))
            },
        },
{
    match stream.pos() {
        Some(Token::Number(text)) => {
            if is_digits(text.as_str()) {
                stream.advance();
                Some(Expr::Number(text.clone()))
            } else {
                None
            }
        },
        _ => None,
    }
}

/// Reads a group, if `(` is under the cursor. Where there is no `(`, and
/// where the group fails, the cursor stays.
fn parse_sexp(stream: &mut TokenStream) -> (outcome: Result<Option<Expr>, ParseError>)
    requires
        old(stream).well_formed(),
    ensures
        final(stream).well_formed(),
        final(stream).tokens() == old(stream).tokens(),
        outcome matches Ok(None) <==> !(old(stream).position() < old(stream).tokens().len()
            && old(stream).tokens()[old(stream).position()] == TokenView::Symbol('(')),
        match outcome {
            Ok(Some(expr)) => parse_group_at(
                old(stream).tokens(),
                old(stream).position() + 1,
                Seq::empty(),
                old(stream).position(),
            ) == Ok::<Parsed, ParseError>(Parsed { expr: expr@, next: final(stream).position() }),
            Ok(None) => final(stream).position() == old(stream).position(),
            Err(error) => parse_group_at(
                old(stream).tokens(),
                old(stream).position() + 1,
                Seq::empty(),
                old(stream).position(),
            ) == Err::<Parsed, ParseError>(error) && final(stream).position() == old(
                stream,
            ).position(),
        },
    decreases old(stream).tokens().len() - old(stream).position(), 1nat,
{
    if !at_symbol(stream, '(') {
        return Ok(None);
    }
    let open = stream.pos;
    let ghost tokens = stream.tokens();
    let ghost whole = parse_group_at(tokens, open + 1, Seq::empty(), open as int);
    stream.advance();
    let mut buf: Vec<Expr> = Vec::new();
    assert(buf.deep_view() =~= Seq::<ExprView>::empty());
    loop
        invariant_except_break
            whole == parse_group_at(tokens, stream.position(), buf.deep_view(), open as int),
        invariant
            stream.well_formed(),
            stream.tokens() == tokens,
            tokens == old(stream).tokens(),
            open == old(stream).position(),
            open < tokens.len(),
            tokens[open as int] == TokenView::Symbol('('),
            open < stream.position(),
            whole == parse_group_at(tokens, open + 1, Seq::empty(), open as int),
        ensures
            stream.well_formed(),
            stream.tokens() == tokens,
            whole == if buf.len() == 0 {
                Err::<Parsed, ParseError>(ParseError::EmptyGroup { position: open })
            } else {
                Ok(Parsed { expr: group_expr(buf.deep_view()), next: stream.position() })
            },
        decreases tokens.len() - stream.position(),
    {
        if stream.pos().is_none() {
            stream.pos = open;
            return Err(ParseError::UnexpectedEnd);
        }
        if at_symbol(stream, ')') {
            stream.advance();
            break;
        }
        let ghost items = buf.deep_view();
        proof {
            lemma_parse_expr_progress(tokens, stream.position());
        }
        match parse_expr(stream) {
            Ok(expr) => {
                buf.push(expr);
                assert(buf.deep_view() =~= items.push(expr@));
            },
            Err(error) => {
                stream.pos = open;
                return Err(error);
            },
        }
    }
    let ghost items = buf.deep_view();
    if buf.len() == 0 {
        stream.pos = open;
        Err(ParseError::EmptyGroup { position: open })
    } else if buf.len() == 1 {
        let expr = buf.pop().unwrap();
        assert(expr@ == items[0]);
        Ok(Some(expr))
    } else {
        let abs = buf.remove(0);
        assert(abs@ == items[0]);
        let application = Expr::Application { abs: Box::new(abs), args: buf };
        assert(application@->Application_args =~= items.skip(1));
        Ok(Some(application))
    }
}

/// Reads a lambda, if the head of one is under the cursor. Where there is
/// none, and where the body fails, the cursor stays.
fn parse_lambda(stream: &mut TokenStream) -> (outcome: Result<Option<Expr>, ParseError>)
    requires
        old(stream).well_formed(),
    ensures
        final(stream).well_formed(),
        final(stream).tokens() == old(stream).tokens(),
        outcome matches Ok(None) <==> !is_lambda_head(old(stream).tokens(), old(stream).position()),
        match outcome {
            Ok(Some(expr)) => parse_expr_at(
                old(stream).tokens(),
                lambda_arrow(old(stream).tokens(), old(stream).position()) + 2,
            ) matches Ok(body) && expr@ == lambda_expr(
                old(stream).tokens()[old(stream).position() + 1]->Identifier_0,
                body.expr,
            ) && final(stream).position() == body.next,
            Ok(None) => final(stream).position() == old(stream).position(),
            Err(error) => parse_expr_at(
                old(stream).tokens(),
                lambda_arrow(old(stream).tokens(), old(stream).position()) + 2,
            ) == Err::<Parsed, ParseError>(error) && final(stream).position() == old(
                stream,
            ).position(),
        },
    decreases old(stream).tokens().len() - old(stream).position(), 1nat,
{
    let start = stream.pos;
    let ghost tokens = stream.tokens();
    proof {
        lemma_skip_whitespace(tokens, start + 2);
    }
    if !at_symbol(stream, '\\') {
        return Ok(None);
    }
    stream.advance();
    let param = match stream.pos() {
        Some(Token::Identifier(id)) => id.clone(),
        _ => {
            stream.pos = start;
            return Ok(None);
        },
    };
    stream.advance();
    skip_whitespace(stream);
    if !at_symbol(stream, '-') {
        stream.pos = start;
        return Ok(None);
    }
    stream.advance();
    if !at_symbol(stream, '>') {
        stream.pos = start;
        return Ok(None);
    }
    stream.advance();
    match parse_expr(stream) {
        Ok(body) => {
            let mut args: Vec<Declaration> = Vec::new();
            args.push(Declaration { name: param, annotation: None });
            let lambda = Expr::Abstraction { args, body: Box::new(body) };
            assert(lambda@->Abstraction_args =~= seq![
                DeclarationView { name: param@, annotation: None },
            ]);
            Ok(Some(lambda))
        },
        Err(error) => {
            stream.pos = start;
            Err(error)
        },
    }
}

/// Reads the expression at the cursor, behind any whitespace there: a group,
/// an identifier, a number or a lambda, tried in this order. Where there is
/// none the cursor stays behind the whitespace.
fn parse_expr(stream: &mut TokenStream) -> (outcome: Result<Expr, ParseError>)
    requires
        old(stream).well_formed(),
    ensures
        final(stream).well_formed(),
        final(stream).tokens() == old(stream).tokens(),
        match outcome {
            Ok(expr) => parse_expr_at(old(stream).tokens(), old(stream).position()) == Ok::<
                Parsed,
                ParseError,
            >(Parsed { expr: expr@, next: final(stream).position() }),
            Err(error) => parse_expr_at(old(stream).tokens(), old(stream).position()) == Err::<
                Parsed,
                ParseError,
            >(error) && final(stream).position() == skip_whitespace_from(
                old(stream).tokens(),
                old(stream).position(),
            ),
        },
    decreases old(stream).tokens().len() - old(stream).position(), 2nat,
{
    proof {
        lemma_skip_whitespace(old(stream).tokens(), old(stream).position());
    }
    skip_whitespace(stream);
    match parse_sexp(stream) {
        Ok(Some(sexp)) => {
            return Ok(sexp);
        },
        Ok(None) => {},
        Err(error) => {
            return Err(error);
        },
    }
    if let Some(identifier) = parse_identifier(stream) {
        return Ok(identifier);
    }
    if let Some(number) = parse_number(stream) {
        return Ok(number);
    }
    match parse_lambda(stream) {
        Ok(Some(lambda)) => {
            return Ok(lambda);
        },
        Ok(None) => {},
        Err(error) => {
            return Err(error);
        },
    }
    Err(ParseError::NoRuleMatched { position: stream.pos })
}

/// Reads expressions until the tokens end.
fn parse_exprs(stream: &mut TokenStream) -> (outcome: Result<Vec<Expr>, ParseError>)
    requires
        old(stream).well_formed(),
    ensures
        final(stream).well_formed(),
        final(stream).tokens() == old(stream).tokens(),
        match outcome {
            Ok(exprs) => parse_program_from(
                old(stream).tokens(),
                old(stream).position(),
                Seq::empty(),
            ) == Ok::<Seq<ExprView>, ParseError>(exprs.deep_view()),
            Err(error) => parse_program_from(
                old(stream).tokens(),
                old(stream).position(),
                Seq::empty(),
            ) == Err::<Seq<ExprView>, ParseError>(error),
        },
{
    let mut buf: Vec<Expr> = Vec::new();
    let ghost tokens = stream.tokens();
    let ghost whole = parse_program_from(tokens, stream.position(), Seq::empty());
    assert(buf.deep_view() =~= Seq::<ExprView>::empty());
    while stream.pos().is_some()
        invariant
            stream.well_formed(),
            stream.tokens() == tokens,
            tokens == old(stream).tokens(),
            whole == parse_program_from(tokens, old(stream).position(), Seq::empty()),
            whole == parse_program_from(tokens, stream.position(), buf.deep_view()),
        decreases tokens.len() - stream.position(),
    {
        let ghost items = buf.deep_view();
        proof {
            lemma_parse_expr_progress(tokens, stream.position());
        }
        match parse_expr(stream) {
            Ok(expr) => {
                buf.push(expr);
                assert(buf.deep_view() =~= items.push(expr@));
            },
            Err(error) => {
                return Err(error);
            },
        }
    }
    Ok(buf)
}

/// The expressions that `tokens` spell, in their order.
///
/// Parsing is all or nothing: the first expression that fails is the failure
/// of the whole, with its error.
pub fn parse_tokens(tokens: &[Token]) -> (outcome: Result<Vec<Expr>, ParseError>)
    ensures
        match outcome {
            Ok(exprs) => parse_program(tokens.deep_view()) == Ok::<Seq<ExprView>, ParseError>(
                exprs.deep_view(),
            ),
            Err(error) => parse_program(tokens.deep_view()) == Err::<Seq<ExprView>, ParseError>(
                error,
            ),
        },
        outcome matches Ok(exprs) ==> all_well_formed(exprs.deep_view()),
{
    let mut stream = TokenStream::new(tokens);
    proof {
        lemma_parse_program_well_formed(tokens.deep_view(), 0, Seq::empty());
    }
    parse_exprs(&mut stream)
}

/// Skipping whitespace moves forward, stays inside the tokens, and ends at a
/// token that is no whitespace or at the end.
pub proof fn lemma_skip_whitespace(tokens: Seq<TokenView>, pos: int)
    ensures
        pos <= skip_whitespace_from(tokens, pos),
        0 <= pos <= tokens.len() ==> skip_whitespace_from(tokens, pos) <= tokens.len(),
        0 <= skip_whitespace_from(tokens, pos) < tokens.len() ==> !(tokens[skip_whitespace_from(
            tokens,
            pos,
        )] is Whitespace),
        forall|i: int|
            pos <= i < skip_whitespace_from(tokens, pos) ==> (#[trigger] tokens[i]) is Whitespace,
    decreases tokens.len() - pos,
{
    if 0 <= pos < tokens.len() && tokens[pos] is Whitespace {
        lemma_skip_whitespace(tokens, pos + 1);
    }
}

/// An expression takes at least one token and ends inside the tokens.
pub proof fn lemma_parse_expr_progress(tokens: Seq<TokenView>, pos: int)
    requires
        0 <= pos,
    ensures
        parse_expr_at(tokens, pos) matches Ok(parsed) ==> pos < parsed.next <= tokens.len(),
    decreases tokens.len() - pos, 0nat,
{
    lemma_skip_whitespace(tokens, pos);
    let start = skip_whitespace_from(tokens, pos);
    if 0 <= start < tokens.len() {
        if tokens[start] == TokenView::Symbol('(') {
            lemma_parse_group_progress(tokens, start + 1, Seq::empty(), start);
        } else if is_lambda_head(tokens, start) {
            lemma_skip_whitespace(tokens, start + 2);
            lemma_parse_expr_progress(tokens, lambda_arrow(tokens, start) + 2);
        }
    }
}

/// Whether every expression of `exprs` is well formed.
pub open spec fn all_well_formed(exprs: Seq<ExprView>) -> bool {
    forall|i: int| 0 <= i < exprs.len() ==> (#[trigger] exprs[i]).well_formed()
}

/// What the parser makes is well formed: no application is without an
/// argument, since a group of one expression is that expression.
pub proof fn lemma_parse_expr_well_formed(tokens: Seq<TokenView>, pos: int)
    requires
        0 <= pos,
    ensures
        parse_expr_at(tokens, pos) matches Ok(parsed) ==> parsed.expr.well_formed(),
    decreases tokens.len() - pos, 0nat,
{
    lemma_skip_whitespace(tokens, pos);
    let start = skip_whitespace_from(tokens, pos);
    if 0 <= start < tokens.len() {
        if tokens[start] == TokenView::Symbol('(') {
            lemma_parse_group_well_formed(tokens, start + 1, Seq::empty(), start);
        } else if is_lambda_head(tokens, start) {
            lemma_skip_whitespace(tokens, start + 2);
            lemma_parse_expr_well_formed(tokens, lambda_arrow(tokens, start) + 2);
        }
    }
}

/// A group of well-formed expressions is well formed.
pub proof fn lemma_parse_group_well_formed(
    tokens: Seq<TokenView>,
    pos: int,
    items: Seq<ExprView>,
    open: int,
)
    requires
        0 <= pos,
        all_well_formed(items),
    ensures
        parse_group_at(tokens, pos, items, open) matches Ok(parsed) ==> parsed.expr.well_formed(),
    decreases tokens.len() - pos, 1nat,
{
    if pos < tokens.len() {
        if tokens[pos] == TokenView::Symbol(')') {
            if items.len() > 1 {
                assert forall|i: int| 0 <= i < items.skip(1).len() implies (
                #[trigger] items.skip(1)[i]).well_formed() by {
                    assert(items.skip(1)[i] == items[i + 1]);
                }
            }
        } else {
            lemma_parse_expr_well_formed(tokens, pos);
            if let Ok(item) = parse_expr_at(tokens, pos) {
                if pos < item.next <= tokens.len() {
                    lemma_parse_group_well_formed(tokens, item.next, items.push(item.expr), open);
                }
            }
        }
    }
}

/// Every expression of a program is well formed.
pub proof fn lemma_parse_program_well_formed(
    tokens: Seq<TokenView>,
    pos: int,
    items: Seq<ExprView>,
)
    requires
        all_well_formed(items),
    ensures
        parse_program_from(tokens, pos, items) matches Ok(exprs) ==> all_well_formed(exprs),
    decreases tokens.len() - pos,
{
    if 0 <= pos < tokens.len() {
        lemma_parse_expr_progress(tokens, pos);
        lemma_parse_expr_well_formed(tokens, pos);
        if let Ok(item) = parse_expr_at(tokens, pos) {
            lemma_parse_program_well_formed(tokens, item.next, items.push(item.expr));
        }
    }
}

/// A group ends behind the position where its rest starts, inside the tokens.
pub proof fn lemma_parse_group_progress(
    tokens: Seq<TokenView>,
    pos: int,
    items: Seq<ExprView>,
    open: int,
)
    requires
        0 <= pos,
    ensures
        parse_group_at(tokens, pos, items, open) matches Ok(parsed) ==> pos < parsed.next
            <= tokens.len(),
    decreases tokens.len() - pos, 1nat,
{
    if pos < tokens.len() && tokens[pos] != TokenView::Symbol(')') {
        lemma_parse_expr_progress(tokens, pos);
        if let Ok(item) = parse_expr_at(tokens, pos) {
            lemma_parse_group_progress(tokens, item.next, items.push(item.expr), open);
        }
    }
}

/// The tokens that spell the well-formed expression `expr`, without
/// whitespace: an application as a group of its function and its arguments,
/// an abstraction as a lambda of its parameter.
pub open spec fn unparse(expr: ExprView) -> Seq<TokenView>
    decreases expr, 0nat,
{
    match expr {
        ExprView::Identifier(name) => seq![TokenView::Identifier(name)],
        ExprView::Number(digits) => seq![TokenView::Number(digits)],
        ExprView::Application { abs, args } => seq![TokenView::Symbol('(')] + unparse(*abs)
            + unparse_all(args, 0) + seq![TokenView::Symbol(')')],
        ExprView::Abstraction { args, body } => seq![
            TokenView::Symbol('\\'),
            TokenView::Identifier(args[0].name),
            TokenView::Symbol('-'),
            TokenView::Symbol('>'),
        ] + unparse(*body),
    }
}

/// The tokens that spell the expressions of `exprs` from the index `from` on,
/// one after the other.
pub open spec fn unparse_all(exprs: Seq<ExprView>, from: nat) -> Seq<TokenView>
    decreases exprs, exprs.len() - from,
{
    if from >= exprs.len() {
        Seq::empty()
    } else {
        unparse(exprs[from as int]) + unparse_all(exprs, from + 1)
    }
}

/// Whether the tokens `part` stand in `tokens` from `pos` on.
pub open spec fn spells_at(tokens: Seq<TokenView>, pos: int, part: Seq<TokenView>) -> bool {
    &&& 0 <= pos
    &&& pos + part.len() <= tokens.len()
    &&& tokens.subrange(pos, pos + part.len()) == part
}

/// Where two parts stand one behind the other, each of them stands.
proof fn lemma_spells_split(
    tokens: Seq<TokenView>,
    pos: int,
    first: Seq<TokenView>,
    second: Seq<TokenView>,
)
    requires
        spells_at(tokens, pos, first + second),
    ensures
        spells_at(tokens, pos, first),
        spells_at(tokens, pos + first.len(), second),
{
    let whole = tokens.subrange(pos, pos + (first + second).len());
    assert forall|i: int| 0 <= i < first.len() implies tokens.subrange(pos, pos + first.len())[i]
        == first[i] by {
        assert(whole[i] == first[i]);
    }
    assert(tokens.subrange(pos, pos + first.len()) =~= first);
    assert forall|i: int| 0 <= i < second.len() implies tokens.subrange(
        pos + first.len(),
        pos + first.len() + second.len(),
    )[i] == second[i] by {
        assert(whole[first.len() + i] == second[i]);
    }
    assert(tokens.subrange(pos + first.len(), pos + first.len() + second.len()) =~= second);
}

/// What spells an expression starts with a token that starts an expression.
proof fn lemma_unparse_first(expr: ExprView)
    ensures
        unparse(expr).len() > 0,
        !(unparse(expr)[0] is Whitespace),
        unparse(expr)[0] != TokenView::Symbol(')'),
{
}

/// Parsing undoes spelling: where the tokens that spell a well-formed
/// expression stand, the parser reads that expression, and ends behind them.
pub proof fn lemma_parse_unparse(tokens: Seq<TokenView>, pos: int, expr: ExprView)
    requires
        expr.well_formed(),
        spells_at(tokens, pos, unparse(expr)),
    ensures
        parse_expr_at(tokens, pos) == Ok::<Parsed, ParseError>(
            Parsed { expr, next: pos + unparse(expr).len() },
        ),
    decreases expr, 0nat,
{
    let spelled = tokens.subrange(pos, pos + unparse(expr).len());
    lemma_unparse_first(expr);
    assert(tokens[pos] == spelled[0]);
    assert(skip_whitespace_from(tokens, pos) == pos);
    match expr {
        ExprView::Identifier(name) => {
            assert(tokens[pos] == TokenView::Identifier(name));
            assert(!is_lambda_head(tokens, pos));
        },
        ExprView::Number(digits) => {
            assert(tokens[pos] == TokenView::Number(digits));
            assert(!is_lambda_head(tokens, pos));
        },
        ExprView::Application { abs, args } => {
            let open = seq![TokenView::Symbol('(')];
            let close = seq![TokenView::Symbol(')')];
            let function = unparse(*abs);
            let arguments = unparse_all(args, 0);
            assert(unparse(expr) == open + (function + (arguments + close)));
            lemma_spells_split(tokens, pos, open, function + (arguments + close));
            lemma_spells_split(tokens, pos + 1, function, arguments + close);
            lemma_unparse_first(*abs);
            assert(tokens[pos + 1] == tokens.subrange(pos + 1, pos + 1 + function.len())[0]);
            lemma_parse_unparse(tokens, pos + 1, *abs);
            let items = Seq::<ExprView>::empty().push(*abs);
            lemma_parse_group_unparse(tokens, pos + 1 + function.len(), items, pos, args, 0);
            assert(items + args.skip(0) == seq![*abs] + args);
            assert((seq![*abs] + args).skip(1) == args);
            assert(parse_expr_at(tokens, pos) == parse_group_at(
                tokens,
                pos + 1,
                Seq::empty(),
                pos,
            ));
            assert(parse_group_at(tokens, pos + 1, Seq::empty(), pos) == parse_group_at(
                tokens,
                pos + 1 + function.len(),
                items,
                pos,
            ));
            assert(group_expr(seq![*abs] + args) == expr);
        },
        ExprView::Abstraction { args, body } => {
            let head = seq![
                TokenView::Symbol('\\'),
                TokenView::Identifier(args[0].name),
                TokenView::Symbol('-'),
                TokenView::Symbol('>'),
            ];
            lemma_spells_split(tokens, pos, head, unparse(*body));
            lemma_unparse_first(*body);
            assert(tokens[pos + 1] == spelled[1]);
            assert(tokens[pos + 2] == spelled[2]);
            assert(tokens[pos + 3] == spelled[3]);
            assert(lambda_arrow(tokens, pos) == pos + 2);
            assert(is_lambda_head(tokens, pos));
            lemma_parse_unparse(tokens, pos + 4, *body);
            assert(args == seq![DeclarationView { name: args[0].name, annotation: None }]);
            assert(lambda_expr(args[0].name, *body) == expr);
        },
    }
}

/// Where the tokens that spell well-formed expressions stand in a group, in
/// front of its `)`, the parser reads these expressions into the group.
pub proof fn lemma_parse_group_unparse(
    tokens: Seq<TokenView>,
    pos: int,
    items: Seq<ExprView>,
    open: int,
    exprs: Seq<ExprView>,
    from: nat,
)
    requires
        from <= exprs.len(),
        all_well_formed(exprs),
        items.len() + exprs.len() - from > 0,
        spells_at(tokens, pos, unparse_all(exprs, from) + seq![TokenView::Symbol(')')]),
    ensures
        parse_group_at(tokens, pos, items, open) == Ok::<Parsed, ParseError>(
            Parsed {
                expr: group_expr(items + exprs.skip(from as int)),
                next: pos + unparse_all(exprs, from).len() + 1,
            },
        ),
    decreases exprs, exprs.len() - from,
{
    let close = seq![TokenView::Symbol(')')];
    let spelled = tokens.subrange(pos, pos + (unparse_all(exprs, from) + close).len());
    assert(tokens[pos] == spelled[0]);
    if from < exprs.len() {
        let expr = exprs[from as int];
        let rest = unparse_all(exprs, from + 1);
        lemma_unparse_first(expr);
        assert(unparse_all(exprs, from) + close == unparse(expr) + (rest + close));
        lemma_spells_split(tokens, pos, unparse(expr), rest + close);
        lemma_parse_unparse(tokens, pos, expr);
        lemma_parse_group_unparse(
            tokens,
            pos + unparse(expr).len(),
            items.push(expr),
            open,
            exprs,
            from + 1,
        );
        assert(items.push(expr) + exprs.skip(from as int + 1) == items + exprs.skip(from as int));
    } else {
        assert(items + exprs.skip(from as int) == items);
    }
}

} // verus!
