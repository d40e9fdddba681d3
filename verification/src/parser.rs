//! A recursive-descent parser with precedence climbing for expressions.
//!
//! Two invariants hold everything together:
//!
//! - **The cursor never runs off the end.** A token stream always ends in
//!   [`TokenKind::Eof`] and [`Parser::advance`] refuses to step past it, so
//!   there is no bounds check anywhere below.
//! - **Recovery always consumes.** A path that reports an error without moving
//!   the cursor turns any surrounding loop into an infinite one. Every error in
//!   [`Parser::primary`] is paired with an `advance`.
//!
//! What comes out is stated in [`crate::grammar`].
//!
//! # Precedence
//!
//! Binary operators are handled by precedence climbing rather than one function
//! per level. Adding an operator is then a line in [`binding_power`] instead of
//! a new function.
//!
//! Comparison operators are left-associative, so that `a < b < c` is
//! `(a < b) < c`.
use crate::ast;
use crate::ast::{BinOp, Expr, ExprKind, Tree, UnOp};
use crate::grammar;
use crate::grammar::{Arguments, Fault, Progress};
use crate::span::Span;
use crate::symbol::{kw, Symbol};
use crate::syntax;
use crate::token;
use crate::token::{Token, TokenKind};
use vstd::prelude::*;
use vstd::string::*;

verus! {

/// A syntax error, ready to be turned into a diagnostic.
#[derive(PartialEq, Eq, Debug)]
pub struct ParseError {
    pub span: Span,
    pub message: String,
}

impl ParseError {
    /// The fault that the error reports.
    pub open spec fn fault(self) -> Fault {
        Fault { span: self.span, message: self.message@ }
    }
}

impl Clone for ParseError {
    fn clone(&self) -> (copy: ParseError)
        ensures
            copy.fault() == self.fault(),
            copy.span == self.span,
            copy.message@ == self.message@,
    {
        ParseError { span: self.span, message: self.message.clone() }
    }
}

/// The faults that the errors report.
pub open spec fn faults(errors: Seq<ParseError>) -> Seq<Fault> {
    Seq::new(errors.len(), |i: int| errors[i].fault())
}

/// The binding power of `kind` as an infix operator, if it is one.
///
/// Higher binds tighter. The table is that of [`grammar::infix`]; what it amounts
/// to is stated in [`grammar::laws::lemma_precedence_table`].
pub fn binding_power(kind: TokenKind) -> (power: Option<(BinOp, u8)>)
    ensures
        power is Some <==> grammar::infix(kind) is Some,
        power matches Some((op, power)) ==> {
            &&& grammar::infix(kind) == Some((op, power as nat))
            &&& 1 <= power <= 4
            &&& power == grammar::laws::power(kind)
            &&& op.spelling() == token::laws::spelling(kind, Seq::empty())
            &&& kind == syntax::sign(op)
            &&& power == syntax::strength(op)
        },
        power is Some <==> syntax::joins(kind),
{
    proof {
        syntax::lemma_tables(kind);
    }
    let pair: (BinOp, u8) = match kind {
        TokenKind::AndAnd => (BinOp::And, 1),
        TokenKind::EqEq => (BinOp::Eq, 2),
        TokenKind::Ne => (BinOp::Ne, 2),
        TokenKind::Lt => (BinOp::Lt, 2),
        TokenKind::Le => (BinOp::Le, 2),
        TokenKind::Gt => (BinOp::Gt, 2),
        TokenKind::Ge => (BinOp::Ge, 2),
        TokenKind::Plus => (BinOp::Add, 3),
        TokenKind::Minus => (BinOp::Sub, 3),
        TokenKind::Star => (BinOp::Mul, 4),
        TokenKind::Slash => (BinOp::Div, 4),
        TokenKind::Percent => (BinOp::Rem, 4),
        _ => return None,
    };
    Some(pair)
}

/// Parses `tokens` as a single expression, reporting anything left over.
pub fn parse_expr(tokens: &[Token]) -> (result: (Expr, Vec<ParseError>))
    requires
        token::ends_in_eof(tokens@),
    ensures
        result.0.tree() == grammar::parsing(tokens@).tree,
        faults(result.1@) == grammar::parsing(tokens@).faults,
        result.1@.len() == grammar::parsing(tokens@).faults.len(),
        forall|i: int|
            0 <= i < result.1@.len() ==> {
                let fault = grammar::parsing(tokens@).faults[i];
                &&& (#[trigger] result.1@[i]).span == fault.span
                &&& result.1@[i].message@ == fault.message
            },
{
    let mut parser = Parser::new(tokens);
    let expr = parser.expr();
    if parser.peek() != TokenKind::Eof {
        let span = parser.peek_span();
        parser.error(span, "unexpected token after expression".to_string());
    }
    proof {
        assert(parser@.faults =~= grammar::parsing(tokens@).faults);
        assert forall|i: int| 0 <= i < parser.errors@.len() implies faults(parser.errors@)[i] == (
        #[trigger] parser.errors@[i]).fault() by {}
    }
    (expr, parser.errors)
}

/// A cursor over a token stream, accumulating errors as it goes.
pub struct Parser<'a> {
    tokens: &'a [Token],
    pos: usize,
    errors: Vec<ParseError>,
}

impl<'a> View for Parser<'a> {
    type V = Progress;

    /// How far parsing has come.
    closed spec fn view(&self) -> Progress {
        Progress { tokens: self.tokens@, pos: self.pos as int, faults: faults(self.errors@) }
    }
}

impl<'a> Parser<'a> {
    /// The stream ends in [`TokenKind::Eof`], and the cursor is on a token.
    pub open spec fn wf(&self) -> bool {
        token::ends_in_eof(self@.tokens) && 0 <= self@.pos < self@.tokens.len()
    }

    /// A cursor on the first of `tokens`.
    ///
    /// Every method below relies on the final [`TokenKind::Eof`] instead of a
    /// bounds check.
    pub fn new(tokens: &'a [Token]) -> (parser: Parser<'a>)
        requires
            token::ends_in_eof(tokens@),
        ensures
            parser.wf(),
            parser@ == (Progress { tokens: tokens@, pos: 0, faults: Seq::empty() }),
    {
        let parser = Parser { tokens, pos: 0, errors: Vec::new() };
        assert(parser@.faults =~= Seq::<Fault>::empty());
        parser
    }

    fn current(&self) -> (token: Token)
        requires
            self.wf(),
        ensures
            token == self@.tokens[self@.pos],
    {
        self.tokens[self.pos]
    }

    fn peek(&self) -> (kind: TokenKind)
        requires
            self.wf(),
        ensures
            kind == self@.tokens[self@.pos].kind,
    {
        self.current().kind
    }

    fn peek_span(&self) -> (span: Span)
        requires
            self.wf(),
        ensures
            span == self@.tokens[self@.pos].span,
    {
        self.current().span
    }

    /// Consumes and returns the current token, stopping at [`TokenKind::Eof`].
    ///
    /// Refusing to advance past `Eof` is what keeps [`Parser::current`] in
    /// bounds without a check.
    fn advance(&mut self) -> (token: Token)
        requires
            old(self).wf(),
        ensures
            final(self).wf(),
            token == old(self)@.tokens[old(self)@.pos],
            final(self)@ == (Progress {
                pos: grammar::after(old(self)@.tokens, old(self)@.pos),
                ..old(self)@
            }),
    {
        let token = self.current();
        if token.kind != TokenKind::Eof {
            assert(self.pos < self.tokens.len());
            self.pos += 1;
        }
        token
    }

    fn eat(&mut self, kind: TokenKind) -> (eaten: bool)
        requires
            old(self).wf(),
        ensures
            final(self).wf(),
            eaten == grammar::at(old(self)@.tokens, old(self)@.pos, kind),
            final(self)@ == (Progress {
                pos: grammar::past(old(self)@.tokens, old(self)@.pos, kind),
                ..old(self)@
            }),
    {
        if self.peek() == kind {
            self.advance();
            true
        } else {
            false
        }
    }

    /// Consumes `kind` and returns its span, or reports `what` as missing and
    /// returns the span of whatever was there instead.
    ///
    /// Deliberately does not consume on failure: the token that was found is
    /// usually meaningful to the caller further up.
    fn expect(&mut self, kind: TokenKind, what: &str) -> (span: Span)
        requires
            old(self).wf(),
        ensures
            final(self).wf(),
            span == old(self)@.tokens[old(self)@.pos].span,
            final(self)@ == (Progress {
                pos: grammar::past(old(self)@.tokens, old(self)@.pos, kind),
                faults: old(self)@.faults + grammar::lack(
                    old(self)@.tokens,
                    old(self)@.pos,
                    kind,
                    what@,
                ),
                ..old(self)@
            }),
    {
        let ghost before = self@;
        let span = self.peek_span();
        if self.peek() == kind {
            self.advance();
        } else {
            let mut message = "expected ".to_string();
            message.append(what);
            self.error(span, message);
        }
        proof {
            let lack = grammar::lack(before.tokens, before.pos, kind, what@);
            assert(self@.faults =~= before.faults + lack);
        }
        span
    }

    fn eat_keyword(&mut self, keyword: Symbol) -> (eaten: bool)
        requires
            old(self).wf(),
        ensures
            final(self).wf(),
            eaten == grammar::at(
                old(self)@.tokens,
                old(self)@.pos,
                TokenKind::Ident(keyword),
            ),
            final(self)@ == (Progress {
                pos: grammar::past(
                    old(self)@.tokens,
                    old(self)@.pos,
                    TokenKind::Ident(keyword),
                ),
                ..old(self)@
            }),
    {
        self.eat(TokenKind::Ident(keyword))
    }

    fn error(&mut self, span: Span, message: String)
        requires
            old(self).wf(),
        ensures
            final(self).wf(),
            final(self)@ == (Progress {
                faults: old(self)@.faults.push(Fault { span, message: message@ }),
                ..old(self)@
            }),
    {
        let ghost before = self@.faults;
        self.errors.push(ParseError { span, message });
        assert(self@.faults =~= before.push(Fault { span, message: message@ }));
    }

    /// Parses one expression and stops at whatever cannot continue it.
    pub fn expr(&mut self) -> (expr: Expr)
        requires
            old(self).wf(),
        ensures
            final(self).wf(),
            expr.tree() == grammar::binary(old(self)@.tokens, old(self)@.pos, 0).tree,
            final(self)@ == old(self)@.then_read(
                grammar::binary(old(self)@.tokens, old(self)@.pos, 0),
            ),
        decreases old(self)@.tokens.len() - old(self)@.pos, 4nat,
    {
        self.binary(0)
    }

    /// Precedence climbing. `min_power` is the lowest binding power this call
    /// will accept as an infix operator.
    fn binary(&mut self, min_power: u8) -> (expr: Expr)
        requires
            old(self).wf(),
        ensures
            final(self).wf(),
            expr.tree() == grammar::binary(
                old(self)@.tokens,
                old(self)@.pos,
                min_power as nat,
            ).tree,
            final(self)@ == old(self)@.then_read(
                grammar::binary(old(self)@.tokens, old(self)@.pos, min_power as nat),
            ),
        decreases old(self)@.tokens.len() - old(self)@.pos, 3nat,
    {
        let ghost start = self@;
        let ghost goal = grammar::binary(start.tokens, start.pos, min_power as nat);
        let mut lhs = self.unary();
        let ghost mut read = grammar::unary(start.tokens, start.pos);
        proof {
            grammar::lemma_unary_moves(start.tokens, start.pos);
        }

        loop
            invariant
                self.wf(),
                start == old(self)@,
                start.tokens == self@.tokens,
                0 <= start.pos <= self@.pos,
                self@ == start.then_read(read),
                lhs.tree() == read.tree,
                goal == grammar::climb(start.tokens, read, min_power as nat),
            ensures
                goal == read,
            decreases start.tokens.len() - self@.pos,
        {
            let (op, power): (BinOp, u8) = match binding_power(self.peek()) {
                Some(pair) => pair,
                None => {
                    break;
                },
            };
            if power < min_power {
                break;
            }
            self.advance();
            proof {
                grammar::lemma_binary_moves(start.tokens, read.pos + 1, (power + 1) as nat);
            }
            // `power + 1` makes the operator left-associative: the recursive
            // call refuses an operator of equal power, so it comes back and the
            // loop folds it into the left side instead.
            let rhs = self.binary(power + 1);
            let span = lhs.span.to(rhs.span);
            lhs = Expr { kind: ExprKind::Binary(op, Box::new(lhs), Box::new(rhs)), span };
            proof {
                let next = grammar::binary(start.tokens, read.pos + 1, (power + 1) as nat);
                assert(start.faults + read.faults + next.faults =~= start.faults + (read.faults
                    + next.faults));
                read = grammar::with_operand(start.tokens, read, op, next);
            }
        }

        lhs
    }

    fn unary(&mut self) -> (expr: Expr)
        requires
            old(self).wf(),
        ensures
            final(self).wf(),
            expr.tree() == grammar::unary(old(self)@.tokens, old(self)@.pos).tree,
            final(self)@ == old(self)@.then_read(
                grammar::unary(old(self)@.tokens, old(self)@.pos),
            ),
        decreases old(self)@.tokens.len() - old(self)@.pos, 2nat,
    {
        let start = self.peek_span();

        // `&` is handled separately because the mutability that may follow is
        // part of the operator.
        if self.peek() == TokenKind::And {
            self.advance();
            let mutable = self.eat_keyword(kw::MUT());
            let operand = self.unary();
            let span = start.to(operand.span);
            return Expr { kind: ExprKind::Borrow { mutable, operand: Box::new(operand) }, span };
        }
        let op = match self.peek() {
            TokenKind::Minus => UnOp::Neg,
            TokenKind::Bang => UnOp::Not,
            TokenKind::Star => UnOp::Deref,
            _ => return self.postfix(),
        };
        self.advance();
        let operand = self.unary();
        let span = start.to(operand.span);
        Expr { kind: ExprKind::Unary(op, Box::new(operand)), span }
    }

    /// Calls and field accesses, which bind tighter than any prefix operator and
    /// chain left to right.
    fn postfix(&mut self) -> (expr: Expr)
        requires
            old(self).wf(),
        ensures
            final(self).wf(),
            expr.tree() == grammar::postfix(old(self)@.tokens, old(self)@.pos).tree,
            final(self)@ == old(self)@.then_read(
                grammar::postfix(old(self)@.tokens, old(self)@.pos),
            ),
        decreases old(self)@.tokens.len() - old(self)@.pos, 1nat,
    {
        let ghost start = self@;
        let ghost goal = grammar::postfix(start.tokens, start.pos);
        let mut expr = self.primary();
        let ghost mut read = grammar::primary(start.tokens, start.pos);
        proof {
            grammar::lemma_primary_moves(start.tokens, start.pos);
        }

        loop
            invariant
                self.wf(),
                start == old(self)@,
                start.tokens == self@.tokens,
                0 <= start.pos <= self@.pos,
                self@ == start.then_read(read),
                expr.tree() == read.tree,
                goal == grammar::suffixes(start.tokens, read),
            ensures
                goal == read,
            decreases start.tokens.len() - self@.pos,
        {
            match self.peek() {
                TokenKind::OpenParen => {
                    self.advance();
                    let ghost before = self@;
                    let args = self.arguments();
                    proof {
                        grammar::lemma_arguments_move(start.tokens, before.pos);
                    }
                    let end = self.expect(TokenKind::CloseParen, "`)`");
                    let span = expr.span.to(end);
                    expr = Expr { kind: ExprKind::Call { callee: Box::new(expr), args }, span };
                    proof {
                        let list = grammar::arguments(start.tokens, before.pos);
                        let lack = grammar::lack(
                            start.tokens,
                            list.pos,
                            TokenKind::CloseParen,
                            "`)`"@,
                        );
                        assert(start.faults + read.faults + list.faults + lack =~= start.faults + (
                        read.faults + list.faults + lack));
                        read = grammar::with_call(start.tokens, read, list);
                    }
                },
                TokenKind::Dot => {
                    self.advance();
                    let token = self.advance();
                    let span = expr.span.to(token.span);
                    let name = match token.kind {
                        TokenKind::Ident(name) if !name.is_keyword() => Some(name),
                        _ => None,
                    };
                    expr =
                    match name {
                        Some(name) => Expr {
                            kind: ExprKind::Field { base: Box::new(expr), name },
                            span,
                        },
                        None => {
                            self.error(token.span, "expected a field name".to_string());
                            Expr { kind: ExprKind::Error, span }
                        },
                    };
                    proof {
                        let fault = Fault {
                            span: token.span,
                            message: "expected a field name"@,
                        };
                        assert((start.faults + read.faults).push(fault) =~= start.faults
                            + read.faults.push(fault));
                        read = grammar::with_field(start.tokens, read);
                    }
                },
                _ => {
                    break;
                },
            }
        }

        expr
    }

    /// The arguments of a call, up to but not including the closing parenthesis.
    fn arguments(&mut self) -> (args: Vec<Expr>)
        requires
            old(self).wf(),
        ensures
            final(self).wf(),
            ast::trees(args@) == grammar::arguments(old(self)@.tokens, old(self)@.pos).trees,
            final(self)@ == (Progress {
                pos: grammar::arguments(old(self)@.tokens, old(self)@.pos).pos,
                faults: old(self)@.faults + grammar::arguments(
                    old(self)@.tokens,
                    old(self)@.pos,
                ).faults,
                ..old(self)@
            }),
        decreases old(self)@.tokens.len() - old(self)@.pos, 5nat,
    {
        let ghost start = self@;
        let mut args: Vec<Expr> = Vec::new();
        if self.peek() == TokenKind::CloseParen {
            assert(start.faults =~= start.faults + Seq::<Fault>::empty());
            return args;
        }
        let ghost goal = grammar::arguments(start.tokens, start.pos);
        let first = self.expr();
        args.push(first);
        let ghost mut read = grammar::with_argument(
            start.tokens,
            grammar::no_arguments(start.pos),
            start.pos,
            grammar::binary(start.tokens, start.pos, 0),
        );
        proof {
            let next = grammar::binary(start.tokens, start.pos, 0);
            grammar::lemma_binary_moves(start.tokens, start.pos, 0);
            assert(ast::trees(args@.drop_last()) =~= Seq::<Tree>::empty());
            assert(Seq::<Fault>::empty() + next.faults =~= next.faults);
        }
        loop
            invariant
                self.wf(),
                start == old(self)@,
                start.tokens == self@.tokens,
                0 <= start.pos <= self@.pos,
                self@ == (Progress {
                    pos: read.pos,
                    faults: start.faults + read.faults,
                    ..start
                }),
                ast::trees(args@) == read.trees,
                goal == grammar::more_arguments(start.tokens, read),
            ensures
                goal == read,
            decreases start.tokens.len() - self@.pos,
        {
            if !self.eat(TokenKind::Comma) {
                break;
            }
            // A trailing comma is allowed.
            if self.peek() == TokenKind::CloseParen {
                proof {
                    read = Arguments { pos: read.pos + 1, ..read };
                }
                break;
            }
            let ghost before = args@;
            proof {
                grammar::lemma_binary_moves(start.tokens, read.pos + 1, 0);
            }
            let expr = self.expr();
            args.push(expr);
            proof {
                let next = grammar::binary(start.tokens, read.pos + 1, 0);
                assert(args@.drop_last() =~= before);
                assert(start.faults + read.faults + next.faults =~= start.faults + (read.faults
                    + next.faults));
                read = grammar::with_argument(start.tokens, read, read.pos + 1, next);
            }
        }
        args
    }

    fn primary(&mut self) -> (expr: Expr)
        requires
            old(self).wf(),
        ensures
            final(self).wf(),
            expr.tree() == grammar::primary(old(self)@.tokens, old(self)@.pos).tree,
            final(self)@ == old(self)@.then_read(
                grammar::primary(old(self)@.tokens, old(self)@.pos),
            ),
        decreases old(self)@.tokens.len() - old(self)@.pos, 0nat,
    {
        let ghost start = self@;
        let token = self.current();
        assert(start.faults =~= start.faults + Seq::<Fault>::empty());

        match token.kind {
            TokenKind::Int(symbol) => {
                self.advance();
                Expr { kind: ExprKind::Int(symbol), span: token.span }
            },
            TokenKind::Ident(symbol) if symbol == kw::TRUE() => {
                self.advance();
                Expr { kind: ExprKind::Bool(true), span: token.span }
            },
            TokenKind::Ident(symbol) if symbol == kw::FALSE() => {
                self.advance();
                Expr { kind: ExprKind::Bool(false), span: token.span }
            },
            TokenKind::Ident(symbol) if !symbol.is_keyword() => {
                self.advance();
                Expr { kind: ExprKind::Path(symbol), span: token.span }
            },
            TokenKind::OpenParen => {
                let open = self.advance().span;
                proof {
                    grammar::lemma_binary_moves(start.tokens, start.pos + 1, 0);
                }
                let inner = self.expr();
                let close = self.expect(TokenKind::CloseParen, "`)`");
                proof {
                    let read = grammar::binary(start.tokens, start.pos + 1, 0);
                    let lack = grammar::lack(
                        start.tokens,
                        read.pos,
                        TokenKind::CloseParen,
                        "`)`"@,
                    );
                    assert(start.faults + read.faults + lack =~= start.faults + (read.faults
                        + lack));
                }
                // Grouping widens the span and leaves the tree alone; see the
                // ast module documentation.
                Expr { kind: inner.kind, span: open.to(close) }
            },
            _ => {
                self.error(token.span, "expected an expression".to_string());
                // Consuming is what guarantees progress. `advance` is a no-op at
                // Eof, which is safe because no loop above continues on Eof.
                self.advance();
                proof {
                    let fault = Fault { span: token.span, message: "expected an expression"@ };
                    assert(start.faults.push(fault) =~= start.faults + seq![fault]);
                }
                Expr { kind: ExprKind::Error, span: token.span }
            },
        }
    }
}

} // verus!
