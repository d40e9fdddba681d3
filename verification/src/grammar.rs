//! What the parser computes, as mathematics.
//!
//! Each function reads a token stream from a position and says which tree comes
//! out, where reading stops, and which faults are reported on the way. A stream
//! ends in [`TokenKind::Eof`], and reading never moves past it.
use crate::ast::{BinOp, Node, Tree, UnOp};
use crate::span::Span;
use crate::symbol::{kw, Symbol, KEYWORD_COUNT};
use crate::token;
use crate::token::{Token, TokenKind};
use vstd::prelude::*;

pub mod kinds;
pub mod laws;

verus! {

/// A syntax error, as a mathematical value.
pub struct Fault {
    pub span: Span,
    pub message: Seq<char>,
}

/// What reading from some position gives.
pub struct Parsed {
    pub tree: Tree,
    /// Where reading stops.
    pub pos: int,
    pub faults: Seq<Fault>,
}

/// What reading an argument list gives.
pub struct Arguments {
    pub trees: Seq<Tree>,
    /// Where reading stops.
    pub pos: int,
    pub faults: Seq<Fault>,
}

/// How far reading has come: the stream, the position in it, and the faults
/// reported so far.
pub struct Progress {
    pub tokens: Seq<Token>,
    pub pos: int,
    pub faults: Seq<Fault>,
}

impl Progress {
    /// Reading goes on from where it was.
    pub open spec fn then_read(self, parsed: Parsed) -> Progress {
        Progress { pos: parsed.pos, faults: self.faults + parsed.faults, ..self }
    }
}

/// The token at `pos` is `kind`.
pub open spec fn at(tokens: Seq<Token>, pos: int, kind: TokenKind) -> bool {
    0 <= pos < tokens.len() && tokens[pos].kind == kind
}

/// The position after the token at `pos`. Nothing comes after the end.
pub open spec fn after(tokens: Seq<Token>, pos: int) -> int {
    if at(tokens, pos, TokenKind::Eof) {
        pos
    } else {
        pos + 1
    }
}

/// The operator that `kind` is between two operands, and how tightly it binds.
///
/// Higher binds tighter. The table is the whole precedence specification.
pub open spec fn infix(kind: TokenKind) -> Option<(BinOp, nat)> {
    match kind {
        TokenKind::AndAnd => Some((BinOp::And, 1)),
        TokenKind::EqEq => Some((BinOp::Eq, 2)),
        TokenKind::Ne => Some((BinOp::Ne, 2)),
        TokenKind::Lt => Some((BinOp::Lt, 2)),
        TokenKind::Le => Some((BinOp::Le, 2)),
        TokenKind::Gt => Some((BinOp::Gt, 2)),
        TokenKind::Ge => Some((BinOp::Ge, 2)),
        TokenKind::Plus => Some((BinOp::Add, 3)),
        TokenKind::Minus => Some((BinOp::Sub, 3)),
        TokenKind::Star => Some((BinOp::Mul, 4)),
        TokenKind::Slash => Some((BinOp::Div, 4)),
        TokenKind::Percent => Some((BinOp::Rem, 4)),
        _ => None,
    }
}

/// The operator that `kind` is in front of an operand.
pub open spec fn prefix(kind: TokenKind) -> Option<UnOp> {
    match kind {
        TokenKind::Minus => Some(UnOp::Neg),
        TokenKind::Bang => Some(UnOp::Not),
        TokenKind::Star => Some(UnOp::Deref),
        _ => None,
    }
}

/// The expression that `kind` is all by itself.
pub open spec fn atom(kind: TokenKind) -> Option<Node> {
    match kind {
        TokenKind::Int(symbol) => Some(Node::Int(symbol)),
        TokenKind::Ident(symbol) => if symbol == kw::TRUE() {
            Some(Node::Bool(true))
        } else if symbol == kw::FALSE() {
            Some(Node::Bool(false))
        } else if symbol.index() < KEYWORD_COUNT {
            None
        } else {
            Some(Node::Path(symbol))
        },
        _ => None,
    }
}

/// The name that `kind` is when it follows a dot.
pub open spec fn field_name(kind: TokenKind) -> Option<Symbol> {
    match kind {
        TokenKind::Ident(symbol) => if symbol.index() < KEYWORD_COUNT {
            None
        } else {
            Some(symbol)
        },
        _ => None,
    }
}

/// The message for something that is not there.
pub open spec fn missing(what: Seq<char>) -> Seq<char> {
    "expected "@ + what
}

/// The faults of reading `kind` at `pos`: none if it is there, and otherwise one
/// that points at what is there instead.
pub open spec fn lack(tokens: Seq<Token>, pos: int, kind: TokenKind, what: Seq<char>) -> Seq<
    Fault,
> {
    if at(tokens, pos, kind) {
        Seq::empty()
    } else {
        seq![Fault { span: tokens[pos].span, message: missing(what) }]
    }
}

/// The position after `kind` if it is at `pos`, and `pos` itself if not.
pub open spec fn past(tokens: Seq<Token>, pos: int, kind: TokenKind) -> int {
    if at(tokens, pos, kind) {
        after(tokens, pos)
    } else {
        pos
    }
}

/// `pos`, which reading from `from` has reached. It is never before `from`, nor
/// past the end; see [`lemma_binary_moves`].
pub open spec fn reached(tokens: Seq<Token>, from: int, pos: int) -> int {
    if from <= pos <= tokens.len() {
        pos
    } else {
        from
    }
}

/// Nothing can be read outside the stream.
pub open spec fn nowhere(pos: int) -> Parsed {
    Parsed {
        tree: Tree { node: Node::Error, span: arbitrary() },
        pos,
        faults: Seq::empty(),
    }
}

/// A literal, a name or a parenthesised expression. Anything else is a fault,
/// and is skipped.
pub open spec fn primary(tokens: Seq<Token>, pos: int) -> Parsed
    decreases tokens.len() - pos, 0nat,
{
    if !(0 <= pos < tokens.len()) {
        nowhere(pos)
    } else {
        let token = tokens[pos];
        if atom(token.kind) is Some {
            Parsed {
                tree: Tree { node: atom(token.kind)->0, span: token.span },
                pos: pos + 1,
                faults: Seq::empty(),
            }
        } else if token.kind == TokenKind::OpenParen {
            let inner = binary(tokens, pos + 1, 0);
            let close = reached(tokens, pos + 1, inner.pos);
            Parsed {
                tree: Tree {
                    node: inner.tree.node,
                    span: token.span.union(tokens[close].span),
                },
                pos: past(tokens, close, TokenKind::CloseParen),
                faults: inner.faults + lack(tokens, close, TokenKind::CloseParen, "`)`"@),
            }
        } else {
            Parsed {
                tree: Tree { node: Node::Error, span: token.span },
                pos: after(tokens, pos),
                faults: seq![Fault { span: token.span, message: "expected an expression"@ }],
            }
        }
    }
}

/// A call of `base`, whose opening parenthesis it stops at, with `args`.
pub open spec fn with_call(tokens: Seq<Token>, base: Parsed, args: Arguments) -> Parsed {
    let start = base.pos + 1;
    let end = reached(tokens, start, args.pos);
    Parsed {
        tree: Tree {
            node: Node::Call { callee: Box::new(base.tree), args: args.trees },
            span: base.tree.span.union(tokens[end].span),
        },
        pos: reached(tokens, start, past(tokens, end, TokenKind::CloseParen)),
        faults: base.faults + args.faults + lack(tokens, end, TokenKind::CloseParen, "`)`"@),
    }
}

/// An access to a field of `base`, whose dot it stops at.
pub open spec fn with_field(tokens: Seq<Token>, base: Parsed) -> Parsed {
    let token = tokens[base.pos + 1];
    let span = base.tree.span.union(token.span);
    let pos = reached(tokens, base.pos + 1, after(tokens, base.pos + 1));
    match field_name(token.kind) {
        Some(name) => Parsed {
            tree: Tree { node: Node::Field { base: Box::new(base.tree), name }, span },
            pos,
            faults: base.faults,
        },
        None => Parsed {
            tree: Tree { node: Node::Error, span },
            pos,
            faults: base.faults.push(
                Fault { span: token.span, message: "expected a field name"@ },
            ),
        },
    }
}

/// The calls and field accesses that follow `base`, from left to right.
pub open spec fn suffixes(tokens: Seq<Token>, base: Parsed) -> Parsed
    decreases tokens.len() - base.pos, 0nat,
{
    if at(tokens, base.pos, TokenKind::OpenParen) {
        let args = arguments(tokens, base.pos + 1);
        suffixes(tokens, with_call(tokens, base, args))
    } else if at(tokens, base.pos, TokenKind::Dot) {
        suffixes(tokens, with_field(tokens, base))
    } else {
        base
    }
}

/// The arguments `read`, which stop short of `from`, and one more.
pub open spec fn with_argument(
    tokens: Seq<Token>,
    read: Arguments,
    from: int,
    next: Parsed,
) -> Arguments {
    Arguments {
        trees: read.trees.push(next.tree),
        pos: reached(tokens, from, next.pos),
        faults: read.faults + next.faults,
    }
}

/// No arguments at all.
pub open spec fn no_arguments(pos: int) -> Arguments {
    Arguments { trees: Seq::empty(), pos, faults: Seq::empty() }
}

/// An argument list, from after the opening parenthesis to before the closing
/// one. A trailing comma is allowed.
pub open spec fn arguments(tokens: Seq<Token>, pos: int) -> Arguments
    decreases tokens.len() - pos, 4nat,
{
    if !(0 <= pos < tokens.len()) || at(tokens, pos, TokenKind::CloseParen) {
        no_arguments(pos)
    } else {
        let first = binary(tokens, pos, 0);
        more_arguments(tokens, with_argument(tokens, no_arguments(pos), pos, first))
    }
}

/// The arguments that follow those already read.
pub open spec fn more_arguments(tokens: Seq<Token>, read: Arguments) -> Arguments
    decreases tokens.len() - read.pos, 0nat,
{
    let pos = read.pos;
    if !at(tokens, pos, TokenKind::Comma) {
        read
    } else if at(tokens, pos + 1, TokenKind::CloseParen) {
        Arguments { pos: pos + 1, ..read }
    } else {
        let next = binary(tokens, pos + 1, 0);
        more_arguments(tokens, with_argument(tokens, read, pos + 1, next))
    }
}

/// A primary expression with its calls and field accesses, which bind tighter
/// than any prefix operator.
pub open spec fn postfix(tokens: Seq<Token>, pos: int) -> Parsed
    decreases tokens.len() - pos, 1nat,
{
    let base = primary(tokens, pos);
    if !(0 <= pos < tokens.len()) {
        base
    } else {
        suffixes(tokens, Parsed { pos: reached(tokens, pos, base.pos), ..base })
    }
}

/// An operand with its prefix operators, which bind tighter than any infix one.
/// The mutability that may follow `&` is part of the operator.
pub open spec fn unary(tokens: Seq<Token>, pos: int) -> Parsed
    decreases tokens.len() - pos, 2nat,
{
    if at(tokens, pos, TokenKind::And) {
        let mutable = at(tokens, pos + 1, TokenKind::Ident(kw::MUT()));
        let operand = unary(
            tokens,
            if mutable {
                pos + 2
            } else {
                pos + 1
            },
        );
        Parsed {
            tree: Tree {
                node: Node::Borrow { mutable, operand: Box::new(operand.tree) },
                span: tokens[pos].span.union(operand.tree.span),
            },
            ..operand
        }
    } else if 0 <= pos < tokens.len() && prefix(tokens[pos].kind) is Some {
        let operand = unary(tokens, pos + 1);
        Parsed {
            tree: Tree {
                node: Node::Unary(prefix(tokens[pos].kind)->0, Box::new(operand.tree)),
                span: tokens[pos].span.union(operand.tree.span),
            },
            ..operand
        }
    } else {
        postfix(tokens, pos)
    }
}

/// Operands joined by infix operators that bind no looser than `min_power`.
pub open spec fn binary(tokens: Seq<Token>, pos: int, min_power: nat) -> Parsed
    decreases tokens.len() - pos, 3nat,
{
    let first = unary(tokens, pos);
    if !(0 <= pos < tokens.len()) {
        first
    } else {
        climb(tokens, Parsed { pos: reached(tokens, pos, first.pos), ..first }, min_power)
    }
}

/// The operator `op`, which `lhs` stops at, between its two operands.
pub open spec fn with_operand(tokens: Seq<Token>, lhs: Parsed, op: BinOp, rhs: Parsed) -> Parsed {
    Parsed {
        tree: Tree {
            node: Node::Binary(op, Box::new(lhs.tree), Box::new(rhs.tree)),
            span: lhs.tree.span.union(rhs.tree.span),
        },
        pos: reached(tokens, lhs.pos + 1, rhs.pos),
        faults: lhs.faults + rhs.faults,
    }
}

/// The infix operators that follow `lhs`, folded into its left.
///
/// The right operand of an operator takes in only what binds tighter, which
/// makes the operator left-associative.
pub open spec fn climb(tokens: Seq<Token>, lhs: Parsed, min_power: nat) -> Parsed
    decreases tokens.len() - lhs.pos, 0nat,
{
    if !(0 <= lhs.pos < tokens.len()) {
        lhs
    } else {
        match infix(tokens[lhs.pos].kind) {
            Some((op, power)) => if power < min_power {
                lhs
            } else {
                let rhs = binary(tokens, lhs.pos + 1, power + 1);
                climb(tokens, with_operand(tokens, lhs, op, rhs), min_power)
            },
            None => lhs,
        }
    }
}

/// A whole stream read as one expression. What is left over is a fault.
pub open spec fn parsing(tokens: Seq<Token>) -> Parsed {
    let parsed = binary(tokens, 0, 0);
    if at(tokens, parsed.pos, TokenKind::Eof) {
        parsed
    } else {
        Parsed {
            faults: parsed.faults.push(
                Fault {
                    span: tokens[parsed.pos].span,
                    message: "unexpected token after expression"@,
                },
            ),
            ..parsed
        }
    }
}

/// Reading a primary expression stays within the stream, and moves on unless the
/// end has been reached.
pub proof fn lemma_primary_moves(tokens: Seq<Token>, pos: int)
    requires
        token::ends_in_eof(tokens),
        0 <= pos < tokens.len(),
    ensures
        pos <= primary(tokens, pos).pos < tokens.len(),
        !at(tokens, pos, TokenKind::Eof) ==> pos < primary(tokens, pos).pos,
    decreases tokens.len() - pos, 0nat,
{
    if at(tokens, pos, TokenKind::OpenParen) {
        lemma_binary_moves(tokens, pos + 1, 0);
    }
}

/// Reading calls and field accesses stays within the stream.
pub proof fn lemma_suffixes_move(tokens: Seq<Token>, base: Parsed)
    requires
        token::ends_in_eof(tokens),
        0 <= base.pos < tokens.len(),
    ensures
        base.pos <= suffixes(tokens, base).pos < tokens.len(),
    decreases tokens.len() - base.pos, 0nat,
{
    if at(tokens, base.pos, TokenKind::OpenParen) {
        lemma_arguments_move(tokens, base.pos + 1);
        let args = arguments(tokens, base.pos + 1);
        lemma_suffixes_move(tokens, with_call(tokens, base, args));
    } else if at(tokens, base.pos, TokenKind::Dot) {
        lemma_suffixes_move(tokens, with_field(tokens, base));
    }
}

/// Reading an argument list stays within the stream.
pub proof fn lemma_arguments_move(tokens: Seq<Token>, pos: int)
    requires
        token::ends_in_eof(tokens),
        0 <= pos < tokens.len(),
    ensures
        pos <= arguments(tokens, pos).pos < tokens.len(),
    decreases tokens.len() - pos, 4nat,
{
    if !at(tokens, pos, TokenKind::CloseParen) {
        lemma_binary_moves(tokens, pos, 0);
        let first = binary(tokens, pos, 0);
        lemma_more_arguments_move(tokens, with_argument(tokens, no_arguments(pos), pos, first));
    }
}

/// Reading further arguments stays within the stream.
pub proof fn lemma_more_arguments_move(tokens: Seq<Token>, read: Arguments)
    requires
        token::ends_in_eof(tokens),
        0 <= read.pos < tokens.len(),
    ensures
        read.pos <= more_arguments(tokens, read).pos < tokens.len(),
    decreases tokens.len() - read.pos, 0nat,
{
    let pos = read.pos;
    if at(tokens, pos, TokenKind::Comma) && !at(tokens, pos + 1, TokenKind::CloseParen) {
        lemma_binary_moves(tokens, pos + 1, 0);
        let next = binary(tokens, pos + 1, 0);
        lemma_more_arguments_move(tokens, with_argument(tokens, read, pos + 1, next));
    }
}

/// Reading a postfix expression stays within the stream, and moves on unless the
/// end has been reached.
pub proof fn lemma_postfix_moves(tokens: Seq<Token>, pos: int)
    requires
        token::ends_in_eof(tokens),
        0 <= pos < tokens.len(),
    ensures
        pos <= postfix(tokens, pos).pos < tokens.len(),
        !at(tokens, pos, TokenKind::Eof) ==> pos < postfix(tokens, pos).pos,
    decreases tokens.len() - pos, 1nat,
{
    lemma_primary_moves(tokens, pos);
    lemma_suffixes_move(tokens, primary(tokens, pos));
}

/// Reading a prefixed expression stays within the stream, and moves on unless
/// the end has been reached.
pub proof fn lemma_unary_moves(tokens: Seq<Token>, pos: int)
    requires
        token::ends_in_eof(tokens),
        0 <= pos < tokens.len(),
    ensures
        pos <= unary(tokens, pos).pos < tokens.len(),
        !at(tokens, pos, TokenKind::Eof) ==> pos < unary(tokens, pos).pos,
    decreases tokens.len() - pos, 2nat,
{
    if at(tokens, pos, TokenKind::And) {
        if at(tokens, pos + 1, TokenKind::Ident(kw::MUT())) {
            lemma_unary_moves(tokens, pos + 2);
        } else {
            lemma_unary_moves(tokens, pos + 1);
        }
    } else if prefix(tokens[pos].kind) is Some {
        lemma_unary_moves(tokens, pos + 1);
    } else {
        lemma_postfix_moves(tokens, pos);
    }
}

/// Reading an expression stays within the stream, and moves on unless the end
/// has been reached.
pub proof fn lemma_binary_moves(tokens: Seq<Token>, pos: int, min_power: nat)
    requires
        token::ends_in_eof(tokens),
        0 <= pos < tokens.len(),
    ensures
        pos <= binary(tokens, pos, min_power).pos < tokens.len(),
        !at(tokens, pos, TokenKind::Eof) ==> pos < binary(tokens, pos, min_power).pos,
    decreases tokens.len() - pos, 3nat,
{
    lemma_unary_moves(tokens, pos);
    lemma_climb_moves(tokens, unary(tokens, pos), min_power);
}

/// Reading infix operators stays within the stream.
pub proof fn lemma_climb_moves(tokens: Seq<Token>, lhs: Parsed, min_power: nat)
    requires
        token::ends_in_eof(tokens),
        0 <= lhs.pos < tokens.len(),
    ensures
        lhs.pos <= climb(tokens, lhs, min_power).pos < tokens.len(),
    decreases tokens.len() - lhs.pos, 0nat,
{
    if let Some((op, power)) = infix(tokens[lhs.pos].kind) {
        if power >= min_power {
            lemma_binary_moves(tokens, lhs.pos + 1, power + 1);
            let rhs = binary(tokens, lhs.pos + 1, power + 1);
            lemma_climb_moves(tokens, with_operand(tokens, lhs, op, rhs), min_power);
        }
    }
}

} // verus!
