//! The grammar of expressions, as mathematics.
//!
//! A [`Syntax`] is an expression as it is written, parentheses and all. The
//! parser accepts exactly those that are [`grammatical`] and reads each of them
//! as what it means: see [`lemma_what_is_written_is_read`] and
//! [`lemma_what_is_read_was_written`].
//!
//! A stream that is not well written is read as a [`Syntax`] too, one with gaps
//! in it. Operators nest in it as they do everywhere, and its gaps are what is
//! reported: see [`lemma_whatever_is_there_is_read`]. There is only one such
//! reading: see [`lemma_reading_is_determined`].
//!
//! What trees say of the tokens they come from is in [`laws`].
use crate::ast::{BinOp, Node, Tree, UnOp};
use crate::grammar;
use crate::grammar::{Arguments, Fault, Parsed};
use crate::span::Span;
use crate::symbol;
use crate::symbol::{kw, Symbol};
use crate::token;
use crate::token::{Token, TokenKind};
use vstd::prelude::*;

pub mod laws;

verus! {

/// An expression as it is written.
pub enum Syntax {
    /// An integer literal.
    Int(Symbol),
    /// `true` or `false`
    Bool(bool),
    /// A name.
    Name(Symbol),
    /// `(inner)`, or `(inner` if it is not closed.
    Group { inner: Box<Syntax>, closed: bool },
    /// A prefix operator and its operand.
    Prefix(UnOp, Box<Syntax>),
    /// `&operand` or `&mut operand`
    Borrow { mutable: bool, operand: Box<Syntax> },
    /// An infix operator between its operands.
    Infix(Box<Syntax>, BinOp, Box<Syntax>),
    /// `callee(args)`, possibly with a comma after the last argument, or without
    /// the closing parenthesis if it is not closed.
    Call { callee: Box<Syntax>, args: Seq<Syntax>, trailing: bool, closed: bool },
    /// `base.name`
    Field { base: Box<Syntax>, name: Symbol },
    /// An expression is missing. A token that cannot start one may be there
    /// instead.
    Missing(Option<TokenKind>),
    /// `base.`, and the name is missing. A token that is no name may be there
    /// instead.
    Nameless { base: Box<Syntax>, found: Option<TokenKind> },
}

/// The symbol is a keyword, and so no name.
pub open spec fn reserved(symbol: Symbol) -> bool {
    symbol.index() < symbol::keywords().len()
}

/// The token that a prefix operator is written with.
pub open spec fn mark(op: UnOp) -> TokenKind {
    match op {
        UnOp::Neg => TokenKind::Minus,
        UnOp::Not => TokenKind::Bang,
        UnOp::Deref => TokenKind::Star,
    }
}

/// The token that an infix operator is written with.
pub open spec fn sign(op: BinOp) -> TokenKind {
    match op {
        BinOp::And => TokenKind::AndAnd,
        BinOp::Eq => TokenKind::EqEq,
        BinOp::Ne => TokenKind::Ne,
        BinOp::Lt => TokenKind::Lt,
        BinOp::Le => TokenKind::Le,
        BinOp::Gt => TokenKind::Gt,
        BinOp::Ge => TokenKind::Ge,
        BinOp::Add => TokenKind::Plus,
        BinOp::Sub => TokenKind::Minus,
        BinOp::Mul => TokenKind::Star,
        BinOp::Div => TokenKind::Slash,
        BinOp::Rem => TokenKind::Percent,
    }
}

/// How tightly an infix operator binds.
pub open spec fn strength(op: BinOp) -> nat {
    match op {
        BinOp::And => 1,
        BinOp::Eq | BinOp::Ne | BinOp::Lt | BinOp::Le | BinOp::Gt | BinOp::Ge => 2,
        BinOp::Add | BinOp::Sub => 3,
        BinOp::Mul | BinOp::Div | BinOp::Rem => 4,
    }
}

/// An infix operator is written with `kind`.
pub open spec fn joins(kind: TokenKind) -> bool {
    exists|op: BinOp| #[trigger] sign(op) == kind
}

/// How tightly prefix operators bind.
pub open spec fn prefix_power() -> nat {
    5
}

/// How tightly calls and field accesses bind.
pub open spec fn postfix_power() -> nat {
    6
}

/// How tightly the outermost operator binds.
pub open spec fn power(syntax: Syntax) -> nat {
    match syntax {
        Syntax::Infix(_, op, _) => strength(op),
        Syntax::Prefix(_, _) | Syntax::Borrow { .. } => prefix_power(),
        _ => postfix_power(),
    }
}

/// The operators of the expression nest the way the language wants it, gaps or
/// not.
///
/// The left operand of an infix operator binds at least as tightly as the
/// operator, and the right operand binds tighter. Whatever does not, needs
/// parentheses.
pub open spec fn well_nested(syntax: Syntax) -> bool
    decreases syntax,
{
    match syntax {
        Syntax::Int(_) => true,
        Syntax::Bool(_) => true,
        Syntax::Name(symbol) => !reserved(symbol),
        Syntax::Group { inner, .. } => well_nested(*inner),
        Syntax::Prefix(_, operand) => {
            &&& well_nested(*operand)
            &&& power(*operand) >= prefix_power()
        },
        Syntax::Borrow { operand, .. } => {
            &&& well_nested(*operand)
            &&& power(*operand) >= prefix_power()
        },
        Syntax::Infix(lhs, op, rhs) => {
            &&& well_nested(*lhs)
            &&& well_nested(*rhs)
            &&& power(*lhs) >= strength(op)
            &&& power(*rhs) > strength(op)
        },
        Syntax::Call { callee, args, trailing, closed } => {
            &&& well_nested(*callee)
            &&& power(*callee) >= postfix_power()
            &&& forall|i: int| 0 <= i < args.len() ==> well_nested(#[trigger] args[i])
            &&& trailing ==> args.len() > 0 && closed
        },
        Syntax::Field { base, name } => {
            &&& well_nested(*base)
            &&& power(*base) >= postfix_power()
            &&& !reserved(name)
        },
        Syntax::Missing(found) => match found {
            Some(kind) => starts_nothing(kind) && kind != TokenKind::Eof,
            None => true,
        },
        Syntax::Nameless { base, found } => {
            &&& well_nested(*base)
            &&& power(*base) >= postfix_power()
            &&& found matches Some(kind) ==> names_nothing(kind) && kind != TokenKind::Eof
        },
    }
}

/// No expression starts with `kind`.
pub open spec fn starts_nothing(kind: TokenKind) -> bool {
    match kind {
        TokenKind::Int(_) => false,
        TokenKind::Ident(symbol) => {
            &&& reserved(symbol)
            &&& symbol != kw::TRUE()
            &&& symbol != kw::FALSE()
        },
        TokenKind::Minus | TokenKind::Bang | TokenKind::Star => false,
        TokenKind::And | TokenKind::OpenParen => false,
        _ => true,
    }
}

/// No field is named by `kind`.
pub open spec fn names_nothing(kind: TokenKind) -> bool {
    match kind {
        TokenKind::Ident(symbol) => reserved(symbol),
        _ => true,
    }
}

/// Nothing is missing in the expression.
pub open spec fn complete(syntax: Syntax) -> bool
    decreases syntax,
{
    match syntax {
        Syntax::Int(_) => true,
        Syntax::Bool(_) => true,
        Syntax::Name(_) => true,
        Syntax::Group { inner, closed } => complete(*inner) && closed,
        Syntax::Prefix(_, operand) => complete(*operand),
        Syntax::Borrow { operand, .. } => complete(*operand),
        Syntax::Infix(lhs, _, rhs) => complete(*lhs) && complete(*rhs),
        Syntax::Call { callee, args, closed, .. } => {
            &&& complete(*callee)
            &&& forall|i: int| 0 <= i < args.len() ==> complete(#[trigger] args[i])
            &&& closed
        },
        Syntax::Field { base, .. } => complete(*base),
        Syntax::Missing(_) => false,
        Syntax::Nameless { .. } => false,
    }
}

/// The expression is written the way the language wants it.
pub open spec fn grammatical(syntax: Syntax) -> bool {
    well_nested(syntax) && complete(syntax)
}

/// The closing parenthesis, if it is there.
pub open spec fn close(closed: bool) -> Seq<TokenKind> {
    if closed {
        seq![TokenKind::CloseParen]
    } else {
        seq![]
    }
}

/// The comma after the last argument, if it is there.
pub open spec fn comma(trailing: bool) -> Seq<TokenKind> {
    if trailing {
        seq![TokenKind::Comma]
    } else {
        seq![]
    }
}

/// The token that is there, if there is one.
pub open spec fn instead(found: Option<TokenKind>) -> Seq<TokenKind> {
    match found {
        Some(kind) => seq![kind],
        None => seq![],
    }
}

/// The tokens that the expression is written with.
pub open spec fn spelled(syntax: Syntax) -> Seq<TokenKind>
    decreases syntax, 0nat,
{
    match syntax {
        Syntax::Int(symbol) => seq![TokenKind::Int(symbol)],
        Syntax::Bool(true) => seq![TokenKind::Ident(kw::TRUE())],
        Syntax::Bool(false) => seq![TokenKind::Ident(kw::FALSE())],
        Syntax::Name(symbol) => seq![TokenKind::Ident(symbol)],
        Syntax::Group { inner, closed } => seq![TokenKind::OpenParen] + spelled(*inner) + close(
            closed,
        ),
        Syntax::Prefix(op, operand) => seq![mark(op)] + spelled(*operand),
        Syntax::Borrow { mutable, operand } => if mutable {
            seq![TokenKind::And, TokenKind::Ident(kw::MUT())] + spelled(*operand)
        } else {
            seq![TokenKind::And] + spelled(*operand)
        },
        Syntax::Infix(lhs, op, rhs) => spelled(*lhs) + seq![sign(op)] + spelled(*rhs),
        Syntax::Call { callee, args, trailing, closed } => spelled(*callee) + seq![
            TokenKind::OpenParen,
        ] + spelled_list(args) + comma(trailing) + close(closed),
        Syntax::Field { base, name } => spelled(*base) + seq![
            TokenKind::Dot,
            TokenKind::Ident(name),
        ],
        Syntax::Missing(found) => instead(found),
        Syntax::Nameless { base, found } => spelled(*base) + seq![TokenKind::Dot] + instead(
            found,
        ),
    }
}

/// The tokens that arguments are written with, separated by commas.
pub open spec fn spelled_list(args: Seq<Syntax>) -> Seq<TokenKind>
    decreases args, 1nat,
{
    if args.len() == 0 {
        seq![]
    } else {
        before_last(args) + spelled(args.last())
    }
}

/// The tokens in front of the last argument.
pub open spec fn before_last(args: Seq<Syntax>) -> Seq<TokenKind>
    decreases args, 0nat,
{
    if args.len() <= 1 {
        seq![]
    } else {
        spelled_list(args.drop_last()) + seq![TokenKind::Comma]
    }
}

/// What the expression means, where its first token is the one at `pos`.
pub open spec fn meaning(syntax: Syntax, tokens: Seq<Token>, pos: int) -> Tree
    decreases syntax,
{
    match syntax {
        Syntax::Int(symbol) => Tree { node: Node::Int(symbol), span: tokens[pos].span },
        Syntax::Bool(value) => Tree { node: Node::Bool(value), span: tokens[pos].span },
        Syntax::Name(symbol) => Tree { node: Node::Path(symbol), span: tokens[pos].span },
        Syntax::Group { inner, .. } => Tree {
            node: meaning(*inner, tokens, pos + 1).node,
            span: tokens[pos].span.union(tokens[pos + 1 + spelled(*inner).len()].span),
        },
        Syntax::Prefix(op, operand) => {
            let operand = meaning(*operand, tokens, pos + 1);
            Tree {
                node: Node::Unary(op, Box::new(operand)),
                span: tokens[pos].span.union(operand.span),
            }
        },
        Syntax::Borrow { mutable, operand } => {
            let start = if mutable {
                pos + 2
            } else {
                pos + 1
            };
            let operand = meaning(*operand, tokens, start);
            Tree {
                node: Node::Borrow { mutable, operand: Box::new(operand) },
                span: tokens[pos].span.union(operand.span),
            }
        },
        Syntax::Infix(lhs, op, rhs) => {
            let start = pos + spelled(*lhs).len() + 1;
            let lhs = meaning(*lhs, tokens, pos);
            let rhs = meaning(*rhs, tokens, start);
            Tree {
                node: Node::Binary(op, Box::new(lhs), Box::new(rhs)),
                span: lhs.span.union(rhs.span),
            }
        },
        Syntax::Call { callee, args, trailing, .. } => {
            let start = pos + spelled(*callee).len() + 1;
            let end = start + spelled_list(args).len() + comma(trailing).len();
            let callee = meaning(*callee, tokens, pos);
            Tree {
                node: Node::Call {
                    callee: Box::new(callee),
                    args: meanings(args, tokens, start),
                },
                span: callee.span.union(tokens[end].span),
            }
        },
        Syntax::Field { base, name } => {
            let end = pos + spelled(*base).len() + 1;
            let base = meaning(*base, tokens, pos);
            Tree {
                node: Node::Field { base: Box::new(base), name },
                span: base.span.union(tokens[end].span),
            }
        },
        Syntax::Missing(_) => Tree { node: Node::Error, span: tokens[pos].span },
        Syntax::Nameless { base, .. } => {
            let end = pos + spelled(*base).len() + 1;
            let base = meaning(*base, tokens, pos);
            Tree { node: Node::Error, span: base.span.union(tokens[end].span) }
        },
    }
}

/// What arguments mean, where the first token is the one at `pos`.
pub open spec fn meanings(args: Seq<Syntax>, tokens: Seq<Token>, pos: int) -> Seq<Tree>
    decreases args,
{
    if args.len() == 0 {
        seq![]
    } else {
        let start = pos + before_last(args).len();
        meanings(args.drop_last(), tokens, pos).push(meaning(args.last(), tokens, start))
    }
}

/// The fault of a parenthesis that is not closed, which points at the token at
/// `pos`.
pub open spec fn unclosed(closed: bool, tokens: Seq<Token>, pos: int) -> Seq<Fault> {
    if closed {
        Seq::empty()
    } else {
        seq![Fault { span: tokens[pos].span, message: "expected `)`"@ }]
    }
}

/// Nothing at `pos` goes on with the expression in front of it.
pub open spec fn stuck(tokens: Seq<Token>, pos: int) -> bool {
    &&& 0 <= pos < tokens.len()
    &&& !joins(tokens[pos].kind)
    &&& tokens[pos].kind != TokenKind::OpenParen
    &&& tokens[pos].kind != TokenKind::Dot
}

/// The gaps of the expression, whose first token is the one at `pos`, are gaps of
/// the stream: nothing is taken for missing that is there.
///
/// What is missing altogether is missing at the end of the stream. A parenthesis
/// is open only where neither it nor the expression inside goes on. A keyword
/// `mut` after `&` belongs to it, and an argument never starts with the
/// parenthesis that closes the call.
pub open spec fn honest(syntax: Syntax, tokens: Seq<Token>, pos: int) -> bool
    decreases syntax,
{
    match syntax {
        Syntax::Int(_) => true,
        Syntax::Bool(_) => true,
        Syntax::Name(_) => true,
        Syntax::Group { inner, closed } => {
            let end = pos + 1 + spelled(*inner).len();
            &&& honest(*inner, tokens, pos + 1)
            &&& !closed ==> stuck(tokens, end) && tokens[end].kind != TokenKind::CloseParen
        },
        Syntax::Prefix(_, operand) => honest(*operand, tokens, pos + 1),
        Syntax::Borrow { mutable, operand } => if mutable {
            honest(*operand, tokens, pos + 2)
        } else {
            &&& honest(*operand, tokens, pos + 1)
            &&& tokens[pos + 1].kind != TokenKind::Ident(kw::MUT())
        },
        Syntax::Infix(lhs, _, rhs) => {
            &&& honest(*lhs, tokens, pos)
            &&& honest(*rhs, tokens, pos + spelled(*lhs).len() + 1)
        },
        Syntax::Call { callee, args, closed, .. } => {
            let start = pos + spelled(*callee).len() + 1;
            let end = start + spelled_list(args).len();
            &&& honest(*callee, tokens, pos)
            &&& honest_list(args, tokens, start)
            &&& !closed ==> {
                &&& args.len() > 0
                &&& stuck(tokens, end)
                &&& tokens[end].kind != TokenKind::CloseParen
                &&& tokens[end].kind != TokenKind::Comma
            }
        },
        Syntax::Field { base, .. } => honest(*base, tokens, pos),
        Syntax::Missing(found) => found is None ==> tokens[pos].kind == TokenKind::Eof,
        Syntax::Nameless { base, found } => {
            &&& honest(*base, tokens, pos)
            &&& found is None ==> tokens[pos + spelled(*base).len() + 1].kind == TokenKind::Eof
        },
    }
}

/// The gaps of arguments, whose first token is the one at `pos`, are gaps of the
/// stream.
pub open spec fn honest_list(args: Seq<Syntax>, tokens: Seq<Token>, pos: int) -> bool
    decreases args,
{
    args.len() > 0 ==> {
        let start = pos + before_last(args).len();
        &&& honest_list(args.drop_last(), tokens, pos)
        &&& honest(args.last(), tokens, start)
        &&& tokens[start].kind != TokenKind::CloseParen
    }
}

/// What is wrong with the expression, where its first token is the one at `pos`:
/// a fault for each of its gaps, from left to right, which points at the token
/// that is there instead.
pub open spec fn gaps(syntax: Syntax, tokens: Seq<Token>, pos: int) -> Seq<Fault>
    decreases syntax,
{
    match syntax {
        Syntax::Int(_) => Seq::empty(),
        Syntax::Bool(_) => Seq::empty(),
        Syntax::Name(_) => Seq::empty(),
        Syntax::Group { inner, closed } => gaps(*inner, tokens, pos + 1) + unclosed(
            closed,
            tokens,
            pos + 1 + spelled(*inner).len(),
        ),
        Syntax::Prefix(_, operand) => gaps(*operand, tokens, pos + 1),
        Syntax::Borrow { mutable, operand } => if mutable {
            gaps(*operand, tokens, pos + 2)
        } else {
            gaps(*operand, tokens, pos + 1)
        },
        Syntax::Infix(lhs, _, rhs) => gaps(*lhs, tokens, pos) + gaps(
            *rhs,
            tokens,
            pos + spelled(*lhs).len() + 1,
        ),
        Syntax::Call { callee, args, trailing, closed } => {
            let start = pos + spelled(*callee).len() + 1;
            let end = start + spelled_list(args).len() + comma(trailing).len();
            gaps(*callee, tokens, pos) + gaps_in(args, tokens, start) + unclosed(
                closed,
                tokens,
                end,
            )
        },
        Syntax::Field { base, .. } => gaps(*base, tokens, pos),
        Syntax::Missing(_) => seq![
            Fault { span: tokens[pos].span, message: "expected an expression"@ },
        ],
        Syntax::Nameless { base, .. } => gaps(*base, tokens, pos).push(
            Fault {
                span: tokens[pos + spelled(*base).len() + 1].span,
                message: "expected a field name"@,
            },
        ),
    }
}

/// What is wrong with arguments, where the first token is the one at `pos`.
pub open spec fn gaps_in(args: Seq<Syntax>, tokens: Seq<Token>, pos: int) -> Seq<Fault>
    decreases args,
{
    if args.len() == 0 {
        Seq::empty()
    } else {
        let start = pos + before_last(args).len();
        gaps_in(args.drop_last(), tokens, pos) + gaps(args.last(), tokens, start)
    }
}

/// Exactly a complete expression has no gaps.
pub proof fn lemma_complete_without_gaps(syntax: Syntax, tokens: Seq<Token>, pos: int)
    ensures
        complete(syntax) <==> gaps(syntax, tokens, pos).len() == 0,
    decreases syntax,
{
    match syntax {
        Syntax::Group { inner, .. } => {
            lemma_complete_without_gaps(*inner, tokens, pos + 1);
        },
        Syntax::Prefix(_, operand) => {
            lemma_complete_without_gaps(*operand, tokens, pos + 1);
        },
        Syntax::Borrow { operand, .. } => {
            lemma_complete_without_gaps(*operand, tokens, pos + 1);
            lemma_complete_without_gaps(*operand, tokens, pos + 2);
        },
        Syntax::Infix(lhs, _, rhs) => {
            lemma_complete_without_gaps(*lhs, tokens, pos);
            lemma_complete_without_gaps(*rhs, tokens, pos + spelled(*lhs).len() + 1);
        },
        Syntax::Call { callee, args, .. } => {
            lemma_complete_without_gaps(*callee, tokens, pos);
            lemma_complete_without_gaps_in(args, tokens, pos + spelled(*callee).len() + 1);
        },
        Syntax::Field { base, .. } => {
            lemma_complete_without_gaps(*base, tokens, pos);
        },
        _ => {},
    }
}

proof fn lemma_complete_without_gaps_in(args: Seq<Syntax>, tokens: Seq<Token>, pos: int)
    ensures
        (forall|i: int| 0 <= i < args.len() ==> complete(#[trigger] args[i])) <==> gaps_in(
            args,
            tokens,
            pos,
        ).len() == 0,
    decreases args,
{
    if args.len() > 0 {
        let front = args.drop_last();
        lemma_complete_without_gaps_in(front, tokens, pos);
        lemma_complete_without_gaps(args.last(), tokens, pos + before_last(args).len());
        assert(forall|i: int| 0 <= i < front.len() ==> front[i] == #[trigger] args[i]);
        if gaps_in(args, tokens, pos).len() == 0 {
            assert forall|i: int| 0 <= i < args.len() implies complete(#[trigger] args[i]) by {
                if i < front.len() {
                    assert(complete(front[i]));
                }
            }
        }
        if forall|i: int| 0 <= i < args.len() ==> complete(#[trigger] args[i]) {
            assert(complete(args[args.len() - 1]));
            assert forall|i: int| 0 <= i < front.len() implies complete(#[trigger] front[i]) by {
                assert(complete(args[i]));
            }
        }
    }
}

/// The tokens from `pos` on are `kinds`.
pub open spec fn spells(tokens: Seq<Token>, pos: int, kinds: Seq<TokenKind>) -> bool {
    &&& 0 <= pos
    &&& pos + kinds.len() <= tokens.len()
    &&& forall|i: int| 0 <= i < kinds.len() ==> (#[trigger] tokens[pos + i]).kind == kinds[i]
}

/// The tokens of two parts follow each other.
proof fn lemma_spells_parts(
    tokens: Seq<Token>,
    pos: int,
    a: Seq<TokenKind>,
    b: Seq<TokenKind>,
)
    ensures
        spells(tokens, pos, a + b) <==> spells(tokens, pos, a) && spells(
            tokens,
            pos + a.len(),
            b,
        ),
{
    if spells(tokens, pos, a + b) {
        assert forall|i: int| 0 <= i < a.len() implies (#[trigger] tokens[pos + i]).kind
            == a[i] by {
            assert((a + b)[i] == a[i]);
        }
        assert forall|i: int| 0 <= i < b.len() implies (#[trigger] tokens[pos + a.len() + i]).kind
            == b[i] by {
            assert(tokens[pos + (a.len() + i)].kind == (a + b)[a.len() + i]);
        }
    }
    if spells(tokens, pos, a) && spells(tokens, pos + a.len(), b) {
        assert forall|i: int| 0 <= i < (a + b).len() implies (#[trigger] tokens[pos + i]).kind == (a
            + b)[i] by {
            if i >= a.len() {
                assert(tokens[pos + a.len() + (i - a.len())].kind == b[i - a.len()]);
            }
        }
    }
}

/// The first token of a complete expression is neither the word `mut` nor a
/// closing parenthesis.
proof fn lemma_first_token(syntax: Syntax)
    requires
        grammatical(syntax),
    ensures
        spelled(syntax).len() > 0,
        spelled(syntax)[0] != TokenKind::Ident(kw::MUT()),
        spelled(syntax)[0] != TokenKind::CloseParen,
        spelled(syntax)[0] != TokenKind::Eof,
    decreases syntax,
{
    broadcast use Symbol::lemma_nth;

    match syntax {
        Syntax::Infix(lhs, op, rhs) => {
            lemma_first_token(*lhs);
        },
        Syntax::Call { callee, .. } => {
            lemma_first_token(*callee);
        },
        Syntax::Field { base, name } => {
            lemma_first_token(*base);
        },
        _ => {},
    }
}

/// The tokens that stand for operators, literals and names are those that the
/// parser takes for them.
pub proof fn lemma_tables(kind: TokenKind)
    ensures
        joins(kind) <==> grammar::infix(kind) is Some,
        grammar::infix(kind) matches Some((op, power)) ==> kind == sign(op) && power == strength(
            op,
        ),
        grammar::prefix(kind) matches Some(op) ==> kind == mark(op),
        starts_nothing(kind) <==> {
            &&& grammar::atom(kind) is None
            &&& grammar::prefix(kind) is None
            &&& kind != TokenKind::And
            &&& kind != TokenKind::OpenParen
        },
        names_nothing(kind) <==> grammar::field_name(kind) is None,
{
    if let Some((op, _)) = grammar::infix(kind) {
        assert(sign(op) == kind);
    }
    if joins(kind) {
        let op = choose|op: BinOp| #[trigger] sign(op) == kind;
        assert(grammar::infix(sign(op)) is Some);
    }
}

/// The message for a parenthesis that is not there.
proof fn lemma_missing_parenthesis()
    ensures
        grammar::missing("`)`"@) == "expected `)`"@,
{
    reveal_strlit("expected ");
    reveal_strlit("`)`");
    reveal_strlit("expected `)`");
    assert(grammar::missing("`)`"@) =~= "expected `)`"@);
}

/// A complete expression has no gaps that are not there.
proof fn lemma_complete_is_honest(syntax: Syntax, tokens: Seq<Token>, pos: int)
    requires
        grammatical(syntax),
        spells(tokens, pos, spelled(syntax)),
    ensures
        honest(syntax, tokens, pos),
    decreases syntax,
{
    match syntax {
        Syntax::Group { inner, closed } => {
            let open = seq![TokenKind::OpenParen];
            lemma_spells_parts(tokens, pos, open + spelled(*inner), close(closed));
            lemma_spells_parts(tokens, pos, open, spelled(*inner));
            lemma_complete_is_honest(*inner, tokens, pos + 1);
        },
        Syntax::Prefix(op, operand) => {
            lemma_spells_parts(tokens, pos, seq![mark(op)], spelled(*operand));
            lemma_complete_is_honest(*operand, tokens, pos + 1);
        },
        Syntax::Borrow { mutable, operand } => {
            lemma_first_token(*operand);
            if mutable {
                let words = seq![TokenKind::And, TokenKind::Ident(kw::MUT())];
                lemma_spells_parts(tokens, pos, words, spelled(*operand));
                lemma_complete_is_honest(*operand, tokens, pos + 2);
            } else {
                lemma_spells_parts(tokens, pos, seq![TokenKind::And], spelled(*operand));
                assert(tokens[pos + 1 + 0].kind == spelled(*operand)[0]);
                lemma_complete_is_honest(*operand, tokens, pos + 1);
            }
        },
        Syntax::Infix(lhs, op, rhs) => {
            let first = spelled(*lhs);
            let mid = pos + first.len();
            lemma_spells_parts(tokens, pos, first + seq![sign(op)], spelled(*rhs));
            lemma_spells_parts(tokens, pos, first, seq![sign(op)]);
            lemma_complete_is_honest(*lhs, tokens, pos);
            lemma_complete_is_honest(*rhs, tokens, mid + 1);
        },
        Syntax::Call { callee, args, trailing, closed } => {
            lemma_call_parts(*callee, args, trailing, closed, tokens, pos);
            lemma_complete_is_honest(*callee, tokens, pos);
            lemma_complete_list_is_honest(args, tokens, pos + spelled(*callee).len() + 1);
        },
        Syntax::Field { base, name } => {
            let tail = seq![TokenKind::Dot, TokenKind::Ident(name)];
            lemma_spells_parts(tokens, pos, spelled(*base), tail);
            lemma_complete_is_honest(*base, tokens, pos);
        },
        _ => {},
    }
}

/// Complete arguments have no gaps that are not there.
proof fn lemma_complete_list_is_honest(args: Seq<Syntax>, tokens: Seq<Token>, pos: int)
    requires
        forall|i: int| 0 <= i < args.len() ==> well_nested(#[trigger] args[i]),
        forall|i: int| 0 <= i < args.len() ==> complete(#[trigger] args[i]),
        spells(tokens, pos, spelled_list(args)),
    ensures
        honest_list(args, tokens, pos),
    decreases args,
{
    if args.len() > 0 {
        let front = args.drop_last();
        let last = args.last();
        let start = pos + before_last(args).len();
        assert(well_nested(args[args.len() - 1]) && complete(args[args.len() - 1]));
        lemma_spells_parts(tokens, pos, before_last(args), spelled(last));
        lemma_first_token(last);
        assert(tokens[start + 0].kind == spelled(last)[0]);
        lemma_complete_is_honest(last, tokens, start);
        if args.len() > 1 {
            lemma_spells_parts(tokens, pos, spelled_list(front), seq![TokenKind::Comma]);
        }
        assert forall|i: int| 0 <= i < front.len() implies well_nested(#[trigger] front[i]) by {
            assert(front[i] == args[i]);
        }
        assert forall|i: int| 0 <= i < front.len() implies complete(#[trigger] front[i]) by {
            assert(front[i] == args[i]);
        }
        lemma_complete_list_is_honest(front, tokens, pos);
    }
}

/// What an operand with its calls and field accesses starts with is no prefix
/// operator.
proof fn lemma_no_prefix(syntax: Syntax, tokens: Seq<Token>, pos: int)
    requires
        well_nested(syntax),
        honest(syntax, tokens, pos),
        power(syntax) >= postfix_power(),
        spells(tokens, pos, spelled(syntax)),
    ensures
        grammar::prefix(tokens[pos].kind) is None,
        tokens[pos].kind != TokenKind::And,
    decreases syntax,
{
    if spelled(syntax).len() > 0 {
        assert(tokens[pos + 0].kind == spelled(syntax)[0]);
    }
    match syntax {
        Syntax::Call { callee, args, trailing, closed } => {
            lemma_call_parts(*callee, args, trailing, closed, tokens, pos);
            lemma_no_prefix(*callee, tokens, pos);
        },
        Syntax::Field { base, name } => {
            let tail = seq![TokenKind::Dot, TokenKind::Ident(name)];
            lemma_spells_parts(tokens, pos, spelled(*base), tail);
            lemma_no_prefix(*base, tokens, pos);
        },
        Syntax::Missing(Some(kind)) => {
            lemma_tables(kind);
        },
        Syntax::Nameless { base, found } => {
            let dot = seq![TokenKind::Dot];
            lemma_spells_parts(tokens, pos, spelled(*base) + dot, instead(found));
            lemma_spells_parts(tokens, pos, spelled(*base), dot);
            lemma_no_prefix(*base, tokens, pos);
        },
        _ => {},
    }
}

/// Reading came to `pos` with `tree` and without a fault.
pub open spec fn clean(tree: Tree, pos: int) -> Parsed {
    Parsed { tree, pos, faults: Seq::empty() }
}

/// What reading the expression gives, if it starts at `pos` and is read to its
/// end.
pub open spec fn reading(syntax: Syntax, tokens: Seq<Token>, pos: int) -> Parsed {
    Parsed {
        tree: meaning(syntax, tokens, pos),
        pos: pos + spelled(syntax).len(),
        faults: gaps(syntax, tokens, pos),
    }
}

/// What reading the arguments gives, if the first one starts at `pos` and all are
/// read to their end.
pub open spec fn reading_list(args: Seq<Syntax>, tokens: Seq<Token>, pos: int) -> Arguments {
    Arguments {
        trees: meanings(args, tokens, pos),
        pos: pos + spelled_list(args).len(),
        faults: gaps_in(args, tokens, pos),
    }
}

/// The tokens are those of a call: the callee, an opening parenthesis, the
/// arguments, perhaps a comma after the last one, and a closing parenthesis
/// unless it is missing.
pub open spec fn call_parts(
    callee: Syntax,
    args: Seq<Syntax>,
    trailing: bool,
    closed: bool,
    tokens: Seq<Token>,
    pos: int,
) -> bool {
    let start = pos + spelled(callee).len() + 1;
    let stop = start + spelled_list(args).len();
    let end = stop + comma(trailing).len();
    &&& spells(tokens, pos, spelled(callee))
    &&& grammar::at(tokens, start - 1, TokenKind::OpenParen)
    &&& spells(tokens, start, spelled_list(args))
    &&& end <= tokens.len()
    &&& trailing ==> grammar::at(tokens, stop, TokenKind::Comma)
    &&& closed ==> grammar::at(tokens, end, TokenKind::CloseParen)
}

proof fn lemma_call_parts(
    callee: Syntax,
    args: Seq<Syntax>,
    trailing: bool,
    closed: bool,
    tokens: Seq<Token>,
    pos: int,
)
    ensures
        ({
            let call = Syntax::Call { callee: Box::new(callee), args, trailing, closed };
            &&& spells(tokens, pos, spelled(call)) <==> call_parts(
                callee,
                args,
                trailing,
                closed,
                tokens,
                pos,
            )
            &&& spelled(call).len() == spelled(callee).len() + 1 + spelled_list(args).len()
                + comma(trailing).len() + close(closed).len()
        }),
{
    let name = spelled(callee);
    let open = seq![TokenKind::OpenParen];
    let list = spelled_list(args);
    let start = pos + name.len() + 1;
    let stop = start + list.len();
    let end = stop + comma(trailing).len();
    lemma_spells_parts(tokens, pos, name + open + list + comma(trailing), close(closed));
    lemma_spells_parts(tokens, pos, name + open + list, comma(trailing));
    lemma_spells_parts(tokens, pos, name + open, list);
    lemma_spells_parts(tokens, pos, name, open);
    lemma_spells_one(tokens, start - 1, TokenKind::OpenParen);
    lemma_spells_one(tokens, stop, TokenKind::Comma);
    lemma_spells_one(tokens, end, TokenKind::CloseParen);
}

/// A single token.
proof fn lemma_spells_one(tokens: Seq<Token>, pos: int, kind: TokenKind)
    ensures
        spells(tokens, pos, seq![kind]) <==> grammar::at(tokens, pos, kind),
{
    if spells(tokens, pos, seq![kind]) {
        assert(tokens[pos + 0].kind == seq![kind][0]);
    }
}

/// Once its arguments have been read, a call is read up to its closing
/// parenthesis, or to where that is missing.
proof fn lemma_call_reads(
    base: Parsed,
    args: Seq<Syntax>,
    trailing: bool,
    closed: bool,
    tokens: Seq<Token>,
    start: int,
)
    requires
        0 < start,
        base.pos == start - 1,
        start + spelled_list(args).len() + comma(trailing).len() < tokens.len(),
        trailing ==> args.len() > 0 && closed,
        trailing ==> grammar::at(tokens, start + spelled_list(args).len(), TokenKind::Comma),
        closed <==> grammar::at(
            tokens,
            start + spelled_list(args).len() + comma(trailing).len(),
            TokenKind::CloseParen,
        ),
        !closed ==> args.len() > 0,
        !closed ==> !grammar::at(tokens, start + spelled_list(args).len(), TokenKind::Comma),
        args.len() > 0 ==> grammar::arguments(tokens, start) == grammar::more_arguments(
            tokens,
            reading_list(args, tokens, start),
        ),
    ensures
        ({
            let end = start + spelled_list(args).len() + comma(trailing).len();
            grammar::with_call(tokens, base, grammar::arguments(tokens, start)) == (Parsed {
                tree: Tree {
                    node: Node::Call {
                        callee: Box::new(base.tree),
                        args: meanings(args, tokens, start),
                    },
                    span: base.tree.span.union(tokens[end].span),
                },
                pos: end + close(closed).len(),
                faults: base.faults + gaps_in(args, tokens, start) + unclosed(
                    closed,
                    tokens,
                    end,
                ),
            })
        }),
{
    let end = start + spelled_list(args).len() + comma(trailing).len();
    let read = grammar::arguments(tokens, start);
    if args.len() == 0 {
        assert(meanings(args, tokens, start) =~= Seq::<Tree>::empty());
        assert(gaps_in(args, tokens, start) =~= Seq::<Fault>::empty());
    }
    assert(read == (Arguments { pos: end, ..reading_list(args, tokens, start) }));
    lemma_missing_parenthesis();
    assert(grammar::lack(tokens, end, TokenKind::CloseParen, "`)`"@) =~= unclosed(
        closed,
        tokens,
        end,
    ));
}

/// An operand with its calls and field accesses is read up to its end, whatever
/// comes next.
#[verifier::rlimit(30)]
proof fn lemma_postfix_reads(syntax: Syntax, tokens: Seq<Token>, pos: int)
    requires
        token::ends_in_eof(tokens),
        well_nested(syntax),
        honest(syntax, tokens, pos),
        power(syntax) >= postfix_power(),
        spells(tokens, pos, spelled(syntax)),
        pos + spelled(syntax).len() < tokens.len(),
    ensures
        grammar::postfix(tokens, pos) == grammar::suffixes(tokens, reading(syntax, tokens, pos)),
    decreases syntax, 0nat,
{
    broadcast use Symbol::lemma_nth;

    let end = pos + spelled(syntax).len();
    if spelled(syntax).len() > 0 {
        assert(tokens[pos + 0].kind == spelled(syntax)[0]);
    }
    match syntax {
        Syntax::Int(_) => {},
        Syntax::Bool(_) => {},
        Syntax::Name(_) => {},
        Syntax::Group { inner, closed } => {
            lemma_group_reads(*inner, closed, tokens, pos);
        },
        Syntax::Call { callee, args, trailing, closed } => {
            lemma_call_parts(*callee, args, trailing, closed, tokens, pos);
            let start = pos + spelled(*callee).len() + 1;
            lemma_postfix_reads(*callee, tokens, pos);
            let base = reading(*callee, tokens, pos);
            if args.len() > 0 {
                if closed {
                    let stop = start + spelled_list(args).len();
                    lemma_tables(tokens[stop].kind);
                }
                lemma_arguments_read(args, tokens, start);
            }
            lemma_call_reads(base, args, trailing, closed, tokens, start);
        },
        Syntax::Field { base, name } => {
            let tail = seq![TokenKind::Dot, TokenKind::Ident(name)];
            lemma_spells_parts(tokens, pos, spelled(*base), tail);
            assert(tokens[end - 2 + 0].kind == tail[0]);
            assert(tokens[end - 2 + 1].kind == tail[1]);
            lemma_postfix_reads(*base, tokens, pos);
            let read = reading(*base, tokens, pos);
            assert(grammar::with_field(tokens, read) == reading(syntax, tokens, pos));
        },
        Syntax::Missing(found) => {
            if let Some(kind) = found {
                lemma_tables(kind);
            }
        },
        Syntax::Nameless { base, found } => {
            let dot = seq![TokenKind::Dot];
            let mid = pos + spelled(*base).len();
            lemma_spells_parts(tokens, pos, spelled(*base) + dot, instead(found));
            lemma_spells_parts(tokens, pos, spelled(*base), dot);
            lemma_spells_one(tokens, mid, TokenKind::Dot);
            if let Some(kind) = found {
                lemma_spells_one(tokens, mid + 1, kind);
                lemma_tables(kind);
            }
            lemma_postfix_reads(*base, tokens, pos);
            let read = reading(*base, tokens, pos);
            assert(grammar::with_field(tokens, read) == reading(syntax, tokens, pos));
        },
        _ => {},
    }
}

/// A parenthesised expression is read up to its closing parenthesis, or to where
/// that is missing.
proof fn lemma_group_reads(inner: Syntax, closed: bool, tokens: Seq<Token>, pos: int)
    requires
        token::ends_in_eof(tokens),
        well_nested(inner),
        ({
            let group = Syntax::Group { inner: Box::new(inner), closed };
            &&& honest(group, tokens, pos)
            &&& spells(tokens, pos, spelled(group))
            &&& pos + spelled(group).len() < tokens.len()
        }),
    ensures
        grammar::primary(tokens, pos) == reading(
            Syntax::Group { inner: Box::new(inner), closed },
            tokens,
            pos,
        ),
    decreases inner, 3nat,
{
    let open = seq![TokenKind::OpenParen];
    let end = pos + 1 + spelled(inner).len();
    lemma_spells_parts(tokens, pos, open + spelled(inner), close(closed));
    lemma_spells_parts(tokens, pos, open, spelled(inner));
    lemma_spells_one(tokens, pos, TokenKind::OpenParen);
    lemma_spells_one(tokens, end, TokenKind::CloseParen);
    lemma_tables(tokens[end].kind);
    lemma_binary_reads(inner, tokens, pos + 1, 0);
    assert(grammar::binary(tokens, pos + 1, 0) == reading(inner, tokens, pos + 1));
    lemma_missing_parenthesis();
    assert(grammar::lack(tokens, end, TokenKind::CloseParen, "`)`"@) =~= unclosed(
        closed,
        tokens,
        end,
    ));
}

/// Arguments are read up to the end of the last one.
proof fn lemma_arguments_read(args: Seq<Syntax>, tokens: Seq<Token>, pos: int)
    requires
        token::ends_in_eof(tokens),
        args.len() > 0,
        forall|i: int| 0 <= i < args.len() ==> well_nested(#[trigger] args[i]),
        honest_list(args, tokens, pos),
        spells(tokens, pos, spelled_list(args)),
        stuck(tokens, pos + spelled_list(args).len()),
    ensures
        grammar::arguments(tokens, pos) == grammar::more_arguments(
            tokens,
            reading_list(args, tokens, pos),
        ),
    decreases args, 3nat,
{
    let last = args.last();
    let start = pos + before_last(args).len();
    let end = pos + spelled_list(args).len();
    assert(well_nested(args[args.len() - 1]));
    lemma_spells_parts(tokens, pos, before_last(args), spelled(last));
    lemma_tables(tokens[end].kind);
    lemma_binary_reads(last, tokens, start, 0);
    let next = grammar::binary(tokens, start, 0);
    assert(next == reading(last, tokens, start));
    let done = reading_list(args, tokens, pos);
    if args.len() == 1 {
        assert(meanings(args.drop_last(), tokens, pos) =~= Seq::<Tree>::empty());
        assert(gaps_in(args.drop_last(), tokens, pos) =~= Seq::<Fault>::empty());
        let none = grammar::no_arguments(pos);
        assert(grammar::with_argument(tokens, none, pos, next) == done);
    } else {
        let front = args.drop_last();
        lemma_spells_parts(tokens, pos, spelled_list(front), seq![TokenKind::Comma]);
        lemma_spells_one(tokens, start - 1, TokenKind::Comma);
        lemma_tables(TokenKind::Comma);
        assert forall|i: int| 0 <= i < front.len() implies well_nested(#[trigger] front[i]) by {
            assert(front[i] == args[i]);
        }
        lemma_arguments_read(front, tokens, pos);
        let read = reading_list(front, tokens, pos);
        assert(grammar::with_argument(tokens, read, start, next) == done);
    }
}

/// An operand with its prefix operators is read up to its end, unless a call or
/// a field access follows.
proof fn lemma_unary_reads(syntax: Syntax, tokens: Seq<Token>, pos: int)
    requires
        token::ends_in_eof(tokens),
        well_nested(syntax),
        honest(syntax, tokens, pos),
        power(syntax) >= prefix_power(),
        spells(tokens, pos, spelled(syntax)),
        pos + spelled(syntax).len() < tokens.len(),
        !grammar::at(tokens, pos + spelled(syntax).len(), TokenKind::OpenParen),
        !grammar::at(tokens, pos + spelled(syntax).len(), TokenKind::Dot),
    ensures
        grammar::unary(tokens, pos) == reading(syntax, tokens, pos),
    decreases syntax, 1nat,
{
    match syntax {
        Syntax::Prefix(op, operand) => {
            assert(tokens[pos + 0].kind == spelled(syntax)[0]);
            lemma_spells_parts(tokens, pos, seq![mark(op)], spelled(*operand));
            lemma_unary_reads(*operand, tokens, pos + 1);
        },
        Syntax::Borrow { mutable, operand } => {
            assert(tokens[pos + 0].kind == spelled(syntax)[0]);
            if mutable {
                let words = seq![TokenKind::And, TokenKind::Ident(kw::MUT())];
                lemma_spells_parts(tokens, pos, words, spelled(*operand));
                assert(tokens[pos + 1].kind == words[1]);
                lemma_unary_reads(*operand, tokens, pos + 2);
            } else {
                lemma_spells_parts(tokens, pos, seq![TokenKind::And], spelled(*operand));
                lemma_unary_reads(*operand, tokens, pos + 1);
            }
        },
        Syntax::Infix(_, _, _) => {},
        _ => {
            lemma_no_prefix(syntax, tokens, pos);
            lemma_postfix_reads(syntax, tokens, pos);
        },
    }
}

/// An expression is read up to its end, unless something follows that binds
/// tighter than the expression does.
proof fn lemma_binary_reads(syntax: Syntax, tokens: Seq<Token>, pos: int, min_power: nat)
    requires
        token::ends_in_eof(tokens),
        well_nested(syntax),
        honest(syntax, tokens, pos),
        min_power <= power(syntax),
        spells(tokens, pos, spelled(syntax)),
        pos + spelled(syntax).len() < tokens.len(),
        !grammar::at(tokens, pos + spelled(syntax).len(), TokenKind::OpenParen),
        !grammar::at(tokens, pos + spelled(syntax).len(), TokenKind::Dot),
        grammar::infix(tokens[pos + spelled(syntax).len()].kind) matches Some((_, next)) ==> next
            <= power(syntax),
    ensures
        grammar::binary(tokens, pos, min_power) == grammar::climb(
            tokens,
            reading(syntax, tokens, pos),
            min_power,
        ),
    decreases syntax, 2nat,
{
    match syntax {
        Syntax::Infix(lhs, op, rhs) => {
            let first = spelled(*lhs);
            let second = spelled(*rhs);
            let mid = pos + first.len();
            lemma_spells_parts(tokens, pos, first + seq![sign(op)], second);
            lemma_spells_parts(tokens, pos, first, seq![sign(op)]);
            assert(tokens[mid + 0].kind == seq![sign(op)][0]);
            assert(grammar::infix(sign(op)) == Some((op, strength(op))));
            lemma_binary_reads(*lhs, tokens, pos, min_power);
            lemma_binary_reads(*rhs, tokens, mid + 1, strength(op) + 1);
            let left = reading(*lhs, tokens, pos);
            let right = grammar::binary(tokens, mid + 1, strength(op) + 1);
            assert(right == reading(*rhs, tokens, mid + 1));
            assert(grammar::with_operand(tokens, left, op, right) == reading(
                syntax,
                tokens,
                pos,
            ));
        },
        _ => {
            lemma_unary_reads(syntax, tokens, pos);
        },
    }
}

/// What an expression is read as does not depend on where in the stream it
/// stands, as long as the stream does not go on with it.
pub proof fn lemma_reading_from_anywhere(syntax: Syntax, tokens: Seq<Token>, pos: int)
    requires
        token::ends_in_eof(tokens),
        well_nested(syntax),
        honest(syntax, tokens, pos),
        spells(tokens, pos, spelled(syntax)),
        stuck(tokens, pos + spelled(syntax).len()),
    ensures
        grammar::binary(tokens, pos, 0) == reading(syntax, tokens, pos),
{
    lemma_tables(tokens[pos + spelled(syntax).len()].kind);
    lemma_binary_reads(syntax, tokens, pos, 0);
}

/// Wherever reading starts, what is read is such an expression.
pub proof fn lemma_something_is_read_anywhere(tokens: Seq<Token>, pos: int) -> (syntax: Syntax)
    requires
        token::ends_in_eof(tokens),
        0 <= pos < tokens.len(),
    ensures
        well_nested(syntax),
        honest(syntax, tokens, pos),
        spells(tokens, pos, spelled(syntax)),
        stuck(tokens, pos + spelled(syntax).len()),
        grammar::binary(tokens, pos, 0) == reading(syntax, tokens, pos),
{
    lemma_binary_stops(tokens, pos, 0);
    lemma_binary_was_written(tokens, pos, 0)
}

/// Reading is determined by the stream: an expression that starts a stream, that
/// nests the way the language wants it, whose gaps are gaps of the stream, and
/// that the stream does not go on with, is what is read. The tree is what it
/// means, and the faults are its gaps, followed by one more if something is left
/// over.
pub proof fn lemma_reading_is_determined(syntax: Syntax, tokens: Seq<Token>)
    requires
        token::ends_in_eof(tokens),
        well_nested(syntax),
        honest(syntax, tokens, 0),
        spells(tokens, 0, spelled(syntax)),
        stuck(tokens, spelled(syntax).len() as int),
    ensures
        grammar::parsing(tokens).tree == meaning(syntax, tokens, 0),
        grammar::parsing(tokens).pos == spelled(syntax).len(),
        grammar::parsing(tokens).faults == if tokens[spelled(syntax).len() as int].kind
            == TokenKind::Eof {
            gaps(syntax, tokens, 0)
        } else {
            gaps(syntax, tokens, 0).push(
                Fault {
                    span: tokens[spelled(syntax).len() as int].span,
                    message: "unexpected token after expression"@,
                },
            )
        },
{
    lemma_reading_from_anywhere(syntax, tokens, 0);
}

/// Whatever is written the way the language wants it is read without a fault,
/// and read as what it means.
pub proof fn lemma_what_is_written_is_read(syntax: Syntax, tokens: Seq<Token>)
    requires
        grammatical(syntax),
        spells(tokens, 0, spelled(syntax).push(TokenKind::Eof)),
        tokens.len() == spelled(syntax).len() + 1,
    ensures
        grammar::parsing(tokens) == clean(
            meaning(syntax, tokens, 0),
            spelled(syntax).len() as int,
        ),
{
    let end = spelled(syntax).len() as int;
    assert(spelled(syntax).push(TokenKind::Eof) =~= spelled(syntax) + seq![TokenKind::Eof]);
    lemma_spells_parts(tokens, 0, spelled(syntax), seq![TokenKind::Eof]);
    assert(tokens[end + 0].kind == seq![TokenKind::Eof][0]);
    lemma_tables(TokenKind::Eof);
    lemma_complete_is_honest(syntax, tokens, 0);
    lemma_reading_is_determined(syntax, tokens);
    lemma_complete_without_gaps(syntax, tokens, 0);
    assert(gaps(syntax, tokens, 0) =~= Seq::empty());
}

/// Reading calls and field accesses stops only where there is neither.
proof fn lemma_suffixes_stop(tokens: Seq<Token>, base: Parsed)
    requires
        token::ends_in_eof(tokens),
        0 <= base.pos < tokens.len(),
    ensures
        !grammar::at(tokens, grammar::suffixes(tokens, base).pos, TokenKind::OpenParen),
        !grammar::at(tokens, grammar::suffixes(tokens, base).pos, TokenKind::Dot),
    decreases tokens.len() - base.pos,
{
    if grammar::at(tokens, base.pos, TokenKind::OpenParen) {
        let read = grammar::arguments(tokens, base.pos + 1);
        grammar::lemma_arguments_move(tokens, base.pos + 1);
        lemma_suffixes_stop(tokens, grammar::with_call(tokens, base, read));
    } else if grammar::at(tokens, base.pos, TokenKind::Dot) {
        lemma_suffixes_stop(tokens, grammar::with_field(tokens, base));
    }
}

/// Reading an operand stops only where neither a call nor a field access follows.
proof fn lemma_unary_stops(tokens: Seq<Token>, pos: int)
    requires
        token::ends_in_eof(tokens),
        0 <= pos < tokens.len(),
    ensures
        !grammar::at(tokens, grammar::unary(tokens, pos).pos, TokenKind::OpenParen),
        !grammar::at(tokens, grammar::unary(tokens, pos).pos, TokenKind::Dot),
    decreases tokens.len() - pos,
{
    if grammar::at(tokens, pos, TokenKind::And) {
        if grammar::at(tokens, pos + 1, TokenKind::Ident(kw::MUT())) {
            lemma_unary_stops(tokens, pos + 2);
        } else {
            lemma_unary_stops(tokens, pos + 1);
        }
    } else if grammar::prefix(tokens[pos].kind) is Some {
        lemma_unary_stops(tokens, pos + 1);
    } else {
        let base = grammar::primary(tokens, pos);
        grammar::lemma_primary_moves(tokens, pos);
        assert(grammar::postfix(tokens, pos) == grammar::suffixes(tokens, base));
        lemma_suffixes_stop(tokens, base);
    }
}

/// Reading an expression stops only where neither a call nor a field access
/// follows, nor an operator that binds tightly enough.
proof fn lemma_binary_stops(tokens: Seq<Token>, pos: int, min_power: nat)
    requires
        token::ends_in_eof(tokens),
        0 <= pos < tokens.len(),
    ensures
        ({
            let end = grammar::binary(tokens, pos, min_power).pos;
            &&& !grammar::at(tokens, end, TokenKind::OpenParen)
            &&& !grammar::at(tokens, end, TokenKind::Dot)
            &&& grammar::infix(tokens[end].kind) matches Some((_, power)) ==> power < min_power
            &&& min_power == 0 ==> stuck(tokens, end)
        }),
    decreases tokens.len() - pos, 1nat,
{
    grammar::lemma_unary_moves(tokens, pos);
    grammar::lemma_binary_moves(tokens, pos, min_power);
    lemma_unary_stops(tokens, pos);
    lemma_climb_stops(tokens, grammar::unary(tokens, pos), min_power);
    lemma_tables(tokens[grammar::binary(tokens, pos, min_power).pos].kind);
}

/// Reading infix operators stops only at one that binds too loosely.
proof fn lemma_climb_stops(tokens: Seq<Token>, lhs: Parsed, min_power: nat)
    requires
        token::ends_in_eof(tokens),
        0 <= lhs.pos < tokens.len(),
        !grammar::at(tokens, lhs.pos, TokenKind::OpenParen),
        !grammar::at(tokens, lhs.pos, TokenKind::Dot),
    ensures
        ({
            let end = grammar::climb(tokens, lhs, min_power).pos;
            &&& !grammar::at(tokens, end, TokenKind::OpenParen)
            &&& !grammar::at(tokens, end, TokenKind::Dot)
            &&& grammar::infix(tokens[end].kind) matches Some((_, power)) ==> power < min_power
        }),
    decreases tokens.len() - lhs.pos, 0nat,
{
    if let Some((op, power)) = grammar::infix(tokens[lhs.pos].kind) {
        if power >= min_power {
            let rhs = grammar::binary(tokens, lhs.pos + 1, power + 1);
            grammar::lemma_binary_moves(tokens, lhs.pos + 1, power + 1);
            lemma_binary_stops(tokens, lhs.pos + 1, power + 1);
            lemma_climb_stops(tokens, grammar::with_operand(tokens, lhs, op, rhs), min_power);
        }
    }
}

/// `syntax` is what was read from `pos` on, and gave `parsed`.
pub open spec fn written_as(
    parsed: Parsed,
    tokens: Seq<Token>,
    pos: int,
    syntax: Syntax,
) -> bool {
    &&& well_nested(syntax)
    &&& honest(syntax, tokens, pos)
    &&& spells(tokens, pos, spelled(syntax))
    &&& parsed == reading(syntax, tokens, pos)
}

/// `args` is what was read from `pos` on, and gave `read`.
pub open spec fn listed_as(
    read: Arguments,
    tokens: Seq<Token>,
    pos: int,
    args: Seq<Syntax>,
) -> bool {
    &&& forall|i: int| 0 <= i < args.len() ==> well_nested(#[trigger] args[i])
    &&& honest_list(args, tokens, pos)
    &&& spells(tokens, pos, spelled_list(args))
    &&& read == reading_list(args, tokens, pos)
}

/// What was read as a primary expression was written as one, or is missing.
proof fn lemma_primary_was_written(tokens: Seq<Token>, pos: int) -> (syntax: Syntax)
    requires
        token::ends_in_eof(tokens),
        0 <= pos < tokens.len(),
        grammar::prefix(tokens[pos].kind) is None,
        tokens[pos].kind != TokenKind::And,
    ensures
        written_as(grammar::primary(tokens, pos), tokens, pos, syntax),
        power(syntax) >= postfix_power(),
    decreases tokens.len() - pos, 0nat,
{
    let kind = tokens[pos].kind;
    lemma_spells_one(tokens, pos, kind);
    lemma_tables(kind);
    if grammar::atom(kind) is Some {
        assert(grammar::primary(tokens, pos).faults =~= Seq::empty());
        match grammar::atom(kind)->0 {
            Node::Int(symbol) => Syntax::Int(symbol),
            Node::Bool(value) => Syntax::Bool(value),
            Node::Path(symbol) => Syntax::Name(symbol),
            _ => Syntax::Missing(None),
        }
    } else if kind == TokenKind::OpenParen {
        grammar::lemma_binary_moves(tokens, pos + 1, 0);
        lemma_binary_stops(tokens, pos + 1, 0);
        let read = grammar::binary(tokens, pos + 1, 0);
        let inner = lemma_binary_was_written(tokens, pos + 1, 0);
        let closed = grammar::at(tokens, read.pos, TokenKind::CloseParen);
        let open = seq![TokenKind::OpenParen];
        lemma_spells_one(tokens, read.pos, TokenKind::CloseParen);
        lemma_spells_parts(tokens, pos, open, spelled(inner));
        lemma_spells_parts(tokens, pos, open + spelled(inner), close(closed));
        lemma_missing_parenthesis();
        assert(grammar::lack(tokens, read.pos, TokenKind::CloseParen, "`)`"@) =~= unclosed(
            closed,
            tokens,
            read.pos,
        ));
        Syntax::Group { inner: Box::new(inner), closed }
    } else if kind == TokenKind::Eof {
        Syntax::Missing(None)
    } else {
        Syntax::Missing(Some(kind))
    }
}

/// What was read as calls and field accesses was written as such.
#[verifier::rlimit(30)]
proof fn lemma_suffixes_were_written(
    tokens: Seq<Token>,
    pos: int,
    base: Parsed,
    first: Syntax,
) -> (syntax: Syntax)
    requires
        token::ends_in_eof(tokens),
        0 <= pos <= base.pos < tokens.len(),
        written_as(base, tokens, pos, first),
        power(first) >= postfix_power(),
    ensures
        written_as(grammar::suffixes(tokens, base), tokens, pos, syntax),
        power(syntax) >= postfix_power(),
    decreases tokens.len() - base.pos, 0nat,
{
    if grammar::at(tokens, base.pos, TokenKind::OpenParen) {
        let read = grammar::arguments(tokens, base.pos + 1);
        grammar::lemma_arguments_move(tokens, base.pos + 1);
        let (args, trailing) = lemma_arguments_were_written(tokens, base.pos + 1);
        let call = lemma_call_was_written(tokens, pos, base, first, args, trailing);
        lemma_suffixes_were_written(tokens, pos, grammar::with_call(tokens, base, read), call)
    } else if grammar::at(tokens, base.pos, TokenKind::Dot) {
        let field = lemma_field_was_written(tokens, pos, base, first);
        lemma_suffixes_were_written(tokens, pos, grammar::with_field(tokens, base), field)
    } else {
        first
    }
}

/// What was read as a call was written as one.
proof fn lemma_call_was_written(
    tokens: Seq<Token>,
    pos: int,
    base: Parsed,
    first: Syntax,
    args: Seq<Syntax>,
    trailing: bool,
) -> (syntax: Syntax)
    requires
        token::ends_in_eof(tokens),
        0 <= pos <= base.pos < tokens.len(),
        written_as(base, tokens, pos, first),
        power(first) >= postfix_power(),
        grammar::at(tokens, base.pos, TokenKind::OpenParen),
        base.pos < grammar::arguments(tokens, base.pos + 1).pos < tokens.len(),
        arguments_as(
            grammar::arguments(tokens, base.pos + 1),
            tokens,
            base.pos + 1,
            args,
            trailing,
        ),
        open_ended(tokens, grammar::arguments(tokens, base.pos + 1).pos, args),
    ensures
        written_as(
            grammar::with_call(tokens, base, grammar::arguments(tokens, base.pos + 1)),
            tokens,
            pos,
            syntax,
        ),
        power(syntax) >= postfix_power(),
{
    let read = grammar::arguments(tokens, base.pos + 1);
    let closed = grammar::at(tokens, read.pos, TokenKind::CloseParen);
    let call = Syntax::Call { callee: Box::new(first), args, trailing, closed };
    lemma_call_parts(first, args, trailing, closed, tokens, pos);
    lemma_missing_parenthesis();
    assert(grammar::lack(tokens, read.pos, TokenKind::CloseParen, "`)`"@) =~= unclosed(
        closed,
        tokens,
        read.pos,
    ));
    call
}

/// What was read as a field access was written as one, or its name is missing.
proof fn lemma_field_was_written(
    tokens: Seq<Token>,
    pos: int,
    base: Parsed,
    first: Syntax,
) -> (syntax: Syntax)
    requires
        token::ends_in_eof(tokens),
        0 <= pos <= base.pos < tokens.len(),
        written_as(base, tokens, pos, first),
        power(first) >= postfix_power(),
        grammar::at(tokens, base.pos, TokenKind::Dot),
    ensures
        written_as(grammar::with_field(tokens, base), tokens, pos, syntax),
        power(syntax) >= postfix_power(),
{
    let kind = tokens[base.pos + 1].kind;
    let dot = seq![TokenKind::Dot];
    lemma_spells_one(tokens, base.pos, TokenKind::Dot);
    lemma_spells_one(tokens, base.pos + 1, kind);
    lemma_tables(kind);
    match grammar::field_name(kind) {
        Some(name) => {
            let tail = seq![TokenKind::Dot, TokenKind::Ident(name)];
            lemma_spells_parts(tokens, base.pos, dot, seq![kind]);
            assert(dot + seq![kind] =~= tail);
            lemma_spells_parts(tokens, pos, spelled(first), tail);
            Syntax::Field { base: Box::new(first), name }
        },
        None => {
            let found = if kind == TokenKind::Eof {
                None
            } else {
                Some(kind)
            };
            lemma_spells_parts(tokens, pos, spelled(first), dot);
            lemma_spells_parts(tokens, pos, spelled(first) + dot, instead(found));
            Syntax::Nameless { base: Box::new(first), found }
        },
    }
}

/// `args` is what was read from `pos` on, with a comma after the last argument if
/// `trailing`, and gave `read`.
pub open spec fn arguments_as(
    read: Arguments,
    tokens: Seq<Token>,
    pos: int,
    args: Seq<Syntax>,
    trailing: bool,
) -> bool {
    if trailing {
        &&& args.len() > 0
        &&& grammar::at(tokens, read.pos - 1, TokenKind::Comma)
        &&& grammar::at(tokens, read.pos, TokenKind::CloseParen)
        &&& listed_as(Arguments { pos: read.pos - 1, ..read }, tokens, pos, args)
    } else {
        listed_as(read, tokens, pos, args)
    }
}

/// Unless a closing parenthesis is at `pos`, the arguments that end there are not
/// followed by anything that goes on with them.
pub open spec fn open_ended(tokens: Seq<Token>, pos: int, args: Seq<Syntax>) -> bool {
    !grammar::at(tokens, pos, TokenKind::CloseParen) ==> {
        &&& args.len() > 0
        &&& stuck(tokens, pos)
        &&& !grammar::at(tokens, pos, TokenKind::Comma)
    }
}

/// What was read as an argument list was written as one, with or without a comma
/// after the last argument.
proof fn lemma_arguments_were_written(tokens: Seq<Token>, pos: int) -> (list: (Seq<Syntax>, bool))
    requires
        token::ends_in_eof(tokens),
        0 <= pos < tokens.len(),
    ensures
        arguments_as(grammar::arguments(tokens, pos), tokens, pos, list.0, list.1),
        open_ended(tokens, grammar::arguments(tokens, pos).pos, list.0),
    decreases tokens.len() - pos, 4nat,
{
    let none = grammar::no_arguments(pos);
    if grammar::at(tokens, pos, TokenKind::CloseParen) {
        assert(meanings(seq![], tokens, pos) =~= Seq::<Tree>::empty());
        (seq![], false)
    } else {
        let first = grammar::binary(tokens, pos, 0);
        let read = grammar::with_argument(tokens, none, pos, first);
        grammar::lemma_binary_moves(tokens, pos, 0);
        lemma_binary_stops(tokens, pos, 0);
        let syntax = lemma_binary_was_written(tokens, pos, 0);
        let args = seq![syntax];
        assert(args.drop_last() =~= Seq::<Syntax>::empty());
        assert(before_last(args) + spelled(args.last()) =~= spelled(syntax));
        assert(meanings(args.drop_last(), tokens, pos) =~= Seq::<Tree>::empty());
        assert(gaps_in(args.drop_last(), tokens, pos) =~= Seq::<Fault>::empty());
        assert(meanings(args, tokens, pos) =~= none.trees.push(first.tree));
        assert(honest_list(args.drop_last(), tokens, pos));
        lemma_more_arguments_were_written(tokens, pos, read, args)
    }
}

/// What was read as further arguments was written as such.
proof fn lemma_more_arguments_were_written(
    tokens: Seq<Token>,
    pos: int,
    read: Arguments,
    args: Seq<Syntax>,
) -> (list: (Seq<Syntax>, bool))
    requires
        token::ends_in_eof(tokens),
        0 <= pos <= read.pos < tokens.len(),
        args.len() > 0,
        listed_as(read, tokens, pos, args),
        stuck(tokens, read.pos),
    ensures
        arguments_as(grammar::more_arguments(tokens, read), tokens, pos, list.0, list.1),
        open_ended(tokens, grammar::more_arguments(tokens, read).pos, list.0),
    decreases tokens.len() - read.pos, 0nat,
{
    if !grammar::at(tokens, read.pos, TokenKind::Comma) {
        (args, false)
    } else if grammar::at(tokens, read.pos + 1, TokenKind::CloseParen) {
        (args, true)
    } else {
        let start = read.pos + 1;
        let next = grammar::binary(tokens, start, 0);
        let more = grammar::with_argument(tokens, read, start, next);
        grammar::lemma_binary_moves(tokens, start, 0);
        lemma_binary_stops(tokens, start, 0);
        let syntax = lemma_binary_was_written(tokens, start, 0);
        let longer = args.push(syntax);
        let separator = seq![TokenKind::Comma];
        assert(longer.drop_last() =~= args);
        lemma_spells_one(tokens, read.pos, TokenKind::Comma);
        lemma_spells_parts(tokens, pos, spelled_list(args), separator);
        lemma_spells_parts(tokens, pos, spelled_list(args) + separator, spelled(syntax));
        assert forall|i: int| 0 <= i < longer.len() implies well_nested(#[trigger] longer[i]) by {
            if i < args.len() {
                assert(longer[i] == args[i]);
            }
        }
        lemma_more_arguments_were_written(tokens, pos, more, longer)
    }
}

/// What was read as an operand with its prefix operators was written as one.
#[verifier::rlimit(30)]
proof fn lemma_unary_was_written(tokens: Seq<Token>, pos: int) -> (syntax: Syntax)
    requires
        token::ends_in_eof(tokens),
        0 <= pos < tokens.len(),
    ensures
        written_as(grammar::unary(tokens, pos), tokens, pos, syntax),
        power(syntax) >= prefix_power(),
    decreases tokens.len() - pos, 2nat,
{
    let kind = tokens[pos].kind;
    lemma_spells_one(tokens, pos, kind);
    if kind == TokenKind::And {
        let mutable = grammar::at(tokens, pos + 1, TokenKind::Ident(kw::MUT()));
        let (start, words) = if mutable {
            (pos + 2, seq![TokenKind::And, TokenKind::Ident(kw::MUT())])
        } else {
            (pos + 1, seq![TokenKind::And])
        };
        let operand = lemma_unary_was_written(tokens, start);
        assert(spells(tokens, pos, words));
        lemma_spells_parts(tokens, pos, words, spelled(operand));
        Syntax::Borrow { mutable, operand: Box::new(operand) }
    } else if grammar::prefix(kind) is Some {
        let op = grammar::prefix(kind)->0;
        let operand = lemma_unary_was_written(tokens, pos + 1);
        lemma_tables(kind);
        lemma_spells_parts(tokens, pos, seq![kind], spelled(operand));
        Syntax::Prefix(op, Box::new(operand))
    } else {
        let base = grammar::primary(tokens, pos);
        grammar::lemma_primary_moves(tokens, pos);
        assert(grammar::postfix(tokens, pos) == grammar::suffixes(tokens, base));
        let first = lemma_primary_was_written(tokens, pos);
        lemma_suffixes_were_written(tokens, pos, base, first)
    }
}

/// What was read as an expression was written as one.
proof fn lemma_binary_was_written(
    tokens: Seq<Token>,
    pos: int,
    min_power: nat,
) -> (syntax: Syntax)
    requires
        token::ends_in_eof(tokens),
        0 <= pos < tokens.len(),
        min_power <= prefix_power(),
    ensures
        written_as(grammar::binary(tokens, pos, min_power), tokens, pos, syntax),
        power(syntax) >= min_power,
    decreases tokens.len() - pos, 3nat,
{
    let first = grammar::unary(tokens, pos);
    grammar::lemma_unary_moves(tokens, pos);
    let syntax = lemma_unary_was_written(tokens, pos);
    lemma_climb_was_written(tokens, pos, first, syntax, min_power)
}

/// What was read as infix operators and their operands was written as such.
proof fn lemma_climb_was_written(
    tokens: Seq<Token>,
    pos: int,
    lhs: Parsed,
    first: Syntax,
    min_power: nat,
) -> (syntax: Syntax)
    requires
        token::ends_in_eof(tokens),
        0 <= pos <= lhs.pos < tokens.len(),
        written_as(lhs, tokens, pos, first),
        power(first) >= min_power,
        grammar::infix(tokens[lhs.pos].kind) matches Some((_, next)) ==> next <= power(first),
    ensures
        written_as(grammar::climb(tokens, lhs, min_power), tokens, pos, syntax),
        power(syntax) >= min_power,
    decreases tokens.len() - lhs.pos, 0nat,
{
    match grammar::infix(tokens[lhs.pos].kind) {
        Some((op, next)) => if next < min_power {
            first
        } else {
            let kind = tokens[lhs.pos].kind;
            let rhs = grammar::binary(tokens, lhs.pos + 1, next + 1);
            let both = grammar::with_operand(tokens, lhs, op, rhs);
            lemma_tables(kind);
            grammar::lemma_binary_moves(tokens, lhs.pos + 1, next + 1);
            let second = lemma_binary_was_written(tokens, lhs.pos + 1, next + 1);
            lemma_binary_stops(tokens, lhs.pos + 1, next + 1);
            lemma_spells_one(tokens, lhs.pos, kind);
            lemma_spells_parts(tokens, pos, spelled(first), seq![kind]);
            lemma_spells_parts(tokens, pos, spelled(first) + seq![kind], spelled(second));
            let syntax = Syntax::Infix(Box::new(first), op, Box::new(second));
            lemma_climb_was_written(tokens, pos, both, syntax, min_power)
        },
        None => first,
    }
}

/// Whatever the stream, what is read from it is an expression, perhaps with gaps,
/// whose operators nest the way the language wants it, whose gaps are gaps of the
/// stream, and which the stream does not go on with. It is written with the
/// tokens up to where reading stops, the tree is what it means, and the faults
/// are its gaps, followed by one more if reading stops short of the end.
pub proof fn lemma_whatever_is_there_is_read(tokens: Seq<Token>) -> (syntax: Syntax)
    requires
        token::ends_in_eof(tokens),
    ensures
        well_nested(syntax),
        honest(syntax, tokens, 0),
        spells(tokens, 0, spelled(syntax)),
        spelled(syntax).len() < tokens.len(),
        stuck(tokens, spelled(syntax).len() as int),
        grammar::parsing(tokens).tree == meaning(syntax, tokens, 0),
        grammar::parsing(tokens).pos == spelled(syntax).len(),
        grammar::parsing(tokens).faults == if grammar::at(
            tokens,
            spelled(syntax).len() as int,
            TokenKind::Eof,
        ) {
            gaps(syntax, tokens, 0)
        } else {
            gaps(syntax, tokens, 0).push(
                Fault {
                    span: tokens[spelled(syntax).len() as int].span,
                    message: "unexpected token after expression"@,
                },
            )
        },
{
    lemma_something_is_read_anywhere(tokens, 0)
}

/// Whatever is read without a fault was written the way the language wants it,
/// from the first token to the end.
pub proof fn lemma_what_is_read_was_written(tokens: Seq<Token>) -> (syntax: Syntax)
    requires
        token::ends_in_eof(tokens),
        grammar::parsing(tokens).faults.len() == 0,
    ensures
        grammatical(syntax),
        spells(tokens, 0, spelled(syntax).push(TokenKind::Eof)),
        grammar::parsing(tokens) == clean(
            meaning(syntax, tokens, 0),
            spelled(syntax).len() as int,
        ),
{
    let syntax = lemma_whatever_is_there_is_read(tokens);
    let end = spelled(syntax).len() as int;
    lemma_complete_without_gaps(syntax, tokens, 0);
    assert(gaps(syntax, tokens, 0) =~= Seq::empty());
    lemma_spells_one(tokens, end, TokenKind::Eof);
    lemma_spells_parts(tokens, 0, spelled(syntax), seq![TokenKind::Eof]);
    assert(spelled(syntax).push(TokenKind::Eof) =~= spelled(syntax) + seq![TokenKind::Eof]);
    syntax
}

/// The grammar is unambiguous: two expressions that are written with the same
/// tokens mean the same.
pub proof fn lemma_unambiguous(a: Syntax, b: Syntax, tokens: Seq<Token>)
    requires
        grammatical(a),
        grammatical(b),
        spelled(a) == spelled(b),
        spells(tokens, 0, spelled(a).push(TokenKind::Eof)),
        tokens.len() == spelled(a).len() + 1,
    ensures
        meaning(a, tokens, 0) == meaning(b, tokens, 0),
{
    lemma_what_is_written_is_read(a, tokens);
    lemma_what_is_written_is_read(b, tokens);
}

/// An expression reaches from its first token to its last.
#[verifier::rlimit(30)]
proof fn lemma_meaning_span(syntax: Syntax, tokens: Seq<Token>, pos: int)
    requires
        grammatical(syntax),
        token::in_order(tokens),
        0 <= pos,
        pos + spelled(syntax).len() <= tokens.len(),
    ensures
        spelled(syntax).len() > 0,
        meaning(syntax, tokens, pos).span.lo() == tokens[pos].span.lo(),
        meaning(syntax, tokens, pos).span.hi() == tokens[pos + spelled(syntax).len()
            - 1].span.hi(),
    decreases syntax,
{
    broadcast use Span::lemma_of;

    let end = pos + spelled(syntax).len() - 1;
    lemma_first_token(syntax);
    token::laws::lemma_tokens_advance(tokens, pos, end);
    match syntax {
        Syntax::Group { .. } => {},
        Syntax::Prefix(_, operand) => {
            lemma_meaning_span(*operand, tokens, pos + 1);
            token::laws::lemma_tokens_advance(tokens, pos, pos + 1);
        },
        Syntax::Borrow { mutable, operand } => {
            let start = if mutable {
                pos + 2
            } else {
                pos + 1
            };
            lemma_meaning_span(*operand, tokens, start);
            token::laws::lemma_tokens_advance(tokens, pos, start);
        },
        Syntax::Infix(lhs, _, rhs) => {
            let mid = pos + spelled(*lhs).len();
            lemma_meaning_span(*lhs, tokens, pos);
            lemma_meaning_span(*rhs, tokens, mid + 1);
            token::laws::lemma_tokens_advance(tokens, pos, mid + 1);
            token::laws::lemma_tokens_advance(tokens, mid - 1, end);
        },
        Syntax::Call { callee, .. } => {
            lemma_meaning_span(*callee, tokens, pos);
            token::laws::lemma_tokens_advance(tokens, pos + spelled(*callee).len() - 1, end);
        },
        Syntax::Field { base, name } => {
            lemma_meaning_span(*base, tokens, pos);
            token::laws::lemma_tokens_advance(tokens, pos + spelled(*base).len() - 1, end);
        },
        _ => {},
    }
}

/// Where nothing is wrong, the span of the whole expression reaches from the
/// first token to the last one before the end, parentheses included.
pub proof fn lemma_span_reaches_from_first_to_last(tokens: Seq<Token>)
    requires
        token::ends_in_eof(tokens),
        token::in_order(tokens),
        grammar::parsing(tokens).faults.len() == 0,
    ensures
        0 < grammar::parsing(tokens).pos < tokens.len(),
        grammar::at(tokens, grammar::parsing(tokens).pos, TokenKind::Eof),
        grammar::parsing(tokens).tree.span == tokens[0].span.union(
            tokens[grammar::parsing(tokens).pos - 1].span,
        ),
{
    broadcast use Span::lemma_of;

    let syntax = lemma_what_is_read_was_written(tokens);
    let end = spelled(syntax).len() as int;
    assert(tokens[0 + end].kind == spelled(syntax).push(TokenKind::Eof)[end]);
    lemma_meaning_span(syntax, tokens, 0);
    token::laws::lemma_tokens_advance(tokens, 0, end - 1);
    Span::lemma_ends_determine(
        grammar::parsing(tokens).tree.span,
        tokens[0].span.union(tokens[end - 1].span),
    );
}

} // verus!
