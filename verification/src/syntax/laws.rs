//! What the tree of an expression says of the tokens it was read from.
//!
//! A tree is written out again, token by token, and held against the stream: each
//! literal, name and operator in it stands in the stream, in that order, and
//! where nothing is wrong the stream holds nothing else but parentheses and
//! commas.
use crate::ast::{BinOp, Node, Tree, UnOp};
use crate::grammar;
use crate::grammar::Fault;
use crate::symbol::{kw, Symbol, KEYWORD_COUNT};
use crate::syntax;
use crate::syntax::Syntax;
use crate::token;
use crate::token::{Token, TokenKind};
use vstd::prelude::*;

verus! {

/// The tokens that the tree stands for, from left to right. Parentheses and
/// commas have no node of their own.
pub open spec fn ink(tree: Tree) -> Seq<TokenKind>
    decreases tree,
{
    match tree.node {
        Node::Int(symbol) => seq![TokenKind::Int(symbol)],
        Node::Bool(true) => seq![TokenKind::Ident(kw::TRUE())],
        Node::Bool(false) => seq![TokenKind::Ident(kw::FALSE())],
        Node::Path(symbol) => seq![TokenKind::Ident(symbol)],
        Node::Unary(UnOp::Neg, operand) => seq![TokenKind::Minus] + ink(*operand),
        Node::Unary(UnOp::Not, operand) => seq![TokenKind::Bang] + ink(*operand),
        Node::Unary(UnOp::Deref, operand) => seq![TokenKind::Star] + ink(*operand),
        Node::Borrow { mutable: true, operand } => seq![
            TokenKind::And,
            TokenKind::Ident(kw::MUT()),
        ] + ink(*operand),
        Node::Borrow { mutable: false, operand } => seq![TokenKind::And] + ink(*operand),
        Node::Binary(op, lhs, rhs) => ink(*lhs) + seq![syntax::sign(op)] + ink(*rhs),
        Node::Call { callee, args } => ink(*callee) + ink_all(args),
        Node::Field { base, name } => ink(*base) + seq![TokenKind::Dot, TokenKind::Ident(name)],
        Node::Error => seq![],
    }
}

/// The tokens that the trees stand for, one tree after the other.
pub open spec fn ink_all(trees: Seq<Tree>) -> Seq<TokenKind>
    decreases trees,
{
    if trees.len() == 0 {
        seq![]
    } else {
        ink_all(trees.drop_last()) + ink(trees.last())
    }
}

/// `kind` only holds an expression together.
pub open spec fn bracket(kind: TokenKind) -> bool {
    kind == TokenKind::OpenParen || kind == TokenKind::CloseParen || kind == TokenKind::Comma
}

/// What is left of `kinds` without parentheses and commas.
pub open spec fn unbracketed(kinds: Seq<TokenKind>) -> Seq<TokenKind>
    decreases kinds.len(),
{
    if kinds.len() == 0 {
        seq![]
    } else if bracket(kinds.last()) {
        unbracketed(kinds.drop_last())
    } else {
        unbracketed(kinds.drop_last()).push(kinds.last())
    }
}

/// The kinds of the tokens in front of `end`.
pub open spec fn kinds(tokens: Seq<Token>, end: int) -> Seq<TokenKind> {
    Seq::new(end as nat, |i: int| tokens[i].kind)
}

proof fn lemma_unbracketed_both(a: Seq<TokenKind>, b: Seq<TokenKind>)
    ensures
        unbracketed(a + b) == unbracketed(a) + unbracketed(b),
    decreases b.len(),
{
    if b.len() == 0 {
        assert(a + b =~= a);
        assert(unbracketed(a) + unbracketed(b) =~= unbracketed(a));
    } else {
        assert((a + b).drop_last() =~= a + b.drop_last());
        lemma_unbracketed_both(a, b.drop_last());
        assert(unbracketed(a + b) =~= unbracketed(a) + unbracketed(b));
    }
}

proof fn lemma_unbracketed_one(kind: TokenKind)
    ensures
        unbracketed(seq![kind]) == if bracket(kind) {
            seq![]
        } else {
            seq![kind]
        },
{
    assert(seq![kind].drop_last() =~= seq![]);
    assert(unbracketed(seq![]) =~= seq![]);
    assert(unbracketed(seq![kind]) =~= if bracket(kind) {
        seq![]
    } else {
        seq![kind]
    });
}

proof fn lemma_unbracketed_two(a: TokenKind, b: TokenKind)
    requires
        !bracket(a),
        !bracket(b),
    ensures
        unbracketed(seq![a, b]) == seq![a, b],
{
    lemma_unbracketed_one(a);
    lemma_unbracketed_one(b);
    lemma_unbracketed_both(seq![a], seq![b]);
    assert(seq![a] + seq![b] =~= seq![a, b]);
}

/// What a complete expression means is written with the tokens of the expression,
/// up to parentheses and commas.
#[verifier::rlimit(30)]
proof fn lemma_ink(syntax: Syntax, tokens: Seq<Token>, pos: int)
    requires
        syntax::complete(syntax),
    ensures
        ink(syntax::meaning(syntax, tokens, pos)) == unbracketed(syntax::spelled(syntax)),
    decreases syntax,
{
    match syntax {
        Syntax::Int(symbol) => {
            lemma_unbracketed_one(TokenKind::Int(symbol));
        },
        Syntax::Bool(value) => {
            lemma_unbracketed_one(TokenKind::Ident(kw::TRUE()));
            lemma_unbracketed_one(TokenKind::Ident(kw::FALSE()));
        },
        Syntax::Name(symbol) => {
            lemma_unbracketed_one(TokenKind::Ident(symbol));
        },
        Syntax::Group { inner, closed } => {
            let open = seq![TokenKind::OpenParen];
            lemma_ink(*inner, tokens, pos + 1);
            lemma_unbracketed_one(TokenKind::OpenParen);
            lemma_unbracketed_one(TokenKind::CloseParen);
            lemma_unbracketed_both(open, syntax::spelled(*inner));
            lemma_unbracketed_both(open + syntax::spelled(*inner), syntax::close(closed));
            let whole = syntax::meaning(syntax, tokens, pos);
            let inside = syntax::meaning(*inner, tokens, pos + 1);
            assert(whole.node == inside.node);
            assert(ink(whole) == ink(inside));
            assert(unbracketed(syntax::spelled(syntax)) =~= ink(inside));
        },
        Syntax::Prefix(op, operand) => {
            lemma_ink(*operand, tokens, pos + 1);
            lemma_unbracketed_one(syntax::mark(op));
            lemma_unbracketed_both(seq![syntax::mark(op)], syntax::spelled(*operand));
        },
        Syntax::Borrow { mutable, operand } => {
            let mutability = TokenKind::Ident(kw::MUT());
            if mutable {
                lemma_ink(*operand, tokens, pos + 2);
                lemma_unbracketed_two(TokenKind::And, mutability);
                lemma_unbracketed_both(
                    seq![TokenKind::And, mutability],
                    syntax::spelled(*operand),
                );
            } else {
                lemma_ink(*operand, tokens, pos + 1);
                lemma_unbracketed_one(TokenKind::And);
                lemma_unbracketed_both(seq![TokenKind::And], syntax::spelled(*operand));
            }
        },
        Syntax::Infix(lhs, op, rhs) => {
            let first = syntax::spelled(*lhs);
            let second = syntax::spelled(*rhs);
            let between = seq![syntax::sign(op)];
            lemma_ink(*lhs, tokens, pos);
            lemma_ink(*rhs, tokens, pos + first.len() + 1);
            lemma_unbracketed_one(syntax::sign(op));
            lemma_unbracketed_both(first, between);
            lemma_unbracketed_both(first + between, second);
        },
        Syntax::Call { callee, args, trailing, closed } => {
            let name = syntax::spelled(*callee);
            let open = seq![TokenKind::OpenParen];
            let list = syntax::spelled_list(args);
            let comma = syntax::comma(trailing);
            lemma_ink(*callee, tokens, pos);
            lemma_ink_list(args, tokens, pos + name.len() + 1);
            lemma_unbracketed_one(TokenKind::OpenParen);
            lemma_unbracketed_one(TokenKind::CloseParen);
            lemma_unbracketed_one(TokenKind::Comma);
            lemma_unbracketed_both(name, open);
            lemma_unbracketed_both(name + open, list);
            lemma_unbracketed_both(name + open + list, comma);
            lemma_unbracketed_both(name + open + list + comma, syntax::close(closed));
            assert(unbracketed(comma) =~= seq![]);
            assert(unbracketed(syntax::spelled(syntax)) =~= unbracketed(name) + unbracketed(list));
        },
        Syntax::Field { base, name } => {
            lemma_ink(*base, tokens, pos);
            lemma_unbracketed_two(TokenKind::Dot, TokenKind::Ident(name));
            lemma_unbracketed_both(
                syntax::spelled(*base),
                seq![TokenKind::Dot, TokenKind::Ident(name)],
            );
        },
        _ => {},
    }
}

proof fn lemma_ink_list(args: Seq<Syntax>, tokens: Seq<Token>, pos: int)
    requires
        forall|i: int| 0 <= i < args.len() ==> syntax::complete(#[trigger] args[i]),
    ensures
        ink_all(syntax::meanings(args, tokens, pos)) == unbracketed(syntax::spelled_list(args)),
    decreases args,
{
    if args.len() > 0 {
        let front = args.drop_last();
        let start = pos + syntax::before_last(args).len();
        let trees = syntax::meanings(args, tokens, pos);
        assert(syntax::complete(args[args.len() - 1]));
        assert forall|i: int| 0 <= i < front.len() implies syntax::complete(
            #[trigger] front[i],
        ) by {
            assert(front[i] == args[i]);
        }
        lemma_ink(args.last(), tokens, start);
        lemma_ink_list(front, tokens, pos);
        lemma_unbracketed_one(TokenKind::Comma);
        lemma_unbracketed_both(syntax::spelled_list(front), seq![TokenKind::Comma]);
        lemma_unbracketed_both(syntax::before_last(args), syntax::spelled(args.last()));
        assert(trees.drop_last() =~= syntax::meanings(front, tokens, pos));
        if args.len() == 1 {
            assert(syntax::spelled_list(front) =~= seq![]);
        }
        assert(unbracketed(syntax::before_last(args)) =~= unbracketed(
            syntax::spelled_list(front),
        ));
    } else {
        assert(unbracketed(syntax::spelled_list(args)) =~= seq![]);
    }
}

/// Nothing is lost: where nothing is wrong, the tree holds every literal, name and
/// operator of the stream, each as what it is written as, in the order of the
/// stream, and nothing else.
pub proof fn lemma_nothing_is_lost(tokens: Seq<Token>)
    requires
        token::ends_in_eof(tokens),
        grammar::parsing(tokens).faults.len() == 0,
    ensures
        0 < grammar::parsing(tokens).pos < tokens.len(),
        tokens[grammar::parsing(tokens).pos].kind == TokenKind::Eof,
        ink(grammar::parsing(tokens).tree) == unbracketed(
            kinds(tokens, grammar::parsing(tokens).pos),
        ),
{
    let syntax = syntax::lemma_what_is_read_was_written(tokens);
    let written = syntax::spelled(syntax);
    let end = written.len() as int;
    let all = written.push(TokenKind::Eof);
    assert forall|i: int| 0 <= i <= end implies (#[trigger] tokens[i]).kind == all[i] by {
        assert(tokens[0 + i].kind == all[i]);
    }
    assert(kinds(tokens, end) =~= written);
    lemma_ink(syntax, tokens, 0);
    if end == 0 {
        assert(tokens[0].kind == TokenKind::Eof);
        lemma_a_single_token(tokens);
    }
}

proof fn lemma_contains_both(a: Seq<TokenKind>, b: Seq<TokenKind>, kind: TokenKind)
    ensures
        (a + b).contains(kind) <==> a.contains(kind) || b.contains(kind),
{
    if a.contains(kind) {
        let i = a.index_of(kind);
        assert((a + b)[i] == kind);
    }
    if b.contains(kind) {
        let i = b.index_of(kind);
        assert((a + b)[a.len() + i] == kind);
    }
}

/// What an expression means stands for tokens of the expression only.
#[verifier::rlimit(30)]
proof fn lemma_ink_is_written(syntax: Syntax, tokens: Seq<Token>, pos: int, kind: TokenKind)
    requires
        ink(syntax::meaning(syntax, tokens, pos)).contains(kind),
    ensures
        syntax::spelled(syntax).contains(kind),
    decreases syntax,
{
    match syntax {
        Syntax::Group { inner, closed } => {
            let open = seq![TokenKind::OpenParen];
            let whole = syntax::meaning(syntax, tokens, pos);
            let inside = syntax::meaning(*inner, tokens, pos + 1);
            assert(whole.node == inside.node);
            assert(ink(whole) == ink(inside));
            lemma_ink_is_written(*inner, tokens, pos + 1, kind);
            lemma_contains_both(open, syntax::spelled(*inner), kind);
            lemma_contains_both(open + syntax::spelled(*inner), syntax::close(closed), kind);
        },
        Syntax::Prefix(op, operand) => {
            let mark = seq![syntax::mark(op)];
            let inside = syntax::meaning(*operand, tokens, pos + 1);
            lemma_contains_both(mark, ink(inside), kind);
            lemma_contains_both(mark, syntax::spelled(*operand), kind);
            if ink(inside).contains(kind) {
                lemma_ink_is_written(*operand, tokens, pos + 1, kind);
            }
        },
        Syntax::Borrow { mutable, operand } => {
            let (start, words) = if mutable {
                (pos + 2, seq![TokenKind::And, TokenKind::Ident(kw::MUT())])
            } else {
                (pos + 1, seq![TokenKind::And])
            };
            let inside = syntax::meaning(*operand, tokens, start);
            lemma_contains_both(words, ink(inside), kind);
            lemma_contains_both(words, syntax::spelled(*operand), kind);
            if ink(inside).contains(kind) {
                lemma_ink_is_written(*operand, tokens, start, kind);
            }
        },
        Syntax::Infix(lhs, op, rhs) => {
            let first = syntax::spelled(*lhs);
            let start = pos + first.len() + 1;
            let between = seq![syntax::sign(op)];
            let left = syntax::meaning(*lhs, tokens, pos);
            let right = syntax::meaning(*rhs, tokens, start);
            lemma_contains_both(ink(left), between, kind);
            lemma_contains_both(ink(left) + between, ink(right), kind);
            lemma_contains_both(first, between, kind);
            lemma_contains_both(first + between, syntax::spelled(*rhs), kind);
            if ink(left).contains(kind) {
                lemma_ink_is_written(*lhs, tokens, pos, kind);
            } else if ink(right).contains(kind) {
                lemma_ink_is_written(*rhs, tokens, start, kind);
            }
        },
        Syntax::Call { callee, args, trailing, closed } => {
            let name = syntax::spelled(*callee);
            let open = seq![TokenKind::OpenParen];
            let list = syntax::spelled_list(args);
            let comma = syntax::comma(trailing);
            let left = syntax::meaning(*callee, tokens, pos);
            let trees = syntax::meanings(args, tokens, pos + name.len() + 1);
            lemma_contains_both(ink(left), ink_all(trees), kind);
            lemma_contains_both(name, open, kind);
            lemma_contains_both(name + open, list, kind);
            lemma_contains_both(name + open + list, comma, kind);
            lemma_contains_both(name + open + list + comma, syntax::close(closed), kind);
            if ink(left).contains(kind) {
                lemma_ink_is_written(*callee, tokens, pos, kind);
            } else {
                lemma_ink_list_is_written(args, tokens, pos + name.len() + 1, kind);
            }
        },
        Syntax::Field { base, name } => {
            let tail = seq![TokenKind::Dot, TokenKind::Ident(name)];
            let inside = syntax::meaning(*base, tokens, pos);
            lemma_contains_both(ink(inside), tail, kind);
            lemma_contains_both(syntax::spelled(*base), tail, kind);
            if ink(inside).contains(kind) {
                lemma_ink_is_written(*base, tokens, pos, kind);
            }
        },
        _ => {},
    }
}

proof fn lemma_ink_list_is_written(
    args: Seq<Syntax>,
    tokens: Seq<Token>,
    pos: int,
    kind: TokenKind,
)
    requires
        ink_all(syntax::meanings(args, tokens, pos)).contains(kind),
    ensures
        syntax::spelled_list(args).contains(kind),
    decreases args,
{
    let front = args.drop_last();
    let before = syntax::before_last(args);
    let trees = syntax::meanings(args, tokens, pos);
    let last = syntax::meaning(args.last(), tokens, pos + before.len());
    assert(trees.drop_last() =~= syntax::meanings(front, tokens, pos));
    lemma_contains_both(ink_all(trees.drop_last()), ink(last), kind);
    lemma_contains_both(before, syntax::spelled(args.last()), kind);
    if ink(last).contains(kind) {
        lemma_ink_is_written(args.last(), tokens, pos + before.len(), kind);
    } else {
        lemma_ink_list_is_written(front, tokens, pos, kind);
        lemma_contains_both(syntax::spelled_list(front), seq![TokenKind::Comma], kind);
    }
}

/// Nothing is made up: whatever is wrong with the stream, each literal, name and
/// operator of the tree is a token that was read, of just that kind.
pub proof fn lemma_nothing_is_made_up(tokens: Seq<Token>, kind: TokenKind)
    requires
        token::ends_in_eof(tokens),
        ink(grammar::parsing(tokens).tree).contains(kind),
    ensures
        exists|i: int|
            0 <= i < grammar::parsing(tokens).pos && (#[trigger] tokens[i]).kind == kind,
{
    let syntax = syntax::lemma_whatever_is_there_is_read(tokens);
    let written = syntax::spelled(syntax);
    lemma_ink_is_written(syntax, tokens, 0, kind);
    let i = written.index_of(kind);
    assert(tokens[0 + i].kind == written[i]);
}

/// The names in a tree with this root are no keywords.
pub open spec fn properly_named(node: Node) -> bool
    decreases node,
{
    match node {
        Node::Path(symbol) => symbol.index() >= KEYWORD_COUNT,
        Node::Unary(_, operand) => properly_named(operand.node),
        Node::Borrow { operand, .. } => properly_named(operand.node),
        Node::Binary(_, lhs, rhs) => properly_named(lhs.node) && properly_named(rhs.node),
        Node::Call { callee, args } => {
            &&& properly_named(callee.node)
            &&& forall|i: int| 0 <= i < args.len() ==> properly_named((#[trigger] args[i]).node)
        },
        Node::Field { base, name } => properly_named(base.node) && name.index() >= KEYWORD_COUNT,
        _ => true,
    }
}

proof fn lemma_meaning_is_properly_named(syntax: Syntax, tokens: Seq<Token>, pos: int)
    requires
        syntax::well_nested(syntax),
    ensures
        properly_named(syntax::meaning(syntax, tokens, pos).node),
    decreases syntax,
{
    match syntax {
        Syntax::Group { inner, .. } => {
            lemma_meaning_is_properly_named(*inner, tokens, pos + 1);
        },
        Syntax::Prefix(_, operand) => {
            lemma_meaning_is_properly_named(*operand, tokens, pos + 1);
        },
        Syntax::Borrow { operand, .. } => {
            lemma_meaning_is_properly_named(*operand, tokens, pos + 1);
            lemma_meaning_is_properly_named(*operand, tokens, pos + 2);
        },
        Syntax::Infix(lhs, _, rhs) => {
            let start = pos + syntax::spelled(*lhs).len() + 1;
            lemma_meaning_is_properly_named(*lhs, tokens, pos);
            lemma_meaning_is_properly_named(*rhs, tokens, start);
        },
        Syntax::Call { callee, args, .. } => {
            let start = pos + syntax::spelled(*callee).len() + 1;
            lemma_meaning_is_properly_named(*callee, tokens, pos);
            lemma_meanings_are_properly_named(args, tokens, start);
        },
        Syntax::Field { base, .. } => {
            lemma_meaning_is_properly_named(*base, tokens, pos);
        },
        _ => {},
    }
}

proof fn lemma_meanings_are_properly_named(args: Seq<Syntax>, tokens: Seq<Token>, pos: int)
    requires
        forall|i: int| 0 <= i < args.len() ==> syntax::well_nested(#[trigger] args[i]),
    ensures
        ({
            let trees = syntax::meanings(args, tokens, pos);
            forall|i: int| 0 <= i < trees.len() ==> properly_named((#[trigger] trees[i]).node)
        }),
    decreases args,
{
    if args.len() > 0 {
        let front = args.drop_last();
        assert(syntax::well_nested(args[args.len() - 1]));
        assert forall|i: int| 0 <= i < front.len() implies syntax::well_nested(
            #[trigger] front[i],
        ) by {
            assert(front[i] == args[i]);
        }
        let start = pos + syntax::before_last(args).len();
        let trees = syntax::meanings(args, tokens, pos);
        let others = syntax::meanings(front, tokens, pos);
        lemma_meanings_are_properly_named(front, tokens, pos);
        lemma_meaning_is_properly_named(args.last(), tokens, start);
        assert forall|i: int| 0 <= i < trees.len() implies properly_named(
            (#[trigger] trees[i]).node,
        ) by {
            if i < others.len() {
                assert(trees[i] == others[i]);
            }
        }
    }
}

/// A keyword is never taken for a name, whatever the stream.
pub proof fn lemma_no_keyword_is_a_name(tokens: Seq<Token>)
    requires
        token::ends_in_eof(tokens),
    ensures
        properly_named(grammar::parsing(tokens).tree.node),
{
    let syntax = syntax::lemma_whatever_is_there_is_read(tokens);
    lemma_meaning_is_properly_named(syntax, tokens, 0);
}

/// A single token. An integer literal and nothing else is read as an integer
/// literal, `true` and `false` as truth values, a word that is no keyword as a
/// name; an operator, an opening parenthesis or `&` waits in vain for what it
/// needs, and anything else is reported where it is.
pub proof fn lemma_a_single_token(tokens: Seq<Token>)
    requires
        token::ends_in_eof(tokens),
        tokens[0].kind == TokenKind::Eof || tokens.len() == 2 && tokens[1].kind == TokenKind::Eof,
    ensures
        ({
            let parsed = grammar::parsing(tokens);
            let nothing = seq![
                Fault { span: tokens[0].span, message: "expected an expression"@ },
            ];
            match tokens[0].kind {
                TokenKind::Int(symbol) => {
                    &&& parsed.tree.node == Node::Int(symbol)
                    &&& parsed.tree.span == tokens[0].span
                    &&& parsed.faults.len() == 0
                },
                TokenKind::Ident(symbol) => {
                    &&& symbol == kw::TRUE() ==> parsed.tree.node == Node::Bool(true)
                    &&& symbol == kw::FALSE() ==> parsed.tree.node == Node::Bool(false)
                    &&& symbol.index() >= KEYWORD_COUNT ==> parsed.tree.node == Node::Path(symbol)
                    &&& parsed.tree.span == tokens[0].span
                    &&& if symbol == kw::TRUE() || symbol == kw::FALSE() || symbol.index()
                        >= KEYWORD_COUNT {
                        parsed.faults.len() == 0
                    } else {
                        parsed.tree.node == Node::Error && parsed.faults == nothing
                    }
                },
                TokenKind::Minus => waits(parsed.tree.node, UnOp::Neg) && parsed.faults.len() == 1,
                TokenKind::Bang => waits(parsed.tree.node, UnOp::Not) && parsed.faults.len() == 1,
                TokenKind::Star => {
                    &&& waits(parsed.tree.node, UnOp::Deref)
                    &&& parsed.faults.len() == 1
                },
                TokenKind::And => {
                    &&& parsed.tree.node matches Node::Borrow { mutable: false, operand }
                    &&& operand.node == Node::Error
                    &&& parsed.faults.len() == 1
                },
                TokenKind::OpenParen => {
                    &&& parsed.tree.node == Node::Error
                    &&& parsed.faults.len() == 2
                },
                _ => {
                    &&& parsed.tree == (Tree { node: Node::Error, span: tokens[0].span })
                    &&& parsed.faults == nothing
                },
            }
        }),
{
    broadcast use Symbol::lemma_nth;

    let kind = tokens[0].kind;
    let gap = Box::new(Syntax::Missing(None));
    let whole = match kind {
        TokenKind::Int(symbol) => Syntax::Int(symbol),
        TokenKind::Ident(symbol) => if symbol == kw::TRUE() {
            Syntax::Bool(true)
        } else if symbol == kw::FALSE() {
            Syntax::Bool(false)
        } else if symbol.index() >= KEYWORD_COUNT {
            Syntax::Name(symbol)
        } else {
            Syntax::Missing(Some(kind))
        },
        TokenKind::Minus => Syntax::Prefix(UnOp::Neg, gap),
        TokenKind::Bang => Syntax::Prefix(UnOp::Not, gap),
        TokenKind::Star => Syntax::Prefix(UnOp::Deref, gap),
        TokenKind::And => Syntax::Borrow { mutable: false, operand: gap },
        TokenKind::OpenParen => Syntax::Group { inner: gap, closed: false },
        TokenKind::Eof => Syntax::Missing(None),
        _ => Syntax::Missing(Some(kind)),
    };
    reveal_with_fuel(syntax::spelled, 2);
    reveal_with_fuel(syntax::well_nested, 2);
    reveal_with_fuel(syntax::honest, 2);
    reveal_with_fuel(syntax::meaning, 2);
    reveal_with_fuel(syntax::gaps, 2);
    let written = syntax::spelled(whole);
    assert(written =~= if kind == TokenKind::Eof {
        seq![]
    } else {
        seq![kind]
    });
    assert(syntax::stuck(tokens, written.len() as int)) by {
        assert(!syntax::joins(TokenKind::Eof));
    }
    syntax::lemma_reading_is_determined(whole, tokens);
}

/// The node is a prefix operator whose operand is missing.
pub open spec fn waits(node: Node, op: UnOp) -> bool {
    &&& node matches Node::Unary(found, operand)
    &&& found == op
    &&& operand.node == Node::Error
}

/// Of two operators in a row the tighter one goes first, and of two that bind
/// alike the left one: the operand between them belongs to it.
pub proof fn lemma_two_operators(a: Syntax, first: BinOp, b: Syntax, second: BinOp, c: Syntax)
    requires
        syntax::grammatical(a),
        syntax::grammatical(b),
        syntax::grammatical(c),
        syntax::power(a) >= syntax::prefix_power(),
        syntax::power(b) >= syntax::prefix_power(),
        syntax::power(c) >= syntax::prefix_power(),
    ensures
        ({
            let left = Syntax::Infix(
                Box::new(Syntax::Infix(Box::new(a), first, Box::new(b))),
                second,
                Box::new(c),
            );
            let right = Syntax::Infix(
                Box::new(a),
                first,
                Box::new(Syntax::Infix(Box::new(b), second, Box::new(c))),
            );
            &&& syntax::spelled(left) == syntax::spelled(right)
            &&& syntax::grammatical(left) <==> syntax::strength(first) >= syntax::strength(second)
            &&& syntax::grammatical(right) <==> syntax::strength(first) < syntax::strength(second)
        }),
{
    reveal_with_fuel(syntax::spelled, 3);
    reveal_with_fuel(syntax::well_nested, 3);
    reveal_with_fuel(syntax::complete, 3);
    let x = syntax::spelled(a);
    let y = syntax::spelled(b);
    let z = syntax::spelled(c);
    let f = seq![syntax::sign(first)];
    let s = seq![syntax::sign(second)];
    assert((x + f + y) + s + z =~= x + f + (y + s + z));
}

/// Operators are written in the source as they say they are.
pub proof fn lemma_operators_are_written_as_they_say(
    unary: UnOp,
    binary: BinOp,
    names: Seq<Seq<char>>,
)
    ensures
        token::laws::spelling(syntax::mark(unary), names) == unary.spelling(),
        token::laws::spelling(syntax::sign(binary), names) == binary.spelling(),
        syntax::strength(BinOp::And) < syntax::strength(BinOp::Eq),
        syntax::strength(BinOp::Eq) < syntax::strength(BinOp::Add),
        syntax::strength(BinOp::Add) < syntax::strength(BinOp::Mul),
        syntax::strength(BinOp::Mul) < syntax::prefix_power(),
        syntax::prefix_power() < syntax::postfix_power(),
{
}

} // verus!
