//! The kinds of the tokens decide what is read; where the tokens stand does not.
//!
//! Changing the space between tokens moves the spans of the tree and of the
//! faults, and nothing else: see [`lemma_kinds_decide`].
use crate::ast::{Node, Tree};
use crate::grammar;
use crate::grammar::{Arguments, Fault, Parsed};
use crate::span::{BytePos, Span};
use crate::symbol::kw;
use crate::token;
use crate::token::{Token, TokenKind};
use vstd::prelude::*;

verus! {

/// The tokens are of the same kinds, one by one.
pub open spec fn alike(a: Seq<Token>, b: Seq<Token>) -> bool {
    &&& a.len() == b.len()
    &&& forall|i: int|
        #![trigger a[i]]
        #![trigger b[i]]
        0 <= i < a.len() ==> a[i].kind == b[i].kind
}

/// The tree without its spans.
pub open spec fn bare(tree: Tree) -> Tree
    decreases tree, 1nat,
{
    Tree { node: bare_node(tree.node), span: Span::of(BytePos(0), BytePos(0)) }
}

/// What the tree without its spans is at its root.
pub open spec fn bare_node(node: Node) -> Node
    decreases node, 0nat,
{
    match node {
        Node::Unary(op, operand) => Node::Unary(op, Box::new(bare(*operand))),
        Node::Borrow { mutable, operand } => Node::Borrow {
            mutable,
            operand: Box::new(bare(*operand)),
        },
        Node::Binary(op, lhs, rhs) => Node::Binary(
            op,
            Box::new(bare(*lhs)),
            Box::new(bare(*rhs)),
        ),
        Node::Call { callee, args } => Node::Call {
            callee: Box::new(bare(*callee)),
            args: bare_all(args),
        },
        Node::Field { base, name } => Node::Field { base: Box::new(bare(*base)), name },
        _ => node,
    }
}

/// The trees without their spans.
pub open spec fn bare_all(trees: Seq<Tree>) -> Seq<Tree>
    decreases trees, 0nat,
{
    if trees.len() == 0 {
        Seq::empty()
    } else {
        bare_all(trees.drop_last()).push(bare(trees.last()))
    }
}

/// The faults say the same, and point at the tokens of the same index.
pub open spec fn same_fault(a: Seq<Token>, b: Seq<Token>, f: Fault, g: Fault) -> bool {
    &&& f.message == g.message
    &&& exists|j: int|
        0 <= j < a.len() && f.span == (#[trigger] a[j]).span && g.span == b[j].span
}

/// The faults say the same one by one, and point at the tokens of the same
/// index.
pub open spec fn same_faults(
    a: Seq<Token>,
    b: Seq<Token>,
    f: Seq<Fault>,
    g: Seq<Fault>,
) -> bool {
    &&& f.len() == g.len()
    &&& forall|k: int|
        #![trigger f[k]]
        #![trigger g[k]]
        0 <= k < f.len() ==> same_fault(a, b, f[k], g[k])
}

/// The same was read, up to where it stands.
pub open spec fn same(a: Seq<Token>, b: Seq<Token>, p: Parsed, q: Parsed) -> bool {
    &&& p.pos == q.pos
    &&& bare(p.tree) == bare(q.tree)
    &&& same_faults(a, b, p.faults, q.faults)
}

/// The same arguments were read, up to where they stand.
pub open spec fn same_arguments(
    a: Seq<Token>,
    b: Seq<Token>,
    p: Arguments,
    q: Arguments,
) -> bool {
    &&& p.pos == q.pos
    &&& bare_all(p.trees) == bare_all(q.trees)
    &&& same_faults(a, b, p.faults, q.faults)
}

proof fn lemma_same_both(
    a: Seq<Token>,
    b: Seq<Token>,
    f: Seq<Fault>,
    g: Seq<Fault>,
    f2: Seq<Fault>,
    g2: Seq<Fault>,
)
    requires
        same_faults(a, b, f, g),
        same_faults(a, b, f2, g2),
    ensures
        same_faults(a, b, f + f2, g + g2),
{
    assert forall|k: int| 0 <= k < (f + f2).len() implies same_fault(
        a,
        b,
        #[trigger] (f + f2)[k],
        (g + g2)[k],
    ) by {
        if k < f.len() {
            assert(same_fault(a, b, f[k], g[k]));
        } else {
            assert(same_fault(a, b, f2[k - f.len()], g2[k - f.len()]));
        }
    }
}

proof fn lemma_same_at(a: Seq<Token>, b: Seq<Token>, pos: int, message: Seq<char>)
    requires
        0 <= pos < a.len(),
    ensures
        same_faults(
            a,
            b,
            seq![Fault { span: a[pos].span, message }],
            seq![Fault { span: b[pos].span, message }],
        ),
{
    assert(a[pos].span == a[pos].span);
}

proof fn lemma_same_lack(
    a: Seq<Token>,
    b: Seq<Token>,
    pos: int,
    kind: TokenKind,
    what: Seq<char>,
)
    requires
        alike(a, b),
        0 <= pos < a.len(),
    ensures
        same_faults(
            a,
            b,
            grammar::lack(a, pos, kind, what),
            grammar::lack(b, pos, kind, what),
        ),
{
    lemma_same_at(a, b, pos, grammar::missing(what));
    assert(a[pos].kind == b[pos].kind);
}

proof fn lemma_primary_same(a: Seq<Token>, b: Seq<Token>, pos: int)
    requires
        alike(a, b),
        token::ends_in_eof(a),
        0 <= pos < a.len(),
    ensures
        same(a, b, grammar::primary(a, pos), grammar::primary(b, pos)),
    decreases a.len() - pos, 0nat,
{
    assert(a[pos].kind == b[pos].kind);
    if grammar::at(a, pos, TokenKind::OpenParen) {
        let p = grammar::binary(a, pos + 1, 0);
        let q = grammar::binary(b, pos + 1, 0);
        grammar::lemma_binary_moves(a, pos + 1, 0);
        lemma_binary_same(a, b, pos + 1, 0);
        lemma_same_lack(a, b, p.pos, TokenKind::CloseParen, "`)`"@);
        lemma_same_both(
            a,
            b,
            p.faults,
            q.faults,
            grammar::lack(a, p.pos, TokenKind::CloseParen, "`)`"@),
            grammar::lack(b, p.pos, TokenKind::CloseParen, "`)`"@),
        );
        assert(a[p.pos].kind == b[p.pos].kind);
        assert(bare(p.tree).node == bare_node(p.tree.node));
        assert(bare(q.tree).node == bare_node(q.tree.node));
    } else if grammar::atom(a[pos].kind) is None {
        lemma_same_at(a, b, pos, "expected an expression"@);
    }
}

proof fn lemma_suffixes_same(a: Seq<Token>, b: Seq<Token>, p: Parsed, q: Parsed)
    requires
        alike(a, b),
        token::ends_in_eof(a),
        0 <= p.pos < a.len(),
        same(a, b, p, q),
    ensures
        same(a, b, grammar::suffixes(a, p), grammar::suffixes(b, q)),
    decreases a.len() - p.pos, 0nat,
{
    let pos = p.pos;
    assert(a[pos].kind == b[pos].kind);
    if grammar::at(a, pos, TokenKind::OpenParen) {
        let m = grammar::arguments(a, pos + 1);
        let n = grammar::arguments(b, pos + 1);
        grammar::lemma_arguments_move(a, pos + 1);
        lemma_arguments_same(a, b, pos + 1);
        lemma_same_both(a, b, p.faults, q.faults, m.faults, n.faults);
        lemma_same_lack(a, b, m.pos, TokenKind::CloseParen, "`)`"@);
        lemma_same_both(
            a,
            b,
            p.faults + m.faults,
            q.faults + n.faults,
            grammar::lack(a, m.pos, TokenKind::CloseParen, "`)`"@),
            grammar::lack(b, m.pos, TokenKind::CloseParen, "`)`"@),
        );
        assert(a[m.pos].kind == b[m.pos].kind);
        lemma_suffixes_same(a, b, grammar::with_call(a, p, m), grammar::with_call(b, q, n));
    } else if grammar::at(a, pos, TokenKind::Dot) {
        let message = "expected a field name"@;
        let f = Fault { span: a[pos + 1].span, message };
        let g = Fault { span: b[pos + 1].span, message };
        assert(a[pos + 1].kind == b[pos + 1].kind);
        lemma_same_at(a, b, pos + 1, message);
        lemma_same_both(a, b, p.faults, q.faults, seq![f], seq![g]);
        assert(p.faults.push(f) =~= p.faults + seq![f]);
        assert(q.faults.push(g) =~= q.faults + seq![g]);
        lemma_suffixes_same(a, b, grammar::with_field(a, p), grammar::with_field(b, q));
    }
}

proof fn lemma_arguments_same(a: Seq<Token>, b: Seq<Token>, pos: int)
    requires
        alike(a, b),
        token::ends_in_eof(a),
        0 <= pos < a.len(),
    ensures
        same_arguments(a, b, grammar::arguments(a, pos), grammar::arguments(b, pos)),
    decreases a.len() - pos, 4nat,
{
    assert(a[pos].kind == b[pos].kind);
    let none = grammar::no_arguments(pos);
    if !grammar::at(a, pos, TokenKind::CloseParen) {
        let p = grammar::binary(a, pos, 0);
        let q = grammar::binary(b, pos, 0);
        grammar::lemma_binary_moves(a, pos, 0);
        lemma_binary_same(a, b, pos, 0);
        lemma_same_both(a, b, none.faults, none.faults, p.faults, q.faults);
        lemma_bare_push(none.trees, p.tree);
        lemma_bare_push(none.trees, q.tree);
        lemma_more_arguments_same(
            a,
            b,
            grammar::with_argument(a, none, pos, p),
            grammar::with_argument(b, none, pos, q),
        );
    }
}

proof fn lemma_bare_push(trees: Seq<Tree>, tree: Tree)
    ensures
        bare_all(trees.push(tree)) == bare_all(trees).push(bare(tree)),
{
    assert(trees.push(tree).drop_last() =~= trees);
}

proof fn lemma_more_arguments_same(a: Seq<Token>, b: Seq<Token>, p: Arguments, q: Arguments)
    requires
        alike(a, b),
        token::ends_in_eof(a),
        0 <= p.pos < a.len(),
        same_arguments(a, b, p, q),
    ensures
        same_arguments(a, b, grammar::more_arguments(a, p), grammar::more_arguments(b, q)),
    decreases a.len() - p.pos, 0nat,
{
    let pos = p.pos;
    assert(a[pos].kind == b[pos].kind);
    if grammar::at(a, pos, TokenKind::Comma) {
        assert(a[pos + 1].kind == b[pos + 1].kind);
        if !grammar::at(a, pos + 1, TokenKind::CloseParen) {
            let m = grammar::binary(a, pos + 1, 0);
            let n = grammar::binary(b, pos + 1, 0);
            grammar::lemma_binary_moves(a, pos + 1, 0);
            lemma_binary_same(a, b, pos + 1, 0);
            lemma_same_both(a, b, p.faults, q.faults, m.faults, n.faults);
            lemma_bare_push(p.trees, m.tree);
            lemma_bare_push(q.trees, n.tree);
            lemma_more_arguments_same(
                a,
                b,
                grammar::with_argument(a, p, pos + 1, m),
                grammar::with_argument(b, q, pos + 1, n),
            );
        }
    }
}

proof fn lemma_unary_same(a: Seq<Token>, b: Seq<Token>, pos: int)
    requires
        alike(a, b),
        token::ends_in_eof(a),
        0 <= pos < a.len(),
    ensures
        same(a, b, grammar::unary(a, pos), grammar::unary(b, pos)),
    decreases a.len() - pos, 2nat,
{
    assert(a[pos].kind == b[pos].kind);
    if grammar::at(a, pos, TokenKind::And) {
        assert(a[pos + 1].kind == b[pos + 1].kind);
        if grammar::at(a, pos + 1, TokenKind::Ident(kw::MUT())) {
            lemma_unary_same(a, b, pos + 2);
        } else {
            lemma_unary_same(a, b, pos + 1);
        }
    } else if grammar::prefix(a[pos].kind) is Some {
        lemma_unary_same(a, b, pos + 1);
    } else {
        let p = grammar::primary(a, pos);
        let q = grammar::primary(b, pos);
        grammar::lemma_primary_moves(a, pos);
        lemma_primary_same(a, b, pos);
        assert(grammar::postfix(a, pos) == grammar::suffixes(a, p));
        assert(grammar::postfix(b, pos) == grammar::suffixes(b, q));
        lemma_suffixes_same(a, b, p, q);
    }
}

proof fn lemma_binary_same(a: Seq<Token>, b: Seq<Token>, pos: int, min_power: nat)
    requires
        alike(a, b),
        token::ends_in_eof(a),
        0 <= pos < a.len(),
    ensures
        same(a, b, grammar::binary(a, pos, min_power), grammar::binary(b, pos, min_power)),
    decreases a.len() - pos, 3nat,
{
    grammar::lemma_unary_moves(a, pos);
    lemma_unary_same(a, b, pos);
    lemma_climb_same(a, b, grammar::unary(a, pos), grammar::unary(b, pos), min_power);
}

proof fn lemma_climb_same(
    a: Seq<Token>,
    b: Seq<Token>,
    p: Parsed,
    q: Parsed,
    min_power: nat,
)
    requires
        alike(a, b),
        token::ends_in_eof(a),
        0 <= p.pos < a.len(),
        same(a, b, p, q),
    ensures
        same(a, b, grammar::climb(a, p, min_power), grammar::climb(b, q, min_power)),
    decreases a.len() - p.pos, 0nat,
{
    let pos = p.pos;
    assert(a[pos].kind == b[pos].kind);
    if let Some((op, power)) = grammar::infix(a[pos].kind) {
        if power >= min_power {
            let m = grammar::binary(a, pos + 1, power + 1);
            let n = grammar::binary(b, pos + 1, power + 1);
            grammar::lemma_binary_moves(a, pos + 1, power + 1);
            lemma_binary_same(a, b, pos + 1, power + 1);
            lemma_same_both(a, b, p.faults, q.faults, m.faults, n.faults);
            lemma_climb_same(
                a,
                b,
                grammar::with_operand(a, p, op, m),
                grammar::with_operand(b, q, op, n),
                min_power,
            );
        }
    }
}

/// The kinds of the tokens alone decide the tree up to its spans, where reading
/// stops, and the faults up to theirs: there are as many, their messages are the
/// same one by one, and each points at the token of the same index.
pub proof fn lemma_kinds_decide(a: Seq<Token>, b: Seq<Token>)
    requires
        alike(a, b),
        token::ends_in_eof(a),
    ensures
        same(a, b, grammar::parsing(a), grammar::parsing(b)),
{
    let p = grammar::binary(a, 0, 0);
    let q = grammar::binary(b, 0, 0);
    grammar::lemma_binary_moves(a, 0, 0);
    lemma_binary_same(a, b, 0, 0);
    assert(a[p.pos].kind == b[p.pos].kind);
    let message = "unexpected token after expression"@;
    let f = Fault { span: a[p.pos].span, message };
    let g = Fault { span: b[p.pos].span, message };
    lemma_same_at(a, b, p.pos, message);
    lemma_same_both(a, b, p.faults, q.faults, seq![f], seq![g]);
    assert(p.faults.push(f) =~= p.faults + seq![f]);
    assert(q.faults.push(g) =~= q.faults + seq![g]);
}

} // verus!
