//! What the parser promises of every token stream, well written or not.
//!
//! How operators nest, and what well written streams mean, is in
//! [`crate::syntax`].
use crate::ast::{Node, Tree};
use crate::grammar;
use crate::grammar::{Arguments, Fault, Parsed};
use crate::span::Span;
use crate::symbol;
use crate::symbol::kw;
use crate::text;
use crate::token;
use crate::token::{Token, TokenKind};
use vstd::prelude::*;
use vstd::utf8::*;

verus! {

broadcast use Span::lemma_of;

/// How tightly `kind` binds between two operands, or zero if it does not stand
/// between operands.
pub open spec fn power(kind: TokenKind) -> nat {
    match grammar::infix(kind) {
        Some((_, power)) => power,
        None => 0,
    }
}

/// The precedence table. Exactly the twelve operator tokens stand between
/// operands, each for the operator that is written the same way. Conjunction
/// binds loosest, then the six comparisons alike, then sums, then products; and
/// exactly three tokens stand in front of an operand by themselves.
pub proof fn lemma_precedence_table(kind: TokenKind, names: Seq<Seq<char>>)
    ensures
        grammar::infix(kind) is Some <==> {
            ||| kind == TokenKind::AndAnd
            ||| kind == TokenKind::EqEq || kind == TokenKind::Ne
            ||| kind == TokenKind::Lt || kind == TokenKind::Le
            ||| kind == TokenKind::Gt || kind == TokenKind::Ge
            ||| kind == TokenKind::Plus || kind == TokenKind::Minus
            ||| kind == TokenKind::Star || kind == TokenKind::Slash
            ||| kind == TokenKind::Percent
        },
        grammar::infix(kind) matches Some((op, _)) ==> op.spelling() == token::laws::spelling(
            kind,
            names,
        ),
        grammar::infix(kind) is Some ==> power(kind) >= 1,
        power(TokenKind::AndAnd) < power(TokenKind::EqEq),
        power(TokenKind::EqEq) == power(TokenKind::Ne),
        power(TokenKind::EqEq) == power(TokenKind::Lt),
        power(TokenKind::EqEq) == power(TokenKind::Le),
        power(TokenKind::EqEq) == power(TokenKind::Gt),
        power(TokenKind::EqEq) == power(TokenKind::Ge),
        power(TokenKind::EqEq) < power(TokenKind::Plus),
        power(TokenKind::Plus) == power(TokenKind::Minus),
        power(TokenKind::Plus) < power(TokenKind::Star),
        power(TokenKind::Star) == power(TokenKind::Slash),
        power(TokenKind::Star) == power(TokenKind::Percent),
        grammar::prefix(kind) is Some <==> kind == TokenKind::Minus || kind == TokenKind::Bang
            || kind == TokenKind::Star,
        grammar::prefix(kind) matches Some(op) ==> op.spelling() == token::laws::spelling(
            kind,
            names,
        ),
{
}

/// How many nodes of the tree could not be built.
pub open spec fn error_nodes(tree: Tree) -> nat
    decreases tree,
{
    match tree.node {
        Node::Unary(_, operand) => error_nodes(*operand),
        Node::Borrow { operand, .. } => error_nodes(*operand),
        Node::Binary(_, lhs, rhs) => error_nodes(*lhs) + error_nodes(*rhs),
        Node::Call { callee, args } => error_nodes(*callee) + error_nodes_in(args),
        Node::Field { base, .. } => error_nodes(*base),
        Node::Error => 1,
        _ => 0,
    }
}

/// How many nodes of the trees could not be built.
pub open spec fn error_nodes_in(trees: Seq<Tree>) -> nat
    decreases trees,
{
    if trees.len() == 0 {
        0
    } else {
        error_nodes_in(trees.drop_last()) + error_nodes(trees.last())
    }
}

/// The fault is that something could not be built: an expression or a field name
/// is missing.
pub open spec fn of_a_node(fault: Fault) -> bool {
    fault.message == "expected an expression"@ || fault.message == "expected a field name"@
}

/// How many of the faults are that something could not be built.
pub open spec fn reports(faults: Seq<Fault>) -> nat
    decreases faults.len(),
{
    if faults.len() == 0 {
        0
    } else if of_a_node(faults.last()) {
        reports(faults.drop_last()) + 1
    } else {
        reports(faults.drop_last())
    }
}

proof fn lemma_reports_both(a: Seq<Fault>, b: Seq<Fault>)
    ensures
        reports(a + b) == reports(a) + reports(b),
    decreases b.len(),
{
    if b.len() == 0 {
        assert(a + b =~= a);
    } else {
        assert((a + b).drop_last() =~= a + b.drop_last());
        lemma_reports_both(a, b.drop_last());
    }
}

proof fn lemma_reports_one(fault: Fault)
    ensures
        of_a_node(fault) ==> reports(seq![fault]) == 1,
{
    assert(reports(seq![fault].drop_last()) == 0);
}

/// There are no more reports than faults.
proof fn lemma_reports_bound(faults: Seq<Fault>)
    ensures
        reports(faults) <= faults.len(),
    decreases faults.len(),
{
    if faults.len() > 0 {
        lemma_reports_bound(faults.drop_last());
    }
}

/// The fault points at a token.
pub open spec fn points(tokens: Seq<Token>, fault: Fault) -> bool {
    exists|j: int| 0 <= j < tokens.len() && fault.span == (#[trigger] tokens[j]).span
}

/// Every fault points at a token.
pub open spec fn pointing(tokens: Seq<Token>, faults: Seq<Fault>) -> bool {
    forall|i: int| 0 <= i < faults.len() ==> points(tokens, #[trigger] faults[i])
}

/// There is a report for every node that could not be built, and every fault
/// points at a token.
pub open spec fn accounted(tokens: Seq<Token>, parsed: Parsed) -> bool {
    &&& error_nodes(parsed.tree) <= reports(parsed.faults)
    &&& pointing(tokens, parsed.faults)
}

proof fn lemma_pointing_both(tokens: Seq<Token>, a: Seq<Fault>, b: Seq<Fault>)
    requires
        pointing(tokens, a),
        pointing(tokens, b),
    ensures
        pointing(tokens, a + b),
        reports(a + b) == reports(a) + reports(b),
{
    lemma_reports_both(a, b);
    let both = a + b;
    assert forall|i: int| 0 <= i < both.len() implies points(tokens, #[trigger] both[i]) by {
        if i < a.len() {
            assert(both[i] == a[i]);
        } else {
            assert(both[i] == b[i - a.len()]);
        }
    }
}

proof fn lemma_pointing_at(tokens: Seq<Token>, j: int, fault: Fault)
    requires
        0 <= j < tokens.len(),
        fault.span == tokens[j].span,
    ensures
        pointing(tokens, seq![fault]),
        of_a_node(fault) ==> reports(seq![fault]) == 1,
{
    lemma_reports_one(fault);
    assert(fault.span == tokens[j].span);
}

proof fn lemma_lack_points(tokens: Seq<Token>, pos: int, kind: TokenKind, what: Seq<char>)
    requires
        0 <= pos < tokens.len(),
    ensures
        pointing(tokens, grammar::lack(tokens, pos, kind, what)),
{
    if !grammar::at(tokens, pos, kind) {
        let message = grammar::missing(what);
        lemma_pointing_at(tokens, pos, Fault { span: tokens[pos].span, message });
    }
}

proof fn lemma_primary_accounts(tokens: Seq<Token>, pos: int)
    requires
        token::ends_in_eof(tokens),
        0 <= pos < tokens.len(),
    ensures
        accounted(tokens, grammar::primary(tokens, pos)),
    decreases tokens.len() - pos, 0nat,
{
    if grammar::at(tokens, pos, TokenKind::OpenParen) {
        let inner = grammar::binary(tokens, pos + 1, 0);
        grammar::lemma_binary_moves(tokens, pos + 1, 0);
        lemma_binary_accounts(tokens, pos + 1, 0);
        let lack = grammar::lack(tokens, inner.pos, TokenKind::CloseParen, "`)`"@);
        lemma_lack_points(tokens, inner.pos, TokenKind::CloseParen, "`)`"@);
        lemma_pointing_both(tokens, inner.faults, lack);
    } else if grammar::atom(tokens[pos].kind) is None {
        let message = "expected an expression"@;
        lemma_pointing_at(tokens, pos, Fault { span: tokens[pos].span, message });
    }
}

proof fn lemma_suffixes_account(tokens: Seq<Token>, base: Parsed)
    requires
        token::ends_in_eof(tokens),
        0 <= base.pos < tokens.len(),
        accounted(tokens, base),
    ensures
        accounted(tokens, grammar::suffixes(tokens, base)),
    decreases tokens.len() - base.pos, 0nat,
{
    if grammar::at(tokens, base.pos, TokenKind::OpenParen) {
        let args = grammar::arguments(tokens, base.pos + 1);
        grammar::lemma_arguments_move(tokens, base.pos + 1);
        lemma_arguments_account(tokens, base.pos + 1);
        let lack = grammar::lack(tokens, args.pos, TokenKind::CloseParen, "`)`"@);
        lemma_lack_points(tokens, args.pos, TokenKind::CloseParen, "`)`"@);
        lemma_pointing_both(tokens, base.faults, args.faults);
        lemma_pointing_both(tokens, base.faults + args.faults, lack);
        lemma_suffixes_account(tokens, grammar::with_call(tokens, base, args));
    } else if grammar::at(tokens, base.pos, TokenKind::Dot) {
        let message = "expected a field name"@;
        let fault = Fault { span: tokens[base.pos + 1].span, message };
        lemma_pointing_at(tokens, base.pos + 1, fault);
        lemma_pointing_both(tokens, base.faults, seq![fault]);
        assert(base.faults.push(fault) =~= base.faults + seq![fault]);
        lemma_suffixes_account(tokens, grammar::with_field(tokens, base));
    }
}

proof fn lemma_arguments_account(tokens: Seq<Token>, pos: int)
    requires
        token::ends_in_eof(tokens),
        0 <= pos < tokens.len(),
    ensures
        error_nodes_in(grammar::arguments(tokens, pos).trees) <= reports(
            grammar::arguments(tokens, pos).faults,
        ),
        pointing(tokens, grammar::arguments(tokens, pos).faults),
    decreases tokens.len() - pos, 4nat,
{
    if !grammar::at(tokens, pos, TokenKind::CloseParen) {
        let first = grammar::binary(tokens, pos, 0);
        let none = grammar::no_arguments(pos);
        let read = grammar::with_argument(tokens, none, pos, first);
        grammar::lemma_binary_moves(tokens, pos, 0);
        lemma_binary_accounts(tokens, pos, 0);
        assert(error_nodes_in(read.trees.drop_last()) == 0);
        lemma_pointing_both(tokens, none.faults, first.faults);
        lemma_more_arguments_account(tokens, read);
    }
}

proof fn lemma_more_arguments_account(tokens: Seq<Token>, read: Arguments)
    requires
        token::ends_in_eof(tokens),
        0 <= read.pos < tokens.len(),
        error_nodes_in(read.trees) <= reports(read.faults),
        pointing(tokens, read.faults),
    ensures
        error_nodes_in(grammar::more_arguments(tokens, read).trees) <= reports(
            grammar::more_arguments(tokens, read).faults,
        ),
        pointing(tokens, grammar::more_arguments(tokens, read).faults),
    decreases tokens.len() - read.pos, 0nat,
{
    let pos = read.pos;
    if grammar::at(tokens, pos, TokenKind::Comma) && !grammar::at(
        tokens,
        pos + 1,
        TokenKind::CloseParen,
    ) {
        let next = grammar::binary(tokens, pos + 1, 0);
        let more = grammar::with_argument(tokens, read, pos + 1, next);
        grammar::lemma_binary_moves(tokens, pos + 1, 0);
        lemma_binary_accounts(tokens, pos + 1, 0);
        assert(more.trees.drop_last() =~= read.trees);
        lemma_pointing_both(tokens, read.faults, next.faults);
        lemma_more_arguments_account(tokens, more);
    }
}

proof fn lemma_unary_accounts(tokens: Seq<Token>, pos: int)
    requires
        token::ends_in_eof(tokens),
        0 <= pos < tokens.len(),
    ensures
        accounted(tokens, grammar::unary(tokens, pos)),
    decreases tokens.len() - pos, 2nat,
{
    if grammar::at(tokens, pos, TokenKind::And) {
        if grammar::at(tokens, pos + 1, TokenKind::Ident(kw::MUT())) {
            lemma_unary_accounts(tokens, pos + 2);
        } else {
            lemma_unary_accounts(tokens, pos + 1);
        }
    } else if grammar::prefix(tokens[pos].kind) is Some {
        lemma_unary_accounts(tokens, pos + 1);
    } else {
        let base = grammar::primary(tokens, pos);
        grammar::lemma_primary_moves(tokens, pos);
        lemma_primary_accounts(tokens, pos);
        assert(grammar::postfix(tokens, pos) == grammar::suffixes(tokens, base));
        lemma_suffixes_account(tokens, base);
    }
}

proof fn lemma_binary_accounts(tokens: Seq<Token>, pos: int, min_power: nat)
    requires
        token::ends_in_eof(tokens),
        0 <= pos < tokens.len(),
    ensures
        accounted(tokens, grammar::binary(tokens, pos, min_power)),
    decreases tokens.len() - pos, 3nat,
{
    grammar::lemma_unary_moves(tokens, pos);
    lemma_unary_accounts(tokens, pos);
    lemma_climb_accounts(tokens, grammar::unary(tokens, pos), min_power);
}

proof fn lemma_climb_accounts(tokens: Seq<Token>, lhs: Parsed, min_power: nat)
    requires
        token::ends_in_eof(tokens),
        0 <= lhs.pos < tokens.len(),
        accounted(tokens, lhs),
    ensures
        accounted(tokens, grammar::climb(tokens, lhs, min_power)),
    decreases tokens.len() - lhs.pos, 0nat,
{
    if let Some((op, power)) = grammar::infix(tokens[lhs.pos].kind) {
        if power >= min_power {
            let rhs = grammar::binary(tokens, lhs.pos + 1, power + 1);
            grammar::lemma_binary_moves(tokens, lhs.pos + 1, power + 1);
            lemma_binary_accounts(tokens, lhs.pos + 1, power + 1);
            lemma_pointing_both(tokens, lhs.faults, rhs.faults);
            lemma_climb_accounts(
                tokens,
                grammar::with_operand(tokens, lhs, op, rhs),
                min_power,
            );
        }
    }
}

/// A node that could not be built never goes unreported: there are no more of them
/// than faults that say that an expression or a field name is missing. And
/// whatever is reported points at a token.
pub proof fn lemma_error_nodes_are_reported(tokens: Seq<Token>)
    requires
        token::ends_in_eof(tokens),
    ensures
        error_nodes(grammar::parsing(tokens).tree) <= reports(grammar::parsing(tokens).faults),
        reports(grammar::parsing(tokens).faults) <= grammar::parsing(tokens).faults.len(),
        pointing(tokens, grammar::parsing(tokens).faults),
{
    let read = grammar::binary(tokens, 0, 0);
    grammar::lemma_binary_moves(tokens, 0, 0);
    lemma_binary_accounts(tokens, 0, 0);
    let message = "unexpected token after expression"@;
    let fault = Fault { span: tokens[read.pos].span, message };
    lemma_pointing_at(tokens, read.pos, fault);
    lemma_pointing_both(tokens, read.faults, seq![fault]);
    assert(read.faults.push(fault) =~= read.faults + seq![fault]);
    lemma_reports_bound(grammar::parsing(tokens).faults);
}

/// Every node of the tree covers its children.
pub open spec fn nested(tree: Tree) -> bool
    decreases tree, 1nat,
{
    nested_in(tree.node, tree.span)
}

/// `span` covers the children of `node`, and they cover theirs.
pub open spec fn nested_in(node: Node, span: Span) -> bool
    decreases node, 0nat,
{
    match node {
        Node::Unary(_, operand) => span.covers(operand.span) && nested(*operand),
        Node::Borrow { operand, .. } => span.covers(operand.span) && nested(*operand),
        Node::Binary(_, lhs, rhs) => {
            &&& span.covers(lhs.span) && nested(*lhs)
            &&& span.covers(rhs.span) && nested(*rhs)
        },
        Node::Call { callee, args } => {
            &&& span.covers(callee.span) && nested(*callee)
            &&& forall|i: int|
                0 <= i < args.len() ==> span.covers((#[trigger] args[i]).span) && nested(args[i])
        },
        Node::Field { base, .. } => span.covers(base.span) && nested(*base),
        _ => true,
    }
}

/// A wider span covers as much.
proof fn lemma_nested_in_wider(node: Node, span: Span, wider: Span)
    requires
        nested_in(node, span),
        wider.covers(span),
    ensures
        nested_in(node, wider),
{
}

/// The span starts where one token starts and ends where it or a later one ends.
pub open spec fn on_tokens(tokens: Seq<Token>, span: Span) -> bool {
    exists|i: int, j: int|
        0 <= i <= j < tokens.len() && span.lo() == (#[trigger] tokens[i]).span.lo() && span.hi()
            == (#[trigger] tokens[j]).span.hi()
}

/// Every node of the tree starts where one token starts and ends where it or a
/// later one ends.
pub open spec fn anchored(tokens: Seq<Token>, tree: Tree) -> bool
    decreases tree, 1nat,
{
    on_tokens(tokens, tree.span) && anchored_in(tokens, tree.node)
}

/// Every node below `node` starts where one token starts and ends where it or a
/// later one ends.
pub open spec fn anchored_in(tokens: Seq<Token>, node: Node) -> bool
    decreases node, 0nat,
{
    match node {
        Node::Unary(_, operand) => anchored(tokens, *operand),
        Node::Borrow { operand, .. } => anchored(tokens, *operand),
        Node::Binary(_, lhs, rhs) => anchored(tokens, *lhs) && anchored(tokens, *rhs),
        Node::Call { callee, args } => {
            &&& anchored(tokens, *callee)
            &&& forall|i: int| 0 <= i < args.len() ==> anchored(tokens, #[trigger] args[i])
        },
        Node::Field { base, .. } => anchored(tokens, *base),
        _ => true,
    }
}

/// The span starts where the token at `from` starts, and ends where it or a later
/// one ends, up to the one at `upto`.
pub open spec fn between(tokens: Seq<Token>, from: int, upto: int, span: Span) -> bool {
    &&& span.lo() == tokens[from].span.lo()
    &&& exists|j: int| from <= j <= upto && span.hi() == (#[trigger] tokens[j]).span.hi()
}

/// A span between tokens is well formed, and reaches no further than the last of
/// them.
proof fn lemma_between(tokens: Seq<Token>, from: int, upto: int, span: Span)
    requires
        token::in_order(tokens),
        0 <= from <= upto < tokens.len(),
        between(tokens, from, upto, span),
    ensures
        span.wf(),
        span.hi().0 <= tokens[upto].span.hi().0,
        on_tokens(tokens, span),
        forall|more: int|
            upto <= more < tokens.len() ==> #[trigger] between(tokens, from, more, span),
{
    let j = choose|j: int|
        from <= j <= upto && span.hi() == (#[trigger] tokens[j]).span.hi();
    token::laws::lemma_tokens_advance(tokens, from, j);
    token::laws::lemma_tokens_advance(tokens, j, upto);
    assert(tokens[from].span.lo() == span.lo());
}

/// The union of a span with a later one ends where the later one ends.
proof fn lemma_union_between(
    tokens: Seq<Token>,
    from: int,
    mid: int,
    next: int,
    upto: int,
    first: Span,
    second: Span,
)
    requires
        token::in_order(tokens),
        0 <= from <= mid < tokens.len(),
        mid <= next <= upto < tokens.len(),
        between(tokens, from, mid, first),
        between(tokens, next, upto, second),
    ensures
        between(tokens, from, upto, first.union(second)),
{
    lemma_between(tokens, from, mid, first);
    lemma_between(tokens, next, upto, second);
    let i = choose|i: int| from <= i <= mid && first.hi() == (#[trigger] tokens[i]).span.hi();
    let j = choose|j: int| next <= j <= upto && second.hi() == (#[trigger] tokens[j]).span.hi();
    token::laws::lemma_tokens_advance(tokens, i, j);
    token::laws::lemma_tokens_advance(tokens, from, next);
    assert(first.union(second).hi() == tokens[j].span.hi());
}

/// The span of a token lies between it and any later one.
proof fn lemma_token_between(tokens: Seq<Token>, i: int, upto: int)
    requires
        0 <= i <= upto < tokens.len(),
    ensures
        between(tokens, i, upto, tokens[i].span),
{
    assert(tokens[i].span.hi() == tokens[i].span.hi());
}

/// The tree starts where the token at `from` starts, reaches no further than the
/// token at which reading stops, is nested, and every node of it stands on
/// tokens.
///
/// Where a closing parenthesis is missing, the tree reaches over whatever token
/// is there instead, though reading stops in front of it.
pub open spec fn placed(tokens: Seq<Token>, from: int, parsed: Parsed) -> bool {
    &&& from <= parsed.pos < tokens.len()
    &&& between(tokens, from, parsed.pos, parsed.tree.span)
    &&& nested(parsed.tree)
    &&& anchored(tokens, parsed.tree)
}

proof fn lemma_primary_places(tokens: Seq<Token>, pos: int)
    requires
        token::ends_in_eof(tokens),
        token::in_order(tokens),
        0 <= pos < tokens.len(),
    ensures
        placed(tokens, pos, grammar::primary(tokens, pos)),
    decreases tokens.len() - pos, 0nat,
{
    grammar::lemma_primary_moves(tokens, pos);
    let read = grammar::primary(tokens, pos);
    lemma_token_between(tokens, pos, read.pos);
    lemma_between(tokens, pos, read.pos, tokens[pos].span);
    if grammar::at(tokens, pos, TokenKind::OpenParen) {
        let inner = grammar::binary(tokens, pos + 1, 0);
        let close = inner.pos;
        grammar::lemma_binary_moves(tokens, pos + 1, 0);
        lemma_binary_places(tokens, pos + 1, 0);
        lemma_between(tokens, pos + 1, close, inner.tree.span);
        lemma_token_between(tokens, pos, pos);
        lemma_token_between(tokens, close, read.pos);
        lemma_union_between(
            tokens,
            pos,
            pos,
            close,
            read.pos,
            tokens[pos].span,
            tokens[close].span,
        );
        lemma_between(tokens, pos, read.pos, read.tree.span);
        token::laws::lemma_tokens_advance(tokens, pos, pos + 1);
        lemma_nested_in_wider(inner.tree.node, inner.tree.span, read.tree.span);
    }
}

proof fn lemma_suffixes_place(tokens: Seq<Token>, from: int, base: Parsed)
    requires
        token::ends_in_eof(tokens),
        token::in_order(tokens),
        0 <= from,
        placed(tokens, from, base),
    ensures
        placed(tokens, from, grammar::suffixes(tokens, base)),
    decreases tokens.len() - base.pos, 0nat,
{
    if grammar::at(tokens, base.pos, TokenKind::OpenParen) {
        let start = base.pos + 1;
        let args = grammar::arguments(tokens, start);
        let next = grammar::with_call(tokens, base, args);
        grammar::lemma_arguments_move(tokens, start);
        lemma_arguments_place(tokens, start);
        lemma_token_between(tokens, args.pos, next.pos);
        lemma_union_between(
            tokens,
            from,
            base.pos,
            args.pos,
            next.pos,
            base.tree.span,
            tokens[args.pos].span,
        );
        lemma_between(tokens, from, next.pos, next.tree.span);
        token::laws::lemma_tokens_advance(tokens, from, start);
        assert forall|i: int| 0 <= i < args.trees.len() implies next.tree.span.covers(
            (#[trigger] args.trees[i]).span,
        ) && nested(args.trees[i]) && anchored(tokens, args.trees[i]) by {}
        lemma_suffixes_place(tokens, from, next);
    } else if grammar::at(tokens, base.pos, TokenKind::Dot) {
        let next = grammar::with_field(tokens, base);
        lemma_token_between(tokens, base.pos + 1, next.pos);
        lemma_union_between(
            tokens,
            from,
            base.pos,
            base.pos + 1,
            next.pos,
            base.tree.span,
            tokens[base.pos + 1].span,
        );
        lemma_between(tokens, from, next.pos, next.tree.span);
        lemma_suffixes_place(tokens, from, next);
    }
}

/// The arguments lie between the token at `from` and the one at which reading
/// stops.
pub open spec fn listed(tokens: Seq<Token>, from: int, read: Arguments) -> bool {
    &&& from <= read.pos < tokens.len()
    &&& forall|i: int|
        0 <= i < read.trees.len() ==> {
            let tree = #[trigger] read.trees[i];
            &&& tokens[from].span.lo().0 <= tree.span.lo().0
            &&& tree.span.hi().0 <= tokens[read.pos].span.hi().0
            &&& nested(tree)
            &&& anchored(tokens, tree)
        }
}

proof fn lemma_arguments_place(tokens: Seq<Token>, pos: int)
    requires
        token::ends_in_eof(tokens),
        token::in_order(tokens),
        0 <= pos < tokens.len(),
    ensures
        listed(tokens, pos, grammar::arguments(tokens, pos)),
    decreases tokens.len() - pos, 4nat,
{
    if !grammar::at(tokens, pos, TokenKind::CloseParen) {
        let first = grammar::binary(tokens, pos, 0);
        let none = grammar::no_arguments(pos);
        lemma_binary_places(tokens, pos, 0);
        lemma_between(tokens, pos, first.pos, first.tree.span);
        lemma_more_arguments_place(
            tokens,
            pos,
            grammar::with_argument(tokens, none, pos, first),
        );
    }
}

proof fn lemma_more_arguments_place(tokens: Seq<Token>, from: int, read: Arguments)
    requires
        token::ends_in_eof(tokens),
        token::in_order(tokens),
        0 <= from,
        listed(tokens, from, read),
    ensures
        listed(tokens, from, grammar::more_arguments(tokens, read)),
    decreases tokens.len() - read.pos, 0nat,
{
    let pos = read.pos;
    if grammar::at(tokens, pos, TokenKind::Comma) {
        token::laws::lemma_tokens_advance(tokens, pos, pos + 1);
        if !grammar::at(tokens, pos + 1, TokenKind::CloseParen) {
            let next = grammar::binary(tokens, pos + 1, 0);
            let more = grammar::with_argument(tokens, read, pos + 1, next);
            lemma_binary_places(tokens, pos + 1, 0);
            lemma_between(tokens, pos + 1, next.pos, next.tree.span);
            token::laws::lemma_tokens_advance(tokens, from, pos + 1);
            token::laws::lemma_tokens_advance(tokens, pos, more.pos);
            assert forall|i: int| 0 <= i < more.trees.len() implies ({
                let tree = #[trigger] more.trees[i];
                &&& tokens[from].span.lo().0 <= tree.span.lo().0
                &&& tree.span.hi().0 <= tokens[more.pos].span.hi().0
                &&& nested(tree)
                &&& anchored(tokens, tree)
            }) by {
                if i < read.trees.len() {
                    assert(more.trees[i] == read.trees[i]);
                }
            }
            lemma_more_arguments_place(tokens, from, more);
        }
    }
}

/// A token in front of an operand.
proof fn lemma_prefix_places(tokens: Seq<Token>, pos: int, start: int, operand: Parsed)
    requires
        token::in_order(tokens),
        0 <= pos < start,
        placed(tokens, start, operand),
    ensures
        between(tokens, pos, operand.pos, tokens[pos].span.union(operand.tree.span)),
        on_tokens(tokens, tokens[pos].span.union(operand.tree.span)),
{
    let span = tokens[pos].span.union(operand.tree.span);
    lemma_token_between(tokens, pos, pos);
    lemma_union_between(
        tokens,
        pos,
        pos,
        start,
        operand.pos,
        tokens[pos].span,
        operand.tree.span,
    );
    lemma_between(tokens, pos, operand.pos, span);
}

proof fn lemma_unary_places(tokens: Seq<Token>, pos: int)
    requires
        token::ends_in_eof(tokens),
        token::in_order(tokens),
        0 <= pos < tokens.len(),
    ensures
        placed(tokens, pos, grammar::unary(tokens, pos)),
    decreases tokens.len() - pos, 2nat,
{
    if grammar::at(tokens, pos, TokenKind::And) {
        let start = if grammar::at(tokens, pos + 1, TokenKind::Ident(kw::MUT())) {
            pos + 2
        } else {
            pos + 1
        };
        lemma_unary_places(tokens, start);
        lemma_prefix_places(tokens, pos, start, grammar::unary(tokens, start));
    } else if grammar::prefix(tokens[pos].kind) is Some {
        lemma_unary_places(tokens, pos + 1);
        lemma_prefix_places(tokens, pos, pos + 1, grammar::unary(tokens, pos + 1));
    } else {
        let base = grammar::primary(tokens, pos);
        lemma_primary_places(tokens, pos);
        assert(grammar::postfix(tokens, pos) == grammar::suffixes(tokens, base));
        lemma_suffixes_place(tokens, pos, base);
    }
}

proof fn lemma_binary_places(tokens: Seq<Token>, pos: int, min_power: nat)
    requires
        token::ends_in_eof(tokens),
        token::in_order(tokens),
        0 <= pos < tokens.len(),
    ensures
        placed(tokens, pos, grammar::binary(tokens, pos, min_power)),
    decreases tokens.len() - pos, 3nat,
{
    lemma_unary_places(tokens, pos);
    lemma_climb_places(tokens, pos, grammar::unary(tokens, pos), min_power);
}

proof fn lemma_climb_places(tokens: Seq<Token>, from: int, lhs: Parsed, min_power: nat)
    requires
        token::ends_in_eof(tokens),
        token::in_order(tokens),
        0 <= from,
        placed(tokens, from, lhs),
    ensures
        placed(tokens, from, grammar::climb(tokens, lhs, min_power)),
    decreases tokens.len() - lhs.pos, 0nat,
{
    if let Some((op, power)) = grammar::infix(tokens[lhs.pos].kind) {
        if power >= min_power {
            let rhs = grammar::binary(tokens, lhs.pos + 1, power + 1);
            lemma_binary_places(tokens, lhs.pos + 1, power + 1);
            lemma_union_between(
                tokens,
                from,
                lhs.pos,
                lhs.pos + 1,
                rhs.pos,
                lhs.tree.span,
                rhs.tree.span,
            );
            lemma_between(tokens, from, rhs.pos, lhs.tree.span.union(rhs.tree.span));
            lemma_climb_places(
                tokens,
                from,
                grammar::with_operand(tokens, lhs, op, rhs),
                min_power,
            );
        }
    }
}

/// Where the tokens follow one another, every node covers all of its children and
/// stands on tokens, from the start of one to the end of it or of a later one.
/// The whole expression starts where the first token does.
pub proof fn lemma_spans_cover_children(tokens: Seq<Token>)
    requires
        token::ends_in_eof(tokens),
        token::in_order(tokens),
    ensures
        nested(grammar::parsing(tokens).tree),
        anchored(tokens, grammar::parsing(tokens).tree),
        grammar::parsing(tokens).tree.span.wf(),
        grammar::parsing(tokens).tree.span.lo() == tokens[0].span.lo(),
        grammar::parsing(tokens).tree.span.hi().0 <= tokens.last().span.hi().0,
{
    lemma_binary_places(tokens, 0, 0);
    let read = grammar::binary(tokens, 0, 0);
    lemma_between(tokens, 0, read.pos, read.tree.span);
    token::laws::lemma_tokens_advance(tokens, read.pos, tokens.len() - 1);
}

/// Every node of the tree covers a piece of the text: its span is not inverted,
/// and both ends lie between characters.
pub open spec fn sliceable(source: Seq<char>, tree: Tree) -> bool
    decreases tree, 1nat,
{
    sliceable_span(source, tree.span) && sliceable_in(source, tree.node)
}

/// The span covers a piece of the text.
pub open spec fn sliceable_span(source: Seq<char>, span: Span) -> bool {
    &&& span.wf()
    &&& is_char_boundary(encode_utf8(source), span.lo().0 as int)
    &&& is_char_boundary(encode_utf8(source), span.hi().0 as int)
}

/// Every node below `node` covers a piece of the text.
pub open spec fn sliceable_in(source: Seq<char>, node: Node) -> bool
    decreases node, 0nat,
{
    match node {
        Node::Unary(_, operand) => sliceable(source, *operand),
        Node::Borrow { operand, .. } => sliceable(source, *operand),
        Node::Binary(_, lhs, rhs) => sliceable(source, *lhs) && sliceable(source, *rhs),
        Node::Call { callee, args } => {
            &&& sliceable(source, *callee)
            &&& forall|i: int| 0 <= i < args.len() ==> sliceable(source, #[trigger] args[i])
        },
        Node::Field { base, .. } => sliceable(source, *base),
        _ => true,
    }
}

proof fn lemma_anchored_slices(tokens: Seq<Token>, source: Seq<char>, tree: Tree)
    requires
        token::in_order(tokens),
        forall|i: int|
            0 <= i < tokens.len() ==> sliceable_span(source, (#[trigger] tokens[i]).span),
        anchored(tokens, tree),
    ensures
        sliceable(source, tree),
    decreases tree,
{
    let (i, j) = choose|i: int, j: int|
        0 <= i <= j < tokens.len() && tree.span.lo() == (#[trigger] tokens[i]).span.lo()
            && tree.span.hi() == (#[trigger] tokens[j]).span.hi();
    token::laws::lemma_tokens_advance(tokens, i, j);
    match tree.node {
        Node::Unary(_, operand) => {
            lemma_anchored_slices(tokens, source, *operand);
        },
        Node::Borrow { operand, .. } => {
            lemma_anchored_slices(tokens, source, *operand);
        },
        Node::Binary(_, lhs, rhs) => {
            lemma_anchored_slices(tokens, source, *lhs);
            lemma_anchored_slices(tokens, source, *rhs);
        },
        Node::Call { callee, args } => {
            lemma_anchored_slices(tokens, source, *callee);
            assert forall|k: int| 0 <= k < args.len() implies sliceable(
                source,
                #[trigger] args[k],
            ) by {
                lemma_anchored_slices(tokens, source, args[k]);
            }
        },
        Node::Field { base, .. } => {
            lemma_anchored_slices(tokens, source, *base);
        },
        _ => {},
    }
}

/// Whatever the text, every node of the expression read from it covers a piece of
/// it.
pub proof fn lemma_every_node_slices(source: Seq<char>, names: Seq<Seq<char>>)
    requires
        symbol::valid_names(names),
        text::byte_len(source) <= u32::MAX,
    ensures
        sliceable(source, grammar::parsing(token::lexing(source, names).tokens).tree),
{
    let tokens = token::lexing(source, names).tokens;
    token::laws::lemma_stream_ends_in_eof(source, names);
    assert forall|i: int| 0 <= i < tokens.len() implies sliceable_span(
        source,
        (#[trigger] tokens[i]).span,
    ) by {
        token::laws::lemma_spans_slice_back(source, names, i);
    }
    lemma_spans_cover_children(tokens);
    lemma_anchored_slices(tokens, source, grammar::parsing(tokens).tree);
}

} // verus!
