//! The expression parser.
use tinyrustc::ast::{BinOp, Expr, ExprKind, UnOp};
use tinyrustc::parser::{binding_power, parse_expr, Parser};
use tinyrustc::symbol::Interner;
use tinyrustc::token::{lex, TokenKind};

/// Renders an expression as an S-expression, so precedence is visible at a
/// glance and expectations stay short.
fn render(expr: &Expr, interner: &Interner) -> String {
    match &expr.kind {
        ExprKind::Int(symbol) | ExprKind::Path(symbol) => interner.get(*symbol).to_string(),
        ExprKind::Bool(value) => value.to_string(),
        ExprKind::Unary(op, operand) => {
            let name = match op {
                UnOp::Neg => "neg",
                UnOp::Not => "not",
                UnOp::Deref => "deref",
            };
            format!("({name} {})", render(operand, interner))
        }
        ExprKind::Borrow { mutable, operand } => {
            let name = if *mutable { "&mut" } else { "&" };
            format!("({name} {})", render(operand, interner))
        }
        ExprKind::Binary(op, lhs, rhs) => format!(
            "({} {} {})",
            op.as_str(),
            render(lhs, interner),
            render(rhs, interner),
        ),
        ExprKind::Call { callee, args } => {
            let mut out = format!("(call {}", render(callee, interner));
            for arg in args {
                out.push(' ');
                out.push_str(&render(arg, interner));
            }
            out.push(')');
            out
        }
        ExprKind::Field { base, name } => {
            format!("(field {} {})", render(base, interner), interner.get(*name))
        }
        ExprKind::Error => "<err>".to_string(),
    }
}

/// The rendered tree only.
fn tree(text: &str) -> String {
    let mut interner = Interner::new();
    let (tokens, _) = lex(text, &mut interner);
    let (expr, errors) = parse_expr(&tokens);
    assert!(errors.is_empty(), "unexpected errors: {errors:?}");
    render(&expr, &interner)
}

/// The rendered tree and the error messages, for recovery tests.
fn tree_and_errors(text: &str) -> (String, Vec<String>) {
    let mut interner = Interner::new();
    let (tokens, _) = lex(text, &mut interner);
    let (expr, errors) = parse_expr(&tokens);
    let messages = errors.into_iter().map(|error| error.message).collect();
    (render(&expr, &interner), messages)
}

#[test]
fn a_literal_parses_to_itself() {
    assert_eq!(tree("1"), "1");
    assert_eq!(tree("1_000"), "1_000");
    assert_eq!(tree("true"), "true");
    assert_eq!(tree("false"), "false");
    assert_eq!(tree("x"), "x");
}

#[test]
fn multiplication_binds_tighter_than_addition() {
    assert_eq!(tree("a + b * c"), "(+ a (* b c))");
    assert_eq!(tree("a * b + c"), "(+ (* a b) c)");
    assert_eq!(tree("a % b * c"), "(* (% a b) c)");
}

#[test]
fn arithmetic_is_left_associative() {
    assert_eq!(tree("a - b - c"), "(- (- a b) c)");
    assert_eq!(tree("a / b / c"), "(/ (/ a b) c)");
}

#[test]
fn comparison_binds_tighter_than_conjunction() {
    assert_eq!(tree("a && b == c"), "(&& a (== b c))");
    assert_eq!(tree("a < b && c"), "(&& (< a b) c)");
}

#[test]
fn arithmetic_binds_tighter_than_comparison() {
    assert_eq!(tree("a + b < c * d"), "(< (+ a b) (* c d))");
}

#[test]
fn parentheses_override_precedence() {
    assert_eq!(tree("(a + b) * c"), "(* (+ a b) c)");
    assert_eq!(tree("a * (b + c)"), "(* a (+ b c))");
}

#[test]
fn prefix_operators_bind_tighter_than_any_infix() {
    assert_eq!(tree("-a + b"), "(+ (neg a) b)");
    assert_eq!(tree("*p + 1"), "(+ (deref p) 1)");
    assert_eq!(tree("!a && b"), "(&& (not a) b)");
}

#[test]
fn prefix_operators_nest() {
    assert_eq!(tree("- - a"), "(neg (neg a))");
    assert_eq!(tree("!*p"), "(not (deref p))");
}

#[test]
fn a_borrow_carries_its_mutability() {
    assert_eq!(tree("&x"), "(& x)");
    assert_eq!(tree("&mut x"), "(&mut x)");
    assert_eq!(tree("&x + 1"), "(+ (& x) 1)");
}

#[test]
fn calls_and_fields_chain_left_to_right() {
    assert_eq!(tree("f()"), "(call f)");
    assert_eq!(tree("f(a, b)"), "(call f a b)");
    assert_eq!(tree("f(a,)"), "(call f a)");
    assert_eq!(tree("a.b.c"), "(field (field a b) c)");
    assert_eq!(tree("f(a).b"), "(field (call f a) b)");
    assert_eq!(tree("a.b(c)"), "(call (field a b) c)");
}

#[test]
fn call_arguments_are_full_expressions() {
    assert_eq!(tree("f(a + b, *c)"), "(call f (+ a b) (deref c))");
}

// ---- Recovery ----

/// A missing operand becomes an error node, so the surrounding tree survives
/// for later passes.
#[test]
fn a_missing_operand_becomes_an_error_node() {
    let (rendered, errors) = tree_and_errors("a +");
    assert_eq!(rendered, "(+ a <err>)");
    assert_eq!(errors, ["expected an expression"]);
}

/// Empty input terminates rather than looping, because `advance` is a no-op
/// at Eof and no loop continues on Eof.
#[test]
fn empty_input_reports_once_and_terminates() {
    let (rendered, errors) = tree_and_errors("");
    assert_eq!(rendered, "<err>");
    assert_eq!(errors, ["expected an expression"]);
}

/// The leading operator is consumed, so the parser makes progress and then
/// notices the leftover token.
#[test]
fn a_leading_infix_operator_is_reported_twice() {
    let (rendered, errors) = tree_and_errors("+ a");
    assert_eq!(rendered, "<err>");
    assert_eq!(
        errors,
        [
            "expected an expression",
            "unexpected token after expression"
        ],
    );
}

#[test]
fn an_unclosed_call_is_reported() {
    let (rendered, errors) = tree_and_errors("f(a");
    assert_eq!(rendered, "(call f a)");
    assert_eq!(errors, ["expected `)`"]);
}

#[test]
fn a_keyword_cannot_start_an_expression() {
    let (_, errors) = tree_and_errors("let");
    assert_eq!(errors, ["expected an expression"]);
}

#[test]
fn a_keyword_cannot_be_a_field_name() {
    let (rendered, errors) = tree_and_errors("a.let");
    assert_eq!(rendered, "<err>");
    assert_eq!(errors, ["expected a field name"]);
}

/// The lexer glues `&&` into one token, so a double reference cannot be parsed.
#[test]
fn a_double_reference_is_not_yet_parsable() {
    let (rendered, errors) = tree_and_errors("&&x");
    assert_eq!(rendered, "<err>");
    assert_eq!(
        errors,
        [
            "expected an expression",
            "unexpected token after expression"
        ],
    );
}

// ---- Spans ----

#[test]
fn a_nodes_span_covers_all_of_its_children() {
    let text = "a + b * c";
    let mut interner = Interner::new();
    let (tokens, _) = lex(text, &mut interner);
    let (expr, _) = parse_expr(&tokens);
    assert_eq!(expr.span.slice(text), text);
}

#[test]
fn parentheses_are_included_in_the_span() {
    let text = "(a + b)";
    let mut interner = Interner::new();
    let (tokens, _) = lex(text, &mut interner);
    let (expr, _) = parse_expr(&tokens);
    assert_eq!(expr.span.slice(text), text);
}

/// Every infix operator with how tightly it binds.
const INFIX: [(&str, u32); 12] = [
    ("&&", 1),
    ("==", 2),
    ("!=", 2),
    ("<", 2),
    ("<=", 2),
    (">", 2),
    (">=", 2),
    ("+", 3),
    ("-", 3),
    ("*", 4),
    ("/", 4),
    ("%", 4),
];

/// An operator takes its left neighbour unless the next one binds tighter.
#[test]
fn every_pair_of_operators_groups_by_precedence() {
    for (first, tight) in INFIX {
        for (second, tighter) in INFIX {
            let text = format!("a {first} b {second} c");
            let expected = if tight >= tighter {
                format!("({second} ({first} a b) c)")
            } else {
                format!("({first} a ({second} b c))")
            };
            assert_eq!(tree(&text), expected);
        }
    }
}

#[test]
fn comparison_is_left_associative() {
    assert_eq!(tree("a < b < c"), "(< (< a b) c)");
    assert_eq!(tree("a == b != c"), "(!= (== a b) c)");
}

#[test]
fn all_levels_together() {
    assert_eq!(
        tree("!f(a).b + c * -d == e && &mut *g"),
        "(&& (== (+ (not (field (call f a) b)) (* c (neg d))) e) (&mut (deref g)))",
    );
    assert_eq!(tree("a - (b - c) - d"), "(- (- a (- b c)) d)");
    assert_eq!(tree("((((a))))"), "a");
    assert_eq!(tree("(-a).b"), "(field (neg a) b)");
    assert_eq!(tree("-a.b"), "(neg (field a b))");
    assert_eq!(tree("(f)(g)(h,)"), "(call (call f g) h)");
    assert_eq!(tree("f((a), )"), "(call f a)");
}

#[test]
fn every_message_has_its_cause() {
    for (text, rendered, expected) in [
        ("", "<err>", vec!["expected an expression"]),
        ("(a", "a", vec!["expected `)`"]),
        ("()", "<err>", vec!["expected an expression", "expected `)`"]),
        ("a.1", "<err>", vec!["expected a field name"]),
        ("a.", "<err>", vec!["expected a field name"]),
        ("a b", "a", vec!["unexpected token after expression"]),
        ("f(,)", "(call f <err>)", vec!["expected an expression"]),
        ("f(a,,)", "(call f a <err>)", vec!["expected an expression"]),
        ("f(a b)", "(call f a)", vec!["expected `)`", "unexpected token after expression"]),
        ("-", "(neg <err>)", vec!["expected an expression"]),
        ("&mut", "(&mut <err>)", vec!["expected an expression"]),
        ("a && && b", "(&& a <err>)", vec![
            "expected an expression",
            "unexpected token after expression",
        ]),
    ] {
        let (found, errors) = tree_and_errors(text);
        assert_eq!(found, rendered, "{text:?}");
        assert_eq!(errors, expected, "{text:?}");
    }
}

#[test]
fn errors_point_at_what_is_there_instead() {
    let text = "f(a b";
    let mut interner = Interner::new();
    let (tokens, _) = lex(text, &mut interner);
    let (_, errors) = parse_expr(&tokens);
    assert_eq!(errors.len(), 2);
    assert_eq!(errors[0].span.slice(text), "b");
    assert_eq!(errors[0].message, "expected `)`");
    assert_eq!(errors[1].span.slice(text), "b");
    assert_eq!(errors[1].clone(), errors[1]);
}

/// Whether the tree holds a node that could not be built.
fn is_broken(expr: &Expr) -> bool {
    match &expr.kind {
        ExprKind::Unary(_, operand) | ExprKind::Borrow { operand, .. } => is_broken(operand),
        ExprKind::Binary(_, lhs, rhs) => is_broken(lhs) || is_broken(rhs),
        ExprKind::Call { callee, args } => is_broken(callee) || args.iter().any(is_broken),
        ExprKind::Field { base, .. } => is_broken(base),
        ExprKind::Error => true,
        _ => false,
    }
}

/// Whether every node covers its children.
fn is_nested(expr: &Expr) -> bool {
    let covers =
        |child: &Expr| expr.span.to(child.span) == expr.span && is_nested(child);
    match &expr.kind {
        ExprKind::Unary(_, operand) | ExprKind::Borrow { operand, .. } => covers(operand),
        ExprKind::Binary(_, lhs, rhs) => covers(lhs) && covers(rhs),
        ExprKind::Call { callee, args } => covers(callee) && args.iter().all(covers),
        ExprKind::Field { base, .. } => covers(base),
        _ => true,
    }
}

/// Short inputs of every shape, most of them wrong.
fn scraps() -> Vec<String> {
    let words = ["a", "1", "true", "let", "mut", "(", ")", ",", ".", "-", "&", "&&", "==", "*"];
    let mut inputs = vec![String::new()];
    let mut longest = vec![String::new()];
    for _ in 0..4 {
        let mut next = Vec::new();
        for input in &longest {
            for word in words {
                next.push(format!("{input}{word} "));
            }
        }
        inputs.extend(next.iter().cloned());
        longest = next;
    }
    inputs
}

/// A broken node never goes unreported, every node covers its children, and the
/// whole starts where the first token does.
#[test]
fn any_input_gives_a_nested_tree_and_honest_errors() {
    for text in scraps() {
        let mut interner = Interner::new();
        let (tokens, _) = lex(&text, &mut interner);
        let (expr, errors) = parse_expr(&tokens);
        assert!(!is_broken(&expr) || !errors.is_empty(), "{text:?}");
        assert!(is_nested(&expr), "{text:?}");
        assert_eq!(expr.span.lo(), tokens[0].span.lo(), "{text:?}");
        if errors.is_empty() {
            // Nothing wrong: the span reaches from the first token to the last.
            assert_eq!(expr.span.slice(&text), text.trim_end(), "{text:?}");
        }
    }
}

#[test]
fn a_cloned_tree_is_equal() {
    let mut interner = Interner::new();
    let (tokens, _) = lex("f(-a, &mut b.c, true) + (1 == x.", &mut interner);
    let (expr, _) = parse_expr(&tokens);
    assert_eq!(expr.clone(), expr);
}

/// The parser itself stops at whatever cannot continue the expression.
#[test]
fn one_expression_at_a_time() {
    let mut interner = Interner::new();
    let (tokens, _) = lex("a + b c d", &mut interner);
    let mut parser = Parser::new(&tokens);
    assert_eq!(render(&parser.expr(), &interner), "(+ a b)");
    assert_eq!(render(&parser.expr(), &interner), "c");
    assert_eq!(render(&parser.expr(), &interner), "d");
    assert_eq!(render(&parser.expr(), &interner), "<err>");
}

#[test]
fn operators_are_written_as_they_are_read() {
    for op in [UnOp::Neg, UnOp::Not, UnOp::Deref] {
        let text = format!("{}x", op.as_str());
        let mut interner = Interner::new();
        let (tokens, _) = lex(&text, &mut interner);
        let (expr, errors) = parse_expr(&tokens);
        assert!(errors.is_empty());
        match expr.kind {
            ExprKind::Unary(found, _) => assert_eq!(found, op),
            other => panic!("expected a prefix operator, got {other:?}"),
        }
    }
    for (text, _) in INFIX {
        assert_eq!(tree(&format!("a {text} b")), format!("({text} a b)"));
    }
}

/// Where the tokens stand moves the spans and nothing else.
#[test]
fn kinds_decide_the_tree_and_the_messages() {
    for words in [
        vec!["a", "+", "b", "*", "c"],
        vec!["f", "(", "a", ",", "-", "b", ")", ".", "x"],
        vec!["(", "a", "b"],
        vec!["+", "a", ".", "1", ")"],
        vec!["f", "(", "let", ",", "&&"],
    ] {
        let tight = words.join(" ");
        let loose = format!("/* x */ {} // y", words.join("\n\t"));
        let mut interner = Interner::new();
        let (first, _) = lex(&tight, &mut interner);
        let (second, _) = lex(&loose, &mut interner);
        let (left, ours) = parse_expr(&first);
        let (right, theirs) = parse_expr(&second);
        assert_eq!(render(&left, &interner), render(&right, &interner));
        assert_eq!(ours.len(), theirs.len());
        for (a, b) in ours.iter().zip(&theirs) {
            assert_eq!(a.message, b.message);
            assert_eq!(
                first.iter().position(|token| token.span == a.span),
                second.iter().position(|token| token.span == b.span),
            );
        }
    }
}

/// How many nodes of the tree could not be built.
fn error_nodes(expr: &Expr) -> usize {
    match &expr.kind {
        ExprKind::Unary(_, operand) | ExprKind::Borrow { operand, .. } => error_nodes(operand),
        ExprKind::Binary(_, lhs, rhs) => error_nodes(lhs) + error_nodes(rhs),
        ExprKind::Call { callee, args } => {
            error_nodes(callee) + args.iter().map(error_nodes).sum::<usize>()
        }
        ExprKind::Field { base, .. } => error_nodes(base),
        ExprKind::Error => 1,
        _ => 0,
    }
}

/// Whether every node of the tree covers a piece of the text.
fn every_node_slices(expr: &Expr, text: &str) -> bool {
    let slices = |child: &Expr| every_node_slices(child, text);
    let (lo, hi) = (expr.span.lo().0 as usize, expr.span.hi().0 as usize);
    text.get(lo..hi).is_some()
        && match &expr.kind {
            ExprKind::Unary(_, operand) | ExprKind::Borrow { operand, .. } => slices(operand),
            ExprKind::Binary(_, lhs, rhs) => slices(lhs) && slices(rhs),
            ExprKind::Call { callee, args } => slices(callee) && args.iter().all(slices),
            ExprKind::Field { base, .. } => slices(base),
            _ => true,
        }
}

#[test]
fn error_nodes_are_counted_and_every_node_slices() {
    for text in scraps() {
        let text = text.replace('a', "\u{3042}");
        let mut interner = Interner::new();
        let (tokens, _) = lex(&text, &mut interner);
        let (expr, errors) = parse_expr(&tokens);
        let reports = errors
            .iter()
            .filter(|error| {
                error.message == "expected an expression" || error.message == "expected a field name"
            })
            .count();
        assert!(error_nodes(&expr) <= reports, "{text:?}");
        assert!(every_node_slices(&expr, &text), "{text:?}");
    }
}

/// Operators nest the same way whatever is missing around them.
#[test]
fn operators_nest_the_same_in_faulty_input() {
    for (text, rendered) in [
        ("a + b * ", "(+ a (* b <err>))"),
        ("a * + b", "(* a <err>)"),
        ("(a + b * c", "(+ a (* b c))"),
        ("f(a + b * c, - ", "(call f (+ a (* b c)) (neg <err>))"),
        ("a. + b * c", "<err>"),
        ("- a.let == b && c", "(&& (== (neg <err>) b) c)"),
        ("a - , - c * d", "(- (- a <err>) (* c d))"),
    ] {
        assert_eq!(tree_and_errors(text).0, rendered, "{text:?}");
    }
}

/// The whole precedence table, and nothing outside it.
#[test]
fn the_precedence_table_is_complete() {
    for (kind, op, power) in [
        (TokenKind::AndAnd, BinOp::And, 1),
        (TokenKind::EqEq, BinOp::Eq, 2),
        (TokenKind::Ne, BinOp::Ne, 2),
        (TokenKind::Lt, BinOp::Lt, 2),
        (TokenKind::Le, BinOp::Le, 2),
        (TokenKind::Gt, BinOp::Gt, 2),
        (TokenKind::Ge, BinOp::Ge, 2),
        (TokenKind::Plus, BinOp::Add, 3),
        (TokenKind::Minus, BinOp::Sub, 3),
        (TokenKind::Star, BinOp::Mul, 4),
        (TokenKind::Slash, BinOp::Div, 4),
        (TokenKind::Percent, BinOp::Rem, 4),
    ] {
        assert_eq!(binding_power(kind), Some((op, power)));
    }
    for kind in [
        TokenKind::And,
        TokenKind::Eq,
        TokenKind::Bang,
        TokenKind::RArrow,
        TokenKind::Dot,
        TokenKind::Comma,
        TokenKind::Colon,
        TokenKind::Semi,
        TokenKind::OpenParen,
        TokenKind::CloseParen,
        TokenKind::OpenBrace,
        TokenKind::CloseBrace,
        TokenKind::Eof,
    ] {
        assert_eq!(binding_power(kind), None);
    }
}
