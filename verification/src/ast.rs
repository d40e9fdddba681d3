//! The abstract syntax tree.
//!
//! Every node carries a [`Span`], because a node that cannot point at source
//! text cannot be reported on.
//!
//! # Error nodes
//!
//! [`ExprKind::Error`] stands where the parser could not build a real node.
//! Without it, a syntax error would have to abort parsing, and one missing
//! operand would hide every other diagnostic in the file.
//!
//! There is no node for parentheses: grouping only widens the inner node's span.
//!
//! # Trees
//!
//! Contracts speak of a [`Tree`], which is an [`Expr`] with its boxes and vectors
//! taken for what they hold.
use crate::span::Span;
use crate::symbol::Symbol;
use vstd::prelude::*;

verus! {

/// An expression together with the source range it covers.
#[derive(PartialEq, Eq, Debug)]
pub struct Expr {
    pub kind: ExprKind,
    pub span: Span,
}

/// Boxed because expressions nest, so the type is recursive.
#[derive(PartialEq, Eq, Debug)]
pub enum ExprKind {
    /// An integer literal, still as written; see [`crate::token::TokenKind::Int`].
    Int(Symbol),
    /// `true` or `false`.
    ///
    /// Recognised by the parser rather than the lexer, because `true` arrives as
    /// an identifier whose symbol happens to be a keyword.
    Bool(bool),
    /// A bare name.
    Path(Symbol),
    /// A prefix operator and its operand.
    Unary(UnOp, Box<Expr>),
    /// `&x` or `&mut x`.
    ///
    /// Separate from [`ExprKind::Unary`] because the mutability is part of the
    /// operator, and because borrows are what a borrow checker looks for.
    Borrow { mutable: bool, operand: Box<Expr> },
    /// An infix operator between its operands.
    Binary(BinOp, Box<Expr>, Box<Expr>),
    /// `callee(args)`
    Call { callee: Box<Expr>, args: Vec<Expr> },
    /// `base.name`
    Field { base: Box<Expr>, name: Symbol },
    /// A node the parser could not build. See the module documentation.
    Error,
}

/// The prefix operators.
#[derive(Copy, Clone, PartialEq, Eq, Structural, Debug)]
pub enum UnOp {
    /// `-`
    Neg,
    /// `!`
    Not,
    /// `*`
    Deref,
}

impl UnOp {
    /// How the operator is written.
    pub open spec fn spelling(self) -> Seq<char> {
        match self {
            UnOp::Neg => seq!['-'],
            UnOp::Not => seq!['!'],
            UnOp::Deref => seq!['*'],
        }
    }

    /// The operator as written, for diagnostics.
    pub fn as_str(self) -> (written: &'static str)
        ensures
            written@ == self.spelling(),
    {
        proof {
            reveal_strlit("-");
            reveal_strlit("!");
            reveal_strlit("*");
        }
        match self {
            UnOp::Neg => "-",
            UnOp::Not => "!",
            UnOp::Deref => "*",
        }
    }
}

/// The infix operators.
#[derive(Copy, Clone, PartialEq, Eq, Structural, Debug)]
pub enum BinOp {
    /// `+`
    Add,
    /// `-`
    Sub,
    /// `*`
    Mul,
    /// `/`
    Div,
    /// `%`
    Rem,
    /// `==`
    Eq,
    /// `!=`
    Ne,
    /// `<`
    Lt,
    /// `<=`
    Le,
    /// `>`
    Gt,
    /// `>=`
    Ge,
    /// `&&`
    And,
}

impl BinOp {
    /// How the operator is written.
    pub open spec fn spelling(self) -> Seq<char> {
        match self {
            BinOp::Add => seq!['+'],
            BinOp::Sub => seq!['-'],
            BinOp::Mul => seq!['*'],
            BinOp::Div => seq!['/'],
            BinOp::Rem => seq!['%'],
            BinOp::Eq => seq!['=', '='],
            BinOp::Ne => seq!['!', '='],
            BinOp::Lt => seq!['<'],
            BinOp::Le => seq!['<', '='],
            BinOp::Gt => seq!['>'],
            BinOp::Ge => seq!['>', '='],
            BinOp::And => seq!['&', '&'],
        }
    }

    /// The operator as written, for diagnostics.
    pub fn as_str(self) -> (written: &'static str)
        ensures
            written@ == self.spelling(),
    {
        proof {
            reveal_strlit("+");
            reveal_strlit("-");
            reveal_strlit("*");
            reveal_strlit("/");
            reveal_strlit("%");
            reveal_strlit("==");
            reveal_strlit("!=");
            reveal_strlit("<");
            reveal_strlit("<=");
            reveal_strlit(">");
            reveal_strlit(">=");
            reveal_strlit("&&");
        }
        match self {
            BinOp::Add => "+",
            BinOp::Sub => "-",
            BinOp::Mul => "*",
            BinOp::Div => "/",
            BinOp::Rem => "%",
            BinOp::Eq => "==",
            BinOp::Ne => "!=",
            BinOp::Lt => "<",
            BinOp::Le => "<=",
            BinOp::Gt => ">",
            BinOp::Ge => ">=",
            BinOp::And => "&&",
        }
    }
}

/// An expression as a mathematical value.
pub struct Tree {
    pub node: Node,
    pub span: Span,
}

/// What a [`Tree`] is at its root.
pub enum Node {
    Int(Symbol),
    Bool(bool),
    Path(Symbol),
    Unary(UnOp, Box<Tree>),
    Borrow { mutable: bool, operand: Box<Tree> },
    Binary(BinOp, Box<Tree>, Box<Tree>),
    Call { callee: Box<Tree>, args: Seq<Tree> },
    Field { base: Box<Tree>, name: Symbol },
    Error,
}

impl Expr {
    /// The tree that the expression is.
    pub open spec fn tree(self) -> Tree
        decreases self, 1nat,
    {
        Tree { node: self.kind.node(), span: self.span }
    }
}

impl ExprKind {
    /// What the expression is at its root.
    pub open spec fn node(self) -> Node
        decreases self, 0nat,
    {
        match self {
            ExprKind::Int(symbol) => Node::Int(symbol),
            ExprKind::Bool(value) => Node::Bool(value),
            ExprKind::Path(symbol) => Node::Path(symbol),
            ExprKind::Unary(op, operand) => Node::Unary(op, Box::new(operand.tree())),
            ExprKind::Borrow { mutable, operand } => Node::Borrow {
                mutable,
                operand: Box::new(operand.tree()),
            },
            ExprKind::Binary(op, lhs, rhs) => Node::Binary(
                op,
                Box::new(lhs.tree()),
                Box::new(rhs.tree()),
            ),
            ExprKind::Call { callee, args } => Node::Call {
                callee: Box::new(callee.tree()),
                args: trees(args@),
            },
            ExprKind::Field { base, name } => Node::Field { base: Box::new(base.tree()), name },
            ExprKind::Error => Node::Error,
        }
    }
}

impl Clone for Expr {
    fn clone(&self) -> (copy: Expr)
        ensures
            copy.tree() == self.tree(),
        decreases *self, 1nat,
    {
        Expr { kind: self.kind.clone(), span: self.span }
    }
}

impl Clone for ExprKind {
    fn clone(&self) -> (copy: ExprKind)
        ensures
            copy.node() == self.node(),
        decreases *self, 0nat,
    {
        match self {
            ExprKind::Int(symbol) => ExprKind::Int(*symbol),
            ExprKind::Bool(value) => ExprKind::Bool(*value),
            ExprKind::Path(symbol) => ExprKind::Path(*symbol),
            ExprKind::Unary(op, operand) => ExprKind::Unary(*op, Box::new((**operand).clone())),
            ExprKind::Borrow { mutable, operand } => ExprKind::Borrow {
                mutable: *mutable,
                operand: Box::new((**operand).clone()),
            },
            ExprKind::Binary(op, lhs, rhs) => ExprKind::Binary(
                *op,
                Box::new((**lhs).clone()),
                Box::new((**rhs).clone()),
            ),
            ExprKind::Call { callee, args } => {
                let mut copies: Vec<Expr> = Vec::new();
                for i in 0..args.len()
                    invariant
                        decreases_to!(self => args),
                        copies@.len() == i,
                        trees(copies@) == trees(args@.take(i as int)),
                {
                    let ghost before = copies@;
                    copies.push(args[i].clone());
                    proof {
                        assert(args@.take(i as int + 1).drop_last() =~= args@.take(i as int));
                        assert(copies@.drop_last() =~= before);
                    }
                }
                assert(args@.take(args@.len() as int) =~= args@);
                ExprKind::Call { callee: Box::new((**callee).clone()), args: copies }
            },
            ExprKind::Field { base, name } => ExprKind::Field {
                base: Box::new((**base).clone()),
                name: *name,
            },
            ExprKind::Error => ExprKind::Error,
        }
    }
}

/// The trees that the expressions are.
pub open spec fn trees(exprs: Seq<Expr>) -> Seq<Tree>
    decreases exprs, 0nat,
{
    if exprs.len() == 0 {
        Seq::empty()
    } else {
        trees(exprs.drop_last()).push(exprs.last().tree())
    }
}

/// The tree of an expression mirrors it node by node: the same variant with the
/// same names and operators, the same span, and the children in the same order.
pub proof fn lemma_trees_mirror_expressions(expr: Expr)
    ensures
        expr.tree().span == expr.span,
        match expr.kind {
            ExprKind::Int(symbol) => expr.tree().node == Node::Int(symbol),
            ExprKind::Bool(value) => expr.tree().node == Node::Bool(value),
            ExprKind::Path(symbol) => expr.tree().node == Node::Path(symbol),
            ExprKind::Unary(op, operand) => expr.tree().node == Node::Unary(
                op,
                Box::new(operand.tree()),
            ),
            ExprKind::Borrow { mutable, operand } => expr.tree().node == (Node::Borrow {
                mutable,
                operand: Box::new(operand.tree()),
            }),
            ExprKind::Binary(op, lhs, rhs) => expr.tree().node == Node::Binary(
                op,
                Box::new(lhs.tree()),
                Box::new(rhs.tree()),
            ),
            ExprKind::Call { callee, args } => match expr.tree().node {
                Node::Call { callee: tree, args: list } => {
                    &&& *tree == callee.tree()
                    &&& list.len() == args@.len()
                    &&& forall|i: int|
                        0 <= i < list.len() ==> #[trigger] list[i] == args@[i].tree()
                },
                _ => false,
            },
            ExprKind::Field { base, name } => expr.tree().node == (Node::Field {
                base: Box::new(base.tree()),
                name,
            }),
            ExprKind::Error => expr.tree().node == Node::Error,
        },
{
    if let ExprKind::Call { callee, args } = expr.kind {
        lemma_trees_in_order(args@);
    }
}

proof fn lemma_trees_in_order(exprs: Seq<Expr>)
    ensures
        trees(exprs).len() == exprs.len(),
        forall|i: int| 0 <= i < exprs.len() ==> #[trigger] trees(exprs)[i] == exprs[i].tree(),
    decreases exprs.len(),
{
    if exprs.len() > 0 {
        let front = exprs.drop_last();
        lemma_trees_in_order(front);
        assert forall|i: int| 0 <= i < exprs.len() implies #[trigger] trees(exprs)[i]
            == exprs[i].tree() by {
            if i < front.len() {
                assert(trees(front)[i] == front[i].tree());
            }
        }
    }
}

} // verus!
