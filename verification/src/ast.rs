//! Syntax tree of Circom template bodies.

use vstd::prelude::*;

verus! {

broadcast use vstd::std_specs::vec::axiom_vec_decreases_to_view;

/// Kind of a signal declaration.
#[derive(Debug, Clone, PartialEq, Eq, Structural)]
pub enum SignalKind {
    Input,
    Output,
    Intermediate,
}

/// Operator on the left of an `=`-shaped assignment.
#[derive(Debug, Clone, PartialEq, Eq, Structural)]
pub enum AssignOp {
    /// `var x = expr;` or `x = expr;` (compile-time `var` mutation).
    VarAssign,
    /// `x <== expr;` — assignment + constraint.
    SignalAssignConstrain,
    /// `x <-- expr;` — assignment without constraint.
    SignalAssign,
}

#[derive(Debug, Clone, Copy, PartialEq, Eq, Structural)]
pub enum BinOp {
    Add,
    Sub,
    Mul,
    Div,
    Mod,
    Lt,
    Le,
    Gt,
    Ge,
    Eq,
    Ne,
    And,
    Or,
    BitAnd,
    BitOr,
    BitXor,
    Shl,
    Shr,
}

#[derive(Debug, Clone, Copy, PartialEq, Eq, Structural)]
pub enum UnaryOp {
    Neg,
    Not,
}

#[derive(Debug)]
pub enum Expr {
    /// Integer literal (positive only — unary minus is `Unary`).
    Int(i64),
    /// Plain identifier (variable or signal in scope).
    Ident(String),
    /// Member access `a.b` (typically `component.signal`).
    Member(Box<Expr>, String),
    /// Indexed access `a[i]`.
    Index(Box<Expr>, Box<Expr>),
    /// Binary operator on two sub-expressions.
    Binary(BinOp, Box<Expr>, Box<Expr>),
    /// Unary operator on one sub-expression.
    Unary(UnaryOp, Box<Expr>),
    /// Parenthesised expression.
    Paren(Box<Expr>),
    /// Call expression: `Foo(args...)`.
    Call(String, Vec<Expr>),
}

#[derive(Debug)]
pub enum Stmt {
    /// `var x;` or `var x = expr;`.
    VarDecl { line: u32, name: String, init: Option<Expr> },
    /// `signal x;` / `signal input x;` / `signal output x;`, with optional
    /// dimensions for arrays, e.g. `signal x[3];`.
    SignalDecl { line: u32, name: String, kind: SignalKind, dims: Vec<Expr> },
    /// `lhs = expr;` or `lhs <== expr;` or `lhs <-- expr;`.
    Assign { line: u32, op: AssignOp, lhs: Expr, rhs: Expr },
    /// `lhs === rhs;`.
    Constraint { line: u32, lhs: Expr, rhs: Expr },
    /// `if (cond) { then } else { else_block }`.
    If { line: u32, cond: Expr, then_block: Vec<Stmt>, else_block: Vec<Stmt> },
    /// `for (init; cond; update) { body }`.
    For { line: u32, init: Box<Stmt>, cond: Expr, update: Box<Stmt>, body: Vec<Stmt> },
    /// `component name = Template(args);`.
    ComponentDecl { line: u32, name: String, template: String, args: Vec<Expr> },
    /// Naked expression statement.
    ExprStmt { line: u32, expr: Expr },
    /// `return expr;`.
    Return { line: u32, value: Option<Expr> },
}

/// A parsed template definition.
#[derive(Debug)]
pub struct Template {
    pub name: String,
    /// 1-based source line of the template's name.
    pub line: u32,
    /// Numeric / generic parameters declared in the template's header
    /// (e.g. `template T(N) { ... }` -> `["N"]`).
    pub generic_params: Vec<String>,
    /// Statements inside the template body, in source order.
    pub body: Vec<Stmt>,
    /// Names of `signal input` declarations directly in the body, in
    /// source order.
    pub input_signals: Vec<String>,
}

/// The mathematical form of an expression.
pub enum ExprV {
    Int(i64),
    Ident(Seq<char>),
    Member(Box<ExprV>, Seq<char>),
    Index(Box<ExprV>, Box<ExprV>),
    Binary(BinOp, Box<ExprV>, Box<ExprV>),
    Unary(UnaryOp, Box<ExprV>),
    Paren(Box<ExprV>),
    Call(Seq<char>, Seq<ExprV>),
}

/// The mathematical form of a statement.
pub enum StmtV {
    VarDecl { line: u32, name: Seq<char>, init: Option<ExprV> },
    SignalDecl { line: u32, name: Seq<char>, kind: SignalKind, dims: Seq<ExprV> },
    Assign { line: u32, op: AssignOp, lhs: ExprV, rhs: ExprV },
    Constraint { line: u32, lhs: ExprV, rhs: ExprV },
    If { line: u32, cond: ExprV, then_block: Seq<StmtV>, else_block: Seq<StmtV> },
    For { line: u32, init: Box<StmtV>, cond: ExprV, update: Box<StmtV>, body: Seq<StmtV> },
    ComponentDecl { line: u32, name: Seq<char>, template: Seq<char>, args: Seq<ExprV> },
    ExprStmt { line: u32, expr: ExprV },
    Return { line: u32, value: Option<ExprV> },
}

/// The mathematical form of a template.
pub struct TemplateV {
    pub name: Seq<char>,
    pub line: u32,
    pub generic_params: Seq<Seq<char>>,
    pub body: Seq<StmtV>,
    pub input_signals: Seq<Seq<char>>,
}

pub open spec fn expr_view(e: Expr) -> ExprV
    decreases e,
{
    match e {
        Expr::Int(n) => ExprV::Int(n),
        Expr::Ident(s) => ExprV::Ident(s@),
        Expr::Member(b, s) => ExprV::Member(Box::new(expr_view(*b)), s@),
        Expr::Index(b, i) => ExprV::Index(Box::new(expr_view(*b)), Box::new(expr_view(*i))),
        Expr::Binary(op, l, r) => ExprV::Binary(op, Box::new(expr_view(*l)), Box::new(expr_view(*r))),
        Expr::Unary(op, b) => ExprV::Unary(op, Box::new(expr_view(*b))),
        Expr::Paren(b) => ExprV::Paren(Box::new(expr_view(*b))),
        Expr::Call(n, args) => ExprV::Call(n@, exprs_view(args@)),
    }
}

pub open spec fn exprs_view(v: Seq<Expr>) -> Seq<ExprV>
    decreases v,
{
    if v.len() == 0 {
        Seq::empty()
    } else {
        exprs_view(v.drop_last()).push(expr_view(v.last()))
    }
}

pub proof fn lemma_exprs_view(v: Seq<Expr>)
    ensures
        exprs_view(v).len() == v.len(),
        forall|i: int| 0 <= i < v.len() ==> #[trigger] exprs_view(v)[i] == expr_view(v[i]),
    decreases v.len(),
{
    if v.len() > 0 {
        lemma_exprs_view(v.drop_last());
    }
}

pub proof fn lemma_stmts_view(v: Seq<Stmt>)
    ensures
        stmts_view(v).len() == v.len(),
        forall|i: int| 0 <= i < v.len() ==> #[trigger] stmts_view(v)[i] == stmt_view(v[i]),
    decreases v.len(),
{
    if v.len() > 0 {
        lemma_stmts_view(v.drop_last());
    }
}

pub open spec fn opt_expr_view(e: Option<Expr>) -> Option<ExprV> {
    match e {
        Some(x) => Some(expr_view(x)),
        None => None,
    }
}

pub open spec fn stmt_view(s: Stmt) -> StmtV
    decreases s,
{
    match s {
        Stmt::VarDecl { line, name, init } => StmtV::VarDecl {
            line,
            name: name@,
            init: match init {
                Some(x) => Some(expr_view(x)),
                None => None,
            },
        },
        Stmt::SignalDecl { line, name, kind, dims } => StmtV::SignalDecl {
            line,
            name: name@,
            kind,
            dims: exprs_view(dims@),
        },
        Stmt::Assign { line, op, lhs, rhs } => StmtV::Assign {
            line,
            op,
            lhs: expr_view(lhs),
            rhs: expr_view(rhs),
        },
        Stmt::Constraint { line, lhs, rhs } => StmtV::Constraint {
            line,
            lhs: expr_view(lhs),
            rhs: expr_view(rhs),
        },
        Stmt::If { line, cond, then_block, else_block } => StmtV::If {
            line,
            cond: expr_view(cond),
            then_block: stmts_view(then_block@),
            else_block: stmts_view(else_block@),
        },
        Stmt::For { line, init, cond, update, body } => StmtV::For {
            line,
            init: Box::new(stmt_view(*init)),
            cond: expr_view(cond),
            update: Box::new(stmt_view(*update)),
            body: stmts_view(body@),
        },
        Stmt::ComponentDecl { line, name, template, args } => StmtV::ComponentDecl {
            line,
            name: name@,
            template: template@,
            args: exprs_view(args@),
        },
        Stmt::ExprStmt { line, expr } => StmtV::ExprStmt { line, expr: expr_view(expr) },
        Stmt::Return { line, value } => StmtV::Return {
            line,
            value: match value {
                Some(x) => Some(expr_view(x)),
                None => None,
            },
        },
    }
}

pub open spec fn stmts_view(v: Seq<Stmt>) -> Seq<StmtV>
    decreases v,
{
    if v.len() == 0 {
        Seq::empty()
    } else {
        stmts_view(v.drop_last()).push(stmt_view(v.last()))
    }
}

impl View for Expr {
    type V = ExprV;

    open spec fn view(&self) -> ExprV {
        expr_view(*self)
    }
}

impl View for Stmt {
    type V = StmtV;

    open spec fn view(&self) -> StmtV {
        stmt_view(*self)
    }
}

impl View for Template {
    type V = TemplateV;

    open spec fn view(&self) -> TemplateV {
        TemplateV {
            name: self.name@,
            line: self.line,
            generic_params: self.generic_params@.map_values(|s: String| s@),
            body: stmts_view(self.body@),
            input_signals: self.input_signals@.map_values(|s: String| s@),
        }
    }
}

/// A copy of `e`.
#[verifier::loop_isolation(false)]
pub fn copy_expr(e: &Expr) -> (r: Expr)
    ensures
        r@ == e@,
    decreases e,
{
    match e {
        Expr::Int(n) => Expr::Int(*n),
        Expr::Ident(s) => Expr::Ident(s.clone()),
        Expr::Member(b, s) => Expr::Member(Box::new(copy_expr(b)), s.clone()),
        Expr::Index(b, i) => Expr::Index(Box::new(copy_expr(b)), Box::new(copy_expr(i))),
        Expr::Binary(op, l, r) => Expr::Binary(*op, Box::new(copy_expr(l)), Box::new(copy_expr(r))),
        Expr::Unary(op, b) => Expr::Unary(*op, Box::new(copy_expr(b))),
        Expr::Paren(b) => Expr::Paren(Box::new(copy_expr(b))),
        Expr::Call(n, args) => {
            let mut v: Vec<Expr> = Vec::new();
            let mut i: usize = 0;
            while i < args.len()
                invariant
                    i <= args@.len(),
                    v@.len() == i,
                    forall|k: int| 0 <= k < i ==> expr_view(#[trigger] v@[k]) == expr_view(args@[k]),
                decreases args.len() - i,
            {
                proof {
                    vstd::std_specs::vec::axiom_vec_index_decreases(*args, i as int);
                    assert(decreases_to!(*e => (*e)->Call_1));
                }
                v.push(copy_expr(&args[i]));
                i += 1;
            }
            let r = Expr::Call(n.clone(), v);
            assert(r@ == e@) by {
                lemma_exprs_view(v@);
                lemma_exprs_view(args@);
                assert(exprs_view(v@) =~= exprs_view(args@));
            }
            r
        },
    }
}

} // verus!
