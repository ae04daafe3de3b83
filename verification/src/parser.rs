//! Recursive-descent parser for Circom templates, proved to follow the
//! grammar in `grammar.rs`.

use vstd::prelude::*;
use crate::ast::{
    AssignOp, BinOp, Expr, ExprV, SignalKind, Stmt, StmtV, Template, TemplateV, UnaryOp, copy_expr,
    expr_view, exprs_view, opt_expr_view, stmt_view, stmts_view,
};
use crate::grammar::{
    adv, args_from, assign_at, block_at, branch_at, call_args_at, component_at, compound_op,
    dims_from, eat, expr_at, for_at, if_at, input_names, is_kw, is_punct, item_end, items_from,
    level_at, level_op, level_rank, level_rest, line_at,
    params_from, postfix_at, postfix_rest, primary_at, return_at, signal_at, skip_fn,
    skip_to_kw, skip_to_semi, stmt_at, template_at, templates_from, tk, unary_at,
    update_at, var_at,
};
use crate::lexer::{LexedTok, Tok, TokV, lexed_views};
use crate::text::{int_literal_value_exec, same_text, str_chars};
use vstd::string::StringSliceAdditionalSpecFns;

verus! {

broadcast use vstd::std_specs::vec::axiom_vec_decreases_to_view;

/// Token sequences as the lexer makes them: one `Eof`, at the end.
pub open spec fn wf_toks(ts: Seq<(TokV, int)>) -> bool {
    &&& 0 < ts.len() <= usize::MAX
    &&& ts.last().0 is Eof
    &&& forall|i: int| 0 <= i < ts.len() - 1 ==> !(#[trigger] ts[i].0 is Eof)
}

pub open spec fn tv(t: &Vec<LexedTok>) -> Seq<(TokV, int)> {
    lexed_views(t@)
}

/// A parse result matches the grammar's, and the position moved forward
/// (strictly, on success) without leaving the tokens.
pub open spec fn expr_res(
    t: &Vec<LexedTok>,
    p: usize,
    r: (Option<Expr>, usize),
    g: (Option<ExprV>, int),
) -> bool {
    &&& opt_expr_view(r.0) == g.0
    &&& r.1 == g.1
    &&& p <= r.1 < t@.len()
    &&& r.0 is Some ==> p < r.1
}

pub open spec fn opt_exprs_view(o: Option<Vec<Expr>>) -> Option<Seq<ExprV>> {
    match o {
        Some(v) => Some(exprs_view(v@)),
        None => None,
    }
}

pub open spec fn exprs_res(
    t: &Vec<LexedTok>,
    p: usize,
    r: (Option<Vec<Expr>>, usize),
    g: (Option<Seq<ExprV>>, int),
) -> bool {
    &&& opt_exprs_view(r.0) == g.0
    &&& r.1 == g.1
    &&& p <= r.1 < t@.len()
}

proof fn lemma_tok_at(t: &Vec<LexedTok>, p: int)
    requires
        0 <= p < t@.len(),
    ensures
        tk(tv(t), p) == t@[p].tok@,
        line_at(tv(t), p) == t@[p].line,
{
}

/// A token before the last is not `Eof`, so a bump moves past it.
proof fn lemma_not_last(t: &Vec<LexedTok>, p: int)
    requires
        wf_toks(tv(t)),
        0 <= p < t@.len(),
        !(t@[p].tok@ is Eof),
    ensures
        p + 1 < t@.len() <= usize::MAX,
{
    assert(tv(t)[p].0 == t@[p].tok@);
    assert(tv(t).last() == tv(t)[t@.len() - 1]);
}

fn punct_is(t: &Vec<LexedTok>, p: usize, s: &str) -> (r: bool)
    requires
        p < t@.len(),
    ensures
        r == is_punct(tk(tv(t), p as int), s@),
{
    proof {
        lemma_tok_at(t, p as int);
    }
    match &t[p].tok {
        Tok::Punct(q) => same_text(q.as_str(), s),
        _ => false,
    }
}

fn kw_is(t: &Vec<LexedTok>, p: usize, s: &str) -> (r: bool)
    requires
        p < t@.len(),
    ensures
        r == is_kw(tk(tv(t), p as int), s@),
{
    proof {
        lemma_tok_at(t, p as int);
    }
    match &t[p].tok {
        Tok::Ident(q) => same_text(q.as_str(), s),
        _ => false,
    }
}

fn is_eof(t: &Vec<LexedTok>, p: usize) -> (r: bool)
    requires
        p < t@.len(),
    ensures
        r == (tk(tv(t), p as int) is Eof),
{
    proof {
        lemma_tok_at(t, p as int);
    }
    match &t[p].tok {
        Tok::Eof => true,
        _ => false,
    }
}

/// The position after a bump.
fn bump(t: &Vec<LexedTok>, p: usize) -> (q: usize)
    requires
        p < t@.len(),
    ensures
        q == adv(tv(t), p as int),
{
    if p < t.len() - 1 {
        p + 1
    } else {
        p
    }
}

fn eat_punct(t: &Vec<LexedTok>, p: usize, s: &str) -> (q: usize)
    requires
        p < t@.len(),
    ensures
        q == eat(tv(t), p as int, s@),
        p <= q < t@.len(),
{
    if punct_is(t, p, s) {
        bump(t, p)
    } else {
        p
    }
}

fn level_op_exec(l: usize, t: &Vec<LexedTok>, p: usize) -> (r: Option<BinOp>)
    requires
        p < t@.len(),
    ensures
        r == level_op(l as nat, tk(tv(t), p as int)),
{
    proof {
        lemma_tok_at(t, p as int);
    }
    let q = match &t[p].tok {
        Tok::Punct(q) => q.as_str(),
        _ => {
            return None;
        },
    };
    if l == 0 && same_text(q, "||") {
        Some(BinOp::Or)
    } else if l == 1 && same_text(q, "&&") {
        Some(BinOp::And)
    } else if l == 2 && same_text(q, "|") {
        Some(BinOp::BitOr)
    } else if l == 3 && same_text(q, "^") {
        Some(BinOp::BitXor)
    } else if l == 4 && same_text(q, "&") {
        Some(BinOp::BitAnd)
    } else if l == 5 && same_text(q, "==") {
        Some(BinOp::Eq)
    } else if l == 5 && same_text(q, "!=") {
        Some(BinOp::Ne)
    } else if l == 6 && same_text(q, "<") {
        Some(BinOp::Lt)
    } else if l == 6 && same_text(q, "<=") {
        Some(BinOp::Le)
    } else if l == 6 && same_text(q, ">") {
        Some(BinOp::Gt)
    } else if l == 6 && same_text(q, ">=") {
        Some(BinOp::Ge)
    } else if l == 7 && same_text(q, "<<") {
        Some(BinOp::Shl)
    } else if l == 7 && same_text(q, ">>") {
        Some(BinOp::Shr)
    } else if l == 8 && same_text(q, "+") {
        Some(BinOp::Add)
    } else if l == 8 && same_text(q, "-") {
        Some(BinOp::Sub)
    } else if l == 9 && same_text(q, "*") {
        Some(BinOp::Mul)
    } else if l == 9 && same_text(q, "/") {
        Some(BinOp::Div)
    } else if l == 9 && same_text(q, "%") {
        Some(BinOp::Mod)
    } else {
        None
    }
}

fn compound_op_exec(t: &Vec<LexedTok>, p: usize) -> (r: Option<BinOp>)
    requires
        p < t@.len(),
    ensures
        r == compound_op(tk(tv(t), p as int)),
{
    if punct_is(t, p, "+=") {
        Some(BinOp::Add)
    } else if punct_is(t, p, "-=") {
        Some(BinOp::Sub)
    } else if punct_is(t, p, "*=") {
        Some(BinOp::Mul)
    } else if punct_is(t, p, "/=") {
        Some(BinOp::Div)
    } else {
        None
    }
}

/// An expression at precedence level `l` or tighter.
fn parse_level(t: &Vec<LexedTok>, l: usize, p: usize) -> (r: (Option<Expr>, usize))
    requires
        wf_toks(tv(t)),
        p < t@.len(),
        l <= 10,
    ensures
        expr_res(t, p, r, level_at(tv(t), l as nat, p as int)),
    decreases t@.len() - p, level_rank(l as nat),
{
    if l >= 10 {
        return parse_unary(t, p);
    }
    let (first, p1) = parse_level(t, l + 1, p);
    let mut lhs = match first {
        None => {
            return (None, p1);
        },
        Some(e) => e,
    };
    let mut q = p1;
    while true
        invariant
            wf_toks(tv(t)),
            p < q < t@.len(),
            l < 10,
            level_at(tv(t), l as nat, p as int) == level_rest(tv(t), l as nat, lhs@, q as int),
        decreases t@.len() - q,
    {
        match level_op_exec(l, t, q) {
            None => {
                return (Some(lhs), q);
            },
            Some(op) => {
                proof {
                    lemma_tok_at(t, q as int);
                    lemma_not_last(t, q as int);
                }
                let (rhs, q2) = parse_level(t, l + 1, q + 1);
                match rhs {
                    None => {
                        return (None, q2);
                    },
                    Some(e) => {
                        lhs = Expr::Binary(op, Box::new(lhs), Box::new(e));
                        q = q2;
                    },
                }
            },
        }
    }
    (None, q)
}

fn parse_expr(t: &Vec<LexedTok>, p: usize) -> (r: (Option<Expr>, usize))
    requires
        wf_toks(tv(t)),
        p < t@.len(),
    ensures
        expr_res(t, p, r, expr_at(tv(t), p as int)),
    decreases t@.len() - p, 31int,
{
    parse_level(t, 0, p)
}

fn parse_unary(t: &Vec<LexedTok>, p: usize) -> (r: (Option<Expr>, usize))
    requires
        wf_toks(tv(t)),
        p < t@.len(),
    ensures
        expr_res(t, p, r, unary_at(tv(t), p as int)),
    decreases t@.len() - p, 15int,
{
    let neg = punct_is(t, p, "-");
    let not = punct_is(t, p, "!");
    let plus = punct_is(t, p, "+");
    if neg || not || plus {
        proof {
            lemma_tok_at(t, p as int);
            lemma_not_last(t, p as int);
        }
        let (inner, q) = parse_unary(t, p + 1);
        match inner {
            Some(e) => if neg {
                (Some(Expr::Unary(UnaryOp::Neg, Box::new(e))), q)
            } else if not {
                (Some(Expr::Unary(UnaryOp::Not, Box::new(e))), q)
            } else {
                (Some(e), q)
            },
            None => (None, q),
        }
    } else {
        parse_postfix(t, p)
    }
}

fn parse_postfix(t: &Vec<LexedTok>, p: usize) -> (r: (Option<Expr>, usize))
    requires
        wf_toks(tv(t)),
        p < t@.len(),
    ensures
        expr_res(t, p, r, postfix_at(tv(t), p as int)),
    decreases t@.len() - p, 14int,
{
    let (first, p1) = parse_primary(t, p);
    let mut e = match first {
        None => {
            return (None, p1);
        },
        Some(e) => e,
    };
    let mut q = p1;
    while true
        invariant
            wf_toks(tv(t)),
            p < q < t@.len(),
            postfix_at(tv(t), p as int) == postfix_rest(tv(t), e@, q as int),
        decreases t@.len() - q,
    {
        if punct_is(t, q, ".") {
            proof {
                lemma_tok_at(t, q as int);
                lemma_not_last(t, q as int);
                lemma_tok_at(t, q + 1);
            }
            match &t[q + 1].tok {
                Tok::Ident(name) => {
                    proof {
                        lemma_not_last(t, q + 1);
                    }
                    e = Expr::Member(Box::new(e), name.clone());
                    q = q + 2;
                },
                _ => {
                    return (None, q + 1);
                },
            }
        } else if punct_is(t, q, "[") {
            proof {
                lemma_tok_at(t, q as int);
                lemma_not_last(t, q as int);
            }
            let (idx, q2) = parse_expr(t, q + 1);
            match idx {
                None => {
                    return (None, q2);
                },
                Some(i) => {
                    if punct_is(t, q2, "]") {
                        proof {
                            lemma_tok_at(t, q2 as int);
                            lemma_not_last(t, q2 as int);
                        }
                        e = Expr::Index(Box::new(e), Box::new(i));
                        q = q2 + 1;
                    } else {
                        return (None, q2);
                    }
                },
            }
        } else {
            return (Some(e), q);
        }
    }
    (None, q)
}

/// A comma-separated list of expressions.
fn parse_args(t: &Vec<LexedTok>, p: usize) -> (r: (Option<Vec<Expr>>, usize))
    requires
        wf_toks(tv(t)),
        p < t@.len(),
    ensures
        exprs_res(t, p, r, args_from(tv(t), p as int, Seq::empty())),
        r.0 is Some ==> p < r.1,
    decreases t@.len() - p, 32int,
{
    let mut acc: Vec<Expr> = Vec::new();
    let mut q = p;
    assert(exprs_view(acc@) =~= Seq::<ExprV>::empty());
    while true
        invariant
            wf_toks(tv(t)),
            p <= q < t@.len(),
            acc@.len() > 0 ==> p < q,
            args_from(tv(t), p as int, Seq::empty()) == args_from(tv(t), q as int, exprs_view(acc@)),
        decreases t@.len() - q,
    {
        let (first, q1) = parse_expr(t, q);
        let e = match first {
            None => {
                return (None, q1);
            },
            Some(e) => e,
        };
        let ghost before = acc@;
        acc.push(e);
        assert(acc@.drop_last() =~= before);
        if punct_is(t, q1, ",") {
            proof {
                lemma_tok_at(t, q1 as int);
                lemma_not_last(t, q1 as int);
            }
            q = q1 + 1;
        } else {
            return (Some(acc), q1);
        }
    }
    (None, q)
}

/// An argument list after its `(`, with the closing `)`.
fn parse_call_args(t: &Vec<LexedTok>, p: usize) -> (r: (Option<Vec<Expr>>, usize))
    requires
        wf_toks(tv(t)),
        p < t@.len(),
    ensures
        exprs_res(t, p, r, call_args_at(tv(t), p as int)),
        r.0 is Some ==> p < r.1,
    decreases t@.len() - p, 33int,
{
    let (args, q) = if punct_is(t, p, ")") {
        (Some(Vec::new()), p)
    } else {
        parse_args(t, p)
    };
    assert(exprs_view(Seq::<Expr>::empty()) =~= Seq::<ExprV>::empty());
    match args {
        None => (None, q),
        Some(a) => if punct_is(t, q, ")") {
            proof {
                lemma_tok_at(t, q as int);
                lemma_not_last(t, q as int);
            }
            (Some(a), q + 1)
        } else {
            (None, q)
        },
    }
}

fn parse_primary(t: &Vec<LexedTok>, p: usize) -> (r: (Option<Expr>, usize))
    requires
        wf_toks(tv(t)),
        p < t@.len(),
    ensures
        expr_res(t, p, r, primary_at(tv(t), p as int)),
    decreases t@.len() - p, 12int,
{
    proof {
        lemma_tok_at(t, p as int);
    }
    match &t[p].tok {
        Tok::Int(s) => {
            proof {
                lemma_not_last(t, p as int);
            }
            let cs = str_chars(s.as_str());
            (Some(Expr::Int(int_literal_value_exec(&cs))), p + 1)
        },
        Tok::Ident(name) => {
            proof {
                lemma_not_last(t, p as int);
            }
            let q = p + 1;
            if punct_is(t, q, "(") {
                proof {
                    lemma_tok_at(t, q as int);
                    lemma_not_last(t, q as int);
                }
                let (args, q2) = parse_call_args(t, q + 1);
                match args {
                    None => (None, q2),
                    Some(a) => (Some(Expr::Call(name.clone(), a)), q2),
                }
            } else {
                (Some(Expr::Ident(name.clone())), q)
            }
        },
        Tok::Punct(s) => {
            if same_text(s.as_str(), "(") {
                proof {
                    lemma_not_last(t, p as int);
                }
                let (inner, q) = parse_expr(t, p + 1);
                match inner {
                    None => (None, q),
                    Some(e) => if punct_is(t, q, ")") {
                        proof {
                            lemma_tok_at(t, q as int);
                            lemma_not_last(t, q as int);
                        }
                        (Some(Expr::Paren(Box::new(e))), q + 1)
                    } else {
                        (None, q)
                    },
                }
            } else {
                (None, p)
            }
        },
        Tok::Eof => (None, p),
    }
}

// ----- statements -------------------------------------------------------------

pub open spec fn opt_stmt_view(o: Option<Stmt>) -> Option<StmtV> {
    match o {
        Some(x) => Some(stmt_view(x)),
        None => None,
    }
}

pub open spec fn opt_stmts_view(o: Option<Vec<Stmt>>) -> Option<Seq<StmtV>> {
    match o {
        Some(v) => Some(stmts_view(v@)),
        None => None,
    }
}

pub open spec fn stmt_res(
    t: &Vec<LexedTok>,
    p: usize,
    r: (Option<Stmt>, usize),
    g: (Option<StmtV>, int),
) -> bool {
    &&& opt_stmt_view(r.0) == g.0
    &&& r.1 == g.1
    &&& p <= r.1 < t@.len()
}

pub open spec fn stmts_res(
    t: &Vec<LexedTok>,
    p: usize,
    r: (Option<Vec<Stmt>>, usize),
    g: (Option<Seq<StmtV>>, int),
) -> bool {
    &&& opt_stmts_view(r.0) == g.0
    &&& r.1 == g.1
    &&& p <= r.1 < t@.len()
}

proof fn lemma_stmts_push(v: Seq<Stmt>, x: Stmt)
    ensures
        stmts_view(v.push(x)) == stmts_view(v).push(stmt_view(x)),
{
    assert(v.push(x).drop_last() =~= v);
}

proof fn lemma_exprs_push(v: Seq<Expr>, x: Expr)
    ensures
        exprs_view(v.push(x)) == exprs_view(v).push(expr_view(x)),
{
    assert(v.push(x).drop_last() =~= v);
}

/// `var name;` or `var name = expr;`, from the token after `var`.
fn parse_var(t: &Vec<LexedTok>, p: usize, line: u32) -> (r: (Option<Stmt>, usize))
    requires
        wf_toks(tv(t)),
        p < t@.len(),
    ensures
        stmt_res(t, p, r, var_at(tv(t), p as int, line)),
{
    proof {
        lemma_tok_at(t, p as int);
    }
    let name = match &t[p].tok {
        Tok::Ident(s) => s.clone(),
        _ => {
            return (None, p);
        },
    };
    proof {
        lemma_not_last(t, p as int);
    }
    let q = p + 1;
    if punct_is(t, q, "=") {
        proof {
            lemma_tok_at(t, q as int);
            lemma_not_last(t, q as int);
        }
        let (init, q2) = parse_expr(t, q + 1);
        match init {
            None => (None, q2),
            Some(e) => (Some(Stmt::VarDecl { line, name, init: Some(e) }), eat_punct(t, q2, ";")),
        }
    } else {
        (Some(Stmt::VarDecl { line, name, init: None }), eat_punct(t, q, ";"))
    }
}

/// Array dimensions `[expr]...`.
fn parse_dims(t: &Vec<LexedTok>, p: usize) -> (r: (Option<Vec<Expr>>, usize))
    requires
        wf_toks(tv(t)),
        p < t@.len(),
    ensures
        exprs_res(t, p, r, dims_from(tv(t), p as int, Seq::empty())),
{
    let mut acc: Vec<Expr> = Vec::new();
    let mut q = p;
    assert(exprs_view(acc@) =~= Seq::<ExprV>::empty());
    while true
        invariant
            wf_toks(tv(t)),
            p <= q < t@.len(),
            dims_from(tv(t), p as int, Seq::empty()) == dims_from(
                tv(t),
                q as int,
                exprs_view(acc@),
            ),
        decreases t@.len() - q,
    {
        if !punct_is(t, q, "[") {
            return (Some(acc), q);
        }
        proof {
            lemma_tok_at(t, q as int);
            lemma_not_last(t, q as int);
        }
        let (d, q2) = parse_expr(t, q + 1);
        let e = match d {
            None => {
                return (None, q2);
            },
            Some(e) => e,
        };
        if !punct_is(t, q2, "]") {
            return (None, q2);
        }
        proof {
            lemma_tok_at(t, q2 as int);
            lemma_not_last(t, q2 as int);
            lemma_exprs_push(acc@, e);
        }
        acc.push(e);
        q = q2 + 1;
    }
    (None, q)
}

/// A signal declaration, from the token after `signal`.
fn parse_signal(t: &Vec<LexedTok>, p: usize, line: u32) -> (r: (Option<Stmt>, usize))
    requires
        wf_toks(tv(t)),
        p < t@.len(),
    ensures
        stmt_res(t, p, r, signal_at(tv(t), p as int, line)),
{
    let (kind, q) = if kw_is(t, p, "input") {
        (SignalKind::Input, bump(t, p))
    } else if kw_is(t, p, "output") {
        (SignalKind::Output, bump(t, p))
    } else {
        (SignalKind::Intermediate, p)
    };
    proof {
        lemma_tok_at(t, q as int);
    }
    let name = match &t[q].tok {
        Tok::Ident(s) => s.clone(),
        _ => {
            return (None, q);
        },
    };
    proof {
        lemma_not_last(t, q as int);
    }
    let (dims, q2) = parse_dims(t, q + 1);
    match dims {
        None => (None, q2),
        Some(d) => (Some(Stmt::SignalDecl { line, name, kind, dims: d }), eat_punct(t, q2, ";")),
    }
}

/// `component name = Template(args);`, from the token after `component`.
fn parse_component(t: &Vec<LexedTok>, p: usize, line: u32) -> (r: (Option<Stmt>, usize))
    requires
        wf_toks(tv(t)),
        p < t@.len(),
    ensures
        stmt_res(t, p, r, component_at(tv(t), p as int, line)),
{
    proof {
        lemma_tok_at(t, p as int);
    }
    let name = match &t[p].tok {
        Tok::Ident(s) => s.clone(),
        _ => {
            return (None, p);
        },
    };
    proof {
        lemma_not_last(t, p as int);
    }
    let q = p + 1;
    if !punct_is(t, q, "=") {
        return (None, q);
    }
    proof {
        lemma_tok_at(t, q as int);
        lemma_not_last(t, q as int);
    }
    let q2 = q + 1;
    proof {
        lemma_tok_at(t, q2 as int);
    }
    let template = match &t[q2].tok {
        Tok::Ident(s) => s.clone(),
        _ => {
            return (None, q2);
        },
    };
    proof {
        lemma_not_last(t, q2 as int);
    }
    let q3 = q2 + 1;
    if !punct_is(t, q3, "(") {
        return (None, q3);
    }
    proof {
        lemma_tok_at(t, q3 as int);
        lemma_not_last(t, q3 as int);
    }
    let (args, q4) = parse_call_args(t, q3 + 1);
    match args {
        None => (None, q4),
        Some(a) => (
            Some(Stmt::ComponentDecl { line, name, template, args: a }),
            eat_punct(t, q4, ";"),
        ),
    }
}

/// `return;` or `return expr;`, from the token after `return`.
fn parse_return(t: &Vec<LexedTok>, p: usize, line: u32) -> (r: (Option<Stmt>, usize))
    requires
        wf_toks(tv(t)),
        p < t@.len(),
    ensures
        stmt_res(t, p, r, return_at(tv(t), p as int, line)),
{
    if !punct_is(t, p, ";") {
        let (v, q) = parse_expr(t, p);
        match v {
            None => (None, q),
            Some(e) => (Some(Stmt::Return { line, value: Some(e) }), eat_punct(t, q, ";")),
        }
    } else {
        (Some(Stmt::Return { line, value: None }), eat_punct(t, p, ";"))
    }
}

/// The update clause of a `for` header.
fn parse_update(t: &Vec<LexedTok>, p: usize) -> (r: (Option<Stmt>, usize))
    requires
        wf_toks(tv(t)),
        p < t@.len(),
    ensures
        stmt_res(t, p, r, update_at(tv(t), p as int)),
        r.0 is Some ==> p < r.1,
{
    proof {
        lemma_tok_at(t, p as int);
    }
    let line = t[p].line;
    let (l, q) = parse_expr(t, p);
    let lhs = match l {
        None => {
            return (None, q);
        },
        Some(e) => e,
    };
    let inc = punct_is(t, q, "++");
    let dec = punct_is(t, q, "--");
    let cop = compound_op_exec(t, q);
    if inc || dec {
        proof {
            lemma_tok_at(t, q as int);
            lemma_not_last(t, q as int);
        }
        let op = if inc {
            BinOp::Add
        } else {
            BinOp::Sub
        };
        let rhs = Expr::Binary(op, Box::new(copy_expr(&lhs)), Box::new(Expr::Int(1)));
        assert(rhs@ == crate::grammar::bin(op, lhs@, ExprV::Int(1))) by {
            assert(expr_view(Expr::Int(1)) == ExprV::Int(1));
        }
        (Some(Stmt::Assign { line, op: AssignOp::VarAssign, lhs, rhs }), q + 1)
    } else if punct_is(t, q, "=") || cop.is_some() {
        proof {
            lemma_tok_at(t, q as int);
            lemma_not_last(t, q as int);
        }
        let (r2, q2) = parse_expr(t, q + 1);
        match r2 {
            None => (None, q2),
            Some(e) => {
                let rhs = match cop {
                    Some(op) => Expr::Binary(op, Box::new(copy_expr(&lhs)), Box::new(e)),
                    None => e,
                };
                (Some(Stmt::Assign { line, op: AssignOp::VarAssign, lhs, rhs }), q2)
            },
        }
    } else {
        (Some(Stmt::ExprStmt { line, expr: lhs }), q)
    }
}

/// A statement led by an expression.
fn parse_assign(t: &Vec<LexedTok>, p: usize, line: u32) -> (r: (Option<Stmt>, usize))
    requires
        wf_toks(tv(t)),
        p < t@.len(),
    ensures
        stmt_res(t, p, r, assign_at(tv(t), p as int, line)),
        r.0 is Some ==> p < r.1,
{
    let (l, q) = parse_expr(t, p);
    let lhs = match l {
        None => {
            return (None, q);
        },
        Some(e) => e,
    };
    proof {
        lemma_tok_at(t, q as int);
    }
    let lo = t[q].line;
    let al = if lo <= line {
        lo
    } else {
        line
    };
    let sig_c = punct_is(t, q, "<==");
    let sig = punct_is(t, q, "<--");
    let con = punct_is(t, q, "===");
    let var = punct_is(t, q, "=");
    let cop = compound_op_exec(t, q);
    if sig_c || sig || con || var || cop.is_some() {
        proof {
            lemma_not_last(t, q as int);
        }
        let (r2, q2) = parse_expr(t, q + 1);
        let e = match r2 {
            None => {
                return (None, q2);
            },
            Some(e) => e,
        };
        let st = if sig_c {
            Stmt::Assign { line: al, op: AssignOp::SignalAssignConstrain, lhs, rhs: e }
        } else if sig {
            Stmt::Assign { line: al, op: AssignOp::SignalAssign, lhs, rhs: e }
        } else if con {
            Stmt::Constraint { line: al, lhs, rhs: e }
        } else {
            let rhs = match cop {
                Some(op) => Expr::Binary(op, Box::new(copy_expr(&lhs)), Box::new(e)),
                None => e,
            };
            Stmt::Assign { line, op: AssignOp::VarAssign, lhs, rhs }
        };
        (Some(st), eat_punct(t, q2, ";"))
    } else if punct_is(t, q, "++") || punct_is(t, q, "--") {
        proof {
            lemma_not_last(t, q as int);
        }
        let op = if punct_is(t, q, "++") {
            BinOp::Add
        } else {
            BinOp::Sub
        };
        let rhs = Expr::Binary(op, Box::new(copy_expr(&lhs)), Box::new(Expr::Int(1)));
        assert(rhs@ == crate::grammar::bin(op, lhs@, ExprV::Int(1))) by {
            assert(expr_view(Expr::Int(1)) == ExprV::Int(1));
        }
        (Some(Stmt::Assign { line, op: AssignOp::VarAssign, lhs, rhs }), eat_punct(t, q + 1, ";"))
    } else {
        (Some(Stmt::ExprStmt { line, expr: lhs }), eat_punct(t, q, ";"))
    }
}

/// A block, or a single statement where no `{` opens one.
fn parse_branch(t: &Vec<LexedTok>, p: usize) -> (r: (Option<Vec<Stmt>>, usize))
    requires
        wf_toks(tv(t)),
        p < t@.len(),
    ensures
        stmts_res(t, p, r, branch_at(tv(t), p as int)),
    decreases t@.len() - p, 43int,
{
    if punct_is(t, p, "{") {
        parse_block(t, p)
    } else {
        let (st, q) = parse_stmt(t, p);
        match st {
            None => (None, q),
            Some(x) => {
                let ghost xv = stmt_view(x);
                let v = vec![x];
                assert(stmts_view(v@) =~= seq![xv]) by {
                    assert(v@.drop_last() =~= Seq::<Stmt>::empty());
                    assert(stmts_view(Seq::<Stmt>::empty()) =~= Seq::<StmtV>::empty());
                }
                (Some(v), q)
            },
        }
    }
}

/// `{ statements }`.
fn parse_block(t: &Vec<LexedTok>, p: usize) -> (r: (Option<Vec<Stmt>>, usize))
    requires
        wf_toks(tv(t)),
        p < t@.len(),
    ensures
        stmts_res(t, p, r, block_at(tv(t), p as int)),
        r.0 is Some ==> p < r.1,
    decreases t@.len() - p, 41int,
{
    if !punct_is(t, p, "{") {
        return (None, p);
    }
    proof {
        lemma_tok_at(t, p as int);
        lemma_not_last(t, p as int);
    }
    let mut acc: Vec<Stmt> = Vec::new();
    let mut q = p + 1;
    assert(stmts_view(acc@) =~= Seq::<StmtV>::empty());
    while !punct_is(t, q, "}") && !is_eof(t, q)
        invariant
            wf_toks(tv(t)),
            p < q < t@.len(),
            is_punct(tk(tv(t), p as int), "{"@),
            items_from(tv(t), p + 1, Seq::empty()) == items_from(
                tv(t),
                q as int,
                stmts_view(acc@),
            ),
        decreases t@.len() - q,
    {
        let (st, q2) = parse_stmt(t, q);
        let x = match st {
            None => {
                return (None, q2);
            },
            Some(x) => x,
        };
        proof {
            lemma_stmts_push(acc@, x);
        }
        acc.push(x);
        q = q2;
    }
    if punct_is(t, q, "}") {
        proof {
            lemma_tok_at(t, q as int);
            lemma_not_last(t, q as int);
        }
        (Some(acc), q + 1)
    } else {
        (None, q)
    }
}

/// `if (cond) branch [else branch]`, from the token after `if`.
#[verifier::rlimit(40)]
fn parse_if(t: &Vec<LexedTok>, p: usize, line: u32) -> (r: (Option<Stmt>, usize))
    requires
        wf_toks(tv(t)),
        p < t@.len(),
    ensures
        stmt_res(t, p, r, if_at(tv(t), p as int, line)),
    decreases t@.len() - p, 39int,
{
    if !punct_is(t, p, "(") {
        return (None, p);
    }
    proof {
        lemma_tok_at(t, p as int);
        lemma_not_last(t, p as int);
    }
    let (c, q) = parse_expr(t, p + 1);
    let cond = match c {
        None => {
            return (None, q);
        },
        Some(e) => e,
    };
    if !punct_is(t, q, ")") {
        return (None, q);
    }
    proof {
        lemma_tok_at(t, q as int);
        lemma_not_last(t, q as int);
    }
    let (tb, q2) = parse_branch(t, q + 1);
    let then_block = match tb {
        None => {
            return (None, q2);
        },
        Some(b) => b,
    };
    if kw_is(t, q2, "else") {
        proof {
            lemma_tok_at(t, q2 as int);
            lemma_not_last(t, q2 as int);
        }
        let (eb, q3) = parse_branch(t, q2 + 1);
        match eb {
            None => (None, q3),
            Some(else_block) => (Some(Stmt::If { line, cond, then_block, else_block }), q3),
        }
    } else {
        let else_block: Vec<Stmt> = Vec::new();
        assert(stmts_view(else_block@) =~= Seq::<StmtV>::empty());
        (Some(Stmt::If { line, cond, then_block, else_block }), q2)
    }
}

/// `for (init; cond; update) branch`, from the token after `for`.
#[verifier::rlimit(80)]
fn parse_for(t: &Vec<LexedTok>, p: usize, line: u32) -> (r: (Option<Stmt>, usize))
    requires
        wf_toks(tv(t)),
        p < t@.len(),
    ensures
        stmt_res(t, p, r, for_at(tv(t), p as int, line)),
    decreases t@.len() - p, 38int,
{
    if !punct_is(t, p, "(") {
        return (None, p);
    }
    proof {
        lemma_tok_at(t, p as int);
        lemma_not_last(t, p as int);
    }
    let (i, q) = parse_stmt(t, p + 1);
    let init = match i {
        None => {
            return (None, q);
        },
        Some(x) => x,
    };
    let (c, q2) = parse_expr(t, q);
    let cond = match c {
        None => {
            return (None, q2);
        },
        Some(e) => e,
    };
    if !punct_is(t, q2, ";") {
        return (None, q2);
    }
    proof {
        lemma_tok_at(t, q2 as int);
        lemma_not_last(t, q2 as int);
    }
    let (u, q3) = parse_update(t, q2 + 1);
    let update = match u {
        None => {
            return (None, q3);
        },
        Some(x) => x,
    };
    if !punct_is(t, q3, ")") {
        return (None, q3);
    }
    proof {
        lemma_tok_at(t, q3 as int);
        lemma_not_last(t, q3 as int);
    }
    let (b, q4) = parse_branch(t, q3 + 1);
    match b {
        None => (None, q4),
        Some(body) => (
            Some(Stmt::For { line, init: Box::new(init), cond, update: Box::new(update), body }),
            q4,
        ),
    }
}

/// One statement.
fn parse_stmt(t: &Vec<LexedTok>, p: usize) -> (r: (Option<Stmt>, usize))
    requires
        wf_toks(tv(t)),
        p < t@.len(),
    ensures
        stmt_res(t, p, r, stmt_at(tv(t), p as int)),
        r.0 is Some ==> p < r.1,
    decreases t@.len() - p, 40int,
{
    proof {
        lemma_tok_at(t, p as int);
    }
    let line = t[p].line;
    let is_var = kw_is(t, p, "var");
    let is_signal = kw_is(t, p, "signal");
    let is_component = kw_is(t, p, "component");
    let is_if = kw_is(t, p, "if");
    let is_for = kw_is(t, p, "for");
    let is_return = kw_is(t, p, "return");
    if is_var || is_signal || is_component || is_if || is_for || is_return {
        proof {
            lemma_not_last(t, p as int);
        }
        let q = p + 1;
        if is_var {
            parse_var(t, q, line)
        } else if is_signal {
            parse_signal(t, q, line)
        } else if is_component {
            parse_component(t, q, line)
        } else if is_if {
            parse_if(t, q, line)
        } else if is_for {
            parse_for(t, q, line)
        } else {
            parse_return(t, q, line)
        }
    } else {
        parse_assign(t, p, line)
    }
}

// ----- templates --------------------------------------------------------------

pub open spec fn strs_view(v: Seq<String>) -> Seq<Seq<char>> {
    v.map_values(|x: String| x@)
}

pub open spec fn templates_view(v: Seq<Template>) -> Seq<TemplateV> {
    v.map_values(|x: Template| x@)
}

pub open spec fn opt_template_view(o: Option<Template>) -> Option<TemplateV> {
    match o {
        Some(x) => Some(x@),
        None => None,
    }
}

proof fn lemma_strs_push(v: Seq<String>, x: String)
    ensures
        strs_view(v.push(x)) == strs_view(v).push(x@),
{
    assert(strs_view(v.push(x)) =~= strs_view(v).push(x@));
}

/// Generic parameter names `a, b, ...`.
fn parse_params(t: &Vec<LexedTok>, p: usize) -> (r: (Option<Vec<String>>, usize))
    requires
        wf_toks(tv(t)),
        p < t@.len(),
    ensures
        (match r.0 {
            Some(v) => Some(strs_view(v@)),
            None => None,
        }) == params_from(tv(t), p as int, Seq::empty()).0,
        r.1 == params_from(tv(t), p as int, Seq::empty()).1,
        p <= r.1 < t@.len(),
{
    let mut acc: Vec<String> = Vec::new();
    let mut q = p;
    assert(strs_view(acc@) =~= Seq::<Seq<char>>::empty());
    while true
        invariant
            wf_toks(tv(t)),
            p <= q < t@.len(),
            params_from(tv(t), p as int, Seq::empty()) == params_from(
                tv(t),
                q as int,
                strs_view(acc@),
            ),
        decreases t@.len() - q,
    {
        proof {
            lemma_tok_at(t, q as int);
        }
        let name = match &t[q].tok {
            Tok::Ident(s) => s.clone(),
            _ => {
                return (None, q);
            },
        };
        proof {
            lemma_not_last(t, q as int);
            lemma_strs_push(acc@, name);
        }
        acc.push(name);
        if punct_is(t, q + 1, ",") {
            proof {
                lemma_tok_at(t, q + 1);
                lemma_not_last(t, q + 1);
            }
            q = q + 2;
        } else {
            return (Some(acc), q + 1);
        }
    }
    (None, q)
}

/// The names of the `signal input` declarations of `body`, in order.
fn input_signal_names(body: &Vec<Stmt>) -> (r: Vec<String>)
    ensures
        strs_view(r@) == input_names(stmts_view(body@)),
{
    let mut out: Vec<String> = Vec::new();
    let mut i: usize = 0;
    assert(body@.take(0) =~= Seq::<Stmt>::empty());
    assert(strs_view(out@) =~= Seq::<Seq<char>>::empty());
    while i < body.len()
        invariant
            i <= body@.len(),
            strs_view(out@) == input_names(stmts_view(body@.take(i as int))),
        decreases body.len() - i,
    {
        proof {
            assert(body@.take(i + 1) =~= body@.take(i as int).push(body@[i as int]));
            lemma_stmts_push(body@.take(i as int), body@[i as int]);
            assert(stmts_view(body@.take(i + 1)).drop_last() =~= stmts_view(body@.take(i as int)));
        }
        match &body[i] {
            Stmt::SignalDecl { name, kind: SignalKind::Input, .. } => {
                let n = name.clone();
                proof {
                    lemma_strs_push(out@, n);
                }
                out.push(n);
            },
            _ => {},
        }
        i += 1;
    }
    assert(body@.take(body@.len() as int) =~= body@);
    out
}

/// `Name(params) { body }`, from the token after `template`.
fn parse_template(t: &Vec<LexedTok>, p: usize) -> (r: (Option<Template>, usize))
    requires
        wf_toks(tv(t)),
        p < t@.len(),
    ensures
        opt_template_view(r.0) == template_at(tv(t), p as int).0,
        r.1 == template_at(tv(t), p as int).1,
        p <= r.1 < t@.len(),
{
    proof {
        lemma_tok_at(t, p as int);
    }
    let line = t[p].line;
    let name = match &t[p].tok {
        Tok::Ident(s) => s.clone(),
        _ => {
            return (None, p);
        },
    };
    proof {
        lemma_not_last(t, p as int);
    }
    let q = p + 1;
    if !punct_is(t, q, "(") {
        return (None, q);
    }
    proof {
        lemma_tok_at(t, q as int);
        lemma_not_last(t, q as int);
    }
    let (params, q2) = if punct_is(t, q + 1, ")") {
        let v: Vec<String> = Vec::new();
        assert(strs_view(v@) =~= Seq::<Seq<char>>::empty());
        (Some(v), q + 1)
    } else {
        parse_params(t, q + 1)
    };
    let generic_params = match params {
        None => {
            return (None, q2);
        },
        Some(v) => v,
    };
    if !punct_is(t, q2, ")") {
        return (None, q2);
    }
    proof {
        lemma_tok_at(t, q2 as int);
        lemma_not_last(t, q2 as int);
    }
    let (b, q3) = parse_block(t, q2 + 1);
    match b {
        None => (None, q3),
        Some(body) => {
            let input_signals = input_signal_names(&body);
            (Some(Template { name, line, generic_params, body, input_signals }), q3)
        },
    }
}

fn skip_to_semi_exec(t: &Vec<LexedTok>, p: usize) -> (r: usize)
    requires
        wf_toks(tv(t)),
        p < t@.len(),
    ensures
        r == skip_to_semi(tv(t), p as int),
        p <= r < t@.len(),
        !is_punct(tk(tv(t), p as int), ";"@) && !(tk(tv(t), p as int) is Eof) ==> p < r,
{
    let mut q = p;
    while !punct_is(t, q, ";") && !is_eof(t, q)
        invariant
            wf_toks(tv(t)),
            p <= q < t@.len(),
            skip_to_semi(tv(t), p as int) == skip_to_semi(tv(t), q as int),
            !is_punct(tk(tv(t), p as int), ";"@) && !(tk(tv(t), p as int) is Eof) && q == p
                ==> skip_to_semi(tv(t), q as int) == skip_to_semi(tv(t), q + 1) && q + 1 < t@.len(),
        decreases t@.len() - q,
    {
        proof {
            lemma_tok_at(t, q as int);
            lemma_not_last(t, q as int);
        }
        q = q + 1;
    }
    q
}

fn skip_to_kw_exec(t: &Vec<LexedTok>, p: usize) -> (r: usize)
    requires
        wf_toks(tv(t)),
        p < t@.len(),
    ensures
        r == skip_to_kw(tv(t), p as int),
        p <= r < t@.len(),
{
    let mut q = p;
    while !is_eof(t, q) && !kw_is(t, q, "template") && !kw_is(t, q, "function") && !kw_is(
        t,
        q,
        "component",
    )
        invariant
            wf_toks(tv(t)),
            p <= q < t@.len(),
            skip_to_kw(tv(t), p as int) == skip_to_kw(tv(t), q as int),
        decreases t@.len() - q,
    {
        proof {
            lemma_tok_at(t, q as int);
            lemma_not_last(t, q as int);
        }
        q = q + 1;
    }
    q
}

/// Skips a function body: up to and past the `}` that closes the first `{`.
fn skip_fn_exec(t: &Vec<LexedTok>, p: usize) -> (r: usize)
    requires
        wf_toks(tv(t)),
        p < t@.len(),
    ensures
        r == skip_fn(tv(t), p as int, 0, false),
        p <= r < t@.len(),
{
    let mut q = p;
    let mut depth: i128 = 0;
    let mut started = false;
    while !is_eof(t, q)
        invariant
            wf_toks(tv(t)),
            p <= q < t@.len(),
            -(q - p) <= depth <= q - p,
            skip_fn(tv(t), p as int, 0, false) == skip_fn(tv(t), q as int, depth as int, started),
        decreases t@.len() - q,
    {
        proof {
            lemma_tok_at(t, q as int);
            lemma_not_last(t, q as int);
            reveal_strlit("{");
            reveal_strlit("}");
            assert("{"@[0] != "}"@[0]);
        }
        let ghost d0 = depth as int;
        let ghost s0 = started;
        if punct_is(t, q, "{") {
            depth = depth + 1;
            started = true;
            assert(skip_fn(tv(t), q as int, d0, s0) == skip_fn(tv(t), q + 1, d0 + 1, true));
        } else if punct_is(t, q, "}") {
            depth = depth - 1;
            if started && depth <= 0 {
                return q + 1;
            }
            assert(skip_fn(tv(t), q as int, d0, s0) == skip_fn(tv(t), q + 1, d0 - 1, s0));
        } else {
            assert(skip_fn(tv(t), q as int, d0, s0) == skip_fn(tv(t), q + 1, d0, s0));
        }
        q = q + 1;
    }
    q
}

/// Where the top-level item at `p` ends; a template found there is
/// appended to `acc`.
fn parse_item(t: &Vec<LexedTok>, p: usize, acc: &mut Vec<Template>) -> (q: usize)
    requires
        wf_toks(tv(t)),
        p < t@.len(),
        !(tk(tv(t), p as int) is Eof),
    ensures
        q == item_end(tv(t), p as int),
        p < q < t@.len(),
        templates_view(final(acc)@) == (if is_kw(tk(tv(t), p as int), "template"@) {
            match template_at(tv(t), adv(tv(t), p as int)).0 {
                Some(tm) => templates_view(old(acc)@).push(tm),
                None => templates_view(old(acc)@),
            }
        } else {
            templates_view(old(acc)@)
        }),
{
    proof {
        lemma_tok_at(t, p as int);
        lemma_not_last(t, p as int);
        reveal_strlit("pragma");
        reveal_strlit("include");
        reveal_strlit("component");
        reveal_strlit("template");
        reveal_strlit("function");
        assert("pragma"@[0] != "template"@[0]);
        assert("include"@[0] != "template"@[0]);
        assert("component"@[0] != "template"@[0]);
        assert("function"@[0] != "template"@[0]);
    }
    if kw_is(t, p, "pragma") || kw_is(t, p, "include") || kw_is(t, p, "component") {
        let q = skip_to_semi_exec(t, p);
        eat_punct(t, q, ";")
    } else if kw_is(t, p, "template") {
        let (tm, q) = parse_template(t, p + 1);
        match tm {
            Some(x) => {
                proof {
                    assert(templates_view(acc@.push(x)) =~= templates_view(acc@).push(x@));
                }
                acc.push(x);
                q
            },
            None => skip_to_kw_exec(t, q),
        }
    } else if kw_is(t, p, "function") {
        let q = p + 1;
        proof {
            lemma_tok_at(t, q as int);
        }
        let q2 = match &t[q].tok {
            Tok::Ident(_) => {
                proof {
                    lemma_not_last(t, q as int);
                }
                q + 1
            },
            _ => q,
        };
        skip_fn_exec(t, q2)
    } else {
        p + 1
    }
}

/// Parses a Circom source file into its templates.  Top-level `pragma`,
/// `include`, `function` and `component main = ...` items are skipped, and
/// so is a template that does not parse.
pub fn parse_templates(src: &str) -> (r: Vec<Template>)
    requires
        crate::lexer::count_newlines(src.spec_bytes()) < u32::MAX,
    ensures
        templates_view(r@) == templates_from(
            crate::lexer::lex(src.spec_bytes(), 0, 1),
            0,
            Seq::empty(),
        ),
{
    let t = crate::lexer::tokenize(src);
    let n = t.len();
    proof {
        crate::lexer::lemma_lex_ends_once(src.spec_bytes(), 0, 1);
        assert(tv(&t).len() == n);
        assert(tv(&t).last() == tv(&t)[n - 1]);
    }
    let mut acc: Vec<Template> = Vec::new();
    let mut p: usize = 0;
    assert(templates_view(acc@) =~= Seq::<TemplateV>::empty());
    while !is_eof(&t, p)
        invariant
            wf_toks(tv(&t)),
            p < t@.len(),
            tv(&t) == crate::lexer::lex(src.spec_bytes(), 0, 1),
            templates_from(tv(&t), 0, Seq::empty()) == templates_from(
                tv(&t),
                p as int,
                templates_view(acc@),
            ),
        decreases t@.len() - p,
    {
        p = parse_item(&t, p, &mut acc);
    }
    acc
}

} // verus!
