//! The grammar of Circom template bodies, stated over token sequences.
//!
//! Every function here reads the tokens `ts` from position `p` and gives
//! back what was parsed (`None` on a syntax error) together with the
//! position where parsing stopped: after the construct on success, at the
//! offending token on failure.  Positions only move forward; the checks
//! `p < q < ts.len()` that guard each recursive step always hold for the
//! token sequences that the lexer produces.

use vstd::prelude::*;
use crate::ast::{BinOp, ExprV, StmtV, SignalKind, AssignOp, UnaryOp, TemplateV};
use crate::lexer::TokV;
use crate::text::int_literal_value;

verus! {

/// The token at `p` (`Eof` past the end).
pub open spec fn tk(ts: Seq<(TokV, int)>, p: int) -> TokV {
    if 0 <= p < ts.len() {
        ts[p].0
    } else {
        TokV::Eof
    }
}

/// The line of the token at `p`.
pub open spec fn line_at(ts: Seq<(TokV, int)>, p: int) -> u32 {
    if 0 <= p < ts.len() {
        ts[p].1 as u32
    } else {
        0
    }
}

/// The position after a `bump` at `p`: the last token is never left.
pub open spec fn adv(ts: Seq<(TokV, int)>, p: int) -> int {
    if p + 1 < ts.len() {
        p + 1
    } else {
        p
    }
}

pub open spec fn is_punct(t: TokV, s: Seq<char>) -> bool {
    t matches TokV::Punct(q) && q == s
}

pub open spec fn is_kw(t: TokV, s: Seq<char>) -> bool {
    t matches TokV::Ident(q) && q == s
}

/// The position after an optional `s` at `p`.
pub open spec fn eat(ts: Seq<(TokV, int)>, p: int, s: Seq<char>) -> int {
    if is_punct(tk(ts, p), s) {
        adv(ts, p)
    } else {
        p
    }
}

/// A forward step that stays on a token.
pub open spec fn step(ts: Seq<(TokV, int)>, p: int, q: int) -> bool {
    p < q < ts.len()
}

pub open spec fn min_u32(a: u32, b: u32) -> u32 {
    if a <= b {
        a
    } else {
        b
    }
}

/// The binary operator that token `t` stands for at precedence level `l`
/// (`0` binds loosest: `||`; `9` tightest: `*`, `/`, `%`).
pub open spec fn level_op(l: nat, t: TokV) -> Option<BinOp> {
    match t {
        TokV::Punct(q) => {
            if l == 0 && q == "||"@ {
                Some(BinOp::Or)
            } else if l == 1 && q == "&&"@ {
                Some(BinOp::And)
            } else if l == 2 && q == "|"@ {
                Some(BinOp::BitOr)
            } else if l == 3 && q == "^"@ {
                Some(BinOp::BitXor)
            } else if l == 4 && q == "&"@ {
                Some(BinOp::BitAnd)
            } else if l == 5 && q == "=="@ {
                Some(BinOp::Eq)
            } else if l == 5 && q == "!="@ {
                Some(BinOp::Ne)
            } else if l == 6 && q == "<"@ {
                Some(BinOp::Lt)
            } else if l == 6 && q == "<="@ {
                Some(BinOp::Le)
            } else if l == 6 && q == ">"@ {
                Some(BinOp::Gt)
            } else if l == 6 && q == ">="@ {
                Some(BinOp::Ge)
            } else if l == 7 && q == "<<"@ {
                Some(BinOp::Shl)
            } else if l == 7 && q == ">>"@ {
                Some(BinOp::Shr)
            } else if l == 8 && q == "+"@ {
                Some(BinOp::Add)
            } else if l == 8 && q == "-"@ {
                Some(BinOp::Sub)
            } else if l == 9 && q == "*"@ {
                Some(BinOp::Mul)
            } else if l == 9 && q == "/"@ {
                Some(BinOp::Div)
            } else if l == 9 && q == "%"@ {
                Some(BinOp::Mod)
            } else {
                None
            }
        },
        _ => None,
    }
}

/// The operator of a compound assignment token (`+=`, `-=`, `*=`, `/=`).
pub open spec fn compound_op(t: TokV) -> Option<BinOp> {
    if is_punct(t, "+="@) {
        Some(BinOp::Add)
    } else if is_punct(t, "-="@) {
        Some(BinOp::Sub)
    } else if is_punct(t, "*="@) {
        Some(BinOp::Mul)
    } else if is_punct(t, "/="@) {
        Some(BinOp::Div)
    } else {
        None
    }
}

pub open spec fn level_rank(l: nat) -> int {
    if l < 10 {
        30 - l
    } else {
        20
    }
}

pub open spec fn bin(op: BinOp, l: ExprV, r: ExprV) -> ExprV {
    ExprV::Binary(op, Box::new(l), Box::new(r))
}

/// An expression at precedence level `l` or tighter; level `10` is a unary
/// expression.
pub open spec fn level_at(ts: Seq<(TokV, int)>, l: nat, p: int) -> (Option<ExprV>, int)
    decreases ts.len() - p, level_rank(l),
{
    if l >= 10 {
        unary_at(ts, p)
    } else {
        let r = level_at(ts, l + 1, p);
        match r.0 {
            None => r,
            Some(e) => if p <= r.1 < ts.len() {
                level_rest(ts, l, e, r.1)
            } else {
                (None, r.1)
            },
        }
    }
}

/// The operators of level `l` that follow `lhs`, folded to the left.
pub open spec fn level_rest(ts: Seq<(TokV, int)>, l: nat, lhs: ExprV, p: int) -> (
    Option<ExprV>,
    int,
)
    decreases ts.len() - p, 16int,
{
    match level_op(l, tk(ts, p)) {
        Some(op) => if p + 1 < ts.len() && l < 10 {
            let r = level_at(ts, l + 1, p + 1);
            match r.0 {
                None => r,
                Some(rhs) => if step(ts, p, r.1) {
                    level_rest(ts, l, bin(op, lhs, rhs), r.1)
                } else {
                    (None, r.1)
                },
            }
        } else {
            (None, p)
        },
        None => (Some(lhs), p),
    }
}

pub open spec fn expr_at(ts: Seq<(TokV, int)>, p: int) -> (Option<ExprV>, int)
    decreases ts.len() - p, 31int,
{
    level_at(ts, 0, p)
}

/// Prefix `-`, `!` and `+`, then a postfix expression.
pub open spec fn unary_at(ts: Seq<(TokV, int)>, p: int) -> (Option<ExprV>, int)
    decreases ts.len() - p, 15int,
{
    let t = tk(ts, p);
    if is_punct(t, "-"@) || is_punct(t, "!"@) || is_punct(t, "+"@) {
        if p + 1 < ts.len() {
            let r = unary_at(ts, p + 1);
            match r.0 {
                Some(e) => if is_punct(t, "-"@) {
                    (Some(ExprV::Unary(UnaryOp::Neg, Box::new(e))), r.1)
                } else if is_punct(t, "!"@) {
                    (Some(ExprV::Unary(UnaryOp::Not, Box::new(e))), r.1)
                } else {
                    r
                },
                None => r,
            }
        } else {
            (None, p)
        }
    } else {
        postfix_at(ts, p)
    }
}

pub open spec fn postfix_at(ts: Seq<(TokV, int)>, p: int) -> (Option<ExprV>, int)
    decreases ts.len() - p, 14int,
{
    let r = primary_at(ts, p);
    match r.0 {
        None => r,
        Some(e) => if p <= r.1 < ts.len() {
            postfix_rest(ts, e, r.1)
        } else {
            (None, r.1)
        },
    }
}

/// Member accesses `.name` and indexings `[expr]` after `e`.
pub open spec fn postfix_rest(ts: Seq<(TokV, int)>, e: ExprV, p: int) -> (Option<ExprV>, int)
    decreases ts.len() - p, 13int,
{
    let t = tk(ts, p);
    if is_punct(t, "."@) {
        if p + 1 < ts.len() {
            match tk(ts, p + 1) {
                TokV::Ident(name) => if p + 2 < ts.len() {
                    postfix_rest(ts, ExprV::Member(Box::new(e), name), p + 2)
                } else {
                    (None, p + 1)
                },
                _ => (None, p + 1),
            }
        } else {
            (None, p)
        }
    } else if is_punct(t, "["@) {
        if p + 1 < ts.len() {
            let r = expr_at(ts, p + 1);
            match r.0 {
                None => r,
                Some(idx) => if is_punct(tk(ts, r.1), "]"@) {
                    if step(ts, p, r.1 + 1) {
                        postfix_rest(ts, ExprV::Index(Box::new(e), Box::new(idx)), r.1 + 1)
                    } else {
                        (None, r.1)
                    }
                } else {
                    (None, r.1)
                },
            }
        } else {
            (None, p)
        }
    } else {
        (Some(e), p)
    }
}

/// A comma-separated list of expressions, appended to `acc`.
pub open spec fn args_from(ts: Seq<(TokV, int)>, p: int, acc: Seq<ExprV>) -> (
    Option<Seq<ExprV>>,
    int,
)
    decreases ts.len() - p, 32int,
{
    let r = expr_at(ts, p);
    match r.0 {
        None => (None, r.1),
        Some(e) => if is_punct(tk(ts, r.1), ","@) {
            if step(ts, p, r.1 + 1) {
                args_from(ts, r.1 + 1, acc.push(e))
            } else {
                (None, r.1)
            }
        } else {
            (Some(acc.push(e)), r.1)
        },
    }
}

/// An argument list after its `(`, and the closing `)`.
pub open spec fn call_args_at(ts: Seq<(TokV, int)>, p: int) -> (Option<Seq<ExprV>>, int)
    decreases ts.len() - p, 33int,
{
    let r = if is_punct(tk(ts, p), ")"@) {
        (Some(Seq::<ExprV>::empty()), p)
    } else {
        args_from(ts, p, Seq::empty())
    };
    match r.0 {
        None => r,
        Some(args) => if is_punct(tk(ts, r.1), ")"@) {
            (Some(args), adv(ts, r.1))
        } else {
            (None, r.1)
        },
    }
}

/// An integer literal, an identifier, a call or a parenthesised expression.
pub open spec fn primary_at(ts: Seq<(TokV, int)>, p: int) -> (Option<ExprV>, int)
    decreases ts.len() - p, 12int,
{
    match tk(ts, p) {
        TokV::Int(s) => (Some(ExprV::Int(int_literal_value(s))), adv(ts, p)),
        TokV::Ident(name) => {
            let q = adv(ts, p);
            if is_punct(tk(ts, q), "("@) {
                if step(ts, p, q + 1) {
                    let r = call_args_at(ts, q + 1);
                    match r.0 {
                        None => (None, r.1),
                        Some(args) => (Some(ExprV::Call(name, args)), r.1),
                    }
                } else {
                    (None, q)
                }
            } else {
                (Some(ExprV::Ident(name)), q)
            }
        },
        TokV::Punct(s) => if s == "("@ && p + 1 < ts.len() {
            let r = expr_at(ts, p + 1);
            match r.0 {
                None => r,
                Some(e) => if is_punct(tk(ts, r.1), ")"@) {
                    (Some(ExprV::Paren(Box::new(e))), adv(ts, r.1))
                } else {
                    (None, r.1)
                },
            }
        } else {
            (None, p)
        },
        TokV::Eof => (None, p),
    }
}

// ----- statements -------------------------------------------------------------

pub open spec fn single(r: (Option<StmtV>, int)) -> (Option<Seq<StmtV>>, int) {
    match r.0 {
        Some(st) => (Some(seq![st]), r.1),
        None => (None, r.1),
    }
}

/// A block, or a single statement where no `{` opens one.
pub open spec fn branch_at(ts: Seq<(TokV, int)>, p: int) -> (Option<Seq<StmtV>>, int)
    decreases ts.len() - p, 43int,
{
    if is_punct(tk(ts, p), "{"@) {
        block_at(ts, p)
    } else {
        single(stmt_at(ts, p))
    }
}

/// `{ statements }`.
pub open spec fn block_at(ts: Seq<(TokV, int)>, p: int) -> (Option<Seq<StmtV>>, int)
    decreases ts.len() - p, 41int,
{
    if is_punct(tk(ts, p), "{"@) && p + 1 < ts.len() {
        let r = items_from(ts, p + 1, Seq::empty());
        match r.0 {
            None => r,
            Some(items) => if is_punct(tk(ts, r.1), "}"@) {
                (Some(items), adv(ts, r.1))
            } else {
                (None, r.1)
            },
        }
    } else {
        (None, p)
    }
}

/// Statements up to a `}` or the end of input, appended to `acc`.
pub open spec fn items_from(ts: Seq<(TokV, int)>, p: int, acc: Seq<StmtV>) -> (
    Option<Seq<StmtV>>,
    int,
)
    decreases ts.len() - p, 42int,
{
    if is_punct(tk(ts, p), "}"@) || tk(ts, p) is Eof {
        (Some(acc), p)
    } else {
        let r = stmt_at(ts, p);
        match r.0 {
            None => (None, r.1),
            Some(st) => if step(ts, p, r.1) {
                items_from(ts, r.1, acc.push(st))
            } else {
                (None, r.1)
            },
        }
    }
}

/// `var name;` or `var name = expr;`, from the token after `var`.
pub open spec fn var_at(ts: Seq<(TokV, int)>, p: int, line: u32) -> (Option<StmtV>, int) {
    match tk(ts, p) {
        TokV::Ident(name) => if p + 1 < ts.len() {
            let q = p + 1;
            if is_punct(tk(ts, q), "="@) {
                if q + 1 < ts.len() {
                    let r = expr_at(ts, q + 1);
                    match r.0 {
                        None => (None, r.1),
                        Some(e) => (
                            Some(StmtV::VarDecl { line, name, init: Some(e) }),
                            eat(ts, r.1, ";"@),
                        ),
                    }
                } else {
                    (None, q)
                }
            } else {
                (Some(StmtV::VarDecl { line, name, init: None }), eat(ts, q, ";"@))
            }
        } else {
            (None, p)
        },
        _ => (None, p),
    }
}

/// Array dimensions `[expr]...`, appended to `acc`.
pub open spec fn dims_from(ts: Seq<(TokV, int)>, p: int, acc: Seq<ExprV>) -> (
    Option<Seq<ExprV>>,
    int,
)
    decreases ts.len() - p,
{
    if is_punct(tk(ts, p), "["@) && p + 1 < ts.len() {
        let r = expr_at(ts, p + 1);
        match r.0 {
            None => (None, r.1),
            Some(e) => if is_punct(tk(ts, r.1), "]"@) {
                if step(ts, p, r.1 + 1) {
                    dims_from(ts, r.1 + 1, acc.push(e))
                } else {
                    (None, r.1)
                }
            } else {
                (None, r.1)
            },
        }
    } else {
        (Some(acc), p)
    }
}

/// A signal declaration, from the token after `signal`.
pub open spec fn signal_at(ts: Seq<(TokV, int)>, p: int, line: u32) -> (Option<StmtV>, int) {
    let (kind, q) = if is_kw(tk(ts, p), "input"@) {
        (SignalKind::Input, adv(ts, p))
    } else if is_kw(tk(ts, p), "output"@) {
        (SignalKind::Output, adv(ts, p))
    } else {
        (SignalKind::Intermediate, p)
    };
    match tk(ts, q) {
        TokV::Ident(name) => if q + 1 < ts.len() {
            let r = dims_from(ts, q + 1, Seq::empty());
            match r.0 {
                None => (None, r.1),
                Some(dims) => (
                    Some(StmtV::SignalDecl { line, name, kind, dims }),
                    eat(ts, r.1, ";"@),
                ),
            }
        } else {
            (None, q)
        },
        _ => (None, q),
    }
}

/// `component name = Template(args);`, from the token after `component`.
pub open spec fn component_at(ts: Seq<(TokV, int)>, p: int, line: u32) -> (Option<StmtV>, int) {
    match tk(ts, p) {
        TokV::Ident(name) => if p + 1 < ts.len() {
            let q = p + 1;
            if is_punct(tk(ts, q), "="@) && q + 1 < ts.len() {
                let q2 = q + 1;
                match tk(ts, q2) {
                    TokV::Ident(template) => if q2 + 1 < ts.len() {
                        let q3 = q2 + 1;
                        if is_punct(tk(ts, q3), "("@) && q3 + 1 < ts.len() {
                            let r = call_args_at(ts, q3 + 1);
                            match r.0 {
                                None => (None, r.1),
                                Some(args) => (
                                    Some(StmtV::ComponentDecl { line, name, template, args }),
                                    eat(ts, r.1, ";"@),
                                ),
                            }
                        } else {
                            (None, q3)
                        }
                    } else {
                        (None, q2)
                    },
                    _ => (None, q2),
                }
            } else {
                (None, q)
            }
        } else {
            (None, p)
        },
        _ => (None, p),
    }
}

/// `return;` or `return expr;`, from the token after `return`.
pub open spec fn return_at(ts: Seq<(TokV, int)>, p: int, line: u32) -> (Option<StmtV>, int) {
    if !is_punct(tk(ts, p), ";"@) {
        let r = expr_at(ts, p);
        match r.0 {
            None => (None, r.1),
            Some(e) => (Some(StmtV::Return { line, value: Some(e) }), eat(ts, r.1, ";"@)),
        }
    } else {
        (Some(StmtV::Return { line, value: None }), eat(ts, p, ";"@))
    }
}

/// `if (cond) branch [else branch]`, from the token after `if`.
pub open spec fn if_at(ts: Seq<(TokV, int)>, p: int, line: u32) -> (Option<StmtV>, int)
    decreases ts.len() - p, 39int,
{
    if is_punct(tk(ts, p), "("@) && p + 1 < ts.len() {
        let r = expr_at(ts, p + 1);
        match r.0 {
            None => (None, r.1),
            Some(cond) => if is_punct(tk(ts, r.1), ")"@) && step(ts, p, r.1 + 1) {
                let tb = branch_at(ts, r.1 + 1);
                match tb.0 {
                    None => (None, tb.1),
                    Some(then_block) => if is_kw(tk(ts, tb.1), "else"@) {
                        if step(ts, p, tb.1 + 1) {
                            let eb = branch_at(ts, tb.1 + 1);
                            match eb.0 {
                                None => (None, eb.1),
                                Some(else_block) => (
                                    Some(StmtV::If { line, cond, then_block, else_block }),
                                    eb.1,
                                ),
                            }
                        } else {
                            (None, tb.1)
                        }
                    } else {
                        (Some(StmtV::If { line, cond, then_block, else_block: Seq::empty() }), tb.1)
                    },
                }
            } else {
                (None, r.1)
            },
        }
    } else {
        (None, p)
    }
}

/// The update clause of a `for` header: `x++`, `x--`, `x = e`, `x op= e`
/// or a bare expression, with no `;`.
pub open spec fn update_at(ts: Seq<(TokV, int)>, p: int) -> (Option<StmtV>, int) {
    let line = line_at(ts, p);
    let r = expr_at(ts, p);
    match r.0 {
        None => (None, r.1),
        Some(lhs) => {
            let q = r.1;
            let t = tk(ts, q);
            if is_punct(t, "++"@) || is_punct(t, "--"@) {
                let op = if is_punct(t, "++"@) {
                    BinOp::Add
                } else {
                    BinOp::Sub
                };
                (
                    Some(
                        StmtV::Assign {
                            line,
                            op: AssignOp::VarAssign,
                            lhs,
                            rhs: bin(op, lhs, ExprV::Int(1)),
                        },
                    ),
                    adv(ts, q),
                )
            } else if is_punct(t, "="@) || compound_op(t) is Some {
                if q + 1 < ts.len() {
                    let r2 = expr_at(ts, q + 1);
                    match r2.0 {
                        None => (None, r2.1),
                        Some(e) => {
                            let rhs = match compound_op(t) {
                                Some(op) => bin(op, lhs, e),
                                None => e,
                            };
                            (Some(StmtV::Assign { line, op: AssignOp::VarAssign, lhs, rhs }), r2.1)
                        },
                    }
                } else {
                    (None, q)
                }
            } else {
                (Some(StmtV::ExprStmt { line, expr: lhs }), q)
            }
        },
    }
}

/// `for (init; cond; update) branch`, from the token after `for`.
pub open spec fn for_at(ts: Seq<(TokV, int)>, p: int, line: u32) -> (Option<StmtV>, int)
    decreases ts.len() - p, 38int,
{
    if is_punct(tk(ts, p), "("@) && p + 1 < ts.len() {
        let ri = stmt_at(ts, p + 1);
        match ri.0 {
            None => (None, ri.1),
            Some(init) => if step(ts, p, ri.1) {
                let rc = expr_at(ts, ri.1);
                match rc.0 {
                    None => (None, rc.1),
                    Some(cond) => if is_punct(tk(ts, rc.1), ";"@) && step(ts, p, rc.1 + 1) {
                        let ru = update_at(ts, rc.1 + 1);
                        match ru.0 {
                            None => (None, ru.1),
                            Some(update) => if is_punct(tk(ts, ru.1), ")"@) && step(
                                ts,
                                p,
                                ru.1 + 1,
                            ) {
                                let rb = branch_at(ts, ru.1 + 1);
                                match rb.0 {
                                    None => (None, rb.1),
                                    Some(body) => (
                                        Some(
                                            StmtV::For {
                                                line,
                                                init: Box::new(init),
                                                cond,
                                                update: Box::new(update),
                                                body,
                                            },
                                        ),
                                        rb.1,
                                    ),
                                }
                            } else {
                                (None, ru.1)
                            },
                        }
                    } else {
                        (None, rc.1)
                    },
                }
            } else {
                (None, ri.1)
            },
        }
    } else {
        (None, p)
    }
}

/// A statement led by an expression: an assignment, a constraint, an
/// increment or a bare expression.
pub open spec fn assign_at(ts: Seq<(TokV, int)>, p: int, line: u32) -> (Option<StmtV>, int) {
    let r = expr_at(ts, p);
    match r.0 {
        None => (None, r.1),
        Some(lhs) => {
            let q = r.1;
            let t = tk(ts, q);
            let al = min_u32(line_at(ts, q), line);
            if is_punct(t, "<=="@) || is_punct(t, "<--"@) || is_punct(t, "==="@) || is_punct(
                t,
                "="@,
            ) || compound_op(t) is Some {
                if q + 1 < ts.len() {
                    let r2 = expr_at(ts, q + 1);
                    match r2.0 {
                        None => (None, r2.1),
                        Some(e) => {
                            let st = if is_punct(t, "<=="@) {
                                StmtV::Assign {
                                    line: al,
                                    op: AssignOp::SignalAssignConstrain,
                                    lhs,
                                    rhs: e,
                                }
                            } else if is_punct(t, "<--"@) {
                                StmtV::Assign { line: al, op: AssignOp::SignalAssign, lhs, rhs: e }
                            } else if is_punct(t, "==="@) {
                                StmtV::Constraint { line: al, lhs, rhs: e }
                            } else {
                                let rhs = match compound_op(t) {
                                    Some(op) => bin(op, lhs, e),
                                    None => e,
                                };
                                StmtV::Assign { line, op: AssignOp::VarAssign, lhs, rhs }
                            };
                            (Some(st), eat(ts, r2.1, ";"@))
                        },
                    }
                } else {
                    (None, q)
                }
            } else if is_punct(t, "++"@) || is_punct(t, "--"@) {
                let op = if is_punct(t, "++"@) {
                    BinOp::Add
                } else {
                    BinOp::Sub
                };
                (
                    Some(
                        StmtV::Assign {
                            line,
                            op: AssignOp::VarAssign,
                            lhs,
                            rhs: bin(op, lhs, ExprV::Int(1)),
                        },
                    ),
                    eat(ts, adv(ts, q), ";"@),
                )
            } else {
                (Some(StmtV::ExprStmt { line, expr: lhs }), eat(ts, q, ";"@))
            }
        },
    }
}

pub open spec fn is_stmt_kw(t: TokV) -> bool {
    is_kw(t, "var"@) || is_kw(t, "signal"@) || is_kw(t, "component"@) || is_kw(t, "if"@) || is_kw(
        t,
        "for"@,
    ) || is_kw(t, "return"@)
}

/// One statement.
pub open spec fn stmt_at(ts: Seq<(TokV, int)>, p: int) -> (Option<StmtV>, int)
    decreases ts.len() - p, 40int,
{
    let line = line_at(ts, p);
    let t = tk(ts, p);
    if is_stmt_kw(t) {
        if p + 1 < ts.len() {
            let q = p + 1;
            if is_kw(t, "var"@) {
                var_at(ts, q, line)
            } else if is_kw(t, "signal"@) {
                signal_at(ts, q, line)
            } else if is_kw(t, "component"@) {
                component_at(ts, q, line)
            } else if is_kw(t, "if"@) {
                if_at(ts, q, line)
            } else if is_kw(t, "for"@) {
                for_at(ts, q, line)
            } else {
                return_at(ts, q, line)
            }
        } else {
            (None, p)
        }
    } else {
        assign_at(ts, p, line)
    }
}

// ----- templates --------------------------------------------------------------

/// Generic parameter names `a, b, ...`, appended to `acc`.
pub open spec fn params_from(ts: Seq<(TokV, int)>, p: int, acc: Seq<Seq<char>>) -> (
    Option<Seq<Seq<char>>>,
    int,
)
    decreases ts.len() - p,
{
    match tk(ts, p) {
        TokV::Ident(n) => if p + 1 < ts.len() {
            if is_punct(tk(ts, p + 1), ","@) && p + 2 < ts.len() {
                params_from(ts, p + 2, acc.push(n))
            } else {
                (Some(acc.push(n)), p + 1)
            }
        } else {
            (None, p)
        },
        _ => (None, p),
    }
}

/// The names of the `signal input` declarations of a block, in order.
pub open spec fn input_names(body: Seq<StmtV>) -> Seq<Seq<char>>
    decreases body.len(),
{
    if body.len() == 0 {
        Seq::empty()
    } else {
        let rest = input_names(body.drop_last());
        match body.last() {
            StmtV::SignalDecl { name, kind: SignalKind::Input, .. } => rest.push(name),
            _ => rest,
        }
    }
}

/// `Name(params) { body }`, from the token after `template`.
pub open spec fn template_at(ts: Seq<(TokV, int)>, p: int) -> (Option<TemplateV>, int) {
    let line = line_at(ts, p);
    match tk(ts, p) {
        TokV::Ident(name) => if p + 1 < ts.len() {
            let q = p + 1;
            if is_punct(tk(ts, q), "("@) && q + 1 < ts.len() {
                let rp = if is_punct(tk(ts, q + 1), ")"@) {
                    (Some(Seq::<Seq<char>>::empty()), q + 1)
                } else {
                    params_from(ts, q + 1, Seq::empty())
                };
                match rp.0 {
                    None => (None, rp.1),
                    Some(params) => if is_punct(tk(ts, rp.1), ")"@) && rp.1 + 1 < ts.len() {
                        let rb = block_at(ts, rp.1 + 1);
                        match rb.0 {
                            None => (None, rb.1),
                            Some(body) => (
                                Some(
                                    TemplateV {
                                        name,
                                        line,
                                        generic_params: params,
                                        body,
                                        input_signals: input_names(body),
                                    },
                                ),
                                rb.1,
                            ),
                        }
                    } else {
                        (None, rp.1)
                    },
                }
            } else {
                (None, q)
            }
        } else {
            (None, p)
        },
        _ => (None, p),
    }
}

/// The first `;` or the end of input, from `p`.
pub open spec fn skip_to_semi(ts: Seq<(TokV, int)>, p: int) -> int
    decreases ts.len() - p,
{
    if is_punct(tk(ts, p), ";"@) || tk(ts, p) is Eof {
        p
    } else if p + 1 < ts.len() {
        skip_to_semi(ts, p + 1)
    } else {
        p
    }
}

pub open spec fn is_top_kw(t: TokV) -> bool {
    is_kw(t, "template"@) || is_kw(t, "function"@) || is_kw(t, "component"@)
}

/// The first `template`, `function` or `component` keyword or the end of
/// input, from `p`: where parsing resumes after a broken template.
pub open spec fn skip_to_kw(ts: Seq<(TokV, int)>, p: int) -> int
    decreases ts.len() - p,
{
    if tk(ts, p) is Eof || is_top_kw(tk(ts, p)) {
        p
    } else if p + 1 < ts.len() {
        skip_to_kw(ts, p + 1)
    } else {
        p
    }
}

/// Where a skipped function body ends: after the `}` that closes the first
/// `{`, counting nesting.
pub open spec fn skip_fn(ts: Seq<(TokV, int)>, p: int, depth: int, started: bool) -> int
    decreases ts.len() - p,
{
    let t = tk(ts, p);
    if t is Eof {
        p
    } else if is_punct(t, "}"@) && started && depth - 1 <= 0 {
        adv(ts, p)
    } else if p + 1 < ts.len() {
        if is_punct(t, "{"@) {
            skip_fn(ts, p + 1, depth + 1, true)
        } else if is_punct(t, "}"@) {
            skip_fn(ts, p + 1, depth - 1, started)
        } else {
            skip_fn(ts, p + 1, depth, started)
        }
    } else {
        p
    }
}

/// Where the top-level item at `p` ends.
pub open spec fn item_end(ts: Seq<(TokV, int)>, p: int) -> int {
    let t = tk(ts, p);
    if is_kw(t, "pragma"@) || is_kw(t, "include"@) || is_kw(t, "component"@) {
        eat(ts, skip_to_semi(ts, p), ";"@)
    } else if is_kw(t, "template"@) {
        let r = template_at(ts, adv(ts, p));
        match r.0 {
            Some(_) => r.1,
            None => skip_to_kw(ts, r.1),
        }
    } else if is_kw(t, "function"@) {
        let q = adv(ts, p);
        let q2 = if tk(ts, q) is Ident {
            adv(ts, q)
        } else {
            q
        };
        skip_fn(ts, q2, 0, false)
    } else {
        adv(ts, p)
    }
}

/// The templates from `p` on, appended to `acc`; other top-level items are
/// skipped, and so is a template that does not parse.
pub open spec fn templates_from(ts: Seq<(TokV, int)>, p: int, acc: Seq<TemplateV>) -> Seq<
    TemplateV,
>
    decreases ts.len() - p,
{
    let t = tk(ts, p);
    if t is Eof {
        acc
    } else {
        let acc2 = if is_kw(t, "template"@) {
            match template_at(ts, adv(ts, p)).0 {
                Some(tm) => acc.push(tm),
                None => acc,
            }
        } else {
            acc
        };
        let q = item_end(ts, p);
        if step(ts, p, q) {
            templates_from(ts, q, acc2)
        } else {
            acc2
        }
    }
}

} // verus!

verus! {

// ----- what a compound assignment means ------------------------------------------------

/// A compound assignment applies the arithmetic that its symbol names to
/// the target and the right-hand side: `+=` adds, `-=` subtracts, `*=`
/// multiplies (each exactly, faulting outside `i64`), and `/=` divides.
/// A plain `=` is no compound assignment.
pub proof fn lemma_compound_op_meaning(a: i64, b: i64, env: Map<Seq<char>, crate::value::ValueV>)
    ensures
        compound_op(TokV::Punct("+="@)) matches Some(op) && crate::semantics::checked_value(
            crate::semantics::ev(crate::semantics::lit_binary(op, a, b), env),
            a + b,
        ),
        compound_op(TokV::Punct("-="@)) matches Some(op) && crate::semantics::checked_value(
            crate::semantics::ev(crate::semantics::lit_binary(op, a, b), env),
            a - b,
        ),
        compound_op(TokV::Punct("*="@)) matches Some(op) && crate::semantics::checked_value(
            crate::semantics::ev(crate::semantics::lit_binary(op, a, b), env),
            a * b,
        ),
        compound_op(TokV::Punct("/="@)) matches Some(op) && (0 <= a && 0 < b ==> crate::semantics::ev(
            crate::semantics::lit_binary(op, a, b),
            env,
        ) == Some(Some(crate::value::ValueV::Int((a / b) as i64)))),
        compound_op(TokV::Punct("="@)) is None,
{
    reveal_strlit("+=");
    reveal_strlit("-=");
    reveal_strlit("*=");
    reveal_strlit("/=");
    reveal_strlit("=");
    assert("-="@ != "+="@) by {
        assert("-="@[0] != "+="@[0]);
    }
    assert("*="@ != "+="@ && "*="@ != "-="@) by {
        assert("*="@[0] != "+="@[0]);
        assert("*="@[0] != "-="@[0]);
    }
    assert("/="@ != "+="@ && "/="@ != "-="@ && "/="@ != "*="@) by {
        assert("/="@[0] != "+="@[0]);
        assert("/="@[0] != "-="@[0]);
        assert("/="@[0] != "*="@[0]);
    }
    assert("="@.len() != "+="@.len());
    assert(compound_op(TokV::Punct("-="@)) == Some(BinOp::Sub));
    assert(compound_op(TokV::Punct("*="@)) == Some(BinOp::Mul));
    assert(compound_op(TokV::Punct("/="@)) == Some(BinOp::Div));
    crate::semantics::lemma_binary_meaning(a, b, env);
    assert(crate::semantics::ev(ExprV::Int(a), env) == Some(Some(crate::value::ValueV::Int(a))));
    assert(crate::semantics::ev(ExprV::Int(b), env) == Some(Some(crate::value::ValueV::Int(b))));
    assert(crate::semantics::ev_int(ExprV::Int(a), env) == Some(Some(a)));
    assert(crate::semantics::ev_int(ExprV::Int(b), env) == Some(Some(b)));
    if 0 <= a && 0 < b {
        assert(a / b <= a) by (nonlinear_arith)
            requires
                0 <= a,
                0 < b,
        ;
        assert(a / b >= 0) by (nonlinear_arith)
            requires
                0 <= a,
                0 < b,
        ;
    }
}

} // verus!
