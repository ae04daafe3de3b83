//! Structured Circom evaluator: walks a template body in order, computing
//! `i64` values for variables and signals and recording an event per
//! executed line, per signal update and per sub-component instantiation.
//! Proved to follow `semantics.rs`.

use vstd::prelude::*;
use crate::ast::{
    AssignOp, BinOp, Expr, ExprV, SignalKind, Stmt, StmtV, Template, TemplateV, UnaryOp, copy_expr,
    lemma_exprs_view, lemma_stmts_view, stmts_view,
};
use crate::semantics::{
    EventKindV, EventV, NowV, PreV, collect_now_block, collect_now_for, collect_now_stmt, assign_to, binop, collect_block, collect_for, collect_stmt,
    eval_comps, eval_template, ev, ev0, ev_int, ev_list, exec_block, exec_for, exec_stmt,
    expr_name, int_values, outputs_of, seed_env, bind_params, step_ev, template_named,
    wire_events, wire_inputs,
};
use crate::text::{signed_decimal_exec, string_from_chars};
use crate::value::{
    value_view, Env, Value, ValueV, copy_signals, copy_value, find_last_key, lemma_pairs_map_at,
    lemma_pairs_map_absent, lemma_pairs_map_push, lemma_pairs_map_update, lemma_values_view,
    last_key_at, pairs_map, signal_get, signal_insert, signals_map, signals_pairs, values_view, zeros,
};

verus! {

broadcast use vstd::std_specs::vec::axiom_vec_decreases_to_view;

/// What a recorded event says happened.
#[derive(Debug)]
pub enum EvalEventKind {
    /// A bare step at the event's line.
    Step,
    /// A signal update; `name` is printable (`total`, `add5.x`, `arr[2]`).
    Variable { name: String, value: i64 },
    /// A sub-component instantiation with its numeric template arguments.
    ComponentEnter { comp_name: String, template: String, args: Vec<i64> },
    /// A value wired into a sub-component's input signal.
    Wire { comp_name: String, signal_name: String, value: i64 },
}

/// An event of evaluating a template, at a 1-based source line.
#[derive(Debug)]
pub struct EvalEvent {
    pub line: u32,
    pub kind: EvalEventKind,
}

impl View for EvalEventKind {
    type V = EventKindV;

    open spec fn view(&self) -> EventKindV {
        match self {
            EvalEventKind::Step => EventKindV::Step,
            EvalEventKind::Variable { name, value } => EventKindV::Variable {
                name: name@,
                value: *value,
            },
            EvalEventKind::ComponentEnter { comp_name, template, args } => EventKindV::ComponentEnter {
                comp_name: comp_name@,
                template: template@,
                args: args@,
            },
            EvalEventKind::Wire { comp_name, signal_name, value } => EventKindV::Wire {
                comp_name: comp_name@,
                signal_name: signal_name@,
                value: *value,
            },
        }
    }
}

impl View for EvalEvent {
    type V = EventV;

    open spec fn view(&self) -> EventV {
        EventV { line: self.line, kind: self.kind@ }
    }
}

pub open spec fn events_view(v: Seq<EvalEvent>) -> Seq<EventV> {
    v.map_values(|e: EvalEvent| e@)
}

pub open spec fn opt_value_view(o: Option<Value>) -> Option<ValueV> {
    match o {
        Some(v) => Some(v@),
        None => None,
    }
}

pub open spec fn fault_value_view(o: Option<Option<Value>>) -> Option<Option<ValueV>> {
    match o {
        Some(v) => Some(opt_value_view(v)),
        None => None,
    }
}

fn binop_exec(op: BinOp, a: i64, b: i64) -> (r: Option<i64>)
    ensures
        r == binop(op, a, b),
{
    match op {
        BinOp::Add => a.checked_add(b),
        BinOp::Sub => a.checked_sub(b),
        BinOp::Mul => a.checked_mul(b),
        BinOp::Div => if b == 0 {
            Some(0)
        } else {
            a.checked_div(b)
        },
        BinOp::Mod => if b == 0 {
            Some(0)
        } else {
            a.checked_rem(b)
        },
        BinOp::Lt => Some(if a < b { 1 } else { 0 }),
        BinOp::Le => Some(if a <= b { 1 } else { 0 }),
        BinOp::Gt => Some(if a > b { 1 } else { 0 }),
        BinOp::Ge => Some(if a >= b { 1 } else { 0 }),
        BinOp::Eq => Some(if a == b { 1 } else { 0 }),
        BinOp::Ne => Some(if a != b { 1 } else { 0 }),
        BinOp::And => Some(if a != 0 && b != 0 { 1 } else { 0 }),
        BinOp::Or => Some(if a != 0 || b != 0 { 1 } else { 0 }),
        BinOp::BitAnd => Some(a & b),
        BinOp::BitOr => Some(a | b),
        BinOp::BitXor => Some(a ^ b),
        BinOp::Shl => Some(a.wrapping_shl(b as u32)),
        BinOp::Shr => Some(a.wrapping_shr(b as u32)),
    }
}

/// The value of an expression; `None` on a fault, `Some(None)` where it has
/// no value.
fn eval_expr(e: &Expr, env: &Env) -> (r: Option<Option<Value>>)
    ensures
        fault_value_view(r) == ev(e@, env@),
    decreases e, 1int,
{
    match e {
        Expr::Int(n) => Some(Some(Value::Int(*n))),
        Expr::Ident(name) => match env.get(name.as_str()) {
            Some(v) => Some(Some(copy_value(v))),
            None => Some(None),
        },
        Expr::Member(b, name) => match eval_expr(b, env) {
            None => None,
            Some(Some(Value::Component { signals, .. })) => match signal_get(
                &signals,
                name.as_str(),
            ) {
                Some(x) => Some(Some(Value::Int(x))),
                None => Some(None),
            },
            Some(_) => Some(None),
        },
        Expr::Index(b, idx) => {
            let base = match eval_expr(b, env) {
                None => {
                    return None;
                },
                Some(None) => {
                    return Some(None);
                },
                Some(Some(v)) => v,
            };
            let i = match eval_int(idx, env) {
                None => {
                    return None;
                },
                Some(None) => {
                    return Some(None);
                },
                Some(Some(i)) => i,
            };
            match base {
                Value::Array(arr) => {
                    let u = i as usize;
                    if u < arr.len() {
                        proof {
                            lemma_values_view(arr@);
                        }
                        Some(Some(copy_value(&arr[u])))
                    } else {
                        proof {
                            lemma_values_view(arr@);
                        }
                        Some(None)
                    }
                },
                _ => Some(None),
            }
        },
        Expr::Paren(b) => eval_expr(b, env),
        Expr::Unary(op, b) => match eval_int(b, env) {
            None => None,
            Some(None) => Some(None),
            Some(Some(v)) => match op {
                UnaryOp::Neg => if v == i64::MIN {
                    None
                } else {
                    Some(Some(Value::Int(-v)))
                },
                UnaryOp::Not => Some(Some(Value::Int(if v == 0 { 1 } else { 0 }))),
            },
        },
        Expr::Binary(op, l, r) => {
            let a = match eval_int(l, env) {
                None => {
                    return None;
                },
                Some(None) => {
                    return Some(None);
                },
                Some(Some(a)) => a,
            };
            let b = match eval_int(r, env) {
                None => {
                    return None;
                },
                Some(None) => {
                    return Some(None);
                },
                Some(Some(b)) => b,
            };
            match binop_exec(*op, a, b) {
                None => None,
                Some(x) => Some(Some(Value::Int(x))),
            }
        },
        Expr::Call(_, _) => Some(None),
    }
}

/// The value of an expression read as an integer.
fn eval_int(e: &Expr, env: &Env) -> (r: Option<Option<i64>>)
    ensures
        r == ev_int(e@, env@),
    decreases e, 2int,
{
    match eval_expr(e, env) {
        None => None,
        Some(None) => Some(None),
        Some(Some(v)) => Some(v.as_int()),
    }
}

/// The integer value of an expression, 0 where it has none; `None` on a
/// fault.
fn eval0(e: &Expr, env: &Env) -> (r: Option<i64>)
    ensures
        r == ev0(e@, env@),
{
    match eval_int(e, env) {
        None => None,
        Some(Some(x)) => Some(x),
        Some(None) => Some(0),
    }
}

/// `eval0` of each expression, in order.
fn eval_list(args: &Vec<Expr>, env: &Env) -> (r: Option<Vec<i64>>)
    ensures
        match r {
            Some(v) => ev_list(crate::ast::exprs_view(args@), env@) == Some(v@),
            None => ev_list(crate::ast::exprs_view(args@), env@) is None,
        },
{
    let mut out: Vec<i64> = Vec::new();
    let mut i: usize = 0;
    proof {
        lemma_exprs_view(args@);
        assert(crate::ast::exprs_view(args@).take(0) =~= Seq::<ExprV>::empty());
    }
    while i < args.len()
        invariant
            i <= args@.len(),
            crate::ast::exprs_view(args@).len() == args@.len(),
            forall|k: int| 0 <= k < args@.len() ==> #[trigger] crate::ast::exprs_view(args@)[k]
                == args@[k]@,
            ev_list(crate::ast::exprs_view(args@).take(i as int), env@) == Some(out@),
        decreases args.len() - i,
    {
        let ghost pre = crate::ast::exprs_view(args@).take(i as int);
        let ghost nxt = crate::ast::exprs_view(args@).take(i + 1);
        assert(nxt.drop_last() =~= pre);
        assert(nxt.last() == args@[i as int]@);
        match eval0(&args[i], env) {
            None => {
                proof {
                    lemma_ev_list_prefix_fault(crate::ast::exprs_view(args@), env@, i + 1);
                }
                return None;
            },
            Some(x) => {
                out.push(x);
            },
        }
        i += 1;
    }
    assert(crate::ast::exprs_view(args@).take(args@.len() as int) =~= crate::ast::exprs_view(
        args@,
    ));
    Some(out)
}

/// A fault in a prefix of the list is a fault of the whole list.
proof fn lemma_ev_list_prefix_fault(a: Seq<ExprV>, env: Map<Seq<char>, ValueV>, n: int)
    requires
        0 <= n <= a.len(),
        ev_list(a.take(n), env) is None,
    ensures
        ev_list(a, env) is None,
    decreases a.len() - n,
{
    if n < a.len() {
        assert(a.take(n + 1).drop_last() =~= a.take(n));
        lemma_ev_list_prefix_fault(a, env, n + 1);
    } else {
        assert(a.take(n) =~= a);
    }
}

// ----- statements -------------------------------------------------------------

/// The events `p` followed by those of `r`.
pub open spec fn after(
    p: Seq<EventV>,
    r: Option<(Map<Seq<char>, ValueV>, Seq<EventV>)>,
) -> Option<(Map<Seq<char>, ValueV>, Seq<EventV>)> {
    match r {
        None => None,
        Some((m, e)) => Some((m, p + e)),
    }
}

/// The outcome `r` of running a statement was reached: `ok` and the new
/// environment and events where it succeeds, `!ok` where it faults.
pub open spec fn reached(
    r: Option<(Map<Seq<char>, ValueV>, Seq<EventV>)>,
    ok: bool,
    env: Map<Seq<char>, ValueV>,
    before: Seq<EventV>,
    now: Seq<EventV>,
) -> bool {
    match r {
        Some((m, evs)) => ok && env == m && now == before + evs,
        None => !ok,
    }
}

fn push_event(events: &mut Vec<EvalEvent>, e: EvalEvent)
    ensures
        events_view(final(events)@) == events_view(old(events)@) + seq![e@],
{
    let ghost e2 = e@;
    events.push(e);
    assert(events_view(events@) =~= events_view(old(events)@) + seq![e2]);
}

fn step(line: u32) -> (e: EvalEvent)
    ensures
        e@ == step_ev(line),
{
    EvalEvent { line, kind: EvalEventKind::Step }
}

fn name_chars(e: &Expr) -> (r: Vec<char>)
    ensures
        r@ == expr_name(e@),
    decreases e,
{
    match e {
        Expr::Ident(s) => {
            let v = crate::text::str_chars(s.as_str());
            assert(e@ == ExprV::Ident(s@));
            v
        },
        Expr::Member(b, s) => {
            let mut v = name_chars(b);
            v.push('.');
            let sc = crate::text::str_chars(s.as_str());
            crate::text::append_chars(&mut v, &sc);
            assert(v@ == expr_name(e@));
            v
        },
        Expr::Index(b, i) => {
            let mut v = name_chars(b);
            v.push('[');
            let inner: &Expr = i;
            match inner {
                Expr::Int(n) => {
                    assert(inner@ == ExprV::Int(*n));
                    let d = signed_decimal_exec(*n);
                    crate::text::append_chars(&mut v, &d);
                },
                _ => {
                    assert(!(inner@ is Int));
                    v.push('?');
                },
            }
            v.push(']');
            assert(v@ == expr_name(e@));
            v
        },
        _ => {
            let v = vec!['?'];
            assert(v@ == expr_name(e@));
            v
        },
    }
}

/// The printable name of an assignment target.
fn expr_to_name(e: &Expr) -> (r: String)
    ensures
        r@ == expr_name(e@),
{
    let v = name_chars(e);
    string_from_chars(&v)
}

/// `a` with element `u` set to `value`, grown with zeros to reach it.
fn store_at(a0: Vec<Value>, u: usize, value: i64) -> (r: Vec<Value>)
    ensures
        values_view(r@) == crate::semantics::store_elem(values_view(a0@), u as int, value),
{
    let mut a = a0;
    let ghost orig = values_view(a0@);
    proof {
        lemma_values_view(a0@);
        assert(orig =~= orig + Seq::new(0nat, |k: int| ValueV::Int(0)));
    }
    while a.len() <= u
        invariant
            a@.len() >= orig.len(),
            a@.len() == orig.len() || a@.len() <= u + 1,
            values_view(a@) == orig + Seq::new((a@.len() - orig.len()) as nat, |k: int| ValueV::Int(0)),
        decreases u + 1 - a@.len(),
    {
        let ghost before = a@;
        a.push(Value::Int(0));
        proof {
            assert(a@.drop_last() =~= before);
            assert(value_view(Value::Int(0)) == ValueV::Int(0));
            assert(values_view(a@) =~= orig + Seq::new(
                (a@.len() - orig.len()) as nat,
                |k: int| ValueV::Int(0),
            ));
        }
    }
    proof {
        lemma_values_view(a@);
    }
    a.set(u, Value::Int(value));
    proof {
        lemma_values_view(a@);
        let grown = if u >= orig.len() {
            orig + Seq::new((u + 1 - orig.len()) as nat, |k: int| ValueV::Int(0))
        } else {
            orig
        };
        assert(value_view(Value::Int(value)) == ValueV::Int(value));
        assert(values_view(a@) =~= grown.update(u as int, ValueV::Int(value)));
    }
    a
}

/// Stores `value` into the target `lhs`; `false` on a fault.
fn assign_exec(lhs: &Expr, value: i64, env: &mut Env) -> (ok: bool)
    ensures
        match assign_to(lhs@, value, old(env)@) {
            Some(m) => ok && final(env)@ == m,
            None => !ok,
        },
{
    match lhs {
        Expr::Ident(name) => {
            env.insert(name.clone(), Value::Int(value));
            true
        },
        Expr::Member(b, signal) => {
            let base: &Expr = b;
            match base {
                Expr::Ident(comp) => {
                    assert(base@ == ExprV::Ident(comp@));
                    let updated: Option<Value> = match env.get(comp.as_str()) {
                        Some(Value::Component { template, signals }) => {
                            let mut sg = copy_signals(signals);
                            signal_insert(&mut sg, signal.clone(), value);
                            Some(Value::Component { template: template.clone(), signals: sg })
                        },
                        Some(_) => None,
                        None => {
                            let mut sg: Vec<(String, i64)> = Vec::new();
                            assert(signals_pairs(sg@) =~= Seq::<(Seq<char>, i64)>::empty());
                            signal_insert(&mut sg, signal.clone(), value);
                            Some(Value::Component { template: String::new(), signals: sg })
                        },
                    };
                    match updated {
                        Some(v) => {
                            env.insert(comp.clone(), v);
                        },
                        None => {},
                    }
                    true
                },
                _ => true,
            }
        },
        Expr::Index(b, idx) => {
            let i = match eval0(idx, env) {
                None => {
                    return false;
                },
                Some(i) => i,
            };
            let base: &Expr = b;
            match base {
                Expr::Ident(name) => {
                    assert(base@ == ExprV::Ident(name@));
                    match env.get(name.as_str()) {
                    Some(Value::Array(a)) => {
                        if i < 0 {
                            return false;
                        }
                        let a2 = store_at(crate::value::copy_values(a), i as usize, value);
                        env.insert(name.clone(), Value::Array(a2));
                        true
                    },
                    Some(_) => true,
                    None => {
                        if i < 0 {
                            return false;
                        }
                        let a: Vec<Value> = Vec::new();
                        assert(values_view(a@) =~= Seq::<ValueV>::empty());
                        let a2 = store_at(a, i as usize, value);
                        env.insert(name.clone(), Value::Array(a2));
                        true
                    },
                    }
                },
                _ => true,
            }
        },
        _ => true,
    }
}

proof fn lemma_after_after(p: Seq<EventV>, q: Seq<EventV>, r: Option<(Map<Seq<char>, ValueV>, Seq<EventV>)>)
    ensures
        after(p, after(q, r)) == after(p + q, r),
{
    match r {
        Some((m, e)) => {
            assert(p + (q + e) =~= (p + q) + e);
        },
        None => {},
    }
}

fn empty_signals() -> (r: Vec<(String, i64)>)
    ensures
        r@.len() == 0,
        signals_map(r@) == Map::<Seq<char>, i64>::empty(),
{
    let r: Vec<(String, i64)> = Vec::new();
    assert(signals_pairs(r@) =~= Seq::<(Seq<char>, i64)>::empty());
    r
}

/// A signal declaration.
fn eval_signal_decl(s: &Stmt, env: &mut Env, events: &mut Vec<EvalEvent>) -> (ok: bool)
    requires
        s is SignalDecl,
    ensures
        reached(
            exec_stmt(s@, old(env)@),
            ok,
            final(env)@,
            events_view(old(events)@),
            events_view(final(events)@),
        ),
{
    match s {
        Stmt::SignalDecl { line, name, kind, dims } => {
            proof {
                lemma_exprs_view(dims@);
            }
            if dims.len() == 0 {
                if !env.contains_key(name.as_str()) {
                    env.insert(name.clone(), Value::UnsetSignal);
                }
                let val = match env.get_int(name.as_str()) {
                    Some(x) => x,
                    None => 0,
                };
                if *kind == SignalKind::Input {
                    push_event(
                        events,
                        EvalEvent {
                            line: *line,
                            kind: EvalEventKind::Variable { name: name.clone(), value: val },
                        },
                    );
                } else {
                    push_event(events, step(*line));
                }
                true
            } else {
                let n = match eval0(&dims[0], env) {
                    None => {
                        return false;
                    },
                    Some(n) => n,
                };
                if n < 0 {
                    return false;
                }
                let z = zeros(n as usize);
                env.insert(name.clone(), Value::Array(z));
                push_event(events, step(*line));
                true
            }
        },
        _ => true,
    }
}

/// An assignment: the target is updated, and a signal assignment records
/// its value (and a wire into a sub-component).
fn eval_assign(s: &Stmt, env: &mut Env, events: &mut Vec<EvalEvent>) -> (ok: bool)
    requires
        s is Assign,
    ensures
        reached(
            exec_stmt(s@, old(env)@),
            ok,
            final(env)@,
            events_view(old(events)@),
            events_view(final(events)@),
        ),
{
    match s {
        Stmt::Assign { line, op, lhs, rhs } => {
            let value = match eval0(rhs, env) {
                None => {
                    return false;
                },
                Some(v) => v,
            };
            let name = expr_to_name(lhs);
            if !assign_exec(lhs, value, env) {
                return false;
            }
            if *op == AssignOp::VarAssign {
                push_event(events, step(*line));
            } else {
                let ghost before = events_view(events@);
                match lhs {
                    Expr::Member(b, signal) => {
                        let base: &Expr = b;
                        match base {
                            Expr::Ident(comp) => {
                                assert(base@ == ExprV::Ident(comp@));
                                push_event(
                                    events,
                                    EvalEvent {
                                        line: *line,
                                        kind: EvalEventKind::Wire {
                                            comp_name: comp.clone(),
                                            signal_name: signal.clone(),
                                            value,
                                        },
                                    },
                                );
                            },
                            _ => {
                                assert(!(base@ is Ident));
                            },
                        }
                    },
                    _ => {},
                }
                assert(events_view(events@) =~= before + wire_events(*line, lhs@, value));
                let ev = EvalEvent { line: *line, kind: EvalEventKind::Variable { name, value } };
                let ghost evv = ev@;
                push_event(events, ev);
                assert(events_view(events@) =~= before + wire_events(*line, lhs@, value).push(evv));
            }
            true
        },
        _ => true,
    }
}

/// A component declaration: its arguments are evaluated and its
/// instantiation recorded.
fn eval_component_decl(s: &Stmt, env: &mut Env, events: &mut Vec<EvalEvent>) -> (ok: bool)
    requires
        s is ComponentDecl,
    ensures
        reached(
            exec_stmt(s@, old(env)@),
            ok,
            final(env)@,
            events_view(old(events)@),
            events_view(final(events)@),
        ),
{
    match s {
        Stmt::ComponentDecl { line, name, template, args } => {
            let vals = match eval_list(args, env) {
                None => {
                    return false;
                },
                Some(v) => v,
            };
            if !env.contains_key(name.as_str()) {
                env.insert(
                    name.clone(),
                    Value::Component { template: template.clone(), signals: empty_signals() },
                );
            }
            push_event(
                events,
                EvalEvent {
                    line: *line,
                    kind: EvalEventKind::ComponentEnter {
                        comp_name: name.clone(),
                        template: template.clone(),
                        args: vals,
                    },
                },
            );
            true
        },
        _ => true,
    }
}

/// One statement; `false` on a fault.
fn eval_stmt(s: &Stmt, env: &mut Env, events: &mut Vec<EvalEvent>) -> (ok: bool)
    ensures
        reached(
            exec_stmt(s@, old(env)@),
            ok,
            final(env)@,
            events_view(old(events)@),
            events_view(final(events)@),
        ),
    decreases s, 2int,
{
    match s {
        Stmt::VarDecl { line, name, init } => {
            let v = match init {
                Some(e) => match eval0(e, env) {
                    None => {
                        return false;
                    },
                    Some(x) => x,
                },
                None => 0,
            };
            env.insert(name.clone(), Value::Int(v));
            push_event(events, step(*line));
            true
        },
        Stmt::SignalDecl { .. } => eval_signal_decl(s, env, events),
        Stmt::Assign { .. } => eval_assign(s, env, events),
        Stmt::Constraint { line, .. } => {
            push_event(events, step(*line));
            true
        },
        Stmt::If { .. } => eval_if(s, env, events),
        Stmt::For { .. } => eval_for(s, env, events),
        Stmt::ComponentDecl { .. } => eval_component_decl(s, env, events),
        Stmt::ExprStmt { line, .. } => {
            push_event(events, step(*line));
            true
        },
        Stmt::Return { line, .. } => {
            push_event(events, step(*line));
            true
        },
    }
}

/// `if (cond) { .. } else { .. }`: a step, then the branch that the
/// condition selects.
fn eval_if(s: &Stmt, env: &mut Env, events: &mut Vec<EvalEvent>) -> (ok: bool)
    requires
        s is If,
    ensures
        reached(
            exec_stmt(s@, old(env)@),
            ok,
            final(env)@,
            events_view(old(events)@),
            events_view(final(events)@),
        ),
    decreases s, 1int,
{
    match s {
        Stmt::If { line, cond, then_block, else_block } => {
            push_event(events, step(*line));
            let ghost mid = events_view(events@);
            let c = match eval0(cond, env) {
                None => {
                    return false;
                },
                Some(c) => c,
            };
            let ok = if c != 0 {
                eval_block(then_block, env, events)
            } else {
                eval_block(else_block, env, events)
            };
            proof {
                let r = if c != 0 {
                    exec_block(stmts_view(then_block@), 0, old(env)@)
                } else {
                    exec_block(stmts_view(else_block@), 0, old(env)@)
                };
                match r {
                    Some((m, evs)) => {
                        assert(events_view(old(events)@) + (seq![step_ev(*line)] + evs) =~= mid
                            + evs);
                    },
                    None => {},
                }
            }
            ok
        },
        _ => true,
    }
}

#[verifier::loop_isolation(false)]
/// A `for` loop: a step at its header, the initialiser, then at most
/// `max_iterations` rounds of condition, body and update.  The
/// initialiser's and the update's events are not kept.
fn eval_for(s: &Stmt, env: &mut Env, events: &mut Vec<EvalEvent>) -> (ok: bool)
    requires
        s is For,
    ensures
        reached(
            exec_stmt(s@, old(env)@),
            ok,
            final(env)@,
            events_view(old(events)@),
            events_view(final(events)@),
        ),
    decreases s, 1int,
{
    match s {
        Stmt::For { line, init, cond, update, body } => {
            let ghost sv = s@;
            let ghost env0 = env@;
            push_event(events, step(*line));
            let ghost base = events_view(events@);
            let mut sink: Vec<EvalEvent> = Vec::new();
            if !eval_stmt(init, env, &mut sink) {
                return false;
            }
            let ghost env1 = env@;
            let ghost mut acc: Seq<EventV> = Seq::empty();
            let mut iterations: usize = 0;
            assert(base + acc =~= base);
            assert(after(acc, exec_for(sv, 0, env1)) == exec_for(sv, 0, env1)) by {
                match exec_for(sv, 0, env1) {
                    Some((m, e)) => {
                        assert(acc + e =~= e);
                    },
                    None => {},
                }
            }
            while iterations < 10000
                invariant
                    sv == s@,
                    sv is For,
                    exec_stmt(sv, env0) == after(
                        seq![step_ev(*line)],
                        exec_for(sv, 0, env1),
                    ),
                    base == events_view(old(events)@).push(step_ev(*line)),
                    iterations <= 10000,
                    events_view(events@) == base + acc,
                    exec_for(sv, 0, env1) == after(acc, exec_for(sv, iterations as nat, env@)),
                decreases 10000 - iterations,
            {
                let c = match eval0(cond, env) {
                    None => {
                        return false;
                    },
                    Some(c) => c,
                };
                if c == 0 {
                    proof {
                        assert(exec_for(sv, iterations as nat, env@) == Some((env@, Seq::<EventV>::empty())));
                        assert(acc + Seq::<EventV>::empty() =~= acc);
                        assert(events_view(old(events)@) + (seq![step_ev(*line)] + acc) =~= base
                            + acc);
                    }
                    return true;
                }
                let ghost env_b = env@;
                let ghost pre = events_view(events@);
                if !eval_block(body, env, events) {
                    return false;
                }
                let ghost evs_b = events_view(events@).subrange(pre.len() as int, events_view(events@).len() as int);
                let mut sink2: Vec<EvalEvent> = Vec::new();
                if !eval_stmt(update, env, &mut sink2) {
                    return false;
                }
                proof {
                    assert(events_view(events@) =~= pre + evs_b);
                    lemma_after_after(acc, evs_b, exec_for(sv, (iterations + 1) as nat, env@));
                    acc = acc + evs_b;
                }
                iterations += 1;
            }
            proof {
                assert(exec_for(sv, iterations as nat, env@) == Some((env@, Seq::<EventV>::empty())));
                assert(acc + Seq::<EventV>::empty() =~= acc);
                assert(events_view(old(events)@) + (seq![step_ev(*line)] + acc) =~= base + acc);
            }
            true
        },
        _ => true,
    }
}

/// The statements of a block, in order; `false` on a fault.
#[verifier::loop_isolation(false)]
fn eval_block(b: &Vec<Stmt>, env: &mut Env, events: &mut Vec<EvalEvent>) -> (ok: bool)
    ensures
        reached(
            exec_block(stmts_view(b@), 0, old(env)@),
            ok,
            final(env)@,
            events_view(old(events)@),
            events_view(final(events)@),
        ),
    decreases b, 0int,
{
    let ghost bv = stmts_view(b@);
    let ghost env0 = env@;
    let ghost base = events_view(events@);
    let ghost mut acc: Seq<EventV> = Seq::empty();
    proof {
        lemma_stmts_view(b@);
        assert(base + acc =~= base);
        match exec_block(bv, 0, env0) {
            Some((m, e)) => {
                assert(acc + e =~= e);
            },
            None => {},
        }
    }
    let mut i: usize = 0;
    while i < b.len()
        invariant
            bv == stmts_view(b@),
            bv.len() == b@.len(),
            forall|k: int| 0 <= k < b@.len() ==> #[trigger] bv[k] == b@[k]@,
            i <= b@.len(),
            base == events_view(old(events)@),
            events_view(events@) == base + acc,
            exec_block(bv, 0, env0) == after(acc, exec_block(bv, i as int, env@)),
            env0 == old(env)@,
        decreases b.len() - i,
    {
        proof {
            vstd::std_specs::vec::axiom_vec_index_decreases(*b, i as int);
        }
        let ghost pre = events_view(events@);
        if !eval_stmt(&b[i], env, events) {
            return false;
        }
        let ghost evs_i = events_view(events@).subrange(pre.len() as int, events_view(events@).len() as int);
        proof {
            assert(events_view(events@) =~= pre + evs_i);
            lemma_after_after(acc, evs_i, exec_block(bv, i + 1, env@));
            acc = acc + evs_i;
        }
        i += 1;
    }
    proof {
        assert(acc + Seq::<EventV>::empty() =~= acc);
    }
    true
}

// ----- the pass that finds sub-components and their wires -------------------

pub open spec fn wire_list_view(w: Seq<(String, Expr)>) -> Seq<(Seq<char>, ExprV)> {
    w.map_values(|p: (String, Expr)| (p.0@, p.1@))
}

pub open spec fn wires_pairs(w: Seq<(String, Vec<(String, Expr)>)>) -> Seq<
    (Seq<char>, Seq<(Seq<char>, ExprV)>),
> {
    w.map_values(|p: (String, Vec<(String, Expr)>)| (p.0@, wire_list_view(p.1@)))
}

pub open spec fn decls_view(d: Seq<(String, String, Vec<i64>)>) -> Seq<
    (Seq<char>, Seq<char>, Seq<i64>),
> {
    d.map_values(|x: (String, String, Vec<i64>)| (x.0@, x.1@, x.2@))
}

/// What the first pass over a body gathers: the environment as the pass
/// sees it, the sub-component declarations, and the wires into each.
struct Pre {
    env: Env,
    decls: Vec<(String, String, Vec<i64>)>,
    wires: Vec<(String, Vec<(String, Expr)>)>,
}

impl Pre {
    spec fn view(&self) -> PreV {
        PreV {
            env: self.env@,
            decls: decls_view(self.decls@),
            wires: pairs_map(wires_pairs(self.wires@)),
        }
    }
}

proof fn lemma_wires_last(w: Seq<(String, Vec<(String, Expr)>)>, k: Seq<char>, i: int)
    requires
        0 <= i < w.len(),
        w[i].0@ == k,
        forall|j: int| i < j < w.len() ==> (#[trigger] w[j]).0@ != k,
    ensures
        last_key_at(wires_pairs(w), k, i),
{
    assert forall|j: int| i < j < wires_pairs(w).len() implies (#[trigger] wires_pairs(w)[j]).0
        != k by {
        assert(wires_pairs(w)[j].0 == w[j].0@);
    }
}

/// Appends a wire `signal <- rhs` to the list of component `comp`.
fn wires_push(
    wires: &mut Vec<(String, Vec<(String, Expr)>)>,
    comp: &String,
    signal: &String,
    rhs: &Expr,
)
    ensures
        pairs_map(wires_pairs(final(wires)@)) == pairs_map(wires_pairs(old(wires)@)).insert(
            comp@,
            (if pairs_map(wires_pairs(old(wires)@)).contains_key(comp@) {
                pairs_map(wires_pairs(old(wires)@))[comp@]
            } else {
                Seq::empty()
            }).push((signal@, rhs@)),
        ),
{
    let item = (signal.clone(), copy_expr(rhs));
    let ghost iv = (signal@, rhs@);
    match find_last_key(wires, comp.as_str()) {
        Some(i) => {
            proof {
                lemma_wires_last(wires@, comp@, i as int);
                lemma_pairs_map_at(wires_pairs(wires@), comp@, i as int);
            }
            let mut tmp: (String, Vec<(String, Expr)>) = (String::new(), Vec::new());
            wires.set_and_swap(i, &mut tmp);
            let ghost old_list = tmp.1@;
            tmp.1.push(item);
            assert(wire_list_view(tmp.1@) =~= wire_list_view(old_list).push(iv));
            let ghost nv = (tmp.0@, wire_list_view(tmp.1@));
            wires.set_and_swap(i, &mut tmp);
            proof {
                assert(wires_pairs(wires@) =~= wires_pairs(old(wires)@).update(i as int, nv));
                lemma_pairs_map_update(wires_pairs(old(wires)@), comp@, i as int, nv.1);
            }
        },
        None => {
            let mut l: Vec<(String, Expr)> = Vec::new();
            l.push(item);
            assert(wire_list_view(l@) =~= seq![iv]);
            let ghost nv = (comp@, wire_list_view(l@));
            wires.push((comp.clone(), l));
            proof {
                assert forall|j: int| 0 <= j < wires_pairs(old(wires)@).len() implies (
                #[trigger] wires_pairs(old(wires)@)[j]).0 != comp@ by {
                    assert(wires_pairs(old(wires)@)[j].0 == old(wires)@[j].0@);
                }
                lemma_pairs_map_absent(wires_pairs(old(wires)@), comp@);
                assert(wires_pairs(wires@) =~= wires_pairs(old(wires)@).push(nv));
                lemma_pairs_map_push(wires_pairs(old(wires)@), comp@, nv.1);
                assert(Seq::<(Seq<char>, ExprV)>::empty().push(iv) =~= seq![iv]);
            }
        },
    }
}

pub(crate) fn copy_ints(v: &Vec<i64>) -> (r: Vec<i64>)
    ensures
        r@ == v@,
{
    let mut r: Vec<i64> = Vec::new();
    let mut i: usize = 0;
    while i < v.len()
        invariant
            i <= v@.len(),
            r@ == v@.take(i as int),
        decreases v.len() - i,
    {
        r.push(v[i]);
        assert(v@.take(i + 1) =~= v@.take(i as int).push(v@[i as int]));
        i += 1;
    }
    assert(v@.take(v@.len() as int) =~= v@);
    r
}

/// One statement of the first pass; `false` on a fault.
fn collect_stmt_exec(s: &Stmt, st: &mut Pre) -> (ok: bool)
    ensures
        match collect_stmt(s@, old(st).view()) {
            Some(p) => ok && final(st).view() == p,
            None => !ok,
        },
    decreases s, 2int,
{
    match s {
        Stmt::ComponentDecl { name, template, args, .. } => {
            let vals = match eval_list(args, &st.env) {
                None => {
                    return false;
                },
                Some(v) => v,
            };
            st.env.insert(
                name.clone(),
                Value::Component { template: template.clone(), signals: empty_signals() },
            );
            let ghost dv = (name@, template@, vals@);
            st.decls.push((name.clone(), template.clone(), vals));
            assert(decls_view(st.decls@) =~= decls_view(old(st).decls@).push(dv));
            true
        },
        Stmt::Assign { op, lhs, rhs, .. } => {
            if *op != AssignOp::VarAssign {
                match lhs {
                    Expr::Member(b, signal) => {
                        let base: &Expr = b;
                        match base {
                            Expr::Ident(comp) => {
                                assert(base@ == ExprV::Ident(comp@));
                                wires_push(&mut st.wires, comp, signal, rhs);
                                return true;
                            },
                            _ => {
                                assert(!(base@ is Ident));
                            },
                        }
                    },
                    _ => {},
                }
            }
            let v = match eval0(rhs, &st.env) {
                None => {
                    return false;
                },
                Some(v) => v,
            };
            assign_exec(lhs, v, &mut st.env)
        },
        Stmt::VarDecl { .. } => {
            let mut sink: Vec<EvalEvent> = Vec::new();
            eval_stmt(s, &mut st.env, &mut sink)
        },
        Stmt::SignalDecl { .. } => {
            let mut sink: Vec<EvalEvent> = Vec::new();
            eval_stmt(s, &mut st.env, &mut sink)
        },
        Stmt::If { .. } => collect_if(s, st),
        Stmt::For { .. } => collect_for_exec(s, st),
        _ => true,
    }
}

fn collect_if(s: &Stmt, st: &mut Pre) -> (ok: bool)
    requires
        s is If,
    ensures
        match collect_stmt(s@, old(st).view()) {
            Some(p) => ok && final(st).view() == p,
            None => !ok,
        },
    decreases s, 1int,
{
    match s {
        Stmt::If { cond, then_block, else_block, .. } => {
            let c = match eval0(cond, &st.env) {
                None => {
                    return false;
                },
                Some(c) => c,
            };
            if c != 0 {
                collect_block_exec(then_block, st)
            } else {
                collect_block_exec(else_block, st)
            }
        },
        _ => true,
    }
}

#[verifier::loop_isolation(false)]
fn collect_for_exec(s: &Stmt, st: &mut Pre) -> (ok: bool)
    requires
        s is For,
    ensures
        match collect_stmt(s@, old(st).view()) {
            Some(p) => ok && final(st).view() == p,
            None => !ok,
        },
    decreases s, 1int,
{
    match s {
        Stmt::For { init, cond, update, body, .. } => {
            let ghost sv = s@;
            let mut sink: Vec<EvalEvent> = Vec::new();
            if !eval_stmt(init, &mut st.env, &mut sink) {
                return false;
            }
            let mut iterations: usize = 0;
            while iterations < 10000
                invariant
                    sv == s@,
                    iterations <= 10000,
                    collect_stmt(sv, old(st).view()) == collect_for(sv, iterations as nat, st.view()),
                decreases 10000 - iterations,
            {
                let c = match eval0(cond, &st.env) {
                    None => {
                        return false;
                    },
                    Some(c) => c,
                };
                if c == 0 {
                    return true;
                }
                if !collect_block_exec(body, st) {
                    return false;
                }
                let mut sink2: Vec<EvalEvent> = Vec::new();
                if !eval_stmt(update, &mut st.env, &mut sink2) {
                    return false;
                }
                iterations += 1;
            }
            true
        },
        _ => true,
    }
}

#[verifier::loop_isolation(false)]
fn collect_block_exec(b: &Vec<Stmt>, st: &mut Pre) -> (ok: bool)
    ensures
        match collect_block(stmts_view(b@), 0, old(st).view()) {
            Some(p) => ok && final(st).view() == p,
            None => !ok,
        },
    decreases b, 0int,
{
    let ghost bv = stmts_view(b@);
    proof {
        lemma_stmts_view(b@);
    }
    let mut i: usize = 0;
    while i < b.len()
        invariant
            bv == stmts_view(b@),
            bv.len() == b@.len(),
            forall|k: int| 0 <= k < b@.len() ==> #[trigger] bv[k] == b@[k]@,
            i <= b@.len(),
            collect_block(bv, 0, old(st).view()) == collect_block(bv, i as int, st.view()),
        decreases b.len() - i,
    {
        proof {
            vstd::std_specs::vec::axiom_vec_index_decreases(*b, i as int);
        }
        if !collect_stmt_exec(&b[i], st) {
            return false;
        }
        i += 1;
    }
    true
}

// ----- templates ----------------------------------------------------------------

// ----- the first pass with wires read on the spot -----------------------------------

pub open spec fn triples_view(w: Seq<(String, String, i64)>) -> Seq<(Seq<char>, Seq<char>, i64)> {
    w.map_values(|x: (String, String, i64)| (x.0@, x.1@, x.2))
}

struct NowPre {
    env: Env,
    decls: Vec<(String, String, Vec<i64>)>,
    wires: Vec<(String, String, i64)>,
}

impl NowPre {
    spec fn view(&self) -> NowV {
        NowV { env: self.env@, decls: decls_view(self.decls@), wires: triples_view(self.wires@) }
    }
}

fn now_stmt_exec(s: &Stmt, st: &mut NowPre) -> (ok: bool)
    ensures
        match collect_now_stmt(s@, old(st).view()) {
            Some(p) => ok && final(st).view() == p,
            None => !ok,
        },
    decreases s, 2int,
{
    match s {
        Stmt::ComponentDecl { name, template, args, .. } => {
            let vals = match eval_list(args, &st.env) {
                None => {
                    return false;
                },
                Some(v) => v,
            };
            st.env.insert(
                name.clone(),
                Value::Component { template: template.clone(), signals: empty_signals() },
            );
            let ghost dv = (name@, template@, vals@);
            st.decls.push((name.clone(), template.clone(), vals));
            assert(decls_view(st.decls@) =~= decls_view(old(st).decls@).push(dv));
            true
        },
        Stmt::Assign { op, lhs, rhs, .. } => {
            if *op != AssignOp::VarAssign {
                match lhs {
                    Expr::Member(b, signal) => {
                        let base: &Expr = b;
                        match base {
                            Expr::Ident(comp) => {
                                assert(base@ == ExprV::Ident(comp@));
                                let v = match eval0(rhs, &st.env) {
                                    None => {
                                        return false;
                                    },
                                    Some(v) => v,
                                };
                                let ghost wv = (comp@, signal@, v);
                                st.wires.push((comp.clone(), signal.clone(), v));
                                assert(triples_view(st.wires@) =~= triples_view(old(st).wires@).push(wv));
                                return true;
                            },
                            _ => {
                                assert(!(base@ is Ident));
                            },
                        }
                    },
                    _ => {},
                }
            }
            let v = match eval0(rhs, &st.env) {
                None => {
                    return false;
                },
                Some(v) => v,
            };
            assign_exec(lhs, v, &mut st.env)
        },
        Stmt::VarDecl { .. } => {
            let mut sink: Vec<EvalEvent> = Vec::new();
            eval_stmt(s, &mut st.env, &mut sink)
        },
        Stmt::SignalDecl { .. } => {
            let mut sink: Vec<EvalEvent> = Vec::new();
            eval_stmt(s, &mut st.env, &mut sink)
        },
        Stmt::If { .. } => now_if(s, st),
        Stmt::For { .. } => now_for_exec(s, st),
        _ => true,
    }
}

fn now_if(s: &Stmt, st: &mut NowPre) -> (ok: bool)
    requires
        s is If,
    ensures
        match collect_now_stmt(s@, old(st).view()) {
            Some(p) => ok && final(st).view() == p,
            None => !ok,
        },
    decreases s, 1int,
{
    match s {
        Stmt::If { cond, then_block, else_block, .. } => {
            let c = match eval0(cond, &st.env) {
                None => {
                    return false;
                },
                Some(c) => c,
            };
            if c != 0 {
                now_block_exec(then_block, st)
            } else {
                now_block_exec(else_block, st)
            }
        },
        _ => true,
    }
}

#[verifier::loop_isolation(false)]
fn now_for_exec(s: &Stmt, st: &mut NowPre) -> (ok: bool)
    requires
        s is For,
    ensures
        match collect_now_stmt(s@, old(st).view()) {
            Some(p) => ok && final(st).view() == p,
            None => !ok,
        },
    decreases s, 1int,
{
    match s {
        Stmt::For { init, cond, update, body, .. } => {
            let ghost sv = s@;
            let mut sink: Vec<EvalEvent> = Vec::new();
            if !eval_stmt(init, &mut st.env, &mut sink) {
                return false;
            }
            let mut iterations: usize = 0;
            while iterations < 10000
                invariant
                    sv == s@,
                    iterations <= 10000,
                    collect_now_stmt(sv, old(st).view()) == collect_now_for(sv, iterations as nat, st.view()),
                decreases 10000 - iterations,
            {
                let c = match eval0(cond, &st.env) {
                    None => {
                        return false;
                    },
                    Some(c) => c,
                };
                if c == 0 {
                    return true;
                }
                if !now_block_exec(body, st) {
                    return false;
                }
                let mut sink2: Vec<EvalEvent> = Vec::new();
                if !eval_stmt(update, &mut st.env, &mut sink2) {
                    return false;
                }
                iterations += 1;
            }
            true
        },
        _ => true,
    }
}

#[verifier::loop_isolation(false)]
fn now_block_exec(b: &Vec<Stmt>, st: &mut NowPre) -> (ok: bool)
    ensures
        match collect_now_block(stmts_view(b@), 0, old(st).view()) {
            Some(p) => ok && final(st).view() == p,
            None => !ok,
        },
    decreases b, 0int,
{
    let ghost bv = stmts_view(b@);
    proof {
        lemma_stmts_view(b@);
    }
    let mut i: usize = 0;
    while i < b.len()
        invariant
            bv == stmts_view(b@),
            bv.len() == b@.len(),
            forall|k: int| 0 <= k < b@.len() ==> #[trigger] bv[k] == b@[k]@,
            i <= b@.len(),
            collect_now_block(bv, 0, old(st).view()) == collect_now_block(bv, i as int, st.view()),
        decreases b.len() - i,
    {
        proof {
            vstd::std_specs::vec::axiom_vec_index_decreases(*b, i as int);
        }
        if !now_stmt_exec(&b[i], st) {
            return false;
        }
        i += 1;
    }
    true
}

/// The first pass over a template body that reads each wired value where
/// the wire stands: every sub-component declaration with its arguments'
/// values (recorded as a component without signals in the environment),
/// every value wired into a component's signal in the order of the wires,
/// and the environment updated by the other assignments, variable and
/// signal declarations, the branch taken by each `if` and at most 10000
/// rounds of each `for`.  The wires stand for `now_wires_map` of them.
pub fn collect_components(
    stmts: &Vec<Stmt>,
    env: &mut Env,
    comp_decls: &mut Vec<(String, String, Vec<i64>)>,
    comp_wires: &mut Vec<(String, String, i64)>,
)
    requires
        collect_now_block(
            stmts_view(stmts@),
            0,
            NowV { env: old(env)@, decls: decls_view(old(comp_decls)@), wires: triples_view(old(comp_wires)@) },
        ) is Some,
    ensures
        collect_now_block(
            stmts_view(stmts@),
            0,
            NowV { env: old(env)@, decls: decls_view(old(comp_decls)@), wires: triples_view(old(comp_wires)@) },
        ) == Some(
            NowV { env: final(env)@, decls: decls_view(final(comp_decls)@), wires: triples_view(final(comp_wires)@) },
        ),
{
    let mut st = NowPre { env: Env::new(), decls: Vec::new(), wires: Vec::new() };
    std::mem::swap(&mut st.env, env);
    std::mem::swap(&mut st.decls, comp_decls);
    std::mem::swap(&mut st.wires, comp_wires);
    let _ = now_block_exec(stmts, &mut st);
    std::mem::swap(&mut st.env, env);
    std::mem::swap(&mut st.decls, comp_decls);
    std::mem::swap(&mut st.wires, comp_wires);
}

/// How a template is evaluated: the templates that sub-components name,
/// the values of its input signals, and its numeric template arguments.
pub struct EvalContext<'a> {
    pub templates: &'a Vec<Template>,
    pub input_signals: Vec<(String, i64)>,
    pub generic_args: Vec<i64>,
}

/// The events of evaluating a template and the values of its output
/// signals.
pub struct EvalResult {
    pub events: Vec<EvalEvent>,
    pub outputs: Vec<(String, i64)>,
}

impl EvalResult {
    /// The value of output signal `name`.
    pub fn output(&self, name: &str) -> (r: Option<i64>)
        ensures
            r == (if signals_map(self.outputs@).contains_key(name@) {
                Some(signals_map(self.outputs@)[name@])
            } else {
                None
            }),
    {
        signal_get(&self.outputs, name)
    }
}

/// The evaluation that `ctx` asks for, with sub-component nesting bounded
/// by `fuel`.
pub open spec fn ctx_eval(t: TemplateV, ctx: EvalContext, fuel: nat) -> Option<
    (Seq<EventV>, Map<Seq<char>, i64>),
> {
    eval_template(
        t,
        crate::parser::templates_view(ctx.templates@),
        signals_map(ctx.input_signals@),
        ctx.generic_args@,
        fuel,
    )
}

/// The last template with the given name.
pub(crate) fn find_template<'a>(ts: &'a Vec<Template>, name: &String) -> (r: Option<&'a Template>)
    ensures
        match r {
            Some(t) => template_named(crate::parser::templates_view(ts@), name@) == Some(t@),
            None => template_named(crate::parser::templates_view(ts@), name@) is None,
        },
{
    let ghost tv = crate::parser::templates_view(ts@);
    let mut i = ts.len();
    assert(tv.take(i as int) =~= tv);
    while i > 0
        invariant
            i <= ts@.len(),
            tv == crate::parser::templates_view(ts@),
            template_named(tv, name@) == template_named(tv.take(i as int), name@),
        decreases i,
    {
        let ghost pre = tv.take(i as int);
        assert(pre.last() == ts@[i - 1]@);
        assert(pre.drop_last() =~= tv.take(i - 1));
        if crate::text::same_text(ts[i - 1].name.as_str(), name.as_str()) {
            return Some(&ts[i - 1]);
        }
        i -= 1;
    }
    None
}

/// The values wired into component `comp`, evaluated in order; `None` on a
/// fault.
fn eval_wires(wires: &Vec<(String, Vec<(String, Expr)>)>, comp: &String, env: &Env) -> (r: Option<
    Vec<(String, i64)>,
>)
    ensures
        ({
            let m = pairs_map(wires_pairs(wires@));
            let ws = if m.contains_key(comp@) {
                m[comp@]
            } else {
                Seq::empty()
            };
            match wire_inputs(ws, env@) {
                Some(x) => r is Some && signals_map(r->0@) == x,
                None => r is None,
            }
        }),
{
    let mut out = empty_signals();
    match find_last_key(wires, comp.as_str()) {
        None => {
            proof {
                assert forall|j: int| 0 <= j < wires_pairs(wires@).len() implies (
                #[trigger] wires_pairs(wires@)[j]).0 != comp@ by {
                    assert(wires_pairs(wires@)[j].0 == wires@[j].0@);
                }
                lemma_pairs_map_absent(wires_pairs(wires@), comp@);
            }
            Some(out)
        },
        Some(wi) => {
            proof {
                lemma_wires_last(wires@, comp@, wi as int);
                lemma_pairs_map_at(wires_pairs(wires@), comp@, wi as int);
            }
            let list = &wires[wi].1;
            let ghost lv = wire_list_view(list@);
            let mut j: usize = 0;
            assert(lv.take(0) =~= Seq::<(Seq<char>, ExprV)>::empty());
            while j < list.len()
                invariant
                    lv == wire_list_view(list@),
                    pairs_map(wires_pairs(wires@)).contains_key(comp@),
                    pairs_map(wires_pairs(wires@))[comp@] == lv,
                    j <= list@.len(),
                    wire_inputs(lv.take(j as int), env@) == Some(signals_map(out@)),
                decreases list.len() - j,
            {
                let ghost pre = lv.take(j as int);
                assert(lv.take(j + 1).drop_last() =~= pre);
                assert(lv.take(j + 1).last() == (list@[j as int].0@, list@[j as int].1@));
                match eval0(&list[j].1, env) {
                    None => {
                        proof {
                            lemma_wire_inputs_prefix_fault(lv, env@, j + 1);
                        }
                        return None;
                    },
                    Some(v) => {
                        signal_insert(&mut out, list[j].0.clone(), v);
                    },
                }
                j += 1;
            }
            assert(lv.take(list@.len() as int) =~= lv);
            Some(out)
        },
    }
}

proof fn lemma_wire_inputs_prefix_fault(
    ws: Seq<(Seq<char>, ExprV)>,
    env: Map<Seq<char>, ValueV>,
    n: int,
)
    requires
        0 <= n <= ws.len(),
        wire_inputs(ws.take(n), env) is None,
    ensures
        wire_inputs(ws, env) is None,
    decreases ws.len() - n,
{
    if n < ws.len() {
        assert(ws.take(n + 1).drop_last() =~= ws.take(n));
        lemma_wire_inputs_prefix_fault(ws, env, n + 1);
    } else {
        assert(ws.take(n) =~= ws);
    }
}

/// The values of the output signals declared in `body`.
fn collect_outputs(body: &Vec<Stmt>, env: &Env) -> (r: Vec<(String, i64)>)
    ensures
        signals_map(r@) == outputs_of(stmts_view(body@), env@),
{
    let ghost bv = stmts_view(body@);
    proof {
        lemma_stmts_view(body@);
    }
    let mut out = empty_signals();
    let mut i: usize = 0;
    assert(bv.take(0) =~= Seq::<StmtV>::empty());
    while i < body.len()
        invariant
            bv == stmts_view(body@),
            bv.len() == body@.len(),
            forall|k: int| 0 <= k < body@.len() ==> #[trigger] bv[k] == body@[k]@,
            i <= body@.len(),
            signals_map(out@) == outputs_of(bv.take(i as int), env@),
        decreases body.len() - i,
    {
        assert(bv.take(i + 1).drop_last() =~= bv.take(i as int));
        assert(bv.take(i + 1).last() == body@[i as int]@);
        match &body[i] {
            Stmt::SignalDecl { name, kind: SignalKind::Output, .. } => {
                let v = match env.get_int(name.as_str()) {
                    Some(x) => x,
                    None => 0,
                };
                signal_insert(&mut out, name.clone(), v);
            },
            _ => {},
        }
        i += 1;
    }
    assert(bv.take(body@.len() as int) =~= bv);
    out
}

/// The environment a template body starts in: its generic parameters
/// bound to the arguments, then the input signals.
fn seed_env_exec(t: &Template, ctx: &EvalContext) -> (env: Env)
    ensures
        env@ == seed_env(t@, signals_map(ctx.input_signals@), ctx.generic_args@),
{
    let mut env = Env::new();
    let ghost pv = t@.generic_params;
    let mut i: usize = 0;
    while i < t.generic_params.len()
        invariant
            pv == t@.generic_params,
            pv.len() == t.generic_params@.len(),
            i <= t.generic_params@.len(),
            bind_params(pv, ctx.generic_args@, 0, Map::empty()) == bind_params(
                pv,
                ctx.generic_args@,
                i as int,
                env@,
            ),
        decreases t.generic_params.len() - i,
    {
        let v = if i < ctx.generic_args.len() {
            ctx.generic_args[i]
        } else {
            0
        };
        assert(pv[i as int] == t.generic_params@[i as int]@);
        env.insert(t.generic_params[i].clone(), Value::Int(v));
        i += 1;
    }
    let ghost p_env = env@;
    let ins = &ctx.input_signals;
    let mut j: usize = 0;
    proof {
        assert(signals_pairs(ins@.take(0)) =~= Seq::<(Seq<char>, i64)>::empty());
        assert(p_env.union_prefer_right(int_values(signals_map(ins@.take(0)))) =~= p_env);
    }
    while j < ins.len()
        invariant
            j <= ins@.len(),
            env@ == p_env.union_prefer_right(int_values(signals_map(ins@.take(j as int)))),
        decreases ins.len() - j,
    {
        let ghost m0 = signals_map(ins@.take(j as int));
        proof {
            assert(signals_pairs(ins@.take(j + 1)) =~= signals_pairs(ins@.take(j as int)).push(
                (ins@[j as int].0@, ins@[j as int].1),
            ));
            lemma_pairs_map_push(
                signals_pairs(ins@.take(j as int)),
                ins@[j as int].0@,
                ins@[j as int].1,
            );
        }
        env.insert(ins[j].0.clone(), Value::Int(ins[j].1));
        proof {
            assert(env@ =~= p_env.union_prefer_right(
                int_values(m0.insert(ins@[j as int].0@, ins@[j as int].1)),
            ));
        }
        j += 1;
    }
    assert(ins@.take(ins@.len() as int) =~= ins@);
    env
}

/// `m` with the pairs of `outs` stored over it, in order.
fn merge_outputs(m: &mut Vec<(String, i64)>, outs: &Vec<(String, i64)>)
    ensures
        signals_map(final(m)@) == signals_map(old(m)@).union_prefer_right(signals_map(outs@)),
{
    let ghost m0 = signals_map(m@);
    let mut j: usize = 0;
    proof {
        assert(signals_pairs(outs@.take(0)) =~= Seq::<(Seq<char>, i64)>::empty());
        assert(m0.union_prefer_right(signals_map(outs@.take(0))) =~= m0);
    }
    while j < outs.len()
        invariant
            j <= outs@.len(),
            signals_map(m@) == m0.union_prefer_right(signals_map(outs@.take(j as int))),
        decreases outs.len() - j,
    {
        proof {
            assert(signals_pairs(outs@.take(j + 1)) =~= signals_pairs(outs@.take(j as int)).push(
                (outs@[j as int].0@, outs@[j as int].1),
            ));
            lemma_pairs_map_push(
                signals_pairs(outs@.take(j as int)),
                outs@[j as int].0@,
                outs@[j as int].1,
            );
        }
        let ghost mj = signals_map(outs@.take(j as int));
        signal_insert(m, outs[j].0.clone(), outs[j].1);
        proof {
            assert(signals_map(m@) =~= m0.union_prefer_right(
                mj.insert(outs@[j as int].0@, outs@[j as int].1),
            ));
        }
        j += 1;
    }
    assert(outs@.take(outs@.len() as int) =~= outs@);
}

/// Evaluates a template whose evaluation, with sub-component nesting
/// bounded by `fuel`, has no fault.
#[verifier::loop_isolation(false)]
#[verifier::rlimit(50)]
fn eval_template_fuel(t: &Template, ctx: &EvalContext, Ghost(fuel): Ghost<nat>) -> (r: EvalResult)
    requires
        ctx_eval(t@, *ctx, fuel) is Some,
    ensures
        (events_view(r.events@), signals_map(r.outputs@)) == ctx_eval(t@, *ctx, fuel)->0,
    decreases fuel,
{
    let ghost ts = crate::parser::templates_view(ctx.templates@);
    let mut env = seed_env_exec(t, ctx);
    let ghost env0 = env@;
    let mut pre = Pre { env: env.copy(), decls: Vec::new(), wires: Vec::new() };
    proof {
        assert(decls_view(pre.decls@) =~= Seq::<(Seq<char>, Seq<char>, Seq<i64>)>::empty());
        assert(wires_pairs(pre.wires@) =~= Seq::<(Seq<char>, Seq<(Seq<char>, ExprV)>)>::empty());
    }
    let collected = collect_block_exec(&t.body, &mut pre);
    let ghost pv = pre.view();
    let ghost f1 = (fuel - 1) as nat;
    let mut i: usize = 0;
    while i < pre.decls.len()
        invariant
            i <= pre.decls@.len(),
            eval_comps(pv.decls, 0, env0, pv.wires, ts, f1) == eval_comps(
                pv.decls,
                i as int,
                env@,
                pv.wires,
                ts,
                f1,
            ),
            eval_comps(pv.decls, 0, env0, pv.wires, ts, f1) is Some,
        decreases pre.decls.len() - i,
    {
        let comp = &pre.decls[i].0;
        let tname = &pre.decls[i].1;
        assert(pv.decls[i as int] == (comp@, tname@, pre.decls@[i as int].2@));
        match find_template(ctx.templates, tname) {
            None => {
                env.insert(
                    comp.clone(),
                    Value::Component { template: tname.clone(), signals: empty_signals() },
                );
            },
            Some(child) => {
                let inputs = match eval_wires(&pre.wires, comp, &env) {
                    Some(x) => x,
                    None => {
                        proof {
                            assert(false);
                        }
                        return EvalResult { events: Vec::new(), outputs: Vec::new() };
                    },
                };
                let child_ctx = EvalContext {
                    templates: ctx.templates,
                    input_signals: copy_signals(&inputs),
                    generic_args: copy_ints(&pre.decls[i].2),
                };
                let res = eval_template_fuel(child, &child_ctx, Ghost(f1));
                let mut sig = inputs;
                merge_outputs(&mut sig, &res.outputs);
                env.insert(comp.clone(), Value::Component { template: tname.clone(), signals: sig });
            },
        }
        i += 1;
    }
    let mut events: Vec<EvalEvent> = Vec::new();
    let ok = eval_block(&t.body, &mut env, &mut events);
    let outputs = collect_outputs(&t.body, &env);
    proof {
        match exec_block(stmts_view(t.body@), 0, env@) {
            _ => {},
        }
        assert(Seq::<EventV>::empty() + events_view(events@) =~= events_view(events@));
    }
    EvalResult { events, outputs }
}

/// Evaluates a template with sub-component nesting bounded by `fuel`:
/// `None` where the evaluation faults or needs deeper nesting.
#[verifier::loop_isolation(false)]
#[verifier::rlimit(50)]
pub fn evaluate_template_within(t: &Template, ctx: &EvalContext, fuel: u64) -> (r: Option<EvalResult>)
    ensures
        r is Some <==> ctx_eval(t@, *ctx, fuel as nat) is Some,
        r matches Some(x) ==> (events_view(x.events@), signals_map(x.outputs@)) == ctx_eval(
            t@,
            *ctx,
            fuel as nat,
        )->0,
    decreases fuel,
{
    if fuel == 0 {
        return None;
    }
    let ghost ts = crate::parser::templates_view(ctx.templates@);
    let mut env = seed_env_exec(t, ctx);
    let ghost env0 = env@;
    let mut pre = Pre { env: env.copy(), decls: Vec::new(), wires: Vec::new() };
    proof {
        assert(decls_view(pre.decls@) =~= Seq::<(Seq<char>, Seq<char>, Seq<i64>)>::empty());
        assert(wires_pairs(pre.wires@) =~= Seq::<(Seq<char>, Seq<(Seq<char>, ExprV)>)>::empty());
    }
    if !collect_block_exec(&t.body, &mut pre) {
        return None;
    }
    let ghost pv = pre.view();
    let ghost f1 = (fuel - 1) as nat;
    let mut i: usize = 0;
    while i < pre.decls.len()
        invariant
            i <= pre.decls@.len(),
            eval_comps(pv.decls, 0, env0, pv.wires, ts, f1) == eval_comps(
                pv.decls,
                i as int,
                env@,
                pv.wires,
                ts,
                f1,
            ),
        decreases pre.decls.len() - i,
    {
        let comp = &pre.decls[i].0;
        let tname = &pre.decls[i].1;
        assert(pv.decls[i as int] == (comp@, tname@, pre.decls@[i as int].2@));
        match find_template(ctx.templates, tname) {
            None => {
                env.insert(
                    comp.clone(),
                    Value::Component { template: tname.clone(), signals: empty_signals() },
                );
            },
            Some(child) => {
                let inputs = match eval_wires(&pre.wires, comp, &env) {
                    Some(x) => x,
                    None => {
                        return None;
                    },
                };
                let child_ctx = EvalContext {
                    templates: ctx.templates,
                    input_signals: copy_signals(&inputs),
                    generic_args: copy_ints(&pre.decls[i].2),
                };
                let res = match evaluate_template_within(child, &child_ctx, fuel - 1) {
                    Some(x) => x,
                    None => {
                        return None;
                    },
                };
                let mut sig = inputs;
                merge_outputs(&mut sig, &res.outputs);
                env.insert(comp.clone(), Value::Component { template: tname.clone(), signals: sig });
            },
        }
        i += 1;
    }
    let mut events: Vec<EvalEvent> = Vec::new();
    let ghost env1 = env@;
    let ok = eval_block(&t.body, &mut env, &mut events);
    if !ok {
        return None;
    }
    let outputs = collect_outputs(&t.body, &env);
    proof {
        match exec_block(stmts_view(t.body@), 0, env1) {
            _ => {},
        }
        assert(Seq::<EventV>::empty() + events_view(events@) =~= events_view(events@));
    }
    Some(EvalResult { events, outputs })
}

/// Evaluates a template body from start to finish, giving its events and
/// the values of its output signals.
///
/// Sub-components are evaluated first, in declaration order: a first pass
/// over the body finds their declarations and the expressions wired into
/// their inputs; each is evaluated with those values (read against the
/// outputs of the sub-components before it) and its inputs and outputs are
/// kept under its name, so that `comp.signal` reads them.  A second pass
/// then walks the body and records the events.
pub fn evaluate_template(template: &Template, ctx: &EvalContext) -> (r: EvalResult)
    requires
        exists|f: nat| ctx_eval(template@, *ctx, f) is Some,
    ensures
        forall|f: nat| #[trigger]
            ctx_eval(template@, *ctx, f) is Some ==> (events_view(r.events@), signals_map(
                r.outputs@,
            )) == ctx_eval(template@, *ctx, f)->0,
{
    let ghost f0 = choose|f: nat| ctx_eval(template@, *ctx, f) is Some;
    let r = eval_template_fuel(template, ctx, Ghost(f0));
    proof {
        let ts = crate::parser::templates_view(ctx.templates@);
        let ins = signals_map(ctx.input_signals@);
        assert forall|f: nat| #[trigger] ctx_eval(template@, *ctx, f) is Some implies (events_view(
            r.events@,
        ), signals_map(r.outputs@)) == ctx_eval(template@, *ctx, f)->0 by {
            if f <= f0 {
                crate::semantics::lemma_eval_template_fuel(template@, ts, ins, ctx.generic_args@, f, f0);
            } else {
                crate::semantics::lemma_eval_template_fuel(template@, ts, ins, ctx.generic_args@, f0, f);
            }
        }
    }
    r
}

} // verus!
