//! What evaluating a Circom template means, stated over the syntax tree's
//! mathematical form.
//!
//! Integers are `i64`.  An operation whose result does not fit, and a
//! negative array size or index, is a fault (`None` below): the evaluator
//! is only run where no fault occurs.

use vstd::prelude::*;
use crate::ast::{AssignOp, BinOp, ExprV, SignalKind, StmtV, TemplateV, UnaryOp};
use crate::text::signed_decimal;
use crate::value::{ValueV, value_as_int};

verus! {

/// The value of a binary operation; `None` where it overflows.  Division
/// and remainder by zero give 0; shifts wrap their amount.
pub open spec fn binop(op: BinOp, a: i64, b: i64) -> Option<i64> {
    match op {
        BinOp::Add => a.checked_add(b),
        BinOp::Sub => a.checked_sub(b),
        BinOp::Mul => a.checked_mul(b),
        BinOp::Div => if b == 0 {
            Some(0)
        } else {
            a.checked_div(b)
        },
        BinOp::Mod => if b == 0 {
            Some(0)
        } else {
            a.checked_rem(b)
        },
        BinOp::Lt => Some(if a < b { 1 } else { 0 }),
        BinOp::Le => Some(if a <= b { 1 } else { 0 }),
        BinOp::Gt => Some(if a > b { 1 } else { 0 }),
        BinOp::Ge => Some(if a >= b { 1 } else { 0 }),
        BinOp::Eq => Some(if a == b { 1 } else { 0 }),
        BinOp::Ne => Some(if a != b { 1 } else { 0 }),
        BinOp::And => Some(if a != 0 && b != 0 { 1 } else { 0 }),
        BinOp::Or => Some(if a != 0 || b != 0 { 1 } else { 0 }),
        BinOp::BitAnd => Some(a & b),
        BinOp::BitOr => Some(a | b),
        BinOp::BitXor => Some(a ^ b),
        BinOp::Shl => Some(a.wrapping_shl(b as u32)),
        BinOp::Shr => Some(a.wrapping_shr(b as u32)),
    }
}

/// The value of an expression: `None` on a fault, `Some(None)` where it
/// has no value (an unknown name, a missing member or element, a call).
pub open spec fn ev(e: ExprV, env: Map<Seq<char>, ValueV>) -> Option<Option<ValueV>>
    decreases e, 1int,
{
    match e {
        ExprV::Int(n) => Some(Some(ValueV::Int(n))),
        ExprV::Ident(name) => Some(
            if env.contains_key(name) {
                Some(env[name])
            } else {
                None
            },
        ),
        ExprV::Member(b, name) => match ev(*b, env) {
            None => None,
            Some(Some(ValueV::Component { signals, .. })) => Some(
                if signals.contains_key(name) {
                    Some(ValueV::Int(signals[name]))
                } else {
                    None
                },
            ),
            Some(_) => Some(None),
        },
        ExprV::Index(b, idx) => match ev(*b, env) {
            None => None,
            Some(None) => Some(None),
            Some(Some(base)) => match ev_int(*idx, env) {
                None => None,
                Some(None) => Some(None),
                Some(Some(i)) => Some(
                    match base {
                        ValueV::Array(arr) => {
                            let u = (i as usize) as int;
                            if u < arr.len() {
                                Some(arr[u])
                            } else {
                                None
                            }
                        },
                        _ => None,
                    },
                ),
            },
        },
        ExprV::Paren(b) => ev(*b, env),
        ExprV::Unary(op, b) => match ev_int(*b, env) {
            None => None,
            Some(None) => Some(None),
            Some(Some(v)) => match op {
                UnaryOp::Neg => if v == i64::MIN {
                    None
                } else {
                    Some(Some(ValueV::Int((0 - v) as i64)))
                },
                UnaryOp::Not => Some(Some(ValueV::Int(if v == 0 { 1 } else { 0 }))),
            },
        },
        ExprV::Binary(op, l, r) => match ev_int(*l, env) {
            None => None,
            Some(None) => Some(None),
            Some(Some(a)) => match ev_int(*r, env) {
                None => None,
                Some(None) => Some(None),
                Some(Some(b)) => match binop(op, a, b) {
                    None => None,
                    Some(x) => Some(Some(ValueV::Int(x))),
                },
            },
        },
        ExprV::Call(_, _) => Some(None),
    }
}

/// The value of an expression read as an integer.
pub open spec fn ev_int(e: ExprV, env: Map<Seq<char>, ValueV>) -> Option<Option<i64>>
    decreases e, 2int,
{
    match ev(e, env) {
        None => None,
        Some(None) => Some(None),
        Some(Some(v)) => Some(value_as_int(v)),
    }
}

/// The integer value of an expression, 0 where it has none.
pub open spec fn ev0(e: ExprV, env: Map<Seq<char>, ValueV>) -> Option<i64> {
    match ev_int(e, env) {
        None => None,
        Some(Some(x)) => Some(x),
        Some(None) => Some(0),
    }
}

/// `ev0` of each expression, in order.
pub open spec fn ev_list(args: Seq<ExprV>, env: Map<Seq<char>, ValueV>) -> Option<Seq<i64>>
    decreases args.len(),
{
    if args.len() == 0 {
        Some(Seq::empty())
    } else {
        match ev_list(args.drop_last(), env) {
            None => None,
            Some(vs) => match ev0(args.last(), env) {
                None => None,
                Some(x) => Some(vs.push(x)),
            },
        }
    }
}

/// The printable name of an assignment target: `a`, `comp.sig`, `arr[3]`
/// (`?` for an index that is not a literal, or a target of another shape).
pub open spec fn expr_name(e: ExprV) -> Seq<char>
    decreases e,
{
    match e {
        ExprV::Ident(s) => s,
        ExprV::Member(b, s) => expr_name(*b) + seq!['.'] + s,
        ExprV::Index(b, i) => expr_name(*b) + seq!['['] + match *i {
            ExprV::Int(n) => signed_decimal(n as int),
            _ => seq!['?'],
        } + seq![']'],
        _ => seq!['?'],
    }
}

/// `arr` with element `u` set to `v`, grown with zeros to reach it.
pub open spec fn store_elem(arr: Seq<ValueV>, u: int, v: i64) -> Seq<ValueV> {
    let grown = if u >= arr.len() {
        arr + Seq::new((u + 1 - arr.len()) as nat, |k: int| ValueV::Int(0))
    } else {
        arr
    };
    grown.update(u, ValueV::Int(v))
}

/// The environment after storing `value` into `lhs`: a name, a member
/// `comp.sig` of a component, or an element `arr[i]` of an array that
/// grows with zeros to reach `i`.  Other targets change nothing.
pub open spec fn assign_to(lhs: ExprV, value: i64, env: Map<Seq<char>, ValueV>) -> Option<
    Map<Seq<char>, ValueV>,
> {
    match lhs {
        ExprV::Ident(name) => Some(env.insert(name, ValueV::Int(value))),
        ExprV::Member(b, signal) => match *b {
            ExprV::Ident(comp) => {
                let cur = if env.contains_key(comp) {
                    env[comp]
                } else {
                    ValueV::Component { template: Seq::empty(), signals: Map::empty() }
                };
                match cur {
                    ValueV::Component { template, signals } => Some(
                        env.insert(
                            comp,
                            ValueV::Component { template, signals: signals.insert(signal, value) },
                        ),
                    ),
                    _ => Some(env),
                }
            },
            _ => Some(env),
        },
        ExprV::Index(b, idx) => match ev0(*idx, env) {
            None => None,
            Some(i) => match *b {
                ExprV::Ident(name) => {
                    let cur = if env.contains_key(name) {
                        env[name]
                    } else {
                        ValueV::Array(Seq::empty())
                    };
                    match cur {
                        ValueV::Array(arr) => if i < 0 {
                            None
                        } else {
                            Some(
                                env.insert(
                                    name,
                                    ValueV::Array(store_elem(arr, (i as usize) as int, value)),
                                ),
                            )
                        },
                        _ => Some(env),
                    }
                },
                _ => Some(env),
            },
        },
        _ => Some(env),
    }
}

/// The mathematical form of a recorded event.
pub enum EventKindV {
    Step,
    Variable { name: Seq<char>, value: i64 },
    ComponentEnter { comp_name: Seq<char>, template: Seq<char>, args: Seq<i64> },
    Wire { comp_name: Seq<char>, signal_name: Seq<char>, value: i64 },
}

pub struct EventV {
    pub line: u32,
    pub kind: EventKindV,
}

pub open spec fn step_ev(line: u32) -> EventV {
    EventV { line, kind: EventKindV::Step }
}

/// The `Wire` event of an assignment to `comp.sig`.
pub open spec fn wire_events(line: u32, lhs: ExprV, value: i64) -> Seq<EventV> {
    match lhs {
        ExprV::Member(b, signal) => match *b {
            ExprV::Ident(comp) => seq![
                EventV {
                    line,
                    kind: EventKindV::Wire { comp_name: comp, signal_name: signal, value },
                },
            ],
            _ => Seq::empty(),
        },
        _ => Seq::empty(),
    }
}

/// The most iterations a `for` loop runs.
pub open spec fn max_iterations() -> int {
    10000
}

/// One statement: the environment after it and the events it records;
/// `None` on a fault.
pub open spec fn exec_stmt(s: StmtV, env: Map<Seq<char>, ValueV>) -> Option<
    (Map<Seq<char>, ValueV>, Seq<EventV>),
>
    decreases s, 10002int,
{
    match s {
        StmtV::VarDecl { line, name, init } => {
            let v = match init {
                Some(e) => ev0(e, env),
                None => Some(0i64),
            };
            match v {
                None => None,
                Some(x) => Some((env.insert(name, ValueV::Int(x)), seq![step_ev(line)])),
            }
        },
        StmtV::SignalDecl { line, name, kind, dims } => if dims.len() == 0 {
            let env2 = if env.contains_key(name) {
                env
            } else {
                env.insert(name, ValueV::UnsetSignal)
            };
            let val = match value_as_int(env2[name]) {
                Some(x) => x,
                None => 0,
            };
            if kind == SignalKind::Input {
                Some(
                    (
                        env2,
                        seq![EventV { line, kind: EventKindV::Variable { name, value: val } }],
                    ),
                )
            } else {
                Some((env2, seq![step_ev(line)]))
            }
        } else {
            match ev0(dims[0], env) {
                None => None,
                Some(n) => if n < 0 {
                    None
                } else {
                    Some(
                        (
                            env.insert(
                                name,
                                ValueV::Array(
                                    Seq::new((n as usize) as nat, |k: int| ValueV::Int(0)),
                                ),
                            ),
                            seq![step_ev(line)],
                        ),
                    )
                },
            }
        },
        StmtV::Assign { line, op, lhs, rhs } => match ev0(rhs, env) {
            None => None,
            Some(value) => match assign_to(lhs, value, env) {
                None => None,
                Some(env2) => Some(
                    (
                        env2,
                        if op == AssignOp::VarAssign {
                            seq![step_ev(line)]
                        } else {
                            wire_events(line, lhs, value).push(
                                EventV {
                                    line,
                                    kind: EventKindV::Variable { name: expr_name(lhs), value },
                                },
                            )
                        },
                    ),
                ),
            },
        },
        StmtV::Constraint { line, .. } => Some((env, seq![step_ev(line)])),
        StmtV::If { line, cond, then_block, else_block } => match ev0(cond, env) {
            None => None,
            Some(c) => {
                let r = if c != 0 {
                    exec_block(then_block, 0, env)
                } else {
                    exec_block(else_block, 0, env)
                };
                match r {
                    None => None,
                    Some((env2, evs)) => Some((env2, seq![step_ev(line)] + evs)),
                }
            },
        },
        StmtV::For { line, init, .. } => match exec_stmt(*init, env) {
            None => None,
            Some((env1, _)) => match exec_for(s, 0, env1) {
                None => None,
                Some((env2, evs)) => Some((env2, seq![step_ev(line)] + evs)),
            },
        },
        StmtV::ComponentDecl { line, name, template, args } => match ev_list(args, env) {
            None => None,
            Some(vals) => Some(
                (
                    if env.contains_key(name) {
                        env
                    } else {
                        env.insert(name, ValueV::Component { template, signals: Map::empty() })
                    },
                    seq![
                        EventV {
                            line,
                            kind: EventKindV::ComponentEnter { comp_name: name, template, args: vals },
                        },
                    ],
                ),
            ),
        },
        StmtV::ExprStmt { line, .. } => Some((env, seq![step_ev(line)])),
        StmtV::Return { line, .. } => Some((env, seq![step_ev(line)])),
    }
}

/// The iterations of a `for` loop from iteration `it` on: the condition is
/// tested, the body's events are kept and the update's are dropped.
pub open spec fn exec_for(s: StmtV, it: nat, env: Map<Seq<char>, ValueV>) -> Option<
    (Map<Seq<char>, ValueV>, Seq<EventV>),
>
    decreases s, 10001 - it,
{
    match s {
        StmtV::For { cond, update, body, .. } => if it >= max_iterations() {
            Some((env, Seq::empty()))
        } else {
            match ev0(cond, env) {
                None => None,
                Some(c) => if c == 0 {
                    Some((env, Seq::empty()))
                } else {
                    match exec_block(body, 0, env) {
                        None => None,
                        Some((env1, evs1)) => match exec_stmt(*update, env1) {
                            None => None,
                            Some((env2, _)) => match exec_for(s, it + 1, env2) {
                                None => None,
                                Some((env3, evs3)) => Some((env3, evs1 + evs3)),
                            },
                        },
                    }
                },
            }
        },
        _ => Some((env, Seq::empty())),
    }
}

/// The statements of a block from index `i` on.
pub open spec fn exec_block(b: Seq<StmtV>, i: int, env: Map<Seq<char>, ValueV>) -> Option<
    (Map<Seq<char>, ValueV>, Seq<EventV>),
>
    decreases b, b.len() - i,
{
    if i < 0 || i >= b.len() {
        Some((env, Seq::empty()))
    } else {
        match exec_stmt(b[i], env) {
            None => None,
            Some((env1, evs1)) => match exec_block(b, i + 1, env1) {
                None => None,
                Some((env2, evs2)) => Some((env2, evs1 + evs2)),
            },
        }
    }
}

// ----- the pass that finds sub-components and their wires -------------------

/// What the first pass over a template body has gathered.
pub struct PreV {
    pub env: Map<Seq<char>, ValueV>,
    /// Sub-component declarations: name, template and arguments.
    pub decls: Seq<(Seq<char>, Seq<char>, Seq<i64>)>,
    /// For each component, the expressions wired into its signals, in order.
    pub wires: Map<Seq<char>, Seq<(Seq<char>, ExprV)>>,
}

/// The component and signal that an assignment wires into, if it does.
pub open spec fn wire_target(op: AssignOp, lhs: ExprV) -> Option<(Seq<char>, Seq<char>)> {
    if op == AssignOp::VarAssign {
        None
    } else {
        match lhs {
            ExprV::Member(b, signal) => match *b {
                ExprV::Ident(comp) => Some((comp, signal)),
                _ => None,
            },
            _ => None,
        }
    }
}

pub open spec fn with_env(st: PreV, env: Map<Seq<char>, ValueV>) -> PreV {
    PreV { env, decls: st.decls, wires: st.wires }
}

/// One statement of the first pass.
pub open spec fn collect_stmt(s: StmtV, st: PreV) -> Option<PreV>
    decreases s, 10002int,
{
    match s {
        StmtV::ComponentDecl { name, template, args, .. } => match ev_list(args, st.env) {
            None => None,
            Some(vals) => Some(
                PreV {
                    env: st.env.insert(
                        name,
                        ValueV::Component { template, signals: Map::empty() },
                    ),
                    decls: st.decls.push((name, template, vals)),
                    wires: st.wires,
                },
            ),
        },
        StmtV::Assign { op, lhs, rhs, .. } => match wire_target(op, lhs) {
            Some((comp, signal)) => {
                let old = if st.wires.contains_key(comp) {
                    st.wires[comp]
                } else {
                    Seq::empty()
                };
                Some(
                    PreV {
                        env: st.env,
                        decls: st.decls,
                        wires: st.wires.insert(comp, old.push((signal, rhs))),
                    },
                )
            },
            None => match ev0(rhs, st.env) {
                None => None,
                Some(v) => match assign_to(lhs, v, st.env) {
                    None => None,
                    Some(env2) => Some(with_env(st, env2)),
                },
            },
        },
        StmtV::VarDecl { .. } => match exec_stmt(s, st.env) {
            None => None,
            Some((env2, _)) => Some(with_env(st, env2)),
        },
        StmtV::SignalDecl { .. } => match exec_stmt(s, st.env) {
            None => None,
            Some((env2, _)) => Some(with_env(st, env2)),
        },
        StmtV::If { cond, then_block, else_block, .. } => match ev0(cond, st.env) {
            None => None,
            Some(c) => if c != 0 {
                collect_block(then_block, 0, st)
            } else {
                collect_block(else_block, 0, st)
            },
        },
        StmtV::For { init, .. } => match exec_stmt(*init, st.env) {
            None => None,
            Some((env1, _)) => collect_for(s, 0, with_env(st, env1)),
        },
        _ => Some(st),
    }
}

pub open spec fn collect_for(s: StmtV, it: nat, st: PreV) -> Option<PreV>
    decreases s, 10001 - it,
{
    match s {
        StmtV::For { cond, update, body, .. } => if it >= max_iterations() {
            Some(st)
        } else {
            match ev0(cond, st.env) {
                None => None,
                Some(c) => if c == 0 {
                    Some(st)
                } else {
                    match collect_block(body, 0, st) {
                        None => None,
                        Some(st1) => match exec_stmt(*update, st1.env) {
                            None => None,
                            Some((env2, _)) => collect_for(s, it + 1, with_env(st1, env2)),
                        },
                    }
                },
            }
        },
        _ => Some(st),
    }
}

pub open spec fn collect_block(b: Seq<StmtV>, i: int, st: PreV) -> Option<PreV>
    decreases b, b.len() - i,
{
    if i < 0 || i >= b.len() {
        Some(st)
    } else {
        match collect_stmt(b[i], st) {
            None => None,
            Some(st1) => collect_block(b, i + 1, st1),
        }
    }
}

// ----- the first pass with wires read on the spot ---------------------------------------

/// What a first pass that reads each wired value where the wire stands
/// gathers: the environment, the sub-component declarations, and each
/// wire as component, signal and value, in order.
pub struct NowV {
    pub env: Map<Seq<char>, ValueV>,
    pub decls: Seq<(Seq<char>, Seq<char>, Seq<i64>)>,
    pub wires: Seq<(Seq<char>, Seq<char>, i64)>,
}

pub open spec fn now_with_env(st: NowV, env: Map<Seq<char>, ValueV>) -> NowV {
    NowV { env, decls: st.decls, wires: st.wires }
}

/// The values wired into each component's signals (a later wire to the
/// same signal overrides an earlier one).
pub open spec fn now_wires_map(w: Seq<(Seq<char>, Seq<char>, i64)>) -> Map<Seq<char>, Map<Seq<char>, i64>>
    decreases w.len(),
{
    if w.len() == 0 {
        Map::empty()
    } else {
        let m = now_wires_map(w.drop_last());
        let (c, sg, v) = w.last();
        let old = if m.contains_key(c) {
            m[c]
        } else {
            Map::empty()
        };
        m.insert(c, old.insert(sg, v))
    }
}

/// One statement of that pass.
pub open spec fn collect_now_stmt(s: StmtV, st: NowV) -> Option<NowV>
    decreases s, 10002int,
{
    match s {
        StmtV::ComponentDecl { name, template, args, .. } => match ev_list(args, st.env) {
            None => None,
            Some(vals) => Some(
                NowV {
                    env: st.env.insert(
                        name,
                        ValueV::Component { template, signals: Map::empty() },
                    ),
                    decls: st.decls.push((name, template, vals)),
                    wires: st.wires,
                },
            ),
        },
        StmtV::Assign { op, lhs, rhs, .. } => match wire_target(op, lhs) {
            Some((comp, signal)) => match ev0(rhs, st.env) {
                None => None,
                Some(v) => Some(NowV { env: st.env, decls: st.decls, wires: st.wires.push((comp, signal, v)) }),
            },
            None => match ev0(rhs, st.env) {
                None => None,
                Some(v) => match assign_to(lhs, v, st.env) {
                    None => None,
                    Some(env2) => Some(now_with_env(st, env2)),
                },
            },
        },
        StmtV::VarDecl { .. } => match exec_stmt(s, st.env) {
            None => None,
            Some((env2, _)) => Some(now_with_env(st, env2)),
        },
        StmtV::SignalDecl { .. } => match exec_stmt(s, st.env) {
            None => None,
            Some((env2, _)) => Some(now_with_env(st, env2)),
        },
        StmtV::If { cond, then_block, else_block, .. } => match ev0(cond, st.env) {
            None => None,
            Some(c) => if c != 0 {
                collect_now_block(then_block, 0, st)
            } else {
                collect_now_block(else_block, 0, st)
            },
        },
        StmtV::For { init, .. } => match exec_stmt(*init, st.env) {
            None => None,
            Some((env1, _)) => collect_now_for(s, 0, now_with_env(st, env1)),
        },
        _ => Some(st),
    }
}

pub open spec fn collect_now_for(s: StmtV, it: nat, st: NowV) -> Option<NowV>
    decreases s, 10001 - it,
{
    match s {
        StmtV::For { cond, update, body, .. } => if it >= max_iterations() {
            Some(st)
        } else {
            match ev0(cond, st.env) {
                None => None,
                Some(c) => if c == 0 {
                    Some(st)
                } else {
                    match collect_now_block(body, 0, st) {
                        None => None,
                        Some(st1) => match exec_stmt(*update, st1.env) {
                            None => None,
                            Some((env2, _)) => collect_now_for(s, it + 1, now_with_env(st1, env2)),
                        },
                    }
                },
            }
        },
        _ => Some(st),
    }
}

pub open spec fn collect_now_block(b: Seq<StmtV>, i: int, st: NowV) -> Option<NowV>
    decreases b, b.len() - i,
{
    if i < 0 || i >= b.len() {
        Some(st)
    } else {
        match collect_now_stmt(b[i], st) {
            None => None,
            Some(st1) => collect_now_block(b, i + 1, st1),
        }
    }
}

// ----- templates ----------------------------------------------------------------

/// Generic parameters bound to the arguments by position (0 where an
/// argument is missing).
pub open spec fn bind_params(
    params: Seq<Seq<char>>,
    args: Seq<i64>,
    i: int,
    env: Map<Seq<char>, ValueV>,
) -> Map<Seq<char>, ValueV>
    decreases params.len() - i,
{
    if 0 <= i < params.len() {
        bind_params(
            params,
            args,
            i + 1,
            env.insert(params[i], ValueV::Int(if i < args.len() { args[i] } else { 0 })),
        )
    } else {
        env
    }
}

pub open spec fn int_values(m: Map<Seq<char>, i64>) -> Map<Seq<char>, ValueV> {
    m.map_values(|v: i64| ValueV::Int(v))
}

/// The environment a template body starts in.
pub open spec fn seed_env(t: TemplateV, inputs: Map<Seq<char>, i64>, args: Seq<i64>) -> Map<
    Seq<char>,
    ValueV,
> {
    bind_params(t.generic_params, args, 0, Map::empty()).union_prefer_right(int_values(inputs))
}

/// The last template with the given name.
pub open spec fn template_named(ts: Seq<TemplateV>, name: Seq<char>) -> Option<TemplateV>
    decreases ts.len(),
{
    if ts.len() == 0 {
        None
    } else if ts.last().name == name {
        Some(ts.last())
    } else {
        template_named(ts.drop_last(), name)
    }
}

/// The values wired into a component's signals, evaluated in order.
pub open spec fn wire_inputs(ws: Seq<(Seq<char>, ExprV)>, env: Map<Seq<char>, ValueV>) -> Option<
    Map<Seq<char>, i64>,
>
    decreases ws.len(),
{
    if ws.len() == 0 {
        Some(Map::empty())
    } else {
        match wire_inputs(ws.drop_last(), env) {
            None => None,
            Some(m) => match ev0(ws.last().1, env) {
                None => None,
                Some(v) => Some(m.insert(ws.last().0, v)),
            },
        }
    }
}

/// The values of the output signals declared in a body (0 where unset).
pub open spec fn outputs_of(body: Seq<StmtV>, env: Map<Seq<char>, ValueV>) -> Map<Seq<char>, i64>
    decreases body.len(),
{
    if body.len() == 0 {
        Map::empty()
    } else {
        let m = outputs_of(body.drop_last(), env);
        match body.last() {
            StmtV::SignalDecl { name, kind: SignalKind::Output, .. } => m.insert(
                name,
                if env.contains_key(name) {
                    match value_as_int(env[name]) {
                        Some(x) => x,
                        None => 0,
                    }
                } else {
                    0
                },
            ),
            _ => m,
        }
    }
}

/// Evaluating a template: its events and output values.  `fuel` bounds
/// the nesting of sub-component evaluations; `None` where it runs out or a
/// fault occurs.
pub open spec fn eval_template(
    t: TemplateV,
    ts: Seq<TemplateV>,
    inputs: Map<Seq<char>, i64>,
    args: Seq<i64>,
    fuel: nat,
) -> Option<(Seq<EventV>, Map<Seq<char>, i64>)>
    decreases fuel, 0int,
{
    if fuel == 0 {
        None
    } else {
        let env0 = seed_env(t, inputs, args);
        match collect_block(
            t.body,
            0,
            PreV { env: env0, decls: Seq::empty(), wires: Map::empty() },
        ) {
            None => None,
            Some(pre) => match eval_comps(pre.decls, 0, env0, pre.wires, ts, (fuel - 1) as nat) {
                None => None,
                Some(env1) => match exec_block(t.body, 0, env1) {
                    None => None,
                    Some((env2, events)) => Some((events, outputs_of(t.body, env2))),
                },
            },
        }
    }
}

/// The sub-components from index `i` on, each evaluated with the values
/// wired into it; its inputs and outputs are stored under its name.
pub open spec fn eval_comps(
    decls: Seq<(Seq<char>, Seq<char>, Seq<i64>)>,
    i: int,
    env: Map<Seq<char>, ValueV>,
    wires: Map<Seq<char>, Seq<(Seq<char>, ExprV)>>,
    ts: Seq<TemplateV>,
    fuel: nat,
) -> Option<Map<Seq<char>, ValueV>>
    decreases fuel, decls.len() - i,
{
    if i < 0 || i >= decls.len() {
        Some(env)
    } else {
        let comp = decls[i].0;
        let tname = decls[i].1;
        match template_named(ts, tname) {
            None => eval_comps(
                decls,
                i + 1,
                env.insert(comp, ValueV::Component { template: tname, signals: Map::empty() }),
                wires,
                ts,
                fuel,
            ),
            Some(child) => {
                let ws = if wires.contains_key(comp) {
                    wires[comp]
                } else {
                    Seq::empty()
                };
                match wire_inputs(ws, env) {
                    None => None,
                    Some(inputs) => match eval_template(child, ts, inputs, decls[i].2, fuel) {
                        None => None,
                        Some((_, outs)) => eval_comps(
                            decls,
                            i + 1,
                            env.insert(
                                comp,
                                ValueV::Component {
                                    template: tname,
                                    signals: inputs.union_prefer_right(outs),
                                },
                            ),
                            wires,
                            ts,
                            fuel,
                        ),
                    },
                }
            },
        }
    }
}

/// More fuel does not change an evaluation that finished: the result of
/// evaluating a template is the same for every fuel that suffices.
pub proof fn lemma_eval_template_fuel(
    t: TemplateV,
    ts: Seq<TemplateV>,
    inputs: Map<Seq<char>, i64>,
    args: Seq<i64>,
    f: nat,
    g: nat,
)
    requires
        f <= g,
        eval_template(t, ts, inputs, args, f) is Some,
    ensures
        eval_template(t, ts, inputs, args, g) == eval_template(t, ts, inputs, args, f),
    decreases f, 0int,
{
    let env0 = seed_env(t, inputs, args);
    let pre = collect_block(t.body, 0, PreV { env: env0, decls: Seq::empty(), wires: Map::empty() });
    let pv = pre->Some_0;
    lemma_eval_comps_fuel(pv.decls, 0, env0, pv.wires, ts, (f - 1) as nat, (g - 1) as nat);
}

/// More fuel does not change a sub-component pass that finished.
pub proof fn lemma_eval_comps_fuel(
    decls: Seq<(Seq<char>, Seq<char>, Seq<i64>)>,
    i: int,
    env: Map<Seq<char>, ValueV>,
    wires: Map<Seq<char>, Seq<(Seq<char>, ExprV)>>,
    ts: Seq<TemplateV>,
    f: nat,
    g: nat,
)
    requires
        f <= g,
        eval_comps(decls, i, env, wires, ts, f) is Some,
    ensures
        eval_comps(decls, i, env, wires, ts, g) == eval_comps(decls, i, env, wires, ts, f),
    decreases f, decls.len() - i,
{
    if 0 <= i < decls.len() {
        let comp = decls[i].0;
        let tname = decls[i].1;
        match template_named(ts, tname) {
            None => {
                lemma_eval_comps_fuel(
                    decls,
                    i + 1,
                    env.insert(comp, ValueV::Component { template: tname, signals: Map::empty() }),
                    wires,
                    ts,
                    f,
                    g,
                );
            },
            Some(child) => {
                let ws = if wires.contains_key(comp) {
                    wires[comp]
                } else {
                    Seq::empty()
                };
                let inputs = wire_inputs(ws, env)->Some_0;
                lemma_eval_template_fuel(child, ts, inputs, decls[i].2, f, g);
                let outs = eval_template(child, ts, inputs, decls[i].2, f)->Some_0.1;
                lemma_eval_comps_fuel(
                    decls,
                    i + 1,
                    env.insert(
                        comp,
                        ValueV::Component { template: tname, signals: inputs.union_prefer_right(outs) },
                    ),
                    wires,
                    ts,
                    f,
                    g,
                );
            },
        }
    }
}

} // verus!

verus! {

// ----- what the operators mean ---------------------------------------------------------

/// `a op b` written with two integer literals.
pub open spec fn lit_binary(op: BinOp, a: i64, b: i64) -> ExprV {
    ExprV::Binary(op, Box::new(ExprV::Int(a)), Box::new(ExprV::Int(b)))
}

/// Whether `e` evaluates to the integer 1 where `holds` and to 0 where not.
pub open spec fn truth_value(e: Option<Option<ValueV>>, holds: bool) -> bool {
    e matches Some(Some(ValueV::Int(x))) && (x == 1 <==> holds) && (x == 0 <==> !holds)
}

/// Whether `e` evaluates to the integer `v` where `v` fits in `i64`, and
/// faults where it does not.
pub open spec fn checked_value(e: Option<Option<ValueV>>, v: int) -> bool {
    if i64::MIN <= v <= i64::MAX {
        e == Some(Some(ValueV::Int(v as i64)))
    } else {
        e is None
    }
}

/// The comparisons of two integers evaluate to 1 exactly where the
/// comparison holds and to 0 otherwise; `&&` and `||` to 1 exactly where
/// both, or either, operand is nonzero; `+`, `-` and `*` to the exact sum,
/// difference and product, faulting where it leaves `i64`; `/` and `%` to
/// the quotient and remainder of a nonnegative number by a positive one,
/// and to 0 for a zero divisor.
pub proof fn lemma_binary_meaning(a: i64, b: i64, env: Map<Seq<char>, ValueV>)
    ensures
        truth_value(ev(lit_binary(BinOp::Lt, a, b), env), a < b),
        truth_value(ev(lit_binary(BinOp::Le, a, b), env), a <= b),
        truth_value(ev(lit_binary(BinOp::Gt, a, b), env), a > b),
        truth_value(ev(lit_binary(BinOp::Ge, a, b), env), a >= b),
        truth_value(ev(lit_binary(BinOp::Eq, a, b), env), a == b),
        truth_value(ev(lit_binary(BinOp::Ne, a, b), env), a != b),
        truth_value(ev(lit_binary(BinOp::And, a, b), env), a != 0 && b != 0),
        truth_value(ev(lit_binary(BinOp::Or, a, b), env), a != 0 || b != 0),
        checked_value(ev(lit_binary(BinOp::Add, a, b), env), a + b),
        checked_value(ev(lit_binary(BinOp::Sub, a, b), env), a - b),
        checked_value(ev(lit_binary(BinOp::Mul, a, b), env), a * b),
        0 <= a && 0 < b ==> ev(lit_binary(BinOp::Div, a, b), env) == Some(
            Some(ValueV::Int((a as int / b as int) as i64)),
        ) && ev(lit_binary(BinOp::Mod, a, b), env) == Some(Some(ValueV::Int((a as int % b as int) as i64))),
        b == 0 ==> ev(lit_binary(BinOp::Div, a, b), env) == Some(Some(ValueV::Int(0)))
            && ev(lit_binary(BinOp::Mod, a, b), env) == Some(Some(ValueV::Int(0))),
{
    assert(ev(ExprV::Int(a), env) == Some(Some(ValueV::Int(a))));
    assert(ev(ExprV::Int(b), env) == Some(Some(ValueV::Int(b))));
    assert(ev_int(ExprV::Int(a), env) == Some(Some(a)));
    assert(ev_int(ExprV::Int(b), env) == Some(Some(b)));
    if 0 <= a && 0 < b {
        let x = a as int;
        let d = b as int;
        assert(0 <= x / d <= x) by (nonlinear_arith)
            requires
                0 <= x,
                0 < d,
        ;
        assert(0 <= x % d < d) by (nonlinear_arith)
            requires
                0 <= x,
                0 < d,
        ;
        assert(binop(BinOp::Div, a, b) == Some((x / d) as i64));
        assert(x == 0 ==> x % d == 0 && x / d == 0) by (nonlinear_arith)
            requires
                0 < d,
        ;
        assert(a.checked_rem(b) == Some((x % d) as i64));
        assert(binop(BinOp::Mod, a, b) == Some((x % d) as i64));
    }
}

} // verus!
