//! What a trace of a Circom program holds, as a list of writer actions:
//! the functions registered for its templates, the steps at source lines,
//! the calls of component templates with their staged arguments, the
//! variables recorded at a step, and the returns.  The trace writer plays
//! the actions back in order.

use vstd::prelude::*;
use crate::ast::{Template, TemplateV};
use crate::evaluator::{EvalContext, EvalEventKind, evaluate_template_within, events_view};
use crate::semantics::{EventKindV, EventV, eval_template, template_named};
use crate::text::{same_text, str_chars, string_from_chars};
use crate::tracer::{
    ComponentInstance, ComponentInstanceV, SignalAssignment, SignalAssignmentV, SignalDecl,
    SignalDeclV, TemplateDef, TemplateDefV, assignments_view, components_view, decls_view,
    nesting_order, order_components_by_nesting, template_defs_view,
};
use crate::value::{pairs_map, signal_get, signals_map, signals_pairs};
use vstd::string::StringSliceAdditionalSpecFns;

verus! {

/// One action of the trace writer.
#[derive(Debug, Clone)]
pub enum TraceOp {
    /// Registers the template `name`, defined at `line`, as a function.
    Function { name: String, line: u32 },
    /// A step at a 1-based line of the traced source.
    Step { line: u32 },
    /// Stages an argument of the next call; `None` where no value is known.
    Arg { name: String, value: Option<i64> },
    /// Enters a call of the template `function` with the staged arguments.
    Call { function: String },
    /// Records a variable's value at the current step.
    Variable { name: String, value: i64 },
    /// Leaves the innermost call.
    Return,
}

pub enum TraceOpV {
    Function { name: Seq<char>, line: u32 },
    Step { line: u32 },
    Arg { name: Seq<char>, value: Option<i64> },
    Call { function: Seq<char> },
    Variable { name: Seq<char>, value: i64 },
    Return,
}

impl View for TraceOp {
    type V = TraceOpV;

    open spec fn view(&self) -> TraceOpV {
        match self {
            TraceOp::Function { name, line } => TraceOpV::Function { name: name@, line: *line },
            TraceOp::Step { line } => TraceOpV::Step { line: *line },
            TraceOp::Arg { name, value } => TraceOpV::Arg { name: name@, value: *value },
            TraceOp::Call { function } => TraceOpV::Call { function: function@ },
            TraceOp::Variable { name, value } => TraceOpV::Variable { name: name@, value: *value },
            TraceOp::Return => TraceOpV::Return,
        }
    }
}

pub open spec fn ops_view(v: Seq<TraceOp>) -> Seq<TraceOpV> {
    v.map_values(|o: TraceOp| o@)
}

// ----- shared pieces ------------------------------------------------------------

/// One function registration per template definition, in source order.
pub open spec fn function_ops(defs: Seq<TemplateDefV>) -> Seq<TraceOpV> {
    defs.map_values(|t: TemplateDefV| TraceOpV::Function { name: t.name, line: t.line })
}

/// The last template definition with the given name.
pub open spec fn def_named(defs: Seq<TemplateDefV>, name: Seq<char>) -> Option<TemplateDefV>
    decreases defs.len(),
{
    if defs.len() == 0 {
        None
    } else if defs.last().name == name {
        Some(defs.last())
    } else {
        def_named(defs.drop_last(), name)
    }
}

/// The value recorded for `k`, if any.
pub open spec fn lookup(values: Map<Seq<char>, i64>, k: Seq<char>) -> Option<i64> {
    if values.contains_key(k) {
        Some(values[k])
    } else {
        None
    }
}

/// The value recorded for `k`, or 0.
pub open spec fn value_or_zero(values: Map<Seq<char>, i64>, k: Seq<char>) -> i64 {
    if values.contains_key(k) {
        values[k]
    } else {
        0
    }
}

pub open spec fn dotted(a: Seq<char>, b: Seq<char>) -> Seq<char> {
    a + seq!['.'] + b
}

proof fn lemma_ops_push(v: Seq<TraceOp>, o: TraceOp)
    ensures
        ops_view(v.push(o)) == ops_view(v).push(o@),
{
    assert(ops_view(v.push(o)) =~= ops_view(v).push(o@));
}

fn push_op(out: &mut Vec<TraceOp>, o: TraceOp)
    ensures
        ops_view(final(out)@) == ops_view(old(out)@).push(o@),
{
    proof {
        lemma_ops_push(out@, o);
    }
    out.push(o);
}

fn copy_string(s: &String) -> (r: String)
    ensures
        r@ == s@,
{
    let cs = str_chars(s.as_str());
    string_from_chars(&cs)
}

/// `a.b`.
fn dotted_exec(a: &str, b: &str) -> (r: String)
    ensures
        r@ == dotted(a@, b@),
{
    let mut cs = str_chars(a);
    cs.push('.');
    let bs = str_chars(b);
    crate::text::append_chars(&mut cs, &bs);
    let r = string_from_chars(&cs);
    assert(r@ =~= dotted(a@, b@));
    r
}

/// The last definition of the template `name`.
fn find_def<'a>(defs: &'a [TemplateDef], name: &str) -> (r: Option<&'a TemplateDef>)
    ensures
        match r {
            Some(t) => def_named(template_defs_view(defs@), name@) == Some(t@),
            None => def_named(template_defs_view(defs@), name@) is None,
        },
{
    let ghost dv = template_defs_view(defs@);
    let mut i = defs.len();
    assert(dv.take(i as int) =~= dv);
    while i > 0
        invariant
            i <= defs@.len(),
            dv == template_defs_view(defs@),
            def_named(dv, name@) == def_named(dv.take(i as int), name@),
        decreases i,
    {
        assert(dv.take(i as int).drop_last() =~= dv.take(i - 1));
        i -= 1;
        if same_text(defs[i].name.as_str(), name) {
            return Some(&defs[i]);
        }
    }
    None
}

fn push_function_ops(defs: &[TemplateDef], out: &mut Vec<TraceOp>)
    ensures
        ops_view(final(out)@) == ops_view(old(out)@) + function_ops(template_defs_view(defs@)),
{
    let ghost base = ops_view(out@);
    let ghost dv = template_defs_view(defs@);
    let mut i: usize = 0;
    while i < defs.len()
        invariant
            i <= defs@.len(),
            dv == template_defs_view(defs@),
            ops_view(out@) == base + function_ops(dv.take(i as int)),
        decreases defs.len() - i,
    {
        push_op(out, TraceOp::Function { name: copy_string(&defs[i].name), line: defs[i].line });
        assert(function_ops(dv.take(i + 1)) =~= function_ops(dv.take(i as int)).push(
            TraceOpV::Function { name: dv[i as int].name, line: dv[i as int].line },
        ));
        i += 1;
    }
    assert(dv.take(defs@.len() as int) =~= dv);
}

// ----- the flat fallback -----------------------------------------------------------

/// The key under which a component's input signal is recorded: the bare
/// name for `main`, `component.input` otherwise.
pub open spec fn input_key(c: ComponentInstanceV, input: Seq<char>) -> Seq<char> {
    if c.name == "main"@ {
        input
    } else {
        dotted(c.name, input)
    }
}

/// The call of one component: a step at its line, its template's input
/// signals as arguments, then the call.
pub open spec fn component_ops(c: ComponentInstanceV, t: TemplateDefV, values: Map<Seq<char>, i64>) -> Seq<
    TraceOpV,
> {
    seq![TraceOpV::Step { line: c.line }] + t.input_signals.map_values(
        |inp: Seq<char>| TraceOpV::Arg { name: inp, value: lookup(values, input_key(c, inp)) },
    ) + seq![TraceOpV::Call { function: c.template_name }]
}

/// The calls of the components whose template is defined, and how many.
pub open spec fn component_calls(
    defs: Seq<TemplateDefV>,
    cs: Seq<ComponentInstanceV>,
    values: Map<Seq<char>, i64>,
) -> (Seq<TraceOpV>, nat)
    decreases cs.len(),
{
    if cs.len() == 0 {
        (Seq::empty(), 0)
    } else {
        let prev = component_calls(defs, cs.drop_last(), values);
        match def_named(defs, cs.last().template_name) {
            None => prev,
            Some(t) => (prev.0 + component_ops(cs.last(), t, values), prev.1 + 1),
        }
    }
}

/// A step per assignment line, with the assigned signal's value where it
/// is known.
pub open spec fn assignment_ops(assigns: Seq<SignalAssignmentV>, values: Map<Seq<char>, i64>) -> Seq<
    TraceOpV,
>
    decreases assigns.len(),
{
    if assigns.len() == 0 {
        Seq::empty()
    } else {
        let a = assigns.last();
        assignment_ops(assigns.drop_last(), values) + seq![TraceOpV::Step { line: a.line }] + match lookup(
            values,
            a.target,
        ) {
            Some(v) => seq![TraceOpV::Variable { name: a.target, value: v }],
            None => Seq::empty(),
        }
    }
}

/// The flat trace: functions for the templates, the component calls in
/// nesting order, a step per signal declaration, the assignment steps,
/// then a return per call.
pub open spec fn flat_plan(
    signals: Seq<SignalDeclV>,
    assigns: Seq<SignalAssignmentV>,
    defs: Seq<TemplateDefV>,
    comps: Seq<ComponentInstanceV>,
    values: Map<Seq<char>, i64>,
) -> Seq<TraceOpV> {
    let ordered = nesting_order(comps).map_values(|k: int| comps[k]);
    let calls = component_calls(defs, ordered, values);
    function_ops(defs) + calls.0 + signals.map_values(|s: SignalDeclV| TraceOpV::Step { line: s.line })
        + assignment_ops(assigns, values) + Seq::new(calls.1, |i: int| TraceOpV::Return)
}

fn push_component_ops(c: &ComponentInstance, t: &TemplateDef, values: &Vec<(String, i64)>, out: &mut Vec<TraceOp>)
    ensures
        ops_view(final(out)@) == ops_view(old(out)@) + component_ops(c@, t@, signals_map(values@)),
{
    let ghost base = ops_view(out@);
    let ghost vm = signals_map(values@);
    push_op(out, TraceOp::Step { line: c.line });
    let is_main = same_text(c.name.as_str(), "main");
    let ghost ins = t@.input_signals;
    let ghost f = |inp: Seq<char>| TraceOpV::Arg { name: inp, value: lookup(vm, input_key(c@, inp)) };
    let mut i: usize = 0;
    while i < t.input_signals.len()
        invariant
            i <= t.input_signals@.len(),
            ins == t@.input_signals,
            ins.len() == t.input_signals@.len(),
            vm == signals_map(values@),
            is_main == (c@.name == "main"@),
            f == (|inp: Seq<char>| TraceOpV::Arg { name: inp, value: lookup(vm, input_key(c@, inp)) }),
            ops_view(out@) == base + seq![TraceOpV::Step { line: c.line }] + ins.take(i as int).map_values(f),
        decreases t.input_signals.len() - i,
    {
        let inp = &t.input_signals[i];
        assert(ins[i as int] == inp@);
        let key = if is_main {
            copy_string(inp)
        } else {
            dotted_exec(c.name.as_str(), inp.as_str())
        };
        let v = signal_get(values, key.as_str());
        push_op(out, TraceOp::Arg { name: copy_string(inp), value: v });
        assert(ins.take(i + 1).map_values(f) =~= ins.take(i as int).map_values(f).push(f(inp@)));
        i += 1;
    }
    assert(ins.take(ins.len() as int) =~= ins);
    push_op(out, TraceOp::Call { function: copy_string(&c.template_name) });
    assert(ops_view(out@) =~= base + component_ops(c@, t@, vm));
}

fn push_assignment_ops(assigns: &[SignalAssignment], values: &Vec<(String, i64)>, out: &mut Vec<TraceOp>)
    ensures
        ops_view(final(out)@) == ops_view(old(out)@) + assignment_ops(
            assignments_view(assigns@),
            signals_map(values@),
        ),
{
    let ghost base = ops_view(out@);
    let ghost av = assignments_view(assigns@);
    let ghost vm = signals_map(values@);
    let mut i: usize = 0;
    assert(assignment_ops(av.take(0), vm) =~= Seq::<TraceOpV>::empty());
    while i < assigns.len()
        invariant
            i <= assigns@.len(),
            av == assignments_view(assigns@),
            vm == signals_map(values@),
            ops_view(out@) == base + assignment_ops(av.take(i as int), vm),
        decreases assigns.len() - i,
    {
        let a = &assigns[i];
        assert(av.take(i + 1).drop_last() =~= av.take(i as int));
        assert(av.take(i + 1).last() == a@);
        push_op(out, TraceOp::Step { line: a.line });
        match signal_get(values, a.target.as_str()) {
            Some(v) => {
                push_op(out, TraceOp::Variable { name: copy_string(&a.target), value: v });
            },
            None => {},
        }
        assert(ops_view(out@) =~= base + assignment_ops(av.take(i + 1), vm));
        i += 1;
    }
    assert(av.take(assigns@.len() as int) =~= av);
}

/// The flat trace, for sources that the structured evaluation cannot
/// follow: every template registered as a function, each component whose
/// template is defined called in nesting order with its inputs' recorded
/// values as arguments, a step per signal declaration, a step per
/// assignment with the assigned value where recorded, and a return per
/// call.
pub fn flat_trace_ops(
    signals: &[SignalDecl],
    assignments: &[SignalAssignment],
    templates: &[TemplateDef],
    component_instances: &[ComponentInstance],
    values: &Vec<(String, i64)>,
) -> (r: Vec<TraceOp>)
    ensures
        ops_view(r@) == flat_plan(
            decls_view(signals@),
            assignments_view(assignments@),
            template_defs_view(templates@),
            components_view(component_instances@),
            signals_map(values@),
        ),
{
    let mut out: Vec<TraceOp> = Vec::new();
    assert(ops_view(out@) =~= Seq::<TraceOpV>::empty());
    push_function_ops(templates, &mut out);
    let ghost head = ops_view(out@);
    let ghost comps = components_view(component_instances@);
    let ghost dv = template_defs_view(templates@);
    let ghost vm = signals_map(values@);
    let ordered = order_components_by_nesting(component_instances);
    let ghost ord = nesting_order(comps).map_values(|k: int| comps[k]);
    assert(comps == component_instances@.map_values(|c: ComponentInstance| c@));
    proof {
        crate::tracer::lemma_order_in_range(comps);
    }
    assert forall|k: int| 0 <= k < ordered@.len() implies (#[trigger] ordered@[k])@ == ord[k] by {
        assert(*ordered@[k] == component_instances@[nesting_order(comps)[k]]);
    }
    let mut calls: usize = 0;
    let mut k: usize = 0;
    while k < ordered.len()
        invariant
            k <= ordered@.len(),
            ordered@.len() == ord.len(),
            forall|j: int| 0 <= j < ordered@.len() ==> (#[trigger] ordered@[j])@ == ord[j],
            dv == template_defs_view(templates@),
            vm == signals_map(values@),
            component_calls(dv, ord.take(k as int), vm).1 == calls,
            calls <= k,
            ops_view(out@) == head + component_calls(dv, ord.take(k as int), vm).0,
        decreases ordered.len() - k,
    {
        let c = ordered[k];
        assert(ord.take(k + 1).drop_last() =~= ord.take(k as int));
        assert(ord.take(k + 1).last() == c@);
        match find_def(templates, c.template_name.as_str()) {
            Some(t) => {
                push_component_ops(c, t, values, &mut out);
                calls += 1;
            },
            None => {},
        }
        k += 1;
    }
    assert(ord.take(ordered@.len() as int) =~= ord);
    let ghost mid = ops_view(out@);
    let ghost sv = decls_view(signals@);
    let mut i: usize = 0;
    while i < signals.len()
        invariant
            i <= signals@.len(),
            sv == decls_view(signals@),
            ops_view(out@) == mid + sv.take(i as int).map_values(
                |s: SignalDeclV| TraceOpV::Step { line: s.line },
            ),
        decreases signals.len() - i,
    {
        push_op(&mut out, TraceOp::Step { line: signals[i].line });
        assert(sv.take(i + 1).map_values(|s: SignalDeclV| TraceOpV::Step { line: s.line }) =~= sv.take(
            i as int,
        ).map_values(|s: SignalDeclV| TraceOpV::Step { line: s.line }).push(
            TraceOpV::Step { line: signals@[i as int].line },
        ));
        i += 1;
    }
    assert(sv.take(signals@.len() as int) =~= sv);
    push_assignment_ops(assignments, values, &mut out);
    let ghost tail = ops_view(out@);
    let mut j: usize = 0;
    while j < calls
        invariant
            j <= calls,
            ops_view(out@) == tail + Seq::new(j as nat, |x: int| TraceOpV::Return),
        decreases calls - j,
    {
        push_op(&mut out, TraceOp::Return);
        assert(Seq::new((j + 1) as nat, |x: int| TraceOpV::Return) =~= Seq::new(
            j as nat,
            |x: int| TraceOpV::Return,
        ).push(TraceOpV::Return));
        j += 1;
    }
    out
}


// ----- the evaluated trace ------------------------------------------------------------

/// The values wired into component `comp`'s signals, in event order.
pub open spec fn wire_pairs(evs: Seq<EventV>, comp: Seq<char>) -> Seq<(Seq<char>, i64)>
    decreases evs.len(),
{
    if evs.len() == 0 {
        Seq::empty()
    } else {
        let prev = wire_pairs(evs.drop_last(), comp);
        match evs.last().kind {
            EventKindV::Wire { comp_name, signal_name, value } => if comp_name == comp {
                prev.push((signal_name, value))
            } else {
                prev
            },
            _ => prev,
        }
    }
}

pub open spec fn def_names(defs: Seq<TemplateDefV>) -> Seq<Seq<char>> {
    defs.map_values(|t: TemplateDefV| t.name)
}

/// The arguments staged for a call of `template`: each of its input
/// signals with its wired value, or 0.
pub open spec fn child_args(ts: Seq<TemplateV>, template: Seq<char>, cmap: Map<Seq<char>, i64>) -> Seq<
    TraceOpV,
> {
    match template_named(ts, template) {
        Some(ct) => ct.input_signals.map_values(
            |inp: Seq<char>| TraceOpV::Arg { name: inp, value: Some(value_or_zero(cmap, inp)) },
        ),
        None => Seq::empty(),
    }
}

/// The trace of evaluating the template `tname` with the given input
/// signal values and template arguments; a variable is recorded under
/// `prefix` followed by its name.  Sub-component nesting, in the trace and
/// in the evaluation, is bounded by `fuel`; `None` where that bound or the
/// evaluation fails.
pub open spec fn plan_eval(
    ts: Seq<TemplateV>,
    names: Seq<Seq<char>>,
    tname: Seq<char>,
    prefix: Seq<char>,
    inputs: Map<Seq<char>, i64>,
    args: Seq<i64>,
    fuel: nat,
) -> Option<Seq<TraceOpV>>
    decreases fuel, 0int,
{
    if fuel == 0 {
        None
    } else {
        match template_named(ts, tname) {
            None => Some(Seq::empty()),
            Some(t) => match eval_template(t, ts, inputs, args, fuel) {
                None => None,
                Some(res) => plan_events(ts, names, prefix, res.0, 0, Seq::empty(), (fuel - 1) as nat),
            },
        }
    }
}

/// The trace of the evaluation events from index `i` on.  A step becomes
/// a step; a variable a step and the variable under `prefix`; a wire
/// nothing; a component a step and, where its template is defined in
/// `names`, a call with the wired inputs as arguments, the trace of its
/// own evaluation and a return.  A component entered a second time
/// (those in `used`) gets no wired inputs.
pub open spec fn plan_events(
    ts: Seq<TemplateV>,
    names: Seq<Seq<char>>,
    prefix: Seq<char>,
    evs: Seq<EventV>,
    i: int,
    used: Seq<Seq<char>>,
    fuel: nat,
) -> Option<Seq<TraceOpV>>
    decreases fuel, evs.len() - i,
{
    if i < 0 || i >= evs.len() {
        Some(Seq::empty())
    } else {
        let e = evs[i];
        let here: Option<(Seq<TraceOpV>, Seq<Seq<char>>)> = match e.kind {
            EventKindV::Step => Some((seq![TraceOpV::Step { line: e.line }], used)),
            EventKindV::Variable { name, value } => Some(
                (
                    seq![
                        TraceOpV::Step { line: e.line },
                        TraceOpV::Variable { name: prefix + name, value },
                    ],
                    used,
                ),
            ),
            EventKindV::Wire { .. } => Some((Seq::empty(), used)),
            EventKindV::ComponentEnter { comp_name, template, args } => if !names.contains(template) {
                Some((seq![TraceOpV::Step { line: e.line }], used))
            } else {
                let cmap = pairs_map(
                    if used.contains(comp_name) {
                        Seq::empty()
                    } else {
                        wire_pairs(evs, comp_name)
                    },
                );
                match plan_eval(ts, names, template, comp_name + seq!['.'], cmap, args, fuel) {
                    None => None,
                    Some(sub) => Some(
                        (
                            seq![TraceOpV::Step { line: e.line }] + child_args(ts, template, cmap)
                                + seq![TraceOpV::Call { function: template }] + sub + seq![
                                TraceOpV::Return,
                            ],
                            used.push(comp_name),
                        ),
                    ),
                }
            },
        };
        match here {
            None => None,
            Some(h) => match plan_events(ts, names, prefix, evs, i + 1, h.1, fuel) {
                None => None,
                Some(rest) => Some(h.0 + rest),
            },
        }
    }
}

/// The plan does not depend on the nesting bound once it is enough.
pub proof fn lemma_plan_eval_fuel(
    ts: Seq<TemplateV>,
    names: Seq<Seq<char>>,
    tname: Seq<char>,
    prefix: Seq<char>,
    inputs: Map<Seq<char>, i64>,
    args: Seq<i64>,
    f: nat,
    g: nat,
)
    requires
        f <= g,
        plan_eval(ts, names, tname, prefix, inputs, args, f) is Some,
    ensures
        plan_eval(ts, names, tname, prefix, inputs, args, g) == plan_eval(
            ts,
            names,
            tname,
            prefix,
            inputs,
            args,
            f,
        ),
    decreases f, 0int,
{
    match template_named(ts, tname) {
        None => {},
        Some(t) => {
            crate::semantics::lemma_eval_template_fuel(t, ts, inputs, args, f, g);
            let res = eval_template(t, ts, inputs, args, f)->Some_0;
            lemma_plan_events_fuel(ts, names, prefix, res.0, 0, Seq::empty(), (f - 1) as nat, (g - 1) as nat);
        },
    }
}

pub proof fn lemma_plan_events_fuel(
    ts: Seq<TemplateV>,
    names: Seq<Seq<char>>,
    prefix: Seq<char>,
    evs: Seq<EventV>,
    i: int,
    used: Seq<Seq<char>>,
    f: nat,
    g: nat,
)
    requires
        f <= g,
        plan_events(ts, names, prefix, evs, i, used, f) is Some,
    ensures
        plan_events(ts, names, prefix, evs, i, used, g) == plan_events(ts, names, prefix, evs, i, used, f),
    decreases f, evs.len() - i,
{
    if 0 <= i < evs.len() {
        let e = evs[i];
        match e.kind {
            EventKindV::ComponentEnter { comp_name, template, args } => {
                if names.contains(template) {
                    let cmap = pairs_map(
                        if used.contains(comp_name) {
                            Seq::empty()
                        } else {
                            wire_pairs(evs, comp_name)
                        },
                    );
                    lemma_plan_eval_fuel(ts, names, template, comp_name + seq!['.'], cmap, args, f, g);
                    lemma_plan_events_fuel(ts, names, prefix, evs, i + 1, used.push(comp_name), f, g);
                } else {
                    lemma_plan_events_fuel(ts, names, prefix, evs, i + 1, used, f, g);
                }
            },
            _ => {
                lemma_plan_events_fuel(ts, names, prefix, evs, i + 1, used, f, g);
            },
        }
    }
}

pub open spec fn strs(v: Seq<String>) -> Seq<Seq<char>> {
    crate::parser::strs_view(v)
}

fn contains_def_name(defs: &[TemplateDef], name: &str) -> (r: bool)
    ensures
        r == def_names(template_defs_view(defs@)).contains(name@),
{
    let ghost nv = def_names(template_defs_view(defs@));
    let mut i: usize = 0;
    while i < defs.len()
        invariant
            i <= defs@.len(),
            nv == def_names(template_defs_view(defs@)),
            forall|j: int| 0 <= j < i ==> nv[j] != name@,
        decreases defs.len() - i,
    {
        if same_text(defs[i].name.as_str(), name) {
            assert(nv[i as int] == name@);
            return true;
        }
        i += 1;
    }
    false
}

fn contains_text(v: &Vec<String>, name: &str) -> (r: bool)
    ensures
        r == strs(v@).contains(name@),
{
    let ghost nv = strs(v@);
    let mut i: usize = 0;
    while i < v.len()
        invariant
            i <= v@.len(),
            nv == strs(v@),
            forall|j: int| 0 <= j < i ==> nv[j] != name@,
        decreases v.len() - i,
    {
        if same_text(v[i].as_str(), name) {
            assert(nv[i as int] == name@);
            return true;
        }
        i += 1;
    }
    false
}

/// The values wired into `comp`, in event order.
fn collect_wires(evs: &Vec<crate::evaluator::EvalEvent>, comp: &str) -> (r: Vec<(String, i64)>)
    ensures
        signals_pairs(r@) == wire_pairs(events_view(evs@), comp@),
{
    let ghost ev = events_view(evs@);
    let mut r: Vec<(String, i64)> = Vec::new();
    let mut i: usize = 0;
    assert(signals_pairs(r@) =~= wire_pairs(ev.take(0), comp@));
    while i < evs.len()
        invariant
            i <= evs@.len(),
            ev == events_view(evs@),
            signals_pairs(r@) == wire_pairs(ev.take(i as int), comp@),
        decreases evs.len() - i,
    {
        assert(ev.take(i + 1).drop_last() =~= ev.take(i as int));
        assert(ev.take(i + 1).last() == evs@[i as int]@);
        match &evs[i].kind {
            EvalEventKind::Wire { comp_name, signal_name, value } => {
                if same_text(comp_name.as_str(), comp) {
                    let ghost prev = r@;
                    r.push((copy_string(signal_name), *value));
                    assert(signals_pairs(r@) =~= signals_pairs(prev).push((signal_name@, *value)));
                }
            },
            _ => {},
        }
        i += 1;
    }
    assert(ev.take(evs@.len() as int) =~= ev);
    r
}

fn push_child_args(ct: &Template, cin: &Vec<(String, i64)>, out: &mut Vec<TraceOp>)
    ensures
        ops_view(final(out)@) == ops_view(old(out)@) + ct@.input_signals.map_values(
            |inp: Seq<char>| TraceOpV::Arg { name: inp, value: Some(value_or_zero(signals_map(cin@), inp)) },
        ),
{
    let ghost base = ops_view(out@);
    let ghost ins = ct@.input_signals;
    let ghost cm = signals_map(cin@);
    let ghost f = |inp: Seq<char>| TraceOpV::Arg { name: inp, value: Some(value_or_zero(cm, inp)) };
    let mut i: usize = 0;
    while i < ct.input_signals.len()
        invariant
            i <= ct.input_signals@.len(),
            ins == ct@.input_signals,
            ins.len() == ct.input_signals@.len(),
            cm == signals_map(cin@),
            f == (|inp: Seq<char>| TraceOpV::Arg { name: inp, value: Some(value_or_zero(cm, inp)) }),
            ops_view(out@) == base + ins.take(i as int).map_values(f),
        decreases ct.input_signals.len() - i,
    {
        let inp = &ct.input_signals[i];
        assert(ins[i as int] == inp@);
        let v = match signal_get(cin, inp.as_str()) {
            Some(x) => x,
            None => 0,
        };
        push_op(out, TraceOp::Arg { name: copy_string(inp), value: Some(v) });
        assert(ins.take(i + 1).map_values(f) =~= ins.take(i as int).map_values(f).push(f(inp@)));
        i += 1;
    }
    assert(ins.take(ins.len() as int) =~= ins);
}

/// `a` followed by `b`.
fn concat_exec(a: &str, b: &str) -> (r: String)
    ensures
        r@ == a@ + b@,
{
    let mut cs = str_chars(a);
    let bs = str_chars(b);
    crate::text::append_chars(&mut cs, &bs);
    string_from_chars(&cs)
}

/// `a.`.
fn dot_suffix(a: &str) -> (r: String)
    ensures
        r@ == a@ + seq!['.'],
{
    let mut cs = str_chars(a);
    cs.push('.');
    string_from_chars(&cs)
}

/// The trace `first` followed by what `rest` gives; `None` where it gives
/// none.
pub open spec fn then_ops(first: Seq<TraceOpV>, rest: Option<Seq<TraceOpV>>) -> Option<Seq<TraceOpV>> {
    match rest {
        None => None,
        Some(r) => Some(first + r),
    }
}

/// Appends the trace of evaluating template `tname` with sub-component
/// nesting bounded by `fuel` (see `plan_eval`) and gives the values of its
/// output signals (none where no template has that name); `None` where
/// the bound or the evaluation fails.
#[verifier::rlimit(100)]
fn push_evaluated_ops(
    ts: &Vec<Template>,
    defs: &[TemplateDef],
    tname: &String,
    prefix: &String,
    inputs: Vec<(String, i64)>,
    args: Vec<i64>,
    out: &mut Vec<TraceOp>,
    fuel: u64,
) -> (outputs: Option<Vec<(String, i64)>>)
    ensures
        outputs is Some <==> plan_eval(
            crate::parser::templates_view(ts@),
            def_names(template_defs_view(defs@)),
            tname@,
            prefix@,
            signals_map(inputs@),
            args@,
            fuel as nat,
        ) is Some,
        outputs matches Some(o) ==> ops_view(final(out)@) == ops_view(old(out)@) + plan_eval(
            crate::parser::templates_view(ts@),
            def_names(template_defs_view(defs@)),
            tname@,
            prefix@,
            signals_map(inputs@),
            args@,
            fuel as nat,
        )->0 && match template_named(crate::parser::templates_view(ts@), tname@) {
            None => o@.len() == 0,
            Some(t) => signals_map(o@) == eval_template(
                t,
                crate::parser::templates_view(ts@),
                signals_map(inputs@),
                args@,
                fuel as nat,
            )->Some_0.1,
        },
    decreases fuel,
{
    let ghost tsv = crate::parser::templates_view(ts@);
    let ghost names = def_names(template_defs_view(defs@));
    let ghost im = signals_map(inputs@);
    let ghost av = args@;
    let ghost base = ops_view(out@);
    if fuel == 0 {
        return None;
    }
    let t = match crate::evaluator::find_template(ts, tname) {
        None => {
            assert(ops_view(out@) =~= base + Seq::<TraceOpV>::empty());
            return Some(Vec::new());
        },
        Some(t) => t,
    };
    let ctx = EvalContext { templates: ts, input_signals: inputs, generic_args: args };
    let res = match evaluate_template_within(t, &ctx, fuel) {
        None => {
            return None;
        },
        Some(x) => x,
    };
    let ghost evsv = events_view(res.events@);
    assert(evsv == eval_template(t@, tsv, im, av, fuel as nat)->Some_0.0);
    assert(signals_map(res.outputs@) == eval_template(t@, tsv, im, av, fuel as nat)->Some_0.1);
    let ghost f1 = (fuel - 1) as nat;
    let evs = &res.events;
    let mut used: Vec<String> = Vec::new();
    let mut i: usize = 0;
    let ghost mut acc: Seq<TraceOpV> = Seq::empty();
    assert(strs(used@) =~= Seq::<Seq<char>>::empty());
    assert(ops_view(out@) =~= base + acc);
    assert(then_ops(acc, plan_events(tsv, names, prefix@, evsv, 0, strs(used@), f1)) == plan_events(
        tsv,
        names,
        prefix@,
        evsv,
        0,
        Seq::empty(),
        f1,
    )) by {
        match plan_events(tsv, names, prefix@, evsv, 0, strs(used@), f1) {
            Some(r) => {
                assert(acc + r =~= r);
            },
            None => {},
        }
    }
    while i < evs.len()
        invariant
            i <= evs@.len(),
            fuel > 0,
            f1 == fuel - 1,
            tsv == crate::parser::templates_view(ts@),
            names == def_names(template_defs_view(defs@)),
            evsv == events_view(evs@),
            template_named(tsv, tname@) == Some(t@),
            im == signals_map(inputs@),
            av == args@,
            eval_template(t@, tsv, im, av, fuel as nat) is Some,
            evsv == eval_template(t@, tsv, im, av, fuel as nat)->Some_0.0,
            ops_view(out@) == base + acc,
            plan_events(tsv, names, prefix@, evsv, 0, Seq::empty(), f1) == then_ops(
                acc,
                plan_events(tsv, names, prefix@, evsv, i as int, strs(used@), f1),
            ),
        decreases evs.len() - i,
    {
        let ghost before = ops_view(out@);
        let ghost acc0 = acc;
        let ghost u0 = strs(used@);
        let ghost rest = plan_events(tsv, names, prefix@, evsv, i + 1, u0, f1);
        let e = &evs[i];
        assert(evsv[i as int] == e@);
        match &e.kind {
            EvalEventKind::Step => {
                push_op(out, TraceOp::Step { line: e.line });
                proof {
                    acc = acc0 + seq![TraceOpV::Step { line: e.line }];
                    assert(ops_view(out@) =~= base + acc);
                    match rest {
                        Some(r) => {
                            assert(acc0 + (seq![TraceOpV::Step { line: e.line }] + r) =~= acc + r);
                        },
                        None => {},
                    }
                }
            },
            EvalEventKind::Variable { name, value } => {
                push_op(out, TraceOp::Step { line: e.line });
                push_op(out, TraceOp::Variable { name: concat_exec(prefix.as_str(), name.as_str()), value: *value });
                proof {
                    let here = seq![
                        TraceOpV::Step { line: e.line },
                        TraceOpV::Variable { name: prefix@ + name@, value: *value },
                    ];
                    acc = acc0 + here;
                    assert(ops_view(out@) =~= base + acc);
                    match rest {
                        Some(r) => {
                            assert(acc0 + (here + r) =~= acc + r);
                        },
                        None => {},
                    }
                }
            },
            EvalEventKind::Wire { .. } => {
                proof {
                    match rest {
                        Some(r) => {
                            assert(Seq::<TraceOpV>::empty() + r =~= r);
                        },
                        None => {},
                    }
                }
            },
            EvalEventKind::ComponentEnter { comp_name, template, args } => {
                push_op(out, TraceOp::Step { line: e.line });
                if contains_def_name(defs, template.as_str()) {
                    let cin = if contains_text(&used, comp_name.as_str()) {
                        let v: Vec<(String, i64)> = Vec::new();
                        assert(signals_pairs(v@) =~= Seq::<(Seq<char>, i64)>::empty());
                        v
                    } else {
                        collect_wires(evs, comp_name.as_str())
                    };
                    let ghost cmap = signals_map(cin@);
                    match crate::evaluator::find_template(ts, template) {
                        Some(ct) => {
                            push_child_args(ct, &cin, out);
                        },
                        None => {},
                    }
                    let ghost head = seq![TraceOpV::Step { line: e.line }] + child_args(tsv, template@, cmap)
                        + seq![TraceOpV::Call { function: template@ }];
                    push_op(out, TraceOp::Call { function: copy_string(template) });
                    assert(ops_view(out@) =~= before + head);
                    let child_prefix = dot_suffix(comp_name.as_str());
                    let ghost mid = ops_view(out@);
                    let child = push_evaluated_ops(ts, defs, template, &child_prefix, cin, crate::evaluator::copy_ints(args), out, fuel - 1);
                    if child.is_none() {
                        proof {
                            assert(plan_eval(tsv, names, template@, comp_name@ + seq!['.'], cmap, args@, f1) is None);
                            assert(plan_events(tsv, names, prefix@, evsv, i as int, u0, f1) is None);
                            assert(plan_events(tsv, names, prefix@, evsv, 0, Seq::empty(), f1) is None);
                            assert(template_named(tsv, tname@) == Some(t@));
                            assert(eval_template(t@, tsv, im, av, fuel as nat) is Some);
                            assert(plan_eval(tsv, names, tname@, prefix@, im, av, fuel as nat) is None);
                        }
                        return None;
                    }
                    let ghost sub = plan_eval(tsv, names, template@, comp_name@ + seq!['.'], cmap, args@, f1)->0;
                    push_op(out, TraceOp::Return);
                    used.push(copy_string(comp_name));
                    proof {
                        assert(strs(used@) =~= u0.push(comp_name@));
                        let here = head + sub + seq![TraceOpV::Return];
                        let rest2 = plan_events(tsv, names, prefix@, evsv, i + 1, strs(used@), f1);
                        acc = acc0 + here;
                        assert(ops_view(out@) =~= mid + sub + seq![TraceOpV::Return]);
                        assert(ops_view(out@) =~= base + acc);
                        match rest2 {
                            Some(r) => {
                                assert(acc0 + (here + r) =~= acc + r);
                            },
                            None => {},
                        }
                    }
                } else {
                    proof {
                        acc = acc0 + seq![TraceOpV::Step { line: e.line }];
                        assert(ops_view(out@) =~= base + acc);
                        match rest {
                            Some(r) => {
                                assert(acc0 + (seq![TraceOpV::Step { line: e.line }] + r) =~= acc + r);
                            },
                            None => {},
                        }
                    }
                }
            },
        }
        i += 1;
    }
    proof {
        assert(acc + Seq::<TraceOpV>::empty() =~= acc);
    }
    Some(res.outputs)
}

// ----- the whole trace ----------------------------------------------------------------

/// The templates that the structured parser finds in a source text.
pub open spec fn parsed_templates(src: Seq<u8>) -> Seq<TemplateV> {
    crate::grammar::templates_from(crate::lexer::lex(src, 0, 1), 0, Seq::empty())
}

/// The main template's input signals, each with its recorded value or 0.
pub open spec fn main_inputs(t: TemplateV, values: Map<Seq<char>, i64>) -> Seq<(Seq<char>, i64)> {
    t.input_signals.map_values(|n: Seq<char>| (n, value_or_zero(values, n)))
}

/// The trace of a program: every template defined registered as a
/// function; then, from the file-scope component, a step at its line and,
/// where its template is defined, a call of it with its inputs' recorded
/// values (or 0) as arguments, the trace of its evaluation and a return.
/// Without a file-scope component, or where its template is not defined,
/// the flat trace follows instead.  `None` where the evaluation fails or
/// needs deeper nesting than `fuel`.
pub open spec fn source_plan(
    ts: Seq<TemplateV>,
    signals: Seq<SignalDeclV>,
    assigns: Seq<SignalAssignmentV>,
    defs: Seq<TemplateDefV>,
    comps: Seq<ComponentInstanceV>,
    values: Map<Seq<char>, i64>,
    fuel: nat,
) -> Option<Seq<TraceOpV>> {
    let head = function_ops(defs);
    match crate::tracer::first_root(comps, 0) {
        None => Some(head + flat_plan(signals, assigns, defs, comps, values)),
        Some(m) => {
            let main = comps[m];
            let step = seq![TraceOpV::Step { line: main.line }];
            if !def_names(defs).contains(main.template_name) {
                Some(head + step + flat_plan(signals, assigns, defs, comps, values))
            } else {
                let call = seq![TraceOpV::Call { function: main.template_name }];
                match template_named(ts, main.template_name) {
                    None => Some(head + step + call + seq![TraceOpV::Return]),
                    Some(t) => match plan_eval(
                        ts,
                        def_names(defs),
                        main.template_name,
                        Seq::empty(),
                        pairs_map(main_inputs(t, values)),
                        main.template_args,
                        fuel,
                    ) {
                        None => None,
                        Some(body) => Some(
                            head + step + t.input_signals.map_values(
                                |n: Seq<char>|
                                    TraceOpV::Arg { name: n, value: Some(value_or_zero(values, n)) },
                            ) + call + body + seq![TraceOpV::Return],
                        ),
                    },
                }
            }
        },
    }
}

/// The plan of a whole trace does not depend on the nesting bound once it
/// is enough.
pub proof fn lemma_source_plan_fuel(
    ts: Seq<TemplateV>,
    signals: Seq<SignalDeclV>,
    assigns: Seq<SignalAssignmentV>,
    defs: Seq<TemplateDefV>,
    comps: Seq<ComponentInstanceV>,
    values: Map<Seq<char>, i64>,
    f: nat,
    g: nat,
)
    requires
        f <= g,
        source_plan(ts, signals, assigns, defs, comps, values, f) is Some,
    ensures
        source_plan(ts, signals, assigns, defs, comps, values, g) == source_plan(
            ts,
            signals,
            assigns,
            defs,
            comps,
            values,
            f,
        ),
{
    match crate::tracer::first_root(comps, 0) {
        None => {},
        Some(m) => {
            let main = comps[m];
            match template_named(ts, main.template_name) {
                None => {},
                Some(t) => {
                    if def_names(defs).contains(main.template_name) {
                        lemma_plan_eval_fuel(
                            ts,
                            def_names(defs),
                            main.template_name,
                            Seq::empty(),
                            pairs_map(main_inputs(t, values)),
                            main.template_args,
                            f,
                            g,
                        );
                    }
                },
            }
        },
    }
}

fn first_root_exec(cs: &[ComponentInstance]) -> (r: Option<usize>)
    ensures
        match r {
            Some(m) => crate::tracer::first_root(components_view(cs@), 0) == Some(m as int) && m
                < cs@.len(),
            None => crate::tracer::first_root(components_view(cs@), 0) is None,
        },
{
    let ghost cv = components_view(cs@);
    let mut i: usize = 0;
    while i < cs.len()
        invariant
            i <= cs@.len(),
            cv == components_view(cs@),
            crate::tracer::first_root(cv, 0) == crate::tracer::first_root(cv, i as int),
        decreases cs.len() - i,
    {
        assert(cv[i as int] == cs@[i as int]@);
        if cs[i].parent_template.is_none() {
            return Some(i);
        }
        i += 1;
    }
    None
}

/// The main template's input signals with their recorded values, or 0.
fn main_inputs_exec(t: &Template, values: &Vec<(String, i64)>) -> (r: Vec<(String, i64)>)
    ensures
        signals_pairs(r@) == main_inputs(t@, signals_map(values@)),
{
    let ghost ins = t@.input_signals;
    let ghost vm = signals_map(values@);
    let mut r: Vec<(String, i64)> = Vec::new();
    let mut i: usize = 0;
    while i < t.input_signals.len()
        invariant
            i <= t.input_signals@.len(),
            ins == t@.input_signals,
            ins.len() == t.input_signals@.len(),
            vm == signals_map(values@),
            signals_pairs(r@) == ins.take(i as int).map_values(
                |n: Seq<char>| (n, value_or_zero(vm, n)),
            ),
        decreases t.input_signals.len() - i,
    {
        let n = &t.input_signals[i];
        assert(ins[i as int] == n@);
        let v = match signal_get(values, n.as_str()) {
            Some(x) => x,
            None => 0,
        };
        let ghost prev = r@;
        r.push((copy_string(n), v));
        assert(signals_pairs(r@) =~= signals_pairs(prev).push((n@, v)));
        assert(ins.take(i + 1).map_values(|n: Seq<char>| (n, value_or_zero(vm, n))) =~= ins.take(
            i as int,
        ).map_values(|n: Seq<char>| (n, value_or_zero(vm, n))).push((n@, v)));
        i += 1;
    }
    assert(ins.take(ins.len() as int) =~= ins);
    r
}

/// The trace of a Circom program (see `source_plan`) with sub-component
/// nesting bounded by `fuel`, from its source text, the line scans of it
/// and the recorded signal values; `None` where that bound or the
/// evaluation fails.
#[verifier::rlimit(40)]
pub fn source_trace_ops_within(
    source_code: &str,
    signals: &[SignalDecl],
    assignments: &[SignalAssignment],
    templates: &[TemplateDef],
    component_instances: &[ComponentInstance],
    values: &Vec<(String, i64)>,
    fuel: u64,
) -> (r: Option<Vec<TraceOp>>)
    requires
        crate::lexer::count_newlines(source_code.spec_bytes()) < u32::MAX,
    ensures
        r is Some <==> source_plan(
                parsed_templates(source_code.spec_bytes()),
                decls_view(signals@),
                assignments_view(assignments@),
                template_defs_view(templates@),
                components_view(component_instances@),
                signals_map(values@),
                fuel as nat,
            ) is Some,
        r matches Some(ops) ==> ops_view(ops@) == source_plan(
                parsed_templates(source_code.spec_bytes()),
                decls_view(signals@),
                assignments_view(assignments@),
                template_defs_view(templates@),
                components_view(component_instances@),
                signals_map(values@),
                fuel as nat,
            )->0,
{
    let ghost tsv = parsed_templates(source_code.spec_bytes());
    let ghost sv = decls_view(signals@);
    let ghost asv = assignments_view(assignments@);
    let ghost dv = template_defs_view(templates@);
    let ghost cv = components_view(component_instances@);
    let ghost vm = signals_map(values@);
    let ghost f0 = fuel as nat;
    let mut out: Vec<TraceOp> = Vec::new();
    assert(ops_view(out@) =~= Seq::<TraceOpV>::empty());
    push_function_ops(templates, &mut out);
    let ghost head = ops_view(out@);
    let m = match first_root_exec(component_instances) {
        None => {
            let flat = flat_trace_ops(signals, assignments, templates, component_instances, values);
            let mut out2 = out;
            append_ops(&mut out2, flat);
            return Some(out2);
        },
        Some(m) => m,
    };
    let main = &component_instances[m];
    assert(cv[m as int] == main@);
    push_op(&mut out, TraceOp::Step { line: main.line });
    if !contains_def_name(templates, main.template_name.as_str()) {
        let flat = flat_trace_ops(signals, assignments, templates, component_instances, values);
        append_ops(&mut out, flat);
        return Some(out);
    }
    let parsed = crate::parser::parse_templates(source_code);
    assert(crate::parser::templates_view(parsed@) == tsv);
    match crate::evaluator::find_template(&parsed, &main.template_name) {
        None => {
            push_op(&mut out, TraceOp::Call { function: copy_string(&main.template_name) });
            push_op(&mut out, TraceOp::Return);
            assert(ops_view(out@) =~= source_plan(tsv, sv, asv, dv, cv, vm, f0)->0);
            Some(out)
        },
        Some(t) => {
            let ins = main_inputs_exec(t, values);
            let mut i: usize = 0;
            let ghost step_end = ops_view(out@);
            let ghost argf = |n: Seq<char>| TraceOpV::Arg { name: n, value: Some(value_or_zero(vm, n)) };
            let ghost tin = t@.input_signals;
            while i < t.input_signals.len()
                invariant
                    i <= t.input_signals@.len(),
                    tin == t@.input_signals,
                    tin.len() == t.input_signals@.len(),
                    vm == signals_map(values@),
                    argf == (|n: Seq<char>| TraceOpV::Arg { name: n, value: Some(value_or_zero(vm, n)) }),
                    ops_view(out@) == step_end + tin.take(i as int).map_values(argf),
                decreases t.input_signals.len() - i,
            {
                let n = &t.input_signals[i];
                assert(tin[i as int] == n@);
                let v = match signal_get(values, n.as_str()) {
                    Some(x) => x,
                    None => 0,
                };
                push_op(&mut out, TraceOp::Arg { name: copy_string(n), value: Some(v) });
                assert(tin.take(i + 1).map_values(argf) =~= tin.take(i as int).map_values(argf).push(argf(n@)));
                i += 1;
            }
            assert(tin.take(tin.len() as int) =~= tin);
            push_op(&mut out, TraceOp::Call { function: copy_string(&main.template_name) });
            let empty_prefix = String::new();
            let ghost ins_map = signals_map(ins@);
            assert(ins_map == pairs_map(main_inputs(t@, vm)));
            let ghost before_body = ops_view(out@);
            let main_outputs = push_evaluated_ops(
                &parsed,
                templates,
                &main.template_name,
                &empty_prefix,
                ins,
                crate::evaluator::copy_ints(&main.template_args),
                &mut out,
                fuel,
            );
            assert(empty_prefix@ =~= Seq::<char>::empty());
            if main_outputs.is_none() {
                return None;
            }
            push_op(&mut out, TraceOp::Return);
            assert(ops_view(out@) =~= source_plan(tsv, sv, asv, dv, cv, vm, f0)->0);
            Some(out)
        },
    }
}

/// The trace of a Circom program (see `source_plan`), from its source
/// text, the line scans of it and the recorded signal values.  The nesting
/// of sub-components must be bounded, by a bound that fits in a `u64`.
pub fn source_trace_ops(
    source_code: &str,
    signals: &[SignalDecl],
    assignments: &[SignalAssignment],
    templates: &[TemplateDef],
    component_instances: &[ComponentInstance],
    values: &Vec<(String, i64)>,
) -> (r: Vec<TraceOp>)
    requires
        crate::lexer::count_newlines(source_code.spec_bytes()) < u32::MAX,
        exists|f: nat|
            f <= u64::MAX && #[trigger] source_plan(
                parsed_templates(source_code.spec_bytes()),
                decls_view(signals@),
                assignments_view(assignments@),
                template_defs_view(templates@),
                components_view(component_instances@),
                signals_map(values@),
                f,
            ) is Some,
    ensures
        forall|f: nat|
            #[trigger] source_plan(
                parsed_templates(source_code.spec_bytes()),
                decls_view(signals@),
                assignments_view(assignments@),
                template_defs_view(templates@),
                components_view(component_instances@),
                signals_map(values@),
                f,
            ) is Some ==> ops_view(r@) == source_plan(
                parsed_templates(source_code.spec_bytes()),
                decls_view(signals@),
                assignments_view(assignments@),
                template_defs_view(templates@),
                components_view(component_instances@),
                signals_map(values@),
                f,
            )->0,
{
    let ghost tsv = parsed_templates(source_code.spec_bytes());
    let ghost sv = decls_view(signals@);
    let ghost asv = assignments_view(assignments@);
    let ghost dv = template_defs_view(templates@);
    let ghost cv = components_view(component_instances@);
    let ghost vm = signals_map(values@);
    let ghost f0 = choose|f: nat| f <= u64::MAX && #[trigger] source_plan(tsv, sv, asv, dv, cv, vm, f) is Some;
    proof {
        lemma_source_plan_fuel(tsv, sv, asv, dv, cv, vm, f0, u64::MAX as nat);
    }
    let r = source_trace_ops_within(
        source_code,
        signals,
        assignments,
        templates,
        component_instances,
        values,
        u64::MAX,
    );
    match r {
        Some(ops) => {
            proof {
                assert forall|f: nat| #[trigger] source_plan(tsv, sv, asv, dv, cv, vm, f) is Some implies ops_view(ops@)
                    == source_plan(tsv, sv, asv, dv, cv, vm, f)->0 by {
                    if f <= f0 {
                        lemma_source_plan_fuel(tsv, sv, asv, dv, cv, vm, f, f0);
                    } else {
                        lemma_source_plan_fuel(tsv, sv, asv, dv, cv, vm, f0, f);
                    }
                }
            }
            ops
        },
        None => {
            proof {
                assert(false);
            }
            Vec::new()
        },
    }
}

fn append_ops(out: &mut Vec<TraceOp>, more: Vec<TraceOp>)
    ensures
        ops_view(final(out)@) == ops_view(old(out)@) + ops_view(more@),
{
    let ghost base = ops_view(out@);
    let ghost mv = ops_view(more@);
    let mut more = more;
    let mut rev: Vec<TraceOp> = Vec::new();
    let ghost m0 = more@;
    while more.len() > 0
        invariant
            m0.len() == more@.len() + rev@.len(),
            more@ == m0.take(more@.len() as int),
            forall|j: int| 0 <= j < rev@.len() ==> rev@[j] == m0[m0.len() - 1 - j],
        decreases more.len(),
    {
        let o = more.pop().unwrap();
        rev.push(o);
    }
    while rev.len() > 0
        invariant
            m0.len() == rev@.len() + (ops_view(out@).len() - base.len()),
            ops_view(out@).len() >= base.len(),
            mv == ops_view(m0),
            forall|j: int| 0 <= j < rev@.len() ==> rev@[j] == m0[m0.len() - 1 - j],
            ops_view(out@) == base + mv.take(ops_view(out@).len() - base.len()),
        decreases rev.len(),
    {
        let ghost k = ops_view(out@).len() - base.len();
        let o = rev.pop().unwrap();
        assert(o == m0[k]);
        push_op(out, o);
        assert(mv.take(k + 1) =~= mv.take(k).push(mv[k]));
    }
    assert(mv.take(mv.len() as int) =~= mv);
}

// ----- calls and returns balance ----------------------------------------------------

/// The call depth after playing `ops` from depth `d`; `None` where a
/// return would leave a call that is not open.
pub open spec fn depth_after(ops: Seq<TraceOpV>, d: int) -> Option<int>
    decreases ops.len(),
{
    if ops.len() == 0 {
        Some(d)
    } else {
        let d1 = match ops[0] {
            TraceOpV::Call { .. } => d + 1,
            TraceOpV::Return => d - 1,
            _ => d,
        };
        if d1 < 0 {
            None
        } else {
            depth_after(ops.drop_first(), d1)
        }
    }
}

proof fn lemma_depth_one(o: TraceOpV, d: int)
    ensures
        depth_after(seq![o], d) == {
            let d1 = match o {
                TraceOpV::Call { .. } => d + 1,
                TraceOpV::Return => d - 1,
                _ => d,
            };
            if d1 < 0 {
                None
            } else {
                Some(d1)
            }
        },
{
    assert(seq![o].drop_first() =~= Seq::<TraceOpV>::empty());
    reveal_with_fuel(depth_after, 2);
}

/// An action that neither enters nor leaves a call.
pub open spec fn is_flat(o: TraceOpV) -> bool {
    !(o is Call) && !(o is Return)
}

proof fn lemma_depth_concat(a: Seq<TraceOpV>, b: Seq<TraceOpV>, d: int)
    ensures
        depth_after(a + b, d) == match depth_after(a, d) {
            None => None,
            Some(e) => depth_after(b, e),
        },
    decreases a.len(),
{
    if a.len() == 0 {
        assert(a + b =~= b);
    } else {
        assert((a + b)[0] == a[0]);
        assert((a + b).drop_first() =~= a.drop_first() + b);
        let d1 = match a[0] {
            TraceOpV::Call { .. } => d + 1,
            TraceOpV::Return => d - 1,
            _ => d,
        };
        lemma_depth_concat(a.drop_first(), b, d1);
    }
}

proof fn lemma_depth_flat(a: Seq<TraceOpV>, d: int)
    requires
        d >= 0,
        forall|i: int| 0 <= i < a.len() ==> is_flat(#[trigger] a[i]),
    ensures
        depth_after(a, d) == Some(d),
    decreases a.len(),
{
    if a.len() > 0 {
        assert(is_flat(a[0]));
        assert forall|i: int| 0 <= i < a.drop_first().len() implies is_flat(#[trigger] a.drop_first()[i]) by {
            assert(a.drop_first()[i] == a[i + 1]);
        }
        lemma_depth_flat(a.drop_first(), d);
    }
}

proof fn lemma_depth_returns(n: nat, d: int)
    requires
        d >= n,
    ensures
        depth_after(Seq::new(n, |i: int| TraceOpV::Return), d) == Some(d - n),
    decreases n,
{
    let s = Seq::new(n, |i: int| TraceOpV::Return);
    if n > 0 {
        assert(s.drop_first() =~= Seq::new((n - 1) as nat, |i: int| TraceOpV::Return));
        lemma_depth_returns((n - 1) as nat, d - 1);
    }
}

proof fn lemma_depth_component_calls(
    defs: Seq<TemplateDefV>,
    cs: Seq<ComponentInstanceV>,
    values: Map<Seq<char>, i64>,
    d: int,
)
    requires
        d >= 0,
    ensures
        depth_after(component_calls(defs, cs, values).0, d) == Some(d + component_calls(defs, cs, values).1),
    decreases cs.len(),
{
    if cs.len() > 0 {
        let prev = component_calls(defs, cs.drop_last(), values);
        lemma_depth_component_calls(defs, cs.drop_last(), values, d);
        match def_named(defs, cs.last().template_name) {
            None => {},
            Some(t) => {
                let c = cs.last();
                let args = t.input_signals.map_values(
                    |inp: Seq<char>| TraceOpV::Arg { name: inp, value: lookup(values, input_key(c, inp)) },
                );
                let pre = seq![TraceOpV::Step { line: c.line }] + args;
                assert forall|i: int| 0 <= i < pre.len() implies is_flat(#[trigger] pre[i]) by {
                    if i > 0 {
                        assert(pre[i] == args[i - 1]);
                    }
                }
                lemma_depth_flat(pre, d + prev.1);
                let call = seq![TraceOpV::Call { function: c.template_name }];
                lemma_depth_one(TraceOpV::Call { function: c.template_name }, d + prev.1);
                lemma_depth_concat(pre, call, d + prev.1);
                assert(component_ops(c, t, values) == pre + call);
                lemma_depth_concat(prev.0, component_ops(c, t, values), d);
            },
        }
    }
}

proof fn lemma_depth_assignments(assigns: Seq<SignalAssignmentV>, values: Map<Seq<char>, i64>, d: int)
    requires
        d >= 0,
    ensures
        depth_after(assignment_ops(assigns, values), d) == Some(d),
    decreases assigns.len(),
{
    if assigns.len() > 0 {
        let a = assigns.last();
        lemma_depth_assignments(assigns.drop_last(), values, d);
        let tail = seq![TraceOpV::Step { line: a.line }] + match lookup(values, a.target) {
            Some(v) => seq![TraceOpV::Variable { name: a.target, value: v }],
            None => Seq::empty(),
        };
        assert forall|i: int| 0 <= i < tail.len() implies is_flat(#[trigger] tail[i]) by {}
        lemma_depth_flat(tail, d);
        assert(assignment_ops(assigns, values) =~= assignment_ops(assigns.drop_last(), values) + tail);
        lemma_depth_concat(assignment_ops(assigns.drop_last(), values), tail, d);
    }
}

/// In the flat trace every call entered is left again, and no return
/// leaves a call that is not open.
pub proof fn lemma_flat_plan_balanced(
    signals: Seq<SignalDeclV>,
    assigns: Seq<SignalAssignmentV>,
    defs: Seq<TemplateDefV>,
    comps: Seq<ComponentInstanceV>,
    values: Map<Seq<char>, i64>,
    d: int,
)
    requires
        d >= 0,
    ensures
        depth_after(flat_plan(signals, assigns, defs, comps, values), d) == Some(d),
{
    let ordered = nesting_order(comps).map_values(|k: int| comps[k]);
    let calls = component_calls(defs, ordered, values);
    let fo = function_ops(defs);
    let steps = signals.map_values(|s: SignalDeclV| TraceOpV::Step { line: s.line });
    let ao = assignment_ops(assigns, values);
    let rets = Seq::new(calls.1, |i: int| TraceOpV::Return);
    assert forall|i: int| 0 <= i < fo.len() implies is_flat(#[trigger] fo[i]) by {}
    assert forall|i: int| 0 <= i < steps.len() implies is_flat(#[trigger] steps[i]) by {}
    lemma_depth_flat(fo, d);
    lemma_depth_component_calls(defs, ordered, values, d);
    lemma_depth_flat(steps, d + calls.1);
    lemma_depth_assignments(assigns, values, d + calls.1);
    lemma_depth_returns(calls.1, d + calls.1);
    lemma_depth_concat(fo, calls.0, d);
    lemma_depth_concat(fo + calls.0, steps, d);
    lemma_depth_concat(fo + calls.0 + steps, ao, d);
    lemma_depth_concat(fo + calls.0 + steps + ao, rets, d);
}

/// In the trace of an evaluation every call entered is left again, and no
/// return leaves a call that is not open.
pub proof fn lemma_plan_eval_balanced(
    ts: Seq<TemplateV>,
    names: Seq<Seq<char>>,
    tname: Seq<char>,
    prefix: Seq<char>,
    inputs: Map<Seq<char>, i64>,
    args: Seq<i64>,
    fuel: nat,
    d: int,
)
    requires
        d >= 0,
        plan_eval(ts, names, tname, prefix, inputs, args, fuel) is Some,
    ensures
        depth_after(plan_eval(ts, names, tname, prefix, inputs, args, fuel)->0, d) == Some(d),
    decreases fuel, 0int,
{
    match template_named(ts, tname) {
        None => {},
        Some(t) => {
            let res = eval_template(t, ts, inputs, args, fuel)->Some_0;
            lemma_plan_events_balanced(ts, names, prefix, res.0, 0, Seq::empty(), (fuel - 1) as nat, d);
        },
    }
}

pub proof fn lemma_plan_events_balanced(
    ts: Seq<TemplateV>,
    names: Seq<Seq<char>>,
    prefix: Seq<char>,
    evs: Seq<EventV>,
    i: int,
    used: Seq<Seq<char>>,
    fuel: nat,
    d: int,
)
    requires
        d >= 0,
        plan_events(ts, names, prefix, evs, i, used, fuel) is Some,
    ensures
        depth_after(plan_events(ts, names, prefix, evs, i, used, fuel)->0, d) == Some(d),
    decreases fuel, evs.len() - i,
{
    if 0 <= i < evs.len() {
        let e = evs[i];
        match e.kind {
            EventKindV::ComponentEnter { comp_name, template, args } => {
                if names.contains(template) {
                    let cmap = pairs_map(
                        if used.contains(comp_name) {
                            Seq::empty()
                        } else {
                            wire_pairs(evs, comp_name)
                        },
                    );
                    let sub = plan_eval(ts, names, template, comp_name + seq!['.'], cmap, args, fuel)->0;
                    lemma_plan_eval_balanced(ts, names, template, comp_name + seq!['.'], cmap, args, fuel, d + 1);
                    lemma_plan_events_balanced(ts, names, prefix, evs, i + 1, used.push(comp_name), fuel, d);
                    let pre = seq![TraceOpV::Step { line: e.line }] + child_args(ts, template, cmap);
                    assert forall|k: int| 0 <= k < pre.len() implies is_flat(#[trigger] pre[k]) by {
                        if k > 0 {
                            assert(pre[k] == child_args(ts, template, cmap)[k - 1]);
                        }
                    }
                    lemma_depth_flat(pre, d);
                    let call = seq![TraceOpV::Call { function: template }];
                    let ret = seq![TraceOpV::Return];
                    lemma_depth_one(TraceOpV::Call { function: template }, d);
                    lemma_depth_one(TraceOpV::Return, d + 1);
                    lemma_depth_concat(pre, call, d);
                    lemma_depth_concat(pre + call, sub, d);
                    lemma_depth_concat(pre + call + sub, ret, d);
                    let rest = plan_events(ts, names, prefix, evs, i + 1, used.push(comp_name), fuel)->0;
                    lemma_depth_concat(pre + call + sub + ret, rest, d);
                } else {
                    lemma_plan_events_balanced(ts, names, prefix, evs, i + 1, used, fuel, d);
                    let h = seq![TraceOpV::Step { line: e.line }];
                    lemma_depth_flat(h, d);
                    lemma_depth_concat(h, plan_events(ts, names, prefix, evs, i + 1, used, fuel)->0, d);
                }
            },
            _ => {
                lemma_plan_events_balanced(ts, names, prefix, evs, i + 1, used, fuel, d);
                let h: Seq<TraceOpV> = match e.kind {
                    EventKindV::Step => seq![TraceOpV::Step { line: e.line }],
                    EventKindV::Variable { name, value } => seq![
                        TraceOpV::Step { line: e.line },
                        TraceOpV::Variable { name: prefix + name, value },
                    ],
                    _ => Seq::empty(),
                };
                assert forall|k: int| 0 <= k < h.len() implies is_flat(#[trigger] h[k]) by {}
                lemma_depth_flat(h, d);
                lemma_depth_concat(h, plan_events(ts, names, prefix, evs, i + 1, used, fuel)->0, d);
            },
        }
    }
}

/// In the trace of a program every call entered is left again, and no
/// return leaves a call that is not open.
pub proof fn lemma_source_plan_balanced(
    ts: Seq<TemplateV>,
    signals: Seq<SignalDeclV>,
    assigns: Seq<SignalAssignmentV>,
    defs: Seq<TemplateDefV>,
    comps: Seq<ComponentInstanceV>,
    values: Map<Seq<char>, i64>,
    fuel: nat,
)
    requires
        source_plan(ts, signals, assigns, defs, comps, values, fuel) is Some,
    ensures
        depth_after(source_plan(ts, signals, assigns, defs, comps, values, fuel)->0, 0) == Some(0int),
{
    let head = function_ops(defs);
    assert forall|i: int| 0 <= i < head.len() implies is_flat(#[trigger] head[i]) by {}
    lemma_depth_flat(head, 0int);
    lemma_flat_plan_balanced(signals, assigns, defs, comps, values, 0int);
    let flat = flat_plan(signals, assigns, defs, comps, values);
    match crate::tracer::first_root(comps, 0) {
        None => {
            lemma_depth_concat(head, flat, 0int);
        },
        Some(m) => {
            let main = comps[m];
            let step = seq![TraceOpV::Step { line: main.line }];
            lemma_depth_flat(step, 0int);
            lemma_depth_concat(head, step, 0int);
            if !def_names(defs).contains(main.template_name) {
                lemma_depth_concat(head + step, flat, 0int);
            } else {
                let call = seq![TraceOpV::Call { function: main.template_name }];
                let ret = seq![TraceOpV::Return];
                lemma_depth_one(TraceOpV::Call { function: main.template_name }, 0int);
                lemma_depth_one(TraceOpV::Return, 1int);
                match template_named(ts, main.template_name) {
                    None => {
                        lemma_depth_concat(head + step, call, 0int);
                        lemma_depth_concat(head + step + call, ret, 0int);
                    },
                    Some(t) => {
                        let ins = pairs_map(main_inputs(t, values));
                        let body = plan_eval(ts, def_names(defs), main.template_name, Seq::empty(), ins, main.template_args, fuel)->0;
                        lemma_plan_eval_balanced(ts, def_names(defs), main.template_name, Seq::empty(), ins, main.template_args, fuel, 1int);
                        let argops = t.input_signals.map_values(
                            |n: Seq<char>| TraceOpV::Arg { name: n, value: Some(value_or_zero(values, n)) },
                        );
                        assert forall|i: int| 0 <= i < argops.len() implies is_flat(#[trigger] argops[i]) by {}
                        lemma_depth_flat(argops, 0int);
                        lemma_depth_concat(head + step, argops, 0int);
                        lemma_depth_concat(head + step + argops, call, 0int);
                        lemma_depth_concat(head + step + argops + call, body, 0int);
                        lemma_depth_concat(head + step + argops + call + body, ret, 0int);
                    },
                }
            }
        },
    }
}

// ----- calls are of registered templates ---------------------------------------------

/// Every call among `ops` is of one of `names`.
pub open spec fn calls_within(ops: Seq<TraceOpV>, names: Seq<Seq<char>>) -> bool {
    forall|i: int|
        0 <= i < ops.len() && (#[trigger] ops[i]) is Call ==> names.contains(ops[i]->Call_function)
}

proof fn lemma_calls_concat(a: Seq<TraceOpV>, b: Seq<TraceOpV>, names: Seq<Seq<char>>)
    requires
        calls_within(a, names),
        calls_within(b, names),
    ensures
        calls_within(a + b, names),
{
    assert forall|i: int| 0 <= i < (a + b).len() && (#[trigger] (a + b)[i]) is Call implies names.contains(
        (a + b)[i]->Call_function,
    ) by {
        if i < a.len() {
            assert((a + b)[i] == a[i]);
        } else {
            assert((a + b)[i] == b[i - a.len()]);
        }
    }
}

proof fn lemma_calls_flat(a: Seq<TraceOpV>, names: Seq<Seq<char>>)
    requires
        forall|i: int| 0 <= i < a.len() ==> is_flat(#[trigger] a[i]),
    ensures
        calls_within(a, names),
{
    assert forall|i: int| 0 <= i < a.len() && (#[trigger] a[i]) is Call implies names.contains(
        a[i]->Call_function,
    ) by {
        assert(is_flat(a[i]));
    }
}

proof fn lemma_calls_one(f: Seq<char>, names: Seq<Seq<char>>)
    requires
        names.contains(f),
    ensures
        calls_within(seq![TraceOpV::Call { function: f }], names),
{
}

proof fn lemma_def_named_listed(defs: Seq<TemplateDefV>, name: Seq<char>)
    requires
        def_named(defs, name) is Some,
    ensures
        def_names(defs).contains(name),
    decreases defs.len(),
{
    if defs.last().name == name {
        assert(def_names(defs)[defs.len() - 1] == name);
    } else {
        lemma_def_named_listed(defs.drop_last(), name);
        let q = choose|q: int| 0 <= q < def_names(defs.drop_last()).len() && def_names(defs.drop_last())[q] == name;
        assert(def_names(defs)[q] == name);
    }
}

proof fn lemma_calls_component_calls(
    defs: Seq<TemplateDefV>,
    cs: Seq<ComponentInstanceV>,
    values: Map<Seq<char>, i64>,
)
    ensures
        calls_within(component_calls(defs, cs, values).0, def_names(defs)),
    decreases cs.len(),
{
    if cs.len() > 0 {
        let prev = component_calls(defs, cs.drop_last(), values);
        lemma_calls_component_calls(defs, cs.drop_last(), values);
        match def_named(defs, cs.last().template_name) {
            None => {},
            Some(t) => {
                let c = cs.last();
                lemma_def_named_listed(defs, c.template_name);
                let args = t.input_signals.map_values(
                    |inp: Seq<char>| TraceOpV::Arg { name: inp, value: lookup(values, input_key(c, inp)) },
                );
                let pre = seq![TraceOpV::Step { line: c.line }] + args;
                assert forall|i: int| 0 <= i < pre.len() implies is_flat(#[trigger] pre[i]) by {
                    if i > 0 {
                        assert(pre[i] == args[i - 1]);
                    }
                }
                lemma_calls_flat(pre, def_names(defs));
                lemma_calls_one(c.template_name, def_names(defs));
                lemma_calls_concat(pre, seq![TraceOpV::Call { function: c.template_name }], def_names(defs));
                assert(component_ops(c, t, values) == pre + seq![TraceOpV::Call { function: c.template_name }]);
                lemma_calls_concat(prev.0, component_ops(c, t, values), def_names(defs));
            },
        }
    }
}

proof fn lemma_calls_flat_plan(
    signals: Seq<SignalDeclV>,
    assigns: Seq<SignalAssignmentV>,
    defs: Seq<TemplateDefV>,
    comps: Seq<ComponentInstanceV>,
    values: Map<Seq<char>, i64>,
)
    ensures
        calls_within(flat_plan(signals, assigns, defs, comps, values), def_names(defs)),
{
    let names = def_names(defs);
    let ordered = nesting_order(comps).map_values(|k: int| comps[k]);
    let calls = component_calls(defs, ordered, values);
    let fo = function_ops(defs);
    let steps = signals.map_values(|s: SignalDeclV| TraceOpV::Step { line: s.line });
    let ao = assignment_ops(assigns, values);
    let rets = Seq::new(calls.1, |i: int| TraceOpV::Return);
    assert forall|i: int| 0 <= i < fo.len() implies is_flat(#[trigger] fo[i]) by {}
    assert forall|i: int| 0 <= i < steps.len() implies is_flat(#[trigger] steps[i]) by {}
    lemma_calls_flat(fo, names);
    lemma_calls_flat(steps, names);
    lemma_calls_component_calls(defs, ordered, values);
    lemma_calls_assignments(assigns, values, names);
    assert(calls_within(rets, names));
    lemma_calls_concat(fo, calls.0, names);
    lemma_calls_concat(fo + calls.0, steps, names);
    lemma_calls_concat(fo + calls.0 + steps, ao, names);
    lemma_calls_concat(fo + calls.0 + steps + ao, rets, names);
}

proof fn lemma_calls_assignments(assigns: Seq<SignalAssignmentV>, values: Map<Seq<char>, i64>, names: Seq<Seq<char>>)
    ensures
        calls_within(assignment_ops(assigns, values), names),
    decreases assigns.len(),
{
    if assigns.len() > 0 {
        let a = assigns.last();
        lemma_calls_assignments(assigns.drop_last(), values, names);
        let tail = seq![TraceOpV::Step { line: a.line }] + match lookup(values, a.target) {
            Some(v) => seq![TraceOpV::Variable { name: a.target, value: v }],
            None => Seq::empty(),
        };
        assert forall|i: int| 0 <= i < tail.len() implies is_flat(#[trigger] tail[i]) by {}
        lemma_calls_flat(tail, names);
        assert(assignment_ops(assigns, values) =~= assignment_ops(assigns.drop_last(), values) + tail);
        lemma_calls_concat(assignment_ops(assigns.drop_last(), values), tail, names);
    }
}

proof fn lemma_calls_plan_eval(
    ts: Seq<TemplateV>,
    names: Seq<Seq<char>>,
    tname: Seq<char>,
    prefix: Seq<char>,
    inputs: Map<Seq<char>, i64>,
    args: Seq<i64>,
    fuel: nat,
)
    requires
        plan_eval(ts, names, tname, prefix, inputs, args, fuel) is Some,
    ensures
        calls_within(plan_eval(ts, names, tname, prefix, inputs, args, fuel)->0, names),
    decreases fuel, 0int,
{
    match template_named(ts, tname) {
        None => {},
        Some(t) => {
            let res = eval_template(t, ts, inputs, args, fuel)->Some_0;
            lemma_calls_plan_events(ts, names, prefix, res.0, 0, Seq::empty(), (fuel - 1) as nat);
        },
    }
}

proof fn lemma_calls_plan_events(
    ts: Seq<TemplateV>,
    names: Seq<Seq<char>>,
    prefix: Seq<char>,
    evs: Seq<EventV>,
    i: int,
    used: Seq<Seq<char>>,
    fuel: nat,
)
    requires
        plan_events(ts, names, prefix, evs, i, used, fuel) is Some,
    ensures
        calls_within(plan_events(ts, names, prefix, evs, i, used, fuel)->0, names),
    decreases fuel, evs.len() - i,
{
    if 0 <= i < evs.len() {
        let e = evs[i];
        match e.kind {
            EventKindV::ComponentEnter { comp_name, template, args } => {
                if names.contains(template) {
                    let cmap = pairs_map(
                        if used.contains(comp_name) {
                            Seq::empty()
                        } else {
                            wire_pairs(evs, comp_name)
                        },
                    );
                    let sub = plan_eval(ts, names, template, comp_name + seq!['.'], cmap, args, fuel)->0;
                    lemma_calls_plan_eval(ts, names, template, comp_name + seq!['.'], cmap, args, fuel);
                    lemma_calls_plan_events(ts, names, prefix, evs, i + 1, used.push(comp_name), fuel);
                    let pre = seq![TraceOpV::Step { line: e.line }] + child_args(ts, template, cmap);
                    assert forall|k: int| 0 <= k < pre.len() implies is_flat(#[trigger] pre[k]) by {
                        if k > 0 {
                            assert(pre[k] == child_args(ts, template, cmap)[k - 1]);
                        }
                    }
                    lemma_calls_flat(pre, names);
                    let call = seq![TraceOpV::Call { function: template }];
                    let ret = seq![TraceOpV::Return];
                    lemma_calls_one(template, names);
                    assert(calls_within(ret, names));
                    lemma_calls_concat(pre, call, names);
                    lemma_calls_concat(pre + call, sub, names);
                    lemma_calls_concat(pre + call + sub, ret, names);
                    let rest = plan_events(ts, names, prefix, evs, i + 1, used.push(comp_name), fuel)->0;
                    lemma_calls_concat(pre + call + sub + ret, rest, names);
                } else {
                    lemma_calls_plan_events(ts, names, prefix, evs, i + 1, used, fuel);
                    let h = seq![TraceOpV::Step { line: e.line }];
                    lemma_calls_flat(h, names);
                    lemma_calls_concat(h, plan_events(ts, names, prefix, evs, i + 1, used, fuel)->0, names);
                }
            },
            _ => {
                lemma_calls_plan_events(ts, names, prefix, evs, i + 1, used, fuel);
                let h: Seq<TraceOpV> = match e.kind {
                    EventKindV::Step => seq![TraceOpV::Step { line: e.line }],
                    EventKindV::Variable { name, value } => seq![
                        TraceOpV::Step { line: e.line },
                        TraceOpV::Variable { name: prefix + name, value },
                    ],
                    _ => Seq::empty(),
                };
                assert forall|k: int| 0 <= k < h.len() implies is_flat(#[trigger] h[k]) by {}
                lemma_calls_flat(h, names);
                lemma_calls_concat(h, plan_events(ts, names, prefix, evs, i + 1, used, fuel)->0, names);
            },
        }
    }
}

/// The trace of a program opens by registering every defined template,
/// and calls only defined templates: every call is of a template
/// registered before it.
pub proof fn lemma_source_plan_calls_registered(
    ts: Seq<TemplateV>,
    signals: Seq<SignalDeclV>,
    assigns: Seq<SignalAssignmentV>,
    defs: Seq<TemplateDefV>,
    comps: Seq<ComponentInstanceV>,
    values: Map<Seq<char>, i64>,
    fuel: nat,
)
    requires
        source_plan(ts, signals, assigns, defs, comps, values, fuel) is Some,
    ensures
        source_plan(ts, signals, assigns, defs, comps, values, fuel)->0.take(defs.len() as int)
            == function_ops(defs),
        calls_within(source_plan(ts, signals, assigns, defs, comps, values, fuel)->0, def_names(defs)),
{
    let names = def_names(defs);
    let head = function_ops(defs);
    let ops = source_plan(ts, signals, assigns, defs, comps, values, fuel)->0;
    assert forall|i: int| 0 <= i < head.len() implies is_flat(#[trigger] head[i]) by {}
    lemma_calls_flat(head, names);
    lemma_calls_flat_plan(signals, assigns, defs, comps, values);
    let flat = flat_plan(signals, assigns, defs, comps, values);
    let rest: Seq<TraceOpV> = match crate::tracer::first_root(comps, 0) {
        None => flat,
        Some(m) => {
            let main = comps[m];
            let step = seq![TraceOpV::Step { line: main.line }];
            assert forall|i: int| 0 <= i < step.len() implies is_flat(#[trigger] step[i]) by {}
            lemma_calls_flat(step, names);
            if !names.contains(main.template_name) {
                lemma_calls_concat(step, flat, names);
                step + flat
            } else {
                let call = seq![TraceOpV::Call { function: main.template_name }];
                let ret = seq![TraceOpV::Return];
                lemma_calls_one(main.template_name, names);
                assert(calls_within(ret, names));
                match template_named(ts, main.template_name) {
                    None => {
                        lemma_calls_concat(step, call, names);
                        lemma_calls_concat(step + call, ret, names);
                        step + call + ret
                    },
                    Some(t) => {
                        let ins = pairs_map(main_inputs(t, values));
                        let body = plan_eval(ts, names, main.template_name, Seq::empty(), ins, main.template_args, fuel)->0;
                        lemma_calls_plan_eval(ts, names, main.template_name, Seq::empty(), ins, main.template_args, fuel);
                        let argops = t.input_signals.map_values(
                            |n: Seq<char>| TraceOpV::Arg { name: n, value: Some(value_or_zero(values, n)) },
                        );
                        assert forall|i: int| 0 <= i < argops.len() implies is_flat(#[trigger] argops[i]) by {}
                        lemma_calls_flat(argops, names);
                        lemma_calls_concat(step, argops, names);
                        lemma_calls_concat(step + argops, call, names);
                        lemma_calls_concat(step + argops + call, body, names);
                        lemma_calls_concat(step + argops + call + body, ret, names);
                        step + argops + call + body + ret
                    },
                }
            }
        },
    };
    lemma_calls_concat(head, rest, names);
    assert(ops =~= head + rest);
    assert((head + rest).take(defs.len() as int) =~= head);
}

} // verus!
