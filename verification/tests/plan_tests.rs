use codetracer_circom_recorder::plan::{
    flat_trace_ops, source_trace_ops, source_trace_ops_within, TraceOp,
};
use codetracer_circom_recorder::tracer::{
    parse_component_instances, parse_signal_assignments, parse_signal_declarations,
    parse_template_definitions, ComponentInstance,
};

fn show(ops: &[TraceOp]) -> Vec<String> {
    ops.iter()
        .map(|o| match o {
            TraceOp::Function { name, line } => format!("fn {name}@{line}"),
            TraceOp::Step { line } => format!("step {line}"),
            TraceOp::Arg { name, value } => format!("arg {name}={value:?}"),
            TraceOp::Call { function } => format!("call {function}"),
            TraceOp::Variable { name, value } => format!("var {name}={value}"),
            TraceOp::Return => "return".to_string(),
        })
        .collect()
}

fn trace(source: &str, values: &[(&str, i64)]) -> Vec<String> {
    let values: Vec<(String, i64)> = values.iter().map(|(n, v)| (n.to_string(), *v)).collect();
    let ops = source_trace_ops(
        source,
        &parse_signal_declarations(source),
        &parse_signal_assignments(source),
        &parse_template_definitions(source),
        &parse_component_instances(source),
        &values,
    );
    show(&ops)
}

fn balanced(ops: &[String]) -> bool {
    let mut depth: i64 = 0;
    for o in ops {
        if o.starts_with("call ") {
            depth += 1;
        } else if o == "return" {
            depth -= 1;
            if depth < 0 {
                return false;
            }
        }
    }
    depth == 0
}

const NESTED: &str = "template Add5() {\n\
    signal input x;\n\
    signal output y;\n\
    y <== x + 5;\n\
}\n\
template Main() {\n\
    signal input a;\n\
    signal output out;\n\
    component c = Add5();\n\
    c.x <== a;\n\
    out <== c.y;\n\
}\n\
component main = Main();\n";

#[test]
fn structured_trace_calls_main_then_its_component() {
    let ops = trace(NESTED, &[("a", 3)]);
    assert_eq!(&ops[..5], &["fn Add5@1", "fn Main@6", "step 13", "arg a=Some(3)", "call Main"]);
    assert_eq!(ops.last().unwrap(), "return");
    assert!(balanced(&ops));
    let enter = ops.iter().position(|o| o == "step 9").unwrap();
    assert_eq!(&ops[enter + 1..enter + 3], &["arg x=Some(3)", "call Add5"]);
    assert!(ops.contains(&"var c.y=8".to_string()));
    assert!(ops.contains(&"var out=8".to_string()));
    assert_eq!(ops.iter().filter(|o| o.starts_with("call ")).count(), 2);
}

#[test]
fn main_inputs_without_a_recorded_value_are_zero() {
    let ops = trace(NESTED, &[]);
    assert_eq!(ops[3], "arg a=Some(0)");
    assert!(ops.contains(&"var out=5".to_string()));
}

#[test]
fn without_a_main_component_the_flat_trace_follows() {
    let source = "template A() {\n  signal input a;\n  signal output b;\n  b <== a;\n}\n";
    let ops = trace(source, &[("b", 7)]);
    assert_eq!(ops, vec!["fn A@1", "fn A@1", "step 2", "step 3", "step 4", "var b=7"]);
}

#[test]
fn main_of_an_undefined_template_gets_the_flat_trace() {
    let source = "component main = Missing();\n";
    let ops = trace(source, &[]);
    assert_eq!(ops, vec!["step 1"]);
}

#[test]
fn flat_trace_calls_components_in_nesting_order() {
    let source = "template Inner() {\n  signal input i;\n}\n\
                  template Outer() {\n  signal input o;\n  component inner = Inner();\n  o <== 1;\n}\n\
                  component main = Outer();\n";
    let signals = parse_signal_declarations(source);
    let assigns = parse_signal_assignments(source);
    let defs = parse_template_definitions(source);
    let comps: Vec<ComponentInstance> = parse_component_instances(source);
    let values = vec![("o".to_string(), 1), ("inner.i".to_string(), 4)];
    let ops = show(&flat_trace_ops(&signals, &assigns, &defs, &comps, &values));
    assert_eq!(
        ops,
        vec![
            "fn Inner@1", "fn Outer@4",
            "step 9", "arg o=Some(1)", "call Outer",
            "step 6", "arg i=Some(4)", "call Inner",
            "step 2", "step 5",
            "step 7", "var o=1",
            "return", "return",
        ]
    );
}

#[test]
fn every_call_is_of_a_template_registered_before_it() {
    for ops in [trace(NESTED, &[("a", 3)]), trace("component main = Missing();\n", &[])] {
        for (i, o) in ops.iter().enumerate() {
            if let Some(name) = o.strip_prefix("call ") {
                let registered = ops[..i].iter().any(|p| p.starts_with(&format!("fn {name}@")));
                assert!(registered, "call of {name} at {i} comes before its registration");
            }
        }
    }
}

#[test]
fn trace_within_a_nesting_bound() {
    let values = vec![("a".to_string(), 3)];
    let within = |fuel: u64| {
        source_trace_ops_within(
            NESTED,
            &parse_signal_declarations(NESTED),
            &parse_signal_assignments(NESTED),
            &parse_template_definitions(NESTED),
            &parse_component_instances(NESTED),
            &values,
            fuel,
        )
    };
    assert!(within(0).is_none());
    assert!(within(1).is_none());
    let ops = within(2).unwrap();
    assert_eq!(show(&ops), trace(NESTED, &[("a", 3)]));
    assert_eq!(show(&within(50).unwrap()), show(&ops));
}
