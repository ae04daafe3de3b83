use codetracer_circom_recorder::evaluator::{
    collect_components, evaluate_template, evaluate_template_within, EvalContext, EvalEventKind,
};
use codetracer_circom_recorder::value::Env;
use codetracer_circom_recorder::parser::parse_templates;

fn evaluate(src: &str, inputs: Vec<(String, i64)>, args: Vec<i64>) -> codetracer_circom_recorder::evaluator::EvalResult {
    let templates = parse_templates(src);
    let ctx = EvalContext { templates: &templates, input_signals: inputs, generic_args: args };
    evaluate_template(&templates[templates.len() - 1], &ctx)
}

#[test]
fn parse_simple_template() {
    let src = "template Foo() {\n  signal output x;\n  x <== 42;\n}\n";
    let templates = parse_templates(src);
    assert_eq!(templates.len(), 1);
    assert_eq!(templates[0].name, "Foo");
    assert_eq!(templates[0].body.len(), 2);
}

#[test]
fn evaluate_constants() {
    let src = "template Foo() {\n  signal output x;\n  x <== 6 + 7;\n}\n";
    let templates = parse_templates(src);
    let ctx = EvalContext { templates: &templates, input_signals: Vec::new(), generic_args: Vec::new() };
    let result = evaluate_template(&templates[0], &ctx);
    assert_eq!(result.output("x"), Some(13));
}

#[test]
fn evaluate_for_loop() {
    let src = "template Foo() {\n  signal output total;\n  var acc = 0;\n  for (var i = 0; i < 5; i++) {\n    acc = acc + i * 2;\n  }\n  total <== acc;\n}\n";
    let templates = parse_templates(src);
    let ctx = EvalContext { templates: &templates, input_signals: Vec::new(), generic_args: Vec::new() };
    let result = evaluate_template(&templates[0], &ctx);
    assert_eq!(result.output("total"), Some(20));
}

#[test]
fn evaluate_if() {
    let src = "template Foo() {\n  signal output b;\n  var s = 7;\n  var x;\n  if (s > 5) {\n    x = 100;\n  } else {\n    x = 1;\n  }\n  b <== x;\n}\n";
    let templates = parse_templates(src);
    let ctx = EvalContext { templates: &templates, input_signals: Vec::new(), generic_args: Vec::new() };
    let result = evaluate_template(&templates[0], &ctx);
    assert_eq!(result.output("b"), Some(100));
}

#[test]
fn inputs_and_generic_arguments_drive_the_evaluation() {
    let src = "template Sum(n) {\n  signal input a;\n  signal output s;\n  var acc = a;\n  for (var i = 0; i < n; i++) {\n    acc += i;\n  }\n  s <== acc;\n}\n";
    let result = evaluate(src, vec![("a".to_string(), 10)], vec![4]);
    assert_eq!(result.output("s"), Some(16));
    assert_eq!(result.output("a"), None);
}

#[test]
fn sub_component_outputs_reach_the_parent() {
    let src = "template Add5() {\n  signal input x;\n  signal output y;\n  y <== x + 5;\n}\n\
               template Main() {\n  signal output out;\n  component c = Add5();\n  c.x <== 2;\n  out <== c.y * 3;\n}\n";
    let result = evaluate(src, Vec::new(), Vec::new());
    assert_eq!(result.output("out"), Some(21));
    let mut entered = false;
    let mut wired = false;
    for e in &result.events {
        match &e.kind {
            EvalEventKind::ComponentEnter { comp_name, template, .. } => {
                assert_eq!(comp_name, "c");
                assert_eq!(template, "Add5");
                assert_eq!(e.line, 8);
                entered = true;
            }
            EvalEventKind::Wire { comp_name, signal_name, value } => {
                assert_eq!((comp_name.as_str(), signal_name.as_str(), *value), ("c", "x", 2));
                wired = true;
            }
            _ => {}
        }
    }
    assert!(entered && wired);
}

#[test]
fn division_by_zero_gives_zero() {
    let src = "template D() {\n  signal output q;\n  var z = 0;\n  q <== 7 / z;\n}\n";
    let result = evaluate(src, Vec::new(), Vec::new());
    assert_eq!(result.output("q"), Some(0));
}

#[test]
fn first_pass_reads_wires_where_they_stand() {
    let src = "template Main() {\n  signal input a;\n  var k = 3;\n  component c = Add(k);\n  c.x <== k + 1;\n  k = 10;\n  c.x <== k;\n  if (k > 5) {\n    component d = Add(k, 2);\n  }\n}\n";
    let templates = parse_templates(src);
    let mut env = Env::new();
    let mut decls = Vec::new();
    let mut wires = Vec::new();
    collect_components(&templates[0].body, &mut env, &mut decls, &mut wires);
    assert_eq!(
        decls,
        vec![("c".to_string(), "Add".to_string(), vec![3]), ("d".to_string(), "Add".to_string(), vec![10, 2])]
    );
    assert_eq!(wires, vec![("c".to_string(), "x".to_string(), 4), ("c".to_string(), "x".to_string(), 10)]);
    assert_eq!(env.get_int("k"), Some(10));
}

#[test]
fn evaluation_within_a_nesting_bound() {
    let src = "template Add5() {\n  signal input x;\n  signal output y;\n  y <== x + 5;\n}\n\
               template Main() {\n  signal output out;\n  component c = Add5();\n  c.x <== 2;\n  out <== c.y * 3;\n}\n";
    let templates = parse_templates(src);
    let ctx = EvalContext { templates: &templates, input_signals: Vec::new(), generic_args: Vec::new() };
    assert!(evaluate_template_within(&templates[1], &ctx, 0).is_none());
    assert!(evaluate_template_within(&templates[1], &ctx, 1).is_none());
    let result = evaluate_template_within(&templates[1], &ctx, 2).unwrap();
    assert_eq!(result.output("out"), Some(21));
    assert_eq!(result.events.len(), evaluate_template(&templates[1], &ctx).events.len());
}
