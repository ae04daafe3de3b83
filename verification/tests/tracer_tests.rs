use codetracer_circom_recorder::signal_hierarchy::build_hierarchy;
use codetracer_circom_recorder::tracer::{
    bigint_to_i64, bind_generic_args, build_witness_inputs, find_main_template_args,
    find_main_template_name, find_template_generic_params, find_template_input_decls,
    fnv_hash, from_array32_le, order_components_by_nesting, parse_component_instances,
    parse_signal_assignments, parse_signal_declarations, parse_signal_hierarchy,
    parse_sym_content, parse_template_definitions, resolve_dim, split_array_dims,
    to_array32_le, ComponentInstance, SignalKind,
};

/// A number's little-endian bytes without trailing zero bytes (one zero
/// byte for 0).
fn le_bytes(v: u64) -> Vec<u8> {
    let mut b = v.to_le_bytes().to_vec();
    while b.len() > 1 && *b.last().unwrap() == 0 {
        b.pop();
    }
    b
}

/// The number that little-endian bytes stand for (trailing zeros allowed).
fn le_number(b: &[u8]) -> u128 {
    let mut v: u128 = 0;
    for (i, byte) in b.iter().enumerate() {
        if *byte != 0 {
            assert!(i < 16);
            v += (*byte as u128) << (8 * i);
        }
    }
    v
}

#[test]
fn test_fnv_hash_consistency() {
    let h = fnv_hash("in");
    assert_ne!(h, 0, "FNV hash should be non-zero");
    assert_eq!(fnv_hash("in"), fnv_hash("in"));
    assert_ne!(fnv_hash("in"), fnv_hash("out"));
}

#[test]
fn fnv_hash_known_values() {
    assert_eq!(fnv_hash(""), 0xCBF2_9CE4_8422_2325);
    assert_eq!(fnv_hash("a"), 0xAF63_DC4C_8601_EC8C);
}

#[test]
fn test_bigint_conversions() {
    for v in [42u64, 0, u64::MAX] {
        let arr = to_array32_le(&le_bytes(v), 8);
        assert_eq!(arr.len(), 8);
        let roundtrip = from_array32_le(&arr);
        assert_eq!(le_number(&roundtrip), v as u128);
    }
}

#[test]
fn limbs_split_the_number_low_first() {
    let arr = to_array32_le(&le_bytes(0x0000_0001_0000_0002), 3);
    assert_eq!(arr, vec![2, 1, 0]);
    assert_eq!(from_array32_le(&[2, 1]), vec![2, 0, 0, 0, 1, 0, 0, 0]);
    // Limbs past `size` are dropped.
    assert_eq!(to_array32_le(&le_bytes(u64::MAX), 1), vec![u32::MAX]);
}

#[test]
fn test_bigint_to_i64() {
    assert_eq!(bigint_to_i64(&le_bytes(0)), 0);
    assert_eq!(bigint_to_i64(&le_bytes(42)), 42);
    assert_eq!(bigint_to_i64(&le_bytes(94)), 94);
    assert_eq!(bigint_to_i64(&le_bytes(i64::MAX as u64)), i64::MAX);
}

#[test]
fn bigint_too_large_for_i64_shows_as_zero() {
    assert_eq!(bigint_to_i64(&le_bytes(i64::MAX as u64 + 1)), 0);
    let mut big = vec![0u8; 32];
    big[31] = 1;
    assert_eq!(bigint_to_i64(&big), 0);
    // Trailing zero bytes do not change the number.
    assert_eq!(bigint_to_i64(&[7, 0, 0, 0, 0, 0, 0, 0, 0, 0]), 7);
}

#[test]
fn test_parse_signal_declarations() {
    let source = r#"
template FlowTest() {
    signal input in;
    signal a;
    signal b;
    signal output out;
}
"#;
    let signals = parse_signal_declarations(source);
    assert_eq!(signals.len(), 4);
    assert_eq!(signals[0].name, "in");
    assert_eq!(signals[0].kind, SignalKind::Input);
    assert_eq!(signals[1].name, "a");
    assert_eq!(signals[1].kind, SignalKind::Intermediate);
    assert_eq!(signals[2].name, "b");
    assert_eq!(signals[2].kind, SignalKind::Intermediate);
    assert_eq!(signals[3].name, "out");
    assert_eq!(signals[3].kind, SignalKind::Output);
}

#[test]
fn signal_declaration_lines_are_one_based() {
    let signals = parse_signal_declarations("\nsignal input x;\n\nsignal output y;\n");
    assert_eq!(signals.len(), 2);
    assert_eq!(signals[0].line, 2);
    assert_eq!(signals[1].line, 4);
}

#[test]
fn test_parse_signal_assignments() {
    let source = r#"
    a <== 10;
    b <== 32;
    sum_val <== a + b;
    doubled <== sum_val * 2;
    out <== doubled + a;
"#;
    let assignments = parse_signal_assignments(source);
    assert_eq!(assignments.len(), 5);
    assert_eq!(assignments[0].target, "a");
    assert_eq!(assignments[1].target, "b");
    assert_eq!(assignments[2].target, "sum_val");
    assert_eq!(assignments[3].target, "doubled");
    assert_eq!(assignments[4].target, "out");
    assert_eq!(assignments[0].line, 2);
}

#[test]
fn test_parse_template_definitions() {
    let source = "template FlowTest() {\n}\n";
    let templates = parse_template_definitions(source);
    assert_eq!(templates.len(), 1);
    assert_eq!(templates[0].name, "FlowTest");
    assert_eq!(templates[0].line, 1);
    assert!(templates[0].input_signals.is_empty());
}

#[test]
fn test_parse_template_definitions_collects_input_signals() {
    let source = "template Adder() {\n\
                  \x20\x20\x20\x20signal input a;\n\
                  \x20\x20\x20\x20signal input b;\n\
                  \x20\x20\x20\x20signal output out;\n\
                  \x20\x20\x20\x20out <== a + b;\n\
                  }\n\
                  template Outer() {\n\
                  \x20\x20\x20\x20signal input x;\n\
                  \x20\x20\x20\x20signal output y;\n\
                  \x20\x20\x20\x20y <== x;\n\
                  }\n";
    let templates = parse_template_definitions(source);
    assert_eq!(templates.len(), 2);
    assert_eq!(templates[0].name, "Adder");
    assert_eq!(templates[0].input_signals, vec!["a".to_string(), "b".to_string()]);
    assert_eq!(templates[1].name, "Outer");
    assert_eq!(templates[1].input_signals, vec!["x".to_string()]);
}

#[test]
fn test_parse_component_instances() {
    let source = "template ComponentTest() {\n\
                  \x20\x20\x20\x20component adder = Adder();\n\
                  }\n\
                  component main = ComponentTest();\n";
    let components = parse_component_instances(source);
    assert_eq!(
        components,
        vec![
            ComponentInstance {
                name: "adder".to_string(),
                template_name: "Adder".to_string(),
                line: 2,
                parent_template: Some("ComponentTest".to_string()),
                template_args: Vec::new(),
            },
            ComponentInstance {
                name: "main".to_string(),
                template_name: "ComponentTest".to_string(),
                line: 4,
                parent_template: None,
                template_args: Vec::new(),
            },
        ]
    );
}

#[test]
fn component_instance_arguments_are_read_as_integers() {
    let components = parse_component_instances("component main = Num2Bits(4, n, -2);\n");
    assert_eq!(components.len(), 1);
    assert_eq!(components[0].template_args, vec![4, 0, -2]);
}

fn instance(name: &str, template: &str, line: u32, parent: Option<&str>) -> ComponentInstance {
    ComponentInstance {
        name: name.to_string(),
        template_name: template.to_string(),
        line,
        parent_template: parent.map(|p| p.to_string()),
        template_args: Vec::new(),
    }
}

#[test]
fn test_order_components_by_nesting_three_deep_chain() {
    let inner = instance("inner", "Inner", 24, Some("Middle"));
    let middle = instance("middle", "Middle", 31, Some("NestedTemplate"));
    let main = instance("main", "NestedTemplate", 35, None);
    let components = vec![inner.clone(), middle.clone(), main.clone()];

    let ordered = order_components_by_nesting(&components);
    let names: Vec<&str> = ordered.iter().map(|c| c.name.as_str()).collect();
    assert_eq!(names, vec!["main", "middle", "inner"]);
}

#[test]
fn test_order_components_by_nesting_two_siblings() {
    let add5 = instance("add5", "Add5", 33, Some("SignalHierarchy"));
    let mul2 = instance("mul2", "Mul2", 34, Some("SignalHierarchy"));
    let main = instance("main", "SignalHierarchy", 41, None);
    let components = vec![add5.clone(), mul2.clone(), main.clone()];

    let ordered = order_components_by_nesting(&components);
    let names: Vec<&str> = ordered.iter().map(|c| c.name.as_str()).collect();
    assert_eq!(names, vec!["main", "add5", "mul2"]);
}

#[test]
fn unreached_components_follow_in_source_order_and_none_is_lost() {
    let a = instance("a", "A", 1, Some("Elsewhere"));
    let b = instance("b", "B", 2, Some("Top"));
    let c = instance("c", "C", 3, Some("Nowhere"));
    let main = instance("main", "Top", 4, None);
    let components = vec![a, b, c, main];
    let ordered = order_components_by_nesting(&components);
    let names: Vec<&str> = ordered.iter().map(|c| c.name.as_str()).collect();
    assert_eq!(names, vec!["main", "b", "a", "c"]);

    // Without a file-scope component, source order is kept.
    let only = vec![instance("x", "X", 1, Some("T")), instance("y", "Y", 2, Some("T"))];
    let names: Vec<String> = order_components_by_nesting(&only).iter().map(|c| c.name.clone()).collect();
    assert_eq!(names, vec!["x".to_string(), "y".to_string()]);
}

#[test]
fn test_parse_sym_file() {
    let entries = parse_sym_content("1,1,0,main.out\n2,-1,0,main.in\n3,-1,0,main.a\n").unwrap();
    assert_eq!(entries.len(), 3);
    assert_eq!(entries[0].witness_index, 1);
    assert_eq!(entries[0].name, "out");
    assert_eq!(entries[1].witness_index, 2);
    assert_eq!(entries[1].name, "in");
    assert_eq!(entries[2].witness_index, 3);
    assert_eq!(entries[2].name, "a");
}

#[test]
fn test_parse_sym_file_with_sub_components() {
    let entries = parse_sym_content(
        "1,1,0,main.out\n2,-1,0,main.adder.a\n3,-1,0,main.adder.b\n4,2,0,main.adder.out\n",
    )
    .unwrap();
    assert_eq!(entries.len(), 4);
    assert_eq!(entries[0].name, "out");
    assert_eq!(entries[0].full_name, "main.out");
    assert_eq!(entries[1].name, "adder.a");
    assert_eq!(entries[1].full_name, "main.adder.a");
    assert_eq!(entries[2].name, "adder.b");
    assert_eq!(entries[2].full_name, "main.adder.b");
    assert_eq!(entries[3].name, "adder.out");
    assert_eq!(entries[3].full_name, "main.adder.out");
}

#[test]
fn test_parse_sym_file_with_arrays() {
    let entries = parse_sym_content(
        "1,-1,0,main.values[0]\n2,-1,0,main.values[1]\n3,-1,0,main.values[2]\n4,1,0,main.out\n",
    )
    .unwrap();
    assert_eq!(entries.len(), 4);
    assert_eq!(entries[0].name, "values[0]");
    assert_eq!(entries[1].name, "values[1]");
    assert_eq!(entries[2].name, "values[2]");
    assert_eq!(entries[3].name, "out");
}

#[test]
fn sym_line_with_a_bad_index_is_refused() {
    let err = parse_sym_content("1,1,0,main.out\nx,1,0,main.in\n").unwrap_err();
    assert_eq!(err.line, "x,1,0,main.in");
    // Short lines are skipped.
    let entries = parse_sym_content("1,1\n\n5,1,0,main.z\n").unwrap();
    assert_eq!(entries.len(), 1);
    assert_eq!(entries[0].witness_index, 5);
}

#[test]
fn test_parse_signal_hierarchy_simple() {
    let path = parse_signal_hierarchy("main.out");
    assert_eq!(path.depth(), 2);
    assert_eq!(path.leaf_name(), "out");
}

#[test]
fn test_parse_signal_hierarchy_sub_component() {
    let path = parse_signal_hierarchy("main.adder.out");
    assert_eq!(path.depth(), 3);
    assert_eq!(path.components[1].name, "adder");
    assert_eq!(path.leaf_name(), "out");
    let comp_path = path.component_path();
    assert_eq!(comp_path.len(), 1);
    assert_eq!(comp_path[0].name, "adder");
}

#[test]
fn test_parse_signal_hierarchy_array() {
    let path = parse_signal_hierarchy("main.values[0]");
    assert_eq!(path.depth(), 2);
    assert_eq!(path.leaf_name(), "values");
    assert_eq!(path.leaf_index(), Some(0));
}

#[test]
fn test_parse_signal_hierarchy_deep() {
    let path = parse_signal_hierarchy("main.component.sub_signal");
    assert_eq!(path.depth(), 3);
    assert_eq!(path.components[0].name, "main");
    assert_eq!(path.components[1].name, "component");
    assert_eq!(path.components[2].name, "sub_signal");
    assert_eq!(path.full_name(), "main.component.sub_signal");
}

#[test]
fn test_build_hierarchy_from_sym_entries() {
    let signals = vec![
        ("main.in".to_string(), 5),
        ("main.adder.a".to_string(), 10),
        ("main.adder.b".to_string(), 20),
        ("main.adder.out".to_string(), 30),
        ("main.out".to_string(), 30),
    ];
    let hierarchy = build_hierarchy(&signals);

    let main_sigs = hierarchy.get_signals_for_component(&["main"]);
    assert_eq!(main_sigs.len(), 2);

    let adder_sigs = hierarchy.get_signals_for_component(&["main", "adder"]);
    assert_eq!(adder_sigs.len(), 3);

    let children = hierarchy.get_child_components(&["main"]);
    assert!(children.contains(&"adder".to_string()));
}

#[test]
fn test_build_hierarchy_with_arrays() {
    let signals = vec![
        ("main.values[0]".to_string(), 100),
        ("main.values[1]".to_string(), 200),
        ("main.values[2]".to_string(), 300),
        ("main.out".to_string(), 600),
    ];
    let hierarchy = build_hierarchy(&signals);

    let arr = hierarchy.get_array_signals(&["main"], "values");
    assert_eq!(arr.len(), 3);
    assert_eq!(arr[0], (0, 100));
    assert_eq!(arr[1], (1, 200));
    assert_eq!(arr[2], (2, 300));
}

#[test]
fn main_template_name_and_arguments() {
    let source = "template Num2Bits(n) {\n}\ncomponent main {public [a]} = Num2Bits(8);\n";
    assert_eq!(find_main_template_name(source), Some("Num2Bits".to_string()));
    assert_eq!(find_main_template_args(source), vec![8]);
    assert_eq!(find_main_template_name("template T() {}\n"), None);
    assert_eq!(find_main_template_args("template T() {}\n"), Vec::<i64>::new());
}

#[test]
fn generic_parameters_bind_to_arguments() {
    let source = "template Sum(n, m) {\n  signal input in[n][m];\n}\ncomponent main = Sum(3, 2);\n";
    let params = find_template_generic_params(source, Some("Sum"));
    assert_eq!(params, vec!["n".to_string(), "m".to_string()]);
    let env = bind_generic_args(&params, &[3, 2, 9]);
    assert_eq!(env, vec![("n".to_string(), 3), ("m".to_string(), 2)]);
    assert_eq!(resolve_dim("n", &env), 3);
    assert_eq!(resolve_dim("4", &env), 4);
    assert_eq!(resolve_dim("k", &env), 1);
    let decls = find_template_input_decls(source, Some("Sum"));
    assert_eq!(decls.len(), 1);
    assert_eq!(decls[0].name, "in");
    assert_eq!(decls[0].dims, vec!["n".to_string(), "m".to_string()]);
    let inputs = build_witness_inputs(&decls, &env);
    assert_eq!(inputs.len(), 1);
    assert_eq!(inputs[0].0, "in");
    assert_eq!(inputs[0].1, vec!["0".to_string(); 6]);
}

#[test]
fn array_dimensions_split_off_the_name() {
    assert_eq!(split_array_dims("a"), ("a".to_string(), Vec::<String>::new()));
    assert_eq!(
        split_array_dims("arr[ n ][2]"),
        ("arr".to_string(), vec!["n".to_string(), "2".to_string()])
    );
    assert_eq!(split_array_dims("m[a[1]]"), ("m".to_string(), vec!["a[1]".to_string()]));
}
