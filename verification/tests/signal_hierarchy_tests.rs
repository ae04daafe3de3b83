use codetracer_circom_recorder::signal_hierarchy::{build_hierarchy, SignalPath};

// -- SignalPath parsing tests --

#[test]
fn test_parse_simple_signal() {
    let path = SignalPath::parse("main.out");
    assert_eq!(path.depth(), 2);
    assert_eq!(path.components[0].name, "main");
    assert_eq!(path.components[0].index, None);
    assert_eq!(path.components[1].name, "out");
    assert_eq!(path.components[1].index, None);
    assert_eq!(path.leaf_name(), "out");
    assert_eq!(path.leaf_index(), None);
    assert_eq!(path.full_name(), "main.out");
}

#[test]
fn test_parse_sub_component_signal() {
    let path = SignalPath::parse("main.adder.out");
    assert_eq!(path.depth(), 3);
    assert_eq!(path.components[0].name, "main");
    assert_eq!(path.components[1].name, "adder");
    assert_eq!(path.components[2].name, "out");
    assert_eq!(path.leaf_name(), "out");
    assert_eq!(path.full_name(), "main.adder.out");
}

#[test]
fn test_parse_deep_hierarchy() {
    let path = SignalPath::parse("main.a.b.c.signal");
    assert_eq!(path.depth(), 5);
    assert_eq!(path.components[1].name, "a");
    assert_eq!(path.components[2].name, "b");
    assert_eq!(path.components[3].name, "c");
    assert_eq!(path.leaf_name(), "signal");
}

#[test]
fn test_parse_array_signal() {
    let path = SignalPath::parse("main.values[0]");
    assert_eq!(path.depth(), 2);
    assert_eq!(path.components[1].name, "values");
    assert_eq!(path.components[1].index, Some(0));
    assert_eq!(path.leaf_name(), "values");
    assert_eq!(path.leaf_index(), Some(0));
    assert_eq!(path.full_name(), "main.values[0]");
}

#[test]
fn test_parse_array_in_sub_component() {
    let path = SignalPath::parse("main.comp.arr[3]");
    assert_eq!(path.depth(), 3);
    assert_eq!(path.components[1].name, "comp");
    assert_eq!(path.components[1].index, None);
    assert_eq!(path.components[2].name, "arr");
    assert_eq!(path.components[2].index, Some(3));
}

#[test]
fn test_parse_single_component() {
    let path = SignalPath::parse("out");
    assert_eq!(path.depth(), 1);
    assert_eq!(path.leaf_name(), "out");
    assert_eq!(path.parent(), None);
}

#[test]
fn test_parent_path() {
    let path = SignalPath::parse("main.adder.out");
    let parent = path.parent().unwrap();
    assert_eq!(parent.full_name(), "main.adder");
    let grandparent = parent.parent().unwrap();
    assert_eq!(grandparent.full_name(), "main");
    assert_eq!(grandparent.parent(), None);
}

#[test]
fn test_component_path() {
    let path = SignalPath::parse("main.adder.out");
    let comp_path = path.component_path();
    assert_eq!(comp_path.len(), 1);
    assert_eq!(comp_path[0].name, "adder");

    let path2 = SignalPath::parse("main.out");
    assert!(path2.component_path().is_empty());

    let path3 = SignalPath::parse("main.a.b.signal");
    let comp_path3 = path3.component_path();
    assert_eq!(comp_path3.len(), 2);
    assert_eq!(comp_path3[0].name, "a");
    assert_eq!(comp_path3[1].name, "b");
}

// -- SignalHierarchy tests --

#[test]
fn test_build_simple_hierarchy() {
    let signals = vec![
        ("main.a".to_string(), 10),
        ("main.b".to_string(), 20),
        ("main.out".to_string(), 30),
    ];
    let hierarchy = build_hierarchy(&signals);
    let sigs = hierarchy.get_signals_for_component(&["main"]);
    assert_eq!(sigs.len(), 3);
    assert!(sigs.contains(&("a".to_string(), 10)));
    assert!(sigs.contains(&("b".to_string(), 20)));
    assert!(sigs.contains(&("out".to_string(), 30)));
}

#[test]
fn test_build_hierarchy_with_sub_components() {
    let signals = vec![
        ("main.in".to_string(), 5),
        ("main.adder.a".to_string(), 10),
        ("main.adder.b".to_string(), 20),
        ("main.adder.out".to_string(), 30),
        ("main.out".to_string(), 30),
    ];
    let hierarchy = build_hierarchy(&signals);

    let main_sigs = hierarchy.get_signals_for_component(&["main"]);
    assert_eq!(main_sigs.len(), 2);
    assert!(main_sigs.contains(&("in".to_string(), 5)));
    assert!(main_sigs.contains(&("out".to_string(), 30)));

    let adder_sigs = hierarchy.get_signals_for_component(&["main", "adder"]);
    assert_eq!(adder_sigs.len(), 3);
    assert!(adder_sigs.contains(&("a".to_string(), 10)));
    assert!(adder_sigs.contains(&("b".to_string(), 20)));
    assert!(adder_sigs.contains(&("out".to_string(), 30)));

    let children = hierarchy.get_child_components(&["main"]);
    assert!(children.contains(&"adder".to_string()));
}

#[test]
fn test_hierarchy_with_arrays() {
    let signals = vec![
        ("main.values[0]".to_string(), 100),
        ("main.values[1]".to_string(), 200),
        ("main.values[2]".to_string(), 300),
        ("main.out".to_string(), 600),
    ];
    let hierarchy = build_hierarchy(&signals);

    let arr = hierarchy.get_array_signals(&["main"], "values");
    assert_eq!(arr.len(), 3);
    assert_eq!(arr[0], (0, 100));
    assert_eq!(arr[1], (1, 200));
    assert_eq!(arr[2], (2, 300));
}

#[test]
fn test_hierarchy_nested_with_arrays() {
    let signals = vec![
        ("main.comp.items[0]".to_string(), 1),
        ("main.comp.items[1]".to_string(), 2),
        ("main.comp.result".to_string(), 3),
    ];
    let hierarchy = build_hierarchy(&signals);

    let comp_sigs = hierarchy.get_signals_for_component(&["main", "comp"]);
    assert_eq!(comp_sigs.len(), 3);

    let arr = hierarchy.get_array_signals(&["main", "comp"], "items");
    assert_eq!(arr.len(), 2);
    assert_eq!(arr[0], (0, 1));
    assert_eq!(arr[1], (1, 2));
}

#[test]
fn test_nonexistent_component() {
    let signals = vec![("main.a".to_string(), 1)];
    let hierarchy = build_hierarchy(&signals);
    let sigs = hierarchy.get_signals_for_component(&["main", "nonexistent"]);
    assert!(sigs.is_empty());
    let children = hierarchy.get_child_components(&["main", "nonexistent"]);
    assert!(children.is_empty());
}

#[test]
fn test_flatten_hierarchy() {
    let signals = vec![
        ("main.a".to_string(), 10),
        ("main.adder.out".to_string(), 30),
    ];
    let hierarchy = build_hierarchy(&signals);
    let flat = hierarchy.flatten();
    assert_eq!(flat.len(), 2);
    let names: Vec<&str> = flat.iter().map(|(n, _)| n.as_str()).collect();
    assert!(names.contains(&"main.a"));
    assert!(names.contains(&"main.adder.out"));
}

// -- further cases --

#[test]
fn full_name_of_parsed_path_reads_back() {
    for name in ["main.out", "main.adder.out", "main.values[12]", "main.comp.arr[3]", "x"] {
        let path = SignalPath::parse(name);
        assert_eq!(path.full_name(), name);
        assert_eq!(SignalPath::parse(&path.full_name()), path);
    }
}

#[test]
fn index_that_is_not_a_number_is_dropped() {
    let path = SignalPath::parse("main.values[x]");
    assert_eq!(path.components[1].name, "values");
    assert_eq!(path.components[1].index, None);
    assert_eq!(path.full_name(), "main.values");
}

#[test]
fn every_signal_is_found_under_its_component() {
    let signals = vec![
        ("main.in".to_string(), 5),
        ("main.adder.inner.x".to_string(), 7),
        ("main.adder.a".to_string(), 10),
    ];
    let hierarchy = build_hierarchy(&signals);
    assert_eq!(hierarchy.get_signals_for_component(&["main"]), vec![("in".to_string(), 5)]);
    assert_eq!(
        hierarchy.get_signals_for_component(&["main", "adder", "inner"]),
        vec![("x".to_string(), 7)]
    );
    assert_eq!(
        hierarchy.get_signals_for_component(&["adder"]),
        vec![("a".to_string(), 10)]
    );
    assert_eq!(hierarchy.get_child_components(&["main", "adder"]), vec!["inner".to_string()]);
}

#[test]
fn array_signals_come_sorted_by_index() {
    let signals = vec![
        ("main.v[2]".to_string(), 30),
        ("main.v[0]".to_string(), 10),
        ("main.v[1]".to_string(), 20),
        ("main.w[0]".to_string(), 99),
    ];
    let hierarchy = build_hierarchy(&signals);
    assert_eq!(hierarchy.get_array_signals(&["main"], "v"), vec![(0, 10), (1, 20), (2, 30)]);
}

#[test]
fn flattening_a_built_hierarchy_gives_back_its_signals() {
    let signals = vec![
        ("main.in".to_string(), 5),
        ("main.adder.inner.x".to_string(), 7),
        ("main.values[1]".to_string(), 2),
        ("main.adder.a".to_string(), 10),
        ("main.in".to_string(), 5),
    ];
    let hierarchy = build_hierarchy(&signals);
    let mut flat = hierarchy.flatten();
    let mut given = signals.clone();
    flat.sort();
    given.sort();
    assert_eq!(flat, given);
}

#[test]
fn root_and_nodes_hold_their_signals() {
    let signals = vec![
        ("main.in".to_string(), 5),
        ("main.adder.a".to_string(), 10),
        ("main.adder.inner.x".to_string(), 7),
    ];
    let hierarchy = build_hierarchy(&signals);
    let root = hierarchy.root();
    assert_eq!(root.name, "main");
    assert!(root.path.is_empty());
    assert_eq!(root.signals, vec![("in".to_string(), 5)]);
    let nodes = hierarchy.nodes();
    assert_eq!(nodes.len(), 3);
    assert_eq!(nodes[1].name, "adder");
    assert_eq!(nodes[1].path, vec!["adder".to_string()]);
    assert_eq!(nodes[1].signals, vec![("a".to_string(), 10)]);
    assert_eq!(nodes[2].name, "inner");
    assert_eq!(nodes[2].path, vec!["adder".to_string(), "inner".to_string()]);
    assert_eq!(nodes[2].signals, vec![("x".to_string(), 7)]);
}

#[test]
fn component_names_are_cut_before_an_index() {
    let signals = vec![("main.arr[2].out".to_string(), 1)];
    let hierarchy = build_hierarchy(&signals);
    let nodes = hierarchy.nodes();
    assert_eq!(nodes.len(), 2);
    assert_eq!(nodes[1].name, "arr");
    assert_eq!(hierarchy.get_signals_for_component(&["main", "arr"]), vec![("out".to_string(), 1)]);
}

#[test]
fn unknown_component_has_no_children() {
    let signals = vec![("main.adder.inner.x".to_string(), 7)];
    let hierarchy = build_hierarchy(&signals);
    assert!(hierarchy.get_child_components(&["main", "nowhere"]).is_empty());
    assert_eq!(hierarchy.get_child_components(&["main"]), vec!["adder".to_string()]);
}
