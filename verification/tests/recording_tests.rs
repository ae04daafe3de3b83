use codetracer_circom_recorder::recording::{
    check_all_inputs_set, check_signal_size, out_dir_source, InputSetError, OutDirSource,
    main_witness_inputs, map_symbol_values, recording_disabled, resolve_out_dir,
    signal_hash_parts, srcmap_unsupported, WitnessLog,
};
use codetracer_circom_recorder::tracer::{fnv_hash, parse_sym_content};

#[test]
fn symbol_values_come_from_the_witness() {
    let symbols = parse_sym_content("1,1,0,main.out\n2,-1,0,main.adder.a\n9,-1,0,main.gone\n").unwrap();
    let witness = vec![vec![1u8], vec![42u8, 0, 0, 0], vec![7u8]];
    let (values, full) = map_symbol_values(&symbols, &witness);
    assert_eq!(values, vec![("out".to_string(), 42), ("adder.a".to_string(), 7)]);
    assert_eq!(full, vec![("main.out".to_string(), 42), ("main.adder.a".to_string(), 7)]);
}

#[test]
fn hash_parts_split_the_fnv_hash() {
    let h = fnv_hash("in");
    let (hi, lo) = signal_hash_parts("in");
    assert_eq!(hi, (h >> 32) as i32);
    assert_eq!(lo, (h & 0xFFFF_FFFF) as i32);
    assert_ne!((hi, lo), signal_hash_parts("out"));
}

#[test]
fn log_lines_are_gathered() {
    let mut log = WitnessLog::new();
    log.on_message("\n");
    log.on_message("input");
    log.append_log_part("0");
    log.on_message("\n");
    log.on_message("out");
    log.on_message("1");
    assert_eq!(log.logs, vec!["input 0".to_string()]);
    assert_eq!(log.buffer, "out 1");
    assert_eq!(log.finish(), vec!["input 0".to_string(), "out 1".to_string()]);
}

#[test]
fn srcmap_complaints_are_recognised() {
    assert!(srcmap_unsupported("error: unexpected argument '--srcmap' found"));
    assert!(srcmap_unsupported("unrecognized option"));
    assert!(!srcmap_unsupported("error[P1012]: parse error"));
}

#[test]
fn recording_switch_values() {
    assert!(recording_disabled(Some("1")));
    assert!(recording_disabled(Some(" TRUE ")));
    assert!(recording_disabled(Some("tRuE")));
    assert!(!recording_disabled(Some("0")));
    assert!(!recording_disabled(Some("yes")));
    assert!(!recording_disabled(Some("")));
    assert!(!recording_disabled(None));
}

#[test]
fn out_dir_choice() {
    assert_eq!(resolve_out_dir(Some("cli".to_string()), Some("env".to_string())), "cli");
    assert_eq!(resolve_out_dir(None, Some("env".to_string())), "env");
    assert_eq!(resolve_out_dir(None, Some(String::new())), "./ct-traces/");
    assert_eq!(resolve_out_dir(None, None), "./ct-traces/");
}

#[test]
fn witness_inputs_of_the_main_template() {
    let source = "template Sum(n) {\n  signal input in[n];\n  signal input k;\n  signal output s;\n}\ncomponent main = Sum(3);\n";
    let mut inputs = main_witness_inputs(source).unwrap();
    inputs.sort();
    assert_eq!(
        inputs,
        vec![
            ("in".to_string(), vec!["0".to_string(); 3]),
            ("k".to_string(), vec!["0".to_string()]),
        ]
    );
    // A dimension bracket left open at the end cannot be read.
    assert!(main_witness_inputs("template T() {\n  signal input a[\n}\ncomponent main = T();\n").is_none());
}

#[test]
fn signal_size_must_match() {
    assert_eq!(check_signal_size("in", 2, 2), Ok(()));
    let e = check_signal_size("in", 3, 2).unwrap_err();
    assert_eq!(e, InputSetError::SizeMismatch { signal: "in".to_string(), expected: 3, got: 2 });
    assert_eq!(e.message(), "Signal 'in' expects 3 values, got 2");
}

#[test]
fn every_input_must_be_set() {
    assert_eq!(check_all_inputs_set(4, 4), Ok(()));
    assert_eq!(check_all_inputs_set(5, 4), Ok(()));
    let e = check_all_inputs_set(3, 10).unwrap_err();
    assert_eq!(e, InputSetError::NotAllSet { set: 3, total: 10 });
    assert_eq!(e.message(), "Not all inputs set: 3 out of 10");
}

#[test]
fn out_dir_source_prefers_flag_then_environment() {
    assert_eq!(out_dir_source(true, Some(4)), OutDirSource::Flag);
    assert_eq!(out_dir_source(false, Some(4)), OutDirSource::Environment);
    assert_eq!(out_dir_source(false, Some(0)), OutDirSource::Default);
    assert_eq!(out_dir_source(false, None), OutDirSource::Default);
}
