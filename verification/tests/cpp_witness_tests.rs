use std::collections::HashMap;

use codetracer_circom_recorder::cpp_witness::{
    input_json_text, parse_wtns, read_wtns, CompilerSourceMap, SrcMapEntry, SrcMapFile, WtnsError,
};

fn entry(template: &str, signal: Option<&str>, line: usize) -> SrcMapEntry {
    SrcMapEntry {
        template_name: template.to_string(),
        signal_name: signal.map(|s| s.to_string()),
        file_id: 0,
        source_line: line,
        source_column: 4,
        generated_function: Some(format!("{template}_0_run")),
        statement_type: Some("substitution".to_string()),
    }
}

#[test]
fn test_compiler_source_map_deserialize() {
    let map = CompilerSourceMap {
        version: 1,
        files: vec![SrcMapFile { id: 0, path: "flow_test.circom".to_string() }],
        mappings: vec![entry("FlowTest", Some("a"), 5), entry("FlowTest", Some("out"), 9)],
    };
    assert_eq!(map.version, 1);
    assert_eq!(map.files.len(), 1);
    assert_eq!(map.files[0].path, "flow_test.circom");
    assert_eq!(map.mappings.len(), 2);

    let entry = map.find_signal("FlowTest", "a").unwrap();
    assert_eq!(entry.source_line, 5);

    let entries = map.entries_for_template("FlowTest");
    assert_eq!(entries.len(), 2);

    assert_eq!(map.file_path(0), Some("flow_test.circom"));
    assert_eq!(map.file_path(99), None);
}

#[test]
fn test_compiler_source_map_find_missing() {
    let map = CompilerSourceMap { version: 1, files: vec![], mappings: vec![] };
    assert!(map.find_signal("Foo", "bar").is_none());
    assert!(map.entries_for_template("Foo").is_empty());
}

#[test]
fn source_map_lookups_take_the_first_match() {
    let map = CompilerSourceMap {
        version: 1,
        files: vec![
            SrcMapFile { id: 3, path: "a.circom".to_string() },
            SrcMapFile { id: 3, path: "b.circom".to_string() },
        ],
        mappings: vec![
            entry("T", None, 1),
            entry("T", Some("x"), 2),
            entry("U", Some("x"), 3),
            entry("T", Some("x"), 4),
        ],
    };
    assert_eq!(map.find_signal("T", "x").unwrap().source_line, 2);
    assert_eq!(map.find_signal("U", "x").unwrap().source_line, 3);
    let lines: Vec<usize> = map.entries_for_template("T").iter().map(|e| e.source_line).collect();
    assert_eq!(lines, vec![1, 2, 4]);
    assert_eq!(map.file_path(3), Some("a.circom"));
}

fn wtns_file(n8: u32, values: &[u32], count: u32) -> Vec<u8> {
    let prime: u32 = 0xFFFF_FFFD;
    let mut data = Vec::new();
    data.extend_from_slice(b"wtns");
    data.extend_from_slice(&2u32.to_le_bytes());
    data.extend_from_slice(&2u32.to_le_bytes());
    data.extend_from_slice(&1u32.to_le_bytes());
    let section1_size = 4 + n8 as u64 + 4;
    data.extend_from_slice(&section1_size.to_le_bytes());
    data.extend_from_slice(&n8.to_le_bytes());
    data.extend_from_slice(&prime.to_le_bytes());
    data.extend_from_slice(&count.to_le_bytes());
    data.extend_from_slice(&2u32.to_le_bytes());
    let section2_size = (values.len() as u32 * n8) as u64;
    data.extend_from_slice(&section2_size.to_le_bytes());
    for v in values {
        data.extend_from_slice(&v.to_le_bytes());
    }
    data
}

#[test]
fn test_parse_wtns_invalid_magic() {
    let result = parse_wtns(b"baad\x01\x00\x00\x00\x02\x00\x00\x00");
    assert!(result.is_err());
    assert!(result.unwrap_err().message().contains("invalid magic"));
}

#[test]
fn test_parse_wtns_valid() {
    let data = wtns_file(4, &[42, 94], 2);
    let witness = parse_wtns(&data).unwrap();
    assert_eq!(witness.len(), 2);
    assert_eq!(witness[0], vec![42, 0, 0, 0]);
    assert_eq!(witness[1], vec![94, 0, 0, 0]);
}

#[test]
fn wtns_errors() {
    assert_eq!(parse_wtns(b"wtns").unwrap_err(), WtnsError::TooSmall);
    assert_eq!(WtnsError::TooSmall.message(), ".wtns file too small");
    // One section announced, none there.
    let mut header = b"wtns".to_vec();
    header.extend_from_slice(&2u32.to_le_bytes());
    header.extend_from_slice(&1u32.to_le_bytes());
    assert_eq!(parse_wtns(&header).unwrap_err(), WtnsError::TruncatedSectionHeader);
    // No sections at all.
    let mut empty = b"wtns".to_vec();
    empty.extend_from_slice(&2u32.to_le_bytes());
    empty.extend_from_slice(&0u32.to_le_bytes());
    assert_eq!(parse_wtns(&empty).unwrap_err(), WtnsError::MissingSections);
    // A field-info section of fewer than 4 bytes.
    let mut small = empty.clone();
    small[8] = 1;
    small.extend_from_slice(&1u32.to_le_bytes());
    small.extend_from_slice(&3u64.to_le_bytes());
    small.extend_from_slice(&[0, 0, 0, 0]);
    assert_eq!(parse_wtns(&small).unwrap_err(), WtnsError::FieldInfoTooSmall);
    // The count promises three values, two are there.
    let short = wtns_file(4, &[1, 2], 3);
    assert_eq!(parse_wtns(&short).unwrap_err(), WtnsError::WitnessTruncated);
    assert_eq!(WtnsError::WitnessTruncated.message(), ".wtns witness data truncated");
}

#[test]
fn wtns_field_info_past_the_end() {
    // The element size says the prime runs past the end of the file.
    let mut data = b"wtns".to_vec();
    data.extend_from_slice(&2u32.to_le_bytes());
    data.extend_from_slice(&1u32.to_le_bytes());
    data.extend_from_slice(&1u32.to_le_bytes());
    data.extend_from_slice(&8u64.to_le_bytes());
    data.extend_from_slice(&64u32.to_le_bytes());
    data.extend_from_slice(&[0, 0, 0, 0]);
    assert_eq!(parse_wtns(&data).unwrap_err(), WtnsError::FieldInfoTruncated);
}

#[test]
fn wtns_pointing_past_its_end_is_not_read() {
    // A field-info section whose element size cannot be read at all.
    let mut data = b"wtns".to_vec();
    data.extend_from_slice(&2u32.to_le_bytes());
    data.extend_from_slice(&1u32.to_le_bytes());
    data.extend_from_slice(&1u32.to_le_bytes());
    data.extend_from_slice(&8u64.to_le_bytes());
    assert!(read_wtns(&data).is_none());
    assert!(read_wtns(&wtns_file(4, &[42, 94], 2)).is_some());
}

#[test]
fn test_write_input_json() {
    let inputs = vec![
        ("a".to_string(), vec!["10".to_string()]),
        ("b".to_string(), vec!["32".to_string()]),
    ];
    let content = input_json_text(&inputs).unwrap();
    let parsed: HashMap<String, Vec<String>> = serde_json::from_str(&content).unwrap();
    assert_eq!(parsed["a"], vec!["10"]);
    assert_eq!(parsed["b"], vec!["32"]);
    assert_eq!(parsed.len(), 2);
}
