use orbit_wars::json::{
    extract_json_array, generation_from_named_artifact, json_generation_value,
    json_generation_win_rate_key, json_usize_field_value, split_json_array_items,
    telemetry_array_items_excluding_generations,
};

#[test]
fn extract_json_array_skips_brackets_in_strings() {
    let source = br#"{"a":[1,[2,3],"x]"],"b":2}"#;
    assert_eq!(extract_json_array(source, b"a"), Some(&br#"1,[2,3],"x]""#[..]));
    assert_eq!(extract_json_array(source, b"missing"), None);
    assert_eq!(extract_json_array(br#"{"a":[1,2"#, b"a"), None);
    assert_eq!(extract_json_array(br#"{"a": []}"#, b"a"), Some(&b""[..]));
}

#[test]
fn split_json_array_items_splits_top_level_commas() {
    let items = split_json_array_items(b" {\"generation\":3}, {\"x\":[1,2]} ,\"s,t\" ,  ,\"e\\\"\"");
    assert_eq!(
        items,
        vec![
            b"{\"generation\":3}".to_vec(),
            b"{\"x\":[1,2]}".to_vec(),
            b"\"s,t\"".to_vec(),
            b"\"e\\\"\"".to_vec(),
        ]
    );
    assert!(split_json_array_items(b"   ").is_empty());
}

#[test]
fn json_usize_field_value_reads_digits_after_colon() {
    assert_eq!(json_usize_field_value(b"{\"generation\": 12,}", b"generation"), Some(12));
    assert_eq!(json_usize_field_value(b"{\"generation\":\"x\"}", b"generation"), None);
    assert_eq!(json_usize_field_value(b"{\"other\":1}", b"generation"), None);
    assert_eq!(json_generation_value(b"{\"generation\":7,\"path\":\"p\"}"), Some(7));
    assert_eq!(
        json_generation_win_rate_key(b"{\"validationGeneration\":5,\"evaluatedGeneration\":3}"),
        Some((5, 3))
    );
    assert_eq!(json_generation_win_rate_key(b"{\"validationGeneration\":5}"), None);
}

#[test]
fn generation_from_named_artifact_parses_the_middle() {
    assert_eq!(
        generation_from_named_artifact(b"replays_run_generation_7.json", b"replays_run_generation_", b".json"),
        Some(7)
    );
    assert_eq!(generation_from_named_artifact(b"replays_run_generation_.json", b"replays_run_generation_", b".json"), None);
    assert_eq!(generation_from_named_artifact(b"other_7.json", b"replays_", b".json"), None);
    assert_eq!(generation_from_named_artifact(b"replays_7.bin", b"replays_", b".json"), None);
}

#[test]
fn telemetry_items_keep_last_item_per_generation() {
    let items = vec![
        b"{\"generation\":2,\"v\":1}".to_vec(),
        b"{\"note\":\"plain\"}".to_vec(),
        b"{\"generation\":1}".to_vec(),
        b"{\"generation\":2,\"v\":2}".to_vec(),
        b"{\"generation\":3}".to_vec(),
    ];
    let kept = telemetry_array_items_excluding_generations(&items, &[3]);
    assert_eq!(
        kept,
        vec![
            b"{\"note\":\"plain\"}".to_vec(),
            b"{\"generation\":1}".to_vec(),
            b"{\"generation\":2,\"v\":2}".to_vec(),
        ]
    );
}
