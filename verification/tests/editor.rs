use std::collections::BTreeMap;

use taskband::config::DEFAULT_CONFIG;
use taskband::editor::{
    append_module, content_hash, detect_indent, json_escape, set_monitors, skip_ws_and_comments,
    top_level_spans,
};

/// Parse JSON5 text the way the config loader reads it.
fn parse(text: &str) -> serde_json::Value {
    json5::from_str::<serde_json::Value>(text).expect("config text parses as JSON5")
}

/// The module names a monitor entry lists.
fn monitor_modules(cfg: &serde_json::Value, key: &str) -> Vec<String> {
    cfg["monitors"][key]["modules"]
        .as_array()
        .expect("monitor entry has a modules list")
        .iter()
        .map(|m| m.as_str().unwrap().to_string())
        .collect()
}

fn mons(entries: &[(usize, &[&str])]) -> BTreeMap<usize, Vec<String>> {
    entries
        .iter()
        .map(|(i, m)| (*i, m.iter().map(|s| s.to_string()).collect()))
        .collect()
}

#[test]
fn scans_simple_object() {
    let text = r##"{ "a": 1, "b": [1, 2], "c": { "x": "y" } }"##;
    let (spans, open, close) = top_level_spans(text).expect("scans");
    assert_eq!(open, 0);
    assert_eq!(close, text.len() - 1);
    let keys: Vec<&str> = spans.iter().map(|s| s.key.as_str()).collect();
    assert_eq!(keys, vec!["a", "b", "c"]);
    assert_eq!(&text[spans[1].value_start..spans[1].end], "[1, 2]");
    assert_eq!(&text[spans[2].value_start..spans[2].end], r##"{ "x": "y" }"##);
}

#[test]
fn skips_comments_and_tricky_strings() {
    let text = r##"{
            // a comment with braces {} and a "monitors" mention
            "modules": ["cpu"], /* block { comment */
            "cpu": { "exec": "echo \"hi\" // not a comment, has } brace" },
            'single': 'quoted',
        }"##;
    let (spans, _, _) = top_level_spans(text).expect("scans");
    let keys: Vec<&str> = spans.iter().map(|s| s.key.as_str()).collect();
    assert_eq!(keys, vec!["modules", "cpu", "single"]);
    // the cpu value span covers the whole object despite the brace in the string
    assert!(text[spans[1].value_start..spans[1].end].ends_with('}'));
}

#[test]
fn handles_bare_identifier_keys_and_trailing_comma() {
    let text = "{ unquoted_key: 1, other: true, }";
    let (spans, _, _) = top_level_spans(text).expect("scans");
    let keys: Vec<&str> = spans.iter().map(|s| s.key.as_str()).collect();
    assert_eq!(keys, vec!["unquoted_key", "other"]);
    let (_, _, close) = top_level_spans(text).expect("scans");
    assert_eq!(&text[close..close + 1], "}");
}

#[test]
fn errors_on_malformed_input() {
    assert!(top_level_spans("not an object").is_err());
    assert!(top_level_spans("{ \"a\": ").is_err());
    assert!(top_level_spans("{ \"a\" 1 }").is_err());
    assert!(top_level_spans("{ \"a\": \"unterminated }").is_err());
}

#[test]
fn set_monitors_inserts_when_absent_and_preserves_bytes() {
    let text = r##"{
    // my hand-written comment
    "modules": ["cpu", "clock"],

    "cpu": { "exec": "echo c" }, // trailing comment stays
    "clock": { "exec": "echo t" }
}"##;
    let out = set_monitors(text, &mons(&[(0, &["cpu"]), (1, &["clock", "cpu"])])).unwrap();
    // still parses, and carries the new arrangement
    let cfg = parse(&out);
    assert_eq!(monitor_modules(&cfg, "0"), vec!["cpu"]);
    assert_eq!(monitor_modules(&cfg, "1"), vec!["clock", "cpu"]);
    // legacy top-level modules key is gone
    assert!(cfg.get("modules").is_none());
    // hand-written content survives byte-for-byte
    assert!(out.contains("// my hand-written comment"));
    assert!(out.contains(r##""cpu": { "exec": "echo c" }, // trailing comment stays"##));
}

#[test]
fn set_monitors_replaces_existing_value_only() {
    let text = r##"{
    "monitors": {
        "0": { "modules": ["cpu"] } // old arrangement
    },
    "cpu": { "exec": "echo c" } // untouched
}"##;
    let out = set_monitors(text, &mons(&[(2, &["cpu"])])).unwrap();
    let cfg = parse(&out);
    assert!(cfg["monitors"].get("0").is_none());
    assert_eq!(monitor_modules(&cfg, "2"), vec!["cpu"]);
    assert!(out.contains(r##""cpu": { "exec": "echo c" } // untouched"##));
    // the old arrangement's comment lived inside the replaced span: gone
    assert!(!out.contains("old arrangement"));
}

#[test]
fn set_monitors_handles_empty_map_and_string_decoys() {
    let text = r##"{
    "note": { "exec": "echo \"monitors\": fake" },
    "monitors": { "0": { "modules": ["note"] } }
}"##;
    let out = set_monitors(text, &BTreeMap::new()).unwrap();
    let cfg = parse(&out);
    assert!(cfg["monitors"].as_object().unwrap().is_empty());
    // the decoy string value was not mistaken for the monitors key
    assert!(out.contains(r##"echo \"monitors\": fake"##));
}

#[test]
fn append_module_adds_definition_with_comment_marker() {
    let text = r##"{
    "modules": ["cpu"],
    "cpu": { "exec": "echo c" }
}"##;
    let body = "{\n        \"exec\": \"echo m\",\n        \"interval\": 5\n    }";
    let out = append_module(text, "memory", body).unwrap();
    let cfg = parse(&out);
    assert_eq!(cfg["memory"]["exec"], "echo m");
    assert!(out.contains("// added from the Taskband catalog"));
    // existing content is untouched
    assert!(out.contains(r##""cpu": { "exec": "echo c" }"##));
}

#[test]
fn append_module_rejects_duplicates_and_handles_empty_object() {
    let text = r##"{ "cpu": { "exec": "echo c" } }"##;
    assert!(append_module(text, "cpu", "{}").is_err());

    let out = append_module("{}", "cpu", "{ \"exec\": \"echo c\" }").unwrap();
    let cfg = parse(&out);
    assert_eq!(cfg["cpu"]["exec"], "echo c");
}

#[test]
fn detect_indent_reads_first_indented_line() {
    assert_eq!(detect_indent("{\n  \"a\": 1\n}"), "  ");
    assert_eq!(detect_indent("{\n\t\"a\": 1\n}"), "\t");
    assert_eq!(detect_indent("{}"), "    "); // default
}

#[test]
fn json_escape_escapes_paths_and_quotes() {
    assert_eq!(
        json_escape(r##"powershell -File "C:\tools\m.ps1""##),
        r##"powershell -File \"C:\\tools\\m.ps1\""##
    );
}

#[test]
fn content_hash_is_stable_and_sensitive() {
    assert_eq!(content_hash("abc"), content_hash("abc"));
    assert_ne!(content_hash("abc"), content_hash("abd"));
    assert_eq!(content_hash("abc").len(), 16);
}

#[test]
fn edits_roundtrip_on_the_default_config() {
    let out = set_monitors(DEFAULT_CONFIG, &mons(&[(0, &["cpu", "clock"])])).unwrap();
    let cfg = parse(&out);
    assert_eq!(monitor_modules(&cfg, "0"), vec!["cpu", "clock"]);
    // the default config's css block is untouched
    assert!(out.contains(r##""font-family": "Segoe UI""##));
}

#[test]
fn scans_the_default_config() {
    let text = DEFAULT_CONFIG;
    let (spans, _, _) = top_level_spans(text).expect("default config scans");
    let keys: Vec<&str> = spans.iter().map(|s| s.key.as_str()).collect();
    assert!(keys.contains(&"modules"));
    assert!(keys.contains(&"cpu"));
    assert!(keys.contains(&"clock"));
}

#[test]
fn content_hash_is_fnv1a_in_sixteen_hex_digits() {
    // FNV-1a 64 of the empty input is its offset basis.
    assert_eq!(content_hash(""), "cbf29ce484222325");
    // FNV-1a 64 of "a".
    assert_eq!(content_hash("a"), "af63dc4c8601ec8c");
}

#[test]
fn json_escape_escapes_control_characters() {
    assert_eq!(json_escape("a\nb\tc\u{1}"), "a\\nb\\tc\\u0001");
}

#[test]
fn set_monitors_writes_entries_in_index_order() {
    let out = set_monitors("{}", &mons(&[(3, &["b"]), (1, &["a"])])).unwrap();
    let one = out.find("\"1\"").unwrap();
    let three = out.find("\"3\"").unwrap();
    assert!(one < three, "got:\n{out}");
}

#[test]
fn set_monitors_rejects_text_that_is_not_an_object() {
    assert!(set_monitors("[1, 2]", &BTreeMap::new()).is_err());
}

#[test]
fn append_module_escapes_the_name() {
    let out = append_module("{}", "we\"ird", "{}").unwrap();
    assert!(out.contains("\"we\\\"ird\": {}"), "got:\n{out}");
}

#[test]
fn scan_errors_name_what_went_wrong() {
    let msg = |t: &str| top_level_spans(t).err().expect("scan fails");
    assert_eq!(msg("not an object"), "config does not start with '{'");
    assert_eq!(msg("   "), "config does not start with '{'");
    assert_eq!(msg("{ \"a\": 1"), "unterminated top-level object");
    assert_eq!(msg("{ \"a\": "), "expected a value, found end of input");
    assert_eq!(msg("{ \"a\" 1 }"), "expected ':' after key 'a'");
    assert_eq!(msg("{ a: \"open }"), "unterminated string");
    assert_eq!(msg("{ \"a: 1 }"), "unterminated string");
    assert_eq!(msg("{ a: [1, {\"b\": 2} "), "unterminated object or array");
    assert_eq!(msg("{ a: [\"x ] }"), "unterminated string");
    assert_eq!(msg("{ ?: 1 }"), "unexpected character at byte 2");
    assert_eq!(msg("{ a: , }"), "expected a value at byte 5");
}

#[test]
fn edit_errors_name_what_went_wrong() {
    assert_eq!(
        set_monitors("[1, 2]", &BTreeMap::new()).err().unwrap(),
        "config does not start with '{'"
    );
    assert_eq!(
        append_module("{ cpu: {} }", "cpu", "{}").err().unwrap(),
        "module 'cpu' is already defined"
    );
    assert_eq!(
        append_module("{ \"x\" }", "cpu", "{}").err().unwrap(),
        "expected ':' after key 'x'"
    );
}

#[test]
fn set_monitors_edits_only_the_monitors_value_and_the_legacy_list() {
    let text = "{\n    \"modules\": [\"a\"],\n    \"a\": 1\n}";
    let out = set_monitors(text, &mons(&[(0, &["a"])])).unwrap();
    assert_eq!(
        out,
        "{\n    \"monitors\": {\n        \"0\": { \"modules\": [\"a\"] }\n    },\n    \"a\": 1\n}"
    );
}

#[test]
fn append_module_inserts_one_block_after_the_last_member() {
    let out = append_module("{\n    \"a\": 1\n}", "b", "{}").unwrap();
    assert_eq!(
        out,
        "{\n    \"a\": 1,\n\n    // added from the Taskband catalog\n    \"b\": {},\n}"
    );
    let out = append_module("{\n    \"a\": 1, // keep\n}", "b", "{}").unwrap();
    assert_eq!(
        out,
        "{\n    \"a\": 1,\n\n    // added from the Taskband catalog\n    \"b\": {}, // keep\n}"
    );
}

#[test]
fn scanned_members_lie_in_order_between_the_braces() {
    let text = "// lead\n{ a: 1, /* c */ \"b\": [2, {}], 'c': \"x\" }";
    let (spans, open, close) = top_level_spans(text).unwrap();
    let b = text.as_bytes();
    assert_eq!(b[open], b'{');
    assert_eq!(b[close], b'}');
    for (k, s) in spans.iter().enumerate() {
        assert!(open < s.start && s.start < s.value_start && s.value_start < s.end && s.end <= close);
        if k + 1 < spans.len() {
            assert!(s.end <= spans[k + 1].start);
        }
    }
    let keys: Vec<&str> = spans.iter().map(|s| s.key.as_str()).collect();
    assert_eq!(keys, vec!["a", "b", "c"]);
}

#[test]
fn skipping_stops_at_a_real_token_and_again_goes_nowhere() {
    let b = b"  // x\n /* y */ \t value";
    let r = skip_ws_and_comments(b, 0);
    assert_eq!(&b[r..], b"value");
    assert_eq!(skip_ws_and_comments(b, r), r);
    assert_eq!(skip_ws_and_comments(b"/* open", 0), 7);
}

#[test]
fn escaping_leaves_no_control_character_and_keeps_plain_text() {
    let e = json_escape("a\u{1}b\n\"\\");
    assert!(e.chars().all(|c| c as u32 >= 0x20));
    assert_eq!(e, "a\\u0001b\\n\\\"\\\\");
    assert_eq!(json_escape("C:/modules/cpu é"), "C:/modules/cpu é");
}
