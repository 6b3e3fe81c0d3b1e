use serde_json::Value;
use taskband::catalog::{
    definition_body, entries, find, parse_manifest, parse_manifest_text, render_body, CatalogEntry,
    Json, Payload,
};
use taskband::editor::append_module;

/// The catalog's model of a JSON value, as the application builds it.
fn to_json(v: &Value) -> Json {
    match v {
        Value::String(s) => Json::Str(s.clone()),
        Value::Object(m) => Json::Object(m.iter().map(|(k, v)| (k.clone(), to_json(v))).collect()),
        other => Json::Other(other.to_string()),
    }
}

fn map(text: &str) -> Vec<(String, Json)> {
    match to_json(&json5::from_str::<Value>(text).unwrap()) {
        Json::Object(m) => m,
        _ => panic!("not an object: {text}"),
    }
}

/// Read manifest text: JSON5 first, then the shape.
fn manifest(text: &str) -> Result<(String, Vec<(String, Json)>), String> {
    parse_manifest_text(text)
}

fn get<'a>(m: &'a [(String, Json)], key: &str) -> Option<&'a Json> {
    m.iter().find(|(k, _)| k == key).map(|(_, v)| v)
}

fn entry(name: &str, description: &str, manifest_text: &str) -> CatalogEntry {
    CatalogEntry {
        name: name.to_string(),
        description: description.to_string(),
        manifest: map(manifest_text),
        payload: None,
    }
}

fn names(es: &[CatalogEntry]) -> Vec<&str> {
    es.iter().map(|e| e.name.as_str()).collect()
}

#[test]
fn render_body_orders_keys_and_inlines_short_objects() {
    // authored alphabetically-last-first to prove the order is imposed
    let m = map(
        r##"{
            "css": { "font-family": "Consolas", "text-align": "left" },
            "interval": 5,
            "exec": "run.exe",
            "output": "html"
        }"##,
    );
    let out = render_body(&m, "    ");

    let exec = out.find("\"exec\"").expect("exec present");
    let interval = out.find("\"interval\"").expect("interval present");
    let output = out.find("\"output\"").expect("output present");
    let css = out.find("\"css\"").expect("css present");
    assert!(
        exec < interval && interval < output && output < css,
        "got:\n{out}"
    );

    // a short nested object stays on one line
    assert!(
        out.contains(r#""css": { "font-family": "Consolas", "text-align": "left" }"#),
        "css should be inline, got:\n{out}"
    );
    // top-level keys sit at two indents, the closing brace at one
    assert!(out.starts_with("{\n        \"exec\""), "got:\n{out}");
    assert!(out.ends_with("\n    }"), "got:\n{out}");
}

#[test]
fn render_body_expands_objects_that_do_not_fit() {
    let m = map(
        r##"{
            "exec": "run.exe",
            "classes": {
                "green":  { "color": "#7fdbb0" },
                "yellow": { "color": "#f5c542" },
                "orange": { "color": "#ff9f43" },
                "red":    { "color": "#ff5555" }
            }
        }"##,
    );
    let out = render_body(&m, "    ");
    // too wide for one line, so one key per line, but each leaf stays inline
    assert!(out.contains("\"classes\": {\n"), "got:\n{out}");
    assert!(
        out.contains(r##""green": { "color": "#7fdbb0" }"##),
        "got:\n{out}"
    );
}

#[test]
fn render_body_output_parses_as_a_module() {
    let m = map(
        r##"{
            "exec": "powershell -File \"C:\\a b\\x.ps1\"",
            "interval": 30,
            "output": "html",
            "classes": { "red": { "color": "#ff5555" } }
        }"##,
    );
    let body = render_body(&m, "    ");
    let text = append_module("{}", "thing", &body).unwrap();
    let cfg: Value = json5::from_str(&text).expect("emitted body parses");
    let thing = &cfg["thing"];
    assert_eq!(thing["exec"], r#"powershell -File "C:\a b\x.ps1""#);
    assert_eq!(thing["interval"], 30);
    assert_eq!(thing["output"], "html");
    assert!(thing["classes"].get("red").is_some());
}

#[test]
fn render_body_handles_an_empty_map() {
    assert_eq!(render_body(&Vec::new(), "    "), "{}");
}

#[test]
fn parse_manifest_rejects_bad_shapes() {
    assert!(manifest("{ not json5").is_err());
    assert!(manifest("[1, 2]").is_err());
    assert!(manifest(r#"{ "interval": 5 }"#).is_err(), "no exec");
    assert!(manifest(r#"{ "exec": 5 }"#).is_err(), "exec not a string");

    let (desc, m) = manifest(r#"{ "description": "d", "exec": "x", "interval": 9 }"#).unwrap();
    assert_eq!(desc, "d");
    assert!(get(&m, "description").is_none(), "description is stripped");
    assert!(matches!(get(&m, "interval"), Some(Json::Other(t)) if t == "9"));

    let (desc, _) = manifest(r#"{ "exec": "x" }"#).unwrap();
    assert_eq!(desc, "", "description is optional");
}

#[test]
fn parse_manifest_names_each_shape_error() {
    assert_eq!(manifest("[1]").unwrap_err(), "manifest is not a JSON object");
    assert_eq!(
        manifest(r#"{ "description": 1, "exec": "x" }"#).unwrap_err(),
        "\"description\" must be a string"
    );
    assert_eq!(manifest(r#"{ "exec": [] }"#).unwrap_err(), "\"exec\" must be a string");
    assert_eq!(manifest("{}").unwrap_err(), "no \"exec\" key");
}

#[test]
fn find_is_exact() {
    let all = || {
        vec![
            entry("memory", "Memory", r#"{ "exec": "m" }"#),
            entry("cpu", "CPU", r#"{ "exec": "c" }"#),
        ]
    };
    assert!(find("memory", all()).is_some());
    assert!(find("Memory", all()).is_none());
    assert!(find("ghost", all()).is_none());
}

#[test]
fn a_folder_module_overrides_a_builtin_in_place() {
    let builtins = vec![
        entry("cpu", "CPU", r#"{ "exec": "c" }"#),
        entry("clock", "Clock", r#"{ "exec": "t" }"#),
        entry("memory", "Memory", r#"{ "exec": "m" }"#),
        entry("disk-space", "Disks", r#"{ "exec": "d" }"#),
    ];
    let found = vec![entry("memory", "mine", r#"{ "exec": "custom.exe", "interval": 11 }"#)];
    let all = entries(builtins, found);
    assert_eq!(names(&all), vec!["cpu", "clock", "memory", "disk-space"]);
    assert_eq!(all[2].description, "mine");
    assert!(all[2].payload.is_none());
}

#[test]
fn folder_modules_follow_the_builtins_in_name_order() {
    let builtins = vec![entry("cpu", "CPU", r#"{ "exec": "c" }"#)];
    let found = vec![
        entry("zebra", "Z", r#"{ "exec": "z.exe" }"#),
        entry("alpha", "A", r#"{ "exec": "a.exe" }"#),
        entry("Beta", "B", r#"{ "exec": "b.exe" }"#),
    ];
    let all = entries(builtins, found);
    assert_eq!(names(&all), vec!["cpu", "Beta", "alpha", "zebra"]);
}

#[test]
fn definition_body_expands_the_module_folder() {
    let e = entry(
        "mouse-battery",
        "Mouse battery",
        r##"{
            "exec": "python \"${dir}\\mouse-battery.py\" --styled ${dir}",
            "interval": 60,
            "output": "html",
            "classes": { "green": { "color": "#7fdbb0" } }
        }"##,
    );
    let body = definition_body(e, "    ", r"C:\cfg\modules\mouse-battery");
    let text = append_module("{}", "mouse-battery", &body).unwrap();
    let cfg: Value = json5::from_str(&text).expect("definition parses");
    let m = &cfg["mouse-battery"];
    assert_eq!(
        m["exec"],
        r#"python "C:\cfg\modules\mouse-battery\mouse-battery.py" --styled C:\cfg\modules\mouse-battery"#
    );
    assert_eq!(m["interval"], 60);
    assert!(m["classes"].get("green").is_some());
}

#[test]
fn definition_body_leaves_a_non_string_exec_alone() {
    let e = entry("odd", "", r#"{ "exec": 5 }"#);
    assert_eq!(definition_body(e, "  ", "D"), "{ \"exec\": 5 }");
}

#[test]
fn render_body_escapes_strings_as_serde_json_does() {
    let m = vec![
        ("exec".to_string(), Json::Str("a\u{8}b\u{c}\"\\\u{1}".to_string())),
        ("we\"ird".to_string(), Json::Other("true".to_string())),
    ];
    assert_eq!(
        render_body(&m, "    "),
        r#"{ "exec": "a\bb\f\"\\\u0001", "we\"ird": true }"#
    );
}

#[test]
fn render_body_keeps_an_object_that_fits_exactly_on_one_line() {
    // four bytes of indent plus the one-line form of exactly 76 bytes
    let value = "x".repeat(76 - "{ \"exec\": \"\" }".len());
    let m = vec![("exec".to_string(), Json::Str(value.clone()))];
    let out = render_body(&m, "    ");
    assert_eq!(out, format!("{{ \"exec\": \"{value}\" }}"));
    let longer = vec![("exec".to_string(), Json::Str(format!("{value}x")))];
    assert!(render_body(&longer, "    ").starts_with("{\n"));
}

#[test]
fn payload_describes_a_script() {
    let p = Payload {
        file: "memory.ps1".to_string(),
        contents: "# script".to_string(),
    };
    let e = CatalogEntry {
        name: "memory".to_string(),
        description: String::new(),
        manifest: map(r#"{ "exec": "x" }"#),
        payload: Some(p),
    };
    assert_eq!(e.payload.as_ref().unwrap().file, "memory.ps1");
}

#[test]
fn parse_manifest_text_reads_json5() {
    let text = "{\n  // a comment\n  description: 'Shows it',\n  exec: \"run\",\n  css: { color: 'red', 'font-size': '12px', },\n  interval: 3,\n}";
    let (desc, m) = parse_manifest_text(text).unwrap();
    assert_eq!(desc, "Shows it");
    let keys: Vec<&str> = m.iter().map(|(k, _)| k.as_str()).collect();
    assert_eq!(keys, vec!["css", "exec", "interval"], "members in key order");
    match get(&m, "css") {
        Some(Json::Object(inner)) => {
            let keys: Vec<&str> = inner.iter().map(|(k, _)| k.as_str()).collect();
            assert_eq!(keys, vec!["color", "font-size"]);
            assert!(matches!(&inner[0].1, Json::Str(s) if s == "red"));
        }
        _ => panic!("css is an object"),
    }
    assert!(matches!(get(&m, "exec"), Some(Json::Str(s)) if s == "run"));
    assert!(matches!(get(&m, "interval"), Some(Json::Other(t)) if t == "3"));
}

#[test]
fn parse_manifest_text_keeps_the_last_of_a_repeated_key() {
    let (_, m) = parse_manifest_text(r#"{ "exec": "a", "exec": "b" }"#).unwrap();
    assert_eq!(m.len(), 1);
    assert!(matches!(get(&m, "exec"), Some(Json::Str(s)) if s == "b"));
}

#[test]
fn parse_manifest_text_reports_json5_errors() {
    let text = "{ exec: ";
    let expected = json5::from_str::<Value>(text).unwrap_err().to_string();
    assert!(!expected.is_empty());
    assert_eq!(parse_manifest_text(text).unwrap_err(), expected);
}

#[test]
fn parse_manifest_text_agrees_with_parse_manifest() {
    let text = r#"{ "description": "d", "exec": "x", "classes": { "warn": { "color": "red" } } }"#;
    let direct = parse_manifest(to_json(&json5::from_str::<Value>(text).unwrap())).unwrap();
    let (desc, m) = parse_manifest_text(text).unwrap();
    assert_eq!(desc, direct.0);
    assert_eq!(format!("{:?}", m), format!("{:?}", direct.1));
}
