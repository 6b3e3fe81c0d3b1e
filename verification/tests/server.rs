use serde_json::Value;
use taskband::config::{
    default_clock_reserve, default_interval, default_output, ModuleConfig, MonitorConfig,
    RawConfig,
};
use taskband::editor::content_hash;
use taskband::catalog::{CatalogEntry, Json};
use taskband::server::{
    add_prepared, apply_conflicts, apply_reply, apply_to_text, arrangement, defined_names, hex_of, new_token, offered, page_url,
    route, snapshot, ApplyRequest, Method, Route,
};
use taskband::taskbar::{MonitorInfo, Rect};

fn strings(v: &Value) -> Vec<String> {
    v.as_array()
        .map(|a| a.iter().map(|s| s.as_str().unwrap().to_string()).collect())
        .unwrap_or_default()
}

/// Read JSON5 config text into the library's config model, as the
/// application does before applying an arrangement.
fn parse(text: &str) -> Option<RawConfig> {
    let v: Value = json5::from_str(text).ok()?;
    let o = v.as_object()?;
    let mut monitors = Vec::new();
    let mut modules = Vec::new();
    for (key, val) in o {
        match key.as_str() {
            "modules" | "css" | "classes" | "secondary-clock-reserve" => {}
            "monitors" => {
                for (k, mc) in val.as_object()? {
                    monitors.push((
                        k.clone(),
                        MonitorConfig {
                            module_order: strings(&mc["modules"]),
                        },
                    ));
                }
            }
            name => modules.push((
                name.to_string(),
                ModuleConfig {
                    command: val["exec"].as_str()?.to_string(),
                    interval: val["interval"].as_u64().unwrap_or(default_interval()),
                    css: Vec::new(),
                    classes: Vec::new(),
                    output: val["output"]
                        .as_str()
                        .map(str::to_string)
                        .unwrap_or_else(default_output),
                },
            )),
        }
    }
    Some(RawConfig {
        module_order: strings(&v["modules"]),
        css: Vec::new(),
        classes: Vec::new(),
        secondary_clock_reserve: default_clock_reserve(),
        monitors,
        modules,
    })
}

fn monitor_modules(out: &str, key: &str) -> Vec<String> {
    let v: Value = json5::from_str(out).expect("applied config parses");
    strings(&v["monitors"][key]["modules"])
}

fn request(monitors: &[(&str, &[&str])], add: &[&str]) -> ApplyRequest {
    ApplyRequest {
        hash: String::new(),
        monitors: monitors
            .iter()
            .map(|(k, m)| (k.to_string(), m.iter().map(|s| s.to_string()).collect()))
            .collect(),
        add: add.iter().map(|s| s.to_string()).collect(),
    }
}

#[test]
fn apply_rearranges_and_preserves_detached_monitors() {
    let text = r##"{
    // keep me
    "monitors": {
        "0": { "modules": ["cpu"] },
        "7": { "modules": ["clock"] }
    },
    "cpu": { "exec": "echo c" },
    "clock": { "exec": "echo t" }
}"##;
    let mut req = request(&[("0", &["clock", "cpu"])], &[]);
    req.hash = content_hash(text);
    // monitor 7 is not attached: its arrangement must survive
    let out = apply_to_text(text, &req, &[0], &parse(text), &Vec::new()).unwrap();
    assert_eq!(monitor_modules(&out, "0"), vec!["clock", "cpu"]);
    assert_eq!(monitor_modules(&out, "7"), vec!["clock"]);
    assert!(out.contains("// keep me"));
}

#[test]
fn apply_drops_entries_the_user_cleared_on_attached_monitors() {
    let text = r##"{
            "monitors": { "0": { "modules": ["cpu"] }, "1": { "modules": ["cpu"] } },
            "cpu": { "exec": "echo c" }
        }"##;
    let req = request(&[("0", &[]), ("1", &["cpu"])], &[]);
    let out = apply_to_text(text, &req, &[0, 1], &parse(text), &Vec::new()).unwrap();
    assert!(monitor_modules(&out, "0").is_empty());
    assert_eq!(monitor_modules(&out, "1"), vec!["cpu"]);
}

#[test]
fn apply_rejects_unknown_catalog_names_and_bad_indices() {
    let text = "{}";
    let bad_add = request(&[], &["ghost"]);
    let prepared = vec![None];
    assert!(apply_to_text(text, &bad_add, &[], &parse(text), &prepared).is_err());

    let bad_index = request(&[("first", &[])], &[]);
    assert!(apply_to_text(text, &bad_index, &[], &parse(text), &Vec::new()).is_err());
}

#[test]
fn apply_passes_a_preparation_error_through() {
    let req = request(&[], &["memory"]);
    let prepared = vec![Some(Err("writing C:\\x: denied".to_string()))];
    assert_eq!(
        apply_to_text("{}", &req, &[], &None, &prepared).unwrap_err(),
        "writing C:\\x: denied"
    );
}

#[test]
fn apply_appends_prepared_definitions_before_arranging() {
    let text = r##"{ "cpu": { "exec": "echo c" } }"##;
    let req = request(&[("0", &["memory"])], &["memory"]);
    let prepared = vec![Some(Ok("{ \"exec\": \"echo m\" }".to_string()))];
    let out = apply_to_text(text, &req, &[0], &parse(text), &prepared).unwrap();
    let v: Value = json5::from_str(&out).unwrap();
    assert_eq!(v["memory"]["exec"], "echo m");
    assert!(out.contains("// added from the Taskband catalog"));
    assert_eq!(monitor_modules(&out, "0"), vec!["memory"]);
}

#[test]
fn apply_refuses_to_add_a_module_twice() {
    let text = r##"{ "cpu": { "exec": "echo c" } }"##;
    let req = request(&[], &["cpu"]);
    let prepared = vec![Some(Ok("{ \"exec\": \"x\" }".to_string()))];
    assert!(apply_to_text(text, &req, &[], &parse(text), &prepared).is_err());
}

#[test]
fn apply_reports_the_bad_monitor_key() {
    let req = request(&[("first", &[])], &[]);
    assert_eq!(
        apply_to_text("{}", &req, &[], &None, &Vec::new()).unwrap_err(),
        "bad monitor index 'first'"
    );
}

#[test]
fn apply_on_unparsable_text_keeps_no_old_arrangement() {
    // a detached monitor's entry is only kept when the old config parsed
    let text = r##"{ "monitors": { "7": { "modules": ["cpu"] } }, "cpu": { "exec": "c" } }"##;
    let req = request(&[("0", &["cpu"])], &[]);
    let out = apply_to_text(text, &req, &[0], &None, &Vec::new()).unwrap();
    let v: Value = json5::from_str(&out).unwrap();
    assert!(v["monitors"].get("7").is_none());
}

#[test]
fn arrangement_maps_legacy_modules_to_primary() {
    let cfg = parse(
        r##"{ "modules": ["cpu", "clock"], "cpu": { "exec": "echo c" }, "clock": { "exec": "echo t" } }"##,
    )
    .unwrap();
    assert_eq!(arrangement(&cfg, 0, true), vec!["cpu", "clock"]);
    assert!(arrangement(&cfg, 1, false).is_empty());
}

#[test]
fn arrangement_uses_monitors_map_when_present() {
    let cfg =
        parse(r##"{ "monitors": { "1": { "modules": ["cpu"] } }, "cpu": { "exec": "echo c" } }"##)
            .unwrap();
    assert!(arrangement(&cfg, 0, true).is_empty());
    assert_eq!(arrangement(&cfg, 1, false), vec!["cpu"]);
}

#[test]
fn snapshot_reports_size_and_taskbar() {
    let m = MonitorInfo {
        index: 1,
        rect: Rect {
            left: 1920,
            top: 0,
            right: 3840,
            bottom: 1080,
        },
        primary: false,
        hmonitor: 7,
        taskbar: Some(9),
    };
    let s = snapshot(&m, "DELL U2515H".to_string());
    assert_eq!(s.index, 1);
    assert_eq!(s.name, "DELL U2515H");
    assert!(!s.primary);
    assert_eq!((s.width, s.height), (1920, 1080));
    assert!(s.has_taskbar);
}

fn catalog_entry(name: &str, description: &str) -> CatalogEntry {
    CatalogEntry {
        name: name.to_string(),
        description: description.to_string(),
        manifest: vec![("exec".to_string(), Json::Str("x".to_string()))],
        payload: None,
    }
}

#[test]
fn defined_names_are_sorted() {
    let cfg = parse(
        r##"{ "modules": ["cpu", "clock"], "cpu": { "exec": "echo c" }, "clock": { "exec": "echo t" }, "Zed": { "exec": "z" } }"##,
    )
    .unwrap();
    assert_eq!(defined_names(&cfg), vec!["Zed", "clock", "cpu"]);
}

#[test]
fn catalog_offer_excludes_defined_modules() {
    let cfg = parse(r##"{ "cpu": { "exec": "echo c" }, "clock": { "exec": "echo t" } }"##).unwrap();
    let all = vec![
        catalog_entry("cpu", "CPU load"),
        catalog_entry("clock", "Date and time"),
        catalog_entry("memory", "Memory in use"),
        catalog_entry("disk-space", "Disk usage"),
    ];
    let names: Vec<String> = offered(&cfg, &all).into_iter().map(|(n, _)| n).collect();
    assert_eq!(names, vec!["memory", "disk-space"]);
    assert_eq!(offered(&cfg, &all)[0].1, "Memory in use");
}

#[test]
fn a_detached_monitor_keeps_the_last_entry_for_its_index() {
    // "07" and "7" both name monitor 7; the later entry in the config wins
    let text = r##"{ "monitors": { "7": { "modules": ["a"] } }, "a": { "exec": "a" }, "b": { "exec": "b" } }"##;
    let mut cfg = parse(text).unwrap();
    cfg.monitors.push((
        "07".to_string(),
        taskband::config::MonitorConfig {
            module_order: vec!["b".to_string()],
        },
    ));
    let req = request(&[("0", &["a"])], &[]);
    let out = apply_to_text(text, &req, &[0], &Some(cfg), &Vec::new()).unwrap();
    assert_eq!(monitor_modules(&out, "7"), vec!["b"]);
}

#[test]
fn apply_names_the_unknown_catalog_module() {
    let req = request(&[], &["ghost"]);
    assert_eq!(
        apply_to_text("{}", &req, &[], &None, &vec![None]).unwrap_err(),
        "unknown catalog module 'ghost'"
    );
}

#[test]
fn apply_reports_a_refused_definition() {
    let text = "{ cpu: { exec: \"echo c\" } }";
    let req = request(&[], &["cpu"]);
    let prepared = vec![Some(Ok("{}".to_string()))];
    assert_eq!(
        apply_to_text(text, &req, &[], &None, &prepared).unwrap_err(),
        "module 'cpu' is already defined"
    );
}

#[test]
fn add_prepared_appends_one_definition_or_says_why_not() {
    let out = add_prepared("{}", "cpu", &Some(Ok("{ \"exec\": \"c\" }".to_string()))).unwrap();
    let v: Value = json5::from_str(&out).unwrap();
    assert_eq!(v["cpu"]["exec"], "c");
    assert_eq!(
        add_prepared("{}", "ghost", &None).unwrap_err(),
        "unknown catalog module 'ghost'"
    );
    assert_eq!(
        add_prepared("{}", "cpu", &Some(Err("denied".to_string()))).unwrap_err(),
        "denied"
    );
    assert_eq!(
        add_prepared(&out, "cpu", &Some(Ok("{}".to_string()))).unwrap_err(),
        "module 'cpu' is already defined"
    );
}

#[test]
fn routes_need_the_token_for_the_api() {
    let t = "abc123";
    assert_eq!(route(Method::Get, "/", t), Route::Page);
    assert_eq!(route(Method::Get, "/?token=abc123", t), Route::Page);
    assert_eq!(route(Method::Get, "/api/state?token=abc123", t), Route::State);
    assert_eq!(route(Method::Get, "/api/state?x=1&token=abc123&y", t), Route::State);
    assert_eq!(route(Method::Post, "/api/apply?token=abc123", t), Route::Apply);
    assert_eq!(route(Method::Get, "/api/state", t), Route::Forbidden);
    assert_eq!(route(Method::Get, "/api/state?token=abc12", t), Route::Forbidden);
    assert_eq!(route(Method::Get, "/api/state?token=abc1234", t), Route::Forbidden);
    assert_eq!(route(Method::Get, "/api/state?xtoken=abc123", t), Route::Forbidden);
    assert_eq!(route(Method::Post, "/api/state?token=abc123", t), Route::Forbidden);
    assert_eq!(route(Method::Get, "/api/apply?token=abc123", t), Route::Forbidden);
    assert_eq!(route(Method::Other, "/api/state?token=abc123", t), Route::Forbidden);
    assert_eq!(route(Method::Get, "/favicon.ico", t), Route::NotFound);
    assert_eq!(route(Method::Post, "/", t), Route::NotFound);
    assert_eq!(route(Method::Get, "/api", t), Route::NotFound);
}

#[test]
fn tokens_are_hex_of_random_bytes() {
    assert_eq!(hex_of(&vec![0x00, 0x0f, 0xa5, 0xff]), "000fa5ff");
    assert_eq!(hex_of(&vec![]), "");
    let a = new_token().expect("the system has randomness");
    let b = new_token().expect("the system has randomness");
    assert_eq!(a.len(), 32);
    assert!(a.chars().all(|c| c.is_ascii_hexdigit() && !c.is_ascii_uppercase()));
    assert_ne!(a, b);
}

#[test]
fn the_page_url_carries_the_token() {
    assert_eq!(page_url(51234, "00ff"), "http://127.0.0.1:51234/?token=00ff");
}

#[test]
fn an_apply_against_a_changed_config_conflicts() {
    let text = "{ \"a\": 1 }";
    let hash = content_hash(text);
    assert!(!apply_conflicts(text, &hash));
    assert!(apply_conflicts("{ \"a\": 2 }", &hash));
    assert!(apply_conflicts(text, ""));
}

#[test]
fn an_applied_text_is_answered_with_its_hash() {
    let ok: Result<String, String> = Ok("{}".to_string());
    assert_eq!(apply_reply(&ok), (200, Ok(content_hash("{}"))));
    let refused: Result<String, String> = Err("bad monitor index 'x'".to_string());
    assert_eq!(apply_reply(&refused), (422, Err("bad monitor index 'x'".to_string())));
}

#[test]
fn with_nothing_added_only_a_bad_key_is_refused() {
    let text = "{ \"cpu\": { \"exec\": \"echo c\" } }";
    let bad = request(&[("0", &["cpu"]), ("x", &[]), ("y", &[])], &[]);
    assert_eq!(
        apply_to_text(text, &bad, &[], &parse(text), &Vec::new()).unwrap_err(),
        "bad monitor index 'x'"
    );
    let good = request(&[("0", &["cpu"])], &[]);
    assert!(apply_to_text(text, &good, &[], &parse(text), &Vec::new()).is_ok());
}
