use std::collections::HashMap;

use serde_json::Value;
use taskband::config::{
    build_registry, default_clock_reserve, default_interval, default_output, output_mode,
    parse_index, slots_for_monitor, ModuleConfig, MonitorConfig, RawConfig, DEFAULT_CONFIG,
};
use taskband::css::{Color, Edges};
use taskband::plugin::OutputMode;

fn strings(v: &Value) -> Vec<String> {
    v.as_array()
        .map(|a| a.iter().map(|s| s.as_str().unwrap().to_string()).collect())
        .unwrap_or_default()
}

fn pairs(v: &Value) -> Vec<(String, String)> {
    v.as_object()
        .map(|o| {
            o.iter()
                .map(|(k, v)| (k.clone(), v.as_str().unwrap().to_string()))
                .collect()
        })
        .unwrap_or_default()
}

fn classes(v: &Value) -> Vec<(String, Vec<(String, String)>)> {
    v.as_object()
        .map(|o| o.iter().map(|(k, v)| (k.clone(), pairs(v))).collect())
        .unwrap_or_default()
}

/// Read JSON5 config text into the library's config model, with the
/// documented defaults for absent keys.
fn parse(text: &str) -> RawConfig {
    let v: Value = json5::from_str(text).expect("valid config");
    let o = v.as_object().unwrap();
    let mut monitors = Vec::new();
    let mut modules = Vec::new();
    for (key, val) in o {
        match key.as_str() {
            "modules" | "css" | "classes" | "secondary-clock-reserve" => {}
            "monitors" => {
                for (k, mc) in val.as_object().unwrap() {
                    monitors.push((
                        k.clone(),
                        MonitorConfig {
                            module_order: strings(&mc["modules"]),
                        },
                    ));
                }
            }
            name => modules.push((
                name.to_string(),
                ModuleConfig {
                    command: val["exec"].as_str().unwrap().to_string(),
                    interval: val["interval"].as_u64().unwrap_or(default_interval()),
                    css: pairs(&val["css"]),
                    classes: classes(&val["classes"]),
                    output: val["output"]
                        .as_str()
                        .map(str::to_string)
                        .unwrap_or_else(default_output),
                },
            )),
        }
    }
    RawConfig {
        module_order: strings(&v["modules"]),
        css: pairs(&v["css"]),
        classes: classes(&v["classes"]),
        secondary_clock_reserve: v["secondary-clock-reserve"]
            .as_i64()
            .map(|n| n as i32)
            .unwrap_or(default_clock_reserve()),
        monitors,
        modules,
    }
}

#[test]
fn unknown_output_warns_and_falls_back_to_text() {
    let cfg = parse(r##"{ "modules": ["x"], "x": { "exec": "echo x", "output": "yaml" } }"##);
    let b = build_registry(&cfg);
    assert_eq!(b.specs[0].output, OutputMode::Text);
}

#[test]
fn build_registry_dedups_modules_shared_across_monitors() {
    let cfg = parse(
        r##"{
            "monitors": {
                "0": { "modules": ["cpu", "clock"] },
                "1": { "modules": ["clock", "cpu"] }
            },
            "cpu":   { "exec": "echo c" },
            "clock": { "exec": "echo t" }
        }"##,
    );

    let b = build_registry(&cfg);
    // two unique modules -> two slots (each runs once)
    assert_eq!(b.specs.len(), 2);
    assert_eq!(b.styles.len(), 2);
    // first-seen order assigns slots: cpu=0, clock=1
    assert_eq!(b.monitors.get(&0).unwrap(), &vec![0, 1]);
    assert_eq!(b.monitors.get(&1).unwrap(), &vec![1, 0]);
    assert!(b.legacy.is_empty());
}

#[test]
fn build_registry_legacy_fallback_when_no_monitors_key() {
    let cfg = parse(
        r##"{
            "modules": ["cpu", "clock", "cpu"],
            "cpu":   { "exec": "echo c" },
            "clock": { "exec": "echo t" }
        }"##,
    );

    let b = build_registry(&cfg);
    assert!(b.monitors.is_empty());
    // duplicate "cpu" dedups to one slot but appears twice in the ordered list
    assert_eq!(b.specs.len(), 2);
    assert_eq!(b.legacy, vec![0, 1, 0]);
}

#[test]
fn build_registry_skips_undefined_modules() {
    let cfg = parse(
        r##"{
            "monitors": { "0": { "modules": ["cpu", "ghost"] } },
            "cpu": { "exec": "echo c" }
        }"##,
    );

    let b = build_registry(&cfg);
    assert_eq!(b.specs.len(), 1);
    assert_eq!(b.monitors.get(&0).unwrap(), &vec![0]); // "ghost" skipped
}

#[test]
fn secondary_clock_reserve_defaults_and_overrides() {
    let def = parse(r##"{ "cpu": { "exec": "echo c" } }"##);
    assert_eq!(build_registry(&def).clock_reserve, 100);

    let over = parse(r##"{ "secondary-clock-reserve": 140, "cpu": { "exec": "echo c" } }"##);
    assert_eq!(build_registry(&over).clock_reserve, 140);
}

#[test]
fn slots_for_monitor_prefers_map_then_legacy() {
    let mut monitors = HashMap::new();
    monitors.insert(0usize, vec![0, 1]);
    let legacy = vec![2];

    // map present: listed monitor uses its entry; unlisted monitor -> empty
    assert_eq!(slots_for_monitor(&monitors, &legacy, 0, true), vec![0, 1]);
    assert_eq!(
        slots_for_monitor(&monitors, &legacy, 5, false),
        Vec::<usize>::new()
    );

    // map empty: primary uses legacy, non-primary -> empty
    let empty: HashMap<usize, Vec<usize>> = HashMap::new();
    assert_eq!(slots_for_monitor(&empty, &legacy, 3, true), vec![2]);
    assert_eq!(
        slots_for_monitor(&empty, &legacy, 3, false),
        Vec::<usize>::new()
    );
}

#[test]
fn build_registry_resolves_commands_intervals_and_output() {
    let cfg = parse(
        r##"{
            "modules": ["mem", "cpu"],
            "mem": { "exec": "echo m", "output": "html", "interval": 0 },
            "cpu": { "exec": "echo c", "interval": 3 }
        }"##,
    );
    let b = build_registry(&cfg);
    assert_eq!(b.specs.len(), 2);
    assert_eq!(b.specs[0].name, "mem");
    assert_eq!(b.specs[0].command, "echo m");
    assert_eq!(b.specs[0].output, OutputMode::Html);
    // an interval below one second runs every second
    assert_eq!(b.specs[0].interval, 1_000_000_000);
    assert_eq!(b.specs[1].interval, 3_000_000_000);
    assert_eq!(b.specs[1].output, OutputMode::Text);
}

#[test]
fn monitors_resolve_in_index_order_and_skip_bad_keys() {
    let cfg = parse(
        r##"{
            "monitors": {
                "10": { "modules": ["b"] },
                "2": { "modules": ["a", "b"] },
                "two": { "modules": ["c"] }
            },
            "a": { "exec": "a" }, "b": { "exec": "b" }, "c": { "exec": "c" }
        }"##,
    );
    let b = build_registry(&cfg);
    // monitor 2 is resolved before monitor 10, whatever order the keys came in
    assert_eq!(b.specs[0].name, "a");
    assert_eq!(b.specs[1].name, "b");
    assert_eq!(b.monitors.get(&2).unwrap(), &vec![0, 1]);
    assert_eq!(b.monitors.get(&10).unwrap(), &vec![1]);
    assert_eq!(b.monitors.len(), 2);
    // "c" is only routed to the bad key, so it never runs
    assert_eq!(b.specs.len(), 2);
}

#[test]
fn monitors_key_with_only_bad_indices_still_disables_legacy() {
    let cfg = parse(r##"{ "modules": ["a"], "monitors": { "x": {} }, "a": { "exec": "a" } }"##);
    let b = build_registry(&cfg);
    assert!(b.monitors.is_empty());
    assert!(b.legacy.is_empty());
    assert!(b.specs.is_empty());
}

#[test]
fn parse_index_reads_usize_like_from_str() {
    assert_eq!(parse_index("0"), Some(0));
    assert_eq!(parse_index("+7"), Some(7));
    assert_eq!(parse_index("007"), Some(7));
    assert_eq!(parse_index(""), None);
    assert_eq!(parse_index("+"), None);
    assert_eq!(parse_index("-1"), None);
    assert_eq!(parse_index(" 1"), None);
    assert_eq!(parse_index("1x"), None);
    assert_eq!(parse_index("99999999999999999999999"), None);
    assert_eq!(parse_index(&usize::MAX.to_string()), Some(usize::MAX));
}

#[test]
fn output_mode_accepts_only_html_as_markup() {
    assert_eq!(output_mode("html"), OutputMode::Html);
    assert_eq!(output_mode("text"), OutputMode::Text);
    assert_eq!(output_mode("HTML"), OutputMode::Text);
    assert_eq!(output_mode(""), OutputMode::Text);
}

#[test]
fn defaults_match_the_documentation() {
    assert_eq!(default_interval(), 5);
    assert_eq!(default_output(), "text");
    assert_eq!(default_clock_reserve(), 100);
}

#[test]
fn default_config_defines_cpu_and_clock() {
    let cfg = parse(DEFAULT_CONFIG);
    let b = build_registry(&cfg);
    assert_eq!(b.legacy, vec![0, 1]);
    assert_eq!(b.specs[0].name, "cpu");
    assert_eq!(b.specs[1].name, "clock");
    assert_eq!(b.specs[0].interval, 2_000_000_000);
}

#[test]
fn build_registry_reports_what_it_skips() {
    let cfg = parse(
        r##"{
            "monitors": {
                "first": { "modules": ["cpu"] },
                "0": { "modules": ["ghost", "cpu", "x", "cpu"] }
            },
            "modules": ["cpu"],
            "cpu": { "exec": "echo c" },
            "x": { "exec": "echo x", "output": "yaml" }
        }"##,
    );
    let b = build_registry(&cfg);
    assert_eq!(
        b.warnings,
        vec![
            "Taskband: monitor key 'first' is not a valid index (skipped)".to_string(),
            "Taskband: module 'ghost' is not defined (skipped)".to_string(),
            "Taskband: module 'x': unknown output 'yaml' (using text)".to_string(),
            "Taskband: 'monitors' is set; top-level 'modules' is ignored".to_string(),
        ]
    );
}

#[test]
fn build_registry_warns_about_the_legacy_list_too() {
    let cfg = parse(r##"{ "modules": ["cpu", "gone"], "cpu": { "exec": "echo c", "output": "html" } }"##);
    let b = build_registry(&cfg);
    assert_eq!(
        b.warnings,
        vec!["Taskband: module 'gone' is not defined (skipped)".to_string()]
    );
}

/// The properties of class `name` in a class map.
fn class<'a>(map: &'a [(String, Vec<(String, String)>)], name: &str) -> Option<&'a Vec<(String, String)>> {
    map.iter().find(|(n, _)| n == name).map(|(_, p)| p)
}

/// The value of property `key`.
fn prop<'a>(props: &'a [(String, String)], key: &str) -> Option<&'a str> {
    props.iter().find(|(k, _)| k == key).map(|(_, v)| v.as_str())
}

#[test]
fn build_registry_merges_class_maps_and_resolves_output() {
    let cfg = parse(
        r##"{
            "modules": ["mem", "cpu"],
            "classes": { "critical": { "color": "#ff5555" } },
            "mem": {
                "exec": "echo m",
                "output": "html",
                "classes": { "critical": { "font-weight": "bold" } }
            },
            "cpu": { "exec": "echo c" }
        }"##,
    );

    let b = build_registry(&cfg);
    assert_eq!(b.class_maps.len(), 2);
    // mem: merged fragment has both properties
    let crit = class(&b.class_maps[0], "critical").unwrap();
    assert_eq!(prop(crit, "color"), Some("#ff5555"));
    assert_eq!(prop(crit, "font-weight"), Some("bold"));
    // cpu: inherits the shared class untouched
    assert!(class(&b.class_maps[1], "critical").is_some());
    assert_eq!(b.specs[0].output, OutputMode::Html);
    assert_eq!(b.specs[1].output, OutputMode::Text);
}

#[test]
fn build_registry_resolves_each_slot_style() {
    let cfg = parse(
        r##"{
            "modules": ["cpu", "clock"],
            "css": { "color": "#d0d0d0", "font-size": "12px", "padding": "0 8px" },
            "cpu": { "exec": "echo c", "css": { "color": "#7fdbb0", "font-weight": "bold" } },
            "clock": { "exec": "echo t", "css": { "font-size": "14px", "margin": "1 2 3" } }
        }"##,
    );
    let b = build_registry(&cfg);
    assert_eq!(b.styles.len(), 2);
    assert_eq!(b.styles[0].color, Color { r: 0x7f, g: 0xdb, b: 0xb0 });
    assert_eq!(b.styles[0].font_weight, 700);
    assert_eq!(b.styles[0].font_size, 12);
    assert_eq!(b.styles[0].padding, Edges { top: 0, right: 8, bottom: 0, left: 8 });
    assert_eq!(b.styles[1].color, Color { r: 0xd0, g: 0xd0, b: 0xd0 });
    assert_eq!(b.styles[1].font_size, 14);
    assert_eq!(b.styles[1].margin, Edges { top: 1, right: 2, bottom: 3, left: 2 });
}

#[test]
fn routed_slots_name_the_defined_modules_in_order() {
    let cfg = parse(
        r##"{
            "modules": ["b"],
            "monitors": {
                "+1": { "modules": ["ghost", "b", "a", "b"] },
                "0": { "modules": ["a"] }
            },
            "a": { "exec": "a", "interval": 0 }, "b": { "exec": "b" }
        }"##,
    );
    let b = build_registry(&cfg);
    let names = |slots: &Vec<usize>| -> Vec<String> {
        slots.iter().map(|&s| b.specs[s].name.clone()).collect()
    };
    assert_eq!(b.monitors.len(), 2);
    assert_eq!(names(b.monitors.get(&1).unwrap()), vec!["b", "a", "b"]);
    assert_eq!(names(b.monitors.get(&0).unwrap()), vec!["a"]);
    assert!(b.legacy.is_empty());
    assert!(b.specs.iter().all(|p| p.interval >= 1_000_000_000));
}
