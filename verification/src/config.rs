//! The configuration as the bar uses it: the parsed JSON5 file (read and
//! deserialized by the application) and the registry built from it, which runs
//! each referenced module once and routes module slots to monitors.

use vstd::prelude::*;
use std::collections::HashMap;
use crate::plugin::{OutputMode, PluginSpec, NANOS_PER_SEC};
use crate::text::{chars_of, strings_model};
use crate::css::{
    classes_model, merge_class_maps, merge_classes, pairs_model, resolve, resolved_style, ClassMap,
    Style,
};

verus! {

broadcast use vstd::std_specs::hash::group_hash_axioms;

/// Per-monitor module routing.
pub struct MonitorConfig {
    pub module_order: Vec<String>,
}

/// A module definition.
pub struct ModuleConfig {
    /// The command line the module runs (the `exec` key).
    pub command: String,
    /// Seconds between runs.
    pub interval: u64,
    /// Style overrides for this module, property to value.
    pub css: Vec<(String, String)>,
    /// Module-only named style fragments: class name to its properties.
    pub classes: Vec<(String, Vec<(String, String)>)>,
    /// `"text"` (default) or `"html"`; anything else reads as text.
    pub output: String,
}

/// The parsed config file. Each keyed collection holds one entry per key of
/// the JSON object it was read from.
pub struct RawConfig {
    /// The top-level `modules` list.
    pub module_order: Vec<String>,
    /// Global style defaults, property to value.
    pub css: Vec<(String, String)>,
    /// Shared named style fragments, available to every module.
    pub classes: Vec<(String, Vec<(String, String)>)>,
    /// Pixels reserved at the right edge of each secondary taskbar for the
    /// Windows 11 clock.
    pub secondary_clock_reserve: i32,
    /// Per-monitor module routing, keyed by monitor index (as a string).
    pub monitors: Vec<(String, MonitorConfig)>,
    /// Every remaining top-level key is a module definition, keyed by name.
    pub modules: Vec<(String, ModuleConfig)>,
}

/// The default config, used when no `config.json` exists beside the program or
/// in the working directory; the tray's "Edit config" writes it out.
pub const DEFAULT_CONFIG: &'static str = r##"{
    // Module order, left to right (rendered at the right end of the taskbar).
    "modules": ["cpu", "clock"],

    // Global style defaults, inherited by every module.
    "css": {
        "font-family": "Segoe UI",
        "font-size": "12px",
        "color": "#d0d0d0",
        "padding": "0 8px"
    },

    // Each remaining top-level key defines a module.
    "cpu": {
        "exec": "powershell -NoProfile -Command \"'CPU ' + (Get-CimInstance Win32_Processor).LoadPercentage + '%'\"",
        "interval": 2, // seconds between runs (default: 5)
        "css": { "color": "#7fdbb0", "font-weight": "bold" }
    },
    "clock": {
        // Each output line becomes a line on the bar.
        "exec": "powershell -NoProfile -Command \"(Get-Date).ToString('ddd dd MMM'); (Get-Date).ToString('HH:mm:ss')\"",
        "interval": 1,
        "css": { "color": "#ffffff", "font-size": "14px" }
    }
}
"##;

/// Seconds between runs when a module gives no `interval`.
pub const DEFAULT_INTERVAL: u64 = 5;

/// Default pixels reserved for the secondary taskbar clock. Measured at ~81px
/// for the two-line time/date at 100% scaling; 100 leaves headroom.
pub const DEFAULT_CLOCK_RESERVE: i32 = 100;

/// The interval used when a module gives none.
pub fn default_interval() -> (r: u64)
    ensures
        r == DEFAULT_INTERVAL,
{
    DEFAULT_INTERVAL
}

/// The output mode name used when a module gives none.
pub fn default_output() -> (r: String)
    ensures
        r@ == "text"@,
{
    String::from_str("text")
}

/// The clock reserve used when the config gives none.
pub fn default_clock_reserve() -> (r: i32)
    ensures
        r == DEFAULT_CLOCK_RESERVE,
{
    DEFAULT_CLOCK_RESERVE
}

/// The value of a run of decimal digits.
pub open spec fn digits_value(d: Seq<char>) -> nat
    decreases d.len(),
{
    if d.len() == 0 {
        0
    } else {
        digits_value(d.drop_last()) * 10 + ((d.last() as u32) - 48) as nat
    }
}

pub open spec fn is_digit(c: char) -> bool {
    '0' <= c && c <= '9'
}

/// The digits part of a monitor key: the key without a leading `+`.
pub open spec fn key_digits(s: Seq<char>) -> Seq<char> {
    if s.len() > 0 && s[0] == '+' {
        s.skip(1)
    } else {
        s
    }
}

/// Whether every character of `d` is a decimal digit.
pub open spec fn all_digits(d: Seq<char>) -> bool {
    forall|k: int| 0 <= k < d.len() ==> is_digit(#[trigger] d[k])
}

/// The number a monitor key spells as `usize::from_str` reads it: an optional
/// `+` and one or more decimal digits. `None` when it spells no number.
pub open spec fn key_number(s: Seq<char>) -> Option<nat> {
    if key_digits(s).len() > 0 && all_digits(key_digits(s)) {
        Some(digits_value(key_digits(s)))
    } else {
        None
    }
}

/// The monitor index a key names; `None` when it is not a number or does not
/// fit in `usize`.
pub open spec fn key_index(s: Seq<char>) -> Option<usize> {
    match key_number(s) {
        Some(n) => if n <= usize::MAX {
            Some(n as usize)
        } else {
            None
        },
        None => None,
    }
}

pub proof fn lemma_digits_prefix(d: Seq<char>, m: int)
    requires
        0 <= m <= d.len(),
    ensures
        digits_value(d.take(m)) <= digits_value(d),
    decreases d.len(),
{
    if m < d.len() {
        assert(d.drop_last().take(m) =~= d.take(m));
        lemma_digits_prefix(d.drop_last(), m);
    } else {
        assert(d.take(m) =~= d);
    }
}

/// Parse a monitor key as `usize::from_str` does.
pub fn parse_index(key: &str) -> (r: Option<usize>)
    ensures
        r == key_index(key@),
{
    let v = chars_of(key);
    let ghost s = v@;
    let start: usize = if v.len() > 0 && v[0] == '+' {
        1
    } else {
        0
    };
    let ghost d = s.skip(start as int);
    assert(d =~= key_digits(s));
    if start >= v.len() {
        return None;
    }
    let mut acc: usize = 0;
    let mut k: usize = start;
    assert(d.take(0) =~= seq![]);
    while k < v.len()
        invariant
            s == v@,
            s == key@,
            start < s.len(),
            d == key_digits(s),
            start <= k <= s.len(),
            d == s.skip(start as int),
            forall|t: int| 0 <= t < k - start ==> is_digit(#[trigger] d[t]),
            acc == digits_value(d.take(k - start)),
        decreases s.len() - k,
    {
        let c = v[k];
        if !('0' <= c && c <= '9') {
            assert(!is_digit(d[k - start]));
            assert(!all_digits(d));
            return None;
        }
        let digit = (c as u32 - 48) as usize;
        assert(d.take(k - start + 1).drop_last() =~= d.take(k - start));
        let ten = match acc.checked_mul(10) {
            Some(t) => t,
            None => {
                proof {
                    lemma_digits_prefix(d, k - start + 1);
                }
                return None;
            },
        };
        let next = match ten.checked_add(digit) {
            Some(t) => t,
            None => {
                proof {
                    lemma_digits_prefix(d, k - start + 1);
                }
                return None;
            },
        };
        acc = next;
        k = k + 1;
    }
    assert(d.take(d.len() as int) =~= d);
    Some(acc)
}

/// The output mode an `output` value selects: `"html"` or text.
pub open spec fn output_mode_of(s: Seq<char>) -> OutputMode {
    if s == "html"@ {
        OutputMode::Html
    } else {
        OutputMode::Text
    }
}

/// The output mode an `output` value selects; an unknown value reads as text.
pub fn output_mode(s: &str) -> (m: OutputMode)
    ensures
        m == output_mode_of(s@),
{
    let v = chars_of(s);
    proof {
        reveal_strlit("html");
    }
    if v.len() == 4 && v[0] == 'h' && v[1] == 't' && v[2] == 'm' && v[3] == 'l' {
        assert(s@ =~= "html"@);
        OutputMode::Html
    } else {
        assert(s@ != "html"@);
        OutputMode::Text
    }
}

/// Whether an `output` value is `"text"` or `"html"`.
fn is_known_output(s: &str) -> (r: bool)
    ensures
        r == known_output(s@),
{
    let v = chars_of(s);
    proof {
        reveal_strlit("html");
        reveal_strlit("text");
    }
    if v.len() == 4 && v[0] == 'h' && v[1] == 't' && v[2] == 'm' && v[3] == 'l' {
        assert(s@ =~= "html"@);
        true
    } else if v.len() == 4 && v[0] == 't' && v[1] == 'e' && v[2] == 'x' && v[3] == 't' {
        assert(s@ =~= "text"@);
        true
    } else {
        assert(s@ != "html"@);
        assert(s@ != "text"@);
        false
    }
}

/// The slot list a monitor should display: its `monitors` entry when the map is
/// non-empty (empty for unlisted monitors), else the legacy list on the primary.
pub fn slots_for_monitor(
    monitors: &HashMap<usize, Vec<usize>>,
    legacy: &[usize],
    index: usize,
    primary: bool,
) -> (r: Vec<usize>)
    ensures
        r@ == if !monitors@.is_empty() {
            if monitors@.contains_key(index) {
                monitors@[index]@
            } else {
                seq![]
            }
        } else if primary {
            legacy@
        } else {
            seq![]
        },
{
    if !monitors.is_empty() {
        match monitors.get(&index) {
            Some(v) => v.clone(),
            None => Vec::new(),
        }
    } else if primary {
        vstd::slice::slice_to_vec(legacy)
    } else {
        Vec::new()
    }
}

/// The registry built from a config: one plugin per referenced module, each
/// monitor's ordered slot list, the legacy (primary-only) list, the
/// right-edge reserve for secondary taskbars (clock clearance), in pixels, and
/// the warnings to report about what was skipped or ignored, in order.
pub struct BuildResult {
    pub specs: Vec<PluginSpec>,
    pub monitors: HashMap<usize, Vec<usize>>,
    pub legacy: Vec<usize>,
    pub clock_reserve: i32,
    pub warnings: Vec<String>,
    /// Each slot's resolved style.
    pub styles: Vec<Style>,
    /// The classes each slot's module sees.
    pub class_maps: Vec<ClassMap>,
}

/// The keys of a keyed collection, in order.
pub open spec fn keys_of<T>(v: Seq<(String, T)>) -> Seq<Seq<char>> {
    v.map_values(|e: (String, T)| e.0@)
}

/// Whether no key occurs twice in the keyed collection `v`.
pub open spec fn keys_distinct<T>(v: Seq<(String, T)>) -> bool {
    keys_of(v).no_duplicates()
}

/// Whether a module definition's keyed collections hold each key once.
pub open spec fn module_wf(m: ModuleConfig) -> bool {
    &&& keys_distinct(m.css@)
    &&& keys_distinct(m.classes@)
    &&& forall|i: int| 0 <= i < m.classes@.len() ==> keys_distinct(#[trigger] m.classes@[i].1@)
}

impl RawConfig {
    /// Whether every keyed collection holds each key once, as the JSON
    /// objects the config is read from do.
    pub open spec fn wf(&self) -> bool {
        &&& keys_distinct(self.css@)
        &&& keys_distinct(self.classes@)
        &&& forall|i: int| 0 <= i < self.classes@.len() ==> keys_distinct(#[trigger] self.classes@[i].1@)
        &&& keys_distinct(self.monitors@)
        &&& keys_distinct(self.modules@)
        &&& forall|i: int| 0 <= i < self.modules@.len() ==> module_wf(#[trigger] self.modules@[i].1)
    }
}

/// The value of the first entry of `v` under `name` (the only one, where keys
/// are distinct).
pub open spec fn lookup<T>(v: Seq<(String, T)>, name: Seq<char>) -> Option<T>
    decreases v.len(),
{
    if v.len() == 0 {
        None
    } else if v[0].0@ == name {
        Some(v[0].1)
    } else {
        lookup(v.drop_first(), name)
    }
}

/// Resolve module `names` into slots against the registry `reg` (the module
/// name held by each slot so far): a name already registered reuses its slot,
/// a `defined` name not yet registered takes the next slot, and an undefined
/// name is skipped. Gives the slots and the registry after.
pub open spec fn resolve_names(names: Seq<Seq<char>>, defined: Seq<Seq<char>>, reg: Seq<Seq<char>>) -> (
    Seq<usize>,
    Seq<Seq<char>>,
)
    decreases names.len(),
{
    if names.len() == 0 {
        (seq![], reg)
    } else {
        let (slots, r) = resolve_names(names.drop_last(), defined, reg);
        let n = names.last();
        if r.contains(n) {
            (slots.push(r.index_of(n) as usize), r)
        } else if defined.contains(n) {
            (slots.push(r.len() as usize), r.push(n))
        } else {
            (slots, r)
        }
    }
}

/// The monitor entries whose key names an index: the index and the entry's
/// position, in the order given.
pub open spec fn valid_entries(monitors: Seq<(String, MonitorConfig)>) -> Seq<(usize, usize)>
    decreases monitors.len(),
{
    if monitors.len() == 0 {
        seq![]
    } else {
        let rest = valid_entries(monitors.drop_last());
        match key_index(monitors.last().0@) {
            Some(i) => rest.push((i, (monitors.len() - 1) as usize)),
            None => rest,
        }
    }
}

/// `s` (ordered by index) with `e` placed after every entry whose index is not
/// larger than its own.
pub open spec fn insert_sorted(s: Seq<(usize, usize)>, e: (usize, usize)) -> Seq<(usize, usize)>
    decreases s.len(),
{
    if s.len() == 0 {
        seq![e]
    } else if s.last().0 <= e.0 {
        s.push(e)
    } else {
        insert_sorted(s.drop_last(), e).push(s.last())
    }
}

/// `s` in ascending index order; entries with equal indices keep their order.
pub open spec fn sort_by_index(s: Seq<(usize, usize)>) -> Seq<(usize, usize)>
    decreases s.len(),
{
    if s.len() == 0 {
        seq![]
    } else {
        insert_sorted(sort_by_index(s.drop_last()), s.last())
    }
}

/// Resolve the monitor entries in order: each monitor's slot list (a later
/// entry for the same index replaces an earlier one) and the registry after.
pub open spec fn resolve_monitors(
    entries: Seq<(usize, usize)>,
    monitors: Seq<(String, MonitorConfig)>,
    defined: Seq<Seq<char>>,
) -> (Map<usize, Seq<usize>>, Seq<Seq<char>>)
    decreases entries.len(),
{
    if entries.len() == 0 {
        (Map::empty(), seq![])
    } else {
        let (m, r) = resolve_monitors(entries.drop_last(), monitors, defined);
        let e = entries.last();
        let (slots, r2) = resolve_names(
            strings_model(monitors[e.1 as int].1.module_order@),
            defined,
            r,
        );
        (m.insert(e.0, slots), r2)
    }
}

/// The routing a config resolves to: per-monitor slot lists (monitors taken in
/// ascending index order), the legacy list (the top-level `modules`, used only
/// when `monitors` is absent), and the module name of each slot, in first-seen
/// order.
pub open spec fn registry(cfg: RawConfig) -> (Map<usize, Seq<usize>>, Seq<usize>, Seq<Seq<char>>) {
    let defined = keys_of(cfg.modules@);
    let (m, r) = resolve_monitors(
        sort_by_index(valid_entries(cfg.monitors@)),
        cfg.monitors@,
        defined,
    );
    if cfg.monitors@.len() == 0 {
        let (legacy, r2) = resolve_names(strings_model(cfg.module_order@), defined, r);
        (m, legacy, r2)
    } else {
        (m, seq![], r)
    }
}

/// The warning for a monitor key that does not name an index.
pub open spec fn key_warning(key: Seq<char>) -> Seq<char> {
    "Taskband: monitor key '"@ + key + "' is not a valid index (skipped)"@
}

/// The warning for a referenced module that is not defined.
pub open spec fn undefined_warning(name: Seq<char>) -> Seq<char> {
    "Taskband: module '"@ + name + "' is not defined (skipped)"@
}

/// The warning for a module whose `output` is neither text nor html.
pub open spec fn output_warning(name: Seq<char>, output: Seq<char>) -> Seq<char> {
    "Taskband: module '"@ + name + "': unknown output '"@ + output + "' (using text)"@
}

/// The warning for a top-level module list that `monitors` overrides.
pub open spec fn ignored_warning() -> Seq<char> {
    "Taskband: 'monitors' is set; top-level 'modules' is ignored"@
}

/// Whether an `output` value is one the bar knows.
pub open spec fn known_output(s: Seq<char>) -> bool {
    s == "text"@ || s == "html"@
}

/// The warnings for monitor keys that do not name an index, in order.
pub open spec fn key_warnings(monitors: Seq<(String, MonitorConfig)>) -> Seq<Seq<char>>
    decreases monitors.len(),
{
    if monitors.len() == 0 {
        seq![]
    } else {
        let w = key_warnings(monitors.drop_last());
        match key_index(monitors.last().0@) {
            Some(_) => w,
            None => w.push(key_warning(monitors.last().0@)),
        }
    }
}

/// The warnings resolving `names` against the registry `reg` gives: each name
/// seen for the first time that is undefined, or defined with an unknown
/// output.
pub open spec fn resolve_warnings(
    names: Seq<Seq<char>>,
    modules: Seq<(String, ModuleConfig)>,
    reg: Seq<Seq<char>>,
) -> Seq<Seq<char>>
    decreases names.len(),
{
    if names.len() == 0 {
        seq![]
    } else {
        let w = resolve_warnings(names.drop_last(), modules, reg);
        let r = resolve_names(names.drop_last(), keys_of(modules), reg).1;
        let n = names.last();
        if r.contains(n) {
            w
        } else {
            match lookup(modules, n) {
                Some(m) => if known_output(m.output@) {
                    w
                } else {
                    w.push(output_warning(n, m.output@))
                },
                None => w.push(undefined_warning(n)),
            }
        }
    }
}

/// The warnings resolving the monitor entries in order gives.
pub open spec fn monitors_warnings(
    entries: Seq<(usize, usize)>,
    monitors: Seq<(String, MonitorConfig)>,
    modules: Seq<(String, ModuleConfig)>,
) -> Seq<Seq<char>>
    decreases entries.len(),
{
    if entries.len() == 0 {
        seq![]
    } else {
        let w = monitors_warnings(entries.drop_last(), monitors, modules);
        let r = resolve_monitors(entries.drop_last(), monitors, keys_of(modules)).1;
        w + resolve_warnings(
            strings_model(monitors[entries.last().1 as int].1.module_order@),
            modules,
            r,
        )
    }
}

/// Every warning building the registry of `cfg` gives, in order: bad monitor
/// keys, then what resolving the monitors (in ascending index order) skips,
/// then what resolving the legacy list skips, or that it is ignored.
pub open spec fn registry_warnings(cfg: RawConfig) -> Seq<Seq<char>> {
    let sorted = sort_by_index(valid_entries(cfg.monitors@));
    let before = key_warnings(cfg.monitors@) + monitors_warnings(sorted, cfg.monitors@, cfg.modules@);
    if cfg.monitors@.len() == 0 {
        let r = resolve_monitors(sorted, cfg.monitors@, keys_of(cfg.modules@)).1;
        before + resolve_warnings(strings_model(cfg.module_order@), cfg.modules@, r)
    } else if cfg.module_order@.len() > 0 {
        before.push(ignored_warning())
    } else {
        before
    }
}

/// A module's run interval in nanoseconds: its `interval` seconds, at least 1.
pub open spec fn interval_nanos(secs: u64) -> u128 {
    ((if secs >= 1 {
        secs as int
    } else {
        1
    }) * NANOS_PER_SEC) as u128
}

/// Whether `p` runs module `m` under `name`.
pub open spec fn spec_for(p: PluginSpec, name: Seq<char>, m: ModuleConfig) -> bool {
    &&& p.name@ == name
    &&& p.command@ == m.command@
    &&& p.interval == interval_nanos(m.interval)
    &&& p.output == output_mode_of(m.output@)
}

/// Whether `styles` and `class_maps` hold, slot by slot, the look of the
/// modules of `cfg` named in `reg`: the global `css` with the module's own
/// over it, and the shared classes with the module's own merged over them.
pub open spec fn looks_match(
    cfg: RawConfig,
    reg: Seq<Seq<char>>,
    styles: Seq<Style>,
    class_maps: Seq<ClassMap>,
) -> bool {
    &&& styles.len() == reg.len()
    &&& class_maps.len() == reg.len()
    &&& forall|k: int|
        0 <= k < reg.len() ==> match lookup(cfg.modules@, #[trigger] reg[k]) {
            Some(m) => {
                &&& styles[k]@ == resolved_style(pairs_model(cfg.css@), pairs_model(m.css@))
                &&& classes_model(class_maps[k]@) == merge_classes(
                    classes_model(cfg.classes@),
                    classes_model(m.classes@),
                )
            },
            None => false,
        }
}

/// Whether `specs` runs, slot by slot, the modules of `cfg` named in `reg`.
pub open spec fn specs_match(cfg: RawConfig, reg: Seq<Seq<char>>, specs: Seq<PluginSpec>) -> bool {
    &&& specs.len() == reg.len()
    &&& reg.no_duplicates()
    &&& forall|k: int|
        0 <= k < reg.len() ==> match lookup(cfg.modules@, #[trigger] reg[k]) {
            Some(m) => spec_for(specs[k], reg[k], m),
            None => false,
        }
}

proof fn lemma_lookup(v: Seq<(String, ModuleConfig)>, name: Seq<char>)
    ensures
        lookup(v, name) is Some <==> keys_of(v).contains(name),
    decreases v.len(),
{
    if v.len() > 0 {
        lemma_lookup(v.drop_first(), name);
        assert(keys_of(v.drop_first()) =~= keys_of(v).drop_first());
        if keys_of(v).contains(name) && v[0].0@ != name {
            let k = keys_of(v).index_of(name);
            assert(keys_of(v.drop_first())[k - 1] == name);
        }
        if keys_of(v.drop_first()).contains(name) {
            let k = keys_of(v.drop_first()).index_of(name);
            assert(keys_of(v)[k + 1] == name);
        }
        if v[0].0@ == name {
            assert(keys_of(v)[0] == name);
        }
    }
}

/// The module of `cfg` named `name`, with the plugin that runs it.
fn find_module(cfg: &RawConfig, name: &String) -> (r: Option<usize>)
    ensures
        match r {
            Some(k) => k < cfg.modules@.len() && lookup(cfg.modules@, name@) == Some(
                cfg.modules@[k as int].1,
            ),
            None => lookup(cfg.modules@, name@) is None,
        },
{
    let ghost v = cfg.modules@;
    let mut k: usize = 0;
    assert(v.subrange(0, v.len() as int) =~= v);
    while k < cfg.modules.len()
        invariant
            v == cfg.modules@,
            k <= v.len(),
            lookup(v, name@) == lookup(v.subrange(k as int, v.len() as int), name@),
        decreases v.len() - k,
    {
        let ghost rest = v.subrange(k as int, v.len() as int);
        assert(rest[0] == v[k as int]);
        if cfg.modules[k].0 == *name {
            return Some(k);
        }
        assert(rest.drop_first() =~= v.subrange(k + 1, v.len() as int));
        k = k + 1;
    }
    None
}

/// The slot of `name` in the registry, if it has one.
fn find_slot(reg: &Vec<String>, name: &String) -> (r: Option<usize>)
    requires
        strings_model(reg@).no_duplicates(),
    ensures
        match r {
            Some(k) => strings_model(reg@).contains(name@) && k as int == strings_model(
                reg@,
            ).index_of(name@),
            None => !strings_model(reg@).contains(name@),
        },
{
    let ghost names = strings_model(reg@);
    let mut k: usize = 0;
    while k < reg.len()
        invariant
            names == strings_model(reg@),
            names.no_duplicates(),
            k <= names.len(),
            forall|t: int| 0 <= t < k ==> names[t] != name@,
        decreases names.len() - k,
    {
        if reg[k] == *name {
            assert(names[k as int] == name@);
            return Some(k);
        }
        k = k + 1;
    }
    None
}

/// The plugin that runs module `m` under `name`.
fn plugin_for(name: &String, m: &ModuleConfig) -> (p: PluginSpec)
    ensures
        spec_for(p, name@, *m),
{
    let secs: u64 = if m.interval >= 1 {
        m.interval
    } else {
        1
    };
    let interval = (secs as u128) * NANOS_PER_SEC;
    PluginSpec {
        name: name.clone(),
        command: m.command.clone(),
        interval,
        output: output_mode(m.output.as_str()),
    }
}

/// Resolve a list of module names into slot indices, registering each
/// newly-seen module (its plugin) into the shared registry. Undefined names
/// warn and are skipped; a repeated name reuses its existing slot.
fn resolve_list(
    names: &Vec<String>,
    cfg: &RawConfig,
    specs: &mut Vec<PluginSpec>,
    reg: &mut Vec<String>,
    warnings: &mut Vec<String>,
    styles: &mut Vec<Style>,
    class_maps: &mut Vec<ClassMap>,
) -> (slots: Vec<usize>)
    requires
        specs_match(*cfg, strings_model(old(reg)@), old(specs)@),
        looks_match(*cfg, strings_model(old(reg)@), old(styles)@, old(class_maps)@),
    ensures
        specs_match(*cfg, strings_model(final(reg)@), final(specs)@),
        looks_match(*cfg, strings_model(final(reg)@), final(styles)@, final(class_maps)@),
        (slots@, strings_model(final(reg)@)) == resolve_names(
            strings_model(names@),
            keys_of(cfg.modules@),
            strings_model(old(reg)@),
        ),
        strings_model(final(warnings)@) == strings_model(old(warnings)@) + resolve_warnings(
            strings_model(names@),
            cfg.modules@,
            strings_model(old(reg)@),
        ),
{
    let ghost defined = keys_of(cfg.modules@);
    let ghost start = strings_model(reg@);
    let ghost ns = strings_model(names@);
    let ghost w0 = strings_model(warnings@);
    let mut slots: Vec<usize> = Vec::new();
    let mut i: usize = 0;
    assert(ns.take(0) =~= seq![]);
    while i < names.len()
        invariant
            defined == keys_of(cfg.modules@),
            start == strings_model(old(reg)@),
            ns == strings_model(names@),
            i <= names@.len(),
            specs_match(*cfg, strings_model(reg@), specs@),
            looks_match(*cfg, strings_model(reg@), styles@, class_maps@),
            (slots@, strings_model(reg@)) == resolve_names(ns.take(i as int), defined, start),
            strings_model(warnings@) == w0 + resolve_warnings(ns.take(i as int), cfg.modules@, start),
        decreases names@.len() - i,
    {
        let name = &names[i];
        let ghost r0 = strings_model(reg@);
        let ghost s0 = slots@;
        let ghost wb = strings_model(warnings@);
        assert(ns.take(i + 1).drop_last() =~= ns.take(i as int));
        assert(ns.take(i + 1).last() == name@);
        match find_slot(reg, name) {
            Some(slot) => {
                slots.push(slot);
            },
            None => {
                proof {
                    lemma_lookup(cfg.modules@, name@);
                }
                match find_module(cfg, name) {
                    Some(k) => {
                        if !is_known_output(cfg.modules[k].1.output.as_str()) {
                            let mut w = String::from_str("Taskband: module '");
                            w.append(name.as_str());
                            w.append("': unknown output '");
                            w.append(cfg.modules[k].1.output.as_str());
                            w.append("' (using text)");
                            warnings.push(w);
                            assert(strings_model(warnings@) =~= wb.push(w@));
                        }
                        let slot = specs.len();
                        let p = plugin_for(name, &cfg.modules[k].1);
                        specs.push(p);
                        styles.push(resolve(&cfg.css, &cfg.modules[k].1.css));
                        class_maps.push(merge_class_maps(&cfg.classes, &cfg.modules[k].1.classes));
                        reg.push(name.clone());
                        slots.push(slot);
                        proof {
                            assert(strings_model(reg@) =~= r0.push(name@));
                            assert forall|a: int, b: int|
                                0 <= a < strings_model(reg@).len() && 0 <= b < strings_model(
                                    reg@,
                                ).len() && a != b implies strings_model(reg@)[a] != strings_model(
                                reg@,
                            )[b] by {
                                if a < r0.len() && b < r0.len() {
                                } else if a == r0.len() {
                                    assert(r0[b] != name@);
                                } else {
                                    assert(r0[a] != name@);
                                }
                            }
                            assert forall|t: int| 0 <= t < strings_model(reg@).len() implies match lookup(
                                cfg.modules@,
                                #[trigger] strings_model(reg@)[t],
                            ) {
                                Some(m) => spec_for(specs@[t], strings_model(reg@)[t], m),
                                None => false,
                            } by {
                                if t < r0.len() {
                                    assert(strings_model(reg@)[t] == r0[t]);
                                }
                            }
                        }
                    },
                    None => {
                        let mut w = String::from_str("Taskband: module '");
                        w.append(name.as_str());
                        w.append("' is not defined (skipped)");
                        warnings.push(w);
                        assert(strings_model(warnings@) =~= wb.push(w@));
                    },
                }
            },
        }
        i = i + 1;
    }
    assert(ns.take(i as int) =~= ns);
    slots
}

/// `s` with `e` inserted after every entry whose index is not larger.
fn insert_entry(s: &mut Vec<(usize, usize)>, e: (usize, usize))
    ensures
        final(s)@ == insert_sorted(old(s)@, e),
{
    let ghost before = s@;
    s.push(e);
    let mut j = s.len() - 1;
    assert(before.take(j as int) =~= before);
    assert(before.skip(j as int) =~= seq![]);
    while j > 0 && s[j - 1].0 > e.0
        invariant
            j <= before.len(),
            s@ == before.take(j as int) + seq![e] + before.skip(j as int),
            insert_sorted(before, e) == insert_sorted(before.take(j as int), e) + before.skip(
                j as int,
            ),
        decreases j,
    {
        let prev = s[j - 1];
        s.set(j, prev);
        s.set(j - 1, e);
        proof {
            let t = before.take(j as int);
            assert(t.drop_last() =~= before.take(j - 1));
            assert(t.last() == prev);
            assert(before.skip(j - 1) =~= seq![prev] + before.skip(j as int));
            assert(insert_sorted(before, e) =~= insert_sorted(before.take(j - 1), e) + before.skip(
                j - 1,
            ));
        }
        j = j - 1;
        assert(s@ =~= before.take(j as int) + seq![e] + before.skip(j as int));
    }
    proof {
        if j == 0 {
            assert(before.take(0) =~= seq![]);
        } else {
            assert(before.take(j as int).last() == before[j - 1]);
        }
        assert(insert_sorted(before.take(j as int), e) =~= before.take(j as int) + seq![e]);
    }
}

/// Build the shared registry plus per-monitor slot lists. When `monitors` is
/// present it wins (and the top-level `modules` list is ignored with a
/// warning); otherwise `legacy` holds the top-level `modules` slots for the
/// primary.
pub fn build_registry(cfg: &RawConfig) -> (b: BuildResult)
    requires
        cfg.wf(),
    ensures
        b.monitors@.map_values(|v: Vec<usize>| v@) == registry(*cfg).0,
        b.legacy@ == registry(*cfg).1,
        specs_match(*cfg, registry(*cfg).2, b.specs@),
        looks_match(*cfg, registry(*cfg).2, b.styles@, b.class_maps@),
        b.styles@.len() == b.specs@.len(),
        b.class_maps@.len() == b.specs@.len(),
        b.clock_reserve == cfg.secondary_clock_reserve,
        strings_model(b.warnings@) == registry_warnings(*cfg),
{
    let ghost defined = keys_of(cfg.modules@);
    let ghost mons = cfg.monitors@;
    let mut specs: Vec<PluginSpec> = Vec::new();
    let mut reg: Vec<String> = Vec::new();
    let mut warnings: Vec<String> = Vec::new();
    let mut styles: Vec<Style> = Vec::new();
    let mut class_maps: Vec<ClassMap> = Vec::new();

    // Monitors with a valid index, then in ascending index order so slot
    // assignment is deterministic.
    let mut entries: Vec<(usize, usize)> = Vec::new();
    let mut k: usize = 0;
    assert(mons.take(0) =~= seq![]);
    while k < cfg.monitors.len()
        invariant
            mons == cfg.monitors@,
            k <= mons.len(),
            entries@ == valid_entries(mons.take(k as int)),
            strings_model(warnings@) == key_warnings(mons.take(k as int)),
        decreases mons.len() - k,
    {
        assert(mons.take(k + 1).drop_last() =~= mons.take(k as int));
        assert(mons.take(k + 1).last() == mons[k as int]);
        match parse_index(cfg.monitors[k].0.as_str()) {
            Some(index) => entries.push((index, k)),
            None => {
                let ghost w0 = strings_model(warnings@);
                let mut w = String::from_str("Taskband: monitor key '");
                w.append(cfg.monitors[k].0.as_str());
                w.append("' is not a valid index (skipped)");
                warnings.push(w);
                assert(strings_model(warnings@) =~= w0.push(w@));
            },
        }
        k = k + 1;
    }
    assert(mons.take(k as int) =~= mons);
    let ghost valid = entries@;
    let mut sorted: Vec<(usize, usize)> = Vec::new();
    let mut k: usize = 0;
    assert(valid.take(0) =~= seq![]);
    while k < entries.len()
        invariant
            valid == entries@,
            k <= valid.len(),
            sorted@ == sort_by_index(valid.take(k as int)),
        decreases valid.len() - k,
    {
        assert(valid.take(k + 1).drop_last() =~= valid.take(k as int));
        insert_entry(&mut sorted, entries[k]);
        k = k + 1;
    }
    assert(valid.take(k as int) =~= valid);
    proof {
        lemma_valid_positions(mons);
        lemma_sorted_positions(valid, mons.len() as int);
    }

    let ghost order = sorted@;
    let mut monitors: HashMap<usize, Vec<usize>> = HashMap::new();
    let mut j: usize = 0;
    assert(order.take(0) =~= seq![]);
    assert(monitors@.map_values(|v: Vec<usize>| v@) =~= Map::<usize, Seq<usize>>::empty());
    while j < sorted.len()
        invariant
            order == sorted@,
            j <= order.len(),
            mons == cfg.monitors@,
            defined == keys_of(cfg.modules@),
            forall|t: int| 0 <= t < order.len() ==> (#[trigger] order[t]).1 < mons.len(),
            specs_match(*cfg, strings_model(reg@), specs@),
            looks_match(*cfg, strings_model(reg@), styles@, class_maps@),
            (monitors@.map_values(|v: Vec<usize>| v@), strings_model(reg@)) == resolve_monitors(
                order.take(j as int),
                mons,
                defined,
            ),
            strings_model(warnings@) == key_warnings(mons) + monitors_warnings(
                order.take(j as int),
                mons,
                cfg.modules@,
            ),
        decreases order.len() - j,
    {
        let (index, pos) = sorted[j];
        assert(order[j as int].1 < mons.len());
        assert(order.take(j + 1).drop_last() =~= order.take(j as int));
        assert(order.take(j + 1).last() == (index, pos));
        let ghost m0 = monitors@.map_values(|v: Vec<usize>| v@);
        let ghost w0 = strings_model(warnings@);
        let slots = resolve_list(
            &cfg.monitors[pos].1.module_order,
            cfg,
            &mut specs,
            &mut reg,
            &mut warnings,
            &mut styles,
            &mut class_maps,
        );
        assert(strings_model(warnings@) =~= key_warnings(mons) + monitors_warnings(
            order.take(j + 1),
            mons,
            cfg.modules@,
        ));
        let ghost sv = slots@;
        monitors.insert(index, slots);
        assert(monitors@.map_values(|v: Vec<usize>| v@) =~= m0.insert(index, sv));
        j = j + 1;
    }
    assert(order.take(j as int) =~= order);

    let ghost w0 = strings_model(warnings@);
    let legacy = if cfg.monitors.len() == 0 {
        resolve_list(
            &cfg.module_order,
            cfg,
            &mut specs,
            &mut reg,
            &mut warnings,
            &mut styles,
            &mut class_maps,
        )
    } else {
        if cfg.module_order.len() > 0 {
            let w = String::from_str("Taskband: 'monitors' is set; top-level 'modules' is ignored");
            warnings.push(w);
            assert(strings_model(warnings@) =~= w0.push(w@));
        }
        Vec::new()
    };
    BuildResult {
        specs,
        monitors,
        legacy,
        clock_reserve: cfg.secondary_clock_reserve,
        warnings,
        styles,
        class_maps,
    }
}

proof fn lemma_insert_positions(s: Seq<(usize, usize)>, e: (usize, usize), n: int)
    requires
        forall|t: int| 0 <= t < s.len() ==> (#[trigger] s[t]).1 < n,
        e.1 < n,
    ensures
        forall|t: int| 0 <= t < insert_sorted(s, e).len() ==> (#[trigger] insert_sorted(s, e)[t]).1
            < n,
    decreases s.len(),
{
    if s.len() > 0 && s.last().0 > e.0 {
        lemma_insert_positions(s.drop_last(), e, n);
        let r = insert_sorted(s.drop_last(), e);
        assert forall|t: int| 0 <= t < r.push(s.last()).len() implies (#[trigger] r.push(
            s.last(),
        )[t]).1 < n by {
            if t < r.len() {
                assert(r.push(s.last())[t] == r[t]);
            }
        }
    }
}

proof fn lemma_sorted_positions(s: Seq<(usize, usize)>, n: int)
    requires
        forall|t: int| 0 <= t < s.len() ==> (#[trigger] s[t]).1 < n,
    ensures
        forall|t: int| 0 <= t < sort_by_index(s).len() ==> (#[trigger] sort_by_index(s)[t]).1 < n,
    decreases s.len(),
{
    if s.len() > 0 {
        lemma_sorted_positions(s.drop_last(), n);
        lemma_insert_positions(sort_by_index(s.drop_last()), s.last(), n);
    }
}

proof fn lemma_valid_positions(mons: Seq<(String, MonitorConfig)>)
    ensures
        forall|t: int|
            0 <= t < valid_entries(mons).len() ==> (#[trigger] valid_entries(mons)[t]).1 < mons.len(),
    decreases mons.len(),
{
    if mons.len() > 0 {
        lemma_valid_positions(mons.drop_last());
        let rest = valid_entries(mons.drop_last());
        assert forall|t: int| 0 <= t < valid_entries(mons).len() implies (#[trigger] valid_entries(
            mons,
        )[t]).1 < mons.len() by {
            if t < rest.len() {
                assert(valid_entries(mons)[t] == rest[t]);
            }
        }
    }
}

proof fn lemma_resolve_names_grows(names: Seq<Seq<char>>, defined: Seq<Seq<char>>, reg: Seq<Seq<char>>)
    ensures
        reg.len() <= resolve_names(names, defined, reg).1.len(),
        resolve_names(names, defined, reg).1.len() <= usize::MAX ==> forall|k: int|
            0 <= k < resolve_names(names, defined, reg).0.len() ==> (#[trigger] resolve_names(
                names,
                defined,
                reg,
            ).0[k]) < resolve_names(names, defined, reg).1.len(),
    decreases names.len(),
{
    if names.len() > 0 {
        lemma_resolve_names_grows(names.drop_last(), defined, reg);
        let (slots, r) = resolve_names(names.drop_last(), defined, reg);
        let n = names.last();
        let (slots2, r2) = resolve_names(names, defined, reg);
        if r.contains(n) {
            assert(0 <= r.index_of(n) < r.len());
        }
        assert forall|k: int| 0 <= k < slots2.len() && r2.len() <= usize::MAX implies (
        #[trigger] slots2[k]) < r2.len() by {
            if k < slots.len() {
                assert(slots2[k] == slots[k]);
            }
        }
    }
}

proof fn lemma_resolve_monitors_grows(
    entries: Seq<(usize, usize)>,
    monitors: Seq<(String, MonitorConfig)>,
    defined: Seq<Seq<char>>,
    bound: int,
)
    requires
        resolve_monitors(entries, monitors, defined).1.len() <= bound <= usize::MAX,
    ensures
        forall|i: usize|
            #[trigger] resolve_monitors(entries, monitors, defined).0.contains_key(i) ==> forall|k: int|
                0 <= k < resolve_monitors(entries, monitors, defined).0[i].len() ==> (
                #[trigger] resolve_monitors(entries, monitors, defined).0[i][k]) < bound,
    decreases entries.len(),
{
    if entries.len() > 0 {
        let (m, r) = resolve_monitors(entries.drop_last(), monitors, defined);
        let e = entries.last();
        let names = strings_model(monitors[e.1 as int].1.module_order@);
        lemma_resolve_names_grows(names, defined, r);
        lemma_resolve_monitors_grows(entries.drop_last(), monitors, defined, bound);
    }
}

/// Every slot a monitor or the legacy list names is a slot of the registry:
/// it indexes the plugin list that `build_registry` returns.
pub proof fn lemma_registry_slots_in_range(cfg: RawConfig)
    requires
        registry(cfg).2.len() <= usize::MAX,
    ensures
        forall|i: usize|
            #[trigger] registry(cfg).0.contains_key(i) ==> forall|k: int|
                0 <= k < registry(cfg).0[i].len() ==> (#[trigger] registry(cfg).0[i][k])
                    < registry(cfg).2.len(),
        forall|k: int| 0 <= k < registry(cfg).1.len() ==> (#[trigger] registry(cfg).1[k]) < registry(
            cfg,
        ).2.len(),
{
    let defined = keys_of(cfg.modules@);
    let entries = sort_by_index(valid_entries(cfg.monitors@));
    let (m, r) = resolve_monitors(entries, cfg.monitors@, defined);
    if cfg.monitors@.len() == 0 {
        lemma_resolve_names_grows(strings_model(cfg.module_order@), defined, r);
    }
    lemma_resolve_monitors_grows(entries, cfg.monitors@, defined, registry(cfg).2.len() as int);
}


/// The names of `names` that `defined` holds, in order.
pub open spec fn defined_only(names: Seq<Seq<char>>, defined: Seq<Seq<char>>) -> Seq<Seq<char>>
    decreases names.len(),
{
    if names.len() == 0 {
        seq![]
    } else {
        let rest = defined_only(names.drop_last(), defined);
        if defined.contains(names.last()) {
            rest.push(names.last())
        } else {
            rest
        }
    }
}

/// The module names that `slots` stand for under the registry `reg`.
pub open spec fn slot_names(slots: Seq<usize>, reg: Seq<Seq<char>>) -> Seq<Seq<char>> {
    slots.map_values(|s: usize| reg[s as int])
}

proof fn lemma_slot_names_prefix(slots: Seq<usize>, r: Seq<Seq<char>>, r2: Seq<Seq<char>>)
    requires
        r.len() <= r2.len(),
        r2.subrange(0, r.len() as int) == r,
        forall|k: int| 0 <= k < slots.len() ==> (#[trigger] slots[k]) < r.len(),
    ensures
        slot_names(slots, r2) == slot_names(slots, r),
{
    assert forall|k: int| 0 <= k < slots.len() implies #[trigger] slot_names(slots, r2)[k] == slot_names(
        slots,
        r,
    )[k] by {
        assert(r2.subrange(0, r.len() as int)[slots[k] as int] == r2[slots[k] as int]);
    }
    assert(slot_names(slots, r2) =~= slot_names(slots, r));
}

proof fn lemma_resolve_names_names(names: Seq<Seq<char>>, defined: Seq<Seq<char>>, reg: Seq<Seq<char>>)
    requires
        resolve_names(names, defined, reg).1.len() <= usize::MAX,
        forall|k: int| 0 <= k < reg.len() ==> defined.contains(#[trigger] reg[k]),
    ensures
        reg.len() <= resolve_names(names, defined, reg).1.len(),
        resolve_names(names, defined, reg).1.subrange(0, reg.len() as int) == reg,
        forall|k: int|
            0 <= k < resolve_names(names, defined, reg).1.len() ==> defined.contains(
                #[trigger] resolve_names(names, defined, reg).1[k],
            ),
        slot_names(resolve_names(names, defined, reg).0, resolve_names(names, defined, reg).1)
            == defined_only(names, defined),
    decreases names.len(),
{
    let (slots2, r2) = resolve_names(names, defined, reg);
    if names.len() == 0 {
        assert(r2.subrange(0, reg.len() as int) =~= reg);
        assert(slot_names(slots2, r2) =~= seq![]);
    } else {
        let (slots, r) = resolve_names(names.drop_last(), defined, reg);
        let n = names.last();
        lemma_resolve_names_grows(names.drop_last(), defined, reg);
        lemma_resolve_names_grows(names, defined, reg);
        assert(r.len() <= r2.len());
        lemma_resolve_names_names(names.drop_last(), defined, reg);
        if r.contains(n) {
            let i = r.index_of(n);
            assert(slot_names(slots2, r2) =~= slot_names(slots, r).push(n));
        } else if defined.contains(n) {
            assert(r2.subrange(0, reg.len() as int) =~= r.subrange(0, reg.len() as int));
            assert forall|k: int| 0 <= k < r2.len() implies defined.contains(#[trigger] r2[k]) by {
                if k < r.len() {
                    assert(r2[k] == r[k]);
                }
            }
            assert(r2.subrange(0, r.len() as int) =~= r);
            lemma_slot_names_prefix(slots, r, r2);
            assert(slot_names(slots2, r2) =~= slot_names(slots, r2).push(n));
        }
    }
}

/// Whether entry `e` of a monitor list names a monitor: its key reads as the
/// index `e.0` and `e.1` is its position.
pub open spec fn names_monitor(monitors: Seq<(String, MonitorConfig)>, e: (usize, usize)) -> bool {
    e.1 < monitors.len() && key_index(monitors[e.1 as int].0@) == Some(e.0)
}

proof fn lemma_valid_entries_named(mons: Seq<(String, MonitorConfig)>)
    requires
        mons.len() <= usize::MAX,
    ensures
        forall|e: (usize, usize)| #[trigger] valid_entries(mons).contains(e) ==> names_monitor(mons, e),
        forall|k: int|
            0 <= k < mons.len() && #[trigger] key_index(mons[k].0@) is Some ==> valid_entries(
                mons,
            ).contains((key_index(mons[k].0@)->0, k as usize)),
    decreases mons.len(),
{
    if mons.len() > 0 {
        let rest = valid_entries(mons.drop_last());
        lemma_valid_entries_named(mons.drop_last());
        assert forall|e: (usize, usize)| #[trigger] valid_entries(mons).contains(e) implies names_monitor(
            mons,
            e,
        ) by {
            let t = valid_entries(mons).index_of(e);
            if t < rest.len() {
                assert(rest[t] == e);
                assert(rest.contains(e));
                assert(mons.drop_last()[e.1 as int] == mons[e.1 as int]);
            } else {
                assert(key_index(mons.last().0@) is Some);
                assert(valid_entries(mons) == rest.push(
                    (key_index(mons.last().0@)->0, (mons.len() - 1) as usize),
                ));
            }
        }
        assert forall|k: int|
            0 <= k < mons.len() && #[trigger] key_index(mons[k].0@) is Some implies valid_entries(
            mons,
        ).contains((key_index(mons[k].0@)->0, k as usize)) by {
            let e = (key_index(mons[k].0@)->0, k as usize);
            if k < mons.len() - 1 {
                assert(mons.drop_last()[k] == mons[k]);
                let t = rest.index_of(e);
                assert(valid_entries(mons)[t] == e);
            } else {
                let v = valid_entries(mons);
                assert(v == rest.push(e));
                assert(v[v.len() - 1] == e);
            }
        }
    }
}

proof fn lemma_insert_sorted_contains(s: Seq<(usize, usize)>, e: (usize, usize))
    ensures
        forall|x: (usize, usize)| #[trigger] insert_sorted(s, e).contains(x) <==> s.contains(x) || x == e,
    decreases s.len(),
{
    let r = insert_sorted(s, e);
    if s.len() == 0 {
        assert(r[0] == e);
    } else if s.last().0 <= e.0 {
        assert forall|x: (usize, usize)| #[trigger] r.contains(x) <==> s.contains(x) || x == e by {
            if s.contains(x) {
                assert(r[s.index_of(x)] == x);
            }
            if x == e {
                assert(r[s.len() as int] == e);
            }
            if r.contains(x) && x != e {
                assert(s[r.index_of(x)] == x);
            }
        }
    } else {
        let p = insert_sorted(s.drop_last(), e);
        lemma_insert_sorted_contains(s.drop_last(), e);
        assert forall|x: (usize, usize)| #[trigger] r.contains(x) <==> s.contains(x) || x == e by {
            if s.contains(x) {
                let t = s.index_of(x);
                if t < s.len() - 1 {
                    assert(s.drop_last()[t] == x);
                    assert(p.contains(x));
                    assert(r[p.index_of(x)] == x);
                } else {
                    assert(r[p.len() as int] == x);
                }
            }
            if x == e {
                assert(p.contains(e));
                assert(r[p.index_of(e)] == e);
            }
            if r.contains(x) {
                let t = r.index_of(x);
                if t < p.len() {
                    assert(p[t] == x);
                    assert(p.contains(x));
                    if x != e {
                        assert(s[s.drop_last().index_of(x)] == x);
                    }
                }
            }
        }
    }
}

proof fn lemma_sort_contains(s: Seq<(usize, usize)>)
    ensures
        forall|x: (usize, usize)| #[trigger] sort_by_index(s).contains(x) <==> s.contains(x),
    decreases s.len(),
{
    if s.len() > 0 {
        lemma_sort_contains(s.drop_last());
        lemma_insert_sorted_contains(sort_by_index(s.drop_last()), s.last());
        assert forall|x: (usize, usize)| #[trigger] sort_by_index(s).contains(x) <==> s.contains(x) by {
            if s.contains(x) && x != s.last() {
                let t = s.index_of(x);
                assert(s.drop_last()[t] == x);
            }
            if s.drop_last().contains(x) {
                assert(s[s.drop_last().index_of(x)] == x);
            }
            if x == s.last() {
                assert(s[s.len() - 1] == x);
            }
        }
    }
}

proof fn lemma_resolve_monitors_names(
    entries: Seq<(usize, usize)>,
    monitors: Seq<(String, MonitorConfig)>,
    defined: Seq<Seq<char>>,
)
    requires
        resolve_monitors(entries, monitors, defined).1.len() <= usize::MAX,
        forall|t: int| 0 <= t < entries.len() ==> (#[trigger] entries[t]).1 < monitors.len(),
    ensures
        forall|k: int|
            0 <= k < resolve_monitors(entries, monitors, defined).1.len() ==> defined.contains(
                #[trigger] resolve_monitors(entries, monitors, defined).1[k],
            ),
        forall|i: usize|
            #[trigger] resolve_monitors(entries, monitors, defined).0.contains_key(i) <==> exists|t: int|
                0 <= t < entries.len() && (#[trigger] entries[t]).0 == i,
        forall|i: usize|
            #[trigger] resolve_monitors(entries, monitors, defined).0.contains_key(i) ==> exists|t: int|
                0 <= t < entries.len() && (#[trigger] entries[t]).0 == i && slot_names(
                    resolve_monitors(entries, monitors, defined).0[i],
                    resolve_monitors(entries, monitors, defined).1,
                ) == defined_only(strings_model(monitors[entries[t].1 as int].1.module_order@), defined),
    decreases entries.len(),
{
    if entries.len() > 0 {
        let pre = entries.drop_last();
        let (m, r) = resolve_monitors(pre, monitors, defined);
        let e = entries.last();
        let names = strings_model(monitors[e.1 as int].1.module_order@);
        let (slots, r2) = resolve_names(names, defined, r);
        assert(resolve_monitors(entries, monitors, defined) == (m.insert(e.0, slots), r2));
        lemma_resolve_names_grows(names, defined, r);
        lemma_resolve_monitors_names(pre, monitors, defined);
        lemma_resolve_names_names(names, defined, r);
        lemma_resolve_monitors_grows(pre, monitors, defined, r.len() as int);
        let m2 = m.insert(e.0, slots);
        assert forall|i: usize| #[trigger] m2.contains_key(i) <==> exists|t: int|
            0 <= t < entries.len() && (#[trigger] entries[t]).0 == i by {
            if m.contains_key(i) {
                let t = choose|t: int| 0 <= t < pre.len() && (#[trigger] pre[t]).0 == i;
                assert(entries[t] == pre[t]);
            }
            if exists|t: int| 0 <= t < entries.len() && (#[trigger] entries[t]).0 == i {
                let t = choose|t: int| 0 <= t < entries.len() && (#[trigger] entries[t]).0 == i;
                if t < pre.len() {
                    assert(pre[t] == entries[t]);
                }
            }
        }
        assert forall|i: usize| #[trigger] m2.contains_key(i) implies exists|t: int|
            0 <= t < entries.len() && (#[trigger] entries[t]).0 == i && slot_names(m2[i], r2)
                == defined_only(strings_model(monitors[entries[t].1 as int].1.module_order@), defined) by {
            if i == e.0 {
                assert(entries[entries.len() - 1] == e);
            } else {
                let t = choose|t: int|
                    0 <= t < pre.len() && (#[trigger] pre[t]).0 == i && slot_names(m[i], r)
                        == defined_only(strings_model(monitors[pre[t].1 as int].1.module_order@), defined);
                assert(entries[t] == pre[t]);
                lemma_slot_names_prefix(m[i], r, r2);
            }
        }
    }
}

/// The routing a config resolves to, in names: a monitor is routed exactly
/// when some `monitors` key reads as its index, and its slots stand for the
/// defined modules (in order, undefined names dropped) of the `modules` list
/// of such an entry; the legacy slots stand for the defined modules of the
/// top-level `modules` when `monitors` is empty, and there are none otherwise.
pub proof fn lemma_registry_routes(cfg: RawConfig)
    requires
        registry(cfg).2.len() <= usize::MAX,
    ensures
        forall|i: usize|
            #[trigger] registry(cfg).0.contains_key(i) <==> exists|k: int|
                0 <= k < cfg.monitors@.len() && #[trigger] key_index(cfg.monitors@[k].0@) == Some(i),
        forall|i: usize|
            #[trigger] registry(cfg).0.contains_key(i) ==> exists|k: int|
                0 <= k < cfg.monitors@.len() && #[trigger] key_index(cfg.monitors@[k].0@) == Some(i)
                    && slot_names(registry(cfg).0[i], registry(cfg).2) == defined_only(
                    strings_model(cfg.monitors@[k].1.module_order@),
                    keys_of(cfg.modules@),
                ),
        slot_names(registry(cfg).1, registry(cfg).2) == (if cfg.monitors@.len() == 0 {
            defined_only(strings_model(cfg.module_order@), keys_of(cfg.modules@))
        } else {
            seq![]
        }),
{
    let mons = cfg.monitors@;
    let defined = keys_of(cfg.modules@);
    let valid = valid_entries(mons);
    let entries = sort_by_index(valid);
    let (m, r) = resolve_monitors(entries, mons, defined);
    lemma_valid_positions(mons);
    lemma_sorted_positions(valid, mons.len() as int);
    assert(mons.len() == cfg.monitors.len());
    lemma_valid_entries_named(mons);
    lemma_sort_contains(valid);
    if mons.len() == 0 {
        let names = strings_model(cfg.module_order@);
        lemma_resolve_names_grows(names, defined, r);
        lemma_resolve_monitors_names(entries, mons, defined);
        lemma_resolve_names_names(names, defined, r);
    } else {
        lemma_resolve_monitors_names(entries, mons, defined);
        assert(slot_names(registry(cfg).1, registry(cfg).2) =~= seq![]);
    }
    assert forall|i: usize| #[trigger] registry(cfg).0.contains_key(i) <==> exists|k: int|
        0 <= k < mons.len() && #[trigger] key_index(mons[k].0@) == Some(i) by {
        if m.contains_key(i) {
            let t = choose|t: int| 0 <= t < entries.len() && (#[trigger] entries[t]).0 == i;
            assert(entries.contains(entries[t]));
            assert(valid.contains(entries[t]));
            assert(names_monitor(mons, entries[t]));
            assert(key_index(mons[entries[t].1 as int].0@) == Some(i));
        }
        if exists|k: int| 0 <= k < mons.len() && #[trigger] key_index(mons[k].0@) == Some(i) {
            let k = choose|k: int| 0 <= k < mons.len() && #[trigger] key_index(mons[k].0@) == Some(i);
            let e = (i, k as usize);
            assert(valid.contains(e));
            assert(entries.contains(e));
            let t = entries.index_of(e);
            assert(entries[t].0 == i);
        }
    }
    assert forall|i: usize| #[trigger] registry(cfg).0.contains_key(i) implies exists|k: int|
        0 <= k < mons.len() && #[trigger] key_index(mons[k].0@) == Some(i) && slot_names(
            registry(cfg).0[i],
            registry(cfg).2,
        ) == defined_only(strings_model(mons[k].1.module_order@), defined) by {
        let t = choose|t: int|
            0 <= t < entries.len() && (#[trigger] entries[t]).0 == i && slot_names(m[i], r)
                == defined_only(strings_model(mons[entries[t].1 as int].1.module_order@), defined);
        assert(entries.contains(entries[t]));
        assert(valid.contains(entries[t]));
        assert(names_monitor(mons, entries[t]));
        let k = entries[t].1 as int;
        if mons.len() == 0 {
        } else {
            assert(registry(cfg).2 == r);
        }
        assert(key_index(mons[k].0@) == Some(i));
    }
}

/// Every plugin the registry runs waits at least a second between runs.
pub proof fn lemma_specs_wait_a_second(cfg: RawConfig, reg: Seq<Seq<char>>, specs: Seq<PluginSpec>)
    requires
        specs_match(cfg, reg, specs),
    ensures
        forall|k: int| 0 <= k < specs.len() ==> (#[trigger] specs[k]).interval >= NANOS_PER_SEC,
{
    assert forall|k: int| 0 <= k < specs.len() implies (#[trigger] specs[k]).interval >= NANOS_PER_SEC by {
        assert(lookup(cfg.modules@, reg[k]) is Some);
    }
}

} // verus!
