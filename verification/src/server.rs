//! The configurator's endpoint logic: what the page is shown of the current
//! arrangement, and how an arrangement it sends back is written into the
//! config text. The HTTP server, the file access and the JSON framing live
//! with the application.

use vstd::prelude::*;
use vstd::utf8::*;
use vstd::string::StringSliceAdditionalSpecFns;
use std::collections::BTreeMap;
use crate::config::{key_index, parse_index, MonitorConfig, RawConfig};
use crate::editor::{
    append_module, append_module_error, indent_from, monitors_text, set_monitors, sorted_entries_of, spec_append_module,
    set_monitors_error, spec_set_monitors, texts, content_hash, fnv1a,
};
use crate::taskbar::{sized, MonitorInfo};
use crate::catalog::{str_less, str_lt, CatalogEntry};
use crate::config::keys_of;
use crate::text::{
    chars_of, decimal, find_char, find_from, hex_fixed, is_hex_digit, lemma_find_from, lemma_hex_fixed,
    push_decimal, push_hex_fixed, starts_with_at, strings_model, sub_vec,
};

verus! {

broadcast use vstd::string::group_string_axioms;

/// One attached monitor, as reported to the page.
pub struct MonitorSnapshot {
    pub index: usize,
    pub name: String,
    pub primary: bool,
    pub width: i32,
    pub height: i32,
    pub has_taskbar: bool,
}

/// The snapshot of monitor `m`, shown under `name`.
pub fn snapshot(m: &MonitorInfo, name: String) -> (s: MonitorSnapshot)
    requires
        sized(*m),
    ensures
        s.index == m.index,
        s.name == name,
        s.primary == m.primary,
        s.width == m.rect.right - m.rect.left,
        s.height == m.rect.bottom - m.rect.top,
        s.has_taskbar == m.taskbar is Some,
{
    MonitorSnapshot {
        index: m.index,
        name,
        primary: m.primary,
        width: m.rect.right - m.rect.left,
        height: m.rect.bottom - m.rect.top,
        has_taskbar: m.taskbar.is_some(),
    }
}

/// The /api/apply request body.
pub struct ApplyRequest {
    pub hash: String,
    /// Monitor index (as a string) to ordered module names, for every monitor
    /// shown on the page.
    pub monitors: Vec<(String, Vec<String>)>,
    /// Catalog modules to copy into the config before arranging.
    pub add: Vec<String>,
}

/// The modules a monitor shows: its `monitors` entry (looked up by its index
/// in decimal) when the config has any, else the top-level list on the
/// primary, else nothing.
pub open spec fn arrangement_of(cfg: RawConfig, index: usize, primary: bool) -> Seq<Seq<char>> {
    if cfg.monitors@.len() > 0 {
        match crate::config::lookup(cfg.monitors@, decimal(index as nat)) {
            Some(mc) => strings_model(mc.module_order@),
            None => seq![],
        }
    } else if primary {
        strings_model(cfg.module_order@)
    } else {
        seq![]
    }
}

/// A copy of a list of strings.
fn copy_strings(v: &Vec<String>) -> (r: Vec<String>)
    ensures
        strings_model(r@) == strings_model(v@),
{
    let mut r: Vec<String> = Vec::new();
    let mut k: usize = 0;
    while k < v.len()
        invariant
            k <= v@.len(),
            strings_model(r@) == strings_model(v@).take(k as int),
        decreases v@.len() - k,
    {
        let ghost before = strings_model(r@);
        r.push(v[k].clone());
        assert(strings_model(r@) =~= before.push(v@[k as int]@));
        assert(strings_model(v@).take(k + 1) =~= strings_model(v@).take(k as int).push(
            v@[k as int]@,
        ));
        k = k + 1;
    }
    assert(strings_model(v@).take(k as int) =~= strings_model(v@));
    r
}

/// The modules the page shows on monitor `index`.
pub fn arrangement(cfg: &RawConfig, index: usize, primary: bool) -> (r: Vec<String>)
    ensures
        strings_model(r@) == arrangement_of(*cfg, index, primary),
{
    if cfg.monitors.len() > 0 {
        let key = crate::text::usize_to_string(index);
        let ghost v = cfg.monitors@;
        let mut k: usize = 0;
        assert(v.subrange(0, v.len() as int) =~= v);
        while k < cfg.monitors.len()
            invariant
                v == cfg.monitors@,
                key@ == decimal(index as nat),
                k <= v.len(),
                crate::config::lookup(v, key@) == crate::config::lookup(
                    v.subrange(k as int, v.len() as int),
                    key@,
                ),
            decreases v.len() - k,
        {
            let ghost rest = v.subrange(k as int, v.len() as int);
            assert(rest[0] == v[k as int]);
            if cfg.monitors[k].0 == key {
                return copy_strings(&cfg.monitors[k].1.module_order);
            }
            assert(rest.drop_first() =~= v.subrange(k + 1, v.len() as int));
            k = k + 1;
        }
        let r: Vec<String> = Vec::new();
        assert(strings_model(r@) =~= seq![]);
        r
    } else if primary {
        copy_strings(&cfg.module_order)
    } else {
        let r: Vec<String> = Vec::new();
        assert(strings_model(r@) =~= seq![]);
        r
    }
}

/// The model of what preparing one catalog addition gave.
pub open spec fn prepared_model(p: Option<Result<String, String>>) -> Option<Result<Seq<char>, Seq<char>>> {
    match p {
        None => None,
        Some(Ok(s)) => Some(Ok(s@)),
        Some(Err(e)) => Some(Err(e@)),
    }
}

/// The model of the per-name results of preparing catalog additions: none
/// when the catalog has no module of that name, else the definition text to
/// append or why it could not be prepared.
pub open spec fn bodies_model(v: Seq<Option<Result<String, String>>>) -> Seq<
    Option<Result<Seq<char>, Seq<char>>>,
> {
    v.map_values(|r: Option<Result<String, String>>| prepared_model(r))
}

/// The message for a requested module the catalog does not have.
pub open spec fn unknown_module(name: Seq<char>) -> Seq<char> {
    "unknown catalog module '"@ + name + "'"@
}

/// Where appending the requested catalog modules leads.
pub enum Added {
    /// The config text (as UTF-8) with every requested definition appended.
    Text(Seq<u8>),
    /// Preparing a module failed with this message.
    NotPrepared(Seq<char>),
    /// The config refused a definition (already defined, or does not scan)
    /// with this message.
    Refused(Seq<char>),
}

/// Append the definition prepared for one requested name: none when the
/// catalog has no such module, else the definition text or why it could not
/// be prepared.
pub open spec fn add_one(b: Seq<u8>, name: Seq<char>, prepared: Option<Result<Seq<char>, Seq<char>>>) -> Added {
    match prepared {
        None => Added::NotPrepared(unknown_module(name)),
        Some(Err(e)) => Added::NotPrepared(e),
        Some(Ok(body)) => match spec_append_module(b, name, body, indent_from(decode_utf8(b), 0)) {
            Some(b2) => Added::Text(b2),
            None => Added::Refused(append_module_error(b, name)),
        },
    }
}

/// Append, in order, the definition prepared for each requested name; stop at
/// the first failure.
pub open spec fn add_modules(
    b: Seq<u8>,
    names: Seq<Seq<char>>,
    bodies: Seq<Option<Result<Seq<char>, Seq<char>>>>,
) -> Added
    decreases names.len(),
{
    if names.len() == 0 {
        Added::Text(b)
    } else {
        match add_modules(b, names.drop_last(), bodies.drop_last()) {
            Added::Text(b1) => add_one(b1, names.last(), bodies[names.len() - 1]),
            other => other,
        }
    }
}

/// The arrangements of `monitors` to keep: those whose key names an index
/// that is not attached (a later entry for an index replaces an earlier one).
pub open spec fn kept_monitors(monitors: Seq<(String, MonitorConfig)>, attached: Seq<usize>) -> Map<
    usize,
    Seq<Seq<char>>,
>
    decreases monitors.len(),
{
    if monitors.len() == 0 {
        Map::empty()
    } else {
        let m = kept_monitors(monitors.drop_last(), attached);
        let e = monitors.last();
        match key_index(e.0@) {
            Some(i) => if attached.contains(i) {
                m
            } else {
                m.insert(i, strings_model(e.1.module_order@))
            },
            None => m,
        }
    }
}

/// The error for a request key that names no monitor index.
pub open spec fn bad_index_error(key: Seq<char>) -> Seq<char> {
    "bad monitor index '"@ + key + "'"@
}

/// `base` with each requested arrangement set; the error for the first key
/// that names no index.
pub open spec fn requested_monitors(
    base: Map<usize, Seq<Seq<char>>>,
    req: Seq<(String, Vec<String>)>,
) -> Result<Map<usize, Seq<Seq<char>>>, Seq<char>>
    decreases req.len(),
{
    if req.len() == 0 {
        Ok(base)
    } else {
        match requested_monitors(base, req.drop_last()) {
            Ok(m) => match key_index(req.last().0@) {
                Some(i) => Ok(m.insert(i, strings_model(req.last().1@))),
                None => Err(bad_index_error(req.last().0@)),
            },
            Err(e) => Err(e),
        }
    }
}

/// The requested arrangements are refused exactly when some key names no
/// monitor index, and then with the message for the first such key.
pub proof fn lemma_requested_refused(base: Map<usize, Seq<Seq<char>>>, req: Seq<(String, Vec<String>)>)
    ensures
        requested_monitors(base, req) is Err <==> exists|k: int|
            0 <= k < req.len() && key_index((#[trigger] req[k]).0@) is None,
        requested_monitors(base, req) matches Err(e) ==> exists|k: int|
            {
                &&& 0 <= k < req.len()
                &&& key_index((#[trigger] req[k]).0@) is None
                &&& forall|j: int| 0 <= j < k ==> key_index((#[trigger] req[j]).0@) is Some
                &&& e == bad_index_error(req[k].0@)
            },
    decreases req.len(),
{
    if req.len() > 0 {
        let r = req.drop_last();
        lemma_requested_refused(base, r);
        assert forall|k: int| 0 <= k < r.len() implies r[k] == req[k] by {}
        match requested_monitors(base, r) {
            Ok(_) => {
                assert forall|j: int| 0 <= j < r.len() implies key_index((#[trigger] req[j]).0@) is Some by {
                    assert(r[j] == req[j]);
                }
                if key_index(req.last().0@) is None {
                    assert(key_index(req[req.len() - 1].0@) is None);
                }
            },
            Err(e) => {
                let k = choose|k: int|
                    {
                        &&& 0 <= k < r.len()
                        &&& key_index((#[trigger] r[k]).0@) is None
                        &&& forall|j: int| 0 <= j < k ==> key_index((#[trigger] r[j]).0@) is Some
                        &&& e == bad_index_error(r[k].0@)
                    };
                assert(req[k] == r[k]);
                assert forall|j: int| 0 <= j < k implies key_index((#[trigger] req[j]).0@) is Some by {
                    assert(req[j] == r[j]);
                }
            },
        }
    }
}

/// The arrangement to write: the kept arrangements of the config as it parsed
/// (none when it did not), overlaid with the requested ones.
pub open spec fn merged_monitors(
    parsed: Option<RawConfig>,
    attached: Seq<usize>,
    req: Seq<(String, Vec<String>)>,
) -> Result<Map<usize, Seq<Seq<char>>>, Seq<char>> {
    let base = match parsed {
        Some(cfg) => kept_monitors(cfg.monitors@, attached),
        None => Map::empty(),
    };
    requested_monitors(base, req)
}

/// The texts of a map of string lists.
pub open spec fn map_texts(m: Map<usize, Vec<String>>) -> Map<usize, Seq<Seq<char>>> {
    m.map_values(|v: Vec<String>| texts(v@))
}

/// The bytes of `b` with its `monitors` value written for the arrangement `m`
/// (its entries in ascending index order) and its legacy `modules` dropped.
pub open spec fn arranged(b: Seq<u8>, m: Map<usize, Seq<Seq<char>>>, entries: Seq<(usize, Seq<Seq<char>>)>) -> Option<Seq<u8>> {
    let indent = indent_from(decode_utf8(b), 0);
    spec_set_monitors(b, monitors_text(indent, entries), indent)
}

/// Why writing the arrangement `m` into `b` fails (meaningful where
/// `arranged` is `None`).
pub open spec fn arranged_error(b: Seq<u8>, m: Map<usize, Seq<Seq<char>>>, entries: Seq<(usize, Seq<Seq<char>>)>) -> Seq<char> {
    let indent = indent_from(decode_utf8(b), 0);
    set_monitors_error(b, monitors_text(indent, entries), indent)
}

/// `entries` lists every entry of `m` exactly once, in increasing key order.
pub open spec fn entries_of(m: Map<usize, Seq<Seq<char>>>, entries: Seq<(usize, Seq<Seq<char>>)>) -> bool {
    &&& forall|i: int, j: int| 0 <= i < j < entries.len() ==> entries[i].0 < entries[j].0
    &&& forall|i: int|
        0 <= i < entries.len() ==> m.contains_key(#[trigger] entries[i].0) && entries[i].1
            == m[entries[i].0]
    &&& forall|k: usize| #[trigger]
        m.contains_key(k) ==> exists|i: int| 0 <= i < entries.len() && (#[trigger] entries[i]).0 == k
}

/// Whether `attached` lists `index`.
fn is_attached(attached: &[usize], index: usize) -> (r: bool)
    ensures
        r == attached@.contains(index),
{
    let mut k: usize = 0;
    while k < attached.len()
        invariant
            k <= attached@.len(),
            forall|t: int| 0 <= t < k ==> attached@[t] != index,
        decreases attached@.len() - k,
    {
        if attached[k] == index {
            assert(attached@[k as int] == index);
            return true;
        }
        k = k + 1;
    }
    false
}

/// Append the definition prepared for the catalog module `name` (`prepared`:
/// none when the catalog has no such module, else the definition text or why
/// preparing it failed) to the config text.
pub fn add_prepared(text: &str, name: &str, prepared: &Option<Result<String, String>>) -> (r: Result<
    String,
    String,
>)
    ensures
        match add_one(text.spec_bytes(), name@, prepared_model(*prepared)) {
            Added::Text(b) => r matches Ok(s) && encode_utf8(s@) == b,
            Added::NotPrepared(e) => r matches Err(m) && m@ == e,
            Added::Refused(e) => r matches Err(m) && m@ == e,
        },
{
    proof {
        encode_utf8_decode_utf8(text@);
    }
    match prepared {
        None => {
            let mut m = String::from_str("unknown catalog module '");
            m.append(name);
            m.append("'");
            Err(m)
        },
        Some(Err(e)) => Err(e.clone()),
        Some(Ok(body)) => append_module(text, name, body.as_str()),
    }
}

/// Append, in order, the definition prepared for each of `names`; stop at the
/// first failure.
fn add_all(text: &str, names: &Vec<String>, bodies: &Vec<Option<Result<String, String>>>) -> (r: Result<
    String,
    String,
>)
    requires
        bodies@.len() == names@.len(),
    ensures
        match add_modules(text.spec_bytes(), strings_model(names@), bodies_model(bodies@)) {
            Added::Text(b) => r matches Ok(s) && encode_utf8(s@) == b,
            Added::NotPrepared(e) => r matches Err(m) && m@ == e,
            Added::Refused(e) => r matches Err(m) && m@ == e,
        },
{
    let ghost ns = strings_model(names@);
    let ghost bm = bodies_model(bodies@);
    let mut out = String::from_str(text);
    let mut k: usize = 0;
    assert(ns.take(0) =~= seq![]);
    assert(bm.take(0) =~= seq![]);
    while k < names.len()
        invariant
            ns == strings_model(names@),
            bm == bodies_model(bodies@),
            bodies@.len() == names@.len(),
            k <= ns.len(),
            add_modules(text.spec_bytes(), ns.take(k as int), bm.take(k as int)) == Added::Text(
                encode_utf8(out@),
            ),
        decreases ns.len() - k,
    {
        assert(ns.take(k + 1).drop_last() =~= ns.take(k as int));
        assert(bm.take(k + 1).drop_last() =~= bm.take(k as int));
        assert(ns.take(k + 1).last() == names@[k as int]@);
        assert(bm.take(k + 1)[k as int] == bm[k as int]);
        assert(bm[k as int] == prepared_model(bodies@[k as int]));
        match add_prepared(out.as_str(), names[k].as_str(), &bodies[k]) {
            Ok(o) => {
                out = o;
            },
            Err(e) => {
                proof {
                    lemma_add_modules_stops(text.spec_bytes(), ns, bm, k as int + 1);
                }
                return Err(e);
            },
        }
        k = k + 1;
    }
    assert(ns.take(k as int) =~= ns);
    assert(bm.take(k as int) =~= bm);
    Ok(out)
}

/// The arrangement to write, as a map ordered by monitor index.
fn merge_arrangements(
    requested: &Vec<(String, Vec<String>)>,
    attached: &[usize],
    parsed: &Option<RawConfig>,
) -> (r: Result<BTreeMap<usize, Vec<String>>, String>)
    ensures
        match merged_monitors(*parsed, attached@, requested@) {
            Ok(m) => r matches Ok(mm) && map_texts(mm@) == m,
            Err(e) => r matches Err(x) && x@ == e,
        },
{
    broadcast use vstd::std_specs::btree::group_btree_axioms;
    let mut merged: BTreeMap<usize, Vec<String>> = BTreeMap::new();
    let ghost mut base: Map<usize, Seq<Seq<char>>> = Map::empty();
    assert(map_texts(merged@) =~= base);
    match parsed {
        Some(cfg) => {
            let ghost mons = cfg.monitors@;
            let mut j: usize = 0;
            assert(mons.take(0) =~= seq![]);
            while j < cfg.monitors.len()
                invariant
                    mons == cfg.monitors@,
                    j <= mons.len(),
                    map_texts(merged@) == kept_monitors(mons.take(j as int), attached@),
                decreases mons.len() - j,
            {
                assert(mons.take(j + 1).drop_last() =~= mons.take(j as int));
                assert(mons.take(j + 1).last() == mons[j as int]);
                let ghost before = merged@;
                match parse_index(cfg.monitors[j].0.as_str()) {
                    Some(index) => {
                        if !is_attached(attached, index) {
                            let mods = copy_strings(&cfg.monitors[j].1.module_order);
                            let ghost mv = mods@;
                            merged.insert(index, mods);
                            assert(map_texts(merged@) =~= map_texts(before).insert(
                                index,
                                texts(mv),
                            ));
                        }
                    },
                    None => {},
                }
                j = j + 1;
            }
            assert(mons.take(j as int) =~= mons);
            proof {
                base = kept_monitors(mons, attached@);
            }
        },
        None => {},
    }
    let ghost rq = requested@;
    let mut j: usize = 0;
    assert(rq.take(0) =~= seq![]);
    while j < requested.len()
        invariant
            rq == requested@,
            base == match parsed {
                Some(cfg) => kept_monitors(cfg.monitors@, attached@),
                None => Map::empty(),
            },
            j <= rq.len(),
            requested_monitors(base, rq.take(j as int)) == Ok::<
                Map<usize, Seq<Seq<char>>>,
                Seq<char>,
            >(map_texts(merged@)),
        decreases rq.len() - j,
    {
        assert(rq.take(j + 1).drop_last() =~= rq.take(j as int));
        assert(rq.take(j + 1).last() == rq[j as int]);
        let ghost before = merged@;
        match parse_index(requested[j].0.as_str()) {
            Some(index) => {
                let mods = copy_strings(&requested[j].1);
                let ghost mv = mods@;
                merged.insert(index, mods);
                assert(map_texts(merged@) =~= map_texts(before).insert(index, texts(mv)));
            },
            None => {
                proof {
                    lemma_requested_stops(base, rq, j as int + 1);
                }
                let mut m = String::from_str("bad monitor index '");
                m.append(requested[j].0.as_str());
                m.append("'");
                return Err(m);
            },
        }
        j = j + 1;
    }
    assert(rq.take(j as int) =~= rq);
    Ok(merged)
}

/// The witness `set_monitors` gives for its arrangement is one for the
/// arrangement's texts.
proof fn lemma_entries_of(merged: Map<usize, Vec<String>>, w: Seq<(usize, Seq<Seq<char>>)>)
    requires
        sorted_entries_of(merged, w),
    ensures
        entries_of(map_texts(merged), w),
{
    let m = map_texts(merged);
    assert forall|i: int| 0 <= i < w.len() implies m.contains_key(#[trigger] w[i].0) && w[i].1
        == m[w[i].0] by {
        assert(merged.contains_key(w[i].0));
    }
    assert forall|k: usize| #[trigger] m.contains_key(k) implies exists|i: int|
        0 <= i < w.len() && (#[trigger] w[i]).0 == k by {
        assert(merged.contains_key(k));
    }
}

/// Apply an arrangement to the config text: append the definitions prepared
/// for the requested catalog modules (`bodies`, one per name of `req.add`;
/// none for a name the catalog does not have),
/// then rewrite `monitors`. Entries of the config as it parsed (`parsed`) for
/// monitor indices that are not currently `attached` are preserved (an
/// unplugged dock monitor keeps its arrangement).
pub fn apply_to_text(
    text: &str,
    req: &ApplyRequest,
    attached: &[usize],
    parsed: &Option<RawConfig>,
    bodies: &Vec<Option<Result<String, String>>>,
) -> (r: Result<String, String>)
    requires
        bodies@.len() == req.add@.len(),
    ensures
        match add_modules(text.spec_bytes(), strings_model(req.add@), bodies_model(bodies@)) {
            Added::NotPrepared(e) => r matches Err(m) && m@ == e,
            Added::Refused(e) => r matches Err(m) && m@ == e,
            Added::Text(b) => match merged_monitors(*parsed, attached@, req.monitors@) {
                Err(e) => r matches Err(x) && x@ == e,
                Ok(m) => exists|entries: Seq<(usize, Seq<Seq<char>>)>|
                    #![trigger entries_of(m, entries)]
                    entries_of(m, entries) && match arranged(b, m, entries) {
                        Some(out) => r matches Ok(s) && encode_utf8(s@) == out,
                        None => r matches Err(x) && x@ == arranged_error(b, m, entries),
                    },
            },
        },
{
    let out = match add_all(text, &req.add, bodies) {
        Ok(o) => o,
        Err(e) => {
            return Err(e);
        },
    };
    let merged = match merge_arrangements(&req.monitors, attached, parsed) {
        Ok(m) => m,
        Err(e) => {
            return Err(e);
        },
    };
    let os = out.as_str();
    let r = set_monitors(os, &merged);
    proof {
        encode_utf8_decode_utf8(out@);
        let indent = indent_from(os@, 0);
        let w = choose|entries: Seq<(usize, Seq<Seq<char>>)>|
            #![trigger sorted_entries_of(merged@, entries)]
            sorted_entries_of(merged@, entries) && match spec_set_monitors(
                os.spec_bytes(),
                monitors_text(indent, entries),
                indent,
            ) {
                Some(o) => r matches Ok(s) && encode_utf8(s@) == o,
                None => r matches Err(x) && x@ == set_monitors_error(
                    os.spec_bytes(),
                    monitors_text(indent, entries),
                    indent,
                ),
            };
        lemma_entries_of(merged@, w);
    }
    r
}

/// With no catalog module to add, an apply keeps the text for the
/// arrangement step, which refuses it exactly when a requested key names no
/// monitor index (see [`lemma_requested_refused`]); otherwise what comes out
/// is the monitors edit of the text.
pub proof fn lemma_apply_without_additions(
    b: Seq<u8>,
    parsed: Option<RawConfig>,
    attached: Seq<usize>,
    req: Seq<(String, Vec<String>)>,
)
    ensures
        add_modules(b, seq![], seq![]) == Added::Text(b),
        merged_monitors(parsed, attached, req) is Err <==> exists|k: int|
            0 <= k < req.len() && key_index((#[trigger] req[k]).0@) is None,
{
    let base = match parsed {
        Some(cfg) => kept_monitors(cfg.monitors@, attached),
        None => Map::empty(),
    };
    lemma_requested_refused(base, req);
}

proof fn lemma_add_modules_stops(
    b: Seq<u8>,
    names: Seq<Seq<char>>,
    bodies: Seq<Option<Result<Seq<char>, Seq<char>>>>,
    k: int,
)
    requires
        0 < k <= names.len(),
        names.len() == bodies.len(),
        !(add_modules(b, names.take(k), bodies.take(k)) is Text),
    ensures
        add_modules(b, names, bodies) == add_modules(b, names.take(k), bodies.take(k)),
    decreases names.len() - k,
{
    if k < names.len() {
        assert(names.drop_last().take(k) =~= names.take(k));
        assert(bodies.drop_last().take(k) =~= bodies.take(k));
        lemma_add_modules_stops(b, names.drop_last(), bodies.drop_last(), k);
    } else {
        assert(names.take(k) =~= names);
        assert(bodies.take(k) =~= bodies);
    }
}

proof fn lemma_requested_stops(base: Map<usize, Seq<Seq<char>>>, req: Seq<(String, Vec<String>)>, k: int)
    requires
        0 < k <= req.len(),
        requested_monitors(base, req.take(k)) is Err,
    ensures
        requested_monitors(base, req) == requested_monitors(base, req.take(k)),
    decreases req.len() - k,
{
    if k < req.len() {
        assert(req.drop_last().take(k) =~= req.take(k));
        lemma_requested_stops(base, req.drop_last(), k);
    } else {
        assert(req.take(k) =~= req);
    }
}

/// The last arrangement `req` sends for monitor `i`.
pub open spec fn last_sent(req: Seq<(String, Vec<String>)>, i: usize) -> Option<Seq<Seq<char>>>
    decreases req.len(),
{
    if req.len() == 0 {
        None
    } else if key_index(req.last().0@) == Some(i) {
        Some(strings_model(req.last().1@))
    } else {
        last_sent(req.drop_last(), i)
    }
}

/// The last arrangement the config holds for monitor `i`.
pub open spec fn last_held(monitors: Seq<(String, MonitorConfig)>, i: usize) -> Option<Seq<Seq<char>>>
    decreases monitors.len(),
{
    if monitors.len() == 0 {
        None
    } else if key_index(monitors.last().0@) == Some(i) {
        Some(strings_model(monitors.last().1.module_order@))
    } else {
        last_held(monitors.drop_last(), i)
    }
}

proof fn lemma_kept(monitors: Seq<(String, MonitorConfig)>, attached: Seq<usize>, i: usize)
    ensures
        kept_monitors(monitors, attached).contains_key(i) <==> (!attached.contains(i) && last_held(
            monitors,
            i,
        ) is Some),
        kept_monitors(monitors, attached).contains_key(i) ==> last_held(monitors, i) == Some(
            kept_monitors(monitors, attached)[i],
        ),
    decreases monitors.len(),
{
    if monitors.len() > 0 {
        lemma_kept(monitors.drop_last(), attached, i);
    }
}

proof fn lemma_requested(base: Map<usize, Seq<Seq<char>>>, req: Seq<(String, Vec<String>)>, i: usize)
    requires
        requested_monitors(base, req) is Ok,
    ensures
        match requested_monitors(base, req) {
            Ok(m) => match last_sent(req, i) {
                Some(x) => m.contains_key(i) && m[i] == x,
                None => m.contains_key(i) == base.contains_key(i) && (base.contains_key(i)
                    ==> m[i] == base[i]),
            },
            Err(_) => true,
        },
    decreases req.len(),
{
    if req.len() > 0 {
        lemma_requested(base, req.drop_last(), i);
    }
}

/// The arrangement `apply_to_text` writes, monitor by monitor: the last
/// arrangement the page sent for a monitor wins; a monitor the page sent
/// nothing for keeps what the config held for it when it is not attached
/// (an unplugged dock monitor keeps its arrangement), and has no entry when it
/// is attached.
pub proof fn lemma_merged_arrangement(
    cfg: RawConfig,
    attached: Seq<usize>,
    req: Seq<(String, Vec<String>)>,
    i: usize,
)
    requires
        merged_monitors(Some(cfg), attached, req) is Ok,
    ensures
        match merged_monitors(Some(cfg), attached, req) {
            Ok(m) => match last_sent(req, i) {
                Some(x) => m.contains_key(i) && m[i] == x,
                None => if attached.contains(i) {
                    !m.contains_key(i)
                } else {
                    match last_held(cfg.monitors@, i) {
                        Some(x) => m.contains_key(i) && m[i] == x,
                        None => !m.contains_key(i),
                    }
                },
            },
            Err(_) => true,
        },
{
    lemma_kept(cfg.monitors@, attached, i);
    lemma_requested(kept_monitors(cfg.monitors@, attached), req, i);
}

/// `s` with `x` placed after every string that does not sort after it.
pub open spec fn insert_str(s: Seq<Seq<char>>, x: Seq<char>) -> Seq<Seq<char>>
    decreases s.len(),
{
    if s.len() == 0 {
        seq![x]
    } else if !str_lt(x, s.last()) {
        s.push(x)
    } else {
        insert_str(s.drop_last(), x).push(s.last())
    }
}

/// `s` in ascending order.
pub open spec fn sort_strs(s: Seq<Seq<char>>) -> Seq<Seq<char>>
    decreases s.len(),
{
    if s.len() == 0 {
        seq![]
    } else {
        insert_str(sort_strs(s.drop_last()), s.last())
    }
}

/// `v` with `x` inserted after every string that does not sort after it.
fn insert_string(v: &mut Vec<String>, x: String)
    ensures
        strings_model(final(v)@) == insert_str(strings_model(old(v)@), x@),
{
    let ghost before = strings_model(v@);
    let mut j = v.len();
    assert(before.take(j as int) =~= before);
    assert(before.skip(j as int) =~= seq![]);
    while j > 0 && str_less(&x, &v[j - 1])
        invariant
            j <= before.len(),
            strings_model(v@) == before,
            insert_str(before, x@) == insert_str(before.take(j as int), x@) + before.skip(j as int),
        decreases j,
    {
        proof {
            let t = before.take(j as int);
            assert(before[j - 1] == v@[j - 1]@);
            assert(t.drop_last() =~= before.take(j - 1));
            assert(t.last() == before[j - 1]);
            assert(before.skip(j - 1) =~= seq![before[j - 1]] + before.skip(j as int));
            assert(insert_str(before, x@) =~= insert_str(before.take(j - 1), x@) + before.skip(
                j - 1,
            ));
        }
        j = j - 1;
    }
    proof {
        if j == 0 {
            assert(before.take(0) =~= seq![]);
        } else {
            assert(before[j - 1] == v@[j - 1]@);
            assert(before.take(j as int).last() == before[j - 1]);
        }
        assert(insert_str(before.take(j as int), x@) =~= before.take(j as int).push(x@));
    }
    let ghost xv = x@;
    let ghost old_v = v@;
    v.insert(j, x);
    assert(strings_model(v@) =~= strings_model(old_v).insert(j as int, xv));
    assert(strings_model(v@) =~= insert_str(before, xv));
}

/// The module names the config defines, in ascending order.
pub fn defined_names(cfg: &RawConfig) -> (r: Vec<String>)
    ensures
        strings_model(r@) == sort_strs(keys_of(cfg.modules@)),
{
    let ghost keys = keys_of(cfg.modules@);
    let mut r: Vec<String> = Vec::new();
    let mut k: usize = 0;
    assert(keys.take(0) =~= seq![]);
    while k < cfg.modules.len()
        invariant
            keys == keys_of(cfg.modules@),
            k <= keys.len(),
            strings_model(r@) == sort_strs(keys.take(k as int)),
        decreases keys.len() - k,
    {
        assert(keys.take(k + 1).drop_last() =~= keys.take(k as int));
        assert(keys.take(k + 1).last() == cfg.modules@[k as int].0@);
        insert_string(&mut r, cfg.modules[k].0.clone());
        k = k + 1;
    }
    assert(keys.take(k as int) =~= keys);
    r
}

/// The name and description of each of `all` the config does not define
/// yet, in catalog order.
pub open spec fn offered_entries(all: Seq<CatalogEntry>, defined: Seq<Seq<char>>) -> Seq<(Seq<char>, Seq<char>)>
    decreases all.len(),
{
    if all.len() == 0 {
        seq![]
    } else {
        let before = offered_entries(all.drop_last(), defined);
        let e = all.last();
        if defined.contains(e.name@) {
            before
        } else {
            before.push((e.name@, e.description@))
        }
    }
}

/// The catalog modules the page may still add: the name and description of
/// each entry the config does not define yet.
pub fn offered(cfg: &RawConfig, all: &Vec<CatalogEntry>) -> (r: Vec<(String, String)>)
    ensures
        r@.map_values(|p: (String, String)| (p.0@, p.1@)) == offered_entries(
            all@,
            keys_of(cfg.modules@),
        ),
{
    let ghost defined = keys_of(cfg.modules@);
    let mut r: Vec<(String, String)> = Vec::new();
    let mut k: usize = 0;
    assert(all@.take(0) =~= seq![]);
    assert(r@.map_values(|p: (String, String)| (p.0@, p.1@)) =~= seq![]);
    while k < all.len()
        invariant
            defined == keys_of(cfg.modules@),
            k <= all@.len(),
            r@.map_values(|p: (String, String)| (p.0@, p.1@)) == offered_entries(
                all@.take(k as int),
                defined,
            ),
        decreases all@.len() - k,
    {
        let e = &all[k];
        assert(all@.take(k + 1).drop_last() =~= all@.take(k as int));
        assert(all@.take(k + 1).last() == *e);
        let mut is_defined = false;
        let mut j: usize = 0;
        while j < cfg.modules.len()
            invariant
                defined == keys_of(cfg.modules@),
                j <= cfg.modules@.len(),
                is_defined == exists|t: int| 0 <= t < j && #[trigger] defined[t] == e.name@,
            decreases cfg.modules@.len() - j,
        {
            if cfg.modules[j].0 == e.name {
                assert(defined[j as int] == e.name@);
                is_defined = true;
            }
            j = j + 1;
        }
        proof {
            if is_defined {
                let t = choose|t: int| 0 <= t < j && #[trigger] defined[t] == e.name@;
                assert(defined.contains(e.name@));
            } else if defined.contains(e.name@) {
                let t = defined.index_of(e.name@);
                assert(defined[t] == e.name@);
            }
        }
        let ghost before = r@.map_values(|p: (String, String)| (p.0@, p.1@));
        if !is_defined {
            r.push((e.name.clone(), e.description.clone()));
            assert(r@.map_values(|p: (String, String)| (p.0@, p.1@)) =~= before.push(
                (e.name@, e.description@),
            ));
        }
        k = k + 1;
    }
    assert(all@.take(k as int) =~= all@);
    r
}


/// The request methods the configurator tells apart.
#[derive(Debug, Clone, Copy, PartialEq, Eq, Structural)]
pub enum Method {
    Get,
    Post,
    Other,
}

/// What the configurator does with a request: serve the page, report the
/// state, apply an arrangement, refuse an API call without the access token,
/// or answer that there is nothing there.
#[derive(Debug, Clone, Copy, PartialEq, Eq, Structural)]
pub enum Route {
    Page,
    State,
    Apply,
    Forbidden,
    NotFound,
}

/// The path of a request target: everything before the first `?`.
pub open spec fn path_of(url: Seq<char>) -> Seq<char> {
    url.take(find_from(url, 0, '?'))
}

/// The query of a request target: everything after the first `?`, or
/// nothing.
pub open spec fn query_of(url: Seq<char>) -> Seq<char> {
    let p = find_from(url, 0, '?');
    if p < url.len() {
        url.skip(p + 1)
    } else {
        seq![]
    }
}

/// Whether one of the `&`-separated pieces of `q`, from offset `i` on, is
/// exactly `w`.
pub open spec fn has_piece(q: Seq<char>, i: int, w: Seq<char>) -> bool
    decreases q.len() - i,
{
    if 0 <= i <= q.len() {
        let j = find_from(q, i, '&');
        proof {
            lemma_find_from(q, i, '&');
        }
        q.subrange(i, j) == w || (j < q.len() && has_piece(q, j + 1, w))
    } else {
        false
    }
}

/// Whether a request target carries the access token: one of its query
/// pieces is `token=` followed by the token.
pub open spec fn authorized(url: Seq<char>, token: Seq<char>) -> bool {
    has_piece(query_of(url), 0, "token="@ + token)
}

/// Where a request goes. Only `GET /` needs no token; the state and apply
/// calls need it, and any other `/api/` path is refused.
pub open spec fn route_of(method: Method, url: Seq<char>, token: Seq<char>) -> Route {
    let path = path_of(url);
    if method == Method::Get && path == "/"@ {
        Route::Page
    } else if method == Method::Get && path == "/api/state"@ && authorized(url, token) {
        Route::State
    } else if method == Method::Post && path == "/api/apply"@ && authorized(url, token) {
        Route::Apply
    } else if path.len() >= 5 && path.take(5) == "/api/"@ {
        Route::Forbidden
    } else {
        Route::NotFound
    }
}

/// Whether two character sequences are equal.
fn same_chars(a: &Vec<char>, b: &Vec<char>) -> (r: bool)
    ensures
        r == (a@ == b@),
{
    if a.len() != b.len() {
        return false;
    }
    let bs = b.as_slice();
    assert(bs@ == b@);
    assert(a@ =~= a@.subrange(0, b@.len() as int));
    starts_with_at(a, 0, bs)
}

/// Whether one of the `&`-separated pieces of `q` is exactly `w`.
fn query_has(q: &Vec<char>, w: &Vec<char>) -> (r: bool)
    ensures
        r == has_piece(q@, 0, w@),
{
    let mut i: usize = 0;
    loop
        invariant
            i <= q@.len(),
            has_piece(q@, 0, w@) == has_piece(q@, i as int, w@),
        decreases q@.len() - i,
    {
        let j = find_char(q, i, '&');
        proof {
            lemma_find_from(q@, i as int, '&');
        }
        let piece = sub_vec(q, i, j);
        if same_chars(&piece, w) {
            return true;
        }
        if j >= q.len() {
            return false;
        }
        i = j + 1;
    }
}

/// Where a request with method `method` and target `url` goes, given the
/// configurator's access token.
pub fn route(method: Method, url: &str, token: &str) -> (r: Route)
    ensures
        r == route_of(method, url@, token@),
        r == Route::State || r == Route::Apply ==> authorized(url@, token@),
{
    let v = chars_of(url);
    let p = find_char(&v, 0, '?');
    proof {
        lemma_find_from(v@, 0, '?');
    }
    let path = sub_vec(&v, 0, p);
    assert(path@ =~= path_of(url@));
    let query = if p < v.len() {
        sub_vec(&v, p + 1, v.len())
    } else {
        Vec::new()
    };
    assert(query@ =~= query_of(url@));
    let mut expected = chars_of("token=");
    let t = chars_of(token);
    let mut k: usize = 0;
    let ghost e0 = expected@;
    while k < t.len()
        invariant
            k <= t@.len(),
            expected@ == e0 + t@.take(k as int),
        decreases t@.len() - k,
    {
        expected.push(t[k]);
        assert(t@.take(k + 1) =~= t@.take(k as int).push(t@[k as int]));
        k = k + 1;
    }
    assert(t@.take(k as int) =~= t@);
    let authorized = query_has(&query, &expected);
    let root = chars_of("/");
    let state = chars_of("/api/state");
    let apply = chars_of("/api/apply");
    let api = chars_of("/api/");
    if method == Method::Get && same_chars(&path, &root) {
        Route::Page
    } else if method == Method::Get && same_chars(&path, &state) && authorized {
        Route::State
    } else if method == Method::Post && same_chars(&path, &apply) && authorized {
        Route::Apply
    } else if starts_with_at(&path, 0, api.as_slice()) {
        proof {
            reveal_strlit("/api/");
        }
        Route::Forbidden
    } else {
        proof {
            reveal_strlit("/api/");
        }
        Route::NotFound
    }
}


/// The opaque error `getrandom` reports.
#[verifier::external_type_specification]
#[verifier::external_body]
pub struct ExRandomError(getrandom::Error);

/// Bytes from the operating system's random source, via
/// `getrandom::getrandom` on a buffer of `n` bytes. On success the buffer is
/// returned whole (its contents are random, so nothing is said of them); on
/// failure, the crate's error.
#[verifier::external_body]
fn random_bytes(n: usize) -> (r: Result<Vec<u8>, getrandom::Error>)
    ensures
        r matches Ok(v) ==> v@.len() == n,
{
    let mut buf = vec![0u8; n];
    match getrandom::getrandom(&mut buf) {
        Ok(()) => Ok(buf),
        Err(e) => Err(e),
    }
}

/// The text `getrandom::Error`'s `Display` gives for `e`: it describes an
/// operating-system failure, and nothing is stated of it.
#[verifier::external_body]
fn random_error_text(e: &getrandom::Error) -> String {
    e.to_string()
}

/// How many random bytes an access token carries.
pub const TOKEN_BYTES: usize = 16;

/// Bytes as lower-case hexadecimal, two digits each.
pub open spec fn hex_text(b: Seq<u8>) -> Seq<char>
    decreases b.len(),
{
    if b.len() == 0 {
        seq![]
    } else {
        hex_text(b.drop_last()) + hex_fixed(b.last() as nat, 2)
    }
}

/// Hex text is two digits per byte, every one a hexadecimal digit.
pub proof fn lemma_hex_text(b: Seq<u8>)
    ensures
        hex_text(b).len() == 2 * b.len(),
        forall|k: int| 0 <= k < hex_text(b).len() ==> is_hex_digit(#[trigger] hex_text(b)[k]),
    decreases b.len(),
{
    if b.len() > 0 {
        lemma_hex_text(b.drop_last());
        lemma_hex_fixed(b.last() as nat, 2);
        let h = hex_text(b.drop_last());
        let t = hex_fixed(b.last() as nat, 2);
        assert forall|k: int| 0 <= k < hex_text(b).len() implies is_hex_digit(#[trigger] hex_text(b)[k]) by {
            if k < h.len() {
                assert(hex_text(b)[k] == h[k]);
            } else {
                assert(hex_text(b)[k] == t[k - h.len()]);
            }
        }
    }
}

/// `bytes` as lower-case hexadecimal, two digits each.
pub fn hex_of(bytes: &Vec<u8>) -> (s: String)
    ensures
        s@ == hex_text(bytes@),
{
    let mut s = String::new();
    let mut k: usize = 0;
    assert(bytes@.take(0) =~= seq![]);
    while k < bytes.len()
        invariant
            k <= bytes@.len(),
            s@ == hex_text(bytes@.take(k as int)),
        decreases bytes@.len() - k,
    {
        push_hex_fixed(&mut s, bytes[k] as u64, 2);
        assert(bytes@.take(k + 1).drop_last() =~= bytes@.take(k as int));
        k = k + 1;
    }
    assert(bytes@.take(k as int) =~= bytes@);
    s
}

/// The start of the message for a token that could not be generated.
pub open spec fn token_failure() -> Seq<char> {
    "Taskband: cannot generate configurator token: "@
}

/// A fresh access token for the configurator: the hex of `TOKEN_BYTES`
/// random bytes (so 32 hexadecimal digits), or a message saying why none
/// could be generated.
pub fn new_token() -> (r: Result<String, String>)
    ensures
        r matches Ok(t) ==> exists|b: Seq<u8>| b.len() == TOKEN_BYTES && t@ == #[trigger] hex_text(b),
        r matches Ok(t) ==> t@.len() == 2 * TOKEN_BYTES && forall|k: int|
            0 <= k < t@.len() ==> is_hex_digit(#[trigger] t@[k]),
        r matches Err(m) ==> m@.len() >= token_failure().len() && m@.take(
            token_failure().len() as int,
        ) == token_failure(),
{
    match random_bytes(TOKEN_BYTES) {
        Ok(bytes) => {
            let t = hex_of(&bytes);
            proof {
                lemma_hex_text(bytes@);
            }
            Ok(t)
        },
        Err(e) => {
            let mut m = String::from_str("Taskband: cannot generate configurator token: ");
            let ghost head = m@;
            m.append(random_error_text(&e).as_str());
            assert(m@.take(head.len() as int) =~= head);
            Err(m)
        },
    }
}

/// The configurator page address on the loopback interface, carrying the
/// access token.
pub fn page_url(port: u16, token: &str) -> (url: String)
    ensures
        url@ == "http://127.0.0.1:"@ + decimal(port as nat) + "/?token="@ + token@,
{
    let mut url = String::from_str("http://127.0.0.1:");
    push_decimal(&mut url, port as u64);
    url.append("/?token=");
    url.append(token);
    url
}


/// The status of a request whose body is not a valid apply request.
pub const STATUS_BAD_REQUEST: u16 = 400;

/// The status of an apply made against a config that changed since it was
/// read.
pub const STATUS_CONFLICT: u16 = 409;

/// The status of an apply the config refused.
pub const STATUS_UNPROCESSABLE: u16 = 422;

/// The status of an apply that was written.
pub const STATUS_OK: u16 = 200;

/// Whether an apply must be refused as a conflict: the config text on disk no
/// longer has the hash the page read it with.
pub fn apply_conflicts(text: &str, hash: &str) -> (r: bool)
    ensures
        r == (hex_fixed(fnv1a(text.spec_bytes()) as nat, 16) != hash@),
{
    let h = content_hash(text);
    !crate::text::same_text(h.as_str(), hash)
}

/// The answer to an apply once the text was edited: 200 with the new text's
/// hash, or 422 with the reason it was refused.
pub fn apply_reply(result: &Result<String, String>) -> (r: (u16, Result<String, String>))
    ensures
        match result {
            Ok(out) => r.0 == STATUS_OK && (r.1 matches Ok(h) && h@ == hex_fixed(
                fnv1a(encode_utf8(out@)) as nat,
                16,
            )),
            Err(e) => r.0 == STATUS_UNPROCESSABLE && (r.1 matches Err(m) && m@ == e@),
        },
{
    match result {
        Ok(out) => (STATUS_OK, Ok(content_hash(out.as_str()))),
        Err(e) => (STATUS_UNPROCESSABLE, Err(e.clone())),
    }
}

} // verus!
