//! The module catalog: ready-made modules the configurator can copy into a
//! user's config. Every entry is a manifest (a module definition plus a
//! `description`). Built-ins ship with the program, folder modules are found
//! beside `config.json`; the application reads them from disk and hands them
//! here already parsed. This module checks manifests, picks entries, and
//! renders a definition as JSON5 text for `editor::append_module`.

use vstd::prelude::*;
use crate::editor::{json_escape, json_escaped};
use vstd::utf8::encode_utf8;
use crate::text::{chars_of, hex_fixed, push_char, starts_with_at};

verus! {

broadcast use vstd::string::group_string_axioms;

/// A JSON value as the catalog reads and renders it.
#[derive(Debug)]
pub enum Json {
    /// A string.
    Str(String),
    /// An object: its members in ascending key order, each key once (the
    /// order of serde_json's map).
    Object(Vec<(String, Json)>),
    /// Any other value (number, boolean, null, array), held as serde_json's
    /// compact text of it.
    Other(String),
}

/// Whether `a` sorts before `b` (`String`'s order: by code point, a prefix
/// first).
pub open spec fn str_lt(a: Seq<char>, b: Seq<char>) -> bool
    decreases a.len(),
{
    if a.len() == 0 {
        b.len() > 0
    } else if b.len() == 0 {
        false
    } else if a[0] != b[0] {
        (a[0] as u32) < (b[0] as u32)
    } else {
        str_lt(a.drop_first(), b.drop_first())
    }
}

/// Whether the keys of `ms` ascend strictly.
pub open spec fn keys_ascend(ms: Seq<(String, Json)>) -> bool {
    forall|i: int, j: int| 0 <= i < j < ms.len() ==> str_lt(ms[i].0@, ms[j].0@)
}

/// Whether every object in `v` keeps its members in ascending key order.
pub open spec fn json_wf(v: Json) -> bool
    decreases v,
{
    match v {
        Json::Object(m) => keys_ascend(m@) && forall|i: int|
            0 <= i < m@.len() ==> #[trigger] json_wf_member(m@, i),
        _ => true,
    }
}

/// Whether member `i` of `ms` is well formed.
pub open spec fn json_wf_member(ms: Seq<(String, Json)>, i: int) -> bool
    decreases ms, 0int,
{
    if 0 <= i < ms.len() {
        json_wf(ms[i].1)
    } else {
        true
    }
}

/// A JSON value as mathematics: strings and the compact text of other values
/// as character sequences, an object as its members in order.
pub enum JsonModel {
    Str(Seq<char>),
    Object(Seq<(Seq<char>, JsonModel)>),
    Other(Seq<char>),
}

/// The model of `v`.
pub open spec fn json_model(v: Json) -> JsonModel
    decreases v, 1int, 0int,
{
    match v {
        Json::Str(s) => JsonModel::Str(s@),
        Json::Object(m) => JsonModel::Object(members_model(m@, m@.len() as int)),
        Json::Other(t) => JsonModel::Other(t@),
    }
}

/// The models of the first `n` members of `ms`.
pub open spec fn members_model(ms: Seq<(String, Json)>, n: int) -> Seq<(Seq<char>, JsonModel)>
    decreases ms, 0int, n,
{
    if n <= 0 || n > ms.len() {
        seq![]
    } else {
        members_model(ms, n - 1).push((ms[n - 1].0@, json_model(ms[n - 1].1)))
    }
}

impl View for Json {
    type V = JsonModel;

    open spec fn view(&self) -> JsonModel {
        json_model(*self)
    }
}

/// The keys a definition lists first, in this order; any other key follows in
/// key order.
pub open spec fn key_order() -> Seq<Seq<char>> {
    seq!["exec"@, "interval"@, "output"@, "css"@, "classes"@]
}

/// The position of the first member of `ms` at or after `from` under `key`.
pub open spec fn first_key_from(ms: Seq<(String, Json)>, key: Seq<char>, from: int) -> Option<int>
    decreases ms.len() - from,
{
    if from < 0 || from >= ms.len() {
        None
    } else if ms[from].0@ == key {
        Some(from)
    } else {
        first_key_from(ms, key, from + 1)
    }
}

/// The positions of the members under the first `n` keys of [`key_order`],
/// in that order.
pub open spec fn known_positions(ms: Seq<(String, Json)>, n: int) -> Seq<int>
    decreases n,
{
    if n <= 0 {
        seq![]
    } else {
        let before = known_positions(ms, n - 1);
        match first_key_from(ms, key_order()[n - 1], 0) {
            Some(i) => before.push(i),
            None => before,
        }
    }
}

/// The positions, in order, of the members of `ms[..n]` whose key is not one
/// of [`key_order`].
pub open spec fn other_positions(ms: Seq<(String, Json)>, n: int) -> Seq<int>
    decreases n,
{
    if n <= 0 {
        seq![]
    } else {
        let before = other_positions(ms, n - 1);
        if key_order().contains(ms[n - 1].0@) {
            before
        } else {
            before.push(n - 1)
        }
    }
}

/// The order in which the members of an object are emitted: the keys of
/// [`key_order`] that are present, then the others.
pub open spec fn emit_order(ms: Seq<(String, Json)>) -> Seq<int> {
    known_positions(ms, 5) + other_positions(ms, ms.len() as int)
}

proof fn lemma_first_key_from(ms: Seq<(String, Json)>, key: Seq<char>, from: int)
    requires
        0 <= from,
    ensures
        match first_key_from(ms, key, from) {
            Some(i) => from <= i < ms.len() && ms[i].0@ == key && forall|j: int|
                from <= j < i ==> ms[j].0@ != key,
            None => forall|j: int| from <= j < ms.len() ==> ms[j].0@ != key,
        },
    decreases ms.len() - from,
{
    if from < ms.len() && ms[from].0@ != key {
        lemma_first_key_from(ms, key, from + 1);
    }
}

proof fn lemma_positions_in_range(ms: Seq<(String, Json)>)
    ensures
        forall|k: int|
            0 <= k < emit_order(ms).len() ==> 0 <= #[trigger] emit_order(ms)[k] < ms.len(),
{
    lemma_known_in_range(ms, 5);
    lemma_other_in_range(ms, ms.len() as int);
    let a = known_positions(ms, 5);
    let b = other_positions(ms, ms.len() as int);
    assert forall|k: int| 0 <= k < emit_order(ms).len() implies 0 <= #[trigger] emit_order(ms)[k]
        < ms.len() by {
        if k < a.len() {
            assert(emit_order(ms)[k] == a[k]);
        } else {
            assert(emit_order(ms)[k] == b[k - a.len()]);
        }
    }
}

proof fn lemma_known_in_range(ms: Seq<(String, Json)>, n: int)
    ensures
        forall|k: int|
            0 <= k < known_positions(ms, n).len() ==> 0 <= #[trigger] known_positions(ms, n)[k]
                < ms.len(),
    decreases n,
{
    if n > 0 {
        lemma_known_in_range(ms, n - 1);
        lemma_first_key_from(ms, key_order()[n - 1], 0);
        let before = known_positions(ms, n - 1);
        assert forall|k: int| 0 <= k < known_positions(ms, n).len() implies 0
            <= #[trigger] known_positions(ms, n)[k] < ms.len() by {
            if k < before.len() {
                assert(known_positions(ms, n)[k] == before[k]);
            }
        }
    }
}

proof fn lemma_other_in_range(ms: Seq<(String, Json)>, n: int)
    requires
        n <= ms.len(),
    ensures
        forall|k: int|
            0 <= k < other_positions(ms, n).len() ==> 0 <= #[trigger] other_positions(ms, n)[k]
                < n,
    decreases n,
{
    if n > 0 {
        lemma_other_in_range(ms, n - 1);
        let before = other_positions(ms, n - 1);
        assert forall|k: int| 0 <= k < other_positions(ms, n).len() implies 0
            <= #[trigger] other_positions(ms, n)[k] < n by {
            if k < before.len() {
                assert(other_positions(ms, n)[k] == before[k]);
            }
        }
    }
}

/// The key-order words, as strings.
fn key_order_strings() -> (r: Vec<String>)
    ensures
        r@.len() == 5,
        forall|k: int| 0 <= k < 5 ==> #[trigger] r@[k]@ == key_order()[k],
{
    let mut r: Vec<String> = Vec::new();
    r.push(String::from_str("exec"));
    r.push(String::from_str("interval"));
    r.push(String::from_str("output"));
    r.push(String::from_str("css"));
    r.push(String::from_str("classes"));
    r
}

/// The position of the first member of `ms` under `key`.
fn find_key(ms: &Vec<(String, Json)>, key: &String) -> (r: Option<usize>)
    ensures
        match r {
            Some(i) => first_key_from(ms@, key@, 0) == Some(i as int) && i < ms@.len(),
            None => first_key_from(ms@, key@, 0) is None,
        },
{
    let mut i: usize = 0;
    while i < ms.len()
        invariant
            i <= ms@.len(),
            first_key_from(ms@, key@, 0) == first_key_from(ms@, key@, i as int),
        decreases ms@.len() - i,
    {
        if ms[i].0 == *key {
            return Some(i);
        }
        i = i + 1;
    }
    None
}

/// The order in which the members of `ms` are emitted (see [`emit_order`]).
fn ordered_keys(ms: &Vec<(String, Json)>) -> (r: Vec<usize>)
    ensures
        r@.len() == emit_order(ms@).len(),
        forall|k: int| 0 <= k < r@.len() ==> r@[k] as int == #[trigger] emit_order(ms@)[k],
{
    let words = key_order_strings();
    let mut r: Vec<usize> = Vec::new();
    let mut n: usize = 0;
    while n < 5
        invariant
            n <= 5,
            words@.len() == 5,
            forall|k: int| 0 <= k < 5 ==> #[trigger] words@[k]@ == key_order()[k],
            r@.len() == known_positions(ms@, n as int).len(),
            forall|k: int| 0 <= k < r@.len() ==> r@[k] as int == #[trigger] known_positions(ms@, n as int)[k],
        decreases 5 - n,
    {
        let ghost before = known_positions(ms@, n as int);
        assert(words@[n as int]@ == key_order()[n as int]);
        match find_key(ms, &words[n]) {
            Some(i) => {
                r.push(i);
            },
            None => {},
        }
        n = n + 1;
        assert forall|k: int| 0 <= k < r@.len() implies r@[k] as int == #[trigger] known_positions(
            ms@,
            n as int,
        )[k] by {
            if k < before.len() {
                assert(known_positions(ms@, n as int)[k] == before[k]);
            }
        }
    }
    let ghost known = r@;
    let mut i: usize = 0;
    while i < ms.len()
        invariant
            i <= ms@.len(),
            words@.len() == 5,
            forall|k: int| 0 <= k < 5 ==> #[trigger] words@[k]@ == key_order()[k],
            known.len() == known_positions(ms@, 5).len(),
            r@.len() == known.len() + other_positions(ms@, i as int).len(),
            forall|k: int| 0 <= k < known.len() ==> r@[k] == known[k],
            forall|k: int| 0 <= k < known.len() ==> known[k] as int == #[trigger] known_positions(ms@, 5)[k],
            forall|k: int|
                0 <= k < other_positions(ms@, i as int).len() ==> r@[known.len() + k] as int
                    == #[trigger] other_positions(ms@, i as int)[k],
        decreases ms@.len() - i,
    {
        let ghost before = other_positions(ms@, i as int);
        let mut known_key = false;
        let mut w: usize = 0;
        while w < 5
            invariant
                w <= 5,
                i < ms@.len(),
                words@.len() == 5,
                forall|k: int| 0 <= k < 5 ==> #[trigger] words@[k]@ == key_order()[k],
                known_key == exists|k: int| 0 <= k < w && #[trigger] key_order()[k] == ms@[i as int].0@,
            decreases 5 - w,
        {
            if ms[i].0 == words[w] {
                known_key = true;
            }
            w = w + 1;
        }
        proof {
            if known_key {
                let k = choose|k: int| 0 <= k < 5 && #[trigger] key_order()[k] == ms@[i as int].0@;
                assert(key_order()[k] == ms@[i as int].0@);
            } else {
                if key_order().contains(ms@[i as int].0@) {
                    let k = key_order().index_of(ms@[i as int].0@);
                    assert(key_order()[k] == ms@[i as int].0@);
                }
            }
        }
        if !known_key {
            r.push(i);
        }
        i = i + 1;
        assert forall|k: int| 0 <= k < other_positions(ms@, i as int).len() implies r@[known.len()
            + k] as int == #[trigger] other_positions(ms@, i as int)[k] by {
            if k < before.len() {
                assert(other_positions(ms@, i as int)[k] == before[k]);
            }
        }
    }
    r
}

/// serde_json's escape of one character inside a JSON string.
pub open spec fn serde_escape_char(c: char) -> Seq<char> {
    if c == '"' {
        seq!['\\', '"']
    } else if c == '\\' {
        seq!['\\', '\\']
    } else if c == '\u{8}' {
        seq!['\\', 'b']
    } else if c == '\t' {
        seq!['\\', 't']
    } else if c == '\n' {
        seq!['\\', 'n']
    } else if c == '\u{c}' {
        seq!['\\', 'f']
    } else if c == '\r' {
        seq!['\\', 'r']
    } else if (c as u32) < 0x20 {
        seq!['\\', 'u'] + hex_fixed(c as u32 as nat, 4)
    } else {
        seq![c]
    }
}

/// `s` with each character escaped as serde_json escapes it.
pub open spec fn serde_escaped(s: Seq<char>) -> Seq<char>
    decreases s.len(),
{
    if s.len() == 0 {
        seq![]
    } else {
        serde_escaped(s.drop_last()) + serde_escape_char(s.last())
    }
}

/// The JSON text serde_json writes for a string holding `s`.
pub open spec fn json_string_text(s: Seq<char>) -> Seq<char> {
    seq!['"'] + serde_escaped(s) + seq!['"']
}

/// The compact JSON text of a string (serde_json's `Value::String(..)`
/// displayed): the string in double quotes, with `"` and `\` escaped by a
/// backslash, backspace, tab, line feed, form feed and carriage return as
/// `\b \t \n \f \r`, and every other character below U+0020 as `\u00XX`.
#[verifier::external_body]
fn string_text(s: &str) -> (t: String)
    ensures
        t@ == json_string_text(s@),
{
    serde_json::Value::String(s.to_string()).to_string()
}

/// `s` repeated `n` times.
pub open spec fn repeat(s: Seq<char>, n: nat) -> Seq<char>
    decreases n,
{
    if n == 0 {
        seq![]
    } else {
        repeat(s, (n - 1) as nat) + s
    }
}

/// One member of an object on one line: `"key": value`.
pub open spec fn member_inline(ms: Seq<(String, Json)>, i: int) -> Seq<char>
    decreases ms, 0int, 0int,
{
    if 0 <= i < ms.len() {
        seq!['"'] + json_escaped(ms[i].0@) + "\": "@ + inline_text(ms[i].1)
    } else {
        seq![]
    }
}

/// The members of `ms` at the positions `order`, each on one line, joined by
/// `, `.
pub open spec fn inline_joined(ms: Seq<(String, Json)>, order: Seq<int>) -> Seq<char>
    decreases ms, 1int, order.len(),
{
    if order.len() == 0 {
        seq![]
    } else if order.len() == 1 {
        member_inline(ms, order[0])
    } else {
        inline_joined(ms, order.drop_last()) + ", "@ + member_inline(ms, order.last())
    }
}

/// One-line form of an object with members `ms`: `{ "k": v, "k": v }` in
/// emit order, `{}` when empty.
pub open spec fn inline_members(ms: Seq<(String, Json)>) -> Seq<char>
    decreases ms, 2int, 0int,
{
    if ms.len() == 0 {
        "{}"@
    } else {
        "{ "@ + inline_joined(ms, emit_order(ms)) + " }"@
    }
}

/// One-line form of a value: strings, numbers and the like in serde_json's
/// compact text; objects as [`inline_members`].
pub open spec fn inline_text(v: Json) -> Seq<char>
    decreases v, 3int, 0int,
{
    match v {
        Json::Str(s) => json_string_text(s@),
        Json::Other(t) => t@,
        Json::Object(m) => inline_members(m@),
    }
}

/// The text of string `s` in JSON.
fn string_json(s: &String) -> (t: String)
    ensures
        t@ == json_string_text(s@),
{
    string_text(s.as_str())
}

/// One-line form of a value (see [`inline_text`]).
fn inline(v: &Json) -> (t: String)
    ensures
        t@ == inline_text(*v),
    decreases v,
{
    match v {
        Json::Str(s) => string_json(s),
        Json::Other(t) => t.clone(),
        Json::Object(m) => {
            proof {
                assert((*v)->Object_0 == *m);
                assert(decreases_to!(*v => (*v)->Object_0));
            }
            inline_object(m)
        },
    }
}

/// One-line form of an object with members `m` (see [`inline_members`]).
fn inline_object(m: &Vec<(String, Json)>) -> (t: String)
    ensures
        t@ == inline_members(m@),
    decreases m,
{
        {
            if m.len() == 0 {
                return String::from_str("{}");
            }
            let order = ordered_keys(m);
            let ghost eo = emit_order(m@);
            proof {
                lemma_positions_in_range(m@);
            }
            let mut out = String::new();
            let mut k: usize = 0;
            assert(eo.take(0) =~= seq![]);
            while k < order.len()
                invariant
                    k <= order@.len(),
                    eo == emit_order(m@),
                    order@.len() == eo.len(),
                    forall|j: int| 0 <= j < order@.len() ==> order@[j] as int == #[trigger] eo[j],
                    forall|j: int| 0 <= j < eo.len() ==> 0 <= #[trigger] eo[j] < m@.len(),
                    out@ == inline_joined(m@, eo.take(k as int)),
                decreases order@.len() - k,
            {
                let i = order[k];
                assert(eo[k as int] == i as int);
                assert(0 <= i < m@.len());
                proof {
                    assert(decreases_to!(*m => m@));
                    assert(decreases_to!(m@ => m@[i as int]));
                    assert(decreases_to!(m@[i as int] => m@[i as int].1));
                }
                let value = inline(&m[i].1);
                let key = json_escape(m[i].0.as_str());
                let ghost before = out@;
                if k > 0 {
                    out.append(", ");
                }
                push_char(&mut out, '"');
                out.append(key.as_str());
                out.append("\": ");
                out.append(value.as_str());
                proof {
                    let t = eo.take(k + 1);
                    let member = seq!['"'] + key@ + "\": "@ + value@;
                    assert(member =~= member_inline(m@, i as int));
                    if k > 0 {
                        assert(out@ =~= before + ", "@ + member);
                    } else {
                        assert(out@ =~= member);
                    }
                    assert(t.drop_last() =~= eo.take(k as int));
                    assert(t.last() == i as int);
                    if k == 0 {
                        assert(t.len() == 1 && t[0] == i as int);
                    }
                    assert(out@ =~= inline_joined(m@, t));
                }
                k = k + 1;
            }
            assert(eo.take(k as int) =~= eo);
            let mut r = String::from_str("{ ");
            r.append(out.as_str());
            r.append(" }");
            assert(r@ =~= inline_members(m@));
            r
        }
}

/// Longest line the emitter produces before breaking an object across lines.
/// Chosen so `css` stays inline and a four-color `classes` block does not.
pub const MAX_WIDTH: usize = 80;

/// Whether `one`, starting `depth` indents in, fits in [`MAX_WIDTH`] bytes.
pub open spec fn fits(one: Seq<char>, indent: Seq<char>, depth: nat) -> bool {
    encode_utf8(indent).len() * depth + encode_utf8(one).len() <= MAX_WIDTH
}

/// One member of an object on a line of its own, `depth + 1` indents in.
pub open spec fn member_rendered(ms: Seq<(String, Json)>, i: int, indent: Seq<char>, depth: nat) -> Seq<
    char,
>
    decreases ms, 0int, 0int,
{
    if 0 <= i < ms.len() {
        repeat(indent, depth + 1) + seq!['"'] + json_escaped(ms[i].0@) + "\": "@ + render_text(
            ms[i].1,
            indent,
            depth + 1,
        )
    } else {
        seq![]
    }
}

/// The members of `ms` at the positions `order`, one per line, joined by
/// `,` and a line break.
pub open spec fn rendered_joined(ms: Seq<(String, Json)>, order: Seq<int>, indent: Seq<char>, depth: nat) -> Seq<
    char,
>
    decreases ms, 1int, order.len(),
{
    if order.len() == 0 {
        seq![]
    } else if order.len() == 1 {
        member_rendered(ms, order[0], indent, depth)
    } else {
        rendered_joined(ms, order.drop_last(), indent, depth) + ",\n"@ + member_rendered(
            ms,
            order.last(),
            indent,
            depth,
        )
    }
}

/// An object with members `ms` as JSON5 text, its opening brace `depth`
/// indents in: on one line when that fits in [`MAX_WIDTH`] columns, else one
/// member per line with the closing brace back at `depth` indents.
pub open spec fn object_text(ms: Seq<(String, Json)>, indent: Seq<char>, depth: nat) -> Seq<char>
    decreases ms, 2int, 0int,
{
    if ms.len() == 0 || fits(inline_members(ms), indent, depth) {
        inline_members(ms)
    } else {
        "{\n"@ + rendered_joined(ms, emit_order(ms), indent, depth) + "\n"@ + repeat(indent, depth)
            + "}"@
    }
}

/// `v` as JSON5 text whose opening brace sits `depth` indents in: objects as
/// [`object_text`], any other value in its one-line form.
pub open spec fn render_text(v: Json, indent: Seq<char>, depth: nat) -> Seq<char>
    decreases v, 3int, 0int,
{
    match v {
        Json::Object(m) => object_text(m@, indent, depth),
        _ => inline_text(v),
    }
}

/// How deeply objects nest in `v` (0 for a value that is no object).
pub open spec fn height(v: Json) -> nat
    decreases v, 1int, 0int,
{
    match v {
        Json::Object(m) => 1 + members_height(m@, m@.len() as int),
        _ => 0,
    }
}

/// The largest height among the first `n` member values of `ms`.
pub open spec fn members_height(ms: Seq<(String, Json)>, n: int) -> nat
    decreases ms, 0int, n,
{
    if n <= 0 || n > ms.len() {
        0
    } else {
        let a = members_height(ms, n - 1);
        let b = height(ms[n - 1].1);
        if a >= b {
            a
        } else {
            b
        }
    }
}

proof fn lemma_members_height(ms: Seq<(String, Json)>, n: int, i: int)
    requires
        0 <= i < n <= ms.len(),
    ensures
        height(ms[i].1) <= members_height(ms, n),
    decreases n,
{
    if i < n - 1 {
        lemma_members_height(ms, n - 1, i);
    }
}

proof fn lemma_members_height_bound(ms: Seq<(String, Json)>, n: int, l: nat)
    requires
        0 <= n <= ms.len(),
        forall|i: int| 0 <= i < n ==> height(#[trigger] ms[i].1) <= l,
    ensures
        members_height(ms, n) <= l,
    decreases n,
{
    if n > 0 {
        lemma_members_height_bound(ms, n - 1, l);
    }
}

/// Whether every member value of `ms` nests at most `limit` objects deep.
fn members_at_most(ms: &Vec<(String, Json)>, limit: usize) -> (r: bool)
    ensures
        r == (members_height(ms@, ms@.len() as int) <= limit),
    decreases limit, 1int,
{
    let mut k: usize = 0;
    while k < ms.len()
        invariant
            k <= ms@.len(),
            forall|i: int| 0 <= i < k ==> height(#[trigger] ms@[i].1) <= limit,
        decreases ms@.len() - k,
    {
        if !height_at_most(&ms[k].1, limit) {
            proof {
                lemma_members_height(ms@, ms@.len() as int, k as int);
            }
            return false;
        }
        k = k + 1;
    }
    proof {
        lemma_members_height_bound(ms@, ms@.len() as int, limit as nat);
    }
    true
}

/// Whether `v` nests at most `limit` objects deep.
fn height_at_most(v: &Json, limit: usize) -> (r: bool)
    ensures
        r == (height(*v) <= limit),
    decreases limit, 0int,
{
    match v {
        Json::Object(m) => {
            if limit == 0 {
                false
            } else {
                members_at_most(m, limit - 1)
            }
        },
        _ => true,
    }
}

/// Whether a module definition is shallow enough to be rendered by
/// [`definition_body`] (its nesting depth, plus the level it is written at,
/// fits in a `usize`).
pub fn definition_fits(manifest: &Vec<(String, Json)>) -> (r: bool)
    ensures
        r == (1 + height(Json::Object(*manifest)) < usize::MAX),
{
    members_at_most(manifest, usize::MAX - 3)
}

/// `s` repeated `n` times.
fn repeat_str(s: &str, n: usize) -> (r: String)
    ensures
        r@ == repeat(s@, n as nat),
{
    let mut r = String::new();
    let mut k: usize = 0;
    while k < n
        invariant
            k <= n,
            r@ == repeat(s@, k as nat),
        decreases n - k,
    {
        r.append(s);
        k = k + 1;
    }
    r
}

/// An object's members as JSON5 text, its opening brace `depth` indents in
/// (see [`render_text`]).
fn render_object(m: &Vec<(String, Json)>, indent: &str, depth: usize) -> (t: String)
    requires
        depth + height(Json::Object(*m)) < usize::MAX,
    ensures
        t@ == object_text(m@, indent@, depth as nat),
    decreases m,
{
    let one = inline_object(m);
    let il = indent.as_bytes().len() as u128;
    let dl = depth as u128;
    assert(il * dl <= 0xffff_ffff_ffff_ffffu128 * 0xffff_ffff_ffff_ffffu128) by (nonlinear_arith)
        requires
            il <= 0xffff_ffff_ffff_ffffu128,
            dl <= 0xffff_ffff_ffff_ffffu128,
    ;
    let width = il * dl + (one.as_str().as_bytes().len() as u128);
    assert(width == encode_utf8(indent@).len() * depth + encode_utf8(one@).len());
    if m.len() == 0 || width <= 80 {
        return one;
    }
    let order = ordered_keys(m);
    let ghost eo = emit_order(m@);
    proof {
        lemma_positions_in_range(m@);
    }
    let pad = repeat_str(indent, depth + 1);
    let mut out = String::new();
    let mut k: usize = 0;
    assert(eo.take(0) =~= seq![]);
    while k < order.len()
        invariant
            depth + height(Json::Object(*m)) < usize::MAX,
            k <= order@.len(),
            eo == emit_order(m@),
            pad@ == repeat(indent@, (depth + 1) as nat),
            order@.len() == eo.len(),
            forall|j: int| 0 <= j < order@.len() ==> order@[j] as int == #[trigger] eo[j],
            forall|j: int| 0 <= j < eo.len() ==> 0 <= #[trigger] eo[j] < m@.len(),
            out@ == rendered_joined(m@, eo.take(k as int), indent@, depth as nat),
        decreases order@.len() - k,
    {
        let i = order[k];
        assert(eo[k as int] == i as int);
        proof {
            assert(decreases_to!(*m => m@));
            assert(decreases_to!(m@ => m@[i as int]));
            assert(decreases_to!(m@[i as int] => m@[i as int].1));
        }
        proof {
            lemma_members_height(m@, m@.len() as int, i as int);
        }
        let value = render(&m[i].1, indent, depth + 1);
        let key = json_escape(m[i].0.as_str());
        let ghost before = out@;
        if k > 0 {
            out.append(",\n");
        }
        out.append(pad.as_str());
        push_char(&mut out, '"');
        out.append(key.as_str());
        out.append("\": ");
        out.append(value.as_str());
        proof {
            let t = eo.take(k + 1);
            let member = pad@ + seq!['"'] + key@ + "\": "@ + value@;
            assert(member =~= member_rendered(m@, i as int, indent@, depth as nat));
            if k > 0 {
                assert(out@ =~= before + ",\n"@ + member);
            } else {
                assert(out@ =~= member);
            }
            assert(t.drop_last() =~= eo.take(k as int));
            assert(t.last() == i as int);
            if k == 0 {
                assert(t.len() == 1 && t[0] == i as int);
            }
            assert(out@ =~= rendered_joined(m@, t, indent@, depth as nat));
        }
        k = k + 1;
    }
    assert(eo.take(k as int) =~= eo);
    let close = repeat_str(indent, depth);
    let mut r = String::from_str("{\n");
    r.append(out.as_str());
    r.append("\n");
    r.append(close.as_str());
    r.append("}");
    assert(r@ =~= object_text(m@, indent@, depth as nat));
    r
}

/// Render `v` as JSON5 text, its opening brace `depth` indents in (see
/// [`render_text`]).
fn render(v: &Json, indent: &str, depth: usize) -> (t: String)
    requires
        depth + height(*v) < usize::MAX,
    ensures
        t@ == render_text(*v, indent@, depth as nat),
    decreases v,
{
    match v {
        Json::Object(m) => {
            proof {
                assert((*v)->Object_0 == *m);
                assert(decreases_to!(*v => (*v)->Object_0));
            }
            render_object(m, indent, depth)
        },
        _ => inline(v),
    }
}

/// A module definition object as JSON5 text, ready for
/// `editor::append_module`: keys at two indent levels, closing brace at one.
pub fn render_body(map: &Vec<(String, Json)>, indent: &str) -> (t: String)
    requires
        1 + height(Json::Object(*map)) < usize::MAX,
    ensures
        t@ == object_text(map@, indent@, 1),
{
    render_object(map, indent, 1)
}

/// The message for a manifest that is not an object.
pub open spec fn not_object_error() -> Seq<char> {
    "manifest is not a JSON object"@
}

/// The message for a `description` that is not a string.
pub open spec fn description_error() -> Seq<char> {
    "\"description\" must be a string"@
}

/// The message for an `exec` that is not a string.
pub open spec fn exec_type_error() -> Seq<char> {
    "\"exec\" must be a string"@
}

/// The message for a manifest without `exec`.
pub open spec fn no_exec_error() -> Seq<char> {
    "no \"exec\" key"@
}

/// A manifest's palette description and the module definition that remains
/// once `description` is removed; the error when the manifest is no object,
/// its `description` is no string, or it has no string `exec` (a definition
/// without it cannot be a module).
pub open spec fn manifest_of(v: Json) -> Result<(Seq<char>, Seq<(String, Json)>), Seq<char>> {
    match v {
        Json::Object(m) => {
            let ms = m@;
            let split: Result<(Seq<char>, Seq<(String, Json)>), Seq<char>> = match first_key_from(
                ms,
                "description"@,
                0,
            ) {
                Some(i) => match ms[i].1 {
                    Json::Str(d) => Ok((d@, ms.remove(i))),
                    _ => Err(description_error()),
                },
                None => Ok((seq![], ms)),
            };
            match split {
                Ok((d, rest)) => match first_key_from(rest, "exec"@, 0) {
                    Some(i) => match rest[i].1 {
                        Json::Str(_) => Ok((d, rest)),
                        _ => Err(exec_type_error()),
                    },
                    None => Err(no_exec_error()),
                },
                Err(e) => Err(e),
            }
        },
        _ => Err(not_object_error()),
    }
}

/// Split a parsed manifest into its palette description and the module
/// definition that remains once `description` is removed (see
/// [`manifest_of`]).
pub fn parse_manifest(value: Json) -> (r: Result<(String, Vec<(String, Json)>), String>)
    ensures
        match manifest_of(value) {
            Ok((d, ms)) => r matches Ok((ds, m)) && ds@ == d && m@ == ms,
            Err(e) => r matches Err(x) && x@ == e,
        },
{
    match value {
        Json::Object(m) => {
            let mut m = m;
            let ghost ms = m@;
            let dk = String::from_str("description");
            let description = match find_key(&m, &dk) {
                Some(i) => {
                    let (_key, d) = m.remove(i);
                    match d {
                        Json::Str(text) => text,
                        _ => {
                            return Err(String::from_str("\"description\" must be a string"));
                        },
                    }
                },
                None => String::new(),
            };
            let ek = String::from_str("exec");
            match find_key(&m, &ek) {
                Some(i) => match &m[i].1 {
                    Json::Str(_) => {},
                    _ => {
                        return Err(String::from_str("\"exec\" must be a string"));
                    },
                },
                None => {
                    return Err(String::from_str("no \"exec\" key"));
                },
            }
            Ok((description, m))
        },
        _ => Err(String::from_str("manifest is not a JSON object")),
    }
}

/// serde_json's value type, which json5 parses manifests into.
#[verifier::external_type_specification]
#[verifier::external_body]
pub struct ExJsonValue(serde_json::Value);

/// What `json5::from_str::<serde_json::Value>` makes of `text`, as the
/// catalog models it: the value on success, else the error's message.
pub uninterp spec fn json5_value(text: Seq<char>) -> Result<JsonModel, Seq<char>>;

/// The catalog's form of a serde_json value: a string, an object (its members
/// in the map's order), or the compact text of any other value. This is the
/// conversion step of [`parse_json5`]; nothing else calls it.
#[verifier::external_body]
fn json_of_value(v: &serde_json::Value) -> Json {
    match v {
        serde_json::Value::String(s) => Json::Str(s.clone()),
        serde_json::Value::Object(m) => Json::Object(m.iter().map(|(k, x)| (k.clone(), json_of_value(x))).collect()),
        other => Json::Other(other.to_string()),
    }
}

/// Parses JSON5 text with `json5::from_str::<serde_json::Value>`. The result
/// is named ([`json5_value`]), not stated: the JSON5 grammar is json5's. Of an
/// object the contract states what serde_json's map shows: it is a
/// `BTreeMap` (the `preserve_order` feature is off), so members come out in
/// ascending key order, each key once. An error is the message json5 displays.
#[verifier::external_body]
fn parse_json5(text: &str) -> (r: Result<Json, String>)
    ensures
        match json5_value(text@) {
            Ok(v) => r matches Ok(j) && j@ == v && json_wf(j),
            Err(e) => r matches Err(m) && m@ == e,
        },
{
    match json5::from_str::<serde_json::Value>(text) {
        Ok(v) => Ok(json_of_value(&v)),
        Err(e) => Err(e.to_string()),
    }
}

/// Read a manifest's JSON5 text and split it as [`parse_manifest`] does: a
/// text json5 will not parse gives json5's message; otherwise the parsed
/// value's description and definition, or the error [`manifest_of`] names.
pub fn parse_manifest_text(text: &str) -> (r: Result<(String, Vec<(String, Json)>), String>)
    ensures
        match json5_value(text@) {
            Err(e) => r matches Err(x) && x@ == e,
            Ok(v) => exists|j: Json|
                #![trigger json_model(j)]
                j@ == v && json_wf(j) && match manifest_of(j) {
                    Ok((d, ms)) => r matches Ok((ds, m)) && ds@ == d && m@ == ms,
                    Err(e) => r matches Err(x) && x@ == e,
                },
        },
{
    match parse_json5(text) {
        Ok(value) => {
            let ghost j = value;
            let r = parse_manifest(value);
            assert(json_model(j) == json5_value(text@)->Ok_0);
            r
        },
        Err(e) => Err(e),
    }
}

/// The placeholder for the module folder in a manifest's `exec`.
pub open spec fn dir_marker() -> Seq<char> {
    seq!['$', '{', 'd', 'i', 'r', '}']
}

/// `s` with every `${dir}` (left to right, not overlapping) replaced by `dir`.
pub open spec fn expand_dir(s: Seq<char>, dir: Seq<char>) -> Seq<char>
    decreases s.len(),
{
    if s.len() == 0 {
        seq![]
    } else if s.len() >= 6 && s.take(6) == dir_marker() {
        dir + expand_dir(s.skip(6), dir)
    } else {
        seq![s[0]] + expand_dir(s.skip(1), dir)
    }
}

/// `s` with every `${dir}` replaced by `dir` (see [`expand_dir`]).
fn expand_dir_exec(s: &str, dir: &str) -> (r: String)
    ensures
        r@ == expand_dir(s@, dir@),
{
    let v = chars_of(s);
    let ghost whole = v@;
    let mut out = String::new();
    let mut i: usize = 0;
    assert(whole.skip(0) =~= whole);
    while i < v.len()
        invariant
            whole == v@,
            whole == s@,
            i <= whole.len(),
            out@ + expand_dir(whole.skip(i as int), dir@) == expand_dir(whole, dir@),
        decreases whole.len() - i,
    {
        let ghost rest = whole.skip(i as int);
        let ghost before = out@;
        if starts_with_at(&v, i, &['$', '{', 'd', 'i', 'r', '}']) {
            assert(rest.take(6) =~= whole.subrange(i as int, i + 6));
            assert(rest.skip(6) =~= whole.skip(i + 6));
            out.append(dir);
            i = i + 6;
            assert(out@ + expand_dir(whole.skip(i as int), dir@) =~= before + expand_dir(rest, dir@));
        } else {
            proof {
                if rest.len() >= 6 {
                    assert(rest.take(6) =~= whole.subrange(i as int, i + 6));
                }
            }
            assert(rest.skip(1) =~= whole.skip(i + 1));
            assert(rest[0] == v@[i as int]);
            push_char(&mut out, v[i]);
            i = i + 1;
            assert(out@ + expand_dir(whole.skip(i as int), dir@) =~= before + expand_dir(rest, dir@));
        }
    }
    assert(whole.skip(i as int) =~= seq![]);
    assert(out@ =~= out@ + expand_dir(whole.skip(i as int), dir@));
    out
}

/// A script file an entry needs on disk.
#[derive(Debug)]
pub struct Payload {
    pub file: String,
    pub contents: String,
}

/// A ready-made module the configurator can drop into a user's config.
#[derive(Debug)]
pub struct CatalogEntry {
    pub name: String,
    pub description: String,
    /// The module definition, `description` removed and `${dir}` unexpanded.
    pub manifest: Vec<(String, Json)>,
    /// Script to write out on first use. `None` for modules that need no file
    /// on disk (inline `exec`) and for folder modules, whose files are there
    /// already.
    pub payload: Option<Payload>,
}

/// Whether `new` is the definition `old` with its string `exec` expanded for
/// the module folder `dir` (and is `old` when there is no such `exec`).
pub open spec fn exec_expanded(old: Seq<(String, Json)>, new: Seq<(String, Json)>, dir: Seq<char>) -> bool {
    match first_key_from(old, "exec"@, 0) {
        Some(i) => match old[i].1 {
            Json::Str(e) => {
                &&& new.len() == old.len()
                &&& new[i].0 == old[i].0
                &&& new[i].1 matches Json::Str(x) && x@ == expand_dir(e@, dir)
                &&& forall|j: int| 0 <= j < old.len() && j != i ==> new[j] == old[j]
            },
            _ => new == old,
        },
        None => new == old,
    }
}

proof fn lemma_same_heights(old: Seq<(String, Json)>, new: Seq<(String, Json)>, n: int)
    requires
        old.len() == new.len(),
        0 <= n <= old.len(),
        forall|j: int| 0 <= j < old.len() ==> height(#[trigger] new[j].1) == height(old[j].1),
    ensures
        members_height(new, n) == members_height(old, n),
    decreases n,
{
    if n > 0 {
        lemma_same_heights(old, new, n - 1);
    }
}

/// The JSON5 object text for this entry's module definition, ready for
/// `editor::append_module`. `dir` is the module folder (as the path prints);
/// `${dir}` in `exec` expands to it, so the config ends up holding a plain
/// absolute path with no runtime indirection.
pub fn definition_body(entry: CatalogEntry, indent: &str, dir: &str) -> (t: String)
    requires
        1 + height(Json::Object(entry.manifest)) < usize::MAX,
    ensures
        exists|ms: Seq<(String, Json)>|
            exec_expanded(entry.manifest@, ms, dir@) && t@ == object_text(ms, indent@, 1),
{
    let mut m = entry.manifest;
    let ghost old = m@;
    let ek = String::from_str("exec");
    match find_key(&m, &ek) {
        Some(i) => {
            proof {
                lemma_first_key_from(old, "exec"@, 0);
            }
            let expanded = match &m[i].1 {
                Json::Str(e) => Some(expand_dir_exec(e.as_str(), dir)),
                _ => None,
            };
            match expanded {
                Some(x) => {
                    let key = m[i].0.clone();
                    m.set(i, (key, Json::Str(x)));
                    proof {
                        assert forall|j: int| 0 <= j < old.len() implies height(#[trigger] m@[j].1)
                            == height(old[j].1) by {}
                        lemma_same_heights(old, m@, old.len() as int);
                    }
                },
                None => {},
            }
        },
        None => {},
    }
    render_body(&m, indent)
}

/// The position of the first entry of `es` named `name`.
pub open spec fn first_named(es: Seq<CatalogEntry>, name: Seq<char>) -> Option<int>
    decreases es.len(),
{
    if es.len() == 0 {
        None
    } else if es[0].name@ == name {
        Some(0)
    } else {
        match first_named(es.drop_first(), name) {
            Some(i) => Some(i + 1),
            None => None,
        }
    }
}

proof fn lemma_first_named(es: Seq<CatalogEntry>, name: Seq<char>)
    ensures
        match first_named(es, name) {
            Some(i) => 0 <= i < es.len() && es[i].name@ == name && forall|j: int|
                0 <= j < i ==> es[j].name@ != name,
            None => forall|j: int| 0 <= j < es.len() ==> es[j].name@ != name,
        },
    decreases es.len(),
{
    if es.len() > 0 {
        lemma_first_named(es.drop_first(), name);
        if es[0].name@ != name {
            assert forall|j: int| 1 <= j < es.len() implies es[j] == es.drop_first()[j - 1] by {}
        }
    }
}

/// The position of the first entry of `es` named `name`.
fn position_named(es: &Vec<CatalogEntry>, name: &String) -> (r: Option<usize>)
    ensures
        match r {
            Some(k) => first_named(es@, name@) == Some(k as int) && k < es@.len(),
            None => first_named(es@, name@) is None,
        },
{
    proof {
        lemma_first_named(es@, name@);
    }
    let mut i: usize = 0;
    while i < es.len()
        invariant
            i <= es@.len(),
            forall|j: int| 0 <= j < i ==> es@[j].name@ != name@,
            match first_named(es@, name@) {
                Some(p) => 0 <= p < es@.len() && es@[p].name@ == name@ && forall|j: int|
                    0 <= j < p ==> es@[j].name@ != name@,
                None => forall|j: int| 0 <= j < es@.len() ==> es@[j].name@ != name@,
            },
        decreases es@.len() - i,
    {
        if es[i].name == *name {
            return Some(i);
        }
        i = i + 1;
    }
    None
}

/// `es` with `e` placed after every entry whose name does not sort after its
/// own.
pub open spec fn insert_by_name(es: Seq<CatalogEntry>, e: CatalogEntry) -> Seq<CatalogEntry>
    decreases es.len(),
{
    if es.len() == 0 {
        seq![e]
    } else if !str_lt(e.name@, es.last().name@) {
        es.push(e)
    } else {
        insert_by_name(es.drop_last(), e).push(es.last())
    }
}

/// `es` in name order; entries with equal names keep their order.
pub open spec fn sort_by_name(es: Seq<CatalogEntry>) -> Seq<CatalogEntry>
    decreases es.len(),
{
    if es.len() == 0 {
        seq![]
    } else {
        insert_by_name(sort_by_name(es.drop_last()), es.last())
    }
}

/// `out` with `found` put in: in place of the first entry with its name, or
/// at the end.
pub open spec fn put_entry(out: Seq<CatalogEntry>, found: CatalogEntry) -> Seq<CatalogEntry> {
    match first_named(out, found.name@) {
        Some(i) => out.update(i, found),
        None => out.push(found),
    }
}

/// `out` with each of `found` put in, in order.
pub open spec fn put_all(out: Seq<CatalogEntry>, found: Seq<CatalogEntry>) -> Seq<CatalogEntry>
    decreases found.len(),
{
    if found.len() == 0 {
        out
    } else {
        put_entry(put_all(out, found.drop_last()), found.last())
    }
}

/// Whether `a` sorts before `b`.
pub(crate) fn str_less(a: &String, b: &String) -> (r: bool)
    ensures
        r == str_lt(a@, b@),
{
    let x = chars_of(a.as_str());
    let y = chars_of(b.as_str());
    let mut k: usize = 0;
    assert(x@.skip(0) =~= x@);
    assert(y@.skip(0) =~= y@);
    while k < x.len() && k < y.len() && x[k] == y[k]
        invariant
            k <= x@.len(),
            k <= y@.len(),
            str_lt(x@.skip(k as int), y@.skip(k as int)) == str_lt(a@, b@),
            x@ == a@,
            y@ == b@,
        decreases x@.len() - k,
    {
        assert(x@.skip(k as int).drop_first() =~= x@.skip(k + 1));
        assert(y@.skip(k as int).drop_first() =~= y@.skip(k + 1));
        k = k + 1;
    }
    if k == x.len() {
        k < y.len()
    } else if k == y.len() {
        false
    } else {
        assert(x@.skip(k as int)[0] == x@[k as int]);
        assert(y@.skip(k as int)[0] == y@[k as int]);
        (x[k] as u32) < (y[k] as u32)
    }
}

/// `es` with `e` inserted after every entry whose name does not sort after
/// its own.
fn insert_named(es: &mut Vec<CatalogEntry>, e: CatalogEntry)
    ensures
        final(es)@ == insert_by_name(old(es)@, e),
{
    let ghost before = es@;
    let mut j = es.len();
    assert(before.take(j as int) =~= before);
    assert(before.skip(j as int) =~= seq![]);
    while j > 0 && str_less(&e.name, &es[j - 1].name)
        invariant
            j <= before.len(),
            es@ == before,
            insert_by_name(before, e) == insert_by_name(before.take(j as int), e) + before.skip(
                j as int,
            ),
        decreases j,
    {
        proof {
            let t = before.take(j as int);
            assert(t.drop_last() =~= before.take(j - 1));
            assert(t.last() == before[j - 1]);
            assert(before.skip(j - 1) =~= seq![before[j - 1]] + before.skip(j as int));
            assert(insert_by_name(before, e) =~= insert_by_name(before.take(j - 1), e) + before.skip(
                j - 1,
            ));
        }
        j = j - 1;
    }
    proof {
        if j == 0 {
            assert(before.take(0) =~= seq![]);
        } else {
            assert(before.take(j as int).last() == before[j - 1]);
        }
        assert(insert_by_name(before.take(j as int), e) =~= before.take(j as int).push(e));
    }
    es.insert(j, e);
    assert(es@ =~= insert_by_name(before, e));
}

/// The palette: built-ins first in their shipped order, then folder modules
/// (`found`) sorted by name. A folder module whose name matches a built-in
/// replaces it in place, so overriding a shipped module means dropping in a
/// folder.
pub fn entries(builtins: Vec<CatalogEntry>, found: Vec<CatalogEntry>) -> (r: Vec<CatalogEntry>)
    ensures
        r@ == put_all(builtins@, sort_by_name(found@)),
{
    let ghost fs = found@;
    let total = found.len();
    let mut rest = found;
    let mut sorted: Vec<CatalogEntry> = Vec::new();
    let mut k: usize = 0;
    assert(fs.take(0) =~= seq![]);
    assert(fs.skip(0) =~= fs);
    while rest.len() > 0
        invariant
            k <= fs.len(),
            fs.len() == total,
            rest@ == fs.skip(k as int),
            sorted@ == sort_by_name(fs.take(k as int)),
        decreases rest@.len(),
    {
        let e = rest.remove(0);
        assert(fs.take(k + 1).drop_last() =~= fs.take(k as int));
        assert(fs.take(k + 1).last() == e);
        insert_named(&mut sorted, e);
        assert(fs.skip(k + 1) =~= fs.skip(k as int).drop_first());
        k = k + 1;
    }
    assert(fs.take(k as int) =~= fs);
    let ghost order = sorted@;
    let count = sorted.len();
    let mut out = builtins;
    let ghost start = out@;
    let mut j: usize = 0;
    assert(order.take(0) =~= seq![]);
    assert(order.skip(0) =~= order);
    while sorted.len() > 0
        invariant
            j <= order.len(),
            order.len() == count,
            sorted@ == order.skip(j as int),
            out@ == put_all(start, order.take(j as int)),
        decreases sorted@.len(),
    {
        let e = sorted.remove(0);
        let ghost ge = e;
        let ghost before = out@;
        assert(order.take(j + 1).drop_last() =~= order.take(j as int));
        assert(order.take(j + 1).last() == e);
        match position_named(&out, &e.name) {
            Some(i) => {
                out.set(i, e);
            },
            None => {
                out.push(e);
            },
        }
        assert(out@ == put_entry(before, ge));
        assert(order.skip(j + 1) =~= order.skip(j as int).drop_first());
        j = j + 1;
    }
    assert(order.take(j as int) =~= order);
    out
}

/// The entry of `all` named `name`, if any.
pub fn find(name: &str, all: Vec<CatalogEntry>) -> (r: Option<CatalogEntry>)
    ensures
        match first_named(all@, name@) {
            Some(i) => r == Some(all@[i]),
            None => r is None,
        },
{
    let key = String::from_str(name);
    let mut all = all;
    match position_named(&all, &key) {
        Some(i) => Some(all.remove(i)),
        None => None,
    }
}

proof fn lemma_put_all_keeps(out: Seq<CatalogEntry>, found: Seq<CatalogEntry>)
    ensures
        put_all(out, found).len() >= out.len(),
        forall|i: int| 0 <= i < out.len() ==> (#[trigger] put_all(out, found)[i]).name@ == out[i].name@,
    decreases found.len(),
{
    if found.len() > 0 {
        lemma_put_all_keeps(out, found.drop_last());
        let before = put_all(out, found.drop_last());
        let f = found.last();
        lemma_first_named(before, f.name@);
        assert forall|i: int| 0 <= i < out.len() implies (#[trigger] put_all(out, found)[i]).name@
            == out[i].name@ by {
            assert(before[i].name@ == out[i].name@);
            match first_named(before, f.name@) {
                Some(p) => {
                    if p == i {
                        assert(put_all(out, found)[i] == f);
                    } else {
                        assert(put_all(out, found)[i] == before[i]);
                    }
                },
                None => {
                    assert(put_all(out, found)[i] == before[i]);
                },
            }
        }
    }
}

/// Folder modules never displace the built-ins: every built-in keeps its
/// place in the palette, under its name (a folder module of the same name
/// takes over that place), and folder modules only ever come after them.
pub proof fn lemma_builtins_keep_their_places(builtins: Seq<CatalogEntry>, found: Seq<CatalogEntry>)
    ensures
        put_all(builtins, sort_by_name(found)).len() >= builtins.len(),
        forall|i: int|
            0 <= i < builtins.len() ==> (#[trigger] put_all(builtins, sort_by_name(found))[i]).name@
                == builtins[i].name@,
{
    lemma_put_all_keeps(builtins, sort_by_name(found));
}

} // verus!
