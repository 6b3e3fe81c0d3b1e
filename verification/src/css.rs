//! The resolved look of a module: colors, font and box edges, read from the
//! config's `css` properties, and the named style fragments (classes) a
//! module may use.

use vstd::prelude::*;
use crate::config::{all_digits, digits_value, is_digit, lemma_digits_prefix};
use crate::text::{
    chars_of, same_text, string_from_chars, strings_model, trim, trim_vec, words, words_vec,
};

verus! {

/// An RGB color.
#[derive(Debug, Clone, Copy, PartialEq, Eq, Structural)]
pub struct Color {
    pub r: u8,
    pub g: u8,
    pub b: u8,
}

impl Color {
    /// The Win32 COLORREF value of the color: bytes packed as `0x00BBGGRR`.
    pub open spec fn spec_colorref(self) -> int {
        self.r + 256 * self.g + 65536 * self.b
    }

    /// Win32 COLORREF packs bytes as 0x00BBGGRR.
    pub fn colorref(self) -> (v: u32)
        ensures
            v == self.spec_colorref(),
    {
        let r = self.r as u32;
        let g = self.g as u32;
        let b = self.b as u32;
        let v = r | (g << 8) | (b << 16);
        assert(v == r + 256 * g + 65536 * b) by (bit_vector)
            requires
                r < 256 && g < 256 && b < 256 && v == r | (g << 8) | (b << 16),
        ;
        v
    }
}

/// Box edges in pixels, clockwise from the top.
#[derive(Debug, Clone, Copy, PartialEq, Eq, Structural)]
pub struct Edges {
    pub top: i32,
    pub right: i32,
    pub bottom: i32,
    pub left: i32,
}

impl Default for Edges {
    /// No space on any side.
    fn default() -> (e: Self)
        ensures
            e == (Edges { top: 0, right: 0, bottom: 0, left: 0 }),
    {
        Edges { top: 0, right: 0, bottom: 0, left: 0 }
    }
}

/// How a module is drawn.
#[derive(Debug, Clone, PartialEq, Eq)]
pub struct Style {
    pub color: Color,
    pub background: Option<Color>,
    pub font_family: String,
    pub font_size: i32,
    pub font_weight: i32,
    pub padding: Edges,
    pub margin: Edges,
}

/// The font used when a module names none.
pub open spec fn default_font() -> Seq<char> {
    "Segoe UI"@
}

impl Default for Style {
    /// Light gray Segoe UI at 12px, normal weight, no background, no padding
    /// or margin.
    fn default() -> (s: Self)
        ensures
            s.color == (Color { r: 0xd0, g: 0xd0, b: 0xd0 }),
            s.background is None,
            s.font_family@ == default_font(),
            s.font_size == 12,
            s.font_weight == 400,
            s.padding == (Edges { top: 0, right: 0, bottom: 0, left: 0 }),
            s.margin == (Edges { top: 0, right: 0, bottom: 0, left: 0 }),
    {
        Style {
            color: Color { r: 0xd0, g: 0xd0, b: 0xd0 },
            background: None,
            font_family: String::from_str("Segoe UI"),
            font_size: 12,
            font_weight: 400,
            padding: Edges::default(),
            margin: Edges::default(),
        }
    }
}


/// The value of a hexadecimal digit, if `c` is one.
pub open spec fn hex_value(c: char) -> Option<int> {
    if '0' <= c && c <= '9' {
        Some(c as int - 48)
    } else if 'a' <= c && c <= 'f' {
        Some(c as int - 87)
    } else if 'A' <= c && c <= 'F' {
        Some(c as int - 55)
    } else {
        None
    }
}

/// One color channel written as `a` alone (`u8::from_str_radix` in base 16
/// on one character).
pub open spec fn nibble(a: char) -> Option<int> {
    hex_value(a)
}

/// One color channel written as the two characters `a b`
/// (`u8::from_str_radix` in base 16, which also takes a leading `+`).
pub open spec fn byte_pair(a: char, b: char) -> Option<int> {
    if a == '+' {
        hex_value(b)
    } else {
        match (hex_value(a), hex_value(b)) {
            (Some(x), Some(y)) => Some(16 * x + y),
            _ => None,
        }
    }
}

/// A color written `#rgb` (each digit doubled) or `#rrggbb`, surrounding
/// whitespace allowed.
pub open spec fn color_of(s: Seq<char>) -> Option<Color> {
    let t = trim(s);
    if t.len() == 0 || t[0] != '#' {
        None
    } else {
        let h = t.skip(1);
        if h.len() == 3 {
            match (nibble(h[0]), nibble(h[1]), nibble(h[2])) {
                (Some(r), Some(g), Some(b)) => Some(
                    Color { r: (r * 17) as u8, g: (g * 17) as u8, b: (b * 17) as u8 },
                ),
                _ => None,
            }
        } else if h.len() == 6 {
            match (byte_pair(h[0], h[1]), byte_pair(h[2], h[3]), byte_pair(h[4], h[5])) {
                (Some(r), Some(g), Some(b)) => Some(Color { r: r as u8, g: g as u8, b: b as u8 }),
                _ => None,
            }
        } else {
            None
        }
    }
}

/// The integer `s` spells as `i32::from_str` reads it: an optional sign and
/// one or more decimal digits, within the `i32` range.
pub open spec fn int_of(s: Seq<char>) -> Option<i32> {
    let signed = s.len() > 0 && (s[0] == '-' || s[0] == '+');
    let d = if signed {
        s.skip(1)
    } else {
        s
    };
    let v = if s.len() > 0 && s[0] == '-' {
        -digits_value(d)
    } else {
        digits_value(d) as int
    };
    if d.len() > 0 && all_digits(d) && i32::MIN <= v <= i32::MAX {
        Some(v as i32)
    } else {
        None
    }
}

/// `t` without a trailing `px`.
pub open spec fn strip_px(t: Seq<char>) -> Seq<char> {
    if t.len() >= 2 && t[t.len() - 2] == 'p' && t[t.len() - 1] == 'x' {
        t.take(t.len() - 2)
    } else {
        t
    }
}

/// A pixel length: an integer, with or without a `px` suffix, surrounding
/// whitespace allowed.
pub open spec fn px_of(s: Seq<char>) -> Option<i32> {
    int_of(trim(strip_px(trim(s))))
}

/// A font weight: `normal` (400), `bold` (700), or a number from 100 to 900.
pub open spec fn weight_of(s: Seq<char>) -> Option<i32> {
    let t = trim(s);
    if t == "normal"@ {
        Some(400)
    } else if t == "bold"@ {
        Some(700)
    } else {
        match int_of(t) {
            Some(w) => if 100 <= w <= 900 {
                Some(w)
            } else {
                None
            },
            None => None,
        }
    }
}

/// The pixel lengths of `ws`, if every one is a length.
pub open spec fn lengths_of(ws: Seq<Seq<char>>) -> Option<Seq<i32>>
    decreases ws.len(),
{
    if ws.len() == 0 {
        Some(seq![])
    } else {
        match (lengths_of(ws.drop_last()), px_of(ws.last())) {
            (Some(v), Some(x)) => Some(v.push(x)),
            _ => None,
        }
    }
}

/// Box edges written as one to four whitespace-separated lengths, CSS
/// shorthand order: all sides; vertical and horizontal; top, horizontal and
/// bottom; or top, right, bottom and left.
pub open spec fn edges_of(s: Seq<char>) -> Option<Edges> {
    match lengths_of(words(s)) {
        Some(p) => if p.len() == 1 {
            Some(Edges { top: p[0], right: p[0], bottom: p[0], left: p[0] })
        } else if p.len() == 2 {
            Some(Edges { top: p[0], right: p[1], bottom: p[0], left: p[1] })
        } else if p.len() == 3 {
            Some(Edges { top: p[0], right: p[1], bottom: p[2], left: p[1] })
        } else if p.len() == 4 {
            Some(Edges { top: p[0], right: p[1], bottom: p[2], left: p[3] })
        } else {
            None
        },
        None => None,
    }
}

/// Exec form of [`hex_value`].
fn hex_digit(c: char) -> (r: Option<u8>)
    ensures
        match hex_value(c) {
            Some(v) => r == Some(v as u8) && 0 <= v < 16,
            None => r is None,
        },
{
    if '0' <= c && c <= '9' {
        Some((c as u32 - 48) as u8)
    } else if 'a' <= c && c <= 'f' {
        Some((c as u32 - 87) as u8)
    } else if 'A' <= c && c <= 'F' {
        Some((c as u32 - 55) as u8)
    } else {
        None
    }
}

/// Exec form of [`byte_pair`].
fn pair(a: char, b: char) -> (r: Option<u8>)
    ensures
        match byte_pair(a, b) {
            Some(v) => r == Some(v as u8) && 0 <= v < 256,
            None => r is None,
        },
{
    if a == '+' {
        return hex_digit(b);
    }
    match (hex_digit(a), hex_digit(b)) {
        (Some(x), Some(y)) => Some(16 * x + y),
        _ => None,
    }
}

/// Parse `#rgb` or `#rrggbb`.
pub fn parse_color(s: &str) -> (r: Option<Color>)
    ensures
        r == color_of(s@),
{
    let t = trim_vec(&chars_of(s));
    if t.len() == 0 || t[0] != '#' {
        return None;
    }
    let ghost h = t@.skip(1);
    if t.len() == 4 {
        match (hex_digit(t[1]), hex_digit(t[2]), hex_digit(t[3])) {
            (Some(r), Some(g), Some(b)) => Some(Color { r: r * 17, g: g * 17, b: b * 17 }),
            _ => None,
        }
    } else if t.len() == 7 {
        match (pair(t[1], t[2]), pair(t[3], t[4]), pair(t[5], t[6])) {
            (Some(r), Some(g), Some(b)) => Some(Color { r, g, b }),
            _ => None,
        }
    } else {
        None
    }
}

/// The integer `v` spells (see [`int_of`]).
fn parse_int(v: &Vec<char>) -> (r: Option<i32>)
    ensures
        r == int_of(v@),
{
    let ghost s = v@;
    let neg = v.len() > 0 && v[0] == '-';
    let start: usize = if v.len() > 0 && (v[0] == '-' || v[0] == '+') {
        1
    } else {
        0
    };
    let ghost d = s.skip(start as int);
    assert(d =~= if s.len() > 0 && (s[0] == '-' || s[0] == '+') {
        s.skip(1)
    } else {
        s
    });
    assert(neg == (s.len() > 0 && s[0] == '-'));
    if start >= v.len() {
        return None;
    }
    let mut acc: i64 = 0;
    let mut k: usize = start;
    assert(d.take(0) =~= seq![]);
    while k < v.len()
        invariant
            s == v@,
            start < s.len(),
            start <= k <= s.len(),
            d == s.skip(start as int),
            forall|t: int| 0 <= t < k - start ==> is_digit(#[trigger] d[t]),
            acc == digits_value(d.take(k - start)),
            acc <= 2147483648,
            neg == (s.len() > 0 && s[0] == '-'),
            d == (if s.len() > 0 && (s[0] == '-' || s[0] == '+') {
                s.skip(1)
            } else {
                s
            }),
        decreases s.len() - k,
    {
        let c = v[k];
        if !('0' <= c && c <= '9') {
            assert(!is_digit(d[k - start]));
            assert(!all_digits(d));
            return None;
        }
        assert(d.take(k - start + 1).drop_last() =~= d.take(k - start));
        acc = acc * 10 + (c as u32 - 48) as i64;
        k = k + 1;
        if acc > 2147483648 {
            proof {
                lemma_digits_prefix(d, k - start);
            }
            return None;
        }
    }
    assert(d.take(d.len() as int) =~= d);
    assert(all_digits(d));
    if neg {
        Some((0 - acc) as i32)
    } else if acc <= 2147483647 {
        Some(acc as i32)
    } else {
        None
    }
}

/// Parse an integer pixel length, with or without a `px` suffix.
pub fn parse_px(s: &str) -> (r: Option<i32>)
    ensures
        r == px_of(s@),
{
    let t = trim_vec(&chars_of(s));
    let n = t.len();
    let num = if n >= 2 && t[n - 2] == 'p' && t[n - 1] == 'x' {
        crate::text::sub_vec(&t, 0, n - 2)
    } else {
        t
    };
    parse_int(&trim_vec(&num))
}

/// Parse a font weight: `normal`, `bold`, or a `100`–`900` number.
pub fn parse_weight(s: &str) -> (r: Option<i32>)
    ensures
        r == weight_of(s@),
{
    let t = trim_vec(&chars_of(s));
    proof {
        reveal_strlit("normal");
        reveal_strlit("bold");
    }
    if t.len() == 6 && t[0] == 'n' && t[1] == 'o' && t[2] == 'r' && t[3] == 'm' && t[4] == 'a'
        && t[5] == 'l' {
        assert(t@ =~= "normal"@);
        return Some(400);
    }
    if t.len() == 4 && t[0] == 'b' && t[1] == 'o' && t[2] == 'l' && t[3] == 'd' {
        assert(t@ =~= "bold"@);
        return Some(700);
    }
    assert(t@ != "normal"@ && t@ != "bold"@) by {
        if t@ == "normal"@ {
            assert(t@[0] == 'n' && t@[1] == 'o' && t@[2] == 'r' && t@[3] == 'm' && t@[4] == 'a'
                && t@[5] == 'l');
        }
        if t@ == "bold"@ {
            assert(t@[0] == 'b' && t@[1] == 'o' && t@[2] == 'l' && t@[3] == 'd');
        }
    }
    match parse_int(&t) {
        Some(w) => if 100 <= w && w <= 900 {
            Some(w)
        } else {
            None
        },
        None => None,
    }
}

/// Parse one to four CSS-shorthand lengths into top/right/bottom/left edges.
pub fn parse_edges(s: &str) -> (r: Option<Edges>)
    ensures
        r == edges_of(s@),
{
    let ws = words_vec(&chars_of(s));
    let ghost wm = strings_model(ws@);
    let mut p: Vec<i32> = Vec::new();
    let mut k: usize = 0;
    assert(wm.take(0) =~= seq![]);
    while k < ws.len()
        invariant
            wm == strings_model(ws@),
            wm == words(s@),
            k <= wm.len(),
            lengths_of(wm.take(k as int)) == Some(p@),
        decreases wm.len() - k,
    {
        assert(wm.take(k + 1).drop_last() =~= wm.take(k as int));
        assert(wm.take(k + 1).last() == ws@[k as int]@);
        match parse_px(ws[k].as_str()) {
            Some(x) => p.push(x),
            None => {
                proof {
                    lemma_lengths_stop(wm, k as int + 1);
                }
                return None;
            },
        }
        k = k + 1;
    }
    assert(wm.take(k as int) =~= wm);
    if p.len() == 1 {
        Some(Edges { top: p[0], right: p[0], bottom: p[0], left: p[0] })
    } else if p.len() == 2 {
        Some(Edges { top: p[0], right: p[1], bottom: p[0], left: p[1] })
    } else if p.len() == 3 {
        Some(Edges { top: p[0], right: p[1], bottom: p[2], left: p[1] })
    } else if p.len() == 4 {
        Some(Edges { top: p[0], right: p[1], bottom: p[2], left: p[3] })
    } else {
        None
    }
}

proof fn lemma_lengths_stop(ws: Seq<Seq<char>>, k: int)
    requires
        0 < k <= ws.len(),
        lengths_of(ws.take(k)) is None,
    ensures
        lengths_of(ws) is None,
    decreases ws.len() - k,
{
    if k < ws.len() {
        assert(ws.drop_last().take(k) =~= ws.take(k));
        lemma_lengths_stop(ws.drop_last(), k);
    } else {
        assert(ws.take(k) =~= ws);
    }
}


/// The mathematical content of a [`Style`].
pub struct StyleModel {
    pub color: Color,
    pub background: Option<Color>,
    pub font_family: Seq<char>,
    pub font_size: i32,
    pub font_weight: i32,
    pub padding: Edges,
    pub margin: Edges,
}

impl View for Style {
    type V = StyleModel;

    open spec fn view(&self) -> StyleModel {
        StyleModel {
            color: self.color,
            background: self.background,
            font_family: self.font_family@,
            font_size: self.font_size,
            font_weight: self.font_weight,
            padding: self.padding,
            margin: self.margin,
        }
    }
}

/// The style of a module that sets nothing (see `Style::default`).
pub open spec fn default_style() -> StyleModel {
    StyleModel {
        color: Color { r: 0xd0, g: 0xd0, b: 0xd0 },
        background: None,
        font_family: default_font(),
        font_size: 12,
        font_weight: 400,
        padding: Edges { top: 0, right: 0, bottom: 0, left: 0 },
        margin: Edges { top: 0, right: 0, bottom: 0, left: 0 },
    }
}

/// `st` with the property `k: v` applied: `color`, `background-color`,
/// `font-family` (trimmed), `font-size`, `font-weight`, `padding` and
/// `margin`. A value that does not parse, and any other property, leaves the
/// style as it is.
pub open spec fn apply_prop(st: StyleModel, k: Seq<char>, v: Seq<char>) -> StyleModel {
    if k == "color"@ {
        match color_of(v) {
            Some(c) => StyleModel { color: c, ..st },
            None => st,
        }
    } else if k == "background-color"@ {
        match color_of(v) {
            Some(c) => StyleModel { background: Some(c), ..st },
            None => st,
        }
    } else if k == "font-family"@ {
        StyleModel { font_family: trim(v), ..st }
    } else if k == "font-size"@ {
        match px_of(v) {
            Some(x) => StyleModel { font_size: x, ..st },
            None => st,
        }
    } else if k == "font-weight"@ {
        match weight_of(v) {
            Some(w) => StyleModel { font_weight: w, ..st },
            None => st,
        }
    } else if k == "padding"@ {
        match edges_of(v) {
            Some(e) => StyleModel { padding: e, ..st },
            None => st,
        }
    } else if k == "margin"@ {
        match edges_of(v) {
            Some(e) => StyleModel { margin: e, ..st },
            None => st,
        }
    } else {
        st
    }
}

/// `st` with each property of `css` applied in order.
pub open spec fn apply_css(st: StyleModel, css: Seq<(Seq<char>, Seq<char>)>) -> StyleModel
    decreases css.len(),
{
    if css.len() == 0 {
        st
    } else {
        apply_prop(apply_css(st, css.drop_last()), css.last().0, css.last().1)
    }
}

/// The characters of each property and value.
pub open spec fn pairs_model(v: Seq<(String, String)>) -> Seq<(Seq<char>, Seq<char>)> {
    v.map_values(|p: (String, String)| (p.0@, p.1@))
}

/// A module's style: the default, with the global `css` applied over it and
/// the module's own `css` over that, so the module's properties win.
pub open spec fn resolved_style(global: Seq<(Seq<char>, Seq<char>)>, module: Seq<(Seq<char>, Seq<char>)>) -> StyleModel {
    apply_css(apply_css(default_style(), global), module)
}

/// Apply each property of `css`, in order, to `style`.
fn apply(style: &mut Style, css: &Vec<(String, String)>)
    ensures
        final(style)@ == apply_css(old(style)@, pairs_model(css@)),
{
    let ghost start = style@;
    let ghost m = pairs_model(css@);
    let mut k: usize = 0;
    assert(m.take(0) =~= seq![]);
    while k < css.len()
        invariant
            m == pairs_model(css@),
            k <= m.len(),
            style@ == apply_css(start, m.take(k as int)),
        decreases m.len() - k,
    {
        assert(m.take(k + 1).drop_last() =~= m.take(k as int));
        assert(m.take(k + 1).last() == (css@[k as int].0@, css@[k as int].1@));
        let key = css[k].0.as_str();
        let value = css[k].1.as_str();
        if same_text(key, "color") {
            if let Some(c) = parse_color(value) {
                style.color = c;
            }
        } else if same_text(key, "background-color") {
            if let Some(c) = parse_color(value) {
                style.background = Some(c);
            }
        } else if same_text(key, "font-family") {
            let t = trim_vec(&chars_of(value));
            style.font_family = string_from_chars(&t, 0, t.len());
            assert(t@.subrange(0, t@.len() as int) =~= t@);
        } else if same_text(key, "font-size") {
            if let Some(x) = parse_px(value) {
                style.font_size = x;
            }
        } else if same_text(key, "font-weight") {
            if let Some(w) = parse_weight(value) {
                style.font_weight = w;
            }
        } else if same_text(key, "padding") {
            if let Some(e) = parse_edges(value) {
                style.padding = e;
            }
        } else if same_text(key, "margin") {
            if let Some(e) = parse_edges(value) {
                style.margin = e;
            }
        }
        k = k + 1;
    }
    assert(m.take(k as int) =~= m);
}

/// Merge top-level defaults then a module's own css into a resolved style;
/// the module's properties win. Values that do not parse and unknown
/// properties are ignored, so one bad line never breaks the bar.
pub fn resolve(default_css: &Vec<(String, String)>, module_css: &Vec<(String, String)>) -> (s: Style)
    ensures
        s@ == resolved_style(pairs_model(default_css@), pairs_model(module_css@)),
{
    let mut style = Style::default();
    assert(style@ == default_style());
    apply(&mut style, default_css);
    apply(&mut style, module_css);
    style
}


/// Named style fragments: class name to its properties, in order.
pub type ClassMap = Vec<(String, Vec<(String, String)>)>;

/// The characters of each class name and of its properties.
pub open spec fn classes_model(v: Seq<(String, Vec<(String, String)>)>) -> Seq<
    (Seq<char>, Seq<(Seq<char>, Seq<char>)>),
> {
    v.map_values(|c: (String, Vec<(String, String)>)| (c.0@, pairs_model(c.1@)))
}

/// The position of the first entry of `v` under `k`.
pub open spec fn key_pos<V>(v: Seq<(Seq<char>, V)>, k: Seq<char>) -> Option<int>
    decreases v.len(),
{
    if v.len() == 0 {
        None
    } else if v[0].0 == k {
        Some(0)
    } else {
        match key_pos(v.drop_first(), k) {
            Some(i) => Some(i + 1),
            None => None,
        }
    }
}

/// `ps` with property `p` set: its value replaced where the property is
/// already there, otherwise added at the end.
pub open spec fn set_prop(ps: Seq<(Seq<char>, Seq<char>)>, p: (Seq<char>, Seq<char>)) -> Seq<
    (Seq<char>, Seq<char>),
> {
    match key_pos(ps, p.0) {
        Some(i) => ps.update(i, p),
        None => ps.push(p),
    }
}

/// `base` with each property of `over` set in order: `over`'s keys win.
pub open spec fn merge_props(base: Seq<(Seq<char>, Seq<char>)>, over: Seq<(Seq<char>, Seq<char>)>) -> Seq<
    (Seq<char>, Seq<char>),
>
    decreases over.len(),
{
    if over.len() == 0 {
        base
    } else {
        set_prop(merge_props(base, over.drop_last()), over.last())
    }
}

/// `cs` with class `c` merged in: where a class of that name is there, `c`'s
/// properties are merged over it property by property; otherwise `c` is
/// added at the end.
pub open spec fn set_class(
    cs: Seq<(Seq<char>, Seq<(Seq<char>, Seq<char>)>)>,
    c: (Seq<char>, Seq<(Seq<char>, Seq<char>)>),
) -> Seq<(Seq<char>, Seq<(Seq<char>, Seq<char>)>)> {
    match key_pos(cs, c.0) {
        Some(i) => cs.update(i, (c.0, merge_props(cs[i].1, c.1))),
        None => cs.push(c),
    }
}

/// The classes a module sees: the shared ones, with the module's own merged
/// over them in order (a name defined in both places merges property by
/// property, and the module's keys win).
pub open spec fn merge_classes(
    shared: Seq<(Seq<char>, Seq<(Seq<char>, Seq<char>)>)>,
    module: Seq<(Seq<char>, Seq<(Seq<char>, Seq<char>)>)>,
) -> Seq<(Seq<char>, Seq<(Seq<char>, Seq<char>)>)>
    decreases module.len(),
{
    if module.len() == 0 {
        shared
    } else {
        set_class(merge_classes(shared, module.drop_last()), module.last())
    }
}

proof fn lemma_key_pos<V>(v: Seq<(Seq<char>, V)>, k: Seq<char>)
    ensures
        match key_pos(v, k) {
            Some(i) => 0 <= i < v.len() && v[i].0 == k && forall|j: int| 0 <= j < i ==> v[j].0 != k,
            None => forall|j: int| 0 <= j < v.len() ==> v[j].0 != k,
        },
    decreases v.len(),
{
    if v.len() > 0 {
        lemma_key_pos(v.drop_first(), k);
        if v[0].0 != k {
            assert forall|j: int| 1 <= j < v.len() implies v[j] == v.drop_first()[j - 1] by {}
        }
    }
}

/// A copy of the properties `ps`.
fn copy_pairs(ps: &Vec<(String, String)>) -> (r: Vec<(String, String)>)
    ensures
        pairs_model(r@) == pairs_model(ps@),
{
    let mut r: Vec<(String, String)> = Vec::new();
    let mut k: usize = 0;
    while k < ps.len()
        invariant
            k <= ps@.len(),
            pairs_model(r@) == pairs_model(ps@).take(k as int),
        decreases ps@.len() - k,
    {
        let a = ps[k].0.clone();
        let b = ps[k].1.clone();
        assert(a@ == ps@[k as int].0@ && b@ == ps@[k as int].1@);
        let ghost before = r@;
        r.push((a, b));
        assert(r@ == before.push((a, b)));
        assert(pairs_model(r@) =~= pairs_model(before).push((a@, b@)));
        assert(pairs_model(r@) =~= pairs_model(ps@).take(k + 1));
        k = k + 1;
    }
    assert(pairs_model(ps@).take(k as int) =~= pairs_model(ps@));
    r
}

/// Set each property of `over`, in order, in `ps`.
fn merge_props_into(ps: &mut Vec<(String, String)>, over: &Vec<(String, String)>)
    ensures
        pairs_model(final(ps)@) == merge_props(pairs_model(old(ps)@), pairs_model(over@)),
{
    let ghost base = pairs_model(ps@);
    let ghost om = pairs_model(over@);
    let mut k: usize = 0;
    assert(om.take(0) =~= seq![]);
    while k < over.len()
        invariant
            om == pairs_model(over@),
            k <= om.len(),
            pairs_model(ps@) == merge_props(base, om.take(k as int)),
        decreases om.len() - k,
    {
        assert(om.take(k + 1).drop_last() =~= om.take(k as int));
        assert(om.take(k + 1).last() == om[k as int]);
        let ghost cur = pairs_model(ps@);
        proof {
            lemma_key_pos(cur, om[k as int].0);
        }
        let key = over[k].0.as_str();
        let mut i: usize = 0;
        while i < ps.len()
            invariant
                cur == pairs_model(ps@),
                i <= ps@.len(),
                k < om.len(),
                om == pairs_model(over@),
                key@ == om[k as int].0,
                forall|j: int| 0 <= j < i ==> cur[j].0 != key@,
            ensures
                i < ps@.len() ==> cur[i as int].0 == key@,
            decreases ps@.len() - i,
        {
            if same_text(ps[i].0.as_str(), key) {
                assert(cur[i as int].0 == key@);
                break;
            }
            i = i + 1;
        }
        let a = over[k].0.clone();
        let b = over[k].1.clone();
        assert(a@ == om[k as int].0 && b@ == om[k as int].1);
        let p = (a, b);
        if i < ps.len() {
            assert(key_pos(cur, key@) == Some(i as int));
            ps.set(i, p);
            assert(pairs_model(ps@) =~= cur.update(i as int, om[k as int]));
        } else {
            assert(key_pos(cur, key@) is None);
            ps.push(p);
            assert(pairs_model(ps@) =~= cur.push(om[k as int]));
        }
        k = k + 1;
    }
    assert(om.take(k as int) =~= om);
}

/// The classes a module sees: the shared classes with the module's own merged
/// over them, property by property; the module's keys win.
pub fn merge_class_maps(shared: &ClassMap, module: &ClassMap) -> (r: ClassMap)
    ensures
        classes_model(r@) == merge_classes(classes_model(shared@), classes_model(module@)),
{
    let mut out: ClassMap = Vec::new();
    let mut k: usize = 0;
    while k < shared.len()
        invariant
            k <= shared@.len(),
            classes_model(out@) == classes_model(shared@).take(k as int),
        decreases shared@.len() - k,
    {
        let a = shared[k].0.clone();
        assert(a@ == shared@[k as int].0@);
        let ps = copy_pairs(&shared[k].1);
        let ghost before = out@;
        out.push((a, ps));
        assert(out@ == before.push((a, ps)));
        assert(classes_model(out@) =~= classes_model(before).push((a@, pairs_model(ps@))));
        assert(classes_model(out@) =~= classes_model(shared@).take(k + 1));
        k = k + 1;
    }
    assert(classes_model(shared@).take(k as int) =~= classes_model(shared@));
    let ghost sm = classes_model(shared@);
    let ghost mm = classes_model(module@);
    let mut j: usize = 0;
    assert(mm.take(0) =~= seq![]);
    while j < module.len()
        invariant
            sm == classes_model(shared@),
            mm == classes_model(module@),
            j <= mm.len(),
            classes_model(out@) == merge_classes(sm, mm.take(j as int)),
        decreases mm.len() - j,
    {
        assert(mm.take(j + 1).drop_last() =~= mm.take(j as int));
        assert(mm.take(j + 1).last() == mm[j as int]);
        let ghost cur = classes_model(out@);
        proof {
            lemma_key_pos(cur, mm[j as int].0);
        }
        let name = module[j].0.as_str();
        let mut i: usize = 0;
        while i < out.len()
            invariant
                cur == classes_model(out@),
                i <= out@.len(),
                j < mm.len(),
                mm == classes_model(module@),
                name@ == mm[j as int].0,
                forall|t: int| 0 <= t < i ==> cur[t].0 != name@,
            ensures
                i < out@.len() ==> cur[i as int].0 == name@,
            decreases out@.len() - i,
        {
            if same_text(out[i].0.as_str(), name) {
                assert(cur[i as int].0 == name@);
                break;
            }
            i = i + 1;
        }
        if i < out.len() {
            assert(key_pos(cur, name@) == Some(i as int));
            let mut props = copy_pairs(&out[i].1);
            merge_props_into(&mut props, &module[j].1);
            let a = module[j].0.clone();
            assert(a@ == mm[j as int].0);
            out.set(i, (a, props));
            assert(classes_model(out@) =~= cur.update(
                i as int,
                (mm[j as int].0, merge_props(cur[i as int].1, mm[j as int].1)),
            ));
        } else {
            assert(key_pos(cur, name@) is None);
            let a = module[j].0.clone();
            assert(a@ == mm[j as int].0);
            out.push((a, copy_pairs(&module[j].1)));
            assert(classes_model(out@) =~= cur.push(mm[j as int]));
        }
        j = j + 1;
    }
    assert(mm.take(j as int) =~= mm);
    out
}

} // verus!
