//! Minimal span markup for module output: `<span class='a b'>text</span>`,
//! nestable, with `&lt; &gt; &amp; &quot; &apos;` entities. Only modules that
//! opt in to HTML output pass through [`parse`]; plain-text modules use
//! [`plain`] and are never parsed.

use vstd::prelude::*;
use crate::text::{
    chars_of, find_char, find_from, lemma_find_from, line_bounds, lines_from, string_from_chars,
    strip_cr, text_lines, trim, trim_start, words, trim_vec, trim_start_vec, words_vec, sub_vec,
    push_char, strings_model, starts_with_at,
};

verus! {

/// One styled piece of a line: its text and the class names that apply to it,
/// outermost first.
#[derive(Debug, Clone, PartialEq, Eq)]
pub struct Segment {
    pub text: String,
    pub classes: Vec<String>,
}

/// What a [`Segment`] holds, as characters.
#[verifier::ext_equal]
pub struct SegModel {
    pub text: Seq<char>,
    pub classes: Seq<Seq<char>>,
}

impl View for Segment {
    type V = SegModel;

    open spec fn view(&self) -> SegModel {
        SegModel { text: self.text@, classes: strings_model(self.classes@) }
    }
}

/// A displayed line is a sequence of segments. An empty vec is a blank line.
pub type Line = Vec<Segment>;

/// The model of a line.
pub open spec fn line_model(v: Seq<Segment>) -> Seq<SegModel> {
    v.map_values(|x: Segment| x@)
}

/// The model of a sequence of lines.
pub open spec fn lines_model(v: Seq<Vec<Segment>>) -> Seq<Seq<SegModel>> {
    v.map_values(|l: Vec<Segment>| line_model(l@))
}

/// A line of plain text: empty when blank, else one classless segment.
pub open spec fn plain_line(l: Seq<char>) -> Seq<SegModel> {
    if l.len() == 0 {
        seq![]
    } else {
        seq![SegModel { text: l, classes: seq![] }]
    }
}

/// Plain text as display lines: one classless segment per line of `s`.
pub open spec fn plain_model(s: Seq<char>) -> Seq<Seq<SegModel>> {
    text_lines(s).map_values(|l: Seq<char>| plain_line(l))
}

/// The display line for the characters `v[a..b]` taken as plain text.
fn plain_segments(v: &Vec<char>, a: usize, b: usize) -> (line: Line)
    requires
        a <= b <= v@.len(),
    ensures
        line_model(line@) == plain_line(v@.subrange(a as int, b as int)),
{
    let mut line: Line = Vec::new();
    if a < b {
        let text = string_from_chars(v, a, b);
        line.push(Segment { text, classes: Vec::new() });
        assert(strings_model(line@[0].classes@) =~= seq![]);
    }
    assert(line_model(line@) =~= plain_line(v@.subrange(a as int, b as int)));
    line
}

/// Plain text: one classless segment per line, blank lines stay empty.
pub fn plain(text: &str) -> (lines: Vec<Line>)
    ensures
        lines_model(lines@) == plain_model(text@),
{
    let v = chars_of(text);
    let ghost s = v@;
    let mut lines: Vec<Line> = Vec::new();
    let mut i: usize = 0;
    while i < v.len()
        invariant
            s == v@,
            i <= s.len(),
            lines_model(lines@) + lines_from(s, i as int).map_values(|l: Seq<char>| plain_line(l))
                == plain_model(s),
        decreases s.len() - i,
    {
        let (j, e) = line_bounds(&v, i);
        let line = plain_segments(&v, i, e);
        let ghost before = lines_model(lines@);
        lines.push(line);
        proof {
            assert(lines_model(lines@) =~= before.push(line_model(line@)));
            if j >= s.len() {
                assert(lines_from(s, i as int) =~= seq![s.subrange(i as int, s.len() as int)]);
                assert(lines_from(s, (j + 1) as int) =~= seq![]);
                assert(lines_model(lines@) + lines_from(s, (j + 1) as int).map_values(
                    |l: Seq<char>| plain_line(l),
                ) =~= before + lines_from(s, i as int).map_values(|l: Seq<char>| plain_line(l)));
            } else {
                let rest = lines_from(s, (j + 1) as int);
                assert(lines_from(s, i as int) =~= seq![strip_cr(s.subrange(i as int, j as int))]
                    + rest);
                assert(lines_model(lines@) + rest.map_values(|l: Seq<char>| plain_line(l))
                    =~= before + lines_from(s, i as int).map_values(|l: Seq<char>| plain_line(l)));
            }
        }
        i = if j < v.len() {
            j + 1
        } else {
            j
        };
    }
    proof {
        assert(lines_from(s, i as int) =~= seq![]);
        assert(lines_model(lines@) =~= lines_model(lines@) + lines_from(s, i as int).map_values(
            |l: Seq<char>| plain_line(l),
        ));
    }
    lines
}

/// The state of the markup reader: finished lines, the current line, the text
/// run not yet turned into a segment, and the class frames of the open spans,
/// outermost first.
#[verifier::ext_equal]
pub struct ParseState {
    pub lines: Seq<Seq<SegModel>>,
    pub line: Seq<SegModel>,
    pub buf: Seq<char>,
    pub stack: Seq<Seq<Seq<char>>>,
}

/// The state before any input.
pub open spec fn start_state() -> ParseState {
    ParseState { lines: seq![], line: seq![], buf: seq![], stack: seq![] }
}

/// `line` with the text run `buf` appended as a segment carrying every open
/// span's classes (nothing is appended for an empty run).
pub open spec fn flush_line(line: Seq<SegModel>, buf: Seq<char>, stack: Seq<Seq<Seq<char>>>) -> Seq<
    SegModel,
> {
    if buf.len() == 0 {
        line
    } else {
        line.push(SegModel { text: buf, classes: stack.flatten() })
    }
}

/// The state once the pending text run has become a segment.
pub open spec fn flush_state(st: ParseState) -> ParseState {
    ParseState { line: flush_line(st.line, st.buf, st.stack), buf: seq![], ..st }
}

/// How many bytes `c` takes in UTF-8.
pub open spec fn utf8_width(c: char) -> int {
    if (c as u32) < 0x80 {
        1
    } else if (c as u32) < 0x800 {
        2
    } else if (c as u32) < 0x10000 {
        3
    } else {
        4
    }
}

/// The character an entity name stands for.
pub open spec fn entity_char(name: Seq<char>) -> Option<char> {
    if name == seq!['l', 't'] {
        Some('<')
    } else if name == seq!['g', 't'] {
        Some('>')
    } else if name == seq!['a', 'm', 'p'] {
        Some('&')
    } else if name == seq!['q', 'u', 'o', 't'] {
        Some('"')
    } else if name == seq!['a', 'p', 'o', 's'] {
        Some('\'')
    } else {
        None
    }
}

/// The error for an `&` with no `;` before the end of the text.
pub open spec fn bare_end_error() -> Seq<char> {
    "bare '&' at end of text (use &amp;)"@
}

/// The error for an `&` whose name runs past four bytes.
pub open spec fn bare_error() -> Seq<char> {
    "bare '&' (use &amp;)"@
}

/// Reading an entity whose name starts at `i` (just after its `&`), with the
/// name read so far being `s[i..j]` of `nbytes` bytes: the name takes
/// characters while it is shorter than four bytes and ends at `;`. Gives the
/// character the entity stands for and the position after its `;`, or the
/// error.
pub open spec fn entity_scan(s: Seq<char>, i: int, j: int, nbytes: int) -> Result<(char, int), Seq<char>>
    decreases s.len() - j,
{
    if j < 0 || j >= s.len() {
        Err(bare_end_error())
    } else if s[j] == ';' {
        match entity_char(s.subrange(i, j)) {
            Some(c) => Ok((c, j + 1)),
            None => Err("unknown entity '&"@ + s.subrange(i, j) + ";'"@),
        }
    } else if nbytes < 4 {
        entity_scan(s, i, j + 1, nbytes + utf8_width(s[j]))
    } else {
        Err(bare_error())
    }
}

/// The entity whose name starts at `i` (just after its `&`).
pub open spec fn entity_at(s: Seq<char>, i: int) -> Result<(char, int), Seq<char>> {
    entity_scan(s, i, i, 0)
}

/// What a tag does to the span stack.
pub enum TagKind {
    /// `</span>`: closes the innermost span.
    Close,
    /// `<span>` or `<span class='..'>`: opens a span with these classes.
    Open(Seq<Seq<char>>),
}

pub open spec fn close_word() -> Seq<char> {
    seq!['/', 's', 'p', 'a', 'n']
}

pub open spec fn span_word() -> Seq<char> {
    seq!['s', 'p', 'a', 'n']
}

pub open spec fn span_space() -> Seq<char> {
    seq!['s', 'p', 'a', 'n', ' ']
}

pub open spec fn class_word() -> Seq<char> {
    seq!['c', 'l', 'a', 's', 's']
}

/// The text between a quote pair around `value`, either quote.
pub open spec fn quoted_inner(value: Seq<char>) -> Option<Seq<char>> {
    if value.len() >= 2 && ((value[0] == '\'' && value.last() == '\'') || (value[0] == '"'
        && value.last() == '"')) {
        Some(value.subrange(1, value.len() - 1))
    } else {
        None
    }
}

/// The error for a `<span ...>` whose attributes are not a class list.
pub open spec fn class_attribute_error(r: Seq<char>) -> Seq<char> {
    "expected class attribute in <span "@ + r + ">"@
}

/// The error for a class list without quotes.
pub open spec fn unquoted_error(r: Seq<char>) -> Seq<char> {
    "class value must be quoted in <span "@ + r + ">"@
}

/// The classes named by the attribute part of `<span ...>`: nothing, or only
/// `class='a b'` (either quote, spaces allowed around `=`); else the error.
pub open spec fn span_classes(rest: Seq<char>) -> Result<Seq<Seq<char>>, Seq<char>> {
    let r = trim(rest);
    if r.len() == 0 {
        Ok(seq![])
    } else if r.len() >= 5 && r.take(5) == class_word() {
        let a = trim_start(r.skip(5));
        if a.len() >= 1 && a[0] == '=' {
            match quoted_inner(trim_start(a.skip(1))) {
                Some(inner) => Ok(words(inner)),
                None => Err(unquoted_error(r)),
            }
        } else {
            Err(class_attribute_error(r))
        }
    } else {
        Err(class_attribute_error(r))
    }
}

/// What the tag with inner text `tag` does; the error for a tag that is not
/// accepted.
pub open spec fn tag_kind(tag: Seq<char>) -> Result<TagKind, Seq<char>> {
    if trim(tag) == close_word() {
        Ok(TagKind::Close)
    } else if tag == span_word() {
        Ok(TagKind::Open(seq![]))
    } else if tag.len() >= 5 && tag.take(5) == span_space() {
        match span_classes(tag.skip(5)) {
            Ok(c) => Ok(TagKind::Open(c)),
            Err(e) => Err(e),
        }
    } else {
        Err("unknown tag <"@ + tag + ">"@)
    }
}

proof fn lemma_entity_scan(s: Seq<char>, i: int, j: int, nbytes: int)
    requires
        0 <= j,
    ensures
        entity_scan(s, i, j, nbytes) matches Ok((c, n)) ==> j < n <= s.len(),
    decreases s.len() - j,
{
    if 0 <= j < s.len() && s[j] != ';' && nbytes < 4 {
        lemma_entity_scan(s, i, j + 1, nbytes + utf8_width(s[j]));
    }
}

/// An entity read from `i` on ends after `i`, within the text.
pub proof fn lemma_entity_at(s: Seq<char>, i: int)
    requires
        0 <= i,
    ensures
        entity_at(s, i) matches Ok((c, n)) ==> i < n <= s.len(),
{
    lemma_entity_scan(s, i, i, 0);
}

/// The error for a `<` with no `>` after it.
pub open spec fn unterminated_tag_error() -> Seq<char> {
    "'<' without a closing '>'"@
}

/// The error for a `</span>` with no span open.
pub open spec fn stray_close_error() -> Seq<char> {
    "</span> without matching <span>"@
}

/// The reader run over `s` from position `i` in state `st`: the final state,
/// or why the markup is rejected.
pub open spec fn run(s: Seq<char>, i: int, st: ParseState) -> Result<ParseState, Seq<char>>
    decreases s.len() - i,
{
    if i < 0 || i >= s.len() {
        Ok(st)
    } else if s[i] == '\n' {
        let f = flush_state(st);
        run(s, i + 1, ParseState { lines: f.lines.push(f.line), line: seq![], ..f })
    } else if s[i] == '&' {
        proof {
            lemma_entity_at(s, i + 1);
        }
        match entity_at(s, i + 1) {
            Ok((c, n)) => run(s, n, ParseState { buf: st.buf.push(c), ..st }),
            Err(e) => Err(e),
        }
    } else if s[i] == '<' {
        let j = find_from(s, i + 1, '>');
        proof {
            lemma_find_from(s, i + 1, '>');
        }
        if j >= s.len() {
            Err(unterminated_tag_error())
        } else {
            let f = flush_state(st);
            match tag_kind(s.subrange(i + 1, j)) {
                Ok(TagKind::Close) => if f.stack.len() == 0 {
                    Err(stray_close_error())
                } else {
                    run(s, j + 1, ParseState { stack: f.stack.drop_last(), ..f })
                },
                Ok(TagKind::Open(c)) => run(s, j + 1, ParseState { stack: f.stack.push(c), ..f }),
                Err(e) => Err(e),
            }
        }
    } else {
        run(s, i + 1, ParseState { buf: st.buf.push(s[i]), ..st })
    }
}

/// The lines of a finished run, and whether spans were left open.
pub open spec fn finish(st: ParseState) -> (Seq<Seq<SegModel>>, bool) {
    let f = flush_state(st);
    (if f.line.len() > 0 {
        f.lines.push(f.line)
    } else {
        f.lines
    }, f.stack.len() > 0)
}

/// What the markup in `s` displays as: its lines, and whether a span was
/// left unclosed; or why it is rejected.
pub open spec fn markup(s: Seq<char>) -> Result<(Seq<Seq<SegModel>>, bool), Seq<char>> {
    match run(s, 0, start_state()) {
        Ok(st) => Ok(finish(st)),
        Err(e) => Err(e),
    }
}

/// The warning given for spans left open at the end of the output.
pub open spec fn unclosed_warning() -> Seq<char> {
    "unclosed <span> auto-closed at end of output"@
}

/// The class frames of a span stack.
pub open spec fn stack_model(v: Seq<Vec<String>>) -> Seq<Seq<Seq<char>>> {
    v.map_values(|f: Vec<String>| strings_model(f@))
}

/// The reader state held by the parser's variables.
pub open spec fn state_of(
    lines: Seq<Vec<Segment>>,
    line: Seq<Segment>,
    buf: Seq<char>,
    stack: Seq<Vec<String>>,
) -> ParseState {
    ParseState {
        lines: lines_model(lines),
        line: line_model(line),
        buf: buf,
        stack: stack_model(stack),
    }
}

/// A string holding `pre`, then `v[a..b]`, then `post`.
fn message(pre: &str, v: &Vec<char>, a: usize, b: usize, post: &str) -> (m: String)
    requires
        a <= b <= v@.len(),
    ensures
        m@ == pre@ + v@.subrange(a as int, b as int) + post@,
{
    let mut m = String::from_str(pre);
    let mut k = a;
    while k < b
        invariant
            a <= k <= b <= v@.len(),
            m@ == pre@ + v@.subrange(a as int, k as int),
        decreases b - k,
    {
        push_char(&mut m, v[k]);
        k = k + 1;
        assert(m@ =~= pre@ + v@.subrange(a as int, k as int));
    }
    m.append(post);
    m
}

/// How many bytes `c` takes in UTF-8.
fn utf8_len(c: char) -> (n: usize)
    ensures
        n == utf8_width(c),
{
    let u = c as u32;
    if u < 0x80 {
        1
    } else if u < 0x800 {
        2
    } else if u < 0x10000 {
        3
    } else {
        4
    }
}

proof fn lemma_spelled2(n: Seq<char>, a: char, b: char)
    ensures
        n == seq![a, b] <==> (n.len() == 2 && n[0] == a && n[1] == b),
{
    if n.len() == 2 && n[0] == a && n[1] == b {
        assert(n =~= seq![a, b]);
    }
}

proof fn lemma_spelled3(n: Seq<char>, a: char, b: char, c: char)
    ensures
        n == seq![a, b, c] <==> (n.len() == 3 && n[0] == a && n[1] == b && n[2] == c),
{
    if n.len() == 3 && n[0] == a && n[1] == b && n[2] == c {
        assert(n =~= seq![a, b, c]);
    }
}

proof fn lemma_spelled4(n: Seq<char>, a: char, b: char, c: char, d: char)
    ensures
        n == seq![a, b, c, d] <==> (n.len() == 4 && n[0] == a && n[1] == b && n[2] == c && n[3]
            == d),
{
    if n.len() == 4 && n[0] == a && n[1] == b && n[2] == c && n[3] == d {
        assert(n =~= seq![a, b, c, d]);
    }
}

/// The character an entity name held in `v[i..j]` stands for.
fn entity_name_char(v: &Vec<char>, i: usize, j: usize) -> (r: Option<char>)
    requires
        i <= j <= v@.len(),
    ensures
        r == entity_char(v@.subrange(i as int, j as int)),
{
    let ghost name = v@.subrange(i as int, j as int);
    let k = j - i;
    proof {
        lemma_spelled2(name, 'l', 't');
        lemma_spelled2(name, 'g', 't');
        lemma_spelled3(name, 'a', 'm', 'p');
        lemma_spelled4(name, 'q', 'u', 'o', 't');
        lemma_spelled4(name, 'a', 'p', 'o', 's');
        if k >= 1 {
            assert(name[0] == v@[i as int]);
        }
        if k >= 2 {
            assert(name[1] == v@[i + 1]);
        }
        if k >= 3 {
            assert(name[2] == v@[i + 2]);
        }
        if k >= 4 {
            assert(name[3] == v@[i + 3]);
        }
    }
    if k == 2 && v[i] == 'l' && v[i + 1] == 't' {
        Some('<')
    } else if k == 2 && v[i] == 'g' && v[i + 1] == 't' {
        Some('>')
    } else if k == 3 && v[i] == 'a' && v[i + 1] == 'm' && v[i + 2] == 'p' {
        Some('&')
    } else if k == 4 && v[i] == 'q' && v[i + 1] == 'u' && v[i + 2] == 'o' && v[i + 3] == 't' {
        Some('"')
    } else if k == 4 && v[i] == 'a' && v[i + 1] == 'p' && v[i + 2] == 'o' && v[i + 3] == 's' {
        Some('\'')
    } else {
        None
    }
}

/// Decodes the entity whose name starts at `i` (just after its `&`), giving
/// the character and the position after its `;`.
fn entity(v: &Vec<char>, i: usize) -> (r: Result<(char, usize), String>)
    requires
        i <= v@.len(),
    ensures
        match r {
            Ok((c, n)) => entity_at(v@, i as int) == Ok::<(char, int), Seq<char>>((c, n as int)),
            Err(e) => entity_at(v@, i as int) == Err::<(char, int), Seq<char>>(e@),
        },
{
    let ghost s = v@;
    let len = v.len();
    let mut j = i;
    let mut nbytes: usize = 0;
    while j < len
        invariant
            s == v@,
            len == s.len(),
            i <= j <= s.len(),
            nbytes <= 7,
            entity_scan(s, i as int, j as int, nbytes as int) == entity_at(s, i as int),
        decreases s.len() - j,
    {
        let c = v[j];
        if c == ';' {
            return match entity_name_char(v, i, j) {
                Some(ch) => Ok((ch, j + 1)),
                None => Err(message("unknown entity '&", v, i, j, ";'")),
            };
        }
        if nbytes >= 4 {
            return Err(String::from_str("bare '&' (use &amp;)"));
        }
        nbytes = nbytes + utf8_len(c);
        j = j + 1;
    }
    Err(String::from_str("bare '&' at end of text (use &amp;)"))
}

/// The classes named by the attribute part `rest` of a `<span ...>` tag.
fn read_classes(rest: &Vec<char>) -> (r: Result<Vec<String>, String>)
    ensures
        match r {
            Ok(c) => span_classes(rest@) == Ok::<Seq<Seq<char>>, Seq<char>>(strings_model(c@)),
            Err(e) => span_classes(rest@) == Err::<Seq<Seq<char>>, Seq<char>>(e@),
        },
{
    let r = trim_vec(rest);
    if r.len() == 0 {
        let none: Vec<String> = Vec::new();
        assert(strings_model(none@) =~= seq![]);
        return Ok(none);
    }
    let class_ok = starts_with_at(&r, 0, &['c', 'l', 'a', 's', 's']);
    assert(r@.subrange(0, 5) =~= r@.take(5));
    assert(r@.subrange(0, r@.len() as int) =~= r@);
    if !class_ok {
        return Err(message("expected class attribute in <span ", &r, 0, r.len(), ">"));
    }
    let after = sub_vec(&r, 5, r.len());
    assert(after@ =~= r@.skip(5));
    let a = trim_start_vec(&after);
    if a.len() == 0 || a[0] != '=' {
        return Err(message("expected class attribute in <span ", &r, 0, r.len(), ">"));
    }
    let after_eq = sub_vec(&a, 1, a.len());
    assert(after_eq@ =~= a@.skip(1));
    let value = trim_start_vec(&after_eq);
    let n = value.len();
    if n < 2 || !((value[0] == '\'' && value[n - 1] == '\'') || (value[0] == '"' && value[n - 1]
        == '"')) {
        return Err(message("class value must be quoted in <span ", &r, 0, r.len(), ">"));
    }
    let inner = sub_vec(&value, 1, n - 1);
    Ok(words_vec(&inner))
}

/// A tag the reader accepts, as the parser holds it.
enum Tag {
    Close,
    Open(Vec<String>),
}

/// What the tag with inner text `tag` does.
fn classify(tag: &Vec<char>) -> (r: Result<Tag, String>)
    ensures
        match r {
            Ok(Tag::Close) => tag_kind(tag@) == Ok::<TagKind, Seq<char>>(TagKind::Close),
            Ok(Tag::Open(c)) => tag_kind(tag@) == Ok::<TagKind, Seq<char>>(
                TagKind::Open(strings_model(c@)),
            ),
            Err(e) => tag_kind(tag@) == Err::<TagKind, Seq<char>>(e@),
        },
{
    let t = trim_vec(tag);
    if t.len() == 5 && starts_with_at(&t, 0, &['/', 's', 'p', 'a', 'n']) {
        assert(t@ =~= t@.subrange(0, 5));
        return Ok(Tag::Close);
    }
    let n = tag.len();
    let span = starts_with_at(tag, 0, &['s', 'p', 'a', 'n']);
    let span_sp = starts_with_at(tag, 0, &['s', 'p', 'a', 'n', ' ']);
    assert(t@.len() == 5 ==> t@ =~= t@.subrange(0, 5));
    assert(tag@.len() == 4 ==> tag@ =~= tag@.subrange(0, 4));
    assert(tag@.len() >= 5 ==> tag@.take(5) =~= tag@.subrange(0, 5));
    if n == 4 && span {
        let none: Vec<String> = Vec::new();
        assert(strings_model(none@) =~= seq![]);
        return Ok(Tag::Open(none));
    }
    if span_sp {
        let rest = sub_vec(tag, 5, n);
        assert(rest@ =~= tag@.skip(5));
        return match read_classes(&rest) {
            Ok(c) => Ok(Tag::Open(c)),
            Err(e) => Err(e),
        };
    }
    assert(tag@.subrange(0, n as int) =~= tag@);
    Err(message("unknown tag <", tag, 0, n, ">"))
}

/// Every class of the open spans, outermost first.
fn flat_classes(stack: &Vec<Vec<String>>) -> (r: Vec<String>)
    ensures
        strings_model(r@) == stack_model(stack@).flatten(),
{
    let ghost m = stack_model(stack@);
    let mut r: Vec<String> = Vec::new();
    let mut k: usize = 0;
    assert(m.take(0) =~= seq![]);
    while k < stack.len()
        invariant
            m == stack_model(stack@),
            k <= stack@.len(),
            strings_model(r@) == m.take(k as int).flatten(),
        decreases stack@.len() - k,
    {
        let f = &stack[k];
        let ghost base = strings_model(r@);
        let mut x: usize = 0;
        while x < f.len()
            invariant
                f == stack@[k as int],
                x <= f@.len(),
                strings_model(r@) == base + strings_model(f@).take(x as int),
            decreases f@.len() - x,
        {
            let ghost r0 = r@;
            let item = f[x].clone();
            r.push(item);
            proof {
                assert(strings_model(r@) =~= strings_model(r0).push(f@[x as int]@));
                assert(strings_model(f@).take(x + 1) =~= strings_model(f@).take(x as int).push(
                    f@[x as int]@,
                ));
            }
            x = x + 1;
            assert(strings_model(r@) =~= base + strings_model(f@).take(x as int));
        }
        proof {
            assert(strings_model(f@).take(x as int) =~= strings_model(f@));
            assert(m.take(k + 1) =~= m.take(k as int).push(m[k as int]));
            m.take(k as int).lemma_flatten_push(m[k as int]);
        }
        k = k + 1;
    }
    assert(m.take(k as int) =~= m);
    r
}

/// Ends the text run in `buf` as a segment carrying the open spans' classes.
fn flush(buf: &mut Vec<char>, line: &mut Line, stack: &Vec<Vec<String>>)
    ensures
        final(buf)@ == Seq::<char>::empty(),
        line_model(final(line)@) == flush_line(line_model(old(line)@), old(buf)@, stack_model(
            stack@,
        )),
{
    if buf.len() == 0 {
        assert(buf@ =~= Seq::<char>::empty());
        return;
    }
    let classes = flat_classes(stack);
    let text = string_from_chars(buf, 0, buf.len());
    assert(buf@.subrange(0, buf@.len() as int) =~= buf@);
    let ghost before = line_model(line@);
    line.push(Segment { text, classes });
    buf.clear();
    assert(line_model(line@) =~= before.push(
        SegModel { text: old(buf)@, classes: stack_model(stack@).flatten() },
    ));
}

/// Parse markup into lines of segments. `Ok` carries the lines plus warnings
/// (an unclosed span is auto-closed and warned about, not fatal). Hard errors
/// (unknown tag, bad attribute, stray `</span>`, bad entity) return `Err`, and
/// the caller falls back to showing the raw text via [`plain`].
pub fn parse(text: &str) -> (r: Result<(Vec<Line>, Vec<String>), String>)
    ensures
        match r {
            Ok((lines, warnings)) => {
                &&& markup(text@) == Ok::<(Seq<Seq<SegModel>>, bool), Seq<char>>(
                    (lines_model(lines@), warnings@.len() > 0),
                )
                &&& strings_model(warnings@) == if warnings@.len() > 0 {
                    seq![unclosed_warning()]
                } else {
                    seq![]
                }
            },
            Err(e) => markup(text@) == Err::<(Seq<Seq<SegModel>>, bool), Seq<char>>(e@),
        },
{
    let v = chars_of(text);
    let ghost s = v@;
    let mut lines: Vec<Line> = Vec::new();
    let mut line: Line = Vec::new();
    let mut buf: Vec<char> = Vec::new();
    let mut stack: Vec<Vec<String>> = Vec::new();
    let mut i: usize = 0;
    proof {
        assert(lines_model(lines@) =~= seq![]);
        assert(line_model(line@) =~= seq![]);
        assert(stack_model(stack@) =~= seq![]);
        assert(state_of(lines@, line@, buf@, stack@) =~= start_state());
    }
    while i < v.len()
        invariant
            s == v@,
            s == text@,
            i <= s.len(),
            run(s, i as int, state_of(lines@, line@, buf@, stack@)) == run(s, 0, start_state()),
        decreases s.len() - i,
    {
        let ghost st = state_of(lines@, line@, buf@, stack@);
        let c = v[i];
        if c == '\n' {
            flush(&mut buf, &mut line, &stack);
            let ghost f = flush_state(st);
            lines.push(line);
            line = Vec::new();
            proof {
                assert(lines_model(lines@) =~= f.lines.push(f.line));
                assert(line_model(line@) =~= seq![]);
                assert(state_of(lines@, line@, buf@, stack@) =~= ParseState {
                    lines: f.lines.push(f.line),
                    line: seq![],
                    ..f
                });
            }
            i = i + 1;
        } else if c == '&' {
            proof {
                lemma_entity_at(s, i + 1);
            }
            match entity(&v, i + 1) {
                Ok((ch, n)) => {
                    buf.push(ch);
                    assert(state_of(lines@, line@, buf@, stack@) =~= ParseState {
                        buf: st.buf.push(ch),
                        ..st
                    });
                    i = n;
                },
                Err(e) => {
                    return Err(e);
                },
            }
        } else if c == '<' {
            let j = find_char(&v, i + 1, '>');
            proof {
                lemma_find_from(s, i + 1, '>');
            }
            if j == v.len() {
                return Err(String::from_str("'<' without a closing '>'"));
            }
            let tag = sub_vec(&v, i + 1, j);
            match classify(&tag) {
                Ok(Tag::Close) => {
                    flush(&mut buf, &mut line, &stack);
                    if stack.len() == 0 {
                        return Err(String::from_str("</span> without matching <span>"));
                    }
                    let ghost f = flush_state(st);
                    stack.pop();
                    assert(state_of(lines@, line@, buf@, stack@) =~= ParseState {
                        stack: f.stack.drop_last(),
                        ..f
                    });
                },
                Ok(Tag::Open(classes)) => {
                    flush(&mut buf, &mut line, &stack);
                    let ghost f = flush_state(st);
                    let ghost cm = strings_model(classes@);
                    stack.push(classes);
                    assert(state_of(lines@, line@, buf@, stack@) =~= ParseState {
                        stack: f.stack.push(cm),
                        ..f
                    });
                },
                Err(e) => {
                    return Err(e);
                },
            }
            i = j + 1;
        } else {
            buf.push(c);
            assert(state_of(lines@, line@, buf@, stack@) =~= ParseState {
                buf: st.buf.push(c),
                ..st
            });
            i = i + 1;
        }
    }
    let ghost last = state_of(lines@, line@, buf@, stack@);
    flush(&mut buf, &mut line, &stack);
    let mut warnings: Vec<String> = Vec::new();
    if stack.len() > 0 {
        warnings.push(String::from_str("unclosed <span> auto-closed at end of output"));
    }
    let ghost f = flush_state(last);
    if line.len() > 0 {
        lines.push(line);
        assert(lines_model(lines@) =~= f.lines.push(f.line));
    }
    assert(strings_model(warnings@) =~= if warnings@.len() > 0 {
        seq![unclosed_warning()]
    } else {
        seq![]
    });
    Ok((lines, warnings))
}

/// The reader state at the start of a line, with no span open.
pub open spec fn line_start_state(lines: Seq<Seq<SegModel>>) -> ParseState {
    ParseState { lines, line: seq![], buf: seq![], stack: seq![] }
}

/// Whether `s` holds none of `<`, `&` and `\r`.
pub open spec fn markup_free(s: Seq<char>) -> bool {
    forall|k: int| 0 <= k < s.len() ==> s[k] != '<' && s[k] != '&' && s[k] != '\r'
}

proof fn lemma_run_text(s: Seq<char>, i: int, j: int, st: ParseState)
    requires
        0 <= i <= j <= s.len(),
        forall|k: int| i <= k < j ==> s[k] != '<' && s[k] != '&' && s[k] != '\n',
    ensures
        run(s, i, st) == run(s, j, ParseState { buf: st.buf + s.subrange(i, j), ..st }),
    decreases j - i,
{
    if i < j {
        let next = ParseState { buf: st.buf.push(s[i]), ..st };
        lemma_run_text(s, i + 1, j, next);
        assert(next.buf + s.subrange(i + 1, j) =~= st.buf + s.subrange(i, j));
        assert(ParseState { buf: next.buf + s.subrange(i + 1, j), ..next } =~= ParseState {
            buf: st.buf + s.subrange(i, j),
            ..st
        });
    } else {
        assert(ParseState { buf: st.buf + s.subrange(i, j), ..st } =~= st);
    }
}

proof fn lemma_run_lines(s: Seq<char>, i: int, lines: Seq<Seq<SegModel>>)
    requires
        0 <= i <= s.len(),
        markup_free(s),
    ensures
        match run(s, i, line_start_state(lines)) {
            Ok(st) => finish(st) == (lines + lines_from(s, i).map_values(
                |l: Seq<char>| plain_line(l),
            ), false),
            Err(_) => false,
        },
    decreases s.len() - i,
{
    let st0 = line_start_state(lines);
    assert(Seq::<Seq<Seq<char>>>::empty().flatten() =~= Seq::<Seq<char>>::empty());
    if i == s.len() {
        assert(lines_from(s, i) =~= seq![]);
        assert(lines + lines_from(s, i).map_values(|l: Seq<char>| plain_line(l)) =~= lines);
    } else {
        let j = find_from(s, i, '\n');
        lemma_find_from(s, i, '\n');
        lemma_run_text(s, i, j, st0);
        let x = s.subrange(i, j);
        let st1 = ParseState { buf: st0.buf + x, ..st0 };
        assert(st0.buf + x =~= x);
        if j == s.len() {
            assert(lines_from(s, i) =~= seq![x]);
            assert(plain_line(x) =~= seq![SegModel { text: x, classes: seq![] }]);
            assert(lines + lines_from(s, i).map_values(|l: Seq<char>| plain_line(l)) =~= lines.push(
                plain_line(x),
            ));
        } else {
            let f = flush_state(st1);
            let next = ParseState { lines: f.lines.push(f.line), line: seq![], ..f };
            assert(f.line =~= plain_line(x));
            if x.len() > 0 {
                assert(x.last() == s[j - 1]);
            }
            assert(strip_cr(x) =~= x);
            assert(next =~= line_start_state(lines.push(plain_line(x))));
            lemma_run_lines(s, j + 1, lines.push(plain_line(x)));
            assert(lines_from(s, i) =~= seq![x] + lines_from(s, j + 1));
            assert(lines + lines_from(s, i).map_values(|l: Seq<char>| plain_line(l)) =~= lines.push(
                plain_line(x),
            ) + lines_from(s, j + 1).map_values(|l: Seq<char>| plain_line(l)));
        }
    }
}

/// Text with no `<`, `&` or `\r` reads as markup exactly as it reads as plain
/// text, with no warning: blank lines stay empty and a trailing newline adds
/// no line.
pub proof fn lemma_markup_free_parses_as_plain(s: Seq<char>)
    requires
        markup_free(s),
    ensures
        markup(s) == Ok::<(Seq<Seq<SegModel>>, bool), Seq<char>>((plain_model(s), false)),
{
    lemma_run_lines(s, 0, seq![]);
    assert(line_start_state(seq![]) =~= start_state());
    assert(Seq::<Seq<SegModel>>::empty() + lines_from(s, 0).map_values(
        |l: Seq<char>| plain_line(l),
    ) =~= plain_model(s));
}


/// A segment with text, and no line break in it.
pub open spec fn good_segment(g: SegModel) -> bool {
    g.text.len() > 0 && forall|k: int| 0 <= k < g.text.len() ==> g.text[k] != '\n'
}

/// A line of good segments.
pub open spec fn good_line(l: Seq<SegModel>) -> bool {
    forall|k: int| 0 <= k < l.len() ==> good_segment(#[trigger] l[k])
}

/// A reader state whose lines and pending text hold no line break and no
/// empty segment.
pub open spec fn good_state(st: ParseState) -> bool {
    &&& forall|k: int| 0 <= k < st.lines.len() ==> good_line(#[trigger] st.lines[k])
    &&& good_line(st.line)
    &&& forall|k: int| 0 <= k < st.buf.len() ==> st.buf[k] != '\n'
}

proof fn lemma_flush_good(st: ParseState)
    requires
        good_state(st),
    ensures
        good_state(flush_state(st)),
{
    let l = flush_state(st).line;
    assert forall|k: int| 0 <= k < l.len() implies good_segment(#[trigger] l[k]) by {
        if k < st.line.len() {
            assert(l[k] == st.line[k]);
        }
    }
}

proof fn lemma_entity_not_newline(s: Seq<char>, i: int, j: int, nbytes: int)
    ensures
        entity_scan(s, i, j, nbytes) matches Ok((c, n)) ==> c != '\n',
    decreases s.len() - j,
{
    if 0 <= j < s.len() && s[j] != ';' && nbytes < 4 {
        lemma_entity_not_newline(s, i, j + 1, nbytes + utf8_width(s[j]));
    }
}

proof fn lemma_run_good(s: Seq<char>, i: int, st: ParseState)
    requires
        good_state(st),
    ensures
        run(s, i, st) matches Ok(f) ==> good_state(f),
    decreases s.len() - i,
{
    if 0 <= i < s.len() {
        if s[i] == '\n' {
            lemma_flush_good(st);
            let f = flush_state(st);
            let n = ParseState { lines: f.lines.push(f.line), line: seq![], ..f };
            assert forall|k: int| 0 <= k < n.lines.len() implies good_line(#[trigger] n.lines[k]) by {
                if k < f.lines.len() {
                    assert(n.lines[k] == f.lines[k]);
                }
            }
            lemma_run_good(s, i + 1, n);
        } else if s[i] == '&' {
            lemma_entity_at(s, i + 1);
            lemma_entity_not_newline(s, i + 1, i + 1, 0);
            if let Ok((c, n)) = entity_at(s, i + 1) {
                let st2 = ParseState { buf: st.buf.push(c), ..st };
                assert forall|k: int| 0 <= k < st2.buf.len() implies st2.buf[k] != '\n' by {
                    if k < st.buf.len() {
                        assert(st2.buf[k] == st.buf[k]);
                    }
                }
                lemma_run_good(s, n, st2);
            }
        } else if s[i] == '<' {
            let j = find_from(s, i + 1, '>');
            lemma_find_from(s, i + 1, '>');
            if j < s.len() {
                lemma_flush_good(st);
                let f = flush_state(st);
                match tag_kind(s.subrange(i + 1, j)) {
                    Ok(TagKind::Close) => {
                        if f.stack.len() > 0 {
                            lemma_run_good(s, j + 1, ParseState { stack: f.stack.drop_last(), ..f });
                        }
                    },
                    Ok(TagKind::Open(c)) => {
                        lemma_run_good(s, j + 1, ParseState { stack: f.stack.push(c), ..f });
                    },
                    Err(_) => {},
                }
            }
        } else {
            let st2 = ParseState { buf: st.buf.push(s[i]), ..st };
            assert forall|k: int| 0 <= k < st2.buf.len() implies st2.buf[k] != '\n' by {
                if k < st.buf.len() {
                    assert(st2.buf[k] == st.buf[k]);
                }
            }
            lemma_run_good(s, i + 1, st2);
        }
    }
}

/// Every segment the markup reader gives has text, and no line break in it:
/// line breaks only ever separate lines.
pub proof fn lemma_segments_are_whole(s: Seq<char>)
    ensures
        markup(s) matches Ok((lines, _)) ==> forall|k: int|
            0 <= k < lines.len() ==> good_line(#[trigger] lines[k]),
{
    assert(good_state(start_state()));
    lemma_run_good(s, 0, start_state());
    if let Ok(st) = run(s, 0, start_state()) {
        lemma_flush_good(st);
        let f = flush_state(st);
        let ls = finish(st).0;
        assert forall|k: int| 0 <= k < ls.len() implies good_line(#[trigger] ls[k]) by {
            if k < f.lines.len() {
                assert(ls[k] == f.lines[k]);
            }
        }
    }
}


/// The text of a line: its segments' texts, run together.
pub open spec fn line_text(l: Seq<SegModel>) -> Seq<char>
    decreases l.len(),
{
    if l.len() == 0 {
        seq![]
    } else {
        line_text(l.drop_last()) + l.last().text
    }
}

/// The text of lines, each followed by a line break.
pub open spec fn lines_text(ls: Seq<Seq<SegModel>>) -> Seq<char>
    decreases ls.len(),
{
    if ls.len() == 0 {
        seq![]
    } else {
        lines_text(ls.drop_last()) + line_text(ls.last()) + seq!['\n']
    }
}

/// The text of lines joined by line breaks.
pub open spec fn joined(ls: Seq<Seq<SegModel>>) -> Seq<char> {
    if ls.len() == 0 {
        seq![]
    } else {
        lines_text(ls.drop_last()) + line_text(ls.last())
    }
}

/// `t` without one trailing line break.
pub open spec fn strip_newline(t: Seq<char>) -> Seq<char> {
    if t.len() > 0 && t.last() == '\n' {
        t.drop_last()
    } else {
        t
    }
}

/// The text the reader has taken in so far.
pub open spec fn state_text(st: ParseState) -> Seq<char> {
    lines_text(st.lines) + line_text(st.line) + st.buf
}

/// The characters markup from `i` on displays: tags dropped, entities
/// replaced by their characters, everything else (line breaks included) as
/// it is. Meaningful where the markup is accepted.
pub open spec fn decoded(s: Seq<char>, i: int) -> Seq<char>
    decreases s.len() - i,
{
    if i < 0 || i >= s.len() {
        seq![]
    } else if s[i] == '&' {
        proof {
            lemma_entity_at(s, i + 1);
        }
        match entity_at(s, i + 1) {
            Ok((c, n)) => seq![c] + decoded(s, n),
            Err(_) => seq![],
        }
    } else if s[i] == '<' {
        let j = find_from(s, i + 1, '>');
        proof {
            lemma_find_from(s, i + 1, '>');
        }
        if j >= s.len() {
            seq![]
        } else {
            decoded(s, j + 1)
        }
    } else {
        seq![s[i]] + decoded(s, i + 1)
    }
}

proof fn lemma_flush_text(st: ParseState)
    ensures
        state_text(flush_state(st)) == state_text(st),
{
    let f = flush_state(st);
    if st.buf.len() > 0 {
        assert(f.line.drop_last() =~= st.line);
        assert(line_text(f.line) == line_text(st.line) + st.buf);
    }
    assert(state_text(f) =~= state_text(st));
}

proof fn lemma_run_decodes(s: Seq<char>, i: int, st: ParseState)
    ensures
        run(s, i, st) matches Ok(f) ==> state_text(f) == state_text(st) + decoded(s, i),
    decreases s.len() - i,
{
    if 0 <= i < s.len() {
        if s[i] == '\n' {
            lemma_flush_text(st);
            let f = flush_state(st);
            let n = ParseState { lines: f.lines.push(f.line), line: seq![], ..f };
            assert(n.lines.drop_last() =~= f.lines);
            assert(state_text(n) =~= state_text(st) + seq!['\n']);
            lemma_run_decodes(s, i + 1, n);
            assert(state_text(st) + seq!['\n'] + decoded(s, i + 1) =~= state_text(st) + decoded(
                s,
                i,
            ));
        } else if s[i] == '&' {
            lemma_entity_at(s, i + 1);
            if let Ok((c, n)) = entity_at(s, i + 1) {
                let st2 = ParseState { buf: st.buf.push(c), ..st };
                assert(state_text(st2) =~= state_text(st) + seq![c]);
                lemma_run_decodes(s, n, st2);
                assert(state_text(st) + seq![c] + decoded(s, n) =~= state_text(st) + decoded(s, i));
            }
        } else if s[i] == '<' {
            let j = find_from(s, i + 1, '>');
            lemma_find_from(s, i + 1, '>');
            if j < s.len() {
                lemma_flush_text(st);
                let f = flush_state(st);
                match tag_kind(s.subrange(i + 1, j)) {
                    Ok(TagKind::Close) => {
                        if f.stack.len() > 0 {
                            let n = ParseState { stack: f.stack.drop_last(), ..f };
                            assert(state_text(n) == state_text(f));
                            lemma_run_decodes(s, j + 1, n);
                        }
                    },
                    Ok(TagKind::Open(c)) => {
                        let n = ParseState { stack: f.stack.push(c), ..f };
                        assert(state_text(n) == state_text(f));
                        lemma_run_decodes(s, j + 1, n);
                    },
                    Err(_) => {},
                }
            }
        } else {
            let st2 = ParseState { buf: st.buf.push(s[i]), ..st };
            assert(state_text(st2) =~= state_text(st) + seq![s[i]]);
            lemma_run_decodes(s, i + 1, st2);
            assert(state_text(st) + seq![s[i]] + decoded(s, i + 1) =~= state_text(st) + decoded(
                s,
                i,
            ));
        }
    } else {
        assert(state_text(st) + decoded(s, i) =~= state_text(st));
    }
}

proof fn lemma_line_text_end(l: Seq<SegModel>)
    requires
        l.len() > 0,
        good_line(l),
    ensures
        line_text(l).len() > 0 && line_text(l).last() != '\n',
{
    assert(good_segment(l[l.len() - 1]));
    let t = l.last().text;
    assert(line_text(l).last() == t[t.len() - 1]);
}

/// What accepted markup displays is its text with the tags dropped and the
/// entities decoded: the lines, joined by line breaks, give exactly that
/// text (less one trailing line break).
pub proof fn lemma_lines_spell_the_text(s: Seq<char>)
    ensures
        markup(s) matches Ok((lines, _)) ==> joined(lines) == strip_newline(decoded(s, 0)),
{
    lemma_run_good(s, 0, start_state());
    lemma_run_decodes(s, 0, start_state());
    if let Ok(st) = run(s, 0, start_state()) {
        assert(good_state(start_state()));
        assert(state_text(start_state()) =~= seq![]);
        lemma_flush_good(st);
        lemma_flush_text(st);
        let g = flush_state(st);
        assert(decoded(s, 0) =~= state_text(g));
        assert(g.buf.len() == 0);
        assert(state_text(g) =~= lines_text(g.lines) + line_text(g.line));
        let ls = finish(st).0;
        if g.line.len() > 0 {
            lemma_line_text_end(g.line);
            assert(ls.drop_last() =~= g.lines);
        } else {
            assert(line_text(g.line) =~= seq![]);
            if g.lines.len() > 0 {
                assert(lines_text(g.lines).last() == '\n');
                assert(strip_newline(lines_text(g.lines)) =~= lines_text(g.lines.drop_last())
                    + line_text(g.lines.last()));
            }
        }
    }
}

} // verus!
