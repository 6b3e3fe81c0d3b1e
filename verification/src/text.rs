//! Character and byte helpers shared by the text-processing modules.

use vstd::prelude::*;
use vstd::utf8::*;
use vstd::std_specs::iter::IteratorSpec;
use vstd::string::StringSliceAdditionalSpecFns;
use vstd::string::StringExecFns;

verus! {

broadcast use vstd::string::group_string_axioms;

/// Appends one character to a `String` (std's `String::push`).
#[verifier::external_body]
pub(crate) fn push_char(s: &mut String, c: char)
    ensures
        final(s)@ == old(s)@.push(c),
{
    s.push(c);
}

/// The characters of `s`, in order.
pub fn chars_of(s: &str) -> (v: Vec<char>)
    ensures
        v@ == s@,
{
    let mut v: Vec<char> = Vec::new();
    for c in it: s.chars()
        invariant
            v@ == it.seq().take(it.index() as int),
    {
        v.push(c);
    }
    v
}

/// True when byte offset `p` starts a character of `bytes` (or is its end):
/// the byte there is not a UTF-8 continuation byte.
pub open spec fn at_char_start(bytes: Seq<u8>, p: int) -> bool {
    0 <= p <= bytes.len() && (p == bytes.len() || !is_continuation_byte(bytes[p]))
}

/// UTF-8 encoding distributes over concatenation.
pub proof fn lemma_encode_concat(a: Seq<char>, b: Seq<char>)
    ensures
        encode_utf8(a + b) == encode_utf8(a) + encode_utf8(b),
    decreases a.len(),
{
    if a.len() == 0 {
        assert(a + b =~= b);
        assert(encode_utf8(a) + encode_utf8(b) =~= encode_utf8(b));
    } else {
        lemma_encode_concat(a.drop_first(), b);
        assert((a + b).drop_first() =~= a.drop_first() + b);
        assert((a + b)[0] == a[0]);
        assert(encode_utf8(a + b) =~= encode_scalar(a[0] as u32) + encode_utf8(a.drop_first() + b));
        assert(encode_utf8(a) + encode_utf8(b) =~= encode_scalar(a[0] as u32) + (encode_utf8(
            a.drop_first(),
        ) + encode_utf8(b)));
    }
}

/// In valid UTF-8, a position that does not hold a continuation byte is a
/// character boundary.
pub proof fn lemma_boundary(bytes: Seq<u8>, p: int)
    requires
        valid_utf8(bytes),
        at_char_start(bytes, p),
    ensures
        is_char_boundary(bytes, p),
{
    is_char_boundary_start_end_of_seq(bytes);
    if p < bytes.len() {
        is_char_boundary_iff_not_is_continuation_byte(bytes, p);
    }
}

proof fn lemma_ascii_step(bytes: Seq<u8>, p: int)
    requires
        valid_utf8(bytes),
        0 <= p < bytes.len(),
        bytes[p] < 0x80,
        is_char_boundary(bytes, p),
    ensures
        is_char_boundary(bytes, p + 1),
    decreases bytes.len(),
{
    if p == 0 {
        assert(length_of_first_scalar(bytes) == 1);
        assert(valid_utf8(pop_first_scalar(bytes)));
        assert(is_char_boundary(bytes, 1) == is_char_boundary(pop_first_scalar(bytes), 0));
    } else {
        let l = length_of_first_scalar(bytes);
        let rest = pop_first_scalar(bytes);
        assert(valid_first_scalar(bytes));
        assert(1 <= l <= bytes.len());
        assert(is_char_boundary(bytes, p) == is_char_boundary(rest, p - l));
        assert(is_char_boundary(bytes, p + 1) == is_char_boundary(rest, p + 1 - l));
        assert(p >= l);
        assert(valid_utf8(rest));
        assert(rest[p - l] == bytes[p]);
        lemma_ascii_step(rest, p - l);
    }
}

/// In valid UTF-8, the byte after an ASCII byte starts a character.
pub proof fn lemma_after_ascii(bytes: Seq<u8>, p: int)
    requires
        valid_utf8(bytes),
        0 <= p < bytes.len(),
        bytes[p] < 0x80,
    ensures
        at_char_start(bytes, p + 1),
{
    lemma_boundary(bytes, p);
    lemma_ascii_step(bytes, p);
    if p + 1 < bytes.len() {
        is_char_boundary_iff_not_is_continuation_byte(bytes, p + 1);
    }
}

/// The text of `text` between byte offsets `a` and `b`.
pub fn substring(text: &str, a: usize, b: usize) -> (out: String)
    requires
        a <= b,
        at_char_start(text.spec_bytes(), a as int),
        at_char_start(text.spec_bytes(), b as int),
    ensures
        encode_utf8(out@) == text.spec_bytes().subrange(a as int, b as int),
{
    let ghost bytes = text.spec_bytes();
    proof {
        encode_utf8_valid_utf8(text@);
        lemma_boundary(bytes, a as int);
    }
    let (_, rest) = text.split_at(a);
    proof {
        valid_utf8_split(bytes, a as int);
        assert(rest.spec_bytes() =~= bytes.subrange(a as int, bytes.len() as int));
        lemma_boundary(rest.spec_bytes(), (b - a) as int);
    }
    let (mid, _) = rest.split_at(b - a);
    assert(mid.spec_bytes() =~= bytes.subrange(a as int, b as int));
    mid.to_owned()
}

/// `text` with the bytes in `[a, b)` replaced by `insert`.
pub fn splice(text: &str, a: usize, b: usize, insert: &str) -> (out: String)
    requires
        a <= b,
        at_char_start(text.spec_bytes(), a as int),
        at_char_start(text.spec_bytes(), b as int),
    ensures
        encode_utf8(out@) == text.spec_bytes().subrange(0, a as int) + encode_utf8(insert@)
            + text.spec_bytes().subrange(b as int, text.spec_bytes().len() as int),
{
    let ghost bytes = text.spec_bytes();
    proof {
        encode_utf8_valid_utf8(text@);
        lemma_boundary(bytes, a as int);
        lemma_boundary(bytes, b as int);
    }
    let (pre, _) = text.split_at(a);
    let (_, post) = text.split_at(b);
    let mut out = String::from_str(pre);
    out.append(insert);
    out.append(post);
    proof {
        lemma_encode_concat(pre@, insert@);
        lemma_encode_concat(pre@ + insert@, post@);
    }
    out
}

/// The character for digit value `d` (0-15), lower-case for 10-15.
pub open spec fn digit_char(d: int) -> char {
    if d < 10 {
        (48 + d) as char
    } else {
        (87 + d) as char
    }
}

fn digit(d: u64) -> (c: char)
    requires
        d < 16,
    ensures
        c == digit_char(d as int),
{
    match d {
        0 => '0',
        1 => '1',
        2 => '2',
        3 => '3',
        4 => '4',
        5 => '5',
        6 => '6',
        7 => '7',
        8 => '8',
        9 => '9',
        10 => 'a',
        11 => 'b',
        12 => 'c',
        13 => 'd',
        14 => 'e',
        _ => 'f',
    }
}

/// The decimal digits of `n`, most significant first, with no leading zeros.
pub open spec fn decimal(n: nat) -> Seq<char>
    decreases n,
{
    if n < 10 {
        seq![digit_char(n as int)]
    } else {
        decimal(n / 10).push(digit_char((n % 10) as int))
    }
}

/// The last `width` hexadecimal digits of `n`, zero-padded.
pub open spec fn hex_fixed(n: nat, width: nat) -> Seq<char>
    decreases width,
{
    if width == 0 {
        seq![]
    } else {
        hex_fixed(n / 16, (width - 1) as nat).push(digit_char((n % 16) as int))
    }
}

/// An integer in decimal, with a leading `-` when negative.
pub open spec fn signed_decimal(n: int) -> Seq<char> {
    if n < 0 {
        seq!['-'] + decimal((-n) as nat)
    } else {
        decimal(n as nat)
    }
}

/// Appends the decimal digits of `n`.
pub fn push_decimal(s: &mut String, n: u64)
    ensures
        final(s)@ == old(s)@ + decimal(n as nat),
    decreases n,
{
    if n >= 10 {
        push_decimal(s, n / 10);
    }
    push_char(s, digit(n % 10));
    proof {
        if n < 10 {
            assert(old(s)@ + decimal(n as nat) =~= old(s)@.push(digit_char(n as int)));
        } else {
            assert(old(s)@ + decimal(n as nat) =~= (old(s)@ + decimal((n / 10) as nat)).push(
                digit_char((n % 10) as int),
            ));
        }
    }
}

/// Appends `n` in decimal, with a leading `-` when negative.
pub fn push_signed(s: &mut String, n: i64)
    ensures
        final(s)@ == old(s)@ + signed_decimal(n as int),
{
    if n < 0 {
        push_char(s, '-');
        let magnitude: u64 = (-(n + 1)) as u64 + 1;
        push_decimal(s, magnitude);
        assert(old(s)@ + signed_decimal(n as int) =~= old(s)@.push('-') + decimal((-n) as nat));
    } else {
        push_decimal(s, n as u64);
    }
}

/// Appends the last `width` hexadecimal digits of `n`, zero-padded.
pub fn push_hex_fixed(s: &mut String, n: u64, width: u64)
    ensures
        final(s)@ == old(s)@ + hex_fixed(n as nat, width as nat),
    decreases width,
{
    if width > 0 {
        push_hex_fixed(s, n / 16, width - 1);
        push_char(s, digit(n % 16));
        assert(old(s)@ + hex_fixed(n as nat, width as nat) =~= (old(s)@ + hex_fixed(
            (n / 16) as nat,
            (width - 1) as nat,
        )).push(digit_char((n % 16) as int)));
    } else {
        assert(old(s)@ + hex_fixed(n as nat, width as nat) =~= old(s)@);
    }
}

/// `n` in decimal.
pub fn usize_to_string(n: usize) -> (s: String)
    ensures
        s@ == decimal(n as nat),
{
    let mut s = String::new();
    push_decimal(&mut s, n as u64);
    assert(Seq::<char>::empty() + decimal(n as nat) =~= decimal(n as nat));
    s
}

/// A `String` holding `v[a..b]`.
pub fn string_from_chars(v: &Vec<char>, a: usize, b: usize) -> (s: String)
    requires
        a <= b <= v@.len(),
    ensures
        s@ == v@.subrange(a as int, b as int),
{
    let mut s = String::new();
    let mut k = a;
    while k < b
        invariant
            a <= k <= b <= v@.len(),
            s@ == v@.subrange(a as int, k as int),
        decreases b - k,
    {
        push_char(&mut s, v[k]);
        k = k + 1;
        assert(s@ =~= v@.subrange(a as int, k as int));
    }
    s
}

/// Unicode `White_Space`, as `char::is_whitespace` classifies it.
pub open spec fn is_unicode_space(c: char) -> bool {
    let u = c as u32;
    (9 <= u <= 13) || u == 32 || u == 0x85 || u == 0xa0 || u == 0x1680 || (0x2000 <= u <= 0x200a)
        || u == 0x2028 || u == 0x2029 || u == 0x202f || u == 0x205f || u == 0x3000
}

/// Exec form of [`is_unicode_space`].
pub fn is_space_char(c: char) -> (r: bool)
    ensures
        r == is_unicode_space(c),
{
    let u = c as u32;
    (9 <= u && u <= 13) || u == 32 || u == 0x85 || u == 0xa0 || u == 0x1680 || (0x2000 <= u && u
        <= 0x200a) || u == 0x2028 || u == 0x2029 || u == 0x202f || u == 0x205f || u == 0x3000
}

/// How many whitespace characters `s` starts with.
pub open spec fn lead_spaces(s: Seq<char>) -> nat
    decreases s.len(),
{
    if s.len() > 0 && is_unicode_space(s[0]) {
        1 + lead_spaces(s.drop_first())
    } else {
        0
    }
}

/// How many whitespace characters `s` ends with.
pub open spec fn trail_spaces(s: Seq<char>) -> nat
    decreases s.len(),
{
    if s.len() > 0 && is_unicode_space(s.last()) {
        1 + trail_spaces(s.drop_last())
    } else {
        0
    }
}

/// `s` without leading whitespace (`str::trim_start`).
pub open spec fn trim_start(s: Seq<char>) -> Seq<char> {
    s.skip(lead_spaces(s) as int)
}

/// `s` without trailing whitespace (`str::trim_end`).
pub open spec fn trim_end(s: Seq<char>) -> Seq<char> {
    s.take(s.len() - trail_spaces(s))
}

/// `s` without leading and trailing whitespace (`str::trim`).
pub open spec fn trim(s: Seq<char>) -> Seq<char> {
    trim_end(trim_start(s))
}

/// How many non-whitespace characters `s` starts with.
pub open spec fn word_len(s: Seq<char>) -> nat
    decreases s.len(),
{
    if s.len() > 0 && !is_unicode_space(s[0]) {
        1 + word_len(s.drop_first())
    } else {
        0
    }
}

/// The whitespace-separated words of `s` (`str::split_whitespace`).
pub open spec fn words(s: Seq<char>) -> Seq<Seq<char>>
    decreases s.len(),
{
    let t = trim_start(s);
    proof {
        lemma_lead_spaces(s);
        lemma_word_len(t);
    }
    if t.len() == 0 {
        seq![]
    } else {
        seq![t.take(word_len(t) as int)] + words(t.skip(word_len(t) as int))
    }
}

pub proof fn lemma_lead_spaces(s: Seq<char>)
    ensures
        lead_spaces(s) <= s.len(),
        lead_spaces(s) < s.len() ==> !is_unicode_space(s[lead_spaces(s) as int]),
    decreases s.len(),
{
    if s.len() > 0 && is_unicode_space(s[0]) {
        lemma_lead_spaces(s.drop_first());
    }
}

pub proof fn lemma_trail_spaces(s: Seq<char>)
    ensures
        trail_spaces(s) <= s.len(),
    decreases s.len(),
{
    if s.len() > 0 && is_unicode_space(s.last()) {
        lemma_trail_spaces(s.drop_last());
    }
}

/// The first `lead_spaces(s)` characters of `s` are whitespace.
pub proof fn lemma_lead_spaces_are_spaces(s: Seq<char>)
    ensures
        forall|k: int| 0 <= k < lead_spaces(s) ==> is_unicode_space(#[trigger] s[k]),
    decreases s.len(),
{
    lemma_lead_spaces(s);
    if s.len() > 0 && is_unicode_space(s[0]) {
        lemma_lead_spaces_are_spaces(s.drop_first());
        assert forall|k: int| 0 <= k < lead_spaces(s) implies is_unicode_space(#[trigger] s[k]) by {
            if k > 0 {
                assert(s[k] == s.drop_first()[k - 1]);
            }
        }
    }
}

/// The last `trail_spaces(s)` characters of `s` are whitespace, and the one
/// before them (if any) is not.
pub proof fn lemma_trail_spaces_are_spaces(s: Seq<char>)
    ensures
        trail_spaces(s) <= s.len(),
        forall|k: int| s.len() - trail_spaces(s) <= k < s.len() ==> is_unicode_space(#[trigger] s[k]),
        trail_spaces(s) < s.len() ==> !is_unicode_space(s[s.len() - trail_spaces(s) - 1]),
    decreases s.len(),
{
    if s.len() > 0 && is_unicode_space(s.last()) {
        let p = s.drop_last();
        lemma_trail_spaces_are_spaces(p);
        assert forall|k: int| s.len() - trail_spaces(s) <= k < s.len() implies is_unicode_space(
            #[trigger] s[k],
        ) by {
            if k < s.len() - 1 {
                assert(s[k] == p[k]);
            }
        }
        if trail_spaces(s) < s.len() {
            assert(s[s.len() - trail_spaces(s) - 1] == p[p.len() - trail_spaces(p) - 1]);
        }
    }
}

pub proof fn lemma_word_len(s: Seq<char>)
    ensures
        word_len(s) <= s.len(),
        s.len() > 0 && !is_unicode_space(s[0]) ==> word_len(s) > 0,
    decreases s.len(),
{
    if s.len() > 0 && !is_unicode_space(s[0]) {
        lemma_word_len(s.drop_first());
    }
}

/// A copy of `v[a..b]`.
pub fn sub_vec(v: &Vec<char>, a: usize, b: usize) -> (r: Vec<char>)
    requires
        a <= b <= v@.len(),
    ensures
        r@ == v@.subrange(a as int, b as int),
{
    let mut r: Vec<char> = Vec::new();
    let mut k = a;
    while k < b
        invariant
            a <= k <= b <= v@.len(),
            r@ == v@.subrange(a as int, k as int),
        decreases b - k,
    {
        r.push(v[k]);
        k = k + 1;
        assert(r@ =~= v@.subrange(a as int, k as int));
    }
    r
}

/// The number of leading whitespace characters of `v`.
pub fn count_lead_spaces(v: &Vec<char>) -> (n: usize)
    ensures
        n == lead_spaces(v@),
{
    let mut n: usize = 0;
    assert(v@.skip(0) =~= v@);
    while n < v.len() && is_space_char(v[n])
        invariant
            n <= v@.len(),
            lead_spaces(v@) == n + lead_spaces(v@.skip(n as int)),
        decreases v@.len() - n,
    {
        assert(v@.skip(n as int).drop_first() =~= v@.skip(n + 1));
        n = n + 1;
    }
    n
}

/// The number of trailing whitespace characters of `v`.
pub fn count_trail_spaces(v: &Vec<char>) -> (n: usize)
    ensures
        n == trail_spaces(v@),
{
    let mut n: usize = 0;
    assert(v@.take(v@.len() as int) =~= v@);
    while n < v.len() && is_space_char(v[v.len() - 1 - n])
        invariant
            n <= v@.len(),
            trail_spaces(v@) == n + trail_spaces(v@.take(v@.len() - n)),
        decreases v@.len() - n,
    {
        assert(v@.take(v@.len() - n).drop_last() =~= v@.take(v@.len() - (n + 1)));
        assert(v@.take(v@.len() - n).last() == v@[v@.len() - 1 - n]);
        n = n + 1;
    }
    proof {
        if n < v@.len() {
            assert(v@.take(v@.len() - n).last() == v@[v@.len() - 1 - n]);
        }
    }
    n
}

/// `v` without leading whitespace.
pub fn trim_start_vec(v: &Vec<char>) -> (r: Vec<char>)
    ensures
        r@ == trim_start(v@),
{
    let n = count_lead_spaces(v);
    proof {
        lemma_lead_spaces(v@);
    }
    sub_vec(v, n, v.len())
}

/// `v` without leading and trailing whitespace.
pub fn trim_vec(v: &Vec<char>) -> (r: Vec<char>)
    ensures
        r@ == trim(v@),
{
    let t = trim_start_vec(v);
    let n = count_trail_spaces(&t);
    proof {
        lemma_trail_spaces(t@);
    }
    sub_vec(&t, 0, t.len() - n)
}

/// The characters of each string.
pub open spec fn strings_model(v: Seq<String>) -> Seq<Seq<char>> {
    v.map_values(|x: String| x@)
}

/// The whitespace-separated words of `v`, as strings.
pub fn words_vec(v: &Vec<char>) -> (r: Vec<String>)
    ensures
        strings_model(r@) == words(v@),
    decreases v@.len(),
{
    let t = trim_start_vec(v);
    proof {
        lemma_lead_spaces(v@);
        lemma_word_len(t@);
    }
    if t.len() == 0 {
        let r: Vec<String> = Vec::new();
        assert(strings_model(r@) =~= words(v@));
        return r;
    }
    let mut w: usize = 0;
    assert(t@.skip(0) =~= t@);
    while w < t.len() && !is_space_char(t[w])
        invariant
            w <= t@.len(),
            word_len(t@) == w + word_len(t@.skip(w as int)),
        decreases t@.len() - w,
    {
        assert(t@.skip(w as int).drop_first() =~= t@.skip(w + 1));
        w = w + 1;
    }
    let first = string_from_chars(&t, 0, w);
    let rest = sub_vec(&t, w, t.len());
    let tail = words_vec(&rest);
    let mut r: Vec<String> = Vec::new();
    r.push(first);
    let mut k: usize = 0;
    let ghost tail_v = strings_model(tail@);
    while k < tail.len()
        invariant
            k <= tail@.len(),
            tail_v == strings_model(tail@),
            r@.len() == k + 1,
            r@[0]@ == t@.take(w as int),
            forall|i: int| 0 <= i < k ==> r@[i + 1]@ == tail_v[i],
        decreases tail@.len() - k,
    {
        r.push(tail[k].clone());
        k = k + 1;
    }
    assert(t@.take(word_len(t@) as int) =~= t@.take(w as int));
    assert(strings_model(r@) =~= seq![t@.take(w as int)] + tail_v);
    r
}

/// The first position at or after `i` where `s` holds `c`, or `s.len()` when
/// there is none.
pub open spec fn find_from(s: Seq<char>, i: int, c: char) -> int
    decreases s.len() - i,
{
    if i >= s.len() {
        s.len() as int
    } else if s[i] == c {
        i
    } else {
        find_from(s, i + 1, c)
    }
}

pub proof fn lemma_find_from(s: Seq<char>, i: int, c: char)
    requires
        0 <= i <= s.len(),
    ensures
        i <= find_from(s, i, c) <= s.len(),
        find_from(s, i, c) < s.len() ==> s[find_from(s, i, c)] == c,
        forall|k: int| i <= k < find_from(s, i, c) ==> s[k] != c,
    decreases s.len() - i,
{
    if i < s.len() && s[i] != c {
        lemma_find_from(s, i + 1, c);
    }
}

/// The first position at or after `from` where `v` holds `c`, or `v.len()`.
pub fn find_char(v: &Vec<char>, from: usize, c: char) -> (r: usize)
    requires
        from <= v@.len(),
    ensures
        r == find_from(v@, from as int, c),
{
    let mut j = from;
    while j < v.len() && v[j] != c
        invariant
            from <= j <= v@.len(),
            find_from(v@, from as int, c) == find_from(v@, j as int, c),
        decreases v@.len() - j,
    {
        j = j + 1;
    }
    j
}

/// A line without the `\r` of a `\r\n` ending.
pub open spec fn strip_cr(l: Seq<char>) -> Seq<char> {
    if l.len() > 0 && l.last() == '\r' {
        l.drop_last()
    } else {
        l
    }
}

/// The lines of `s` from position `i` on, as `str::lines` yields them: split at
/// `\n`, a `\r` before the `\n` dropped, no line after a final `\n`.
pub open spec fn lines_from(s: Seq<char>, i: int) -> Seq<Seq<char>>
    decreases s.len() - i,
{
    if i < 0 || i >= s.len() {
        seq![]
    } else {
        let j = find_from(s, i, '\n');
        proof {
            lemma_find_from(s, i, '\n');
        }
        if j >= s.len() {
            seq![s.subrange(i, s.len() as int)]
        } else {
            seq![strip_cr(s.subrange(i, j))] + lines_from(s, j + 1)
        }
    }
}

/// The lines of `s` (`str::lines`).
pub open spec fn text_lines(s: Seq<char>) -> Seq<Seq<char>> {
    lines_from(s, 0)
}

/// End of the line that starts at `i` (at its `\n` or the end of `v`), and
/// end of its text once a `\r` before the `\n` is dropped.
pub fn line_bounds(v: &Vec<char>, i: usize) -> (r: (usize, usize))
    requires
        i < v@.len(),
    ensures
        r.0 == find_from(v@, i as int, '\n'),
        i <= r.1 <= r.0 <= v@.len(),
        r.0 < v@.len() ==> v@.subrange(i as int, r.1 as int) == strip_cr(v@.subrange(i as int, r.0 as int)),
        r.0 >= v@.len() ==> r.1 == r.0,
{
    let j = find_char(v, i, '\n');
    proof {
        lemma_find_from(v@, i as int, '\n');
    }
    let mut e = j;
    if j < v.len() && j > i && v[j - 1] == '\r' {
        e = j - 1;
    }
    assert(j < v@.len() ==> v@.subrange(i as int, e as int) =~= strip_cr(v@.subrange(i as int, j as int)));
    (j, e)
}

/// Whether `v` holds the characters of `w` from position `from` on.
pub fn starts_with_at(v: &Vec<char>, from: usize, w: &[char]) -> (r: bool)
    requires
        from <= v@.len(),
    ensures
        r == (from + w@.len() <= v@.len() && v@.subrange(from as int, from + w@.len()) == w@),
{
    if w.len() > v.len() - from {
        return false;
    }
    let mut k: usize = 0;
    while k < w.len()
        invariant
            from + w@.len() <= v@.len() <= usize::MAX,
            k <= w@.len(),
            forall|t: int| 0 <= t < k ==> v@[from + t] == w@[t],
        decreases w@.len() - k,
    {
        if v[from + k] != w[k] {
            assert(v@.subrange(from as int, from + w@.len())[k as int] != w@[k as int]);
            return false;
        }
        k = k + 1;
    }
    assert(v@.subrange(from as int, from + w@.len()) =~= w@);
    true
}

/// A lower-case hexadecimal digit.
pub open spec fn is_hex_digit(c: char) -> bool {
    ('0' <= c && c <= '9') || ('a' <= c && c <= 'f')
}

/// `hex_fixed` gives exactly `width` lower-case hexadecimal digits.
pub proof fn lemma_hex_fixed(n: nat, width: nat)
    ensures
        hex_fixed(n, width).len() == width,
        forall|k: int| 0 <= k < width ==> is_hex_digit(#[trigger] hex_fixed(n, width)[k]),
    decreases width,
{
    if width > 0 {
        lemma_hex_fixed(n / 16, (width - 1) as nat);
        let d = (n % 16) as int;
        assert(is_hex_digit(digit_char(d)));
        assert forall|k: int| 0 <= k < width implies is_hex_digit(#[trigger] hex_fixed(n, width)[k]) by {
            if k < width - 1 {
                assert(hex_fixed(n, width)[k] == hex_fixed(n / 16, (width - 1) as nat)[k]);
            }
        }
    }
}


/// Whether two strings hold the same characters.
pub fn same_text(a: &str, b: &str) -> (r: bool)
    ensures
        r == (a@ == b@),
{
    let x = chars_of(a);
    let y = chars_of(b);
    if x.len() != y.len() {
        return false;
    }
    let mut k: usize = 0;
    while k < x.len()
        invariant
            x@ == a@,
            y@ == b@,
            x@.len() == y@.len(),
            k <= x@.len(),
            forall|t: int| 0 <= t < k ==> x@[t] == y@[t],
        decreases x@.len() - k,
    {
        if x[k] != y[k] {
            return false;
        }
        k = k + 1;
    }
    assert(x@ =~= y@);
    true
}

} // verus!
