//! Surgical, text-level edits to the JSON5 config.
//!
//! The configurator rewrites the `monitors` section and appends module
//! definitions while leaving every other byte of the file untouched, comments
//! included. The scanner here finds the byte spans of top-level keys (string-
//! and comment-aware) and splices replacements into the original text.

use vstd::prelude::*;
use vstd::utf8::*;
use vstd::string::StringSliceAdditionalSpecFns;
use crate::text::{at_char_start, is_unicode_space, lemma_after_ascii, substring, splice};
use vstd::string::StringExecFns;
use vstd::std_specs::btree::increasing_seq;
use vstd::std_specs::cmp::OrdSpec;
use vstd::std_specs::iter::IteratorSpec;

verus! {

broadcast use vstd::string::group_string_axioms;

const SLASH: u8 = 0x2f;
const STAR: u8 = 0x2a;
const NEWLINE: u8 = 0x0a;
const DQUOTE: u8 = 0x22;
const SQUOTE: u8 = 0x27;
const BACKSLASH: u8 = 0x5c;
const LBRACE: u8 = 0x7b;
const RBRACE: u8 = 0x7d;
const LBRACKET: u8 = 0x5b;
const RBRACKET: u8 = 0x5d;
const COMMA: u8 = 0x2c;
const COLON: u8 = 0x3a;

/// A byte that counts as whitespace when read as a Latin-1 character: the
/// ASCII blanks plus U+0085 and U+00A0.
pub open spec fn is_space(c: u8) -> bool {
    c == 9 || c == 10 || c == 11 || c == 12 || c == 13 || c == 32 || c == 0x85 || c == 0xa0
}

/// A `//` or `/*` comment opens at byte `i`.
pub open spec fn comment_at(b: Seq<u8>, i: int) -> bool {
    0 <= i && i + 1 < b.len() && b[i] == 0x2f && (b[i + 1] == 0x2f || b[i + 1] == 0x2a)
}

/// Where the whitespace and comments starting at `i` end. `mode` is 0
/// outside comments, 1 inside a `//` comment and 2 inside a `/* */` comment.
pub open spec fn trivia_end_in(b: Seq<u8>, i: int, mode: int) -> int
    decreases b.len() - i, mode,
    when 0 <= i <= b.len() && 0 <= mode <= 2
{
    if mode == 1 {
        if i < b.len() && b[i] != 0x0a {
            trivia_end_in(b, i + 1, 1)
        } else {
            trivia_end_in(b, i, 0)
        }
    } else if mode == 2 {
        if i + 1 < b.len() {
            if b[i] == 0x2a && b[i + 1] == 0x2f {
                trivia_end_in(b, i + 2, 0)
            } else {
                trivia_end_in(b, i + 1, 2)
            }
        } else {
            trivia_end_in(b, b.len() as int, 0)
        }
    } else if i < b.len() && is_space(b[i]) {
        trivia_end_in(b, i + 1, 0)
    } else if i + 1 < b.len() && b[i] == 0x2f && b[i + 1] == 0x2f {
        trivia_end_in(b, i + 2, 1)
    } else if i + 1 < b.len() && b[i] == 0x2f && b[i + 1] == 0x2a {
        trivia_end_in(b, i + 2, 2)
    } else {
        i
    }
}

/// The offset just past the whitespace, `// line` and `/* block */` comments
/// that start at `i` (unchanged when `i` is past the end).
pub open spec fn trivia_end(b: Seq<u8>, i: int) -> int {
    if 0 <= i <= b.len() {
        trivia_end_in(b, i, 0)
    } else {
        i
    }
}

pub proof fn lemma_trivia_end_in(b: Seq<u8>, i: int, mode: int)
    requires
        0 <= i <= b.len(),
        0 <= mode <= 2,
    ensures
        i <= trivia_end_in(b, i, mode) <= b.len(),
        mode == 0 && comment_at(b, i) ==> trivia_end_in(b, i, mode) >= i + 2,
        trivia_end_in(b, i, mode) == b.len() || !is_space(b[trivia_end_in(b, i, mode)]),
        !comment_at(b, trivia_end_in(b, i, mode)),
    decreases b.len() - i, mode,
{
    if mode == 1 {
        if i < b.len() && b[i] != 0x0a {
            lemma_trivia_end_in(b, i + 1, 1);
        } else {
            lemma_trivia_end_in(b, i, 0);
        }
    } else if mode == 2 {
        if i + 1 < b.len() {
            if b[i] == 0x2a && b[i + 1] == 0x2f {
                lemma_trivia_end_in(b, i + 2, 0);
            } else {
                lemma_trivia_end_in(b, i + 1, 2);
            }
        } else {
            lemma_trivia_end_in(b, b.len() as int, 0);
        }
    } else if i < b.len() && is_space(b[i]) {
        lemma_trivia_end_in(b, i + 1, 0);
    } else if i + 1 < b.len() && b[i] == 0x2f && b[i + 1] == 0x2f {
        lemma_trivia_end_in(b, i + 2, 1);
    } else if i + 1 < b.len() && b[i] == 0x2f && b[i + 1] == 0x2a {
        lemma_trivia_end_in(b, i + 2, 2);
    }
}

pub proof fn lemma_trivia_end(b: Seq<u8>, i: int)
    requires
        0 <= i <= b.len(),
    ensures
        i <= trivia_end(b, i) <= b.len(),
        comment_at(b, i) ==> trivia_end(b, i) >= i + 2,
        trivia_end(b, i) == b.len() || !is_space(b[trivia_end(b, i)]),
{
    lemma_trivia_end_in(b, i, 0);
}

/// Skipping whitespace and comments stops at a byte that is neither
/// whitespace nor the start of a comment (or at the end), and skipping again
/// from there moves no further.
pub proof fn lemma_skip_stops(b: Seq<u8>, i: int)
    requires
        0 <= i <= b.len(),
    ensures
        i <= trivia_end(b, i) <= b.len(),
        trivia_end(b, i) == b.len() || !is_space(b[trivia_end(b, i)]),
        !comment_at(b, trivia_end(b, i)),
        trivia_end(b, trivia_end(b, i)) == trivia_end(b, i),
{
    lemma_trivia_end_in(b, i, 0);
    let r = trivia_end(b, i);
    lemma_trivia_end_in(b, r, 0);
}

/// Advance past whitespace, `// line` and `/* block */` comments.
pub fn skip_ws_and_comments(b: &[u8], from: usize) -> (r: usize)
    ensures
        r == trivia_end(b@, from as int),
{
    if from > b.len() {
        return from;
    }
    let ghost target = trivia_end(b@, from as int);
    let mut i = from;
    loop
        invariant
            i <= b@.len(),
            target == trivia_end(b@, from as int),
            trivia_end_in(b@, i as int, 0) == target,
        decreases b@.len() - i,
    {
        let ghost start = i;
        while i < b.len() && is_space_byte(b[i])
            invariant
                start <= i <= b@.len(),
                trivia_end_in(b@, i as int, 0) == target,
            decreases b@.len() - i,
        {
            i = i + 1;
        }
        if i < b.len() && i + 1 < b.len() && b[i] == SLASH && b[i + 1] == SLASH {
            i = i + 2;
            while i < b.len() && b[i] != NEWLINE
                invariant
                    start + 2 <= i <= b@.len(),
                    trivia_end_in(b@, i as int, 1) == target,
                decreases b@.len() - i,
            {
                i = i + 1;
            }
        } else if i < b.len() && i + 1 < b.len() && b[i] == SLASH && b[i + 1] == STAR {
            i = i + 2;
            while i < b.len() && i + 1 < b.len() && !(b[i] == STAR && b[i + 1] == SLASH)
                invariant
                    start + 2 <= i <= b@.len(),
                    trivia_end_in(b@, i as int, 2) == target,
                decreases b@.len() - i,
            {
                i = i + 1;
            }
            i = if i < b.len() && i + 1 < b.len() {
                i + 2
            } else {
                b.len()
            };
        } else {
            assert(trivia_end_in(b@, i as int, 0) == i as int);
            return i;
        }
    }
}

/// Exec form of [`is_space`].
pub fn is_space_byte(c: u8) -> (r: bool)
    ensures
        r == is_space(c),
{
    c == 9 || c == 10 || c == 11 || c == 12 || c == 13 || c == 32 || c == 0x85 || c == 0xa0
}

/// Where a quoted string ends, given `i` just past its opening quote `q`:
/// one past the closing quote, skipping backslash escapes. `None` when the
/// string is not closed.
pub open spec fn string_close(b: Seq<u8>, i: int, q: u8) -> Option<int>
    decreases b.len() - i,
{
    if 0 <= i < b.len() {
        if b[i] == 0x5c {
            if i + 2 <= b.len() {
                string_close(b, i + 2, q)
            } else {
                None
            }
        } else if b[i] == q {
            Some(i + 1)
        } else {
            string_close(b, i + 1, q)
        }
    } else {
        None
    }
}

pub proof fn lemma_string_close(b: Seq<u8>, i: int, q: u8)
    requires
        0 <= i,
    ensures
        string_close(b, i, q) matches Some(e) ==> i < e <= b.len() && b[e - 1] == q,
    decreases b.len() - i,
{
    if 0 <= i < b.len() {
        if b[i] == 0x5c {
            if i + 2 <= b.len() {
                lemma_string_close(b, i + 2, q);
            }
        } else if b[i] != q {
            lemma_string_close(b, i + 1, q);
        }
    }
}

/// A byte that ends a bare value token: `,`, `}` or `]`.
pub open spec fn is_delim(c: u8) -> bool {
    c == 0x2c || c == 0x7d || c == 0x5d
}

/// Where a bare token (number, `true`, `null`, identifier...) that starts at
/// `i` ends: at a delimiter, whitespace, a comment or the end of the text.
pub open spec fn token_end(b: Seq<u8>, i: int) -> int
    decreases b.len() - i,
{
    if 0 <= i < b.len() && !is_delim(b[i]) && !is_space(b[i]) && !comment_at(b, i) {
        token_end(b, i + 1)
    } else {
        i
    }
}

pub proof fn lemma_token_end(b: Seq<u8>, i: int)
    requires
        0 <= i <= b.len(),
    ensures
        i <= token_end(b, i) <= b.len(),
        forall|k: int| i <= k < token_end(b, i) ==> !is_delim(b[k]) && !is_space(b[k]),
    decreases b.len() - i,
{
    if 0 <= i < b.len() && !is_delim(b[i]) && !is_space(b[i]) && !comment_at(b, i) {
        lemma_token_end(b, i + 1);
    }
}

/// Where a bracketed value ends, given `i` just inside it and the current
/// nesting `depth`: one past the bracket that closes the outermost level.
/// Strings and comments are skipped whole. `None` when it never closes.
pub open spec fn nest_close(b: Seq<u8>, i: int, depth: nat) -> Option<int>
    decreases b.len() - i,
{
    if 0 <= i < b.len() {
        if comment_at(b, i) {
            let j = trivia_end(b, i);
            proof {
                lemma_trivia_end(b, i);
            }
            nest_close(b, j, depth)
        } else if b[i] == 0x22 || b[i] == 0x27 {
            proof {
                lemma_string_close(b, i + 1, b[i]);
            }
            match string_close(b, i + 1, b[i]) {
                Some(e) => nest_close(b, e, depth),
                None => None,
            }
        } else if b[i] == 0x7b || b[i] == 0x5b {
            nest_close(b, i + 1, depth + 1)
        } else if b[i] == 0x7d || b[i] == 0x5d {
            if depth <= 1 {
                Some(i + 1)
            } else {
                nest_close(b, i + 1, (depth - 1) as nat)
            }
        } else {
            nest_close(b, i + 1, depth)
        }
    } else {
        None
    }
}

pub proof fn lemma_nest_close(b: Seq<u8>, i: int, depth: nat)
    requires
        0 <= i,
    ensures
        nest_close(b, i, depth) matches Some(e) ==> i < e <= b.len() && (b[e - 1] == 0x7d || b[e
            - 1] == 0x5d),
    decreases b.len() - i,
{
    if 0 <= i < b.len() {
        if comment_at(b, i) {
            lemma_trivia_end(b, i);
            lemma_nest_close(b, trivia_end(b, i), depth);
        } else if b[i] == 0x22 || b[i] == 0x27 {
            lemma_string_close(b, i + 1, b[i]);
            if let Some(e) = string_close(b, i + 1, b[i]) {
                lemma_nest_close(b, e, depth);
            }
        } else if b[i] == 0x7b || b[i] == 0x5b {
            lemma_nest_close(b, i + 1, depth + 1);
        } else if b[i] == 0x7d || b[i] == 0x5d {
            if depth > 1 {
                lemma_nest_close(b, i + 1, (depth - 1) as nat);
            }
        } else {
            lemma_nest_close(b, i + 1, depth);
        }
    }
}

/// Where the value that starts at `i` ends: a quoted string, a bracketed
/// object or array, or a non-empty bare token. `None` when there is no
/// well-delimited value there.
pub open spec fn value_end(b: Seq<u8>, i: int) -> Option<int> {
    if 0 <= i < b.len() {
        if b[i] == 0x22 || b[i] == 0x27 {
            string_close(b, i + 1, b[i])
        } else if b[i] == 0x7b || b[i] == 0x5b {
            nest_close(b, i + 1, 1)
        } else {
            let e = token_end(b, i);
            if e == i {
                None
            } else {
                Some(e)
            }
        }
    } else {
        None
    }
}

pub proof fn lemma_value_end(b: Seq<u8>, i: int)
    requires
        0 <= i,
    ensures
        value_end(b, i) matches Some(e) ==> i < e <= b.len(),
{
    if 0 <= i < b.len() {
        if b[i] == 0x22 || b[i] == 0x27 {
            lemma_string_close(b, i + 1, b[i]);
        } else if b[i] == 0x7b || b[i] == 0x5b {
            lemma_nest_close(b, i + 1, 1);
        } else {
            lemma_token_end(b, i);
        }
    }
}

/// The message for a quoted string that is never closed.
pub open spec fn unterminated_string() -> Seq<char> {
    "unterminated string"@
}

/// Why a bracketed value scanned from `i` at nesting `depth` fails to close
/// (meaningful where `nest_close(b, i, depth)` is `None`): a string inside it
/// that is never closed, or the end of the text.
pub open spec fn nest_error(b: Seq<u8>, i: int, depth: nat) -> Seq<char>
    decreases b.len() - i,
{
    if 0 <= i < b.len() {
        if comment_at(b, i) {
            let j = trivia_end(b, i);
            proof {
                lemma_trivia_end(b, i);
            }
            nest_error(b, j, depth)
        } else if b[i] == 0x22 || b[i] == 0x27 {
            proof {
                lemma_string_close(b, i + 1, b[i]);
            }
            match string_close(b, i + 1, b[i]) {
                Some(e) => nest_error(b, e, depth),
                None => unterminated_string(),
            }
        } else if b[i] == 0x7b || b[i] == 0x5b {
            nest_error(b, i + 1, depth + 1)
        } else if (b[i] == 0x7d || b[i] == 0x5d) && depth > 1 {
            nest_error(b, i + 1, (depth - 1) as nat)
        } else {
            nest_error(b, i + 1, depth)
        }
    } else {
        "unterminated object or array"@
    }
}

/// Why no value can be read at `i` (meaningful where `value_end(b, i)` is
/// `None`).
pub open spec fn value_error(b: Seq<u8>, i: int) -> Seq<char> {
    if 0 <= i < b.len() {
        if b[i] == 0x22 || b[i] == 0x27 {
            unterminated_string()
        } else if b[i] == 0x7b || b[i] == 0x5b {
            nest_error(b, i + 1, 1)
        } else {
            "expected a value at byte "@ + crate::text::decimal(i as nat)
        }
    } else {
        "expected a value, found end of input"@
    }
}

fn err(msg: &str) -> (e: String)
    ensures
        e@ == msg@,
{
    String::from_str(msg)
}

/// Advance past a quoted string (either quote style). `i` is on the opening
/// quote; returns one past the closing quote.
fn skip_string(b: &[u8], i: usize) -> (r: Result<usize, String>)
    requires
        i < b@.len(),
    ensures
        match string_close(b@, i + 1, b@[i as int]) {
            Some(e) => r == Ok::<usize, String>(e as usize),
            None => r matches Err(m) && m@ == unterminated_string(),
        },
{
    let quote = b[i];
    let mut j = i + 1;
    while j < b.len()
        invariant
            i < j <= b@.len() + 1,
            quote == b@[i as int],
            string_close(b@, i + 1, quote) == string_close(b@, j as int, quote),
        decreases b@.len() + 1 - j,
    {
        if b[j] == BACKSLASH {
            if j + 1 >= b.len() {
                return Err(err("unterminated string"));
            }
            j = j + 2;
        } else if b[j] == quote {
            return Ok(j + 1);
        } else {
            j = j + 1;
        }
    }
    Err(err("unterminated string"))
}

/// Advance past one value (object, array, string, or bare token).
fn skip_value(b: &[u8], i: usize) -> (r: Result<usize, String>)
    ensures
        match value_end(b@, i as int) {
            Some(e) => r == Ok::<usize, String>(e as usize),
            None => r matches Err(m) && m@ == value_error(b@, i as int),
        },
{
    if i >= b.len() {
        return Err(err("expected a value, found end of input"));
    }
    let c = b[i];
    if c == DQUOTE || c == SQUOTE {
        return skip_string(b, i);
    }
    if c == LBRACE || c == LBRACKET {
        let mut depth: usize = 1;
        let mut j = i + 1;
        while j < b.len()
            invariant
                i < j <= b@.len(),
                1 <= depth <= j - i,
                value_end(b@, i as int) == nest_close(b@, j as int, depth as nat),
                value_error(b@, i as int) == nest_error(b@, j as int, depth as nat),
            decreases b@.len() - j,
        {
            if j < b.len() && j + 1 < b.len() && b[j] == SLASH && (b[j + 1] == SLASH || b[j + 1]
                == STAR) {
                proof {
                    lemma_trivia_end(b@, j as int);
                }
                j = skip_ws_and_comments(b, j);
                continue ;
            }
            let d = b[j];
            if d == DQUOTE || d == SQUOTE {
                proof {
                    lemma_string_close(b@, j + 1, d);
                }
                match skip_string(b, j) {
                    Ok(e) => {
                        j = e;
                    },
                    Err(m) => {
                        return Err(m);
                    },
                }
            } else if d == LBRACE || d == LBRACKET {
                depth = depth + 1;
                j = j + 1;
            } else if d == RBRACE || d == RBRACKET {
                if depth == 1 {
                    return Ok(j + 1);
                }
                depth = depth - 1;
                j = j + 1;
            } else {
                j = j + 1;
            }
        }
        return Err(err("unterminated object or array"));
    }
    let mut j = i;
    while j < b.len() && !(b[j] == COMMA || b[j] == RBRACE || b[j] == RBRACKET) && !is_space_byte(
        b[j],
    ) && !(j + 1 < b.len() && b[j] == SLASH && (b[j + 1] == SLASH || b[j + 1] == STAR))
        invariant
            i <= j <= b@.len(),
            token_end(b@, i as int) == token_end(b@, j as int),
        decreases b@.len() - j,
    {
        j = j + 1;
    }
    if j == i {
        let mut m = err("expected a value at byte ");
        crate::text::push_decimal(&mut m, j as u64);
        Err(m)
    } else {
        Ok(j)
    }
}

/// A top-level key and the byte span of its value.
#[derive(Debug, Clone)]
pub struct KeySpan {
    pub key: String,
    /// First byte of the key token (its quote, if quoted).
    pub start: usize,
    /// First byte of the value.
    pub value_start: usize,
    /// One past the last byte of the value.
    pub end: usize,
}

/// The mathematical content of a [`KeySpan`].
pub struct SpanModel {
    pub key: Seq<char>,
    pub start: int,
    pub value_start: int,
    pub end: int,
}

impl View for KeySpan {
    type V = SpanModel;

    open spec fn view(&self) -> SpanModel {
        SpanModel {
            key: self.key@,
            start: self.start as int,
            value_start: self.value_start as int,
            end: self.end as int,
        }
    }
}

/// A byte allowed in a bare (unquoted) key: ASCII letters and digits, `_`,
/// `$` and `-`.
pub open spec fn is_ident_byte(c: u8) -> bool {
    (0x30 <= c <= 0x39) || (0x41 <= c <= 0x5a) || (0x61 <= c <= 0x7a) || c == 0x5f || c == 0x24
        || c == 0x2d
}

/// Where a bare key that starts at `i` ends.
pub open spec fn ident_end(b: Seq<u8>, i: int) -> int
    decreases b.len() - i,
{
    if 0 <= i < b.len() && is_ident_byte(b[i]) {
        ident_end(b, i + 1)
    } else {
        i
    }
}

pub proof fn lemma_ident_end(b: Seq<u8>, i: int)
    requires
        0 <= i <= b.len(),
    ensures
        i <= ident_end(b, i) <= b.len(),
        forall|k: int| i <= k < ident_end(b, i) ==> is_ident_byte(b[k]),
    decreases b.len() - i,
{
    if 0 <= i < b.len() && is_ident_byte(b[i]) {
        lemma_ident_end(b, i + 1);
    }
}

/// The key token at `j` (quoted with either quote style, or bare) as its
/// text and the offset just past it.
pub open spec fn key_token(b: Seq<u8>, j: int) -> Option<(Seq<char>, int)> {
    if 0 <= j < b.len() && (b[j] == 0x22 || b[j] == 0x27) {
        match string_close(b, j + 1, b[j]) {
            Some(e) => Some((decode_utf8(b.subrange(j + 1, e - 1)), e)),
            None => None,
        }
    } else {
        let k = ident_end(b, j);
        if k == j {
            None
        } else {
            Some((decode_utf8(b.subrange(j, k)), k))
        }
    }
}

/// The members of the top-level object from offset `i` on, appended to
/// `acc`; on reaching the closing brace, the members with the offsets of the
/// opening (`open`) and closing braces.
pub open spec fn members(b: Seq<u8>, i: int, acc: Seq<SpanModel>, open: int) -> Option<
    (Seq<SpanModel>, int, int),
>
    decreases b.len() - i,
{
    if 0 <= i <= b.len() {
        let j = trivia_end(b, i);
        proof {
            lemma_trivia_end(b, i);
        }
        if j >= b.len() {
            None
        } else if b[j] == 0x7d {
            Some((acc, open, j))
        } else if b[j] == 0x2c {
            members(b, j + 1, acc, open)
        } else {
            proof {
                lemma_ident_end(b, j);
                if b[j] == 0x22 || b[j] == 0x27 {
                    lemma_string_close(b, j + 1, b[j]);
                }
            }
            match key_token(b, j) {
                None => None,
                Some((key, k)) => {
                    let c = trivia_end(b, k);
                    proof {
                        lemma_trivia_end(b, k);
                    }
                    if c >= b.len() || b[c] != 0x3a {
                        None
                    } else {
                        let vs = trivia_end(b, c + 1);
                        proof {
                            lemma_trivia_end(b, c + 1);
                            lemma_value_end(b, vs);
                        }
                        match value_end(b, vs) {
                            None => None,
                            Some(e) => members(
                                b,
                                e,
                                acc.push(SpanModel { key, start: j, value_start: vs, end: e }),
                                open,
                            ),
                        }
                    }
                }
            }
        }
    } else {
        None
    }
}

/// The top-level object of `b`: its members in order, and the offsets of its
/// opening and closing braces. `None` when `b` (after leading whitespace and
/// comments) is not a well-delimited object.
pub open spec fn spec_top_level_spans(b: Seq<u8>) -> Option<(Seq<SpanModel>, int, int)> {
    let i = trivia_end(b, 0);
    if i >= b.len() || b[i] != 0x7b {
        None
    } else {
        members(b, i + 1, seq![], i)
    }
}

/// Why the members from offset `i` on fail to scan (meaningful where
/// `members(b, i, acc, open)` is `None`, whatever `acc` and `open`).
pub open spec fn members_error(b: Seq<u8>, i: int) -> Seq<char>
    decreases b.len() - i,
{
    if 0 <= i <= b.len() {
        let j = trivia_end(b, i);
        proof {
            lemma_trivia_end(b, i);
        }
        if j >= b.len() {
            "unterminated top-level object"@
        } else if b[j] == 0x2c {
            members_error(b, j + 1)
        } else {
            proof {
                lemma_ident_end(b, j);
                if b[j] == 0x22 || b[j] == 0x27 {
                    lemma_string_close(b, j + 1, b[j]);
                }
            }
            match key_token(b, j) {
                None => if b[j] == 0x22 || b[j] == 0x27 {
                    unterminated_string()
                } else {
                    "unexpected character at byte "@ + crate::text::decimal(j as nat)
                },
                Some((key, k)) => {
                    let c = trivia_end(b, k);
                    proof {
                        lemma_trivia_end(b, k);
                    }
                    if c >= b.len() || b[c] != 0x3a {
                        "expected ':' after key '"@ + key + "'"@
                    } else {
                        let vs = trivia_end(b, c + 1);
                        proof {
                            lemma_trivia_end(b, c + 1);
                            lemma_value_end(b, vs);
                        }
                        match value_end(b, vs) {
                            None => value_error(b, vs),
                            Some(e) => members_error(b, e),
                        }
                    }
                },
            }
        }
    } else {
        "unterminated top-level object"@
    }
}

/// Why `b` does not scan as a top-level object (meaningful where
/// `spec_top_level_spans(b)` is `None`).
pub open spec fn scan_error(b: Seq<u8>) -> Seq<char> {
    let i = trivia_end(b, 0);
    if i >= b.len() || b[i] != 0x7b {
        "config does not start with '{'"@
    } else {
        members_error(b, i + 1)
    }
}

/// The views of a sequence of spans.
pub open spec fn span_models(spans: Seq<KeySpan>) -> Seq<SpanModel> {
    spans.map_values(|s: KeySpan| s@)
}

/// Scan the top-level object and return each key with its value span, plus
/// the byte offsets of the opening and closing braces.
pub fn top_level_spans(text: &str) -> (r: Result<(Vec<KeySpan>, usize, usize), String>)
    ensures
        match spec_top_level_spans(text.spec_bytes()) {
            Some((m, open, close)) => r is Ok && span_models(r->Ok_0.0@) == m && r->Ok_0.1 == open
                && r->Ok_0.2 == close,
            None => r matches Err(m) && m@ == scan_error(text.spec_bytes()),
        },
{
    let b = text.as_bytes();
    let ghost bytes = b@;
    proof {
        encode_utf8_valid_utf8(text@);
    }
    let mut i = skip_ws_and_comments(b, 0);
    proof {
        lemma_trivia_end(bytes, 0);
    }
    if i >= b.len() || b[i] != LBRACE {
        return Err(err("config does not start with '{'"));
    }
    let open = i;
    i = i + 1;
    let mut spans: Vec<KeySpan> = Vec::new();
    assert(span_models(spans@) =~= Seq::<SpanModel>::empty());
    loop
        invariant
            bytes == b@,
            bytes == text.spec_bytes(),
            valid_utf8(bytes),
            open < i <= bytes.len(),
            spec_top_level_spans(bytes) == members(bytes, i as int, span_models(spans@), open as int),
            scan_error(bytes) == members_error(bytes, i as int),
        decreases bytes.len() - i,
    {
        proof {
            lemma_trivia_end(bytes, i as int);
        }
        i = skip_ws_and_comments(b, i);
        if i >= b.len() {
            return Err(err("unterminated top-level object"));
        }
        if b[i] == RBRACE {
            return Ok((spans, open, i));
        }
        if b[i] == COMMA {
            i = i + 1;
            continue ;
        }
        let start = i;
        proof {
            lemma_ident_end(bytes, start as int);
        }
        let key: String;
        if b[i] == DQUOTE || b[i] == SQUOTE {
            proof {
                lemma_string_close(bytes, i + 1, bytes[i as int]);
            }
            let end = match skip_string(b, i) {
                Ok(e) => e,
                Err(m) => {
                    return Err(m);
                },
            };
            proof {
                lemma_after_ascii(bytes, start as int);
            }
            key = substring(text, i + 1, end - 1);
            proof {
                encode_utf8_decode_utf8(key@);
            }
            i = end;
        } else {
            let s0 = i;
            while i < b.len() && is_ident(b[i])
                invariant
                    s0 <= i <= bytes.len(),
                    bytes == b@,
                    ident_end(bytes, s0 as int) == ident_end(bytes, i as int),
                decreases bytes.len() - i,
            {
                i = i + 1;
            }
            if i == s0 {
                let mut m = err("unexpected character at byte ");
                crate::text::push_decimal(&mut m, i as u64);
                return Err(m);
            }
            proof {
                lemma_after_ascii(bytes, i - 1);
            }
            key = substring(text, s0, i);
            proof {
                encode_utf8_decode_utf8(key@);
            }
        }
        proof {
            lemma_trivia_end(bytes, i as int);
        }
        i = skip_ws_and_comments(b, i);
        if i >= b.len() || b[i] != COLON {
            let mut m = err("expected ':' after key '");
            m.append(key.as_str());
            m.append("'");
            return Err(m);
        }
        i = i + 1;
        let value_start = skip_ws_and_comments(b, i);
        proof {
            lemma_trivia_end(bytes, i as int);
            lemma_value_end(bytes, value_start as int);
        }
        let end = match skip_value(b, value_start) {
            Ok(e) => e,
            Err(m) => {
                return Err(m);
            },
        };
        let ghost before = span_models(spans@);
        spans.push(KeySpan { key, start, value_start, end });
        assert(span_models(spans@) =~= before.push(spans@.last()@));
        i = end;
    }
}

/// Exec form of [`is_ident_byte`].
fn is_ident(c: u8) -> (r: bool)
    ensures
        r == is_ident_byte(c),
{
    (0x30 <= c && c <= 0x39) || (0x41 <= c && c <= 0x5a) || (0x61 <= c && c <= 0x7a) || c == 0x5f
        || c == 0x24 || c == 0x2d
}

/// Where the line that starts at char `i` ends: its `\n`, or the end.
pub open spec fn line_end(s: Seq<char>, i: int) -> int
    decreases s.len() - i,
{
    if 0 <= i < s.len() && s[i] != '\n' {
        line_end(s, i + 1)
    } else {
        i
    }
}

/// Where the run of whitespace that starts at char `i` stops (at most `e`).
pub open spec fn space_run_end(s: Seq<char>, i: int, e: int) -> int
    decreases e - i,
{
    if 0 <= i < e && i < s.len() && is_unicode_space(s[i]) {
        space_run_end(s, i + 1, e)
    } else {
        i
    }
}

/// The indentation of the first line, from char `i` on, that starts with
/// whitespace and holds something else too; four spaces when there is none.
pub open spec fn indent_from(s: Seq<char>, i: int) -> Seq<char>
    decreases s.len() + 1 - i,
{
    if 0 <= i < s.len() {
        let e = line_end(s, i);
        let w = space_run_end(s, i, e);
        proof {
            lemma_line_end(s, i);
            lemma_space_run_end(s, i, e);
        }
        if i < w < e {
            s.subrange(i, w)
        } else {
            proof {
                lemma_line_end(s, i);
            }
            indent_from(s, e + 1)
        }
    } else {
        seq![' ', ' ', ' ', ' ']
    }
}

pub proof fn lemma_line_end(s: Seq<char>, i: int)
    requires
        0 <= i <= s.len(),
    ensures
        i <= line_end(s, i) <= s.len(),
    decreases s.len() - i,
{
    if 0 <= i < s.len() && s[i] != '\n' {
        lemma_line_end(s, i + 1);
    }
}

pub proof fn lemma_space_run_end(s: Seq<char>, i: int, e: int)
    requires
        0 <= i <= e <= s.len(),
    ensures
        i <= space_run_end(s, i, e) <= e,
    decreases e - i,
{
    if 0 <= i < e && i < s.len() && is_unicode_space(s[i]) {
        lemma_space_run_end(s, i + 1, e);
    }
}

/// The indentation of the file's first indented line, or four spaces.
///
/// Lines are split at `\n`; a line counts when it starts with whitespace and
/// is not whitespace only (a trailing `\r` is whitespace, so it never changes
/// which line is picked or its indentation).
pub fn detect_indent(text: &str) -> (r: String)
    ensures
        r@ == indent_from(text@, 0),
{
    let s = crate::text::chars_of(text);
    let mut i: usize = 0;
    while i < s.len()
        invariant
            i <= s@.len(),
            s@ == text@,
            indent_from(text@, 0) == indent_from(s@, i as int),
        decreases s@.len() - i,
    {
        let mut e = i;
        while e < s.len() && s[e] != '\n'
            invariant
                i <= e <= s@.len(),
                line_end(s@, i as int) == line_end(s@, e as int),
            decreases s@.len() - e,
        {
            e = e + 1;
        }
        let mut w = i;
        while w < e && crate::text::is_space_char(s[w])
            invariant
                i <= w <= e <= s@.len(),
                space_run_end(s@, i as int, e as int) == space_run_end(s@, w as int, e as int),
            decreases e - w,
        {
            w = w + 1;
        }
        proof {
            lemma_line_end(s@, i as int);
            lemma_space_run_end(s@, i as int, e as int);
        }
        if i < w && w < e {
            return crate::text::string_from_chars(&s, i, w);
        }
        assert(indent_from(s@, i as int) == indent_from(s@, e + 1));
        if e < s.len() {
            i = e + 1;
        } else {
            i = s.len();
        }
    }
    let mut r = String::new();
    r.append("    ");
    proof {
        reveal_strlit("    ");
    }
    assert(r@ =~= seq![' ', ' ', ' ', ' ']);
    r
}

/// The JSON escape of one character.
pub open spec fn escape_char(c: char) -> Seq<char> {
    if c == '"' {
        seq!['\\', '"']
    } else if c == '\\' {
        seq!['\\', '\\']
    } else if c == '\n' {
        seq!['\\', 'n']
    } else if c == '\r' {
        seq!['\\', 'r']
    } else if c == '\t' {
        seq!['\\', 't']
    } else if (c as u32) < 0x20 {
        seq!['\\', 'u'] + crate::text::hex_fixed(c as u32 as nat, 4)
    } else {
        seq![c]
    }
}

/// `s` escaped for inclusion inside double quotes in JSON text.
pub open spec fn json_escaped(s: Seq<char>) -> Seq<char>
    decreases s.len(),
{
    if s.len() == 0 {
        seq![]
    } else {
        json_escaped(s.drop_last()) + escape_char(s.last())
    }
}

/// Escaping leaves no control character (nothing below U+0020), and text
/// with no quote, backslash or control character comes back unchanged.
pub proof fn lemma_json_escaped(s: Seq<char>)
    ensures
        forall|k: int| 0 <= k < json_escaped(s).len() ==> (#[trigger] json_escaped(s)[k]) as u32 >= 0x20,
        (forall|k: int| 0 <= k < s.len() ==> (#[trigger] s[k]) != '"' && s[k] != '\\' && s[k] as u32
            >= 0x20) ==> json_escaped(s) == s,
    decreases s.len(),
{
    if s.len() > 0 {
        let c = s.last();
        let e = escape_char(c);
        lemma_json_escaped(s.drop_last());
        crate::text::lemma_hex_fixed(c as u32 as nat, 4);
        assert forall|k: int| 0 <= k < e.len() implies (#[trigger] e[k]) as u32 >= 0x20 by {
            if (c as u32) < 0x20 && c != '\n' && c != '\r' && c != '\t' && c != '"' && c != '\\' {
                if k >= 2 {
                    assert(e[k] == crate::text::hex_fixed(c as u32 as nat, 4)[k - 2]);
                    assert(crate::text::is_hex_digit(crate::text::hex_fixed(c as u32 as nat, 4)[k - 2]));
                }
            }
        }
        let p = json_escaped(s.drop_last());
        assert forall|k: int| 0 <= k < json_escaped(s).len() implies (#[trigger] json_escaped(s)[k]) as u32
            >= 0x20 by {
            if k < p.len() {
                assert(json_escaped(s)[k] == p[k]);
            } else {
                assert(json_escaped(s)[k] == e[k - p.len()]);
            }
        }
        if forall|k: int| 0 <= k < s.len() ==> (#[trigger] s[k]) != '"' && s[k] != '\\' && s[k] as u32
            >= 0x20 {
            assert forall|k: int| 0 <= k < s.drop_last().len() implies (#[trigger] s.drop_last()[k])
                != '"' && s.drop_last()[k] != '\\' && s.drop_last()[k] as u32 >= 0x20 by {
                assert(s.drop_last()[k] == s[k]);
            }
            assert(s[s.len() - 1] == c);
            assert(json_escaped(s) =~= s);
        }
    }
}

/// Escape a string for inclusion inside double quotes in JSON text.
pub fn json_escape(s: &str) -> (out: String)
    ensures
        out@ == json_escaped(s@),
{
    let cs = crate::text::chars_of(s);
    let mut out = String::new();
    let mut k: usize = 0;
    while k < cs.len()
        invariant
            k <= cs@.len(),
            cs@ == s@,
            out@ == json_escaped(cs@.take(k as int)),
        decreases cs@.len() - k,
    {
        let c = cs[k];
        let ghost before = out@;
        if c == '"' {
            crate::text::push_char(&mut out, '\\');
            crate::text::push_char(&mut out, '"');
        } else if c == '\\' {
            crate::text::push_char(&mut out, '\\');
            crate::text::push_char(&mut out, '\\');
        } else if c == '\n' {
            crate::text::push_char(&mut out, '\\');
            crate::text::push_char(&mut out, 'n');
        } else if c == '\r' {
            crate::text::push_char(&mut out, '\\');
            crate::text::push_char(&mut out, 'r');
        } else if c == '\t' {
            crate::text::push_char(&mut out, '\\');
            crate::text::push_char(&mut out, 't');
        } else if (c as u32) < 0x20 {
            crate::text::push_char(&mut out, '\\');
            crate::text::push_char(&mut out, 'u');
            crate::text::push_hex_fixed(&mut out, c as u32 as u64, 4);
        } else {
            crate::text::push_char(&mut out, c);
        }
        assert(out@ =~= before + escape_char(c));
        assert(cs@.take(k + 1).drop_last() =~= cs@.take(k as int));
        k = k + 1;
    }
    assert(cs@.take(k as int) =~= s@);
    out
}

/// FNV-1a (64-bit) over `b`.
pub open spec fn fnv1a(b: Seq<u8>) -> u64
    decreases b.len(),
{
    if b.len() == 0 {
        0xcbf2_9ce4_8422_2325u64
    } else {
        (fnv1a(b.drop_last()) ^ (b.last() as u64)).wrapping_mul(0x0000_0100_0000_01b3u64)
    }
}

/// FNV-1a 64 over the raw text, as 16 lower-case hex digits. Used to detect
/// concurrent hand-edits between reading and applying; not cryptographic.
pub fn content_hash(text: &str) -> (out: String)
    ensures
        out@ == crate::text::hex_fixed(fnv1a(text.spec_bytes()) as nat, 16),
{
    let b = text.as_bytes();
    let mut h: u64 = 0xcbf2_9ce4_8422_2325;
    let mut k: usize = 0;
    while k < b.len()
        invariant
            k <= b@.len(),
            b@ == text.spec_bytes(),
            h == fnv1a(b@.take(k as int)),
        decreases b@.len() - k,
    {
        assert(b@.take(k + 1).drop_last() =~= b@.take(k as int));
        h = h ^ (b[k] as u64);
        h = h.wrapping_mul(0x0000_0100_0000_01b3);
        k = k + 1;
    }
    assert(b@.take(k as int) =~= b@);
    let mut out = String::new();
    crate::text::push_hex_fixed(&mut out, h, 16);
    assert(out@ =~= crate::text::hex_fixed(h as nat, 16));
    out
}

/// `m` in double quotes, JSON-escaped.
pub open spec fn quoted(m: Seq<char>) -> Seq<char> {
    seq!['"'] + json_escaped(m) + seq!['"']
}

/// Module names as a comma-separated list of quoted strings.
pub open spec fn quoted_list(mods: Seq<Seq<char>>) -> Seq<char>
    decreases mods.len(),
{
    if mods.len() == 0 {
        seq![]
    } else if mods.len() == 1 {
        quoted(mods[0])
    } else {
        quoted_list(mods.drop_last()) + seq![',', ' '] + quoted(mods.last())
    }
}

/// One monitor's entry: `"<index>": { "modules": [...] }` at two indents.
pub open spec fn monitor_line(indent: Seq<char>, index: usize, mods: Seq<Seq<char>>) -> Seq<char> {
    indent + indent + seq!['"'] + crate::text::decimal(index as nat) + "\": { \"modules\": ["@
        + quoted_list(mods) + "] }"@
}

/// The entries' lines, joined by `,` and a line break.
pub open spec fn monitor_lines(indent: Seq<char>, entries: Seq<(usize, Seq<Seq<char>>)>) -> Seq<
    char,
>
    decreases entries.len(),
{
    if entries.len() == 0 {
        seq![]
    } else if entries.len() == 1 {
        monitor_line(indent, entries[0].0, entries[0].1)
    } else {
        monitor_lines(indent, entries.drop_last()) + seq![',', '\n'] + monitor_line(
            indent,
            entries.last().0,
            entries.last().1,
        )
    }
}

/// A monitors map as config text: `{}` when empty, otherwise one entry per
/// line with the closing brace at one indent.
pub open spec fn monitors_text(indent: Seq<char>, entries: Seq<(usize, Seq<Seq<char>>)>) -> Seq<
    char,
> {
    if entries.len() == 0 {
        "{}"@
    } else {
        "{\n"@ + monitor_lines(indent, entries) + seq!['\n'] + indent + seq!['}']
    }
}

/// The texts of a list of strings.
pub open spec fn texts(v: Seq<String>) -> Seq<Seq<char>> {
    v.map_values(|s: String| s@)
}

/// `entries` lists every entry of `m` exactly once, in increasing key order.
pub open spec fn sorted_entries_of(m: Map<usize, Vec<String>>, entries: Seq<(usize, Seq<Seq<char>>)>) -> bool {
    &&& forall|i: int, j: int| 0 <= i < j < entries.len() ==> entries[i].0 < entries[j].0
    &&& forall|i: int|
        0 <= i < entries.len() ==> m.contains_key(#[trigger] entries[i].0) && entries[i].1 == texts(
            m[entries[i].0]@,
        )
    &&& forall|k: usize| #[trigger]
        m.contains_key(k) ==> exists|i: int| 0 <= i < entries.len() && (#[trigger] entries[i]).0 == k
}

proof fn lemma_keys_increasing(v: Seq<(&usize, &Vec<String>)>)
    requires
        increasing_seq(v.map_values(|kv: (&usize, &Vec<String>)| *kv.0)),
    ensures
        forall|i: int, j: int| 0 <= i < j < v.len() ==> *v[i].0 < *v[j].0,
{
    broadcast use vstd::laws_cmp::group_laws_cmp;
    let ks = v.map_values(|kv: (&usize, &Vec<String>)| *kv.0);
    assert forall|i: int, j: int| 0 <= i < j < v.len() implies *v[i].0 < *v[j].0 by {
        assert(ks[i] == *v[i].0);
        assert(ks[j] == *v[j].0);
        assert(ks[i].cmp_spec(&ks[j]) is Less);
    }
}

fn push_quoted_list(out: &mut String, mods: &Vec<String>)
    ensures
        final(out)@ == old(out)@ + quoted_list(texts(mods@)),
{
    let mut k: usize = 0;
    while k < mods.len()
        invariant
            k <= mods@.len(),
            out@ == old(out)@ + quoted_list(texts(mods@.take(k as int))),
        decreases mods@.len() - k,
    {
        let ghost before = out@;
        if k > 0 {
            out.append(", ");
        }
        crate::text::push_char(out, '"');
        let esc = json_escape(mods[k].as_str());
        out.append(esc.as_str());
        crate::text::push_char(out, '"');
        proof {
            reveal_strlit(", ");
            assert(texts(mods@.take(k + 1)).drop_last() =~= texts(mods@.take(k as int)));
            assert(texts(mods@.take(k + 1)).last() == mods@[k as int]@);
            if k == 0 {
                assert(quoted_list(texts(mods@.take(0))) =~= Seq::<char>::empty());
            }
        }
        assert(out@ =~= old(out)@ + quoted_list(texts(mods@.take(k + 1))));
        k = k + 1;
    }
    assert(mods@.take(k as int) =~= mods@);
}

/// Pretty-print a monitors map in the config's `{ "0": { "modules": [...] } }`
/// shape, using `indent` per level (the value sits one level deep already).
fn format_monitors(map: &std::collections::BTreeMap<usize, Vec<String>>, indent: &str) -> (out:
    String)
    ensures
        exists|entries: Seq<(usize, Seq<Seq<char>>)>|
            sorted_entries_of(map@, entries) && out@ == monitors_text(indent@, entries),
{
    if map.is_empty() {
        let mut e = String::new();
        e.append("{}");
        assert(sorted_entries_of(map@, Seq::<(usize, Seq<Seq<char>>)>::empty()));
        return e;
    }
    let mut body = String::new();
    let ghost mut entries: Seq<(usize, Seq<Seq<char>>)> = seq![];
    let mut first = true;
    let iter = map.iter();
    proof {
        lemma_keys_increasing(iter.remaining());
    }
    for (index, mods) in it: iter
        invariant
            entries.len() == it.index(),
            first == (entries.len() == 0),
            forall|i: int|
                0 <= i < it.seq().len() ==> #[trigger] map@.contains_key(*it.seq()[i].0)
                    && map@[*it.seq()[i].0] == *it.seq()[i].1,
            forall|k: usize| #[trigger]
                map@.contains_key(k) ==> it.seq().contains((&k, &map@[k])),
            forall|k: usize| #[trigger]
                map@.contains_key(k) ==> exists|i: int|
                    0 <= i < it.seq().len() && #[trigger] it.seq()[i] == (&k, &map@[k]),
            forall|i: int, j: int|
                0 <= i < j < it.seq().len() ==> *it.seq()[i].0 < *it.seq()[j].0,
            forall|i: int|
                #![trigger entries[i]]
                #![trigger it.seq()[i]]
                0 <= i < entries.len() ==> entries[i] == (*it.seq()[i].0, texts(it.seq()[i].1@)),
            body@ == monitor_lines(indent@, entries),
        ensures
            entries.len() == it.seq().len(),
            forall|i: int, j: int| 0 <= i < j < entries.len() ==> entries[i].0 < entries[j].0,
            forall|i: int|
                0 <= i < entries.len() ==> map@.contains_key(#[trigger] entries[i].0) && entries[i].1
                    == texts(map@[entries[i].0]@),
            forall|k: usize| #[trigger]
                map@.contains_key(k) ==> exists|i: int|
                    0 <= i < entries.len() && (#[trigger] entries[i]).0 == k,
    {
        let ghost before = body@;
        if !first {
            body.append(",\n");
        }
        first = false;
        body.append(indent);
        body.append(indent);
        crate::text::push_char(&mut body, '"');
        crate::text::push_decimal(&mut body, *index as u64);
        body.append("\": { \"modules\": [");
        push_quoted_list(&mut body, mods);
        body.append("] }");
        proof {
            reveal_strlit(",\n");
            let ghost e = (*index, texts(mods@));
            let ghost old_entries = entries;
            entries = entries.push(e);
            assert(entries.drop_last() =~= old_entries);
            assert(body@ =~= monitor_lines(indent@, entries));
        }
    }
    let mut out = String::new();
    out.append("{\n");
    out.append(body.as_str());
    crate::text::push_char(&mut out, '\n');
    out.append(indent);
    crate::text::push_char(&mut out, '}');
    proof {
        let k = map@.dom().choose();
        assert(map@.dom().len() > 0);
        assert(map@.contains_key(k));
        assert(entries.len() > 0);
        assert(out@ =~= monitors_text(indent@, entries));
        assert(sorted_entries_of(map@, entries));
    }
    out
}

/// The offsets of a member lie in order inside the text.
pub open spec fn span_in_bounds(b: Seq<u8>, s: SpanModel) -> bool {
    0 <= s.start < s.value_start < s.end <= b.len()
}

pub proof fn lemma_members(b: Seq<u8>, i: int, acc: Seq<SpanModel>, open: int)
    requires
        forall|k: int| 0 <= k < acc.len() ==> span_in_bounds(b, #[trigger] acc[k]),
    ensures
        members(b, i, acc, open) matches Some((m, o, c)) ==> (forall|k: int|
            0 <= k < m.len() ==> span_in_bounds(b, #[trigger] m[k])) && o == open && 0 <= c < b.len(),
    decreases b.len() - i,
{
    if 0 <= i <= b.len() {
        let j = trivia_end(b, i);
        lemma_trivia_end(b, i);
        if j < b.len() && b[j] != 0x7d {
            if b[j] == 0x2c {
                lemma_members(b, j + 1, acc, open);
            } else {
                lemma_ident_end(b, j);
                if b[j] == 0x22 || b[j] == 0x27 {
                    lemma_string_close(b, j + 1, b[j]);
                }
                if let Some((key, k)) = key_token(b, j) {
                    let c = trivia_end(b, k);
                    lemma_trivia_end(b, k);
                    if c < b.len() && b[c] == 0x3a {
                        let vs = trivia_end(b, c + 1);
                        lemma_trivia_end(b, c + 1);
                        lemma_value_end(b, vs);
                        if let Some(e) = value_end(b, vs) {
                            let sp = SpanModel { key, start: j, value_start: vs, end: e };
                            let acc2 = acc.push(sp);
                            assert forall|k: int| 0 <= k < acc2.len() implies span_in_bounds(
                                b,
                                #[trigger] acc2[k],
                            ) by {
                                if k < acc.len() {
                                    assert(acc2[k] == acc[k]);
                                }
                            }
                            lemma_members(b, e, acc2, open);
                        }
                    }
                }
            }
        }
    }
}

/// Every member the scan finds lies in order inside the text.
pub proof fn lemma_spans_in_bounds(b: Seq<u8>)
    ensures
        spec_top_level_spans(b) matches Some((m, o, c)) ==> (forall|k: int|
            0 <= k < m.len() ==> span_in_bounds(b, #[trigger] m[k])) && 0 <= o < c < b.len() && b[o]
            == 0x7b,
{
    let i = trivia_end(b, 0);
    lemma_trivia_end(b, 0);
    if i < b.len() && b[i] == 0x7b {
        lemma_members(b, i + 1, seq![], i);
        lemma_members_close_after_open(b, i + 1, seq![], i);
    }
}

pub proof fn lemma_members_close_after_open(b: Seq<u8>, i: int, acc: Seq<SpanModel>, open: int)
    requires
        open < i,
    ensures
        members(b, i, acc, open) matches Some((m, o, c)) ==> open < c,
    decreases b.len() - i,
{
    if 0 <= i <= b.len() {
        let j = trivia_end(b, i);
        lemma_trivia_end(b, i);
        if j < b.len() && b[j] != 0x7d {
            if b[j] == 0x2c {
                lemma_members_close_after_open(b, j + 1, acc, open);
            } else {
                lemma_ident_end(b, j);
                if b[j] == 0x22 || b[j] == 0x27 {
                    lemma_string_close(b, j + 1, b[j]);
                }
                if let Some((key, k)) = key_token(b, j) {
                    let c = trivia_end(b, k);
                    lemma_trivia_end(b, k);
                    if c < b.len() && b[c] == 0x3a {
                        let vs = trivia_end(b, c + 1);
                        lemma_trivia_end(b, c + 1);
                        lemma_value_end(b, vs);
                        if let Some(e) = value_end(b, vs) {
                            lemma_members_close_after_open(
                                b,
                                e,
                                acc.push(SpanModel { key, start: j, value_start: vs, end: e }),
                                open,
                            );
                        }
                    }
                }
            }
        }
    }
}

/// The members `m` lie in order strictly inside `(open, close]`: each key
/// before its value, and each member ending before the next one starts.
pub open spec fn spans_ordered(m: Seq<SpanModel>, open: int, close: int) -> bool {
    &&& forall|k: int|
        0 <= k < m.len() ==> open < (#[trigger] m[k]).start < m[k].value_start < m[k].end <= close
    &&& forall|k: int, l: int| 0 <= k < l < m.len() ==> (#[trigger] m[k]).end <= (#[trigger] m[l]).start
}

proof fn lemma_members_ordered(b: Seq<u8>, i: int, acc: Seq<SpanModel>, open: int)
    requires
        0 <= open < i,
        spans_ordered(acc, open, i),
    ensures
        members(b, i, acc, open) matches Some((m, o, c)) ==> o == open && i <= c && spans_ordered(m, open, c),
    decreases b.len() - i,
{
    if 0 <= i <= b.len() {
        let j = trivia_end(b, i);
        lemma_trivia_end(b, i);
        if j < b.len() && b[j] != 0x7d {
            if b[j] == 0x2c {
                lemma_members_ordered(b, j + 1, acc, open);
            } else {
                lemma_ident_end(b, j);
                if b[j] == 0x22 || b[j] == 0x27 {
                    lemma_string_close(b, j + 1, b[j]);
                }
                if let Some((key, k)) = key_token(b, j) {
                    let c = trivia_end(b, k);
                    lemma_trivia_end(b, k);
                    if c < b.len() && b[c] == 0x3a {
                        let vs = trivia_end(b, c + 1);
                        lemma_trivia_end(b, c + 1);
                        lemma_value_end(b, vs);
                        if let Some(e) = value_end(b, vs) {
                            let sp = SpanModel { key, start: j, value_start: vs, end: e };
                            let acc2 = acc.push(sp);
                            assert(spans_ordered(acc2, open, e)) by {
                                assert forall|a: int| 0 <= a < acc2.len() implies open < (
                                #[trigger] acc2[a]).start < acc2[a].value_start < acc2[a].end <= e by {
                                    if a < acc.len() {
                                        assert(acc2[a] == acc[a]);
                                    }
                                }
                                assert forall|a: int, l: int| 0 <= a < l < acc2.len() implies (
                                #[trigger] acc2[a]).end <= (#[trigger] acc2[l]).start by {
                                    assert(acc2[a] == acc[a]);
                                    if l < acc.len() {
                                        assert(acc2[l] == acc[l]);
                                    }
                                }
                            }
                            lemma_members_ordered(b, e, acc2, open);
                        }
                    }
                }
            }
        }
    }
}

/// Each member of `m` starts with a key token that reads as its key, and its
/// value is one whole value, ending at its end.
pub open spec fn spans_tokens(b: Seq<u8>, m: Seq<SpanModel>) -> bool {
    forall|k: int|
        0 <= k < m.len() ==> (key_token(b, (#[trigger] m[k]).start) matches Some((key, _)) && key
            == m[k].key) && value_end(b, m[k].value_start) == Some(m[k].end)
}

proof fn lemma_members_tokens(b: Seq<u8>, i: int, acc: Seq<SpanModel>, open: int)
    requires
        spans_tokens(b, acc),
    ensures
        members(b, i, acc, open) matches Some((m, o, c)) ==> spans_tokens(b, m),
    decreases b.len() - i,
{
    if 0 <= i <= b.len() {
        let j = trivia_end(b, i);
        lemma_trivia_end(b, i);
        if j < b.len() && b[j] != 0x7d {
            if b[j] == 0x2c {
                lemma_members_tokens(b, j + 1, acc, open);
            } else {
                lemma_ident_end(b, j);
                if b[j] == 0x22 || b[j] == 0x27 {
                    lemma_string_close(b, j + 1, b[j]);
                }
                if let Some((key, k)) = key_token(b, j) {
                    let c = trivia_end(b, k);
                    lemma_trivia_end(b, k);
                    if c < b.len() && b[c] == 0x3a {
                        let vs = trivia_end(b, c + 1);
                        lemma_trivia_end(b, c + 1);
                        lemma_value_end(b, vs);
                        if let Some(e) = value_end(b, vs) {
                            let sp = SpanModel { key, start: j, value_start: vs, end: e };
                            let acc2 = acc.push(sp);
                            assert forall|a: int| 0 <= a < acc2.len() implies (key_token(
                                b,
                                (#[trigger] acc2[a]).start,
                            ) matches Some((kk, _)) && kk == acc2[a].key) && value_end(
                                b,
                                acc2[a].value_start,
                            ) == Some(acc2[a].end) by {
                                if a < acc.len() {
                                    assert(acc2[a] == acc[a]);
                                }
                            }
                            lemma_members_tokens(b, e, acc2, open);
                        }
                    }
                }
            }
        }
    }
}

/// The scan of a text finds its object after nothing but whitespace and
/// comments, opening with `{` and closing with `}`, and its members in order
/// strictly between the braces: each key before its value, and each member
/// ending before the next begins. Each member starts with the key token that
/// reads as its key, and its value is one whole value.
pub proof fn lemma_spans_ordered(b: Seq<u8>)
    ensures
        spec_top_level_spans(b) matches Some((m, o, c)) ==> {
            &&& o == trivia_end(b, 0)
            &&& 0 <= o < c < b.len()
            &&& b[o] == 0x7b
            &&& b[c] == 0x7d
            &&& spans_ordered(m, o, c)
            &&& spans_tokens(b, m)
        },
{
    let i = trivia_end(b, 0);
    lemma_trivia_end(b, 0);
    if i < b.len() && b[i] == 0x7b {
        lemma_members_tokens(b, i + 1, seq![], i);
        lemma_members_ordered(b, i + 1, seq![], i);
        lemma_members_tail(b, i + 1, seq![], i);
        lemma_spans_in_bounds(b);
    }
}

/// The first member named `key`.
pub open spec fn find_key(spans: Seq<SpanModel>, key: Seq<char>) -> Option<SpanModel>
    decreases spans.len(),
{
    if spans.len() == 0 {
        None
    } else if spans[0].key == key {
        Some(spans[0])
    } else {
        find_key(spans.drop_first(), key)
    }
}

pub proof fn lemma_find_key(spans: Seq<SpanModel>, key: Seq<char>)
    ensures
        find_key(spans, key) matches Some(s) ==> spans.contains(s) && s.key == key,
        find_key(spans, key) is None ==> forall|k: int| 0 <= k < spans.len() ==> spans[k].key != key,
    decreases spans.len(),
{
    if spans.len() > 0 && spans[0].key != key {
        lemma_find_key(spans.drop_first(), key);
        if let Some(s) = find_key(spans.drop_first(), key) {
            let k = choose|k: int| 0 <= k < spans.drop_first().len() && spans.drop_first()[k] == s;
            assert(spans[k + 1] == s);
        }
        assert forall|k: int| 0 <= k < spans.len() && find_key(spans, key) is None implies spans[k].key
            != key by {
            if k > 0 {
                assert(spans[k] == spans.drop_first()[k - 1]);
            }
        }
    }
}

/// The index of the first span named `key`.
fn find_span(spans: &Vec<KeySpan>, key: &String) -> (r: Option<usize>)
    ensures
        match find_key(span_models(spans@), key@) {
            Some(s) => r matches Some(k) && k < spans@.len() && spans@[k as int]@ == s,
            None => r is None,
        },
{
    let ghost models = span_models(spans@);
    let mut k: usize = 0;
    assert(models.subrange(0, models.len() as int) =~= models);
    while k < spans.len()
        invariant
            k <= spans@.len(),
            models == span_models(spans@),
            find_key(models, key@) == find_key(models.subrange(k as int, models.len() as int), key@),
        decreases spans@.len() - k,
    {
        let ghost rest = models.subrange(k as int, models.len() as int);
        assert(rest[0] == spans@[k as int]@);
        if spans[k].key == *key {
            return Some(k);
        }
        assert(rest.drop_first() =~= models.subrange(k + 1, models.len() as int));
        k = k + 1;
    }
    None
}

/// Exec form of [`at_char_start`].
fn cut_ok(b: &[u8], p: usize) -> (r: bool)
    ensures
        r == at_char_start(b@, p as int),
{
    p <= b.len() && (p == b.len() || !(0x80 <= b[p] && b[p] <= 0xbf))
}

/// Offset just past the last `\n` before `p`, or 0.
pub open spec fn line_start(b: Seq<u8>, p: int) -> int
    decreases p,
{
    if p <= 0 {
        0
    } else if b[p - 1] == 0x0a {
        p
    } else {
        line_start(b, p - 1)
    }
}

/// Every byte in `[a, p)` is a space or a tab.
pub open spec fn blank_between(b: Seq<u8>, a: int, p: int) -> bool {
    forall|k: int| a <= k < p ==> b[k] == 0x20 || b[k] == 0x09
}

/// Where the run of spaces and tabs (and carriage returns, if `with_cr`)
/// that starts at `j` stops.
pub open spec fn blanks_end(b: Seq<u8>, j: int, with_cr: bool) -> int
    decreases b.len() - j,
{
    if 0 <= j < b.len() && (b[j] == 0x20 || b[j] == 0x09 || (with_cr && b[j] == 0x0d)) {
        blanks_end(b, j + 1, with_cr)
    } else {
        j
    }
}

/// Where removing the member that starts at `s` begins: at its line start
/// when only indentation precedes it on that line.
pub open spec fn removal_start(b: Seq<u8>, s: int) -> int {
    let ls = line_start(b, s);
    if blank_between(b, ls, s) {
        ls
    } else {
        s
    }
}

/// Where removing the member whose value ends at `e` stops: past a trailing
/// comma, and past the line break when the rest of the line is blank.
pub open spec fn removal_end(b: Seq<u8>, e: int) -> int {
    let j = blanks_end(b, e, false);
    let comma = 0 <= j < b.len() && b[j] == 0x2c;
    let end = if comma { j + 1 } else { e };
    let j2 = blanks_end(b, if comma { j + 1 } else { j }, true);
    if 0 <= j2 < b.len() && b[j2] == 0x0a {
        j2 + 1
    } else {
        end
    }
}

proof fn lemma_line_start(b: Seq<u8>, p: int)
    requires
        0 <= p <= b.len(),
    ensures
        0 <= line_start(b, p) <= p,
        line_start(b, p) == 0 || b[line_start(b, p) - 1] == 0x0a,
    decreases p,
{
    if p > 0 && b[p - 1] != 0x0a {
        lemma_line_start(b, p - 1);
    }
}

proof fn lemma_blanks_end(b: Seq<u8>, j: int, with_cr: bool)
    requires
        0 <= j <= b.len(),
    ensures
        j <= blanks_end(b, j, with_cr) <= b.len(),
        forall|k: int|
            j <= k < blanks_end(b, j, with_cr) ==> b[k] == 0x20 || b[k] == 0x09 || (with_cr && b[k]
                == 0x0d),
    decreases b.len() - j,
{
    if 0 <= j < b.len() && (b[j] == 0x20 || b[j] == 0x09 || (with_cr && b[j] == 0x0d)) {
        lemma_blanks_end(b, j + 1, with_cr);
    }
}

/// The byte offsets removed along with the member `[s, e)`.
fn removal_bounds(b: &[u8], s: usize, e: usize) -> (r: (usize, usize))
    requires
        s <= e <= b@.len(),
    ensures
        r.0 == removal_start(b@, s as int),
        r.1 == removal_end(b@, e as int),
        r.0 <= s <= e <= r.1 <= b@.len(),
{
    let mut ls = s;
    while ls > 0 && b[ls - 1] != NEWLINE
        invariant
            ls <= s <= b@.len(),
            line_start(b@, s as int) == line_start(b@, ls as int),
        decreases ls,
    {
        ls = ls - 1;
    }
    proof {
        lemma_line_start(b@, s as int);
    }
    let mut k = ls;
    while k < s && (b[k] == 0x20 || b[k] == 0x09)
        invariant
            ls <= k <= s <= b@.len(),
            blank_between(b@, ls as int, k as int),
        decreases s - k,
    {
        k = k + 1;
    }
    let start = if k == s {
        ls
    } else {
        s
    };
    let mut end = e;
    let mut j = e;
    while j < b.len() && (b[j] == 0x20 || b[j] == 0x09)
        invariant
            e <= j <= b@.len(),
            blanks_end(b@, e as int, false) == blanks_end(b@, j as int, false),
        decreases b@.len() - j,
    {
        j = j + 1;
    }
    if j < b.len() && b[j] == COMMA {
        end = j + 1;
        j = j + 1;
    }
    let ghost j1 = j;
    while j < b.len() && (b[j] == 0x20 || b[j] == 0x09 || b[j] == 0x0d)
        invariant
            j1 <= j <= b@.len(),
            blanks_end(b@, j1 as int, true) == blanks_end(b@, j as int, true),
        decreases b@.len() - j,
    {
        j = j + 1;
    }
    if j < b.len() && b[j] == NEWLINE {
        end = j + 1;
    }
    (start, end)
}

/// `b` without the bytes `[a, e)`.
pub open spec fn cut(b: Seq<u8>, a: int, e: int) -> Seq<u8> {
    b.subrange(0, a) + b.subrange(e, b.len() as int)
}

/// `b` with `[a, e)` replaced by the encoding of `s`.
pub open spec fn replace_bytes(b: Seq<u8>, a: int, e: int, s: Seq<char>) -> Seq<u8> {
    b.subrange(0, a) + encode_utf8(s) + b.subrange(e, b.len() as int)
}

/// Remove a top-level member, swallowing the line leftovers around it:
/// leading indentation, a trailing comma, and a now-blank line end. `None`
/// when a cut would fall inside a character.
pub open spec fn spec_remove_span(b: Seq<u8>, s: SpanModel) -> Option<Seq<u8>> {
    let a = removal_start(b, s.start);
    let e = removal_end(b, s.end);
    if at_char_start(b, a) && at_char_start(b, e) {
        Some(cut(b, a, e))
    } else {
        None
    }
}

/// Remove a top-level key and its value, swallowing the surrounding line
/// leftovers: leading indentation, a trailing comma, and a now-blank line end.
fn remove_span(text: &str, span: &KeySpan) -> (r: Option<String>)
    requires
        span.start <= span.end <= text.spec_bytes().len(),
    ensures
        match spec_remove_span(text.spec_bytes(), span@) {
            Some(out) => r matches Some(s) && encode_utf8(s@) == out,
            None => r is None,
        },
{
    let b = text.as_bytes();
    let (start, end) = removal_bounds(b, span.start, span.end);
    if !cut_ok(b, start) || !cut_ok(b, end) {
        return None;
    }
    let out = splice(text, start, end, "");
    proof {
        reveal_strlit("");
        assert(encode_utf8(""@) =~= Seq::<u8>::empty());
        assert(encode_utf8(out@) =~= cut(b@, start as int, end as int));
    }
    Some(out)
}

/// The `monitors` member inserted into an object that has none.
pub open spec fn monitors_member(value: Seq<char>, indent: Seq<char>) -> Seq<char> {
    seq!['\n'] + indent + "\"monitors\": "@ + value + seq![',']
}

/// The `monitors` member placed into the object: its value replaced when the
/// key exists, otherwise a new first member right after the opening brace.
/// `None` when a cut would fall inside a character.
pub open spec fn put_monitors(b: Seq<u8>, spans: Seq<SpanModel>, open: int, value: Seq<char>, indent: Seq<
    char,
>) -> Option<Seq<u8>> {
    match find_key(spans, "monitors"@) {
        Some(s) => if at_char_start(b, s.value_start) && at_char_start(b, s.end) {
            Some(replace_bytes(b, s.value_start, s.end, value))
        } else {
            None
        },
        None => Some(replace_bytes(b, open + 1, open + 1, monitors_member(value, indent))),
    }
}

/// The legacy top-level `modules` member removed, if there is one.
pub open spec fn drop_modules(b: Seq<u8>) -> Option<Seq<u8>> {
    match spec_top_level_spans(b) {
        None => None,
        Some((spans, _, _)) => match find_key(spans, "modules"@) {
            None => Some(b),
            Some(s) => spec_remove_span(b, s),
        },
    }
}

/// `b` with its `monitors` value set to `value` and its `modules` member
/// dropped; `None` when `b` does not scan as an object (before or after).
pub open spec fn spec_set_monitors(b: Seq<u8>, value: Seq<char>, indent: Seq<char>) -> Option<
    Seq<u8>,
> {
    match spec_top_level_spans(b) {
        None => None,
        Some((spans, open, _)) => match put_monitors(b, spans, open, value, indent) {
            None => None,
            Some(b1) => drop_modules(b1),
        },
    }
}

/// The message for an edit whose cut would fall inside a character.
pub open spec fn split_message() -> Seq<char> {
    "config text would be cut inside a character"@
}

/// Why setting the monitors fails (meaningful where `spec_set_monitors` is
/// `None`): the text does not scan, a cut falls inside a character, or the
/// edited text does not scan.
pub open spec fn set_monitors_error(b: Seq<u8>, value: Seq<char>, indent: Seq<char>) -> Seq<char> {
    match spec_top_level_spans(b) {
        None => scan_error(b),
        Some((spans, open, _)) => match put_monitors(b, spans, open, value, indent) {
            None => split_message(),
            Some(b1) => match spec_top_level_spans(b1) {
                None => scan_error(b1),
                Some(_) => split_message(),
            },
        },
    }
}

fn split_error() -> (e: String)
    ensures
        e@ == split_message(),
{
    err("config text would be cut inside a character")
}

/// Replace (or insert) the top-level `"monitors"` value and drop a legacy
/// top-level `"modules"` key. Everything else is preserved byte for byte.
pub fn set_monitors(text: &str, monitors: &std::collections::BTreeMap<usize, Vec<String>>) -> (r:
    Result<String, String>)
    ensures
        exists|entries: Seq<(usize, Seq<Seq<char>>)>|
            #![trigger sorted_entries_of(monitors@, entries)]
            sorted_entries_of(monitors@, entries) && match spec_set_monitors(
                text.spec_bytes(),
                monitors_text(indent_from(text@, 0), entries),
                indent_from(text@, 0),
            ) {
                Some(out) => r matches Ok(s) && encode_utf8(s@) == out,
                None => r matches Err(m) && m@ == set_monitors_error(
                    text.spec_bytes(),
                    monitors_text(indent_from(text@, 0), entries),
                    indent_from(text@, 0),
                ),
            },
{
    let indent = detect_indent(text);
    let value = format_monitors(monitors, indent.as_str());
    let ghost entries = choose|entries: Seq<(usize, Seq<Seq<char>>)>|
        sorted_entries_of(monitors@, entries) && value@ == monitors_text(indent@, entries);
    let b = text.as_bytes();
    let (spans, open, _close) = match top_level_spans(text) {
        Ok(t) => t,
        Err(m) => {
            return Err(m);
        },
    };
    proof {
        encode_utf8_valid_utf8(text@);
        lemma_spans_in_bounds(b@);
        lemma_find_key(span_models(spans@), "monitors"@);
        lemma_after_ascii(b@, open as int);
    }
    let monitors_key = String::from_str("monitors");
    let out = match find_span(&spans, &monitors_key) {
        Some(k) => {
            let vs = spans[k].value_start;
            let e = spans[k].end;
            assert(span_in_bounds(b@, span_models(spans@)[k as int]));
            if !cut_ok(b, vs) || !cut_ok(b, e) {
                return Err(split_error());
            }
            splice(text, vs, e, value.as_str())
        },
        None => {
            let mut block = String::new();
            crate::text::push_char(&mut block, '\n');
            block.append(indent.as_str());
            block.append("\"monitors\": ");
            block.append(value.as_str());
            crate::text::push_char(&mut block, ',');
            assert(block@ =~= seq!['\n'] + indent@ + "\"monitors\": "@ + value@ + seq![',']);
            splice(text, open + 1, open + 1, block.as_str())
        },
    };
    let (spans2, _, _) = match top_level_spans(out.as_str()) {
        Ok(t) => t,
        Err(m) => {
            return Err(m);
        },
    };
    proof {
        lemma_spans_in_bounds(encode_utf8(out@));
        lemma_find_key(span_models(spans2@), "modules"@);
    }
    let modules_key = String::from_str("modules");
    match find_span(&spans2, &modules_key) {
        Some(k) => {
            assert(span_in_bounds(encode_utf8(out@), span_models(spans2@)[k as int]));
            match remove_span(out.as_str(), &spans2[k]) {
                Some(o) => Ok(o),
                None => Err(split_error()),
            }
        },
        None => Ok(out),
    }
}

/// The comment placed above a module appended from the catalog.
pub open spec fn catalog_marker() -> Seq<char> {
    "// added from the Taskband catalog"@
}

/// A module definition as appended from the catalog: the marker comment on
/// its own line, then the member, each line indented.
pub open spec fn catalog_entry(name: Seq<char>, body: Seq<char>, indent: Seq<char>) -> Seq<char> {
    seq!['\n'] + indent + catalog_marker() + seq!['\n'] + indent + seq!['"'] + json_escaped(name)
        + "\": "@ + body + seq![',']
}

/// The definition block `append_module` inserts, and where. `None` when the
/// name is already defined, the text does not scan, or the insertion point
/// falls inside a character.
pub open spec fn spec_append_module(b: Seq<u8>, name: Seq<char>, body: Seq<char>, indent: Seq<char>) -> Option<
    Seq<u8>,
> {
    match spec_top_level_spans(b) {
        None => None,
        Some((spans, open, _)) => if exists|k: int| 0 <= k < spans.len() && (#[trigger] spans[k]).key == name {
            None
        } else {
            let entry = catalog_entry(name, body, indent);
            let (pos, block) = if spans.len() == 0 {
                (open + 1, entry + seq!['\n'])
            } else {
                let j = trivia_end(b, spans.last().end);
                if 0 <= j < b.len() && b[j] == 0x2c {
                    (j + 1, seq!['\n'] + entry)
                } else {
                    (spans.last().end, seq![',', '\n'] + entry)
                }
            };
            if at_char_start(b, pos) {
                Some(replace_bytes(b, pos, pos, block))
            } else {
                None
            }
        },
    }
}

/// Why appending a module fails (meaningful where `spec_append_module` is
/// `None`): the text does not scan, the name is already defined, or the
/// insertion point falls inside a character.
pub open spec fn append_module_error(b: Seq<u8>, name: Seq<char>) -> Seq<char> {
    match spec_top_level_spans(b) {
        None => scan_error(b),
        Some((spans, _, _)) => if exists|k: int| 0 <= k < spans.len() && (#[trigger] spans[k]).key == name {
            "module '"@ + name + "' is already defined"@
        } else {
            split_message()
        },
    }
}

/// Append a module definition (`body` is pre-indented object text) before the
/// closing brace, preceded by a catalog marker comment.
pub fn append_module(text: &str, name: &str, body: &str) -> (r: Result<String, String>)
    ensures
        match spec_append_module(text.spec_bytes(), name@, body@, indent_from(text@, 0)) {
            Some(out) => r matches Ok(s) && encode_utf8(s@) == out,
            None => r matches Err(m) && m@ == append_module_error(text.spec_bytes(), name@),
        },
{
    let (spans, open, _close) = match top_level_spans(text) {
        Ok(t) => t,
        Err(m) => {
            return Err(m);
        },
    };
    let b = text.as_bytes();
    proof {
        encode_utf8_valid_utf8(text@);
        lemma_spans_in_bounds(b@);
        lemma_after_ascii(b@, open as int);
    }
    let name_s = String::from_str(name);
    let mut k: usize = 0;
    while k < spans.len()
        invariant
            k <= spans@.len(),
            name_s@ == name@,
            spec_top_level_spans(text.spec_bytes()) == Some(
                (span_models(spans@), open as int, _close as int),
            ),
            forall|i: int| 0 <= i < k ==> spans@[i].key@ != name@,
        decreases spans@.len() - k,
    {
        if spans[k].key == name_s {
            let mut m = err("module '");
            m.append(name);
            m.append("' is already defined");
            assert(span_models(spans@)[k as int].key == name@);
            assert(exists|i: int|
                0 <= i < span_models(spans@).len() && (#[trigger] span_models(spans@)[i]).key
                    == name@);
            assert(spec_append_module(text.spec_bytes(), name@, body@, indent_from(text@, 0)) is None);
            return Err(m);
        }
        k = k + 1;
    }
    assert(!exists|i: int|
        0 <= i < span_models(spans@).len() && (#[trigger] span_models(spans@)[i]).key == name@);
    let indent = detect_indent(text);
    let key = json_escape(name);
    let mut entry = String::new();
    crate::text::push_char(&mut entry, '\n');
    entry.append(indent.as_str());
    entry.append("// added from the Taskband catalog");
    crate::text::push_char(&mut entry, '\n');
    entry.append(indent.as_str());
    crate::text::push_char(&mut entry, '"');
    entry.append(key.as_str());
    entry.append("\": ");
    entry.append(body);
    crate::text::push_char(&mut entry, ',');
    let ghost spec_entry = catalog_entry(name@, body@, indent@);
    assert(entry@ =~= spec_entry);
    let pos: usize;
    let mut block = String::new();
    if spans.len() == 0 {
        pos = open + 1;
        block.append(entry.as_str());
        crate::text::push_char(&mut block, '\n');
    } else {
        let last_end = spans[spans.len() - 1].end;
        assert(span_in_bounds(b@, span_models(spans@)[spans@.len() - 1]));
        let j = skip_ws_and_comments(b, last_end);
        if j < b.len() && b[j] == COMMA {
            pos = j + 1;
            crate::text::push_char(&mut block, '\n');
            block.append(entry.as_str());
            assert(block@ =~= seq!['\n'] + spec_entry);
        } else {
            pos = last_end;
            crate::text::push_char(&mut block, ',');
            crate::text::push_char(&mut block, '\n');
            block.append(entry.as_str());
            assert(block@ =~= seq![',', '\n'] + spec_entry);
        }
    }
    if !cut_ok(b, pos) {
        return Err(split_error());
    }
    assert(spans.len() == 0 ==> block@ =~= spec_entry + seq!['\n']);
    let out = splice(text, pos, pos, block.as_str());
    assert(encode_utf8(out@) == replace_bytes(b@, pos as int, pos as int, block@));
    assert(spec_append_module(text.spec_bytes(), name@, body@, indent_from(text@, 0)) == Some(
        replace_bytes(b@, pos as int, pos as int, block@),
    ));
    Ok(out)
}

/// A byte that may go along with a removed member after it: a blank, the
/// comma, or the line end.
pub open spec fn is_leftover(c: u8) -> bool {
    c == 0x20 || c == 0x09 || c == 0x0d || c == 0x0a || c == 0x2c
}

proof fn lemma_removal_bounds(b: Seq<u8>, s: int, e: int)
    requires
        0 <= s <= e <= b.len(),
    ensures
        0 <= removal_start(b, s) <= s,
        e <= removal_end(b, e) <= b.len(),
        forall|k: int| removal_start(b, s) <= k < s ==> b[k] == 0x20 || b[k] == 0x09,
        forall|k: int| e <= k < removal_end(b, e) ==> is_leftover(b[k]),
{
    lemma_line_start(b, s);
    lemma_blanks_end(b, e, false);
    let j = blanks_end(b, e, false);
    let comma = 0 <= j < b.len() && b[j] == 0x2c;
    lemma_blanks_end(b, if comma { j + 1 } else { j }, true);
}

/// The text with its `monitors` value replaced by `value`, or, when it has no
/// `monitors` member, with one inserted right after the opening brace (the
/// text itself when it does not scan).
pub open spec fn placed_monitors(b: Seq<u8>, value: Seq<char>, indent: Seq<char>) -> Seq<u8> {
    match spec_top_level_spans(b) {
        Some((spans, open, _)) => match find_key(spans, "monitors"@) {
            Some(s) => replace_bytes(b, s.value_start, s.end, value),
            None => replace_bytes(b, open + 1, open + 1, monitors_member(value, indent)),
        },
        None => b,
    }
}

/// The members of a text that scans.
pub open spec fn members_of(b: Seq<u8>) -> Seq<SpanModel> {
    (spec_top_level_spans(b)->0).0
}

/// Setting the arrangement edits the text in at most two places and keeps
/// every other byte in order: the `monitors` value is replaced by the new one
/// (or, when there is no such member, one is inserted right after the opening
/// brace); then the legacy `modules` member, when there is one, is removed
/// together with nothing but the indentation before it and the blanks, comma
/// and line end after it.
pub proof fn lemma_set_monitors_edits(b: Seq<u8>, value: Seq<char>, indent: Seq<char>)
    requires
        spec_set_monitors(b, value, indent) is Some,
    ensures
        spec_top_level_spans(b) is Some,
        spec_top_level_spans(placed_monitors(b, value, indent)) is Some,
        find_key(members_of(placed_monitors(b, value, indent)), "modules"@) is None
            ==> spec_set_monitors(b, value, indent) == Some(placed_monitors(b, value, indent)),
        find_key(members_of(placed_monitors(b, value, indent)), "modules"@) matches Some(s)
            ==> exists|a: int, e: int|
            #![trigger cut(placed_monitors(b, value, indent), a, e)]
            {
                &&& 0 <= a <= s.start < s.end <= e <= placed_monitors(b, value, indent).len()
                &&& forall|k: int|
                    a <= k < s.start ==> placed_monitors(b, value, indent)[k] == 0x20
                        || placed_monitors(b, value, indent)[k] == 0x09
                &&& forall|k: int|
                    s.end <= k < e ==> is_leftover(#[trigger] placed_monitors(b, value, indent)[k])
                &&& spec_set_monitors(b, value, indent) == Some(
                    cut(placed_monitors(b, value, indent), a, e),
                )
            },
{
    lemma_spans_in_bounds(b);
    let (spans, open, _) = spec_top_level_spans(b)->0;
    lemma_find_key(spans, "monitors"@);
    let b1 = placed_monitors(b, value, indent);
    assert(put_monitors(b, spans, open, value, indent) == Some(b1));
    lemma_spans_in_bounds(b1);
    let spans1 = members_of(b1);
    lemma_find_key(spans1, "modules"@);
    match find_key(spans1, "modules"@) {
        Some(s) => {
            let k = choose|k: int| 0 <= k < spans1.len() && spans1[k] == s;
            assert(span_in_bounds(b1, spans1[k]));
            lemma_removal_bounds(b1, s.start, s.end);
            let a = removal_start(b1, s.start);
            let e = removal_end(b1, s.end);
            assert(spec_set_monitors(b, value, indent) == Some(cut(b1, a, e)));
        },
        None => {},
    }
}

/// After the members from offset `i` on end at offset `c`: the next token
/// there is the closing brace at `c`, or a comma before it.
pub open spec fn closes_at(b: Seq<u8>, i: int, c: int) -> bool {
    let j = trivia_end(b, i);
    j == c || (j < c && b[j] == 0x2c)
}

/// The members scanned from `i` extend `acc`; after the last one (or after
/// `i` when there are none) comes the closing brace or a comma before it.
proof fn lemma_members_tail(b: Seq<u8>, i: int, acc: Seq<SpanModel>, open: int)
    ensures
        members(b, i, acc, open) matches Some((m, o, c)) ==> {
            &&& 0 <= c < b.len() && b[c] == 0x7d
            &&& m.len() >= acc.len()
            &&& m.take(acc.len() as int) == acc
            &&& m.len() == acc.len() ==> 0 <= i <= c && closes_at(b, i, c)
            &&& m.len() > acc.len() ==> m.last().end <= c && closes_at(b, m.last().end, c)
        },
    decreases b.len() - i,
{
    if 0 <= i <= b.len() {
        let j = trivia_end(b, i);
        lemma_trivia_end(b, i);
        if j < b.len() && b[j] != 0x7d {
            if b[j] == 0x2c {
                lemma_members_tail(b, j + 1, acc, open);
                lemma_trivia_end(b, j + 1);
            } else {
                lemma_ident_end(b, j);
                if b[j] == 0x22 || b[j] == 0x27 {
                    lemma_string_close(b, j + 1, b[j]);
                }
                if let Some((key, k)) = key_token(b, j) {
                    let c = trivia_end(b, k);
                    lemma_trivia_end(b, k);
                    if c < b.len() && b[c] == 0x3a {
                        let vs = trivia_end(b, c + 1);
                        lemma_trivia_end(b, c + 1);
                        lemma_value_end(b, vs);
                        if let Some(e) = value_end(b, vs) {
                            let sp = SpanModel { key, start: j, value_start: vs, end: e };
                            let acc2 = acc.push(sp);
                            lemma_members_tail(b, e, acc2, open);
                            if let Some((m, o, cl)) = members(b, e, acc2, open) {
                                assert(m.take(acc.len() as int) =~= m.take(acc2.len() as int).take(
                                    acc.len() as int,
                                ));
                                assert(acc2.take(acc.len() as int) =~= acc);
                                if m.len() == acc2.len() {
                                    assert(m =~= m.take(acc2.len() as int));
                                    lemma_trivia_end(b, e);
                                }
                            }
                        }
                    }
                }
            }
        } else if j < b.len() {
            assert(acc.take(acc.len() as int) =~= acc);
        }
    }
}

/// Appending a module inserts one block at a single place, after the last
/// member and before the closing brace, and keeps every byte of the original
/// text, in order, around it. The block is the catalog entry (the marker
/// comment and the definition), led by a line break, or by the comma and line
/// break the last member lacked, or, in an empty object, followed by one.
pub proof fn lemma_append_module_inserts(b: Seq<u8>, name: Seq<char>, body: Seq<char>, indent: Seq<char>)
    requires
        spec_append_module(b, name, body, indent) is Some,
    ensures
        spec_top_level_spans(b) matches Some((spans, open, close)) && exists|pos: int, lead: Seq<char>, trail: Seq<char>|
            #![trigger replace_bytes(b, pos, pos, lead + catalog_entry(name, body, indent) + trail)]
            {
                &&& 0 <= pos <= close
                &&& (if spans.len() == 0 {
                    pos == open + 1
                } else {
                    spans.last().end <= pos
                })
                &&& ((lead == seq!['\n'] && trail == Seq::<char>::empty()) || (lead == seq![',', '\n']
                    && trail == Seq::<char>::empty()) || (lead == Seq::<char>::empty() && trail
                    == seq!['\n']))
                &&& spec_append_module(b, name, body, indent) == Some(
                    replace_bytes(b, pos, pos, lead + catalog_entry(name, body, indent) + trail),
                )
            },
{
    lemma_spans_in_bounds(b);
    let (spans, open, close) = spec_top_level_spans(b)->0;
    let i0 = trivia_end(b, 0);
    lemma_trivia_end(b, 0);
    lemma_members_tail(b, i0 + 1, seq![], i0);
    assert(spans.take(0) =~= seq![]);
    let entry = catalog_entry(name, body, indent);
    let e0 = Seq::<char>::empty();
    let (pos, lead, trail) = if spans.len() == 0 {
        (open + 1, e0, seq!['\n'])
    } else {
        let j = trivia_end(b, spans.last().end);
        lemma_trivia_end(b, spans.last().end);
        if 0 <= j < b.len() && b[j] == 0x2c {
            (j + 1, seq!['\n'], e0)
        } else {
            (spans.last().end, seq![',', '\n'], e0)
        }
    };
    assert(lead + entry + trail =~= if spans.len() == 0 {
        entry + seq!['\n']
    } else {
        lead + entry
    });
    assert(members(b, i0 + 1, seq![], i0) == Some((spans, open, close)));
    assert(0 <= pos <= close);
    assert(spec_append_module(b, name, body, indent) == Some(
        replace_bytes(b, pos, pos, lead + entry + trail),
    ));
}

/// A content hash is always 16 lower-case hexadecimal digits.
pub proof fn lemma_content_hash_shape(b: Seq<u8>)
    ensures
        crate::text::hex_fixed(fnv1a(b) as nat, 16).len() == 16,
        forall|k: int|
            0 <= k < 16 ==> crate::text::is_hex_digit(
                #[trigger] crate::text::hex_fixed(fnv1a(b) as nat, 16)[k],
            ),
{
    crate::text::lemma_hex_fixed(fnv1a(b) as nat, 16);
}

} // verus!
