//! Module scheduling and the turning of a module's command result into display
//! lines. Running the commands, and the worker thread that does it, live with
//! the application; this module decides what is due and what is shown.

use vstd::prelude::*;
use crate::markup::{
    lines_model, markup, parse, plain, plain_model, unclosed_warning, Line, SegModel,
};
use crate::text::{
    chars_of, line_bounds, lines_from, push_char, push_signed,
    signed_decimal, string_from_chars, strings_model, text_lines, trim, trim_vec,
    is_unicode_space, lead_spaces, trail_spaces, lemma_lead_spaces, lemma_lead_spaces_are_spaces,
    lemma_trail_spaces_are_spaces, find_from, lemma_find_from, strip_cr,
};

verus! {

/// Longest failure reason shown on the bar; the rest is elided.
pub const ERROR_MAX_CHARS: usize = 60;

/// Nanoseconds in a second.
pub const NANOS_PER_SEC: u128 = 1_000_000_000;

/// How a module's stdout is interpreted.
#[derive(Debug, Clone, Copy, PartialEq, Eq, Structural)]
pub enum OutputMode {
    /// Raw text, shown verbatim (the default).
    Text,
    /// Text with inline `<span class='...'>` markup (see the `markup` module).
    Html,
}

/// One module the worker runs: its command line, how often (in nanoseconds),
/// and how its output is read.
pub struct PluginSpec {
    pub name: String,
    pub command: String,
    pub interval: u128,
    pub output: OutputMode,
}

/// New display lines for the module in slot `index`.
pub struct Update {
    pub index: usize,
    pub lines: Vec<Line>,
}

/// A module is due when it has never run, or `interval` has elapsed since it
/// did (both in nanoseconds).
pub fn is_due(elapsed_since_last: Option<u128>, interval: u128) -> (r: bool)
    ensures
        r == match elapsed_since_last {
            None => true,
            Some(elapsed) => elapsed >= interval,
        },
{
    match elapsed_since_last {
        None => true,
        Some(elapsed) => elapsed >= interval,
    }
}

/// Time since `last` at `now`, zero when the clock reads earlier.
pub open spec fn since(now: u128, last: u128) -> u128 {
    if now >= last {
        (now - last) as u128
    } else {
        0
    }
}

/// Whether module `i` is due at `now`, given when each module last ran.
pub open spec fn due_at(last_run: Seq<Option<u128>>, intervals: Seq<u128>, now: u128, i: int) -> bool {
    match last_run[i] {
        None => true,
        Some(t) => since(now, t) >= intervals[i],
    }
}

/// One worker tick at time `now`: the slots that are due, in order, each
/// stamped as run at `now`; the others keep their last run time.
pub fn tick(last_run: &mut Vec<Option<u128>>, intervals: &Vec<u128>, now: u128) -> (due: Vec<usize>)
    requires
        old(last_run)@.len() == intervals@.len(),
    ensures
        final(last_run)@.len() == old(last_run)@.len(),
        forall|i: int|
            0 <= i < old(last_run)@.len() ==> final(last_run)@[i] == if due_at(
                old(last_run)@,
                intervals@,
                now,
                i,
            ) {
                Some(now)
            } else {
                old(last_run)@[i]
            },
        forall|k: int| 0 <= k < due@.len() ==> due@[k] < old(last_run)@.len(),
        forall|k: int, m: int| 0 <= k < m < due@.len() ==> due@[k] < due@[m],
        forall|i: usize|
            i < old(last_run)@.len() ==> (#[trigger] due@.contains(i) <==> due_at(
                old(last_run)@,
                intervals@,
                now,
                i as int,
            )),
{
    let ghost before = last_run@;
    let mut due: Vec<usize> = Vec::new();
    let mut i: usize = 0;
    while i < last_run.len()
        invariant
            before.len() == intervals@.len(),
            last_run@.len() == before.len(),
            i <= before.len(),
            forall|j: int| i <= j < before.len() ==> last_run@[j] == before[j],
            forall|j: int|
                0 <= j < i ==> last_run@[j] == if due_at(before, intervals@, now, j) {
                    Some(now)
                } else {
                    before[j]
                },
            forall|k: int| 0 <= k < due@.len() ==> due@[k] < i,
            forall|k: int, m: int| 0 <= k < m < due@.len() ==> due@[k] < due@[m],
            forall|j: usize| j < i ==> (#[trigger] due@.contains(j) <==> due_at(before, intervals@, now, j as int)),
        decreases before.len() - i,
    {
        let elapsed = match last_run[i] {
            None => None,
            Some(t) => Some(
                if now >= t {
                    now - t
                } else {
                    0
                },
            ),
        };
        if is_due(elapsed, intervals[i]) {
            last_run.set(i, Some(now));
            let ghost d0 = due@;
            due.push(i);
            proof {
                assert forall|j: usize| j < i implies (#[trigger] due@.contains(j) <==> d0.contains(
                    j,
                )) by {
                    if d0.contains(j) {
                        let k = d0.index_of(j);
                        assert(due@[k] == j);
                    }
                    if due@.contains(j) {
                        let k = due@.index_of(j);
                        assert(k < d0.len());
                        assert(d0[k] == j);
                    }
                }
                assert(due@[due@.len() - 1] == i);
            }
        } else {
            proof {
                assert(!due@.contains(i));
            }
        }
        i = i + 1;
    }
    due
}

/// The first line of `lines` that is not blank once trimmed, trimmed.
pub open spec fn first_nonblank(lines: Seq<Seq<char>>) -> Option<Seq<char>>
    decreases lines.len(),
{
    if lines.len() == 0 {
        None
    } else if trim(lines[0]).len() > 0 {
        Some(trim(lines[0]))
    } else {
        first_nonblank(lines.drop_first())
    }
}

/// The first non-blank line of `text`, trimmed.
pub fn first_line(text: &str) -> (r: Option<String>)
    ensures
        match r {
            Some(l) => first_nonblank(text_lines(text@)) == Some(l@),
            None => first_nonblank(text_lines(text@)) is None,
        },
{
    let v = chars_of(text);
    let ghost s = v@;
    let mut i: usize = 0;
    while i < v.len()
        invariant
            s == v@,
            s == text@,
            i <= s.len(),
            first_nonblank(lines_from(s, i as int)) == first_nonblank(text_lines(s)),
        decreases s.len() - i,
    {
        let (j, e) = line_bounds(&v, i);
        let line = crate::text::sub_vec(&v, i, e);
        let t = trim_vec(&line);
        let ghost l = v@.subrange(i as int, e as int);
        proof {
            if j >= s.len() {
                assert(lines_from(s, i as int) =~= seq![l]);
            } else {
                assert(lines_from(s, i as int) =~= seq![l] + lines_from(s, j + 1));
                assert((seq![l] + lines_from(s, j + 1)).drop_first() =~= lines_from(s, j + 1));
            }
        }
        if t.len() > 0 {
            return Some(string_from_chars(&t, 0, t.len()));
        }
        proof {
            if j >= s.len() {
                assert(lines_from(s, s.len() as int) =~= seq![]);
                assert(seq![l].drop_first() =~= Seq::<Seq<char>>::empty());
            }
        }
        i = if j < v.len() {
            j + 1
        } else {
            j
        };
    }
    proof {
        assert(lines_from(s, i as int) =~= seq![]);
    }
    None
}

/// `s` shortened to at most `max` characters: when it is longer, its first
/// `max - 1` characters (none when `max` is 0) and an ellipsis.
pub open spec fn elided(s: Seq<char>, max: nat) -> Seq<char> {
    if s.len() <= max {
        s
    } else if max == 0 {
        seq!['…']
    } else {
        s.take(max - 1) + seq!['…']
    }
}

/// `text` shortened to at most `max` characters, with a trailing ellipsis.
/// Counts characters rather than bytes.
pub fn elide(text: &str, max: usize) -> (r: String)
    ensures
        r@ == elided(text@, max as nat),
{
    let v = chars_of(text);
    if v.len() <= max {
        let r = string_from_chars(&v, 0, v.len());
        assert(v@.subrange(0, v@.len() as int) =~= v@);
        return r;
    }
    let keep = if max > 0 {
        max - 1
    } else {
        0
    };
    let mut r = string_from_chars(&v, 0, keep);
    push_char(&mut r, '…');
    assert(r@ =~= elided(text@, max as nat));
    r
}

/// The text shown for a module that failed: its name, a newline, the reason
/// shortened to [`ERROR_MAX_CHARS`].
pub open spec fn error_text(name: Seq<char>, reason: Seq<char>) -> Seq<char> {
    name + seq!['\n'] + elided(reason, ERROR_MAX_CHARS as nat)
}

/// A failure shows two lines, the module's name over the (elided) reason,
/// when neither holds a line break and the reason is not empty.
pub proof fn lemma_error_text_lines(name: Seq<char>, reason: Seq<char>)
    requires
        forall|k: int| 0 <= k < name.len() ==> name[k] != '\n',
        name.len() > 0 ==> name.last() != '\r',
        forall|k: int| 0 <= k < reason.len() ==> reason[k] != '\n',
        reason.len() > 0,
    ensures
        text_lines(error_text(name, reason)) == seq![name, elided(reason, ERROR_MAX_CHARS as nat)],
{
    let e = elided(reason, ERROR_MAX_CHARS as nat);
    let x = error_text(name, reason);
    let n = name.len() as int;
    assert forall|k: int| 0 <= k < e.len() implies e[k] != '\n' by {
        if reason.len() > ERROR_MAX_CHARS && k < e.len() - 1 {
            assert(e[k] == reason[k]);
        }
    }
    assert(x[n] == '\n');
    assert forall|k: int| 0 <= k < n implies x[k] != '\n' by {
        assert(x[k] == name[k]);
    }
    lemma_find_from_at(x, 0, n);
    assert forall|k: int| n + 1 <= k < x.len() implies x[k] != '\n' by {
        assert(x[k] == e[k - n - 1]);
    }
    lemma_find_from_at(x, n + 1, x.len() as int);
    assert(x.subrange(0, n) =~= name);
    assert(strip_cr(x.subrange(0, n)) == name);
    assert(x.subrange(n + 1, x.len() as int) =~= e);
    assert(lines_from(x, n + 1) == seq![e]);
    assert(text_lines(x) =~= seq![name, e]);
}

/// Once a slot has run at `now`, it is due again exactly when its interval
/// has passed: at `now` plus the interval, and at no earlier moment.
pub proof fn lemma_due_again_after_interval(
    last_run: Seq<Option<u128>>,
    intervals: Seq<u128>,
    now: u128,
    i: int,
    later: u128,
)
    requires
        0 <= i < last_run.len(),
        now <= later,
    ensures
        due_at(last_run.update(i, Some(now)), intervals, later, i) <==> later - now >= intervals[i],
{
}

/// A slot that has never run is due at any time.
pub proof fn lemma_never_run_is_due(last_run: Seq<Option<u128>>, intervals: Seq<u128>, now: u128, i: int)
    requires
        0 <= i < last_run.len(),
        last_run[i] is None,
    ensures
        due_at(last_run, intervals, now, i),
{
}

/// Display lines for a module that failed: its name over the reason. Always
/// plain text, never markup, so a reason containing `<` or `&` stays readable
/// instead of being parsed (or failing to parse) as a span.
pub fn error_lines(name: &str, reason: &str) -> (lines: Vec<Line>)
    ensures
        lines_model(lines@) == plain_model(error_text(name@, reason@)),
{
    let mut text = String::from_str(name);
    push_char(&mut text, '\n');
    let short = elide(reason, ERROR_MAX_CHARS);
    text.append(short.as_str());
    assert(text@ =~= error_text(name@, reason@));
    plain(text.as_str())
}

/// The display lines for a module's output `raw` under `mode`: plain text, or
/// its markup; markup that is rejected shows as plain text.
pub open spec fn interpreted(mode: OutputMode, raw: Seq<char>) -> Seq<Seq<SegModel>> {
    match mode {
        OutputMode::Text => plain_model(raw),
        OutputMode::Html => match markup(raw) {
            Ok((lines, _)) => lines,
            Err(_) => plain_model(raw),
        },
    }
}

/// A note to report about module `name`.
pub open spec fn module_note(name: Seq<char>, text: Seq<char>) -> Seq<char> {
    "Taskband: module '"@ + name + "': "@ + text
}

/// The notes interpreting a module's output gives: in html mode, the markup's
/// warning, or that its markup was rejected (and why) and the raw text shown.
pub open spec fn interpret_notes(name: Seq<char>, mode: OutputMode, raw: Seq<char>) -> Seq<Seq<char>> {
    match mode {
        OutputMode::Text => seq![],
        OutputMode::Html => match markup(raw) {
            Ok((_, warned)) => if warned {
                seq![module_note(name, unclosed_warning())]
            } else {
                seq![]
            },
            Err(e) => seq![module_note(name, "bad markup ("@ + e + "); showing raw text"@)],
        },
    }
}

/// The display lines for raw stdout per the module's output mode, with the
/// notes to report about it. Bad markup falls back to plain text, so a broken
/// module stays visible.
pub fn interpret_noted(name: &str, mode: OutputMode, raw: &str) -> (r: (Vec<Line>, Vec<String>))
    ensures
        lines_model(r.0@) == interpreted(mode, raw@),
        strings_model(r.1@) == interpret_notes(name@, mode, raw@),
{
    let mut notes: Vec<String> = Vec::new();
    assert(strings_model(notes@) =~= seq![]);
    if mode == OutputMode::Text {
        return (plain(raw), notes);
    }
    match parse(raw) {
        Ok((lines, warnings)) => {
            if warnings.len() > 0 {
                let mut n = String::from_str("Taskband: module '");
                n.append(name);
                n.append("': ");
                n.append(warnings[0].as_str());
                assert(warnings@[0]@ == strings_model(warnings@)[0]);
                assert(warnings@[0]@ == unclosed_warning());
                notes.push(n);
                assert(strings_model(notes@) =~= seq![n@]);
                assert(n@ == module_note(name@, unclosed_warning()));
            } else {
                assert(strings_model(notes@) =~= seq![]);
            }
            (lines, notes)
        },
        Err(e) => {
            let mut n = String::from_str("Taskband: module '");
            n.append(name);
            n.append("': ");
            n.append("bad markup (");
            n.append(e.as_str());
            n.append("); showing raw text");
            notes.push(n);
            assert(strings_model(notes@) =~= seq![n@]);
            assert(n@ =~= module_note(name@, "bad markup ("@ + e@ + "); showing raw text"@));
            (plain(raw), notes)
        },
    }
}

/// Turn raw stdout into display lines per the module's output mode. Bad
/// markup falls back to plain text, so a broken module stays visible.
pub fn interpret(name: &str, mode: OutputMode, raw: &str) -> (lines: Vec<Line>)
    ensures
        lines_model(lines@) == interpreted(mode, raw@),
{
    interpret_noted(name, mode, raw).0
}

/// The reason given for a command that failed with nothing on stderr.
pub open spec fn exit_reason(code: Option<i32>) -> Seq<char> {
    match code {
        Some(c) => "exited with code "@ + signed_decimal(c as int),
        None => "terminated"@,
    }
}

/// What a finished command reports: its trimmed stdout when it succeeded;
/// otherwise the first non-blank line of its stderr, or its exit code, or that
/// it was terminated. Stdout of a failed command is never shown.
pub open spec fn outcome(success: bool, stdout: Seq<char>, stderr: Seq<char>, code: Option<i32>) -> Result<
    Seq<char>,
    Seq<char>,
> {
    if success {
        Ok(trim(stdout))
    } else {
        match first_nonblank(text_lines(stderr)) {
            Some(l) => Err(l),
            None => Err(exit_reason(code)),
        }
    }
}

/// `x[a..b]` is `x` with the whitespace at both ends cut off: everything
/// outside it is whitespace, and when it is not empty it neither starts nor
/// ends with whitespace.
pub open spec fn trimmed_piece(x: Seq<char>, a: int, b: int) -> bool {
    &&& 0 <= a <= b <= x.len()
    &&& forall|k: int| 0 <= k < a ==> is_unicode_space(#[trigger] x[k])
    &&& forall|k: int| b <= k < x.len() ==> is_unicode_space(#[trigger] x[k])
    &&& a < b ==> !is_unicode_space(x[a]) && !is_unicode_space(x[b - 1])
}

proof fn lemma_trim_shape(x: Seq<char>)
    ensures
        trimmed_piece(
            x,
            lead_spaces(x) as int,
            x.len() - trail_spaces(x.skip(lead_spaces(x) as int)),
        ),
        trim(x) == x.subrange(
            lead_spaces(x) as int,
            x.len() - trail_spaces(x.skip(lead_spaces(x) as int)),
        ),
{
    let a = lead_spaces(x) as int;
    lemma_lead_spaces(x);
    lemma_lead_spaces_are_spaces(x);
    let t0 = x.skip(a);
    lemma_trail_spaces_are_spaces(t0);
    let n = trail_spaces(t0) as int;
    let b = x.len() - n;
    assert(trim(x) =~= x.subrange(a, b));
    assert forall|k: int| b <= k < x.len() implies is_unicode_space(#[trigger] x[k]) by {
        assert(x[k] == t0[k - a]);
    }
    if a < b {
        assert(x[b - 1] == t0[t0.len() - n - 1]);
    }
}

/// A successful command reports its stdout with the whitespace at both ends
/// removed and nothing else changed: the report is one contiguous piece of
/// stdout, everything before and after that piece is whitespace, and the
/// report neither starts nor ends with whitespace.
pub proof fn lemma_success_is_trimmed(stdout: Seq<char>, stderr: Seq<char>, code: Option<i32>)
    ensures
        outcome(true, stdout, stderr, code) matches Ok(t) && exists|a: int, b: int|
            #![trigger stdout.subrange(a, b)]
            {
                &&& 0 <= a <= b <= stdout.len()
                &&& t == stdout.subrange(a, b)
                &&& forall|k: int| 0 <= k < a ==> is_unicode_space(#[trigger] stdout[k])
                &&& forall|k: int| b <= k < stdout.len() ==> is_unicode_space(#[trigger] stdout[k])
                &&& t.len() > 0 ==> !is_unicode_space(t[0]) && !is_unicode_space(t[t.len() - 1])
            },
{
    lemma_trim_shape(stdout);
    let a = lead_spaces(stdout) as int;
    let b = stdout.len() - trail_spaces(stdout.skip(a));
    let t = trim(stdout);
    assert(t == stdout.subrange(a, b));
    if t.len() > 0 {
        assert(t[0] == stdout[a]);
        assert(t[t.len() - 1] == stdout[b - 1]);
    }
}

proof fn lemma_find_from_at(s: Seq<char>, b: int, j: int)
    requires
        0 <= b <= j <= s.len(),
        forall|k: int| b <= k < j ==> s[k] != '\n',
        j == s.len() || s[j] == '\n',
    ensures
        find_from(s, b, '\n') == j,
    decreases j - b,
{
    if b < j {
        lemma_find_from_at(s, b + 1, j);
    }
}

/// What the first non-blank line of the text from `i` on is, in terms of the
/// characters: `None` exactly when they are all whitespace; otherwise a piece
/// `s[a..b]` of one line, with only whitespace before it from `i` on, only
/// whitespace after it up to the line's end, and no whitespace at its ends.
proof fn lemma_first_nonblank_from(s: Seq<char>, i: int)
    requires
        0 <= i <= s.len(),
    ensures
        first_nonblank(lines_from(s, i)) is None <==> forall|k: int|
            i <= k < s.len() ==> is_unicode_space(#[trigger] s[k]),
        first_nonblank(lines_from(s, i)) matches Some(l) ==> exists|a: int, b: int|
            #![trigger s.subrange(a, b)]
            {
                &&& i <= a < b <= s.len()
                &&& l == s.subrange(a, b)
                &&& !is_unicode_space(s[a]) && !is_unicode_space(s[b - 1])
                &&& forall|k: int| i <= k < a ==> is_unicode_space(#[trigger] s[k])
                &&& forall|k: int| a <= k < b ==> s[k] != '\n'
                &&& forall|k: int|
                    b <= k < find_from(s, b, '\n') ==> is_unicode_space(#[trigger] s[k])
            },
    decreases s.len() - i,
{
    if i < s.len() {
        let j = find_from(s, i, '\n');
        lemma_find_from(s, i, '\n');
        let jj = if j < s.len() && j > i && s[j - 1] == '\r' {
            j - 1
        } else {
            j
        };
        let line = s.subrange(i, jj);
        let lines = lines_from(s, i);
        if j >= s.len() {
            assert(lines == seq![s.subrange(i, s.len() as int)]);
            assert(line == s.subrange(i, s.len() as int));
        } else {
            assert(strip_cr(s.subrange(i, j)) == line);
            assert(lines == seq![line] + lines_from(s, j + 1));
        }
        assert(lines[0] == line);
        lemma_trim_shape(line);
        let a0 = lead_spaces(line) as int;
        let b0 = line.len() - trail_spaces(line.skip(a0));
        let t = trim(line);
        assert(t == line.subrange(a0, b0));
        if t.len() > 0 {
            assert(first_nonblank(lines) == Some(t));
            let a = i + a0;
            let b = i + b0;
            assert(t =~= s.subrange(a, b));
            lemma_find_from_at(s, b, j);
            assert(s[a] == line[a0]);
            assert(s[b - 1] == line[b0 - 1]);
            assert forall|k: int| i <= k < a implies is_unicode_space(#[trigger] s[k]) by {
                assert(s[k] == line[k - i]);
            }
            assert forall|k: int| b <= k < find_from(s, b, '\n') implies is_unicode_space(
                #[trigger] s[k],
            ) by {
                if k < jj {
                    assert(s[k] == line[k - i]);
                }
            }
            assert(!(forall|k: int| i <= k < s.len() ==> is_unicode_space(#[trigger] s[k]))) by {
                assert(!is_unicode_space(s[a]));
            }
        } else {
            assert forall|k: int| i <= k < jj implies is_unicode_space(#[trigger] s[k]) by {
                assert(s[k] == line[k - i]);
            }
            if j >= s.len() {
                assert(lines.drop_first() =~= Seq::<Seq<char>>::empty());
                assert(first_nonblank(lines) == first_nonblank(lines.drop_first()));
                assert(jj == s.len());
            } else {
                assert(lines.drop_first() =~= lines_from(s, j + 1));
                assert(first_nonblank(lines) == first_nonblank(lines_from(s, j + 1)));
                lemma_first_nonblank_from(s, j + 1);
                assert(forall|k: int| i <= k <= j ==> is_unicode_space(#[trigger] s[k]));
                assert((forall|k: int| i <= k < s.len() ==> is_unicode_space(#[trigger] s[k])) <==> (
                forall|k: int| j + 1 <= k < s.len() ==> is_unicode_space(#[trigger] s[k])));
                if let Some(l) = first_nonblank(lines_from(s, j + 1)) {
                    let (a, b) = choose|a: int, b: int|
                        {
                            &&& j + 1 <= a < b <= s.len()
                            &&& l == #[trigger] s.subrange(a, b)
                            &&& !is_unicode_space(s[a]) && !is_unicode_space(s[b - 1])
                            &&& forall|k: int| j + 1 <= k < a ==> is_unicode_space(#[trigger] s[k])
                            &&& forall|k: int| a <= k < b ==> s[k] != '\n'
                            &&& forall|k: int|
                                b <= k < find_from(s, b, '\n') ==> is_unicode_space(#[trigger] s[k])
                        };
                    assert(forall|k: int| i <= k < a ==> is_unicode_space(#[trigger] s[k]));
                }
            }
        }
    }
}

/// A failed command never shows its stdout, and reports the first line of its
/// stderr that is not blank, with the whitespace at its ends cut off: a piece
/// `stderr[a..b]` of one line, with nothing but whitespace before it in
/// stderr and after it up to the line's end. When stderr is all whitespace the
/// reason is how the command ended instead.
pub proof fn lemma_failure_reports_stderr(
    stdout: Seq<char>,
    other_stdout: Seq<char>,
    stderr: Seq<char>,
    code: Option<i32>,
)
    ensures
        outcome(false, stdout, stderr, code) is Err,
        outcome(false, stdout, stderr, code) == outcome(false, other_stdout, stderr, code),
        (forall|k: int| 0 <= k < stderr.len() ==> is_unicode_space(#[trigger] stderr[k]))
            ==> outcome(false, stdout, stderr, code) == Err::<Seq<char>, Seq<char>>(exit_reason(code)),
        !(forall|k: int| 0 <= k < stderr.len() ==> is_unicode_space(#[trigger] stderr[k]))
            ==> (outcome(false, stdout, stderr, code) matches Err(l) && exists|a: int, b: int|
            #![trigger stderr.subrange(a, b)]
            {
                &&& 0 <= a < b <= stderr.len()
                &&& l == stderr.subrange(a, b)
                &&& !is_unicode_space(stderr[a]) && !is_unicode_space(stderr[b - 1])
                &&& forall|k: int| 0 <= k < a ==> is_unicode_space(#[trigger] stderr[k])
                &&& forall|k: int| a <= k < b ==> stderr[k] != '\n'
                &&& forall|k: int|
                    b <= k < find_from(stderr, b, '\n') ==> is_unicode_space(#[trigger] stderr[k])
            }),
{
    lemma_first_nonblank_from(stderr, 0);
}

/// The result of a finished command: `Ok` with its trimmed stdout, or `Err`
/// with a one-line reason (see [`outcome`]).
pub fn exec_outcome(success: bool, stdout: &str, stderr: &str, code: Option<i32>) -> (r: Result<
    String,
    String,
>)
    ensures
        match r {
            Ok(s) => outcome(success, stdout@, stderr@, code) == Ok::<Seq<char>, Seq<char>>(s@),
            Err(e) => outcome(success, stdout@, stderr@, code) == Err::<Seq<char>, Seq<char>>(e@),
        },
{
    if success {
        let v = chars_of(stdout);
        let t = trim_vec(&v);
        let s = string_from_chars(&t, 0, t.len());
        assert(t@.subrange(0, t@.len() as int) =~= t@);
        return Ok(s);
    }
    match first_line(stderr) {
        Some(l) => Err(l),
        None => match code {
            Some(c) => {
                let mut m = String::from_str("exited with code ");
                push_signed(&mut m, c as i64);
                Err(m)
            },
            None => Err(String::from_str("terminated")),
        },
    }
}

/// The display lines for a module after its command finished: its output read
/// per `mode`, or its name over the failure reason.
pub fn module_lines(name: &str, mode: OutputMode, result: &Result<String, String>) -> (r: (
    Vec<Line>,
    Vec<String>,
))
    ensures
        lines_model(r.0@) == match result {
            Ok(raw) => interpreted(mode, raw@),
            Err(reason) => plain_model(error_text(name@, reason@)),
        },
        strings_model(r.1@) == match result {
            Ok(raw) => interpret_notes(name@, mode, raw@),
            Err(_) => seq![],
        },
{
    match result {
        Ok(raw) => interpret_noted(name, mode, raw.as_str()),
        Err(reason) => {
            let notes: Vec<String> = Vec::new();
            assert(strings_model(notes@) =~= seq![]);
            (error_lines(name, reason.as_str()), notes)
        },
    }
}

/// An elided reason is never longer than its limit (for a limit of at least
/// one character): a short reason is kept whole, a long one keeps its first
/// `max - 1` characters and ends in an ellipsis.
pub proof fn lemma_elided_fits(s: Seq<char>, max: nat)
    requires
        max >= 1,
    ensures
        elided(s, max).len() <= max,
        s.len() <= max ==> elided(s, max) == s,
        s.len() > max ==> elided(s, max).len() == max && elided(s, max).take(max - 1) == s.take(
            max - 1,
        ) && elided(s, max).last() == '…',
{
    if s.len() > max {
        assert(elided(s, max).take(max - 1) =~= s.take(max - 1));
    }
}

} // verus!
