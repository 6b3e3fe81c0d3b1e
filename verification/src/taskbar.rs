//! Monitors and the taskbars on them. The application asks Windows for the
//! monitors, the taskbar windows and the display names; this module decides
//! which taskbar sits on which monitor, which name a monitor shows, and how a
//! monitor is described in the startup log.

use vstd::prelude::*;
use crate::text::{decimal, push_decimal, push_signed, signed_decimal};

verus! {

/// A rectangle in screen pixels.
#[derive(Debug, Clone, Copy, PartialEq, Eq, Structural)]
pub struct Rect {
    pub left: i32,
    pub top: i32,
    pub right: i32,
    pub bottom: i32,
}

/// One display and the taskbar (if any) sitting on it. `index` is the monitor's
/// position in enumeration order; `hmonitor` and `taskbar` are the Windows
/// handles of the monitor and of its taskbar window.
#[derive(Debug, Clone, Copy, PartialEq, Eq, Structural)]
pub struct MonitorInfo {
    pub index: usize,
    pub rect: Rect,
    pub primary: bool,
    pub hmonitor: isize,
    pub taskbar: Option<isize>,
}

/// The first monitor of `ms` with handle `h`.
pub open spec fn monitor_with_handle(ms: Seq<MonitorInfo>, h: isize) -> Option<int>
    decreases ms.len(),
{
    if ms.len() == 0 {
        None
    } else if ms[0].hmonitor == h {
        Some(0)
    } else {
        match monitor_with_handle(ms.drop_first(), h) {
            Some(i) => Some(i + 1),
            None => None,
        }
    }
}

/// `ms` once each taskbar in `taskbars` (its window handle and the handle of
/// the monitor it sits on) is attached, in order, to the first monitor with
/// that handle; a later taskbar on the same monitor replaces an earlier one.
pub open spec fn with_taskbars(ms: Seq<MonitorInfo>, taskbars: Seq<(isize, isize)>) -> Seq<MonitorInfo>
    decreases taskbars.len(),
{
    if taskbars.len() == 0 {
        ms
    } else {
        let before = with_taskbars(ms, taskbars.drop_last());
        let (tb, h) = taskbars.last();
        match monitor_with_handle(before, h) {
            Some(i) => before.update(i, MonitorInfo { taskbar: Some(tb), ..before[i] }),
            None => before,
        }
    }
}

proof fn lemma_monitor_with_handle(ms: Seq<MonitorInfo>, h: isize)
    ensures
        match monitor_with_handle(ms, h) {
            Some(i) => 0 <= i < ms.len() && ms[i].hmonitor == h && forall|j: int|
                0 <= j < i ==> ms[j].hmonitor != h,
            None => forall|j: int| 0 <= j < ms.len() ==> ms[j].hmonitor != h,
        },
    decreases ms.len(),
{
    if ms.len() > 0 {
        lemma_monitor_with_handle(ms.drop_first(), h);
        if ms[0].hmonitor != h {
            assert forall|j: int| 1 <= j < ms.len() implies ms[j] == ms.drop_first()[j - 1] by {}
        }
    }
}

/// Attach each taskbar (its window handle and the handle of the monitor it
/// sits on) to the first monitor with that handle.
pub fn attach_taskbars(monitors: &mut Vec<MonitorInfo>, taskbars: &Vec<(isize, isize)>)
    ensures
        final(monitors)@ == with_taskbars(old(monitors)@, taskbars@),
{
    let ghost start = monitors@;
    let mut k: usize = 0;
    assert(taskbars@.take(0) =~= seq![]);
    while k < taskbars.len()
        invariant
            k <= taskbars@.len(),
            monitors@ == with_taskbars(start, taskbars@.take(k as int)),
        decreases taskbars@.len() - k,
    {
        let (tb, h) = taskbars[k];
        assert(taskbars@.take(k + 1).drop_last() =~= taskbars@.take(k as int));
        proof {
            lemma_monitor_with_handle(monitors@, h);
        }
        let mut i: usize = 0;
        while i < monitors.len() && monitors[i].hmonitor != h
            invariant
                i <= monitors@.len(),
                forall|j: int| 0 <= j < i ==> monitors@[j].hmonitor != h,
            decreases monitors@.len() - i,
        {
            i = i + 1;
        }
        if i < monitors.len() {
            let mut m = monitors[i];
            m.taskbar = Some(tb);
            monitors.set(i, m);
        }
        k = k + 1;
    }
    assert(taskbars@.take(k as int) =~= taskbars@);
}

/// A character for each UTF-16 unit or surrogate pair of `u`; an unpaired
/// surrogate reads as U+FFFD.
pub open spec fn utf16_text(u: Seq<u16>) -> Seq<char>
    decreases u.len(),
{
    if u.len() == 0 {
        seq![]
    } else if 0xd800 <= u[0] < 0xdc00 && u.len() >= 2 && 0xdc00 <= u[1] < 0xe000 {
        seq![(0x10000 + (u[0] - 0xd800) * 0x400 + (u[1] - 0xdc00)) as char] + utf16_text(u.skip(2))
    } else if 0xd800 <= u[0] < 0xe000 {
        seq!['\u{FFFD}'] + utf16_text(u.skip(1))
    } else {
        seq![u[0] as char] + utf16_text(u.skip(1))
    }
}

/// Decodes UTF-16 (std's `String::from_utf16_lossy`): surrogate pairs join
/// into one character and every unpaired surrogate becomes U+FFFD.
#[verifier::external_body]
fn from_utf16_lossy(units: &[u16]) -> (s: String)
    ensures
        s@ == utf16_text(units@),
{
    String::from_utf16_lossy(units)
}

/// The units of `buf` before its first NUL (all of it when there is none).
pub open spec fn until_nul(buf: Seq<u16>) -> Seq<u16>
    decreases buf.len(),
{
    if buf.len() == 0 || buf[0] == 0 {
        seq![]
    } else {
        seq![buf[0]] + until_nul(buf.drop_first())
    }
}

/// Decode a NUL-terminated UTF-16 buffer (whole buffer if no NUL).
pub fn utf16_until_nul(buf: &[u16]) -> (s: String)
    ensures
        s@ == utf16_text(until_nul(buf@)),
{
    let mut units: Vec<u16> = Vec::new();
    let mut k: usize = 0;
    assert(buf@.skip(0) =~= buf@);
    while k < buf.len() && buf[k] != 0
        invariant
            k <= buf@.len(),
            units@ + until_nul(buf@.skip(k as int)) == until_nul(buf@),
        decreases buf@.len() - k,
    {
        let ghost before = units@;
        units.push(buf[k]);
        assert(buf@.skip(k as int).drop_first() =~= buf@.skip(k + 1));
        assert(until_nul(buf@.skip(k as int)) =~= seq![buf@[k as int]] + until_nul(buf@.skip(k + 1)));
        assert(units@ + until_nul(buf@.skip(k + 1)) =~= before + until_nul(buf@.skip(k as int)));
        k = k + 1;
    }
    assert(until_nul(buf@.skip(k as int)) =~= seq![]);
    assert(units@ =~= until_nul(buf@));
    from_utf16_lossy(units.as_slice())
}

/// The friendly name found among the display paths: the first path whose
/// source device is `gdi` and whose target reports a non-empty name.
pub open spec fn friendly_in(gdi: Seq<char>, paths: Seq<(Option<Seq<char>>, Option<Seq<char>>)>) -> Option<
    Seq<char>,
>
    decreases paths.len(),
{
    if gdi.len() == 0 || paths.len() == 0 {
        None
    } else {
        match paths[0] {
            (Some(src), Some(name)) => if src == gdi && name.len() > 0 {
                Some(name)
            } else {
                friendly_in(gdi, paths.drop_first())
            },
            _ => friendly_in(gdi, paths.drop_first()),
        }
    }
}

/// The model of one display path: its source device name and its target's
/// name, each absent when Windows could not report it.
pub open spec fn path_model(p: (Option<String>, Option<String>)) -> (Option<Seq<char>>, Option<Seq<char>>) {
    (
        match p.0 {
            Some(s) => Some(s@),
            None => None,
        },
        match p.1 {
            Some(s) => Some(s@),
            None => None,
        },
    )
}

/// Resolve a GDI device name to the attached monitor's friendly name, given
/// each active display path's source device name and target friendly name.
pub fn friendly_name_for_gdi(gdi: &str, paths: &Vec<(Option<String>, Option<String>)>) -> (r: Option<
    String,
>)
    ensures
        match r {
            Some(n) => friendly_in(gdi@, paths@.map_values(|p| path_model(p))) == Some(n@),
            None => friendly_in(gdi@, paths@.map_values(|p| path_model(p))) is None,
        },
{
    let ghost ps = paths@.map_values(|p| path_model(p));
    let g = String::from_str(gdi);
    if gdi.unicode_len() == 0 {
        return None;
    }
    let mut k: usize = 0;
    assert(ps.skip(0) =~= ps);
    while k < paths.len()
        invariant
            ps == paths@.map_values(|p| path_model(p)),
            g@ == gdi@,
            gdi@.len() > 0,
            k <= ps.len(),
            friendly_in(gdi@, ps.skip(k as int)) == friendly_in(gdi@, ps),
        decreases ps.len() - k,
    {
        assert(ps.skip(k as int)[0] == path_model(paths@[k as int]));
        assert(ps.skip(k as int).drop_first() =~= ps.skip(k + 1));
        match &paths[k] {
            (Some(src), Some(name)) => {
                if *src == g && name.unicode_len() > 0 {
                    return Some(name.clone());
                }
            },
            _ => {},
        }
        k = k + 1;
    }
    None
}

/// The name shown for a monitor: its friendly name when one of the display
/// paths gives it, otherwise the GDI device name itself.
pub fn display_name(gdi: &str, paths: &Vec<(Option<String>, Option<String>)>) -> (r: String)
    ensures
        r@ == match friendly_in(gdi@, paths@.map_values(|p| path_model(p))) {
            Some(n) => n,
            None => gdi@,
        },
{
    match friendly_name_for_gdi(gdi, paths) {
        Some(n) => n,
        None => String::from_str(gdi),
    }
}

/// The text that marks the primary monitor in a log line (blanks otherwise).
pub open spec fn primary_mark(primary: bool) -> Seq<char> {
    if primary {
        "   primary"@
    } else {
        "          "@
    }
}

/// Whether a monitor's size fits in `i32`.
pub open spec fn sized(m: MonitorInfo) -> bool {
    i32::MIN <= m.rect.right - m.rect.left <= i32::MAX && i32::MIN <= m.rect.bottom - m.rect.top
        <= i32::MAX
}

/// A one-line description of a monitor: index, size, position, whether it is
/// the primary and whether it has a taskbar.
pub open spec fn log_line(m: MonitorInfo) -> Seq<char> {
    "  ["@ + decimal(m.index as nat) + "] "@ + signed_decimal(m.rect.right - m.rect.left) + "x"@
        + signed_decimal(m.rect.bottom - m.rect.top) + " @ ("@ + signed_decimal(m.rect.left as int)
        + ","@ + signed_decimal(m.rect.top as int) + ")"@ + primary_mark(m.primary)
        + "   taskbar: "@ + if m.taskbar is Some {
        "yes"@
    } else {
        "no"@
    }
}

/// A one-line human-readable description of a monitor for the startup log.
pub fn monitor_log_line(m: &MonitorInfo) -> (s: String)
    requires
        sized(*m),
    ensures
        s@ == log_line(*m),
{
    let w = m.rect.right - m.rect.left;
    let h = m.rect.bottom - m.rect.top;
    let mut s = String::from_str("  [");
    push_decimal(&mut s, m.index as u64);
    s.append("] ");
    push_signed(&mut s, w as i64);
    s.append("x");
    push_signed(&mut s, h as i64);
    s.append(" @ (");
    push_signed(&mut s, m.rect.left as i64);
    s.append(",");
    push_signed(&mut s, m.rect.top as i64);
    s.append(")");
    if m.primary {
        s.append("   primary");
    } else {
        s.append("          ");
    }
    s.append("   taskbar: ");
    if m.taskbar.is_some() {
        s.append("yes");
    } else {
        s.append("no");
    }
    s
}

} // verus!
