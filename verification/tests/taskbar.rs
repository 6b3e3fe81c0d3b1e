use taskband::taskbar::{
    attach_taskbars, display_name, friendly_name_for_gdi, monitor_log_line, utf16_until_nul, MonitorInfo, Rect,
};

fn monitor(index: usize, hmonitor: isize, primary: bool) -> MonitorInfo {
    MonitorInfo {
        index,
        rect: Rect {
            left: 1920 * index as i32,
            top: 0,
            right: 1920 * (index as i32 + 1),
            bottom: 1080,
        },
        primary,
        hmonitor,
        taskbar: None,
    }
}

#[test]
fn monitor_log_line_formats_index_size_and_taskbar() {
    let m = MonitorInfo {
        index: 1,
        rect: Rect {
            left: 1920,
            top: 0,
            right: 3840,
            bottom: 1080,
        },
        primary: false,
        hmonitor: 0,
        taskbar: None,
    };
    let line = monitor_log_line(&m);
    assert!(line.contains("[1]"), "line was: {line}");
    assert!(line.contains("1920x1080"), "line was: {line}");
    assert!(line.contains("@ (1920,0)"), "line was: {line}");
    assert!(line.contains("taskbar: no"), "line was: {line}");
}

#[test]
fn monitor_log_line_marks_the_primary_exactly() {
    let mut m = monitor(0, 1, true);
    m.taskbar = Some(5);
    m.rect.top = -40;
    assert_eq!(
        monitor_log_line(&m),
        "  [0] 1920x1120 @ (0,-40)   primary   taskbar: yes"
    );
    let other = monitor(2, 3, false);
    assert_eq!(
        monitor_log_line(&other),
        "  [2] 1920x1080 @ (3840,0)             taskbar: no"
    );
}

#[test]
fn taskbars_attach_to_the_monitor_they_sit_on() {
    let mut monitors = vec![monitor(0, 100, true), monitor(1, 200, false), monitor(2, 300, false)];
    // (taskbar window, monitor handle); 999 sits on no known monitor
    attach_taskbars(&mut monitors, &vec![(11, 200), (12, 100), (13, 999)]);
    assert_eq!(monitors[0].taskbar, Some(12));
    assert_eq!(monitors[1].taskbar, Some(11));
    assert_eq!(monitors[2].taskbar, None);
}

#[test]
fn a_later_taskbar_on_the_same_monitor_wins() {
    let mut monitors = vec![monitor(0, 100, true)];
    attach_taskbars(&mut monitors, &vec![(1, 100), (2, 100)]);
    assert_eq!(monitors[0].taskbar, Some(2));
}

#[test]
fn utf16_until_nul_stops_at_the_terminator() {
    let buf: Vec<u16> = "DELL U2515H\0garbage".encode_utf16().collect();
    assert_eq!(utf16_until_nul(&buf), "DELL U2515H");
    let full: Vec<u16> = "\\\\.\\DISPLAY1".encode_utf16().collect();
    assert_eq!(utf16_until_nul(&full), "\\\\.\\DISPLAY1");
    assert_eq!(utf16_until_nul(&[]), "");
}

#[test]
fn utf16_until_nul_replaces_unpaired_surrogates() {
    assert_eq!(utf16_until_nul(&[0x41, 0xd800, 0x42, 0]), "A\u{fffd}B");
    assert_eq!(utf16_until_nul(&[0xd83d, 0xde00]), "\u{1f600}");
}

#[test]
fn friendly_name_comes_from_the_matching_path() {
    let paths = vec![
        (Some("\\\\.\\DISPLAY2".to_string()), Some("LG".to_string())),
        (None, Some("Broken".to_string())),
        (Some("\\\\.\\DISPLAY1".to_string()), Some(String::new())),
        (Some("\\\\.\\DISPLAY1".to_string()), None),
        (Some("\\\\.\\DISPLAY1".to_string()), Some("DELL U2515H".to_string())),
    ];
    assert_eq!(
        friendly_name_for_gdi("\\\\.\\DISPLAY1", &paths),
        Some("DELL U2515H".to_string())
    );
    assert_eq!(friendly_name_for_gdi("\\\\.\\DISPLAY3", &paths), None);
    assert_eq!(friendly_name_for_gdi("", &paths), None);
}

#[test]
fn display_name_falls_back_to_the_device_name() {
    let paths = vec![
        (Some("\\\\.\\DISPLAY1".to_string()), Some("DELL U2720Q".to_string())),
        (Some("\\\\.\\DISPLAY2".to_string()), Some(String::new())),
    ];
    assert_eq!(display_name("\\\\.\\DISPLAY1", &paths), "DELL U2720Q");
    assert_eq!(display_name("\\\\.\\DISPLAY2", &paths), "\\\\.\\DISPLAY2");
    assert_eq!(display_name("", &paths), "");
}
