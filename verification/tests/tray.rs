use taskband::tray::{tray_action, tray_menu, MenuItem, TrayAction};

fn entry(id: usize, label: &str, checked: bool) -> MenuItem {
    MenuItem::Entry { id, label: label.to_string(), checked }
}

#[test]
fn the_menu_checks_start_at_login_when_it_is_on() {
    assert_eq!(
        tray_menu(true),
        vec![
            entry(1, "Reload config", false),
            entry(2, "Edit config", false),
            entry(3, "Start at login", true),
            MenuItem::Separator,
            entry(4, "Quit", false),
        ]
    );
    assert_eq!(tray_menu(false)[2], entry(3, "Start at login", false));
}

#[test]
fn each_command_maps_to_its_action() {
    assert_eq!(tray_action(1, false), TrayAction::Reload);
    assert_eq!(tray_action(2, false), TrayAction::EditConfig);
    assert_eq!(tray_action(3, false), TrayAction::SetStartup(true));
    assert_eq!(tray_action(3, true), TrayAction::SetStartup(false));
    assert_eq!(tray_action(4, true), TrayAction::Quit);
    assert_eq!(tray_action(0, true), TrayAction::Nothing);
    assert_eq!(tray_action(5, false), TrayAction::Nothing);
}
