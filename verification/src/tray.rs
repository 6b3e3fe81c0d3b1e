//! The tray icon's menu: which entries it shows and what a chosen entry
//! does. Showing the menu and carrying out the action are the
//! application's.

use vstd::prelude::*;

verus! {

/// Menu command: reload the config.
pub const ID_RELOAD: usize = 1;

/// Menu command: open the config in an editor.
pub const ID_EDIT: usize = 2;

/// Menu command: toggle starting at login.
pub const ID_STARTUP: usize = 3;

/// Menu command: quit.
pub const ID_QUIT: usize = 4;

/// One line of the tray menu.
#[derive(Debug, PartialEq, Eq)]
pub enum MenuItem {
    /// A command with its label, checked or not.
    Entry { id: usize, label: String, checked: bool },
    /// A dividing line.
    Separator,
}

/// The mathematical content of a [`MenuItem`].
pub enum MenuModel {
    Entry { id: usize, label: Seq<char>, checked: bool },
    Separator,
}

impl View for MenuItem {
    type V = MenuModel;

    open spec fn view(&self) -> MenuModel {
        match self {
            MenuItem::Entry { id, label, checked } => MenuModel::Entry {
                id: *id,
                label: label@,
                checked: *checked,
            },
            MenuItem::Separator => MenuModel::Separator,
        }
    }
}

/// What the tray does for a chosen command.
#[derive(Debug, Clone, Copy, PartialEq, Eq, Structural)]
pub enum TrayAction {
    Reload,
    EditConfig,
    SetStartup(bool),
    Quit,
    Nothing,
}

/// The menu, in order: reload, edit, start at login (checked when starting
/// at login is on), a separator, quit.
pub open spec fn menu_of(startup_enabled: bool) -> Seq<MenuModel> {
    seq![
        MenuModel::Entry { id: ID_RELOAD, label: "Reload config"@, checked: false },
        MenuModel::Entry { id: ID_EDIT, label: "Edit config"@, checked: false },
        MenuModel::Entry { id: ID_STARTUP, label: "Start at login"@, checked: startup_enabled },
        MenuModel::Separator,
        MenuModel::Entry { id: ID_QUIT, label: "Quit"@, checked: false },
    ]
}

/// The menu entries to show, given whether starting at login is on.
pub fn tray_menu(startup_enabled: bool) -> (items: Vec<MenuItem>)
    ensures
        items@.map_values(|i: MenuItem| i@) == menu_of(startup_enabled),
{
    let mut items: Vec<MenuItem> = Vec::new();
    items.push(
        MenuItem::Entry { id: ID_RELOAD, label: String::from_str("Reload config"), checked: false },
    );
    items.push(MenuItem::Entry { id: ID_EDIT, label: String::from_str("Edit config"), checked: false });
    items.push(
        MenuItem::Entry {
            id: ID_STARTUP,
            label: String::from_str("Start at login"),
            checked: startup_enabled,
        },
    );
    items.push(MenuItem::Separator);
    items.push(MenuItem::Entry { id: ID_QUIT, label: String::from_str("Quit"), checked: false });
    assert(items@.map_values(|i: MenuItem| i@) =~= menu_of(startup_enabled));
    items
}

/// What to do for the command `cmd` the menu returned (0 when it was
/// dismissed); the start-at-login entry turns the setting to the opposite
/// of `startup_enabled`.
pub fn tray_action(cmd: usize, startup_enabled: bool) -> (a: TrayAction)
    ensures
        a == (if cmd == ID_RELOAD {
            TrayAction::Reload
        } else if cmd == ID_EDIT {
            TrayAction::EditConfig
        } else if cmd == ID_STARTUP {
            TrayAction::SetStartup(!startup_enabled)
        } else if cmd == ID_QUIT {
            TrayAction::Quit
        } else {
            TrayAction::Nothing
        }),
{
    if cmd == ID_RELOAD {
        TrayAction::Reload
    } else if cmd == ID_EDIT {
        TrayAction::EditConfig
    } else if cmd == ID_STARTUP {
        TrayAction::SetStartup(!startup_enabled)
    } else if cmd == ID_QUIT {
        TrayAction::Quit
    } else {
        TrayAction::Nothing
    }
}

} // verus!
