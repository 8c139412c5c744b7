//! The program's roles, and what the icon in the tray does.

use crate::text::{push_text, same};
use vstd::prelude::*;

verus! {

/// The name under which the program keeps its data and starts with the system.
pub const APP_NAME: &'static str = "DeepSeekWidget";

// ───────── roles ─────────

/// What a process of the program does.
#[derive(Clone, Copy, Debug, PartialEq, Eq, Structural)]
pub enum Role {
    Widget,
    Login,
    Settings,
    Tray,
}

/// The role that an argument asks for.
pub open spec fn role_named(arg: Seq<char>) -> Role {
    if arg == "--widget"@ {
        Role::Widget
    } else if arg == "--login"@ {
        Role::Login
    } else if arg == "--settings"@ || arg == "--setkey"@ {
        Role::Settings
    } else {
        Role::Tray
    }
}

impl Role {
    /// The argument that asks for the role.
    pub open spec fn name(self) -> Seq<char> {
        match self {
            Role::Widget => "--widget"@,
            Role::Login => "--login"@,
            Role::Settings => "--settings"@,
            Role::Tray => ""@,
        }
    }

    /// The argument that asks for the role.
    pub fn arg(self) -> (r: &'static str)
        ensures
            r@ == self.name(),
            self == Role::Widget ==> r@ == "--widget"@,
            self == Role::Login ==> r@ == "--login"@,
            self == Role::Settings ==> r@ == "--settings"@,
            self == Role::Tray ==> r@ == ""@,
    {
        match self {
            Role::Widget => "--widget",
            Role::Login => "--login",
            Role::Settings => "--settings",
            Role::Tray => "",
        }
    }

    /// The role that the first argument asks for; that of the tray where it asks for none.
    pub fn of(arg: &str) -> (r: Role)
        ensures
            r == role_named(arg@),
            r == Role::Widget <==> arg@ == "--widget"@,
            r == Role::Login <==> arg@ == "--login"@,
            r == Role::Settings <==> arg@ == "--settings"@ || arg@ == "--setkey"@,
    {
        proof {
            law_role_taken_on(Role::Widget);
            law_role_taken_on(Role::Login);
            law_role_taken_on(Role::Settings);
            reveal_strlit("--widget");
            reveal_strlit("--setkey");
            reveal_strlit("--login");
            assert("--widget"@[2] == 'w' && "--setkey"@[2] == 's');
            assert("--login"@.len() == 7 && "--setkey"@.len() == 8);
        }
        if same(arg, "--widget") {
            Role::Widget
        } else if same(arg, "--login") {
            Role::Login
        } else if same(arg, "--settings") || same(arg, "--setkey") {
            Role::Settings
        } else {
            Role::Tray
        }
    }
}

/// A process that is started for a role takes on that role.
pub proof fn law_role_taken_on(role: Role)
    ensures
        role_named(role.name()) == role,
{
    reveal_strlit("--widget");
    reveal_strlit("--login");
    reveal_strlit("--settings");
    reveal_strlit("--setkey");
    reveal_strlit("");
    assert(""@.len() == 0);
    assert("--login"@.len() == 7);
    assert("--widget"@.len() == 8);
    assert("--setkey"@.len() == 8);
    assert("--settings"@.len() == 10);
}

// ───────── the menu ─────────

/// An entry of the menu.
#[derive(Clone, Copy, Debug, PartialEq, Eq, Structural)]
pub enum Item {
    Widget,
    Login,
    Settings,
    Autostart,
    Folder,
    Quit,
}

/// What is to be done.
#[derive(Clone, Copy, Debug, PartialEq, Eq, Structural)]
pub enum Action {
    Nothing,
    StopWidget,
    StartWidget,
    StartLogin,
    OpenSettings,
    ToggleAutostart,
    OpenFolder,
    /// Ends the widget and the login window, and then itself.
    Quit,
}

/// Shows the widget, or closes it where it runs.
pub fn toggle_widget(alive: bool) -> (r: Action)
    ensures
        r == if alive {
            Action::StopWidget
        } else {
            Action::StartWidget
        },
{
    if alive {
        Action::StopWidget
    } else {
        Action::StartWidget
    }
}

/// What an entry of the menu does. There is never more than one widget and one login window.
pub fn picked(item: Item, widget_alive: bool, login_alive: bool) -> (r: Action)
    ensures
        r == match item {
            Item::Widget => if widget_alive {
                Action::StopWidget
            } else {
                Action::StartWidget
            },
            Item::Login => if login_alive {
                Action::Nothing
            } else {
                Action::StartLogin
            },
            Item::Settings => Action::OpenSettings,
            Item::Autostart => Action::ToggleAutostart,
            Item::Folder => Action::OpenFolder,
            Item::Quit => Action::Quit,
        },
        r == Action::StartWidget ==> !widget_alive,
        r == Action::StartLogin ==> !login_alive,
{
    match item {
        Item::Widget => toggle_widget(widget_alive),
        Item::Login => if login_alive {
            Action::Nothing
        } else {
            Action::StartLogin
        },
        Item::Settings => Action::OpenSettings,
        Item::Autostart => Action::ToggleAutostart,
        Item::Folder => Action::OpenFolder,
        Item::Quit => Action::Quit,
    }
}

/// The entry that shows or closes the widget.
pub open spec fn widget_entry(alive: bool) -> Seq<char> {
    if alive {
        "关闭小组件"@
    } else {
        "显示小组件"@
    }
}

/// The entry offers to close a widget that runs, and to show one that does not.
pub proof fn law_entry_offers_other(alive: bool)
    ensures
        alive ==> widget_entry(alive) == "关闭小组件"@,
        !alive ==> widget_entry(alive) == "显示小组件"@,
{
}

/// The entry that shows or closes the widget.
pub fn widget_label(alive: bool) -> (r: &'static str)
    ensures
        r@ == widget_entry(alive),
        alive ==> r@ == "关闭小组件"@,
        !alive ==> r@ == "显示小组件"@,
{
    if alive {
        "关闭小组件"
    } else {
        "显示小组件"
    }
}

/// The entry that opens the login window.
pub fn login_label(has_session: bool) -> (r: &'static str)
    ensures
        r@ == if has_session {
            "重新登录 DeepSeek 平台…"@
        } else {
            "登录 DeepSeek 平台（同步用量）…"@
        },
{
    if has_session {
        "重新登录 DeepSeek 平台…"
    } else {
        "登录 DeepSeek 平台（同步用量）…"
    }
}

/// What the menu says of the widget.
#[derive(Clone, Copy, Debug, PartialEq, Eq, Structural)]
pub struct Menu {
    pub widget_shown: bool,
}

impl Menu {
    /// The menu at first: the widget does not run.
    pub fn new() -> (r: Menu)
        ensures
            !r.widget_shown,
    {
        Menu { widget_shown: false }
    }

    /// Follows whether the widget runs; where that changed, gives the entry's new text.
    pub fn follow(&mut self, alive: bool) -> (r: Option<&'static str>)
        ensures
            final(self).widget_shown == alive,
            match r {
                Some(t) => old(self).widget_shown != alive && t@ == widget_entry(alive) && t@
                    == if alive {
                    "关闭小组件"@
                } else {
                    "显示小组件"@
                },
                None => old(self).widget_shown == alive,
            },
    {
        if alive != self.widget_shown {
            self.widget_shown = alive;
            Some(widget_label(alive))
        } else {
            None
        }
    }
}

// ───────── starting with the system ─────────

/// What is to be done about starting with the system.
#[derive(Clone, Copy, Debug, PartialEq, Eq, Structural)]
pub enum Autostart {
    Add,
    Remove,
}

/// Turns starting with the system on where it is off, and off where it is on.
pub fn toggle_autostart(enabled: bool) -> (r: Autostart)
    ensures
        r == if enabled {
            Autostart::Remove
        } else {
            Autostart::Add
        },
{
    if enabled {
        Autostart::Remove
    } else {
        Autostart::Add
    }
}

/// The command by which the system starts the program: its path in quotes.
pub fn autostart_cmd(exe: &str) -> (r: String)
    ensures
        r@ == seq!['"'] + exe@ + seq!['"'],
{
    let mut r: String = String::new();
    r.push('"');
    push_text(&mut r, exe);
    r.push('"');
    assert(r@ =~= seq!['"'] + exe@ + seq!['"']);
    r
}

}
