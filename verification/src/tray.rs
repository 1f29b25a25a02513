//! The tray icon's menu: its entries and what each asks for.
use vstd::prelude::*;

verus! {

/// What the tray icon asks for.
#[derive(Clone, Copy, Debug, PartialEq, Eq, Structural)]
pub enum TrayAction {
    ShowPanel,
    ArrangeNow,
    Exit,
}

/// The menu entries: their ids and labels, in menu order.
pub fn tray_menu_entries() -> (r: Vec<(&'static str, &'static str)>)
    ensures
        r@.len() == 3,
        r@[0].0@ == "show-panel"@ && r@[0].1@ == "Show control panel"@,
        r@[1].0@ == "arrange-now"@ && r@[1].1@ == "Arrange now"@,
        r@[2].0@ == "exit"@ && r@[2].1@ == "Exit"@,
{
    let mut entries: Vec<(&'static str, &'static str)> = Vec::new();
    entries.push(("show-panel", "Show control panel"));
    entries.push(("arrange-now", "Arrange now"));
    entries.push(("exit", "Exit"));
    entries
}

/// What choosing the menu entry `id` asks for; nothing for an unknown id.
pub fn tray_menu_action(id: &str) -> (r: Option<TrayAction>)
    ensures
        r == if id@ == "show-panel"@ {
            Some(TrayAction::ShowPanel)
        } else if id@ == "arrange-now"@ {
            Some(TrayAction::ArrangeNow)
        } else if id@ == "exit"@ {
            Some(TrayAction::Exit)
        } else {
            None
        },
{
    if crate::text::same_text(id, "show-panel") {
        Some(TrayAction::ShowPanel)
    } else if crate::text::same_text(id, "arrange-now") {
        Some(TrayAction::ArrangeNow)
    } else if crate::text::same_text(id, "exit") {
        Some(TrayAction::Exit)
    } else {
        None
    }
}

} // verus!
