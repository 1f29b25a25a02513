//! What the control panel decides: the order of window groups, placeholder
//! numbers, what a click on a slot asks for, and the texts it shows.
use crate::controller::{ControllerCommand, opt_string_view, select_monitor, selected_index};
use crate::model::{
    CandidateView, ManagedTable, MonitorInfo, PokerSlotId, Rect, TableStatus, WindowId, WindowMode, clamp_i32,
    max_int, saturating_sub_i32,
};
use crate::text::{decimal, decimal_string, push_char, push_str};
use vstd::prelude::*;

verus! {

// ----- statuses and ids as text -----

/// How a status reads.
pub open spec fn status_words(status: TableStatus) -> Seq<char> {
    match status {
        TableStatus::Ready => "Ready"@,
        TableStatus::Parked => "Parked"@,
        TableStatus::AccessDenied => "Access denied"@,
        TableStatus::MoveFailed(message) => "Move failed: "@ + message@,
    }
}

impl TableStatus {
    /// How the status reads in the panel.
    pub fn text(&self) -> (r: String)
        ensures
            r@ == status_words(*self),
    {
        match self {
            TableStatus::Ready => String::from_str("Ready"),
            TableStatus::Parked => String::from_str("Parked"),
            TableStatus::AccessDenied => String::from_str("Access denied"),
            TableStatus::MoveFailed(message) => {
                let mut text = String::from_str("Move failed: ");
                push_str(&mut text, message.as_str());
                text
            },
        }
    }
}

pub open spec fn hex_digit(d: int) -> char {
    if d < 10 {
        ((d + 48) as u32) as char
    } else {
        ((d + 55) as u32) as char
    }
}

/// Upper-case hexadecimal digits of `n`, without leading zeros.
pub open spec fn hex(n: nat) -> Seq<char>
    decreases n,
{
    if n < 16 {
        seq![hex_digit(n as int)]
    } else {
        hex(n / 16).push(hex_digit((n % 16) as int))
    }
}

fn hex_char(d: u64) -> (c: char)
    requires
        d < 16,
    ensures
        c == hex_digit(d as int),
{
    if d < 10 {
        ((d as u8) + 48) as char
    } else {
        ((d as u8) + 55) as char
    }
}

fn hex_string(n: u64) -> (r: String)
    ensures
        r@ == hex(n as nat),
    decreases n,
{
    if n < 16 {
        let mut out = String::new();
        push_char(&mut out, hex_char(n));
        assert(out@ =~= seq![hex_digit(n as int)]);
        out
    } else {
        let mut out = hex_string(n / 16);
        push_char(&mut out, hex_char(n % 16));
        out
    }
}

impl WindowId {
    /// How a window id reads: `window-` and the id in upper-case hexadecimal.
    pub fn label(&self) -> (r: String)
        ensures
            r@ == "window-"@ + hex(self.0 as nat),
    {
        let mut text = String::from_str("window-");
        let digits = hex_string(self.0);
        push_str(&mut text, digits.as_str());
        text
    }
}

// ----- grouping and numbering -----

/// The order of the window groups in the panel: arranged tables, then
/// windows at the top right or in the free space, then parked ones, then
/// ignored ones.
pub open spec fn mode_rank(mode: WindowMode) -> u8 {
    match mode {
        WindowMode::Arranged => 0,
        WindowMode::TopRight | WindowMode::FreeSpace => 1,
        WindowMode::Parked => 2,
        WindowMode::Ignored => 3,
    }
}

pub fn window_mode_rank(mode: WindowMode) -> (r: u8)
    ensures
        r == mode_rank(mode),
{
    match mode {
        WindowMode::Arranged => 0,
        WindowMode::TopRight | WindowMode::FreeSpace => 1,
        WindowMode::Parked => 2,
        WindowMode::Ignored => 3,
    }
}

pub open spec fn placeholder_of(slot: PokerSlotId) -> int {
    slot.column * 2 + match slot.row {
        Some(r) => r as int,
        None => 0,
    } + 1
}

/// The number a placeholder shows: two per column, counted from one.
pub fn placeholder_number(slot: PokerSlotId) -> (r: usize)
    requires
        placeholder_of(slot) <= usize::MAX,
    ensures
        r == placeholder_of(slot),
{
    let row: usize = match slot.row {
        Some(r) => r as usize,
        None => 0,
    };
    slot.column * 2 + row + 1
}

/// What a click on a slot asks for. With nothing selected, clicking an
/// occupied slot selects its table; clicking the selected table again
/// deselects it; with a table selected, clicking any other slot moves it
/// there (swapping with an occupant). Every click but the first kind leaves
/// nothing selected.
pub fn slot_click_command(
    selected: &mut Option<WindowId>,
    occupant: Option<WindowId>,
    destination: PokerSlotId,
) -> (r: Option<ControllerCommand>)
    ensures
        match (*old(selected), occupant) {
            (None, Some(window)) => r is None && *final(selected) == Some(window),
            (None, None) => r is None && *final(selected) is None,
            (Some(source), Some(window)) => if source == window {
                r is None && *final(selected) is None
            } else {
                *final(selected) is None && (r matches Some(ControllerCommand::MoveToSlot { source: s, destination: d })
                    && s == source && d == destination)
            },
            (Some(source), None) => *final(selected) is None && (r matches Some(ControllerCommand::MoveToSlot { source: s, destination: d })
                && s == source && d == destination),
        },
{
    let previous = *selected;
    *selected = None;
    match (previous, occupant) {
        (None, Some(window)) => {
            *selected = Some(window);
            None
        },
        (Some(source), Some(window)) => if source == window {
            None
        } else {
            Some(ControllerCommand::MoveToSlot { source, destination })
        },
        (Some(source), None) => Some(ControllerCommand::MoveToSlot { source, destination }),
        (None, None) => None,
    }
}

// ----- texts -----

/// A label cut to `max_chars` characters, with an ellipsis when it was longer.
pub open spec fn shortened(label: Seq<char>, max_chars: nat) -> Seq<char> {
    if label.len() > max_chars {
        label.take(max_chars as int).push('…')
    } else {
        label
    }
}

pub fn short_label(label: &str, max_chars: usize) -> (r: String)
    ensures
        r@ == shortened(label@, max_chars as nat),
{
    let length = label.unicode_len();
    let mut out = String::new();
    let mut index: usize = 0;
    while index < length && index < max_chars
        invariant
            length == label@.len(),
            index <= length,
            index <= max_chars,
            out@ == label@.take(index as int),
        decreases length - index,
    {
        push_char(&mut out, label.get_char(index));
        index += 1;
        assert(out@ =~= label@.take(index as int));
    }
    if length > max_chars {
        push_char(&mut out, '…');
    } else {
        assert(label@.take(index as int) =~= label@);
    }
    out
}

/// The status a window shows: its own, or Ready.
pub open spec fn status_line(window: CandidateView) -> Seq<char> {
    match window.status {
        Some(status) => status_words(status),
        None => "Ready"@,
    }
}

pub fn status_text(window: &CandidateView) -> (r: String)
    ensures
        r@ == status_line(*window),
{
    match &window.status {
        Some(status) => status.text(),
        None => String::from_str("Ready"),
    }
}

/// The line under a window's name: what happens to it and how it went.
pub open spec fn subtitle(window: CandidateView) -> Seq<char> {
    if window.is_clubgg_lobby {
        match window.mode {
            WindowMode::Parked => "Lobby · parked bottom-right"@,
            WindowMode::TopRight => "Lobby · top-right · "@ + status_line(window),
            WindowMode::Ignored => "Lobby · ignored"@,
            WindowMode::FreeSpace => "Lobby · fills right side · "@ + status_line(window),
            WindowMode::Arranged => "Lobby · not a poker-table slot"@,
        }
    } else {
        match window.mode {
            WindowMode::Arranged => "Table "@ + decimal(
                match window.slot {
                    Some(n) => n as nat,
                    None => 0,
                },
            ) + " · "@ + status_line(window),
            WindowMode::Parked => "Parked at top-right"@,
            WindowMode::TopRight => "Top-right · "@ + status_line(window),
            WindowMode::FreeSpace => "Fills right-side space · "@ + status_line(window),
            WindowMode::Ignored => if window.likely_table {
                "Not managed · likely table"@
            } else {
                "Ignored · "@ + window.process_name@
            },
        }
    }
}

pub fn window_subtitle(window: &CandidateView) -> (r: String)
    ensures
        r@ == subtitle(*window),
{
    if window.is_clubgg_lobby {
        return match window.mode {
            WindowMode::Parked => String::from_str("Lobby · parked bottom-right"),
            WindowMode::TopRight => {
                let mut text = String::from_str("Lobby · top-right · ");
                let status = status_text(window);
                push_str(&mut text, status.as_str());
                text
            },
            WindowMode::Ignored => String::from_str("Lobby · ignored"),
            WindowMode::FreeSpace => {
                let mut text = String::from_str("Lobby · fills right side · ");
                let status = status_text(window);
                push_str(&mut text, status.as_str());
                text
            },
            WindowMode::Arranged => String::from_str("Lobby · not a poker-table slot"),
        };
    }
    match window.mode {
        WindowMode::Arranged => {
            let mut text = String::from_str("Table ");
            let number = match window.slot {
                Some(n) => n,
                None => 0,
            };
            let digits = decimal_string(number);
            push_str(&mut text, digits.as_str());
            push_str(&mut text, " · ");
            let status = status_text(window);
            push_str(&mut text, status.as_str());
            text
        },
        WindowMode::Parked => String::from_str("Parked at top-right"),
        WindowMode::TopRight => {
            let mut text = String::from_str("Top-right · ");
            let status = status_text(window);
            push_str(&mut text, status.as_str());
            text
        },
        WindowMode::FreeSpace => {
            let mut text = String::from_str("Fills right-side space · ");
            let status = status_text(window);
            push_str(&mut text, status.as_str());
            text
        },
        WindowMode::Ignored => if window.likely_table {
            String::from_str("Not managed · likely table")
        } else {
            let mut text = String::from_str("Ignored · ");
            push_str(&mut text, window.process_name.as_str());
            text
        },
    }
}

// ----- geometry of the panel -----

/// The work area the panel mirrors: that of the selected monitor (else the
/// primary one, else the first), or a 1920 by 1080 area without monitors.
pub fn selected_work_area(monitors: &Vec<MonitorInfo>, selected: &Option<String>) -> (r: Rect)
    ensures
        r == match selected_index(monitors@, opt_string_view(*selected)) {
            Some(m) => monitors@[m].work_area,
            None => Rect { left: 0, top: 0, width: 1920, height: 1080 },
        },
{
    match select_monitor(monitors, selected) {
        Some(m) => monitors[m].work_area,
        None => Rect::new(0, 0, 1920, 1080),
    }
}

pub open spec fn clamp_to(value: int, low: int, high: int) -> int {
    if value < low {
        low
    } else if value > high {
        high
    } else {
        value
    }
}

/// Where the panel goes when it is brought to the cursor: centred on the
/// cursor, kept inside the work area as far as it fits, its top-left corner
/// never left of or above the work area.
pub open spec fn panel_origin(cursor_x: i32, cursor_y: i32, window: Rect, work: Rect) -> (int, int) {
    let width = max_int(window.width as int, 1);
    let height = max_int(window.height as int, 1);
    let left = clamp_to(
        clamp_i32(cursor_x - width / 2),
        work.left as int,
        max_int(clamp_i32(work.spec_right() - width), work.left as int),
    );
    let top = clamp_to(
        clamp_i32(cursor_y - height / 2),
        work.top as int,
        max_int(clamp_i32(work.spec_bottom() - height), work.top as int),
    );
    (left, top)
}

pub fn panel_position(cursor_x: i32, cursor_y: i32, window: Rect, work: Rect) -> (r: (i32, i32))
    ensures
        (r.0 as int, r.1 as int) == panel_origin(cursor_x, cursor_y, window, work),
        work.left <= r.0,
        work.top <= r.1,
{
    let width = if window.width > 1 {
        window.width
    } else {
        1
    };
    let height = if window.height > 1 {
        window.height
    } else {
        1
    };
    let right_limit = saturating_sub_i32(work.right(), width);
    let max_left = if right_limit > work.left {
        right_limit
    } else {
        work.left
    };
    let bottom_limit = saturating_sub_i32(work.bottom(), height);
    let max_top = if bottom_limit > work.top {
        bottom_limit
    } else {
        work.top
    };
    let left = crate::model::clamp_between(saturating_sub_i32(cursor_x, width / 2), work.left, max_left);
    let top = crate::model::clamp_between(saturating_sub_i32(cursor_y, height / 2), work.top, max_top);
    (left, top)
}

// ----- the workspace line -----

/// How many of `windows` are shown with a mode in `modes`.
pub open spec fn count_modes(windows: Seq<CandidateView>, modes: Set<WindowMode>) -> nat
    decreases windows.len(),
{
    if windows.len() == 0 {
        0
    } else {
        count_modes(windows.drop_last(), modes) + if modes.contains(windows.last().mode) {
            1nat
        } else {
            0nat
        }
    }
}

/// The settings panel's line about the workspace: how many windows are
/// active, parked, sent to a corner or strip, and the rest, ignored.
pub open spec fn workspace_line(windows: Seq<CandidateView>) -> Seq<char> {
    let active = count_modes(windows, set![WindowMode::Arranged]);
    let parked = count_modes(windows, set![WindowMode::Parked]);
    let positioned = count_modes(windows, set![WindowMode::TopRight, WindowMode::FreeSpace]);
    decimal(active) + " active · "@ + decimal(parked) + " parked · "@ + decimal(positioned)
        + " positioned · "@ + decimal((windows.len() - active - parked - positioned) as nat) + " ignored"@
}

fn count_in(windows: &Vec<CandidateView>, first: WindowMode, second: WindowMode) -> (r: usize)
    ensures
        r == count_modes(windows@, set![first, second]),
        r <= windows@.len(),
{
    let mut count: usize = 0;
    let mut index: usize = 0;
    while index < windows.len()
        invariant
            index <= windows@.len(),
            count == count_modes(windows@.subrange(0, index as int), set![first, second]),
            count <= index,
        decreases windows@.len() - index,
    {
        assert(windows@.subrange(0, index + 1).drop_last() =~= windows@.subrange(0, index as int));
        let mode = windows[index].mode;
        if mode == first || mode == second {
            count += 1;
        }
        index += 1;
    }
    assert(windows@.subrange(0, index as int) =~= windows@);
    count
}

proof fn lemma_modes_apart(windows: Seq<CandidateView>)
    ensures
        count_modes(windows, set![WindowMode::Arranged]) + count_modes(windows, set![WindowMode::Parked])
            + count_modes(windows, set![WindowMode::TopRight, WindowMode::FreeSpace]) <= windows.len(),
    decreases windows.len(),
{
    if windows.len() > 0 {
        lemma_modes_apart(windows.drop_last());
    }
}

/// The workspace line for the listed windows (see `workspace_line`).
pub fn workspace_summary(windows: &Vec<CandidateView>) -> (r: String)
    ensures
        r@ == workspace_line(windows@),
{
    let active = count_in(windows, WindowMode::Arranged, WindowMode::Arranged);
    let parked = count_in(windows, WindowMode::Parked, WindowMode::Parked);
    let positioned = count_in(windows, WindowMode::TopRight, WindowMode::FreeSpace);
    assert(set![WindowMode::Arranged, WindowMode::Arranged] =~= set![WindowMode::Arranged]);
    assert(set![WindowMode::Parked, WindowMode::Parked] =~= set![WindowMode::Parked]);
    proof {
        lemma_modes_apart(windows@);
    }
    let ignored = windows.len() - active - parked - positioned;
    let mut out = decimal_string(active);
    push_str(&mut out, " active · ");
    let text = decimal_string(parked);
    push_str(&mut out, text.as_str());
    push_str(&mut out, " parked · ");
    let text = decimal_string(positioned);
    push_str(&mut out, text.as_str());
    push_str(&mut out, " positioned · ");
    let text = decimal_string(ignored);
    push_str(&mut out, text.as_str());
    push_str(&mut out, " ignored");
    out
}

/// A status that reports a failed move.
pub open spec fn is_failure(status: TableStatus) -> bool {
    status is AccessDenied || status is MoveFailed
}

/// Whether a table or a listed window reports a failed move: the settings
/// panel then offers to retry.
pub fn any_failure(tables: &Vec<ManagedTable>, windows: &Vec<CandidateView>) -> (r: bool)
    ensures
        r == ((exists|i: int| 0 <= i < tables@.len() && is_failure(#[trigger] tables@[i].status))
            || (exists|j: int| 0 <= j < windows@.len() && (#[trigger] windows@[j].status matches Some(status)
                && is_failure(status)))),
{
    let mut index: usize = 0;
    while index < tables.len()
        invariant
            index <= tables@.len(),
            forall|i: int| 0 <= i < index ==> !is_failure(#[trigger] tables@[i].status),
        decreases tables@.len() - index,
    {
        match &tables[index].status {
            TableStatus::AccessDenied | TableStatus::MoveFailed(_) => {
                return true;
            },
            _ => {},
        }
        index += 1;
    }
    let mut index: usize = 0;
    while index < windows.len()
        invariant
            index <= windows@.len(),
            forall|i: int| 0 <= i < tables@.len() ==> !is_failure(#[trigger] tables@[i].status),
            forall|j: int| 0 <= j < index ==> !(#[trigger] windows@[j].status matches Some(status) && is_failure(status)),
        decreases windows@.len() - index,
    {
        match &windows[index].status {
            Some(TableStatus::AccessDenied) | Some(TableStatus::MoveFailed(_)) => {
                return true;
            },
            _ => {},
        }
        index += 1;
    }
    false
}

/// A poker table the user parked: not a ClubGG lobby, shown in Park mode.
pub open spec fn is_parked_table(window: CandidateView) -> bool {
    window.poker_client is Some && !window.is_clubgg_lobby && window.mode == WindowMode::Parked
}

/// The positions, in order, of the first `n` windows that are parked tables.
pub open spec fn parked_positions(windows: Seq<CandidateView>, n: int) -> Seq<usize>
    decreases n,
{
    if n <= 0 {
        Seq::empty()
    } else if is_parked_table(windows[n - 1]) {
        parked_positions(windows, n - 1).push((n - 1) as usize)
    } else {
        parked_positions(windows, n - 1)
    }
}

/// Where the parked poker tables stand among the listed windows, in order:
/// the top bar offers a button for each.
pub fn parked_table_positions(windows: &Vec<CandidateView>) -> (r: Vec<usize>)
    ensures
        r@ == parked_positions(windows@, windows@.len() as int),
{
    let mut out: Vec<usize> = Vec::new();
    let mut index: usize = 0;
    while index < windows.len()
        invariant
            index <= windows@.len(),
            out@ == parked_positions(windows@, index as int),
        decreases windows@.len() - index,
    {
        let window = &windows[index];
        let parked = match window.mode {
            WindowMode::Parked => true,
            _ => false,
        };
        if window.poker_client.is_some() && !window.is_clubgg_lobby && parked {
            out.push(index);
        }
        index += 1;
    }
    out
}

} // verus!
