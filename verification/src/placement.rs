//! The decisions of one arrangement: which table goes to which cell, where
//! parked windows line up, where application windows go, and what the panel
//! is told afterwards.
use crate::layout::{PokerColumnLayout, MixedPokerLayout};
use crate::model::{
    BackendError, ColumnView, PokerColumnAssignment, Rect, SignatureView, Size, WindowSignature,
    backend_error_text, clamp_i32, columns_view, max_int, saturating_sub_i32,
};
use crate::text::{decimal, decimal_string, plural, plural_suffix, push_str};
use vstd::prelude::*;

verus! {

// ----- placement requests -----

/// The requests of one column: its occupied ClubGG cells, top first, or its
/// full-height table, each with the rectangle the layout gives it.
pub open spec fn column_requests(column: ColumnView, layout: PokerColumnLayout) -> Seq<
    (SignatureView, Rect),
> {
    match column {
        ColumnView::Club { top, bottom } => {
            let first: Seq<(SignatureView, Rect)> = match (top, layout.top) {
                (Some(s), Some(r)) => seq![(s, r)],
                _ => Seq::empty(),
            };
            let second: Seq<(SignatureView, Rect)> = match (bottom, layout.bottom) {
                (Some(s), Some(r)) => seq![(s, r)],
                _ => Seq::empty(),
            };
            first + second
        },
        ColumnView::Ld { table } => match table {
            Some(s) => seq![(s, layout.bounds)],
            None => Seq::empty(),
        },
        ColumnView::Empty => Seq::empty(),
    }
}

/// The requests of all columns that have a layout, column by column.
pub open spec fn requests_of(columns: Seq<ColumnView>, layouts: Seq<PokerColumnLayout>) -> Seq<
    (SignatureView, Rect),
>
    decreases columns.len(),
{
    if columns.len() == 0 {
        Seq::empty()
    } else {
        let n = columns.len() - 1;
        requests_of(columns.drop_last(), layouts) + if n < layouts.len() {
            column_requests(columns.last(), layouts[n])
        } else {
            Seq::empty()
        }
    }
}

pub open spec fn request_views(requests: Seq<(WindowSignature, Rect)>) -> Seq<(SignatureView, Rect)> {
    requests.map_values(|r: (WindowSignature, Rect)| (r.0@, r.1))
}

fn push_request(
    out: &mut Vec<(WindowSignature, Rect)>,
    signature: &Option<WindowSignature>,
    rect: Option<Rect>,
)
    ensures
        request_views(final(out)@) == request_views(old(out)@) + match (
            crate::model::opt_sig_view(*signature),
            rect,
        ) {
            (Some(s), Some(r)) => seq![(s, r)],
            _ => Seq::<(SignatureView, Rect)>::empty(),
        },
{
    match (signature, rect) {
        (Some(s), Some(r)) => {
            let ghost before = out@;
            out.push((s.clone(), r));
            assert(request_views(out@) =~= request_views(before) + seq![(s@, r)]);
        },
        _ => {
            assert(request_views(out@) =~= request_views(out@) + Seq::<(SignatureView, Rect)>::empty());
        },
    }
}

/// Which table signature goes to which rectangle: every occupied cell of a
/// column that the layout covers, in column order.
pub fn arrangement_requests(columns: &Vec<PokerColumnAssignment>, layout: &MixedPokerLayout) -> (r:
    Vec<(WindowSignature, Rect)>)
    ensures
        request_views(r@) == requests_of(columns_view(columns@), layout.columns@),
{
    let ghost view = columns_view(columns@);
    let mut out: Vec<(WindowSignature, Rect)> = Vec::new();
    let mut index: usize = 0;
    while index < columns.len()
        invariant
            index <= columns.len(),
            view == columns_view(columns@),
            request_views(out@) == requests_of(view.subrange(0, index as int), layout.columns@),
        decreases columns.len() - index,
    {
        let ghost before = request_views(out@);
        assert(view.subrange(0, index + 1).drop_last() =~= view.subrange(0, index as int));
        assert(view.subrange(0, index + 1).last() == columns@[index as int]@);
        if index < layout.columns.len() {
            let cell = layout.columns[index];
            match &columns[index] {
                PokerColumnAssignment::ClubGg { top, bottom } => {
                    push_request(&mut out, top, cell.top);
                    push_request(&mut out, bottom, cell.bottom);
                    assert(request_views(out@) =~= before + column_requests(
                        columns@[index as int]@,
                        cell,
                    ));
                },
                PokerColumnAssignment::LdPlayer { table } => {
                    push_request(&mut out, table, Some(cell.bounds));
                    assert(request_views(out@) =~= before + column_requests(
                        columns@[index as int]@,
                        cell,
                    ));
                },
                PokerColumnAssignment::Empty => {
                    assert(request_views(out@) =~= before + column_requests(
                        columns@[index as int]@,
                        cell,
                    ));
                },
            }
        } else {
            assert(request_views(out@) =~= before + Seq::<(SignatureView, Rect)>::empty());
        }
        index += 1;
    }
    assert(view.subrange(0, index as int) =~= view);
    out
}

// ----- parking -----

/// Where the next parked window goes: parked windows line up leftwards from
/// the bottom-right corner, in rows that stack upwards.
#[derive(Clone, Copy, Debug, PartialEq, Eq, Structural)]
pub struct ParkCursor {
    pub right: i32,
    pub bottom: i32,
    pub row_height: i32,
}

/// `value` clamped into `[1, high]`.
pub open spec fn clamp_extent(value: int, high: int) -> int {
    if value < 1 {
        1
    } else if value > high {
        high
    } else {
        value
    }
}

/// The rectangle for a parked window of `size` and the cursor it was placed
/// from: the window is clamped to the work area; when it would cross the left
/// edge a new row starts above the previous one.
pub open spec fn park_rect_spec(work: Rect, cursor: ParkCursor, size: Size) -> (Rect, ParkCursor) {
    let width = clamp_extent(size.width as int, work.width as int);
    let height = clamp_extent(size.height as int, work.height as int);
    let wraps = clamp_i32(cursor.right - width) < work.left;
    let from = if wraps {
        ParkCursor {
            right: work.spec_right() as i32,
            bottom: clamp_i32(cursor.bottom - cursor.row_height) as i32,
            row_height: 0,
        }
    } else {
        cursor
    };
    let rect = Rect {
        left: clamp_i32(from.right - width) as i32,
        top: max_int(clamp_i32(from.bottom - height), work.top as int) as i32,
        width: width as i32,
        height: height as i32,
    };
    (rect, from)
}

/// The cursor after a window was parked with its left edge at `left` and the
/// given `height`.
pub open spec fn park_advanced(from: ParkCursor, left: i32, height: i32) -> ParkCursor {
    ParkCursor { right: left, bottom: from.bottom, row_height: max_int(from.row_height as int, height as int) as i32 }
}

fn clamp_to_extent(value: i32, high: i32) -> (r: i32)
    requires
        high >= 1,
    ensures
        r == clamp_extent(value as int, high as int),
{
    if value < 1 {
        1
    } else if value > high {
        high
    } else {
        value
    }
}

/// Where a parked window of `size` goes from `cursor`. While the cursor is
/// inside the work area (and its extent fits in `i32`), the window's
/// horizontal extent is too, and it never starts above the work area.
pub fn park_slot(work: Rect, cursor: ParkCursor, size: Size) -> (r: (Rect, ParkCursor))
    requires
        work.width >= 1,
        work.height >= 1,
    ensures
        r == park_rect_spec(work, cursor, size),
        r.0.top >= work.top,
        work.left + work.width <= i32::MAX && work.left <= cursor.right <= work.spec_right()
            ==> work.left <= r.0.left && r.0.left + r.0.width <= work.spec_right(),
{
    let width = clamp_to_extent(size.width, work.width);
    let height = clamp_to_extent(size.height, work.height);
    let mut from = cursor;
    if saturating_sub_i32(cursor.right, width) < work.left {
        from = ParkCursor {
            right: work.right(),
            bottom: saturating_sub_i32(cursor.bottom, cursor.row_height),
            row_height: 0,
        };
    }
    let below = saturating_sub_i32(from.bottom, height);
    let top = if below > work.top {
        below
    } else {
        work.top
    };
    let rect = Rect::new(saturating_sub_i32(from.right, width), top, width, height);
    (rect, from)
}

/// The cursor after parking a window whose left edge ended at `left`.
pub fn advance_park_cursor(from: ParkCursor, left: i32, height: i32) -> (r: ParkCursor)
    ensures
        r == park_advanced(from, left, height),
{
    ParkCursor {
        right: left,
        bottom: from.bottom,
        row_height: if height > from.row_height {
            height
        } else {
            from.row_height
        },
    }
}

/// The size assumed for a window whose minimum size cannot be read.
pub fn fallback_minimum_size() -> (r: Size)
    ensures
        r == (Size { width: 240, height: 180 }),
{
    Size::new(240, 180)
}

// ----- application windows -----

/// A window placed at the top-right corner keeps its size, clamped to the work area.
pub open spec fn top_right_spec(work: Rect, current: Rect) -> Rect {
    let width = clamp_extent(current.width as int, work.width as int);
    let height = clamp_extent(current.height as int, work.height as int);
    Rect {
        left: clamp_i32(work.spec_right() - width) as i32,
        top: work.top,
        width: width as i32,
        height: height as i32,
    }
}

/// The rectangle of a window sent to the top-right corner; it lies inside the
/// work area's horizontal extent whenever that extent fits in `i32`.
pub fn top_right_rect(work: Rect, current: Rect) -> (r: Rect)
    requires
        work.width >= 1,
        work.height >= 1,
    ensures
        r == top_right_spec(work, current),
        work.left + work.width <= i32::MAX ==> work.left <= r.left && r.left + r.width
            <= work.spec_right(),
{
    let width = clamp_to_extent(current.width, work.width);
    let height = clamp_to_extent(current.height, work.height);
    Rect::new(saturating_sub_i32(work.right(), width), work.top, width, height)
}

// ----- what the panel is told -----

pub open spec fn sat_add(a: nat, b: nat) -> nat {
    if a + b > usize::MAX {
        usize::MAX as nat
    } else {
        a + b
    }
}

/// The status line after an arrangement.
pub open spec fn arrange_summary_text(
    enabled: nat,
    moved: nat,
    positioned_requested: nat,
    positioned_moved: nat,
    failed: nat,
    denied: nat,
    monitor: Seq<char>,
) -> Seq<char> {
    let requested = sat_add(enabled, positioned_requested);
    let total = sat_add(moved, positioned_moved);
    if requested == 0 {
        "No windows selected for positioning."@
    } else if failed == 0 && enabled == 0 {
        "Positioned "@ + decimal(positioned_moved) + " application window"@ + plural(
            positioned_moved,
        ) + " on "@ + monitor
    } else if failed == 0 && positioned_requested == 0 {
        "Arranged "@ + decimal(moved) + " active table"@ + plural(moved) + " on "@ + monitor
    } else if failed == 0 {
        "Arranged "@ + decimal(moved) + " table"@ + plural(moved) + " and positioned "@ + decimal(
            positioned_moved,
        ) + " application window"@ + plural(positioned_moved) + " on "@ + monitor
    } else if denied > 0 {
        "Moved "@ + decimal(total) + " of "@ + decimal(requested) + " selected windows; "@
            + decimal(denied)
            + " access denied. Run both apps at the same privilege level."@
    } else {
        "Moved "@ + decimal(total) + " of "@ + decimal(requested) + " selected windows; "@
            + decimal(failed) + " failed. See window status and log."@
    }
}

fn saturating_add_usize(a: usize, b: usize) -> (r: usize)
    ensures
        r == sat_add(a as nat, b as nat),
{
    if a > usize::MAX - b {
        usize::MAX
    } else {
        a + b
    }
}

fn push_count(s: &mut String, n: usize)
    ensures
        final(s)@ == old(s)@ + decimal(n as nat),
{
    let digits = decimal_string(n);
    push_str(s, digits.as_str());
}

/// The status line after an arrangement, from its counts: tables requested and
/// moved, application windows requested and moved, failures and refusals.
pub fn arrange_summary(
    enabled: usize,
    moved: usize,
    positioned_requested: usize,
    positioned_moved: usize,
    failed: usize,
    denied: usize,
    monitor: &str,
) -> (r: String)
    ensures
        r@ == arrange_summary_text(
            enabled as nat,
            moved as nat,
            positioned_requested as nat,
            positioned_moved as nat,
            failed as nat,
            denied as nat,
            monitor@,
        ),
{
    let requested = saturating_add_usize(enabled, positioned_requested);
    let total = saturating_add_usize(moved, positioned_moved);
    let mut s = String::new();
    if requested == 0 {
        push_str(&mut s, "No windows selected for positioning.");
    } else if failed == 0 && enabled == 0 {
        push_str(&mut s, "Positioned ");
        push_count(&mut s, positioned_moved);
        push_str(&mut s, " application window");
        push_str(&mut s, plural_suffix(positioned_moved));
        push_str(&mut s, " on ");
        push_str(&mut s, monitor);
    } else if failed == 0 && positioned_requested == 0 {
        push_str(&mut s, "Arranged ");
        push_count(&mut s, moved);
        push_str(&mut s, " active table");
        push_str(&mut s, plural_suffix(moved));
        push_str(&mut s, " on ");
        push_str(&mut s, monitor);
    } else if failed == 0 {
        push_str(&mut s, "Arranged ");
        push_count(&mut s, moved);
        push_str(&mut s, " table");
        push_str(&mut s, plural_suffix(moved));
        push_str(&mut s, " and positioned ");
        push_count(&mut s, positioned_moved);
        push_str(&mut s, " application window");
        push_str(&mut s, plural_suffix(positioned_moved));
        push_str(&mut s, " on ");
        push_str(&mut s, monitor);
    } else if denied > 0 {
        push_str(&mut s, "Moved ");
        push_count(&mut s, total);
        push_str(&mut s, " of ");
        push_count(&mut s, requested);
        push_str(&mut s, " selected windows; ");
        push_count(&mut s, denied);
        push_str(&mut s, " access denied. Run both apps at the same privilege level.");
    } else {
        push_str(&mut s, "Moved ");
        push_count(&mut s, total);
        push_str(&mut s, " of ");
        push_count(&mut s, requested);
        push_str(&mut s, " selected windows; ");
        push_count(&mut s, failed);
        push_str(&mut s, " failed. See window status and log.");
    }
    assert(s@ =~= arrange_summary_text(
        enabled as nat,
        moved as nat,
        positioned_requested as nat,
        positioned_moved as nat,
        failed as nat,
        denied as nat,
        monitor@,
    ));
    s
}

/// The status line after discovery.
pub open spec fn discovery_summary_text(poker: nat, other: nat) -> Seq<char> {
    decimal(poker) + " poker table"@ + plural(poker) + " · "@ + decimal(other) + " other window"@
        + plural(other) + " discovered"@
}

pub fn discovery_summary(poker: usize, other: usize) -> (r: String)
    ensures
        r@ == discovery_summary_text(poker as nat, other as nat),
{
    let mut s = String::new();
    push_count(&mut s, poker);
    push_str(&mut s, " poker table");
    push_str(&mut s, plural_suffix(poker));
    push_str(&mut s, " · ");
    push_count(&mut s, other);
    push_str(&mut s, " other window");
    push_str(&mut s, plural_suffix(other));
    push_str(&mut s, " discovered");
    assert(s@ =~= discovery_summary_text(poker as nat, other as nat));
    s
}

/// The status line after locating the ClubGG lobbies.
pub open spec fn lobby_summary_text(total: nat, failed: nat) -> Seq<char> {
    if failed == 0 {
        "Located "@ + decimal(total) + " ClubGG lobb"@ + if total == 1 {
            "y."@
        } else {
            "ies."@
        }
    } else {
        "Located "@ + decimal(if failed >= total { 0 } else { (total - failed) as nat }) + " of "@
            + decimal(total) + " ClubGG lobbies."@
    }
}

pub fn lobby_summary(total: usize, failed: usize) -> (r: String)
    ensures
        r@ == lobby_summary_text(total as nat, failed as nat),
{
    let mut s = String::new();
    push_str(&mut s, "Located ");
    if failed == 0 {
        push_count(&mut s, total);
        push_str(&mut s, " ClubGG lobb");
        if total == 1 {
            push_str(&mut s, "y.");
        } else {
            push_str(&mut s, "ies.");
        }
    } else {
        let located = if failed >= total {
            0
        } else {
            total - failed
        };
        push_count(&mut s, located);
        push_str(&mut s, " of ");
        push_count(&mut s, total);
        push_str(&mut s, " ClubGG lobbies.");
    }
    assert(s@ =~= lobby_summary_text(total as nat, failed as nat));
    s
}

/// `prefix` followed by the text of `error`.
pub fn failure_message(prefix: &str, error: &BackendError) -> (r: String)
    ensures
        r@ == prefix@ + backend_error_text(*error),
{
    let mut s = String::new();
    push_str(&mut s, prefix);
    let text = error.message();
    push_str(&mut s, text.as_str());
    assert(s@ =~= prefix@ + backend_error_text(*error));
    s
}

} // verus!
