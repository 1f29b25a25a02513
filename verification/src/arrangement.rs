//! Carrying out an arrangement: active tables go to their cells, parked
//! windows line up at the bottom-right, application windows go to the corner
//! or to the free strip, and the panel is told how it went.
use crate::calls::{DesktopCall, ask_minimum_size, request_move};
use crate::cells::{
    arrange_pos, arrange_tally, asks_for_request, count_sig, is_nth_enabled, law_each_table_moved_once,
    lemma_pos_keeps, lemma_tally_keeps,
    lemma_pos_mono, request_targets, stops_at_minimum, table_arranged, target_table,
};
use crate::config::AppConfig;
use crate::controller::{
    Controller, candidate_disposition, opt_string_view, selected_index, spec_for, specs_for, table_ids,
};
use crate::layout::{
    MixedPokerLayout, PokerColumnLayout, PokerColumnSpec, calculate_mixed_layout, column_layout,
    lays_out, layout_height, normalized_ldplayer_aspect_ratio, right_side_free_rect, strip_right_of,
};
use crate::model::{
    AspectRatio, BackendError, CandidateDisposition, ColumnView, ManagedTable, PokerColumnAssignment,
    Rect, SignatureView, Size, TableStatus, WindowBackend, WindowCandidate, WindowId, WindowSignature,
    columns_view,
};
use crate::parking::{
    fits_one_row, law_parked_windows_form_one_row, park_start, parked_sequence, row_width, usable_work,
};
use crate::placement::clamp_extent;
use crate::model::clamp_i32;
use crate::placement::{
    ParkCursor, advance_park_cursor, arrange_summary, arrange_summary_text, arrangement_requests,
    fallback_minimum_size, park_advanced, park_rect_spec, park_slot, request_views, requests_of,
    top_right_rect, top_right_spec,
};
use crate::slots::{enabled_sigs, entries_of};
use crate::snapshot::runtime_columns_of;
use crate::tracking::{
    first_where, lemma_first_where_bounds, record_status, signature_table_index, status_of,
    table_has_signature,
};
use vstd::prelude::*;

verus! {

/// The same tables in the same order; only their status and rectangles may differ.
pub open spec fn same_tables_but_placement(a: Seq<ManagedTable>, b: Seq<ManagedTable>) -> bool {
    &&& a.len() == b.len()
    &&& forall|i: int| 0 <= i < a.len() ==> same_table_identity(#[trigger] a[i], b[i])
}

pub open spec fn same_table_identity(a: ManagedTable, b: ManagedTable) -> bool {
    &&& a.id == b.id
    &&& a.label == b.label
    &&& a.signature == b.signature
    &&& a.poker_client == b.poker_client
    &&& a.preferred_aspect_ratio == b.preferred_aspect_ratio
    &&& a.enabled == b.enabled
}

/// The same candidates in the same order; only their rectangles may differ.
pub open spec fn same_candidates_but_rect(a: Seq<WindowCandidate>, b: Seq<WindowCandidate>) -> bool {
    &&& a.len() == b.len()
    &&& forall|i: int| 0 <= i < a.len() ==> same_candidate_identity(#[trigger] a[i], b[i])
}

pub open spec fn same_candidate_identity(a: WindowCandidate, b: WindowCandidate) -> bool {
    &&& a.id == b.id
    &&& a.label == b.label
    &&& a.process_name == b.process_name
    &&& a.class_name == b.class_name
    &&& a.signature == b.signature
    &&& a.poker_client == b.poker_client
    &&& a.is_clubgg_lobby == b.is_clubgg_lobby
    &&& a.preferred_aspect_ratio == b.preferred_aspect_ratio
    &&& a.likely_table == b.likely_table
}

/// The number of enabled tables.
pub open spec fn count_enabled(tables: Seq<ManagedTable>) -> nat
    decreases tables.len(),
{
    if tables.len() == 0 {
        0
    } else {
        count_enabled(tables.drop_last()) + if tables.last().enabled {
            1nat
        } else {
            0nat
        }
    }
}

/// The number of candidates sent to the top-right corner or the free strip.
pub open spec fn count_positioned(config: AppConfig, candidates: Seq<WindowCandidate>) -> nat
    decreases candidates.len(),
{
    if candidates.len() == 0 {
        0
    } else {
        count_positioned(config, candidates.drop_last()) + if positioned_mode(config, candidates.last()) {
            1nat
        } else {
            0nat
        }
    }
}

pub open spec fn positioned_mode(config: AppConfig, candidate: WindowCandidate) -> bool {
    candidate_disposition(config, candidate) == Some(CandidateDisposition::TopRight)
        || candidate_disposition(config, candidate) == Some(CandidateDisposition::FreeSpace)
}

/// The bounds of the poker columns laid out in `work`.
pub open spec fn column_bounds(work: Rect, specs: Seq<PokerColumnSpec>) -> Seq<Rect> {
    if specs.len() == 0 || work.width <= 0 || work.height <= 0 {
        Seq::empty()
    } else {
        Seq::new(specs.len(), |i: int| column_layout(work, specs, layout_height(work, specs), i).bounds)
    }
}

/// The full-height strip right of the poker columns in `work`: where a
/// Fill-space window goes.
pub open spec fn free_strip(c: Controller, work: Rect) -> Rect {
    strip_right_of(work, column_bounds(work, specs_for(runtime_columns_of(c), c.tables@)))
}

/// Where an application window is sent: a Top-right window keeps its size
/// at the corner, a Fill-space window takes the whole free strip even when
/// that is narrower than the window's minimum, and nothing is sent when
/// there is no area to send it to.
pub open spec fn position_target(config: AppConfig, work: Rect, free: Rect, candidate: WindowCandidate) -> Option<Rect> {
    match candidate_disposition(config, candidate) {
        Some(CandidateDisposition::TopRight) => if work.width >= 1 && work.height >= 1 {
            Some(top_right_spec(work, candidate.rect))
        } else {
            None
        },
        Some(CandidateDisposition::FreeSpace) => if free.width >= 1 && free.height >= 1 {
            Some(free)
        } else {
            None
        },
        _ => None,
    }
}

/// The moves requested for the application windows, in the panel's order.
pub open spec fn position_requests(config: AppConfig, work: Rect, free: Rect, candidates: Seq<WindowCandidate>) -> Seq<(WindowId, Rect)>
    decreases candidates.len(),
{
    if candidates.len() == 0 {
        Seq::empty()
    } else {
        let rest = position_requests(config, work, free, candidates.drop_last());
        match position_target(config, work, free, candidates.last()) {
            Some(rect) => rest.push((candidates.last().id, rect)),
            None => rest,
        }
    }
}

/// `calls` are exactly moves of the listed windows to the listed rectangles.
pub open spec fn moves_are(calls: Seq<DesktopCall>, requests: Seq<(WindowId, Rect)>) -> bool {
    &&& calls.len() == requests.len()
    &&& forall|k: int| 0 <= k < calls.len() ==> ((#[trigger] calls[k]) matches DesktopCall::Move { id, rect, answer }
        && id == requests[k].0 && rect == requests[k].1)
}

/// `after` continues `before`.
pub open spec fn extends(before: Seq<DesktopCall>, after: Seq<DesktopCall>) -> bool {
    before.len() <= after.len() && after.subrange(0, before.len() as int) == before
}

/// What was asked of the desktop after `before`.
pub open spec fn calls_since(before: Seq<DesktopCall>, after: Seq<DesktopCall>) -> Seq<DesktopCall> {
    after.subrange(before.len() as int, after.len() as int)
}

/// The answer to a move.
pub open spec fn answer_of(call: DesktopCall) -> Result<Rect, BackendError> {
    match call {
        DesktopCall::Move { answer, .. } => answer,
        _ => Err(BackendError::WindowGone),
    }
}

/// `status` is what a move answered with `answer` leaves: `success` when it
/// went through, else why it failed.
pub open spec fn outcome_fits(status: TableStatus, answer: Result<Rect, BackendError>, success: TableStatus) -> bool {
    match answer {
        Ok(_) => status == success,
        Err(BackendError::AccessDenied) => status == TableStatus::AccessDenied,
        Err(error) => status matches TableStatus::MoveFailed(text) && text@ == crate::model::backend_error_text(error),
    }
}

/// The outcome recorded when the free strip is empty.
pub open spec fn no_space_text() -> Seq<char> {
    "No usable space remains to the right of active poker tables"@
}

/// How many of `calls` are moves whose answer satisfies `p`.
pub open spec fn count_moves(calls: Seq<DesktopCall>, p: spec_fn(Result<Rect, BackendError>) -> bool) -> nat
    decreases calls.len(),
{
    if calls.len() == 0 {
        0
    } else {
        count_moves(calls.drop_last(), p) + if calls.last() is Move && p(answer_of(calls.last())) {
            1nat
        } else {
            0nat
        }
    }
}

/// A move that went through.
pub open spec fn went_through() -> spec_fn(Result<Rect, BackendError>) -> bool {
    |answer: Result<Rect, BackendError>| answer is Ok
}

/// A move that failed.
pub open spec fn went_wrong() -> spec_fn(Result<Rect, BackendError>) -> bool {
    |answer: Result<Rect, BackendError>| answer is Err
}

/// A move that was refused.
pub open spec fn was_refused() -> spec_fn(Result<Rect, BackendError>) -> bool {
    |answer: Result<Rect, BackendError>| answer == Err::<Rect, BackendError>(BackendError::AccessDenied)
}

/// How many Fill-space windows found no strip at all.
pub open spec fn count_no_space(config: AppConfig, free: Rect, candidates: Seq<WindowCandidate>) -> nat
    decreases candidates.len(),
{
    if candidates.len() == 0 {
        0
    } else {
        count_no_space(config, free, candidates.drop_last()) + if candidate_disposition(config, candidates.last())
            == Some(CandidateDisposition::FreeSpace) && !(free.width >= 1 && free.height >= 1) {
            1nat
        } else {
            0nat
        }
    }
}

proof fn lemma_count_no_space_ignores_rects(config: AppConfig, free: Rect, a: Seq<WindowCandidate>, b: Seq<WindowCandidate>)
    requires
        same_candidates_but_rect(a, b),
    ensures
        count_no_space(config, free, a) == count_no_space(config, free, b),
    decreases a.len(),
{
    if a.len() > 0 {
        assert(same_candidate_identity(a[a.len() - 1], b[b.len() - 1]));
        assert(same_candidates_but_rect(a.drop_last(), b.drop_last())) by {
            assert forall|i: int| 0 <= i < a.len() - 1 implies same_candidate_identity(#[trigger] a.drop_last()[i], b.drop_last()[i]) by {
                assert(same_candidate_identity(a[i], b[i]));
            }
        }
        lemma_count_no_space_ignores_rects(config, free, a.drop_last(), b.drop_last());
    }
}

/// A later window among the first `end` has the same id and is positioned too.
pub open spec fn positioned_again(config: AppConfig, candidates: Seq<WindowCandidate>, k: int, end: int) -> bool {
    exists|j: int| k < j < end && (#[trigger] candidates[j]).id == candidates[k].id && positioned_mode(config, candidates[j])
}

/// The outcome recorded for the positioned window `candidates[k]`: that of
/// its move (`calls` are the moves made, in order), or no space when a
/// Fill-space window has no strip.
pub open spec fn positioned_outcome(
    config: AppConfig,
    work: Rect,
    free: Rect,
    candidates: Seq<WindowCandidate>,
    calls: Seq<DesktopCall>,
    statuses: Seq<(WindowId, TableStatus)>,
    k: int,
) -> bool {
    match position_target(config, work, free, candidates[k]) {
        Some(_) => status_of(statuses, candidates[k].id) matches Some(status) && outcome_fits(
            status,
            answer_of(calls[position_requests(config, work, free, candidates.take(k)).len() as int]),
            TableStatus::Ready,
        ),
        None => candidate_disposition(config, candidates[k]) == Some(CandidateDisposition::FreeSpace)
            ==> (status_of(statuses, candidates[k].id) matches Some(TableStatus::MoveFailed(text))
            && text@ == no_space_text()),
    }
}

proof fn lemma_requests_grow(config: AppConfig, work: Rect, free: Rect, candidates: Seq<WindowCandidate>, k: int, i: int)
    requires
        0 <= k <= i <= candidates.len(),
    ensures
        position_requests(config, work, free, candidates.take(k)).len() <= position_requests(config, work, free, candidates.take(i)).len(),
        k < i && position_target(config, work, free, candidates[k]) is Some ==> position_requests(config, work, free, candidates.take(k)).len() < position_requests(config, work, free, candidates.take(i)).len(),
        forall|j: int| 0 <= j < position_requests(config, work, free, candidates.take(k)).len() ==> position_requests(config, work, free, candidates.take(k))[j] == position_requests(config, work, free, candidates.take(i))[j],
    decreases i - k,
{
    if k < i {
        lemma_requests_grow(config, work, free, candidates, k, i - 1);
        assert(candidates.take(i).drop_last() =~= candidates.take(i - 1));
        assert(candidates.take(k + 1).drop_last() =~= candidates.take(k));
        if k + 1 < i {
            lemma_requests_grow(config, work, free, candidates, k + 1, i);
        }
    }
}

/// The ids of the disabled tables, in order.
pub open spec fn disabled_ids(tables: Seq<ManagedTable>) -> Seq<WindowId>
    decreases tables.len(),
{
    if tables.len() == 0 {
        Seq::empty()
    } else if tables.last().enabled {
        disabled_ids(tables.drop_last())
    } else {
        disabled_ids(tables.drop_last()).push(tables.last().id)
    }
}

/// The ids of the parked ClubGG lobbies, in order.
pub open spec fn parked_lobby_ids(config: AppConfig, candidates: Seq<WindowCandidate>) -> Seq<WindowId>
    decreases candidates.len(),
{
    if candidates.len() == 0 {
        Seq::empty()
    } else if parked_lobby(config, candidates.last()) {
        parked_lobby_ids(config, candidates.drop_last()).push(candidates.last().id)
    } else {
        parked_lobby_ids(config, candidates.drop_last())
    }
}

/// The windows that are parked, in the order they are lined up: the
/// disabled tables, then the parked lobbies.
pub open spec fn parked_ids(c: Controller) -> Seq<WindowId> {
    disabled_ids(c.tables@) + parked_lobby_ids(c.config, c.candidates@)
}

/// Where a move sent its window.
pub open spec fn sent_rect(call: DesktopCall) -> Rect {
    match call {
        DesktopCall::Move { rect, .. } => rect,
        _ => Rect { left: 0, top: 0, width: 0, height: 0 },
    }
}

/// A move whose window took exactly the rectangle it was sent to.
pub open spec fn moved_as_sent(call: DesktopCall) -> bool {
    call matches DesktopCall::Move { rect, answer, .. } && answer == Ok::<Rect, BackendError>(rect)
}

/// The size a window is parked at: its reported minimum, else 240 by 180.
pub open spec fn size_answered(call: DesktopCall) -> Size {
    match call {
        DesktopCall::MinimumSize { minimum: Ok(size), .. } => size,
        _ => Size { width: 240, height: 180 },
    }
}

/// Where a parked window of `size` goes from `cursor` (see `park_rect_spec`).
#[verifier::opaque]
pub open spec fn park_place(work: Rect, cursor: ParkCursor, size: Size) -> (Rect, ParkCursor) {
    park_rect_spec(work, cursor, size)
}

/// The park cursor after a window was placed from `cursor` with the
/// questions `size_call` and `move_call`: a window that moved continues the
/// row from where it ended up, one that did not from where it was sent.
pub open spec fn park_next(work: Rect, cursor: ParkCursor, size_call: DesktopCall, move_call: DesktopCall) -> ParkCursor {
    let placed = park_place(work, cursor, size_answered(size_call));
    match answer_of(move_call) {
        Ok(actual) => park_advanced(placed.1, actual.left, actual.height),
        Err(_) => park_advanced(placed.1, placed.0.left, placed.0.height),
    }
}

/// The park cursor after the first `n` parked windows, whose questions are
/// `calls` (a minimum-size question, then a move, for each).
pub open spec fn park_cursor_after(work: Rect, calls: Seq<DesktopCall>, n: nat) -> ParkCursor
    decreases n,
{
    if n == 0 {
        park_start(work)
    } else {
        let k = 2 * (n - 1);
        park_next(work, park_cursor_after(work, calls, (n - 1) as nat), calls[k], calls[k + 1])
    }
}

/// `calls` park the windows `ids` one after another from the bottom-right
/// corner of `work`: each window is asked for its minimum size and then sent
/// to the next place in the row at that size.
pub open spec fn parks(work: Rect, ids: Seq<WindowId>, calls: Seq<DesktopCall>) -> bool {
    &&& calls.len() == 2 * ids.len()
    &&& forall|n: int| 0 <= n < ids.len() ==> {
        &&& (#[trigger] calls[2 * n]) matches DesktopCall::MinimumSize { id, .. } && id == ids[n]
        &&& calls[2 * n + 1] matches DesktopCall::Move { id, rect, .. } && id == ids[n] && rect == park_place(
            work,
            park_cursor_after(work, calls, n as nat),
            size_answered(calls[2 * n]),
        ).0
    }
}

proof fn lemma_cursor_keeps(work: Rect, calls: Seq<DesktopCall>, more: Seq<DesktopCall>, n: nat)
    requires
        2 * n <= calls.len(),
    ensures
        park_cursor_after(work, calls + more, n) == park_cursor_after(work, calls, n),
    decreases n,
{
    if n > 0 {
        lemma_cursor_keeps(work, calls, more, (n - 1) as nat);
        assert((calls + more)[2 * (n - 1)] == calls[2 * (n - 1)]);
        assert((calls + more)[2 * (n - 1) + 1] == calls[2 * (n - 1) + 1]);
    }
}

proof fn lemma_park_one(work: Rect, ids: Seq<WindowId>, before: Seq<DesktopCall>, after: Seq<DesktopCall>, id: WindowId)
    requires
        parks(work, ids, before),
        after.len() == before.len() + 2,
        after.subrange(0, before.len() as int) == before,
        after[before.len() as int] matches DesktopCall::MinimumSize { id: asked, .. } && asked == id,
        placed_as_asked(work, park_cursor_after(work, before, ids.len()), after[before.len() as int], after[before.len() + 1int], id),
    ensures
        parks(work, ids.push(id), after),
        park_cursor_after(work, after, ids.len() + 1) == park_next(
            work,
            park_cursor_after(work, before, ids.len()),
            after[before.len() as int],
            after[before.len() + 1int],
        ),
        forall|j: int| 0 <= j < before.len() ==> after[j] == before[j],
{
    assert forall|j: int| 0 <= j < before.len() implies after[j] == before[j] by {
        assert(after.subrange(0, before.len() as int)[j] == after[j]);
    }
    let more = after.subrange(before.len() as int, after.len() as int);
    assert(after =~= before + more);
    lemma_cursor_keeps(work, before, more, ids.len());
    assert forall|n: int| 0 <= n < ids.len() + 1 implies {
        &&& (#[trigger] after[2 * n]) matches DesktopCall::MinimumSize { id, .. } && id == ids.push(id)[n]
        &&& after[2 * n + 1] matches DesktopCall::Move { id, rect, .. } && id == ids.push(id)[n] && rect == park_place(
            work,
            park_cursor_after(work, after, n as nat),
            size_answered(after[2 * n]),
        ).0
    } by {
        if n < ids.len() {
            lemma_cursor_keeps(work, before, more, n as nat);
            assert(after[2 * n] == before[2 * n]);
            assert(after[2 * n + 1] == before[2 * n + 1]);
        }
    }
}

/// `move_call` sends window `id` to where a window answered by `size_call`
/// goes from `cursor`.
pub open spec fn placed_as_asked(work: Rect, cursor: ParkCursor, size_call: DesktopCall, move_call: DesktopCall, id: WindowId) -> bool {
    move_call matches DesktopCall::Move { id: moved, rect, .. } && moved == id && rect == park_place(work, cursor, size_answered(size_call)).0
}

proof fn lemma_since_grows(start: Seq<DesktopCall>, mid: Seq<DesktopCall>, end: Seq<DesktopCall>)
    requires
        extends(start, mid),
        end.len() == mid.len() + 2,
        end.subrange(0, mid.len() as int) == mid,
    ensures
        extends(start, end),
        calls_since(start, end).len() == calls_since(start, mid).len() + 2,
        calls_since(start, end).subrange(0, calls_since(start, mid).len() as int) == calls_since(start, mid),
        calls_since(start, end)[calls_since(start, mid).len() as int] == end[mid.len() as int],
        calls_since(start, end)[calls_since(start, mid).len() + 1int] == end[mid.len() + 1int],
{
    assert(end.subrange(0, start.len() as int) =~= mid.subrange(0, start.len() as int));
    assert(calls_since(start, end).subrange(0, calls_since(start, mid).len() as int) =~= calls_since(start, mid));
}

/// Parks window `id` from `cursor`: asks for its minimum size, sends it to
/// its place in the row at that size, and says where the row goes on.
fn park_one<B: WindowBackend>(
    backend: &B,
    calls: &mut Ghost<Seq<DesktopCall>>,
    work: Rect,
    cursor: ParkCursor,
    id: WindowId,
    ratio: AspectRatio,
) -> (r: (Result<Rect, BackendError>, ParkCursor))
    requires
        work.width >= 1,
        work.height >= 1,
    ensures
        final(calls)@.len() == old(calls)@.len() + 2,
        final(calls)@.subrange(0, old(calls)@.len() as int) == old(calls)@,
        final(calls)@[old(calls)@.len() as int] matches DesktopCall::MinimumSize { id: asked, .. } && asked == id,
        placed_as_asked(work, cursor, final(calls)@[old(calls)@.len() as int], final(calls)@[old(calls)@.len() + 1int], id),
        r.0 == answer_of(final(calls)@[old(calls)@.len() + 1int]),
        r.1 == park_next(work, cursor, final(calls)@[old(calls)@.len() as int], final(calls)@[old(calls)@.len() + 1int]),
{
    let ghost before = calls@;
    let minimum = ask_minimum_size(backend, calls, id, ratio);
    let size = match minimum {
        Ok(size) => size,
        Err(_) => fallback_minimum_size(),
    };
    let (rect, from) = park_slot(work, cursor, size);
    proof {
        reveal(park_place);
    }
    let answer = request_move(backend, calls, id, rect);
    let next = match answer {
        Ok(actual) => advance_park_cursor(from, actual.left, actual.height),
        Err(_) => advance_park_cursor(from, rect.left, rect.height),
    };
    assert(calls@.subrange(0, before.len() as int) =~= before);
    (answer, next)
}

/// The sizes the windows of a parking were placed at.
pub open spec fn row_sizes(calls: Seq<DesktopCall>, count: nat) -> Seq<Size> {
    Seq::new(count, |k: int| size_answered(calls[2 * k]))
}

/// Parking follows the row of parked windows: when every window moves to the
/// rectangle it is sent to, the rectangles requested are those of
/// `parked_sequence` for the sizes reported, so no two parked windows overlap
/// while the rows fit (`law_parked_windows_do_not_overlap`).
pub proof fn law_parking_follows_the_row(work: Rect, ids: Seq<WindowId>, calls: Seq<DesktopCall>, n: int)
    requires
        parks(work, ids, calls),
        forall|k: int| 0 <= k < ids.len() ==> moved_as_sent(#[trigger] calls[2 * k + 1]),
        0 <= n < ids.len(),
    ensures
        sent_rect(calls[2 * n + 1]) == parked_sequence(work, row_sizes(calls, ids.len())).0[n],
{
    lemma_cursor_follows_row(work, ids, calls, ids.len());
    assert(row_sizes(calls, ids.len()).take(ids.len() as int) =~= row_sizes(calls, ids.len()));
}

/// When every parked window moves where it is sent and all of them fit side
/// by side, parking lines them up in one row along the bottom of the work
/// area from its right edge leftwards, each at the size it reported (see
/// `law_parked_windows_form_one_row`).
pub proof fn law_parking_lines_up_one_row(work: Rect, ids: Seq<WindowId>, calls: Seq<DesktopCall>, k: int)
    requires
        parks(work, ids, calls),
        forall|j: int| 0 <= j < ids.len() ==> moved_as_sent(#[trigger] calls[2 * j + 1]),
        usable_work(work),
        fits_one_row(work, row_sizes(calls, ids.len())),
        0 <= k < ids.len(),
    ensures
        sent_rect(calls[2 * k + 1]) == (Rect {
            left: (work.left + work.width - row_width(row_sizes(calls, ids.len()), k + 1)) as i32,
            top: (work.top + work.height - size_answered(calls[2 * k]).height) as i32,
            width: size_answered(calls[2 * k]).width,
            height: size_answered(calls[2 * k]).height,
        }),
{
    law_parking_follows_the_row(work, ids, calls, k);
    law_parked_windows_form_one_row(work, row_sizes(calls, ids.len()), k);
}

/// A Top-right window is sent to the top-right corner of the work area at
/// its own size, clamped to the work area.
pub proof fn law_top_right_keeps_its_size_at_the_corner(config: AppConfig, work: Rect, free: Rect, candidate: WindowCandidate)
    requires
        candidate_disposition(config, candidate) == Some(CandidateDisposition::TopRight),
        work.width >= 1,
        work.height >= 1,
    ensures
        position_target(config, work, free, candidate) == Some(Rect {
            left: clamp_i32(work.spec_right() - clamp_extent(candidate.rect.width as int, work.width as int)) as i32,
            top: work.top,
            width: clamp_extent(candidate.rect.width as int, work.width as int) as i32,
            height: clamp_extent(candidate.rect.height as int, work.height as int) as i32,
        }),
{
}

/// Poker comes first: a Fill-space window is sent to the whole strip right
/// of the poker columns whatever its minimum size, and positioning asks the
/// desktop no minimum size at all (`position_other_windows` makes moves only).
pub proof fn law_fill_space_takes_the_whole_strip(config: AppConfig, work: Rect, free: Rect, candidate: WindowCandidate)
    requires
        candidate_disposition(config, candidate) == Some(CandidateDisposition::FreeSpace),
        free.width >= 1,
        free.height >= 1,
    ensures
        position_target(config, work, free, candidate) == Some(free),
{
}

proof fn lemma_row_len(work: Rect, sizes: Seq<Size>)
    ensures
        parked_sequence(work, sizes).0.len() == sizes.len(),
    decreases sizes.len(),
{
    if sizes.len() > 0 {
        lemma_row_len(work, sizes.drop_last());
    }
}

proof fn lemma_cursor_follows_row(work: Rect, ids: Seq<WindowId>, calls: Seq<DesktopCall>, n: nat)
    requires
        parks(work, ids, calls),
        forall|k: int| 0 <= k < ids.len() ==> moved_as_sent(#[trigger] calls[2 * k + 1]),
        n <= ids.len(),
    ensures
        park_cursor_after(work, calls, n) == parked_sequence(work, row_sizes(calls, ids.len()).take(n as int)).1,
        forall|k: int| 0 <= k < n ==> sent_rect(#[trigger] calls[2 * k + 1]) == parked_sequence(
            work,
            row_sizes(calls, ids.len()).take(n as int),
        ).0[k],
    decreases n,
{
    if n > 0 {
        let m = (n - 1) as nat;
        lemma_cursor_follows_row(work, ids, calls, m);
        let sizes = row_sizes(calls, ids.len());
        let before = parked_sequence(work, sizes.take(m as int));
        lemma_row_len(work, sizes.take(m as int));
        assert(sizes.take(n as int).drop_last() =~= sizes.take(m as int));
        let size = size_answered(calls[2 * m as int]);
        assert(sizes.take(n as int).last() == size);
        let c = park_cursor_after(work, calls, m);
        let placed = park_place(work, c, size);
        assert(sent_rect(calls[2 * m as int + 1]) == placed.0);
        assert(placed == park_rect_spec(work, before.1, size)) by {
            reveal(park_place);
        }
        assert(moved_as_sent(calls[2 * m as int + 1]));
        let after = parked_sequence(work, sizes.take(n as int));
        assert(after.0 == before.0.push(placed.0));
        assert forall|k: int| 0 <= k < n implies sent_rect(#[trigger] calls[2 * k + 1]) == after.0[k] by {
            if k < m {
                assert(after.0[k] == before.0[k]);
            }
        }
    }
}

/// Where the move of the `i`-th table, when it is disabled, stands among the parking calls.
pub open spec fn table_move_at(tables: Seq<ManagedTable>, i: int) -> int {
    (2 * disabled_ids(tables.take(i)).len() + 1) as int
}

/// Where the move of the `k`-th candidate, when it is a parked lobby, stands among the parking calls.
pub open spec fn lobby_move_at(tables: Seq<ManagedTable>, config: AppConfig, candidates: Seq<WindowCandidate>, k: int) -> int {
    (2 * (disabled_ids(tables).len() + parked_lobby_ids(config, candidates.take(k)).len()) + 1) as int
}

/// The work area parking uses.
pub open spec fn park_area(c: Controller) -> Rect {
    match selected_work_area(c) {
        Some(work) => work,
        None => Rect { left: 0, top: 0, width: 0, height: 0 },
    }
}

/// A disabled table after its move was answered with `answer`.
pub open spec fn table_parked_as_answered(table: ManagedTable, answer: Result<Rect, BackendError>) -> bool {
    &&& outcome_fits(table.status, answer, TableStatus::Parked)
    &&& answer matches Ok(actual) ==> table.current_rect == actual
}

/// A parked lobby after its move was answered with `answer`.
pub open spec fn lobby_parked_as_answered(
    statuses: Seq<(WindowId, TableStatus)>,
    candidate: WindowCandidate,
    answer: Result<Rect, BackendError>,
) -> bool {
    &&& status_of(statuses, candidate.id) matches Some(status) && outcome_fits(status, answer, TableStatus::Parked)
    &&& answer matches Ok(actual) ==> candidate.rect == actual
}

/// A later lobby among the first `end` has the same id and is parked too.
pub open spec fn lobby_parked_again(config: AppConfig, candidates: Seq<WindowCandidate>, k: int, end: int) -> bool {
    exists|j: int| k < j < end && (#[trigger] candidates[j]).id == candidates[k].id && parked_lobby(config, candidates[j])
}

/// One more disabled table parked: the earlier ones keep the answers they
/// had, the new one has the answer to the latest move.
proof fn lemma_tables_parked_step(
    start: Seq<ManagedTable>,
    before: Seq<ManagedTable>,
    after: Seq<ManagedTable>,
    since_before: Seq<DesktopCall>,
    since: Seq<DesktopCall>,
    index: int,
)
    requires
        0 <= index < start.len(),
        since_before.len() == 2 * disabled_ids(start.take(index)).len(),
        forall|j: int| 0 <= j < since_before.len() ==> since[j] == since_before[j],
        forall|i: int|
            0 <= i < index && !(#[trigger] start[i]).enabled ==> table_parked_as_answered(
                before[i],
                answer_of(since_before[table_move_at(start, i)]),
            ),
        forall|i: int| 0 <= i < index ==> after[i] == before[i],
        table_parked_as_answered(after[index], answer_of(since[table_move_at(start, index)])),
    ensures
        forall|i: int|
            0 <= i < index + 1 && !(#[trigger] start[i]).enabled ==> table_parked_as_answered(
                after[i],
                answer_of(since[table_move_at(start, i)]),
            ),
{
    assert forall|i: int|
        0 <= i < index + 1 && !(#[trigger] start[i]).enabled implies table_parked_as_answered(
            after[i],
            answer_of(since[table_move_at(start, i)]),
        ) by {
        if i < index {
            lemma_disabled_grow(start, i, index);
            assert(since[table_move_at(start, i)] == since_before[table_move_at(start, i)]);
            assert(after[i] == before[i]);
        }
    }
}

proof fn lemma_disabled_grow(tables: Seq<ManagedTable>, k: int, i: int)
    requires
        0 <= k <= i <= tables.len(),
    ensures
        disabled_ids(tables.take(k)).len() <= disabled_ids(tables.take(i)).len(),
        k < i && !tables[k].enabled ==> disabled_ids(tables.take(k)).len() < disabled_ids(tables.take(i)).len(),
    decreases i - k,
{
    if k < i {
        lemma_disabled_grow(tables, k, i - 1);
        assert(tables.take(i).drop_last() =~= tables.take(i - 1));
        assert(tables.take(k + 1).drop_last() =~= tables.take(k));
        if k + 1 < i {
            lemma_disabled_grow(tables, k + 1, i);
        }
    }
}

proof fn lemma_lobbies_grow(config: AppConfig, candidates: Seq<WindowCandidate>, k: int, i: int)
    requires
        0 <= k <= i <= candidates.len(),
    ensures
        parked_lobby_ids(config, candidates.take(k)).len() <= parked_lobby_ids(config, candidates.take(i)).len(),
        k < i && parked_lobby(config, candidates[k]) ==> parked_lobby_ids(config, candidates.take(k)).len() < parked_lobby_ids(config, candidates.take(i)).len(),
    decreases i - k,
{
    if k < i {
        lemma_lobbies_grow(config, candidates, k, i - 1);
        assert(candidates.take(i).drop_last() =~= candidates.take(i - 1));
        assert(candidates.take(k + 1).drop_last() =~= candidates.take(k));
        if k + 1 < i {
            lemma_lobbies_grow(config, candidates, k + 1, i);
        }
    }
}

/// The column layouts of `specs` in `work` (see `lays_out`).
pub open spec fn layout_columns(work: Rect, specs: Seq<PokerColumnSpec>) -> Seq<PokerColumnLayout> {
    if specs.len() == 0 || work.width <= 0 || work.height <= 0 {
        Seq::empty()
    } else {
        Seq::new(specs.len(), |i: int| column_layout(work, specs, layout_height(work, specs), i))
    }
}

/// Which table name goes to which cell when `c` is arranged in `work`.
pub open spec fn table_requests(c: Controller, work: Rect) -> Seq<(SignatureView, Rect)> {
    requests_of(runtime_columns_of(c), layout_columns(work, specs_for(runtime_columns_of(c), c.tables@)))
}

/// `after`'s tables are `before`'s arranged in `work`: every cell's table
/// (see `target_table`) was asked for its minimum size and, unless the cell is
/// too small for it, sent to the cell, and carries the outcome; these are the
/// first questions put to the desktop.
pub open spec fn arranged_tables(before: Controller, after: Controller, work: Rect) -> bool {
    let requests = table_requests(before, work);
    let since = calls_since(before.calls@, after.calls@);
    &&& extends(before.calls@, after.calls@)
    &&& arrange_pos(before.tables@, requests, since, requests.len() as int) <= since.len()
    &&& forall|k: int| 0 <= k < requests.len() ==> #[trigger] asks_for_request(before.tables@, requests, since, k)
    &&& forall|k: int| 0 <= k < requests.len() && #[trigger] target_table(before.tables@, requests, k) >= 0 ==> table_arranged(
        before.tables@[target_table(before.tables@, requests, k)],
        after.tables@[target_table(before.tables@, requests, k)],
        since[arrange_pos(before.tables@, requests, since, k)],
        since[arrange_pos(before.tables@, requests, since, k) + 1],
        requests[k].1,
    )
}

/// After the tables' moves, the disabled tables and parked lobbies are lined
/// up (see `parks`), then the application windows are sent where
/// `position_requests` says; these are all the other questions put to the
/// desktop, in this order.
pub open spec fn parked_then_positioned(before: Controller, after: Controller, work: Rect) -> bool {
    let requests = table_requests(before, work);
    let since = calls_since(before.calls@, after.calls@);
    let p = arrange_pos(before.tables@, requests, since, requests.len() as int);
    let q = if can_park(before) {
        p + 2 * parked_ids(before).len()
    } else {
        p
    };
    &&& p <= q <= since.len()
    &&& can_park(before) ==> parks(park_area(before), parked_ids(before), since.subrange(p, q))
    &&& moves_are(
        since.subrange(q, since.len() as int),
        position_requests(before.config, work, free_strip(before, work), before.candidates@),
    )
}

/// Moving tables and recording outcomes changes nothing that decides the
/// layout, the parking order or the free strip.
proof fn lemma_placement_keeps_layout(a: Seq<ManagedTable>, b: Seq<ManagedTable>)
    requires
        same_tables_but_placement(a, b),
    ensures
        enabled_sigs(a) == enabled_sigs(b),
        entries_of(a, true) == entries_of(b, true),
        disabled_ids(a) == disabled_ids(b),
        forall|s: SignatureView| first_where(a, table_has_signature(s)) == first_where(b, table_has_signature(s)),
    decreases a.len(),
{
    if a.len() > 0 {
        assert(same_tables_but_placement(a.drop_last(), b.drop_last())) by {
            assert forall|i: int| 0 <= i < a.len() - 1 implies same_table_identity(#[trigger] a.drop_last()[i], b.drop_last()[i]) by {
                assert(same_table_identity(a[i], b[i]));
            }
        }
        lemma_placement_keeps_layout(a.drop_last(), b.drop_last());
        assert(same_table_identity(a[a.len() - 1], b[b.len() - 1]));
        assert forall|s: SignatureView| first_where(a, table_has_signature(s)) == first_where(b, table_has_signature(s)) by {
            assert(first_where(a.drop_last(), table_has_signature(s)) == first_where(b.drop_last(), table_has_signature(s)));
        }
    }
}

proof fn lemma_free_strip_kept(a: Controller, b: Controller, work: Rect)
    requires
        same_tables_but_placement(a.tables@, b.tables@),
        a.config == b.config,
    ensures
        free_strip(a, work) == free_strip(b, work),
{
    lemma_placement_keeps_layout(a.tables@, b.tables@);
    let columns = runtime_columns_of(a);
    assert(runtime_columns_of(b) == columns);
    assert forall|i: int| 0 <= i < columns.len() implies spec_for(#[trigger] columns[i], a.tables@) == spec_for(columns[i], b.tables@) by {
        match columns[i] {
            ColumnView::Ld { table: Some(signature) } => {
                let found = first_where(a.tables@, table_has_signature(signature));
                assert(found == first_where(b.tables@, table_has_signature(signature)));
                lemma_first_where_bounds(a.tables@, table_has_signature(signature));
                if 0 <= found < a.tables@.len() {
                    assert(same_table_identity(a.tables@[found], b.tables@[found]));
                }
            },
            _ => {},
        }
    }
    assert(specs_for(columns, a.tables@) =~= specs_for(columns, b.tables@));
}

proof fn lemma_position_requests_kept(config: AppConfig, work: Rect, free: Rect, a: Seq<WindowCandidate>, b: Seq<WindowCandidate>)
    requires
        same_candidates_but_rect(a, b),
        forall|i: int| 0 <= i < a.len() && !parked_lobby(config, #[trigger] a[i]) ==> b[i] == a[i],
    ensures
        position_requests(config, work, free, a) == position_requests(config, work, free, b),
    decreases a.len(),
{
    if a.len() > 0 {
        let n = a.len() - 1;
        assert(same_candidate_identity(a[n], b[n]));
        assert(same_candidates_but_rect(a.drop_last(), b.drop_last())) by {
            assert forall|i: int| 0 <= i < n implies same_candidate_identity(#[trigger] a.drop_last()[i], b.drop_last()[i]) by {
                assert(same_candidate_identity(a[i], b[i]));
            }
        }
        assert forall|i: int| 0 <= i < n && !parked_lobby(config, #[trigger] a.drop_last()[i]) implies b.drop_last()[i] == a.drop_last()[i] by {
            assert(a.drop_last()[i] == a[i]);
        }
        lemma_position_requests_kept(config, work, free, a.drop_last(), b.drop_last());
        assert(candidate_disposition(config, a[n]) == candidate_disposition(config, b[n]));
    }
}

/// `after` is `before` arranged: on the selected monitor the tables went to
/// their cells (`arranged_tables`), then parking and the application windows
/// followed (`parked_then_positioned`); without a monitor only the status
/// line says so. No reflow is left due.
pub open spec fn arrangement_done(before: Controller, after: Controller) -> bool {
    &&& !after.dirty
    &&& after.config == before.config
    &&& after.monitors == before.monitors
    &&& after.save_requested == before.save_requested
    &&& match selected_index(before.monitors@, opt_string_view(before.config.selected_monitor)) {
        Some(m) => arranged_tables(before, after, before.monitors@[m].work_area) && parked_then_positioned(
            before,
            after,
            before.monitors@[m].work_area,
        ),
        None => after.status_message@ == "No usable monitor found."@ && after.tables == before.tables
            && after.candidates == before.candidates,
    }
}

/// The status line after `before` was arranged into `after` on a monitor
/// with `work` and `label`: the enabled tables, how many moved, how many
/// application windows were selected and moved, and how many moves failed
/// or were refused, all as the desktop answered.
pub open spec fn arrange_report(before: Controller, after: Controller, work: Rect, label: Seq<char>) -> Seq<char> {
    let requests = table_requests(before, work);
    let since = calls_since(before.calls@, after.calls@);
    let p = arrange_pos(before.tables@, requests, since, requests.len() as int);
    let q = if can_park(before) {
        p + 2 * parked_ids(before).len()
    } else {
        p
    };
    let tally = arrange_tally(before.tables@, requests, since, requests.len() as int);
    let moves = since.subrange(q, since.len() as int);
    arrange_summary_text(
        count_enabled(before.tables@),
        tally.0,
        count_positioned(before.config, before.candidates@),
        count_moves(moves, went_through()),
        crate::placement::sat_add(
            tally.1,
            count_moves(moves, went_wrong()) + count_no_space(before.config, free_strip(before, work), before.candidates@),
        ),
        crate::placement::sat_add(tally.2, count_moves(moves, was_refused())),
        label,
    )
}

/// Calls asked after those of a first step and a second step are those of both in turn.
proof fn lemma_since_chain(a: Seq<DesktopCall>, b: Seq<DesktopCall>, c: Seq<DesktopCall>)
    requires
        extends(a, b),
        extends(b, c),
    ensures
        extends(a, c),
        calls_since(a, c) == calls_since(a, b) + calls_since(b, c),
{
    assert(c.subrange(0, a.len() as int) =~= b.subrange(0, a.len() as int));
    assert(calls_since(a, c) =~= calls_since(a, b) + calls_since(b, c));
}

/// A ClubGG lobby that is parked.
pub open spec fn parked_lobby(config: AppConfig, candidate: WindowCandidate) -> bool {
    candidate.is_clubgg_lobby && candidate_disposition(config, candidate) == Some(
        CandidateDisposition::Parked,
    )
}

/// The work area of the monitor the controller arranges on.
pub open spec fn selected_work_area(c: Controller) -> Option<Rect> {
    match selected_index(c.monitors@, opt_string_view(c.config.selected_monitor)) {
        Some(i) => Some(c.monitors@[i].work_area),
        None => None,
    }
}

/// A monitor with a usable work area is selected.
pub open spec fn can_park(c: Controller) -> bool {
    selected_work_area(c) matches Some(work) && work.width >= 1 && work.height >= 1
}

pub open spec fn table_with_status(t: ManagedTable, status: TableStatus) -> ManagedTable {
    ManagedTable {
        id: t.id,
        label: t.label,
        signature: t.signature,
        poker_client: t.poker_client,
        preferred_aspect_ratio: t.preferred_aspect_ratio,
        enabled: t.enabled,
        last_active_rect: t.last_active_rect,
        current_rect: t.current_rect,
        status,
    }
}

fn set_table_status(tables: &mut Vec<ManagedTable>, index: usize, status: TableStatus)
    requires
        index < old(tables)@.len(),
    ensures
        final(tables)@ == old(tables)@.update(index as int, table_with_status(old(tables)@[index as int], status)),
{
    let mut table = tables[index].clone();
    table.status = status;
    tables.set(index, table);
}

fn set_table_rects(tables: &mut Vec<ManagedTable>, index: usize, current: Rect, active: bool)
    requires
        index < old(tables)@.len(),
    ensures
        final(tables)@.len() == old(tables)@.len(),
        forall|k: int| 0 <= k < old(tables)@.len() && k != index ==> final(tables)@[k] == old(tables)@[k],
        same_table_identity(old(tables)@[index as int], final(tables)@[index as int]),
        final(tables)@[index as int].status == old(tables)@[index as int].status,
        final(tables)@[index as int].current_rect == current,
        final(tables)@[index as int].last_active_rect == if active {
            current
        } else {
            old(tables)@[index as int].last_active_rect
        },
{
    let mut table = tables[index].clone();
    table.current_rect = current;
    if active {
        table.last_active_rect = current;
    }
    tables.set(index, table);
}

fn failed_status(error: &BackendError) -> (r: TableStatus)
    ensures
        *error is AccessDenied ==> r == TableStatus::AccessDenied,
        !(*error is AccessDenied) ==> r is MoveFailed && r->MoveFailed_0@
            == crate::model::backend_error_text(*error),
{
    match error {
        BackendError::AccessDenied => TableStatus::AccessDenied,
        _ => TableStatus::MoveFailed(error.message()),
    }
}

impl Controller {
    /// How each of `columns` is laid out (see `spec_for`).
    pub fn column_specs(&self, columns: &Vec<PokerColumnAssignment>) -> (r: Vec<PokerColumnSpec>)
        ensures
            r@ == specs_for(columns_view(columns@), self.tables@),
    {
        let ghost target = specs_for(columns_view(columns@), self.tables@);
        let mut out: Vec<PokerColumnSpec> = Vec::new();
        let mut index: usize = 0;
        while index < columns.len()
            invariant
                index <= columns.len(),
                target == specs_for(columns_view(columns@), self.tables@),
                out@ == target.subrange(0, index as int),
            decreases columns.len() - index,
        {
            let spec = match &columns[index] {
                PokerColumnAssignment::LdPlayer { table: Some(signature) } => {
                    let found = signature_table_index(&self.tables, signature);
                    proof {
                        lemma_first_where_bounds(self.tables@, table_has_signature(signature@));
                    }
                    let detected = if found < self.tables.len() {
                        self.tables[found].preferred_aspect_ratio
                    } else {
                        AspectRatio { scaled: 0 }
                    };
                    PokerColumnSpec::LdPlayer {
                        aspect_ratio: normalized_ldplayer_aspect_ratio(detected),
                    }
                },
                _ => PokerColumnSpec::ClubGg,
            };
            assert(spec == target[index as int]);
            out.push(spec);
            index += 1;
            assert(out@ =~= target.subrange(0, index as int));
        }
        assert(target.subrange(0, index as int) =~= target);
        out
    }

    /// The layout of `columns` in `work_area`.
    pub fn mixed_layout_for(&self, work_area: Rect, columns: &Vec<PokerColumnAssignment>) -> (r:
        MixedPokerLayout)
        ensures
            lays_out(r, work_area, specs_for(columns_view(columns@), self.tables@)),
    {
        let specs = self.column_specs(columns);
        calculate_mixed_layout(work_area, specs.as_slice())
    }

    /// Lines up the disabled tables, then the parked ClubGG lobbies, leftwards
    /// from the bottom-right corner of the selected monitor, each at the size
    /// it reports (see `parks`). A window that moved is marked parked and keeps
    /// the rectangle it took; one that did not is marked with the reason.
    /// Nothing else changes, and nothing at all without a usable monitor.
    #[verifier::spinoff_prover]
    #[verifier::rlimit(100)]
    pub fn park_all<B: WindowBackend>(&mut self, backend: &B)
        requires
            old(self).wf(),
        ensures
            final(self).wf(),
            extends(old(self).calls@, final(self).calls@),
            !can_park(*old(self)) ==> final(self).calls@ == old(self).calls@ && final(self).tables == old(
                self,
            ).tables && final(self).candidates == old(self).candidates && final(self).window_statuses
                == old(self).window_statuses,
            can_park(*old(self)) ==> parks(
                park_area(*old(self)),
                parked_ids(*old(self)),
                calls_since(old(self).calls@, final(self).calls@),
            ),
            can_park(*old(self)) ==> forall|i: int|
                0 <= i < old(self).tables@.len() && !(#[trigger] old(self).tables@[i]).enabled
                    ==> table_parked_as_answered(
                    final(self).tables@[i],
                    answer_of(
                        calls_since(old(self).calls@, final(self).calls@)[table_move_at(old(self).tables@, i)],
                    ),
                ),
            can_park(*old(self)) ==> forall|k: int|
                0 <= k < old(self).candidates@.len() && parked_lobby(old(self).config, #[trigger] old(self).candidates@[k])
                    && !lobby_parked_again(old(self).config, old(self).candidates@, k, old(self).candidates@.len() as int)
                    ==> lobby_parked_as_answered(
                    final(self).window_statuses@,
                    final(self).candidates@[k],
                    answer_of(
                        calls_since(old(self).calls@, final(self).calls@)[lobby_move_at(old(self).tables@, old(self).config, old(self).candidates@, k)],
                    ),
                ),
            same_tables_but_placement(old(self).tables@, final(self).tables@),
            forall|i: int|
                0 <= i < old(self).tables@.len() && (#[trigger] old(self).tables@[i]).enabled
                    ==> final(self).tables@[i] == old(self).tables@[i],
            same_candidates_but_rect(old(self).candidates@, final(self).candidates@),
            forall|i: int|
                0 <= i < old(self).candidates@.len() && !parked_lobby(
                    old(self).config,
                    #[trigger] old(self).candidates@[i],
                ) ==> final(self).candidates@[i] == old(self).candidates@[i],
            forall|id: WindowId|
                status_of(final(self).window_statuses@, id) != status_of(
                    old(self).window_statuses@,
                    id,
                ) ==> exists|k: int|
                    0 <= k < old(self).candidates@.len() && (#[trigger] old(self).candidates@[k]).id
                        == id && parked_lobby(old(self).config, old(self).candidates@[k]),
            final(self).config == old(self).config,
            final(self).monitors == old(self).monitors,
            final(self).status_message == old(self).status_message,
            final(self).dirty == old(self).dirty,
            final(self).save_requested == old(self).save_requested,
            can_park(*old(self)) ==> forall|i: int|
                0 <= i < final(self).tables@.len() && !(#[trigger] final(self).tables@[i]).enabled
                    ==> final(self).tables@[i].status != TableStatus::Ready,
    {
        let ghost start = *self;
        assert(start.calls@.subrange(0, start.calls@.len() as int) =~= start.calls@);
        let selected = self.selected_monitor();
        let m = match selected {
            Some(m) => m,
            None => {
                return;
            },
        };
        let work = self.monitors[m].work_area;
        if work.width < 1 || work.height < 1 {
            return;
        }
        assert(can_park(start));
        assert(work == park_area(start));
        let mut cursor = ParkCursor { right: work.right(), bottom: work.bottom(), row_height: 0 };
        assert(self.calls@.subrange(0, start.calls@.len() as int) =~= start.calls@);
        assert(calls_since(start.calls@, self.calls@) =~= Seq::empty());
        let mut index: usize = 0;
        while index < self.tables.len()
            invariant
                index <= self.tables@.len(),
                self.wf(),
                work.width >= 1,
                work.height >= 1,
                same_tables_but_placement(start.tables@, self.tables@),
                forall|i: int|
                    0 <= i < start.tables@.len() && (#[trigger] start.tables@[i]).enabled
                        ==> self.tables@[i] == start.tables@[i],
                forall|i: int| index <= i < start.tables@.len() ==> self.tables@[i] == #[trigger] start.tables@[i],
                extends(start.calls@, self.calls@),
                parks(work, disabled_ids(start.tables@.take(index as int)), calls_since(start.calls@, self.calls@)),
                cursor == park_cursor_after(
                    work,
                    calls_since(start.calls@, self.calls@),
                    disabled_ids(start.tables@.take(index as int)).len(),
                ),
                forall|i: int|
                    0 <= i < index && !(#[trigger] start.tables@[i]).enabled ==> table_parked_as_answered(
                        self.tables@[i],
                        answer_of(
                            calls_since(start.calls@, self.calls@)[table_move_at(start.tables@, i)],
                        ),
                    ),
                self.candidates == start.candidates,
                self.window_statuses == start.window_statuses,
                self.config == start.config,
                self.monitors == start.monitors,
                self.status_message == start.status_message,
                self.dirty == start.dirty,
                self.save_requested == start.save_requested,
            decreases self.tables@.len() - index,
        {
            let ghost since_before = calls_since(start.calls@, self.calls@);
            let ghost ids_before = disabled_ids(start.tables@.take(index as int));
            let ghost tables_before = self.tables@;
            assert(start.tables@.take(index + 1).drop_last() =~= start.tables@.take(index as int));
            if !self.tables[index].enabled {
                let id = self.tables[index].id;
                let ratio = self.tables[index].preferred_aspect_ratio;
                let ghost calls_mid = self.calls@;
                let (answer, next) = park_one(backend, &mut self.calls, work, cursor, id, ratio);
                match answer {
                    Ok(actual) => {
                        set_table_status(&mut self.tables, index, TableStatus::Parked);
                        set_table_rects(&mut self.tables, index, actual, false);
                    },
                    Err(error) => {
                        let status = failed_status(&error);
                        set_table_status(&mut self.tables, index, status);
                    },
                }
                cursor = next;
                assert(table_ids(self.tables@) =~= table_ids(tables_before));
                proof {
                    lemma_since_grows(start.calls@, calls_mid, self.calls@);
                    let since = calls_since(start.calls@, self.calls@);
                    lemma_park_one(work, ids_before, since_before, since, id);
                    assert(disabled_ids(start.tables@.take(index + 1)) =~= ids_before.push(id));
                    assert(table_move_at(start.tables@, index as int) == since_before.len() + 1);
                    lemma_tables_parked_step(start.tables@, tables_before, self.tables@, since_before, since, index as int);
                }
            } else {
                assert(disabled_ids(start.tables@.take(index + 1)) =~= ids_before);
            }
            index += 1;
        }
        assert(start.tables@.take(index as int) =~= start.tables@);
        let ghost tables_done = self.tables@;
        let ghost table_calls = calls_since(start.calls@, self.calls@);
        assert(start.candidates@.take(0) =~= Seq::<WindowCandidate>::empty());
        assert(disabled_ids(start.tables@) + parked_lobby_ids(start.config, start.candidates@.take(0)) =~= disabled_ids(start.tables@));
        let mut lobby: usize = 0;
        while lobby < self.candidates.len()
            invariant
                lobby <= self.candidates@.len(),
                self.wf(),
                work.width >= 1,
                work.height >= 1,
                self.tables@ == tables_done,
                same_candidates_but_rect(start.candidates@, self.candidates@),
                forall|i: int|
                    0 <= i < start.candidates@.len() && !parked_lobby(start.config, #[trigger] start.candidates@[i])
                        ==> self.candidates@[i] == start.candidates@[i],
                forall|i: int| lobby <= i < start.candidates@.len() ==> self.candidates@[i] == #[trigger] start.candidates@[i],
                forall|id: WindowId|
                    status_of(self.window_statuses@, id) != status_of(start.window_statuses@, id)
                        ==> exists|k: int|
                        0 <= k < start.candidates@.len() && (#[trigger] start.candidates@[k]).id == id
                            && parked_lobby(start.config, start.candidates@[k]),
                extends(start.calls@, self.calls@),
                table_calls.len() == 2 * disabled_ids(start.tables@).len(),
                forall|i: int|
                    0 <= i < start.tables@.len() && !(#[trigger] start.tables@[i]).enabled ==> table_parked_as_answered(
                        tables_done[i],
                        answer_of(table_calls[table_move_at(start.tables@, i)]),
                    ),
                forall|j: int| 0 <= j < table_calls.len() ==> calls_since(start.calls@, self.calls@)[j] == table_calls[j],
                parks(
                    work,
                    disabled_ids(start.tables@) + parked_lobby_ids(start.config, start.candidates@.take(lobby as int)),
                    calls_since(start.calls@, self.calls@),
                ),
                cursor == park_cursor_after(
                    work,
                    calls_since(start.calls@, self.calls@),
                    (disabled_ids(start.tables@) + parked_lobby_ids(start.config, start.candidates@.take(lobby as int))).len(),
                ),
                forall|k: int|
                    0 <= k < lobby && parked_lobby(start.config, #[trigger] start.candidates@[k])
                        && !lobby_parked_again(start.config, start.candidates@, k, lobby as int) ==> lobby_parked_as_answered(
                        self.window_statuses@,
                        self.candidates@[k],
                        answer_of(
                            calls_since(start.calls@, self.calls@)[lobby_move_at(start.tables@, start.config, start.candidates@, k)],
                        ),
                    ),
                self.config == start.config,
                self.monitors == start.monitors,
                self.status_message == start.status_message,
                self.dirty == start.dirty,
                self.save_requested == start.save_requested,
            decreases self.candidates@.len() - lobby,
        {
            let ghost since_before = calls_since(start.calls@, self.calls@);
            let ghost ids_before = disabled_ids(start.tables@) + parked_lobby_ids(start.config, start.candidates@.take(lobby as int));
            let ghost statuses_before = self.window_statuses@;
            let ghost cands_before = self.candidates@;
            assert(start.candidates@.take(lobby + 1).drop_last() =~= start.candidates@.take(lobby as int));
            let parked = self.candidates[lobby].is_clubgg_lobby && match self.disposition_for_candidate(&self.candidates[lobby]) {
                Some(CandidateDisposition::Parked) => true,
                _ => false,
            };
            proof {
                assert(same_candidate_identity(start.candidates@[lobby as int], self.candidates@[lobby as int]));
                assert(candidate_disposition(start.config, start.candidates@[lobby as int]) == candidate_disposition(self.config, self.candidates@[lobby as int]));
            }
            if parked {
                let id = self.candidates[lobby].id;
                let ratio = self.candidates[lobby].preferred_aspect_ratio;
                let ghost calls_mid = self.calls@;
                let (answer, next) = park_one(backend, &mut self.calls, work, cursor, id, ratio);
                match answer {
                    Ok(actual) => {
                        let mut candidate = self.candidates[lobby].clone();
                        candidate.rect = actual;
                        self.candidates.set(lobby, candidate);
                        record_status(&mut self.window_statuses, id, TableStatus::Parked);
                    },
                    Err(error) => {
                        let status = failed_status(&error);
                        record_status(&mut self.window_statuses, id, status);
                    },
                }
                cursor = next;
                proof {
                    assert forall|other: WindowId|
                        status_of(self.window_statuses@, other) != status_of(start.window_statuses@, other)
                            implies exists|k: int|
                            0 <= k < start.candidates@.len() && (#[trigger] start.candidates@[k]).id == other
                                && parked_lobby(start.config, start.candidates@[k]) by {
                        if other == id {
                            assert(start.candidates@[lobby as int].id == other);
                        }
                    }
                    lemma_since_grows(start.calls@, calls_mid, self.calls@);
                    let since = calls_since(start.calls@, self.calls@);
                    lemma_park_one(work, ids_before, since_before, since, id);
                    assert(parked_lobby_ids(start.config, start.candidates@.take(lobby + 1)) =~= parked_lobby_ids(start.config, start.candidates@.take(lobby as int)).push(id));
                    assert(disabled_ids(start.tables@) + parked_lobby_ids(start.config, start.candidates@.take(lobby + 1)) =~= ids_before.push(id));
                    assert forall|k: int|
                        0 <= k < lobby + 1 && parked_lobby(start.config, #[trigger] start.candidates@[k])
                            && !lobby_parked_again(start.config, start.candidates@, k, lobby + 1) implies lobby_parked_as_answered(
                            self.window_statuses@,
                            self.candidates@[k],
                            answer_of(since[lobby_move_at(start.tables@, start.config, start.candidates@, k)]),
                        ) by {
                        if k < lobby {
                            assert(!lobby_parked_again(start.config, start.candidates@, k, lobby as int));
                            if start.candidates@[k].id == id {
                                assert(start.candidates@[lobby as int].id == start.candidates@[k].id);
                                assert(false);
                            }
                            lemma_lobbies_grow(start.config, start.candidates@, k, lobby as int);
                            assert(self.candidates@[k] == cands_before[k]);
                        } else {
                            assert(start.candidates@.take(k) =~= start.candidates@.take(lobby as int));
                        }
                    }
                }
            } else {
                assert(parked_lobby_ids(start.config, start.candidates@.take(lobby + 1)) =~= parked_lobby_ids(start.config, start.candidates@.take(lobby as int)));
                proof {
                    assert forall|k: int|
                        0 <= k < lobby + 1 && parked_lobby(start.config, #[trigger] start.candidates@[k])
                            && !lobby_parked_again(start.config, start.candidates@, k, lobby + 1) implies lobby_parked_as_answered(
                            self.window_statuses@,
                            self.candidates@[k],
                            answer_of(calls_since(start.calls@, self.calls@)[lobby_move_at(start.tables@, start.config, start.candidates@, k)]),
                        ) by {
                        assert(!lobby_parked_again(start.config, start.candidates@, k, lobby as int));
                    }
                }
            }
            lobby += 1;
        }
        assert(start.candidates@.take(lobby as int) =~= start.candidates@);
        assert forall|i: int|
            0 <= i < start.tables@.len() && !(#[trigger] start.tables@[i]).enabled implies table_parked_as_answered(
                self.tables@[i],
                answer_of(calls_since(start.calls@, self.calls@)[table_move_at(start.tables@, i)]),
            ) by {
            lemma_disabled_grow(start.tables@, i, start.tables@.len() as int);
            assert(start.tables@.take(start.tables@.len() as int) =~= start.tables@);
        }
        assert forall|i: int|
            0 <= i < self.tables@.len() && !(#[trigger] self.tables@[i]).enabled implies self.tables@[i].status != TableStatus::Ready by {
            assert(same_table_identity(start.tables@[i], self.tables@[i]));
        }
    }
}

/// The number of enabled tables.
pub fn enabled_count(tables: &Vec<ManagedTable>) -> (r: usize)
    ensures
        r == count_enabled(tables@),
{
    let mut count: usize = 0;
    let mut index: usize = 0;
    while index < tables.len()
        invariant
            index <= tables.len(),
            count == count_enabled(tables@.subrange(0, index as int)),
            count <= index,
        decreases tables.len() - index,
    {
        assert(tables@.subrange(0, index + 1).drop_last() =~= tables@.subrange(0, index as int));
        if tables[index].enabled {
            count += 1;
        }
        index += 1;
    }
    assert(tables@.subrange(0, index as int) =~= tables@);
    count
}

fn add_counts(a: usize, b: usize) -> (r: usize)
    ensures
        r == crate::placement::sat_add(a as nat, b as nat),
{
    if a > usize::MAX - b {
        usize::MAX
    } else {
        a + b
    }
}

impl Controller {
    /// Sends every window set to the top-right corner there, at its own size
    /// clamped to the work area, and every window set to fill the free space
    /// into the whole strip right of the poker columns, even when the strip is
    /// narrower than the window's minimum; a Fill-space window is marked as
    /// failed when there is no strip at all. Returns how many windows were
    /// selected, moved, failed and refused; only their recorded outcomes change.
    pub fn position_other_windows<B: WindowBackend>(&mut self, backend: &B, work: Rect) -> (r: (
        usize,
        usize,
        usize,
        usize,
    ))
        requires
            old(self).wf(),
        ensures
            final(self).wf(),
            r.0 == count_positioned(old(self).config, old(self).candidates@),
            r.1 + r.2 <= r.0,
            r.3 <= r.2,
            r.1 == count_moves(calls_since(old(self).calls@, final(self).calls@), went_through()),
            r.2 == count_moves(calls_since(old(self).calls@, final(self).calls@), went_wrong()) + count_no_space(
                old(self).config,
                free_strip(*old(self), work),
                old(self).candidates@,
            ),
            r.3 == count_moves(calls_since(old(self).calls@, final(self).calls@), was_refused()),
            extends(old(self).calls@, final(self).calls@),
            moves_are(
                calls_since(old(self).calls@, final(self).calls@),
                position_requests(old(self).config, work, free_strip(*old(self), work), old(self).candidates@),
            ),
            forall|k: int|
                0 <= k < old(self).candidates@.len() && positioned_mode(old(self).config, #[trigger] old(self).candidates@[k])
                    && !positioned_again(old(self).config, old(self).candidates@, k, old(self).candidates@.len() as int)
                    ==> positioned_outcome(
                    old(self).config,
                    work,
                    free_strip(*old(self), work),
                    old(self).candidates@,
                    calls_since(old(self).calls@, final(self).calls@),
                    final(self).window_statuses@,
                    k,
                ),
            forall|id: WindowId|
                status_of(final(self).window_statuses@, id) != status_of(
                    old(self).window_statuses@,
                    id,
                ) ==> exists|k: int|
                    0 <= k < old(self).candidates@.len() && (#[trigger] old(self).candidates@[k]).id
                        == id && positioned_mode(old(self).config, old(self).candidates@[k]),
            final(self).tables == old(self).tables,
            final(self).candidates == old(self).candidates,
            final(self).config == old(self).config,
            final(self).monitors == old(self).monitors,
            final(self).status_message == old(self).status_message,
            final(self).dirty == old(self).dirty,
            final(self).save_requested == old(self).save_requested,
    {
        let ghost start = *self;
        let ghost specs = specs_for(runtime_columns_of(start), start.tables@);
        let columns = self.runtime_columns();
        let layout = self.mixed_layout_for(work, &columns);
        assert(columns_view(columns@) == runtime_columns_of(start));
        let mut occupied: Vec<Rect> = Vec::new();
        let mut c: usize = 0;
        while c < layout.columns.len()
            invariant
                c <= layout.columns@.len(),
                occupied@ == Seq::new(c as nat, |i: int| layout.columns@[i].bounds),
            decreases layout.columns@.len() - c,
        {
            occupied.push(layout.columns[c].bounds);
            c += 1;
            assert(occupied@ =~= Seq::new(c as nat, |i: int| layout.columns@[i].bounds));
        }
        assert(occupied@ =~= column_bounds(work, specs));
        let free = right_side_free_rect(work, occupied.as_slice());
        assert(free == free_strip(start, work));
        assert(self.calls@.subrange(0, start.calls@.len() as int) =~= start.calls@);
        assert(calls_since(start.calls@, self.calls@) =~= Seq::empty());
        let mut selected: usize = 0;
        let mut moved: usize = 0;
        let mut failed: usize = 0;
        let mut denied: usize = 0;
        let mut index: usize = 0;
        while index < self.candidates.len()
            invariant
                index <= self.candidates@.len(),
                self.wf(),
                free == free_strip(start, work),
                selected == count_positioned(start.config, start.candidates@.subrange(0, index as int)),
                moved + failed <= selected,
                denied <= failed,
                selected <= index,
                moved == count_moves(calls_since(start.calls@, self.calls@), went_through()),
                failed == count_moves(calls_since(start.calls@, self.calls@), went_wrong()) + count_no_space(
                    start.config,
                    free,
                    start.candidates@.take(index as int),
                ),
                denied == count_moves(calls_since(start.calls@, self.calls@), was_refused()),
                extends(start.calls@, self.calls@),
                moves_are(
                    calls_since(start.calls@, self.calls@),
                    position_requests(start.config, work, free, start.candidates@.take(index as int)),
                ),
                forall|k: int|
                    0 <= k < index && positioned_mode(start.config, #[trigger] start.candidates@[k])
                        && !positioned_again(start.config, start.candidates@, k, index as int) ==> positioned_outcome(
                        start.config,
                        work,
                        free,
                        start.candidates@,
                        calls_since(start.calls@, self.calls@),
                        self.window_statuses@,
                        k,
                    ),
                forall|id: WindowId|
                    status_of(self.window_statuses@, id) != status_of(start.window_statuses@, id)
                        ==> exists|k: int|
                        0 <= k < start.candidates@.len() && (#[trigger] start.candidates@[k]).id == id
                            && positioned_mode(start.config, start.candidates@[k]),
                self.tables == start.tables,
                self.candidates == start.candidates,
                self.config == start.config,
                self.monitors == start.monitors,
                self.status_message == start.status_message,
                self.dirty == start.dirty,
                self.save_requested == start.save_requested,
            decreases self.candidates@.len() - index,
        {
            assert(start.candidates@.subrange(0, index + 1).drop_last() =~= start.candidates@.subrange(0, index as int));
            assert(start.candidates@.take(index + 1).drop_last() =~= start.candidates@.take(index as int));
            let candidate = &self.candidates[index];
            let id = candidate.id;
            let disposition = self.disposition_for_candidate(candidate);
            let top_right = match disposition {
                Some(CandidateDisposition::TopRight) => true,
                _ => false,
            };
            let free_space = match disposition {
                Some(CandidateDisposition::FreeSpace) => true,
                _ => false,
            };
            let ghost statuses_before = self.window_statuses@;
            let ghost calls_before = self.calls@;
            if top_right || free_space {
                selected += 1;
                let mut target: Option<Rect> = None;
                if top_right {
                    if work.width >= 1 && work.height >= 1 {
                        target = Some(top_right_rect(work, candidate.rect));
                    }
                } else if free.width >= 1 && free.height >= 1 {
                    target = Some(free);
                } else {
                    record_status(
                        &mut self.window_statuses,
                        id,
                        TableStatus::MoveFailed(
                            String::from_str(
                                "No usable space remains to the right of active poker tables",
                            ),
                        ),
                    );
                    failed += 1;
                }
                assert(target == position_target(start.config, work, free, start.candidates@[index as int]));
                if let Some(requested) = target {
                    match request_move(backend, &mut self.calls, id, requested) {
                        Ok(_) => {
                            record_status(&mut self.window_statuses, id, TableStatus::Ready);
                            moved += 1;
                        },
                        Err(error) => {
                            let status = failed_status(&error);
                            if let BackendError::AccessDenied = error {
                                denied += 1;
                            }
                            record_status(&mut self.window_statuses, id, status);
                            failed += 1;
                        },
                    }
                }
                proof {
                    assert forall|other: WindowId|
                        status_of(self.window_statuses@, other) != status_of(start.window_statuses@, other)
                            implies exists|k: int|
                            0 <= k < start.candidates@.len() && (#[trigger] start.candidates@[k]).id == other
                                && positioned_mode(start.config, start.candidates@[k]) by {
                        if other == id {
                            assert(start.candidates@[index as int].id == other);
                        }
                    }
                }
            }
            proof {
                let cands = start.candidates@;
                let calls_now = calls_since(start.calls@, self.calls@);
                let calls_then = calls_since(start.calls@, calls_before);
                assert(self.calls@.subrange(0, start.calls@.len() as int) =~= start.calls@);
                assert forall|j: int| 0 <= j < calls_then.len() implies calls_now[j] == calls_then[j] by {}
                if calls_now.len() > calls_then.len() {
                    assert(calls_now.drop_last() =~= calls_then);
                } else {
                    assert(calls_now =~= calls_then);
                }
                assert forall|k: int|
                    0 <= k < index + 1 && positioned_mode(start.config, #[trigger] cands[k])
                        && !positioned_again(start.config, cands, k, index + 1) implies positioned_outcome(
                        start.config, work, free, cands, calls_now, self.window_statuses@, k) by {
                    if k < index {
                        assert(!positioned_again(start.config, cands, k, index as int));
                        if cands[k].id == id {
                            if top_right || free_space {
                                assert(cands[index as int].id == cands[k].id);
                                assert(false);
                            }
                        }
                        lemma_requests_grow(start.config, work, free, cands, k, index as int);
                        assert(status_of(self.window_statuses@, cands[k].id) == status_of(statuses_before, cands[k].id));
                    } else {
                        lemma_requests_grow(start.config, work, free, cands, k, k);
                    }
                }
            }
            index += 1;
        }
        assert(start.candidates@.subrange(0, index as int) =~= start.candidates@);
        assert(start.candidates@.take(index as int) =~= start.candidates@);
        (selected, moved, failed, denied)
    }

    /// Moves each table named by `requests` to its cell (see `target_table`),
    /// unless the cell is smaller than the table's minimum size, and records
    /// how each move went. Returns how many moved, failed and were refused.
    fn move_tables_to_cells<B: WindowBackend>(&mut self, backend: &B, requests: &Vec<(WindowSignature, Rect)>) -> (r: (usize, usize, usize))
        requires
            old(self).wf(),
        ensures
            final(self).wf(),
            r.0 + r.1 <= requests@.len(),
            r.2 <= r.1,
            (r.0 as nat, r.1 as nat, r.2 as nat) == arrange_tally(
                old(self).tables@,
                request_views(requests@),
                calls_since(old(self).calls@, final(self).calls@),
                requests@.len() as int,
            ),
            extends(old(self).calls@, final(self).calls@),
            calls_since(old(self).calls@, final(self).calls@).len() == arrange_pos(
                old(self).tables@,
                request_views(requests@),
                calls_since(old(self).calls@, final(self).calls@),
                requests@.len() as int,
            ),
            forall|k: int| 0 <= k < requests@.len() ==> #[trigger] asks_for_request(
                old(self).tables@,
                request_views(requests@),
                calls_since(old(self).calls@, final(self).calls@),
                k,
            ),
            forall|k: int| 0 <= k < requests@.len() && #[trigger] target_table(old(self).tables@, request_views(requests@), k) >= 0
                ==> table_arranged(
                old(self).tables@[target_table(old(self).tables@, request_views(requests@), k)],
                final(self).tables@[target_table(old(self).tables@, request_views(requests@), k)],
                calls_since(old(self).calls@, final(self).calls@)[arrange_pos(old(self).tables@, request_views(requests@), calls_since(old(self).calls@, final(self).calls@), k)],
                calls_since(old(self).calls@, final(self).calls@)[arrange_pos(old(self).tables@, request_views(requests@), calls_since(old(self).calls@, final(self).calls@), k) + 1],
                request_views(requests@)[k].1,
            ),
            forall|t: int| 0 <= t < old(self).tables@.len() && !(#[trigger] old(self).tables@[t]).enabled ==> final(self).tables@[t] == old(self).tables@[t],
            same_tables_but_placement(old(self).tables@, final(self).tables@),
            final(self).candidates == old(self).candidates,
            final(self).window_statuses == old(self).window_statuses,
            final(self).config == old(self).config,
            final(self).monitors == old(self).monitors,
            final(self).status_message == old(self).status_message,
            final(self).dirty == old(self).dirty,
            final(self).save_requested == old(self).save_requested,
    {
        let ghost start = *self;
        let ghost reqs = request_views(requests@);
        let targets = request_targets(&self.tables, requests);
        assert(self.calls@.subrange(0, start.calls@.len() as int) =~= start.calls@);
        assert(calls_since(start.calls@, self.calls@) =~= Seq::empty());
        let mut moved: usize = 0;
        let mut failed: usize = 0;
        let mut denied: usize = 0;
        let mut k: usize = 0;
        while k < requests.len()
            invariant
                k <= requests@.len(),
                targets@.len() == requests@.len(),
                reqs == request_views(requests@),
                forall|j: int|
                    0 <= j < requests@.len() ==> (#[trigger] targets@[j] as int) == if target_table(start.tables@, reqs, j) >= 0 {
                        target_table(start.tables@, reqs, j)
                    } else {
                        start.tables@.len() as int
                    },
                self.wf(),
                moved + failed <= k,
                denied <= failed,
                (moved as nat, failed as nat, denied as nat) == arrange_tally(start.tables@, reqs, calls_since(start.calls@, self.calls@), k as int),
                same_tables_but_placement(start.tables@, self.tables@),
                extends(start.calls@, self.calls@),
                calls_since(start.calls@, self.calls@).len() == arrange_pos(start.tables@, reqs, calls_since(start.calls@, self.calls@), k as int),
                forall|j: int| 0 <= j < k ==> #[trigger] asks_for_request(start.tables@, reqs, calls_since(start.calls@, self.calls@), j),
                forall|j: int| 0 <= j < k && #[trigger] target_table(start.tables@, reqs, j) >= 0 ==> table_arranged(
                    start.tables@[target_table(start.tables@, reqs, j)],
                    self.tables@[target_table(start.tables@, reqs, j)],
                    calls_since(start.calls@, self.calls@)[arrange_pos(start.tables@, reqs, calls_since(start.calls@, self.calls@), j)],
                    calls_since(start.calls@, self.calls@)[arrange_pos(start.tables@, reqs, calls_since(start.calls@, self.calls@), j) + 1],
                    reqs[j].1,
                ),
                forall|t: int| 0 <= t < start.tables@.len() && (forall|j: int| 0 <= j < k ==> #[trigger] target_table(start.tables@, reqs, j) != t)
                    ==> self.tables@[t] == start.tables@[t],
                self.candidates == start.candidates,
                self.window_statuses == start.window_statuses,
                self.config == start.config,
                self.monitors == start.monitors,
                self.status_message == start.status_message,
                self.dirty == start.dirty,
                self.save_requested == start.save_requested,
            decreases requests@.len() - k,
        {
            let requested = requests[k].1;
            let index = targets[k];
            let ghost since_before = calls_since(start.calls@, self.calls@);
            let ghost calls_mid = self.calls@;
            let ghost tables_before = self.tables@;
            let ghost t = target_table(start.tables@, reqs, k as int);
            proof {
                assert forall|j: int| 0 <= j < k && target_table(start.tables@, reqs, j) >= 0 implies target_table(start.tables@, reqs, j) != t by {
                    law_each_table_moved_once(start.tables@, reqs, j, k as int);
                }
            }
            if index < self.tables.len() {
                assert(self.tables@[index as int] == start.tables@[index as int]);
                let id = self.tables[index].id;
                let ratio = self.tables[index].preferred_aspect_ratio;
                let minimum = ask_minimum_size(backend, &mut self.calls, id, ratio);
                let too_small = match minimum {
                    Ok(minimum) => requested.width < minimum.width || requested.height < minimum.height,
                    Err(_) => false,
                };
                if too_small {
                    set_table_status(
                        &mut self.tables,
                        index,
                        TableStatus::MoveFailed(
                            String::from_str(
                                "The mixed layout is smaller than this window's supported minimum",
                            ),
                        ),
                    );
                    failed += 1;
                } else {
                    match request_move(backend, &mut self.calls, id, requested) {
                        Ok(actual) => {
                            set_table_rects(&mut self.tables, index, actual, true);
                            set_table_status(&mut self.tables, index, TableStatus::Ready);
                            moved += 1;
                        },
                        Err(BackendError::AccessDenied) => {
                            set_table_status(&mut self.tables, index, TableStatus::AccessDenied);
                            failed += 1;
                            denied += 1;
                        },
                        Err(BackendError::WindowGone) => {
                            failed += 1;
                        },
                        Err(BackendError::Other(message)) => {
                            set_table_status(&mut self.tables, index, TableStatus::MoveFailed(message));
                            failed += 1;
                        },
                    }
                }
                assert(table_ids(self.tables@) =~= table_ids(tables_before));
                proof {
                    let since = calls_since(start.calls@, self.calls@);
                    assert(self.calls@.subrange(0, start.calls@.len() as int) =~= start.calls@);
                    let more = since.subrange(since_before.len() as int, since.len() as int);
                    assert(calls_mid.subrange(0, start.calls@.len() as int) =~= start.calls@);
                    assert(since =~= since_before + more);
                    lemma_pos_keeps(start.tables@, reqs, since_before, more, k as int);
                    lemma_tally_keeps(start.tables@, reqs, since_before, more, k as int);
                    assert(since[since_before.len() as int] == self.calls@[calls_mid.len() as int]);
                    assert(arrange_pos(start.tables@, reqs, since, k + 1) == since.len());
                    assert forall|j: int| 0 <= j < k + 1 implies #[trigger] asks_for_request(start.tables@, reqs, since, j) by {
                        if j < k {
                            assert(asks_for_request(start.tables@, reqs, since_before, j));
                            lemma_pos_mono(start.tables@, reqs, since_before, j, k as int);
                            lemma_pos_mono(start.tables@, reqs, since_before, 0, j);
                            let c = arrange_pos(start.tables@, reqs, since_before, j);
                            if target_table(start.tables@, reqs, j) >= 0 {
                                assert(since[c] == since_before[c]);
                                if !stops_at_minimum(since_before[c], reqs[j].1) {
                                    assert(since[c + 1] == since_before[c + 1]);
                                }
                            }
                        }
                    }
                    assert forall|j: int| 0 <= j < k + 1 && #[trigger] target_table(start.tables@, reqs, j) >= 0 implies table_arranged(
                        start.tables@[target_table(start.tables@, reqs, j)],
                        self.tables@[target_table(start.tables@, reqs, j)],
                        since[arrange_pos(start.tables@, reqs, since, j)],
                        since[arrange_pos(start.tables@, reqs, since, j) + 1],
                        reqs[j].1,
                    ) by {
                        if j < k {
                            lemma_pos_mono(start.tables@, reqs, since_before, j, k as int);
                            lemma_pos_mono(start.tables@, reqs, since_before, 0, j);
                            let c = arrange_pos(start.tables@, reqs, since_before, j);
                            assert(since[c] == since_before[c]);
                            if !stops_at_minimum(since_before[c], reqs[j].1) {
                                assert(since[c + 1] == since_before[c + 1]);
                            }
                            assert(target_table(start.tables@, reqs, j) != t);
                        }
                    }
                }
            } else {
                proof {
                    assert(arrange_pos(start.tables@, reqs, since_before, k + 1) == since_before.len());
                    assert(arrange_tally(start.tables@, reqs, since_before, k + 1) == arrange_tally(start.tables@, reqs, since_before, k as int));
                }
            }
            k += 1;
        }
        proof {
            assert forall|t: int| 0 <= t < start.tables@.len() && !(#[trigger] start.tables@[t]).enabled implies self.tables@[t] == start.tables@[t] by {
                assert forall|j: int| 0 <= j < k implies #[trigger] target_table(start.tables@, reqs, j) != t by {
                    if target_table(start.tables@, reqs, j) == t {
                        let s = reqs[j].0;
                        let o = count_sig(reqs, s, j);
                        assert(exists|x: int| is_nth_enabled(start.tables@, s, o, x));
                    }
                }
            }
        }
        (moved, failed, denied)
    }

    /// Arranges the windows on the selected monitor: each cell's table goes
    /// to it unless the cell is smaller than the window's minimum (tables that
    /// show the same name are separate windows, see `target_table`), the
    /// disabled tables and parked lobbies are lined up, the application
    /// windows are positioned, and the status line reports the counts as the
    /// desktop answered. The configuration and the set of tables do not change.
    #[verifier::spinoff_prover]
    #[verifier::rlimit(100)]
    pub fn arrange<B: WindowBackend>(&mut self, backend: &B)
        requires
            old(self).wf(),
        ensures
            final(self).wf(),
            !final(self).dirty,
            final(self).config == old(self).config,
            final(self).monitors == old(self).monitors,
            final(self).save_requested == old(self).save_requested,
            same_tables_but_placement(old(self).tables@, final(self).tables@),
            same_candidates_but_rect(old(self).candidates@, final(self).candidates@),
            selected_index(old(self).monitors@, opt_string_view(old(self).config.selected_monitor)) is None
                ==> final(self).status_message@ == "No usable monitor found."@
                && final(self).tables == old(self).tables && final(self).candidates == old(self).candidates
                && final(self).window_statuses == old(self).window_statuses,
            can_park(*old(self)) ==> forall|i: int|
                0 <= i < final(self).tables@.len() && !(#[trigger] final(self).tables@[i]).enabled
                    ==> final(self).tables@[i].status != TableStatus::Ready,
            selected_index(old(self).monitors@, opt_string_view(old(self).config.selected_monitor)) matches Some(m)
                ==> arranged_tables(*old(self), *final(self), old(self).monitors@[m].work_area),
            selected_index(old(self).monitors@, opt_string_view(old(self).config.selected_monitor)) matches Some(m)
                ==> parked_then_positioned(*old(self), *final(self), old(self).monitors@[m].work_area),
            arrangement_done(*old(self), *final(self)),
            selected_index(old(self).monitors@, opt_string_view(old(self).config.selected_monitor)) matches Some(m)
                ==> final(self).status_message@ == arrange_report(
                *old(self),
                *final(self),
                old(self).monitors@[m].work_area,
                old(self).monitors@[m].label@,
            ),
    {
        let ghost start = *self;
        self.dirty = false;
        let m = match self.selected_monitor() {
            Some(m) => m,
            None => {
                self.status_message = String::from_str("No usable monitor found.");
                return;
            },
        };
        let work = self.monitors[m].work_area;
        let columns = self.runtime_columns();
        let layout = self.mixed_layout_for(work, &columns);
        let active = enabled_count(&self.tables);
        let requests = arrangement_requests(&columns, &layout);
        proof {
            let specs = specs_for(runtime_columns_of(start), start.tables@);
            assert(columns_view(columns@) == runtime_columns_of(start));
            assert(layout.columns@ =~= layout_columns(work, specs));
            assert(request_views(requests@) == table_requests(start, work));
        }
        let ghost before_moves = *self;
        let (moved, mut failed, mut denied) = self.move_tables_to_cells(backend, &requests);
        let ghost after_moves = *self;
        self.park_all(backend);
        let ghost after_park = *self;
        proof {
            lemma_count_positioned_ignores_rects(start.config, start.candidates@, self.candidates@);
        }
        let (positioned_requested, positioned_moved, positioned_failed, positioned_denied) =
            self.position_other_windows(backend, work);
        let ghost failed_tables = failed;
        failed = add_counts(failed, positioned_failed);
        denied = add_counts(denied, positioned_denied);
        let message = arrange_summary(
            active,
            moved,
            positioned_requested,
            positioned_moved,
            failed,
            denied,
            self.monitors[m].label.as_str(),
        );
        self.status_message = message;
        assert(count_positioned(before_moves.config, before_moves.candidates@) == count_positioned(start.config, start.candidates@));
        proof {
            lemma_since_chain(start.calls@, after_moves.calls@, after_park.calls@);
            lemma_since_chain(start.calls@, after_park.calls@, self.calls@);
            let reqs = table_requests(start, work);
            let s1 = calls_since(start.calls@, after_moves.calls@);
            let sall = calls_since(start.calls@, self.calls@);
            let more = sall.subrange(s1.len() as int, sall.len() as int);
            assert(sall =~= s1 + more);
            lemma_pos_keeps(start.tables@, reqs, s1, more, reqs.len() as int);
            assert forall|k: int| 0 <= k < reqs.len() implies #[trigger] asks_for_request(start.tables@, reqs, sall, k) by {
                assert(asks_for_request(start.tables@, reqs, s1, k));
                lemma_pos_mono(start.tables@, reqs, s1, k, reqs.len() as int);
                lemma_pos_mono(start.tables@, reqs, s1, 0, k);
                let c = arrange_pos(start.tables@, reqs, s1, k);
                if target_table(start.tables@, reqs, k) >= 0 {
                    assert(sall[c] == s1[c]);
                    if !stops_at_minimum(s1[c], reqs[k].1) {
                        assert(sall[c + 1] == s1[c + 1]);
                    }
                }
            }
            assert forall|k: int| 0 <= k < reqs.len() && #[trigger] target_table(start.tables@, reqs, k) >= 0 implies table_arranged(
                start.tables@[target_table(start.tables@, reqs, k)],
                self.tables@[target_table(start.tables@, reqs, k)],
                sall[arrange_pos(start.tables@, reqs, sall, k)],
                sall[arrange_pos(start.tables@, reqs, sall, k) + 1],
                reqs[k].1,
            ) by {
                let t = target_table(start.tables@, reqs, k);
                let sig = reqs[k].0;
                let o = count_sig(reqs, sig, k);
                assert(is_nth_enabled(start.tables@, sig, o, t));
                assert(same_table_identity(start.tables@[t], after_moves.tables@[t]));
                assert(self.tables@[t] == after_moves.tables@[t]);
                lemma_pos_mono(start.tables@, reqs, s1, k, reqs.len() as int);
                lemma_pos_mono(start.tables@, reqs, s1, 0, k);
                let c = arrange_pos(start.tables@, reqs, s1, k);
                assert(sall[c] == s1[c]);
                if !stops_at_minimum(s1[c], reqs[k].1) {
                    assert(sall[c + 1] == s1[c + 1]);
                }
            }
            let s2 = calls_since(after_moves.calls@, after_park.calls@);
            let s3 = calls_since(after_park.calls@, self.calls@);
            assert(sall =~= s1 + s2 + s3);
            assert(arrange_pos(start.tables@, reqs, sall, reqs.len() as int) == s1.len());
            lemma_placement_keeps_layout(start.tables@, after_moves.tables@);
            assert(parked_ids(after_moves) == parked_ids(start));
            assert(selected_work_area(after_moves) == selected_work_area(start));
            if !can_park(start) {
                assert(s2 =~= Seq::<DesktopCall>::empty());
            }
            assert(sall.subrange(s1.len() as int, (s1.len() + s2.len()) as int) =~= s2);
            assert(sall.subrange((s1.len() + s2.len()) as int, sall.len() as int) =~= s3);
            lemma_free_strip_kept(start, after_park, work);
            lemma_position_requests_kept(start.config, work, free_strip(start, work), start.candidates@, after_park.candidates@);
            lemma_tally_keeps(start.tables@, reqs, s1, more, reqs.len() as int);
            lemma_count_no_space_ignores_rects(start.config, free_strip(start, work), start.candidates@, after_park.candidates@);
            assert(self.status_message@ == arrange_report(start, *self, work, start.monitors@[m as int].label@));
        }
    }
}

proof fn lemma_count_positioned_ignores_rects(config: AppConfig, a: Seq<WindowCandidate>, b: Seq<WindowCandidate>)
    requires
        same_candidates_but_rect(a, b),
    ensures
        count_positioned(config, a) == count_positioned(config, b),
    decreases a.len(),
{
    if a.len() > 0 {
        assert(same_candidate_identity(a[a.len() - 1], b[b.len() - 1]));
        assert(same_candidates_but_rect(a.drop_last(), b.drop_last())) by {
            assert forall|i: int| 0 <= i < a.len() - 1 implies same_candidate_identity(#[trigger] a.drop_last()[i], b.drop_last()[i]) by {
                assert(same_candidate_identity(a[i], b[i]));
            }
        }
        lemma_count_positioned_ignores_rects(config, a.drop_last(), b.drop_last());
    }
}

} // verus!
