//! The controller's decisions: which windows are managed, where they go, and
//! what the panel is told. The thread, its timers and the settings file live
//! in the application; the desktop is reached through `WindowBackend`.
use crate::config::{
    AppConfig, ApplicationDefault, HotkeySettings, default_disposition, resolved,
};
use crate::layout::{
    MixedPokerLayout, PokerColumnSpec, calculate_mixed_layout, default_aspect_ratio,
    normalized_ldplayer_aspect_ratio, right_side_free_rect,
};
use crate::model::{
    AspectRatio, BackendError, CandidateDisposition, CandidateView, ColumnView, ManagedTable,
    MonitorInfo, PokerClientKind, PokerColumnAssignment, PokerSlotId, PokerSlotView, Rect,
    SignatureView, Size, TableStatus, WindowBackend, WindowCandidate, WindowId, WindowMode,
    WindowSignature, clamp_i32, clone_columns, columns_view, same_columns, same_signature,
    saturating_sub_i32,
};
use crate::ordering::{arranged, is_permutation, make_key, permuted, stable_order, stably_sorted};
use crate::slots::{
    active_assigned_columns, active_columns, all_sigs, assign_new_signature, assigned,
    clear_signature, column_holds, column_is_owned, column_signatures, column_sigs, compact,
    compact_columns, enabled_signatures, enabled_sigs, entries_of, find_signature_slot,
    list_holds, normalize_preserved_columns, normalized, set_slot_signature, signature_at_slot,
    hole_marks, hole_marks_of, owned,
    keep_if, Entry,
};
use crate::ordering::key_of;
use crate::tracking::{first_where, table_has_signature};
use crate::calls::DesktopCall;
use crate::text::{decimal_string, plural_suffix, push_str};
use vstd::prelude::*;
use vstd::string::*;

verus! {

/// What the panel, the hotkeys, the tray and the window-event watcher ask of
/// the controller.
#[derive(Clone, Debug)]
pub enum ControllerCommand {
    ForceArrange,
    NativeWindowEvent,
    SetAutoArrange(bool),
    SetPreserveTableSlots(bool),
    SetDefaultApplicationMode(ApplicationDefault),
    SetEnabled { id: WindowId, enabled: bool },
    ToggleFocused,
    ToggleSlot(usize),
    MoveToSlot { source: WindowId, destination: PokerSlotId },
    SelectMonitor(String),
    SetWindowMode { id: WindowId, mode: WindowMode },
    SetClubGgLobbiesMode(WindowMode),
    LocateClubGgLobbies,
    Locate(WindowId),
    SetHotkeys(HotkeySettings),
    Shutdown,
}

/// The controller's state between commands.
pub struct Controller {
    pub config: AppConfig,
    pub tables: Vec<ManagedTable>,
    pub candidates: Vec<WindowCandidate>,
    /// Placement outcomes of windows that are not managed tables.
    pub window_statuses: Vec<(WindowId, TableStatus)>,
    pub monitors: Vec<MonitorInfo>,
    pub status_message: String,
    /// A reflow is due (the application times it).
    pub dirty: bool,
    /// The configuration changed and must be written (the application writes it).
    pub save_requested: bool,
    /// Every question put to the desktop and every move, raise or lookup it
    /// was asked for, with its answer, in order (for the contracts only).
    pub calls: Ghost<Seq<DesktopCall>>,
}

pub open spec fn table_ids(tables: Seq<ManagedTable>) -> Seq<WindowId> {
    tables.map_values(|t: ManagedTable| t.id)
}

pub open spec fn candidate_ids(candidates: Seq<WindowCandidate>) -> Seq<WindowId> {
    candidates.map_values(|c: WindowCandidate| c.id)
}

pub open spec fn distinct_ids(ids: Seq<WindowId>) -> bool {
    forall|i: int, j: int| 0 <= i < j < ids.len() ==> ids[i] != ids[j]
}

pub open spec fn status_ids(statuses: Seq<(WindowId, TableStatus)>) -> Seq<WindowId> {
    statuses.map_values(|e: (WindowId, TableStatus)| e.0)
}

/// The disposition that decides how a discovered window is handled: its saved
/// choice; lobbies default to (and never leave for) Park instead of Arrange;
/// ordinary windows without a choice follow the default for applications.
pub open spec fn candidate_disposition(config: AppConfig, candidate: WindowCandidate) -> Option<
    CandidateDisposition,
> {
    let saved = resolved(config.rules(), candidate.signature@);
    if candidate.is_clubgg_lobby {
        Some(
            match saved {
                Some(CandidateDisposition::Table) | None => CandidateDisposition::Parked,
                Some(d) => d,
            },
        )
    } else {
        match saved {
            Some(d) => Some(d),
            None => if candidate.poker_client is None {
                Some(default_disposition(config.default_application_mode))
            } else {
                None
            },
        }
    }
}

/// Whether a discovered window is a managed poker table.
pub open spec fn should_manage(candidate: WindowCandidate, disposition: Option<CandidateDisposition>) -> bool {
    !candidate.is_clubgg_lobby && match disposition {
        Some(CandidateDisposition::Table) | Some(CandidateDisposition::Parked) => true,
        Some(_) => false,
        None => candidate.likely_table,
    }
}

pub open spec fn is_positioned(disposition: Option<CandidateDisposition>) -> bool {
    disposition == Some(CandidateDisposition::TopRight) || disposition == Some(
        CandidateDisposition::FreeSpace,
    )
}

/// The monitor to arrange on: the saved choice, else the primary one, else the first.
pub open spec fn selected_index(monitors: Seq<MonitorInfo>, selected: Option<Seq<char>>) -> Option<int> {
    let by_id = first_monitor_with_id(monitors, selected);
    if by_id < monitors.len() {
        Some(by_id)
    } else if first_primary(monitors) < monitors.len() {
        Some(first_primary(monitors))
    } else if monitors.len() > 0 {
        Some(0)
    } else {
        None
    }
}

pub open spec fn first_monitor_with_id(monitors: Seq<MonitorInfo>, selected: Option<Seq<char>>) -> int
    decreases monitors.len(),
{
    if monitors.len() == 0 {
        0
    } else {
        let found = first_monitor_with_id(monitors.drop_last(), selected);
        if found < monitors.len() - 1 {
            found
        } else if selected == Some(monitors.last().id@) {
            monitors.len() - 1
        } else {
            monitors.len() as int
        }
    }
}

pub open spec fn first_primary(monitors: Seq<MonitorInfo>) -> int
    decreases monitors.len(),
{
    if monitors.len() == 0 {
        0
    } else {
        let found = first_primary(monitors.drop_last());
        if found < monitors.len() - 1 {
            found
        } else if monitors.last().primary {
            monitors.len() - 1
        } else {
            monitors.len() as int
        }
    }
}

pub open spec fn opt_string_view(value: Option<String>) -> Option<Seq<char>> {
    match value {
        Some(s) => Some(s@),
        None => None,
    }
}

/// How a discovered window is handled under `config`.
pub fn disposition_of(config: &AppConfig, candidate: &WindowCandidate) -> (r: Option<CandidateDisposition>)
    ensures
        r == candidate_disposition(*config, *candidate),
{
    let saved = config.disposition_for(&candidate.signature);
    if candidate.is_clubgg_lobby {
        return Some(
            match saved {
                Some(CandidateDisposition::Table) | None => CandidateDisposition::Parked,
                Some(disposition) => disposition,
            },
        );
    }
    match saved {
        Some(disposition) => Some(disposition),
        None => if candidate.poker_client.is_none() {
            Some(config.default_application_mode.disposition())
        } else {
            None
        },
    }
}

impl Controller {
    pub open spec fn wf(&self) -> bool {
        &&& distinct_ids(table_ids(self.tables@))
        &&& distinct_ids(status_ids(self.window_statuses@))
    }

    /// A controller for `config` that has not looked at the desktop yet.
    pub fn new(config: AppConfig) -> (r: Controller)
        ensures
            r.wf(),
            r.config == config,
            r.tables@.len() == 0,
            r.candidates@.len() == 0,
            r.window_statuses@.len() == 0,
            r.monitors@.len() == 0,
            r.status_message@ == "Looking for poker tables…"@,
            !r.dirty,
            !r.save_requested,
    {
        Controller {
            config,
            tables: Vec::new(),
            candidates: Vec::new(),
            window_statuses: Vec::new(),
            monitors: Vec::new(),
            status_message: String::from_str("Looking for poker tables…"),
            dirty: false,
            save_requested: false,
            calls: Ghost(Seq::empty()),
        }
    }

    /// How a discovered window is handled.
    pub fn disposition_for_candidate(&self, candidate: &WindowCandidate) -> (r: Option<
        CandidateDisposition,
    >)
        ensures
            r == candidate_disposition(self.config, *candidate),
    {
        disposition_of(&self.config, candidate)
    }

    /// The index of the monitor to arrange on.
    pub fn selected_monitor(&self) -> (r: Option<usize>)
        ensures
            r matches Some(i) ==> i < self.monitors@.len(),
            r is Some <==> selected_index(self.monitors@, opt_string_view(self.config.selected_monitor)) is Some,
            r matches Some(i) ==> selected_index(self.monitors@, opt_string_view(self.config.selected_monitor)) == Some(i as int),
    {
        select_monitor(&self.monitors, &self.config.selected_monitor)
    }
}

/// The index of the monitor to arrange on: the monitor with the `selected`
/// id, else the primary one, else the first.
pub fn select_monitor(monitors: &Vec<MonitorInfo>, selected: &Option<String>) -> (r: Option<usize>)
    ensures
        r matches Some(i) ==> i < monitors@.len(),
        r is Some <==> selected_index(monitors@, opt_string_view(*selected)) is Some,
        r matches Some(i) ==> selected_index(monitors@, opt_string_view(*selected)) == Some(i as int),
{
    let ghost wanted = opt_string_view(*selected);
    let ghost listed = monitors@;
    let mut by_id: usize = 0;
    if let Some(id) = selected {
        while by_id < monitors.len()
            invariant
                by_id <= listed.len(),
                listed == monitors@,
                wanted == Some(id@),
                forall|k: int| 0 <= k < by_id ==> wanted != Some(listed[k].id@),
            ensures
                by_id <= listed.len(),
                forall|k: int| 0 <= k < by_id ==> wanted != Some(listed[k].id@),
                by_id < listed.len() ==> wanted == Some(listed[by_id as int].id@),
            decreases listed.len() - by_id,
        {
            if monitors[by_id].id == *id {
                break;
            }
            by_id += 1;
        }
    } else {
        by_id = monitors.len();
    }
    proof {
        lemma_first_monitor_with_id(listed, wanted, by_id as int);
    }
    if by_id < monitors.len() {
        return Some(by_id);
    }
    let mut primary: usize = 0;
    while primary < monitors.len()
        invariant
            primary <= listed.len(),
            listed == monitors@,
            forall|k: int| 0 <= k < primary ==> !listed[k].primary,
        ensures
            primary <= listed.len(),
            forall|k: int| 0 <= k < primary ==> !listed[k].primary,
            primary < listed.len() ==> listed[primary as int].primary,
        decreases listed.len() - primary,
    {
        if monitors[primary].primary {
            break;
        }
        primary += 1;
    }
    proof {
        lemma_first_primary(listed, primary as int);
    }
    if primary < monitors.len() {
        Some(primary)
    } else if monitors.len() > 0 {
        Some(0)
    } else {
        None
    }
}

/// The monitor to arrange on: the first one listed with the saved id; with
/// no such monitor, the first primary monitor; with no primary monitor
/// either, the first one listed; with no monitor, none. Whatever is chosen
/// is a listed monitor.
pub proof fn law_monitor_choice(monitors: Seq<MonitorInfo>, selected: Option<Seq<char>>, i: int)
    ensures
        selected_index(monitors, selected) matches Some(m) ==> 0 <= m < monitors.len(),
        0 <= i < monitors.len() && selected == Some(monitors[i].id@) && (forall|k: int|
            0 <= k < i ==> selected != Some((#[trigger] monitors[k]).id@)) ==> selected_index(monitors, selected)
            == Some(i),
        0 <= i < monitors.len() && monitors[i].primary && (forall|k: int|
            0 <= k < monitors.len() ==> selected != Some((#[trigger] monitors[k]).id@)) && (forall|k: int|
            0 <= k < i ==> !(#[trigger] monitors[k]).primary) ==> selected_index(monitors, selected) == Some(i),
        monitors.len() > 0 && (forall|k: int|
            0 <= k < monitors.len() ==> selected != Some((#[trigger] monitors[k]).id@) && !monitors[k].primary)
            ==> selected_index(monitors, selected) == Some(0int),
        monitors.len() == 0 ==> selected_index(monitors, selected) is None,
{
    lemma_first_monitor_bounds(monitors, selected);
    lemma_first_primary_bounds(monitors);
    if 0 <= i < monitors.len() && selected == Some(monitors[i].id@) && (forall|k: int|
        0 <= k < i ==> selected != Some((#[trigger] monitors[k]).id@)) {
        lemma_first_monitor_with_id(monitors, selected, i);
    }
    if forall|k: int| 0 <= k < monitors.len() ==> selected != Some((#[trigger] monitors[k]).id@) {
        lemma_first_monitor_with_id(monitors, selected, monitors.len() as int);
        if 0 <= i < monitors.len() && monitors[i].primary && (forall|k: int|
            0 <= k < i ==> !(#[trigger] monitors[k]).primary) {
            lemma_first_primary(monitors, i);
        }
        if forall|k: int| 0 <= k < monitors.len() ==> !(#[trigger] monitors[k]).primary {
            lemma_first_primary(monitors, monitors.len() as int);
        }
    }
}

proof fn lemma_first_monitor_bounds(monitors: Seq<MonitorInfo>, selected: Option<Seq<char>>)
    ensures
        0 <= first_monitor_with_id(monitors, selected) <= monitors.len(),
    decreases monitors.len(),
{
    if monitors.len() > 0 {
        lemma_first_monitor_bounds(monitors.drop_last(), selected);
    }
}

proof fn lemma_first_primary_bounds(monitors: Seq<MonitorInfo>)
    ensures
        0 <= first_primary(monitors) <= monitors.len(),
    decreases monitors.len(),
{
    if monitors.len() > 0 {
        lemma_first_primary_bounds(monitors.drop_last());
    }
}

proof fn lemma_first_monitor_with_id(monitors: Seq<MonitorInfo>, selected: Option<Seq<char>>, i: int)
    requires
        0 <= i <= monitors.len(),
        forall|k: int| 0 <= k < i ==> selected != Some(monitors[k].id@),
        i < monitors.len() ==> selected == Some(monitors[i].id@),
    ensures
        first_monitor_with_id(monitors, selected) == i,
    decreases monitors.len(),
{
    if monitors.len() > 0 {
        let init = monitors.drop_last();
        if i < init.len() {
            lemma_first_monitor_with_id(init, selected, i);
        } else {
            lemma_first_monitor_with_id(init, selected, init.len() as int);
        }
    }
}

proof fn lemma_first_primary(monitors: Seq<MonitorInfo>, i: int)
    requires
        0 <= i <= monitors.len(),
        forall|k: int| 0 <= k < i ==> !monitors[k].primary,
        i < monitors.len() ==> monitors[i].primary,
    ensures
        first_primary(monitors) == i,
    decreases monitors.len(),
{
    if monitors.len() > 0 {
        let init = monitors.drop_last();
        if i < init.len() {
            lemma_first_primary(init, i);
        } else {
            lemma_first_primary(init, init.len() as int);
        }
    }
}

pub open spec fn sig_views(list: Seq<WindowSignature>) -> Seq<SignatureView> {
    list.map_values(|s: WindowSignature| s@)
}

/// Whether some signature of `column` is among `allowed`.
pub open spec fn column_active(column: ColumnView, allowed: Seq<SignatureView>) -> bool {
    exists|k: int| 0 <= k < column_sigs(column).len() && allowed.contains(column_sigs(column)[k])
}

/// The number of columns holding at least one of `allowed`.
pub open spec fn occupied_count(columns: Seq<ColumnView>, allowed: Seq<SignatureView>) -> int
    decreases columns.len(),
{
    if columns.len() == 0 {
        0
    } else {
        occupied_count(columns.drop_last(), allowed) + if column_active(columns.last(), allowed) {
            1int
        } else {
            0int
        }
    }
}

/// The index of the last occurrence of `signature` in `sigs`.
pub open spec fn last_position(sigs: Seq<SignatureView>, signature: SignatureView) -> Option<int>
    decreases sigs.len(),
{
    if sigs.len() == 0 {
        None
    } else if sigs.last() == signature {
        Some(sigs.len() - 1)
    } else {
        last_position(sigs.drop_last(), signature)
    }
}

/// Sort key of a table: its place in `order` (assigned tables first, by
/// place; the others after them).
pub open spec fn order_key(order: Seq<SignatureView>, signature: SignatureView) -> u128 {
    match last_position(order, signature) {
        Some(i) => key_of(0, i as usize),
        None => key_of(1, usize::MAX),
    }
}

pub open spec fn order_keys(tables: Seq<ManagedTable>, order: Seq<SignatureView>) -> Seq<u128> {
    tables.map_values(|t: ManagedTable| order_key(order, t.signature@))
}

/// `after` is `before` reordered by the keys: a stable sort.
pub open spec fn stably_reordered<T>(before: Seq<T>, after: Seq<T>, keys: Seq<u128>) -> bool {
    exists|order: Seq<usize>|
        is_permutation(order, before.len() as int) && stably_sorted(keys, order) && after
            == arranged(before, order)
}

/// How a column is laid out: an LDPlayer column with a table uses that table's
/// ratio (at least the natural one); every other column is a ClubGG pair.
pub open spec fn spec_for(column: ColumnView, tables: Seq<ManagedTable>) -> PokerColumnSpec {
    match column {
        ColumnView::Ld { table: Some(signature) } => {
            let i = first_where(tables, table_has_signature(signature));
            let detected = if i < tables.len() {
                tables[i].preferred_aspect_ratio.scaled
            } else {
                0
            };
            PokerColumnSpec::LdPlayer {
                aspect_ratio: AspectRatio {
                    scaled: if detected >= crate::layout::LDPLAYER_NATURAL_RATIO_SCALED {
                        detected
                    } else {
                        crate::layout::LDPLAYER_NATURAL_RATIO_SCALED
                    },
                },
            }
        },
        _ => PokerColumnSpec::ClubGg,
    }
}

pub open spec fn specs_for(columns: Seq<ColumnView>, tables: Seq<ManagedTable>) -> Seq<PokerColumnSpec> {
    columns.map_values(|c: ColumnView| spec_for(c, tables))
}

proof fn lemma_arranged_keeps_distinct_ids(tables: Seq<ManagedTable>, order: Seq<usize>)
    requires
        distinct_ids(table_ids(tables)),
        is_permutation(order, tables.len() as int),
    ensures
        distinct_ids(table_ids(arranged(tables, order))),
        arranged(tables, order).len() == tables.len(),
{
    let out = arranged(tables, order);
    assert forall|i: int, j: int| 0 <= i < j < out.len() implies table_ids(out)[i] != table_ids(
        out,
    )[j] by {
        assert(out[i] == tables[order[i] as int]);
        assert(out[j] == tables[order[j] as int]);
        assert(order[i] != order[j]);
        let a = order[i] as int;
        let b = order[j] as int;
        if a < b {
            assert(table_ids(tables)[a] != table_ids(tables)[b]);
        } else {
            assert(table_ids(tables)[b] != table_ids(tables)[a]);
        }
    }
}

/// All signatures assigned to `columns`, column by column.
pub fn flattened_signatures(columns: &Vec<PokerColumnAssignment>) -> (r: Vec<WindowSignature>)
    ensures
        sig_views(r@) == all_sigs(columns_view(columns@)),
{
    let ghost view = columns_view(columns@);
    let mut out: Vec<WindowSignature> = Vec::new();
    let mut index: usize = 0;
    while index < columns.len()
        invariant
            index <= columns.len(),
            view == columns_view(columns@),
            sig_views(out@) == all_sigs(view.subrange(0, index as int)),
        decreases columns.len() - index,
    {
        let sigs = column_signatures(&columns[index]);
        let ghost prev = out@;
        let mut k: usize = 0;
        while k < sigs.len()
            invariant
                k <= sigs.len(),
                sig_views(out@) == sig_views(prev) + sig_views(sigs@).subrange(0, k as int),
            decreases sigs.len() - k,
        {
            let ghost before_push = out@;
            out.push(sigs[k].clone());
            assert(sig_views(out@) =~= sig_views(before_push).push(sigs@[k as int]@));
            k += 1;
            assert(sig_views(out@) =~= sig_views(prev) + sig_views(sigs@).subrange(0, k as int));
        }
        assert(sig_views(sigs@).subrange(0, k as int) =~= sig_views(sigs@));
        assert(view.subrange(0, index + 1).drop_last() =~= view.subrange(0, index as int));
        assert(view.subrange(0, index + 1).last() == columns@[index as int]@);
        index += 1;
    }
    assert(view.subrange(0, index as int) =~= view);
    out
}

fn last_position_of(sigs: &Vec<WindowSignature>, signature: &WindowSignature) -> (r: Option<usize>)
    ensures
        match r {
            Some(i) => last_position(sig_views(sigs@), signature@) == Some(i as int),
            None => last_position(sig_views(sigs@), signature@) is None,
        },
{
    let ghost view = sig_views(sigs@);
    let mut index = sigs.len();
    assert(view.subrange(0, index as int) =~= view);
    while index > 0
        invariant
            index <= sigs.len(),
            view == sig_views(sigs@),
            last_position(view, signature@) == last_position(view.subrange(0, index as int), signature@),
        decreases index,
    {
        assert(view.subrange(0, index - 1) =~= view.subrange(0, index as int).drop_last());
        if same_signature(&sigs[index - 1], signature) {
            return Some(index - 1);
        }
        index -= 1;
    }
    None
}

fn order_key_of(order: &Vec<WindowSignature>, signature: &WindowSignature) -> (r: u128)
    ensures
        r == order_key(sig_views(order@), signature@),
{
    match last_position_of(order, signature) {
        Some(i) => make_key(0, i),
        None => make_key(1, usize::MAX),
    }
}

/// Reorders `tables` stably by their place in `order`.
pub fn sort_tables_by(tables: &Vec<ManagedTable>, order: &Vec<WindowSignature>) -> (r: Vec<ManagedTable>)
    ensures
        stably_reordered(tables@, r@, order_keys(tables@, sig_views(order@))),
        distinct_ids(table_ids(tables@)) ==> distinct_ids(table_ids(r@)),
        r@.len() == tables@.len(),
{
    let ghost keys_view = order_keys(tables@, sig_views(order@));
    let mut keys: Vec<u128> = Vec::new();
    let mut index: usize = 0;
    while index < tables.len()
        invariant
            index <= tables.len(),
            keys_view == order_keys(tables@, sig_views(order@)),
            keys@ == keys_view.subrange(0, index as int),
        decreases tables.len() - index,
    {
        keys.push(order_key_of(order, &tables[index].signature));
        index += 1;
        assert(keys@ =~= keys_view.subrange(0, index as int));
    }
    assert(keys@ =~= keys_view);
    let permutation = stable_order(&keys);
    assert forall|a: ManagedTable, b: ManagedTable| vstd::pervasive::strictly_cloned(a, b) implies a == b by {}
    let sorted = permuted(tables, &permutation);
    proof {
        if distinct_ids(table_ids(tables@)) {
            lemma_arranged_keeps_distinct_ids(tables@, permutation@);
        }
    }
    sorted
}

/// The signatures of all managed tables, in table order.
pub open spec fn table_sigs(tables: Seq<ManagedTable>) -> Seq<SignatureView> {
    tables.map_values(|t: ManagedTable| t.signature@)
}

/// A column without the tables that are gone: a full-height column whose table
/// is gone becomes empty.
pub open spec fn pruned_column(column: ColumnView, live: Seq<SignatureView>) -> ColumnView {
    match column {
        ColumnView::Club { top, bottom } => ColumnView::Club {
            top: keep_if(top, live),
            bottom: keep_if(bottom, live),
        },
        ColumnView::Ld { table } => match table {
            Some(s) => if live.contains(s) {
                column
            } else {
                ColumnView::Empty
            },
            None => column,
        },
        ColumnView::Empty => column,
    }
}

pub open spec fn pad_two(columns: Seq<ColumnView>) -> Seq<ColumnView> {
    if columns.len() >= 2 {
        columns
    } else {
        columns + Seq::new((2 - columns.len()) as nat, |i: int| ColumnView::Club { top: None, bottom: None })
    }
}

/// The tables of `client` kind whose signature is not among `assigned`, in order.
pub open spec fn pending_of(tables: Seq<ManagedTable>, assigned: Seq<SignatureView>, client: PokerClientKind) -> Seq<Entry>
    decreases tables.len(),
{
    if tables.len() == 0 {
        Seq::empty()
    } else {
        let rest = pending_of(tables.drop_last(), assigned, client);
        let last = tables.last();
        if last.poker_client == client && !assigned.contains(last.signature@) {
            rest.push(Entry { signature: last.signature@, client })
        } else {
            rest
        }
    }
}

/// `columns` after placing each pending table in turn.
pub open spec fn assign_all(columns: Seq<ColumnView>, pending: Seq<Entry>) -> Seq<ColumnView>
    decreases pending.len(),
{
    if pending.len() == 0 {
        columns
    } else {
        assigned(assign_all(columns, pending.drop_last()), pending.last().signature, pending.last().client)
    }
}

/// How many of `columns` held a table and hold none once the tables that are
/// gone (not in `live`) leave them: the whole columns closed tables vacate.
pub open spec fn vacated_count(columns: Seq<ColumnView>, live: Seq<SignatureView>) -> int
    decreases columns.len(),
{
    if columns.len() == 0 {
        0
    } else {
        vacated_count(columns.drop_last(), live) + if owned(columns.last()) && !owned(
            pruned_column(columns.last(), live),
        ) {
            1int
        } else {
            0int
        }
    }
}

/// The columns after a sync: with preservation off, the compact layout of all
/// tables; with it on, the old columns without departed tables, at least two
/// wide, with every unassigned table placed (ClubGG tables first), capped to
/// the preserved footprint plus the recorded holes (`holes`) and the whole
/// columns vacated now, which stay as empty targets.
pub open spec fn synced(columns: Seq<ColumnView>, tables: Seq<ManagedTable>, preserve: bool, holes: int) -> Seq<ColumnView> {
    if !preserve {
        compact(entries_of(tables, false))
    } else {
        let live = table_sigs(tables);
        let kept = pad_two(columns.map_values(|c: ColumnView| pruned_column(c, live)));
        let present = all_sigs(kept);
        let clubs = pending_of(tables, present, PokerClientKind::ClubGg);
        let lds = pending_of(tables, present, PokerClientKind::LdPlayer);
        normalized(assign_all(assign_all(kept, clubs), lds), holes + vacated_count(columns, live))
    }
}

/// The placeholders recorded after a sync: the holes of the preserved
/// footprint, or none without preservation.
pub open spec fn synced_marks(columns: Seq<ColumnView>, tables: Seq<ManagedTable>, preserve: bool, holes: int) -> Seq<PokerSlotId> {
    if preserve {
        hole_marks(synced(columns, tables, preserve, holes))
    } else {
        Seq::empty()
    }
}

/// Every field but the slot assignments and the table order is the same.
pub open spec fn same_but_slots(a: AppConfig, b: AppConfig) -> bool {
    &&& a.version == b.version
    &&& a.selected_monitor == b.selected_monitor
    &&& a.auto_arrange == b.auto_arrange
    &&& a.preserve_table_slots == b.preserve_table_slots
    &&& a.default_application_mode == b.default_application_mode
    &&& a.detection_rules == b.detection_rules
    &&& a.hotkeys == b.hotkeys
    &&& a.table_aspect_ratio == b.table_aspect_ratio
}

/// How many whole columns of `before` lose all their tables in `pruned`.
fn count_vacated(before: &Vec<PokerColumnAssignment>, pruned: &Vec<PokerColumnAssignment>, live: Ghost<Seq<SignatureView>>) -> (r: usize)
    requires
        columns_view(pruned@) == columns_view(before@).map_values(|c: ColumnView| pruned_column(c, live@)),
    ensures
        r == vacated_count(columns_view(before@), live@),
        r <= before@.len(),
{
    let ghost view = columns_view(before@);
    assert(columns_view(pruned@).len() == view.len());
    assert(columns_view(pruned@).len() == pruned@.len());
    let mut count: usize = 0;
    let mut index: usize = 0;
    while index < before.len()
        invariant
            index <= before.len(),
            view == columns_view(before@),
            pruned@.len() == before@.len(),
            columns_view(pruned@) == view.map_values(|c: ColumnView| pruned_column(c, live@)),
            count == vacated_count(view.subrange(0, index as int), live@),
            count <= index,
        decreases before.len() - index,
    {
        assert(view.subrange(0, index as int) =~= view.subrange(0, index + 1).drop_last());
        assert(columns_view(pruned@)[index as int] == pruned@[index as int]@);
        if column_is_owned(&before[index]) && !column_is_owned(&pruned[index]) {
            count += 1;
        }
        index += 1;
    }
    assert(view.subrange(0, index as int) =~= view);
    count
}

pub fn table_signatures(tables: &Vec<ManagedTable>) -> (r: Vec<WindowSignature>)
    ensures
        sig_views(r@) == table_sigs(tables@),
{
    let mut out: Vec<WindowSignature> = Vec::new();
    let mut index: usize = 0;
    while index < tables.len()
        invariant
            index <= tables.len(),
            sig_views(out@) == table_sigs(tables@).subrange(0, index as int),
        decreases tables.len() - index,
    {
        let ghost prev = out@;
        out.push(tables[index].signature.clone());
        assert(sig_views(out@) =~= sig_views(prev).push(tables@[index as int].signature@));
        index += 1;
        assert(sig_views(out@) =~= table_sigs(tables@).subrange(0, index as int));
    }
    assert(table_sigs(tables@).subrange(0, index as int) =~= table_sigs(tables@));
    out
}

fn keep_live(signature: &Option<WindowSignature>, live: &Vec<WindowSignature>) -> (r: Option<WindowSignature>)
    ensures
        crate::model::opt_sig_view(r) == keep_if(crate::model::opt_sig_view(*signature), sig_views(live@)),
{
    match signature {
        Some(s) => if list_holds(live, s) {
            Some(s.clone())
        } else {
            None
        },
        None => None,
    }
}

fn prune_columns(columns: &Vec<PokerColumnAssignment>, live: &Vec<WindowSignature>) -> (r: Vec<PokerColumnAssignment>)
    ensures
        columns_view(r@) == columns_view(columns@).map_values(|c: ColumnView| pruned_column(c, sig_views(live@))),
{
    let ghost target = columns_view(columns@).map_values(|c: ColumnView| pruned_column(c, sig_views(live@)));
    let mut out: Vec<PokerColumnAssignment> = Vec::new();
    let mut index: usize = 0;
    while index < columns.len()
        invariant
            index <= columns.len(),
            target == columns_view(columns@).map_values(|c: ColumnView| pruned_column(c, sig_views(live@))),
            columns_view(out@) == target.subrange(0, index as int),
        decreases columns.len() - index,
    {
        let column = match &columns[index] {
            PokerColumnAssignment::ClubGg { top, bottom } => PokerColumnAssignment::ClubGg {
                top: keep_live(top, live),
                bottom: keep_live(bottom, live),
            },
            PokerColumnAssignment::LdPlayer { table } => match table {
                Some(s) => if list_holds(live, s) {
                    PokerColumnAssignment::LdPlayer { table: Some(s.clone()) }
                } else {
                    PokerColumnAssignment::Empty
                },
                None => PokerColumnAssignment::LdPlayer { table: None },
            },
            PokerColumnAssignment::Empty => PokerColumnAssignment::Empty,
        };
        assert(column@ == target[index as int]);
        let ghost prev = out@;
        out.push(column);
        assert(columns_view(out@) =~= columns_view(prev).push(column@));
        index += 1;
        assert(columns_view(out@) =~= target.subrange(0, index as int));
    }
    assert(target.subrange(0, index as int) =~= target);
    out
}

fn place_pending(
    columns: &mut Vec<PokerColumnAssignment>,
    tables: &Vec<ManagedTable>,
    present: &Vec<WindowSignature>,
    client: PokerClientKind,
)
    ensures
        columns_view(final(columns)@) == assign_all(columns_view(old(columns)@), pending_of(tables@, sig_views(present@), client)),
{
    let ghost start = columns_view(columns@);
    let mut index: usize = 0;
    while index < tables.len()
        invariant
            index <= tables.len(),
            start == columns_view(old(columns)@),
            columns_view(columns@) == assign_all(start, pending_of(tables@.subrange(0, index as int), sig_views(present@), client)),
        decreases tables.len() - index,
    {
        let table = &tables[index];
        assert(tables@.subrange(0, index as int) =~= tables@.subrange(0, index + 1).drop_last());
        let ghost before = pending_of(tables@.subrange(0, index as int), sig_views(present@), client);
        if table.poker_client == client && !list_holds(present, &table.signature) {
            let ghost after = before.push(Entry { signature: table.signature@, client });
            assert(after.drop_last() =~= before);
            assign_new_signature(columns, table.signature.clone(), client);
        }
        index += 1;
    }
    assert(tables@.subrange(0, index as int) =~= tables@);
}

impl Controller {
    /// The number of columns holding at least one enabled table.
    pub fn occupied_active_column_count(&self) -> (r: usize)
        ensures
            r == occupied_count(columns_view(self.config.poker_columns@), enabled_sigs(self.tables@)),
    {
        let enabled = enabled_signatures(&self.tables);
        let ghost view = columns_view(self.config.poker_columns@);
        let ghost allowed = enabled_sigs(self.tables@);
        let mut count: usize = 0;
        let mut index: usize = 0;
        while index < self.config.poker_columns.len()
            invariant
                index <= self.config.poker_columns.len(),
                view == columns_view(self.config.poker_columns@),
                allowed == sig_views(enabled@),
                count == occupied_count(view.subrange(0, index as int), allowed),
                count <= index,
            decreases self.config.poker_columns.len() - index,
        {
            let sigs = column_signatures(&self.config.poker_columns[index]);
            let mut active = false;
            let mut k: usize = 0;
            while k < sigs.len()
                invariant
                    k <= sigs.len(),
                    allowed == sig_views(enabled@),
                    active == exists|j: int| 0 <= j < k && allowed.contains(sig_views(sigs@)[j]),
                decreases sigs.len() - k,
            {
                assert(sig_views(sigs@)[k as int] == sigs@[k as int]@);
                if list_holds(&enabled, &sigs[k]) {
                    active = true;
                }
                k += 1;
            }
            assert(view.subrange(0, index + 1).drop_last() =~= view.subrange(0, index as int));
            assert(view.subrange(0, index + 1).last() == self.config.poker_columns@[index as int]@);
            assert(active == column_active(view[index as int], allowed));
            if active {
                count += 1;
            }
            index += 1;
        }
        assert(view.subrange(0, index as int) =~= view);
        count
    }

    /// Slot preservation is in force: requested, and fewer than two columns
    /// are busy with enabled tables.
    pub fn effective_preserve_table_slots(&self) -> (r: bool)
        ensures
            r == (self.config.preserve_table_slots && occupied_count(columns_view(self.config.poker_columns@), enabled_sigs(self.tables@)) < 2),
    {
        self.config.preserve_table_slots && self.occupied_active_column_count() < 2
    }

    /// The columns the workspace is laid out with right now.
    pub fn runtime_columns(&self) -> (r: Vec<PokerColumnAssignment>)
        ensures
            columns_view(r@) == (if self.config.preserve_table_slots && occupied_count(columns_view(self.config.poker_columns@), enabled_sigs(self.tables@)) < 2 {
                columns_view(self.config.poker_columns@)
            } else if self.config.preserve_table_slots {
                active_columns(columns_view(self.config.poker_columns@), enabled_sigs(self.tables@))
            } else {
                compact(entries_of(self.tables@, true))
            }),
    {
        if self.effective_preserve_table_slots() {
            clone_columns(&self.config.poker_columns)
        } else if self.config.preserve_table_slots {
            active_assigned_columns(&self.config.poker_columns, &self.tables)
        } else {
            compact_columns(&self.tables, true)
        }
    }

    /// Reorders the tables by their place in the columns.
    pub fn sort_tables_by_columns(&mut self)
        requires
            old(self).wf(),
        ensures
            final(self).wf(),
            stably_reordered(old(self).tables@, final(self).tables@, order_keys(old(self).tables@, all_sigs(columns_view(old(self).config.poker_columns@)))),
            final(self).config == old(self).config,
            final(self).candidates == old(self).candidates,
            final(self).window_statuses == old(self).window_statuses,
            final(self).monitors == old(self).monitors,
            final(self).status_message == old(self).status_message,
            final(self).dirty == old(self).dirty,
            final(self).save_requested == old(self).save_requested,
            final(self).calls == old(self).calls,
    {
        let order = flattened_signatures(&self.config.poker_columns);
        self.tables = sort_tables_by(&self.tables, &order);
    }

    /// Brings the slot assignments in line with the managed tables (`synced`),
    /// records the holes closed tables left (`synced_marks`, as placeholders,
    /// so that they stay on later syncs) and reports whether the assignments
    /// changed.
    pub fn sync_poker_columns(&mut self) -> (changed: bool)
        requires
            old(self).wf(),
        ensures
            final(self).wf(),
            columns_view(final(self).config.poker_columns@) == synced(
                columns_view(old(self).config.poker_columns@),
                old(self).tables@,
                old(self).config.preserve_table_slots,
                old(self).config.poker_placeholders@.len() as int,
            ),
            final(self).config.poker_placeholders@ == synced_marks(
                columns_view(old(self).config.poker_columns@),
                old(self).tables@,
                old(self).config.preserve_table_slots,
                old(self).config.poker_placeholders@.len() as int,
            ),
            stably_reordered(old(self).tables@, final(self).tables@, order_keys(old(self).tables@, all_sigs(columns_view(final(self).config.poker_columns@)))),
            sig_views(final(self).config.table_order@) == table_sigs(final(self).tables@),
            changed == (columns_view(final(self).config.poker_columns@) != columns_view(old(self).config.poker_columns@)),
            same_but_slots(final(self).config, old(self).config),
            final(self).candidates == old(self).candidates,
            final(self).window_statuses == old(self).window_statuses,
            final(self).monitors == old(self).monitors,
            final(self).status_message == old(self).status_message,
            final(self).dirty == old(self).dirty,
            final(self).save_requested == old(self).save_requested,
            final(self).calls == old(self).calls,
    {
        let before = clone_columns(&self.config.poker_columns);
        let live = table_signatures(&self.tables);
        let mut columns = prune_columns(&self.config.poker_columns, &live);
        let vacated = count_vacated(&self.config.poker_columns, &columns, Ghost(sig_views(live@)));
        let marks: Vec<PokerSlotId>;
        if !self.config.preserve_table_slots {
            columns = compact_columns(&self.tables, false);
            marks = Vec::new();
        } else {
            let ghost pruned = columns_view(columns@);
            while columns.len() < 2
                invariant
                    pruned.len() < 2 ==> columns@.len() <= 2,
                    columns_view(columns@) == (if pruned.len() >= 2 { pruned } else {
                        pruned + Seq::new((columns@.len() - pruned.len()) as nat, |i: int| ColumnView::Club { top: None, bottom: None })
                    }),
                    columns@.len() >= pruned.len(),
                decreases 2 - columns.len(),
            {
                let ghost prev = columns@;
                let pad = PokerColumnAssignment::empty_club();
                columns.push(pad);
                assert(columns_view(columns@) =~= columns_view(prev).push(pad@));
                assert(Seq::new((columns@.len() - pruned.len()) as nat, |i: int| ColumnView::Club { top: None, bottom: None })
                    =~= Seq::new((prev.len() - pruned.len()) as nat, |i: int| ColumnView::Club { top: None, bottom: None }).push(ColumnView::Club { top: None, bottom: None }));
            }
            assert(columns_view(columns@) =~= pad_two(pruned));
            let present = flattened_signatures(&columns);
            place_pending(&mut columns, &self.tables, &present, PokerClientKind::ClubGg);
            place_pending(&mut columns, &self.tables, &present, PokerClientKind::LdPlayer);
            let recorded = self.config.poker_placeholders.len();
            let room = columns.len();
            let holes = if recorded > room || vacated > room - recorded { room } else { recorded + vacated };
            assert(normalized(columns_view(columns@), holes as int) == normalized(columns_view(columns@), recorded + vacated));
            normalize_preserved_columns(&mut columns, holes);
            marks = hole_marks_of(&columns);
        }
        self.config.poker_placeholders = marks;
        self.config.poker_columns = columns;
        self.sort_tables_by_columns();
        self.config.table_order = table_signatures(&self.tables);
        !same_columns(&before, &self.config.poker_columns)
    }

    /// Records the current table order as the saved order.
    pub fn persist_table_order(&mut self)
        ensures
            sig_views(final(self).config.table_order@) == table_sigs(old(self).tables@),
            final(self).save_requested,
            final(self).tables == old(self).tables,
            final(self).candidates == old(self).candidates,
            final(self).window_statuses == old(self).window_statuses,
            final(self).monitors == old(self).monitors,
            final(self).status_message == old(self).status_message,
            final(self).dirty == old(self).dirty,
            same_but_slots(final(self).config, old(self).config),
            final(self).config.poker_columns == old(self).config.poker_columns,
            final(self).config.poker_placeholders == old(self).config.poker_placeholders,
            final(self).calls == old(self).calls,
    {
        self.config.table_order = table_signatures(&self.tables);
        self.save_requested = true;
    }
}

} // verus!
