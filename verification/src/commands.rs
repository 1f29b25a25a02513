//! What the controller does for each command of the panel, the hotkeys and
//! the tray.
use crate::arrangement::{same_tables_but_placement, same_candidates_but_rect, arrangement_done};
use crate::reconcile::reconciled;
use crate::calls::{DesktopCall, request_locate, ask_foreground};
use crate::config::AppConfig;
use crate::config::{ApplicationDefault, HotkeySettings, last_exact, resolved, with_rule, fallback_of};
use crate::controller::{
    Controller, ControllerCommand, candidate_disposition, distinct_ids, order_keys,
    sig_views, stably_reordered, table_ids, table_sigs,
};
use crate::model::{
    BackendError, CandidateDisposition, ColumnView, PokerClientKind, PokerSlotId, SignatureView,
    TableStatus, WindowBackend, WindowId, WindowMode, columns_view,
};
use crate::slots::{
    addressable, all_sigs, cleared, find_signature_slot, find_slot, lemma_find_slot_in_range,
    set_at, set_slot_signature, sig_at, signature_at_slot,
};
use crate::model::ManagedTable;
use crate::tracking::{
    candidate_index, first_where, lemma_first_where_bounds, signature_table_index, table_has_id,
    table_has_signature, table_index, status_of,
};
use vstd::prelude::*;

verus! {

/// `columns` with columns `a` and `b` exchanged.
pub open spec fn swapped(columns: Seq<ColumnView>, a: int, b: int) -> Seq<ColumnView> {
    columns.update(a, columns[b]).update(b, columns[a])
}

/// The client of the first table with `signature`.
pub open spec fn client_with_signature(tables: Seq<crate::model::ManagedTable>, signature: SignatureView) -> Option<PokerClientKind> {
    let j = first_where(tables, table_has_signature(signature));
    if j < tables.len() {
        Some(tables[j].poker_client)
    } else {
        None
    }
}

/// A move exchanges whole columns when either side is a full-height
/// LDPlayer table or the destination is a whole column.
pub open spec fn moves_whole_columns(
    columns: Seq<ColumnView>,
    tables: Seq<crate::model::ManagedTable>,
    client: PokerClientKind,
    destination: PokerSlotId,
) -> bool {
    let occupant_client = match sig_at(columns, destination) {
        Some(s) => client_with_signature(tables, s),
        None => None,
    };
    client == PokerClientKind::LdPlayer || occupant_client == Some(PokerClientKind::LdPlayer)
        || destination.row is None
}

/// The columns after moving the table of window `source` to `destination`,
/// or nothing when there is nothing to move: the window has no table, the
/// table has no slot, the destination is its own slot or lies beyond the
/// columns. A cell move puts the table in the destination and the
/// destination's occupant (or nothing) in the table's old cell.
pub open spec fn moved_columns(
    columns: Seq<ColumnView>,
    tables: Seq<crate::model::ManagedTable>,
    source: WindowId,
    destination: PokerSlotId,
) -> Option<Seq<ColumnView>> {
    let i = first_where(tables, table_has_id(source));
    if i >= tables.len() {
        None
    } else {
        let signature = tables[i].signature@;
        match find_slot(columns, signature) {
            None => None,
            Some(from) => if from == destination || destination.column >= columns.len() {
                None
            } else if moves_whole_columns(columns, tables, tables[i].poker_client, destination) {
                Some(swapped(columns, from.column as int, destination.column as int))
            } else {
                Some(
                    set_at(
                        set_at(columns, from, sig_at(columns, destination)),
                        destination,
                        Some(signature),
                    ),
                )
            },
        }
    }
}

/// A cell move exchanges the two occupants: the moved table is found in the
/// destination and the destination's former occupant (or nothing) in the
/// table's former cell; every other column is untouched.
pub proof fn law_move_exchanges_occupants(
    columns: Seq<ColumnView>,
    tables: Seq<crate::model::ManagedTable>,
    source: WindowId,
    destination: PokerSlotId,
    other: int,
)
    requires
        columns.len() <= usize::MAX,
        moved_columns(columns, tables, source, destination) is Some,
        ({
            let i = first_where(tables, table_has_id(source));
            !moves_whole_columns(columns, tables, tables[i].poker_client, destination)
        }),
        addressable(columns, destination),
        0 <= other < columns.len(),
    ensures
        ({
            let i = first_where(tables, table_has_id(source));
            let signature = tables[i].signature@;
            let from = find_slot(columns, signature)->0;
            let after = moved_columns(columns, tables, source, destination)->0;
            &&& sig_at(after, destination) == Some(signature)
            &&& sig_at(after, from) == sig_at(columns, destination)
            &&& other != from.column && other != destination.column ==> after[other] == columns[other]
            &&& after.len() == columns.len()
        }),
{
    let i = first_where(tables, table_has_id(source));
    let signature = tables[i].signature@;
    crate::slots::law_found_slot_holds_signature(columns, signature);
    let from = find_slot(columns, signature)->0;
    let occupant = sig_at(columns, destination);
    let first = set_at(columns, from, occupant);
    assert(addressable(columns, from));
    assert(sig_at(first, from) == occupant);
    assert(addressable(first, destination));
}

/// Exchanging whole columns moves each column to the other's place.
pub proof fn law_whole_column_moves_swap(columns: Seq<ColumnView>, a: int, b: int, other: int)
    requires
        0 <= a < columns.len(),
        0 <= b < columns.len(),
        0 <= other < columns.len(),
    ensures
        swapped(columns, a, b)[a] == columns[b],
        swapped(columns, a, b)[b] == columns[a],
        other != a && other != b ==> swapped(columns, a, b)[other] == columns[other],
        swapped(swapped(columns, a, b), a, b) == columns,
{
    assert(swapped(swapped(columns, a, b), a, b) =~= columns);
}

impl Controller {
    /// Releases the slot of window `id`'s table, if it has a table.
    pub fn release_slot_for(&mut self, id: WindowId)
        ensures
            columns_view(final(self).config.poker_columns@) == ({
                let i = first_where(old(self).tables@, table_has_id(id));
                if i < old(self).tables@.len() {
                    cleared(columns_view(old(self).config.poker_columns@), old(self).tables@[i].signature@)
                } else {
                    columns_view(old(self).config.poker_columns@)
                }
            }),
            final(self).tables == old(self).tables,
            final(self).candidates == old(self).candidates,
            final(self).window_statuses == old(self).window_statuses,
            final(self).monitors == old(self).monitors,
            final(self).status_message == old(self).status_message,
            final(self).dirty == old(self).dirty,
            final(self).save_requested == old(self).save_requested,
            crate::controller::same_but_slots(final(self).config, old(self).config),
            final(self).config.table_order == old(self).config.table_order,
            final(self).config.poker_placeholders == old(self).config.poker_placeholders,
            final(self).calls == old(self).calls,
    {
        let i = table_index(&self.tables, id);
        proof {
            lemma_first_where_bounds(self.tables@, table_has_id(id));
        }
        if i < self.tables.len() {
            let signature = self.tables[i].signature.clone();
            crate::slots::clear_signature(&mut self.config.poker_columns, &signature);
        }
    }

    /// Moves the table of window `source` to `destination` (see
    /// `moved_columns`) and reorders the tables by their new places; reports
    /// whether anything moved.
    pub fn move_to_slot(&mut self, source: WindowId, destination: PokerSlotId) -> (moved: bool)
        requires
            old(self).wf(),
        ensures
            final(self).wf(),
            moved == moved_columns(columns_view(old(self).config.poker_columns@), old(self).tables@, source, destination) is Some,
            moved ==> columns_view(final(self).config.poker_columns@) == moved_columns(
                columns_view(old(self).config.poker_columns@),
                old(self).tables@,
                source,
                destination,
            )->0,
            moved ==> stably_reordered(old(self).tables@, final(self).tables@, order_keys(old(self).tables@, all_sigs(columns_view(final(self).config.poker_columns@)))),
            !moved ==> final(self).tables == old(self).tables && final(self).config.poker_columns == old(self).config.poker_columns,
            crate::controller::same_but_slots(final(self).config, old(self).config),
            final(self).config.table_order == old(self).config.table_order,
            final(self).config.poker_placeholders == old(self).config.poker_placeholders,
            final(self).candidates == old(self).candidates,
            final(self).window_statuses == old(self).window_statuses,
            final(self).monitors == old(self).monitors,
            final(self).status_message == old(self).status_message,
            final(self).dirty == old(self).dirty,
            final(self).save_requested == old(self).save_requested,
            final(self).calls == old(self).calls,
    {
        let ghost columns = columns_view(self.config.poker_columns@);
        let i = table_index(&self.tables, source);
        proof {
            lemma_first_where_bounds(self.tables@, table_has_id(source));
        }
        if i >= self.tables.len() {
            return false;
        }
        let signature = self.tables[i].signature.clone();
        let client = self.tables[i].poker_client;
        let from = match find_signature_slot(&self.config.poker_columns, &signature) {
            Some(slot) => slot,
            None => {
                return false;
            },
        };
        let count = self.config.poker_columns.len();
        proof {
            assert(columns.len() == count);
            lemma_find_slot_in_range(columns, signature@);
        }
        if from == destination || destination.column >= self.config.poker_columns.len() {
            return false;
        }
        let occupant = signature_at_slot(&self.config.poker_columns, destination);
        let occupant_client = match &occupant {
            Some(s) => {
                let j = signature_table_index(&self.tables, s);
                proof {
                    lemma_first_where_bounds(self.tables@, table_has_signature(s@));
                }
                if j < self.tables.len() {
                    Some(self.tables[j].poker_client)
                } else {
                    None
                }
            },
            None => None,
        };
        let ld_source = match client {
            PokerClientKind::LdPlayer => true,
            PokerClientKind::ClubGg => false,
        };
        let ld_occupant = match occupant_client {
            Some(PokerClientKind::LdPlayer) => true,
            _ => false,
        };
        if ld_source || ld_occupant || destination.row.is_none() {
            let a = from.column;
            let b = destination.column;
            let column_a = self.config.poker_columns[a].clone();
            let column_b = self.config.poker_columns[b].clone();
            self.config.poker_columns.set(a, column_b);
            self.config.poker_columns.set(b, column_a);
            assert(columns_view(self.config.poker_columns@) =~= swapped(columns, a as int, b as int));
        } else {
            set_slot_signature(&mut self.config.poker_columns, from, occupant);
            set_slot_signature(&mut self.config.poker_columns, destination, Some(signature));
        }
        self.sort_tables_by_columns();
        true
    }
}

/// The disposition saved for a window mode chosen in the panel.
pub open spec fn mode_disposition_spec(mode: WindowMode) -> CandidateDisposition {
    match mode {
        WindowMode::Arranged => CandidateDisposition::Table,
        WindowMode::Parked => CandidateDisposition::Parked,
        WindowMode::TopRight => CandidateDisposition::TopRight,
        WindowMode::FreeSpace => CandidateDisposition::FreeSpace,
        WindowMode::Ignored => CandidateDisposition::Ignored,
    }
}

pub fn mode_disposition(mode: WindowMode) -> (r: CandidateDisposition)
    ensures
        r == mode_disposition_spec(mode),
{
    match mode {
        WindowMode::Arranged => CandidateDisposition::Table,
        WindowMode::Parked => CandidateDisposition::Parked,
        WindowMode::TopRight => CandidateDisposition::TopRight,
        WindowMode::FreeSpace => CandidateDisposition::FreeSpace,
        WindowMode::Ignored => CandidateDisposition::Ignored,
    }
}

/// The rules after choosing `mode` for a window: poker tables keep the
/// choice for themselves; LDPlayer and ordinary application windows also
/// pass it to every window of their process and class.
pub open spec fn rules_after_mode(
    rules: Seq<crate::config::RuleView>,
    signature: SignatureView,
    client: Option<PokerClientKind>,
    mode: WindowMode,
) -> Seq<crate::config::RuleView> {
    let d = mode_disposition_spec(mode);
    if client == Some(PokerClientKind::ClubGg) {
        with_rule(rules, signature, d)
    } else {
        with_rule(with_rule(rules, signature, d), fallback_of(signature), d)
    }
}

/// The ids of the ClubGG lobbies among `candidates`, in order.
pub open spec fn lobby_ids(candidates: Seq<crate::model::WindowCandidate>) -> Seq<WindowId>
    decreases candidates.len(),
{
    if candidates.len() == 0 {
        Seq::empty()
    } else {
        let rest = lobby_ids(candidates.drop_last());
        if candidates.last().is_clubgg_lobby {
            rest.push(candidates.last().id)
        } else {
            rest
        }
    }
}

/// What the application does once a command is handled.
#[derive(Clone, Copy, Debug, PartialEq, Eq, Structural)]
pub enum ControllerAction {
    /// Show the new state.
    Publish,
    /// Show the new state; discovery has just run, so a pending one is moot.
    DiscoveryDone,
    /// Run discovery once the burst of desktop events has settled.
    ScheduleDiscovery,
    /// Locate the ClubGG lobbies one after another.
    LocateLobbies,
    /// Stop the controller.
    Stop,
}

/// What enabling or disabling the table of window `id` does: that table
/// alone changes its flag, the choice is saved as Arrange or Park for its
/// signature and read back so, and the desktop is rearranged. Nothing
/// changes when the window has no table.
pub open spec fn enabled_applied(before: Controller, after: Controller, id: WindowId, enabled: bool) -> bool {
    let i = first_where(before.tables@, table_has_id(id));
    let d = if enabled { CandidateDisposition::Table } else { CandidateDisposition::Parked };
    if i < before.tables@.len() {
        &&& table_ids(after.tables@) == table_ids(before.tables@)
        &&& after.tables@[i].enabled == enabled
        &&& forall|k: int| 0 <= k < before.tables@.len() && k != i ==> (#[trigger] after.tables@[k]).enabled == before.tables@[k].enabled
        &&& after.config.rules() == with_rule(before.config.rules(), before.tables@[i].signature@, d)
        &&& resolved(after.config.rules(), before.tables@[i].signature@) == Some(d)
        &&& after.save_requested
        &&& !after.dirty
        &&& exists|prepared: Controller| #[trigger] arrangement_done(prepared, after)
            && table_ids(prepared.tables@) == table_ids(before.tables@)
            && prepared.tables@[i].enabled == enabled
            && (forall|k: int| 0 <= k < before.tables@.len() && k != i ==> (#[trigger] prepared.tables@[k]).enabled == before.tables@[k].enabled)
            && prepared.config == after.config
            && prepared.candidates == before.candidates
            && prepared.monitors == before.monitors
            && prepared.calls == before.calls
    } else {
        after == before
    }
}

/// `c` once `call` has been put to the desktop.
pub open spec fn with_call(c: Controller, call: DesktopCall) -> Controller {
    Controller { calls: Ghost(c.calls@.push(call)), ..c }
}

/// What toggling the window in front does when the desktop answered
/// `window`: the table of that window flips between arranged and parked as
/// `enabled_applied` says; with no window in front, or none with a table,
/// only the question is recorded.
pub open spec fn focused_toggled(before: Controller, after: Controller, window: Option<WindowId>) -> bool {
    let asked = with_call(before, DesktopCall::Foreground { window });
    match window {
        Some(id) => enabled_applied(
            asked,
            after,
            id,
            !asked.tables@[first_where(asked.tables@, table_has_id(id))].enabled,
        ),
        None => after == asked,
    }
}

/// What asking the desktop to bring window `id` to the front does when it
/// answered `outcome`: the request is recorded, a refusal is reported on the
/// status line and nothing else changes.
pub open spec fn locate_answered(before: Controller, after: Controller, id: WindowId, outcome: Result<(), BackendError>) -> bool {
    &&& after.calls@ == before.calls@.push(DesktopCall::Locate { id, outcome })
    &&& after.status_message@ == match outcome {
        Ok(_) => before.status_message@,
        Err(error) => "Could not locate window: "@ + crate::model::backend_error_text(error),
    }
    &&& after == (Controller { status_message: after.status_message, calls: after.calls, ..before })
}

/// What choosing `mode` for window `id` does: the rules become
/// `rules_after_mode`, a chosen Arrange or Park applies to its table at
/// once, and the desktop is rearranged. Nothing changes for a
/// window that is not listed.
pub open spec fn mode_applied(before: Controller, after: Controller, id: WindowId, mode: WindowMode) -> bool {
    let k = first_where(before.candidates@, crate::tracking::candidate_has_id(id));
    if k < before.candidates@.len() {
        &&& after.config.rules() == rules_after_mode(
            before.config.rules(),
            before.candidates@[k].signature@,
            before.candidates@[k].poker_client,
            mode,
        )
        &&& after.save_requested
        &&& !after.dirty
        &&& (mode is Arranged || mode is Parked) ==> forall|j: int|
            0 <= j < after.tables@.len() && (#[trigger] after.tables@[j]).id == id
                ==> after.tables@[j].enabled == (mode is Arranged)
        &&& exists|chosen: Controller, taken: Controller, prepared: Controller|
            #![trigger reconciled(chosen, taken), arrangement_done(prepared, after)]
            mode_chosen(before, chosen, id, mode) && reconciled(chosen, taken)
                && prepared.tables@ == tables_with_mode(taken.tables@, id, mode)
                && prepared.config == taken.config && prepared.candidates == taken.candidates
                && prepared.window_statuses == taken.window_statuses && prepared.monitors == taken.monitors
                && prepared.calls == taken.calls && arrangement_done(prepared, after)
    } else {
        after == before
    }
}

/// `chosen` is `before` once `mode` was saved for the listed window `id`: the
/// rules become `rules_after_mode`; choosing Ignore also forgets the window's
/// outcome and releases its slot; a save is requested and nothing else changes.
pub open spec fn mode_chosen(before: Controller, chosen: Controller, id: WindowId, mode: WindowMode) -> bool {
    let k = first_where(before.candidates@, crate::tracking::candidate_has_id(id));
    let i = first_where(before.tables@, table_has_id(id));
    &&& chosen.config.rules() == rules_after_mode(
        before.config.rules(),
        before.candidates@[k].signature@,
        before.candidates@[k].poker_client,
        mode,
    )
    &&& chosen.config.version == before.config.version
    &&& chosen.config.selected_monitor == before.config.selected_monitor
    &&& chosen.config.auto_arrange == before.config.auto_arrange
    &&& chosen.config.preserve_table_slots == before.config.preserve_table_slots
    &&& chosen.config.default_application_mode == before.config.default_application_mode
    &&& chosen.config.table_order == before.config.table_order
    &&& chosen.config.poker_placeholders == before.config.poker_placeholders
    &&& chosen.config.hotkeys == before.config.hotkeys
    &&& chosen.config.table_aspect_ratio == before.config.table_aspect_ratio
    &&& columns_view(chosen.config.poker_columns@) == if mode is Ignored && i < before.tables@.len() {
        cleared(columns_view(before.config.poker_columns@), before.tables@[i].signature@)
    } else {
        columns_view(before.config.poker_columns@)
    }
    &&& mode is Ignored ==> status_of(chosen.window_statuses@, id) is None && forall|other: WindowId|
        other != id ==> status_of(chosen.window_statuses@, other) == status_of(before.window_statuses@, other)
    &&& !(mode is Ignored) ==> chosen.window_statuses == before.window_statuses
    &&& chosen.tables == before.tables
    &&& chosen.candidates == before.candidates
    &&& chosen.monitors == before.monitors
    &&& chosen.calls == before.calls
    &&& chosen.save_requested
}

/// The tables once the first table of window `id` took a chosen Arrange
/// (enabled and ready) or Park (disabled); other modes change nothing.
pub open spec fn tables_with_mode(tables: Seq<ManagedTable>, id: WindowId, mode: WindowMode) -> Seq<ManagedTable> {
    let i = first_where(tables, table_has_id(id));
    if i < tables.len() && mode is Arranged {
        tables.update(i, ManagedTable { enabled: true, status: TableStatus::Ready, ..tables[i] })
    } else if i < tables.len() && mode is Parked {
        tables.update(i, ManagedTable { enabled: false, ..tables[i] })
    } else {
        tables
    }
}

/// What choosing `mode` for the ClubGG lobbies does: with Park, Top right or
/// Ignore and at least one lobby listed, every lobby's signature resolves to
/// that choice and the desktop is rearranged; otherwise nothing changes.
pub open spec fn lobbies_mode_applied(before: Controller, after: Controller, mode: WindowMode) -> bool {
    if mode is Arranged || mode is FreeSpace || lobby_ids(before.candidates@).len() == 0 {
        after == before
    } else {
        &&& forall|k: int|
            0 <= k < before.candidates@.len() && (#[trigger] before.candidates@[k]).is_clubgg_lobby
                ==> resolved(after.config.rules(), before.candidates@[k].signature@)
                == Some(mode_disposition_spec(mode))
        &&& after.save_requested
        &&& !after.dirty
        &&& exists|chosen: Controller, taken: Controller|
            #![trigger reconciled(chosen, taken), arrangement_done(taken, after)]
            chosen.config.rules() == lobby_rules(before.config.rules(), before.candidates@, mode_disposition_spec(mode))
                && crate::config::same_but_rules(chosen.config, before.config)
                && chosen.tables == before.tables && chosen.candidates == before.candidates
                && chosen.window_statuses == before.window_statuses && chosen.monitors == before.monitors
                && chosen.calls == before.calls && chosen.save_requested
                && reconciled(chosen, taken) && arrangement_done(taken, after)
    }
}

/// The rules after `disposition` was saved for every listed ClubGG lobby, in turn.
pub open spec fn lobby_rules(
    rules: Seq<crate::config::RuleView>,
    candidates: Seq<crate::model::WindowCandidate>,
    disposition: CandidateDisposition,
) -> Seq<crate::config::RuleView>
    decreases candidates.len(),
{
    if candidates.len() == 0 {
        rules
    } else if candidates.last().is_clubgg_lobby {
        with_rule(lobby_rules(rules, candidates.drop_last(), disposition), candidates.last().signature@, disposition)
    } else {
        lobby_rules(rules, candidates.drop_last(), disposition)
    }
}

impl Controller {
    /// Enables or disables the table of window `id`, saves the choice as
    /// Arrange or Park for its signature and rearranges. Nothing happens when
    /// the window has no table.
    pub fn set_enabled<B: WindowBackend>(&mut self, backend: &B, id: WindowId, enabled: bool)
        requires
            old(self).wf(),
        ensures
            final(self).wf(),
            enabled_applied(*old(self), *final(self), id, enabled),
    {
        let i = table_index(&self.tables, id);
        proof {
            lemma_first_where_bounds(self.tables@, table_has_id(id));
        }
        if i >= self.tables.len() {
            return;
        }
        let ghost start = *self;
        let mut table = self.tables[i].clone();
        table.enabled = enabled;
        if enabled {
            table.status = TableStatus::Ready;
        }
        self.tables.set(i, table);
        assert(table_ids(self.tables@) =~= table_ids(start.tables@));
        let disposition = if enabled {
            CandidateDisposition::Table
        } else {
            CandidateDisposition::Parked
        };
        let signature = self.tables[i].signature.clone();
        self.config.set_disposition(signature, disposition);
        self.save_requested = true;
        let ghost before_arrange = *self;
        self.arrange(backend);
        assert(arrangement_done(before_arrange, *self));
        proof {
            crate::config::law_saved_choice_is_read_back(start.config.rules(), start.tables@[i as int].signature@, disposition);
            assert forall|k: int| 0 <= k < start.tables@.len() implies table_ids(self.tables@)[k] == table_ids(start.tables@)[k] && (#[trigger] self.tables@[k]).enabled == before_arrange.tables@[k].enabled by {
                assert(crate::arrangement::same_table_identity(before_arrange.tables@[k], self.tables@[k]));
            }
            assert(table_ids(self.tables@) =~= table_ids(start.tables@));
        }
    }

    /// Saves `mode` for window `id` (see `rules_after_mode`); choosing Ignore
    /// also forgets its outcome and releases its slot. Then the desktop is
    /// taken in again, a chosen Arrange or Park applies to its table at once,
    /// and the windows are rearranged. Nothing happens for an unknown window.
    pub fn set_window_mode<B: WindowBackend>(&mut self, backend: &B, id: WindowId, mode: WindowMode)
        requires
            old(self).wf(),
        ensures
            final(self).wf(),
            mode_applied(*old(self), *final(self), id, mode),
    {
        let k = candidate_index(&self.candidates, id);
        proof {
            lemma_first_where_bounds(self.candidates@, crate::tracking::candidate_has_id(id));
        }
        if k >= self.candidates.len() {
            return;
        }
        let signature = self.candidates[k].signature.clone();
        let client = self.candidates[k].poker_client;
        let disposition = mode_disposition(mode);
        match client {
            Some(PokerClientKind::ClubGg) => self.config.set_disposition(signature, disposition),
            _ => self.config.set_application_disposition(signature, disposition),
        }
        let ignored = match mode {
            WindowMode::Ignored => true,
            _ => false,
        };
        if ignored {
            crate::tracking::forget_status(&mut self.window_statuses, id);
            self.release_slot_for(id);
        }
        self.save_requested = true;
        let ghost chosen = *self;
        let _ = self.reconcile(backend);
        let ghost taken = *self;
        let i = table_index(&self.tables, id);
        proof {
            lemma_first_where_bounds(self.tables@, table_has_id(id));
        }
        if i < self.tables.len() {
            let ghost before = self.tables@;
            match mode {
                WindowMode::Arranged => {
                    let mut table = self.tables[i].clone();
                    table.enabled = true;
                    table.status = TableStatus::Ready;
                    self.tables.set(i, table);
                },
                WindowMode::Parked => {
                    let mut table = self.tables[i].clone();
                    table.enabled = false;
                    self.tables.set(i, table);
                },
                _ => {},
            }
            assert(table_ids(self.tables@) =~= table_ids(before));
            proof {
                assert forall|j: int| 0 <= j < self.tables@.len() && (#[trigger] self.tables@[j]).id == id
                    implies j == i by {
                    if j != i {
                        assert(table_ids(self.tables@)[j] == table_ids(self.tables@)[i as int]);
                    }
                }
            }
        }
        let ghost before_arrange = *self;
        assert(before_arrange.tables@ =~= tables_with_mode(taken.tables@, id, mode));
        self.arrange(backend);
        assert(arrangement_done(before_arrange, *self));
        proof {
            assert(reconciled(chosen, taken));
            assert(mode_chosen(*old(self), chosen, id, mode));
            assert forall|j: int| 0 <= j < self.tables@.len() && (#[trigger] self.tables@[j]).id == id
                implies before_arrange.tables@[j].id == id && self.tables@[j].enabled == before_arrange.tables@[j].enabled by {
                assert(crate::arrangement::same_table_identity(before_arrange.tables@[j], self.tables@[j]));
            }
        }
    }

    /// Saves `mode` (Park, Top right or Ignore) for every listed ClubGG
    /// lobby, takes the desktop in again and rearranges. Other modes, and a
    /// desktop without lobbies, change nothing.
    pub fn set_clubgg_lobbies_mode<B: WindowBackend>(&mut self, backend: &B, mode: WindowMode)
        requires
            old(self).wf(),
        ensures
            final(self).wf(),
            lobbies_mode_applied(*old(self), *final(self), mode),
    {
        let disposition = match mode {
            WindowMode::Parked => CandidateDisposition::Parked,
            WindowMode::TopRight => CandidateDisposition::TopRight,
            WindowMode::Ignored => CandidateDisposition::Ignored,
            _ => {
                return;
            },
        };
        let ghost start = *self;
        let mut any = false;
        let mut index: usize = 0;
        while index < self.candidates.len()
            invariant
                index <= self.candidates@.len(),
                self.candidates == start.candidates,
                self.tables == start.tables,
                self.wf(),
                disposition == mode_disposition_spec(mode),
                any == (lobby_ids(start.candidates@.subrange(0, index as int)).len() > 0),
                !any ==> *self == start,
                crate::config::same_but_rules(self.config, start.config),
                self.window_statuses == start.window_statuses,
                self.monitors == start.monitors,
                self.status_message == start.status_message,
                self.dirty == start.dirty,
                self.save_requested == start.save_requested,
                self.calls == start.calls,
                self.config.rules() == lobby_rules(start.config.rules(), start.candidates@.subrange(0, index as int), disposition),
                forall|j: int|
                    0 <= j < index && (#[trigger] start.candidates@[j]).is_clubgg_lobby ==> last_exact(
                        self.config.rules(),
                        start.candidates@[j].signature@,
                    ) == Some(disposition),
            decreases self.candidates@.len() - index,
        {
            assert(start.candidates@.subrange(0, index + 1).drop_last() =~= start.candidates@.subrange(0, index as int));
            if self.candidates[index].is_clubgg_lobby {
                let signature = self.candidates[index].signature.clone();
                let ghost before = self.config.rules();
                self.config.set_disposition(signature, disposition);
                any = true;
                proof {
                    crate::config::law_saved_choice_is_read_back(before, signature@, disposition);
                    assert forall|j: int|
                        0 <= j < index + 1 && (#[trigger] start.candidates@[j]).is_clubgg_lobby implies last_exact(
                            self.config.rules(),
                            start.candidates@[j].signature@,
                        ) == Some(disposition) by {
                        if start.candidates@[j].signature@ != signature@ {
                            crate::config::law_saving_leaves_other_signatures(before, signature@, disposition, start.candidates@[j].signature@);
                        }
                    }
                }
            }
            index += 1;
        }
        assert(start.candidates@.subrange(0, index as int) =~= start.candidates@);
        if !any {
            return;
        }
        self.save_requested = true;
        let ghost written = self.config.rules();
        let ghost chosen = *self;
        let _ = self.reconcile(backend);
        let ghost taken = *self;
        self.arrange(backend);
        proof {
            assert(self.config.rules() == written);
            assert(reconciled(chosen, taken) && arrangement_done(taken, *self));
        }
    }

    /// The ids of the ClubGG lobbies, in the panel's order.
    pub fn clubgg_lobby_ids(&self) -> (r: Vec<WindowId>)
        ensures
            r@ == lobby_ids(self.candidates@),
    {
        let mut out: Vec<WindowId> = Vec::new();
        let mut index: usize = 0;
        while index < self.candidates.len()
            invariant
                index <= self.candidates@.len(),
                out@ == lobby_ids(self.candidates@.subrange(0, index as int)),
            decreases self.candidates@.len() - index,
        {
            assert(self.candidates@.subrange(0, index + 1).drop_last() =~= self.candidates@.subrange(0, index as int));
            if self.candidates[index].is_clubgg_lobby {
                out.push(self.candidates[index].id);
            }
            index += 1;
        }
        assert(self.candidates@.subrange(0, index as int) =~= self.candidates@);
        out
    }

    /// Records the outcome of locating window `id`: ready, or the error's
    /// text. Returns whether locating failed.
    pub fn record_lobby_located(&mut self, id: WindowId, result: &Result<(), BackendError>) -> (failed: bool)
        requires
            old(self).wf(),
        ensures
            final(self).wf(),
            failed == result is Err,
            *result is Ok ==> crate::tracking::status_of(final(self).window_statuses@, id) == Some(TableStatus::Ready),
            *result matches Err(error) ==> (crate::tracking::status_of(final(self).window_statuses@, id) matches Some(TableStatus::MoveFailed(text))
                && text@ == crate::model::backend_error_text(error)),
            forall|other: WindowId| other != id ==> crate::tracking::status_of(final(self).window_statuses@, other)
                == crate::tracking::status_of(old(self).window_statuses@, other),
            final(self).tables == old(self).tables,
            final(self).candidates == old(self).candidates,
            final(self).config == old(self).config,
            final(self).monitors == old(self).monitors,
            final(self).status_message == old(self).status_message,
            final(self).dirty == old(self).dirty,
            final(self).save_requested == old(self).save_requested,
            final(self).calls == old(self).calls,
    {
        match result {
            Ok(()) => {
                crate::tracking::record_status(&mut self.window_statuses, id, TableStatus::Ready);
                false
            },
            Err(error) => {
                crate::tracking::record_status(&mut self.window_statuses, id, TableStatus::MoveFailed(error.message()));
                true
            },
        }
    }

    /// Reports how locating `total` lobbies went with `failed` failures.
    pub fn finish_lobby_location(&mut self, total: usize, failed: usize)
        ensures
            final(self).status_message@ == crate::placement::lobby_summary_text(total as nat, failed as nat),
            final(self).tables == old(self).tables,
            final(self).candidates == old(self).candidates,
            final(self).window_statuses == old(self).window_statuses,
            final(self).config == old(self).config,
            final(self).monitors == old(self).monitors,
            final(self).dirty == old(self).dirty,
            final(self).save_requested == old(self).save_requested,
            final(self).calls == old(self).calls,
    {
        self.status_message = crate::placement::lobby_summary(total, failed);
    }
}

/// `c` with `mode` as the default for applications and a save requested.
pub open spec fn with_default_mode(c: Controller, mode: ApplicationDefault) -> Controller {
    Controller {
        config: AppConfig { default_application_mode: mode, ..c.config },
        save_requested: true,
        ..c
    }
}

/// `c` with Auto arrangement set to `enabled` and a save requested.
pub open spec fn with_auto_arrange(c: Controller, enabled: bool) -> Controller {
    Controller {
        config: AppConfig { auto_arrange: enabled, ..c.config },
        save_requested: true,
        ..c
    }
}

impl Controller {
    /// Carries out one command and tells the application what follows: the
    /// settings a command sets hold afterwards and are to be saved; a desktop
    /// event, the lobby search and shutdown are left to the application.
    pub fn handle<B: WindowBackend>(&mut self, backend: &B, command: ControllerCommand) -> (action: ControllerAction)
        requires
            old(self).wf(),
        ensures
            final(self).wf(),
            match command {
                ControllerCommand::ForceArrange => action == ControllerAction::DiscoveryDone && !final(self).dirty
                    && exists|taken: Controller| reconciled(*old(self), taken) && #[trigger] arrangement_done(taken, *final(self)),
                ControllerCommand::NativeWindowEvent => action == ControllerAction::ScheduleDiscovery && *final(self) == *old(self),
                ControllerCommand::SetAutoArrange(enabled) => final(self).config.auto_arrange == enabled
                    && final(self).save_requested && (enabled ==> !final(self).dirty)
                    && (!enabled ==> *final(self) == with_auto_arrange(*old(self), enabled))
                    && (enabled ==> exists|taken: Controller| reconciled(with_auto_arrange(*old(self), enabled), taken)
                        && #[trigger] arrangement_done(taken, *final(self)))
                    && action == if enabled {
                    ControllerAction::DiscoveryDone
                } else {
                    ControllerAction::Publish
                },
                ControllerCommand::SetPreserveTableSlots(enabled) => final(self).config.preserve_table_slots == enabled
                    && columns_view(final(self).config.poker_columns@) == crate::controller::synced(
                        columns_view(old(self).config.poker_columns@),
                        old(self).tables@,
                        enabled,
                        old(self).config.poker_placeholders@.len() as int,
                    )
                    && final(self).config.poker_placeholders@ == crate::controller::synced_marks(
                        columns_view(old(self).config.poker_columns@),
                        old(self).tables@,
                        enabled,
                        old(self).config.poker_placeholders@.len() as int,
                    )
                    && final(self).save_requested && !final(self).dirty && action == ControllerAction::Publish
                    && crate::controller::same_but_slots(
                        final(self).config,
                        AppConfig { preserve_table_slots: enabled, ..old(self).config },
                    )
                    && exists|prepared: Controller| #[trigger] arrangement_done(prepared, *final(self))
                        && prepared.config == final(self).config && prepared.candidates == old(self).candidates
                        && prepared.monitors == old(self).monitors && prepared.calls == old(self).calls
                        && prepared.window_statuses == old(self).window_statuses
                        && sig_views(final(self).config.table_order@) == table_sigs(prepared.tables@)
                        && stably_reordered(
                            old(self).tables@,
                            prepared.tables@,
                            order_keys(old(self).tables@, all_sigs(columns_view(final(self).config.poker_columns@))),
                        ),
                ControllerCommand::SetDefaultApplicationMode(mode) => final(self).config.default_application_mode == mode
                    && final(self).save_requested && !final(self).dirty && action == ControllerAction::DiscoveryDone
                    && exists|taken: Controller| reconciled(with_default_mode(*old(self), mode), taken)
                        && #[trigger] arrangement_done(taken, *final(self)),
                ControllerCommand::SelectMonitor(id) => final(self).config == (AppConfig { selected_monitor: Some(id), ..old(self).config })
                    && final(self).save_requested && !final(self).dirty && action == ControllerAction::Publish
                    && exists|prepared: Controller| #[trigger] arrangement_done(prepared, *final(self))
                        && prepared.config == final(self).config && prepared.tables == old(self).tables
                        && prepared.candidates == old(self).candidates && prepared.monitors == old(self).monitors
                        && prepared.calls == old(self).calls,
                ControllerCommand::SetHotkeys(hotkeys) => *final(self) == (Controller {
                    config: AppConfig { hotkeys, ..old(self).config },
                    save_requested: true,
                    ..*old(self)
                }) && action == ControllerAction::Publish,
                ControllerCommand::SetEnabled { id, enabled } => enabled_applied(*old(self), *final(self), id, enabled)
                    && action == ControllerAction::Publish,
                ControllerCommand::ToggleSlot(slot) => action == ControllerAction::Publish && if slot < old(self).tables@.len() {
                    enabled_applied(*old(self), *final(self), old(self).tables@[slot as int].id, !old(self).tables@[slot as int].enabled)
                } else {
                    *final(self) == *old(self)
                },
                ControllerCommand::ToggleFocused => action == ControllerAction::Publish
                    && exists|window: Option<WindowId>| #[trigger] focused_toggled(*old(self), *final(self), window),
                ControllerCommand::MoveToSlot { source, destination } => action == ControllerAction::Publish && match moved_columns(
                    columns_view(old(self).config.poker_columns@),
                    old(self).tables@,
                    source,
                    destination,
                ) {
                    Some(moved) => columns_view(final(self).config.poker_columns@) == moved && final(self).save_requested && !final(self).dirty
                        && crate::controller::same_but_slots(final(self).config, old(self).config)
                        && final(self).config.poker_placeholders == old(self).config.poker_placeholders
                        && exists|prepared: Controller| #[trigger] arrangement_done(prepared, *final(self))
                            && prepared.config == final(self).config && prepared.candidates == old(self).candidates
                            && prepared.monitors == old(self).monitors && prepared.calls == old(self).calls
                        && prepared.window_statuses == old(self).window_statuses
                        && sig_views(final(self).config.table_order@) == table_sigs(prepared.tables@)
                            && stably_reordered(
                                old(self).tables@,
                                prepared.tables@,
                                order_keys(old(self).tables@, all_sigs(columns_view(final(self).config.poker_columns@))),
                            ),
                    None => *final(self) == *old(self),
                },
                ControllerCommand::SetWindowMode { id, mode } => mode_applied(*old(self), *final(self), id, mode)
                    && action == ControllerAction::Publish,
                ControllerCommand::SetClubGgLobbiesMode(mode) => lobbies_mode_applied(*old(self), *final(self), mode)
                    && action == ControllerAction::Publish,
                ControllerCommand::Locate(id) => action == ControllerAction::Publish
                    && exists|outcome: Result<(), BackendError>| #[trigger] locate_answered(*old(self), *final(self), id, outcome),
                ControllerCommand::LocateClubGgLobbies => action == ControllerAction::LocateLobbies && *final(self) == *old(self),
                ControllerCommand::Shutdown => action == ControllerAction::Stop && *final(self) == *old(self),
            },
    {
        match command {
            ControllerCommand::ForceArrange => {
                let _ = self.reconcile(backend);
                let ghost taken = *self;
                self.arrange(backend);
                assert(arrangement_done(taken, *self));
                ControllerAction::DiscoveryDone
            },
            ControllerCommand::NativeWindowEvent => ControllerAction::ScheduleDiscovery,
            ControllerCommand::SetAutoArrange(enabled) => {
                self.config.auto_arrange = enabled;
                self.save_requested = true;
                if enabled {
                    assert(*self == with_auto_arrange(*old(self), enabled));
                    let _ = self.reconcile(backend);
                    let ghost taken = *self;
                    self.arrange(backend);
                    assert(arrangement_done(taken, *self));
                    ControllerAction::DiscoveryDone
                } else {
                    ControllerAction::Publish
                }
            },
            ControllerCommand::SetPreserveTableSlots(enabled) => {
                self.config.preserve_table_slots = enabled;
                let _ = self.sync_poker_columns();
                self.save_requested = true;
                let ghost prepared = *self;
                self.arrange(backend);
                assert(arrangement_done(prepared, *self));
                ControllerAction::Publish
            },
            ControllerCommand::SetDefaultApplicationMode(mode) => {
                self.config.default_application_mode = mode;
                self.save_requested = true;
                assert(*self == with_default_mode(*old(self), mode));
                let _ = self.reconcile(backend);
                let ghost taken = *self;
                self.arrange(backend);
                assert(arrangement_done(taken, *self));
                ControllerAction::DiscoveryDone
            },
            ControllerCommand::SetEnabled { id, enabled } => {
                self.set_enabled(backend, id, enabled);
                ControllerAction::Publish
            },
            ControllerCommand::ToggleFocused => {
                let window = ask_foreground(backend, &mut self.calls);
                assert(*self == with_call(*old(self), DesktopCall::Foreground { window }));
                if let Some(id) = window {
                    let i = table_index(&self.tables, id);
                    proof {
                        lemma_first_where_bounds(self.tables@, table_has_id(id));
                    }
                    if i < self.tables.len() {
                        let enabled = !self.tables[i].enabled;
                        self.set_enabled(backend, id, enabled);
                    }
                }
                assert(focused_toggled(*old(self), *self, window));
                ControllerAction::Publish
            },
            ControllerCommand::ToggleSlot(slot) => {
                if slot < self.tables.len() {
                    let id = self.tables[slot].id;
                    let enabled = !self.tables[slot].enabled;
                    self.set_enabled(backend, id, enabled);
                }
                ControllerAction::Publish
            },
            ControllerCommand::MoveToSlot { source, destination } => {
                if self.move_to_slot(source, destination) {
                    self.persist_table_order();
                    let ghost prepared = *self;
                    self.arrange(backend);
                    assert(arrangement_done(prepared, *self));
                }
                ControllerAction::Publish
            },
            ControllerCommand::SelectMonitor(id) => {
                self.config.selected_monitor = Some(id);
                self.save_requested = true;
                let ghost prepared = *self;
                self.arrange(backend);
                assert(arrangement_done(prepared, *self));
                ControllerAction::Publish
            },
            ControllerCommand::SetWindowMode { id, mode } => {
                self.set_window_mode(backend, id, mode);
                ControllerAction::Publish
            },
            ControllerCommand::SetClubGgLobbiesMode(mode) => {
                self.set_clubgg_lobbies_mode(backend, mode);
                ControllerAction::Publish
            },
            ControllerCommand::LocateClubGgLobbies => ControllerAction::LocateLobbies,
            ControllerCommand::Locate(id) => {
                let outcome = request_locate(backend, &mut self.calls, id);
                match &outcome {
                    Ok(()) => {},
                    Err(error) => {
                        self.status_message = crate::placement::failure_message("Could not locate window: ", error);
                    },
                }
                assert(locate_answered(*old(self), *self, id, outcome));
                ControllerAction::Publish
            },
            ControllerCommand::SetHotkeys(hotkeys) => {
                self.config.hotkeys = hotkeys;
                self.save_requested = true;
                ControllerAction::Publish
            },
            ControllerCommand::Shutdown => ControllerAction::Stop,
        }
    }
}

} // verus!
