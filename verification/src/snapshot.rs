//! What the panel is shown: every discovered window with its mode, slot and
//! outcome, the poker slots of the mirror, and the settings in force.
use crate::config::{ApplicationDefault, HotkeySettings};
use crate::controller::{
    Controller, candidate_disposition, occupied_count, opt_string_view, selected_index, specs_for,
};
use crate::layout::{
    DEFAULT_RATIO_SCALED, PokerColumnLayout, PokerColumnSpec, column_layout, layout_height,
    lays_out,
};
use crate::model::{
    AspectRatio, CandidateDisposition, CandidateView, ColumnView, ManagedTable, MonitorInfo,
    PokerColumnAssignment, PokerSlotId, PokerSlotView, Rect, SignatureView, TableStatus,
    WindowCandidate, WindowId, WindowMode, columns_view,
};
use crate::slots::{active_columns, compact, enabled_sigs, entries_of};
use crate::tracking::{
    candidate_has_id, first_where, lemma_first_where_bounds, signature_table_index, status_of,
    table_has_id, table_has_signature, table_index,
};
use vstd::prelude::*;

verus! {

/// Everything the panel shows, as of one moment.
#[derive(Debug)]
pub struct UiSnapshot {
    pub tables: Vec<ManagedTable>,
    pub candidates: Vec<CandidateView>,
    pub poker_slots: Vec<PokerSlotView>,
    pub poker_work_area: Option<Rect>,
    pub monitors: Vec<MonitorInfo>,
    pub selected_monitor: Option<String>,
    pub auto_arrange: bool,
    pub preserve_table_slots: bool,
    pub preserve_table_slots_requested: bool,
    pub preserve_table_slots_auto_suppressed: bool,
    pub default_application_mode: ApplicationDefault,
    pub aspect_ratio: AspectRatio,
    pub status_message: String,
    pub hotkeys: HotkeySettings,
}

// ----- the listed windows -----

/// How the panel shows a discovered window: a managed table shows its own
/// rectangle, Arrange or Park, its place in the table list and its status;
/// any other window shows its saved placement (Ignore when it has none) and
/// its recorded outcome.
pub open spec fn candidate_view_of(
    candidate: WindowCandidate,
    tables: Seq<ManagedTable>,
    statuses: Seq<(WindowId, TableStatus)>,
    config: crate::config::AppConfig,
) -> CandidateView {
    let i = first_where(tables, table_has_id(candidate.id));
    let managed = i < tables.len();
    CandidateView {
        id: candidate.id,
        label: candidate.label,
        process_name: candidate.process_name,
        class_name: candidate.class_name,
        poker_client: candidate.poker_client,
        is_clubgg_lobby: candidate.is_clubgg_lobby,
        current_rect: if managed {
            tables[i].current_rect
        } else {
            candidate.rect
        },
        likely_table: candidate.likely_table,
        mode: if managed {
            if tables[i].enabled {
                WindowMode::Arranged
            } else {
                WindowMode::Parked
            }
        } else {
            match candidate_disposition(config, candidate) {
                Some(CandidateDisposition::Parked) => WindowMode::Parked,
                Some(CandidateDisposition::TopRight) => WindowMode::TopRight,
                Some(CandidateDisposition::FreeSpace) => WindowMode::FreeSpace,
                _ => WindowMode::Ignored,
            }
        },
        slot: if managed {
            Some((i + 1) as usize)
        } else {
            None
        },
        status: if managed {
            Some(tables[i].status)
        } else {
            status_of(statuses, candidate.id)
        },
    }
}

fn status_lookup(statuses: &Vec<(WindowId, TableStatus)>, id: WindowId) -> (r: Option<TableStatus>)
    ensures
        r == status_of(statuses@, id),
{
    let mut index = statuses.len();
    assert(statuses@.subrange(0, index as int) =~= statuses@);
    while index > 0
        invariant
            index <= statuses.len(),
            status_of(statuses@, id) == status_of(statuses@.subrange(0, index as int), id),
        decreases index,
    {
        assert(statuses@.subrange(0, index - 1) =~= statuses@.subrange(0, index as int).drop_last());
        if statuses[index - 1].0 == id {
            return Some(statuses[index - 1].1.clone());
        }
        index -= 1;
    }
    None
}

impl Controller {
    /// How the panel shows `candidate` (see `candidate_view_of`).
    pub fn candidate_view(&self, candidate: &WindowCandidate) -> (r: CandidateView)
        ensures
            r == candidate_view_of(*candidate, self.tables@, self.window_statuses@, self.config),
    {
        let i = table_index(&self.tables, candidate.id);
        proof {
            lemma_first_where_bounds(self.tables@, table_has_id(candidate.id));
        }
        let managed = i < self.tables.len();
        let mode = if managed {
            if self.tables[i].enabled {
                WindowMode::Arranged
            } else {
                WindowMode::Parked
            }
        } else {
            match self.disposition_for_candidate(candidate) {
                Some(CandidateDisposition::Parked) => WindowMode::Parked,
                Some(CandidateDisposition::TopRight) => WindowMode::TopRight,
                Some(CandidateDisposition::FreeSpace) => WindowMode::FreeSpace,
                _ => WindowMode::Ignored,
            }
        };
        CandidateView {
            id: candidate.id,
            label: candidate.label.clone(),
            process_name: candidate.process_name.clone(),
            class_name: candidate.class_name.clone(),
            poker_client: candidate.poker_client,
            is_clubgg_lobby: candidate.is_clubgg_lobby,
            current_rect: if managed {
                self.tables[i].current_rect
            } else {
                candidate.rect
            },
            likely_table: candidate.likely_table,
            mode,
            slot: if managed {
                Some(i + 1)
            } else {
                None
            },
            status: if managed {
                Some(self.tables[i].status.clone())
            } else {
                status_lookup(&self.window_statuses, candidate.id)
            },
        }
    }
}

// ----- the poker slots of the mirror -----

/// The column layouts of `specs` in `work`: none when there is nothing to
/// lay out, else one per column at the shared height.
pub open spec fn layout_columns(work: Rect, specs: Seq<PokerColumnSpec>) -> Seq<PokerColumnLayout> {
    if specs.len() == 0 || work.width <= 0 || work.height <= 0 {
        Seq::empty()
    } else {
        Seq::new(specs.len(), |i: int| column_layout(work, specs, layout_height(work, specs), i))
    }
}

/// A slot of the mirror: its occupant is the first table with the slot's
/// signature, shown as parked when that table is disabled.
pub open spec fn cell_view(
    tables: Seq<ManagedTable>,
    column: int,
    row: Option<u8>,
    rect: Rect,
    signature: Option<SignatureView>,
) -> PokerSlotView {
    let j = match signature {
        Some(s) => first_where(tables, table_has_signature(s)),
        None => tables.len() as int,
    };
    PokerSlotView {
        id: PokerSlotId { column: column as usize, row },
        rect,
        occupant: if j < tables.len() {
            Some(tables[j].id)
        } else {
            None
        },
        parked: j < tables.len() && !tables[j].enabled,
    }
}

/// The slots of one column: the laid-out cells of a ClubGG column, the
/// single slot of a full-height column, both cells of an empty column.
pub open spec fn column_slot_views(
    column: ColumnView,
    layout: PokerColumnLayout,
    index: int,
    tables: Seq<ManagedTable>,
) -> Seq<PokerSlotView> {
    match column {
        ColumnView::Club { top, bottom } => {
            let first: Seq<PokerSlotView> = match layout.top {
                Some(r) => seq![cell_view(tables, index, Some(0u8), r, top)],
                None => Seq::empty(),
            };
            let second: Seq<PokerSlotView> = match layout.bottom {
                Some(r) => seq![cell_view(tables, index, Some(1u8), r, bottom)],
                None => Seq::empty(),
            };
            first + second
        },
        ColumnView::Ld { table } => seq![cell_view(tables, index, None, layout.bounds, table)],
        ColumnView::Empty => match (layout.top, layout.bottom) {
            (Some(t), Some(b)) => seq![
                cell_view(tables, index, Some(0u8), t, None),
                cell_view(tables, index, Some(1u8), b, None),
            ],
            _ => Seq::empty(),
        },
    }
}

/// The slots of every column that has a layout, column by column.
pub open spec fn slot_views_of(
    columns: Seq<ColumnView>,
    layouts: Seq<PokerColumnLayout>,
    tables: Seq<ManagedTable>,
) -> Seq<PokerSlotView>
    decreases columns.len(),
{
    if columns.len() == 0 {
        Seq::empty()
    } else {
        let n = columns.len() - 1;
        slot_views_of(columns.drop_last(), layouts, tables) + if n < layouts.len() {
            column_slot_views(columns.last(), layouts[n], n, tables)
        } else {
            Seq::empty()
        }
    }
}

/// The columns the workspace is laid out with (as `runtime_columns` gives them).
pub open spec fn runtime_columns_of(c: Controller) -> Seq<ColumnView> {
    let columns = columns_view(c.config.poker_columns@);
    let enabled = enabled_sigs(c.tables@);
    if c.config.preserve_table_slots && occupied_count(columns, enabled) < 2 {
        columns
    } else if c.config.preserve_table_slots {
        active_columns(columns, enabled)
    } else {
        compact(entries_of(c.tables@, true))
    }
}

/// `views` and `area` are the mirror's slots and work area for `c`: the
/// slots of the runtime columns laid out on the selected monitor, or nothing
/// without a monitor.
pub open spec fn slots_shown(c: Controller, views: Seq<PokerSlotView>, area: Option<Rect>) -> bool {
    match selected_index(c.monitors@, opt_string_view(c.config.selected_monitor)) {
        None => views.len() == 0 && area is None,
        Some(m) => {
            let work = c.monitors@[m].work_area;
            let columns = runtime_columns_of(c);
            &&& area == Some(work)
            &&& views == slot_views_of(
                columns,
                layout_columns(work, specs_for(columns, c.tables@)),
                c.tables@,
            )
        },
    }
}

impl Controller {
    fn cell(&self, column: usize, row: Option<u8>, rect: Rect, signature: &Option<crate::model::WindowSignature>) -> (r: PokerSlotView)
        ensures
            r == cell_view(self.tables@, column as int, row, rect, crate::model::opt_sig_view(*signature)),
    {
        let j = match signature {
            Some(s) => {
                let j = signature_table_index(&self.tables, s);
                proof {
                    lemma_first_where_bounds(self.tables@, table_has_signature(s@));
                }
                j
            },
            None => self.tables.len(),
        };
        if j < self.tables.len() {
            PokerSlotView {
                id: PokerSlotId { column, row },
                rect,
                occupant: Some(self.tables[j].id),
                parked: !self.tables[j].enabled,
            }
        } else {
            PokerSlotView { id: PokerSlotId { column, row }, rect, occupant: None, parked: false }
        }
    }

    /// The poker slots of the mirror and the work area they lie in; nothing
    /// without a monitor.
    pub fn poker_slot_views(&self) -> (r: (Vec<PokerSlotView>, Option<Rect>))
        ensures
            slots_shown(*self, r.0@, r.1),
    {
        let m = match self.selected_monitor() {
            Some(m) => m,
            None => {
                return (Vec::new(), None);
            },
        };
        let work = self.monitors[m].work_area;
        let columns = self.runtime_columns();
        let layout = self.mixed_layout_for(work, &columns);
        let ghost view = columns_view(columns@);
        let ghost layouts = layout.columns@;
        proof {
            assert(layouts =~= layout_columns(work, specs_for(view, self.tables@)));
        }
        let mut views: Vec<PokerSlotView> = Vec::new();
        let mut index: usize = 0;
        while index < columns.len()
            invariant
                index <= columns@.len(),
                view == columns_view(columns@),
                layouts == layout.columns@,
                views@ == slot_views_of(view.subrange(0, index as int), layouts, self.tables@),
            decreases columns@.len() - index,
        {
            assert(view.subrange(0, index + 1).drop_last() =~= view.subrange(0, index as int));
            assert(view.subrange(0, index + 1).last() == columns@[index as int]@);
            let ghost before = views@;
            if index < layout.columns.len() {
                let cell = layout.columns[index];
                match &columns[index] {
                    PokerColumnAssignment::ClubGg { top, bottom } => {
                        if let Some(r) = cell.top {
                            let v = self.cell(index, Some(0), r, top);
                            views.push(v);
                        }
                        let ghost middle = views@;
                        if let Some(r) = cell.bottom {
                            let v = self.cell(index, Some(1), r, bottom);
                            views.push(v);
                        }
                        assert(views@ =~= before + column_slot_views(columns@[index as int]@, cell, index as int, self.tables@));
                    },
                    PokerColumnAssignment::LdPlayer { table } => {
                        let v = self.cell(index, None, cell.bounds, table);
                        views.push(v);
                        assert(views@ =~= before + column_slot_views(columns@[index as int]@, cell, index as int, self.tables@));
                    },
                    PokerColumnAssignment::Empty => {
                        match (cell.top, cell.bottom) {
                            (Some(t), Some(b)) => {
                                let first = self.cell(index, Some(0), t, &None);
                                views.push(first);
                                let second = self.cell(index, Some(1), b, &None);
                                views.push(second);
                            },
                            _ => {},
                        }
                        assert(views@ =~= before + column_slot_views(columns@[index as int]@, cell, index as int, self.tables@));
                    },
                }
            } else {
                assert(views@ =~= before + Seq::<PokerSlotView>::empty());
            }
            index += 1;
        }
        assert(view.subrange(0, index as int) =~= view);
        (views, Some(work))
    }

    /// Everything the panel shows now.
    pub fn snapshot(&self) -> (r: UiSnapshot)
        ensures
            r.tables@ == self.tables@,
            r.candidates@.len() == self.candidates@.len(),
            forall|k: int|
                0 <= k < self.candidates@.len() ==> r.candidates@[k] == candidate_view_of(
                    #[trigger] self.candidates@[k],
                    self.tables@,
                    self.window_statuses@,
                    self.config,
                ),
            r.monitors@ == self.monitors@,
            opt_string_view(r.selected_monitor) == match selected_index(
                self.monitors@,
                opt_string_view(self.config.selected_monitor),
            ) {
                Some(m) => Some(self.monitors@[m].id@),
                None => None,
            },
            slots_shown(*self, r.poker_slots@, r.poker_work_area),
            r.auto_arrange == self.config.auto_arrange,
            r.preserve_table_slots == (self.config.preserve_table_slots && occupied_count(
                columns_view(self.config.poker_columns@),
                enabled_sigs(self.tables@),
            ) < 2),
            r.preserve_table_slots_requested == self.config.preserve_table_slots,
            r.preserve_table_slots_auto_suppressed == (self.config.preserve_table_slots
                && !r.preserve_table_slots),
            r.default_application_mode == self.config.default_application_mode,
            r.aspect_ratio == match self.config.table_aspect_ratio {
                Some(ratio) => ratio,
                None => AspectRatio { scaled: DEFAULT_RATIO_SCALED },
            },
            r.status_message == self.status_message,
            r.hotkeys == self.config.hotkeys,
    {
        let (poker_slots, poker_work_area) = self.poker_slot_views();
        let preserve = self.effective_preserve_table_slots();
        let mut candidates: Vec<CandidateView> = Vec::new();
        let mut index: usize = 0;
        while index < self.candidates.len()
            invariant
                index <= self.candidates@.len(),
                candidates@.len() == index,
                forall|k: int|
                    0 <= k < index ==> candidates@[k] == candidate_view_of(
                        #[trigger] self.candidates@[k],
                        self.tables@,
                        self.window_statuses@,
                        self.config,
                    ),
            decreases self.candidates@.len() - index,
        {
            let view = self.candidate_view(&self.candidates[index]);
            candidates.push(view);
            index += 1;
        }
        let mut tables: Vec<ManagedTable> = Vec::new();
        let mut t: usize = 0;
        while t < self.tables.len()
            invariant
                t <= self.tables@.len(),
                tables@ == self.tables@.subrange(0, t as int),
            decreases self.tables@.len() - t,
        {
            tables.push(self.tables[t].clone());
            t += 1;
            assert(tables@ =~= self.tables@.subrange(0, t as int));
        }
        assert(self.tables@.subrange(0, t as int) =~= self.tables@);
        let mut monitors: Vec<MonitorInfo> = Vec::new();
        let mut k: usize = 0;
        while k < self.monitors.len()
            invariant
                k <= self.monitors@.len(),
                monitors@ == self.monitors@.subrange(0, k as int),
            decreases self.monitors@.len() - k,
        {
            monitors.push(self.monitors[k].clone());
            k += 1;
            assert(monitors@ =~= self.monitors@.subrange(0, k as int));
        }
        assert(self.monitors@.subrange(0, k as int) =~= self.monitors@);
        let selected_monitor = match self.selected_monitor() {
            Some(m) => Some(self.monitors[m].id.clone()),
            None => None,
        };
        let aspect_ratio = match self.config.table_aspect_ratio {
            Some(ratio) => ratio,
            None => AspectRatio { scaled: DEFAULT_RATIO_SCALED },
        };
        UiSnapshot {
            tables,
            candidates,
            poker_slots,
            poker_work_area,
            monitors,
            selected_monitor,
            auto_arrange: self.config.auto_arrange,
            preserve_table_slots: preserve,
            preserve_table_slots_requested: self.config.preserve_table_slots,
            preserve_table_slots_auto_suppressed: self.config.preserve_table_slots && !preserve,
            default_application_mode: self.config.default_application_mode,
            aspect_ratio,
            status_message: self.status_message.clone(),
            hotkeys: self.config.hotkeys.clone(),
        }
    }
}

} // verus!
