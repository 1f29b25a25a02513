//! Which table occupies which poker slot: the column assignments and their edits.
use crate::model::{
    ColumnView, ManagedTable, PokerClientKind, PokerColumnAssignment, PokerSlotId,
    SignatureView, WindowSignature, clone_opt_signature, columns_view, opt_sig_view,
    same_signature,
};
use vstd::prelude::*;

verus! {

pub open spec fn opt_seq(signature: Option<SignatureView>) -> Seq<SignatureView> {
    match signature {
        Some(s) => seq![s],
        None => Seq::empty(),
    }
}

/// The signatures assigned to one column: top then bottom, or the full-height one.
pub open spec fn column_sigs(column: ColumnView) -> Seq<SignatureView> {
    match column {
        ColumnView::Club { top, bottom } => opt_seq(top) + opt_seq(bottom),
        ColumnView::Ld { table } => opt_seq(table),
        ColumnView::Empty => Seq::empty(),
    }
}

/// A column is owned while at least one table is assigned to it.
pub open spec fn owned(column: ColumnView) -> bool {
    column_sigs(column).len() > 0
}

/// Whether `signature` is assigned anywhere in `columns`.
pub open spec fn occurs(columns: Seq<ColumnView>, signature: SignatureView) -> bool {
    exists|i: int| 0 <= i < columns.len() && column_sigs(columns[i]).contains(signature)
}

/// All assigned signatures, column by column.
pub open spec fn all_sigs(columns: Seq<ColumnView>) -> Seq<SignatureView>
    decreases columns.len(),
{
    if columns.len() == 0 {
        Seq::empty()
    } else {
        all_sigs(columns.drop_last()) + column_sigs(columns.last())
    }
}

/// The signatures assigned to `column`, top first.
pub fn column_signatures(column: &PokerColumnAssignment) -> (r: Vec<WindowSignature>)
    ensures
        r@.map_values(|s: WindowSignature| s@) == column_sigs(column@),
{
    let mut out: Vec<WindowSignature> = Vec::new();
    match column {
        PokerColumnAssignment::ClubGg { top, bottom } => {
            if let Some(s) = top {
                out.push(s.clone());
            }
            if let Some(s) = bottom {
                out.push(s.clone());
            }
        },
        PokerColumnAssignment::LdPlayer { table } => {
            if let Some(s) = table {
                out.push(s.clone());
            }
        },
        PokerColumnAssignment::Empty => {},
    }
    assert(out@.map_values(|s: WindowSignature| s@) =~= column_sigs(column@));
    out
}

/// Whether any table is assigned to `column`.
pub fn column_is_owned(column: &PokerColumnAssignment) -> (r: bool)
    ensures
        r == owned(column@),
{
    match column {
        PokerColumnAssignment::ClubGg { top, bottom } => top.is_some() || bottom.is_some(),
        PokerColumnAssignment::LdPlayer { table } => table.is_some(),
        PokerColumnAssignment::Empty => false,
    }
}

/// Whether `signature` is assigned to `column`.
pub fn column_holds(column: &PokerColumnAssignment, signature: &WindowSignature) -> (r: bool)
    ensures
        r == column_sigs(column@).contains(signature@),
{
    let r = match column {
        PokerColumnAssignment::ClubGg { top, bottom } => {
            let in_top = match top {
                Some(s) => same_signature(s, signature),
                None => false,
            };
            let in_bottom = match bottom {
                Some(s) => same_signature(s, signature),
                None => false,
            };
            in_top || in_bottom
        },
        PokerColumnAssignment::LdPlayer { table } => match table {
            Some(s) => same_signature(s, signature),
            None => false,
        },
        PokerColumnAssignment::Empty => false,
    };
    proof {
        let sigs = column_sigs(column@);
        if r {
            match column@ {
                ColumnView::Club { top, bottom } => {
                    if top == Some(signature@) {
                        assert(sigs[0] == signature@);
                    } else {
                        assert(sigs[sigs.len() - 1] == signature@);
                    }
                },
                ColumnView::Ld { table } => {
                    assert(sigs[0] == signature@);
                },
                ColumnView::Empty => {},
            }
        } else {
            assert(!sigs.contains(signature@));
        }
    }
    r
}

/// Whether `signature` is one of `list`.
pub fn list_holds(list: &Vec<WindowSignature>, signature: &WindowSignature) -> (r: bool)
    ensures
        r == list@.map_values(|s: WindowSignature| s@).contains(signature@),
{
    let ghost view = list@.map_values(|s: WindowSignature| s@);
    let mut index: usize = 0;
    while index < list.len()
        invariant
            index <= list.len(),
            view == list@.map_values(|s: WindowSignature| s@),
            forall|k: int| 0 <= k < index ==> view[k] != signature@,
        decreases list.len() - index,
    {
        if same_signature(&list[index], signature) {
            assert(view[index as int] == signature@);
            return true;
        }
        index += 1;
    }
    false
}

// ----- compacting -----

pub struct Entry {
    pub signature: SignatureView,
    pub client: PokerClientKind,
}

pub open spec fn club_sigs(entries: Seq<Entry>) -> Seq<SignatureView>
    decreases entries.len(),
{
    if entries.len() == 0 {
        Seq::empty()
    } else {
        let rest = club_sigs(entries.drop_last());
        if entries.last().client == PokerClientKind::ClubGg {
            rest.push(entries.last().signature)
        } else {
            rest
        }
    }
}

pub open spec fn ld_sigs(entries: Seq<Entry>) -> Seq<SignatureView>
    decreases entries.len(),
{
    if entries.len() == 0 {
        Seq::empty()
    } else {
        let rest = ld_sigs(entries.drop_last());
        if entries.last().client == PokerClientKind::LdPlayer {
            rest.push(entries.last().signature)
        } else {
            rest
        }
    }
}

/// ClubGG signatures paired two per column, in order.
pub open spec fn paired(sigs: Seq<SignatureView>) -> Seq<ColumnView> {
    Seq::new(
        ((sigs.len() + 1) / 2) as nat,
        |k: int|
            ColumnView::Club {
                top: Some(sigs[2 * k]),
                bottom: if 2 * k + 1 < sigs.len() {
                    Some(sigs[2 * k + 1])
                } else {
                    None
                },
            },
    )
}

/// The compact layout: ClubGG tables two per column in order, then one
/// full-height column per LDPlayer table.
pub open spec fn compact(entries: Seq<Entry>) -> Seq<ColumnView> {
    paired(club_sigs(entries)) + ld_sigs(entries).map_values(
        |s: SignatureView| ColumnView::Ld { table: Some(s) },
    )
}

pub open spec fn entries_of(tables: Seq<ManagedTable>, only_enabled: bool) -> Seq<Entry>
    decreases tables.len(),
{
    if tables.len() == 0 {
        Seq::empty()
    } else {
        let rest = entries_of(tables.drop_last(), only_enabled);
        let last = tables.last();
        if !only_enabled || last.enabled {
            rest.push(Entry { signature: last.signature@, client: last.poker_client })
        } else {
            rest
        }
    }
}

/// Columns without holes for the given tables (all of them, or only the
/// enabled ones).
pub fn compact_columns(tables: &Vec<ManagedTable>, only_enabled: bool) -> (r: Vec<
    PokerColumnAssignment,
>)
    ensures
        columns_view(r@) == compact(entries_of(tables@, only_enabled)),
{
    let mut clubgg: Vec<WindowSignature> = Vec::new();
    let mut ldplayer: Vec<WindowSignature> = Vec::new();
    let mut index: usize = 0;
    while index < tables.len()
        invariant
            index <= tables.len(),
            clubgg@.map_values(|s: WindowSignature| s@) == club_sigs(
                entries_of(tables@.subrange(0, index as int), only_enabled),
            ),
            ldplayer@.map_values(|s: WindowSignature| s@) == ld_sigs(
                entries_of(tables@.subrange(0, index as int), only_enabled),
            ),
        decreases tables.len() - index,
    {
        let table = &tables[index];
        assert(tables@.subrange(0, index as int) =~= tables@.subrange(0, index + 1).drop_last());
        let ghost before = entries_of(tables@.subrange(0, index as int), only_enabled);
        if !only_enabled || table.enabled {
            let ghost after = before.push(
                Entry { signature: table.signature@, client: table.poker_client },
            );
            assert(after.drop_last() =~= before);
            match table.poker_client {
                PokerClientKind::ClubGg => {
                    clubgg.push(table.signature.clone());
                },
                PokerClientKind::LdPlayer => {
                    ldplayer.push(table.signature.clone());
                },
            }
            assert(clubgg@.map_values(|s: WindowSignature| s@) =~= club_sigs(after));
            assert(ldplayer@.map_values(|s: WindowSignature| s@) =~= ld_sigs(after));
        }
        index += 1;
    }
    assert(tables@.subrange(0, index as int) =~= tables@);
    let ghost clubs = clubgg@.map_values(|s: WindowSignature| s@);
    let ghost lds = ldplayer@.map_values(|s: WindowSignature| s@);
    let mut columns: Vec<PokerColumnAssignment> = Vec::new();
    let pairs = clubgg.len() / 2 + clubgg.len() % 2;
    assert(pairs == (clubs.len() + 1) / 2);
    let mut c: usize = 0;
    while c < pairs
        invariant
            c <= pairs,
            pairs == (clubs.len() + 1) / 2,
            pairs == clubgg.len() / 2 + clubgg.len() % 2,
            clubs == clubgg@.map_values(|s: WindowSignature| s@),
            columns_view(columns@) == paired(clubs).subrange(0, c as int),
        decreases pairs - c,
    {
        let top = clubgg[2 * c].clone();
        let bottom = if 2 * c + 1 < clubgg.len() {
            Some(clubgg[2 * c + 1].clone())
        } else {
            None
        };
        let ghost prev = columns@;
        let column = PokerColumnAssignment::ClubGg { top: Some(top), bottom };
        assert(column@ == paired(clubs)[c as int]);
        columns.push(column);
        assert(columns@ == prev.push(column));
        assert(columns_view(columns@) =~= columns_view(prev).push(column@));
        c += 1;
        assert(columns_view(columns@) =~= paired(clubs).subrange(0, c as int));
    }
    assert(paired(clubs).subrange(0, c as int) =~= paired(clubs));
    let ghost club_columns = columns_view(columns@);
    let mut j: usize = 0;
    while j < ldplayer.len()
        invariant
            j <= ldplayer.len(),
            lds == ldplayer@.map_values(|s: WindowSignature| s@),
            columns_view(columns@) == club_columns + lds.map_values(
                |s: SignatureView| ColumnView::Ld { table: Some(s) },
            ).subrange(0, j as int),
        decreases ldplayer.len() - j,
    {
        let ghost prev = columns@;
        let column = PokerColumnAssignment::LdPlayer { table: Some(ldplayer[j].clone()) };
        columns.push(column);
        assert(columns_view(columns@) =~= columns_view(prev).push(column@));
        j += 1;
        assert(columns_view(columns@) =~= club_columns + lds.map_values(
            |s: SignatureView| ColumnView::Ld { table: Some(s) },
        ).subrange(0, j as int));
    }
    assert(lds.map_values(|s: SignatureView| ColumnView::Ld { table: Some(s) }).subrange(
        0,
        j as int,
    ) =~= lds.map_values(|s: SignatureView| ColumnView::Ld { table: Some(s) }));
    columns
}

// ----- active columns -----

pub open spec fn enabled_sigs(tables: Seq<ManagedTable>) -> Seq<SignatureView>
    decreases tables.len(),
{
    if tables.len() == 0 {
        Seq::empty()
    } else {
        let rest = enabled_sigs(tables.drop_last());
        if tables.last().enabled {
            rest.push(tables.last().signature@)
        } else {
            rest
        }
    }
}

pub open spec fn keep_if(signature: Option<SignatureView>, allowed: Seq<SignatureView>) -> Option<
    SignatureView,
> {
    match signature {
        Some(s) => if allowed.contains(s) {
            Some(s)
        } else {
            None
        },
        None => None,
    }
}

/// A column reduced to its enabled tables; dropped when none remains.
pub open spec fn active_column(column: ColumnView, allowed: Seq<SignatureView>) -> Seq<ColumnView> {
    match column {
        ColumnView::Club { top, bottom } => {
            let t = keep_if(top, allowed);
            let b = keep_if(bottom, allowed);
            if t is Some || b is Some {
                seq![ColumnView::Club { top: t, bottom: b }]
            } else {
                Seq::empty()
            }
        },
        ColumnView::Ld { table } => match keep_if(table, allowed) {
            Some(s) => seq![ColumnView::Ld { table: Some(s) }],
            None => Seq::empty(),
        },
        ColumnView::Empty => Seq::empty(),
    }
}

pub open spec fn active_columns(columns: Seq<ColumnView>, allowed: Seq<SignatureView>) -> Seq<
    ColumnView,
>
    decreases columns.len(),
{
    if columns.len() == 0 {
        Seq::empty()
    } else {
        active_columns(columns.drop_last(), allowed) + active_column(columns.last(), allowed)
    }
}

pub fn enabled_signatures(tables: &Vec<ManagedTable>) -> (r: Vec<WindowSignature>)
    ensures
        r@.map_values(|s: WindowSignature| s@) == enabled_sigs(tables@),
{
    let mut out: Vec<WindowSignature> = Vec::new();
    let mut index: usize = 0;
    while index < tables.len()
        invariant
            index <= tables.len(),
            out@.map_values(|s: WindowSignature| s@) == enabled_sigs(
                tables@.subrange(0, index as int),
            ),
        decreases tables.len() - index,
    {
        assert(tables@.subrange(0, index as int) =~= tables@.subrange(0, index + 1).drop_last());
        if tables[index].enabled {
            out.push(tables[index].signature.clone());
        }
        index += 1;
        assert(out@.map_values(|s: WindowSignature| s@) =~= enabled_sigs(
            tables@.subrange(0, index as int),
        ));
    }
    assert(tables@.subrange(0, index as int) =~= tables@);
    out
}

fn keep_enabled(signature: &Option<WindowSignature>, allowed: &Vec<WindowSignature>) -> (r: Option<
    WindowSignature,
>)
    ensures
        opt_sig_view(r) == keep_if(opt_sig_view(*signature), allowed@.map_values(
            |s: WindowSignature| s@,
        )),
{
    match signature {
        Some(s) => if list_holds(allowed, s) {
            Some(s.clone())
        } else {
            None
        },
        None => None,
    }
}

/// The assigned columns reduced to their enabled tables, empty columns dropped.
pub fn active_assigned_columns(
    columns: &Vec<PokerColumnAssignment>,
    tables: &Vec<ManagedTable>,
) -> (r: Vec<PokerColumnAssignment>)
    ensures
        columns_view(r@) == active_columns(columns_view(columns@), enabled_sigs(tables@)),
{
    let enabled = enabled_signatures(tables);
    let ghost allowed = enabled_sigs(tables@);
    let mut out: Vec<PokerColumnAssignment> = Vec::new();
    let mut index: usize = 0;
    while index < columns.len()
        invariant
            index <= columns.len(),
            allowed == enabled@.map_values(|s: WindowSignature| s@),
            columns_view(out@) == active_columns(
                columns_view(columns@).subrange(0, index as int),
                allowed,
            ),
        decreases columns.len() - index,
    {
        let ghost prev = out@;
        assert(columns_view(columns@).subrange(0, index as int) =~= columns_view(
            columns@,
        ).subrange(0, index + 1).drop_last());
        assert(columns_view(columns@).subrange(0, index + 1).last() == columns@[index as int]@);
        match &columns[index] {
            PokerColumnAssignment::ClubGg { top, bottom } => {
                let t = keep_enabled(top, &enabled);
                let b = keep_enabled(bottom, &enabled);
                if t.is_some() || b.is_some() {
                    let column = PokerColumnAssignment::ClubGg { top: t, bottom: b };
                    out.push(column);
                    assert(columns_view(out@) =~= columns_view(prev) + seq![column@]);
                } else {
                    assert(columns_view(out@) =~= columns_view(prev) + Seq::<ColumnView>::empty());
                }
            },
            PokerColumnAssignment::LdPlayer { table } => {
                let t = keep_enabled(table, &enabled);
                if let Some(s) = t {
                    let column = PokerColumnAssignment::LdPlayer { table: Some(s) };
                    out.push(column);
                    assert(columns_view(out@) =~= columns_view(prev) + seq![column@]);
                } else {
                    assert(columns_view(out@) =~= columns_view(prev) + Seq::<ColumnView>::empty());
                }
            },
            PokerColumnAssignment::Empty => {
                assert(columns_view(out@) =~= columns_view(prev) + Seq::<ColumnView>::empty());
            },
        }
        index += 1;
    }
    assert(columns_view(columns@).subrange(0, index as int) =~= columns_view(columns@));
    out
}

// ----- slot addressing -----

/// The slot of `column` (at index `index`) that holds `signature`.
pub open spec fn slot_in(column: ColumnView, signature: SignatureView, index: int) -> Option<
    PokerSlotId,
> {
    match column {
        ColumnView::Club { top, bottom } => if top == Some(signature) {
            Some(PokerSlotId { column: index as usize, row: Some(0u8) })
        } else if bottom == Some(signature) {
            Some(PokerSlotId { column: index as usize, row: Some(1u8) })
        } else {
            None
        },
        ColumnView::Ld { table } => if table == Some(signature) {
            Some(PokerSlotId { column: index as usize, row: None })
        } else {
            None
        },
        ColumnView::Empty => None,
    }
}

/// The first slot, column by column, that holds `signature`.
pub open spec fn find_slot(columns: Seq<ColumnView>, signature: SignatureView) -> Option<PokerSlotId>
    decreases columns.len(),
{
    if columns.len() == 0 {
        None
    } else {
        match find_slot(columns.drop_last(), signature) {
            Some(slot) => Some(slot),
            None => slot_in(columns.last(), signature, columns.len() - 1),
        }
    }
}

/// The signature held by `slot`, if the slot exists and is occupied.
pub open spec fn sig_at(columns: Seq<ColumnView>, slot: PokerSlotId) -> Option<SignatureView> {
    if slot.column >= columns.len() {
        None
    } else {
        match columns[slot.column as int] {
            ColumnView::Club { top, bottom } => match slot.row {
                Some(r) => if r == 0 {
                    top
                } else if r == 1 {
                    bottom
                } else {
                    None
                },
                None => None,
            },
            ColumnView::Ld { table } => if slot.row is None {
                table
            } else {
                None
            },
            ColumnView::Empty => None,
        }
    }
}

/// `column` with the cell named by `row` set to `signature`; an empty column
/// becomes a ClubGG column when a cell is written.
pub open spec fn with_slot(column: ColumnView, row: Option<u8>, signature: Option<SignatureView>) -> ColumnView {
    match column {
        ColumnView::Club { top, bottom } => match row {
            Some(r) => if r == 0 {
                ColumnView::Club { top: signature, bottom }
            } else if r == 1 {
                ColumnView::Club { top, bottom: signature }
            } else {
                column
            },
            None => column,
        },
        ColumnView::Ld { table } => if row is None {
            ColumnView::Ld { table: signature }
        } else {
            column
        },
        ColumnView::Empty => match row {
            Some(r) => if r == 0 {
                ColumnView::Club { top: signature, bottom: None }
            } else {
                ColumnView::Club { top: None, bottom: signature }
            },
            None => column,
        },
    }
}

pub open spec fn set_at(columns: Seq<ColumnView>, slot: PokerSlotId, signature: Option<SignatureView>) -> Seq<ColumnView> {
    if slot.column < columns.len() {
        columns.update(slot.column as int, with_slot(columns[slot.column as int], slot.row, signature))
    } else {
        columns
    }
}

/// The first slot that holds `signature`.
pub fn find_signature_slot(columns: &Vec<PokerColumnAssignment>, signature: &WindowSignature) -> (r: Option<PokerSlotId>)
    ensures
        r == find_slot(columns_view(columns@), signature@),
{
    let ghost view = columns_view(columns@);
    let mut index: usize = 0;
    while index < columns.len()
        invariant
            index <= columns.len(),
            view == columns_view(columns@),
            find_slot(view.subrange(0, index as int), signature@) is None,
        decreases columns.len() - index,
    {
        let found = match &columns[index] {
            PokerColumnAssignment::ClubGg { top, bottom } => {
                let in_top = match top {
                    Some(s) => same_signature(s, signature),
                    None => false,
                };
                let in_bottom = match bottom {
                    Some(s) => same_signature(s, signature),
                    None => false,
                };
                if in_top {
                    Some(PokerSlotId::club(index, 0))
                } else if in_bottom {
                    Some(PokerSlotId::club(index, 1))
                } else {
                    None
                }
            },
            PokerColumnAssignment::LdPlayer { table } => {
                let held = match table {
                    Some(s) => same_signature(s, signature),
                    None => false,
                };
                if held {
                    Some(PokerSlotId::full_height(index))
                } else {
                    None
                }
            },
            PokerColumnAssignment::Empty => None,
        };
        assert(view.subrange(0, index + 1).drop_last() =~= view.subrange(0, index as int));
        assert(view.subrange(0, index + 1).last() == columns@[index as int]@);
        assert(found == slot_in(columns@[index as int]@, signature@, index as int));
        if found.is_some() {
            proof {
                lemma_find_slot_prefix(view, signature@, index + 1);
            }
            return found;
        }
        index += 1;
    }
    assert(view.subrange(0, index as int) =~= view);
    None
}

proof fn lemma_find_slot_prefix(columns: Seq<ColumnView>, signature: SignatureView, n: int)
    requires
        0 <= n <= columns.len(),
        find_slot(columns.subrange(0, n), signature) is Some,
    ensures
        find_slot(columns, signature) == find_slot(columns.subrange(0, n), signature),
    decreases columns.len() - n,
{
    if n < columns.len() {
        assert(columns.subrange(0, n + 1).drop_last() =~= columns.subrange(0, n));
        lemma_find_slot_prefix(columns, signature, n + 1);
    } else {
        assert(columns.subrange(0, n) =~= columns);
    }
}

/// The signature held by `slot`.
pub fn signature_at_slot(columns: &Vec<PokerColumnAssignment>, slot: PokerSlotId) -> (r: Option<WindowSignature>)
    ensures
        opt_sig_view(r) == sig_at(columns_view(columns@), slot),
{
    if slot.column >= columns.len() {
        return None;
    }
    match &columns[slot.column] {
        PokerColumnAssignment::ClubGg { top, bottom } => match slot.row {
            Some(0) => clone_opt_signature(top),
            Some(1) => clone_opt_signature(bottom),
            _ => None,
        },
        PokerColumnAssignment::LdPlayer { table } => if slot.row.is_none() {
            clone_opt_signature(table)
        } else {
            None
        },
        PokerColumnAssignment::Empty => None,
    }
}

/// Writes `signature` into `slot` (nothing happens for a slot that does not exist).
pub fn set_slot_signature(
    columns: &mut Vec<PokerColumnAssignment>,
    slot: PokerSlotId,
    signature: Option<WindowSignature>,
)
    ensures
        columns_view(final(columns)@) == set_at(columns_view(old(columns)@), slot, opt_sig_view(signature)),
{
    if slot.column >= columns.len() {
        return;
    }
    let ghost before = columns@;
    let updated: PokerColumnAssignment = match &columns[slot.column] {
        PokerColumnAssignment::ClubGg { top, bottom } => match slot.row {
            Some(0) => PokerColumnAssignment::ClubGg { top: signature, bottom: clone_opt_signature(bottom) },
            Some(1) => PokerColumnAssignment::ClubGg { top: clone_opt_signature(top), bottom: signature },
            _ => PokerColumnAssignment::ClubGg { top: clone_opt_signature(top), bottom: clone_opt_signature(bottom) },
        },
        PokerColumnAssignment::LdPlayer { table } => if slot.row.is_none() {
            PokerColumnAssignment::LdPlayer { table: signature }
        } else {
            PokerColumnAssignment::LdPlayer { table: clone_opt_signature(table) }
        },
        PokerColumnAssignment::Empty => match slot.row {
            Some(row) => if row == 0 {
                PokerColumnAssignment::ClubGg { top: signature, bottom: None }
            } else {
                PokerColumnAssignment::ClubGg { top: None, bottom: signature }
            },
            None => PokerColumnAssignment::Empty,
        },
    };
    assert(updated@ == with_slot(before[slot.column as int]@, slot.row, opt_sig_view(signature)));
    columns.set(slot.column, updated);
    assert(columns_view(columns@) =~= set_at(columns_view(before), slot, opt_sig_view(signature)));
}

pub open spec fn cleared(columns: Seq<ColumnView>, signature: SignatureView) -> Seq<ColumnView> {
    match find_slot(columns, signature) {
        None => columns,
        Some(slot) => {
            let written = set_at(columns, slot, None);
            if written[slot.column as int] == (ColumnView::Ld { table: None }) {
                written.update(slot.column as int, ColumnView::Empty)
            } else {
                written
            }
        },
    }
}

/// Releases the first slot that holds `signature`; a full-height column left
/// without its table becomes empty.
pub fn clear_signature(columns: &mut Vec<PokerColumnAssignment>, signature: &WindowSignature)
    ensures
        columns_view(final(columns)@) == cleared(columns_view(old(columns)@), signature@),
{
    let ghost before = columns_view(columns@);
    if let Some(slot) = find_signature_slot(columns, signature) {
        let count = columns.len();
        assert(before.len() == count);
        proof {
            lemma_find_slot_in_range(before, signature@);
        }
        set_slot_signature(columns, slot, None);
        assert(columns_view(columns@).len() == before.len());
        let now_empty = match &columns[slot.column] {
            PokerColumnAssignment::LdPlayer { table } => table.is_none(),
            _ => false,
        };
        if now_empty {
            let ghost written = columns_view(columns@);
            columns.set(slot.column, PokerColumnAssignment::Empty);
            assert(columns_view(columns@) =~= written.update(slot.column as int, ColumnView::Empty));
        }
    }
}

pub proof fn lemma_find_slot_in_range(columns: Seq<ColumnView>, signature: SignatureView)
    requires
        columns.len() <= usize::MAX,
    ensures
        find_slot(columns, signature) matches Some(slot) ==> slot.column < columns.len()
            && sig_at(columns, slot) == Some(signature),
    decreases columns.len(),
{
    if columns.len() > 0 {
        let init = columns.drop_last();
        lemma_find_slot_in_range(init, signature);
        if let Some(slot) = find_slot(init, signature) {
            assert(columns[slot.column as int] == init[slot.column as int]);
        }
    }
}

// ----- placing new tables -----

/// The first index whose column satisfies `p`, or the length when none does.
pub open spec fn first_index(columns: Seq<ColumnView>, p: spec_fn(int, ColumnView) -> bool) -> int
    decreases columns.len(),
{
    if columns.len() == 0 {
        0
    } else {
        let found = first_index(columns.drop_last(), p);
        if found < columns.len() - 1 {
            found
        } else if p(columns.len() - 1, columns.last()) {
            columns.len() - 1
        } else {
            columns.len() as int
        }
    }
}

/// One past the last index whose column satisfies `p`, or 0 when none does.
pub open spec fn after_last_index(columns: Seq<ColumnView>, p: spec_fn(int, ColumnView) -> bool) -> int
    decreases columns.len(),
{
    if columns.len() == 0 {
        0
    } else if p(columns.len() - 1, columns.last()) {
        columns.len() as int
    } else {
        after_last_index(columns.drop_last(), p)
    }
}

proof fn lemma_first_index_is(columns: Seq<ColumnView>, p: spec_fn(int, ColumnView) -> bool, i: int)
    requires
        0 <= i <= columns.len(),
        forall|k: int| 0 <= k < i ==> !p(k, columns[k]),
        i < columns.len() ==> p(i, columns[i]),
    ensures
        first_index(columns, p) == i,
    decreases columns.len(),
{
    if columns.len() > 0 {
        let init = columns.drop_last();
        if i < columns.len() {
            if i < init.len() {
                lemma_first_index_is(init, p, i);
            } else {
                lemma_first_index_is(init, p, init.len() as int);
            }
        } else {
            lemma_first_index_is(init, p, init.len() as int);
        }
    }
}

proof fn lemma_after_last_index_is(columns: Seq<ColumnView>, p: spec_fn(int, ColumnView) -> bool, i: int)
    requires
        0 <= i <= columns.len(),
        forall|k: int| i <= k < columns.len() ==> !p(k, columns[k]),
        i > 0 ==> p(i - 1, columns[i - 1]),
    ensures
        after_last_index(columns, p) == i,
    decreases columns.len(),
{
    if columns.len() > 0 && i < columns.len() {
        lemma_after_last_index_is(columns.drop_last(), p, i);
    }
}

pub open spec fn is_ld(column: ColumnView) -> bool {
    column is Ld
}

/// A column that can take one more ClubGG table: an empty column or a ClubGG
/// column with a free cell.
pub open spec fn has_club_room(column: ColumnView) -> bool {
    match column {
        ColumnView::Club { top, bottom } => top is None || bottom is None,
        ColumnView::Empty => true,
        ColumnView::Ld { .. } => false,
    }
}

/// `column` with `signature` in its first free cell, top before bottom.
pub open spec fn fill_club(column: ColumnView, signature: SignatureView) -> ColumnView {
    match column {
        ColumnView::Club { top, bottom } => if top is None {
            ColumnView::Club { top: Some(signature), bottom }
        } else {
            ColumnView::Club { top, bottom: Some(signature) }
        },
        _ => ColumnView::Club { top: Some(signature), bottom: None },
    }
}

pub open spec fn ld_pred() -> spec_fn(int, ColumnView) -> bool {
    |i: int, c: ColumnView| is_ld(c)
}

pub open spec fn room_pred() -> spec_fn(int, ColumnView) -> bool {
    |i: int, c: ColumnView| has_club_room(c)
}

pub open spec fn owned_club_pred() -> spec_fn(int, ColumnView) -> bool {
    |i: int, c: ColumnView| c is Club && owned(c)
}

pub open spec fn free_from_pred(start: int) -> spec_fn(int, ColumnView) -> bool {
    |i: int, c: ColumnView| i >= start && !owned(c)
}

/// The ClubGG section: the columns before the first LDPlayer column.
pub open spec fn club_section_end(columns: Seq<ColumnView>) -> int {
    first_index(columns, ld_pred())
}

/// Where a new ClubGG table goes: the first free cell in the ClubGG section,
/// else a new ClubGG column at the end of that section.
pub open spec fn assign_club(columns: Seq<ColumnView>, signature: SignatureView) -> Seq<ColumnView> {
    let end = club_section_end(columns);
    let room = first_index(columns, room_pred());
    if room < end {
        columns.update(room, fill_club(columns[room], signature))
    } else {
        columns.insert(end, ColumnView::Club { top: Some(signature), bottom: None })
    }
}

/// Where a new LDPlayer table goes: the first unowned column after the last
/// owned ClubGG column, else a new column at the end.
pub open spec fn assign_ld(columns: Seq<ColumnView>, signature: SignatureView) -> Seq<ColumnView> {
    let start = after_last_index(columns, owned_club_pred());
    let free = first_index(columns, free_from_pred(start));
    if free < columns.len() {
        columns.update(free, ColumnView::Ld { table: Some(signature) })
    } else {
        columns.push(ColumnView::Ld { table: Some(signature) })
    }
}

pub open spec fn assigned(columns: Seq<ColumnView>, signature: SignatureView, client: PokerClientKind) -> Seq<ColumnView> {
    match client {
        PokerClientKind::ClubGg => assign_club(columns, signature),
        PokerClientKind::LdPlayer => assign_ld(columns, signature),
    }
}

/// Gives a table that has no slot yet its place in the columns.
pub fn assign_new_signature(
    columns: &mut Vec<PokerColumnAssignment>,
    signature: WindowSignature,
    client: PokerClientKind,
)
    ensures
        columns_view(final(columns)@) == assigned(columns_view(old(columns)@), signature@, client),
{
    let ghost before = columns_view(columns@);
    let ghost sig = signature@;
    match client {
        PokerClientKind::ClubGg => {
            let ghost p_end = ld_pred();
            let ghost p_room = room_pred();
            let mut end: usize = 0;
            while end < columns.len()
                invariant
                    end <= columns.len(),
                    before == columns_view(columns@),
                    forall|k: int| 0 <= k < end ==> !is_ld(before[k]),
                ensures
                    end <= columns.len(),
                    before == columns_view(columns@),
                    forall|k: int| 0 <= k < end ==> !is_ld(before[k]),
                    end < columns.len() ==> is_ld(before[end as int]),
                decreases columns.len() - end,
            {
                let ld = match &columns[end] {
                    PokerColumnAssignment::LdPlayer { .. } => true,
                    _ => false,
                };
                assert(before[end as int] == columns@[end as int]@);
                if ld {
                    break;
                }
                end += 1;
            }
            assert forall|k: int| 0 <= k < end implies !p_end(k, before[k]) by {}
            assert(end < before.len() ==> p_end(end as int, before[end as int]));
            proof {
                lemma_first_index_is(before, p_end, end as int);
            }
            let mut index: usize = 0;
            while index < end
                invariant
                    index <= end <= columns.len(),
                    before == columns_view(columns@),
                    forall|k: int| 0 <= k < end ==> !is_ld(before[k]),
                    forall|k: int| 0 <= k < index ==> !has_club_room(before[k]),
                    p_room == room_pred(),
                    client == PokerClientKind::ClubGg,
                    sig == signature@,
                    end == club_section_end(before),
                    before == columns_view(old(columns)@),
                decreases end - index,
            {
                let filled: Option<PokerColumnAssignment> = match &columns[index] {
                    PokerColumnAssignment::ClubGg { top, bottom } => if top.is_none() {
                        Some(PokerColumnAssignment::ClubGg { top: Some(signature.clone()), bottom: clone_opt_signature(bottom) })
                    } else if bottom.is_none() {
                        Some(PokerColumnAssignment::ClubGg { top: clone_opt_signature(top), bottom: Some(signature.clone()) })
                    } else {
                        None
                    },
                    PokerColumnAssignment::Empty => Some(PokerColumnAssignment::ClubGg { top: Some(signature.clone()), bottom: None }),
                    PokerColumnAssignment::LdPlayer { .. } => None,
                };
                assert(before[index as int] == columns@[index as int]@);
                if let Some(column) = filled {
                    assert forall|k: int| 0 <= k < index implies !p_room(k, before[k]) by {}
                    assert(p_room(index as int, before[index as int]));
                    proof {
                        lemma_first_index_is(before, p_room, index as int);
                    }
                    assert(column@ == fill_club(before[index as int], sig));
                    let ghost old_columns = columns@;
                    columns.set(index, column);
                    assert(columns@ == old_columns.update(index as int, column));
                    assert(columns_view(columns@) =~= before.update(index as int, fill_club(before[index as int], sig)));
                    return;
                }
                index += 1;
            }
            assert forall|k: int| 0 <= k < end implies !p_room(k, before[k]) by {}
            proof {
                lemma_first_index_at_least(before, p_room, end as int);
            }
            let column = PokerColumnAssignment::ClubGg { top: Some(signature), bottom: None };
            columns.insert(end, column);
            assert(columns_view(columns@) =~= before.insert(end as int, ColumnView::Club { top: Some(sig), bottom: None }));
        },
        PokerClientKind::LdPlayer => {
            let ghost p_club = owned_club_pred();
            let mut start: usize = columns.len();
            while start > 0
                invariant
                    start <= columns.len(),
                    before == columns_view(columns@),
                    forall|k: int| start <= k < columns.len() ==> !(before[k] is Club && owned(before[k])),
                ensures
                    start <= columns.len(),
                    before == columns_view(columns@),
                    forall|k: int| start <= k < columns.len() ==> !(before[k] is Club && owned(before[k])),
                    start > 0 ==> (before[start - 1] is Club && owned(before[start - 1])),
                decreases start,
            {
                let owned_club = match &columns[start - 1] {
                    PokerColumnAssignment::ClubGg { top, bottom } => top.is_some() || bottom.is_some(),
                    _ => false,
                };
                assert(before[start - 1] == columns@[start - 1]@);
                if owned_club {
                    break;
                }
                start -= 1;
            }
            assert forall|k: int| start <= k < before.len() implies !p_club(k, before[k]) by {}
            assert(start > 0 ==> p_club(start - 1, before[start - 1]));
            proof {
                lemma_after_last_index_is(before, p_club, start as int);
            }
            let ghost p_free = free_from_pred(start as int);
            let mut index: usize = start;
            while index < columns.len()
                invariant
                    start <= index <= columns.len(),
                    before == columns_view(columns@),
                    forall|k: int| start <= k < index ==> owned(before[k]),
                    p_free == free_from_pred(start as int),
                    client == PokerClientKind::LdPlayer,
                    sig == signature@,
                    start == after_last_index(before, owned_club_pred()),
                    before == columns_view(old(columns)@),
                decreases columns.len() - index,
            {
                assert(before[index as int] == columns@[index as int]@);
                if !column_is_owned(&columns[index]) {
                    assert forall|k: int| 0 <= k < index implies !p_free(k, before[k]) by {}
                    assert(p_free(index as int, before[index as int]));
                    proof {
                        lemma_first_index_is(before, p_free, index as int);
                    }
                    let ghost old_columns = columns@;
                    let column = PokerColumnAssignment::LdPlayer { table: Some(signature) };
                    columns.set(index, column);
                    assert(columns@ == old_columns.update(index as int, column));
                    assert(columns_view(columns@) =~= before.update(index as int, ColumnView::Ld { table: Some(sig) }));
                    return;
                }
                index += 1;
            }
            assert forall|k: int| 0 <= k < before.len() implies !p_free(k, before[k]) by {}
            proof {
                lemma_first_index_is(before, p_free, columns@.len() as int);
            }
            columns.push(PokerColumnAssignment::LdPlayer { table: Some(signature) });
            assert(columns_view(columns@) =~= before.push(ColumnView::Ld { table: Some(sig) }));
        },
    }
}

proof fn lemma_first_index_at_least(columns: Seq<ColumnView>, p: spec_fn(int, ColumnView) -> bool, i: int)
    requires
        0 <= i <= columns.len(),
        forall|k: int| 0 <= k < i ==> !p(k, columns[k]),
    ensures
        first_index(columns, p) >= i,
    decreases columns.len(),
{
    if columns.len() > 0 {
        let init = columns.drop_last();
        if i <= init.len() {
            lemma_first_index_at_least(init, p, i);
        } else {
            lemma_first_index_at_least(init, p, init.len() as int);
        }
    }
}

// ----- keeping the preserved footprint small -----

pub open spec fn owned_count(columns: Seq<ColumnView>) -> int
    decreases columns.len(),
{
    if columns.len() == 0 {
        0
    } else {
        owned_count(columns.drop_last()) + if owned(columns.last()) { 1int } else { 0int }
    }
}

pub open spec fn unowned_count(columns: Seq<ColumnView>) -> int
    decreases columns.len(),
{
    if columns.len() == 0 {
        0
    } else {
        unowned_count(columns.drop_last()) + if owned(columns.last()) { 0int } else { 1int }
    }
}

/// Owned columns, plus the first `budget` unowned ones, in order.
pub open spec fn kept_columns(columns: Seq<ColumnView>, budget: int) -> Seq<ColumnView>
    decreases columns.len(),
{
    if columns.len() == 0 {
        columns
    } else {
        let rest = kept_columns(columns.drop_last(), budget);
        if owned(columns.last()) || unowned_count(columns.drop_last()) < budget {
            rest.push(columns.last())
        } else {
            rest
        }
    }
}

pub open spec fn padded(columns: Seq<ColumnView>) -> Seq<ColumnView> {
    if columns.len() >= 2 {
        columns
    } else {
        columns + Seq::new((2 - columns.len()) as nat, |i: int| ColumnView::Club { top: None, bottom: None })
    }
}

/// How many anonymous columns fill the preserved footprint up to two columns.
pub open spec fn baseline(columns: Seq<ColumnView>) -> int {
    if owned_count(columns) < 2 {
        2 - owned_count(columns)
    } else {
        0
    }
}

/// The preserved footprint: every owned column in order, as many anonymous
/// columns as keep the total at two, and up to `holes` more anonymous
/// columns for holes left by closed tables (never more than `columns` has),
/// padded to two columns.
pub open spec fn normalized(columns: Seq<ColumnView>, holes: int) -> Seq<ColumnView> {
    let extra = if holes < 0 {
        0
    } else if holes > columns.len() {
        columns.len() as int
    } else {
        holes
    };
    padded(kept_columns(columns, baseline(columns) + extra))
}

/// How many anonymous columns of a preserved footprint stand beyond its
/// two-column baseline: the holes left by closed tables.
pub open spec fn holes_of(columns: Seq<ColumnView>) -> int {
    if unowned_count(columns) > baseline(columns) {
        unowned_count(columns) - baseline(columns)
    } else {
        0
    }
}

/// The slot that marks column `index` as a hole: its top cell, or its whole
/// height for an LDPlayer column.
pub open spec fn hole_slot(index: int, column: ColumnView) -> PokerSlotId {
    PokerSlotId {
        column: index as usize,
        row: match column {
            ColumnView::Ld { .. } => None,
            _ => Some(0u8),
        },
    }
}

/// The slots of the anonymous columns after the first `skip` of them.
pub open spec fn hole_slots(columns: Seq<ColumnView>, skip: int) -> Seq<PokerSlotId>
    decreases columns.len(),
{
    if columns.len() == 0 {
        Seq::empty()
    } else {
        let rest = hole_slots(columns.drop_last(), skip);
        if !owned(columns.last()) && unowned_count(columns.drop_last()) >= skip {
            rest.push(hole_slot(columns.len() - 1, columns.last()))
        } else {
            rest
        }
    }
}

/// The placeholders that record the holes of a preserved footprint.
pub open spec fn hole_marks(columns: Seq<ColumnView>) -> Seq<PokerSlotId> {
    hole_slots(columns, unowned_count(columns) - holes_of(columns))
}

/// Keeps every owned column, caps anonymous preserved space at a two-column
/// footprint plus `holes` holes left by closed tables, and pads to two columns.
pub fn normalize_preserved_columns(columns: &mut Vec<PokerColumnAssignment>, holes: usize)
    ensures
        columns_view(final(columns)@) == normalized(columns_view(old(columns)@), holes as int),
{
    let ghost before = columns_view(columns@);
    let mut owned_total: usize = 0;
    let mut index: usize = 0;
    while index < columns.len()
        invariant
            index <= columns.len(),
            before == columns_view(columns@),
            owned_total == owned_count(before.subrange(0, index as int)),
            owned_total <= index,
        decreases columns.len() - index,
    {
        assert(before.subrange(0, index as int) =~= before.subrange(0, index + 1).drop_last());
        if column_is_owned(&columns[index]) {
            owned_total += 1;
        }
        index += 1;
    }
    assert(before.subrange(0, index as int) =~= before);
    let base: usize = if owned_total < 2 { 2 - owned_total } else { 0 };
    let extra: usize = if holes > columns.len() { columns.len() } else { holes };
    let ghost budget: int = base + extra;
    let mut kept: Vec<PokerColumnAssignment> = Vec::new();
    let mut anonymous_seen: usize = 0;
    let mut index: usize = 0;
    while index < columns.len()
        invariant
            index <= columns.len(),
            before == columns_view(columns@),
            anonymous_seen == unowned_count(before.subrange(0, index as int)),
            anonymous_seen <= index,
            budget == base + extra,
            columns_view(kept@) == kept_columns(before.subrange(0, index as int), budget),
        decreases columns.len() - index,
    {
        let ghost prev = kept@;
        assert(before.subrange(0, index as int) =~= before.subrange(0, index + 1).drop_last());
        assert(before.subrange(0, index + 1).last() == columns@[index as int]@);
        let is_owned = column_is_owned(&columns[index]);
        if is_owned || anonymous_seen < extra || anonymous_seen - extra < base {
            kept.push(columns[index].clone());
            assert(columns_view(kept@) =~= columns_view(prev).push(columns@[index as int]@));
        }
        if !is_owned {
            anonymous_seen += 1;
        }
        index += 1;
    }
    assert(before.subrange(0, index as int) =~= before);
    let ghost trimmed = columns_view(kept@);
    if kept.len() < 2 {
        while kept.len() < 2
            invariant
                trimmed.len() < 2,
                kept@.len() >= trimmed.len(),
                kept@.len() <= 2,
                columns_view(kept@) == trimmed + Seq::new(
                    (kept@.len() - trimmed.len()) as nat,
                    |i: int| ColumnView::Club { top: None, bottom: None },
                ),
            decreases 2 - kept.len(),
        {
            let ghost prev = kept@;
            let pad = PokerColumnAssignment::empty_club();
            kept.push(pad);
            assert(columns_view(kept@) =~= columns_view(prev).push(pad@));
            assert(Seq::new(
                (kept@.len() - trimmed.len()) as nat,
                |i: int| ColumnView::Club { top: None, bottom: None },
            ) =~= Seq::new(
                (prev.len() - trimmed.len()) as nat,
                |i: int| ColumnView::Club { top: None, bottom: None },
            ).push(ColumnView::Club { top: None, bottom: None }));
            assert(columns_view(kept@) =~= trimmed + Seq::new(
                (kept@.len() - trimmed.len()) as nat,
                |i: int| ColumnView::Club { top: None, bottom: None },
            ));
        }
    }
    assert(columns_view(kept@) =~= padded(trimmed));
    *columns = kept;
}

/// The placeholders that record the holes of `columns` (see `hole_marks`).
pub fn hole_marks_of(columns: &Vec<PokerColumnAssignment>) -> (r: Vec<PokerSlotId>)
    ensures
        r@ == hole_marks(columns_view(columns@)),
{
    let ghost view = columns_view(columns@);
    let mut owned_total: usize = 0;
    let mut unowned_total: usize = 0;
    let mut index: usize = 0;
    while index < columns.len()
        invariant
            index <= columns.len(),
            view == columns_view(columns@),
            owned_total == owned_count(view.subrange(0, index as int)),
            unowned_total == unowned_count(view.subrange(0, index as int)),
            owned_total + unowned_total == index,
        decreases columns.len() - index,
    {
        assert(view.subrange(0, index as int) =~= view.subrange(0, index + 1).drop_last());
        if column_is_owned(&columns[index]) {
            owned_total += 1;
        } else {
            unowned_total += 1;
        }
        index += 1;
    }
    assert(view.subrange(0, index as int) =~= view);
    let base: usize = if owned_total < 2 { 2 - owned_total } else { 0 };
    let skip: usize = if unowned_total > base { base } else { unowned_total };
    assert(skip == unowned_count(view) - holes_of(view));
    let mut out: Vec<PokerSlotId> = Vec::new();
    let mut seen: usize = 0;
    let mut index: usize = 0;
    while index < columns.len()
        invariant
            index <= columns.len(),
            view == columns_view(columns@),
            seen == unowned_count(view.subrange(0, index as int)),
            seen <= index,
            out@ == hole_slots(view.subrange(0, index as int), skip as int),
        decreases columns.len() - index,
    {
        assert(view.subrange(0, index as int) =~= view.subrange(0, index + 1).drop_last());
        assert(view.subrange(0, index + 1).last() == columns@[index as int]@);
        if !column_is_owned(&columns[index]) {
            if seen >= skip {
                let row = match &columns[index] {
                    PokerColumnAssignment::LdPlayer { .. } => None,
                    _ => Some(0u8),
                };
                out.push(PokerSlotId { column: index, row });
            }
            seen += 1;
        }
        index += 1;
    }
    assert(view.subrange(0, index as int) =~= view);
    out
}

// ----- laws -----

pub proof fn lemma_contains_concat(a: Seq<SignatureView>, b: Seq<SignatureView>, x: SignatureView)
    ensures
        (a + b).contains(x) <==> a.contains(x) || b.contains(x),
{
    let ab = a + b;
    if a.contains(x) {
        let i = choose|i: int| 0 <= i < a.len() && a[i] == x;
        assert(ab[i] == x);
    }
    if b.contains(x) {
        let i = choose|i: int| 0 <= i < b.len() && b[i] == x;
        assert(ab[a.len() + i] == x);
    }
    if ab.contains(x) {
        let i = choose|i: int| 0 <= i < ab.len() && ab[i] == x;
        if i < a.len() {
            assert(a[i] == x);
        } else {
            assert(b[i - a.len()] == x);
        }
    }
}

pub proof fn lemma_occurs_push(columns: Seq<ColumnView>, column: ColumnView, x: SignatureView)
    ensures
        occurs(columns.push(column), x) <==> occurs(columns, x) || column_sigs(column).contains(x),
{
    let pushed = columns.push(column);
    if occurs(columns, x) {
        let i = choose|i: int| 0 <= i < columns.len() && column_sigs(columns[i]).contains(x);
        assert(pushed[i] == columns[i]);
    }
    if column_sigs(column).contains(x) {
        assert(pushed[columns.len() as int] == column);
    }
    if occurs(pushed, x) {
        let i = choose|i: int| 0 <= i < pushed.len() && column_sigs(pushed[i]).contains(x);
        if i < columns.len() {
            assert(pushed[i] == columns[i]);
        }
    }
}

proof fn lemma_occurs_update(columns: Seq<ColumnView>, i: int, column: ColumnView, x: SignatureView)
    requires
        0 <= i < columns.len(),
        column_sigs(columns[i]).contains(x) ==> column_sigs(column).contains(x),
    ensures
        occurs(columns.update(i, column), x) <==> occurs(columns, x) || column_sigs(column).contains(x),
{
    let updated = columns.update(i, column);
    if occurs(columns, x) {
        let j = choose|j: int| 0 <= j < columns.len() && column_sigs(columns[j]).contains(x);
        if j != i {
            assert(updated[j] == columns[j]);
        } else {
            assert(updated[i] == column);
        }
    }
    if column_sigs(column).contains(x) {
        assert(updated[i] == column);
    }
    if occurs(updated, x) {
        let j = choose|j: int| 0 <= j < updated.len() && column_sigs(updated[j]).contains(x);
        if j != i {
            assert(updated[j] == columns[j]);
        }
    }
}

proof fn lemma_occurs_insert(columns: Seq<ColumnView>, at: int, column: ColumnView, x: SignatureView)
    requires
        0 <= at <= columns.len(),
    ensures
        occurs(columns.insert(at, column), x) <==> occurs(columns, x) || column_sigs(column).contains(x),
{
    let inserted = columns.insert(at, column);
    if occurs(columns, x) {
        let j = choose|j: int| 0 <= j < columns.len() && column_sigs(columns[j]).contains(x);
        if j < at {
            assert(inserted[j] == columns[j]);
        } else {
            assert(inserted[j + 1] == columns[j]);
        }
    }
    if column_sigs(column).contains(x) {
        assert(inserted[at] == column);
    }
    if occurs(inserted, x) {
        let j = choose|j: int| 0 <= j < inserted.len() && column_sigs(inserted[j]).contains(x);
        if j < at {
            assert(inserted[j] == columns[j]);
        } else if j > at {
            assert(inserted[j] == columns[j - 1]);
        }
    }
}

proof fn lemma_first_index_found(columns: Seq<ColumnView>, p: spec_fn(int, ColumnView) -> bool)
    ensures
        0 <= first_index(columns, p) <= columns.len(),
        first_index(columns, p) < columns.len() ==> p(
            first_index(columns, p),
            columns[first_index(columns, p)],
        ),
        forall|k: int| 0 <= k < first_index(columns, p) ==> !p(k, columns[k]),
    decreases columns.len(),
{
    if columns.len() > 0 {
        let init = columns.drop_last();
        lemma_first_index_found(init, p);
        assert forall|k: int| 0 <= k < first_index(columns, p) implies !p(k, columns[k]) by {
            if k < init.len() {
                assert(columns[k] == init[k]);
            }
        }
        if first_index(init, p) < init.len() {
            assert(columns[first_index(init, p)] == init[first_index(init, p)]);
        }
    }
}

/// The slot that a signature is found in holds that signature, and a
/// signature is found exactly when it is assigned somewhere.
pub proof fn law_found_slot_holds_signature(columns: Seq<ColumnView>, signature: SignatureView)
    requires
        columns.len() <= usize::MAX,
    ensures
        find_slot(columns, signature) matches Some(slot) ==> slot.column < columns.len() && sig_at(
            columns,
            slot,
        ) == Some(signature),
        find_slot(columns, signature) is None <==> !occurs(columns, signature),
    decreases columns.len(),
{
    lemma_find_slot_in_range(columns, signature);
    if columns.len() > 0 {
        let init = columns.drop_last();
        law_found_slot_holds_signature(init, signature);
        lemma_occurs_push(init, columns.last(), signature);
        assert(init.push(columns.last()) =~= columns);
        let last = columns.last();
        match last {
            ColumnView::Club { top, bottom } => {
                if column_sigs(last).contains(signature) {
                    let sigs = column_sigs(last);
                    let k = choose|k: int| 0 <= k < sigs.len() && sigs[k] == signature;
                    if top is Some && k == 0 {
                    } else {
                        assert(top != Some(signature) ==> bottom == Some(signature));
                    }
                }
                if top == Some(signature) {
                    assert(column_sigs(last)[0] == signature);
                } else if bottom == Some(signature) {
                    assert(column_sigs(last)[column_sigs(last).len() - 1] == signature);
                }
            },
            ColumnView::Ld { table } => {
                if table == Some(signature) {
                    assert(column_sigs(last)[0] == signature);
                }
            },
            ColumnView::Empty => {},
        }
    }
}

/// A slot that can hold a table: a ClubGG cell of a ClubGG or empty column,
/// or the single slot of a full-height column.
pub open spec fn addressable(columns: Seq<ColumnView>, slot: PokerSlotId) -> bool {
    slot.column < columns.len() && match columns[slot.column as int] {
        ColumnView::Club { .. } | ColumnView::Empty => slot.row == Some(0u8) || slot.row == Some(1u8),
        ColumnView::Ld { .. } => slot.row is None,
    }
}

/// Writing a slot and reading it back gives what was written; every slot of
/// every other column keeps its occupant, and so does the other cell of the
/// same ClubGG column.
pub proof fn law_slot_write_then_read(
    columns: Seq<ColumnView>,
    slot: PokerSlotId,
    signature: Option<SignatureView>,
    other: PokerSlotId,
)
    requires
        addressable(columns, slot),
        other != slot,
        columns[slot.column as int] is Club ==> other.column != slot.column || other.row
            != slot.row,
        other.column == slot.column ==> !(columns[slot.column as int] is Empty),
    ensures
        sig_at(set_at(columns, slot, signature), slot) == signature,
        sig_at(set_at(columns, slot, signature), other) == sig_at(columns, other),
{
}

/// Releasing a signature empties the slot that held it and leaves every slot
/// of every other column as it was.
pub proof fn law_release_empties_the_slot(
    columns: Seq<ColumnView>,
    signature: SignatureView,
    other: PokerSlotId,
)
    requires
        columns.len() <= usize::MAX,
        find_slot(columns, signature) is Some,
        other.column != find_slot(columns, signature)->0.column,
    ensures
        sig_at(cleared(columns, signature), find_slot(columns, signature)->0) is None,
        sig_at(cleared(columns, signature), other) == sig_at(columns, other),
        cleared(columns, signature).len() == columns.len(),
{
    law_found_slot_holds_signature(columns, signature);
}

/// Placing a new table adds exactly that table: every table assigned before
/// keeps a place, and nothing else appears.
pub proof fn law_assignment_adds_exactly_the_new_table(
    columns: Seq<ColumnView>,
    signature: SignatureView,
    client: PokerClientKind,
    x: SignatureView,
)
    ensures
        occurs(assigned(columns, signature, client), x) <==> occurs(columns, x) || x == signature,
{
    match client {
        PokerClientKind::ClubGg => {
            let end = club_section_end(columns);
            let room = first_index(columns, room_pred());
            lemma_first_index_found(columns, room_pred());
            lemma_first_index_found(columns, ld_pred());
            if room < end {
                let c = columns[room];
                assert(has_club_room(c));
                let filled = fill_club(c, signature);
                match c {
                    ColumnView::Club { top, bottom } => {
                        if top is None {
                            assert(column_sigs(filled) =~= seq![signature] + opt_seq(bottom));
                            assert(column_sigs(c) =~= opt_seq(bottom));
                            lemma_contains_concat(seq![signature], opt_seq(bottom), x);
                            assert(seq![signature].contains(x) <==> x == signature) by {
                                if x == signature { assert(seq![signature][0] == x); }
                            }
                        } else {
                            assert(column_sigs(filled) =~= opt_seq(top) + seq![signature]);
                            assert(column_sigs(c) =~= opt_seq(top));
                            lemma_contains_concat(opt_seq(top), seq![signature], x);
                            assert(seq![signature].contains(x) <==> x == signature) by {
                                if x == signature { assert(seq![signature][0] == x); }
                            }
                        }
                    },
                    _ => {
                        assert(column_sigs(filled) =~= seq![signature]);
                        assert(column_sigs(c).len() == 0);
                        assert(seq![signature].contains(x) <==> x == signature) by {
                            if x == signature { assert(seq![signature][0] == x); }
                        }
                    },
                }
                assert(column_sigs(filled).contains(x) <==> column_sigs(c).contains(x) || x == signature);
                lemma_occurs_update(columns, room, filled, x);
                if x == signature {
                    assert(column_sigs(filled).contains(signature));
                }
            } else {
                let fresh = ColumnView::Club { top: Some(signature), bottom: None };
                assert(column_sigs(fresh) =~= seq![signature]);
                lemma_occurs_insert(columns, end, fresh, x);
                if x == signature {
                    assert(column_sigs(fresh)[0] == signature);
                }
            }
        },
        PokerClientKind::LdPlayer => {
            let start = after_last_index(columns, owned_club_pred());
            let free = first_index(columns, free_from_pred(start));
            lemma_first_index_found(columns, free_from_pred(start));
            let fresh = ColumnView::Ld { table: Some(signature) };
            assert(column_sigs(fresh) =~= seq![signature]);
            if free < columns.len() {
                assert(!owned(columns[free]));
                lemma_occurs_update(columns, free, fresh, x);
            } else {
                lemma_occurs_push(columns, fresh, x);
            }
            if x == signature {
                assert(column_sigs(fresh)[0] == signature);
            }
        },
    }
}

proof fn lemma_kept_columns(columns: Seq<ColumnView>, budget: int, x: SignatureView)
    requires
        budget >= 0,
    ensures
        kept_columns(columns, budget).len() == owned_count(columns) + min_of(unowned_count(columns), budget),
        occurs(kept_columns(columns, budget), x) <==> occurs(columns, x),
        owned_count(columns) >= 0,
        unowned_count(columns) >= 0,
    decreases columns.len(),
{
    if columns.len() > 0 {
        let init = columns.drop_last();
        let last = columns.last();
        lemma_kept_columns(init, budget, x);
        lemma_occurs_push(init, last, x);
        assert(init.push(last) =~= columns);
        let rest = kept_columns(init, budget);
        lemma_occurs_push(rest, last, x);
        if !owned(last) {
            assert(column_sigs(last).len() == 0);
            assert(!column_sigs(last).contains(x));
        }
    }
}

pub open spec fn min_of(a: int, b: int) -> int {
    if a <= b { a } else { b }
}

/// The preserved footprint keeps every assigned table, and it spans exactly
/// two columns unless more than two columns are owned, in which case no
/// anonymous column remains, except for up to `holes` holes left by closed
/// tables.
pub proof fn law_preserved_footprint(columns: Seq<ColumnView>, holes: int, x: SignatureView)
    ensures
        holes <= 0 ==> normalized(columns, holes).len() == (if owned_count(columns) >= 2 { owned_count(columns) } else { 2 }),
        owned_count(columns) <= normalized(columns, holes).len(),
        occurs(normalized(columns, holes), x) <==> occurs(columns, x),
{
    let extra = if holes < 0 {
        0
    } else if holes > columns.len() {
        columns.len() as int
    } else {
        holes
    };
    let budget = baseline(columns) + extra;
    lemma_kept_columns(columns, budget, x);
    let kept = kept_columns(columns, budget);
    if kept.len() < 2 {
        let pad = Seq::new((2 - kept.len()) as nat, |i: int| ColumnView::Club { top: None, bottom: None });
        let all = kept + pad;
        assert forall|i: int| 0 <= i < pad.len() implies !column_sigs(pad[i]).contains(x) by {
            assert(column_sigs(pad[i]) =~= Seq::<SignatureView>::empty());
        }
        if occurs(all, x) {
            let i = choose|i: int| 0 <= i < all.len() && column_sigs(all[i]).contains(x);
            if i >= kept.len() {
                assert(all[i] == pad[i - kept.len()]);
            } else {
                assert(all[i] == kept[i]);
            }
        }
        if occurs(kept, x) {
            let i = choose|i: int| 0 <= i < kept.len() && column_sigs(kept[i]).contains(x);
            assert(all[i] == kept[i]);
        }
    }
}

} // verus!
