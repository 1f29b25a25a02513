//! What bringing the slot assignments in line with the managed tables keeps:
//! a signature stands in a slot exactly when a managed table has it.
use crate::controller::{assign_all, pad_two, pending_of, pruned_column, synced, synced_marks, table_sigs, vacated_count};
use crate::model::{ColumnView, ManagedTable, PokerClientKind, SignatureView};
use crate::slots::{
    assigned, club_sigs, column_sigs, compact, entries_of, keep_if, law_assignment_adds_exactly_the_new_table,
    law_preserved_footprint, ld_sigs, lemma_contains_concat, lemma_occurs_push, occurs, opt_seq, paired,
    all_sigs, kept_columns, normalized, owned, owned_count, padded, unowned_count, Entry,
    baseline, hole_marks, hole_slots, holes_of,
};
use vstd::prelude::*;

verus! {

proof fn lemma_contains_push(s: Seq<SignatureView>, y: SignatureView, x: SignatureView)
    ensures
        s.push(y).contains(x) <==> s.contains(x) || x == y,
{
    let p = s.push(y);
    if s.contains(x) {
        let i = choose|i: int| 0 <= i < s.len() && s[i] == x;
        assert(p[i] == x);
    }
    if x == y {
        assert(p[s.len() as int] == x);
    }
    if p.contains(x) {
        let i = choose|i: int| 0 <= i < p.len() && p[i] == x;
        if i < s.len() {
            assert(s[i] == x);
        }
    }
}

proof fn lemma_occurs_concat(a: Seq<ColumnView>, b: Seq<ColumnView>, x: SignatureView)
    ensures
        occurs(a + b, x) <==> occurs(a, x) || occurs(b, x),
{
    let ab = a + b;
    if occurs(a, x) {
        let i = choose|i: int| 0 <= i < a.len() && column_sigs(a[i]).contains(x);
        assert(ab[i] == a[i]);
    }
    if occurs(b, x) {
        let i = choose|i: int| 0 <= i < b.len() && column_sigs(b[i]).contains(x);
        assert(ab[a.len() + i] == b[i]);
    }
    if occurs(ab, x) {
        let i = choose|i: int| 0 <= i < ab.len() && column_sigs(ab[i]).contains(x);
        if i < a.len() {
            assert(ab[i] == a[i]);
        } else {
            assert(ab[i] == b[i - a.len()]);
        }
    }
}

proof fn lemma_occurs_all_sigs(columns: Seq<ColumnView>, x: SignatureView)
    ensures
        all_sigs(columns).contains(x) <==> occurs(columns, x),
    decreases columns.len(),
{
    if columns.len() == 0 {
    } else {
        let init = columns.drop_last();
        lemma_occurs_all_sigs(init, x);
        lemma_contains_concat(all_sigs(init), column_sigs(columns.last()), x);
        lemma_occurs_push(init, columns.last(), x);
        assert(init.push(columns.last()) =~= columns);
    }
}

proof fn lemma_occurs_paired(sigs: Seq<SignatureView>, x: SignatureView)
    ensures
        occurs(paired(sigs), x) <==> sigs.contains(x),
{
    let cols = paired(sigs);
    if occurs(cols, x) {
        let k = choose|k: int| 0 <= k < cols.len() && column_sigs(cols[k]).contains(x);
        let bottom = if 2 * k + 1 < sigs.len() { Some(sigs[2 * k + 1]) } else { None };
        lemma_contains_concat(opt_seq(Some(sigs[2 * k])), opt_seq(bottom), x);
        if x == sigs[2 * k] {
            assert(sigs[2 * k] == x);
        } else {
            assert(sigs[2 * k + 1] == x);
        }
    }
    if sigs.contains(x) {
        let j = choose|j: int| 0 <= j < sigs.len() && sigs[j] == x;
        let k = j / 2;
        let bottom = if 2 * k + 1 < sigs.len() { Some(sigs[2 * k + 1]) } else { None };
        lemma_contains_concat(opt_seq(Some(sigs[2 * k])), opt_seq(bottom), x);
        if j == 2 * k {
            assert(opt_seq(Some(sigs[2 * k]))[0] == x);
        } else {
            assert(opt_seq(bottom)[0] == x);
        }
        assert(column_sigs(cols[k]).contains(x));
    }
}

proof fn lemma_occurs_full_height(sigs: Seq<SignatureView>, x: SignatureView)
    ensures
        occurs(sigs.map_values(|s: SignatureView| ColumnView::Ld { table: Some(s) }), x) <==> sigs.contains(x),
{
    let cols = sigs.map_values(|s: SignatureView| ColumnView::Ld { table: Some(s) });
    if occurs(cols, x) {
        let k = choose|k: int| 0 <= k < cols.len() && column_sigs(cols[k]).contains(x);
        assert(column_sigs(cols[k]) == seq![sigs[k]]);
        assert(sigs[k] == x);
    }
    if sigs.contains(x) {
        let j = choose|j: int| 0 <= j < sigs.len() && sigs[j] == x;
        assert(column_sigs(cols[j]) == seq![sigs[j]]);
        assert(column_sigs(cols[j])[0] == x);
    }
}

proof fn lemma_entries_cover_tables(tables: Seq<ManagedTable>, x: SignatureView)
    ensures
        club_sigs(entries_of(tables, false)).contains(x) || ld_sigs(entries_of(tables, false)).contains(x)
            <==> table_sigs(tables).contains(x),
    decreases tables.len(),
{
    if tables.len() > 0 {
        let init = tables.drop_last();
        let last = tables.last();
        lemma_entries_cover_tables(init, x);
        let entries = entries_of(init, false);
        let entry = Entry { signature: last.signature@, client: last.poker_client };
        assert(entries_of(tables, false) == entries.push(entry));
        assert(entries.push(entry).drop_last() =~= entries);
        assert(table_sigs(tables) =~= table_sigs(init).push(last.signature@));
        lemma_contains_push(table_sigs(init), last.signature@, x);
        lemma_contains_push(club_sigs(entries), last.signature@, x);
        lemma_contains_push(ld_sigs(entries), last.signature@, x);
    }
}

proof fn lemma_occurs_pruned(columns: Seq<ColumnView>, live: Seq<SignatureView>, x: SignatureView)
    ensures
        occurs(columns.map_values(|c: ColumnView| pruned_column(c, live)), x) <==> occurs(columns, x) && live.contains(x),
{
    let pruned = columns.map_values(|c: ColumnView| pruned_column(c, live));
    assert forall|i: int| 0 <= i < columns.len() implies
        (#[trigger] column_sigs(pruned[i]).contains(x) <==> column_sigs(columns[i]).contains(x) && live.contains(x)) by {
        lemma_column_pruned(columns[i], live, x);
    }
    if occurs(pruned, x) {
        let i = choose|i: int| 0 <= i < pruned.len() && column_sigs(pruned[i]).contains(x);
        assert(column_sigs(columns[i]).contains(x));
    }
    if occurs(columns, x) && live.contains(x) {
        let i = choose|i: int| 0 <= i < columns.len() && column_sigs(columns[i]).contains(x);
        assert(column_sigs(pruned[i]).contains(x));
    }
}

proof fn lemma_kept(signature: Option<SignatureView>, live: Seq<SignatureView>, x: SignatureView)
    ensures
        opt_seq(keep_if(signature, live)).contains(x) <==> opt_seq(signature).contains(x) && live.contains(x),
{
    match signature {
        Some(s) => {
            assert(opt_seq(signature)[0] == s);
            if live.contains(s) {
                assert(opt_seq(keep_if(signature, live))[0] == s);
            }
        },
        None => {},
    }
}

proof fn lemma_column_pruned(column: ColumnView, live: Seq<SignatureView>, x: SignatureView)
    ensures
        column_sigs(pruned_column(column, live)).contains(x) <==> column_sigs(column).contains(x) && live.contains(x),
{
    match column {
        ColumnView::Club { top, bottom } => {
            lemma_kept(top, live, x);
            lemma_kept(bottom, live, x);
            lemma_contains_concat(opt_seq(top), opt_seq(bottom), x);
            lemma_contains_concat(opt_seq(keep_if(top, live)), opt_seq(keep_if(bottom, live)), x);
        },
        ColumnView::Ld { table } => {
            match table {
                Some(s) => {
                    assert(column_sigs(column)[0] == s);
                },
                None => {},
            }
        },
        ColumnView::Empty => {},
    }
}

proof fn lemma_occurs_pad_two(columns: Seq<ColumnView>, x: SignatureView)
    ensures
        occurs(pad_two(columns), x) <==> occurs(columns, x),
{
    if columns.len() < 2 {
        let pad = Seq::new((2 - columns.len()) as nat, |i: int| ColumnView::Club { top: None, bottom: None });
        lemma_occurs_concat(columns, pad, x);
        if occurs(pad, x) {
            let i = choose|i: int| 0 <= i < pad.len() && column_sigs(pad[i]).contains(x);
            assert(column_sigs(pad[i]) =~= Seq::<SignatureView>::empty());
        }
    }
}

pub open spec fn listed(pending: Seq<Entry>, x: SignatureView) -> bool {
    exists|k: int| 0 <= k < pending.len() && (#[trigger] pending[k]).signature == x
}

proof fn lemma_assign_all(columns: Seq<ColumnView>, pending: Seq<Entry>, x: SignatureView)
    ensures
        occurs(assign_all(columns, pending), x) <==> occurs(columns, x) || listed(pending, x),
    decreases pending.len(),
{
    if pending.len() > 0 {
        let init = pending.drop_last();
        lemma_assign_all(columns, init, x);
        law_assignment_adds_exactly_the_new_table(assign_all(columns, init), pending.last().signature, pending.last().client, x);
        if listed(init, x) {
            let k = choose|k: int| 0 <= k < init.len() && (#[trigger] init[k]).signature == x;
            assert(pending[k] == init[k]);
        }
        if listed(pending, x) {
            let k = choose|k: int| 0 <= k < pending.len() && (#[trigger] pending[k]).signature == x;
            if k < init.len() {
                assert(init[k] == pending[k]);
            }
        }
    }
}

proof fn lemma_pending(tables: Seq<ManagedTable>, present: Seq<SignatureView>, client: PokerClientKind, x: SignatureView)
    ensures
        listed(pending_of(tables, present, client), x) <==> !present.contains(x) && exists|t: int|
            0 <= t < tables.len() && (#[trigger] tables[t]).poker_client == client && tables[t].signature@ == x,
    decreases tables.len(),
{
    if tables.len() > 0 {
        let init = tables.drop_last();
        let last = tables.last();
        lemma_pending(init, present, client, x);
        let rest = pending_of(init, present, client);
        let entry = Entry { signature: last.signature@, client };
        if exists|t: int| 0 <= t < init.len() && (#[trigger] init[t]).poker_client == client && init[t].signature@ == x {
            let t = choose|t: int| 0 <= t < init.len() && (#[trigger] init[t]).poker_client == client && init[t].signature@ == x;
            assert(tables[t] == init[t]);
        }
        if exists|t: int| 0 <= t < tables.len() && (#[trigger] tables[t]).poker_client == client && tables[t].signature@ == x {
            let t = choose|t: int| 0 <= t < tables.len() && (#[trigger] tables[t]).poker_client == client && tables[t].signature@ == x;
            if t < init.len() {
                assert(init[t] == tables[t]);
            }
        }
        if last.poker_client == client && !present.contains(last.signature@) {
            let pushed = rest.push(entry);
            if listed(rest, x) {
                let k = choose|k: int| 0 <= k < rest.len() && (#[trigger] rest[k]).signature == x;
                assert(pushed[k] == rest[k]);
            }
            if last.signature@ == x {
                assert(pushed[rest.len() as int] == entry);
            }
            if listed(pushed, x) {
                let k = choose|k: int| 0 <= k < pushed.len() && (#[trigger] pushed[k]).signature == x;
                if k < rest.len() {
                    assert(rest[k] == pushed[k]);
                }
            }
        }
    }
}

/// After the slot assignments are brought in line with the managed tables, a
/// table signature stands in a slot exactly when a managed table has it: the
/// slot of a table that was closed, ignored or dropped is released, and every
/// managed table has a slot, whether slots are preserved or not.
pub proof fn law_synced_slots_hold_exactly_the_managed_tables(
    columns: Seq<ColumnView>,
    tables: Seq<ManagedTable>,
    preserve: bool,
    holes: int,
    x: SignatureView,
)
    ensures
        occurs(synced(columns, tables, preserve, holes), x) <==> table_sigs(tables).contains(x),
{
    if !preserve {
        let entries = entries_of(tables, false);
        lemma_occurs_concat(paired(club_sigs(entries)), ld_sigs(entries).map_values(|s: SignatureView| ColumnView::Ld { table: Some(s) }), x);
        lemma_occurs_paired(club_sigs(entries), x);
        lemma_occurs_full_height(ld_sigs(entries), x);
        lemma_entries_cover_tables(tables, x);
    } else {
        let live = table_sigs(tables);
        let kept = pad_two(columns.map_values(|c: ColumnView| pruned_column(c, live)));
        let present = all_sigs(kept);
        let clubs = pending_of(tables, present, PokerClientKind::ClubGg);
        let lds = pending_of(tables, present, PokerClientKind::LdPlayer);
        let filled = assign_all(assign_all(kept, clubs), lds);
        law_preserved_footprint(filled, holes + vacated_count(columns, live), x);
        lemma_assign_all(assign_all(kept, clubs), lds, x);
        lemma_assign_all(kept, clubs, x);
        lemma_pending(tables, present, PokerClientKind::ClubGg, x);
        lemma_pending(tables, present, PokerClientKind::LdPlayer, x);
        lemma_occurs_all_sigs(kept, x);
        lemma_occurs_pad_two(columns.map_values(|c: ColumnView| pruned_column(c, live)), x);
        lemma_occurs_pruned(columns, live, x);
        if live.contains(x) {
            let t = choose|t: int| 0 <= t < live.len() && live[t] == x;
            assert(tables[t].signature@ == x);
            match tables[t].poker_client {
                PokerClientKind::ClubGg => {},
                PokerClientKind::LdPlayer => {},
            }
        }
        if listed(clubs, x) || listed(lds, x) {
            let t = choose|t: int| 0 <= t < tables.len() && ((#[trigger] tables[t]).poker_client == PokerClientKind::ClubGg
                || tables[t].poker_client == PokerClientKind::LdPlayer) && tables[t].signature@ == x;
            assert(live[t] == x);
        }
    }
}


// ----- a second sync changes nothing -----

proof fn lemma_counts_concat(a: Seq<ColumnView>, b: Seq<ColumnView>)
    ensures
        owned_count(a + b) == owned_count(a) + owned_count(b),
        unowned_count(a + b) == unowned_count(a) + unowned_count(b),
    decreases b.len(),
{
    if b.len() > 0 {
        lemma_counts_concat(a, b.drop_last());
        assert((a + b).drop_last() =~= a + b.drop_last());
        assert((a + b).last() == b.last());
    } else {
        assert(a + b =~= a);
    }
}

proof fn lemma_counts_total(columns: Seq<ColumnView>)
    ensures
        owned_count(columns) + unowned_count(columns) == columns.len(),
        owned_count(columns) >= 0,
        unowned_count(columns) >= 0,
    decreases columns.len(),
{
    if columns.len() > 0 {
        lemma_counts_total(columns.drop_last());
    }
}

proof fn lemma_counts_blank(n: nat)
    ensures
        owned_count(Seq::new(n, |i: int| ColumnView::Club { top: None, bottom: None })) == 0,
        unowned_count(Seq::new(n, |i: int| ColumnView::Club { top: None, bottom: None })) == n,
    decreases n,
{
    if n > 0 {
        let blank = Seq::new(n, |i: int| ColumnView::Club { top: None, bottom: None });
        let fewer = Seq::new((n - 1) as nat, |i: int| ColumnView::Club { top: None, bottom: None });
        assert(blank.drop_last() =~= fewer);
        lemma_counts_blank((n - 1) as nat);
        assert(column_sigs(blank.last()) =~= Seq::<SignatureView>::empty());
    }
}

proof fn lemma_counts_kept(columns: Seq<ColumnView>, budget: int)
    requires
        budget >= 0,
    ensures
        owned_count(kept_columns(columns, budget)) == owned_count(columns),
        unowned_count(kept_columns(columns, budget)) == (if unowned_count(columns) <= budget {
            unowned_count(columns)
        } else {
            budget
        }),
    decreases columns.len(),
{
    if columns.len() > 0 {
        let init = columns.drop_last();
        lemma_counts_kept(init, budget);
        lemma_counts_total(init);
        let rest = kept_columns(init, budget);
        let last = columns.last();
        if owned(last) || unowned_count(init) < budget {
            assert(rest.push(last).drop_last() =~= rest);
        }
    }
}

proof fn lemma_kept_all(columns: Seq<ColumnView>, budget: int)
    requires
        unowned_count(columns) <= budget,
    ensures
        kept_columns(columns, budget) == columns,
    decreases columns.len(),
{
    if columns.len() > 0 {
        let init = columns.drop_last();
        lemma_counts_total(init);
        lemma_kept_all(init, budget);
        assert(init.push(columns.last()) =~= columns);
    } else {
        assert(kept_columns(columns, budget) =~= columns);
    }
}

proof fn lemma_hole_slots_len(columns: Seq<ColumnView>, skip: int)
    requires
        skip >= 0,
    ensures
        hole_slots(columns, skip).len() == (if unowned_count(columns) > skip { unowned_count(columns) - skip } else { 0 }),
    decreases columns.len(),
{
    if columns.len() > 0 {
        lemma_hole_slots_len(columns.drop_last(), skip);
        lemma_counts_total(columns.drop_last());
    }
}

/// Recording a preserved footprint's holes and normalizing it with them gives
/// the same footprint back.
proof fn lemma_marks_restore(columns: Seq<ColumnView>)
    requires
        columns.len() >= 2,
    ensures
        normalized(columns, hole_marks(columns).len() as int) == columns,
{
    lemma_counts_total(columns);
    let u = unowned_count(columns);
    let skip = u - holes_of(columns);
    lemma_hole_slots_len(columns, skip);
    assert(hole_marks(columns).len() == holes_of(columns));
    lemma_kept_all(columns, baseline(columns) + holes_of(columns));
}

/// A column that nothing leaves is not vacated.
proof fn lemma_nothing_vacated(columns: Seq<ColumnView>, live: Seq<SignatureView>)
    requires
        forall|i: int| 0 <= i < columns.len() ==> pruned_column(#[trigger] columns[i], live) == columns[i],
    ensures
        vacated_count(columns, live) == 0,
    decreases columns.len(),
{
    if columns.len() > 0 {
        let init = columns.drop_last();
        assert forall|i: int| 0 <= i < init.len() implies pruned_column(#[trigger] init[i], live) == init[i] by {
            assert(init[i] == columns[i]);
        }
        lemma_nothing_vacated(init, live);
        assert(pruned_column(columns[columns.len() - 1], live) == columns[columns.len() - 1]);
    }
}

proof fn lemma_column_kept_whole(column: ColumnView, live: Seq<SignatureView>)
    requires
        forall|x: SignatureView| column_sigs(column).contains(x) ==> live.contains(x),
    ensures
        pruned_column(column, live) == column,
{
    match column {
        ColumnView::Club { top, bottom } => {
            lemma_contains_concat(opt_seq(top), opt_seq(bottom), top.unwrap());
            lemma_contains_concat(opt_seq(top), opt_seq(bottom), bottom.unwrap());
            if top is Some {
                assert(opt_seq(top)[0] == top.unwrap());
            }
            if bottom is Some {
                assert(opt_seq(bottom)[0] == bottom.unwrap());
            }
        },
        ColumnView::Ld { table } => {
            if table is Some {
                assert(column_sigs(column)[0] == table.unwrap());
            }
        },
        ColumnView::Empty => {},
    }
}

proof fn lemma_nothing_pending(tables: Seq<ManagedTable>, present: Seq<SignatureView>, client: PokerClientKind)
    requires
        forall|t: int| 0 <= t < tables.len() ==> present.contains(#[trigger] tables[t].signature@),
    ensures
        pending_of(tables, present, client) == Seq::<Entry>::empty(),
    decreases tables.len(),
{
    if tables.len() > 0 {
        let init = tables.drop_last();
        assert forall|t: int| 0 <= t < init.len() implies present.contains(#[trigger] init[t].signature@) by {
            assert(init[t] == tables[t]);
        }
        lemma_nothing_pending(init, present, client);
        assert(present.contains(tables[tables.len() - 1].signature@));
    }
}

/// Bringing the slot assignments in line with the same tables a second time,
/// with the holes the first time recorded, changes nothing: an unchanged
/// desktop keeps its slots and its holes.
pub proof fn law_syncing_again_changes_nothing(columns: Seq<ColumnView>, tables: Seq<ManagedTable>, preserve: bool, holes: int)
    ensures
        synced(synced(columns, tables, preserve, holes), tables, preserve, synced_marks(columns, tables, preserve, holes).len() as int)
            == synced(columns, tables, preserve, holes),
        synced_marks(synced(columns, tables, preserve, holes), tables, preserve, synced_marks(columns, tables, preserve, holes).len() as int)
            == synced_marks(columns, tables, preserve, holes),
{
    if preserve {
        let once = synced(columns, tables, true, holes);
        let live = table_sigs(tables);
        // Every slot of the footprint holds a live table, so nothing is pruned.
        assert forall|i: int| 0 <= i < once.len() implies pruned_column(#[trigger] once[i], live) == once[i] by {
            assert forall|x: SignatureView| column_sigs(once[i]).contains(x) implies live.contains(x) by {
                assert(occurs(once, x));
                law_synced_slots_hold_exactly_the_managed_tables(columns, tables, true, holes, x);
            }
            lemma_column_kept_whole(once[i], live);
        }
        let pruned = once.map_values(|c: ColumnView| pruned_column(c, live));
        assert(pruned =~= once);
        lemma_nothing_vacated(once, live);
        // It is at least two columns wide.
        assert(once.len() >= 2);
        assert(pad_two(pruned) == once);
        // Every table already has a slot, so nothing is pending.
        assert forall|t: int| 0 <= t < tables.len() implies all_sigs(once).contains(#[trigger] tables[t].signature@) by {
            assert(live[t] == tables[t].signature@);
            law_synced_slots_hold_exactly_the_managed_tables(columns, tables, true, holes, tables[t].signature@);
            lemma_occurs_all_sigs(once, tables[t].signature@);
        }
        lemma_nothing_pending(tables, all_sigs(once), PokerClientKind::ClubGg);
        lemma_nothing_pending(tables, all_sigs(once), PokerClientKind::LdPlayer);
        lemma_marks_restore(once);
        assert(synced(once, tables, true, hole_marks(once).len() as int) == normalized(once, hole_marks(once).len() as int + 0));
    }
}
} // verus!
