//! Lookups in the controller's lists: the first item that matches, and the
//! placement outcome recorded for each window that is not a managed table.
use crate::controller::{distinct_ids, status_ids};
use crate::model::{ManagedTable, SignatureView, TableStatus, WindowCandidate, WindowId, WindowSignature, same_signature};
use vstd::prelude::*;

verus! {

/// The index of the first item that satisfies `p`, or the length when none does.
pub open spec fn first_where<T>(items: Seq<T>, p: spec_fn(T) -> bool) -> int
    decreases items.len(),
{
    if items.len() == 0 {
        0
    } else {
        let found = first_where(items.drop_last(), p);
        if found < items.len() - 1 {
            found
        } else if p(items.last()) {
            items.len() - 1
        } else {
            items.len() as int
        }
    }
}

pub proof fn lemma_first_where<T>(items: Seq<T>, p: spec_fn(T) -> bool, i: int)
    requires
        0 <= i <= items.len(),
        forall|k: int| 0 <= k < i ==> !p(#[trigger] items[k]),
        i < items.len() ==> p(items[i]),
    ensures
        first_where(items, p) == i,
    decreases items.len(),
{
    if items.len() > 0 {
        let init = items.drop_last();
        assert forall|k: int| 0 <= k < i && k < init.len() implies !p(#[trigger] init[k]) by {
            assert(init[k] == items[k]);
        }
        if i < init.len() {
            assert(init[i] == items[i]);
            lemma_first_where(init, p, i);
        } else {
            lemma_first_where(init, p, init.len() as int);
        }
    }
}

pub proof fn lemma_first_where_bounds<T>(items: Seq<T>, p: spec_fn(T) -> bool)
    ensures
        0 <= first_where(items, p) <= items.len(),
        first_where(items, p) < items.len() ==> p(items[first_where(items, p)]),
        forall|k: int| 0 <= k < first_where(items, p) ==> !p(#[trigger] items[k]),
    decreases items.len(),
{
    if items.len() > 0 {
        let init = items.drop_last();
        lemma_first_where_bounds(init, p);
        assert forall|k: int| 0 <= k < first_where(items, p) implies !p(#[trigger] items[k]) by {
            if k < init.len() {
                assert(init[k] == items[k]);
            }
        }
        if first_where(init, p) < init.len() {
            assert(init[first_where(init, p)] == items[first_where(init, p)]);
        }
    }
}

/// Tables with the window id `id`.
pub open spec fn table_has_id(id: WindowId) -> spec_fn(ManagedTable) -> bool {
    |t: ManagedTable| t.id == id
}

/// Enabled tables with `signature`.
pub open spec fn enabled_with(signature: SignatureView) -> spec_fn(ManagedTable) -> bool {
    |t: ManagedTable| t.enabled && t.signature@ == signature
}

/// Tables with `signature`.
pub open spec fn table_has_signature(signature: SignatureView) -> spec_fn(ManagedTable) -> bool {
    |t: ManagedTable| t.signature@ == signature
}

/// Candidates with the window id `id`.
pub open spec fn candidate_has_id(id: WindowId) -> spec_fn(WindowCandidate) -> bool {
    |c: WindowCandidate| c.id == id
}

/// The index of the first table with window id `id` (the length when none has it).
pub fn table_index(tables: &Vec<ManagedTable>, id: WindowId) -> (r: usize)
    ensures
        r == first_where(tables@, table_has_id(id)),
{
    let mut index: usize = 0;
    while index < tables.len()
        invariant
            index <= tables.len(),
            forall|k: int| 0 <= k < index ==> !table_has_id(id)(#[trigger] tables@[k]),
        ensures
            index <= tables.len(),
            forall|k: int| 0 <= k < index ==> !table_has_id(id)(#[trigger] tables@[k]),
            index < tables.len() ==> table_has_id(id)(tables@[index as int]),
        decreases tables.len() - index,
    {
        if tables[index].id == id {
            break;
        }
        index += 1;
    }
    proof {
        lemma_first_where(tables@, table_has_id(id), index as int);
    }
    index
}

/// The index of the first table with `signature`.
pub fn signature_table_index(tables: &Vec<ManagedTable>, signature: &WindowSignature) -> (r: usize)
    ensures
        r == first_where(tables@, table_has_signature(signature@)),
{
    let mut index: usize = 0;
    while index < tables.len()
        invariant
            index <= tables.len(),
            forall|k: int| 0 <= k < index ==> !table_has_signature(signature@)(#[trigger] tables@[k]),
        ensures
            index <= tables.len(),
            forall|k: int| 0 <= k < index ==> !table_has_signature(signature@)(#[trigger] tables@[k]),
            index < tables.len() ==> table_has_signature(signature@)(tables@[index as int]),
        decreases tables.len() - index,
    {
        if same_signature(&tables[index].signature, signature) {
            break;
        }
        index += 1;
    }
    proof {
        lemma_first_where(tables@, table_has_signature(signature@), index as int);
    }
    index
}

/// The index of the first candidate with window id `id`.
pub fn candidate_index(candidates: &Vec<WindowCandidate>, id: WindowId) -> (r: usize)
    ensures
        r == first_where(candidates@, candidate_has_id(id)),
{
    let mut index: usize = 0;
    while index < candidates.len()
        invariant
            index <= candidates.len(),
            forall|k: int| 0 <= k < index ==> !candidate_has_id(id)(#[trigger] candidates@[k]),
        ensures
            index <= candidates.len(),
            forall|k: int| 0 <= k < index ==> !candidate_has_id(id)(#[trigger] candidates@[k]),
            index < candidates.len() ==> candidate_has_id(id)(candidates@[index as int]),
        decreases candidates.len() - index,
    {
        if candidates[index].id == id {
            break;
        }
        index += 1;
    }
    proof {
        lemma_first_where(candidates@, candidate_has_id(id), index as int);
    }
    index
}

// ----- recorded outcomes of other windows -----

/// The outcome recorded for `id`.
pub open spec fn status_of(statuses: Seq<(WindowId, TableStatus)>, id: WindowId) -> Option<TableStatus>
    decreases statuses.len(),
{
    if statuses.len() == 0 {
        None
    } else if statuses.last().0 == id {
        Some(statuses.last().1)
    } else {
        status_of(statuses.drop_last(), id)
    }
}

proof fn lemma_status_of_index(statuses: Seq<(WindowId, TableStatus)>, i: int)
    requires
        distinct_ids(status_ids(statuses)),
        0 <= i < statuses.len(),
    ensures
        status_of(statuses, statuses[i].0) == Some(statuses[i].1),
    decreases statuses.len(),
{
    if i < statuses.len() - 1 {
        let init = statuses.drop_last();
        assert(status_ids(statuses)[i] != status_ids(statuses)[statuses.len() - 1]);
        assert(init[i] == statuses[i]);
        assert forall|a: int, b: int| 0 <= a < b < init.len() implies status_ids(init)[a] != status_ids(init)[b] by {
            assert(status_ids(statuses)[a] != status_ids(statuses)[b]);
        }
        lemma_status_of_index(init, i);
    }
}

proof fn lemma_status_of_absent(statuses: Seq<(WindowId, TableStatus)>, id: WindowId)
    requires
        forall|k: int| 0 <= k < statuses.len() ==> (#[trigger] statuses[k]).0 != id,
    ensures
        status_of(statuses, id) is None,
    decreases statuses.len(),
{
    if statuses.len() > 0 {
        let init = statuses.drop_last();
        assert forall|k: int| 0 <= k < init.len() implies (#[trigger] init[k]).0 != id by {
            assert(init[k] == statuses[k]);
        }
        lemma_status_of_absent(init, id);
    }
}

proof fn lemma_status_of_other(
    statuses: Seq<(WindowId, TableStatus)>,
    i: int,
    entry: (WindowId, TableStatus),
    other: WindowId,
)
    requires
        0 <= i < statuses.len(),
        other != statuses[i].0,
        other != entry.0,
    ensures
        status_of(statuses.update(i, entry), other) == status_of(statuses, other),
    decreases statuses.len(),
{
    if statuses.len() > 0 && i < statuses.len() - 1 {
        assert(statuses.update(i, entry).drop_last() =~= statuses.drop_last().update(i, entry));
        lemma_status_of_other(statuses.drop_last(), i, entry, other);
    } else {
        assert(statuses.update(i, entry).drop_last() =~= statuses.drop_last());
    }
}

/// With one entry per id, an id is listed exactly when an outcome is recorded for it.
pub proof fn lemma_status_listed(statuses: Seq<(WindowId, TableStatus)>, id: WindowId)
    requires
        distinct_ids(status_ids(statuses)),
    ensures
        status_ids(statuses).contains(id) <==> status_of(statuses, id) is Some,
{
    if status_ids(statuses).contains(id) {
        let k = choose|k: int| 0 <= k < status_ids(statuses).len() && status_ids(statuses)[k] == id;
        lemma_status_of_index(statuses, k);
    } else {
        assert forall|k: int| 0 <= k < statuses.len() implies (#[trigger] statuses[k]).0 != id by {
            assert(status_ids(statuses)[k] == statuses[k].0);
        }
        lemma_status_of_absent(statuses, id);
    }
}

/// Records `status` for `id`, replacing an earlier outcome.
pub fn record_status(statuses: &mut Vec<(WindowId, TableStatus)>, id: WindowId, status: TableStatus)
    requires
        distinct_ids(status_ids(old(statuses)@)),
    ensures
        distinct_ids(status_ids(final(statuses)@)),
        status_of(final(statuses)@, id) == Some(status),
        forall|other: WindowId| other != id ==> status_of(final(statuses)@, other) == status_of(old(statuses)@, other),
        forall|other: WindowId| status_ids(final(statuses)@).contains(other) <==> (other == id || status_ids(old(statuses)@).contains(other)),
{
    let ghost before = statuses@;
    let mut index: usize = 0;
    while index < statuses.len()
        invariant
            index <= statuses.len(),
            statuses@ == before,
            forall|k: int| 0 <= k < index ==> (#[trigger] before[k]).0 != id,
        ensures
            index <= statuses.len(),
            statuses@ == before,
            forall|k: int| 0 <= k < index ==> (#[trigger] before[k]).0 != id,
            index < statuses.len() ==> before[index as int].0 == id,
        decreases statuses.len() - index,
    {
        if statuses[index].0 == id {
            break;
        }
        index += 1;
    }
    if index < statuses.len() {
        statuses.set(index, (id, status));
        let ghost after = statuses@;
        assert(after == before.update(index as int, (id, status)));
        assert forall|a: int, b: int| 0 <= a < b < after.len() implies status_ids(after)[a] != status_ids(after)[b] by {
            assert(status_ids(before)[a] != status_ids(before)[b]);
            if a == index {
                assert(status_ids(after)[a] == status_ids(before)[a]);
            }
            if b == index {
                assert(status_ids(after)[b] == status_ids(before)[b]);
            }
        }
        proof {
            lemma_status_of_index(after, index as int);
            assert forall|other: WindowId| other != id implies status_of(after, other) == status_of(before, other) by {
                lemma_status_of_other(before, index as int, (id, status), other);
            }
            assert forall|other: WindowId| status_ids(after).contains(other) <==> (other == id || status_ids(before).contains(other)) by {
                if status_ids(before).contains(other) {
                    let k = choose|k: int| 0 <= k < status_ids(before).len() && status_ids(before)[k] == other;
                    assert(status_ids(after)[k] == other);
                }
                if status_ids(after).contains(other) {
                    let k = choose|k: int| 0 <= k < status_ids(after).len() && status_ids(after)[k] == other;
                    if k != index {
                        assert(status_ids(before)[k] == other);
                    }
                }
                if other == id {
                    assert(status_ids(after)[index as int] == id);
                }
            }
        }
    } else {
        statuses.push((id, status));
        let ghost after = statuses@;
        assert(after.drop_last() =~= before);
        assert forall|a: int, b: int| 0 <= a < b < after.len() implies status_ids(after)[a] != status_ids(after)[b] by {
            if b < before.len() {
                assert(status_ids(before)[a] != status_ids(before)[b]);
            } else {
                assert(before[a].0 != id);
            }
        }
        assert(status_ids(after) =~= status_ids(before).push(id));
        assert forall|other: WindowId| status_ids(after).contains(other) <==> (other == id || status_ids(before).contains(other)) by {
            if status_ids(after).contains(other) {
                let k = choose|k: int| 0 <= k < status_ids(after).len() && status_ids(after)[k] == other;
                if k < before.len() {
                    assert(status_ids(before)[k] == other);
                }
            }
            if status_ids(before).contains(other) {
                let k = choose|k: int| 0 <= k < status_ids(before).len() && status_ids(before)[k] == other;
                assert(status_ids(after)[k] == other);
            }
            if other == id {
                assert(status_ids(after)[before.len() as int] == id);
            }
        }
        proof {
            lemma_status_of_index(after, before.len() as int);
            assert forall|other: WindowId| other != id implies status_of(after, other) == status_of(before, other) by {
                assert(after.drop_last() =~= before);
            }
        }
    }
}

/// Forgets the outcome recorded for `id`.
pub fn forget_status(statuses: &mut Vec<(WindowId, TableStatus)>, id: WindowId)
    requires
        distinct_ids(status_ids(old(statuses)@)),
    ensures
        distinct_ids(status_ids(final(statuses)@)),
        status_of(final(statuses)@, id) is None,
        forall|other: WindowId| other != id ==> status_of(final(statuses)@, other) == status_of(old(statuses)@, other),
        forall|other: WindowId| status_ids(final(statuses)@).contains(other) <==> (other != id && status_ids(old(statuses)@).contains(other)),
{
    let ghost before = statuses@;
    let mut index: usize = 0;
    while index < statuses.len()
        invariant
            index <= statuses.len(),
            statuses@ == before,
            forall|k: int| 0 <= k < index ==> (#[trigger] before[k]).0 != id,
        ensures
            index <= statuses.len(),
            statuses@ == before,
            forall|k: int| 0 <= k < index ==> (#[trigger] before[k]).0 != id,
            index < statuses.len() ==> before[index as int].0 == id,
        decreases statuses.len() - index,
    {
        if statuses[index].0 == id {
            break;
        }
        index += 1;
    }
    if index < statuses.len() {
        statuses.remove(index);
        let ghost after = statuses@;
        let ghost i = index as int;
        assert(after == before.remove(i));
        assert forall|k: int| 0 <= k < after.len() implies (#[trigger] after[k]) == before[if k < i { k } else { k + 1 }] by {}
        assert forall|a: int, b: int| 0 <= a < b < after.len() implies status_ids(after)[a] != status_ids(after)[b] by {
            let a2 = if a < i { a } else { a + 1 };
            let b2 = if b < i { b } else { b + 1 };
            assert(after[a] == before[a2]);
            assert(after[b] == before[b2]);
            assert(status_ids(before)[a2] != status_ids(before)[b2]);
        }
        proof {
            assert forall|k: int| 0 <= k < after.len() implies (#[trigger] after[k]).0 != id by {
                let k2 = if k < i { k } else { k + 1 };
                assert(after[k] == before[k2]);
                assert(status_ids(before)[k2] != status_ids(before)[i]);
            }
            lemma_status_of_absent(after, id);
            assert forall|other: WindowId| other != id implies status_of(after, other) == status_of(before, other) by {
                if exists|k: int| 0 <= k < before.len() && (#[trigger] before[k]).0 == other {
                    let k = choose|k: int| 0 <= k < before.len() && (#[trigger] before[k]).0 == other;
                    lemma_status_of_index(before, k);
                    let k2 = if k < i { k } else { k - 1 };
                    assert(after[k2] == before[k]);
                    lemma_status_of_index(after, k2);
                } else {
                    lemma_status_of_absent(before, other);
                    assert forall|k: int| 0 <= k < after.len() implies (#[trigger] after[k]).0 != other by {
                        let k2 = if k < i { k } else { k + 1 };
                        assert(after[k] == before[k2]);
                    }
                    lemma_status_of_absent(after, other);
                }
            }
            assert forall|other: WindowId| status_ids(after).contains(other) <==> (other != id && status_ids(before).contains(other)) by {
                if status_ids(after).contains(other) {
                    let k = choose|k: int| 0 <= k < status_ids(after).len() && status_ids(after)[k] == other;
                    let k2 = if k < i { k } else { k + 1 };
                    assert(after[k] == before[k2]);
                    assert(status_ids(before)[k2] == other);
                }
                if other != id && status_ids(before).contains(other) {
                    let k = choose|k: int| 0 <= k < status_ids(before).len() && status_ids(before)[k] == other;
                    assert(k != i);
                    let k2 = if k < i { k } else { k - 1 };
                    assert(after[k2] == before[k]);
                    assert(status_ids(after)[k2] == other);
                }
            }
        }
    } else {
        proof {
            lemma_status_of_absent(before, id);
            assert forall|other: WindowId| status_ids(before).contains(other) implies other != id by {
                let k = choose|k: int| 0 <= k < status_ids(before).len() && status_ids(before)[k] == other;
                assert(before[k].0 == other);
            }
        }
    }
}

} // verus!
