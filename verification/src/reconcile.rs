//! Discovery: which of the windows found on the desktop are managed tables,
//! the order in which the panel lists the windows, and what discovery reports.
use crate::arrangement::{same_candidates_but_rect, same_tables_but_placement, can_park};
use crate::config::AppConfig;
use crate::controller::{
    Controller, candidate_disposition, disposition_of, candidate_ids, distinct_ids, should_manage, sort_tables_by,
    stably_reordered, status_ids, table_ids, sig_views, order_keys, synced, synced_marks, table_sigs,
};
use crate::model::{MonitorInfo, SignatureView, columns_view};
use crate::slots::all_sigs;
use crate::layout::{DEFAULT_RATIO_SCALED, default_aspect_ratio};
use crate::model::{
    AspectRatio, CandidateDisposition, ManagedTable, PokerClientKind, TableStatus, WindowBackend,
    WindowCandidate, WindowId,
};
use crate::ordering::{arranged, is_permutation, key_of, lemma_arranged_elements, make_key, permuted, stable_order, stably_sorted};
use crate::tracking::{first_where, lemma_first_where_bounds, table_has_id, table_index, status_of};
use vstd::prelude::*;

verus! {

// ----- the order of the listed windows -----

/// The index of the last candidate with window id `id`.
pub open spec fn last_with_id(candidates: Seq<WindowCandidate>, id: WindowId) -> Option<int>
    decreases candidates.len(),
{
    if candidates.len() == 0 {
        None
    } else if candidates.last().id == id {
        Some(candidates.len() - 1)
    } else {
        last_with_id(candidates.drop_last(), id)
    }
}

proof fn lemma_last_with_id(candidates: Seq<WindowCandidate>, id: WindowId)
    ensures
        match last_with_id(candidates, id) {
            Some(i) => 0 <= i < candidates.len() && candidates[i].id == id,
            None => forall|k: int| 0 <= k < candidates.len() ==> (#[trigger] candidates[k]).id != id,
        },
    decreases candidates.len(),
{
    if candidates.len() > 0 {
        let init = candidates.drop_last();
        lemma_last_with_id(init, id);
        if candidates.last().id != id {
            if let Some(i) = last_with_id(init, id) {
                assert(candidates[i] == init[i]);
            } else {
                assert forall|k: int| 0 <= k < candidates.len() implies (#[trigger] candidates[k]).id != id by {
                    if k < init.len() {
                        assert(candidates[k] == init[k]);
                    }
                }
            }
        }
    }
}

fn last_index_with_id(candidates: &Vec<WindowCandidate>, id: WindowId) -> (r: Option<usize>)
    ensures
        match r {
            Some(i) => last_with_id(candidates@, id) == Some(i as int),
            None => last_with_id(candidates@, id) is None,
        },
{
    let mut index = candidates.len();
    assert(candidates@.subrange(0, index as int) =~= candidates@);
    while index > 0
        invariant
            index <= candidates.len(),
            last_with_id(candidates@, id) == last_with_id(candidates@.subrange(0, index as int), id),
        decreases index,
    {
        assert(candidates@.subrange(0, index - 1) =~= candidates@.subrange(0, index as int).drop_last());
        if candidates[index - 1].id == id {
            return Some(index - 1);
        }
        index -= 1;
    }
    None
}

/// Where a discovered window is listed: windows listed before keep their
/// earlier place and come first; new windows follow in discovery order.
pub open spec fn session_key(
    previous: Seq<WindowCandidate>,
    discovered: Seq<WindowCandidate>,
    candidate: WindowCandidate,
) -> u128 {
    match last_with_id(previous, candidate.id) {
        Some(i) => key_of(0, i as usize),
        None => match last_with_id(discovered, candidate.id) {
            Some(j) => key_of(1, j as usize),
            None => key_of(1, 0),
        },
    }
}

pub open spec fn session_keys(previous: Seq<WindowCandidate>, discovered: Seq<WindowCandidate>) -> Seq<u128> {
    discovered.map_values(|c: WindowCandidate| session_key(previous, discovered, c))
}

/// The discovered windows in the panel's order: those listed before keep
/// their earlier relative order and come first, the new ones follow in the
/// order they were discovered.
pub fn session_order(previous: &Vec<WindowCandidate>, discovered: &Vec<WindowCandidate>) -> (r: Vec<
    WindowCandidate,
>)
    ensures
        stably_reordered(discovered@, r@, session_keys(previous@, discovered@)),
        r@.len() == discovered@.len(),
{
    let ghost target = session_keys(previous@, discovered@);
    let mut keys: Vec<u128> = Vec::new();
    let mut index: usize = 0;
    while index < discovered.len()
        invariant
            index <= discovered.len(),
            target == session_keys(previous@, discovered@),
            keys@ == target.subrange(0, index as int),
        decreases discovered.len() - index,
    {
        let id = discovered[index].id;
        let key = match last_index_with_id(previous, id) {
            Some(i) => make_key(0, i),
            None => match last_index_with_id(discovered, id) {
                Some(j) => make_key(1, j),
                None => make_key(1, 0),
            },
        };
        keys.push(key);
        index += 1;
        assert(keys@ =~= target.subrange(0, index as int));
    }
    assert(keys@ =~= target);
    let order = stable_order(&keys);
    assert forall|a: WindowCandidate, b: WindowCandidate| vstd::pervasive::strictly_cloned(a, b) implies a == b by {}
    let sorted = permuted(discovered, &order);
    assert(is_permutation(order@, discovered@.len() as int) && stably_sorted(target, order@) && sorted@ == arranged(discovered@, order@));
    sorted
}

/// A reordering keeps the elements.
pub proof fn lemma_reordered_elements<T>(before: Seq<T>, after: Seq<T>, keys: Seq<u128>)
    requires
        stably_reordered(before, after, keys),
    ensures
        after.len() == before.len(),
        forall|i: int| 0 <= i < after.len() ==> before.contains(#[trigger] after[i]),
        forall|j: int| 0 <= j < before.len() ==> after.contains(#[trigger] before[j]),
{
    let order = choose|order: Seq<usize>|
        is_permutation(order, before.len() as int) && stably_sorted(keys, order) && after
            == arranged(before, order);
    lemma_arranged_elements(before, order);
}

// ----- the managed tables -----

/// A table brought up to date with its window: label, signature and
/// rectangle follow the window; an LDPlayer window also brings its ratio; an
/// enabled table remembers the rectangle as its active one.
pub open spec fn refreshed(t: ManagedTable, c: WindowCandidate) -> ManagedTable {
    ManagedTable {
        id: t.id,
        label: c.label,
        signature: c.signature,
        poker_client: t.poker_client,
        preferred_aspect_ratio: if c.poker_client == Some(PokerClientKind::LdPlayer) {
            c.preferred_aspect_ratio
        } else {
            t.preferred_aspect_ratio
        },
        enabled: t.enabled,
        last_active_rect: if t.enabled {
            c.rect
        } else {
            t.last_active_rect
        },
        current_rect: c.rect,
        status: t.status,
    }
}

/// The tables whose window is still there, each brought up to date with it.
pub open spec fn refreshed_tables(tables: Seq<ManagedTable>, candidates: Seq<WindowCandidate>) -> Seq<
    ManagedTable,
>
    decreases tables.len(),
{
    if tables.len() == 0 {
        Seq::empty()
    } else {
        let rest = refreshed_tables(tables.drop_last(), candidates);
        match last_with_id(candidates, tables.last().id) {
            Some(k) => rest.push(refreshed(tables.last(), candidates[k])),
            None => rest,
        }
    }
}

/// Every id of `ids` is the id of one of `candidates`.
pub open spec fn ids_listed(ids: Seq<WindowId>, candidates: Seq<WindowCandidate>) -> bool {
    forall|i: int| 0 <= i < ids.len() ==> candidate_ids(candidates).contains(#[trigger] ids[i])
}

proof fn lemma_refreshed_tables(tables: Seq<ManagedTable>, candidates: Seq<WindowCandidate>)
    requires
        distinct_ids(table_ids(tables)),
    ensures
        distinct_ids(table_ids(refreshed_tables(tables, candidates))),
        ids_listed(table_ids(refreshed_tables(tables, candidates)), candidates),
        forall|x: WindowId| table_ids(refreshed_tables(tables, candidates)).contains(x) ==> table_ids(tables).contains(x),
    decreases tables.len(),
{
    let out = refreshed_tables(tables, candidates);
    if tables.len() > 0 {
        let init = tables.drop_last();
        assert forall|a: int, b: int| 0 <= a < b < init.len() implies table_ids(init)[a] != table_ids(init)[b] by {
            assert(table_ids(tables)[a] != table_ids(tables)[b]);
        }
        lemma_refreshed_tables(init, candidates);
        let rest = refreshed_tables(init, candidates);
        let last = tables.last();
        assert forall|x: WindowId| table_ids(rest).contains(x) implies x != last.id by {
            assert(table_ids(init).contains(x));
            let k = choose|k: int| 0 <= k < table_ids(init).len() && table_ids(init)[k] == x;
            assert(table_ids(tables)[k] != table_ids(tables)[tables.len() - 1]);
        }
        lemma_last_with_id(candidates, last.id);
        match last_with_id(candidates, last.id) {
            Some(k) => {
                let t = refreshed(last, candidates[k]);
                assert(table_ids(out) =~= table_ids(rest).push(t.id));
                assert(candidate_ids(candidates)[k] == last.id);
                assert forall|a: int, b: int| 0 <= a < b < table_ids(out).len() implies table_ids(out)[a] != table_ids(out)[b] by {
                    if b == table_ids(out).len() - 1 {
                        assert(table_ids(rest).contains(table_ids(out)[a]));
                    }
                }
                assert forall|x: WindowId| table_ids(out).contains(x) implies table_ids(tables).contains(x) by {
                    let k2 = choose|k2: int| 0 <= k2 < table_ids(out).len() && table_ids(out)[k2] == x;
                    if k2 < rest.len() {
                        assert(table_ids(rest).contains(x));
                        assert(table_ids(init).contains(x));
                        let k3 = choose|k3: int| 0 <= k3 < table_ids(init).len() && table_ids(init)[k3] == x;
                        assert(table_ids(tables)[k3] == x);
                    } else {
                        assert(table_ids(tables)[tables.len() - 1] == x);
                    }
                }
                assert forall|i: int| 0 <= i < table_ids(out).len() implies candidate_ids(candidates).contains(#[trigger] table_ids(out)[i]) by {
                    if i < rest.len() {
                        assert(table_ids(out)[i] == table_ids(rest)[i]);
                    }
                }
            },
            None => {
                assert forall|x: WindowId| table_ids(out).contains(x) implies table_ids(tables).contains(x) by {
                    assert(table_ids(init).contains(x));
                    let k3 = choose|k3: int| 0 <= k3 < table_ids(init).len() && table_ids(init)[k3] == x;
                    assert(table_ids(tables)[k3] == x);
                }
            },
        }
    }
}

/// The tables whose window is still listed, brought up to date.
pub fn refresh_tables(tables: &Vec<ManagedTable>, candidates: &Vec<WindowCandidate>) -> (r: Vec<
    ManagedTable,
>)
    ensures
        r@ == refreshed_tables(tables@, candidates@),
{
    let mut out: Vec<ManagedTable> = Vec::new();
    let mut index: usize = 0;
    while index < tables.len()
        invariant
            index <= tables.len(),
            out@ == refreshed_tables(tables@.subrange(0, index as int), candidates@),
        decreases tables.len() - index,
    {
        assert(tables@.subrange(0, index + 1).drop_last() =~= tables@.subrange(0, index as int));
        let table = &tables[index];
        proof {
            lemma_last_with_id(candidates@, table.id);
        }
        match last_index_with_id(candidates, table.id) {
            Some(k) => {
                let candidate = &candidates[k];
                let ratio = match candidate.poker_client {
                    Some(PokerClientKind::LdPlayer) => candidate.preferred_aspect_ratio,
                    _ => table.preferred_aspect_ratio,
                };
                out.push(ManagedTable {
                    id: table.id,
                    label: candidate.label.clone(),
                    signature: candidate.signature.clone(),
                    poker_client: table.poker_client,
                    preferred_aspect_ratio: ratio,
                    enabled: table.enabled,
                    last_active_rect: if table.enabled {
                        candidate.rect
                    } else {
                        table.last_active_rect
                    },
                    current_rect: candidate.rect,
                    status: table.status.clone(),
                });
            },
            None => {},
        }
        index += 1;
    }
    assert(tables@.subrange(0, index as int) =~= tables@);
    out
}

/// A newly managed table for `candidate`: enabled unless its saved choice is
/// Park, ClubGG unless LDPlayer, at 4:3 unless LDPlayer reports its own ratio.
pub open spec fn new_table(candidate: WindowCandidate, disposition: Option<CandidateDisposition>) -> ManagedTable {
    ManagedTable {
        id: candidate.id,
        label: candidate.label,
        signature: candidate.signature,
        poker_client: match candidate.poker_client {
            Some(kind) => kind,
            None => PokerClientKind::ClubGg,
        },
        preferred_aspect_ratio: if candidate.poker_client == Some(PokerClientKind::LdPlayer) {
            candidate.preferred_aspect_ratio
        } else {
            AspectRatio { scaled: DEFAULT_RATIO_SCALED }
        },
        enabled: disposition != Some(CandidateDisposition::Parked),
        last_active_rect: candidate.rect,
        current_rect: candidate.rect,
        status: TableStatus::Ready,
    }
}

/// The tables after taking in one discovered window: a window to manage that
/// has no table gets one; a table whose window should not be managed goes.
pub open spec fn adopt_one(tables: Seq<ManagedTable>, config: AppConfig, candidate: WindowCandidate) -> Seq<ManagedTable> {
    let disposition = candidate_disposition(config, candidate);
    let found = first_where(tables, table_has_id(candidate.id));
    if should_manage(candidate, disposition) && found == tables.len() {
        tables.push(new_table(candidate, disposition))
    } else if !should_manage(candidate, disposition) && found < tables.len() {
        tables.remove(found)
    } else {
        tables
    }
}

/// The tables after taking in every discovered window in turn.
pub open spec fn adopted(tables: Seq<ManagedTable>, config: AppConfig, candidates: Seq<WindowCandidate>) -> Seq<ManagedTable>
    decreases candidates.len(),
{
    if candidates.len() == 0 {
        tables
    } else {
        adopt_one(adopted(tables, config, candidates.drop_last()), config, candidates.last())
    }
}

/// Some table has window id `id`.
pub open spec fn has_table(tables: Seq<ManagedTable>, id: WindowId) -> bool {
    table_ids(tables).contains(id)
}

/// Each table is backed by a candidate that should be managed.
pub open spec fn backed(tables: Seq<ManagedTable>, config: AppConfig, candidates: Seq<WindowCandidate>) -> bool {
    forall|i: int|
        0 <= i < tables.len() ==> exists|k: int|
            0 <= k < candidates.len() && (#[trigger] candidates[k]).id == (#[trigger] tables[i]).id
                && should_manage(candidates[k], candidate_disposition(config, candidates[k]))
}

/// Each candidate that should be managed has a table.
pub open spec fn covered(tables: Seq<ManagedTable>, config: AppConfig, candidates: Seq<WindowCandidate>) -> bool {
    forall|k: int|
        0 <= k < candidates.len() && should_manage(
            #[trigger] candidates[k],
            candidate_disposition(config, candidates[k]),
        ) ==> has_table(tables, candidates[k].id)
}

/// A ClubGG lobby never becomes a managed table, so it never takes a table
/// slot or preserved space: when every table belongs to a window that should
/// be managed and the listed windows have distinct ids, no table's window is
/// a lobby.
pub proof fn law_lobbies_never_become_tables(
    tables: Seq<ManagedTable>,
    config: AppConfig,
    candidates: Seq<WindowCandidate>,
    i: int,
    k: int,
)
    requires
        backed(tables, config, candidates),
        distinct_ids(candidate_ids(candidates)),
        0 <= i < tables.len(),
        0 <= k < candidates.len(),
        candidates[k].id == tables[i].id,
    ensures
        !candidates[k].is_clubgg_lobby,
{
    let j = choose|j: int|
        0 <= j < candidates.len() && (#[trigger] candidates[j]).id == tables[i].id
            && should_manage(candidates[j], candidate_disposition(config, candidates[j]));
    if j != k {
        let (a, b) = if j < k { (j, k) } else { (k, j) };
        assert(candidate_ids(candidates)[a] == candidate_ids(candidates)[b]);
    }
}

proof fn lemma_adopted(tables: Seq<ManagedTable>, config: AppConfig, candidates: Seq<WindowCandidate>, n: int)
    requires
        distinct_ids(table_ids(tables)),
        ids_listed(table_ids(tables), candidates),
        0 <= n <= candidates.len(),
    ensures
        ({
            let out = adopted(tables, config, candidates.subrange(0, n));
            &&& distinct_ids(table_ids(out))
            &&& ids_listed(table_ids(out), candidates)
            &&& forall|i: int|
                0 <= i < out.len() ==> (exists|k: int|
                    0 <= k < n && (#[trigger] candidates[k]).id == (#[trigger] out[i]).id
                        && should_manage(candidates[k], candidate_disposition(config, candidates[k])))
                    || (forall|k: int| 0 <= k < n ==> (#[trigger] candidates[k]).id != out[i].id)
            &&& distinct_ids(candidate_ids(candidates)) ==> forall|k: int|
                0 <= k < n && should_manage(
                    #[trigger] candidates[k],
                    candidate_disposition(config, candidates[k]),
                ) ==> has_table(out, candidates[k].id)
        }),
    decreases n,
{
    let prefix = candidates.subrange(0, n);
    let out = adopted(tables, config, prefix);
    if n == 0 {
        assert(prefix =~= Seq::<WindowCandidate>::empty());
    } else {
        lemma_adopted(tables, config, candidates, n - 1);
        assert(prefix.drop_last() =~= candidates.subrange(0, n - 1));
        let prev = adopted(tables, config, candidates.subrange(0, n - 1));
        let c = candidates[n - 1];
        assert(prefix.last() == c);
        assert(out == adopt_one(prev, config, c));
        let disposition = candidate_disposition(config, c);
        let found = first_where(prev, table_has_id(c.id));
        lemma_first_where_bounds(prev, table_has_id(c.id));
        if should_manage(c, disposition) && found == prev.len() {
            let t = new_table(c, disposition);
            assert(out == prev.push(t));
            assert forall|i: int| 0 <= i < table_ids(out).len() implies candidate_ids(candidates).contains(#[trigger] table_ids(out)[i]) by {
                if i == out.len() - 1 {
                    assert(candidate_ids(candidates)[n - 1] == c.id);
                } else {
                    assert(table_ids(out)[i] == table_ids(prev)[i]);
                }
            }
            assert forall|a: int, b: int| 0 <= a < b < out.len() implies table_ids(out)[a] != table_ids(out)[b] by {
                if b == out.len() - 1 {
                    assert(!table_has_id(c.id)(prev[a]));
                } else {
                    assert(table_ids(prev)[a] != table_ids(prev)[b]);
                }
            }
            assert forall|i: int| 0 <= i < out.len() implies (exists|k: int|
                0 <= k < n && (#[trigger] candidates[k]).id == (#[trigger] out[i]).id
                    && should_manage(candidates[k], candidate_disposition(config, candidates[k])))
                || (forall|k: int| 0 <= k < n ==> (#[trigger] candidates[k]).id != out[i].id) by {
                if i == out.len() - 1 {
                    assert(candidates[n - 1].id == out[i].id);
                } else {
                    assert(out[i] == prev[i]);
                    assert(!table_has_id(c.id)(prev[i]));
                }
            }
            assert forall|k: int|
                distinct_ids(candidate_ids(candidates)) && 0 <= k < n && should_manage(
                    #[trigger] candidates[k],
                    candidate_disposition(config, candidates[k]),
                ) implies has_table(out, candidates[k].id) by {
                if k == n - 1 {
                    assert(table_ids(out)[out.len() - 1] == c.id);
                    assert(table_ids(out).contains(c.id));
                } else {
                    assert(has_table(prev, candidates[k].id));
                    let j = choose|j: int| 0 <= j < table_ids(prev).len() && table_ids(prev)[j] == candidates[k].id;
                    assert(table_ids(out)[j] == candidates[k].id);
                }
            }
        } else if !should_manage(c, disposition) && found < prev.len() {
            assert(out == prev.remove(found));
            assert forall|i: int| 0 <= i < out.len() implies #[trigger] out[i] == prev[if i < found { i } else { i + 1 }] by {}
            assert forall|i: int| 0 <= i < table_ids(out).len() implies candidate_ids(candidates).contains(#[trigger] table_ids(out)[i]) by {
                let i2 = if i < found { i } else { i + 1 };
                assert(table_ids(out)[i] == table_ids(prev)[i2]);
            }
            assert forall|a: int, b: int| 0 <= a < b < out.len() implies table_ids(out)[a] != table_ids(out)[b] by {
                let a2 = if a < found { a } else { a + 1 };
                let b2 = if b < found { b } else { b + 1 };
                assert(out[a] == prev[a2]);
                assert(out[b] == prev[b2]);
                assert(table_ids(prev)[a2] != table_ids(prev)[b2]);
            }
            assert forall|i: int| 0 <= i < out.len() implies (exists|k: int|
                0 <= k < n && (#[trigger] candidates[k]).id == (#[trigger] out[i]).id
                    && should_manage(candidates[k], candidate_disposition(config, candidates[k])))
                || (forall|k: int| 0 <= k < n ==> (#[trigger] candidates[k]).id != out[i].id) by {
                let i2 = if i < found { i } else { i + 1 };
                assert(out[i] == prev[i2]);
                assert(table_ids(prev)[i2] != table_ids(prev)[found]);
                assert(prev[i2].id != c.id);
            }
            assert forall|k: int|
                distinct_ids(candidate_ids(candidates)) && 0 <= k < n && should_manage(
                    #[trigger] candidates[k],
                    candidate_disposition(config, candidates[k]),
                ) implies has_table(out, candidates[k].id) by {
                assert(k != n - 1);
                assert(candidate_ids(candidates)[k] != candidate_ids(candidates)[n - 1]);
                let j = choose|j: int| 0 <= j < table_ids(prev).len() && table_ids(prev)[j] == candidates[k].id;
                assert(j != found);
                let j2 = if j < found { j } else { j - 1 };
                assert(out[j2] == prev[j]);
                assert(table_ids(out)[j2] == candidates[k].id);
            }
        } else {
            assert(out == prev);
            assert forall|i: int| 0 <= i < out.len() implies (exists|k: int|
                0 <= k < n && (#[trigger] candidates[k]).id == (#[trigger] out[i]).id
                    && should_manage(candidates[k], candidate_disposition(config, candidates[k])))
                || (forall|k: int| 0 <= k < n ==> (#[trigger] candidates[k]).id != out[i].id) by {
                if out[i].id == c.id {
                    assert(table_has_id(c.id)(prev[i]));
                    assert(found < prev.len());
                    assert(candidates[n - 1].id == out[i].id);
                }
            }
            assert forall|k: int|
                distinct_ids(candidate_ids(candidates)) && 0 <= k < n && should_manage(
                    #[trigger] candidates[k],
                    candidate_disposition(config, candidates[k]),
                ) implies has_table(out, candidates[k].id) by {
                if k == n - 1 {
                    assert(found < prev.len());
                    assert(table_ids(prev)[found] == c.id);
                    assert(table_ids(out).contains(c.id));
                }
            }
        }
    }
}

/// The saved table order after taking in every discovered window in turn: a
/// window that becomes a table adds its name when the order lacks it.
pub open spec fn grown_order(
    order: Seq<SignatureView>,
    tables: Seq<ManagedTable>,
    config: AppConfig,
    candidates: Seq<WindowCandidate>,
) -> Seq<SignatureView>
    decreases candidates.len(),
{
    if candidates.len() == 0 {
        order
    } else {
        let before = grown_order(order, tables, config, candidates.drop_last());
        let so_far = adopted(tables, config, candidates.drop_last());
        let candidate = candidates.last();
        if should_manage(candidate, candidate_disposition(config, candidate)) && first_where(
            so_far,
            table_has_id(candidate.id),
        ) == so_far.len() && !before.contains(candidate.signature@) {
            before.push(candidate.signature@)
        } else {
            before
        }
    }
}

/// Only the detection rules and the default for applications decide what
/// taking in windows does.
proof fn lemma_adoption_ignores_other_settings(
    order: Seq<SignatureView>,
    tables: Seq<ManagedTable>,
    config: AppConfig,
    other: AppConfig,
    candidates: Seq<WindowCandidate>,
)
    requires
        config.detection_rules == other.detection_rules,
        config.default_application_mode == other.default_application_mode,
    ensures
        adopted(tables, config, candidates) == adopted(tables, other, candidates),
        grown_order(order, tables, config, candidates) == grown_order(order, tables, other, candidates),
    decreases candidates.len(),
{
    if candidates.len() > 0 {
        lemma_adoption_ignores_other_settings(order, tables, config, other, candidates.drop_last());
        assert(config.rules() == other.rules());
        assert(candidate_disposition(config, candidates.last()) == candidate_disposition(other, candidates.last()));
    }
}

/// Tables become managed and stop being managed as their windows are taken in.
/// Returns whether a new signature joined the saved table order.
fn adopt_candidates(
    tables: &mut Vec<ManagedTable>,
    table_order: &mut Vec<crate::model::WindowSignature>,
    config: &AppConfig,
    candidates: &Vec<WindowCandidate>,
) -> (grew: bool)
    requires
        distinct_ids(table_ids(old(tables)@)),
    ensures
        final(tables)@ == adopted(old(tables)@, *config, candidates@),
        sig_views(final(table_order)@) == grown_order(sig_views(old(table_order)@), old(tables)@, *config, candidates@),
        grew == (sig_views(final(table_order)@) != sig_views(old(table_order)@)),
        !grew ==> final(table_order)@ == old(table_order)@,
{
    let mut grew = false;
    let ghost start = tables@;
    let mut index: usize = 0;
    while index < candidates.len()
        invariant
            index <= candidates.len(),
            tables@ == adopted(start, *config, candidates@.subrange(0, index as int)),
            sig_views(table_order@) == grown_order(sig_views(old(table_order)@), start, *config, candidates@.subrange(0, index as int)),
            sig_views(old(table_order)@).is_prefix_of(sig_views(table_order@)),
            grew == (table_order@.len() != old(table_order)@.len()),
            !grew ==> table_order@ == old(table_order)@,
        decreases candidates.len() - index,
    {
        assert(candidates@.subrange(0, index + 1).drop_last() =~= candidates@.subrange(0, index as int));
        let candidate = &candidates[index];
        let disposition = disposition_of(config, candidate);
        let manage = !candidate.is_clubgg_lobby && match disposition {
            Some(CandidateDisposition::Table) | Some(CandidateDisposition::Parked) => true,
            Some(_) => false,
            None => candidate.likely_table,
        };
        let found = table_index(tables, candidate.id);
        if manage && found == tables.len() {
            if !crate::slots::list_holds(table_order, &candidate.signature) {
                let ghost order_before = table_order@;
                table_order.push(candidate.signature.clone());
                grew = true;
                assert(sig_views(table_order@) =~= sig_views(order_before).push(candidate.signature@));
            }
            let poker_client = match candidate.poker_client {
                Some(kind) => kind,
                None => PokerClientKind::ClubGg,
            };
            let ratio = match candidate.poker_client {
                Some(PokerClientKind::LdPlayer) => candidate.preferred_aspect_ratio,
                _ => default_aspect_ratio(),
            };
            let enabled = match disposition {
                Some(CandidateDisposition::Parked) => false,
                _ => true,
            };
            tables.push(ManagedTable {
                id: candidate.id,
                label: candidate.label.clone(),
                signature: candidate.signature.clone(),
                poker_client,
                preferred_aspect_ratio: ratio,
                enabled,
                last_active_rect: candidate.rect,
                current_rect: candidate.rect,
                status: TableStatus::Ready,
            });
        } else if !manage && found < tables.len() {
            tables.remove(found);
        }
        index += 1;
    }
    assert(candidates@.subrange(0, index as int) =~= candidates@);
    proof {
        if grew {
            assert(sig_views(table_order@).len() != sig_views(old(table_order)@).len());
        }
    }
    grew
}

// ----- what changed -----

/// The ids of the windows sent to the top-right corner or the free strip.
pub open spec fn positioned_ids(config: AppConfig, candidates: Seq<WindowCandidate>) -> Seq<WindowId>
    decreases candidates.len(),
{
    if candidates.len() == 0 {
        Seq::empty()
    } else {
        let rest = positioned_ids(config, candidates.drop_last());
        if crate::controller::is_positioned(candidate_disposition(config, candidates.last())) {
            rest.push(candidates.last().id)
        } else {
            rest
        }
    }
}

/// Two lists hold the same ids.
pub open spec fn same_id_set(a: Seq<WindowId>, b: Seq<WindowId>) -> bool {
    a.to_set() == b.to_set()
}

fn listed_id(ids: &Vec<WindowId>, id: WindowId) -> (r: bool)
    ensures
        r == ids@.contains(id),
{
    let mut index: usize = 0;
    while index < ids.len()
        invariant
            index <= ids.len(),
            forall|k: int| 0 <= k < index ==> ids@[k] != id,
        decreases ids.len() - index,
    {
        if ids[index] == id {
            assert(ids@[index as int] == id);
            return true;
        }
        index += 1;
    }
    false
}

fn all_listed(a: &Vec<WindowId>, b: &Vec<WindowId>) -> (r: bool)
    ensures
        r == forall|i: int| 0 <= i < a@.len() ==> b@.contains(#[trigger] a@[i]),
{
    let mut index: usize = 0;
    while index < a.len()
        invariant
            index <= a.len(),
            forall|i: int| 0 <= i < index ==> b@.contains(#[trigger] a@[i]),
        decreases a.len() - index,
    {
        if !listed_id(b, a[index]) {
            return false;
        }
        index += 1;
    }
    true
}

/// Whether two lists hold the same ids, in any order and number.
pub fn same_ids(a: &Vec<WindowId>, b: &Vec<WindowId>) -> (r: bool)
    ensures
        r == same_id_set(a@, b@),
{
    let forward = all_listed(a, b);
    let backward = all_listed(b, a);
    proof {
        if forward && backward {
            assert forall|x: WindowId| a@.to_set().contains(x) == b@.to_set().contains(x) by {
                if a@.contains(x) {
                    let i = choose|i: int| 0 <= i < a@.len() && a@[i] == x;
                    assert(b@.contains(a@[i]));
                }
                if b@.contains(x) {
                    let i = choose|i: int| 0 <= i < b@.len() && b@[i] == x;
                    assert(a@.contains(b@[i]));
                }
            }
            assert(a@.to_set() =~= b@.to_set());
        } else if !forward {
            let i = choose|i: int| 0 <= i < a@.len() && !b@.contains(#[trigger] a@[i]);
            assert(a@.to_set().contains(a@[i]));
            assert(!b@.to_set().contains(a@[i]));
        } else {
            let i = choose|i: int| 0 <= i < b@.len() && !a@.contains(#[trigger] b@[i]);
            assert(b@.to_set().contains(b@[i]));
            assert(!a@.to_set().contains(b@[i]));
        }
    }
    forward && backward
}

pub fn ids_of_tables(tables: &Vec<ManagedTable>) -> (r: Vec<WindowId>)
    ensures
        r@ == table_ids(tables@),
{
    let mut out: Vec<WindowId> = Vec::new();
    let mut index: usize = 0;
    while index < tables.len()
        invariant
            index <= tables.len(),
            out@ == table_ids(tables@).subrange(0, index as int),
        decreases tables.len() - index,
    {
        out.push(tables[index].id);
        index += 1;
        assert(out@ =~= table_ids(tables@).subrange(0, index as int));
    }
    assert(table_ids(tables@).subrange(0, index as int) =~= table_ids(tables@));
    out
}

pub fn ids_of_candidates(candidates: &Vec<WindowCandidate>) -> (r: Vec<WindowId>)
    ensures
        r@ == candidate_ids(candidates@),
{
    let mut out: Vec<WindowId> = Vec::new();
    let mut index: usize = 0;
    while index < candidates.len()
        invariant
            index <= candidates.len(),
            out@ == candidate_ids(candidates@).subrange(0, index as int),
        decreases candidates.len() - index,
    {
        out.push(candidates[index].id);
        index += 1;
        assert(out@ =~= candidate_ids(candidates@).subrange(0, index as int));
    }
    assert(candidate_ids(candidates@).subrange(0, index as int) =~= candidate_ids(candidates@));
    out
}

/// Two monitor lists are equal, monitor by monitor.
pub open spec fn same_monitor_list(a: Seq<crate::model::MonitorInfo>, b: Seq<crate::model::MonitorInfo>) -> bool {
    a.len() == b.len() && forall|i: int| 0 <= i < a.len() ==> crate::model::monitor_eq(#[trigger] a[i], b[i])
}

fn same_monitors(a: &Vec<crate::model::MonitorInfo>, b: &Vec<crate::model::MonitorInfo>) -> (r: bool)
    ensures
        r == same_monitor_list(a@, b@),
{
    if a.len() != b.len() {
        return false;
    }
    let mut index: usize = 0;
    while index < a.len()
        invariant
            index <= a.len(),
            a.len() == b.len(),
            forall|i: int| 0 <= i < index ==> crate::model::monitor_eq(#[trigger] a@[i], b@[i]),
        decreases a.len() - index,
    {
        if !(a[index] == b[index]) {
            return false;
        }
        index += 1;
    }
    true
}

/// A rectangle whose width-to-height ratio lies between 0.8 and 2.5.
pub open spec fn plausible_table_rect(rect: crate::model::Rect) -> bool {
    rect.width > 0 && rect.height > 0 && 4 * rect.height <= 5 * rect.width && 2 * rect.width <= 5
        * rect.height
}

/// ClubGG tables whose active rectangle has a plausible table ratio.
pub open spec fn ratio_source() -> spec_fn(ManagedTable) -> bool {
    |t: ManagedTable| t.poker_client == PokerClientKind::ClubGg && plausible_table_rect(t.last_active_rect)
}

/// The table ratio learnt from the first ClubGG table with a plausible ratio.
pub open spec fn detected_ratio(tables: Seq<ManagedTable>) -> Option<AspectRatio> {
    let i = first_where(tables, ratio_source());
    if i < tables.len() {
        Some(AspectRatio::of_dimensions(tables[i].last_active_rect.width as int, tables[i].last_active_rect.height as int))
    } else {
        None
    }
}

pub fn detect_table_ratio(tables: &Vec<ManagedTable>) -> (r: Option<AspectRatio>)
    ensures
        r == detected_ratio(tables@),
{
    let mut index: usize = 0;
    while index < tables.len()
        invariant
            index <= tables.len(),
            forall|k: int| 0 <= k < index ==> !ratio_source()(#[trigger] tables@[k]),
        ensures
            index <= tables.len(),
            forall|k: int| 0 <= k < index ==> !ratio_source()(#[trigger] tables@[k]),
            index < tables.len() ==> ratio_source()(tables@[index as int]),
        decreases tables.len() - index,
    {
        let rect = tables[index].last_active_rect;
        let club = match tables[index].poker_client {
            PokerClientKind::ClubGg => true,
            PokerClientKind::LdPlayer => false,
        };
        if club && rect.width > 0 && rect.height > 0 && 4 * (rect.height as i64) <= 5 * (rect.width as i64)
            && 2 * (rect.width as i64) <= 5 * (rect.height as i64) {
            break;
        }
        index += 1;
    }
    proof {
        crate::tracking::lemma_first_where(tables@, ratio_source(), index as int);
    }
    if index < tables.len() {
        tables[index].last_active_rect.aspect_ratio()
    } else {
        None
    }
}

/// A discovered window counted as a poker table: not a lobby, and either
/// recognised as a table or managed as one.
pub open spec fn counts_as_poker(candidate: WindowCandidate, tables: Seq<ManagedTable>) -> bool {
    !candidate.is_clubgg_lobby && (candidate.likely_table || has_table(tables, candidate.id))
}

pub open spec fn count_poker(candidates: Seq<WindowCandidate>, tables: Seq<ManagedTable>) -> nat
    decreases candidates.len(),
{
    if candidates.len() == 0 {
        0
    } else {
        count_poker(candidates.drop_last(), tables) + if counts_as_poker(candidates.last(), tables) {
            1nat
        } else {
            0nat
        }
    }
}

fn poker_count(candidates: &Vec<WindowCandidate>, tables: &Vec<ManagedTable>) -> (r: usize)
    ensures
        r == count_poker(candidates@, tables@),
        r <= candidates@.len(),
{
    let ids = ids_of_tables(tables);
    let mut count: usize = 0;
    let mut index: usize = 0;
    while index < candidates.len()
        invariant
            index <= candidates.len(),
            ids@ == table_ids(tables@),
            count == count_poker(candidates@.subrange(0, index as int), tables@),
            count <= index,
        decreases candidates.len() - index,
    {
        assert(candidates@.subrange(0, index + 1).drop_last() =~= candidates@.subrange(0, index as int));
        let candidate = &candidates[index];
        if !candidate.is_clubgg_lobby && (candidate.likely_table || listed_id(&ids, candidate.id)) {
            count += 1;
        }
        index += 1;
    }
    assert(candidates@.subrange(0, index as int) =~= candidates@);
    count
}

/// Keeps the recorded outcomes of the windows that are still listed.
pub fn retain_listed_statuses(statuses: &mut Vec<(WindowId, TableStatus)>, candidates: &Vec<WindowCandidate>)
    requires
        distinct_ids(status_ids(old(statuses)@)),
    ensures
        distinct_ids(status_ids(final(statuses)@)),
        forall|x: WindowId|
            #[trigger] status_of(final(statuses)@, x) == if candidate_ids(candidates@).contains(x) {
                status_of(old(statuses)@, x)
            } else {
                None
            },
        forall|x: WindowId| status_ids(final(statuses)@).contains(x) ==> candidate_ids(candidates@).contains(x),
{
    let ids = ids_of_candidates(candidates);
    let ghost before = statuses@;
    let mut kept: Vec<(WindowId, TableStatus)> = Vec::new();
    let mut index: usize = 0;
    while index < statuses.len()
        invariant
            index <= statuses.len(),
            statuses@ == before,
            ids@ == candidate_ids(candidates@),
            distinct_ids(status_ids(before)),
            distinct_ids(status_ids(kept@)),
            forall|x: WindowId|
                #[trigger] status_of(kept@, x) == if ids@.contains(x) {
                    status_of(before.subrange(0, index as int), x)
                } else {
                    None
                },
            forall|x: WindowId| #[trigger] status_ids(kept@).contains(x) ==> status_ids(before.subrange(0, index as int)).contains(x) && ids@.contains(x),
        decreases statuses.len() - index,
    {
        let ghost prefix = before.subrange(0, index as int);
        let ghost next = before.subrange(0, index + 1);
        assert(next.drop_last() =~= prefix);
        let id = statuses[index].0;
        assert forall|x: WindowId| status_ids(prefix).contains(x) implies x != id by {
            let k = choose|k: int| 0 <= k < status_ids(prefix).len() && status_ids(prefix)[k] == x;
            assert(status_ids(before)[k] != status_ids(before)[index as int]);
        }
        assert forall|x: WindowId| status_ids(next).contains(x) implies status_ids(prefix).contains(x) || x == id by {
            let k = choose|k: int| 0 <= k < status_ids(next).len() && status_ids(next)[k] == x;
            if k < prefix.len() {
                assert(status_ids(prefix)[k] == x);
            }
        }
        if listed_id(&ids, id) {
            let ghost old_kept = kept@;
            kept.push((id, statuses[index].1.clone()));
            assert(kept@.drop_last() =~= old_kept);
            assert(status_ids(kept@) =~= status_ids(old_kept).push(id));
            assert forall|a: int, b: int| 0 <= a < b < status_ids(kept@).len() implies status_ids(kept@)[a] != status_ids(kept@)[b] by {
                if b == status_ids(kept@).len() - 1 {
                    assert(status_ids(old_kept).contains(status_ids(kept@)[a]));
                }
            }
            assert forall|x: WindowId| status_ids(kept@).contains(x) implies status_ids(next).contains(x) && ids@.contains(x) by {
                let k = choose|k: int| 0 <= k < status_ids(kept@).len() && status_ids(kept@)[k] == x;
                if k < old_kept.len() {
                    assert(status_ids(old_kept)[k] == x);
                    assert(status_ids(old_kept).contains(x));
                    assert(status_ids(prefix).contains(x));
                    let j = choose|j: int| 0 <= j < status_ids(prefix).len() && status_ids(prefix)[j] == x;
                    assert(next[j] == prefix[j]);
                    assert(status_ids(next)[j] == x);
                } else {
                    assert(status_ids(next)[index as int] == x);
                }
            }
            assert forall|x: WindowId|
                #[trigger] status_of(kept@, x) == if ids@.contains(x) {
                    status_of(next, x)
                } else {
                    None
                } by {
                assert(status_of(kept@, x) == if x == id { Some(kept@.last().1) } else { status_of(old_kept, x) });
                assert(status_of(next, x) == if x == id { Some(next.last().1) } else { status_of(prefix, x) });
            }
        } else {
            assert forall|x: WindowId| status_ids(kept@).contains(x) implies status_ids(next).contains(x) && ids@.contains(x) by {
                assert(status_ids(prefix).contains(x));
                let j = choose|j: int| 0 <= j < status_ids(prefix).len() && status_ids(prefix)[j] == x;
                assert(next[j] == prefix[j]);
                assert(status_ids(next)[j] == x);
            }
            assert forall|x: WindowId|
                #[trigger] status_of(kept@, x) == if ids@.contains(x) {
                    status_of(next, x)
                } else {
                    None
                } by {
                assert(status_of(next, x) == if x == id { Some(next.last().1) } else { status_of(prefix, x) });
            }
        }
        index += 1;
    }
    assert(before.subrange(0, index as int) =~= before);
    *statuses = kept;
}

/// After taking in every listed window, each table is backed by a window to
/// manage and, with distinct ids, each window to manage has a table.
proof fn lemma_adopted_backed(tables: Seq<ManagedTable>, config: AppConfig, candidates: Seq<WindowCandidate>)
    requires
        distinct_ids(table_ids(tables)),
        ids_listed(table_ids(tables), candidates),
    ensures
        distinct_ids(table_ids(adopted(tables, config, candidates))),
        backed(adopted(tables, config, candidates), config, candidates),
        distinct_ids(candidate_ids(candidates)) ==> covered(adopted(tables, config, candidates), config, candidates),
{
    lemma_adopted(tables, config, candidates, candidates.len() as int);
    assert(candidates.subrange(0, candidates.len() as int) =~= candidates);
    let out = adopted(tables, config, candidates);
    assert forall|i: int| 0 <= i < out.len() implies exists|k: int|
        0 <= k < candidates.len() && (#[trigger] candidates[k]).id == (#[trigger] out[i]).id
            && should_manage(candidates[k], candidate_disposition(config, candidates[k])) by {
        assert(candidate_ids(candidates).contains(table_ids(out)[i]));
        let k = choose|k: int| 0 <= k < candidate_ids(candidates).len() && candidate_ids(candidates)[k] == table_ids(out)[i];
        assert(candidates[k].id == out[i].id);
    }
}

proof fn lemma_backed_kept(a: Seq<ManagedTable>, b: Seq<ManagedTable>, config: AppConfig, candidates: Seq<WindowCandidate>)
    requires
        backed(a, config, candidates),
        forall|i: int| 0 <= i < b.len() ==> a.contains(#[trigger] b[i]),
    ensures
        backed(b, config, candidates),
{
    assert forall|i: int| 0 <= i < b.len() implies exists|k: int|
        0 <= k < candidates.len() && (#[trigger] candidates[k]).id == (#[trigger] b[i]).id
            && should_manage(candidates[k], candidate_disposition(config, candidates[k])) by {
        assert(a.contains(b[i]));
        let j = choose|j: int| 0 <= j < a.len() && a[j] == b[i];
        assert(a[j].id == b[i].id);
    }
}

proof fn lemma_covered_kept(a: Seq<ManagedTable>, b: Seq<ManagedTable>, config: AppConfig, candidates: Seq<WindowCandidate>)
    requires
        covered(a, config, candidates),
        forall|j: int| 0 <= j < a.len() ==> b.contains(#[trigger] a[j]),
    ensures
        covered(b, config, candidates),
{
    assert forall|k: int|
        0 <= k < candidates.len() && should_manage(
            #[trigger] candidates[k],
            candidate_disposition(config, candidates[k]),
        ) implies has_table(b, candidates[k].id) by {
        assert(has_table(a, candidates[k].id));
        let j = choose|j: int| 0 <= j < table_ids(a).len() && table_ids(a)[j] == candidates[k].id;
        assert(b.contains(a[j]));
        let i = choose|i: int| 0 <= i < b.len() && b[i] == a[j];
        assert(table_ids(b)[i] == candidates[k].id);
    }
}

proof fn lemma_placement_keeps_backing(a: Seq<ManagedTable>, b: Seq<ManagedTable>, config: AppConfig, candidates: Seq<WindowCandidate>)
    requires
        same_tables_but_placement(a, b),
    ensures
        backed(a, config, candidates) ==> backed(b, config, candidates),
        covered(a, config, candidates) ==> covered(b, config, candidates),
{
    assert forall|i: int| 0 <= i < a.len() implies (#[trigger] table_ids(a)[i]) == table_ids(b)[i] && a[i].id == b[i].id by {
        assert(crate::arrangement::same_table_identity(a[i], b[i]));
    }
    assert(table_ids(a) =~= table_ids(b));
    if backed(a, config, candidates) {
        assert forall|i: int| 0 <= i < b.len() implies exists|k: int|
            0 <= k < candidates.len() && (#[trigger] candidates[k]).id == (#[trigger] b[i]).id
                && should_manage(candidates[k], candidate_disposition(config, candidates[k])) by {
            assert(crate::arrangement::same_table_identity(a[i], b[i]));
            let k = choose|k: int|
                0 <= k < candidates.len() && (#[trigger] candidates[k]).id == (#[trigger] a[i]).id
                    && should_manage(candidates[k], candidate_disposition(config, candidates[k]));
        }
    }
}

proof fn lemma_candidates_keep_identity(
    tables: Seq<ManagedTable>,
    config: AppConfig,
    other: AppConfig,
    a: Seq<WindowCandidate>,
    b: Seq<WindowCandidate>,
)
    requires
        same_candidates_but_rect(a, b),
        config.detection_rules == other.detection_rules,
        config.default_application_mode == other.default_application_mode,
    ensures
        backed(tables, config, a) ==> backed(tables, other, b),
        covered(tables, config, a) ==> covered(tables, other, b),
        candidate_ids(a) == candidate_ids(b),
{
    assert forall|k: int| 0 <= k < a.len() implies candidate_ids(a)[k] == candidate_ids(b)[k] && should_manage(
        #[trigger] a[k],
        candidate_disposition(config, a[k]),
    ) == should_manage(b[k], candidate_disposition(other, b[k])) by {
        assert(crate::arrangement::same_candidate_identity(a[k], b[k]));
    }
    assert(candidate_ids(a) =~= candidate_ids(b));
    if backed(tables, config, a) {
        assert forall|i: int| 0 <= i < tables.len() implies exists|k: int|
            0 <= k < b.len() && (#[trigger] b[k]).id == (#[trigger] tables[i]).id
                && should_manage(b[k], candidate_disposition(other, b[k])) by {
            let k = choose|k: int|
                0 <= k < a.len() && (#[trigger] a[k]).id == tables[i].id && should_manage(
                    a[k],
                    candidate_disposition(config, a[k]),
                );
            assert(candidate_ids(a)[k] == candidate_ids(b)[k]);
        }
    }
    if covered(tables, config, a) {
        assert forall|k: int|
            0 <= k < b.len() && should_manage(
                #[trigger] b[k],
                candidate_disposition(other, b[k]),
            ) implies has_table(tables, b[k].id) by {
            assert(candidate_ids(a)[k] == candidate_ids(b)[k]);
            assert(should_manage(a[k], candidate_disposition(config, a[k])));
        }
    }
}

fn has_unparked_disabled(tables: &Vec<ManagedTable>) -> (r: bool)
    ensures
        r == exists|i: int|
            0 <= i < tables@.len() && !(#[trigger] tables@[i]).enabled && !(tables@[i].status is Parked),
{
    let mut index: usize = 0;
    while index < tables.len()
        invariant
            index <= tables.len(),
            forall|i: int|
                0 <= i < index ==> !(!(#[trigger] tables@[i]).enabled && !(tables@[i].status is Parked)),
        decreases tables.len() - index,
    {
        let parked = match tables[index].status {
            TableStatus::Parked => true,
            _ => false,
        };
        if !tables[index].enabled && !parked {
            return true;
        }
        index += 1;
    }
    false
}

/// `after_tables` with the slots of `after_config` are what taking in the
/// listed `candidates` makes of `tables` under `config`: the tables follow
/// their windows (`refreshed_tables`), windows to manage join and tables that
/// should not be managed leave (`adopted`), the tables take the saved order
/// (grown by the names of the new tables), then the slots are brought in line
/// with them (`synced`) and the tables follow the slots.
pub open spec fn taken_in(
    tables: Seq<ManagedTable>,
    config: AppConfig,
    candidates: Seq<WindowCandidate>,
    after_tables: Seq<ManagedTable>,
    after_config: AppConfig,
) -> bool {
    let refreshed_list = refreshed_tables(tables, candidates);
    let adopted_tables = adopted(refreshed_list, config, candidates);
    let order = grown_order(sig_views(config.table_order@), refreshed_list, config, candidates);
    exists|sorted: Seq<ManagedTable>|
        #![trigger order_keys(sorted, all_sigs(columns_view(after_config.poker_columns@)))]
        stably_reordered(adopted_tables, sorted, order_keys(adopted_tables, order))
            && columns_view(after_config.poker_columns@) == synced(
            columns_view(config.poker_columns@),
            sorted,
            config.preserve_table_slots,
            config.poker_placeholders@.len() as int,
        ) && after_config.poker_placeholders@ == synced_marks(
            columns_view(config.poker_columns@),
            sorted,
            config.preserve_table_slots,
            config.poker_placeholders@.len() as int,
        ) && stably_reordered(sorted, after_tables, order_keys(sorted, all_sigs(columns_view(after_config.poker_columns@))))
}

/// `after` took in `listed`, the windows the backend reported, from
/// `before`: the windows stand in the panel's order (`session_order`; only
/// parked lobbies may have moved since), the tables are those taken in from
/// them (`taken_in`; only their placement may have changed since), a
/// table ratio not learnt yet is learnt from those tables, and a reflow is
/// requested when the set of tables, the set of positioned windows or the
/// monitors changed.
pub open spec fn listing_taken_in(before: Controller, after: Controller, listed: Seq<WindowCandidate>) -> bool {
    exists|ordered: Seq<WindowCandidate>, taken: Seq<ManagedTable>|
        #![trigger stably_reordered(listed, ordered, session_keys(before.candidates@, listed)), same_tables_but_placement(taken, after.tables@)]
        stably_reordered(listed, ordered, session_keys(before.candidates@, listed))
            && same_candidates_but_rect(ordered, after.candidates@)
            && taken_in(before.tables@, before.config, ordered, taken, after.config)
            && same_tables_but_placement(taken, after.tables@)
            && (before.config.table_aspect_ratio is None ==> after.config.table_aspect_ratio == detected_ratio(taken))
            && after.dirty == (before.dirty || !same_id_set(table_ids(before.tables@), table_ids(taken))
                || !same_id_set(positioned_ids(before.config, before.candidates@), positioned_ids(before.config, ordered))
                || !same_monitor_list(before.monitors@, after.monitors@))
}

/// Only the detection rules and the default for applications decide which
/// windows are positioned.
proof fn lemma_positioned_ignores_other_settings(config: AppConfig, other: AppConfig, candidates: Seq<WindowCandidate>)
    requires
        config.detection_rules == other.detection_rules,
        config.default_application_mode == other.default_application_mode,
    ensures
        positioned_ids(config, candidates) == positioned_ids(other, candidates),
    decreases candidates.len(),
{
    if candidates.len() > 0 {
        lemma_positioned_ignores_other_settings(config, other, candidates.drop_last());
        assert(config.rules() == other.rules());
        assert(candidate_disposition(config, candidates.last()) == candidate_disposition(other, candidates.last()));
    }
}

proof fn lemma_unchanged_is_same(tables: Seq<ManagedTable>, candidates: Seq<WindowCandidate>)
    ensures
        same_tables_but_placement(tables, tables),
        same_candidates_but_rect(candidates, candidates),
{
}

proof fn lemma_listing_witness(
    start: Controller,
    after: Controller,
    listed: Seq<WindowCandidate>,
    ordered: Seq<WindowCandidate>,
    taken: Seq<ManagedTable>,
    took_config: AppConfig,
)
    requires
        stably_reordered(listed, ordered, session_keys(start.candidates@, listed)),
        same_candidates_but_rect(ordered, after.candidates@),
        taken_in(start.tables@, start.config, ordered, taken, took_config),
        took_config.poker_columns == after.config.poker_columns,
        took_config.poker_placeholders == after.config.poker_placeholders,
        same_tables_but_placement(taken, after.tables@),
        start.config.table_aspect_ratio is None ==> after.config.table_aspect_ratio == detected_ratio(taken),
        after.dirty == (start.dirty || !same_id_set(table_ids(start.tables@), table_ids(taken))
            || !same_id_set(positioned_ids(start.config, start.candidates@), positioned_ids(start.config, ordered))
            || !same_monitor_list(start.monitors@, after.monitors@)),
    ensures
        listing_taken_in(start, after, listed),
{
    assert(taken_in(start.tables@, start.config, ordered, taken, after.config));
    assert(stably_reordered(listed, ordered, session_keys(start.candidates@, listed))
        && same_candidates_but_rect(ordered, after.candidates@)
        && taken_in(start.tables@, start.config, ordered, taken, after.config)
        && same_tables_but_placement(taken, after.tables@)
        && (start.config.table_aspect_ratio is None ==> after.config.table_aspect_ratio == detected_ratio(taken))
        && after.dirty == (start.dirty || !same_id_set(table_ids(start.tables@), table_ids(taken))
            || !same_id_set(positioned_ids(start.config, start.candidates@), positioned_ids(start.config, ordered))
            || !same_monitor_list(start.monitors@, after.monitors@)));
}

/// `after` is `before` once the desktop was taken in: the listed windows were
/// taken in (`listing_taken_in`), or the listing failed and only the status
/// line changed.
pub open spec fn reconciled(before: Controller, after: Controller) -> bool {
    ||| exists|listed: Seq<WindowCandidate>| #[trigger] listing_taken_in(before, after, listed)
    ||| {
        &&& exists|error: crate::model::BackendError| after.status_message@ == "Window discovery failed: "@
            + #[trigger] crate::model::backend_error_text(error)
        &&& after.tables == before.tables
        &&& after.candidates == before.candidates
        &&& after.window_statuses == before.window_statuses
        &&& after.monitors == before.monitors
        &&& after.config == before.config
        &&& after.calls == before.calls
    }
}

/// Two items of a stable reordering keep the order of their keys.
proof fn lemma_reordered_pair<T>(before: Seq<T>, after: Seq<T>, keys: Seq<u128>, a: int, b: int) -> (pair: (int, int))
    requires
        stably_reordered(before, after, keys),
        0 <= a < b < after.len(),
    ensures
        0 <= pair.0 < before.len(),
        0 <= pair.1 < before.len(),
        after[a] == before[pair.0],
        after[b] == before[pair.1],
        keys[pair.0] <= keys[pair.1],
{
    let order = choose|order: Seq<usize>|
        is_permutation(order, before.len() as int) && stably_sorted(keys, order) && after == arranged(before, order);
    assert(crate::ordering::before(keys, order[a] as int, order[b] as int));
    (order[a] as int, order[b] as int)
}

proof fn lemma_key_order(t1: u8, i1: int, t2: u8, i2: int)
    requires
        0 <= i1 <= usize::MAX,
        0 <= i2 <= usize::MAX,
        key_of(t1, i1 as usize) <= key_of(t2, i2 as usize),
    ensures
        t1 <= t2,
        t1 == t2 ==> i1 <= i2,
{
    assert(usize::MAX < 18446744073709551616);
}

/// Each table after taking in windows was there before or is the new table
/// of one of the windows.
proof fn lemma_adopted_elements(tables: Seq<ManagedTable>, config: AppConfig, candidates: Seq<WindowCandidate>)
    ensures
        forall|i: int|
            0 <= i < adopted(tables, config, candidates).len() ==> tables.contains(
                #[trigger] adopted(tables, config, candidates)[i],
            ) || exists|k: int|
                0 <= k < candidates.len() && adopted(tables, config, candidates)[i] == new_table(
                    #[trigger] candidates[k],
                    candidate_disposition(config, candidates[k]),
                ),
    decreases candidates.len(),
{
    if candidates.len() > 0 {
        let init = candidates.drop_last();
        lemma_adopted_elements(tables, config, init);
        let prev = adopted(tables, config, init);
        let last = candidates.last();
        let out = adopt_one(prev, config, last);
        assert(adopted(tables, config, candidates) == out);
        let disposition = candidate_disposition(config, last);
        let found = first_where(prev, table_has_id(last.id));
        crate::tracking::lemma_first_where_bounds(prev, table_has_id(last.id));
        assert forall|j: int| 0 <= j < prev.len() implies tables.contains(#[trigger] prev[j]) || exists|k: int|
            0 <= k < candidates.len() && prev[j] == new_table(
                #[trigger] candidates[k],
                candidate_disposition(config, candidates[k]),
            ) by {
            if !tables.contains(prev[j]) {
                let k = choose|k: int|
                    0 <= k < init.len() && prev[j] == new_table(
                        #[trigger] init[k],
                        candidate_disposition(config, init[k]),
                    );
                assert(init[k] == candidates[k]);
            }
        }
        assert forall|i: int| 0 <= i < out.len() implies tables.contains(#[trigger] out[i]) || exists|k: int|
            0 <= k < candidates.len() && out[i] == new_table(
                #[trigger] candidates[k],
                candidate_disposition(config, candidates[k]),
            ) by {
            if should_manage(last, disposition) && found == prev.len() {
                assert(out == prev.push(new_table(last, disposition)));
                if i == prev.len() {
                    assert(out[i] == new_table(candidates[candidates.len() - 1], candidate_disposition(config, candidates[candidates.len() - 1])));
                } else {
                    assert(out[i] == prev[i]);
                    assert(tables.contains(prev[i]) || exists|k: int|
                        0 <= k < candidates.len() && prev[i] == new_table(#[trigger] candidates[k], candidate_disposition(config, candidates[k])));
                }
            } else if !should_manage(last, disposition) && found < prev.len() {
                assert(out == prev.remove(found));
                assert(out =~= prev.subrange(0, found) + prev.subrange(found + 1, prev.len() as int));
                if i < found {
                    assert(out[i] == prev[i]);
                    assert(tables.contains(prev[i]) || exists|k: int|
                        0 <= k < candidates.len() && prev[i] == new_table(#[trigger] candidates[k], candidate_disposition(config, candidates[k])));
                } else {
                    let head = prev.subrange(0, found);
                    let tail = prev.subrange(found + 1, prev.len() as int);
                    assert(i + 1 < prev.len());
                    assert((head + tail)[i] == tail[i - found]);
                    assert(tail[i - found] == prev[i + 1]);
                    assert(out[i] == prev[i + 1]);
                    assert(tables.contains(prev[i + 1]) || exists|k: int|
                        0 <= k < candidates.len() && prev[i + 1] == new_table(#[trigger] candidates[k], candidate_disposition(config, candidates[k])));
                }
            } else {
                assert(out == prev);
                assert(tables.contains(prev[i]) || exists|k: int|
                    0 <= k < candidates.len() && prev[i] == new_table(#[trigger] candidates[k], candidate_disposition(config, candidates[k])));
            }
        }
    }
}

/// The tables after taking in are the adopted ones in another order.
proof fn lemma_taken_in_elements(
    tables: Seq<ManagedTable>,
    config: AppConfig,
    candidates: Seq<WindowCandidate>,
    after_tables: Seq<ManagedTable>,
    after_config: AppConfig,
)
    requires
        taken_in(tables, config, candidates, after_tables, after_config),
    ensures
        forall|i: int|
            0 <= i < after_tables.len() ==> adopted(refreshed_tables(tables, candidates), config, candidates).contains(
                #[trigger] after_tables[i],
            ),
        forall|j: int|
            0 <= j < adopted(refreshed_tables(tables, candidates), config, candidates).len() ==> after_tables.contains(
                #[trigger] adopted(refreshed_tables(tables, candidates), config, candidates)[j],
            ),
{
    let refreshed_list = refreshed_tables(tables, candidates);
    let adopted_tables = adopted(refreshed_list, config, candidates);
    let order = grown_order(sig_views(config.table_order@), refreshed_list, config, candidates);
    let sorted = choose|sorted: Seq<ManagedTable>|
        #![trigger order_keys(sorted, all_sigs(columns_view(after_config.poker_columns@)))]
        stably_reordered(adopted_tables, sorted, order_keys(adopted_tables, order))
            && columns_view(after_config.poker_columns@) == synced(
            columns_view(config.poker_columns@),
            sorted,
            config.preserve_table_slots,
            config.poker_placeholders@.len() as int,
        ) && after_config.poker_placeholders@ == synced_marks(
            columns_view(config.poker_columns@),
            sorted,
            config.preserve_table_slots,
            config.poker_placeholders@.len() as int,
        ) && stably_reordered(sorted, after_tables, order_keys(sorted, all_sigs(columns_view(after_config.poker_columns@))));
    lemma_reordered_elements(adopted_tables, sorted, order_keys(adopted_tables, order));
    lemma_reordered_elements(sorted, after_tables, order_keys(sorted, all_sigs(columns_view(after_config.poker_columns@))));
    assert forall|i: int| 0 <= i < after_tables.len() implies adopted_tables.contains(#[trigger] after_tables[i]) by {
        assert(sorted.contains(after_tables[i]));
        let a = choose|a: int| 0 <= a < sorted.len() && sorted[a] == after_tables[i];
        assert(adopted_tables.contains(sorted[a]));
    }
    assert forall|j: int| 0 <= j < adopted_tables.len() implies after_tables.contains(#[trigger] adopted_tables[j]) by {
        assert(sorted.contains(adopted_tables[j]));
        let a = choose|a: int| 0 <= a < sorted.len() && sorted[a] == adopted_tables[j];
        assert(after_tables.contains(sorted[a]));
    }
}

/// Taking in listed windows with distinct ids leaves one table for each
/// listed window that should be managed and none for the others: a listed
/// window has a table exactly when it is no ClubGG lobby and its saved choice
/// is Arrange or Park or, with no saved choice, it looks like a poker table
/// (`should_manage`); every table belongs to a listed window; and a window
/// that had no table gets the one `new_table` describes, enabled unless its
/// saved choice is Park.
pub proof fn law_windows_to_manage_are_the_tables(
    tables: Seq<ManagedTable>,
    config: AppConfig,
    candidates: Seq<WindowCandidate>,
    after_tables: Seq<ManagedTable>,
    after_config: AppConfig,
    k: int,
)
    requires
        distinct_ids(table_ids(tables)),
        distinct_ids(candidate_ids(candidates)),
        taken_in(tables, config, candidates, after_tables, after_config),
        0 <= k < candidates.len(),
    ensures
        has_table(after_tables, candidates[k].id) <==> should_manage(
            candidates[k],
            candidate_disposition(config, candidates[k]),
        ),
        ids_listed(table_ids(after_tables), candidates),
        forall|i: int|
            0 <= i < after_tables.len() && (#[trigger] after_tables[i]).id == candidates[k].id && !has_table(
                tables,
                candidates[k].id,
            ) ==> after_tables[i] == new_table(candidates[k], candidate_disposition(config, candidates[k])),
{
    lemma_windows_with_tables(tables, config, candidates, after_tables, after_config, k);
    lemma_new_windows_get_new_tables(tables, config, candidates, after_tables, after_config, k);
}

proof fn lemma_windows_with_tables(
    tables: Seq<ManagedTable>,
    config: AppConfig,
    candidates: Seq<WindowCandidate>,
    after_tables: Seq<ManagedTable>,
    after_config: AppConfig,
    k: int,
)
    requires
        distinct_ids(table_ids(tables)),
        distinct_ids(candidate_ids(candidates)),
        taken_in(tables, config, candidates, after_tables, after_config),
        0 <= k < candidates.len(),
    ensures
        has_table(after_tables, candidates[k].id) <==> should_manage(
            candidates[k],
            candidate_disposition(config, candidates[k]),
        ),
        ids_listed(table_ids(after_tables), candidates),
{
    let refreshed_list = refreshed_tables(tables, candidates);
    let adopted_tables = adopted(refreshed_list, config, candidates);
    lemma_refreshed_tables(tables, candidates);
    lemma_adopted_backed(refreshed_list, config, candidates);
    lemma_taken_in_elements(tables, config, candidates, after_tables, after_config);
    lemma_backed_kept(adopted_tables, after_tables, config, candidates);
    lemma_covered_kept(adopted_tables, after_tables, config, candidates);
    if has_table(after_tables, candidates[k].id) {
        let i = choose|i: int| 0 <= i < table_ids(after_tables).len() && table_ids(after_tables)[i] == candidates[k].id;
        assert(after_tables[i].id == candidates[k].id);
        let j = choose|j: int|
            0 <= j < candidates.len() && (#[trigger] candidates[j]).id == (#[trigger] after_tables[i]).id
                && should_manage(candidates[j], candidate_disposition(config, candidates[j]));
        if j != k {
            let (a, b) = if j < k { (j, k) } else { (k, j) };
            assert(candidate_ids(candidates)[a] == candidate_ids(candidates)[b]);
        }
    }
    assert forall|i: int| 0 <= i < table_ids(after_tables).len() implies candidate_ids(candidates).contains(
        #[trigger] table_ids(after_tables)[i],
    ) by {
        let j = choose|j: int|
            0 <= j < candidates.len() && (#[trigger] candidates[j]).id == (#[trigger] after_tables[i]).id
                && should_manage(candidates[j], candidate_disposition(config, candidates[j]));
        assert(candidate_ids(candidates)[j] == table_ids(after_tables)[i]);
    }
}

proof fn lemma_new_windows_get_new_tables(
    tables: Seq<ManagedTable>,
    config: AppConfig,
    candidates: Seq<WindowCandidate>,
    after_tables: Seq<ManagedTable>,
    after_config: AppConfig,
    k: int,
)
    requires
        distinct_ids(table_ids(tables)),
        distinct_ids(candidate_ids(candidates)),
        taken_in(tables, config, candidates, after_tables, after_config),
        0 <= k < candidates.len(),
    ensures
        forall|i: int|
            0 <= i < after_tables.len() && (#[trigger] after_tables[i]).id == candidates[k].id && !has_table(
                tables,
                candidates[k].id,
            ) ==> after_tables[i] == new_table(candidates[k], candidate_disposition(config, candidates[k])),
{
    let refreshed_list = refreshed_tables(tables, candidates);
    let adopted_tables = adopted(refreshed_list, config, candidates);
    lemma_refreshed_tables(tables, candidates);
    lemma_adopted_elements(refreshed_list, config, candidates);
    lemma_taken_in_elements(tables, config, candidates, after_tables, after_config);
    assert forall|i: int|
        0 <= i < after_tables.len() && (#[trigger] after_tables[i]).id == candidates[k].id && !has_table(
            tables,
            candidates[k].id,
        ) implies after_tables[i] == new_table(candidates[k], candidate_disposition(config, candidates[k])) by {
        assert(adopted_tables.contains(after_tables[i]));
        let b = choose|b: int| 0 <= b < adopted_tables.len() && adopted_tables[b] == after_tables[i];
        if refreshed_list.contains(adopted_tables[b]) {
            let r = choose|r: int| 0 <= r < refreshed_list.len() && refreshed_list[r] == adopted_tables[b];
            assert(table_ids(refreshed_list)[r] == candidates[k].id);
            assert(table_ids(refreshed_list).contains(candidates[k].id));
        } else {
            let j = choose|j: int|
                0 <= j < candidates.len() && adopted_tables[b] == new_table(
                    #[trigger] candidates[j],
                    candidate_disposition(config, candidates[j]),
                );
            if j != k {
                let (x, y) = if j < k { (j, k) } else { (k, j) };
                assert(candidate_ids(candidates)[x] == candidate_ids(candidates)[y]);
            }
        }
    }
}

/// Windows keep their place in the panel across a discovery: of two listed
/// windows, one seen before comes before one that is new, two seen before
/// keep their earlier order, and two new ones come in the order they were
/// discovered, whatever their places on the screen.
pub proof fn law_windows_keep_their_session_order(before: Controller, after: Controller, listed: Seq<WindowCandidate>, a: int, b: int)
    requires
        listing_taken_in(before, after, listed),
        before.candidates@.len() <= usize::MAX,
        listed.len() <= usize::MAX,
        0 <= a < b < after.candidates@.len(),
    ensures
        last_with_id(before.candidates@, after.candidates@[b].id) matches Some(pb) ==> (last_with_id(
            before.candidates@,
            after.candidates@[a].id,
        ) matches Some(pa) && pa <= pb),
        last_with_id(before.candidates@, after.candidates@[a].id) is None && last_with_id(
            before.candidates@,
            after.candidates@[b].id,
        ) is None ==> (last_with_id(listed, after.candidates@[a].id) matches Some(ja) && last_with_id(
            listed,
            after.candidates@[b].id,
        ) matches Some(jb) && ja <= jb),
{
    let (ordered, taken) = choose|ordered: Seq<WindowCandidate>, taken: Seq<ManagedTable>|
        stably_reordered(listed, ordered, session_keys(before.candidates@, listed))
            && same_candidates_but_rect(ordered, after.candidates@)
            && taken_in(before.tables@, before.config, ordered, taken, after.config)
            && same_tables_but_placement(taken, after.tables@)
            && (before.config.table_aspect_ratio is None ==> after.config.table_aspect_ratio == detected_ratio(taken))
            && after.dirty == (before.dirty || !same_id_set(table_ids(before.tables@), table_ids(taken))
                || !same_id_set(positioned_ids(before.config, before.candidates@), positioned_ids(before.config, ordered))
                || !same_monitor_list(before.monitors@, after.monitors@));
    assert(crate::arrangement::same_candidate_identity(ordered[a], after.candidates@[a]));
    assert(crate::arrangement::same_candidate_identity(ordered[b], after.candidates@[b]));
    let keys = session_keys(before.candidates@, listed);
    let (oa, ob) = lemma_reordered_pair(listed, ordered, keys, a, b);
    let ca = listed[oa];
    let cb = listed[ob];
    lemma_last_with_id(before.candidates@, ca.id);
    lemma_last_with_id(before.candidates@, cb.id);
    lemma_last_with_id(listed, ca.id);
    lemma_last_with_id(listed, cb.id);
    let ta: u8 = if last_with_id(before.candidates@, ca.id) is Some { 0 } else { 1 };
    let tb: u8 = if last_with_id(before.candidates@, cb.id) is Some { 0 } else { 1 };
    let ia = match last_with_id(before.candidates@, ca.id) {
        Some(i) => i,
        None => match last_with_id(listed, ca.id) {
            Some(j) => j,
            None => 0,
        },
    };
    let ib = match last_with_id(before.candidates@, cb.id) {
        Some(i) => i,
        None => match last_with_id(listed, cb.id) {
            Some(j) => j,
            None => 0,
        },
    };
    assert(keys[oa] == key_of(ta, ia as usize));
    assert(keys[ob] == key_of(tb, ib as usize));
    lemma_key_order(ta, ia, tb, ib);
}

/// Tables stand in the order of their slots after a discovery, so the saved
/// slot assignments, not the order windows are found in, decide the table
/// order when the program starts again: of two tables, one with a slot comes
/// before one without, and two with slots keep the order of their slots.
pub proof fn law_tables_follow_their_slots(before: Controller, after: Controller, listed: Seq<WindowCandidate>, a: int, b: int)
    requires
        listing_taken_in(before, after, listed),
        all_sigs(columns_view(after.config.poker_columns@)).len() <= usize::MAX,
        0 <= a < b < after.tables@.len(),
    ensures
        crate::controller::last_position(all_sigs(columns_view(after.config.poker_columns@)), after.tables@[b].signature@)
            matches Some(pb) ==> (crate::controller::last_position(
            all_sigs(columns_view(after.config.poker_columns@)),
            after.tables@[a].signature@,
        ) matches Some(pa) && pa <= pb),
{
    let (ordered, taken) = choose|ordered: Seq<WindowCandidate>, taken: Seq<ManagedTable>|
        stably_reordered(listed, ordered, session_keys(before.candidates@, listed))
            && same_candidates_but_rect(ordered, after.candidates@)
            && taken_in(before.tables@, before.config, ordered, taken, after.config)
            && same_tables_but_placement(taken, after.tables@)
            && (before.config.table_aspect_ratio is None ==> after.config.table_aspect_ratio == detected_ratio(taken))
            && after.dirty == (before.dirty || !same_id_set(table_ids(before.tables@), table_ids(taken))
                || !same_id_set(positioned_ids(before.config, before.candidates@), positioned_ids(before.config, ordered))
                || !same_monitor_list(before.monitors@, after.monitors@));
    let sigs = all_sigs(columns_view(after.config.poker_columns@));
    let sorted = choose|sorted: Seq<ManagedTable>|
        #![trigger order_keys(sorted, all_sigs(columns_view(after.config.poker_columns@)))]
        stably_reordered(
            adopted(refreshed_tables(before.tables@, ordered), before.config, ordered),
            sorted,
            order_keys(
                adopted(refreshed_tables(before.tables@, ordered), before.config, ordered),
                grown_order(sig_views(before.config.table_order@), refreshed_tables(before.tables@, ordered), before.config, ordered),
            ),
        ) && columns_view(after.config.poker_columns@) == synced(
            columns_view(before.config.poker_columns@),
            sorted,
            before.config.preserve_table_slots,
            before.config.poker_placeholders@.len() as int,
        ) && after.config.poker_placeholders@ == synced_marks(
            columns_view(before.config.poker_columns@),
            sorted,
            before.config.preserve_table_slots,
            before.config.poker_placeholders@.len() as int,
        ) && stably_reordered(sorted, taken, order_keys(sorted, sigs));
    assert(crate::arrangement::same_table_identity(taken[a], after.tables@[a]));
    assert(crate::arrangement::same_table_identity(taken[b], after.tables@[b]));
    let keys = order_keys(sorted, sigs);
    let (oa, ob) = lemma_reordered_pair(sorted, taken, keys, a, b);
    let sa = sorted[oa].signature@;
    let sb = sorted[ob].signature@;
    lemma_last_position_bounds(sigs, sa);
    lemma_last_position_bounds(sigs, sb);
    let ta: u8 = if crate::controller::last_position(sigs, sa) is Some { 0 } else { 1 };
    let tb: u8 = if crate::controller::last_position(sigs, sb) is Some { 0 } else { 1 };
    let ia = match crate::controller::last_position(sigs, sa) {
        Some(i) => i,
        None => usize::MAX as int,
    };
    let ib = match crate::controller::last_position(sigs, sb) {
        Some(i) => i,
        None => usize::MAX as int,
    };
    assert(keys[oa] == key_of(ta, ia as usize));
    assert(keys[ob] == key_of(tb, ib as usize));
    lemma_key_order(ta, ia, tb, ib);
}

proof fn lemma_last_position_bounds(sigs: Seq<SignatureView>, signature: SignatureView)
    ensures
        crate::controller::last_position(sigs, signature) matches Some(i) ==> 0 <= i < sigs.len(),
    decreases sigs.len(),
{
    if sigs.len() > 0 {
        lemma_last_position_bounds(sigs.drop_last(), signature);
    }
}

impl Controller {
    /// The ids of the windows sent to the top-right corner or the free strip.
    pub fn positioned_window_ids(&self) -> (r: Vec<WindowId>)
        ensures
            r@ == positioned_ids(self.config, self.candidates@),
    {
        let mut out: Vec<WindowId> = Vec::new();
        let mut index: usize = 0;
        while index < self.candidates.len()
            invariant
                index <= self.candidates.len(),
                out@ == positioned_ids(self.config, self.candidates@.subrange(0, index as int)),
            decreases self.candidates.len() - index,
        {
            assert(self.candidates@.subrange(0, index + 1).drop_last() =~= self.candidates@.subrange(0, index as int));
            match self.disposition_for_candidate(&self.candidates[index]) {
                Some(CandidateDisposition::TopRight) | Some(CandidateDisposition::FreeSpace) => {
                    out.push(self.candidates[index].id);
                },
                _ => {},
            }
            index += 1;
        }
        assert(self.candidates@.subrange(0, index as int) =~= self.candidates@);
        out
    }

    /// The managed tables after taking in the listed windows: tables follow
    /// their windows, windows to manage join, tables that should not be
    /// managed leave, and the tables take their saved order and their slots.
    /// Returns whether the saved order or the slots changed.
    #[verifier::spinoff_prover]
    #[verifier::rlimit(60)]
    pub fn take_in(&mut self, candidates: &Vec<WindowCandidate>) -> (changed: bool)
        requires
            old(self).wf(),
        ensures
            final(self).wf(),
            backed(final(self).tables@, old(self).config, candidates@),
            distinct_ids(candidate_ids(candidates@)) ==> covered(final(self).tables@, old(self).config, candidates@),
            taken_in(old(self).tables@, old(self).config, candidates@, final(self).tables@, final(self).config),
            sig_views(final(self).config.table_order@) == table_sigs(final(self).tables@),
            changed == (grown_order(
                sig_views(old(self).config.table_order@),
                refreshed_tables(old(self).tables@, candidates@),
                old(self).config,
                candidates@,
            ) != sig_views(old(self).config.table_order@) || columns_view(final(self).config.poker_columns@)
                != columns_view(old(self).config.poker_columns@)),
            final(self).calls == old(self).calls,
            final(self).candidates == old(self).candidates,
            final(self).window_statuses == old(self).window_statuses,
            final(self).monitors == old(self).monitors,
            final(self).status_message == old(self).status_message,
            final(self).dirty == old(self).dirty,
            final(self).save_requested == old(self).save_requested,
            final(self).config.detection_rules == old(self).config.detection_rules,
            final(self).config.default_application_mode == old(self).config.default_application_mode,
            final(self).config.selected_monitor == old(self).config.selected_monitor,
            final(self).config.preserve_table_slots == old(self).config.preserve_table_slots,
            final(self).config.auto_arrange == old(self).config.auto_arrange,
            final(self).config.hotkeys == old(self).config.hotkeys,
            final(self).config.table_aspect_ratio == old(self).config.table_aspect_ratio,
    {
        let ghost start = *self;
        proof {
            lemma_refreshed_tables(self.tables@, candidates@);
        }
        self.tables = refresh_tables(&self.tables, &candidates);
        let ghost refreshed_list = self.tables@;
        let mut order: Vec<crate::model::WindowSignature> = Vec::new();
        std::mem::swap(&mut order, &mut self.config.table_order);
        let ghost adopt_config = self.config;
        let order_grew = adopt_candidates(&mut self.tables, &mut order, &self.config, &candidates);
        std::mem::swap(&mut order, &mut self.config.table_order);
        proof {
            lemma_adopted_backed(refreshed_list, adopt_config, candidates@);
            lemma_adoption_ignores_other_settings(
                sig_views(start.config.table_order@), refreshed_list, adopt_config, start.config, candidates@);
        }
        let ghost adopted_list = self.tables@;
        let ghost grown = sig_views(self.config.table_order@);
        let sorted = sort_tables_by(&self.tables, &self.config.table_order);
        proof {
            lemma_reordered_elements(adopted_list, sorted@, crate::controller::order_keys(adopted_list, crate::controller::sig_views(self.config.table_order@)));
            lemma_backed_kept(adopted_list, sorted@, adopt_config, candidates@);
            if distinct_ids(candidate_ids(candidates@)) {
                lemma_covered_kept(adopted_list, sorted@, adopt_config, candidates@);
            }
        }
        self.tables = sorted;
        let ghost before_sync = *self;
        let slots_changed = self.sync_poker_columns();
        proof {
            lemma_reordered_elements(before_sync.tables@, self.tables@, crate::controller::order_keys(before_sync.tables@, crate::slots::all_sigs(crate::model::columns_view(self.config.poker_columns@))));
            lemma_backed_kept(before_sync.tables@, self.tables@, adopt_config, candidates@);
            if distinct_ids(candidate_ids(candidates@)) {
                lemma_covered_kept(before_sync.tables@, self.tables@, adopt_config, candidates@);
            }
            let sorted = before_sync.tables@;
            assert(stably_reordered(adopted_list, sorted, order_keys(adopted_list, grown)));
            assert(before_sync.config.poker_columns == start.config.poker_columns);
            assert(order_keys(sorted, all_sigs(columns_view(self.config.poker_columns@))) == order_keys(sorted, all_sigs(columns_view(self.config.poker_columns@))));
            assert(taken_in(start.tables@, start.config, candidates@, self.tables@, self.config));
        }
        order_grew || slots_changed
    }

    /// Takes in the windows on the desktop: asks the backend for them and,
    /// when it lists them, for the monitors, and goes on as `apply_listing`
    /// says for whatever it answered.
    pub fn reconcile<B: WindowBackend>(&mut self, backend: &B) -> (discovered: bool)
        requires
            old(self).wf(),
        ensures
            final(self).wf(),
            !discovered ==> (exists|error: crate::model::BackendError|
                final(self).status_message@ == "Window discovery failed: "@
                    + crate::model::backend_error_text(error))
                && final(self).tables == old(self).tables
                && final(self).candidates == old(self).candidates
                && final(self).window_statuses == old(self).window_statuses
                && final(self).monitors == old(self).monitors
                && final(self).config == old(self).config
                && final(self).dirty == old(self).dirty
                && final(self).save_requested == old(self).save_requested
                && final(self).calls == old(self).calls,
            discovered ==> exists|listed: Seq<WindowCandidate>| #[trigger] listing_taken_in(*old(self), *final(self), listed),
            reconciled(*old(self), *final(self)),
            discovered ==> backed(final(self).tables@, final(self).config, final(self).candidates@),
            discovered && distinct_ids(candidate_ids(final(self).candidates@)) ==> covered(
                final(self).tables@,
                final(self).config,
                final(self).candidates@,
            ),
            discovered ==> final(self).status_message@ == crate::placement::discovery_summary_text(
                count_poker(final(self).candidates@, final(self).tables@),
                (final(self).candidates@.len() - count_poker(final(self).candidates@, final(self).tables@)) as nat,
            ),
            final(self).config.detection_rules == old(self).config.detection_rules,
            final(self).config.default_application_mode == old(self).config.default_application_mode,
            final(self).config.selected_monitor == old(self).config.selected_monitor,
            final(self).config.preserve_table_slots == old(self).config.preserve_table_slots,
            final(self).config.auto_arrange == old(self).config.auto_arrange,
            final(self).config.hotkeys == old(self).config.hotkeys,
            old(self).save_requested ==> final(self).save_requested,
            old(self).config.table_aspect_ratio is Some ==> final(self).config.table_aspect_ratio
                == old(self).config.table_aspect_ratio,
    {
        let listed = backend.enumerate_candidates();
        let displays = match listed {
            Ok(_) => backend.monitors(),
            Err(_) => Ok(Vec::new()),
        };
        let ghost listing = listed;
        let discovered = self.apply_listing(backend, listed, displays);
        proof {
            if let Ok(l) = listing {
                assert(listing_taken_in(*old(self), *self, l@));
            }
        }
        discovered
    }

    /// Takes in `listed` and `displays`, the backend's answers to requests for
    /// the windows and the monitors of the desktop. A failed window listing
    /// only changes the status line; a failed monitor listing leaves no
    /// monitors. Otherwise the
    /// windows are listed in the panel's order (`session_order`), the tables
    /// are taken in (`taken_in`), outcomes of windows that are gone are
    /// forgotten, the table ratio is learnt once from the tables, changed
    /// desktops get their parked windows lined up again and a reflow
    /// requested, and the status line counts the poker tables and the other
    /// windows. Every table then belongs to a listed window that should be
    /// managed and, when the listed windows have distinct ids, every such
    /// window has a table.
    #[verifier::spinoff_prover]
    #[verifier::rlimit(100)]
    pub fn apply_listing<B: WindowBackend>(
        &mut self,
        backend: &B,
        listed: Result<Vec<WindowCandidate>, crate::model::BackendError>,
        displays: Result<Vec<MonitorInfo>, crate::model::BackendError>,
    ) -> (discovered: bool)
        requires
            old(self).wf(),
        ensures
            final(self).wf(),
            discovered == listed is Ok,
            listed is Ok ==> final(self).monitors@ == match displays {
                Ok(list) => list@,
                Err(_) => Seq::empty(),
            },
            listed matches Err(error) ==> final(self).status_message@ == "Window discovery failed: "@
                + crate::model::backend_error_text(error)
                && final(self).tables == old(self).tables
                && final(self).candidates == old(self).candidates
                && final(self).window_statuses == old(self).window_statuses
                && final(self).monitors == old(self).monitors
                && final(self).config == old(self).config
                && final(self).dirty == old(self).dirty
                && final(self).save_requested == old(self).save_requested
                && final(self).calls == old(self).calls,
            listed matches Ok(list) ==> listing_taken_in(*old(self), *final(self), list@),
            discovered ==> backed(final(self).tables@, final(self).config, final(self).candidates@),
            discovered && distinct_ids(candidate_ids(final(self).candidates@)) ==> covered(
                final(self).tables@,
                final(self).config,
                final(self).candidates@,
            ),
            discovered ==> forall|x: WindowId|
                status_ids(final(self).window_statuses@).contains(x) ==> candidate_ids(
                    final(self).candidates@,
                ).contains(x),
            discovered ==> final(self).status_message@ == crate::placement::discovery_summary_text(
                count_poker(final(self).candidates@, final(self).tables@),
                (final(self).candidates@.len() - count_poker(final(self).candidates@, final(self).tables@)) as nat,
            ),
            discovered ==> can_park(*final(self)) ==> forall|i: int|
                0 <= i < final(self).tables@.len() && !(#[trigger] final(self).tables@[i]).enabled
                    ==> final(self).tables@[i].status != TableStatus::Ready,
            final(self).config.detection_rules == old(self).config.detection_rules,
            final(self).config.default_application_mode == old(self).config.default_application_mode,
            final(self).config.selected_monitor == old(self).config.selected_monitor,
            final(self).config.preserve_table_slots == old(self).config.preserve_table_slots,
            final(self).config.auto_arrange == old(self).config.auto_arrange,
            final(self).config.hotkeys == old(self).config.hotkeys,
            old(self).save_requested ==> final(self).save_requested,
            old(self).config.table_aspect_ratio is Some ==> final(self).config.table_aspect_ratio
                == old(self).config.table_aspect_ratio,
    {
        let ghost start = *self;
        let listed = match listed {
            Ok(list) => list,
            Err(error) => {
                self.status_message = crate::placement::failure_message("Window discovery failed: ", &error);
                return false;
            },
        };
        let candidates = session_order(&self.candidates, &listed);
        let monitors = match displays {
            Ok(list) => list,
            Err(error) => {
                self.status_message = crate::placement::failure_message("Monitor discovery failed: ", &error);
                Vec::new()
            },
        };
        let old_ids = ids_of_tables(&self.tables);
        let old_candidate_ids = ids_of_candidates(&self.candidates);
        let old_positioned = self.positioned_window_ids();
        let ghost before_take = *self;
        if self.take_in(&candidates) {
            self.save_requested = true;
        }
        let ghost taken = self.tables@;
        let ghost after_take_config = self.config;
        let new_ids = ids_of_tables(&self.tables);
        let new_candidate_ids = ids_of_candidates(&candidates);
        let table_set_changed = !same_ids(&old_ids, &new_ids);
        let candidate_set_changed = !same_ids(&old_candidate_ids, &new_candidate_ids);
        let monitor_changed = !same_monitors(&self.monitors, &monitors);
        self.candidates = candidates;
        self.monitors = monitors;
        retain_listed_statuses(&mut self.window_statuses, &self.candidates);
        let new_positioned = self.positioned_window_ids();
        let positioned_set_changed = !same_ids(&old_positioned, &new_positioned);
        proof {
            lemma_positioned_ignores_other_settings(self.config, start.config, self.candidates@);
        }
        if self.config.table_aspect_ratio.is_none() {
            let detected = detect_table_ratio(&self.tables);
            if detected.is_some() {
                self.config.table_aspect_ratio = detected;
                self.save_requested = true;
            }
        }
        let ghost before_park = *self;
        if table_set_changed || monitor_changed || candidate_set_changed || has_unparked_disabled(&self.tables) {
            self.park_all(backend);
        } else {
            proof {
                lemma_unchanged_is_same(self.tables@, self.candidates@);
            }
        }
        proof {
            lemma_placement_keeps_backing(before_park.tables@, self.tables@, before_take.config, before_park.candidates@);
            lemma_candidates_keep_identity(self.tables@, before_take.config, self.config, before_park.candidates@, self.candidates@);
            assert forall|x: WindowId| status_ids(self.window_statuses@).contains(x) implies candidate_ids(self.candidates@).contains(x) by {
                crate::tracking::lemma_status_listed(self.window_statuses@, x);
                crate::tracking::lemma_status_listed(before_park.window_statuses@, x);
                if status_of(self.window_statuses@, x) != status_of(before_park.window_statuses@, x) {
                    let k = choose|k: int| 0 <= k < before_park.candidates@.len() && (#[trigger] before_park.candidates@[k]).id == x
                        && crate::arrangement::parked_lobby(before_park.config, before_park.candidates@[k]);
                    assert(candidate_ids(before_park.candidates@)[k] == x);
                }
            }
        }
        if table_set_changed || positioned_set_changed || monitor_changed {
            self.dirty = true;
        }
        let poker = poker_count(&self.candidates, &self.tables);
        self.status_message = crate::placement::discovery_summary(poker, self.candidates.len() - poker);
        proof {
            lemma_listing_witness(start, *self, listed@, before_park.candidates@, taken, after_take_config);
        }
        true
    }
}

} // verus!
