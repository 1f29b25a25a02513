//! Which window each cell of an arrangement goes to, and what is asked of the
//! desktop for it. Tables that show the same name are separate windows: the
//! first cell assigned a name goes to the first enabled table with that name,
//! the second cell to the second, and so on.
use crate::calls::DesktopCall;
use crate::model::{BackendError, ManagedTable, Rect, SignatureView, TableStatus, WindowSignature};
use crate::placement::request_views;
use crate::tracking::enabled_with;
use vstd::prelude::*;

verus! {

/// How many of the first `k` requests name `signature`.
pub open spec fn count_sig(requests: Seq<(SignatureView, Rect)>, signature: SignatureView, k: int) -> nat
    decreases k,
{
    if k <= 0 {
        0
    } else {
        count_sig(requests, signature, k - 1) + if requests[k - 1].0 == signature {
            1nat
        } else {
            0nat
        }
    }
}

/// How many of the first `i` tables are enabled and show `signature`.
pub open spec fn count_enabled_with(tables: Seq<ManagedTable>, signature: SignatureView, i: int) -> nat
    decreases i,
{
    if i <= 0 {
        0
    } else {
        count_enabled_with(tables, signature, i - 1) + if enabled_with(signature)(tables[i - 1]) {
            1nat
        } else {
            0nat
        }
    }
}

/// Table `t` is the enabled table with `signature` that has `o` such tables before it.
pub open spec fn is_nth_enabled(tables: Seq<ManagedTable>, signature: SignatureView, o: nat, t: int) -> bool {
    &&& 0 <= t < tables.len()
    &&& enabled_with(signature)(tables[t])
    &&& count_enabled_with(tables, signature, t) == o
}

/// The table the `k`-th request moves: the enabled table with the request's
/// name that has as many such tables before it as there are earlier requests
/// for that name; -1 when there is none.
pub open spec fn target_table(tables: Seq<ManagedTable>, requests: Seq<(SignatureView, Rect)>, k: int) -> int {
    let signature = requests[k].0;
    let o = count_sig(requests, signature, k);
    if exists|t: int| is_nth_enabled(tables, signature, o, t) {
        choose|t: int| is_nth_enabled(tables, signature, o, t)
    } else {
        -1
    }
}

proof fn lemma_count_enabled_grows(tables: Seq<ManagedTable>, signature: SignatureView, t: int, j: int)
    requires
        0 <= t < j <= tables.len(),
        enabled_with(signature)(tables[t]),
    ensures
        count_enabled_with(tables, signature, j) >= count_enabled_with(tables, signature, t) + 1,
    decreases j - t,
{
    if j > t + 1 {
        lemma_count_enabled_grows(tables, signature, t, j - 1);
    }
}

proof fn lemma_count_sig_grows(requests: Seq<(SignatureView, Rect)>, signature: SignatureView, j: int, k: int)
    requires
        0 <= j < k <= requests.len(),
        requests[j].0 == signature,
    ensures
        count_sig(requests, signature, k) >= count_sig(requests, signature, j) + 1,
    decreases k - j,
{
    if k > j + 1 {
        lemma_count_sig_grows(requests, signature, j, k - 1);
    }
}

/// At most one table is the `o`-th enabled table with a name.
pub proof fn lemma_nth_unique(tables: Seq<ManagedTable>, signature: SignatureView, o: nat, a: int, b: int)
    requires
        is_nth_enabled(tables, signature, o, a),
        is_nth_enabled(tables, signature, o, b),
    ensures
        a == b,
{
    if a < b {
        lemma_count_enabled_grows(tables, signature, a, b);
    } else if b < a {
        lemma_count_enabled_grows(tables, signature, b, a);
    }
}

/// Separate requests never move the same table.
pub proof fn law_each_table_moved_once(tables: Seq<ManagedTable>, requests: Seq<(SignatureView, Rect)>, j: int, k: int)
    requires
        0 <= j < k < requests.len(),
        target_table(tables, requests, j) >= 0,
    ensures
        target_table(tables, requests, k) != target_table(tables, requests, j),
{
    let t = target_table(tables, requests, j);
    let sj = requests[j].0;
    let oj = count_sig(requests, sj, j);
    assert(exists|x: int| is_nth_enabled(tables, sj, oj, x));
    assert(is_nth_enabled(tables, sj, oj, t));
    if target_table(tables, requests, k) == t {
        let sk = requests[k].0;
        let ok = count_sig(requests, sk, k);
        assert(exists|x: int| is_nth_enabled(tables, sk, ok, x));
        assert(is_nth_enabled(tables, sk, ok, t));
        assert(sk == sj);
        lemma_count_sig_grows(requests, sj, j, k);
    }
}

/// How many requests before the `k`-th name the same window as it.
fn occurrence(requests: &Vec<(WindowSignature, Rect)>, k: usize) -> (r: usize)
    requires
        k < requests@.len(),
    ensures
        r == count_sig(request_views(requests@), request_views(requests@)[k as int].0, k as int),
{
    let ghost views = request_views(requests@);
    let mut count: usize = 0;
    let mut j: usize = 0;
    while j < k
        invariant
            j <= k < requests@.len(),
            views == request_views(requests@),
            count == count_sig(views, views[k as int].0, j as int),
            count <= j,
        decreases k - j,
    {
        if crate::model::same_signature(&requests[j].0, &requests[k].0) {
            count += 1;
        }
        j += 1;
    }
    count
}

/// The index of the `o`-th enabled table with `signature` (the length when there is none).
fn nth_enabled_index(tables: &Vec<ManagedTable>, signature: &WindowSignature, o: usize) -> (r: usize)
    ensures
        r <= tables@.len(),
        r < tables@.len() ==> is_nth_enabled(tables@, signature@, o as nat, r as int),
        r == tables@.len() ==> forall|t: int| !is_nth_enabled(tables@, signature@, o as nat, t),
{
    let mut seen: usize = 0;
    let mut i: usize = 0;
    while i < tables.len()
        invariant
            i <= tables@.len(),
            seen == count_enabled_with(tables@, signature@, i as int),
            seen <= o,
            forall|t: int| 0 <= t < i ==> !is_nth_enabled(tables@, signature@, o as nat, t),
        decreases tables@.len() - i,
    {
        if tables[i].enabled && crate::model::same_signature(&tables[i].signature, signature) {
            if seen == o {
                return i;
            }
            seen += 1;
        }
        i += 1;
    }
    proof {
        assert forall|t: int| !is_nth_enabled(tables@, signature@, o as nat, t) by {
            if 0 <= t < tables@.len() {
            }
        }
    }
    i
}

/// The table each request moves (see `target_table`), the length of
/// `tables` where none.
pub fn request_targets(tables: &Vec<ManagedTable>, requests: &Vec<(WindowSignature, Rect)>) -> (r: Vec<usize>)
    ensures
        r@.len() == requests@.len(),
        forall|k: int|
            0 <= k < requests@.len() ==> (#[trigger] r@[k] as int) == if target_table(tables@, request_views(requests@), k) >= 0 {
                target_table(tables@, request_views(requests@), k)
            } else {
                tables@.len() as int
            },
{
    let ghost views = request_views(requests@);
    let mut out: Vec<usize> = Vec::new();
    let mut k: usize = 0;
    while k < requests.len()
        invariant
            k <= requests@.len(),
            views == request_views(requests@),
            out@.len() == k,
            forall|j: int|
                0 <= j < k ==> (#[trigger] out@[j] as int) == if target_table(tables@, views, j) >= 0 {
                    target_table(tables@, views, j)
                } else {
                    tables@.len() as int
                },
        decreases requests@.len() - k,
    {
        let o = occurrence(requests, k);
        let t = nth_enabled_index(tables, &requests[k].0, o);
        proof {
            let signature = views[k as int].0;
            assert(signature == requests@[k as int].0@);
            if t < tables@.len() {
                let chosen = target_table(tables@, views, k as int);
                assert(is_nth_enabled(tables@, signature, o as nat, t as int));
                assert(is_nth_enabled(tables@, signature, o as nat, chosen));
                lemma_nth_unique(tables@, signature, o as nat, t as int, chosen);
            }
        }
        out.push(t);
        k += 1;
    }
    out
}

// ----- what an arrangement asks -----

/// A minimum-size answer that the requested rectangle is too small for.
pub open spec fn stops_at_minimum(size_call: DesktopCall, rect: Rect) -> bool {
    size_call matches DesktopCall::MinimumSize { minimum: Ok(minimum), .. } && (rect.width < minimum.width
        || rect.height < minimum.height)
}

/// Where the questions for the `k`-th request start: each request with a
/// table asks for the table's minimum size and, unless the cell is too
/// small, moves the table.
pub open spec fn arrange_pos(tables: Seq<ManagedTable>, requests: Seq<(SignatureView, Rect)>, calls: Seq<DesktopCall>, k: int) -> int
    decreases k,
{
    if k <= 0 {
        0
    } else {
        let c = arrange_pos(tables, requests, calls, k - 1);
        if target_table(tables, requests, k - 1) < 0 {
            c
        } else if stops_at_minimum(calls[c], requests[k - 1].1) {
            c + 1
        } else {
            c + 2
        }
    }
}

/// The questions for the `k`-th request: its table's minimum size, then,
/// unless the cell is too small, the move of the table to its cell.
pub open spec fn asks_for_request(tables: Seq<ManagedTable>, requests: Seq<(SignatureView, Rect)>, calls: Seq<DesktopCall>, k: int) -> bool {
    let t = target_table(tables, requests, k);
    let c = arrange_pos(tables, requests, calls, k);
    t >= 0 ==> {
        &&& calls[c] matches DesktopCall::MinimumSize { id, .. } && id == tables[t].id
        &&& !stops_at_minimum(calls[c], requests[k].1) ==> (calls[c + 1] matches DesktopCall::Move { id, rect, .. } && id
            == tables[t].id && rect == requests[k].1)
    }
}

/// The questions for later requests start no earlier than those for earlier ones.
pub proof fn lemma_pos_mono(tables: Seq<ManagedTable>, requests: Seq<(SignatureView, Rect)>, calls: Seq<DesktopCall>, j: int, k: int)
    requires
        0 <= j <= k,
    ensures
        arrange_pos(tables, requests, calls, j) <= arrange_pos(tables, requests, calls, k),
        j < k && target_table(tables, requests, j) >= 0 ==> arrange_pos(tables, requests, calls, j) + 1 <= arrange_pos(tables, requests, calls, k),
        j < k && target_table(tables, requests, j) >= 0 && !stops_at_minimum(calls[arrange_pos(tables, requests, calls, j)], requests[j].1)
            ==> arrange_pos(tables, requests, calls, j) + 2 <= arrange_pos(tables, requests, calls, k),
    decreases k - j,
{
    if j < k {
        lemma_pos_mono(tables, requests, calls, j + 1, k);
    }
}

/// Questions asked later do not change where earlier requests' questions stand.
pub proof fn lemma_pos_keeps(tables: Seq<ManagedTable>, requests: Seq<(SignatureView, Rect)>, calls: Seq<DesktopCall>, more: Seq<DesktopCall>, k: int)
    requires
        0 <= k,
        arrange_pos(tables, requests, calls, k) <= calls.len(),
    ensures
        forall|j: int| 0 <= j <= k ==> arrange_pos(tables, requests, calls + more, j) == arrange_pos(tables, requests, calls, j),
    decreases k,
{
    if k > 0 {
        lemma_pos_mono(tables, requests, calls, k - 1, k);
        lemma_pos_mono(tables, requests, calls, 0, k - 1);
        lemma_pos_keeps(tables, requests, calls, more, k - 1);
        let c = arrange_pos(tables, requests, calls, k - 1);
        if target_table(tables, requests, k - 1) >= 0 {
            assert((calls + more)[c] == calls[c]);
        }
    }
}

/// How the first `k` requests went: how many tables moved, how many did not
/// (their cell was too small or the move failed), and how many of those
/// were refused.
pub open spec fn arrange_tally(tables: Seq<ManagedTable>, requests: Seq<(SignatureView, Rect)>, calls: Seq<DesktopCall>, k: int) -> (nat, nat, nat)
    decreases k,
{
    if k <= 0 {
        (0, 0, 0)
    } else {
        let before = arrange_tally(tables, requests, calls, k - 1);
        let c = arrange_pos(tables, requests, calls, k - 1);
        if target_table(tables, requests, k - 1) < 0 {
            before
        } else if stops_at_minimum(calls[c], requests[k - 1].1) {
            (before.0, before.1 + 1, before.2)
        } else {
            match calls[c + 1]->Move_answer {
                Ok(_) => (before.0 + 1, before.1, before.2),
                Err(BackendError::AccessDenied) => (before.0, before.1 + 1, before.2 + 1),
                Err(_) => (before.0, before.1 + 1, before.2),
            }
        }
    }
}

/// Questions asked later do not change how earlier requests went.
pub proof fn lemma_tally_keeps(tables: Seq<ManagedTable>, requests: Seq<(SignatureView, Rect)>, calls: Seq<DesktopCall>, more: Seq<DesktopCall>, k: int)
    requires
        0 <= k,
        arrange_pos(tables, requests, calls, k) <= calls.len(),
    ensures
        arrange_tally(tables, requests, calls + more, k) == arrange_tally(tables, requests, calls, k),
    decreases k,
{
    lemma_pos_keeps(tables, requests, calls, more, k);
    if k > 0 {
        lemma_pos_mono(tables, requests, calls, k - 1, k);
        lemma_pos_mono(tables, requests, calls, 0, k - 1);
        lemma_tally_keeps(tables, requests, calls, more, k - 1);
        let c = arrange_pos(tables, requests, calls, k - 1);
        if target_table(tables, requests, k - 1) >= 0 {
            assert((calls + more)[c] == calls[c]);
            if !stops_at_minimum(calls[c], requests[k - 1].1) {
                assert((calls + more)[c + 1] == calls[c + 1]);
            }
        }
    }
}

/// The outcome recorded when a cell is smaller than its window allows.
pub open spec fn too_small_text() -> Seq<char> {
    "The mixed layout is smaller than this window's supported minimum"@
}

/// Table `after` is table `before` once its cell `rect` was asked for with
/// `size_call` and `move_call`.
pub open spec fn table_arranged(before: ManagedTable, after: ManagedTable, size_call: DesktopCall, move_call: DesktopCall, rect: Rect) -> bool {
    if stops_at_minimum(size_call, rect) {
        after.status matches TableStatus::MoveFailed(text) && text@ == too_small_text()
    } else {
        match (move_call->Move_answer) {
            Ok(actual) => after.status == TableStatus::Ready && after.current_rect == actual && after.last_active_rect
                == actual,
            Err(BackendError::AccessDenied) => after.status == TableStatus::AccessDenied,
            Err(BackendError::WindowGone) => after.status == before.status,
            Err(BackendError::Other(message)) => after.status matches TableStatus::MoveFailed(text) && text@
                == message@,
        }
    }
}

} // verus!
