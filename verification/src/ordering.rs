//! Stable reordering of lists by integer sort keys.
use vstd::prelude::*;

verus! {

/// Element `a` goes before element `b`: smaller key first, ties in the order given.
pub open spec fn before(keys: Seq<u128>, a: int, b: int) -> bool {
    keys[a] < keys[b] || (keys[a] == keys[b] && a < b)
}

/// `order` lists every index of `0..n` exactly once.
pub open spec fn is_permutation(order: Seq<usize>, n: int) -> bool {
    &&& order.len() == n
    &&& forall|i: int| 0 <= i < order.len() ==> order[i] < n
    &&& forall|i: int, j: int| 0 <= i < j < order.len() ==> order[i] != order[j]
    &&& forall|j: int| 0 <= j < n ==> #[trigger] lists(order, j)
}

/// Some position of `order` holds `j`.
pub open spec fn lists(order: Seq<usize>, j: int) -> bool {
    exists|i: int| 0 <= i < order.len() && order[i] == j
}

/// `order` lists indices by increasing key, equal keys in the order given.
pub open spec fn stably_sorted(keys: Seq<u128>, order: Seq<usize>) -> bool {
    forall|i: int, j: int|
        0 <= i < j < order.len() ==> before(keys, order[i] as int, order[j] as int)
}

/// The stable sorting permutation of `keys`: the indices `0..n` ordered by key,
/// equal keys keeping the order given.
pub fn stable_order(keys: &Vec<u128>) -> (order: Vec<usize>)
    ensures
        is_permutation(order@, keys@.len() as int),
        stably_sorted(keys@, order@),
{
    let mut order: Vec<usize> = Vec::new();
    let mut k: usize = 0;
    while k < keys.len()
        invariant
            k <= keys.len(),
            order@.len() == k,
            forall|i: int| 0 <= i < order@.len() ==> order@[i] < k,
            forall|i: int, j: int| 0 <= i < j < order@.len() ==> order@[i] != order@[j],
            forall|j: int| 0 <= j < k ==> #[trigger] lists(order@, j),
            stably_sorted(keys@, order@),
        decreases keys.len() - k,
    {
        let key = keys[k];
        let mut position: usize = 0;
        while position < order.len() && keys[order[position]] <= key
            invariant
                position <= order@.len(),
                k < keys@.len(),
                key == keys@[k as int],
                forall|i: int| 0 <= i < order@.len() ==> order@[i] < k,
                forall|i: int| 0 <= i < position ==> keys@[order@[i] as int] <= key,
            decreases order@.len() - position,
        {
            position += 1;
        }
        let ghost previous = order@;
        proof {
            // everything from `position` on has a larger key
            assert forall|i: int| position <= i < previous.len() implies keys@[previous[i] as int]
                > key by {
                if position < previous.len() {
                    assert(keys@[previous[position as int] as int] > key);
                    if i > position {
                        assert(before(keys@, previous[position as int] as int, previous[i] as int));
                    }
                }
            }
        }
        order.insert(position, k);
        assert(order@ == previous.insert(position as int, k));
        assert forall|i: int, j: int| 0 <= i < j < order@.len() implies before(
            keys@,
            order@[i] as int,
            order@[j] as int,
        ) by {
            if j < position {
                assert(order@[i] == previous[i] && order@[j] == previous[j]);
            } else if j == position {
                assert(order@[i] == previous[i]);
            } else if i < position {
                assert(order@[i] == previous[i] && order@[j] == previous[j - 1]);
            } else if i == position {
                assert(order@[j] == previous[j - 1]);
            } else {
                assert(order@[i] == previous[i - 1] && order@[j] == previous[j - 1]);
            }
        }
        assert forall|i: int, j: int| 0 <= i < j < order@.len() implies order@[i] != order@[j] by {
            if j < position {
                assert(order@[i] == previous[i] && order@[j] == previous[j]);
            } else if j == position {
                assert(order@[i] == previous[i]);
            } else if i < position {
                assert(order@[i] == previous[i] && order@[j] == previous[j - 1]);
            } else if i == position {
                assert(order@[j] == previous[j - 1]);
            } else {
                assert(order@[i] == previous[i - 1] && order@[j] == previous[j - 1]);
            }
        }
        assert forall|j: int| 0 <= j < k + 1 implies #[trigger] lists(order@, j) by {
            if j == k {
                assert(order@[position as int] == k);
            } else {
                assert(lists(previous, j));
                let i = choose|i: int| 0 <= i < previous.len() && previous[i] == j;
                if i < position {
                    assert(order@[i] == j);
                } else {
                    assert(order@[i + 1] == j);
                }
            }
        }
        assert forall|i: int| 0 <= i < order@.len() implies order@[i] < k + 1 by {
            if i < position {
                assert(order@[i] == previous[i]);
            } else if i > position {
                assert(order@[i] == previous[i - 1]);
            }
        }
        k += 1;
    }
    order
}

/// The elements of `items` in the order `order` gives.
pub open spec fn arranged<T>(items: Seq<T>, order: Seq<usize>) -> Seq<T> {
    Seq::new(order.len(), |i: int| items[order[i] as int])
}

/// `items` taken in the order `order` gives.
pub fn permuted<T: Clone>(items: &Vec<T>, order: &Vec<usize>) -> (r: Vec<T>)
    requires
        forall|i: int| 0 <= i < order@.len() ==> order@[i] < items@.len(),
        forall|a: T, b: T| vstd::pervasive::strictly_cloned(a, b) ==> a == b,
    ensures
        r@ == arranged(items@, order@),
{
    let mut out: Vec<T> = Vec::new();
    let mut i: usize = 0;
    while i < order.len()
        invariant
            i <= order@.len(),
            forall|k: int| 0 <= k < order@.len() ==> order@[k] < items@.len(),
            forall|a: T, b: T| vstd::pervasive::strictly_cloned(a, b) ==> a == b,
            out@ == arranged(items@, order@).subrange(0, i as int),
        decreases order@.len() - i,
    {
        let item = items[order[i]].clone();
        assert(vstd::pervasive::strictly_cloned(items@[order@[i as int] as int], item));
        assert(item == items@[order@[i as int] as int]);
        out.push(item);
        i += 1;
        assert(out@ =~= arranged(items@, order@).subrange(0, i as int));
    }
    assert(arranged(items@, order@).subrange(0, i as int) =~= arranged(items@, order@));
    out
}

/// A reordering keeps the elements: each element of the result is one of
/// the input and each element of the input is in the result.
pub proof fn lemma_arranged_elements<T>(items: Seq<T>, order: Seq<usize>)
    requires
        is_permutation(order, items.len() as int),
    ensures
        arranged(items, order).len() == items.len(),
        forall|i: int| 0 <= i < items.len() ==> items.contains(#[trigger] arranged(items, order)[i]),
        forall|j: int| 0 <= j < items.len() ==> arranged(items, order).contains(#[trigger] items[j]),
{
    let out = arranged(items, order);
    assert forall|i: int| 0 <= i < items.len() implies items.contains(#[trigger] out[i]) by {
        assert(out[i] == items[order[i] as int]);
    }
    assert forall|j: int| 0 <= j < items.len() implies out.contains(#[trigger] items[j]) by {
        assert(lists(order, j));
        let i = choose|i: int| 0 <= i < order.len() && order[i] == j;
        assert(out[i] == items[j]);
    }
}

/// A sort key: `tag` first, then `index`.
pub open spec fn key_of(tag: u8, index: usize) -> u128 {
    ((tag as int) * 18446744073709551616 + (index as int)) as u128
}

pub fn make_key(tag: u8, index: usize) -> (r: u128)
    ensures
        r == key_of(tag, index),
{
    (tag as u128) * 18446744073709551616u128 + (index as u128)
}

} // verus!
