//! Parked windows do not overlap: placed one after another with
//! `park_slot` and `advance_park_cursor`, from the bottom-right corner of the
//! work area, every window sits beside or above the ones before it, as long
//! as each row still fits below the top of the work area.
use crate::model::{clamp_i32, max_int, Rect, Size};
use crate::placement::{clamp_extent, park_advanced, park_rect_spec, ParkCursor};
use vstd::prelude::*;

verus! {

/// The cursor at the bottom-right corner of `work`.
pub open spec fn park_start(work: Rect) -> ParkCursor {
    ParkCursor { right: work.spec_right() as i32, bottom: work.spec_bottom() as i32, row_height: 0 }
}

/// The rectangles of windows of `sizes` parked one after another, each
/// window taking the rectangle it was given, and the cursor after them.
pub open spec fn parked_sequence(work: Rect, sizes: Seq<Size>) -> (Seq<Rect>, ParkCursor)
    decreases sizes.len(),
{
    if sizes.len() == 0 {
        (Seq::empty(), park_start(work))
    } else {
        let before = parked_sequence(work, sizes.drop_last());
        let placed = park_rect_spec(work, before.1, sizes.last());
        (before.0.push(placed.0), park_advanced(placed.1, placed.0.left, placed.0.height))
    }
}

/// A window of `size` placed from `cursor` ends up wholly below the top of
/// the work area, without being pushed down against it.
pub open spec fn row_fits(work: Rect, cursor: ParkCursor, size: Size) -> bool {
    park_rect_spec(work, cursor, size).1.bottom - clamp_extent(size.height as int, work.height as int) >= work.top
}

/// Every window of `sizes` fits where it is parked.
pub open spec fn rows_fit(work: Rect, sizes: Seq<Size>) -> bool {
    forall|k: int| 0 <= k < sizes.len() ==> row_fits(work, #[trigger] parked_sequence(work, sizes.take(k)).1, sizes[k])
}

/// Two rectangles share no point.
pub open spec fn apart(a: Rect, b: Rect) -> bool {
    ||| a.left + a.width <= b.left
    ||| b.left + b.width <= a.left
    ||| a.top + a.height <= b.top
    ||| b.top + b.height <= a.top
}

/// A parked window lies to the right of the cursor within its row, or below the row.
pub open spec fn behind(r: Rect, c: ParkCursor) -> bool {
    ||| (r.left >= c.right && r.top >= c.bottom - c.row_height && r.top + r.height <= c.bottom)
    ||| r.top >= c.bottom
}

/// The cursor stays within the work area's width, above its bottom.
pub open spec fn cursor_ok(work: Rect, c: ParkCursor) -> bool {
    &&& work.left <= c.right <= work.left + work.width
    &&& c.row_height >= 0
    &&& c.bottom <= work.top + work.height
}

pub open spec fn all_apart(rects: Seq<Rect>) -> bool {
    forall|i: int, j: int| 0 <= i < j < rects.len() ==> apart(#[trigger] rects[i], #[trigger] rects[j])
}

pub open spec fn usable_work(work: Rect) -> bool {
    &&& work.width >= 1
    &&& work.height >= 1
    &&& work.left + work.width <= i32::MAX
    &&& work.top + work.height <= i32::MAX
    &&& work.left - work.width >= i32::MIN
}

proof fn lemma_park_step(work: Rect, c: ParkCursor, size: Size, placed: Seq<Rect>)
    requires
        usable_work(work),
        cursor_ok(work, c),
        forall|i: int| 0 <= i < placed.len() ==> behind(#[trigger] placed[i], c),
        all_apart(placed),
        row_fits(work, c, size),
    ensures
        ({
            let step = park_rect_spec(work, c, size);
            let next = park_advanced(step.1, step.0.left, step.0.height);
            let all = placed.push(step.0);
            &&& cursor_ok(work, next)
            &&& forall|i: int| 0 <= i < all.len() ==> behind(#[trigger] all[i], next)
            &&& all_apart(all)
        }),
{
    let step = park_rect_spec(work, c, size);
    let r = step.0;
    let from = step.1;
    let next = park_advanced(from, r.left, r.height);
    let all = placed.push(r);
    let width = clamp_extent(size.width as int, work.width as int);
    let height = clamp_extent(size.height as int, work.height as int);
    let wraps = clamp_i32(c.right - width) < work.left;
    assert(work.spec_right() == work.left + work.width);
    assert(r.width == width && r.height == height);
    if wraps {
        assert(from.right == work.left + work.width);
        assert(from.bottom == c.bottom - c.row_height);
    } else {
        assert(from == c);
    }
    assert(r.left == from.right - width);
    assert(r.top == from.bottom - height);
    assert forall|i: int| 0 <= i < all.len() implies behind(#[trigger] all[i], next) by {
        if i < placed.len() {
            assert(all[i] == placed[i]);
            assert(behind(placed[i], c));
        }
    }
    assert forall|i: int, j: int| 0 <= i < j < all.len() implies apart(#[trigger] all[i], #[trigger] all[j]) by {
        if j < placed.len() {
            assert(all[i] == placed[i] && all[j] == placed[j]);
        } else {
            assert(all[i] == placed[i]);
            assert(all[j] == r);
            assert(behind(placed[i], c));
        }
    }
}

proof fn lemma_parked_sequence(work: Rect, sizes: Seq<Size>)
    requires
        usable_work(work),
        rows_fit(work, sizes),
    ensures
        ({
            let done = parked_sequence(work, sizes);
            &&& done.0.len() == sizes.len()
            &&& cursor_ok(work, done.1)
            &&& forall|i: int| 0 <= i < done.0.len() ==> behind(#[trigger] done.0[i], done.1)
            &&& all_apart(done.0)
        }),
    decreases sizes.len(),
{
    if sizes.len() > 0 {
        let init = sizes.drop_last();
        assert forall|k: int| 0 <= k < init.len() implies row_fits(work, #[trigger] parked_sequence(work, init.take(k)).1, init[k]) by {
            assert(init.take(k) =~= sizes.take(k));
            assert(row_fits(work, parked_sequence(work, sizes.take(k)).1, sizes[k]));
        }
        lemma_parked_sequence(work, init);
        let k = sizes.len() - 1;
        assert(sizes.take(k) =~= init);
        assert(row_fits(work, parked_sequence(work, sizes.take(k)).1, sizes[k]));
        let before = parked_sequence(work, init);
        lemma_park_step(work, before.1, sizes.last(), before.0);
    } else {
        assert(work.spec_right() == work.left + work.width);
        assert(work.spec_bottom() == work.top + work.height);
    }
}

/// Windows parked one after another from the bottom-right corner, each at
/// the rectangle it was given, never overlap one another while every row
/// still fits below the top of the work area.
pub proof fn law_parked_windows_do_not_overlap(work: Rect, sizes: Seq<Size>, i: int, j: int)
    requires
        usable_work(work),
        rows_fit(work, sizes),
        0 <= i < j < sizes.len(),
    ensures
        apart(parked_sequence(work, sizes).0[i], parked_sequence(work, sizes).0[j]),
{
    lemma_parked_sequence(work, sizes);
}

/// The total width of the first `n` windows.
pub open spec fn row_width(sizes: Seq<Size>, n: int) -> int
    decreases n,
{
    if n <= 0 {
        0
    } else {
        row_width(sizes, n - 1) + sizes[n - 1].width
    }
}

/// The tallest of the first `n` windows (0 for none).
pub open spec fn row_height(sizes: Seq<Size>, n: int) -> int
    decreases n,
{
    if n <= 0 {
        0
    } else {
        max_int(row_height(sizes, n - 1), sizes[n - 1].height as int)
    }
}

/// Every window fits the work area, and all of them fit side by side.
pub open spec fn fits_one_row(work: Rect, sizes: Seq<Size>) -> bool {
    &&& forall|j: int| 0 <= j < sizes.len() ==> 1 <= (#[trigger] sizes[j]).width <= work.width && 1 <= sizes[j].height <= work.height
    &&& row_width(sizes, sizes.len() as int) <= work.width
}

proof fn lemma_row_width_grows(sizes: Seq<Size>, m: int, n: int)
    requires
        0 <= m <= n <= sizes.len(),
        forall|j: int| 0 <= j < sizes.len() ==> 1 <= (#[trigger] sizes[j]).width,
    ensures
        row_width(sizes, m) <= row_width(sizes, n),
        m < n ==> row_width(sizes, m) < row_width(sizes, n),
    decreases n - m,
{
    if m < n {
        lemma_row_width_grows(sizes, m, n - 1);
    }
}

proof fn lemma_one_row(work: Rect, sizes: Seq<Size>, n: int)
    requires
        usable_work(work),
        fits_one_row(work, sizes),
        0 <= n <= sizes.len(),
    ensures
        parked_sequence(work, sizes.take(n)).0.len() == n,
        parked_sequence(work, sizes.take(n)).1 == (ParkCursor {
            right: (work.left + work.width - row_width(sizes, n)) as i32,
            bottom: (work.top + work.height) as i32,
            row_height: row_height(sizes, n) as i32,
        }),
        forall|k: int| 0 <= k < n ==> (#[trigger] parked_sequence(work, sizes.take(n)).0[k]) == (Rect {
            left: (work.left + work.width - row_width(sizes, k + 1)) as i32,
            top: (work.top + work.height - sizes[k].height) as i32,
            width: sizes[k].width,
            height: sizes[k].height,
        }),
    decreases n,
{
    lemma_row_width_grows(sizes, 0, sizes.len() as int);
    if n == 0 {
        assert(sizes.take(0) =~= Seq::<Size>::empty());
    } else {
        let m = n - 1;
        lemma_one_row(work, sizes, m);
        lemma_row_width_grows(sizes, n, sizes.len() as int);
        lemma_row_width_grows(sizes, 0, m);
        assert(sizes.take(n).drop_last() =~= sizes.take(m));
        assert(sizes.take(n).last() == sizes[m]);
        let size = sizes[m];
        assert(1 <= size.width <= work.width && 1 <= size.height <= work.height);
        let before = parked_sequence(work, sizes.take(m));
        let placed = park_rect_spec(work, before.1, size);
        assert(row_height(sizes, m) <= work.height) by {
            lemma_row_height_bounded(work, sizes, m);
        }
        assert(placed.1 == before.1);
        assert(placed.0 == Rect {
            left: (work.left + work.width - row_width(sizes, n)) as i32,
            top: (work.top + work.height - size.height) as i32,
            width: size.width,
            height: size.height,
        });
        let after = parked_sequence(work, sizes.take(n));
        assert(after.0 == before.0.push(placed.0));
        assert forall|k: int| 0 <= k < n implies (#[trigger] after.0[k]) == (Rect {
            left: (work.left + work.width - row_width(sizes, k + 1)) as i32,
            top: (work.top + work.height - sizes[k].height) as i32,
            width: sizes[k].width,
            height: sizes[k].height,
        }) by {
            if k < m {
                assert(after.0[k] == before.0[k]);
            }
        }
    }
}

proof fn lemma_row_height_bounded(work: Rect, sizes: Seq<Size>, n: int)
    requires
        work.height >= 1,
        fits_one_row(work, sizes),
        0 <= n <= sizes.len(),
    ensures
        0 <= row_height(sizes, n) <= work.height,
    decreases n,
{
    if n > 0 {
        lemma_row_height_bounded(work, sizes, n - 1);
        assert(1 <= sizes[n - 1].height <= work.height);
    }
}

/// Parked windows that all fit side by side form one row at the bottom of
/// the work area: the first at the bottom-right corner, each next one just
/// left of the one before, every one at its own size.
pub proof fn law_parked_windows_form_one_row(work: Rect, sizes: Seq<Size>, k: int)
    requires
        usable_work(work),
        fits_one_row(work, sizes),
        0 <= k < sizes.len(),
    ensures
        parked_sequence(work, sizes).0[k] == (Rect {
            left: (work.left + work.width - row_width(sizes, k + 1)) as i32,
            top: (work.top + work.height - sizes[k].height) as i32,
            width: sizes[k].width,
            height: sizes[k].height,
        }),
{
    lemma_one_row(work, sizes, sizes.len() as int);
    assert(sizes.take(sizes.len() as int) =~= sizes);
}

} // verus!
