//! Geometry of the poker columns and of the free strip to their right.
use crate::model::{
    AspectRatio, PokerClientKind, Rect, RATIO_SCALE, clamp_i32, max_int, min_int,
    saturating_add_i32,
};
use vstd::prelude::*;

verus! {

/// ClubGG's 4:3 table ratio, in the fixed-point scale of `AspectRatio` (rounded up).
pub const DEFAULT_RATIO_SCALED: u64 = 5726623062;

/// Pokerrr 2's natural 9:16 portrait ratio, in the fixed-point scale of `AspectRatio`.
pub const LDPLAYER_NATURAL_RATIO_SCALED: u64 = 2415919104;

/// The smallest ratio a column accepts as given (1:4).
pub const MIN_VALID_RATIO_SCALED: u64 = 1073741824;

/// The largest ratio a column accepts as given (4:1).
pub const MAX_VALID_RATIO_SCALED: u64 = 17179869184;

pub fn default_aspect_ratio() -> (r: AspectRatio)
    ensures
        r.scaled == DEFAULT_RATIO_SCALED,
{
    AspectRatio { scaled: DEFAULT_RATIO_SCALED }
}

/// LDPlayer keeps at least its natural portrait ratio and any wider detected ratio.
pub fn normalized_ldplayer_aspect_ratio(detected: AspectRatio) -> (r: AspectRatio)
    ensures
        r.scaled == max_int(detected.scaled as int, LDPLAYER_NATURAL_RATIO_SCALED as int),
{
    if detected.scaled >= LDPLAYER_NATURAL_RATIO_SCALED {
        detected
    } else {
        AspectRatio { scaled: LDPLAYER_NATURAL_RATIO_SCALED }
    }
}

pub open spec fn valid_ratio_spec(ratio: AspectRatio) -> u64 {
    if MIN_VALID_RATIO_SCALED <= ratio.scaled && ratio.scaled <= MAX_VALID_RATIO_SCALED {
        ratio.scaled
    } else {
        DEFAULT_RATIO_SCALED
    }
}

/// A ratio between 1:4 and 4:1 is used as given; anything else becomes 4:3.
fn valid_ratio(ratio: AspectRatio) -> (r: u64)
    ensures
        r == valid_ratio_spec(ratio),
        MIN_VALID_RATIO_SCALED <= r <= MAX_VALID_RATIO_SCALED,
{
    if MIN_VALID_RATIO_SCALED <= ratio.scaled && ratio.scaled <= MAX_VALID_RATIO_SCALED {
        ratio.scaled
    } else {
        DEFAULT_RATIO_SCALED
    }
}

/// One poker column to lay out: a ClubGG pair or a full-height LDPlayer window.
#[derive(Clone, Copy, Debug, PartialEq, Eq, Structural)]
pub enum PokerColumnSpec {
    ClubGg,
    LdPlayer { aspect_ratio: AspectRatio },
}

#[derive(Clone, Copy, Debug, PartialEq, Eq, Structural)]
pub struct PokerColumnLayout {
    pub bounds: Rect,
    pub top: Option<Rect>,
    pub bottom: Option<Rect>,
}

#[derive(Clone, Debug, PartialEq, Eq)]
pub struct MixedPokerLayout {
    pub height: i32,
    pub columns: Vec<PokerColumnLayout>,
}

/// Width per unit of height, times `3 * 2^32`: ClubGG pairs are 2/3 as wide
/// as tall, LDPlayer columns as wide as their ratio.
pub open spec fn column_weight(spec: PokerColumnSpec) -> int {
    match spec {
        PokerColumnSpec::ClubGg => 2 * RATIO_SCALE,
        PokerColumnSpec::LdPlayer { aspect_ratio } => 3 * valid_ratio_spec(aspect_ratio),
    }
}

pub open spec fn total_weight(specs: Seq<PokerColumnSpec>) -> int
    decreases specs.len(),
{
    if specs.len() == 0 {
        0
    } else {
        total_weight(specs.drop_last()) + column_weight(specs.last())
    }
}

pub open spec fn has_club(specs: Seq<PokerColumnSpec>) -> bool {
    exists|i: int| 0 <= i < specs.len() && specs[i] == PokerColumnSpec::ClubGg
}

/// The tallest height at which all columns fit side by side in `width`.
pub open spec fn height_for_width(width: int, specs: Seq<PokerColumnSpec>) -> int {
    min_int((width * 3 * RATIO_SCALE) / total_weight(specs), i32::MAX as int)
}

/// The shared column height: the work area's height, reduced when the
/// columns would not fit side by side, even when ClubGG pairs are present,
/// and never below 2.
pub open spec fn layout_height(work: Rect, specs: Seq<PokerColumnSpec>) -> int {
    let first = max_int(min_int(work.height as int, height_for_width(work.width as int, specs)), 2);
    let even = if has_club(specs) {
        first - first % 2
    } else {
        first
    };
    max_int(even, 2)
}

pub open spec fn column_width(spec: PokerColumnSpec, height: int) -> int {
    match spec {
        PokerColumnSpec::ClubGg => max_int(((height / 2) * 4) / 3, 1),
        PokerColumnSpec::LdPlayer { aspect_ratio } => max_int(
            min_int((height * valid_ratio_spec(aspect_ratio)) / (RATIO_SCALE as int), i32::MAX as int),
            1,
        ),
    }
}

/// The left edge of column `i`: each column starts where the previous one ends.
pub open spec fn column_left(left: int, specs: Seq<PokerColumnSpec>, height: int, i: int) -> int
    decreases i,
{
    if i <= 0 {
        left
    } else {
        clamp_i32(column_left(left, specs, height, i - 1) + column_width(specs[i - 1], height))
    }
}

/// Column `i` of the layout of `specs` in `work` at `height`.
pub open spec fn column_layout(
    work: Rect,
    specs: Seq<PokerColumnSpec>,
    height: int,
    i: int,
) -> PokerColumnLayout {
    let left = column_left(work.left as int, specs, height, i) as i32;
    let width = column_width(specs[i], height) as i32;
    let cell = (height / 2) as i32;
    PokerColumnLayout {
        bounds: Rect { left, top: work.top, width, height: height as i32 },
        top: if specs[i] == PokerColumnSpec::ClubGg {
            Some(Rect { left, top: work.top, width, height: cell })
        } else {
            None
        },
        bottom: if specs[i] == PokerColumnSpec::ClubGg {
            Some(
                Rect {
                    left,
                    top: clamp_i32(work.top + cell) as i32,
                    width,
                    height: cell,
                },
            )
        } else {
            None
        },
    }
}

proof fn lemma_total_weight_bounds(specs: Seq<PokerColumnSpec>)
    ensures
        specs.len() * (3 * 1073741824) <= total_weight(specs) <= specs.len() * (3
            * 17179869184),
    decreases specs.len(),
{
    if specs.len() > 0 {
        let init = specs.drop_last();
        lemma_total_weight_bounds(init);
        let n = specs.len() as int;
        let w = column_weight(specs.last());
        assert(3 * 1073741824 <= w <= 3 * 17179869184);
        assert(n * (3 * 1073741824) == (n - 1) * (3 * 1073741824) + 3 * 1073741824) by (nonlinear_arith);
        assert(n * (3 * 17179869184) == (n - 1) * (3 * 17179869184) + 3 * 17179869184) by (nonlinear_arith);
    }
}

proof fn lemma_column_left_range(left: int, specs: Seq<PokerColumnSpec>, height: int, i: int)
    requires
        i32::MIN <= left <= i32::MAX,
    ensures
        left <= column_left(left, specs, height, i) <= i32::MAX,
    decreases i,
{
    if i > 0 {
        lemma_column_left_range(left, specs, height, i - 1);
    }
}

/// `layout` is the layout of `columns` in `work_area`: nothing when there is
/// nothing to lay out, else one column layout per column at the shared height.
pub open spec fn lays_out(layout: MixedPokerLayout, work_area: Rect, columns: Seq<PokerColumnSpec>) -> bool {
    &&& (columns.len() == 0 || work_area.width <= 0 || work_area.height <= 0) ==> layout.height == 0
        && layout.columns@.len() == 0
    &&& !(columns.len() == 0 || work_area.width <= 0 || work_area.height <= 0) ==> {
        &&& layout.height == layout_height(work_area, columns)
        &&& layout.columns@.len() == columns.len()
        &&& forall|i: int|
            0 <= i < columns.len() ==> layout.columns@[i] == column_layout(
                work_area,
                columns,
                layout.height as int,
                i,
            )
    }
}

/// Lays the columns out left to right from the work area's left edge: ClubGG
/// columns hold two stacked 4:3 cells, LDPlayer columns use the full height.
pub fn calculate_mixed_layout(work_area: Rect, columns: &[PokerColumnSpec]) -> (r: MixedPokerLayout)
    ensures
        (columns@.len() == 0 || work_area.width <= 0 || work_area.height <= 0) ==> r.height == 0
            && r.columns@.len() == 0,
        !(columns@.len() == 0 || work_area.width <= 0 || work_area.height <= 0) ==> {
            &&& r.height == layout_height(work_area, columns@)
            &&& r.columns@.len() == columns@.len()
            &&& forall|i: int|
                0 <= i < columns@.len() ==> r.columns@[i] == column_layout(
                    work_area,
                    columns@,
                    r.height as int,
                    i,
                )
        },
{
    let count = columns.len();
    if count == 0 || work_area.width <= 0 || work_area.height <= 0 {
        return MixedPokerLayout { height: 0, columns: Vec::new() };
    }
    let mut total: u128 = 0;
    let mut any_club = false;
    let mut index: usize = 0;
    while index < count
        invariant
            count == columns@.len(),
            index <= count,
            total == total_weight(columns@.subrange(0, index as int)),
            total <= index * (3 * 17179869184u128),
            any_club == (exists|j: int| 0 <= j < index && columns@[j] == PokerColumnSpec::ClubGg),
        decreases count - index,
    {
        let spec = columns[index];
        assert(columns@.subrange(0, index as int) =~= columns@.subrange(
            0,
            index + 1,
        ).drop_last());
        match spec {
            PokerColumnSpec::ClubGg => {
                total = total + 2 * (RATIO_SCALE as u128);
                any_club = true;
            },
            PokerColumnSpec::LdPlayer { aspect_ratio } => {
                total = total + 3 * (valid_ratio(aspect_ratio) as u128);
            },
        }
        index += 1;
        assert(total <= index * (3 * 17179869184u128)) by (nonlinear_arith)
            requires
                total <= (index - 1) * (3 * 17179869184u128) + 3 * 17179869184u128,
        ;
    }
    assert(columns@.subrange(0, count as int) =~= columns@);
    proof {
        lemma_total_weight_bounds(columns@);
    }
    assert(total >= 3 * 1073741824u128) by (nonlinear_arith)
        requires
            count * (3 * 1073741824) <= total,
            count >= 1,
    ;
    let scaled_width: u128 = (work_area.width as u128) * 3 * (RATIO_SCALE as u128);
    let fit: u128 = scaled_width / total;
    let height_for_width: i32 = if fit > (i32::MAX as u128) {
        i32::MAX
    } else {
        fit as i32
    };
    let mut height: i32 = if work_area.height < height_for_width {
        work_area.height
    } else {
        height_for_width
    };
    if height < 2 {
        height = 2;
    }
    if any_club {
        height = height - height % 2;
    }
    if height < 2 {
        height = 2;
    }
    assert(height == layout_height(work_area, columns@));
    let mut left: i32 = work_area.left;
    let mut layouts: Vec<PokerColumnLayout> = Vec::new();
    let mut index: usize = 0;
    while index < count
        invariant
            count == columns@.len(),
            index <= count,
            2 <= height,
            left == column_left(work_area.left as int, columns@, height as int, index as int),
            layouts@.len() == index,
            forall|i: int|
                0 <= i < index ==> layouts@[i] == column_layout(
                    work_area,
                    columns@,
                    height as int,
                    i,
                ),
        decreases count - index,
    {
        let spec = columns[index];
        let cell = height / 2;
        let width: i32 = match spec {
            PokerColumnSpec::ClubGg => {
                let w = ((cell as i64) * 4 / 3) as i32;
                if w < 1 {
                    1
                } else {
                    w
                }
            },
            PokerColumnSpec::LdPlayer { aspect_ratio } => {
                let ratio = valid_ratio(aspect_ratio);
                assert((height as u128) * (ratio as u128) <= 0x7fff_ffffu128 * 17179869184u128)
                    by (nonlinear_arith)
                    requires
                        0 <= height <= 0x7fff_ffff,
                        ratio <= 17179869184,
                ;
                let raw: u128 = (height as u128) * (ratio as u128) / (RATIO_SCALE as u128);
                let w: i32 = if raw > (i32::MAX as u128) {
                    i32::MAX
                } else {
                    raw as i32
                };
                if w < 1 {
                    1
                } else {
                    w
                }
            },
        };
        assert(width == column_width(spec, height as int));
        let bounds = Rect::new(left, work_area.top, width, height);
        let (top, bottom) = match spec {
            PokerColumnSpec::ClubGg => (
                Some(Rect::new(left, work_area.top, width, cell)),
                Some(
                    Rect::new(left, saturating_add_i32(work_area.top, cell), width, cell),
                ),
            ),
            PokerColumnSpec::LdPlayer { .. } => (None, None),
        };
        layouts.push(PokerColumnLayout { bounds, top, bottom });
        left = saturating_add_i32(left, width);
        index += 1;
    }
    MixedPokerLayout { height, columns: layouts }
}

/// Consecutive columns touch: each column starts exactly at the right edge of
/// the one before it.
pub proof fn law_columns_are_adjacent(
    work: Rect,
    specs: Seq<PokerColumnSpec>,
    height: int,
    i: int,
)
    requires
        0 <= i,
        i + 1 < specs.len(),
        0 <= height <= i32::MAX,
    ensures
        column_layout(work, specs, height, i).bounds.spec_right() == column_layout(
            work,
            specs,
            height,
            i + 1,
        ).bounds.left,
{
    lemma_column_left_range(work.left as int, specs, height, i);
    lemma_column_left_range(work.left as int, specs, height, i + 1);
    let w = column_width(specs[i], height);
    assert(1 <= w <= i32::MAX);
}

/// The shared height is the tallest that fits: measured by the columns'
/// widths per unit of height (`total_weight`, in units of a third of
/// `RATIO_SCALE`), the columns at the shared height fit side by side in the
/// work area's width (unless only the smallest height, 2, is left), the
/// height never exceeds the work area's (again unless it is 2), and whenever
/// one more step of height (two pixels with ClubGG pairs, else one) would
/// still fit the work area's height, that taller layout would be too wide:
/// the columns shrink only as far as the width demands.
pub proof fn law_shared_height_is_the_tallest_that_fits(work: Rect, specs: Seq<PokerColumnSpec>)
    requires
        specs.len() > 0,
        work.width > 0,
        work.height > 0,
    ensures
        ({
            let h = layout_height(work, specs);
            let step = if has_club(specs) { 2int } else { 1int };
            let room = work.width * 3 * RATIO_SCALE;
            &&& h >= 2
            &&& h == 2 || h * total_weight(specs) <= room
            &&& h == 2 || h <= work.height
            &&& h + step <= work.height ==> (h + step) * total_weight(specs) > room
        }),
{
    let t = total_weight(specs);
    let room = work.width * 3 * RATIO_SCALE;
    lemma_total_weight_bounds(specs);
    assert(t > 0) by (nonlinear_arith)
        requires
            specs.len() * (3 * 1073741824) <= t,
            specs.len() > 0,
    ;
    let q = room / t;
    assert(q * t <= room && room < (q + 1) * t && q >= 0) by (nonlinear_arith)
        requires
            q == room / t,
            t > 0,
            room > 0,
    ;
    let h = layout_height(work, specs);
    let step = if has_club(specs) { 2int } else { 1int };
    let hfw = height_for_width(work.width as int, specs);
    assert(hfw == min_int(q, i32::MAX as int));
    assert(hfw <= q);
    if h > 2 {
        assert(h <= hfw);
        assert(h * t <= q * t) by (nonlinear_arith)
            requires
                h <= q,
                t > 0,
        ;
    }
    if h + step <= work.height {
        assert(hfw < work.height);
        assert(hfw == q);
        assert(h + step >= q + 1);
        assert((h + step) * t >= (q + 1) * t) by (nonlinear_arith)
            requires
                h + step >= q + 1,
                t > 0,
        ;
    }
}

/// Columns keep their table's proportions: a ClubGG cell is as wide as 4:3
/// allows at half the shared height (rounded down), and an LDPlayer column
/// as wide as its ratio allows at the full height (rounded down); a width of
/// at least one pixel is kept either way.
pub proof fn law_columns_keep_their_ratio(work: Rect, specs: Seq<PokerColumnSpec>, height: int, i: int)
    requires
        0 <= i < specs.len(),
        2 <= height <= i32::MAX,
    ensures
        ({
            let w = column_layout(work, specs, height, i).bounds.width as int;
            &&& w >= 1
            &&& specs[i] == PokerColumnSpec::ClubGg && height >= 4 ==> (3 * w <= 4 * (height / 2) && 4 * (height / 2)
                < 3 * (w + 1))
            &&& specs[i] matches PokerColumnSpec::LdPlayer { aspect_ratio } ==> (MIN_VALID_RATIO_SCALED
                <= aspect_ratio.scaled && aspect_ratio.scaled <= MAX_VALID_RATIO_SCALED && RATIO_SCALE <= height
                * aspect_ratio.scaled && height * aspect_ratio.scaled < i32::MAX * RATIO_SCALE ==> (w * RATIO_SCALE <= height
                * aspect_ratio.scaled && height * aspect_ratio.scaled < (w + 1) * RATIO_SCALE))
        }),
{
    let cw = column_width(specs[i], height);
    match specs[i] {
        PokerColumnSpec::ClubGg => {
            let c = height / 2;
            let q = (c * 4) / 3;
            assert(3 * q <= 4 * c < 3 * (q + 1));
            assert(q <= i32::MAX);
        },
        PokerColumnSpec::LdPlayer { aspect_ratio } => {
            let v = valid_ratio_spec(aspect_ratio) as int;
            let s = RATIO_SCALE as int;
            let q = (height * v) / s;
            assert(q * s <= height * v < (q + 1) * s) by (nonlinear_arith)
                requires
                    q == (height * v) / s,
                    s > 0,
                    height * v >= 0,
            ;
            if MIN_VALID_RATIO_SCALED <= aspect_ratio.scaled <= MAX_VALID_RATIO_SCALED && s <= height * v && height * v
                < i32::MAX * s {
                assert(1 <= q < i32::MAX) by (nonlinear_arith)
                    requires
                        q * s <= height * v < (q + 1) * s,
                        s == 4294967296,
                        s <= height * v,
                        height * v < 2147483647 * s,
                ;
            }
        },
    }
}

/// Every column spans the shared height from the top of the work area, the
/// first starts at its left edge, a ClubGG column is split into two stacked
/// cells that meet in the middle and fill it to its bottom (at an even
/// height), and an LDPlayer column has no cells.
pub proof fn law_columns_stand_on_the_top_edge(work: Rect, specs: Seq<PokerColumnSpec>, height: int, i: int)
    requires
        0 <= i < specs.len(),
        0 <= height <= i32::MAX,
    ensures
        ({
            let c = column_layout(work, specs, height, i);
            &&& c.bounds.top == work.top
            &&& c.bounds.height == height
            &&& i == 0 ==> c.bounds.left == work.left
            &&& specs[i] == PokerColumnSpec::ClubGg ==> (c.top matches Some(upper) && c.bottom matches Some(lower)
                && upper.left == c.bounds.left && lower.left == c.bounds.left
                && upper.width == c.bounds.width && lower.width == c.bounds.width
                && upper.top == work.top
                && (height % 2 == 0 && work.top + height <= i32::MAX ==> upper.spec_bottom() == lower.top
                    && lower.spec_bottom() == c.bounds.spec_bottom()))
            &&& specs[i] != PokerColumnSpec::ClubGg ==> c.top is None && c.bottom is None
        }),
{
    lemma_column_left_range(work.left as int, specs, height, i);
}

/// Total width of the first `i` columns.
pub open spec fn width_sum(specs: Seq<PokerColumnSpec>, height: int, i: int) -> int
    decreases i,
{
    if i <= 0 {
        0
    } else {
        width_sum(specs, height, i - 1) + column_width(specs[i - 1], height)
    }
}

proof fn lemma_column_width_within_weight(spec: PokerColumnSpec, height: int)
    requires
        4 <= height <= i32::MAX,
    ensures
        0 <= column_width(spec, height),
        3 * (RATIO_SCALE as int) * column_width(spec, height) <= height * column_weight(spec),
{
    match spec {
        PokerColumnSpec::ClubGg => {
            let cell = height / 2;
            assert(cell >= 2);
            assert((cell * 4) / 3 >= 2);
            assert(3 * ((cell * 4) / 3) <= cell * 4);
            assert(2 * cell <= height);
            assert(3 * (RATIO_SCALE as int) * ((cell * 4) / 3) <= height * (2 * RATIO_SCALE))
                by (nonlinear_arith)
                requires
                    3 * ((cell * 4) / 3) <= cell * 4,
                    2 * cell <= height,
                    cell >= 0,
            ;
        },
        PokerColumnSpec::LdPlayer { aspect_ratio } => {
            let v = valid_ratio_spec(aspect_ratio) as int;
            let s = RATIO_SCALE as int;
            assert(MIN_VALID_RATIO_SCALED <= v <= MAX_VALID_RATIO_SCALED);
            assert(height * v >= 4 * 1073741824) by (nonlinear_arith)
                requires
                    height >= 4,
                    v >= 1073741824,
            ;
            let q = (height * v) / s;
            assert(q >= 1);
            assert(s * q <= height * v);
            assert(3 * s * min_int(q, i32::MAX as int) <= height * (3 * v)) by (nonlinear_arith)
                requires
                    s * q <= height * v,
                    s > 0,
                    q >= 1,
            ;
        },
    }
}

proof fn lemma_width_sum_within_weight(specs: Seq<PokerColumnSpec>, height: int, i: int)
    requires
        4 <= height <= i32::MAX,
        0 <= i <= specs.len(),
    ensures
        0 <= width_sum(specs, height, i),
        3 * (RATIO_SCALE as int) * width_sum(specs, height, i) <= height * total_weight(
            specs.subrange(0, i),
        ),
    decreases i,
{
    if i > 0 {
        lemma_width_sum_within_weight(specs, height, i - 1);
        lemma_column_width_within_weight(specs[i - 1], height);
        assert(specs.subrange(0, i).drop_last() =~= specs.subrange(0, i - 1));
        assert(specs.subrange(0, i).last() == specs[i - 1]);
        let a = width_sum(specs, height, i - 1);
        let b = column_width(specs[i - 1], height);
        let ta = total_weight(specs.subrange(0, i - 1));
        let tb = column_weight(specs[i - 1]);
        assert(3 * (RATIO_SCALE as int) * (a + b) <= height * (ta + tb)) by (nonlinear_arith)
            requires
                3 * (RATIO_SCALE as int) * a <= height * ta,
                3 * (RATIO_SCALE as int) * b <= height * tb,
        ;
    }
}

proof fn lemma_column_left_is_clamped_sum(
    left: int,
    specs: Seq<PokerColumnSpec>,
    height: int,
    i: int,
)
    requires
        i32::MIN <= left <= i32::MAX,
        4 <= height <= i32::MAX,
        0 <= i <= specs.len(),
    ensures
        column_left(left, specs, height, i) == min_int(i32::MAX as int, left + width_sum(
            specs,
            height,
            i,
        )),
    decreases i,
{
    if i > 0 {
        lemma_column_left_is_clamped_sum(left, specs, height, i - 1);
        lemma_width_sum_within_weight(specs, height, i - 1);
        lemma_column_width_within_weight(specs[i - 1], height);
    } else {
        assert(width_sum(specs, height, 0) == 0);
    }
}

/// Columns that fit side by side at the work area's full height use it all
/// (one pixel less when ClubGG pairs need an even height).
pub proof fn law_full_height_when_columns_fit(work: Rect, specs: Seq<PokerColumnSpec>)
    requires
        work.height >= 3,
        height_for_width(work.width as int, specs) >= work.height,
    ensures
        layout_height(work, specs) == if has_club(specs) && work.height % 2 == 1 {
            work.height - 1
        } else {
            work.height as int
        },
{
}

/// When the work area is at least four pixels tall and the columns fit at a
/// height of at least four, the shared height never exceeds the work area,
/// is even whenever a ClubGG pair is present, and the columns end at or
/// before the work area's right edge: poker columns never overflow the display.
pub proof fn law_columns_fit_the_work_area(work: Rect, specs: Seq<PokerColumnSpec>)
    requires
        specs.len() > 0,
        work.width > 0,
        work.height >= 4,
        height_for_width(work.width as int, specs) >= 4,
    ensures
        4 <= layout_height(work, specs) <= work.height,
        layout_height(work, specs) <= height_for_width(work.width as int, specs),
        has_club(specs) ==> layout_height(work, specs) % 2 == 0,
        column_left(work.left as int, specs, layout_height(work, specs), specs.len() as int)
            <= work.spec_right(),
{
    let h = layout_height(work, specs);
    let t = total_weight(specs);
    let w = work.width as int;
    let s = RATIO_SCALE as int;
    lemma_total_weight_bounds(specs);
    assert(t > 0) by (nonlinear_arith)
        requires
            specs.len() * (3 * 1073741824) <= t,
            specs.len() > 0,
    ;
    let q = (w * 3 * s) / t;
    assert(h <= q);
    assert(q * t <= w * 3 * s) by (nonlinear_arith)
        requires
            q == (w * 3 * s) / t,
            t > 0,
            w > 0,
            s > 0,
    ;
    assert(h * t <= w * 3 * s) by (nonlinear_arith)
        requires
            h <= q,
            q * t <= w * 3 * s,
            t > 0,
            h >= 0,
    ;
    lemma_width_sum_within_weight(specs, h, specs.len() as int);
    assert(specs.subrange(0, specs.len() as int) =~= specs);
    let total = width_sum(specs, h, specs.len() as int);
    assert(total <= w) by (nonlinear_arith)
        requires
            3 * s * total <= h * t,
            h * t <= w * 3 * s,
            s > 0,
    ;
    lemma_column_left_is_clamped_sum(work.left as int, specs, h, specs.len() as int);
}

/// Whether two rectangles share a region of positive area.
pub open spec fn overlaps(a: Rect, b: Rect) -> bool {
    min_int(a.spec_right(), b.spec_right()) > max_int(a.left as int, b.left as int) && min_int(
        a.spec_bottom(),
        b.spec_bottom(),
    ) > max_int(a.top as int, b.top as int)
}

/// The common region of two rectangles, when it has positive area.
pub open spec fn clipped(a: Rect, b: Rect) -> Option<Rect> {
    if overlaps(a, b) {
        let left = max_int(a.left as int, b.left as int);
        let top = max_int(a.top as int, b.top as int);
        Some(
            Rect {
                left: left as i32,
                top: top as i32,
                width: (min_int(a.spec_right(), b.spec_right()) - left) as i32,
                height: (min_int(a.spec_bottom(), b.spec_bottom()) - top) as i32,
            },
        )
    } else {
        None
    }
}

fn intersection(left: Rect, right: Rect) -> (r: Option<Rect>)
    requires
        right.width >= 0,
        right.height >= 0,
    ensures
        r == clipped(left, right),
{
    let clipped_left = if left.left > right.left {
        left.left
    } else {
        right.left
    };
    let clipped_top = if left.top > right.top {
        left.top
    } else {
        right.top
    };
    let left_right = left.right();
    let right_right = right.right();
    let clipped_right = if left_right < right_right {
        left_right
    } else {
        right_right
    };
    let left_bottom = left.bottom();
    let right_bottom = right.bottom();
    let clipped_bottom = if left_bottom < right_bottom {
        left_bottom
    } else {
        right_bottom
    };
    if clipped_right > clipped_left && clipped_bottom > clipped_top {
        Some(
            Rect::new(
                clipped_left,
                clipped_top,
                clipped_right - clipped_left,
                clipped_bottom - clipped_top,
            ),
        )
    } else {
        None
    }
}

/// The right edge of the rightmost part of `occupied` inside `work`, or the
/// work area's left edge when nothing is inside it.
pub open spec fn rightmost_occupied(work: Rect, occupied: Seq<Rect>) -> int
    decreases occupied.len(),
{
    if occupied.len() == 0 {
        work.left as int
    } else {
        let rest = rightmost_occupied(work, occupied.drop_last());
        if overlaps(occupied.last(), work) {
            max_int(rest, min_int(occupied.last().spec_right(), work.spec_right()))
        } else {
            rest
        }
    }
}

proof fn lemma_rightmost_bounds(work: Rect, occupied: Seq<Rect>)
    requires
        work.width > 0,
    ensures
        work.left <= rightmost_occupied(work, occupied) <= work.spec_right(),
        forall|i: int|
            0 <= i < occupied.len() && overlaps(occupied[i], work) ==> min_int(
                occupied[i].spec_right(),
                work.spec_right(),
            ) <= rightmost_occupied(work, occupied),
    decreases occupied.len(),
{
    if occupied.len() > 0 {
        let init = occupied.drop_last();
        lemma_rightmost_bounds(work, init);
        assert forall|i: int|
            0 <= i < occupied.len() && overlaps(occupied[i], work) implies min_int(
            occupied[i].spec_right(),
            work.spec_right(),
        ) <= rightmost_occupied(work, occupied) by {
            if i < occupied.len() - 1 {
                assert(occupied[i] == init[i]);
            }
        }
    }
}

/// The full-height strip of `work` right of the rightmost part of `occupied`
/// inside it; nothing for an empty work area.
pub open spec fn strip_right_of(work: Rect, occupied: Seq<Rect>) -> Rect {
    if work.width <= 0 || work.height <= 0 {
        Rect { left: 0, top: 0, width: 0, height: 0 }
    } else {
        Rect {
            left: rightmost_occupied(work, occupied) as i32,
            top: work.top,
            width: (work.spec_right() - rightmost_occupied(work, occupied)) as i32,
            height: work.height,
        }
    }
}

/// The full-height strip from the right edge of the occupied rectangles to the
/// right edge of the work area; the whole work area when nothing occupies it.
/// The strip never overlaps an occupied rectangle inside the work area.
pub fn right_side_free_rect(work_area: Rect, occupied: &[Rect]) -> (r: Rect)
    ensures
        r == strip_right_of(work_area, occupied@),
        (work_area.width <= 0 || work_area.height <= 0) ==> r == (Rect {
            left: 0,
            top: 0,
            width: 0,
            height: 0,
        }),
        (work_area.width > 0 && work_area.height > 0) ==> {
            &&& r.left == rightmost_occupied(work_area, occupied@)
            &&& r.top == work_area.top
            &&& r.width == work_area.spec_right() - r.left
            &&& r.height == work_area.height
            &&& work_area.left <= r.left <= work_area.spec_right()
            &&& forall|i: int|
                0 <= i < occupied@.len() && overlaps(occupied@[i], work_area) ==> min_int(
                    occupied@[i].spec_right(),
                    work_area.spec_right(),
                ) <= r.left
        },
{
    if work_area.width <= 0 || work_area.height <= 0 {
        return Rect::default();
    }
    let work_right = work_area.right();
    let mut rightmost = work_area.left;
    let mut index: usize = 0;
    while index < occupied.len()
        invariant
            work_area.width > 0,
            work_area.height > 0,
            work_right == work_area.spec_right(),
            index <= occupied@.len(),
            rightmost == rightmost_occupied(work_area, occupied@.subrange(0, index as int)),
        decreases occupied@.len() - index,
    {
        assert(occupied@.subrange(0, index as int) =~= occupied@.subrange(
            0,
            index + 1,
        ).drop_last());
        match intersection(occupied[index], work_area) {
            Some(clip) => {
                let clip_right = clip.right();
                if clip_right > rightmost {
                    rightmost = clip_right;
                }
            },
            None => {},
        }
        index += 1;
    }
    assert(occupied@.subrange(0, index as int) =~= occupied@);
    proof {
        lemma_rightmost_bounds(work_area, occupied@);
    }
    let clamped = if rightmost < work_area.left {
        work_area.left
    } else if rightmost > work_right {
        work_right
    } else {
        rightmost
    };
    Rect::new(clamped, work_area.top, work_right - clamped, work_area.height)
}


/// Auto reflows never make an LDPlayer column narrower: the ratio learnt from
/// a window of `width` by `height` (kept at least at the natural 9:16) gives
/// a full-height column at least as wide as the window, and exactly as wide
/// when the window is no narrower than 9:16.
pub proof fn law_ldplayer_column_never_narrows(width: int, height: int)
    requires
        0 < width <= i32::MAX,
        0 < height <= i32::MAX,
        width <= 4 * height,
        height <= 4 * width,
    ensures
        ({
            let learnt = AspectRatio::of_dimensions(width, height);
            let kept = AspectRatio { scaled: max_int(learnt.scaled as int, LDPLAYER_NATURAL_RATIO_SCALED as int) as u64 };
            &&& column_width(PokerColumnSpec::LdPlayer { aspect_ratio: kept }, height) >= width
            &&& 16 * width >= 9 * height ==> column_width(PokerColumnSpec::LdPlayer { aspect_ratio: kept }, height) == width
            &&& column_width(PokerColumnSpec::LdPlayer { aspect_ratio: learnt }, height) == width
        }),
{
    let s = RATIO_SCALE as int;
    let q = (width * s + height - 1) / height;
    assert(q * height <= width * s + height - 1 && q * height > width * s - 1) by (nonlinear_arith)
        requires
            q == (width * s + height - 1) / height,
            height > 0,
    ;
    assert(MIN_VALID_RATIO_SCALED <= q <= MAX_VALID_RATIO_SCALED) by (nonlinear_arith)
        requires
            q * height <= width * s + height - 1,
            q * height > width * s - 1,
            width <= 4 * height,
            height <= 4 * width,
            height > 0,
            s == 4294967296,
            MIN_VALID_RATIO_SCALED == 1073741824,
            MAX_VALID_RATIO_SCALED == 17179869184,
    ;
    assert((height * q) / s == width) by (nonlinear_arith)
        requires
            q * height <= width * s + height - 1,
            q * height > width * s - 1,
            0 < height <= 2147483647,
            s == 4294967296,
    ;
    let n = LDPLAYER_NATURAL_RATIO_SCALED as int;
    if q < n {
        assert((height * n) / s >= width) by (nonlinear_arith)
            requires
                q * height > width * s - 1,
                q < n,
                height > 0,
                s == 4294967296,
        ;
        assert((height * n) / s <= i32::MAX) by (nonlinear_arith)
            requires
                0 < height <= 2147483647,
                n == 2415919104,
                s == 4294967296,
        ;
        assert(16 * width < 9 * height) by (nonlinear_arith)
            requires
                q * height > width * s - 1,
                q < n,
                n == 2415919104,
                height > 0,
                s == 4294967296,
        ;
    }
}
} // verus!
