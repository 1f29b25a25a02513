//! Plain data shared by discovery, layout, the controller and the panel.
use vstd::prelude::*;
use vstd::string::*;

verus! {

/// Fixed-point scale of [`AspectRatio`]: a ratio `r` is held as `r * 2^32`.
pub const RATIO_SCALE: u64 = 4294967296;

pub open spec fn clamp_i32(x: int) -> int {
    if x > i32::MAX {
        i32::MAX as int
    } else if x < i32::MIN {
        i32::MIN as int
    } else {
        x
    }
}

pub open spec fn max_int(a: int, b: int) -> int {
    if a >= b { a } else { b }
}

pub open spec fn min_int(a: int, b: int) -> int {
    if a <= b { a } else { b }
}

/// `a + b`, clamped to the range of `i32`.
pub fn saturating_add_i32(a: i32, b: i32) -> (r: i32)
    ensures
        r == clamp_i32(a + b),
{
    let sum: i64 = a as i64 + b as i64;
    if sum > i32::MAX as i64 {
        i32::MAX
    } else if sum < i32::MIN as i64 {
        i32::MIN
    } else {
        sum as i32
    }
}

/// `a - b`, clamped to the range of `i32`.
pub fn saturating_sub_i32(a: i32, b: i32) -> (r: i32)
    ensures
        r == clamp_i32(a - b),
{
    let difference: i64 = a as i64 - b as i64;
    if difference > i32::MAX as i64 {
        i32::MAX
    } else if difference < i32::MIN as i64 {
        i32::MIN
    } else {
        difference as i32
    }
}

/// `value` clamped into `[low, high]` (requires `low <= high`).
pub fn clamp_between(value: i32, low: i32, high: i32) -> (r: i32)
    requires
        low <= high,
    ensures
        r == (if value < low { low as int } else if value > high { high as int } else { value as int }),
{
    if value < low {
        low
    } else if value > high {
        high
    } else {
        value
    }
}

/// A width-to-height ratio, held exactly as a fixed-point number (`scaled / 2^32`).
#[derive(Clone, Copy, Debug, PartialEq, Eq, Structural)]
pub struct AspectRatio {
    pub scaled: u64,
}

impl AspectRatio {
    /// The ratio `width / height`, rounded up to the fixed-point grid, so that
    /// a column laid out at the same height gets the width back exactly.
    pub open spec fn of_dimensions(width: int, height: int) -> AspectRatio {
        AspectRatio { scaled: ((width * RATIO_SCALE + height - 1) / height) as u64 }
    }

    /// `width / height` for positive dimensions.
    pub fn from_dimensions(width: i32, height: i32) -> (r: Option<AspectRatio>)
        ensures
            r == (if width > 0 && height > 0 {
                Some(AspectRatio::of_dimensions(width as int, height as int))
            } else {
                None
            }),
    {
        if width > 0 && height > 0 {
            assert((width as u64) * RATIO_SCALE <= 0x7fff_ffffu64 * 4294967296u64) by (nonlinear_arith)
                requires
                    0 < width <= 0x7fff_ffff,
            ;
            let numerator: u64 = (width as u64) * RATIO_SCALE + (height as u64) - 1;
            let scaled: u64 = numerator / (height as u64);
            Some(AspectRatio { scaled })
        } else {
            None
        }
    }
}

#[derive(Clone, Copy, Debug, PartialEq, Eq, Structural)]
pub struct Rect {
    pub left: i32,
    pub top: i32,
    pub width: i32,
    pub height: i32,
}

impl Rect {
    pub fn new(left: i32, top: i32, width: i32, height: i32) -> (r: Rect)
        ensures
            r == (Rect { left, top, width, height }),
    {
        Rect { left, top, width, height }
    }

    /// The right edge, saturating at the range of `i32`.
    pub open spec fn spec_right(self) -> int {
        clamp_i32(self.left + self.width)
    }

    /// The bottom edge, saturating at the range of `i32`.
    pub open spec fn spec_bottom(self) -> int {
        clamp_i32(self.top + self.height)
    }

    pub fn right(self) -> (r: i32)
        ensures
            r == self.spec_right(),
    {
        saturating_add_i32(self.left, self.width)
    }

    pub fn bottom(self) -> (r: i32)
        ensures
            r == self.spec_bottom(),
    {
        saturating_add_i32(self.top, self.height)
    }

    /// Area in square pixels, counting negative extents as empty.
    pub fn area(self) -> (r: i64)
        ensures
            r == max_int(self.width as int, 0) * max_int(self.height as int, 0),
    {
        let width: i64 = if self.width > 0 { self.width as i64 } else { 0 };
        let height: i64 = if self.height > 0 { self.height as i64 } else { 0 };
        assert(width * height <= 0x7fff_ffffi64 * 0x7fff_ffffi64) by (nonlinear_arith)
            requires
                0 <= width <= 0x7fff_ffff,
                0 <= height <= 0x7fff_ffff,
        ;
        assert(0 <= width * height) by (nonlinear_arith)
            requires
                0 <= width,
                0 <= height,
        ;
        width * height
    }

    /// The rectangle's width-to-height ratio when both extents are positive.
    pub fn aspect_ratio(self) -> (r: Option<AspectRatio>)
        ensures
            r == (if self.width > 0 && self.height > 0 {
                Some(AspectRatio::of_dimensions(self.width as int, self.height as int))
            } else {
                None
            }),
    {
        AspectRatio::from_dimensions(self.width, self.height)
    }
}

impl Default for Rect {
    fn default() -> (r: Rect)
        ensures
            r == (Rect { left: 0, top: 0, width: 0, height: 0 }),
    {
        Rect { left: 0, top: 0, width: 0, height: 0 }
    }
}

#[derive(Clone, Copy, Debug, PartialEq, Eq, Structural)]
pub struct Size {
    pub width: i32,
    pub height: i32,
}

impl Size {
    pub fn new(width: i32, height: i32) -> (r: Size)
        ensures
            r == (Size { width, height }),
    {
        Size { width, height }
    }
}

#[derive(Clone, Copy, Debug, PartialEq, Eq, Hash, Structural)]
pub struct WindowId(pub u64);

/// How a window is recognized again across sessions.
#[derive(Debug)]
pub struct WindowSignature {
    pub process_name: String,
    pub class_name: String,
    pub title_pattern: String,
}

pub struct SignatureView {
    pub process_name: Seq<char>,
    pub class_name: Seq<char>,
    pub title_pattern: Seq<char>,
}

impl View for WindowSignature {
    type V = SignatureView;

    open spec fn view(&self) -> SignatureView {
        SignatureView {
            process_name: self.process_name@,
            class_name: self.class_name@,
            title_pattern: self.title_pattern@,
        }
    }
}

impl Clone for WindowSignature {
    fn clone(&self) -> (r: Self)
        ensures
            r == *self,
    {
        WindowSignature {
            process_name: self.process_name.clone(),
            class_name: self.class_name.clone(),
            title_pattern: self.title_pattern.clone(),
        }
    }
}

impl PartialEq for WindowSignature {
    fn eq(&self, other: &Self) -> (r: bool) {
        self.process_name == other.process_name && self.class_name == other.class_name
            && self.title_pattern == other.title_pattern
    }
}

impl vstd::std_specs::cmp::PartialEqSpecImpl for WindowSignature {
    open spec fn obeys_eq_spec() -> bool {
        true
    }

    open spec fn eq_spec(&self, other: &Self) -> bool {
        self@ == other@
    }
}

impl Eq for WindowSignature {

}

/// Whether two signatures name the same window kind.
pub fn same_signature(a: &WindowSignature, b: &WindowSignature) -> (r: bool)
    ensures
        r == (a@ == b@),
{
    a.process_name == b.process_name && a.class_name == b.class_name && a.title_pattern
        == b.title_pattern
}

pub open spec fn opt_sig_view(signature: Option<WindowSignature>) -> Option<SignatureView> {
    match signature {
        Some(s) => Some(s@),
        None => None,
    }
}

/// Whether two optional signatures are equal.
pub fn same_opt_signature(a: &Option<WindowSignature>, b: &Option<WindowSignature>) -> (r: bool)
    ensures
        r == (opt_sig_view(*a) == opt_sig_view(*b)),
{
    match (a, b) {
        (Some(x), Some(y)) => same_signature(x, y),
        (None, None) => true,
        _ => false,
    }
}

pub fn clone_opt_signature(signature: &Option<WindowSignature>) -> (r: Option<WindowSignature>)
    ensures
        r == *signature,
{
    match signature {
        Some(s) => Some(s.clone()),
        None => None,
    }
}

#[derive(Clone, Copy, Debug, PartialEq, Eq, Structural)]
pub enum CandidateDisposition {
    Table,
    Parked,
    TopRight,
    FreeSpace,
    Ignored,
}

#[derive(Clone, Copy, Debug, PartialEq, Eq, Structural)]
pub enum WindowMode {
    Arranged,
    Parked,
    TopRight,
    FreeSpace,
    Ignored,
}

#[derive(Clone, Copy, Debug, PartialEq, Eq, Structural)]
pub enum PokerClientKind {
    ClubGg,
    LdPlayer,
}

/// A poker slot: a ClubGG cell (`row` 0 or 1) or a full-height column (`row` absent).
#[derive(Clone, Copy, Debug, PartialEq, Eq, Hash, Structural)]
pub struct PokerSlotId {
    pub column: usize,
    pub row: Option<u8>,
}

impl PokerSlotId {
    pub fn club(column: usize, row: u8) -> (r: PokerSlotId)
        ensures
            r == (PokerSlotId { column, row: Some(row) }),
    {
        PokerSlotId { column, row: Some(row) }
    }

    pub fn full_height(column: usize) -> (r: PokerSlotId)
        ensures
            r == (PokerSlotId { column, row: None }),
    {
        PokerSlotId { column, row: None }
    }
}

/// What occupies one poker column of the workspace.
#[derive(Debug)]
pub enum PokerColumnAssignment {
    ClubGg { top: Option<WindowSignature>, bottom: Option<WindowSignature> },
    LdPlayer { table: Option<WindowSignature> },
    Empty,
}

pub enum ColumnView {
    Club { top: Option<SignatureView>, bottom: Option<SignatureView> },
    Ld { table: Option<SignatureView> },
    Empty,
}

impl View for PokerColumnAssignment {
    type V = ColumnView;

    open spec fn view(&self) -> ColumnView {
        match self {
            PokerColumnAssignment::ClubGg { top, bottom } => ColumnView::Club {
                top: opt_sig_view(*top),
                bottom: opt_sig_view(*bottom),
            },
            PokerColumnAssignment::LdPlayer { table } => ColumnView::Ld {
                table: opt_sig_view(*table),
            },
            PokerColumnAssignment::Empty => ColumnView::Empty,
        }
    }
}

impl PokerColumnAssignment {
    pub fn empty_club() -> (r: PokerColumnAssignment)
        ensures
            r == (PokerColumnAssignment::ClubGg { top: None, bottom: None }),
    {
        PokerColumnAssignment::ClubGg { top: None, bottom: None }
    }
}

impl Clone for PokerColumnAssignment {
    fn clone(&self) -> (r: Self)
        ensures
            r == *self,
    {
        match self {
            PokerColumnAssignment::ClubGg { top, bottom } => PokerColumnAssignment::ClubGg {
                top: clone_opt_signature(top),
                bottom: clone_opt_signature(bottom),
            },
            PokerColumnAssignment::LdPlayer { table } => PokerColumnAssignment::LdPlayer {
                table: clone_opt_signature(table),
            },
            PokerColumnAssignment::Empty => PokerColumnAssignment::Empty,
        }
    }
}

impl PartialEq for PokerColumnAssignment {
    fn eq(&self, other: &Self) -> (r: bool) {
        same_column(self, other)
    }
}

impl vstd::std_specs::cmp::PartialEqSpecImpl for PokerColumnAssignment {
    open spec fn obeys_eq_spec() -> bool {
        true
    }

    open spec fn eq_spec(&self, other: &Self) -> bool {
        self@ == other@
    }
}

impl Eq for PokerColumnAssignment {

}

/// Whether two column assignments hold the same occupants.
pub fn same_column(a: &PokerColumnAssignment, b: &PokerColumnAssignment) -> (r: bool)
    ensures
        r == (a@ == b@),
{
    match (a, b) {
        (
            PokerColumnAssignment::ClubGg { top: t1, bottom: b1 },
            PokerColumnAssignment::ClubGg { top: t2, bottom: b2 },
        ) => same_opt_signature(t1, t2) && same_opt_signature(b1, b2),
        (PokerColumnAssignment::LdPlayer { table: t1 }, PokerColumnAssignment::LdPlayer {
            table: t2,
        }) => same_opt_signature(t1, t2),
        (PokerColumnAssignment::Empty, PokerColumnAssignment::Empty) => true,
        _ => false,
    }
}

pub open spec fn columns_view(columns: Seq<PokerColumnAssignment>) -> Seq<ColumnView> {
    columns.map_values(|c: PokerColumnAssignment| c@)
}

/// Whether two column lists hold the same occupants in the same order.
pub fn same_columns(a: &Vec<PokerColumnAssignment>, b: &Vec<PokerColumnAssignment>) -> (r: bool)
    ensures
        r == (columns_view(a@) == columns_view(b@)),
{
    if a.len() != b.len() {
        assert(columns_view(a@).len() != columns_view(b@).len());
        return false;
    }
    let mut index: usize = 0;
    while index < a.len()
        invariant
            a.len() == b.len(),
            index <= a.len(),
            forall|k: int| 0 <= k < index ==> a@[k]@ == b@[k]@,
        decreases a.len() - index,
    {
        if !same_column(&a[index], &b[index]) {
            assert(columns_view(a@)[index as int] != columns_view(b@)[index as int]);
            return false;
        }
        index += 1;
    }
    assert(columns_view(a@) =~= columns_view(b@));
    true
}

pub fn clone_columns(columns: &Vec<PokerColumnAssignment>) -> (r: Vec<PokerColumnAssignment>)
    ensures
        r@ == columns@,
{
    let mut out: Vec<PokerColumnAssignment> = Vec::new();
    let mut index: usize = 0;
    while index < columns.len()
        invariant
            index <= columns.len(),
            out@ == columns@.subrange(0, index as int),
        decreases columns.len() - index,
    {
        out.push(columns[index].clone());
        index += 1;
        assert(out@ =~= columns@.subrange(0, index as int));
    }
    assert(columns@.subrange(0, columns.len() as int) =~= columns@);
    out
}

#[derive(Debug)]
pub enum TableStatus {
    Ready,
    Parked,
    AccessDenied,
    MoveFailed(String),
}

impl Clone for TableStatus {
    fn clone(&self) -> (r: Self)
        ensures
            r == *self,
    {
        match self {
            TableStatus::Ready => TableStatus::Ready,
            TableStatus::Parked => TableStatus::Parked,
            TableStatus::AccessDenied => TableStatus::AccessDenied,
            TableStatus::MoveFailed(message) => TableStatus::MoveFailed(message.clone()),
        }
    }
}

pub open spec fn status_eq(a: TableStatus, b: TableStatus) -> bool {
    match (a, b) {
        (TableStatus::Ready, TableStatus::Ready) => true,
        (TableStatus::Parked, TableStatus::Parked) => true,
        (TableStatus::AccessDenied, TableStatus::AccessDenied) => true,
        (TableStatus::MoveFailed(x), TableStatus::MoveFailed(y)) => x@ == y@,
        _ => false,
    }
}

impl PartialEq for TableStatus {
    fn eq(&self, other: &Self) -> (r: bool) {
        match (self, other) {
            (TableStatus::Ready, TableStatus::Ready) => true,
            (TableStatus::Parked, TableStatus::Parked) => true,
            (TableStatus::AccessDenied, TableStatus::AccessDenied) => true,
            (TableStatus::MoveFailed(x), TableStatus::MoveFailed(y)) => *x == *y,
            _ => false,
        }
    }
}

impl vstd::std_specs::cmp::PartialEqSpecImpl for TableStatus {
    open spec fn obeys_eq_spec() -> bool {
        true
    }

    open spec fn eq_spec(&self, other: &Self) -> bool {
        status_eq(*self, *other)
    }
}

impl Eq for TableStatus {

}

/// A top-level window that discovery found on the desktop.
#[derive(Debug, PartialEq)]
pub struct WindowCandidate {
    pub id: WindowId,
    pub label: String,
    pub process_name: String,
    pub class_name: String,
    pub signature: WindowSignature,
    pub rect: Rect,
    pub poker_client: Option<PokerClientKind>,
    pub is_clubgg_lobby: bool,
    pub preferred_aspect_ratio: AspectRatio,
    pub likely_table: bool,
}

impl Clone for WindowCandidate {
    fn clone(&self) -> (r: Self)
        ensures
            r == *self,
    {
        WindowCandidate {
            id: self.id,
            label: self.label.clone(),
            process_name: self.process_name.clone(),
            class_name: self.class_name.clone(),
            signature: self.signature.clone(),
            rect: self.rect,
            poker_client: self.poker_client,
            is_clubgg_lobby: self.is_clubgg_lobby,
            preferred_aspect_ratio: self.preferred_aspect_ratio,
            likely_table: self.likely_table,
        }
    }
}

/// A poker window that the controller manages.
#[derive(Debug, PartialEq)]
pub struct ManagedTable {
    pub id: WindowId,
    pub label: String,
    pub signature: WindowSignature,
    pub poker_client: PokerClientKind,
    pub preferred_aspect_ratio: AspectRatio,
    pub enabled: bool,
    pub last_active_rect: Rect,
    pub current_rect: Rect,
    pub status: TableStatus,
}

impl Clone for ManagedTable {
    fn clone(&self) -> (r: Self)
        ensures
            r == *self,
    {
        ManagedTable {
            id: self.id,
            label: self.label.clone(),
            signature: self.signature.clone(),
            poker_client: self.poker_client,
            preferred_aspect_ratio: self.preferred_aspect_ratio,
            enabled: self.enabled,
            last_active_rect: self.last_active_rect,
            current_rect: self.current_rect,
            status: self.status.clone(),
        }
    }
}

#[derive(Debug)]
pub struct MonitorInfo {
    pub id: String,
    pub label: String,
    pub work_area: Rect,
    pub primary: bool,
}

impl Clone for MonitorInfo {
    fn clone(&self) -> (r: Self)
        ensures
            r == *self,
    {
        MonitorInfo {
            id: self.id.clone(),
            label: self.label.clone(),
            work_area: self.work_area,
            primary: self.primary,
        }
    }
}

pub open spec fn monitor_eq(a: MonitorInfo, b: MonitorInfo) -> bool {
    a.id@ == b.id@ && a.label@ == b.label@ && a.work_area == b.work_area && a.primary == b.primary
}

impl PartialEq for MonitorInfo {
    fn eq(&self, other: &Self) -> (r: bool) {
        self.id == other.id && self.label == other.label && self.work_area == other.work_area
            && self.primary == other.primary
    }
}

impl vstd::std_specs::cmp::PartialEqSpecImpl for MonitorInfo {
    open spec fn obeys_eq_spec() -> bool {
        true
    }

    open spec fn eq_spec(&self, other: &Self) -> bool {
        monitor_eq(*self, *other)
    }
}

impl Eq for MonitorInfo {

}

/// How the panel shows one discovered window.
#[derive(Clone, Debug, PartialEq)]
pub struct CandidateView {
    pub id: WindowId,
    pub label: String,
    pub process_name: String,
    pub class_name: String,
    pub poker_client: Option<PokerClientKind>,
    pub is_clubgg_lobby: bool,
    pub current_rect: Rect,
    pub likely_table: bool,
    pub mode: WindowMode,
    pub slot: Option<usize>,
    pub status: Option<TableStatus>,
}

/// One poker slot as the panel's mirror shows it.
#[derive(Clone, Copy, Debug, PartialEq, Eq, Structural)]
pub struct PokerSlotView {
    pub id: PokerSlotId,
    pub rect: Rect,
    pub occupant: Option<WindowId>,
    pub parked: bool,
}

#[derive(Clone, Debug)]
pub enum BackendError {
    AccessDenied,
    WindowGone,
    Other(String),
}

impl BackendError {
    /// The human-readable text of the error.
    pub fn message(&self) -> (r: String)
        ensures
            r@ == backend_error_text(*self),
    {
        match self {
            BackendError::AccessDenied => String::from_str("access denied"),
            BackendError::WindowGone => String::from_str("window no longer exists"),
            BackendError::Other(message) => message.clone(),
        }
    }
}

pub open spec fn backend_error_text(error: BackendError) -> Seq<char> {
    match error {
        BackendError::AccessDenied => "access denied"@,
        BackendError::WindowGone => "window no longer exists"@,
        BackendError::Other(message) => message@,
    }
}

/// The desktop the controller works on: discovery, geometry and window placement.
pub trait WindowBackend {
    fn enumerate_candidates(&self) -> Result<Vec<WindowCandidate>, BackendError>;

    fn monitors(&self) -> Result<Vec<MonitorInfo>, BackendError>;

    fn move_resize(&self, id: WindowId, rect: Rect) -> Result<Rect, BackendError>;

    fn minimum_size(&self, id: WindowId, aspect_ratio: AspectRatio) -> Result<Size, BackendError>;

    fn locate(&self, id: WindowId) -> Result<(), BackendError>;

    fn foreground_window(&self) -> Option<WindowId>;
}

} // verus!
