//! Recognising windows: which top-level windows are candidates, which belong
//! to a poker client, which are ClubGG lobbies, and how a window is known
//! again across sessions.
use crate::layout::{LDPLAYER_NATURAL_RATIO_SCALED, DEFAULT_RATIO_SCALED};
use crate::model::{
    AspectRatio, PokerClientKind, Rect, Size, WindowCandidate, WindowId, WindowSignature,
    max_int,
};
use crate::text::{
    first_non_space, end_non_space,
    chars_of, contains, contains_seq, is_space, is_whitespace, lower, push_str, same_text,
    string_of, to_ascii_lowercase, trim, trim_chars, trimmed,
};
use vstd::prelude::*;

verus! {

// ----- title patterns -----

/// Characters that stand for a variable amount in a title: digits and the
/// dollar, euro, pound and yen signs.
pub open spec fn is_amount_char(c: char) -> bool {
    ('0' <= c && c <= '9') || c == '$' || c == '€' || c == '£' || c == '¥'
}

/// What a character adds to the pattern after the characters `before`: a
/// run of amount characters becomes one `#`, a run of white space one space,
/// anything else stays.
pub open spec fn pattern_piece(before: Seq<char>, c: char) -> Seq<char> {
    if is_amount_char(c) {
        if before.len() > 0 && is_amount_char(before.last()) {
            Seq::empty()
        } else {
            seq!['#']
        }
    } else if is_space(c) {
        if before.len() > 0 && is_space(before.last()) {
            Seq::empty()
        } else {
            seq![' ']
        }
    } else {
        seq![c]
    }
}

pub open spec fn pattern_chars(title: Seq<char>) -> Seq<char>
    decreases title.len(),
{
    if title.len() == 0 {
        Seq::empty()
    } else {
        pattern_chars(title.drop_last()) + pattern_piece(title.drop_last(), title.last())
    }
}

/// The pattern of a title: amounts and white-space runs collapsed, trimmed.
pub open spec fn title_pattern(title: Seq<char>) -> Seq<char> {
    trimmed(pattern_chars(title))
}

/// A pattern as normalizing leaves it: no amount characters, every
/// white-space character a plain space, and no two spaces side by side.
pub open spec fn clean_pattern(s: Seq<char>) -> bool {
    &&& forall|i: int| 0 <= i < s.len() ==> !is_amount_char(#[trigger] s[i]) && (is_space(s[i]) ==> s[i] == ' ')
    &&& forall|i: int| 0 < i < s.len() && is_space(#[trigger] s[i]) ==> !is_space(s[i - 1])
}

/// The character a title character ends the pattern with.
pub open spec fn pattern_end(c: char) -> char {
    if is_amount_char(c) {
        '#'
    } else if is_space(c) {
        ' '
    } else {
        c
    }
}

proof fn lemma_marks() 
    ensures
        !is_amount_char('#') && !is_space('#'),
        is_space(' ') && !is_amount_char(' '),
{
    assert(('#' as u32) == 0x23);
    assert((' ' as u32) == 0x20);
}

proof fn lemma_pattern_chars_clean(t: Seq<char>)
    ensures
        clean_pattern(pattern_chars(t)),
        t.len() > 0 ==> pattern_chars(t).len() > 0 && pattern_chars(t).last() == pattern_end(t.last()),
    decreases t.len(),
{
    lemma_marks();
    if t.len() > 0 {
        let init = t.drop_last();
        lemma_pattern_chars_clean(init);
        let p = pattern_chars(init);
        let c = t.last();
        let out = pattern_chars(t);
        assert(out == p + pattern_piece(init, c));
        assert forall|i: int| 0 <= i < out.len() implies !is_amount_char(#[trigger] out[i]) && (is_space(out[i]) ==> out[i] == ' ') by {
            if i < p.len() {
                assert(out[i] == p[i]);
            }
        }
        assert forall|i: int| 0 < i < out.len() && is_space(#[trigger] out[i]) implies !is_space(out[i - 1]) by {
            if i < p.len() {
                assert(out[i] == p[i]);
                assert(out[i - 1] == p[i - 1]);
            } else {
                assert(out[i - 1] == p[i - 1]);
            }
        }
    }
}

proof fn lemma_clean_is_own_pattern(s: Seq<char>)
    requires
        clean_pattern(s),
    ensures
        pattern_chars(s) == s,
    decreases s.len(),
{
    lemma_marks();
    if s.len() > 0 {
        let init = s.drop_last();
        assert(clean_pattern(init)) by {
            assert forall|i: int| 0 <= i < init.len() implies !is_amount_char(#[trigger] init[i]) && (is_space(init[i]) ==> init[i] == ' ') by {
                assert(init[i] == s[i]);
            }
            assert forall|i: int| 0 < i < init.len() && is_space(#[trigger] init[i]) implies !is_space(init[i - 1]) by {
                assert(init[i] == s[i]);
                assert(init[i - 1] == s[i - 1]);
            }
        }
        lemma_clean_is_own_pattern(init);
        let c = s.last();
        assert(!is_amount_char(s[s.len() - 1]));
        if is_space(c) {
            if init.len() > 0 {
                assert(is_space(s[s.len() - 1]));
                assert(!is_space(s[s.len() - 2]));
            }
        }
        assert(pattern_chars(s) =~= s);
    }
}

proof fn lemma_trimmed_clean(s: Seq<char>)
    requires
        clean_pattern(s),
    ensures
        clean_pattern(trimmed(s)),
        trimmed(trimmed(s)) == trimmed(s),
{
    crate::text::lemma_first_non_space_bounds(s, 0);
    crate::text::lemma_end_non_space_bounds(s, s.len() as int);
    let x = trimmed(s);
    let start = first_non_space(s, 0);
    let end = end_non_space(s, s.len() as int);
    if start < end {
        assert forall|i: int| 0 <= i < x.len() implies !is_amount_char(#[trigger] x[i]) && (is_space(x[i]) ==> x[i] == ' ') by {
            assert(x[i] == s[start + i]);
        }
        assert forall|i: int| 0 < i < x.len() && is_space(#[trigger] x[i]) implies !is_space(x[i - 1]) by {
            assert(x[i] == s[start + i]);
            assert(x[i - 1] == s[start + i - 1]);
        }
        assert(x[0] == s[start]);
        assert(x[x.len() - 1] == s[end - 1]);
        assert(first_non_space(x, 0) == 0);
        assert(end_non_space(x, x.len() as int) == x.len());
        assert(trimmed(x) =~= x);
    } else {
        assert(trimmed(x) =~= x);
    }
}

/// Normalizing a title twice gives what normalizing it once gives, and the
/// pattern holds no amount characters, only plain single spaces, and no
/// white space at either end.
pub proof fn law_title_pattern_is_stable(title: Seq<char>)
    ensures
        title_pattern(title_pattern(title)) == title_pattern(title),
        clean_pattern(title_pattern(title)),
{
    lemma_pattern_chars_clean(title);
    let p = pattern_chars(title);
    lemma_trimmed_clean(p);
    lemma_clean_is_own_pattern(trimmed(p));
}

fn is_amount(c: char) -> (r: bool)
    ensures
        r == is_amount_char(c),
{
    ('0' <= c && c <= '9') || c == '$' || c == '€' || c == '£' || c == '¥'
}

/// The title with its variable amounts replaced by `#` and its white space
/// collapsed, trimmed: tables of one game keep one pattern across sessions.
pub fn normalize_title_pattern(title: &str) -> (r: String)
    ensures
        r@ == title_pattern(title@),
{
    let chars = chars_of(title);
    let mut out: Vec<char> = Vec::new();
    let mut previous_was_number = false;
    let mut previous_was_space = false;
    let mut index: usize = 0;
    while index < chars.len()
        invariant
            index <= chars.len(),
            chars@ == title@,
            out@ == pattern_chars(title@.subrange(0, index as int)),
            previous_was_number == (index > 0 && is_amount_char(title@[index - 1])),
            previous_was_space == (index > 0 && is_space(title@[index - 1])),
        decreases chars.len() - index,
    {
        let c = chars[index];
        let ghost before = title@.subrange(0, index as int);
        assert(title@.subrange(0, index + 1).drop_last() =~= before);
        assert(title@.subrange(0, index + 1).last() == c);
        let ghost prev_out = out@;
        if is_amount(c) {
            if !previous_was_number {
                out.push('#');
            }
            previous_was_number = true;
            previous_was_space = false;
        } else if is_whitespace(c) {
            if !previous_was_space {
                out.push(' ');
            }
            previous_was_number = false;
            previous_was_space = true;
        } else {
            out.push(c);
            previous_was_number = false;
            previous_was_space = false;
        }
        assert(out@ =~= prev_out + pattern_piece(before, c));
        index += 1;
    }
    assert(title@.subrange(0, index as int) =~= title@);
    let trimmed_chars = trim_chars(&out);
    string_of(&trimmed_chars)
}

// ----- kinds of windows -----

/// Only LDPlayer's front-end process, `dnplayer` with or without `.exe`.
pub open spec fn ldplayer_process(name: Seq<char>) -> bool {
    lower(name) == "dnplayer"@ || lower(name) == "dnplayer.exe"@
}

pub fn is_ldplayer_process(process_name: &str) -> (r: bool)
    ensures
        r == ldplayer_process(process_name@),
{
    let name = to_ascii_lowercase(process_name);
    same_text(name.as_str(), "dnplayer") || same_text(name.as_str(), "dnplayer.exe")
}

/// A ClubGG surface without a table title: empty, or just "ClubGG".
pub open spec fn generic_clubgg_surface(title: Seq<char>) -> bool {
    lower(trimmed(title)) == Seq::<char>::empty() || lower(trimmed(title)) == "clubgg"@
}

pub fn is_generic_clubgg_surface(title: &str) -> (r: bool)
    ensures
        r == generic_clubgg_surface(title@),
{
    let trimmed_title = trim(title);
    let name = to_ascii_lowercase(trimmed_title.as_str());
    proof {
        reveal_strlit("");
        assert(""@ =~= Seq::<char>::empty());
    }
    same_text(name.as_str(), "") || same_text(name.as_str(), "clubgg")
}

/// A ClubGG lobby: a generic surface or a title that mentions a lobby.
pub open spec fn clubgg_lobby_surface(title: Seq<char>) -> bool {
    generic_clubgg_surface(title) || contains_seq(lower(title), "lobby"@)
}

pub fn is_clubgg_lobby_surface(title: &str) -> (r: bool)
    ensures
        r == clubgg_lobby_surface(title@),
{
    if is_generic_clubgg_surface(title) {
        return true;
    }
    let lowered = to_ascii_lowercase(title);
    contains(lowered.as_str(), "lobby")
}

/// The desktop, the task bars and the notification overflow.
pub open spec fn system_shell_window(class_name: Seq<char>) -> bool {
    let name = lower(class_name);
    name == "progman"@ || name == "workerw"@ || name == "shell_traywnd"@ || name
        == "shell_secondarytraywnd"@ || name == "notifyiconoverflowwindow"@
}

pub fn is_system_shell_window(class_name: &str) -> (r: bool)
    ensures
        r == system_shell_window(class_name@),
{
    let lowered = to_ascii_lowercase(class_name);
    let name = lowered.as_str();
    same_text(name, "progman") || same_text(name, "workerw") || same_text(name, "shell_traywnd")
        || same_text(name, "shell_secondarytraywnd") || same_text(
        name,
        "notifyiconoverflowwindow",
    )
}

// ----- classifying a window -----

/// What the desktop reports about one top-level window.
#[derive(Debug)]
pub struct RawWindow {
    pub id: WindowId,
    pub visible: bool,
    pub cloaked: bool,
    pub process_id: u32,
    pub own_process_id: u32,
    pub title: String,
    pub class_name: String,
    /// The executable of the window's process, when the process is known.
    pub process_name: Option<String>,
    /// The process is ClubGG or was started, directly or not, by ClubGG.
    pub in_clubgg_process_tree: bool,
    /// The window's rectangle, when it could be read.
    pub rect: Option<Rect>,
    pub child: bool,
    pub disabled: bool,
    pub tool_window: bool,
}

pub open spec fn process_label(raw: RawWindow) -> Seq<char> {
    match raw.process_name {
        Some(name) => name@,
        None => "unknown"@,
    }
}

pub open spec fn belongs_to_clubgg(raw: RawWindow) -> bool {
    raw.in_clubgg_process_tree || contains_seq(lower(process_label(raw)), "clubgg"@) || contains_seq(
        lower(raw.title@),
        "clubgg"@,
    ) || contains_seq(lower(raw.class_name@), "clubgg"@)
}

pub open spec fn client_of(raw: RawWindow) -> Option<PokerClientKind> {
    if belongs_to_clubgg(raw) {
        Some(PokerClientKind::ClubGg)
    } else if ldplayer_process(process_label(raw)) {
        Some(PokerClientKind::LdPlayer)
    } else {
        None
    }
}

/// Titles of lobbies, cashiers, log-ins, settings, messages, histories and
/// support windows.
pub open spec fn utility_title(lower_title: Seq<char>) -> bool {
    contains_seq(lower_title, "lobby"@) || contains_seq(lower_title, "cashier"@) || contains_seq(
        lower_title,
        "login"@,
    ) || contains_seq(lower_title, "setting"@) || contains_seq(lower_title, "message"@)
        || contains_seq(lower_title, "history"@) || contains_seq(lower_title, "support"@)
        || contains_seq(lower_title, "tournament lobby"@)
}

/// A rectangle shaped like a table: its width-to-height ratio lies between 0.9 and 2.1.
pub open spec fn table_shaped(rect: Rect) -> bool {
    9 * rect.height <= 10 * rect.width && 10 * rect.width <= 21 * rect.height
}

pub open spec fn clubgg_lobby(raw: RawWindow) -> bool {
    belongs_to_clubgg(raw) && clubgg_lobby_surface(lower(raw.title@))
}

pub open spec fn blank_title(raw: RawWindow) -> bool {
    trimmed(raw.title@).len() == 0
}

/// Whether a window is a candidate at all: visible, not cloaked, not ours,
/// with a readable rectangle of at least 100 by 100, not a child and not
/// disabled; an ordinary window also needs a title, no tool-window style and
/// not to be part of the shell; an LDPlayer window needs a title and no
/// tool-window style.
pub open spec fn accepted(raw: RawWindow) -> bool {
    &&& raw.visible
    &&& !raw.cloaked
    &&& raw.process_id != raw.own_process_id
    &&& raw.rect is Some
    &&& raw.rect->0.width >= 100
    &&& raw.rect->0.height >= 100
    &&& !raw.child
    &&& !raw.disabled
    &&& !(client_of(raw) is None && (blank_title(raw) || raw.tool_window || system_shell_window(raw.class_name@)))
    &&& !(ldplayer_process(process_label(raw)) && (raw.tool_window || blank_title(raw)))
}

/// Whether an accepted window looks like a poker table: a ClubGG window that
/// is no utility window, is table-shaped and has a title or no tool-window
/// style; an LDPlayer window that is no utility window.
pub open spec fn looks_like_table(raw: RawWindow) -> bool {
    let looks_utility = clubgg_lobby(raw) || utility_title(lower(raw.title@));
    match client_of(raw) {
        Some(PokerClientKind::ClubGg) => !looks_utility && table_shaped(raw.rect->0) && (raw.title@.len() > 0 || !raw.tool_window),
        Some(PokerClientKind::LdPlayer) => !looks_utility,
        None => false,
    }
}

/// The label the panel shows: "ClubGG lobby", the process name for an
/// untitled window, else the title.
pub open spec fn window_label(raw: RawWindow) -> Seq<char> {
    if clubgg_lobby(raw) {
        "ClubGG lobby"@
    } else if blank_title(raw) {
        process_label(raw) + " window"@
    } else {
        raw.title@
    }
}

/// The candidate made of an accepted window (see `accepted` and `looks_like_table`).
pub open spec fn classified_as(raw: RawWindow, c: WindowCandidate) -> bool {
    let rect = raw.rect->0;
    let ratio = AspectRatio::of_dimensions(rect.width as int, rect.height as int);
    &&& c.id == raw.id
    &&& c.label@ == window_label(raw)
    &&& c.process_name@ == process_label(raw)
    &&& c.class_name@ == raw.class_name@
    &&& c.signature@.process_name == lower(process_label(raw))
    &&& c.signature@.class_name == raw.class_name@
    &&& c.signature@.title_pattern == title_pattern(lower(raw.title@))
    &&& c.rect == rect
    &&& c.poker_client == client_of(raw)
    &&& c.is_clubgg_lobby == clubgg_lobby(raw)
    &&& c.preferred_aspect_ratio == if client_of(raw) == Some(PokerClientKind::LdPlayer) {
        AspectRatio { scaled: max_int(ratio.scaled as int, LDPLAYER_NATURAL_RATIO_SCALED as int) as u64 }
    } else {
        ratio
    }
    &&& c.likely_table == looks_like_table(raw)
}

/// A window whose title, in lower case, mentions a lobby, the cashier, a
/// log-in, settings, messages, a history or support is a utility window:
/// whatever its client, shape or style, it is never taken for a poker table.
pub proof fn law_utility_windows_are_never_tables(raw: RawWindow, c: WindowCandidate)
    requires
        classified_as(raw, c),
        contains_seq(lower(raw.title@), "lobby"@) || contains_seq(lower(raw.title@), "cashier"@) || contains_seq(
            lower(raw.title@),
            "login"@,
        ) || contains_seq(lower(raw.title@), "setting"@) || contains_seq(lower(raw.title@), "message"@)
            || contains_seq(lower(raw.title@), "history"@) || contains_seq(lower(raw.title@), "support"@),
    ensures
        !c.likely_table,
{
}

/// A window taken for a poker table belongs to a poker client, is no ClubGG
/// lobby, has a title free of the utility words, and, for ClubGG, is shaped
/// like a table: its width is between 0.9 and 2.1 times its height.
pub proof fn law_likely_tables_look_like_tables(raw: RawWindow, c: WindowCandidate)
    requires
        classified_as(raw, c),
        c.likely_table,
    ensures
        c.poker_client is Some,
        !c.is_clubgg_lobby,
        !contains_seq(lower(raw.title@), "cashier"@),
        !contains_seq(lower(raw.title@), "lobby"@),
        c.poker_client == Some(PokerClientKind::ClubGg) ==> 9 * c.rect.height <= 10 * c.rect.width && 10
            * c.rect.width <= 21 * c.rect.height,
{
}

fn utility_words(lower_title: &str) -> (r: bool)
    ensures
        r == utility_title(lower_title@),
{
    contains(lower_title, "lobby") || contains(lower_title, "cashier") || contains(lower_title, "login")
        || contains(lower_title, "setting") || contains(lower_title, "message") || contains(
        lower_title,
        "history",
    ) || contains(lower_title, "support") || contains(lower_title, "tournament lobby")
}

/// The candidate for a window, or nothing when it is no candidate.
pub fn classify_window(raw: &RawWindow) -> (r: Option<WindowCandidate>)
    ensures
        r is Some <==> accepted(*raw),
        r matches Some(c) ==> classified_as(*raw, c),
{
    if !raw.visible || raw.cloaked || raw.process_id == raw.own_process_id {
        return None;
    }
    let process_name = match &raw.process_name {
        Some(name) => name.clone(),
        None => String::from_str("unknown"),
    };
    let lower_process = to_ascii_lowercase(process_name.as_str());
    let lower_title = to_ascii_lowercase(raw.title.as_str());
    let lower_class = to_ascii_lowercase(raw.class_name.as_str());
    let belongs_to_clubgg = raw.in_clubgg_process_tree || contains(lower_process.as_str(), "clubgg")
        || contains(lower_title.as_str(), "clubgg") || contains(lower_class.as_str(), "clubgg");
    let belongs_to_ldplayer = is_ldplayer_process(process_name.as_str());
    let poker_client = if belongs_to_clubgg {
        Some(PokerClientKind::ClubGg)
    } else if belongs_to_ldplayer {
        Some(PokerClientKind::LdPlayer)
    } else {
        None
    };
    let rect = match raw.rect {
        Some(rect) => rect,
        None => {
            return None;
        },
    };
    if rect.width < 100 || rect.height < 100 {
        return None;
    }
    if raw.child || raw.disabled {
        return None;
    }
    let lobby = belongs_to_clubgg && is_clubgg_lobby_surface(lower_title.as_str());
    let looks_utility = lobby || utility_words(lower_title.as_str());
    let table_shape = 9 * (rect.height as i64) <= 10 * (rect.width as i64) && 10 * (rect.width as i64)
        <= 21 * (rect.height as i64);
    let trimmed_title = trim(raw.title.as_str());
    let blank = trimmed_title.unicode_len() == 0;
    if poker_client.is_none() && (blank || raw.tool_window || is_system_shell_window(raw.class_name.as_str())) {
        return None;
    }
    if belongs_to_ldplayer && (raw.tool_window || blank) {
        return None;
    }
    let likely_table = match poker_client {
        Some(PokerClientKind::ClubGg) => !looks_utility && table_shape && (raw.title.unicode_len() > 0 || !raw.tool_window),
        Some(PokerClientKind::LdPlayer) => !looks_utility,
        None => false,
    };
    let label = if lobby {
        String::from_str("ClubGG lobby")
    } else if blank {
        let mut text = process_name.clone();
        push_str(&mut text, " window");
        text
    } else {
        raw.title.clone()
    };
    let ratio = match rect.aspect_ratio() {
        Some(ratio) => ratio,
        None => AspectRatio { scaled: 0 },
    };
    let preferred = match poker_client {
        Some(PokerClientKind::LdPlayer) => crate::layout::normalized_ldplayer_aspect_ratio(ratio),
        _ => ratio,
    };
    let pattern = normalize_title_pattern(lower_title.as_str());
    Some(WindowCandidate {
        id: raw.id,
        label,
        process_name: process_name.clone(),
        class_name: raw.class_name.clone(),
        signature: WindowSignature {
            process_name: lower_process,
            class_name: raw.class_name.clone(),
            title_pattern: pattern,
        },
        rect,
        poker_client,
        is_clubgg_lobby: lobby,
        preferred_aspect_ratio: preferred,
        likely_table,
    })
}

// ----- the ClubGG process tree -----

/// One running process.
#[derive(Debug)]
pub struct ProcessRecord {
    pub id: u32,
    pub parent_id: u32,
    pub executable: String,
}

/// A process whose executable name mentions ClubGG, in any case.
pub open spec fn clubgg_executable(p: ProcessRecord) -> bool {
    contains_seq(lower(p.executable@), "clubgg"@)
}

/// `chain` leads from a process up through its parents to a ClubGG
/// executable: each entry is the parent of the one before it.
pub open spec fn ancestry(processes: Seq<ProcessRecord>, chain: Seq<int>) -> bool {
    &&& chain.len() > 0
    &&& forall|k: int| 0 <= k < chain.len() ==> 0 <= #[trigger] chain[k] < processes.len()
    &&& clubgg_executable(processes[chain.last()])
    &&& forall|k: int|
        0 <= k < chain.len() - 1 ==> processes[chain[k + 1]].id == (#[trigger] processes[chain[k]]).parent_id
}

/// Process `i` belongs to the ClubGG process tree: it is ClubGG or was
/// started, directly or not, by a ClubGG process.
pub open spec fn in_clubgg_tree(processes: Seq<ProcessRecord>, i: int) -> bool {
    exists|chain: Seq<int>| #[trigger] ancestry(processes, chain) && chain[0] == i
}

pub open spec fn count_unmarked(flags: Seq<bool>) -> nat
    decreases flags.len(),
{
    if flags.len() == 0 {
        0
    } else {
        count_unmarked(flags.drop_last()) + if flags.last() {
            0nat
        } else {
            1nat
        }
    }
}

proof fn lemma_marking_counts_down(flags: Seq<bool>, i: int)
    requires
        0 <= i < flags.len(),
        !flags[i],
    ensures
        count_unmarked(flags.update(i, true)) + 1 == count_unmarked(flags),
    decreases flags.len(),
{
    let updated = flags.update(i, true);
    if i < flags.len() - 1 {
        assert(updated.drop_last() =~= flags.drop_last().update(i, true));
        lemma_marking_counts_down(flags.drop_last(), i);
    } else {
        assert(updated.drop_last() =~= flags.drop_last());
    }
}

/// Marks are closed: ClubGG executables are marked, and so is every process
/// whose parent is a marked process.
pub open spec fn closed_marking(processes: Seq<ProcessRecord>, flags: Seq<bool>) -> bool {
    &&& forall|i: int| 0 <= i < processes.len() && clubgg_executable(#[trigger] processes[i]) ==> flags[i]
    &&& forall|i: int, j: int|
        0 <= i < processes.len() && 0 <= j < processes.len() && #[trigger] flags[j] && processes[j].id
            == (#[trigger] processes[i]).parent_id ==> flags[i]
}

proof fn lemma_closed_marking_complete(processes: Seq<ProcessRecord>, flags: Seq<bool>, chain: Seq<int>)
    requires
        flags.len() == processes.len(),
        closed_marking(processes, flags),
        ancestry(processes, chain),
    ensures
        flags[chain[0]],
    decreases chain.len(),
{
    if chain.len() == 1 {
        assert(clubgg_executable(processes[chain[0]]));
    } else {
        let rest = chain.subrange(1, chain.len() as int);
        assert forall|k: int| 0 <= k < rest.len() - 1 implies processes[rest[k + 1]].id == (#[trigger] processes[rest[k]]).parent_id by {
            assert(rest[k] == chain[k + 1] && rest[k + 1] == chain[k + 2]);
            assert(processes[chain[k + 2]].id == processes[chain[k + 1]].parent_id);
        }
        assert(rest.last() == chain.last());
        assert forall|k: int| 0 <= k < rest.len() implies 0 <= #[trigger] rest[k] < processes.len() by {
            assert(rest[k] == chain[k + 1]);
        }
        lemma_closed_marking_complete(processes, flags, rest);
        assert(processes[chain[1]].id == processes[chain[0]].parent_id);
        assert(flags[chain[1]]);
    }
}

proof fn lemma_ancestry_extends(processes: Seq<ProcessRecord>, chain: Seq<int>, i: int)
    requires
        ancestry(processes, chain),
        0 <= i < processes.len(),
        processes[chain[0]].id == processes[i].parent_id,
    ensures
        ancestry(processes, seq![i] + chain),
        (seq![i] + chain)[0] == i,
{
    let longer = seq![i] + chain;
    assert forall|k: int| 0 <= k < longer.len() implies 0 <= #[trigger] longer[k] < processes.len() by {
        if k > 0 {
            assert(longer[k] == chain[k - 1]);
        }
    }
    assert(longer.last() == chain.last());
    assert forall|k: int| 0 <= k < longer.len() - 1 implies processes[longer[k + 1]].id == (#[trigger] processes[longer[k]]).parent_id by {
        if k > 0 {
            assert(longer[k] == chain[k - 1] && longer[k + 1] == chain[k]);
            assert(processes[chain[k]].id == processes[chain[k - 1]].parent_id);
        }
    }
}

fn marked_parent(processes: &Vec<ProcessRecord>, flags: &Vec<bool>, parent_id: u32) -> (r: bool)
    requires
        flags@.len() == processes@.len(),
    ensures
        r == exists|j: int| 0 <= j < processes@.len() && flags@[j] && processes@[j].id == parent_id,
{
    let mut j: usize = 0;
    while j < processes.len()
        invariant
            j <= processes@.len(),
            flags@.len() == processes@.len(),
            forall|k: int| 0 <= k < j ==> !(flags@[k] && processes@[k].id == parent_id),
        decreases processes@.len() - j,
    {
        if flags[j] && processes[j].id == parent_id {
            return true;
        }
        j += 1;
    }
    false
}

/// No process id is listed twice (a process table is keyed by id).
pub open spec fn distinct_process_ids(processes: Seq<ProcessRecord>) -> bool {
    forall|i: int, j: int| 0 <= i < j < processes.len() ==> (#[trigger] processes[i]).id != (#[trigger] processes[j]).id
}

/// The ids of the processes in the ClubGG process tree.
pub open spec fn related_ids(processes: Seq<ProcessRecord>) -> Set<u32> {
    Set::new(|x: u32| exists|i: int| 0 <= i < processes.len() && processes[i].id == x && in_clubgg_tree(processes, i))
}

/// `ids` holds every ClubGG executable and every process whose parent it holds.
pub open spec fn closed_under_parents(processes: Seq<ProcessRecord>, ids: Set<u32>) -> bool {
    &&& forall|i: int| 0 <= i < processes.len() && clubgg_executable(#[trigger] processes[i]) ==> ids.contains(processes[i].id)
    &&& forall|i: int|
        0 <= i < processes.len() && ids.contains((#[trigger] processes[i]).parent_id) ==> ids.contains(processes[i].id)
}

/// The ids of ClubGG's processes and of every process they started, directly
/// or not, each once.
#[verifier::spinoff_prover]
#[verifier::rlimit(40)]
pub fn related_clubgg_processes(processes: &Vec<ProcessRecord>) -> (r: Vec<u32>)
    requires
        distinct_process_ids(processes@),
    ensures
        forall|x: u32| r@.contains(x) <==> exists|i: int| 0 <= i < processes@.len() && processes@[i].id == x
            && in_clubgg_tree(processes@, i),
        r@.to_set() == related_ids(processes@),
        r@.no_duplicates(),
{
    let ghost procs = processes@;
    let mut flags: Vec<bool> = Vec::new();
    let mut index: usize = 0;
    while index < processes.len()
        invariant
            index <= processes@.len(),
            procs == processes@,
            flags@.len() == index,
            forall|i: int| 0 <= i < index ==> (flags@[i] <==> clubgg_executable(procs[i])),
        decreases processes@.len() - index,
    {
        let lowered = to_ascii_lowercase(processes[index].executable.as_str());
        flags.push(contains(lowered.as_str(), "clubgg"));
        index += 1;
    }
    proof {
        assert forall|i: int| 0 <= i < procs.len() && #[trigger] flags@[i] implies in_clubgg_tree(procs, i) by {
            assert(ancestry(procs, seq![i]));
        }
    }
    loop
        invariant
            procs == processes@,
            flags@.len() == procs.len(),
            forall|i: int| 0 <= i < procs.len() && clubgg_executable(#[trigger] procs[i]) ==> flags@[i],
            forall|i: int| 0 <= i < procs.len() && #[trigger] flags@[i] ==> in_clubgg_tree(procs, i),
        ensures
            flags@.len() == procs.len(),
            closed_marking(procs, flags@),
            forall|i: int| 0 <= i < procs.len() && #[trigger] flags@[i] ==> in_clubgg_tree(procs, i),
        decreases count_unmarked(flags@),
    {
        let ghost start = flags@;
        let mut changed = false;
        let mut i: usize = 0;
        while i < processes.len()
            invariant
                procs == processes@,
                i <= procs.len(),
                flags@.len() == procs.len(),
                forall|k: int| 0 <= k < procs.len() && clubgg_executable(#[trigger] procs[k]) ==> flags@[k],
                forall|k: int| 0 <= k < procs.len() && #[trigger] flags@[k] ==> in_clubgg_tree(procs, k),
                !changed ==> flags@ == start,
                changed ==> count_unmarked(flags@) < count_unmarked(start),
                !changed ==> forall|k: int, j: int|
                    0 <= k < i && 0 <= j < procs.len() && #[trigger] flags@[j] && procs[j].id
                        == (#[trigger] procs[k]).parent_id ==> flags@[k],
            decreases procs.len() - i,
        {
            if !flags[i] {
                let parent = processes[i].parent_id;
                if marked_parent(processes, &flags, parent) {
                    proof {
                        let j = choose|j: int| 0 <= j < procs.len() && flags@[j] && procs[j].id == parent;
                        assert(in_clubgg_tree(procs, j));
                        let chain = choose|chain: Seq<int>| #[trigger] ancestry(procs, chain) && chain[0] == j;
                        lemma_ancestry_extends(procs, chain, i as int);
                        assert(ancestry(procs, seq![i as int] + chain));
                        lemma_marking_counts_down(flags@, i as int);
                    }
                    flags.set(i, true);
                    changed = true;
                }
            }
            i += 1;
        }
        if !changed {
            break;
        }
    }
    let mut out: Vec<u32> = Vec::new();
    let mut k: usize = 0;
    while k < processes.len()
        invariant
            procs == processes@,
            k <= procs.len(),
            flags@.len() == procs.len(),
            distinct_process_ids(procs),
            out@.no_duplicates(),
            forall|x: u32| out@.contains(x) <==> exists|i: int| 0 <= i < k && flags@[i] && procs[i].id == x,
        decreases procs.len() - k,
    {
        let ghost before = out@;
        if flags[k] {
            proof {
                if before.contains(procs[k as int].id) {
                    let i = choose|i: int| 0 <= i < k && flags@[i] && procs[i].id == procs[k as int].id;
                    assert(procs[i].id != procs[k as int].id);
                }
            }
            out.push(processes[k].id);
            proof {
                assert forall|x: u32| out@.contains(x) <==> exists|i: int| 0 <= i < k + 1 && flags@[i] && procs[i].id == x by {
                    if out@.contains(x) {
                        let m = choose|m: int| 0 <= m < out@.len() && out@[m] == x;
                        if m < before.len() {
                            assert(before.contains(x));
                        } else {
                            assert(procs[k as int].id == x);
                        }
                    }
                    if exists|i: int| 0 <= i < k + 1 && flags@[i] && procs[i].id == x {
                        let i = choose|i: int| 0 <= i < k + 1 && flags@[i] && procs[i].id == x;
                        if i < k {
                            assert(before.contains(x));
                            let m = choose|m: int| 0 <= m < before.len() && before[m] == x;
                            assert(out@[m] == x);
                        } else {
                            assert(out@[before.len() as int] == x);
                        }
                    }
                }
            }
        }
        k += 1;
    }
    proof {
        assert forall|x: u32| out@.contains(x) <==> exists|i: int| 0 <= i < procs.len() && procs[i].id == x
            && in_clubgg_tree(procs, i) by {
            if exists|i: int| 0 <= i < procs.len() && procs[i].id == x && in_clubgg_tree(procs, i) {
                let i = choose|i: int| 0 <= i < procs.len() && procs[i].id == x && in_clubgg_tree(procs, i);
                let chain = choose|chain: Seq<int>| #[trigger] ancestry(procs, chain) && chain[0] == i;
                lemma_closed_marking_complete(procs, flags@, chain);
            }
        }
        assert(out@.to_set() =~= related_ids(procs));
    }
    out
}

/// The related processes are the least set of ids that holds every ClubGG
/// executable and every process whose parent it holds: that set is closed
/// so, lies within any other set that is, names only listed processes, and
/// is empty exactly when no executable name mentions ClubGG.
pub proof fn law_related_processes_form_the_least_closed_set(processes: Seq<ProcessRecord>, ids: Set<u32>)
    ensures
        closed_under_parents(processes, related_ids(processes)),
        closed_under_parents(processes, ids) ==> related_ids(processes).subset_of(ids),
        forall|x: u32| #[trigger] related_ids(processes).contains(x) ==> exists|i: int| 0 <= i < processes.len() && processes[i].id == x,
        related_ids(processes).is_empty() <==> forall|i: int| 0 <= i < processes.len() ==> !clubgg_executable(#[trigger] processes[i]),
{
    let related = related_ids(processes);
    assert forall|i: int| 0 <= i < processes.len() && clubgg_executable(#[trigger] processes[i]) implies related.contains(processes[i].id) by {
        lemma_executable_is_related(processes, i);
    }
    assert forall|i: int| 0 <= i < processes.len() && related.contains((#[trigger] processes[i]).parent_id) implies related.contains(processes[i].id) by {
        lemma_child_is_related(processes, i);
    }
    if closed_under_parents(processes, ids) {
        assert forall|x: u32| related.contains(x) implies ids.contains(x) by {
            let i = choose|i: int| 0 <= i < processes.len() && processes[i].id == x && in_clubgg_tree(processes, i);
            let chain = choose|chain: Seq<int>| #[trigger] ancestry(processes, chain) && chain[0] == i;
            lemma_closed_set_holds_chain(processes, ids, chain);
        }
    }
    if !related.is_empty() {
        let x = related.choose();
        assert(related.contains(x));
        let i = choose|i: int| 0 <= i < processes.len() && processes[i].id == x && in_clubgg_tree(processes, i);
        let chain = choose|chain: Seq<int>| #[trigger] ancestry(processes, chain) && chain[0] == i;
        assert(clubgg_executable(processes[chain.last()]));
    }
}

proof fn lemma_executable_is_related(processes: Seq<ProcessRecord>, i: int)
    requires
        0 <= i < processes.len(),
        clubgg_executable(processes[i]),
    ensures
        related_ids(processes).contains(processes[i].id),
{
    let chain = seq![i];
    assert(ancestry(processes, chain));
    assert(in_clubgg_tree(processes, i));
}

proof fn lemma_child_is_related(processes: Seq<ProcessRecord>, i: int)
    requires
        0 <= i < processes.len(),
        related_ids(processes).contains(processes[i].parent_id),
    ensures
        related_ids(processes).contains(processes[i].id),
{
    let j = choose|j: int| 0 <= j < processes.len() && processes[j].id == processes[i].parent_id && in_clubgg_tree(processes, j);
    let chain = choose|chain: Seq<int>| #[trigger] ancestry(processes, chain) && chain[0] == j;
    lemma_ancestry_extends(processes, chain, i);
    assert(in_clubgg_tree(processes, i));
}

proof fn lemma_closed_set_holds_chain(processes: Seq<ProcessRecord>, ids: Set<u32>, chain: Seq<int>)
    requires
        closed_under_parents(processes, ids),
        ancestry(processes, chain),
    ensures
        ids.contains(processes[chain[0]].id),
    decreases chain.len(),
{
    if chain.len() == 1 {
        assert(clubgg_executable(processes[chain[0]]));
    } else {
        let rest = chain.subrange(1, chain.len() as int);
        assert forall|k: int| 0 <= k < rest.len() - 1 implies processes[rest[k + 1]].id == (#[trigger] processes[rest[k]]).parent_id by {
            assert(rest[k] == chain[k + 1] && rest[k + 1] == chain[k + 2]);
            assert(processes[chain[k + 2]].id == processes[chain[k + 1]].parent_id);
        }
        assert(rest.last() == chain.last());
        assert forall|k: int| 0 <= k < rest.len() implies 0 <= #[trigger] rest[k] < processes.len() by {
            assert(rest[k] == chain[k + 1]);
        }
        lemma_closed_set_holds_chain(processes, ids, rest);
        assert(processes[chain[1]].id == processes[chain[0]].parent_id);
    }
}

/// The length of the text in a zero-terminated UTF-16 buffer: up to the
/// first zero, or the whole buffer.
pub fn wide_text_length(buffer: &[u16]) -> (r: usize)
    ensures
        r <= buffer@.len(),
        forall|k: int| 0 <= k < r ==> buffer@[k] != 0,
        r < buffer@.len() ==> buffer@[r as int] == 0,
{
    let mut index: usize = 0;
    while index < buffer.len()
        invariant
            index <= buffer@.len(),
            forall|k: int| 0 <= k < index ==> buffer@[k] != 0,
        decreases buffer@.len() - index,
    {
        if buffer[index] == 0 {
            return index;
        }
        index += 1;
    }
    index
}

// ----- what the desktop reports -----

/// The minimum size of a window: the size it reports, or else a 180-pixel
/// high window of the given ratio (4:3 when the ratio is not positive), at
/// least 200 pixels wide.
pub open spec fn minimum_size_spec(reported: Size, ratio: AspectRatio) -> Size {
    if reported.width > 0 && reported.height > 0 {
        reported
    } else {
        let scaled = if ratio.scaled > 0 {
            ratio.scaled as int
        } else {
            DEFAULT_RATIO_SCALED as int
        };
        let rounded = (180 * scaled + 2147483648) / 4294967296;
        let width = if rounded > i32::MAX {
            i32::MAX as int
        } else {
            rounded
        };
        Size { width: max_int(width, 200) as i32, height: 180 }
    }
}

pub fn estimated_minimum_size(reported: Size, ratio: AspectRatio) -> (r: Size)
    ensures
        r == minimum_size_spec(reported, ratio),
{
    if reported.width > 0 && reported.height > 0 {
        return reported;
    }
    let scaled: u128 = if ratio.scaled > 0 {
        ratio.scaled as u128
    } else {
        DEFAULT_RATIO_SCALED as u128
    };
    let rounded: u128 = (180 * scaled + 2147483648) / 4294967296;
    let width: i32 = if rounded > 2147483647 {
        i32::MAX
    } else {
        rounded as i32
    };
    Size::new(if width > 200 {
        width
    } else {
        200
    }, 180)
}

/// A monitor as the panel lists it: named by its device, labelled with the
/// device and the work area's size, the work area from its edges.
pub fn monitor_from_edges(device: String, left: i32, top: i32, right: i32, bottom: i32, primary: bool) -> (r:
    crate::model::MonitorInfo)
    ensures
        r.id@ == device@,
        r.label@ == device@ + " ("@ + crate::text::signed_decimal(crate::model::clamp_i32(right - left))
            + "×"@ + crate::text::signed_decimal(crate::model::clamp_i32(bottom - top)) + ")"@,
        r.work_area == (Rect {
            left,
            top,
            width: crate::model::clamp_i32(right - left) as i32,
            height: crate::model::clamp_i32(bottom - top) as i32,
        }),
        r.primary == primary,
{
    let width = crate::model::saturating_sub_i32(right, left);
    let height = crate::model::saturating_sub_i32(bottom, top);
    let mut label = device.clone();
    push_str(&mut label, " (");
    let w = crate::text::signed_decimal_string(width);
    push_str(&mut label, w.as_str());
    push_str(&mut label, "×");
    let h = crate::text::signed_decimal_string(height);
    push_str(&mut label, h.as_str());
    push_str(&mut label, ")");
    crate::model::MonitorInfo { id: device, label, work_area: Rect::new(left, top, width, height), primary }
}

/// The sort key of a window on the desktop: top edge, then left edge, then id.
pub open spec fn desktop_key(c: WindowCandidate) -> u128 {
    (((c.rect.top as int + 2147483648) * 4294967296 + (c.rect.left as int + 2147483648))
        * 18446744073709551616 + c.id.0 as int) as u128
}

/// Windows listed from top to bottom, then left to right, then by id.
pub open spec fn desktop_before(a: WindowCandidate, b: WindowCandidate) -> bool {
    a.rect.top < b.rect.top || (a.rect.top == b.rect.top && (a.rect.left < b.rect.left || (
    a.rect.left == b.rect.left && a.id.0 <= b.id.0)))
}

proof fn lemma_desktop_key_order(a: WindowCandidate, b: WindowCandidate)
    ensures
        desktop_key(a) <= desktop_key(b) <==> desktop_before(a, b),
{
    let ta = a.rect.top as int + 2147483648;
    let tb = b.rect.top as int + 2147483648;
    let la = a.rect.left as int + 2147483648;
    let lb = b.rect.left as int + 2147483648;
    let ia = a.id.0 as int;
    let ib = b.id.0 as int;
    assert(0 <= ta < 4294967296 && 0 <= tb < 4294967296);
    assert(0 <= la < 4294967296 && 0 <= lb < 4294967296);
    assert(0 <= ia < 18446744073709551616 && 0 <= ib < 18446744073709551616);
    assert((ta * 4294967296 + la) * 18446744073709551616 + ia < 340282366920938463463374607431768211456) by (nonlinear_arith)
        requires
            0 <= ta < 4294967296,
            0 <= la < 4294967296,
            0 <= ia < 18446744073709551616,
    ;
    assert((tb * 4294967296 + lb) * 18446744073709551616 + ib < 340282366920938463463374607431768211456) by (nonlinear_arith)
        requires
            0 <= tb < 4294967296,
            0 <= lb < 4294967296,
            0 <= ib < 18446744073709551616,
    ;
    assert(0 <= (ta * 4294967296 + la) * 18446744073709551616 + ia) by (nonlinear_arith)
        requires
            0 <= ta,
            0 <= la,
            0 <= ia,
    ;
    assert(0 <= (tb * 4294967296 + lb) * 18446744073709551616 + ib) by (nonlinear_arith)
        requires
            0 <= tb,
            0 <= lb,
            0 <= ib,
    ;
}

fn desktop_key_of(c: &WindowCandidate) -> (r: u128)
    ensures
        r == desktop_key(*c),
{
    let top: u128 = (c.rect.top as i64 + 2147483648) as u128;
    let left: u128 = (c.rect.left as i64 + 2147483648) as u128;
    assert((top * 4294967296 + left) * 18446744073709551616 + c.id.0 as u128 <= 340282366920938463463374607431768211455) by (nonlinear_arith)
        requires
            top < 4294967296,
            left < 4294967296,
    ;
    (top * 4294967296 + left) * 18446744073709551616 + c.id.0 as u128
}

/// The windows in desktop order: top to bottom, then left to right, then by id.
pub fn desktop_order(candidates: &Vec<WindowCandidate>) -> (r: Vec<WindowCandidate>)
    ensures
        crate::controller::stably_reordered(candidates@, r@, candidates@.map_values(|c: WindowCandidate| desktop_key(c))),
        r@.len() == candidates@.len(),
        forall|i: int, j: int| 0 <= i < j < r@.len() ==> desktop_before(r@[i], r@[j]),
{
    let ghost target = candidates@.map_values(|c: WindowCandidate| desktop_key(c));
    let mut keys: Vec<u128> = Vec::new();
    let mut index: usize = 0;
    while index < candidates.len()
        invariant
            index <= candidates.len(),
            target == candidates@.map_values(|c: WindowCandidate| desktop_key(c)),
            keys@ == target.subrange(0, index as int),
        decreases candidates.len() - index,
    {
        keys.push(desktop_key_of(&candidates[index]));
        index += 1;
        assert(keys@ =~= target.subrange(0, index as int));
    }
    assert(keys@ =~= target);
    let order = crate::ordering::stable_order(&keys);
    assert forall|a: WindowCandidate, b: WindowCandidate| vstd::pervasive::strictly_cloned(a, b) implies a == b by {}
    let sorted = crate::ordering::permuted(candidates, &order);
    assert(crate::ordering::is_permutation(order@, candidates@.len() as int) && crate::ordering::stably_sorted(target, order@)
        && sorted@ == crate::ordering::arranged(candidates@, order@));
    assert forall|i: int, j: int| 0 <= i < j < sorted@.len() implies desktop_before(sorted@[i], sorted@[j]) by {
        assert(crate::ordering::before(target, order@[i] as int, order@[j] as int));
        lemma_desktop_key_order(sorted@[i], sorted@[j]);
    }
    sorted
}

/// The sort key of a monitor: primary first, then by left edge, then by top edge.
pub open spec fn monitor_key(m: crate::model::MonitorInfo) -> u128 {
    ((if m.primary { 0int } else { 1int }) * 18446744073709551616 + (m.work_area.left as int + 2147483648) * 4294967296
        + (m.work_area.top as int + 2147483648)) as u128
}

fn monitor_key_of(m: &crate::model::MonitorInfo) -> (r: u128)
    ensures
        r == monitor_key(*m),
{
    let tag: u128 = if m.primary {
        0
    } else {
        1
    };
    let left: u128 = (m.work_area.left as i64 + 2147483648) as u128;
    let top: u128 = (m.work_area.top as i64 + 2147483648) as u128;
    tag * 18446744073709551616 + left * 4294967296 + top
}

/// The monitors with the primary one first, then from left to right and top to bottom.
pub fn monitor_order(monitors: &Vec<crate::model::MonitorInfo>) -> (r: Vec<crate::model::MonitorInfo>)
    ensures
        crate::controller::stably_reordered(monitors@, r@, monitors@.map_values(|m: crate::model::MonitorInfo| monitor_key(m))),
        r@.len() == monitors@.len(),
{
    let ghost target = monitors@.map_values(|m: crate::model::MonitorInfo| monitor_key(m));
    let mut keys: Vec<u128> = Vec::new();
    let mut index: usize = 0;
    while index < monitors.len()
        invariant
            index <= monitors.len(),
            target == monitors@.map_values(|m: crate::model::MonitorInfo| monitor_key(m)),
            keys@ == target.subrange(0, index as int),
        decreases monitors.len() - index,
    {
        keys.push(monitor_key_of(&monitors[index]));
        index += 1;
        assert(keys@ =~= target.subrange(0, index as int));
    }
    assert(keys@ =~= target);
    let order = crate::ordering::stable_order(&keys);
    assert forall|a: crate::model::MonitorInfo, b: crate::model::MonitorInfo| vstd::pervasive::strictly_cloned(a, b) implies a == b by {}
    let sorted = crate::ordering::permuted(monitors, &order);
    assert(crate::ordering::is_permutation(order@, monitors@.len() as int) && crate::ordering::stably_sorted(target, order@)
        && sorted@ == crate::ordering::arranged(monitors@, order@));
    sorted
}

} // verus!
