//! The RnG overlay's rules: its saved settings and how they are read and
//! written, where the overlay sits, the 1–100 number it shows, its countdown,
//! and what each entry of its menu changes.
use crate::text::{decimal, decimal_string, digit_char, push_str, signed_decimal, signed_decimal_string};
use vstd::prelude::*;

verus! {

/// The overlay's saved choices.
#[derive(Clone, Copy, Debug, PartialEq, Eq, Structural)]
pub struct OverlaySettings {
    /// Seconds between two numbers.
    pub interval_seconds: i32,
    /// The number's colour as `0x00BBGGRR`.
    pub color: u32,
    /// The number's height in pixels.
    pub font_size: i32,
    /// 0 top left, 1 top right, 2 bottom left, 3 bottom right.
    pub corner: u32,
}

impl Default for OverlaySettings {
    fn default() -> (r: OverlaySettings)
        ensures
            r == (OverlaySettings { interval_seconds: 60, color: 0x00D5FF, font_size: 150, corner: 1 }),
    {
        OverlaySettings { interval_seconds: 60, color: 0x00D5FF, font_size: 150, corner: 1 }
    }
}

/// Settings as they can be in force: interval from 1 s to a day, size from
/// 40 to 400 pixels, one of the four corners.
pub open spec fn settings_in_range(s: OverlaySettings) -> bool {
    1 <= s.interval_seconds <= 86400 && 40 <= s.font_size <= 400 && s.corner <= 3
}

/// A colour from its red, green and blue parts.
pub open spec fn rgb_value(red: u8, green: u8, blue: u8) -> u32 {
    (red as int + green as int * 256 + blue as int * 65536) as u32
}

pub fn rgb(red: u8, green: u8, blue: u8) -> (r: u32)
    ensures
        r == rgb_value(red, green, blue),
{
    red as u32 + (green as u32) * 256 + (blue as u32) * 65536
}

// ----- the number -----

/// One step of the xorshift generator.
pub open spec fn xorshift(state: u64) -> u64 {
    let a = state ^ (state << 13u64);
    let b = a ^ (a >> 7u64);
    b ^ (b << 17u64)
}

/// The next generator state and the number shown, from 1 to 100. A state
/// that was never seeded starts from `seed` mixed with a fixed constant.
pub open spec fn next_number(state: u64, seed: u64) -> (u64, u32) {
    let start = if state == 0 {
        seed ^ 0x9E37_79B9_7F4A_7C15u64
    } else {
        state
    };
    let next = xorshift(start);
    (next, ((next % 100) + 1) as u32)
}

/// Undoes `x ^ (x << 13)` on 64 bits.
pub open spec fn undo_left13(y: u64) -> u64 {
    y ^ (y << 13u64) ^ (y << 26u64) ^ (y << 39u64) ^ (y << 52u64)
}

/// Undoes `x ^ (x >> 7)` on 64 bits.
pub open spec fn undo_right7(y: u64) -> u64 {
    y ^ (y >> 7u64) ^ (y >> 14u64) ^ (y >> 21u64) ^ (y >> 28u64) ^ (y >> 35u64) ^ (y >> 42u64) ^ (y >> 49u64) ^ (
    y >> 56u64) ^ (y >> 63u64)
}

/// Undoes `x ^ (x << 17)` on 64 bits.
pub open spec fn undo_left17(y: u64) -> u64 {
    y ^ (y << 17u64) ^ (y << 34u64) ^ (y << 51u64)
}

proof fn lemma_undo_left13(y: u64)
    ensures
        undo_left13(y) ^ (undo_left13(y) << 13u64) == y,
{
    let x = undo_left13(y);
    assert(x == y ^ (y << 13u64) ^ (y << 26u64) ^ (y << 39u64) ^ (y << 52u64));
    assert(x ^ (x << 13u64) == y) by (bit_vector)
        requires
            x == y ^ (y << 13u64) ^ (y << 26u64) ^ (y << 39u64) ^ (y << 52u64),
    ;
}

proof fn lemma_undo_right7(y: u64)
    ensures
        undo_right7(y) ^ (undo_right7(y) >> 7u64) == y,
{
    let x = undo_right7(y);
    assert(x ^ (x >> 7u64) == y) by (bit_vector)
        requires
            x == y ^ (y >> 7u64) ^ (y >> 14u64) ^ (y >> 21u64) ^ (y >> 28u64) ^ (y >> 35u64) ^ (y >> 42u64) ^ (y
                >> 49u64) ^ (y >> 56u64) ^ (y >> 63u64),
    ;
}

proof fn lemma_undo_left17(y: u64)
    ensures
        undo_left17(y) ^ (undo_left17(y) << 17u64) == y,
{
    let x = undo_left17(y);
    assert(x ^ (x << 17u64) == y) by (bit_vector)
        requires
            x == y ^ (y << 17u64) ^ (y << 34u64) ^ (y << 51u64),
    ;
}

/// The number shown is the new generator state's last two decimal digits
/// plus one, so it lies between 1 and 100; a seeded generator goes on from
/// its own state, whatever the seed; an unseeded one starts as if its state
/// were the seed mixed with a fixed constant.
pub proof fn law_shown_number_follows_the_state(state: u64, seed: u64, other_seed: u64)
    ensures
        next_number(state, seed).1 == next_number(state, seed).0 % 100 + 1,
        1 <= next_number(state, seed).1 <= 100,
        state != 0 ==> next_number(state, seed) == next_number(state, other_seed),
        (seed ^ 0x9E37_79B9_7F4A_7C15u64) != 0 ==> next_number(0, seed) == next_number(
            seed ^ 0x9E37_79B9_7F4A_7C15u64,
            other_seed,
        ),
{
}

/// Every number from 1 to 100 can be shown: for each there is a generator
/// state whose next step shows it, whatever the seed.
pub proof fn law_every_number_can_be_shown(n: u32, seed: u64)
    requires
        1 <= n <= 100,
    ensures
        exists|state: u64| #[trigger] next_number(state, seed).1 == n,
{
    let target: u64 = (n + 99) as u64;
    let q = undo_left17(target);
    let p = undo_right7(q);
    let start = undo_left13(p);
    lemma_undo_left17(target);
    lemma_undo_right7(q);
    lemma_undo_left13(p);
    assert(xorshift(start) == target);
    if start == 0 {
        assert(xorshift(0u64) == 0u64) by (bit_vector);
    }
    assert(start != 0);
    assert(next_number(start, seed).0 == target);
    assert(next_number(start, seed).1 == n);
}

pub fn roll(state: u64, seed: u64) -> (r: (u64, u32))
    ensures
        r == next_number(state, seed),
        1 <= r.1 <= 100,
{
    let mut s = if state == 0 {
        seed ^ 0x9E37_79B9_7F4A_7C15u64
    } else {
        state
    };
    s = s ^ (s << 13u64);
    s = s ^ (s >> 7u64);
    s = s ^ (s << 17u64);
    (s, (s % 100) as u32 + 1)
}

/// The countdown after one second: the seconds left and whether a new number is due.
pub fn count_down(seconds_left: i32) -> (r: (i32, bool))
    requires
        seconds_left > i32::MIN,
    ensures
        r.0 == seconds_left - 1,
        r.1 == (seconds_left - 1 <= 0),
{
    let remaining = seconds_left - 1;
    (remaining, remaining <= 0)
}

// ----- size and place -----

/// A size change keeps the number between 40 and 400 pixels.
pub fn adjusted_font_size(current: i32, change: i32) -> (r: i32)
    ensures
        r == (if current + change < 40 { 40 } else if current + change > 400 { 400 } else { current + change }),
{
    let sum = current as i64 + change as i64;
    if sum < 40 {
        40
    } else if sum > 400 {
        400
    } else {
        sum as i32
    }
}

/// The mouse wheel grows the number by 5 pixels per notch away from the user
/// and shrinks it by 5 towards the user.
pub fn wheel_size_change(delta: i16) -> (r: i32)
    ensures
        r == (if delta > 0 { 5 } else if delta < 0 { -5 } else { 0 }),
{
    if delta > 0 {
        5
    } else if delta < 0 {
        -5
    } else {
        0
    }
}

/// The overlay window for a number of `font_size` pixels: two and a half
/// heights plus 32 wide (at least 140), one and a half plus 32 high (at least
/// 100), 24 pixels in from the chosen corner of the work area given by its edges.
pub open spec fn overlay_frame(left: int, top: int, right: int, bottom: int, font_size: int, corner: u32) -> (int, int, int, int) {
    let w = font_size * 5 / 2 + 32;
    let width = if w > 140 { w } else { 140 };
    let h = font_size * 3 / 2 + 32;
    let height = if h > 100 { h } else { 100 };
    let x = if corner == 0 || corner == 2 {
        left + 24
    } else {
        right - width - 24
    };
    let y = if corner == 0 || corner == 1 {
        top + 24
    } else {
        bottom - height - 24
    };
    (x, y, width, height)
}

pub fn overlay_placement(left: i32, top: i32, right: i32, bottom: i32, font_size: i32, corner: u32) -> (r: (i32, i32, i32, i32))
    requires
        40 <= font_size <= 400,
        left + 24 <= i32::MAX,
        top + 24 <= i32::MAX,
        right - 1056 >= i32::MIN,
        bottom - 656 >= i32::MIN,
    ensures
        (r.0 as int, r.1 as int, r.2 as int, r.3 as int) == overlay_frame(left as int, top as int, right as int, bottom as int, font_size as int, corner),
{
    let w = font_size * 5 / 2 + 32;
    let width = if w > 140 {
        w
    } else {
        140
    };
    let h = font_size * 3 / 2 + 32;
    let height = if h > 100 {
        h
    } else {
        100
    };
    let x = if corner == 0 || corner == 2 {
        left + 24
    } else {
        right - width - 24
    };
    let y = if corner == 0 || corner == 1 {
        top + 24
    } else {
        bottom - height - 24
    };
    (x, y, width, height)
}

// ----- the menu -----

/// What a menu choice asks of the overlay besides new settings.
#[derive(Clone, Copy, Debug, PartialEq, Eq, Structural)]
pub struct MenuEffect {
    /// Restart the countdown from the new interval.
    pub restart_countdown: bool,
    /// Write the settings.
    pub save: bool,
    /// Move and resize the overlay.
    pub relayout: bool,
    /// Draw the overlay again.
    pub redraw: bool,
    /// Turn the overlay off.
    pub close: bool,
}

/// The settings after menu entry `command`: intervals of 10 s, 30 s, 1, 5
/// and 10 minutes; six colours; size 10 pixels down or up or back to 150;
/// the four corners. Any other entry changes nothing.
pub open spec fn settings_after_menu(s: OverlaySettings, command: usize) -> OverlaySettings {
    if command == 110 {
        OverlaySettings { interval_seconds: 10, ..s }
    } else if command == 130 {
        OverlaySettings { interval_seconds: 30, ..s }
    } else if command == 160 {
        OverlaySettings { interval_seconds: 60, ..s }
    } else if command == 300 {
        OverlaySettings { interval_seconds: 300, ..s }
    } else if command == 600 {
        OverlaySettings { interval_seconds: 600, ..s }
    } else if command == 201 {
        OverlaySettings { color: rgb_value(255, 213, 0), ..s }
    } else if command == 202 {
        OverlaySettings { color: rgb_value(255, 255, 255), ..s }
    } else if command == 203 {
        OverlaySettings { color: rgb_value(255, 128, 0), ..s }
    } else if command == 204 {
        OverlaySettings { color: rgb_value(76, 235, 115), ..s }
    } else if command == 205 {
        OverlaySettings { color: rgb_value(74, 163, 255), ..s }
    } else if command == 206 {
        OverlaySettings { color: rgb_value(255, 91, 174), ..s }
    } else if command == 301 || command == 302 {
        let sum = s.font_size + if command == 301 { -10int } else { 10int };
        OverlaySettings { font_size: (if sum < 40 { 40 } else if sum > 400 { 400 } else { sum }) as i32, ..s }
    } else if command == 303 {
        OverlaySettings { font_size: 150, ..s }
    } else if 401 <= command <= 404 {
        OverlaySettings { corner: (command - 401) as u32, ..s }
    } else {
        s
    }
}

/// What a menu entry asks for: a new interval restarts the countdown; every
/// real entry but Off saves; size and corner entries relayout, the others
/// redraw; Off closes the overlay.
pub open spec fn effect_of_menu(command: usize) -> MenuEffect {
    let chosen = command != 0 && command != 900;
    let layout = (301 <= command <= 303) || (401 <= command <= 404);
    MenuEffect {
        restart_countdown: command == 110 || command == 130 || command == 160 || command == 300 || command == 600,
        save: chosen,
        relayout: layout,
        redraw: chosen && !layout,
        close: command == 900,
    }
}

pub fn apply_menu_command(settings: OverlaySettings, command: usize) -> (r: (OverlaySettings, MenuEffect))
    ensures
        r.0 == settings_after_menu(settings, command),
        r.1 == effect_of_menu(command),
        settings_in_range(settings) ==> settings_in_range(r.0),
{
    let mut s = settings;
    if command == 110 {
        s.interval_seconds = 10;
    } else if command == 130 {
        s.interval_seconds = 30;
    } else if command == 160 {
        s.interval_seconds = 60;
    } else if command == 300 {
        s.interval_seconds = 300;
    } else if command == 600 {
        s.interval_seconds = 600;
    } else if command == 201 {
        s.color = rgb(255, 213, 0);
    } else if command == 202 {
        s.color = rgb(255, 255, 255);
    } else if command == 203 {
        s.color = rgb(255, 128, 0);
    } else if command == 204 {
        s.color = rgb(76, 235, 115);
    } else if command == 205 {
        s.color = rgb(74, 163, 255);
    } else if command == 206 {
        s.color = rgb(255, 91, 174);
    } else if command == 301 {
        s.font_size = adjusted_font_size(s.font_size, -10);
    } else if command == 302 {
        s.font_size = adjusted_font_size(s.font_size, 10);
    } else if command == 303 {
        s.font_size = 150;
    } else if 401 <= command && command <= 404 {
        s.corner = (command - 401) as u32;
    }
    let chosen = command != 0 && command != 900;
    let layout = (301 <= command && command <= 303) || (401 <= command && command <= 404);
    let effect = MenuEffect {
        restart_countdown: command == 110 || command == 130 || command == 160 || command == 300
            || command == 600,
        save: chosen,
        relayout: layout,
        redraw: chosen && !layout,
        close: command == 900,
    };
    (s, effect)
}

// ----- the settings file -----

/// The settings file: one `key=value` line per setting.
pub open spec fn settings_file(s: OverlaySettings) -> Seq<char> {
    "interval="@ + signed_decimal(s.interval_seconds as int) + "\ncolor="@ + decimal(s.color as nat)
        + "\nsize="@ + signed_decimal(s.font_size as int) + "\ncorner="@ + decimal(s.corner as nat)
        + "\n"@
}

pub fn settings_text(s: &OverlaySettings) -> (r: String)
    ensures
        r@ == settings_file(*s),
{
    let mut text = String::new();
    push_str(&mut text, "interval=");
    let interval = signed_decimal_string(s.interval_seconds);
    push_str(&mut text, interval.as_str());
    push_str(&mut text, "\ncolor=");
    let color = decimal_string(s.color as usize);
    push_str(&mut text, color.as_str());
    push_str(&mut text, "\nsize=");
    let size = signed_decimal_string(s.font_size);
    push_str(&mut text, size.as_str());
    push_str(&mut text, "\ncorner=");
    let corner = decimal_string(s.corner as usize);
    push_str(&mut text, corner.as_str());
    push_str(&mut text, "\n");
    assert(text@ =~= settings_file(*s));
    text
}

pub open spec fn is_digit(c: char) -> bool {
    '0' <= c && c <= '9'
}

/// The value of a run of decimal digits.
pub open spec fn digits_value(digits: Seq<char>) -> int
    decreases digits.len(),
{
    if digits.len() == 0 {
        0
    } else {
        digits_value(digits.drop_last()) * 10 + (digits.last() as int - 48)
    }
}

/// Whether every character of `s` is a decimal digit.
pub open spec fn all_digits(s: Seq<char>) -> bool {
    forall|k: int| 0 <= k < s.len() ==> is_digit(#[trigger] s[k])
}

/// Whether `text` starts with a sign that a number may carry: a plus, or a
/// minus when `signed`.
pub open spec fn has_sign(text: Seq<char>, signed: bool) -> bool {
    text.len() > 0 && (text[0] == '+' || (signed && text[0] == '-'))
}

/// What follows the sign, if there is one.
pub open spec fn unsigned_part(text: Seq<char>, signed: bool) -> Seq<char> {
    if has_sign(text, signed) {
        text.subrange(1, text.len() as int)
    } else {
        text
    }
}

/// A whole number as Rust reads it: an optional sign (a minus only when
/// `signed`), then one or more decimal digits.
pub open spec fn read_number(text: Seq<char>, signed: bool) -> Option<int> {
    let digits = unsigned_part(text, signed);
    if digits.len() > 0 && all_digits(digits) {
        Some(if has_sign(text, signed) && text[0] == '-' {
            -digits_value(digits)
        } else {
            digits_value(digits)
        })
    } else {
        None
    }
}

proof fn lemma_digits_value_grows(digits: Seq<char>)
    requires
        forall|k: int| 0 <= k < digits.len() ==> is_digit(#[trigger] digits[k]),
    ensures
        digits_value(digits) >= 0,
        forall|n: int| 0 <= n <= digits.len() ==> digits_value(#[trigger] digits.subrange(0, n)) <= digits_value(digits),
    decreases digits.len(),
{
    if digits.len() > 0 {
        let init = digits.drop_last();
        assert forall|k: int| 0 <= k < init.len() implies is_digit(#[trigger] init[k]) by {
            assert(init[k] == digits[k]);
        }
        lemma_digits_value_grows(init);
        assert forall|n: int| 0 <= n <= digits.len() implies digits_value(#[trigger] digits.subrange(0, n)) <= digits_value(digits) by {
            if n < digits.len() {
                assert(digits.subrange(0, n) =~= init.subrange(0, n));
            } else {
                assert(digits.subrange(0, n) =~= digits);
            }
        }
    }
}

/// Reads a whole number from `text[start..end]`; `None` when it is no number
/// or its magnitude exceeds `limit`.
fn read_bounded(text: &Vec<char>, start: usize, end: usize, signed: bool, limit: u64) -> (r: Option<(bool, u64)>)
    requires
        start <= end <= text@.len(),
        limit <= 4294967296,
    ensures
        ({
            let number = read_number(text@.subrange(start as int, end as int), signed);
            match r {
                Some((negative, magnitude)) => number == Some(if negative { -(magnitude as int) } else { magnitude as int })
                    && magnitude <= limit,
                None => number is None || (number matches Some(v) && (v > limit || -v > limit)),
            }
        }),
        read_number(text@.subrange(start as int, end as int), signed) matches Some(v) ==> (signed || v >= 0),
{
    let ghost slice = text@.subrange(start as int, end as int);
    assert(start < end ==> slice[0] == text@[start as int]);
    let mut index = start;
    let mut negative = false;
    if index < end && (text[index] == '+' || (signed && text[index] == '-')) {
        negative = text[index] == '-';
        index += 1;
    }
    let ghost digits = text@.subrange(index as int, end as int);
    assert(digits =~= (if index > start { slice.subrange(1, slice.len() as int) } else { slice }));
    if index >= end {
        return None;
    }
    let digit_start = index;
    let mut value: u64 = 0;
    let mut over = false;
    while index < end
        invariant
            digit_start <= index <= end <= text@.len(),
            digit_start < end,
            start <= digit_start,
            digits == text@.subrange(digit_start as int, end as int),
            slice == text@.subrange(start as int, end as int),
            digits == (if digit_start > start { slice.subrange(1, slice.len() as int) } else { slice }),
            (digit_start > start) == has_sign(slice, signed),
            limit <= 4294967296,
            forall|k: int| digit_start <= k < index ==> is_digit(#[trigger] text@[k]),
            !over ==> value as int == digits_value(text@.subrange(digit_start as int, index as int)) && value <= limit,
            over ==> digits_value(text@.subrange(digit_start as int, index as int)) > limit,
        decreases end - index,
    {
        let c = text[index];
        if !('0' <= c && c <= '9') {
            proof {
                assert(digits[index - digit_start] == c);
                assert(unsigned_part(slice, signed)[index - digit_start] == c);
            }
            return None;
        }
        let ghost before = text@.subrange(digit_start as int, index as int);
        assert(text@.subrange(digit_start as int, index + 1).drop_last() =~= before);
        assert(text@.subrange(digit_start as int, index + 1).last() == c);
        if !over {
            let next = value * 10 + ((c as u32) - 48) as u64;
            if next > limit {
                over = true;
            } else {
                value = next;
            }
        } else {
            proof {
                lemma_digits_value_grows(text@.subrange(digit_start as int, index + 1));
                assert(text@.subrange(digit_start as int, index + 1).subrange(0, index - digit_start) =~= before);
            }
        }
        index += 1;
    }
    proof {
        assert forall|k: int| 0 <= k < digits.len() implies is_digit(#[trigger] digits[k]) by {
            assert(digits[k] == text@[digit_start + k]);
        }
        assert(all_digits(digits));
        lemma_digits_value_grows(digits);
    }
    if over {
        None
    } else {
        Some((negative, value))
    }
}

/// A setting after one line of the file: `interval`, `size` and `corner`
/// are kept in range; lines without `=`, unknown keys and values that are
/// no number leave the settings as they were.
pub open spec fn apply_line(s: OverlaySettings, line: Seq<char>) -> OverlaySettings {
    let eq = crate::tracking::first_where(line, is_equals());
    if eq >= line.len() {
        s
    } else {
        let key = line.subrange(0, eq);
        let value = line.subrange(eq + 1, line.len() as int);
        if key == "interval"@ {
            match read_number(value, true) {
                Some(v) => if i32::MIN <= v <= i32::MAX {
                    OverlaySettings { interval_seconds: (if v < 1 { 1 } else if v > 86400 { 86400 } else { v }) as i32, ..s }
                } else {
                    s
                },
                None => s,
            }
        } else if key == "color"@ {
            match read_number(value, false) {
                Some(v) => if v <= u32::MAX {
                    OverlaySettings { color: v as u32, ..s }
                } else {
                    s
                },
                None => s,
            }
        } else if key == "size"@ {
            match read_number(value, true) {
                Some(v) => if i32::MIN <= v <= i32::MAX {
                    OverlaySettings { font_size: (if v < 40 { 40 } else if v > 400 { 400 } else { v }) as i32, ..s }
                } else {
                    s
                },
                None => s,
            }
        } else if key == "corner"@ {
            match read_number(value, false) {
                Some(v) => if v <= u32::MAX {
                    OverlaySettings { corner: (if v > 3 { 3 } else { v }) as u32, ..s }
                } else {
                    s
                },
                None => s,
            }
        } else {
            s
        }
    }
}

pub open spec fn is_equals() -> spec_fn(char) -> bool {
    |c: char| c == '='
}

pub open spec fn is_newline() -> spec_fn(char) -> bool {
    |c: char| c == '\n'
}

/// The settings after reading `text` line by line (a line ends at `\n`, and
/// a `\r` before it is dropped).
pub open spec fn settings_from(s: OverlaySettings, text: Seq<char>) -> OverlaySettings
    decreases text.len(),
{
    if text.len() == 0 {
        s
    } else {
        let k = crate::tracking::first_where(text, is_newline());
        if k >= text.len() || k < 0 {
            apply_line(s, text)
        } else {
            let raw = text.subrange(0, k);
            let line = if raw.len() > 0 && raw.last() == '\r' {
                raw.drop_last()
            } else {
                raw
            };
            settings_from(apply_line(s, line), text.subrange(k + 1, text.len() as int))
        }
    }
}

/// A number read without a sign is not negative.
proof fn lemma_unsigned_number(text: Seq<char>)
    ensures
        read_number(text, false) matches Some(v) ==> v >= 0,
{
    let digits = unsigned_part(text, false);
    if digits.len() > 0 && all_digits(digits) {
        lemma_digits_value_grows(digits);
    }
}

/// One line of the settings file keeps settings that were in range in range.
proof fn lemma_line_stays_in_range(s: OverlaySettings, line: Seq<char>)
    requires
        settings_in_range(s),
    ensures
        settings_in_range(apply_line(s, line)),
{
    let eq = crate::tracking::first_where(line, is_equals());
    if eq < line.len() {
        lemma_unsigned_number(line.subrange(eq + 1, line.len() as int));
    }
}

/// Reading a settings file keeps settings that were in range in range.
proof fn lemma_read_settings_stay_in_range(s: OverlaySettings, text: Seq<char>)
    requires
        settings_in_range(s),
    ensures
        settings_in_range(settings_from(s, text)),
    decreases text.len(),
{
    if text.len() > 0 {
        let k = crate::tracking::first_where(text, is_newline());
        if !(k >= text.len() || k < 0) {
            let raw = text.subrange(0, k);
            let line = if raw.len() > 0 && raw.last() == '\r' {
                raw.drop_last()
            } else {
                raw
            };
            lemma_line_stays_in_range(s, line);
            lemma_read_settings_stay_in_range(apply_line(s, line), text.subrange(k + 1, text.len() as int));
        } else {
            lemma_line_stays_in_range(s, text);
        }
    }
}

fn same_key(text: &Vec<char>, start: usize, end: usize, key: &str) -> (r: bool)
    requires
        start <= end <= text@.len(),
    ensures
        r == (text@.subrange(start as int, end as int) == key@),
{
    let wanted = crate::text::chars_of(key);
    if end - start != wanted.len() {
        return false;
    }
    let mut k: usize = 0;
    while k < wanted.len()
        invariant
            k <= wanted.len(),
            end - start == wanted.len(),
            start <= end <= text@.len(),
            wanted@ == key@,
            forall|j: int| 0 <= j < k ==> text@[start + j] == wanted@[j],
        decreases wanted.len() - k,
    {
        if text[start + k] != wanted[k] {
            return false;
        }
        k += 1;
    }
    assert(text@.subrange(start as int, end as int) =~= key@);
    true
}

fn apply_setting_line(s: OverlaySettings, text: &Vec<char>, start: usize, end: usize) -> (r: OverlaySettings)
    requires
        start <= end <= text@.len(),
    ensures
        r == apply_line(s, text@.subrange(start as int, end as int)),
{
    let ghost line = text@.subrange(start as int, end as int);
    let mut eq = start;
    while eq < end && text[eq] != '='
        invariant
            start <= eq <= end <= text@.len(),
            forall|k: int| start <= k < eq ==> text@[k] != '=',
        decreases end - eq,
    {
        eq += 1;
    }
    proof {
        assert forall|k: int| 0 <= k < eq - start implies !is_equals()(#[trigger] line[k]) by {
            assert(line[k] == text@[start + k]);
        }
        if eq < end {
            assert(line[eq - start] == text@[eq as int]);
        }
        crate::tracking::lemma_first_where(line, is_equals(), (eq - start) as int);
    }
    if eq >= end {
        return s;
    }
    let ghost key = line.subrange(0, (eq - start) as int);
    let ghost value = line.subrange((eq - start) + 1, line.len() as int);
    assert(key =~= text@.subrange(start as int, eq as int));
    assert(value =~= text@.subrange(eq + 1, end as int));
    let mut out = s;
    if same_key(text, start, eq, "interval") {
        if let Some((negative, magnitude)) = read_bounded(text, eq + 1, end, true, 2147483648) {
            if !(magnitude == 2147483648 && !negative) {
                let v: i64 = if negative {
                    -(magnitude as i64)
                } else {
                    magnitude as i64
                };
                out.interval_seconds = if v < 1 {
                    1
                } else if v > 86400 {
                    86400
                } else {
                    v as i32
                };
            }
        }
    } else if same_key(text, start, eq, "color") {
        if let Some((_, magnitude)) = read_bounded(text, eq + 1, end, false, 4294967295) {
            out.color = magnitude as u32;
        }
    } else if same_key(text, start, eq, "size") {
        if let Some((negative, magnitude)) = read_bounded(text, eq + 1, end, true, 2147483648) {
            if !(magnitude == 2147483648 && !negative) {
                let v: i64 = if negative {
                    -(magnitude as i64)
                } else {
                    magnitude as i64
                };
                out.font_size = if v < 40 {
                    40
                } else if v > 400 {
                    400
                } else {
                    v as i32
                };
            }
        }
    } else if same_key(text, start, eq, "corner") {
        if let Some((_, magnitude)) = read_bounded(text, eq + 1, end, false, 4294967295) {
            out.corner = if magnitude > 3 {
                3
            } else {
                magnitude as u32
            };
        }
    }
    out
}

/// The settings after reading the settings file `text` over `s`.
pub fn parse_settings(s: OverlaySettings, text: &str) -> (r: OverlaySettings)
    ensures
        r == settings_from(s, text@),
        settings_in_range(s) ==> settings_in_range(r),
{
    proof {
        if settings_in_range(s) {
            lemma_read_settings_stay_in_range(s, text@);
        }
    }
    let chars = crate::text::chars_of(text);
    let ghost whole = text@;
    let mut current = s;
    let mut start: usize = 0;
    assert(whole.subrange(0, whole.len() as int) =~= whole);
    while start < chars.len()
        invariant
            chars@ == whole,
            start <= chars.len(),
            settings_from(current, whole.subrange(start as int, whole.len() as int)) == settings_from(s, whole),
        decreases chars.len() - start,
    {
        let ghost rest = whole.subrange(start as int, whole.len() as int);
        let mut end = start;
        while end < chars.len() && chars[end] != '\n'
            invariant
                chars@ == whole,
                start <= end <= chars.len(),
                forall|k: int| start <= k < end ==> whole[k] != '\n',
            decreases chars.len() - end,
        {
            end += 1;
        }
        proof {
            assert forall|k: int| 0 <= k < end - start implies !is_newline()(#[trigger] rest[k]) by {
                assert(rest[k] == whole[start + k]);
            }
            if end < chars.len() {
                assert(rest[end - start] == whole[end as int]);
            }
            crate::tracking::lemma_first_where(rest, is_newline(), (end - start) as int);
        }
        if end >= chars.len() {
            assert(rest =~= whole.subrange(start as int, end as int));
            current = apply_setting_line(current, &chars, start, end);
            start = chars.len();
            assert(whole.subrange(start as int, whole.len() as int) =~= Seq::<char>::empty());
        } else {
            let line_end = if end > start && chars[end - 1] == '\r' {
                end - 1
            } else {
                end
            };
            let ghost raw = rest.subrange(0, (end - start) as int);
            assert(raw =~= whole.subrange(start as int, end as int));
            assert(line_end < end ==> raw.drop_last() =~= whole.subrange(start as int, line_end as int));
            current = apply_setting_line(current, &chars, start, line_end);
            assert(rest.subrange((end - start) + 1, rest.len() as int) =~= whole.subrange(end + 1, whole.len() as int));
            start = end + 1;
        }
    }
    current
}


// ----- the settings file reads back -----

proof fn lemma_decimal_reads_back(n: nat)
    ensures
        decimal(n).len() > 0,
        all_digits(decimal(n)),
        digits_value(decimal(n)) == n,
    decreases n,
{
    let d = (n % 10) as int;
    assert(digit_char(d) as int == d + 48);
    if n >= 10 {
        lemma_decimal_reads_back(n / 10);
        let init = decimal(n / 10);
        let t = init.push(digit_char(d));
        assert(t.drop_last() =~= init);
        assert forall|k: int| 0 <= k < t.len() implies is_digit(#[trigger] t[k]) by {
            if k < init.len() {
                assert(t[k] == init[k]);
            }
        }
        assert(t.last() == digit_char(d));
        assert(digits_value(t) == digits_value(init) * 10 + d);
        assert((n / 10) as int * 10 + d == n);
    } else {
        let t = seq![digit_char(d)];
        assert(t.drop_last() =~= Seq::<char>::empty());
        assert(t.last() == digit_char(d));
        assert(digits_value(Seq::<char>::empty()) == 0);
        assert(digits_value(t) == digits_value(t.drop_last()) * 10 + (t.last() as int - 48));
        assert(d == n);
    }
}

/// Every character of `text` is a digit, so none is a line break, a
/// carriage return, an equals sign or a sign.
proof fn lemma_digits_are_plain(text: Seq<char>)
    requires
        all_digits(text),
    ensures
        forall|k: int| 0 <= k < text.len() ==> #[trigger] text[k] != '\n' && text[k] != '\r' && text[k] != '='
            && text[k] != '+' && text[k] != '-',
{
    assert forall|k: int| 0 <= k < text.len() implies #[trigger] text[k] != '\n' && text[k] != '\r' && text[k] != '='
        && text[k] != '+' && text[k] != '-' by {
        assert(is_digit(text[k]));
    }
}

/// A number written in decimal reads back as that number.
proof fn lemma_unsigned_reads_back(n: nat)
    ensures
        read_number(decimal(n), false) == Some(n as int),
        decimal(n).len() > 0,
        forall|k: int| 0 <= k < decimal(n).len() ==> #[trigger] decimal(n)[k] != '\n' && decimal(n)[k] != '\r'
            && decimal(n)[k] != '=',
{
    lemma_decimal_reads_back(n);
    lemma_digits_are_plain(decimal(n));
    assert(!has_sign(decimal(n), false));
}

/// A whole number written with its sign reads back as that number.
proof fn lemma_signed_reads_back(v: int)
    ensures
        read_number(signed_decimal(v), true) == Some(v),
        signed_decimal(v).len() > 0,
        signed_decimal(v).last() != '\r',
        forall|k: int| 0 <= k < signed_decimal(v).len() ==> #[trigger] signed_decimal(v)[k] != '\n'
            && signed_decimal(v)[k] != '=',
{
    if v < 0 {
        let m = (-v) as nat;
        lemma_decimal_reads_back(m);
        lemma_digits_are_plain(decimal(m));
        let text = seq!['-'] + decimal(m);
        assert(has_sign(text, true));
        assert(unsigned_part(text, true) =~= decimal(m));
        assert(text.last() == decimal(m).last());
        assert forall|k: int| 0 <= k < text.len() implies #[trigger] text[k] != '\n' && text[k] != '=' by {
            if k > 0 {
                assert(text[k] == decimal(m)[k - 1]);
            }
        }
    } else {
        lemma_decimal_reads_back(v as nat);
        lemma_digits_are_plain(decimal(v as nat));
        assert(!has_sign(decimal(v as nat), true));
    }
}

/// A line without a line break, followed by one, is read on its own and the
/// rest of the file after it.
proof fn lemma_line_step(st: OverlaySettings, line: Seq<char>, rest: Seq<char>)
    requires
        line.len() > 0,
        line.last() != '\r',
        forall|k: int| 0 <= k < line.len() ==> #[trigger] line[k] != '\n',
    ensures
        settings_from(st, line + "\n"@ + rest) == settings_from(apply_line(st, line), rest),
{
    reveal_strlit("\n");
    let text = line + "\n"@ + rest;
    assert forall|k: int| 0 <= k < line.len() implies !is_newline()(#[trigger] text[k]) by {
        assert(text[k] == line[k]);
    }
    assert(text[line.len() as int] == '\n');
    crate::tracking::lemma_first_where(text, is_newline(), line.len() as int);
    assert(text.subrange(0, line.len() as int) =~= line);
    assert(text.subrange(line.len() as int + 1, text.len() as int) =~= rest);
}

/// In `key=value`, with no equals sign in the key, the key and the value are found.
proof fn lemma_key_value(key: Seq<char>, value: Seq<char>)
    requires
        forall|k: int| 0 <= k < key.len() ==> #[trigger] key[k] != '=' && key[k] != '\n',
        forall|k: int| 0 <= k < value.len() ==> #[trigger] value[k] != '\n',
    ensures
        ({
            let line = key + "="@ + value;
            &&& crate::tracking::first_where(line, is_equals()) == key.len()
            &&& line.subrange(0, key.len() as int) == key
            &&& line.subrange(key.len() as int + 1, line.len() as int) == value
            &&& line.len() > 0
            &&& (value.len() > 0 ==> line.last() == value.last())
            &&& forall|k: int| 0 <= k < line.len() ==> #[trigger] line[k] != '\n'
        }),
{
    reveal_strlit("=");
    let line = key + "="@ + value;
    assert forall|k: int| 0 <= k < key.len() implies !is_equals()(#[trigger] line[k]) by {
        assert(line[k] == key[k]);
    }
    assert(line[key.len() as int] == '=');
    crate::tracking::lemma_first_where(line, is_equals(), key.len() as int);
    assert(line.subrange(0, key.len() as int) =~= key);
    assert(line.subrange(key.len() as int + 1, line.len() as int) =~= value);
    assert forall|k: int| 0 <= k < line.len() implies #[trigger] line[k] != '\n' by {
        if k < key.len() {
            assert(line[k] == key[k]);
        } else if k > key.len() {
            assert(line[k] == value[k - key.len() - 1]);
        }
    }
}

/// What the overlay writes it reads back: reading the settings file written
/// for settings in force gives exactly those settings, whatever was read
/// before, so the overlay's choices persist from one start to the next.
pub proof fn law_settings_file_reads_back(base: OverlaySettings, s: OverlaySettings)
    requires
        settings_in_range(s),
    ensures
        settings_from(base, settings_file(s)) == s,
{
    reveal_strlit("interval=");
    reveal_strlit("\ncolor=");
    reveal_strlit("\nsize=");
    reveal_strlit("\ncorner=");
    reveal_strlit("\n");
    reveal_strlit("=");
    reveal_strlit("interval");
    reveal_strlit("color");
    reveal_strlit("size");
    reveal_strlit("corner");
    let si = signed_decimal(s.interval_seconds as int);
    let c = decimal(s.color as nat);
    let sz = signed_decimal(s.font_size as int);
    let co = decimal(s.corner as nat);
    lemma_signed_reads_back(s.interval_seconds as int);
    lemma_unsigned_reads_back(s.color as nat);
    lemma_signed_reads_back(s.font_size as int);
    lemma_unsigned_reads_back(s.corner as nat);
    let l1 = "interval"@ + "="@ + si;
    let l2 = "color"@ + "="@ + c;
    let l3 = "size"@ + "="@ + sz;
    let l4 = "corner"@ + "="@ + co;
    let r4 = l4 + "\n"@ + Seq::<char>::empty();
    let r3 = l3 + "\n"@ + r4;
    let r2 = l2 + "\n"@ + r3;
    assert(settings_file(s) =~= l1 + "\n"@ + r2);
    lemma_key_value("interval"@, si);
    lemma_key_value("color"@, c);
    lemma_key_value("size"@, sz);
    lemma_key_value("corner"@, co);
    let s1 = OverlaySettings { interval_seconds: s.interval_seconds, ..base };
    assert(apply_line(base, l1) == s1);
    lemma_line_step(base, l1, r2);
    let s2 = OverlaySettings { color: s.color, ..s1 };
    assert("color"@ != "interval"@);
    assert(apply_line(s1, l2) == s2);
    lemma_line_step(s1, l2, r3);
    let s3 = OverlaySettings { font_size: s.font_size, ..s2 };
    assert("size"@ != "interval"@ && "size"@ != "color"@);
    assert(apply_line(s2, l3) == s3);
    lemma_line_step(s2, l3, r4);
    let s4 = OverlaySettings { corner: s.corner, ..s3 };
    assert("corner"@ != "interval"@ && "corner"@ != "color"@ && "corner"@ != "size"@);
    assert(apply_line(s3, l4) == s4);
    lemma_line_step(s3, l4, Seq::<char>::empty());
    assert(s4 == s);
}

} // verus!
