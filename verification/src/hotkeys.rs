//! Global shortcuts: what each one does and the canonical text the hotkey
//! parser is given.
use crate::config::HotkeySettings;
use global_hotkey::hotkey::{HotKey, HotKeyParseError};
use crate::text::{lower, trimmed, trim_chars, string_of, chars_of};
use crate::tracking::{first_where, lemma_first_where};
use vstd::prelude::*;

verus! {

/// What a global shortcut does.
#[derive(Clone, Copy, Debug, PartialEq, Eq, Structural)]
pub enum HotkeyAction {
    ArrangeNow,
    TogglePanel,
    LocateClubGgLobbies,
}

/// One key or modifier of a shortcut: trimmed, lower case, `ctrl` spelled
/// `control`.
pub open spec fn canonical_part(part: Seq<char>) -> Seq<char> {
    let key = lower(trimmed(part));
    if key == "ctrl"@ {
        "control"@
    } else {
        key
    }
}

pub open spec fn is_plus() -> spec_fn(char) -> bool {
    |c: char| c == '+'
}

/// A shortcut with each `+`-separated part made canonical, joined by `+`.
pub open spec fn canonical_shortcut(shortcut: Seq<char>) -> Seq<char>
    decreases shortcut.len(),
{
    let k = first_where(shortcut, is_plus());
    if k >= shortcut.len() || k < 0 {
        canonical_part(shortcut)
    } else {
        canonical_part(shortcut.subrange(0, k)) + seq!['+'] + canonical_shortcut(
            shortcut.subrange(k + 1, shortcut.len() as int),
        )
    }
}

fn canonical_part_of(part: &Vec<char>) -> (r: Vec<char>)
    ensures
        r@ == canonical_part(part@),
{
    let trimmed_part = trim_chars(part);
    let mut key: Vec<char> = Vec::new();
    let mut index: usize = 0;
    while index < trimmed_part.len()
        invariant
            index <= trimmed_part.len(),
            trimmed_part@ == trimmed(part@),
            key@ == lower(trimmed(part@)).subrange(0, index as int),
        decreases trimmed_part.len() - index,
    {
        key.push(crate::text::ascii_lower_char(trimmed_part[index]));
        index += 1;
        assert(key@ =~= lower(trimmed(part@)).subrange(0, index as int));
    }
    assert(lower(trimmed(part@)).subrange(0, index as int) =~= lower(trimmed(part@)));
    let ctrl = chars_of("ctrl");
    if crate::text::same_chars(&key, &ctrl) {
        chars_of("control")
    } else {
        key
    }
}

/// The shortcut as the hotkey parser expects it: `Ctrl+Shift+F1` becomes
/// `control+shift+f1`.
pub fn canonicalize(shortcut: &str) -> (r: String)
    ensures
        r@ == canonical_shortcut(shortcut@),
{
    let chars = chars_of(shortcut);
    let ghost whole = shortcut@;
    let mut out: Vec<char> = Vec::new();
    let mut start: usize = 0;
    assert(whole.subrange(0, whole.len() as int) =~= whole);
    assert(out@ + canonical_shortcut(whole) =~= canonical_shortcut(whole));
    loop
        invariant_except_break
            chars@ == whole,
            start <= chars.len(),
            out@ + canonical_shortcut(whole.subrange(start as int, whole.len() as int)) == canonical_shortcut(whole),
        ensures
            out@ == canonical_shortcut(whole),
        decreases chars.len() - start,
    {
        let ghost rest = whole.subrange(start as int, whole.len() as int);
        let mut end = start;
        while end < chars.len() && chars[end] != '+'
            invariant
                chars@ == whole,
                start <= end <= chars.len(),
                forall|k: int| start <= k < end ==> whole[k] != '+',
            decreases chars.len() - end,
        {
            end += 1;
        }
        proof {
            assert forall|k: int| 0 <= k < end - start implies !is_plus()(#[trigger] rest[k]) by {
                assert(rest[k] == whole[start + k]);
            }
            if end < chars.len() {
                assert(rest[end - start] == whole[end as int]);
            }
            lemma_first_where(rest, is_plus(), (end - start) as int);
        }
        let mut part: Vec<char> = Vec::new();
        let mut k = start;
        while k < end
            invariant
                chars@ == whole,
                start <= k <= end <= chars.len(),
                part@ == whole.subrange(start as int, k as int),
            decreases end - k,
        {
            part.push(chars[k]);
            k += 1;
            assert(part@ =~= whole.subrange(start as int, k as int));
        }
        let canonical = canonical_part_of(&part);
        assert(part@ =~= rest.subrange(0, (end - start) as int));
        let ghost before = out@;
        let mut c: usize = 0;
        while c < canonical.len()
            invariant
                c <= canonical.len(),
                out@ == before + canonical@.subrange(0, c as int),
            decreases canonical.len() - c,
        {
            out.push(canonical[c]);
            c += 1;
            assert(out@ =~= before + canonical@.subrange(0, c as int));
        }
        assert(canonical@.subrange(0, c as int) =~= canonical@);
        if end >= chars.len() {
            assert(rest.subrange(0, (end - start) as int) =~= rest);
            assert(out@ =~= before + canonical_shortcut(rest));
            assert(out@ == canonical_shortcut(whole));
            break;
        }
        out.push('+');
        let ghost next = whole.subrange(end + 1, whole.len() as int);
        assert(rest.subrange((end - start) + 1, rest.len() as int) =~= next);
        assert(out@ + canonical_shortcut(next) =~= before + canonical_shortcut(rest));
        start = end + 1;
    }
    string_of(&out)
}

/// The shortcuts to register and what each does.
pub fn hotkey_requests(settings: &HotkeySettings) -> (r: Vec<(String, HotkeyAction)>)
    ensures
        r@.len() == 3,
        r@[0].0@ == settings.arrange_now@ && r@[0].1 == HotkeyAction::ArrangeNow,
        r@[1].0@ == settings.show_panel@ && r@[1].1 == HotkeyAction::TogglePanel,
        r@[2].0@ == settings.locate_clubgg_lobbies@ && r@[2].1 == HotkeyAction::LocateClubGgLobbies,
{
    let mut requests: Vec<(String, HotkeyAction)> = Vec::new();
    requests.push((settings.arrange_now.clone(), HotkeyAction::ArrangeNow));
    requests.push((settings.show_panel.clone(), HotkeyAction::TogglePanel));
    requests.push((settings.locate_clubgg_lobbies.clone(), HotkeyAction::LocateClubGgLobbies));
    requests
}


// ----- parsing shortcuts -----

#[verifier::external_type_specification]
#[verifier::external_body]
pub struct ExHotKey(HotKey);

#[verifier::external_type_specification]
#[verifier::external_body]
pub struct ExHotKeyParseError(HotKeyParseError);

/// What global-hotkey's parser makes of a shortcut's text: the hotkey, or
/// why the text is none.
pub uninterp spec fn parsed_shortcut(text: Seq<char>) -> Result<HotKey, HotKeyParseError>;

/// The text global-hotkey gives a parse error.
pub uninterp spec fn parse_error_text(error: HotKeyParseError) -> Seq<char>;

/// Parses `text` with global-hotkey's `HotKey::from_str`. The result is a
/// function of the text alone (the parser neither panics nor looks at
/// anything else); what it accepts is not restated here.
#[verifier::external_body]
fn parse_hotkey(text: &str) -> (r: Result<HotKey, HotKeyParseError>)
    ensures
        r == parsed_shortcut(text@),
{
    text.parse::<HotKey>()
}

/// The text of a parse error, as global-hotkey displays it (the error names
/// the text that failed and how); its wording is not restated here.
#[verifier::external_body]
fn parse_error_message(error: &HotKeyParseError) -> (r: String)
    ensures
        r@ == parse_error_text(*error),
{
    error.to_string()
}

/// A shortcut as the hotkey to register, or the message the panel shows
/// when it cannot be read: the shortcut, a colon and the parser's reason.
/// The canonical form of the shortcut is what is parsed.
pub fn parse_shortcut(shortcut: &str) -> (r: Result<HotKey, String>)
    ensures
        match parsed_shortcut(canonical_shortcut(shortcut@)) {
            Ok(hotkey) => r matches Ok(h) && h == hotkey,
            Err(error) => r matches Err(message) && message@ == shortcut@ + ": "@ + parse_error_text(error),
        },
{
    let canonical = canonicalize(shortcut);
    match parse_hotkey(canonical.as_str()) {
        Ok(hotkey) => Ok(hotkey),
        Err(error) => {
            let mut message = crate::text::owned(shortcut);
            crate::text::push_str(&mut message, ": ");
            let reason = parse_error_message(&error);
            crate::text::push_str(&mut message, reason.as_str());
            Err(message)
        },
    }
}

} // verus!
