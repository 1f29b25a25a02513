use clubgg_table_arranger::hotkeys::{canonicalize, hotkey_requests, parse_shortcut, HotkeyAction};
use global_hotkey::hotkey::{Code, HotKey, Modifiers};
use clubgg_table_arranger::config::HotkeySettings;
use clubgg_table_arranger::icon::{icon_rgba, rgba_from_bgra, rgba_pixel};
use clubgg_table_arranger::identity::{APP_ID, PANEL_TITLE, PRODUCT_NAME};
use clubgg_table_arranger::model::{AspectRatio, PokerClientKind, Rect, Size, WindowCandidate, WindowId};
use clubgg_table_arranger::recognition::{
    classify_window, desktop_order, estimated_minimum_size, is_clubgg_lobby_surface,
    is_generic_clubgg_surface, is_ldplayer_process, is_system_shell_window, monitor_from_edges,
    normalize_title_pattern, related_clubgg_processes, wide_text_length, ProcessRecord, RawWindow,
};
use clubgg_table_arranger::tray::{tray_menu_action, tray_menu_entries, TrayAction};

#[test]
fn ctrl_alias_is_canonicalized() {
    assert_eq!(canonicalize("Ctrl+Shift+F1"), "control+shift+f1");
}

#[test]
fn shortcut_parts_are_trimmed_and_kept_in_order() {
    assert_eq!(canonicalize(" ctrl + Alt+ K "), "control+alt+k");
    assert_eq!(canonicalize("CTRL"), "control");
    assert_eq!(canonicalize("Ctrl++X"), "control++x");
    assert_eq!(canonicalize(""), "");
}

#[test]
fn each_configured_shortcut_has_its_action() {
    let requests = hotkey_requests(&HotkeySettings::default());
    assert_eq!(requests.len(), 3);
    assert_eq!(requests[0], ("Ctrl+Shift+A".to_owned(), HotkeyAction::ArrangeNow));
    assert_eq!(requests[1], ("Ctrl+Shift+P".to_owned(), HotkeyAction::TogglePanel));
    assert_eq!(requests[2], ("Ctrl+Shift+G".to_owned(), HotkeyAction::LocateClubGgLobbies));
}

#[test]
fn outer_process_identity_does_not_look_like_a_poker_client() {
    for value in [APP_ID, PANEL_TITLE, PRODUCT_NAME] {
        assert!(!value.to_ascii_lowercase().contains("clubgg"));
    }
}

#[test]
fn icon_is_blue_with_a_spade_and_centered_white_plus() {
    assert_eq!(rgba_pixel(3, 3), [37, 99, 235, 255]);
    assert_eq!(rgba_pixel(15, 5), [15, 45, 95, 255]);
    assert_eq!(rgba_pixel(15, 15), [255, 255, 255, 255]);
    assert_eq!(rgba_pixel(10, 15), [255, 255, 255, 255]);
}

#[test]
fn icon_has_a_dark_border_and_is_laid_out_row_by_row() {
    assert_eq!(rgba_pixel(0, 0), [15, 23, 42, 255]);
    assert_eq!(rgba_pixel(31, 16), [15, 23, 42, 255]);
    assert_eq!(rgba_pixel(40, 5), [15, 23, 42, 255]);
    assert_eq!(rgba_pixel(10, 32), [15, 23, 42, 255]);
    assert_eq!(rgba_pixel(u32::MAX, u32::MAX), [15, 23, 42, 255]);
    let rgba = icon_rgba();
    assert_eq!(rgba.len(), 32 * 32 * 4);
    let offset = (5 * 32 + 15) * 4;
    assert_eq!(&rgba[offset..offset + 4], &[15, 45, 95, 255]);
}

#[test]
fn tray_menu_entries_map_to_their_actions() {
    let entries = tray_menu_entries();
    assert_eq!(entries.len(), 3);
    for (id, _) in &entries {
        assert!(tray_menu_action(id).is_some());
    }
    assert_eq!(tray_menu_action("show-panel"), Some(TrayAction::ShowPanel));
    assert_eq!(tray_menu_action("arrange-now"), Some(TrayAction::ArrangeNow));
    assert_eq!(tray_menu_action("exit"), Some(TrayAction::Exit));
    assert_eq!(tray_menu_action("quit"), None);
}

#[test]
fn title_patterns_remove_variable_numbers() {
    assert_eq!(
        normalize_title_pattern("Club 123 - Table €5/€10"),
        "Club # - Table #/#"
    );
}

#[test]
fn title_patterns_collapse_white_space_and_trim() {
    assert_eq!(normalize_title_pattern("  NL   $1.50\tTable  "), "NL #.# Table");
    assert_eq!(normalize_title_pattern(""), "");
    assert_eq!(normalize_title_pattern("£¥$9"), "#");
}

#[test]
fn desktop_and_taskbar_windows_are_not_candidates() {
    assert!(is_system_shell_window("Progman"));
    assert!(is_system_shell_window("Shell_TrayWnd"));
    assert!(!is_system_shell_window("Chrome_WidgetWin_1"));
}

#[test]
fn only_the_ldplayer_frontend_process_matches() {
    assert!(is_ldplayer_process("dnplayer.exe"));
    assert!(is_ldplayer_process("DNPLAYER"));
    assert!(!is_ldplayer_process("Ld9BoxHeadless.exe"));
    assert!(!is_ldplayer_process("Ld9BoxSVC.exe"));
}

#[test]
fn generic_clubgg_titles_identify_lobbies_not_tables() {
    assert!(is_generic_clubgg_surface(""));
    assert!(is_generic_clubgg_surface("  ClubGG  "));
    assert!(!is_generic_clubgg_surface("PLO5 10-20 - Table 2"));
}

#[test]
fn titled_clubgg_lobbies_are_identified_consistently() {
    assert!(is_clubgg_lobby_surface("ClubGG lobby"));
    assert!(is_clubgg_lobby_surface("Tournament Lobby - ClubGG"));
    assert!(!is_clubgg_lobby_surface("PLO5 10-20 - Table 2"));
}

fn raw(title: &str, process: &str, rect: Rect) -> RawWindow {
    RawWindow {
        id: WindowId(42),
        visible: true,
        cloaked: false,
        process_id: 7,
        own_process_id: 1,
        title: title.to_owned(),
        class_name: "Qt5QWindowIcon".to_owned(),
        process_name: Some(process.to_owned()),
        in_clubgg_process_tree: false,
        rect: Some(rect),
        child: false,
        disabled: false,
        tool_window: false,
    }
}

#[test]
fn a_clubgg_table_window_is_a_likely_table() {
    let candidate = classify_window(&raw("NL 10/20 - Table 3", "ClubGG.exe", Rect::new(0, 0, 800, 600))).unwrap();
    assert_eq!(candidate.poker_client, Some(PokerClientKind::ClubGg));
    assert!(candidate.likely_table);
    assert!(!candidate.is_clubgg_lobby);
    assert_eq!(candidate.label, "NL 10/20 - Table 3");
    assert_eq!(candidate.signature.process_name, "clubgg.exe");
    assert_eq!(candidate.signature.title_pattern, "nl #/# - table #");
    assert_eq!(candidate.preferred_aspect_ratio, AspectRatio::from_dimensions(800, 600).unwrap());
}

#[test]
fn lobbies_small_and_foreign_windows_are_told_apart() {
    let lobby = classify_window(&raw("ClubGG", "clubgg.exe", Rect::new(0, 0, 800, 600))).unwrap();
    assert!(lobby.is_clubgg_lobby);
    assert!(!lobby.likely_table);
    assert_eq!(lobby.label, "ClubGG lobby");
    assert!(classify_window(&raw("Table", "clubgg.exe", Rect::new(0, 0, 99, 600))).is_none());
    let mut own = raw("Table", "clubgg.exe", Rect::new(0, 0, 800, 600));
    own.own_process_id = 7;
    assert!(classify_window(&own).is_none());
    let untitled = raw("  ", "notepad.exe", Rect::new(0, 0, 800, 600));
    assert!(classify_window(&untitled).is_none());
    let editor = classify_window(&raw("notes.txt", "notepad.exe", Rect::new(0, 0, 800, 600))).unwrap();
    assert_eq!(editor.poker_client, None);
    assert!(!editor.likely_table);
    let tall = classify_window(&raw("Pokerrr 2", "dnplayer.exe", Rect::new(0, 0, 500, 1000))).unwrap();
    assert_eq!(tall.poker_client, Some(PokerClientKind::LdPlayer));
    assert!(tall.likely_table);
    assert_eq!(tall.preferred_aspect_ratio, AspectRatio { scaled: 2415919104 });
}

#[test]
fn processes_started_by_clubgg_belong_to_it() {
    let processes = vec![
        ProcessRecord { id: 10, parent_id: 1, executable: "ClubGG.exe".to_owned() },
        ProcessRecord { id: 11, parent_id: 10, executable: "helper.exe".to_owned() },
        ProcessRecord { id: 12, parent_id: 11, executable: "renderer.exe".to_owned() },
        ProcessRecord { id: 20, parent_id: 1, executable: "browser.exe".to_owned() },
        ProcessRecord { id: 21, parent_id: 20, executable: "tab.exe".to_owned() },
    ];
    let mut related = related_clubgg_processes(&processes);
    related.sort();
    assert_eq!(related, vec![10, 11, 12]);
}

#[test]
fn no_clubgg_executable_means_no_related_process() {
    let processes = vec![
        ProcessRecord { id: 20, parent_id: 1, executable: "browser.exe".to_owned() },
        ProcessRecord { id: 21, parent_id: 20, executable: "tab.exe".to_owned() },
    ];
    assert!(related_clubgg_processes(&processes).is_empty());
    let lowered = vec![
        ProcessRecord { id: 5, parent_id: 0, executable: "CLUBgg-launcher.EXE".to_owned() },
        ProcessRecord { id: 6, parent_id: 5, executable: "child.exe".to_owned() },
        ProcessRecord { id: 7, parent_id: 99, executable: "other.exe".to_owned() },
    ];
    let mut related = related_clubgg_processes(&lowered);
    related.sort();
    assert_eq!(related, vec![5, 6]);
}

#[test]
fn wide_text_stops_at_the_first_zero() {
    assert_eq!(wide_text_length(&[65, 66, 0, 67]), 2);
    assert_eq!(wide_text_length(&[65, 66]), 2);
    assert_eq!(wide_text_length(&[]), 0);
}

#[test]
fn unknown_minimum_sizes_follow_the_ratio() {
    assert_eq!(estimated_minimum_size(Size::new(320, 240), AspectRatio { scaled: 0 }), Size::new(320, 240));
    assert_eq!(estimated_minimum_size(Size::new(0, 0), AspectRatio { scaled: 0 }), Size::new(240, 180));
    assert_eq!(estimated_minimum_size(Size::new(0, 0), AspectRatio { scaled: 2415919104 }), Size::new(200, 180));
    assert_eq!(estimated_minimum_size(Size::new(0, 0), AspectRatio { scaled: 2 * 4294967296 }), Size::new(360, 180));
}

#[test]
fn monitors_are_labelled_with_their_work_area() {
    let monitor = monitor_from_edges("\\\\.\\DISPLAY1".to_owned(), -1920, 0, 0, 1040, false);
    assert_eq!(monitor.label, "\\\\.\\DISPLAY1 (1920×1040)");
    assert_eq!(monitor.work_area, Rect::new(-1920, 0, 1920, 1040));
}

fn at(id: u64, left: i32, top: i32) -> WindowCandidate {
    WindowCandidate {
        id: WindowId(id),
        label: String::new(),
        process_name: String::new(),
        class_name: String::new(),
        signature: clubgg_table_arranger::model::WindowSignature {
            process_name: String::new(),
            class_name: String::new(),
            title_pattern: String::new(),
        },
        rect: Rect::new(left, top, 100, 100),
        poker_client: None,
        is_clubgg_lobby: false,
        preferred_aspect_ratio: AspectRatio { scaled: 0 },
        likely_table: false,
    }
}

#[test]
fn windows_are_listed_top_to_bottom_then_left_to_right() {
    let ordered = desktop_order(&vec![at(3, 500, 10), at(1, -200, 10), at(2, 0, -5), at(9, 500, 10), at(4, 500, 10)]);
    let ids: Vec<u64> = ordered.iter().map(|c| c.id.0).collect();
    assert_eq!(ids, vec![2, 1, 3, 4, 9]);
}

#[test]
fn window_icons_swap_red_and_blue_and_keep_their_alpha() {
    // Two pixels with an alpha channel: blue-green-red-alpha becomes red-green-blue-alpha.
    let bgra = [10, 20, 30, 40, 1, 2, 3, 0];
    assert_eq!(rgba_from_bgra(&bgra), vec![30, 20, 10, 40, 3, 2, 1, 0]);
}

#[test]
fn window_icons_without_alpha_are_opaque_where_not_black() {
    let bgra = [10, 0, 0, 0, 0, 0, 0, 0, 0, 0, 7, 0];
    assert_eq!(
        rgba_from_bgra(&bgra),
        vec![0, 0, 10, 255, 0, 0, 0, 0, 7, 0, 0, 255]
    );
    // A trailing partial pixel is dropped.
    assert_eq!(rgba_from_bgra(&[1, 2, 3, 4, 5]), vec![3, 2, 1, 4]);
    assert!(rgba_from_bgra(&[]).is_empty());
}

#[test]
fn default_shortcuts_parse_into_hotkeys() {
    let arrange = parse_shortcut("Ctrl+Shift+A").expect("default shortcut parses");
    assert_eq!(arrange, HotKey::new(Some(Modifiers::CONTROL | Modifiers::SHIFT), Code::KeyA));
    let panel = parse_shortcut(" ctrl + shift + p ").expect("spaces around parts are ignored");
    assert_eq!(panel, HotKey::new(Some(Modifiers::CONTROL | Modifiers::SHIFT), Code::KeyP));
    assert_ne!(arrange.id(), panel.id());
}

#[test]
fn unreadable_shortcuts_are_reported_with_their_text() {
    let message = parse_shortcut("Ctrl++A").expect_err("an empty part is refused");
    assert!(message.starts_with("Ctrl++A: "), "{message}");
    assert!(message.contains("empty token"), "{message}");
    let message = parse_shortcut("Ctrl+Banana").expect_err("an unknown key is refused");
    assert!(message.starts_with("Ctrl+Banana: "), "{message}");
    assert!(message.contains("banana") || message.contains("BANANA"), "{message}");
}

#[test]
fn a_pattern_is_its_own_pattern() {
    for title in ["  NL   $1.50\tTable  ", "Club 123 - Table €5/€10", "", "£¥$9", "a \u{3000} b"] {
        let once = normalize_title_pattern(title);
        assert_eq!(normalize_title_pattern(&once), once);
        assert!(!once.chars().any(|c| c.is_ascii_digit() || c == '\t'));
    }
}
