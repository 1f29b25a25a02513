use clubgg_table_arranger::controller::ControllerCommand;
use clubgg_table_arranger::model::{
    CandidateView, PokerSlotId, Rect, TableStatus, WindowId, WindowMode,
};
use clubgg_table_arranger::panel::{
    placeholder_number, short_label, slot_click_command, status_text, window_mode_rank,
    window_subtitle, panel_position, workspace_summary, any_failure, parked_table_positions,
};
use clubgg_table_arranger::model::PokerClientKind;

#[test]
fn window_groups_are_arranged_then_parked_then_ignored() {
    assert!(window_mode_rank(WindowMode::Arranged) < window_mode_rank(WindowMode::TopRight));
    assert_eq!(
        window_mode_rank(WindowMode::TopRight),
        window_mode_rank(WindowMode::FreeSpace)
    );
    assert!(window_mode_rank(WindowMode::FreeSpace) < window_mode_rank(WindowMode::Parked));
    assert!(window_mode_rank(WindowMode::Parked) < window_mode_rank(WindowMode::Ignored));
}

#[test]
fn selected_table_clicking_placeholder_two_emits_a_move_command() {
    let mut selected = Some(WindowId(1));
    let destination = PokerSlotId::club(0, 1);

    let command = slot_click_command(&mut selected, None, destination);
    assert!(matches!(
        command,
        Some(ControllerCommand::MoveToSlot {
            source: WindowId(1),
            destination: received,
        }) if received == destination
    ));
    assert_eq!(selected, None);
}

#[test]
fn selected_table_clicking_another_number_emits_a_swap_command() {
    let mut selected = Some(WindowId(1));
    let destination = PokerSlotId::club(0, 1);

    let command = slot_click_command(&mut selected, Some(WindowId(2)), destination);
    assert!(matches!(
        command,
        Some(ControllerCommand::MoveToSlot {
            source: WindowId(1),
            destination: received,
        }) if received == destination
    ));
    assert_eq!(selected, None);
}

#[test]
fn clicking_a_table_selects_it_and_clicking_it_again_deselects() {
    let mut selected = None;
    let slot = PokerSlotId::club(1, 0);
    assert!(slot_click_command(&mut selected, Some(WindowId(7)), slot).is_none());
    assert_eq!(selected, Some(WindowId(7)));
    assert!(slot_click_command(&mut selected, Some(WindowId(7)), slot).is_none());
    assert_eq!(selected, None);
    assert!(slot_click_command(&mut selected, None, slot).is_none());
    assert_eq!(selected, None);
}

#[test]
fn placeholders_are_numbered_two_per_column_from_one() {
    assert_eq!(placeholder_number(PokerSlotId::club(0, 0)), 1);
    assert_eq!(placeholder_number(PokerSlotId::club(0, 1)), 2);
    assert_eq!(placeholder_number(PokerSlotId::club(2, 1)), 6);
    assert_eq!(placeholder_number(PokerSlotId::full_height(3)), 7);
}

#[test]
fn long_labels_are_cut_with_an_ellipsis() {
    assert_eq!(short_label("Table 1", 10), "Table 1");
    assert_eq!(short_label("Table 1", 7), "Table 1");
    assert_eq!(short_label("Tournament table", 5), "Tourn…");
    assert_eq!(short_label("€€€€", 2), "€€…");
}

fn view(mode: WindowMode, lobby: bool, status: Option<TableStatus>) -> CandidateView {
    CandidateView {
        id: WindowId(4),
        label: "Table".to_owned(),
        process_name: "clubgg.exe".to_owned(),
        class_name: "Qt".to_owned(),
        poker_client: None,
        is_clubgg_lobby: lobby,
        current_rect: Rect::new(0, 0, 10, 10),
        likely_table: false,
        mode,
        slot: Some(3),
        status,
    }
}

#[test]
fn subtitles_say_what_happens_to_each_window() {
    assert_eq!(window_subtitle(&view(WindowMode::Arranged, false, None)), "Table 3 · Ready");
    assert_eq!(
        window_subtitle(&view(WindowMode::Arranged, false, Some(TableStatus::AccessDenied))),
        "Table 3 · Access denied"
    );
    assert_eq!(
        window_subtitle(&view(
            WindowMode::TopRight,
            false,
            Some(TableStatus::MoveFailed("gone".to_owned()))
        )),
        "Top-right · Move failed: gone"
    );
    assert_eq!(window_subtitle(&view(WindowMode::Parked, true, None)), "Lobby · parked bottom-right");
    assert_eq!(window_subtitle(&view(WindowMode::Ignored, false, None)), "Ignored · clubgg.exe");
    assert_eq!(status_text(&view(WindowMode::Parked, false, Some(TableStatus::Parked))), "Parked");
}

#[test]
fn window_ids_read_as_hexadecimal() {
    assert_eq!(WindowId(0).label(), "window-0");
    assert_eq!(WindowId(0x1A2B).label(), "window-1A2B");
}

#[test]
fn the_panel_centres_on_the_cursor_inside_the_work_area() {
    let work = Rect::new(0, 0, 1920, 1080);
    let window = Rect::new(0, 0, 400, 300);
    assert_eq!(panel_position(1000, 500, window, work), (800, 350));
    assert_eq!(panel_position(10, 10, window, work), (0, 0));
    assert_eq!(panel_position(1910, 1070, window, work), (1520, 780));
}

#[test]
fn the_workspace_line_counts_windows_by_mode() {
    let windows = vec![
        view(WindowMode::Arranged, false, None),
        view(WindowMode::Arranged, false, None),
        view(WindowMode::Parked, true, None),
        view(WindowMode::TopRight, false, None),
        view(WindowMode::FreeSpace, false, None),
        view(WindowMode::Ignored, false, None),
    ];
    assert_eq!(workspace_summary(&windows), "2 active · 1 parked · 2 positioned · 1 ignored");
    assert_eq!(workspace_summary(&Vec::new()), "0 active · 0 parked · 0 positioned · 0 ignored");
}

#[test]
fn a_failed_move_is_noticed_in_tables_or_windows() {
    let quiet = vec![view(WindowMode::Ignored, false, None), view(WindowMode::TopRight, false, Some(TableStatus::Ready))];
    assert!(!any_failure(&Vec::new(), &quiet));
    let refused = vec![view(WindowMode::TopRight, false, Some(TableStatus::AccessDenied))];
    assert!(any_failure(&Vec::new(), &refused));
    let failed = vec![view(WindowMode::FreeSpace, false, Some(TableStatus::MoveFailed("gone".to_owned())))];
    assert!(any_failure(&Vec::new(), &failed));
}

#[test]
fn the_top_bar_lists_only_parked_poker_tables() {
    let mut parked_table = view(WindowMode::Parked, false, None);
    parked_table.poker_client = Some(PokerClientKind::ClubGg);
    let mut parked_lobby = view(WindowMode::Parked, true, None);
    parked_lobby.poker_client = Some(PokerClientKind::ClubGg);
    let parked_application = view(WindowMode::Parked, false, None);
    let mut arranged_table = view(WindowMode::Arranged, false, None);
    arranged_table.poker_client = Some(PokerClientKind::LdPlayer);
    let mut parked_emulator = view(WindowMode::Parked, false, None);
    parked_emulator.poker_client = Some(PokerClientKind::LdPlayer);
    let windows = vec![parked_table, parked_lobby, parked_application, arranged_table, parked_emulator];
    assert_eq!(parked_table_positions(&windows), vec![0, 4]);
    assert!(parked_table_positions(&Vec::new()).is_empty());
}
