use std::cell::{Cell, RefCell};

use clubgg_table_arranger::commands::ControllerAction;
use clubgg_table_arranger::config::{AppConfig, ApplicationDefault};
use clubgg_table_arranger::controller::{Controller, ControllerCommand};
use clubgg_table_arranger::layout::{calculate_mixed_layout, right_side_free_rect, PokerColumnSpec};
use clubgg_table_arranger::model::{
    AspectRatio, BackendError, CandidateDisposition, MonitorInfo, PokerClientKind,
    PokerColumnAssignment, PokerSlotId, Rect, Size, TableStatus, WindowBackend, WindowCandidate,
    WindowId, WindowMode, WindowSignature, clone_columns, same_columns,
};
use clubgg_table_arranger::snapshot::UiSnapshot;

struct MockBackend {
    candidates: RefCell<Vec<WindowCandidate>>,
    moves: RefCell<Vec<(WindowId, Rect)>>,
    located: RefCell<Vec<WindowId>>,
    foreground: Cell<Option<WindowId>>,
    deny_moves: Cell<bool>,
    large_minimum: Cell<Option<(u64, Size)>>,
}

impl MockBackend {
    fn with_tables(count: usize) -> Self {
        Self {
            candidates: RefCell::new((0..count).map(|index| candidate(index + 1)).collect()),
            moves: RefCell::new(Vec::new()),
            located: RefCell::new(Vec::new()),
            foreground: Cell::new(None),
            deny_moves: Cell::new(false),
            large_minimum: Cell::new(None),
        }
    }

    fn last_rect(&self, id: u64) -> Option<Rect> {
        self.moves
            .borrow()
            .iter()
            .rev()
            .find(|(candidate, _)| *candidate == WindowId(id))
            .map(|(_, rect)| *rect)
    }
}

impl WindowBackend for MockBackend {
    fn enumerate_candidates(&self) -> Result<Vec<WindowCandidate>, BackendError> {
        Ok(self.candidates.borrow().clone())
    }

    fn monitors(&self) -> Result<Vec<MonitorInfo>, BackendError> {
        Ok(vec![MonitorInfo {
            id: "test-monitor".to_owned(),
            label: "Test monitor".to_owned(),
            work_area: Rect::new(0, 0, 2752, 1104),
            primary: true,
        }])
    }

    fn move_resize(&self, id: WindowId, rect: Rect) -> Result<Rect, BackendError> {
        if self.deny_moves.get() {
            return Err(BackendError::AccessDenied);
        }
        self.moves.borrow_mut().push((id, rect));
        Ok(rect)
    }

    fn minimum_size(&self, id: WindowId, _aspect_ratio: AspectRatio) -> Result<Size, BackendError> {
        match self.large_minimum.get() {
            Some((large, size)) if WindowId(large) == id => Ok(size),
            _ => Ok(Size::new(240, 180)),
        }
    }

    fn locate(&self, id: WindowId) -> Result<(), BackendError> {
        self.located.borrow_mut().push(id);
        Ok(())
    }

    fn foreground_window(&self) -> Option<WindowId> {
        self.foreground.get()
    }
}

/// Starts a controller as the application does: it takes the desktop in and,
/// when automatic arrangement is on, arranges once the changes settle.
fn start(backend: &MockBackend, config: AppConfig) -> Controller {
    let mut controller = Controller::new(config);
    let _ = controller.reconcile(backend);
    settle(&mut controller, backend);
    controller
}

fn settle(controller: &mut Controller, backend: &MockBackend) {
    if controller.config.auto_arrange && controller.dirty {
        controller.arrange(backend);
    }
}

fn send(controller: &mut Controller, backend: &MockBackend, command: ControllerCommand) -> ControllerAction {
    let action = controller.handle(backend, command);
    if action == ControllerAction::ScheduleDiscovery {
        let _ = controller.reconcile(backend);
    }
    settle(controller, backend);
    action
}

fn manual() -> AppConfig {
    let mut config = AppConfig::default();
    config.auto_arrange = false;
    config
}

fn ratio(value: f64) -> AspectRatio {
    AspectRatio { scaled: (value * 4294967296.0).round() as u64 }
}

fn candidate(number: usize) -> WindowCandidate {
    let label = format!("Synthetic table {number}");
    WindowCandidate {
        id: WindowId(number as u64),
        label: label.clone(),
        process_name: "ClubGG.exe".to_owned(),
        class_name: "SyntheticClubGGTable".to_owned(),
        signature: WindowSignature {
            process_name: "clubgg.exe".to_owned(),
            class_name: "SyntheticClubGGTable".to_owned(),
            title_pattern: label.to_ascii_lowercase(),
        },
        rect: Rect::new(0, 0, 800, 600),
        poker_client: Some(PokerClientKind::ClubGg),
        is_clubgg_lobby: false,
        preferred_aspect_ratio: ratio(4.0 / 3.0),
        likely_table: true,
    }
}

fn ordinary_candidate(number: usize) -> WindowCandidate {
    let label = format!("Document {number}");
    WindowCandidate {
        id: WindowId(number as u64),
        label: label.clone(),
        process_name: "editor.exe".to_owned(),
        class_name: "EditorWindow".to_owned(),
        signature: WindowSignature {
            process_name: "editor.exe".to_owned(),
            class_name: "EditorWindow".to_owned(),
            title_pattern: label.to_ascii_lowercase(),
        },
        rect: Rect::new(100, 100, 900, 700),
        poker_client: None,
        is_clubgg_lobby: false,
        preferred_aspect_ratio: ratio(9.0 / 7.0),
        likely_table: false,
    }
}

fn ldplayer_candidate(number: usize) -> WindowCandidate {
    let label = format!("Pokerrr 2 {number}");
    WindowCandidate {
        id: WindowId(number as u64),
        label: label.clone(),
        process_name: "dnplayer.exe".to_owned(),
        class_name: "LDPlayerMainFrame".to_owned(),
        signature: WindowSignature {
            process_name: "dnplayer.exe".to_owned(),
            class_name: "LDPlayerMainFrame".to_owned(),
            title_pattern: label.to_ascii_lowercase(),
        },
        rect: Rect::new(0, 0, 620, 1104),
        poker_client: Some(PokerClientKind::LdPlayer),
        is_clubgg_lobby: false,
        preferred_aspect_ratio: ratio(9.0 / 16.0),
        likely_table: true,
    }
}

fn ids(snapshot: &UiSnapshot) -> Vec<u64> {
    snapshot.tables.iter().map(|table| table.id.0).collect()
}

fn candidate_ids(snapshot: &UiSnapshot) -> Vec<u64> {
    snapshot.candidates.iter().map(|candidate| candidate.id.0).collect()
}

fn candidate_mode(snapshot: &UiSnapshot, id: u64) -> WindowMode {
    snapshot
        .candidates
        .iter()
        .find(|candidate| candidate.id == WindowId(id))
        .unwrap()
        .mode
}

fn slot_of(snapshot: &UiSnapshot, id: u64) -> PokerSlotId {
    snapshot
        .poker_slots
        .iter()
        .find(|slot| slot.occupant == Some(WindowId(id)))
        .unwrap()
        .id
}

fn free_right_of_two_pairs() -> Rect {
    let work_area = Rect::new(0, 0, 2752, 1104);
    let layout = calculate_mixed_layout(work_area, &[PokerColumnSpec::ClubGg, PokerColumnSpec::ClubGg]);
    let occupied: Vec<Rect> = layout.columns.iter().map(|column| column.bounds).collect();
    right_side_free_rect(work_area, &occupied)
}

#[test]
fn locate_command_reaches_the_selected_window() {
    let backend = MockBackend::with_tables(1);
    let mut controller = start(&backend, AppConfig::default());
    assert_eq!(controller.snapshot().tables.len(), 1);

    send(&mut controller, &backend, ControllerCommand::Locate(WindowId(1)));
    assert_eq!(backend.located.borrow().as_slice(), [WindowId(1)]);
}

#[test]
fn closing_disabling_and_reordering_preserve_relative_order() {
    let backend = MockBackend::with_tables(5);
    let mut controller = start(&backend, AppConfig::default());
    assert_eq!(ids(&controller.snapshot()), vec![1, 2, 3, 4, 5]);

    send(&mut controller, &backend, ControllerCommand::SetEnabled { id: WindowId(2), enabled: false });
    let disabled = controller.snapshot();
    assert!(disabled.tables.iter().any(|table| table.id == WindowId(2) && !table.enabled));
    assert_eq!(ids(&disabled), vec![1, 2, 3, 4, 5]);
    assert!(backend
        .moves
        .borrow()
        .iter()
        .any(|(id, rect)| *id == WindowId(2) && *rect == Rect::new(2512, 924, 240, 180)));

    send(
        &mut controller,
        &backend,
        ControllerCommand::MoveToSlot { source: WindowId(5), destination: PokerSlotId::club(0, 0) },
    );
    assert_eq!(ids(&controller.snapshot()), vec![5, 2, 3, 4, 1]);

    backend.candidates.borrow_mut().retain(|item| item.id != WindowId(3));
    send(&mut controller, &backend, ControllerCommand::ForceArrange);
    let closed = controller.snapshot();
    assert_eq!(closed.tables.len(), 4);
    assert_eq!(ids(&closed), vec![5, 2, 4, 1]);
}

#[test]
fn ldplayer_uses_a_full_height_column_and_cross_swap_moves_the_club_pair() {
    let backend = MockBackend::with_tables(2);
    backend.candidates.borrow_mut().push(ldplayer_candidate(9));
    let mut controller = start(&backend, manual());
    let initial = controller.snapshot();

    assert_eq!(ids(&initial), vec![1, 2, 9]);
    assert!(!initial.preserve_table_slots);
    assert!(initial.preserve_table_slots_requested);
    assert!(initial.preserve_table_slots_auto_suppressed);
    assert_eq!(initial.poker_slots.len(), 3);
    let ld_slot = initial
        .poker_slots
        .iter()
        .find(|slot| slot.occupant == Some(WindowId(9)))
        .unwrap();
    assert_eq!(ld_slot.id, PokerSlotId::full_height(1));
    assert_eq!(ld_slot.rect.height, 1104);
    assert!(controller.save_requested);
    assert_eq!(controller.config.poker_columns.len(), 2);
    assert!(matches!(
        controller.config.poker_columns.get(1),
        Some(PokerColumnAssignment::LdPlayer { table: Some(_) })
    ));

    send(
        &mut controller,
        &backend,
        ControllerCommand::MoveToSlot { source: WindowId(9), destination: PokerSlotId::club(0, 0) },
    );
    let swapped = controller.snapshot();
    assert_eq!(ids(&swapped), vec![9, 1, 2]);
    assert_eq!(slot_of(&swapped, 9), PokerSlotId::full_height(0));
    assert_eq!(slot_of(&swapped, 1), PokerSlotId::club(1, 0));
    assert_eq!(slot_of(&swapped, 2), PokerSlotId::club(1, 1));
}

#[test]
fn full_height_ldplayer_never_reflows_narrower_than_its_natural_ratio() {
    let backend = MockBackend::with_tables(0);
    let mut ldplayer = ldplayer_candidate(9);
    ldplayer.rect = Rect::new(0, 0, 500, 1104);
    ldplayer.preferred_aspect_ratio = ratio(0.50);
    backend.candidates.borrow_mut().push(ldplayer);
    let mut controller = start(&backend, manual());
    let snapshot = controller.snapshot();
    assert_eq!(snapshot.tables.len(), 1);
    let slot = snapshot
        .poker_slots
        .iter()
        .find(|slot| slot.occupant == Some(WindowId(9)))
        .unwrap();
    assert_eq!(slot.rect.height, 1104);
    assert_eq!(slot.rect.width, 621);

    send(&mut controller, &backend, ControllerCommand::ForceArrange);
    assert!(backend
        .moves
        .borrow()
        .iter()
        .any(|(id, rect)| *id == WindowId(9) && rect.width == 621 && rect.height == 1104));
}

#[test]
fn existing_ldplayer_assignment_reclaims_an_older_reserved_middle_column() {
    let backend = MockBackend::with_tables(1);
    let ldplayer = ldplayer_candidate(9);
    backend.candidates.borrow_mut().push(ldplayer.clone());
    let club_signature = backend.candidates.borrow()[0].signature.clone();
    let mut config = manual();
    config.poker_columns = vec![
        PokerColumnAssignment::ClubGg { top: Some(club_signature), bottom: None },
        PokerColumnAssignment::empty_club(),
        PokerColumnAssignment::LdPlayer { table: Some(ldplayer.signature) },
    ];
    let controller = start(&backend, config);
    let snapshot = controller.snapshot();
    assert_eq!(snapshot.tables.len(), 2);

    assert_eq!(slot_of(&snapshot, 9), PokerSlotId::full_height(1));
    assert_eq!(controller.config.poker_columns.len(), 2);
    assert!(controller.config.poker_columns.iter().all(|column| {
        !matches!(
            column,
            PokerColumnAssignment::Empty | PokerColumnAssignment::ClubGg { top: None, bottom: None }
        )
    }));
}

#[test]
fn preserved_anonymous_columns_are_capped_at_two_total_columns() {
    let backend = MockBackend::with_tables(1);
    let signature = backend.candidates.borrow()[0].signature.clone();
    let mut config = manual();
    config.poker_columns = vec![
        PokerColumnAssignment::empty_club(),
        PokerColumnAssignment::ClubGg { top: Some(signature), bottom: None },
        PokerColumnAssignment::empty_club(),
        PokerColumnAssignment::Empty,
    ];
    let controller = start(&backend, config);
    let snapshot = controller.snapshot();
    assert_eq!(snapshot.tables.len(), 1);

    assert!(snapshot.preserve_table_slots);
    assert_eq!(controller.config.poker_columns.len(), 2);
    assert_eq!(snapshot.poker_slots.iter().map(|slot| slot.id.column).max(), Some(1));
}

#[test]
fn initial_discovery_keeps_clubgg_before_ldplayer_even_when_ldplayer_is_seen_first() {
    let backend = MockBackend::with_tables(0);
    backend.candidates.borrow_mut().extend([ldplayer_candidate(9), candidate(1)]);
    let controller = start(&backend, AppConfig::default());
    let snapshot = controller.snapshot();
    assert_eq!(snapshot.tables.len(), 2);

    assert_eq!(ids(&snapshot), vec![1, 9]);
    assert_eq!(controller.config.poker_columns.len(), 2);
    assert_eq!(slot_of(&snapshot, 1), PokerSlotId::club(0, 0));
    assert_eq!(slot_of(&snapshot, 9), PokerSlotId::full_height(1));
}

#[test]
fn moving_table_one_into_placeholder_two_moves_the_window_and_leaves_a_hole() {
    let backend = MockBackend::with_tables(1);
    let mut controller = start(&backend, manual());
    let initial = controller.snapshot();
    assert!(initial
        .poker_slots
        .iter()
        .any(|slot| slot.id == PokerSlotId::club(0, 0) && slot.occupant == Some(WindowId(1))));
    assert!(initial
        .poker_slots
        .iter()
        .any(|slot| slot.id == PokerSlotId::club(0, 1) && slot.occupant.is_none()));

    send(
        &mut controller,
        &backend,
        ControllerCommand::MoveToSlot { source: WindowId(1), destination: PokerSlotId::club(0, 1) },
    );
    let moved = controller.snapshot();
    assert!(moved
        .poker_slots
        .iter()
        .any(|slot| slot.id == PokerSlotId::club(0, 1) && slot.occupant == Some(WindowId(1))));
    assert!(moved
        .poker_slots
        .iter()
        .any(|slot| slot.id == PokerSlotId::club(0, 0) && slot.occupant.is_none()));
}

#[test]
fn preserve_slots_auto_suppresses_for_two_busy_columns_and_restores_after_park() {
    let backend = MockBackend::with_tables(1);
    backend.candidates.borrow_mut().push(ldplayer_candidate(9));
    let mut controller = start(&backend, AppConfig::default());
    let suppressed = controller.snapshot();
    assert_eq!(suppressed.tables.len(), 2);
    assert!(suppressed.preserve_table_slots_auto_suppressed);
    assert!(!suppressed.preserve_table_slots);
    assert!(suppressed.preserve_table_slots_requested);
    assert!(controller.config.preserve_table_slots);

    send(&mut controller, &backend, ControllerCommand::SetPreserveTableSlots(false));
    let manually_disabled = controller.snapshot();
    assert!(!manually_disabled.preserve_table_slots && !manually_disabled.preserve_table_slots_requested);
    assert!(!manually_disabled.preserve_table_slots_auto_suppressed);
    assert!(!controller.config.preserve_table_slots);

    send(&mut controller, &backend, ControllerCommand::SetEnabled { id: WindowId(9), enabled: false });
    let still_disabled = controller.snapshot();
    assert!(!still_disabled.preserve_table_slots && !still_disabled.preserve_table_slots_requested);
    assert!(still_disabled.tables.iter().any(|table| table.id == WindowId(9) && !table.enabled));
    assert!(!still_disabled.preserve_table_slots_auto_suppressed);

    send(&mut controller, &backend, ControllerCommand::SetPreserveTableSlots(true));
    let restored = controller.snapshot();
    assert!(restored.preserve_table_slots && restored.preserve_table_slots_requested);
    assert!(!restored.preserve_table_slots_auto_suppressed);
}

#[test]
fn parked_table_keeps_a_ghost_and_closed_table_releases_its_owner() {
    let backend = MockBackend::with_tables(2);
    let mut controller = start(&backend, AppConfig::default());
    assert_eq!(controller.snapshot().tables.len(), 2);

    send(&mut controller, &backend, ControllerCommand::SetEnabled { id: WindowId(1), enabled: false });
    let parked = controller.snapshot();
    assert!(parked
        .poker_slots
        .iter()
        .any(|slot| slot.occupant == Some(WindowId(1)) && slot.parked));
    assert_eq!(
        parked
            .candidates
            .iter()
            .find(|candidate| candidate.id == WindowId(1))
            .unwrap()
            .current_rect,
        Rect::new(2512, 924, 240, 180)
    );

    backend.candidates.borrow_mut().retain(|candidate| candidate.id != WindowId(1));
    send(&mut controller, &backend, ControllerCommand::ForceArrange);
    let closed = controller.snapshot();
    assert_eq!(closed.tables.len(), 1);
    assert!(closed.poker_slots.iter().all(|slot| slot.occupant != Some(WindowId(1))));
    assert!(closed
        .poker_slots
        .iter()
        .any(|slot| slot.id == PokerSlotId::club(0, 0) && slot.occupant.is_none()));
}

#[test]
fn disabling_slot_preservation_compacts_manual_holes_immediately() {
    let backend = MockBackend::with_tables(2);
    let mut controller = start(&backend, manual());
    assert_eq!(controller.snapshot().tables.len(), 2);

    send(
        &mut controller,
        &backend,
        ControllerCommand::MoveToSlot { source: WindowId(1), destination: PokerSlotId::club(1, 0) },
    );
    let with_hole = controller.snapshot();
    assert!(with_hole
        .poker_slots
        .iter()
        .any(|slot| slot.id == PokerSlotId::club(0, 0) && slot.occupant.is_none()));
    assert!(with_hole
        .poker_slots
        .iter()
        .any(|slot| slot.id == PokerSlotId::club(1, 0) && slot.occupant == Some(WindowId(1))));
    assert!(!with_hole.preserve_table_slots);
    assert!(with_hole.preserve_table_slots_requested);
    assert!(with_hole.preserve_table_slots_auto_suppressed);

    send(&mut controller, &backend, ControllerCommand::SetPreserveTableSlots(false));
    let compacted = controller.snapshot();
    assert!(!compacted.preserve_table_slots);
    assert_eq!(compacted.poker_slots.len(), 2);
    assert!(compacted.poker_slots.iter().all(|slot| slot.occupant.is_some()));
}

#[test]
fn parked_tables_line_up_from_bottom_right_without_overlap() {
    let backend = MockBackend::with_tables(3);
    let mut controller = start(&backend, manual());
    assert_eq!(controller.snapshot().tables.len(), 3);

    for id in 1..=3 {
        send(&mut controller, &backend, ControllerCommand::SetEnabled { id: WindowId(id), enabled: false });
        let snapshot = controller.snapshot();
        assert!(snapshot
            .tables
            .iter()
            .find(|table| table.id == WindowId(id))
            .is_some_and(|table| !table.enabled && table.status == TableStatus::Parked));
    }

    assert_eq!(backend.last_rect(1), Some(Rect::new(2512, 924, 240, 180)));
    assert_eq!(backend.last_rect(2), Some(Rect::new(2272, 924, 240, 180)));
    assert_eq!(backend.last_rect(3), Some(Rect::new(2032, 924, 240, 180)));
}

#[test]
fn force_arrange_uses_equal_rectangles() {
    let backend = MockBackend::with_tables(5);
    let mut controller = start(&backend, AppConfig::default());
    assert_eq!(controller.snapshot().tables.len(), 5);
    backend.moves.borrow_mut().clear();

    send(&mut controller, &backend, ControllerCommand::ForceArrange);
    assert!(controller.snapshot().status_message.starts_with("Arranged 5"));
    let moves = backend.moves.borrow().clone();
    let final_moves = &moves[moves.len() - 5..];
    let first = final_moves[0].1;
    assert!(final_moves
        .iter()
        .all(|(_, rect)| rect.width == first.width && rect.height == first.height));
    assert_eq!((first.left, first.top), (0, 0));
}

#[test]
fn force_arrange_reports_access_denied_instead_of_claiming_success() {
    let backend = MockBackend::with_tables(2);
    backend.deny_moves.set(true);
    let mut controller = start(&backend, manual());
    assert_eq!(controller.snapshot().tables.len(), 2);

    send(&mut controller, &backend, ControllerCommand::ForceArrange);
    let denied = controller.snapshot();
    assert!(denied.status_message.contains("2 access denied"));
    assert!(denied.tables.iter().all(|table| table.status == TableStatus::AccessDenied));
}

#[test]
fn discovered_windows_keep_session_order_after_screen_positions_change() {
    let backend = MockBackend::with_tables(3);
    let mut controller = start(&backend, AppConfig::default());
    assert_eq!(candidate_ids(&controller.snapshot()), vec![1, 2, 3]);

    {
        let mut candidates = backend.candidates.borrow_mut();
        candidates.reverse();
        for (index, candidate) in candidates.iter_mut().enumerate() {
            candidate.rect.left = i32::try_from(index).unwrap() * 100;
        }
    }
    send(&mut controller, &backend, ControllerCommand::ForceArrange);
    assert_eq!(candidate_ids(&controller.snapshot()), vec![1, 2, 3]);
}

#[test]
fn every_candidate_exposes_arrange_park_and_ignore_state() {
    let backend = MockBackend::with_tables(3);
    backend.candidates.borrow_mut()[2].likely_table = false;
    let mut controller = start(&backend, AppConfig::default());
    let initial = controller.snapshot();
    assert_eq!(initial.candidates.len(), 3);
    assert_eq!(initial.tables.len(), 2);
    assert_eq!(candidate_mode(&initial, 1), WindowMode::Arranged);
    assert_eq!(candidate_mode(&initial, 2), WindowMode::Arranged);
    assert_eq!(candidate_mode(&initial, 3), WindowMode::Ignored);

    send(&mut controller, &backend, ControllerCommand::SetWindowMode { id: WindowId(2), mode: WindowMode::Parked });
    let parked = controller.snapshot();
    assert_eq!(candidate_mode(&parked, 2), WindowMode::Parked);
    assert_eq!(parked.tables.len(), 2);
    assert!(!parked.tables[1].enabled);
    assert_eq!(
        controller.config.disposition_for(&candidate(2).signature),
        Some(CandidateDisposition::Parked)
    );

    send(&mut controller, &backend, ControllerCommand::SetWindowMode { id: WindowId(3), mode: WindowMode::Arranged });
    let included = controller.snapshot();
    assert_eq!(candidate_mode(&included, 3), WindowMode::Arranged);
    assert_eq!(included.tables.len(), 3);

    send(&mut controller, &backend, ControllerCommand::SetWindowMode { id: WindowId(1), mode: WindowMode::Ignored });
    let ignored = controller.snapshot();
    assert_eq!(candidate_mode(&ignored, 1), WindowMode::Ignored);
    assert_eq!(ignored.tables.len(), 2);
    assert_eq!(ignored.candidates.len(), 3);
    assert_eq!(
        controller.config.disposition_for(&candidate(1).signature),
        Some(CandidateDisposition::Ignored)
    );
}

#[test]
fn saved_parked_clubgg_lobby_remains_visible_and_managed() {
    let backend = MockBackend::with_tables(0);
    let mut lobby = candidate(8);
    lobby.label = "ClubGG lobby".to_owned();
    lobby.signature.title_pattern = "clubgg".to_owned();
    lobby.is_clubgg_lobby = true;
    lobby.likely_table = false;
    backend.candidates.borrow_mut().push(lobby.clone());
    let mut config = manual();
    config.set_disposition(lobby.signature, CandidateDisposition::Parked);
    let controller = start(&backend, config);
    let snapshot = controller.snapshot();
    assert_eq!(candidate_mode(&snapshot, 8), WindowMode::Parked);

    assert_eq!(snapshot.candidates[0].label, "ClubGG lobby");
    assert!(snapshot.candidates[0].is_clubgg_lobby);
    assert!(snapshot.tables.is_empty());
    assert!(snapshot.poker_slots.iter().all(|slot| slot.occupant.is_none()));
}

#[test]
fn multiple_lobbies_default_to_park_without_consuming_preserved_columns() {
    let backend = MockBackend::with_tables(1);
    let shared_signature = WindowSignature {
        process_name: "clubgg.exe".to_owned(),
        class_name: "ClubGGLobby".to_owned(),
        title_pattern: "clubgg lobby".to_owned(),
    };
    for id in 8..=10 {
        let mut lobby = candidate(id);
        lobby.label = "ClubGG lobby".to_owned();
        lobby.signature.clone_from(&shared_signature);
        lobby.is_clubgg_lobby = true;
        lobby.likely_table = false;
        backend.candidates.borrow_mut().push(lobby);
    }
    let controller = start(&backend, manual());
    let snapshot = controller.snapshot();
    assert_eq!(snapshot.candidates.len(), 4);
    assert!(snapshot
        .candidates
        .iter()
        .filter(|candidate| candidate.is_clubgg_lobby)
        .all(|candidate| candidate.mode == WindowMode::Parked));

    assert_eq!(snapshot.tables.len(), 1);
    assert!(snapshot.preserve_table_slots);
    assert_eq!(snapshot.poker_slots.iter().map(|slot| slot.id.column).max(), Some(1));
    assert_eq!(snapshot.poker_slots.iter().filter(|slot| slot.occupant.is_some()).count(), 1);

    assert_eq!(backend.last_rect(8), Some(Rect::new(2512, 924, 240, 180)));
    assert_eq!(backend.last_rect(9), Some(Rect::new(2272, 924, 240, 180)));
    assert_eq!(backend.last_rect(10), Some(Rect::new(2032, 924, 240, 180)));
}

#[test]
fn ordinary_windows_default_to_ignore_and_can_use_free_space_or_top_right() {
    let backend = MockBackend::with_tables(2);
    backend.candidates.borrow_mut().push(ordinary_candidate(10));
    let mut controller = start(&backend, manual());
    let initial = controller.snapshot();
    assert_eq!(initial.candidates.len(), 3);
    assert_eq!(initial.tables.len(), 2);
    assert_eq!(candidate_mode(&initial, 10), WindowMode::Ignored);
    assert!(backend.moves.borrow().is_empty());

    send(&mut controller, &backend, ControllerCommand::SetWindowMode { id: WindowId(10), mode: WindowMode::FreeSpace });
    let filled = controller.snapshot();
    assert_eq!(candidate_mode(&filled, 10), WindowMode::FreeSpace);
    assert!(filled.status_message.contains("positioned 1 application window"));
    assert_eq!(filled.tables.len(), 2);
    let expected_free = free_right_of_two_pairs();
    assert!(backend
        .moves
        .borrow()
        .iter()
        .any(|(id, rect)| *id == WindowId(10) && *rect == expected_free));
    assert_eq!(
        controller.config.disposition_for(&ordinary_candidate(10).signature),
        Some(CandidateDisposition::FreeSpace)
    );

    backend.moves.borrow_mut().clear();
    send(&mut controller, &backend, ControllerCommand::SetWindowMode { id: WindowId(10), mode: WindowMode::TopRight });
    let top = controller.snapshot();
    assert_eq!(candidate_mode(&top, 10), WindowMode::TopRight);
    assert!(top.status_message.contains("positioned 1 application window"));
    assert!(backend
        .moves
        .borrow()
        .iter()
        .any(|(id, rect)| *id == WindowId(10) && *rect == Rect::new(1852, 0, 900, 700)));

    let restarted_backend = MockBackend::with_tables(2);
    let mut changed_title = ordinary_candidate(10);
    changed_title.label = "A completely different document title".to_owned();
    changed_title.signature.title_pattern = "a completely different document title".to_owned();
    restarted_backend.candidates.borrow_mut().push(changed_title);
    let mut restarted_config = controller.config;
    restarted_config.auto_arrange = false;
    let mut restarted = start(&restarted_backend, restarted_config);
    let restored = restarted.snapshot();
    assert_eq!(restored.candidates.len(), 3);
    assert_eq!(candidate_mode(&restored, 10), WindowMode::TopRight);
    assert!(restarted_backend.moves.borrow().is_empty());

    send(&mut restarted, &restarted_backend, ControllerCommand::ForceArrange);
    assert!(restarted.snapshot().status_message.contains("positioned 1 application window"));
    assert!(restarted_backend
        .moves
        .borrow()
        .iter()
        .any(|(id, rect)| *id == WindowId(10) && *rect == Rect::new(1852, 0, 900, 700)));
}

#[test]
fn preserved_two_column_boundary_defaults_on_with_zero_or_one_open_table() {
    let expected_free = free_right_of_two_pairs();

    for table_count in [0, 1] {
        let backend = MockBackend::with_tables(table_count);
        let application = ordinary_candidate(10);
        backend.candidates.borrow_mut().push(application.clone());
        let mut config = manual();
        config.set_application_disposition(application.signature, CandidateDisposition::FreeSpace);
        let mut controller = start(&backend, config);
        let initial = controller.snapshot();
        assert_eq!(initial.tables.len(), table_count);
        assert_eq!(candidate_mode(&initial, 10), WindowMode::FreeSpace);
        assert!(initial.preserve_table_slots);
        assert!(backend.moves.borrow().is_empty());

        send(&mut controller, &backend, ControllerCommand::ForceArrange);
        assert!(controller
            .snapshot()
            .status_message
            .to_ascii_lowercase()
            .contains("positioned 1 application window"));
        assert_eq!(backend.last_rect(10), Some(expected_free));
    }
}

#[test]
fn disabling_two_slot_reservation_immediately_reclaims_the_full_empty_display() {
    let backend = MockBackend::with_tables(0);
    let application = ordinary_candidate(10);
    backend.candidates.borrow_mut().push(application.clone());
    let mut config = manual();
    config.set_application_disposition(application.signature, CandidateDisposition::FreeSpace);
    let mut controller = start(&backend, config);
    let initial = controller.snapshot();
    assert!(initial.preserve_table_slots);
    assert_eq!(candidate_mode(&initial, 10), WindowMode::FreeSpace);

    send(&mut controller, &backend, ControllerCommand::SetPreserveTableSlots(false));
    let disabled = controller.snapshot();
    assert!(!disabled.preserve_table_slots);
    assert!(disabled
        .status_message
        .to_ascii_lowercase()
        .contains("positioned 1 application window"));
    assert_eq!(backend.last_rect(10), Some(Rect::new(0, 0, 2752, 1104)));
    assert!(!controller.config.preserve_table_slots);
}

#[test]
fn default_non_poker_mode_is_immediate_persistent_and_overridable() {
    let backend = MockBackend::with_tables(0);
    let application = ordinary_candidate(10);
    backend.candidates.borrow_mut().push(application.clone());
    let mut config = manual();
    config.default_application_mode = ApplicationDefault::FreeSpace;
    let mut controller = start(&backend, config);
    let initial = controller.snapshot();
    assert_eq!(initial.default_application_mode, ApplicationDefault::FreeSpace);
    assert_eq!(candidate_mode(&initial, 10), WindowMode::FreeSpace);

    send(
        &mut controller,
        &backend,
        ControllerCommand::SetDefaultApplicationMode(ApplicationDefault::TopRight),
    );
    let top = controller.snapshot();
    assert_eq!(top.default_application_mode, ApplicationDefault::TopRight);
    assert_eq!(candidate_mode(&top, 10), WindowMode::TopRight);
    assert!(top
        .status_message
        .to_ascii_lowercase()
        .contains("positioned 1 application window"));
    assert!(backend
        .moves
        .borrow()
        .iter()
        .any(|(id, rect)| *id == WindowId(10) && *rect == Rect::new(1852, 0, 900, 700)));
    assert_eq!(controller.config.default_application_mode, ApplicationDefault::TopRight);

    send(&mut controller, &backend, ControllerCommand::SetWindowMode { id: WindowId(10), mode: WindowMode::Ignored });
    assert_eq!(candidate_mode(&controller.snapshot(), 10), WindowMode::Ignored);
}

#[test]
fn enabling_auto_immediately_reapplies_selected_application_windows() {
    let backend = MockBackend::with_tables(1);
    let application = ordinary_candidate(10);
    backend.candidates.borrow_mut().push(application.clone());
    let mut config = manual();
    config.set_application_disposition(application.signature, CandidateDisposition::FreeSpace);
    let mut controller = start(&backend, config);
    let initial = controller.snapshot();
    assert_eq!(candidate_mode(&initial, 10), WindowMode::FreeSpace);
    assert!(!initial.auto_arrange);
    assert!(backend.moves.borrow().is_empty());

    send(&mut controller, &backend, ControllerCommand::SetAutoArrange(true));
    let enabled = controller.snapshot();
    assert!(enabled.auto_arrange);
    assert!(enabled.status_message.contains("positioned 1 application window"));
    assert!(backend.moves.borrow().iter().any(|(id, _)| *id == WindowId(10)));
}

#[test]
fn reordered_table_slots_survive_controller_restart() {
    let backend = MockBackend::with_tables(4);
    let mut controller = start(&backend, manual());
    assert_eq!(controller.snapshot().tables.len(), 4);
    send(
        &mut controller,
        &backend,
        ControllerCommand::MoveToSlot { source: WindowId(4), destination: PokerSlotId::club(0, 0) },
    );
    assert_eq!(ids(&controller.snapshot()), vec![4, 2, 3, 1]);

    let mut restarted_config = controller.config;
    restarted_config.auto_arrange = false;
    let restarted = start(&backend, restarted_config);
    let restored = restarted.snapshot();
    assert_eq!(restored.tables.len(), 4);
    assert_eq!(ids(&restored), vec![4, 2, 3, 1]);
}

#[test]
fn a_desktop_event_asks_for_discovery_and_shutdown_stops() {
    let backend = MockBackend::with_tables(1);
    let mut controller = start(&backend, manual());
    let before = controller.snapshot().status_message;
    assert_eq!(controller.handle(&backend, ControllerCommand::NativeWindowEvent), ControllerAction::ScheduleDiscovery);
    assert_eq!(controller.snapshot().status_message, before);
    assert_eq!(controller.handle(&backend, ControllerCommand::LocateClubGgLobbies), ControllerAction::LocateLobbies);
    assert_eq!(controller.handle(&backend, ControllerCommand::Shutdown), ControllerAction::Stop);
    assert_eq!(before, "1 poker table · 0 other windows discovered");
}

#[test]
fn toggling_the_focused_table_or_a_slot_flips_it() {
    let backend = MockBackend::with_tables(2);
    let mut controller = start(&backend, manual());
    backend.foreground.set(Some(WindowId(2)));
    send(&mut controller, &backend, ControllerCommand::ToggleFocused);
    assert!(!controller.tables.iter().find(|t| t.id == WindowId(2)).unwrap().enabled);
    send(&mut controller, &backend, ControllerCommand::ToggleSlot(1));
    assert!(controller.tables.iter().find(|t| t.id == WindowId(2)).unwrap().enabled);
    send(&mut controller, &backend, ControllerCommand::ToggleSlot(7));
    assert!(controller.tables.iter().all(|t| t.enabled));
}

#[test]
fn toggling_the_focused_window_touches_only_the_window_in_front() {
    let backend = MockBackend::with_tables(3);
    let mut controller = start(&backend, manual());
    backend.foreground.set(Some(WindowId(3)));
    send(&mut controller, &backend, ControllerCommand::ToggleFocused);
    let enabled: Vec<bool> = controller.tables.iter().map(|t| t.enabled).collect();
    assert_eq!(enabled, vec![true, true, false]);
    backend.foreground.set(Some(WindowId(42)));
    let before: Vec<bool> = controller.tables.iter().map(|t| t.enabled).collect();
    send(&mut controller, &backend, ControllerCommand::ToggleFocused);
    let after: Vec<bool> = controller.tables.iter().map(|t| t.enabled).collect();
    assert_eq!(before, after);
    backend.foreground.set(None);
    send(&mut controller, &backend, ControllerCommand::ToggleFocused);
    let after_none: Vec<bool> = controller.tables.iter().map(|t| t.enabled).collect();
    assert_eq!(before, after_none);
}

#[test]
fn locating_a_window_leaves_the_status_line_when_it_succeeds() {
    let backend = MockBackend::with_tables(2);
    let mut controller = start(&backend, manual());
    let before = controller.status_message.clone();
    let tables_before: Vec<bool> = controller.tables.iter().map(|t| t.enabled).collect();
    let action = controller.handle(&backend, ControllerCommand::Locate(WindowId(2)));
    assert_eq!(action, ControllerAction::Publish);
    assert_eq!(backend.located.borrow().as_slice(), [WindowId(2)]);
    assert_eq!(controller.status_message, before);
    let tables_after: Vec<bool> = controller.tables.iter().map(|t| t.enabled).collect();
    assert_eq!(tables_before, tables_after);
}

#[test]
fn lobbies_can_be_located_and_sent_to_a_mode_together() {
    let backend = MockBackend::with_tables(1);
    for id in [8, 9] {
        let mut lobby = candidate(id);
        lobby.is_clubgg_lobby = true;
        lobby.likely_table = false;
        backend.candidates.borrow_mut().push(lobby);
    }
    let mut controller = start(&backend, manual());
    let lobbies = controller.clubgg_lobby_ids();
    assert_eq!(lobbies, vec![WindowId(8), WindowId(9)]);
    assert!(!controller.record_lobby_located(WindowId(8), &Ok(())));
    assert!(controller.record_lobby_located(WindowId(9), &Err(BackendError::WindowGone)));
    controller.finish_lobby_location(2, 1);
    assert_eq!(controller.status_message, "Located 1 of 2 ClubGG lobbies.");
    let snapshot = controller.snapshot();
    let status = |id: u64| snapshot.candidates.iter().find(|c| c.id == WindowId(id)).unwrap().status.clone();
    assert_eq!(status(8), Some(TableStatus::Ready));
    assert_eq!(status(9), Some(TableStatus::MoveFailed("window no longer exists".to_owned())));
    controller.finish_lobby_location(1, 0);
    assert_eq!(controller.status_message, "Located 1 ClubGG lobby.");

    send(&mut controller, &backend, ControllerCommand::SetClubGgLobbiesMode(WindowMode::TopRight));
    let snapshot = controller.snapshot();
    assert_eq!(candidate_mode(&snapshot, 8), WindowMode::TopRight);
    assert_eq!(candidate_mode(&snapshot, 9), WindowMode::TopRight);
    assert_eq!(controller.handle(&backend, ControllerCommand::SetClubGgLobbiesMode(WindowMode::FreeSpace)), ControllerAction::Publish);
    assert_eq!(candidate_mode(&controller.snapshot(), 8), WindowMode::TopRight);
}

struct FailingBackend;

impl WindowBackend for FailingBackend {
    fn enumerate_candidates(&self) -> Result<Vec<WindowCandidate>, BackendError> {
        Err(BackendError::Other("enumeration refused".to_owned()))
    }
    fn monitors(&self) -> Result<Vec<MonitorInfo>, BackendError> {
        Ok(Vec::new())
    }
    fn move_resize(&self, _id: WindowId, rect: Rect) -> Result<Rect, BackendError> {
        Ok(rect)
    }
    fn minimum_size(&self, _id: WindowId, _ratio: AspectRatio) -> Result<Size, BackendError> {
        Err(BackendError::WindowGone)
    }
    fn locate(&self, _id: WindowId) -> Result<(), BackendError> {
        Err(BackendError::AccessDenied)
    }
    fn foreground_window(&self) -> Option<WindowId> {
        None
    }
}

#[test]
fn failures_are_reported_on_the_status_line() {
    let backend = FailingBackend;
    let mut controller = Controller::new(AppConfig::default());
    assert!(!controller.reconcile(&backend));
    assert_eq!(controller.status_message, "Window discovery failed: enumeration refused");
    controller.arrange(&backend);
    assert_eq!(controller.status_message, "No usable monitor found.");
    controller.handle(&backend, ControllerCommand::Locate(WindowId(3)));
    assert_eq!(controller.status_message, "Could not locate window: access denied");
}

#[test]
fn taking_in_listed_windows_manages_the_tables_and_gives_them_slots() {
    let mut controller = Controller::new(manual());
    let listed = vec![candidate(1), ordinary_candidate(2), candidate(3)];
    let changed = controller.take_in(&listed);
    assert!(changed);
    let managed: Vec<u64> = controller.tables.iter().map(|table| table.id.0).collect();
    assert_eq!(managed, vec![1, 3]);
    // Both tables stand in the first ClubGG column, in order.
    match &controller.config.poker_columns[0] {
        PokerColumnAssignment::ClubGg { top, bottom } => {
            assert_eq!(top.as_ref().map(|s| s.title_pattern.clone()), Some("synthetic table 1".to_owned()));
            assert_eq!(bottom.as_ref().map(|s| s.title_pattern.clone()), Some("synthetic table 3".to_owned()));
        }
        other => panic!("unexpected first column {other:?}"),
    }
    // Taking the same windows in again changes nothing.
    assert!(!controller.take_in(&listed));
    // A window that is gone loses its table and its slot.
    assert!(controller.take_in(&vec![candidate(3)]));
    let managed: Vec<u64> = controller.tables.iter().map(|table| table.id.0).collect();
    assert_eq!(managed, vec![3]);
    let assigned: Vec<String> = controller
        .config
        .poker_columns
        .iter()
        .flat_map(|column| match column {
            PokerColumnAssignment::ClubGg { top, bottom } => {
                vec![top.clone(), bottom.clone()].into_iter().flatten().collect::<Vec<_>>()
            }
            PokerColumnAssignment::LdPlayer { table } => table.iter().cloned().collect(),
            PokerColumnAssignment::Empty => Vec::new(),
        })
        .map(|signature| signature.title_pattern)
        .collect();
    assert_eq!(assigned, vec!["synthetic table 3".to_owned()]);
}

#[test]
fn toggling_a_slot_beyond_the_tables_changes_nothing() {
    let backend = MockBackend::with_tables(2);
    let mut controller = start(&backend, manual());
    let before: Vec<bool> = controller.tables.iter().map(|table| table.enabled).collect();
    let moves = backend.moves.borrow().len();
    assert_eq!(send(&mut controller, &backend, ControllerCommand::ToggleSlot(9)), ControllerAction::Publish);
    let after: Vec<bool> = controller.tables.iter().map(|table| table.enabled).collect();
    assert_eq!(before, after);
    assert_eq!(backend.moves.borrow().len(), moves);
    assert_eq!(send(&mut controller, &backend, ControllerCommand::ToggleSlot(1)), ControllerAction::Publish);
    assert!(!controller.tables[1].enabled);
    assert!(controller.tables[0].enabled);
}

#[test]
fn identical_names_are_moved_as_separate_windows() {
    let backend = MockBackend::with_tables(2);
    {
        let mut candidates = backend.candidates.borrow_mut();
        let shared = candidates[0].signature.clone();
        candidates[1].signature = shared;
        candidates[1].label = candidates[0].label.clone();
    }
    let mut controller = start(&backend, manual());
    assert_eq!(controller.snapshot().tables.len(), 2);
    backend.moves.borrow_mut().clear();

    send(&mut controller, &backend, ControllerCommand::ForceArrange);
    let first = backend.last_rect(1).expect("the first window moves");
    let second = backend.last_rect(2).expect("the second window moves");
    assert_ne!(first, second);
    assert_eq!(first, Rect::new(0, 0, 736, 552));
    assert_eq!(second, Rect::new(0, 552, 736, 552));
}

#[test]
fn fill_space_takes_the_strip_even_below_the_window_minimum() {
    let backend = MockBackend::with_tables(2);
    backend.candidates.borrow_mut().push(ordinary_candidate(10));
    backend.large_minimum.set(Some((10, Size::new(2000, 2000))));
    let mut controller = start(&backend, manual());
    send(
        &mut controller,
        &backend,
        ControllerCommand::SetWindowMode { id: WindowId(10), mode: WindowMode::FreeSpace },
    );
    let strip = backend.last_rect(10).expect("the window is sent to the strip");
    assert_eq!(strip, Rect::new(1472, 0, 1280, 1104));
    let snapshot = controller.snapshot();
    let status = snapshot.candidates.iter().find(|c| c.id == WindowId(10)).unwrap().status.clone();
    assert_eq!(status, Some(TableStatus::Ready));
}

#[test]
fn a_refused_listing_only_reports_the_failure() {
    let backend = MockBackend::with_tables(2);
    let mut controller = start(&backend, manual());
    let before = controller.snapshot();
    assert!(!controller.apply_listing(&backend, Err(BackendError::AccessDenied), Ok(Vec::new())));
    assert_eq!(controller.status_message, "Window discovery failed: access denied");
    let after = controller.snapshot();
    assert_eq!(ids(&after), ids(&before));
    assert_eq!(candidate_ids(&after), candidate_ids(&before));
}

#[test]
fn a_listing_is_taken_in_with_new_tables_enabled_unless_parked() {
    let backend = MockBackend::with_tables(0);
    let mut controller = start(&backend, manual());
    let mut parked = candidate(2);
    parked.label = "Parked table".to_owned();
    controller
        .config
        .set_disposition(parked.signature.clone(), CandidateDisposition::Parked);
    assert!(controller.apply_listing(&backend, Ok(vec![candidate(1), parked]), backend.monitors()));
    let snapshot = controller.snapshot();
    assert_eq!(ids(&snapshot), vec![1, 2]);
    assert!(controller.tables[0].enabled);
    assert!(!controller.tables[1].enabled);
}

#[test]
fn a_refused_monitor_listing_leaves_no_monitor() {
    let backend = MockBackend::with_tables(1);
    let mut controller = start(&backend, manual());
    assert_eq!(controller.monitors.len(), 1);
    assert!(controller.apply_listing(&backend, Ok(vec![candidate(1)]), Err(BackendError::AccessDenied)));
    assert!(controller.monitors.is_empty());
    assert!(controller.dirty);
    assert_eq!(ids(&controller.snapshot()), vec![1]);
}

#[test]
fn a_closed_table_leaves_its_whole_column_as_an_empty_target() {
    let backend = MockBackend::with_tables(5);
    let mut controller = start(&backend, manual());
    assert_eq!(controller.config.poker_columns.len(), 3);
    let first_two = clone_columns(&controller.config.poker_columns[..2].to_vec());
    assert!(controller.config.poker_placeholders.is_empty());

    backend.candidates.borrow_mut().retain(|candidate| candidate.id != WindowId(5));
    assert!(controller.reconcile(&backend));
    assert_eq!(controller.snapshot().tables.len(), 4);
    assert_eq!(controller.config.poker_columns.len(), 3);
    assert!(same_columns(&clone_columns(&controller.config.poker_columns[..2].to_vec()), &first_two));
    assert!(matches!(
        controller.config.poker_columns[2],
        PokerColumnAssignment::ClubGg { top: None, bottom: None }
    ));
    assert_eq!(controller.config.poker_placeholders, vec![PokerSlotId::club(2, 0)]);

    assert!(controller.reconcile(&backend));
    assert_eq!(controller.config.poker_columns.len(), 3);
    assert_eq!(controller.config.poker_placeholders, vec![PokerSlotId::club(2, 0)]);

    backend.candidates.borrow_mut().push(candidate(6));
    assert!(controller.reconcile(&backend));
    assert_eq!(controller.config.poker_columns.len(), 3);
    assert!(controller.config.poker_placeholders.is_empty());
    assert_eq!(slot_of(&controller.snapshot(), 6), PokerSlotId::club(2, 0));
}

#[test]
fn turning_preservation_off_forgets_the_holes() {
    let backend = MockBackend::with_tables(5);
    let mut controller = start(&backend, manual());
    backend.candidates.borrow_mut().retain(|candidate| candidate.id != WindowId(5));
    assert!(controller.reconcile(&backend));
    assert_eq!(controller.config.poker_placeholders.len(), 1);

    send(&mut controller, &backend, ControllerCommand::SetPreserveTableSlots(false));
    assert!(controller.config.poker_placeholders.is_empty());
    assert_eq!(controller.config.poker_columns.len(), 2);
}
