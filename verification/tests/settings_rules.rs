use clubgg_table_arranger::config::{AppConfig, ApplicationDefault, HotkeySettings};
use clubgg_table_arranger::model::{CandidateDisposition, WindowSignature};

fn signature(process: &str, class: &str, title: &str) -> WindowSignature {
    WindowSignature {
        process_name: process.to_owned(),
        class_name: class.to_owned(),
        title_pattern: title.to_owned(),
    }
}

#[test]
fn detection_rule_last_write_wins() {
    let signature = signature("clubgg.exe", "table", "table #");
    let mut config = AppConfig::default();
    config.set_disposition(signature.clone(), CandidateDisposition::Ignored);
    config.set_disposition(signature.clone(), CandidateDisposition::Table);
    config.set_disposition(signature.clone(), CandidateDisposition::FreeSpace);
    config.set_disposition(signature.clone(), CandidateDisposition::Parked);
    assert_eq!(
        config.disposition_for(&signature),
        Some(CandidateDisposition::Parked)
    );
    assert_eq!(config.detection_rules.len(), 1);
}

#[test]
fn application_rules_use_exact_choice_then_stable_process_fallback() {
    let first = signature("browser.exe", "BrowserWindow", "first page");
    let second = WindowSignature {
        title_pattern: "different page".to_owned(),
        ..first.clone()
    };
    let mut config = AppConfig::default();
    config.set_application_disposition(first.clone(), CandidateDisposition::FreeSpace);
    config.set_application_disposition(second.clone(), CandidateDisposition::TopRight);

    assert_eq!(
        config.disposition_for(&first),
        Some(CandidateDisposition::FreeSpace)
    );
    assert_eq!(
        config.disposition_for(&second),
        Some(CandidateDisposition::TopRight)
    );
    assert_eq!(
        config.disposition_for(&WindowSignature {
            title_pattern: "new session title".to_owned(),
            ..first
        }),
        Some(CandidateDisposition::TopRight)
    );
}

#[test]
fn saving_one_choice_leaves_other_signatures_alone() {
    let table = signature("clubgg.exe", "table", "nl #");
    let other = signature("clubgg.exe", "table", "plo #");
    let mut config = AppConfig::default();
    config.set_disposition(table.clone(), CandidateDisposition::Table);
    config.set_disposition(other.clone(), CandidateDisposition::Parked);
    config.set_disposition(table.clone(), CandidateDisposition::Ignored);
    assert_eq!(config.disposition_for(&other), Some(CandidateDisposition::Parked));
    assert_eq!(config.disposition_for(&table), Some(CandidateDisposition::Ignored));
    assert_eq!(config.exact_disposition_for(&signature("clubgg.exe", "table", "x")), None);
}

#[test]
fn removing_the_process_fallback_stops_it_from_applying() {
    let page = signature("browser.exe", "BrowserWindow", "page");
    let mut config = AppConfig::default();
    config.set_application_disposition(page.clone(), CandidateDisposition::TopRight);
    assert!(config.remove_process_class_fallback(&page));
    assert_eq!(config.disposition_for(&page), Some(CandidateDisposition::TopRight));
    assert_eq!(
        config.disposition_for(&signature("browser.exe", "BrowserWindow", "other")),
        None
    );
    assert!(!config.remove_process_class_fallback(&page));
}

#[test]
fn defaults_match_a_fresh_installation() {
    let config = AppConfig::default();
    assert!(config.auto_arrange);
    assert!(config.preserve_table_slots);
    assert_eq!(config.default_application_mode, ApplicationDefault::Ignored);
    assert_eq!(ApplicationDefault::Ignored.disposition(), CandidateDisposition::Ignored);
    let hotkeys = HotkeySettings::default();
    assert_eq!(hotkeys.arrange_now, "Ctrl+Shift+A");
    assert_eq!(hotkeys.show_panel, "Ctrl+Shift+P");
    assert_eq!(hotkeys.locate_clubgg_lobbies, "Ctrl+Shift+G");
}

#[test]
fn old_files_gain_process_fallbacks_for_placed_windows() {
    let page = signature("browser.exe", "BrowserWindow", "page");
    let mut config = AppConfig::default();
    config.version = 3;
    config.set_disposition(page.clone(), CandidateDisposition::FreeSpace);
    config.migrate();
    assert_eq!(
        config.disposition_for(&signature("browser.exe", "BrowserWindow", "another")),
        Some(CandidateDisposition::FreeSpace)
    );
    assert_eq!(config.detection_rules.len(), 2);
}
