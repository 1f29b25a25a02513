use clubgg_table_arranger::overlay::{
    adjusted_font_size, apply_menu_command, count_down, overlay_placement, parse_settings, rgb,
    roll, settings_text, wheel_size_change, OverlaySettings,
};

#[test]
fn overlay_defaults_are_yellow_top_right_every_minute() {
    let s = OverlaySettings::default();
    assert_eq!(s.interval_seconds, 60);
    assert_eq!(s.color, rgb(255, 213, 0));
    assert_eq!(s.font_size, 150);
    assert_eq!(s.corner, 1);
}

#[test]
fn rgb_packs_red_in_the_low_byte() {
    assert_eq!(rgb(255, 213, 0), 0x00D5FF);
    assert_eq!(rgb(1, 2, 3), 0x030201);
}

#[test]
fn settings_file_round_trips() {
    let s = OverlaySettings {
        interval_seconds: 300,
        color: rgb(74, 163, 255),
        font_size: 210,
        corner: 3,
    };
    let text = settings_text(&s);
    assert_eq!(text, "interval=300\ncolor=16753482\nsize=210\ncorner=3\n");
    assert_eq!(parse_settings(OverlaySettings::default(), &text), s);
}

#[test]
fn settings_file_values_are_kept_in_range() {
    let base = OverlaySettings::default();
    let read = parse_settings(base, "interval=0\nsize=9999\ncorner=7\n");
    assert_eq!(read.interval_seconds, 1);
    assert_eq!(read.font_size, 400);
    assert_eq!(read.corner, 3);
    let read = parse_settings(base, "interval=100000\r\nsize=-5\r\n");
    assert_eq!(read.interval_seconds, 86400);
    assert_eq!(read.font_size, 40);
}

#[test]
fn settings_file_ignores_what_it_cannot_read() {
    let base = OverlaySettings::default();
    let read = parse_settings(
        base,
        "interval=abc\ncolor=-1\nsize=\nbogus=3\nno equals here\ncorner=+2",
    );
    assert_eq!(read.interval_seconds, 60);
    assert_eq!(read.color, base.color);
    assert_eq!(read.font_size, 150);
    assert_eq!(read.corner, 2);
    let read = parse_settings(base, "interval=2147483648\ncolor=4294967296\n");
    assert_eq!(read, base);
    let read = parse_settings(base, "interval=-2147483648\ncolor=4294967295\n");
    assert_eq!(read.interval_seconds, 1);
    assert_eq!(read.color, u32::MAX);
    assert_eq!(parse_settings(base, ""), base);
}

#[test]
fn menu_entries_change_one_setting_each() {
    let base = OverlaySettings::default();
    let (s, effect) = apply_menu_command(base, 130);
    assert_eq!(s.interval_seconds, 30);
    assert!(effect.restart_countdown && effect.save && effect.redraw && !effect.relayout);
    let (s, effect) = apply_menu_command(base, 204);
    assert_eq!(s.color, rgb(76, 235, 115));
    assert!(!effect.restart_countdown && effect.save && effect.redraw);
    let (s, effect) = apply_menu_command(base, 302);
    assert_eq!(s.font_size, 160);
    assert!(effect.relayout && !effect.redraw);
    let (s, _) = apply_menu_command(OverlaySettings { font_size: 45, ..base }, 301);
    assert_eq!(s.font_size, 40);
    let (s, _) = apply_menu_command(OverlaySettings { font_size: 90, ..base }, 303);
    assert_eq!(s.font_size, 150);
    let (s, effect) = apply_menu_command(base, 403);
    assert_eq!(s.corner, 2);
    assert!(effect.relayout && effect.save);
    let (s, effect) = apply_menu_command(base, 900);
    assert_eq!(s, base);
    assert!(effect.close && !effect.save && !effect.redraw && !effect.relayout);
    let (s, effect) = apply_menu_command(base, 0);
    assert_eq!(s, base);
    assert!(!effect.close && !effect.save && !effect.redraw && !effect.relayout);
}

#[test]
fn font_size_changes_stay_between_forty_and_four_hundred() {
    assert_eq!(adjusted_font_size(150, 5), 155);
    assert_eq!(adjusted_font_size(42, -5), 40);
    assert_eq!(adjusted_font_size(398, 5), 400);
    assert_eq!(wheel_size_change(120), 5);
    assert_eq!(wheel_size_change(-120), -5);
    assert_eq!(wheel_size_change(0), 0);
}

#[test]
fn overlay_sits_twenty_four_pixels_in_from_its_corner() {
    // 150 px: 407 wide, 257 high.
    assert_eq!(overlay_placement(0, 0, 1920, 1040, 150, 1), (1920 - 407 - 24, 24, 407, 257));
    assert_eq!(overlay_placement(0, 0, 1920, 1040, 150, 0), (24, 24, 407, 257));
    assert_eq!(
        overlay_placement(0, 0, 1920, 1040, 150, 3),
        (1920 - 407 - 24, 1040 - 257 - 24, 407, 257)
    );
    // The smallest number still gets a 140 x 100 window.
    assert_eq!(overlay_placement(100, 50, 900, 650, 40, 2), (124, 650 - 100 - 24, 140, 100));
}

#[test]
fn numbers_fall_between_one_and_one_hundred() {
    let mut state = 0u64;
    for seed in [0u64, 1, 42, u64::MAX] {
        for _ in 0..200 {
            let (next, number) = roll(state, seed);
            assert!((1..=100).contains(&number));
            assert_ne!(next, state);
            state = next;
        }
        state = 0;
    }
    // A seeded state is used as it is; an unseeded one is mixed first.
    let (from_seed, _) = roll(0, 7);
    let (from_state, _) = roll(7 ^ 0x9E37_79B9_7F4A_7C15, 0);
    assert_eq!(from_seed, from_state);
}

#[test]
fn countdown_asks_for_a_number_at_zero() {
    assert_eq!(count_down(5), (4, false));
    assert_eq!(count_down(1), (0, true));
    assert_eq!(count_down(0), (-1, true));
}
