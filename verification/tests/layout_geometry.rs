use clubgg_table_arranger::layout::{
    calculate_mixed_layout, default_aspect_ratio, normalized_ldplayer_aspect_ratio,
    right_side_free_rect, PokerColumnSpec, LDPLAYER_NATURAL_RATIO_SCALED,
};
use clubgg_table_arranger::model::{AspectRatio, Rect, Size};
use clubgg_table_arranger::placement::{
    advance_park_cursor, fallback_minimum_size, park_slot, top_right_rect, ParkCursor,
};

fn natural() -> AspectRatio {
    AspectRatio { scaled: LDPLAYER_NATURAL_RATIO_SCALED }
}

#[test]
fn mixed_columns_keep_clubgg_paired_and_ldplayer_full_height() {
    let work = Rect::new(0, 0, 2752, 1104);
    let layout = calculate_mixed_layout(
        work,
        &[
            PokerColumnSpec::ClubGg,
            PokerColumnSpec::ClubGg,
            PokerColumnSpec::LdPlayer { aspect_ratio: natural() },
        ],
    );

    assert_eq!(layout.height, work.height);
    assert_eq!(layout.columns.len(), 3);
    for column in &layout.columns[..2] {
        let top = column.top.unwrap();
        let bottom = column.bottom.unwrap();
        assert_eq!(top.height, work.height / 2);
        assert_eq!(bottom.top, top.bottom());
        assert_eq!(top.width as f64 / top.height as f64, 4.0 / 3.0);
    }
    let ldplayer = &layout.columns[2];
    assert!(ldplayer.top.is_none() && ldplayer.bottom.is_none());
    assert_eq!(ldplayer.bounds.height, work.height);
    assert_eq!(ldplayer.bounds.left, layout.columns[1].bounds.right());
}

#[test]
fn ldplayer_ratio_keeps_the_natural_portrait_width_as_its_minimum() {
    let half = AspectRatio { scaled: 2147483648 };
    let wider = AspectRatio { scaled: 2791728742 };
    assert_eq!(normalized_ldplayer_aspect_ratio(half), natural());
    assert_eq!(normalized_ldplayer_aspect_ratio(wider), wider);
    assert_eq!(normalized_ldplayer_aspect_ratio(AspectRatio { scaled: 0 }), natural());
}

#[test]
fn crowded_mixed_columns_shrink_together_without_overlap() {
    let work = Rect::new(0, 0, 1920, 1040);
    let layout = calculate_mixed_layout(
        work,
        &[
            PokerColumnSpec::ClubGg,
            PokerColumnSpec::ClubGg,
            PokerColumnSpec::ClubGg,
            PokerColumnSpec::LdPlayer { aspect_ratio: natural() },
            PokerColumnSpec::LdPlayer { aspect_ratio: natural() },
        ],
    );

    assert!(layout.height < work.height);
    assert_eq!(layout.height % 2, 0);
    assert!(layout.columns.last().unwrap().bounds.right() <= work.right());
    for pair in layout.columns.windows(2) {
        assert_eq!(pair[0].bounds.right(), pair[1].bounds.left);
    }
}

#[test]
fn free_rectangle_uses_only_the_right_side_of_tables() {
    let work_area = Rect::new(0, 0, 1200, 800);
    let occupied = [
        Rect::new(0, 0, 400, 300),
        Rect::new(400, 0, 400, 300),
        Rect::new(0, 300, 400, 300),
    ];

    assert_eq!(
        right_side_free_rect(work_area, &occupied),
        Rect::new(800, 0, 400, 800)
    );
}

#[test]
fn entire_work_area_is_free_without_tables() {
    let work_area = Rect::new(-1920, 0, 1920, 1040);
    assert_eq!(right_side_free_rect(work_area, &[]), work_area);
}

#[test]
fn rectangles_outside_the_work_area_do_not_take_space() {
    let work_area = Rect::new(0, 0, 1000, 500);
    let occupied = [Rect::new(2000, 0, 300, 300), Rect::new(0, 0, 250, 500)];
    assert_eq!(right_side_free_rect(work_area, &occupied), Rect::new(250, 0, 750, 500));
    assert_eq!(right_side_free_rect(Rect::new(0, 0, 0, 500), &occupied), Rect::new(0, 0, 0, 0));
}

#[test]
fn a_single_pair_fills_the_height_in_four_three_cells() {
    let layout = calculate_mixed_layout(Rect::new(100, 50, 3000, 1000), &[PokerColumnSpec::ClubGg]);
    assert_eq!(layout.height, 1000);
    let column = layout.columns[0];
    assert_eq!(column.bounds, Rect::new(100, 50, 666, 1000));
    assert_eq!(column.top, Some(Rect::new(100, 50, 666, 500)));
    assert_eq!(column.bottom, Some(Rect::new(100, 550, 666, 500)));
    assert_eq!(default_aspect_ratio().scaled, 5726623062);
}

#[test]
fn nothing_is_laid_out_without_columns_or_space() {
    let empty = calculate_mixed_layout(Rect::new(0, 0, 1920, 1080), &[]);
    assert_eq!(empty.height, 0);
    assert!(empty.columns.is_empty());
    let flat = calculate_mixed_layout(Rect::new(0, 0, 1920, 0), &[PokerColumnSpec::ClubGg]);
    assert!(flat.columns.is_empty());
}

#[test]
fn parked_windows_fill_rows_leftwards_then_upwards() {
    let work = Rect::new(0, 0, 1000, 600);
    let mut cursor = ParkCursor { right: work.right(), bottom: work.bottom(), row_height: 0 };
    let mut placed = Vec::new();
    for _ in 0..4 {
        let (rect, from) = park_slot(work, cursor, Size::new(400, 300));
        cursor = advance_park_cursor(from, rect.left, rect.height);
        placed.push(rect);
    }
    assert_eq!(
        placed,
        vec![
            Rect::new(600, 300, 400, 300),
            Rect::new(200, 300, 400, 300),
            Rect::new(600, 0, 400, 300),
            Rect::new(200, 0, 400, 300),
        ]
    );
    for (i, a) in placed.iter().enumerate() {
        for b in placed.iter().skip(i + 1) {
            let apart = a.right() <= b.left || b.right() <= a.left || a.bottom() <= b.top || b.bottom() <= a.top;
            assert!(apart, "{a:?} overlaps {b:?}");
        }
    }
}

#[test]
fn parked_windows_are_clamped_to_the_work_area() {
    let work = Rect::new(100, 50, 300, 200);
    let cursor = ParkCursor { right: work.right(), bottom: work.bottom(), row_height: 0 };
    let (rect, _) = park_slot(work, cursor, Size::new(900, 900));
    assert_eq!(rect, Rect::new(100, 50, 300, 200));
    assert_eq!(fallback_minimum_size(), Size::new(240, 180));
}

#[test]
fn top_right_windows_keep_their_size_inside_the_work_area() {
    let work = Rect::new(-1920, 0, 1920, 1040);
    assert_eq!(
        top_right_rect(work, Rect::new(10, 10, 800, 600)),
        Rect::new(-800, 0, 800, 600)
    );
    assert_eq!(
        top_right_rect(work, Rect::new(10, 10, 5000, 0)),
        Rect::new(-1920, 0, 1920, 1)
    );
}

#[test]
fn columns_that_fit_use_the_full_height() {
    let layout = calculate_mixed_layout(Rect::new(0, 0, 1920, 1041), &[PokerColumnSpec::ClubGg]);
    assert_eq!(layout.height, 1040);
    let layout = calculate_mixed_layout(
        Rect::new(0, 0, 1920, 1041),
        &[PokerColumnSpec::LdPlayer { aspect_ratio: natural() }],
    );
    assert_eq!(layout.height, 1041);
}

#[test]
fn learnt_ldplayer_ratio_keeps_the_column_width() {
    let learnt = AspectRatio::from_dimensions(700, 1104).unwrap();
    let spec = PokerColumnSpec::LdPlayer { aspect_ratio: normalized_ldplayer_aspect_ratio(learnt) };
    let layout = calculate_mixed_layout(Rect::new(0, 0, 2752, 1104), &[spec]);
    assert_eq!(layout.columns[0].bounds.width, 700);
    let again = AspectRatio::from_dimensions(layout.columns[0].bounds.width, layout.columns[0].bounds.height).unwrap();
    let spec = PokerColumnSpec::LdPlayer { aspect_ratio: normalized_ldplayer_aspect_ratio(again) };
    let layout = calculate_mixed_layout(Rect::new(0, 0, 2752, 1104), &[spec]);
    assert_eq!(layout.columns[0].bounds.width, 700);
}
