use sys_tap_bpm::canvas::{Canvas, Color};
use sys_tap_bpm::icon::{
    digit_style, digit_width, indicator_cell_x, indicator_cell_y, render_icon_pixels,
    render_idle_icon_pixels, render_tray_icon, visible_start_state, IconMetrics,
    IconRenderError, IconState, IconTheme, TrayIconRender, DIGIT_BITMAPS, ICON_SIZE,
};

fn rgba(channels: [u8; 4]) -> Color {
    Color::new(channels[0], channels[1], channels[2], channels[3])
}

fn count_pixels(canvas: &Canvas, color: Color) -> usize {
    let mut count = 0;
    for y in 0..canvas.height() {
        for x in 0..canvas.width() {
            if canvas.pixel(x, y) == color {
                count += 1;
            }
        }
    }
    count
}

fn render(bpm: Option<u16>, state: IconState, tap_count: usize) -> TrayIconRender {
    TrayIconRender {
        bpm,
        state,
        tap_count,
        stable_tap_dots: 24,
        theme: IconTheme::default(),
        metrics: IconMetrics::default(),
    }
}

#[test]
fn idle_icon_uses_idle_background() {
    let render = TrayIconRender {
        bpm: None,
        state: IconState::Idle,
        tap_count: 0,
        stable_tap_dots: 24,
        theme: IconTheme::default(),
        metrics: IconMetrics::default(),
    };

    let canvas = render_icon_pixels(render);

    assert_eq!(canvas.width(), 20);
    assert_eq!(canvas.height(), 20);
    assert_eq!(canvas.pixel(4, 12), rgba([51, 65, 85, 255]));
    assert_eq!(canvas.pixel(10, 5), rgba([248, 250, 252, 255]));
    assert_eq!(canvas.pixel(0, 0), rgba([51, 65, 85, 255]));
}

#[test]
fn collecting_icon_uses_lower_grid_indicators() {
    let render = TrayIconRender {
        bpm: None,
        state: IconState::Collecting,
        tap_count: 1,
        stable_tap_dots: 24,
        theme: IconTheme::default(),
        metrics: IconMetrics::default(),
    };

    let canvas = render_icon_pixels(render);

    let filled_cell_pixels = count_pixels(&canvas, rgba([64, 212, 255, 255]));

    assert_eq!(canvas.pixel(10, 5), rgba([255, 255, 0, 255]));
    assert_eq!(canvas.pixel(0, 12), rgba([64, 212, 255, 255]));
    assert_eq!(canvas.pixel(2, 12), rgba([67, 67, 67, 255]));
    assert_eq!(canvas.pixel(19, 19), rgba([67, 67, 67, 255]));
    assert!(filled_cell_pixels >= 4);
}

#[test]
fn eighth_state_connects_full_completed_row() {
    let render = TrayIconRender {
        bpm: None,
        state: IconState::Collecting,
        tap_count: 8,
        stable_tap_dots: 24,
        theme: IconTheme::default(),
        metrics: IconMetrics::default(),
    };

    let canvas = render_icon_pixels(render);

    assert_eq!(canvas.pixel(2, 12), rgba([64, 212, 255, 255]));
    assert_eq!(canvas.pixel(2, 13), rgba([64, 212, 255, 255]));
}

#[test]
fn stable_full_grid_highlights_newest_cell() {
    let render = TrayIconRender {
        bpm: Some(120),
        state: IconState::Stable,
        tap_count: 24,
        stable_tap_dots: 24,
        theme: IconTheme::default(),
        metrics: IconMetrics::default(),
    };

    let canvas = render_icon_pixels(render);
    let newest_pixels = count_pixels(&canvas, rgba([64, 212, 255, 255]));

    assert!(newest_pixels > 0);
}

#[test]
fn twenty_third_tap_keeps_seven_cells_on_bottom_row() {
    let render = TrayIconRender {
        bpm: None,
        state: IconState::Collecting,
        tap_count: 23,
        stable_tap_dots: 24,
        theme: IconTheme::default(),
        metrics: IconMetrics::default(),
    };

    let canvas = render_icon_pixels(render);

    assert_eq!(canvas.pixel(18, 18), rgba([64, 212, 255, 255]));
    assert_eq!(canvas.pixel(2, 18), rgba([67, 67, 67, 255]));
}

#[test]
fn full_grid_rolls_by_completed_rows_on_twenty_fourth_tap() {
    let render = TrayIconRender {
        bpm: None,
        state: IconState::Collecting,
        tap_count: 24,
        stable_tap_dots: 24,
        theme: IconTheme::default(),
        metrics: IconMetrics::default(),
    };

    let canvas = render_icon_pixels(render);

    assert_eq!(canvas.pixel(0, 12), rgba([64, 212, 255, 255]));
    assert_eq!(canvas.pixel(2, 12), rgba([64, 212, 255, 255]));
    assert_eq!(canvas.pixel(0, 15), rgba([64, 212, 255, 255]));
    assert_eq!(canvas.pixel(2, 15), rgba([64, 212, 255, 255]));
    assert_eq!(canvas.pixel(0, 18), rgba([67, 67, 67, 255]));
    assert_eq!(canvas.pixel(2, 18), rgba([67, 67, 67, 255]));
}

#[test]
fn three_digit_numbers_are_drawn_inside_icon() {
    let render = TrayIconRender {
        bpm: Some(240),
        state: IconState::Stable,
        tap_count: 4,
        stable_tap_dots: 24,
        theme: IconTheme::default(),
        metrics: IconMetrics::default(),
    };

    let canvas = render_icon_pixels(render);
    let foreground_pixels = count_pixels(&canvas, rgba([255, 255, 0, 255]));

    assert!(foreground_pixels > 30);
    assert_eq!(canvas.pixel(0, 0), rgba([255, 255, 0, 255]));
    assert_eq!(canvas.pixel(1, 11), rgba([67, 67, 67, 255]));
    assert_eq!(canvas.pixel(19, 19), rgba([67, 67, 67, 255]));
}

#[test]
fn icon_uses_direct_twenty_unit_backing_resolution() {
    let render = TrayIconRender {
        bpm: Some(120),
        state: IconState::Stable,
        tap_count: 4,
        stable_tap_dots: 24,
        theme: IconTheme::default(),
        metrics: IconMetrics,
    };

    let canvas = render_icon_pixels(render);

    assert_eq!(canvas.width(), 20);
    assert_eq!(canvas.height(), 20);
}

#[test]
fn visible_start_rolls_by_whole_rows() {
    assert_eq!(visible_start_state(0), 0);
    assert_eq!(visible_start_state(1), 0);
    assert_eq!(visible_start_state(15), 0);
    assert_eq!(visible_start_state(23), 0);
    assert_eq!(visible_start_state(24), 8);
    assert_eq!(visible_start_state(31), 8);
    assert_eq!(visible_start_state(32), 16);
    for taps in 1..200usize {
        let start = visible_start_state(taps);
        assert_eq!(start % 8, 0);
        assert!(start <= taps - 1 && taps - 1 < start + 24);
        let next = visible_start_state(taps + 1);
        assert!(start <= next && next <= start + 8);
    }
}

#[test]
fn grid_cell_positions() {
    assert_eq!(indicator_cell_x(0), 0);
    assert_eq!(indicator_cell_x(6), 18);
    assert_eq!(indicator_cell_y(0), 12);
    assert_eq!(indicator_cell_y(2), 18);
}

#[test]
fn digit_styles_and_widths() {
    let one = digit_style(1);
    assert_eq!(one.column_widths, [2, 2, 2, 2, 2]);
    assert_eq!(one.gap, 0);
    assert_eq!(digit_width(one), 10);
    let two = digit_style(2);
    assert_eq!(two.column_widths, [2, 1, 2, 1, 2]);
    assert_eq!(two.gap, 4);
    assert_eq!(digit_width(two), 8);
    let three = digit_style(3);
    assert_eq!(three.column_widths, [1, 1, 2, 1, 1]);
    assert_eq!(three.gap, 1);
    assert_eq!(three.row_heights, [2, 1, 2, 1, 2, 1, 2]);
    assert_eq!(three.y, 0);
    assert_eq!(digit_width(three), 6);
    assert_eq!(digit_width(digit_style(0)), 10);
    assert_eq!(digit_width(digit_style(7)), 6);
}

#[test]
fn glyph_table_holds_ten_digits() {
    assert_eq!(DIGIT_BITMAPS.len(), 10);
    assert_eq!(DIGIT_BITMAPS[1][0], 0b00110);
    assert_eq!(DIGIT_BITMAPS[7][6], 0b01100);
}

#[test]
fn single_digit_is_centred() {
    // One digit: 10 pixels wide, starting at x = 5; "1" lights columns 2-3 of its top row.
    let canvas = render_icon_pixels(render(Some(1), IconState::Stable, 4));
    let yellow = rgba([255, 255, 0, 255]);
    let grey = rgba([67, 67, 67, 255]);
    assert_eq!(canvas.pixel(9, 0), yellow);
    assert_eq!(canvas.pixel(12, 1), yellow);
    assert_eq!(canvas.pixel(8, 0), grey);
    assert_eq!(canvas.pixel(4, 19), grey);
    // Bottom row of "1" is full: x from 5 to 14 at y 9..11.
    assert_eq!(canvas.pixel(5, 10), yellow);
    assert_eq!(canvas.pixel(14, 10), yellow);
    assert_eq!(canvas.pixel(15, 10), grey);
}

#[test]
fn two_digits_use_the_wide_gap() {
    // "88": each digit 8 wide, gap 4: first digit x 0..8, second x 12..20.
    let canvas = render_icon_pixels(render(Some(88), IconState::Stable, 4));
    let yellow = rgba([255, 255, 0, 255]);
    let grey = rgba([67, 67, 67, 255]);
    assert_eq!(canvas.pixel(0, 0), yellow);
    assert_eq!(canvas.pixel(7, 0), yellow);
    assert_eq!(canvas.pixel(9, 0), grey);
    assert_eq!(canvas.pixel(12, 0), yellow);
    assert_eq!(canvas.pixel(19, 0), yellow);
    // The hollow middle of "8" in its second row.
    assert_eq!(canvas.pixel(3, 2), grey);
}

#[test]
fn large_tempo_is_capped_at_999() {
    let capped = render_icon_pixels(render(Some(4_321), IconState::Stable, 4));
    let nines = render_icon_pixels(render(Some(999), IconState::Stable, 4));
    for y in 0..20 {
        for x in 0..20 {
            assert_eq!(capped.pixel(x, y), nines.pixel(x, y));
        }
    }
}

#[test]
fn zero_stable_dots_draws_no_grid() {
    let mut render = render(None, IconState::Collecting, 5);
    render.stable_tap_dots = 0;
    let canvas = render_icon_pixels(render);
    let grey = rgba([67, 67, 67, 255]);
    for y in 12..20 {
        for x in 0..20 {
            assert_eq!(canvas.pixel(x, y), grey);
        }
    }
}

#[test]
fn newest_tap_is_highlighted_once_stable() {
    let mut theme = IconTheme::default();
    theme.collecting.newest_dot = rgba([1, 2, 3, 255]);
    let render_at = |tap_count: usize| TrayIconRender {
        bpm: None,
        state: IconState::Collecting,
        tap_count,
        stable_tap_dots: 3,
        theme,
        metrics: IconMetrics,
    };
    // Two taps, below the stable count: no highlight.
    let canvas = render_icon_pixels(render_at(2));
    assert_eq!(canvas.pixel(3, 12), rgba([64, 212, 255, 255]));
    // Three taps: the third state (column 2) is the newest.
    let canvas = render_icon_pixels(render_at(3));
    assert_eq!(canvas.pixel(6, 12), rgba([1, 2, 3, 255]));
    assert_eq!(canvas.pixel(3, 12), rgba([64, 212, 255, 255]));
    // Eight taps: the newest is the connector of the first row.
    let canvas = render_icon_pixels(render_at(8));
    assert_eq!(canvas.pixel(2, 12), rgba([1, 2, 3, 255]));
    assert_eq!(canvas.pixel(18, 12), rgba([64, 212, 255, 255]));
}

#[test]
fn default_theme_colours() {
    let theme = IconTheme::default();
    assert_eq!(theme.idle.background, rgba([51, 65, 85, 255]));
    assert_eq!(theme.idle.filled_dot, rgba([148, 163, 184, 255]));
    assert_eq!(theme.collecting.foreground, rgba([255, 255, 0, 255]));
    assert_eq!(theme.stable.newest_dot, rgba([64, 212, 255, 255]));
}

#[test]
fn tray_icon_png_decodes_back_to_the_drawn_pixels() {
    let render = render(Some(128), IconState::Stable, 11);
    let png = render_tray_icon(render, &[]).expect("expected png");
    assert_eq!(&png[..8], &[0x89, b'P', b'N', b'G', 0x0d, 0x0a, 0x1a, 0x0a]);
    let drawn = render_icon_pixels(render);
    let decoded = render_idle_icon_pixels(&png).expect("expected decode");
    assert_eq!(decoded.width(), ICON_SIZE as u32);
    assert_eq!(decoded.height(), ICON_SIZE as u32);
    for y in 0..20 {
        for x in 0..20 {
            assert_eq!(decoded.pixel(x, y), drawn.pixel(x, y));
        }
    }
}

#[test]
fn idle_tray_icon_is_the_given_picture() {
    let picture = render_tray_icon(render(None, IconState::Collecting, 3), &[]).expect("png");
    let idle = render_tray_icon(render(None, IconState::Idle, 0), &picture).expect("idle png");
    let decoded = render_idle_icon_pixels(&idle).expect("decode");
    let drawn = render_icon_pixels(render(None, IconState::Collecting, 3));
    for y in 0..20 {
        for x in 0..20 {
            assert_eq!(decoded.pixel(x, y), drawn.pixel(x, y));
        }
    }
}

#[test]
fn idle_tray_icon_reports_undecodable_picture() {
    let result = render_tray_icon(render(None, IconState::Idle, 0), b"not a png");
    assert!(matches!(result, Err(IconRenderError::IdleIcon(_))));
    assert!(render_idle_icon_pixels(b"not a png").is_err());
}

#[test]
fn tempo_and_grid_do_not_overlap() {
    // Same grid, different top: bottom rows match.
    let with_tempo = render_icon_pixels(render(Some(188), IconState::Stable, 13));
    let with_mark = render_icon_pixels(render(None, IconState::Stable, 13));
    for y in 12..20 {
        for x in 0..20 {
            assert_eq!(with_tempo.pixel(x, y), with_mark.pixel(x, y));
        }
    }
    // Same top, different grid: top rows match.
    let few_taps = render_icon_pixels(render(Some(188), IconState::Stable, 2));
    for y in 0..12 {
        for x in 0..20 {
            assert_eq!(with_tempo.pixel(x, y), few_taps.pixel(x, y));
        }
    }
}
