use milkdrop_pi::overlay::{
    decimal_chars, GlyphCell, Overlay, OverlayAction, OverlayConfig, OverlayKey, TextStyle,
    PANEL_COLS,
};

fn config(duration: u64) -> OverlayConfig {
    OverlayConfig {
        viz_names: vec!["equalizer", "gol", "polar"],
        viz_enabled: vec![true, false, true],
        duration_secs: duration,
    }
}

fn backtick() -> OverlayKey {
    OverlayKey::Character("`".to_string())
}

#[test]
fn backtick_toggles_visibility() {
    let mut o = Overlay::new();
    let c = config(60);
    assert!(!o.is_visible());
    assert_eq!(o.handle_key(true, &backtick(), &c), (true, None));
    assert!(o.is_visible());
    assert_eq!(o.handle_key(true, &backtick(), &c), (true, None));
    assert!(!o.is_visible());
}

#[test]
fn released_and_hidden_keys_are_not_consumed() {
    let mut o = Overlay::new();
    let c = config(60);
    assert_eq!(o.handle_key(false, &backtick(), &c), (false, None));
    assert!(!o.is_visible());
    assert_eq!(o.handle_key(true, &OverlayKey::ArrowDown, &c), (false, None));
    assert_eq!(o.cursor(), 0);
    assert_eq!(
        o.handle_key(true, &OverlayKey::Character("a".to_string()), &c),
        (false, None)
    );
}

#[test]
fn arrows_move_cursor_within_list() {
    let mut o = Overlay::new();
    let c = config(60);
    o.handle_key(true, &backtick(), &c);
    assert_eq!(o.handle_key(true, &OverlayKey::ArrowUp, &c), (true, None));
    assert_eq!(o.cursor(), 0);
    o.handle_key(true, &OverlayKey::ArrowDown, &c);
    o.handle_key(true, &OverlayKey::ArrowDown, &c);
    o.handle_key(true, &OverlayKey::ArrowDown, &c);
    assert_eq!(o.cursor(), 2);
    o.handle_key(true, &OverlayKey::ArrowUp, &c);
    assert_eq!(o.cursor(), 1);
    assert_eq!(
        o.handle_key(true, &OverlayKey::Space, &c),
        (true, Some(OverlayAction::ToggleViz(1)))
    );
    assert_eq!(
        o.handle_key(true, &OverlayKey::Enter, &c),
        (true, Some(OverlayAction::ToggleViz(1)))
    );
    assert_eq!(o.handle_key(true, &OverlayKey::Other, &c), (true, None));
}

#[test]
fn showing_clamps_cursor_to_shorter_list() {
    let mut o = Overlay::new();
    let c = config(60);
    o.handle_key(true, &backtick(), &c);
    o.handle_key(true, &OverlayKey::ArrowDown, &c);
    o.handle_key(true, &OverlayKey::ArrowDown, &c);
    o.handle_key(true, &backtick(), &c);
    let short = OverlayConfig { viz_names: vec!["gol"], viz_enabled: vec![true], duration_secs: 60 };
    o.handle_key(true, &backtick(), &short);
    assert_eq!(o.cursor(), 0);
}

#[test]
fn duration_steps_are_clamped() {
    let mut o = Overlay::new();
    o.handle_key(true, &backtick(), &config(60));
    assert_eq!(
        o.handle_key(true, &OverlayKey::ArrowLeft, &config(60)),
        (true, Some(OverlayAction::SetDuration(55)))
    );
    assert_eq!(
        o.handle_key(true, &OverlayKey::ArrowLeft, &config(7)),
        (true, Some(OverlayAction::SetDuration(5)))
    );
    assert_eq!(
        o.handle_key(true, &OverlayKey::ArrowRight, &config(598)),
        (true, Some(OverlayAction::SetDuration(600)))
    );
    assert_eq!(
        o.handle_key(true, &OverlayKey::ArrowRight, &config(u64::MAX)),
        (true, Some(OverlayAction::SetDuration(600)))
    );
    assert_eq!(
        o.handle_key(true, &OverlayKey::ArrowLeft, &config(2)),
        (true, Some(OverlayAction::SetDuration(5)))
    );
}

#[test]
fn decimal_chars_formats_numbers() {
    let s: String = decimal_chars(0).into_iter().collect();
    assert_eq!(s, "0");
    let s: String = decimal_chars(605).into_iter().collect();
    assert_eq!(s, "605");
    let s: String = decimal_chars(u64::MAX).into_iter().collect();
    assert_eq!(s, u64::MAX.to_string());
}

fn text_at(cells: &[GlyphCell], row: usize) -> String {
    let mut v: Vec<&GlyphCell> = cells.iter().filter(|c| c.row == row).collect();
    v.sort_by_key(|c| c.col);
    let mut s = String::new();
    let mut next = 0;
    for c in v {
        while next < c.col {
            s.push(' ');
            next += 1;
        }
        s.push(c.ch);
        next += 1;
    }
    s
}

#[test]
fn panel_hidden_has_no_glyphs() {
    let o = Overlay::new();
    assert!(o.panel_glyphs(&config(60)).is_none());
}

#[test]
fn panel_lays_out_text() {
    let mut o = Overlay::new();
    let c = config(45);
    o.handle_key(true, &backtick(), &c);
    o.handle_key(true, &OverlayKey::ArrowDown, &c);
    let cells = o.panel_glyphs(&c).unwrap();
    assert_eq!(text_at(&cells, 0), " MILKDROP CONFIG          ` close");
    assert_eq!(text_at(&cells, 1), "");
    assert_eq!(text_at(&cells, 2), " VISUALIZATIONS");
    assert_eq!(text_at(&cells, 3), "   [x] equalizer");
    assert_eq!(text_at(&cells, 4), " > [ ] gol");
    assert_eq!(text_at(&cells, 5), "   [x] polar");
    assert_eq!(text_at(&cells, 7), " CYCLE DURATION");
    assert_eq!(text_at(&cells, 8), "   < 45s >");
    assert!(cells.iter().all(|c| c.ch != ' '));
    assert!(cells.iter().all(|c| c.col < PANEL_COLS));
    let backtick_cell = cells.iter().find(|c| c.ch == '`').unwrap();
    assert_eq!(backtick_cell.col, PANEL_COLS - 8);
    assert_eq!(backtick_cell.style, TextStyle::Dim);
    let g = cells.iter().find(|c| c.row == 4 && c.ch == 'g').unwrap();
    assert_eq!(g.style, TextStyle::Highlight);
    let e = cells.iter().find(|c| c.row == 3 && c.ch == 'e').unwrap();
    assert_eq!(e.style, TextStyle::Normal);
}
