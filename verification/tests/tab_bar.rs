use tab_bar::config::{InputMode, TabInfo, UserConfiguration};
use tab_bar::line::{left_more_message, populate_tabs_in_tab_line, right_more_message, tab_line,
    tab_line_prefix};
use tab_bar::segment::Segment;
use tab_bar::tab::{get_clicked_line_part, get_tab_to_focus, render_tab, tab_style};
use tab_bar::text::usize_to_string;

fn conf() -> UserConfiguration {
    UserConfiguration {
        default_tab_name: "Tab".to_string(),
        display_session_directory: false,
        mode_display: vec![(InputMode::Normal, "NORMAL".to_string())],
    }
}

fn tab_seg(position: usize, width: usize) -> Segment {
    Segment { content: format!("tab{position}"), width, tab_ref: Some(position) }
}

#[test]
fn decimal_rendering() {
    assert_eq!(usize_to_string(0), "0");
    assert_eq!(usize_to_string(7), "7");
    assert_eq!(usize_to_string(10), "10");
    assert_eq!(usize_to_string(9999), "9999");
    assert_eq!(usize_to_string(4294967295), "4294967295");
}

#[test]
fn left_indicator_text() {
    let seg = left_more_message(3, 2);
    assert_eq!(seg.content, " ← +3 ");
    assert_eq!(seg.width, 6);
    assert_eq!(seg.tab_ref, Some(2));
    let empty = left_more_message(0, 5);
    assert_eq!(empty.content, "");
    assert_eq!(empty.width, 0);
    assert_eq!(empty.tab_ref, None);
    let many = left_more_message(10000, 9999);
    assert_eq!(many.content, " ← +many ");
    assert_eq!(many.width, 9);
}

#[test]
fn right_indicator_text() {
    let seg = right_more_message(12, 7);
    assert_eq!(seg.content, " +12 → ");
    assert_eq!(seg.width, 7);
    assert_eq!(seg.tab_ref, Some(7));
    let many = right_more_message(123456, 7);
    assert_eq!(many.content, " +many → ");
    assert_eq!(many.width, 9);
}

// Five tabs of width ten each, the third active, thirty-five columns: one
// left neighbor joins the active tab, then neither side fits any more, so
// one tab collapses on the left and two on the right.
#[test]
fn five_tabs_collapse_both_sides() {
    let mut before = vec![tab_seg(0, 10), tab_seg(1, 10)];
    let mut after = vec![tab_seg(3, 10), tab_seg(4, 10)];
    let mut rendered = vec![tab_seg(2, 10)];
    populate_tabs_in_tab_line(&mut before, &mut after, &mut rendered, 35);
    let widths: Vec<usize> = rendered.iter().map(|s| s.width).collect();
    assert_eq!(widths, vec![6, 10, 10, 6]);
    assert_eq!(rendered[0].content, " ← +1 ");
    assert_eq!(rendered[0].tab_ref, Some(0));
    assert_eq!(rendered[1].tab_ref, Some(1));
    assert_eq!(rendered[2].tab_ref, Some(2));
    assert_eq!(rendered[3].content, " +2 → ");
    assert_eq!(rendered[3].tab_ref, Some(3));
    let total: usize = widths.iter().sum();
    assert!(total <= 35);
}

// A budget too small for even the active tab: only the prefix is drawn.
#[test]
fn prefix_only_when_active_tab_too_wide() {
    let tabs = vec![tab_seg(0, 10)];
    let line = tab_line(
        "".to_string(),
        tabs,
        0,
        9,
        &conf(),
        InputMode::Normal,
        "".to_string(),
    );
    assert_eq!(line.len(), 2);
    assert_eq!(line[0].content, " ");
    assert_eq!(line[1].content, "NORMAL ");
    assert!(line.iter().all(|s| s.tab_ref.is_none()));
}

// A click inside a left indicator covering hidden tabs 0..2 (adjacent
// index 2) focuses 1-based tab 3.
#[test]
fn click_left_indicator_focuses_adjacent() {
    let line = vec![left_more_message(3, 2), tab_seg(3, 10)];
    assert_eq!(get_tab_to_focus(&line, 5, 3), Some(3));
}

#[test]
fn click_on_active_tab_is_noop() {
    let line = vec![tab_seg(0, 5), tab_seg(1, 5)];
    assert_eq!(get_tab_to_focus(&line, 1, 2), None);
    assert_eq!(get_tab_to_focus(&line, 1, 7), Some(2));
}

#[test]
fn click_misses() {
    let line = vec![
        Segment { content: "deco".to_string(), width: 4, tab_ref: None },
        tab_seg(0, 5),
    ];
    // decorative segment
    assert_eq!(get_tab_to_focus(&line, 9, 2), None);
    // past the end of the line
    assert_eq!(get_tab_to_focus(&line, 9, 40), None);
    assert!(get_clicked_line_part(&line, 40).is_none());
}

// A click anywhere inside a tab's half-open interval lands on that tab; a
// boundary column belongs to the next segment.
#[test]
fn click_round_trip_intervals() {
    let line = vec![tab_seg(0, 5), tab_seg(1, 7)];
    for col in 0..5 {
        assert_eq!(get_clicked_line_part(&line, col).unwrap().tab_ref, Some(0));
    }
    for col in 5..12 {
        assert_eq!(get_clicked_line_part(&line, col).unwrap().tab_ref, Some(1));
    }
    assert_eq!(get_tab_to_focus(&line, 1, 6), Some(2));
}

#[test]
fn auto_generated_names_replaced() {
    let tab = TabInfo { position: 2, active: false, is_sync_panes_active: false };
    // the tab's own auto-name
    let seg = render_tab("Tab #3".to_string(), &tab, &conf());
    assert_eq!(seg.content, " 3 Tab ");
    assert_eq!(seg.width, 7);
    assert_eq!(seg.tab_ref, Some(2));
    // a stale auto-name left over from reordering
    let seg = render_tab("Tab #7".to_string(), &tab, &conf());
    assert_eq!(seg.content, " 3 Tab ");
}

#[test]
fn non_canonical_names_kept() {
    let tab = TabInfo { position: 0, active: false, is_sync_panes_active: false };
    let seg = render_tab("Tab #07".to_string(), &tab, &conf());
    assert_eq!(seg.content, "1 Tab #07 ");
    let seg = render_tab("Tab #7x".to_string(), &tab, &conf());
    assert_eq!(seg.content, "1 Tab #7x ");
    let seg = render_tab("xTab #7".to_string(), &tab, &conf());
    assert_eq!(seg.content, "1 xTab #7 ");
    let seg = render_tab("work".to_string(), &tab, &conf());
    assert_eq!(seg.content, "1 work ");
    assert_eq!(seg.width, 7);
}

#[test]
fn sync_panes_suffix() {
    let tab = TabInfo { position: 1, active: true, is_sync_panes_active: true };
    let seg = tab_style("work".to_string(), &tab, &conf());
    assert_eq!(seg.content, " 2 work (Sync) ");
    assert_eq!(seg.width, 15);
}

// An auto-generated name is replaced first; " (Sync)" is appended to the
// already-normalized name, so a synced auto-name does not escape
// replacement.
#[test]
fn synced_auto_name_still_replaced() {
    let c = UserConfiguration {
        default_tab_name: "d".to_string(),
        display_session_directory: false,
        mode_display: vec![(InputMode::Normal, "NORMAL".to_string())],
    };
    let tab = TabInfo { position: 1, active: false, is_sync_panes_active: true };
    let seg = tab_style("Tab #2".to_string(), &tab, &c);
    assert_eq!(seg.content, " 2 d (Sync) ");
    // a stale auto-name from reordering is replaced the same way
    let seg = tab_style("Tab #9".to_string(), &tab, &c);
    assert_eq!(seg.content, " 2 d (Sync) ");
    // a non-auto name keeps itself before the suffix
    let seg = tab_style("Tab #09".to_string(), &tab, &c);
    assert_eq!(seg.content, " 2 Tab #09 (Sync) ");
}

// Width is terminal display width, not character count: CJK characters
// occupy two columns each.
#[test]
fn wide_characters_count_double() {
    let tab = TabInfo { position: 1, active: false, is_sync_panes_active: false };
    let seg = render_tab("日本".to_string(), &tab, &conf());
    assert_eq!(seg.content, " 2 日本 ");
    assert_eq!(seg.content.chars().count(), 6);
    assert_eq!(seg.width, 8);
}

#[test]
fn session_name_split_into_prefix() {
    let parts = tab_line_prefix(
        &"alpha-beta-gamma".to_string(),
        InputMode::Normal,
        &conf(),
        100,
        &"".to_string(),
    );
    assert_eq!(parts.len(), 3);
    assert_eq!(parts[0].content, "alpha");
    assert_eq!(parts[0].width, 5);
    assert_eq!(parts[1].content, "-beta-gamma ");
    assert_eq!(parts[1].width, 12);
    assert_eq!(parts[2].content, "NORMAL ");
    assert_eq!(parts[2].width, 7);
}

#[test]
fn session_directory_shown_when_enabled() {
    let mut c = conf();
    c.display_session_directory = true;
    let parts = tab_line_prefix(
        &"alpha-beta".to_string(),
        InputMode::Normal,
        &c,
        100,
        &"/home/x".to_string(),
    );
    assert_eq!(parts.len(), 3);
    assert_eq!(parts[0].content, "/home/x");
    assert_eq!(parts[1].content, "-alpha-beta ");
}

// The fits-checks for the name and mode segments each use the budget
// reduced only by the prefix segment, not by one another: on a narrow
// terminal both can be kept even though together they exceed it. This
// pins that documented behavior down.
#[test]
fn mode_check_ignores_name_width() {
    let parts = tab_line_prefix(
        &"alpha-beta-gamma".to_string(),
        InputMode::Normal,
        &conf(),
        17,
        &"".to_string(),
    );
    assert_eq!(parts.len(), 3);
    let total: usize = parts.iter().map(|s| s.width).sum();
    assert!(total > 17);
}

// Rendering is a pure function of its inputs: the same call twice gives
// byte-identical output.
#[test]
fn compose_is_idempotent() {
    let tabs: Vec<Segment> = (0..5).map(|i| tab_seg(i, 10)).collect();
    let once = tab_line(
        "alpha-beta".to_string(),
        tabs.clone(),
        2,
        35,
        &conf(),
        InputMode::Normal,
        "".to_string(),
    );
    let twice = tab_line(
        "alpha-beta".to_string(),
        tabs,
        2,
        35,
        &conf(),
        InputMode::Normal,
        "".to_string(),
    );
    assert_eq!(once, twice);
}

// When everything fits, every tab is shown, the active one exactly once,
// and there are no indicators.
#[test]
fn active_tab_always_visible() {
    let tabs: Vec<Segment> = (0..4).map(|i| tab_seg(i, 5)).collect();
    let line = tab_line(
        "s".to_string(),
        tabs,
        1,
        100,
        &conf(),
        InputMode::Normal,
        "".to_string(),
    );
    let active_count =
        line.iter().filter(|s| s.tab_ref == Some(1) && s.content == "tab1").count();
    assert_eq!(active_count, 1);
    let tab_count = line.iter().filter(|s| s.tab_ref.is_some()).count();
    assert_eq!(tab_count, 4);
}
