use gig::tui::{fuzzy_match_positions, picker_height, picker_indent, App, Key, Step};
use gig::{Completion, CompletionKind};

fn item(value: &str, description: Option<&str>) -> Completion {
    Completion {
        value: value.to_string(),
        display_name: None,
        description: description.map(|d| d.to_string()),
        kind: CompletionKind::Subcommand,
    }
}

#[test]
fn fuzzy_match_basic() {
    assert!(fuzzy_match_positions("commit", "cmt").is_some());
    assert!(fuzzy_match_positions("commit", "xyz").is_none());
    assert!(fuzzy_match_positions("--message", "msg").is_some());
}

#[test]
fn fuzzy_match_positions_correct() {
    let positions = fuzzy_match_positions("commit", "cmt").unwrap();
    assert_eq!(positions, vec![0, 2, 5]);
}

#[test]
fn fuzzy_match_empty_needle() {
    assert!(fuzzy_match_positions("commit", "").is_none());
}

#[test]
fn fuzzy_match_takes_leftmost_positions() {
    assert_eq!(fuzzy_match_positions("aabab", "ab").unwrap(), vec![0, 2]);
    assert_eq!(fuzzy_match_positions("über", "br").unwrap(), vec![1, 3]);
    assert!(fuzzy_match_positions("ab", "ba").is_none());
    assert!(fuzzy_match_positions("", "a").is_none());
}

#[test]
fn app_filter_narrows_results() {
    let items = vec![
        item("commit", Some("Record changes")),
        item("clone", Some("Clone a repo")),
        item("push", None),
    ];
    let mut app = App::new(items, 0);
    app.query = "c".to_string();
    app.filter();
    assert_eq!(app.filtered.len(), 2);
}

#[test]
fn app_navigation_wraps() {
    let items = vec![item("a", None), item("b", None)];
    let mut app = App::new(items, 0);
    assert_eq!(app.selected, 0);
    app.move_down();
    assert_eq!(app.selected, 1);
    app.move_down();
    assert_eq!(app.selected, 0);
    app.move_up();
    assert_eq!(app.selected, 1);
}

#[test]
fn filter_ignores_case_and_keeps_positions() {
    let items = vec![item("Commit", None), item("push", None), item("CHECKOUT", None)];
    let mut app = App::new(items, 0);
    app.query = "Cm".to_string();
    app.filter();
    assert_eq!(app.filtered.len(), 1);
    assert_eq!(app.filtered[0].index, 0);
    assert_eq!(app.filtered[0].match_positions, vec![0, 2]);
}

#[test]
fn selection_follows_shrinking_filter() {
    let items: Vec<Completion> = ["a1", "a2", "b1", "b2", "a3"].iter().map(|v| item(v, None)).collect();
    let mut app = App::new(items, 0);
    for _ in 0..4 {
        app.move_down();
    }
    assert_eq!(app.selected, 4);
    app.query = "b".to_string();
    app.filter();
    assert_eq!(app.filtered.len(), 2);
    assert_eq!(app.selected, 1);
    app.query = "zzz".to_string();
    app.filter();
    assert_eq!(app.filtered.len(), 0);
    assert_eq!(app.selected, 0);
    assert_eq!(app.selected_value(), None);
}

#[test]
fn scroll_window_follows_selection() {
    let items: Vec<Completion> = (0..12).map(|i| item(&format!("v{}", i), None)).collect();
    let mut app = App::new(items, 0);
    for _ in 0..9 {
        app.move_down();
    }
    assert_eq!(app.selected, 9);
    assert_eq!(app.scroll_offset, 2);
    app.move_up();
    assert_eq!(app.scroll_offset, 2);
    for _ in 0..4 {
        app.move_down();
    }
    assert_eq!(app.selected, 0);
    assert_eq!(app.scroll_offset, 0);
}

#[test]
fn keys_drive_the_picker() {
    let items = vec![
        item("commit", Some("Record changes")),
        item("clone", Some("Clone a repo")),
        item("push", None),
    ];
    let mut app = App::new(items, 0);
    assert!(matches!(app.handle_key(Key::Down), Step::Continue));
    assert_eq!(app.selected_value(), Some("clone"));
    assert_eq!(app.selected_description(), Some("Clone a repo"));
    assert!(matches!(app.handle_key(Key::Char { c: 'p', ctrl: true }), Step::Continue));
    assert_eq!(app.selected, 0);
    assert!(matches!(app.handle_key(Key::Char { c: 'p', ctrl: false }), Step::Continue));
    assert_eq!(app.query, "p");
    assert_eq!(app.filtered.len(), 1);
    assert!(matches!(app.handle_key(Key::Backspace), Step::Continue));
    assert_eq!(app.query, "");
    assert_eq!(app.filtered.len(), 3);
    assert!(matches!(app.handle_key(Key::BackTab), Step::Continue));
    assert_eq!(app.selected_value(), Some("push"));
    assert_eq!(app.selected_description(), None);
    match app.handle_key(Key::Enter) {
        Step::Finish(v) => assert_eq!(v.as_deref(), Some("push")),
        Step::Continue => panic!("enter finishes"),
    }
    assert!(matches!(app.handle_key(Key::Esc), Step::Finish(None)));
    assert!(matches!(app.handle_key(Key::Char { c: 'c', ctrl: true }), Step::Finish(None)));
}

#[test]
fn picker_layout() {
    assert_eq!(picker_indent(10, 80), 10);
    assert_eq!(picker_indent(70, 80), 60);
    assert_eq!(picker_indent(5, 15), 0);
    assert_eq!(picker_height(3), 4);
    assert_eq!(picker_height(20), 9);
    assert_eq!(picker_height(0), 1);
}

#[test]
fn visible_rows_show_window_icons_and_matches() {
    let mut items: Vec<Completion> = (0..10).map(|i| item(&format!("v{}", i), None)).collect();
    items[9].kind = CompletionKind::File;
    items[8].kind = CompletionKind::Command;
    items[7].kind = CompletionKind::Branch;
    items[7].description = Some("branch".to_string());
    let mut app = App::new(items, 2);
    for _ in 0..9 {
        app.move_down();
    }
    assert_eq!(app.selected, 9);
    assert_eq!(app.scroll_offset, 2);
    let rows = app.visible_rows(8);
    assert_eq!(rows.len(), 8);
    assert_eq!(rows[7].icon, " \u{25a1} ");
    assert!(rows[7].selected);
    assert!(!rows[0].selected);
    assert_eq!(rows[6].icon, " \u{276f} ");
    assert_eq!(rows[5].icon, " \u{16a0} ");
    assert_eq!(rows[5].description.as_deref(), Some("branch"));
    assert_eq!(rows[0].icon, " $ ");
    assert_eq!(rows[0].chars, vec![('v', false), ('2', false)]);
    assert_eq!(app.visible_rows(3).len(), 3);
    assert_eq!(app.list_height(20), 8);
    assert_eq!(app.list_height(4), 3);
    assert_eq!(app.list_height(0), 0);

    app.query = "V1".to_string();
    app.filter();
    let rows = app.visible_rows(8);
    assert_eq!(rows.len(), 1);
    assert_eq!(rows[0].chars, vec![('v', true), ('1', true)]);
    assert!(rows[0].selected);
}
