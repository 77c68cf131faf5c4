use skill_tracker::json::parse_entries;
use skill_tracker::session::{App, InputMode, KeyInput};
use skill_tracker::util::searchInVector;

#[test]
fn render() {}

#[test]
fn handle_key_event() -> std::io::Result<()> {
    Ok(())
}

fn cursor_in_bounds(app: &App) -> bool {
    app.cursor_index() <= app.input_text().chars().count()
}

#[test]
fn cursor_stays_clamped_through_any_operations() {
    let mut app = App::new();
    assert!(cursor_in_bounds(&app));
    app.move_cursor_left();
    assert_eq!(app.cursor_index(), 0);
    app.move_cursor_right();
    assert_eq!(app.cursor_index(), 0);
    app.delete_char();
    assert!(cursor_in_bounds(&app));
    app.enter_char('a');
    assert!(cursor_in_bounds(&app));
    app.enter_char('b');
    assert_eq!(app.cursor_index(), 2);
    app.move_cursor_right();
    assert_eq!(app.cursor_index(), 2);
    app.move_cursor_left();
    app.move_cursor_left();
    app.move_cursor_left();
    assert_eq!(app.cursor_index(), 0);
    app.delete_char();
    assert_eq!(app.cursor_index(), 0);
    assert_eq!(app.input_text(), "ab");
    app.move_cursor_right();
    app.enter_char('x');
    assert_eq!(app.input_text(), "axb");
    assert!(cursor_in_bounds(&app));
    app.delete_char();
    assert_eq!(app.input_text(), "ab");
    assert!(cursor_in_bounds(&app));
}

#[test]
fn byte_index_never_splits_a_character() {
    let mut app = App::new();
    app.enter_char('a');
    app.enter_char('é');
    app.enter_char('€');
    assert_eq!(app.input_text(), "aé€");
    assert_eq!(app.byte_index(), 6);
    app.move_cursor_left();
    assert_eq!(app.byte_index(), 3);
    app.move_cursor_left();
    assert_eq!(app.byte_index(), 1);
    app.move_cursor_left();
    assert_eq!(app.byte_index(), 0);
    let text = app.input_text().clone();
    for cursor in 0..4usize {
        let mut fresh = App::new();
        for c in text.chars() {
            fresh.enter_char(c);
        }
        while fresh.cursor_index() > cursor {
            fresh.move_cursor_left();
        }
        assert!(text.is_char_boundary(fresh.byte_index()));
    }
}

#[test]
fn filter_keeps_matching_names_in_order() {
    let all = vec!["json".to_string(), "rust".to_string(), "bevy".to_string()];
    assert_eq!(searchInVector(&all, &"s".to_string()), vec![
        "json".to_string(),
        "rust".to_string(),
    ]);
    assert_eq!(searchInVector(&all, &String::new()), all);
    assert_eq!(searchInVector(&all, &"zzz".to_string()), Vec::<String>::new());
    assert_eq!(searchInVector(&all, &"Rust".to_string()), Vec::<String>::new());
}

#[test]
fn end_to_end_submit_and_filter_scenario() {
    let store = "[{\"name\":\"json\",\"total_time_spent\":0}]";
    let mut app = App::new();
    app.load_skill_list(vec!["json".to_string()]);
    assert!(matches!(app.mode(), InputMode::Normal));

    app.handle_key_event(KeyInput::Char('e'), true, "");
    assert!(matches!(app.mode(), InputMode::Editing));
    for c in "bevy".chars() {
        assert!(app.handle_key_event(KeyInput::Char(c), true, "").is_none());
    }
    assert_eq!(app.input_text(), "bevy");
    assert!(app.skill_list().is_empty());

    let written = app.handle_key_event(KeyInput::Enter, true, store).unwrap();
    let entries = parse_entries(&written).unwrap();
    let names: Vec<String> = entries.into_iter().map(|e| e.name).collect();
    assert_eq!(names, vec!["json".to_string(), "bevy".to_string()]);
    assert_eq!(app.input_text(), "");
    assert_eq!(app.cursor_index(), 0);

    let mut next = App::new();
    next.load_skill_list(vec!["json".to_string(), "bevy".to_string()]);
    next.handle_key_event(KeyInput::Char('e'), true, "");
    next.handle_key_event(KeyInput::Char('j'), true, "");
    next.handle_key_event(KeyInput::Char('s'), true, "");
    assert_eq!(next.input_text(), "js");
    assert_eq!(next.skill_list(), &vec!["json".to_string()]);
}

#[test]
fn submit_with_nonempty_view_changes_nothing() {
    let mut app = App::new();
    app.load_skill_list(vec!["json".to_string()]);
    app.handle_key_event(KeyInput::Char('e'), true, "");
    app.handle_key_event(KeyInput::Char('j'), true, "");
    assert_eq!(app.skill_list(), &vec!["json".to_string()]);
    assert!(app.handle_key_event(KeyInput::Enter, true, "[]").is_none());
    assert_eq!(app.input_text(), "j");
}

#[test]
fn submit_against_unreadable_store_changes_nothing() {
    let mut app = App::new();
    app.handle_key_event(KeyInput::Char('e'), true, "");
    app.handle_key_event(KeyInput::Char('x'), true, "");
    app.handle_key_event(KeyInput::Backspace, true, "");
    assert!(app.handle_key_event(KeyInput::Enter, true, "broken store").is_none());
    assert!(app.total_skill_list().is_empty());
}

#[test]
fn normal_mode_keys_and_escape() {
    let mut app = App::new();
    app.handle_key_event(KeyInput::Char('e'), true, "");
    app.handle_key_event(KeyInput::Char('h'), true, "");
    app.handle_key_event(KeyInput::Esc, true, "");
    assert!(matches!(app.mode(), InputMode::Normal));
    assert_eq!(app.input_text(), "h");
    assert!(!app.should_exit());
    app.handle_key_event(KeyInput::Char('q'), true, "");
    assert!(app.should_exit());
    let mut other = App::new();
    other.exit();
    assert!(other.should_exit());
}

#[test]
fn key_releases_are_ignored_while_editing() {
    let mut app = App::new();
    app.handle_key_event(KeyInput::Char('e'), true, "");
    app.handle_key_event(KeyInput::Char('a'), false, "");
    assert_eq!(app.input_text(), "");
    app.handle_key_event(KeyInput::Other, true, "");
    assert_eq!(app.input_text(), "");
}
