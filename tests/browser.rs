use file_picker::browser::{Action, App, Key};
use file_picker::listing::Entry;

fn entry(dir: &str, name: &str, is_dir: bool) -> Entry {
    Entry::new(name.to_string(), format!("{}/{}", dir, name), is_dir)
}

fn files(dir: &str, n: usize) -> Vec<Entry> {
    (0..n).map(|i| entry(dir, &format!("f{}", i), false)).collect()
}

fn changed_to(a: &Action) -> Option<String> {
    match a {
        Action::ChangeDir(d) => Some(d.clone()),
        _ => None,
    }
}

#[test]
fn new_puts_cursor_on_first_entry() {
    let app = App::new("/d".to_string(), files("/d", 3));
    assert_eq!(app.selected_index(), Some(0));
    assert_eq!(app.cwd(), "/d");
    assert_eq!(app.entries().len(), 3);
    assert_eq!(app.selected_count(), 0);
    let empty = App::new("/e".to_string(), Vec::new());
    assert_eq!(empty.selected_index(), None);
    assert!(empty.selected_entry().is_none());
}

#[test]
fn move_wraps_both_ways() {
    let mut app = App::new("/d".to_string(), files("/d", 4));
    app.move_by(-1);
    assert_eq!(app.selected_index(), Some(3));
    app.move_by(1);
    assert_eq!(app.selected_index(), Some(0));
    app.prev();
    assert_eq!(app.selected_index(), Some(3));
    app.next();
    assert_eq!(app.selected_index(), Some(0));
    app.move_by(6);
    assert_eq!(app.selected_index(), Some(2));
    app.move_by(-7);
    assert_eq!(app.selected_index(), Some(3));
    app.move_by(isize::MIN);
    assert_eq!(app.selected_index(), Some(3));
    app.move_by(isize::MAX);
    assert_eq!(app.selected_index(), Some(2));
}

#[test]
fn move_on_empty_listing_keeps_no_cursor() {
    let mut app = App::new("/e".to_string(), Vec::new());
    for d in [0, 1, -1, 5, isize::MIN, isize::MAX] {
        app.move_by(d);
        assert_eq!(app.selected_index(), None);
    }
}

#[test]
fn toggle_twice_restores_marks() {
    let mut app = App::new("/d".to_string(), files("/d", 2));
    let p = "/d/f0".to_string();
    assert!(!app.is_marked(&p));
    app.toggle_mark();
    assert!(app.is_marked(&p));
    assert_eq!(app.selected_count(), 1);
    app.toggle_mark();
    assert!(!app.is_marked(&p));
    assert_eq!(app.selected_count(), 0);
}

#[test]
fn toggle_without_cursor_does_nothing() {
    let mut app = App::new("/e".to_string(), Vec::new());
    app.toggle_mark();
    assert_eq!(app.selected_count(), 0);
}

#[test]
fn marks_survive_reload() {
    let mut app = App::new("/d".to_string(), vec![entry("/d", "p", false), entry("/d", "q", false)]);
    app.toggle_mark();
    let p = "/d/p".to_string();
    assert!(app.is_marked(&p));
    app.reload_entries(vec![entry("/d", "q", false)]);
    assert!(app.is_marked(&p));
    assert_eq!(app.selected_count(), 1);
    assert_eq!(app.entries().len(), 1);
    assert_eq!(app.selected_index(), Some(0));
}

#[test]
fn reload_keeps_cursor_within_listing() {
    let mut app = App::new("/d".to_string(), files("/d", 5));
    app.move_by(4);
    app.reload_entries(files("/d", 5));
    assert_eq!(app.selected_index(), Some(4));
    app.reload_entries(files("/d", 2));
    assert_eq!(app.selected_index(), Some(1));
    app.reload_entries(Vec::new());
    assert_eq!(app.selected_index(), None);
    app.reload_entries(files("/d", 3));
    assert_eq!(app.selected_index(), Some(0));
}

#[test]
fn up_dir_at_root_does_nothing() {
    let mut app = App::new("/".to_string(), files("", 2));
    assert!(matches!(app.up_dir(), Action::Nothing));
    assert!(matches!(app.handle_key(Key::Backspace), Action::Nothing));
    assert_eq!(app.cwd(), "/");
    assert_eq!(app.entries().len(), 2);
}

#[test]
fn up_dir_names_parent() {
    let app = App::new("/a/b".to_string(), Vec::new());
    assert_eq!(changed_to(&app.up_dir()), Some("/a".to_string()));
}

#[test]
fn enter_sub_then_up_again() {
    let base = "/base";
    let listing = || vec![entry(base, "note.txt", false), entry(base, "sub", true)];
    let mut app = App::new(base.to_string(), listing());
    assert_eq!(app.selected_entry().map(|e| e.name.clone()), Some("sub".to_string()));
    let a = app.handle_key(Key::Enter);
    let sub = changed_to(&a).expect("entering a directory");
    assert_eq!(sub, "/base/sub");
    app.change_dir(sub, Vec::new());
    assert_eq!(app.cwd(), "/base/sub");
    assert_eq!(app.selected_index(), None);
    let up = changed_to(&app.handle_key(Key::Backspace)).expect("going up");
    assert_eq!(up, base);
    app.change_dir(up, listing());
    assert_eq!(app.cwd(), base);
    assert_eq!(app.entries().len(), 2);
    assert_eq!(app.entries()[0].name, "sub");
    assert_eq!(app.entries()[1].name, "note.txt");
    assert_eq!(app.selected_index(), Some(0));
}

#[test]
fn enter_sub_with_content_resets_cursor() {
    let mut app = App::new("/b".to_string(), vec![entry("/b", "sub", true)]);
    let sub = changed_to(&app.enter()).unwrap();
    app.change_dir(sub, files("/b/sub", 3));
    assert_eq!(app.selected_index(), Some(0));
}

#[test]
fn enter_on_file_asks_to_open_it() {
    let app = App::new("/d".to_string(), vec![entry("/d", "note.txt", false)]);
    match app.enter() {
        Action::Open(p) => assert_eq!(p, "/d/note.txt"),
        _ => panic!("expected Open"),
    }
    let empty = App::new("/e".to_string(), Vec::new());
    assert!(matches!(empty.enter(), Action::Nothing));
}

#[test]
fn keys_map_to_actions() {
    let mut app = App::new("/d".to_string(), files("/d", 3));
    assert!(matches!(app.handle_key(Key::Char('q')), Action::Quit));
    assert!(matches!(app.handle_key(Key::Esc), Action::Quit));
    assert!(matches!(app.handle_key(Key::Char('r')), Action::Reload));
    assert!(matches!(app.handle_key(Key::Down), Action::Nothing));
    assert_eq!(app.selected_index(), Some(1));
    assert!(matches!(app.handle_key(Key::Char('j')), Action::Nothing));
    assert_eq!(app.selected_index(), Some(2));
    app.handle_key(Key::Char('k'));
    app.handle_key(Key::Up);
    assert_eq!(app.selected_index(), Some(0));
    app.handle_key(Key::Up);
    assert_eq!(app.selected_index(), Some(2));
    app.handle_key(Key::Char(' '));
    assert!(app.is_marked(&"/d/f2".to_string()));
    assert!(matches!(app.handle_key(Key::Other), Action::Nothing));
    assert!(matches!(app.handle_key(Key::Char('x')), Action::Nothing));
    assert_eq!(app.selected_index(), Some(2));
}

#[test]
fn selection_by_itself() {
    let mut s = file_picker::selection::Selection::new();
    let p = "/x".to_string();
    s.toggle(p.clone());
    s.toggle("/y".to_string());
    assert!(s.contains(&p));
    assert_eq!(s.count(), 2);
    s.toggle(p.clone());
    assert!(!s.contains(&p));
    assert_eq!(s.count(), 1);
}

#[test]
fn up_dir_handles_other_roots_and_trailing_separators() {
    let app = App::new("//".to_string(), Vec::new());
    assert!(matches!(app.up_dir(), Action::Nothing));
    let app = App::new("/a/b/".to_string(), Vec::new());
    assert_eq!(changed_to(&app.up_dir()), Some("/a".to_string()));
    let app = App::new("rel".to_string(), Vec::new());
    assert_eq!(changed_to(&app.up_dir()), Some(String::new()));
}
