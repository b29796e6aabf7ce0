use slotmap::DefaultKey;
use task_list::app::App;
use task_list::events::Event;

fn texts(app: &App) -> Vec<String> {
    let mut out = vec![String::new(); app.count()];
    let mut seen = vec![false; app.count()];
    for (key, text) in keyed(app) {
        let row = app.row(key).unwrap() as usize;
        assert!(!seen[row], "row {} is taken twice", row);
        seen[row] = true;
        out[row] = text;
    }
    assert!(seen.iter().all(|s| *s));
    out
}

fn keyed(app: &App) -> Vec<(DefaultKey, String)> {
    app.entities()
        .into_iter()
        .map(|k| (k, app.task(k).unwrap().text.clone()))
        .collect()
}

fn list_of(lines: &[&str]) -> (App, Vec<DefaultKey>) {
    let mut app = App::new();
    app.clear();
    let mut keys = Vec::new();
    for (row, line) in lines.iter().enumerate() {
        let key = app.insert_row(row as i32);
        assert_eq!(app.edited(key, line).is_some(), true);
        keys.push(key);
    }
    (app, keys)
}

#[test]
fn new_list_has_one_empty_row() {
    let app = App::new();
    assert_eq!(app.count(), 1);
    assert_eq!(texts(&app), vec![String::new()]);
    assert_eq!(app.scheduled_write, None);
}

#[test]
fn insert_into_empty_list_takes_row_zero() {
    let mut app = App::new();
    app.clear();
    assert_eq!(app.count(), 0);
    let key = app.insert_row(0);
    assert_eq!(app.count(), 1);
    assert_eq!(app.row(key), Some(0));
    assert_eq!(app.task(key).unwrap().text, "");
    assert_eq!(app.task(key).unwrap().entity, Some(key));
}

#[test]
fn insert_in_the_middle_moves_later_rows_down() {
    let (mut app, keys) = list_of(&["a", "b"]);
    let key = app.insert_row(1);
    assert_eq!(texts(&app), vec!["a", "", "b"]);
    assert_eq!(app.row(keys[0]), Some(0));
    assert_eq!(app.row(key), Some(1));
    assert_eq!(app.row(keys[1]), Some(2));
}

#[test]
fn insert_below_a_task() {
    let (mut app, keys) = list_of(&["a", "b", "c"]);
    let key = app.insert(keys[1]);
    assert_eq!(app.row(key), Some(2));
    assert_eq!(texts(&app), vec!["a", "b", "", "c"]);
}

#[test]
fn insert_below_a_stale_task_goes_to_the_top() {
    let (mut app, keys) = list_of(&["a", "b"]);
    assert!(app.remove(keys[0]));
    let key = app.insert(keys[0]);
    assert_eq!(app.row(key), Some(0));
    assert_eq!(texts(&app), vec!["", "b"]);
}

#[test]
fn remove_in_the_middle_moves_later_rows_up() {
    let (mut app, keys) = list_of(&["a", "b", "c"]);
    assert!(app.remove(keys[1]));
    assert_eq!(texts(&app), vec!["a", "c"]);
    assert_eq!(app.row(keys[0]), Some(0));
    assert_eq!(app.row(keys[1]), None);
    assert_eq!(app.row(keys[2]), Some(1));
}

#[test]
fn the_last_row_is_not_removed() {
    let mut app = App::new();
    let key = app.entities()[0];
    assert!(!app.remove(key));
    assert_eq!(app.count(), 1);
    assert_eq!(app.row(key), Some(0));
    assert_eq!(texts(&app), vec![""]);
}

#[test]
fn guarded_removal_stops_at_one_row() {
    let (mut app, keys) = list_of(&["a", "b", "c"]);
    let mut removed = 0;
    for key in keys {
        if app.remove(key) {
            removed += 1;
        }
        assert!(app.count() >= 1);
    }
    assert_eq!(removed, 2);
    assert_eq!(texts(&app), vec!["c"]);
}

#[test]
fn removing_twice_changes_nothing_the_second_time() {
    let (mut app, keys) = list_of(&["a", "b", "c"]);
    assert!(app.remove_(keys[0]));
    let before = texts(&app);
    assert!(!app.remove_(keys[0]));
    assert!(!app.remove(keys[0]));
    assert_eq!(texts(&app), before);
    assert_eq!(before, vec!["b", "c"]);
}

#[test]
fn a_key_is_not_reused_after_removal() {
    let (mut app, keys) = list_of(&["a", "b"]);
    assert!(app.remove(keys[0]));
    let fresh = app.insert_row(0);
    assert_ne!(fresh, keys[0]);
    assert_eq!(app.row(keys[0]), None);
    assert!(app.edited(keys[0], "stale").is_none());
    assert_eq!(texts(&app), vec!["", "b"]);
}

#[test]
fn rows_stay_contiguous_through_a_mixed_sequence() {
    let (mut app, mut keys) = list_of(&["0", "1", "2", "3", "4"]);
    app.remove(keys[3]);
    keys.push(app.insert_row(0));
    app.remove(keys[0]);
    keys.push(app.insert(keys[4]));
    keys.push(app.insert_row(2));
    app.remove(keys[1]);
    let mut rows: Vec<i32> = keys.iter().filter_map(|k| app.row(*k)).collect();
    rows.sort();
    assert_eq!(rows, vec![0, 1, 2, 3, 4]);
    assert_eq!(app.count(), 5);
    assert_eq!(texts(&app), vec!["", "", "2", "4", ""]);
}

#[test]
fn clear_removes_every_task() {
    let (mut app, keys) = list_of(&["a", "b", "c"]);
    app.clear();
    assert_eq!(app.count(), 0);
    for key in keys {
        assert_eq!(app.row(key), None);
    }
    assert_eq!(app.serialize(), "");
}

#[test]
fn serialize_goes_by_row_not_by_age() {
    let (mut app, _) = list_of(&["b", "c"]);
    let top = app.insert_row(0);
    app.edited(top, "a");
    assert_eq!(app.serialize(), "a\nb\nc\n");
}

#[test]
fn edit_reports_a_change_and_keeps_the_row() {
    let (mut app, keys) = list_of(&["a", "b"]);
    let event = app.edited(keys[1], "bee");
    assert!(matches!(event, Some(Event::Modified)));
    assert_eq!(app.row(keys[1]), Some(1));
    assert_eq!(texts(&app), vec!["a", "bee"]);
}

#[test]
fn activation_of_an_empty_row_asks_for_nothing() {
    let (mut app, keys) = list_of(&["a", ""]);
    assert!(matches!(app.activated(keys[0]), Some(Event::Insert(k)) if k == keys[0]));
    assert!(app.activated(keys[1]).is_none());
    app.remove(keys[0]);
    assert!(app.activated(keys[0]).is_none());
}

#[test]
fn a_row_reports_its_own_key() {
    let (app, keys) = list_of(&["a"]);
    let task = app.task(keys[0]).unwrap();
    assert!(matches!(task.remove_clicked(), Event::Remove(k) if k == keys[0]));
    assert!(matches!(task.activated(), Some(Event::Insert(k)) if k == keys[0]));
}
