use task_list::app::App;
use task_list::text::split_lines;

fn lines(text: &str) -> Vec<String> {
    split_lines(text)
}

#[test]
fn split_agrees_with_std_lines() {
    for text in [
        "", "\n", "a", "a\n", "a\nb", "a\r\nb\r\n", "a\r", "\r\n", "\r", "x\ny\n\n", "\n\n", "a\r\r\nb",
        "é\nü\r\n日本", "a\rb\n",
    ] {
        let want: Vec<String> = text.lines().map(String::from).collect();
        assert_eq!(lines(text), want, "for {:?}", text);
    }
}

#[test]
fn split_keeps_inner_empty_lines() {
    assert_eq!(lines("x\ny\n\n"), vec!["x", "y", ""]);
    assert_eq!(lines("\n\nz"), vec!["", "", "z"]);
}

#[test]
fn split_of_nothing_is_nothing() {
    assert_eq!(lines(""), Vec::<String>::new());
}

#[test]
fn load_then_save_drops_the_empty_line() {
    let mut app = App::new();
    app.load(String::from("x\ny\n\n"));
    assert_eq!(app.count(), 3);
    let keys = app.entities();
    let mut by_row = vec![String::new(); 3];
    for key in keys {
        let task = app.task(key).unwrap();
        assert_eq!(task.entity, Some(key));
        by_row[task.row as usize] = task.text.clone();
    }
    assert_eq!(by_row, vec!["x", "y", ""]);
    assert_eq!(app.serialize(), "x\ny\n");
}

#[test]
fn load_replaces_what_was_there() {
    let mut app = App::new();
    app.load(String::from("a\nb"));
    app.load(String::from("c"));
    assert_eq!(app.count(), 1);
    assert_eq!(app.serialize(), "c\n");
}

#[test]
fn load_of_nothing_leaves_an_empty_list() {
    let mut app = App::new();
    app.load(String::new());
    assert_eq!(app.count(), 0);
    assert_eq!(app.serialize(), "");
}

#[test]
fn load_does_not_touch_the_timer() {
    let mut app = App::new();
    let rearm = app.modified();
    app.load(String::from("a\nb"));
    assert_eq!(app.scheduled_write, Some(rearm.start));
}

#[test]
fn save_then_load_gives_the_filled_texts_in_order() {
    let mut app = App::new();
    app.load(String::from("one\n\ntwo\n\n\nthree"));
    let saved = app.serialize();
    assert_eq!(saved, "one\ntwo\nthree\n");
    let mut again = App::new();
    again.load(saved.clone());
    assert_eq!(again.count(), 3);
    assert_eq!(again.serialize(), saved);
}

#[test]
fn serialize_of_the_first_list_is_empty() {
    assert_eq!(App::new().serialize(), "");
}
