use task_list::app::{App, QUIET_PERIOD_MS};
use task_list::events::{BgEvent, Event};

fn first_key(app: &App) -> slotmap::DefaultKey {
    app.entities()[0]
}

#[test]
fn quiet_period_is_five_seconds() {
    assert_eq!(QUIET_PERIOD_MS, 5000);
}

#[test]
fn first_edit_starts_a_timer_and_cancels_none() {
    let mut app = App::new();
    let rearm = app.modified();
    assert_eq!(rearm.cancel, None);
    assert_eq!(rearm.start, 0);
    assert_eq!(rearm.delay_ms, 5000);
    assert_eq!(app.scheduled_write, Some(0));
}

#[test]
fn each_edit_cancels_the_timer_before_it() {
    let mut app = App::new();
    let first = app.modified();
    let second = app.modified();
    let third = app.modified();
    assert_eq!(second.cancel, Some(first.start));
    assert_eq!(third.cancel, Some(second.start));
    assert_eq!(app.scheduled_write, Some(third.start));
    assert!(app.timer_fired(first.start).is_none());
    assert!(app.timer_fired(second.start).is_none());
    assert!(matches!(app.timer_fired(third.start), Some(Event::SyncToDisk)));
}

#[test]
fn timer_names_wrap_around() {
    let mut app = App::new();
    app.timers = u64::MAX;
    let last = app.modified();
    assert_eq!(last.start, u64::MAX);
    let next = app.modified();
    assert_eq!(next.start, 0);
    assert_eq!(next.cancel, Some(u64::MAX));
}

#[test]
fn a_save_clears_the_pending_timer() {
    let mut app = App::new();
    let rearm = app.modified();
    let command = app.sync_to_disk();
    assert!(matches!(command, BgEvent::Save(path, contents) if path == "Task" && contents == ""));
    assert_eq!(app.scheduled_write, None);
    assert!(app.timer_fired(rearm.start).is_none());
}

#[test]
fn three_edits_then_close_save_once_before_quit() {
    let mut app = App::new();
    let key = first_key(&app);
    let mut saves = 0;
    let mut pending = None;
    for text in ["h", "he", "hey"] {
        let event = app.edited(key, text).unwrap();
        let reaction = app.handle(event);
        assert!(reaction.commands.is_empty());
        let rearm = reaction.rearm.unwrap();
        assert_eq!(rearm.cancel, pending);
        pending = Some(rearm.start);
    }
    let reaction = app.handle(Event::Closed);
    assert!(!reaction.quit);
    assert_eq!(reaction.commands.len(), 2);
    for command in &reaction.commands {
        if let BgEvent::Save(path, contents) = command {
            saves += 1;
            assert_eq!(path, "Task");
            assert_eq!(contents, "hey\n");
        }
    }
    assert_eq!(saves, 1);
    assert!(matches!(reaction.commands[0], BgEvent::Save(_, _)));
    assert!(matches!(reaction.commands[1], BgEvent::Quit));
    assert!(app.timer_fired(pending.unwrap()).is_none());
    assert!(app.handle(Event::Quit).quit);
}

#[test]
fn handle_insert_returns_the_new_task() {
    let mut app = App::new();
    let key = first_key(&app);
    assert!(app.can_handle(&Event::Insert(key)));
    let reaction = app.handle(Event::Insert(key));
    let created = reaction.created.unwrap();
    assert_eq!(app.row(created), Some(1));
    assert_eq!(app.row(key), Some(0));
    assert!(reaction.rearm.is_none() && reaction.commands.is_empty() && !reaction.quit);
}

#[test]
fn handle_remove_keeps_the_last_row() {
    let mut app = App::new();
    let key = first_key(&app);
    let reaction = app.handle(Event::Remove(key));
    assert!(reaction.created.is_none() && reaction.commands.is_empty());
    assert_eq!(app.count(), 1);
    let second = app.insert(key);
    app.handle(Event::Remove(key));
    assert_eq!(app.count(), 1);
    assert_eq!(app.row(second), Some(0));
}

#[test]
fn handle_load_shows_the_lines() {
    let mut app = App::new();
    let event = Event::Load(String::from("a\nb\n"));
    assert!(app.can_handle(&event));
    let reaction = app.handle(event);
    assert!(reaction.rearm.is_none() && reaction.commands.is_empty());
    assert_eq!(app.count(), 2);
    assert_eq!(app.serialize(), "a\nb\n");
}

#[test]
fn handle_sync_sends_one_save() {
    let mut app = App::new();
    app.load(String::from("a"));
    app.modified();
    let reaction = app.handle(Event::SyncToDisk);
    assert_eq!(reaction.commands.len(), 1);
    assert!(matches!(&reaction.commands[0], BgEvent::Save(p, c) if p == "Task" && c == "a\n"));
    assert_eq!(app.scheduled_write, None);
}

#[test]
fn handle_quit_changes_nothing() {
    let mut app = App::new();
    app.load(String::from("a\nb"));
    let reaction = app.handle(Event::Quit);
    assert!(reaction.quit);
    assert!(reaction.commands.is_empty() && reaction.rearm.is_none() && reaction.created.is_none());
    assert_eq!(app.serialize(), "a\nb\n");
}
