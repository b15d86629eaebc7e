use rpm::screen::{draw, App, Body, Event, Key, ListState, TabsState};

#[test]
fn new_app_lists_keys() {
    let app = App::new("Rusty Password Manager", "mail\nbank");
    assert_eq!(app.title, "Rusty Password Manager");
    assert!(!app.should_quit);
    assert_eq!(app.tabs.titles, vec!["View", "Remove", "Add"]);
    assert_eq!(app.tabs.index, 0);
    assert_eq!(app.tasks.items, vec!["mail", "bank"]);
    assert_eq!(app.tasks.selected, 0);
    let empty = App::new("t", "");
    assert_eq!(empty.tasks.items, vec![""]);
}

#[test]
fn keys_move_selection() {
    let mut app = App::new("t", "a\nb\nc");
    app.on_key('j');
    app.on_key('j');
    assert_eq!(app.tasks.selected, 2);
    app.on_key('j');
    assert_eq!(app.tasks.selected, 2);
    app.on_key('k');
    assert_eq!(app.tasks.selected, 1);
    app.on_up();
    app.on_up();
    assert_eq!(app.tasks.selected, 0);
    app.on_key('x');
    assert!(!app.should_quit);
    app.on_key('q');
    assert!(app.should_quit);
}

#[test]
fn tabs_go_round() {
    let mut app = App::new("t", "a");
    app.on_key('h');
    assert_eq!(app.tabs.index, 2);
    app.on_key('l');
    assert_eq!(app.tabs.index, 0);
    app.on_right();
    app.on_right();
    app.on_right();
    assert_eq!(app.tabs.index, 0);
    let mut tabs = TabsState::new(vec!["one".to_string(), "two".to_string()]);
    tabs.next();
    assert_eq!(tabs.index, 1);
    tabs.previous();
    assert_eq!(tabs.index, 0);
    tabs.previous();
    assert_eq!(tabs.index, 1);
}

#[test]
fn list_state_bounds() {
    let mut l = ListState::new(vec![1, 2]);
    l.select_previous();
    assert_eq!(l.selected, 0);
    l.select_next();
    l.select_next();
    assert_eq!(l.selected, 1);
}

#[test]
fn events_drive_the_app() {
    let mut app = App::new("t", "a\nb");
    app.on_event(Event::Input(Key::Down));
    assert_eq!(app.tasks.selected, 1);
    app.on_event(Event::Input(Key::Up));
    assert_eq!(app.tasks.selected, 0);
    app.on_event(Event::Input(Key::Right));
    assert_eq!(app.tabs.index, 1);
    app.on_event(Event::Input(Key::Left));
    assert_eq!(app.tabs.index, 0);
    app.on_event(Event::Tick);
    app.on_event(Event::Input(Key::Other));
    assert!(!app.should_quit);
    app.on_event(Event::Input(Key::Char('q')));
    assert!(app.should_quit);
}

#[test]
fn drawing_the_tabs() {
    let mut app = App::new("Title", "a\nb");
    app.on_key('j');
    let f = draw(&app);
    assert_eq!(f.title, "Title");
    assert_eq!(f.tab_titles, vec!["View", "Remove", "Add"]);
    assert_eq!(f.selected_tab, 0);
    match f.body {
        Body::KeyList { title, items, selected } => {
            assert_eq!(title, "Key list");
            assert_eq!(items, vec!["a", "b"]);
            assert_eq!(selected, 1);
        }
        Body::Blank => panic!("expected the key list"),
    }
    app.on_key('l');
    assert!(matches!(draw(&app).body, Body::Blank));
}

#[test]
fn quit_stays_through_any_calls() {
    let mut app = App::new("t", "a\nb");
    app.on_key('q');
    app.on_down();
    app.on_up();
    app.on_right();
    app.on_left();
    app.on_tick();
    app.on_key('j');
    app.on_key('x');
    assert!(app.should_quit);
}
