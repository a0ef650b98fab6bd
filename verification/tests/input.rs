use wanna::input::{Key, KeyCode, TextInput};

fn key(code: KeyCode) -> Key {
    Key { code, ctrl: false }
}

fn ctrl(c: char) -> Key {
    Key { code: KeyCode::Char(c), ctrl: true }
}

#[test]
fn new_puts_cursor_at_end() {
    let t = TextInput::new("あいう");
    assert_eq!(t.cursor, 3);
    assert_eq!(t.before_cursor(), "あいう");
}

#[test]
fn insert_at_cursor_in_characters() {
    let mut t = TextInput::new("aé");
    t.cursor = 1;
    t.insert('x');
    assert_eq!(t.text, "axé");
    assert_eq!(t.cursor, 2);
    assert_eq!(t.before_cursor(), "ax");
}

#[test]
fn handle_editing_keys() {
    let mut t = TextInput::new("hello");
    assert!(t.handle(key(KeyCode::Left)));
    assert_eq!(t.cursor, 4);
    assert!(t.handle(key(KeyCode::Backspace)));
    assert_eq!(t.text, "helo");
    assert_eq!(t.cursor, 3);
    assert!(t.handle(key(KeyCode::Delete)));
    assert_eq!(t.text, "hel");
    assert!(!t.handle(key(KeyCode::Delete)));
    assert!(t.handle(ctrl('a')));
    assert_eq!(t.cursor, 0);
    assert!(!t.handle(key(KeyCode::Backspace)));
    assert!(t.handle(key(KeyCode::Char('X'))));
    assert_eq!(t.text, "Xhel");
    assert!(t.handle(ctrl('e')));
    assert_eq!(t.cursor, 4);
    t.cursor = 2;
    assert!(t.handle(ctrl('u')));
    assert_eq!(t.text, "el");
    assert_eq!(t.cursor, 0);
    assert!(t.handle(key(KeyCode::End)));
    assert!(t.handle(key(KeyCode::Right)));
    assert_eq!(t.cursor, 2);
    assert!(t.handle(key(KeyCode::Home)));
    assert!(t.handle(key(KeyCode::Left)));
    assert_eq!(t.cursor, 0);
    assert!(!t.handle(ctrl('z')));
    assert!(!t.handle(key(KeyCode::Enter)));
    assert_eq!(t.text, "el");
}

#[test]
fn before_cursor_past_end_is_whole_text() {
    let t = TextInput { text: "ab".into(), cursor: 9 };
    assert_eq!(t.before_cursor(), "ab");
    let d = TextInput::default();
    assert_eq!(d.text, "");
    assert_eq!(d.cursor, 0);
}

#[test]
fn typing_then_backspace_restores() {
    let mut t = TextInput::new("あいう");
    t.cursor = 1;
    assert!(t.handle(key(KeyCode::Char('x'))));
    assert_eq!((t.text.as_str(), t.cursor), ("あxいう", 2));
    assert!(t.handle(key(KeyCode::Backspace)));
    assert_eq!((t.text.as_str(), t.cursor), ("あいう", 1));
    // Left then Delete removes what Backspace would
    let mut u = TextInput::new("abc");
    u.handle(key(KeyCode::Left));
    u.handle(key(KeyCode::Delete));
    assert_eq!((u.text.as_str(), u.cursor), ("ab", 2));
}

#[test]
fn cursor_stays_inside_text() {
    let keys = [
        key(KeyCode::Char('z')),
        key(KeyCode::Backspace),
        key(KeyCode::Delete),
        key(KeyCode::Left),
        key(KeyCode::Right),
        key(KeyCode::Home),
        key(KeyCode::End),
        ctrl('a'),
        ctrl('e'),
        ctrl('u'),
    ];
    for c in 0..=3 {
        for k in keys {
            let mut t = TextInput::new("abc");
            t.cursor = c;
            t.handle(k);
            assert!(t.cursor <= t.text.chars().count());
        }
    }
}
