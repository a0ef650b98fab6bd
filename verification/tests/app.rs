use wanna::app::{App, Effect, EditField, Mode, Screen};
use wanna::input::{Key, KeyCode};
use wanna::model::{Quadrant, SyncResponse, Want};
use wanna::store::Op;

fn k(c: char) -> Key {
    Key { code: KeyCode::Char(c), ctrl: false }
}

fn code(code: KeyCode) -> Key {
    Key { code, ctrl: false }
}

fn want(id: &str, energy: bool, clau: bool, pos: &str) -> Want {
    let mut w = Want::new(id.to_string(), energy, clau, pos.to_string());
    w.id = id.to_string();
    w
}

fn ids(app: &App, q: Quadrant) -> Vec<String> {
    app.list(q).iter().map(|w| w.id.clone()).collect()
}

fn hq() -> Quadrant {
    Quadrant { energy: true, clau: false }
}

#[test]
fn new_asks_for_sync() {
    let mut app = App::new(vec![], 2, true);
    assert_eq!(app.outbox_len, 2);
    assert!(app.has_remote());
    let effects = app.take_effects();
    assert!(matches!(effects.as_slice(), [Effect::Sync]));
    assert!(app.take_effects().is_empty());
    assert!(app.begin_sync());
    app.sync_sent();
    assert!(!app.begin_sync());
    assert!(app.dirty);
    app.sync_finished();
    assert!(!app.finish_sync(false, 0));
    assert_eq!(app.online, Some(true));
    assert!(matches!(app.take_effects().as_slice(), [Effect::Sync]));
    let mut local = App::new(vec![], 0, false);
    assert!(!local.begin_sync());
}

#[test]
fn lists_sort_and_filter() {
    let mut done = want("d", true, false, "A");
    done.done_at = Some("2026-01-02T00:00:00Z".into());
    let mut done2 = want("e", false, false, "B");
    done2.done_at = Some("2026-01-03T00:00:00Z".into());
    let mut gone = want("g", true, false, "B");
    gone.deleted = true;
    let app = App::new(vec![want("b", true, false, "W"), want("a", true, false, "W"), want("c", true, false, "V"), done, done2, gone], 0, false);
    assert_eq!(ids(&app, hq()), ["c", "a", "b"]);
    let d: Vec<&str> = app.done().iter().map(|w| w.id.as_str()).collect();
    assert_eq!(d, ["e", "d"]);
    assert_eq!(app.selected().map(|w| w.id.as_str()), Some("c"));
    assert_eq!(app.cur_q(), hq());
}

#[test]
fn add_flow_creates_at_end_of_quadrant() {
    let mut app = App::new(vec![want("a", true, true, "V")], 0, true);
    app.take_effects();
    app.on_key(k('n'));
    for c in "  新しい ".chars() {
        app.on_key(k(c));
    }
    app.on_key(code(KeyCode::Enter));
    assert!(matches!(&app.mode, Mode::AddEnergy { title, energy: true } if title == "新しい"));
    app.on_key(k('l'));
    app.on_key(k('h'));
    app.on_key(code(KeyCode::Enter));
    assert!(matches!(&app.mode, Mode::AddClau { clau: false, .. }));
    app.on_key(code(KeyCode::Tab));
    app.on_key(code(KeyCode::Enter));
    assert!(matches!(app.mode, Mode::Normal));
    let l = app.list(Quadrant { energy: true, clau: true });
    assert_eq!(l.len(), 2);
    assert_eq!(l[1].title, "新しい");
    assert_eq!(l[1].pos, "W");
    assert_eq!(app.cur, 1);
    assert_eq!(app.sel[1], 1);
    let effects = app.take_effects();
    assert!(matches!(effects.as_slice(), [Effect::Commit { want: Some(_), op: Op::Create { .. } }, Effect::Sync]));
}

#[test]
fn add_title_esc_and_empty_enter() {
    let mut app = App::new(vec![], 0, false);
    app.on_key(k('n'));
    app.on_key(code(KeyCode::Enter));
    assert!(matches!(app.mode, Mode::AddTitle(_)));
    app.on_key(code(KeyCode::Esc));
    assert!(matches!(app.mode, Mode::Normal));
}

#[test]
fn navigation_between_quadrants() {
    let mut app = App::new(vec![want("a", true, false, "V"), want("b", true, false, "W"), want("c", false, false, "V")], 0, false);
    app.on_key(k('j'));
    assert_eq!((app.cur, app.sel[0]), (0, 1));
    app.on_key(k('j'));
    assert_eq!((app.cur, app.sel[2]), (2, 0));
    app.on_key(k('k'));
    assert_eq!((app.cur, app.sel[0]), (0, 1));
    app.on_key(k('l'));
    assert_eq!(app.cur, 1);
    app.on_key(k('h'));
    assert_eq!(app.cur, 0);
    app.on_key(k('1'));
    assert_eq!(app.sel[0], 0);
    app.on_key(k('G'));
    assert_eq!(app.sel[0], 1);
    app.on_key(k('g'));
    assert_eq!(app.sel[0], 0);
    app.on_key(k('9'));
    assert_eq!(app.sel[0], 0);
    app.on_key(k('a'));
    assert_eq!(app.screen, Screen::Done);
    app.on_key(code(KeyCode::Esc));
    assert_eq!(app.screen, Screen::Wants);
    app.on_key(Key { code: KeyCode::Char('c'), ctrl: true });
    assert!(app.quit);
}

#[test]
fn reorder_with_between_and_renumber() {
    let mut app = App::new(vec![want("a", true, false, "V"), want("b", true, false, "W"), want("c", true, false, "X")], 0, false);
    app.on_key(k('J'));
    assert_eq!(ids(&app, hq()), ["b", "a", "c"]);
    assert_eq!(app.sel[0], 1);
    app.on_key(k('K'));
    assert_eq!(ids(&app, hq()), ["a", "b", "c"]);
    // equal keys leave no room: the quadrant is renumbered
    let mut app = App::new(vec![want("a", true, false, "V"), want("b", true, false, "V"), want("c", true, false, "V")], 0, false);
    app.take_effects();
    app.on_key(k('J'));
    assert_eq!(ids(&app, hq()), ["b", "a", "c"]);
    let keys: Vec<String> = app.list(hq()).iter().map(|w| w.pos.clone()).collect();
    assert!(keys[0] < keys[1] && keys[1] < keys[2]);
    assert_eq!(app.take_effects().len(), 6);
}

#[test]
fn move_done_undo_delete() {
    let mut app = App::new(vec![want("a", true, false, "V"), want("b", true, true, "V")], 0, false);
    app.on_key(k('L'));
    assert_eq!(ids(&app, Quadrant { energy: true, clau: true }), ["b", "a"]);
    assert_eq!((app.cur, app.sel[1]), (1, 1));
    app.on_key(k('E'));
    assert_eq!(ids(&app, Quadrant { energy: false, clau: true }), ["a"]);
    app.on_key(k('t'));
    assert_eq!(app.message.as_deref(), Some("やった！ a"));
    assert!(ids(&app, Quadrant { energy: false, clau: true }).is_empty());
    app.on_key(k('a'));
    app.on_key(k('u'));
    assert_eq!(app.message.as_deref(), Some("やりたいことに戻しました: a"));
    assert_eq!(ids(&app, Quadrant { energy: false, clau: true }), ["a"]);
    app.on_key(k('a'));
    app.on_key(k('l'));
    app.on_key(k('d'));
    assert!(matches!(app.mode, Mode::ConfirmDelete { .. }));
    app.on_key(k('x'));
    assert!(matches!(app.mode, Mode::ConfirmDelete { .. }));
    app.on_key(k('y'));
    assert!(app.message.as_deref().unwrap().starts_with("削除しました: "));
    assert!(app.wants.iter().any(|w| w.deleted));
}

#[test]
fn edit_saves_changes_only() {
    let mut app = App::new(vec![want("a", true, false, "V")], 0, false);
    app.on_key(k('e'));
    assert!(matches!(&app.mode, Mode::Edit { field: EditField::Title, .. }));
    app.on_key(k('!'));
    app.on_key(code(KeyCode::Tab));
    app.on_key(k('m'));
    app.on_key(code(KeyCode::Enter));
    app.on_key(Key { code: KeyCode::Char('s'), ctrl: true });
    assert_eq!(app.wants[0].title, "a!");
    assert_eq!(app.wants[0].notes, "m");
    app.take_effects();
    app.on_key(k('e'));
    app.on_key(code(KeyCode::Enter));
    assert!(app.take_effects().is_empty());
    app.save_edit("a", "   ", "m  \n");
    assert!(app.take_effects().is_empty());
}

#[test]
fn remote_sync_decisions() {
    let mut app = App::new(vec![want("a", true, false, "V")], 0, true);
    app.take_effects();
    app.on_remote(3, 3);
    assert!(app.take_effects().is_empty());
    app.on_remote(4, 3);
    assert_eq!(app.take_effects().len(), 1);
    app.tick(true);
    assert_eq!(app.take_effects().len(), 1);
    app.sync_sent();
    app.tick(true);
    assert!(app.take_effects().is_empty());
    app.sync_finished();
    let before = app.selected_id();
    assert!(App::is_pending("x", &vec!["x".to_string()]));
    assert!(!App::is_pending("a", &vec!["x".to_string()]));
    let resp = SyncResponse { rev: 5, wants: vec![want("a", true, false, "X"), want("z", true, false, "A")] };
    for w in resp.wants {
        app.merge_remote(w);
    }
    app.after_pull(before);
    assert_eq!(ids(&app, hq()), ["z", "a"]);
    assert_eq!(app.sel[0], 1);
    assert!(app.finish_sync(true, 2));
    assert_eq!(app.online, Some(false));
    assert_eq!(app.message.as_deref(), Some("2 件の変更がサーバーに拒否されました"));
}

#[test]
fn unsent_changes_win_over_the_server() {
    let pulled = vec![want("a", true, false, "V"), want("b", true, false, "W"), want("c", false, true, "V")];
    let pending = vec!["b".to_string(), "x".to_string()];
    let taken = App::wants_to_take(&pulled, &pending);
    assert_eq!(taken.iter().map(|w| w.id.as_str()).collect::<Vec<_>>(), ["a", "c"]);
    assert!(App::wants_to_take(&pulled, &vec![]).len() == 3);
}

#[test]
fn keys_keep_ids_and_merge_replaces_by_id() {
    let mut app = App::new(vec![want("a", true, false, "V"), want("b", true, false, "V"), want("c", true, false, "V")], 0, false);
    let before: Vec<String> = app.wants.iter().map(|w| w.id.clone()).collect();
    for c in ['J', 'L', 't', 'E', 'K'] {
        app.on_key(k(c));
        let now: Vec<String> = app.wants.iter().map(|w| w.id.clone()).collect();
        assert_eq!(now, before);
    }
    app.merge_remote(want("b", false, false, "Z"));
    app.merge_remote(want("d", false, false, "Z"));
    let ids: Vec<&str> = app.wants.iter().map(|w| w.id.as_str()).collect();
    assert_eq!(ids, ["a", "b", "c", "d"]);
}
