use wanna::migrate::{import_fields, token_step, TokenStep, done_at_of, five, import_id, key_import, levels, meta_json, note_lines, split_notes, task_key, task_order, Meta};
use wanna::model::Want;

fn read_meta(json: &str) -> Option<Meta> {
    let v: serde_json::Value = serde_json::from_str(json).ok()?;
    let obj = v.as_object()?;
    let field = |k: &str| -> Option<u8> {
        match obj.get(k) {
            None => Some(five()),
            Some(x) => x.as_u64().and_then(|n| u8::try_from(n).ok()),
        }
    };
    Some(Meta { imp: field("imp")?, clau: field("clau")? })
}

fn split(notes: &str) -> (String, Option<Meta>) {
    let lines = note_lines(notes);
    let metas: Vec<Option<Meta>> = lines.iter().map(|l| meta_json(l).and_then(read_meta)).collect();
    split_notes(&lines, &metas)
}

#[test]
fn strips_meta_line() {
    let (body, meta) = split("メモ\n\n[todo-meta] {\"imp\":7,\"clau\":2}");
    assert_eq!(body, "メモ");
    let m = meta.unwrap();
    assert_eq!((m.imp, m.clau), (7, 2));
}

#[test]
fn lines_like_std() {
    for s in ["", "a", "a\n", "a\n\nb", "a\r\nb\r\n", "\n", "x\r", "\r\n\r\n"] {
        let ours = note_lines(s);
        let std: Vec<&str> = s.lines().collect();
        assert_eq!(ours, std, "{s:?}");
    }
}

#[test]
fn unreadable_meta_stays_in_body() {
    let (body, meta) = split("  [todo-meta] nope\nline");
    assert_eq!(body, "[todo-meta] nope\nline");
    assert!(meta.is_none());
    assert_eq!(meta_json("  [todo-meta]  {} "), Some("{}"));
    assert_eq!(meta_json("x [todo-meta]"), None);
    let (_, m) = split("[todo-meta] {\"imp\":9}");
    assert_eq!(m, Some(Meta { imp: 9, clau: 5 }));
}

#[test]
fn levels_fold_to_two() {
    assert_eq!(levels(Some(Meta { imp: 6, clau: 5 }), 6), (true, false));
    assert_eq!(levels(Some(Meta { imp: 5, clau: 10 }), 5), (true, true));
    assert_eq!(levels(None, 0), (false, false));
}

#[test]
fn done_time() {
    assert_eq!(done_at_of(Some("completed"), Some("t".into())), Some("t".to_string()));
    assert!(done_at_of(Some("completed"), None).is_some());
    assert_eq!(done_at_of(Some("needsAction"), Some("t".into())), None);
    assert_eq!(done_at_of(None, None), None);
}

#[test]
fn import_ids_are_stable() {
    let a = import_id("abc");
    assert_eq!(a, import_id("abc"));
    assert_ne!(a, import_id("abd"));
    assert_eq!(a, uuid::Uuid::new_v5(&uuid::Uuid::NAMESPACE_URL, b"gtasks:abc").to_string());
    assert_eq!(&a[14..15], "5");
}

#[test]
fn keys_per_quadrant_in_order() {
    let mk = |t: &str, e: bool, c: bool| Want::new(t.into(), e, c, String::new());
    let ws = vec![mk("a", false, false), mk("b", true, false), mk("c", false, false), mk("d", true, true)];
    let out = key_import(&ws);
    let titles: Vec<&str> = out.iter().map(|w| w.title.as_str()).collect();
    assert_eq!(titles, ["b", "d", "a", "c"]);
    assert_eq!(out[0].pos, "V");
    assert_eq!(out[1].pos, "V");
    assert!(out[2].pos < out[3].pos);
}

#[test]
fn task_keys_put_subtasks_after_parent() {
    let top = task_key(0, "00002", None);
    assert_eq!((top.list, top.first.as_str(), top.second.as_str()), (0, "00002", ""));
    let sub = task_key(0, "00001", Some("00002"));
    assert_eq!((sub.list, sub.first.as_str(), sub.second.as_str()), (0, "00002", "00001"));
}

#[test]
fn tasks_ordered_by_list_parent_then_own() {
    let keys = vec![
        task_key(1, "00000", None),
        task_key(0, "00005", None),
        task_key(0, "00001", Some("00002")),
        task_key(0, "00002", None),
        task_key(0, "00000", Some("00002")),
        task_key(0, "00005", None),
    ];
    // list 0 first; the subtasks of "00002" right after it; equal keys keep their order
    assert_eq!(task_order(&keys), vec![3, 4, 2, 1, 5, 0]);
    assert_eq!(task_order(&Vec::new()), Vec::<usize>::new());
}

#[test]
fn token_freshness() {
    assert_eq!(token_step(None, 1000, false), TokenStep::UseStored);
    assert_eq!(token_step(Some(1061), 1000, false), TokenStep::UseStored);
    assert_eq!(token_step(Some(1060), 1000, true), TokenStep::Refresh);
    assert_eq!(token_step(Some(900), 1000, false), TokenStep::NoRefreshToken);
    assert_eq!(token_step(Some(i64::MIN), 0, true), TokenStep::Refresh);
}

#[test]
fn import_fields_skip_and_prefer_local_meta() {
    let local = Some(Meta { imp: 8, clau: 1 });
    let inline = Some(Meta { imp: 2, clau: 9 });
    assert!(import_fields(true, "x", local, inline).is_none());
    assert!(import_fields(false, "  \n", local, inline).is_none());
    let (t, m) = import_fields(false, "  読む ", local, inline).unwrap();
    assert_eq!(t, "読む");
    assert_eq!(m, local);
    assert_eq!(import_fields(false, "a", None, inline).unwrap().1, inline);
}
