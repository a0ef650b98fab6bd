use wanna::model::{sort_by_pos, Quadrant, Want, WantPatch};

fn want(id: &str, pos: &str) -> Want {
    let mut w = Want::new(id.to_string(), true, false, pos.to_string());
    w.id = id.to_string();
    w
}

#[test]
fn apply_patch() {
    let mut w = Want::new("a".into(), true, false, "V".into());
    w.apply(&WantPatch { done_at: Some(Some("t".into())), ..Default::default() });
    assert!(!w.is_active());
    w.apply(&WantPatch { done_at: Some(None), clau: Some(true), ..Default::default() });
    assert!(w.is_active());
    assert_eq!(w.quadrant().label(), "エネルギー高・clau高");
}

#[test]
fn new_want_defaults() {
    let w = Want::new("x".into(), false, true, "W".into());
    assert_eq!(w.title, "x");
    assert_eq!(w.pos, "W");
    assert_eq!(w.notes, "");
    assert!(w.done_at.is_none() && !w.deleted && w.rev == 0);
    assert_eq!(w.id.len(), 36);
    assert_eq!(&w.id[14..15], "7");
    assert_eq!(w.quadrant(), Quadrant { energy: false, clau: true });
    assert!(w.created_at.ends_with('Z'));
    let b = w.created_at.as_bytes();
    assert_eq!(b.len(), 20);
    assert_eq!((b[4], b[7], b[10], b[13], b[16]), (b'-', b'-', b'T', b':', b':'));
    assert!(w.is_active());
}

#[test]
fn apply_keeps_unset_fields() {
    let mut w = want("a", "V");
    w.notes = "memo".into();
    w.apply(&WantPatch { title: Some("b".into()), ..Default::default() });
    assert_eq!(w.title, "b");
    assert_eq!(w.notes, "memo");
    assert_eq!(w.pos, "V");
    assert!(w.energy && !w.clau);
    w.apply(&WantPatch { energy: Some(false), pos: Some("X".into()), notes: Some(String::new()), ..Default::default() });
    assert!(!w.energy);
    assert_eq!(w.pos, "X");
    assert_eq!(w.notes, "");
    assert_eq!(w.id, "a");
}

#[test]
fn labels_of_all_quadrants() {
    let all = Quadrant::all();
    let labels: Vec<&str> = all.iter().map(|q| q.label()).collect();
    assert_eq!(
        labels,
        ["エネルギー高・clau低", "エネルギー高・clau高", "エネルギー低・clau低", "エネルギー低・clau高"]
    );
    assert_eq!(Quadrant::at(3), Quadrant { energy: false, clau: true });
}

#[test]
fn sort_by_pos_then_id() {
    let a = want("b", "W");
    let b = want("a", "W");
    let c = want("c", "V");
    let d = want("d", "X");
    let mut v = vec![&a, &b, &c, &d];
    sort_by_pos(&mut v);
    let ids: Vec<&str> = v.iter().map(|w| w.id.as_str()).collect();
    assert_eq!(ids, ["c", "a", "b", "d"]);
}
