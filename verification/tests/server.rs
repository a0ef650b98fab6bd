use wanna::model::{Want, WantPatch};
use wanna::pos::between;
use wanna::server::{
    advance_rev, authorized, cache_control, check_create, check_patch, finish_write, needs_tail, patch_want,
    static_path, tail_pos, upsert_want, valid_pos, BadRequest, NewWant,
};

fn new(id: &str, energy: bool, clau: bool) -> NewWant {
    NewWant {
        id: id.into(),
        title: id.into(),
        notes: String::new(),
        energy,
        clau,
        pos: None,
        done_at: None,
        created_at: None,
    }
}

#[test]
fn valid_pos_rules() {
    assert!(valid_pos("V"));
    assert!(valid_pos("0V"));
    assert!(!valid_pos(""));
    assert!(!valid_pos("V0"));
    assert!(!valid_pos("a-b"));
    assert!(!valid_pos("あ"));
}

#[test]
fn tail_pos_after_last() {
    assert_eq!(tail_pos(None), "V");
    assert_eq!(tail_pos(Some("V")), "W");
    assert_eq!(tail_pos(Some("z")), "z1");
}

#[test]
fn create_checks() {
    assert_eq!(check_create("a", Some("V".into())), Ok(Some("V".to_string())));
    assert_eq!(check_create("a", Some(String::new())), Ok(None));
    assert_eq!(check_create("a", None), Ok(None));
    assert_eq!(check_create("a", Some("V0".into())), Err(BadRequest::InvalidPos));
    assert_eq!(check_create("", None), Err(BadRequest::InvalidId));
    assert_eq!(check_create(&"x".repeat(65), None), Err(BadRequest::InvalidId));
    assert_eq!(check_create(&"x".repeat(64), None), Ok(None));
    assert_eq!(check_create("", Some("0".into())), Err(BadRequest::InvalidPos));
    assert_eq!(BadRequest::InvalidPos.message(), "invalid pos");
    assert_eq!(BadRequest::InvalidId.message(), "invalid id");
    assert!(check_patch(&WantPatch { pos: Some("W".into()), ..Default::default() }));
    assert!(!check_patch(&WantPatch { pos: Some("W0".into()), ..Default::default() }));
    assert!(check_patch(&WantPatch::default()));
}

#[test]
fn upsert_keeps_tombstone_and_creation_time() {
    let n = new("a", true, false);
    assert!(needs_tail(&n));
    let a = upsert_want(None, n, Some(tail_pos(None)), 1);
    assert_eq!((a.pos.as_str(), a.rev, a.deleted), ("V", 1, false));
    let mut gone = a.clone();
    gone.deleted = true;
    gone.created_at = "2020-01-01T00:00:00Z".into();
    let mut again = new("a", true, false);
    again.pos = Some("X".into());
    again.created_at = Some("2030-01-01T00:00:00Z".into());
    assert!(!needs_tail(&again));
    let a2 = upsert_want(Some(gone), again, None, 7);
    assert!(a2.deleted);
    assert_eq!(a2.created_at, "2020-01-01T00:00:00Z");
    assert_eq!(a2.pos, "X");
    assert_eq!(a2.rev, 7);
    let mut fresh = new("b", false, false);
    fresh.created_at = Some("2021-02-03T04:05:06Z".into());
    let b = upsert_want(None, fresh, Some("W".into()), 2);
    assert_eq!(b.created_at, "2021-02-03T04:05:06Z");
}

#[test]
fn patch_moving_quadrant_asks_for_tail() {
    let w = upsert_want(None, new("b", true, false), Some("W".into()), 2);
    let (w2, tail) = patch_want(w.clone(), &WantPatch { clau: Some(true), ..Default::default() });
    assert!(tail);
    assert!(w2.clau);
    let w3 = finish_write(w2, Some(between(None, None)), 4);
    assert_eq!((w3.pos.as_str(), w3.rev), ("V", 4));
    let (_, tail) = patch_want(w.clone(), &WantPatch { clau: Some(true), pos: Some("Z".into()), ..Default::default() });
    assert!(!tail);
    let (_, tail) = patch_want(w.clone(), &WantPatch { title: Some("t".into()), ..Default::default() });
    assert!(!tail);
    let mut done = w.clone();
    done.done_at = Some("t".into());
    let (back, tail) = patch_want(done, &WantPatch { done_at: Some(None), ..Default::default() });
    assert!(tail);
    assert!(back.done_at.is_none());
    let kept = finish_write(back, None, 9);
    assert_eq!((kept.pos.as_str(), kept.rev), ("W", 9));
}

#[test]
fn revisions_only_move_on() {
    assert_eq!(advance_rev(3, 5), (5, true));
    assert_eq!(advance_rev(5, 3), (5, false));
    assert_eq!(advance_rev(5, 5), (5, false));
}

#[test]
fn auth_by_header_or_query() {
    assert!(authorized(Some("Bearer s3"), None, "s3"));
    assert!(!authorized(Some("Bearer x"), Some("s3"), "s3"));
    assert!(authorized(Some("Basic s3"), Some("s3"), "s3"));
    assert!(authorized(None, Some("s3"), "s3"));
    assert!(!authorized(None, None, "s3"));
    assert!(!authorized(Some("bearer s3"), None, "s3"));
}

#[test]
fn static_paths() {
    assert_eq!(static_path("/"), Some("index.html".to_string()));
    assert_eq!(static_path(""), Some("index.html".to_string()));
    assert_eq!(static_path("//assets/a.js"), Some("assets/a.js".to_string()));
    assert_eq!(static_path("/api/x"), None);
    assert_eq!(static_path("/apis"), Some("apis".to_string()));
    assert_eq!(cache_control("assets/a.js"), "public, max-age=31536000, immutable");
    assert_eq!(cache_control("index.html"), "no-cache");
}

#[test]
fn keys_from_between_pass_validation() {
    let mut k = between(None, None);
    for _ in 0..100 {
        assert!(valid_pos(&k));
        k = between(Some(&k), None);
    }
    let w: Want = upsert_want(None, new("c", false, true), Some(k.clone()), 3);
    assert!(valid_pos(&w.pos));
}

/// The wants table and its revision counter, kept in memory; each write
/// goes through the same library steps as the server's database.
struct Table {
    rev: i64,
    rows: Vec<Want>,
}

impl Table {
    fn next_rev(&mut self) -> i64 {
        self.rev += 1;
        self.rev
    }

    fn get(&self, id: &str) -> Option<Want> {
        self.rows.iter().find(|w| w.id == id).cloned()
    }

    fn tail(&self, energy: bool, clau: bool, exclude: &str) -> String {
        let last = self
            .rows
            .iter()
            .filter(|w| w.energy == energy && w.clau == clau && !w.deleted && w.done_at.is_none() && w.id != exclude)
            .map(|w| w.pos.clone())
            .max();
        tail_pos(last.as_deref())
    }

    fn write(&mut self, w: &Want) {
        match self.rows.iter_mut().find(|x| x.id == w.id) {
            Some(x) => *x = w.clone(),
            None => self.rows.push(w.clone()),
        }
    }

    fn upsert(&mut self, n: NewWant) -> Want {
        let existing = self.get(&n.id);
        let tail = if needs_tail(&n) { Some(self.tail(n.energy, n.clau, &n.id)) } else { None };
        let rev = self.next_rev();
        let w = upsert_want(existing, n, tail, rev);
        self.write(&w);
        w
    }

    fn patch(&mut self, id: &str, p: &WantPatch) -> Option<Want> {
        let w = self.get(id)?;
        let (w, to_tail) = patch_want(w, p);
        let tail = if to_tail { Some(self.tail(w.energy, w.clau, &w.id)) } else { None };
        let rev = self.next_rev();
        let w = finish_write(w, tail, rev);
        self.write(&w);
        Some(w)
    }

    fn delete(&mut self, id: &str) -> Option<i64> {
        self.get(id)?;
        let rev = self.next_rev();
        let x = self.rows.iter_mut().find(|x| x.id == id).unwrap();
        x.deleted = true;
        x.rev = rev;
        Some(rev)
    }

    fn changes_since(&self, since: Option<i64>) -> (i64, Vec<Want>) {
        let mut ch: Vec<Want> = self.rows.iter().filter(|w| w.rev > since.unwrap_or(0)).cloned().collect();
        ch.sort_by_key(|w| w.rev);
        (self.rev, ch)
    }
}

#[test]
fn crud_and_sync() {
    let mut c = Table { rev: 0, rows: Vec::new() };
    let a = c.upsert(new("a", true, false));
    let b = c.upsert(new("b", true, false));
    assert!(a.pos < b.pos);
    assert_eq!((a.rev, b.rev), (1, 2));

    // sent again, still one want
    c.upsert(new("a", true, false));
    let (rev, all) = c.changes_since(None);
    assert_eq!((rev, all.len()), (3, 2));

    // moved to another quadrant: to its end
    let p = WantPatch { clau: Some(true), ..Default::default() };
    let b2 = c.patch("b", &p).unwrap();
    assert_eq!(b2.pos, between(None, None));

    c.delete("a").unwrap();
    let (rev, ch) = c.changes_since(Some(3));
    assert_eq!(rev, 5);
    assert_eq!(ch.iter().map(|w| w.id.as_str()).collect::<Vec<_>>(), ["b", "a"]);
    assert!(ch[1].deleted);

    // a tombstone sent again stays deleted
    let a = c.upsert(new("a", true, false));
    assert!(a.deleted);
    assert!(c.patch("zzz", &p).is_none());
}
