//! The server's rules: what a request may carry, how a create or a patch
//! turns into the row that is written, who may call, and which static
//! file a path asks for. The database and HTTP plumbing stay outside.

use vstd::prelude::*;
use crate::model::{apply_spec, is_rfc3339_utc_secs, Quadrant, Want, WantPatch};
use crate::pos::{after, after_key, after_ok, valid_key};
use crate::text::{has_prefix, is_b62, strip_prefix};

verus! {

/// A want as `POST /api/wants` sends it.
#[derive(Debug)]
pub struct NewWant {
    pub id: String,
    pub title: String,
    pub notes: String,
    pub energy: bool,
    pub clau: bool,
    pub pos: Option<String>,
    pub done_at: Option<String>,
    pub created_at: Option<String>,
}

/// A request the server answers with 400.
#[derive(Debug, Clone, Copy, PartialEq, Eq, Structural)]
pub enum BadRequest {
    InvalidPos,
    InvalidId,
}

impl BadRequest {
    /// The body of the 400 answer.
    pub fn message(&self) -> (r: &'static str)
        ensures
            r@ == (match *self {
                BadRequest::InvalidPos => "invalid pos"@,
                BadRequest::InvalidId => "invalid id"@,
            }),
    {
        match self {
            BadRequest::InvalidPos => "invalid pos",
            BadRequest::InvalidId => "invalid id",
        }
    }
}

/// Whether `p` is a well-formed sort key: non-empty, ASCII letters and
/// digits only, not ending in `0`.
pub fn valid_pos(p: &str) -> (r: bool)
    ensures
        r == valid_key(p@),
{
    let n = p.unicode_len();
    if n == 0 {
        return false;
    }
    if p.get_char(n - 1) == '0' {
        return false;
    }
    let mut i: usize = 0;
    while i < n
        invariant
            i <= n,
            n == p@.len(),
            forall|k: int| 0 <= k < i ==> #[trigger] is_b62(p@[k]),
        decreases n - i,
    {
        let c = p.get_char(i);
        if !(('0' <= c && c <= '9') || ('A' <= c && c <= 'Z') || ('a' <= c && c <= 'z')) {
            assert(!is_b62(p@[i as int]));
            return false;
        }
        i = i + 1;
    }
    true
}

/// The key after `last`, the greatest key of a quadrant (`None`: the
/// quadrant is empty).
pub fn tail_pos(last: Option<&str>) -> (r: String)
    requires
        last matches Some(x) ==> after_ok(x@),
    ensures
        last matches Some(x) ==> r@ == after_key(x@) && crate::text::lex_lt(x@, r@),
        last is None ==> r@ == seq!['V'],
        valid_key(r@),
{
    match last {
        Some(x) => after(x),
        None => {
            let r = crate::pos::between(None, None);
            assert(r@ =~= seq!['V']);
            r
        },
    }
}

/// Checks the body of a create: an empty `pos` counts as none; a given
/// `pos` must be well-formed; the id must have 1 to 64 bytes. On success,
/// the `pos` to use.
pub fn check_create(id: &str, pos: Option<String>) -> (r: Result<Option<String>, BadRequest>)
    ensures
        ({
            let p = match pos {
                Some(s) => if s@.len() > 0 { Some(s) } else { None },
                None => None,
            };
            if p matches Some(s) && !valid_key(s@) {
                r == Err::<Option<String>, BadRequest>(BadRequest::InvalidPos)
            } else if id@.len() == 0 || id.len() > 64 {
                r == Err::<Option<String>, BadRequest>(BadRequest::InvalidId)
            } else {
                r == Ok::<Option<String>, BadRequest>(p)
            }
        }),
{
    let p = match pos {
        Some(s) => if s.as_str().unicode_len() > 0 { Some(s) } else { None },
        None => None,
    };
    if let Some(s) = &p {
        if !valid_pos(s.as_str()) {
            return Err(BadRequest::InvalidPos);
        }
    }
    if id.is_empty() || id.len() > 64 {
        return Err(BadRequest::InvalidId);
    }
    Ok(p)
}

/// Checks the body of a patch: a `pos`, if given, must be well-formed.
pub fn check_patch(p: &WantPatch) -> (ok: bool)
    ensures
        ok == (match p.pos {
            Some(s) => valid_key(s@),
            None => true,
        }),
{
    match &p.pos {
        Some(s) => valid_pos(s.as_str()),
        None => true,
    }
}

/// Whether a create needs the tail key of its quadrant (no `pos` given).
pub fn needs_tail(n: &NewWant) -> (r: bool)
    ensures
        r == (n.pos is None),
{
    n.pos.is_none()
}

/// The row that a create writes. Sending the same id again keeps one row:
/// the tombstone and the creation time of an existing row stay.
/// `tail` is the quadrant's next key, needed when `n` has no `pos`.
pub fn upsert_want(existing: Option<Want>, n: NewWant, tail: Option<String>, rev: i64) -> (w: Want)
    requires
        n.pos is None ==> tail is Some,
    ensures
        w.id == n.id,
        w.title == n.title,
        w.notes == n.notes,
        w.energy == n.energy,
        w.clau == n.clau,
        w.pos == (match n.pos {
            Some(p) => p,
            None => tail->0,
        }),
        w.done_at == n.done_at,
        w.rev == rev,
        w.deleted == (existing matches Some(e) && e.deleted),
        existing matches Some(e) ==> w.created_at == e.created_at,
        (existing is None && n.created_at is Some) ==> w.created_at == n.created_at->0,
        (existing is None && n.created_at is None) ==> is_rfc3339_utc_secs(w.created_at@),
{
    let pos = match n.pos {
        Some(p) => p,
        None => match tail {
            Some(t) => t,
            None => String::new(),
        },
    };
    let (deleted, created_at) = match existing {
        Some(e) => (e.deleted, e.created_at),
        None => (false, match n.created_at {
            Some(c) => c,
            None => crate::model::now_rfc3339(),
        }),
    };
    Want {
        id: n.id,
        title: n.title,
        notes: n.notes,
        energy: n.energy,
        clau: n.clau,
        pos,
        done_at: n.done_at,
        deleted,
        rev,
        created_at,
    }
}

/// A patch moves a want when it changes its quadrant or takes it back
/// from the done side.
pub open spec fn moves(w: Want, p: WantPatch) -> bool {
    let a = apply_spec(w, p);
    (a.energy != w.energy || a.clau != w.clau) || (w.done_at is Some && a.done_at is None)
}

/// A patch moves a want exactly when the want ends up in another
/// quadrant, or comes back from the done side: setting either axis to a
/// new value moves it, and a patch that touches neither axis nor
/// `done_at` never does.
pub proof fn law_patch_moves(w: Want, p: WantPatch)
    ensures
        moves(w, p) == ((Quadrant { energy: apply_spec(w, p).energy, clau: apply_spec(w, p).clau }
            != Quadrant { energy: w.energy, clau: w.clau })
            || (w.done_at is Some && apply_spec(w, p).done_at is None)),
        (p.energy matches Some(e) && e != w.energy) ==> moves(w, p),
        (p.clau matches Some(c) && c != w.clau) ==> moves(w, p),
        (w.done_at is Some && p.done_at == Some(None::<String>)) ==> moves(w, p),
        (p.energy is None && p.clau is None && p.done_at is None) ==> !moves(w, p),
{
}

/// Applies a patch to the stored row. The flag says whether the want must
/// go to the end of its new quadrant: it moved and the patch gave no `pos`.
pub fn patch_want(w: Want, p: &WantPatch) -> (r: (Want, bool))
    ensures
        r.0 == apply_spec(w, *p),
        r.1 == (moves(w, *p) && p.pos is None),
{
    let mut w = w;
    let before = w.quadrant();
    let was_done = w.done_at.is_some();
    w.apply(p);
    let after_q = w.quadrant();
    let moved = after_q.energy != before.energy || after_q.clau != before.clau || (was_done && w.done_at.is_none());
    (w, moved && p.pos.is_none())
}

/// The row as written: the tail key when one was needed, and the new revision.
pub fn finish_write(w: Want, tail: Option<String>, rev: i64) -> (r: Want)
    ensures
        r == (Want {
            pos: match tail {
                Some(t) => t,
                None => w.pos,
            },
            rev,
            ..w
        }),
{
    let mut w = w;
    if let Some(t) = tail {
        w.pos = t;
    }
    w.rev = rev;
    w
}

/// The newest revision to announce after a write of `rev`, and whether it
/// moved on. Announcements never go back.
pub fn advance_rev(cur: i64, rev: i64) -> (r: (i64, bool))
    ensures
        r.0 == (if rev > cur { rev } else { cur }),
        r.1 == (rev > cur),
        r.0 >= cur,
{
    if rev > cur {
        (rev, true)
    } else {
        (cur, false)
    }
}

/// The token a request carries: `Authorization: Bearer <token>`, or else
/// the `token` query parameter (event streams cannot set headers).
pub open spec fn carried_token(header: Option<Seq<char>>, query: Option<Seq<char>>) -> Option<Seq<char>> {
    match header {
        Some(h) if has_prefix(h, "Bearer "@) => Some(h.skip(7)),
        _ => query,
    }
}

/// Whether a request may pass: the token it carries is the server's.
pub fn authorized(header: Option<&str>, query: Option<&str>, token: &str) -> (r: bool)
    ensures
        r == (carried_token(crate::pos::opt_view(header), crate::pos::opt_view(query)) == Some(token@)),
{
    proof {
        reveal_strlit("Bearer ");
    }
    let bearer = match header {
        Some(h) => strip_prefix(h, "Bearer "),
        None => None,
    };
    let chosen = match bearer {
        Some(b) => Some(b),
        None => query,
    };
    match chosen {
        Some(c) => crate::text::str_eq(c, token),
        None => false,
    }
}

/// Number of `/` at the front of `s`.
pub open spec fn leading_slashes(s: Seq<char>) -> nat
    decreases s.len(),
{
    if s.len() > 0 && s[0] == '/' { 1 + leading_slashes(s.drop_first()) } else { 0 }
}

/// The embedded file a request path asks for: `None` under `api/`, the
/// index page for the root.
pub open spec fn static_path_spec(path: Seq<char>) -> Option<Seq<char>> {
    let p = path.skip(leading_slashes(path) as int);
    if has_prefix(p, "api/"@) {
        None
    } else if p.len() == 0 {
        Some("index.html"@)
    } else {
        Some(p)
    }
}

proof fn lemma_leading_slashes_bound(s: Seq<char>)
    ensures
        leading_slashes(s) <= s.len(),
    decreases s.len(),
{
    if s.len() > 0 && s[0] == '/' {
        lemma_leading_slashes_bound(s.drop_first());
    }
}

/// The embedded file a request path asks for.
pub fn static_path(path: &str) -> (r: Option<String>)
    ensures
        match r {
            Some(s) => static_path_spec(path@) == Some(s@),
            None => static_path_spec(path@) is None,
        },
{
    proof {
        reveal_strlit("api/");
        reveal_strlit("index.html");
        lemma_leading_slashes_bound(path@);
    }
    let n = path.unicode_len();
    let mut i: usize = 0;
    assert(path@.skip(0) =~= path@);
    while i < n && path.get_char(i) == '/'
        invariant
            i <= n,
            n == path@.len(),
            leading_slashes(path@) == i + leading_slashes(path@.skip(i as int)),
        decreases n - i,
    {
        assert(path@.skip(i as int).drop_first() =~= path@.skip(i + 1));
        i = i + 1;
    }
    proof {
        if i < n {
            assert(path@.skip(i as int)[0] == path@[i as int]);
        }
    }
    let p = path.substring_char(i, n);
    assert(p@ =~= path@.skip(leading_slashes(path@) as int));
    if strip_prefix(p, "api/").is_some() {
        None
    } else if n == i {
        Some(String::from_str("index.html"))
    } else {
        Some(String::from_str(p))
    }
}

/// The `Cache-Control` value for an embedded file: hashed assets are kept
/// for a year, everything else is checked every time.
pub fn cache_control(path: &str) -> (r: &'static str)
    ensures
        r@ == (if has_prefix(path@, "assets/"@) { "public, max-age=31536000, immutable"@ } else { "no-cache"@ }),
{
    if strip_prefix(path, "assets/").is_some() {
        "public, max-age=31536000, immutable"
    } else {
        "no-cache"
    }
}

} // verus!
