//! The one thing the app keeps: a want, with the quadrant it sits in, its
//! partial updates and the server's sync answer.

use vstd::prelude::*;
use crate::text::{lemma_lex_lt_asym, lemma_lex_lt_irrefl, lemma_lex_lt_total, lemma_lex_lt_trans, lex_lt, str_lt};

verus! {

/// A want. Nothing else is kept.
#[derive(Debug)]
pub struct Want {
    pub id: String,
    pub title: String,
    pub notes: String,
    /// `true` = high energy
    pub energy: bool,
    /// `true` = high clau
    pub clau: bool,
    /// Sort key inside the quadrant (see `pos`).
    pub pos: String,
    /// When it was done (RFC 3339). Set means it is on the done side.
    pub done_at: Option<String>,
    pub deleted: bool,
    /// Revision given by the server; 0 until the server has it.
    pub rev: i64,
    pub created_at: String,
}

impl Clone for Want {
    fn clone(&self) -> (r: Self)
        ensures
            r == *self,
    {
        Want {
            id: self.id.clone(),
            title: self.title.clone(),
            notes: self.notes.clone(),
            energy: self.energy,
            clau: self.clau,
            pos: self.pos.clone(),
            done_at: match &self.done_at {
                Some(d) => Some(d.clone()),
                None => None,
            },
            deleted: self.deleted,
            rev: self.rev,
            created_at: self.created_at.clone(),
        }
    }
}

/// A quadrant: high or low energy times high or low clau.
#[derive(Debug, Clone, Copy, PartialEq, Eq, Hash, Structural)]
pub struct Quadrant {
    pub energy: bool,
    pub clau: bool,
}

/// A partial update: only the fields that are set are written.
#[derive(Debug, Default)]
pub struct WantPatch {
    pub title: Option<String>,
    pub notes: Option<String>,
    pub energy: Option<bool>,
    pub clau: Option<bool>,
    pub pos: Option<String>,
    /// `None` = unchanged, `Some(None)` = cleared (JSON `null`).
    pub done_at: Option<Option<String>>,
}

fn clone_opt(s: &Option<String>) -> (r: Option<String>)
    ensures
        r == *s,
{
    match s {
        Some(v) => Some(v.clone()),
        None => None,
    }
}

impl Clone for WantPatch {
    fn clone(&self) -> (r: Self)
        ensures
            r == *self,
    {
        WantPatch {
            title: clone_opt(&self.title),
            notes: clone_opt(&self.notes),
            energy: self.energy,
            clau: self.clau,
            pos: clone_opt(&self.pos),
            done_at: match &self.done_at {
                Some(d) => Some(clone_opt(d)),
                None => None,
            },
        }
    }
}

/// The answer to `GET /api/sync`.
#[derive(Debug)]
pub struct SyncResponse {
    pub rev: i64,
    pub wants: Vec<Want>,
}

/// A want as plain values.
pub struct WantView {
    pub id: Seq<char>,
    pub title: Seq<char>,
    pub notes: Seq<char>,
    pub energy: bool,
    pub clau: bool,
    pub pos: Seq<char>,
    pub done_at: Option<Seq<char>>,
    pub deleted: bool,
    pub rev: i64,
    pub created_at: Seq<char>,
}

pub open spec fn opt_view(s: Option<String>) -> Option<Seq<char>> {
    match s {
        Some(v) => Some(v@),
        None => None,
    }
}

impl View for Want {
    type V = WantView;

    open spec fn view(&self) -> WantView {
        WantView {
            id: self.id@,
            title: self.title@,
            notes: self.notes@,
            energy: self.energy,
            clau: self.clau,
            pos: self.pos@,
            done_at: opt_view(self.done_at),
            deleted: self.deleted,
            rev: self.rev,
            created_at: self.created_at@,
        }
    }
}

/// A patch as plain values.
pub struct PatchView {
    pub title: Option<Seq<char>>,
    pub notes: Option<Seq<char>>,
    pub energy: Option<bool>,
    pub clau: Option<bool>,
    pub pos: Option<Seq<char>>,
    pub done_at: Option<Option<Seq<char>>>,
}

impl View for WantPatch {
    type V = PatchView;

    open spec fn view(&self) -> PatchView {
        PatchView {
            title: opt_view(self.title),
            notes: opt_view(self.notes),
            energy: self.energy,
            clau: self.clau,
            pos: opt_view(self.pos),
            done_at: match self.done_at {
                Some(d) => Some(opt_view(d)),
                None => None,
            },
        }
    }
}

/// `w` with the fields that `p` sets overwritten, as plain values.
pub open spec fn apply_view(w: WantView, p: PatchView) -> WantView {
    WantView {
        title: match p.title { Some(v) => v, None => w.title },
        notes: match p.notes { Some(v) => v, None => w.notes },
        energy: match p.energy { Some(v) => v, None => w.energy },
        clau: match p.clau { Some(v) => v, None => w.clau },
        pos: match p.pos { Some(v) => v, None => w.pos },
        done_at: match p.done_at { Some(v) => v, None => w.done_at },
        ..w
    }
}

/// On the want list, as plain values.
pub open spec fn active_view(w: WantView) -> bool {
    !w.deleted && w.done_at is None
}

/// `want` with the fields that `p` sets overwritten.
pub open spec fn apply_spec(w: Want, p: WantPatch) -> Want {
    Want {
        title: match p.title { Some(v) => v, None => w.title },
        notes: match p.notes { Some(v) => v, None => w.notes },
        energy: match p.energy { Some(v) => v, None => w.energy },
        clau: match p.clau { Some(v) => v, None => w.clau },
        pos: match p.pos { Some(v) => v, None => w.pos },
        done_at: match p.done_at { Some(v) => v, None => w.done_at },
        ..w
    }
}

/// On the want list: neither done nor deleted.
pub open spec fn active_spec(w: Want) -> bool {
    !w.deleted && w.done_at is None
}

/// The patch that sets no field.
pub open spec fn empty_patch(p: WantPatch) -> bool {
    &&& p.title is None
    &&& p.notes is None
    &&& p.energy is None
    &&& p.clau is None
    &&& p.pos is None
    &&& p.done_at is None
}

/// `p` and `q` set no field in common.
pub open spec fn disjoint_patches(p: WantPatch, q: WantPatch) -> bool {
    &&& (p.title is None || q.title is None)
    &&& (p.notes is None || q.notes is None)
    &&& (p.energy is None || q.energy is None)
    &&& (p.clau is None || q.clau is None)
    &&& (p.pos is None || q.pos is None)
    &&& (p.done_at is None || q.done_at is None)
}

/// One patch holding both: where both set a field, `q`'s value.
pub open spec fn merge_patches(p: WantPatch, q: WantPatch) -> WantPatch {
    WantPatch {
        title: if q.title is Some { q.title } else { p.title },
        notes: if q.notes is Some { q.notes } else { p.notes },
        energy: if q.energy is Some { q.energy } else { p.energy },
        clau: if q.clau is Some { q.clau } else { p.clau },
        pos: if q.pos is Some { q.pos } else { p.pos },
        done_at: if q.done_at is Some { q.done_at } else { p.done_at },
    }
}

impl Want {
    /// The quadrant the want sits in.
    pub fn quadrant(&self) -> (q: Quadrant)
        ensures
            q == (Quadrant { energy: self.energy, clau: self.clau }),
    {
        Quadrant { energy: self.energy, clau: self.clau }
    }

    /// On the want list: not done and not deleted.
    pub fn is_active(&self) -> (r: bool)
        ensures
            r == active_spec(*self),
            r == active_view(self@),
    {
        !self.deleted && self.done_at.is_none()
    }

    /// Applies a partial update.
    pub fn apply(&mut self, p: &WantPatch)
        ensures
            *final(self) == apply_spec(*old(self), *p),
            final(self)@ == apply_view(old(self)@, p@),
    {
        if let Some(v) = &p.title {
            self.title = v.clone();
        }
        if let Some(v) = &p.notes {
            self.notes = v.clone();
        }
        if let Some(v) = p.energy {
            self.energy = v;
        }
        if let Some(v) = p.clau {
            self.clau = v;
        }
        if let Some(v) = &p.pos {
            self.pos = v.clone();
        }
        if let Some(v) = &p.done_at {
            self.done_at = clone_opt(v);
        }
    }
}

/// Applying a patch a second time changes nothing.
pub proof fn law_apply_idempotent(w: Want, p: WantPatch)
    ensures
        apply_spec(apply_spec(w, p), p) == apply_spec(w, p),
{
}

/// A patch that sets nothing leaves the want as it is.
pub proof fn law_apply_empty(w: Want, p: WantPatch)
    requires
        empty_patch(p),
    ensures
        apply_spec(w, p) == w,
{
}

/// Patches that touch different fields do not conflict: either order gives
/// the same want.
pub proof fn law_apply_disjoint_commute(w: Want, p: WantPatch, q: WantPatch)
    requires
        disjoint_patches(p, q),
    ensures
        apply_spec(apply_spec(w, p), q) == apply_spec(apply_spec(w, q), p),
{
}

/// Two patches in a row act as one: where both set a field, the later wins.
pub proof fn law_apply_last_wins(w: Want, p: WantPatch, q: WantPatch)
    ensures
        apply_spec(apply_spec(w, p), q) == apply_spec(w, merge_patches(p, q)),
{
}

/// A patch never changes the identity, the tombstone, the revision or the
/// creation time.
pub proof fn law_apply_keeps_identity(w: Want, p: WantPatch)
    ensures
        apply_spec(w, p).id == w.id,
        apply_spec(w, p).deleted == w.deleted,
        apply_spec(w, p).rev == w.rev,
        apply_spec(w, p).created_at == w.created_at,
{
}

/// Marking done takes a want off the list; clearing `done_at` puts a
/// want that is not deleted back on it.
pub proof fn law_done_toggles_active(w: Want, p: WantPatch)
    ensures
        p.done_at matches Some(Some(_)) ==> !active_spec(apply_spec(w, p)),
        (p.done_at matches Some(None)) && !w.deleted ==> active_spec(apply_spec(w, p)),
{
}

/// The label of a quadrant.
pub open spec fn label_spec(q: Quadrant) -> Seq<char> {
    if q.energy && !q.clau {
        "エネルギー高・clau低"@
    } else if q.energy && q.clau {
        "エネルギー高・clau高"@
    } else if !q.energy && !q.clau {
        "エネルギー低・clau低"@
    } else {
        "エネルギー低・clau高"@
    }
}

/// The quadrants in screen order: top left, top right, bottom left, bottom right.
pub open spec fn quadrant_at(i: int) -> Quadrant {
    Quadrant { energy: i < 2, clau: i % 2 == 1 }
}

impl Quadrant {
    /// The quadrants in screen order: top left, top right, bottom left,
    /// bottom right (high energy on top, high clau on the right).
    pub fn all() -> (r: [Quadrant; 4])
        ensures
            forall|i: int| 0 <= i < 4 ==> r@[i] == quadrant_at(i),
    {
        [
            Quadrant { energy: true, clau: false },
            Quadrant { energy: true, clau: true },
            Quadrant { energy: false, clau: false },
            Quadrant { energy: false, clau: true },
        ]
    }

    /// The quadrant at screen position `i` (0 to 3).
    pub fn at(i: usize) -> (q: Quadrant)
        requires
            i < 4,
        ensures
            q == quadrant_at(i as int),
    {
        Quadrant { energy: i < 2, clau: i % 2 == 1 }
    }

    /// The label that spells out both axes, e.g. "エネルギー高・clau低".
    pub fn label(&self) -> (r: &'static str)
        ensures
            r@ == label_spec(*self),
    {
        if self.energy && !self.clau {
            "エネルギー高・clau低"
        } else if self.energy && self.clau {
            "エネルギー高・clau高"
        } else if !self.energy && !self.clau {
            "エネルギー低・clau低"
        } else {
            "エネルギー低・clau高"
        }
    }
}

/// The two orders in which wants are listed.
#[derive(Debug, Clone, Copy, PartialEq, Eq, Structural)]
pub enum Order {
    /// Inside a quadrant: by `(pos, id)`.
    ByPos,
    /// On the done screen: latest `done_at` first, then by `id`.
    DoneDesc,
}

pub open spec fn opt_str_lt(x: Option<Seq<char>>, y: Option<Seq<char>>) -> bool {
    match (x, y) {
        (None, Some(_)) => true,
        (Some(s), Some(t)) => lex_lt(s, t),
        _ => false,
    }
}

/// `a` may come before `b` in order `o`.
pub open spec fn key_le(o: Order, a: WantView, b: WantView) -> bool {
    match o {
        Order::ByPos => lex_lt(a.pos, b.pos) || (a.pos == b.pos && !lex_lt(b.id, a.id)),
        Order::DoneDesc => opt_str_lt(b.done_at, a.done_at) || (a.done_at == b.done_at && !lex_lt(b.id, a.id)),
    }
}

/// The wants behind a sequence of references, as plain values.
pub open spec fn views(s: Seq<&Want>) -> Seq<WantView> {
    s.map_values(|w: &Want| w@)
}

/// A sequence of wants as plain values.
pub open spec fn seq_views(s: Seq<Want>) -> Seq<WantView> {
    s.map_values(|w: Want| w@)
}

/// Every element may come before every later one.
pub open spec fn sorted_by(o: Order, s: Seq<WantView>) -> bool {
    forall|i: int, j: int| 0 <= i < j < s.len() ==> key_le(o, #[trigger] s[i], #[trigger] s[j])
}

/// Where `x` goes into `s`: after the last element that may come before it.
pub open spec fn insert_pos(o: Order, s: Seq<WantView>, x: WantView) -> nat
    decreases s.len(),
{
    if s.len() == 0 {
        0
    } else if key_le(o, s.last(), x) {
        s.len()
    } else {
        insert_pos(o, s.drop_last(), x)
    }
}

/// Stable sort: each element in turn goes after everything before it that
/// may come before it.
pub open spec fn sort_spec(o: Order, s: Seq<WantView>) -> Seq<WantView>
    decreases s.len(),
{
    if s.len() == 0 {
        s
    } else {
        let t = sort_spec(o, s.drop_last());
        t.insert(insert_pos(o, t, s.last()) as int, s.last())
    }
}

proof fn lemma_str_facts(x: Seq<char>, y: Seq<char>)
    ensures
        x =~= y || lex_lt(x, y) || lex_lt(y, x),
        !(lex_lt(x, y) && lex_lt(y, x)),
        !lex_lt(x, x),
        !lex_lt(y, y),
{
    lemma_lex_lt_total(x, y);
    lemma_lex_lt_asym(x, y);
    lemma_lex_lt_irrefl(x);
    lemma_lex_lt_irrefl(y);
}

proof fn lemma_key_le_total(o: Order, a: WantView, b: WantView)
    ensures
        key_le(o, a, b) || key_le(o, b, a),
{
    lemma_str_facts(a.pos, b.pos);
    lemma_str_facts(a.id, b.id);
    if let (Some(x), Some(y)) = (a.done_at, b.done_at) {
        lemma_str_facts(x, y);
    }
}

proof fn lemma_key_le_trans(o: Order, a: WantView, b: WantView, c: WantView)
    requires
        key_le(o, a, b),
        key_le(o, b, c),
    ensures
        key_le(o, a, c),
{
    lemma_str_facts(a.id, b.id);
    lemma_str_facts(b.id, c.id);
    lemma_str_facts(a.id, c.id);
    lemma_str_facts(a.pos, b.pos);
    lemma_str_facts(b.pos, c.pos);
    lemma_str_facts(a.pos, c.pos);
    if lex_lt(c.id, a.id) && !lex_lt(b.id, a.id) && !lex_lt(c.id, b.id) {
        if lex_lt(a.id, b.id) {
            if lex_lt(b.id, c.id) {
                lemma_lex_lt_trans(a.id, b.id, c.id);
            } else {
                assert(b.id =~= c.id);
            }
        } else {
            assert(a.id =~= b.id);
        }
    }
    match o {
        Order::ByPos => {
            if lex_lt(a.pos, b.pos) && lex_lt(b.pos, c.pos) {
                lemma_lex_lt_trans(a.pos, b.pos, c.pos);
            }
        },
        Order::DoneDesc => {
            if let (Some(x), Some(y), Some(z)) = (a.done_at, b.done_at, c.done_at) {
                lemma_str_facts(x, y);
                lemma_str_facts(y, z);
                lemma_str_facts(x, z);
                if lex_lt(y, x) && lex_lt(z, y) {
                    lemma_lex_lt_trans(z, y, x);
                }
            }
        },
    }
}

proof fn lemma_insert_pos(o: Order, s: Seq<WantView>, x: WantView)
    ensures
        insert_pos(o, s, x) <= s.len(),
        insert_pos(o, s, x) > 0 ==> key_le(o, s[insert_pos(o, s, x) - 1], x),
        forall|j: int| insert_pos(o, s, x) <= j < s.len() ==> !key_le(o, #[trigger] s[j], x),
    decreases s.len(),
{
    if s.len() > 0 && !key_le(o, s.last(), x) {
        lemma_insert_pos(o, s.drop_last(), x);
        assert forall|j: int| insert_pos(o, s, x) <= j < s.len() implies !key_le(o, #[trigger] s[j], x) by {
            if j < s.len() - 1 {
                assert(s[j] == s.drop_last()[j]);
            }
        }
    }
}

/// Inserting at `insert_pos` keeps a sorted sequence sorted.
proof fn lemma_insert_sorted(o: Order, s: Seq<WantView>, x: WantView)
    requires
        sorted_by(o, s),
    ensures
        sorted_by(o, s.insert(insert_pos(o, s, x) as int, x)),
{
    let p = insert_pos(o, s, x) as int;
    lemma_insert_pos(o, s, x);
    let t = s.insert(p, x);
    s.insert_ensures(p, x);
    assert forall|i: int, j: int| 0 <= i < j < t.len() implies key_le(o, #[trigger] t[i], #[trigger] t[j]) by {
        if j < p {
            assert(t[i] == s[i] && t[j] == s[j]);
        } else if j == p {
            assert(t[i] == s[i]);
            if i < p - 1 {
                lemma_key_le_trans(o, s[i], s[p - 1], x);
            }
        } else if i > p {
            assert(t[i] == s[i - 1] && t[j] == s[j - 1]);
        } else if i == p {
            assert(t[j] == s[j - 1]);
            assert(!key_le(o, s[j - 1], x));
            lemma_key_le_total(o, s[j - 1], x);
        } else {
            assert(t[i] == s[i] && t[j] == s[j - 1]);
            assert(!key_le(o, s[j - 1], x));
            lemma_key_le_total(o, s[j - 1], x);
            if i < p - 1 {
                lemma_key_le_trans(o, s[i], s[p - 1], x);
            }
            lemma_key_le_trans(o, s[i], x, s[j - 1]);
        }
    }
}

/// The stable sort gives a sorted rearrangement of its input.
pub proof fn law_sort_sorted_permutation(o: Order, s: Seq<WantView>)
    ensures
        sorted_by(o, sort_spec(o, s)),
        sort_spec(o, s).to_multiset() == s.to_multiset(),
        sort_spec(o, s).len() == s.len(),
    decreases s.len(),
{
    broadcast use vstd::seq_lib::group_to_multiset_ensures;
    if s.len() > 0 {
        let t = sort_spec(o, s.drop_last());
        law_sort_sorted_permutation(o, s.drop_last());
        lemma_insert_sorted(o, t, s.last());
        lemma_insert_pos(o, t, s.last());
        assert(s =~= s.drop_last().push(s.last()));
        t.insert_ensures(insert_pos(o, t, s.last()) as int, s.last());
    }
}

/// `a` may come before `b`.
fn key_le_exec(o: Order, a: &Want, b: &Want) -> (r: bool)
    ensures
        r == key_le(o, a@, b@),
{
    match o {
        Order::ByPos => {
            str_lt(a.pos.as_str(), b.pos.as_str()) || (a.pos == b.pos && !str_lt(b.id.as_str(), a.id.as_str()))
        },
        Order::DoneDesc => {
            let lt = match (&b.done_at, &a.done_at) {
                (None, Some(_)) => true,
                (Some(x), Some(y)) => str_lt(x.as_str(), y.as_str()),
                _ => false,
            };
            let eq = match (&a.done_at, &b.done_at) {
                (None, None) => true,
                (Some(x), Some(y)) => *x == *y,
                _ => false,
            };
            lt || (eq && !str_lt(b.id.as_str(), a.id.as_str()))
        },
    }
}

/// Stable sort of `wants` in order `o`.
pub fn sort_wants(wants: &mut Vec<&Want>, o: Order)
    ensures
        views(final(wants)@) == sort_spec(o, views(old(wants)@)),
{
    let mut res: Vec<&Want> = Vec::new();
    let mut i: usize = 0;
    assert(views(old(wants)@).take(0) =~= Seq::<WantView>::empty());
    assert(views(res@) =~= Seq::<WantView>::empty());
    while i < wants.len()
        invariant
            i <= wants@.len(),
            wants@ == old(wants)@,
            views(res@) == sort_spec(o, views(wants@).take(i as int)),
        decreases wants@.len() - i,
    {
        let x = wants[i];
        let mut p = res.len();
        assert(views(res@).take(p as int) =~= views(res@));
        while p > 0 && !key_le_exec(o, res[p - 1], x)
            invariant
                p <= res@.len(),
                insert_pos(o, views(res@), x@) == insert_pos(o, views(res@).take(p as int), x@),
            decreases p,
        {
            assert(views(res@).take(p as int).drop_last() =~= views(res@).take(p - 1));
            p = p - 1;
        }
        proof {
            if p > 0 {
                assert(views(res@).take(p as int).last() == views(res@)[p - 1]);
            }
            assert(insert_pos(o, views(res@).take(p as int), x@) == p);
        }
        let ghost old_res = res@;
        res.insert(p, x);
        assert(views(res@) =~= views(old_res).insert(p as int, x@));
        assert(views(wants@).take(i + 1).drop_last() =~= views(wants@).take(i as int));
        assert(views(wants@).take(i + 1).last() == x@);
        i = i + 1;
    }
    assert(views(wants@).take(wants@.len() as int) =~= views(wants@));
    *wants = res;
}

/// Lists wants in display order inside a quadrant: by `(pos, id)`, so that
/// two keys made at the same place on two devices still have a fixed order.
pub fn sort_by_pos(wants: &mut Vec<&Want>)
    ensures
        views(final(wants)@) == sort_spec(Order::ByPos, views(old(wants)@)),
{
    sort_wants(wants, Order::ByPos);
}

/// An ASCII decimal digit.
pub open spec fn is_digit(c: char) -> bool {
    '0' <= c && c <= '9'
}

/// `s` is a time in RFC 3339 form, whole seconds, in UTC written as `Z`,
/// e.g. `2026-09-18T12:34:56Z`: the year in four digits (past 9999, `+`
/// and more digits), then `-MM-DDTHH:MM:SSZ`.
pub open spec fn is_rfc3339_utc_secs(s: Seq<char>) -> bool {
    let n = s.len();
    &&& n >= 20
    &&& forall|i: int| 0 <= i < n - 16 ==> is_digit(#[trigger] s[i]) || (i == 0 && s[i] == '+')
    &&& s[n - 16] == '-' && s[n - 13] == '-' && s[n - 10] == 'T'
    &&& s[n - 7] == ':' && s[n - 4] == ':' && s[n - 1] == 'Z'
    &&& is_digit(s[n - 15]) && is_digit(s[n - 14]) && is_digit(s[n - 12]) && is_digit(s[n - 11])
    &&& is_digit(s[n - 9]) && is_digit(s[n - 8]) && is_digit(s[n - 6]) && is_digit(s[n - 5])
    &&& is_digit(s[n - 3]) && is_digit(s[n - 2])
}

/// `s` is a UUID in hyphenated lower-case form, e.g.
/// `67e55044-10b1-426f-9247-bb680e5fe0c8`.
pub open spec fn is_hyphenated_uuid(s: Seq<char>) -> bool {
    &&& s.len() == 36
    &&& forall|i: int| 0 <= i < 36 ==> {
        if i == 8 || i == 13 || i == 18 || i == 23 {
            #[trigger] s[i] == '-'
        } else {
            ('0' <= s[i] && s[i] <= '9') || ('a' <= s[i] && s[i] <= 'f')
        }
    }
}

/// A fresh id: `uuid::Uuid::now_v7()` as a string. It depends on the clock
/// and on random bits; what holds of every outcome is its form, a
/// hyphenated lower-case UUID whose version digit is `7`.
#[verifier::external_body]
fn new_id() -> (r: String)
    ensures
        is_hyphenated_uuid(r@),
        r@[14] == '7',
{
    uuid::Uuid::now_v7().to_string()
}

/// The current time in RFC 3339, whole seconds, UTC written as `Z`
/// (`chrono::Utc::now().to_rfc3339_opts(SecondsFormat::Secs, true)`). The
/// value depends on the clock; what holds of every outcome is its form
/// (chrono writes the year in four digits, or with `+` past 9999; on a
/// clock set before 1970 `Utc::now` panics rather than return).
#[verifier::external_body]
pub fn now_rfc3339() -> (r: String)
    ensures
        is_rfc3339_utc_secs(r@),
{
    chrono::Utc::now().to_rfc3339_opts(chrono::SecondsFormat::Secs, true)
}

impl Want {
    /// A new want at the end position `pos` of its quadrant. The id is a
    /// fresh UUIDv7, the creation time the current time.
    pub fn new(title: String, energy: bool, clau: bool, pos: String) -> (w: Want)
        ensures
            w.title == title,
            w.energy == energy,
            w.clau == clau,
            w.pos == pos,
            w.notes@ == Seq::<char>::empty(),
            w.done_at is None,
            !w.deleted,
            w.rev == 0,
            is_hyphenated_uuid(w.id@),
            w.id@[14] == '7',
            is_rfc3339_utc_secs(w.created_at@),
    {
        Want {
            id: new_id(),
            title,
            notes: String::new(),
            energy,
            clau,
            pos,
            done_at: None,
            deleted: false,
            rev: 0,
            created_at: now_rfc3339(),
        }
    }
}

} // verus!
