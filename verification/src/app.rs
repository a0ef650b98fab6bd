//! The terminal client's decisions: what each list shows, where the cursor
//! goes, how a key changes the state and which changes go to the local
//! store and the server. Storage, the worker thread, the clock and drawing
//! are left to the caller, who carries out the returned `Effect`s.

use vstd::prelude::*;
use crate::input::{handled_cursor, handled_text, Key, KeyCode, TextInput};
use crate::model::{is_rfc3339_utc_secs, is_hyphenated_uuid, law_sort_sorted_permutation, PatchView, apply_view, active_view, seq_views, sort_spec, sort_wants, quadrant_at, views, Order, Quadrant, Want, WantPatch, WantView};
use crate::pos::{after_key, between, between_key, law_between_splits, lemma_all_b62_after_ok, lemma_n_between_keys, mid_key, n_between, n_between_keys, strictly_between, strictly_sorted, valid_key};
use crate::text::{lex_lt, push_char, str_lt, trim, trim_end, trim_end_spec, trim_spec};
use crate::store::{op_view_id, Op, OpView};

verus! {

/// Which screen is shown.
#[derive(Debug, Clone, Copy, PartialEq, Eq, Structural)]
pub enum Screen {
    Wants,
    Done,
}

/// The field being edited.
#[derive(Debug, Clone, Copy, PartialEq, Eq, Structural)]
pub enum EditField {
    Title,
    Notes,
}

/// The dialog that is open, if any.
#[derive(Debug)]
#[allow(inconsistent_fields)]
pub enum Mode {
    Normal,
    AddTitle(TextInput),
    AddEnergy { title: String, energy: bool },
    AddClau { title: String, energy: bool, clau: bool },
    Edit { id: String, title: TextInput, notes: TextInput, field: EditField },
    ConfirmDelete { id: String, title: String },
}

/// Work the caller carries out, in order, after a call into the client.
#[derive(Debug)]
pub enum Effect {
    /// Store `want` (the current state of the want the operation is about,
    /// if it exists) and queue `op` for the server; then read back the
    /// outbox size. A failure is shown as a message.
    Commit { want: Option<Want>, op: Op },
    /// Ask for a sync round (see `App::begin_sync`).
    Sync,
}

/// An effect as plain values.
pub enum EffectView {
    Commit { want: Option<WantView>, op: OpView },
    Sync,
}

impl View for Effect {
    type V = EffectView;

    open spec fn view(&self) -> EffectView {
        match self {
            Effect::Commit { want, op } => EffectView::Commit {
                want: match want {
                    Some(w) => Some(w@),
                    None => None,
                },
                op: op@,
            },
            Effect::Sync => EffectView::Sync,
        }
    }
}

/// Effects as plain values.
pub open spec fn effect_views(s: Seq<Effect>) -> Seq<EffectView> {
    s.map_values(|e: Effect| e@)
}

/// `w` is shown in quadrant `q`: active and with `q`'s axes.
pub open spec fn in_quadrant(w: WantView, q: Quadrant) -> bool {
    active_view(w) && w.energy == q.energy && w.clau == q.clau
}

/// The wants of quadrant `q`, in stored order.
pub open spec fn filter_q(ws: Seq<WantView>, q: Quadrant) -> Seq<WantView>
    decreases ws.len(),
{
    if ws.len() == 0 {
        ws
    } else {
        let r = filter_q(ws.drop_last(), q);
        if in_quadrant(ws.last(), q) { r.push(ws.last()) } else { r }
    }
}

/// `w` is on the done screen: done and not deleted.
pub open spec fn is_done_item(w: WantView) -> bool {
    !w.deleted && w.done_at is Some
}

/// The done wants, in stored order.
pub open spec fn filter_done(ws: Seq<WantView>) -> Seq<WantView>
    decreases ws.len(),
{
    if ws.len() == 0 {
        ws
    } else {
        let r = filter_done(ws.drop_last());
        if is_done_item(ws.last()) { r.push(ws.last()) } else { r }
    }
}

/// Quadrant `q` as listed: its wants by `(pos, id)`.
pub open spec fn list_spec(ws: Seq<WantView>, q: Quadrant) -> Seq<WantView> {
    sort_spec(Order::ByPos, filter_q(ws, q))
}

/// The done screen as listed: latest first.
pub open spec fn done_spec(ws: Seq<WantView>) -> Seq<WantView> {
    sort_spec(Order::DoneDesc, filter_done(ws))
}

/// Every want on the lists carries a well-formed sort key.
pub open spec fn keys_ok(ws: Seq<WantView>) -> bool {
    forall|i: int| 0 <= i < ws.len() && active_view(ws[i]) ==> valid_key(#[trigger] ws[i].pos)
}

/// No two wants share an id.
pub open spec fn ids_unique(ws: Seq<WantView>) -> bool {
    forall|i: int, j: int| 0 <= i < ws.len() && 0 <= j < ws.len() && i != j ==> #[trigger] ws[i].id != #[trigger] ws[j].id
}

/// Some want of `ws` has id `id`.
pub open spec fn has_id(ws: Seq<WantView>, id: Seq<char>) -> bool {
    exists|a: int| 0 <= a < ws.len() && #[trigger] ws[a].id == id
}

/// The ids of the wants, in stored order.
pub open spec fn ids_of(ws: Seq<WantView>) -> Seq<Seq<char>> {
    ws.map_values(|w: WantView| w.id)
}

/// `b` has the ids of `a`, or those and one more at the end (a want added).
pub open spec fn keeps_ids(a: Seq<WantView>, b: Seq<WantView>) -> bool {
    ||| ids_of(b) == ids_of(a)
    ||| b.len() == a.len() + 1 && ids_of(b) == ids_of(a).push(b.last().id)
}

/// A selection kept inside a list of `len` rows.
pub open spec fn clamp_sel(s: nat, len: nat) -> nat {
    if len == 0 { 0 } else if s < len { s } else { (len - 1) as nat }
}

/// Index of the first want with id `id`.
pub open spec fn index_of_id(s: Seq<WantView>, id: Seq<char>) -> Option<nat>
    decreases s.len(),
{
    if s.len() == 0 {
        None
    } else if s[0].id == id {
        Some(0)
    } else {
        match index_of_id(s.drop_first(), id) {
            Some(i) => Some(i + 1),
            None => None,
        }
    }
}

/// Where the cursor goes to show want `id`: the first quadrant (in screen
/// order) that lists it, and its row there.
pub open spec fn focus_target(ws: Seq<WantView>, id: Seq<char>) -> Option<(nat, nat)> {
    match index_of_id(list_spec(ws, quadrant_at(0)), id) {
        Some(i) => Some((0nat, i)),
        None => match index_of_id(list_spec(ws, quadrant_at(1)), id) {
            Some(i) => Some((1nat, i)),
            None => match index_of_id(list_spec(ws, quadrant_at(2)), id) {
                Some(i) => Some((2nat, i)),
                None => match index_of_id(list_spec(ws, quadrant_at(3)), id) {
                    Some(i) => Some((3nat, i)),
                    None => None,
                },
            },
        },
    }
}

/// The wants after `op` is applied locally: a create adds the want, a
/// patch or a delete changes the first want with the id (if any).
pub open spec fn apply_op(ws: Seq<WantView>, op: OpView) -> Seq<WantView> {
    match op {
        OpView::Create { want } => ws.push(want),
        OpView::Patch { id, patch } => match index_of_id(ws, id) {
            Some(k) => ws.update(k as int, apply_view(ws[k as int], patch)),
            None => ws,
        },
        OpView::Delete { id } => match index_of_id(ws, id) {
            Some(k) => ws.update(k as int, WantView { deleted: true, ..ws[k as int] }),
            None => ws,
        },
    }
}

/// The want that an operation leaves behind, if any.
pub open spec fn want_after(ws: Seq<WantView>, op: OpView) -> Option<WantView> {
    let after = apply_op(ws, op);
    match index_of_id(after, op_view_id(op)) {
        Some(k) => Some(after[k as int]),
        None => None,
    }
}

proof fn lemma_index_of_id(s: Seq<WantView>, id: Seq<char>, i: int)
    requires
        0 <= i <= s.len(),
        forall|k: int| 0 <= k < i ==> s[k].id != id,
    ensures
        index_of_id(s, id) == (match index_of_id(s.skip(i), id) {
            Some(j) => Some((j + i) as nat),
            None => None::<nat>,
        }),
    decreases i,
{
    if i == 0 {
        assert(s.skip(0) =~= s);
    } else {
        lemma_index_of_id(s.drop_first(), id, i - 1);
        assert(s.drop_first().skip(i - 1) =~= s.skip(i));
    }
}

pub(crate) proof fn lemma_index_of_id_found(s: Seq<WantView>, id: Seq<char>)
    ensures
        index_of_id(s, id) matches Some(k) ==> k < s.len() && s[k as int].id == id,
        index_of_id(s, id) is None ==> forall|k: int| 0 <= k < s.len() ==> s[k].id != id,
    decreases s.len(),
{
    if s.len() > 0 {
        lemma_index_of_id_found(s.drop_first(), id);
        if index_of_id(s, id) is None {
            assert forall|k: int| 0 <= k < s.len() implies s[k].id != id by {
                if k > 0 {
                    assert(s[k] == s.drop_first()[k - 1]);
                }
            }
        }
    }
}

/// Index of the first want with id `id`.
fn find_id(ws: &Vec<Want>, id: &str) -> (r: Option<usize>)
    ensures
        r matches Some(k) ==> k < ws@.len(),
        match r {
            Some(k) => index_of_id(seq_views(ws@), id@) == Some(k as nat),
            None => index_of_id(seq_views(ws@), id@) is None,
        },
{
    let mut i: usize = 0;
    while i < ws.len()
        invariant
            i <= ws@.len(),
            forall|k: int| 0 <= k < i ==> seq_views(ws@)[k].id != id@,
        decreases ws@.len() - i,
    {
        if crate::text::str_eq(ws[i].id.as_str(), id) {
            proof {
                lemma_index_of_id(seq_views(ws@), id@, i as int);
                assert(seq_views(ws@).skip(i as int)[0] == ws@[i as int]@);
            }
            return Some(i);
        }
        i = i + 1;
    }
    proof {
        lemma_index_of_id(seq_views(ws@), id@, i as int);
        assert(seq_views(ws@).skip(i as int) =~= Seq::<WantView>::empty());
    }
    None
}

/// Row of the first want with id `id` in a list.
fn find_in(l: &Vec<&Want>, id: &str) -> (r: Option<usize>)
    ensures
        r matches Some(k) ==> k < l@.len(),
        match r {
            Some(k) => index_of_id(views(l@), id@) == Some(k as nat),
            None => index_of_id(views(l@), id@) is None,
        },
{
    let mut i: usize = 0;
    while i < l.len()
        invariant
            i <= l@.len(),
            forall|k: int| 0 <= k < i ==> views(l@)[k].id != id@,
        decreases l@.len() - i,
    {
        if crate::text::str_eq(l[i].id.as_str(), id) {
            proof {
                lemma_index_of_id(views(l@), id@, i as int);
                assert(views(l@).skip(i as int)[0] == l@[i as int]@);
            }
            return Some(i);
        }
        i = i + 1;
    }
    proof {
        lemma_index_of_id(views(l@), id@, i as int);
        assert(views(l@).skip(i as int) =~= Seq::<WantView>::empty());
    }
    None
}

/// The client's state.
pub struct App {
    pub wants: Vec<Want>,
    pub screen: Screen,
    pub mode: Mode,
    /// The quadrant with the cursor, in screen order (0 to 3).
    pub cur: usize,
    /// The selected row of each quadrant.
    pub sel: Vec<usize>,
    /// The selected row of the done screen.
    pub done_sel: usize,
    pub message: Option<String>,
    pub quit: bool,
    pub online: Option<bool>,
    pub outbox_len: usize,
    /// A server is set up.
    pub has_remote: bool,
    /// A sync round is running.
    pub syncing: bool,
    /// Another sync was asked for while one was running.
    pub dirty: bool,
    /// Work waiting for the caller (see `take_effects`).
    pub effects: Vec<Effect>,
}

impl App {
    /// The state's own consistency: four quadrant selections, a quadrant
    /// under the cursor, and well-formed keys on the lists.
    pub open spec fn wf(self) -> bool {
        &&& self.sel@.len() == 4
        &&& self.cur < 4
        &&& keys_ok(self.ws())
    }

    /// The wants as plain values.
    pub open spec fn ws(self) -> Seq<WantView> {
        seq_views(self.wants@)
    }

    /// The selected want, if its list has one at the selection.
    pub open spec fn selected_spec(self) -> Option<WantView> {
        match self.screen {
            Screen::Wants => {
                let l = list_spec(self.ws(), quadrant_at(self.cur as int));
                if self.sel@[self.cur as int] < l.len() { Some(l[self.sel@[self.cur as int] as int]) } else { None }
            },
            Screen::Done => {
                let d = done_spec(self.ws());
                if self.done_sel < d.len() { Some(d[self.done_sel as int]) } else { None }
            },
        }
    }

    /// Whether a server is set up.
    pub fn has_remote(&self) -> (r: bool)
        ensures
            r == self.has_remote,
    {
        self.has_remote
    }

    /// The wants of quadrant `q`, by `(pos, id)`.
    pub fn list(&self, q: Quadrant) -> (r: Vec<&Want>)
        ensures
            views(r@) == list_spec(self.ws(), q),
    {
        let mut v: Vec<&Want> = Vec::new();
        let mut i: usize = 0;
        assert(views(v@) =~= filter_q(self.ws().take(0), q));
        while i < self.wants.len()
            invariant
                i <= self.wants@.len(),
                views(v@) == filter_q(self.ws().take(i as int), q),
            decreases self.wants@.len() - i,
        {
            let w = &self.wants[i];
            let ghost before = v@;
            assert(self.ws().take(i + 1).drop_last() =~= self.ws().take(i as int));
            assert(self.ws().take(i + 1).last() == w@);
            if w.is_active() && w.energy == q.energy && w.clau == q.clau {
                v.push(w);
                assert(views(v@) =~= views(before).push(w@));
            }
            i = i + 1;
        }
        assert(self.ws().take(self.wants@.len() as int) =~= self.ws());
        sort_wants(&mut v, Order::ByPos);
        v
    }

    /// The done wants, latest first.
    pub fn done(&self) -> (r: Vec<&Want>)
        ensures
            views(r@) == done_spec(self.ws()),
    {
        let mut v: Vec<&Want> = Vec::new();
        let mut i: usize = 0;
        assert(views(v@) =~= filter_done(self.ws().take(0)));
        while i < self.wants.len()
            invariant
                i <= self.wants@.len(),
                views(v@) == filter_done(self.ws().take(i as int)),
            decreases self.wants@.len() - i,
        {
            let w = &self.wants[i];
            let ghost before = v@;
            assert(self.ws().take(i + 1).drop_last() =~= self.ws().take(i as int));
            assert(self.ws().take(i + 1).last() == w@);
            if !w.deleted && w.done_at.is_some() {
                v.push(w);
                assert(views(v@) =~= views(before).push(w@));
            }
            i = i + 1;
        }
        assert(self.ws().take(self.wants@.len() as int) =~= self.ws());
        sort_wants(&mut v, Order::DoneDesc);
        v
    }

    /// The quadrant with the cursor.
    pub fn cur_q(&self) -> (q: Quadrant)
        requires
            self.wf(),
        ensures
            q == quadrant_at(self.cur as int),
    {
        Quadrant::at(self.cur)
    }

    fn sel_of_cur(&self) -> (s: usize)
        requires
            self.wf(),
        ensures
            s == self.sel@[self.cur as int],
    {
        self.sel[self.cur]
    }

    /// The selected want.
    pub fn selected(&self) -> (r: Option<&Want>)
        requires
            self.wf(),
        ensures
            match r {
                Some(w) => self.selected_spec() == Some(w@),
                None => self.selected_spec() is None,
            },
    {
        match self.screen {
            Screen::Wants => {
                let l = self.list(self.cur_q());
                let s = self.sel_of_cur();
                if s < l.len() {
                    assert(views(l@)[s as int] == l@[s as int]@);
                    Some(l[s])
                } else {
                    None
                }
            },
            Screen::Done => {
                let d = self.done();
                if self.done_sel < d.len() {
                    assert(views(d@)[self.done_sel as int] == d@[self.done_sel as int]@);
                    Some(d[self.done_sel])
                } else {
                    None
                }
            },
        }
    }
}

impl App {
    /// Keeps every selection inside its list.
    pub fn clamp(&mut self)
        requires
            old(self).wf(),
        ensures
            final(self).wf(),
            *final(self) == (App { sel: final(self).sel, done_sel: final(self).done_sel, ..*old(self) }),
            forall|i: int| 0 <= i < 4 ==> #[trigger] final(self).sel@[i] == clamp_sel(old(self).sel@[i] as nat, list_spec(old(self).ws(), quadrant_at(i)).len()),
            final(self).done_sel == clamp_sel(old(self).done_sel as nat, done_spec(old(self).ws()).len()),
    {
        let ghost sel0 = self.sel@;
        let mut i: usize = 0;
        while i < 4
            invariant
                i <= 4,
                self.wf(),
                *self == (App { sel: self.sel, ..*old(self) }),
                forall|k: int| 0 <= k < i ==> #[trigger] self.sel@[k] == clamp_sel(sel0[k] as nat, list_spec(self.ws(), quadrant_at(k)).len()),
                forall|k: int| i <= k < 4 ==> #[trigger] self.sel@[k] == sel0[k],
                sel0 == old(self).sel@,
            decreases 4 - i,
        {
            let len = self.list(Quadrant::at(i)).len();
            let s = self.sel[i];
            let v = if len == 0 { 0 } else if s < len { s } else { len - 1 };
            self.sel.set(i, v);
            i = i + 1;
        }
        let len = self.done().len();
        let s = self.done_sel;
        self.done_sel = if len == 0 { 0 } else if s < len { s } else { len - 1 };
    }

    /// Puts the cursor on want `id`, if a quadrant lists it.
    pub fn focus(&mut self, id: &str)
        requires
            old(self).wf(),
        ensures
            final(self).wf(),
            match focus_target(old(self).ws(), id@) {
                Some((q, i)) => *final(self) == (App { cur: q as usize, sel: final(self).sel, ..*old(self) })
                    && final(self).sel@ == old(self).sel@.update(q as int, i as usize),
                None => *final(self) == *old(self),
            },
    {
        let mut qi: usize = 0;
        while qi < 4
            invariant
                qi <= 4,
                *self == *old(self),
                self.wf(),
                forall|k: int| 0 <= k < qi ==> index_of_id(#[trigger] list_spec(self.ws(), quadrant_at(k)), id@) is None,
            decreases 4 - qi,
        {
            let l = self.list(Quadrant::at(qi));
            match find_in(&l, id) {
                Some(i) => {
                    proof {
                        lemma_index_of_id_found(list_spec(self.ws(), quadrant_at(qi as int)), id@);
                        assert(i < l@.len());
                    }
                    let ghost ws = self.ws();
                    assert(focus_target(ws, id@) == Some((qi as nat, i as nat))) by {
                        if qi > 0 {
                            assert(index_of_id(list_spec(ws, quadrant_at(0)), id@) is None);
                        }
                        if qi > 1 {
                            assert(index_of_id(list_spec(ws, quadrant_at(1)), id@) is None);
                        }
                        if qi > 2 {
                            assert(index_of_id(list_spec(ws, quadrant_at(2)), id@) is None);
                        }
                    }
                    self.cur = qi;
                    self.sel.set(qi, i);
                    return;
                },
                None => {},
            }
            qi = qi + 1;
        }
        assert(index_of_id(list_spec(self.ws(), quadrant_at(0)), id@) is None);
        assert(index_of_id(list_spec(self.ws(), quadrant_at(1)), id@) is None);
        assert(index_of_id(list_spec(self.ws(), quadrant_at(2)), id@) is None);
        assert(index_of_id(list_spec(self.ws(), quadrant_at(3)), id@) is None);
    }
}

impl App {
    /// The selections as `clamp` leaves them for the wants `ws`.
    pub open spec fn clamped(self, after: App) -> bool {
        &&& forall|i: int| 0 <= i < 4 ==> #[trigger] after.sel@[i] == clamp_sel(self.sel@[i] as nat, list_spec(after.ws(), quadrant_at(i)).len())
        &&& after.done_sel == clamp_sel(self.done_sel as nat, done_spec(after.ws()).len())
        &&& after.sel@.len() == 4
    }

    /// Applies `op` locally, hands it to the caller to store and queue,
    /// keeps the selections in range and asks for a sync.
    pub fn commit(&mut self, op: Op)
        requires
            old(self).wf(),
            keys_ok(apply_op(old(self).ws(), op@)),
        ensures
            final(self).wf(),
            final(self).ws() == apply_op(old(self).ws(), op@),
            effect_views(final(self).effects@) == effect_views(old(self).effects@)
                .push(EffectView::Commit { want: want_after(old(self).ws(), op@), op: op@ })
                .push(EffectView::Sync),
            old(self).clamped(*final(self)),
            *final(self) == (App {
                wants: final(self).wants,
                sel: final(self).sel,
                done_sel: final(self).done_sel,
                effects: final(self).effects,
                ..*old(self)
            }),
    {
        let ghost ws0 = self.ws();
        match &op {
            Op::Create { want } => {
                self.wants.push(want.clone());
                assert(self.ws() =~= ws0.push(want@));
            },
            Op::Patch { id, patch } => {
                match find_id(&self.wants, id.as_str()) {
                    Some(k) => {
                        let mut w = self.wants[k].clone();
                        w.apply(patch);
                        self.wants.set(k, w);
                        assert(self.ws() =~= ws0.update(k as int, apply_view(ws0[k as int], patch@)));
                    },
                    None => {},
                }
            },
            Op::Delete { id } => {
                match find_id(&self.wants, id.as_str()) {
                    Some(k) => {
                        let mut w = self.wants[k].clone();
                        w.deleted = true;
                        self.wants.set(k, w);
                        assert(self.ws() =~= ws0.update(k as int, WantView { deleted: true, ..ws0[k as int] }));
                    },
                    None => {},
                }
            },
        }
        assert(self.ws() == apply_op(ws0, op@));
        let saved = match find_id(&self.wants, op.id()) {
            Some(k) => Some(self.wants[k].clone()),
            None => None,
        };
        let ghost e0 = self.effects@;
        self.effects.push(Effect::Commit { want: saved, op });
        assert(effect_views(self.effects@) =~= effect_views(e0).push(self.effects@.last()@));
        self.clamp();
        let ghost e1 = self.effects@;
        self.effects.push(Effect::Sync);
        assert(effect_views(self.effects@) =~= effect_views(e1).push(EffectView::Sync));
    }
}

/// A patch that only moves a want to sort key `p`.
pub open spec fn pos_only(p: Seq<char>) -> PatchView {
    PatchView { title: None, notes: None, energy: None, clau: None, pos: Some(p), done_at: None }
}

/// The key that `tail_pos` gives quadrant `q`: after its last want, or the
/// first key when it is empty.
pub open spec fn tail_spec(ws: Seq<WantView>, q: Quadrant) -> Seq<char> {
    let l = list_spec(ws, q);
    if l.len() == 0 { mid_key(Seq::empty(), None) } else { after_key(l.last().pos) }
}

pub(crate) proof fn lemma_filter_q_members(ws: Seq<WantView>, q: Quadrant)
    ensures
        forall|k: int| 0 <= k < filter_q(ws, q).len() ==> in_quadrant(#[trigger] filter_q(ws, q)[k], q) && ws.contains(filter_q(ws, q)[k]),
    decreases ws.len(),
{
    if ws.len() > 0 {
        lemma_filter_q_members(ws.drop_last(), q);
        let f = filter_q(ws, q);
        let r = filter_q(ws.drop_last(), q);
        assert forall|k: int| 0 <= k < f.len() implies in_quadrant(#[trigger] f[k], q) && ws.contains(f[k]) by {
            if k < r.len() {
                assert(f[k] == r[k]);
                let j = choose|j: int| 0 <= j < ws.drop_last().len() && ws.drop_last()[j] == r[k];
                assert(ws[j] == r[k]);
            } else {
                assert(f[k] == ws.last());
                assert(ws[ws.len() - 1] == ws.last());
            }
        }
    }
}

/// Every want that a quadrant lists is one of the wants, active and in
/// that quadrant.
pub proof fn lemma_list_members(ws: Seq<WantView>, q: Quadrant)
    ensures
        forall|k: int| 0 <= k < list_spec(ws, q).len() ==> in_quadrant(#[trigger] list_spec(ws, q)[k], q) && ws.contains(list_spec(ws, q)[k]),
{
    broadcast use vstd::seq_lib::group_to_multiset_ensures;
    lemma_filter_q_members(ws, q);
    law_sort_sorted_permutation(Order::ByPos, filter_q(ws, q));
    let l = list_spec(ws, q);
    let f = filter_q(ws, q);
    assert forall|k: int| 0 <= k < l.len() implies in_quadrant(#[trigger] l[k], q) && ws.contains(l[k]) by {
        assert(l.contains(l[k]));
        assert(l.to_multiset().count(l[k]) > 0);
        assert(f.to_multiset().count(l[k]) > 0);
        assert(f.contains(l[k]));
        let j = choose|j: int| 0 <= j < f.len() && f[j] == l[k];
        assert(in_quadrant(f[j], q));
    }
}

/// The wants a quadrant lists all carry well-formed keys.
pub(crate) proof fn lemma_list_keys(ws: Seq<WantView>, q: Quadrant)
    requires
        keys_ok(ws),
    ensures
        forall|k: int| 0 <= k < list_spec(ws, q).len() ==> valid_key(#[trigger] list_spec(ws, q)[k].pos),
{
    lemma_list_members(ws, q);
    assert forall|k: int| 0 <= k < list_spec(ws, q).len() implies valid_key(#[trigger] list_spec(ws, q)[k].pos) by {
        let l = list_spec(ws, q);
        assert(ws.contains(l[k]));
        let j = choose|j: int| 0 <= j < ws.len() && ws[j] == l[k];
        assert(active_view(ws[j]));
    }
}

/// A patch keeps the keys well-formed when it gives a well-formed key, or
/// gives none and does not take a want back from the done side.
proof fn lemma_keys_ok_patch(ws: Seq<WantView>, id: Seq<char>, p: PatchView)
    requires
        keys_ok(ws),
        p.pos matches Some(x) ==> valid_key(x),
        p.pos is None ==> !(p.done_at matches Some(None)),
    ensures
        keys_ok(apply_op(ws, OpView::Patch { id, patch: p })),
{
    let r = apply_op(ws, OpView::Patch { id, patch: p });
    assert forall|i: int| 0 <= i < r.len() && active_view(r[i]) implies valid_key(#[trigger] r[i].pos) by {
        if let Some(k) = index_of_id(ws, id) {
            lemma_index_of_id_found(ws, id);
            if i == k {
                assert(r[i] == apply_view(ws[i], p));
            } else {
                assert(r[i] == ws[i]);
            }
        }
    }
}

impl App {
    /// The key for the end of quadrant `q`.
    pub fn tail_pos(&self, q: Quadrant) -> (r: String)
        requires
            self.wf(),
        ensures
            r@ == tail_spec(self.ws(), q),
            valid_key(r@),
    {
        let l = self.list(q);
        proof {
            lemma_list_keys(self.ws(), q);
        }
        if l.len() > 0 {
            let last = l[l.len() - 1];
            assert(views(l@)[l@.len() - 1] == last@);
            assert(valid_key(list_spec(self.ws(), q)[l@.len() - 1].pos));
            proof {
                lemma_all_b62_after_ok(last.pos@);
            }
            between(Some(last.pos.as_str()), None)
        } else {
            between(None, None)
        }
    }

    /// Queues a patch of want `id`.
    fn patch_id(&mut self, id: &str, patch: WantPatch)
        requires
            old(self).wf(),
            patch@.pos matches Some(x) ==> valid_key(x),
            patch@.pos is None ==> !(patch@.done_at matches Some(None)),
        ensures
            final(self).wf(),
            patch_post(*old(self), *final(self), id@, patch@),
    {
        proof {
            lemma_keys_ok_patch(self.ws(), id@, patch@);
        }
        self.commit(Op::Patch { id: String::from_str(id), patch });
    }
}

/// The wants of a list other than want `id`, in order.
pub open spec fn others(l: Seq<WantView>, id: Seq<char>) -> Seq<WantView>
    decreases l.len(),
{
    if l.len() == 0 {
        l
    } else {
        let r = others(l.drop_last(), id);
        if l.last().id != id { r.push(l.last()) } else { r }
    }
}

/// An operation that only moves want `id` to key `p`.
pub open spec fn pos_op(id: Seq<char>, p: Seq<char>) -> OpView {
    OpView::Patch { id, patch: pos_only(p) }
}

/// The wants after giving each of `ids` the key of the same rank in `keys`, in turn.
pub open spec fn renumber(ws: Seq<WantView>, ids: Seq<Seq<char>>, keys: Seq<Seq<char>>) -> Seq<WantView>
    decreases ids.len(),
{
    if ids.len() == 0 {
        ws
    } else {
        apply_op(renumber(ws, ids.drop_last(), keys), pos_op(ids.last(), keys[ids.len() - 1]))
    }
}

/// The effects of `renumber`: one commit and one sync request per want.
pub open spec fn renumber_effects(ws: Seq<WantView>, ids: Seq<Seq<char>>, keys: Seq<Seq<char>>) -> Seq<EffectView>
    decreases ids.len(),
{
    if ids.len() == 0 {
        Seq::empty()
    } else {
        let prev = renumber(ws, ids.drop_last(), keys);
        let op = pos_op(ids.last(), keys[ids.len() - 1]);
        renumber_effects(ws, ids.drop_last(), keys)
            .push(EffectView::Commit { want: want_after(prev, op), op })
            .push(EffectView::Sync)
    }
}

/// Where `place` puts want `id` in list `l`: row `to` (at most the number
/// of other wants) among the others. When the keys around that row leave
/// room (or one side is open), the want gets a key in between; otherwise
/// the whole quadrant gets evenly spread new keys in the new order.
pub open spec fn place_plan(l: Seq<WantView>, id: Seq<char>, to: nat) -> (bool, Seq<char>, Seq<Seq<char>>, Seq<Seq<char>>) {
    let o = others(l, id);
    let t = if to < o.len() { to } else { o.len() };
    let a = if t > 0 { Some(o[t - 1].pos) } else { None };
    let b = if t < o.len() { Some(o[t as int].pos) } else { None };
    let fits = !(a is Some && b is Some && !lex_lt(a->0, b->0));
    let order = o.map_values(|w: WantView| w.id).insert(t as int, id);
    (fits, between_key(a, b), order, n_between_keys(None, None, order.len()))
}

pub(crate) proof fn lemma_others_members(l: Seq<WantView>, id: Seq<char>)
    ensures
        others(l, id).len() <= l.len(),
        forall|k: int| 0 <= k < others(l, id).len() ==> l.contains(#[trigger] others(l, id)[k]) && others(l, id)[k].id != id,
    decreases l.len(),
{
    if l.len() > 0 {
        lemma_others_members(l.drop_last(), id);
        let o = others(l, id);
        let r = others(l.drop_last(), id);
        assert forall|k: int| 0 <= k < o.len() implies l.contains(#[trigger] o[k]) && o[k].id != id by {
            if k < r.len() {
                assert(o[k] == r[k]);
                let j = choose|j: int| 0 <= j < l.drop_last().len() && l.drop_last()[j] == r[k];
                assert(l[j] == r[k]);
            } else {
                assert(l[l.len() - 1] == o[k]);
            }
        }
    }
}

/// Moving a want within a list of well-formed keys: when the keys around
/// the target row leave room, the want alone gets a new well-formed key,
/// strictly between its new neighbours; otherwise the list's wants, the
/// moved one at the target row, all get well-formed keys in strictly
/// increasing order.
pub proof fn law_place_plan(l: Seq<WantView>, id: Seq<char>, to: nat)
    requires
        forall|k: int| 0 <= k < l.len() ==> valid_key(#[trigger] l[k].pos),
    ensures
        ({
            let plan = place_plan(l, id, to);
            let o = others(l, id);
            let t = if to < o.len() { to } else { o.len() };
            let a = if t > 0 { Some(o[t - 1].pos) } else { None::<Seq<char>> };
            let b = if t < o.len() { Some(o[t as int].pos) } else { None::<Seq<char>> };
            &&& plan.0 ==> valid_key(plan.1) && strictly_between(a, plan.1, b)
            &&& !plan.0 ==> {
                &&& plan.2.len() == o.len() + 1
                &&& plan.2[t as int] == id
                &&& plan.3.len() == plan.2.len()
                &&& strictly_sorted(plan.3)
                &&& forall|k: int| 0 <= k < plan.3.len() ==> valid_key(#[trigger] plan.3[k])
            }
        }),
{
    let plan = place_plan(l, id, to);
    let o = others(l, id);
    let t = if to < o.len() { to } else { o.len() };
    lemma_others_members(l, id);
    assert forall|k: int| 0 <= k < o.len() implies valid_key(#[trigger] o[k].pos) by {
        let j = choose|j: int| 0 <= j < l.len() && l[j] == o[k];
    }
    if plan.0 {
        if t > 0 {
            assert(valid_key(o[t - 1].pos));
        }
        if t < o.len() {
            assert(valid_key(o[t as int].pos));
        }
        law_between_splits(if t > 0 { Some(o[t - 1].pos) } else { None }, if t < o.len() { Some(o[t as int].pos) } else { None });
    } else {
        lemma_n_between_keys(None, None, plan.2.len());
    }
}

proof fn lemma_filter_q_pos_op(ws: Seq<WantView>, id: Seq<char>, p: Seq<char>, q: Quadrant)
    ensures
        filter_q(apply_op(ws, pos_op(id, p)), q).len() == filter_q(ws, q).len(),
        filter_done(apply_op(ws, pos_op(id, p))).len() == filter_done(ws).len(),
{
    if let Some(k) = index_of_id(ws, id) {
        lemma_index_of_id_found(ws, id);
        lemma_filter_update_len(ws, k as int, apply_view(ws[k as int], pos_only(p)), q);
    }
}

proof fn lemma_filter_update_len(ws: Seq<WantView>, k: int, v: WantView, q: Quadrant)
    requires
        0 <= k < ws.len(),
        in_quadrant(v, q) == in_quadrant(ws[k], q),
        is_done_item(v) == is_done_item(ws[k]),
    ensures
        filter_q(ws.update(k, v), q).len() == filter_q(ws, q).len(),
        filter_done(ws.update(k, v)).len() == filter_done(ws).len(),
    decreases ws.len(),
{
    let u = ws.update(k, v);
    if k < ws.len() - 1 {
        assert(u.drop_last() =~= ws.drop_last().update(k, v));
        lemma_filter_update_len(ws.drop_last(), k, v, q);
    } else {
        assert(u.drop_last() =~= ws.drop_last());
    }
}

/// Giving one want a new key leaves every list as long as it was.
proof fn lemma_lists_len_pos_op(ws: Seq<WantView>, id: Seq<char>, p: Seq<char>)
    ensures
        forall|i: int| 0 <= i < 4 ==> #[trigger] list_spec(apply_op(ws, pos_op(id, p)), quadrant_at(i)).len() == list_spec(ws, quadrant_at(i)).len(),
        done_spec(apply_op(ws, pos_op(id, p))).len() == done_spec(ws).len(),
{
    let w2 = apply_op(ws, pos_op(id, p));
    assert forall|i: int| 0 <= i < 4 implies #[trigger] list_spec(w2, quadrant_at(i)).len() == list_spec(ws, quadrant_at(i)).len() by {
        lemma_filter_q_pos_op(ws, id, p, quadrant_at(i));
        law_sort_sorted_permutation(Order::ByPos, filter_q(w2, quadrant_at(i)));
        law_sort_sorted_permutation(Order::ByPos, filter_q(ws, quadrant_at(i)));
    }
    lemma_filter_q_pos_op(ws, id, p, quadrant_at(0));
    law_sort_sorted_permutation(Order::DoneDesc, filter_done(w2));
    law_sort_sorted_permutation(Order::DoneDesc, filter_done(ws));
}

/// The wants after `place`.
pub open spec fn place_ws(ws: Seq<WantView>, l: Seq<WantView>, id: Seq<char>, to: nat) -> Seq<WantView> {
    let plan = place_plan(l, id, to);
    if plan.0 { apply_op(ws, pos_op(id, plan.1)) } else { renumber(ws, plan.2, plan.3) }
}

/// The effects of `place`.
pub open spec fn place_effects(ws: Seq<WantView>, l: Seq<WantView>, id: Seq<char>, to: nat) -> Seq<EffectView> {
    let plan = place_plan(l, id, to);
    if plan.0 {
        let op = pos_op(id, plan.1);
        seq![EffectView::Commit { want: want_after(ws, op), op }, EffectView::Sync]
    } else {
        renumber_effects(ws, plan.2, plan.3)
    }
}

/// The quadrant selections kept inside lists as long as those of `ws`.
pub open spec fn clamped_sel(sel: Seq<usize>, ws: Seq<WantView>) -> Seq<usize> {
    Seq::new(4, |i: int| clamp_sel(sel[i] as nat, list_spec(ws, quadrant_at(i)).len()) as usize)
}

/// What `place` leaves: the wants of `place_ws`, their effects, the
/// selections kept in range and the cursor on want `id`.
pub open spec fn place_post(a: App, b: App, id: Seq<char>, to: nat) -> bool {
    let ws = a.ws();
    let l = list_spec(ws, quadrant_at(a.cur as int));
    let sel = clamped_sel(a.sel@, ws);
    &&& b.ws() == place_ws(ws, l, id, to)
    &&& effect_views(b.effects@) == effect_views(a.effects@) + place_effects(ws, l, id, to)
    &&& (b.cur, b.sel@) == focused(a.cur, sel, b.ws(), id)
    &&& b.done_sel == clamp_sel(a.done_sel as nat, done_spec(ws).len())
    &&& b == (App { wants: b.wants, cur: b.cur, sel: b.sel, done_sel: b.done_sel, effects: b.effects, ..a })
}

/// What a patch of want `id` leaves: the patched wants, a commit and a
/// sync request, and the selections kept in range.
pub open spec fn patch_post(a: App, b: App, id: Seq<char>, p: PatchView) -> bool {
    commit_post(a, b, OpView::Patch { id, patch: p })
}

/// What committing `op` leaves: the changed wants, a commit and a sync
/// request, and the selections kept in range.
pub open spec fn commit_post(a: App, b: App, op: OpView) -> bool {
    &&& b.ws() == apply_op(a.ws(), op)
    &&& effect_views(b.effects@) == effect_views(a.effects@).push(EffectView::Commit { want: want_after(a.ws(), op), op }).push(EffectView::Sync)
    &&& a.clamped(b)
    &&& b == (App { wants: b.wants, sel: b.sel, done_sel: b.done_sel, effects: b.effects, ..a })
}

/// The patch that moves a want to quadrant `q` at key `p`.
pub open spec fn move_patch(q: Quadrant, p: Seq<char>) -> PatchView {
    PatchView { title: None, notes: None, energy: Some(q.energy), clau: Some(q.clau), pos: Some(p), done_at: None }
}

/// What `move_to` leaves: the selected want, when it is in another
/// quadrant, moved to the end of `q`, and the cursor on it.
pub open spec fn move_post(a: App, b: App, q: Quadrant) -> bool {
    match a.selected_spec() {
        Some(w) if !(w.energy == q.energy && w.clau == q.clau) => {
            let ws = a.ws();
            let op = OpView::Patch { id: w.id, patch: move_patch(q, tail_spec(ws, q)) };
            let ws2 = apply_op(ws, op);
            &&& b.ws() == ws2
            &&& effect_views(b.effects@) == effect_views(a.effects@).push(EffectView::Commit { want: want_after(ws, op), op }).push(EffectView::Sync)
            &&& (b.cur, b.sel@) == focused(a.cur, clamped_sel(a.sel@, ws2), ws2, w.id)
            &&& b.done_sel == clamp_sel(a.done_sel as nat, done_spec(ws2).len())
            &&& b == (App { wants: b.wants, cur: b.cur, sel: b.sel, done_sel: b.done_sel, effects: b.effects, ..a })
        },
        _ => b == a,
    }
}

/// The cursor after putting it on want `id` with selections `sel`.
pub open spec fn focused(cur: usize, sel: Seq<usize>, ws: Seq<WantView>, id: Seq<char>) -> (usize, Seq<usize>) {
    match focus_target(ws, id) {
        Some((q, i)) => (q as usize, sel.update(q as int, i as usize)),
        None => (cur, sel),
    }
}

/// Ids and keys of the wants of `l` other than `id`.
fn others_of(l: &Vec<&Want>, id: &str) -> (r: (Vec<String>, Vec<String>))
    ensures
        r.0@.len() == others(views(l@), id@).len(),
        r.1@.len() == r.0@.len(),
        forall|k: int| 0 <= k < r.0@.len() ==> #[trigger] r.0@[k]@ == others(views(l@), id@)[k].id,
        forall|k: int| 0 <= k < r.0@.len() ==> #[trigger] r.1@[k]@ == others(views(l@), id@)[k].pos,
{
    let ghost l0 = views(l@);
    let mut oids: Vec<String> = Vec::new();
    let mut oposs: Vec<String> = Vec::new();
    let mut i: usize = 0;
    assert(l0.take(0) =~= Seq::<WantView>::empty());
    while i < l.len()
        invariant
            i <= l@.len(),
            views(l@) == l0,
            oids@.len() == others(l0.take(i as int), id@).len(),
            oposs@.len() == oids@.len(),
            forall|k: int| 0 <= k < oids@.len() ==> #[trigger] oids@[k]@ == others(l0.take(i as int), id@)[k].id,
            forall|k: int| 0 <= k < oids@.len() ==> #[trigger] oposs@[k]@ == others(l0.take(i as int), id@)[k].pos,
        decreases l@.len() - i,
    {
        let w = l[i];
        assert(l0.take(i + 1).drop_last() =~= l0.take(i as int));
        assert(l0.take(i + 1).last() == w@);
        if !crate::text::str_eq(w.id.as_str(), id) {
            oids.push(w.id.clone());
            oposs.push(w.pos.clone());
        }
        i = i + 1;
    }
    assert(l0.take(l@.len() as int) =~= l0);
    (oids, oposs)
}

/// The ids `oids` with `id` put in at `t`.
fn order_with(oids: &Vec<String>, t: usize, id: &str) -> (r: Vec<String>)
    requires
        t <= oids@.len(),
    ensures
        r@.len() == oids@.len() + 1,
        forall|j: int| 0 <= j < t ==> #[trigger] r@[j]@ == oids@[j]@,
        r@[t as int]@ == id@,
        forall|j: int| t < j < r@.len() ==> #[trigger] r@[j]@ == oids@[j - 1]@,
{
    let mut order: Vec<String> = Vec::new();
    let mut k: usize = 0;
    while k < oids.len()
        invariant
            k <= oids@.len(),
            order@.len() == k,
            forall|j: int| 0 <= j < k ==> #[trigger] order@[j]@ == oids@[j]@,
        decreases oids@.len() - k,
    {
        order.push(oids[k].clone());
        k = k + 1;
    }
    order.insert(t, String::from_str(id));
    order
}

impl App {
    /// Gives each want of `order` the key of the same rank in `keys`.
    fn renumber_all(&mut self, order: &Vec<String>, keys: &Vec<String>)
        requires
            old(self).wf(),
            order@.len() == keys@.len(),
            order@.len() > 0,
            forall|j: int| 0 <= j < keys@.len() ==> valid_key(#[trigger] keys@[j]@),
        ensures
            final(self).wf(),
            final(self).ws() == renumber(old(self).ws(), order@.map_values(|s: String| s@), keys@.map_values(|s: String| s@)),
            effect_views(final(self).effects@) == effect_views(old(self).effects@)
                + renumber_effects(old(self).ws(), order@.map_values(|s: String| s@), keys@.map_values(|s: String| s@)),
            final(self).sel@ =~= clamped_sel(old(self).sel@, old(self).ws()),
            final(self).done_sel == clamp_sel(old(self).done_sel as nat, done_spec(old(self).ws()).len()),
            *final(self) == (App {
                wants: final(self).wants,
                sel: final(self).sel,
                done_sel: final(self).done_sel,
                effects: final(self).effects,
                ..*old(self)
            }),
    {
        let ghost ws0 = self.ws();
        let ghost sel0 = self.sel@;
        let ghost e0 = effect_views(self.effects@);
        let ghost old_self = *self;
        let ghost ov = order@.map_values(|s: String| s@);
        let ghost kv = keys@.map_values(|s: String| s@);
        let m = order.len();
        let mut k: usize = 0;
        assert(ov.take(0) =~= Seq::<Seq<char>>::empty());
        assert(e0 + renumber_effects(ws0, ov.take(0), kv) =~= e0);
        while k < m
            invariant
                k <= m,
                m == order@.len(),
                m == keys@.len(),
                ov == order@.map_values(|s: String| s@),
                kv == keys@.map_values(|s: String| s@),
                forall|j: int| 0 <= j < m ==> valid_key(#[trigger] keys@[j]@),
                self.wf(),
                self.ws() == renumber(ws0, ov.take(k as int), kv),
                effect_views(self.effects@) == e0 + renumber_effects(ws0, ov.take(k as int), kv),
                forall|i: int| 0 <= i < 4 ==> #[trigger] list_spec(self.ws(), quadrant_at(i)).len() == list_spec(ws0, quadrant_at(i)).len(),
                done_spec(self.ws()).len() == done_spec(ws0).len(),
                k == 0 ==> self.sel@ == sel0 && self.done_sel == old_self.done_sel,
                k > 0 ==> self.sel@ =~= clamped_sel(sel0, ws0) && self.done_sel == clamp_sel(old_self.done_sel as nat, done_spec(ws0).len()),
                *self == (App {
                    wants: self.wants,
                    sel: self.sel,
                    done_sel: self.done_sel,
                    effects: self.effects,
                    ..old_self
                }),
            decreases m - k,
        {
            let patch = WantPatch { title: None, notes: None, energy: None, clau: None, pos: Some(keys[k].clone()), done_at: None };
            let ghost before = self.ws();
            assert(ov.take(k + 1).drop_last() =~= ov.take(k as int));
            assert(ov.take(k + 1).last() == ov[k as int]);
            assert(ov[k as int] == order@[k as int]@);
            assert(kv[k as int] == keys@[k as int]@);
            proof {
                lemma_lists_len_pos_op(before, ov[k as int], kv[k as int]);
            }
            self.patch_id(order[k].as_str(), patch);
            assert(renumber(ws0, ov.take(k + 1), kv) == apply_op(before, pos_op(ov[k as int], kv[k as int])));
            assert(effect_views(self.effects@) =~= e0 + renumber_effects(ws0, ov.take(k + 1), kv));
            k = k + 1;
        }
        assert(ov.take(m as int) =~= ov);
    }

    /// Moves want `id` to row `to` of the quadrant under the cursor (see
    /// `place_plan`) and puts the cursor on it.
    #[verifier::rlimit(40)]
    pub fn place(&mut self, id: &str, to: usize)
        requires
            old(self).wf(),
        ensures
            final(self).wf(),
            place_post(*old(self), *final(self), id@, to as nat),
    {
        let q = self.cur_q();
        let ghost ws0 = self.ws();
        let ghost l0 = list_spec(ws0, q);
        let ghost sel0 = self.sel@;
        let ghost e0 = effect_views(self.effects@);
        proof {
            lemma_list_keys(ws0, q);
            lemma_others_members(l0, id@);
        }
        let (oids, oposs) = {
            let l = self.list(q);
            others_of(&l, id)
        };
        let ghost o = others(l0, id@);
        assert forall|k: int| 0 <= k < o.len() implies valid_key(#[trigger] o[k].pos) by {
            let j = choose|j: int| 0 <= j < l0.len() && l0[j] == o[k];
        }
        let n = oids.len();
        let t = if to < n { to } else { n };
        let a: Option<&str> = if t > 0 { Some(oposs[t - 1].as_str()) } else { None };
        let b: Option<&str> = if t < n { Some(oposs[t].as_str()) } else { None };
        let fits = match (a, b) {
            (Some(x), Some(y)) => str_lt(x, y),
            _ => true,
        };
        let ghost plan = place_plan(l0, id@, to as nat);
        assert(crate::pos::opt_view(a) == (if t > 0 { Some(o[t - 1].pos) } else { None::<Seq<char>> }));
        assert(crate::pos::opt_view(b) == (if t < n { Some(o[t as int].pos) } else { None::<Seq<char>> }));
        assert(fits == plan.0);
        if fits {
            proof {
                if let Some(x) = a {
                    assert(valid_key(o[t - 1].pos));
                    lemma_all_b62_after_ok(x@);
                }
            }
            let p = between(a, b);
            assert(p@ == plan.1);
            let patch = WantPatch { title: None, notes: None, energy: None, clau: None, pos: Some(p), done_at: None };
            self.patch_id(id, patch);
            assert(effect_views(self.effects@) =~= e0 + place_effects(ws0, l0, id@, to as nat));
            proof {
                lemma_lists_len_pos_op(ws0, id@, plan.1);
            }
            assert(self.sel@ =~= clamped_sel(sel0, ws0));
        } else {
            let order = order_with(&oids, t, id);
            let ghost ov = o.map_values(|w: WantView| w.id).insert(t as int, id@);
            assert(order@.map_values(|s: String| s@) =~= ov);
            let keys = n_between(None, None, order.len());
            assert(keys@.map_values(|s: String| s@) == plan.3);
            assert(ov == plan.2);
            self.renumber_all(&order, &keys);
        }
        self.focus(id);
    }
}

impl App {
    /// Moves the selected want to the end of quadrant `q` and puts the
    /// cursor on it; nothing happens when it is in `q` already.
    pub fn move_to(&mut self, q: Quadrant)
        requires
            old(self).wf(),
        ensures
            final(self).wf(),
            move_post(*old(self), *final(self), q),
    {
        let (id, wq) = match self.selected() {
            Some(w) => (w.id.clone(), w.quadrant()),
            None => return,
        };
        if wq == q {
            return;
        }
        let p = self.tail_pos(q);
        let ghost pv = p@;
        let patch = WantPatch { title: None, notes: None, energy: Some(q.energy), clau: Some(q.clau), pos: Some(p), done_at: None };
        assert(patch@ == move_patch(q, pv));
        let ghost mid_before = *self;
        self.patch_id(id.as_str(), patch);
        let ghost mid = *self;
        assert(mid.sel@ =~= clamped_sel(mid_before.sel@, mid.ws()));
        self.focus(id.as_str());
    }
}

/// The decimal digits of `n`.
pub open spec fn decimal(n: nat) -> Seq<char>
    decreases n,
{
    if n < 10 {
        seq![crate::text::digit_char(n as int)]
    } else {
        decimal(n / 10).push(crate::text::digit_char((n % 10) as int))
    }
}

/// `n` in decimal.
pub fn decimal_string(n: usize) -> (r: String)
    ensures
        r@ == decimal(n as nat),
    decreases n,
{
    if n < 10 {
        let mut r = String::new();
        push_char(&mut r, crate::text::digit(n as u32));
        r
    } else {
        let mut r = decimal_string(n / 10);
        push_char(&mut r, crate::text::digit((n % 10) as u32));
        r
    }
}

/// `a` followed by `b`.
fn concat(a: &str, b: &str) -> (r: String)
    ensures
        r@ == a@ + b@,
{
    let mut r = String::from_str(a);
    r.append(b);
    r
}

/// The patch that saving the edit dialog sends: the trimmed title when it
/// is not empty and differs, the notes without trailing white space when
/// they differ.
pub open spec fn edit_patch(w: WantView, title: Seq<char>, notes: Seq<char>) -> PatchView {
    let t = trim_spec(title);
    let n = trim_end_spec(notes);
    PatchView {
        title: if t.len() > 0 && t != w.title { Some(t) } else { None },
        notes: if n != w.notes { Some(n) } else { None },
        energy: None,
        clau: None,
        pos: None,
        done_at: None,
    }
}

/// What saving the edit dialog of want `id` leaves.
pub open spec fn save_post(a: App, b: App, id: Seq<char>, title: Seq<char>, notes: Seq<char>) -> bool {
    match index_of_id(a.ws(), id) {
        Some(k) => {
            let p = edit_patch(a.ws()[k as int], title, notes);
            if p.title is None && p.notes is None { b == a } else { patch_post(a, b, id, p) }
        },
        None => b == a,
    }
}

/// The patch that marks a want done at time `t`.
pub open spec fn done_patch(t: Seq<char>) -> PatchView {
    PatchView { title: None, notes: None, energy: None, clau: None, pos: None, done_at: Some(Some(t)) }
}

/// The patch that takes a want back from the done side, to key `p`.
pub open spec fn undo_patch(p: Seq<char>) -> PatchView {
    PatchView { title: None, notes: None, energy: None, clau: None, pos: Some(p), done_at: Some(None) }
}

impl App {
    /// Saves the edit dialog of want `id`: sends what changed, if anything.
    pub fn save_edit(&mut self, id: &str, title: &str, notes: &str)
        requires
            old(self).wf(),
        ensures
            final(self).wf(),
            save_post(*old(self), *final(self), id@, title@, notes@),
    {
        let k = match find_id(&self.wants, id) {
            Some(k) => k,
            None => return,
        };
        let t = trim(title);
        let n = trim_end(notes);
        let new_title = if t.unicode_len() > 0 && !crate::text::str_eq(t, self.wants[k].title.as_str()) {
            Some(String::from_str(t))
        } else {
            None
        };
        let new_notes = if !crate::text::str_eq(n, self.wants[k].notes.as_str()) {
            Some(String::from_str(n))
        } else {
            None
        };
        if new_title.is_none() && new_notes.is_none() {
            return;
        }
        let patch = WantPatch { title: new_title, notes: new_notes, energy: None, clau: None, pos: None, done_at: None };
        assert(patch@ == edit_patch(self.ws()[k as int], title@, notes@));
        self.patch_id(id, patch);
    }

    /// A key on the done screen.
    pub fn key_done(&mut self, key: Key)
        requires
            old(self).wf(),
        ensures
            final(self).wf(),
            done_key_post(*old(self), *final(self), key),
    {
        let len = self.done().len();
        let s = self.done_sel;
        let code = key.code;
        if code == KeyCode::Char('a') || code == KeyCode::Esc {
            self.screen = Screen::Wants;
        } else if code == KeyCode::Char('q') {
            self.quit = true;
        } else if (code == KeyCode::Char('j') || code == KeyCode::Down) && s < len && len - s > 1 {
            self.done_sel = s + 1;
        } else if (code == KeyCode::Char('k') || code == KeyCode::Up) && s > 0 {
            self.done_sel = s - 1;
        } else if code == KeyCode::Char('g') || code == KeyCode::Home {
            self.done_sel = 0;
        } else if code == KeyCode::Char('G') || code == KeyCode::End {
            self.done_sel = if len > 0 { len - 1 } else { 0 };
        } else if code == KeyCode::Char('u') {
            let picked = match self.selected() {
                Some(w) => Some((w.id.clone(), w.title.clone(), w.quadrant())),
                None => None,
            };
            if let Some((id, title, q)) = picked {
                let p = self.tail_pos(q);
                let patch = WantPatch { title: None, notes: None, energy: None, clau: None, pos: Some(p), done_at: Some(None) };
                self.patch_id(id.as_str(), patch);
                self.message = Some(concat("やりたいことに戻しました: ", title.as_str()));
            }
        } else if code == KeyCode::Char('d') {
            let picked = match self.selected() {
                Some(w) => Some((w.id.clone(), w.title.clone())),
                None => None,
            };
            if let Some((id, title)) = picked {
                self.mode = Mode::ConfirmDelete { id, title };
            }
        }
    }
}

/// What a key on the done screen leaves.
pub open spec fn done_key_post(a: App, b: App, key: Key) -> bool {
    let code = key.code;
    let len = done_spec(a.ws()).len();
    let s = a.done_sel;
    if code == KeyCode::Char('a') || code == KeyCode::Esc {
        b == (App { screen: Screen::Wants, ..a })
    } else if code == KeyCode::Char('q') {
        b == (App { quit: true, ..a })
    } else if (code == KeyCode::Char('j') || code == KeyCode::Down) && s + 1 < len {
        b == (App { done_sel: (s + 1) as usize, ..a })
    } else if (code == KeyCode::Char('k') || code == KeyCode::Up) && s > 0 {
        b == (App { done_sel: (s - 1) as usize, ..a })
    } else if code == KeyCode::Char('g') || code == KeyCode::Home {
        b == (App { done_sel: 0, ..a })
    } else if code == KeyCode::Char('G') || code == KeyCode::End {
        b == (App { done_sel: (if len > 0 { len - 1 } else { 0 }) as usize, ..a })
    } else if code == KeyCode::Char('u') {
        match a.selected_spec() {
            Some(w) => {
                &&& patch_post(a, App { message: a.message, ..b }, w.id, undo_patch(tail_spec(a.ws(), Quadrant { energy: w.energy, clau: w.clau })))
                &&& b.message matches Some(m) && m@ == "やりたいことに戻しました: "@ + w.title
            },
            None => b == a,
        }
    } else if code == KeyCode::Char('d') {
        match a.selected_spec() {
            Some(w) => {
                &&& b.mode matches Mode::ConfirmDelete { id, title } && id@ == w.id && title@ == w.title
                &&& b == (App { mode: b.mode, ..a })
            },
            None => b == a,
        }
    } else {
        b == a
    }
}

/// The row selected in the quadrant under the cursor.
pub open spec fn cur_sel(a: App) -> nat {
    a.sel@[a.cur as int] as nat
}

/// Rows in the quadrant under the cursor.
pub open spec fn cur_len(a: App) -> nat {
    list_spec(a.ws(), quadrant_at(a.cur as int)).len()
}

/// `a` with row `i` selected in quadrant `c`, which gets the cursor.
pub open spec fn select(a: App, b: App, c: int, i: int) -> bool {
    &&& b.cur == c
    &&& b.sel@ == a.sel@.update(c, i as usize)
    &&& b == (App { cur: b.cur, sel: b.sel, ..a })
}

/// What a key on the want lists leaves.
pub open spec fn wants_key_post(a: App, b: App, key: Key) -> bool {
    let code = key.code;
    let q = quadrant_at(a.cur as int);
    let len = cur_len(a);
    let s = cur_sel(a);
    let top = a.cur < 2;
    if code == KeyCode::Char('q') || code == KeyCode::Esc {
        b == (App { quit: true, ..a })
    } else if code == KeyCode::Char('a') {
        b == (App { screen: Screen::Done, ..a })
    } else if code == KeyCode::Char('n') {
        &&& b.mode matches Mode::AddTitle(t) && t.text@.len() == 0 && t.cursor == 0
        &&& b == (App { mode: b.mode, ..a })
    } else if code == KeyCode::Char('r') {
        &&& b.message matches Some(m) && m@ == "同期中…"@
        &&& effect_views(b.effects@) == effect_views(a.effects@).push(EffectView::Sync)
        &&& b == (App { message: b.message, effects: b.effects, ..a })
    } else if code == KeyCode::Char('j') || code == KeyCode::Down {
        if s + 1 < len {
            select(a, b, a.cur as int, s + 1int)
        } else if top {
            select(a, b, a.cur + 2, 0)
        } else {
            b == a
        }
    } else if code == KeyCode::Char('k') || code == KeyCode::Up {
        if s > 0 {
            select(a, b, a.cur as int, s - 1)
        } else if !top {
            let l2 = list_spec(a.ws(), quadrant_at(a.cur - 2)).len();
            select(a, b, a.cur - 2, if l2 > 0 { l2 - 1 } else { 0 })
        } else {
            b == a
        }
    } else if code == KeyCode::Char('h') || code == KeyCode::Left {
        b == (App { cur: (a.cur - a.cur % 2) as usize, ..a })
    } else if code == KeyCode::Char('l') || code == KeyCode::Right {
        b == (App { cur: (a.cur - a.cur % 2 + 1) as usize, ..a })
    } else if code == KeyCode::Char('g') || code == KeyCode::Home {
        select(a, b, a.cur as int, 0)
    } else if code == KeyCode::Char('G') || code == KeyCode::End {
        select(a, b, a.cur as int, if len > 0 { len - 1 } else { 0 })
    } else if code matches KeyCode::Char(c) && '0' <= c && c <= '9' {
        let i = if code == KeyCode::Char('0') { 9 } else { code->Char_0 as int - '1' as int };
        if i < len { select(a, b, a.cur as int, i) } else { b == a }
    } else if code == KeyCode::Char('K') && s > 0 {
        match a.selected_spec() {
            Some(w) => place_post(a, b, w.id, (s - 1) as nat),
            None => b == a,
        }
    } else if code == KeyCode::Char('J') && s + 1 < len {
        match a.selected_spec() {
            Some(w) => place_post(a, b, w.id, (s + 1) as nat),
            None => b == a,
        }
    } else if code == KeyCode::Char('H') {
        move_post(a, b, Quadrant { energy: q.energy, clau: false })
    } else if code == KeyCode::Char('L') {
        move_post(a, b, Quadrant { energy: q.energy, clau: true })
    } else if code == KeyCode::Char('E') {
        move_post(a, b, Quadrant { energy: !q.energy, clau: q.clau })
    } else if code == KeyCode::Char('e') || code == KeyCode::Enter {
        match a.selected_spec() {
            Some(w) => {
                &&& b.mode matches Mode::Edit { id, title, notes, field } && {
                    &&& id@ == w.id
                    &&& title.text@ == w.title
                    &&& title.cursor == w.title.len()
                    &&& notes.text@ == w.notes
                    &&& notes.cursor == w.notes.len()
                    &&& field == EditField::Title
                }
                &&& b == (App { mode: b.mode, ..a })
            },
            None => b == a,
        }
    } else if code == KeyCode::Char('t') {
        match a.selected_spec() {
            Some(w) => {
                &&& exists|t: Seq<char>| is_rfc3339_utc_secs(t) && patch_post(a, App { message: a.message, ..b }, w.id, #[trigger] done_patch(t))
                &&& b.message matches Some(m) && m@ == "やった！ "@ + w.title
            },
            None => b == a,
        }
    } else if code == KeyCode::Char('d') {
        match a.selected_spec() {
            Some(w) => {
                &&& b.mode matches Mode::ConfirmDelete { id, title } && id@ == w.id && title@ == w.title
                &&& b == (App { mode: b.mode, ..a })
            },
            None => b == a,
        }
    } else {
        b == a
    }
}

impl App {
    fn select_row(&mut self, c: usize, i: usize)
        requires
            old(self).wf(),
            c < 4,
        ensures
            final(self).wf(),
            select(*old(self), *final(self), c as int, i as int),
    {
        self.cur = c;
        self.sel.set(c, i);
    }

    /// A key on the want lists.
    pub fn key_wants(&mut self, key: Key)
        requires
            old(self).wf(),
        ensures
            final(self).wf(),
            wants_key_post(*old(self), *final(self), key),
    {
        let len = self.list(self.cur_q()).len();
        let s = self.sel_of_cur();
        let top = self.cur < 2;
        let code = key.code;
        let cur = self.cur;
        if code == KeyCode::Char('q') || code == KeyCode::Esc {
            self.quit = true;
        } else if code == KeyCode::Char('a') {
            self.screen = Screen::Done;
        } else if code == KeyCode::Char('n') {
            self.mode = Mode::AddTitle(TextInput::default());
        } else if code == KeyCode::Char('r') {
            self.message = Some(String::from_str("同期中…"));
            self.effects.push(Effect::Sync);
            assert(effect_views(self.effects@) =~= effect_views(old(self).effects@).push(EffectView::Sync));
        } else if code == KeyCode::Char('j') || code == KeyCode::Down {
            if s < len && len - s > 1 {
                self.select_row(cur, s + 1);
            } else if top {
                self.select_row(cur + 2, 0);
            }
        } else if code == KeyCode::Char('k') || code == KeyCode::Up {
            if s > 0 {
                self.select_row(cur, s - 1);
            } else if !top {
                let l2 = self.list(Quadrant::at(cur - 2)).len();
                self.select_row(cur - 2, if l2 > 0 { l2 - 1 } else { 0 });
            }
        } else if code == KeyCode::Char('h') || code == KeyCode::Left {
            self.cur = cur - cur % 2;
        } else if code == KeyCode::Char('l') || code == KeyCode::Right {
            self.cur = cur - cur % 2 + 1;
        } else if code == KeyCode::Char('g') || code == KeyCode::Home {
            self.select_row(cur, 0);
        } else if code == KeyCode::Char('G') || code == KeyCode::End {
            self.select_row(cur, if len > 0 { len - 1 } else { 0 });
        } else if match code {
            KeyCode::Char(c) => '0' <= c && c <= '9',
            _ => false,
        } {
            let c = match code {
                KeyCode::Char(c) => c,
                _ => '0',
            };
            let i: usize = if c == '0' { 9 } else { (c as u32 - '1' as u32) as usize };
            if i < len {
                self.select_row(cur, i);
            }
        } else if code == KeyCode::Char('K') && s > 0 {
            let id = match self.selected() {
                Some(w) => Some(w.id.clone()),
                None => None,
            };
            if let Some(id) = id {
                self.place(id.as_str(), s - 1);
            }
        } else if code == KeyCode::Char('J') && s < len && len - s > 1 {
            let id = match self.selected() {
                Some(w) => Some(w.id.clone()),
                None => None,
            };
            if let Some(id) = id {
                self.place(id.as_str(), s + 1);
            }
        } else if code == KeyCode::Char('H') {
            let q = self.cur_q();
            self.move_to(Quadrant { energy: q.energy, clau: false });
        } else if code == KeyCode::Char('L') {
            let q = self.cur_q();
            self.move_to(Quadrant { energy: q.energy, clau: true });
        } else if code == KeyCode::Char('E') {
            let q = self.cur_q();
            self.move_to(Quadrant { energy: !q.energy, clau: q.clau });
        } else if code == KeyCode::Char('e') || code == KeyCode::Enter {
            let mode = match self.selected() {
                Some(w) => Some(Mode::Edit {
                    id: w.id.clone(),
                    title: TextInput::new(w.title.as_str()),
                    notes: TextInput::new(w.notes.as_str()),
                    field: EditField::Title,
                }),
                None => None,
            };
            if let Some(m) = mode {
                self.mode = m;
            }
        } else if code == KeyCode::Char('t') {
            let picked = match self.selected() {
                Some(w) => Some((w.id.clone(), w.title.clone())),
                None => None,
            };
            if let Some((id, title)) = picked {
                let now = crate::model::now_rfc3339();
                let ghost t = now@;
                let patch = WantPatch { title: None, notes: None, energy: None, clau: None, pos: None, done_at: Some(Some(now)) };
                let ghost before = *self;
                self.patch_id(id.as_str(), patch);
                assert(patch_post(before, App { message: before.message, ..*self }, id@, done_patch(t)));
                self.message = Some(concat("やった！ ", title.as_str()));
            }
        } else if code == KeyCode::Char('d') {
            let picked = match self.selected() {
                Some(w) => Some((w.id.clone(), w.title.clone())),
                None => None,
            };
            if let Some((id, title)) = picked {
                self.mode = Mode::ConfirmDelete { id, title };
            }
        }
    }
}

/// The text inputs of a dialog have their cursor inside their text.
pub open spec fn inputs_ok(m: Mode) -> bool {
    match m {
        Mode::AddTitle(t) => t.cursor <= t.text@.len(),
        Mode::Edit { title, notes, .. } => title.cursor <= title.text@.len() && notes.cursor <= notes.text@.len(),
        _ => true,
    }
}

/// `t` after the key `k` as an editing key.
pub open spec fn input_after(t: TextInput, u: TextInput, k: Key) -> bool {
    &&& u.text@ == handled_text(t.text@, t.cursor as nat, k)
    &&& u.cursor == handled_cursor(t.text@, t.cursor as nat, k)
}

/// Keys that pick "high" in the add dialog.
pub open spec fn picks_high(code: KeyCode) -> bool {
    code == KeyCode::Char('k') || code == KeyCode::Char('h') || code == KeyCode::Char('1') || code == KeyCode::Up || code == KeyCode::Left
}

/// Keys that pick "low" in the add dialog.
pub open spec fn picks_low(code: KeyCode) -> bool {
    code == KeyCode::Char('j') || code == KeyCode::Char('l') || code == KeyCode::Char('2') || code == KeyCode::Down || code == KeyCode::Right
}

/// Keys that flip the choice in the add dialog.
pub open spec fn flips(code: KeyCode) -> bool {
    code == KeyCode::Tab || code == KeyCode::Char(' ')
}

/// The choice after a key in the add dialog.
pub open spec fn choice_after(v: bool, code: KeyCode) -> bool {
    if picks_high(code) { true } else if picks_low(code) { false } else if flips(code) { !v } else { v }
}

/// What adding the want of the add dialog leaves: a new active want with
/// the dialog's title and axes at the end of its quadrant, committed, and
/// the cursor on it.
pub open spec fn create_post(a: App, b: App, title: String, energy: bool, clau: bool) -> bool {
    exists|w: WantView| {
        &&& #[trigger] w.title == title@
        &&& w.energy == energy
        &&& w.clau == clau
        &&& w.pos == tail_spec(a.ws(), Quadrant { energy, clau })
        &&& w.notes.len() == 0
        &&& w.done_at is None
        &&& !w.deleted
        &&& w.rev == 0
        &&& is_hyphenated_uuid(w.id)
        &&& {
            let op = OpView::Create { want: w };
            let ws2 = apply_op(a.ws(), op);
            &&& b.ws() == ws2
            &&& effect_views(b.effects@) == effect_views(a.effects@).push(EffectView::Commit { want: want_after(a.ws(), op), op }).push(EffectView::Sync)
            &&& (b.cur, b.sel@) == focused(a.cur, clamped_sel(a.sel@, ws2), ws2, w.id)
            &&& b.done_sel == clamp_sel(a.done_sel as nat, done_spec(ws2).len())
            &&& b == (App { wants: b.wants, cur: b.cur, sel: b.sel, done_sel: b.done_sel, effects: b.effects, ..a })
        }
    }
}

/// After a key in the title step of the add dialog (`a` has the dialog closed).
pub open spec fn add_title_post(a: App, b: App, t: TextInput, key: Key) -> bool {
    let code = key.code;
    if code == KeyCode::Esc {
        b == a
    } else if code == KeyCode::Enter && trim_spec(t.text@).len() > 0 {
        &&& b.mode matches Mode::AddEnergy { title, energy } && title@ == trim_spec(t.text@) && energy == quadrant_at(a.cur as int).energy
        &&& b == (App { mode: b.mode, ..a })
    } else {
        &&& b.mode matches Mode::AddTitle(u) && input_after(t, u, key)
        &&& b == (App { mode: b.mode, ..a })
    }
}

/// After a key in the clau step of the add dialog (`a` has the dialog closed).
pub open spec fn add_clau_post(a: App, b: App, title: String, energy: bool, clau: bool, key: Key) -> bool {
    let code = key.code;
    if code == KeyCode::Esc {
        b == a
    } else if code == KeyCode::Enter {
        create_post(a, b, title, energy, clau)
    } else {
        b == (App { mode: Mode::AddClau { title, energy, clau: choice_after(clau, code) }, ..a })
    }
}

/// After a key in the edit dialog (`a` has the dialog closed).
pub open spec fn edit_post(a: App, b: App, id: String, title: TextInput, notes: TextInput, field: EditField, key: Key) -> bool {
    let code = key.code;
    if code == KeyCode::Esc {
        b == a
    } else if (key.ctrl && code == KeyCode::Char('s')) || (code == KeyCode::Enter && field == EditField::Title) {
        save_post(a, b, id@, title.text@, notes.text@)
    } else if code == KeyCode::Tab || code == KeyCode::BackTab || code == KeyCode::Up || code == KeyCode::Down {
        let f = if field == EditField::Title { EditField::Notes } else { EditField::Title };
        b == (App { mode: Mode::Edit { id, title, notes, field: f }, ..a })
    } else {
        &&& b.mode matches Mode::Edit { id: i2, title: t2, notes: n2, field: f2 } && {
            &&& i2 == id
            &&& f2 == field
            &&& if code == KeyCode::Enter {
                &&& t2 == title
                &&& n2.text@ == notes.text@.insert(notes.cursor as int, '\n')
                &&& n2.cursor == notes.cursor + 1
            } else if field == EditField::Title {
                input_after(title, t2, key) && n2 == notes
            } else {
                t2 == title && input_after(notes, n2, key)
            }
        }
        &&& b == (App { mode: b.mode, ..a })
    }
}

/// After a key in the delete confirmation (`a` has the dialog closed).
pub open spec fn confirm_post(a: App, b: App, id: String, title: String, key: Key) -> bool {
    let code = key.code;
    if code == KeyCode::Char('y') || code == KeyCode::Char('Y') {
        &&& commit_post(a, App { message: a.message, ..b }, OpView::Delete { id: id@ })
        &&& b.message matches Some(m) && m@ == "削除しました: "@ + title@
    } else if code == KeyCode::Char('n') || code == KeyCode::Char('N') || code == KeyCode::Esc {
        b == a
    } else {
        b == (App { mode: Mode::ConfirmDelete { id, title }, ..a })
    }
}

/// What a key press leaves, by the dialog that is open.
pub open spec fn key_post(a: App, b: App, key: Key) -> bool {
    let code = key.code;
    let q = quadrant_at(a.cur as int);
    let normal = App { mode: Mode::Normal, ..a };
    if key.ctrl && code == KeyCode::Char('c') {
        b == (App { quit: true, ..a })
    } else {
        match a.mode {
            Mode::Normal => {
                let c = App { message: None, ..a };
                match a.screen {
                    Screen::Wants => wants_key_post(c, b, key),
                    Screen::Done => done_key_post(c, b, key),
                }
            },
            Mode::AddTitle(t) => add_title_post(normal, b, t, key),
            Mode::AddEnergy { title, energy } => {
                if code == KeyCode::Esc {
                    b == normal
                } else if code == KeyCode::Enter {
                    b == (App { mode: Mode::AddClau { title, energy, clau: q.clau }, ..a })
                } else {
                    b == (App { mode: Mode::AddEnergy { title, energy: choice_after(energy, code) }, ..a })
                }
            },
            Mode::AddClau { title, energy, clau } => add_clau_post(normal, b, title, energy, clau, key),
            Mode::Edit { id, title, notes, field } => edit_post(normal, b, id, title, notes, field, key),
            Mode::ConfirmDelete { id, title } => confirm_post(normal, b, id, title, key),
        }
    }
}

impl App {
    fn key_add_title(&mut self, input: TextInput, key: Key)
        requires
            old(self).wf(),
            old(self).mode == Mode::Normal,
            input.cursor <= input.text@.len(),
        ensures
            final(self).wf(),
            inputs_ok(final(self).mode),
            add_title_post(*old(self), *final(self), input, key),
    {
        let mut input = input;
        let code = key.code;
        if code == KeyCode::Esc {
        } else if code == KeyCode::Enter && trim(input.text.as_str()).unicode_len() > 0 {
            let q = self.cur_q();
            self.mode = Mode::AddEnergy { title: String::from_str(trim(input.text.as_str())), energy: q.energy };
        } else {
            input.handle(key);
            self.mode = Mode::AddTitle(input);
        }
    }

    fn key_add_clau(&mut self, title: String, energy: bool, clau: bool, key: Key)
        requires
            old(self).wf(),
            old(self).mode == Mode::Normal,
        ensures
            final(self).wf(),
            inputs_ok(final(self).mode),
            add_clau_post(*old(self), *final(self), title, energy, clau, key),
    {
        let code = key.code;
        if code == KeyCode::Esc {
        } else if code == KeyCode::Enter {
            let ghost t = title;
            let qd = Quadrant { energy, clau };
            let p = self.tail_pos(qd);
            let w = Want::new(title, energy, clau, p);
            let id = w.id.clone();
            let ghost wv = w@;
            let ghost before = *self;
            self.commit(Op::Create { want: w });
            let ghost mid = *self;
            assert(mid.sel@ =~= clamped_sel(before.sel@, mid.ws()));
            self.focus(id.as_str());
            assert(wv.title == t@);
            assert(wv.notes.len() == 0);
        } else {
            self.mode = Mode::AddClau { title, energy, clau: choose_value(clau, code) };
        }
    }

    fn key_edit(&mut self, id: String, title: TextInput, notes: TextInput, field: EditField, key: Key)
        requires
            old(self).wf(),
            old(self).mode == Mode::Normal,
            title.cursor <= title.text@.len(),
            notes.cursor <= notes.text@.len(),
        ensures
            final(self).wf(),
            inputs_ok(final(self).mode),
            edit_post(*old(self), *final(self), id, title, notes, field, key),
    {
        let mut title = title;
        let mut notes = notes;
        let code = key.code;
        if code == KeyCode::Esc {
        } else if (key.ctrl && code == KeyCode::Char('s')) || (code == KeyCode::Enter && field == EditField::Title) {
            self.save_edit(id.as_str(), title.text.as_str(), notes.text.as_str());
        } else if code == KeyCode::Tab || code == KeyCode::BackTab || code == KeyCode::Up || code == KeyCode::Down {
            let f = if field == EditField::Title { EditField::Notes } else { EditField::Title };
            self.mode = Mode::Edit { id, title, notes, field: f };
        } else if code == KeyCode::Enter {
            notes.insert('\n');
            self.mode = Mode::Edit { id, title, notes, field };
        } else if field == EditField::Title {
            title.handle(key);
            self.mode = Mode::Edit { id, title, notes, field };
        } else {
            notes.handle(key);
            self.mode = Mode::Edit { id, title, notes, field };
        }
    }

    fn key_confirm(&mut self, id: String, title: String, key: Key)
        requires
            old(self).wf(),
            old(self).mode == Mode::Normal,
        ensures
            final(self).wf(),
            inputs_ok(final(self).mode),
            confirm_post(*old(self), *final(self), id, title, key),
    {
        let code = key.code;
        if code == KeyCode::Char('y') || code == KeyCode::Char('Y') {
            proof {
                lemma_keys_ok_delete(self.ws(), id@);
            }
            let msg = concat("削除しました: ", title.as_str());
            self.commit(Op::Delete { id });
            self.message = Some(msg);
        } else if code == KeyCode::Char('n') || code == KeyCode::Char('N') || code == KeyCode::Esc {
        } else {
            self.mode = Mode::ConfirmDelete { id, title };
        }
    }

    /// Handles a key press.
    pub fn on_key(&mut self, key: Key)
        requires
            old(self).wf(),
            inputs_ok(old(self).mode),
        ensures
            final(self).wf(),
            inputs_ok(final(self).mode),
            key_post(*old(self), *final(self), key),
            keeps_ids(old(self).ws(), final(self).ws()),
    {
        let code = key.code;
        if key.ctrl && code == KeyCode::Char('c') {
            self.quit = true;
            assert(ids_of(self.ws()) =~= ids_of(old(self).ws()));
            return;
        }
        let q = self.cur_q();
        let mut mode = Mode::Normal;
        std::mem::swap(&mut mode, &mut self.mode);
        match mode {
            Mode::Normal => {
                self.message = None;
                match self.screen {
                    Screen::Wants => self.key_wants(key),
                    Screen::Done => self.key_done(key),
                }
            },
            Mode::AddTitle(input) => self.key_add_title(input, key),
            Mode::AddEnergy { title, energy } => {
                if code == KeyCode::Esc {
                } else if code == KeyCode::Enter {
                    self.mode = Mode::AddClau { title, energy, clau: q.clau };
                } else {
                    self.mode = Mode::AddEnergy { title, energy: choose_value(energy, code) };
                }
            },
            Mode::AddClau { title, energy, clau } => self.key_add_clau(title, energy, clau, key),
            Mode::Edit { id, title, notes, field } => self.key_edit(id, title, notes, field, key),
            Mode::ConfirmDelete { id, title } => self.key_confirm(id, title, key),
        }
        assert(key_post(*old(self), *self, key));
        proof {
            crate::moves::law_key_keeps_ids(*old(self), *self, key);
        }
    }
}

/// The choice after a key in the add dialog.
fn choose_value(v: bool, code: KeyCode) -> (r: bool)
    ensures
        r == choice_after(v, code),
{
    if code == KeyCode::Char('k') || code == KeyCode::Char('h') || code == KeyCode::Char('1') || code == KeyCode::Up || code == KeyCode::Left {
        true
    } else if code == KeyCode::Char('j') || code == KeyCode::Char('l') || code == KeyCode::Char('2') || code == KeyCode::Down || code == KeyCode::Right {
        false
    } else if code == KeyCode::Tab || code == KeyCode::Char(' ') {
        !v
    } else {
        v
    }
}

proof fn lemma_keys_ok_delete(ws: Seq<WantView>, id: Seq<char>)
    requires
        keys_ok(ws),
    ensures
        keys_ok(apply_op(ws, OpView::Delete { id })),
{
    let r = apply_op(ws, OpView::Delete { id });
    assert forall|i: int| 0 <= i < r.len() && active_view(r[i]) implies valid_key(#[trigger] r[i].pos) by {
        if let Some(k) = index_of_id(ws, id) {
            lemma_index_of_id_found(ws, id);
            assert(r[i] == ws[i]);
        }
    }
}

/// The wants of `ws` whose ids are not among `pending`, in order.
pub open spec fn not_pending(ws: Seq<WantView>, pending: Seq<Seq<char>>) -> Seq<WantView>
    decreases ws.len(),
{
    if ws.len() == 0 {
        ws
    } else {
        let r = not_pending(ws.drop_last(), pending);
        if pending.contains(ws.last().id) { r } else { r.push(ws.last()) }
    }
}

impl App {
    /// A client over the cached `wants`, asking for a first sync.
    pub fn new(wants: Vec<Want>, outbox_len: usize, has_remote: bool) -> (r: App)
        requires
            keys_ok(seq_views(wants@)),
        ensures
            r.wf(),
            r.wants == wants,
            r.screen == Screen::Wants,
            r.mode == Mode::Normal,
            r.cur == 0,
            r.sel@ == seq![0usize, 0usize, 0usize, 0usize],
            r.done_sel == 0,
            r.message is None,
            !r.quit,
            r.online is None,
            r.outbox_len == outbox_len,
            r.has_remote == has_remote,
            !r.syncing,
            !r.dirty,
            effect_views(r.effects@) == seq![EffectView::Sync],
    {
        let mut effects: Vec<Effect> = Vec::new();
        effects.push(Effect::Sync);
        assert(effect_views(effects@) =~= seq![EffectView::Sync]);
        App {
            wants,
            screen: Screen::Wants,
            mode: Mode::Normal,
            cur: 0,
            sel: vec![0, 0, 0, 0],
            done_sel: 0,
            message: None,
            quit: false,
            online: None,
            outbox_len,
            has_remote,
            syncing: false,
            dirty: false,
            effects,
        }
    }

    /// Hands the waiting effects to the caller, in order.
    pub fn take_effects(&mut self) -> (r: Vec<Effect>)
        ensures
            r@ == old(self).effects@,
            final(self).effects@.len() == 0,
            *final(self) == (App { effects: final(self).effects, ..*old(self) }),
    {
        let mut r: Vec<Effect> = Vec::new();
        std::mem::swap(&mut r, &mut self.effects);
        r
    }

    /// Whether to start a sync round now: only with a server and when none
    /// is running; asked while one runs, it is remembered for later.
    pub fn begin_sync(&mut self) -> (go: bool)
        ensures
            go == (old(self).has_remote && !old(self).syncing),
            (old(self).has_remote && old(self).syncing)
                ==> *final(self) == (App { dirty: true, ..*old(self) }),
            !(old(self).has_remote && old(self).syncing) ==> *final(self) == *old(self),
    {
        if !self.has_remote {
            return false;
        }
        if self.syncing {
            self.dirty = true;
            return false;
        }
        true
    }

    /// A sync round was handed to the worker.
    pub fn sync_sent(&mut self)
        ensures
            *final(self) == (App { syncing: true, dirty: false, ..*old(self) }),
    {
        self.syncing = true;
        self.dirty = false;
    }

    /// Called now and then; `idle` says whether 30 seconds passed since the
    /// last round (for resending while offline, and for missed events).
    pub fn tick(&mut self, idle: bool)
        ensures
            (!old(self).syncing && idle) ==> *final(self) == (App { effects: final(self).effects, ..*old(self) })
                && effect_views(final(self).effects@) == effect_views(old(self).effects@).push(EffectView::Sync),
            !(!old(self).syncing && idle) ==> *final(self) == *old(self),
    {
        if !self.syncing && idle {
            self.effects.push(Effect::Sync);
            assert(effect_views(self.effects@) =~= effect_views(old(self).effects@).push(EffectView::Sync));
        }
    }

    /// The server announced revision `rev`; `local` is the last one synced.
    /// Sync when behind, when changes wait to be sent, or when offline
    /// (the announcement also comes right after reconnecting).
    pub fn on_remote(&mut self, rev: i64, local: i64)
        ensures
            ({
                let go = rev > local || old(self).outbox_len > 0 || old(self).online == Some(false);
                &&& go ==> *final(self) == (App { effects: final(self).effects, ..*old(self) })
                    && effect_views(final(self).effects@) == effect_views(old(self).effects@).push(EffectView::Sync)
                &&& !go ==> *final(self) == *old(self)
            }),
    {
        if rev > local || self.outbox_len > 0 || self.online == Some(false) {
            self.effects.push(Effect::Sync);
            assert(effect_views(self.effects@) =~= effect_views(old(self).effects@).push(EffectView::Sync));
        }
    }

    /// The worker finished a round.
    pub fn sync_finished(&mut self)
        ensures
            *final(self) == (App { syncing: false, ..*old(self) }),
    {
        self.syncing = false;
    }

    /// The id of the selected want.
    pub fn selected_id(&self) -> (r: Option<String>)
        requires
            self.wf(),
        ensures
            match r {
                Some(id) => self.selected_spec() matches Some(w) && w.id == id@,
                None => self.selected_spec() is None,
            },
    {
        match self.selected() {
            Some(w) => Some(w.id.clone()),
            None => None,
        }
    }

    /// Whether `id` still has changes waiting to be sent (then the local
    /// state wins over the server's until they are).
    pub fn is_pending(id: &str, pending: &Vec<String>) -> (r: bool)
        ensures
            r == exists|k: int| 0 <= k < pending@.len() && #[trigger] pending@[k]@ == id@,
    {
        let mut i: usize = 0;
        while i < pending.len()
            invariant
                i <= pending@.len(),
                forall|k: int| 0 <= k < i ==> #[trigger] pending@[k]@ != id@,
            decreases pending@.len() - i,
        {
            if crate::text::str_eq(pending[i].as_str(), id) {
                return true;
            }
            i = i + 1;
        }
        false
    }

    /// The wants of a fetch that the client takes: those without changes
    /// waiting to be sent, in the order fetched. (Changes not yet sent win
    /// over the server's state; the sync after sending them evens it out.)
    pub fn wants_to_take(pulled: &Vec<Want>, pending: &Vec<String>) -> (r: Vec<Want>)
        ensures
            seq_views(r@) == not_pending(seq_views(pulled@), pending@.map_values(|s: String| s@)),
    {
        let ghost pv = seq_views(pulled@);
        let ghost ids = pending@.map_values(|s: String| s@);
        let mut out: Vec<Want> = Vec::new();
        let mut i: usize = 0;
        assert(not_pending(pv.take(0), ids) =~= Seq::<WantView>::empty());
        while i < pulled.len()
            invariant
                i <= pulled@.len(),
                pv == seq_views(pulled@),
                ids == pending@.map_values(|s: String| s@),
                seq_views(out@) == not_pending(pv.take(i as int), ids),
            decreases pulled@.len() - i,
        {
            assert(pv.take(i + 1).drop_last() =~= pv.take(i as int));
            assert(pv.take(i + 1).last() == pulled@[i as int]@);
            let skip = App::is_pending(pulled[i].id.as_str(), pending);
            proof {
                let id = pulled@[i as int]@.id;
                if skip {
                    let k = choose|k: int| 0 <= k < pending@.len() && #[trigger] pending@[k]@ == id;
                    assert(ids[k] == id);
                }
                if ids.contains(id) {
                    let k = choose|k: int| 0 <= k < ids.len() && ids[k] == id;
                    assert(pending@[k]@ == id);
                }
            }
            if !skip {
                let ghost o0 = seq_views(out@);
                out.push(pulled[i].clone());
                assert(seq_views(out@) =~= o0.push(pulled@[i as int]@));
            }
            i = i + 1;
        }
        assert(pv.take(pulled@.len() as int) =~= pv);
        out
    }

    /// Takes a want from the server: it replaces the first want with its
    /// id, or is added.
    pub fn merge_remote(&mut self, w: Want)
        requires
            old(self).wf(),
            active_view(w@) ==> valid_key(w@.pos),
        ensures
            final(self).wf(),
            final(self).ws() == (match index_of_id(old(self).ws(), w@.id) {
                Some(k) => old(self).ws().update(k as int, w@),
                None => old(self).ws().push(w@),
            }),
            *final(self) == (App { wants: final(self).wants, ..*old(self) }),
            ids_unique(old(self).ws()) ==> ids_unique(final(self).ws()),
    {
        let ghost ws0 = self.ws();
        let ghost wv = w@;
        proof {
            lemma_index_of_id_found(ws0, wv.id);
        }
        match find_id(&self.wants, w.id.as_str()) {
            Some(k) => {
                self.wants.set(k, w);
                assert(self.ws() =~= ws0.update(k as int, wv));
            },
            None => {
                self.wants.push(w);
                assert(self.ws() =~= ws0.push(wv));
            },
        }
        assert forall|i: int| 0 <= i < self.ws().len() && active_view(self.ws()[i]) implies valid_key(#[trigger] self.ws()[i].pos) by {
            // either the want taken from the server or one that was there before
            assert(self.ws()[i] == wv || self.ws()[i] == ws0[i]);
        }
        proof {
            // it replaces the want with its id, or is added when no want has it
            if ids_unique(ws0) {
                let r = self.ws();
                assert forall|i: int, j: int| 0 <= i < r.len() && 0 <= j < r.len() && i != j implies #[trigger] r[i].id != #[trigger] r[j].id by {
                    if let Some(k) = index_of_id(ws0, wv.id) {
                        if i != k as int && j != k as int {
                            assert(r[i] == ws0[i] && r[j] == ws0[j]);
                        } else if i == k as int {
                            assert(r[i].id == ws0[i].id && r[j] == ws0[j]);
                        } else {
                            assert(r[j].id == ws0[j].id && r[i] == ws0[i]);
                        }
                    } else {
                        if i < ws0.len() && j < ws0.len() {
                            assert(r[i] == ws0[i] && r[j] == ws0[j]);
                        } else if i < ws0.len() {
                            assert(r[i] == ws0[i] && r[j] == wv);
                        } else {
                            assert(r[j] == ws0[j] && r[i] == wv);
                        }
                    }
                }
            }
        }
    }

    /// After taking the server's wants: selections back in range, and the
    /// cursor back on the want selected before (`selected`), if it is still
    /// on the lists.
    pub fn after_pull(&mut self, selected: Option<String>)
        requires
            old(self).wf(),
        ensures
            final(self).wf(),
            ({
                let ws = old(self).ws();
                let sel = clamped_sel(old(self).sel@, ws);
                let refocus = old(self).screen == Screen::Wants && (selected matches Some(id)
                    && exists|k: int| 0 <= k < ws.len() && #[trigger] ws[k].id == id@ && active_view(ws[k]));
                &&& (final(self).cur, final(self).sel@) == (if refocus { focused(old(self).cur, sel, ws, selected->0@) } else { (old(self).cur, sel) })
                &&& final(self).done_sel == clamp_sel(old(self).done_sel as nat, done_spec(ws).len())
                &&& *final(self) == (App { cur: final(self).cur, sel: final(self).sel, done_sel: final(self).done_sel, ..*old(self) })
            }),
    {
        let ghost a = *self;
        self.clamp();
        assert(self.sel@ =~= clamped_sel(a.sel@, a.ws()));
        if self.screen == Screen::Wants {
            if let Some(id) = selected {
                let mut i: usize = 0;
                let mut found = false;
                while i < self.wants.len()
                    invariant
                        i <= self.wants@.len(),
                        self.wf(),
                        found == exists|k: int| 0 <= k < i && #[trigger] self.ws()[k].id == id@ && active_view(self.ws()[k]),
                    decreases self.wants@.len() - i,
                {
                    assert(self.ws()[i as int] == self.wants@[i as int]@);
                    let hit = crate::text::str_eq(self.wants[i].id.as_str(), id.as_str()) && self.wants[i].is_active();
                    if hit {
                        assert(self.ws()[i as int].id == id@ && active_view(self.ws()[i as int]));
                        found = true;
                    }
                    i = i + 1;
                }
                if found {
                    self.focus(id.as_str());
                }
            }
        }
    }

    /// Ends a sync round after its results are stored: online or not, and
    /// when the server refused changes, a message, a full sync next (the
    /// caller resets the synced revision when this returns `true`) and a
    /// new round. A round asked for meanwhile starts now.
    pub fn finish_sync(&mut self, failed: bool, rejected: usize) -> (reset_rev: bool)
        ensures
            reset_rev == (rejected > 0),
            final(self).online == Some(!failed),
            final(self).dirty == (old(self).dirty || rejected > 0),
            rejected > 0 ==> (final(self).message matches Some(m) && m@ == decimal(rejected as nat) + " 件の変更がサーバーに拒否されました"@),
            rejected == 0 ==> final(self).message == old(self).message,
            effect_views(final(self).effects@) == (if old(self).dirty || rejected > 0 {
                effect_views(old(self).effects@).push(EffectView::Sync)
            } else {
                effect_views(old(self).effects@)
            }),
            *final(self) == (App { online: final(self).online, dirty: final(self).dirty, message: final(self).message, effects: final(self).effects, ..*old(self) }),
    {
        self.online = Some(!failed);
        let mut reset = false;
        if rejected > 0 {
            let n = decimal_string(rejected);
            self.message = Some(concat(n.as_str(), " 件の変更がサーバーに拒否されました"));
            self.dirty = true;
            reset = true;
        }
        if self.dirty {
            self.effects.push(Effect::Sync);
            assert(effect_views(self.effects@) =~= effect_views(old(self).effects@).push(EffectView::Sync));
        }
        reset
    }
}

} // verus!
