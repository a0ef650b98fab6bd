//! What the keys that move wants do to the quadrant lists: `K`/`J` put
//! the selected want on the row above or below, `H`/`L`/`E` send it to the
//! end of another quadrant, `t` takes it off the list, `u` brings a done
//! want back to the end of its quadrant, deleting takes a want off its
//! list and adding puts the new want last.
//! The other wants of a list keep their order, and the cursor follows the
//! want moved.

use vstd::prelude::*;
use crate::app::{wants_key_post, has_id, ids_of, ids_unique, keeps_ids, create_post, cur_len, cur_sel, done_patch, done_spec, filter_done, is_done_item, key_post, move_patch, move_post, patch_post, place_post, tail_spec, undo_patch, App, Mode, Screen, apply_op, filter_q, focus_target, renumber, in_quadrant, index_of_id, keys_ok, law_place_plan, lemma_filter_q_members, lemma_index_of_id_found, lemma_list_keys, lemma_list_members, list_spec, others, place_plan, place_ws, pos_op, pos_only};
use crate::model::{is_rfc3339_utc_secs, apply_view, key_le, law_sort_sorted_permutation, quadrant_at, sorted_by, Order, Quadrant, WantView};
use crate::input::{Key, KeyCode};
use crate::pos::{after_key, lemma_after_key, lemma_all_b62_after_ok, strictly_sorted, valid_key};
use crate::store::OpView;
use crate::text::{lemma_lex_lt_asym, lemma_lex_lt_irrefl, lemma_lex_lt_total, lemma_lex_lt_trans, lex_lt};

verus! {

proof fn lemma_ids_unique_no_dups(s: Seq<WantView>)
    requires
        ids_unique(s),
    ensures
        s.no_duplicates(),
{
    assert forall|i: int, j: int| 0 <= i < s.len() && 0 <= j < s.len() && i != j implies s[i] != s[j] by {
        assert(s[i].id != s[j].id);
    }
}

/// A rearrangement of wants with distinct ids has distinct ids.
proof fn lemma_ids_unique_perm(s1: Seq<WantView>, s2: Seq<WantView>)
    requires
        s1.to_multiset() == s2.to_multiset(),
        ids_unique(s2),
    ensures
        ids_unique(s1),
{
    broadcast use vstd::seq_lib::group_to_multiset_ensures;
    lemma_ids_unique_no_dups(s2);
    s2.lemma_multiset_has_no_duplicates();
    s1.lemma_multiset_has_no_duplicates_conv();
    assert forall|i: int, j: int| 0 <= i < s1.len() && 0 <= j < s1.len() && i != j implies #[trigger] s1[i].id != #[trigger] s1[j].id by {
        assert(s1.contains(s1[i]));
        assert(s1.contains(s1[j]));
        assert(s1.to_multiset().count(s1[i]) > 0);
        assert(s1.to_multiset().count(s1[j]) > 0);
        assert(s2.to_multiset().count(s1[i]) > 0);
        assert(s2.to_multiset().count(s1[j]) > 0);
        assert(s2.contains(s1[i]));
        assert(s2.contains(s1[j]));
        let a = choose|a: int| 0 <= a < s2.len() && s2[a] == s1[i];
        let b = choose|b: int| 0 <= b < s2.len() && s2[b] == s1[j];
        assert(s1[i] != s1[j]);
    }
}

/// In the order by `(pos, id)`, two wants that may each come before the
/// other have the same key and the same id.
proof fn lemma_key_antisym(a: WantView, b: WantView)
    requires
        key_le(Order::ByPos, a, b),
        key_le(Order::ByPos, b, a),
    ensures
        a.pos == b.pos,
        a.id == b.id,
{
    lemma_lex_lt_asym(a.pos, b.pos);
    lemma_lex_lt_irrefl(a.pos);
    lemma_lex_lt_irrefl(b.pos);
    lemma_lex_lt_total(a.id, b.id);
}

proof fn lemma_key_refl(a: WantView)
    ensures
        key_le(Order::ByPos, a, a),
{
    lemma_lex_lt_irrefl(a.id);
}

/// Two sorted rearrangements of the same wants, with distinct ids, are the
/// same sequence.
proof fn lemma_sorted_unique(s1: Seq<WantView>, s2: Seq<WantView>)
    requires
        sorted_by(Order::ByPos, s1),
        sorted_by(Order::ByPos, s2),
        s1.to_multiset() == s2.to_multiset(),
        ids_unique(s1),
    ensures
        s1 == s2,
    decreases s1.len(),
{
    broadcast use vstd::seq_lib::group_to_multiset_ensures;
    assert(s1.len() == s1.to_multiset().len());
    assert(s2.len() == s2.to_multiset().len());
    if s1.len() == 0 {
        assert(s2.to_multiset().len() == 0);
        assert(s2 =~= s1);
    } else {
        assert(s2.len() == s1.len());
        let x = s1[0];
        let y = s2[0];
        assert(s1.contains(x));
        assert(s1.to_multiset().count(x) > 0);
        assert(s2.to_multiset().count(x) > 0);
        assert(s2.contains(x));
        assert(s2.contains(y));
        assert(s2.to_multiset().count(y) > 0);
        assert(s1.to_multiset().count(y) > 0);
        assert(s1.contains(y));
        let j = choose|j: int| 0 <= j < s2.len() && s2[j] == x;
        let i = choose|i: int| 0 <= i < s1.len() && s1[i] == y;
        if j > 0 {
            assert(key_le(Order::ByPos, s2[0], s2[j]));
        } else {
            lemma_key_refl(x);
        }
        if i > 0 {
            assert(key_le(Order::ByPos, s1[0], s1[i]));
        } else {
            lemma_key_refl(x);
        }
        lemma_key_antisym(x, y);
        if i != 0 {
            assert(s1[0].id != s1[i].id);
        }
        assert(x == y);
        let r1 = s1.remove(0);
        let r2 = s2.remove(0);
        assert(r1.to_multiset() == s1.to_multiset().remove(x));
        assert(r2.to_multiset() == s2.to_multiset().remove(y));
        assert forall|a: int, b: int| 0 <= a < b < r1.len() implies key_le(Order::ByPos, #[trigger] r1[a], #[trigger] r1[b]) by {
            assert(r1[a] == s1[a + 1] && r1[b] == s1[b + 1]);
        }
        assert forall|a: int, b: int| 0 <= a < b < r2.len() implies key_le(Order::ByPos, #[trigger] r2[a], #[trigger] r2[b]) by {
            assert(r2[a] == s2[a + 1] && r2[b] == s2[b + 1]);
        }
        assert forall|a: int, b: int| 0 <= a < r1.len() && 0 <= b < r1.len() && a != b implies #[trigger] r1[a].id != #[trigger] r1[b].id by {
            assert(r1[a] == s1[a + 1] && r1[b] == s1[b + 1]);
        }
        lemma_sorted_unique(r1, r2);
        assert(s1 =~= seq![x] + r1);
        assert(s2 =~= seq![y] + r2);
    }
}

/// Taking one want out of a sorted sequence leaves it sorted.
proof fn lemma_sorted_remove(s: Seq<WantView>, i: int)
    requires
        sorted_by(Order::ByPos, s),
        0 <= i < s.len(),
    ensures
        sorted_by(Order::ByPos, s.remove(i)),
{
    let r = s.remove(i);
    assert forall|a: int, b: int| 0 <= a < b < r.len() implies key_le(Order::ByPos, #[trigger] r[a], #[trigger] r[b]) by {
        let a1 = if a < i { a } else { a + 1 };
        let b1 = if b < i { b } else { b + 1 };
        assert(r[a] == s[a1] && r[b] == s[b1]);
    }
}

/// Putting a want into a sorted sequence at a row where its key lies
/// strictly between its neighbours' keys keeps the sequence sorted.
proof fn lemma_insert_between_sorted(o: Seq<WantView>, t: int, x: WantView)
    requires
        sorted_by(Order::ByPos, o),
        0 <= t <= o.len(),
        t > 0 ==> lex_lt(o[t - 1].pos, x.pos),
        t < o.len() ==> lex_lt(x.pos, o[t].pos),
    ensures
        sorted_by(Order::ByPos, o.insert(t, x)),
{
    let s = o.insert(t, x);
    assert forall|a: int, b: int| 0 <= a < b < s.len() implies key_le(Order::ByPos, #[trigger] s[a], #[trigger] s[b]) by {
        if b < t {
            assert(s[a] == o[a] && s[b] == o[b]);
        } else if a > t {
            assert(s[a] == o[a - 1] && s[b] == o[b - 1]);
        } else if b == t {
            assert(s[a] == o[a] && s[b] == x);
            if a < t - 1 {
                assert(key_le(Order::ByPos, o[a], o[t - 1]));
                if lex_lt(o[a].pos, o[t - 1].pos) {
                    lemma_lex_lt_trans(o[a].pos, o[t - 1].pos, x.pos);
                }
            }
        } else if a == t {
            assert(s[a] == x && s[b] == o[b - 1]);
            if b - 1 > t {
                assert(key_le(Order::ByPos, o[t], o[b - 1]));
                if lex_lt(o[t].pos, o[b - 1].pos) {
                    lemma_lex_lt_trans(x.pos, o[t].pos, o[b - 1].pos);
                }
            }
        } else {
            assert(s[a] == o[a] && s[b] == o[b - 1]);
        }
    }
}

/// Changing want `k` of `ws` into `v`, both shown in quadrant `q`, changes
/// the same want of the quadrant's wants in stored order.
proof fn lemma_filter_q_update(ws: Seq<WantView>, k: int, v: WantView, q: Quadrant)
    requires
        0 <= k < ws.len(),
        in_quadrant(ws[k], q),
        in_quadrant(v, q),
    ensures
        filter_q(ws.take(k), q).len() < filter_q(ws, q).len(),
        filter_q(ws, q)[filter_q(ws.take(k), q).len() as int] == ws[k],
        filter_q(ws.update(k, v), q) == filter_q(ws, q).update(filter_q(ws.take(k), q).len() as int, v),
    decreases ws.len(),
{
    let u = ws.update(k, v);
    let m = filter_q(ws.take(k), q).len() as int;
    if k == ws.len() - 1 {
        assert(u.drop_last() =~= ws.drop_last());
        assert(ws.take(k) =~= ws.drop_last());
        assert(u.last() == v);
        assert(filter_q(u, q) =~= filter_q(ws, q).update(m, v));
    } else {
        assert(u.drop_last() =~= ws.drop_last().update(k, v));
        assert(ws.drop_last().take(k) =~= ws.take(k));
        assert(ws.drop_last()[k] == ws[k]);
        lemma_filter_q_update(ws.drop_last(), k, v, q);
        assert(u.last() == ws.last());
        assert(filter_q(u, q) =~= filter_q(ws, q).update(m, v));
    }
}

/// The quadrant's wants of wants with distinct ids have distinct ids.
proof fn lemma_filter_q_unique(ws: Seq<WantView>, q: Quadrant)
    requires
        ids_unique(ws),
    ensures
        ids_unique(filter_q(ws, q)),
    decreases ws.len(),
{
    if ws.len() > 0 {
        let d = ws.drop_last();
        assert forall|i: int, j: int| 0 <= i < d.len() && 0 <= j < d.len() && i != j implies #[trigger] d[i].id != #[trigger] d[j].id by {
            assert(d[i] == ws[i] && d[j] == ws[j]);
        }
        lemma_filter_q_unique(d, q);
        lemma_filter_q_members(d, q);
        let r = filter_q(d, q);
        let f = filter_q(ws, q);
        assert forall|i: int, j: int| 0 <= i < f.len() && 0 <= j < f.len() && i != j implies #[trigger] f[i].id != #[trigger] f[j].id by {
            if i < r.len() && j < r.len() {
                assert(f[i] == r[i] && f[j] == r[j]);
            } else if i < r.len() {
                assert(f[i] == r[i] && f[j] == ws.last());
                let a = choose|a: int| 0 <= a < d.len() && d[a] == r[i];
                assert(ws[a] == r[i]);
                assert(ws[ws.len() - 1] == ws.last());
            } else {
                assert(f[j] == r[j] && f[i] == ws.last());
                let a = choose|a: int| 0 <= a < d.len() && d[a] == r[j];
                assert(ws[a] == r[j]);
                assert(ws[ws.len() - 1] == ws.last());
            }
        }
    }
}

/// Without a want with id `id`, a list's others are the list.
proof fn lemma_others_none(l: Seq<WantView>, id: Seq<char>)
    requires
        forall|i: int| 0 <= i < l.len() ==> #[trigger] l[i].id != id,
    ensures
        others(l, id) == l,
    decreases l.len(),
{
    if l.len() > 0 {
        lemma_others_none(l.drop_last(), id);
        assert(l.last() == l[l.len() - 1]);
        assert(l.drop_last().push(l.last()) =~= l);
    }
}

/// With distinct ids, the others of want `i` are the list without it.
proof fn lemma_others_remove(l: Seq<WantView>, i: int)
    requires
        ids_unique(l),
        0 <= i < l.len(),
    ensures
        others(l, l[i].id) == l.remove(i),
    decreases l.len(),
{
    let id = l[i].id;
    let d = l.drop_last();
    assert(l.last() == l[l.len() - 1]);
    if i == l.len() - 1 {
        assert forall|j: int| 0 <= j < d.len() implies #[trigger] d[j].id != id by {
            assert(d[j] == l[j]);
        }
        lemma_others_none(d, id);
        assert(l.remove(i) =~= d);
    } else {
        assert forall|a: int, b: int| 0 <= a < d.len() && 0 <= b < d.len() && a != b implies #[trigger] d[a].id != #[trigger] d[b].id by {
            assert(d[a] == l[a] && d[b] == l[b]);
        }
        assert(d[i] == l[i]);
        lemma_others_remove(d, i);
        assert(l.last().id != id);
        assert(l.remove(i) =~= d.remove(i).push(l.last()));
    }
}

/// With distinct ids, the first want with the id of a want of `ws` is that
/// want.
proof fn lemma_index_of_member(ws: Seq<WantView>, w: WantView)
    requires
        ids_unique(ws),
        ws.contains(w),
    ensures
        index_of_id(ws, w.id) matches Some(k) && k < ws.len() && ws[k as int] == w,
{
    lemma_index_of_id_found(ws, w.id);
    let j = choose|j: int| 0 <= j < ws.len() && ws[j] == w;
    if let Some(k) = index_of_id(ws, w.id) {
        if k != j {
            assert(ws[k as int].id != ws[j].id);
        }
    } else {
        assert(ws[j].id != w.id);
    }
}

/// Reordering with `K` or `J`: when the keys around the target row leave
/// room (the plan gives the want one new key), the want at row `s` of
/// quadrant `qi` lands on the target row and the quadrant's other wants
/// keep their order around it: the list afterwards is the list before with
/// the want taken out and put back at that row, with its new key. The
/// cursor, put on the want, goes to that row of that quadrant.
pub proof fn law_place_moves_to_row(ws: Seq<WantView>, qi: nat, s: nat, to: nat)
    requires
        ids_unique(ws),
        keys_ok(ws),
        qi < 4,
        s < list_spec(ws, quadrant_at(qi as int)).len(),
        place_plan(list_spec(ws, quadrant_at(qi as int)), list_spec(ws, quadrant_at(qi as int))[s as int].id, to).0,
    ensures
        ({
            let q = quadrant_at(qi as int);
            let l = list_spec(ws, q);
            let w = l[s as int];
            let t = if to < l.len() - 1 { to as int } else { l.len() - 1 };
            let after = place_ws(ws, l, w.id, to);
            &&& list_spec(after, q) == l.remove(s as int).insert(t, WantView { pos: place_plan(l, w.id, to).1, ..w })
            &&& focus_target(after, w.id) == Some((qi, t as nat))
        }),
{
    broadcast use vstd::seq_lib::group_to_multiset_ensures;
    let q = quadrant_at(qi as int);
    let l = list_spec(ws, q);
    let x = filter_q(ws, q);
    let w = l[s as int];
    let plan = place_plan(l, w.id, to);
    let p = plan.1;
    let v = WantView { pos: p, ..w };

    // the list before: sorted, a rearrangement of the quadrant's wants, distinct ids
    lemma_list_members(ws, q);
    lemma_filter_q_unique(ws, q);
    law_sort_sorted_permutation(Order::ByPos, x);
    lemma_ids_unique_perm(l, x);
    lemma_others_remove(l, s as int);
    let o = l.remove(s as int);
    let t = if to < o.len() { to as int } else { o.len() as int };

    // the new key lies strictly between the new neighbours
    lemma_list_keys(ws, q);
    law_place_plan(l, w.id, to);
    lemma_sorted_remove(l, s as int);
    lemma_insert_between_sorted(o, t, v);
    let target = o.insert(t, v);

    // the wants afterwards: the want with that id, which is `w`, gets key `p`
    assert(ws.contains(w));
    lemma_index_of_member(ws, w);
    let k = index_of_id(ws, w.id)->0 as int;
    assert(apply_view(ws[k], pos_only(p)) == v);
    let ws2 = apply_op(ws, pos_op(w.id, p));
    assert(ws2 == ws.update(k, v));
    assert(place_ws(ws, l, w.id, to) == ws2);
    assert(in_quadrant(w, q));
    lemma_filter_q_update(ws, k, v, q);
    let m = filter_q(ws.take(k), q).len() as int;
    let x2 = filter_q(ws2, q);
    assert(x.update(m, v) =~= x.remove(m).insert(m, v));
    assert(x2.to_multiset() == x.to_multiset().remove(w).insert(v));
    assert(target.to_multiset() == o.to_multiset().insert(v));
    assert(o.to_multiset() == l.to_multiset().remove(w));

    // the list afterwards is sorted with distinct ids, so it is `target`
    let l2 = list_spec(ws2, q);
    law_sort_sorted_permutation(Order::ByPos, x2);
    assert forall|i: int, j: int| 0 <= i < ws2.len() && 0 <= j < ws2.len() && i != j implies #[trigger] ws2[i].id != #[trigger] ws2[j].id by {
        assert(ws2[i].id == ws[i].id && ws2[j].id == ws[j].id);
    }
    lemma_filter_q_unique(ws2, q);
    lemma_ids_unique_perm(l2, x2);
    lemma_sorted_unique(l2, target);

    // only quadrant `qi` lists a want with that id, at row `t`
    assert(target[t] == v);
    lemma_row_of(target, t);
    assert(ws2[k] == v);
    lemma_focus_only(ws2, k, q, t as nat);
}

/// Row of the first `id` in `ids`, if any.
pub open spec fn id_rank(ids: Seq<Seq<char>>, id: Seq<char>) -> Option<nat>
    decreases ids.len(),
{
    if ids.len() == 0 {
        None
    } else {
        match id_rank(ids.drop_last(), id) {
            Some(i) => Some(i),
            None => if ids.last() == id { Some((ids.len() - 1) as nat) } else { None },
        }
    }
}

/// Want `w` after the wants `ids` are given the keys `keys`, in turn.
pub open spec fn renumbered(w: WantView, ids: Seq<Seq<char>>, keys: Seq<Seq<char>>) -> WantView {
    match id_rank(ids, w.id) {
        Some(i) => WantView { pos: keys[i as int], ..w },
        None => w,
    }
}

proof fn lemma_id_rank(ids: Seq<Seq<char>>, id: Seq<char>)
    ensures
        id_rank(ids, id) matches Some(i) ==> i < ids.len() && ids[i as int] == id,
        id_rank(ids, id) is None <==> !ids.contains(id),
    decreases ids.len(),
{
    if ids.len() > 0 {
        let d = ids.drop_last();
        lemma_id_rank(d, id);
        if id_rank(d, id) is None && ids.last() != id {
            assert forall|k: int| 0 <= k < ids.len() implies ids[k] != id by {
                if k < d.len() {
                    assert(ids[k] == d[k]);
                }
            }
        }
        if d.contains(id) {
            let k = choose|k: int| 0 <= k < d.len() && d[k] == id;
            assert(ids[k] == id);
        }
    }
}

/// Without repeats, the first row of the id at row `i` is `i`.
proof fn lemma_id_rank_at(ids: Seq<Seq<char>>, i: int)
    requires
        ids.no_duplicates(),
        0 <= i < ids.len(),
    ensures
        id_rank(ids, ids[i]) == Some(i as nat),
{
    lemma_id_rank(ids, ids[i]);
    if let Some(j) = id_rank(ids, ids[i]) {
        if j != i {
            assert(ids[j as int] == ids[i]);
        }
    } else {
        assert(ids.contains(ids[i]));
    }
}

/// Giving distinct wants of `ws` keys in turn changes each of them once.
proof fn lemma_renumber(ws: Seq<WantView>, ids: Seq<Seq<char>>, keys: Seq<Seq<char>>)
    requires
        ids_unique(ws),
        ids.no_duplicates(),
        ids.len() <= keys.len(),
        forall|i: int| 0 <= i < ids.len() ==> has_id(ws, #[trigger] ids[i]),
    ensures
        renumber(ws, ids, keys) == ws.map_values(|w: WantView| renumbered(w, ids, keys)),
    decreases ids.len(),
{
    if ids.len() == 0 {
        assert(ws.map_values(|w: WantView| renumbered(w, ids, keys)) =~= ws);
    } else {
        let n = ids.len() - 1;
        let d = ids.drop_last();
        let last = ids.last();
        assert(last == ids[n]);
        assert forall|i: int, j: int| 0 <= i < d.len() && 0 <= j < d.len() && i != j implies d[i] != d[j] by {
            assert(d[i] == ids[i] && d[j] == ids[j]);
        }
        assert forall|i: int| 0 <= i < d.len() implies has_id(ws, #[trigger] d[i]) by {
            assert(d[i] == ids[i]);
        }
        lemma_renumber(ws, d, keys);
        let r0 = renumber(ws, d, keys);
        assert(has_id(ws, ids[n]));
        let a = choose|a: int| 0 <= a < ws.len() && #[trigger] ws[a].id == ids[n];
        // the want with the last id is still as it was
        lemma_id_rank(d, last);
        assert(!d.contains(last)) by {
            if d.contains(last) {
                let k = choose|k: int| 0 <= k < d.len() && d[k] == last;
                assert(ids[k] == ids[n]);
            }
        }
        assert(r0[a] == ws[a]);
        assert forall|i: int, j: int| 0 <= i < r0.len() && 0 <= j < r0.len() && i != j implies #[trigger] r0[i].id != #[trigger] r0[j].id by {
            assert(r0[i].id == ws[i].id && r0[j].id == ws[j].id);
        }
        lemma_index_of_member(r0, r0[a]);
        let k = index_of_id(r0, last)->0 as int;
        if k != a {
            assert(r0[k].id != r0[a].id);
        }
        let r = renumber(ws, ids, keys);
        assert(r == r0.update(a, apply_view(r0[a], pos_only(keys[n]))));
        assert forall|b: int| 0 <= b < ws.len() implies r[b] == #[trigger] renumbered(ws[b], ids, keys) by {
            if b == a {
                assert(id_rank(ids, last) == Some(n as nat));
            } else {
                assert(ws[b].id != ws[a].id);
                assert(id_rank(ids, ws[b].id) == id_rank(d, ws[b].id));
            }
        }
        assert(r =~= ws.map_values(|w: WantView| renumbered(w, ids, keys)));
    }
}

/// Renumbering changes only keys, so a quadrant keeps its wants.
proof fn lemma_filter_q_renumbered(ws: Seq<WantView>, ids: Seq<Seq<char>>, keys: Seq<Seq<char>>, q: Quadrant)
    ensures
        filter_q(ws.map_values(|w: WantView| renumbered(w, ids, keys)), q)
            == filter_q(ws, q).map_values(|w: WantView| renumbered(w, ids, keys)),
    decreases ws.len(),
{
    let g = |w: WantView| renumbered(w, ids, keys);
    let u = ws.map_values(g);
    if ws.len() == 0 {
        assert(u =~= ws.map_values(g));
        assert(filter_q(u, q) =~= filter_q(ws, q).map_values(g));
    } else {
        lemma_filter_q_renumbered(ws.drop_last(), ids, keys, q);
        assert(u.drop_last() =~= ws.drop_last().map_values(g));
        assert(u.last() == g(ws.last()));
        assert(in_quadrant(g(ws.last()), q) == in_quadrant(ws.last(), q));
        let r = filter_q(ws.drop_last(), q);
        if in_quadrant(ws.last(), q) {
            assert(r.push(ws.last()).map_values(g) =~= r.map_values(g).push(g(ws.last())));
        }
        assert(filter_q(u, q) =~= filter_q(ws, q).map_values(g));
    }
}

/// Rearrangements stay rearrangements after renumbering.
proof fn lemma_renumbered_perm(x: Seq<WantView>, y: Seq<WantView>, ids: Seq<Seq<char>>, keys: Seq<Seq<char>>)
    requires
        x.to_multiset() == y.to_multiset(),
    ensures
        x.map_values(|w: WantView| renumbered(w, ids, keys)).to_multiset()
            == y.map_values(|w: WantView| renumbered(w, ids, keys)).to_multiset(),
    decreases x.len(),
{
    broadcast use vstd::seq_lib::group_to_multiset_ensures;
    let g = |w: WantView| renumbered(w, ids, keys);
    assert(x.len() == x.to_multiset().len());
    assert(y.len() == y.to_multiset().len());
    if x.len() == 0 {
        assert(y.len() == 0);
        assert(x.map_values(g) =~= y.map_values(g));
    } else {
        let e = x.last();
        assert(x.contains(e));
        assert(x.to_multiset().count(e) > 0);
        assert(y.to_multiset().count(e) > 0);
        assert(y.contains(e));
        let j = choose|j: int| 0 <= j < y.len() && y[j] == e;
        let x1 = x.drop_last();
        let y1 = y.remove(j);
        assert(x1 =~= x.remove(x.len() - 1));
        assert(x1.to_multiset() == x.to_multiset().remove(e));
        assert(y1.to_multiset() == y.to_multiset().remove(e));
        lemma_renumbered_perm(x1, y1, ids, keys);
        assert(x.map_values(g) =~= x1.map_values(g).push(g(e)));
        assert(y1.map_values(g) =~= y.map_values(g).remove(j));
        assert(y.map_values(g)[j] == g(e));
        assert(y.map_values(g).remove(j).to_multiset() == y.map_values(g).to_multiset().remove(g(e)));
        assert(y.map_values(g).contains(g(e)));
        assert(y.map_values(g).to_multiset().count(g(e)) > 0);
        assert(y.map_values(g).to_multiset() =~= y.map_values(g).to_multiset().remove(g(e)).insert(g(e)));
    }
}

/// Reordering with `K` or `J` when the keys around the target row leave no
/// room (wants sharing a key): the quadrant's wants get new keys in the
/// new order. The list afterwards is the list before with the moved want
/// taken out and put back at the target row, each want with the key of its
/// row, the keys well formed and strictly increasing. The cursor, put on
/// the want, goes to that row of that quadrant.
pub proof fn law_place_renumbers(ws: Seq<WantView>, qi: nat, s: nat, to: nat)
    requires
        ids_unique(ws),
        keys_ok(ws),
        qi < 4,
        s < list_spec(ws, quadrant_at(qi as int)).len(),
        !place_plan(list_spec(ws, quadrant_at(qi as int)), list_spec(ws, quadrant_at(qi as int))[s as int].id, to).0,
    ensures
        ({
            let q = quadrant_at(qi as int);
            let l = list_spec(ws, q);
            let w = l[s as int];
            let t = if to < l.len() - 1 { to as int } else { l.len() - 1 };
            let keys = place_plan(l, w.id, to).3;
            let moved = l.remove(s as int).insert(t, w);
            let after = place_ws(ws, l, w.id, to);
            &&& list_spec(after, q) == Seq::new(moved.len(), |i: int| WantView { pos: keys[i], ..moved[i] })
            &&& strictly_sorted(keys)
            &&& forall|i: int| 0 <= i < keys.len() ==> valid_key(#[trigger] keys[i])
            &&& focus_target(after, w.id) == Some((qi, t as nat))
        }),
{
    broadcast use vstd::seq_lib::group_to_multiset_ensures;
    let q = quadrant_at(qi as int);
    let l = list_spec(ws, q);
    let x = filter_q(ws, q);
    let w = l[s as int];
    let plan = place_plan(l, w.id, to);

    // the list before: sorted, a rearrangement of the quadrant's wants, distinct ids
    lemma_list_members(ws, q);
    lemma_filter_q_unique(ws, q);
    law_sort_sorted_permutation(Order::ByPos, x);
    lemma_ids_unique_perm(l, x);
    lemma_others_remove(l, s as int);
    let o = l.remove(s as int);
    let t = if to < o.len() { to as int } else { o.len() as int };
    let moved = o.insert(t, w);
    lemma_list_keys(ws, q);
    law_place_plan(l, w.id, to);

    // the new order: the wants of the list, rearranged, with distinct ids
    assert(moved.to_multiset() == o.to_multiset().insert(w));
    assert(o.to_multiset() == l.to_multiset().remove(w));
    assert(l.contains(w));
    assert(l.to_multiset().count(w) > 0);
    assert(moved.to_multiset() =~= l.to_multiset());
    lemma_ids_unique_perm(moved, l);
    let ids = plan.2;
    let keys = plan.3;
    assert(ids =~= moved.map_values(|v: WantView| v.id));
    assert forall|i: int, j: int| 0 <= i < ids.len() && 0 <= j < ids.len() && i != j implies ids[i] != ids[j] by {
        assert(ids[i] == moved[i].id && ids[j] == moved[j].id);
    }
    assert forall|i: int| 0 <= i < ids.len() implies has_id(ws, #[trigger] ids[i]) by {
        assert(moved.contains(moved[i]));
        assert(moved.to_multiset().count(moved[i]) > 0);
        assert(l.to_multiset().count(moved[i]) > 0);
        assert(l.contains(moved[i]));
        let a = choose|a: int| 0 <= a < l.len() && l[a] == moved[i];
        assert(ws.contains(l[a]));
        let b = choose|b: int| 0 <= b < ws.len() && ws[b] == l[a];
        assert(ws[b].id == ids[i]);
    }

    // the wants afterwards: each want of the new order gets the key of its row
    let g = |v: WantView| renumbered(v, ids, keys);
    lemma_renumber(ws, ids, keys);
    let after = place_ws(ws, l, w.id, to);
    assert(after == ws.map_values(g));
    lemma_filter_q_renumbered(ws, ids, keys, q);
    let x2 = filter_q(after, q);
    let target = Seq::new(moved.len(), |i: int| WantView { pos: keys[i], ..moved[i] });
    assert forall|i: int| 0 <= i < moved.len() implies #[trigger] moved.map_values(g)[i] == target[i] by {
        lemma_id_rank_at(ids, i);
    }
    assert(moved.map_values(g) =~= target);
    assert(x.to_multiset() == moved.to_multiset());
    lemma_renumbered_perm(x, moved, ids, keys);

    // the list afterwards is sorted with distinct ids, so it is `target`
    let l2 = list_spec(after, q);
    law_sort_sorted_permutation(Order::ByPos, x2);
    assert forall|a: int, b: int| 0 <= a < target.len() && 0 <= b < target.len() && a < b implies key_le(Order::ByPos, #[trigger] target[a], #[trigger] target[b]) by {
        assert(lex_lt(keys[a], keys[b]));
    }
    assert forall|i: int, j: int| 0 <= i < after.len() && 0 <= j < after.len() && i != j implies #[trigger] after[i].id != #[trigger] after[j].id by {
        assert(after[i].id == ws[i].id && after[j].id == ws[j].id);
    }
    lemma_filter_q_unique(after, q);
    lemma_ids_unique_perm(l2, x2);
    lemma_sorted_unique(l2, target);

    // only quadrant `qi` lists a want with that id, at row `t`
    assert(ws.contains(w));
    lemma_index_of_member(ws, w);
    let k = index_of_id(ws, w.id)->0 as int;
    assert(after[k] == g(w));
    assert(target[t] == g(w)) by {
        lemma_id_rank_at(ids, t);
    }
    assert(in_quadrant(g(w), q));
    lemma_row_of(target, t);
    lemma_focus_only(after, k, q, t as nat);
}

/// `K` moves the selected want one row up its quadrant and `J` one row
/// down; the quadrant's other wants keep their order, and the cursor
/// follows the want.
pub proof fn law_reorder_key(a: App, b: App, up: bool)
    requires
        a.wf(),
        ids_unique(a.ws()),
        a.mode == Mode::Normal,
        a.screen == Screen::Wants,
        cur_sel(a) < cur_len(a),
        up ==> cur_sel(a) > 0,
        !up ==> cur_sel(a) + 1 < cur_len(a),
        key_post(a, b, Key { code: KeyCode::Char(if up { 'K' } else { 'J' }), ctrl: false }),
    ensures
        ({
            let l = list_spec(a.ws(), quadrant_at(a.cur as int));
            let s = cur_sel(a) as int;
            let t = if up { s - 1 } else { s + 1 };
            &&& list_spec(b.ws(), quadrant_at(a.cur as int)).map_values(|w: WantView| w.id)
                == l.remove(s).insert(t, l[s]).map_values(|w: WantView| w.id)
            &&& b.cur == a.cur
            &&& b.sel@[a.cur as int] == t
        }),
{
    let c = App { message: None, ..a };
    let ws = a.ws();
    let qi = a.cur as nat;
    let q = quadrant_at(qi as int);
    let l = list_spec(ws, q);
    let s = cur_sel(a) as int;
    let t = if up { s - 1 } else { s + 1 };
    let w = l[s];
    assert(c.ws() == ws);
    assert(c.selected_spec() == Some(w));
    assert(place_post(c, b, w.id, t as nat));
    let after = place_ws(ws, l, w.id, t as nat);
    assert(b.ws() == after);
    let moved = l.remove(s).insert(t, w);
    if place_plan(l, w.id, t as nat).0 {
        law_place_moves_to_row(ws, qi, s as nat, t as nat);
        let v = WantView { pos: place_plan(l, w.id, t as nat).1, ..w };
        let m2 = l.remove(s).insert(t, v);
        assert(list_spec(after, q) == m2);
        assert(m2.map_values(|x: WantView| x.id) =~= moved.map_values(|x: WantView| x.id));
    } else {
        law_place_renumbers(ws, qi, s as nat, t as nat);
        let keys = place_plan(l, w.id, t as nat).3;
        let r = Seq::new(moved.len(), |i: int| WantView { pos: keys[i], ..moved[i] });
        assert(list_spec(after, q) == r);
        assert(r.map_values(|x: WantView| x.id) =~= moved.map_values(|x: WantView| x.id));
    }
    assert(focus_target(after, w.id) == Some((qi, t as nat)));
    // the rows fit a `usize`: the list is no longer than the wants
    lemma_filter_q_len(ws, q);
    assert(a.wants.len() == a.wants@.len());
    assert(t < l.len() <= ws.len() == a.wants@.len());
}

proof fn lemma_filter_q_len(ws: Seq<WantView>, q: Quadrant)
    ensures
        list_spec(ws, q).len() == filter_q(ws, q).len(),
        filter_q(ws, q).len() <= ws.len(),
    decreases ws.len(),
{
    law_sort_sorted_permutation(Order::ByPos, filter_q(ws, q));
    if ws.len() > 0 {
        lemma_filter_q_len(ws.drop_last(), q);
    }
}

/// A want that comes into quadrant `q` joins the quadrant's wants in
/// stored order.
proof fn lemma_filter_q_join(ws: Seq<WantView>, k: int, v: WantView, q: Quadrant)
    requires
        0 <= k < ws.len(),
        !in_quadrant(ws[k], q),
        in_quadrant(v, q),
    ensures
        filter_q(ws.update(k, v), q).to_multiset() == filter_q(ws, q).to_multiset().insert(v),
    decreases ws.len(),
{
    broadcast use vstd::seq_lib::group_to_multiset_ensures;
    let u = ws.update(k, v);
    if k == ws.len() - 1 {
        assert(u.drop_last() =~= ws.drop_last());
        assert(u.last() == v);
        assert(ws.last() == ws[k]);
    } else {
        assert(u.drop_last() =~= ws.drop_last().update(k, v));
        assert(ws.drop_last()[k] == ws[k]);
        lemma_filter_q_join(ws.drop_last(), k, v, q);
        assert(u.last() == ws.last());
        let r = filter_q(ws.drop_last(), q);
        let r2 = filter_q(u.drop_last(), q);
        if in_quadrant(ws.last(), q) {
            assert(filter_q(u, q).to_multiset() == r2.to_multiset().insert(ws.last()));
            assert(filter_q(ws, q).to_multiset() == r.to_multiset().insert(ws.last()));
            assert(r2.to_multiset().insert(ws.last()) =~= r.to_multiset().insert(ws.last()).insert(v));
        }
    }
}

/// A want that leaves quadrant `q` leaves the quadrant's wants.
proof fn lemma_filter_q_leave(ws: Seq<WantView>, k: int, v: WantView, q: Quadrant)
    requires
        0 <= k < ws.len(),
        in_quadrant(ws[k], q),
        !in_quadrant(v, q),
    ensures
        filter_q(ws.take(k), q).len() < filter_q(ws, q).len(),
        filter_q(ws, q)[filter_q(ws.take(k), q).len() as int] == ws[k],
        filter_q(ws.update(k, v), q) == filter_q(ws, q).remove(filter_q(ws.take(k), q).len() as int),
    decreases ws.len(),
{
    let u = ws.update(k, v);
    let m = filter_q(ws.take(k), q).len() as int;
    if k == ws.len() - 1 {
        assert(u.drop_last() =~= ws.drop_last());
        assert(ws.take(k) =~= ws.drop_last());
        assert(u.last() == v);
        assert(filter_q(u, q) =~= filter_q(ws, q).remove(m));
    } else {
        assert(u.drop_last() =~= ws.drop_last().update(k, v));
        assert(ws.drop_last().take(k) =~= ws.take(k));
        assert(ws.drop_last()[k] == ws[k]);
        lemma_filter_q_leave(ws.drop_last(), k, v, q);
        assert(u.last() == ws.last());
        assert(filter_q(u, q) =~= filter_q(ws, q).remove(m));
    }
}

/// The wants afterwards still have distinct ids when one want changes
/// without changing its id.
proof fn lemma_update_unique(ws: Seq<WantView>, k: int, v: WantView)
    requires
        ids_unique(ws),
        0 <= k < ws.len(),
        v.id == ws[k].id,
    ensures
        ids_unique(ws.update(k, v)),
{
    let u = ws.update(k, v);
    assert forall|i: int, j: int| 0 <= i < u.len() && 0 <= j < u.len() && i != j implies #[trigger] u[i].id != #[trigger] u[j].id by {
        assert(u[i].id == ws[i].id && u[j].id == ws[j].id);
    }
}

/// A want that comes into quadrant `q` with a key above every key there
/// becomes the last row of the quadrant's list.
proof fn lemma_list_join(ws: Seq<WantView>, k: int, v: WantView, q: Quadrant)
    requires
        ids_unique(ws),
        0 <= k < ws.len(),
        !in_quadrant(ws[k], q),
        in_quadrant(v, q),
        v.id == ws[k].id,
        forall|i: int| 0 <= i < list_spec(ws, q).len() ==> lex_lt(#[trigger] list_spec(ws, q)[i].pos, v.pos),
    ensures
        list_spec(ws.update(k, v), q) == list_spec(ws, q).push(v),
{
    broadcast use vstd::seq_lib::group_to_multiset_ensures;
    let l = list_spec(ws, q);
    let u = ws.update(k, v);
    let target = l.push(v);
    law_sort_sorted_permutation(Order::ByPos, filter_q(ws, q));
    law_sort_sorted_permutation(Order::ByPos, filter_q(u, q));
    lemma_filter_q_join(ws, k, v, q);
    assert forall|a: int, b: int| 0 <= a < b < target.len() implies key_le(Order::ByPos, #[trigger] target[a], #[trigger] target[b]) by {
        if b == l.len() {
            assert(lex_lt(l[a].pos, v.pos));
        } else {
            assert(target[a] == l[a] && target[b] == l[b]);
        }
    }
    lemma_update_unique(ws, k, v);
    lemma_filter_q_unique(u, q);
    lemma_ids_unique_perm(list_spec(u, q), filter_q(u, q));
    lemma_sorted_unique(list_spec(u, q), target);
}

/// A want that leaves quadrant `q` leaves the quadrant's list; the others
/// keep their rows in order.
proof fn lemma_list_leave(ws: Seq<WantView>, k: int, v: WantView, q: Quadrant)
    requires
        ids_unique(ws),
        0 <= k < ws.len(),
        in_quadrant(ws[k], q),
        !in_quadrant(v, q),
        v.id == ws[k].id,
    ensures
        index_of_id(list_spec(ws, q), ws[k].id) matches Some(j)
            && j < list_spec(ws, q).len()
            && list_spec(ws, q)[j as int] == ws[k]
            && list_spec(ws.update(k, v), q) == list_spec(ws, q).remove(j as int),
{
    broadcast use vstd::seq_lib::group_to_multiset_ensures;
    let l = list_spec(ws, q);
    let x = filter_q(ws, q);
    let u = ws.update(k, v);
    law_sort_sorted_permutation(Order::ByPos, x);
    law_sort_sorted_permutation(Order::ByPos, filter_q(u, q));
    lemma_filter_q_leave(ws, k, v, q);
    let m = filter_q(ws.take(k), q).len() as int;
    lemma_filter_q_unique(ws, q);
    lemma_ids_unique_perm(l, x);
    assert(x.contains(ws[k]));
    assert(x.to_multiset().count(ws[k]) > 0);
    assert(l.to_multiset().count(ws[k]) > 0);
    assert(l.contains(ws[k]));
    lemma_index_of_member(l, ws[k]);
    let j = index_of_id(l, ws[k].id)->0 as int;
    let target = l.remove(j);
    lemma_sorted_remove(l, j);
    assert(filter_q(u, q).to_multiset() == x.to_multiset().remove(ws[k]));
    assert(target.to_multiset() == l.to_multiset().remove(ws[k]));
    lemma_update_unique(ws, k, v);
    lemma_filter_q_unique(u, q);
    lemma_ids_unique_perm(list_spec(u, q), filter_q(u, q));
    lemma_sorted_unique(list_spec(u, q), target);
}

/// The place of quadrant `q` in screen order.
pub open spec fn quadrant_index(q: Quadrant) -> nat {
    (if q.energy { 0nat } else { 2nat }) + (if q.clau { 1nat } else { 0nat })
}

/// Every key of a quadrant's list lies below the key for its end.
proof fn lemma_tail_above(ws: Seq<WantView>, q: Quadrant)
    requires
        keys_ok(ws),
    ensures
        forall|i: int| 0 <= i < list_spec(ws, q).len() ==> lex_lt(#[trigger] list_spec(ws, q)[i].pos, tail_spec(ws, q)),
{
    let l = list_spec(ws, q);
    if l.len() > 0 {
        let last = l[l.len() - 1];
        assert(l.last() == last);
        lemma_list_keys(ws, q);
        assert(valid_key(last.pos));
        lemma_all_b62_after_ok(last.pos);
        lemma_after_key(last.pos);
        law_sort_sorted_permutation(Order::ByPos, filter_q(ws, q));
        assert forall|i: int| 0 <= i < l.len() implies lex_lt(#[trigger] l[i].pos, tail_spec(ws, q)) by {
            if i < l.len() - 1 {
                assert(key_le(Order::ByPos, l[i], last));
                if lex_lt(l[i].pos, last.pos) {
                    lemma_lex_lt_trans(l[i].pos, last.pos, after_key(last.pos));
                }
            }
        }
    }
}

/// After a want that only one quadrant lists, at row `r`, the cursor goes
/// there.
proof fn lemma_focus_only(ws: Seq<WantView>, k: int, q: Quadrant, r: nat)
    requires
        ids_unique(ws),
        0 <= k < ws.len(),
        in_quadrant(ws[k], q),
        index_of_id(list_spec(ws, q), ws[k].id) == Some(r),
    ensures
        focus_target(ws, ws[k].id) == Some((quadrant_index(q), r)),
{
    let id = ws[k].id;
    let qi = quadrant_index(q);
    assert(quadrant_at(qi as int) == q);
    assert forall|j: int| 0 <= j < 4 && j != qi implies index_of_id(#[trigger] list_spec(ws, quadrant_at(j)), id) is None by {
        let lj = list_spec(ws, quadrant_at(j));
        lemma_list_members(ws, quadrant_at(j));
        lemma_index_of_id_found(lj, id);
        if let Some(i) = index_of_id(lj, id) {
            assert(ws.contains(lj[i as int]));
            let a = choose|a: int| 0 <= a < ws.len() && ws[a] == lj[i as int];
            if a != k {
                assert(ws[a].id != ws[k].id);
            }
            assert(in_quadrant(lj[i as int], quadrant_at(j)));
        }
    }
    if qi > 0 {
        assert(index_of_id(list_spec(ws, quadrant_at(0)), id) is None);
    }
    if qi > 1 {
        assert(index_of_id(list_spec(ws, quadrant_at(1)), id) is None);
    }
    if qi > 2 {
        assert(index_of_id(list_spec(ws, quadrant_at(2)), id) is None);
    }
}

/// The row of a want in a list without repeated ids.
proof fn lemma_row_of(l: Seq<WantView>, r: int)
    requires
        ids_unique(l),
        0 <= r < l.len(),
    ensures
        index_of_id(l, l[r].id) == Some(r as nat),
{
    assert(l.contains(l[r]));
    lemma_index_of_member(l, l[r]);
    let j = index_of_id(l, l[r].id)->0 as int;
    if j != r {
        assert(l[j].id != l[r].id);
    }
}

/// The quadrant lists have distinct ids when the wants do, and are no
/// longer than the wants.
proof fn lemma_list_unique(ws: Seq<WantView>, q: Quadrant)
    requires
        ids_unique(ws),
    ensures
        ids_unique(list_spec(ws, q)),
        list_spec(ws, q).len() <= ws.len(),
{
    lemma_filter_q_unique(ws, q);
    law_sort_sorted_permutation(Order::ByPos, filter_q(ws, q));
    lemma_ids_unique_perm(list_spec(ws, q), filter_q(ws, q));
    lemma_filter_q_len(ws, q);
}

/// `H`, `L` and `E` move the selected want to the end of the quadrant on
/// the left, on the right, or above or below: it leaves its list, the
/// others keeping their order, and becomes the last row of the other
/// quadrant's list, where the cursor follows it.
pub proof fn law_move_key(a: App, b: App, c: char)
    requires
        a.wf(),
        ids_unique(a.ws()),
        a.mode == Mode::Normal,
        a.screen == Screen::Wants,
        cur_sel(a) < cur_len(a),
        c == 'H' ==> quadrant_at(a.cur as int).clau,
        c == 'L' ==> !quadrant_at(a.cur as int).clau,
        c == 'H' || c == 'L' || c == 'E',
        key_post(a, b, Key { code: KeyCode::Char(c), ctrl: false }),
    ensures
        ({
            let q = quadrant_at(a.cur as int);
            let dest = if c == 'H' {
                Quadrant { energy: q.energy, clau: false }
            } else if c == 'L' {
                Quadrant { energy: q.energy, clau: true }
            } else {
                Quadrant { energy: !q.energy, clau: q.clau }
            };
            let l = list_spec(a.ws(), q);
            let s = cur_sel(a) as int;
            let w = l[s];
            let moved = WantView { energy: dest.energy, clau: dest.clau, pos: tail_spec(a.ws(), dest), ..w };
            &&& list_spec(b.ws(), q) == l.remove(s)
            &&& list_spec(b.ws(), dest) == list_spec(a.ws(), dest).push(moved)
            &&& b.cur == quadrant_index(dest)
            &&& b.sel@[b.cur as int] == list_spec(a.ws(), dest).len()
        }),
{
    let ca = App { message: None, ..a };
    let ws = a.ws();
    let q = quadrant_at(a.cur as int);
    let dest = if c == 'H' {
        Quadrant { energy: q.energy, clau: false }
    } else if c == 'L' {
        Quadrant { energy: q.energy, clau: true }
    } else {
        Quadrant { energy: !q.energy, clau: q.clau }
    };
    let l = list_spec(ws, q);
    let s = cur_sel(a) as int;
    let w = l[s];
    let p = tail_spec(ws, dest);
    let v = WantView { energy: dest.energy, clau: dest.clau, pos: p, ..w };
    assert(ca.ws() == ws);
    assert(ca.selected_spec() == Some(w));
    assert(move_post(ca, b, dest));

    // the selected want is the want of `ws` with its id
    lemma_list_members(ws, q);
    assert(ws.contains(w));
    assert(in_quadrant(w, q));
    lemma_index_of_member(ws, w);
    let k = index_of_id(ws, w.id)->0 as int;
    let op = OpView::Patch { id: w.id, patch: move_patch(dest, p) };
    assert(apply_view(ws[k], move_patch(dest, p)) == v);
    let ws2 = apply_op(ws, op);
    assert(ws2 == ws.update(k, v));
    assert(b.ws() == ws2);

    // it leaves its list at its row
    lemma_list_unique(ws, q);
    lemma_list_leave(ws, k, v, q);
    lemma_row_of(l, s);

    // and joins the end of the other list
    lemma_tail_above(ws, dest);
    lemma_list_join(ws, k, v, dest);

    // the cursor follows it
    let ld = list_spec(ws, dest);
    lemma_update_unique(ws, k, v);
    lemma_list_unique(ws2, dest);
    assert(list_spec(ws2, dest)[ld.len() as int] == v);
    lemma_row_of(list_spec(ws2, dest), ld.len() as int);
    assert(ws2[k] == v);
    lemma_focus_only(ws2, k, dest, ld.len());
    assert(a.wants.len() == a.wants@.len());
    lemma_list_unique(ws2, dest);
}

proof fn lemma_done_members(ws: Seq<WantView>)
    ensures
        forall|k: int| 0 <= k < done_spec(ws).len() ==> is_done_item(#[trigger] done_spec(ws)[k]) && ws.contains(done_spec(ws)[k]),
    decreases ws.len(),
{
    broadcast use vstd::seq_lib::group_to_multiset_ensures;
    lemma_filter_done_members(ws);
    law_sort_sorted_permutation(Order::DoneDesc, filter_done(ws));
    let d = done_spec(ws);
    let f = filter_done(ws);
    assert forall|k: int| 0 <= k < d.len() implies is_done_item(#[trigger] d[k]) && ws.contains(d[k]) by {
        assert(d.contains(d[k]));
        assert(d.to_multiset().count(d[k]) > 0);
        assert(f.to_multiset().count(d[k]) > 0);
        assert(f.contains(d[k]));
        let j = choose|j: int| 0 <= j < f.len() && f[j] == d[k];
        assert(is_done_item(f[j]) && ws.contains(f[j]));
    }
}

proof fn lemma_filter_done_members(ws: Seq<WantView>)
    ensures
        forall|k: int| 0 <= k < filter_done(ws).len() ==> is_done_item(#[trigger] filter_done(ws)[k]) && ws.contains(filter_done(ws)[k]),
    decreases ws.len(),
{
    if ws.len() > 0 {
        lemma_filter_done_members(ws.drop_last());
        let f = filter_done(ws);
        let r = filter_done(ws.drop_last());
        assert forall|k: int| 0 <= k < f.len() implies is_done_item(#[trigger] f[k]) && ws.contains(f[k]) by {
            if k < r.len() {
                assert(f[k] == r[k]);
                let j = choose|j: int| 0 <= j < ws.drop_last().len() && ws.drop_last()[j] == r[k];
                assert(ws[j] == r[k]);
            } else {
                assert(f[k] == ws.last());
                assert(ws[ws.len() - 1] == ws.last());
            }
        }
    }
}

/// `t` marks the selected want done: it leaves its quadrant's list, the
/// others keeping their order, and only its `done_at` changes, to a time
/// in RFC 3339 form.
pub proof fn law_done_key(a: App, b: App)
    requires
        a.wf(),
        ids_unique(a.ws()),
        a.mode == Mode::Normal,
        a.screen == Screen::Wants,
        cur_sel(a) < cur_len(a),
        key_post(a, b, Key { code: KeyCode::Char('t'), ctrl: false }),
    ensures
        ({
            let q = quadrant_at(a.cur as int);
            let l = list_spec(a.ws(), q);
            let s = cur_sel(a) as int;
            let w = l[s];
            &&& list_spec(b.ws(), q) == l.remove(s)
            &&& exists|k: int, t: Seq<char>| 0 <= k < a.ws().len() && a.ws()[k] == w && is_rfc3339_utc_secs(t)
                && b.ws() == #[trigger] a.ws().update(k, WantView { done_at: Some(t), ..w })
        }),
{
    let ca = App { message: None, ..a };
    let ws = a.ws();
    let q = quadrant_at(a.cur as int);
    let l = list_spec(ws, q);
    let s = cur_sel(a) as int;
    let w = l[s];
    assert(ca.ws() == ws);
    assert(ca.selected_spec() == Some(w));
    let t = choose|t: Seq<char>| is_rfc3339_utc_secs(t) && patch_post(ca, App { message: ca.message, ..b }, w.id, #[trigger] done_patch(t));
    lemma_list_members(ws, q);
    assert(ws.contains(w));
    assert(in_quadrant(w, q));
    lemma_index_of_member(ws, w);
    let k = index_of_id(ws, w.id)->0 as int;
    let v = WantView { done_at: Some(t), ..w };
    assert(apply_view(ws[k], done_patch(t)) == v);
    assert(b.ws() == ws.update(k, v));
    lemma_list_unique(ws, q);
    lemma_list_leave(ws, k, v, q);
    lemma_row_of(l, s);
}

/// `u` on the done screen takes the selected want back: it is no longer
/// done and becomes the last row of its quadrant's list.
pub proof fn law_undo_key(a: App, b: App)
    requires
        a.wf(),
        ids_unique(a.ws()),
        a.mode == Mode::Normal,
        a.screen == Screen::Done,
        a.done_sel < done_spec(a.ws()).len(),
        key_post(a, b, Key { code: KeyCode::Char('u'), ctrl: false }),
    ensures
        ({
            let w = done_spec(a.ws())[a.done_sel as int];
            let q = Quadrant { energy: w.energy, clau: w.clau };
            list_spec(b.ws(), q) == list_spec(a.ws(), q).push(WantView { pos: tail_spec(a.ws(), q), done_at: None, ..w })
        }),
{
    let ca = App { message: None, ..a };
    let ws = a.ws();
    let w = done_spec(ws)[a.done_sel as int];
    let q = Quadrant { energy: w.energy, clau: w.clau };
    let p = tail_spec(ws, q);
    assert(ca.ws() == ws);
    assert(ca.selected_spec() == Some(w));
    lemma_done_members(ws);
    assert(ws.contains(w));
    lemma_index_of_member(ws, w);
    let k = index_of_id(ws, w.id)->0 as int;
    let v = WantView { pos: p, done_at: None, ..w };
    assert(apply_view(ws[k], undo_patch(p)) == v);
    assert(b.ws() == ws.update(k, v));
    lemma_tail_above(ws, q);
    lemma_list_join(ws, k, v, q);
}

/// A new want in quadrant `q` with a key above every key there becomes the
/// last row of the quadrant's list.
proof fn lemma_list_push(ws: Seq<WantView>, w: WantView, q: Quadrant)
    requires
        ids_unique(ws.push(w)),
        in_quadrant(w, q),
        forall|i: int| 0 <= i < list_spec(ws, q).len() ==> lex_lt(#[trigger] list_spec(ws, q)[i].pos, w.pos),
    ensures
        list_spec(ws.push(w), q) == list_spec(ws, q).push(w),
{
    broadcast use vstd::seq_lib::group_to_multiset_ensures;
    let l = list_spec(ws, q);
    let u = ws.push(w);
    let target = l.push(w);
    assert(u.drop_last() =~= ws);
    assert(filter_q(u, q) == filter_q(ws, q).push(w));
    law_sort_sorted_permutation(Order::ByPos, filter_q(ws, q));
    law_sort_sorted_permutation(Order::ByPos, filter_q(u, q));
    assert forall|a: int, b: int| 0 <= a < b < target.len() implies key_le(Order::ByPos, #[trigger] target[a], #[trigger] target[b]) by {
        if b == l.len() {
            assert(lex_lt(l[a].pos, w.pos));
        } else {
            assert(target[a] == l[a] && target[b] == l[b]);
        }
    }
    lemma_list_unique(u, q);
    lemma_sorted_unique(list_spec(u, q), target);
}

/// Adding with `n`: on `Enter` in the last step the new want becomes the
/// last row of the quadrant chosen, and the cursor goes to it (its id is
/// fresh, so it is taken to differ from those of the other wants).
pub proof fn law_add_at_end(a: App, b: App, title: String, energy: bool, clau: bool)
    requires
        a.wf(),
        a.mode == (Mode::AddClau { title, energy, clau }),
        key_post(a, b, Key { code: KeyCode::Enter, ctrl: false }),
        ids_unique(b.ws()),
    ensures
        ({
            let q = Quadrant { energy, clau };
            let w = b.ws().last();
            &&& b.ws() == a.ws().push(w)
            &&& w.title == title@ && w.energy == energy && w.clau == clau
            &&& w.pos == tail_spec(a.ws(), q)
            &&& !w.deleted && w.done_at is None
            &&& list_spec(b.ws(), q) == list_spec(a.ws(), q).push(w)
            &&& b.cur == quadrant_index(q)
            &&& b.sel@[b.cur as int] == list_spec(a.ws(), q).len()
        }),
{
    let normal = App { mode: Mode::Normal, ..a };
    let ws = a.ws();
    let q = Quadrant { energy, clau };
    assert(create_post(normal, b, title, energy, clau));
    let w = b.ws().last();
    assert(b.ws() == ws.push(w) && w.pos == tail_spec(ws, q) && w.energy == energy && w.clau == clau);
    let ws2 = ws.push(w);
    assert(b.ws() == ws2);
    assert(ws2.last() == w);
    assert(in_quadrant(w, q));
    lemma_tail_above(ws, q);
    lemma_list_push(ws, w, q);
    let l = list_spec(ws, q);
    lemma_list_unique(ws2, q);
    assert(list_spec(ws2, q)[l.len() as int] == w);
    lemma_row_of(list_spec(ws2, q), l.len() as int);
    assert(ws2[ws.len() as int] == w);
    lemma_focus_only(ws2, ws.len() as int, q, l.len());
    assert(b.wants.len() == b.wants@.len());
}

/// Confirming a delete with `y`: the want with the dialog's id leaves the
/// list it was on, the others keeping their order, and is kept as a
/// tombstone (only its `deleted` flag changes).
pub proof fn law_delete_confirm(a: App, b: App, id: String, title: String, q: Quadrant, k: int)
    requires
        a.wf(),
        ids_unique(a.ws()),
        a.mode == (Mode::ConfirmDelete { id, title }),
        key_post(a, b, Key { code: KeyCode::Char('y'), ctrl: false }),
        0 <= k < a.ws().len(),
        a.ws()[k].id == id@,
        in_quadrant(a.ws()[k], q),
    ensures
        ({
            let l = list_spec(a.ws(), q);
            let w = a.ws()[k];
            &&& b.ws() == a.ws().update(k, WantView { deleted: true, ..w })
            &&& index_of_id(l, id@) matches Some(j) && j < l.len() && l[j as int] == w
                && list_spec(b.ws(), q) == l.remove(j as int)
        }),
{
    let ws = a.ws();
    let w = ws[k];
    assert(ws.contains(w));
    lemma_index_of_member(ws, w);
    let k2 = index_of_id(ws, id@)->0 as int;
    if k2 != k {
        assert(ws[k2].id != ws[k].id);
    }
    let v = WantView { deleted: true, ..w };
    assert(b.ws() == ws.update(k, v));
    lemma_list_leave(ws, k, v, q);
}

/// Applying an operation keeps the ids of the wants, a create adding one
/// at the end.
proof fn lemma_apply_op_ids(ws: Seq<WantView>, op: OpView)
    ensures
        op matches OpView::Create { want } ==> apply_op(ws, op) == ws.push(want),
        !(op is Create) ==> ids_of(apply_op(ws, op)) == ids_of(ws),
{
    match op {
        OpView::Create { want } => {},
        OpView::Patch { id, patch } => {
            lemma_index_of_id_found(ws, id);
            assert(ids_of(apply_op(ws, op)) =~= ids_of(ws));
        },
        OpView::Delete { id } => {
            lemma_index_of_id_found(ws, id);
            assert(ids_of(apply_op(ws, op)) =~= ids_of(ws));
        },
    }
}

proof fn lemma_ops_keep_ids(ws: Seq<WantView>)
    ensures
        forall|op: OpView| !(op is Create) ==> ids_of(#[trigger] apply_op(ws, op)) == ids_of(ws),
        forall|w: WantView| #[trigger] apply_op(ws, OpView::Create { want: w }) == ws.push(w),
        forall|ids: Seq<Seq<char>>, keys: Seq<Seq<char>>| ids_of(#[trigger] renumber(ws, ids, keys)) == ids_of(ws),
{
    assert forall|op: OpView| !(op is Create) implies ids_of(#[trigger] apply_op(ws, op)) == ids_of(ws) by {
        lemma_apply_op_ids(ws, op);
    }
    assert forall|w: WantView| #[trigger] apply_op(ws, OpView::Create { want: w }) == ws.push(w) by {
        lemma_apply_op_ids(ws, OpView::Create { want: w });
    }
    assert forall|ids: Seq<Seq<char>>, keys: Seq<Seq<char>>| ids_of(#[trigger] renumber(ws, ids, keys)) == ids_of(ws) by {
        lemma_renumber_ids(ws, ids, keys);
    }
}

proof fn lemma_renumber_ids(ws: Seq<WantView>, ids: Seq<Seq<char>>, keys: Seq<Seq<char>>)
    ensures
        ids_of(renumber(ws, ids, keys)) == ids_of(ws),
    decreases ids.len(),
{
    if ids.len() > 0 {
        lemma_renumber_ids(ws, ids.drop_last(), keys);
        lemma_apply_op_ids(renumber(ws, ids.drop_last(), keys), pos_op(ids.last(), keys[ids.len() - 1]));
    }
}

/// A key press keeps the ids of the wants, in order, except that adding
/// puts the new want's id at the end.
pub proof fn law_key_keeps_ids(a: App, b: App, key: Key)
    requires
        a.wf(),
        key_post(a, b, key),
    ensures
        keeps_ids(a.ws(), b.ws()),
{
    let ws = a.ws();
    lemma_ops_keep_ids(ws);
    let code = key.code;
    if !(key.ctrl && code == KeyCode::Char('c')) {
        match a.mode {
            Mode::Normal => {
                let c = App { message: None, ..a };
                assert(c.ws() == ws);
                match a.screen {
                    Screen::Wants => lemma_wants_key_ids(c, b, key),
                    Screen::Done => {},
                }
            },
            Mode::AddClau { title, energy, clau } => {
                if code == KeyCode::Enter {
                    let normal = App { mode: Mode::Normal, ..a };
                    assert(create_post(normal, b, title, energy, clau));
                    assert(exists|w: WantView| b.ws() == ws.push(w));
                    let w = choose|w: WantView| b.ws() == ws.push(w);
                    assert(b.ws().last() == w);
                    assert(ids_of(b.ws()) =~= ids_of(ws).push(w.id));
                }
            },
            _ => {},
        }
    }
}

proof fn lemma_wants_key_ids(a: App, b: App, key: Key)
    requires
        a.wf(),
        wants_key_post(a, b, key),
    ensures
        ids_of(b.ws()) == ids_of(a.ws()),
{
    let ws = a.ws();
    lemma_ops_keep_ids(ws);
    let q = quadrant_at(a.cur as int);
    let l = list_spec(ws, q);
    let code = key.code;
    let s = cur_sel(a);
    if code == KeyCode::Char('K') || code == KeyCode::Char('J') {
        if let Some(w) = a.selected_spec() {
            let to: nat = if code == KeyCode::Char('K') { (s - 1) as nat } else { (s + 1) as nat };
            let plan = place_plan(l, w.id, to);
            if plan.0 {
                assert(ids_of(apply_op(ws, pos_op(w.id, plan.1))) == ids_of(ws));
            } else {
                assert(ids_of(renumber(ws, plan.2, plan.3)) == ids_of(ws));
            }
        }
    }
}

/// Ids stay distinct when they are kept and a want added has a fresh id.
pub proof fn law_fresh_ids_stay_unique(a: Seq<WantView>, b: Seq<WantView>)
    requires
        ids_unique(a),
        keeps_ids(a, b),
        b.len() > a.len() ==> !has_id(a, b.last().id),
    ensures
        ids_unique(b),
{
    assert(ids_of(a).len() == a.len() && ids_of(b).len() == b.len());
    assert forall|i: int, j: int| 0 <= i < b.len() && 0 <= j < b.len() && i != j implies #[trigger] b[i].id != #[trigger] b[j].id by {
        assert(ids_of(b)[i] == b[i].id && ids_of(b)[j] == b[j].id);
        if i < a.len() && j < a.len() {
            assert(ids_of(a)[i] == a[i].id && ids_of(a)[j] == a[j].id);
        } else if i < a.len() {
            assert(ids_of(a)[i] == a[i].id);
            assert(b.last() == b[j]);
        } else {
            assert(ids_of(a)[j] == a[j].id);
            assert(b.last() == b[i]);
        }
    }
}

/// `Esc` in a dialog only closes it: the wants, the effects, the cursor
/// and every other part of the state stay as they were. Nothing typed in
/// the dialog is saved.
pub proof fn law_esc_closes_dialog(a: App, b: App, ctrl: bool)
    requires
        !(a.mode is Normal),
        key_post(a, b, Key { code: KeyCode::Esc, ctrl }),
    ensures
        b == (App { mode: Mode::Normal, ..a }),
        b.ws() == a.ws(),
        b.effects == a.effects,
{
}

/// On the want lists, `h` or Left goes to the low-clau quadrant of the same
/// energy row and `l` or Right to the high-clau one; nothing else changes.
pub proof fn law_sideways_keeps_row(a: App, b: App, code: KeyCode, ctrl: bool)
    requires
        a.wf(),
        a.mode is Normal,
        a.screen == Screen::Wants,
        code == KeyCode::Char('h') || code == KeyCode::Left || code == KeyCode::Char('l') || code == KeyCode::Right,
        key_post(a, b, Key { code, ctrl }),
    ensures
        b.cur < 4,
        quadrant_at(b.cur as int).energy == quadrant_at(a.cur as int).energy,
        quadrant_at(b.cur as int).clau == (code == KeyCode::Char('l') || code == KeyCode::Right),
        b == (App { cur: b.cur, message: None, ..a }),
{
}

/// On the want lists, `j`/Down and `k`/Up move the cursor within the
/// quadrant's column: the quadrant after the key keeps the clau of the one
/// before.
pub proof fn law_vertical_keeps_column(a: App, b: App, code: KeyCode, ctrl: bool)
    requires
        a.wf(),
        a.mode is Normal,
        a.screen == Screen::Wants,
        code == KeyCode::Char('j') || code == KeyCode::Down || code == KeyCode::Char('k') || code == KeyCode::Up,
        key_post(a, b, Key { code, ctrl }),
    ensures
        b.cur < 4,
        quadrant_at(b.cur as int).clau == quadrant_at(a.cur as int).clau,
{
}

} // verus!
