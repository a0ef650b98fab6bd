//! Importing the old task list: notes with their embedded metadata line,
//! the two-level axes and the keys of each quadrant. Fetching and sending
//! stay outside.

use vstd::prelude::*;
use crate::model::{is_rfc3339_utc_secs, is_hyphenated_uuid, seq_views, Quadrant, Want, WantView};
use crate::pos::{lemma_n_between_keys, n_between, n_between_keys, valid_key};
use crate::text::{lemma_lex_lt_asym, lemma_lex_lt_irrefl, lemma_lex_lt_total, lemma_lex_lt_trans, lex_lt, push_char, strip_prefix, str_eq, str_lt, trim, trim_spec, has_prefix};

verus! {

/// The old importance and clau levels (0 to 10) kept with a task.
#[derive(Debug, Clone, Copy, PartialEq, Eq, Structural)]
pub struct Meta {
    pub imp: u8,
    pub clau: u8,
}

/// The level a missing field of the metadata stands for.
pub fn five() -> (r: u8)
    ensures
        r == 5,
{
    5
}

/// Index of the first line feed in `s`.
pub open spec fn first_nl(s: Seq<char>) -> Option<nat>
    decreases s.len(),
{
    if s.len() == 0 {
        None
    } else if s[0] == '\n' {
        Some(0)
    } else {
        match first_nl(s.drop_first()) {
            Some(i) => Some(i + 1),
            None => None,
        }
    }
}

/// A line without the `\r` of a `\r\n` ending.
pub open spec fn strip_cr(l: Seq<char>) -> Seq<char> {
    if l.len() > 0 && l.last() == '\r' { l.drop_last() } else { l }
}

/// The lines of `s` as `str::lines` gives them: split at `\n` (and `\r\n`),
/// with no empty line after a final line feed.
pub open spec fn lines_spec(s: Seq<char>) -> Seq<Seq<char>>
    decreases s.len(),
{
    if s.len() == 0 {
        Seq::empty()
    } else {
        match first_nl(s) {
            Some(i) => {
                if i < s.len() {
                    seq![strip_cr(s.take(i as int))] + lines_spec(s.skip(i + 1int))
                } else {
                    Seq::empty()
                }
            },
            None => seq![s],
        }
    }
}

proof fn lemma_first_nl(s: Seq<char>, j: int)
    requires
        0 <= j <= s.len(),
        forall|k: int| 0 <= k < j ==> s[k] != '\n',
    ensures
        j < s.len() && s[j] == '\n' ==> first_nl(s) == Some(j as nat),
        j == s.len() ==> first_nl(s) is None,
    decreases j,
{
    if j > 0 {
        lemma_first_nl(s.drop_first(), j - 1);
    }
}

/// The lines of `notes`.
pub fn note_lines(notes: &str) -> (r: Vec<String>)
    ensures
        r@.map_values(|l: String| l@) == lines_spec(notes@),
{
    let n = notes.unicode_len();
    let mut out: Vec<String> = Vec::new();
    let mut line = String::new();
    let mut start: usize = 0;
    let mut i: usize = 0;
    let ghost s = notes@;
    assert(s.skip(0) =~= s);
    while i < n
        invariant
            start <= i <= n,
            n == s.len(),
            s == notes@,
            line@ == s.subrange(start as int, i as int),
            forall|k: int| start <= k < i ==> s[k] != '\n',
            out@.map_values(|l: String| l@) + lines_spec(s.skip(start as int)) == lines_spec(s),
        decreases n - i,
    {
        let c = notes.get_char(i);
        if c == '\n' {
            let ghost t = s.skip(start as int);
            proof {
                assert forall|k: int| 0 <= k < i - start implies t[k] != '\n' by {
                    assert(t[k] == s[start + k]);
                }
                lemma_first_nl(t, i - start);
                assert(t[i - start] == c);
                assert(t.take(i - start) =~= line@);
                assert(t.skip(i - start + 1) =~= s.skip(i + 1));
            }
            let m = line.as_str().unicode_len();
            let done = if m > 0 && line.as_str().get_char(m - 1) == '\r' {
                String::from_str(line.as_str().substring_char(0, m - 1))
            } else {
                line
            };
            assert(done@ == strip_cr(t.take(i - start)));
            let ghost before = out@.map_values(|l: String| l@);
            out.push(done);
            assert(out@.map_values(|l: String| l@) =~= before.push(strip_cr(t.take(i - start))));
            line = String::new();
            start = i + 1;
        } else {
            push_char(&mut line, c);
        }
        i = i + 1;
    }
    let ghost t = s.skip(start as int);
    proof {
        assert forall|k: int| 0 <= k < n - start implies t[k] != '\n' by {
            assert(t[k] == s[start + k]);
        }
        lemma_first_nl(t, n - start);
        assert(t =~= line@);
    }
    if start < n {
        let ghost before = out@.map_values(|l: String| l@);
        out.push(line);
        assert(out@.map_values(|l: String| l@) =~= before + seq![t]);
    } else {
        assert(t.len() == 0);
        assert(out@.map_values(|l: String| l@) =~= out@.map_values(|l: String| l@) + lines_spec(t));
    }
    out
}

/// Marks the old metadata line at the end of a task's notes.
pub open spec fn marker() -> Seq<char> {
    "[todo-meta]"@
}

/// The JSON of a metadata line: the line without surrounding white space
/// starts with `[todo-meta]`; what follows, trimmed.
pub fn meta_json(line: &str) -> (r: Option<&str>)
    ensures
        r is Some <==> has_prefix(trim_spec(line@), marker()),
        r matches Some(j) ==> j@ == trim_spec(trim_spec(line@).skip(marker().len() as int)),
{
    proof {
        reveal_strlit("[todo-meta]");
    }
    match strip_prefix(trim(line), "[todo-meta]") {
        Some(rest) => Some(trim(rest)),
        None => None,
    }
}

/// `lines` joined with line feeds.
pub open spec fn join_lines(ls: Seq<Seq<char>>) -> Seq<char>
    decreases ls.len(),
{
    if ls.len() == 0 {
        Seq::empty()
    } else if ls.len() == 1 {
        ls[0]
    } else {
        join_lines(ls.drop_last()) + seq!['\n'] + ls.last()
    }
}

/// Number of line feeds in `s`.
pub open spec fn line_feeds(s: Seq<char>) -> nat
    decreases s.len(),
{
    if s.len() == 0 {
        0
    } else {
        line_feeds(s.drop_last()) + if s.last() == '\n' { 1nat } else { 0nat }
    }
}

proof fn lemma_line_feeds_add(a: Seq<char>, b: Seq<char>)
    ensures
        line_feeds(a + b) == line_feeds(a) + line_feeds(b),
    decreases b.len(),
{
    if b.len() > 0 {
        lemma_line_feeds_add(a, b.drop_last());
        assert((a + b).drop_last() =~= a + b.drop_last());
        assert((a + b).last() == b.last());
    } else {
        assert(a + b =~= a);
    }
}

/// Joining lines that hold no line feed puts exactly one line feed between
/// each two of them: the text starts with the first line, ends with the
/// last, and is as long as the lines plus the separators.
pub proof fn law_join_lines(ls: Seq<Seq<char>>)
    requires
        ls.len() > 0,
        forall|i: int| 0 <= i < ls.len() ==> line_feeds(#[trigger] ls[i]) == 0,
    ensures
        line_feeds(join_lines(ls)) == ls.len() - 1,
        join_lines(ls).take(ls[0].len() as int) == ls[0],
        join_lines(ls).skip(join_lines(ls).len() - ls.last().len()) == ls.last(),
        join_lines(ls).len() >= ls[0].len() + ls.last().len() + ls.len() - 1
            || ls.len() == 1,
    decreases ls.len(),
{
    if ls.len() == 1 {
        assert(join_lines(ls) == ls[0]);
        assert(ls[0].take(ls[0].len() as int) =~= ls[0]);
        assert(ls[0].skip(0) =~= ls[0]);
    } else {
        let d = ls.drop_last();
        assert forall|i: int| 0 <= i < d.len() implies line_feeds(#[trigger] d[i]) == 0 by {
            assert(d[i] == ls[i]);
        }
        law_join_lines(d);
        let j = join_lines(d);
        let x = ls.last();
        assert(ls[ls.len() - 1] == x);
        assert(line_feeds(x) == 0);
        lemma_line_feeds_add(j, seq!['\n']);
        lemma_line_feeds_add(j + seq!['\n'], x);
        assert(line_feeds(seq!['\n']) == 1) by {
            let nl = seq!['\n'];
            assert(nl.drop_last() =~= Seq::<char>::empty());
            assert(line_feeds(Seq::<char>::empty()) == 0);
            assert(nl.last() == '\n');
        }
        assert(join_lines(ls) == j + seq!['\n'] + x);
        assert(d[0] == ls[0]);
        assert((j + seq!['\n'] + x).take(ls[0].len() as int) =~= j.take(ls[0].len() as int));
        assert((j + seq!['\n'] + x).skip(join_lines(ls).len() - x.len()) =~= x);
        if d.len() > 1 {
            assert(j.len() >= d[0].len() + d.last().len() + d.len() - 1);
        }
    }
}

/// The body lines: those that are not a readable metadata line.
pub open spec fn body_lines(ls: Seq<Seq<char>>, metas: Seq<Option<Meta>>) -> Seq<Seq<char>>
    decreases ls.len(),
{
    if ls.len() == 0 {
        Seq::empty()
    } else {
        let r = body_lines(ls.drop_last(), metas.drop_last());
        if metas.last() is None { r.push(ls.last()) } else { r }
    }
}

/// The last readable metadata.
pub open spec fn last_meta(metas: Seq<Option<Meta>>) -> Option<Meta>
    decreases metas.len(),
{
    if metas.len() == 0 {
        None
    } else if metas.last() is Some {
        metas.last()
    } else {
        last_meta(metas.drop_last())
    }
}

/// How many lines carry no metadata.
pub open spec fn plain_count(metas: Seq<Option<Meta>>) -> nat
    decreases metas.len(),
{
    if metas.len() == 0 {
        0
    } else {
        plain_count(metas.drop_last()) + if metas.last() is None { 1nat } else { 0nat }
    }
}

/// The body keeps every line without metadata, blank lines included, in
/// order and unchanged, and only those: line `i` without metadata is body
/// line number "lines without metadata before `i`". So notes without a
/// metadata line keep all their lines, and the metadata read is the last
/// line that had some.
#[verifier::rlimit(30)]
pub proof fn law_body_keeps_plain_lines(ls: Seq<Seq<char>>, metas: Seq<Option<Meta>>)
    requires
        ls.len() == metas.len(),
    ensures
        body_lines(ls, metas).len() == plain_count(metas),
        forall|i: int| 0 <= i < ls.len() && #[trigger] metas[i] is None
            ==> plain_count(metas.take(i)) < body_lines(ls, metas).len()
                && body_lines(ls, metas)[plain_count(metas.take(i)) as int] == ls[i],
        (forall|i: int| 0 <= i < metas.len() ==> #[trigger] metas[i] is None) ==> body_lines(ls, metas) == ls && last_meta(metas) is None,
    decreases ls.len(),
{
    if ls.len() > 0 {
        let d = ls.drop_last();
        let dm = metas.drop_last();
        law_body_keeps_plain_lines(d, dm);
        let n = ls.len() - 1;
        assert forall|i: int| 0 <= i < ls.len() && #[trigger] metas[i] is None
            implies plain_count(metas.take(i)) < body_lines(ls, metas).len()
                && body_lines(ls, metas)[plain_count(metas.take(i)) as int] == ls[i] by {
            if i < n {
                assert(dm[i] == metas[i]);
                assert(dm.take(i) =~= metas.take(i));
                assert(d[i] == ls[i]);
            } else {
                assert(metas.take(i) =~= dm);
                assert(metas.last() == metas[i]);
            }
        }
        if forall|i: int| 0 <= i < metas.len() ==> #[trigger] metas[i] is None {
            assert forall|i: int| 0 <= i < dm.len() implies #[trigger] dm[i] is None by {
                assert(dm[i] == metas[i]);
            }
            assert(metas.last() == metas[n]);
            assert(ls =~= d.push(ls.last()));
        }
    } else {
        assert(ls =~= body_lines(ls, metas));
    }
}

/// Splits notes into their body and the metadata line. `metas[i]` is the
/// metadata read from line `i`, `None` when the line is not a metadata
/// line or does not read; only a line that starts with the marker can
/// have one. The body is the other lines, joined, trimmed.
pub fn split_notes(lines: &Vec<String>, metas: &Vec<Option<Meta>>) -> (r: (String, Option<Meta>))
    requires
        lines@.len() == metas@.len(),
        forall|i: int| 0 <= i < metas@.len() && #[trigger] metas@[i] is Some
            ==> has_prefix(trim_spec(lines@[i]@), marker()),
    ensures
        r.0@ == trim_spec(join_lines(body_lines(lines@.map_values(|l: String| l@), metas@))),
        r.1 == last_meta(metas@),
{
    let ghost lv = lines@.map_values(|l: String| l@);
    let mut body = String::new();
    let mut count: usize = 0;
    let mut meta: Option<Meta> = None;
    let mut i: usize = 0;
    assert(lv.take(0) =~= Seq::<Seq<char>>::empty());
    assert(metas@.take(0) =~= Seq::<Option<Meta>>::empty());
    while i < lines.len()
        invariant
            i <= lines@.len(),
            lines@.len() == metas@.len(),
            lv == lines@.map_values(|l: String| l@),
            body@ == join_lines(body_lines(lv.take(i as int), metas@.take(i as int))),
            count == body_lines(lv.take(i as int), metas@.take(i as int)).len(),
            count <= i,
            meta == last_meta(metas@.take(i as int)),
        decreases lines@.len() - i,
    {
        assert(lv.take(i + 1).drop_last() =~= lv.take(i as int));
        assert(metas@.take(i + 1).drop_last() =~= metas@.take(i as int));
        assert(lv.take(i + 1).last() == lines@[i as int]@);
        match metas[i] {
            Some(m) => {
                meta = Some(m);
            },
            None => {
                let ghost prev = body_lines(lv.take(i as int), metas@.take(i as int));
                if count > 0 {
                    push_char(&mut body, '\n');
                }
                body.append(lines[i].as_str());
                assert(prev.push(lines@[i as int]@).drop_last() =~= prev);
                count = count + 1;
            },
        }
        i = i + 1;
    }
    assert(lv.take(lines@.len() as int) =~= lv);
    assert(metas@.take(lines@.len() as int) =~= metas@);
    let t = trim(body.as_str());
    (String::from_str(t), meta)
}

/// What an old task brings: `None` when it is deleted or its title is
/// blank, else its title without surrounding white space and its metadata,
/// the metadata file (`local`) winning over the notes' line (`inline`).
pub fn import_fields(deleted: bool, title: &str, local: Option<Meta>, inline: Option<Meta>) -> (r: Option<(String, Option<Meta>)>)
    ensures
        (deleted || trim_spec(title@).len() == 0) ==> r is None,
        !(deleted || trim_spec(title@).len() == 0) ==> (r matches Some((t, m))
            && t@ == trim_spec(title@)
            && m == (if local is Some { local } else { inline })),
{
    let t = trim(title);
    if deleted || t.unicode_len() == 0 {
        return None;
    }
    let meta = match local {
        Some(m) => Some(m),
        None => inline,
    };
    Some((String::from_str(t), meta))
}

/// The two-level axes from the old levels: high when at least `threshold`;
/// both low without metadata.
pub fn levels(meta: Option<Meta>, threshold: u8) -> (r: (bool, bool))
    ensures
        r == (match meta {
            Some(m) => (m.imp >= threshold, m.clau >= threshold),
            None => (false, false),
        }),
{
    match meta {
        Some(m) => (m.imp >= threshold, m.clau >= threshold),
        None => (false, false),
    }
}

/// When an imported task was done: its completion time when its status is
/// `completed`, or the current time when it has none; `None` otherwise.
pub fn done_at_of(status: Option<&str>, completed: Option<String>) -> (r: Option<String>)
    ensures
        (match status {
            Some(s) => s@ == "completed"@,
            None => false,
        }) ==> (r is Some && (completed matches Some(c) ==> r == Some(c))
            && (completed is None ==> is_rfc3339_utc_secs(r->0@))),
        !(match status {
            Some(s) => s@ == "completed"@,
            None => false,
        }) ==> r is None,
{
    let done = match status {
        Some(s) => str_eq(s, "completed"),
        None => false,
    };
    if done {
        match completed {
            Some(c) => Some(c),
            None => Some(crate::model::now_rfc3339()),
        }
    } else {
        None
    }
}

/// What `uuid::Uuid::new_v5(&Uuid::NAMESPACE_URL, name)` gives, as a string.
pub uninterp spec fn uuid_v5_url(name: Seq<char>) -> Seq<char>;

/// `uuid::Uuid::new_v5(&Uuid::NAMESPACE_URL, name.as_bytes()).to_string()`:
/// a name-based UUID, the same for the same name. The value (a SHA-1
/// digest) is only named here; its form is the documented hyphenated
/// lower-case one with version digit `5`.
#[verifier::external_body]
fn uuid_v5(name: &str) -> (r: String)
    ensures
        r@ == uuid_v5_url(name@),
        is_hyphenated_uuid(r@),
        r@[14] == '5',
{
    uuid::Uuid::new_v5(&uuid::Uuid::NAMESPACE_URL, name.as_bytes()).to_string()
}

/// The id an imported task gets: a UUIDv5 of `gtasks:<task id>`, so that
/// importing again makes no duplicates.
pub fn import_id(task_id: &str) -> (r: String)
    ensures
        r@ == uuid_v5_url("gtasks:"@ + task_id@),
        is_hyphenated_uuid(r@),
{
    let mut name = String::from_str("gtasks:");
    name.append(task_id);
    uuid_v5(name.as_str())
}

/// What to do with a stored access token.
#[derive(Debug, Clone, Copy, PartialEq, Eq, Structural)]
pub enum TokenStep {
    /// It is still good: use it.
    UseStored,
    /// It has run out: get a new one with the refresh token.
    Refresh,
    /// It has run out and there is no refresh token to renew it.
    NoRefreshToken,
}

/// A token is good when it has no expiry, or more than a minute is left
/// at `now` (seconds since 1970); otherwise it is refreshed, if it can be.
pub fn token_step(expires_at: Option<i64>, now: i64, has_refresh: bool) -> (r: TokenStep)
    ensures
        r == (if (match expires_at {
            Some(e) => now < e - 60,
            None => true,
        }) {
            TokenStep::UseStored
        } else if has_refresh {
            TokenStep::Refresh
        } else {
            TokenStep::NoRefreshToken
        }),
{
    let fresh = match expires_at {
        Some(e) => (now as i128) < (e as i128) - 60,
        None => true,
    };
    if fresh {
        TokenStep::UseStored
    } else if has_refresh {
        TokenStep::Refresh
    } else {
        TokenStep::NoRefreshToken
    }
}

/// The wants of `ws` with the axes of `q`, in order.
pub open spec fn with_axes(ws: Seq<WantView>, q: Quadrant) -> Seq<WantView>
    decreases ws.len(),
{
    if ws.len() == 0 {
        ws
    } else {
        let r = with_axes(ws.drop_last(), q);
        if ws.last().energy == q.energy && ws.last().clau == q.clau { r.push(ws.last()) } else { r }
    }
}

/// `ws` with the keys `keys`, one each.
pub open spec fn with_keys(ws: Seq<WantView>, keys: Seq<Seq<char>>) -> Seq<WantView> {
    Seq::new(ws.len(), |i: int| WantView { pos: keys[i], ..ws[i] })
}

/// One quadrant of an import: its wants in order with evenly spread keys.
pub open spec fn keyed_group(ws: Seq<WantView>, q: Quadrant) -> Seq<WantView> {
    let g = with_axes(ws, q);
    with_keys(g, n_between_keys(None, None, g.len()))
}

/// An import: quadrant by quadrant in screen order, each keyed in the
/// order the wants came in.
pub open spec fn keyed_import(ws: Seq<WantView>) -> Seq<WantView> {
    keyed_group(ws, crate::model::quadrant_at(0)) + keyed_group(ws, crate::model::quadrant_at(1))
        + keyed_group(ws, crate::model::quadrant_at(2)) + keyed_group(ws, crate::model::quadrant_at(3))
}

/// Importing keeps the old order: in each quadrant the imported wants keep
/// the order they came in, and their keys are well formed and strictly
/// increase along it.
pub proof fn law_import_keeps_order(ws: Seq<WantView>, q: Quadrant)
    ensures
        keyed_group(ws, q).len() == with_axes(ws, q).len(),
        forall|i: int| 0 <= i < keyed_group(ws, q).len()
            ==> #[trigger] keyed_group(ws, q)[i] == (WantView { pos: keyed_group(ws, q)[i].pos, ..with_axes(ws, q)[i] }),
        forall|i: int, j: int| 0 <= i < j < keyed_group(ws, q).len()
            ==> lex_lt(#[trigger] keyed_group(ws, q)[i].pos, #[trigger] keyed_group(ws, q)[j].pos),
        forall|i: int| 0 <= i < keyed_group(ws, q).len() ==> valid_key(#[trigger] keyed_group(ws, q)[i].pos),
{
    let g = with_axes(ws, q);
    let keys = n_between_keys(None, None, g.len());
    lemma_n_between_keys(None, None, g.len());
    let k = keyed_group(ws, q);
    assert forall|i: int, j: int| 0 <= i < j < k.len() implies lex_lt(#[trigger] k[i].pos, #[trigger] k[j].pos) by {
        assert(k[i].pos == keys[i] && k[j].pos == keys[j]);
    }
}

/// The wants of `ws` in quadrant `q`, keyed in order.
fn key_group(ws: &Vec<Want>, q: Quadrant) -> (r: Vec<Want>)
    ensures
        seq_views(r@) == keyed_group(seq_views(ws@), q),
{
    let mut g: Vec<Want> = Vec::new();
    let mut i: usize = 0;
    let ghost v = seq_views(ws@);
    assert(v.take(0) =~= Seq::<WantView>::empty());
    assert(seq_views(g@) =~= Seq::<WantView>::empty());
    while i < ws.len()
        invariant
            i <= ws@.len(),
            v == seq_views(ws@),
            seq_views(g@) == with_axes(v.take(i as int), q),
        decreases ws@.len() - i,
    {
        assert(v.take(i + 1).drop_last() =~= v.take(i as int));
        assert(v.take(i + 1).last() == ws@[i as int]@);
        if ws[i].energy == q.energy && ws[i].clau == q.clau {
            let ghost before = seq_views(g@);
            g.push(ws[i].clone());
            assert(seq_views(g@) =~= before.push(ws@[i as int]@));
        }
        i = i + 1;
    }
    assert(v.take(ws@.len() as int) =~= v);
    let keys = n_between(None, None, g.len());
    let ghost gv = seq_views(g@);
    let ghost kv = keys@.map_values(|s: String| s@);
    let mut out: Vec<Want> = Vec::new();
    let mut j: usize = 0;
    while j < g.len()
        invariant
            j <= g@.len(),
            g@.len() == keys@.len(),
            gv == seq_views(g@),
            kv == keys@.map_values(|s: String| s@),
            seq_views(out@) =~= with_keys(gv, kv).take(j as int),
        decreases g@.len() - j,
    {
        let mut w = g[j].clone();
        w.pos = keys[j].clone();
        let ghost before = seq_views(out@);
        out.push(w);
        assert(kv[j as int] == keys@[j as int]@);
        assert(seq_views(out@) =~= before.push(with_keys(gv, kv)[j as int]));
        j = j + 1;
    }
    assert(with_keys(gv, kv).take(g@.len() as int) =~= with_keys(gv, kv));
    out
}

/// Gives imported wants their keys: quadrant by quadrant in screen order,
/// each keyed in the order the wants came in.
pub fn key_import(ws: &Vec<Want>) -> (r: Vec<Want>)
    ensures
        seq_views(r@) == keyed_import(seq_views(ws@)),
{
    let mut all: Vec<Want> = Vec::new();
    let mut qi: usize = 0;
    let ghost v = seq_views(ws@);
    assert(seq_views(all@) =~= Seq::<WantView>::empty());
    while qi < 4
        invariant
            qi <= 4,
            v == seq_views(ws@),
            qi == 0 ==> seq_views(all@) == Seq::<WantView>::empty(),
            qi == 1 ==> seq_views(all@) == keyed_group(v, crate::model::quadrant_at(0)),
            qi == 2 ==> seq_views(all@) == keyed_group(v, crate::model::quadrant_at(0)) + keyed_group(v, crate::model::quadrant_at(1)),
            qi == 3 ==> seq_views(all@) == keyed_group(v, crate::model::quadrant_at(0)) + keyed_group(v, crate::model::quadrant_at(1))
                + keyed_group(v, crate::model::quadrant_at(2)),
            qi == 4 ==> seq_views(all@) == keyed_import(v),
        decreases 4 - qi,
    {
        let mut g = key_group(ws, Quadrant::at(qi));
        let ghost before = seq_views(all@);
        let ghost gv = seq_views(g@);
        all.append(&mut g);
        assert(seq_views(all@) =~= before + gv);
        qi = qi + 1;
    }
    all
}

/// Where an imported task goes: its list, then its parent's position (its
/// own for a task without a parent), then its own position (empty for a
/// task without a parent), so that subtasks follow their parent.
#[derive(Debug)]
pub struct TaskKey {
    pub list: usize,
    pub first: String,
    pub second: String,
}

impl View for TaskKey {
    type V = (int, Seq<char>, Seq<char>);

    open spec fn view(&self) -> (int, Seq<char>, Seq<char>) {
        (self.list as int, self.first@, self.second@)
    }
}

/// The order of task keys: by list, then by the two positions as strings.
pub open spec fn key_lt(a: (int, Seq<char>, Seq<char>), b: (int, Seq<char>, Seq<char>)) -> bool {
    ||| a.0 < b.0
    ||| a.0 == b.0 && lex_lt(a.1, b.1)
    ||| a.0 == b.0 && a.1 == b.1 && lex_lt(a.2, b.2)
}

/// Task `x` comes before task `y`: a smaller key, or the same key and
/// fetched earlier.
pub open spec fn task_before(keys: Seq<TaskKey>, x: int, y: int) -> bool {
    key_lt(keys[x]@, keys[y]@) || (keys[x]@ == keys[y]@ && x < y)
}

proof fn lemma_key_lt_trans(a: (int, Seq<char>, Seq<char>), b: (int, Seq<char>, Seq<char>), c: (int, Seq<char>, Seq<char>))
    requires
        key_lt(a, b),
        key_lt(b, c),
    ensures
        key_lt(a, c),
{
    if a.0 == b.0 && b.0 == c.0 {
        if lex_lt(a.1, b.1) && lex_lt(b.1, c.1) {
            lemma_lex_lt_trans(a.1, b.1, c.1);
        } else if lex_lt(a.2, b.2) && lex_lt(b.2, c.2) {
            lemma_lex_lt_trans(a.2, b.2, c.2);
        }
    }
}

proof fn lemma_key_lt_total(a: (int, Seq<char>, Seq<char>), b: (int, Seq<char>, Seq<char>))
    ensures
        a == b || key_lt(a, b) || key_lt(b, a),
        !(key_lt(a, b) && key_lt(b, a)),
        !key_lt(a, a),
{
    lemma_lex_lt_total(a.1, b.1);
    lemma_lex_lt_total(a.2, b.2);
    lemma_lex_lt_asym(a.1, b.1);
    lemma_lex_lt_asym(a.2, b.2);
    lemma_lex_lt_irrefl(a.1);
    lemma_lex_lt_irrefl(a.2);
}

/// The key of a task of list `list` at `position`; `parent_position` is
/// the position of its parent when it has one (empty when the parent is
/// not found).
pub fn task_key(list: usize, position: &str, parent_position: Option<&str>) -> (r: TaskKey)
    ensures
        r@ == (match parent_position {
            Some(p) => (list as int, p@, position@),
            None => (list as int, position@, Seq::<char>::empty()),
        }),
{
    match parent_position {
        Some(p) => TaskKey { list, first: String::from_str(p), second: String::from_str(position) },
        None => TaskKey { list, first: String::from_str(position), second: String::new() },
    }
}

fn key_less(a: &TaskKey, b: &TaskKey) -> (r: bool)
    ensures
        r == key_lt(a@, b@),
{
    if a.list != b.list {
        return a.list < b.list;
    }
    if str_lt(a.first.as_str(), b.first.as_str()) {
        return true;
    }
    str_eq(a.first.as_str(), b.first.as_str()) && str_lt(a.second.as_str(), b.second.as_str())
}

/// The order in which to import tasks: the indices of `keys`, sorted by
/// key, tasks with the same key in the order they were fetched.
pub fn task_order(keys: &Vec<TaskKey>) -> (r: Vec<usize>)
    ensures
        r@.len() == keys@.len(),
        forall|a: int| 0 <= a < r@.len() ==> #[trigger] r@[a] < keys@.len(),
        forall|x: usize| x < keys@.len() ==> #[trigger] r@.contains(x),
        forall|a: int, b: int| 0 <= a < b < r@.len() ==> task_before(keys@, #[trigger] r@[a] as int, #[trigger] r@[b] as int),
{
    let mut r: Vec<usize> = Vec::new();
    let mut i: usize = 0;
    while i < keys.len()
        invariant
            i <= keys@.len(),
            r@.len() == i,
            forall|a: int| 0 <= a < r@.len() ==> #[trigger] r@[a] < i,
            forall|x: usize| x < i ==> #[trigger] r@.contains(x),
            forall|a: int, b: int| 0 <= a < b < r@.len() ==> task_before(keys@, #[trigger] r@[a] as int, #[trigger] r@[b] as int),
        decreases keys@.len() - i,
    {
        let mut p: usize = 0;
        while p < r.len() && !key_less(&keys[i], &keys[r[p]])
            invariant
                p <= r@.len(),
                i < keys@.len(),
                forall|a: int| 0 <= a < r@.len() ==> #[trigger] r@[a] < i,
                forall|q: int| 0 <= q < p ==> !key_lt(keys@[i as int]@, #[trigger] keys@[r@[q] as int]@),
            decreases r@.len() - p,
        {
            p = p + 1;
        }
        let ghost old_r = r@;
        let ghost ki = keys@[i as int]@;
        proof {
            if p < old_r.len() {
                assert(key_lt(ki, keys@[old_r[p as int] as int]@));
            }
        }
        r.insert(p, i);
        assert(r@ == old_r.insert(p as int, i));
        assert forall|a: int, b: int| 0 <= a < b < r@.len() implies task_before(keys@, #[trigger] r@[a] as int, #[trigger] r@[b] as int) by {
            if a < p && b < p {
                assert(r@[a] == old_r[a] && r@[b] == old_r[b]);
            } else if a > p && b > p {
                assert(r@[a] == old_r[a - 1] && r@[b] == old_r[b - 1]);
            } else if a < p && b > p {
                assert(r@[a] == old_r[a] && r@[b] == old_r[b - 1]);
            } else if a == p {
                let y = old_r[b - 1];
                assert(r@[b] == y);
                let kp = keys@[old_r[p as int] as int]@;
                if b - 1 > p {
                    assert(task_before(keys@, old_r[p as int] as int, y as int));
                    if key_lt(kp, keys@[y as int]@) {
                        lemma_key_lt_trans(ki, kp, keys@[y as int]@);
                    }
                }
            } else {
                let x = old_r[a];
                assert(r@[a] == x && r@[b] == i);
                lemma_key_lt_total(keys@[x as int]@, ki);
            }
        }
        assert forall|x: usize| x < i + 1 implies #[trigger] r@.contains(x) by {
            if x == i {
                assert(r@[p as int] == x);
            } else {
                assert(old_r.contains(x));
                let a0 = choose|a: int| 0 <= a < old_r.len() && old_r[a] == x;
                if a0 < p {
                    assert(r@[a0] == x);
                } else {
                    assert(r@[a0 + 1] == x);
                }
            }
        }
        i = i + 1;
    }
    r
}

} // verus!
