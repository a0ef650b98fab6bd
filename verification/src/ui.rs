//! What the screen shows, short of drawing it: cut and padded titles,
//! row numbers, the status line and where a dialog goes.

use vstd::prelude::*;
use crate::app::Screen;
use crate::model::{views, Want, WantView};
use crate::text::push_char;
use unicode_width::{UnicodeWidthChar, UnicodeWidthStr};

verus! {

/// Columns that `unicode_width::UnicodeWidthChar::width` gives a character
/// (`None` for control characters).
pub uninterp spec fn char_columns(c: char) -> Option<usize>;

/// Columns that `unicode_width::UnicodeWidthStr::width` gives a string.
pub uninterp spec fn str_columns(s: Seq<char>) -> usize;

/// `UnicodeWidthChar::width(c)`: the columns a character takes on screen,
/// `None` for a control character. The value comes from the crate's
/// Unicode tables and is only named here.
#[verifier::external_body]
fn char_width(c: char) -> (r: Option<usize>)
    ensures
        r == char_columns(c),
{
    c.width()
}

/// `UnicodeWidthStr::width(s)`: the columns a string takes on screen. The
/// crate counts some character sequences (emoji joins and the like) as a
/// whole, so this is not stated as a sum over the characters; it is only
/// named here.
#[verifier::external_body]
pub(crate) fn str_width(s: &str) -> (r: usize)
    ensures
        r == str_columns(s@),
{
    s.width()
}

/// Columns of a character, control characters counting as none.
pub open spec fn cols(c: char) -> int {
    match char_columns(c) {
        Some(w) => w as int,
        None => 0,
    }
}

/// The characters of `s` kept when it is cut to fit `max` columns with
/// room for `…`, `w` columns being taken already.
pub open spec fn kept(s: Seq<char>, max: int, w: int) -> Seq<char>
    decreases s.len(),
{
    if s.len() == 0 || w + cols(s[0]) + 1 > max {
        Seq::empty()
    } else {
        seq![s[0]] + kept(s.drop_first(), max, w + cols(s[0]))
    }
}

/// `s` as it fits in `max` columns: whole when it fits, else cut at a
/// character and ended with `…`.
pub open spec fn truncate_spec(s: Seq<char>, max: int) -> Seq<char> {
    if str_columns(s) <= max {
        s
    } else {
        kept(s, max, 0).push('…')
    }
}

/// `s` cut to fit `max` columns (see `truncate_spec`).
pub fn truncate(s: &str, max: usize) -> (r: String)
    ensures
        r@ == truncate_spec(s@, max as int),
{
    if str_width(s) <= max {
        return String::from_str(s);
    }
    let n = s.unicode_len();
    let mut out = String::new();
    let mut w: usize = 0;
    let mut i: usize = 0;
    let mut stop = false;
    assert(s@.skip(0) =~= s@);
    while i < n && !stop
        invariant
            i <= n,
            n == s@.len(),
            w <= max,
            out@ + kept(s@.skip(i as int), max as int, w as int) == kept(s@, max as int, 0),
            stop ==> kept(s@.skip(i as int), max as int, w as int) == Seq::<char>::empty(),
        decreases n - i, if stop { 0int } else { 1int },
    {
        let c = s.get_char(i);
        let cw = match char_width(c) {
            Some(x) => x,
            None => 0,
        };
        let ghost t = s@.skip(i as int);
        assert(t[0] == c);
        assert(cols(c) == cw);
        if cw >= max - w {
            assert(kept(t, max as int, w as int) == Seq::<char>::empty());
            stop = true;
        } else {
            assert(t.drop_first() =~= s@.skip(i + 1));
            assert(kept(t, max as int, w as int) == seq![c] + kept(s@.skip(i + 1), max as int, w + cw));
            push_char(&mut out, c);
            w = w + cw;
            i = i + 1;
        }
    }
    proof {
        if i == n {
            assert(s@.skip(i as int) =~= Seq::<char>::empty());
        }
    }
    assert(out@ =~= kept(s@, max as int, 0));
    push_char(&mut out, '…');
    out
}

/// `s` padded with spaces to `width` columns (left as it is when wider).
pub fn pad(s: &str, width: usize) -> (r: String)
    ensures
        r@ == s@ + Seq::new(
            (if width >= str_columns(s@) { width - str_columns(s@) } else { 0 }) as nat,
            |i: int| ' ',
        ),
{
    let w = str_width(s);
    let k: usize = if width >= w { width - w } else { 0 };
    let mut r = String::from_str(s);
    let mut i: usize = 0;
    while i < k
        invariant
            i <= k,
            r@ =~= s@ + Seq::new(i as nat, |j: int| ' '),
        decreases k - i,
    {
        push_char(&mut r, ' ');
        i = i + 1;
    }
    r
}

/// The number shown in front of row `i` of a quadrant: `1` to `9` and `0`
/// for the first ten rows (the keys that select them), blank after.
pub fn row_number(i: usize) -> (r: String)
    ensures
        i < 10 ==> r@ == seq![' ', crate::text::digit_char(((i + 1) % 10) as int), ' '],
        i >= 10 ==> r@ == seq![' ', ' ', ' '],
{
    let mut r = String::new();
    push_char(&mut r, ' ');
    if i < 10 {
        push_char(&mut r, crate::text::digit(((i + 1) % 10) as u32));
    } else {
        push_char(&mut r, ' ');
    }
    push_char(&mut r, ' ');
    r
}

/// A title as a quadrant row shows it in `inner` columns: cut to leave
/// four columns, then marked with ` …` when the want has notes and there
/// is room.
pub fn row_title(title: &str, has_notes: bool, inner: usize) -> (r: String)
    ensures
        ({
            let t = truncate_spec(title@, if inner >= 4 { inner - 4 } else { 0 });
            let room = if inner >= 3 { inner - 3 } else { 0 };
            r@ == if has_notes && str_columns(t) + 2 <= room { t + seq![' ', '…'] } else { t }
        }),
{
    let mut t = truncate(title, if inner >= 4 { inner - 4 } else { 0 });
    let room = if inner >= 3 { inner - 3 } else { 0 };
    if has_notes && str_width(t.as_str()) <= room && room - str_width(t.as_str()) >= 2 {
        push_char(&mut t, ' ');
        push_char(&mut t, '…');
    }
    t
}

/// The connection badge of the status line.
pub fn connection_label(has_remote: bool, online: Option<bool>) -> (r: &'static str)
    ensures
        r@ == (if !has_remote {
            " ローカルのみ "@
        } else {
            match online {
                Some(true) => " 同期 "@,
                Some(false) => " オフライン "@,
                None => " 接続中 "@,
            }
        }),
{
    if !has_remote {
        " ローカルのみ "
    } else {
        match online {
            Some(true) => " 同期 ",
            Some(false) => " オフライン ",
            None => " 接続中 ",
        }
    }
}

/// The key help of the status line on each screen.
pub fn status_help(screen: Screen) -> (r: &'static str)
    ensures
        r@ == (match screen {
            Screen::Wants => "n:追加 e:編集 m:メモ t:やった d:削除 hjkl:移動 J/K:並べ替え H/L:clau E:エネルギー a:やったこと q:終了"@,
            Screen::Done => "j/k:移動 m:メモ u:やったを取り消す d:削除 a/Esc:戻る q:終了"@,
        }),
{
    match screen {
        Screen::Wants => "n:追加 e:編集 m:メモ t:やった d:削除 hjkl:移動 J/K:並べ替え H/L:clau E:エネルギー a:やったこと q:終了",
        Screen::Done => "j/k:移動 m:メモ u:やったを取り消す d:削除 a/Esc:戻る q:終了",
    }
}

/// The widest title of `ws`, in columns (0 when there is none).
pub open spec fn widest_title(ws: Seq<WantView>) -> nat
    decreases ws.len(),
{
    if ws.len() == 0 {
        0
    } else {
        let m = widest_title(ws.drop_last());
        let w = str_columns(ws.last().title) as nat;
        if w > m { w } else { m }
    }
}

/// The width of the title column on the done screen: the widest title,
/// at most 40 columns.
pub fn done_title_width(ws: &Vec<&Want>) -> (r: usize)
    ensures
        r == (if widest_title(views(ws@)) < 40 { widest_title(views(ws@)) } else { 40 }),
{
    let ghost v = views(ws@);
    let mut m: usize = 0;
    let mut i: usize = 0;
    assert(v.take(0) =~= Seq::<WantView>::empty());
    while i < ws.len()
        invariant
            i <= ws@.len(),
            v == views(ws@),
            m == widest_title(v.take(i as int)),
        decreases ws@.len() - i,
    {
        assert(v.take(i + 1).drop_last() =~= v.take(i as int));
        assert(v.take(i + 1).last() == ws@[i as int]@);
        let w = str_width(ws[i].title.as_str());
        if w > m {
            m = w;
        }
        i = i + 1;
    }
    assert(v.take(ws@.len() as int) =~= v);
    if m < 40 { m } else { 40 }
}

/// A rectangle on screen.
#[derive(Debug, Clone, Copy, PartialEq, Eq, Structural)]
pub struct Area {
    pub x: u16,
    pub y: u16,
    pub width: u16,
    pub height: u16,
}

/// A dialog of `width` by `height` centred in `area`, shrunk to leave a
/// border of one cell.
pub fn popup_area(area: Area, width: u16, height: u16) -> (r: Area)
    requires
        area.x + area.width <= u16::MAX,
        area.y + area.height <= u16::MAX,
    ensures
        ({
            let w = if width as int <= area.width - 2 { width as int } else if area.width >= 2 { area.width - 2 } else { 0 };
            let h = if height as int <= area.height - 2 { height as int } else if area.height >= 2 { area.height - 2 } else { 0 };
            &&& r.width == w
            &&& r.height == h
            &&& r.x == area.x + (area.width - w) / 2
            &&& r.y == area.y + (area.height - h) / 2
        }),
{
    let aw: u16 = if area.width >= 2 { area.width - 2 } else { 0 };
    let ah: u16 = if area.height >= 2 { area.height - 2 } else { 0 };
    let w = if width <= aw { width } else { aw };
    let h = if height <= ah { height } else { ah };
    Area { x: area.x + (area.width - w) / 2, y: area.y + (area.height - h) / 2, width: w, height: h }
}

} // verus!
