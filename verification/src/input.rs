//! Keys as the client sees them, and the one-line text input of the
//! add and edit dialogs (the notes field takes line breaks too).

use vstd::prelude::*;
use crate::text::push_char;

verus! {

/// The keys the client reacts to.
#[derive(Debug, Clone, Copy, PartialEq, Eq, Structural)]
pub enum KeyCode {
    Char(char),
    Enter,
    Esc,
    Tab,
    BackTab,
    Backspace,
    Delete,
    Left,
    Right,
    Up,
    Down,
    Home,
    End,
    /// Any other key.
    Other,
}

/// A key press, with whether Control was held.
#[derive(Debug, Clone, Copy, PartialEq, Eq, Structural)]
pub struct Key {
    pub code: KeyCode,
    pub ctrl: bool,
}

/// A line of text being typed, with the cursor counted in characters.
#[derive(Debug)]
pub struct TextInput {
    pub text: String,
    /// Cursor position, in characters.
    pub cursor: usize,
}

impl Default for TextInput {
    fn default() -> (r: Self)
        ensures
            r.text@ == Seq::<char>::empty(),
            r.cursor == 0,
    {
        TextInput { text: String::new(), cursor: 0 }
    }
}

impl Clone for TextInput {
    fn clone(&self) -> (r: Self)
        ensures
            r == *self,
    {
        TextInput { text: self.text.clone(), cursor: self.cursor }
    }
}

/// Where the cursor is in `t`: past the end counts as the end.
pub open spec fn clamp_cursor(t: Seq<char>, c: nat) -> int {
    if c <= t.len() { c as int } else { t.len() as int }
}

/// Whether `handle` takes the key.
pub open spec fn handles(t: Seq<char>, c: nat, k: Key) -> bool {
    match k.code {
        KeyCode::Char(ch) => !k.ctrl || ch == 'a' || ch == 'e' || ch == 'u',
        KeyCode::Backspace => c > 0,
        KeyCode::Delete => c < t.len(),
        KeyCode::Left | KeyCode::Right | KeyCode::Home | KeyCode::End => true,
        _ => false,
    }
}

/// The text after `handle`.
pub open spec fn handled_text(t: Seq<char>, c: nat, k: Key) -> Seq<char> {
    match k.code {
        KeyCode::Char(ch) => {
            if k.ctrl && ch == 'u' {
                t.skip(clamp_cursor(t, c))
            } else if !k.ctrl {
                t.insert(clamp_cursor(t, c), ch)
            } else {
                t
            }
        },
        KeyCode::Backspace => if c > 0 { t.remove(c - 1) } else { t },
        KeyCode::Delete => if c < t.len() { t.remove(c as int) } else { t },
        _ => t,
    }
}

/// The cursor after `handle`.
pub open spec fn handled_cursor(t: Seq<char>, c: nat, k: Key) -> int {
    match k.code {
        KeyCode::Char(ch) => {
            if k.ctrl && (ch == 'a' || ch == 'u') {
                0
            } else if k.ctrl && ch == 'e' {
                t.len() as int
            } else if !k.ctrl {
                c + 1int
            } else {
                c as int
            }
        },
        KeyCode::Backspace => if c > 0 { c - 1 } else { c as int },
        KeyCode::Left => if c > 0 { c - 1 } else { 0 },
        KeyCode::Right => if c + 1 <= t.len() { c + 1int } else { t.len() as int },
        KeyCode::Home => 0,
        KeyCode::End => t.len() as int,
        _ => c as int,
    }
}

/// What `handle` needs: Backspace deletes a character that is there, and
/// typing with the cursor past the end of the text can still count one up.
pub open spec fn handle_ok(t: Seq<char>, c: nat, k: Key) -> bool {
    &&& (k.code is Backspace && c > 0 ==> c <= t.len())
    &&& (k.code matches KeyCode::Char(_) && !k.ctrl ==> c <= t.len() || c < usize::MAX)
}

/// Every key can be handled with the cursor inside the text, and it
/// leaves the cursor inside the text.
pub proof fn law_handle_keeps_cursor_in_text(t: Seq<char>, c: nat, k: Key)
    requires
        c <= t.len(),
    ensures
        handle_ok(t, c, k),
        0 <= handled_cursor(t, c, k) <= handled_text(t, c, k).len(),
{
}

/// Left and Right move the cursor one character and leave the text alone:
/// Right then Left comes back to where it was, and so does Left then
/// Right; at the ends they stay put.
pub proof fn law_left_right_step(t: Seq<char>, c: nat)
    requires
        c <= t.len(),
    ensures
        ({
            let left = Key { code: KeyCode::Left, ctrl: false };
            let right = Key { code: KeyCode::Right, ctrl: false };
            &&& handled_text(t, c, left) == t
            &&& handled_text(t, c, right) == t
            &&& c < t.len() ==> handled_cursor(t, c, right) == c + 1
                && handled_cursor(t, handled_cursor(t, c, right) as nat, left) == c
            &&& c > 0 ==> handled_cursor(t, c, left) == c - 1
                && handled_cursor(t, handled_cursor(t, c, left) as nat, right) == c
            &&& c == t.len() ==> handled_cursor(t, c, right) == c
            &&& c == 0 ==> handled_cursor(t, c, left) == 0
        }),
{
}

/// Home and Ctrl-A go to the start, End and Ctrl-E to the end, and none of
/// them changes the text.
pub proof fn law_home_end(t: Seq<char>, c: nat)
    ensures
        ({
            let home = Key { code: KeyCode::Home, ctrl: false };
            let end = Key { code: KeyCode::End, ctrl: false };
            let start = Key { code: KeyCode::Char('a'), ctrl: true };
            let finish = Key { code: KeyCode::Char('e'), ctrl: true };
            &&& handled_cursor(t, c, home) == 0 && handled_text(t, c, home) == t
            &&& handled_cursor(t, c, start) == 0 && handled_text(t, c, start) == t
            &&& handled_cursor(t, c, end) == t.len() && handled_text(t, c, end) == t
            &&& handled_cursor(t, c, finish) == t.len() && handled_text(t, c, finish) == t
        }),
{
}

/// Delete takes out the character under the cursor and Ctrl-U everything
/// before it; the rest of the text stays in order.
pub proof fn law_delete_and_cut(t: Seq<char>, c: nat)
    requires
        c <= t.len(),
    ensures
        ({
            let del = Key { code: KeyCode::Delete, ctrl: false };
            let cut = Key { code: KeyCode::Char('u'), ctrl: true };
            &&& c < t.len() ==> handled_text(t, c, del) == t.take(c as int) + t.skip(c + 1int)
                && handled_cursor(t, c, del) == c
            &&& handled_text(t, c, cut) == t.skip(c as int) && handled_cursor(t, c, cut) == 0
        }),
{
    let del = Key { code: KeyCode::Delete, ctrl: false };
    if c < t.len() {
        assert(handled_text(t, c, del) =~= t.take(c as int) + t.skip(c + 1int));
    }
}

/// Typing a character and then Backspace leaves the text and the cursor
/// as they were.
pub proof fn law_type_then_backspace(t: Seq<char>, c: nat, ch: char)
    requires
        c <= t.len(),
    ensures
        ({
            let typed = Key { code: KeyCode::Char(ch), ctrl: false };
            let back = Key { code: KeyCode::Backspace, ctrl: false };
            let t1 = handled_text(t, c, typed);
            let c1 = handled_cursor(t, c, typed) as nat;
            &&& handled_text(t1, c1, back) == t
            &&& handled_cursor(t1, c1, back) == c
        }),
{
    let t1 = t.insert(c as int, ch);
    assert(t1.remove(c as int) =~= t);
}

/// Backspace deletes what Left then Delete deletes.
pub proof fn law_backspace_is_left_delete(t: Seq<char>, c: nat)
    requires
        0 < c <= t.len(),
    ensures
        ({
            let left = Key { code: KeyCode::Left, ctrl: false };
            let del = Key { code: KeyCode::Delete, ctrl: false };
            let back = Key { code: KeyCode::Backspace, ctrl: false };
            let c1 = handled_cursor(t, c, left) as nat;
            &&& handled_text(handled_text(t, c, left), c1, del) == handled_text(t, c, back)
            &&& handled_cursor(handled_text(t, c, left), c1, del) == handled_cursor(t, c, back)
        }),
{
}

/// `t` with the characters `from..to` taken out (`from <= to <= len`).
fn cut(t: &str, from: usize, to: usize) -> (r: String)
    requires
        from <= to <= t@.len(),
    ensures
        r@ == t@.subrange(0, from as int) + t@.subrange(to as int, t@.len() as int),
{
    let n = t.unicode_len();
    let mut r = String::from_str(t.substring_char(0, from));
    r.append(t.substring_char(to, n));
    r
}

impl TextInput {
    /// An input holding `text`, with the cursor at its end.
    pub fn new(text: &str) -> (r: Self)
        ensures
            r.text@ == text@,
            r.cursor == text@.len(),
    {
        TextInput { text: String::from_str(text), cursor: text.unicode_len() }
    }

    fn char_count(&self) -> (n: usize)
        ensures
            n == self.text@.len(),
    {
        self.text.as_str().unicode_len()
    }

    /// The text before the cursor.
    pub fn before_cursor(&self) -> (r: &str)
        ensures
            r@ == self.text@.take(clamp_cursor(self.text@, self.cursor as nat)),
    {
        let n = self.char_count();
        let m = if self.cursor <= n { self.cursor } else { n };
        self.text.as_str().substring_char(0, m)
    }

    /// Types `c` at the cursor.
    pub fn insert(&mut self, c: char)
        requires
            old(self).cursor <= old(self).text@.len() || old(self).cursor < usize::MAX,
        ensures
            final(self).text@ == old(self).text@.insert(clamp_cursor(old(self).text@, old(self).cursor as nat), c),
            final(self).cursor == old(self).cursor + 1,
    {
        let n = self.char_count();
        let m = if self.cursor <= n { self.cursor } else { n };
        let mut r = String::from_str(self.text.as_str().substring_char(0, m));
        push_char(&mut r, c);
        r.append(self.text.as_str().substring_char(m, n));
        assert(r@ =~= self.text@.insert(m as int, c));
        // the longer text still has a length that a `usize` holds, so the
        // cursor inside the old text is below the largest `usize`
        let total = r.as_str().unicode_len();
        assert(total == n + 1);
        self.text = r;
        self.cursor = self.cursor + 1;
    }

    /// Applies an editing key; `true` when the key was one.
    pub fn handle(&mut self, key: Key) -> (r: bool)
        requires
            handle_ok(old(self).text@, old(self).cursor as nat, key),
        ensures
            r == handles(old(self).text@, old(self).cursor as nat, key),
            final(self).text@ == handled_text(old(self).text@, old(self).cursor as nat, key),
            final(self).cursor == handled_cursor(old(self).text@, old(self).cursor as nat, key),
            old(self).cursor <= old(self).text@.len() ==> final(self).cursor <= final(self).text@.len(),
    {
        proof {
            if old(self).cursor <= old(self).text@.len() {
                law_handle_keeps_cursor_in_text(old(self).text@, old(self).cursor as nat, key);
            }
        }
        let ctrl = key.ctrl;
        let n = self.char_count();
        match key.code {
            KeyCode::Char('a') if ctrl => self.cursor = 0,
            KeyCode::Char('e') if ctrl => self.cursor = n,
            KeyCode::Char('u') if ctrl => {
                let m = if self.cursor <= n { self.cursor } else { n };
                let r = cut(self.text.as_str(), 0, m);
                assert(r@ =~= self.text@.skip(m as int));
                self.text = r;
                self.cursor = 0;
            },
            KeyCode::Char(c) if !ctrl => self.insert(c),
            KeyCode::Backspace if self.cursor > 0 => {
                self.cursor = self.cursor - 1;
                let r = cut(self.text.as_str(), self.cursor, self.cursor + 1);
                self.text = r;
            },
            KeyCode::Delete if self.cursor < n => {
                let r = cut(self.text.as_str(), self.cursor, self.cursor + 1);
                self.text = r;
            },
            KeyCode::Left => self.cursor = if self.cursor > 0 { self.cursor - 1 } else { 0 },
            KeyCode::Right => self.cursor = if self.cursor < n { self.cursor + 1 } else { n },
            KeyCode::Home => self.cursor = 0,
            KeyCode::End => self.cursor = n,
            _ => return false,
        }
        true
    }
}

} // verus!
