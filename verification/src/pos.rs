//! Sort keys inside a quadrant (fractional indexing).
//!
//! A key is a string of base-62 digits (`0-9A-Za-z`) read as the fraction
//! `0.d1d2d3...`; plain string order is the order of the keys. A key never
//! ends in `0`, which would leave no room in front of it.

use vstd::prelude::*;
use crate::text::{chars_of, digit, push_char, val, all_b62, digit_char, digit_value, is_b62, lemma_digit_char, lemma_digit_order, lemma_lex_lt_prefix, lemma_lex_lt_trans, lex_lt};

verus! {

/// A well-formed key: non-empty, base-62 digits only, not ending in `0`.
pub open spec fn valid_key(s: Seq<char>) -> bool {
    &&& s.len() > 0
    &&& all_b62(s)
    &&& s.last() != '0'
}

/// First digit of `a`, read as `0` when `a` is empty.
pub open spec fn head(a: Seq<char>) -> char {
    if a.len() > 0 { a[0] } else { '0' }
}

/// `a` without its first digit (empty stays empty).
pub open spec fn rest(a: Seq<char>) -> Seq<char> {
    if a.len() > 0 { a.drop_first() } else { a }
}

pub open spec fn opt_len(b: Option<Seq<char>>) -> nat {
    match b {
        Some(s) => s.len(),
        None => 0,
    }
}

/// The key half-way between `a` (the empty key stands for 0) and `b`
/// (`None` stands for 1).
///
/// Digits that `a` (padded with `0`) shares with `b` are kept. Then, if the
/// next digits leave a gap, the digit in the middle of the gap (rounded up)
/// ends the key; if they are adjacent and `b` goes on, `b`'s digit ends it;
/// otherwise `a`'s digit is kept and the rest is the midpoint between the
/// rest of `a` and 1.
pub open spec fn mid_key(a: Seq<char>, b: Option<Seq<char>>) -> Seq<char>
    decreases a.len() + opt_len(b),
{
    let da = digit_value(head(a));
    let db = match b {
        Some(bs) => if bs.len() > 0 { digit_value(bs[0]) } else { 0 },
        None => 62,
    };
    if b is Some && b->0.len() == 0 {
        Seq::empty()
    } else if b is Some && head(a) == b->0[0] {
        seq![b->0[0]] + mid_key(rest(a), Some(b->0.drop_first()))
    } else if db > da + 1 {
        seq![digit_char((da + db + 1) / 2)]
    } else if b is Some && b->0.len() > 1 {
        seq![b->0[0]]
    } else if b is Some || a.len() > 0 {
        seq![head(a)] + mid_key(rest(a), None)
    } else {
        Seq::empty()
    }
}

/// What `mid_key` needs: `a` is base-62, and `b`, when given, is a
/// well-formed key above `a`.
pub open spec fn mid_ok(a: Seq<char>, b: Option<Seq<char>>) -> bool {
    &&& all_b62(a)
    &&& match b {
        Some(bs) => valid_key(bs) && lex_lt(a, bs),
        None => true,
    }
}

/// The key right after `a`: the first digit that is not `z` goes up by one
/// and the digits after it are dropped; a key of `z`s only gets a `1`.
pub open spec fn after_key(a: Seq<char>) -> Seq<char>
    decreases a.len(),
{
    if a.len() == 0 {
        seq!['1']
    } else if a[0] == 'z' {
        seq!['z'] + after_key(a.drop_first())
    } else {
        seq![digit_char(digit_value(a[0]) + 1)]
    }
}

/// What `after_key` reads of `a`: its first digit that is not `z`, if any,
/// is a base-62 digit.
pub open spec fn after_ok(a: Seq<char>) -> bool
    decreases a.len(),
{
    if a.len() == 0 {
        true
    } else if a[0] == 'z' {
        after_ok(a.drop_first())
    } else {
        is_b62(a[0])
    }
}

pub open spec fn or_empty(a: Option<Seq<char>>) -> Seq<char> {
    match a {
        Some(s) => s,
        None => Seq::empty(),
    }
}

/// The key that `between` returns.
pub open spec fn between_key(a: Option<Seq<char>>, b: Option<Seq<char>>) -> Seq<char> {
    match (a, b) {
        (Some(x), None) => after_key(x),
        _ => mid_key(or_empty(a), b),
    }
}

/// Inputs on which `between` is defined.
pub open spec fn between_ok(a: Option<Seq<char>>, b: Option<Seq<char>>) -> bool {
    match (a, b) {
        (Some(x), None) => after_ok(x),
        _ => mid_ok(or_empty(a), b),
    }
}

/// `x` lies strictly between the optional bounds `a` and `b`.
pub open spec fn strictly_between(a: Option<Seq<char>>, x: Seq<char>, b: Option<Seq<char>>) -> bool {
    &&& (a matches Some(lo) ==> lex_lt(lo, x))
    &&& (b matches Some(hi) ==> lex_lt(x, hi))
}

/// Keys for `n` items between `a` and `b`: the midpoint, with half of the
/// rest (rounded down) spread the same way below it and the others above it.
pub open spec fn n_between_keys(a: Option<Seq<char>>, b: Option<Seq<char>>, n: nat) -> Seq<Seq<char>>
    decreases n,
{
    if n == 0 {
        Seq::empty()
    } else {
        let m = mid_key(or_empty(a), b);
        let left = n / 2;
        n_between_keys(a, Some(m), left) + seq![m] + n_between_keys(Some(m), b, (n - left - 1) as nat)
    }
}

/// A sequence of keys in strictly increasing order.
pub open spec fn strictly_sorted(s: Seq<Seq<char>>) -> bool {
    forall|i: int, j: int| 0 <= i < j < s.len() ==> lex_lt(#[trigger] s[i], #[trigger] s[j])
}

proof fn lemma_all_b62_rest(a: Seq<char>)
    requires
        all_b62(a),
    ensures
        all_b62(rest(a)),
        is_b62(head(a)),
{
    if a.len() > 0 {
        assert(is_b62(a[0]));
        assert forall|i: int| 0 <= i < rest(a).len() implies #[trigger] is_b62(rest(a)[i]) by {
            assert(is_b62(a[i + 1]));
        }
    }
}

proof fn lemma_valid_cons(c: char, s: Seq<char>)
    requires
        is_b62(c),
        valid_key(s),
    ensures
        valid_key(seq![c] + s),
{
    let t = seq![c] + s;
    assert forall|i: int| 0 <= i < t.len() implies #[trigger] is_b62(t[i]) by {
        if i > 0 {
            assert(t[i] == s[i - 1]);
        }
    }
}

proof fn lemma_lt_cons(c: char, x: Seq<char>, y: Seq<char>)
    requires
        lex_lt(x, y),
    ensures
        lex_lt(seq![c] + x, seq![c] + y),
{
    assert((seq![c] + x).drop_first() =~= x);
    assert((seq![c] + y).drop_first() =~= y);
}

/// The midpoint is a well-formed key strictly between its bounds.
pub proof fn lemma_mid_key(a: Seq<char>, b: Option<Seq<char>>)
    requires
        mid_ok(a, b),
    ensures
        valid_key(mid_key(a, b)),
        lex_lt(a, mid_key(a, b)),
        b matches Some(bs) ==> lex_lt(mid_key(a, b), bs),
    decreases a.len() + opt_len(b),
{
    let m = mid_key(a, b);
    lemma_all_b62_rest(a);
    let da = digit_value(head(a));
    let ha = head(a);
    lemma_digit_order(ha, ha);
    if let Some(bs) = b {
        assert(is_b62(bs[0]));
        lemma_digit_order(ha, bs[0]);
        assert(is_b62(bs[bs.len() - 1]));
        lemma_digit_order(bs[bs.len() - 1], '0');
        if ha == bs[0] {
            // the shared digit is kept; `b` must go on after it
            if bs.len() == 1 {
                if a.len() == 0 {
                    assert(bs.last() == '0');
                } else {
                    assert(lex_lt(a.drop_first(), bs.drop_first()));
                }
            }
            let bt = bs.drop_first();
            assert forall|i: int| 0 <= i < bt.len() implies #[trigger] is_b62(bt[i]) by {
                assert(is_b62(bs[i + 1]));
            }
            assert(bt.last() == bs.last());
            if a.len() == 0 {
                assert(lex_lt(rest(a), bt));
            }
            lemma_mid_key(rest(a), Some(bt));
            let r = mid_key(rest(a), Some(bt));
            assert(m == seq![bs[0]] + r);
            lemma_valid_cons(bs[0], r);
            assert(bs =~= seq![bs[0]] + bt);
            lemma_lt_cons(bs[0], r, bt);
            if a.len() > 0 {
                assert(a =~= seq![bs[0]] + rest(a));
                lemma_lt_cons(bs[0], rest(a), r);
            }
        } else {
            // the first digits differ, so `a`'s is the smaller one
            let db = digit_value(bs[0]);
            if a.len() > 0 {
                assert(a[0] < bs[0]);
            } else {
                lemma_digit_order('0', bs[0]);
            }
            assert(da < db);
            if db > da + 1 {
                let v = (da + db + 1) / 2;
                lemma_digit_char(v);
                lemma_digit_order(ha, digit_char(v));
                lemma_digit_order(digit_char(v), bs[0]);
                lemma_digit_order(digit_char(v), '0');
                assert(m == seq![digit_char(v)]);
            } else if bs.len() > 1 {
                assert(m == seq![bs[0]]);
                lemma_lex_lt_prefix(bs, 1);
                assert(bs.subrange(0, 1) =~= m);
                lemma_digit_order(bs[0], '0');
            } else {
                lemma_mid_key(rest(a), None);
                let r = mid_key(rest(a), None);
                assert(m == seq![ha] + r);
                lemma_valid_cons(ha, r);
                if a.len() > 0 {
                    assert(a =~= seq![ha] + rest(a));
                    lemma_lt_cons(ha, rest(a), r);
                }
            }
        }
    } else {
        if da + 1 < 62 {
            let v = (da + 62 + 1) / 2;
            lemma_digit_char(v);
            lemma_digit_order(ha, digit_char(v));
            lemma_digit_order(digit_char(v), '0');
            assert(m == seq![digit_char(v)]);
        } else {
            assert(a.len() > 0);
            lemma_mid_key(rest(a), None);
            let r = mid_key(rest(a), None);
            assert(m == seq![ha] + r);
            lemma_valid_cons(ha, r);
            assert(a =~= seq![ha] + rest(a));
            lemma_lt_cons(ha, rest(a), r);
        }
    }
}

/// Number of `z` digits at the front of `a`.
pub open spec fn leading_z(a: Seq<char>) -> nat
    decreases a.len(),
{
    if a.len() > 0 && a[0] == 'z' { 1 + leading_z(a.drop_first()) } else { 0 }
}

/// A key of base-62 digits always has a key after it.
pub proof fn lemma_all_b62_after_ok(a: Seq<char>)
    requires
        all_b62(a),
    ensures
        after_ok(a),
    decreases a.len(),
{
    if a.len() > 0 {
        assert(is_b62(a[0]));
        assert(all_b62(a.drop_first())) by {
            assert forall|i: int| 0 <= i < a.drop_first().len() implies #[trigger] is_b62(a.drop_first()[i]) by {
                assert(is_b62(a[i + 1]));
            }
        }
        lemma_all_b62_after_ok(a.drop_first());
    }
}

/// Keys can be split again and again: between two well-formed keys `a < b`
/// (or before the first, after the last, or in an empty quadrant) there is
/// always a key, and it is well formed itself, so it can be a bound of the
/// next split.
pub proof fn law_between_splits(a: Option<Seq<char>>, b: Option<Seq<char>>)
    requires
        a matches Some(x) ==> valid_key(x),
        b matches Some(y) ==> valid_key(y),
        a is Some && b is Some ==> lex_lt(a->0, b->0),
    ensures
        between_ok(a, b),
        valid_key(between_key(a, b)),
        strictly_between(a, between_key(a, b), b),
{
    match (a, b) {
        (Some(x), None) => {
            lemma_all_b62_after_ok(x);
            lemma_after_key(x);
        },
        _ => {
            lemma_mid_key(or_empty(a), b);
        },
    }
}

/// The key after `a` is a well-formed key above `a`, made of `a`'s leading
/// `z`s and one more digit: it is longer than `a` only when `a` is all `z`.
pub proof fn lemma_after_key(a: Seq<char>)
    requires
        after_ok(a),
    ensures
        valid_key(after_key(a)),
        lex_lt(a, after_key(a)),
        after_key(a).len() == leading_z(a) + 1,
        leading_z(a) <= a.len(),
        leading_z(a) == a.len() <==> (forall|i: int| 0 <= i < a.len() ==> a[i] == 'z'),
    decreases a.len(),
{
    let k = after_key(a);
    if a.len() == 0 {
        assert(is_b62(k[0]));
    } else if a[0] == 'z' {
        let t = a.drop_first();
        lemma_after_key(t);
        lemma_valid_cons('z', after_key(t));
        assert(a =~= seq!['z'] + t);
        lemma_lt_cons('z', t, after_key(t));
        if leading_z(t) == t.len() {
            assert forall|i: int| 0 <= i < a.len() implies a[i] == 'z' by {
                if i > 0 {
                    assert(a[i] == t[i - 1]);
                }
            }
        }
        if forall|i: int| 0 <= i < a.len() ==> a[i] == 'z' {
            assert forall|i: int| 0 <= i < t.len() implies t[i] == 'z' by {
                assert(a[i + 1] == 'z');
            }
        }
    } else {
        let v = digit_value(a[0]) + 1;
        lemma_digit_order(a[0], 'z');
        lemma_digit_char(v);
        lemma_digit_order(a[0], digit_char(v));
        lemma_digit_order(digit_char(v), '0');
        lemma_digit_order(a[0], a[0]);
    }
}

/// The keys for `n` items: `n` well-formed keys in strictly increasing
/// order, all strictly between the bounds.
pub proof fn lemma_n_between_keys(a: Option<Seq<char>>, b: Option<Seq<char>>, n: nat)
    requires
        n > 0 ==> mid_ok(or_empty(a), b),
    ensures
        n_between_keys(a, b, n).len() == n,
        strictly_sorted(n_between_keys(a, b, n)),
        forall|i: int| 0 <= i < n ==> {
            &&& valid_key(#[trigger] n_between_keys(a, b, n)[i])
            &&& lex_lt(or_empty(a), n_between_keys(a, b, n)[i])
            &&& strictly_between(a, n_between_keys(a, b, n)[i], b)
        },
    decreases n,
{
    if n > 0 {
        let m = mid_key(or_empty(a), b);
        lemma_mid_key(or_empty(a), b);
        let left = n / 2;
        let right = (n - left - 1) as nat;
        assert(all_b62(m));
        lemma_n_between_keys(a, Some(m), left);
        lemma_n_between_keys(Some(m), b, right);
        let l = n_between_keys(a, Some(m), left);
        let r = n_between_keys(Some(m), b, right);
        let s = n_between_keys(a, b, n);
        assert(s == l + seq![m] + r);
        assert forall|i: int| 0 <= i < n implies {
            &&& valid_key(#[trigger] s[i])
            &&& lex_lt(or_empty(a), s[i])
            &&& strictly_between(a, s[i], b)
        } by {
            if i < left {
                assert(s[i] == l[i]);
                if let Some(hi) = b {
                    lemma_lex_lt_trans(s[i], m, hi);
                }
            } else if i == left {
                assert(s[i] == m);
            } else {
                assert(s[i] == r[i - left - 1]);
                lemma_lex_lt_trans(or_empty(a), m, s[i]);
            }
        }
        assert forall|i: int, j: int| 0 <= i < j < s.len() implies lex_lt(#[trigger] s[i], #[trigger] s[j]) by {
            if j < left {
                assert(s[i] == l[i] && s[j] == l[j]);
            } else if j == left {
                assert(s[i] == l[i]);
            } else if i > left {
                assert(s[i] == r[i - left - 1] && s[j] == r[j - left - 1]);
            } else if i == left {
                assert(s[j] == r[j - left - 1]);
            } else {
                assert(s[i] == l[i] && s[j] == r[j - left - 1]);
                lemma_lex_lt_trans(s[i], m, s[j]);
            }
        }
    }
}

/// The characters of an optional string.
pub open spec fn opt_view(a: Option<&str>) -> Option<Seq<char>> {
    match a {
        Some(s) => Some(s@),
        None => None,
    }
}

pub open spec fn opt_b(b: Seq<char>, has_b: bool) -> Option<Seq<char>> {
    if has_b { Some(b) } else { None }
}

proof fn lemma_mid_ok_strip(a: Seq<char>, bs: Seq<char>)
    requires
        mid_ok(a, Some(bs)),
        head(a) == bs[0],
    ensures
        bs.len() >= 2,
        mid_ok(rest(a), Some(bs.drop_first())),
{
    lemma_all_b62_rest(a);
    assert(is_b62(bs[bs.len() - 1]));
    if bs.len() == 1 {
        if a.len() == 0 {
            assert(bs.last() == '0');
        } else {
            assert(lex_lt(a.drop_first(), bs.drop_first()));
        }
    }
    let bt = bs.drop_first();
    assert forall|i: int| 0 <= i < bt.len() implies #[trigger] is_b62(bt[i]) by {
        assert(is_b62(bs[i + 1]));
    }
    assert(bt.last() == bs.last());
}

/// `mid_key` computed digit by digit.
fn midpoint(a: &Vec<char>, b: &Vec<char>, has_b: bool) -> (r: String)
    requires
        mid_ok(a@, opt_b(b@, has_b)),
    ensures
        r@ == mid_key(a@, opt_b(b@, has_b)),
{
    let mut out = String::new();
    let mut ai: usize = 0;
    let mut bi: usize = 0;
    let mut bsome = has_b;
    assert(a@.subrange(0, a@.len() as int) =~= a@);
    assert(b@.subrange(0, b@.len() as int) =~= b@);
    loop
        invariant
            ai <= a@.len(),
            bi <= b@.len(),
            has_b || !bsome,
            mid_ok(a@.subrange(ai as int, a@.len() as int), opt_b(b@.subrange(bi as int, b@.len() as int), bsome)),
            out@ + mid_key(a@.subrange(ai as int, a@.len() as int), opt_b(b@.subrange(bi as int, b@.len() as int), bsome))
                == mid_key(a@, opt_b(b@, has_b)),
        decreases (a@.len() - ai) + (if bsome { b@.len() - bi } else { 0 }),
    {
        let ghost sa = a@.subrange(ai as int, a@.len() as int);
        let ghost sb = b@.subrange(bi as int, b@.len() as int);
        let ghost ob = opt_b(sb, bsome);
        proof {
            lemma_all_b62_rest(sa);
        }
        let ha = if ai < a.len() { a[ai] } else { '0' };
        assert(ha == head(sa));
        let ghost ra = a@.subrange(if ai < a.len() { ai + 1 } else { ai as int }, a@.len() as int);
        assert(ra =~= rest(sa));
        if bsome {
            assert(sb.len() > 0);
            assert(bi < b.len());
            assert(sb[0] == b@[bi as int]);
            if ha == b[bi] {
                proof {
                    lemma_mid_ok_strip(sa, sb);
                }
                assert(sb.drop_first() =~= b@.subrange(bi + 1, b@.len() as int));
                push_char(&mut out, b[bi]);
                if ai < a.len() {
                    ai = ai + 1;
                }
                bi = bi + 1;
                continue;
            }
        }
        let da = val(ha);
        let db: u32 = if bsome {
            assert(is_b62(sb[0]));
            val(b[bi])
        } else {
            62
        };
        proof {
            if bsome {
                lemma_digit_order(ha, sb[0]);
                if sa.len() > 0 {
                    assert(sa[0] < sb[0]);
                } else {
                    lemma_digit_order('0', sb[0]);
                }
            }
        }
        if db > da + 1 {
            let c = digit((da + db + 1) / 2);
            push_char(&mut out, c);
            assert(mid_key(sa, ob) == seq![c]);
            return out;
        } else if bsome && b.len() - bi > 1 {
            push_char(&mut out, b[bi]);
            assert(mid_key(sa, ob) == seq![b@[bi as int]]);
            return out;
        } else {
            assert(bsome || sa.len() > 0);
            push_char(&mut out, ha);
            if ai < a.len() {
                ai = ai + 1;
            }
            bsome = false;
        }
    }
}

/// The key right after `a`: the first digit that is not `z` goes up by one
/// and the digits after it are dropped; a key of `z`s only gets a `1`.
/// Repeated appends at the end thus grow the key by one digit only once
/// every 61 appends.
pub fn after(a: &str) -> (r: String)
    requires
        after_ok(a@),
    ensures
        r@ == after_key(a@),
        valid_key(r@),
        lex_lt(a@, r@),
{
    proof {
        lemma_after_key(a@);
    }
    let v = chars_of(a);
    let mut out = String::new();
    let mut i: usize = 0;
    assert(v@.subrange(0, v@.len() as int) =~= v@);
    while i < v.len()
        invariant
            i <= v@.len(),
            after_ok(v@.subrange(i as int, v@.len() as int)),
            out@ + after_key(v@.subrange(i as int, v@.len() as int)) == after_key(a@),
            v@ == a@,
            valid_key(after_key(a@)),
            lex_lt(a@, after_key(a@)),
        decreases v@.len() - i,
    {
        let ghost t = v@.subrange(i as int, v@.len() as int);
        if v[i] != 'z' {
            assert(is_b62(t[0]));
            let c = digit(val(v[i]) + 1);
            push_char(&mut out, c);
            assert(after_key(t) == seq![c]);
            assert(out@ =~= after_key(a@));
            return out;
        }
        assert(t.drop_first() =~= v@.subrange(i + 1, v@.len() as int));
        push_char(&mut out, 'z');
        i = i + 1;
    }
    assert(v@.subrange(i as int, v@.len() as int) =~= Seq::<char>::empty());
    push_char(&mut out, '1');
    assert(out@ =~= after_key(a@));
    out
}

/// A key between `a` and `b`; `None` stands for the front and the end of
/// the quadrant. When both are given, `a` must be below `b`.
pub fn between(a: Option<&str>, b: Option<&str>) -> (r: String)
    requires
        between_ok(opt_view(a), opt_view(b)),
    ensures
        r@ == between_key(opt_view(a), opt_view(b)),
        valid_key(r@),
        strictly_between(opt_view(a), r@, opt_view(b)),
{
    match (a, b) {
        (Some(x), None) => after(x),
        _ => {
            let av = match a {
                Some(x) => chars_of(x),
                None => Vec::new(),
            };
            let (bv, has_b) = match b {
                Some(y) => (chars_of(y), true),
                None => (Vec::new(), false),
            };
            assert(opt_b(bv@, has_b) == opt_view(b));
            assert(av@ == or_empty(opt_view(a)));
            proof {
                lemma_mid_key(av@, opt_b(bv@, has_b));
            }
            midpoint(&av, &bv, has_b)
        },
    }
}

/// `n` keys between `a` and `b`, evenly spread (for bulk imports).
pub fn n_between(a: Option<&str>, b: Option<&str>, n: usize) -> (r: Vec<String>)
    requires
        n > 0 ==> mid_ok(or_empty(opt_view(a)), opt_view(b)),
    ensures
        r@.map_values(|k: String| k@) == n_between_keys(opt_view(a), opt_view(b), n as nat),
        r@.len() == n,
        strictly_sorted(r@.map_values(|k: String| k@)),
        forall|i: int| 0 <= i < n ==> {
            &&& valid_key(#[trigger] r@[i]@)
            &&& strictly_between(opt_view(a), r@[i]@, opt_view(b))
        },
    decreases n,
{
    let ghost ao = opt_view(a);
    let ghost bo = opt_view(b);
    proof {
        lemma_n_between_keys(ao, bo, n as nat);
    }
    if n == 0 {
        let r: Vec<String> = Vec::new();
        assert(r@.map_values(|k: String| k@) =~= n_between_keys(ao, bo, 0));
        return r;
    }
    let av = match a {
        Some(x) => chars_of(x),
        None => Vec::new(),
    };
    let (bv, has_b) = match b {
        Some(y) => (chars_of(y), true),
        None => (Vec::new(), false),
    };
    assert(opt_b(bv@, has_b) == bo);
    assert(av@ == or_empty(ao));
    let mid = midpoint(&av, &bv, has_b);
    proof {
        lemma_mid_key(av@, bo);
    }
    let left = n / 2;
    let mut keys = n_between(a, Some(mid.as_str()), left);
    let ghost lk = keys@;
    keys.push(mid.clone());
    let mut more = n_between(Some(mid.as_str()), b, n - left - 1);
    let ghost rk = more@;
    keys.append(&mut more);
    assert(keys@ =~= lk + seq![mid] + rk);
    assert(keys@.map_values(|k: String| k@) =~= lk.map_values(|k: String| k@) + seq![mid@] + rk.map_values(|k: String| k@));
    assert forall|i: int| 0 <= i < n implies {
        &&& valid_key(#[trigger] keys@[i]@)
        &&& strictly_between(ao, keys@[i]@, bo)
    } by {
        assert(keys@.map_values(|k: String| k@)[i] == keys@[i]@);
    }
    keys
}

} // verus!
