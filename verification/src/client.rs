//! The pieces of the server client that decide rather than talk: how an
//! answer is classified, the URLs, and what an event line says.

use vstd::prelude::*;
use crate::text::{has_prefix, strip_prefix, trim, trim_spec};

verus! {

/// The server refused the request (a 4xx answer): sending it again will not help.
#[derive(Debug)]
pub struct Rejected(pub String);

impl Rejected {
    /// The message shown for the refusal.
    pub fn message(&self) -> (r: String)
        ensures
            r@ == "サーバーが拒否しました: "@ + self.0@,
    {
        let mut r = String::from_str("サーバーが拒否しました: ");
        r.append(self.0.as_str());
        r
    }
}

/// What an HTTP status means for a request.
#[derive(Debug, Clone, Copy, PartialEq, Eq, Structural)]
pub enum Reply {
    /// 2xx: done.
    Success,
    /// 4xx: refused for good.
    Refused,
    /// Anything else: try again later.
    Failure,
}

/// Classifies an HTTP status code.
pub fn classify_status(code: u16) -> (r: Reply)
    ensures
        400 <= code < 500 ==> r == Reply::Refused,
        200 <= code < 300 ==> r == Reply::Success,
        !(200 <= code < 300) && !(400 <= code < 500) ==> r == Reply::Failure,
{
    if 400 <= code && code < 500 {
        Reply::Refused
    } else if 200 <= code && code < 300 {
        Reply::Success
    } else {
        Reply::Failure
    }
}

/// Number of `/` at the end of `s`.
pub open spec fn trailing_slashes(s: Seq<char>) -> nat
    decreases s.len(),
{
    if s.len() > 0 && s.last() == '/' { 1 + trailing_slashes(s.drop_last()) } else { 0 }
}

proof fn lemma_trailing_slashes_bound(s: Seq<char>)
    ensures
        trailing_slashes(s) <= s.len(),
    decreases s.len(),
{
    if s.len() > 0 && s.last() == '/' {
        lemma_trailing_slashes_bound(s.drop_last());
    }
}

/// The server's base URL without trailing `/`.
pub fn base_url(base: &str) -> (r: String)
    ensures
        r@ == base@.take(base@.len() - trailing_slashes(base@)),
{
    let n = base.unicode_len();
    let mut j = n;
    proof {
        lemma_trailing_slashes_bound(base@);
        assert(base@.take(n as int) =~= base@);
    }
    while j > 0 && base.get_char(j - 1) == '/'
        invariant
            j <= n,
            n == base@.len(),
            trailing_slashes(base@) == (n - j) + trailing_slashes(base@.take(j as int)),
        decreases j,
    {
        assert(base@.take(j as int).drop_last() =~= base@.take(j - 1));
        j = j - 1;
    }
    proof {
        if j > 0 {
            assert(base@.take(j as int).last() == base@[j - 1]);
        }
    }
    String::from_str(base.substring_char(0, j))
}

/// `base` followed by `path`.
pub fn url(base: &str, path: &str) -> (r: String)
    ensures
        r@ == base@ + path@,
{
    let mut r = String::from_str(base);
    r.append(path);
    r
}

/// Value of a run of ASCII digits.
pub open spec fn digits_value(d: Seq<char>) -> int
    decreases d.len(),
{
    if d.len() == 0 { 0 } else { digits_value(d.drop_last()) * 10 + (d.last() as int - '0' as int) }
}

pub open spec fn all_digits(d: Seq<char>) -> bool {
    forall|i: int| 0 <= i < d.len() ==> '0' <= #[trigger] d[i] && d[i] <= '9'
}

/// `s` read as an `i64` the way `str::parse::<i64>` reads it: an optional
/// `+` or `-`, then one or more ASCII digits, and a value that fits.
pub open spec fn i64_from_str(s: Seq<char>) -> Option<i64> {
    let neg = s.len() > 0 && s[0] == '-';
    let d = if s.len() > 0 && (s[0] == '-' || s[0] == '+') { s.drop_first() } else { s };
    let v = if neg { -digits_value(d) } else { digits_value(d) };
    if d.len() > 0 && all_digits(d) && i64::MIN <= v <= i64::MAX {
        Some(v as i64)
    } else {
        None
    }
}

proof fn lemma_digits_value_nonneg(d: Seq<char>)
    requires
        all_digits(d),
    ensures
        digits_value(d) >= 0,
    decreases d.len(),
{
    if d.len() > 0 {
        assert(all_digits(d.drop_last())) by {
            assert forall|i: int| 0 <= i < d.drop_last().len() implies '0' <= #[trigger] d.drop_last()[i] && d.drop_last()[i] <= '9' by {
                assert(d.drop_last()[i] == d[i]);
            }
        }
        lemma_digits_value_nonneg(d.drop_last());
    }
}

/// Reads an `i64` in decimal, as `str::parse::<i64>` does.
pub fn parse_i64(s: &str) -> (r: Option<i64>)
    ensures
        r == i64_from_str(s@),
{
    let n = s.unicode_len();
    let neg = n > 0 && s.get_char(0) == '-';
    let start: usize = if n > 0 && (s.get_char(0) == '-' || s.get_char(0) == '+') { 1 } else { 0 };
    let ghost d = if s@.len() > 0 && (s@[0] == '-' || s@[0] == '+') { s@.drop_first() } else { s@ };
    assert(d =~= s@.skip(start as int));
    if start >= n {
        return None;
    }
    let limit: i128 = 9223372036854775808;
    let mut acc: i128 = 0;
    let mut over = false;
    let mut i = start;
    assert(s@.subrange(start as int, start as int) =~= Seq::<char>::empty());
    while i < n
        invariant
            start <= i <= n,
            n == s@.len(),
            all_digits(s@.subrange(start as int, i as int)),
            !over ==> acc == digits_value(s@.subrange(start as int, i as int)) && 0 <= acc <= limit,
            over ==> digits_value(s@.subrange(start as int, i as int)) > limit,
            limit == 9223372036854775808,
            d == s@.skip(start as int),
            d =~= (if s@.len() > 0 && (s@[0] == '-' || s@[0] == '+') { s@.drop_first() } else { s@ }),
            neg == (s@.len() > 0 && s@[0] == '-'),
        decreases n - i,
    {
        let c = s.get_char(i);
        let ghost p = s@.subrange(start as int, i as int);
        let ghost q = s@.subrange(start as int, i + 1);
        assert(q.drop_last() =~= p);
        if c < '0' || c > '9' {
            assert(!all_digits(s@.skip(start as int))) by {
                assert(s@.skip(start as int)[i - start] == c);
            }
            assert(!all_digits(d));
            return None;
        }
        proof {
            lemma_digits_value_nonneg(p);
        }
        let dv = (c as u32 - '0' as u32) as i128;
        if !over {
            if acc > limit / 10 {
                over = true;
            } else {
                acc = acc * 10 + dv;
                if acc > limit {
                    over = true;
                }
            }
        }
        assert(all_digits(q)) by {
            assert forall|k: int| 0 <= k < q.len() implies '0' <= #[trigger] q[k] && q[k] <= '9' by {
                if k < p.len() {
                    assert(q[k] == p[k]);
                }
            }
        }
        i = i + 1;
    }
    assert(s@.subrange(start as int, n as int) =~= d);
    if over {
        return None;
    }
    if neg {
        Some((0 - acc) as i64)
    } else if acc < limit {
        Some(acc as i64)
    } else {
        None
    }
}

/// The revision announced by an event-stream line `data: N`, if the line
/// is one.
pub fn sse_rev(line: &str) -> (r: Option<i64>)
    ensures
        r == (if has_prefix(line@, "data:"@) { i64_from_str(trim_spec(line@.skip(5))) } else { None }),
{
    proof {
        reveal_strlit("data:");
    }
    match strip_prefix(line, "data:") {
        Some(data) => parse_i64(trim(data)),
        None => None,
    }
}

} // verus!
