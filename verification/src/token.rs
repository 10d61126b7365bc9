use vstd::prelude::*;

use crate::Error;
use crate::header::XSRF_COOKIE_PREFIX;
use crate::header::XSRF_COOKIE_SEPARATOR;

verus! {

/// The cookie-name prefix that marks the XSRF cookie.
pub open spec fn xsrf_prefix() -> Seq<char> {
    "XSRF-TOKEN="@
}

/// The part of `s` before its first `;`, or all of `s` if it has none.
pub open spec fn until_separator(s: Seq<char>) -> Seq<char>
    decreases s.len(),
{
    if s.len() == 0 {
        s
    } else if s[0] == ';' {
        Seq::empty()
    } else {
        seq![s[0]] + until_separator(s.skip(1))
    }
}

/// The raw (still percent-encoded) token a single Set-Cookie header value
/// offers: the text after the XSRF prefix, up to the first `;`; `None`
/// where the value does not begin with the prefix.
pub open spec fn raw_token_of(header: Seq<char>) -> Option<Seq<char>> {
    if header.len() >= xsrf_prefix().len() && header.take(xsrf_prefix().len() as int)
        == xsrf_prefix() {
        Some(until_separator(header.skip(xsrf_prefix().len() as int)))
    } else {
        None
    }
}

/// What `urlencoding::decode` makes of a string: its percent escapes
/// unescaped, or `None` where the unescaped bytes are not valid UTF-8.
pub uninterp spec fn percent_decoded(s: Seq<char>) -> Option<Seq<char>>;

/// `s` holds no percent escape at all.
pub open spec fn no_percent(s: Seq<char>) -> bool {
    forall|i: int| 0 <= i < s.len() ==> s[i] != '%'
}

/// The decoded token a single Set-Cookie header value yields, if any.
/// A value that decodes to the empty string yields none: an empty token
/// cannot authenticate a session.
pub open spec fn token_of(header: Seq<char>) -> Option<Seq<char>> {
    match raw_token_of(header) {
        Some(raw) => match percent_decoded(raw) {
            Some(t) => if t.len() > 0 {
                Some(t)
            } else {
                None
            },
            None => None,
        },
        None => None,
    }
}

/// The token of the first header, in iteration order, that yields one.
pub open spec fn first_token(headers: Seq<Seq<char>>) -> Option<Seq<char>>
    decreases headers.len(),
{
    if headers.len() == 0 {
        None
    } else if token_of(headers[0]) is Some {
        token_of(headers[0])
    } else {
        first_token(headers.skip(1))
    }
}

/// Relies on `urlencoding::decode`: percent-unescaping, whose result
/// depends on the characters alone; its source returns a string with no
/// `%` unchanged, and its only failure is invalid UTF-8 among the
/// unescaped bytes.
#[verifier::external_body]
fn percent_decode(s: &str) -> (r: Option<String>)
    ensures
        (match r {
            Some(t) => percent_decoded(s@) == Some(t@) && (no_percent(s@) ==> t@ == s@),
            None => percent_decoded(s@) is None && !no_percent(s@),
        }),
{
    match urlencoding::decode(s) {
        Ok(cow) => Some(cow.into_owned()),
        Err(_) => None,
    }
}

/// `until_separator` is exactly the prefix that stops at the first `;`.
proof fn lemma_until_separator(s: Seq<char>, m: int)
    requires
        0 <= m <= s.len(),
        forall|k: int| 0 <= k < m ==> s[k] != ';',
        m == s.len() || s[m] == ';',
    ensures
        until_separator(s) == s.take(m),
    decreases s.len(),
{
    if m == 0 {
        assert(s.take(0) =~= Seq::<char>::empty());
        if s.len() != 0 {
            assert(until_separator(s) == Seq::<char>::empty());
        }
    } else {
        assert(s[0] != ';');
        lemma_until_separator(s.skip(1), m - 1);
        assert(seq![s[0]] + s.skip(1).take(m - 1) =~= s.take(m));
    }
}

/// The token one Set-Cookie header value yields: strip the XSRF cookie
/// prefix, cut at the first `;`, percent-decode, and reject an empty
/// result. Re-applied to a value whose non-empty token part holds no
/// percent escape, it hands that part back unchanged (so decoding is
/// idempotent).
pub fn header_token(header: &str) -> (r: Option<String>)
    ensures
        r is Some <==> token_of(header@) is Some,
        r matches Some(t) ==> token_of(header@) == Some(t@),
        raw_token_of(header@) is Some && no_percent(raw_token_of(header@)->0)
            && raw_token_of(header@)->0.len() > 0 ==> (r is Some && r->0@ == raw_token_of(
            header@,
        )->0),
{
    let prefix = XSRF_COOKIE_PREFIX;
    proof {
        reveal_strlit("XSRF-TOKEN=");
    }
    let plen = prefix.unicode_len();
    let n = header.unicode_len();
    if n < plen {
        assert(raw_token_of(header@) is None);
        return None;
    }
    let mut i: usize = 0;
    while i < plen
        invariant
            0 <= i <= plen,
            plen == xsrf_prefix().len(),
            n == header@.len(),
            plen <= n,
            prefix@ == xsrf_prefix(),
            forall|k: int| 0 <= k < i ==> header@[k] == xsrf_prefix()[k],
        decreases plen - i,
    {
        if header.get_char(i) != prefix.get_char(i) {
            assert(header@.take(plen as int)[i as int] != xsrf_prefix()[i as int]);
            assert(raw_token_of(header@) is None);
            return None;
        }
        i += 1;
    }
    assert(header@.take(plen as int) =~= xsrf_prefix());
    let ghost rest = header@.skip(plen as int);
    let mut j: usize = plen;
    while j < n && header.get_char(j) != XSRF_COOKIE_SEPARATOR
        invariant
            plen <= j <= n,
            n == header@.len(),
            plen == xsrf_prefix().len(),
            rest == header@.skip(plen as int),
            forall|k: int| plen <= k < j ==> header@[k] != ';',
        decreases n - j,
    {
        j += 1;
    }
    assert(j == n || header@[j as int] == ';');
    let raw = header.substring_char(plen, j);
    proof {
        assert(forall|k: int| 0 <= k < j - plen ==> rest[k] == header@[k + plen]);
        lemma_until_separator(rest, j - plen);
        assert(raw@ =~= rest.take(j - plen));
        assert(raw_token_of(header@) == Some(raw@));
    }
    match percent_decode(raw) {
        Some(t) => {
            if t.as_str().unicode_len() == 0 {
                None
            } else {
                Some(t)
            }
        },
        None => None,
    }
}

/// The session token the bootstrapper extracts from the Set-Cookie
/// headers of the homepage response: the decoded value of the first
/// header that matches the prefix pattern and decodes to something
/// non-empty, else `Error::RateLimited` — the cookie's absence is read
/// as throttling. A ready session's token is never empty.
pub fn bootstrap_token(cookies: &Vec<String>) -> (r: Result<String, Error>)
    ensures
        r matches Ok(t) ==> first_token(cookies.deep_view()) == Some(t@) && t@.len() > 0,
        r matches Err(e) ==> e is RateLimited && first_token(cookies.deep_view()) is None,
{
    let ghost all = cookies.deep_view();
    proof {
        assert(all.skip(0) =~= all);
    }
    let n = cookies.len();
    let mut i: usize = 0;
    while i < n
        invariant
            0 <= i <= n,
            n == cookies.len(),
            all == cookies.deep_view(),
            all.len() == n,
            first_token(all) == first_token(all.skip(i as int)),
        decreases n - i,
    {
        proof {
            assert(all[i as int] == cookies@[i as int]@);
        }
        match header_token(&cookies[i]) {
            Some(t) => {
                proof {
                    assert(all.skip(i as int)[0] == all[i as int]);
                    assert(first_token(all.skip(i as int)) == token_of(all[i as int]));
                }
                return Ok(t);
            },
            None => {
                proof {
                    assert(all.skip(i as int)[0] == all[i as int]);
                    assert(token_of(all[i as int]) is None);
                    assert(all.skip(i as int).skip(1) =~= all.skip(i as int + 1));
                }
            },
        }
        i += 1;
    }
    proof {
        assert(all.skip(n as int) =~= Seq::<Seq<char>>::empty());
    }
    Err(Error::RateLimited)
}

/// Stripping the prefix and cutting at the separator undoes prepending
/// the prefix: a token free of `;` framed as `XSRF-TOKEN=<token>` is
/// recovered exactly.
pub proof fn lemma_raw_token_round_trip(t: Seq<char>)
    requires
        forall|k: int| 0 <= k < t.len() ==> t[k] != ';',
    ensures
        raw_token_of(xsrf_prefix() + t) == Some(t),
{
    let h = xsrf_prefix() + t;
    assert(h.take(xsrf_prefix().len() as int) =~= xsrf_prefix());
    assert(h.skip(xsrf_prefix().len() as int) =~= t);
    lemma_until_separator(t, t.len() as int);
    assert(t.take(t.len() as int) =~= t);
}

} // verus!
