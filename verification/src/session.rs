//! Captured requests to the platform: which are worth keeping, and how they are kept.

use crate::balance::{Balance, BalanceView};
use crate::date::Ymd;
use crate::kept;
use crate::rewrite;
use crate::table::Table;
use crate::text;
use crate::text::{chars_of, find, stands_at, text_of};
use crate::usage::Day;
use vstd::prelude::*;

verus! {

/// A captured request.
#[derive(Debug, PartialEq)]
pub struct Endpoint {
    pub url: String,
    pub method: String,
    pub auth: String,
    pub body: Option<String>,
    pub content_type: String,
}

/// What a captured request says.
pub struct EndpointView {
    pub url: Seq<char>,
    pub method: Seq<char>,
    pub auth: Seq<char>,
    pub body: Option<Seq<char>>,
    pub content_type: Seq<char>,
}

/// The text that is there, where one is.
pub open spec fn text_view(s: Option<String>) -> Option<Seq<char>> {
    match s {
        Some(s) => Some(s@),
        None => None,
    }
}

impl View for Endpoint {
    type V = EndpointView;

    open spec fn view(&self) -> EndpointView {
        EndpointView {
            url: self.url@,
            method: self.method@,
            auth: self.auth@,
            body: text_view(self.body),
            content_type: self.content_type@,
        }
    }
}

impl Clone for Endpoint {
    fn clone(&self) -> (r: Endpoint)
        ensures
            r@ == self@,
    {
        Endpoint {
            url: self.url.clone(),
            method: self.method.clone(),
            auth: self.auth.clone(),
            body: match &self.body {
                Some(b) => Some(b.clone()),
                None => None,
            },
            content_type: self.content_type.clone(),
        }
    }
}

/// The requests that were captured, and when.
#[derive(Debug, PartialEq)]
pub struct Session {
    pub endpoints: Vec<Endpoint>,
    pub cookie: String,
    pub saved_at: String,
}

/// What is kept of the last usage that was fetched.
#[derive(Debug)]
pub struct Cache {
    pub day_map: Table<Day>,
    pub balance: Option<Balance>,
    pub fetched_at: String,
}

/// The balance that is there, where one is.
pub open spec fn balance_view(b: Option<Balance>) -> Option<BalanceView> {
    match b {
        Some(b) => Some(b@),
        None => None,
    }
}

/// What a captured request says is what its parts say, each in its place.
pub proof fn law_request_said(e: Endpoint)
    ensures
        e@.url == e.url@,
        e@.method == e.method@,
        e@.auth == e.auth@,
        e@.content_type == e.content_type@,
        e.body is None <==> e@.body is None,
        e.body matches Some(b) ==> e@.body == Some(b@),
{
}

/// A text or a balance that is there is told, and one that is not there is not.
pub proof fn law_told_where_there(s: String, b: Balance)
    ensures
        text_view(Some(s)) == Some(s@),
        text_view(None) is None,
        balance_view(Some(b)) == Some(b@),
        balance_view(None) is None,
{
}

// ───────── which requests may be sent again ─────────

/// A character that may stand in the scheme or the authority of a URL: none that ends them.
pub open spec fn in_part(c: char) -> bool {
    c != '/' && c != '?' && c != '#'
}

/// The characters of a URL from `a` on and before `b` may be its scheme or of its authority.
pub open spec fn is_part(url: Seq<char>, a: int, b: int) -> bool {
    0 <= a <= b <= url.len() && forall|i: int| a <= i < b ==> in_part(#[trigger] url[i])
}

/// The authority of a URL, which ends in the host, may begin at `h`: behind a scheme and `://`,
/// behind a `//` at the front, or at the front itself.
pub open spec fn authority_at(url: Seq<char>, h: int) -> bool {
    ||| h == 0
    ||| h == 2 && text::occurs_at(url, "//"@, 0)
    ||| is_part(url, 0, h - 3) && text::occurs_at(url, "://"@, h - 3)
}

/// The URL's host ends, and its path begins, like this. Before the host there may be the name of
/// a user.
pub open spec fn is_below(url: Seq<char>, place: Seq<char>) -> bool {
    exists|h: int, f: int| #[trigger]
        authority_at(url, h) && is_part(url, h, f) && #[trigger] text::occurs_at(url, place, f)
}

/// The request asks for usage or for the summary of the account, by its host and its path.
pub open spec fn is_usage_url(url: Seq<char>) -> bool {
    ||| is_below(url, "platform.deepseek.com/api/v0/usage/"@)
    ||| is_below(url, "platform.deepseek.com/api/v0/users/get_user_summary"@)
}

/// The scheme and the authority of a URL end at the first `/`, `?` or `#`.
pub proof fn law_marks_end_parts(url: Seq<char>, a: int, b: int)
    ensures
        is_part(url, a, b) <==> 0 <= a <= b <= url.len() && forall|i: int|
            a <= i < b ==> #[trigger] url[i] != '/' && url[i] != '?' && url[i] != '#',
{
    if 0 <= a <= b <= url.len() && forall|i: int|
        a <= i < b ==> #[trigger] url[i] != '/' && url[i] != '?' && url[i] != '#' {
        assert forall|i: int| a <= i < b implies in_part(#[trigger] url[i]) by {}
    }
    if is_part(url, a, b) {
        assert forall|i: int| a <= i < b implies #[trigger] url[i] != '/' && url[i] != '?'
            && url[i] != '#' by {
            assert(in_part(url[i]));
        }
    }
}

/// A request for usage or for the summary may be sent again wherever its URL has the platform's
/// host and the path, with a scheme, with `//` alone or with neither in front, whatever user is
/// named before the host and whatever follows.
pub proof fn law_usage_however_written(scheme: Seq<char>, user: Seq<char>, rest: Seq<char>)
    requires
        forall|i: int| 0 <= i < scheme.len() ==> in_part(#[trigger] scheme[i]),
        forall|i: int| 0 <= i < user.len() ==> in_part(#[trigger] user[i]),
    ensures
        is_usage_url(user + "platform.deepseek.com/api/v0/usage/"@ + rest),
        is_usage_url("//"@ + user + "platform.deepseek.com/api/v0/usage/"@ + rest),
        is_usage_url(scheme + "://"@ + user + "platform.deepseek.com/api/v0/usage/"@ + rest),
        is_usage_url(user + "platform.deepseek.com/api/v0/users/get_user_summary"@ + rest),
        is_usage_url("//"@ + user + "platform.deepseek.com/api/v0/users/get_user_summary"@ + rest),
        is_usage_url(
            scheme + "://"@ + user + "platform.deepseek.com/api/v0/users/get_user_summary"@ + rest,
        ),
{
    lemma_below_written(scheme, user, "platform.deepseek.com/api/v0/usage/"@, rest);
    lemma_below_written(scheme, user, "platform.deepseek.com/api/v0/users/get_user_summary"@, rest);
}

proof fn lemma_below_written(
    scheme: Seq<char>,
    user: Seq<char>,
    place: Seq<char>,
    rest: Seq<char>,
)
    requires
        forall|i: int| 0 <= i < scheme.len() ==> in_part(#[trigger] scheme[i]),
        forall|i: int| 0 <= i < user.len() ==> in_part(#[trigger] user[i]),
    ensures
        is_below(user + place + rest, place),
        is_below("//"@ + user + place + rest, place),
        is_below(scheme + "://"@ + user + place + rest, place),
{
    reveal_strlit("//");
    reveal_strlit("://");
    let u = user + place + rest;
    let n = user.len() as int;
    assert(u.subrange(n, n + place.len()) =~= place);
    assert forall|i: int| 0 <= i < n implies in_part(#[trigger] u[i]) by {
        assert(u[i] == user[i]);
    }
    assert(authority_at(u, 0) && is_part(u, 0, n) && text::occurs_at(u, place, n));
    let v = "//"@ + user + place + rest;
    assert(v.subrange(0, 2) =~= "//"@);
    assert(v.subrange(n + 2, n + 2 + place.len()) =~= place);
    assert forall|i: int| 2 <= i < n + 2 implies in_part(#[trigger] v[i]) by {
        assert(v[i] == user[i - 2]);
    }
    assert(authority_at(v, 2) && is_part(v, 2, n + 2) && text::occurs_at(v, place, n + 2));
    let w = scheme + "://"@ + user + place + rest;
    let s = scheme.len() as int;
    assert(w.subrange(s, s + 3) =~= "://"@);
    assert(w.subrange(s + 3 + n, s + 3 + n + place.len()) =~= place);
    assert forall|i: int| 0 <= i < s implies in_part(#[trigger] w[i]) by {
        assert(w[i] == scheme[i]);
    }
    assert forall|i: int| s + 3 <= i < s + 3 + n implies in_part(#[trigger] w[i]) by {
        assert(w[i] == user[i - s - 3]);
    }
    assert(is_part(w, 0, s) && text::occurs_at(w, "://"@, s));
    assert(authority_at(w, s + 3) && is_part(w, s + 3, s + 3 + n) && text::occurs_at(
        w,
        place,
        s + 3 + n,
    ));
}

/// Where the part of a URL that begins at `a` ends.
fn part_end(u: &Vec<char>, a: usize) -> (r: usize)
    requires
        a <= u@.len(),
    ensures
        is_part(u@, a as int, r as int),
        r < u@.len() ==> !in_part(u@[r as int]),
{
    let mut i: usize = a;
    while i < u.len() && u[i] != '/' && u[i] != '?' && u[i] != '#'
        invariant
            a <= i <= u@.len(),
            is_part(u@, a as int, i as int),
        decreases u@.len() - i,
    {
        i = i + 1;
    }
    i
}

/// Whether the place stands in the authority that begins at `h`, or right behind it.
fn stands_in_part(u: &Vec<char>, place: &Vec<char>, h: usize) -> (r: bool)
    requires
        h <= u@.len(),
    ensures
        r == exists|f: int|
            is_part(u@, h as int, f) && #[trigger] text::occurs_at(u@, place@, f),
{
    let e: usize = part_end(u, h);
    let mut i: usize = h;
    while i < e
        invariant
            h <= i <= e,
            is_part(u@, h as int, e as int),
            forall|f: int| h <= f < i ==> !text::occurs_at(u@, place@, f),
        decreases e - i,
    {
        if stands_at(u, place, i) {
            assert(is_part(u@, h as int, i as int));
            return true;
        }
        i = i + 1;
    }
    let last: bool = stands_at(u, place, e);
    assert forall|f: int| is_part(u@, h as int, f) && text::occurs_at(u@, place@, f) implies f
        == e by {
        if f > e {
            assert(in_part(u@[e as int]));
        }
    }
    last
}

/// Whether a URL's host ends, and its path begins, like this.
fn below(u: &Vec<char>, place: &str) -> (r: bool)
    ensures
        r == is_below(u@, place@),
{
    let place: Vec<char> = chars_of(place);
    proof {
        reveal_strlit("//");
        reveal_strlit("://");
    }
    if stands_in_part(u, &place, 0) {
        let ghost f = choose|f: int|
            is_part(u@, 0, f) && #[trigger] text::occurs_at(u@, place@, f);
        assert(authority_at(u@, 0) && text::occurs_at(u@, place@, f));
        return true;
    }
    if stands_at(u, &chars_of("//"), 0) {
        if stands_in_part(u, &place, 2) {
            let ghost f = choose|f: int|
                is_part(u@, 2, f) && #[trigger] text::occurs_at(u@, place@, f);
            assert(authority_at(u@, 2) && text::occurs_at(u@, place@, f));
            return true;
        }
    }
    let e: usize = part_end(u, 0);
    let n: usize = u.len();
    if e >= 1 && stands_at(u, &chars_of("://"), e - 1) {
        assert(e + 2 <= n);
        if stands_in_part(u, &place, e + 2) {
            let ghost f = choose|f: int|
                is_part(u@, e + 2, f) && #[trigger] text::occurs_at(u@, place@, f);
            assert(is_part(u@, 0, e - 1));
            assert(authority_at(u@, e + 2) && text::occurs_at(u@, place@, f));
            return true;
        }
    }
    assert forall|h: int, f: int| #[trigger] authority_at(u@, h) && is_part(u@, h, f) implies !(
    #[trigger] text::occurs_at(u@, place@, f)) by {
        if h != 0 && !(h == 2 && text::occurs_at(u@, "//"@, 0)) {
            lemma_scheme_end(u@, h - 3, e as int);
        }
    }
    false
}

/// The part of a URL that ends in `:` before `//` is its first.
proof fn lemma_scheme_end(url: Seq<char>, s: int, e: int)
    requires
        is_part(url, 0, s),
        text::occurs_at(url, "://"@, s),
        is_part(url, 0, e),
        e < url.len() ==> !in_part(url[e]),
    ensures
        e == s + 1,
        url[s] == ':',
        url[s + 1] == '/',
        url[s + 2] == '/',
{
    reveal_strlit("://");
    let mark = url.subrange(s, s + 3);
    assert(mark[0] == url[s] && mark[1] == url[s + 1] && mark[2] == url[s + 2]);
    if e > s + 1 {
        assert(in_part(url[s + 1]));
    }
    if e < s {
        assert(in_part(url[e]));
    }
}

/// Whether a request may be sent again, by its host and its path. Only usage and the summary of
/// the account may be asked for again; to send a login or a request for a code by text message
/// again would have the message sent again.
pub fn is_replayable(url: &str) -> (r: bool)
    ensures
        r == is_usage_url(url@),
{
    let u: Vec<char> = chars_of(url);
    below(&u, "platform.deepseek.com/api/v0/usage/") || below(
        &u,
        "platform.deepseek.com/api/v0/users/get_user_summary",
    )
}

proof fn lemma_below_kept(url: Seq<char>, start: Ymd, end: Ymd, place: Seq<char>)
    requires
        kept::is_fixed(place),
        is_below(url, place),
    ensures
        is_below(rewrite::dates_moved(url, start, end), place),
{
    reveal_strlit("//");
    reveal_strlit("://");
    let u = rewrite::dates_moved(url, start, end);
    let ok = |c: char| in_part(c);
    let (h, f) = choose|h: int, f: int| #[trigger]
        authority_at(url, h) && is_part(url, h, f) && #[trigger] text::occurs_at(url, place, f);
    let lead = if h == 0 {
        Seq::<char>::empty()
    } else if h == 2 && text::occurs_at(url, "//"@, 0) {
        "//"@
    } else {
        "://"@
    };
    let j = h - lead.len();
    if h == 0 {
        assert(url.subrange(0, 0) =~= lead);
    }
    assert(h > 0 ==> kept::is_fixed(lead));
    assert forall|i: int| 0 <= i < j implies ok(#[trigger] url[i]) by {
        assert(in_part(url[i]));
    }
    assert forall|i: int| h <= i < f implies ok(#[trigger] url[i]) by {
        assert(in_part(url[i]));
    }
    let (x, y) = kept::law_texts_kept(url, start, end, lead, j, place, f, ok);
    assert forall|i: int| 0 <= i < x implies in_part(#[trigger] u[i]) by {
        assert(ok(u[i]));
    }
    assert forall|i: int| x + lead.len() <= i < y implies in_part(#[trigger] u[i]) by {
        assert(ok(u[i]));
    }
    assert(is_part(u, 0, x));
    assert(authority_at(u, x + lead.len()));
    assert(is_part(u, x + lead.len(), y));
    assert(text::occurs_at(u, place, y));
}

/// A request that may be sent again asks for the same when its dates have been moved: it
/// may still be sent.
pub proof fn law_replayable_kept(url: Seq<char>, start: Ymd, end: Ymd)
    requires
        is_usage_url(url),
    ensures
        is_usage_url(rewrite::dates_moved(url, start, end)),
{
    let a = "platform.deepseek.com/api/v0/usage/"@;
    let b = "platform.deepseek.com/api/v0/users/get_user_summary"@;
    reveal_strlit("platform.deepseek.com/api/v0/usage/");
    reveal_strlit("platform.deepseek.com/api/v0/users/get_user_summary");
    assert(kept::is_fixed(a));
    assert(kept::is_fixed(b));
    if is_below(url, a) {
        lemma_below_kept(url, start, end, a);
    } else {
        lemma_below_kept(url, start, end, b);
    }
}

/// A text without `?` that begins before a query stands before it, or not at all.
proof fn lemma_before_mark(u: Seq<char>, query: Seq<char>, p: Seq<char>, k: int)
    requires
        0 <= k <= u.len(),
        forall|i: int| 0 <= i < p.len() ==> #[trigger] p[i] != '?',
    ensures
        text::occurs_at(u + seq!['?'] + query, p, k) == text::occurs_at(u, p, k),
{
    let w = u + seq!['?'] + query;
    let n = p.len() as int;
    if text::occurs_at(w, p, k) {
        if k + n > u.len() {
            assert(w.subrange(k, k + n)[u.len() - k] == '?');
        }
        assert(w.subrange(k, k + n) =~= u.subrange(k, k + n));
    }
    if text::occurs_at(u, p, k) {
        assert(w.subrange(k, k + n) =~= u.subrange(k, k + n));
    }
}

/// A part of a URL that begins before a query stands before it.
proof fn lemma_part_before_mark(u: Seq<char>, query: Seq<char>, a: int, b: int)
    requires
        a <= u.len(),
    ensures
        is_part(u + seq!['?'] + query, a, b) == is_part(u, a, b),
{
    let w = u + seq!['?'] + query;
    if is_part(w, a, b) {
        if b > u.len() {
            assert(in_part(w[u.len() as int]));
        }
        assert forall|i: int| a <= i < b implies in_part(#[trigger] u[i]) by {
            assert(in_part(w[i]));
        }
    }
    if is_part(u, a, b) {
        assert forall|i: int| a <= i < b implies in_part(#[trigger] w[i]) by {
            assert(in_part(u[i]));
        }
    }
}

/// The authority begins before a query.
proof fn lemma_authority_before_mark(u: Seq<char>, query: Seq<char>, h: int)
    ensures
        authority_at(u + seq!['?'] + query, h) == authority_at(u, h),
        authority_at(u, h) ==> 0 <= h <= u.len(),
{
    let w = u + seq!['?'] + query;
    reveal_strlit("//");
    reveal_strlit("://");
    lemma_before_mark(u, query, "//"@, 0);
    lemma_part_before_mark(u, query, 0, h - 3);
    if is_part(u, 0, h - 3) {
        lemma_before_mark(u, query, "://"@, h - 3);
    }
}

proof fn lemma_below_query(u: Seq<char>, query: Seq<char>, place: Seq<char>)
    requires
        forall|i: int| 0 <= i < place.len() ==> #[trigger] place[i] != '?',
    ensures
        is_below(u + seq!['?'] + query, place) == is_below(u, place),
{
    let w = u + seq!['?'] + query;
    if is_below(w, place) {
        let (h, f) = choose|h: int, f: int| #[trigger]
            authority_at(w, h) && is_part(w, h, f) && #[trigger] text::occurs_at(w, place, f);
        lemma_authority_before_mark(u, query, h);
        lemma_part_before_mark(u, query, h, f);
        lemma_before_mark(u, query, place, f);
        assert(authority_at(u, h) && text::occurs_at(u, place, f));
    }
    if is_below(u, place) {
        let (h, f) = choose|h: int, f: int| #[trigger]
            authority_at(u, h) && is_part(u, h, f) && #[trigger] text::occurs_at(u, place, f);
        lemma_authority_before_mark(u, query, h);
        lemma_part_before_mark(u, query, h, f);
        lemma_before_mark(u, query, place, f);
        assert(authority_at(w, h) && text::occurs_at(w, place, f));
    }
}

/// Whatever a URL has in its query, whether it may be sent again is decided by what stands
/// before it.
pub proof fn law_query_decides_nothing(u: Seq<char>, query: Seq<char>)
    ensures
        is_usage_url(u + seq!['?'] + query) == is_usage_url(u),
{
    let a = "platform.deepseek.com/api/v0/usage/"@;
    let b = "platform.deepseek.com/api/v0/users/get_user_summary"@;
    reveal_strlit("platform.deepseek.com/api/v0/usage/");
    reveal_strlit("platform.deepseek.com/api/v0/users/get_user_summary");
    lemma_below_query(u, query, a);
    lemma_below_query(u, query, b);
}

/// Where a place stands that holds a host of `host` characters, none of them `:`, and a path.
spec fn is_place(place: Seq<char>, host: int) -> bool {
    &&& 0 < host < place.len()
    &&& place[host] == '/'
    &&& forall|i: int| 0 <= i < host ==> in_part(#[trigger] place[i]) && place[i] != ':'
}

proof fn lemma_below_at(url: Seq<char>, place: Seq<char>, host: int, s: int, e: int)
    requires
        is_place(place, host),
        is_part(url, 0, s),
        text::occurs_at(url, "://"@, s),
        s + 3 < e,
        is_part(url, s + 3, e),
        e < url.len() ==> !in_part(url[e]),
    ensures
        is_below(url, place) == (s + 3 <= e - host && text::occurs_at(url, place, e - host)),
{
    reveal_strlit("//");
    reveal_strlit("://");
    let mark = url.subrange(s, s + 3);
    assert(mark[0] == url[s] && mark[1] == url[s + 1] && mark[2] == url[s + 2]);
    if is_below(url, place) {
        let (h, f) = choose|h: int, f: int| #[trigger]
            authority_at(url, h) && is_part(url, h, f) && #[trigger] text::occurs_at(url, place, f);
        let v = url.subrange(f, f + place.len());
        assert forall|i: int| f <= i < f + host implies in_part(#[trigger] url[i]) && url[i]
            != ':' by {
            assert(v[i - f] == url[i]);
            assert(in_part(place[i - f]));
        }
        assert(v[host] == url[f + host]);
        if h == 2 && text::occurs_at(url, "//"@, 0) {
            assert(url.subrange(0, 2)[0] == url[0]);
            if s > 0 {
                assert(in_part(url[0]));
            }
        } else if h != 0 {
            assert(in_part(url[s + 3]));
            let other = url.subrange(h - 3, h);
            assert(other[0] == url[h - 3] && other[1] == url[h - 2]);
            if h - 3 < s {
                assert(h - 2 == s || in_part(url[h - 2]));
            } else if s < h - 3 {
                assert(s + 1 == h - 3 || in_part(url[s + 1]));
            }
            assert(h == s + 3);
            if f + host < e {
                assert(in_part(url[f + host]));
            } else if e < f + host {
                assert(in_part(url[e]));
            }
        } else {
            // The host would have to end where the scheme does, in `:`.
            if f + host <= s {
                assert(in_part(url[f + host]));
            } else if s + 1 < f + host {
                assert(in_part(url[s + 1]));
            } else {
                assert(url[s] != ':');
            }
        }
    }
    if s + 3 <= e - host && text::occurs_at(url, place, e - host) {
        assert(authority_at(url, s + 3));
        assert(is_part(url, s + 3, e - host));
        assert(is_below(url, place));
    }
}

/// Where a URL has a scheme, and its authority lies between `s + 3` and `e`, it may be sent
/// again if and only if the host at the end of the authority and the path behind it are those of
/// usage or of the summary.
pub proof fn law_host_and_path_decide(url: Seq<char>, s: int, e: int)
    requires
        is_part(url, 0, s),
        text::occurs_at(url, "://"@, s),
        s + 3 < e,
        is_part(url, s + 3, e),
        e < url.len() ==> !in_part(url[e]),
    ensures
        ({
            let f = e - "platform.deepseek.com"@.len();
            is_usage_url(url) <==> s + 3 <= f && (text::occurs_at(
                url,
                "platform.deepseek.com/api/v0/usage/"@,
                f,
            ) || text::occurs_at(url, "platform.deepseek.com/api/v0/users/get_user_summary"@, f))
        }),
{
    let a = "platform.deepseek.com/api/v0/usage/"@;
    let b = "platform.deepseek.com/api/v0/users/get_user_summary"@;
    reveal_strlit("platform.deepseek.com");
    reveal_strlit("platform.deepseek.com/api/v0/usage/");
    reveal_strlit("platform.deepseek.com/api/v0/users/get_user_summary");
    assert("platform.deepseek.com"@.len() == 21);
    assert(is_place(a, 21));
    assert(is_place(b, 21));
    lemma_below_at(url, a, 21, s, e);
    lemma_below_at(url, b, 21, s, e);
}

// ───────── by what a request is known ─────────

/// What stands behind the first `://`, or all where there is none.
pub open spec fn behind_scheme(u: Seq<char>) -> Seq<char> {
    if text::occurs(u, "://"@) {
        u.skip(first_at(u, "://"@) + "://"@.len())
    } else {
        u
    }
}

/// What stands before the first `?`, or all where there is none.
pub open spec fn before_query(u: Seq<char>) -> Seq<char> {
    if text::occurs(u, "?"@) {
        u.take(first_at(u, "?"@))
    } else {
        u
    }
}

/// Where `needle` stands first in `hay`.
#[verifier::opaque]
pub open spec fn first_at(hay: Seq<char>, needle: Seq<char>) -> int {
    choose|i: int|
        text::occurs_at(hay, needle, i) && forall|j: int|
            j < i ==> !text::occurs_at(hay, needle, j)
}

/// The path of a URL: what stands between the host and the query, `/` where that is nothing.
pub open spec fn path_of(url: Seq<char>) -> Seq<char> {
    let rest = before_query(behind_scheme(url));
    if text::occurs(rest, "/"@) {
        rest.skip(first_at(rest, "/"@))
    } else {
        "/"@
    }
}

proof fn lemma_first_at(hay: Seq<char>, needle: Seq<char>, i: int)
    requires
        text::occurs_at(hay, needle, i),
        forall|j: int| j < i ==> !text::occurs_at(hay, needle, j),
    ensures
        text::occurs(hay, needle),
        first_at(hay, needle) == i,
{
    reveal(first_at);
    let f = first_at(hay, needle);
    assert(!(f < i) && !(i < f));
}

proof fn lemma_has_first(hay: Seq<char>, needle: Seq<char>, i: int)
    requires
        text::occurs_at(hay, needle, i),
    ensures
        text::occurs_at(hay, needle, first_at(hay, needle)),
        forall|j: int| j < first_at(hay, needle) ==> !text::occurs_at(hay, needle, j),
    decreases i,
{
    if exists|j: int| j < i && text::occurs_at(hay, needle, j) {
        let j = choose|j: int| j < i && text::occurs_at(hay, needle, j);
        lemma_has_first(hay, needle, j);
    } else {
        lemma_first_at(hay, needle, i);
    }
}

/// What stands first in a text stands first in a longer one too.
proof fn lemma_first_kept(u: Seq<char>, rest: Seq<char>, needle: Seq<char>)
    requires
        text::occurs(u, needle),
    ensures
        text::occurs(u + rest, needle),
        first_at(u + rest, needle) == first_at(u, needle),
        0 <= first_at(u, needle),
        first_at(u, needle) + needle.len() <= u.len(),
{
    let w = u + rest;
    let n = needle.len() as int;
    let k = choose|k: int| text::occurs_at(u, needle, k);
    lemma_has_first(u, needle, k);
    let f = first_at(u, needle);
    assert(w.subrange(f, f + n) =~= u.subrange(f, f + n));
    assert forall|j: int| j < f implies !text::occurs_at(w, needle, j) by {
        if text::occurs_at(w, needle, j) {
            assert(w.subrange(j, j + n) =~= u.subrange(j, j + n));
            assert(text::occurs_at(u, needle, j));
        }
    }
    lemma_first_at(w, needle, f);
}

/// Before the first `?` stands what has none in it.
proof fn lemma_query_cut(a: Seq<char>, query: Seq<char>)
    requires
        forall|i: int| 0 <= i < a.len() ==> #[trigger] a[i] != '?',
    ensures
        before_query(a) == a,
        before_query(a + seq!['?'] + query) == a,
{
    let q = "?"@;
    reveal_strlit("?");
    assert(q =~= seq!['?']);
    let b = a + seq!['?'] + query;
    let n = a.len() as int;
    assert forall|j: int| j < n implies !text::occurs_at(b, q, j) by {
        if text::occurs_at(b, q, j) {
            assert(b.subrange(j, j + 1)[0] == a[j]);
        }
    }
    assert(b.subrange(n, n + 1) =~= q);
    lemma_first_at(b, q, n);
    assert(b.take(n) =~= a);
    assert(!text::occurs(a, q)) by {
        if text::occurs(a, q) {
            let j = choose|j: int| text::occurs_at(a, q, j);
            assert(a.subrange(j, j + 1)[0] == a[j]);
        }
    }
}

/// Requests that differ in nothing but their query, such as the days they ask for, have the
/// same path.
pub proof fn law_query_left_aside(u: Seq<char>, query: Seq<char>)
    requires
        text::occurs(u, "://"@),
        forall|i: int| 0 <= i < u.len() ==> #[trigger] u[i] != '?',
    ensures
        path_of(u + seq!['?'] + query) == path_of(u),
{
    let w = u + seq!['?'] + query;
    let rest = seq!['?'] + query;
    assert(w =~= u + rest);
    lemma_first_kept(u, rest, "://"@);
    let a = behind_scheme(u);
    assert(behind_scheme(w) =~= a + seq!['?'] + query);
    lemma_query_cut(a, query);
}

/// The path of a URL with a scheme is what stands behind the host and before the query.
pub proof fn law_path_behind_host(
    scheme: Seq<char>,
    host: Seq<char>,
    path: Seq<char>,
)
    requires
        forall|i: int| 0 <= i < scheme.len() ==> #[trigger] scheme[i] != ':',
        forall|i: int| 0 <= i < host.len() ==> in_part(#[trigger] host[i]),
        forall|i: int| 0 <= i < path.len() ==> #[trigger] path[i] != '?',
        path.len() > 0 ==> path[0] == '/',
    ensures
        path_of(scheme + "://"@ + host + path) == if path.len() > 0 {
            path
        } else {
            "/"@
        },
{
    reveal_strlit("://");
    reveal_strlit("?");
    reveal_strlit("/");
    let u = scheme + "://"@ + host + path;
    let n = scheme.len() as int;
    let rest = host + path;
    assert(u.subrange(n, n + 3) =~= "://"@);
    assert(text::occurs_at(u, "://"@, n));
    assert forall|j: int| j < n implies !text::occurs_at(u, "://"@, j) by {
        if text::occurs_at(u, "://"@, j) {
            assert(u.subrange(j, j + 3)[0] == u[j]);
            assert(u[j] == scheme[j]);
        }
    }
    lemma_first_at(u, "://"@, n);
    assert(behind_scheme(u) =~= rest);
    assert forall|j: int| !text::occurs_at(rest, "?"@, j) by {
        if text::occurs_at(rest, "?"@, j) {
            assert(rest.subrange(j, j + 1)[0] == rest[j]);
            if j < host.len() {
                assert(in_part(host[j]));
            } else {
                assert(path[j - host.len()] == rest[j]);
            }
        }
    }
    assert(before_query(rest) == rest);
    let k = host.len() as int;
    if path.len() > 0 {
        assert(rest.subrange(k, k + 1) =~= "/"@);
        assert(text::occurs_at(rest, "/"@, k));
    }
    assert forall|j: int| j < k implies !text::occurs_at(rest, "/"@, j) by {
        if text::occurs_at(rest, "/"@, j) {
            assert(rest.subrange(j, j + 1)[0] == rest[j]);
            assert(in_part(host[j]));
        }
    }
    if path.len() > 0 {
        lemma_first_at(rest, "/"@, k);
        assert(rest.skip(k) =~= path);
    } else {
        assert forall|j: int| !text::occurs_at(rest, "/"@, j) by {
            assert(rest.len() == k);
        }
    }
}

fn first_of(hay: &Vec<char>, needle: &str) -> (r: Option<usize>)
    ensures
        match r {
            Some(i) => text::occurs(hay@, needle@) && i == first_at(hay@, needle@) && i
                + needle@.len() <= hay@.len() <= usize::MAX,
            None => !text::occurs(hay@, needle@),
        },
{
    let r: Option<usize> = find(hay, needle);
    assert(hay.len() <= usize::MAX);
    if let Some(i) = r {
        proof {
            lemma_first_at(hay@, needle@, i as int);
        }
    }
    r
}

fn cut_scheme(u: &Vec<char>) -> (r: Vec<char>)
    ensures
        r@ == behind_scheme(u@),
{
    let n: usize = chars_of("://").len();
    match first_of(u, "://") {
        Some(i) => {
            let s: String = text_of(u, i + n, u.len());
            assert(s@ =~= u@.skip(i + n));
            chars_of(s.as_str())
        },
        None => {
            let s: String = text_of(u, 0, u.len());
            assert(s@ =~= u@);
            chars_of(s.as_str())
        },
    }
}

fn cut_query(u: &Vec<char>) -> (r: Vec<char>)
    ensures
        r@ == before_query(u@),
{
    match first_of(u, "?") {
        Some(i) => {
            let s: String = text_of(u, 0, i);
            assert(s@ =~= u@.take(i as int));
            chars_of(s.as_str())
        },
        None => {
            let s: String = text_of(u, 0, u.len());
            assert(s@ =~= u@);
            chars_of(s.as_str())
        },
    }
}

/// The path of a URL.
pub fn url_path(u: &str) -> (r: String)
    ensures
        r@ == path_of(u@),
{
    let rest: Vec<char> = cut_query(&cut_scheme(&chars_of(u)));
    match first_of(&rest, "/") {
        Some(i) => {
            let r: String = text_of(&rest, i, rest.len());
            assert(r@ =~= rest@.skip(i as int));
            r
        },
        None => "/".to_owned(),
    }
}

}
