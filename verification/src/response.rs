//! The response builder and serializer.  A response is configured by
//! pure steps, each yielding a new value, and serialized once in a
//! fixed, deterministic order.
use vstd::prelude::*;
use vstd::string::*;
use vstd::utf8::encode_utf8;
use crate::strmap::{
    StringMap, map_of, keys_sorted, lemma_sorted_implies_unique, lemma_map_of_entry,
    lemma_map_of_contains,
};
use crate::strutil::{dec_rep, u64_to_dec, lex_lt, lemma_lex_lt_trichotomy, lemma_lex_lt_trans, str_eq};
use crate::utils::{spec_status_text, get_status_text, canon_key, sanitize_header_key};

verus! {

/// A response under construction: status code, content type, body,
/// custom headers (canonical keys, kept sorted) and cookie lines.
#[derive(Debug)]
pub struct HttpResponse {
    pub status_code: u16,
    pub content_type: String,
    pub body: String,
    pub headers: StringMap,
    pub cookies: Vec<String>,
}

/// One serialized header line.
pub open spec fn spec_header_line(k: Seq<char>, v: Seq<char>) -> Seq<char> {
    k + ": "@ + v + "\r\n"@
}

/// The custom-header block, one line per entry in stored (sorted)
/// order.
pub open spec fn spec_header_block(es: Seq<(String, String)>) -> Seq<char>
    decreases es.len(),
{
    if es.len() == 0 {
        Seq::<char>::empty()
    } else {
        spec_header_line(es[0].0@, es[0].1@) + spec_header_block(es.skip(1))
    }
}

/// The cookie block, one `Set-Cookie` line per cookie in insertion
/// order.
pub open spec fn spec_cookie_block(cs: Seq<Seq<char>>) -> Seq<char>
    decreases cs.len(),
{
    if cs.len() == 0 {
        Seq::<char>::empty()
    } else {
        "Set-Cookie: "@ + cs[0] + "\r\n"@ + spec_cookie_block(cs.skip(1))
    }
}

/// The wire form of a response: status line, `Content-Type`,
/// `Content-Length` computed from the body's byte length, the custom
/// headers sorted by key, the cookies, a blank line, the body.
pub open spec fn spec_serialize(r: HttpResponse) -> Seq<char> {
    "HTTP/1.1 "@ + dec_rep(r.status_code as nat) + " "@ + spec_status_text(r.status_code)
        + "\r\n"@ + "Content-Type: "@ + r.content_type@ + "\r\n"@ + "Content-Length: "@
        + dec_rep((encode_utf8(r.body@).len() as usize) as nat) + "\r\n"@ + spec_header_block(r.headers.entries@)
        + spec_cookie_block(r.cookies.deep_view()) + "\r\n"@ + r.body@
}

/// One assembled cookie string, in the fixed attribute order.
pub open spec fn spec_cookie(
    key: Seq<char>,
    value: Seq<char>,
    samesite: Seq<char>,
    http_only: bool,
    secure: bool,
    max_age: Option<u32>,
    expires: Seq<char>,
) -> Seq<char> {
    key + "="@ + value + (if samesite == "Strict"@ || samesite == "Lax"@ || samesite == "None"@ {
        "; SameSite="@ + samesite
    } else {
        Seq::<char>::empty()
    }) + "; Max-Age="@ + dec_rep(
        match max_age {
            Some(n) => n as nat,
            None => 2592000,
        },
    ) + "; Expires="@ + expires + (if http_only {
        "; HttpOnly"@
    } else {
        Seq::<char>::empty()
    }) + (if secure {
        "; Secure"@
    } else {
        Seq::<char>::empty()
    })
}

proof fn lemma_header_block_push(es: Seq<(String, String)>, e: (String, String))
    ensures
        spec_header_block(es.push(e)) == spec_header_block(es) + spec_header_line(e.0@, e.1@),
    decreases es.len(),
{
    let p = es.push(e);
    if es.len() == 0 {
        assert(p[0] == e);
        assert(p.skip(1) =~= Seq::<(String, String)>::empty());
        assert(spec_header_block(p) == spec_header_line(e.0@, e.1@) + spec_header_block(
            p.skip(1),
        ));
        assert(Seq::<char>::empty() + spec_header_line(e.0@, e.1@) =~= spec_header_line(
            e.0@,
            e.1@,
        ));
        assert(spec_header_line(e.0@, e.1@) + Seq::<char>::empty() =~= spec_header_line(
            e.0@,
            e.1@,
        ));
    } else {
        assert(p[0] == es[0]);
        assert(p.skip(1) =~= es.skip(1).push(e));
        lemma_header_block_push(es.skip(1), e);
        assert(spec_header_line(es[0].0@, es[0].1@) + (spec_header_block(es.skip(1))
            + spec_header_line(e.0@, e.1@)) =~= (spec_header_line(es[0].0@, es[0].1@)
            + spec_header_block(es.skip(1))) + spec_header_line(e.0@, e.1@));
    }
}

proof fn lemma_cookie_block_push(cs: Seq<Seq<char>>, c: Seq<char>)
    ensures
        spec_cookie_block(cs.push(c)) == spec_cookie_block(cs) + ("Set-Cookie: "@ + c + "\r\n"@),
    decreases cs.len(),
{
    let p = cs.push(c);
    let line = "Set-Cookie: "@ + c + "\r\n"@;
    if cs.len() == 0 {
        assert(p[0] == c);
        assert(p.skip(1) =~= Seq::<Seq<char>>::empty());
        assert(spec_cookie_block(p) == line + spec_cookie_block(p.skip(1)));
        assert(line + Seq::<char>::empty() =~= line);
        assert(Seq::<char>::empty() + line =~= line);
    } else {
        assert(p[0] == cs[0]);
        assert(p.skip(1) =~= cs.skip(1).push(c));
        lemma_cookie_block_push(cs.skip(1), c);
        let line0 = "Set-Cookie: "@ + cs[0] + "\r\n"@;
        assert(line0 + (spec_cookie_block(cs.skip(1)) + line) =~= (line0 + spec_cookie_block(
            cs.skip(1),
        )) + line);
    }
}

impl HttpResponse {
    /// The builder invariant: the header entries are sorted by key.
    pub open spec fn wf(&self) -> bool {
        keys_sorted(self.headers.entries@)
    }

    /// A fresh response with the given status, `text/plain` content
    /// type, no body, no headers and no cookies.
    pub fn new(status_code: u16) -> (r: HttpResponse)
        ensures
            r.status_code == status_code,
            r.content_type@ == "text/plain"@,
            r.body@ == Seq::<char>::empty(),
            r.headers@ == Map::<Seq<char>, Seq<char>>::empty(),
            r.headers.entries@.len() == 0,
            r.cookies@.len() == 0,
            r.wf(),
    {
        HttpResponse {
            status_code,
            content_type: String::from_str("text/plain"),
            body: String::new(),
            headers: StringMap::new(),
            cookies: Vec::new(),
        }
    }

    /// Serializes the response to its wire text.
    #[verifier::rlimit(100)]
    pub fn to_string(&self) -> (r: String)
        requires
            self.wf(),
        ensures
            r@ == spec_serialize(*self),
    {
        let mut out = String::new();
        out.append("HTTP/1.1 ");
        let code = u64_to_dec(self.status_code as u64);
        out.append(code.as_str());
        out.append(" ");
        out.append(get_status_text(self.status_code));
        out.append("\r\n");
        out.append("Content-Type: ");
        out.append(self.content_type.as_str());
        out.append("\r\n");
        out.append("Content-Length: ");
        let blen = u64_to_dec(self.body.as_str().len() as u64);
        out.append(blen.as_str());
        out.append("\r\n");
        let ghost pre = out@;
        let ghost es = self.headers.entries@;
        let mut i: usize = 0;
        proof {
            assert(es.take(0) =~= Seq::<(String, String)>::empty());
            assert(pre + Seq::<char>::empty() =~= pre);
        }
        while i < self.headers.entries.len()
            invariant
                i <= es.len(),
                es == self.headers.entries@,
                out@ == pre + spec_header_block(es.take(i as int)),
            decreases es.len() - i,
        {
            out.append(self.headers.entries[i].0.as_str());
            out.append(": ");
            out.append(self.headers.entries[i].1.as_str());
            out.append("\r\n");
            proof {
                assert(es.take(i + 1) =~= es.take(i as int).push(es[i as int]));
                lemma_header_block_push(es.take(i as int), es[i as int]);
                assert(out@ =~= pre + spec_header_block(es.take(i + 1)));
            }
            i += 1;
        }
        proof {
            assert(es.take(es.len() as int) =~= es);
        }
        let ghost pre2 = out@;
        let ghost cs = self.cookies.deep_view();
        let mut k: usize = 0;
        proof {
            assert(cs.take(0) =~= Seq::<Seq<char>>::empty());
            assert(pre2 + Seq::<char>::empty() =~= pre2);
        }
        while k < self.cookies.len()
            invariant
                k <= cs.len(),
                cs == self.cookies.deep_view(),
                cs.len() == self.cookies@.len(),
                out@ == pre2 + spec_cookie_block(cs.take(k as int)),
            decreases cs.len() - k,
        {
            out.append("Set-Cookie: ");
            out.append(self.cookies[k].as_str());
            out.append("\r\n");
            proof {
                assert(self.cookies@[k as int]@ == cs[k as int]);
                assert(cs.take(k + 1) =~= cs.take(k as int).push(cs[k as int]));
                lemma_cookie_block_push(cs.take(k as int), cs[k as int]);
                assert(out@ =~= pre2 + spec_cookie_block(cs.take(k + 1)));
            }
            k += 1;
        }
        proof {
            assert(cs.take(cs.len() as int) =~= cs);
        }
        out.append("\r\n");
        out.append(self.body.as_str());
        proof {
            assert(out@ =~= spec_serialize(*self));
        }
        out
    }

    /// Decides at run time whether the header entries are sorted, so
    /// that unverified callers can check the serializer's premise.
    pub fn is_well_formed(&self) -> (r: bool)
        ensures
            r == self.wf(),
    {
        let n = self.headers.entries.len();
        if n == 0 {
            return true;
        }
        let mut i: usize = 0;
        while i < n - 1
            invariant
                n >= 1,
                i <= n - 1,
                n == self.headers.entries@.len(),
                forall|j: int| 0 <= j < i ==> lex_lt(
                    (#[trigger] self.headers.entries@[j]).0@,
                    self.headers.entries@[j + 1].0@,
                ),
            decreases n - i,
        {
            let a = crate::strutil::to_chars(self.headers.entries[i].0.as_str());
            let b = crate::strutil::to_chars(self.headers.entries[i + 1].0.as_str());
            if !crate::strutil::chars_lt(&a, &b) {
                proof {
                    assert(!lex_lt(
                        self.headers.entries@[i as int].0@,
                        self.headers.entries@[i + 1].0@,
                    ));
                }
                return false;
            }
            i += 1;
        }
        proof {
            assert forall|a: int, b: int|
                0 <= a < b < n implies lex_lt(
                (#[trigger] self.headers.entries@[a]).0@,
                (#[trigger] self.headers.entries@[b]).0@,
            ) by {
                lemma_adjacent_sorted(self.headers.entries@, a, b);
            }
        }
        true
    }

    /// Sets a custom header under its canonical key.  A caller-supplied
    /// `Content-Length` is ignored: that header is always computed from
    /// the body.
    pub fn with_header(self, key: &str, value: &str) -> (r: HttpResponse)
        requires
            self.wf(),
        ensures
            r.wf(),
            r.headers@ == if canon_key(key@) == "Content-Length"@ {
                self.headers@
            } else {
                self.headers@.insert(canon_key(key@), value@)
            },
            r.status_code == self.status_code,
            r.content_type == self.content_type,
            r.body == self.body,
            r.cookies == self.cookies,
    {
        let mut new_response = self;
        let ck = sanitize_header_key(key);
        if !str_eq(ck.as_str(), "Content-Length") {
            new_response.headers.insert_sorted(ck, String::from_str(value));
        }
        new_response
    }

    /// Sets a custom header; same rule as `with_header`.
    pub fn header(self, key: &str, value: &str) -> (r: HttpResponse)
        requires
            self.wf(),
        ensures
            r.wf(),
            r.headers@ == if canon_key(key@) == "Content-Length"@ {
                self.headers@
            } else {
                self.headers@.insert(canon_key(key@), value@)
            },
            r.status_code == self.status_code,
            r.content_type == self.content_type,
            r.body == self.body,
            r.cookies == self.cookies,
    {
        self.with_header(key, value)
    }
}

/// The headers after a batch insert, skipping any caller-supplied
/// `Content-Length`.
pub open spec fn spec_add_headers<'a, 'b>(
    m: Map<Seq<char>, Seq<char>>,
    hs: Seq<(&'a str, &'b str)>,
) -> Map<Seq<char>, Seq<char>>
    decreases hs.len(),
{
    if hs.len() == 0 {
        m
    } else {
        let p = spec_add_headers(m, hs.drop_last());
        if canon_key(hs.last().0@) == "Content-Length"@ {
            p
        } else {
            p.insert(canon_key(hs.last().0@), hs.last().1@)
        }
    }
}

/// A response fresh out of a constructor: only the status is set.
pub open spec fn is_fresh(r: HttpResponse, code: u16) -> bool {
    r.status_code == code && r.content_type@ == "text/plain"@ && r.body@ == Seq::<char>::empty()
        && r.headers@ == Map::<Seq<char>, Seq<char>>::empty() && r.headers.entries@.len() == 0
        && r.cookies@.len() == 0 && r.wf()
}

/// Relies on std's `SystemTime` and chrono's `from_timestamp`,
/// `checked_add_signed`, `TimeDelta::days` and `format`: the moment
/// thirty days from now, rendered as an RFC-1123 date.  Nothing is
/// assumed about the text, which depends on the clock.  A clock before
/// the epoch or outside chrono's range falls back to the epoch, so no
/// reading panics.
#[verifier::external_body]
fn default_expiry() -> String {
    let secs = std::time::SystemTime::now()
        .duration_since(std::time::UNIX_EPOCH)
        .map_or(0, |d| d.as_secs() as i64);
    let now = chrono::DateTime::<chrono::Utc>::from_timestamp(secs, 0)
        .unwrap_or(chrono::DateTime::UNIX_EPOCH);
    let at = now.checked_add_signed(chrono::Duration::days(30)).unwrap_or(now);
    at.format("%a, %d %b %Y %H:%M:%S GMT").to_string()
}

impl HttpResponse {
    /// Sets several custom headers at once, each under its canonical
    /// key, with the same `Content-Length` rule as `with_header`.
    pub fn with_headers(self, headers: Vec<(&str, &str)>) -> (r: HttpResponse)
        requires
            self.wf(),
        ensures
            r.wf(),
            r.headers@ == spec_add_headers(self.headers@, headers@),
            r.status_code == self.status_code,
            r.content_type == self.content_type,
            r.body == self.body,
            r.cookies == self.cookies,
    {
        let ghost m0 = self.headers@;
        let ghost hs = headers@;
        let mut out = self;
        let mut i: usize = 0;
        proof {
            assert(hs.take(0) =~= Seq::<(&str, &str)>::empty());
        }
        while i < headers.len()
            invariant
                i <= hs.len(),
                hs == headers@,
                out.wf(),
                out.headers@ == spec_add_headers(m0, hs.take(i as int)),
                out.status_code == self.status_code,
                out.content_type == self.content_type,
                out.body == self.body,
                out.cookies == self.cookies,
            decreases hs.len() - i,
        {
            let (k, v) = headers[i];
            proof {
                assert(hs.take(i + 1).drop_last() =~= hs.take(i as int));
                assert(hs.take(i + 1).last() == hs[i as int]);
            }
            out = out.with_header(k, v);
            i += 1;
        }
        proof {
            assert(hs.take(hs.len() as int) =~= hs);
        }
        out
    }

    /// Sets several custom headers at once; same rule as
    /// `with_headers`.
    pub fn headers(self, headers: Vec<(&str, &str)>) -> (r: HttpResponse)
        requires
            self.wf(),
        ensures
            r.wf(),
            r.headers@ == spec_add_headers(self.headers@, headers@),
            r.status_code == self.status_code,
            r.content_type == self.content_type,
            r.body == self.body,
            r.cookies == self.cookies,
    {
        self.with_headers(headers)
    }

    /// Replaces the body.
    pub fn with_body(self, body: &str) -> (r: HttpResponse)
        ensures
            r.body@ == body@,
            r.status_code == self.status_code,
            r.content_type == self.content_type,
            r.headers == self.headers,
            r.cookies == self.cookies,
    {
        let mut new_response = self;
        new_response.body = String::from_str(body);
        new_response
    }

    /// Replaces the body.
    pub fn body(self, body: &str) -> (r: HttpResponse)
        ensures
            r.body@ == body@,
            r.status_code == self.status_code,
            r.content_type == self.content_type,
            r.headers == self.headers,
            r.cookies == self.cookies,
    {
        self.with_body(body)
    }

    /// Replaces the content type.
    pub fn with_content_type(self, content_type: &str) -> (r: HttpResponse)
        ensures
            r.content_type@ == content_type@,
            r.status_code == self.status_code,
            r.body == self.body,
            r.headers == self.headers,
            r.cookies == self.cookies,
    {
        let mut new_response = self;
        new_response.content_type = String::from_str(content_type);
        new_response
    }

    /// Replaces the content type.
    pub fn content_type(self, content_type: &str) -> (r: HttpResponse)
        ensures
            r.content_type@ == content_type@,
            r.status_code == self.status_code,
            r.body == self.body,
            r.headers == self.headers,
            r.cookies == self.cookies,
    {
        self.with_content_type(content_type)
    }

    /// Replaces the status code.
    pub fn with_status(self, status_code: u16) -> (r: HttpResponse)
        ensures
            r.status_code == status_code,
            r.content_type == self.content_type,
            r.body == self.body,
            r.headers == self.headers,
            r.cookies == self.cookies,
    {
        let mut new_response = self;
        new_response.status_code = status_code;
        new_response
    }

    /// Replaces the status code.
    pub fn status(self, status_code: u16) -> (r: HttpResponse)
        ensures
            r.status_code == status_code,
            r.content_type == self.content_type,
            r.body == self.body,
            r.headers == self.headers,
            r.cookies == self.cookies,
    {
        self.with_status(status_code)
    }

    /// A plain-text body.
    pub fn text(self, body: &str) -> (r: HttpResponse)
        ensures
            r.content_type@ == "text/plain"@,
            r.body@ == body@,
            r.status_code == self.status_code,
            r.headers == self.headers,
            r.cookies == self.cookies,
    {
        let mut new_response = self;
        new_response.content_type = String::from_str("text/plain");
        new_response.body = String::from_str(body);
        new_response
    }

    /// An HTML body.
    pub fn html(self, body: &str) -> (r: HttpResponse)
        ensures
            r.content_type@ == "text/html"@,
            r.body@ == body@,
            r.status_code == self.status_code,
            r.headers == self.headers,
            r.cookies == self.cookies,
    {
        let mut new_response = self;
        new_response.content_type = String::from_str("text/html");
        new_response.body = String::from_str(body);
        new_response
    }

    /// A `302 Found` redirect to `url`.
    pub fn redirect(self, url: &str) -> (r: HttpResponse)
        requires
            self.wf(),
        ensures
            r.wf(),
            r.status_code == 302,
            r.headers@ == self.headers@.insert("Location"@, url@),
            r.content_type == self.content_type,
            r.body == self.body,
            r.cookies == self.cookies,
    {
        let mut new_response = self;
        new_response.status_code = 302;
        new_response.headers.insert_sorted(String::from_str("Location"), String::from_str(url));
        new_response
    }

    /// Appends one pre-assembled cookie line.
    pub fn with_cookie(self, cookie: &str) -> (r: HttpResponse)
        ensures
            r.cookies.deep_view() == self.cookies.deep_view().push(cookie@),
            r.status_code == self.status_code,
            r.content_type == self.content_type,
            r.body == self.body,
            r.headers == self.headers,
    {
        let mut new_response = self;
        let ghost cs0 = new_response.cookies.deep_view();
        new_response.cookies.push(String::from_str(cookie));
        proof {
            assert(new_response.cookies.deep_view() =~= cs0.push(cookie@));
        }
        new_response
    }

    /// Appends several pre-assembled cookie lines.
    pub fn with_cookies(self, cookies: Vec<&str>) -> (r: HttpResponse)
        ensures
            r.cookies.deep_view() == self.cookies.deep_view() + cookies@.map(
                |i: int, s: &str| s@,
            ),
            r.status_code == self.status_code,
            r.content_type == self.content_type,
            r.body == self.body,
            r.headers == self.headers,
    {
        let ghost base = self.cookies.deep_view();
        let ghost cviews = cookies@.map(|i: int, s: &str| s@);
        let mut out = self;
        let mut i: usize = 0;
        proof {
            assert(base + cviews.take(0) =~= base);
        }
        while i < cookies.len()
            invariant
                i <= cookies@.len(),
                cviews == cookies@.map(|i: int, s: &str| s@),
                cviews.len() == cookies@.len(),
                out.cookies.deep_view() == base + cviews.take(i as int),
                out.status_code == self.status_code,
                out.content_type == self.content_type,
                out.body == self.body,
                out.headers == self.headers,
            decreases cookies@.len() - i,
        {
            let ghost cs0 = out.cookies.deep_view();
            out.cookies.push(String::from_str(cookies[i]));
            i += 1;
            proof {
                assert(out.cookies.deep_view() =~= cs0.push(cviews[i - 1]));
                assert((base + cviews.take(i - 1)).push(cviews[i - 1]) =~= base + cviews.take(
                    i as int,
                ));
            }
        }
        proof {
            assert(cviews.take(cviews.len() as int) =~= cviews);
        }
        out
    }

    /// Assembles and appends a cookie.  The attributes appear in a
    /// fixed order; `SameSite` only for the three literal values;
    /// `Max-Age` and `Expires` default to thirty days when not given.
    pub fn set_cookie(
        self,
        key: &str,
        value: &str,
        samesite: &str,
        http_only: bool,
        secure: bool,
        max_age: Option<u32>,
        expires: Option<&str>,
    ) -> (r: HttpResponse)
        ensures
            r.status_code == self.status_code,
            r.content_type == self.content_type,
            r.body == self.body,
            r.headers == self.headers,
            match expires {
                Some(e) => r.cookies.deep_view() == self.cookies.deep_view().push(
                    spec_cookie(key@, value@, samesite@, http_only, secure, max_age, e@),
                ),
                None => exists|d: Seq<char>|
                    r.cookies.deep_view() == self.cookies.deep_view().push(
                        #[trigger] spec_cookie(
                            key@,
                            value@,
                            samesite@,
                            http_only,
                            secure,
                            max_age,
                            d,
                        ),
                    ),
            },
    {
        let mut new_response = self;
        let mut c = String::new();
        c.append(key);
        c.append("=");
        c.append(value);
        if str_eq(samesite, "Strict") || str_eq(samesite, "Lax") || str_eq(samesite, "None") {
            c.append("; SameSite=");
            c.append(samesite);
        }
        c.append("; Max-Age=");
        let ma = match max_age {
            Some(n) => u64_to_dec(n as u64),
            None => u64_to_dec(2592000),
        };
        c.append(ma.as_str());
        c.append("; Expires=");
        let ghost mut expiry_text: Seq<char> = Seq::<char>::empty();
        match expires {
            Some(e) => {
                c.append(e);
                proof {
                    expiry_text = e@;
                }
            },
            None => {
                let d = default_expiry();
                c.append(d.as_str());
                proof {
                    expiry_text = d@;
                }
            },
        }
        if http_only {
            c.append("; HttpOnly");
        }
        if secure {
            c.append("; Secure");
        }
        proof {
            assert(c@ =~= spec_cookie(
                key@,
                value@,
                samesite@,
                http_only,
                secure,
                max_age,
                expiry_text,
            ));
        }
        let ghost cs0 = new_response.cookies.deep_view();
        new_response.cookies.push(c);
        proof {
            assert(new_response.cookies.deep_view() =~= cs0.push(
                spec_cookie(key@, value@, samesite@, http_only, secure, max_age, expiry_text),
            ));
        }
        new_response
    }

    /// `200 OK`.
    pub fn ok() -> (r: HttpResponse)
        ensures
            is_fresh(r, 200),
    {
        Self::new(200)
    }

    /// `201 Created`.
    pub fn created() -> (r: HttpResponse)
        ensures
            is_fresh(r, 201),
    {
        Self::new(201)
    }

    /// `404 Not Found`.
    pub fn not_found() -> (r: HttpResponse)
        ensures
            is_fresh(r, 404),
    {
        Self::new(404)
    }

    /// `400 Bad Request`.
    pub fn bad_request() -> (r: HttpResponse)
        ensures
            is_fresh(r, 400),
    {
        Self::new(400)
    }

    /// `401 Unauthorized`.
    pub fn unauthorized() -> (r: HttpResponse)
        ensures
            is_fresh(r, 401),
    {
        Self::new(401)
    }

    /// `403 Forbidden`.
    pub fn forbidden() -> (r: HttpResponse)
        ensures
            is_fresh(r, 403),
    {
        Self::new(403)
    }

    /// `405 Method Not Allowed`.
    pub fn method_not_allowed() -> (r: HttpResponse)
        ensures
            is_fresh(r, 405),
    {
        Self::new(405)
    }

    /// `500 Internal Server Error`.
    pub fn internal_server_error() -> (r: HttpResponse)
        ensures
            is_fresh(r, 500),
    {
        Self::new(500)
    }

    /// `502 Bad Gateway`.
    pub fn bad_gateway() -> (r: HttpResponse)
        ensures
            is_fresh(r, 502),
    {
        Self::new(502)
    }

    /// `413 Payload Too Large`.
    pub fn request_entity_too_large() -> (r: HttpResponse)
        ensures
            is_fresh(r, 413),
    {
        Self::new(413)
    }
}

proof fn lemma_header_block_views(es1: Seq<(String, String)>, es2: Seq<(String, String)>)
    requires
        es1.len() == es2.len(),
        forall|i: int|
            0 <= i < es1.len() ==> (#[trigger] es1[i]).0@ == es2[i].0@ && es1[i].1@ == es2[i].1@,
    ensures
        spec_header_block(es1) == spec_header_block(es2),
    decreases es1.len(),
{
    if es1.len() > 0 {
        assert forall|i: int|
            0 <= i < es1.skip(1).len() implies (#[trigger] es1.skip(1)[i]).0@ == es2.skip(1)[i].0@
            && es1.skip(1)[i].1@ == es2.skip(1)[i].1@ by {
            assert(es1[i + 1].0@ == es2[i + 1].0@ && es1[i + 1].1@ == es2[i + 1].1@);
        }
        lemma_header_block_views(es1.skip(1), es2.skip(1));
    }
}

/// Two sorted entry sequences denoting the same mapping agree entry by
/// entry (up to the string views).
pub proof fn lemma_sorted_entries_agree(es1: Seq<(String, String)>, es2: Seq<(String, String)>)
    requires
        keys_sorted(es1),
        keys_sorted(es2),
        map_of(es1) == map_of(es2),
    ensures
        es1.len() == es2.len(),
        forall|i: int|
            0 <= i < es1.len() ==> (#[trigger] es1[i]).0@ == es2[i].0@ && es1[i].1@ == es2[i].1@,
    decreases es1.len(),
{
    lemma_sorted_implies_unique(es1);
    lemma_sorted_implies_unique(es2);
    if es1.len() == 0 {
        if es2.len() > 0 {
            lemma_map_of_entry(es2, es2.len() - 1);
            assert(map_of(es1).contains_key(es2.last().0@));
            assert(false);
        }
    } else if es2.len() == 0 {
        lemma_map_of_entry(es1, es1.len() - 1);
        assert(map_of(es2).contains_key(es1.last().0@));
        assert(false);
    } else {
        let k1 = es1.last().0@;
        let k2 = es2.last().0@;
        lemma_map_of_entry(es1, es1.len() - 1);
        lemma_map_of_entry(es2, es2.len() - 1);
        if k1 != k2 {
            lemma_map_of_contains(es2, k1);
            let i = choose|i: int| 0 <= i < es2.len() && #[trigger] es2[i].0@ == k1;
            assert(i < es2.len() - 1);
            assert(lex_lt(es2[i].0@, k2));
            lemma_map_of_contains(es1, k2);
            let j = choose|j: int| 0 <= j < es1.len() && #[trigger] es1[j].0@ == k2;
            assert(j < es1.len() - 1);
            assert(lex_lt(es1[j].0@, k1));
            lemma_lex_lt_trichotomy(k1, k2);
            assert(false);
        }
        // the closing entries agree; peel them off and recurse
        assert(es1.last().1@ == map_of(es1)[k1]);
        assert(es2.last().1@ == map_of(es2)[k1]);
        let dl1 = es1.drop_last();
        let dl2 = es2.drop_last();
        if map_of(dl1).contains_key(k1) {
            lemma_map_of_contains(dl1, k1);
            let i = choose|i: int| 0 <= i < dl1.len() && #[trigger] dl1[i].0@ == k1;
            assert(es1[i].0@ == es1[es1.len() - 1].0@);
            assert(false);
        }
        if map_of(dl2).contains_key(k2) {
            lemma_map_of_contains(dl2, k2);
            let i = choose|i: int| 0 <= i < dl2.len() && #[trigger] dl2[i].0@ == k2;
            assert(es2[i].0@ == es2[es2.len() - 1].0@);
            assert(false);
        }
        assert(map_of(dl1) =~= map_of(es1).remove(k1));
        assert(map_of(dl2) =~= map_of(es2).remove(k2));
        assert forall|a: int, b: int| 0 <= a < b < dl1.len() implies lex_lt(
            (#[trigger] dl1[a]).0@,
            (#[trigger] dl1[b]).0@,
        ) by {
            assert(lex_lt(es1[a].0@, es1[b].0@));
        }
        assert forall|a: int, b: int| 0 <= a < b < dl2.len() implies lex_lt(
            (#[trigger] dl2[a]).0@,
            (#[trigger] dl2[b]).0@,
        ) by {
            assert(lex_lt(es2[a].0@, es2[b].0@));
        }
        lemma_sorted_entries_agree(dl1, dl2);
        assert forall|i: int|
            0 <= i < es1.len() implies (#[trigger] es1[i]).0@ == es2[i].0@ && es1[i].1@
            == es2[i].1@ by {
            if i < es1.len() - 1 {
                assert(dl1[i].0@ == dl2[i].0@ && dl1[i].1@ == dl2[i].1@);
            }
        }
    }
}

/// Serialization is deterministic: responses that agree on status,
/// content type, body, header mapping and cookie text serialize to
/// identical wire text, whatever order their headers were added in.
pub proof fn lemma_serialize_deterministic(a: HttpResponse, b: HttpResponse)
    requires
        a.wf(),
        b.wf(),
        a.status_code == b.status_code,
        a.content_type@ == b.content_type@,
        a.body@ == b.body@,
        a.headers@ == b.headers@,
        a.cookies.deep_view() == b.cookies.deep_view(),
    ensures
        spec_serialize(a) == spec_serialize(b),
{
    lemma_sorted_entries_agree(a.headers.entries@, b.headers.entries@);
    lemma_header_block_views(a.headers.entries@, b.headers.entries@);
}

proof fn lemma_adjacent_sorted(es: Seq<(String, String)>, a: int, b: int)
    requires
        forall|j: int| 0 <= j < es.len() - 1 ==> lex_lt(
            (#[trigger] es[j]).0@,
            es[j + 1].0@,
        ),
        0 <= a < b < es.len(),
    ensures
        lex_lt(es[a].0@, es[b].0@),
    decreases b - a,
{
    if b == a + 1 {
        assert(lex_lt(es[a].0@, es[a + 1].0@));
    } else {
        lemma_adjacent_sorted(es, a, b - 1);
        assert(lex_lt(es[b - 1].0@, es[b].0@));
        lemma_lex_lt_trans(es[a].0@, es[b - 1].0@, es[b].0@);
    }
}

} // verus!
