//! The request parser: turns raw request bytes (or already-read lines)
//! into a structured `Request`, classifying every failure.
use vstd::prelude::*;
use vstd::utf8::{valid_utf8, decode_utf8, encode_utf8};
use crate::common::{
    HttpMethod, Version, spec_method_from_str, spec_version_from_str, RoutePath,
};
use crate::strmap::StringMap;
use crate::strutil::{
    split_ws, split_ws_exec, split_seq, trim_spec, trim_chars, lower_chars, lower_chars_exec,
    to_chars, chars_to_string, parse_dec, parse_usize, is_ws_byte, is_ws,
};

verus! {

/// How reading a request can fail; every lower-level failure is
/// classified into exactly one of these.
#[derive(Debug, Clone, Copy, PartialEq, Eq, Structural)]
pub enum RequestError {
    ReadError,
    InvalidRequest,
    RequestTooLarge,
    ConnectionClosed,
    ConnectionTimedOut,
    ParseError,
}

/// A transport-level failure as the connection reader saw it; the
/// embedding program converts its I/O error kinds into this shape.
#[derive(Debug, Clone, Copy, PartialEq, Eq, Structural)]
pub enum IoFailure {
    UnexpectedEof,
    TimedOut,
    ConnectionReset,
    ConnectionAborted,
    BrokenPipe,
    Other,
}

/// The classification of transport failures: end-of-stream and peer
/// disconnections count as a closed connection, a timeout stays a
/// timeout, anything else is a read error.
pub open spec fn spec_classify_io_failure(f: IoFailure) -> RequestError {
    match f {
        IoFailure::UnexpectedEof => RequestError::ConnectionClosed,
        IoFailure::TimedOut => RequestError::ConnectionTimedOut,
        IoFailure::ConnectionReset => RequestError::ConnectionClosed,
        IoFailure::ConnectionAborted => RequestError::ConnectionClosed,
        IoFailure::BrokenPipe => RequestError::ConnectionClosed,
        IoFailure::Other => RequestError::ReadError,
    }
}

/// Maps a transport failure to the request error it stands for.
pub fn classify_io_failure(f: IoFailure) -> (r: RequestError)
    ensures
        r == spec_classify_io_failure(f),
{
    match f {
        IoFailure::UnexpectedEof => RequestError::ConnectionClosed,
        IoFailure::TimedOut => RequestError::ConnectionTimedOut,
        IoFailure::ConnectionReset => RequestError::ConnectionClosed,
        IoFailure::ConnectionAborted => RequestError::ConnectionClosed,
        IoFailure::BrokenPipe => RequestError::ConnectionClosed,
        IoFailure::Other => RequestError::ReadError,
    }
}

/// The index of the first occurrence of `c` in `s`, or `-1`.
pub open spec fn find_char(s: Seq<char>, c: char) -> int
    decreases s.len(),
{
    if s.len() == 0 {
        -1
    } else if s[0] == c {
        0
    } else if find_char(s.skip(1), c) < 0 {
        -1
    } else {
        1 + find_char(s.skip(1), c)
    }
}

pub proof fn lemma_find_char_props(s: Seq<char>, c: char)
    ensures
        find_char(s, c) >= 0 ==> find_char(s, c) < s.len() && s[find_char(s, c)] == c
            && (forall|j: int| 0 <= j < find_char(s, c) ==> s[j] != c),
        find_char(s, c) < 0 ==> forall|j: int| 0 <= j < s.len() ==> s[j] != c,
    decreases s.len(),
{
    if s.len() > 0 && s[0] != c {
        lemma_find_char_props(s.skip(1), c);
        assert forall|j: int| 1 <= j < s.len() implies s.skip(1)[j - 1] == s[j] by {}
    }
}

fn find_char_exec(v: &Vec<char>, c: char) -> (r: Option<usize>)
    ensures
        match r {
            Some(i) => i < v@.len() && find_char(v@, c) == i as int,
            None => find_char(v@, c) < 0,
        },
{
    let mut i: usize = 0;
    proof {
        assert(v@.skip(0) =~= v@);
    }
    while i < v.len()
        invariant
            i <= v@.len(),
            forall|j: int| 0 <= j < i ==> v@[j] != c,
            find_char(v@, c) == if find_char(v@.skip(i as int), c) < 0 {
                -1int
            } else {
                i + find_char(v@.skip(i as int), c)
            },
        decreases v@.len() - i,
    {
        let ghost s = v@.skip(i as int);
        proof {
            assert(s[0] == v@[i as int]);
            assert(s.skip(1) =~= v@.skip(i + 1));
        }
        if v[i] == c {
            return Some(i);
        }
        i += 1;
    }
    proof {
        assert(v@.skip(i as int).len() == 0);
    }
    None
}

/// Splitting the request line on whitespace must give exactly a method
/// token, a target, and a version label.
pub open spec fn spec_parse_request_line(line: Seq<char>) -> Result<
    (HttpMethod, Seq<char>, Version),
    RequestError,
> {
    let toks = split_ws(line);
    if toks.len() != 3 {
        Err(RequestError::ParseError)
    } else if spec_method_from_str(toks[0]) is None {
        Err(RequestError::ParseError)
    } else if spec_version_from_str(toks[2]) is None {
        Err(RequestError::InvalidRequest)
    } else {
        Ok((spec_method_from_str(toks[0]).unwrap(), toks[1], spec_version_from_str(
            toks[2],
        ).unwrap()))
    }
}

/// The `(key, value)` denoted by one header line: the line is split at
/// its first `:`, the key is trimmed and lowercased, the value trimmed;
/// a line without a colon denotes nothing.
pub open spec fn spec_header_entry(l: Seq<char>) -> Option<(Seq<char>, Seq<char>)> {
    let i = find_char(l, ':');
    if i < 0 {
        None
    } else {
        Some((lower_chars(trim_spec(l.take(i))), trim_spec(l.skip(i + 1))))
    }
}

/// The header mapping of a sequence of header lines; a later line for
/// the same key overrides an earlier one.
pub open spec fn spec_parse_headers(ls: Seq<Seq<char>>) -> Map<Seq<char>, Seq<char>>
    decreases ls.len(),
{
    if ls.len() == 0 {
        Map::empty()
    } else {
        let m = spec_parse_headers(ls.drop_last());
        match spec_header_entry(ls.last()) {
            Some(kv) => m.insert(kv.0, kv.1),
            None => m,
        }
    }
}

/// Parses one request line into method, raw target and version.
pub fn parse_request_line(line: &str) -> (r: Result<(HttpMethod, String, Version), RequestError>)
    ensures
        match r {
            Ok(t) => spec_parse_request_line(line@) == Ok::<_, RequestError>(
                (t.0, t.1@, t.2),
            ),
            Err(e) => spec_parse_request_line(line@) == Err::<(HttpMethod, Seq<char>, Version), _>(
                e,
            ),
        },
{
    let chars = to_chars(line);
    let toks = split_ws_exec(&chars);
    if toks.len() != 3 {
        return Err(RequestError::ParseError);
    }
    proof {
        assert(toks@[0]@ == split_ws(line@)[0]);
        assert(toks@[1]@ == split_ws(line@)[1]);
        assert(toks@[2]@ == split_ws(line@)[2]);
    }
    let m_str = chars_to_string(&toks[0]);
    let method = match HttpMethod::from_str(m_str.as_str()) {
        Some(m) => m,
        None => {
            return Err(RequestError::ParseError);
        },
    };
    let v_str = chars_to_string(&toks[2]);
    let version = match Version::from_str(v_str.as_str()) {
        Ok(v) => v,
        Err(_) => {
            return Err(RequestError::InvalidRequest);
        },
    };
    let path = chars_to_string(&toks[1]);
    Ok((method, path, version))
}

/// Parses one request line, or nothing when any component is invalid.
pub fn parse_req_line(req_line: &str) -> (r: Option<(HttpMethod, String, Version)>)
    ensures
        match r {
            Some(t) => spec_parse_request_line(req_line@) == Ok::<_, RequestError>(
                (t.0, t.1@, t.2),
            ),
            None => spec_parse_request_line(req_line@) is Err,
        },
{
    match parse_request_line(req_line) {
        Ok(t) => Some(t),
        Err(_) => None,
    }
}

/// Parses header lines into a lowercased-key mapping; lines without a
/// colon are skipped, a later duplicate key wins.
pub fn parse_headers(lines: &Vec<String>) -> (r: StringMap)
    ensures
        r@ == spec_parse_headers(lines.deep_view()),
        r.wf(),
{
    let ghost lds = lines.deep_view();
    let mut headers = StringMap::new();
    let mut i: usize = 0;
    proof {
        assert(lds.take(0) =~= Seq::<Seq<char>>::empty());
    }
    while i < lines.len()
        invariant
            i <= lines@.len(),
            lds == lines.deep_view(),
            lds.len() == lines@.len(),
            headers@ == spec_parse_headers(lds.take(i as int)),
            headers.wf(),
        decreases lines@.len() - i,
    {
        let chars = to_chars(lines[i].as_str());
        proof {
            assert(chars@ == lds[i as int]);
            assert(lds.take(i + 1).drop_last() =~= lds.take(i as int));
            assert(lds.take(i + 1).last() == lds[i as int]);
        }
        match find_char_exec(&chars, ':') {
            Some(p) => {
                let cn = chars.len();
                proof {
                    assert(p < cn);
                }
                let mut keypart: Vec<char> = Vec::new();
                let mut k: usize = 0;
                while k < p
                    invariant
                        k <= p,
                        p < chars@.len(),
                        keypart@ == chars@.subrange(0, k as int),
                    decreases p - k,
                {
                    keypart.push(chars[k]);
                    k += 1;
                    proof {
                        assert(keypart@ =~= chars@.subrange(0, k as int));
                    }
                }
                let mut valpart: Vec<char> = Vec::new();
                let mut v: usize = p + 1;
                while v < chars.len()
                    invariant
                        p + 1 <= v <= chars@.len(),
                        valpart@ == chars@.subrange(p + 1, v as int),
                    decreases chars@.len() - v,
                {
                    valpart.push(chars[v]);
                    v += 1;
                    proof {
                        assert(valpart@ =~= chars@.subrange(p + 1, v as int));
                    }
                }
                proof {
                    assert(keypart@ =~= chars@.take(p as int));
                    assert(valpart@ =~= chars@.skip(p + 1));
                }
                let key = lower_chars_exec(&trim_chars(&keypart));
                let value = trim_chars(&valpart);
                headers.insert(chars_to_string(&key), chars_to_string(&value));
            },
            None => {},
        }
        i += 1;
    }
    proof {
        assert(lds.take(lds.len() as int) =~= lds);
    }
    headers
}

/// The number a `content-length` value reads as: a digit string, with
/// one optional leading `+` accepted.
pub open spec fn spec_cl_value(s: Seq<char>) -> Option<nat> {
    if s.len() > 0 && s[0] == '+' {
        parse_dec(s.skip(1))
    } else {
        parse_dec(s)
    }
}

/// The body length announced by the headers: the `content-length`
/// value when it reads as an integer that fits the machine, else 0.
pub open spec fn spec_content_length(h: Map<Seq<char>, Seq<char>>) -> nat {
    if h.contains_key("content-length"@) {
        match spec_cl_value(h["content-length"@]) {
            Some(n) => if n <= usize::MAX as nat {
                n
            } else {
                0
            },
            None => 0,
        }
    } else {
        0
    }
}

/// Reads the announced body length out of a header map.
pub fn content_length_of(headers: &StringMap) -> (r: usize)
    requires
        headers.wf(),
    ensures
        r as nat == spec_content_length(headers@),
{
    match headers.get("content-length") {
        Some(v) => {
            let chars = to_chars(v.as_str());
            let digits = if chars.len() > 0 && chars[0] == '+' {
                let mut d: Vec<char> = Vec::new();
                let mut i: usize = 1;
                while i < chars.len()
                    invariant
                        1 <= i <= chars@.len(),
                        d@ == chars@.subrange(1, i as int),
                    decreases chars@.len() - i,
                {
                    d.push(chars[i]);
                    i += 1;
                    proof {
                        assert(d@ =~= chars@.subrange(1, i as int));
                    }
                }
                proof {
                    assert(d@ =~= chars@.skip(1));
                }
                d
            } else {
                chars
            };
            match parse_usize(&digits) {
                Some(n) => n,
                None => 0,
            }
        },
        None => 0,
    }
}

/// True when every byte of the line is whitespace: the form a blank
/// separator line takes on the wire.
pub open spec fn is_blank_bytes(t: Seq<u8>) -> bool {
    forall|i: int| 0 <= i < t.len() ==> is_ws_byte(#[trigger] t[i])
}

fn all_ws_bytes(t: &Vec<u8>) -> (r: bool)
    ensures
        r == is_blank_bytes(t@),
{
    let mut i: usize = 0;
    while i < t.len()
        invariant
            i <= t@.len(),
            forall|j: int| 0 <= j < i ==> is_ws_byte(#[trigger] t@[j]),
        decreases t@.len() - i,
    {
        let b = t[i];
        if !(b == 32 || b == 9 || b == 13 || b == 10) {
            return false;
        }
        i += 1;
    }
    true
}

/// The index of the first blank line among the tokens, or their count.
pub open spec fn blank_idx(ts: Seq<Seq<u8>>) -> int
    decreases ts.len(),
{
    if ts.len() == 0 {
        0
    } else if is_blank_bytes(ts[0]) {
        0
    } else {
        1 + blank_idx(ts.skip(1))
    }
}

proof fn lemma_blank_idx_char(ts: Seq<Seq<u8>>, j: int)
    requires
        0 <= j <= ts.len(),
        forall|i: int| 0 <= i < j ==> !is_blank_bytes(#[trigger] ts[i]),
        j < ts.len() ==> is_blank_bytes(ts[j]),
    ensures
        blank_idx(ts) == j,
    decreases ts.len(),
{
    if ts.len() > 0 && j > 0 {
        assert(!is_blank_bytes(ts[0]));
        lemma_blank_idx_char(ts.skip(1), j - 1);
    }
}

/// The byte count of the tokens, each with its line terminator.
pub open spec fn sum_len(ts: Seq<Seq<u8>>) -> int
    decreases ts.len(),
{
    if ts.len() == 0 {
        0
    } else {
        ts[0].len() + 1 + sum_len(ts.skip(1))
    }
}

proof fn lemma_sum_len_nonneg(ts: Seq<Seq<u8>>)
    ensures
        sum_len(ts) >= 0,
    decreases ts.len(),
{
    if ts.len() > 0 {
        lemma_sum_len_nonneg(ts.skip(1));
    }
}

proof fn lemma_sum_len_cat(a: Seq<Seq<u8>>, b: Seq<Seq<u8>>)
    ensures
        sum_len(a + b) == sum_len(a) + sum_len(b),
    decreases a.len(),
{
    if a.len() == 0 {
        assert(a + b =~= b);
    } else {
        assert((a + b)[0] == a[0]);
        assert((a + b).skip(1) =~= a.skip(1) + b);
        lemma_sum_len_cat(a.skip(1), b);
    }
}

proof fn lemma_sum_len_push(ts: Seq<Seq<u8>>, t: Seq<u8>)
    ensures
        sum_len(ts.push(t)) == sum_len(ts) + t.len() + 1,
{
    assert(ts.push(t) =~= ts + seq![t]);
    lemma_sum_len_cat(ts, seq![t]);
    assert(seq![t].skip(1) =~= Seq::<Seq<u8>>::empty());
    assert(sum_len(Seq::<Seq<u8>>::empty()) == 0);
    assert(sum_len(seq![t]) == t.len() + 1 + sum_len(seq![t].skip(1)));
}

/// Splitting `s` at `sep` accounts for every byte: the tokens plus one
/// separator each cover the input and one extra.
proof fn lemma_split_sum(s: Seq<u8>, sep: u8)
    ensures
        sum_len(crate::strutil::split_seq(s, sep)) == s.len() + 1,
    decreases s.len(),
{
    let ts = crate::strutil::split_seq(s, sep);
    crate::strutil::lemma_split_seq_len(s, sep);
    if s.len() == 0 {
        assert(ts[0].len() == 0);
        assert(ts.skip(1) =~= Seq::<Seq<u8>>::empty());
        assert(sum_len(Seq::<Seq<u8>>::empty()) == 0);
        assert(sum_len(ts) == ts[0].len() + 1 + sum_len(ts.skip(1)));
    } else if s[0] == sep {
        let rest = crate::strutil::split_seq(s.skip(1), sep);
        lemma_split_sum(s.skip(1), sep);
        assert(ts == seq![Seq::<u8>::empty()] + rest);
        assert(ts[0].len() == 0);
        assert(ts.skip(1) =~= rest);
        assert(sum_len(ts) == ts[0].len() + 1 + sum_len(ts.skip(1)));
    } else {
        let rest = crate::strutil::split_seq(s.skip(1), sep);
        lemma_split_sum(s.skip(1), sep);
        crate::strutil::lemma_split_seq_len(s.skip(1), sep);
        assert(ts == seq![seq![s[0]] + rest[0]] + rest.skip(1));
        assert(ts[0] =~= seq![s[0]] + rest[0]);
        assert(ts.skip(1) =~= rest.skip(1));
        assert(sum_len(rest) == rest[0].len() + 1 + sum_len(rest.skip(1)));
        assert(sum_len(ts) == ts[0].len() + 1 + sum_len(ts.skip(1)));
    }
}

/// The tokens of the raw input split at every line feed.
pub open spec fn spec_tokens(data: Seq<u8>) -> Seq<Seq<u8>> {
    crate::strutil::split_seq(data, 10)
}

/// How many leading tokens belong to the head: everything before the
/// first blank line.
pub open spec fn spec_head_count(data: Seq<u8>) -> int {
    blank_idx(spec_tokens(data))
}

/// The raw head lines of the input.
pub open spec fn spec_head_lines(data: Seq<u8>) -> Seq<Seq<u8>> {
    spec_tokens(data).take(spec_head_count(data))
}

/// The byte budget the head consumed, terminators included.
pub open spec fn spec_head_size(data: Seq<u8>) -> int {
    sum_len(spec_head_lines(data))
}

/// Where the body starts: right after the blank line, or past the end
/// when no blank line ever came.
pub open spec fn spec_body_off(data: Seq<u8>) -> int {
    let ts = spec_tokens(data);
    let hc = spec_head_count(data);
    if hc == ts.len() {
        data.len() as int
    } else {
        spec_head_size(data) + ts[hc].len() + 1
    }
}

/// The target split at its first `?` into path and raw query string.
pub open spec fn spec_extract_query(u: Seq<char>) -> (Seq<char>, Seq<char>) {
    let q = find_char(u, '?');
    if q < 0 {
        (u, Seq::<char>::empty())
    } else {
        (u.take(q), u.skip(q + 1))
    }
}

/// The `(key, value)` of one query pair: split at the first `=`; a
/// pair without `=` maps the whole pair to the empty value.
pub open spec fn spec_query_entry(p: Seq<char>) -> (Seq<char>, Seq<char>) {
    let e = find_char(p, '=');
    if e < 0 {
        (p, Seq::<char>::empty())
    } else {
        (p.take(e), p.skip(e + 1))
    }
}

pub open spec fn spec_query_fold(ps: Seq<Seq<char>>) -> Map<Seq<char>, Seq<char>>
    decreases ps.len(),
{
    if ps.len() == 0 {
        Map::empty()
    } else {
        spec_query_fold(ps.drop_last()).insert(
            spec_query_entry(ps.last()).0,
            spec_query_entry(ps.last()).1,
        )
    }
}

/// The query mapping of a raw query string: pairs split on `&`, each
/// pair split at its first `=`; a later duplicate key wins.
pub open spec fn spec_parse_query(q: Seq<char>) -> Map<Seq<char>, Seq<char>> {
    spec_query_fold(split_seq(q, '&'))
}

/// The mathematical shape of a parsed request.
pub struct ReqView {
    pub method: HttpMethod,
    pub path: Seq<char>,
    pub version: Version,
    pub headers: Map<Seq<char>, Seq<char>>,
    pub body: Seq<char>,
    pub params: Map<Seq<char>, Seq<char>>,
    pub query: Map<Seq<char>, Seq<char>>,
}

/// A parsed request.  `path` is the part of the target before `?`;
/// header keys are stored lowercased; `params` is populated only at
/// route-resolution time and is empty after parsing.
#[derive(Debug)]
pub struct Request {
    pub method: HttpMethod,
    pub path: RoutePath,
    pub version: Version,
    pub headers: StringMap,
    pub body: String,
    pub params: StringMap,
    pub query: StringMap,
}

impl View for Request {
    type V = ReqView;

    open spec fn view(&self) -> ReqView {
        ReqView {
            method: self.method,
            path: self.path@,
            version: self.version,
            headers: self.headers@,
            body: self.body@,
            params: self.params@,
            query: self.query@,
        }
    }
}

/// The head of a request: everything before the body.
pub struct RequestHead {
    pub method: HttpMethod,
    pub path: String,
    pub version: Version,
    pub headers: StringMap,
}

/// Parsing the head lines: the first line is the request line, the
/// rest are header lines.
pub open spec fn spec_parse_head(lines: Seq<Seq<char>>) -> Result<
    (HttpMethod, Seq<char>, Version, Map<Seq<char>, Seq<char>>),
    RequestError,
> {
    match spec_parse_request_line(lines[0]) {
        Err(e) => Err(e),
        Ok(t) => Ok((t.0, t.1, t.2, spec_parse_headers(lines.skip(1)))),
    }
}

/// The request assembled from its parsed head and decoded body.
pub open spec fn spec_finish(
    m: HttpMethod,
    rawpath: Seq<char>,
    v: Version,
    headers: Map<Seq<char>, Seq<char>>,
    body: Seq<char>,
) -> ReqView {
    let pq = spec_extract_query(rawpath);
    ReqView {
        method: m,
        path: pq.0,
        version: v,
        headers: headers,
        body: body,
        params: Map::empty(),
        query: spec_parse_query(pq.1),
    }
}

/// What reading a whole in-memory request yields: lines are cut at
/// line feeds up to the first blank line; they must decode as UTF-8
/// (else `ReadError`); no line at all is a closed connection; a head
/// over the 10 MiB budget is rejected; then the request line and the
/// headers are parsed, and exactly `content-length` body bytes must be
/// present (else `ConnectionClosed`) and decode as UTF-8 (else
/// `ParseError`).
pub open spec fn spec_read(data: Seq<u8>) -> Result<ReqView, RequestError> {
    let ts = spec_tokens(data);
    let hc = spec_head_count(data);
    let raw = ts.take(hc);
    if !(forall|i: int| 0 <= i < hc ==> valid_utf8(#[trigger] raw[i])) {
        Err(RequestError::ReadError)
    } else if hc == 0 {
        Err(RequestError::ConnectionClosed)
    } else if spec_head_size(data) > 10485760 {
        Err(RequestError::RequestTooLarge)
    } else {
        let lines = raw.map(|i: int, t: Seq<u8>| decode_utf8(t));
        match spec_parse_head(lines) {
            Err(e) => Err(e),
            Ok(h) => {
                let cl = spec_content_length(h.3);
                let off = spec_body_off(data);
                if cl == 0 {
                    Ok(spec_finish(h.0, h.1, h.2, h.3, Seq::<char>::empty()))
                } else if data.len() < off + cl {
                    Err(RequestError::ConnectionClosed)
                } else if !valid_utf8(data.subrange(off, off + cl)) {
                    Err(RequestError::ParseError)
                } else {
                    Ok(spec_finish(h.0, h.1, h.2, h.3, decode_utf8(data.subrange(off, off + cl))))
                }
            },
        }
    }
}

/// Relies on `String::from_utf8`: it succeeds exactly on the byte
/// strings that are valid UTF-8 and yields the characters they encode,
/// as `vstd`'s `valid_utf8` and `decode_utf8` state them.
#[verifier::external_body]
fn utf8_to_string(v: Vec<u8>) -> (r: Option<String>)
    ensures
        r is Some <==> valid_utf8(v@),
        r is Some ==> r.unwrap()@ == decode_utf8(v@),
{
    match String::from_utf8(v) {
        Ok(s) => Some(s),
        Err(_) => None,
    }
}

proof fn lemma_blank_idx_nonneg(ts: Seq<Seq<u8>>)
    ensures
        0 <= blank_idx(ts) <= ts.len(),
    decreases ts.len(),
{
    if ts.len() > 0 && !is_blank_bytes(ts[0]) {
        lemma_blank_idx_nonneg(ts.skip(1));
    }
}

proof fn lemma_blank_idx_lb(ts: Seq<Seq<u8>>, j: int)
    requires
        0 <= j < ts.len(),
        forall|i: int| 0 <= i <= j ==> !is_blank_bytes(#[trigger] ts[i]),
    ensures
        blank_idx(ts) > j,
    decreases j,
{
    lemma_blank_idx_nonneg(ts.skip(1));
    if j > 0 {
        lemma_blank_idx_lb(ts.skip(1), j - 1);
    }
}

/// `x` cut off just above the head budget; enough to compare against
/// the budget without tracking unbounded sums at run time.
spec fn capped(x: int) -> int {
    if x > 10485761 {
        10485761
    } else {
        x
    }
}

impl Request {
    /// Reads a whole in-memory request: head lines up to the first
    /// blank line, then exactly the announced number of body bytes.
    #[verifier::loop_isolation(false)]
    pub fn read(data: &[u8]) -> (r: Result<Request, RequestError>)
        ensures
            match r {
                Ok(req) => spec_read(data@) == Ok::<ReqView, RequestError>(req@) && req.wf(),
                Err(e) => spec_read(data@) == Err::<ReqView, RequestError>(e),
            },
    {
        let tokens = crate::strutil::split_bytes(data, 10);
        let ghost toks = tokens.deep_view();
        let ghost hc = blank_idx(toks);
        proof {
            lemma_split_sum(data@, 10);
            crate::strutil::lemma_split_seq_len(data@, 10);
            lemma_blank_idx_nonneg(toks);
            assert(toks.take(0) =~= Seq::<Seq<u8>>::empty());
        }
        let n = tokens.len();
        let dn = data.len();
        let mut lines: Vec<String> = Vec::new();
        let mut j: usize = 0;
        let mut head_bytes: usize = 0;
        let mut blank_found: bool = false;
        while j < n && !blank_found
            invariant
                j <= n,
                blank_found ==> j < n && hc == j,
                n == toks.len(),
                dn == data@.len(),
                tokens.deep_view() == toks,
                tokens@.len() == n,
                toks == spec_tokens(data@),
                hc == blank_idx(toks),
                forall|i: int| 0 <= i < j ==> !is_blank_bytes(#[trigger] toks[i]),
                forall|i: int| 0 <= i < j ==> valid_utf8(#[trigger] toks[i]),
                lines@.len() == j,
                forall|i: int| 0 <= i < j ==> lines.deep_view()[i] == decode_utf8(
                    #[trigger] toks[i],
                ),
                head_bytes as int == capped(sum_len(toks.take(j as int))),
            decreases n - j + (if blank_found { 0int } else { 1int }),
        {
            let ghost tj = toks[j as int];
            proof {
                assert(tokens@[j as int]@ == tj);
            }
            if all_ws_bytes(&tokens[j]) {
                blank_found = true;
                proof {
                    lemma_blank_idx_char(toks, j as int);
                }
                continue ;
            }
            let tl = tokens[j].len();
            proof {
                assert(toks.take(j + 1) =~= toks.take(j as int).push(tj));
                lemma_sum_len_push(toks.take(j as int), tj);
                lemma_sum_len_nonneg(toks.take(j as int));
            }
            if head_bytes < 10485761 {
                let room = 10485761 - head_bytes;
                if tl >= room {
                    head_bytes = 10485761;
                } else {
                    head_bytes = head_bytes + tl + 1;
                }
            }
            let mut lb: Vec<u8> = Vec::new();
            let mut k: usize = 0;
            while k < tl
                invariant
                    k <= tl,
                    tl == tj.len(),
                    j < n,
                    n == tokens@.len(),
                    tokens@[j as int]@ == tj,
                    lb@ == tj.subrange(0, k as int),
                decreases tl - k,
            {
                lb.push(tokens[j][k]);
                k += 1;
                proof {
                    assert(lb@ =~= tj.subrange(0, k as int));
                }
            }
            proof {
                assert(lb@ =~= tj);
            }
            match utf8_to_string(lb) {
                Some(s) => {
                    lines.push(s);
                },
                None => {
                    proof {
                        if j + 1 < n {
                            lemma_blank_idx_lb(toks, j as int);
                        } else {
                            lemma_blank_idx_char(toks, n as int);
                        }
                        assert(hc > j);
                        assert(toks.take(hc)[j as int] == tj);
                        assert(!valid_utf8(spec_tokens(data@).take(spec_head_count(data@)).index(
                            j as int,
                        )));
                    }
                    return Err(RequestError::ReadError);
                },
            }
            j += 1;
        }
        proof {
            if !blank_found {
                lemma_blank_idx_char(toks, n as int);
            }
            assert(blank_found ==> hc == j);
            assert(!blank_found ==> hc == n && j == n);
        }
        if lines.len() == 0 {
            proof {
                assert(j == 0);
                assert(hc == 0);
            }
            return Err(RequestError::ConnectionClosed);
        }
        proof {
            assert(hc == j);
            assert(spec_head_lines(data@) == toks.take(j as int));
            assert(spec_head_size(data@) == sum_len(toks.take(j as int)));
            lemma_sum_len_nonneg(toks.take(j as int));
        }
        if head_bytes > 10485760 {
            return Err(RequestError::RequestTooLarge);
        }
        let ghost linespec = toks.take(hc).map(|i: int, t: Seq<u8>| decode_utf8(t));
        proof {
            assert(lines.deep_view() =~= linespec);
        }
        let head = match Request::parse_head(&lines) {
            Ok(h) => h,
            Err(e) => {
                return Err(e);
            },
        };
        let cl = content_length_of(&head.headers);
        let mut avail: usize = 0;
        let mut off: usize = 0;
        if blank_found {
            let bl = tokens[j].len();
            proof {
                assert(tokens@[j as int]@ == toks[j as int]);
                assert(toks.take(j as int) + toks.skip(j as int) =~= toks);
                lemma_sum_len_cat(toks.take(j as int), toks.skip(j as int));
                assert(toks.skip(j as int)[0] == toks[j as int]);
                assert(toks.skip(j as int).skip(1) =~= toks.skip(j + 1));
                lemma_sum_len_nonneg(toks.skip(j + 1));
                assert(sum_len(toks.skip(j as int)) == toks[j as int].len() + 1 + sum_len(
                    toks.skip(j + 1),
                ));
                assert(head_bytes + bl + 1 <= dn + 1);
            }
            let base = head_bytes + bl;
            if base >= dn {
                off = dn;
                avail = 0;
                proof {
                    assert(spec_body_off(data@) == dn + 1);
                }
            } else {
                off = base + 1;
                avail = dn - off;
                proof {
                    assert(spec_body_off(data@) == off as int);
                }
            }
        } else {
            off = dn;
            avail = 0;
            proof {
                assert(spec_body_off(data@) == dn as int);
            }
        }
        proof {
            assert(avail > 0 ==> spec_body_off(data@) == off as int && off + avail == dn);
            assert(avail == 0 ==> spec_body_off(data@) >= dn as int);
        }
        if cl == 0 {
            let body = String::new();
            proof {
                assert(body@ =~= Seq::<char>::empty());
            }
            let req = Request::assemble(head, body);
            return Ok(req);
        }
        if avail < cl {
            return Err(RequestError::ConnectionClosed);
        }
        let mut bb: Vec<u8> = Vec::new();
        let mut k: usize = 0;
        while k < cl
            invariant
                k <= cl,
                off + cl <= dn,
                dn == data@.len(),
                bb@ == data@.subrange(off as int, off + k),
            decreases cl - k,
        {
            bb.push(data[off + k]);
            k += 1;
            proof {
                assert(bb@ =~= data@.subrange(off as int, off + k));
            }
        }
        match utf8_to_string(bb) {
            Some(body) => {
                let req = Request::assemble(head, body);
                Ok(req)
            },
            None => Err(RequestError::ParseError),
        }
    }


    /// Parses the head lines of a request: request line first, header
    /// lines after it.
    pub fn parse_head(lines: &Vec<String>) -> (r: Result<RequestHead, RequestError>)
        requires
            lines@.len() >= 1,
        ensures
            match r {
                Ok(h) => spec_parse_head(lines.deep_view()) == Ok::<_, RequestError>(
                    (h.method, h.path@, h.version, h.headers@),
                ) && h.headers.wf(),
                Err(e) => spec_parse_head(lines.deep_view()) == Err::<
                    (HttpMethod, Seq<char>, Version, Map<Seq<char>, Seq<char>>),
                    _,
                >(e),
            },
    {
        let (method, path, version) = match parse_request_line(lines[0].as_str()) {
            Ok(t) => t,
            Err(e) => {
                return Err(e);
            },
        };
        let mut tail: Vec<String> = Vec::new();
        let mut i: usize = 1;
        while i < lines.len()
            invariant
                1 <= i <= lines@.len(),
                tail@.len() == i - 1,
                forall|j: int| 0 <= j < i - 1 ==> tail@[j]@ == lines.deep_view()[j + 1],
            decreases lines@.len() - i,
        {
            tail.push(lines[i].clone());
            i += 1;
        }
        proof {
            assert(tail.deep_view() =~= lines.deep_view().skip(1));
        }
        let headers = parse_headers(&tail);
        Ok(RequestHead { method, path, version, headers })
    }

    /// Splits the raw target at its first `?`.
    pub fn extract_query(url: &str) -> (r: (String, String))
        ensures
            r.0@ == spec_extract_query(url@).0,
            r.1@ == spec_extract_query(url@).1,
    {
        let chars = to_chars(url);
        match find_char_exec(&chars, '?') {
            Some(q) => {
                let cn = chars.len();
                proof {
                    assert(q < cn);
                }
                let mut p: Vec<char> = Vec::new();
                let mut i: usize = 0;
                while i < q
                    invariant
                        i <= q,
                        q < chars@.len(),
                        p@ == chars@.subrange(0, i as int),
                    decreases q - i,
                {
                    p.push(chars[i]);
                    i += 1;
                    proof {
                        assert(p@ =~= chars@.subrange(0, i as int));
                    }
                }
                let mut rq: Vec<char> = Vec::new();
                let mut k: usize = q + 1;
                while k < chars.len()
                    invariant
                        q + 1 <= k <= chars@.len(),
                        rq@ == chars@.subrange(q + 1, k as int),
                    decreases chars@.len() - k,
                {
                    rq.push(chars[k]);
                    k += 1;
                    proof {
                        assert(rq@ =~= chars@.subrange(q + 1, k as int));
                    }
                }
                proof {
                    assert(p@ =~= chars@.take(q as int));
                    assert(rq@ =~= chars@.skip(q + 1));
                }
                (chars_to_string(&p), chars_to_string(&rq))
            },
            None => {
                let empty: Vec<char> = Vec::new();
                proof {
                    assert(empty@ =~= Seq::<char>::empty());
                }
                (chars_to_string(&to_chars(url)), chars_to_string(&empty))
            },
        }
    }

    /// Parses a raw query string into its mapping.
    pub fn parse_query(url: &str) -> (r: StringMap)
        ensures
            r@ == spec_parse_query(url@),
            r.wf(),
    {
        let chars = to_chars(url);
        let pairs = crate::strutil::split_chars(&chars, '&');
        let ghost ps = split_seq(url@, '&');
        let mut m = StringMap::new();
        let mut i: usize = 0;
        proof {
            assert(ps.take(0) =~= Seq::<Seq<char>>::empty());
        }
        while i < pairs.len()
            invariant
                i <= pairs@.len(),
                pairs.deep_view() == ps,
                pairs@.len() == ps.len(),
                m@ == spec_query_fold(ps.take(i as int)),
                m.wf(),
            decreases pairs@.len() - i,
        {
            let pair = &pairs[i];
            proof {
                assert(pair@ == ps[i as int]);
                assert(ps.take(i + 1).drop_last() =~= ps.take(i as int));
                assert(ps.take(i + 1).last() == ps[i as int]);
            }
            match find_char_exec(pair, '=') {
                Some(e) => {
                    let pn = pair.len();
                    proof {
                        assert(e < pn);
                    }
                    let mut kp: Vec<char> = Vec::new();
                    let mut k: usize = 0;
                    while k < e
                        invariant
                            k <= e,
                            e < pair@.len(),
                            kp@ == pair@.subrange(0, k as int),
                        decreases e - k,
                    {
                        kp.push(pair[k]);
                        k += 1;
                        proof {
                            assert(kp@ =~= pair@.subrange(0, k as int));
                        }
                    }
                    let mut vp: Vec<char> = Vec::new();
                    let mut v: usize = e + 1;
                    while v < pair.len()
                        invariant
                            e + 1 <= v <= pair@.len(),
                            vp@ == pair@.subrange(e + 1, v as int),
                        decreases pair@.len() - v,
                    {
                        vp.push(pair[v]);
                        v += 1;
                        proof {
                            assert(vp@ =~= pair@.subrange(e + 1, v as int));
                        }
                    }
                    proof {
                        assert(kp@ =~= pair@.take(e as int));
                        assert(vp@ =~= pair@.skip(e + 1));
                    }
                    m.insert(chars_to_string(&kp), chars_to_string(&vp));
                },
                None => {
                    let empty: Vec<char> = Vec::new();
                    proof {
                        assert(empty@ =~= Seq::<char>::empty());
                    }
                    m.insert(chars_to_string(pair), chars_to_string(&empty));
                },
            }
            i += 1;
        }
        proof {
            assert(ps.take(ps.len() as int) =~= ps);
        }
        m
    }

    /// Builds the request from a parsed head and its decoded body.
    pub fn assemble(head: RequestHead, body: String) -> (r: Request)
        requires
            head.headers.wf(),
        ensures
            r@ == spec_finish(head.method, head.path@, head.version, head.headers@, body@),
            r.wf(),
    {
        let (path, rawq) = Self::extract_query(head.path.as_str());
        let query = Self::parse_query(rawq.as_str());
        Request {
            method: head.method,
            path,
            version: head.version,
            headers: head.headers,
            body,
            params: StringMap::new(),
            query,
        }
    }

    /// Well-formedness: every mapping has unique keys.
    pub open spec fn wf(&self) -> bool {
        self.headers.wf() && self.params.wf() && self.query.wf()
    }

    /// The value of a query parameter, if it was given.
    pub fn query_param<'a>(&'a self, key: &str) -> (r: Option<&'a str>)
        requires
            self.wf(),
        ensures
            match r {
                Some(v) => self@.query.contains_key(key@) && v@ == self@.query[key@],
                None => !self@.query.contains_key(key@),
            },
    {
        match self.query.get(key) {
            Some(v) => Some(v.as_str()),
            None => None,
        }
    }

    /// The value of a query parameter, or `default` when absent.
    pub fn query_param_or<'a>(&'a self, key: &str, default: &'a str) -> (r: &'a str)
        requires
            self.wf(),
        ensures
            self@.query.contains_key(key@) ==> r@ == self@.query[key@],
            !self@.query.contains_key(key@) ==> r@ == default@,
    {
        match self.query_param(key) {
            Some(v) => v,
            None => default,
        }
    }
}

/// Whether an accumulated head size is still inside the 10 MiB budget.
pub fn head_within_budget(total_bytes: usize) -> (r: bool)
    ensures
        r == (total_bytes <= 10485760),
{
    total_bytes <= 10485760
}

/// A parsed request is never truncated: whenever reading succeeds, the
/// body's byte length equals exactly the length the headers declared.
pub proof fn lemma_body_length_is_declared_length(data: Seq<u8>)
    ensures
        spec_read(data) matches Ok(req) ==> encode_utf8(req.body).len() == spec_content_length(
            req.headers,
        ),
{
    if spec_read(data) is Ok {
        let req = spec_read(data)->Ok_0;
        let ts = spec_tokens(data);
        let hc = spec_head_count(data);
        let raw = ts.take(hc);
        let lines = raw.map(|i: int, t: Seq<u8>| decode_utf8(t));
        let h = spec_parse_head(lines)->Ok_0;
        let cl = spec_content_length(h.3);
        let off = spec_body_off(data);
        if cl == 0 {
            assert(req.body =~= Seq::<char>::empty());
            assert(encode_utf8(req.body) =~= Seq::<u8>::empty());
        } else {
            lemma_blank_idx_nonneg(ts);
            lemma_sum_len_nonneg(ts.take(hc));
            assert(off >= 0);
            assert(data.len() >= off + cl);
            let bytes = data.subrange(off, off + cl);
            vstd::utf8::decode_utf8_encode_utf8(bytes);
            assert(encode_utf8(req.body) == bytes);
        }
    }
}

/// Fewer body bytes than the declared `content-length` are classified
/// as a closed connection; no request value is produced.
pub proof fn lemma_short_body_is_rejected(data: Seq<u8>)
    requires
        ({
            let ts = spec_tokens(data);
            let hc = spec_head_count(data);
            let raw = ts.take(hc);
            let lines = raw.map(|i: int, t: Seq<u8>| decode_utf8(t));
            (forall|i: int| 0 <= i < hc ==> valid_utf8(#[trigger] raw[i])) && hc > 0
                && spec_head_size(data) <= 10485760 && (spec_parse_head(lines) matches Ok(h) && (
            spec_content_length(h.3) > 0 && data.len() < spec_body_off(data)
                + spec_content_length(h.3)))
        }),
    ensures
        spec_read(data) == Err::<ReqView, RequestError>(RequestError::ConnectionClosed),
{
}

pub proof fn lemma_find_char_concat(a: Seq<char>, b: Seq<char>, c: char)
    requires
        forall|j: int| 0 <= j < a.len() ==> a[j] != c,
    ensures
        find_char(a + b, c) == if find_char(b, c) < 0 {
            -1int
        } else {
            a.len() + find_char(b, c)
        },
    decreases a.len(),
{
    if a.len() == 0 {
        assert(a + b =~= b);
    } else {
        let s = a + b;
        assert(s[0] == a[0]);
        assert(s.skip(1) =~= a.skip(1) + b);
        lemma_find_char_concat(a.skip(1), b, c);
    }
}

/// A rendered request line parses back to exactly its method, target
/// and version; the carriage return is whitespace to the tokenizer.
pub proof fn lemma_request_line_round_trip(m: HttpMethod, path: Seq<char>, v: Version)
    requires
        path.len() > 0,
        crate::strutil::no_ws(path),
    ensures
        spec_parse_request_line(
            crate::common::method_name(m) + " "@ + path + " "@ + crate::common::version_name(v)
                + "\r"@,
        ) == Ok::<_, RequestError>((m, path, v)),
{
    reveal_strlit(" ");
    reveal_strlit("\r");
    crate::common::lemma_method_name_props(m);
    crate::common::lemma_version_name_props(v);
    let mt = crate::common::method_name(m);
    let vt = crate::common::version_name(v);
    let line = mt + " "@ + path + " "@ + vt + "\r"@;
    let r1 = " "@ + path + " "@ + vt + "\r"@;
    let r2 = path + " "@ + vt + "\r"@;
    let r3 = " "@ + vt + "\r"@;
    let r4 = vt + "\r"@;
    let r5 = "\r"@;
    assert(line =~= mt + r1);
    assert(r1[0] == ' ');
    crate::strutil::lemma_split_ws_token(mt, r1);
    assert(r1.skip(1) =~= r2);
    assert(split_ws(r1) == split_ws(r2));
    assert(r2 =~= path + r3);
    assert(r3[0] == ' ');
    crate::strutil::lemma_split_ws_token(path, r3);
    assert(r3.skip(1) =~= r4);
    assert(split_ws(r3) == split_ws(r4));
    assert(r4 =~= vt + r5);
    assert(r5[0] == '\r');
    assert(is_ws(r5[0]));
    crate::strutil::lemma_split_ws_token(vt, r5);
    assert(r5.skip(1) =~= Seq::<char>::empty());
    assert(split_ws(r5) == split_ws(Seq::<char>::empty()));
    assert(split_ws(line) =~~= seq![mt, path, vt]);
    assert(split_ws(line)[0] == mt);
    assert(split_ws(line)[1] == path);
    assert(split_ws(line)[2] == vt);
}

/// A rendered header line parses back to its lowercased key and its
/// value; the trailing carriage return is trimmed away.
pub proof fn lemma_header_line_round_trip(k: Seq<char>, v: Seq<char>)
    requires
        k.len() > 0,
        crate::strutil::no_ws(k),
        forall|i: int| 0 <= i < k.len() ==> k[i] != ':',
        v.len() == 0 || (!is_ws(v[0]) && !is_ws(v.last())),
    ensures
        spec_header_entry(k + ": "@ + v + "\r"@) == Some((lower_chars(k), v)),
{
    reveal_strlit(": ");
    reveal_strlit("\r");
    let l = k + ": "@ + v + "\r"@;
    let rest = ": "@ + v + "\r"@;
    assert(l =~= k + rest);
    assert(rest[0] == ':');
    assert(find_char(rest, ':') == 0);
    lemma_find_char_concat(k, rest, ':');
    let p = find_char(l, ':');
    assert(p == k.len());
    assert(l.take(p) =~= k);
    crate::strutil::lemma_trim_wrapped(Seq::<char>::empty(), k, Seq::<char>::empty());
    assert(Seq::<char>::empty() + k + Seq::<char>::empty() =~= k);
    assert(trim_spec(l.take(p)) == k);
    assert(l.skip(p + 1) =~= seq![' '] + v + seq!['\r']);
    assert(crate::strutil::all_ws(seq![' ']));
    assert(crate::strutil::all_ws(seq!['\r']));
    crate::strutil::lemma_trim_wrapped(seq![' '], v, seq!['\r']);
    assert(trim_spec(l.skip(p + 1)) == v);
}

/// The header lines a key-value list renders to.
pub open spec fn spec_header_lines(hs: Seq<(Seq<char>, Seq<char>)>) -> Seq<Seq<char>> {
    hs.map(|i: int, p: (Seq<char>, Seq<char>)| p.0 + ": "@ + p.1 + "\r"@)
}

/// The mapping a key-value list denotes once keys are lowercased; a
/// later duplicate wins.
pub open spec fn spec_headers_of(hs: Seq<(Seq<char>, Seq<char>)>) -> Map<Seq<char>, Seq<char>>
    decreases hs.len(),
{
    if hs.len() == 0 {
        Map::empty()
    } else {
        spec_headers_of(hs.drop_last()).insert(lower_chars(hs.last().0), hs.last().1)
    }
}

pub open spec fn header_pair_ok(p: (Seq<char>, Seq<char>)) -> bool {
    p.0.len() > 0 && crate::strutil::no_ws(p.0) && (forall|i: int|
        0 <= i < p.0.len() ==> p.0[i] != ':') && (p.1.len() == 0 || (!is_ws(p.1[0]) && !is_ws(
        p.1.last(),
    )))
}

/// Rendered header lines parse back to exactly the mapping the list
/// denotes.
pub proof fn lemma_headers_round_trip(hs: Seq<(Seq<char>, Seq<char>)>)
    requires
        forall|i: int| 0 <= i < hs.len() ==> header_pair_ok(#[trigger] hs[i]),
    ensures
        spec_parse_headers(spec_header_lines(hs)) == spec_headers_of(hs),
    decreases hs.len(),
{
    let ls = spec_header_lines(hs);
    if hs.len() == 0 {
        assert(ls.len() == 0);
    } else {
        assert(header_pair_ok(hs[hs.len() - 1]));
        assert(ls.drop_last() =~= spec_header_lines(hs.drop_last()));
        assert forall|i: int| 0 <= i < hs.drop_last().len() implies header_pair_ok(
            #[trigger] hs.drop_last()[i],
        ) by {
            assert(hs.drop_last()[i] == hs[i]);
        }
        lemma_headers_round_trip(hs.drop_last());
        let last = hs.last();
        assert(ls.last() == last.0 + ": "@ + last.1 + "\r"@);
        lemma_header_line_round_trip(last.0, last.1);
    }
}

/// A rendered head (request line first, header lines after it) parses
/// back to exactly its parts.
pub proof fn lemma_parse_head_round_trip(
    m: HttpMethod,
    path: Seq<char>,
    v: Version,
    hs: Seq<(Seq<char>, Seq<char>)>,
)
    requires
        path.len() > 0,
        crate::strutil::no_ws(path),
        forall|i: int| 0 <= i < hs.len() ==> header_pair_ok(#[trigger] hs[i]),
    ensures
        spec_parse_head(
            seq![
                crate::common::method_name(m) + " "@ + path + " "@ + crate::common::version_name(
                    v,
                ) + "\r"@,
            ] + spec_header_lines(hs),
        ) == Ok::<_, RequestError>((m, path, v, spec_headers_of(hs))),
{
    let line0 = crate::common::method_name(m) + " "@ + path + " "@ + crate::common::version_name(
        v,
    ) + "\r"@;
    let lines = seq![line0] + spec_header_lines(hs);
    assert(lines[0] == line0);
    lemma_request_line_round_trip(m, path, v);
    assert(lines.skip(1) =~= spec_header_lines(hs));
    lemma_headers_round_trip(hs);
}

proof fn lemma_encode_scalar_bytes(v: u32)
    requires
        vstd::utf8::is_scalar(v),
    ensures
        v <= 0x7F ==> vstd::utf8::encode_scalar(v) =~= seq![v as u8],
        v > 0x7F ==> forall|i: int|
            0 <= i < vstd::utf8::encode_scalar(v).len() ==> #[trigger] vstd::utf8::encode_scalar(
                v,
            )[i] >= 0x80,
{
    if v <= 0x7F {
        assert(vstd::utf8::leading_byte_width_1(v) == v as u8) by (bit_vector)
            requires
                v <= 0x7F,
        ;
    } else {
        assert(vstd::utf8::leading_byte_width_2(v) >= 0x80) by (bit_vector);
        assert(vstd::utf8::leading_byte_width_3(v) >= 0x80) by (bit_vector);
        assert(vstd::utf8::leading_byte_width_4(v) >= 0x80) by (bit_vector);
        assert(vstd::utf8::last_continuation_byte(v) >= 0x80) by (bit_vector);
        assert(vstd::utf8::second_last_continuation_byte(v) >= 0x80) by (bit_vector);
        assert(vstd::utf8::third_last_continuation_byte(v) >= 0x80) by (bit_vector);
    }
}

/// The encoding of characters other than line feed holds no line-feed
/// byte: ASCII characters encode as themselves and every byte of a
/// multi-byte encoding is at least `0x80`.
proof fn lemma_encode_no_newline(l: Seq<char>)
    requires
        forall|i: int| 0 <= i < l.len() ==> #[trigger] l[i] != '\n',
    ensures
        forall|i: int| 0 <= i < encode_utf8(l).len() ==> #[trigger] encode_utf8(l)[i] != 10,
    decreases l.len(),
{
    if l.len() > 0 {
        let c = l[0];
        vstd::utf8::char_is_scalar(c);
        crate::strutil::lemma_char_cast_injective(c, '\n');
        lemma_encode_scalar_bytes(c as u32);
        assert forall|i: int|
            0 <= i < l.drop_first().len() implies #[trigger] l.drop_first()[i] != '\n' by {
            assert(l.drop_first()[i] == l[i + 1]);
        }
        lemma_encode_no_newline(l.drop_first());
        let e0 = vstd::utf8::encode_scalar(c as u32);
        assert forall|i: int|
            0 <= i < encode_utf8(l).len() implies #[trigger] encode_utf8(l)[i] != 10 by {
            if i < e0.len() {
                assert(encode_utf8(l)[i] == e0[i]);
                if c as u32 <= 0x7F {
                    assert(e0[i] == (c as u32) as u8);
                }
            } else {
                assert(encode_utf8(l)[i] == encode_utf8(l.drop_first())[i - e0.len()]);
            }
        }
    }
}

/// A line starting with a non-whitespace character encodes to bytes
/// whose first is no whitespace byte.
proof fn lemma_encode_first_byte_not_ws(l: Seq<char>)
    requires
        l.len() > 0,
        !is_ws(l[0]),
    ensures
        encode_utf8(l).len() > 0,
        !is_ws_byte(encode_utf8(l)[0]),
{
    let c = l[0];
    vstd::utf8::char_is_scalar(c);
    crate::strutil::lemma_char_cast_injective(c, ' ');
    crate::strutil::lemma_char_cast_injective(c, '\t');
    crate::strutil::lemma_char_cast_injective(c, '\r');
    crate::strutil::lemma_char_cast_injective(c, '\n');
    lemma_encode_scalar_bytes(c as u32);
    let e0 = vstd::utf8::encode_scalar(c as u32);
    assert(e0.len() > 0);
    assert(encode_utf8(l)[0] == e0[0]);
    if c as u32 <= 0x7F {
        assert(e0[0] == (c as u32) as u8);
    }
}

/// Encoding one appended character appends its scalar's encoding.
proof fn lemma_encode_push(l: Seq<char>, c: char)
    ensures
        encode_utf8(l.push(c)) == encode_utf8(l) + vstd::utf8::encode_scalar(c as u32),
    decreases l.len(),
{
    let p = l.push(c);
    if l.len() == 0 {
        assert(p[0] == c);
        assert(p.drop_first() =~= Seq::<char>::empty());
        assert(encode_utf8(p) == vstd::utf8::encode_scalar(c as u32) + encode_utf8(
            p.drop_first(),
        ));
        assert(encode_utf8(l) + vstd::utf8::encode_scalar(c as u32) =~= vstd::utf8::encode_scalar(
            c as u32,
        ) + Seq::<u8>::empty());
        assert(vstd::utf8::encode_scalar(c as u32) + Seq::<u8>::empty() =~= vstd::utf8::encode_scalar(
            c as u32,
        ));
    } else {
        assert(p[0] == l[0]);
        assert(p.drop_first() =~= l.drop_first().push(c));
        lemma_encode_push(l.drop_first(), c);
        assert(vstd::utf8::encode_scalar(l[0] as u32) + (encode_utf8(l.drop_first())
            + vstd::utf8::encode_scalar(c as u32)) =~= (vstd::utf8::encode_scalar(l[0] as u32)
            + encode_utf8(l.drop_first())) + vstd::utf8::encode_scalar(c as u32));
    }
}

/// Lines rendered to wire bytes, each UTF-8 encoded and terminated by
/// `\r\n`.
pub open spec fn render_lines(ls: Seq<Seq<char>>) -> Seq<u8>
    decreases ls.len(),
{
    if ls.len() == 0 {
        Seq::<u8>::empty()
    } else {
        encode_utf8(ls[0]) + seq![13u8, 10u8] + render_lines(ls.skip(1))
    }
}

/// A line holds no line feed.
pub open spec fn line_ok(l: Seq<char>) -> bool {
    forall|i: int| 0 <= i < l.len() ==> l[i] != '\n'
}

/// Splitting rendered lines at line feeds gives back one token per
/// line (each keeping its carriage return) and leaves the rest alone.
proof fn lemma_render_tokens(ls: Seq<Seq<char>>, rest: Seq<u8>)
    requires
        forall|i: int| 0 <= i < ls.len() ==> line_ok(#[trigger] ls[i]),
    ensures
        crate::strutil::split_seq(render_lines(ls) + rest, 10) == ls.map(
            |i: int, l: Seq<char>| encode_utf8(l).push(13u8),
        ) + crate::strutil::split_seq(rest, 10),
    decreases ls.len(),
{
    if ls.len() == 0 {
        assert(render_lines(ls) + rest =~= rest);
        assert(ls.map(|i: int, l: Seq<char>| encode_utf8(l).push(13u8)) =~= Seq::<
            Seq<u8>,
        >::empty());
        assert(Seq::<Seq<u8>>::empty() + crate::strutil::split_seq(rest, 10)
            =~= crate::strutil::split_seq(rest, 10));
    } else {
        let a = encode_utf8(ls[0]).push(13u8);
        lemma_encode_no_newline(ls[0]);
        assert(forall|i: int| 0 <= i < a.len() - 1 ==> a[i] != 10);
        assert(a.last() == 13);
        assert(forall|i: int| 0 <= i < a.len() ==> a[i] != 10);
        assert forall|i: int| 0 <= i < ls.skip(1).len() implies line_ok(
            #[trigger] ls.skip(1)[i],
        ) by {
            assert(ls.skip(1)[i] == ls[i + 1]);
        }
        lemma_render_tokens(ls.skip(1), rest);
        assert(render_lines(ls) + rest =~= a + seq![10u8] + (render_lines(ls.skip(1)) + rest));
        crate::strutil::lemma_split_prefix(a, render_lines(ls.skip(1)) + rest, 10);
        assert(crate::strutil::split_seq(render_lines(ls) + rest, 10) == seq![a]
            + crate::strutil::split_seq(render_lines(ls.skip(1)) + rest, 10));
        assert(seq![a] + (ls.skip(1).map(|i: int, l: Seq<char>| encode_utf8(l).push(13u8))
            + crate::strutil::split_seq(rest, 10)) =~~= ls.map(
            |i: int, l: Seq<char>| encode_utf8(l).push(13u8),
        ) + crate::strutil::split_seq(rest, 10));
    }
}

/// The byte length of rendered lines matches the token byte budget.
proof fn lemma_render_lines_sum(ls: Seq<Seq<char>>)
    ensures
        sum_len(ls.map(|i: int, l: Seq<char>| encode_utf8(l).push(13u8))) == render_lines(
            ls,
        ).len(),
    decreases ls.len(),
{
    let toks = ls.map(|i: int, l: Seq<char>| encode_utf8(l).push(13u8));
    if ls.len() == 0 {
        assert(toks.len() == 0);
    } else {
        lemma_render_lines_sum(ls.skip(1));
        assert(toks[0] == encode_utf8(ls[0]).push(13u8));
        assert(toks.skip(1) =~= ls.skip(1).map(
            |i: int, l: Seq<char>| encode_utf8(l).push(13u8),
        ));
        assert(sum_len(toks) == toks[0].len() + 1 + sum_len(toks.skip(1)));
    }
}

/// A whole request rendered to wire bytes: the request line, the
/// header lines, a blank line, and the body bytes.
pub open spec fn spec_render(
    m: HttpMethod,
    path: Seq<char>,
    v: Version,
    hs: Seq<(Seq<char>, Seq<char>)>,
    body: Seq<u8>,
) -> Seq<u8> {
    let line0 = crate::common::method_name(m) + " "@ + path + " "@ + crate::common::version_name(
        v,
    );
    let contents = seq![line0] + hs.map(|i: int, p: (Seq<char>, Seq<char>)| p.0 + ": "@ + p.1);
    render_lines(contents) + seq![13u8, 10u8] + body
}

/// A rendered header pair: the shape `spec_headers_of` folds over,
/// with no line feed in the value.
pub open spec fn render_pair_ok(p: (Seq<char>, Seq<char>)) -> bool {
    header_pair_ok(p) && forall|i: int| 0 <= i < p.1.len() ==> p.1[i] != '\n'
}

/// The headers announce the body: either a `content-length` entry
/// reads as exactly the body's byte count, or there is none and the
/// body is empty.
pub open spec fn body_announced(hm: Map<Seq<char>, Seq<char>>, body: Seq<u8>) -> bool {
    if hm.contains_key("content-length"@) {
        parse_dec(hm["content-length"@]) == Some(body.len()) && body.len() <= usize::MAX
    } else {
        body.len() == 0
    }
}

/// Reading a well-formed rendered request succeeds and returns every
/// part unchanged: the method, the version, the target split at its
/// first `?` into path and query, each header under its lowercased
/// key (a later duplicate winning), and the body, byte for byte.
pub proof fn lemma_read_round_trip(
    m: HttpMethod,
    path: Seq<char>,
    v: Version,
    hs: Seq<(Seq<char>, Seq<char>)>,
    body: Seq<u8>,
)
    requires
        path.len() > 0,
        crate::strutil::no_ws(path),
        forall|i: int| 0 <= i < hs.len() ==> render_pair_ok(#[trigger] hs[i]),
        body_announced(spec_headers_of(hs), body),
        valid_utf8(body),
        spec_head_size(spec_render(m, path, v, hs, body)) <= 10485760,
    ensures
        spec_read(spec_render(m, path, v, hs, body)) == Ok::<ReqView, RequestError>(
            ReqView {
                method: m,
                path: spec_extract_query(path).0,
                version: v,
                headers: spec_headers_of(hs),
                body: decode_utf8(body),
                params: Map::empty(),
                query: spec_parse_query(spec_extract_query(path).1),
            },
        ),
{
    reveal_strlit(" ");
    reveal_strlit("\r");
    reveal_strlit(": ");
    crate::common::lemma_method_name_props(m);
    crate::common::lemma_version_name_props(v);
    let mt = crate::common::method_name(m);
    let vt = crate::common::version_name(v);
    let line0 = mt + " "@ + path + " "@ + vt;
    let contents = seq![line0] + hs.map(|i: int, p: (Seq<char>, Seq<char>)| p.0 + ": "@ + p.1);
    let data = spec_render(m, path, v, hs, body);
    assert(data == render_lines(contents) + seq![13u8, 10u8] + body);

    // every rendered line is free of line feeds
    assert forall|i: int| 0 <= i < contents.len() implies line_ok(#[trigger] contents[i]) by {
        if i == 0 {
            assert(contents[0] == line0);
            assert forall|j: int| 0 <= j < line0.len() implies #[trigger] line0[j] != '\n' by {}
        } else {
            let p = hs[i - 1];
            assert(render_pair_ok(p));
            let c = p.0 + ": "@ + p.1;
            assert(contents[i] == c);
            assert forall|j: int| 0 <= j < c.len() implies #[trigger] c[j] != '\n' by {
                if j < p.0.len() {
                    assert(c[j] == p.0[j]);
                } else if j < p.0.len() + 2 {
                    assert(c[j] == ": "@[j - p.0.len()]);
                } else {
                    assert(c[j] == p.1[j - p.0.len() - 2]);
                }
            }
        }
    }

    // the byte stream splits into one token per line, the blank line,
    // and the body's own tokens
    let line_toks = contents.map(|i: int, l: Seq<char>| encode_utf8(l).push(13u8));
    assert(data =~= render_lines(contents) + (seq![13u8, 10u8] + body));
    lemma_render_tokens(contents, seq![13u8, 10u8] + body);
    assert(seq![13u8, 10u8] + body =~= seq![13u8] + seq![10u8] + body);
    crate::strutil::lemma_split_prefix(seq![13u8], body, 10);
    let toks = spec_tokens(data);
    assert(toks == line_toks + (seq![seq![13u8]] + crate::strutil::split_seq(body, 10)));

    // the blank line is the first blank token
    let hc = contents.len() as int;
    assert forall|i: int| 0 <= i < hc implies !is_blank_bytes(#[trigger] toks[i]) by {
        assert(toks[i] == line_toks[i]);
        let l = contents[i];
        let first: char = if i == 0 {
            mt[0]
        } else {
            hs[i - 1].0[0]
        };
        assert(l[0] == first);
        assert(!is_ws(first));
        assert(l.len() > 0);
        lemma_encode_first_byte_not_ws(l);
        assert(toks[i][0] == encode_utf8(l)[0]);
        assert(!is_ws_byte(toks[i][0]));
    }
    assert(toks[hc] =~= seq![13u8]);
    assert(is_blank_bytes(toks[hc]));
    assert(0 <= hc < toks.len());
    lemma_blank_idx_char(toks, hc);
    assert(spec_head_count(data) == hc);
    assert(toks.take(hc) =~= line_toks);

    // each head token decodes to its line followed by a carriage return
    assert forall|i: int| 0 <= i < hc implies valid_utf8(#[trigger] toks.take(hc)[i])
        && decode_utf8(toks.take(hc)[i]) == contents[i].push('\r') by {
        let l = contents[i];
        let lr = l.push('\r');
        lemma_encode_push(l, '\r');
        vstd::utf8::char_is_scalar('\r');
        lemma_encode_scalar_bytes('\r' as u32);
        assert(vstd::utf8::encode_scalar('\r' as u32) =~= seq![13u8]);
        assert(encode_utf8(lr) =~= encode_utf8(l).push(13u8));
        vstd::utf8::encode_utf8_valid_utf8(lr);
        vstd::utf8::encode_utf8_decode_utf8(lr);
        assert(toks.take(hc)[i] == line_toks[i]);
    }

    // the decoded head lines are the rendered lines
    let lines = toks.take(hc).map(|i: int, t: Seq<u8>| decode_utf8(t));
    let expect_lines = seq![line0 + "\r"@] + spec_header_lines(hs);
    assert(lines =~= expect_lines) by {
        assert forall|i: int| 0 <= i < hc implies lines[i] == expect_lines[i] by {
            assert(lines[i] == decode_utf8(toks.take(hc)[i]));
            assert(lines[i] == contents[i].push('\r'));
            if i == 0 {
                assert(expect_lines[0] == line0 + "\r"@);
                assert(line0.push('\r') =~= line0 + "\r"@);
            } else {
                let p = hs[i - 1];
                assert(expect_lines[i] == p.0 + ": "@ + p.1 + "\r"@);
                assert(contents[i] == p.0 + ": "@ + p.1);
                assert((p.0 + ": "@ + p.1).push('\r') =~= p.0 + ": "@ + p.1 + "\r"@);
            }
        }
    }

    // the head parses back to its parts
    assert(line0 + "\r"@ =~= mt + " "@ + path + " "@ + vt + "\r"@);
    lemma_parse_head_round_trip(m, path, v, hs);
    assert(spec_parse_head(lines) == Ok::<_, RequestError>((m, path, v, spec_headers_of(hs))));
    let headers = spec_headers_of(hs);

    // the declared length is the body's length
    let cl = spec_content_length(headers);
    assert(cl == body.len());

    // the body starts right after the blank line
    lemma_render_lines_sum(contents);
    assert(spec_head_size(data) == render_lines(contents).len());
    let off = spec_body_off(data);
    assert(off == spec_head_size(data) + 2);
    assert(data.len() == render_lines(contents).len() + 2 + body.len());

    assert(forall|i: int| 0 <= i < hc ==> valid_utf8(#[trigger] toks.take(hc)[i]));
    if cl == 0 {
        assert(body =~= Seq::<u8>::empty());
        assert(decode_utf8(body) =~= Seq::<char>::empty());
        assert(spec_read(data) == Ok::<ReqView, RequestError>(
            spec_finish(m, path, v, headers, Seq::<char>::empty()),
        ));
    } else {
        assert(data.len() >= off + cl);
        assert(data.subrange(off, off + cl) =~= body);
        assert(spec_read(data) == Ok::<ReqView, RequestError>(
            spec_finish(m, path, v, headers, decode_utf8(body)),
        ));
    }
}

} // verus!
