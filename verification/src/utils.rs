//! Presentation helpers: the status-code reason-phrase table,
//! title-casing, and header-key canonicalization.
use vstd::prelude::*;
use crate::strutil::{
    is_alnum, lower_chars, upper_char, to_chars, chars_to_string, lower_chars_exec,
};

verus! {

/// The reason phrase of a status code; unmapped codes render "Unknown".
pub open spec fn spec_status_text(code: u16) -> Seq<char> {
    match code {
        100u16 => "Continue"@,
        101u16 => "Switching Protocols"@,
        102u16 => "Processing"@,
        103u16 => "Early Hints"@,
        200u16 => "OK"@,
        201u16 => "Created"@,
        202u16 => "Accepted"@,
        203u16 => "Non-Authoritative Information"@,
        204u16 => "No Content"@,
        205u16 => "Reset Content"@,
        206u16 => "Partial Content"@,
        207u16 => "Multi-Status"@,
        208u16 => "Already Reported"@,
        226u16 => "IM Used"@,
        300u16 => "Multiple Choices"@,
        301u16 => "Moved Permanently"@,
        302u16 => "Found"@,
        303u16 => "See Other"@,
        304u16 => "Not Modified"@,
        307u16 => "Temporary Redirect"@,
        308u16 => "Permanent Redirect"@,
        400u16 => "Bad Request"@,
        401u16 => "Unauthorized"@,
        403u16 => "Forbidden"@,
        404u16 => "Not Found"@,
        405u16 => "Method Not Allowed"@,
        406u16 => "Not Acceptable"@,
        407u16 => "Proxy Authentication Required"@,
        408u16 => "Request Timeout"@,
        409u16 => "Conflict"@,
        410u16 => "Gone"@,
        411u16 => "Length Required"@,
        412u16 => "Precondition Failed"@,
        413u16 => "Payload Too Large"@,
        414u16 => "URI Too Long"@,
        415u16 => "Unsupported Media Type"@,
        416u16 => "Range Not Satisfiable"@,
        417u16 => "Expectation Failed"@,
        418u16 => "I'm a teapot"@,
        421u16 => "Misdirected Request"@,
        422u16 => "Unprocessable Entity"@,
        423u16 => "Locked"@,
        424u16 => "Failed Dependency"@,
        425u16 => "Too Early"@,
        426u16 => "Upgrade Required"@,
        428u16 => "Precondition Required"@,
        429u16 => "Too Many Requests"@,
        431u16 => "Request Header Fields Too Large"@,
        451u16 => "Unavailable For Legal Reasons"@,
        500u16 => "Internal Server Error"@,
        501u16 => "Not Implemented"@,
        502u16 => "Bad Gateway"@,
        503u16 => "Service Unavailable"@,
        504u16 => "Gateway Timeout"@,
        505u16 => "HTTP Version Not Supported"@,
        506u16 => "Variant Also Negotiates"@,
        507u16 => "Insufficient Storage"@,
        508u16 => "Loop Detected"@,
        510u16 => "Not Extended"@,
        511u16 => "Network Authentication Required"@,
        _ => "Unknown"@,
    }
}

/// The reason phrase for `code` from the fixed status table.
pub fn get_status_text(code: u16) -> (r: &'static str)
    ensures
        r@ == spec_status_text(code),
{
    match code {
        100u16 => "Continue",
        101u16 => "Switching Protocols",
        102u16 => "Processing",
        103u16 => "Early Hints",
        200u16 => "OK",
        201u16 => "Created",
        202u16 => "Accepted",
        203u16 => "Non-Authoritative Information",
        204u16 => "No Content",
        205u16 => "Reset Content",
        206u16 => "Partial Content",
        207u16 => "Multi-Status",
        208u16 => "Already Reported",
        226u16 => "IM Used",
        300u16 => "Multiple Choices",
        301u16 => "Moved Permanently",
        302u16 => "Found",
        303u16 => "See Other",
        304u16 => "Not Modified",
        307u16 => "Temporary Redirect",
        308u16 => "Permanent Redirect",
        400u16 => "Bad Request",
        401u16 => "Unauthorized",
        403u16 => "Forbidden",
        404u16 => "Not Found",
        405u16 => "Method Not Allowed",
        406u16 => "Not Acceptable",
        407u16 => "Proxy Authentication Required",
        408u16 => "Request Timeout",
        409u16 => "Conflict",
        410u16 => "Gone",
        411u16 => "Length Required",
        412u16 => "Precondition Failed",
        413u16 => "Payload Too Large",
        414u16 => "URI Too Long",
        415u16 => "Unsupported Media Type",
        416u16 => "Range Not Satisfiable",
        417u16 => "Expectation Failed",
        418u16 => "I'm a teapot",
        421u16 => "Misdirected Request",
        422u16 => "Unprocessable Entity",
        423u16 => "Locked",
        424u16 => "Failed Dependency",
        425u16 => "Too Early",
        426u16 => "Upgrade Required",
        428u16 => "Precondition Required",
        429u16 => "Too Many Requests",
        431u16 => "Request Header Fields Too Large",
        451u16 => "Unavailable For Legal Reasons",
        500u16 => "Internal Server Error",
        501u16 => "Not Implemented",
        502u16 => "Bad Gateway",
        503u16 => "Service Unavailable",
        504u16 => "Gateway Timeout",
        505u16 => "HTTP Version Not Supported",
        506u16 => "Variant Also Negotiates",
        507u16 => "Insufficient Storage",
        508u16 => "Loop Detected",
        510u16 => "Not Extended",
        511u16 => "Network Authentication Required",
        _ => "Unknown",
    }
}

/// First character upper-cased, the rest lower-cased.
pub open spec fn spec_title_case(s: Seq<char>) -> Seq<char> {
    if s.len() == 0 {
        Seq::<char>::empty()
    } else {
        seq![upper_char(s[0])] + lower_chars(s.skip(1))
    }
}

/// Title-cases one token: first character upper, the rest lower.
pub fn to_title_case(s: &str) -> (r: String)
    ensures
        r@ == spec_title_case(s@),
{
    let chars = to_chars(s);
    let out = title_case_chars(&chars);
    chars_to_string(&out)
}

fn title_case_chars(chars: &Vec<char>) -> (out: Vec<char>)
    ensures
        out@ == spec_title_case(chars@),
{
    if chars.len() == 0 {
        let out: Vec<char> = Vec::new();
        proof {
            assert(out@ =~= spec_title_case(chars@));
        }
        return out;
    }
    let mut rest: Vec<char> = Vec::new();
    let mut i: usize = 1;
    while i < chars.len()
        invariant
            1 <= i <= chars@.len(),
            rest@ == chars@.subrange(1, i as int),
        decreases chars@.len() - i,
    {
        rest.push(chars[i]);
        i += 1;
        proof {
            assert(rest@ =~= chars@.subrange(1, i as int));
        }
    }
    let lowered = lower_chars_exec(&rest);
    let mut out: Vec<char> = Vec::new();
    let u = chars[0] as u32;
    if 97 <= u && u <= 122 {
        out.push(((u - 32) as u8) as char);
    } else {
        out.push(chars[0]);
    }
    let mut j: usize = 0;
    while j < lowered.len()
        invariant
            j <= lowered@.len(),
            out@ == seq![upper_char(chars@[0])] + lowered@.subrange(0, j as int),
        decreases lowered@.len() - j,
    {
        out.push(lowered[j]);
        j += 1;
        proof {
            assert(out@ =~= seq![upper_char(chars@[0])] + lowered@.subrange(0, j as int));
        }
    }
    proof {
        assert(rest@ =~= chars@.skip(1));
        assert(lowered@.subrange(0, lowered@.len() as int) =~= lowered@);
        assert(out@ =~= spec_title_case(chars@));
    }
    out
}

/// Runs of non-alphanumeric characters collapsed to a single `-`: the
/// dash is emitted at the last character of each run.
pub open spec fn collapse_runs(s: Seq<char>) -> Seq<char>
    decreases s.len(),
{
    if s.len() == 0 {
        Seq::<char>::empty()
    } else if is_alnum(s[0]) {
        seq![s[0]] + collapse_runs(s.skip(1))
    } else if s.len() > 1 && !is_alnum(s[1]) {
        collapse_runs(s.skip(1))
    } else {
        seq!['-'] + collapse_runs(s.skip(1))
    }
}

/// Tokens joined with a single `-` between them.
pub open spec fn join_dashes(ss: Seq<Seq<char>>) -> Seq<char>
    decreases ss.len(),
{
    if ss.len() == 0 {
        Seq::<char>::empty()
    } else if ss.len() == 1 {
        ss[0]
    } else {
        ss[0] + seq!['-'] + join_dashes(ss.skip(1))
    }
}

proof fn lemma_join_dashes_push(ss: Seq<Seq<char>>, t: Seq<char>)
    ensures
        join_dashes(ss.push(t)) == if ss.len() == 0 {
            t
        } else {
            join_dashes(ss) + seq!['-'] + t
        },
    decreases ss.len(),
{
    let p = ss.push(t);
    if ss.len() == 0 {
        assert(p[0] == t);
        assert(p.len() == 1);
    } else {
        assert(p[0] == ss[0]);
        assert(p.skip(1) =~= ss.skip(1).push(t));
        lemma_join_dashes_push(ss.skip(1), t);
        if ss.len() == 1 {
            assert(join_dashes(p) == ss[0] + seq!['-'] + join_dashes(ss.skip(1).push(t)));
            assert(ss.skip(1).len() == 0);
            assert(join_dashes(ss.skip(1).push(t)) == t);
            assert(join_dashes(ss) == ss[0]);
        } else {
            assert(join_dashes(p) == ss[0] + seq!['-'] + (join_dashes(ss.skip(1)) + seq!['-']
                + t));
            assert(join_dashes(ss) == ss[0] + seq!['-'] + join_dashes(ss.skip(1)));
            assert(ss[0] + seq!['-'] + (join_dashes(ss.skip(1)) + seq!['-'] + t) =~= (ss[0]
                + seq!['-'] + join_dashes(ss.skip(1))) + seq!['-'] + t);
        }
    }
}

/// `s` without its trailing dashes.
pub open spec fn trim_trailing_dashes(s: Seq<char>) -> Seq<char>
    decreases s.len(),
{
    if s.len() > 0 && s.last() == '-' {
        trim_trailing_dashes(s.drop_last())
    } else {
        s
    }
}

/// The title-cased forms of each token.
pub open spec fn title_all(ss: Seq<Seq<char>>) -> Seq<Seq<char>> {
    ss.map(|i: int, t: Seq<char>| spec_title_case(t))
}

/// The canonical form of a header key: non-alphanumeric runs collapse
/// to `-`, each `-`-delimited token is title-cased, trailing dashes are
/// trimmed.
pub open spec fn canon_key(s: Seq<char>) -> Seq<char> {
    trim_trailing_dashes(
        join_dashes(title_all(crate::strutil::split_seq(collapse_runs(s), '-'))),
    )
}

fn is_alnum_exec(c: char) -> (r: bool)
    ensures
        r == is_alnum(c),
{
    let u = c as u32;
    (65 <= u && u <= 90) || (97 <= u && u <= 122) || (48 <= u && u <= 57)
}

fn collapse_runs_exec(v: &Vec<char>) -> (r: Vec<char>)
    ensures
        r@ == collapse_runs(v@),
{
    let n = v.len();
    let mut out: Vec<char> = Vec::new();
    let mut i: usize = 0;
    proof {
        assert(v@.skip(0) =~= v@);
        assert(Seq::<char>::empty() + collapse_runs(v@) =~= collapse_runs(v@));
    }
    while i < n
        invariant
            i <= n,
            n == v@.len(),
            collapse_runs(v@) == out@ + collapse_runs(v@.skip(i as int)),
        decreases n - i,
    {
        let ghost s = v@.skip(i as int);
        proof {
            assert(s[0] == v@[i as int]);
            assert(s.skip(1) =~= v@.skip(i + 1));
        }
        let c = v[i];
        if is_alnum_exec(c) {
            out.push(c);
            proof {
                assert(collapse_runs(s) == seq![s[0]] + collapse_runs(s.skip(1)));
                assert(out@ + collapse_runs(v@.skip(i + 1)) =~= out@.drop_last() + (seq![s[0]]
                    + collapse_runs(s.skip(1))));
            }
        } else if i + 1 < n && !is_alnum_exec(v[i + 1]) {
            proof {
                assert(s.len() > 1 && !is_alnum(s[1]));
                assert(collapse_runs(s) == collapse_runs(s.skip(1)));
            }
        } else {
            out.push('-');
            proof {
                assert(collapse_runs(s) == seq!['-'] + collapse_runs(s.skip(1)));
                assert(out@ + collapse_runs(v@.skip(i + 1)) =~= out@.drop_last() + (seq!['-']
                    + collapse_runs(s.skip(1))));
            }
        }
        i += 1;
    }
    proof {
        assert(v@.skip(n as int) =~= Seq::<char>::empty());
        assert(out@ + Seq::<char>::empty() =~= out@);
    }
    out
}

/// Canonicalizes a header key (`content_type_` becomes `Content-Type`).
pub fn sanitize_header_key(key: &str) -> (r: String)
    ensures
        r@ == canon_key(key@),
{
    let chars = to_chars(key);
    let collapsed = collapse_runs_exec(&chars);
    let tokens = crate::strutil::split_chars(&collapsed, '-');
    let ghost toks = crate::strutil::split_seq(collapsed@, '-');
    let mut joined: Vec<char> = Vec::new();
    let mut j: usize = 0;
    proof {
        assert(tokens.deep_view().take(0) =~= Seq::<Seq<char>>::empty());
        assert(title_all(toks.take(0)) =~= Seq::<Seq<char>>::empty());
    }
    while j < tokens.len()
        invariant
            j <= tokens@.len(),
            tokens.deep_view() == toks,
            tokens@.len() == toks.len(),
            joined@ == join_dashes(title_all(toks.take(j as int))),
        decreases tokens@.len() - j,
    {
        let t = title_case_chars(&tokens[j]);
        proof {
            assert(tokens@[j as int]@ == toks[j as int]);
            assert(t@ == spec_title_case(toks[j as int]));
            lemma_join_dashes_push(title_all(toks.take(j as int)), t@);
            assert(title_all(toks.take(j + 1)) =~= title_all(toks.take(j as int)).push(t@));
        }
        if j > 0 {
            joined.push('-');
        }
        let mut k: usize = 0;
        let ghost base = joined@;
        while k < t.len()
            invariant
                k <= t@.len(),
                joined@ == base + t@.subrange(0, k as int),
            decreases t@.len() - k,
        {
            joined.push(t[k]);
            k += 1;
            proof {
                assert(joined@ =~= base + t@.subrange(0, k as int));
            }
        }
        proof {
            assert(t@.subrange(0, t@.len() as int) =~= t@);
            if j > 0 {
                assert(title_all(toks.take(j as int)).len() > 0);
                assert(joined@ =~= join_dashes(title_all(toks.take(j as int))) + seq!['-'] + t@);
            } else {
                assert(title_all(toks.take(0)).len() == 0);
                assert(joined@ =~= t@);
            }
        }
        j += 1;
    }
    proof {
        assert(toks.take(toks.len() as int) =~= toks);
    }
    // trim trailing dashes
    let mut end: usize = joined.len();
    while end > 0 && joined[end - 1] == '-'
        invariant
            end <= joined@.len(),
            forall|x: int| end <= x < joined@.len() ==> joined@[x] == '-',
        decreases end,
    {
        end -= 1;
    }
    let mut out: Vec<char> = Vec::new();
    let mut m: usize = 0;
    while m < end
        invariant
            m <= end <= joined@.len(),
            out@ == joined@.subrange(0, m as int),
        decreases end - m,
    {
        out.push(joined[m]);
        m += 1;
        proof {
            assert(out@ =~= joined@.subrange(0, m as int));
        }
    }
    proof {
        lemma_trim_dashes_take(joined@, end as int);
        if end > 0 {
            assert(joined@.take(end as int).last() != '-');
            assert(trim_trailing_dashes(joined@.take(end as int)) == joined@.take(end as int));
        } else {
            assert(joined@.take(0) =~= Seq::<char>::empty());
        }
        assert(out@ =~= joined@.take(end as int));
    }
    chars_to_string(&out)
}

proof fn lemma_trim_dashes_take(s: Seq<char>, i: int)
    requires
        0 <= i <= s.len(),
        forall|x: int| i <= x < s.len() ==> s[x] == '-',
    ensures
        trim_trailing_dashes(s) == trim_trailing_dashes(s.take(i)),
    decreases s.len() - i,
{
    if i < s.len() {
        assert(s.last() == '-');
        lemma_trim_dashes_take(s.drop_last(), i);
        assert(s.drop_last().take(i) =~= s.take(i));
    } else {
        assert(s.take(i) =~= s);
    }
}

} // verus!

pub use crate::common::join_path;
