//! The protocol vocabulary: request methods, protocol versions and
//! path joining for route prefixes.
use vstd::prelude::*;
use crate::strutil::{
    to_chars, chars_eq_str, chars_to_string, upper_chars, upper_chars_exec,
};

verus! {

/// The closed set of request methods; unknown tokens are rejected by
/// the parser rather than coerced.
#[derive(Debug, Clone, Copy, PartialEq, Eq, Hash, Structural)]
pub enum HttpMethod {
    GET,
    POST,
    PUT,
    PATCH,
    DELETE,
    HEAD,
    OPTIONS,
    TRACE,
}

/// The wire name of a method.
pub open spec fn method_name(m: HttpMethod) -> Seq<char> {
    match m {
        HttpMethod::GET => "GET"@,
        HttpMethod::POST => "POST"@,
        HttpMethod::PUT => "PUT"@,
        HttpMethod::PATCH => "PATCH"@,
        HttpMethod::DELETE => "DELETE"@,
        HttpMethod::HEAD => "HEAD"@,
        HttpMethod::OPTIONS => "OPTIONS"@,
        HttpMethod::TRACE => "TRACE"@,
    }
}

/// Case-insensitive method lookup: the token is folded to upper case
/// and must equal one of the eight method names.
pub open spec fn spec_method_from_str(s: Seq<char>) -> Option<HttpMethod> {
    let u = upper_chars(s);
    if u == "GET"@ {
        Some(HttpMethod::GET)
    } else if u == "POST"@ {
        Some(HttpMethod::POST)
    } else if u == "PUT"@ {
        Some(HttpMethod::PUT)
    } else if u == "PATCH"@ {
        Some(HttpMethod::PATCH)
    } else if u == "DELETE"@ {
        Some(HttpMethod::DELETE)
    } else if u == "HEAD"@ {
        Some(HttpMethod::HEAD)
    } else if u == "OPTIONS"@ {
        Some(HttpMethod::OPTIONS)
    } else if u == "TRACE"@ {
        Some(HttpMethod::TRACE)
    } else {
        None
    }
}

impl HttpMethod {
    /// Parses a method token case-insensitively.
    pub fn from_str(method: &str) -> (r: Option<HttpMethod>)
        ensures
            r == spec_method_from_str(method@),
    {
        let chars = to_chars(method);
        let up = upper_chars_exec(&chars);
        if chars_eq_str(&up, "GET") {
            Some(HttpMethod::GET)
        } else if chars_eq_str(&up, "POST") {
            Some(HttpMethod::POST)
        } else if chars_eq_str(&up, "PUT") {
            Some(HttpMethod::PUT)
        } else if chars_eq_str(&up, "PATCH") {
            Some(HttpMethod::PATCH)
        } else if chars_eq_str(&up, "DELETE") {
            Some(HttpMethod::DELETE)
        } else if chars_eq_str(&up, "HEAD") {
            Some(HttpMethod::HEAD)
        } else if chars_eq_str(&up, "OPTIONS") {
            Some(HttpMethod::OPTIONS)
        } else if chars_eq_str(&up, "TRACE") {
            Some(HttpMethod::TRACE)
        } else {
            None
        }
    }
}

pub type RoutePath = String;

/// The two accepted version labels; only 1.1 framing is implemented,
/// 2.0 is accepted as a label.
#[derive(Debug, Clone, Copy, PartialEq, Eq, Structural)]
pub enum Version {
    HTTP1_1,
    HTTP2_0,
}

pub open spec fn version_name(v: Version) -> Seq<char> {
    match v {
        Version::HTTP1_1 => "HTTP/1.1"@,
        Version::HTTP2_0 => "HTTP/2.0"@,
    }
}

/// Versions are matched by exact string comparison.
pub open spec fn spec_version_from_str(s: Seq<char>) -> Option<Version> {
    if s == "HTTP/1.1"@ {
        Some(Version::HTTP1_1)
    } else if s == "HTTP/2.0"@ {
        Some(Version::HTTP2_0)
    } else {
        None
    }
}

impl Version {
    /// Parses a version label by exact match.
    pub fn from_str(s: &str) -> (r: Result<Version, ()>)
        ensures
            match r {
                Ok(v) => spec_version_from_str(s@) == Some(v),
                Err(_) => spec_version_from_str(s@) is None,
            },
    {
        let chars = to_chars(s);
        if chars_eq_str(&chars, "HTTP/1.1") {
            Ok(Version::HTTP1_1)
        } else if chars_eq_str(&chars, "HTTP/2.0") {
            Ok(Version::HTTP2_0)
        } else {
            Err(())
        }
    }
}

/// A method's wire name is a nonempty, whitespace-free ASCII token
/// that parses back to the method itself.
pub proof fn lemma_method_name_props(m: HttpMethod)
    ensures
        method_name(m).len() > 0,
        crate::strutil::no_ws(method_name(m)),
        vstd::utf8::is_ascii_chars(method_name(m)),
        spec_method_from_str(method_name(m)) == Some(m),
{
    reveal_strlit("GET");
    reveal_strlit("POST");
    reveal_strlit("PUT");
    reveal_strlit("PATCH");
    reveal_strlit("DELETE");
    reveal_strlit("HEAD");
    reveal_strlit("OPTIONS");
    reveal_strlit("TRACE");
    let s = method_name(m);
    match m {
        HttpMethod::GET => {
            assert(upper_chars(s) =~= "GET"@);
            assert(upper_chars(s) == "GET"@);
            assert(spec_method_from_str(s) == Some(HttpMethod::GET));
        },
        HttpMethod::POST => {
            assert(upper_chars(s) =~= "POST"@);
            assert(spec_method_from_str(s) == Some(HttpMethod::POST));
        },
        HttpMethod::PUT => {
            assert(upper_chars(s) =~= "PUT"@);
            assert("PUT"@[0] != "GET"@[0]);
            assert(spec_method_from_str(s) == Some(HttpMethod::PUT));
        },
        HttpMethod::PATCH => {
            assert(upper_chars(s) =~= "PATCH"@);
            assert(spec_method_from_str(s) == Some(HttpMethod::PATCH));
        },
        HttpMethod::DELETE => {
            assert(upper_chars(s) =~= "DELETE"@);
            assert(spec_method_from_str(s) == Some(HttpMethod::DELETE));
        },
        HttpMethod::HEAD => {
            assert(upper_chars(s) =~= "HEAD"@);
            assert("HEAD"@[0] != "POST"@[0]);
            assert(spec_method_from_str(s) == Some(HttpMethod::HEAD));
        },
        HttpMethod::OPTIONS => {
            assert(upper_chars(s) =~= "OPTIONS"@);
            assert(spec_method_from_str(s) == Some(HttpMethod::OPTIONS));
        },
        HttpMethod::TRACE => {
            assert(upper_chars(s) =~= "TRACE"@);
            assert("TRACE"@[0] != "PATCH"@[0]);
            assert(spec_method_from_str(s) == Some(HttpMethod::TRACE));
        },
    }
}

/// A version label is a nonempty, whitespace-free ASCII token that
/// parses back to the version itself.
pub proof fn lemma_version_name_props(v: Version)
    ensures
        version_name(v).len() > 0,
        crate::strutil::no_ws(version_name(v)),
        vstd::utf8::is_ascii_chars(version_name(v)),
        spec_version_from_str(version_name(v)) == Some(v),
{
    reveal_strlit("HTTP/1.1");
    reveal_strlit("HTTP/2.0");
    match v {
        Version::HTTP1_1 => {
        },
        Version::HTTP2_0 => {
            assert(version_name(v)[5] != "HTTP/1.1"@[5]);
        },
    }
}

/// `s` without its leading slashes.
pub open spec fn strip_leading_slashes(s: Seq<char>) -> Seq<char>
    decreases s.len(),
{
    if s.len() > 0 && s[0] == '/' {
        strip_leading_slashes(s.skip(1))
    } else {
        s
    }
}

/// Filesystem-style joining: the child's leading slashes are stripped
/// and exactly one slash separates it from a nonempty prefix.
pub open spec fn spec_join_path(prefix: Seq<char>, path: Seq<char>) -> Seq<char> {
    let child = strip_leading_slashes(path);
    if prefix.len() == 0 {
        child
    } else if prefix.last() == '/' {
        prefix + child
    } else {
        prefix + seq!['/'] + child
    }
}

proof fn lemma_strip_skip(s: Seq<char>, i: int)
    requires
        0 <= i <= s.len(),
        forall|j: int| 0 <= j < i ==> s[j] == '/',
    ensures
        strip_leading_slashes(s) == strip_leading_slashes(s.skip(i)),
    decreases i,
{
    if i > 0 {
        lemma_strip_skip(s.skip(1), i - 1);
        assert(s.skip(1).skip(i - 1) =~= s.skip(i));
    } else {
        assert(s.skip(0) =~= s);
    }
}

/// Joins a route prefix and a child path with exactly one separating
/// slash.
pub fn join_path(prefix: &str, path: &str) -> (r: String)
    ensures
        r@ == spec_join_path(prefix@, path@),
{
    let pre = to_chars(prefix);
    let child_all = to_chars(path);
    let n = child_all.len();
    let mut start: usize = 0;
    while start < n && child_all[start] == '/'
        invariant
            start <= n,
            n == child_all@.len(),
            forall|j: int| 0 <= j < start ==> child_all@[j] == '/',
        decreases n - start,
    {
        start += 1;
    }
    proof {
        lemma_strip_skip(child_all@, start as int);
        if start < n {
            assert(strip_leading_slashes(child_all@.skip(start as int)) == child_all@.skip(
                start as int,
            ));
        } else {
            assert(child_all@.skip(start as int) =~= Seq::<char>::empty());
        }
    }
    let mut out: Vec<char> = Vec::new();
    let ghost child = strip_leading_slashes(path@);
    if pre.len() > 0 {
        let mut i: usize = 0;
        while i < pre.len()
            invariant
                i <= pre@.len(),
                out@ == pre@.subrange(0, i as int),
            decreases pre@.len() - i,
        {
            out.push(pre[i]);
            i += 1;
            proof {
                assert(out@ =~= pre@.subrange(0, i as int));
            }
        }
        proof {
            assert(out@ =~= pre@);
        }
        if pre[pre.len() - 1] != '/' {
            out.push('/');
            proof {
                assert(out@ =~= pre@ + seq!['/']);
            }
        }
    }
    let ghost mid = out@;
    let mut k: usize = start;
    while k < n
        invariant
            start <= k <= n,
            n == child_all@.len(),
            out@ == mid + child_all@.subrange(start as int, k as int),
        decreases n - k,
    {
        out.push(child_all[k]);
        k += 1;
        proof {
            assert(out@ =~= mid + child_all@.subrange(start as int, k as int));
        }
    }
    proof {
        assert(child_all@.subrange(start as int, n as int) =~= child);
        if pre@.len() == 0 {
            assert(mid =~= Seq::<char>::empty());
            assert(out@ =~= child);
        } else if pre@.last() == '/' {
            assert(out@ =~= pre@ + child);
        } else {
            assert(out@ =~= pre@ + seq!['/'] + child);
        }
    }
    chars_to_string(&out)
}

} // verus!
