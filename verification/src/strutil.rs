//! Character-level helpers shared by the parser, the router and the
//! serializer: whitespace trimming, ASCII case folding, splitting,
//! lexicographic comparison and decimal conversion.
use vstd::prelude::*;
use vstd::string::*;

verus! {

/// The whitespace characters recognised by the protocol grammar.
pub open spec fn is_ws(c: char) -> bool {
    c == ' ' || c == '\t' || c == '\r' || c == '\n'
}

/// Whitespace bytes, used when scanning raw input for blank lines.
pub open spec fn is_ws_byte(b: u8) -> bool {
    b == 32 || b == 9 || b == 13 || b == 10
}

pub open spec fn is_upper(c: char) -> bool {
    65 <= (c as u32) && (c as u32) <= 90
}

pub open spec fn is_lower(c: char) -> bool {
    97 <= (c as u32) && (c as u32) <= 122
}

pub open spec fn is_digit_char(c: char) -> bool {
    48 <= (c as u32) && (c as u32) <= 57
}

/// ASCII alphanumeric: the characters kept verbatim by header-key
/// canonicalization.
pub open spec fn is_alnum(c: char) -> bool {
    is_upper(c) || is_lower(c) || is_digit_char(c)
}

pub open spec fn lower_char(c: char) -> char {
    if is_upper(c) {
        (((c as u32) + 32) as u8) as char
    } else {
        c
    }
}

pub open spec fn upper_char(c: char) -> char {
    if is_lower(c) {
        (((c as u32) - 32) as u8) as char
    } else {
        c
    }
}

pub open spec fn lower_chars(s: Seq<char>) -> Seq<char> {
    s.map(|i: int, c: char| lower_char(c))
}

pub open spec fn upper_chars(s: Seq<char>) -> Seq<char> {
    s.map(|i: int, c: char| upper_char(c))
}

fn lower_char_exec(c: char) -> (r: char)
    ensures
        r == lower_char(c),
{
    let u = c as u32;
    if 65 <= u && u <= 90 {
        ((u + 32) as u8) as char
    } else {
        c
    }
}

fn upper_char_exec(c: char) -> (r: char)
    ensures
        r == upper_char(c),
{
    let u = c as u32;
    if 97 <= u && u <= 122 {
        ((u - 32) as u8) as char
    } else {
        c
    }
}

/// The characters of a string slice, in order.
pub fn to_chars(s: &str) -> (r: Vec<char>)
    ensures
        r@ == s@,
{
    let n = s.unicode_len();
    let mut r: Vec<char> = Vec::new();
    let mut i: usize = 0;
    while i < n
        invariant
            i <= n,
            n == s@.len(),
            r@ == s@.subrange(0, i as int),
        decreases n - i,
    {
        r.push(s.get_char(i));
        i += 1;
        proof {
            assert(r@ =~= s@.subrange(0, i as int));
        }
    }
    proof {
        assert(r@ =~= s@);
    }
    r
}

/// Relies on `String`'s `FromIterator<char>`: collecting yields exactly
/// the characters of the iterator, in order.
#[verifier::external_body]
pub fn chars_to_string(v: &Vec<char>) -> (r: String)
    ensures
        r@ == v@,
{
    v.iter().collect()
}

/// True when the characters of `v` are exactly the view of `s`.
pub fn chars_eq_str(v: &Vec<char>, s: &str) -> (r: bool)
    ensures
        r == (v@ == s@),
{
    let n = s.unicode_len();
    if v.len() != n {
        return false;
    }
    let mut i: usize = 0;
    while i < n
        invariant
            i <= n,
            n == s@.len(),
            v@.len() == n,
            forall|j: int| 0 <= j < i ==> v@[j] == s@[j],
        decreases n - i,
    {
        if v[i] != s.get_char(i) {
            return false;
        }
        i += 1;
    }
    proof {
        assert(v@ =~= s@);
    }
    true
}

pub fn chars_eq(a: &Vec<char>, b: &Vec<char>) -> (r: bool)
    ensures
        r == (a@ == b@),
{
    if a.len() != b.len() {
        return false;
    }
    let mut i: usize = 0;
    while i < a.len()
        invariant
            i <= a@.len(),
            a@.len() == b@.len(),
            forall|j: int| 0 <= j < i ==> a@[j] == b@[j],
        decreases a@.len() - i,
    {
        if a[i] != b[i] {
            return false;
        }
        i += 1;
    }
    proof {
        assert(a@ =~= b@);
    }
    true
}

pub fn lower_chars_exec(v: &Vec<char>) -> (r: Vec<char>)
    ensures
        r@ == lower_chars(v@),
{
    let mut r: Vec<char> = Vec::new();
    let mut i: usize = 0;
    while i < v.len()
        invariant
            i <= v@.len(),
            r@ == lower_chars(v@).subrange(0, i as int),
        decreases v@.len() - i,
    {
        r.push(lower_char_exec(v[i]));
        i += 1;
        proof {
            assert(r@ =~= lower_chars(v@).subrange(0, i as int));
        }
    }
    proof {
        assert(r@ =~= lower_chars(v@));
    }
    r
}

pub fn upper_chars_exec(v: &Vec<char>) -> (r: Vec<char>)
    ensures
        r@ == upper_chars(v@),
{
    let mut r: Vec<char> = Vec::new();
    let mut i: usize = 0;
    while i < v.len()
        invariant
            i <= v@.len(),
            r@ == upper_chars(v@).subrange(0, i as int),
        decreases v@.len() - i,
    {
        r.push(upper_char_exec(v[i]));
        i += 1;
        proof {
            assert(r@ =~= upper_chars(v@).subrange(0, i as int));
        }
    }
    proof {
        assert(r@ =~= upper_chars(v@));
    }
    r
}

/// `s` without its leading whitespace.
pub open spec fn trim_front(s: Seq<char>) -> Seq<char>
    decreases s.len(),
{
    if s.len() > 0 && is_ws(s[0]) {
        trim_front(s.skip(1))
    } else {
        s
    }
}

/// `s` without its trailing whitespace.
pub open spec fn trim_back(s: Seq<char>) -> Seq<char>
    decreases s.len(),
{
    if s.len() > 0 && is_ws(s.last()) {
        trim_back(s.drop_last())
    } else {
        s
    }
}

/// `s` without leading and trailing whitespace.
pub open spec fn trim_spec(s: Seq<char>) -> Seq<char> {
    trim_back(trim_front(s))
}

proof fn lemma_trim_front_skip(s: Seq<char>, i: int)
    requires
        0 <= i <= s.len(),
        forall|j: int| 0 <= j < i ==> is_ws(s[j]),
    ensures
        trim_front(s) == trim_front(s.skip(i)),
    decreases i,
{
    if i > 0 {
        assert(s.len() > 0 && is_ws(s[0]));
        assert(trim_front(s) == trim_front(s.skip(1)));
        lemma_trim_front_skip(s.skip(1), i - 1);
        assert(s.skip(1).skip(i - 1) =~= s.skip(i));
    } else {
        assert(s.skip(0) =~= s);
    }
}

proof fn lemma_trim_front_no_ws(s: Seq<char>)
    requires
        s.len() == 0 || !is_ws(s[0]),
    ensures
        trim_front(s) == s,
{
}

proof fn lemma_trim_back_take(s: Seq<char>, i: int)
    requires
        0 <= i <= s.len(),
        forall|j: int| i <= j < s.len() ==> is_ws(s[j]),
    ensures
        trim_back(s) == trim_back(s.take(i)),
    decreases s.len() - i,
{
    if i < s.len() {
        assert(is_ws(s.last()));
        assert(trim_back(s) == trim_back(s.drop_last()));
        lemma_trim_back_take(s.drop_last(), i);
        assert(s.drop_last().take(i) =~= s.take(i));
    } else {
        assert(s.take(i) =~= s);
    }
}

fn is_ws_exec(c: char) -> (r: bool)
    ensures
        r == is_ws(c),
{
    c == ' ' || c == '\t' || c == '\r' || c == '\n'
}

/// The characters of `v` with leading and trailing whitespace removed.
pub fn trim_chars(v: &Vec<char>) -> (r: Vec<char>)
    ensures
        r@ == trim_spec(v@),
{
    let n = v.len();
    let mut start: usize = 0;
    while start < n && is_ws_exec(v[start])
        invariant
            start <= n,
            n == v@.len(),
            forall|j: int| 0 <= j < start ==> is_ws(v@[j]),
        decreases n - start,
    {
        start += 1;
    }
    proof {
        lemma_trim_front_skip(v@, start as int);
        if start < n {
            lemma_trim_front_no_ws(v@.skip(start as int));
        } else {
            assert(v@.skip(start as int) =~= Seq::<char>::empty());
        }
        assert(trim_front(v@) == v@.skip(start as int));
    }
    let mut end: usize = n;
    while end > start && is_ws_exec(v[end - 1])
        invariant
            start <= end <= n,
            n == v@.len(),
            forall|j: int| end <= j < n ==> is_ws(v@[j]),
            forall|j: int| 0 <= j < start ==> is_ws(v@[j]),
        decreases end,
    {
        end -= 1;
    }
    let mut r: Vec<char> = Vec::new();
    let mut i: usize = start;
    while i < end
        invariant
            start <= i <= end <= n,
            n == v@.len(),
            r@ == v@.subrange(start as int, i as int),
        decreases end - i,
    {
        r.push(v[i]);
        i += 1;
        proof {
            assert(r@ =~= v@.subrange(start as int, i as int));
        }
    }
    proof {
        let f = v@.skip(start as int);
        lemma_trim_back_take(f, end - start);
        if end > start {
            let t = f.take(end - start);
            assert(!is_ws(t.last()));
            assert(trim_back(t) == t);
        } else {
            assert(f.take(end - start) =~= Seq::<char>::empty());
        }
        assert(f.take(end - start) =~= v@.subrange(start as int, end as int));
        assert(r@ =~= v@.subrange(start as int, end as int));
    }
    r
}

/// The tokens of `s` split at every occurrence of `sep`; always at least
/// one token, and `n` separators yield `n + 1` tokens.
pub open spec fn split_seq<T>(s: Seq<T>, sep: T) -> Seq<Seq<T>>
    decreases s.len(),
{
    if s.len() == 0 {
        seq![Seq::<T>::empty()]
    } else if s[0] == sep {
        seq![Seq::<T>::empty()] + split_seq(s.skip(1), sep)
    } else {
        let rest = split_seq(s.skip(1), sep);
        seq![seq![s[0]] + rest[0]] + rest.skip(1)
    }
}

pub proof fn lemma_split_seq_len<T>(s: Seq<T>, sep: T)
    ensures
        split_seq(s, sep).len() >= 1,
    decreases s.len(),
{
    if s.len() > 0 {
        lemma_split_seq_len(s.skip(1), sep);
    }
}

/// `first + rest` where `first` is prepended to the first token of `ss`.
pub open spec fn prepend_first<T>(p: Seq<T>, ss: Seq<Seq<T>>) -> Seq<Seq<T>> {
    seq![p + ss[0]] + ss.skip(1)
}

proof fn lemma_prepend_first_assoc<T>(a: Seq<T>, b: Seq<T>, ss: Seq<Seq<T>>)
    requires
        ss.len() >= 1,
    ensures
        prepend_first(a, prepend_first(b, ss)) =~~= prepend_first(a + b, ss),
{
    assert((a + (b + ss[0])) =~= ((a + b) + ss[0]));
    assert(prepend_first(b, ss).skip(1) =~= ss.skip(1));
}

pub fn split_bytes(data: &[u8], sep: u8) -> (r: Vec<Vec<u8>>)
    ensures
        r.deep_view() == split_seq(data@, sep),
{
    let ghost full = split_seq(data@, sep);
    let mut parts: Vec<Vec<u8>> = Vec::new();
    let mut cur: Vec<u8> = Vec::new();
    let mut i: usize = 0;
    proof {
        assert(data@.skip(0) =~= data@);
        lemma_split_seq_len(data@, sep);
        let ss = split_seq(data@, sep);
        assert(cur@ + ss[0] =~= ss[0]);
        assert(prepend_first(cur@, ss) =~~= ss);
        assert(parts.deep_view() =~~= Seq::<Seq<u8>>::empty());
        assert(Seq::<Seq<u8>>::empty() + ss =~~= ss);
    }
    while i < data.len()
        invariant
            i <= data@.len(),
            full == parts.deep_view() + prepend_first(
                cur@,
                split_seq(data@.skip(i as int), sep),
            ),
            full == split_seq(data@, sep),
        decreases data@.len() - i,
    {
        let c = data[i];
        let ghost pre = data@.skip(i as int);
        let ghost ss = split_seq(data@.skip(i + 1), sep);
        proof {
            assert(pre.len() > 0);
            assert(pre[0] == data@[i as int]);
            assert(pre.skip(1) =~= data@.skip(i + 1));
            lemma_split_seq_len(data@.skip(i + 1), sep);
        }
        if c == sep {
            let ghost old_parts_dv = parts.deep_view();
            let ghost old_cur = cur@;
            parts.push(cur);
            cur = Vec::new();
            proof {
                assert(parts.deep_view() =~~= old_parts_dv.push(old_cur));
                assert(split_seq(pre, sep) == seq![Seq::<u8>::empty()] + ss);
                assert(prepend_first(old_cur, seq![Seq::<u8>::empty()] + ss) =~~= (seq![old_cur]
                    + ss));
                assert((old_parts_dv + (seq![old_cur] + ss)) =~~= (old_parts_dv.push(old_cur)
                    + ss));
                assert(cur@ + ss[0] =~= ss[0]);
                assert(prepend_first(cur@, ss) =~~= ss);
                assert(full == parts.deep_view() + prepend_first(cur@, ss));
            }
        } else {
            let ghost old_cur = cur@;
            cur.push(c);
            proof {
                assert(split_seq(pre, sep) == prepend_first(seq![pre[0]], ss));
                lemma_prepend_first_assoc(old_cur, seq![pre[0]], ss);
                assert(old_cur + seq![pre[0]] =~= cur@);
                assert(prepend_first(old_cur, prepend_first(seq![pre[0]], ss)) =~~= prepend_first(
                    cur@,
                    ss,
                ));
                assert(full == parts.deep_view() + prepend_first(cur@, ss));
            }
        }
        i += 1;
        proof {
            assert(data@.skip(i as int) =~= pre.skip(1));
        }
    }
    let ghost old_parts_dv = parts.deep_view();
    let ghost old_cur = cur@;
    parts.push(cur);
    proof {
        assert(data@.skip(i as int) =~= Seq::<u8>::empty());
        let ss = split_seq(Seq::<u8>::empty(), sep);
        assert(ss == seq![Seq::<u8>::empty()]);
        assert(old_cur + ss[0] =~= old_cur);
        assert(prepend_first(old_cur, ss) =~~= seq![old_cur]);
        assert((old_parts_dv + seq![old_cur]) =~~= old_parts_dv.push(old_cur));
        assert(parts.deep_view() =~~= old_parts_dv.push(old_cur));
    }
    parts
}

pub fn split_chars(data: &Vec<char>, sep: char) -> (r: Vec<Vec<char>>)
    ensures
        r.deep_view() == split_seq(data@, sep),
{
    let ghost full = split_seq(data@, sep);
    let mut parts: Vec<Vec<char>> = Vec::new();
    let mut cur: Vec<char> = Vec::new();
    let mut i: usize = 0;
    proof {
        assert(data@.skip(0) =~= data@);
        lemma_split_seq_len(data@, sep);
        let ss = split_seq(data@, sep);
        assert(cur@ + ss[0] =~= ss[0]);
        assert(prepend_first(cur@, ss) =~~= ss);
        assert(parts.deep_view() =~~= Seq::<Seq<char>>::empty());
        assert(Seq::<Seq<char>>::empty() + ss =~~= ss);
    }
    while i < data.len()
        invariant
            i <= data@.len(),
            full == parts.deep_view() + prepend_first(
                cur@,
                split_seq(data@.skip(i as int), sep),
            ),
            full == split_seq(data@, sep),
        decreases data@.len() - i,
    {
        let c = data[i];
        let ghost pre = data@.skip(i as int);
        let ghost ss = split_seq(data@.skip(i + 1), sep);
        proof {
            assert(pre.len() > 0);
            assert(pre[0] == data@[i as int]);
            assert(pre.skip(1) =~= data@.skip(i + 1));
            lemma_split_seq_len(data@.skip(i + 1), sep);
        }
        if c == sep {
            let ghost old_parts_dv = parts.deep_view();
            let ghost old_cur = cur@;
            parts.push(cur);
            cur = Vec::new();
            proof {
                assert(parts.deep_view() =~~= old_parts_dv.push(old_cur));
                assert(split_seq(pre, sep) == seq![Seq::<char>::empty()] + ss);
                assert(prepend_first(old_cur, seq![Seq::<char>::empty()] + ss) =~~= (seq![old_cur]
                    + ss));
                assert((old_parts_dv + (seq![old_cur] + ss)) =~~= (old_parts_dv.push(old_cur)
                    + ss));
                assert(cur@ + ss[0] =~= ss[0]);
                assert(prepend_first(cur@, ss) =~~= ss);
                assert(full == parts.deep_view() + prepend_first(cur@, ss));
            }
        } else {
            let ghost old_cur = cur@;
            cur.push(c);
            proof {
                assert(split_seq(pre, sep) == prepend_first(seq![pre[0]], ss));
                lemma_prepend_first_assoc(old_cur, seq![pre[0]], ss);
                assert(old_cur + seq![pre[0]] =~= cur@);
                assert(prepend_first(old_cur, prepend_first(seq![pre[0]], ss)) =~~= prepend_first(
                    cur@,
                    ss,
                ));
                assert(full == parts.deep_view() + prepend_first(cur@, ss));
            }
        }
        i += 1;
        proof {
            assert(data@.skip(i as int) =~= pre.skip(1));
        }
    }
    let ghost old_parts_dv = parts.deep_view();
    let ghost old_cur = cur@;
    parts.push(cur);
    proof {
        assert(data@.skip(i as int) =~= Seq::<char>::empty());
        let ss = split_seq(Seq::<char>::empty(), sep);
        assert(ss == seq![Seq::<char>::empty()]);
        assert(old_cur + ss[0] =~= old_cur);
        assert(prepend_first(old_cur, ss) =~~= seq![old_cur]);
        assert((old_parts_dv + seq![old_cur]) =~~= old_parts_dv.push(old_cur));
        assert(parts.deep_view() =~~= old_parts_dv.push(old_cur));
    }
    parts
}

/// Strict lexicographic order on character sequences, by code point.
pub open spec fn lex_lt(a: Seq<char>, b: Seq<char>) -> bool
    decreases a.len(),
{
    if b.len() == 0 {
        false
    } else if a.len() == 0 {
        true
    } else if (a[0] as u32) < (b[0] as u32) {
        true
    } else if a[0] == b[0] {
        lex_lt(a.skip(1), b.skip(1))
    } else {
        false
    }
}

/// Distinct characters have distinct code points.
pub proof fn lemma_char_cast_injective(a: char, b: char)
    ensures
        a != b ==> (a as u32) != (b as u32),
{
}

/// `lex_lt` is a strict total order: exactly one of `a < b`, `a == b`,
/// `b < a` holds.
pub proof fn lemma_lex_lt_trichotomy(a: Seq<char>, b: Seq<char>)
    ensures
        lex_lt(a, b) || lex_lt(b, a) || a == b,
        lex_lt(a, b) ==> !lex_lt(b, a) && a != b,
        lex_lt(b, a) ==> !lex_lt(a, b) && a != b,
    decreases a.len(),
{
    if a.len() == 0 && b.len() == 0 {
        assert(a =~= b);
    }
    if a.len() > 0 && b.len() > 0 && a[0] != b[0] {
        lemma_char_cast_injective(a[0], b[0]);
    }
    if a.len() > 0 && b.len() > 0 && a[0] == b[0] {
        lemma_lex_lt_trichotomy(a.skip(1), b.skip(1));
        if a.skip(1) == b.skip(1) {
            assert forall|j: int| 0 <= j < a.len() implies a[j] == b[j] by {
                if j > 0 {
                    assert(a[j] == a.skip(1)[j - 1]);
                    assert(b[j] == b.skip(1)[j - 1]);
                }
            }
            assert(a =~= b);
        }
    }
}

pub proof fn lemma_lex_lt_trans(a: Seq<char>, b: Seq<char>, c: Seq<char>)
    requires
        lex_lt(a, b),
        lex_lt(b, c),
    ensures
        lex_lt(a, c),
    decreases a.len(),
{
    if a.len() > 0 && b.len() > 0 && c.len() > 0 && a[0] == b[0] && b[0] == c[0] {
        lemma_lex_lt_trans(a.skip(1), b.skip(1), c.skip(1));
    }
}

/// Compares two character vectors in lexicographic order.
pub fn chars_lt(a: &Vec<char>, b: &Vec<char>) -> (r: bool)
    ensures
        r == lex_lt(a@, b@),
{
    let mut i: usize = 0;
    proof {
        assert(a@.skip(0) =~= a@);
        assert(b@.skip(0) =~= b@);
    }
    loop
        invariant
            i <= a@.len(),
            i <= b@.len(),
            forall|j: int| 0 <= j < i ==> a@[j] == b@[j],
            lex_lt(a@, b@) == lex_lt(a@.skip(i as int), b@.skip(i as int)),
        decreases a@.len() - i,
    {
        let ghost sa = a@.skip(i as int);
        let ghost sb = b@.skip(i as int);
        if i >= b.len() {
            proof {
                assert(sb.len() == 0);
            }
            return false;
        }
        if i >= a.len() {
            proof {
                assert(sa.len() == 0 && sb.len() > 0);
            }
            return true;
        }
        let ca = a[i];
        let cb = b[i];
        proof {
            assert(sa[0] == a@[i as int]);
            assert(sb[0] == b@[i as int]);
            assert(sa.skip(1) =~= a@.skip(i + 1));
            assert(sb.skip(1) =~= b@.skip(i + 1));
        }
        if (ca as u32) < (cb as u32) {
            return true;
        }
        if ca != cb {
            proof {
                assert(!lex_lt(sa, sb));
            }
            return false;
        }
        i += 1;
    }
}

/// The whitespace-separated tokens of `s`.
pub open spec fn split_ws(s: Seq<char>) -> Seq<Seq<char>>
    decreases s.len(),
{
    if s.len() == 0 {
        Seq::<Seq<char>>::empty()
    } else if is_ws(s[0]) {
        split_ws(s.skip(1))
    } else {
        let rest = split_ws(s.skip(1));
        if s.len() > 1 && !is_ws(s[1]) {
            seq![seq![s[0]] + rest[0]] + rest.skip(1)
        } else {
            seq![seq![s[0]]] + rest
        }
    }
}

proof fn lemma_split_ws_nonempty(s: Seq<char>)
    requires
        s.len() > 0,
        !is_ws(s[0]),
    ensures
        split_ws(s).len() >= 1,
{
}

/// The tokens of `cur ++ s` where `cur` is a partially read token
/// standing immediately before `s`.
pub open spec fn split_ws_partial(cur: Seq<char>, s: Seq<char>) -> Seq<Seq<char>> {
    if cur.len() == 0 {
        split_ws(s)
    } else if s.len() > 0 && !is_ws(s[0]) {
        prepend_first(cur, split_ws(s))
    } else {
        seq![cur] + split_ws(s)
    }
}

/// The whitespace-separated tokens of `v`, as vectors.
pub fn split_ws_exec(v: &Vec<char>) -> (r: Vec<Vec<char>>)
    ensures
        r.deep_view() == split_ws(v@),
{
    let n = v.len();
    let mut parts: Vec<Vec<char>> = Vec::new();
    let mut cur: Vec<char> = Vec::new();
    let mut i: usize = 0;
    proof {
        assert(v@.skip(0) =~= v@);
        assert(parts.deep_view() =~~= Seq::<Seq<char>>::empty());
        assert(Seq::<Seq<char>>::empty() + split_ws_partial(cur@, v@) =~~= split_ws_partial(
            cur@,
            v@,
        ));
    }
    while i < n
        invariant
            i <= n,
            n == v@.len(),
            split_ws(v@) == parts.deep_view() + split_ws_partial(cur@, v@.skip(i as int)),
        decreases n - i,
    {
        let c = v[i];
        let ghost s = v@.skip(i as int);
        let ghost s2 = v@.skip(i + 1);
        proof {
            assert(s.len() > 0);
            assert(s[0] == v@[i as int]);
            assert(s.skip(1) =~= s2);
        }
        if is_ws_exec(c) {
            proof {
                assert(split_ws(s) == split_ws(s2));
            }
            if cur.len() > 0 {
                let ghost old_parts_dv = parts.deep_view();
                let ghost oldcur = cur@;
                parts.push(cur);
                cur = Vec::new();
                proof {
                    assert(parts.deep_view() =~~= old_parts_dv.push(oldcur));
                    assert(split_ws_partial(oldcur, s) == seq![oldcur] + split_ws(s2));
                    assert((old_parts_dv + (seq![oldcur] + split_ws(s2))) =~~= (
                    old_parts_dv.push(oldcur) + split_ws(s2)));
                    assert(split_ws_partial(cur@, s2) == split_ws(s2));
                }
            }
        } else {
            let ghost oldcur = cur@;
            cur.push(c);
            proof {
                assert(cur@ =~= oldcur + seq![s[0]]);
                if s2.len() > 0 && !is_ws(s2[0]) {
                    assert(split_ws(s) == prepend_first(seq![s[0]], split_ws(s2)));
                    lemma_split_ws_nonempty(s2);
                    if oldcur.len() == 0 {
                        assert(oldcur + seq![s[0]] =~= seq![s[0]]);
                        assert(split_ws_partial(oldcur, s) == split_ws(s));
                        assert(split_ws_partial(cur@, s2) == prepend_first(cur@, split_ws(s2)));
                    } else {
                        lemma_prepend_first_assoc(oldcur, seq![s[0]], split_ws(s2));
                        assert(split_ws_partial(oldcur, s) == prepend_first(oldcur, split_ws(s)));
                        assert(split_ws_partial(cur@, s2) == prepend_first(cur@, split_ws(s2)));
                        assert(prepend_first(oldcur, prepend_first(seq![s[0]], split_ws(s2)))
                            =~~= prepend_first(cur@, split_ws(s2)));
                    }
                } else {
                    assert(split_ws(s) == seq![seq![s[0]]] + split_ws(s2));
                    if oldcur.len() == 0 {
                        assert(oldcur + seq![s[0]] =~= seq![s[0]]);
                        assert(split_ws_partial(oldcur, s) == split_ws(s));
                        assert(split_ws_partial(cur@, s2) == seq![cur@] + split_ws(s2));
                        assert((seq![seq![s[0]]] + split_ws(s2)) =~~= (seq![cur@] + split_ws(
                            s2,
                        )));
                    } else {
                        assert(split_ws_partial(oldcur, s) == prepend_first(oldcur, split_ws(s)));
                        assert(prepend_first(oldcur, seq![seq![s[0]]] + split_ws(s2)) =~~= (
                        seq![cur@] + split_ws(s2)));
                        assert(split_ws_partial(cur@, s2) == seq![cur@] + split_ws(s2));
                    }
                }
                assert(split_ws_partial(oldcur, s) =~~= split_ws_partial(cur@, s2));
            }
        }
        i += 1;
    }
    proof {
        assert(v@.skip(n as int) =~= Seq::<char>::empty());
    }
    if cur.len() > 0 {
        let ghost old_parts_dv = parts.deep_view();
        let ghost oldcur = cur@;
        parts.push(cur);
        proof {
            assert(split_ws_partial(oldcur, Seq::<char>::empty()) == seq![oldcur]);
            assert(parts.deep_view() =~~= old_parts_dv.push(oldcur));
            assert((old_parts_dv + seq![oldcur]) =~~= old_parts_dv.push(oldcur));
        }
        parts
    } else {
        proof {
            assert(split_ws_partial(cur@, Seq::<char>::empty()) == Seq::<Seq<char>>::empty());
            assert((parts.deep_view() + Seq::<Seq<char>>::empty()) =~~= parts.deep_view());
        }
        parts
    }
}

pub open spec fn dec_digit(d: nat) -> char {
    if d == 0 {
        '0'
    } else if d == 1 {
        '1'
    } else if d == 2 {
        '2'
    } else if d == 3 {
        '3'
    } else if d == 4 {
        '4'
    } else if d == 5 {
        '5'
    } else if d == 6 {
        '6'
    } else if d == 7 {
        '7'
    } else if d == 8 {
        '8'
    } else {
        '9'
    }
}

/// The decimal representation of `n`, without leading zeros (except for
/// `n == 0` itself).
pub open spec fn dec_rep(n: nat) -> Seq<char>
    decreases n,
{
    if n < 10 {
        seq![dec_digit(n)]
    } else {
        dec_rep(n / 10).push(dec_digit(n % 10))
    }
}

fn dec_digit_exec(d: u64) -> (r: char)
    requires
        d < 10,
    ensures
        r == dec_digit(d as nat),
{
    if d == 0 {
        '0'
    } else if d == 1 {
        '1'
    } else if d == 2 {
        '2'
    } else if d == 3 {
        '3'
    } else if d == 4 {
        '4'
    } else if d == 5 {
        '5'
    } else if d == 6 {
        '6'
    } else if d == 7 {
        '7'
    } else if d == 8 {
        '8'
    } else {
        '9'
    }
}

pub fn u64_to_dec_chars(n: u64) -> (r: Vec<char>)
    ensures
        r@ == dec_rep(n as nat),
    decreases n,
{
    if n < 10 {
        let mut r: Vec<char> = Vec::new();
        r.push(dec_digit_exec(n));
        proof {
            assert(r@ =~= seq![dec_digit(n as nat)]);
        }
        r
    } else {
        proof {
            assert(n / 10 < n) by (nonlinear_arith)
                requires
                    n >= 10,
            ;
        }
        let mut r = u64_to_dec_chars(n / 10);
        r.push(dec_digit_exec(n % 10));
        r
    }
}

/// The decimal rendering of `n`.
pub fn u64_to_dec(n: u64) -> (r: String)
    ensures
        r@ == dec_rep(n as nat),
{
    let v = u64_to_dec_chars(n);
    chars_to_string(&v)
}

pub open spec fn all_digits(s: Seq<char>) -> bool {
    forall|i: int| 0 <= i < s.len() ==> is_digit_char(#[trigger] s[i])
}

pub open spec fn digit_val(c: char) -> nat {
    ((c as u32) - 48) as nat
}

/// The numeric value of a digit string.
pub open spec fn dec_val(s: Seq<char>) -> nat
    decreases s.len(),
{
    if s.len() == 0 {
        0
    } else {
        dec_val(s.drop_last()) * 10 + digit_val(s.last())
    }
}

/// A nonempty all-digit string parses to its value; anything else is
/// rejected.
pub open spec fn parse_dec(s: Seq<char>) -> Option<nat> {
    if s.len() > 0 && all_digits(s) {
        Some(dec_val(s))
    } else {
        None
    }
}

proof fn lemma_dec_val_step_ge(s: Seq<char>, i: int)
    requires
        0 <= i < s.len(),
    ensures
        dec_val(s.take(i + 1)) >= dec_val(s.take(i)),
{
    assert(s.take(i + 1).drop_last() =~= s.take(i));
    assert(dec_val(s.take(i + 1)) == dec_val(s.take(i)) * 10 + digit_val(s.take(i + 1).last()));
}

proof fn lemma_dec_val_monotone(s: Seq<char>, i: int, j: int)
    requires
        0 <= i <= j <= s.len(),
    ensures
        dec_val(s.take(j)) >= dec_val(s.take(i)),
    decreases j - i,
{
    if i < j {
        lemma_dec_val_monotone(s, i, j - 1);
        lemma_dec_val_step_ge(s, j - 1);
    }
}

/// Parses a decimal digit string; `None` when the string is empty, holds
/// a non-digit, or its value does not fit in `usize`.
pub fn parse_usize(v: &Vec<char>) -> (r: Option<usize>)
    ensures
        match r {
            Some(n) => parse_dec(v@) == Some(n as nat),
            None => parse_dec(v@) is None || parse_dec(v@).unwrap() > usize::MAX,
        },
{
    if v.len() == 0 {
        return None;
    }
    let mut acc: usize = 0;
    let mut i: usize = 0;
    proof {
        assert(v@.take(0) =~= Seq::<char>::empty());
    }
    while i < v.len()
        invariant
            i <= v@.len(),
            v@.len() > 0,
            acc == dec_val(v@.take(i as int)),
            forall|j: int| 0 <= j < i ==> is_digit_char(#[trigger] v@[j]),
        decreases v@.len() - i,
    {
        let c = v[i];
        let u = c as u32;
        if !(48 <= u && u <= 57) {
            return None;
        }
        let d = (u - 48) as usize;
        let ghost t1 = v@.take(i + 1);
        proof {
            assert(t1.drop_last() =~= v@.take(i as int));
            assert(t1.last() == v@[i as int]);
            assert(dec_val(t1) == dec_val(v@.take(i as int)) * 10 + digit_val(v@[i as int]));
        }
        if acc > (usize::MAX - d) / 10 {
            proof {
                assert(acc * 10 + d > usize::MAX) by (nonlinear_arith)
                    requires
                        acc > (usize::MAX - d) / 10,
                        d <= 9,
                ;
                lemma_dec_val_monotone(v@, i + 1, v@.len() as int);
                assert(v@.take(v@.len() as int) =~= v@);
                assert(dec_val(v@) >= dec_val(t1));
            }
            return None;
        }
        proof {
            assert(acc * 10 + d <= usize::MAX) by (nonlinear_arith)
                requires
                    acc <= (usize::MAX - d) / 10,
                    d <= 9,
            ;
        }
        acc = acc * 10 + d;
        i += 1;
    }
    proof {
        assert(v@.take(v@.len() as int) =~= v@);
    }
    Some(acc)
}

/// True when two string slices hold the same characters.
pub fn str_eq(a: &str, b: &str) -> (r: bool)
    ensures
        r == (a@ == b@),
{
    let n = a.unicode_len();
    if b.unicode_len() != n {
        return false;
    }
    let mut i: usize = 0;
    while i < n
        invariant
            i <= n,
            n == a@.len(),
            b@.len() == n,
            forall|j: int| 0 <= j < i ==> a@[j] == b@[j],
        decreases n - i,
    {
        if a.get_char(i) != b.get_char(i) {
            return false;
        }
        i += 1;
    }
    proof {
        assert(a@ =~= b@);
    }
    true
}

pub open spec fn no_ws(s: Seq<char>) -> bool {
    forall|i: int| 0 <= i < s.len() ==> !is_ws(#[trigger] s[i])
}

pub open spec fn all_ws(s: Seq<char>) -> bool {
    forall|i: int| 0 <= i < s.len() ==> is_ws(#[trigger] s[i])
}

/// A whitespace-free token followed by whitespace (or nothing) is one
/// token of the split.
pub proof fn lemma_split_ws_token(t: Seq<char>, r: Seq<char>)
    requires
        t.len() > 0,
        no_ws(t),
        r.len() == 0 || is_ws(r[0]),
    ensures
        split_ws(t + r) == seq![t] + split_ws(r),
    decreases t.len(),
{
    let s = t + r;
    assert(s[0] == t[0]);
    assert(!is_ws(s[0]));
    assert(s.skip(1) =~= t.skip(1) + r);
    if t.len() == 1 {
        assert(t.skip(1) + r =~= r);
        if r.len() == 0 {
            assert(s.len() == 1);
            assert(split_ws(s) == seq![seq![s[0]]] + split_ws(s.skip(1)));
            assert(seq![s[0]] =~= t);
            assert(split_ws(s.skip(1)) =~= Seq::<Seq<char>>::empty());
            assert(split_ws(s) =~= seq![t] + split_ws(r));
        } else {
            assert(s.len() > 1 && is_ws(s[1]));
            assert(split_ws(s) == seq![seq![s[0]]] + split_ws(s.skip(1)));
            assert(seq![s[0]] =~= t);
        }
    } else {
        assert(s[1] == t[1]);
        assert(!is_ws(s[1]));
        lemma_split_ws_token(t.skip(1), r);
        assert(split_ws(s) == prepend_first(seq![s[0]], split_ws(s.skip(1))));
        assert(split_ws(s.skip(1)) == seq![t.skip(1)] + split_ws(r));
        assert((seq![t.skip(1)] + split_ws(r))[0] == t.skip(1));
        assert(prepend_first(seq![s[0]], seq![t.skip(1)] + split_ws(r)) =~~= (seq![t]
            + split_ws(r))) by {
            assert(seq![s[0]] + t.skip(1) =~= t);
            assert((seq![t.skip(1)] + split_ws(r)).skip(1) =~= split_ws(r));
        }
    }
}

/// The decimal rendering of `n` is a digit string denoting `n`.
pub proof fn lemma_dec_rep_value(n: nat)
    ensures
        dec_rep(n).len() >= 1,
        all_digits(dec_rep(n)),
        dec_val(dec_rep(n)) == n,
        parse_dec(dec_rep(n)) == Some(n),
    decreases n,
{
    if n < 10 {
        let s = seq![dec_digit(n)];
        assert(s.drop_last() =~= Seq::<char>::empty());
        assert(dec_val(s) == dec_val(s.drop_last()) * 10 + digit_val(s.last()));
        assert(digit_val(dec_digit(n)) == n);
    } else {
        lemma_dec_rep_value(n / 10);
        let s = dec_rep(n);
        assert(s == dec_rep(n / 10).push(dec_digit(n % 10)));
        assert(s.drop_last() =~= dec_rep(n / 10));
        assert(s.last() == dec_digit(n % 10));
        assert(digit_val(dec_digit(n % 10)) == n % 10);
        assert(dec_val(s) == (n / 10) * 10 + n % 10);
        assert forall|i: int| 0 <= i < s.len() implies is_digit_char(#[trigger] s[i]) by {
            if i < s.len() - 1 {
                assert(s[i] == dec_rep(n / 10)[i]);
            }
        }
    }
}

/// Whitespace prefixes vanish under front trimming.
pub proof fn lemma_trim_front_allws_prefix(a: Seq<char>, x: Seq<char>)
    requires
        all_ws(a),
    ensures
        trim_front(a + x) == trim_front(x),
    decreases a.len(),
{
    if a.len() == 0 {
        assert(a + x =~= x);
    } else {
        assert((a + x)[0] == a[0]);
        if a.len() + x.len() > 0 {
            assert((a + x).skip(1) =~= a.skip(1) + x);
            assert(all_ws(a.skip(1)));
            lemma_trim_front_allws_prefix(a.skip(1), x);
        }
    }
}

/// Whitespace suffixes vanish under back trimming.
pub proof fn lemma_trim_back_allws_suffix(x: Seq<char>, b: Seq<char>)
    requires
        all_ws(b),
    ensures
        trim_back(x + b) == trim_back(x),
    decreases b.len(),
{
    if b.len() == 0 {
        assert(x + b =~= x);
    } else {
        assert((x + b).last() == b.last());
        assert((x + b).drop_last() =~= x + b.drop_last());
        assert(all_ws(b.drop_last()));
        lemma_trim_back_allws_suffix(x, b.drop_last());
    }
}

/// Trimming strips exactly the whitespace wrapping of a token that has
/// none of its own at either end.
pub proof fn lemma_trim_wrapped(a: Seq<char>, v: Seq<char>, b: Seq<char>)
    requires
        all_ws(a),
        all_ws(b),
        v.len() == 0 || (!is_ws(v[0]) && !is_ws(v.last())),
    ensures
        trim_spec(a + v + b) == v,
{
    assert(a + v + b =~= a + (v + b));
    lemma_trim_front_allws_prefix(a, v + b);
    if v.len() == 0 {
        assert(v + b =~= b);
        lemma_trim_front_allws_prefix(b, Seq::<char>::empty());
        assert(b + Seq::<char>::empty() =~= b);
        assert(trim_front(b) == trim_front(Seq::<char>::empty()));
        assert(trim_back(Seq::<char>::empty()) =~= Seq::<char>::empty());
        assert(v =~= Seq::<char>::empty());
    } else {
        assert((v + b)[0] == v[0]);
        assert(trim_front(v + b) == v + b);
        lemma_trim_back_allws_suffix(v, b);
        assert(trim_back(v) == v);
    }
}

/// A separator-free chunk followed by a separator is one token of the
/// split; the rest splits independently.
pub proof fn lemma_split_prefix(a: Seq<u8>, b: Seq<u8>, sep: u8)
    requires
        forall|i: int| 0 <= i < a.len() ==> a[i] != sep,
    ensures
        split_seq(a + seq![sep] + b, sep) == seq![a] + split_seq(b, sep),
    decreases a.len(),
{
    let s = a + seq![sep] + b;
    if a.len() == 0 {
        assert(s =~= seq![sep] + b);
        assert(s[0] == sep);
        assert(s.skip(1) =~= b);
        assert(split_seq(s, sep) == seq![Seq::<u8>::empty()] + split_seq(b, sep));
        assert(Seq::<u8>::empty() =~= a);
    } else {
        assert(s[0] == a[0]);
        assert(s[0] != sep);
        assert(s.skip(1) =~= a.skip(1) + seq![sep] + b);
        lemma_split_prefix(a.skip(1), b, sep);
        lemma_split_seq_len(b, sep);
        let rest = split_seq(s.skip(1), sep);
        assert(rest == seq![a.skip(1)] + split_seq(b, sep));
        assert(split_seq(s, sep) == seq![seq![s[0]] + rest[0]] + rest.skip(1));
        assert(rest[0] == a.skip(1));
        assert(seq![s[0]] + a.skip(1) =~= a);
        assert(rest.skip(1) =~= split_seq(b, sep));
        assert(split_seq(s, sep) =~~= seq![a] + split_seq(b, sep));
    }
}

/// A decimal digit is a printable ASCII character, no whitespace and
/// no sign.
pub proof fn lemma_digit_char_props(c: char)
    ensures
        is_digit_char(c) ==> !is_ws(c) && c != '\n' && c != ':' && c != '+' && '\0' <= c
            <= '\u{7f}',
{
}

} // verus!
