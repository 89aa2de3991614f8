//! An ordered string-to-string map backed by a vector of entries with
//! unique keys.  Request headers, query parameters and path parameters
//! use last-wins insertion; response headers keep their entries sorted
//! by key so that serialization is deterministic.
use vstd::prelude::*;
use crate::strutil::{lex_lt, lemma_lex_lt_trichotomy, lemma_lex_lt_trans};

verus! {

/// The mapping denoted by an entry sequence; a later entry for the same
/// key overrides an earlier one.
pub open spec fn map_of(es: Seq<(String, String)>) -> Map<Seq<char>, Seq<char>>
    decreases es.len(),
{
    if es.len() == 0 {
        Map::empty()
    } else {
        map_of(es.drop_last()).insert(es.last().0@, es.last().1@)
    }
}

pub open spec fn keys_unique(es: Seq<(String, String)>) -> bool {
    forall|i: int, j: int| 0 <= i < j < es.len() ==> es[i].0@ != es[j].0@
}

pub open spec fn keys_sorted(es: Seq<(String, String)>) -> bool {
    forall|i: int, j: int| 0 <= i < j < es.len() ==> lex_lt(es[i].0@, es[j].0@)
}

pub proof fn lemma_sorted_implies_unique(es: Seq<(String, String)>)
    requires
        keys_sorted(es),
    ensures
        keys_unique(es),
{
    assert forall|i: int, j: int| 0 <= i < j < es.len() implies es[i].0@ != es[j].0@ by {
        lemma_lex_lt_trichotomy(es[i].0@, es[j].0@);
    }
}

pub proof fn lemma_map_of_entry(es: Seq<(String, String)>, i: int)
    requires
        keys_unique(es),
        0 <= i < es.len(),
    ensures
        map_of(es).contains_key(es[i].0@),
        map_of(es)[es[i].0@] == es[i].1@,
    decreases es.len(),
{
    if i < es.len() - 1 {
        lemma_map_of_entry(es.drop_last(), i);
    }
}

pub proof fn lemma_map_of_contains(es: Seq<(String, String)>, k: Seq<char>)
    requires
        map_of(es).contains_key(k),
    ensures
        exists|i: int| 0 <= i < es.len() && #[trigger] es[i].0@ == k,
    decreases es.len(),
{
    if es.len() > 0 {
        if es.last().0@ == k {
            assert(es[es.len() - 1].0@ == k);
        } else {
            lemma_map_of_contains(es.drop_last(), k);
            let i = choose|i: int|
                0 <= i < es.drop_last().len() && #[trigger] es.drop_last()[i].0@ == k;
            assert(es[i].0@ == k);
        }
    }
}

pub proof fn lemma_map_of_dom_len(es: Seq<(String, String)>)
    requires
        keys_unique(es),
    ensures
        map_of(es).dom().finite(),
        map_of(es).dom().len() == es.len(),
    decreases es.len(),
{
    if es.len() > 0 {
        lemma_map_of_dom_len(es.drop_last());
        if map_of(es.drop_last()).contains_key(es.last().0@) {
            lemma_map_of_contains(es.drop_last(), es.last().0@);
            let i = choose|i: int|
                0 <= i < es.drop_last().len() && #[trigger] es.drop_last()[i].0@ == es.last().0@;
            assert(es[i].0@ == es[es.len() - 1].0@);
            assert(false);
        }
    }
}

/// `map_of` of a sequence with its last-position-for `k` entry replaced
/// equals an insert on the original mapping.
pub proof fn lemma_map_of_update(es: Seq<(String, String)>, i: int, p: (String, String))
    requires
        keys_unique(es),
        0 <= i < es.len(),
        es[i].0@ == p.0@,
    ensures
        map_of(es.update(i, p)) == map_of(es).insert(p.0@, p.1@),
    decreases es.len(),
{
    let es2 = es.update(i, p);
    if i == es.len() - 1 {
        assert(es2.drop_last() =~= es.drop_last());
        assert(es2.last() == p);
        assert(map_of(es2) == map_of(es.drop_last()).insert(p.0@, p.1@));
        assert(map_of(es).insert(p.0@, p.1@) =~= map_of(es.drop_last()).insert(
            es.last().0@,
            es.last().1@,
        ).insert(p.0@, p.1@));
        assert(map_of(es.drop_last()).insert(es.last().0@, es.last().1@).insert(p.0@, p.1@)
            =~= map_of(es.drop_last()).insert(p.0@, p.1@));
    } else {
        lemma_map_of_update(es.drop_last(), i, p);
        assert(es2.drop_last() =~= es.drop_last().update(i, p));
        assert(es2.last() == es.last());
        assert(es[i].0@ != es.last().0@);
        assert(map_of(es2) == map_of(es.drop_last()).insert(p.0@, p.1@).insert(
            es.last().0@,
            es.last().1@,
        ));
        assert(map_of(es.drop_last()).insert(p.0@, p.1@).insert(es.last().0@, es.last().1@)
            =~= map_of(es.drop_last()).insert(es.last().0@, es.last().1@).insert(p.0@, p.1@));
    }
}

/// Inserting a fresh key anywhere in the sequence inserts it into the
/// mapping.
proof fn lemma_map_of_insert_at(es: Seq<(String, String)>, i: int, p: (String, String))
    requires
        0 <= i <= es.len(),
        forall|j: int| 0 <= j < es.len() ==> es[j].0@ != p.0@,
    ensures
        map_of(es.insert(i, p)) == map_of(es).insert(p.0@, p.1@),
    decreases es.len(),
{
    let es2 = es.insert(i, p);
    if i == es.len() {
        assert(es2.drop_last() =~= es);
        assert(es2.last() == p);
    } else {
        assert(es2.drop_last() =~= es.drop_last().insert(i, p));
        assert(es2.last() == es.last());
        lemma_map_of_insert_at(es.drop_last(), i, p);
        assert(map_of(es2) == map_of(es.drop_last()).insert(p.0@, p.1@).insert(
            es.last().0@,
            es.last().1@,
        ));
        assert(es[es.len() - 1].0@ != p.0@);
        assert(map_of(es.drop_last()).insert(p.0@, p.1@).insert(es.last().0@, es.last().1@)
            =~= map_of(es.drop_last()).insert(es.last().0@, es.last().1@).insert(p.0@, p.1@));
    }
}

/// A string-keyed map with string values.  Keys are unique; an insert
/// for an existing key overwrites its value (last occurrence wins).
#[derive(Debug)]
pub struct StringMap {
    pub entries: Vec<(String, String)>,
}

impl View for StringMap {
    type V = Map<Seq<char>, Seq<char>>;

    open spec fn view(&self) -> Map<Seq<char>, Seq<char>> {
        map_of(self.entries@)
    }
}

impl StringMap {
    /// Keys occur at most once.
    pub open spec fn wf(&self) -> bool {
        keys_unique(self.entries@)
    }

    /// Entries are strictly ordered by key; implies `wf`.
    pub open spec fn sorted(&self) -> bool {
        keys_sorted(self.entries@)
    }

    pub fn new() -> (r: StringMap)
        ensures
            r@ == Map::<Seq<char>, Seq<char>>::empty(),
            r.wf(),
            r.sorted(),
            r.entries@.len() == 0,
    {
        StringMap { entries: Vec::new() }
    }

    /// The number of keys in the map.
    pub fn len(&self) -> (r: usize)
        requires
            self.wf(),
        ensures
            r == self@.dom().len(),
            r == self.entries@.len(),
    {
        proof {
            lemma_map_of_dom_len(self.entries@);
        }
        self.entries.len()
    }

    /// The value stored for `key`, if any.
    pub fn get<'a>(&'a self, key: &str) -> (r: Option<&'a String>)
        requires
            self.wf(),
        ensures
            match r {
                Some(v) => self@.contains_key(key@) && v@ == self@[key@],
                None => !self@.contains_key(key@),
            },
    {
        let n = self.entries.len();
        let mut i: usize = 0;
        while i < n
            invariant
                i <= n,
                n == self.entries@.len(),
                self.wf(),
                forall|j: int| 0 <= j < i ==> self.entries@[j].0@ != key@,
            decreases n - i,
        {
            if crate::strutil::str_eq(self.entries[i].0.as_str(), key) {
                proof {
                    lemma_map_of_entry(self.entries@, i as int);
                }
                return Some(&self.entries[i].1);
            }
            i += 1;
        }
        proof {
            if self@.contains_key(key@) {
                lemma_map_of_contains(self.entries@, key@);
            }
        }
        None
    }

    /// Binds `key` to `value`; an existing entry for the same key is
    /// overwritten in place, otherwise the entry is appended.
    pub fn insert(&mut self, key: String, value: String)
        requires
            old(self).wf(),
        ensures
            final(self)@ == old(self)@.insert(key@, value@),
            final(self).wf(),
            old(self)@.contains_key(key@) ==> final(self).entries@.len() == old(self).entries@.len(),
            !old(self)@.contains_key(key@) ==> final(self).entries@.len() == old(self).entries@.len()
                + 1,
    {
        let ghost es0 = self.entries@;
        let n = self.entries.len();
        let mut i: usize = 0;
        while i < n
            invariant
                i <= n,
                n == self.entries@.len(),
                self.entries@ == es0,
                es0 == old(self).entries@,
                keys_unique(es0),
                forall|j: int| 0 <= j < i ==> es0[j].0@ != key@,
            decreases n - i,
        {
            if crate::strutil::str_eq(self.entries[i].0.as_str(), key.as_str()) {
                let _replaced = self.entries.remove(i);
                self.entries.insert(i, (key, value));
                proof {
                    assert(self.entries@ =~= es0.update(i as int, self.entries@[i as int]));
                    lemma_map_of_update(es0, i as int, self.entries@[i as int]);
                    assert forall|a: int, b: int|
                        0 <= a < b < self.entries@.len() implies self.entries@[a].0@
                        != self.entries@[b].0@ by {
                        assert(es0[a].0@ != es0[b].0@);
                    }
                    lemma_map_of_entry(es0, i as int);
                }
                return ;
            }
            i += 1;
        }
        self.entries.push((key, value));
        proof {
            assert(self.entries@.drop_last() =~= es0);
            if old(self)@.contains_key(key@) {
                lemma_map_of_contains(es0, key@);
            }
        }
    }

    /// Binds `key` to `value` keeping the entries sorted by key; an
    /// existing entry is overwritten in place.
    pub fn insert_sorted(&mut self, key: String, value: String)
        requires
            old(self).sorted(),
        ensures
            final(self)@ == old(self)@.insert(key@, value@),
            final(self).sorted(),
            final(self).wf(),
    {
        proof {
            lemma_sorted_implies_unique(self.entries@);
        }
        let ghost es0 = self.entries@;
        let n = self.entries.len();
        let mut i: usize = 0;
        while i < n
            invariant
                i <= n,
                n == self.entries@.len(),
                self.entries@ == es0,
                es0 == old(self).entries@,
                keys_sorted(es0),
                keys_unique(es0),
                forall|j: int| 0 <= j < i ==> lex_lt(#[trigger] es0[j].0@, key@),
            decreases n - i,
        {
            let cur_lt = crate::strutil::chars_lt(
                &crate::strutil::to_chars(self.entries[i].0.as_str()),
                &crate::strutil::to_chars(key.as_str()),
            );
            if !cur_lt {
                if crate::strutil::str_eq(self.entries[i].0.as_str(), key.as_str()) {
                    let _replaced = self.entries.remove(i);
                    self.entries.insert(i, (key, value));
                    proof {
                        assert(self.entries@ =~= es0.update(i as int, self.entries@[i as int]));
                        lemma_map_of_update(es0, i as int, self.entries@[i as int]);
                        assert forall|a: int, b: int|
                            0 <= a < b < self.entries@.len() implies lex_lt(
                            self.entries@[a].0@,
                            self.entries@[b].0@,
                        ) by {
                            assert(lex_lt(es0[a].0@, es0[b].0@));
                        }
                        lemma_map_of_entry(es0, i as int);
                    }
                    return ;
                }
                // key goes right here: everything before is smaller and
                // the current entry is strictly larger
                proof {
                    lemma_lex_lt_trichotomy(es0[i as int].0@, key@);
                    assert(lex_lt(key@, es0[i as int].0@));
                    assert forall|j: int| 0 <= j < es0.len() implies es0[j].0@ != key@ by {
                        if j < i {
                            lemma_lex_lt_trichotomy(es0[j].0@, key@);
                        } else if j > i {
                            lemma_lex_lt_trans(key@, es0[i as int].0@, es0[j].0@);
                            lemma_lex_lt_trichotomy(es0[j].0@, key@);
                        }
                    }
                    lemma_map_of_insert_at(es0, i as int, (key, value));
                }
                let ghost kk = key@;
                self.entries.insert(i, (key, value));
                proof {
                    assert forall|a: int, b: int|
                        0 <= a < b < self.entries@.len() implies lex_lt(
                        self.entries@[a].0@,
                        self.entries@[b].0@,
                    ) by {
                        let ii = i as int;
                        if a < ii && b == ii {
                        } else if a == ii && b > ii {
                            if b - 1 > ii {
                                lemma_lex_lt_trans(kk, es0[ii].0@, es0[b - 1].0@);
                            }
                        } else if a < ii && b > ii {
                            assert(lex_lt(es0[a].0@, es0[b - 1].0@));
                        } else if a > ii && b > ii {
                            assert(lex_lt(es0[a - 1].0@, es0[b - 1].0@));
                        }
                    }
                }
                return ;
            }
            i += 1;
        }
        // larger than every present key: append
        proof {
            assert forall|j: int| 0 <= j < es0.len() implies es0[j].0@ != key@ by {
                lemma_lex_lt_trichotomy(es0[j].0@, key@);
            }
            lemma_map_of_insert_at(es0, es0.len() as int, (key, value));
        }
        let ghost kk = key@;
        self.entries.push((key, value));
        proof {
            assert(self.entries@ =~= es0.insert(es0.len() as int, self.entries@.last()));
            assert forall|a: int, b: int|
                0 <= a < b < self.entries@.len() implies lex_lt(
                self.entries@[a].0@,
                self.entries@[b].0@,
            ) by {
                if b < es0.len() {
                    assert(lex_lt(es0[a].0@, es0[b].0@));
                }
            }
        }
    }
}

} // verus!
