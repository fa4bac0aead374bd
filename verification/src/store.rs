//! The key-value backend: an insertion-ordered mapping from string keys to
//! string values, mutated by `set`, read by `get`, and scanned by `search`,
//! which reports every entry whose key or value contains a query as a
//! literal, case-sensitive substring.

use vstd::prelude::*;
use vstd::string::StrSliceExecFns;
use vstd::string::StringExecFns;

verus! {

/// The views of a sequence of entries: each key and value as a character
/// sequence, in insertion order.
pub open spec fn entry_views(es: Seq<(String, String)>) -> Seq<(Seq<char>, Seq<char>)> {
    es.map_values(|e: (String, String)| (e.0@, e.1@))
}

/// No two entries share a key.
pub open spec fn distinct_keys(es: Seq<(Seq<char>, Seq<char>)>) -> bool {
    forall|i: int, j: int|
        0 <= i < j < es.len() ==> (#[trigger] es[i]).0 != (#[trigger] es[j]).0
}

/// Whether some entry holds the key `k`.
pub open spec fn has_key(es: Seq<(Seq<char>, Seq<char>)>, k: Seq<char>) -> bool {
    exists|i: int| 0 <= i < es.len() && (#[trigger] es[i]).0 == k
}

/// The index of the entry holding `k`; with distinct keys there is at most
/// one.
pub open spec fn key_at(es: Seq<(Seq<char>, Seq<char>)>, k: Seq<char>) -> int {
    choose|i: int| 0 <= i < es.len() && (#[trigger] es[i]).0 == k
}

/// The value stored under `k`, if any.
pub open spec fn spec_lookup(es: Seq<(Seq<char>, Seq<char>)>, k: Seq<char>) -> Option<Seq<char>> {
    if has_key(es, k) {
        Some(es[key_at(es, k)].1)
    } else {
        None
    }
}

/// What `set` leaves behind: the value replaced in place when the key is
/// already present, a new entry appended otherwise.
pub open spec fn spec_set(
    es: Seq<(Seq<char>, Seq<char>)>,
    k: Seq<char>,
    v: Seq<char>,
) -> Seq<(Seq<char>, Seq<char>)> {
    if has_key(es, k) {
        es.update(key_at(es, k), (k, v))
    } else {
        es.push((k, v))
    }
}

/// `s` contains `sub` as a contiguous substring.
pub open spec fn spec_contains_sub(s: Seq<char>, sub: Seq<char>) -> bool {
    exists|i: int| 0 <= i <= s.len() - sub.len() && #[trigger] s.subrange(i, i + sub.len()) == sub
}

/// An entry is a search hit when its key or its value contains the query.
pub open spec fn entry_matches(e: (Seq<char>, Seq<char>), q: Seq<char>) -> bool {
    spec_contains_sub(e.0, q) || spec_contains_sub(e.1, q)
}

/// The line reported for a matching entry.
pub open spec fn spec_entry_line(e: (Seq<char>, Seq<char>)) -> Seq<char> {
    e.0 + ": "@ + e.1
}

/// The search report: one formatted line per matching entry, in insertion
/// order.
pub open spec fn spec_search(es: Seq<(Seq<char>, Seq<char>)>, q: Seq<char>) -> Seq<Seq<char>>
    decreases es.len(),
{
    if es.len() == 0 {
        Seq::empty()
    } else {
        let rest = spec_search(es.drop_last(), q);
        if entry_matches(es.last(), q) {
            rest.push(spec_entry_line(es.last()))
        } else {
            rest
        }
    }
}

/// How many entries match the query.
pub open spec fn spec_match_count(es: Seq<(Seq<char>, Seq<char>)>, q: Seq<char>) -> int
    decreases es.len(),
{
    if es.len() == 0 {
        0
    } else {
        spec_match_count(es.drop_last(), q) + if entry_matches(es.last(), q) {
            1int
        } else {
            0int
        }
    }
}

/// The search law: the report holds exactly one line per matching entry —
/// as many lines as there are matches — and it is empty exactly when no
/// entry matches.
pub proof fn lemma_search_count(es: Seq<(Seq<char>, Seq<char>)>, q: Seq<char>)
    ensures
        spec_search(es, q).len() == spec_match_count(es, q),
        0 <= spec_match_count(es, q) <= es.len(),
        (spec_search(es, q).len() == 0) <==> (forall|j: int|
            0 <= j < es.len() ==> !entry_matches(#[trigger] es[j], q)),
    decreases es.len(),
{
    if es.len() > 0 {
        lemma_search_count(es.drop_last(), q);
        let d = es.drop_last();
        assert(forall|j: int| 0 <= j < d.len() ==> #[trigger] d[j] == es[j]);
        if spec_search(es, q).len() == 0 {
            assert(!entry_matches(es.last(), q));
            assert forall|j: int| 0 <= j < es.len() implies !entry_matches(
                #[trigger] es[j],
                q,
            ) by {
                if j < es.len() - 1 {
                    assert(es[j] == d[j]);
                }
            }
        }
        if forall|j: int| 0 <= j < es.len() ==> !entry_matches(#[trigger] es[j], q) {
            assert(!entry_matches(es.last(), q));
        }
    }
}

/// Character-wise string equality.
pub fn str_eq(a: &str, b: &str) -> (r: bool)
    ensures
        r == (a@ == b@),
{
    let n = a.unicode_len();
    if n != b.unicode_len() {
        return false;
    }
    let mut i: usize = 0;
    while i < n
        invariant
            n == a@.len() == b@.len(),
            0 <= i <= n,
            forall|j: int| 0 <= j < i ==> a@[j] == b@[j],
        decreases n - i,
    {
        if a.get_char(i) != b.get_char(i) {
            return false;
        }
        i = i + 1;
    }
    proof {
        assert(a@ =~= b@);
    }
    true
}

/// Whether `s` contains `sub` as a literal, case-sensitive substring.
pub fn contains_substring(s: &str, sub: &str) -> (r: bool)
    ensures
        r == spec_contains_sub(s@, sub@),
{
    let n = s.unicode_len();
    let m = sub.unicode_len();
    if m > n {
        return false;
    }
    if m == 0 {
        proof {
            assert(s@.subrange(0, 0 + sub@.len() as int) =~= sub@);
            assert(spec_contains_sub(s@, sub@));
        }
        return true;
    }
    let mut i: usize = 0;
    while i <= n - m
        invariant
            n == s@.len(),
            m == sub@.len(),
            1 <= m <= n,
            0 <= i <= n - m + 1,
            forall|i2: int| 0 <= i2 < i ==> #[trigger] s@.subrange(i2, i2 + m) != sub@,
        decreases n - m + 1 - i,
    {
        let mut j: usize = 0;
        let mut matched = true;
        while j < m
            invariant
                n == s@.len(),
                m == sub@.len(),
                0 <= i <= n - m,
                0 <= j <= m,
                matched ==> forall|l: int| 0 <= l < j ==> s@[i + l] == sub@[l],
                !matched ==> s@.subrange(i as int, i + m) != sub@,
            decreases m - j,
        {
            if s.get_char(i + j) != sub.get_char(j) {
                proof {
                    assert(s@.subrange(i as int, i + m)[j as int] == s@[i + j]);
                }
                matched = false;
                j = m;
            } else {
                j = j + 1;
            }
        }
        if matched {
            proof {
                assert(s@.subrange(i as int, i + m) =~= sub@);
            }
            return true;
        }
        i = i + 1;
    }
    false
}

/// The key-value backend. Entries are kept in insertion order and keys are
/// unique.
pub struct KvStore {
    pub entries: Vec<(String, String)>,
}

impl KvStore {
    /// The store's entries as character sequences, in insertion order.
    pub open spec fn view_entries(&self) -> Seq<(Seq<char>, Seq<char>)> {
        entry_views(self.entries@)
    }

    /// Keys are unique.
    pub open spec fn wf(&self) -> bool {
        distinct_keys(self.view_entries())
    }

    /// An empty store.
    pub fn new() -> (s: KvStore)
        ensures
            s.wf(),
            s.view_entries() == Seq::<(Seq<char>, Seq<char>)>::empty(),
    {
        let s = KvStore { entries: Vec::new() };
        proof {
            assert(s.view_entries() =~= Seq::<(Seq<char>, Seq<char>)>::empty());
        }
        s
    }

    /// Reads the value stored under `key`: `Some` exactly when the key is
    /// present, and never an error. The store is not changed.
    pub fn get(&self, key: &str) -> (r: Option<String>)
        requires
            self.wf(),
        ensures
            match r {
                Some(v) => spec_lookup(self.view_entries(), key@) == Some(v@),
                None => spec_lookup(self.view_entries(), key@) is None,
            },
    {
        let ghost es = self.view_entries();
        let mut i: usize = 0;
        while i < self.entries.len()
            invariant
                self.wf(),
                es == self.view_entries(),
                es.len() == self.entries@.len(),
                0 <= i <= es.len(),
                forall|j: int| 0 <= j < i ==> (#[trigger] es[j]).0 != key@,
            decreases es.len() - i,
        {
            proof {
                assert(es[i as int] == (self.entries@[i as int].0@, self.entries@[i as int].1@));
            }
            if str_eq(self.entries[i].0.as_str(), key) {
                proof {
                    assert(has_key(es, key@));
                    let w = key_at(es, key@);
                    assert(0 <= w < es.len() && es[w].0 == key@);
                    if w != i as int {
                        assert((#[trigger] es[w]).0 != es[i as int].0 || es[i as int].0 != es[w].0
                            || w == i as int);
                    }
                    assert(w == i as int);
                }
                return Some(self.entries[i].1.clone());
            }
            i = i + 1;
        }
        proof {
            assert(!has_key(es, key@));
        }
        None
    }

    /// Stores `value` under `key`, replacing in place any value the key
    /// already had and appending a new entry otherwise.
    pub fn set(&mut self, key: String, value: String)
        requires
            old(self).wf(),
        ensures
            final(self).wf(),
            final(self).view_entries() == spec_set(old(self).view_entries(), key@, value@),
    {
        let ghost es = self.view_entries();
        let mut i: usize = 0;
        while i < self.entries.len()
            invariant
                *self == *old(self),
                self.wf(),
                es == self.view_entries(),
                es.len() == self.entries@.len(),
                0 <= i <= es.len(),
                forall|j: int| 0 <= j < i ==> (#[trigger] es[j]).0 != key@,
            decreases es.len() - i,
        {
            proof {
                assert(es[i as int] == (self.entries@[i as int].0@, self.entries@[i as int].1@));
            }
            if str_eq(self.entries[i].0.as_str(), key.as_str()) {
                proof {
                    assert(has_key(es, key@));
                    let w = key_at(es, key@);
                    assert(0 <= w < es.len() && es[w].0 == key@);
                    assert(w == i as int);
                }
                self.entries.remove(i);
                self.entries.insert(i, (key, value));
                proof {
                    assert(self.entries@ =~= old(self).entries@.update(i as int, (key, value)));
                    assert(self.view_entries() =~= es.update(i as int, (key@, value@)));
                    assert(self.view_entries() =~= spec_set(es, key@, value@));
                    assert(distinct_keys(self.view_entries()));
                }
                return ;
            }
            i = i + 1;
        }
        proof {
            assert(!has_key(es, key@));
        }
        self.entries.push((key, value));
        proof {
            assert(self.view_entries() =~= es.push((key@, value@)));
            assert(self.view_entries() =~= spec_set(es, key@, value@));
            assert forall|a: int, b: int|
                0 <= a < b < self.view_entries().len() implies (#[trigger] self.view_entries()[a]).0
                != (#[trigger] self.view_entries()[b]).0 by {
                if b < es.len() {
                } else {
                    assert(self.view_entries()[b].0 == key@);
                    assert(self.view_entries()[a] == es[a]);
                }
            }
        }
    }

    /// Scans every entry, in insertion order, and reports a formatted
    /// `key: value` line for each whose key or value contains `query` as a
    /// literal, case-sensitive substring. The store is not changed.
    pub fn search(&self, query: &str) -> (r: Vec<String>)
        requires
            self.wf(),
        ensures
            r.deep_view() == spec_search(self.view_entries(), query@),
    {
        let ghost es = self.view_entries();
        let mut out: Vec<String> = Vec::new();
        let mut i: usize = 0;
        proof {
            assert(es.take(0) =~= Seq::<(Seq<char>, Seq<char>)>::empty());
            assert(out.deep_view() =~= spec_search(es.take(0), query@));
        }
        while i < self.entries.len()
            invariant
                self.wf(),
                es == self.view_entries(),
                es.len() == self.entries@.len(),
                0 <= i <= es.len(),
                out.deep_view() == spec_search(es.take(i as int), query@),
            decreases es.len() - i,
        {
            proof {
                assert(es[i as int] == (self.entries@[i as int].0@, self.entries@[i as int].1@));
            }
            let hit = contains_substring(self.entries[i].0.as_str(), query)
                || contains_substring(self.entries[i].1.as_str(), query);
            let ghost pre = out.deep_view();
            if hit {
                let mut line = self.entries[i].0.clone();
                line.append(": ");
                line.append(self.entries[i].1.as_str());
                proof {
                    assert(line@ == spec_entry_line(es[i as int]));
                }
                out.push(line);
            }
            i = i + 1;
            proof {
                let t = es.take(i as int);
                assert(t.drop_last() =~= es.take(i as int - 1));
                assert(t.last() == es[i as int - 1]);
                assert(hit == entry_matches(es[i as int - 1], query@));
                if hit {
                    assert(out.deep_view() =~= pre.push(spec_entry_line(es[i as int - 1])));
                } else {
                    assert(out.deep_view() =~= pre);
                }
                assert(out.deep_view() =~= spec_search(t, query@));
            }
        }
        proof {
            assert(es.take(es.len() as int) =~= es);
        }
        out
    }
}

/// The round-trip law of the key-value store: after setting a key, reading
/// that key yields exactly the value just stored, every other key reads as
/// before, and keys stay unique.
pub proof fn lemma_set_get_round_trip(
    es: Seq<(Seq<char>, Seq<char>)>,
    k: Seq<char>,
    v: Seq<char>,
    k2: Seq<char>,
)
    requires
        distinct_keys(es),
    ensures
        spec_lookup(spec_set(es, k, v), k) == Some(v),
        k2 != k ==> spec_lookup(spec_set(es, k, v), k2) == spec_lookup(es, k2),
        distinct_keys(spec_set(es, k, v)),
{
    let after = spec_set(es, k, v);
    if has_key(es, k) {
        let idx = key_at(es, k);
        assert(0 <= idx < es.len() && es[idx].0 == k);
        assert(after[idx].0 == k);
        assert(has_key(after, k));
        assert forall|a: int, b: int| 0 <= a < b < after.len() implies (#[trigger] after[a]).0 != (
        #[trigger] after[b]).0 by {
            assert(es[a].0 != es[b].0);
        }
        let w = key_at(after, k);
        assert(0 <= w < after.len() && after[w].0 == k);
        if w != idx {
            assert(after[w] == es[w]);
            assert(es[w].0 != es[idx].0 || es[idx].0 != es[w].0 || w == idx);
        }
        assert(w == idx);
        assert(spec_lookup(after, k) == Some(v));
        if k2 != k {
            if has_key(after, k2) {
                let w2 = key_at(after, k2);
                assert(0 <= w2 < after.len() && after[w2].0 == k2);
                assert(w2 != idx);
                assert(after[w2] == es[w2]);
                assert(has_key(es, k2));
                let w3 = key_at(es, k2);
                assert(0 <= w3 < es.len() && es[w3].0 == k2);
                if w3 != w2 {
                    assert(es[w3].0 != es[w2].0 || es[w2].0 != es[w3].0 || w3 == w2);
                }
                assert(w3 == w2);
                assert(spec_lookup(after, k2) == spec_lookup(es, k2));
            } else {
                assert forall|j: int| 0 <= j < es.len() implies (#[trigger] es[j]).0 != k2 by {
                    if j == idx {
                    } else {
                        assert(after[j] == es[j]);
                        assert(after[j].0 != k2);
                    }
                }
                assert(!has_key(es, k2));
            }
        }
    } else {
        let idx = es.len() as int;
        assert(after =~= es.push((k, v)));
        assert(after[idx].0 == k);
        assert(has_key(after, k));
        assert forall|a: int, b: int| 0 <= a < b < after.len() implies (#[trigger] after[a]).0 != (
        #[trigger] after[b]).0 by {
            if b < es.len() {
                assert(es[a].0 != es[b].0);
            } else {
                assert(after[b].0 == k);
                assert(after[a] == es[a]);
            }
        }
        let w = key_at(after, k);
        assert(0 <= w < after.len() && after[w].0 == k);
        if w != idx {
            assert(after[w] == es[w]);
        }
        assert(w == idx);
        assert(spec_lookup(after, k) == Some(v));
        if k2 != k {
            if has_key(after, k2) {
                let w2 = key_at(after, k2);
                assert(0 <= w2 < after.len() && after[w2].0 == k2);
                assert(w2 != idx);
                assert(after[w2] == es[w2]);
                assert(has_key(es, k2));
                let w3 = key_at(es, k2);
                if w3 != w2 {
                    assert(es[w3].0 != es[w2].0 || es[w2].0 != es[w3].0 || w3 == w2);
                }
                assert(spec_lookup(after, k2) == spec_lookup(es, k2));
            } else {
                assert forall|j: int| 0 <= j < es.len() implies (#[trigger] es[j]).0 != k2 by {
                    assert(after[j] == es[j]);
                    assert(after[j].0 != k2);
                }
                assert(!has_key(es, k2));
            }
        }
    }
}

} // verus!
