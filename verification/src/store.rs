//! The key-value store: an in-memory map from string keys to encoded
//! byte payloads, with whole-map snapshot persistence.
//!
//! [`Database`] holds the map itself; [`Store`] is the public handle that
//! wraps it together with the persistence path.  Every mutation hands the
//! caller a fresh snapshot of the whole map, to be written to the backing
//! file; opening a store turns such a snapshot back into the same map.
//! Entries are kept with unique keys in strictly ascending order, so the
//! snapshot is canonical: equal maps always encode to identical bytes.

use vstd::prelude::*;

use crate::codec::{decode_entries, encode_entries, entry_views, snapshot_bytes};

verus! {

/// The errors the store itself can produce.  Filesystem failures belong
/// to the caller that carries snapshots to and from disk, and so do the
/// errors of encoding or decoding a typed value.
#[derive(Debug, Clone)]
pub enum StoreError {
    /// The given bytes are not a valid snapshot encoding.
    Deserialization,
    /// `get` was asked for a key that is not in the store.
    KeyNotFound(String),
}

/// The map described by an entry list: entries are folded left to right,
/// so a later entry for a key overrides an earlier one.
pub open spec fn entry_map(s: Seq<(Seq<char>, Seq<u8>)>) -> Map<Seq<char>, Seq<u8>>
    decreases s.len(),
{
    if s.len() == 0 {
        Map::empty()
    } else {
        entry_map(s.drop_last()).insert(s.last().0, s.last().1)
    }
}

/// Strict lexicographic order on keys, by character code point.
pub open spec fn lex_lt(a: Seq<char>, b: Seq<char>) -> bool
    decreases a.len(),
{
    if b.len() == 0 {
        false
    } else if a.len() == 0 {
        true
    } else if a[0] == b[0] {
        lex_lt(a.drop_first(), b.drop_first())
    } else {
        (a[0] as u32) < (b[0] as u32)
    }
}

/// No two entries share a key.
pub open spec fn distinct_keys(s: Seq<(Seq<char>, Seq<u8>)>) -> bool {
    forall|i: int, j: int| 0 <= i < j < s.len() ==> s[i].0 != s[j].0
}

/// Entry keys in strictly ascending lexicographic order.
pub open spec fn sorted_keys(s: Seq<(Seq<char>, Seq<u8>)>) -> bool {
    forall|i: int, j: int| 0 <= i < j < s.len() ==> lex_lt(s[i].0, s[j].0)
}

/// The in-memory map from key to encoded payload, plus the encode and
/// decode halves of snapshot persistence.
#[derive(Debug)]
pub struct Database {
    entries: Vec<(String, Vec<u8>)>,
}

/// Distinct characters have distinct code points.
proof fn lemma_char_inj(c1: char, c2: char)
    requires
        c1 != c2,
    ensures
        c1 as u32 != c2 as u32,
{
}

/// Two distinct keys compare one way or the other.
proof fn lemma_lex_connex(a: Seq<char>, b: Seq<char>)
    ensures
        lex_lt(a, b) || lex_lt(b, a) || a == b,
    decreases a.len(),
{
    if b.len() == 0 {
        if a.len() == 0 {
            assert(a =~= b);
        }
    } else if a.len() == 0 {
    } else if a[0] == b[0] {
        lemma_lex_connex(a.drop_first(), b.drop_first());
        if !lex_lt(a, b) && !lex_lt(b, a) {
            assert(a.drop_first() == b.drop_first());
            assert(a.drop_first().len() == a.len() - 1);
            assert(b.drop_first().len() == b.len() - 1);
            assert forall|i: int| 0 <= i < a.len() implies a[i] == b[i] by {
                if i > 0 {
                    assert(a.drop_first()[i - 1] == a[i]);
                    assert(b.drop_first()[i - 1] == b[i]);
                }
            }
            assert(a =~= b);
        }
    } else {
        lemma_char_inj(a[0], b[0]);
    }
}

/// The order is asymmetric (and so irreflexive).
proof fn lemma_lex_asym(a: Seq<char>, b: Seq<char>)
    ensures
        !(lex_lt(a, b) && lex_lt(b, a)),
    decreases a.len(),
{
    if a.len() > 0 && b.len() > 0 && a[0] == b[0] {
        lemma_lex_asym(a.drop_first(), b.drop_first());
    }
}

/// The order is transitive.
proof fn lemma_lex_trans(a: Seq<char>, b: Seq<char>, c: Seq<char>)
    requires
        lex_lt(a, b),
        lex_lt(b, c),
    ensures
        lex_lt(a, c),
    decreases a.len() + b.len() + c.len(),
{
    if a.len() > 0 {
        if a[0] == b[0] && b[0] == c[0] {
            lemma_lex_trans(a.drop_first(), b.drop_first(), c.drop_first());
        }
    }
}

/// Skipping an equal prefix does not change how two keys compare.
proof fn lemma_lex_skip(a: Seq<char>, b: Seq<char>, i: int)
    requires
        0 <= i <= a.len(),
        i <= b.len(),
        forall|j: int| 0 <= j < i ==> a[j] == b[j],
    ensures
        lex_lt(a, b) == lex_lt(a.skip(i), b.skip(i)),
    decreases i,
{
    if i > 0 {
        assert(a[0] == b[0]);
        assert forall|j: int| 0 <= j < i - 1 implies a.drop_first()[j] == b.drop_first()[j] by {
            assert(a.drop_first()[j] == a[j + 1]);
            assert(b.drop_first()[j] == b[j + 1]);
        }
        lemma_lex_skip(a.drop_first(), b.drop_first(), i - 1);
        assert(a.drop_first().skip(i - 1) =~= a.skip(i));
        assert(b.drop_first().skip(i - 1) =~= b.skip(i));
    } else {
        assert(a.skip(0) =~= a);
        assert(b.skip(0) =~= b);
    }
}

proof fn lemma_distinct_drop_last(s: Seq<(Seq<char>, Seq<u8>)>)
    requires
        distinct_keys(s),
        sorted_keys(s),
        s.len() > 0,
    ensures
        distinct_keys(s.drop_last()),
        sorted_keys(s.drop_last()),
{
    assert forall|i: int, j: int| 0 <= i < j < s.drop_last().len() implies s.drop_last()[i].0
        != s.drop_last()[j].0 && lex_lt(s.drop_last()[i].0, s.drop_last()[j].0) by {
        assert(s.drop_last()[i] == s[i]);
        assert(s.drop_last()[j] == s[j]);
    }
}

/// A key is in the map of an entry list exactly when some entry carries it.
proof fn lemma_entry_map_contains(s: Seq<(Seq<char>, Seq<u8>)>, k: Seq<char>)
    ensures
        entry_map(s).contains_key(k) <==> (exists|i: int| 0 <= i < s.len() && s[i].0 == k),
    decreases s.len(),
{
    if s.len() > 0 {
        lemma_entry_map_contains(s.drop_last(), k);
        if s.last().0 == k {
            assert(s[s.len() - 1].0 == k);
        } else {
            if exists|i: int| 0 <= i < s.len() && s[i].0 == k {
                let i = choose|i: int| 0 <= i < s.len() && s[i].0 == k;
                assert(s.drop_last()[i] == s[i]);
            }
            if exists|i: int| 0 <= i < s.drop_last().len() && s.drop_last()[i].0 == k {
                let i = choose|i: int| 0 <= i < s.drop_last().len() && s.drop_last()[i].0 == k;
                assert(s[i] == s.drop_last()[i]);
            }
        }
    }
}

/// With distinct keys, each entry is what the map stores for its key.
proof fn lemma_entry_map_index(s: Seq<(Seq<char>, Seq<u8>)>, i: int)
    requires
        distinct_keys(s),
        0 <= i < s.len(),
    ensures
        entry_map(s).contains_key(s[i].0),
        entry_map(s)[s[i].0] == s[i].1,
    decreases s.len(),
{
    if i < s.len() - 1 {
        assert forall|a: int, b: int| 0 <= a < b < s.drop_last().len() implies s.drop_last()[a].0
            != s.drop_last()[b].0 by {
            assert(s.drop_last()[a] == s[a]);
            assert(s.drop_last()[b] == s[b]);
        }
        lemma_entry_map_index(s.drop_last(), i);
        assert(s.drop_last()[i] == s[i]);
        assert(s[i].0 != s[s.len() - 1].0);
    }
}

/// Appending an entry updates the map at that entry's key.
proof fn lemma_entry_map_push(s: Seq<(Seq<char>, Seq<u8>)>, k: Seq<char>, v: Seq<u8>)
    ensures
        entry_map(s.push((k, v))) == entry_map(s).insert(k, v),
{
    assert(s.push((k, v)).drop_last() =~= s);
    assert(s.push((k, v)).last() == (k, v));
}

/// With distinct keys, dropping the entry at an index removes exactly
/// that entry's key from the map.
proof fn lemma_entry_map_remove_at(s: Seq<(Seq<char>, Seq<u8>)>, i: int)
    requires
        distinct_keys(s),
        0 <= i < s.len(),
    ensures
        entry_map(s.remove(i)) == entry_map(s).remove(s[i].0),
    decreases s.len(),
{
    let k = s[i].0;
    if i == s.len() - 1 {
        assert(s.remove(i) =~= s.drop_last());
        lemma_entry_map_contains(s.drop_last(), k);
        assert forall|j: int| 0 <= j < s.drop_last().len() implies s.drop_last()[j].0 != k by {
            assert(s.drop_last()[j] == s[j]);
        }
        assert(!entry_map(s.drop_last()).contains_key(k));
        assert(entry_map(s).remove(k) =~= entry_map(s.drop_last()));
    } else {
        let dl = s.drop_last();
        assert forall|a: int, b: int| 0 <= a < b < dl.len() implies dl[a].0 != dl[b].0 by {
            assert(dl[a] == s[a]);
            assert(dl[b] == s[b]);
        }
        lemma_entry_map_remove_at(dl, i);
        assert(s.remove(i).drop_last() =~= dl.remove(i));
        assert(s.remove(i).last() == s.last());
        assert(entry_map(s.remove(i)) == entry_map(dl.remove(i)).insert(s.last().0, s.last().1));
        assert(s.last().0 != k);
        assert(entry_map(dl).remove(k).insert(s.last().0, s.last().1) =~= entry_map(dl).insert(
            s.last().0,
            s.last().1,
        ).remove(k));
    }
}

/// Inserting an entry whose key is fresh updates the map at that key,
/// wherever the entry is placed.
proof fn lemma_entry_map_insert_at(s: Seq<(Seq<char>, Seq<u8>)>, p: int, k: Seq<char>, v: Seq<u8>)
    requires
        0 <= p <= s.len(),
        forall|j: int| 0 <= j < s.len() ==> s[j].0 != k,
    ensures
        entry_map(s.insert(p, (k, v))) == entry_map(s).insert(k, v),
    decreases s.len(),
{
    if p == s.len() {
        assert(s.insert(p, (k, v)) =~= s.push((k, v)));
        lemma_entry_map_push(s, k, v);
    } else {
        let dl = s.drop_last();
        assert(s.insert(p, (k, v)).drop_last() =~= dl.insert(p, (k, v)));
        assert(s.insert(p, (k, v)).last() == s.last());
        assert forall|j: int| 0 <= j < dl.len() implies dl[j].0 != k by {
            assert(dl[j] == s[j]);
        }
        lemma_entry_map_insert_at(dl, p, k, v);
        assert(s.last().0 != k);
        assert(entry_map(dl).insert(k, v).insert(s.last().0, s.last().1) =~= entry_map(dl).insert(
            s.last().0,
            s.last().1,
        ).insert(k, v));
    }
}

/// Two well-formed entry lists that describe the same map are the same
/// list: sorted, duplicate-free entries are canonical.
proof fn lemma_sorted_unique(s1: Seq<(Seq<char>, Seq<u8>)>, s2: Seq<(Seq<char>, Seq<u8>)>)
    requires
        distinct_keys(s1),
        sorted_keys(s1),
        distinct_keys(s2),
        sorted_keys(s2),
        entry_map(s1) == entry_map(s2),
    ensures
        s1 == s2,
    decreases s1.len(),
{
    if s1.len() == 0 {
        if s2.len() > 0 {
            lemma_entry_map_index(s2, 0);
            assert(entry_map(s1).contains_key(s2[0].0));
            assert(false);
        }
        assert(s1 =~= s2);
    } else if s2.len() == 0 {
        lemma_entry_map_index(s1, 0);
        assert(entry_map(s2).contains_key(s1[0].0));
        assert(false);
    } else {
        let k1 = s1.last().0;
        let k2 = s2.last().0;
        lemma_entry_map_index(s1, s1.len() - 1);
        lemma_entry_map_contains(s2, k1);
        let j = choose|j: int| 0 <= j < s2.len() && s2[j].0 == k1;
        lemma_entry_map_index(s2, s2.len() - 1);
        lemma_entry_map_contains(s1, k2);
        let m = choose|m: int| 0 <= m < s1.len() && s1[m].0 == k2;
        if j < s2.len() - 1 && m < s1.len() - 1 {
            // each last key would order strictly below the other
            assert(lex_lt(k1, k2));
            assert(lex_lt(k2, k1));
            lemma_lex_asym(k1, k2);
            assert(false);
        }
        assert(k1 == k2);
        assert(entry_map(s1)[k1] == s1.last().1);
        assert(entry_map(s2)[k1] == s2.last().1);
        assert(s1.last() == s2.last());
        assert(s1.remove(s1.len() - 1) =~= s1.drop_last());
        lemma_entry_map_remove_at(s1, s1.len() - 1);
        assert(s2.remove(s2.len() - 1) =~= s2.drop_last());
        lemma_entry_map_remove_at(s2, s2.len() - 1);
        assert(entry_map(s1.drop_last()) == entry_map(s2.drop_last()));
        lemma_distinct_drop_last(s1);
        lemma_distinct_drop_last(s2);
        lemma_sorted_unique(s1.drop_last(), s2.drop_last());
        assert forall|i: int| 0 <= i < s1.len() implies s1[i] == s2[i] by {
            if i < s1.len() - 1 {
                assert(s1.drop_last()[i] == s1[i]);
                assert(s2.drop_last()[i] == s2[i]);
            }
        }
        assert(s1 =~= s2);
    }
}

/// Taking views commutes with removing an entry.
proof fn lemma_entry_views_remove(s: Seq<(String, Vec<u8>)>, i: int)
    requires
        0 <= i < s.len(),
    ensures
        entry_views(s.remove(i)) == entry_views(s).remove(i),
{
    assert(entry_views(s.remove(i)) =~= entry_views(s).remove(i));
}

/// Taking views commutes with inserting an entry.
proof fn lemma_entry_views_insert(s: Seq<(String, Vec<u8>)>, i: int, e: (String, Vec<u8>))
    requires
        0 <= i <= s.len(),
    ensures
        entry_views(s.insert(i, e)) == entry_views(s).insert(i, (e.0@, e.1@)),
{
    assert(entry_views(s.insert(i, e)) =~= entry_views(s).insert(i, (e.0@, e.1@)));
}

/// Whether `a` orders strictly below `b`, by character code point.
fn key_lt(a: &String, b: &String) -> (r: bool)
    ensures
        r == lex_lt(a@, b@),
{
    let a_str = a.as_str();
    let b_str = b.as_str();
    let a_len = a_str.unicode_len();
    let b_len = b_str.unicode_len();
    let mut i: usize = 0;
    loop
        invariant
            i <= a_len,
            i <= b_len,
            a_len == a_str@.len(),
            b_len == b_str@.len(),
            a_str@ == a@,
            b_str@ == b@,
            forall|j: int| 0 <= j < i ==> a@[j] == b@[j],
        decreases a_len - i,
    {
        if i == a_len || i == b_len {
            proof {
                lemma_lex_skip(a@, b@, i as int);
            }
            return a_len < b_len;
        }
        let ca = a_str.get_char(i);
        let cb = b_str.get_char(i);
        if ca != cb {
            proof {
                lemma_lex_skip(a@, b@, i as int);
                assert(a@.skip(i as int)[0] == a@[i as int]);
                assert(b@.skip(i as int)[0] == b@[i as int]);
            }
            return (ca as u32) < (cb as u32);
        }
        i += 1;
    }
}

/// The index of the entry that carries `key`, if any.
fn position_of(entries: &Vec<(String, Vec<u8>)>, key: &String) -> (r: Option<usize>)
    ensures
        match r {
            Some(i) => i < entries.len() && entry_views(entries@)[i as int].0 == key@,
            None => forall|j: int| 0 <= j < entries@.len() ==> entry_views(entries@)[j].0 != key@,
        },
{
    let n = entries.len();
    let mut i: usize = 0;
    while i < n
        invariant
            n == entries.len(),
            i <= n,
            forall|j: int| 0 <= j < i ==> entry_views(entries@)[j].0 != key@,
        decreases n - i,
    {
        if entries[i].0 == *key {
            return Some(i);
        }
        i += 1;
    }
    None
}

/// The number of entries whose key orders strictly below `key`: in a
/// sorted entry list, the position where `key` belongs.
fn lower_bound(entries: &Vec<(String, Vec<u8>)>, key: &String) -> (r: usize)
    ensures
        r <= entries.len(),
        forall|j: int| 0 <= j < r ==> lex_lt(entry_views(entries@)[j].0, key@),
        r < entries.len() ==> !lex_lt(entry_views(entries@)[r as int].0, key@),
{
    let n = entries.len();
    let mut i: usize = 0;
    while i < n
        invariant
            n == entries.len(),
            i <= n,
            forall|j: int| 0 <= j < i ==> lex_lt(entry_views(entries@)[j].0, key@),
        decreases n - i,
    {
        if !key_lt(&entries[i].0, key) {
            return i;
        }
        i += 1;
    }
    n
}

/// A fresh vector with the same bytes.
fn copy_bytes(src: &Vec<u8>) -> (r: Vec<u8>)
    ensures
        r@ == src@,
{
    let n = src.len();
    let mut out: Vec<u8> = Vec::new();
    let mut i: usize = 0;
    while i < n
        invariant
            n == src.len(),
            i <= n,
            out@ == src@.subrange(0, i as int),
        decreases n - i,
    {
        out.push(src[i]);
        proof {
            assert(out@ =~= src@.subrange(0, i as int + 1));
        }
        i += 1;
    }
    proof {
        assert(src@.subrange(0, n as int) =~= src@);
    }
    out
}

/// Whether two byte vectors hold the same bytes.
fn bytes_equal(a: &Vec<u8>, b: &Vec<u8>) -> (r: bool)
    ensures
        r == (a@ == b@),
{
    if a.len() != b.len() {
        return false;
    }
    let n = a.len();
    let mut i: usize = 0;
    while i < n
        invariant
            n == a.len(),
            n == b.len(),
            i <= n,
            forall|j: int| 0 <= j < i ==> a@[j] == b@[j],
        decreases n - i,
    {
        if a[i] != b[i] {
            return false;
        }
        i += 1;
    }
    proof {
        assert(a@ =~= b@);
    }
    true
}

impl View for Database {
    type V = Map<Seq<char>, Seq<u8>>;

    open spec fn view(&self) -> Map<Seq<char>, Seq<u8>> {
        entry_map(self.entries_seq())
    }
}

impl Database {
    /// The contents of the database, entry by entry.
    pub closed spec fn entries_seq(&self) -> Seq<(Seq<char>, Seq<u8>)> {
        entry_views(self.entries@)
    }

    /// Every key appears in exactly one entry, and the entries stand in
    /// strictly ascending key order, so the contents are a function of
    /// the map alone.
    pub open spec fn wf(&self) -> bool {
        distinct_keys(self.entries_seq()) && sorted_keys(self.entries_seq())
    }

    /// An empty database.
    pub fn new() -> (r: Database)
        ensures
            r@ == Map::<Seq<char>, Seq<u8>>::empty(),
            r.wf(),
            r.entries_seq() == Seq::<(Seq<char>, Seq<u8>)>::empty(),
    {
        let r = Database { entries: Vec::new() };
        proof {
            assert(r.entries_seq() =~= Seq::<(Seq<char>, Seq<u8>)>::empty());
        }
        r
    }

    /// Insert or replace the entry for `key`, keeping the entries in
    /// ascending key order.
    pub fn set(&mut self, key: String, value: Vec<u8>)
        requires
            old(self).wf(),
        ensures
            final(self).wf(),
            final(self)@ == old(self)@.insert(key@, value@),
    {
        let ghost s0 = self.entries_seq();
        let p = lower_bound(&self.entries, &key);
        if p < self.entries.len() && self.entries[p].0 == key {
            // the key is present at p: replace its payload in place
            let _replaced = self.entries.remove(p);
            proof {
                lemma_entry_views_remove(old(self).entries@, p as int);
                lemma_entry_map_remove_at(s0, p as int);
                assert(self.entries_seq() == s0.remove(p as int));
                // the removed entry held the only copy of the key
                assert forall|j: int|
                    0 <= j < self.entries_seq().len() implies self.entries_seq()[j].0 != key@ by {
                    if j < p {
                        assert(s0.remove(p as int)[j] == s0[j]);
                    } else {
                        assert(s0.remove(p as int)[j] == s0[j + 1]);
                    }
                }
            }
            let ghost s1 = self.entries_seq();
            self.entries.insert(p, (key, value));
            proof {
                lemma_entry_views_insert(old(self).entries@.remove(p as int), p as int, (key, value));
                assert(self.entries_seq() == s1.insert(p as int, (key@, value@)));
                lemma_entry_map_insert_at(s1, p as int, key@, value@);
                assert(old(self)@.remove(key@).insert(key@, value@) =~= old(self)@.insert(
                    key@,
                    value@,
                ));
                // entry keys are unchanged position by position
                assert forall|x: int|
                    0 <= x < self.entries_seq().len() implies self.entries_seq()[x].0
                    == s0[x].0 by {
                    if x < p {
                        assert(s1.insert(p as int, (key@, value@))[x] == s1[x]);
                        assert(s1[x] == s0.remove(p as int)[x]);
                    } else if x > p {
                        assert(s1.insert(p as int, (key@, value@))[x] == s1[x - 1]);
                        assert(s1[x - 1] == s0.remove(p as int)[x - 1]);
                        assert(s0.remove(p as int)[x - 1] == s0[x]);
                    }
                }
                assert forall|a: int, b: int|
                    0 <= a < b < self.entries_seq().len() implies self.entries_seq()[a].0
                    != self.entries_seq()[b].0 && lex_lt(
                    self.entries_seq()[a].0,
                    self.entries_seq()[b].0,
                ) by {
                    assert(s0[a].0 != s0[b].0);
                    assert(lex_lt(s0[a].0, s0[b].0));
                }
            }
        } else {
            // the key is absent: insert at its sorted position
            proof {
                // below p every key orders below `key`; from p on, above it
                assert forall|j: int|
                    p <= j < s0.len() implies lex_lt(key@, s0[j].0) && s0[j].0 != key@ by {
                    lemma_lex_connex(s0[p as int].0, key@);
                    if j > p {
                        lemma_lex_trans(key@, s0[p as int].0, s0[j].0);
                    }
                    lemma_lex_asym(key@, s0[j].0);
                }
                assert forall|j: int| 0 <= j < p implies s0[j].0 != key@ by {
                    lemma_lex_asym(s0[j].0, key@);
                }
            }
            self.entries.insert(p, (key, value));
            proof {
                lemma_entry_views_insert(old(self).entries@, p as int, (key, value));
                assert(self.entries_seq() == s0.insert(p as int, (key@, value@)));
                lemma_entry_map_insert_at(s0, p as int, key@, value@);
                let t = s0.insert(p as int, (key@, value@));
                assert forall|a: int, b: int|
                    0 <= a < b < t.len() implies t[a].0 != t[b].0 && lex_lt(t[a].0, t[b].0) by {
                    if a < p {
                        assert(t[a] == s0[a]);
                    } else if a == p {
                        assert(t[a] == (key@, value@));
                    } else {
                        assert(t[a] == s0[a - 1]);
                    }
                    if b < p {
                        assert(t[b] == s0[b]);
                    } else if b == p {
                        assert(t[b] == (key@, value@));
                    } else {
                        assert(t[b] == s0[b - 1]);
                    }
                    if a < p && b == p {
                        lemma_lex_asym(s0[a].0, key@);
                    } else if a == p && b > p {
                        lemma_lex_asym(key@, s0[b - 1].0);
                    }
                }
            }
        }
    }

    /// Look up `key` and hand back a copy of its payload, or report that
    /// the key is absent.
    pub fn get(&self, key: &String) -> (r: Result<Vec<u8>, StoreError>)
        requires
            self.wf(),
        ensures
            self@.contains_key(key@) ==> (r matches Ok(v) && v@ == self@[key@]),
            !self@.contains_key(key@) ==> (r matches Err(e) && e matches StoreError::KeyNotFound(
                k,
            ) && k@ == key@),
    {
        proof {
            lemma_entry_map_contains(self.entries_seq(), key@);
        }
        match position_of(&self.entries, key) {
            Some(i) => {
                proof {
                    lemma_entry_map_index(self.entries_seq(), i as int);
                }
                let payload = copy_bytes(&self.entries[i].1);
                Ok(payload)
            },
            None => Err(StoreError::KeyNotFound(key.clone())),
        }
    }

    /// Delete the entry for `key`; an absent key is a no-op.
    pub fn remove(&mut self, key: &String)
        requires
            old(self).wf(),
        ensures
            final(self).wf(),
            final(self)@ == old(self)@.remove(key@),
    {
        let ghost s0 = self.entries_seq();
        proof {
            lemma_entry_map_contains(s0, key@);
        }
        match position_of(&self.entries, key) {
            Some(i) => {
                let _removed = self.entries.remove(i);
                proof {
                    lemma_entry_views_remove(old(self).entries@, i as int);
                    lemma_entry_map_remove_at(s0, i as int);
                    assert(self.entries_seq() == s0.remove(i as int));
                    assert forall|a: int, b: int|
                        0 <= a < b < self.entries_seq().len() implies self.entries_seq()[a].0
                        != self.entries_seq()[b].0 && lex_lt(
                        self.entries_seq()[a].0,
                        self.entries_seq()[b].0,
                    ) by {
                        let sa = if a < i {
                            a
                        } else {
                            a + 1
                        };
                        let sb = if b < i {
                            b
                        } else {
                            b + 1
                        };
                        assert(s0.remove(i as int)[a] == s0[sa]);
                        assert(s0.remove(i as int)[b] == s0[sb]);
                        assert(s0[sa].0 != s0[sb].0);
                        assert(lex_lt(s0[sa].0, s0[sb].0));
                    }
                }
            },
            None => {
                proof {
                    assert(!old(self)@.contains_key(key@));
                    assert(old(self)@.remove(key@) =~= old(self)@);
                }
            },
        }
    }

    /// Encode the whole database into one snapshot byte string.  The
    /// encoding is a function of the contents alone, and encoding never
    /// fails.
    pub fn encode(&self) -> (r: Vec<u8>)
        ensures
            r@ == snapshot_bytes(self.entries_seq()),
    {
        match encode_entries(&self.entries) {
            Ok(bytes) => bytes,
            Err(_) => {
                // encoding an entry list cannot fail; the branch is
                // provably unreachable
                proof {
                    assert(false);
                }
                Vec::new()
            },
        }
    }

    /// Build a database from an entry list, later entries overriding
    /// earlier ones.
    pub fn from_entries(entries: Vec<(String, Vec<u8>)>) -> (r: Database)
        ensures
            r@ == entry_map(entry_views(entries@)),
            r.wf(),
    {
        let ghost s = entry_views(entries@);
        let mut db = Database::new();
        let n = entries.len();
        let mut i: usize = 0;
        while i < n
            invariant
                n == entries.len(),
                i <= n,
                s == entry_views(entries@),
                s.len() == n,
                db.wf(),
                db@ == entry_map(s.take(i as int)),
            decreases n - i,
        {
            let key = entries[i].0.clone();
            let value = copy_bytes(&entries[i].1);
            proof {
                assert(s.take(i as int + 1).drop_last() =~= s.take(i as int));
                assert(s.take(i as int + 1).last() == s[i as int]);
                assert(s[i as int] == (entries@[i as int].0@, entries@[i as int].1@));
            }
            db.set(key, value);
            i += 1;
        }
        proof {
            assert(s.take(n as int) =~= s);
        }
        db
    }

    /// Decode a snapshot byte string back into a database.  Exactly the
    /// byte strings that [`Database::encode`] can produce are accepted,
    /// and decoding one yields the database that was encoded; anything
    /// else is rejected.
    pub fn decode(bytes: &Vec<u8>) -> (r: Result<Database, StoreError>)
        ensures
            forall|s: Seq<(Seq<char>, Seq<u8>)>|
                bytes@ == snapshot_bytes(s) ==> (r matches Ok(db) && db@ == entry_map(s)),
            r matches Ok(db) ==> db.wf(),
            r is Err <==> (forall|s: Seq<(Seq<char>, Seq<u8>)>| bytes@ != snapshot_bytes(s)),
            r matches Err(e) ==> e == StoreError::Deserialization,
    {
        match decode_entries(bytes) {
            Ok(entries) => {
                // accept only an exact snapshot encoding: bincode itself
                // tolerates trailing bytes, the store's file format does not
                let reencoded = match encode_entries(&entries) {
                    Ok(b) => b,
                    Err(_) => {
                        proof {
                            assert(false);
                        }
                        Vec::new()
                    },
                };
                if bytes_equal(&reencoded, bytes) {
                    let db = Database::from_entries(entries);
                    proof {
                        assert(bytes@ == snapshot_bytes(entry_views(entries@)));
                    }
                    Ok(db)
                } else {
                    proof {
                        assert forall|s: Seq<(Seq<char>, Seq<u8>)>|
                            bytes@ != snapshot_bytes(s) by {
                            if bytes@ == snapshot_bytes(s) {
                                assert(entry_views(entries@) == s);
                                assert(reencoded@ == bytes@);
                            }
                        }
                    }
                    Err(StoreError::Deserialization)
                }
            },
            Err(_) => Err(StoreError::Deserialization),
        }
    }
}

/// The public handle: a database together with the path its snapshots
/// are persisted at.
#[derive(Debug)]
pub struct Store {
    db: Database,
    path: String,
}

impl View for Store {
    type V = Map<Seq<char>, Seq<u8>>;

    open spec fn view(&self) -> Map<Seq<char>, Seq<u8>> {
        entry_map(self.contents_seq())
    }
}

impl Store {
    /// The contents of the wrapped database, entry by entry.
    pub closed spec fn contents_seq(&self) -> Seq<(Seq<char>, Seq<u8>)> {
        self.db.entries_seq()
    }

    /// The wrapped database is well formed: keys unique, entries in
    /// strictly ascending key order.
    pub closed spec fn wf(&self) -> bool {
        self.db.wf()
    }

    /// The path the store was opened at.
    pub closed spec fn path_view(&self) -> Seq<char> {
        self.path@
    }

    /// Open a store at `path` from what the backing file held: `None`
    /// when the file does not exist yet, `Some` of its full contents
    /// otherwise.  A missing file yields an empty store; contents that
    /// are a snapshot encoding yield the store that was encoded; any
    /// other contents are rejected.
    pub fn open(path: String, disk: Option<Vec<u8>>) -> (r: Result<Store, StoreError>)
        ensures
            r matches Ok(st) ==> st.wf() && st.path_view() == path@,
            disk is None ==> (r matches Ok(st) && st@ == Map::<Seq<char>, Seq<u8>>::empty()),
            disk matches Some(bytes) ==> (forall|s: Seq<(Seq<char>, Seq<u8>)>|
                bytes@ == snapshot_bytes(s) ==> (r matches Ok(st) && st@ == entry_map(s))),
            disk matches Some(bytes) ==> (r is Err <==> (forall|s: Seq<(Seq<char>, Seq<u8>)>|
                bytes@ != snapshot_bytes(s))),
            r matches Err(e) ==> e == StoreError::Deserialization && disk is Some,
    {
        match disk {
            None => Ok(Store { db: Database::new(), path }),
            Some(bytes) => {
                match Database::decode(&bytes) {
                    Ok(db) => Ok(Store { db, path }),
                    Err(e) => Err(e),
                }
            },
        }
    }

    /// Look up `key`, handing back a copy of its encoded payload.
    pub fn get(&self, key: &String) -> (r: Result<Vec<u8>, StoreError>)
        requires
            self.wf(),
        ensures
            self@.contains_key(key@) ==> (r matches Ok(v) && v@ == self@[key@]),
            !self@.contains_key(key@) ==> (r matches Err(e) && e matches StoreError::KeyNotFound(
                k,
            ) && k@ == key@),
    {
        self.db.get(key)
    }

    /// Insert or replace the entry for `key`, and hand back the snapshot
    /// of the whole new contents, to be persisted.
    pub fn set(&mut self, key: String, value: Vec<u8>) -> (r: Vec<u8>)
        requires
            old(self).wf(),
        ensures
            final(self).wf(),
            final(self).path_view() == old(self).path_view(),
            final(self)@ == old(self)@.insert(key@, value@),
            r@ == snapshot_bytes(final(self).contents_seq()),
    {
        self.db.set(key, value);
        self.db.encode()
    }

    /// Delete the entry for `key` (an absent key is a no-op), and hand
    /// back the snapshot of the whole new contents, to be persisted.
    pub fn remove(&mut self, key: &String) -> (r: Vec<u8>)
        requires
            old(self).wf(),
        ensures
            final(self).wf(),
            final(self).path_view() == old(self).path_view(),
            final(self)@ == old(self)@.remove(key@),
            r@ == snapshot_bytes(final(self).contents_seq()),
    {
        self.db.remove(key);
        self.db.encode()
    }

    /// The snapshot of the current contents, as it is to be persisted.
    pub fn snapshot(&self) -> (r: Vec<u8>)
        ensures
            r@ == snapshot_bytes(self.contents_seq()),
    {
        self.db.encode()
    }

    /// Persistence across reopen: opening a fresh store from this
    /// store's snapshot yields a store with exactly the same contents.
    pub fn reopen(&self) -> (r: Store)
        requires
            self.wf(),
        ensures
            r@ == self@,
            r.wf(),
            r.path_view() == self.path_view(),
    {
        let bytes = self.snapshot();
        match Store::open(self.path.clone(), Some(bytes)) {
            Ok(st) => st,
            Err(_) => {
                // a fresh snapshot always decodes, so this branch is
                // provably unreachable
                proof {
                    assert(false);
                }
                Store { db: Database::new(), path: String::new() }
            },
        }
    }
}

/// After setting a key to a value, getting that key yields exactly that
/// value, whatever the store held before.
pub proof fn lemma_set_then_get(m: Map<Seq<char>, Seq<u8>>, k: Seq<char>, v: Seq<u8>)
    ensures
        m.insert(k, v).contains_key(k),
        m.insert(k, v)[k] == v,
{
}

/// Removing a key that is absent leaves the contents unchanged.
pub proof fn lemma_remove_absent(m: Map<Seq<char>, Seq<u8>>, k: Seq<char>)
    requires
        !m.contains_key(k),
    ensures
        m.remove(k) == m,
{
    assert(m.remove(k) =~= m);
}

/// Writes to two different keys do not disturb each other: both values
/// are retrievable afterwards, in whichever order the writes landed.
pub proof fn lemma_disjoint_writes(
    m: Map<Seq<char>, Seq<u8>>,
    k1: Seq<char>,
    v1: Seq<u8>,
    k2: Seq<char>,
    v2: Seq<u8>,
)
    requires
        k1 != k2,
    ensures
        m.insert(k1, v1).insert(k2, v2)[k1] == v1,
        m.insert(k1, v1).insert(k2, v2)[k2] == v2,
        m.insert(k1, v1).insert(k2, v2) == m.insert(k2, v2).insert(k1, v1),
{
    assert(m.insert(k1, v1).insert(k2, v2) =~= m.insert(k2, v2).insert(k1, v1));
}

/// Well-formed contents are ready to persist: keys unique and in
/// strictly ascending order.
pub proof fn lemma_contents_sorted(s: Store)
    requires
        s.wf(),
    ensures
        distinct_keys(s.contents_seq()),
        sorted_keys(s.contents_seq()),
{
}

/// Snapshots are canonical: two well-formed stores with equal contents
/// keep their entries identically, so they persist identical bytes.
pub proof fn lemma_snapshot_canonical(s1: Store, s2: Store)
    requires
        s1.wf(),
        s2.wf(),
        s1@ == s2@,
    ensures
        s1.contents_seq() == s2.contents_seq(),
        snapshot_bytes(s1.contents_seq()) == snapshot_bytes(s2.contents_seq()),
{
    lemma_sorted_unique(s1.contents_seq(), s2.contents_seq());
}

} // verus!

