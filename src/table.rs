//! The sorted table: an immutable sequence of key/value entries whose keys
//! are strictly ascending, with point lookup and ordered scan.

use crate::keys::{
    compare_keys, key_lt, lemma_key_lt_asymmetric, lemma_key_lt_irreflexive, lemma_key_lt_transitive,
};
use std::cmp::Ordering;
use vstd::prelude::*;
use vstd::slice::slice_to_vec;

verus! {

/// One stored pair: a key and the serialized record kept under it.
pub struct Entry {
    pub key: Vec<u8>,
    pub value: Vec<u8>,
}

impl View for Entry {
    type V = (Seq<u8>, Seq<u8>);

    open spec fn view(&self) -> (Seq<u8>, Seq<u8>) {
        (self.key@, self.value@)
    }
}

impl Entry {
    /// A copy of this entry.
    pub fn copy(&self) -> (r: Entry)
        ensures
            r@ == self@,
    {
        Entry { key: slice_to_vec(self.key.as_slice()), value: slice_to_vec(self.value.as_slice()) }
    }
}

/// The pairs that a vector of entries holds, in order.
pub open spec fn entries_view(v: Seq<Entry>) -> Seq<(Seq<u8>, Seq<u8>)> {
    v.map_values(|e: Entry| e@)
}

/// Every key comes strictly before the keys that follow it.
pub open spec fn strictly_ascending(s: Seq<(Seq<u8>, Seq<u8>)>) -> bool {
    forall|i: int, j: int| 0 <= i < j < s.len() ==> key_lt(#[trigger] s[i].0, #[trigger] s[j].0)
}

/// `k` is the key of some pair of `s`.
pub open spec fn has_key(s: Seq<(Seq<u8>, Seq<u8>)>, k: Seq<u8>) -> bool {
    exists|i: int| 0 <= i < s.len() && (#[trigger] s[i]).0 == k
}

/// The mapping from keys to values that a sequence of pairs with distinct keys holds.
pub open spec fn table_map(s: Seq<(Seq<u8>, Seq<u8>)>) -> Map<Seq<u8>, Seq<u8>> {
    Map::new(
        |k: Seq<u8>| has_key(s, k),
        |k: Seq<u8>| s[choose|i: int| 0 <= i < s.len() && (#[trigger] s[i]).0 == k].1,
    )
}

/// In a strictly ascending sequence, the mapping sends each key to the value beside it.
pub proof fn lemma_table_map_at(s: Seq<(Seq<u8>, Seq<u8>)>, i: int)
    requires
        strictly_ascending(s),
        0 <= i < s.len(),
    ensures
        table_map(s).contains_key(s[i].0),
        table_map(s)[s[i].0] == s[i].1,
{
    assert(has_key(s, s[i].0));
    let j = choose|j: int| 0 <= j < s.len() && (#[trigger] s[j]).0 == s[i].0;
    lemma_key_lt_irreflexive(s[i].0);
    if j < i {
        assert(key_lt(s[j].0, s[i].0));
    } else if i < j {
        assert(key_lt(s[i].0, s[j].0));
    }
}

/// Inserting a pair at the place that its key belongs keeps the sequence
/// ascending, and adds the pair to the mapping.
pub proof fn lemma_insert_sorted(s: Seq<(Seq<u8>, Seq<u8>)>, p: int, e: (Seq<u8>, Seq<u8>))
    requires
        strictly_ascending(s),
        0 <= p <= s.len(),
        forall|j: int| 0 <= j < p ==> key_lt(#[trigger] s[j].0, e.0),
        forall|j: int| p <= j < s.len() ==> key_lt(e.0, #[trigger] s[j].0),
    ensures
        strictly_ascending(s.insert(p, e)),
        table_map(s.insert(p, e)) == table_map(s).insert(e.0, e.1),
{
    let t = s.insert(p, e);
    assert forall|i: int, j: int| 0 <= i < j < t.len() implies key_lt(
        #[trigger] t[i].0,
        #[trigger] t[j].0,
    ) by {
        if j < p {
            assert(t[i] == s[i] && t[j] == s[j]);
        } else if j == p {
            assert(t[i] == s[i]);
        } else if i < p {
            assert(t[i] == s[i] && t[j] == s[j - 1]);
            lemma_key_lt_transitive(s[i].0, e.0, s[j - 1].0);
        } else if i == p {
            assert(t[j] == s[j - 1]);
        } else {
            assert(t[i] == s[i - 1] && t[j] == s[j - 1]);
        }
    }
    let m1 = table_map(t);
    let m2 = table_map(s).insert(e.0, e.1);
    lemma_key_lt_irreflexive(e.0);
    assert forall|k: Seq<u8>| m1.contains_key(k) <==> m2.contains_key(k) by {
        if m1.contains_key(k) {
            let j = choose|j: int| 0 <= j < t.len() && (#[trigger] t[j]).0 == k;
            if j < p {
                assert(s[j] == t[j]);
            } else if j > p {
                assert(s[j - 1] == t[j]);
            }
        }
        if m2.contains_key(k) {
            if k == e.0 {
                assert(t[p] == e);
            } else {
                let j = choose|j: int| 0 <= j < s.len() && (#[trigger] s[j]).0 == k;
                if j < p {
                    assert(t[j] == s[j]);
                } else {
                    assert(t[j + 1] == s[j]);
                }
            }
        }
    }
    assert forall|k: Seq<u8>| #[trigger] m1.contains_key(k) implies m1[k] == m2[k] by {
        let j = choose|j: int| 0 <= j < t.len() && (#[trigger] t[j]).0 == k;
        lemma_table_map_at(t, j);
        if j < p {
            assert(t[j] == s[j]);
            lemma_table_map_at(s, j);
        } else if j > p {
            assert(t[j] == s[j - 1]);
            lemma_table_map_at(s, j - 1);
        }
    }
    assert(m1 =~= m2);
}

/// Looks for `key` among entries whose keys are strictly ascending: `Ok` with
/// its position, or `Err` with the position at which it would stand.
pub fn find_key(entries: &Vec<Entry>, key: &[u8]) -> (r: Result<usize, usize>)
    requires
        strictly_ascending(entries_view(entries@)),
    ensures
        match r {
            Ok(i) => i < entries@.len() && entries@[i as int].key@ == key@,
            Err(p) => {
                &&& p <= entries@.len()
                &&& forall|j: int| 0 <= j < p ==> key_lt(#[trigger] entries@[j].key@, key@)
                &&& forall|j: int|
                    p <= j < entries@.len() ==> key_lt(key@, #[trigger] entries@[j].key@)
            },
        },
{
    let ghost s = entries_view(entries@);
    let mut lo: usize = 0;
    let mut hi: usize = entries.len();
    while lo < hi
        invariant
            s == entries_view(entries@),
            strictly_ascending(s),
            0 <= lo <= hi <= entries@.len(),
            forall|j: int| 0 <= j < lo ==> key_lt(#[trigger] entries@[j].key@, key@),
            forall|j: int| hi <= j < entries@.len() ==> key_lt(key@, #[trigger] entries@[j].key@),
        decreases hi - lo,
    {
        let mid = lo + (hi - lo) / 2;
        let c = compare_keys(entries[mid].key.as_slice(), key);
        assert(s[mid as int] == entries@[mid as int]@);
        match c {
            Ordering::Less => {
                assert forall|j: int| 0 <= j < mid + 1 implies key_lt(
                    #[trigger] entries@[j].key@,
                    key@,
                ) by {
                    if j < mid {
                        assert(s[j] == entries@[j]@);
                        assert(key_lt(s[j].0, s[mid as int].0));
                        lemma_key_lt_transitive(entries@[j].key@, entries@[mid as int].key@, key@);
                    }
                }
                lo = mid + 1;
            },
            Ordering::Greater => {
                assert forall|j: int| mid <= j < entries@.len() implies key_lt(
                    key@,
                    #[trigger] entries@[j].key@,
                ) by {
                    if j > mid {
                        assert(s[j] == entries@[j]@);
                        assert(key_lt(s[mid as int].0, s[j].0));
                        lemma_key_lt_transitive(key@, entries@[mid as int].key@, entries@[j].key@);
                    }
                }
                hi = mid;
            },
            Ordering::Equal => {
                return Ok(mid);
            },
        }
    }
    Err(lo)
}

/// Where `find_key` gives `Err`, no entry holds the key.
pub proof fn lemma_absent(s: Seq<(Seq<u8>, Seq<u8>)>, k: Seq<u8>, p: int)
    requires
        0 <= p <= s.len(),
        forall|j: int| 0 <= j < p ==> key_lt(#[trigger] s[j].0, k),
        forall|j: int| p <= j < s.len() ==> key_lt(k, #[trigger] s[j].0),
    ensures
        !has_key(s, k),
{
    lemma_key_lt_irreflexive(k);
    if has_key(s, k) {
        let j = choose|j: int| 0 <= j < s.len() && (#[trigger] s[j]).0 == k;
        if j < p {
            assert(key_lt(s[j].0, k));
        } else {
            assert(key_lt(k, s[j].0));
        }
    }
}

/// Dropping the first entry of an ascending sequence removes its key from the mapping.
pub proof fn lemma_drop_first_map(s: Seq<(Seq<u8>, Seq<u8>)>)
    requires
        strictly_ascending(s),
        s.len() > 0,
    ensures
        strictly_ascending(s.drop_first()),
        table_map(s.drop_first()) == table_map(s).remove(s[0].0),
{
    let t = s.drop_first();
    assert forall|i: int, j: int| 0 <= i < j < t.len() implies key_lt(
        #[trigger] t[i].0,
        #[trigger] t[j].0,
    ) by {
        assert(t[i] == s[i + 1] && t[j] == s[j + 1]);
    }
    let m1 = table_map(t);
    let m2 = table_map(s).remove(s[0].0);
    lemma_key_lt_irreflexive(s[0].0);
    assert forall|k: Seq<u8>| m1.contains_key(k) <==> m2.contains_key(k) by {
        if m1.contains_key(k) {
            let j = choose|j: int| 0 <= j < t.len() && (#[trigger] t[j]).0 == k;
            assert(s[j + 1] == t[j]);
            assert(key_lt(s[0].0, s[j + 1].0));
        }
        if m2.contains_key(k) {
            let j = choose|j: int| 0 <= j < s.len() && (#[trigger] s[j]).0 == k;
            assert(j != 0);
            assert(t[j - 1] == s[j]);
        }
    }
    assert forall|k: Seq<u8>| #[trigger] m1.contains_key(k) implies m1[k] == m2[k] by {
        let j = choose|j: int| 0 <= j < t.len() && (#[trigger] t[j]).0 == k;
        lemma_table_map_at(t, j);
        assert(t[j] == s[j + 1]);
        lemma_table_map_at(s, j + 1);
    }
    assert(m1 =~= m2);
}

/// A mapping has exactly one strictly ascending sequence of entries.
pub proof fn lemma_ascending_unique(a: Seq<(Seq<u8>, Seq<u8>)>, b: Seq<(Seq<u8>, Seq<u8>)>)
    requires
        strictly_ascending(a),
        strictly_ascending(b),
        table_map(a) == table_map(b),
    ensures
        a == b,
    decreases a.len(),
{
    if a.len() == 0 || b.len() == 0 {
        if a.len() > 0 {
            lemma_table_map_at(a, 0);
        }
        if b.len() > 0 {
            lemma_table_map_at(b, 0);
        }
        assert(a =~= b);
    } else {
        lemma_table_map_at(a, 0);
        lemma_table_map_at(b, 0);
        let ka = a[0].0;
        let kb = b[0].0;
        if ka != kb {
            let j = choose|j: int| 0 <= j < b.len() && (#[trigger] b[j]).0 == ka;
            let i = choose|i: int| 0 <= i < a.len() && (#[trigger] a[i]).0 == kb;
            assert(j > 0 && i > 0);
            assert(key_lt(b[0].0, b[j].0));
            assert(key_lt(a[0].0, a[i].0));
            lemma_key_lt_asymmetric(ka, kb);
        }
        lemma_drop_first_map(a);
        lemma_drop_first_map(b);
        lemma_ascending_unique(a.drop_first(), b.drop_first());
        assert(a =~= seq![a[0]] + a.drop_first());
        assert(b =~= seq![b[0]] + b.drop_first());
    }
}

/// A finalized table: entries whose keys are strictly ascending. It is never
/// changed once made.
pub struct Table {
    entries: Vec<Entry>,
}

impl View for Table {
    type V = Seq<(Seq<u8>, Seq<u8>)>;

    closed spec fn view(&self) -> Seq<(Seq<u8>, Seq<u8>)> {
        entries_view(self.entries@)
    }
}

impl Table {
    /// The table's keys are strictly ascending; every table is so.
    #[verifier::type_invariant]
    pub open spec fn wf(&self) -> bool {
        strictly_ascending(self@)
    }

    /// The mapping from keys to values that the table holds.
    pub open spec fn map(&self) -> Map<Seq<u8>, Seq<u8>> {
        table_map(self@)
    }

    /// Makes a table of entries that are already strictly ascending.
    pub fn from_sorted(entries: Vec<Entry>) -> (t: Table)
        requires
            strictly_ascending(entries_view(entries@)),
        ensures
            t@ == entries_view(entries@),
            t.wf(),
    {
        Table { entries }
    }

    /// The table with no entries.
    pub fn empty() -> (t: Table)
        ensures
            t@ == Seq::<(Seq<u8>, Seq<u8>)>::empty(),
            t.wf(),
    {
        let t = Table { entries: Vec::new() };
        assert(t@ =~= Seq::<(Seq<u8>, Seq<u8>)>::empty());
        t
    }

    /// How many entries the table holds.
    pub fn len(&self) -> (n: usize)
        ensures
            n == self@.len(),
    {
        self.entries.len()
    }

    /// The entry at position `i` in key order.
    pub fn entry_at(&self, i: usize) -> (e: &Entry)
        requires
            i < self@.len(),
        ensures
            e@ == self@[i as int],
    {
        &self.entries[i]
    }

    /// Point lookup: a copy of the value stored under `key`, if any.
    pub fn get(&self, key: &[u8]) -> (r: Option<Vec<u8>>)
        ensures
            match r {
                Some(v) => self.map().contains_key(key@) && v@ == self.map()[key@],
                None => !self.map().contains_key(key@),
            },
    {
        proof {
            use_type_invariant(self);
        }
        match find_key(&self.entries, key) {
            Ok(i) => {
                proof {
                    assert(self@[i as int] == self.entries@[i as int]@);
                    lemma_table_map_at(self@, i as int);
                }
                Some(slice_to_vec(self.entries[i].value.as_slice()))
            },
            Err(p) => {
                proof {
                    assert forall|j: int| 0 <= j < p implies key_lt(#[trigger] self@[j].0, key@) by {
                        assert(self@[j] == self.entries@[j]@);
                    }
                    assert forall|j: int| p <= j < self@.len() implies key_lt(
                        key@,
                        #[trigger] self@[j].0,
                    ) by {
                        assert(self@[j] == self.entries@[j]@);
                    }
                    lemma_absent(self@, key@, p as int);
                }
                None
            },
        }
    }

    /// Ordered scan: a copy of every entry, keys ascending. Each call starts
    /// afresh from the first entry.
    pub fn scan(&self) -> (r: Vec<Entry>)
        ensures
            entries_view(r@) == self@,
    {
        let mut out: Vec<Entry> = Vec::new();
        let n = self.entries.len();
        let mut i: usize = 0;
        while i < n
            invariant
                n == self.entries@.len(),
                i <= n,
                entries_view(out@) == self@.take(i as int),
            decreases n - i,
        {
            let e = self.entries[i].copy();
            assert(self@[i as int] == self.entries@[i as int]@);
            let ghost prev = out@;
            out.push(e);
            assert(entries_view(out@) =~= entries_view(prev).push(e@));
            assert(self@.take(i + 1) =~= self@.take(i as int).push(self@[i as int]));
            i = i + 1;
        }
        assert(self@.take(n as int) =~= self@);
        out
    }
}

} // verus!
