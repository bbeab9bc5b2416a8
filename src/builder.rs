//! The batch builder: collects emitted pairs, then orders them by key and keeps,
//! for each key, the pair that was emitted first.

use crate::keys::key_lt;
use crate::table::{
    entries_view, find_key, lemma_absent, lemma_insert_sorted, strictly_ascending, table_map,
    Entry, Table,
};
use vstd::prelude::*;

verus! {

/// The mapping that a stream of pairs leaves when the first pair emitted for
/// a key wins and later pairs with that key are discarded.
pub open spec fn first_wins(pairs: Seq<(Seq<u8>, Seq<u8>)>) -> Map<Seq<u8>, Seq<u8>>
    decreases pairs.len(),
{
    if pairs.len() == 0 {
        Map::empty()
    } else {
        let m = first_wins(pairs.drop_last());
        let p = pairs.last();
        if m.contains_key(p.0) {
            m
        } else {
            m.insert(p.0, p.1)
        }
    }
}

/// Collects pairs in the order they are emitted.
pub struct Builder {
    pending: Vec<Entry>,
}

impl View for Builder {
    type V = Seq<(Seq<u8>, Seq<u8>)>;

    closed spec fn view(&self) -> Seq<(Seq<u8>, Seq<u8>)> {
        entries_view(self.pending@)
    }
}

impl Builder {
    /// A builder that holds no pairs yet.
    pub fn new() -> (b: Builder)
        ensures
            b@ == Seq::<(Seq<u8>, Seq<u8>)>::empty(),
    {
        let b = Builder { pending: Vec::new() };
        assert(b@ =~= Seq::<(Seq<u8>, Seq<u8>)>::empty());
        b
    }

    /// Records one emitted pair after those emitted before it.
    pub fn emit(&mut self, key: Vec<u8>, value: Vec<u8>)
        ensures
            final(self)@ == old(self)@.push((key@, value@)),
    {
        let e = Entry { key, value };
        self.pending.push(e);
        assert(entries_view(self.pending@) =~= entries_view(old(self).pending@).push(e@));
    }

    /// How many pairs have been emitted.
    pub fn len(&self) -> (n: usize)
        ensures
            n == self@.len(),
    {
        self.pending.len()
    }

    /// Orders the pairs by key, applies first-write-wins to equal keys, and
    /// returns the finished table.
    pub fn finalize(self) -> (t: Table)
        ensures
            t.wf(),
            t.map() == first_wins(self@),
    {
        let mut out: Vec<Entry> = Vec::new();
        let n = self.pending.len();
        let mut i: usize = 0;
        assert(entries_view(out@) =~= Seq::<(Seq<u8>, Seq<u8>)>::empty());
        assert(table_map(entries_view(out@)) =~= first_wins(self@.take(0)));
        while i < n
            invariant
                n == self@.len(),
                i <= n,
                strictly_ascending(entries_view(out@)),
                table_map(entries_view(out@)) == first_wins(self@.take(i as int)),
            decreases n - i,
        {
            let e = &self.pending[i];
            assert(self@[i as int] == e@);
            assert(self@.take(i + 1).drop_last() =~= self@.take(i as int));
            assert(self@.take(i + 1).last() == e@);
            match find_key(&out, e.key.as_slice()) {
                Ok(j) => {
                    assert(entries_view(out@)[j as int] == out@[j as int]@);
                    assert(table_map(entries_view(out@)).contains_key(e.key@));
                },
                Err(p) => {
                    let ghost s = entries_view(out@);
                    proof {
                        assert forall|j: int| 0 <= j < p implies key_lt(#[trigger] s[j].0, e.key@) by {
                            assert(s[j] == out@[j]@);
                        }
                        assert forall|j: int| p <= j < s.len() implies key_lt(
                            e.key@,
                            #[trigger] s[j].0,
                        ) by {
                            assert(s[j] == out@[j]@);
                        }
                        lemma_absent(s, e.key@, p as int);
                        lemma_insert_sorted(s, p as int, e@);
                    }
                    let c = e.copy();
                    out.insert(p, c);
                    assert(entries_view(out@) =~= s.insert(p as int, e@));
                },
            }
            i = i + 1;
        }
        assert(self@.take(n as int) =~= self@);
        Table::from_sorted(out)
    }
}

} // verus!
