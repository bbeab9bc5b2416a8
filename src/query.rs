//! Queries against a table: point lookup of a record and one-hop resolution
//! of the neighbours that a record names.

use crate::codec::{decode_table, storable, table_bytes};
use crate::documents::{cbor_decodes, decode_document, texts_at};
use vstd::slice::slice_to_vec;
use crate::ingest::{key_bytes, key_of};
use crate::table::{entries_view, strictly_ascending, table_map, Entry, Table};
use vstd::prelude::*;

verus! {

/// A read handle over one finalized table. Each worker owns its own handle;
/// any number of handles may read the same stored table.
pub struct GraphQLCtx {
    table: Table,
}

impl View for GraphQLCtx {
    type V = Seq<(Seq<u8>, Seq<u8>)>;

    closed spec fn view(&self) -> Seq<(Seq<u8>, Seq<u8>)> {
        self.table@
    }
}

/// The texts of a vector of strings.
pub open spec fn texts_view(v: Seq<String>) -> Seq<Seq<char>> {
    v.map_values(|s: String| s@)
}

/// The stored values of those `codes` that are keys of `m`, in the order of
/// `codes`; codes that are not keys are left out.
pub open spec fn resolved(m: Map<Seq<u8>, Seq<u8>>, codes: Seq<Seq<char>>) -> Seq<Seq<u8>>
    decreases codes.len(),
{
    if codes.len() == 0 {
        Seq::empty()
    } else {
        let r = resolved(m, codes.drop_last());
        let k = key_of(codes.last());
        if m.contains_key(k) {
            r.push(m[k])
        } else {
            r
        }
    }
}

impl GraphQLCtx {
    /// The handle's keys are strictly ascending.
    pub open spec fn wf(&self) -> bool {
        strictly_ascending(self@)
    }

    /// The mapping from keys to stored values that the handle reads.
    pub open spec fn map(&self) -> Map<Seq<u8>, Seq<u8>> {
        table_map(self@)
    }

    /// A handle over a table built in this process.
    pub fn new(table: Table) -> (r: GraphQLCtx)
        ensures
            r@ == table@,
            r.wf(),
    {
        proof {
            use_type_invariant(&table);
        }
        GraphQLCtx { table }
    }

    /// Opens a handle over a stored table; a byte string that is not the
    /// stored form of a table is treated as no table at all.
    pub fn open(bytes: &[u8]) -> (r: Option<GraphQLCtx>)
        ensures
            r matches Some(h) ==> h.wf() && bytes@ == table_bytes(h@),
            forall|s: Seq<(Seq<u8>, Seq<u8>)>|
                storable(s) && bytes@ == table_bytes(s) ==> (r matches Some(h) && h@ == s),
    {
        match decode_table(bytes) {
            Some(t) => Some(GraphQLCtx { table: t }),
            None => None,
        }
    }

    /// The stored value under the key `name`, if any.
    pub fn get(&self, name: String) -> (r: Option<Vec<u8>>)
        ensures
            match r {
                Some(v) => self.map().contains_key(key_of(name@)) && v@ == self.map()[key_of(
                    name@,
                )],
                None => !self.map().contains_key(key_of(name@)),
            },
    {
        let k = key_bytes(&name);
        self.table.get(k.as_slice())
    }

    /// Every entry in ascending key order; each call starts from the first.
    pub fn iter(&self) -> (r: Vec<Entry>)
        ensures
            entries_view(r@) == self@,
            strictly_ascending(entries_view(r@)),
    {
        proof {
            use_type_invariant(&self.table);
        }
        self.table.scan()
    }

    /// The entry at position `i` in ascending key order, for walking the
    /// table one entry at a time.
    pub fn entry_at(&self, i: usize) -> (e: &Entry)
        requires
            i < self@.len(),
        ensures
            e@ == self@[i as int],
    {
        self.table.entry_at(i)
    }

    /// How many entries the handle reads.
    pub fn len(&self) -> (n: usize)
        ensures
            n == self@.len(),
    {
        self.table.len()
    }

    /// The stored values of the given codes that are keys, in order; the
    /// others are passed over.
    pub fn resolve_codes(&self, codes: &Vec<String>) -> (r: Vec<Vec<u8>>)
        ensures
            r@.map_values(|v: Vec<u8>| v@) == resolved(self.map(), texts_view(codes@)),
    {
        let ghost cv = texts_view(codes@);
        let mut out: Vec<Vec<u8>> = Vec::new();
        let n = codes.len();
        let mut i: usize = 0;
        assert(out@.map_values(|v: Vec<u8>| v@) =~= resolved(self.map(), cv.take(0)));
        while i < n
            invariant
                n == codes@.len(),
                cv == texts_view(codes@),
                i <= n,
                out@.map_values(|v: Vec<u8>| v@) == resolved(self.map(), cv.take(i as int)),
            decreases n - i,
        {
            assert(cv.take(i + 1).drop_last() =~= cv.take(i as int));
            assert(cv.take(i + 1).last() == codes@[i as int]@);
            let ghost before = out@;
            match self.get(codes[i].clone()) {
                Some(v) => {
                    out.push(v);
                    assert(out@.map_values(|v: Vec<u8>| v@) =~= before.map_values(
                        |v: Vec<u8>| v@,
                    ).push(v@));
                },
                None => {},
            }
            i = i + 1;
        }
        assert(cv.take(n as int) =~= cv);
        out
    }
}

/// Whether the table must be built: there is no readable stored table, or
/// the stored table lacks the sentinel key that a finished build always holds.
pub fn needs_build(store: &Option<GraphQLCtx>, sentinel: &String) -> (r: bool)
    ensures
        r == match store {
            Some(h) => !h.map().contains_key(key_of(sentinel@)),
            None => true,
        },
{
    match store {
        Some(h) => h.get(sentinel.clone()).is_none(),
        None => true,
    }
}

/// The values among `vs` that serde_cbor decodes, in their order.
pub open spec fn decodable(vs: Seq<Seq<u8>>) -> Seq<Seq<u8>>
    decreases vs.len(),
{
    if vs.len() == 0 {
        Seq::empty()
    } else {
        let r = decodable(vs.drop_last());
        if cbor_decodes(vs.last()) {
            r.push(vs.last())
        } else {
            r
        }
    }
}

/// The stored values of a table, in key order.
pub open spec fn stored_values(s: Seq<(Seq<u8>, Seq<u8>)>) -> Seq<Seq<u8>> {
    s.map_values(|e: (Seq<u8>, Seq<u8>)| e.1)
}

/// A point lookup of `name` finds a record: the key is present and its
/// value decodes.
pub open spec fn record_found(m: Map<Seq<u8>, Seq<u8>>, name: Seq<char>) -> bool {
    m.contains_key(key_of(name)) && cbor_decodes(m[key_of(name)])
}

/// A record together with those of its neighbours that resolved.
pub struct RecordWithNeighbors {
    pub record: serde_json::Value,
    pub neighbors: Vec<serde_json::Value>,
}

/// Decodes each value, keeping the records of those that decode, in order.
fn decode_all(values: &Vec<Vec<u8>>) -> (r: Vec<serde_json::Value>)
    ensures
        r@.len() == decodable(values@.map_values(|v: Vec<u8>| v@)).len(),
{
    let ghost vs = values@.map_values(|v: Vec<u8>| v@);
    let mut out: Vec<serde_json::Value> = Vec::new();
    let n = values.len();
    let mut i: usize = 0;
    assert(vs.take(0) =~= Seq::<Seq<u8>>::empty());
    while i < n
        invariant
            n == values@.len(),
            vs == values@.map_values(|v: Vec<u8>| v@),
            i <= n,
            out@.len() == decodable(vs.take(i as int)).len(),
        decreases n - i,
    {
        assert(vs.take(i + 1).drop_last() =~= vs.take(i as int));
        assert(vs.take(i + 1).last() == values@[i as int]@);
        match decode_document(values[i].as_slice()) {
            Ok(doc) => out.push(doc),
            Err(_) => {},
        }
        i = i + 1;
    }
    assert(vs.take(n as int) =~= vs);
    out
}

/// Answers queries against a handle.
pub struct QueryRoot;

impl QueryRoot {
    /// Point lookup: the record stored under `name`. There is one exactly
    /// when the key is present and its value decodes; an undecodable value
    /// is treated as absent.
    pub fn country(&self, ctx: &GraphQLCtx, name: String) -> (r: Option<serde_json::Value>)
        ensures
            r is Some <==> record_found(ctx.map(), name@),
    {
        match ctx.get(name) {
            Some(bytes) => match decode_document(bytes.as_slice()) {
                Ok(doc) => Some(doc),
                Err(_) => None,
            },
            None => None,
        }
    }

    /// The records stored under those of `codes` that are keys, in the order
    /// of `codes`: one lookup per code in this handle, nothing further.
    /// Absent codes, and values that do not decode, are left out.
    pub fn neighbors_of(&self, ctx: &GraphQLCtx, codes: &Vec<String>) -> (r: Vec<
        serde_json::Value,
    >)
        ensures
            r@.len() == decodable(resolved(ctx.map(), texts_view(codes@))).len(),
    {
        let found = ctx.resolve_codes(codes);
        decode_all(&found)
    }

    /// The neighbours that `record` names in its `borders` list, looked up in
    /// the same handle; those absent or undecodable are left out. Only this
    /// one hop is taken.
    pub fn borders(&self, ctx: &GraphQLCtx, record: &serde_json::Value) -> (r: Vec<
        serde_json::Value,
    >)
        ensures
            exists|codes: Seq<Seq<char>>|
                r@.len() == #[trigger] decodable(resolved(ctx.map(), codes)).len(),
    {
        let codes = texts_at(record, "/borders");
        let r = self.neighbors_of(ctx, &codes);
        assert(r@.len() == decodable(resolved(ctx.map(), texts_view(codes@))).len());
        r
    }

    /// Border resolution: the record stored under `name` with its resolved
    /// neighbours. There is one exactly when a point lookup of `name` finds
    /// a record.
    pub fn country_with_borders(&self, ctx: &GraphQLCtx, name: String) -> (r: Option<
        RecordWithNeighbors,
    >)
        ensures
            r is Some <==> record_found(ctx.map(), name@),
    {
        match self.country(ctx, name) {
            Some(record) => {
                let neighbors = self.borders(ctx, &record);
                Some(RecordWithNeighbors { record, neighbors })
            },
            None => None,
        }
    }

    /// Every record that decodes, in ascending order of the keys they are
    /// stored under.
    pub fn list_countries(&self, ctx: &GraphQLCtx) -> (r: Vec<serde_json::Value>)
        ensures
            r@.len() == decodable(stored_values(ctx@)).len(),
    {
        let entries = ctx.iter();
        let mut values: Vec<Vec<u8>> = Vec::new();
        let n = entries.len();
        let mut i: usize = 0;
        while i < n
            invariant
                n == entries@.len(),
                entries_view(entries@) == ctx@,
                i <= n,
                values@.map_values(|v: Vec<u8>| v@) == stored_values(ctx@).take(i as int),
            decreases n - i,
        {
            let ghost before = values@;
            assert(entries_view(entries@)[i as int] == entries@[i as int]@);
            let v = slice_to_vec(entries[i].value.as_slice());
            assert(stored_values(ctx@)[i as int] == v@);
            values.push(v);
            assert(values@.map_values(|v: Vec<u8>| v@) =~= before.map_values(|v: Vec<u8>| v@).push(
                v@,
            ));
            assert(stored_values(ctx@).take(i + 1) =~= stored_values(ctx@).take(i as int).push(v@));
            i = i + 1;
        }
        assert(stored_values(ctx@).take(n as int) =~= stored_values(ctx@));
        decode_all(&values)
    }
}

} // verus!
