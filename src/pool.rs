//! Workers and their pool. Each worker owns one read handle and answers the
//! queries handed to it; the pool decides which worker takes the next query,
//! giving it to the least loaded one.

use crate::query::{decodable, record_found, stored_values, GraphQLCtx, QueryRoot, RecordWithNeighbors};
use vstd::prelude::*;

verus! {

/// A query: a point lookup, a lookup with one-hop neighbour resolution, or
/// an ordered scan of every record.
pub enum Query {
    PointLookup { key: String },
    BorderResolve { key: String },
    Scan,
}

/// The answer to a query, of the same shape.
pub enum Answer {
    Record(Option<serde_json::Value>),
    WithNeighbors(Option<RecordWithNeighbors>),
    Records(Vec<serde_json::Value>),
}

/// A worker: it owns one read handle, and answers queries through it alone.
pub struct SledExecutor {
    reader: GraphQLCtx,
}

impl View for SledExecutor {
    type V = Seq<(Seq<u8>, Seq<u8>)>;

    closed spec fn view(&self) -> Seq<(Seq<u8>, Seq<u8>)> {
        self.reader@
    }
}

impl SledExecutor {
    /// The mapping that the worker's handle reads.
    pub closed spec fn map(&self) -> Map<Seq<u8>, Seq<u8>> {
        self.reader.map()
    }

    /// A worker that owns `reader`.
    pub fn new(reader: GraphQLCtx) -> (r: SledExecutor)
        ensures
            r@ == reader@,
            r.map() == reader.map(),
    {
        SledExecutor { reader }
    }

    /// Answers one query through this worker's own handle. A lookup finds a
    /// record exactly when its key is present and the value decodes; border
    /// resolution also gives the decodable neighbours that the record names;
    /// a scan gives every decodable record in key order.
    pub fn handle(&self, msg: Query) -> (r: Answer)
        ensures
            match msg {
                Query::PointLookup { key } => r matches Answer::Record(x) && (x is Some
                    <==> record_found(self.map(), key@)),
                Query::BorderResolve { key } => r matches Answer::WithNeighbors(x) && (x is Some
                    <==> record_found(self.map(), key@)),
                Query::Scan => r matches Answer::Records(v) && v@.len() == decodable(
                    stored_values(self@),
                ).len(),
            },
    {
        let root = QueryRoot;
        match msg {
            Query::PointLookup { key } => Answer::Record(root.country(&self.reader, key)),
            Query::BorderResolve { key } => Answer::WithNeighbors(
                root.country_with_borders(&self.reader, key),
            ),
            Query::Scan => Answer::Records(root.list_countries(&self.reader)),
        }
    }
}

/// Workers whose handles read the same entries answer every query alike:
/// the same lookups find a record, and scans give as many records. Each
/// answer is fixed by the worker's own handle, so it does not matter which
/// worker a query is given to.
pub proof fn law_workers_answer_alike(a: SledExecutor, b: SledExecutor, key: Seq<char>)
    requires
        a@ == b@,
    ensures
        a.map() == b.map(),
        record_found(a.map(), key) == record_found(b.map(), key),
        decodable(stored_values(a@)) == decodable(stored_values(b@)),
{
}

/// The pool's record of how many queries each worker has in hand.
pub struct WorkerPool {
    loads: Vec<usize>,
}

impl View for WorkerPool {
    type V = Seq<usize>;

    closed spec fn view(&self) -> Seq<usize> {
        self.loads@
    }
}

/// Position `w` holds the least load, and no earlier position holds as little.
pub open spec fn first_least(loads: Seq<usize>, w: int) -> bool {
    &&& 0 <= w < loads.len()
    &&& forall|j: int| 0 <= j < loads.len() ==> loads[w] <= #[trigger] loads[j]
    &&& forall|j: int| 0 <= j < w ==> loads[w] < #[trigger] loads[j]
}

/// No worker holds more than one query beyond any other.
pub open spec fn balanced(loads: Seq<usize>) -> bool {
    forall|i: int, j: int| 0 <= i < loads.len() && 0 <= j < loads.len() ==> #[trigger] loads[i] <= #[trigger] loads[j] + 1
}

/// Giving the next query to the first least-loaded worker keeps a balanced
/// pool balanced; so while queries are only dispatched, the counts of any two
/// workers differ by at most one.
pub proof fn law_dispatch_keeps_balance(loads: Seq<usize>, w: int)
    requires
        balanced(loads),
        first_least(loads, w),
        loads[w] < usize::MAX,
    ensures
        balanced(loads.update(w, (loads[w] + 1) as usize)),
{
    let after = loads.update(w, (loads[w] + 1) as usize);
    assert forall|i: int, j: int| 0 <= i < after.len() && 0 <= j < after.len() implies #[trigger] after[i]
        <= #[trigger] after[j] + 1 by {
        assert(loads[w] <= loads[i] && loads[w] <= loads[j]);
        assert(loads[i] <= loads[j] + 1);
    }
}

impl WorkerPool {
    /// A pool of `n` workers, none of them busy.
    pub fn new(n: usize) -> (p: WorkerPool)
        requires
            n > 0,
        ensures
            p@ == Seq::new(n as nat, |i: int| 0usize),
            balanced(p@),
    {
        let mut loads: Vec<usize> = Vec::new();
        for i in 0..n
            invariant
                loads@ == Seq::new(i as nat, |j: int| 0usize),
        {
            loads.push(0);
            assert(loads@ =~= Seq::new((i + 1) as nat, |j: int| 0usize));
        }
        WorkerPool { loads }
    }

    /// How many workers the pool has.
    pub fn size(&self) -> (n: usize)
        ensures
            n == self@.len(),
    {
        self.loads.len()
    }

    /// How many queries worker `w` has in hand.
    pub fn load(&self, w: usize) -> (n: usize)
        requires
            w < self@.len(),
        ensures
            n == self@[w as int],
    {
        self.loads[w]
    }

    /// Some worker holds as many queries as can be counted.
    pub fn is_saturated(&self) -> (r: bool)
        ensures
            r == exists|i: int| 0 <= i < self@.len() && #[trigger] self@[i] == usize::MAX,
    {
        let n = self.loads.len();
        for i in 0..n
            invariant
                n == self@.len(),
                forall|j: int| 0 <= j < i ==> #[trigger] self@[j] != usize::MAX,
        {
            if self.loads[i] == usize::MAX {
                return true;
            }
        }
        false
    }

    /// Picks the worker for the next query: the least loaded, the first of
    /// them on a tie, and counts the query against it.
    pub fn dispatch(&mut self) -> (w: usize)
        requires
            old(self)@.len() > 0,
            forall|i: int| 0 <= i < old(self)@.len() ==> #[trigger] old(self)@[i] < usize::MAX,
        ensures
            first_least(old(self)@, w as int),
            final(self)@ == old(self)@.update(w as int, (old(self)@[w as int] + 1) as usize),
    {
        let n = self.loads.len();
        let mut best: usize = 0;
        for i in 1..n
            invariant
                n == self@.len(),
                best < i <= n,
                forall|j: int| 0 <= j < i ==> self@[best as int] <= #[trigger] self@[j],
                forall|j: int| 0 <= j < best ==> self@[best as int] < #[trigger] self@[j],
        {
            if self.loads[i] < self.loads[best] {
                best = i;
            }
        }
        let l = self.loads[best];
        self.loads.set(best, l + 1);
        best
    }

    /// Records that worker `w` has finished a query. A worker with none in
    /// hand, or a position past the pool, changes nothing.
    pub fn complete(&mut self, w: usize)
        ensures
            final(self)@ == if w < old(self)@.len() && old(self)@[w as int] > 0 {
                old(self)@.update(w as int, (old(self)@[w as int] - 1) as usize)
            } else {
                old(self)@
            },
    {
        if w < self.loads.len() && self.loads[w] > 0 {
            let l = self.loads[w];
            self.loads.set(w, l - 1);
        }
    }
}

} // verus!
