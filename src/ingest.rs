//! The ingestor: derives up to two keys from each document of a batch (its
//! display name and its canonical short code), stores the document's binary
//! form under each, and builds the table from what was emitted.

use crate::builder::{first_wins, Builder};
use crate::documents::{batch_len, encode_document, json_parses, parse_json, text_at};
use crate::table::{lemma_table_map_at, Table};
use vstd::prelude::*;
use vstd::slice::slice_to_vec;
use vstd::utf8::encode_utf8;

verus! {

/// What ingest reads from one document: the display name and the short code,
/// where they are strings, and the document's binary form, present when the
/// document has a key and its serialization succeeded.
pub struct RawRecord {
    pub name: Option<String>,
    pub code: Option<String>,
    pub encoded: Option<Vec<u8>>,
}

/// The model of a `RawRecord`: the key texts and the binary form.
pub struct RecordView {
    pub name: Option<Seq<char>>,
    pub code: Option<Seq<char>>,
    pub encoded: Option<Seq<u8>>,
}

impl View for RawRecord {
    type V = RecordView;

    open spec fn view(&self) -> RecordView {
        RecordView {
            name: match self.name {
                Some(s) => Some(s@),
                None => None,
            },
            code: match self.code {
                Some(s) => Some(s@),
                None => None,
            },
            encoded: match self.encoded {
                Some(b) => Some(b@),
                None => None,
            },
        }
    }
}

/// The key under which a text is stored: its UTF-8 bytes.
pub open spec fn key_of(text: Seq<char>) -> Seq<u8> {
    encode_utf8(text)
}

/// The pairs that one record emits: the name's pair, then the code's, each
/// with the record's binary form. A record without a binary form emits none.
pub open spec fn record_pairs(r: RecordView) -> Seq<(Seq<u8>, Seq<u8>)> {
    match r.encoded {
        None => Seq::empty(),
        Some(v) => {
            let by_name: Seq<(Seq<u8>, Seq<u8>)> = match r.name {
                Some(n) => seq![(key_of(n), v)],
                None => Seq::empty(),
            };
            let by_code: Seq<(Seq<u8>, Seq<u8>)> = match r.code {
                Some(c) => seq![(key_of(c), v)],
                None => Seq::empty(),
            };
            by_name + by_code
        },
    }
}

/// The pairs that a batch emits, record after record.
pub open spec fn batch_pairs(rs: Seq<RecordView>) -> Seq<(Seq<u8>, Seq<u8>)>
    decreases rs.len(),
{
    if rs.len() == 0 {
        Seq::empty()
    } else {
        batch_pairs(rs.drop_last()) + record_pairs(rs.last())
    }
}

/// The record has a key but its serialization failed, so it was dropped.
pub open spec fn is_dropped(r: RecordView) -> bool {
    (r.name is Some || r.code is Some) && r.encoded is None
}

/// How many records of a batch were dropped.
pub open spec fn dropped_count(rs: Seq<RecordView>) -> nat
    decreases rs.len(),
{
    if rs.len() == 0 {
        0
    } else {
        dropped_count(rs.drop_last()) + if is_dropped(rs.last()) {
            1nat
        } else {
            0nat
        }
    }
}

/// The models of a vector of records.
pub open spec fn records_view(rs: Seq<RawRecord>) -> Seq<RecordView> {
    rs.map_values(|r: RawRecord| r@)
}

/// What a build reports.
pub struct BuildSummary {
    /// Documents in the batch.
    pub records: usize,
    /// Pairs emitted to the builder.
    pub pairs: usize,
    /// Documents dropped because their serialization failed.
    pub dropped: usize,
    /// Entries in the finished table.
    pub entries: usize,
}

/// A finished build: the table and its summary.
pub struct Ingested {
    pub table: Table,
    pub summary: BuildSummary,
}

/// Why a batch could not be ingested.
pub enum IngestError {
    /// The source is not JSON text.
    Parse,
    /// A record failed to serialize and the policy was to abort the build.
    Encode,
}

/// What a build does with a record whose serialization failed.
pub enum FailurePolicy {
    /// Drop the record and go on with the batch.
    DropRecord,
    /// Abort the whole build.
    AbortBuild,
}

/// The UTF-8 bytes of a text, as a key.
pub fn key_bytes(text: &String) -> (k: Vec<u8>)
    ensures
        k@ == key_of(text@),
{
    slice_to_vec(text.as_str().as_bytes())
}

/// Builds the table from records already read from their documents: each
/// record's pairs are emitted in batch order and the first pair for a key wins.
pub fn ingest_records(records: &Vec<RawRecord>) -> (r: Ingested)
    ensures
        r.table.wf(),
        r.table.map() == first_wins(batch_pairs(records_view(records@))),
        r.summary.records == records@.len(),
        r.summary.pairs == batch_pairs(records_view(records@)).len(),
        r.summary.dropped == dropped_count(records_view(records@)),
        r.summary.entries == r.table@.len(),
{
    let ghost rv = records_view(records@);
    let mut builder = Builder::new();
    let mut dropped: usize = 0;
    let n = records.len();
    let mut i: usize = 0;
    assert(rv.take(0) =~= Seq::<RecordView>::empty());
    while i < n
        invariant
            n == records@.len(),
            rv == records_view(records@),
            i <= n,
            builder@ == batch_pairs(rv.take(i as int)),
            dropped == dropped_count(rv.take(i as int)),
            dropped <= i,
        decreases n - i,
    {
        let r = &records[i];
        assert(rv[i as int] == r@);
        assert(rv.take(i + 1).drop_last() =~= rv.take(i as int));
        let ghost before = builder@;
        match &r.encoded {
            Some(v) => {
                match &r.name {
                    Some(name) => {
                        builder.emit(key_bytes(name), slice_to_vec(v.as_slice()));
                    },
                    None => {},
                }
                match &r.code {
                    Some(code) => {
                        builder.emit(key_bytes(code), slice_to_vec(v.as_slice()));
                    },
                    None => {},
                }
            },
            None => {
                if r.name.is_some() || r.code.is_some() {
                    dropped = dropped + 1;
                }
            },
        }
        assert(builder@ =~= before + record_pairs(r@));
        i = i + 1;
    }
    assert(rv.take(n as int) =~= rv);
    let pairs = builder.len();
    let table = builder.finalize();
    let entries = table.len();
    Ingested { table, summary: BuildSummary { records: n, pairs, dropped, entries } }
}

/// Builds the table from records under a failure policy: with `AbortBuild`
/// a batch in which any record was dropped is refused as a whole; otherwise
/// the build is that of `ingest_records`.
pub fn ingest_records_with(records: &Vec<RawRecord>, policy: FailurePolicy) -> (r: Result<
    Ingested,
    IngestError,
>)
    ensures
        (policy is AbortBuild && dropped_count(records_view(records@)) > 0) <==> r is Err,
        r matches Err(e) ==> e is Encode,
        r matches Ok(ing) ==> {
            &&& ing.table.wf()
            &&& ing.table.map() == first_wins(batch_pairs(records_view(records@)))
            &&& ing.summary.records == records@.len()
            &&& ing.summary.pairs == batch_pairs(records_view(records@)).len()
            &&& ing.summary.dropped == dropped_count(records_view(records@))
            &&& ing.summary.entries == ing.table@.len()
        },
{
    let ing = ingest_records(records);
    match policy {
        FailurePolicy::AbortBuild => {
            if ing.summary.dropped > 0 {
                return Err(IngestError::Encode);
            }
        },
        FailurePolicy::DropRecord => {},
    }
    Ok(ing)
}

/// A record read from a document: it has a binary form exactly when it has a key.
pub open spec fn well_read(r: RecordView) -> bool {
    r.encoded is Some <==> (r.name is Some || r.code is Some)
}

/// No record read from a document is dropped.
pub proof fn lemma_well_read_none_dropped(rs: Seq<RecordView>)
    requires
        forall|i: int| 0 <= i < rs.len() ==> well_read(#[trigger] rs[i]),
    ensures
        dropped_count(rs) == 0,
    decreases rs.len(),
{
    if rs.len() > 0 {
        let d = rs.drop_last();
        assert forall|i: int| 0 <= i < d.len() implies well_read(#[trigger] d[i]) by {
            assert(d[i] == rs[i]);
        }
        lemma_well_read_none_dropped(d);
        assert(well_read(rs[rs.len() - 1]));
    }
}

/// Reads the fields that ingest needs from one document, and serializes the
/// document when it has a key.
pub fn read_record(doc: &serde_json::Value) -> (r: RawRecord)
    ensures
        well_read(r@),
{
    let name = text_at(doc, "/name/common");
    let code = text_at(doc, "/cca3");
    let encoded = if name.is_some() || code.is_some() {
        match encode_document(doc) {
            Ok(bytes) => Some(bytes),
            Err(_) => None,
        }
    } else {
        None
    };
    RawRecord { name, code, encoded }
}

/// Reads every document of a batch, in order.
pub fn read_records(docs: &Vec<serde_json::Value>) -> (r: Vec<RawRecord>)
    ensures
        r@.len() == docs@.len(),
        forall|i: int| 0 <= i < r@.len() ==> well_read(#[trigger] records_view(r@)[i]),
{
    let mut out: Vec<RawRecord> = Vec::new();
    for i in 0..docs.len()
        invariant
            out@.len() == i,
            forall|j: int| 0 <= j < out@.len() ==> well_read(#[trigger] records_view(out@)[j]),
    {
        let r = read_record(&docs[i]);
        let ghost before = out@;
        out.push(r);
        assert forall|j: int| 0 <= j < out@.len() implies well_read(
            #[trigger] records_view(out@)[j],
        ) by {
            if j < before.len() {
                assert(records_view(out@)[j] == records_view(before)[j]);
            }
        }
    }
    out
}

/// The documents of a batch given as JSON text. Text that serde_json does not
/// accept is refused; JSON that is not an array is an empty batch.
pub fn parse_batch(source: &[u8]) -> (r: Result<Vec<serde_json::Value>, IngestError>)
    ensures
        r is Err <==> !json_parses(source@),
        r matches Err(e) ==> e is Parse,
        r matches Ok(docs) ==> docs@.len() == batch_len(source@),
{
    match parse_json(source) {
        Ok(Some(items)) => Ok(items),
        Ok(None) => Ok(Vec::new()),
        Err(_) => Err(IngestError::Parse),
    }
}

/// What ingesting a batch text gives when the text parses: one record read
/// from each document, in order; the table those records build; and a
/// summary that counts them. No record is dropped, since every document
/// with a key serializes.
pub open spec fn ingested_from(source: Seq<u8>, ing: Ingested) -> bool {
    &&& ing.table.wf()
    &&& exists|rs: Seq<RecordView>|
        #![trigger batch_pairs(rs)]
        {
            &&& rs.len() == batch_len(source)
            &&& forall|i: int| 0 <= i < rs.len() ==> well_read(#[trigger] rs[i])
            &&& ing.table.map() == first_wins(batch_pairs(rs))
            &&& ing.summary.pairs == batch_pairs(rs).len()
        }
    &&& ing.summary.records == batch_len(source)
    &&& ing.summary.dropped == 0
    &&& ing.summary.entries == ing.table@.len()
    &&& batch_len(source) == 0 ==> ing.table@.len() == 0
}

/// Ingests a batch given as JSON text under a failure policy. Text that is
/// not JSON is refused; otherwise each document is read and the table built.
/// Since a document with a key always serializes, no record is ever dropped
/// and the policy never refuses a batch.
pub fn ingest_with(source: &[u8], policy: FailurePolicy) -> (r: Result<Ingested, IngestError>)
    ensures
        r is Err <==> !json_parses(source@),
        r matches Err(e) ==> e is Parse,
        r matches Ok(ing) ==> ingested_from(source@, ing),
{
    let docs = match parse_batch(source) {
        Ok(docs) => docs,
        Err(e) => {
            return Err(e);
        },
    };
    let records = read_records(&docs);
    let ghost rv = records_view(records@);
    proof {
        lemma_well_read_none_dropped(rv);
    }
    let r = ingest_records_with(&records, policy);
    match r {
        Ok(ing) => {
            proof {
                assert(rv.len() == batch_len(source@));
                if rv.len() == 0 {
                    assert(batch_pairs(rv) =~= Seq::<(Seq<u8>, Seq<u8>)>::empty());
                    assert(first_wins(batch_pairs(rv)) =~= Map::<Seq<u8>, Seq<u8>>::empty());
                    if ing.table@.len() > 0 {
                        lemma_table_map_at(ing.table@, 0);
                    }
                }
            }
            Ok(ing)
        },
        Err(e) => Err(e),
    }
}

/// Ingests a batch given as JSON text: an array of documents. Text that is
/// not JSON is refused; JSON that is not an array is an empty batch.
pub fn ingest(source: &[u8]) -> (r: Result<Ingested, IngestError>)
    ensures
        r is Err <==> !json_parses(source@),
        r matches Err(e) ==> e is Parse,
        r matches Ok(ing) ==> ingested_from(source@, ing),
{
    ingest_with(source, FailurePolicy::DropRecord)
}

} // verus!
