use countrydb::builder::Builder;
use countrydb::codec::encode_table;
use countrydb::ingest::{
    ingest_records_with, ingest_with, parse_batch, FailurePolicy, IngestError, RawRecord,
};
use countrydb::query::{needs_build, GraphQLCtx};

fn records() -> Vec<RawRecord> {
    vec![
        RawRecord { name: Some("Aland".to_string()), code: Some("ALA".to_string()), encoded: None },
        RawRecord { name: None, code: Some("BBB".to_string()), encoded: Some(vec![1]) },
    ]
}

#[test]
fn abort_policy_refuses_batch_with_dropped_record() {
    let r = ingest_records_with(&records(), FailurePolicy::AbortBuild);
    assert!(matches!(r, Err(IngestError::Encode)));
}

#[test]
fn drop_policy_goes_on_past_dropped_record() {
    let ing = ingest_records_with(&records(), FailurePolicy::DropRecord).ok().unwrap();
    assert_eq!(ing.summary.dropped, 1);
    assert_eq!(ing.table.get(b"BBB"), Some(vec![1]));
    assert_eq!(ing.table.get(b"ALA"), None);
}

#[test]
fn abort_policy_builds_clean_batch() {
    let clean = vec![RawRecord { name: None, code: Some("CCC".to_string()), encoded: Some(vec![3]) }];
    let ing = ingest_records_with(&clean, FailurePolicy::AbortBuild).ok().unwrap();
    assert_eq!(ing.summary.entries, 1);
    let ing2 = ingest_with(br#"[{"cca3":"DEU"}]"#, FailurePolicy::AbortBuild).ok().unwrap();
    assert!(ing2.table.get(b"DEU").is_some());
    assert!(matches!(ingest_with(b"{", FailurePolicy::AbortBuild), Err(IngestError::Parse)));
}

#[test]
fn parse_batch_reads_arrays_only() {
    assert_eq!(parse_batch(b"[1, {\"a\": 2}, \"x\"]").ok().unwrap().len(), 3);
    assert_eq!(parse_batch(b"{\"a\": 2}").ok().unwrap().len(), 0);
    assert_eq!(parse_batch(b"[]").ok().unwrap().len(), 0);
    assert!(matches!(parse_batch(b""), Err(IngestError::Parse)));
}

#[test]
fn needs_build_follows_sentinel_key() {
    let sentinel = "DEU".to_string();
    assert!(needs_build(&None, &sentinel));
    let mut b = Builder::new();
    b.emit(b"FRA".to_vec(), b"f".to_vec());
    let without = GraphQLCtx::open(&encode_table(&b.finalize()));
    assert!(without.is_some());
    assert!(needs_build(&without, &sentinel));
    let mut b = Builder::new();
    b.emit(b"DEU".to_vec(), b"g".to_vec());
    let with = Some(GraphQLCtx::new(b.finalize()));
    assert!(!needs_build(&with, &sentinel));
}
