use countrydb::codec::encode_table;
use countrydb::documents::{text_at, texts_at};
use countrydb::ingest::{ingest, ingest_records, read_record, IngestError, RawRecord};

const BATCH: &str = r#"[{"name":{"common":"Germany"},"cca3":"DEU","borders":["POL","FRA","ZZZ"]}, {"name":{"common":"France"},"cca3":"FRA","borders":["DEU"]}]"#;

fn doc(text: &str) -> serde_json::Value {
    serde_json::from_str(text).unwrap()
}

#[test]
fn ingest_keys_each_record_by_name_and_code() {
    let ing = ingest(BATCH.as_bytes()).ok().expect("batch ingests");
    assert_eq!(ing.summary.records, 2);
    assert_eq!(ing.summary.pairs, 4);
    assert_eq!(ing.summary.dropped, 0);
    assert_eq!(ing.summary.entries, 4);
    let t = &ing.table;
    let by_code = t.get(b"DEU").expect("code key present");
    let by_name = t.get(b"Germany").expect("name key present");
    assert_eq!(by_code, by_name);
    let decoded: serde_json::Value = serde_cbor::from_slice(&by_code).unwrap();
    let docs: serde_json::Value = doc(BATCH);
    assert_eq!(decoded, docs[0]);
    let fra: serde_json::Value = serde_cbor::from_slice(&t.get(b"FRA").unwrap()).unwrap();
    assert_eq!(fra, docs[1]);
}

#[test]
fn ingest_refuses_text_that_is_not_json() {
    assert!(matches!(ingest(b"[{\"cca3\": "), Err(IngestError::Parse)));
    assert!(matches!(ingest(b"not json"), Err(IngestError::Parse)));
}

#[test]
fn ingest_of_non_array_is_empty() {
    let ing = ingest(b"{\"cca3\":\"DEU\"}").ok().unwrap();
    assert_eq!(ing.summary.records, 0);
    assert_eq!(ing.table.len(), 0);
}

#[test]
fn records_without_keys_contribute_nothing() {
    let ing = ingest(br#"[{"cca2":"DE"}, {"name":{"common":7},"cca3":null}, {"cca3":"FRA"}]"#)
        .ok()
        .unwrap();
    assert_eq!(ing.summary.records, 3);
    assert_eq!(ing.summary.pairs, 1);
    assert_eq!(ing.table.len(), 1);
    assert!(ing.table.get(b"FRA").is_some());
}

#[test]
fn first_record_wins_a_shared_name() {
    let ing = ingest(
        br#"[{"name":{"common":"Congo"},"cca3":"COG"}, {"name":{"common":"Congo"},"cca3":"COD"}]"#,
    )
    .ok()
    .unwrap();
    assert_eq!(ing.summary.pairs, 4);
    assert_eq!(ing.summary.entries, 3);
    let t = &ing.table;
    assert_eq!(t.get(b"Congo"), t.get(b"COG"));
    assert_ne!(t.get(b"Congo"), t.get(b"COD"));
}

#[test]
fn same_batch_builds_identical_bytes() {
    let a = ingest(BATCH.as_bytes()).ok().unwrap();
    let b = ingest(BATCH.as_bytes()).ok().unwrap();
    assert_eq!(encode_table(&a.table), encode_table(&b.table));
}

#[test]
fn dropped_records_are_counted() {
    let recs = vec![
        RawRecord { name: Some("A".to_string()), code: Some("AAA".to_string()), encoded: None },
        RawRecord { name: None, code: Some("BBB".to_string()), encoded: Some(vec![7]) },
        RawRecord { name: None, code: None, encoded: None },
    ];
    let ing = ingest_records(&recs);
    assert_eq!(ing.summary.records, 3);
    assert_eq!(ing.summary.dropped, 1);
    assert_eq!(ing.summary.pairs, 1);
    assert_eq!(ing.table.get(b"BBB"), Some(vec![7]));
    assert_eq!(ing.table.get(b"AAA"), None);
    assert_eq!(ing.table.get(b"A"), None);
}

#[test]
fn ingest_records_emits_name_then_code() {
    let recs = vec![RawRecord {
        name: Some("X".to_string()),
        code: Some("X".to_string()),
        encoded: Some(vec![1, 2]),
    }];
    let ing = ingest_records(&recs);
    assert_eq!(ing.summary.pairs, 2);
    assert_eq!(ing.summary.entries, 1);
    assert_eq!(ing.table.get(b"X"), Some(vec![1, 2]));
}

#[test]
fn read_record_reads_fixed_paths() {
    let d = doc(r#"{"name":{"common":"Germany","official":"Federal Republic of Germany"},"cca3":"DEU"}"#);
    let r = read_record(&d);
    assert_eq!(r.name, Some("Germany".to_string()));
    assert_eq!(r.code, Some("DEU".to_string()));
    let bytes = r.encoded.expect("serialized");
    let back: serde_json::Value = serde_cbor::from_slice(&bytes).unwrap();
    assert_eq!(back, d);
    let none = read_record(&doc(r#"{"cca2":"DE"}"#));
    assert!(none.name.is_none() && none.code.is_none() && none.encoded.is_none());
}

#[test]
fn text_at_and_texts_at_read_documents() {
    let d = doc(r#"{"name":{"common":"France"},"cca3":"FRA","borders":["DEU",3,"ESP"]}"#);
    assert_eq!(text_at(&d, "/name/common"), Some("France".to_string()));
    assert_eq!(text_at(&d, "/cca3"), Some("FRA".to_string()));
    assert_eq!(text_at(&d, "/borders"), None);
    assert_eq!(text_at(&d, "/missing"), None);
    assert_eq!(texts_at(&d, "/borders"), vec!["DEU".to_string(), "ESP".to_string()]);
    assert!(texts_at(&d, "/cca3").is_empty());
}
