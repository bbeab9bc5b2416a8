use countrydb::codec::encode_table;
use countrydb::ingest::ingest;
use countrydb::pool::{Answer, Query, SledExecutor, WorkerPool};
use countrydb::query::{GraphQLCtx, QueryRoot};

const BATCH: &str = r#"[{"name":{"common":"Germany"},"cca3":"DEU","borders":["POL","FRA","ZZZ"]}, {"name":{"common":"France"},"cca3":"FRA","borders":["DEU"]}]"#;

fn stored() -> Vec<u8> {
    encode_table(&ingest(BATCH.as_bytes()).ok().unwrap().table)
}

fn docs() -> serde_json::Value {
    serde_json::from_str(BATCH).unwrap()
}

#[test]
fn border_resolution_drops_unknown_neighbors() {
    let ctx = GraphQLCtx::open(&stored()).expect("opens");
    let r = QueryRoot.country_with_borders(&ctx, "DEU".to_string()).expect("found");
    assert_eq!(r.record, docs()[0]);
    assert_eq!(r.neighbors.len(), 1);
    assert_eq!(r.neighbors[0], docs()[1]);
    assert!(r.neighbors.len() < 3);
}

#[test]
fn border_resolution_is_one_hop() {
    let ctx = GraphQLCtx::open(&stored()).unwrap();
    let r = QueryRoot.country_with_borders(&ctx, "FRA".to_string()).unwrap();
    assert_eq!(r.neighbors, vec![docs()[0].clone()]);
}

#[test]
fn lookup_absent_or_undecodable_is_none() {
    let ctx = GraphQLCtx::open(&stored()).unwrap();
    assert!(QueryRoot.country(&ctx, "POL".to_string()).is_none());
    assert!(QueryRoot.country_with_borders(&ctx, "ZZZ".to_string()).is_none());
    let mut b = countrydb::builder::Builder::new();
    b.emit(b"BAD".to_vec(), vec![0xff, 0xff]);
    let t = b.finalize();
    let ctx2 = GraphQLCtx::new(t);
    assert_eq!(ctx2.get("BAD".to_string()), Some(vec![0xff, 0xff]));
    assert!(QueryRoot.country(&ctx2, "BAD".to_string()).is_none());
}

#[test]
fn resolve_codes_keeps_order_of_present_codes() {
    let ctx = GraphQLCtx::open(&stored()).unwrap();
    let codes = vec!["FRA".to_string(), "POL".to_string(), "Germany".to_string()];
    let found = ctx.resolve_codes(&codes);
    assert_eq!(found.len(), 2);
    assert_eq!(found[0], ctx.get("FRA".to_string()).unwrap());
    assert_eq!(found[1], ctx.get("DEU".to_string()).unwrap());
    let n = QueryRoot.neighbors_of(&ctx, &codes);
    assert_eq!(n, vec![docs()[1].clone(), docs()[0].clone()]);
}

#[test]
fn list_countries_decodes_every_entry_in_key_order() {
    let ctx = GraphQLCtx::open(&stored()).unwrap();
    let all = QueryRoot.list_countries(&ctx);
    // keys ascending: DEU, FRA, France, Germany
    let d = docs();
    assert_eq!(all, vec![d[0].clone(), d[1].clone(), d[1].clone(), d[0].clone()]);
}

#[test]
fn reopened_table_answers_as_before() {
    let bytes = stored();
    let before = GraphQLCtx::open(&bytes).unwrap();
    let again = GraphQLCtx::open(&bytes.clone()).unwrap();
    for key in ["DEU", "FRA", "Germany", "France", "POL", ""] {
        assert_eq!(before.get(key.to_string()), again.get(key.to_string()));
    }
    let a: Vec<(Vec<u8>, Vec<u8>)> = before.iter().into_iter().map(|e| (e.key, e.value)).collect();
    let b: Vec<(Vec<u8>, Vec<u8>)> = again.iter().into_iter().map(|e| (e.key, e.value)).collect();
    assert_eq!(a, b);
    assert_eq!(before.len(), 4);
}

#[test]
fn damaged_store_opens_as_absent() {
    let mut bytes = stored();
    let last = bytes.len() - 1;
    bytes[last] ^= 0x80;
    assert!(GraphQLCtx::open(&bytes).is_none());
    assert!(GraphQLCtx::open(&[]).is_none());
}

fn same_answer(a: &Answer, b: &Answer) -> bool {
    match (a, b) {
        (Answer::Record(x), Answer::Record(y)) => x == y,
        (Answer::Records(x), Answer::Records(y)) => x == y,
        (Answer::WithNeighbors(x), Answer::WithNeighbors(y)) => match (x, y) {
            (None, None) => true,
            (Some(p), Some(q)) => p.record == q.record && p.neighbors == q.neighbors,
            _ => false,
        },
        _ => false,
    }
}

fn query(i: usize) -> Query {
    let keys = ["DEU", "FRA", "Germany", "France", "POL", "ZZZ"];
    let key = keys[(i * 7 + 3) % keys.len()].to_string();
    match i % 5 {
        4 => Query::Scan,
        0 | 2 => Query::PointLookup { key },
        _ => Query::BorderResolve { key },
    }
}

#[test]
fn workers_answer_like_a_single_handle() {
    let bytes = stored();
    let single = SledExecutor::new(GraphQLCtx::open(&bytes).unwrap());
    let workers: Vec<SledExecutor> =
        (0..3).map(|_| SledExecutor::new(GraphQLCtx::open(&bytes).unwrap())).collect();
    let mut pool = WorkerPool::new(3);
    let mut in_hand: Vec<(usize, usize)> = Vec::new();
    for i in 0..40 {
        let w = pool.dispatch();
        in_hand.push((w, i));
        if i % 3 == 2 {
            for (w, q) in in_hand.drain(..) {
                let got = workers[w].handle(query(q));
                let want = single.handle(query(q));
                assert!(same_answer(&got, &want), "query {} on worker {}", q, w);
                pool.complete(w);
            }
        }
    }
}

#[test]
fn handle_gives_answer_of_query_shape() {
    let w = SledExecutor::new(GraphQLCtx::open(&stored()).unwrap());
    match w.handle(Query::PointLookup { key: "DEU".to_string() }) {
        Answer::Record(Some(d)) => assert_eq!(d, docs()[0]),
        _ => panic!("point lookup of a present key"),
    }
    match w.handle(Query::BorderResolve { key: "DEU".to_string() }) {
        Answer::WithNeighbors(Some(r)) => assert_eq!(r.neighbors, vec![docs()[1].clone()]),
        _ => panic!("border resolution of a present key"),
    }
    assert!(matches!(w.handle(Query::PointLookup { key: "POL".to_string() }), Answer::Record(None)));
}

#[test]
fn entry_at_walks_the_scan_order() {
    let ctx = GraphQLCtx::open(&stored()).unwrap();
    let all = ctx.iter();
    assert_eq!(all.len(), ctx.len());
    for i in 0..ctx.len() {
        assert_eq!(ctx.entry_at(i).key, all[i].key);
        assert_eq!(ctx.entry_at(i).value, all[i].value);
    }
    assert_eq!(ctx.entry_at(0).key, b"DEU".to_vec());
    assert_eq!(ctx.entry_at(3).key, b"Germany".to_vec());
}

#[test]
fn scan_query_gives_every_record_in_key_order() {
    let w = SledExecutor::new(GraphQLCtx::open(&stored()).unwrap());
    let d = docs();
    match w.handle(Query::Scan) {
        Answer::Records(all) => {
            assert_eq!(all, vec![d[0].clone(), d[1].clone(), d[1].clone(), d[0].clone()])
        }
        _ => panic!("scan answers with records"),
    }
}
