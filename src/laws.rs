//! Properties of the library that relate several of its operations.

use crate::builder::first_wins;
use crate::codec::{lemma_table_bytes_injective, storable, table_bytes};
use crate::ingest::{batch_pairs, key_of, record_pairs, RecordView};
use crate::query::resolved;
use crate::table::{has_key, lemma_ascending_unique, strictly_ascending, table_map};
use vstd::prelude::*;

verus! {

/// The merged mapping holds a key exactly when some emitted pair has it.
pub proof fn lemma_first_wins_keys(pairs: Seq<(Seq<u8>, Seq<u8>)>, k: Seq<u8>)
    ensures
        first_wins(pairs).contains_key(k) <==> has_key(pairs, k),
    decreases pairs.len(),
{
    if pairs.len() > 0 {
        let d = pairs.drop_last();
        lemma_first_wins_keys(d, k);
        if has_key(pairs, k) {
            let j = choose|j: int| 0 <= j < pairs.len() && (#[trigger] pairs[j]).0 == k;
            if j < pairs.len() - 1 {
                assert(d[j] == pairs[j]);
            }
        }
        if has_key(d, k) {
            let j = choose|j: int| 0 <= j < d.len() && (#[trigger] d[j]).0 == k;
            assert(pairs[j] == d[j]);
        }
    }
}

/// First write wins: when pair `first` is the earliest emitted pair with its
/// key, the built table stores that pair's value under the key, whatever
/// pairs with the same key were emitted after it.
pub proof fn law_first_write_wins(pairs: Seq<(Seq<u8>, Seq<u8>)>, first: int)
    requires
        0 <= first < pairs.len(),
        forall|i: int| 0 <= i < first ==> (#[trigger] pairs[i]).0 != pairs[first].0,
    ensures
        first_wins(pairs).contains_key(pairs[first].0),
        first_wins(pairs)[pairs[first].0] == pairs[first].1,
    decreases pairs.len(),
{
    let k = pairs[first].0;
    let d = pairs.drop_last();
    if first == pairs.len() - 1 {
        lemma_first_wins_keys(d, k);
        if has_key(d, k) {
            let i = choose|i: int| 0 <= i < d.len() && (#[trigger] d[i]).0 == k;
            assert(pairs[i] == d[i]);
        }
    } else {
        assert forall|i: int| 0 <= i < first implies (#[trigger] d[i]).0 != d[first].0 by {
            assert(d[i] == pairs[i]);
        }
        law_first_write_wins(d, first);
    }
}

/// Determinism: two builds of the same emitted pairs give the same entries,
/// and so the same stored bytes.
pub proof fn law_build_deterministic(
    pairs: Seq<(Seq<u8>, Seq<u8>)>,
    a: Seq<(Seq<u8>, Seq<u8>)>,
    b: Seq<(Seq<u8>, Seq<u8>)>,
)
    requires
        strictly_ascending(a),
        table_map(a) == first_wins(pairs),
        strictly_ascending(b),
        table_map(b) == first_wins(pairs),
    ensures
        a == b,
        table_bytes(a) == table_bytes(b),
{
    lemma_ascending_unique(a, b);
}

proof fn lemma_batch_prefix(rs: Seq<RecordView>, m: int)
    requires
        0 <= m <= rs.len(),
    ensures
        batch_pairs(rs.take(m)).len() <= batch_pairs(rs).len(),
        batch_pairs(rs).subrange(0, batch_pairs(rs.take(m)).len() as int) == batch_pairs(
            rs.take(m),
        ),
    decreases rs.len(),
{
    if m == rs.len() {
        assert(rs.take(m) =~= rs);
        assert(batch_pairs(rs).subrange(0, batch_pairs(rs).len() as int) =~= batch_pairs(rs));
    } else {
        let d = rs.drop_last();
        assert(d.take(m) =~= rs.take(m));
        lemma_batch_prefix(d, m);
        let n = batch_pairs(rs.take(m)).len() as int;
        assert(batch_pairs(rs).subrange(0, n) =~= batch_pairs(d).subrange(0, n));
    }
}

/// After ingest, the short code of record `i` finds that record's binary
/// form, provided no earlier record emitted the same key; its display name,
/// on the same proviso, finds the very same bytes.
pub proof fn law_name_and_code_agree(rs: Seq<RecordView>, i: int)
    requires
        0 <= i < rs.len(),
        rs[i].encoded is Some,
        rs[i].code is Some,
        !has_key(batch_pairs(rs.take(i)), key_of(rs[i].code->0)),
    ensures
        first_wins(batch_pairs(rs)).contains_key(key_of(rs[i].code->0)),
        first_wins(batch_pairs(rs))[key_of(rs[i].code->0)] == rs[i].encoded->0,
        rs[i].name is Some && !has_key(batch_pairs(rs.take(i)), key_of(rs[i].name->0)) ==> {
            &&& first_wins(batch_pairs(rs)).contains_key(key_of(rs[i].name->0))
            &&& first_wins(batch_pairs(rs))[key_of(rs[i].name->0)] == first_wins(
                batch_pairs(rs),
            )[key_of(rs[i].code->0)]
        },
{
    let p = batch_pairs(rs);
    let pre = batch_pairs(rs.take(i));
    let rp = record_pairs(rs[i]);
    let v = rs[i].encoded->0;
    let l = pre.len() as int;
    assert(rs.take(i + 1).drop_last() =~= rs.take(i));
    assert(batch_pairs(rs.take(i + 1)) == pre + rp);
    lemma_batch_prefix(rs, i + 1);
    assert forall|t: int| 0 <= t < rp.len() implies p[l + t] == rp[t] by {
        assert(p.subrange(0, l + rp.len())[l + t] == (pre + rp)[l + t]);
    }
    assert forall|t: int| 0 <= t < l implies p[t] == pre[t] by {
        assert(p.subrange(0, l + rp.len())[t] == (pre + rp)[t]);
    }
    let kc = key_of(rs[i].code->0);
    let jc = if rs[i].name is Some {
        l + 1
    } else {
        l
    };
    if rs[i].name is Some {
        assert(rp =~= seq![(key_of(rs[i].name->0), v), (kc, v)]);
        assert(p[l + 0] == rp[0]);
        assert(p[l + 1] == rp[1]);
    } else {
        assert(rp =~= seq![(kc, v)]);
        assert(p[l + 0] == rp[0]);
    }
    assert(p[jc] == (kc, v));
    if rs[i].name is Some && key_of(rs[i].name->0) == kc {
        assert(p[l] == (kc, v));
        assert forall|t: int| 0 <= t < l implies (#[trigger] p[t]).0 != p[l].0 by {
            assert(p[t] == pre[t]);
        }
        law_first_write_wins(p, l);
    } else {
        assert forall|t: int| 0 <= t < jc implies (#[trigger] p[t]).0 != p[jc].0 by {
            if t < l {
                assert(p[t] == pre[t]);
            }
        }
        law_first_write_wins(p, jc);
    }
    if rs[i].name is Some && !has_key(pre, key_of(rs[i].name->0)) {
        let kn = key_of(rs[i].name->0);
        assert(p[l] == (kn, v));
        assert forall|t: int| 0 <= t < l implies (#[trigger] p[t]).0 != p[l].0 by {
            assert(p[t] == pre[t]);
        }
        law_first_write_wins(p, l);
    }
}

/// First write wins, per record: when record `i` emits key `k` (as its
/// display name or as its short code) and no earlier record emitted `k`, the
/// built table stores record `i`'s binary form under `k`, whatever later
/// records emit the same key.
pub proof fn law_first_record_wins(rs: Seq<RecordView>, i: int, k: Seq<u8>)
    requires
        0 <= i < rs.len(),
        has_key(record_pairs(rs[i]), k),
        !has_key(batch_pairs(rs.take(i)), k),
    ensures
        first_wins(batch_pairs(rs)).contains_key(k),
        first_wins(batch_pairs(rs))[k] == rs[i].encoded->0,
{
    let p = batch_pairs(rs);
    let pre = batch_pairs(rs.take(i));
    let rp = record_pairs(rs[i]);
    let l = pre.len() as int;
    assert(rs.take(i + 1).drop_last() =~= rs.take(i));
    assert(batch_pairs(rs.take(i + 1)) == pre + rp);
    lemma_batch_prefix(rs, i + 1);
    assert forall|t: int| 0 <= t < rp.len() implies p[l + t] == rp[t] by {
        assert(p.subrange(0, l + rp.len())[l + t] == (pre + rp)[l + t]);
    }
    assert forall|t: int| 0 <= t < l implies p[t] == pre[t] by {
        assert(p.subrange(0, l + rp.len())[t] == (pre + rp)[t]);
    }
    assert(rs[i].encoded is Some);
    let v = rs[i].encoded->0;
    assert forall|t: int| 0 <= t < rp.len() implies (#[trigger] rp[t]).1 == v by {
        if rs[i].name is Some && rs[i].code is Some {
            assert(rp =~= seq![(key_of(rs[i].name->0), v), (key_of(rs[i].code->0), v)]);
        } else if rs[i].name is Some {
            assert(rp =~= seq![(key_of(rs[i].name->0), v)]);
        } else if rs[i].code is Some {
            assert(rp =~= seq![(key_of(rs[i].code->0), v)]);
        }
    }
    let t = if rp[0].0 == k {
        0int
    } else {
        1int
    };
    let w = choose|w: int| 0 <= w < rp.len() && (#[trigger] rp[w]).0 == k;
    assert(rp.len() <= 2);
    assert(0 <= t < rp.len() && rp[t].0 == k);
    assert(p[l + t] == rp[t]);
    assert forall|j: int| 0 <= j < l + t implies (#[trigger] p[j]).0 != p[l + t].0 by {
        if j < l {
            assert(p[j] == pre[j]);
        } else {
            assert(p[j] == rp[0]);
        }
    }
    law_first_write_wins(p, l + t);
}

/// Neighbour resolution never returns more than it was asked for, and each
/// code that is not a key makes the result strictly shorter than the list of
/// codes.
pub proof fn law_unresolved_neighbors_dropped(m: Map<Seq<u8>, Seq<u8>>, codes: Seq<Seq<char>>)
    ensures
        resolved(m, codes).len() <= codes.len(),
        (exists|i: int| 0 <= i < codes.len() && !m.contains_key(key_of(#[trigger] codes[i])))
            ==> resolved(m, codes).len() < codes.len(),
    decreases codes.len(),
{
    if codes.len() > 0 {
        let d = codes.drop_last();
        law_unresolved_neighbors_dropped(m, d);
        if exists|i: int| 0 <= i < codes.len() && !m.contains_key(key_of(#[trigger] codes[i])) {
            let i = choose|i: int| 0 <= i < codes.len() && !m.contains_key(key_of(#[trigger] codes[i]));
            if i < codes.len() - 1 {
                assert(d[i] == codes[i]);
            }
        }
    }
}

/// Persistence: a table opened again from its stored form has the entries it
/// was stored with, so lookups and scans answer as before. Handles opened
/// from the same stored form therefore read the same entries.
pub proof fn law_reopen_same_table(stored: Seq<(Seq<u8>, Seq<u8>)>, reopened: Seq<(Seq<u8>, Seq<u8>)>)
    requires
        storable(stored),
        storable(reopened),
        table_bytes(reopened) == table_bytes(stored),
    ensures
        reopened == stored,
        table_map(reopened) == table_map(stored),
{
    lemma_table_bytes_injective(reopened, stored);
}

} // verus!
