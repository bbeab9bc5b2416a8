//! The stored form of a table. Each entry is written as the key's length (8
//! bytes, little-endian), the key, the value's length and the value; a 24-byte
//! trailer follows with the entry count, a checksum of everything before it,
//! and a fixed mark. A byte string that is not exactly such a form of a table
//! whose keys ascend is refused as a whole.

use crate::keys::{compare_keys, key_lt, lemma_key_lt_transitive};
use crate::table::{entries_view, strictly_ascending, Entry, Table};
use std::cmp::Ordering;
use vstd::prelude::*;
use vstd::slice::{slice_subrange, slice_to_vec};

verus! {

/// The mark that ends every stored table.
pub const TABLE_MAGIC: u64 = 0x5354_424c_0000_0001;

/// The checksum is taken modulo this prime.
pub const CHECKSUM_MODULUS: u64 = 4294967291;

/// Length of the trailer: count, checksum and mark.
pub const TRAILER_LEN: usize = 24;

/// The eight little-endian bytes of `n`.
pub open spec fn u64_le(n: u64) -> Seq<u8> {
    seq![
        n as u8,
        (n >> 8u64) as u8,
        (n >> 16u64) as u8,
        (n >> 24u64) as u8,
        (n >> 32u64) as u8,
        (n >> 40u64) as u8,
        (n >> 48u64) as u8,
        (n >> 56u64) as u8,
    ]
}

/// A polynomial checksum of a byte string: each byte is folded in as
/// `h * 257 + byte`, modulo `CHECKSUM_MODULUS`.
pub open spec fn checksum(s: Seq<u8>) -> u64
    decreases s.len(),
{
    if s.len() == 0 {
        0
    } else {
        ((checksum(s.drop_last()) as int * 257 + s.last() as int) % (CHECKSUM_MODULUS as int)) as u64
    }
}

/// The stored form of one entry.
pub open spec fn entry_bytes(e: (Seq<u8>, Seq<u8>)) -> Seq<u8> {
    u64_le(e.0.len() as u64) + e.0 + u64_le(e.1.len() as u64) + e.1
}

/// The stored form of a sequence of entries, one after the other.
pub open spec fn body_bytes(s: Seq<(Seq<u8>, Seq<u8>)>) -> Seq<u8>
    decreases s.len(),
{
    if s.len() == 0 {
        Seq::empty()
    } else {
        body_bytes(s.drop_last()) + entry_bytes(s.last())
    }
}

/// The trailer that follows the entries `s` stored as `body`.
pub open spec fn trailer_bytes(count: nat, body: Seq<u8>) -> Seq<u8> {
    u64_le(count as u64) + u64_le(checksum(body)) + u64_le(TABLE_MAGIC)
}

/// The stored form of a table whose entries are `s`.
pub open spec fn table_bytes(s: Seq<(Seq<u8>, Seq<u8>)>) -> Seq<u8> {
    body_bytes(s) + trailer_bytes(s.len(), body_bytes(s))
}

/// Every length in `s` can be written in 8 bytes.
pub open spec fn lengths_fit(s: Seq<(Seq<u8>, Seq<u8>)>) -> bool {
    &&& s.len() <= u64::MAX
    &&& forall|i: int|
        0 <= i < s.len() ==> (#[trigger] s[i]).0.len() <= u64::MAX && s[i].1.len() <= u64::MAX
}

/// `s` is the content of a table that can be stored.
pub open spec fn storable(s: Seq<(Seq<u8>, Seq<u8>)>) -> bool {
    strictly_ascending(s) && lengths_fit(s)
}

proof fn lemma_u64_le_injective(a: u64, c: u64)
    requires
        u64_le(a) == u64_le(c),
    ensures
        a == c,
{
    assert(u64_le(a)[0] == u64_le(c)[0]);
    assert(u64_le(a)[1] == u64_le(c)[1]);
    assert(u64_le(a)[2] == u64_le(c)[2]);
    assert(u64_le(a)[3] == u64_le(c)[3]);
    assert(u64_le(a)[4] == u64_le(c)[4]);
    assert(u64_le(a)[5] == u64_le(c)[5]);
    assert(u64_le(a)[6] == u64_le(c)[6]);
    assert(u64_le(a)[7] == u64_le(c)[7]);
    assert(a == c) by (bit_vector)
        requires
            a as u8 == c as u8,
            (a >> 8u64) as u8 == (c >> 8u64) as u8,
            (a >> 16u64) as u8 == (c >> 16u64) as u8,
            (a >> 24u64) as u8 == (c >> 24u64) as u8,
            (a >> 32u64) as u8 == (c >> 32u64) as u8,
            (a >> 40u64) as u8 == (c >> 40u64) as u8,
            (a >> 48u64) as u8 == (c >> 48u64) as u8,
            (a >> 56u64) as u8 == (c >> 56u64) as u8,
    ;
}

/// Reads the little-endian `u64` that starts at `pos`.
fn read_u64(b: &[u8], pos: usize) -> (r: u64)
    requires
        pos + 8 <= b@.len(),
    ensures
        u64_le(r) == b@.subrange(pos as int, pos + 8),
{
    let b0 = b[pos];
    let b1 = b[pos + 1];
    let b2 = b[pos + 2];
    let b3 = b[pos + 3];
    let b4 = b[pos + 4];
    let b5 = b[pos + 5];
    let b6 = b[pos + 6];
    let b7 = b[pos + 7];
    let r: u64 = (b0 as u64) | ((b1 as u64) << 8u64) | ((b2 as u64) << 16u64) | ((b3 as u64)
        << 24u64) | ((b4 as u64) << 32u64) | ((b5 as u64) << 40u64) | ((b6 as u64) << 48u64) | ((
    b7 as u64) << 56u64);
    assert(r as u8 == b0 && (r >> 8u64) as u8 == b1 && (r >> 16u64) as u8 == b2 && (r >> 24u64) as u8
        == b3 && (r >> 32u64) as u8 == b4 && (r >> 40u64) as u8 == b5 && (r >> 48u64) as u8 == b6 && (r
        >> 56u64) as u8 == b7) by (bit_vector)
        requires
            r == (b0 as u64) | ((b1 as u64) << 8u64) | ((b2 as u64) << 16u64) | ((b3 as u64)
                << 24u64) | ((b4 as u64) << 32u64) | ((b5 as u64) << 40u64) | ((b6 as u64)
                << 48u64) | ((b7 as u64) << 56u64),
    ;
    assert(u64_le(r) =~= b@.subrange(pos as int, pos + 8));
    r
}

/// Appends the little-endian bytes of `n`.
fn push_u64(out: &mut Vec<u8>, n: u64)
    ensures
        final(out)@ == old(out)@ + u64_le(n),
{
    out.push(n as u8);
    out.push((n >> 8u64) as u8);
    out.push((n >> 16u64) as u8);
    out.push((n >> 24u64) as u8);
    out.push((n >> 32u64) as u8);
    out.push((n >> 40u64) as u8);
    out.push((n >> 48u64) as u8);
    out.push((n >> 56u64) as u8);
    assert(out@ =~= old(out)@ + u64_le(n));
}

/// Appends the bytes of `src`.
fn push_all(out: &mut Vec<u8>, src: &[u8])
    ensures
        final(out)@ == old(out)@ + src@,
{
    let ghost start = out@;
    let mut i: usize = 0;
    while i < src.len()
        invariant
            i <= src@.len(),
            out@ == start + src@.take(i as int),
        decreases src@.len() - i,
    {
        out.push(src[i]);
        i = i + 1;
        assert(out@ =~= start + src@.take(i as int));
    }
    assert(src@.take(i as int) =~= src@);
}

/// The checksum of the first `end` bytes of `b`.
pub fn checksum_of(b: &[u8], end: usize) -> (r: u64)
    requires
        end <= b@.len(),
    ensures
        r == checksum(b@.subrange(0, end as int)),
{
    let mut h: u64 = 0;
    let mut i: usize = 0;
    assert(b@.subrange(0, 0) =~= Seq::<u8>::empty());
    while i < end
        invariant
            i <= end <= b@.len(),
            h == checksum(b@.subrange(0, i as int)),
            h < CHECKSUM_MODULUS,
        decreases end - i,
    {
        assert(b@.subrange(0, i + 1).drop_last() =~= b@.subrange(0, i as int));
        h = (h * 257 + b[i] as u64) % CHECKSUM_MODULUS;
        i = i + 1;
    }
    h
}

proof fn lemma_body_bytes_push(s: Seq<(Seq<u8>, Seq<u8>)>, e: (Seq<u8>, Seq<u8>))
    ensures
        body_bytes(s.push(e)) == body_bytes(s) + entry_bytes(e),
{
    assert(s.push(e).drop_last() =~= s);
}

proof fn lemma_body_bytes_prefix(s: Seq<(Seq<u8>, Seq<u8>)>, k: int)
    requires
        0 <= k <= s.len(),
    ensures
        body_bytes(s.take(k)).len() <= body_bytes(s).len(),
        body_bytes(s).subrange(0, body_bytes(s.take(k)).len() as int) == body_bytes(s.take(k)),
    decreases s.len(),
{
    if k == s.len() {
        assert(s.take(k) =~= s);
        assert(body_bytes(s).subrange(0, body_bytes(s).len() as int) =~= body_bytes(s));
    } else {
        let t = s.drop_last();
        assert(t.take(k) =~= s.take(k));
        lemma_body_bytes_prefix(t, k);
        let n = body_bytes(s.take(k)).len() as int;
        assert(body_bytes(s).subrange(0, n) =~= body_bytes(t).subrange(0, n));
    }
}

/// Within the stored form of `s`, entry `k` stands right after the entries before it.
proof fn lemma_entry_in_body(s: Seq<(Seq<u8>, Seq<u8>)>, k: int)
    requires
        0 <= k < s.len(),
    ensures
        body_bytes(s.take(k + 1)) == body_bytes(s.take(k)) + entry_bytes(s[k]),
        body_bytes(s.take(k)).len() + entry_bytes(s[k]).len() <= body_bytes(s).len(),
        body_bytes(s).subrange(
            body_bytes(s.take(k)).len() as int,
            (body_bytes(s.take(k)).len() + entry_bytes(s[k]).len()) as int,
        ) == entry_bytes(s[k]),
{
    assert(s.take(k + 1) =~= s.take(k).push(s[k]));
    lemma_body_bytes_push(s.take(k), s[k]);
    lemma_body_bytes_prefix(s, k + 1);
    let a = body_bytes(s.take(k)).len() as int;
    let c = a + entry_bytes(s[k]).len();
    assert(body_bytes(s).subrange(a, c) =~= body_bytes(s).subrange(0, c).subrange(a, c));
    assert(body_bytes(s.take(k + 1)).subrange(a, c) =~= entry_bytes(s[k]));
}

/// The stored form of a table.
pub fn encode_table(t: &Table) -> (b: Vec<u8>)
    ensures
        b@ == table_bytes(t@),
        storable(t@),
{
    proof {
        use_type_invariant(t);
    }
    let mut out: Vec<u8> = Vec::new();
    let n = t.len();
    let mut i: usize = 0;
    assert(t@.take(0) =~= Seq::<(Seq<u8>, Seq<u8>)>::empty());
    while i < n
        invariant
            n == t@.len(),
            i <= n,
            out@ == body_bytes(t@.take(i as int)),
            forall|j: int|
                0 <= j < i ==> (#[trigger] t@[j]).0.len() <= u64::MAX && t@[j].1.len() <= u64::MAX,
        decreases n - i,
    {
        let e = t.entry_at(i);
        proof {
            assert(t@.take(i + 1) =~= t@.take(i as int).push(e@));
            lemma_body_bytes_push(t@.take(i as int), e@);
        }
        assert(e.key@.len() == e.key.len() && e.value@.len() == e.value.len());
        push_u64(&mut out, e.key.len() as u64);
        push_all(&mut out, e.key.as_slice());
        push_u64(&mut out, e.value.len() as u64);
        push_all(&mut out, e.value.as_slice());
        assert(out@ =~= body_bytes(t@.take(i as int)) + entry_bytes(e@));
        i = i + 1;
    }
    assert(t@.take(n as int) =~= t@);
    let body_len = out.len();
    let sum = checksum_of(out.as_slice(), body_len);
    assert(out@.subrange(0, body_len as int) =~= out@);
    push_u64(&mut out, n as u64);
    push_u64(&mut out, sum);
    push_u64(&mut out, TABLE_MAGIC);
    assert(out@ =~= table_bytes(t@));
    out
}

/// Every length in the entry can be written in 8 bytes.
pub open spec fn entry_fits(e: (Seq<u8>, Seq<u8>)) -> bool {
    e.0.len() <= u64::MAX && e.1.len() <= u64::MAX
}

/// Two entries whose stored forms both begin `x` are the same entry.
proof fn lemma_entry_prefix_unique(x: Seq<u8>, e1: (Seq<u8>, Seq<u8>), e2: (Seq<u8>, Seq<u8>))
    requires
        entry_fits(e1),
        entry_fits(e2),
        entry_bytes(e1).len() <= x.len(),
        entry_bytes(e2).len() <= x.len(),
        x.subrange(0, entry_bytes(e1).len() as int) == entry_bytes(e1),
        x.subrange(0, entry_bytes(e2).len() as int) == entry_bytes(e2),
    ensures
        e1 == e2,
{
    let b1 = entry_bytes(e1);
    let b2 = entry_bytes(e2);
    assert(b1.subrange(0, 8) =~= u64_le(e1.0.len() as u64));
    assert(b2.subrange(0, 8) =~= u64_le(e2.0.len() as u64));
    assert(x.subrange(0, 8) =~= b1.subrange(0, 8));
    assert(x.subrange(0, 8) =~= b2.subrange(0, 8));
    lemma_u64_le_injective(e1.0.len() as u64, e2.0.len() as u64);
    let kl = e1.0.len() as int;
    assert(b1.subrange(8, 8 + kl) =~= e1.0);
    assert(b2.subrange(8, 8 + kl) =~= e2.0);
    assert(x.subrange(8, 8 + kl) =~= b1.subrange(8, 8 + kl));
    assert(x.subrange(8, 8 + kl) =~= b2.subrange(8, 8 + kl));
    assert(b1.subrange(8 + kl, 16 + kl) =~= u64_le(e1.1.len() as u64));
    assert(b2.subrange(8 + kl, 16 + kl) =~= u64_le(e2.1.len() as u64));
    assert(x.subrange(8 + kl, 16 + kl) =~= b1.subrange(8 + kl, 16 + kl));
    assert(x.subrange(8 + kl, 16 + kl) =~= b2.subrange(8 + kl, 16 + kl));
    lemma_u64_le_injective(e1.1.len() as u64, e2.1.len() as u64);
    let vl = e1.1.len() as int;
    assert(b1.subrange(16 + kl, 16 + kl + vl) =~= e1.1);
    assert(b2.subrange(16 + kl, 16 + kl + vl) =~= e2.1);
    assert(x.subrange(16 + kl, 16 + kl + vl) =~= b1.subrange(16 + kl, 16 + kl + vl));
    assert(x.subrange(16 + kl, 16 + kl + vl) =~= b2.subrange(16 + kl, 16 + kl + vl));
}

/// The stored form of entries begins with the stored form of the first.
proof fn lemma_body_front(s: Seq<(Seq<u8>, Seq<u8>)>)
    requires
        s.len() > 0,
    ensures
        body_bytes(s) == entry_bytes(s[0]) + body_bytes(s.drop_first()),
    decreases s.len(),
{
    if s.len() == 1 {
        assert(s.drop_last() =~= Seq::<(Seq<u8>, Seq<u8>)>::empty());
        assert(s.drop_first() =~= Seq::<(Seq<u8>, Seq<u8>)>::empty());
        assert(body_bytes(s) =~= entry_bytes(s[0]) + body_bytes(s.drop_first()));
    } else {
        lemma_body_front(s.drop_last());
        assert(s.drop_first().drop_last() =~= s.drop_last().drop_first());
        assert(s.drop_last()[0] == s[0]);
        assert(s.drop_first().last() == s.last());
        assert(body_bytes(s) =~= entry_bytes(s[0]) + body_bytes(s.drop_first()));
    }
}

/// Distinct sequences of entries have distinct stored forms.
#[verifier::spinoff_prover]
proof fn lemma_body_injective(s1: Seq<(Seq<u8>, Seq<u8>)>, s2: Seq<(Seq<u8>, Seq<u8>)>)
    requires
        lengths_fit(s1),
        lengths_fit(s2),
        body_bytes(s1) == body_bytes(s2),
    ensures
        s1 == s2,
    decreases s1.len(),
{
    if s1.len() == 0 || s2.len() == 0 {
        if s1.len() > 0 {
            lemma_body_front(s1);
            assert(body_bytes(s1).len() >= entry_bytes(s1[0]).len() >= 16);
            assert(body_bytes(s2).len() == 0);
        }
        if s2.len() > 0 {
            lemma_body_front(s2);
            assert(body_bytes(s2).len() >= entry_bytes(s2[0]).len() >= 16);
            assert(body_bytes(s1).len() == 0);
        }
        assert(s1 =~= s2);
    } else {
        lemma_body_front(s1);
        lemma_body_front(s2);
        let x = body_bytes(s1);
        assert(x.subrange(0, entry_bytes(s1[0]).len() as int) =~= entry_bytes(s1[0]));
        assert(x.subrange(0, entry_bytes(s2[0]).len() as int) =~= entry_bytes(s2[0]));
        assert(entry_fits(s1[0]) && entry_fits(s2[0]));
        lemma_entry_prefix_unique(x, s1[0], s2[0]);
        let n = entry_bytes(s1[0]).len() as int;
        assert(body_bytes(s1.drop_first()) =~= x.subrange(n, x.len() as int));
        assert(body_bytes(s2.drop_first()) =~= x.subrange(n, x.len() as int));
        assert forall|i: int| 0 <= i < s1.drop_first().len() implies (#[trigger] s1.drop_first()[i]).0.len()
            <= u64::MAX && s1.drop_first()[i].1.len() <= u64::MAX by {
            assert(s1.drop_first()[i] == s1[i + 1]);
        }
        assert forall|i: int| 0 <= i < s2.drop_first().len() implies (#[trigger] s2.drop_first()[i]).0.len()
            <= u64::MAX && s2.drop_first()[i].1.len() <= u64::MAX by {
            assert(s2.drop_first()[i] == s2[i + 1]);
        }
        lemma_body_injective(s1.drop_first(), s2.drop_first());
        assert(s1 =~= seq![s1[0]] + s1.drop_first());
        assert(s2 =~= seq![s2[0]] + s2.drop_first());
    }
}

/// Distinct storable tables have distinct stored forms.
pub proof fn lemma_table_bytes_injective(s1: Seq<(Seq<u8>, Seq<u8>)>, s2: Seq<(Seq<u8>, Seq<u8>)>)
    requires
        lengths_fit(s1),
        lengths_fit(s2),
        table_bytes(s1) == table_bytes(s2),
    ensures
        s1 == s2,
{
    let n = body_bytes(s1).len() as int;
    assert(table_bytes(s1).len() == n + 24);
    assert(table_bytes(s2).len() == body_bytes(s2).len() + 24);
    assert(body_bytes(s1) =~= table_bytes(s1).subrange(0, n));
    assert(body_bytes(s2) =~= table_bytes(s2).subrange(0, n));
    lemma_body_injective(s1, s2);
}

/// Reads the entry stored at `pos`, not reaching past `limit`: the entry and
/// the position just after it.
#[verifier::spinoff_prover]
#[verifier::rlimit(40)]
fn parse_entry(b: &[u8], pos: usize, limit: usize) -> (r: Option<(Entry, usize)>)
    requires
        pos <= limit <= b@.len(),
    ensures
        r matches Some((e, end)) ==> {
            &&& pos < end <= limit
            &&& b@.subrange(pos as int, end as int) == entry_bytes(e@)
            &&& entry_fits(e@)
        },
        forall|e: (Seq<u8>, Seq<u8>)|
            entry_fits(e) && pos + entry_bytes(e).len() <= limit && #[trigger] b@.subrange(
                pos as int,
                pos + entry_bytes(e).len(),
            ) == entry_bytes(e) ==> (r matches Some((x, end)) && x@ == e && end == pos
                + entry_bytes(e).len()),
{
    let ghost x = b@.subrange(pos as int, limit as int);
    let ghost valid = exists|e: (Seq<u8>, Seq<u8>)|
        entry_fits(e) && pos + entry_bytes(e).len() <= limit && #[trigger] b@.subrange(
            pos as int,
            pos + entry_bytes(e).len(),
        ) == entry_bytes(e);
    let ghost w = choose|e: (Seq<u8>, Seq<u8>)|
        entry_fits(e) && pos + entry_bytes(e).len() <= limit && #[trigger] b@.subrange(
            pos as int,
            pos + entry_bytes(e).len(),
        ) == entry_bytes(e);
    let ghost wb = entry_bytes(w);
    let ghost kl = w.0.len() as int;
    let ghost vl = w.1.len() as int;
    proof {
        if valid {
            assert(wb.subrange(0, 8) =~= u64_le(kl as u64));
            assert(b@.subrange(pos as int, pos + 8) =~= wb.subrange(0, 8));
        }
    }
    if limit - pos < 8 {
        return None;
    }
    let klen = read_u64(b, pos);
    proof {
        if valid {
            lemma_u64_le_injective(klen, kl as u64);
        }
    }
    if klen > (limit - pos - 8) as u64 {
        return None;
    }
    let kstart = pos + 8;
    let kend = kstart + klen as usize;
    let key = slice_to_vec(slice_subrange(b, kstart, kend));
    proof {
        if valid {
            assert(key@ =~= wb.subrange(8, 8 + kl));
            assert(wb.subrange(8, 8 + kl) =~= w.0);
            assert(b@.subrange(kend as int, kend + 8) =~= wb.subrange(8 + kl, 16 + kl));
            assert(wb.subrange(8 + kl, 16 + kl) =~= u64_le(vl as u64));
        }
    }
    if limit - kend < 8 {
        return None;
    }
    let vlen = read_u64(b, kend);
    proof {
        if valid {
            lemma_u64_le_injective(vlen, vl as u64);
        }
    }
    if vlen > (limit - kend - 8) as u64 {
        return None;
    }
    let vstart = kend + 8;
    let vend = vstart + vlen as usize;
    let value = slice_to_vec(slice_subrange(b, vstart, vend));
    let e = Entry { key, value };
    proof {
        if valid {
            assert(value@ =~= wb.subrange(16 + kl, 16 + kl + vl));
            assert(wb.subrange(16 + kl, 16 + kl + vl) =~= w.1);
        }
        assert(b@.subrange(pos as int, vend as int) =~= entry_bytes(e@));
        assert forall|e2: (Seq<u8>, Seq<u8>)|
            entry_fits(e2) && pos + entry_bytes(e2).len() <= limit && #[trigger] b@.subrange(
                pos as int,
                pos + entry_bytes(e2).len(),
            ) == entry_bytes(e2) implies e2 == e@ by {
            assert(x.subrange(0, entry_bytes(e2).len() as int) =~= entry_bytes(e2));
            assert(x.subrange(0, entry_bytes(e@).len() as int) =~= entry_bytes(e@));
            lemma_entry_prefix_unique(x, e2, e@);
        }
    }
    Some((e, vend))
}

/// In the stored form of `s`, entry `k` stands at the end of the entries before it.
proof fn lemma_next_entry(b: Seq<u8>, s: Seq<(Seq<u8>, Seq<u8>)>, k: int, pos: int, body_len: int)
    requires
        storable(s),
        0 <= k <= s.len(),
        0 <= pos < body_len <= b.len(),
        b.subrange(0, body_len) == body_bytes(s),
        b.subrange(0, pos) == body_bytes(s.take(k)),
    ensures
        k < s.len(),
        entry_fits(s[k]),
        pos + entry_bytes(s[k]).len() <= body_len,
        b.subrange(pos, pos + entry_bytes(s[k]).len()) == entry_bytes(s[k]),
{
    if k == s.len() {
        assert(s.take(k) =~= s);
    }
    lemma_entry_in_body(s, k);
    let bb = b.subrange(0, body_len);
    assert(b.subrange(pos, pos + entry_bytes(s[k]).len()) =~= bb.subrange(
        pos,
        pos + entry_bytes(s[k]).len(),
    ));
}

/// Opens a stored table. Gives the table exactly when `b` is the stored form
/// of a table whose keys ascend; any other byte string is refused.
#[verifier::spinoff_prover]
#[verifier::rlimit(60)]
pub fn decode_table(b: &[u8]) -> (r: Option<Table>)
    ensures
        r matches Some(t) ==> t.wf() && b@ == table_bytes(t@),
        forall|s: Seq<(Seq<u8>, Seq<u8>)>|
            storable(s) && b@ == table_bytes(s) ==> (r matches Some(t) && t@ == s),
{
    if b.len() < TRAILER_LEN {
        proof {
            assert forall|s2: Seq<(Seq<u8>, Seq<u8>)>|
                storable(s2) && b@ == table_bytes(s2) implies false by {
                assert(table_bytes(s2).len() == body_bytes(s2).len() + 24);
            }
        }
        return None;
    }
    let body_len = b.len() - TRAILER_LEN;
    let ghost valid = exists|s: Seq<(Seq<u8>, Seq<u8>)>| #[trigger] storable(s) && b@ == table_bytes(s);
    let ghost s = choose|s: Seq<(Seq<u8>, Seq<u8>)>| storable(s) && b@ == table_bytes(s);
    proof {
        if valid {
            assert(table_bytes(s).len() == body_bytes(s).len() + 24);
            assert(b@.subrange(0, body_len as int) =~= body_bytes(s));
        }
    }
    let mut out: Vec<Entry> = Vec::new();
    let mut pos: usize = 0;
    assert(b@.subrange(0, 0) =~= body_bytes(entries_view(out@)));
    assert(entries_view(out@) =~= s.take(0));
    while pos < body_len
        invariant
            body_len + TRAILER_LEN == b@.len(),
            pos <= body_len,
            b@.subrange(0, pos as int) == body_bytes(entries_view(out@)),
            strictly_ascending(entries_view(out@)),
            valid == (exists|s2: Seq<(Seq<u8>, Seq<u8>)>|
                #[trigger] storable(s2) && b@ == table_bytes(s2)),
            valid ==> storable(s) && b@ == table_bytes(s),
            valid ==> b@.subrange(0, body_len as int) == body_bytes(s),
            valid ==> out@.len() <= s.len() && entries_view(out@) == s.take(out@.len() as int),
        decreases body_len - pos,
    {
        let ghost k = out@.len() as int;
        let ghost pre = entries_view(out@);
        proof {
            if valid {
                lemma_next_entry(b@, s, k, pos as int, body_len as int);
            }
        }
        let parsed = parse_entry(b, pos, body_len);
        let (e, end) = match parsed {
            Some(p) => p,
            None => {
                proof {
                    assert forall|s2: Seq<(Seq<u8>, Seq<u8>)>|
                        storable(s2) && b@ == table_bytes(s2) implies false by {
                        assert(valid);
                    }
                }
                return None;
            },
        };
        let n = out.len();
        if n > 0 {
            let c = compare_keys(out[n - 1].key.as_slice(), e.key.as_slice());
            proof {
                if valid {
                    assert(pre[k - 1] == s[k - 1]);
                    assert(pre[k - 1] == out@[k - 1]@);
                    assert(key_lt(s[k - 1].0, s[k].0));
                }
            }
            match c {
                Ordering::Less => {},
                _ => {
                    proof {
                        assert forall|s2: Seq<(Seq<u8>, Seq<u8>)>|
                            storable(s2) && b@ == table_bytes(s2) implies false by {
                            assert(valid);
                        }
                    }
                    return None;
                },
            }
        }
        proof {
            assert forall|i: int, j: int| 0 <= i < j < pre.push(e@).len() implies key_lt(
                #[trigger] pre.push(e@)[i].0,
                #[trigger] pre.push(e@)[j].0,
            ) by {
                if j == k && i < k - 1 {
                    assert(pre[k - 1] == out@[k - 1]@);
                    lemma_key_lt_transitive(pre[i].0, pre[k - 1].0, e.key@);
                } else if j == k {
                    assert(pre[k - 1] == out@[k - 1]@);
                }
            }
            lemma_body_bytes_push(pre, e@);
            assert(b@.subrange(0, end as int) =~= b@.subrange(0, pos as int) + b@.subrange(
                pos as int,
                end as int,
            ));
            if valid {
                assert(s.take(k + 1) =~= s.take(k).push(s[k]));
            }
        }
        out.push(e);
        assert(entries_view(out@) =~= pre.push(e@));
        pos = end;
    }
    let count = read_u64(b, body_len);
    let sum = read_u64(b, body_len + 8);
    let mark = read_u64(b, body_len + 16);
    let expected = checksum_of(b, body_len);
    proof {
        if valid {
            let k = out@.len() as int;
            if k < s.len() {
                lemma_entry_in_body(s, k);
                assert(false);
            }
            assert(s.take(k) =~= s);
            let bb = body_bytes(s);
            let tb = trailer_bytes(s.len(), bb);
            assert(b@.subrange(body_len as int, body_len + 8) =~= tb.subrange(0, 8));
            assert(tb.subrange(0, 8) =~= u64_le(s.len() as u64));
            lemma_u64_le_injective(count, s.len() as u64);
            assert(b@.subrange(body_len + 8, body_len + 16) =~= tb.subrange(8, 16));
            assert(tb.subrange(8, 16) =~= u64_le(checksum(bb)));
            lemma_u64_le_injective(sum, checksum(bb));
            assert(b@.subrange(body_len + 16, body_len + 24) =~= tb.subrange(16, 24));
            assert(tb.subrange(16, 24) =~= u64_le(TABLE_MAGIC));
            lemma_u64_le_injective(mark, TABLE_MAGIC);
        }
    }
    if count != out.len() as u64 || sum != expected || mark != TABLE_MAGIC {
        proof {
            assert forall|s2: Seq<(Seq<u8>, Seq<u8>)>|
                storable(s2) && b@ == table_bytes(s2) implies false by {
                assert(valid);
            }
        }
        return None;
    }
    let t = Table::from_sorted(out);
    assert(b@ =~= b@.subrange(0, body_len as int) + b@.subrange(body_len as int, body_len + 8)
        + b@.subrange(body_len + 8, body_len + 16) + b@.subrange(body_len + 16, body_len + 24));
    assert(b@ =~= table_bytes(t@));
    proof {
        assert forall|s2: Seq<(Seq<u8>, Seq<u8>)>|
            storable(s2) && b@ == table_bytes(s2) implies t@ == s2 by {
            lemma_table_bytes_injective(t@, s2);
        }
    }
    Some(t)
}

} // verus!
