//! The wire format of a proof: a sequence of records, each the generalized
//! index as 8 little-endian bytes followed by the 32-byte chunk.
use crate::node::Error;
use vstd::prelude::*;

verus! {

/// Bytes in one serialized record.
pub const RECORD_BYTES: usize = 40;

/// One entry of a proof: the chunk at a generalized index.
#[derive(Debug, Clone, PartialEq, Eq)]
pub struct Record {
    pub index: u64,
    pub chunk: Vec<u8>,
}

pub struct RecordView {
    pub index: u64,
    pub chunk: Seq<u8>,
}

impl View for Record {
    type V = RecordView;

    open spec fn view(&self) -> RecordView {
        RecordView { index: self.index, chunk: self.chunk@ }
    }
}

/// The 8 little-endian bytes of `n`.
pub open spec fn le_bytes(n: u64) -> Seq<u8> {
    seq![
        n as u8,
        (n >> 8u64) as u8,
        (n >> 16u64) as u8,
        (n >> 24u64) as u8,
        (n >> 32u64) as u8,
        (n >> 40u64) as u8,
        (n >> 48u64) as u8,
        (n >> 56u64) as u8,
    ]
}

/// The number whose little-endian bytes are the first 8 of `b`.
pub open spec fn le_u64(b: Seq<u8>) -> u64 {
    (b[0] as u64) | ((b[1] as u64) << 8u64) | ((b[2] as u64) << 16u64) | ((b[3] as u64) << 24u64)
        | ((b[4] as u64) << 32u64) | ((b[5] as u64) << 40u64) | ((b[6] as u64) << 48u64) | ((
    b[7] as u64) << 56u64)
}

/// The bytes of `records`, one after the other.
pub open spec fn encode_records(records: Seq<RecordView>) -> Seq<u8>
    decreases records.len(),
{
    if records.len() == 0 {
        Seq::empty()
    } else {
        encode_records(records.drop_last()) + le_bytes(records.last().index)
            + records.last().chunk
    }
}

/// The record that starts at byte `40 k` of `b`.
pub open spec fn record_at(b: Seq<u8>, k: int) -> RecordView {
    RecordView {
        index: le_u64(b.subrange(40 * k, 40 * k + 8)),
        chunk: b.subrange(40 * k + 8, 40 * k + 40),
    }
}

/// The records that `b` holds, read 40 bytes at a time.
pub open spec fn records_of(b: Seq<u8>) -> Seq<RecordView> {
    Seq::new(b.len() / 40, |k: int| record_at(b, k))
}

/// No two of `records` share an index.
pub open spec fn distinct_indices(records: Seq<RecordView>) -> bool {
    forall|i: int, j: int|
        0 <= i < records.len() && 0 <= j < records.len() && i != j ==> records[i].index
            != records[j].index
}

/// Every chunk of `records` is 32 bytes long.
pub open spec fn whole_chunks(records: Seq<RecordView>) -> bool {
    forall|i: int| 0 <= i < records.len() ==> (#[trigger] records[i]).chunk.len() == 32
}

proof fn lemma_le_u64_of_le_bytes(n: u64)
    ensures
        le_u64(le_bytes(n)) == n,
{
    assert(((n as u8) as u64) | (((n >> 8u64) as u8) as u64) << 8u64 | (((n >> 16u64) as u8) as u64)
        << 16u64 | (((n >> 24u64) as u8) as u64) << 24u64 | (((n >> 32u64) as u8) as u64) << 32u64
        | (((n >> 40u64) as u8) as u64) << 40u64 | (((n >> 48u64) as u8) as u64) << 48u64 | (((n
        >> 56u64) as u8) as u64) << 56u64 == n) by (bit_vector);
}

proof fn lemma_encode_len(records: Seq<RecordView>)
    requires
        whole_chunks(records),
    ensures
        encode_records(records).len() == 40 * records.len(),
    decreases records.len(),
{
    if records.len() > 0 {
        let init = records.drop_last();
        assert(whole_chunks(init)) by {
            assert forall|i: int| 0 <= i < init.len() implies (#[trigger] init[i]).chunk.len() == 32 by {
                assert(init[i] == records[i]);
            }
        }
        lemma_encode_len(init);
        assert(records.last() == records[records.len() - 1]);
    }
}

/// Reading back what `encode_records` wrote gives the records again.
pub proof fn lemma_records_round_trip(records: Seq<RecordView>)
    requires
        whole_chunks(records),
    ensures
        records_of(encode_records(records)) == records,
    decreases records.len(),
{
    lemma_encode_len(records);
    if records.len() > 0 {
        let init = records.drop_last();
        let last = records.last();
        assert(whole_chunks(init)) by {
            assert forall|i: int| 0 <= i < init.len() implies (#[trigger] init[i]).chunk.len() == 32 by {
                assert(init[i] == records[i]);
            }
        }
        assert(last == records[records.len() - 1]);
        lemma_records_round_trip(init);
        lemma_encode_len(init);
        let e = encode_records(records);
        let e0 = encode_records(init);
        let n = init.len() as int;
        assert forall|k: int| 0 <= k < records.len() implies #[trigger] record_at(e, k) == records[k] by {
            if k < n {
                assert(e.subrange(40 * k, 40 * k + 8) =~= e0.subrange(40 * k, 40 * k + 8));
                assert(e.subrange(40 * k + 8, 40 * k + 40) =~= e0.subrange(40 * k + 8, 40 * k + 40));
                assert(records_of(e0)[k] == init[k]);
            } else {
                assert(e.subrange(40 * k, 40 * k + 8) =~= le_bytes(last.index));
                assert(e.subrange(40 * k + 8, 40 * k + 40) =~= last.chunk);
                lemma_le_u64_of_le_bytes(last.index);
            }
        }
        assert(records_of(e) =~= records);
    } else {
        assert(records_of(encode_records(records)) =~= records);
    }
}

proof fn lemma_le_bytes_of_le_u64(w: Seq<u8>)
    requires
        w.len() == 8,
    ensures
        le_bytes(le_u64(w)) == w,
{
    let b0 = w[0];
    let b1 = w[1];
    let b2 = w[2];
    let b3 = w[3];
    let b4 = w[4];
    let b5 = w[5];
    let b6 = w[6];
    let b7 = w[7];
    let x = le_u64(w);
    assert(x as u8 == b0 && (x >> 8u64) as u8 == b1 && (x >> 16u64) as u8 == b2 && (x >> 24u64) as u8
        == b3 && (x >> 32u64) as u8 == b4 && (x >> 40u64) as u8 == b5 && (x >> 48u64) as u8 == b6
        && (x >> 56u64) as u8 == b7) by (bit_vector)
        requires
            x == (b0 as u64) | ((b1 as u64) << 8u64) | ((b2 as u64) << 16u64) | ((b3 as u64)
                << 24u64) | ((b4 as u64) << 32u64) | ((b5 as u64) << 40u64) | ((b6 as u64) << 48u64)
                | ((b7 as u64) << 56u64),
    ;
    assert(le_bytes(x) =~= w);
}

/// Writing out the records read from a whole number of records gives the
/// bytes again.
pub proof fn lemma_bytes_round_trip(b: Seq<u8>)
    requires
        b.len() % 40 == 0,
    ensures
        encode_records(records_of(b)) == b,
    decreases b.len(),
{
    let rs = records_of(b);
    if b.len() > 0 {
        let n = (b.len() / 40) as int;
        let pre = b.subrange(0, 40 * (n - 1));
        assert forall|k: int| 0 <= k < n - 1 implies #[trigger] record_at(b, k) == record_at(pre, k) by {
            assert(b.subrange(40 * k, 40 * k + 8) =~= pre.subrange(40 * k, 40 * k + 8));
            assert(b.subrange(40 * k + 8, 40 * k + 40) =~= pre.subrange(40 * k + 8, 40 * k + 40));
        }
        assert(rs.drop_last() =~= records_of(pre));
        lemma_bytes_round_trip(pre);
        let w = b.subrange(40 * (n - 1), 40 * (n - 1) + 8);
        lemma_le_bytes_of_le_u64(w);
        assert(rs.last() == record_at(b, n - 1));
        assert(b =~= pre + w + b.subrange(40 * (n - 1) + 8, 40 * n));
    } else {
        assert(encode_records(rs) =~= b);
    }
}

/// Writes `records` as a sequence of 40-byte records: the index in 8
/// little-endian bytes, then the chunk.
pub fn serialize(records: &Vec<Record>) -> (r: Vec<u8>)
    requires
        whole_chunks(records@.map_values(|x: Record| x@)),
    ensures
        r@ == encode_records(records@.map_values(|x: Record| x@)),
{
    let ghost rs = records@.map_values(|x: Record| x@);
    let mut out: Vec<u8> = Vec::new();
    let mut i: usize = 0;
    proof {
        assert(rs.take(0) =~= Seq::<RecordView>::empty());
    }
    while i < records.len()
        invariant
            rs == records@.map_values(|x: Record| x@),
            whole_chunks(rs),
            i <= records@.len(),
            out@ == encode_records(rs.take(i as int)),
        decreases records@.len() - i,
    {
        let rec = &records[i];
        let n = rec.index;
        let ghost base = out@;
        out.push(n as u8);
        out.push((n >> 8u64) as u8);
        out.push((n >> 16u64) as u8);
        out.push((n >> 24u64) as u8);
        out.push((n >> 32u64) as u8);
        out.push((n >> 40u64) as u8);
        out.push((n >> 48u64) as u8);
        out.push((n >> 56u64) as u8);
        proof {
            assert(out@ =~= base + le_bytes(n));
            assert(rs[i as int] == rec@);
            assert(rec.chunk@.len() == 32);
        }
        let mut j: usize = 0;
        while j < rec.chunk.len()
            invariant
                j <= rec.chunk@.len(),
                out@ == base + le_bytes(n) + rec.chunk@.take(j as int),
            decreases rec.chunk@.len() - j,
        {
            out.push(rec.chunk[j]);
            proof {
                assert(rec.chunk@.take(j + 1) =~= rec.chunk@.take(j as int).push(rec.chunk@[j as int]));
            }
            j = j + 1;
        }
        proof {
            assert(rec.chunk@.take(j as int) =~= rec.chunk@);
            let t = rs.take(i + 1);
            assert(t.drop_last() =~= rs.take(i as int));
            assert(t.last() == rs[i as int]);
        }
        i = i + 1;
    }
    proof {
        assert(rs.take(records@.len() as int) =~= rs);
    }
    out
}

/// Whether `v` holds `x`.
fn holds_index(v: &Vec<u64>, x: u64) -> (r: bool)
    ensures
        r == v@.contains(x),
{
    let mut i: usize = 0;
    while i < v.len()
        invariant
            i <= v@.len(),
            forall|j: int| 0 <= j < i ==> v@[j] != x,
        decreases v@.len() - i,
    {
        if v[i] == x {
            return true;
        }
        i = i + 1;
    }
    false
}

/// Reads the records of `bytes`; fails when its length is not a whole number
/// of records or when two records share an index.
pub fn deserialize(bytes: &Vec<u8>) -> (r: Result<Vec<Record>, Error>)
    ensures
        r is Ok <==> bytes@.len() % 40 == 0 && distinct_indices(records_of(bytes@)),
        r is Ok ==> (r->Ok_0)@.map_values(|x: Record| x@) == records_of(bytes@),
        r is Err ==> r->Err_0 == Error::MalformedProof,
{
    if bytes.len() % RECORD_BYTES != 0 {
        return Err(Error::MalformedProof);
    }
    let total = bytes.len();
    let count = total / RECORD_BYTES;
    let ghost all = records_of(bytes@);
    let mut out: Vec<Record> = Vec::new();
    let mut seen: Vec<u64> = Vec::new();
    let mut k: usize = 0;
    while k < count
        invariant
            bytes@.len() % 40 == 0,
            total == bytes@.len(),
            count == bytes@.len() / 40,
            all == records_of(bytes@),
            k <= count,
            out@.len() == k,
            seen@.len() == k,
            forall|j: int| 0 <= j < k ==> (#[trigger] out@[j])@ == all[j],
            forall|j: int| 0 <= j < k ==> #[trigger] seen@[j] == all[j].index,
            forall|i: int, j: int| 0 <= i < k && 0 <= j < k && i != j ==> all[i].index != all[j].index,
        decreases count - k,
    {
        assert(k * 40 + 40 <= bytes@.len()) by (nonlinear_arith)
            requires
                k < count,
                count == bytes@.len() / 40,
        ;
        let p = k * RECORD_BYTES;
        let index = (bytes[p] as u64) | ((bytes[p + 1] as u64) << 8u64) | ((bytes[p + 2] as u64)
            << 16u64) | ((bytes[p + 3] as u64) << 24u64) | ((bytes[p + 4] as u64) << 32u64) | ((
        bytes[p + 5] as u64) << 40u64) | ((bytes[p + 6] as u64) << 48u64) | ((bytes[p + 7] as u64)
            << 56u64);
        proof {
            let w = bytes@.subrange(40 * k, 40 * k + 8);
            assert(w[0] == bytes@[p as int] && w[1] == bytes@[p + 1] && w[2] == bytes@[p + 2]
                && w[3] == bytes@[p + 3] && w[4] == bytes@[p + 4] && w[5] == bytes@[p + 5]
                && w[6] == bytes@[p + 6] && w[7] == bytes@[p + 7]);
            assert(all[k as int] == record_at(bytes@, k as int));
        }
        if holds_index(&seen, index) {
            proof {
                let j = choose|j: int| 0 <= j < seen@.len() && seen@[j] == index;
                assert(all[j].index == all[k as int].index);
            }
            return Err(Error::MalformedProof);
        }
        let mut chunk: Vec<u8> = Vec::new();
        let mut j: usize = 0;
        while j < 32
            invariant
                p == 40 * k,
                p + 40 <= bytes@.len(),
                total == bytes@.len(),
                j <= 32,
                chunk@ == bytes@.subrange(p + 8, p + 8 + j),
            decreases 32 - j,
        {
            chunk.push(bytes[p + 8 + j]);
            proof {
                assert(chunk@ =~= bytes@.subrange(p + 8, p + 8 + j + 1));
            }
            j = j + 1;
        }
        proof {
            assert forall|a: int, b: int|
                0 <= a < k + 1 && 0 <= b < k + 1 && a != b implies all[a].index != all[b].index by {
                if a == k {
                    assert(seen@[b] == all[b].index);
                    assert(seen@.contains(seen@[b]));
                } else if b == k {
                    assert(seen@[a] == all[a].index);
                    assert(seen@.contains(seen@[a]));
                }
            }
        }
        out.push(Record { index, chunk });
        seen.push(index);
        k = k + 1;
    }
    proof {
        assert(out@.map_values(|x: Record| x@) =~= all);
    }
    Ok(out)
}

} // verus!
