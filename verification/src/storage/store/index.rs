//! Index files: the list of a file's chunks, each as its 32-byte hash and
//! its size in four little-endian bytes; and the check of a stored chunk
//! against its entry.
use vstd::prelude::*;
use crate::sheet::v1::bytes::{lemma_le32_roundtrip, push_le32, read_le32};
use crate::sheet::v1::format::{get_le32, le32};
use crate::storage::store::{blake3_digest, blake3_hash, IndexEntry};

verus! {

broadcast use crate::sheet::v1::format::group_le_lengths;

/// Bytes of one index entry.
pub const INDEX_ENTRY_BYTES: usize = 36;

/// The bytes of an entry: the hash, then the size.
pub open spec fn entry_bytes(e: IndexEntry) -> Seq<u8> {
    e.hash@ + le32(e.size as int)
}

/// The bytes of an index file: its entries one after another.
pub open spec fn index_bytes(es: Seq<IndexEntry>) -> Seq<u8>
    decreases es.len(),
{
    if es.len() == 0 {
        Seq::empty()
    } else {
        index_bytes(es.drop_last()) + entry_bytes(es.last())
    }
}

/// Whether `r` is the entries stored in `b`, thirty-six bytes each.
pub open spec fn entries_of(b: Seq<u8>, r: Seq<IndexEntry>) -> bool {
    &&& r.len() * 36 == b.len()
    &&& forall|k: int|
        0 <= k < r.len() ==> (#[trigger] r[k]).hash@ == b.subrange(36 * k, 36 * k + 32) && r[k].size == get_le32(
            b,
            36 * k + 32,
        )
}

proof fn lemma_index_bytes_len(es: Seq<IndexEntry>)
    ensures
        index_bytes(es).len() == es.len() * 36,
    decreases es.len(),
{
    if es.len() > 0 {
        lemma_index_bytes_len(es.drop_last());
    }
}

/// The bytes of an index file for the entries.
pub fn index_file_bytes(entries: &[IndexEntry]) -> (r: Vec<u8>)
    ensures
        r@ == index_bytes(entries@),
{
    let mut out: Vec<u8> = Vec::new();
    let mut i: usize = 0;
    while i < entries.len()
        invariant
            0 <= i <= entries.len(),
            out@ == index_bytes(entries@.take(i as int)),
        decreases entries.len() - i,
    {
        let ghost before = out@;
        let e = &entries[i];
        let mut j: usize = 0;
        while j < 32
            invariant
                0 <= j <= 32,
                e.hash@.len() == 32,
                out@ == before + e.hash@.take(j as int),
            decreases 32 - j,
        {
            out.push(e.hash[j]);
            assert(e.hash@.take(j + 1) =~= e.hash@.take(j as int).push(e.hash@[j as int]));
            j = j + 1;
        }
        assert(e.hash@.take(32) =~= e.hash@);
        push_le32(&mut out, e.size);
        assert(entries@.take(i + 1).drop_last() =~= entries@.take(i as int));
        assert(out@ =~= before + entry_bytes(*e));
        i = i + 1;
    }
    assert(entries@.take(entries.len() as int) =~= entries@);
    out
}

/// Reads the entries of an index file; nothing when its length is not a
/// multiple of thirty-six.
pub fn parse_index_file(b: &[u8]) -> (r: Option<Vec<IndexEntry>>)
    ensures
        b@.len() % 36 != 0 <==> r is None,
        r matches Some(es) ==> entries_of(b@, es@),
{
    if b.len() % 36 != 0 {
        return None;
    }
    let n = b.len() / 36;
    assert(n * 36 == b@.len()) by (nonlinear_arith)
        requires
            n == b@.len() / 36,
            b@.len() % 36 == 0,
    ;
    let mut out: Vec<IndexEntry> = Vec::new();
    let mut k: usize = 0;
    while k < n
        invariant
            0 <= k <= n,
            n * 36 == b@.len(),
            out@.len() == k,
            forall|q: int|
                0 <= q < k ==> (#[trigger] out@[q]).hash@ == b@.subrange(36 * q, 36 * q + 32) && out@[q].size
                    == get_le32(b@, 36 * q + 32),
        decreases n - k,
    {
        assert(k * 36 + 36 <= n * 36) by (nonlinear_arith)
            requires
                k < n,
        ;
        assert(k * 36 + 36 <= b.len());
        let start = k * 36;
        let mut hash = [0u8; 32];
        let mut j: usize = 0;
        while j < 32
            invariant
                0 <= j <= 32,
                start == k * 36,
                start + 36 <= b.len(),
                k < n,
                n * 36 == b@.len(),
                hash@.len() == 32,
                forall|t: int| 0 <= t < j ==> hash@[t] == b@[start + t],
            decreases 32 - j,
        {
            hash.set(j, b[start + j]);
            j = j + 1;
        }
        assert(hash@ =~= b@.subrange(36 * k, 36 * k + 32));
        let size = read_le32(b, start + 32);
        out.push(IndexEntry { hash, size });
        k = k + 1;
    }
    Some(out)
}

/// An index file reads back as the entries it was written from.
pub proof fn lemma_index_roundtrip(es: Seq<IndexEntry>)
    ensures
        index_bytes(es).len() % 36 == 0,
        forall|k: int|
            0 <= k < es.len() ==> index_bytes(es).subrange(36 * k, 36 * k + 32) == (#[trigger] es[k]).hash@
                && get_le32(index_bytes(es), 36 * k + 32) == es[k].size,
    decreases es.len(),
{
    lemma_index_bytes_len(es);
    if es.len() > 0 {
        let init = es.drop_last();
        lemma_index_roundtrip(init);
        lemma_index_bytes_len(init);
        let b = index_bytes(es);
        let p = index_bytes(init);
        assert forall|k: int| 0 <= k < es.len() implies b.subrange(36 * k, 36 * k + 32) == (#[trigger] es[k]).hash@
            && get_le32(b, 36 * k + 32) == es[k].size by {
            if k < init.len() {
                assert(es[k] == init[k]);
                assert(b.subrange(36 * k, 36 * k + 32) =~= p.subrange(36 * k, 36 * k + 32));
                assert(b.subrange(36 * k + 32, 36 * k + 36) =~= p.subrange(36 * k + 32, 36 * k + 36));
                assert(get_le32(b, 36 * k + 32) == get_le32(p, 36 * k + 32));
            } else {
                let e = es.last();
                assert(b.subrange(36 * k, 36 * k + 32) =~= e.hash@);
                assert(b.subrange(36 * k + 32, 36 * k + 36) =~= le32(e.size as int));
                lemma_le32_roundtrip(e.size as int, b, 36 * k + 32);
            }
        }
    }
}

/// Why a stored chunk does not match its index entry.
#[derive(Debug, Clone)]
pub enum ChunkMismatch {
    /// The chunk's size differs from the entry's.
    Size { expected: u32, actual: usize },
    /// The chunk's hash differs from the entry's.
    Hash { expected: [u8; 32], actual: [u8; 32] },
}

/// Whether two hashes are equal.
fn same_hash(a: &[u8; 32], b: &[u8; 32]) -> (r: bool)
    ensures
        r == (a@ == b@),
{
    let mut i: usize = 0;
    while i < 32
        invariant
            0 <= i <= 32,
            a@.len() == 32,
            b@.len() == 32,
            forall|t: int| 0 <= t < i ==> a@[t] == b@[t],
        decreases 32 - i,
    {
        if a[i] != b[i] {
            return false;
        }
        i = i + 1;
    }
    assert(a@ =~= b@);
    true
}

/// Checks stored chunk data against its index entry: first the size, then
/// the BLAKE3 hash.
pub fn check_chunk(entry: &IndexEntry, data: &[u8]) -> (r: Result<(), ChunkMismatch>)
    ensures
        data@.len() != entry.size ==> (r matches Err(ChunkMismatch::Size { expected, actual }) && expected
            == entry.size && actual == data@.len()),
        data@.len() == entry.size ==> (r is Ok <==> entry.hash@ == blake3_hash(data@)),
        r matches Err(ChunkMismatch::Hash { expected, actual }) ==> data@.len() == entry.size && expected@
            == entry.hash@ && actual@ == blake3_hash(data@),
{
    if data.len() != entry.size as usize {
        return Err(ChunkMismatch::Size { expected: entry.size, actual: data.len() });
    }
    let actual = blake3_digest(data);
    if !same_hash(&actual, &entry.hash) {
        return Err(ChunkMismatch::Hash { expected: entry.hash, actual });
    }
    Ok(())
}

/// What is read from the bytes written for index entries is those entries:
/// the same number, each with the same hash and size.
pub proof fn lemma_index_file_reads_back(es: Seq<IndexEntry>, r: Seq<IndexEntry>)
    requires
        entries_of(index_bytes(es), r),
    ensures
        r.len() == es.len(),
        forall|k: int| 0 <= k < es.len() ==> (#[trigger] r[k]).hash@ == es[k].hash@ && r[k].size == es[k].size,
{
    lemma_index_roundtrip(es);
    lemma_index_bytes_len(es);
    assert(r.len() == es.len()) by (nonlinear_arith)
        requires
            r.len() * 36 == es.len() * 36,
    ;
    assert forall|k: int| 0 <= k < es.len() implies (#[trigger] r[k]).hash@ == es[k].hash@ && r[k].size
        == es[k].size by {
        assert(index_bytes(es).subrange(36 * k, 36 * k + 32) == es[k].hash@);
    }
}

} // verus!
