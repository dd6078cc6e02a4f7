//! Chunks, chunking policies and what is shared by the chunkers.
use vstd::prelude::*;
use vstd::utf8::{decode_utf8, encode_utf8, valid_utf8};
use crate::storage::error::{is_invalid_input, StorageIOError};
use crate::storage::store::cdc::{cdc_chunks, split_cdc_impl};
use crate::storage::store::fixed::{fixed_pieces, split_fixed_impl};
use crate::storage::store::line::{split_by_lines_impl, split_lines, MixedLineEnding};
use crate::string_proc::format_path::path_of;
use crate::text::{bytes_of, str_from_utf8};

pub mod cdc;
pub mod fixed;
pub mod index;
pub mod line;

verus! {

/// Named result of BLAKE3 on the given bytes (32 bytes).
pub uninterp spec fn blake3_hash(data: Seq<u8>) -> Seq<u8>;

/// BLAKE3 digest of the bytes.
///
/// Calls `blake3::hash`; the contract names the result.
#[verifier::external_body]
pub(crate) fn blake3_digest(data: &[u8]) -> (r: [u8; 32])
    ensures
        r@ == blake3_hash(data@),
{
    *blake3::hash(data).as_bytes()
}

/// A chunk of data with its BLAKE3 hash.
#[derive(Debug, Clone)]
pub struct Chunk {
    /// BLAKE3 hash of the chunk's data.
    pub hash: [u8; 32],
    /// The chunk's data.
    pub data: Vec<u8>,
}

impl Chunk {
    /// The hash is the BLAKE3 hash of the data.
    pub open spec fn wf(&self) -> bool {
        self.hash@ == blake3_hash(self.data@)
    }
}

/// An index entry: the hash of a chunk and its size.
#[derive(Debug, Clone)]
pub struct IndexEntry {
    /// BLAKE3 hash of the chunk.
    pub hash: [u8; 32],
    /// Size of the chunk in bytes.
    pub size: u32,
}

/// The chunks of some data and the data's size.
#[derive(Debug)]
pub struct ChunkingResult {
    /// The chunks, in order.
    pub chunks: Vec<Chunk>,
    /// Size of the data that was split.
    pub total_size: u64,
}

/// The data of the chunks.
pub open spec fn chunk_datas(chunks: Seq<Chunk>) -> Seq<Seq<u8>> {
    chunks.map_values(|c: Chunk| c.data@)
}

/// Whether every chunk carries the hash of its data.
pub open spec fn all_wf(chunks: Seq<Chunk>) -> bool {
    forall|i: int| 0 <= i < chunks.len() ==> (#[trigger] chunks[i]).wf()
}

/// The pieces, one after the other.
pub open spec fn concat(pieces: Seq<Seq<u8>>) -> Seq<u8>
    decreases pieces.len(),
{
    if pieces.len() == 0 {
        Seq::<u8>::empty()
    } else {
        concat(pieces.drop_last()) + pieces.last()
    }
}

/// Whether a result holds exactly the given pieces of the data, each with
/// its hash.
pub open spec fn result_holds(r: ChunkingResult, data: Seq<u8>, pieces: Seq<Seq<u8>>) -> bool {
    &&& chunk_datas(r.chunks@) == pieces
    &&& all_wf(r.chunks@)
    &&& r.total_size == data.len()
}

/// Compute the BLAKE3 hash of the data and make a chunk of it.
pub fn create_chunk(data: Vec<u8>) -> (r: Chunk)
    ensures
        r.data@ == data@,
        r.wf(),
{
    let hash = blake3_digest(data.as_slice());
    Chunk { hash, data }
}

/// Chunks of the given ranges of the data.
pub(crate) fn chunks_of_ranges(data: &[u8], ranges: &Vec<(usize, usize)>) -> (r: Vec<Chunk>)
    requires
        forall|k: int| 0 <= k < ranges.len() ==> (#[trigger] ranges@[k]).0 <= ranges@[k].1 <= data.len(),
    ensures
        chunk_datas(r@) == ranges@.map_values(|p: (usize, usize)| data@.subrange(p.0 as int, p.1 as int)),
        all_wf(r@),
{
    let mut out: Vec<Chunk> = Vec::new();
    let mut k: usize = 0;
    while k < ranges.len()
        invariant
            0 <= k <= ranges.len(),
            forall|j: int| 0 <= j < ranges.len() ==> (#[trigger] ranges@[j]).0 <= ranges@[j].1 <= data.len(),
            chunk_datas(out@) == ranges@.take(k as int).map_values(|p: (usize, usize)| data@.subrange(p.0 as int, p.1 as int)),
            all_wf(out@),
        decreases ranges.len() - k,
    {
        let (a, b) = ranges[k];
        let piece = vstd::slice::slice_to_vec(vstd::slice::slice_subrange(data, a, b));
        let c = create_chunk(piece);
        let ghost before = out@;
        out.push(c);
        assert(chunk_datas(out@) =~= chunk_datas(before).push(c.data@));
        assert(ranges@.take(k + 1).map_values(|p: (usize, usize)| data@.subrange(p.0 as int, p.1 as int))
            =~= ranges@.take(k as int).map_values(|p: (usize, usize)| data@.subrange(p.0 as int, p.1 as int)).push(
            data@.subrange(a as int, b as int),
        ));
        assert forall|i: int| 0 <= i < out@.len() implies (#[trigger] out@[i]).wf() by {
            if i < before.len() {
                assert(out@[i] == before[i]);
            }
        }
        k = k + 1;
    }
    assert(ranges@.take(ranges.len() as int) =~= ranges@);
    out
}

/// How files are split into chunks.
#[derive(Debug, Clone, Copy, PartialEq, Eq, Structural)]
pub enum ChunkingPolicy {
    /// Content-defined chunking for the given average chunk size in bytes.
    Cdc(u32),
    /// Chunks of the given size in bytes.
    FixedSize(u32),
    /// One chunk per line.
    Line,
}

impl Default for ChunkingPolicy {
    /// Content-defined chunking with a 64 KiB average.
    fn default() -> (r: Self)
        ensures
            r == ChunkingPolicy::Cdc(65536),
    {
        ChunkingPolicy::Cdc(65536)
    }
}

/// Settings of the content store.
#[derive(Debug)]
pub struct StorageConfig {
    /// How files are split into chunks.
    pub chunking_policy: ChunkingPolicy,
}

impl Default for StorageConfig {
    /// The default chunking policy.
    fn default() -> (r: Self)
        ensures
            r.chunking_policy == ChunkingPolicy::Cdc(65536),
    {
        StorageConfig { chunking_policy: ChunkingPolicy::default() }
    }
}

impl StorageConfig {
    /// Settings for content-defined chunking with the given average size.
    pub fn cdc(avg_size: u32) -> (r: Self)
        ensures
            r.chunking_policy == ChunkingPolicy::Cdc(avg_size),
    {
        StorageConfig { chunking_policy: ChunkingPolicy::Cdc(avg_size) }
    }

    /// Settings for chunks of the given size.
    pub fn fixed_size(chunk_size: u32) -> (r: Self)
        ensures
            r.chunking_policy == ChunkingPolicy::FixedSize(chunk_size),
    {
        StorageConfig { chunking_policy: ChunkingPolicy::FixedSize(chunk_size) }
    }

    /// Settings for one chunk per line.
    pub fn line() -> (r: Self)
        ensures
            r.chunking_policy == ChunkingPolicy::Line,
    {
        StorageConfig { chunking_policy: ChunkingPolicy::Line }
    }
}

/// The pieces that a policy cuts data into, when it accepts its parameter.
pub open spec fn policy_pieces(data: Seq<u8>, policy: ChunkingPolicy) -> Option<Seq<Seq<u8>>> {
    match policy {
        ChunkingPolicy::Cdc(avg) => if avg == 0 {
            None
        } else {
            Some(cdc_chunks(data, avg as int))
        },
        ChunkingPolicy::FixedSize(size) => if size == 0 {
            None
        } else {
            Some(fixed_pieces(data, size as int))
        },
        ChunkingPolicy::Line => Some(split_lines::<MixedLineEnding>(data)),
    }
}

/// Split data into chunks by the given policy; a size of zero is refused.
pub fn split_into_chunks(data: &[u8], policy: &ChunkingPolicy) -> (r: Result<
    ChunkingResult,
    StorageIOError,
>)
    ensures
        match policy_pieces(data@, *policy) {
            Some(pieces) => r matches Ok(res) && result_holds(res, data@, pieces),
            None => r matches Err(StorageIOError::IOErr(e)) && is_invalid_input(e),
        },
{
    match policy {
        ChunkingPolicy::Cdc(avg_size) => split_cdc(data, *avg_size),
        ChunkingPolicy::FixedSize(chunk_size) => split_fixed(data, *chunk_size),
        ChunkingPolicy::Line => split_by_lines(data),
    }
}

/// Split data by content-defined chunking.
fn split_cdc(data: &[u8], avg_size: u32) -> (r: Result<ChunkingResult, StorageIOError>)
    ensures
        avg_size == 0 ==> (r matches Err(StorageIOError::IOErr(e)) && is_invalid_input(e)),
        avg_size > 0 ==> (r matches Ok(res) && result_holds(res, data@, cdc_chunks(data@, avg_size as int))),
{
    split_cdc_impl(data, avg_size)
}

/// Split data into fixed-size chunks.
fn split_fixed(data: &[u8], chunk_size: u32) -> (r: Result<ChunkingResult, StorageIOError>)
    ensures
        chunk_size == 0 ==> (r matches Err(StorageIOError::IOErr(e)) && is_invalid_input(e)),
        chunk_size > 0 ==> (r matches Ok(res) && result_holds(res, data@, fixed_pieces(data@, chunk_size as int))),
{
    split_fixed_impl(data, chunk_size)
}

/// Split data at line endings.
fn split_by_lines(data: &[u8]) -> (r: Result<ChunkingResult, StorageIOError>)
    ensures
        r matches Ok(res) && result_holds(res, data@, split_lines::<MixedLineEnding>(data@)),
{
    split_by_lines_impl(data)
}

/// Statistics about chunks.
#[derive(Debug, Clone)]
pub struct ChunkStats {
    pub total_chunks: usize,
    pub total_size: u64,
    pub avg_size: usize,
    pub min_size: usize,
    pub max_size: usize,
}

/// Sum of the chunk sizes.
pub open spec fn total_len(chunks: Seq<Chunk>) -> int
    decreases chunks.len(),
{
    if chunks.len() == 0 {
        0
    } else {
        total_len(chunks.drop_last()) + chunks.last().data.len()
    }
}

/// Smallest chunk size (0 for no chunks).
pub open spec fn min_len(chunks: Seq<Chunk>) -> int
    decreases chunks.len(),
{
    if chunks.len() == 0 {
        0
    } else if chunks.len() == 1 {
        chunks[0].data.len() as int
    } else {
        let m = min_len(chunks.drop_last());
        if chunks.last().data.len() < m {
            chunks.last().data.len() as int
        } else {
            m
        }
    }
}

/// Largest chunk size (0 for no chunks).
pub open spec fn max_len(chunks: Seq<Chunk>) -> int
    decreases chunks.len(),
{
    if chunks.len() == 0 {
        0
    } else {
        let m = max_len(chunks.drop_last());
        if chunks.last().data.len() > m {
            chunks.last().data.len() as int
        } else {
            m
        }
    }
}

proof fn lemma_total_len_monotone(chunks: Seq<Chunk>, i: int)
    requires
        0 <= i <= chunks.len(),
    ensures
        total_len(chunks.take(i)) <= total_len(chunks),
    decreases chunks.len() - i,
{
    if i < chunks.len() {
        lemma_total_len_monotone(chunks.drop_last(), i);
        assert(chunks.drop_last().take(i) =~= chunks.take(i));
    } else {
        assert(chunks.take(i) =~= chunks);
    }
}

/// Count, total, average, smallest and largest size of the chunks.
pub fn get_chunk_stats(chunks: &[Chunk]) -> (r: ChunkStats)
    requires
        total_len(chunks@) <= usize::MAX,
    ensures
        r.total_chunks == chunks@.len(),
        r.total_size == total_len(chunks@),
        r.avg_size == if chunks@.len() > 0 {
            total_len(chunks@) / (chunks@.len() as int)
        } else {
            0
        },
        r.min_size == min_len(chunks@),
        r.max_size == max_len(chunks@),
{
    let n = chunks.len();
    let mut total: usize = 0;
    let mut min_size: usize = 0;
    let mut max_size: usize = 0;
    let mut i: usize = 0;
    while i < n
        invariant
            i <= n,
            n == chunks@.len(),
            total_len(chunks@) <= usize::MAX,
            total == total_len(chunks@.take(i as int)),
            min_size == min_len(chunks@.take(i as int)),
            max_size == max_len(chunks@.take(i as int)),
        decreases n - i,
    {
        let ghost t = chunks@.take(i + 1);
        assert(t.drop_last() =~= chunks@.take(i as int));
        assert(t.last() == chunks@[i as int]);
        proof {
            lemma_total_len_monotone(chunks@, i + 1);
        }
        let len = chunks[i].data.len();
        total = total + len;
        if i == 0 || len < min_size {
            min_size = len;
        }
        if len > max_size {
            max_size = len;
        }
        i = i + 1;
    }
    assert(chunks@.take(n as int) =~= chunks@);
    let avg_size = if n > 0 {
        total / n
    } else {
        0
    };
    ChunkStats { total_chunks: n, total_size: total as u64, avg_size, min_size, max_size }
}

/// A path of the standard library.
#[verifier::external_type_specification]
#[verifier::external_body]
pub struct ExPathBuf(std::path::PathBuf);

/// Named result of `Path::join` on the path made of a text: the text of the
/// path extended with `part`.
pub uninterp spec fn joined_path_of(text: Seq<char>, part: Seq<char>) -> Seq<char>;

/// The path extended with one part.
///
/// Calls `Path::join`. For a path made of a text, the result is the path
/// made of the text that the part gives; of any other path nothing is
/// claimed.
#[verifier::external_body]
fn path_join(base: &std::path::PathBuf, part: &str) -> (r: std::path::PathBuf)
    ensures
        forall|t: Seq<char>| #[trigger] path_of(t) == *base ==> r == path_of(joined_path_of(t, part@)),
{
    base.join(part)
}

/// The three directory parts under which a chunk with the given hash text
/// is stored: the text of its first two bytes, the text of the next two,
/// and the whole hash text; nothing for a text of fewer than four bytes.
/// The first two pairs of bytes must each be UTF-8 text.
pub fn chunk_dir_parts(hash_str: &str) -> (r: Option<(String, String, String)>)
    requires
        encode_utf8(hash_str@).len() >= 4 ==> valid_utf8(encode_utf8(hash_str@).subrange(0, 2))
            && valid_utf8(encode_utf8(hash_str@).subrange(2, 4)),
    ensures
        encode_utf8(hash_str@).len() < 4 <==> r is None,
        r matches Some(parts) ==> parts.0@ == decode_utf8(encode_utf8(hash_str@).subrange(0, 2))
            && parts.1@ == decode_utf8(encode_utf8(hash_str@).subrange(2, 4)) && parts.2@ == hash_str@,
{
    let b = bytes_of(hash_str);
    if b.len() < 4 {
        return None;
    }
    let first = str_from_utf8(vstd::slice::slice_subrange(b.as_slice(), 0, 2));
    let second = str_from_utf8(vstd::slice::slice_subrange(b.as_slice(), 2, 4));
    match (first, second) {
        (Some(x), Some(y)) => Some((x.to_owned(), y.to_owned(), hash_str.to_owned())),
        _ => {
            assert(false);
            None
        },
    }
}

/// The text of the directory of a chunk below the storage directory of
/// text `t`: `t` joined with the text of the hash's first two bytes, then
/// with that of the next two, then with the whole hash.
pub open spec fn chunk_dir_text(t: Seq<char>, hash: Seq<char>) -> Seq<char> {
    let b = encode_utf8(hash);
    joined_path_of(joined_path_of(joined_path_of(t, decode_utf8(b.subrange(0, 2))), decode_utf8(b.subrange(2, 4))), hash)
}

/// Where a chunk with the given hash text is stored below the storage
/// directory: the directory joined with the parts that `chunk_dir_parts`
/// gives, in order (`<dir>/<first two>/<next two>/<hash>`, which is
/// `chunk_dir_text` for a directory made of a text). A text of fewer than
/// four bytes is refused; the first two pairs of bytes must each be UTF-8
/// text.
pub fn get_dir(storage_dir: std::path::PathBuf, hash_str: String) -> (r: Result<
    std::path::PathBuf,
    StorageIOError,
>)
    requires
        encode_utf8(hash_str@).len() >= 4 ==> valid_utf8(encode_utf8(hash_str@).subrange(0, 2))
            && valid_utf8(encode_utf8(hash_str@).subrange(2, 4)),
    ensures
        encode_utf8(hash_str@).len() < 4 <==> r matches Err(StorageIOError::HashTooShort),
        r is Ok || r matches Err(StorageIOError::HashTooShort),
        forall|t: Seq<char>|
            #[trigger] path_of(t) == storage_dir && encode_utf8(hash_str@).len() >= 4 ==> r == Ok::<
                std::path::PathBuf,
                StorageIOError,
            >(path_of(chunk_dir_text(t, hash_str@))),
{
    match chunk_dir_parts(hash_str.as_str()) {
        None => Err(StorageIOError::HashTooShort),
        Some((first, second, whole)) => {
            let d1 = path_join(&storage_dir, first.as_str());
            let d2 = path_join(&d1, second.as_str());
            Ok(path_join(&d2, whole.as_str()))
        },
    }
}

} // verus!
