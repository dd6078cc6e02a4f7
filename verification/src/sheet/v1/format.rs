//! The version-1 sheet format as functions on byte sequences: how a sheet's
//! mappings are laid out, and what reading a byte sequence gives.
use vstd::prelude::*;
use vstd::utf8::{decode_utf8, encode_utf8, valid_utf8};
use crate::index_source::IndexSource;
use crate::mapping::{
    forward_bytes, forward_type_id_spec, joined, local_mapping_valid, pack_spec, ForwardView,
    LocalMappingView,
};
use crate::text::split_on;

verus! {

/// Little-endian bytes of `v` modulo 2^16.
#[verifier::opaque]
pub open spec fn le16(v: int) -> Seq<u8> {
    seq![(v % 256) as u8, ((v / 256) % 256) as u8]
}

/// Little-endian bytes of `v` modulo 2^32.
#[verifier::opaque]
pub open spec fn le32(v: int) -> Seq<u8> {
    seq![
        (v % 256) as u8,
        ((v / 0x100) % 256) as u8,
        ((v / 0x10000) % 256) as u8,
        ((v / 0x1000000) % 256) as u8,
    ]
}

/// Two little-endian bytes.
pub broadcast proof fn lemma_le16_len(v: int)
    ensures
        #[trigger] le16(v).len() == 2,
{
    reveal(le16);
}

/// Four little-endian bytes.
pub broadcast proof fn lemma_le32_len(v: int)
    ensures
        #[trigger] le32(v).len() == 4,
{
    reveal(le32);
}

/// The fixed lengths of little-endian byte groups.
pub broadcast group group_le_lengths {
    lemma_le16_len,
    lemma_le32_len,
}

/// The `u16` stored little-endian at `b[p..p + 2]`.
pub open spec fn get_le16(b: Seq<u8>, p: int) -> int {
    b[p] as int + b[p + 1] as int * 0x100
}

/// The `u32` stored little-endian at `b[p..p + 4]`.
pub open spec fn get_le32(b: Seq<u8>, p: int) -> int {
    b[p] as int + b[p + 1] as int * 0x100 + b[p + 2] as int * 0x10000 + b[p + 3] as int
        * 0x1000000
}

/// The bytes of a path: its nodes joined with `/`, in UTF-8.
pub open spec fn path_bytes(val: Seq<Seq<char>>) -> Seq<u8> {
    encode_utf8(joined(val))
}

/// The nodes that path bytes denote, if they are UTF-8: none for empty
/// bytes, else the text split at `/`.
pub open spec fn path_from_bytes(b: Seq<u8>) -> Option<Seq<Seq<char>>> {
    if !valid_utf8(b) {
        None
    } else if b.len() == 0 {
        Some(Seq::<Seq<char>>::empty())
    } else {
        Some(split_on(decode_utf8(b), '/'))
    }
}

/// One mapping as a bucket entry, with the position of its index source in
/// the index table.
pub open spec fn encode_entry(m: LocalMappingView, idx: int) -> Seq<u8> {
    let pb = path_bytes(m.val);
    let fb = forward_bytes(m.forward);
    seq![(pb.len() % 256) as u8, forward_type_id_spec(m.forward), (fb.len() % 256) as u8] + pb + fb
        + le32(idx)
}

/// One index source as an index table entry.
pub open spec fn encode_source(s: IndexSource) -> Seq<u8> {
    le32(s.spec_id() as int) + le16(s.spec_ver() as int) + seq![
        if s.spec_remote() {
            1u8
        } else {
            0u8
        },
        0u8,
        0u8,
        0u8,
    ]
}

/// Whether `s` holds `x`.
pub open spec fn has_source(s: Seq<IndexSource>, x: IndexSource) -> bool {
    exists|i: int| 0 <= i < s.len() && s[i] == x
}

/// The distinct index sources of the mappings, in order of first use.
pub open spec fn unique_sources(ms: Seq<LocalMappingView>) -> Seq<IndexSource>
    decreases ms.len(),
{
    if ms.len() == 0 {
        Seq::<IndexSource>::empty()
    } else {
        let prev = unique_sources(ms.drop_last());
        if has_source(prev, ms.last().source) {
            prev
        } else {
            prev.push(ms.last().source)
        }
    }
}

/// Position of `x` in `s` (the first one).
pub open spec fn source_position(s: Seq<IndexSource>, x: IndexSource) -> int
    decreases s.len(),
{
    if s.len() == 0 {
        0
    } else if s[0] == x {
        0
    } else {
        1 + source_position(s.drop_first(), x)
    }
}

/// Named result of SHA-256 on the given bytes.
pub uninterp spec fn sha256(data: Seq<u8>) -> Seq<u8>;

/// The bytes that are hashed for a path: each node in UTF-8 followed by `/`.
pub open spec fn path_hash_input(val: Seq<Seq<char>>) -> Seq<u8>
    decreases val.len(),
{
    if val.len() == 0 {
        Seq::<u8>::empty()
    } else {
        path_hash_input(val.drop_last()) + encode_utf8(val.last()) + seq![0x2Fu8]
    }
}

/// Hash of a path: the first four bytes of the SHA-256 digest of its hash
/// input, read little-endian.
pub open spec fn path_hash(val: Seq<Seq<char>>) -> u32 {
    get_le32(sha256(path_hash_input(val)), 0) as u32
}

/// Bucket key of a path: the high 16 bits of its hash.
pub open spec fn bucket_key(val: Seq<Seq<char>>) -> u32 {
    (path_hash(val) / 0x10000) as u32
}

/// Strict order of characters by code point.
pub open spec fn char_lt(a: char, b: char) -> bool {
    (a as u32) < (b as u32)
}

/// Lexicographic order of texts (what `str::cmp` gives, since UTF-8 keeps
/// code point order).
pub open spec fn text_lt(a: Seq<char>, b: Seq<char>) -> bool
    decreases a.len(),
{
    if a.len() == 0 {
        b.len() > 0
    } else if b.len() == 0 {
        false
    } else if a[0] != b[0] {
        char_lt(a[0], b[0])
    } else {
        text_lt(a.drop_first(), b.drop_first())
    }
}

/// Lexicographic order of paths, node by node.
pub open spec fn path_lt(a: Seq<Seq<char>>, b: Seq<Seq<char>>) -> bool
    decreases a.len(),
{
    if a.len() == 0 {
        b.len() > 0
    } else if b.len() == 0 {
        false
    } else if a[0] != b[0] {
        text_lt(a[0], b[0])
    } else {
        path_lt(a.drop_first(), b.drop_first())
    }
}

/// Order in which the writer lays out mappings: by bucket key, then by path.
pub open spec fn entry_gt(a: LocalMappingView, b: LocalMappingView) -> bool {
    bucket_key(a.val) > bucket_key(b.val) || (bucket_key(a.val) == bucket_key(b.val) && path_lt(
        b.val,
        a.val,
    ))
}

/// Where `x` goes in `s`: before the first element that follows it.
pub open spec fn insert_position(s: Seq<LocalMappingView>, x: LocalMappingView) -> int
    decreases s.len(),
{
    if s.len() == 0 {
        0
    } else if entry_gt(s[0], x) {
        0
    } else {
        1 + insert_position(s.drop_first(), x)
    }
}

/// The mappings stably sorted by bucket key and path.
pub open spec fn sort_entries(ms: Seq<LocalMappingView>) -> Seq<LocalMappingView>
    decreases ms.len(),
{
    if ms.len() == 0 {
        ms
    } else {
        let s = sort_entries(ms.drop_last());
        let p = insert_position(s, ms.last());
        s.take(p) + seq![ms.last()] + s.skip(p)
    }
}

/// One bucket: its key and its mappings in order.
pub struct Bucket {
    pub key: u32,
    pub members: Seq<LocalMappingView>,
}

/// Sorted mappings grouped into buckets of equal key, in order.
pub open spec fn group_buckets(es: Seq<LocalMappingView>) -> Seq<Bucket>
    decreases es.len(),
{
    if es.len() == 0 {
        Seq::<Bucket>::empty()
    } else {
        let prev = group_buckets(es.drop_last());
        let k = bucket_key(es.last().val);
        if prev.len() > 0 && prev.last().key == k {
            prev.update(
                prev.len() - 1,
                Bucket { key: k, members: prev.last().members.push(es.last()) },
            )
        } else {
            prev.push(Bucket { key: k, members: seq![es.last()] })
        }
    }
}

/// The entries of a bucket, one after the other.
pub open spec fn bucket_bytes(members: Seq<LocalMappingView>, srcs: Seq<IndexSource>) -> Seq<u8>
    decreases members.len(),
{
    if members.len() == 0 {
        Seq::<u8>::empty()
    } else {
        bucket_bytes(members.drop_last(), srcs) + encode_entry(
            members.last(),
            source_position(srcs, members.last().source),
        )
    }
}

/// The index table.
pub open spec fn table_bytes(srcs: Seq<IndexSource>) -> Seq<u8>
    decreases srcs.len(),
{
    if srcs.len() == 0 {
        Seq::<u8>::empty()
    } else {
        table_bytes(srcs.drop_last()) + encode_source(srcs.last())
    }
}

/// Length of a bucket's data as recorded: modulo 2^32.
pub open spec fn recorded_len(b: Bucket, srcs: Seq<IndexSource>) -> int {
    bucket_bytes(b.members, srcs).len() as int % 0x1_0000_0000
}

/// Sum of the recorded lengths of the first buckets.
pub open spec fn recorded_prefix(bs: Seq<Bucket>, srcs: Seq<IndexSource>) -> int
    decreases bs.len(),
{
    if bs.len() == 0 {
        0
    } else {
        recorded_prefix(bs.drop_last(), srcs) + recorded_len(bs.last(), srcs)
    }
}

/// Where the bucket data starts: after the header, the directory (the
/// bucket count taken modulo 2^16) and the index table (the source count
/// taken modulo 2^32).
pub open spec fn data_start(bs: Seq<Bucket>, srcs: Seq<IndexSource>) -> int {
    15 + 12 * (bs.len() as int % 0x10000) + 10 * (srcs.len() as int % 0x1_0000_0000)
}

/// The mapping directory.
pub open spec fn dir_bytes(bs: Seq<Bucket>, srcs: Seq<IndexSource>, start: int) -> Seq<u8>
    decreases bs.len(),
{
    if bs.len() == 0 {
        Seq::<u8>::empty()
    } else {
        let prev = bs.drop_last();
        dir_bytes(prev, srcs, start) + le32(bs.last().key as int) + le32(
            start + recorded_prefix(prev, srcs),
        ) + le32(recorded_len(bs.last(), srcs))
    }
}

/// All bucket data, one bucket after the other.
pub open spec fn all_bucket_bytes(bs: Seq<Bucket>, srcs: Seq<IndexSource>) -> Seq<u8>
    decreases bs.len(),
{
    if bs.len() == 0 {
        Seq::<u8>::empty()
    } else {
        all_bucket_bytes(bs.drop_last(), srcs) + bucket_bytes(bs.last().members, srcs)
    }
}

/// The bytes that the writer produces for the mappings, in this order.
pub open spec fn sheet_bytes(ms: Seq<LocalMappingView>) -> Seq<u8> {
    let srcs = unique_sources(ms);
    let bs = group_buckets(sort_entries(ms));
    let start = data_start(bs, srcs);
    seq![1u8] + le16(bs.len() as int) + le32(srcs.len() as int) + le32(15) + le32(
        15 + 12 * (bs.len() as int % 0x10000),
    ) + dir_bytes(bs, srcs, start) + table_bytes(srcs) + all_bucket_bytes(bs, srcs)
}

/// Why bytes are not a readable sheet.
#[derive(Debug, Clone, Copy, PartialEq, Eq, Structural)]
pub enum SheetFormatError {
    /// Fewer bytes than a header.
    TooSmallForHeader,
    /// A version byte other than the current one.
    UnsupportedVersion(u8),
    /// The mapping directory offset lies past the end.
    MappingDirOffsetOutOfBounds,
    /// The index table offset lies past the end.
    IndexTableOffsetOutOfBounds,
    /// The index table runs past the end.
    IndexTableExceedsBuffer,
    /// The mapping directory runs past the end.
    MappingDirExceedsBuffer,
    /// The data of the given bucket runs past the end.
    BucketExceedsBuffer(u32),
    /// A bucket entry is shorter than the smallest entry.
    IncompleteEntry,
    /// An entry's path runs past the end of its bucket.
    KeyExceedsBuffer,
    /// An entry's forward payload runs past the end of its bucket.
    ForwardInfoExceedsBuffer,
    /// An entry's index offset runs past the end of its bucket.
    IndexOffsetExceedsBuffer,
    /// An entry points past the end of the index table.
    InvalidIndexOffset(u32),
    /// An entry's path is not UTF-8.
    InvalidUtf8Path,
    /// An entry's forward type and payload do not form a forward direction.
    ForwardUnpackFailed,
    /// An entry does not form a valid local mapping.
    MappingCreateFailed,
}

/// What reading one bucket gives: its entries in order, or the first
/// problem met.
#[verifier::opaque]
pub open spec fn parse_entries(data: Seq<u8>, srcs: Seq<IndexSource>) -> Result<
    Seq<LocalMappingView>,
    SheetFormatError,
>
    decreases data.len(),
{
    if data.len() == 0 {
        Ok(Seq::<LocalMappingView>::empty())
    } else if data.len() < 7 {
        Err(SheetFormatError::IncompleteEntry)
    } else {
        let key_len = data[0] as int;
        let ft = data[1];
        let fl = data[2] as int;
        if 3 + key_len > data.len() {
            Err(SheetFormatError::KeyExceedsBuffer)
        } else {
            match path_from_bytes(data.subrange(3, 3 + key_len)) {
                None => Err(SheetFormatError::InvalidUtf8Path),
                Some(path) => if 3 + key_len + fl > data.len() {
                    Err(SheetFormatError::ForwardInfoExceedsBuffer)
                } else {
                    let p3 = 3 + key_len + fl;
                    if p3 + 4 > data.len() {
                        Err(SheetFormatError::IndexOffsetExceedsBuffer)
                    } else {
                        let idx = get_le32(data, p3);
                        if idx >= srcs.len() {
                            Err(SheetFormatError::InvalidIndexOffset(idx as u32))
                        } else {
                            match pack_spec(ft, data.subrange(3 + key_len, p3)) {
                                None => Err(SheetFormatError::ForwardUnpackFailed),
                                Some(fwd) => if !local_mapping_valid(path, fwd) {
                                    Err(SheetFormatError::MappingCreateFailed)
                                } else {
                                    match parse_entries(data.skip(p3 + 4), srcs) {
                                        Err(e) => Err(e),
                                        Ok(rest) => Ok(
                                            seq![
                                                LocalMappingView {
                                                    val: path,
                                                    source: srcs[idx],
                                                    forward: fwd,
                                                },
                                            ] + rest,
                                        ),
                                    }
                                },
                            }
                        }
                    }
                },
            }
        }
    }
}

/// The mappings `pre` followed by what a read gave, or its error.
pub open spec fn prepend(
    pre: Seq<LocalMappingView>,
    r: Result<Seq<LocalMappingView>, SheetFormatError>,
) -> Result<Seq<LocalMappingView>, SheetFormatError> {
    match r {
        Ok(x) => Ok(pre + x),
        Err(e) => Err(e),
    }
}

/// The index table: `count` sources at `offset`, or an error when the
/// table runs past the end.
pub open spec fn parse_table(b: Seq<u8>, offset: int, count: int) -> Result<
    Seq<IndexSource>,
    SheetFormatError,
> {
    if offset + count * 10 > b.len() {
        Err(SheetFormatError::IndexTableExceedsBuffer)
    } else {
        Ok(
            Seq::new(
                count as nat,
                |i: int|
                    IndexSource::spec_new(
                        b[offset + 10 * i + 6] != 0,
                        get_le32(b, offset + 10 * i) as u32,
                        get_le16(b, offset + 10 * i + 4) as u16,
                    ),
            ),
        )
    }
}

/// Whether some mapping of `ms` has path `val`.
pub open spec fn has_path(ms: Seq<LocalMappingView>, val: Seq<Seq<char>>) -> bool {
    exists|i: int| 0 <= i < ms.len() && ms[i].val == val
}

/// Adds the mappings of `new` to `ms` in order, skipping any whose path is
/// already there (as inserting into a set of mappings keyed by path does).
pub open spec fn insert_all(ms: Seq<LocalMappingView>, new: Seq<LocalMappingView>) -> Seq<
    LocalMappingView,
>
    decreases new.len(),
{
    if new.len() == 0 {
        ms
    } else {
        let prev = insert_all(ms, new.drop_last());
        if has_path(prev, new.last().val) {
            prev
        } else {
            prev.push(new.last())
        }
    }
}

/// Reads the first `n` buckets listed in the directory at `dir`.
pub open spec fn read_buckets(b: Seq<u8>, dir: int, n: int, srcs: Seq<IndexSource>) -> Result<
    Seq<LocalMappingView>,
    SheetFormatError,
>
    decreases n,
{
    if n <= 0 {
        Ok(Seq::<LocalMappingView>::empty())
    } else {
        match read_buckets(b, dir, n - 1, srcs) {
            Err(e) => Err(e),
            Ok(prev) => {
                let e = dir + 12 * (n - 1);
                let off = get_le32(b, e + 4);
                let len = get_le32(b, e + 8);
                if off + len > b.len() {
                    Err(SheetFormatError::BucketExceedsBuffer((n - 1) as u32))
                } else {
                    match parse_entries(b.subrange(off, off + len), srcs) {
                        Err(e) => Err(e),
                        Ok(ms) => Ok(insert_all(prev, ms)),
                    }
                }
            },
        }
    }
}

/// What reading a whole sheet gives: its mappings (without repeated
/// paths), or the first problem met.
pub open spec fn read_sheet_spec(b: Seq<u8>) -> Result<Seq<LocalMappingView>, SheetFormatError> {
    if b.len() < 15 {
        Err(SheetFormatError::TooSmallForHeader)
    } else if b[0] != 1 {
        Err(SheetFormatError::UnsupportedVersion(b[0]))
    } else {
        let bucket_count = get_le16(b, 1);
        let index_count = get_le32(b, 3);
        let dir = get_le32(b, 7);
        let table = get_le32(b, 11);
        if dir > b.len() {
            Err(SheetFormatError::MappingDirOffsetOutOfBounds)
        } else if table > b.len() {
            Err(SheetFormatError::IndexTableOffsetOutOfBounds)
        } else {
            match parse_table(b, table, index_count) {
                Err(e) => Err(e),
                Ok(srcs) => if dir + bucket_count * 12 > b.len() {
                    Err(SheetFormatError::MappingDirExceedsBuffer)
                } else {
                    read_buckets(b, dir, bucket_count, srcs)
                },
            }
        }
    }
}

/// Start positions of the entries of a bucket from `pos` on, as a lookup
/// walks them: each entry starts where the previous one's declared size
/// ends, and the walk stops where less than the smallest entry remains.
pub open spec fn entry_positions(data: Seq<u8>, pos: int) -> Seq<int>
    decreases data.len() - pos,
{
    if pos < 0 || pos + 7 > data.len() {
        Seq::<int>::empty()
    } else {
        let next = pos + 7 + data[pos] as int + data[pos + 2] as int;
        if next >= data.len() {
            seq![pos]
        } else {
            seq![pos] + entry_positions(data, next)
        }
    }
}

/// What a lookup finds: the path text as stored, its index source and its
/// forward direction.
pub type Found = (Seq<char>, IndexSource, ForwardView);

/// Looking `node` up by halving among the entries that start at
/// `ps[lo..hi]`, whose paths are taken to be in increasing order.
pub open spec fn search_bucket(
    data: Seq<u8>,
    ps: Seq<int>,
    lo: int,
    hi: int,
    node: Seq<Seq<char>>,
    srcs: Seq<IndexSource>,
) -> Result<Option<Found>, SheetFormatError>
    decreases hi - lo,
{
    if lo >= hi {
        Ok(None)
    } else {
        let mid = lo + (hi - lo) / 2;
        let start = ps[mid];
        let key_len = data[start] as int;
        let ft = data[start + 1];
        let fl = data[start + 2] as int;
        let ks = start + 3;
        if ks + key_len > data.len() {
            Ok(None)
        } else {
            let key = data.subrange(ks, ks + key_len);
            match path_from_bytes(key) {
                None => Err(SheetFormatError::InvalidUtf8Path),
                Some(cur) => if path_lt(cur, node) {
                    search_bucket(data, ps, mid + 1, hi, node, srcs)
                } else if path_lt(node, cur) {
                    search_bucket(data, ps, lo, mid, node, srcs)
                } else {
                    let fs = ks + key_len;
                    if fs + fl > data.len() || fs + fl + 4 > data.len() {
                        Ok(None)
                    } else {
                        let idx = get_le32(data, fs + fl);
                        if idx >= srcs.len() {
                            Err(SheetFormatError::InvalidIndexOffset(idx as u32))
                        } else {
                            match pack_spec(ft, data.subrange(fs, fs + fl)) {
                                None => Err(SheetFormatError::ForwardUnpackFailed),
                                Some(f) => Ok(Some((decode_utf8(key), srcs[idx], f))),
                            }
                        }
                    }
                },
            }
        }
    }
}

/// Looking `node` up in one bucket.
pub open spec fn lookup_in_bucket(data: Seq<u8>, node: Seq<Seq<char>>, srcs: Seq<IndexSource>) -> Result<
    Option<Found>,
    SheetFormatError,
> {
    let ps = entry_positions(data, 0);
    search_bucket(data, ps, 0, ps.len() as int, node, srcs)
}

/// Looking `node`, whose bucket key is `key`, up by halving among the
/// directory entries `lo..hi` at `dir`, whose keys are taken to be in
/// increasing order.
pub open spec fn search_dir(
    b: Seq<u8>,
    dir: int,
    lo: int,
    hi: int,
    key: int,
    node: Seq<Seq<char>>,
    srcs: Seq<IndexSource>,
) -> Result<Option<Found>, SheetFormatError>
    decreases hi - lo,
{
    if lo >= hi {
        Ok(None)
    } else {
        let mid = lo + (hi - lo) / 2;
        let e = dir + 12 * mid;
        let k = get_le32(b, e);
        if k < key {
            search_dir(b, dir, mid + 1, hi, key, node, srcs)
        } else if k > key {
            search_dir(b, dir, lo, mid, key, node, srcs)
        } else {
            let off = get_le32(b, e + 4);
            let len = get_le32(b, e + 8);
            if off + len > b.len() {
                Ok(None)
            } else {
                lookup_in_bucket(b.subrange(off, off + len), node, srcs)
            }
        }
    }
}

/// What looking the mapping of one path up in sheet bytes gives: nothing
/// when the bytes are too short or their offsets point past the end, an
/// error for another version or a broken index table or entry.
pub open spec fn read_mapping_spec(b: Seq<u8>, node: Seq<Seq<char>>) -> Result<
    Option<Found>,
    SheetFormatError,
> {
    if b.len() < 15 {
        Ok(None)
    } else if b[0] != 1 {
        Err(SheetFormatError::UnsupportedVersion(b[0]))
    } else {
        let bucket_count = get_le16(b, 1);
        let index_count = get_le32(b, 3);
        let dir = get_le32(b, 7);
        let table = get_le32(b, 11);
        if dir > b.len() || table > b.len() {
            Ok(None)
        } else {
            match parse_table(b, table, index_count) {
                Err(e) => Err(e),
                Ok(srcs) => if dir + bucket_count * 12 > b.len() {
                    Ok(None)
                } else {
                    search_dir(b, dir, 0, bucket_count, bucket_key(node) as int, node, srcs)
                },
            }
        }
    }
}

/// Texts are ordered totally: of two different texts one comes first.
pub proof fn lemma_text_lt_total(a: Seq<char>, b: Seq<char>)
    ensures
        !text_lt(a, a),
        !text_lt(a, b) && !text_lt(b, a) ==> a == b,
        text_lt(a, b) ==> !text_lt(b, a),
    decreases a.len(),
{
    if a.len() > 0 {
        lemma_text_lt_total(a.drop_first(), a.drop_first());
        if b.len() > 0 {
            lemma_text_lt_total(a.drop_first(), b.drop_first());
            if !text_lt(a, b) && !text_lt(b, a) {
                if a[0] == b[0] {
                    assert(a =~= seq![a[0]] + a.drop_first());
                    assert(b =~= seq![b[0]] + b.drop_first());
                } else {
                    assert((a[0] as u32) == (b[0] as u32));
                    vstd::utf8::char_u32_cast(a[0], a[0] as u32);
                    vstd::utf8::char_u32_cast(b[0], b[0] as u32);
                }
            }
        }
    } else if b.len() == 0 {
        assert(a =~= b);
    }
}

/// Paths are ordered totally: of two different paths one comes first.
pub proof fn lemma_path_lt_total(a: Seq<Seq<char>>, b: Seq<Seq<char>>)
    ensures
        !path_lt(a, a),
        !path_lt(a, b) && !path_lt(b, a) ==> a == b,
        path_lt(a, b) ==> !path_lt(b, a),
    decreases a.len(),
{
    if a.len() > 0 {
        lemma_path_lt_total(a.drop_first(), a.drop_first());
        if b.len() > 0 {
            lemma_path_lt_total(a.drop_first(), b.drop_first());
            lemma_text_lt_total(a[0], b[0]);
            if !path_lt(a, b) && !path_lt(b, a) {
                assert(a =~= seq![a[0]] + a.drop_first());
                assert(b =~= seq![b[0]] + b.drop_first());
            }
        }
    } else if b.len() == 0 {
        assert(a =~= b);
    }
}

} // verus!
