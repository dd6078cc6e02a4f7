//! Reading sheet data in the version-1 format.
use vstd::prelude::*;
use vstd::slice::slice_subrange;
use crate::index_source::IndexSource;
use crate::mapping::{LocalMapping, LocalMappingForward, LocalMappingView, Mapping};
use crate::sheet::error::ReadSheetDataError;
use crate::sheet::{mappings_view, SheetData};
use crate::sheet::v1::bytes::{read_le16, read_le32};
use crate::sheet::v1::format::{
    bucket_key, entry_positions, get_le16, get_le32, insert_all, lookup_in_bucket, parse_entries,
    parse_table, path_from_bytes, prepend, read_buckets, read_mapping_spec, read_sheet_spec,
    search_bucket, search_dir, Found, SheetFormatError,
};
use crate::sheet::v1::writer::{calculate_path_hash, path_less};
use crate::text::{chars_of, owned_strings, split_chars, str_from_utf8, strings_from_slice, strings_of, strings_view, strs_view};
use crate::sheet::v1::format::{lemma_path_lt_total, path_lt};
use std::cmp::Ordering;

use crate::sheet::v1::order::{lemma_path_order_is_string_vec_order, string_vec_lt};
verus! {

broadcast use crate::sheet::v1::format::group_le_lengths;

/// The error value of a format problem.
pub open spec fn format_err<T>(e: SheetFormatError) -> Result<T, ReadSheetDataError> {
    Err(ReadSheetDataError::IOErr(e))
}

/// Path nodes from their serialized bytes: empty bytes give no node,
/// otherwise the UTF-8 text split at `/`.
pub fn deserialize_path(bytes: &[u8]) -> (r: Result<Vec<String>, ReadSheetDataError>)
    ensures
        match path_from_bytes(bytes@) {
            None => r == format_err::<Vec<String>>(SheetFormatError::InvalidUtf8Path),
            Some(p) => r matches Ok(v) && strings_view(v@) == p,
        },
{
    match str_from_utf8(bytes) {
        None => Err(ReadSheetDataError::IOErr(SheetFormatError::InvalidUtf8Path)),
        Some(s) => {
            if bytes.len() == 0 {
                let v: Vec<String> = Vec::new();
                assert(strings_view(v@) =~= Seq::<Seq<char>>::empty());
                Ok(v)
            } else {
                let cs = chars_of(s);
                let parts = split_chars(&cs, 0, cs.len(), '/');
                assert(cs@.subrange(0, cs.len() as int) =~= cs@);
                Ok(strings_of(&parts))
            }
        },
    }
}

/// Reads `count` index sources from the table at `offset`.
pub fn read_index_table(data: &[u8], offset: usize, count: usize) -> (r: Result<
    Vec<IndexSource>,
    ReadSheetDataError,
>)
    ensures
        match parse_table(data@, offset as int, count as int) {
            Ok(srcs) => r matches Ok(v) && v@ == srcs,
            Err(e) => r == format_err::<Vec<IndexSource>>(e),
        },
{
    let len = data.len();
    let end: usize = match count.checked_mul(10) {
        Some(t) => match offset.checked_add(t) {
            Some(e) => e,
            None => {
                assert(offset + count * 10 > data@.len());
                return Err(ReadSheetDataError::IOErr(SheetFormatError::IndexTableExceedsBuffer));
            },
        },
        None => {
            assert(count * 10 > usize::MAX);
            assert(offset + count * 10 > data@.len());
            return Err(ReadSheetDataError::IOErr(SheetFormatError::IndexTableExceedsBuffer));
        },
    };
    if end > len {
        return Err(ReadSheetDataError::IOErr(SheetFormatError::IndexTableExceedsBuffer));
    }
    let ghost b = data@;
    let ghost want = Seq::new(
        count as nat,
        |i: int|
            IndexSource::spec_new(
                b[offset + 10 * i + 6] != 0,
                get_le32(b, offset + 10 * i) as u32,
                get_le16(b, offset + 10 * i + 4) as u16,
            ),
    );
    let mut sources: Vec<IndexSource> = Vec::new();
    let mut i: usize = 0;
    while i < count
        invariant
            0 <= i <= count,
            b == data@,
            offset + count * 10 <= data.len(),
            want == Seq::new(
                count as nat,
                |i: int|
                    IndexSource::spec_new(
                        b[offset + 10 * i + 6] != 0,
                        get_le32(b, offset + 10 * i) as u32,
                        get_le16(b, offset + 10 * i + 4) as u16,
                    ),
            ),
            sources@ == want.take(i as int),
        decreases count - i,
    {
        let pos = offset + 10 * i;
        let id = read_le32(data, pos);
        let ver = read_le16(data, pos + 4);
        let remote = data[pos + 6] != 0;
        let s = IndexSource::new(remote, id, ver);
        sources.push(s);
        assert(sources@ =~= want.take(i + 1));
        i = i + 1;
    }
    assert(want.take(count as int) =~= want);
    Ok(sources)
}

proof fn lemma_prepend_step(
    mv: Seq<LocalMappingView>,
    m: LocalMappingView,
    x: Result<Seq<LocalMappingView>, SheetFormatError>,
)
    ensures
        prepend(mv, prepend(seq![m], x)) == prepend(mv.push(m), x),
{
    match x {
        Ok(v) => {
            assert(mv + (seq![m] + v) =~= mv.push(m) + v);
        },
        Err(_) => {},
    }
}

/// Reads all mappings of one bucket, in order.
pub fn read_bucket_data(bucket_data: &[u8], index_sources: &[IndexSource]) -> (r: Result<
    Vec<LocalMapping>,
    ReadSheetDataError,
>)
    ensures
        match parse_entries(bucket_data@, index_sources@) {
            Ok(ms) => r matches Ok(v) && mappings_view(v@) == ms,
            Err(e) => r == format_err::<Vec<LocalMapping>>(e),
        },
{
    let ghost d = bucket_data@;
    let ghost srcs = index_sources@;
    proof {
        reveal(parse_entries);
    }
    let n = bucket_data.len();
    let mut mappings: Vec<LocalMapping> = Vec::new();
    let mut pos: usize = 0;
    assert(d.skip(0) =~= d);
    assert(mappings_view(mappings@) =~= Seq::<LocalMappingView>::empty());
    assert(prepend(Seq::<LocalMappingView>::empty(), parse_entries(d, srcs)) == parse_entries(d, srcs)) by {
        match parse_entries(d, srcs) {
            Ok(v) => {
                assert(Seq::<LocalMappingView>::empty() + v =~= v);
            },
            Err(_) => {},
        }
    }
    while pos < n
        invariant
            pos <= n,
            n == d.len(),
            d == bucket_data@,
            srcs == index_sources@,
            parse_entries(d, srcs) == prepend(mappings_view(mappings@), parse_entries(d.skip(pos as int), srcs)),
        decreases n - pos,
    {
        proof {
            reveal(parse_entries);
        }
        let ghost rest = d.skip(pos as int);
        let ghost mv = mappings_view(mappings@);
        if n - pos < 7 {
            return Err(ReadSheetDataError::IOErr(SheetFormatError::IncompleteEntry));
        }
        let key_len = bucket_data[pos] as usize;
        let forward_type = bucket_data[pos + 1];
        let forward_info_len = bucket_data[pos + 2] as usize;
        assert(rest[0] == d[pos as int] && rest[1] == d[pos + 1] && rest[2] == d[pos + 2]);
        let ks = pos + 3;
        if key_len > n - ks {
            return Err(ReadSheetDataError::IOErr(SheetFormatError::KeyExceedsBuffer));
        }
        let ke = ks + key_len;
        let key_bytes = slice_subrange(bucket_data, ks, ke);
        assert(rest.subrange(3, 3 + key_len) =~= d.subrange(ks as int, ke as int));
        let path = match deserialize_path(key_bytes) {
            Ok(p) => p,
            Err(e) => {
                return Err(e);
            },
        };
        if forward_info_len > n - ke {
            return Err(ReadSheetDataError::IOErr(SheetFormatError::ForwardInfoExceedsBuffer));
        }
        let fe = ke + forward_info_len;
        if n - fe < 4 {
            return Err(ReadSheetDataError::IOErr(SheetFormatError::IndexOffsetExceedsBuffer));
        }
        let index_offset = read_le32(bucket_data, fe);
        let ghost p3 = 3 + key_len + forward_info_len;
        assert(get_le32(rest, p3) == get_le32(d, fe as int));
        if index_offset as usize >= index_sources.len() {
            return Err(ReadSheetDataError::IOErr(SheetFormatError::InvalidIndexOffset(index_offset)));
        }
        let source = index_sources[index_offset as usize];
        let forward_bytes = slice_subrange(bucket_data, ke, fe);
        assert(rest.subrange(3 + key_len, p3) =~= d.subrange(ke as int, fe as int));
        let forward = match LocalMappingForward::pack(forward_type, forward_bytes) {
            Some(f) => f,
            None => {
                return Err(ReadSheetDataError::IOErr(SheetFormatError::ForwardUnpackFailed));
            },
        };
        let mapping = match LocalMapping::new(path, source, forward) {
            Some(m) => m,
            None => {
                return Err(ReadSheetDataError::IOErr(SheetFormatError::MappingCreateFailed));
            },
        };
        let ghost m = mapping@;
        mappings.push(mapping);
        let next = fe + 4;
        assert(rest.skip(p3 + 4) =~= d.skip(next as int));
        assert(mappings_view(mappings@) =~= mv.push(m));
        proof {
            lemma_prepend_step(mv, m, parse_entries(d.skip(next as int), srcs));
        }
        pos = next;
    }
    assert(d.skip(n as int) =~= Seq::<u8>::empty());
    assert(mappings_view(mappings@) + Seq::<LocalMappingView>::empty() =~= mappings_view(mappings@));
    Ok(mappings)
}

proof fn lemma_read_buckets_err(b: Seq<u8>, dir: int, k: int, n: int, srcs: Seq<IndexSource>)
    requires
        0 <= k <= n,
        read_buckets(b, dir, k, srcs) is Err,
    ensures
        read_buckets(b, dir, n, srcs) == read_buckets(b, dir, k, srcs),
    decreases n - k,
{
    if k < n {
        lemma_read_buckets_err(b, dir, k, n - 1, srcs);
    }
}

/// Reads whole sheet data: the header, the index table, then every bucket
/// that the mapping directory lists; when a path occurs twice, its first
/// mapping stays.
pub fn read_sheet_data(full_sheet_data: &[u8]) -> (r: Result<SheetData, ReadSheetDataError>)
    ensures
        match read_sheet_spec(full_sheet_data@) {
            Ok(ms) => r matches Ok(d) && d@ == ms && d.wf(),
            Err(e) => r == format_err::<SheetData>(e),
        },
{
    let ghost b = full_sheet_data@;
    let n = full_sheet_data.len();
    if n < 15 {
        return Err(ReadSheetDataError::IOErr(SheetFormatError::TooSmallForHeader));
    }
    let version = full_sheet_data[0];
    if version != 1 {
        return Err(ReadSheetDataError::IOErr(SheetFormatError::UnsupportedVersion(version)));
    }
    let bucket_count = read_le16(full_sheet_data, 1) as usize;
    let index_count = read_le32(full_sheet_data, 3) as usize;
    let dir = read_le32(full_sheet_data, 7) as usize;
    let table = read_le32(full_sheet_data, 11) as usize;
    if dir > n {
        return Err(ReadSheetDataError::IOErr(SheetFormatError::MappingDirOffsetOutOfBounds));
    }
    if table > n {
        return Err(ReadSheetDataError::IOErr(SheetFormatError::IndexTableOffsetOutOfBounds));
    }
    let index_sources = match read_index_table(full_sheet_data, table, index_count) {
        Ok(v) => v,
        Err(e) => {
            return Err(e);
        },
    };
    let ghost srcs = index_sources@;
    if (dir as u64) + (bucket_count as u64) * 12 > n as u64 {
        return Err(ReadSheetDataError::IOErr(SheetFormatError::MappingDirExceedsBuffer));
    }
    let mut data = SheetData::empty();
    let mut i: usize = 0;
    while i < bucket_count
        invariant
            0 <= i <= bucket_count,
            bucket_count < 0x10000,
            b == full_sheet_data@,
            n == b.len(),
            srcs == index_sources@,
            dir + bucket_count * 12 <= n,
            data.wf(),
            read_sheet_spec(b) == read_buckets(b, dir as int, bucket_count as int, srcs),
            read_buckets(b, dir as int, i as int, srcs) == Ok::<Seq<LocalMappingView>, SheetFormatError>(data@),
        decreases bucket_count - i,
    {
        let e = dir + 12 * i;
        assert(e + 12 <= n) by (nonlinear_arith)
            requires
                e == dir + 12 * i,
                i < bucket_count,
                dir + bucket_count * 12 <= n,
        ;
        let off = read_le32(full_sheet_data, e + 4) as u64;
        let len = read_le32(full_sheet_data, e + 8) as u64;
        if off + len > n as u64 {
            assert(read_buckets(b, dir as int, i + 1, srcs) == Err::<Seq<LocalMappingView>, SheetFormatError>(SheetFormatError::BucketExceedsBuffer(i as u32)));
            proof {
                lemma_read_buckets_err(b, dir as int, i + 1, bucket_count as int, srcs);
            }
            return Err(ReadSheetDataError::IOErr(SheetFormatError::BucketExceedsBuffer(i as u32)));
        }
        let bucket = slice_subrange(full_sheet_data, off as usize, (off + len) as usize);
        let found = match read_bucket_data(bucket, index_sources.as_slice()) {
            Ok(v) => v,
            Err(err) => {
                assert(bucket@ == b.subrange(off as int, off + len));
                assert(read_buckets(b, dir as int, i + 1, srcs) is Err);
                proof {
                    lemma_read_buckets_err(b, dir as int, i + 1, bucket_count as int, srcs);
                }
                return Err(err);
            },
        };
        let ghost prev = data@;
        let ghost fv = mappings_view(found@);
        let mut j: usize = 0;
        assert(fv.take(0) =~= Seq::<LocalMappingView>::empty());
        while j < found.len()
            invariant
                0 <= j <= found.len(),
                fv == mappings_view(found@),
                data.wf(),
                data@ == insert_all(prev, fv.take(j as int)),
            decreases found.len() - j,
        {
            assert(fv.take(j + 1).drop_last() =~= fv.take(j as int));
            assert(fv.take(j + 1).last() == found@[j as int]@);
            let m = found[j].duplicate();
            data.insert_mapping(m);
            j = j + 1;
        }
        assert(fv.take(found.len() as int) =~= fv);
        i = i + 1;
    }
    Ok(data)
}

/// Whether a lookup's result is the one described: the same error, nothing,
/// or a mapping with an empty sheet name, the stored path text, the index
/// source and the forward direction.
pub open spec fn lookup_result<'a>(
    r: Result<Option<(Mapping<'a>, LocalMappingForward)>, ReadSheetDataError>,
    s: Result<Option<Found>, SheetFormatError>,
) -> bool {
    match s {
        Err(e) => r == Err::<Option<(Mapping<'a>, LocalMappingForward)>, ReadSheetDataError>(
            ReadSheetDataError::IOErr(e),
        ),
        Ok(None) => r matches Ok(None),
        Ok(Some(f)) => r matches Ok(Some(p)) && p.0.spec_sheet_name().len() == 0 && p.0.spec_val()
            == f.0 && p.0.spec_source() == f.1 && p.1@ == f.2,
    }
}

/// Start positions of the entries of a bucket.
fn build_entry_positions(bucket_data: &[u8]) -> (r: Result<Vec<usize>, ReadSheetDataError>)
    ensures
        r matches Ok(v) && v@.map_values(|p: usize| p as int) == entry_positions(bucket_data@, 0)
            && forall|i: int| 0 <= i < v.len() ==> #[trigger] v@[i] + 7 <= bucket_data@.len(),
{
    let ghost d = bucket_data@;
    let n = bucket_data.len();
    let mut positions: Vec<usize> = Vec::new();
    let mut pos: usize = 0;
    assert(positions@.map_values(|p: usize| p as int) + entry_positions(d, 0) =~= entry_positions(d, 0));
    while pos < n
        invariant
            pos <= n,
            n == d.len(),
            d == bucket_data@,
            positions@.map_values(|p: usize| p as int) + entry_positions(d, pos as int)
                == entry_positions(d, 0),
            forall|i: int| 0 <= i < positions.len() ==> #[trigger] positions@[i] + 7 <= n,
        decreases n - pos,
    {
        let ghost before = positions@.map_values(|p: usize| p as int);
        if n - pos < 7 {
            assert(entry_positions(d, pos as int) =~= Seq::<int>::empty());
            assert(before + Seq::<int>::empty() =~= before);
            return Ok(positions);
        }
        positions.push(pos);
        assert(positions@.map_values(|p: usize| p as int) =~= before.push(pos as int));
        let size = 7 + bucket_data[pos] as usize + bucket_data[pos + 2] as usize;
        if size >= n - pos {
            assert(entry_positions(d, pos as int) =~= seq![pos as int]);
            assert(before + seq![pos as int] =~= before.push(pos as int));
            return Ok(positions);
        }
        assert(before + entry_positions(d, pos as int) =~= before.push(pos as int) + entry_positions(d, pos + size));
        pos = pos + size;
    }
    assert(entry_positions(d, n as int) =~= Seq::<int>::empty());
    assert(positions@.map_values(|p: usize| p as int) + Seq::<int>::empty() =~= positions@.map_values(|p: usize| p as int));
    Ok(positions)
}

/// The header of the entry at `pos`: its position, path length, forward
/// type and forward payload length.
fn read_entry_header(bucket_data: &[u8], pos: usize) -> (r: Result<
    (usize, usize, u8, usize),
    ReadSheetDataError,
>)
    ensures
        pos + 7 > bucket_data@.len() ==> r == format_err::<(usize, usize, u8, usize)>(
            SheetFormatError::IncompleteEntry,
        ),
        pos + 7 <= bucket_data@.len() ==> r == Ok::<(usize, usize, u8, usize), ReadSheetDataError>(
            (
                pos,
                bucket_data@[pos as int] as usize,
                bucket_data@[pos + 1],
                bucket_data@[pos + 2] as usize,
            ),
        ),
{
    if bucket_data.len() < 7 || pos > bucket_data.len() - 7 {
        return Err(ReadSheetDataError::IOErr(SheetFormatError::IncompleteEntry));
    }
    Ok((pos, bucket_data[pos] as usize, bucket_data[pos + 1], bucket_data[pos + 2] as usize))
}

/// Finds the mapping of `node` in one bucket by halving over its entries,
/// which the writer lays out in path order.
fn find_mapping_in_bucket<'a>(
    bucket_data: &'a [u8],
    node: &[&str],
    index_sources: &[IndexSource],
) -> (r: Result<Option<(Mapping<'a>, LocalMappingForward)>, ReadSheetDataError>)
    ensures
        lookup_result(r, lookup_in_bucket(bucket_data@, strs_view(node@), index_sources@)),
{
    let ghost d = bucket_data@;
    let ghost nv = strs_view(node@);
    let ghost srcs = index_sources@;
    let n = bucket_data.len();
    let positions = match build_entry_positions(bucket_data) {
        Ok(p) => p,
        Err(e) => {
            return Err(e);
        },
    };
    let ghost ps = positions@.map_values(|p: usize| p as int);
    if positions.len() == 0 {
        return Ok(None);
    }
    let node_path = owned_strings(node);
    let mut left: usize = 0;
    let mut right: usize = positions.len();
    while left < right
        invariant
            left <= right <= positions.len(),
            n == d.len(),
            d == bucket_data@,
            srcs == index_sources@,
            nv == strs_view(node@),
            strings_view(node_path@) == nv,
            ps == positions@.map_values(|p: usize| p as int),
            forall|i: int| 0 <= i < positions.len() ==> #[trigger] positions@[i] + 7 <= n,
            lookup_in_bucket(d, nv, srcs) == search_bucket(d, ps, left as int, right as int, nv, srcs),
        decreases right - left,
    {
        let mid = left + (right - left) / 2;
        let entry_start = positions[mid];
        assert(ps[mid as int] == entry_start as int);
        let (_, key_len, forward_type, forward_info_len) = match read_entry_header(bucket_data, entry_start) {
            Ok(h) => h,
            Err(e) => {
                return Err(e);
            },
        };
        let header_end = entry_start + 3;
        if key_len > n - header_end {
            return Ok(None);
        }
        let key_end = header_end + key_len;
        let key_bytes = slice_subrange(bucket_data, header_end, key_end);
        let current_path = match deserialize_path(key_bytes) {
            Ok(p) => p,
            Err(e) => {
                return Err(e);
            },
        };
        if path_less(&current_path, &node_path) {
            left = mid + 1;
        } else if path_less(&node_path, &current_path) {
            right = mid;
        } else {
            if forward_info_len > n - key_end {
                return Ok(None);
            }
            let forward_end = key_end + forward_info_len;
            if n - forward_end < 4 {
                return Ok(None);
            }
            let index_offset = read_le32(bucket_data, forward_end);
            if index_offset as usize >= index_sources.len() {
                return Err(ReadSheetDataError::IOErr(SheetFormatError::InvalidIndexOffset(index_offset)));
            }
            let source = index_sources[index_offset as usize];
            let forward_bytes = slice_subrange(bucket_data, key_end, forward_end);
            let forward = match LocalMappingForward::pack(forward_type, forward_bytes) {
                Some(f) => f,
                None => {
                    return Err(ReadSheetDataError::IOErr(SheetFormatError::ForwardUnpackFailed));
                },
            };
            let path_str = match str_from_utf8(key_bytes) {
                Some(s) => s,
                None => {
                    return Err(ReadSheetDataError::IOErr(SheetFormatError::InvalidUtf8Path));
                },
            };
            let mapping = Mapping::new("", path_str, source);
            proof {
                reveal_strlit("");
            }
            return Ok(Some((mapping, forward)));
        }
    }
    Ok(None)
}

/// Looks the mapping of one path up without reading the whole sheet: the
/// directory and then the bucket are searched by halving. Bytes too short
/// for a header, or whose offsets point past the end, give nothing.
pub fn read_mapping<'a>(full_sheet_data: &'a [u8], node: &[&str]) -> (r: Result<
    Option<(Mapping<'a>, LocalMappingForward)>,
    ReadSheetDataError,
>)
    ensures
        lookup_result(r, read_mapping_spec(full_sheet_data@, strs_view(node@))),
{
    let ghost b = full_sheet_data@;
    let ghost nv = strs_view(node@);
    let n = full_sheet_data.len();
    if n < 15 {
        return Ok(None);
    }
    let version = full_sheet_data[0];
    if version != 1 {
        return Err(ReadSheetDataError::IOErr(SheetFormatError::UnsupportedVersion(version)));
    }
    let bucket_count = read_le16(full_sheet_data, 1) as usize;
    let index_count = read_le32(full_sheet_data, 3) as usize;
    let dir = read_le32(full_sheet_data, 7) as usize;
    let table = read_le32(full_sheet_data, 11) as usize;
    if dir > n || table > n {
        return Ok(None);
    }
    let index_sources = match read_index_table(full_sheet_data, table, index_count) {
        Ok(v) => v,
        Err(e) => {
            return Err(e);
        },
    };
    let ghost srcs = index_sources@;
    let node_path = owned_strings(node);
    let target_hash = calculate_path_hash(node_path.as_slice());
    let target_key = target_hash / 0x10000;
    assert(target_key == bucket_key(nv));
    if (dir as u64) + (bucket_count as u64) * 12 > n as u64 {
        return Ok(None);
    }
    let mut left: usize = 0;
    let mut right: usize = bucket_count;
    while left < right
        invariant
            left <= right <= bucket_count,
            bucket_count < 0x10000,
            b == full_sheet_data@,
            n == b.len(),
            nv == strs_view(node@),
            srcs == index_sources@,
            dir + bucket_count * 12 <= n,
            read_mapping_spec(b, nv) == search_dir(b, dir as int, left as int, right as int, target_key as int, nv, srcs),
        decreases right - left,
    {
        let mid = left + (right - left) / 2;
        let e = dir + 12 * mid;
        assert(e + 12 <= n) by (nonlinear_arith)
            requires
                e == dir + 12 * mid,
                mid < bucket_count,
                dir + bucket_count * 12 <= n,
        ;
        let key = read_le32(full_sheet_data, e);
        if key < target_key {
            left = mid + 1;
        } else if key > target_key {
            right = mid;
        } else {
            let off = read_le32(full_sheet_data, e + 4) as u64;
            let len = read_le32(full_sheet_data, e + 8) as u64;
            if off + len > n as u64 {
                return Ok(None);
            }
            let bucket = slice_subrange(full_sheet_data, off as usize, (off + len) as usize);
            return find_mapping_in_bucket(bucket, node, index_sources.as_slice());
        }
    }
    Ok(None)
}

/// Compare two paths node by node, by the order of their texts; when one
/// is a prefix of the other, the shorter comes first. This is the order of
/// `Vec<String>`.
pub fn compare_paths(path1: &[String], path2: &[&str]) -> (r: Ordering)
    ensures
        (r == Ordering::Less) == path_lt(strings_view(path1@), strs_view(path2@)),
        (r == Ordering::Greater) == path_lt(strs_view(path2@), strings_view(path1@)),
        (r == Ordering::Equal) == (strings_view(path1@) == strs_view(path2@)),
        (r == Ordering::Less) == string_vec_lt(strings_view(path1@), strs_view(path2@)),
        (r == Ordering::Greater) == string_vec_lt(strs_view(path2@), strings_view(path1@)),
{
    let a = strings_from_slice(path1);
    let b = owned_strings(path2);
    proof {
        lemma_path_order_is_string_vec_order(strings_view(path1@), strs_view(path2@));
        lemma_path_order_is_string_vec_order(strs_view(path2@), strings_view(path1@));
        lemma_path_lt_total(strings_view(path1@), strs_view(path2@));
        lemma_path_lt_total(strs_view(path2@), strings_view(path1@));
    }
    if path_less(&a, &b) {
        Ordering::Less
    } else if path_less(&b, &a) {
        Ordering::Greater
    } else {
        Ordering::Equal
    }
}

} // verus!
