//! Content-defined chunking: a rolling Rabin fingerprint over a window of
//! the last 48 bytes cuts a chunk where its masked bits are all zero.
use vstd::prelude::*;
use crate::storage::error::{invalid_input, is_invalid_input, StorageIOError};
use crate::storage::store::{chunks_of_ranges, concat, result_holds, ChunkingResult};
use crate::storage::store::fixed::lemma_concat_front;

verus! {

/// Bytes in the fingerprint window.
pub const WINDOW_SIZE: usize = 48;

/// Mask of the fingerprint bits tested for a cut at the base average size.
pub const BASE_TARGET_MASK: u64 = 0xFFFF;

/// The Rabin fingerprint polynomial.
pub const POLYNOMIAL: u64 = 0x3DA3358B4DC173;

/// One step of building a fingerprint table entry.
pub open spec fn table_step(f: u64) -> u64 {
    if f & 1 != 0 {
        (f >> 1u64) ^ POLYNOMIAL
    } else {
        f >> 1u64
    }
}

/// `n` steps of building a table entry.
pub open spec fn table_steps(f: u64, n: nat) -> u64
    decreases n,
{
    if n == 0 {
        f
    } else {
        table_steps(table_step(f), (n - 1) as nat)
    }
}

/// The fingerprint table entry of a byte.
pub open spec fn fingerprint_entry(b: u8) -> u64 {
    table_steps(b as u64, 8)
}

/// The fingerprint after `new` enters and `old` leaves the window.
pub open spec fn rabin_roll(fp: u64, old: u8, new: u8) -> u64 {
    (fp << 8u64) ^ (new as u64) ^ fingerprint_entry(old)
}

/// The fingerprint table entry of a byte.
fn fingerprint_table_entry(b: u8) -> (r: u64)
    ensures
        r == fingerprint_entry(b),
{
    let mut f: u64 = b as u64;
    let mut j: u64 = 0;
    while j < 8
        invariant
            j <= 8,
            table_steps(b as u64, 8) == table_steps(f, (8 - j) as nat),
        decreases 8 - j,
    {
        f = if f & 1 != 0 {
            (f >> 1u64) ^ POLYNOMIAL
        } else {
            f >> 1u64
        };
        j = j + 1;
    }
    f
}

/// Roll the fingerprint: `new_byte` enters, `old_byte` leaves the window.
pub fn rabin_fingerprint_byte(old_fingerprint: u64, old_byte: u8, new_byte: u8) -> (r: u64)
    ensures
        r == rabin_roll(old_fingerprint, old_byte, new_byte),
{
    (old_fingerprint << 8u64) ^ (new_byte as u64) ^ fingerprint_table_entry(old_byte)
}

/// The fingerprint after the bytes `data[s..i]` of a chunk that starts at
/// `s` (a byte leaves the window once 48 are in it).
pub open spec fn fp_at(data: Seq<u8>, s: int, i: int) -> u64
    decreases i - s,
{
    if i <= s {
        0
    } else {
        let prev = fp_at(data, s, i - 1);
        let b = data[i - 1];
        if i - 1 - s >= 48 {
            rabin_roll(prev, data[i - 1 - 48], b)
        } else {
            (prev << 8u64) ^ (b as u64)
        }
    }
}

/// Where the chunk that starts at `s` ends, searching from `i` up to `end`:
/// after the first byte at least `min` bytes in whose fingerprint has no
/// masked bit set, or at `end`.
pub open spec fn find_cut(data: Seq<u8>, s: int, i: int, end: int, min: int, mask: u64) -> int
    decreases end - i,
{
    if i >= end {
        end
    } else if i - s >= min && (fp_at(data, s, i + 1) & mask) == 0 {
        i + 1
    } else {
        find_cut(data, s, i + 1, end, min, mask)
    }
}

pub proof fn lemma_find_cut_bounds(data: Seq<u8>, s: int, i: int, end: int, min: int, mask: u64)
    requires
        i < end,
    ensures
        i + 1 <= find_cut(data, s, i, end, min, mask) <= end,
    decreases end - i,
{
    if !(i - s >= min && (fp_at(data, s, i + 1) & mask) == 0) {
        if i + 1 < end {
            lemma_find_cut_bounds(data, s, i + 1, end, min, mask);
        } else {
            assert(find_cut(data, s, i + 1, end, min, mask) == end);
        }
    }
}

/// The chunks cut from `s` on, each at most `max` bytes.
pub open spec fn cdc_pieces(data: Seq<u8>, s: int, min: int, max: int, mask: u64) -> Seq<Seq<u8>>
    decreases data.len() - s,
{
    if s < 0 || s >= data.len() || max <= 0 {
        Seq::<Seq<u8>>::empty()
    } else {
        let end = if s + max < data.len() {
            s + max
        } else {
            data.len() as int
        };
        proof {
            lemma_find_cut_bounds(data, s, s, end, min, mask);
        }
        let e = find_cut(data, s, s, end, min, mask);
        seq![data.subrange(s, e)] + cdc_pieces(data, e, min, max, mask)
    }
}

/// The chunks from `i` on, where a chunk shorter than `min` absorbs the
/// next one when together they take at most `max` bytes.
pub open spec fn merge_from(cs: Seq<Seq<u8>>, i: int, min: int, max: int) -> Seq<Seq<u8>>
    decreases cs.len() - i,
{
    if i < 0 || i >= cs.len() {
        Seq::<Seq<u8>>::empty()
    } else if i < cs.len() - 1 && cs[i].len() < min && cs[i].len() + cs[i + 1].len() <= max {
        seq![cs[i] + cs[i + 1]] + merge_from(cs, i + 2, min, max)
    } else {
        seq![cs[i]] + merge_from(cs, i + 1, min, max)
    }
}

/// Smallest chunk size aimed at: three quarters of the average, at least
/// 512 bytes.
pub open spec fn cdc_min(avg: int) -> int {
    let m = avg * 3 / 4;
    if m < 512 {
        512
    } else {
        m
    }
}

/// Largest chunk size: twice the average.
pub open spec fn cdc_max(avg: int) -> int {
    2 * avg
}

/// Mask of the fingerprint bits tested for a cut: the base mask scaled by
/// the average size over 64 KiB, at least `0xC000`.
pub open spec fn cdc_mask(avg: int) -> u64 {
    let m = 65535 * avg / 65536;
    if m < 0xC000 {
        0xC000u64
    } else {
        m as u64
    }
}

/// The chunks of `data` for the average size `avg`.
pub open spec fn cdc_chunks(data: Seq<u8>, avg: int) -> Seq<Seq<u8>> {
    merge_from(
        cdc_pieces(data, 0, cdc_min(avg), cdc_max(avg), cdc_mask(avg)),
        0,
        cdc_min(avg),
        cdc_max(avg),
    )
}

/// Where the chunk that starts at `s` ends.
fn find_chunk_end(data: &[u8], s: usize, end: usize, min: u64, mask: u64) -> (r: usize)
    requires
        s < end <= data.len(),
    ensures
        r == find_cut(data@, s as int, s as int, end as int, min as int, mask),
{
    let ghost d = data@;
    let mut fingerprint: u64 = 0;
    let mut i = s;
    while i < end
        invariant
            s <= i <= end <= data.len(),
            d == data@,
            fingerprint == fp_at(d, s as int, i as int),
            find_cut(d, s as int, s as int, end as int, min as int, mask) == find_cut(
                d,
                s as int,
                i as int,
                end as int,
                min as int,
                mask,
            ),
        decreases end - i,
    {
        let byte = data[i];
        if i - s >= WINDOW_SIZE {
            fingerprint = rabin_fingerprint_byte(fingerprint, data[i - WINDOW_SIZE], byte);
        } else {
            fingerprint = (fingerprint << 8u64) ^ (byte as u64);
        }
        if (i - s) as u64 >= min && (fingerprint & mask) == 0 {
            return i + 1;
        }
        i = i + 1;
    }
    end
}

/// The ranges of the raw chunks (before merging), one after the other.
fn cdc_ranges(data: &[u8], min: u64, max: u64, mask: u64) -> (r: Vec<(usize, usize)>)
    requires
        max > 0,
    ensures
        forall|k: int| 0 <= k < r.len() ==> (#[trigger] r@[k]).0 < r@[k].1 <= data.len(),
        forall|k: int| 0 <= k < r.len() - 1 ==> (#[trigger] r@[k]).1 == r@[k + 1].0,
        r@.map_values(|p: (usize, usize)| data@.subrange(p.0 as int, p.1 as int)) == cdc_pieces(
            data@,
            0,
            min as int,
            max as int,
            mask,
        ),
{
    let ghost d = data@;
    let total = data.len();
    let mut ranges: Vec<(usize, usize)> = Vec::new();
    let mut start: usize = 0;
    assert(ranges@.map_values(|p: (usize, usize)| d.subrange(p.0 as int, p.1 as int)) + cdc_pieces(
        d,
        0,
        min as int,
        max as int,
        mask,
    ) =~= cdc_pieces(d, 0, min as int, max as int, mask));
    while start < total
        invariant
            start <= total,
            total == d.len(),
            d == data@,
            max > 0,
            forall|k: int| 0 <= k < ranges.len() ==> (#[trigger] ranges@[k]).0 < ranges@[k].1 <= total,
            forall|k: int| 0 <= k < ranges.len() - 1 ==> (#[trigger] ranges@[k]).1 == ranges@[k + 1].0,
            ranges.len() > 0 ==> ranges@[ranges.len() - 1].1 == start,
            ranges@.map_values(|p: (usize, usize)| d.subrange(p.0 as int, p.1 as int)) + cdc_pieces(
                d,
                start as int,
                min as int,
                max as int,
                mask,
            ) == cdc_pieces(d, 0, min as int, max as int, mask),
        decreases total - start,
    {
        let ghost before = ranges@.map_values(|p: (usize, usize)| d.subrange(p.0 as int, p.1 as int));
        let search_end = if ((total - start) as u64) <= max {
            total
        } else {
            start + max as usize
        };
        let e = find_chunk_end(data, start, search_end, min, mask);
        proof {
            lemma_find_cut_bounds(d, start as int, start as int, search_end as int, min as int, mask);
        }
        ranges.push((start, e));
        assert(ranges@.map_values(|p: (usize, usize)| d.subrange(p.0 as int, p.1 as int)) =~= before.push(
            d.subrange(start as int, e as int),
        ));
        assert(before + cdc_pieces(d, start as int, min as int, max as int, mask) =~= before.push(
            d.subrange(start as int, e as int),
        ) + cdc_pieces(d, e as int, min as int, max as int, mask));
        start = e;
    }
    assert(ranges@.map_values(|p: (usize, usize)| d.subrange(p.0 as int, p.1 as int)) + Seq::<Seq<u8>>::empty()
        =~= ranges@.map_values(|p: (usize, usize)| d.subrange(p.0 as int, p.1 as int)));
    ranges
}

/// Ranges after merging each short chunk with the next when they fit.
fn merge_ranges(data: &[u8], raw: &Vec<(usize, usize)>, min: u64, max: u64) -> (r: Vec<(usize, usize)>)
    requires
        forall|k: int| 0 <= k < raw.len() ==> (#[trigger] raw@[k]).0 < raw@[k].1 <= data.len(),
        forall|k: int| 0 <= k < raw.len() - 1 ==> (#[trigger] raw@[k]).1 == raw@[k + 1].0,
    ensures
        forall|k: int| 0 <= k < r.len() ==> (#[trigger] r@[k]).0 <= r@[k].1 <= data.len(),
        r@.map_values(|p: (usize, usize)| data@.subrange(p.0 as int, p.1 as int)) == merge_from(
            raw@.map_values(|p: (usize, usize)| data@.subrange(p.0 as int, p.1 as int)),
            0,
            min as int,
            max as int,
        ),
{
    let ghost d = data@;
    let ghost ps = raw@.map_values(|p: (usize, usize)| d.subrange(p.0 as int, p.1 as int));
    let mut merged: Vec<(usize, usize)> = Vec::new();
    let mut k: usize = 0;
    assert(merged@.map_values(|p: (usize, usize)| d.subrange(p.0 as int, p.1 as int)) + merge_from(
        ps,
        0,
        min as int,
        max as int,
    ) =~= merge_from(ps, 0, min as int, max as int));
    while k < raw.len()
        invariant
            k <= raw.len(),
            d == data@,
            ps == raw@.map_values(|p: (usize, usize)| d.subrange(p.0 as int, p.1 as int)),
            forall|j: int| 0 <= j < raw.len() ==> (#[trigger] raw@[j]).0 < raw@[j].1 <= data.len(),
            forall|j: int| 0 <= j < raw.len() - 1 ==> (#[trigger] raw@[j]).1 == raw@[j + 1].0,
            forall|j: int| 0 <= j < merged.len() ==> (#[trigger] merged@[j]).0 <= merged@[j].1 <= data.len(),
            merged@.map_values(|p: (usize, usize)| d.subrange(p.0 as int, p.1 as int)) + merge_from(
                ps,
                k as int,
                min as int,
                max as int,
            ) == merge_from(ps, 0, min as int, max as int),
        decreases raw.len() - k,
    {
        let ghost before = merged@.map_values(|p: (usize, usize)| d.subrange(p.0 as int, p.1 as int));
        let (a, b) = raw[k];
        assert(ps[k as int] == d.subrange(a as int, b as int));
        if k + 1 < raw.len() {
            let (c, e) = raw[k + 1];
            assert(ps[k + 1] == d.subrange(c as int, e as int));
            let l1 = (b - a) as u64;
            let l2 = (e - c) as u64;
            if l1 < min && l1 + l2 <= max {
                merged.push((a, e));
                assert(d.subrange(a as int, e as int) =~= ps[k as int] + ps[k + 1]);
                assert(merged@.map_values(|p: (usize, usize)| d.subrange(p.0 as int, p.1 as int)) =~= before.push(
                    ps[k as int] + ps[k + 1],
                ));
                assert(before + merge_from(ps, k as int, min as int, max as int) =~= before.push(
                    ps[k as int] + ps[k + 1],
                ) + merge_from(ps, k + 2, min as int, max as int));
                k = k + 2;
            } else {
                merged.push((a, b));
                assert(merged@.map_values(|p: (usize, usize)| d.subrange(p.0 as int, p.1 as int)) =~= before.push(
                    ps[k as int],
                ));
                assert(before + merge_from(ps, k as int, min as int, max as int) =~= before.push(
                    ps[k as int],
                ) + merge_from(ps, k + 1, min as int, max as int));
                k = k + 1;
            }
        } else {
            merged.push((a, b));
            assert(merged@.map_values(|p: (usize, usize)| d.subrange(p.0 as int, p.1 as int)) =~= before.push(
                ps[k as int],
            ));
            assert(before + merge_from(ps, k as int, min as int, max as int) =~= before.push(ps[k as int])
                + merge_from(ps, k + 1, min as int, max as int));
            k = k + 1;
        }
    }
    assert(merged@.map_values(|p: (usize, usize)| d.subrange(p.0 as int, p.1 as int)) + Seq::<Seq<u8>>::empty()
        =~= merged@.map_values(|p: (usize, usize)| d.subrange(p.0 as int, p.1 as int)));
    merged
}

/// Split data by content-defined chunking for the average chunk size
/// `avg_size`: chunks are cut where the rolling fingerprint has none of the
/// masked bits set, no earlier than the minimum size and no later than
/// twice the average; a short chunk then absorbs the next one when both
/// fit in the maximum. The size bounds and the mask follow from the average
/// size exactly, in integers. An average of zero is refused.
pub fn split_cdc_impl(data: &[u8], avg_size: u32) -> (r: Result<ChunkingResult, StorageIOError>)
    ensures
        avg_size == 0 ==> (r matches Err(StorageIOError::IOErr(e)) && is_invalid_input(e)),
        avg_size > 0 ==> (r matches Ok(res) && result_holds(res, data@, cdc_chunks(data@, avg_size as int))),
{
    if avg_size == 0 {
        return Err(StorageIOError::IOErr(invalid_input("Average chunk size must be greater than 0")));
    }
    let avg = avg_size as u64;
    let min0 = avg * 3 / 4;
    let min_chunk_size: u64 = if min0 < 512 {
        512
    } else {
        min0
    };
    let max_chunk_size: u64 = avg * 2;
    let m = 65535 * avg / 65536;
    let target_mask: u64 = if m < 0xC000 {
        0xC000
    } else {
        m
    };
    let raw = cdc_ranges(data, min_chunk_size, max_chunk_size, target_mask);
    let merged = merge_ranges(data, &raw, min_chunk_size, max_chunk_size);
    let chunks = chunks_of_ranges(data, &merged);
    Ok(ChunkingResult { chunks, total_size: data.len() as u64 })
}

proof fn lemma_cdc_pieces(data: Seq<u8>, s: int, min: int, max: int, mask: u64)
    requires
        0 <= s <= data.len(),
        max > 0,
    ensures
        concat(cdc_pieces(data, s, min, max, mask)) == data.skip(s),
        forall|k: int|
            0 <= k < cdc_pieces(data, s, min, max, mask).len() ==> (#[trigger] cdc_pieces(
                data,
                s,
                min,
                max,
                mask,
            )[k]).len() <= max,
    decreases data.len() - s,
{
    let ps = cdc_pieces(data, s, min, max, mask);
    if s >= data.len() {
        assert(data.skip(s) =~= Seq::<u8>::empty());
    } else {
        let end = if s + max < data.len() {
            s + max
        } else {
            data.len() as int
        };
        lemma_find_cut_bounds(data, s, s, end, min, mask);
        let e = find_cut(data, s, s, end, min, mask);
        lemma_cdc_pieces(data, e, min, max, mask);
        let rest = cdc_pieces(data, e, min, max, mask);
        lemma_concat_front(data.subrange(s, e), rest);
        assert(data.subrange(s, e) + data.skip(e) =~= data.skip(s));
        assert forall|k: int| 0 <= k < ps.len() implies (#[trigger] ps[k]).len() <= max by {
            if k > 0 {
                assert(ps[k] == rest[k - 1]);
            }
        }
    }
}

proof fn lemma_merge(cs: Seq<Seq<u8>>, i: int, min: int, max: int)
    requires
        0 <= i <= cs.len(),
        forall|k: int| 0 <= k < cs.len() ==> (#[trigger] cs[k]).len() <= max,
    ensures
        concat(merge_from(cs, i, min, max)) == concat(cs.skip(i)),
        forall|k: int|
            0 <= k < merge_from(cs, i, min, max).len() ==> (#[trigger] merge_from(cs, i, min, max)[k]).len()
                <= max,
    decreases cs.len() - i,
{
    let m = merge_from(cs, i, min, max);
    if i >= cs.len() {
        assert(cs.skip(i) =~= Seq::<Seq<u8>>::empty());
    } else {
        assert(cs.skip(i) =~= seq![cs[i]] + cs.skip(i + 1));
        lemma_concat_front(cs[i], cs.skip(i + 1));
        if i < cs.len() - 1 && cs[i].len() < min && cs[i].len() + cs[i + 1].len() <= max {
            lemma_merge(cs, i + 2, min, max);
            let rest = merge_from(cs, i + 2, min, max);
            lemma_concat_front(cs[i] + cs[i + 1], rest);
            assert(cs.skip(i + 1) =~= seq![cs[i + 1]] + cs.skip(i + 2));
            lemma_concat_front(cs[i + 1], cs.skip(i + 2));
            assert(cs[i] + cs[i + 1] + concat(cs.skip(i + 2)) =~= cs[i] + (cs[i + 1] + concat(
                cs.skip(i + 2),
            )));
            assert forall|k: int| 0 <= k < m.len() implies (#[trigger] m[k]).len() <= max by {
                if k > 0 {
                    assert(m[k] == rest[k - 1]);
                }
            }
        } else {
            lemma_merge(cs, i + 1, min, max);
            let rest = merge_from(cs, i + 1, min, max);
            lemma_concat_front(cs[i], rest);
            assert forall|k: int| 0 <= k < m.len() implies (#[trigger] m[k]).len() <= max by {
                if k > 0 {
                    assert(m[k] == rest[k - 1]);
                }
            }
        }
    }
}

/// Content-defined chunks put back together give the data, and none is
/// longer than twice the average size.
pub proof fn lemma_cdc_chunks(data: Seq<u8>, avg: int)
    requires
        avg > 0,
    ensures
        concat(cdc_chunks(data, avg)) == data,
        forall|k: int| 0 <= k < cdc_chunks(data, avg).len() ==> (#[trigger] cdc_chunks(data, avg)[k]).len() <= 2 * avg,
{
    let min = cdc_min(avg);
    let max = cdc_max(avg);
    let mask = cdc_mask(avg);
    lemma_cdc_pieces(data, 0, min, max, mask);
    let ps = cdc_pieces(data, 0, min, max, mask);
    lemma_merge(ps, 0, min, max);
    assert(ps.skip(0) =~= ps);
    assert(data.skip(0) =~= data);
}


proof fn lemma_merge_from_full(cs: Seq<Seq<u8>>, i: int, min: int, max: int)
    requires
        0 <= i <= cs.len(),
        forall|k: int| 0 <= k < cs.len() ==> (#[trigger] cs[k]).len() >= min,
    ensures
        merge_from(cs, i, min, max) == cs.skip(i),
    decreases cs.len() - i,
{
    if i < cs.len() {
        lemma_merge_from_full(cs, i + 1, min, max);
        assert(cs[i].len() >= min);
        assert(seq![cs[i]] + cs.skip(i + 1) =~= cs.skip(i));
    } else {
        assert(cs.skip(i) =~= Seq::<Seq<u8>>::empty());
    }
}

/// Merging only ever touches a chunk shorter than the minimum: chunks that
/// all have at least `min` bytes come out of the merge step unchanged.
pub proof fn lemma_merge_keeps_full_chunks(cs: Seq<Seq<u8>>, min: int, max: int)
    requires
        forall|k: int| 0 <= k < cs.len() ==> (#[trigger] cs[k]).len() >= min,
    ensures
        merge_from(cs, 0, min, max) == cs,
{
    lemma_merge_from_full(cs, 0, min, max);
    assert(cs.skip(0) =~= cs);
}

/// A chunk shorter than the minimum is joined to the one after it when
/// together they fit in `max` bytes, and the merge goes on after both.
pub proof fn lemma_merge_joins_short_chunk(a: Seq<u8>, b: Seq<u8>, rest: Seq<Seq<u8>>, min: int, max: int)
    requires
        a.len() < min,
        a.len() + b.len() <= max,
    ensures
        merge_from(seq![a, b] + rest, 0, min, max) == seq![a + b] + merge_from(rest, 0, min, max),
{
    let cs = seq![a, b] + rest;
    assert(cs[0] == a && cs[1] == b);
    lemma_merge_from_skip(cs, 2, min, max);
    assert(cs.skip(2) =~= rest);
}

proof fn lemma_merge_from_skip(cs: Seq<Seq<u8>>, i: int, min: int, max: int)
    requires
        0 <= i <= cs.len(),
    ensures
        merge_from(cs, i, min, max) == merge_from(cs.skip(i), 0, min, max),
    decreases cs.len() - i,
{
    let r = cs.skip(i);
    if i < cs.len() {
        assert(r[0] == cs[i]);
        lemma_merge_from_skip(cs, i + 1, min, max);
        lemma_merge_from_skip(r, 1, min, max);
        assert(r.skip(1) =~= cs.skip(i + 1));
        if i + 2 <= cs.len() {
            assert(r[1] == cs[i + 1]);
            lemma_merge_from_skip(cs, i + 2, min, max);
            lemma_merge_from_skip(r, 2, min, max);
            assert(r.skip(2) =~= cs.skip(i + 2));
        }
    } else {
        assert(r.len() == 0);
    }
}

/// The cut test at position `i` of a chunk that starts at `s`: at least
/// `min` bytes before `i`, and no masked bit set in the fingerprint after
/// byte `i`.
pub open spec fn cut_after(data: Seq<u8>, s: int, i: int, min: int, mask: u64) -> bool {
    i - s >= min && (fp_at(data, s, i + 1) & mask) == 0
}

proof fn lemma_find_cut_first(data: Seq<u8>, s: int, i: int, end: int, min: int, mask: u64)
    requires
        i < end,
    ensures
        forall|k: int| i <= k < find_cut(data, s, i, end, min, mask) - 1 ==> !cut_after(data, s, k, min, mask),
        find_cut(data, s, i, end, min, mask) < end ==> cut_after(
            data,
            s,
            find_cut(data, s, i, end, min, mask) - 1,
            min,
            mask,
        ),
    decreases end - i,
{
    lemma_find_cut_bounds(data, s, i, end, min, mask);
    if !(i - s >= min && (fp_at(data, s, i + 1) & mask) == 0) && i + 1 < end {
        lemma_find_cut_first(data, s, i + 1, end, min, mask);
    }
}

/// A content-defined chunk that starts at `s` ends right after the first
/// byte at least `min` bytes in whose rolling fingerprint has no masked bit
/// set, or, where there is none, after `max` bytes or at the end of the
/// data; the next chunk starts where it ends.
pub proof fn lemma_cdc_cut_rule(data: Seq<u8>, s: int, min: int, max: int, mask: u64)
    requires
        0 <= s < data.len(),
        max > 0,
    ensures
        ({
            let ps = cdc_pieces(data, s, min, max, mask);
            let end = if s + max < data.len() { s + max } else { data.len() as int };
            let e = s + ps[0].len();
            &&& ps.len() > 0
            &&& s < e <= end
            &&& ps[0] == data.subrange(s, e)
            &&& forall|k: int| s <= k < e - 1 ==> !cut_after(data, s, k, min, mask)
            &&& (e < end ==> cut_after(data, s, e - 1, min, mask))
            &&& ps.drop_first() == cdc_pieces(data, e, min, max, mask)
        }),
{
    let end = if s + max < data.len() { s + max } else { data.len() as int };
    lemma_find_cut_bounds(data, s, s, end, min, mask);
    lemma_find_cut_first(data, s, s, end, min, mask);
    let e = find_cut(data, s, s, end, min, mask);
    let ps = cdc_pieces(data, s, min, max, mask);
    assert(ps == seq![data.subrange(s, e)] + cdc_pieces(data, e, min, max, mask));
    assert(ps.drop_first() =~= cdc_pieces(data, e, min, max, mask));
}

proof fn lemma_zero_roll()
    ensures
        rabin_roll(0, 0, 0) == 0,
{
    assert(table_step(0) == 0) by (bit_vector);
    assert(table_steps(0, 8) == 0) by {
        reveal_with_fuel(table_steps, 9);
    }
    assert(((0u64 << 8u64) ^ 0u64 ^ 0u64) == 0u64) by (bit_vector);
}

proof fn lemma_zero_fp(data: Seq<u8>, s: int, i: int)
    requires
        forall|k: int| 0 <= k < data.len() ==> #[trigger] data[k] == 0,
        0 <= s,
        i <= data.len(),
    ensures
        fp_at(data, s, i) == 0,
    decreases i - s,
{
    if i > s {
        lemma_zero_fp(data, s, i - 1);
        assert(data[i - 1] == 0);
        if i - 1 - s >= 48 {
            assert(data[i - 1 - 48] == 0);
            lemma_zero_roll();
        } else {
            assert(((0u64 << 8u64) ^ (0u8 as u64)) == 0u64) by (bit_vector);
        }
    }
}

/// On data of zero bytes the fingerprint is always zero, so every chunk is
/// cut as soon as it may be: it takes `min + 1` bytes, unless `max` bytes
/// or the end of the data come first.
pub proof fn lemma_cdc_zero_data(data: Seq<u8>, s: int, min: int, max: int, mask: u64)
    requires
        forall|k: int| 0 <= k < data.len() ==> #[trigger] data[k] == 0,
        0 <= s < data.len(),
        0 <= min,
        max > 0,
    ensures
        ({
            let end = if s + max < data.len() { s + max } else { data.len() as int };
            cdc_pieces(data, s, min, max, mask)[0].len() == if s + min + 1 <= end { min + 1 } else { end - s }
        }),
{
    lemma_cdc_cut_rule(data, s, min, max, mask);
    let ps = cdc_pieces(data, s, min, max, mask);
    let end = if s + max < data.len() { s + max } else { data.len() as int };
    let e = s + ps[0].len();
    if s + min + 1 <= end {
        let k = s + min;
        lemma_zero_fp(data, s, k + 1);
        assert((0u64 & mask) == 0u64) by (bit_vector);
        assert(cut_after(data, s, k, min, mask));
        if e - 1 > k {
            assert(!cut_after(data, s, k, min, mask));
        }
        if e - 1 < k {
            if e < end {
                assert(cut_after(data, s, e - 1, min, mask));
            }
        }
    } else {
        if e < end {
            assert(cut_after(data, s, e - 1, min, mask));
        }
    }
}

} // verus!
