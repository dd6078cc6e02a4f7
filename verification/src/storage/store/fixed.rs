//! Fixed-size chunking.
use vstd::prelude::*;
use crate::storage::error::{invalid_input, is_invalid_input, StorageIOError};
use crate::storage::store::{chunks_of_ranges, concat, result_holds, ChunkingResult};

verus! {

/// The pieces of `data` of `size` bytes each (the last may be shorter).
pub open spec fn fixed_pieces(data: Seq<u8>, size: int) -> Seq<Seq<u8>>
    decreases data.len(),
{
    if size <= 0 || data.len() == 0 {
        Seq::<Seq<u8>>::empty()
    } else {
        let n = if size < data.len() {
            size
        } else {
            data.len() as int
        };
        seq![data.take(n)] + fixed_pieces(data.skip(n), size)
    }
}

/// The ranges of the pieces of `size` bytes each that `data` splits into
/// (the last may be shorter), in order.
pub fn fixed_ranges(data: &[u8], size: usize) -> (ranges: Vec<(usize, usize)>)
    requires
        size > 0,
    ensures
        forall|k: int| 0 <= k < ranges.len() ==> (#[trigger] ranges@[k]).0 <= ranges@[k].1 <= data.len(),
        ranges@.map_values(|p: (usize, usize)| data@.subrange(p.0 as int, p.1 as int)) == fixed_pieces(data@, size as int),
{
    let total = data.len();
    let ghost d = data@;
    let mut ranges: Vec<(usize, usize)> = Vec::new();
    let mut start: usize = 0;
    assert(d.skip(0) =~= d);
    assert(ranges@.map_values(|p: (usize, usize)| d.subrange(p.0 as int, p.1 as int)) + fixed_pieces(d, size as int) =~= fixed_pieces(d, size as int));
    while start < total
        invariant
            start <= total,
            total == d.len(),
            d == data@,
                        size > 0,
            forall|k: int| 0 <= k < ranges.len() ==> (#[trigger] ranges@[k]).0 <= ranges@[k].1 <= total,
            ranges@.map_values(|p: (usize, usize)| d.subrange(p.0 as int, p.1 as int)) + fixed_pieces(
                d.skip(start as int),
                size as int,
            ) == fixed_pieces(d, size as int),
        decreases total - start,
    {
        let ghost rest = d.skip(start as int);
        let ghost before = ranges@.map_values(|p: (usize, usize)| d.subrange(p.0 as int, p.1 as int));
        let end = if total - start <= size {
            total
        } else {
            start + size
        };
        ranges.push((start, end));
        let ghost n = end - start;
        assert(rest.take(n) =~= d.subrange(start as int, end as int));
        assert(rest.skip(n) =~= d.skip(end as int));
        assert(ranges@.map_values(|p: (usize, usize)| d.subrange(p.0 as int, p.1 as int)) =~= before.push(
            d.subrange(start as int, end as int),
        ));
        assert(before + fixed_pieces(rest, size as int) =~= before.push(rest.take(n)) + fixed_pieces(
            rest.skip(n),
            size as int,
        ));
        start = end;
    }
    assert(fixed_pieces(d.skip(total as int), size as int) =~= Seq::<Seq<u8>>::empty());
    assert(ranges@.map_values(|p: (usize, usize)| d.subrange(p.0 as int, p.1 as int)) + Seq::<Seq<u8>>::empty()
        =~= ranges@.map_values(|p: (usize, usize)| d.subrange(p.0 as int, p.1 as int)));
    ranges
}

/// Split data into chunks of `chunk_size` bytes; the last chunk holds what
/// is left. A size of zero is refused.
pub fn split_fixed_impl(data: &[u8], chunk_size: u32) -> (r: Result<ChunkingResult, StorageIOError>)
    ensures
        chunk_size == 0 ==> (r matches Err(StorageIOError::IOErr(e)) && is_invalid_input(e)),
        chunk_size > 0 ==> (r matches Ok(res) && result_holds(res, data@, fixed_pieces(data@, chunk_size as int))),
{
    if chunk_size == 0 {
        return Err(StorageIOError::IOErr(invalid_input("Chunk size must be greater than 0")));
    }
    let size = chunk_size as usize;
    let ranges = fixed_ranges(data, size);
    let total = data.len();
    let chunks = chunks_of_ranges(data, &ranges);
    Ok(ChunkingResult { chunks, total_size: total as u64 })
}

/// Fixed-size pieces put back together give the data.
pub proof fn lemma_fixed_pieces_concat(data: Seq<u8>, size: int)
    requires
        size > 0,
    ensures
        concat(fixed_pieces(data, size)) == data,
    decreases data.len(),
{
    if data.len() > 0 {
        let n = if size < data.len() {
            size
        } else {
            data.len() as int
        };
        lemma_fixed_pieces_concat(data.skip(n), size);
        lemma_concat_front(data.take(n), fixed_pieces(data.skip(n), size));
        assert(data.take(n) + data.skip(n) =~= data);
    }
}

/// Concatenating one piece before others.
pub proof fn lemma_concat_front(first: Seq<u8>, rest: Seq<Seq<u8>>)
    ensures
        concat(seq![first] + rest) == first + concat(rest),
    decreases rest.len(),
{
    if rest.len() == 0 {
        assert(seq![first] + rest =~= seq![first]);
        assert(seq![first].drop_last() =~= Seq::<Seq<u8>>::empty());
        assert(concat(Seq::<Seq<u8>>::empty()) =~= Seq::<u8>::empty());
        assert(concat(seq![first]) == concat(Seq::<Seq<u8>>::empty()) + first);
        assert(Seq::<u8>::empty() + first =~= first);
        assert(first + Seq::<u8>::empty() =~= first);
    } else {
        lemma_concat_front(first, rest.drop_last());
        assert((seq![first] + rest).drop_last() =~= seq![first] + rest.drop_last());
        assert((seq![first] + rest).last() == rest.last());
        assert(first + concat(rest.drop_last()) + rest.last() =~= first + (concat(rest.drop_last())
            + rest.last()));
    }
}

/// The smallest power of two at least `n`, searching from `p`.
pub open spec fn pow2_at_least(n: int, p: int) -> int
    decreases n - p,
{
    if p <= 0 || p >= n {
        p
    } else if 2 * p >= n {
        2 * p
    } else {
        pow2_at_least(n, 2 * p)
    }
}

/// The chunk size that splits a file into about `target_chunks` chunks:
/// the quotient rounded up (at most `u32::MAX`), rounded up to a power of
/// two above 1 KiB, kept between 1 KiB and 16 MiB; 64 KiB when either
/// number is zero.
pub open spec fn optimal_chunk_size(file_size: int, target_chunks: int) -> int {
    if target_chunks == 0 || file_size == 0 {
        65536
    } else {
        let q = (file_size + target_chunks - 1) / target_chunks;
        let c = if q > u32::MAX {
            u32::MAX as int
        } else {
            q
        };
        let rounded = if c <= 1024 {
            c
        } else {
            pow2_at_least(c, 1)
        };
        let at_least = if rounded < 1024 {
            1024
        } else {
            rounded
        };
        if at_least > 16777216 {
            16777216
        } else {
            at_least
        }
    }
}

proof fn lemma_ceil_div(a: int, b: int)
    requires
        a >= 0,
        b > 0,
    ensures
        (a + b - 1) / b == a / b + if a % b != 0 {
            1int
        } else {
            0int
        },
{
    vstd::arithmetic::div_mod::lemma_fundamental_div_mod(a, b);
    let q0 = a / b;
    let r0 = a % b;
    if r0 == 0 {
        assert(a + b - 1 == q0 * b + (b - 1)) by (nonlinear_arith)
            requires
                a == b * q0 + r0,
                r0 == 0,
        ;
        vstd::arithmetic::div_mod::lemma_fundamental_div_mod_converse(a + b - 1, b, q0, b - 1);
    } else {
        assert(a + b - 1 == (q0 + 1) * b + (r0 - 1)) by (nonlinear_arith)
            requires
                a == b * q0 + r0,
        ;
        vstd::arithmetic::div_mod::lemma_fundamental_div_mod_converse(a + b - 1, b, q0 + 1, r0 - 1);
    }
}

/// A fixed chunk size for a file of `file_size` bytes to be split into
/// about `target_chunks` chunks. The quotient is computed exactly in
/// integers; a rounded quotient above 2^31 has no power of two in `u32` to
/// round to.
pub fn calculate_optimal_chunk_size(file_size: u64, target_chunks: usize) -> (r: u32)
    requires
        target_chunks == 0 || file_size == 0 || (file_size + target_chunks - 1) / (target_chunks as int)
            <= 0x8000_0000,
    ensures
        r == optimal_chunk_size(file_size as int, target_chunks as int),
{
    if target_chunks == 0 || file_size == 0 {
        return 65536;
    }
    let t = target_chunks as u64;
    assert(file_size % t != 0 ==> file_size / t < u64::MAX) by (nonlinear_arith)
        requires
            t > 0,
    {
        if file_size % t != 0 {
            assert(t != 1);
            vstd::arithmetic::div_mod::lemma_div_is_ordered_by_denominator(file_size as int, 2, t as int);
        }
    }
    let q: u64 = file_size / t + if file_size % t != 0 {
        1u64
    } else {
        0u64
    };
    proof {
        lemma_ceil_div(file_size as int, t as int);
    }
    let c: u32 = q as u32;
    let rounded: u32 = if c <= 1024 {
        c
    } else {
        let mut p: u32 = 1;
        while p < c
            invariant
                1 <= p <= 2 * c,
                1024 < c <= 0x8000_0000,
                pow2_at_least(c as int, 1) == pow2_at_least(c as int, p as int),
            decreases 2 * c - p,
        {
            p = p * 2;
        }
        p
    };
    let at_least = if rounded < 1024 {
        1024
    } else {
        rounded
    };
    if at_least > 16777216 {
        16777216
    } else {
        at_least
    }
}

} // verus!
