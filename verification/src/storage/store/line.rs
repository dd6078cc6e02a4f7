//! Line-based chunking: each line, with its line ending, is one chunk.
use vstd::prelude::*;
use crate::storage::error::StorageIOError;
use crate::storage::store::{chunks_of_ranges, concat, result_holds, ChunkingResult};
use crate::storage::store::fixed::lemma_concat_front;

verus! {

/// A kind of line ending.
pub trait LineEnding {
    /// Whether a line ending starts at `i`.
    spec fn ending_at(data: Seq<u8>, i: int) -> bool;

    /// The length of the line ending that starts at `i`.
    spec fn ending_len(data: Seq<u8>, i: int) -> int;

    /// A line ending takes at least one byte and ends inside the data.
    proof fn lemma_ending(data: Seq<u8>, i: int)
        requires
            0 <= i < data.len(),
            Self::ending_at(data, i),
        ensures
            1 <= Self::ending_len(data, i),
            i + Self::ending_len(data, i) <= data.len(),
    ;

    /// Check whether position `i` is the start of a line ending.
    fn is_line_ending(data: &[u8], i: usize) -> (r: bool)
        ensures
            r == Self::ending_at(data@, i as int),
    ;

    /// The length of the line ending at position `i`.
    fn ending_length(data: &[u8], i: usize) -> (r: usize)
        requires
            i < data@.len(),
            Self::ending_at(data@, i as int),
        ensures
            r as int == Self::ending_len(data@, i as int),
    ;
}

/// Unix line endings (`\n`).
pub struct UnixLineEnding;

impl LineEnding for UnixLineEnding {
    open spec fn ending_at(data: Seq<u8>, i: int) -> bool {
        0 <= i < data.len() && data[i] == 10
    }

    open spec fn ending_len(data: Seq<u8>, i: int) -> int {
        1
    }

    proof fn lemma_ending(data: Seq<u8>, i: int) {
    }

    fn is_line_ending(data: &[u8], i: usize) -> (r: bool) {
        i < data.len() && data[i] == 10
    }

    fn ending_length(data: &[u8], i: usize) -> (r: usize) {
        1
    }
}

/// Windows line endings (`\r\n`).
pub struct WindowsLineEnding;

impl LineEnding for WindowsLineEnding {
    open spec fn ending_at(data: Seq<u8>, i: int) -> bool {
        0 <= i && i + 1 < data.len() && data[i] == 13 && data[i + 1] == 10
    }

    open spec fn ending_len(data: Seq<u8>, i: int) -> int {
        2
    }

    proof fn lemma_ending(data: Seq<u8>, i: int) {
    }

    fn is_line_ending(data: &[u8], i: usize) -> (r: bool) {
        i < data.len() && data.len() - i > 1 && data[i] == 13 && data[i + 1] == 10
    }

    fn ending_length(data: &[u8], i: usize) -> (r: usize) {
        2
    }
}

/// Both kinds of line endings.
pub struct MixedLineEnding;

impl LineEnding for MixedLineEnding {
    open spec fn ending_at(data: Seq<u8>, i: int) -> bool {
        UnixLineEnding::ending_at(data, i) || WindowsLineEnding::ending_at(data, i)
    }

    open spec fn ending_len(data: Seq<u8>, i: int) -> int {
        if UnixLineEnding::ending_at(data, i) {
            1
        } else if WindowsLineEnding::ending_at(data, i) {
            2
        } else {
            1
        }
    }

    proof fn lemma_ending(data: Seq<u8>, i: int) {
    }

    fn is_line_ending(data: &[u8], i: usize) -> (r: bool) {
        if i < data.len() && data[i] == 10 {
            true
        } else if i < data.len() && data.len() - i > 1 && data[i] == 13 && data[i + 1] == 10 {
            true
        } else {
            false
        }
    }

    fn ending_length(data: &[u8], i: usize) -> (r: usize) {
        if i < data.len() && data[i] == 10 {
            1
        } else if i < data.len() && data.len() - i > 1 && data[i] == 13 && data[i + 1] == 10 {
            2
        } else {
            1
        }
    }
}

/// The lines of `data` from a line that starts at `start`, scanning for a
/// line ending from `i`: each line keeps its ending, and what follows the
/// last ending is a last line when it is not empty.
pub open spec fn lines_from<E: LineEnding>(data: Seq<u8>, start: int, i: int) -> Seq<Seq<u8>>
    decreases data.len() - i,
{
    if i < start || start < 0 || i >= data.len() {
        if 0 <= start < data.len() {
            seq![data.subrange(start, data.len() as int)]
        } else {
            Seq::<Seq<u8>>::empty()
        }
    } else if E::ending_at(data, i) {
        proof {
            E::lemma_ending(data, i);
        }
        let e = i + E::ending_len(data, i);
        seq![data.subrange(start, e)] + lines_from::<E>(data, e, e)
    } else {
        lines_from::<E>(data, start, i + 1)
    }
}

/// The lines of `data`; empty data gives one empty line.
pub open spec fn split_lines<E: LineEnding>(data: Seq<u8>) -> Seq<Seq<u8>> {
    if data.len() == 0 {
        seq![Seq::<u8>::empty()]
    } else {
        lines_from::<E>(data, 0, 0)
    }
}

/// Ranges of the lines of `data` for line endings `E`.
fn line_ranges<E: LineEnding>(data: &[u8]) -> (r: Vec<(usize, usize)>)
    ensures
        forall|k: int| 0 <= k < r.len() ==> (#[trigger] r@[k]).0 <= r@[k].1 <= data.len(),
        r@.map_values(|p: (usize, usize)| data@.subrange(p.0 as int, p.1 as int)) == split_lines::<E>(data@),
{
    let ghost d = data@;
    let total = data.len();
    let mut ranges: Vec<(usize, usize)> = Vec::new();
    let mut start: usize = 0;
    let mut i: usize = 0;
    assert(ranges@.map_values(|p: (usize, usize)| d.subrange(p.0 as int, p.1 as int)) + lines_from::<E>(d, 0, 0)
        =~= lines_from::<E>(d, 0, 0));
    while i < total
        invariant
            start <= i <= total,
            total == d.len(),
            d == data@,
            forall|k: int| 0 <= k < ranges.len() ==> (#[trigger] ranges@[k]).0 <= ranges@[k].1 <= total,
            ranges@.map_values(|p: (usize, usize)| d.subrange(p.0 as int, p.1 as int)) + lines_from::<E>(
                d,
                start as int,
                i as int,
            ) == lines_from::<E>(d, 0, 0),
        decreases total - i,
    {
        let ghost before = ranges@.map_values(|p: (usize, usize)| d.subrange(p.0 as int, p.1 as int));
        if E::is_line_ending(data, i) {
            proof {
                E::lemma_ending(d, i as int);
            }
            let len = E::ending_length(data, i);
            let end = i + len;
            ranges.push((start, end));
            assert(ranges@.map_values(|p: (usize, usize)| d.subrange(p.0 as int, p.1 as int)) =~= before.push(
                d.subrange(start as int, end as int),
            ));
            assert(before + lines_from::<E>(d, start as int, i as int) =~= before.push(
                d.subrange(start as int, end as int),
            ) + lines_from::<E>(d, end as int, end as int));
            start = end;
            i = end;
        } else {
            i = i + 1;
        }
    }
    let ghost before = ranges@.map_values(|p: (usize, usize)| d.subrange(p.0 as int, p.1 as int));
    if start < total {
        ranges.push((start, total));
        assert(ranges@.map_values(|p: (usize, usize)| d.subrange(p.0 as int, p.1 as int)) =~= before.push(
            d.subrange(start as int, total as int),
        ));
        assert(before + lines_from::<E>(d, start as int, i as int) =~= before.push(
            d.subrange(start as int, total as int),
        ));
    } else {
        assert(before + lines_from::<E>(d, start as int, i as int) =~= before);
    }
    if ranges.len() == 0 && total == 0 {
        ranges.push((0, 0));
        assert(ranges@[0] == (0usize, 0usize));
        assert(d.subrange(0, 0) =~= Seq::<u8>::empty());
        assert(ranges@.map_values(|p: (usize, usize)| d.subrange(p.0 as int, p.1 as int)) =~= seq![
            Seq::<u8>::empty(),
        ]);
    }
    ranges
}

/// Split data into lines by a kind of line ending; each line keeps its
/// ending, and empty data gives one empty chunk.
pub fn split_by_lines_custom<E: LineEnding>(data: &[u8]) -> (r: Result<ChunkingResult, StorageIOError>)
    ensures
        r matches Ok(res) && result_holds(res, data@, split_lines::<E>(data@)),
{
    let ranges = line_ranges::<E>(data);
    let chunks = chunks_of_ranges(data, &ranges);
    Ok(ChunkingResult { chunks, total_size: data.len() as u64 })
}

/// Split data into lines ending in `\n` or `\r\n`; each line keeps its
/// ending, and empty data gives one empty chunk.
pub fn split_by_lines_impl(data: &[u8]) -> (r: Result<ChunkingResult, StorageIOError>)
    ensures
        r matches Ok(res) && result_holds(res, data@, split_lines::<MixedLineEnding>(data@)),
{
    split_by_lines_custom::<MixedLineEnding>(data)
}

/// A detected kind of line ending.
#[derive(Debug, Clone, Copy, PartialEq, Eq, Structural)]
pub enum LineEndingType {
    Unix,
    Windows,
    Mixed,
}

/// Numbers of Unix and of Windows line endings from `i` on, counted left
/// to right (a `\r\n` is one Windows ending).
pub open spec fn count_endings(data: Seq<u8>, i: int) -> (int, int)
    decreases data.len() - i,
{
    if i < 0 || i >= data.len() {
        (0, 0)
    } else if data[i] == 10 {
        let (u, w) = count_endings(data, i + 1);
        (u + 1, w)
    } else if i + 1 < data.len() && data[i] == 13 && data[i + 1] == 10 {
        let (u, w) = count_endings(data, i + 2);
        (u, w + 1)
    } else {
        count_endings(data, i + 1)
    }
}

/// The kind of line ending that occurs more often; `Mixed` on a tie.
pub open spec fn line_ending_kind(data: Seq<u8>) -> LineEndingType {
    let (u, w) = count_endings(data, 0);
    if u > w {
        LineEndingType::Unix
    } else if w > u {
        LineEndingType::Windows
    } else {
        LineEndingType::Mixed
    }
}

/// A Unix line ending at `k`: a `\n` that does not end a `\r\n`.
pub open spec fn unix_ending_at(d: Seq<u8>, k: int) -> bool {
    0 <= k < d.len() && d[k] == 10 && !(k > 0 && d[k - 1] == 13)
}

/// A Windows line ending at `k`: a `\r` followed by `\n`.
pub open spec fn windows_ending_at(d: Seq<u8>, k: int) -> bool {
    0 <= k && k + 1 < d.len() && d[k] == 13 && d[k + 1] == 10
}

/// Number of positions from `i` on where `d` has a Unix line ending.
pub open spec fn unix_endings_from(d: Seq<u8>, i: int) -> int
    decreases d.len() - i,
{
    if i < 0 || i >= d.len() {
        0
    } else {
        unix_endings_from(d, i + 1) + if unix_ending_at(d, i) { 1int } else { 0int }
    }
}

/// Number of positions from `i` on where `d` has a Windows line ending.
pub open spec fn windows_endings_from(d: Seq<u8>, i: int) -> int
    decreases d.len() - i,
{
    if i < 0 || i >= d.len() {
        0
    } else {
        windows_endings_from(d, i + 1) + if windows_ending_at(d, i) { 1int } else { 0int }
    }
}

proof fn lemma_count_endings(d: Seq<u8>, i: int)
    requires
        0 <= i <= d.len(),
        !(i > 0 && i < d.len() && d[i - 1] == 13 && d[i] == 10),
    ensures
        count_endings(d, i) == (unix_endings_from(d, i), windows_endings_from(d, i)),
    decreases d.len() - i,
{
    if i < d.len() {
        if d[i] == 10 {
            lemma_count_endings(d, i + 1);
        } else if i + 1 < d.len() && d[i] == 13 && d[i + 1] == 10 {
            lemma_count_endings(d, i + 2);
            assert(!unix_ending_at(d, i + 1) && !windows_ending_at(d, i + 1));
            assert(unix_endings_from(d, i + 1) == unix_endings_from(d, i + 2));
            assert(windows_endings_from(d, i + 1) == windows_endings_from(d, i + 2));
        } else {
            lemma_count_endings(d, i + 1);
        }
    }
}

/// The detected kind of line ending is the one that occurs more often,
/// counting each `\r\n` as one Windows ending and every other `\n` as one
/// Unix ending; a tie is `Mixed`.
pub proof fn lemma_line_ending_majority(d: Seq<u8>)
    ensures
        (line_ending_kind(d) == LineEndingType::Unix) == (unix_endings_from(d, 0) > windows_endings_from(d, 0)),
        (line_ending_kind(d) == LineEndingType::Windows) == (windows_endings_from(d, 0) > unix_endings_from(d, 0)),
        (line_ending_kind(d) == LineEndingType::Mixed) == (unix_endings_from(d, 0) == windows_endings_from(d, 0)),
{
    lemma_count_endings(d, 0);
}

/// Detect the kind of line ending of the data.
pub fn detect_line_ending(data: &[u8]) -> (r: LineEndingType)
    ensures
        r == line_ending_kind(data@),
{
    let ghost d = data@;
    let n = data.len();
    let mut unix_count: usize = 0;
    let mut windows_count: usize = 0;
    let mut i: usize = 0;
    while i < n
        invariant
            i <= n,
            n == d.len(),
            d == data@,
            unix_count + windows_count <= i,
            count_endings(d, 0) == ({
                let (u, w) = count_endings(d, i as int);
                (u + unix_count, w + windows_count)
            }),
        decreases n - i,
    {
        if data[i] == 10 {
            unix_count = unix_count + 1;
            i = i + 1;
        } else if n - i > 1 && data[i] == 13 && data[i + 1] == 10 {
            windows_count = windows_count + 1;
            i = i + 2;
        } else {
            i = i + 1;
        }
    }
    if unix_count > windows_count {
        LineEndingType::Unix
    } else if windows_count > unix_count {
        LineEndingType::Windows
    } else {
        LineEndingType::Mixed
    }
}

impl LineEndingType {
    /// Split data by this kind of line ending.
    pub fn split_by_lines(&self, data: &[u8]) -> (r: Result<ChunkingResult, StorageIOError>)
        ensures
            r matches Ok(res) && result_holds(
                res,
                data@,
                match self {
                    LineEndingType::Unix => split_lines::<UnixLineEnding>(data@),
                    LineEndingType::Windows => split_lines::<WindowsLineEnding>(data@),
                    LineEndingType::Mixed => split_lines::<MixedLineEnding>(data@),
                },
            ),
    {
        match self {
            LineEndingType::Unix => split_by_lines_custom::<UnixLineEnding>(data),
            LineEndingType::Windows => split_by_lines_custom::<WindowsLineEnding>(data),
            LineEndingType::Mixed => split_by_lines_custom::<MixedLineEnding>(data),
        }
    }
}

proof fn lemma_lines_from<E: LineEnding>(data: Seq<u8>, start: int, i: int)
    requires
        0 <= start <= i <= data.len(),
    ensures
        concat(lines_from::<E>(data, start, i)) == data.skip(start),
    decreases data.len() - i,
{
    if i >= data.len() {
        if start < data.len() {
            lemma_concat_front(data.subrange(start, data.len() as int), Seq::<Seq<u8>>::empty());
            assert(seq![data.subrange(start, data.len() as int)] + Seq::<Seq<u8>>::empty() =~= seq![
                data.subrange(start, data.len() as int),
            ]);
            assert(data.subrange(start, data.len() as int) + Seq::<u8>::empty() =~= data.skip(start));
        } else {
            assert(data.skip(start) =~= Seq::<u8>::empty());
        }
    } else if E::ending_at(data, i) {
        E::lemma_ending(data, i);
        let e = i + E::ending_len(data, i);
        lemma_lines_from::<E>(data, e, e);
        lemma_concat_front(data.subrange(start, e), lines_from::<E>(data, e, e));
        assert(data.subrange(start, e) + data.skip(e) =~= data.skip(start));
    } else {
        lemma_lines_from::<E>(data, start, i + 1);
    }
}

/// Lines put back together give the data.
pub proof fn lemma_split_lines<E: LineEnding>(data: Seq<u8>)
    ensures
        concat(split_lines::<E>(data)) == data,
{
    if data.len() == 0 {
        lemma_concat_front(Seq::<u8>::empty(), Seq::<Seq<u8>>::empty());
        assert(seq![Seq::<u8>::empty()] + Seq::<Seq<u8>>::empty() =~= seq![Seq::<u8>::empty()]);
        assert(Seq::<u8>::empty() + Seq::<u8>::empty() =~= data);
    } else {
        lemma_lines_from::<E>(data, 0, 0);
        assert(data.skip(0) =~= data);
    }
}

} // verus!
