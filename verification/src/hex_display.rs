//! A hex dump of bytes: sixteen bytes a line, each line with its offset,
//! the bytes in hex and their printable characters.
use vstd::prelude::*;
use crate::text::{join_with, string_of};

verus! {

/// The hex digit of a value below sixteen, in lowercase.
pub open spec fn hex_digit(d: nat) -> char {
    if d < 10 {
        ((d + 48) as u8) as char
    } else {
        ((d + 87) as u8) as char
    }
}

/// `n` in hex, left-padded with zeros to at least `w` digits (the empty
/// text for zero with no width), as `{:0w$x}` writes it.
pub open spec fn hex_padded(n: nat, w: nat) -> Seq<char>
    decreases n + w,
{
    if n == 0 && w == 0 {
        Seq::empty()
    } else {
        hex_padded(n / 16, if w > 0 { (w - 1) as nat } else { 0 }).push(hex_digit(n % 16))
    }
}

/// The `s`-th of the sixteen slots of the hex column: the byte in two hex
/// digits (two spaces past the end of the chunk), a space after every slot
/// but the last, and one more after the eighth.
pub open spec fn data_slot(chunk: Seq<u8>, s: int) -> Seq<char> {
    (if s < chunk.len() { hex_padded(chunk[s] as nat, 2) } else { seq![' ', ' '] }) + (if s < 15 {
        seq![' ']
    } else {
        Seq::empty()
    }) + (if s == 7 { seq![' '] } else { Seq::empty() })
}

/// The first `n` slots of the hex column.
pub open spec fn data_slots(chunk: Seq<u8>, n: nat) -> Seq<char>
    decreases n,
{
    if n == 0 {
        Seq::empty()
    } else {
        data_slots(chunk, (n - 1) as nat) + data_slot(chunk, n - 1)
    }
}

/// How a byte shows in the character column: printable ASCII as itself,
/// anything else as `.`.
pub open spec fn shown_char(b: u8) -> char {
    if 32 <= b <= 126 {
        b as char
    } else {
        '.'
    }
}

/// The character column: the chunk's characters padded with spaces to
/// sixteen.
pub open spec fn ascii_column(chunk: Seq<u8>) -> Seq<char> {
    chunk.map_values(|b: u8| shown_char(b)) + Seq::new((16 - chunk.len()) as nat, |i: int| ' ')
}

/// One line of the dump: the offset in at least eight hex digits, two
/// spaces, the hex column, two spaces and the character column between
/// bars.
pub open spec fn hex_line(offset: nat, chunk: Seq<u8>) -> Seq<char> {
    hex_padded(offset, 8) + seq![' ', ' '] + data_slots(chunk, 16) + seq![' ', ' ', '|'] + ascii_column(chunk)
        + seq!['|']
}

/// Number of lines of the dump of `n` bytes.
pub open spec fn line_count(n: nat) -> nat {
    ((n + 15) / 16) as nat
}

/// The lines of the dump, one per sixteen bytes (the last may be shorter).
pub open spec fn hex_lines(b: Seq<u8>) -> Seq<Seq<char>> {
    Seq::new(
        line_count(b.len()),
        |k: int| hex_line((16 * k) as nat, b.subrange(16 * k, if 16 * k + 16 <= b.len() { 16 * k + 16 } else { b.len() as int })),
    )
}

/// The dump: its lines joined with newlines (nothing for no bytes).
pub open spec fn hex_dump(b: Seq<u8>) -> Seq<char> {
    join_with(hex_lines(b), '\n')
}

/// Lines start every sixteen bytes while they are in the data.
proof fn lemma_line_count(n: nat, k: nat)
    requires
        16 * k <= n + 15,
    ensures
        16 * k < n ==> k < line_count(n),
        16 * k >= n ==> k == line_count(n),
{
    let q = line_count(n);
    assert(16 * q <= n + 15 < 16 * q + 16) by (nonlinear_arith)
        requires
            q == (n + 15) / 16,
    ;
    assert(16 * k < n ==> k < q) by (nonlinear_arith)
        requires
            16 * q <= n + 15 < 16 * q + 16,
    ;
    assert(16 * k >= n ==> k == q) by (nonlinear_arith)
        requires
            16 * q <= n + 15 < 16 * q + 16,
            16 * k <= n + 15,
    ;
}

/// The hex digit of a value below sixteen.
fn hex_digit_char(d: usize) -> (r: char)
    requires
        d < 16,
    ensures
        r == hex_digit(d as nat),
{
    if d < 10 {
        let x: u8 = (d + 48) as u8;
        x as char
    } else {
        let x: u8 = (d + 87) as u8;
        x as char
    }
}

/// `n` in hex, left-padded with zeros to at least `w` digits, appended to
/// `out`.
fn push_hex(out: &mut Vec<char>, n: usize, w: usize)
    ensures
        final(out)@ == old(out)@ + hex_padded(n as nat, w as nat),
    decreases n + w,
{
    if n == 0 && w == 0 {
        assert(old(out)@ + hex_padded(0, 0) =~= old(out)@);
        return;
    }
    let nw: usize = if w > 0 { w - 1 } else { 0 };
    push_hex(out, n / 16, nw);
    let d = hex_digit_char(n % 16);
    let ghost mid = out@;
    out.push(d);
    assert(out@ =~= old(out)@ + hex_padded(n as nat, w as nat)) by {
        assert(hex_padded(n as nat, w as nat) == hex_padded((n / 16) as nat, nw as nat).push(hex_digit((n % 16) as nat)));
    }
}

/// Appends the characters of `s`.
fn push_all(out: &mut Vec<char>, s: &[char])
    ensures
        final(out)@ == old(out)@ + s@,
{
    let mut i: usize = 0;
    while i < s.len()
        invariant
            0 <= i <= s.len(),
            out@ == old(out)@ + s@.take(i as int),
        decreases s.len() - i,
    {
        out.push(s[i]);
        assert(s@.take(i + 1) =~= s@.take(i as int).push(s@[i as int]));
        i = i + 1;
    }
    assert(s@.take(s.len() as int) =~= s@);
}

/// The hex-column slots from `a` up to `n` past the end of a chunk of `a`
/// bytes: blanks with their separators.
pub open spec fn pad_slots(a: nat, n: nat) -> Seq<char>
    decreases n,
{
    if n <= a {
        Seq::empty()
    } else {
        pad_slots(a, (n - 1) as nat) + data_slot(Seq::empty(), n - 1)
    }
}

/// The slots past the end of the chunk are blanks.
proof fn lemma_pad_slots(chunk: Seq<u8>, n: nat)
    requires
        chunk.len() <= n,
    ensures
        data_slots(chunk, n) == data_slots(chunk, chunk.len()) + pad_slots(chunk.len(), n),
    decreases n,
{
    if n == chunk.len() {
        assert(data_slots(chunk, n) + pad_slots(chunk.len(), n) =~= data_slots(chunk, n));
    } else {
        lemma_pad_slots(chunk, (n - 1) as nat);
        assert(data_slot(chunk, n - 1) == data_slot(Seq::empty(), n - 1));
        assert(data_slots(chunk, chunk.len()) + pad_slots(chunk.len(), (n - 1) as nat) + data_slot(chunk, n - 1)
            =~= data_slots(chunk, chunk.len()) + pad_slots(chunk.len(), n));
    }
}

/// The offset column: the offset in at least eight hex digits, then two
/// spaces.
fn write_offset(out: &mut Vec<char>, offset: usize)
    ensures
        final(out)@ == old(out)@ + hex_padded(offset as nat, 8) + seq![' ', ' '],
{
    push_hex(out, offset, 8);
    push_all(out, &[' ', ' ']);
}

/// The hex column for the bytes `b[lo..hi]`: each byte in two hex digits,
/// blanks for the missing ones.
fn write_data(out: &mut Vec<char>, b: &[u8], lo: usize, hi: usize)
    requires
        lo <= hi <= b@.len(),
        hi - lo <= 16,
    ensures
        final(out)@ == old(out)@ + data_slots(b@.subrange(lo as int, hi as int), 16),
{
    let ghost chunk = b@.subrange(lo as int, hi as int);
    let ghost start = out@;
    let mut s: usize = 0;
    while s < hi - lo
        invariant
            0 <= s <= hi - lo,
            lo <= hi <= b@.len(),
            hi - lo <= 16,
            chunk == b@.subrange(lo as int, hi as int),
            out@ == start + data_slots(chunk, s as nat),
        decreases hi - lo - s,
    {
        let ghost before = out@;
        push_hex(out, b[lo + s] as usize, 2);
        assert(chunk[s as int] == b@[lo + s]);
        if s < 15 {
            out.push(' ');
        }
        if s == 7 {
            out.push(' ');
        }
        assert(out@ =~= before + data_slot(chunk, s as int));
        s = s + 1;
    }
    if hi - lo < 16 {
        pad_data(out, hi - lo);
    } else {
        assert(pad_slots(16, 16) =~= Seq::<char>::empty());
        assert(out@ =~= start + data_slots(chunk, 16) + pad_slots(16, 16));
    }
    proof {
        lemma_pad_slots(chunk, 16);
    }
    assert(out@ =~= start + data_slots(chunk, 16));
}

/// Blanks for the hex slots from `actual_len` to sixteen.
fn pad_data(out: &mut Vec<char>, actual_len: usize)
    requires
        actual_len <= 16,
    ensures
        final(out)@ == old(out)@ + pad_slots(actual_len as nat, 16),
{
    let ghost start = out@;
    let mut s: usize = actual_len;
    assert(pad_slots(actual_len as nat, actual_len as nat) =~= Seq::<char>::empty());
    while s < 16
        invariant
            actual_len <= s <= 16,
            out@ == start + pad_slots(actual_len as nat, s as nat),
        decreases 16 - s,
    {
        let ghost before = out@;
        push_all(out, &[' ', ' ']);
        if s < 15 {
            out.push(' ');
        }
        if s == 7 {
            out.push(' ');
        }
        assert(out@ =~= before + data_slot(Seq::empty(), s as int));
        s = s + 1;
    }
}

/// The character column for the bytes `b[lo..hi]`, between bars after two
/// spaces.
fn write_ascii(out: &mut Vec<char>, b: &[u8], lo: usize, hi: usize)
    requires
        lo <= hi <= b@.len(),
        hi - lo <= 16,
    ensures
        final(out)@ == old(out)@ + seq![' ', ' ', '|'] + ascii_column(b@.subrange(lo as int, hi as int)) + seq!['|'],
{
    let ghost chunk = b@.subrange(lo as int, hi as int);
    let ghost start = out@;
    push_all(out, &[' ', ' ', '|']);
    let ghost after_bar = out@;
    let mut i: usize = lo;
    while i < hi
        invariant
            lo <= i <= hi <= b@.len(),
            chunk == b@.subrange(lo as int, hi as int),
            out@ == after_bar + chunk.take(i - lo).map_values(|x: u8| shown_char(x)),
        decreases hi - i,
    {
        let x = b[i];
        let c = if 32 <= x && x <= 126 { x as char } else { '.' };
        out.push(c);
        assert(chunk.take(i + 1 - lo) =~= chunk.take(i - lo).push(x));
        assert(chunk.take(i + 1 - lo).map_values(|x: u8| shown_char(x)) =~= chunk.take(i - lo).map_values(
            |x: u8| shown_char(x),
        ).push(c));
        i = i + 1;
    }
    assert(chunk.take(hi - lo) =~= chunk);
    pad_ascii(out, hi - lo);
    out.push('|');
    assert(out@ =~= start + seq![' ', ' ', '|'] + ascii_column(chunk) + seq!['|']);
}

/// Spaces that fill the character column from `actual_len` to sixteen.
fn pad_ascii(out: &mut Vec<char>, actual_len: usize)
    requires
        actual_len <= 16,
    ensures
        final(out)@ == old(out)@ + Seq::new((16 - actual_len) as nat, |i: int| ' '),
{
    let ghost start = out@;
    let mut k: usize = actual_len;
    while k < 16
        invariant
            actual_len <= k <= 16,
            out@ == start + Seq::new((k - actual_len) as nat, |j: int| ' '),
        decreases 16 - k,
    {
        out.push(' ');
        assert(Seq::new((k + 1 - actual_len) as nat, |j: int| ' ') =~= Seq::new((k - actual_len) as nat, |j: int| ' ').push(' '));
        k = k + 1;
    }
}

/// One line of the dump for the bytes `b[lo..hi]` at offset `lo`: offset,
/// hex column and character column (the caller separates lines).
fn draw_range(out: &mut Vec<char>, b: &[u8], lo: usize, hi: usize)
    requires
        lo <= hi <= b@.len(),
        hi - lo <= 16,
    ensures
        final(out)@ == old(out)@ + hex_line(lo as nat, b@.subrange(lo as int, hi as int)),
{
    let ghost start = out@;
    write_offset(out, lo);
    write_data(out, b, lo, hi);
    write_ascii(out, b, lo, hi);
    assert(out@ =~= start + hex_line(lo as nat, b@.subrange(lo as int, hi as int)));
}

/// The hex dump of the bytes.
pub fn hex_display_slice(slice: &[u8]) -> (r: String)
    ensures
        r@ == hex_dump(slice@),
{
    let ghost lines = hex_lines(slice@);
    let mut out: Vec<char> = Vec::new();
    let mut lo: usize = 0;
    let mut k: usize = 0;
    while lo < slice.len()
        invariant
            16 * k <= slice@.len() + 15,
            lo == if 16 * k < slice@.len() { 16 * k } else { slice@.len() as int },
            lines == hex_lines(slice@),
            k <= lines.len(),
            out@ == join_with(lines.take(k as int), '\n'),
        decreases slice.len() - lo,
    {
        proof {
            lemma_line_count(slice@.len(), k as nat);
        }
        let hi: usize = if slice.len() - lo >= 16 { lo + 16 } else { slice.len() };
        let ghost before = out@;
        if k > 0 {
            out.push('\n');
        }
        draw_range(&mut out, slice, lo, hi);
        assert(lines.take(k + 1).drop_last() =~= lines.take(k as int));
        assert(lines[k as int] == hex_line(lo as nat, slice@.subrange(lo as int, hi as int)));
        if k == 0 {
            assert(out@ =~= lines.take(1)[0]);
        } else {
            assert(out@ =~= before + seq!['\n'] + lines[k as int]);
        }
        lo = hi;
        k = k + 1;
    }
    proof {
        lemma_line_count(slice@.len(), k as nat);
    }
    assert(lines.take(k as int) =~= lines);
    string_of(out.as_slice())
}

/// The hex dump of the bytes.
pub fn hex_display_vec(vec: Vec<u8>) -> (r: String)
    ensures
        r@ == hex_dump(vec@),
{
    hex_display_slice(vec.as_slice())
}

} // verus!
