//! The short text forms of mappings, `"sheet:/path" => "id/ver"` and the
//! local forms with `=>` and `==`, read into mappings; a text that does not
//! read gives a message saying why.
use vstd::prelude::*;
use crate::index_source::IndexSource;
use crate::mapping::{local_mapping_valid, ForwardView, LocalMapping, LocalMappingForward, LocalMappingView, MappingBuf, MappingBufView};
use crate::mapping::parse::{find_op, find_op_range, lemma_find_op_bounds, strip_quotes, strip_quotes_range};
use crate::text::{chars_of, is_digit, join_chars, join_with, split_chars, split_on, string_of, strings_of, strings_view, trim, trim_range};

verus! {

/// The pieces between the non-overlapping occurrences of the two-character
/// operator `ab`, found from the left, as `str::split` gives them.
pub open spec fn split_op(s: Seq<char>, a: char, b: char) -> Seq<Seq<char>>
    decreases s.len(),
{
    match find_op(s, a, b) {
        Some(p) => {
            proof {
                lemma_find_op_bounds(s, a, b);
            }
            seq![s.take(p)] + split_op(s.skip(p + 2), a, b)
        },
        None => seq![s],
    }
}

/// Whether the text holds the operator `ab`.
pub open spec fn has_op(s: Seq<char>, a: char, b: char) -> bool {
    find_op(s, a, b) is Some
}

/// A part of a macro input: trimmed, surrounding `"` removed, trimmed.
pub open spec fn clean(s: Seq<char>) -> Seq<char> {
    trim(strip_quotes(trim(s)))
}

/// Why integer text does not read, as `ParseIntError` says it.
#[derive(PartialEq, Eq, Structural, Clone, Copy, Debug)]
pub enum IntErrorKind {
    Empty,
    InvalidDigit,
    PosOverflow,
}

/// The message of an integer parsing error.
pub open spec fn int_error_message(k: IntErrorKind) -> Seq<char> {
    match k {
        IntErrorKind::Empty => "cannot parse integer from empty string"@,
        IntErrorKind::InvalidDigit => "invalid digit found in string"@,
        IntErrorKind::PosOverflow => "number too large to fit in target type"@,
    }
}

/// Digits read from the left: the first character that is no digit, or the
/// first digit that takes the value above `max`, stops the reading.
pub open spec fn digits_scan(d: Seq<char>, max: nat) -> Result<nat, IntErrorKind>
    decreases d.len(),
{
    if d.len() == 0 {
        Ok(0)
    } else {
        match digits_scan(d.drop_last(), max) {
            Err(k) => Err(k),
            Ok(v) => if !is_digit(d.last()) {
                Err(IntErrorKind::InvalidDigit)
            } else if v * 10 + ((d.last() as int) - 48) > max {
                Err(IntErrorKind::PosOverflow)
            } else {
                Ok((v * 10 + ((d.last() as int) - 48)) as nat)
            },
        }
    }
}

/// Unsigned integer text read as `str::parse` reads it for an unsigned
/// type of maximum `max`: an optional `+`, then digits.
pub open spec fn int_parse(s: Seq<char>, max: nat) -> Result<nat, IntErrorKind> {
    if s.len() == 0 {
        Err(IntErrorKind::Empty)
    } else if s[0] == '+' {
        if s.len() == 1 {
            Err(IntErrorKind::InvalidDigit)
        } else {
            digits_scan(s.drop_first(), max)
        }
    } else {
        digits_scan(s, max)
    }
}

/// Reads `v[lo..hi]` as an unsigned integer of at most `max`.
fn int_parse_range(v: &Vec<char>, lo: usize, hi: usize, max: u64) -> (r: Result<u64, IntErrorKind>)
    requires
        lo <= hi <= v.len(),
    ensures
        match int_parse(v@.subrange(lo as int, hi as int), max as nat) {
            Ok(n) => r == Ok::<u64, IntErrorKind>(n as u64),
            Err(k) => r == Err::<u64, IntErrorKind>(k),
        },
{
    let ghost s = v@.subrange(lo as int, hi as int);
    if lo == hi {
        return Err(IntErrorKind::Empty);
    }
    let start = if v[lo] == '+' {
        if hi - lo == 1 {
            return Err(IntErrorKind::InvalidDigit);
        }
        lo + 1
    } else {
        lo
    };
    let ghost d = v@.subrange(start as int, hi as int);
    assert(d =~= (if s[0] == '+' { s.drop_first() } else { s }));
    let mut acc: u64 = 0;
    let mut i = start;
    while i < hi
        invariant
            start <= i <= hi <= v.len(),
            lo < hi,
            s == v@.subrange(lo as int, hi as int),
            d == v@.subrange(start as int, hi as int),
            d == (if s[0] == '+' { s.drop_first() } else { s }),
            s[0] == '+' ==> s.len() > 1,
            digits_scan(d.take(i - start), max as nat) == Ok::<nat, IntErrorKind>(acc as nat),
            acc <= max,
        decreases hi - i,
    {
        let c = v[i];
        let ghost t = d.take(i - start + 1);
        assert(t.drop_last() =~= d.take(i - start));
        assert(t.last() == c);
        if !('0' <= c && c <= '9') {
            proof {
                assert(!is_digit(t.last()));
                assert(digits_scan(t, max as nat) == Err::<nat, IntErrorKind>(IntErrorKind::InvalidDigit));
                lemma_scan_prefix(d, i - start + 1, max as nat);
            }
            return Err(IntErrorKind::InvalidDigit);
        }
        let x: u32 = c as u32;
        let dg: u64 = (x - 48) as u64;
        if dg > max || acc > (max - dg) / 10 {
            proof {
                assert(acc * 10 + dg > max) by (nonlinear_arith)
                    requires
                        dg > max || acc > (max - dg) / 10,
                        dg < 10,
                ;
                assert(is_digit(t.last()));
                assert(digits_scan(t, max as nat) == Err::<nat, IntErrorKind>(IntErrorKind::PosOverflow));
                lemma_scan_prefix(d, i - start + 1, max as nat);
            }
            return Err(IntErrorKind::PosOverflow);
        }
        proof {
            assert(acc * 10 + dg <= max) by (nonlinear_arith)
                requires
                    acc <= (max - dg) / 10,
                    dg <= max,
            ;
        }
        acc = acc * 10 + dg;
        i = i + 1;
    }
    assert(d.take(hi - start) =~= d);
    Ok(acc)
}

/// Once the reading of a prefix stops, the reading of the whole stops the
/// same way.
proof fn lemma_scan_prefix(d: Seq<char>, i: int, max: nat)
    requires
        0 <= i <= d.len(),
        digits_scan(d.take(i), max) is Err,
    ensures
        digits_scan(d, max) == digits_scan(d.take(i), max),
    decreases d.len() - i,
{
    if i < d.len() {
        let t = d.drop_last();
        assert(t.take(i) =~= d.take(i));
        lemma_scan_prefix(t, i, max);
    } else {
        assert(d.take(i) =~= d);
    }
}

/// Ranges of the pieces of `v[lo..hi]` between occurrences of `ab`.
fn split_op_range(v: &Vec<char>, lo: usize, hi: usize, a: char, b: char) -> (r: Vec<(usize, usize)>)
    requires
        lo <= hi <= v.len(),
    ensures
        r@.len() == split_op(v@.subrange(lo as int, hi as int), a, b).len(),
        forall|k: int|
            0 <= k < r@.len() ==> r@[k].0 <= r@[k].1 <= v.len() && v@.subrange(
                (#[trigger] r@[k]).0 as int,
                r@[k].1 as int,
            ) == split_op(v@.subrange(lo as int, hi as int), a, b)[k],
{
    let ghost whole = split_op(v@.subrange(lo as int, hi as int), a, b);
    let mut out: Vec<(usize, usize)> = Vec::new();
    let mut start = lo;
    loop
        invariant
            lo <= start <= hi,
            hi <= v.len(),
            whole == split_op(v@.subrange(lo as int, hi as int), a, b),
            whole == out@.map_values(|p: (usize, usize)| v@.subrange(p.0 as int, p.1 as int)) + split_op(
                v@.subrange(start as int, hi as int),
                a,
                b,
            ),
            forall|k: int| 0 <= k < out@.len() ==> (#[trigger] out@[k]).0 <= out@[k].1 <= v.len(),
        decreases hi - start,
    {
        let ghost rest = v@.subrange(start as int, hi as int);
        let ghost before = out@.map_values(|p: (usize, usize)| v@.subrange(p.0 as int, p.1 as int));
        match find_op_range(v, start, hi, a, b) {
            Some(p) => {
                proof {
                    lemma_find_op_bounds(rest, a, b);
                }
                out.push((start, start + p));
                assert(rest.take(p as int) =~= v@.subrange(start as int, start + p));
                assert(rest.skip(p + 2) =~= v@.subrange(start + p + 2, hi as int));
                assert(out@.map_values(|q: (usize, usize)| v@.subrange(q.0 as int, q.1 as int)) =~= before.push(
                    rest.take(p as int),
                ));
                assert(before + split_op(rest, a, b) =~= before.push(rest.take(p as int)) + split_op(
                    rest.skip(p + 2),
                    a,
                    b,
                ));
                start = start + p + 2;
            },
            None => {
                out.push((start, hi));
                assert(out@.map_values(|q: (usize, usize)| v@.subrange(q.0 as int, q.1 as int)) =~= before.push(
                    rest,
                ));
                assert(before + split_op(rest, a, b) =~= before.push(rest));
                let ghost mv = out@.map_values(|q: (usize, usize)| v@.subrange(q.0 as int, q.1 as int));
                assert(whole == mv);
                assert forall|k: int| 0 <= k < out@.len() implies v@.subrange(
                    (#[trigger] out@[k]).0 as int,
                    out@[k].1 as int,
                ) == whole[k] by {
                    assert(mv[k] == v@.subrange(out@[k].0 as int, out@[k].1 as int));
                }
                return out;
            },
        }
    }
}

/// Bounds of the cleaned part `v[lo..hi]`.
fn clean_range(v: &Vec<char>, lo: usize, hi: usize) -> (r: (usize, usize))
    requires
        lo <= hi <= v.len(),
    ensures
        lo <= r.0 <= r.1 <= hi,
        v@.subrange(r.0 as int, r.1 as int) == clean(v@.subrange(lo as int, hi as int)),
{
    let (a, b) = trim_range(v, lo, hi);
    let (c, d) = strip_quotes_range(v, a, b);
    trim_range(v, c, d)
}

/// The characters of `v[lo..hi]` as a string.
fn range_string(v: &Vec<char>, lo: usize, hi: usize) -> (r: String)
    requires
        lo <= hi <= v.len(),
    ensures
        r@ == v@.subrange(lo as int, hi as int),
{
    let mut out: Vec<char> = Vec::new();
    let mut i = lo;
    while i < hi
        invariant
            lo <= i <= hi <= v.len(),
            out@ == v@.subrange(lo as int, i as int),
        decreases hi - i,
    {
        out.push(v[i]);
        assert(out@ =~= v@.subrange(lo as int, i + 1));
        i = i + 1;
    }
    string_of(out.as_slice())
}

/// A message: the given text followed by the input.
fn message_with(text: &str, input: &str) -> (r: String)
    ensures
        r@ == text@ + input@,
{
    let mut out = chars_of(text);
    let mut rest = chars_of(input);
    out.append(&mut rest);
    string_of(out.as_slice())
}

/// What a sheet path `sheet:/path` reads as: the sheet name and the nodes
/// of the path.
pub open spec fn sheet_path_spec(input: Seq<char>) -> Result<(Seq<char>, Seq<Seq<char>>), Seq<char>> {
    let parts = split_op(input, ':', '/');
    if parts.len() != 2 {
        Err("Invalid sheet path syntax. Expected: sheet:/path, got: "@ + input)
    } else if parts[1].len() == 0 {
        Err("Path cannot be empty"@)
    } else {
        Ok((parts[0], split_on(parts[1], '/')))
    }
}

/// Reads a sheet path `sheet:/path`.
pub fn parse_sheet_path(input: &str) -> (r: Result<(String, Vec<String>), String>)
    ensures
        match sheet_path_spec(input@) {
            Ok((sheet, nodes)) => r matches Ok((s, p)) && s@ == sheet && strings_view(p@) == nodes,
            Err(m) => r matches Err(e) && e@ == m,
        },
{
    let v = chars_of(input);
    assert(v@.subrange(0, v@.len() as int) =~= input@);
    let parts = split_op_range(&v, 0, v.len(), ':', '/');
    if parts.len() != 2 {
        return Err(message_with("Invalid sheet path syntax. Expected: sheet:/path, got: ", input));
    }
    let (s0, e0) = parts[0];
    let (s1, e1) = parts[1];
    assert(v@.subrange(s0 as int, e0 as int) == split_op(input@, ':', '/')[0]);
    assert(v@.subrange(s1 as int, e1 as int) == split_op(input@, ':', '/')[1]);
    if s1 == e1 {
        return Err("Path cannot be empty".to_owned());
    }
    let sheet = range_string(&v, s0, e0);
    let pieces = split_chars(&v, s1, e1, '/');
    let nodes = strings_of(&pieces);
    Ok((sheet, nodes))
}

/// What id and version text `id/ver` (`~id/ver` for a local index) reads
/// as: remote or not, the id and the version.
pub open spec fn id_version_spec(input: Seq<char>) -> Result<(bool, u32, u16), Seq<char>> {
    let t = trim(input);
    let remote = !(t.len() > 0 && t[0] == '~');
    let id_part = if remote { t } else { t.drop_first() };
    let parts = split_on(id_part, '/');
    if parts.len() != 2 {
        Err("Invalid id/version syntax. Expected: id/ver or ~id/ver, got: "@ + input)
    } else if trim(parts[0]).len() == 0 {
        Err("ID cannot be empty"@)
    } else if trim(parts[1]).len() == 0 {
        Err("Version cannot be empty"@)
    } else {
        match int_parse(trim(parts[0]), u32::MAX as nat) {
            Err(k) => Err("Failed to parse id as u32: "@ + int_error_message(k)),
            Ok(id) => match int_parse(trim(parts[1]), u16::MAX as nat) {
                Err(k) => Err("Failed to parse version as u16: "@ + int_error_message(k)),
                Ok(ver) => Ok((remote, id as u32, ver as u16)),
            },
        }
    }
}

/// The message of an integer parsing error.
fn int_error_text(k: IntErrorKind) -> (r: &'static str)
    ensures
        r@ == int_error_message(k),
{
    match k {
        IntErrorKind::Empty => "cannot parse integer from empty string",
        IntErrorKind::InvalidDigit => "invalid digit found in string",
        IntErrorKind::PosOverflow => "number too large to fit in target type",
    }
}

/// Reads id and version text `id/ver`, or `~id/ver` for a local index.
pub fn parse_id_version(input: &str) -> (r: Result<(bool, u32, u16), String>)
    ensures
        match id_version_spec(input@) {
            Ok(t) => r == Ok::<(bool, u32, u16), String>(t),
            Err(m) => r matches Err(e) && e@ == m,
        },
{
    let v = chars_of(input);
    let (a, b) = trim_range(&v, 0, v.len());
    assert(v@.subrange(0, v@.len() as int) =~= input@);
    let ghost t = trim(input@);
    let remote = !(a < b && v[a] == '~');
    let start = if remote { a } else { a + 1 };
    assert(v@.subrange(start as int, b as int) =~= (if remote { t } else { t.drop_first() }));
    let pieces = split_chars(&v, start, b, '/');
    if pieces.len() != 2 {
        return Err(message_with("Invalid id/version syntax. Expected: id/ver or ~id/ver, got: ", input));
    }
    let ghost parts = split_on(v@.subrange(start as int, b as int), '/');
    assert(pieces@[0]@ == parts[0] && pieces@[1]@ == parts[1]);
    let (i0, i1) = trim_range(&pieces[0], 0, pieces[0].len());
    assert(pieces@[0]@.subrange(0, pieces@[0]@.len() as int) =~= parts[0]);
    if i0 == i1 {
        return Err("ID cannot be empty".to_owned());
    }
    let (j0, j1) = trim_range(&pieces[1], 0, pieces[1].len());
    assert(pieces@[1]@.subrange(0, pieces@[1]@.len() as int) =~= parts[1]);
    if j0 == j1 {
        return Err("Version cannot be empty".to_owned());
    }
    let id = match int_parse_range(&pieces[0], i0, i1, 0xffff_ffff) {
        Ok(n) => n as u32,
        Err(k) => {
            return Err(message_with("Failed to parse id as u32: ", int_error_text(k)));
        },
    };
    let ver = match int_parse_range(&pieces[1], j0, j1, 0xffff) {
        Ok(n) => n as u16,
        Err(k) => {
            return Err(message_with("Failed to parse version as u16: ", int_error_text(k)));
        },
    };
    Ok((remote, id, ver))
}

/// The nodes of a path: its pieces between `/`, each trimmed.
pub open spec fn path_string_nodes(input: Seq<char>) -> Seq<Seq<char>> {
    split_on(input, '/').map_values(|p: Seq<char>| trim(p))
}

/// Reads a path into its nodes: the pieces between `/`, each trimmed.
pub fn parse_path_string(input: &str) -> (r: Vec<String>)
    ensures
        strings_view(r@) == path_string_nodes(input@),
{
    let v = chars_of(input);
    assert(v@.subrange(0, v@.len() as int) =~= input@);
    let pieces = split_chars(&v, 0, v.len(), '/');
    let ghost ps = pieces@.map_values(|x: Vec<char>| x@);
    let mut out: Vec<String> = Vec::new();
    let mut i: usize = 0;
    while i < pieces.len()
        invariant
            0 <= i <= pieces.len(),
            ps == pieces@.map_values(|x: Vec<char>| x@),
            ps == split_on(input@, '/'),
            strings_view(out@) == ps.take(i as int).map_values(|p: Seq<char>| trim(p)),
        decreases pieces.len() - i,
    {
        let (a, b) = trim_range(&pieces[i], 0, pieces[i].len());
        assert(pieces@[i as int]@.subrange(0, pieces@[i as int]@.len() as int) =~= ps[i as int]);
        let s = range_string(&pieces[i], a, b);
        let ghost before = out@;
        out.push(s);
        assert(strings_view(out@) =~= strings_view(before).push(s@));
        assert(ps.take(i + 1).map_values(|p: Seq<char>| trim(p)) =~= ps.take(i as int).map_values(
            |p: Seq<char>| trim(p),
        ).push(trim(ps[i as int])));
        i = i + 1;
    }
    assert(ps.take(pieces.len() as int) =~= ps);
    out
}

/// The message for a sheet prefix in a local mapping.
pub open spec fn msg_sheet_prefix() -> Seq<char> {
    "local_mapping is not related to sheets. Do not use 'sheet:/' prefix."@
}

/// The message for `=>` and `==` in no readable order.
pub open spec fn msg_ambiguous() -> Seq<char> {
    "Ambiguous forward direction. Use either '==' for version or '=>' for ref, or use 'path' => 'id/ver' == 'ver2' syntax."@
}

/// The message for more than one `==`.
pub open spec fn msg_equal_syntax() -> Seq<char> {
    "Invalid local_mapping syntax with '=='. Expected: local_mapping!(\"path\" == \"id/ver\")"@
}

/// The message for a local mapping of no known form.
pub open spec fn msg_local_syntax() -> Seq<char> {
    "Invalid local_mapping syntax. Expected: local_mapping!(\"path\" => \"id/ver\") or local_mapping!(\"path\" == \"id/ver\") or local_mapping!(\"path\" => \"id/ver\" => \"ref\") or local_mapping!(\"path\" => \"id/ver\" => \"ver2\") or local_mapping!(\"path\" => \"id/ver\" == \"ver2\")"@
}

/// The parts of a local mapping text: the path, remote or not, the id, the
/// version, and what the forms with a third part add.
#[derive(Debug, Clone)]
pub enum LocalMappingParts {
    /// `"path" => "id/ver"`: follow the latest version.
    Latest(String, bool, u32, u16),
    /// `"path" == "id/ver"`: keep this version.
    Version(String, bool, u32, u16),
    /// `"path" => "id/ver" => "ref"`: follow the named sheet.
    WithRef(String, bool, u32, u16, String),
    /// `"path" => "id/ver" => "ver2"` or `"path" => "id/ver" == "ver2"`:
    /// point to version `ver2`.
    VersionForward(String, bool, u32, u16, u16),
}

/// Model of the parts of a local mapping text.
pub enum PartsView {
    Latest(Seq<char>, bool, u32, u16),
    Version(Seq<char>, bool, u32, u16),
    WithRef(Seq<char>, bool, u32, u16, Seq<char>),
    VersionForward(Seq<char>, bool, u32, u16, u16),
}

impl View for LocalMappingParts {
    type V = PartsView;

    open spec fn view(&self) -> PartsView {
        match self {
            LocalMappingParts::Latest(p, r, i, v) => PartsView::Latest(p@, *r, *i, *v),
            LocalMappingParts::Version(p, r, i, v) => PartsView::Version(p@, *r, *i, *v),
            LocalMappingParts::WithRef(p, r, i, v, n) => PartsView::WithRef(p@, *r, *i, *v, n@),
            LocalMappingParts::VersionForward(p, r, i, v, t) => PartsView::VersionForward(p@, *r, *i, *v, *t),
        }
    }
}

/// The form `"path" => "id/ver" == "ver2"`: one `=>`, one `==`, the `==`
/// after the `=>`.
pub open spec fn is_arrow_equal_form(s: Seq<char>) -> bool {
    &&& has_op(s, '=', '>')
    &&& has_op(s, '=', '=')
    &&& split_op(s, '=', '>').len() == 2
    &&& split_op(s, '=', '=').len() == 2
    &&& split_op(trim(split_op(s, '=', '>')[1]), '=', '=').len() == 2
}

/// What a local mapping text reads as.
pub open spec fn local_parts_spec(s: Seq<char>) -> Result<PartsView, Seq<char>> {
    if has_op(s, ':', '/') {
        Err(msg_sheet_prefix())
    } else if is_arrow_equal_form(s) {
        let parts = split_op(s, '=', '>');
        let right = split_op(trim(parts[1]), '=', '=');
        match id_version_spec(clean(right[0])) {
            Err(m) => Err(m),
            Ok((remote, id, ver)) => match int_parse(clean(right[1]), u16::MAX as nat) {
                Err(k) => Err("Failed to parse target version as u16: "@ + int_error_message(k)),
                Ok(t) => Ok(PartsView::VersionForward(clean(parts[0]), remote, id, ver, t as u16)),
            },
        }
    } else if has_op(s, '=', '=') && has_op(s, '=', '>') {
        Err(msg_ambiguous())
    } else if has_op(s, '=', '=') {
        let parts = split_op(s, '=', '=');
        if parts.len() != 2 {
            Err(msg_equal_syntax())
        } else {
            match id_version_spec(clean(parts[1])) {
                Err(m) => Err(m),
                Ok((remote, id, ver)) => Ok(PartsView::Version(clean(parts[0]), remote, id, ver)),
            }
        }
    } else {
        let parts = split_op(s, '=', '>');
        if parts.len() == 2 {
            match id_version_spec(clean(parts[1])) {
                Err(m) => Err(m),
                Ok((remote, id, ver)) => Ok(PartsView::Latest(clean(parts[0]), remote, id, ver)),
            }
        } else if parts.len() == 3 {
            match id_version_spec(clean(parts[1])) {
                Err(m) => Err(m),
                Ok((remote, id, ver)) => match int_parse(clean(parts[2]), u16::MAX as nat) {
                    Ok(t) => Ok(PartsView::VersionForward(clean(parts[0]), remote, id, ver, t as u16)),
                    Err(_) => Ok(PartsView::WithRef(clean(parts[0]), remote, id, ver, clean(parts[2]))),
                },
            }
        } else {
            Err(msg_local_syntax())
        }
    }
}

/// Reads the id and version text of the cleaned part `v[lo..hi]`.
fn id_version_of(v: &Vec<char>, lo: usize, hi: usize) -> (r: Result<(bool, u32, u16), String>)
    requires
        lo <= hi <= v.len(),
    ensures
        match id_version_spec(clean(v@.subrange(lo as int, hi as int))) {
            Ok(t) => r == Ok::<(bool, u32, u16), String>(t),
            Err(m) => r matches Err(e) && e@ == m,
        },
{
    let (a, b) = clean_range(v, lo, hi);
    let text = range_string(v, a, b);
    parse_id_version(text.as_str())
}

/// The cleaned part `v[lo..hi]` as a string.
fn clean_string(v: &Vec<char>, lo: usize, hi: usize) -> (r: String)
    requires
        lo <= hi <= v.len(),
    ensures
        r@ == clean(v@.subrange(lo as int, hi as int)),
{
    let (a, b) = clean_range(v, lo, hi);
    range_string(v, a, b)
}

/// Reads the cleaned part `v[lo..hi]` as a `u16`.
fn u16_of(v: &Vec<char>, lo: usize, hi: usize) -> (r: Result<u16, IntErrorKind>)
    requires
        lo <= hi <= v.len(),
    ensures
        match int_parse(clean(v@.subrange(lo as int, hi as int)), u16::MAX as nat) {
            Ok(n) => r == Ok::<u16, IntErrorKind>(n as u16),
            Err(k) => r == Err::<u16, IntErrorKind>(k),
        },
{
    let (a, b) = clean_range(v, lo, hi);
    match int_parse_range(v, a, b, 0xffff) {
        Ok(n) => Ok(n as u16),
        Err(k) => Err(k),
    }
}

/// Whether `v[lo..hi]` holds the operator `ab`.
fn has_op_range(v: &Vec<char>, lo: usize, hi: usize, a: char, b: char) -> (r: bool)
    requires
        lo <= hi <= v.len(),
    ensures
        r == has_op(v@.subrange(lo as int, hi as int), a, b),
{
    find_op_range(v, lo, hi, a, b).is_some()
}

impl LocalMappingParts {
    /// Reads a local mapping text: `"path" => "id/ver"`, `"path" ==
    /// "id/ver"`, `"path" => "id/ver" => "ref"`, `"path" => "id/ver" =>
    /// "ver2"` or `"path" => "id/ver" == "ver2"`.
    pub fn parse(input: &str) -> (r: Result<LocalMappingParts, String>)
        ensures
            match local_parts_spec(input@) {
                Ok(p) => r matches Ok(q) && q@ == p,
                Err(m) => r matches Err(e) && e@ == m,
            },
    {
        let v = chars_of(input);
        let n = v.len();
        assert(v@.subrange(0, n as int) =~= input@);
        if has_op_range(&v, 0, n, ':', '/') {
            return Err(
                "local_mapping is not related to sheets. Do not use 'sheet:/' prefix.".to_owned(),
            );
        }
        let has_arrow = has_op_range(&v, 0, n, '=', '>');
        let has_equal = has_op_range(&v, 0, n, '=', '=');
        if has_arrow && has_equal {
            let arrows = split_op_range(&v, 0, n, '=', '>');
            let equals = split_op_range(&v, 0, n, '=', '=');
            if arrows.len() == 2 && equals.len() == 2 {
                let (l0, l1) = arrows[0];
                let (r0, r1) = arrows[1];
                let (t0, t1) = trim_range(&v, r0, r1);
                let right = split_op_range(&v, t0, t1, '=', '=');
                if right.len() == 2 {
                    let (m0, m1) = right[0];
                    let (w0, w1) = right[1];
                    let (remote, id, ver) = match id_version_of(&v, m0, m1) {
                        Ok(t) => t,
                        Err(e) => {
                            return Err(e);
                        },
                    };
                    let target = match u16_of(&v, w0, w1) {
                        Ok(t) => t,
                        Err(k) => {
                            return Err(message_with("Failed to parse target version as u16: ", int_error_text(k)));
                        },
                    };
                    let left = clean_string(&v, l0, l1);
                    return Ok(LocalMappingParts::VersionForward(left, remote, id, ver, target));
                }
            }
            return Err(
                "Ambiguous forward direction. Use either '==' for version or '=>' for ref, or use 'path' => 'id/ver' == 'ver2' syntax.".to_owned(),
            );
        }
        if has_equal {
            let parts = split_op_range(&v, 0, n, '=', '=');
            if parts.len() != 2 {
                return Err(
                    "Invalid local_mapping syntax with '=='. Expected: local_mapping!(\"path\" == \"id/ver\")".to_owned(),
                );
            }
            let (l0, l1) = parts[0];
            let (r0, r1) = parts[1];
            let (remote, id, ver) = match id_version_of(&v, r0, r1) {
                Ok(t) => t,
                Err(e) => {
                    return Err(e);
                },
            };
            let left = clean_string(&v, l0, l1);
            return Ok(LocalMappingParts::Version(left, remote, id, ver));
        }
        let parts = split_op_range(&v, 0, n, '=', '>');
        if parts.len() == 2 {
            let (l0, l1) = parts[0];
            let (r0, r1) = parts[1];
            let (remote, id, ver) = match id_version_of(&v, r0, r1) {
                Ok(t) => t,
                Err(e) => {
                    return Err(e);
                },
            };
            let left = clean_string(&v, l0, l1);
            Ok(LocalMappingParts::Latest(left, remote, id, ver))
        } else if parts.len() == 3 {
            let (l0, l1) = parts[0];
            let (m0, m1) = parts[1];
            let (r0, r1) = parts[2];
            let (remote, id, ver) = match id_version_of(&v, m0, m1) {
                Ok(t) => t,
                Err(e) => {
                    return Err(e);
                },
            };
            let left = clean_string(&v, l0, l1);
            match u16_of(&v, r0, r1) {
                Ok(target) => Ok(LocalMappingParts::VersionForward(left, remote, id, ver, target)),
                Err(_) => {
                    let name = clean_string(&v, r0, r1);
                    Ok(LocalMappingParts::WithRef(left, remote, id, ver, name))
                },
            }
        } else {
            Err(
                "Invalid local_mapping syntax. Expected: local_mapping!(\"path\" => \"id/ver\") or local_mapping!(\"path\" == \"id/ver\") or local_mapping!(\"path\" => \"id/ver\" => \"ref\") or local_mapping!(\"path\" => \"id/ver\" => \"ver2\") or local_mapping!(\"path\" => \"id/ver\" == \"ver2\")".to_owned(),
            )
        }
    }
}

/// The path text of the parts.
pub open spec fn parts_path(p: PartsView) -> Seq<char> {
    match p {
        PartsView::Latest(path, _, _, _) => path,
        PartsView::Version(path, _, _, _) => path,
        PartsView::WithRef(path, _, _, _, _) => path,
        PartsView::VersionForward(path, _, _, _, _) => path,
    }
}

/// The index source of the parts.
pub open spec fn parts_source(p: PartsView) -> IndexSource {
    match p {
        PartsView::Latest(_, r, i, v) => IndexSource::spec_new(r, i, v),
        PartsView::Version(_, r, i, v) => IndexSource::spec_new(r, i, v),
        PartsView::WithRef(_, r, i, v, _) => IndexSource::spec_new(r, i, v),
        PartsView::VersionForward(_, r, i, v, _) => IndexSource::spec_new(r, i, v),
    }
}

/// The forward direction of the parts.
pub open spec fn parts_forward(p: PartsView) -> ForwardView {
    match p {
        PartsView::Latest(_, _, _, _) => ForwardView::Latest,
        PartsView::Version(_, _, _, v) => ForwardView::Version(v),
        PartsView::WithRef(_, _, _, _, name) => ForwardView::Ref(name),
        PartsView::VersionForward(_, _, _, _, t) => ForwardView::Version(t),
    }
}

/// Reads a local mapping text into a local mapping; inside `Ok`, `None` when
/// the mapping does not fit the sheet format.
pub fn local_mapping(input: &str) -> (r: Result<Option<LocalMapping>, String>)
    ensures
        match local_parts_spec(input@) {
            Err(m) => r matches Err(e) && e@ == m,
            Ok(p) => r matches Ok(o) && (o is Some <==> local_mapping_valid(
                path_string_nodes(parts_path(p)),
                parts_forward(p),
            )) && (o matches Some(m) ==> m@ == (LocalMappingView {
                val: path_string_nodes(parts_path(p)),
                source: parts_source(p),
                forward: parts_forward(p),
            })),
        },
{
    let parts = match LocalMappingParts::parse(input) {
        Ok(p) => p,
        Err(e) => {
            return Err(e);
        },
    };
    match parts {
        LocalMappingParts::Latest(path, remote, id, ver) => {
            let nodes = parse_path_string(path.as_str());
            Ok(LocalMapping::new(nodes, IndexSource::new(remote, id, ver), LocalMappingForward::Latest))
        },
        LocalMappingParts::Version(path, remote, id, ver) => {
            let nodes = parse_path_string(path.as_str());
            Ok(
                LocalMapping::new(
                    nodes,
                    IndexSource::new(remote, id, ver),
                    LocalMappingForward::Version { version: ver },
                ),
            )
        },
        LocalMappingParts::WithRef(path, remote, id, ver, name) => {
            let nodes = parse_path_string(path.as_str());
            Ok(
                LocalMapping::new(
                    nodes,
                    IndexSource::new(remote, id, ver),
                    LocalMappingForward::Ref { sheet_name: name },
                ),
            )
        },
        LocalMappingParts::VersionForward(path, remote, id, ver, target) => {
            let nodes = parse_path_string(path.as_str());
            Ok(
                LocalMapping::new(
                    nodes,
                    IndexSource::new(remote, id, ver),
                    LocalMappingForward::Version { version: target },
                ),
            )
        },
    }
}

/// What a mapping text `"sheet:/path" => "id/ver"` reads as, with the
/// message for a text without exactly one `=>`.
pub open spec fn sheet_mapping_spec(input: Seq<char>, syntax: Seq<char>) -> Result<MappingBufView, Seq<char>> {
    let parts = split_op(input, '=', '>');
    if parts.len() != 2 {
        Err(syntax)
    } else {
        match sheet_path_spec(clean(parts[0])) {
            Err(m) => Err(m),
            Ok((sheet, nodes)) => match id_version_spec(clean(parts[1])) {
                Err(m) => Err(m),
                Ok((remote, id, ver)) => Ok(
                    MappingBufView { sheet_name: sheet, val: nodes, source: IndexSource::spec_new(remote, id, ver) },
                ),
            },
        }
    }
}

/// The message for a `mapping_buf` text of no known form.
pub open spec fn msg_buf_syntax() -> Seq<char> {
    "Invalid mapping_buf syntax. Expected: mapping_buf!(\"sheet:/path\" => \"id/ver\")"@
}

/// The message for a `mapping` text of no known form.
pub open spec fn msg_mapping_syntax() -> Seq<char> {
    "Invalid mapping syntax. Expected: mapping!(\"sheet:/path\" => \"id/ver\")"@
}

/// Reads the two sides of a sheet mapping text.
fn sheet_mapping_parts(input: &str, syntax: &str) -> (r: Result<(String, Vec<String>, IndexSource), String>)
    ensures
        match sheet_mapping_spec(input@, syntax@) {
            Err(m) => r matches Err(e) && e@ == m,
            Ok(b) => r matches Ok((s, p, src)) && s@ == b.sheet_name && strings_view(p@) == b.val && src == b.source,
        },
{
    let v = chars_of(input);
    let n = v.len();
    assert(v@.subrange(0, n as int) =~= input@);
    let parts = split_op_range(&v, 0, n, '=', '>');
    if parts.len() != 2 {
        return Err(syntax.to_owned());
    }
    let (l0, l1) = parts[0];
    let (r0, r1) = parts[1];
    let left = clean_string(&v, l0, l1);
    let (sheet, nodes) = match parse_sheet_path(left.as_str()) {
        Ok(t) => t,
        Err(e) => {
            return Err(e);
        },
    };
    let (remote, id, ver) = match id_version_of(&v, r0, r1) {
        Ok(t) => t,
        Err(e) => {
            return Err(e);
        },
    };
    Ok((sheet, nodes, IndexSource::new(remote, id, ver)))
}

/// Reads `"sheet:/path" => "id/ver"` into a mapping of the sheet.
pub fn mapping_buf(input: &str) -> (r: Result<MappingBuf, String>)
    ensures
        match sheet_mapping_spec(input@, msg_buf_syntax()) {
            Err(m) => r matches Err(e) && e@ == m,
            Ok(b) => r matches Ok(m) && m@ == b,
        },
{
    match sheet_mapping_parts(
        input,
        "Invalid mapping_buf syntax. Expected: mapping_buf!(\"sheet:/path\" => \"id/ver\")",
    ) {
        Ok((sheet, nodes, source)) => Ok(MappingBuf::new(sheet, nodes, source)),
        Err(e) => Err(e),
    }
}

/// Reads `"sheet:/path" => "id/ver"` into the parts of a borrowed mapping:
/// the sheet name, the path text with its nodes joined by `/`, and the
/// index source.
pub fn mapping(input: &str) -> (r: Result<(String, String, IndexSource), String>)
    ensures
        match sheet_mapping_spec(input@, msg_mapping_syntax()) {
            Err(m) => r matches Err(e) && e@ == m,
            Ok(b) => r matches Ok((s, p, src)) && s@ == b.sheet_name && p@ == join_with(b.val, '/') && src == b.source,
        },
{
    match sheet_mapping_parts(input, "Invalid mapping syntax. Expected: mapping!(\"sheet:/path\" => \"id/ver\")") {
        Ok((sheet, nodes, source)) => {
            let j = join_chars(&nodes, '/');
            Ok((sheet, string_of(j.as_slice()), source))
        },
        Err(e) => Err(e),
    }
}

} // verus!
