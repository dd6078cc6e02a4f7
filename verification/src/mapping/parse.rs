//! Parsing local mappings from their text form:
//! `"path" => "source"`, `"path" == "source"`,
//! `"path" => "source" => "sheet"` and `"path" => "source" == "version"`.
use vstd::prelude::*;
use crate::index_source::{index_source_from_text, IndexSource};
use crate::mapping::{local_mapping_valid, nodes_of, path_nodes, ForwardView, LocalMapping, LocalMappingForward, LocalMappingView};
use crate::text::{chars_of, is_whitespace, parse_bounded, parse_unsigned, string_of, trim, trim_range};

verus! {

/// The text is not a valid local mapping.
#[derive(Debug, Clone, Copy, PartialEq, Eq, Structural)]
pub enum ParseMappingError {
    InvalidMapping,
}

/// The text without leading `"` characters.
pub open spec fn strip_quotes_start(s: Seq<char>) -> Seq<char>
    decreases s.len(),
{
    if s.len() > 0 && s[0] == '"' {
        strip_quotes_start(s.drop_first())
    } else {
        s
    }
}

/// The text without trailing `"` characters.
pub open spec fn strip_quotes_end(s: Seq<char>) -> Seq<char>
    decreases s.len(),
{
    if s.len() > 0 && s.last() == '"' {
        strip_quotes_end(s.drop_last())
    } else {
        s
    }
}

/// The text without surrounding `"` characters (`str::trim_matches('"')`).
pub open spec fn strip_quotes(s: Seq<char>) -> Seq<char> {
    strip_quotes_end(strip_quotes_start(s))
}

/// The text with every `"` removed.
pub open spec fn drop_quotes(s: Seq<char>) -> Seq<char>
    decreases s.len(),
{
    if s.len() == 0 {
        s
    } else if s.last() == '"' {
        drop_quotes(s.drop_last())
    } else {
        drop_quotes(s.drop_last()).push(s.last())
    }
}

/// A part of the text form: trimmed, every `"` removed, trimmed again.
pub open spec fn unquote(s: Seq<char>) -> Seq<char> {
    trim(drop_quotes(trim(s)))
}

/// Position of the first occurrence of the two-character operator `ab`.
pub open spec fn find_op(s: Seq<char>, a: char, b: char) -> Option<int>
    decreases s.len(),
{
    if s.len() < 2 {
        None
    } else if s[0] == a && s[1] == b {
        Some(0)
    } else {
        match find_op(s.drop_first(), a, b) {
            Some(k) => Some(k + 1),
            None => None,
        }
    }
}

pub proof fn lemma_find_op_bounds(s: Seq<char>, a: char, b: char)
    ensures
        find_op(s, a, b) matches Some(p) ==> 0 <= p && p + 2 <= s.len() && s[p] == a && s[p + 1] == b,
    decreases s.len(),
{
    if s.len() >= 2 && !(s[0] == a && s[1] == b) {
        lemma_find_op_bounds(s.drop_first(), a, b);
    }
}

/// The pieces between successive non-overlapping occurrences of `=>`; a
/// trailing empty piece is not kept.
pub open spec fn split_arrows(s: Seq<char>) -> Seq<Seq<char>>
    decreases s.len(),
{
    match find_op(s, '=', '>') {
        Some(p) => {
            proof {
                lemma_find_op_bounds(s, '=', '>');
            }
            seq![s.take(p)] + split_arrows(s.skip(p + 2))
        },
        None => if s.len() > 0 {
            seq![s]
        } else {
            Seq::<Seq<char>>::empty()
        },
    }
}

/// A mapping with the given parts, when the source and the version read.
pub open spec fn versioned(path: Seq<char>, source: Seq<char>, version: Seq<char>) -> Option<
    LocalMappingView,
> {
    match index_source_from_text(unquote(source)) {
        Err(_) => None,
        Ok(src) => match parse_bounded(unquote(version), u16::MAX as nat) {
            None => None,
            Some(v) => Some(
                LocalMappingView {
                    val: path_nodes(unquote(path)),
                    source: src,
                    forward: ForwardView::Version(v as u16),
                },
            ),
        },
    }
}

/// The mapping that a text form describes, before the sheet format's length
/// rule is applied.
pub open spec fn mapping_form_spec(text: Seq<char>) -> Option<LocalMappingView> {
    let s = strip_quotes(text);
    let arrow = find_op(s, '=', '>');
    let after = s.skip(arrow->0 + 2);
    if arrow is Some && find_op(after, '=', '=') is Some {
        let e = find_op(after, '=', '=')->0;
        versioned(s.take(arrow->0), after.take(e), after.skip(e + 2))
    } else {
        let parts = split_arrows(s);
        if parts.len() == 1 {
            match find_op(s, '=', '=') {
                None => None,
                Some(e) => match index_source_from_text(unquote(s.skip(e + 2))) {
                    Err(_) => None,
                    Ok(src) => Some(
                        LocalMappingView {
                            val: path_nodes(unquote(s.take(e))),
                            source: src,
                            forward: ForwardView::Version(src.spec_ver()),
                        },
                    ),
                },
            }
        } else if parts.len() == 2 {
            match find_op(parts[1], '=', '=') {
                Some(e) => versioned(parts[0], parts[1].take(e), parts[1].skip(e + 2)),
                None => match index_source_from_text(unquote(parts[1])) {
                    Err(_) => None,
                    Ok(src) => Some(
                        LocalMappingView {
                            val: path_nodes(unquote(parts[0])),
                            source: src,
                            forward: ForwardView::Latest,
                        },
                    ),
                },
            }
        } else if parts.len() == 3 {
            match index_source_from_text(unquote(parts[1])) {
                Err(_) => None,
                Ok(src) => Some(
                    LocalMappingView {
                        val: path_nodes(unquote(parts[0])),
                        source: src,
                        forward: ForwardView::Ref(unquote(parts[2])),
                    },
                ),
            }
        } else {
            None
        }
    }
}

/// The mapping that a text form denotes, if any: the mapping it describes,
/// when that mapping obeys the sheet format's length rule (a joined path of
/// at most 255 bytes, a followed sheet name of at most 255 bytes).
pub open spec fn parse_mapping_spec(text: Seq<char>) -> Option<LocalMappingView> {
    match mapping_form_spec(text) {
        Some(m) => if local_mapping_valid(m.val, m.forward) {
            Some(m)
        } else {
            None
        },
        None => None,
    }
}

/// Bounds of `v[lo..hi]` without surrounding `"` characters.
pub(crate) fn strip_quotes_range(v: &Vec<char>, lo: usize, hi: usize) -> (r: (usize, usize))
    requires
        lo <= hi <= v.len(),
    ensures
        lo <= r.0 <= r.1 <= hi,
        v@.subrange(r.0 as int, r.1 as int) == strip_quotes(v@.subrange(lo as int, hi as int)),
{
    let mut a = lo;
    while a < hi && v[a] == '"'
        invariant
            lo <= a <= hi <= v.len(),
            strip_quotes_start(v@.subrange(lo as int, hi as int)) == strip_quotes_start(
                v@.subrange(a as int, hi as int),
            ),
        decreases hi - a,
    {
        assert(v@.subrange(a as int, hi as int).drop_first() =~= v@.subrange(a + 1, hi as int));
        a = a + 1;
    }
    let mut b = hi;
    while b > a && v[b - 1] == '"'
        invariant
            lo <= a <= b <= hi <= v.len(),
            strip_quotes_end(v@.subrange(a as int, hi as int)) == strip_quotes_end(
                v@.subrange(a as int, b as int),
            ),
        decreases b - a,
    {
        assert(v@.subrange(a as int, b as int).drop_last() =~= v@.subrange(a as int, b - 1));
        b = b - 1;
    }
    (a, b)
}

/// The characters of `v[lo..hi]` with every `"` removed.
fn drop_quotes_range(v: &Vec<char>, lo: usize, hi: usize) -> (r: Vec<char>)
    requires
        lo <= hi <= v.len(),
    ensures
        r@ == drop_quotes(v@.subrange(lo as int, hi as int)),
{
    let mut out: Vec<char> = Vec::new();
    let mut i = lo;
    assert(v@.subrange(lo as int, lo as int) =~= Seq::<char>::empty());
    while i < hi
        invariant
            lo <= i <= hi <= v.len(),
            out@ == drop_quotes(v@.subrange(lo as int, i as int)),
        decreases hi - i,
    {
        assert(v@.subrange(lo as int, i + 1).drop_last() =~= v@.subrange(lo as int, i as int));
        if v[i] != '"' {
            out.push(v[i]);
        }
        i = i + 1;
    }
    out
}

/// A part of the text form: `v[lo..hi]` trimmed, without `"`, trimmed.
fn unquote_range(v: &Vec<char>, lo: usize, hi: usize) -> (r: Vec<char>)
    requires
        lo <= hi <= v.len(),
    ensures
        r@ == unquote(v@.subrange(lo as int, hi as int)),
{
    let (a, b) = trim_range(v, lo, hi);
    let w = drop_quotes_range(v, a, b);
    let (c, d) = trim_range(&w, 0, w.len());
    assert(w@.subrange(0, w.len() as int) =~= w@);
    let mut out: Vec<char> = Vec::new();
    let mut i = c;
    while i < d
        invariant
            c <= i <= d <= w.len(),
            out@ == w@.subrange(c as int, i as int),
        decreases d - i,
    {
        out.push(w[i]);
        assert(out@ =~= w@.subrange(c as int, i + 1));
        i = i + 1;
    }
    out
}

/// Position of the first `ab` in `v[lo..hi]`, relative to `lo`.
pub(crate) fn find_op_range(v: &Vec<char>, lo: usize, hi: usize, a: char, b: char) -> (r: Option<usize>)
    requires
        lo <= hi <= v.len(),
    ensures
        match find_op(v@.subrange(lo as int, hi as int), a, b) {
            Some(p) => r == Some(p as usize),
            None => r is None,
        },
{
    let ghost s = v@.subrange(lo as int, hi as int);
    let mut i = lo;
    assert(s.skip(0) =~= s);
    while i < hi && hi - i >= 2
        invariant
            lo <= i <= hi <= v.len(),
            s == v@.subrange(lo as int, hi as int),
            find_op(s, a, b) == (match find_op(v@.subrange(i as int, hi as int), a, b) {
                Some(k) => Some(k + (i - lo)),
                None => None::<int>,
            }),
        decreases hi - i,
    {
        let ghost t = v@.subrange(i as int, hi as int);
        if v[i] == a && v[i + 1] == b {
            assert(t[0] == a && t[1] == b);
            return Some(i - lo);
        }
        assert(t.drop_first() =~= v@.subrange(i + 1, hi as int));
        i = i + 1;
    }
    None
}

proof fn lemma_ranges_view(v: Seq<char>, out: Seq<(usize, usize)>, whole: Seq<Seq<char>>)
    requires
        whole == out.map_values(|p: (usize, usize)| v.subrange(p.0 as int, p.1 as int)),
    ensures
        out.len() == whole.len(),
        forall|k: int|
            0 <= k < out.len() ==> v.subrange((#[trigger] out[k]).0 as int, out[k].1 as int)
                == whole[k],
{
    assert forall|k: int| 0 <= k < out.len() implies v.subrange(
        (#[trigger] out[k]).0 as int,
        out[k].1 as int,
    ) == whole[k] by {
        assert(whole[k] == v.subrange(out[k].0 as int, out[k].1 as int));
    }
}

/// Ranges of the pieces of `v[lo..hi]` between occurrences of `=>`.
fn split_arrows_range(v: &Vec<char>, lo: usize, hi: usize) -> (r: Vec<(usize, usize)>)
    requires
        lo <= hi <= v.len(),
    ensures
        r@.len() == split_arrows(v@.subrange(lo as int, hi as int)).len(),
        forall|k: int|
            0 <= k < r@.len() ==> r@[k].0 <= r@[k].1 <= v.len() && v@.subrange(
                (#[trigger] r@[k]).0 as int,
                r@[k].1 as int,
            ) == split_arrows(v@.subrange(lo as int, hi as int))[k],
{
    let ghost whole = split_arrows(v@.subrange(lo as int, hi as int));
    let mut out: Vec<(usize, usize)> = Vec::new();
    let mut start = lo;
    loop
        invariant
            lo <= start <= hi,
            hi <= v.len(),
            whole == split_arrows(v@.subrange(lo as int, hi as int)),
            whole == out@.map_values(|p: (usize, usize)| v@.subrange(p.0 as int, p.1 as int))
                + split_arrows(v@.subrange(start as int, hi as int)),
            forall|k: int| 0 <= k < out@.len() ==> (#[trigger] out@[k]).0 <= out@[k].1 <= v.len(),
        decreases hi - start,
    {
        let ghost rest = v@.subrange(start as int, hi as int);
        let ghost before = out@.map_values(|p: (usize, usize)| v@.subrange(p.0 as int, p.1 as int));
        match find_op_range(v, start, hi, '=', '>') {
            Some(p) => {
                proof {
                    lemma_find_op_bounds(rest, '=', '>');
                }
                out.push((start, start + p));
                assert(rest.take(p as int) =~= v@.subrange(start as int, start + p));
                assert(rest.skip(p + 2) =~= v@.subrange(start + p + 2, hi as int));
                assert(out@.map_values(|q: (usize, usize)| v@.subrange(q.0 as int, q.1 as int))
                    =~= before.push(rest.take(p as int)));
                assert(before + split_arrows(rest) =~= before.push(rest.take(p as int))
                    + split_arrows(rest.skip(p + 2)));
                start = start + p + 2;
            },
            None => {
                if start < hi {
                    out.push((start, hi));
                    assert(out@.map_values(|q: (usize, usize)| v@.subrange(q.0 as int, q.1 as int))
                        =~= before.push(rest));
                    assert(before + split_arrows(rest) =~= before.push(rest));
                } else {
                    assert(before + split_arrows(rest) =~= before);
                }
                proof {
                    lemma_ranges_view(v@, out@, whole);
                }
                return out;
            },
        }
    }
}

/// Unquoted text of `v[lo..hi]` as a string.
fn unquote_string(v: &Vec<char>, lo: usize, hi: usize) -> (r: String)
    requires
        lo <= hi <= v.len(),
    ensures
        r@ == unquote(v@.subrange(lo as int, hi as int)),
{
    let w = unquote_range(v, lo, hi);
    string_of(w.as_slice())
}

/// The index source that the unquoted text of `v[lo..hi]` denotes.
fn source_of(v: &Vec<char>, lo: usize, hi: usize) -> (r: Option<IndexSource>)
    requires
        lo <= hi <= v.len(),
    ensures
        match index_source_from_text(unquote(v@.subrange(lo as int, hi as int))) {
            Ok(s) => r == Some(s),
            Err(_) => r is None,
        },
{
    let w = unquote_range(v, lo, hi);
    assert(w@.subrange(0, w.len() as int) =~= w@);
    match IndexSource::parse_chars(&w, 0, w.len()) {
        Ok(s) => Some(s),
        Err(_) => None,
    }
}

/// The path nodes of the unquoted text of `v[lo..hi]`.
fn nodes_from(v: &Vec<char>, lo: usize, hi: usize) -> (r: Vec<String>)
    requires
        lo <= hi <= v.len(),
    ensures
        crate::text::strings_view(r@) == path_nodes(unquote(v@.subrange(lo as int, hi as int))),
{
    let s = unquote_string(v, lo, hi);
    nodes_of(s.as_str())
}

/// The mapping of `path => source == version` parts, all in `v`.
fn versioned_of(
    v: &Vec<char>,
    pl: usize,
    ph: usize,
    sl: usize,
    sh: usize,
    vl: usize,
    vh: usize,
) -> (r: Option<LocalMapping>)
    requires
        pl <= ph <= v.len(),
        sl <= sh <= v.len(),
        vl <= vh <= v.len(),
    ensures
        match versioned(
            v@.subrange(pl as int, ph as int),
            v@.subrange(sl as int, sh as int),
            v@.subrange(vl as int, vh as int),
        ) {
            Some(m) => r matches Some(x) && x@ == m,
            None => r is None,
        },
{
    let source = match source_of(v, sl, sh) {
        Some(s) => s,
        None => {
            return None;
        },
    };
    let w = unquote_range(v, vl, vh);
    assert(w@.subrange(0, w.len() as int) =~= w@);
    let version = match parse_unsigned(&w, 0, w.len(), 0xFFFF) {
        Some(x) => x as u16,
        None => {
            return None;
        },
    };
    let val = nodes_from(v, pl, ph);
    Some(LocalMapping { val, source, forward: LocalMappingForward::Version { version } })
}

impl LocalMapping {
    /// Parse the text form of a mapping: `"path" => "source"` follows the
    /// latest version, `"path" == "source"` pins the source's version,
    /// `"path" => "source" => "sheet"` follows a reference sheet, and
    /// `"path" => "source" == "version"` pins a version. Quotes are
    /// optional and the path is normalized. A mapping whose joined path or
    /// followed sheet name takes more than 255 bytes is refused, as the
    /// sheet format requires.
    pub fn parse(text: &str) -> (r: Result<Self, ParseMappingError>)
        ensures
            match parse_mapping_spec(text@) {
                Some(m) => r matches Ok(x) && x@ == m,
                None => r == Err::<Self, ParseMappingError>(ParseMappingError::InvalidMapping),
            },
    {
        match Self::parse_form(text) {
            Ok(m) => if m.fits_format() {
                Ok(m)
            } else {
                Err(ParseMappingError::InvalidMapping)
            },
            Err(e) => Err(e),
        }
    }

    /// The mapping that the text form describes, before the length rule.
    #[verifier::rlimit(40)]
    fn parse_form(text: &str) -> (r: Result<Self, ParseMappingError>)
        ensures
            match mapping_form_spec(text@) {
                Some(m) => r matches Ok(x) && x@ == m,
                None => r == Err::<Self, ParseMappingError>(ParseMappingError::InvalidMapping),
            },
    {
        let cs = chars_of(text);
        assert(cs@.subrange(0, cs.len() as int) =~= text@);
        let (lo, hi) = strip_quotes_range(&cs, 0, cs.len());
        let ghost s = cs@.subrange(lo as int, hi as int);
        if let Some(arrow) = find_op_range(&cs, lo, hi, '=', '>') {
            proof {
                lemma_find_op_bounds(s, '=', '>');
            }
            let after = lo + arrow + 2;
            assert(s.skip(arrow + 2) =~= cs@.subrange(after as int, hi as int));
            if let Some(e) = find_op_range(&cs, after, hi, '=', '=') {
                proof {
                    lemma_find_op_bounds(cs@.subrange(after as int, hi as int), '=', '=');
                }
                assert(s.take(arrow as int) =~= cs@.subrange(lo as int, lo + arrow));
                assert(s.skip(arrow + 2).take(e as int) =~= cs@.subrange(after as int, after + e));
                assert(s.skip(arrow + 2).skip(e + 2) =~= cs@.subrange(after + e + 2, hi as int));
                return match versioned_of(&cs, lo, lo + arrow, after, after + e, after + e + 2, hi) {
                    Some(m) => Ok(m),
                    None => Err(ParseMappingError::InvalidMapping),
                };
            }
        }
        let parts = split_arrows_range(&cs, lo, hi);
        if parts.len() == 1 {
            match find_op_range(&cs, lo, hi, '=', '=') {
                None => Err(ParseMappingError::InvalidMapping),
                Some(e) => {
                    proof {
                        lemma_find_op_bounds(s, '=', '=');
                    }
                    assert(s.take(e as int) =~= cs@.subrange(lo as int, lo + e));
                    assert(s.skip(e + 2) =~= cs@.subrange(lo + e + 2, hi as int));
                    match source_of(&cs, lo + e + 2, hi) {
                        None => Err(ParseMappingError::InvalidMapping),
                        Some(source) => {
                            let val = nodes_from(&cs, lo, lo + e);
                            let version = source.version();
                            Ok(LocalMapping { val, source, forward: LocalMappingForward::Version { version } })
                        },
                    }
                },
            }
        } else if parts.len() == 2 {
            let (al, ah) = parts[0];
            let (bl, bh) = parts[1];
            let ghost p1 = cs@.subrange(bl as int, bh as int);
            match find_op_range(&cs, bl, bh, '=', '=') {
                Some(e) => {
                    proof {
                        lemma_find_op_bounds(p1, '=', '=');
                    }
                    assert(p1.take(e as int) =~= cs@.subrange(bl as int, bl + e));
                    assert(p1.skip(e + 2) =~= cs@.subrange(bl + e + 2, bh as int));
                    match versioned_of(&cs, al, ah, bl, bl + e, bl + e + 2, bh) {
                        Some(m) => Ok(m),
                        None => Err(ParseMappingError::InvalidMapping),
                    }
                },
                None => match source_of(&cs, bl, bh) {
                    None => Err(ParseMappingError::InvalidMapping),
                    Some(source) => {
                        let val = nodes_from(&cs, al, ah);
                        Ok(LocalMapping { val, source, forward: LocalMappingForward::Latest })
                    },
                },
            }
        } else if parts.len() == 3 {
            let (al, ah) = parts[0];
            let (bl, bh) = parts[1];
            let (cl, ch) = parts[2];
            match source_of(&cs, bl, bh) {
                None => Err(ParseMappingError::InvalidMapping),
                Some(source) => {
                    let val = nodes_from(&cs, al, ah);
                    let sheet_name = unquote_string(&cs, cl, ch);
                    Ok(LocalMapping { val, source, forward: LocalMappingForward::Ref { sheet_name } })
                },
            }
        } else {
            Err(ParseMappingError::InvalidMapping)
        }
    }
}

impl<'a> TryFrom<&'a str> for LocalMapping {
    type Error = ParseMappingError;

    /// Parse the text form of a mapping (see `LocalMapping::parse`).
    fn try_from(s: &'a str) -> (r: Result<Self, Self::Error>)
        ensures
            match parse_mapping_spec(s@) {
                Some(m) => r matches Ok(x) && x@ == m,
                None => r == Err::<Self, ParseMappingError>(ParseMappingError::InvalidMapping),
            },
    {
        LocalMapping::parse(s)
    }
}

/// This impl goes with the `TryFrom` impl above, as Verus needs; no spec
/// value of a mapping (it holds a `Vec`) can be written, so the
/// conversion's contract is the one stated on `try_from`.
impl<'a> vstd::std_specs::convert::TryFromSpecImpl<&'a str> for LocalMapping {
    open spec fn obeys_try_from_spec() -> bool {
        false
    }

    open spec fn try_from_spec(v: &'a str) -> Result<Self, ParseMappingError> {
        Err(ParseMappingError::InvalidMapping)
    }
}

} // verus!
