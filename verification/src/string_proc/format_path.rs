//! Normalizing path text into one canonical form with `/` separators.
use vstd::prelude::*;
use vstd::utf8::{decode_utf8, encode_utf8, valid_utf8};
use crate::text::{bytes_of, chars_of, free_of, join_chars, join_with, lemma_split_join, lemma_split_on_nonempty, split_chars, split_on, str_from_utf8, string_of, strings_view};

verus! {

broadcast use vstd::utf8::group_utf8_lib;

/// The steps of path normalization to perform.
#[derive(PartialEq, Eq, Structural, Clone, Copy, Debug)]
pub struct PathFormatConfig {
    pub strip_ansi: bool,
    pub strip_unfriendly_chars: bool,
    pub resolve_parent_dirs: bool,
    pub collapse_consecutive_slashes: bool,
    pub escape_backslashes: bool,
}

impl Default for PathFormatConfig {
    /// Every step on.
    fn default() -> (r: Self)
        ensures
            r.strip_ansi && r.strip_unfriendly_chars && r.resolve_parent_dirs && r.collapse_consecutive_slashes
                && r.escape_backslashes,
    {
        PathFormatConfig {
            strip_ansi: true,
            strip_unfriendly_chars: true,
            resolve_parent_dirs: true,
            collapse_consecutive_slashes: true,
            escape_backslashes: true,
        }
    }
}

/// What `strip_ansi_escapes::strip` gives for the bytes `b`.
pub uninterp spec fn ansi_stripped(b: Seq<u8>) -> Seq<u8>;

/// The bytes without their ANSI escape sequences.
///
/// Calls `strip_ansi_escapes::strip`; the contract names its result.
#[verifier::external_body]
fn strip_ansi(b: &[u8]) -> (r: Vec<u8>)
    ensures
        r@ == ansi_stripped(b@),
{
    strip_ansi_escapes::strip(b)
}

/// An `InvalidData` I/O error, for text that is not UTF-8.
///
/// Calls `std::io::Error::new` with `ErrorKind::InvalidData`; nothing is
/// claimed of the value.
#[verifier::external_body]
fn invalid_data() -> std::io::Error {
    std::io::Error::new(std::io::ErrorKind::InvalidData, "stream did not contain valid UTF-8")
}

/// Backslashes turned into slashes.
pub open spec fn forward_slashes(s: Seq<char>) -> Seq<char> {
    s.map_values(|c: char| if c == '\\' { '/' } else { c })
}

/// A slash that follows a slash is dropped.
pub open spec fn collapsed(s: Seq<char>) -> Seq<char>
    decreases s.len(),
{
    if s.len() == 0 {
        s
    } else {
        let init = collapsed(s.drop_last());
        if s.last() == '/' && init.len() > 0 && init.last() == '/' {
            init
        } else {
            init.push(s.last())
        }
    }
}

/// The characters that do not belong in a path.
pub open spec fn is_unfriendly(c: char) -> bool {
    c == '*' || c == '?' || c == '"' || c == '<' || c == '>' || c == '|'
}

/// The text without the characters that do not belong in a path.
pub open spec fn friendly(s: Seq<char>) -> Seq<char>
    decreases s.len(),
{
    if s.len() == 0 {
        s
    } else if is_unfriendly(s.last()) {
        friendly(s.drop_last())
    } else {
        friendly(s.drop_last()).push(s.last())
    }
}

/// Whether the path starts at the root.
pub open spec fn rooted(s: Seq<char>) -> bool {
    s.len() > 0 && s[0] == '/'
}

/// The path components left after reading the pieces between slashes:
/// empty pieces and `.` are skipped, `..` removes the last name (or, with
/// no name left, the root), any other piece is a name. The flag says
/// whether the root is still there.
pub open spec fn resolve_state(pieces: Seq<Seq<char>>, root: bool) -> (bool, Seq<Seq<char>>)
    decreases pieces.len(),
{
    if pieces.len() == 0 {
        (root, Seq::empty())
    } else {
        let (r, names) = resolve_state(pieces.drop_last(), root);
        let p = pieces.last();
        if p.len() == 0 || p == seq!['.'] {
            (r, names)
        } else if p == seq!['.', '.'] {
            if names.len() > 0 {
                (r, names.drop_last())
            } else {
                (false, names)
            }
        } else {
            (r, names.push(p))
        }
    }
}

/// The path with `.` and `..` resolved without looking at any file system;
/// an empty result is `.`. Components are the pieces between `/` only, as
/// `Path::components` reads them on Unix; a `\` is part of a component
/// here, and Windows drive prefixes are not read (on Windows `\` also
/// separates components, unless backslashes were turned into slashes
/// first).
pub open spec fn resolved(s: Seq<char>) -> Seq<char> {
    let (root, names) = resolve_state(split_on(s, '/'), rooted(s));
    if root {
        seq!['/'] + join_with(names, '/')
    } else if names.len() == 0 {
        seq!['.']
    } else {
        join_with(names, '/')
    }
}

/// The normalized form of the path text `s`, whose input text ended in a
/// slash when `trailing` is set.
pub open spec fn formatted(s: Seq<char>, trailing: bool, config: PathFormatConfig) -> Seq<char> {
    let a = if config.escape_backslashes { forward_slashes(s) } else { s };
    let b = if config.collapse_consecutive_slashes { collapsed(a) } else { a };
    let c = if config.strip_unfriendly_chars { friendly(b) } else { b };
    let r = if config.resolve_parent_dirs { resolved(c) } else { c };
    let d = if config.escape_backslashes { forward_slashes(r) } else { r };
    let e = if trailing && !(d.len() > 0 && d.last() == '/') { d.push('/') } else { d };
    if e == seq!['.', '/'] { Seq::empty() } else { e }
}

/// The text holds none of `* ? " < > |`.
pub open spec fn no_unfriendly_chars(s: Seq<char>) -> bool {
    forall|j: int|
        0 <= j < s.len() ==> #[trigger] s[j] != '*' && s[j] != '?' && s[j] != '"' && s[j] != '<' && s[j] != '>'
            && s[j] != '|'
}

proof fn lemma_friendly_clean(s: Seq<char>)
    ensures
        no_unfriendly_chars(friendly(s)),
    decreases s.len(),
{
    if s.len() > 0 {
        lemma_friendly_clean(s.drop_last());
        let f = friendly(s.drop_last());
        if !is_unfriendly(s.last()) {
            assert forall|j: int| 0 <= j < f.push(s.last()).len() implies #[trigger] f.push(s.last())[j] != '*'
                && f.push(s.last())[j] != '?' && f.push(s.last())[j] != '"' && f.push(s.last())[j] != '<'
                && f.push(s.last())[j] != '>' && f.push(s.last())[j] != '|' by {
                if j < f.len() {
                    assert(f.push(s.last())[j] == f[j]);
                }
            }
        }
    }
}

proof fn lemma_forward_slashes_clean(s: Seq<char>)
    requires
        no_unfriendly_chars(s),
    ensures
        no_unfriendly_chars(forward_slashes(s)),
{
    let f = forward_slashes(s);
    assert forall|j: int| 0 <= j < f.len() implies #[trigger] f[j] != '*' && f[j] != '?' && f[j] != '"' && f[j]
        != '<' && f[j] != '>' && f[j] != '|' by {
        assert(f[j] == (if s[j] == '\\' { '/' } else { s[j] }));
    }
}

proof fn lemma_split_clean(s: Seq<char>, c: char)
    requires
        no_unfriendly_chars(s),
    ensures
        forall|i: int| 0 <= i < split_on(s, c).len() ==> no_unfriendly_chars(#[trigger] split_on(s, c)[i]),
    decreases s.len(),
{
    if s.len() > 0 {
        let t = s.drop_last();
        assert(no_unfriendly_chars(t)) by {
            assert forall|j: int| 0 <= j < t.len() implies #[trigger] t[j] != '*' && t[j] != '?' && t[j] != '"'
                && t[j] != '<' && t[j] != '>' && t[j] != '|' by {
                assert(t[j] == s[j]);
            }
        }
        lemma_split_clean(t, c);
        lemma_split_on_nonempty(t, c);
        let rest = split_on(t, c);
        let x = s.last();
        assert(x == s[s.len() - 1]);
        if x != c {
            let w = rest.last().push(x);
            assert(no_unfriendly_chars(rest[rest.len() - 1]));
            assert(no_unfriendly_chars(w)) by {
                assert forall|j: int| 0 <= j < w.len() implies #[trigger] w[j] != '*' && w[j] != '?' && w[j]
                    != '"' && w[j] != '<' && w[j] != '>' && w[j] != '|' by {
                    if j < rest.last().len() {
                        assert(w[j] == rest.last()[j]);
                    }
                }
            }
            let u = rest.update(rest.len() - 1, w);
            assert forall|i: int| 0 <= i < u.len() implies no_unfriendly_chars(#[trigger] u[i]) by {
                if i < rest.len() - 1 {
                    assert(u[i] == rest[i]);
                }
            }
        } else {
            let u = rest.push(Seq::<char>::empty());
            assert forall|i: int| 0 <= i < u.len() implies no_unfriendly_chars(#[trigger] u[i]) by {
                if i < rest.len() {
                    assert(u[i] == rest[i]);
                }
            }
        }
    }
}

proof fn lemma_resolve_clean(pieces: Seq<Seq<char>>, root: bool)
    requires
        forall|i: int| 0 <= i < pieces.len() ==> no_unfriendly_chars(#[trigger] pieces[i]),
    ensures
        forall|i: int|
            0 <= i < resolve_state(pieces, root).1.len() ==> no_unfriendly_chars(#[trigger] resolve_state(pieces, root).1[i]),
    decreases pieces.len(),
{
    if pieces.len() > 0 {
        let init = pieces.drop_last();
        assert forall|i: int| 0 <= i < init.len() implies no_unfriendly_chars(#[trigger] init[i]) by {
            assert(init[i] == pieces[i]);
        }
        lemma_resolve_clean(init, root);
        let names = resolve_state(init, root).1;
        let p = pieces.last();
        assert(no_unfriendly_chars(pieces[pieces.len() - 1]));
        let out = resolve_state(pieces, root).1;
        assert forall|i: int| 0 <= i < out.len() implies no_unfriendly_chars(#[trigger] out[i]) by {
            if i < names.len() {
                assert(out[i] == names[i]);
            } else {
                assert(out[i] == p);
            }
        }
    }
}

proof fn lemma_join_clean(v: Seq<Seq<char>>)
    requires
        forall|i: int| 0 <= i < v.len() ==> no_unfriendly_chars(#[trigger] v[i]),
    ensures
        no_unfriendly_chars(join_with(v, '/')),
    decreases v.len(),
{
    if v.len() == 1 {
        assert(no_unfriendly_chars(v[0]));
    } else if v.len() > 1 {
        let init = v.drop_last();
        assert forall|i: int| 0 <= i < init.len() implies no_unfriendly_chars(#[trigger] init[i]) by {
            assert(init[i] == v[i]);
        }
        lemma_join_clean(init);
        let a = join_with(init, '/');
        let l = v.last();
        assert(no_unfriendly_chars(v[v.len() - 1]));
        let j2 = a + seq!['/'] + l;
        assert forall|j: int| 0 <= j < j2.len() implies #[trigger] j2[j] != '*' && j2[j] != '?' && j2[j] != '"'
            && j2[j] != '<' && j2[j] != '>' && j2[j] != '|' by {
            if j < a.len() {
                assert(j2[j] == a[j]);
            } else if j > a.len() {
                assert(j2[j] == l[j - a.len() - 1]);
            }
        }
    }
}

proof fn lemma_resolved_clean(c: Seq<char>)
    requires
        no_unfriendly_chars(c),
    ensures
        no_unfriendly_chars(resolved(c)),
{
    lemma_split_clean(c, '/');
    lemma_resolve_clean(split_on(c, '/'), rooted(c));
    let names = resolve_state(split_on(c, '/'), rooted(c)).1;
    lemma_join_clean(names);
    let j = join_with(names, '/');
    let r = seq!['/'] + j;
    assert forall|k: int| 0 <= k < r.len() implies #[trigger] r[k] != '*' && r[k] != '?' && r[k] != '"' && r[k]
        != '<' && r[k] != '>' && r[k] != '|' by {
        if k > 0 {
            assert(r[k] == j[k - 1]);
        }
    }
}

/// With unfriendly characters to go, the normalized path holds none of
/// `* ? " < > |`, whatever the other steps and the input.
pub proof fn lemma_formatted_has_no_unfriendly_chars(s: Seq<char>, trailing: bool, config: PathFormatConfig)
    requires
        config.strip_unfriendly_chars,
    ensures
        no_unfriendly_chars(formatted(s, trailing, config)),
{
    let a = if config.escape_backslashes { forward_slashes(s) } else { s };
    let b = if config.collapse_consecutive_slashes { collapsed(a) } else { a };
    let c = friendly(b);
    lemma_friendly_clean(b);
    let r = if config.resolve_parent_dirs { resolved(c) } else { c };
    if config.resolve_parent_dirs {
        lemma_resolved_clean(c);
    }
    let d = if config.escape_backslashes { forward_slashes(r) } else { r };
    if config.escape_backslashes {
        lemma_forward_slashes_clean(r);
    }
    let e = if trailing && !(d.len() > 0 && d.last() == '/') { d.push('/') } else { d };
    assert(no_unfriendly_chars(e)) by {
        assert forall|k: int| 0 <= k < e.len() implies #[trigger] e[k] != '*' && e[k] != '?' && e[k] != '"'
            && e[k] != '<' && e[k] != '>' && e[k] != '|' by {
            if k < d.len() {
                assert(e[k] == d[k]);
            }
        }
    }
}

/// With backslashes to be turned into slashes, the normalized path holds
/// no backslash, whatever the other steps and the input.
pub proof fn lemma_formatted_has_no_backslash(s: Seq<char>, trailing: bool, config: PathFormatConfig)
    requires
        config.escape_backslashes,
    ensures
        forall|k: int| 0 <= k < formatted(s, trailing, config).len() ==> #[trigger] formatted(s, trailing, config)[k] != '\\',
{
    let a = forward_slashes(s);
    let b = if config.collapse_consecutive_slashes { collapsed(a) } else { a };
    let c = if config.strip_unfriendly_chars { friendly(b) } else { b };
    let r = if config.resolve_parent_dirs { resolved(c) } else { c };
    let d = forward_slashes(r);
    assert forall|k: int| 0 <= k < d.len() implies #[trigger] d[k] != '\\' by {
        assert(d[k] == (if r[k] == '\\' { '/' } else { r[k] }));
    }
    let e = if trailing && !(d.len() > 0 && d.last() == '/') { d.push('/') } else { d };
    assert forall|k: int| 0 <= k < e.len() implies #[trigger] e[k] != '\\' by {
        if k < d.len() {
            assert(e[k] == d[k]);
        }
    }
}

/// Whether a character may stay in a path: anything but `* ? " < > |`.
pub open spec fn path_char_kept(c: char) -> bool {
    !(c == '*' || c == '?' || c == '"' || c == '<' || c == '>' || c == '|')
}

/// Whether the text holds no slash and no backslash.
pub open spec fn no_separators(s: Seq<char>) -> bool {
    forall|j: int| 0 <= j < s.len() ==> #[trigger] s[j] != '/' && s[j] != '\\'
}

proof fn lemma_friendly_is_filter(s: Seq<char>)
    ensures
        friendly(s) == s.filter(|c: char| path_char_kept(c)),
    decreases s.len(),
{
    reveal(Seq::filter);
    if s.len() > 0 {
        lemma_friendly_is_filter(s.drop_last());
    }
}

proof fn lemma_friendly_no_separators(s: Seq<char>)
    requires
        no_separators(s),
    ensures
        no_separators(friendly(s)),
    decreases s.len(),
{
    if s.len() > 0 {
        let t = s.drop_last();
        assert forall|j: int| 0 <= j < t.len() implies #[trigger] t[j] != '/' && t[j] != '\\' by {
            assert(t[j] == s[j]);
        }
        lemma_friendly_no_separators(t);
        let f = friendly(t);
        let x = s[s.len() - 1];
        assert forall|j: int| 0 <= j < f.push(x).len() implies #[trigger] f.push(x)[j] != '/' && f.push(x)[j]
            != '\\' by {
            if j < f.len() {
                assert(f.push(x)[j] == f[j]);
            }
        }
    }
}

proof fn lemma_collapsed_no_slash(s: Seq<char>)
    requires
        no_separators(s),
    ensures
        collapsed(s) == s,
    decreases s.len(),
{
    if s.len() > 0 {
        let t = s.drop_last();
        assert forall|j: int| 0 <= j < t.len() implies #[trigger] t[j] != '/' && t[j] != '\\' by {
            assert(t[j] == s[j]);
        }
        lemma_collapsed_no_slash(t);
        assert(s[s.len() - 1] != '/');
        assert(t.push(s.last()) =~= s);
    }
}

proof fn lemma_forward_slashes_plain(s: Seq<char>)
    requires
        no_separators(s),
    ensures
        forward_slashes(s) == s,
{
    assert(forward_slashes(s) =~= s);
}

proof fn lemma_resolved_plain(s: Seq<char>)
    requires
        no_separators(s),
        s.len() > 0,
        s != seq!['.'],
        s != seq!['.', '.'],
    ensures
        resolved(s) == s,
{
    let v = seq![s];
    assert(free_of(v, '/'));
    lemma_split_join(v, '/');
    assert(join_with(v, '/') == s);
    assert(split_on(s, '/') == v);
    assert(v.drop_last() =~= Seq::<Seq<char>>::empty());
    assert(!rooted(s));
    assert(resolve_state(v.drop_last(), false) == (false, Seq::<Seq<char>>::empty()));
    assert(v.last() == s);
    assert(Seq::<Seq<char>>::empty().push(s) =~= v);
    assert(resolve_state(v, false) == (false, v));
}

/// Unfriendly-character stripping removes exactly the characters
/// `* ? " < > |` and keeps every other one in order: a text without
/// slashes or backslashes whose kept characters form a name (not empty, not
/// `.` or `..`) normalizes to those kept characters, whatever the other
/// steps.
pub proof fn lemma_strip_keeps_other_chars(s: Seq<char>, config: PathFormatConfig)
    requires
        config.strip_unfriendly_chars,
        no_separators(s),
        s.filter(|c: char| path_char_kept(c)).len() > 0,
        s.filter(|c: char| path_char_kept(c)) != seq!['.'],
        s.filter(|c: char| path_char_kept(c)) != seq!['.', '.'],
    ensures
        formatted(s, false, config) == s.filter(|c: char| path_char_kept(c)),
{
    lemma_forward_slashes_plain(s);
    lemma_collapsed_no_slash(s);
    lemma_friendly_is_filter(s);
    lemma_friendly_no_separators(s);
    let f = friendly(s);
    lemma_resolved_plain(f);
    lemma_forward_slashes_plain(f);
    if f == seq!['.', '/'] {
        assert(f[1] == '/');
    }
}

/// A plain name (not empty, not `.` or `..`, with no slash, backslash or
/// character of `* ? " < > |`) normalizes to itself, whatever the steps.
pub proof fn lemma_plain_name_kept(s: Seq<char>, config: PathFormatConfig)
    requires
        no_separators(s),
        no_unfriendly_chars(s),
        s.len() > 0,
        s != seq!['.'],
        s != seq!['.', '.'],
    ensures
        formatted(s, false, config) == s,
{
    lemma_forward_slashes_plain(s);
    lemma_collapsed_no_slash(s);
    if config.strip_unfriendly_chars {
        lemma_friendly_is_filter(s);
        assert(s.filter(|c: char| path_char_kept(c)) == s) by {
            lemma_filter_all_kept(s);
        }
    }
    lemma_resolved_plain(s);
    if s == seq!['.', '/'] {
        assert(s[1] == '/');
    }
}

proof fn lemma_filter_all_kept(s: Seq<char>)
    requires
        no_unfriendly_chars(s),
    ensures
        s.filter(|c: char| path_char_kept(c)) == s,
    decreases s.len(),
{
    reveal(Seq::filter);
    if s.len() > 0 {
        let t = s.drop_last();
        assert forall|j: int| 0 <= j < t.len() implies #[trigger] t[j] != '*' && t[j] != '?' && t[j] != '"'
            && t[j] != '<' && t[j] != '>' && t[j] != '|' by {
            assert(t[j] == s[j]);
        }
        lemma_filter_all_kept(t);
        assert(s[s.len() - 1] != '*');
        assert(t.push(s.last()) =~= s);
    }
}

/// Whether a text ends in a slash.
pub open spec fn ends_with_slash(s: Seq<char>) -> bool {
    s.len() > 0 && s.last() == '/'
}

/// Backslashes turned into slashes.
fn to_forward_slashes(s: &Vec<char>) -> (r: Vec<char>)
    ensures
        r@ == forward_slashes(s@),
{
    let mut out: Vec<char> = Vec::new();
    let mut i: usize = 0;
    while i < s.len()
        invariant
            0 <= i <= s.len(),
            out@ == forward_slashes(s@.take(i as int)),
        decreases s.len() - i,
    {
        let c = if s[i] == '\\' { '/' } else { s[i] };
        out.push(c);
        assert(forward_slashes(s@.take(i + 1)) =~= forward_slashes(s@.take(i as int)).push(c));
        i = i + 1;
    }
    assert(s@.take(s.len() as int) =~= s@);
    out
}

/// A slash that follows a slash dropped.
fn collapse_slashes(s: &Vec<char>) -> (r: Vec<char>)
    ensures
        r@ == collapsed(s@),
{
    let mut out: Vec<char> = Vec::new();
    let mut i: usize = 0;
    while i < s.len()
        invariant
            0 <= i <= s.len(),
            out@ == collapsed(s@.take(i as int)),
        decreases s.len() - i,
    {
        assert(s@.take(i + 1).drop_last() =~= s@.take(i as int));
        let c = s[i];
        if !(c == '/' && out.len() > 0 && out[out.len() - 1] == '/') {
            out.push(c);
        }
        i = i + 1;
    }
    assert(s@.take(s.len() as int) =~= s@);
    out
}

/// The characters that do not belong in a path dropped.
fn drop_unfriendly(s: &Vec<char>) -> (r: Vec<char>)
    ensures
        r@ == friendly(s@),
{
    let mut out: Vec<char> = Vec::new();
    let mut i: usize = 0;
    while i < s.len()
        invariant
            0 <= i <= s.len(),
            out@ == friendly(s@.take(i as int)),
        decreases s.len() - i,
    {
        assert(s@.take(i + 1).drop_last() =~= s@.take(i as int));
        let c = s[i];
        if !(c == '*' || c == '?' || c == '"' || c == '<' || c == '>' || c == '|') {
            out.push(c);
        }
        i = i + 1;
    }
    assert(s@.take(s.len() as int) =~= s@);
    out
}

/// `.` and `..` resolved, without looking at any file system.
fn normalize_path(s: &Vec<char>) -> (r: Vec<char>)
    ensures
        r@ == resolved(s@),
{
    let pieces = split_chars(s, 0, s.len(), '/');
    assert(s@.subrange(0, s.len() as int) =~= s@);
    let ghost ps = pieces@.map_values(|x: Vec<char>| x@);
    let mut root = s.len() > 0 && s[0] == '/';
    let mut names: Vec<String> = Vec::new();
    let mut i: usize = 0;
    assert(ps.take(0) =~= Seq::<Seq<char>>::empty());
    assert(strings_view(names@) =~= Seq::<Seq<char>>::empty());
    while i < pieces.len()
        invariant
            0 <= i <= pieces.len(),
            ps == pieces@.map_values(|x: Vec<char>| x@),
            ps == split_on(s@, '/'),
            (root, strings_view(names@)) == resolve_state(ps.take(i as int), rooted(s@)),
        decreases pieces.len() - i,
    {
        let p = &pieces[i];
        assert(ps.take(i + 1).drop_last() =~= ps.take(i as int));
        assert(ps.take(i + 1).last() == p@);
        if p.len() == 0 || (p.len() == 1 && p[0] == '.') {
            assert(p@.len() == 0 || p@ =~= seq!['.']);
        } else if p.len() == 2 && p[0] == '.' && p[1] == '.' {
            assert(p@ =~= seq!['.', '.']);
            if names.len() > 0 {
                let ghost before = names@;
                let _ = names.pop();
                assert(strings_view(names@) =~= strings_view(before).drop_last());
            } else {
                root = false;
            }
        } else {
            let ghost before = names@;
            let w = string_of(p.as_slice());
            names.push(w);
            assert(strings_view(names@) =~= strings_view(before).push(p@));
        }
        i = i + 1;
    }
    assert(ps.take(pieces.len() as int) =~= ps);
    let joined = join_chars(&names, '/');
    if root {
        let mut out: Vec<char> = Vec::new();
        out.push('/');
        let mut rest = joined;
        let ghost j = rest@;
        out.append(&mut rest);
        assert(out@ =~= seq!['/'] + j);
        out
    } else if names.len() == 0 {
        let mut out: Vec<char> = Vec::new();
        out.push('.');
        assert(out@ =~= seq!['.']);
        out
    } else {
        joined
    }
}

/// Normalizes path text whose ANSI escapes, if they were to go, are gone;
/// `trailing` says whether the input text ended in a slash.
pub fn format_path_text(text: &str, trailing: bool, config: &PathFormatConfig) -> (r: String)
    ensures
        r@ == formatted(text@, trailing, *config),
{
    let cs = chars_of(text);
    let a = if config.escape_backslashes {
        to_forward_slashes(&cs)
    } else {
        cs
    };
    let b = if config.collapse_consecutive_slashes {
        collapse_slashes(&a)
    } else {
        a
    };
    let c = if config.strip_unfriendly_chars {
        drop_unfriendly(&b)
    } else {
        b
    };
    let d0 = if config.resolve_parent_dirs {
        normalize_path(&c)
    } else {
        c
    };
    let mut d = if config.escape_backslashes {
        to_forward_slashes(&d0)
    } else {
        d0
    };
    if trailing && !(d.len() > 0 && d[d.len() - 1] == '/') {
        d.push('/');
    }
    if d.len() == 2 && d[0] == '.' && d[1] == '/' {
        assert(d@ =~= seq!['.', '/']);
        return String::new();
    }
    string_of(d.as_slice())
}

/// The text left of `s` before normalization: `s` itself, or, when ANSI
/// escapes are to go, the text of the bytes left by `strip`, if they are
/// UTF-8.
pub open spec fn ansi_free_text(s: Seq<char>, strip: bool) -> Option<Seq<char>> {
    if !strip {
        Some(s)
    } else {
        let b = ansi_stripped(encode_utf8(s));
        if valid_utf8(b) {
            Some(decode_utf8(b))
        } else {
            None
        }
    }
}

/// Whether the text ends in a slash.
fn ends_in_slash(s: &str) -> (r: bool)
    ensures
        r == ends_with_slash(s@),
{
    let cs = chars_of(s);
    cs.len() > 0 && cs[cs.len() - 1] == '/'
}

/// Normalizes a path text with the steps of `config`: ANSI escapes go,
/// backslashes become slashes, runs of slashes become one, the characters
/// `* ? " < > |` go, `.` and `..` are resolved, and a trailing slash stays.
/// Fails with an `InvalidData` error when the text left after the ANSI
/// escapes went is not UTF-8.
pub fn format_path_str_with_config(path: &str, config: &PathFormatConfig) -> (r: Result<String, std::io::Error>)
    ensures
        match ansi_free_text(path@, config.strip_ansi) {
            Some(t) => r matches Ok(s) && s@ == formatted(t, ends_with_slash(path@), *config),
            None => r is Err,
        },
{
    let trailing = ends_in_slash(path);
    if config.strip_ansi {
        let b = bytes_of(path);
        let stripped = strip_ansi(b.as_slice());
        match str_from_utf8(stripped.as_slice()) {
            Some(t) => Ok(format_path_text(t, trailing, config)),
            None => Err(invalid_data()),
        }
    } else {
        Ok(format_path_text(path, trailing, config))
    }
}

/// Normalizes a path text with every step on.
pub fn format_path_str(path: &str) -> (r: Result<String, std::io::Error>)
    ensures
        match ansi_free_text(path@, true) {
            Some(t) => r matches Ok(s) && s@ == formatted(
                t,
                ends_with_slash(path@),
                (PathFormatConfig {
                    strip_ansi: true,
                    strip_unfriendly_chars: true,
                    resolve_parent_dirs: true,
                    collapse_consecutive_slashes: true,
                    escape_backslashes: true,
                }),
            ),
            None => r is Err,
        },
{
    let config = PathFormatConfig::default();
    format_path_str_with_config(path, &config)
}

/// The text of a path.
///
/// Calls `Path::display` and writes it to a `String`. A path made of a text
/// (`PathBuf::from`) displays as that text, since the text is UTF-8; of any
/// other path nothing is claimed.
#[verifier::external_body]
fn path_text(p: &std::path::PathBuf) -> (r: String)
    ensures
        forall|t: Seq<char>| #[trigger] path_of(t) == *p ==> r@ == t,
{
    p.display().to_string()
}

/// Named result of `PathBuf::from` on a text: the path made of that text.
pub uninterp spec fn path_of(text: Seq<char>) -> std::path::PathBuf;

/// A path with the given text.
///
/// Calls `PathBuf::from`, which wraps the text as it is; the contract only
/// names the result.
#[verifier::external_body]
fn path_of_text(s: String) -> (r: std::path::PathBuf)
    ensures
        r == path_of(s@),
{
    std::path::PathBuf::from(s)
}

/// The steps of path normalization with every step on.
pub open spec fn all_steps() -> PathFormatConfig {
    PathFormatConfig {
        strip_ansi: true,
        strip_unfriendly_chars: true,
        resolve_parent_dirs: true,
        collapse_consecutive_slashes: true,
        escape_backslashes: true,
    }
}

/// What normalizing a path shown as the text `t` gives: the path of the
/// normalized text, or nothing where the text left after the ANSI escapes
/// went is not UTF-8.
pub open spec fn formatted_path_of(t: Seq<char>, config: PathFormatConfig) -> Option<std::path::PathBuf> {
    match ansi_free_text(t, config.strip_ansi) {
        Some(u) => Some(path_of(formatted(u, ends_with_slash(t), config))),
        None => None,
    }
}

/// Normalizes a path with the steps of `config`, through its text: the
/// result is the path of the normalized text of the path as it displays, or
/// an error where that text is not UTF-8 once ANSI escapes went; it cannot
/// fail unless ANSI escapes are to go. For a path made of a text, that text
/// is the one normalized.
pub fn format_path_with_config(path: std::path::PathBuf, config: &PathFormatConfig) -> (r: Result<
    std::path::PathBuf,
    std::io::Error,
>)
    ensures
        !config.strip_ansi ==> r is Ok,
        exists|t: Seq<char>|
            match #[trigger] formatted_path_of(t, *config) {
                Some(q) => r matches Ok(p) && p == q,
                None => r is Err,
            },
        forall|t: Seq<char>|
            path == #[trigger] path_of(t) ==> match formatted_path_of(t, *config) {
                Some(q) => r matches Ok(p) && p == q,
                None => r is Err,
            },
{
    let text = path_text(&path);
    let r = match format_path_str_with_config(text.as_str(), config) {
        Ok(s) => Ok(path_of_text(s)),
        Err(e) => Err(e),
    };
    assert(match formatted_path_of(text@, *config) {
        Some(q) => r matches Ok(p) && p == q,
        None => r is Err,
    });
    r
}

/// Normalizes a path with every step on, through its text: the path of the
/// normalized text of the path as it displays, or an error where that text
/// is not UTF-8 once ANSI escapes went. For a path made of a text, that text
/// is the one normalized.
pub fn format_path(path: std::path::PathBuf) -> (r: Result<std::path::PathBuf, std::io::Error>)
    ensures
        exists|t: Seq<char>|
            match #[trigger] formatted_path_of(t, all_steps()) {
                Some(q) => r matches Ok(p) && p == q,
                None => r is Err,
            },
        forall|t: Seq<char>|
            path == #[trigger] path_of(t) ==> match formatted_path_of(t, all_steps()) {
                Some(q) => r matches Ok(p) && p == q,
                None => r is Err,
            },
{
    let config = PathFormatConfig::default();
    assert(config == all_steps());
    format_path_with_config(path, &config)
}

} // verus!
