//! Index sources: the address of one version of one indexed resource.
use vstd::prelude::*;
use crate::text::{
    all_digits, chars_of, decimal, decimal_chars, is_digit, is_ws, lemma_decimal_parses, parse_bounded, parse_unsigned,
    string_of, trim, trim_end, trim_range, trim_start,
};

pub mod alias;

verus! {

/// Points to a unique resource address in a vault: an index id, one of its
/// versions, and whether the id lives in the remote or the local namespace.
#[derive(Debug, Clone, Copy, PartialEq, Eq, Structural, Hash)]
pub struct IndexSource {
    remote: bool,
    id: u32,
    ver: u16,
}

/// Error text for a string that is not `[~]id/version`.
pub const INVALID_FORMAT: &'static str = "Invalid format: expected '[~]id/version'";

/// Error text for an empty id or version.
pub const EMPTY_PART: &'static str = "ID or version cannot be empty";

/// Error text for an id that is not a `u32`.
pub const INVALID_ID: &'static str = "ID must be a valid u32";

/// Error text for a version that is not a `u16`.
pub const INVALID_VERSION: &'static str = "Version must be a valid u16";

/// Why a string is not an index source.
pub enum IndexSourceSyntax {
    InvalidFormat,
    EmptyPart,
    InvalidId,
    InvalidVersion,
}

pub open spec fn syntax_message(e: IndexSourceSyntax) -> &'static str {
    match e {
        IndexSourceSyntax::InvalidFormat => INVALID_FORMAT,
        IndexSourceSyntax::EmptyPart => EMPTY_PART,
        IndexSourceSyntax::InvalidId => INVALID_ID,
        IndexSourceSyntax::InvalidVersion => INVALID_VERSION,
    }
}

/// Number of occurrences of `c` in `s`.
pub open spec fn count_char(s: Seq<char>, c: char) -> nat
    decreases s.len(),
{
    if s.len() == 0 {
        0
    } else {
        count_char(s.drop_last(), c) + if s.last() == c {
            1nat
        } else {
            0nat
        }
    }
}

/// Position of the first occurrence of `c` in `s`, if any.
pub open spec fn first_index_of(s: Seq<char>, c: char) -> Option<int> {
    if exists|i: int| 0 <= i < s.len() && s[i] == c {
        Some(choose|i: int| 0 <= i < s.len() && s[i] == c && forall|j: int| 0 <= j < i ==> s[j] != c)
    } else {
        None
    }
}

/// The meaning of `[~]id/version` text: a leading `~` (after trimming)
/// marks the local namespace; the rest is read by `parse_body_spec`.
pub open spec fn parse_index_source_spec(s: Seq<char>) -> Result<(bool, u32, u16), IndexSourceSyntax> {
    let t = trim(s);
    let remote = !(t.len() > 0 && t[0] == '~');
    let body = if remote {
        t
    } else {
        t.drop_first()
    };
    parse_body_spec(remote, body)
}

/// `id/version` text: there must be exactly one `/`; both parts are
/// trimmed, must be non-empty, and are parsed as `u32` and `u16`.
pub open spec fn parse_body_spec(remote: bool, body: Seq<char>) -> Result<(bool, u32, u16), IndexSourceSyntax> {
    if count_char(body, '/') != 1 {
        Err(IndexSourceSyntax::InvalidFormat)
    } else {
        let k = first_index_of(body, '/')->0;
        parse_parts_spec(remote, trim(body.take(k)), trim(body.skip(k + 1)))
    }
}

/// The trimmed id and version texts read as numbers.
pub open spec fn parse_parts_spec(remote: bool, id_str: Seq<char>, ver_str: Seq<char>) -> Result<(bool, u32, u16), IndexSourceSyntax> {
    if id_str.len() == 0 || ver_str.len() == 0 {
        Err(IndexSourceSyntax::EmptyPart)
    } else {
        match parse_bounded(id_str, u32::MAX as nat) {
            None => Err(IndexSourceSyntax::InvalidId),
            Some(id) => match parse_bounded(ver_str, u16::MAX as nat) {
                None => Err(IndexSourceSyntax::InvalidVersion),
                Some(ver) => Ok((remote, id as u32, ver as u16)),
            },
        }
    }
}

pub open spec fn result_of(r: Result<(bool, u32, u16), IndexSourceSyntax>) -> Result<IndexSource, &'static str> {
    match r {
        Ok((remote, id, ver)) => Ok(IndexSource::spec_new(remote, id, ver)),
        Err(e) => Err(syntax_message(e)),
    }
}

/// The text that `Display` shows for an index source: `id/version` in the
/// remote namespace, `~id/version` in the local one.
pub open spec fn display_spec(remote: bool, id: u32, ver: u16) -> Seq<char> {
    let body = decimal(id as nat) + seq!['/'] + decimal(ver as nat);
    if remote {
        body
    } else {
        seq!['~'] + body
    }
}

/// The result of parsing `[~]id/version` text: the index source, or the
/// message that names the first rule the text breaks.
pub open spec fn index_source_from_text(s: Seq<char>) -> Result<IndexSource, &'static str> {
    result_of(parse_index_source_spec(s))
}

/// Number of `/` in `v[lo..hi]` and the position of the first (or `hi`).
fn count_separators(v: &Vec<char>, lo: usize, hi: usize) -> (r: (usize, usize))
    requires
        lo <= hi <= v.len(),
    ensures
        r.0 as nat == count_char(v@.subrange(lo as int, hi as int), '/'),
        r.0 == 0 ==> r.1 == hi,
        r.0 > 0 ==> lo <= r.1 < hi && v@[r.1 as int] == '/' && forall|j: int|
            lo <= j < r.1 ==> v@[j] != '/',
{
    let ghost body = v@.subrange(lo as int, hi as int);
    let mut count: usize = 0;
    let mut first: usize = hi;
    let mut i = lo;
    while i < hi
        invariant
            lo <= i <= hi <= v.len(),
            body == v@.subrange(lo as int, hi as int),
            count as nat == count_char(body.take(i - lo), '/'),
            count <= i - lo,
            count == 0 ==> first == hi && forall|j: int| lo <= j < i ==> v@[j] != '/',
            count > 0 ==> lo <= first < i && v@[first as int] == '/' && forall|j: int|
                lo <= j < first ==> v@[j] != '/',
        decreases hi - i,
    {
        assert(body.take(i - lo + 1).drop_last() =~= body.take(i - lo));
        if v[i] == '/' {
            if count == 0 {
                first = i;
            }
            count = count + 1;
        }
        i = i + 1;
    }
    assert(body.take(hi - lo) =~= body);
    (count, first)
}

impl IndexSource {
    pub closed spec fn spec_remote(self) -> bool {
        self.remote
    }

    pub closed spec fn spec_id(self) -> u32 {
        self.id
    }

    pub closed spec fn spec_ver(self) -> u16 {
        self.ver
    }

    /// The index source with the given fields.
    pub closed spec fn spec_new(remote: bool, id: u32, ver: u16) -> Self {
        IndexSource { remote, id, ver }
    }

    /// The fields of a built index source are the ones it was built from.
    pub broadcast proof fn lemma_spec_new(remote: bool, id: u32, ver: u16)
        ensures
            #[trigger] Self::spec_new(remote, id, ver).spec_remote() == remote,
            Self::spec_new(remote, id, ver).spec_id() == id,
            Self::spec_new(remote, id, ver).spec_ver() == ver,
    {
    }

    /// Two index sources with the same fields are the same.
    pub proof fn lemma_ext(a: Self, b: Self)
        requires
            a.spec_remote() == b.spec_remote(),
            a.spec_id() == b.spec_id(),
            a.spec_ver() == b.spec_ver(),
        ensures
            a == b,
    {
    }

    /// Create an index source.
    pub fn new(remote: bool, id: u32, ver: u16) -> (r: Self)
        ensures
            r == Self::spec_new(remote, id, ver),
            r.spec_remote() == remote,
            r.spec_id() == id,
            r.spec_ver() == ver,
    {
        IndexSource { remote, id, ver }
    }

    /// Create an index source in the local namespace.
    pub fn new_local(id: u32, ver: u16) -> (r: Self)
        ensures
            !r.spec_remote(),
            r.spec_id() == id,
            r.spec_ver() == ver,
    {
        IndexSource { remote: false, id, ver }
    }

    /// Create an index source in the remote namespace.
    pub fn new_remote(id: u32, ver: u16) -> (r: Self)
        ensures
            r.spec_remote(),
            r.spec_id() == id,
            r.spec_ver() == ver,
    {
        IndexSource { remote: true, id, ver }
    }

    /// Whether the index source points to the remote namespace.
    pub fn is_remote(&self) -> (r: bool)
        ensures
            r == self.spec_remote(),
    {
        self.remote
    }

    /// The index id.
    pub fn id(&self) -> (r: u32)
        ensures
            r == self.spec_id(),
    {
        self.id
    }

    /// The index version.
    pub fn version(&self) -> (r: u16)
        ensures
            r == self.spec_ver(),
    {
        self.ver
    }

    /// Set the index id.
    pub fn set_id(&mut self, index_id: u32)
        ensures
            final(self).spec_id() == index_id,
            final(self).spec_ver() == old(self).spec_ver(),
            final(self).spec_remote() == old(self).spec_remote(),
    {
        self.id = index_id;
    }

    /// Set the index version.
    pub fn set_version(&mut self, version: u16)
        ensures
            final(self).spec_ver() == version,
            final(self).spec_id() == old(self).spec_id(),
            final(self).spec_remote() == old(self).spec_remote(),
    {
        self.ver = version;
    }

    /// Set the namespace flag.
    pub fn set_is_remote(&mut self, remote: bool)
        ensures
            final(self).spec_remote() == remote,
            final(self).spec_id() == old(self).spec_id(),
            final(self).spec_ver() == old(self).spec_ver(),
    {
        self.remote = remote;
    }

    /// Move the index source to the local namespace.
    pub fn to_local(&mut self)
        ensures
            !final(self).spec_remote(),
            final(self).spec_id() == old(self).spec_id(),
            final(self).spec_ver() == old(self).spec_ver(),
    {
        self.remote = false;
    }

    /// Move the index source to the remote namespace.
    pub fn to_remote(&mut self)
        ensures
            final(self).spec_remote(),
            final(self).spec_id() == old(self).spec_id(),
            final(self).spec_ver() == old(self).spec_ver(),
    {
        self.remote = true;
    }

    /// The fields as a `(remote, id, version)` tuple.
    pub fn into_parts(self) -> (r: (bool, u32, u16))
        ensures
            r == (self.spec_remote(), self.spec_id(), self.spec_ver()),
    {
        (self.remote, self.id, self.ver)
    }

    /// Parse `[~]id/version` text.
    pub fn parse(value: &str) -> (r: Result<Self, &'static str>)
        ensures
            r == index_source_from_text(value@),
    {
        let v = chars_of(value);
        assert(v@.subrange(0, v.len() as int) =~= value@);
        Self::parse_chars(&v, 0, v.len())
    }

    /// Parse the characters `v[lo..hi]` as `[~]id/version` text.
    pub fn parse_chars(v: &Vec<char>, lo: usize, hi: usize) -> (r: Result<Self, &'static str>)
        requires
            lo <= hi <= v.len(),
        ensures
            r == index_source_from_text(v@.subrange(lo as int, hi as int)),
    {
        let ghost s = v@.subrange(lo as int, hi as int);
        let (a, b) = trim_range(v, lo, hi);
        let ghost t = v@.subrange(a as int, b as int);
        let remote = !(a < b && v[a] == '~');
        let start = if remote {
            a
        } else {
            a + 1
        };
        let ghost body = v@.subrange(start as int, b as int);
        assert(body =~= (if remote {
            t
        } else {
            t.drop_first()
        }));
        Self::parse_body(v, start, b, remote)
    }

    /// Parse `v[lo..hi]` as `id/version` text.
    fn parse_body(v: &Vec<char>, lo: usize, hi: usize, remote: bool) -> (r: Result<Self, &'static str>)
        requires
            lo <= hi <= v.len(),
        ensures
            r == result_of(parse_body_spec(remote, v@.subrange(lo as int, hi as int))),
    {
        let ghost body = v@.subrange(lo as int, hi as int);
        let (count, first) = count_separators(v, lo, hi);
        if count != 1 {
            return Err(INVALID_FORMAT);
        }
        let ghost k = first - lo;
        assert(body[k] == '/');
        assert(exists|j: int| 0 <= j < body.len() && body[j] == '/');
        let ghost kk = first_index_of(body, '/')->0;
        assert(forall|j: int| 0 <= j < k ==> body[j] != '/');
        assert(kk == k) by {
            if kk < k {
                assert(body[kk] != '/');
            } else if kk > k {
                assert(body[k] == '/');
            }
        }
        assert(v@.subrange(lo as int, first as int) =~= body.take(k));
        assert(v@.subrange(first + 1, hi as int) =~= body.skip(k + 1));
        let (ia, ib) = trim_range(v, lo, first);
        let (va, vb) = trim_range(v, first + 1, hi);
        Self::parse_parts(v, ia, ib, va, vb, remote)
    }

    /// Read the id text `v[ia..ib]` and the version text `v[va..vb]`.
    fn parse_parts(v: &Vec<char>, ia: usize, ib: usize, va: usize, vb: usize, remote: bool) -> (r: Result<Self, &'static str>)
        requires
            ia <= ib <= v.len(),
            va <= vb <= v.len(),
        ensures
            r == result_of(parse_parts_spec(remote, v@.subrange(ia as int, ib as int), v@.subrange(va as int, vb as int))),
    {
        if ia == ib || va == vb {
            return Err(EMPTY_PART);
        }
        let id = match parse_unsigned(v, ia, ib, 0xFFFF_FFFF) {
            Some(x) => x as u32,
            None => {
                return Err(INVALID_ID);
            },
        };
        let ver = match parse_unsigned(v, va, vb, 0xFFFF) {
            Some(x) => x as u16,
            None => {
                return Err(INVALID_VERSION);
            },
        };
        Ok(IndexSource { remote, id, ver })
    }

    /// The text `Display` shows: `~id/version` for the local namespace and
    /// `id/version` for the remote one.
    pub fn to_display_string(&self) -> (r: String)
        ensures
            r@ == display_spec(self.spec_remote(), self.spec_id(), self.spec_ver()),
    {
        let mut out: Vec<char> = Vec::new();
        if !self.remote {
            out.push('~');
        }
        let mut idc = decimal_chars(self.id as u64);
        out.append(&mut idc);
        out.push('/');
        let mut verc = decimal_chars(self.ver as u64);
        out.append(&mut verc);
        let ghost body = decimal(self.id as nat) + seq!['/'] + decimal(self.ver as nat);
        assert(out@ =~= (if self.remote {
            body
        } else {
            seq!['~'] + body
        }));
        string_of(out.as_slice())
    }
}

impl<'a> TryFrom<&'a str> for IndexSource {
    type Error = &'static str;

    fn try_from(value: &'a str) -> (r: Result<Self, Self::Error>) {
        IndexSource::parse(value)
    }
}

impl<'a> vstd::std_specs::convert::TryFromSpecImpl<&'a str> for IndexSource {
    open spec fn obeys_try_from_spec() -> bool {
        true
    }

    open spec fn try_from_spec(v: &'a str) -> Result<Self, &'static str> {
        index_source_from_text(v@)
    }
}

impl TryFrom<String> for IndexSource {
    type Error = &'static str;

    fn try_from(value: String) -> (r: Result<Self, Self::Error>) {
        IndexSource::parse(value.as_str())
    }
}

impl vstd::std_specs::convert::TryFromSpecImpl<String> for IndexSource {
    open spec fn obeys_try_from_spec() -> bool {
        true
    }

    open spec fn try_from_spec(v: String) -> Result<Self, &'static str> {
        index_source_from_text(v@)
    }
}

/// Text that starts and ends with no white space is its own trim.
proof fn lemma_trim_fixed(s: Seq<char>)
    requires
        s.len() > 0,
        !is_ws(s[0]),
        !is_ws(s.last()),
    ensures
        trim(s) == s,
{
    assert(trim_start(s) == s);
    assert(trim_end(s) == s);
}

/// Occurrences in a concatenation add up.
proof fn lemma_count_concat(a: Seq<char>, b: Seq<char>, c: char)
    ensures
        count_char(a + b, c) == count_char(a, c) + count_char(b, c),
    decreases b.len(),
{
    if b.len() == 0 {
        assert(a + b =~= a);
    } else {
        lemma_count_concat(a, b.drop_last(), c);
        assert((a + b).drop_last() =~= a + b.drop_last());
    }
}

/// Digits hold no `/`.
proof fn lemma_count_digits(s: Seq<char>)
    requires
        all_digits(s),
    ensures
        count_char(s, '/') == 0,
    decreases s.len(),
{
    if s.len() > 0 {
        assert(all_digits(s.drop_last())) by {
            assert forall|i: int| 0 <= i < s.drop_last().len() implies is_digit(#[trigger] s.drop_last()[i]) by {
                assert(s.drop_last()[i] == s[i]);
            }
        }
        lemma_count_digits(s.drop_last());
        assert(is_digit(s[s.len() - 1]));
    }
}

/// The decimal text of a number reads back as the number, within any bound
/// it respects.
pub(crate) proof fn lemma_decimal_bounded(n: nat, max: nat)
    requires
        n <= max,
    ensures
        parse_bounded(decimal(n), max) == Some(n),
        trim(decimal(n)) == decimal(n),
{
    lemma_decimal_parses(n);
    let d = decimal(n);
    assert(is_digit(d[0]) && is_digit(d.last()));
    lemma_trim_fixed(d);
}

/// The text an index source displays as reads back as the same index
/// source.
pub proof fn lemma_display_parses(remote: bool, id: u32, ver: u16)
    ensures
        index_source_from_text(display_spec(remote, id, ver)) == Ok::<IndexSource, &'static str>(
            IndexSource::spec_new(remote, id, ver),
        ),
{
    let a = decimal(id as nat);
    let b = decimal(ver as nat);
    lemma_decimal_bounded(id as nat, u32::MAX as nat);
    lemma_decimal_bounded(ver as nat, u16::MAX as nat);
    lemma_decimal_parses(id as nat);
    lemma_decimal_parses(ver as nat);
    let body = a + seq!['/'] + b;
    let shown = display_spec(remote, id, ver);
    assert(is_digit(a[0]) && is_digit(b.last()));
    assert(shown.last() == b.last());
    if remote {
        assert(shown[0] == a[0]);
    } else {
        assert(shown[0] == '~');
    }
    lemma_trim_fixed(shown);
    let t = trim(shown);
    if remote {
        assert(t[0] != '~');
    } else {
        assert(t.drop_first() =~= body);
    }
    lemma_count_concat(a, seq!['/'], '/');
    lemma_count_concat(a + seq!['/'], b, '/');
    lemma_count_digits(a);
    lemma_count_digits(b);
    assert(count_char(seq!['/'], '/') == 1) by {
        let one = seq!['/'];
        assert(one.drop_last() =~= Seq::<char>::empty());
        assert(count_char(one.drop_last(), '/') == 0);
        assert(one.last() == '/');
    }
    let k = a.len() as int;
    assert(body[k] == '/');
    assert forall|j: int| 0 <= j < k implies body[j] != '/' by {
        assert(body[j] == a[j]);
        assert(is_digit(a[j]));
    }
    let f = first_index_of(body, '/')->0;
    assert(f == k) by {
        if f < k {
            assert(body[f] == a[f]);
            assert(is_digit(a[f]));
        } else if f > k {
        }
    }
    assert(body.take(k) =~= a);
    assert(body.skip(k + 1) =~= b);
}

} // verus!
