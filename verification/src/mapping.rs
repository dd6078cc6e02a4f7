//! Mappings: a path inside a sheet bound to an index source.
//!
//! `LocalMapping` is the form stored in a sheet, `MappingBuf` an owned form
//! that also names its sheet, and `Mapping` a borrowed form.
use vstd::prelude::*;
use vstd::utf8::{decode_utf8, encode_utf8, valid_utf8};
use crate::index_source::{display_spec, IndexSource};
use crate::text::{
    bytes_of, chars_equal, chars_of, decimal, decimal_chars, join_chars, join_with, split_chars, split_on,
    str_from_utf8, string_of, strings_of, strings_view, utf8_len,
};

pub mod parse;
pub mod reparse;

verus! {

broadcast use vstd::utf8::group_utf8_lib;

/// The forward direction of a mapping: which version of its index the
/// mapping expects to follow.
#[derive(Debug, Clone, Default)]
pub enum LocalMappingForward {
    /// Expect the current index version to be the latest.
    #[default]
    Latest,
    /// Expect the index version that the named reference sheet holds.
    Ref { sheet_name: String },
    /// Expect a specific version.
    Version { version: u16 },
}

/// Model of a forward direction.
pub enum ForwardView {
    Latest,
    Ref(Seq<char>),
    Version(u16),
}

impl View for LocalMappingForward {
    type V = ForwardView;

    open spec fn view(&self) -> ForwardView {
        match self {
            LocalMappingForward::Latest => ForwardView::Latest,
            LocalMappingForward::Ref { sheet_name } => ForwardView::Ref(sheet_name@),
            LocalMappingForward::Version { version } => ForwardView::Version(*version),
        }
    }
}

/// A forward direction fits the sheet format: a reference name takes at
/// most 255 bytes.
pub open spec fn forward_len_valid(f: ForwardView) -> bool {
    match f {
        ForwardView::Ref(name) => encode_utf8(name).len() <= 255,
        _ => true,
    }
}

/// Type tag of a forward direction in the sheet format.
pub open spec fn forward_type_id_spec(f: ForwardView) -> u8 {
    match f {
        ForwardView::Latest => 0,
        ForwardView::Ref(_) => 1,
        ForwardView::Version(_) => 2,
    }
}

/// Bytes of `v`, most significant first.
pub open spec fn u16_be(v: u16) -> Seq<u8> {
    seq![(v / 256) as u8, (v % 256) as u8]
}

/// Payload of a forward direction in the sheet format.
pub open spec fn forward_bytes(f: ForwardView) -> Seq<u8> {
    match f {
        ForwardView::Latest => Seq::<u8>::empty(),
        ForwardView::Ref(name) => encode_utf8(name),
        ForwardView::Version(v) => u16_be(v),
    }
}

/// The forward direction that a type tag and payload denote, if any.
pub open spec fn pack_spec(id: u8, bytes: Seq<u8>) -> Option<ForwardView> {
    if bytes.len() > 255 {
        None
    } else if id == 0 {
        Some(ForwardView::Latest)
    } else if id == 1 {
        if valid_utf8(bytes) {
            Some(ForwardView::Ref(decode_utf8(bytes)))
        } else {
            None
        }
    } else if id == 2 {
        if bytes.len() == 2 {
            Some(ForwardView::Version((bytes[0] as int * 256 + bytes[1] as int) as u16))
        } else {
            None
        }
    } else {
        None
    }
}

pub open spec fn option_forward_view(o: Option<LocalMappingForward>) -> Option<ForwardView> {
    match o {
        Some(f) => Some(f@),
        None => None,
    }
}

impl LocalMappingForward {
    /// Whether the forward direction fits the sheet format.
    pub fn is_len_valid(&self) -> (r: bool)
        ensures
            r == forward_len_valid(self@),
    {
        match self {
            LocalMappingForward::Latest => true,
            LocalMappingForward::Ref { sheet_name } => utf8_len(sheet_name.as_str()) <= 255,
            LocalMappingForward::Version { version: _ } => true,
        }
    }

    /// Type tag of the forward direction.
    pub fn forward_type_id(&self) -> (r: u8)
        ensures
            r == forward_type_id_spec(self@),
    {
        match self {
            LocalMappingForward::Latest => 0,
            LocalMappingForward::Ref { sheet_name: _ } => 1,
            LocalMappingForward::Version { version: _ } => 2,
        }
    }

    /// Raw form in the sheet format: `(type tag, payload length, payload)`;
    /// the length is kept modulo 256.
    pub fn unpack(&self) -> (r: (u8, u8, Vec<u8>))
        ensures
            r.0 == forward_type_id_spec(self@),
            r.2@ == forward_bytes(self@),
            r.1 == (forward_bytes(self@).len() % 256) as u8,
    {
        let b: Vec<u8> = match self {
            LocalMappingForward::Latest => Vec::new(),
            LocalMappingForward::Ref { sheet_name } => bytes_of(sheet_name.as_str()),
            LocalMappingForward::Version { version } => {
                let mut v = Vec::new();
                v.push((*version / 256) as u8);
                v.push((*version % 256) as u8);
                assert(v@ =~= u16_be(*version));
                v
            },
        };
        let len = (b.len() % 256) as u8;
        (self.forward_type_id(), len, b)
    }

    /// The forward direction that a type tag and payload denote.
    pub fn pack(id: u8, bytes: &[u8]) -> (r: Option<Self>)
        ensures
            option_forward_view(r) == pack_spec(id, bytes@),
    {
        if bytes.len() > 255 {
            return None;
        }
        match id {
            0 => Some(Self::Latest),
            1 => match str_from_utf8(bytes) {
                Some(s) => Some(Self::Ref { sheet_name: s.to_owned() }),
                None => None,
            },
            2 => {
                if bytes.len() == 2 {
                    let v = (bytes[0] as u16) * 256 + bytes[1] as u16;
                    Some(Self::Version { version: v })
                } else {
                    None
                }
            },
            _ => None,
        }
    }

    /// Equality of forward directions, by their models.
    pub fn same_as(&self, other: &Self) -> (r: bool)
        ensures
            r == (self@ == other@),
    {
        match self {
            LocalMappingForward::Latest => match other {
                LocalMappingForward::Latest => true,
                _ => false,
            },
            LocalMappingForward::Ref { sheet_name: a } => match other {
                LocalMappingForward::Ref { sheet_name: b } => {
                    let r = *a == *b;
                    assert(r == (a@ == b@));
                    r
                },
                _ => false,
            },
            LocalMappingForward::Version { version: a } => match other {
                LocalMappingForward::Version { version: b } => *a == *b,
                _ => false,
            },
        }
    }

    /// A copy of the forward direction.
    pub fn duplicate(&self) -> (r: Self)
        ensures
            r@ == self@,
    {
        match self {
            LocalMappingForward::Latest => LocalMappingForward::Latest,
            LocalMappingForward::Ref { sheet_name } => LocalMappingForward::Ref {
                sheet_name: sheet_name.clone(),
            },
            LocalMappingForward::Version { version } => LocalMappingForward::Version {
                version: *version,
            },
        }
    }
}

impl PartialEq for LocalMappingForward {
    fn eq(&self, other: &Self) -> (r: bool) {
        self.same_as(other)
    }
}

impl vstd::std_specs::cmp::PartialEqSpecImpl for LocalMappingForward {
    open spec fn obeys_eq_spec() -> bool {
        true
    }

    open spec fn eq_spec(&self, other: &Self) -> bool {
        self@ == other@
    }
}

impl Eq for LocalMappingForward {

}

/// Packing the raw form of a forward direction that fits the sheet format
/// gives the direction back.
pub proof fn lemma_forward_pack_unpack(f: ForwardView)
    requires
        forward_len_valid(f),
    ensures
        pack_spec(forward_type_id_spec(f), forward_bytes(f)) == Some(f),
{
    match f {
        ForwardView::Latest => {},
        ForwardView::Ref(name) => {
            vstd::utf8::encode_utf8_valid_utf8(name);
            vstd::utf8::encode_utf8_decode_utf8(name);
        },
        ForwardView::Version(v) => {
            let b = u16_be(v);
            assert((b[0] as int * 256 + b[1] as int) as u16 == v);
        },
    }
}

} // verus!

verus! {

/// Named result of `just_fmt::fmt_path_str_custom` for the given path, with
/// the default configuration except for the choice to resolve `..` parts.
pub uninterp spec fn formatted_path(path: Seq<char>, resolve_parent_dirs: bool) -> Seq<char>;

/// Normalizes a path string with `just_fmt::fmt_path_str_custom`
/// (separators unified to `/`, duplicate slashes and unfriendly characters
/// removed, `.` parts dropped, `..` parts resolved when asked).
/// The contract only names the result; with the crate's default features
/// the call has no error case.
#[verifier::external_body]
fn fmt_path_str_custom(path: &str, resolve_parent_dirs: bool) -> (r: String)
    ensures
        r@ == formatted_path(path@, resolve_parent_dirs),
{
    let config = just_fmt::PathFormatterConfig { resolve_parent_dirs, ..Default::default() };
    just_fmt::fmt_path_str_custom(path, &config).unwrap_or_default()
}

/// Model of a local mapping.
pub struct LocalMappingView {
    pub val: Seq<Seq<char>>,
    pub source: IndexSource,
    pub forward: ForwardView,
}

/// A mapping as stored in a sheet: its path, its index source and its
/// forward direction.
#[derive(Debug, Clone)]
pub struct LocalMapping {
    val: Vec<String>,
    source: IndexSource,
    forward: LocalMappingForward,
}

impl View for LocalMapping {
    type V = LocalMappingView;

    closed spec fn view(&self) -> LocalMappingView {
        LocalMappingView { val: strings_view(self.val@), source: self.source, forward: self.forward@ }
    }
}

/// The path of a mapping as one text: its nodes joined with `/`.
pub open spec fn joined(val: Seq<Seq<char>>) -> Seq<char> {
    join_with(val, '/')
}

/// A local mapping fits the sheet format: its joined path and its forward
/// direction each take at most 255 bytes.
pub open spec fn local_mapping_valid(val: Seq<Seq<char>>, forward: ForwardView) -> bool {
    forward_len_valid(forward) && encode_utf8(joined(val)).len() <= 255
}

/// The nodes of a path: the text normalized by `just_fmt` and split at `/`.
pub open spec fn path_nodes(text: Seq<char>) -> Seq<Seq<char>> {
    split_on(formatted_path(text, true), '/')
}

/// Normalized nodes of a path text.
pub(crate) fn nodes_of(text: &str) -> (r: Vec<String>)
    ensures
        strings_view(r@) == path_nodes(text@),
{
    let f = fmt_path_str_custom(text, true);
    let cs = chars_of(f.as_str());
    let parts = split_chars(&cs, 0, cs.len(), '/');
    assert(cs@.subrange(0, cs.len() as int) =~= cs@);
    strings_of(&parts)
}

/// Convert a string into the nodes of a mapping path (`./home/path2` gives
/// `["home", "path2"]`, a trailing slash gives a last empty node).
pub fn node(s: &str) -> (r: Vec<String>)
    ensures
        strings_view(r@) == path_nodes(s@),
{
    nodes_of(s)
}

/// Copies of the strings of `v`.
pub fn clone_strings(v: &Vec<String>) -> (r: Vec<String>)
    ensures
        strings_view(r@) == strings_view(v@),
{
    let mut out: Vec<String> = Vec::new();
    let mut i: usize = 0;
    while i < v.len()
        invariant
            0 <= i <= v.len(),
            strings_view(out@) == strings_view(v@.take(i as int)),
        decreases v.len() - i,
    {
        let s = v[i].clone();
        let ghost old_out = out@;
        out.push(s);
        assert(strings_view(out@) =~= strings_view(old_out).push(s@));
        assert(strings_view(v@.take(i + 1)) =~= strings_view(v@.take(i as int)).push(v@[i as int]@));
        i = i + 1;
    }
    assert(v@.take(v.len() as int) =~= v@);
    out
}

/// Whether two string vectors hold the same strings.
pub fn strings_equal(a: &Vec<String>, b: &Vec<String>) -> (r: bool)
    ensures
        r == (strings_view(a@) == strings_view(b@)),
{
    if a.len() != b.len() {
        assert(strings_view(a@).len() != strings_view(b@).len());
        return false;
    }
    let mut i: usize = 0;
    while i < a.len()
        invariant
            0 <= i <= a.len(),
            a.len() == b.len(),
            forall|j: int| 0 <= j < i ==> a@[j]@ == b@[j]@,
        decreases a.len() - i,
    {
        let same = a[i] == b[i];
        if !same {
            assert(strings_view(a@)[i as int] != strings_view(b@)[i as int]);
            return false;
        }
        i = i + 1;
    }
    assert(strings_view(a@) =~= strings_view(b@));
    true
}

impl LocalMapping {
    /// Create a local mapping; `None` when its joined path or its forward
    /// direction does not fit the sheet format.
    pub fn new(val: Vec<String>, source: IndexSource, forward: LocalMappingForward) -> (r: Option<
        Self,
    >)
        ensures
            r is Some <==> local_mapping_valid(strings_view(val@), forward@),
            r matches Some(m) ==> m@ == (LocalMappingView {
                val: strings_view(val@),
                source,
                forward: forward@,
            }),
    {
        let valid = forward.is_len_valid() && {
            let j = join_chars(&val, '/');
            let s = string_of(j.as_slice());
            utf8_len(s.as_str()) <= 255
        };
        if valid {
            Some(Self { val, source, forward })
        } else {
            None
        }
    }

    /// Whether the mapping obeys the sheet format's length rule.
    pub(crate) fn fits_format(&self) -> (r: bool)
        ensures
            r == local_mapping_valid(self@.val, self@.forward),
    {
        self.forward.is_len_valid() && {
            let j = join_chars(&self.val, '/');
            let s = string_of(j.as_slice());
            utf8_len(s.as_str()) <= 255
        }
    }

    /// The path of the mapping.
    pub fn value(&self) -> (r: &Vec<String>)
        ensures
            strings_view(r@) == self@.val,
    {
        &self.val
    }

    /// The index source of the mapping.
    pub fn index_source(&self) -> (r: IndexSource)
        ensures
            r == self@.source,
    {
        self.source
    }

    /// The mapped index id.
    pub fn mapped_id(&self) -> (r: u32)
        ensures
            r == self@.source.spec_id(),
    {
        self.source.id()
    }

    /// The mapped index version.
    pub fn mapped_version(&self) -> (r: u16)
        ensures
            r == self@.source.spec_ver(),
    {
        self.source.version()
    }

    /// The forward direction of the mapping.
    pub fn forward(&self) -> (r: &LocalMappingForward)
        ensures
            r@ == self@.forward,
    {
        &self.forward
    }

    /// A `MappingBuf` for the named sheet, from a copy of this mapping.
    pub fn to_mapping_buf_cloned(&self, sheet_name: String) -> (r: MappingBuf)
        ensures
            r.wf(),
            r@ == (MappingBufView { sheet_name: sheet_name@, val: self@.val, source: self@.source }),
    {
        MappingBuf::new(sheet_name, clone_strings(&self.val), self.source)
    }

    /// A `MappingBuf` for the named sheet, from this mapping.
    pub fn to_mapping_buf(self, sheet_name: String) -> (r: MappingBuf)
        ensures
            r.wf(),
            r@ == (MappingBufView { sheet_name: sheet_name@, val: self@.val, source: self@.source }),
    {
        MappingBuf::new(sheet_name, self.val, self.source)
    }

    /// A copy of the mapping.
    pub fn duplicate(&self) -> (r: Self)
        ensures
            r@ == self@,
    {
        LocalMapping {
            val: clone_strings(&self.val),
            source: self.source,
            forward: self.forward.duplicate(),
        }
    }

    /// Append nodes to the path (`.` parts are skipped, `..` removes the
    /// last node while more than one remains).
    pub fn join(self, nodes: String) -> (r: Self)
        ensures
            r@ == (LocalMappingView { val: join_nodes(self@.val, nodes@), ..self@ }),
    {
        let v = join_helper(nodes, self.val);
        LocalMapping { val: v, source: self.source, forward: self.forward }
    }

    /// Set the path.
    pub fn set_value(&mut self, val: Vec<String>)
        ensures
            final(self)@ == (LocalMappingView { val: strings_view(val@), ..old(self)@ }),
    {
        self.val = val;
    }

    /// Replace the index source.
    pub fn replace_source(&mut self, new_source: IndexSource)
        ensures
            final(self)@ == (LocalMappingView { source: new_source, ..old(self)@ }),
    {
        self.source = new_source;
    }

    /// Set the mapped index id.
    pub fn set_mapped_id(&mut self, id: u32)
        ensures
            final(self)@ == (LocalMappingView {
                source: IndexSource::spec_new(old(self)@.source.spec_remote(), id, old(self)@.source.spec_ver()),
                ..old(self)@
            }),
    {
        self.source.set_id(id);
        proof {
            IndexSource::lemma_spec_new(old(self)@.source.spec_remote(), id, old(self)@.source.spec_ver());
            IndexSource::lemma_ext(self.source, IndexSource::spec_new(old(self)@.source.spec_remote(), id, old(self)@.source.spec_ver()));
        }
    }

    /// Set the mapped index version.
    pub fn set_mapped_version(&mut self, version: u16)
        ensures
            final(self)@ == (LocalMappingView {
                source: IndexSource::spec_new(old(self)@.source.spec_remote(), old(self)@.source.spec_id(), version),
                ..old(self)@
            }),
    {
        self.source.set_version(version);
        proof {
            IndexSource::lemma_spec_new(old(self)@.source.spec_remote(), old(self)@.source.spec_id(), version);
            IndexSource::lemma_ext(self.source, IndexSource::spec_new(old(self)@.source.spec_remote(), old(self)@.source.spec_id(), version));
        }
    }

    /// Set the forward direction to a copy of `forward`.
    pub fn set_forward(&mut self, forward: &LocalMappingForward)
        ensures
            final(self)@ == (LocalMappingView { forward: forward@, ..old(self)@ }),
    {
        self.forward = forward.duplicate();
    }

    /// Replace the forward direction.
    pub fn replace_forward(&mut self, forward: LocalMappingForward)
        ensures
            final(self)@ == (LocalMappingView { forward: forward@, ..old(self)@ }),
    {
        self.forward = forward;
    }

    /// Whether the path equals `other`: local mappings compare by path only.
    pub fn same_path(&self, other: &Vec<String>) -> (r: bool)
        ensures
            r == (self@.val == strings_view(other@)),
    {
        strings_equal(&self.val, other)
    }
}

impl PartialEq for LocalMapping {
    fn eq(&self, other: &Self) -> (r: bool) {
        self.same_path(&other.val)
    }
}

impl vstd::std_specs::cmp::PartialEqSpecImpl for LocalMapping {
    open spec fn obeys_eq_spec() -> bool {
        true
    }

    open spec fn eq_spec(&self, other: &Self) -> bool {
        self@.val == other@.val
    }
}

impl PartialEq<Vec<String>> for LocalMapping {
    fn eq(&self, other: &Vec<String>) -> (r: bool) {
        self.same_path(other)
    }
}

impl vstd::std_specs::cmp::PartialEqSpecImpl<Vec<String>> for LocalMapping {
    open spec fn obeys_eq_spec() -> bool {
        true
    }

    open spec fn eq_spec(&self, other: &Vec<String>) -> bool {
        self@.val == strings_view(other@)
    }
}

impl Eq for LocalMapping {

}

/// What appending the nodes of `text` does to a path: the text is
/// normalized by `just_fmt` (keeping `..`) and split at `/`; each `.` is
/// skipped, each `..` removes the last node while more than one remains,
/// and any other node is appended.
pub open spec fn join_nodes(val: Seq<Seq<char>>, text: Seq<char>) -> Seq<Seq<char>> {
    apply_nodes(val, split_on(formatted_path(text, false), '/'))
}

pub open spec fn apply_nodes(val: Seq<Seq<char>>, nodes: Seq<Seq<char>>) -> Seq<Seq<char>>
    decreases nodes.len(),
{
    if nodes.len() == 0 {
        val
    } else {
        let prev = apply_nodes(val, nodes.drop_last());
        let n = nodes.last();
        if n == seq!['.'] {
            prev
        } else if n == seq!['.', '.'] {
            if prev.len() > 1 {
                prev.drop_last()
            } else {
                prev
            }
        } else {
            prev.push(n)
        }
    }
}

fn is_dot(v: &Vec<char>) -> (r: bool)
    ensures
        r == (v@ == seq!['.']),
{
    let r = v.len() == 1 && v[0] == '.';
    if v.len() == 1 {
        assert(v@ == seq!['.'] <==> v@ =~= seq!['.']);
    }
    r
}

fn is_dot_dot(v: &Vec<char>) -> (r: bool)
    ensures
        r == (v@ == seq!['.', '.']),
{
    let r = v.len() == 2 && v[0] == '.' && v[1] == '.';
    if v.len() == 2 {
        assert(v@ == seq!['.', '.'] <==> v@ =~= seq!['.', '.']);
    }
    r
}

fn join_helper(nodes: String, val: Vec<String>) -> (r: Vec<String>)
    ensures
        strings_view(r@) == join_nodes(strings_view(val@), nodes@),
{
    let formatted = fmt_path_str_custom(nodes.as_str(), false);
    let cs = chars_of(formatted.as_str());
    let parts = split_chars(&cs, 0, cs.len(), '/');
    assert(cs@.subrange(0, cs.len() as int) =~= cs@);
    let ghost pv = parts@.map_values(|x: Vec<char>| x@);
    let mut out = val;
    let mut i: usize = 0;
    while i < parts.len()
        invariant
            0 <= i <= parts.len(),
            pv == parts@.map_values(|x: Vec<char>| x@),
            strings_view(out@) == apply_nodes(strings_view(val@), pv.take(i as int)),
        decreases parts.len() - i,
    {
        assert(pv.take(i + 1).drop_last() =~= pv.take(i as int));
        assert(pv.take(i + 1).last() == parts@[i as int]@);
        let part = &parts[i];
        if is_dot(part) {
        } else if is_dot_dot(part) {
            if out.len() > 1 {
                let ghost before = out@;
                let l = out.len() - 1;
                out.remove(l);
                assert(strings_view(out@) =~= strings_view(before).drop_last());
            }
        } else {
            let ghost before = out@;
            let s = string_of(part.as_slice());
            out.push(s);
            assert(strings_view(out@) =~= strings_view(before).push(part@));
        }
        i = i + 1;
    }
    assert(pv.take(parts.len() as int) =~= pv);
    out
}

/// Model of a `MappingBuf`.
pub struct MappingBufView {
    pub sheet_name: Seq<char>,
    pub val: Seq<Seq<char>>,
    pub source: IndexSource,
}

/// An owned mapping that names its sheet; it keeps its path joined with `/`
/// alongside the nodes.
#[derive(Debug, Clone)]
pub struct MappingBuf {
    sheet_name: String,
    val: Vec<String>,
    val_joined: String,
    source: IndexSource,
}

impl View for MappingBuf {
    type V = MappingBufView;

    closed spec fn view(&self) -> MappingBufView {
        MappingBufView { sheet_name: self.sheet_name@, val: strings_view(self.val@), source: self.source }
    }
}

impl MappingBuf {
    /// The joined path agrees with the nodes.
    pub closed spec fn wf(&self) -> bool {
        self.val_joined@ == joined(strings_view(self.val@))
    }

    /// Create a `MappingBuf`.
    pub fn new(sheet_name: String, val: Vec<String>, source: IndexSource) -> (r: Self)
        ensures
            r.wf(),
            r@ == (MappingBufView { sheet_name: sheet_name@, val: strings_view(val@), source }),
    {
        let j = join_chars(&val, '/');
        let val_joined = string_of(j.as_slice());
        MappingBuf { sheet_name, val, val_joined, source }
    }

    /// The sheet name.
    pub fn sheet_name(&self) -> (r: &String)
        ensures
            r@ == self@.sheet_name,
    {
        &self.sheet_name
    }

    /// The path nodes.
    pub fn value(&self) -> (r: &Vec<String>)
        ensures
            strings_view(r@) == self@.val,
    {
        &self.val
    }

    /// The path joined with `/`.
    pub fn value_str(&self) -> (r: &String)
        requires
            self.wf(),
        ensures
            r@ == joined(self@.val),
    {
        &self.val_joined
    }

    /// The index source.
    pub fn index_source(&self) -> (r: IndexSource)
        ensures
            r == self@.source,
    {
        self.source
    }

    /// The mapped index id.
    pub fn mapped_id(&self) -> (r: u32)
        ensures
            r == self@.source.spec_id(),
    {
        self.source.id()
    }

    /// The mapped index version.
    pub fn mapped_version(&self) -> (r: u16)
        ensures
            r == self@.source.spec_ver(),
    {
        self.source.version()
    }

    /// A borrowed `Mapping` of this buffer.
    pub fn as_mapping(&self) -> (r: Mapping<'_>)
        requires
            self.wf(),
        ensures
            r.spec_sheet_name() == self@.sheet_name,
            r.spec_val() == joined(self@.val),
            r.spec_source() == self@.source,
    {
        Mapping::new(self.sheet_name.as_str(), self.val_joined.as_str(), self.source)
    }

    /// A local mapping from a copy of this buffer with the given forward
    /// direction; `None` when it does not fit the sheet format.
    pub fn to_local_mapping_cloned(&self, forward: &LocalMappingForward) -> (r: Option<LocalMapping>)
        ensures
            r is Some <==> local_mapping_valid(self@.val, forward@),
            r matches Some(m) ==> m@ == (LocalMappingView {
                val: self@.val,
                source: self@.source,
                forward: forward@,
            }),
    {
        LocalMapping::new(clone_strings(&self.val), self.source, forward.duplicate())
    }

    /// A local mapping from this buffer with the given forward direction;
    /// `None` when it does not fit the sheet format.
    pub fn to_local_mapping(self, forward: LocalMappingForward) -> (r: Option<LocalMapping>)
        ensures
            r is Some <==> local_mapping_valid(self@.val, forward@),
            r matches Some(m) ==> m@ == (LocalMappingView {
                val: self@.val,
                source: self@.source,
                forward: forward@,
            }),
    {
        LocalMapping::new(self.val, self.source, forward)
    }

    /// Append nodes to the path (`.` parts are skipped, `..` removes the
    /// last node while more than one remains).
    pub fn join(self, nodes: String) -> (r: Self)
        ensures
            r.wf(),
            r@ == (MappingBufView { val: join_nodes(self@.val, nodes@), ..self@ }),
    {
        let v = join_helper(nodes, self.val);
        MappingBuf::new(self.sheet_name, v, self.source)
    }

    /// Set the sheet name.
    pub fn set_sheet_name(&mut self, sheet_name: String)
        ensures
            final(self).wf() == old(self).wf(),
            final(self)@ == (MappingBufView { sheet_name: sheet_name@, ..old(self)@ }),
    {
        self.sheet_name = sheet_name;
    }

    /// Set the path.
    pub fn set_value(&mut self, val: Vec<String>)
        ensures
            final(self).wf(),
            final(self)@ == (MappingBufView { val: strings_view(val@), ..old(self)@ }),
    {
        let j = join_chars(&val, '/');
        self.val_joined = string_of(j.as_slice());
        self.val = val;
    }

    /// Replace the index source.
    pub fn replace_source(&mut self, new_source: IndexSource)
        ensures
            final(self).wf() == old(self).wf(),
            final(self)@ == (MappingBufView { source: new_source, ..old(self)@ }),
    {
        self.source = new_source;
    }

    /// Set the mapped index id.
    pub fn set_mapped_id(&mut self, id: u32)
        ensures
            final(self).wf() == old(self).wf(),
            final(self)@ == (MappingBufView {
                source: IndexSource::spec_new(old(self)@.source.spec_remote(), id, old(self)@.source.spec_ver()),
                ..old(self)@
            }),
    {
        self.source.set_id(id);
        proof {
            IndexSource::lemma_spec_new(old(self)@.source.spec_remote(), id, old(self)@.source.spec_ver());
            IndexSource::lemma_ext(self.source, IndexSource::spec_new(old(self)@.source.spec_remote(), id, old(self)@.source.spec_ver()));
        }
    }

    /// Set the mapped index version.
    pub fn set_mapped_version(&mut self, version: u16)
        ensures
            final(self).wf() == old(self).wf(),
            final(self)@ == (MappingBufView {
                source: IndexSource::spec_new(old(self)@.source.spec_remote(), old(self)@.source.spec_id(), version),
                ..old(self)@
            }),
    {
        self.source.set_version(version);
        proof {
            IndexSource::lemma_spec_new(old(self)@.source.spec_remote(), old(self)@.source.spec_id(), version);
            IndexSource::lemma_ext(self.source, IndexSource::spec_new(old(self)@.source.spec_remote(), old(self)@.source.spec_id(), version));
        }
    }

    /// Whether two buffers are equal in every field.
    pub fn same_as(&self, other: &Self) -> (r: bool)
        requires
            self.wf(),
            other.wf(),
        ensures
            r == (self@ == other@),
    {
        let a = self.sheet_name == other.sheet_name;
        let b = strings_equal(&self.val, &other.val);
        let c = self.source == other.source;
        let r = a && b && c;
        if r {
            assert(self@ =~= other@);
        }
        r
    }
}

/// A borrowed mapping: a sheet name, the joined path and an index source.
#[derive(Debug, Clone, Copy)]
pub struct Mapping<'a> {
    sheet_name: &'a str,
    val: &'a str,
    source: IndexSource,
}

impl<'a> Mapping<'a> {
    pub closed spec fn spec_sheet_name(&self) -> Seq<char> {
        self.sheet_name@
    }

    pub closed spec fn spec_val(&self) -> Seq<char> {
        self.val@
    }

    pub closed spec fn spec_source(&self) -> IndexSource {
        self.source
    }

    /// Create a mapping.
    pub fn new(sheet_name: &'a str, val: &'a str, source: IndexSource) -> (r: Self)
        ensures
            r.spec_sheet_name() == sheet_name@,
            r.spec_val() == val@,
            r.spec_source() == source,
    {
        Self { sheet_name, val, source }
    }

    /// The sheet name.
    pub fn sheet_name(&self) -> (r: &str)
        ensures
            r@ == self.spec_sheet_name(),
    {
        self.sheet_name
    }

    /// The nodes of the path: the text normalized and split at `/`.
    pub fn value(&self) -> (r: Vec<String>)
        ensures
            strings_view(r@) == path_nodes(self.spec_val()),
    {
        nodes_of(self.val)
    }

    /// The path as stored.
    pub fn value_str(&self) -> (r: &str)
        ensures
            r@ == self.spec_val(),
    {
        self.val
    }

    /// The index source.
    pub fn index_source(&self) -> (r: IndexSource)
        ensures
            r == self.spec_source(),
    {
        self.source
    }

    /// The mapped index id.
    pub fn mapped_id(&self) -> (r: u32)
        ensures
            r == self.spec_source().spec_id(),
    {
        self.source.id()
    }

    /// The mapped index version.
    pub fn mapped_version(&self) -> (r: u16)
        ensures
            r == self.spec_source().spec_ver(),
    {
        self.source.version()
    }

    /// A `MappingBuf` with the normalized nodes of the path.
    pub fn to_mapping_buf(&self) -> (r: MappingBuf)
        ensures
            r.wf(),
            r@ == (MappingBufView {
                sheet_name: self.spec_sheet_name(),
                val: path_nodes(self.spec_val()),
                source: self.spec_source(),
            }),
    {
        let name = string_of(chars_of(self.sheet_name).as_slice());
        MappingBuf::new(name, nodes_of(self.val), self.source)
    }

    /// A local mapping with the normalized nodes of the path and the given
    /// forward direction; `None` when it does not fit the sheet format.
    pub fn to_local_mapping(self, forward: LocalMappingForward) -> (r: Option<LocalMapping>)
        ensures
            r is Some <==> local_mapping_valid(path_nodes(self.spec_val()), forward@),
            r matches Some(m) ==> m@ == (LocalMappingView {
                val: path_nodes(self.spec_val()),
                source: self.spec_source(),
                forward: forward@,
            }),
    {
        LocalMapping::new(nodes_of(self.val), self.source, forward)
    }

    /// Equality with a `MappingBuf`: same joined path, id and version (the
    /// namespace and the sheet name are not compared).
    pub fn matches_buf(&self, other: &MappingBuf) -> (r: bool)
        requires
            other.wf(),
        ensures
            r == (self.spec_val() == joined(other@.val) && self.spec_source().spec_id()
                == other@.source.spec_id() && self.spec_source().spec_ver()
                == other@.source.spec_ver()),
    {
        let a = chars_of(self.val);
        let b = chars_of(other.val_joined.as_str());
        let same = chars_equal(&a, &b);
        same && self.source.id() == other.source.id() && self.source.version()
            == other.source.version()
    }
}

} // verus!

verus! {

/// Named result of `just_fmt`'s snake_case conversion of the given text.
pub uninterp spec fn just_snake_case(s: Seq<char>) -> Seq<char>;

/// The text in snake_case.
///
/// Calls `just_fmt::CaseFormatter::to_snake_case`; the contract names its
/// result.
#[verifier::external_body]
fn snake_case_of(s: &str) -> (r: String)
    ensures
        r@ == just_snake_case(s@),
{
    just_fmt::CaseFormatter::from(s).to_snake_case()
}

/// Appends the characters of `s`.
pub fn push_text(out: &mut Vec<char>, s: &str)
    ensures
        final(out)@ == old(out)@ + s@,
{
    let mut cs = chars_of(s);
    out.append(&mut cs);
}

/// Appends the characters of `s`.
fn push_chars(out: &mut Vec<char>, s: &Vec<char>)
    ensures
        final(out)@ == old(out)@ + s@,
{
    let mut cs = s.clone();
    assert(cs@ == s@);
    out.append(&mut cs);
}

/// Text between double quotes.
pub open spec fn quoted(x: Seq<char>) -> Seq<char> {
    "\""@ + x + "\""@
}

/// How an index source shows.
pub open spec fn source_display(src: IndexSource) -> Seq<char> {
    display_spec(src.spec_remote(), src.spec_id(), src.spec_ver())
}

/// How a local mapping shows: `"path" => "source"` to follow the latest
/// version, `"path" => "source" => "sheet"` to follow a sheet, and
/// `"path" == "source"` or `"path" => "source" == "version"` for a version,
/// the short form when it is the source's own version.
pub open spec fn local_mapping_display(m: LocalMappingView) -> Seq<char> {
    let p = quoted(joined(m.val));
    let s = quoted(source_display(m.source));
    match m.forward {
        ForwardView::Latest => p + " => "@ + s,
        ForwardView::Ref(name) => p + " => "@ + s + " => "@ + quoted(name),
        ForwardView::Version(v) => if v == m.source.spec_ver() {
            p + " == "@ + s
        } else {
            p + " => "@ + s + " == "@ + quoted(decimal(v as nat))
        },
    }
}

/// How a mapping of a sheet shows: `"sheet:/path" => "source"`.
pub open spec fn sheet_mapping_display(sheet: Seq<char>, path: Seq<char>, source: IndexSource) -> Seq<char> {
    "\""@ + sheet + ":/"@ + path + "\" => \""@ + source_display(source) + "\""@
}

/// Appends `s` between double quotes.
fn push_quoted(out: &mut Vec<char>, s: &Vec<char>)
    ensures
        final(out)@ == old(out)@ + quoted(s@),
{
    push_text(out, "\"");
    push_chars(out, s);
    push_text(out, "\"");
    assert(final(out)@ =~= old(out)@ + quoted(s@));
}

impl LocalMapping {
    /// The text form of the mapping.
    pub fn to_display_string(&self) -> (r: String)
        ensures
            r@ == local_mapping_display(self@),
    {
        let path = join_chars(&self.val, '/');
        let src = chars_of(self.source.to_display_string().as_str());
        let mut out: Vec<char> = Vec::new();
        push_quoted(&mut out, &path);
        match &self.forward {
            LocalMappingForward::Latest => {
                push_text(&mut out, " => ");
                push_quoted(&mut out, &src);
            },
            LocalMappingForward::Ref { sheet_name } => {
                push_text(&mut out, " => ");
                push_quoted(&mut out, &src);
                push_text(&mut out, " => ");
                let name = chars_of(sheet_name.as_str());
                push_quoted(&mut out, &name);
            },
            LocalMappingForward::Version { version } => {
                if *version == self.source.version() {
                    push_text(&mut out, " == ");
                    push_quoted(&mut out, &src);
                } else {
                    push_text(&mut out, " => ");
                    push_quoted(&mut out, &src);
                    push_text(&mut out, " == ");
                    let digits = decimal_chars(*version as u64);
                    push_quoted(&mut out, &digits);
                }
            },
        }
        assert(out@ =~= local_mapping_display(self@));
        string_of(out.as_slice())
    }
}

/// The text form of a mapping of a sheet: the sheet name in snake_case and
/// the path normalized.
fn sheet_mapping_text(sheet_name: &str, path: &str, source: IndexSource) -> (r: String)
    ensures
        r@ == sheet_mapping_display(just_snake_case(sheet_name@), formatted_path(path@, true), source),
{
    let sheet = snake_case_of(sheet_name);
    let formatted = fmt_path_str_custom(path, true);
    let shown = source.to_display_string();
    let mut out: Vec<char> = Vec::new();
    push_text(&mut out, "\"");
    push_text(&mut out, sheet.as_str());
    push_text(&mut out, ":/");
    push_text(&mut out, formatted.as_str());
    push_text(&mut out, "\" => \"");
    push_text(&mut out, shown.as_str());
    push_text(&mut out, "\"");
    assert(out@ =~= sheet_mapping_display(just_snake_case(sheet_name@), formatted_path(path@, true), source));
    string_of(out.as_slice())
}

impl MappingBuf {
    /// The text form of the mapping: `"sheet:/path" => "source"`, the sheet
    /// name in snake_case and the path normalized.
    pub fn to_display_string(&self) -> (r: String)
        ensures
            r@ == sheet_mapping_display(
                just_snake_case(self@.sheet_name),
                formatted_path(joined(self@.val), true),
                self@.source,
            ),
    {
        let path = join_chars(&self.val, '/');
        let path_text = string_of(path.as_slice());
        sheet_mapping_text(self.sheet_name.as_str(), path_text.as_str(), self.source)
    }
}

impl<'a> Mapping<'a> {
    /// The text form of the mapping: `"sheet:/path" => "source"`, the sheet
    /// name in snake_case and the path normalized.
    pub fn to_display_string(&self) -> (r: String)
        ensures
            r@ == sheet_mapping_display(
                just_snake_case(self.spec_sheet_name()),
                formatted_path(self.spec_val(), true),
                self.spec_source(),
            ),
    {
        sheet_mapping_text(self.sheet_name, self.val, self.source)
    }
}

} // verus!
