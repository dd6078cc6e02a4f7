//! Sheets: the set of mappings of one workspace structure, with the edits
//! that will be applied to it.
use vstd::prelude::*;
use crate::index_source::IndexSource;
use crate::mapping::{
    joined, local_mapping_display, push_text, quoted, source_display, ForwardView, LocalMapping, LocalMappingForward,
    LocalMappingView, MappingBuf, MappingBufView,
};
use crate::sheet::v1::format::{has_path, sheet_bytes};
use crate::text::{decimal, decimal_chars, join_chars, string_of, strings_view};

pub mod error;
pub mod reader;
pub mod v1;
pub mod writer;

verus! {

/// Whether no two mappings share a path.
pub open spec fn distinct_paths(ms: Seq<LocalMappingView>) -> bool {
    forall|i: int, j: int| 0 <= i < ms.len() && 0 <= j < ms.len() && i != j ==> ms[i].val != ms[j].val
}

/// Models of a vector of local mappings.
pub open spec fn mappings_view(v: Seq<LocalMapping>) -> Seq<LocalMappingView> {
    v.map_values(|m: LocalMapping| m@)
}

/// The mappings of a sheet, keyed by path: no two share a path.
#[derive(Debug, Clone, Default)]
pub struct SheetData {
    mappings: Vec<LocalMapping>,
}

impl View for SheetData {
    type V = Seq<LocalMappingView>;

    closed spec fn view(&self) -> Seq<LocalMappingView> {
        mappings_view(self.mappings@)
    }
}

/// Position of the mapping with path `val`, if any.
pub open spec fn path_position(ms: Seq<LocalMappingView>, val: Seq<Seq<char>>) -> Option<int> {
    if exists|i: int| 0 <= i < ms.len() && ms[i].val == val {
        Some(choose|i: int| 0 <= i < ms.len() && ms[i].val == val)
    } else {
        None
    }
}

impl SheetData {
    /// No two mappings share a path.
    pub open spec fn wf(&self) -> bool {
        distinct_paths(self@)
    }

    /// An empty sheet.
    pub fn empty() -> (r: Self)
        ensures
            r.wf(),
            r@ == Seq::<LocalMappingView>::empty(),
    {
        let r = SheetData { mappings: Vec::new() };
        assert(r@ =~= Seq::<LocalMappingView>::empty());
        r
    }

    /// The mappings, in storage order.
    pub fn mappings(&self) -> (r: &Vec<LocalMapping>)
        ensures
            mappings_view(r@) == self@,
    {
        &self.mappings
    }

    /// Sheet data holding the given mappings.
    pub(crate) fn from_mappings(mappings: Vec<LocalMapping>) -> (r: Self)
        ensures
            r@ == mappings_view(mappings@),
    {
        SheetData { mappings }
    }

    /// Position of the mapping with the given path.
    fn find(&self, value: &Vec<String>) -> (r: Option<usize>)
        ensures
            match r {
                Some(i) => i < self@.len() && self@[i as int].val == strings_view(value@),
                None => forall|i: int| 0 <= i < self@.len() ==> self@[i].val != strings_view(value@),
            },
    {
        let mut i: usize = 0;
        while i < self.mappings.len()
            invariant
                0 <= i <= self.mappings.len(),
                forall|j: int| 0 <= j < i ==> self@[j].val != strings_view(value@),
            decreases self.mappings.len() - i,
        {
            if self.mappings[i].same_path(value) {
                return Some(i);
            }
            i = i + 1;
        }
        None
    }

    /// Whether a mapping with the given path exists.
    pub fn contains_mapping(&self, value: &Vec<String>) -> (r: bool)
        ensures
            r == exists|i: int| 0 <= i < self@.len() && self@[i].val == strings_view(value@),
    {
        match self.find(value) {
            Some(i) => true,
            None => false,
        }
    }

    /// The mapping with the given path.
    pub fn read_local_mapping(&self, value: &Vec<String>) -> (r: Option<&LocalMapping>)
        requires
            self.wf(),
        ensures
            match path_position(self@, strings_view(value@)) {
                Some(i) => r matches Some(m) && m@ == self@[i],
                None => r is None,
            },
    {
        match self.find(value) {
            Some(i) => {
                let ghost p = path_position(self@, strings_view(value@))->0;
                assert(p == i as int);
                Some(&self.mappings[i])
            },
            None => None,
        }
    }

    /// Adds a mapping unless one with the same path is there already (the
    /// set semantics of the sheet); returns whether it was added.
    pub fn insert_mapping(&mut self, mapping: LocalMapping) -> (r: bool)
        requires
            old(self).wf(),
        ensures
            final(self).wf(),
            r == !exists|i: int| 0 <= i < old(self)@.len() && old(self)@[i].val == mapping@.val,
            r ==> final(self)@ == old(self)@.push(mapping@),
            !r ==> final(self)@ == old(self)@,
    {
        match self.find(mapping.value()) {
            Some(_) => false,
            None => {
                let ghost before = self@;
                self.mappings.push(mapping);
                assert(self@ =~= before.push(mapping@));
                true
            },
        }
    }

    /// Convert the data to the bytes of a sheet, for storage.
    pub fn as_bytes(self) -> (r: Vec<u8>)
        ensures
            r@ == sheet_bytes(self@),
    {
        crate::sheet::writer::convert_sheet_data_to_bytes(self)
    }

    /// Wrap the data into a sheet with the given name and no pending edits.
    pub fn pack(self, sheet_name: String) -> (r: Sheet)
        ensures
            r@ == (SheetView { name: sheet_name@, data: self@, edits: Seq::<EditView>::empty() }),
    {
        let r = Sheet { name: sheet_name, data: self, edit: SheetEdit { list: Vec::new() } };
        assert(r@.edits =~= Seq::<EditView>::empty());
        r
    }

    /// Whether two sheets hold the same set of paths (mappings compare by
    /// path only).
    pub fn same_paths(&self, other: &Self) -> (r: bool)
        ensures
            r == (self@.len() == other@.len() && forall|i: int| 0 <= i < self@.len() ==> #[trigger] has_path(other@, self@[i].val)),
    {
        if self.mappings.len() != other.mappings.len() {
            return false;
        }
        let mut i: usize = 0;
        while i < self.mappings.len()
            invariant
                0 <= i <= self.mappings.len(),
                self@.len() == other@.len(),
                forall|k: int| 0 <= k < i ==> #[trigger] has_path(other@, self@[k].val),
            decreases self.mappings.len() - i,
        {
            match other.find(self.mappings[i].value()) {
                Some(j) => {
                    assert(self@[i as int].val == other@[j as int].val);
                    assert(has_path(other@, self@[i as int].val));
                },
                None => {
                    assert(!has_path(other@, self@[i as int].val));
                    return false;
                },
            }
            i = i + 1;
        }
        true
    }
}

impl PartialEq for SheetData {
    fn eq(&self, other: &Self) -> (r: bool) {
        self.same_paths(other)
    }
}

impl vstd::std_specs::cmp::PartialEqSpecImpl for SheetData {
    open spec fn obeys_eq_spec() -> bool {
        true
    }

    open spec fn eq_spec(&self, other: &Self) -> bool {
        self@.len() == other@.len() && forall|i: int| 0 <= i < self@.len() ==> #[trigger] has_path(other@, self@[i].val)
    }
}

/// Model of an edit.
pub enum EditView {
    DoNothing,
    Move { from_node: Seq<Seq<char>>, to_node: Seq<Seq<char>> },
    Swap { node_a: Seq<Seq<char>>, node_b: Seq<Seq<char>> },
    EraseMapping { node: Seq<Seq<char>> },
    InsertMapping { mapping: LocalMappingView },
    ReplaceSource { node: Seq<Seq<char>>, source: IndexSource },
    UpdateForward { node: Seq<Seq<char>>, forward: ForwardView },
}

/// An edit that will be performed on a sheet's data.
#[derive(Debug, Clone, Default)]
pub enum SheetEditItem {
    /// Do nothing.
    #[default]
    DoNothing,
    /// Move a mapping's node to another node.
    Move { from_node: Vec<String>, to_node: Vec<String> },
    /// Swap the positions of two mapping nodes.
    Swap { node_a: Vec<String>, node_b: Vec<String> },
    /// Erase the mapping at a node.
    EraseMapping { node: Vec<String> },
    /// Insert a new mapping.
    InsertMapping { mapping: LocalMapping },
    /// Replace the index source of the mapping at a node.
    ReplaceSource { node: Vec<String>, source: IndexSource },
    /// Update the forward direction of the mapping at a node.
    UpdateForward { node: Vec<String>, forward: LocalMappingForward },
}

impl View for SheetEditItem {
    type V = EditView;

    open spec fn view(&self) -> EditView {
        match self {
            SheetEditItem::DoNothing => EditView::DoNothing,
            SheetEditItem::Move { from_node, to_node } => EditView::Move {
                from_node: strings_view(from_node@),
                to_node: strings_view(to_node@),
            },
            SheetEditItem::Swap { node_a, node_b } => EditView::Swap {
                node_a: strings_view(node_a@),
                node_b: strings_view(node_b@),
            },
            SheetEditItem::EraseMapping { node } => EditView::EraseMapping { node: strings_view(node@) },
            SheetEditItem::InsertMapping { mapping } => EditView::InsertMapping { mapping: mapping@ },
            SheetEditItem::ReplaceSource { node, source } => EditView::ReplaceSource {
                node: strings_view(node@),
                source: *source,
            },
            SheetEditItem::UpdateForward { node, forward } => EditView::UpdateForward {
                node: strings_view(node@),
                forward: forward@,
            },
        }
    }
}

/// The pending edits of a sheet.
#[derive(Debug, Clone, Default)]
pub struct SheetEdit {
    list: Vec<SheetEditItem>,
}

/// Model of a sheet.
pub struct SheetView {
    pub name: Seq<char>,
    pub data: Seq<LocalMappingView>,
    pub edits: Seq<EditView>,
}

/// A named sheet: its data and the edits that will be applied to it.
#[derive(Debug, Clone, Default)]
pub struct Sheet {
    name: String,
    data: SheetData,
    edit: SheetEdit,
}

impl View for Sheet {
    type V = SheetView;

    closed spec fn view(&self) -> SheetView {
        SheetView {
            name: self.name@,
            data: self.data@,
            edits: self.edit.list@.map_values(|e: SheetEditItem| e@),
        }
    }
}

/// Error of an edit request.
#[derive(Debug)]
pub enum SheetEditError {
    NodeAlreadyExist(String),
    NodeNotFound(String),
}

impl Sheet {
    /// The data of the sheet, borrowed.
    pub(crate) fn data_ref(&self) -> (r: &SheetData)
        ensures
            r@ == self@.data,
    {
        &self.data
    }

    /// The data of the sheet.
    pub fn unpack(self) -> (r: SheetData)
        ensures
            r@ == self@.data,
    {
        self.data
    }

    /// Whether a mapping with the given path exists.
    pub fn contains_mapping(&self, value: &Vec<String>) -> (r: bool)
        ensures
            r == exists|i: int| 0 <= i < self@.data.len() && self@.data[i].val == strings_view(value@),
    {
        self.data.contains_mapping(value)
    }

    /// The mapping with the given path.
    pub fn read_local_mapping(&self, value: &Vec<String>) -> (r: Option<&LocalMapping>)
        requires
            distinct_paths(self@.data),
        ensures
            match path_position(self@.data, strings_view(value@)) {
                Some(i) => r matches Some(m) && m@ == self@.data[i],
                None => r is None,
            },
    {
        self.data.read_local_mapping(value)
    }

    /// The mapping with the given path, as a `MappingBuf` of this sheet.
    pub fn read_mapping_buf(&self, value: &Vec<String>) -> (r: Option<MappingBuf>)
        requires
            distinct_paths(self@.data),
        ensures
            match path_position(self@.data, strings_view(value@)) {
                Some(i) => r matches Some(b) && b.wf() && b@ == (MappingBufView {
                    sheet_name: self@.name,
                    val: self@.data[i].val,
                    source: self@.data[i].source,
                }),
                None => r is None,
            },
    {
        match self.read_local_mapping(value) {
            Some(v) => Some(v.to_mapping_buf_cloned(self.name.clone())),
            None => None,
        }
    }

    fn push_edit(&mut self, item: SheetEditItem)
        ensures
            final(self)@ == (SheetView { edits: old(self)@.edits.push(item@), ..old(self)@ }),
    {
        let ghost before = self.edit.list@;
        self.edit.list.push(item);
        assert(self.edit.list@.map_values(|e: SheetEditItem| e@) =~= before.map_values(
            |e: SheetEditItem| e@,
        ).push(item@));
    }

    /// Record the insertion of a mapping.
    pub fn insert_mapping(&mut self, mapping: LocalMapping) -> (r: Result<(), SheetEditError>)
        ensures
            r is Ok,
            final(self)@ == (SheetView {
                edits: old(self)@.edits.push(EditView::InsertMapping { mapping: mapping@ }),
                ..old(self)@
            }),
    {
        self.push_edit(SheetEditItem::InsertMapping { mapping });
        Ok(())
    }

    /// Record the erasure of the mapping at a node.
    pub fn earse_mapping(&mut self, node: Vec<String>) -> (r: Result<(), SheetEditError>)
        ensures
            r is Ok,
            final(self)@ == (SheetView {
                edits: old(self)@.edits.push(EditView::EraseMapping { node: strings_view(node@) }),
                ..old(self)@
            }),
    {
        self.push_edit(SheetEditItem::EraseMapping { node });
        Ok(())
    }

    /// Record a swap of two mapping nodes.
    pub fn swap_mapping(&mut self, node_a: Vec<String>, node_b: Vec<String>) -> (r: Result<(), SheetEditError>)
        ensures
            r is Ok,
            final(self)@ == (SheetView {
                edits: old(self)@.edits.push(
                    EditView::Swap { node_a: strings_view(node_a@), node_b: strings_view(node_b@) },
                ),
                ..old(self)@
            }),
    {
        self.push_edit(SheetEditItem::Swap { node_a, node_b });
        Ok(())
    }

    /// Record a move of a mapping node.
    pub fn move_mapping(&mut self, from_node: Vec<String>, to_node: Vec<String>) -> (r: Result<(), SheetEditError>)
        ensures
            r is Ok,
            final(self)@ == (SheetView {
                edits: old(self)@.edits.push(
                    EditView::Move { from_node: strings_view(from_node@), to_node: strings_view(to_node@) },
                ),
                ..old(self)@
            }),
    {
        self.push_edit(SheetEditItem::Move { from_node, to_node });
        Ok(())
    }

    /// Record the replacement of the index source at a node.
    pub fn replace_source(&mut self, node: Vec<String>, source: IndexSource) -> (r: Result<(), SheetEditError>)
        ensures
            r is Ok,
            final(self)@ == (SheetView {
                edits: old(self)@.edits.push(EditView::ReplaceSource { node: strings_view(node@), source }),
                ..old(self)@
            }),
    {
        self.push_edit(SheetEditItem::ReplaceSource { node, source });
        Ok(())
    }

    /// Record an update of the forward direction at a node.
    pub fn update_forward(&mut self, node: Vec<String>, forward: LocalMappingForward) -> (r: Result<(), SheetEditError>)
        ensures
            r is Ok,
            final(self)@ == (SheetView {
                edits: old(self)@.edits.push(
                    EditView::UpdateForward { node: strings_view(node@), forward: forward@ },
                ),
                ..old(self)@
            }),
    {
        self.push_edit(SheetEditItem::UpdateForward { node, forward });
        Ok(())
    }
}

} // verus!

verus! {

/// How an edit shows: the nodes as their paths joined with `/`.
pub open spec fn edit_display(e: EditView) -> Seq<char> {
    match e {
        EditView::DoNothing => Seq::empty(),
        EditView::Move { from_node, to_node } => "Move "@ + quoted(joined(from_node)) + " -> "@ + quoted(
            joined(to_node),
        ),
        EditView::Swap { node_a, node_b } => "Swap "@ + quoted(joined(node_a)) + " <-> "@ + quoted(joined(node_b)),
        EditView::EraseMapping { node } => "Earse "@ + quoted(joined(node)),
        EditView::InsertMapping { mapping } => "Insert "@ + local_mapping_display(mapping),
        EditView::ReplaceSource { node, source } => "Replace "@ + quoted(joined(node)) + " => "@ + quoted(
            source_display(source),
        ),
        EditView::UpdateForward { node, forward } => match forward {
            ForwardView::Latest => "Update "@ + quoted(joined(node)) + " => Latest"@,
            ForwardView::Ref(name) => "Update "@ + quoted(joined(node)) + " => Ref("@ + quoted(name) + ")"@,
            ForwardView::Version(v) => "Update "@ + quoted(joined(node)) + " => Ver("@ + quoted(decimal(v as nat))
                + ")"@,
        },
    }
}

/// Appends `s` between double quotes.
fn push_quoted_text(out: &mut Vec<char>, s: &str)
    ensures
        final(out)@ == old(out)@ + quoted(s@),
{
    push_text(out, "\"");
    push_text(out, s);
    push_text(out, "\"");
    assert(final(out)@ =~= old(out)@ + quoted(s@));
}

/// The path of the nodes: joined with `/`.
fn display_node_helper(n: &Vec<String>) -> (r: String)
    ensures
        r@ == joined(strings_view(n@)),
{
    let j = join_chars(n, '/');
    string_of(j.as_slice())
}

/// Appends the path of the nodes between double quotes.
fn push_node(out: &mut Vec<char>, node: &Vec<String>)
    ensures
        final(out)@ == old(out)@ + quoted(joined(strings_view(node@))),
{
    let t = display_node_helper(node);
    push_quoted_text(out, t.as_str());
}

impl SheetEditItem {
    /// The text form of the edit.
    pub fn to_display_string(&self) -> (r: String)
        ensures
            r@ == edit_display(self@),
    {
        let mut out: Vec<char> = Vec::new();
        match self {
            SheetEditItem::DoNothing => {},
            SheetEditItem::Move { from_node, to_node } => {
                push_text(&mut out, "Move ");
                push_node(&mut out, from_node);
                push_text(&mut out, " -> ");
                push_node(&mut out, to_node);
            },
            SheetEditItem::Swap { node_a, node_b } => {
                push_text(&mut out, "Swap ");
                push_node(&mut out, node_a);
                push_text(&mut out, " <-> ");
                push_node(&mut out, node_b);
            },
            SheetEditItem::EraseMapping { node } => {
                push_text(&mut out, "Earse ");
                push_node(&mut out, node);
            },
            SheetEditItem::InsertMapping { mapping } => {
                push_text(&mut out, "Insert ");
                let m = mapping.to_display_string();
                push_text(&mut out, m.as_str());
            },
            SheetEditItem::ReplaceSource { node, source } => {
                push_text(&mut out, "Replace ");
                push_node(&mut out, node);
                push_text(&mut out, " => ");
                let shown = source.to_display_string();
                push_quoted_text(&mut out, shown.as_str());
            },
            SheetEditItem::UpdateForward { node, forward } => {
                push_text(&mut out, "Update ");
                push_node(&mut out, node);
                match forward {
                    LocalMappingForward::Latest => {
                        push_text(&mut out, " => Latest");
                    },
                    LocalMappingForward::Ref { sheet_name } => {
                        push_text(&mut out, " => Ref(");
                        push_quoted_text(&mut out, sheet_name.as_str());
                        push_text(&mut out, ")");
                    },
                    LocalMappingForward::Version { version } => {
                        push_text(&mut out, " => Ver(");
                        let digits = decimal_chars(*version as u64);
                        let t = string_of(digits.as_slice());
                        push_quoted_text(&mut out, t.as_str());
                        push_text(&mut out, ")");
                    },
                }
            },
        }
        assert(out@ =~= edit_display(self@));
        string_of(out.as_slice())
    }
}

/// A mapping added to a sheet whose paths are distinct is what reading its
/// path then gives, and the paths stay distinct.
pub proof fn lemma_insert_then_read(ms: Seq<LocalMappingView>, m: LocalMappingView)
    requires
        distinct_paths(ms),
        !exists|i: int| 0 <= i < ms.len() && ms[i].val == m.val,
    ensures
        distinct_paths(ms.push(m)),
        path_position(ms.push(m), m.val) == Some(ms.len() as int),
        ms.push(m)[ms.len() as int] == m,
{
    let s = ms.push(m);
    assert(s[ms.len() as int] == m);
    assert forall|i: int, j: int| 0 <= i < s.len() && 0 <= j < s.len() && i != j implies s[i].val != s[j].val by {
        if i < ms.len() && j < ms.len() {
            assert(s[i] == ms[i] && s[j] == ms[j]);
        } else if i < ms.len() {
            assert(s[i] == ms[i]);
        } else {
            assert(s[j] == ms[j]);
        }
    }
    let p = choose|i: int| 0 <= i < s.len() && s[i].val == m.val;
    assert(p == ms.len()) by {
        if p < ms.len() {
            assert(s[p] == ms[p]);
        }
    }
}

} // verus!
