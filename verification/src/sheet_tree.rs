//! A directory tree over the mappings of a sheet: each path node becomes a
//! directory, each last node a mapping leaf.
use vstd::prelude::*;
use crate::mapping::{LocalMapping, LocalMappingView};
use crate::sheet::{distinct_paths, mappings_view, Sheet, SheetData};
use crate::compare::{compare_string, ordering_sign, text_precedence};
use crate::text::{str_eq, strings_view};

verus! {

/// A node of the tree: a directory with its children, or a mapping leaf.
/// Among the children of one directory no two nodes of the same kind share
/// a name.
pub enum SheetDataTreeNode<'a> {
    Directory(&'a str, Vec<SheetDataTreeNode<'a>>),
    Mapping(&'a str, &'a LocalMapping),
}

impl<'a> SheetDataTreeNode<'a> {
    /// The name of the node.
    pub open spec fn name_view(&self) -> Seq<char> {
        match self {
            SheetDataTreeNode::Directory(name, _) => name@,
            SheetDataTreeNode::Mapping(name, _) => name@,
        }
    }

    /// The children of a directory; nothing for a leaf.
    pub open spec fn children_view(&self) -> Seq<SheetDataTreeNode<'a>> {
        match self {
            SheetDataTreeNode::Directory(_, children) => children@,
            SheetDataTreeNode::Mapping(_, _) => Seq::empty(),
        }
    }

    /// The mapping of a leaf.
    pub open spec fn mapping_view(&self) -> LocalMappingView {
        match self {
            SheetDataTreeNode::Mapping(_, m) => m@,
            SheetDataTreeNode::Directory(_, _) => arbitrary(),
        }
    }
}

/// Position of the child with the given name and kind.
pub open spec fn child_at<'a>(ch: Seq<SheetDataTreeNode<'a>>, name: Seq<char>, dir: bool) -> Option<int> {
    if exists|i: int| 0 <= i < ch.len() && #[trigger] ch[i].name_view() == name && (ch[i] is Directory) == dir {
        Some(choose|i: int| 0 <= i < ch.len() && #[trigger] ch[i].name_view() == name && (ch[i] is Directory) == dir)
    } else {
        None
    }
}

/// The mapping found by following `p` down from the children `ch`: every
/// node but the last names a directory, the last one a leaf.
pub open spec fn lookup_in<'a>(ch: Seq<SheetDataTreeNode<'a>>, p: Seq<Seq<char>>) -> Option<LocalMappingView>
    decreases p.len(),
{
    if p.len() == 0 {
        None
    } else if p.len() == 1 {
        match child_at(ch, p[0], false) {
            Some(i) => Some(ch[i].mapping_view()),
            None => None,
        }
    } else {
        match child_at(ch, p[0], true) {
            Some(i) => lookup_in(ch[i].children_view(), p.drop_first()),
            None => None,
        }
    }
}

/// The children of the directory reached by following the directory names
/// `p` down from `ch`.
pub open spec fn dir_in<'a>(ch: Seq<SheetDataTreeNode<'a>>, p: Seq<Seq<char>>) -> Option<Seq<SheetDataTreeNode<'a>>>
    decreases p.len(),
{
    if p.len() == 0 {
        Some(ch)
    } else {
        match child_at(ch, p[0], true) {
            Some(i) => dir_in(ch[i].children_view(), p.drop_first()),
            None => None,
        }
    }
}

/// No two children of the same kind share a name.
pub open spec fn unique_children<'a>(ch: Seq<SheetDataTreeNode<'a>>) -> bool {
    forall|i: int, j: int|
        0 <= i < ch.len() && 0 <= j < ch.len() && i != j && #[trigger] ch[i].name_view() == #[trigger] ch[j].name_view()
            ==> (ch[i] is Directory) != (ch[j] is Directory)
}

/// Every directory of the tree has children that are unique by kind and
/// name, and every directory below the top one has at least one child.
pub open spec fn tree_wf<'a>(ch: Seq<SheetDataTreeNode<'a>>) -> bool {
    forall|p: Seq<Seq<char>>|
        (#[trigger] dir_in(ch, p)) is Some ==> unique_children(dir_in(ch, p)->0) && (p.len() > 0 ==> dir_in(ch, p)->0.len() > 0)
}

/// Outside the child of the given name and kind, `ch2` has the children of
/// `ch` at the same positions.
pub open spec fn same_elsewhere<'a>(
    ch: Seq<SheetDataTreeNode<'a>>,
    ch2: Seq<SheetDataTreeNode<'a>>,
    name: Seq<char>,
    dir: bool,
) -> bool {
    forall|n: Seq<char>, d: bool|
        !(n == name && d == dir) ==> #[trigger] child_at(ch2, n, d) == child_at(ch, n, d) && (child_at(ch, n, d) matches Some(i) ==> ch2[i] == ch[i])
}

proof fn lemma_child_at_found<'a>(ch: Seq<SheetDataTreeNode<'a>>, n: Seq<char>, d: bool, i: int)
    requires
        unique_children(ch),
        0 <= i < ch.len(),
        ch[i].name_view() == n,
        (ch[i] is Directory) == d,
    ensures
        child_at(ch, n, d) == Some(i),
{
    let j = choose|j: int| 0 <= j < ch.len() && #[trigger] ch[j].name_view() == n && (ch[j] is Directory) == d;
    assert(ch[j].name_view() == n && (ch[j] is Directory) == d);
    if j != i {
        assert(ch[i].name_view() == ch[j].name_view());
    }
}

proof fn lemma_child_at_some<'a>(ch: Seq<SheetDataTreeNode<'a>>, n: Seq<char>, d: bool)
    requires
        child_at(ch, n, d) is Some,
    ensures
        0 <= child_at(ch, n, d)->0 < ch.len(),
        ch[child_at(ch, n, d)->0].name_view() == n,
        (ch[child_at(ch, n, d)->0] is Directory) == d,
{
}

/// Adding a child whose name and kind are new.
proof fn lemma_push_frame<'a>(ch: Seq<SheetDataTreeNode<'a>>, x: SheetDataTreeNode<'a>)
    requires
        unique_children(ch),
        child_at(ch, x.name_view(), x is Directory) is None,
    ensures
        unique_children(ch.push(x)),
        child_at(ch.push(x), x.name_view(), x is Directory) == Some(ch.len() as int),
        same_elsewhere(ch, ch.push(x), x.name_view(), x is Directory),
{
    let ch2 = ch.push(x);
    assert forall|i: int, j: int|
        0 <= i < ch2.len() && 0 <= j < ch2.len() && i != j && #[trigger] ch2[i].name_view() == #[trigger] ch2[j].name_view()
        implies (ch2[i] is Directory) != (ch2[j] is Directory) by {
        if i == ch.len() {
            if (ch2[j] is Directory) == (x is Directory) {
                assert(ch[j].name_view() == x.name_view() && (ch[j] is Directory) == (x is Directory));
            }
        } else if j == ch.len() {
            if (ch2[i] is Directory) == (x is Directory) {
                assert(ch[i].name_view() == x.name_view() && (ch[i] is Directory) == (x is Directory));
            }
        } else {
            assert(ch2[i] == ch[i] && ch2[j] == ch[j]);
        }
    }
    lemma_child_at_found(ch2, x.name_view(), x is Directory, ch.len() as int);
    assert forall|n: Seq<char>, d: bool| !(n == x.name_view() && d == (x is Directory)) implies
        #[trigger] child_at(ch2, n, d) == child_at(ch, n, d) && (child_at(ch, n, d) matches Some(i) ==> ch2[i] == ch[i]) by {
        if child_at(ch, n, d) is Some {
            lemma_child_at_some(ch, n, d);
            let i = child_at(ch, n, d)->0;
            assert(ch2[i] == ch[i]);
            lemma_child_at_found(ch2, n, d, i);
        } else {
            if child_at(ch2, n, d) is Some {
                lemma_child_at_some(ch2, n, d);
                let i = child_at(ch2, n, d)->0;
                if i < ch.len() {
                    assert(ch2[i] == ch[i]);
                    assert(ch[i].name_view() == n && (ch[i] is Directory) == d);
                }
            }
        }
    }
}

/// Replacing a child by one of the same name and kind.
proof fn lemma_update_frame<'a>(ch: Seq<SheetDataTreeNode<'a>>, i: int, x: SheetDataTreeNode<'a>)
    requires
        unique_children(ch),
        0 <= i < ch.len(),
        ch[i].name_view() == x.name_view(),
        (ch[i] is Directory) == (x is Directory),
    ensures
        unique_children(ch.update(i, x)),
        child_at(ch.update(i, x), x.name_view(), x is Directory) == Some(i),
        same_elsewhere(ch, ch.update(i, x), x.name_view(), x is Directory),
{
    let ch2 = ch.update(i, x);
    assert forall|a: int, b: int|
        0 <= a < ch2.len() && 0 <= b < ch2.len() && a != b && #[trigger] ch2[a].name_view() == #[trigger] ch2[b].name_view()
        implies (ch2[a] is Directory) != (ch2[b] is Directory) by {
        assert(ch[a].name_view() == ch2[a].name_view() && (ch[a] is Directory) == (ch2[a] is Directory));
        assert(ch[b].name_view() == ch2[b].name_view() && (ch[b] is Directory) == (ch2[b] is Directory));
    }
    lemma_child_at_found(ch2, x.name_view(), x is Directory, i);
    assert forall|n: Seq<char>, d: bool| !(n == x.name_view() && d == (x is Directory)) implies
        #[trigger] child_at(ch2, n, d) == child_at(ch, n, d) && (child_at(ch, n, d) matches Some(j) ==> ch2[j] == ch[j]) by {
        if child_at(ch, n, d) is Some {
            lemma_child_at_some(ch, n, d);
            let j = child_at(ch, n, d)->0;
            assert(j != i);
            assert(ch2[j] == ch[j]);
            lemma_child_at_found(ch2, n, d, j);
        } else {
            if child_at(ch2, n, d) is Some {
                lemma_child_at_some(ch2, n, d);
                let j = child_at(ch2, n, d)->0;
                assert(j != i);
                assert(ch2[j] == ch[j]);
                assert(ch[j].name_view() == n && (ch[j] is Directory) == d);
            }
        }
    }
}

/// Lookups and directories after the directory `name` of `ch` was replaced
/// by one with the children `c2`, all else kept.
proof fn lemma_dir_frame<'a>(
    ch: Seq<SheetDataTreeNode<'a>>,
    ch2: Seq<SheetDataTreeNode<'a>>,
    name: Seq<char>,
    c2: Seq<SheetDataTreeNode<'a>>,
)
    requires
        same_elsewhere(ch, ch2, name, true),
        child_at(ch2, name, true) is Some,
        ch2[child_at(ch2, name, true)->0].children_view() == c2,
    ensures
        forall|q: Seq<Seq<char>>| q.len() > 1 && q[0] == name ==> #[trigger] lookup_in(ch2, q) == lookup_in(c2, q.drop_first()),
        forall|q: Seq<Seq<char>>| !(q.len() > 1 && q[0] == name) ==> #[trigger] lookup_in(ch2, q) == lookup_in(ch, q),
        forall|p: Seq<Seq<char>>| p.len() > 0 && p[0] == name ==> #[trigger] dir_in(ch2, p) == dir_in(c2, p.drop_first()),
        forall|p: Seq<Seq<char>>| p.len() > 0 && p[0] != name ==> #[trigger] dir_in(ch2, p) == dir_in(ch, p),
{
    assert forall|q: Seq<Seq<char>>| !(q.len() > 1 && q[0] == name) implies #[trigger] lookup_in(ch2, q) == lookup_in(ch, q) by {
        if q.len() == 1 {
            assert(child_at(ch2, q[0], false) == child_at(ch, q[0], false));
        } else if q.len() > 1 {
            assert(child_at(ch2, q[0], true) == child_at(ch, q[0], true));
        }
    }
    assert forall|p: Seq<Seq<char>>| p.len() > 0 && p[0] != name implies #[trigger] dir_in(ch2, p) == dir_in(ch, p) by {
        assert(child_at(ch2, p[0], true) == child_at(ch, p[0], true));
    }
}

/// Lookups and directories after the leaf `name` was added to `ch` with
/// the mapping `m`, all else kept.
proof fn lemma_leaf_frame<'a>(
    ch: Seq<SheetDataTreeNode<'a>>,
    ch2: Seq<SheetDataTreeNode<'a>>,
    name: Seq<char>,
    m: LocalMappingView,
)
    requires
        same_elsewhere(ch, ch2, name, false),
        child_at(ch2, name, false) is Some,
        ch2[child_at(ch2, name, false)->0].mapping_view() == m,
    ensures
        forall|q: Seq<Seq<char>>| #[trigger] lookup_in(ch2, q) == if q == seq![name] { Some(m) } else { lookup_in(ch, q) },
        forall|p: Seq<Seq<char>>| p.len() > 0 ==> #[trigger] dir_in(ch2, p) == dir_in(ch, p),
{
    assert forall|q: Seq<Seq<char>>| #[trigger] lookup_in(ch2, q) == if q == seq![name] { Some(m) } else { lookup_in(ch, q) } by {
        if q.len() == 1 {
            if q[0] == name {
                assert(q =~= seq![name]);
            } else {
                assert(q != seq![name]);
                assert(child_at(ch2, q[0], false) == child_at(ch, q[0], false));
            }
        } else if q.len() > 1 {
            assert(q != seq![name]);
            assert(child_at(ch2, q[0], true) == child_at(ch, q[0], true));
        }
    }
    assert forall|p: Seq<Seq<char>>| p.len() > 0 implies #[trigger] dir_in(ch2, p) == dir_in(ch, p) by {
        assert(child_at(ch2, p[0], true) == child_at(ch, p[0], true));
    }
}

/// The children of a directory of a well-formed tree form a well-formed
/// tree.
proof fn lemma_subtree_wf<'a>(ch: Seq<SheetDataTreeNode<'a>>, name: Seq<char>)
    requires
        tree_wf(ch),
        child_at(ch, name, true) is Some,
    ensures
        tree_wf(ch[child_at(ch, name, true)->0].children_view()),
        ch[child_at(ch, name, true)->0].children_view().len() > 0,
{
    let c = ch[child_at(ch, name, true)->0].children_view();
    assert forall|p: Seq<Seq<char>>| (#[trigger] dir_in(c, p)) is Some implies
        unique_children(dir_in(c, p)->0) && (p.len() > 0 ==> dir_in(c, p)->0.len() > 0) by {
        let full = seq![name] + p;
        assert(full.drop_first() =~= p);
        assert(full[0] == name);
        assert(dir_in(ch, full) == dir_in(c, p));
    }
    let one = seq![name];
    assert(one.drop_first() =~= Seq::<Seq<char>>::empty());
    assert(dir_in(ch, one) == dir_in(c, Seq::<Seq<char>>::empty()));
}

impl<'a> SheetDataTreeNode<'a> {
    /// The name of the node.
    fn node_name(&self) -> (r: &'a str)
        ensures
            r@ == self.name_view(),
    {
        match self {
            SheetDataTreeNode::Directory(name, _) => *name,
            SheetDataTreeNode::Mapping(name, _) => *name,
        }
    }

    /// Whether the node is a directory.
    fn node_is_dir(&self) -> (r: bool)
        ensures
            r == (*self is Directory),
    {
        match self {
            SheetDataTreeNode::Directory(_, _) => true,
            SheetDataTreeNode::Mapping(_, _) => false,
        }
    }
}

/// Position of the child with the given name and kind.
fn find_child<'a>(nodes: &Vec<SheetDataTreeNode<'a>>, name: &str, dir: bool) -> (r: Option<usize>)
    requires
        unique_children(nodes@),
    ensures
        match r {
            Some(i) => child_at(nodes@, name@, dir) == Some(i as int),
            None => child_at(nodes@, name@, dir) is None,
        },
{
    let mut i: usize = 0;
    while i < nodes.len()
        invariant
            0 <= i <= nodes.len(),
            unique_children(nodes@),
            forall|j: int| 0 <= j < i ==> !(#[trigger] nodes@[j].name_view() == name@ && (nodes@[j] is Directory) == dir),
        decreases nodes.len() - i,
    {
        if nodes[i].node_is_dir() == dir && str_eq(nodes[i].node_name(), name) {
            proof {
                lemma_child_at_found(nodes@, name@, dir, i as int);
            }
            return Some(i);
        }
        i = i + 1;
    }
    None
}

/// Adds the mapping under the path nodes `parts[k..]` to the children
/// `nodes`, making the missing directories; a leaf already there stays.
fn insert_mapping_into_tree<'a>(
    nodes: &mut Vec<SheetDataTreeNode<'a>>,
    parts: &'a Vec<String>,
    k: usize,
    mapping: &'a LocalMapping,
)
    requires
        k < parts.len(),
        tree_wf(old(nodes)@),
    ensures
        tree_wf(final(nodes)@),
        final(nodes)@.len() > 0,
        forall|q: Seq<Seq<char>>|
            #[trigger] lookup_in(final(nodes)@, q) == if q == strings_view(parts@).skip(k as int) && lookup_in(old(nodes)@, q) is None {
                Some(mapping@)
            } else {
                lookup_in(old(nodes)@, q)
            },
    decreases parts.len() - k,
{
    let ghost old_nodes = nodes@;
    let ghost rest = strings_view(parts@).skip(k as int);
    let part: &'a str = parts[k].as_str();
    assert(rest[0] == part@);
    assert(unique_children(nodes@)) by {
        assert(dir_in(old_nodes, Seq::<Seq<char>>::empty()) == Some(old_nodes));
    }
    if k + 1 == parts.len() {
        assert(rest =~= seq![part@]);
        match find_child(nodes, part, false) {
            Some(i) => {
                proof {
                    lemma_child_at_some(old_nodes, part@, false);
                    assert(lookup_in(old_nodes, rest) is Some);
                }
            },
            None => {
                let leaf = SheetDataTreeNode::Mapping(part, mapping);
                nodes.push(leaf);
                proof {
                    lemma_push_frame(old_nodes, leaf);
                    lemma_leaf_frame(old_nodes, nodes@, part@, mapping@);
                    assert(lookup_in(old_nodes, rest) is None);
                    assert forall|p: Seq<Seq<char>>| (#[trigger] dir_in(nodes@, p)) is Some implies
                        unique_children(dir_in(nodes@, p)->0) && (p.len() > 0 ==> dir_in(nodes@, p)->0.len() > 0) by {
                        if p.len() > 0 {
                            assert(dir_in(nodes@, p) == dir_in(old_nodes, p));
                        }
                    }
                }
            },
        }
    } else {
        let ghost tail = strings_view(parts@).skip(k + 1);
        assert(rest.drop_first() =~= tail);
        assert(rest.len() > 1);
        match find_child(nodes, part, true) {
            Some(i) => {
                let node = nodes.remove(i);
                match node {
                    SheetDataTreeNode::Directory(name, children) => {
                        let mut children = children;
                        let ghost c = children@;
                        proof {
                            lemma_child_at_some(old_nodes, part@, true);
                            lemma_subtree_wf(old_nodes, part@);
                        }
                        insert_mapping_into_tree(&mut children, parts, k + 1, mapping);
                        let ghost c2 = children@;
                        let dir = SheetDataTreeNode::Directory(name, children);
                        nodes.insert(i, dir);
                        proof {
                            assert(nodes@ =~= old_nodes.update(i as int, dir));
                            lemma_update_frame(old_nodes, i as int, dir);
                            lemma_dir_frame(old_nodes, nodes@, part@, c2);
                            lemma_dir_frame(old_nodes, old_nodes, part@, c);
                            lemma_tree_after(old_nodes, nodes@, part@, c2);
                            lemma_lookup_after(old_nodes, nodes@, part@, c, c2, rest, mapping@);
                        }
                    },
                    SheetDataTreeNode::Mapping(name, m) => {
                        proof {
                            lemma_child_at_some(old_nodes, part@, true);
                        }
                        nodes.insert(i, SheetDataTreeNode::Mapping(name, m));
                    },
                }
            },
            None => {
                let mut children: Vec<SheetDataTreeNode<'a>> = Vec::new();
                let ghost c = children@;
                proof {
                    assert forall|p: Seq<Seq<char>>| (#[trigger] dir_in(c, p)) is Some implies
                        unique_children(dir_in(c, p)->0) && (p.len() > 0 ==> dir_in(c, p)->0.len() > 0) by {
                        if p.len() > 0 {
                            assert(child_at(c, p[0], true) is None);
                        }
                    }
                }
                insert_mapping_into_tree(&mut children, parts, k + 1, mapping);
                let ghost c2 = children@;
                let dir = SheetDataTreeNode::Directory(part, children);
                nodes.push(dir);
                proof {
                    lemma_push_frame(old_nodes, dir);
                    lemma_dir_frame(old_nodes, nodes@, part@, c2);
                    lemma_lookup_empty(c);
                    lemma_tree_after(old_nodes, nodes@, part@, c2);
                    lemma_lookup_after(old_nodes, nodes@, part@, c, c2, rest, mapping@);
                }
            },
        }
    }
}

/// Nothing is found below an empty directory.
proof fn lemma_lookup_empty<'a>(c: Seq<SheetDataTreeNode<'a>>)
    requires
        c.len() == 0,
    ensures
        forall|q: Seq<Seq<char>>| #[trigger] lookup_in(c, q) is None,
{
    assert forall|q: Seq<Seq<char>>| #[trigger] lookup_in(c, q) is None by {
        if q.len() > 0 {
            assert(child_at(c, q[0], false) is None);
            assert(child_at(c, q[0], true) is None);
        }
    }
}

/// The tree stays well formed when one of its directories is replaced by a
/// well-formed non-empty one.
proof fn lemma_tree_after<'a>(
    ch: Seq<SheetDataTreeNode<'a>>,
    ch2: Seq<SheetDataTreeNode<'a>>,
    name: Seq<char>,
    c2: Seq<SheetDataTreeNode<'a>>,
)
    requires
        tree_wf(ch),
        unique_children(ch2),
        tree_wf(c2),
        c2.len() > 0,
        forall|p: Seq<Seq<char>>| p.len() > 0 && p[0] == name ==> #[trigger] dir_in(ch2, p) == dir_in(c2, p.drop_first()),
        forall|p: Seq<Seq<char>>| p.len() > 0 && p[0] != name ==> #[trigger] dir_in(ch2, p) == dir_in(ch, p),
    ensures
        tree_wf(ch2),
{
    assert forall|p: Seq<Seq<char>>| (#[trigger] dir_in(ch2, p)) is Some implies
        unique_children(dir_in(ch2, p)->0) && (p.len() > 0 ==> dir_in(ch2, p)->0.len() > 0) by {
        if p.len() > 0 {
            if p[0] == name {
                let t = p.drop_first();
                assert(dir_in(c2, t) is Some);
                if t.len() == 0 {
                    assert(dir_in(c2, t) == Some(c2));
                }
            } else {
                assert(dir_in(ch, p) is Some);
            }
        }
    }
}

/// What is found after the directory `name` with children `c` was replaced
/// by one with children `c2` that hold the mapping under `rest.drop_first()`.
proof fn lemma_lookup_after<'a>(
    ch: Seq<SheetDataTreeNode<'a>>,
    ch2: Seq<SheetDataTreeNode<'a>>,
    name: Seq<char>,
    c: Seq<SheetDataTreeNode<'a>>,
    c2: Seq<SheetDataTreeNode<'a>>,
    rest: Seq<Seq<char>>,
    m: LocalMappingView,
)
    requires
        rest.len() > 1,
        rest[0] == name,
        forall|q: Seq<Seq<char>>| q.len() > 1 && q[0] == name ==> #[trigger] lookup_in(ch2, q) == lookup_in(c2, q.drop_first()),
        forall|q: Seq<Seq<char>>| !(q.len() > 1 && q[0] == name) ==> #[trigger] lookup_in(ch2, q) == lookup_in(ch, q),
        forall|q: Seq<Seq<char>>| q.len() > 1 && q[0] == name ==> #[trigger] lookup_in(ch, q) == lookup_in(c, q.drop_first()),
        forall|q: Seq<Seq<char>>|
            #[trigger] lookup_in(c2, q) == if q == rest.drop_first() && lookup_in(c, q) is None { Some(m) } else { lookup_in(c, q) },
    ensures
        forall|q: Seq<Seq<char>>|
            #[trigger] lookup_in(ch2, q) == if q == rest && lookup_in(ch, q) is None { Some(m) } else { lookup_in(ch, q) },
{
    assert forall|q: Seq<Seq<char>>|
        #[trigger] lookup_in(ch2, q) == if q == rest && lookup_in(ch, q) is None { Some(m) } else { lookup_in(ch, q) } by {
        if q.len() > 1 && q[0] == name {
            let t = q.drop_first();
            assert(lookup_in(c2, t) == if t == rest.drop_first() && lookup_in(c, t) is None { Some(m) } else { lookup_in(c, t) });
            if t == rest.drop_first() {
                assert(q =~= seq![name] + t);
                assert(rest =~= seq![name] + rest.drop_first());
            } else {
                assert(q != rest);
            }
        } else {
            assert(q != rest);
        }
    }
}

/// The first mapping of `ms` with the path `p`.
pub open spec fn first_with_path(ms: Seq<LocalMappingView>, p: Seq<Seq<char>>) -> Option<LocalMappingView>
    decreases ms.len(),
{
    if ms.len() == 0 {
        None
    } else {
        let before = first_with_path(ms.drop_last(), p);
        if before is None && ms.last().val == p {
            Some(ms.last())
        } else {
            before
        }
    }
}

/// The tree of a sheet's mappings, with the data it was built from.
pub struct SheetDataTree<'a> {
    raw_data: &'a SheetData,
    root: SheetDataTreeNode<'a>,
}

impl<'a> SheetDataTree<'a> {
    /// The root node: a directory named with the empty text.
    pub closed spec fn root_view(&self) -> SheetDataTreeNode<'a> {
        self.root
    }

    /// The mappings the tree was built from.
    pub closed spec fn data_view(&self) -> Seq<LocalMappingView> {
        self.raw_data@
    }

    /// The tree of the given data: every mapping with a non-empty path is a
    /// leaf under the directories of its path; of mappings sharing a path
    /// the first stays.
    pub fn from_data(value: &'a SheetData) -> (r: Self)
        ensures
            r.data_view() == value@,
            r.root_view() is Directory,
            r.root_view().name_view() == Seq::<char>::empty(),
            tree_wf(r.root_view().children_view()),
            forall|p: Seq<Seq<char>>|
                p.len() > 0 ==> #[trigger] lookup_in(r.root_view().children_view(), p) == first_with_path(value@, p),
    {
        let ms = value.mappings();
        let mut root: Vec<SheetDataTreeNode<'a>> = Vec::new();
        proof {
            assert forall|p: Seq<Seq<char>>| (#[trigger] dir_in(root@, p)) is Some implies
                unique_children(dir_in(root@, p)->0) && (p.len() > 0 ==> dir_in(root@, p)->0.len() > 0) by {
                if p.len() > 0 {
                    assert(child_at(root@, p[0], true) is None);
                }
            }
            lemma_lookup_empty(root@);
        }
        let mut i: usize = 0;
        while i < ms.len()
            invariant
                0 <= i <= ms.len(),
                mappings_view(ms@) == value@,
                tree_wf(root@),
                forall|p: Seq<Seq<char>>|
                    p.len() > 0 ==> #[trigger] lookup_in(root@, p) == first_with_path(value@.take(i as int), p),
            decreases ms.len() - i,
        {
            let mapping: &'a LocalMapping = &ms[i];
            let parts: &'a Vec<String> = mapping.value();
            let ghost before = root@;
            let ghost taken = value@.take(i as int);
            let ghost next = value@.take(i + 1);
            assert(next.drop_last() =~= taken);
            assert(next.last() == mapping@);
            if parts.len() > 0 {
                insert_mapping_into_tree(&mut root, parts, 0, mapping);
                assert(strings_view(parts@).skip(0) =~= mapping@.val);
            }
            assert forall|p: Seq<Seq<char>>| p.len() > 0 implies #[trigger] lookup_in(root@, p) == first_with_path(next, p) by {
                assert(lookup_in(before, p) == first_with_path(taken, p));
            }
            i = i + 1;
        }
        assert(value@.take(ms.len() as int) =~= value@);
        proof {
            reveal_strlit("");
        }
        SheetDataTree { raw_data: value, root: SheetDataTreeNode::Directory("", root) }
    }

    /// The root of the tree, from which it is walked.
    pub fn root(&self) -> (r: &SheetDataTreeNode<'a>)
        ensures
            *r == self.root_view(),
    {
        &self.root
    }

    /// The data the tree was built from.
    pub fn data(&self) -> (r: &'a SheetData)
        ensures
            r@ == self.data_view(),
    {
        self.raw_data
    }
}

impl<'a> From<&'a SheetData> for SheetDataTree<'a> {
    fn from(value: &'a SheetData) -> (r: Self)
        ensures
            r.data_view() == value@,
            r.root_view() is Directory,
            r.root_view().name_view() == Seq::<char>::empty(),
            tree_wf(r.root_view().children_view()),
            forall|p: Seq<Seq<char>>|
                p.len() > 0 ==> #[trigger] lookup_in(r.root_view().children_view(), p) == first_with_path(value@, p),
    {
        SheetDataTree::from_data(value)
    }
}

/// This impl goes with the `From` impl above, as Verus needs; no spec value
/// of a tree (its nodes are built by the walk over the mappings) can be written, so the conversion's contract is the
/// one stated on `from`.
impl<'a> vstd::std_specs::convert::FromSpecImpl<&'a SheetData> for SheetDataTree<'a> {
    open spec fn obeys_from_spec() -> bool {
        false
    }

    open spec fn from_spec(v: &'a SheetData) -> Self {
        arbitrary()
    }
}

impl<'a> From<&'a Sheet> for SheetDataTree<'a> {
    fn from(value: &'a Sheet) -> (r: Self)
        ensures
            r.data_view() == value@.data,
            r.root_view() is Directory,
            r.root_view().name_view() == Seq::<char>::empty(),
            tree_wf(r.root_view().children_view()),
            forall|p: Seq<Seq<char>>|
                p.len() > 0 ==> #[trigger] lookup_in(r.root_view().children_view(), p) == first_with_path(value@.data, p),
    {
        SheetDataTree::from_data(value.data_ref())
    }
}

/// This impl goes with the `From` impl above, as Verus needs; no spec value
/// of a tree (its nodes are built by the walk over the mappings) can be written, so the conversion's contract is the
/// one stated on `from`.
impl<'a> vstd::std_specs::convert::FromSpecImpl<&'a Sheet> for SheetDataTree<'a> {
    open spec fn obeys_from_spec() -> bool {
        false
    }

    open spec fn from_spec(v: &'a Sheet) -> Self {
        arbitrary()
    }
}

impl<'a> SheetDataTreeNode<'a> {
    /// The child with the given name, the first one where a directory and a
    /// leaf share it; nothing for a leaf node.
    pub fn next(&self, name: &str) -> (r: Option<&SheetDataTreeNode<'a>>)
        ensures
            match r {
                Some(c) => exists|i: int|
                    0 <= i < self.children_view().len() && self.children_view()[i] == *c && c.name_view() == name@
                        && forall|j: int| 0 <= j < i ==> #[trigger] self.children_view()[j].name_view() != name@,
                None => forall|i: int| 0 <= i < self.children_view().len() ==> #[trigger] self.children_view()[i].name_view() != name@,
            },
    {
        match self {
            SheetDataTreeNode::Directory(_, nodes) => {
                let mut i: usize = 0;
                while i < nodes.len()
                    invariant
                        0 <= i <= nodes.len(),
                        nodes@ == self.children_view(),
                        forall|j: int| 0 <= j < i ==> #[trigger] nodes@[j].name_view() != name@,
                    decreases nodes.len() - i,
                {
                    if str_eq(nodes[i].node_name(), name) {
                        return Some(&nodes[i]);
                    }
                    i = i + 1;
                }
                None
            },
            SheetDataTreeNode::Mapping(_, _) => None,
        }
    }

    /// The mapping of a leaf; nothing for a directory.
    pub fn mapping(&self) -> (r: Option<&'a LocalMapping>)
        ensures
            match self {
                SheetDataTreeNode::Mapping(_, m) => r == Some(*m),
                SheetDataTreeNode::Directory(_, _) => r is None,
            },
    {
        match self {
            SheetDataTreeNode::Mapping(_, mapping) => Some(*mapping),
            SheetDataTreeNode::Directory(_, _) => None,
        }
    }

    /// The children of a directory; nothing for a leaf.
    pub fn dir(&'a self) -> (r: Option<&'a Vec<SheetDataTreeNode<'a>>>)
        ensures
            match self {
                SheetDataTreeNode::Directory(_, children) => r == Some(children),
                SheetDataTreeNode::Mapping(_, _) => r is None,
            },
    {
        match self {
            SheetDataTreeNode::Directory(_, children) => Some(children),
            SheetDataTreeNode::Mapping(_, _) => None,
        }
    }

    /// The mapping of a leaf node.
    pub fn unwrap_mapping(&self) -> (r: &'a LocalMapping)
        requires
            *self is Mapping,
        ensures
            self matches SheetDataTreeNode::Mapping(_, m) && r == *m,
    {
        match self {
            SheetDataTreeNode::Mapping(_, mapping) => *mapping,
            SheetDataTreeNode::Directory(_, _) => {
                vstd::pervasive::unreached()
            },
        }
    }

    /// The children of a directory node.
    pub fn unwrap_dir(&'a self) -> (r: &'a Vec<SheetDataTreeNode<'a>>)
        requires
            *self is Directory,
        ensures
            self matches SheetDataTreeNode::Directory(_, children) && r == children,
    {
        match self {
            SheetDataTreeNode::Directory(_, children) => children,
            SheetDataTreeNode::Mapping(_, _) => {
                vstd::pervasive::unreached()
            },
        }
    }

    /// The mapping of a leaf, or `default` for a directory.
    pub fn unwrap_mapping_or(&self, default: &'a LocalMapping) -> (r: &'a LocalMapping)
        ensures
            match self {
                SheetDataTreeNode::Mapping(_, m) => r == *m,
                SheetDataTreeNode::Directory(_, _) => r == default,
            },
    {
        match self {
            SheetDataTreeNode::Mapping(_, mapping) => *mapping,
            SheetDataTreeNode::Directory(_, _) => default,
        }
    }

    /// The mapping of a leaf, or what `f` gives for a directory.
    pub fn unwrap_mapping_or_else<F>(&self, f: F) -> (r: &'a LocalMapping)
        where
            F: FnOnce() -> &'a LocalMapping,
        requires
            *self is Directory ==> call_requires(f, ()),
        ensures
            match self {
                SheetDataTreeNode::Mapping(_, m) => r == *m,
                SheetDataTreeNode::Directory(_, _) => call_ensures(f, (), r),
            },
    {
        match self {
            SheetDataTreeNode::Mapping(_, mapping) => *mapping,
            SheetDataTreeNode::Directory(_, _) => f(),
        }
    }

    /// The children of a directory, or `default` for a leaf.
    pub fn unwrap_dir_or(&'a self, default: &'a Vec<SheetDataTreeNode<'a>>) -> (r: &'a Vec<SheetDataTreeNode<'a>>)
        ensures
            match self {
                SheetDataTreeNode::Directory(_, children) => r == children,
                SheetDataTreeNode::Mapping(_, _) => r == default,
            },
    {
        match self {
            SheetDataTreeNode::Directory(_, children) => children,
            SheetDataTreeNode::Mapping(_, _) => default,
        }
    }

    /// The children of a directory, or what `f` gives for a leaf.
    pub fn unwrap_dir_or_else<F>(&'a self, f: F) -> (r: &'a Vec<SheetDataTreeNode<'a>>)
        where
            F: FnOnce() -> &'a Vec<SheetDataTreeNode<'a>>,
        requires
            *self is Mapping ==> call_requires(f, ()),
        ensures
            match self {
                SheetDataTreeNode::Directory(_, children) => r == children,
                SheetDataTreeNode::Mapping(_, _) => call_ensures(f, (), r),
            },
    {
        match self {
            SheetDataTreeNode::Directory(_, children) => children,
            SheetDataTreeNode::Mapping(_, _) => f(),
        }
    }

    /// Whether this is a leaf node.
    pub fn is_mapping(&self) -> (r: bool)
        ensures
            r == (*self is Mapping),
    {
        match self {
            SheetDataTreeNode::Mapping(_, _) => true,
            SheetDataTreeNode::Directory(_, _) => false,
        }
    }

    /// Whether this is a directory node.
    pub fn is_dir(&self) -> (r: bool)
        ensures
            r == (*self is Directory),
    {
        self.node_is_dir()
    }

    /// The name of the node, which a directory looks its children up by.
    pub fn name(&self) -> (r: &'a str)
        ensures
            r@ == self.name_view(),
    {
        self.node_name()
    }

    /// The order of two nodes: directories before mappings, and nodes of
    /// one kind by name, in the order of `compare_string`.
    pub fn compare(&self, other: &Self) -> (r: std::cmp::Ordering)
        requires
            (*self is Directory) == (*other is Directory) ==> text_precedence(self.name_view(), other.name_view(), 0, 0) is Some,
        ensures
            (*self is Directory) && (*other is Mapping) ==> r == std::cmp::Ordering::Less,
            (*self is Mapping) && (*other is Directory) ==> r == std::cmp::Ordering::Greater,
            (*self is Directory) == (*other is Directory) ==> text_precedence(self.name_view(), other.name_view(), 0, 0)
                == Some(ordering_sign(r)),
    {
        let a = self.node_is_dir();
        let b = other.node_is_dir();
        if a && !b {
            std::cmp::Ordering::Less
        } else if !a && b {
            std::cmp::Ordering::Greater
        } else {
            compare_string(self.node_name(), other.node_name())
        }
    }
}

impl<'a> PartialEq for SheetDataTreeNode<'a> {
    /// Two nodes are equal when they are of one kind and share a name.
    fn eq(&self, other: &Self) -> (r: bool) {
        self.node_is_dir() == other.node_is_dir() && str_eq(self.node_name(), other.node_name())
    }
}

impl<'a> vstd::std_specs::cmp::PartialEqSpecImpl for SheetDataTreeNode<'a> {
    open spec fn obeys_eq_spec() -> bool {
        true
    }

    open spec fn eq_spec(&self, other: &Self) -> bool {
        ((*self is Directory) == (*other is Directory)) && self.name_view() == other.name_view()
    }
}

impl<'a, 'b> PartialEq<&'b str> for SheetDataTreeNode<'a> {
    /// A node equals a name when it has that name.
    fn eq(&self, other: &&'b str) -> (r: bool) {
        str_eq(self.node_name(), *other)
    }
}

impl<'a, 'b> vstd::std_specs::cmp::PartialEqSpecImpl<&'b str> for SheetDataTreeNode<'a> {
    open spec fn obeys_eq_spec() -> bool {
        true
    }

    open spec fn eq_spec(&self, other: &&'b str) -> bool {
        self.name_view() == other@
    }
}

/// In data whose paths are distinct, the mapping found at a path is the one
/// mapping with that path, and no mapping is found at any other path: the
/// tree of a sheet holds every mapping of the sheet at its path and nothing
/// else.
pub proof fn lemma_first_with_path_distinct(ms: Seq<LocalMappingView>, p: Seq<Seq<char>>)
    requires
        distinct_paths(ms),
    ensures
        match first_with_path(ms, p) {
            Some(m) => exists|i: int| 0 <= i < ms.len() && ms[i] == m && m.val == p,
            None => forall|i: int| 0 <= i < ms.len() ==> ms[i].val != p,
        },
        forall|i: int| 0 <= i < ms.len() && ms[i].val == p ==> first_with_path(ms, p) == Some(ms[i]),
    decreases ms.len(),
{
    if ms.len() > 0 {
        let init = ms.drop_last();
        assert(distinct_paths(init)) by {
            assert forall|i: int, j: int| 0 <= i < init.len() && 0 <= j < init.len() && i != j implies init[i].val != init[j].val by {
                assert(init[i] == ms[i] && init[j] == ms[j]);
            }
        }
        lemma_first_with_path_distinct(init, p);
        assert forall|i: int| 0 <= i < ms.len() && ms[i].val == p implies first_with_path(ms, p) == Some(ms[i]) by {
            if i < ms.len() - 1 {
                assert(init[i] == ms[i]);
                assert(ms.last().val != p);
            } else {
                assert(forall|j: int| 0 <= j < init.len() ==> init[j] == ms[j]);
            }
        }
        if first_with_path(init, p) is Some {
            let m = first_with_path(init, p)->0;
            let i = choose|i: int| 0 <= i < init.len() && init[i] == m && m.val == p;
            assert(ms[i] == init[i]);
        } else if ms.last().val != p {
            assert forall|i: int| 0 <= i < ms.len() implies ms[i].val != p by {
                if i < ms.len() - 1 {
                    assert(init[i] == ms[i]);
                }
            }
        }
    }
}

} // verus!
