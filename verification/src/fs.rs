//! The read-only inode tree of the virtual filesystem: directories and
//! `.mkv` files built from the indexed media items, with lookups, listings
//! and the shape of each node's attributes.
use std::collections::HashMap;

use vstd::prelude::*;

use crate::media::{FileTime, MediaItem};
use crate::order::{chars_less, seq_lt};
use crate::path::{
    component_text, components_of, lemma_parse_render, path_wf, push_component, relative_names, render, rendered,
    valid_name,
    Component, FsPath,
};
use crate::text::{chars_equal, chars_of};

verus! {

broadcast use vstd::std_specs::hash::group_hash_axioms;

/// Where the generated file of an item comes from: one already in the
/// cache, or one generated on demand.
pub trait CacheProvider {
    /// The generated file of `item`, generating it first when needed.
    fn ensure_cached(&self, item: &MediaItem) -> Result<FsPath, String>;

    /// The generated file of `item` when it exists already.
    fn cached_path_if_exists(&self, item: &MediaItem) -> Option<FsPath>;
}

/// A public description of one node.
#[derive(Debug, PartialEq, Eq)]
pub struct NodeInfo {
    pub ino: u64,
    pub parent: u64,
    pub name: String,
    pub is_dir: bool,
}

/// What a node is: a directory with its children by name (kept in name
/// order), or a file standing for one media item.
pub enum NodeKind {
    Directory { children: Vec<(String, u64)> },
    File { item_index: usize },
}

/// One node of the tree.
pub struct Node {
    pub ino: u64,
    pub parent: u64,
    pub name: String,
    pub path: FsPath,
    pub kind: NodeKind,
}

/// The model of a node's kind: a directory's children are listed by name.
pub enum KindView {
    Dir(Seq<(Seq<char>, u64)>),
    File(int),
}

/// The model of a node.
pub struct NodeView {
    pub ino: int,
    pub parent: int,
    pub name: Seq<char>,
    pub path: Seq<Component>,
    pub kind: KindView,
}

pub open spec fn children_view(c: Seq<(String, u64)>) -> Seq<(Seq<char>, u64)> {
    c.map_values(|e: (String, u64)| (e.0@, e.1))
}

impl View for Node {
    type V = NodeView;

    open spec fn view(&self) -> NodeView {
        NodeView {
            ino: self.ino as int,
            parent: self.parent as int,
            name: self.name@,
            path: self.path@,
            kind: match self.kind {
                NodeKind::Directory { children } => KindView::Dir(children_view(children@)),
                NodeKind::File { item_index } => KindView::File(item_index as int),
            },
        }
    }
}

/// The node table as a sequence: entry `k` is the node with inode `k + 1`.
pub open spec fn table(m: Map<u64, Node>) -> Seq<NodeView> {
    Seq::new(m.len(), |k: int| m[(k + 1) as u64]@)
}

/// The inodes of the table are exactly `1` to the number of nodes.
pub open spec fn inodes_dense(m: Map<u64, Node>) -> bool {
    &&& m.dom().finite()
    &&& m.len() < u64::MAX
    &&& forall|ino: u64| #[trigger] m.contains_key(ino) <==> 1 <= ino <= m.len()
}

/// Adding a node under the next inode appends it to the table.
proof fn lemma_table_add(m: Map<u64, Node>, node: Node)
    requires
        inodes_dense(m),
        m.len() + 1 < u64::MAX,
    ensures
        inodes_dense(m.insert((m.len() + 1) as u64, node)),
        m.insert((m.len() + 1) as u64, node).len() == m.len() + 1,
        table(m.insert((m.len() + 1) as u64, node)) == table(m).push(node@),
{
    let k = (m.len() + 1) as u64;
    let m2 = m.insert(k, node);
    assert(!m.contains_key(k));
    assert(m2.dom() =~= m.dom().insert(k));
    assert(m2.len() == m.len() + 1);
    assert forall|ino: u64| #[trigger] m2.contains_key(ino) <==> 1 <= ino <= m2.len() by {
        if ino != k {
            assert(m2.contains_key(ino) == m.contains_key(ino));
        }
    }
    assert forall|j: int| 0 <= j < m.len() implies #[trigger] table(m2)[j] == table(m)[j] by {
        assert(m.contains_key((j + 1) as u64));
    }
    assert(table(m2) =~= table(m).push(node@));
}

/// A table that keeps the paths of one whose paths render keeps that.
proof fn lemma_paths_kept(a: Map<u64, Node>, b: Map<u64, Node>)
    requires
        paths_rendered(a),
        inodes_dense(a),
        inodes_dense(b),
        a.len() == b.len(),
        forall|i: u64| #[trigger] b.contains_key(i) ==> b[i].path == a[i].path,
    ensures
        paths_rendered(b),
{
    assert forall|i: u64| #[trigger] b.contains_key(i) implies rendered(b[i].path) by {
        assert(a.contains_key(i));
    }
}

/// Adding a node whose path renders keeps every path rendered.
proof fn lemma_paths_add(m: Map<u64, Node>, k: u64, node: Node)
    requires
        paths_rendered(m),
        rendered(node.path),
    ensures
        paths_rendered(m.insert(k, node)),
{
    let m2 = m.insert(k, node);
    assert forall|i: u64| #[trigger] m2.contains_key(i) implies rendered(m2[i].path) by {
        if i != k {
            assert(m.contains_key(i));
        }
    }
}

/// Replacing the node of an inode updates its entry of the table.
proof fn lemma_table_replace(m: Map<u64, Node>, ino: u64, node: Node)
    requires
        inodes_dense(m),
        m.contains_key(ino),
    ensures
        inodes_dense(m.insert(ino, node)),
        m.insert(ino, node).len() == m.len(),
        table(m.insert(ino, node)) == table(m).update(ino - 1, node@),
{
    let m2 = m.insert(ino, node);
    assert(m2.dom() =~= m.dom());
    assert(table(m2) =~= table(m).update(ino - 1, node@));
}

/// BTreeMap insertion on a listing kept in name order: the entry of `k` is
/// replaced, or a new entry goes before the first larger name.
pub open spec fn sorted_insert(s: Seq<(Seq<char>, u64)>, k: Seq<char>, v: u64) -> Seq<(Seq<char>, u64)>
    decreases s.len(),
{
    if s.len() == 0 {
        seq![(k, v)]
    } else if s[0].0 == k {
        s.update(0, (k, v))
    } else if seq_lt(k, s[0].0) {
        seq![(k, v)] + s
    } else {
        seq![s[0]] + sorted_insert(s.subrange(1, s.len() as int), k, v)
    }
}

/// Adds `name -> ino` to the children of the directory with inode `parent`;
/// nothing changes when that node is not a directory.
pub open spec fn insert_child(nodes: Seq<NodeView>, parent: int, name: Seq<char>, ino: u64) -> Seq<NodeView> {
    if 1 <= parent <= nodes.len() && nodes[parent - 1].kind is Dir {
        let n = nodes[parent - 1];
        nodes.update(
            parent - 1,
            NodeView { kind: KindView::Dir(sorted_insert(n.kind->Dir_0, name, ino)), ..n },
        )
    } else {
        nodes
    }
}

/// The index of the last node with path `p`.
pub open spec fn find_path(nodes: Seq<NodeView>, p: Seq<Component>) -> Option<int>
    decreases nodes.len(),
{
    if nodes.len() == 0 {
        None
    } else if nodes.last().path == p {
        Some(nodes.len() - 1)
    } else {
        find_path(nodes.drop_last(), p)
    }
}

pub proof fn lemma_find_path(nodes: Seq<NodeView>, p: Seq<Component>)
    ensures
        match find_path(nodes, p) {
            Some(i) => 0 <= i < nodes.len() && nodes[i].path == p,
            None => forall|k: int| 0 <= k < nodes.len() ==> nodes[k].path != p,
        },
    decreases nodes.len(),
{
    if nodes.len() > 0 {
        lemma_find_path(nodes.drop_last(), p);
        if nodes.last().path != p {
            assert forall|k: int| 0 <= k < nodes.len() - 1 implies nodes[k] == nodes.drop_last()[k] by {}
        }
    }
}

/// The root directory, inode 1, its own parent.
pub open spec fn root_node() -> NodeView {
    NodeView { ino: 1, parent: 1, name: seq![], path: seq![], kind: KindView::Dir(seq![]) }
}

/// The state of the walk down one virtual path: the nodes so far, the inode
/// of the current directory and its path.
pub struct Walk {
    pub nodes: Seq<NodeView>,
    pub parent: int,
    pub cur: Seq<Component>,
}

/// One directory component of a virtual path: step into the node with the
/// extended path, creating a directory for it when there is none.
pub open spec fn dir_step(w: Walk, c: Component) -> Walk {
    let p = push_component(w.cur, c);
    match find_path(w.nodes, p) {
        Some(i) => Walk { nodes: w.nodes, parent: w.nodes[i].ino, cur: p },
        None => {
            let ino: int = w.nodes.len() as int + 1;
            let node = NodeView {
                ino,
                parent: w.parent,
                name: component_text(c),
                path: p,
                kind: KindView::Dir(seq![]),
            };
            Walk {
                nodes: insert_child(w.nodes.push(node), w.parent, component_text(c), ino as u64),
                parent: ino,
                cur: p,
            }
        },
    }
}

pub open spec fn walk_dirs(w: Walk, comps: Seq<Component>) -> Walk
    decreases comps.len(),
{
    if comps.len() == 0 {
        w
    } else {
        dir_step(walk_dirs(w, comps.drop_last()), comps.last())
    }
}

/// Adds the item at `index` with virtual path `vp`: its directories, then a
/// file node unless a node with its path exists already.
pub open spec fn add_item(nodes: Seq<NodeView>, index: int, vp: Seq<Component>) -> Seq<NodeView> {
    if vp.len() == 0 {
        nodes
    } else {
        let w = walk_dirs(Walk { nodes, parent: 1, cur: seq![] }, vp.drop_last());
        let fp = push_component(w.cur, vp.last());
        if find_path(w.nodes, fp) is Some {
            w.nodes
        } else {
            let ino: int = w.nodes.len() as int + 1;
            let node = NodeView {
                ino,
                parent: w.parent,
                name: component_text(vp.last()),
                path: fp,
                kind: KindView::File(index),
            };
            insert_child(w.nodes.push(node), w.parent, component_text(vp.last()), ino as u64)
        }
    }
}

/// The tree of the virtual paths, added in order after the root.
pub open spec fn build_tree(vps: Seq<Seq<Component>>) -> Seq<NodeView>
    decreases vps.len(),
{
    if vps.len() == 0 {
        seq![root_node()]
    } else {
        add_item(build_tree(vps.drop_last()), vps.len() - 1, vps.last())
    }
}

pub open spec fn item_paths(items: Seq<MediaItem>) -> Seq<Seq<Component>> {
    items.map_values(|i: MediaItem| i.virtual_path@)
}

/// The number of components over all virtual paths.
pub open spec fn component_total(vps: Seq<Seq<Component>>) -> nat
    decreases vps.len(),
{
    if vps.len() == 0 {
        0
    } else {
        component_total(vps.drop_last()) + vps.last().len()
    }
}

/// The filesystem's view: the items and the node table (node `k` has inode
/// `k + 1`).
pub struct FsView {
    pub items: Seq<MediaItem>,
    pub nodes: Seq<NodeView>,
}

/// The read-only filesystem over the indexed media items.
pub struct AtmosFs {
    items: Vec<MediaItem>,
    nodes: HashMap<u64, Node>,
}

impl View for AtmosFs {
    type V = FsView;

    closed spec fn view(&self) -> FsView {
        FsView { items: self.items@, nodes: table(self.nodes@) }
    }
}

/// The text of each node's path is the rendering of its components.
pub open spec fn paths_rendered(m: Map<u64, Node>) -> bool {
    forall|ino: u64| #[trigger] m.contains_key(ino) ==> rendered(m[ino].path)
}

impl AtmosFs {
    /// The node table, keyed by the inodes `1` to the number of nodes, is
    /// the tree built from the items' virtual paths, and the text of each
    /// node's path renders its components, so the view fixes every field of
    /// every node.
    #[verifier::type_invariant]
    spec fn tree_is_built(self) -> bool {
        &&& table(self.nodes@) == build_tree(item_paths(self.items@))
        &&& inodes_dense(self.nodes@)
        &&& paths_rendered(self.nodes@)
    }
}

proof fn lemma_sorted_insert_skip(s: Seq<(Seq<char>, u64)>, k: Seq<char>, v: u64, j: int)
    requires
        0 <= j <= s.len(),
        forall|i: int| 0 <= i < j ==> s[i].0 != k && !seq_lt(k, #[trigger] s[i].0),
    ensures
        sorted_insert(s, k, v) == s.subrange(0, j) + sorted_insert(s.subrange(j, s.len() as int), k, v),
    decreases j,
{
    if j > 0 {
        let t = s.subrange(1, s.len() as int);
        assert forall|i: int| 0 <= i < j - 1 implies t[i].0 != k && !seq_lt(k, #[trigger] t[i].0) by {
            assert(t[i] == s[i + 1]);
        }
        lemma_sorted_insert_skip(t, k, v, j - 1);
        assert(s[0].0 != k && !seq_lt(k, s[0].0));
        assert(t.subrange(j - 1, t.len() as int) =~= s.subrange(j, s.len() as int));
        assert(seq![s[0]] + (t.subrange(0, j - 1) + sorted_insert(s.subrange(j, s.len() as int), k, v))
            =~= s.subrange(0, j) + sorted_insert(s.subrange(j, s.len() as int), k, v));
    } else {
        assert(s.subrange(0, 0) + sorted_insert(s.subrange(0, s.len() as int), k, v) =~= sorted_insert(s, k, v)) by {
            assert(s.subrange(0, s.len() as int) =~= s);
        }
    }
}

/// Inserts `name -> ino` into a listing kept in name order.
fn insert_sorted(children: &mut Vec<(String, u64)>, name: String, ino: u64)
    ensures
        children_view(final(children)@) == sorted_insert(children_view(old(children)@), name@, ino),
{
    let ghost s = children_view(children@);
    let k = chars_of(name.as_str());
    let n = children.len();
    let mut j: usize = 0;
    let mut stop = false;
    while j < n && !stop
        invariant
            n == children@.len(),
            s == children_view(children@),
            k@ == name@,
            j <= n,
            forall|i: int| 0 <= i < j ==> s[i].0 != name@ && !seq_lt(name@, #[trigger] s[i].0),
            stop ==> j < n && (s[j as int].0 == name@ || seq_lt(name@, s[j as int].0)),
        decreases n - j + (if stop { 0int } else { 1int }),
    {
        let c = chars_of(children[j].0.as_str());
        assert(s[j as int].0 == c@);
        if chars_equal(c.as_slice(), k.as_slice()) || chars_less(k.as_slice(), c.as_slice()) {
            stop = true;
        } else {
            j = j + 1;
        }
    }
    proof {
        lemma_sorted_insert_skip(s, name@, ino, j as int);
    }
    let ghost rest = s.subrange(j as int, s.len() as int);
    let ghost nm = name@;
    if j < n {
        let c = chars_of(children[j].0.as_str());
        assert(s[j as int].0 == c@);
        if chars_equal(c.as_slice(), k.as_slice()) {
            children.set(j, (name, ino));
            assert(rest[0] == s[j as int]);
            assert(sorted_insert(rest, nm, ino) == rest.update(0, (nm, ino)));
            assert(children_view(children@) =~= s.subrange(0, j as int) + rest.update(0, (nm, ino)));
        } else {
            children.insert(j, (name, ino));
            assert(rest[0] == s[j as int]);
            assert(sorted_insert(rest, nm, ino) == seq![(nm, ino)] + rest);
            assert(children_view(children@) =~= s.subrange(0, j as int) + (seq![(nm, ino)] + rest));
        }
    } else {
        children.push((name, ino));
        assert(rest.len() == 0);
        assert(children_view(children@) =~= s.subrange(0, j as int) + seq![(nm, ino)]);
    }
}

/// The table index of the last node with the path `p`.
fn find_node(nodes: &HashMap<u64, Node>, p: &FsPath) -> (r: Option<usize>)
    requires
        inodes_dense(nodes@),
    ensures
        match r {
            Some(i) => find_path(table(nodes@), p@) == Some(i as int),
            None => find_path(table(nodes@), p@) is None,
        },
{
    let ghost all = table(nodes@);
    let mut i = nodes.len();
    assert(all.take(i as int) =~= all);
    while i > 0
        invariant
            i <= nodes@.len(),
            inodes_dense(nodes@),
            all == table(nodes@),
            find_path(all, p@) == find_path(all.take(i as int), p@),
        decreases i,
    {
        let ghost t = all.take(i as int);
        assert(t.drop_last() =~= all.take(i - 1));
        assert(t.last() == nodes@[i as u64]@);
        assert(nodes@.contains_key(i as u64));
        if let Some(node) = nodes.get(&(i as u64)) {
            if node.path.same_as(p) {
                return Some(i - 1);
            }
        }
        i = i - 1;
    }
    None
}

/// Adds `name -> ino` to the children of node `parent` when it is a
/// directory.
fn add_child(nodes: &mut HashMap<u64, Node>, parent: u64, name: String, ino: u64)
    requires
        inodes_dense(old(nodes)@),
    ensures
        inodes_dense(final(nodes)@),
        final(nodes)@.len() == old(nodes)@.len(),
        table(final(nodes)@) == insert_child(table(old(nodes)@), parent as int, name@, ino),
        forall|i: u64| #[trigger] final(nodes)@.contains_key(i) ==> final(nodes)@[i].path == old(nodes)@[i].path,
{
    let ghost before = table(nodes@);
    let ghost m = nodes@;
    match nodes.remove(&parent) {
        None => {
            assert(nodes@ =~= m);
            assert(table(nodes@) =~= insert_child(before, parent as int, name@, ino));
        },
        Some(node) => {
            assert(m.contains_key(parent) && m[parent] == node);
            let Node { ino: own, parent: up, name: own_name, path, kind } = node;
            let kind = match kind {
                NodeKind::Directory { children } => {
                    let mut children = children;
                    insert_sorted(&mut children, name, ino);
                    NodeKind::Directory { children }
                },
                NodeKind::File { item_index } => NodeKind::File { item_index },
            };
            let updated = Node { ino: own, parent: up, name: own_name, path, kind };
            nodes.insert(parent, updated);
            proof {
                assert(nodes@ =~= m.insert(parent, updated));
                lemma_table_replace(m, parent, updated);
                assert(before[parent - 1] == node@);
                assert(table(nodes@) =~= insert_child(before, parent as int, name@, ino));
            }
        },
    }
}

fn new_node(ino: u64, parent: u64, name: String, path: FsPath, kind: NodeKind) -> (n: Node)
    ensures
        n.ino == ino,
        n.parent == parent,
        n.name == name,
        n.path == path,
        n.kind == kind,
{
    Node { ino, parent, name, path, kind }
}

/// Adds the nodes of one virtual path: `add_item`.
fn add_item_nodes(nodes: &mut HashMap<u64, Node>, index: usize, vp: &FsPath)
    requires
        old(nodes)@.len() + vp@.len() + 1 < u64::MAX,
        inodes_dense(old(nodes)@),
        paths_rendered(old(nodes)@),
    ensures
        inodes_dense(final(nodes)@),
        table(final(nodes)@) == add_item(table(old(nodes)@), index as int, vp@),
        final(nodes)@.len() <= old(nodes)@.len() + vp@.len(),
        paths_rendered(final(nodes)@),
{
    let n = vp.components.len();
    if n == 0 {
        return;
    }
    let ghost vv = vp@;
    let ghost start = Walk { nodes: table(nodes@), parent: 1, cur: seq![] };
    let ghost start_len = nodes@.len();
    let mut parent: u64 = 1;
    let mut cur = FsPath::empty();
    assert(vv.take(0) =~= Seq::<Component>::empty());
    assert(walk_dirs(start, vv.take(0)) =~= Walk { nodes: table(nodes@), parent: parent as int, cur: cur@ });
    for j in 0..n - 1
        invariant
            n == vv.len(),
            n >= 1,
            vv == vp@,
            start_len + n + 1 < u64::MAX,
            walk_dirs(start, vv.take(j as int)) == (Walk { nodes: table(nodes@), parent: parent as int, cur: cur@ }),
            nodes@.len() <= start_len + j,
            inodes_dense(nodes@),
            paths_rendered(nodes@),
    {
        assert(vv.take(j + 1).drop_last() =~= vv.take(j as int));
        assert(vv.take(j + 1).last() == vv[j as int]);
        assert(vp.components@[j as int]@ == vv[j as int]);
        let ghost w = Walk { nodes: table(nodes@), parent: parent as int, cur: cur@ };
        let p = cur.pushed(&vp.components[j]);
        match find_node(nodes, &p) {
            Some(idx) => {
                proof {
                    lemma_find_path(table(nodes@), p@);
                }
                assert(table(nodes@)[idx as int] == nodes@[(idx + 1) as u64]@);
                assert(nodes@.contains_key((idx + 1) as u64));
                if let Some(found) = nodes.get(&(idx as u64 + 1)) {
                    parent = found.ino;
                }
                cur = p;
                assert(dir_step(w, vv[j as int]) == (Walk { nodes: table(nodes@), parent: parent as int, cur: cur@ }));
            },
            None => {
                let ino = nodes.len() as u64 + 1;
                let name = vp.components[j].text();
                let name2 = name.clone();
                let path = p.duplicate();
                let node = new_node(ino, parent, name, path, NodeKind::Directory { children: Vec::new() });
                let ghost before = table(nodes@);
                let ghost m = nodes@;
                proof {
                    lemma_table_add(m, node);
                }
                nodes.insert(ino, node);
                assert(nodes@ =~= m.insert((m.len() + 1) as u64, node));
                proof {
                    lemma_paths_add(m, ino, node);
                }
                assert(children_view(Seq::<(String, u64)>::empty()) =~= Seq::<(Seq<char>, u64)>::empty());
                assert(table(nodes@) =~= before.push(NodeView {
                    ino: ino as int,
                    parent: parent as int,
                    name: component_text(vv[j as int]),
                    path: p@,
                    kind: KindView::Dir(seq![]),
                }));
                let ghost added = nodes@;
                add_child(nodes, parent, name2, ino);
                proof {
                    lemma_paths_kept(added, nodes@);
                }
                parent = ino;
                cur = p;
                assert(dir_step(w, vv[j as int]) =~= (Walk { nodes: table(nodes@), parent: parent as int, cur: cur@ }));
            },
        }
    }
    let ghost w = Walk { nodes: table(nodes@), parent: parent as int, cur: cur@ };
    assert(vv.take(n - 1) =~= vv.drop_last());
    assert(vp.components@[n - 1]@ == vv.last());
    let fp = cur.pushed(&vp.components[n - 1]);
    match find_node(nodes, &fp) {
        Some(_) => {},
        None => {
            let ino = nodes.len() as u64 + 1;
            let name = vp.components[n - 1].text();
            let name2 = name.clone();
            let path = fp.duplicate();
            let node = new_node(ino, parent, name, path, NodeKind::File { item_index: index });
            let ghost before = table(nodes@);
            let ghost m = nodes@;
            proof {
                lemma_table_add(m, node);
            }
            nodes.insert(ino, node);
            assert(nodes@ =~= m.insert((m.len() + 1) as u64, node));
            proof {
                lemma_paths_add(m, ino, node);
            }
            assert(table(nodes@) =~= before.push(NodeView {
                ino: ino as int,
                parent: parent as int,
                name: component_text(vv.last()),
                path: fp@,
                kind: KindView::File(index as int),
            }));
            let ghost added = nodes@;
            add_child(nodes, parent, name2, ino);
            proof {
                lemma_paths_kept(added, nodes@);
            }
        },
    }
}

pub proof fn lemma_component_total_prefix(vps: Seq<Seq<Component>>, i: int)
    requires
        0 <= i <= vps.len(),
    ensures
        component_total(vps.take(i)) <= component_total(vps),
    decreases vps.len() - i,
{
    if i < vps.len() {
        lemma_component_total_prefix(vps, i + 1);
        assert(vps.take(i + 1).drop_last() =~= vps.take(i));
    } else {
        assert(vps.take(i) =~= vps);
    }
}

impl AtmosFs {
    /// Builds the inode tree of the items: the root is inode 1; each item
    /// adds, in order, the directories on its virtual path that are not
    /// there yet and then its file node, unless a node with the same path
    /// exists already.  Inodes are numbered in order of creation.
    pub fn new(items: Vec<MediaItem>) -> (fs: AtmosFs)
        requires
            component_total(item_paths(items@)) + 2 < u64::MAX,
        ensures
            fs@.items == items@,
            fs@.nodes == build_tree(item_paths(items@)),
            fs@.nodes.len() >= 1,
            fs@.nodes[0].ino == 1,
            fs@.nodes[0].parent == 1,
            fs@.nodes[0].name == Seq::<char>::empty(),
            fs@.nodes[0].kind is Dir,
            find_path(fs@.nodes, Seq::<Component>::empty()) == Some(0int),
            servable_paths(item_paths(items@)) ==> laid_out(fs@.nodes, item_paths(items@)),
            servable_paths(item_paths(items@)) ==> forall|k: int|
                0 < k < fs@.nodes.len() ==> #[trigger] listed_by_parent(fs@.nodes, k) && spec_lookup_child(
                    fs@.nodes,
                    fs@.nodes[k].parent,
                    fs@.nodes[k].name,
                ) == Some(fs@.nodes[k]),
    {
        let ghost ps = item_paths(items@);
        let mut nodes: HashMap<u64, Node> = HashMap::new();
        let root = new_node(1, 1, String::new(), FsPath::empty(), NodeKind::Directory { children: Vec::new() });
        proof {
            lemma_table_add(nodes@, root);
        }
        nodes.insert(1, root);
        assert(nodes@ =~= Map::<u64, Node>::empty().insert(1, root));
        assert(children_view(Seq::<(String, u64)>::empty()) =~= Seq::<(Seq<char>, u64)>::empty());
        assert(ps.take(0) =~= Seq::<Seq<Component>>::empty());
        assert(table(nodes@) =~= seq![root_node()]);
        for i in 0..items.len()
            invariant
                ps == item_paths(items@),
                component_total(ps) + 2 < u64::MAX,
                table(nodes@) == build_tree(ps.take(i as int)),
                nodes@.len() <= 1 + component_total(ps.take(i as int)),
                inodes_dense(nodes@),
                paths_rendered(nodes@),
        {
            assert(ps.take(i + 1).drop_last() =~= ps.take(i as int));
            assert(ps.take(i + 1).last() == items@[i as int].virtual_path@);
            proof {
                lemma_component_total_prefix(ps, i + 1);
            }
            add_item_nodes(&mut nodes, i, &items[i].virtual_path);
        }
        assert(ps.take(items@.len() as int) =~= ps);
        proof {
            lemma_root_node(ps);
            if servable_paths(ps) {
                lemma_tree_layout(ps);
                lemma_listings_complete(ps);
                assert forall|k: int| 0 < k < build_tree(ps).len() implies #[trigger] listed_by_parent(build_tree(ps), k)
                    && spec_lookup_child(build_tree(ps), build_tree(ps)[k].parent, build_tree(ps)[k].name) == Some(
                    build_tree(ps)[k],
                ) by {
                    assert(listed_by_parent(build_tree(ps), k));
                    let n = build_tree(ps)[k];
                }
            }
        }
        AtmosFs { items, nodes }
    }
}

/// Why an inode could not be served.
#[derive(Debug, PartialEq, Eq)]
pub enum FsError {
    /// No node has the inode.
    NotFound,
    /// The node is not a directory.
    NotADirectory,
    /// The node is not a file.
    NotAFile,
    /// The open asks for more than reading.
    AccessDenied,
}

/// One entry of a directory listing: `next_offset` is the offset from which
/// a listing continues after it.
#[derive(Debug, PartialEq, Eq)]
pub struct DirEntry {
    pub ino: u64,
    pub is_dir: bool,
    pub name: String,
    pub next_offset: u64,
}

/// The fixed attributes of a node; a file's size and time come from its
/// item and its generated file.
#[derive(Debug, PartialEq, Eq)]
pub struct AttrTemplate {
    pub ino: u64,
    pub is_dir: bool,
    pub perm: u16,
    pub nlink: u32,
    pub item_index: Option<usize>,
}

/// The item of file node `ino`, or why there is none.
pub open spec fn spec_file_item(nodes: Seq<NodeView>, ino: int) -> Result<usize, FsError> {
    match node_at(nodes, ino) {
        Some(n) => match n.kind {
            KindView::File(i) => Ok(i as usize),
            KindView::Dir(_) => Err(FsError::NotAFile),
        },
        None => Err(FsError::NotFound),
    }
}

/// The attributes that the filesystem reports for a node.
#[derive(Debug, PartialEq, Eq)]
pub struct AttrView {
    pub ino: u64,
    pub is_dir: bool,
    pub size: u64,
    /// The number of 512-byte blocks of `size`.
    pub blocks: u64,
    pub perm: u16,
    pub nlink: u32,
    /// The modification, change and creation time: the item's for a file;
    /// `None` for a directory, which reports the current time.
    pub mtime: Option<FileTime>,
    pub blksize: u32,
    pub rdev: u32,
    pub flags: u32,
}

/// The attributes of node `ino`, with `file_size` the size of a file
/// node's generated file.
pub open spec fn spec_attr(nodes: Seq<NodeView>, items: Seq<MediaItem>, ino: u64, file_size: u64) -> Option<AttrView> {
    match node_at(nodes, ino as int) {
        Some(n) => Some(
            match n.kind {
                KindView::Dir(_) => AttrView {
                    ino: n.ino as u64,
                    is_dir: true,
                    size: 0,
                    blocks: 0,
                    perm: 0o555,
                    nlink: 2,
                    mtime: None,
                    blksize: 4096,
                    rdev: 0,
                    flags: 0,
                },
                KindView::File(i) => AttrView {
                    ino: n.ino as u64,
                    is_dir: false,
                    size: file_size,
                    blocks: spec_blocks(file_size) as u64,
                    perm: 0o444,
                    nlink: 1,
                    mtime: Some(items[i].mtime),
                    blksize: 4096,
                    rdev: 0,
                    flags: 0,
                },
            },
        ),
        None => None,
    }
}

/// `info` describes the node `n`.
pub open spec fn describes(info: NodeInfo, n: NodeView) -> bool {
    &&& info.ino == n.ino
    &&& info.parent == n.parent
    &&& info.name@ == n.name
    &&& info.is_dir == (n.kind is Dir)
}

/// The node with inode `ino`.
pub open spec fn node_at(nodes: Seq<NodeView>, ino: int) -> Option<NodeView> {
    if 1 <= ino <= nodes.len() { Some(nodes[ino - 1]) } else { None }
}

/// The inode of the child named `name`, in a listing.
pub open spec fn children_get(c: Seq<(Seq<char>, u64)>, name: Seq<char>) -> Option<u64>
    decreases c.len(),
{
    if c.len() == 0 {
        None
    } else if c[0].0 == name {
        Some(c[0].1)
    } else {
        children_get(c.subrange(1, c.len() as int), name)
    }
}

/// The child of directory `parent` named `name`, when there is such a node.
pub open spec fn spec_lookup_child(nodes: Seq<NodeView>, parent: int, name: Seq<char>) -> Option<NodeView> {
    match node_at(nodes, parent) {
        Some(n) => match n.kind {
            KindView::Dir(c) => match children_get(c, name) {
                Some(ino) => node_at(nodes, ino as int),
                None => None,
            },
            KindView::File(_) => None,
        },
        None => None,
    }
}

/// The entries that a listing of a directory node shows: `.`, `..`, then the
/// children in name order, each with whether it is a directory.
pub open spec fn listing(nodes: Seq<NodeView>, n: NodeView) -> Seq<(int, bool, Seq<char>)> {
    let c = n.kind->Dir_0;
    seq![(n.ino, true, seq!['.']), (n.parent, true, seq!['.', '.'])] + child_entries(nodes, c)
}

pub open spec fn child_entries(nodes: Seq<NodeView>, c: Seq<(Seq<char>, u64)>) -> Seq<(int, bool, Seq<char>)>
    decreases c.len(),
{
    if c.len() == 0 {
        seq![]
    } else {
        let rest = child_entries(nodes, c.drop_last());
        match node_at(nodes, c.last().1 as int) {
            Some(child) => rest.push((child.ino, child.kind is Dir, c.last().0)),
            None => rest,
        }
    }
}

/// `e` is the `k`-th entry of a listing.
pub open spec fn entry_is(e: DirEntry, l: (int, bool, Seq<char>), k: int) -> bool {
    &&& e.ino == l.0
    &&& e.is_dir == l.1
    &&& e.name@ == l.2
    &&& e.next_offset == k + 1
}

/// The blocks of 512 bytes that `size` bytes take.
pub open spec fn spec_blocks(size: u64) -> int {
    (size as int + 511) / 512
}

/// The number of 512-byte blocks for a size (`u64::div_ceil(size, 512)`).
pub fn blocks_for_size(size: u64) -> (r: u64)
    ensures
        r == spec_blocks(size),
{
    size / 512 + if size % 512 != 0 { 1 } else { 0 }
}

fn info_of(n: &Node) -> (r: NodeInfo)
    ensures
        describes(r, n@),
{
    NodeInfo {
        ino: n.ino,
        parent: n.parent,
        name: n.name.clone(),
        is_dir: match n.kind {
            NodeKind::Directory { .. } => true,
            NodeKind::File { .. } => false,
        },
    }
}

/// Every node of a built tree has the inode one more than its index.
pub open spec fn inos_are_indices(nodes: Seq<NodeView>) -> bool {
    forall|k: int| 0 <= k < nodes.len() ==> #[trigger] nodes[k].ino == k + 1
}

proof fn lemma_insert_child_keeps_inos(nodes: Seq<NodeView>, parent: int, name: Seq<char>, ino: u64)
    requires
        inos_are_indices(nodes),
    ensures
        inos_are_indices(insert_child(nodes, parent, name, ino)),
        insert_child(nodes, parent, name, ino).len() == nodes.len(),
{
    let r = insert_child(nodes, parent, name, ino);
    assert forall|k: int| 0 <= k < r.len() implies #[trigger] r[k].ino == k + 1 by {
        assert(r[k].ino == nodes[k].ino);
    }
}

proof fn lemma_walk_keeps_inos(w: Walk, comps: Seq<Component>)
    requires
        inos_are_indices(w.nodes),
    ensures
        inos_are_indices(walk_dirs(w, comps).nodes),
    decreases comps.len(),
{
    if comps.len() > 0 {
        lemma_walk_keeps_inos(w, comps.drop_last());
        let v = walk_dirs(w, comps.drop_last());
        let c = comps.last();
        let p = push_component(v.cur, c);
        if find_path(v.nodes, p) is None {
            let ino: int = v.nodes.len() as int + 1;
            let node = NodeView {
                ino,
                parent: v.parent,
                name: component_text(c),
                path: p,
                kind: KindView::Dir(seq![]),
            };
            let pushed = v.nodes.push(node);
            assert forall|k: int| 0 <= k < pushed.len() implies #[trigger] pushed[k].ino == k + 1 by {
                if k < v.nodes.len() {
                    assert(pushed[k] == v.nodes[k]);
                }
            }
            lemma_insert_child_keeps_inos(pushed, v.parent, component_text(c), ino as u64);
        }
    }
}

/// Inodes are numbered in order: the node at index `k` has inode `k + 1`,
/// and the root is inode 1.
pub proof fn lemma_build_tree_inos(vps: Seq<Seq<Component>>)
    ensures
        inos_are_indices(build_tree(vps)),
        build_tree(vps).len() >= 1,
    decreases vps.len(),
{
    if vps.len() > 0 {
        lemma_build_tree_inos(vps.drop_last());
        let nodes = build_tree(vps.drop_last());
        let vp = vps.last();
        if vp.len() > 0 {
            let w0 = Walk { nodes, parent: 1, cur: seq![] };
            lemma_walk_keeps_inos(w0, vp.drop_last());
            lemma_walk_grows(w0, vp.drop_last());
            let w = walk_dirs(w0, vp.drop_last());
            let fp = push_component(w.cur, vp.last());
            if find_path(w.nodes, fp) is None {
                let ino: int = w.nodes.len() as int + 1;
                let node = NodeView {
                    ino,
                    parent: w.parent,
                    name: component_text(vp.last()),
                    path: fp,
                    kind: KindView::File(vps.len() - 1),
                };
                let pushed = w.nodes.push(node);
                assert forall|k: int| 0 <= k < pushed.len() implies #[trigger] pushed[k].ino == k + 1 by {
                    if k < w.nodes.len() {
                        assert(pushed[k] == w.nodes[k]);
                    }
                }
                lemma_insert_child_keeps_inos(pushed, w.parent, component_text(vp.last()), ino as u64);
            }
        }
    }
}

/// A walk never removes nodes.
pub proof fn lemma_walk_grows(w: Walk, comps: Seq<Component>)
    ensures
        walk_dirs(w, comps).nodes.len() >= w.nodes.len(),
    decreases comps.len(),
{
    if comps.len() > 0 {
        lemma_walk_grows(w, comps.drop_last());
        let v = walk_dirs(w, comps.drop_last());
        let p = push_component(v.cur, comps.last());
        if find_path(v.nodes, p) is None {
            let ino: int = v.nodes.len() as int + 1;
            let node = NodeView {
                ino,
                parent: v.parent,
                name: component_text(comps.last()),
                path: p,
                kind: KindView::Dir(seq![]),
            };
            let pushed = v.nodes.push(node);
            let r = insert_child(pushed, v.parent, component_text(comps.last()), ino as u64);
            assert(r.len() == pushed.len());
        }
    }
}

impl AtmosFs {
    /// The nodes, in inode order.
    pub fn nodes(&self) -> (r: Vec<NodeInfo>)
        ensures
            self@.nodes == build_tree(item_paths(self@.items)),
            r@.len() == self@.nodes.len(),
            forall|k: int| 0 <= k < r@.len() ==> describes(#[trigger] r@[k], self@.nodes[k]),
    {
        proof {
            use_type_invariant(self);
        }
        let mut r: Vec<NodeInfo> = Vec::new();
        let n = self.nodes.len();
        for k in 0..n
            invariant
                n == self@.nodes.len(),
                r@.len() == k,
                forall|j: int| 0 <= j < k ==> describes(#[trigger] r@[j], self@.nodes[j]),
        {
            if let Some(info) = self.node_info(k as u64 + 1) {
                r.push(info);
            }
        }
        r
    }

    /// The node with inode `ino`.
    fn node_ref(&self, ino: u64) -> (r: Option<&Node>)
        ensures
            match node_at(self@.nodes, ino as int) {
                Some(n) => r matches Some(x) && x@ == n,
                None => r is None,
            },
    {
        proof {
            use_type_invariant(self);
        }
        let r = self.nodes.get(&ino);
        proof {
            if 1 <= ino <= self@.nodes.len() {
                assert(self.nodes@.contains_key(ino));
                assert(self@.nodes[ino - 1] == self.nodes@[ino]@);
            }
        }
        r
    }

    /// The node whose path is the parsed `path`.
    pub fn node_by_path(&self, path: &str) -> (r: Option<NodeInfo>)
        ensures
            self@.nodes == build_tree(item_paths(self@.items)),
            match find_path(self@.nodes, crate::path::components_of(path@)) {
                Some(i) => r matches Some(info) && describes(info, self@.nodes[i]),
                None => r is None,
            },
            path@.len() == 0 ==> (r matches Some(info) && info.ino == 1 && info.parent == 1 && info.name@.len() == 0
                && info.is_dir),
    {
        proof {
            use_type_invariant(self);
            lemma_root_node(item_paths(self@.items));
            if path@.len() == 0 {
                crate::path::lemma_parse_render(Seq::<Component>::empty());
                assert(crate::path::render(Seq::<Component>::empty()) =~= path@);
            }
        }
        let p = FsPath::parse(path);
        match find_node(&self.nodes, &p) {
            Some(i) => {
                proof {
                    lemma_find_path(self@.nodes, p@);
                }
                self.node_info(i as u64 + 1)
            },
            None => None,
        }
    }

    /// The node with inode `ino`.
    pub fn node_info(&self, ino: u64) -> (r: Option<NodeInfo>)
        ensures
            match node_at(self@.nodes, ino as int) {
                Some(n) => r matches Some(info) && describes(info, n),
                None => r is None,
            },
    {
        match self.node_ref(ino) {
            Some(node) => Some(info_of(node)),
            None => None,
        }
    }

    /// The child of directory `parent` named `name`.
    pub fn lookup_child(&self, parent: u64, name: &str) -> (r: Option<NodeInfo>)
        ensures
            match spec_lookup_child(self@.nodes, parent as int, name@) {
                Some(n) => r matches Some(info) && describes(info, n),
                None => r is None,
            },
    {
        let node = match self.node_ref(parent) {
            Some(node) => node,
            None => return None,
        };
        match &node.kind {
            NodeKind::Directory { children } => {
                let k = chars_of(name);
                let n = children.len();
                let ghost c = children_view(children@);
                assert(c.subrange(0, n as int) =~= c);
                assert(self@.nodes[parent - 1] == node@);
                assert(node_at(self@.nodes, parent as int) == Some(node@));
                for i in 0..n
                    invariant
                        node_at(self@.nodes, parent as int) == Some(node@),
                        node@.kind == KindView::Dir(c),
                        n == children@.len(),
                        c == children_view(children@),
                        k@ == name@,
                        children_get(c, name@) == children_get(c.subrange(i as int, n as int), name@),
                {
                    let ghost rest = c.subrange(i as int, n as int);
                    assert(rest[0] == c[i as int]);
                    assert(rest.subrange(1, rest.len() as int) =~= c.subrange(i + 1, n as int));
                    let cn = chars_of(children[i].0.as_str());
                    if chars_equal(cn.as_slice(), k.as_slice()) {
                        assert(rest[0].0 == name@);
                        let ino = children[i].1;
                        assert(children_get(c, name@) == Some(ino));
                        return self.node_info(ino);
                    }
                }
                assert(c.subrange(n as int, n as int).len() == 0);
                None
            },
            NodeKind::File { .. } => None,
        }
    }

    /// The item that a file node stands for.
    pub fn file_item_index(&self, ino: u64) -> (r: Result<usize, FsError>)
        ensures
            r == spec_file_item(self@.nodes, ino as int),
    {
        let node = match self.node_ref(ino) {
            Some(node) => node,
            None => return Err(FsError::NotFound),
        };
        match &node.kind {
            NodeKind::File { item_index } => Ok(*item_index),
            NodeKind::Directory { .. } => Err(FsError::NotAFile),
        }
    }

    /// Opening inode `ino`: only a read-only open of a file is allowed, and
    /// it gives the item whose generated file is served.
    pub fn open_file(&self, ino: u64, read_only: bool) -> (r: Result<usize, FsError>)
        ensures
            r == if read_only {
                spec_file_item(self@.nodes, ino as int)
            } else {
                Err::<usize, FsError>(FsError::AccessDenied)
            },
    {
        if !read_only {
            return Err(FsError::AccessDenied);
        }
        self.file_item_index(ino)
    }

    /// The item at `index`.
    pub fn item(&self, index: usize) -> (r: &MediaItem)
        requires
            index < self@.items.len(),
        ensures
            *r == self@.items[index as int],
    {
        &self.items[index]
    }

    /// The number of items.
    pub fn item_count(&self) -> (r: usize)
        ensures
            r == self@.items.len(),
    {
        self.items.len()
    }

    /// The attributes of node `ino`, given the size of a file node's
    /// generated file (a directory ignores it): the shape of
    /// `attr_template`, the size and its 512-byte blocks (0 for a
    /// directory), the item's time for a file, block size 4096, no device
    /// and no flags.
    pub fn attr_for_node(&self, ino: u64, file_size: u64) -> (r: Option<AttrView>)
        ensures
            r == spec_attr(self@.nodes, self@.items, ino, file_size),
            spec_file_item(self@.nodes, ino as int) matches Ok(i) ==> (r matches Some(a) && a.mtime == Some(
                self@.items[i as int].mtime,
            ) && a.size == file_size && !a.is_dir),
    {
        proof {
            use_type_invariant(self);
            lemma_build_tree_files(item_paths(self.items@));
            if spec_file_item(self@.nodes, ino as int) is Ok {
                assert(self@.items.len() == self.items.len());
                lemma_file_attr_is_its_items(self@.nodes, self@.items, ino, file_size);
            }
        }
        let node = match self.node_ref(ino) {
            Some(node) => node,
            None => return None,
        };
        assert(self@.nodes[ino - 1] == node@);
        assert(file_index_below(self@.nodes[ino - 1], self.items@.len() as int));
        match &node.kind {
            NodeKind::Directory { .. } => Some(
                AttrView {
                    ino: node.ino,
                    is_dir: true,
                    size: 0,
                    blocks: 0,
                    perm: 0o555,
                    nlink: 2,
                    mtime: None,
                    blksize: 4096,
                    rdev: 0,
                    flags: 0,
                },
            ),
            NodeKind::File { item_index } => {
                let mtime = self.items[*item_index].mtime;
                Some(
                    AttrView {
                        ino: node.ino,
                        is_dir: false,
                        size: file_size,
                        blocks: blocks_for_size(file_size),
                        perm: 0o444,
                        nlink: 1,
                        mtime: Some(mtime),
                        blksize: 4096,
                        rdev: 0,
                        flags: 0,
                    },
                )
            },
        }
    }

    /// The attributes that do not depend on generated files: a directory is
    /// `r-x` for all with two links, a file `r--` for all with one link.
    pub fn attr_template(&self, ino: u64) -> (r: Option<AttrTemplate>)
        ensures
            match node_at(self@.nodes, ino as int) {
                Some(n) => r matches Some(t) && t.ino == n.ino && match n.kind {
                    KindView::Dir(_) => t.is_dir && t.perm == 0o555 && t.nlink == 2 && t.item_index is None,
                    KindView::File(i) => !t.is_dir && t.perm == 0o444 && t.nlink == 1 && t.item_index
                        == Some(i as usize),
                },
                None => r is None,
            },
    {
        let node = match self.node_ref(ino) {
            Some(node) => node,
            None => return None,
        };
        match &node.kind {
            NodeKind::Directory { .. } => Some(
                AttrTemplate { ino: node.ino, is_dir: true, perm: 0o555, nlink: 2, item_index: None },
            ),
            NodeKind::File { item_index } => Some(
                AttrTemplate { ino: node.ino, is_dir: false, perm: 0o444, nlink: 1, item_index: Some(*item_index) },
            ),
        }
    }

    /// The listing of directory `ino` from entry `offset` on: `.`, `..` and
    /// the children in name order, each entry with the offset after it.
    pub fn dir_entries(&self, ino: u64, offset: u64) -> (r: Result<Vec<DirEntry>, FsError>)
        ensures
            match node_at(self@.nodes, ino as int) {
                Some(n) => match n.kind {
                    KindView::Dir(_) => r matches Ok(v) && {
                        let l = listing(self@.nodes, n);
                        &&& v@.len() == if offset < l.len() { l.len() - offset } else { 0 }
                        &&& forall|k: int| 0 <= k < v@.len() ==> #[trigger] entry_is(v@[k], l[offset + k], offset + k)
                    },
                    KindView::File(_) => r matches Err(e) && e == FsError::NotADirectory,
                },
                None => r matches Err(e) && e == FsError::NotFound,
            },
    {
        let node = match self.node_ref(ino) {
            Some(node) => node,
            None => return Err(FsError::NotFound),
        };
        let ghost nv = node@;
        let ghost all = self@.nodes;
        assert(self@.nodes == all);
        assert(all[ino - 1] == nv);
        match &node.kind {
            NodeKind::File { .. } => Err(FsError::NotADirectory),
            NodeKind::Directory { children } => {
                let ghost c = children_view(children@);
                let mut entries: Vec<(u64, bool, String)> = Vec::new();
                let mut dot = String::new();
                crate::text::push_char(&mut dot, '.');
                let mut dotdot = String::new();
                crate::text::push_char(&mut dotdot, '.');
                crate::text::push_char(&mut dotdot, '.');
                assert(dot@ =~= seq!['.']);
                assert(dotdot@ =~= seq!['.', '.']);
                entries.push((node.ino, true, dot));
                entries.push((node.parent, true, dotdot));
                let ghost head = seq![(nv.ino, true, seq!['.']), (nv.parent, true, seq!['.', '.'])];
                assert(c.take(0) =~= Seq::<(Seq<char>, u64)>::empty());
                assert(child_entries(all, c.take(0)) =~= Seq::<(int, bool, Seq<char>)>::empty());
                assert(entries@.map_values(|e: (u64, bool, String)| (e.0 as int, e.1, e.2@)) =~= head
                    + child_entries(all, c.take(0)));
                for i in 0..children.len()
                    invariant
                        c == children_view(children@),
                        all == self@.nodes,
                        entries@.map_values(|e: (u64, bool, String)| (e.0 as int, e.1, e.2@))
                            == head + child_entries(all, c.take(i as int)),
                {
                    assert(c.take(i + 1).drop_last() =~= c.take(i as int));
                    assert(c.take(i + 1).last() == c[i as int]);
                    let child_ino = children[i].1;
                    let ghost before = entries@.map_values(|e: (u64, bool, String)| (e.0 as int, e.1, e.2@));
                    if let Some(child) = self.node_ref(child_ino) {
                        let is_dir = match child.kind {
                            NodeKind::Directory { .. } => true,
                            NodeKind::File { .. } => false,
                        };
                        entries.push((child.ino, is_dir, children[i].0.clone()));
                        assert(entries@.map_values(|e: (u64, bool, String)| (e.0 as int, e.1, e.2@)) =~= before.push(
                            (child@.ino, is_dir, c[i as int].0),
                        ));
                    }
                }
                assert(c.take(children@.len() as int) =~= c);
                let ghost l = entries@.map_values(|e: (u64, bool, String)| (e.0 as int, e.1, e.2@));
                assert(l == listing(all, nv));
                let mut out: Vec<DirEntry> = Vec::new();
                let len = entries.len();
                let mut k: usize = 0;
                if offset < len as u64 {
                    k = offset as usize;
                }
                let ghost start = k;
                if !(offset < len as u64) {
                    k = len;
                }
                let ghost start = k;
                while k < len
                    invariant
                        len == entries@.len(),
                        l == entries@.map_values(|e: (u64, bool, String)| (e.0 as int, e.1, e.2@)),
                        start <= k <= len,
                        offset < len ==> start == offset,
                        offset >= len ==> start == len,
                        out@.len() == k - start,
                        forall|j: int| 0 <= j < out@.len() ==> #[trigger] entry_is(out@[j], l[start + j], start + j),
                    decreases len - k,
                {
                    let e = &entries[k];
                    out.push(DirEntry { ino: e.0, is_dir: e.1, name: e.2.clone(), next_offset: k as u64 + 1 });
                    k = k + 1;
                }
                Ok(out)
            },
        }
    }
}

/// `a` is a prefix of `b` (or equal to it).
pub open spec fn is_prefix(a: Seq<Component>, b: Seq<Component>) -> bool {
    a.len() <= b.len() && b.subrange(0, a.len() as int) == a
}

/// A relative path as parsing gives it: well-formed, with no root.
pub open spec fn relative_path(p: Seq<Component>) -> bool {
    &&& path_wf(p)
    &&& forall|i: int| 0 <= i < p.len() ==> !(#[trigger] p[i] is Root)
}

/// Each virtual path is relative and non-empty, and none lies strictly
/// inside another (two may be equal).
pub open spec fn servable_paths(vps: Seq<Seq<Component>>) -> bool {
    &&& forall|i: int, j: int|
        0 <= i < vps.len() && 0 <= j < vps.len() ==> !strictly_inside(#[trigger] vps[i], #[trigger] vps[j])
    &&& forall|i: int| 0 <= i < vps.len() ==> (#[trigger] vps[i]).len() > 0 && relative_path(vps[i])
}

/// The first index from `j` on whose path is `p`, or the number of paths.
pub open spec fn first_from(vps: Seq<Seq<Component>>, p: Seq<Component>, j: int) -> int
    decreases vps.len() - j,
{
    if 0 <= j < vps.len() {
        if vps[j] == p { j } else { first_from(vps, p, j + 1) }
    } else {
        vps.len() as int
    }
}

/// The first item whose virtual path is that of item `i`.
pub open spec fn first_with_path(vps: Seq<Seq<Component>>, i: int) -> int {
    first_from(vps, vps[i], 0)
}

proof fn lemma_first_from(vps: Seq<Seq<Component>>, p: Seq<Component>, j: int, i: int)
    requires
        0 <= j <= i < vps.len(),
        vps[i] == p,
    ensures
        j <= first_from(vps, p, j) <= i,
        vps[first_from(vps, p, j)] == p,
        forall|l: int| j <= l < first_from(vps, p, j) ==> vps[l] != p,
    decreases i - j,
{
    if vps[j] != p {
        lemma_first_from(vps, p, j + 1, i);
    }
}

/// The first item with the path of item `i` comes no later than `i`, has
/// that path, no earlier item has it, and it is its own first.
pub proof fn lemma_first_with_path(vps: Seq<Seq<Component>>, i: int)
    requires
        0 <= i < vps.len(),
    ensures
        0 <= first_with_path(vps, i) <= i,
        vps[first_with_path(vps, i)] == vps[i],
        forall|l: int| 0 <= l < first_with_path(vps, i) ==> vps[l] != vps[i],
        first_with_path(vps, first_with_path(vps, i)) == first_with_path(vps, i),
{
    lemma_first_from(vps, vps[i], 0, i);
}

/// Pushing the next component of a relative path onto its first `m`
/// components gives its first `m + 1`.
proof fn lemma_push_take(p: Seq<Component>, m: int)
    requires
        relative_path(p),
        0 <= m < p.len(),
    ensures
        push_component(p.take(m), p[m]) == p.take(m + 1),
{
    assert(!(p[m] is Root));
    if p[m] is Cur {
        assert(m == 0);
        assert(p.take(1) =~= seq![p[0]]);
    } else {
        assert(p.take(m).push(p[m]) =~= p.take(m + 1));
    }
}

/// `a` lies strictly inside `b`.
pub open spec fn strictly_inside(a: Seq<Component>, b: Seq<Component>) -> bool {
    is_prefix(a, b) && a.len() < b.len()
}

/// A node of a tree built from the first `n` of the paths `vps`: file `i`
/// sits at `vps[i]`, and `i` is the first item with that path; a directory
/// is the root or lies strictly inside some path.
pub open spec fn node_fits(nd: NodeView, vps: Seq<Seq<Component>>, n: int) -> bool {
    match nd.kind {
        KindView::File(i) => 0 <= i < n && nd.path == vps[i] && first_with_path(vps, i) == i,
        KindView::Dir(_) => nd.path.len() == 0 || exists|i: int|
            0 <= i < vps.len() && #[trigger] strictly_inside(nd.path, vps[i]),
    }
}

/// The shape of a tree built from the first `n` of the paths `vps`: no two
/// nodes share a path, every node fits, and each of the first `n` paths
/// has the file of the first item with that path.
pub open spec fn tree_shape(nodes: Seq<NodeView>, vps: Seq<Seq<Component>>, n: int) -> bool {
    &&& forall|a: int, b: int|
        0 <= a < nodes.len() && 0 <= b < nodes.len() && a != b ==> #[trigger] nodes[a].path != #[trigger] nodes[b].path
    &&& forall|k: int| 0 <= k < nodes.len() ==> node_fits(#[trigger] nodes[k], vps, n)
    &&& forall|i: int| 0 <= i < n ==> has_file_at(nodes, #[trigger] vps[i], first_with_path(vps, i))
}

/// Some node is the file of item `i` at path `p`.
pub open spec fn has_file_at(nodes: Seq<NodeView>, p: Seq<Component>, i: int) -> bool {
    exists|k: int| 0 <= k < nodes.len() && (#[trigger] nodes[k]).path == p && nodes[k].kind == KindView::File(i)
}

/// `insert_child` changes only the listing of a directory.
proof fn lemma_insert_child_shape(nodes: Seq<NodeView>, parent: int, name: Seq<char>, ino: u64)
    ensures
        insert_child(nodes, parent, name, ino).len() == nodes.len(),
        forall|k: int|
            0 <= k < nodes.len() ==> {
                let r = #[trigger] insert_child(nodes, parent, name, ino)[k];
                &&& r.path == nodes[k].path
                &&& r.name == nodes[k].name
                &&& r.ino == nodes[k].ino
                &&& r.parent == nodes[k].parent
                &&& (r.kind is Dir <==> nodes[k].kind is Dir)
                &&& (nodes[k].kind is File ==> r.kind == nodes[k].kind)
            },
{
}

/// The shape survives `insert_child`.
proof fn lemma_insert_child_keeps_shape(nodes: Seq<NodeView>, vps: Seq<Seq<Component>>, n: int, parent: int, name: Seq<char>, ino: u64)
    requires
        tree_shape(nodes, vps, n),
    ensures
        tree_shape(insert_child(nodes, parent, name, ino), vps, n),
{
    lemma_insert_child_shape(nodes, parent, name, ino);
    let r = insert_child(nodes, parent, name, ino);
    assert forall|a: int, b: int|
        0 <= a < r.len() && 0 <= b < r.len() && a != b implies #[trigger] r[a].path != #[trigger] r[b].path by {
        assert(r[a].path == nodes[a].path);
        assert(r[b].path == nodes[b].path);
    }
    assert forall|k: int| 0 <= k < r.len() implies node_fits(#[trigger] r[k], vps, n) by {
        assert(r[k].path == nodes[k].path);
        assert(node_fits(nodes[k], vps, n));
    }
    assert forall|i: int| 0 <= i < n implies has_file_at(r, vps[i], first_with_path(vps, i)) by {
        assert(has_file_at(nodes, vps[i], first_with_path(vps, i)));
        let k = choose|k: int|
            0 <= k < nodes.len() && (#[trigger] nodes[k]).path == vps[i] && nodes[k].kind == KindView::File(first_with_path(vps, i));
        assert(r[k].path == nodes[k].path);
    }
}

/// Walking the directories of path `n` keeps the shape and ends in the
/// directory of its first `m` components.
proof fn lemma_walk_keeps_shape(w: Walk, vps: Seq<Seq<Component>>, n: int, m: int)
    requires
        servable_paths(vps),
        0 <= n < vps.len(),
        0 <= m < vps[n].len(),
        tree_shape(w.nodes, vps, n),
        w.cur == Seq::<Component>::empty(),
    ensures
        tree_shape(walk_dirs(w, vps[n].take(m)).nodes, vps, n),
        walk_dirs(w, vps[n].take(m)).cur == vps[n].take(m),
    decreases m,
{
    let vp = vps[n];
    if m == 0 {
        assert(vp.take(0) =~= Seq::<Component>::empty());
    } else {
        assert(vp.take(m).drop_last() =~= vp.take(m - 1));
        assert(vp.take(m).last() == vp[m - 1]);
        lemma_walk_keeps_shape(w, vps, n, m - 1);
        let v = walk_dirs(w, vp.take(m - 1));
        let c = vp[m - 1];
        let p = push_component(v.cur, c);
        lemma_push_take(vp, m - 1);
        assert(p == vp.take(m));
        if find_path(v.nodes, p) is None {
            lemma_find_path(v.nodes, p);
            let ino: int = v.nodes.len() as int + 1;
            let node = NodeView {
                ino,
                parent: v.parent,
                name: component_text(c),
                path: p,
                kind: KindView::Dir(seq![]),
            };
            let pushed = v.nodes.push(node);
            assert(tree_shape(pushed, vps, n)) by {
                assert forall|a: int, b: int|
                    0 <= a < pushed.len() && 0 <= b < pushed.len() && a != b implies
                    #[trigger] pushed[a].path != #[trigger] pushed[b].path by {
                    if a < v.nodes.len() && b < v.nodes.len() {
                        assert(pushed[a] == v.nodes[a] && pushed[b] == v.nodes[b]);
                    } else if a < v.nodes.len() {
                        assert(pushed[a] == v.nodes[a]);
                    } else {
                        assert(pushed[b] == v.nodes[b]);
                    }
                }
                assert forall|k: int| 0 <= k < pushed.len() implies node_fits(#[trigger] pushed[k], vps, n) by {
                    if k < v.nodes.len() {
                        assert(pushed[k] == v.nodes[k]);
                        assert(node_fits(v.nodes[k], vps, n));
                    } else {
                        assert(pushed[k] == node);
                        assert(vps[n].subrange(0, p.len() as int) =~= p);
                        assert(strictly_inside(p, vps[n]));
                    }
                }
                assert forall|i: int| 0 <= i < n implies has_file_at(pushed, vps[i], first_with_path(vps, i)) by {
                    assert(has_file_at(v.nodes, vps[i], first_with_path(vps, i)));
                    let k = choose|k: int|
                        0 <= k < v.nodes.len() && (#[trigger] v.nodes[k]).path == vps[i] && v.nodes[k].kind
                            == KindView::File(first_with_path(vps, i));
                    assert(pushed[k] == v.nodes[k]);
                }
            }
            lemma_insert_child_keeps_shape(pushed, vps, n, v.parent, component_text(c), ino as u64);
        }
    }
}

/// Adding item `n` keeps the shape and gives path `n` the file of the
/// first item with that path.
proof fn lemma_add_item_shape(nodes: Seq<NodeView>, vps: Seq<Seq<Component>>, n: int)
    requires
        servable_paths(vps),
        0 <= n < vps.len(),
        tree_shape(nodes, vps, n),
    ensures
        tree_shape(add_item(nodes, n, vps[n]), vps, n + 1),
{
    let vp = vps[n];
    let w0 = Walk { nodes, parent: 1, cur: seq![] };
    assert(vp.drop_last() =~= vp.take(vp.len() - 1));
    lemma_walk_keeps_shape(w0, vps, n, vp.len() - 1);
    let w = walk_dirs(w0, vp.drop_last());
    let fp = push_component(w.cur, vp.last());
    lemma_push_take(vp, vp.len() - 1);
    assert(vp.take(vp.len() as int) =~= vp);
    assert(fp == vp);
    lemma_find_path(w.nodes, fp);
    lemma_first_with_path(vps, n);
    let f = first_with_path(vps, n);
    assert(vps[n].subrange(0, vps[n].len() as int) =~= vps[n]);
    match find_path(w.nodes, fp) {
        Some(k) => {
            assert(node_fits(w.nodes[k], vps, n));
            if let KindView::Dir(_) = w.nodes[k].kind {
                let i = choose|i: int| 0 <= i < vps.len() && #[trigger] strictly_inside(w.nodes[k].path, vps[i]);
                assert(strictly_inside(vps[n], vps[i]));
            }
            let j = w.nodes[k].kind->File_0;
            lemma_first_with_path(vps, j);
            assert(first_with_path(vps, n) == first_with_path(vps, j));
            assert forall|i: int| 0 <= i < n + 1 implies has_file_at(w.nodes, #[trigger] vps[i], first_with_path(vps, i)) by {
                if i == n {
                    assert((w.nodes[k]).path == vps[i] && w.nodes[k].kind == KindView::File(first_with_path(vps, i)));
                }
            }
            assert forall|k2: int| 0 <= k2 < w.nodes.len() implies node_fits(#[trigger] w.nodes[k2], vps, n + 1) by {
                assert(node_fits(w.nodes[k2], vps, n));
            }
        },
        None => {
            if f < n {
                assert(has_file_at(w.nodes, vps[f], first_with_path(vps, f)));
                let k = choose|k: int|
                    0 <= k < w.nodes.len() && (#[trigger] w.nodes[k]).path == vps[f] && w.nodes[k].kind
                        == KindView::File(first_with_path(vps, f));
                assert(w.nodes[k].path == fp);
            }
            assert(f == n);
            let ino: int = w.nodes.len() as int + 1;
            let node = NodeView {
                ino,
                parent: w.parent,
                name: component_text(vp.last()),
                path: fp,
                kind: KindView::File(n),
            };
            let pushed = w.nodes.push(node);
            assert(tree_shape(pushed, vps, n + 1)) by {
                assert forall|a: int, b: int|
                    0 <= a < pushed.len() && 0 <= b < pushed.len() && a != b implies
                    #[trigger] pushed[a].path != #[trigger] pushed[b].path by {
                    if a < w.nodes.len() && b < w.nodes.len() {
                        assert(pushed[a] == w.nodes[a] && pushed[b] == w.nodes[b]);
                    } else if a < w.nodes.len() {
                        assert(pushed[a] == w.nodes[a]);
                    } else {
                        assert(pushed[b] == w.nodes[b]);
                    }
                }
                assert forall|k: int| 0 <= k < pushed.len() implies node_fits(#[trigger] pushed[k], vps, n + 1) by {
                    if k < w.nodes.len() {
                        assert(pushed[k] == w.nodes[k]);
                        assert(node_fits(w.nodes[k], vps, n));
                    }
                }
                assert forall|i: int| 0 <= i < n + 1 implies has_file_at(pushed, #[trigger] vps[i], first_with_path(vps, i)) by {
                    if i < n {
                        assert(has_file_at(w.nodes, vps[i], first_with_path(vps, i)));
                        let k = choose|k: int|
                            0 <= k < w.nodes.len() && (#[trigger] w.nodes[k]).path == vps[i] && w.nodes[k].kind
                                == KindView::File(first_with_path(vps, i));
                        assert(pushed[k] == w.nodes[k]);
                    } else {
                        assert(pushed[w.nodes.len() as int] == node);
                    }
                }
            }
            lemma_insert_child_keeps_shape(pushed, vps, n + 1, w.parent, component_text(vp.last()), ino as u64);
        },
    }
}

/// The shape of the tree of the first `n` paths.
proof fn lemma_build_tree_shape(vps: Seq<Seq<Component>>, n: int)
    requires
        servable_paths(vps),
        0 <= n <= vps.len(),
    ensures
        tree_shape(build_tree(vps.take(n)), vps, n),
    decreases n,
{
    if n == 0 {
        assert(vps.take(0) =~= Seq::<Seq<Component>>::empty());
        let t = build_tree(vps.take(0));
        assert(t == seq![root_node()]);
        assert forall|k: int| 0 <= k < t.len() implies node_fits(#[trigger] t[k], vps, 0) by {
            assert(t[k] == root_node());
        }
    } else {
        lemma_build_tree_shape(vps, n - 1);
        assert(vps.take(n).drop_last() =~= vps.take(n - 1));
        assert(vps.take(n).last() == vps[n - 1]);
        lemma_add_item_shape(build_tree(vps.take(n - 1)), vps, n - 1);
    }
}

/// Each item's virtual path is served: when every virtual path is relative
/// and non-empty and none lies strictly inside another, the node with the
/// path of item `i` is the file node of the first item with that path (a
/// later item with the same path is not exposed).
pub proof fn lemma_items_are_served(vps: Seq<Seq<Component>>, i: int)
    requires
        servable_paths(vps),
        0 <= i < vps.len(),
    ensures
        find_path(build_tree(vps), vps[i]) matches Some(k)
            && build_tree(vps)[k].kind == KindView::File(first_with_path(vps, i)),
{
    lemma_build_tree_shape(vps, vps.len() as int);
    assert(vps.take(vps.len() as int) =~= vps);
    let t = build_tree(vps);
    assert(has_file_at(t, vps[i], first_with_path(vps, i)));
    let k = choose|k: int|
        0 <= k < t.len() && (#[trigger] t[k]).path == vps[i] && t[k].kind == KindView::File(first_with_path(vps, i));
    lemma_find_path(t, vps[i]);
    let f = find_path(t, vps[i])->Some_0;
    if f != k {
        assert(t[f].path != t[k].path);
    }
}

/// Looking an item whose virtual path is made of names up by the text of
/// that path, as `node_by_path` does, finds the file node of the first
/// item with that path, and looking up the text of each proper non-empty
/// prefix of it finds a directory node.
pub proof fn lemma_item_found_by_text(vps: Seq<Seq<Component>>, i: int)
    requires
        servable_paths(vps),
        0 <= i < vps.len(),
        relative_names(vps[i]),
    ensures
        find_path(build_tree(vps), components_of(render(vps[i]))) matches Some(k)
            && build_tree(vps)[k].kind == KindView::File(first_with_path(vps, i)),
        forall|m: int|
            0 < m < vps[i].len() ==> (#[trigger] find_path(build_tree(vps), components_of(render(vps[i].take(m))))
                matches Some(f) && build_tree(vps)[f].kind is Dir),
{
    lemma_parse_render(vps[i]);
    lemma_items_are_served(vps, i);
    lemma_tree_layout(vps);
    assert forall|m: int| 0 < m < vps[i].len() implies (#[trigger] find_path(build_tree(vps), components_of(render(vps[i].take(m))))
        matches Some(f) && build_tree(vps)[f].kind is Dir) by {
        let q = vps[i].take(m);
        assert forall|j: int| 0 <= j < q.len() implies (#[trigger] q[j] matches Component::Normal(n) && valid_name(n)) by {
            assert(q[j] == vps[i][j]);
        }
        lemma_parse_render(q);
    }
}

/// The names of a listing strictly increase: name order, no name twice.
pub open spec fn strictly_sorted(c: Seq<(Seq<char>, u64)>) -> bool {
    forall|i: int, j: int| 0 <= i < j < c.len() ==> seq_lt(#[trigger] c[i].0, #[trigger] c[j].0)
}

/// Every directory lists its children in strictly increasing name order.
pub open spec fn listings_sorted(nodes: Seq<NodeView>) -> bool {
    forall|k: int| 0 <= k < nodes.len() ==> (#[trigger] nodes[k].kind matches KindView::Dir(c) ==> strictly_sorted(c))
}

/// The names after an insertion are the inserted one and the old ones.
proof fn lemma_sorted_insert_names(s: Seq<(Seq<char>, u64)>, k: Seq<char>, v: u64, j: int)
    requires
        0 <= j < sorted_insert(s, k, v).len(),
    ensures
        sorted_insert(s, k, v)[j].0 == k || exists|i: int| 0 <= i < s.len() && s[i].0 == #[trigger] sorted_insert(s, k, v)[j].0,
    decreases s.len(),
{
    let r = sorted_insert(s, k, v);
    if s.len() > 0 && s[0].0 != k && !seq_lt(k, s[0].0) {
        if j > 0 {
            let t = s.subrange(1, s.len() as int);
            lemma_sorted_insert_names(t, k, v, j - 1);
            assert(r[j] == sorted_insert(t, k, v)[j - 1]);
            if sorted_insert(t, k, v)[j - 1].0 != k {
                let i = choose|i: int| 0 <= i < t.len() && t[i].0 == #[trigger] sorted_insert(t, k, v)[j - 1].0;
                assert(s[i + 1] == t[i]);
            }
        } else {
            assert(r[0] == s[0]);
        }
    } else if s.len() > 0 && s[0].0 != k {
        if j > 0 {
            assert(r[j] == s[j - 1]);
        }
    } else if s.len() > 0 {
        if j > 0 {
            assert(r[j] == s[j]);
        }
    }
}

/// Insertion keeps a listing strictly sorted.
proof fn lemma_sorted_insert_sorted(s: Seq<(Seq<char>, u64)>, k: Seq<char>, v: u64)
    requires
        strictly_sorted(s),
    ensures
        strictly_sorted(sorted_insert(s, k, v)),
    decreases s.len(),
{
    let r = sorted_insert(s, k, v);
    if s.len() == 0 {
    } else if s[0].0 == k {
        assert forall|i: int, j: int| 0 <= i < j < r.len() implies seq_lt(#[trigger] r[i].0, #[trigger] r[j].0) by {
            assert(r[i].0 == s[i].0);
            assert(r[j].0 == s[j].0);
        }
    } else if seq_lt(k, s[0].0) {
        assert forall|i: int, j: int| 0 <= i < j < r.len() implies seq_lt(#[trigger] r[i].0, #[trigger] r[j].0) by {
            assert(r[j] == s[j - 1]);
            if i == 0 {
                if j > 1 {
                    crate::order::lemma_seq_lt_transitive(k, s[0].0, s[j - 1].0);
                }
            } else {
                assert(r[i] == s[i - 1]);
            }
        }
    } else {
        let t = s.subrange(1, s.len() as int);
        assert forall|i: int, j: int| 0 <= i < j < t.len() implies seq_lt(#[trigger] t[i].0, #[trigger] t[j].0) by {
            assert(t[i] == s[i + 1] && t[j] == s[j + 1]);
        }
        lemma_sorted_insert_sorted(t, k, v);
        let u = sorted_insert(t, k, v);
        crate::order::lemma_seq_lt_total(k, s[0].0);
        assert forall|i: int, j: int| 0 <= i < j < r.len() implies seq_lt(#[trigger] r[i].0, #[trigger] r[j].0) by {
            assert(r[j] == u[j - 1]);
            if i == 0 {
                assert(r[0] == s[0]);
                lemma_sorted_insert_names(t, k, v, j - 1);
                if u[j - 1].0 != k {
                    let m = choose|m: int| 0 <= m < t.len() && t[m].0 == #[trigger] u[j - 1].0;
                    assert(t[m] == s[m + 1]);
                }
            } else {
                assert(r[i] == u[i - 1]);
            }
        }
    }
}

proof fn lemma_insert_child_sorted(nodes: Seq<NodeView>, parent: int, name: Seq<char>, ino: u64)
    requires
        listings_sorted(nodes),
    ensures
        listings_sorted(insert_child(nodes, parent, name, ino)),
{
    let r = insert_child(nodes, parent, name, ino);
    if 1 <= parent <= nodes.len() && nodes[parent - 1].kind is Dir {
        lemma_sorted_insert_sorted(nodes[parent - 1].kind->Dir_0, name, ino);
        assert forall|k: int| 0 <= k < r.len() implies (#[trigger] r[k].kind matches KindView::Dir(c) ==> strictly_sorted(c)) by {
            if k != parent - 1 {
                assert(r[k] == nodes[k]);
            }
        }
    }
}

proof fn lemma_push_dir_sorted(nodes: Seq<NodeView>, node: NodeView)
    requires
        listings_sorted(nodes),
        node.kind is File || node.kind == KindView::Dir(seq![]),
    ensures
        listings_sorted(nodes.push(node)),
{
    let r = nodes.push(node);
    assert forall|k: int| 0 <= k < r.len() implies (#[trigger] r[k].kind matches KindView::Dir(c) ==> strictly_sorted(c)) by {
        if k < nodes.len() {
            assert(r[k] == nodes[k]);
        }
    }
}

proof fn lemma_walk_sorted(w: Walk, comps: Seq<Component>)
    requires
        listings_sorted(w.nodes),
    ensures
        listings_sorted(walk_dirs(w, comps).nodes),
    decreases comps.len(),
{
    if comps.len() > 0 {
        lemma_walk_sorted(w, comps.drop_last());
        let v = walk_dirs(w, comps.drop_last());
        let c = comps.last();
        let p = push_component(v.cur, c);
        if find_path(v.nodes, p) is None {
            let ino: int = v.nodes.len() as int + 1;
            let node = NodeView { ino, parent: v.parent, name: component_text(c), path: p, kind: KindView::Dir(seq![]) };
            lemma_push_dir_sorted(v.nodes, node);
            lemma_insert_child_sorted(v.nodes.push(node), v.parent, component_text(c), ino as u64);
        }
    }
}

/// Every directory of the tree lists its children in strictly increasing
/// name order, so a listing never shows a name twice.
pub proof fn lemma_listings_sorted(vps: Seq<Seq<Component>>)
    ensures
        listings_sorted(build_tree(vps)),
    decreases vps.len(),
{
    if vps.len() == 0 {
        let t = build_tree(vps);
        assert forall|k: int| 0 <= k < t.len() implies (#[trigger] t[k].kind matches KindView::Dir(c) ==> strictly_sorted(c)) by {
            assert(t[k] == root_node());
        }
    } else {
        lemma_listings_sorted(vps.drop_last());
        let nodes = build_tree(vps.drop_last());
        let vp = vps.last();
        if vp.len() > 0 {
            let w0 = Walk { nodes, parent: 1, cur: seq![] };
            lemma_walk_sorted(w0, vp.drop_last());
            let w = walk_dirs(w0, vp.drop_last());
            let fp = push_component(w.cur, vp.last());
            if find_path(w.nodes, fp) is None {
                let ino: int = w.nodes.len() as int + 1;
                let node = NodeView {
                    ino,
                    parent: w.parent,
                    name: component_text(vp.last()),
                    path: fp,
                    kind: KindView::File(vps.len() - 1),
                };
                lemma_push_dir_sorted(w.nodes, node);
                lemma_insert_child_sorted(w.nodes.push(node), w.parent, component_text(vp.last()), ino as u64);
            }
        }
    }
}

/// The entry `e` of the listing of node `d` names a node whose parent is
/// `d` and whose name is the entry's.
pub open spec fn entry_points_back(nodes: Seq<NodeView>, d: int, e: (Seq<char>, u64)) -> bool {
    &&& 1 <= e.1 <= nodes.len()
    &&& nodes[e.1 - 1].parent == nodes[d].ino
    &&& nodes[e.1 - 1].name == e.0
}

/// Every entry of the listing of node `d` points back to `d`.
pub open spec fn listing_points_back(nodes: Seq<NodeView>, d: int) -> bool {
    match nodes[d].kind {
        KindView::Dir(c) => forall|j: int| 0 <= j < c.len() ==> entry_points_back(nodes, d, #[trigger] c[j]),
        KindView::File(_) => true,
    }
}

/// The child that a lookup of `name` in `parent` finds, if any, has that
/// parent and that name.
pub open spec fn lookup_points_back(nodes: Seq<NodeView>, parent: int, name: Seq<char>) -> bool {
    match spec_lookup_child(nodes, parent, name) {
        Some(n) => n.parent == parent && n.name == name,
        None => true,
    }
}

/// Every listing of the tree names nodes that point back to it.
pub open spec fn listings_consistent(nodes: Seq<NodeView>) -> bool {
    forall|d: int| 0 <= d < nodes.len() ==> #[trigger] listing_points_back(nodes, d)
}

/// The entries after an insertion are the inserted one and old ones.
proof fn lemma_sorted_insert_entries(s: Seq<(Seq<char>, u64)>, k: Seq<char>, v: u64, j: int)
    requires
        0 <= j < sorted_insert(s, k, v).len(),
    ensures
        sorted_insert(s, k, v)[j] == (k, v) || s.contains(sorted_insert(s, k, v)[j]),
    decreases s.len(),
{
    let r = sorted_insert(s, k, v);
    if s.len() > 0 && s[0].0 != k && !seq_lt(k, s[0].0) {
        if j > 0 {
            let t = s.subrange(1, s.len() as int);
            lemma_sorted_insert_entries(t, k, v, j - 1);
            assert(r[j] == sorted_insert(t, k, v)[j - 1]);
            if r[j] != (k, v) {
                let i = choose|i: int| 0 <= i < t.len() && t[i] == r[j];
                assert(s[i + 1] == t[i]);
            }
        } else {
            assert(r[0] == s[0]);
        }
    } else if s.len() > 0 && s[0].0 != k {
        if j > 0 {
            assert(r[j] == s[j - 1]);
        }
    } else if s.len() > 0 {
        if j > 0 {
            assert(r[j] == s[j]);
        }
    }
}

/// Adding a node that points to an existing directory, and then its entry
/// to that directory's listing, keeps the listings consistent.
proof fn lemma_add_node_consistent(nodes: Seq<NodeView>, node: NodeView)
    requires
        inos_are_indices(nodes),
        listings_consistent(nodes),
        node.ino == nodes.len() + 1,
        node.ino < u64::MAX,
        node.kind is File || node.kind == KindView::Dir(seq![]),
        1 <= node.parent <= nodes.len(),
    ensures
        inos_are_indices(insert_child(nodes.push(node), node.parent, node.name, node.ino as u64)),
        listings_consistent(insert_child(nodes.push(node), node.parent, node.name, node.ino as u64)),
{
    let pushed = nodes.push(node);
    assert(inos_are_indices(pushed)) by {
        assert forall|k: int| 0 <= k < pushed.len() implies #[trigger] pushed[k].ino == k + 1 by {
            if k < nodes.len() {
                assert(pushed[k] == nodes[k]);
            }
        }
    }
    assert(listings_consistent(pushed)) by {
        assert forall|d: int| 0 <= d < pushed.len() implies #[trigger] listing_points_back(pushed, d) by {
            if d < nodes.len() {
                assert(pushed[d] == nodes[d]);
                assert(listing_points_back(nodes, d));
                if let KindView::Dir(c) = nodes[d].kind {
                    assert forall|j: int| 0 <= j < c.len() implies entry_points_back(pushed, d, #[trigger] c[j]) by {
                        assert(entry_points_back(nodes, d, c[j]));
                        assert(pushed[c[j].1 - 1] == nodes[c[j].1 - 1]);
                    }
                }
            } else {
                assert(pushed[d] == node);
            }
        }
    }
    lemma_insert_child_keeps_inos(pushed, node.parent, node.name, node.ino as u64);
    let r = insert_child(pushed, node.parent, node.name, node.ino as u64);
    let pi = node.parent - 1;
    if pushed[pi].kind is Dir {
        let old_c = pushed[pi].kind->Dir_0;
        assert forall|d: int| 0 <= d < r.len() implies #[trigger] listing_points_back(r, d) by {
            assert(listing_points_back(pushed, d));
            if d != pi {
                assert(r[d] == pushed[d]);
                if let KindView::Dir(c) = pushed[d].kind {
                    assert forall|j: int| 0 <= j < c.len() implies entry_points_back(r, d, #[trigger] c[j]) by {
                        assert(entry_points_back(pushed, d, c[j]));
                        assert(r[c[j].1 - 1].parent == pushed[c[j].1 - 1].parent);
                        assert(r[c[j].1 - 1].name == pushed[c[j].1 - 1].name);
                    }
                }
            } else {
                let c = r[d].kind->Dir_0;
                assert(c == sorted_insert(old_c, node.name, node.ino as u64));
                assert forall|j: int| 0 <= j < c.len() implies entry_points_back(r, d, #[trigger] c[j]) by {
                    lemma_sorted_insert_entries(old_c, node.name, node.ino as u64, j);
                    if c[j] == (node.name, node.ino as u64) {
                        assert(r[node.ino - 1].parent == pushed[node.ino - 1].parent);
                        assert(pushed[node.ino - 1] == node);
                        assert(pushed[pi].ino == node.parent);
                    } else {
                        let i = choose|i: int| 0 <= i < old_c.len() && old_c[i] == c[j];
                        assert(entry_points_back(pushed, d, old_c[i]));
                        assert(r[c[j].1 - 1].parent == pushed[c[j].1 - 1].parent);
                        assert(r[c[j].1 - 1].name == pushed[c[j].1 - 1].name);
                    }
                }
            }
        }
    } else {
        assert(r == pushed);
    }
}

proof fn lemma_walk_consistent(w: Walk, comps: Seq<Component>)
    requires
        inos_are_indices(w.nodes),
        listings_consistent(w.nodes),
        1 <= w.parent <= w.nodes.len(),
        w.nodes.len() + comps.len() + 1 < u64::MAX,
    ensures
        inos_are_indices(walk_dirs(w, comps).nodes),
        listings_consistent(walk_dirs(w, comps).nodes),
        1 <= walk_dirs(w, comps).parent <= walk_dirs(w, comps).nodes.len(),
        walk_dirs(w, comps).nodes.len() <= w.nodes.len() + comps.len(),
    decreases comps.len(),
{
    if comps.len() > 0 {
        lemma_walk_consistent(w, comps.drop_last());
        let v = walk_dirs(w, comps.drop_last());
        let c = comps.last();
        let p = push_component(v.cur, c);
        match find_path(v.nodes, p) {
            Some(i) => {
                lemma_find_path(v.nodes, p);
            },
            None => {
                let ino: int = v.nodes.len() as int + 1;
                let node = NodeView { ino, parent: v.parent, name: component_text(c), path: p, kind: KindView::Dir(seq![]) };
                lemma_add_node_consistent(v.nodes, node);
                lemma_insert_child_shape(v.nodes.push(node), v.parent, component_text(c), ino as u64);
            },
        }
    }
}

/// The listings and the nodes agree: every entry of a directory's listing
/// names a node whose parent is that directory and whose name is the
/// entry's, so a lookup by name finds a child of the directory with that
/// name.  (The bound on the components is the one `AtmosFs::new` asks for:
/// every inode fits in a `u64`.)
pub proof fn lemma_listings_consistent(vps: Seq<Seq<Component>>)
    requires
        component_total(vps) + 2 < u64::MAX,
    ensures
        listings_consistent(build_tree(vps)),
        build_tree(vps).len() <= 1 + component_total(vps),
        forall|parent: int, name: Seq<char>| #[trigger] lookup_points_back(build_tree(vps), parent, name),
    decreases vps.len(),
{
    lemma_build_tree_inos(vps);
    if vps.len() == 0 {
        let t = build_tree(vps);
        assert forall|d: int| 0 <= d < t.len() implies #[trigger] listing_points_back(t, d) by {
            assert(t[d] == root_node());
        }
    } else {
        assert(vps.take(vps.len() - 1) =~= vps.drop_last());
        lemma_component_total_prefix(vps, vps.len() - 1);
        lemma_listings_consistent(vps.drop_last());
        lemma_build_tree_inos(vps.drop_last());
        let nodes = build_tree(vps.drop_last());
        let vp = vps.last();
        if vp.len() > 0 {
            let w0 = Walk { nodes, parent: 1, cur: seq![] };
            lemma_walk_consistent(w0, vp.drop_last());
            let w = walk_dirs(w0, vp.drop_last());
            let fp = push_component(w.cur, vp.last());
            if find_path(w.nodes, fp) is None {
                let ino: int = w.nodes.len() as int + 1;
                let node = NodeView {
                    ino,
                    parent: w.parent,
                    name: component_text(vp.last()),
                    path: fp,
                    kind: KindView::File(vps.len() - 1),
                };
                lemma_add_node_consistent(w.nodes, node);
            }
        }
    }
    let t = build_tree(vps);
    assert forall|parent: int, name: Seq<char>| #[trigger] lookup_points_back(t, parent, name) by {
        if let Some(n) = spec_lookup_child(t, parent, name) {
            let c = t[parent - 1].kind->Dir_0;
            lemma_children_get_entry(c, name);
            let j = choose|j: int| 0 <= j < c.len() && c[j].0 == name && Some(c[j].1) == children_get(c, name);
            assert(listing_points_back(t, parent - 1));
            assert(entry_points_back(t, parent - 1, c[j]));
        }
    }
}

/// A name found in a listing is the name of one of its entries.
proof fn lemma_children_get_entry(c: Seq<(Seq<char>, u64)>, name: Seq<char>)
    ensures
        children_get(c, name) is Some ==> exists|j: int|
            0 <= j < c.len() && c[j].0 == name && Some(c[j].1) == children_get(c, name),
    decreases c.len(),
{
    if c.len() > 0 && c[0].0 != name {
        let t = c.subrange(1, c.len() as int);
        lemma_children_get_entry(t, name);
        if children_get(c, name) is Some {
            let j = choose|j: int| 0 <= j < t.len() && t[j].0 == name && Some(t[j].1) == children_get(t, name);
            assert(c[j + 1] == t[j]);
        }
    } else if c.len() > 0 {
        assert(c[0].0 == name && Some(c[0].1) == children_get(c, name));
    }
}

/// The attributes of a file node describe the item it stands for: in a
/// tree built from the items, when `ino` is a file node whose item is `i`
/// (as `file_item_index` reports it), its attributes carry item `i`'s
/// modification time, the given size, and say it is not a directory.
pub proof fn lemma_file_attr_is_its_items(nodes: Seq<NodeView>, items: Seq<MediaItem>, ino: u64, file_size: u64)
    requires
        nodes == build_tree(item_paths(items)),
        items.len() <= usize::MAX,
        spec_file_item(nodes, ino as int) is Ok,
    ensures
        spec_attr(nodes, items, ino, file_size) matches Some(a) && {
            let i = spec_file_item(nodes, ino as int)->Ok_0;
            &&& 0 <= i < items.len()
            &&& a.mtime == Some(items[i as int].mtime)
            &&& a.size == file_size
            &&& !a.is_dir
        },
{
    lemma_build_tree_files(item_paths(items));
    assert(item_paths(items).len() == items.len());
    assert(1 <= ino <= nodes.len());
    assert(file_index_below(nodes[ino - 1], items.len() as int));
    let i = nodes[ino - 1].kind->File_0;
    assert(0 <= i < items.len());
    assert(spec_file_item(nodes, ino as int) == Ok::<usize, FsError>(i as usize));
}

/// A file node's item index is below `n`.
pub open spec fn file_index_below(nd: NodeView, n: int) -> bool {
    nd.kind matches KindView::File(i) ==> 0 <= i < n
}

/// Every file node of `nodes` stands for one of the first `n` items.
pub open spec fn files_index_items(nodes: Seq<NodeView>, n: int) -> bool {
    forall|k: int| 0 <= k < nodes.len() ==> file_index_below(#[trigger] nodes[k], n)
}

proof fn lemma_insert_child_keeps_files(nodes: Seq<NodeView>, n: int, parent: int, name: Seq<char>, ino: u64)
    requires
        files_index_items(nodes, n),
    ensures
        files_index_items(insert_child(nodes, parent, name, ino), n),
{
    lemma_insert_child_shape(nodes, parent, name, ino);
    let r = insert_child(nodes, parent, name, ino);
    assert forall|k: int| 0 <= k < r.len() implies file_index_below(#[trigger] r[k], n) by {
        assert(file_index_below(nodes[k], n));
    }
}

proof fn lemma_push_keeps_files(nodes: Seq<NodeView>, n: int, node: NodeView)
    requires
        files_index_items(nodes, n),
        file_index_below(node, n),
    ensures
        files_index_items(nodes.push(node), n),
{
    let r = nodes.push(node);
    assert forall|k: int| 0 <= k < r.len() implies file_index_below(#[trigger] r[k], n) by {
        if k < nodes.len() {
            assert(r[k] == nodes[k]);
        }
    }
}

proof fn lemma_walk_keeps_files(w: Walk, comps: Seq<Component>, n: int)
    requires
        files_index_items(w.nodes, n),
    ensures
        files_index_items(walk_dirs(w, comps).nodes, n),
    decreases comps.len(),
{
    if comps.len() > 0 {
        lemma_walk_keeps_files(w, comps.drop_last(), n);
        let v = walk_dirs(w, comps.drop_last());
        let c = comps.last();
        let p = push_component(v.cur, c);
        if find_path(v.nodes, p) is None {
            let ino: int = v.nodes.len() as int + 1;
            let node = NodeView { ino, parent: v.parent, name: component_text(c), path: p, kind: KindView::Dir(seq![]) };
            lemma_push_keeps_files(v.nodes, n, node);
            lemma_insert_child_keeps_files(v.nodes.push(node), n, v.parent, component_text(c), ino as u64);
        }
    }
}

/// Every file node of the tree stands for one of the items.
pub proof fn lemma_build_tree_files(vps: Seq<Seq<Component>>)
    ensures
        files_index_items(build_tree(vps), vps.len() as int),
    decreases vps.len(),
{
    let n = vps.len() as int;
    if vps.len() == 0 {
        let t = build_tree(vps);
        assert forall|k: int| 0 <= k < t.len() implies file_index_below(#[trigger] t[k], n) by {
            assert(t[k] == root_node());
        }
    } else {
        lemma_build_tree_files(vps.drop_last());
        let nodes = build_tree(vps.drop_last());
        assert forall|k: int| 0 <= k < nodes.len() implies file_index_below(#[trigger] nodes[k], n) by {
            assert(file_index_below(nodes[k], n - 1));
        }
        let vp = vps.last();
        if vp.len() > 0 {
            let w0 = Walk { nodes, parent: 1, cur: seq![] };
            lemma_walk_keeps_files(w0, vp.drop_last(), n);
            let w = walk_dirs(w0, vp.drop_last());
            let fp = push_component(w.cur, vp.last());
            if find_path(w.nodes, fp) is None {
                let ino: int = w.nodes.len() as int + 1;
                let node = NodeView {
                    ino,
                    parent: w.parent,
                    name: component_text(vp.last()),
                    path: fp,
                    kind: KindView::File(n - 1),
                };
                lemma_push_keeps_files(w.nodes, n, node);
                lemma_insert_child_keeps_files(w.nodes.push(node), n, w.parent, component_text(vp.last()), ino as u64);
            }
        }
    }
}

/// Node `k` hangs under the node of its path without the last component
/// and is named by that component; node 0 is the root: inode 1, its own
/// parent, no name, the empty path, a directory.
pub open spec fn node_linked(nodes: Seq<NodeView>, k: int) -> bool {
    if k == 0 {
        &&& nodes[0].ino == 1
        &&& nodes[0].parent == 1
        &&& nodes[0].name == Seq::<char>::empty()
        &&& nodes[0].path == Seq::<Component>::empty()
        &&& nodes[0].kind is Dir
    } else {
        &&& nodes[k].path.len() > 0
        &&& nodes[k].name == component_text(nodes[k].path.last())
        &&& exists|j: int|
            0 <= j < nodes.len() && (#[trigger] nodes[j]).path == nodes[k].path.drop_last() && nodes[j].ino
                == nodes[k].parent
    }
}

/// Every node of the table is linked to its parent.
pub open spec fn tree_linked(nodes: Seq<NodeView>) -> bool {
    &&& nodes.len() >= 1
    &&& forall|k: int| 0 <= k < nodes.len() ==> #[trigger] node_linked(nodes, k)
}

proof fn lemma_insert_child_linked(nodes: Seq<NodeView>, parent: int, name: Seq<char>, ino: u64)
    requires
        tree_linked(nodes),
    ensures
        tree_linked(insert_child(nodes, parent, name, ino)),
{
    lemma_insert_child_shape(nodes, parent, name, ino);
    let r = insert_child(nodes, parent, name, ino);
    assert forall|k: int| 0 <= k < r.len() implies #[trigger] node_linked(r, k) by {
        assert(node_linked(nodes, k));
        if k > 0 {
            let j = choose|j: int|
                0 <= j < nodes.len() && (#[trigger] nodes[j]).path == nodes[k].path.drop_last() && nodes[j].ino
                    == nodes[k].parent;
            assert(r[j].path == nodes[j].path);
        }
    }
}

/// Adding a node under the directory at index `j` keeps the table linked.
proof fn lemma_push_linked(nodes: Seq<NodeView>, node: NodeView, j: int)
    requires
        tree_linked(nodes),
        0 <= j < nodes.len(),
        node.path.len() > 0,
        node.name == component_text(node.path.last()),
        nodes[j].path == node.path.drop_last(),
        nodes[j].ino == node.parent,
    ensures
        tree_linked(nodes.push(node)),
{
    let r = nodes.push(node);
    assert forall|k: int| 0 <= k < r.len() implies #[trigger] node_linked(r, k) by {
        if k < nodes.len() {
            assert(r[k] == nodes[k]);
            assert(node_linked(nodes, k));
            if k > 0 {
                let i = choose|i: int|
                    0 <= i < nodes.len() && (#[trigger] nodes[i]).path == nodes[k].path.drop_last() && nodes[i].ino
                        == nodes[k].parent;
                assert(r[i] == nodes[i]);
            }
        } else {
            assert(r[k] == node);
            assert(r[j] == nodes[j]);
        }
    }
}

/// Walking the first `m` components of a relative path from the root
/// keeps the table linked and ends at the directory of those components.
proof fn lemma_walk_linked(w: Walk, vp: Seq<Component>, m: int)
    requires
        tree_linked(w.nodes),
        inos_are_indices(w.nodes),
        w.parent == 1,
        w.cur == Seq::<Component>::empty(),
        relative_path(vp),
        0 <= m <= vp.len(),
    ensures
        tree_linked(walk_dirs(w, vp.take(m)).nodes),
        inos_are_indices(walk_dirs(w, vp.take(m)).nodes),
        1 <= walk_dirs(w, vp.take(m)).parent <= walk_dirs(w, vp.take(m)).nodes.len(),
        walk_dirs(w, vp.take(m)).nodes[walk_dirs(w, vp.take(m)).parent - 1].path == walk_dirs(w, vp.take(m)).cur,
        walk_dirs(w, vp.take(m)).cur == vp.take(m),
    decreases m,
{
    if m == 0 {
        assert(vp.take(0) =~= Seq::<Component>::empty());
        assert(node_linked(w.nodes, 0));
    } else {
        assert(vp.take(m).drop_last() =~= vp.take(m - 1));
        assert(vp.take(m).last() == vp[m - 1]);
        lemma_walk_linked(w, vp, m - 1);
        let v = walk_dirs(w, vp.take(m - 1));
        let c = vp[m - 1];
        let p = push_component(v.cur, c);
        lemma_push_take(vp, m - 1);
        assert(p == vp.take(m));
        match find_path(v.nodes, p) {
            Some(i) => {
                lemma_find_path(v.nodes, p);
                assert(v.nodes[i].ino == i + 1);
            },
            None => {
                let ino: int = v.nodes.len() as int + 1;
                let node = NodeView { ino, parent: v.parent, name: component_text(c), path: p, kind: KindView::Dir(seq![]) };
                assert(p.drop_last() =~= v.cur);
                assert(p.last() == c);
                assert(v.nodes[v.parent - 1].ino == v.parent);
                lemma_push_linked(v.nodes, node, v.parent - 1);
                let pushed = v.nodes.push(node);
                assert(inos_are_indices(pushed)) by {
                    assert forall|k: int| 0 <= k < pushed.len() implies #[trigger] pushed[k].ino == k + 1 by {
                        if k < v.nodes.len() {
                            assert(pushed[k] == v.nodes[k]);
                        }
                    }
                }
                lemma_insert_child_linked(pushed, v.parent, component_text(c), ino as u64);
                lemma_insert_child_keeps_inos(pushed, v.parent, component_text(c), ino as u64);
                lemma_insert_child_shape(pushed, v.parent, component_text(c), ino as u64);
            },
        }
    }
}

/// The tree of relative paths is linked.
proof fn lemma_build_tree_linked(vps: Seq<Seq<Component>>)
    requires
        forall|i: int| 0 <= i < vps.len() ==> relative_path(#[trigger] vps[i]),
    ensures
        tree_linked(build_tree(vps)),
    decreases vps.len(),
{
    lemma_build_tree_inos(vps);
    if vps.len() == 0 {
        let t = build_tree(vps);
        assert(node_linked(t, 0));
    } else {
        let d = vps.drop_last();
        assert forall|i: int| 0 <= i < d.len() implies relative_path(#[trigger] d[i]) by {
            assert(d[i] == vps[i]);
        }
        lemma_build_tree_linked(d);
        lemma_build_tree_inos(d);
        let nodes = build_tree(d);
        let vp = vps.last();
        assert(relative_path(vp)) by {
            assert(vp == vps[vps.len() - 1]);
        }
        if vp.len() > 0 {
            let w0 = Walk { nodes, parent: 1, cur: seq![] };
            let dl = vp.drop_last();
            assert(dl =~= vp.take(vp.len() - 1));
            lemma_walk_linked(w0, vp, vp.len() - 1);
            let w = walk_dirs(w0, dl);
            let last = vp.last();
            let fp = push_component(w.cur, last);
            lemma_push_take(vp, vp.len() - 1);
            assert(vp.take(vp.len() as int) =~= vp);
            assert(last == vp[vp.len() - 1]);
            assert(fp == vp);
            if find_path(w.nodes, fp) is None {
                let ino: int = w.nodes.len() as int + 1;
                let node = NodeView {
                    ino,
                    parent: w.parent,
                    name: component_text(last),
                    path: fp,
                    kind: KindView::File(vps.len() - 1),
                };
                assert(fp.drop_last() =~= w.cur);
                assert(w.nodes[w.parent - 1].ino == w.parent);
                lemma_push_linked(w.nodes, node, w.parent - 1);
                lemma_insert_child_linked(w.nodes.push(node), w.parent, component_text(last), ino as u64);
            }
        }
    }
}

/// Node 0 is the root (inode 1, its own parent, no name, the empty path, a
/// directory) and every other node has a non-empty path.
pub open spec fn tree_rooted(nodes: Seq<NodeView>) -> bool {
    &&& nodes.len() >= 1
    &&& nodes[0].ino == 1
    &&& nodes[0].parent == 1
    &&& nodes[0].name == Seq::<char>::empty()
    &&& nodes[0].path == Seq::<Component>::empty()
    &&& nodes[0].kind is Dir
    &&& forall|k: int| 0 < k < nodes.len() ==> (#[trigger] nodes[k]).path.len() > 0
}

proof fn lemma_push_component_nonempty(p: Seq<Component>, c: Component)
    ensures
        push_component(p, c).len() > 0,
{
}

proof fn lemma_add_rooted(nodes: Seq<NodeView>, node: NodeView, parent: int)
    requires
        tree_rooted(nodes),
        node.path.len() > 0,
    ensures
        tree_rooted(insert_child(nodes.push(node), parent, node.name, node.ino as u64)),
{
    let pushed = nodes.push(node);
    assert(pushed[0] == nodes[0]);
    assert forall|k: int| 0 < k < pushed.len() implies (#[trigger] pushed[k]).path.len() > 0 by {
        if k < nodes.len() {
            assert(pushed[k] == nodes[k]);
        }
    }
    lemma_insert_child_shape(pushed, parent, node.name, node.ino as u64);
    let r = insert_child(pushed, parent, node.name, node.ino as u64);
    assert forall|k: int| 0 < k < r.len() implies (#[trigger] r[k]).path.len() > 0 by {
        assert(r[k].path == pushed[k].path);
    }
}

proof fn lemma_walk_rooted(w: Walk, comps: Seq<Component>)
    requires
        tree_rooted(w.nodes),
    ensures
        tree_rooted(walk_dirs(w, comps).nodes),
    decreases comps.len(),
{
    if comps.len() > 0 {
        lemma_walk_rooted(w, comps.drop_last());
        let v = walk_dirs(w, comps.drop_last());
        let c = comps.last();
        let p = push_component(v.cur, c);
        if find_path(v.nodes, p) is None {
            let ino: int = v.nodes.len() as int + 1;
            let node = NodeView { ino, parent: v.parent, name: component_text(c), path: p, kind: KindView::Dir(seq![]) };
            lemma_push_component_nonempty(v.cur, c);
            lemma_add_rooted(v.nodes, node, v.parent);
        }
    }
}

proof fn lemma_build_tree_rooted(vps: Seq<Seq<Component>>)
    ensures
        tree_rooted(build_tree(vps)),
    decreases vps.len(),
{
    if vps.len() > 0 {
        lemma_build_tree_rooted(vps.drop_last());
        let nodes = build_tree(vps.drop_last());
        let vp = vps.last();
        if vp.len() > 0 {
            let w0 = Walk { nodes, parent: 1, cur: seq![] };
            lemma_walk_rooted(w0, vp.drop_last());
            let w = walk_dirs(w0, vp.drop_last());
            let fp = push_component(w.cur, vp.last());
            if find_path(w.nodes, fp) is None {
                let ino: int = w.nodes.len() as int + 1;
                let node = NodeView {
                    ino,
                    parent: w.parent,
                    name: component_text(vp.last()),
                    path: fp,
                    kind: KindView::File(vps.len() - 1),
                };
                lemma_push_component_nonempty(w.cur, vp.last());
                lemma_add_rooted(w.nodes, node, w.parent);
            }
        }
    }
}

/// The root of every tree, whatever the items: node 0 is inode 1, its own
/// parent, with no name and the empty path, a directory, and it is the
/// node that the empty path finds.
pub proof fn lemma_root_node(vps: Seq<Seq<Component>>)
    ensures
        build_tree(vps).len() >= 1,
        build_tree(vps)[0].ino == 1,
        build_tree(vps)[0].parent == 1,
        build_tree(vps)[0].name == Seq::<char>::empty(),
        build_tree(vps)[0].kind is Dir,
        find_path(build_tree(vps), Seq::<Component>::empty()) == Some(0int),
{
    lemma_build_tree_rooted(vps);
    let t = build_tree(vps);
    lemma_find_path(t, Seq::<Component>::empty());
    let f = find_path(t, Seq::<Component>::empty())->Some_0;
    if f != 0 {
        assert(t[f].path.len() > 0);
    }
}

/// A node that has a path has every prefix of that path among the nodes.
proof fn lemma_prefix_nodes(nodes: Seq<NodeView>, k: int, m: int)
    requires
        tree_linked(nodes),
        0 <= k < nodes.len(),
        0 <= m <= nodes[k].path.len(),
    ensures
        exists|f: int| 0 <= f < nodes.len() && (#[trigger] nodes[f]).path == nodes[k].path.take(m),
    decreases nodes[k].path.len() - m,
{
    let q = nodes[k].path;
    if m == q.len() {
        assert(q.take(m) =~= q);
        assert(nodes[k].path == q.take(m));
    } else {
        assert(node_linked(nodes, k));
        if k == 0 {
            assert(q.len() == 0);
        }
        let j = choose|j: int|
            0 <= j < nodes.len() && (#[trigger] nodes[j]).path == nodes[k].path.drop_last() && nodes[j].ino
                == nodes[k].parent;
        lemma_prefix_nodes(nodes, j, m);
        assert(q.drop_last().take(m) =~= q.take(m));
    }
}

/// The layout of a tree built from servable paths `vps`: the node with
/// the path of item `i` is the file node of the first item with that path,
/// every proper non-empty prefix of an item's path is a directory node, and
/// every node but the root is named by the last component of its path and
/// hangs under the directory node of its path without that component.
pub open spec fn laid_out(nodes: Seq<NodeView>, vps: Seq<Seq<Component>>) -> bool {
    &&& forall|i: int|
        0 <= i < vps.len() ==> (#[trigger] find_path(nodes, vps[i]) matches Some(k)
            && nodes[k].kind == KindView::File(first_with_path(vps, i)))
    &&& forall|i: int, m: int|
        0 <= i < vps.len() && 0 < m < vps[i].len() ==> (#[trigger] find_path(nodes, vps[i].take(m))
            matches Some(f) && nodes[f].kind is Dir)
    &&& forall|k: int|
        0 < k < nodes.len() ==> {
            let n = #[trigger] nodes[k];
            &&& n.path.len() > 0
            &&& n.name == component_text(n.path.last())
            &&& find_path(nodes, n.path.drop_last()) matches Some(f)
            &&& nodes[f].ino == n.parent
            &&& nodes[f].kind is Dir
        }
}

/// In the tree of servable paths (relative, non-empty, none strictly
/// inside another, equal paths allowed), each item's path leads to the file
/// node of the first item with that path, every proper non-empty prefix of
/// an item's virtual path is a directory node, and every node but the root
/// is named by the last component of its path and hangs under the
/// directory node of its path without that component.
pub proof fn lemma_tree_layout(vps: Seq<Seq<Component>>)
    requires
        servable_paths(vps),
    ensures
        laid_out(build_tree(vps), vps),
{
    lemma_build_tree_linked(vps);
    lemma_build_tree_shape(vps, vps.len() as int);
    assert(vps.take(vps.len() as int) =~= vps);
    let t = build_tree(vps);
    assert forall|i: int| 0 <= i < vps.len() implies (#[trigger] find_path(t, vps[i]) matches Some(k)
        && t[k].kind == KindView::File(first_with_path(vps, i))) by {
        lemma_items_are_served(vps, i);
    }
    assert forall|i: int, m: int| 0 <= i < vps.len() && 0 < m < vps[i].len() implies
        (#[trigger] find_path(t, vps[i].take(m)) matches Some(f) && t[f].kind is Dir) by {
        assert(has_file_at(t, vps[i], first_with_path(vps, i)));
        let k = choose|k: int|
            0 <= k < t.len() && (#[trigger] t[k]).path == vps[i] && t[k].kind == KindView::File(first_with_path(vps, i));
        lemma_prefix_nodes(t, k, m);
        let q = vps[i].take(m);
        lemma_find_path(t, q);
        let f = find_path(t, q)->Some_0;
        assert(node_fits(t[f], vps, vps.len() as int));
        if let KindView::File(j) = t[f].kind {
            assert(t[f].path == vps[j]);
            assert(vps[i].subrange(0, m) =~= q);
            assert(strictly_inside(vps[j], vps[i]));
        }
    }
    assert forall|k: int| 0 < k < t.len() implies {
        let n = #[trigger] t[k];
        &&& n.path.len() > 0
        &&& n.name == component_text(n.path.last())
        &&& find_path(t, n.path.drop_last()) matches Some(f)
        &&& t[f].ino == n.parent
        &&& t[f].kind is Dir
    } by {
        assert(node_linked(t, k));
        let j = choose|j: int|
            0 <= j < t.len() && (#[trigger] t[j]).path == t[k].path.drop_last() && t[j].ino == t[k].parent;
        let q = t[k].path.drop_last();
        lemma_find_path(t, q);
        let f = find_path(t, q)->Some_0;
        if f != j {
            assert(t[f].path != t[j].path);
        }
        assert(node_fits(t[k], vps, vps.len() as int));
        assert(node_fits(t[f], vps, vps.len() as int));
        if let KindView::File(jj) = t[f].kind {
            // The parent's path lies strictly inside the path of an item.
            let ii = match t[k].kind {
                KindView::File(a) => a,
                KindView::Dir(_) => choose|a: int| 0 <= a < vps.len() && #[trigger] strictly_inside(t[k].path, vps[a]),
            };
            assert(strictly_inside(t[k].path, vps[ii]) || t[k].path == vps[ii]);
            assert(t[f].path == vps[jj]);
            assert(vps[ii].subrange(0, q.len() as int) =~= q) by {
                assert forall|x: int| 0 <= x < q.len() implies vps[ii][x] == q[x] by {
                    assert(q[x] == t[k].path[x]);
                    if strictly_inside(t[k].path, vps[ii]) {
                        assert(vps[ii].subrange(0, t[k].path.len() as int)[x] == t[k].path[x]);
                    }
                }
            }
            assert(strictly_inside(vps[jj], vps[ii]));
        }
    }
}

/// Node `k` is listed by its parent: the node with inode `nodes[k].parent`
/// is a directory whose listing maps `nodes[k]`'s name to its inode.
pub open spec fn listed_by_parent(nodes: Seq<NodeView>, k: int) -> bool {
    let n = nodes[k];
    &&& 1 <= n.parent <= nodes.len()
    &&& nodes[n.parent - 1].kind is Dir
    &&& children_get(nodes[n.parent - 1].kind->Dir_0, n.name) == Some(n.ino as u64)
}

/// Every node but the root is listed by its parent.
pub open spec fn listings_complete(nodes: Seq<NodeView>) -> bool {
    forall|k: int| 0 < k < nodes.len() ==> #[trigger] listed_by_parent(nodes, k)
}

/// A component that a relative path of parsed components can hold.
pub open spec fn good_component(c: Component) -> bool {
    &&& !(c is Root)
    &&& (c matches Component::Normal(n) ==> valid_name(n))
}

/// Looking a name up after inserting an entry finds the inserted inode for
/// that name and what was there before for any other name.
proof fn lemma_children_get_insert(s: Seq<(Seq<char>, u64)>, k: Seq<char>, v: u64, name: Seq<char>)
    ensures
        children_get(sorted_insert(s, k, v), name) == if name == k {
            Some(v)
        } else {
            children_get(s, name)
        },
    decreases s.len(),
{
    let r = sorted_insert(s, k, v);
    if s.len() == 0 {
        assert(r[0] == (k, v));
        assert(r.subrange(1, r.len() as int) =~= Seq::<(Seq<char>, u64)>::empty());
        assert(children_get(Seq::<(Seq<char>, u64)>::empty(), name) is None);
    } else if s[0].0 == k {
        assert(r[0] == (k, v));
        assert(r.subrange(1, r.len() as int) =~= s.subrange(1, s.len() as int));
    } else if seq_lt(k, s[0].0) {
        assert(r[0] == (k, v));
        assert(r.subrange(1, r.len() as int) =~= s);
    } else {
        let t = s.subrange(1, s.len() as int);
        lemma_children_get_insert(t, k, v, name);
        assert(r[0] == s[0]);
        assert(r.subrange(1, r.len() as int) =~= sorted_insert(t, k, v));
    }
}

/// Distinct components that paths of parsed components hold have distinct
/// texts.
proof fn lemma_component_text_injective(a: Component, b: Component)
    requires
        good_component(a),
        good_component(b),
        component_text(a) == component_text(b),
    ensures
        a == b,
{
    assert(crate::path::dot().len() == 1);
    assert(crate::path::dot_dot().len() == 2);
}

/// The last component of a node's path is one that a relative path holds,
/// and the current directory only stands alone.
proof fn lemma_node_last_good(nd: NodeView, vps: Seq<Seq<Component>>, n: int)
    requires
        servable_paths(vps),
        0 <= n <= vps.len(),
        node_fits(nd, vps, n),
        nd.path.len() > 0,
    ensures
        good_component(nd.path.last()),
        nd.path.last() is Cur ==> nd.path.len() == 1,
{
    let q = nd.path;
    let i = match nd.kind {
        KindView::File(i) => i,
        KindView::Dir(_) => choose|i: int| 0 <= i < vps.len() && #[trigger] strictly_inside(q, vps[i]),
    };
    assert(0 <= i < vps.len());
    assert(relative_path(vps[i]));
    let x = q.len() - 1;
    if nd.kind is Dir {
        assert(vps[i].subrange(0, q.len() as int)[x] == vps[i][x]);
    }
    assert(q.last() == vps[i][x]);
    assert(!(vps[i][x] is Root));
}

/// Adding a node under a directory that has no entry of its name, and then
/// its entry, keeps every node listed by its parent.
proof fn lemma_add_node_complete(nodes: Seq<NodeView>, node: NodeView)
    requires
        inos_are_indices(nodes),
        listings_complete(nodes),
        node.ino == nodes.len() + 1,
        node.ino < u64::MAX,
        1 <= node.parent <= nodes.len(),
        nodes[node.parent - 1].kind is Dir,
        children_get(nodes[node.parent - 1].kind->Dir_0, node.name) is None,
    ensures
        listings_complete(insert_child(nodes.push(node), node.parent, node.name, node.ino as u64)),
{
    let p = node.parent;
    let pushed = nodes.push(node);
    let r = insert_child(pushed, p, node.name, node.ino as u64);
    lemma_insert_child_shape(pushed, p, node.name, node.ino as u64);
    let cp = nodes[p - 1].kind->Dir_0;
    assert(pushed[p - 1] == nodes[p - 1]);
    assert(r[p - 1].kind == KindView::Dir(sorted_insert(cp, node.name, node.ino as u64)));
    assert forall|k: int| 0 < k < r.len() implies #[trigger] listed_by_parent(r, k) by {
        lemma_children_get_insert(cp, node.name, node.ino as u64, r[k].name);
        if k < nodes.len() {
            assert(pushed[k] == nodes[k]);
            assert(listed_by_parent(nodes, k));
            let q = nodes[k].parent;
            if q != p {
                assert(r[q - 1] == pushed[q - 1]);
                assert(pushed[q - 1] == nodes[q - 1]);
            } else {
                assert(r[k].name != node.name);
            }
        } else {
            assert(pushed[k] == node);
        }
    }
}

/// When no node has the path of directory `parent` extended by `c`, the
/// listing of `parent` has no entry named by `c`.
proof fn lemma_no_child_named(nodes: Seq<NodeView>, vps: Seq<Seq<Component>>, n: int, parent: int, c: Component)
    requires
        servable_paths(vps),
        0 <= n <= vps.len(),
        tree_linked(nodes),
        inos_are_indices(nodes),
        listings_consistent(nodes),
        tree_shape(nodes, vps, n),
        1 <= parent <= nodes.len(),
        nodes[parent - 1].kind is Dir,
        good_component(c),
        c is Cur ==> nodes[parent - 1].path.len() == 0,
        find_path(nodes, push_component(nodes[parent - 1].path, c)) is None,
    ensures
        children_get(nodes[parent - 1].kind->Dir_0, component_text(c)) is None,
{
    let cp = nodes[parent - 1].kind->Dir_0;
    let nm = component_text(c);
    let cur = nodes[parent - 1].path;
    if children_get(cp, nm) is Some {
        lemma_children_get_entry(cp, nm);
        let j = choose|j: int| 0 <= j < cp.len() && cp[j].0 == nm && Some(cp[j].1) == children_get(cp, nm);
        assert(listing_points_back(nodes, parent - 1));
        assert(entry_points_back(nodes, parent - 1, cp[j]));
        let y: int = cp[j].1 as int - 1;
        assert(nodes[parent - 1].ino == parent);
        assert(nodes[y].parent == parent);
        assert(nodes[y].name == nm);
        assert(node_linked(nodes, y));
        assert(nm.len() > 0) by {
            assert(crate::path::dot().len() == 1);
            assert(crate::path::dot_dot().len() == 2);
        }
        if y == 0 {
            assert(false);
        }
        let j2 = choose|j2: int|
            0 <= j2 < nodes.len() && (#[trigger] nodes[j2]).path == nodes[y].path.drop_last() && nodes[j2].ino
                == nodes[y].parent;
        assert(nodes[j2].ino == j2 + 1);
        assert(j2 == parent - 1);
        assert(node_fits(nodes[y], vps, n));
        lemma_node_last_good(nodes[y], vps, n);
        let py = nodes[y].path;
        lemma_component_text_injective(py.last(), c);
        assert(py =~= py.drop_last().push(py.last()));
        if c is Cur {
            assert(py.len() == 1);
            assert(py =~= seq![c]);
        }
        assert(py == push_component(cur, c));
        lemma_find_path(nodes, push_component(cur, c));
        assert(nodes[y].path != push_component(cur, c));
    }
}

/// Walking the directories of servable path `n` keeps every node listed by
/// its parent and ends in a directory.
proof fn lemma_walk_complete(w: Walk, vps: Seq<Seq<Component>>, n: int, m: int)
    requires
        servable_paths(vps),
        0 <= n < vps.len(),
        0 <= m < vps[n].len(),
        w.parent == 1,
        w.cur == Seq::<Component>::empty(),
        tree_linked(w.nodes),
        inos_are_indices(w.nodes),
        listings_consistent(w.nodes),
        listings_complete(w.nodes),
        tree_shape(w.nodes, vps, n),
        w.nodes.len() + vps[n].len() + 1 < u64::MAX,
    ensures
        listings_complete(walk_dirs(w, vps[n].take(m)).nodes),
        walk_dirs(w, vps[n].take(m)).nodes[walk_dirs(w, vps[n].take(m)).parent - 1].kind is Dir,
    decreases m,
{
    let vp = vps[n];
    assert(relative_path(vp));
    if m == 0 {
        assert(vp.take(0) =~= Seq::<Component>::empty());
        assert(node_linked(w.nodes, 0));
    } else {
        assert(vp.take(m).drop_last() =~= vp.take(m - 1));
        assert(vp.take(m).last() == vp[m - 1]);
        lemma_walk_complete(w, vps, n, m - 1);
        lemma_walk_linked(w, vp, m - 1);
        lemma_walk_keeps_shape(w, vps, n, m - 1);
        lemma_walk_consistent(w, vp.take(m - 1));
        let v = walk_dirs(w, vp.take(m - 1));
        let c = vp[m - 1];
        let p = push_component(v.cur, c);
        lemma_push_take(vp, m - 1);
        match find_path(v.nodes, p) {
            Some(i) => {
                lemma_find_path(v.nodes, p);
                assert(v.nodes[i].ino == i + 1);
                assert(node_fits(v.nodes[i], vps, n));
                if let KindView::File(j) = v.nodes[i].kind {
                    assert(vps[n].subrange(0, m) =~= vp.take(m));
                    assert(strictly_inside(vps[j], vps[n]));
                }
            },
            None => {
                let ino: int = v.nodes.len() as int + 1;
                let node = NodeView {
                    ino,
                    parent: v.parent,
                    name: component_text(c),
                    path: p,
                    kind: KindView::Dir(seq![]),
                };
                assert(good_component(c));
                if c is Cur {
                    assert(m - 1 == 0);
                    assert(vp.take(0) =~= Seq::<Component>::empty());
                }
                lemma_no_child_named(v.nodes, vps, n, v.parent, c);
                lemma_add_node_complete(v.nodes, node);
                lemma_insert_child_shape(v.nodes.push(node), v.parent, component_text(c), ino as u64);
                assert(v.nodes.push(node)[ino - 1] == node);
            },
        }
    }
}

/// The tree of the first `n` servable paths lists every node but the root
/// in its parent's listing.
proof fn lemma_build_tree_complete(vps: Seq<Seq<Component>>, n: int)
    requires
        servable_paths(vps),
        0 <= n <= vps.len(),
        component_total(vps) + 2 < u64::MAX,
    ensures
        listings_complete(build_tree(vps.take(n))),
    decreases n,
{
    if n == 0 {
        assert(vps.take(0) =~= Seq::<Seq<Component>>::empty());
    } else {
        lemma_build_tree_complete(vps, n - 1);
        let d = vps.take(n - 1);
        assert(vps.take(n).drop_last() =~= d);
        assert(vps.take(n).last() == vps[n - 1]);
        let t = build_tree(d);
        assert forall|i: int| 0 <= i < d.len() implies relative_path(#[trigger] d[i]) by {
            assert(d[i] == vps[i]);
        }
        lemma_build_tree_linked(d);
        lemma_build_tree_inos(d);
        lemma_component_total_prefix(vps, n - 1);
        lemma_component_total_prefix(vps, n);
        lemma_listings_consistent(d);
        lemma_build_tree_shape(vps, n - 1);
        let vp = vps[n - 1];
        assert(relative_path(vp));
        assert(component_total(vps.take(n)) == component_total(d) + vp.len());
        let w0 = Walk { nodes: t, parent: 1, cur: seq![] };
        assert(vp.drop_last() =~= vp.take(vp.len() - 1));
        lemma_walk_complete(w0, vps, n - 1, vp.len() - 1);
        lemma_walk_linked(w0, vp, vp.len() - 1);
        lemma_walk_keeps_shape(w0, vps, n - 1, vp.len() - 1);
        lemma_walk_consistent(w0, vp.drop_last());
        let w = walk_dirs(w0, vp.drop_last());
        let last = vp.last();
        let fp = push_component(w.cur, last);
        lemma_push_take(vp, vp.len() - 1);
        assert(vp.take(vp.len() as int) =~= vp);
        assert(last == vp[vp.len() - 1]);
        if find_path(w.nodes, fp) is None {
            let ino: int = w.nodes.len() as int + 1;
            let node = NodeView {
                ino,
                parent: w.parent,
                name: component_text(last),
                path: fp,
                kind: KindView::File(n - 1),
            };
            assert(good_component(last));
            if last is Cur {
                assert(vp.len() - 1 == 0);
                assert(vp.take(0) =~= Seq::<Component>::empty());
            }
            lemma_no_child_named(w.nodes, vps, n - 1, w.parent, last);
            lemma_add_node_complete(w.nodes, node);
        }
    }
}

/// Listings are complete: in the tree of servable paths (within the inode
/// bound of `AtmosFs::new`), every node but the root is listed by its
/// parent directory under its name and inode, so looking its name up in
/// its parent finds it.
pub proof fn lemma_listings_complete(vps: Seq<Seq<Component>>)
    requires
        servable_paths(vps),
        component_total(vps) + 2 < u64::MAX,
    ensures
        forall|k: int| 0 < k < build_tree(vps).len() ==> #[trigger] listed_by_parent(build_tree(vps), k),
        forall|k: int|
            0 < k < build_tree(vps).len() ==> spec_lookup_child(
                build_tree(vps),
                (#[trigger] build_tree(vps)[k]).parent,
                build_tree(vps)[k].name,
            ) == Some(build_tree(vps)[k]),
{
    lemma_build_tree_complete(vps, vps.len() as int);
    assert(vps.take(vps.len() as int) =~= vps);
    lemma_build_tree_inos(vps);
    lemma_listings_consistent(vps);
    let t = build_tree(vps);
    assert forall|k: int| 0 < k < t.len() implies spec_lookup_child(t, (#[trigger] t[k]).parent, t[k].name) == Some(t[k]) by {
        assert(listed_by_parent(t, k));
        assert(t[k].ino == k + 1);
        assert((t[k].ino as u64) as int == k + 1);
        assert(node_at(t, t[k].parent) == Some(t[t[k].parent - 1]));
    }
}

} // verus!

