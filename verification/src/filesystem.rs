//! Path-indexed tree of decoded archive entries.
//!
//! A tree owns one root node.  A freshly made tree has the `Empty` root; the
//! first insertion turns the root into a directory named `/`.  Insertion walks
//! slash-free path components, creating intermediate directories as needed,
//! and appends the new node at the end of the final directory's child list,
//! so listings keep insertion order.  Duplicate child names within one
//! directory are rejected with an error, never overwritten or merged.

use vstd::prelude::*;
use vstd::string::StringExecFns;

verus! {

/// A file entry: a name and its decoded content bytes.
#[derive(Debug, PartialEq)]
pub struct RDAFile {
    pub filename: String,
    pub content: Vec<u8>,
}

/// A directory entry: a name and its children, in insertion order.
#[derive(Debug, PartialEq)]
pub struct RDADirectory {
    pub filename: String,
    pub nodes: Vec<RDANode>,
}

/// One node of the tree.  `Empty` is the sentinel for an uninitialized root;
/// it is never a child of a directory.
#[derive(Debug, PartialEq)]
pub enum RDANode {
    File(RDAFile),
    Directory(RDADirectory),
    Empty,
}

/// The tree itself: exactly one root node.
#[derive(Debug, PartialEq)]
pub struct RDAFileSystem {
    pub root: RDANode,
}

/// Why an insertion was refused.
#[derive(Clone, Copy, PartialEq, Eq, Structural, Debug)]
pub enum TreeError {
    /// Traversal expected a directory but met a file or the empty sentinel.
    NotADirectory,
    /// The final directory already has a child with the inserted node's name.
    DuplicateName,
    /// An `Empty` node can never be inserted as a child.
    EmptyChild,
}

/// Mathematical shape of a node: names and contents as sequences.
pub ghost enum NodeView {
    File { name: Seq<char>, content: Seq<u8> },
    Directory { name: Seq<char>, children: Seq<NodeView> },
    Empty,
}

/// The name under which a node is found, as the `name` method reports it.
pub open spec fn nv_name(v: NodeView) -> Seq<char> {
    match v {
        NodeView::File { name, .. } => name,
        NodeView::Directory { name, .. } => name,
        NodeView::Empty => "EMPTY"@,
    }
}

/// Abstraction of one node.
pub open spec fn node_view(n: RDANode) -> NodeView
    decreases n,
{
    match n {
        RDANode::File(f) => NodeView::File { name: f.filename@, content: f.content@ },
        RDANode::Directory(d) => NodeView::Directory {
            name: d.filename@,
            children: children_view(d.nodes@),
        },
        RDANode::Empty => NodeView::Empty,
    }
}

/// Abstraction of a child list, element by element.
pub open spec fn children_view(s: Seq<RDANode>) -> Seq<NodeView>
    decreases s,
{
    if s.len() == 0 {
        Seq::empty()
    } else {
        children_view(s.drop_last()).push(node_view(s[s.len() - 1]))
    }
}

impl View for RDANode {
    type V = NodeView;

    open spec fn view(&self) -> NodeView {
        node_view(*self)
    }
}

impl View for RDAFileSystem {
    type V = NodeView;

    open spec fn view(&self) -> NodeView {
        node_view(self.root)
    }
}

pub proof fn lemma_children_view_len(s: Seq<RDANode>)
    ensures
        children_view(s).len() == s.len(),
    decreases s,
{
    if s.len() > 0 {
        lemma_children_view_len(s.drop_last());
    }
}

pub proof fn lemma_children_view_index(s: Seq<RDANode>, i: int)
    requires
        0 <= i < s.len(),
    ensures
        children_view(s).len() == s.len(),
        children_view(s)[i] == node_view(s[i]),
    decreases s,
{
    lemma_children_view_len(s);
    if i < s.len() - 1 {
        lemma_children_view_index(s.drop_last(), i);
    }
}

pub proof fn lemma_children_view_push(s: Seq<RDANode>, n: RDANode)
    ensures
        children_view(s.push(n)) == children_view(s).push(node_view(n)),
{
    assert(s.push(n).drop_last() =~= s);
    assert(s.push(n)[s.push(n).len() - 1] == n);
}

pub proof fn lemma_children_view_update(s: Seq<RDANode>, i: int, n: RDANode)
    requires
        0 <= i < s.len(),
    ensures
        children_view(s.update(i, n)) == children_view(s).update(i, node_view(n)),
    decreases s,
{
    lemma_children_view_len(s);
    let su = s.update(i, n);
    if i == s.len() - 1 {
        assert(su.drop_last() =~= s.drop_last());
        assert(children_view(su) == children_view(s.drop_last()).push(node_view(n)));
        assert(children_view(s.update(i, n)) =~= children_view(s).update(i, node_view(n)));
    } else {
        assert(su.drop_last() =~= s.drop_last().update(i, n));
        lemma_children_view_update(s.drop_last(), i, n);
        assert(su[su.len() - 1] == s[s.len() - 1]);
        assert(children_view(s.update(i, n)) =~= children_view(s).update(i, node_view(n)));
    }
}

/// As `lemma_children_view_update`, shaped for ambient use where the
/// updated element is only known symbolically.
pub broadcast proof fn lemma_children_view_update_auto(s: Seq<RDANode>, i: int, n: RDANode)
    requires
        0 <= i < s.len(),
    ensures
        children_view(#[trigger] s.update(i, n)) == children_view(s).update(i, node_view(n)),
{
    lemma_children_view_update(s, i, n);
}

/// Index of the first child whose name is `name`, or `-1` if none has it.
pub open spec fn find_named(cs: Seq<NodeView>, name: Seq<char>) -> int
    decreases cs,
{
    if cs.len() == 0 {
        -1
    } else if nv_name(cs[0]) == name {
        0
    } else if find_named(cs.drop_first(), name) == -1 {
        -1
    } else {
        1 + find_named(cs.drop_first(), name)
    }
}

pub proof fn lemma_find_named_props(cs: Seq<NodeView>, name: Seq<char>)
    ensures
        find_named(cs, name) == -1 ==> forall|k: int|
            0 <= k < cs.len() ==> nv_name(cs[k]) != name,
        find_named(cs, name) != -1 ==> {
            &&& 0 <= find_named(cs, name) < cs.len()
            &&& nv_name(cs[find_named(cs, name)]) == name
            &&& forall|k: int| 0 <= k < find_named(cs, name) ==> nv_name(cs[k]) != name
        },
    decreases cs,
{
    if cs.len() > 0 && nv_name(cs[0]) != name {
        lemma_find_named_props(cs.drop_first(), name);
        let r = find_named(cs.drop_first(), name);
        if r == -1 {
            assert forall|k: int| 0 <= k < cs.len() implies nv_name(cs[k]) != name by {
                if k > 0 {
                    assert(cs[k] == cs.drop_first()[k - 1]);
                }
            }
        } else {
            assert(cs[r + 1] == cs.drop_first()[r]);
            assert forall|k: int| 0 <= k < r + 1 implies nv_name(cs[k]) != name by {
                if k > 0 {
                    assert(cs[k] == cs.drop_first()[k - 1]);
                }
            }
        }
    }
}

/// The first match is exactly the index a left-to-right scan stops at.
pub proof fn lemma_find_named_from_scan(cs: Seq<NodeView>, name: Seq<char>, i: int)
    requires
        0 <= i < cs.len(),
        nv_name(cs[i]) == name,
        forall|k: int| 0 <= k < i ==> nv_name(cs[k]) != name,
    ensures
        find_named(cs, name) == i,
    decreases cs,
{
    if i > 0 {
        assert(nv_name(cs[0]) != name);
        let t = cs.drop_first();
        assert(t[i - 1] == cs[i]);
        assert forall|k: int| 0 <= k < i - 1 implies nv_name(t[k]) != name by {
            assert(t[k] == cs[k + 1]);
        }
        lemma_find_named_from_scan(t, name, i - 1);
    }
}

pub proof fn lemma_find_named_none(cs: Seq<NodeView>, name: Seq<char>)
    requires
        forall|k: int| 0 <= k < cs.len() ==> nv_name(cs[k]) != name,
    ensures
        find_named(cs, name) == -1,
    decreases cs,
{
    if cs.len() > 0 {
        let t = cs.drop_first();
        assert forall|k: int| 0 <= k < t.len() implies nv_name(t[k]) != name by {
            assert(t[k] == cs[k + 1]);
        }
        lemma_find_named_none(t, name);
    }
}

/// What inserting `node` under `paths[i..]` does to a directory's children:
/// the updated child list, or the error that refuses the insertion.
///
/// Every component of `paths[i..]` names a directory to enter, created at the
/// end of the list when absent; the node itself is appended under its own
/// name.  A name clash at the final step, a non-directory on the way, and the
/// `Empty` sentinel as the inserted node are the three refusals.
pub open spec fn spec_push(
    cs: Seq<NodeView>,
    paths: Seq<Seq<char>>,
    i: int,
    node: NodeView,
) -> Result<Seq<NodeView>, TreeError>
    decreases paths.len() - i,
{
    if node is Empty {
        Err(TreeError::EmptyChild)
    } else if i >= paths.len() {
        if find_named(cs, nv_name(node)) == -1 {
            Ok(cs.push(node))
        } else {
            Err(TreeError::DuplicateName)
        }
    } else {
        let j = find_named(cs, paths[i]);
        if j == -1 {
            match spec_push(Seq::empty(), paths, i + 1, node) {
                Ok(sub) => Ok(cs.push(NodeView::Directory { name: paths[i], children: sub })),
                Err(e) => Err(e),
            }
        } else {
            match cs[j] {
                NodeView::Directory { name, children } => match spec_push(
                    children,
                    paths,
                    i + 1,
                    node,
                ) {
                    Ok(sub) => Ok(cs.update(j, NodeView::Directory { name, children: sub })),
                    Err(e) => Err(e),
                },
                _ => Err(TreeError::NotADirectory),
            }
        }
    }
}

/// The node reached by descending `paths[i..]`, entering at each step the
/// first child carrying the wanted name, or `None` when a component is
/// missing or a non-directory stands where the path goes on.
pub open spec fn spec_get(cs: Seq<NodeView>, paths: Seq<Seq<char>>, i: int) -> Option<NodeView>
    decreases paths.len() - i,
{
    if i >= paths.len() {
        None
    } else {
        let j = find_named(cs, paths[i]);
        if j == -1 {
            None
        } else if i == paths.len() - 1 {
            Some(cs[j])
        } else {
            match cs[j] {
                NodeView::Directory { children, .. } => spec_get(children, paths, i + 1),
                _ => None,
            }
        }
    }
}

/// The children after overwriting the node that `paths[i..]` reaches with
/// `v`; where the path reaches nothing, the children stay as they are.
pub open spec fn spec_set(cs: Seq<NodeView>, paths: Seq<Seq<char>>, i: int, v: NodeView) -> Seq<
    NodeView,
>
    decreases paths.len() - i,
{
    if i >= paths.len() {
        cs
    } else {
        let j = find_named(cs, paths[i]);
        if j == -1 {
            cs
        } else if i == paths.len() - 1 {
            cs.update(j, v)
        } else {
            match cs[j] {
                NodeView::Directory { name, children } => cs.update(
                    j,
                    NodeView::Directory { name, children: spec_set(children, paths, i + 1, v) },
                ),
                _ => cs,
            }
        }
    }
}

/// The view of a sequence of path components.
pub open spec fn paths_view(path: Seq<String>) -> Seq<Seq<char>> {
    path.map_values(|s: String| s@)
}

impl RDANode {
    /// The name under which this node is addressed; the empty sentinel
    /// reports the reserved name `EMPTY`.
    pub fn name(&self) -> (r: &str)
        ensures
            r@ == nv_name(self@),
    {
        match self {
            RDANode::Directory(dir) => dir.filename.as_str(),
            RDANode::File(file) => file.filename.as_str(),
            RDANode::Empty => "EMPTY",
        }
    }
}

impl RDADirectory {
    /// Inserts `node` below this directory, entering or creating one
    /// directory per component of `path`; on any refusal the directory is
    /// left unchanged.
    pub fn push(&mut self, path: &[String], node: RDANode) -> (r: Result<(), TreeError>)
        ensures
            final(self).filename == old(self).filename,
            match r {
                Ok(()) => spec_push(
                    children_view(old(self).nodes@),
                    paths_view(path@),
                    0,
                    node_view(node),
                ) == Ok::<_, TreeError>(children_view(final(self).nodes@)),
                Err(e) => {
                    &&& children_view(final(self).nodes@) == children_view(old(self).nodes@)
                    &&& spec_push(
                        children_view(old(self).nodes@),
                        paths_view(path@),
                        0,
                        node_view(node),
                    ) == Err::<Seq<NodeView>, _>(e)
                },
            },
    {
        self.push_at(path, 0, node)
    }

    fn push_at(&mut self, path: &[String], i: usize, node: RDANode) -> (r: Result<
        (),
        TreeError,
    >)
        requires
            i <= path@.len(),
        ensures
            final(self).filename == old(self).filename,
            match r {
                Ok(()) => spec_push(
                    children_view(old(self).nodes@),
                    paths_view(path@),
                    i as int,
                    node_view(node),
                ) == Ok::<_, TreeError>(children_view(final(self).nodes@)),
                Err(e) => {
                    &&& children_view(final(self).nodes@) == children_view(old(self).nodes@)
                    &&& spec_push(
                        children_view(old(self).nodes@),
                        paths_view(path@),
                        i as int,
                        node_view(node),
                    ) == Err::<Seq<NodeView>, _>(e)
                },
            },
        decreases path@.len() - i,
    {
        if matches!(node, RDANode::Empty) {
            return Err(TreeError::EmptyChild);
        }
        if i == path.len() {
            match self.find_child(node.name()) {
                Some(_) => Err(TreeError::DuplicateName),
                None => {
                    proof {
                        lemma_children_view_push(self.nodes@, node);
                    }
                    self.nodes.push(node);
                    Ok(())
                },
            }
        } else {
            let component: &String = &path[i];
            match self.find_child(component.as_str()) {
                Some(j) => {
                    let child = self.nodes.remove(j);
                    match child {
                        RDANode::Directory(mut d) => {
                            let res = d.push_at(path, i + 1, node);
                            self.nodes.insert(j, RDANode::Directory(d));
                            proof {
                                let cs = children_view(old(self).nodes@);
                                lemma_children_view_index(old(self).nodes@, j as int);
                                assert(old(self).nodes@.remove(j as int).insert(
                                    j as int,
                                    RDANode::Directory(d),
                                ) =~= old(self).nodes@.update(j as int, RDANode::Directory(d)));
                                lemma_children_view_update(
                                    old(self).nodes@,
                                    j as int,
                                    RDANode::Directory(d),
                                );
                                if res is Err {
                                    assert(node_view(RDANode::Directory(d)) == cs[j as int]);
                                    assert(cs.update(j as int, cs[j as int]) =~= cs);
                                }
                            }
                            res
                        },
                        other => {
                            self.nodes.insert(j, other);
                            proof {
                                lemma_children_view_index(old(self).nodes@, j as int);
                                assert(old(self).nodes@.remove(j as int).insert(j as int, other)
                                    =~= old(self).nodes@);
                            }
                            Err(TreeError::NotADirectory)
                        },
                    }
                },
                None => {
                    let mut nd = RDADirectory { filename: component.clone(), nodes: Vec::new() };
                    match nd.push_at(path, i + 1, node) {
                        Ok(()) => {
                            proof {
                                lemma_children_view_push(self.nodes@, RDANode::Directory(nd));
                            }
                            self.nodes.push(RDANode::Directory(nd));
                            Ok(())
                        },
                        Err(e) => Err(e),
                    }
                },
            }
        }
    }

    /// Index of the first child named `name`, scanning left to right.
    fn find_child(&self, name: &str) -> (r: Option<usize>)
        ensures
            match r {
                Some(j) => {
                    &&& 0 <= j < self.nodes@.len()
                    &&& find_named(children_view(self.nodes@), name@) == j as int
                },
                None => find_named(children_view(self.nodes@), name@) == -1,
            },
    {
        let ghost cs = children_view(self.nodes@);
        proof {
            lemma_children_view_len(self.nodes@);
        }
        let n = self.nodes.len();
        for j in 0..n
            invariant
                n == self.nodes@.len(),
                cs == children_view(self.nodes@),
                cs.len() == n,
                forall|k: int| 0 <= k < j ==> nv_name(cs[k]) != name@,
        {
            proof {
                lemma_children_view_index(self.nodes@, j as int);
            }
            let child_name = self.nodes[j].name();
            if str_eq(child_name, name) {
                proof {
                    lemma_find_named_from_scan(cs, name@, j as int);
                }
                return Some(j);
            }
        }
        proof {
            lemma_find_named_none(cs, name@);
        }
        None
    }
}

/// Relies on `str::eq` (via `==` on string slices): true exactly when the two
/// slices hold the same characters.
#[verifier::external_body]
fn str_eq(a: &str, b: &str) -> (r: bool)
    ensures
        r == (a@ == b@),
{
    a == b
}

impl Default for RDAFileSystem {
    /// A fresh tree: the root is the empty sentinel.
    fn default() -> (r: Self)
        ensures
            r.root is Empty,
    {
        RDAFileSystem { root: RDANode::Empty }
    }
}

impl RDAFileSystem {
    /// Inserts `node` under `path`.  An empty root becomes a directory named
    /// `/` first; a file at the root refuses the insertion.
    pub fn push(&mut self, path: &[String], node: RDANode) -> (r: Result<(), TreeError>)
        ensures
            match r {
                Ok(()) => {
                    &&& final(self).root is Directory
                    &&& node_view(final(self).root) == NodeView::Directory {
                        name: fs_root_name(old(self).root),
                        children: spec_push(
                            fs_root_children(old(self).root),
                            paths_view(path@),
                            0,
                            node_view(node),
                        )->Ok_0,
                    }
                    &&& spec_push(
                        fs_root_children(old(self).root),
                        paths_view(path@),
                        0,
                        node_view(node),
                    ) is Ok
                    &&& !(old(self).root is File)
                },
                Err(e) => {
                    &&& node_view(final(self).root) == node_view(old(self).root)
                    &&& if old(self).root is File {
                        e == TreeError::NotADirectory
                    } else {
                        spec_push(
                            fs_root_children(old(self).root),
                            paths_view(path@),
                            0,
                            node_view(node),
                        ) == Err::<Seq<NodeView>, _>(e)
                    }
                },
            },
    {
        match &mut self.root {
            RDANode::Directory(dir) => dir.push(path, node),
            RDANode::File(_) => Err(TreeError::NotADirectory),
            RDANode::Empty => {
                let mut dir = RDADirectory { filename: root_name(), nodes: Vec::new() };
                let r = dir.push(path, node);
                match r {
                    Ok(()) => {
                        self.root = RDANode::Directory(dir);
                        Ok(())
                    },
                    Err(e) => Err(e),
                }
            },
        }
    }
}

/// The name the root directory gets when the first insertion creates it.
fn root_name() -> (r: String)
    ensures
        r@ == "/"@,
{
    let r = "/";
    String::from_str(r)
}

/// The name the root directory has, or will get on its first insertion.
pub open spec fn fs_root_name(root: RDANode) -> Seq<char> {
    match root {
        RDANode::Directory(d) => d.filename@,
        _ => "/"@,
    }
}

/// The root's child list; an unpopulated root has none.
pub open spec fn fs_root_children(root: RDANode) -> Seq<NodeView> {
    match root {
        RDANode::Directory(d) => children_view(d.nodes@),
        _ => Seq::empty(),
    }
}

impl RDADirectory {
    /// The node below this directory at `path`, descending at each step into
    /// the first child carrying the wanted name; `None` when a component is
    /// missing or the path runs through a non-directory.
    pub fn lookup(&self, path: &[String]) -> (r: Option<&RDANode>)
        requires
            path@.len() >= 1,
        ensures
            match r {
                Some(n) => spec_get(children_view(self.nodes@), paths_view(path@), 0)
                    == Some(node_view(*n)),
                None => spec_get(children_view(self.nodes@), paths_view(path@), 0) is None,
            },
    {
        self.lookup_at(path, 0)
    }

    /// A mutable handle on the node at `path`, or `None` where `lookup`
    /// would find nothing.  Whatever the caller writes through the handle
    /// replaces that node in the tree; everything else stays as it was.
    pub fn get_mut(&mut self, path: &[String]) -> (r: Option<&mut RDANode>)
        requires
            path@.len() >= 1,
        ensures
            match r {
                Some(node) => {
                    &&& spec_get(children_view(old(self).nodes@), paths_view(path@), 0) == Some(
                        node_view(*node),
                    )
                    &&& final(self).filename == old(self).filename
                    &&& children_view(final(self).nodes@) == spec_set(
                        children_view(old(self).nodes@),
                        paths_view(path@),
                        0,
                        node_view(*final(node)),
                    )
                },
                None => {
                    &&& spec_get(children_view(old(self).nodes@), paths_view(path@), 0) is None
                    &&& final(self).filename == old(self).filename
                    &&& children_view(final(self).nodes@) == children_view(old(self).nodes@)
                },
            },
    {
        self.get_mut_at(path, 0)
    }

    fn get_mut_at(&mut self, path: &[String], i: usize) -> (r: Option<&mut RDANode>)
        requires
            i < path@.len(),
        ensures
            match r {
                Some(node) => {
                    &&& spec_get(children_view(old(self).nodes@), paths_view(path@), i as int)
                        == Some(node_view(*node))
                    &&& final(self).filename == old(self).filename
                    &&& children_view(final(self).nodes@) == spec_set(
                        children_view(old(self).nodes@),
                        paths_view(path@),
                        i as int,
                        node_view(*final(node)),
                    )
                },
                None => {
                    &&& spec_get(children_view(old(self).nodes@), paths_view(path@), i as int)
                        is None
                    &&& final(self).filename == old(self).filename
                    &&& children_view(final(self).nodes@) == children_view(old(self).nodes@)
                },
            },
        decreases path@.len() - i,
    {
        broadcast use lemma_children_view_update_auto;

        let component: &String = &path[i];
        match self.find_child(component.as_str()) {
            None => None,
            Some(j) => {
                proof {
                    lemma_children_view_index(self.nodes@, j as int);
                }
                let node = vstd::std_specs::vec::vec_index_mut(&mut self.nodes, j);
                if i + 1 == path.len() {
                    Some(node)
                } else {
                    match node {
                        RDANode::Directory(d) => d.get_mut_at(path, i + 1),
                        _ => None,
                    }
                }
            },
        }
    }

    fn lookup_at(&self, path: &[String], i: usize) -> (r: Option<&RDANode>)
        requires
            i < path@.len(),
        ensures
            match r {
                Some(n) => spec_get(children_view(self.nodes@), paths_view(path@), i as int)
                    == Some(node_view(*n)),
                None => spec_get(children_view(self.nodes@), paths_view(path@), i as int)
                    is None,
            },
        decreases path@.len() - i,
    {
        let component: &String = &path[i];
        match self.find_child(component.as_str()) {
            None => None,
            Some(j) => {
                proof {
                    lemma_children_view_index(self.nodes@, j as int);
                }
                let child = &self.nodes[j];
                if i + 1 == path.len() {
                    Some(child)
                } else {
                    match child {
                        RDANode::Directory(d) => d.lookup_at(path, i + 1),
                        _ => None,
                    }
                }
            },
        }
    }
}

/// Bytes in one kibibyte.
pub const KIB: usize = 1024;

/// Bytes in one mebibyte.
pub const MIB: usize = KIB * KIB;

/// Bytes in one gibibyte.
pub const GIB: usize = KIB * MIB;

/// The character for one decimal digit.
pub open spec fn digit_char(d: nat) -> char
    recommends
        d < 10,
{
    if d == 0 {
        '0'
    } else if d == 1 {
        '1'
    } else if d == 2 {
        '2'
    } else if d == 3 {
        '3'
    } else if d == 4 {
        '4'
    } else if d == 5 {
        '5'
    } else if d == 6 {
        '6'
    } else if d == 7 {
        '7'
    } else if d == 8 {
        '8'
    } else {
        '9'
    }
}

/// The decimal digits of `n`, most significant first.
pub open spec fn spec_dec(n: nat) -> Seq<char>
    decreases n,
{
    if n < 10 {
        seq![digit_char(n)]
    } else {
        spec_dec(n / 10).push(digit_char(n % 10))
    }
}

/// A fraction of a unit in thousandths, zero-padded to three digits.
pub open spec fn spec_frac3(f: nat) -> Seq<char>
    recommends
        f < 1000,
{
    if f < 10 {
        seq!['0', '0'] + spec_dec(f)
    } else if f < 100 {
        seq!['0'] + spec_dec(f)
    } else {
        spec_dec(f)
    }
}

/// `n` measured in `unit`s with three decimal digits, rounding half away
/// from zero, as in `1.001`.
pub open spec fn spec_scaled(n: nat, unit: nat) -> Seq<char>
    recommends
        unit >= 2,
{
    let whole0 = n / unit;
    let frac0 = ((n % unit) * 1000 + unit / 2) / unit;
    if frac0 >= 1000 {
        spec_dec(whole0 + 1) + seq!['.'] + spec_frac3(0)
    } else {
        spec_dec(whole0) + seq!['.'] + spec_frac3(frac0)
    }
}

/// The rendering of a byte count: the largest unit that `n` strictly
/// exceeds, so a count of exactly one unit still renders in the next lower
/// one — 1024 stays `1024 B`.
pub open spec fn spec_format_length(n: nat) -> Seq<char> {
    if n > GIB {
        spec_scaled(n, GIB as nat) + " GIB"@
    } else if n > MIB {
        spec_scaled(n, MIB as nat) + " MIB"@
    } else if n > KIB {
        spec_scaled(n, KIB as nat) + " KIB"@
    } else {
        spec_dec(n) + " B"@
    }
}

/// One decimal digit as a string slice.
fn digit_str(d: u64) -> (r: &'static str)
    requires
        d < 10,
    ensures
        r@ == seq![digit_char(d as nat)],
{
    proof {
        reveal_strlit("0");
        reveal_strlit("1");
        reveal_strlit("2");
        reveal_strlit("3");
        reveal_strlit("4");
        reveal_strlit("5");
        reveal_strlit("6");
        reveal_strlit("7");
        reveal_strlit("8");
        reveal_strlit("9");
    }
    if d == 0 {
        "0"
    } else if d == 1 {
        "1"
    } else if d == 2 {
        "2"
    } else if d == 3 {
        "3"
    } else if d == 4 {
        "4"
    } else if d == 5 {
        "5"
    } else if d == 6 {
        "6"
    } else if d == 7 {
        "7"
    } else if d == 8 {
        "8"
    } else {
        "9"
    }
}

/// The decimal rendering of `n`.
fn dec_string(n: u64) -> (r: String)
    ensures
        r@ == spec_dec(n as nat),
    decreases n,
{
    if n < 10 {
        String::from_str(digit_str(n))
    } else {
        let mut s = dec_string(n / 10);
        s.append(digit_str(n % 10));
        proof {
            assert(s@ =~= spec_dec(n as nat));
        }
        s
    }
}

/// `n` in `unit`s with three decimal digits.
fn scaled_string(n: usize, unit: usize) -> (r: String)
    requires
        2 <= unit <= 0x4000_0000,
        n > unit,
    ensures
        r@ == spec_scaled(n as nat, unit as nat),
{
    proof {
        reveal_strlit(".");
        reveal_strlit("00");
        reveal_strlit("0");
        assert(n / unit < n) by (nonlinear_arith)
            requires
                n >= 1,
                unit >= 2,
        ;
    }
    let whole0 = n / unit;
    let rem = (n % unit) as u64;
    let frac0 = (rem * 1000 + (unit as u64) / 2) / (unit as u64);
    let (whole, frac) = if frac0 >= 1000 {
        (whole0 + 1, 0u64)
    } else {
        (whole0, frac0)
    };
    let mut s = dec_string(whole as u64);
    s.append(".");
    if frac < 10 {
        s.append("00");
    } else if frac < 100 {
        s.append("0");
    }
    let fs = dec_string(frac);
    s.append(fs.as_str());
    proof {
        assert("00"@ =~= seq!['0', '0']);
        assert("0"@ =~= seq!['0']);
        assert("."@ =~= seq!['.']);
        assert(s@ =~= spec_scaled(n as nat, unit as nat));
    }
    s
}

/// Renders a byte count under the strict-excess unit rule.
pub fn format_length(length: usize) -> (r: String)
    ensures
        r@ == spec_format_length(length as nat),
{
    let mut s = if length > GIB {
        let mut s = scaled_string(length, GIB);
        s.append(" GIB");
        s
    } else if length > MIB {
        let mut s = scaled_string(length, MIB);
        s.append(" MIB");
        s
    } else if length > KIB {
        let mut s = scaled_string(length, KIB);
        s.append(" KIB");
        s
    } else {
        let mut s = dec_string(length as u64);
        s.append(" B");
        s
    };
    s
}

/// The one-line rendering of a node: files as `name [<size>]`, directories
/// as `name [ child, child, ]`, the sentinel as `Empty`.
pub open spec fn spec_render_node(v: NodeView) -> Seq<char>
    decreases v,
{
    match v {
        NodeView::Empty => "Empty"@,
        NodeView::File { name, content } => name + " ["@ + spec_format_length(content.len())
            + "]"@,
        NodeView::Directory { name, children } => name + " [ "@ + spec_render_children(children)
            + "]"@,
    }
}

/// The children of a directory, each followed by `, `.
pub open spec fn spec_render_children(cs: Seq<NodeView>) -> Seq<char>
    decreases cs,
{
    if cs.len() == 0 {
        Seq::empty()
    } else {
        spec_render_node(cs[0]) + ", "@ + spec_render_children(cs.drop_first())
    }
}

/// The tree's rendering: the root label, then one line per top-level entry.
pub open spec fn spec_render_fs(root: NodeView) -> Seq<char> {
    "RDAFileSystem"@ + match root {
        NodeView::Directory { children, .. } => "\n"@ + spec_render_lines(children),
        NodeView::File { .. } => spec_render_node(root),
        NodeView::Empty => "Empty"@,
    }
}

/// Top-level entries, one per line.
pub open spec fn spec_render_lines(cs: Seq<NodeView>) -> Seq<char>
    decreases cs,
{
    if cs.len() == 0 {
        Seq::empty()
    } else {
        spec_render_node(cs[0]) + "\n"@ + spec_render_lines(cs.drop_first())
    }
}

/// The diagnostic rendering of a node, naming each variant and field.
pub open spec fn spec_debug_node(v: NodeView) -> Seq<char>
    decreases v,
{
    match v {
        NodeView::Empty => "Empty"@,
        NodeView::File { name, content } => "File("@ + name + " ["@ + spec_format_length(
            content.len(),
        ) + "])"@,
        NodeView::Directory { name, children } => "Directory(RDADirectory { filename: \""@ + name
            + "\", nodes: ["@ + spec_debug_children(children) + "] })"@,
    }
}

/// A directory's children in diagnostic form, separated by `, `.
pub open spec fn spec_debug_children(cs: Seq<NodeView>) -> Seq<char>
    decreases cs,
{
    if cs.len() == 0 {
        Seq::empty()
    } else if cs.len() == 1 {
        spec_debug_node(cs[0])
    } else {
        spec_debug_node(cs[0]) + ", "@ + spec_debug_children(cs.drop_first())
    }
}

/// The tree's diagnostic rendering.
pub open spec fn spec_debug_fs(root: NodeView) -> Seq<char> {
    "RDAFileSystem { root: "@ + spec_debug_node(root) + " }"@
}

/// Renders one node as its one-line listing entry.
pub fn render_node(n: &RDANode) -> (r: String)
    ensures
        r@ == spec_render_node(node_view(*n)),
    decreases *n, 0nat,
{
    match n {
        RDANode::Empty => String::from_str("Empty"),
        RDANode::File(f) => {
            let mut s = f.filename.clone();
            s.append(" [");
            let fl = format_length(f.content.len());
            s.append(fl.as_str());
            s.append("]");
            proof {
                assert(s@ =~= spec_render_node(node_view(*n)));
            }
            s
        },
        RDANode::Directory(d) => {
            let mut s = d.filename.clone();
            s.append(" [ ");
            let cs = render_children(&d.nodes, 0);
            s.append(cs.as_str());
            s.append("]");
            proof {
                assert(children_view(d.nodes@).skip(0) =~= children_view(d.nodes@));
                assert(s@ =~= spec_render_node(node_view(*n)));
            }
            s
        },
    }
}

/// Renders the children of a directory from index `i` on.
fn render_children(nodes: &Vec<RDANode>, i: usize) -> (r: String)
    requires
        i <= nodes@.len(),
    ensures
        r@ == spec_render_children(children_view(nodes@).skip(i as int)),
    decreases nodes@, nodes@.len() - i,
{
    proof {
        lemma_children_view_len(nodes@);
    }
    if i == nodes.len() {
        String::new()
    } else {
        let mut s = render_node(&nodes[i]);
        s.append(", ");
        let rest = render_children(nodes, i + 1);
        s.append(rest.as_str());
        proof {
            let cv = children_view(nodes@);
            lemma_children_view_index(nodes@, i as int);
            assert(cv.skip(i as int).drop_first() =~= cv.skip(i as int + 1));
            assert(s@ =~= spec_render_children(cv.skip(i as int)));
        }
        s
    }
}

/// Renders the top-level entries, one per line, from index `i` on.
fn render_lines(nodes: &Vec<RDANode>, i: usize) -> (r: String)
    requires
        i <= nodes@.len(),
    ensures
        r@ == spec_render_lines(children_view(nodes@).skip(i as int)),
    decreases nodes@.len() - i,
{
    proof {
        lemma_children_view_len(nodes@);
    }
    if i == nodes.len() {
        String::new()
    } else {
        let mut s = render_node(&nodes[i]);
        s.append("\n");
        let rest = render_lines(nodes, i + 1);
        s.append(rest.as_str());
        proof {
            let cv = children_view(nodes@);
            lemma_children_view_index(nodes@, i as int);
            assert(cv.skip(i as int).drop_first() =~= cv.skip(i as int + 1));
            assert(s@ =~= spec_render_lines(cv.skip(i as int)));
        }
        s
    }
}

/// Renders one node in diagnostic form.
pub fn debug_node(n: &RDANode) -> (r: String)
    ensures
        r@ == spec_debug_node(node_view(*n)),
    decreases *n, 0nat,
{
    match n {
        RDANode::Empty => String::from_str("Empty"),
        RDANode::File(f) => {
            let mut s = String::from_str("File(");
            s.append(f.filename.as_str());
            s.append(" [");
            let fl = format_length(f.content.len());
            s.append(fl.as_str());
            s.append("])");
            proof {
                assert(s@ =~= spec_debug_node(node_view(*n)));
            }
            s
        },
        RDANode::Directory(d) => {
            let mut s = String::from_str("Directory(RDADirectory { filename: \"");
            s.append(d.filename.as_str());
            s.append("\", nodes: [");
            let cs = debug_children(&d.nodes, 0);
            s.append(cs.as_str());
            s.append("] })");
            proof {
                assert(children_view(d.nodes@).skip(0) =~= children_view(d.nodes@));
                assert(s@ =~= spec_debug_node(node_view(*n)));
            }
            s
        },
    }
}

/// Renders a directory's children in diagnostic form from index `i` on.
fn debug_children(nodes: &Vec<RDANode>, i: usize) -> (r: String)
    requires
        i <= nodes@.len(),
    ensures
        r@ == spec_debug_children(children_view(nodes@).skip(i as int)),
    decreases nodes@, nodes@.len() - i,
{
    proof {
        lemma_children_view_len(nodes@);
    }
    if i == nodes.len() {
        String::new()
    } else {
        let mut s = debug_node(&nodes[i]);
        if i + 1 < nodes.len() {
            s.append(", ");
            let rest = debug_children(nodes, i + 1);
            s.append(rest.as_str());
        }
        proof {
            let cv = children_view(nodes@);
            lemma_children_view_index(nodes@, i as int);
            assert(cv.skip(i as int).drop_first() =~= cv.skip(i as int + 1));
            assert(s@ =~= spec_debug_children(cv.skip(i as int)));
        }
        s
    }
}

impl RDAFileSystem {
    /// The deterministic listing of the tree: the root label, then one line
    /// per top-level entry.
    pub fn display_string(&self) -> (r: String)
        ensures
            r@ == spec_render_fs(node_view(self.root)),
    {
        let mut s = String::from_str("RDAFileSystem");
        match &self.root {
            RDANode::Directory(d) => {
                s.append("\n");
                let lines = render_lines(&d.nodes, 0);
                s.append(lines.as_str());
                proof {
                    assert(children_view(d.nodes@).skip(0) =~= children_view(d.nodes@));
                }
            },
            RDANode::File(_) => {
                let inner = render_node(&self.root);
                s.append(inner.as_str());
            },
            RDANode::Empty => {
                s.append("Empty");
            },
        }
        proof {
            assert(s@ =~= spec_render_fs(node_view(self.root)));
        }
        s
    }

    /// The diagnostic rendering of the tree, naming variants and fields.
    pub fn debug_string(&self) -> (r: String)
        ensures
            r@ == spec_debug_fs(node_view(self.root)),
    {
        let mut s = String::from_str("RDAFileSystem { root: ");
        let inner = debug_node(&self.root);
        s.append(inner.as_str());
        s.append(" }");
        proof {
            assert(s@ =~= spec_debug_fs(node_view(self.root)));
        }
        s
    }
}

/// Two child lists whose entries carry the same names agree on where any
/// name is first found.
proof fn lemma_find_named_names_equal(cs: Seq<NodeView>, cs2: Seq<NodeView>, name: Seq<char>)
    requires
        cs.len() == cs2.len(),
        forall|k: int| 0 <= k < cs.len() ==> nv_name(cs[k]) == nv_name(cs2[k]),
    ensures
        find_named(cs, name) == find_named(cs2, name),
    decreases cs,
{
    if cs.len() > 0 {
        let t = cs.drop_first();
        let t2 = cs2.drop_first();
        assert forall|k: int| 0 <= k < t.len() implies nv_name(t[k]) == nv_name(t2[k]) by {
            assert(t[k] == cs[k + 1] && t2[k] == cs2[k + 1]);
        }
        lemma_find_named_names_equal(t, t2, name);
    }
}

/// Appending a child does not move a name that was already found.
proof fn lemma_find_named_push_keeps(cs: Seq<NodeView>, x: NodeView, name: Seq<char>)
    requires
        find_named(cs, name) != -1,
    ensures
        find_named(cs.push(x), name) == find_named(cs, name),
{
    let j = find_named(cs, name);
    lemma_find_named_props(cs, name);
    assert forall|k: int| 0 <= k < j implies nv_name(cs.push(x)[k]) != name by {
        assert(cs.push(x)[k] == cs[k]);
    }
    assert(cs.push(x)[j] == cs[j]);
    lemma_find_named_from_scan(cs.push(x), name, j);
}

/// A successful push leaves every file that `spec_get` already reached
/// exactly where and as it was: insertion never rewrites or hides an
/// existing file.
pub proof fn lemma_push_preserves_file_get(
    cs: Seq<NodeView>,
    p: Seq<Seq<char>>,
    q: Seq<Seq<char>>,
    i: int,
    node: NodeView,
    cs2: Seq<NodeView>,
    name: Seq<char>,
    content: Seq<u8>,
)
    requires
        0 <= i,
        spec_get(cs, p, i) == Some(NodeView::File { name, content }),
        spec_push(cs, q, i, node) == Ok::<_, TreeError>(cs2),
    ensures
        spec_get(cs2, p, i) == Some(NodeView::File { name, content }),
    decreases p.len() - i,
{
    let jg = find_named(cs, p[i]);
    lemma_find_named_props(cs, p[i]);
    if i >= q.len() {
        lemma_find_named_props(cs, nv_name(node));
        lemma_find_named_push_keeps(cs, node, p[i]);
        assert(cs2[jg] == cs[jg]);
    } else {
        let jq = find_named(cs, q[i]);
        lemma_find_named_props(cs, q[i]);
        if jq == -1 {
            assert(p[i] != q[i]);
            let sub = spec_push(Seq::empty(), q, i + 1, node)->Ok_0;
            lemma_find_named_push_keeps(
                cs,
                NodeView::Directory { name: q[i], children: sub },
                p[i],
            );
            assert(cs2[jg] == cs[jg]);
        } else {
            let children = cs[jq]->Directory_children;
            let sub = spec_push(children, q, i + 1, node)->Ok_0;
            let nd = NodeView::Directory { name: cs[jq]->Directory_name, children: sub };
            assert(cs2 == cs.update(jq, nd));
            assert forall|k: int| 0 <= k < cs.len() implies nv_name(cs[k]) == nv_name(
                cs2[k],
            ) by {
                if k != jq {
                    assert(cs2[k] == cs[k]);
                }
            }
            lemma_find_named_names_equal(cs, cs2, p[i]);
            if p[i] == q[i] {
                assert(jg == jq);
                assert(i < p.len() - 1);
                lemma_push_preserves_file_get(
                    children,
                    p,
                    q,
                    i + 1,
                    node,
                    sub,
                    name,
                    content,
                );
            } else {
                assert(jg != jq);
                assert(cs2[jg] == cs[jg]);
            }
        }
    }
}

/// Once a push has gone through, looking the node up under its full path —
/// the pushed components followed by the node's own name — finds exactly the
/// node that was inserted.
pub proof fn lemma_push_then_get(
    cs: Seq<NodeView>,
    paths: Seq<Seq<char>>,
    i: int,
    node: NodeView,
    cs2: Seq<NodeView>,
)
    requires
        0 <= i <= paths.len(),
        spec_push(cs, paths, i, node) == Ok::<_, TreeError>(cs2),
    ensures
        spec_get(cs2, paths.push(nv_name(node)), i) == Some(node),
    decreases paths.len() - i,
{
    let full = paths.push(nv_name(node));
    if i >= paths.len() {
        lemma_find_named_props(cs, nv_name(node));
        lemma_find_named_from_scan(cs2, nv_name(node), cs.len() as int);
        assert(spec_get(cs2, full, i) == Some(cs2[cs.len() as int]));
    } else {
        let j = find_named(cs, paths[i]);
        lemma_find_named_props(cs, paths[i]);
        if j == -1 {
            let sub = spec_push(Seq::empty(), paths, i + 1, node)->Ok_0;
            let nd = NodeView::Directory { name: paths[i], children: sub };
            lemma_find_named_from_scan(cs2, paths[i], cs.len() as int);
            lemma_push_then_get(Seq::empty(), paths, i + 1, node, sub);
        } else {
            let children = cs[j]->Directory_children;
            let sub = spec_push(children, paths, i + 1, node)->Ok_0;
            assert forall|k: int| 0 <= k < j implies nv_name(cs2[k]) != paths[i] by {
                assert(cs2[k] == cs[k]);
            }
            lemma_find_named_from_scan(cs2, paths[i], j);
            lemma_push_then_get(children, paths, i + 1, node, sub);
        }
    }
}

} // verus!
