//! An explicit model of a directory tree: each node carries its name, its
//! kind, the raw text of an ignore file found in it (for directories), and
//! its children in filesystem enumeration order. Callers build this model
//! from a real directory tree and hand it to the walker, the renderer and
//! the navigation builders.

use vstd::prelude::*;
use vstd::string::StrSliceExecFns;

verus! {

/// Whether an entry is a plain file or a directory.
#[derive(Clone, Copy, PartialEq, Eq, Structural, Debug)]
pub enum FsKind {
    File,
    Directory,
}

/// One node of the modelled tree. `ignore_rules` holds the raw text of the
/// per-directory ignore file when one is present; the ignore file itself is
/// carried only here and is not listed among the children.
pub struct FsNode {
    pub name: String,
    pub kind: FsKind,
    pub ignore_rules: Option<String>,
    pub children: Vec<FsNode>,
}

/// One entry yielded by a traversal: a path as a sequence of components,
/// and the entry's kind.
pub struct FsEntry {
    pub path: Vec<String>,
    pub kind: FsKind,
}

/// The mathematical form of an [`FsEntry`].
#[verifier::ext_equal]
pub struct EntryModel {
    pub path: Seq<Seq<char>>,
    pub kind: FsKind,
}

/// A component path as a sequence of character sequences.
pub open spec fn path_view(p: Seq<String>) -> Seq<Seq<char>> {
    p.map_values(|s: String| s@)
}

impl FsEntry {
    /// The mathematical value of this entry.
    pub open spec fn model(&self) -> EntryModel {
        EntryModel { path: path_view(self.path@), kind: self.kind }
    }
}

/// The mathematical values of a sequence of entries.
pub open spec fn entries_view(s: Seq<FsEntry>) -> Seq<EntryModel> {
    s.map_values(|e: FsEntry| e.model())
}

/// Appending one entry appends its model.
pub proof fn lemma_entries_view_push(s: Seq<FsEntry>, e: FsEntry)
    ensures
        entries_view(s.push(e)) == entries_view(s).push(e.model()),
{
    assert forall|j: int| 0 <= j < entries_view(s.push(e)).len() implies entries_view(s.push(e))[j]
        == entries_view(s).push(e.model())[j] by {
        if j < s.len() {
            assert(s.push(e)[j] == s[j]);
        } else {
            assert(s.push(e)[j] == e);
        }
    }
    assert(entries_view(s.push(e)) =~= entries_view(s).push(e.model()));
}

/// Concatenation of entry sequences concatenates their models.
pub proof fn lemma_entries_view_add(a: Seq<FsEntry>, b: Seq<FsEntry>)
    ensures
        entries_view(a + b) == entries_view(a) + entries_view(b),
{
    assert forall|j: int| 0 <= j < entries_view(a + b).len() implies entries_view(a + b)[j] == (
    entries_view(a) + entries_view(b))[j] by {
        if j < a.len() {
            assert((a + b)[j] == a[j]);
        } else {
            assert((a + b)[j] == b[j - a.len()]);
        }
    }
    assert(entries_view(a + b) =~= entries_view(a) + entries_view(b));
}

/// Appending one component appends its view.
pub proof fn lemma_path_view_push(p: Seq<String>, s: String)
    ensures
        path_view(p.push(s)) == path_view(p).push(s@),
{
    assert forall|j: int| 0 <= j < path_view(p.push(s)).len() implies path_view(p.push(s))[j]
        == path_view(p).push(s@)[j] by {
        if j < p.len() {
            assert(p.push(s)[j] == p[j]);
        } else {
            assert(p.push(s)[j] == s);
        }
    }
    assert(path_view(p.push(s)) =~= path_view(p).push(s@));
}

/// A name whose first character is a dot marks a hidden entry.
pub open spec fn is_hidden_name(n: Seq<char>) -> bool {
    n.len() > 0 && n[0] == '.'
}

/// Hidden-name test on a string.
pub fn name_is_hidden(n: &String) -> (r: bool)
    ensures
        r == is_hidden_name(n@),
{
    let s = n.as_str();
    s.unicode_len() > 0 && s.get_char(0) == '.'
}

/// The index of the first child with the given name, or `-1`.
pub open spec fn first_child_index(children: Seq<FsNode>, name: Seq<char>) -> int
    decreases children.len(),
{
    if children.len() == 0 {
        -1
    } else if children[0].name@ == name {
        0
    } else {
        let r = first_child_index(children.drop_first(), name);
        if r < 0 {
            -1
        } else {
            r + 1
        }
    }
}

/// The node reached from `node` by following `path` component by component,
/// resolving each component among the children of a directory. `None` when
/// some component is missing or an intermediate node is not a directory.
pub open spec fn node_at(node: FsNode, path: Seq<Seq<char>>) -> Option<FsNode>
    decreases path.len(),
{
    if path.len() == 0 {
        Some(node)
    } else if !(node.kind is Directory) {
        None
    } else {
        let i = first_child_index(node.children@, path[0]);
        if i < 0 {
            None
        } else {
            node_at(node.children@[i], path.drop_first())
        }
    }
}

/// What stops a page build: an expected ancestor or prefix relation
/// between paths does not hold in the modelled tree.
#[derive(Clone, Copy, PartialEq, Eq, Structural, Debug)]
pub enum BuildError {
    PathStructure,
}

/// Resolving one more trailing component: look the name up among the
/// children of the node the shorter path reaches.
pub proof fn lemma_node_at_snoc(node: FsNode, p: Seq<Seq<char>>, nm: Seq<char>)
    ensures
        node_at(node, p.push(nm)) == (match node_at(node, p) {
            Option::Some(n) => {
                if !(n.kind is Directory) {
                    Option::<FsNode>::None
                } else {
                    let i = first_child_index(n.children@, nm);
                    if i < 0 {
                        Option::<FsNode>::None
                    } else {
                        Option::Some(n.children@[i])
                    }
                }
            },
            Option::None => Option::<FsNode>::None,
        }),
    decreases p.len(),
{
    if p.len() == 0 {
        assert(p.push(nm)[0] == nm);
        assert(p.push(nm).drop_first() =~= Seq::<Seq<char>>::empty());
        assert(node_at(node, p) == Option::Some(node));
        if node.kind is Directory {
            let i = first_child_index(node.children@, nm);
            if i >= 0 {
                assert(node_at(node.children@[i], p.push(nm).drop_first()) == Option::Some(
                    node.children@[i],
                ));
            }
        }
    } else {
        assert(p.push(nm)[0] == p[0]);
        assert(p.push(nm).drop_first() =~= p.drop_first().push(nm));
        if node.kind is Directory {
            let i = first_child_index(node.children@, p[0]);
            if i >= 0 {
                lemma_node_at_snoc(node.children@[i], p.drop_first(), nm);
            }
        }
    }
}

/// Every prefix of the position, the whole included, names a directory
/// under `node`.
pub open spec fn position_resolves(node: FsNode, pos: Seq<Seq<char>>) -> bool {
    forall|i: int|
        0 <= i <= pos.len() ==> match #[trigger] node_at(node, pos.subrange(0, i)) {
            Option::Some(n) => n.kind is Directory,
            Option::None => false,
        }
}

/// The names of the directory children, in enumeration order.
pub open spec fn dir_child_names(children: Seq<FsNode>) -> Seq<Seq<char>>
    decreases children.len(),
{
    if children.len() == 0 {
        Seq::empty()
    } else {
        dir_child_names(children.drop_last()) + if children.last().kind is Directory {
            seq![children.last().name@]
        } else {
            Seq::empty()
        }
    }
}

/// The names of the file children, in enumeration order.
pub open spec fn file_child_names(children: Seq<FsNode>) -> Seq<Seq<char>>
    decreases children.len(),
{
    if children.len() == 0 {
        Seq::empty()
    } else {
        file_child_names(children.drop_last()) + if children.last().kind is File {
            seq![children.last().name@]
        } else {
            Seq::empty()
        }
    }
}

/// Some file child bears this name.
pub open spec fn has_file_named(children: Seq<FsNode>, nm: Seq<char>) -> bool {
    exists|i: int|
        0 <= i < children.len() && (#[trigger] children[i]).kind is File && children[i].name@ == nm
}

/// Finds the first child with the given name.
pub fn find_child(node: &FsNode, name: &String) -> (r: Option<usize>)
    ensures
        match r {
            Some(i) => first_child_index(node.children@, name@) == i as int && i
                < node.children.len(),
            None => first_child_index(node.children@, name@) < 0,
        },
{
    let mut i: usize = 0;
    proof {
        assert(node.children@.subrange(0, node.children@.len() as int) =~= node.children@);
    }
    while i < node.children.len()
        invariant
            i <= node.children.len(),
            first_child_index(node.children@, name@) == if first_child_index(
                node.children@.subrange(i as int, node.children@.len() as int),
                name@,
            ) < 0 {
                -1
            } else {
                first_child_index(
                    node.children@.subrange(i as int, node.children@.len() as int),
                    name@,
                ) + i
            },
        decreases node.children.len() - i,
    {
        proof {
            let cs = node.children@;
            let tail = cs.subrange(i as int, cs.len() as int);
            assert(tail[0] == cs[i as int]);
            assert(tail.drop_first() =~= cs.subrange(i as int + 1, cs.len() as int));
            if cs[i as int].name@ == name@ {
                assert(first_child_index(tail, name@) == 0);
            } else {
                assert(first_child_index(tail, name@) == if first_child_index(
                    tail.drop_first(),
                    name@,
                ) < 0 {
                    -1
                } else {
                    first_child_index(tail.drop_first(), name@) + 1
                });
            }
        }
        if node.children[i].name.eq(name) {
            return Some(i);
        }
        i = i + 1;
    }
    proof {
        assert(node.children@.subrange(i as int, node.children@.len() as int).len() == 0);
    }
    None
}

/// Follows `path` from `node`, returning the node it names.
pub fn resolve<'a>(node: &'a FsNode, path: &Vec<String>) -> (r: Option<&'a FsNode>)
    ensures
        match r {
            Some(n) => node_at(*node, path_view(path@)) == Some(*n),
            None => node_at(*node, path_view(path@)) is None,
        },
{
    let mut cur: &'a FsNode = node;
    let mut i: usize = 0;
    proof {
        assert(path_view(path@).subrange(0, path@.len() as int) =~= path_view(path@));
    }
    while i < path.len()
        invariant
            i <= path.len(),
            node_at(*node, path_view(path@)) == node_at(
                *cur,
                path_view(path@).subrange(i as int, path@.len() as int),
            ),
        decreases path.len() - i,
    {
        proof {
            let tail = path_view(path@).subrange(i as int, path@.len() as int);
            assert(tail[0] == path@[i as int]@);
            assert(tail.drop_first() =~= path_view(path@).subrange(
                i as int + 1,
                path@.len() as int,
            ));
        }
        match cur.kind {
            FsKind::Directory => {},
            FsKind::File => {
                return None;
            },
        }
        match find_child(cur, &path[i]) {
            Some(j) => {
                cur = &cur.children[j];
            },
            None => {
                return None;
            },
        }
        i = i + 1;
    }
    proof {
        assert(path_view(path@).subrange(i as int, path@.len() as int).len() == 0);
    }
    Some(cur)
}

/// Copies a component path.
pub fn clone_path(p: &Vec<String>) -> (r: Vec<String>)
    ensures
        r@ == p@,
{
    let mut r: Vec<String> = Vec::new();
    let mut i: usize = 0;
    while i < p.len()
        invariant
            i <= p.len(),
            r@ == p@.subrange(0, i as int),
        decreases p.len() - i,
    {
        r.push(p[i].clone());
        proof {
            assert(p@.subrange(0, i as int).push(p@[i as int]) =~= p@.subrange(0, i as int + 1));
        }
        i = i + 1;
    }
    proof {
        assert(p@.subrange(0, p@.len() as int) =~= p@);
    }
    r
}

} // verus!
