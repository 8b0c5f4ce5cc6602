//! Recursive enumeration of the modelled tree. At every directory the
//! walker loads that directory's own ignore rules and excludes matching
//! entries together with their subtrees. A hidden entry (name beginning
//! with a dot) aborts the enumeration of the remaining siblings of its
//! directory. Entries come out pre-order: each directory's own entry
//! stands before the entries of its subtree.

use crate::fstree::EntryModel;
use crate::fstree::FsEntry;
use crate::fstree::FsKind;
use crate::fstree::FsNode;
use crate::fstree::clone_path;
use crate::fstree::entries_view;
use crate::fstree::is_hidden_name;
use crate::fstree::lemma_entries_view_add;
use crate::fstree::lemma_entries_view_push;
use crate::fstree::lemma_path_view_push;
use crate::fstree::name_is_hidden;
use crate::fstree::path_view;
use crate::ignore::ignore_patterns;
use crate::ignore::ignored;
use crate::ignore::is_ignored;
use crate::ignore::load_rules;
use crate::ignore::pats_view;
use crate::ignore::suffix_matches;
use vstd::prelude::*;

verus! {

/// The entries yielded by walking `node`, whose own path is `path`.
/// Nothing comes from a non-directory, nor when the walk starts under a
/// hidden first component.
pub open spec fn walk_spec(path: Seq<Seq<char>>, node: FsNode, dirs_only: bool) -> Seq<EntryModel>
    decreases node,
{
    if !(node.kind is Directory) {
        Seq::empty()
    } else if path.len() > 0 && is_hidden_name(path[0]) {
        Seq::empty()
    } else {
        walk_children(path, ignore_patterns(node), node.children@, dirs_only)
    }
}

/// The entries contributed by a directory's children, in order. A hidden
/// child ends the enumeration; an ignored child is skipped with its whole
/// subtree; any other child contributes its own entry (files only when
/// `dirs_only` is false) followed by the entries of its subtree.
pub open spec fn walk_children(
    path: Seq<Seq<char>>,
    pats: Seq<Seq<Seq<char>>>,
    children: Seq<FsNode>,
    dirs_only: bool,
) -> Seq<EntryModel>
    decreases children,
{
    if children.len() == 0 {
        Seq::empty()
    } else {
        let c = children[0];
        if is_hidden_name(c.name@) {
            Seq::empty()
        } else {
            let cpath = path.push(c.name@);
            let rest = walk_children(path, pats, children.drop_first(), dirs_only);
            if ignored(cpath, pats) {
                rest
            } else {
                let own = if !dirs_only || c.kind is Directory {
                    seq![EntryModel { path: cpath, kind: c.kind }]
                } else {
                    Seq::empty()
                };
                own + walk_spec(cpath, c, dirs_only) + rest
            }
        }
    }
}

/// Walks the tree under `node`, returning every entry that survives the
/// ignore rules and the hidden-entry policy, pre-order.
pub fn walk(path: &Vec<String>, node: &FsNode, dirs_only: bool) -> (r: Vec<FsEntry>)
    ensures
        entries_view(r@) == walk_spec(path_view(path@), *node, dirs_only),
    decreases *node,
{
    let mut r: Vec<FsEntry> = Vec::new();
    let is_dir = match node.kind {
        FsKind::Directory => true,
        FsKind::File => false,
    };
    if !is_dir {
        proof {
            assert(entries_view(r@) =~= Seq::<EntryModel>::empty());
        }
        return r;
    }
    if path.len() > 0 && name_is_hidden(&path[0]) {
        proof {
            assert(path_view(path@)[0] == path@[0]@);
            assert(entries_view(r@) =~= Seq::<EntryModel>::empty());
        }
        return r;
    }
    proof {
        assert(!(path_view(path@).len() > 0 && is_hidden_name(path_view(path@)[0]))) by {
            if path_view(path@).len() > 0 {
                assert(path_view(path@)[0] == path@[0]@);
            }
        }
    }
    let pats = load_rules(node);
    let ghost pv = path_view(path@);
    let ghost psv = pats_view(pats@);
    let ghost cs = node.children@;
    let n = node.children.len();
    let mut i: usize = 0;
    let mut stopped = false;
    proof {
        assert(cs.subrange(0, n as int) =~= cs);
        assert(entries_view(r@) + walk_children(pv, psv, cs.subrange(0, n as int), dirs_only) =~=
        walk_children(pv, psv, cs, dirs_only));
    }
    while i < n && !stopped
        invariant
            n == cs.len(),
            cs == node.children@,
            pv == path_view(path@),
            psv == pats_view(pats@),
            i <= n,
            stopped ==> walk_children(pv, psv, cs, dirs_only) == entries_view(r@),
            !stopped ==> walk_children(pv, psv, cs, dirs_only) == entries_view(r@)
                + walk_children(pv, psv, cs.subrange(i as int, n as int), dirs_only),
        decreases n - i,
    {
        proof {
            let tail = cs.subrange(i as int, n as int);
            assert(tail[0] == cs[i as int]);
            assert(tail.drop_first() =~= cs.subrange(i as int + 1, n as int));
        }
        let child = &node.children[i];
        if name_is_hidden(&child.name) {
            proof {
                assert(walk_children(pv, psv, cs.subrange(i as int, n as int), dirs_only)
                    =~= Seq::<EntryModel>::empty());
                assert(entries_view(r@) + Seq::<EntryModel>::empty() =~= entries_view(r@));
            }
            stopped = true;
            i = i + 1;
        } else {
            let mut cpath = clone_path(path);
            cpath.push(child.name.clone());
            proof {
                lemma_path_view_push(path@, child.name);
                assert(path_view(cpath@) == pv.push(child.name@));
            }
            if !is_ignored(&cpath, &pats) {
                let ghost before = r@;
                if !dirs_only || matches!(child.kind, FsKind::Directory) {
                    let own_path = clone_path(&cpath);
                    let own_entry = FsEntry { path: own_path, kind: child.kind };
                    let ghost entg = own_entry;
                    r.push(own_entry);
                    proof {
                        lemma_entries_view_push(before, entg);
                        assert(entg.model() == EntryModel {
                            path: pv.push(child.name@),
                            kind: child.kind,
                        });
                        assert(entries_view(r@) =~= entries_view(before) + seq![
                            EntryModel { path: pv.push(child.name@), kind: child.kind },
                        ]);
                    }
                }
                let ghost mid = r@;
                proof {
                    assert(decreases_to!(*node => node.children));
                    assert(decreases_to!(node.children => node.children@));
                    assert(decreases_to!(node.children@ => node.children@[i as int]));
                }
                let mut sub = walk(&cpath, child, dirs_only);
                let ghost subv = sub@;
                r.append(&mut sub);
                proof {
                    let tail = cs.subrange(i as int, n as int);
                    lemma_entries_view_add(mid, subv);
                    assert(entries_view(r@) == entries_view(mid) + entries_view(subv));
                    assert(entries_view(subv) == walk_spec(
                        pv.push(child.name@),
                        *child,
                        dirs_only,
                    ));
                    assert(entries_view(r@) + walk_children(
                        pv,
                        psv,
                        cs.subrange(i as int + 1, n as int),
                        dirs_only,
                    ) =~= entries_view(before) + walk_children(pv, psv, tail, dirs_only));
                }
            } else {
                proof {
                    let tail = cs.subrange(i as int, n as int);
                    assert(walk_children(pv, psv, tail, dirs_only) == walk_children(
                        pv,
                        psv,
                        tail.drop_first(),
                        dirs_only,
                    ));
                }
            }
            i = i + 1;
        }
    }
    proof {
        if !stopped {
            assert(cs.subrange(i as int, n as int).len() == 0);
            assert(walk_children(pv, psv, cs.subrange(i as int, n as int), dirs_only)
                =~= Seq::<EntryModel>::empty());
            assert(entries_view(r@) + Seq::<EntryModel>::empty() =~= entries_view(r@));
        }
    }
    r
}

/// No entry anywhere in the tree below `node` is hidden.
pub open spec fn no_hidden(node: FsNode) -> bool
    decreases node,
{
    forall|i: int|
        0 <= i < node.children@.len() ==> !is_hidden_name(#[trigger] node.children@[i].name@)
            && no_hidden(node.children@[i])
}

/// No directory in the tree below `node` carries a non-empty ignore
/// pattern.
pub open spec fn no_rules(node: FsNode) -> bool
    decreases node,
{
    &&& forall|k: int|
        0 <= k < ignore_patterns(node).len() ==> (#[trigger] ignore_patterns(node)[k]).len() == 0
    &&& forall|i: int| 0 <= i < node.children@.len() ==> no_rules(#[trigger] node.children@[i])
}

/// Sibling names are pairwise distinct everywhere below `node`, as they
/// are in a real directory tree.
pub open spec fn uniq_child_names(node: FsNode) -> bool
    decreases node,
{
    &&& forall|i: int, j: int|
        #![trigger node.children@[i], node.children@[j]]
        0 <= i < j < node.children@.len() ==> node.children@[i].name@ != node.children@[j].name@
    &&& forall|i: int|
        0 <= i < node.children@.len() ==> uniq_child_names(#[trigger] node.children@[i])
}

/// Every file and directory beneath `node`, pre-order, with no rules
/// applied: the reference enumeration that a full walk must reproduce.
pub open spec fn all_entries(path: Seq<Seq<char>>, node: FsNode) -> Seq<EntryModel>
    decreases node,
{
    if node.kind is Directory {
        all_children(path, node.children@)
    } else {
        Seq::empty()
    }
}

/// The pre-order enumeration of a child list.
pub open spec fn all_children(path: Seq<Seq<char>>, children: Seq<FsNode>) -> Seq<EntryModel>
    decreases children,
{
    if children.len() == 0 {
        Seq::empty()
    } else {
        let c = children[0];
        let cpath = path.push(c.name@);
        seq![EntryModel { path: cpath, kind: c.kind }] + all_entries(cpath, c) + all_children(
            path,
            children.drop_first(),
        )
    }
}

/// No two entries of the sequence share a path.
pub open spec fn paths_distinct(s: Seq<EntryModel>) -> bool {
    forall|i: int, j: int| #![trigger s[i], s[j]] 0 <= i < j < s.len() ==> s[i].path != s[j].path
}

/// Every entry's path strictly extends `path`.
pub open spec fn entries_under(s: Seq<EntryModel>, path: Seq<Seq<char>>) -> bool {
    forall|j: int|
        0 <= j < s.len() ==> (#[trigger] s[j]).path.len() > path.len()
            && s[j].path.subrange(0, path.len() as int) == path
}

/// Some child of the list bears this name.
pub open spec fn some_child_named(children: Seq<FsNode>, nm: Seq<char>) -> bool {
    exists|i: int| 0 <= i < children.len() && children[i].name@ == nm
}

/// Walking with no ignore rules and no hidden entries yields exactly the
/// pre-order enumeration of the tree: every file and directory beneath the
/// root, parent before child, siblings in enumeration order.
pub proof fn lemma_walk_complete(path: Seq<Seq<char>>, node: FsNode)
    requires
        !(path.len() > 0 && is_hidden_name(path[0])),
        no_hidden(node),
        no_rules(node),
    ensures
        walk_spec(path, node, false) == all_entries(path, node),
    decreases node,
{
    if node.kind is Directory {
        assert forall|i: int| 0 <= i < node.children@.len() implies !is_hidden_name(
            #[trigger] node.children@[i].name@,
        ) && no_hidden(node.children@[i]) && no_rules(node.children@[i]) by {
            assert(!is_hidden_name(node.children@[i].name@));
            assert(no_hidden(node.children@[i]));
            assert(no_rules(node.children@[i]));
        }
        lemma_walk_children_complete(path, ignore_patterns(node), node.children@);
    }
}

/// Child-list form of [`lemma_walk_complete`].
proof fn lemma_walk_children_complete(
    path: Seq<Seq<char>>,
    pats: Seq<Seq<Seq<char>>>,
    children: Seq<FsNode>,
)
    requires
        !(path.len() > 0 && is_hidden_name(path[0])),
        forall|k: int| 0 <= k < pats.len() ==> (#[trigger] pats[k]).len() == 0,
        forall|i: int|
            0 <= i < children.len() ==> !is_hidden_name(#[trigger] children[i].name@) && no_hidden(
                children[i],
            ) && no_rules(children[i]),
    ensures
        walk_children(path, pats, children, false) == all_children(path, children),
    decreases children,
{
    if children.len() > 0 {
        let c = children[0];
        let cpath = path.push(c.name@);
        assert(!is_hidden_name(c.name@));
        assert(!ignored(cpath, pats));
        if path.len() > 0 {
            assert(cpath[0] == path[0]);
        } else {
            assert(cpath[0] == c.name@);
        }
        lemma_walk_complete(cpath, c);
        assert forall|i: int| 0 <= i < children.drop_first().len() implies !is_hidden_name(
            #[trigger] children.drop_first()[i].name@,
        ) && no_hidden(children.drop_first()[i]) && no_rules(children.drop_first()[i]) by {
            assert(children.drop_first()[i] == children[i + 1]);
        }
        lemma_walk_children_complete(path, pats, children.drop_first());
        assert(walk_children(path, pats, children, false) =~= all_children(path, children));
    }
}

/// Under pairwise-distinct sibling names, the pre-order enumeration never
/// repeats a path, every entry lies strictly below the enumerated root,
/// and each entry's first component below the root names some child.
proof fn lemma_all_entries_sound(path: Seq<Seq<char>>, node: FsNode)
    requires
        uniq_child_names(node),
    ensures
        paths_distinct(all_entries(path, node)),
        entries_under(all_entries(path, node), path),
        forall|j: int|
            0 <= j < all_entries(path, node).len() ==> some_child_named(
                node.children@,
                (#[trigger] all_entries(path, node)[j]).path[path.len() as int],
            ),
    decreases node,
{
    if node.kind is Directory {
        assert forall|i: int, j: int|
            #![trigger node.children@[i], node.children@[j]]
            0 <= i < j < node.children@.len() implies node.children@[i].name@
            != node.children@[j].name@ by {
            assert(uniq_child_names(node));
        }
        assert forall|i: int| 0 <= i < node.children@.len() implies uniq_child_names(
            #[trigger] node.children@[i],
        ) by {
            assert(uniq_child_names(node));
        }
        lemma_all_children_sound(path, node.children@);
    }
}

/// Child-list form of [`lemma_all_entries_sound`].
proof fn lemma_all_children_sound(path: Seq<Seq<char>>, children: Seq<FsNode>)
    requires
        forall|i: int, j: int|
            #![trigger children[i], children[j]]
            0 <= i < j < children.len() ==> children[i].name@ != children[j].name@,
        forall|i: int| 0 <= i < children.len() ==> uniq_child_names(#[trigger] children[i]),
    ensures
        paths_distinct(all_children(path, children)),
        entries_under(all_children(path, children), path),
        forall|j: int|
            0 <= j < all_children(path, children).len() ==> some_child_named(
                children,
                (#[trigger] all_children(path, children)[j]).path[path.len() as int],
            ),
    decreases children,
{
    if children.len() > 0 {
        let c = children[0];
        let cpath = path.push(c.name@);
        assert(uniq_child_names(c));
        lemma_all_entries_sound(cpath, c);
        assert forall|i: int, j: int|
            #![trigger children.drop_first()[i], children.drop_first()[j]]
            0 <= i < j < children.drop_first().len() implies children.drop_first()[i].name@
            != children.drop_first()[j].name@ by {
            assert(children.drop_first()[i] == children[i + 1]);
            assert(children.drop_first()[j] == children[j + 1]);
        }
        assert forall|i: int| 0 <= i < children.drop_first().len() implies uniq_child_names(
            #[trigger] children.drop_first()[i],
        ) by {
            assert(children.drop_first()[i] == children[i + 1]);
        }
        lemma_all_children_sound(path, children.drop_first());
        let e0 = EntryModel { path: cpath, kind: c.kind };
        let sub = all_entries(cpath, c);
        let rest = all_children(path, children.drop_first());
        let s = all_children(path, children);
        assert(s == seq![e0] + sub + rest);
        assert(cpath.subrange(0, path.len() as int) =~= path);
        assert forall|j: int| 0 <= j < sub.len() implies (#[trigger] sub[j]).path.len()
            > cpath.len() && sub[j].path[path.len() as int] == c.name@ && sub[j].path.subrange(
            0,
            path.len() as int,
        ) == path by {
            assert(sub[j].path.subrange(0, cpath.len() as int) == cpath);
            assert(sub[j].path[path.len() as int] == sub[j].path.subrange(
                0,
                cpath.len() as int,
            )[path.len() as int]);
            assert(sub[j].path.subrange(0, path.len() as int) =~= sub[j].path.subrange(
                0,
                cpath.len() as int,
            ).subrange(0, path.len() as int));
            assert(cpath.subrange(0, path.len() as int) =~= path);
        }
        assert forall|j: int| 0 <= j < rest.len() implies (#[trigger] rest[j]).path[path.len()
            as int] != c.name@ by {
            let nm = rest[j].path[path.len() as int];
            assert(some_child_named(children.drop_first(), nm));
            let i = choose|i: int|
                0 <= i < children.drop_first().len() && children.drop_first()[i].name@ == nm;
            assert(children.drop_first()[i] == children[i + 1]);
            assert(children[0].name@ != children[i + 1].name@);
        }
        assert(e0.path[path.len() as int] == c.name@);
        assert forall|i: int, j: int|
            #![trigger s[i], s[j]]
            0 <= i < j < s.len() implies s[i].path != s[j].path by {
            let m = 1 + sub.len();
            if i == 0 {
                if j < m {
                    assert(s[j] == sub[j - 1]);
                    assert(s[j].path.len() > cpath.len());
                } else {
                    assert(s[j] == rest[j - m]);
                }
            } else if i < m {
                assert(s[i] == sub[i - 1]);
                if j < m {
                    assert(s[j] == sub[j - 1]);
                } else {
                    assert(s[j] == rest[j - m]);
                }
            } else {
                assert(s[i] == rest[i - m]);
                assert(s[j] == rest[j - m]);
            }
        }
        assert forall|j: int| 0 <= j < s.len() implies (#[trigger] s[j]).path.len() > path.len()
            && s[j].path.subrange(0, path.len() as int) == path && some_child_named(
            children,
            s[j].path[path.len() as int],
        ) by {
            let m = 1 + sub.len();
            if j == 0 {
                assert(s[j] == e0);
                assert(children[0].name@ == e0.path[path.len() as int]);
            } else if j < m {
                assert(s[j] == sub[j - 1]);
                assert(children[0].name@ == s[j].path[path.len() as int]);
            } else {
                assert(s[j] == rest[j - m]);
                let nm = rest[j - m].path[path.len() as int];
                assert(some_child_named(children.drop_first(), nm));
                let i = choose|i: int|
                    0 <= i < children.drop_first().len() && children.drop_first()[i].name@ == nm;
                assert(children.drop_first()[i] == children[i + 1]);
                assert(children[i + 1].name@ == nm);
            }
        }
    }
}

/// A full walk of a tree with no ignore rules, no hidden entries and
/// distinct sibling names yields every file and directory beneath the
/// root exactly once, pre-order, with no duplicate paths.
pub proof fn lemma_walk_complete_exact(path: Seq<Seq<char>>, node: FsNode)
    requires
        !(path.len() > 0 && is_hidden_name(path[0])),
        no_hidden(node),
        no_rules(node),
        uniq_child_names(node),
    ensures
        walk_spec(path, node, false) == all_entries(path, node),
        paths_distinct(walk_spec(path, node, false)),
{
    lemma_walk_complete(path, node);
    lemma_all_entries_sound(path, node);
}

/// Every entry of a walk lies strictly below the walked root.
pub proof fn lemma_walk_under(path: Seq<Seq<char>>, node: FsNode, dirs_only: bool)
    ensures
        entries_under(walk_spec(path, node, dirs_only), path),
    decreases node,
{
    if node.kind is Directory && !(path.len() > 0 && is_hidden_name(path[0])) {
        lemma_walk_children_under(path, ignore_patterns(node), node.children@, dirs_only);
    }
}

/// Child-list form of [`lemma_walk_under`].
proof fn lemma_walk_children_under(
    path: Seq<Seq<char>>,
    pats: Seq<Seq<Seq<char>>>,
    children: Seq<FsNode>,
    dirs_only: bool,
)
    ensures
        entries_under(walk_children(path, pats, children, dirs_only), path),
    decreases children,
{
    if children.len() > 0 {
        let c = children[0];
        let cpath = path.push(c.name@);
        lemma_walk_under(cpath, c, dirs_only);
        lemma_walk_children_under(path, pats, children.drop_first(), dirs_only);
        if !is_hidden_name(c.name@) && !ignored(cpath, pats) {
            let s = walk_children(path, pats, children, dirs_only);
            assert forall|j: int| 0 <= j < s.len() implies (#[trigger] s[j]).path.len() > path.len()
                && s[j].path.subrange(0, path.len() as int) == path by {
                let own: Seq<EntryModel> = if !dirs_only || c.kind is Directory {
                    seq![EntryModel { path: cpath, kind: c.kind }]
                } else {
                    Seq::empty()
                };
                let sub = walk_spec(cpath, c, dirs_only);
                let rest = walk_children(path, pats, children.drop_first(), dirs_only);
                assert(s == own + sub + rest);
                if j < own.len() {
                    assert(s[j] == own[0]);
                    assert(cpath.subrange(0, path.len() as int) =~= path);
                } else if j < own.len() + sub.len() {
                    assert(s[j] == sub[j - own.len()]);
                    assert(sub[j - own.len()].path.subrange(0, cpath.len() as int) == cpath);
                    assert(sub[j - own.len()].path.subrange(0, path.len() as int) =~= cpath
                        .subrange(0, path.len() as int));
                    assert(cpath.subrange(0, path.len() as int) =~= path);
                } else {
                    assert(s[j] == rest[j - own.len() - sub.len()]);
                }
            }
        }
    }
}

/// For any non-empty pattern of the rules at the walked directory, no
/// surviving entry starts with a child component that matches it: an
/// immediate child whose path ends with the pattern's components is
/// absent, and so is every descendant of such a child.
pub proof fn lemma_ignored_pattern_excludes(
    path: Seq<Seq<char>>,
    node: FsNode,
    dirs_only: bool,
    pat: Seq<Seq<char>>,
)
    requires
        ignore_patterns(node).contains(pat),
        pat.len() > 0,
    ensures
        forall|j: int|
            0 <= j < walk_spec(path, node, dirs_only).len() ==> !suffix_matches(
                (#[trigger] walk_spec(path, node, dirs_only)[j]).path.subrange(
                    0,
                    path.len() as int + 1,
                ),
                pat,
            ),
{
    if node.kind is Directory && !(path.len() > 0 && is_hidden_name(path[0])) {
        lemma_children_pattern_excludes(path, ignore_patterns(node), node.children@, dirs_only, pat);
    }
}

/// Child-list form of [`lemma_ignored_pattern_excludes`].
proof fn lemma_children_pattern_excludes(
    path: Seq<Seq<char>>,
    pats: Seq<Seq<Seq<char>>>,
    children: Seq<FsNode>,
    dirs_only: bool,
    pat: Seq<Seq<char>>,
)
    requires
        pats.contains(pat),
        pat.len() > 0,
    ensures
        forall|j: int|
            0 <= j < walk_children(path, pats, children, dirs_only).len() ==> !suffix_matches(
                (#[trigger] walk_children(path, pats, children, dirs_only)[j]).path.subrange(
                    0,
                    path.len() as int + 1,
                ),
                pat,
            ),
    decreases children,
{
    if children.len() > 0 {
        let c = children[0];
        let cpath = path.push(c.name@);
        lemma_children_pattern_excludes(path, pats, children.drop_first(), dirs_only, pat);
        if !is_hidden_name(c.name@) && !ignored(cpath, pats) {
            let k = choose|k: int| 0 <= k < pats.len() && pats[k] == pat;
            assert(!suffix_matches(cpath, pats[k]));
            lemma_walk_under(cpath, c, dirs_only);
            let s = walk_children(path, pats, children, dirs_only);
            assert forall|j: int| 0 <= j < s.len() implies !suffix_matches(
                (#[trigger] s[j]).path.subrange(0, path.len() as int + 1),
                pat,
            ) by {
                let own: Seq<EntryModel> = if !dirs_only || c.kind is Directory {
                    seq![EntryModel { path: cpath, kind: c.kind }]
                } else {
                    Seq::empty()
                };
                let sub = walk_spec(cpath, c, dirs_only);
                let rest = walk_children(path, pats, children.drop_first(), dirs_only);
                assert(s == own + sub + rest);
                if j < own.len() {
                    assert(s[j] == own[0]);
                    assert(own[0].path.subrange(0, path.len() as int + 1) =~= cpath);
                } else if j < own.len() + sub.len() {
                    assert(s[j] == sub[j - own.len()]);
                    assert(sub[j - own.len()].path.subrange(0, cpath.len() as int) == cpath);
                    assert(sub[j - own.len()].path.subrange(0, path.len() as int + 1) =~= cpath);
                } else {
                    assert(s[j] == rest[j - own.len() - sub.len()]);
                }
            }
        }
    }
}

} // verus!
