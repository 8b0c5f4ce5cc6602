//! Navigation breadcrumbs: one segment per component of the page's
//! position, each with a link to its prefix path and a dropdown of the
//! sibling directories at that level, sorted by name, without the segment
//! itself and without hidden entries.

use crate::fstree::BuildError;
use crate::fstree::FsKind;
use crate::fstree::FsNode;
use crate::fstree::clone_path;
use crate::fstree::dir_child_names;
use crate::fstree::find_child;
use crate::fstree::is_hidden_name;
use crate::fstree::lemma_node_at_snoc;
use crate::fstree::lemma_path_view_push;
use crate::fstree::name_is_hidden;
use crate::fstree::node_at;
use crate::fstree::path_view;
use crate::fstree::position_resolves;
use crate::order::sort_names;
use crate::order::sorted_names;
use crate::render::join_slash;
use crate::render::push_joined;
use crate::text::dec_rep;
use crate::text::push_char;
use crate::text::push_u64;
use crate::text::str_eq;
use crate::text::strings_view;
use vstd::prelude::*;
use vstd::string::StringExecFns;

verus! {

/// A site-absolute link: a slash, then the components joined by slashes.
pub open spec fn link_of(p: Seq<Seq<char>>) -> Seq<char> {
    seq!['/'] + join_slash(p)
}

/// The sibling directory names offered at breadcrumb level `i` (one
/// based): the directory children of the node the position's first
/// `i - 1` components reach.
pub open spec fn level_dir_names(root: FsNode, pos: Seq<Seq<char>>, i: int) -> Seq<Seq<char>> {
    match node_at(root, pos.subrange(0, i - 1)) {
        Option::Some(p) => dir_child_names(p.children@),
        Option::None => Seq::empty(),
    }
}

/// One dropdown line: nothing for the crumb's own label or a hidden name,
/// else a link to the sibling re-rooted at `/`.
pub open spec fn dropdown_one(nm: Seq<char>, label: Seq<char>, base: Seq<Seq<char>>) -> Seq<char> {
    if nm == label || is_hidden_name(nm) {
        Seq::empty()
    } else {
        "\n                <li><a href=\""@ + link_of(base.push(nm)) + "\">"@ + nm + "/</a></li>"@
    }
}

/// The dropdown lines for a sequence of sibling names, in order.
pub open spec fn dropdown_lines(
    names: Seq<Seq<char>>,
    label: Seq<char>,
    base: Seq<Seq<char>>,
) -> Seq<char>
    decreases names.len(),
{
    if names.len() == 0 {
        Seq::empty()
    } else {
        dropdown_lines(names.drop_last(), label, base) + dropdown_one(names.last(), label, base)
    }
}

/// One breadcrumb: its prefix link and label, then the sorted dropdown of
/// sibling directories at its level.
pub open spec fn crumb_out(root: FsNode, pos: Seq<Seq<char>>, i: int) -> Seq<char> {
    "\n        <li>\n            <a href=\""@ + link_of(pos.subrange(0, i)) + "\">"@ + pos[i - 1]
        + "</a>\n            <ul>"@ + dropdown_lines(
        sort_names(level_dir_names(root, pos, i)),
        pos[i - 1],
        pos.subrange(0, i - 1),
    ) + "\n            </ul>\n        </li>"@
}

/// The breadcrumbs for levels one up to `i`.
pub open spec fn crumbs_upto(root: FsNode, pos: Seq<Seq<char>>, i: int) -> Seq<char>
    decreases i,
{
    if i <= 0 {
        Seq::empty()
    } else {
        crumbs_upto(root, pos, i - 1) + crumb_out(root, pos, i)
    }
}

/// The whole navigation fragment: every breadcrumb, then the fixed right
/// block showing the content tree's modification time in seconds and a
/// link to the raw content file.
pub open spec fn nav_html_spec(root: FsNode, pos: Seq<Seq<char>>, mtime_secs: nat) -> Seq<char> {
    "\n  <nav>\n    <ul>"@ + crumbs_upto(root, pos, pos.len() as int)
        + "\n    </ul>\n    <ul style=\"float: right\">\n        <li>"@ + dec_rep(mtime_secs)
        + "</li>\n        <li>\n            <a href=\"README.md\">.md</a>\n        </li>\n    </ul>\n  </nav>"@
}

/// One entry of a breadcrumb's dropdown: a sibling directory's name and
/// its site-absolute link.
pub struct DropdownEntry {
    pub name: String,
    pub link: String,
}

/// One breadcrumb: the component's label, the site-absolute link of its
/// prefix path, and the dropdown of sibling directories at its level.
pub struct Breadcrumb {
    pub label: String,
    pub link: String,
    pub dropdown: Vec<DropdownEntry>,
}

/// The mathematical form of a dropdown entry.
#[verifier::ext_equal]
pub struct DropdownModel {
    pub name: Seq<char>,
    pub link: Seq<char>,
}

/// The mathematical form of a breadcrumb.
#[verifier::ext_equal]
pub struct BreadcrumbModel {
    pub label: Seq<char>,
    pub link: Seq<char>,
    pub dropdown: Seq<DropdownModel>,
}

impl DropdownEntry {
    /// The mathematical value of this entry.
    pub open spec fn model(&self) -> DropdownModel {
        DropdownModel { name: self.name@, link: self.link@ }
    }
}

/// The mathematical values of a dropdown.
pub open spec fn dropdowns_view(s: Seq<DropdownEntry>) -> Seq<DropdownModel> {
    s.map_values(|e: DropdownEntry| e.model())
}

impl Breadcrumb {
    /// The mathematical value of this breadcrumb.
    pub open spec fn model(&self) -> BreadcrumbModel {
        BreadcrumbModel {
            label: self.label@,
            link: self.link@,
            dropdown: dropdowns_view(self.dropdown@),
        }
    }
}

/// The mathematical values of a breadcrumb sequence.
pub open spec fn breadcrumbs_view(s: Seq<Breadcrumb>) -> Seq<BreadcrumbModel> {
    s.map_values(|b: Breadcrumb| b.model())
}

/// The dropdown entries for a sequence of sibling names, in order: the
/// crumb's own label and hidden names contribute nothing.
pub open spec fn dropdown_models(
    names: Seq<Seq<char>>,
    label: Seq<char>,
    base: Seq<Seq<char>>,
) -> Seq<DropdownModel>
    decreases names.len(),
{
    if names.len() == 0 {
        Seq::empty()
    } else {
        dropdown_models(names.drop_last(), label, base) + if names.last() == label
            || is_hidden_name(names.last()) {
            Seq::empty()
        } else {
            seq![DropdownModel { name: names.last(), link: link_of(base.push(names.last())) }]
        }
    }
}

/// The breadcrumb at level `i` (one based): its label is the position's
/// `i`-th component, its link the joined prefix of length `i` re-rooted
/// at `/`, its dropdown the sorted sibling directories at its level.
pub open spec fn crumb_model(root: FsNode, pos: Seq<Seq<char>>, i: int) -> BreadcrumbModel {
    BreadcrumbModel {
        label: pos[i - 1],
        link: link_of(pos.subrange(0, i)),
        dropdown: dropdown_models(
            sort_names(level_dir_names(root, pos, i)),
            pos[i - 1],
            pos.subrange(0, i - 1),
        ),
    }
}

/// One breadcrumb per component of the position, in order.
pub open spec fn crumb_models(root: FsNode, pos: Seq<Seq<char>>) -> Seq<BreadcrumbModel> {
    Seq::new(pos.len(), |k: int| crumb_model(root, pos, k + 1))
}

/// The names of a node's directory children, in enumeration order.
pub fn dir_names(node: &FsNode) -> (r: Vec<String>)
    ensures
        strings_view(r@) == dir_child_names(node.children@),
{
    let ghost cs = node.children@;
    let mut r: Vec<String> = Vec::new();
    let mut i: usize = 0;
    proof {
        assert(cs.subrange(0, 0) =~= Seq::<FsNode>::empty());
        assert(strings_view(r@) =~= dir_child_names(cs.subrange(0, 0)));
    }
    while i < node.children.len()
        invariant
            cs == node.children@,
            i <= cs.len(),
            strings_view(r@) == dir_child_names(cs.subrange(0, i as int)),
        decreases cs.len() - i,
    {
        proof {
            assert(cs.subrange(0, i as int + 1).drop_last() =~= cs.subrange(0, i as int));
            assert(cs.subrange(0, i as int + 1).last() == cs[i as int]);
        }
        match node.children[i].kind {
            FsKind::Directory => {
                let ghost before = r@;
                r.push(node.children[i].name.clone());
                proof {
                    assert(strings_view(r@) =~~= strings_view(before) + seq![cs[i as int].name@]);
                }
            },
            FsKind::File => {
                proof {
                    assert(strings_view(r@) + Seq::<Seq<char>>::empty() =~= strings_view(r@));
                }
            },
        }
        i = i + 1;
    }
    proof {
        assert(cs.subrange(0, cs.len() as int) =~= cs);
    }
    r
}

/// Builds the navigation fragment for the page at `position`. Fails with
/// [`BuildError::PathStructure`] exactly when some prefix of the position
/// does not name a directory under `root`.
#[verifier::rlimit(60)]
pub fn nav_html(root: &FsNode, position: &Vec<String>, mtime_secs: u64) -> (r: Result<
    String,
    BuildError,
>)
    ensures
        match r {
            Result::Ok(s) => position_resolves(*root, path_view(position@)) && s@ == nav_html_spec(
                *root,
                path_view(position@),
                mtime_secs as nat,
            ),
            Result::Err(e) => !position_resolves(*root, path_view(position@)) && e
                == BuildError::PathStructure,
        },
{
    let ghost pos = path_view(position@);
    let mut out = String::from_str("\n  <nav>\n    <ul>");
    let mut cur: &FsNode = root;
    let mut prefix: Vec<String> = Vec::new();
    let mut idx: usize = 0;
    proof {
        assert(pos.subrange(0, 0) =~= Seq::<Seq<char>>::empty());
        assert(path_view(prefix@) =~= pos.subrange(0, 0));
        assert(node_at(*root, pos.subrange(0, 0)) == Option::Some(*root));
        assert(out@ + crumbs_upto(*root, pos, 0) =~= out@);
    }
    match root.kind {
        FsKind::Directory => {},
        FsKind::File => {
            proof {
                assert(!position_resolves(*root, pos)) by {
                    if position_resolves(*root, pos) {
                        assert(match node_at(*root, pos.subrange(0, 0)) {
                            Option::Some(n) => n.kind is Directory,
                            Option::None => false,
                        });
                    }
                }
            }
            return Result::Err(BuildError::PathStructure);
        },
    }
    while idx < position.len()
        invariant
            pos == path_view(position@),
            pos.len() == position@.len(),
            idx <= position.len(),
            path_view(prefix@) == pos.subrange(0, idx as int),
            node_at(*root, pos.subrange(0, idx as int)) == Option::Some(*cur),
            cur.kind is Directory,
            forall|j: int|
                0 <= j <= idx ==> match #[trigger] node_at(*root, pos.subrange(0, j)) {
                    Option::Some(n) => n.kind is Directory,
                    Option::None => false,
                },
            out@ == "\n  <nav>\n    <ul>"@ + crumbs_upto(*root, pos, idx as int),
        decreases position.len() - idx,
    {
        let ghost lvl = idx as int + 1;
        let label = &position[idx];
        proof {
            assert(pos[idx as int] == position@[idx as int]@);
        }
        let names = dir_names(cur);
        let sorted = sorted_names(&names);
        let ghost sv = strings_view(sorted@);
        proof {
            assert(sv == sort_names(level_dir_names(*root, pos, lvl)));
        }
        out.append("\n        <li>\n            <a href=\"");
        push_char(&mut out, '/');
        let mut linkv = clone_path(&prefix);
        linkv.push(label.clone());
        proof {
            lemma_path_view_push(prefix@, *label);
            assert(path_view(linkv@) =~= pos.subrange(0, lvl));
        }
        push_joined(&mut out, &linkv);
        out.append("\">");
        out.append(label.as_str());
        out.append("</a>\n            <ul>");
        let ghost dd_before = out@;
        let mut k: usize = 0;
        proof {
            assert(sv.subrange(0, 0) =~= Seq::<Seq<char>>::empty());
            assert(dd_before + dropdown_lines(sv.subrange(0, 0), pos[idx as int], pos.subrange(0, idx as int)) =~= dd_before);
        }
        while k < sorted.len()
            invariant
                sv == strings_view(sorted@),
                sv.len() == sorted@.len(),
                pos == path_view(position@),
                pos.len() == position@.len(),
                idx < position.len(),
                path_view(prefix@) == pos.subrange(0, idx as int),
                pos[idx as int] == position@[idx as int]@,
                k <= sorted.len(),
                out@ == dd_before + dropdown_lines(
                    sv.subrange(0, k as int),
                    pos[idx as int],
                    pos.subrange(0, idx as int),
                ),
            decreases sorted.len() - k,
        {
            let nm = &sorted[k];
            proof {
                assert(sv[k as int] == sorted@[k as int]@);
                assert(sv.subrange(0, k as int + 1).drop_last() =~= sv.subrange(0, k as int));
                assert(sv.subrange(0, k as int + 1).last() == sv[k as int]);
            }
            let ghost dd_step = out@;
            if !str_eq(nm.as_str(), position[idx].as_str()) && !name_is_hidden(nm) {
                out.append("\n                <li><a href=\"");
                push_char(&mut out, '/');
                let mut dv = clone_path(&prefix);
                dv.push(nm.clone());
                proof {
                    lemma_path_view_push(prefix@, *nm);
                }
                push_joined(&mut out, &dv);
                out.append("\">");
                out.append(nm.as_str());
                out.append("/</a></li>");
                proof {
                    assert(out@ =~= dd_step + dropdown_one(
                        sv[k as int],
                        pos[idx as int],
                        pos.subrange(0, idx as int),
                    ));
                }
            } else {
                proof {
                    assert(dd_step + dropdown_one(
                        sv[k as int],
                        pos[idx as int],
                        pos.subrange(0, idx as int),
                    ) =~= dd_step);
                }
            }
            k = k + 1;
        }
        out.append("\n            </ul>\n        </li>");
        proof {
            assert(sv.subrange(0, sv.len() as int) =~= sv);
            assert(out@ =~= "\n  <nav>\n    <ul>"@ + crumbs_upto(*root, pos, lvl));
        }
        let child_idx = match find_child(cur, label) {
            Option::Some(j) => j,
            Option::None => {
                proof {
                    lemma_node_at_snoc(*root, pos.subrange(0, idx as int), pos[idx as int]);
                    assert(pos.subrange(0, idx as int).push(pos[idx as int]) =~= pos.subrange(
                        0,
                        idx as int + 1,
                    ));
                    assert(node_at(*root, pos.subrange(0, idx as int + 1)) is None);
                    assert(!position_resolves(*root, pos)) by {
                        if position_resolves(*root, pos) {
                            assert(match node_at(*root, pos.subrange(0, idx as int + 1)) {
                                Option::Some(n) => n.kind is Directory,
                                Option::None => false,
                            });
                        }
                    }
                }
                return Result::Err(BuildError::PathStructure);
            },
        };
        let child = &cur.children[child_idx];
        proof {
            lemma_node_at_snoc(*root, pos.subrange(0, idx as int), pos[idx as int]);
            assert(pos.subrange(0, idx as int).push(pos[idx as int]) =~= pos.subrange(
                0,
                idx as int + 1,
            ));
            assert(node_at(*root, pos.subrange(0, idx as int + 1)) == Option::Some(*child));
        }
        match child.kind {
            FsKind::Directory => {},
            FsKind::File => {
                proof {
                    assert(!position_resolves(*root, pos)) by {
                        if position_resolves(*root, pos) {
                            assert(match node_at(*root, pos.subrange(0, idx as int + 1)) {
                                Option::Some(n) => n.kind is Directory,
                                Option::None => false,
                            });
                        }
                    }
                }
                return Result::Err(BuildError::PathStructure);
            },
        }
        cur = child;
        let ghost oldpfx = prefix@;
        prefix.push(position[idx].clone());
        proof {
            lemma_path_view_push(oldpfx, position@[idx as int]);
            assert(path_view(prefix@) =~= pos.subrange(0, idx as int + 1));
        }
        idx = idx + 1;
    }
    proof {
        assert(pos.subrange(0, pos.len() as int) =~= pos);
    }
    out.append("\n    </ul>\n    <ul style=\"float: right\">\n        <li>");
    push_u64(&mut out, mtime_secs);
    out.append("</li>\n        <li>\n            <a href=\"README.md\">.md</a>\n        </li>\n    </ul>\n  </nav>");
    proof {
        assert(out@ =~= nav_html_spec(*root, pos, mtime_secs as nat));
    }
    Result::Ok(out)
}

/// Builds the breadcrumb sequence for the page at `position`: one segment
/// per component, each with its prefix link and its dropdown of sibling
/// directories. Fails with [`BuildError::PathStructure`] exactly when
/// some prefix of the position does not name a directory under `root`.
#[verifier::rlimit(60)]
pub fn build_breadcrumbs(root: &FsNode, position: &Vec<String>) -> (r: Result<
    Vec<Breadcrumb>,
    BuildError,
>)
    ensures
        match r {
            Result::Ok(v) => position_resolves(*root, path_view(position@)) && breadcrumbs_view(v@)
                == crumb_models(*root, path_view(position@)),
            Result::Err(e) => !position_resolves(*root, path_view(position@)) && e
                == BuildError::PathStructure,
        },
{
    let ghost pos = path_view(position@);
    let mut crumbs: Vec<Breadcrumb> = Vec::new();
    let mut cur: &FsNode = root;
    let mut prefix: Vec<String> = Vec::new();
    let mut idx: usize = 0;
    proof {
        assert(pos.subrange(0, 0) =~= Seq::<Seq<char>>::empty());
        assert(path_view(prefix@) =~= pos.subrange(0, 0));
        assert(node_at(*root, pos.subrange(0, 0)) == Option::Some(*root));
        assert(breadcrumbs_view(crumbs@) =~= crumb_models(*root, pos).subrange(0, 0));
    }
    match root.kind {
        FsKind::Directory => {},
        FsKind::File => {
            proof {
                assert(!position_resolves(*root, pos)) by {
                    if position_resolves(*root, pos) {
                        assert(match node_at(*root, pos.subrange(0, 0)) {
                            Option::Some(n) => n.kind is Directory,
                            Option::None => false,
                        });
                    }
                }
            }
            return Result::Err(BuildError::PathStructure);
        },
    }
    while idx < position.len()
        invariant
            pos == path_view(position@),
            pos.len() == position@.len(),
            idx <= position.len(),
            path_view(prefix@) == pos.subrange(0, idx as int),
            node_at(*root, pos.subrange(0, idx as int)) == Option::Some(*cur),
            cur.kind is Directory,
            forall|j: int|
                0 <= j <= idx ==> match #[trigger] node_at(*root, pos.subrange(0, j)) {
                    Option::Some(n) => n.kind is Directory,
                    Option::None => false,
                },
            breadcrumbs_view(crumbs@) == crumb_models(*root, pos).subrange(0, idx as int),
        decreases position.len() - idx,
    {
        let ghost lvl = idx as int + 1;
        proof {
            assert(pos[idx as int] == position@[idx as int]@);
        }
        let label = position[idx].clone();
        let mut linkv = clone_path(&prefix);
        linkv.push(position[idx].clone());
        proof {
            lemma_path_view_push(prefix@, position@[idx as int]);
            assert(path_view(linkv@) =~= pos.subrange(0, lvl));
        }
        let mut link = String::new();
        push_char(&mut link, '/');
        push_joined(&mut link, &linkv);
        proof {
            assert(link@ =~= link_of(pos.subrange(0, lvl)));
        }
        let names = dir_names(cur);
        let sorted = sorted_names(&names);
        let ghost sv = strings_view(sorted@);
        proof {
            assert(sv == sort_names(level_dir_names(*root, pos, lvl)));
        }
        let mut dd: Vec<DropdownEntry> = Vec::new();
        let mut k: usize = 0;
        proof {
            assert(sv.subrange(0, 0) =~= Seq::<Seq<char>>::empty());
            assert(dropdowns_view(dd@) =~= dropdown_models(
                sv.subrange(0, 0),
                pos[idx as int],
                pos.subrange(0, idx as int),
            ));
        }
        while k < sorted.len()
            invariant
                sv == strings_view(sorted@),
                sv.len() == sorted@.len(),
                pos == path_view(position@),
                pos.len() == position@.len(),
                idx < position.len(),
                path_view(prefix@) == pos.subrange(0, idx as int),
                pos[idx as int] == position@[idx as int]@,
                k <= sorted.len(),
                dropdowns_view(dd@) == dropdown_models(
                    sv.subrange(0, k as int),
                    pos[idx as int],
                    pos.subrange(0, idx as int),
                ),
            decreases sorted.len() - k,
        {
            let nm = &sorted[k];
            proof {
                assert(sv[k as int] == sorted@[k as int]@);
                assert(sv.subrange(0, k as int + 1).drop_last() =~= sv.subrange(0, k as int));
                assert(sv.subrange(0, k as int + 1).last() == sv[k as int]);
            }
            let ghost dd_prev = dd@;
            if !str_eq(nm.as_str(), position[idx].as_str()) && !name_is_hidden(nm) {
                let mut dlv = clone_path(&prefix);
                dlv.push(nm.clone());
                proof {
                    lemma_path_view_push(prefix@, *nm);
                }
                let mut dlink = String::new();
                push_char(&mut dlink, '/');
                push_joined(&mut dlink, &dlv);
                let e = DropdownEntry { name: nm.clone(), link: dlink };
                let ghost eg = e;
                dd.push(e);
                proof {
                    assert(eg.model() =~= DropdownModel {
                        name: sv[k as int],
                        link: link_of(pos.subrange(0, idx as int).push(sv[k as int])),
                    });
                    assert(dropdowns_view(dd@) =~~= dropdowns_view(dd_prev) + seq![eg.model()]);
                    assert(dropdowns_view(dd@) =~~= dropdown_models(
                        sv.subrange(0, k as int + 1),
                        pos[idx as int],
                        pos.subrange(0, idx as int),
                    ));
                }
            } else {
                proof {
                    assert(dropdowns_view(dd@) + Seq::<DropdownModel>::empty() =~= dropdowns_view(
                        dd@,
                    ));
                }
            }
            k = k + 1;
        }
        proof {
            assert(sv.subrange(0, sv.len() as int) =~= sv);
        }
        let b = Breadcrumb { label, link, dropdown: dd };
        let ghost bg = b;
        let ghost crumbs_prev = crumbs@;
        crumbs.push(b);
        proof {
            assert(bg.model() =~~= crumb_model(*root, pos, lvl));
            assert(breadcrumbs_view(crumbs@) =~~= breadcrumbs_view(crumbs_prev) + seq![
                bg.model(),
            ]);
            assert(crumb_models(*root, pos)[lvl - 1] == crumb_model(*root, pos, lvl));
            assert(breadcrumbs_view(crumbs@) =~~= crumb_models(*root, pos).subrange(0, lvl));
        }
        let child_idx = match find_child(cur, &position[idx]) {
            Option::Some(j) => j,
            Option::None => {
                proof {
                    lemma_node_at_snoc(*root, pos.subrange(0, idx as int), pos[idx as int]);
                    assert(pos.subrange(0, idx as int).push(pos[idx as int]) =~= pos.subrange(
                        0,
                        idx as int + 1,
                    ));
                    assert(node_at(*root, pos.subrange(0, idx as int + 1)) is None);
                    assert(!position_resolves(*root, pos)) by {
                        if position_resolves(*root, pos) {
                            assert(match node_at(*root, pos.subrange(0, idx as int + 1)) {
                                Option::Some(n) => n.kind is Directory,
                                Option::None => false,
                            });
                        }
                    }
                }
                return Result::Err(BuildError::PathStructure);
            },
        };
        let child = &cur.children[child_idx];
        proof {
            lemma_node_at_snoc(*root, pos.subrange(0, idx as int), pos[idx as int]);
            assert(pos.subrange(0, idx as int).push(pos[idx as int]) =~= pos.subrange(
                0,
                idx as int + 1,
            ));
            assert(node_at(*root, pos.subrange(0, idx as int + 1)) == Option::Some(*child));
        }
        match child.kind {
            FsKind::Directory => {},
            FsKind::File => {
                proof {
                    assert(!position_resolves(*root, pos)) by {
                        if position_resolves(*root, pos) {
                            assert(match node_at(*root, pos.subrange(0, idx as int + 1)) {
                                Option::Some(n) => n.kind is Directory,
                                Option::None => false,
                            });
                        }
                    }
                }
                return Result::Err(BuildError::PathStructure);
            },
        }
        cur = child;
        let ghost oldpfx = prefix@;
        prefix.push(position[idx].clone());
        proof {
            lemma_path_view_push(oldpfx, position@[idx as int]);
            assert(path_view(prefix@) =~= pos.subrange(0, idx as int + 1));
        }
        idx = idx + 1;
    }
    proof {
        assert(crumb_models(*root, pos).subrange(0, pos.len() as int) =~= crumb_models(
            *root,
            pos,
        ));
    }
    Result::Ok(crumbs)
}

} // verus!
