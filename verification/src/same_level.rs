//! The listing of a page's own directory: sibling directories and files,
//! each sorted by name. Two sentinel files configure the listing purely
//! by their presence: one requests the vertical layout, one makes the
//! file listing visible at all. The content file, both sentinels and
//! hidden names never appear among the listed files.

use crate::fstree::BuildError;
use crate::fstree::FsKind;
use crate::fstree::FsNode;
use crate::fstree::dir_child_names;
use crate::fstree::file_child_names;
use crate::fstree::has_file_named;
use crate::fstree::is_hidden_name;
use crate::fstree::lemma_path_view_push;
use crate::fstree::name_is_hidden;
use crate::fstree::node_at;
use crate::fstree::path_view;
use crate::fstree::resolve;
use crate::nav::dir_names;
use crate::nav::link_of;
use crate::order::sort_names;
use crate::order::sorted_names;
use crate::render::push_joined;
use crate::text::push_char;
use crate::text::str_eq;
use crate::text::strings_view;
use vstd::prelude::*;
use vstd::string::StringExecFns;

verus! {

/// What the sibling listing reports for one directory: its directory and
/// file children sorted by name (files complete, sentinels included),
/// and the two sentinel flags.
pub struct SiblingListing {
    pub dirs: Vec<String>,
    pub files: Vec<String>,
    pub vertical: bool,
    pub show_files: bool,
}

/// The names of a node's file children, in enumeration order.
pub fn file_names(node: &FsNode) -> (r: Vec<String>)
    ensures
        strings_view(r@) == file_child_names(node.children@),
{
    let ghost cs = node.children@;
    let mut r: Vec<String> = Vec::new();
    let mut i: usize = 0;
    proof {
        assert(cs.subrange(0, 0) =~= Seq::<FsNode>::empty());
        assert(strings_view(r@) =~= file_child_names(cs.subrange(0, 0)));
    }
    while i < node.children.len()
        invariant
            cs == node.children@,
            i <= cs.len(),
            strings_view(r@) == file_child_names(cs.subrange(0, i as int)),
        decreases cs.len() - i,
    {
        proof {
            assert(cs.subrange(0, i as int + 1).drop_last() =~= cs.subrange(0, i as int));
            assert(cs.subrange(0, i as int + 1).last() == cs[i as int]);
        }
        match node.children[i].kind {
            FsKind::File => {
                let ghost before = r@;
                r.push(node.children[i].name.clone());
                proof {
                    assert(strings_view(r@) =~~= strings_view(before) + seq![cs[i as int].name@]);
                }
            },
            FsKind::Directory => {
                proof {
                    assert(strings_view(r@) + Seq::<Seq<char>>::empty() =~= strings_view(r@));
                }
            },
        }
        i = i + 1;
    }
    proof {
        assert(cs.subrange(0, cs.len() as int) =~= cs);
    }
    r
}

/// Whether some file child bears the given name.
pub fn file_flag(node: &FsNode, nm: &str) -> (r: bool)
    ensures
        r == has_file_named(node.children@, nm@),
{
    let mut i: usize = 0;
    while i < node.children.len()
        invariant
            i <= node.children@.len(),
            forall|j: int|
                0 <= j < i ==> !((#[trigger] node.children@[j]).kind is File
                    && node.children@[j].name@ == nm@),
        decreases node.children@.len() - i,
    {
        let is_file = match node.children[i].kind {
            FsKind::File => true,
            FsKind::Directory => false,
        };
        if is_file && str_eq(node.children[i].name.as_str(), nm) {
            return true;
        }
        i = i + 1;
    }
    false
}

/// Builds the sibling listing of the directory at `position`. Fails with
/// [`BuildError::PathStructure`] exactly when the position does not name
/// a directory under `root`. The vertical flag holds exactly when a file
/// child named `vertical` exists, the file-listing flag exactly when one
/// named `show_files` exists.
pub fn build_sibling_listing(root: &FsNode, position: &Vec<String>) -> (r: Result<
    SiblingListing,
    BuildError,
>)
    ensures
        match r {
            Result::Ok(l) => match node_at(*root, path_view(position@)) {
                Option::Some(n) => {
                    &&& n.kind is Directory
                    &&& strings_view(l.dirs@) == sort_names(dir_child_names(n.children@))
                    &&& strings_view(l.files@) == sort_names(file_child_names(n.children@))
                    &&& l.vertical == has_file_named(n.children@, "vertical"@)
                    &&& l.show_files == has_file_named(n.children@, "show_files"@)
                },
                Option::None => false,
            },
            Result::Err(e) => e == BuildError::PathStructure && match node_at(
                *root,
                path_view(position@),
            ) {
                Option::Some(n) => !(n.kind is Directory),
                Option::None => true,
            },
        },
{
    let node = match resolve(root, position) {
        Option::Some(n) => n,
        Option::None => {
            return Result::Err(BuildError::PathStructure);
        },
    };
    match node.kind {
        FsKind::Directory => {},
        FsKind::File => {
            return Result::Err(BuildError::PathStructure);
        },
    }
    let dn = dir_names(node);
    let dirs = sorted_names(&dn);
    let fn_ = file_names(node);
    let files = sorted_names(&fn_);
    let vertical = file_flag(node, "vertical");
    let show_files = file_flag(node, "show_files");
    Result::Ok(SiblingListing { dirs, files, vertical, show_files })
}

/// One listed sibling directory: nothing for a hidden name, else a link
/// re-rooted at `/`.
pub open spec fn dir_item(nm: Seq<char>, pos: Seq<Seq<char>>) -> Seq<char> {
    if is_hidden_name(nm) {
        Seq::empty()
    } else {
        "\n    <li><a href=\""@ + link_of(pos.push(nm)) + "\">"@ + nm + "/</a></li>"@
    }
}

/// The listed sibling directories, in order.
pub open spec fn dir_items(names: Seq<Seq<char>>, pos: Seq<Seq<char>>) -> Seq<char>
    decreases names.len(),
{
    if names.len() == 0 {
        Seq::empty()
    } else {
        dir_items(names.drop_last(), pos) + dir_item(names.last(), pos)
    }
}

/// One listed sibling file: nothing for the content file, a sentinel or
/// a hidden name, else a link re-rooted at `/`.
pub open spec fn file_item(nm: Seq<char>, pos: Seq<Seq<char>>) -> Seq<char> {
    if nm == "README.md"@ || nm == "show_files"@ || nm == "vertical"@ || is_hidden_name(nm) {
        Seq::empty()
    } else {
        "\n        <li><a href=\""@ + link_of(pos.push(nm)) + "\">"@ + nm + "</a></li>"@
    }
}

/// The listed sibling files, in order.
pub open spec fn file_items(names: Seq<Seq<char>>, pos: Seq<Seq<char>>) -> Seq<char>
    decreases names.len(),
{
    if names.len() == 0 {
        Seq::empty()
    } else {
        file_items(names.drop_last(), pos) + file_item(names.last(), pos)
    }
}

/// The rendered sibling listing: the directory list (vertical when so
/// configured), then, only when files exist and the listing is switched
/// on, the file list.
pub open spec fn listing_html_spec(
    dirs: Seq<Seq<char>>,
    files: Seq<Seq<char>>,
    vertical: bool,
    show_files: bool,
    pos: Seq<Seq<char>>,
) -> Seq<char> {
    (if vertical {
        "\n  <ul class=\"vert\">"@
    } else {
        "\n  <ul>"@
    }) + dir_items(dirs, pos) + "\n  </ul>"@ + if files.len() >= 1 && show_files {
        "<br>\n    <ul>"@ + file_items(files, pos) + "\n    </ul>"@
    } else {
        Seq::empty()
    }
}

/// The rendered listing of the directory a listing was built from.
pub open spec fn same_level_html_spec(n: FsNode, pos: Seq<Seq<char>>) -> Seq<char> {
    listing_html_spec(
        sort_names(dir_child_names(n.children@)),
        sort_names(file_child_names(n.children@)),
        has_file_named(n.children@, "vertical"@),
        has_file_named(n.children@, "show_files"@),
        pos,
    )
}

/// Renders a sibling listing into its HTML fragment.
pub fn listing_to_html(l: &SiblingListing, position: &Vec<String>) -> (r: String)
    ensures
        r@ == listing_html_spec(
            strings_view(l.dirs@),
            strings_view(l.files@),
            l.vertical,
            l.show_files,
            path_view(position@),
        ),
{
    let ghost pos = path_view(position@);
    let ghost dv = strings_view(l.dirs@);
    let ghost fv = strings_view(l.files@);
    let mut out = if l.vertical {
        String::from_str("\n  <ul class=\"vert\">")
    } else {
        String::from_str("\n  <ul>")
    };
    let mut i: usize = 0;
    proof {
        assert(dv.subrange(0, 0) =~= Seq::<Seq<char>>::empty());
        assert(out@ + dir_items(dv.subrange(0, 0), pos) =~= out@);
    }
    while i < l.dirs.len()
        invariant
            dv == strings_view(l.dirs@),
            dv.len() == l.dirs@.len(),
            pos == path_view(position@),
            i <= l.dirs.len(),
            out@ == (if l.vertical {
                "\n  <ul class=\"vert\">"@
            } else {
                "\n  <ul>"@
            }) + dir_items(dv.subrange(0, i as int), pos),
        decreases l.dirs.len() - i,
    {
        let nm = &l.dirs[i];
        proof {
            assert(dv[i as int] == l.dirs@[i as int]@);
            assert(dv.subrange(0, i as int + 1).drop_last() =~= dv.subrange(0, i as int));
            assert(dv.subrange(0, i as int + 1).last() == dv[i as int]);
        }
        let ghost step = out@;
        if !name_is_hidden(nm) {
            out.append("\n    <li><a href=\"");
            push_char(&mut out, '/');
            let mut pv = crate::fstree::clone_path(position);
            pv.push(nm.clone());
            proof {
                lemma_path_view_push(position@, *nm);
            }
            push_joined(&mut out, &pv);
            out.append("\">");
            out.append(nm.as_str());
            out.append("/</a></li>");
            proof {
                assert(out@ =~= step + dir_item(dv[i as int], pos));
            }
        } else {
            proof {
                assert(step + dir_item(dv[i as int], pos) =~= step);
            }
        }
        i = i + 1;
    }
    proof {
        assert(dv.subrange(0, dv.len() as int) =~= dv);
    }
    out.append("\n  </ul>");
    let ghost mid = out@;
    if l.files.len() >= 1 && l.show_files {
        out.append("<br>\n    <ul>");
        let ghost fstart = out@;
        let mut k: usize = 0;
        proof {
            assert(fv.subrange(0, 0) =~= Seq::<Seq<char>>::empty());
            assert(fstart + file_items(fv.subrange(0, 0), pos) =~= fstart);
        }
        while k < l.files.len()
            invariant
                fv == strings_view(l.files@),
                fv.len() == l.files@.len(),
                pos == path_view(position@),
                k <= l.files.len(),
                out@ == fstart + file_items(fv.subrange(0, k as int), pos),
            decreases l.files.len() - k,
        {
            let nm = &l.files[k];
            proof {
                assert(fv[k as int] == l.files@[k as int]@);
                assert(fv.subrange(0, k as int + 1).drop_last() =~= fv.subrange(0, k as int));
                assert(fv.subrange(0, k as int + 1).last() == fv[k as int]);
            }
            let ghost step = out@;
            if !str_eq(nm.as_str(), "README.md") && !str_eq(nm.as_str(), "show_files") && !str_eq(
                nm.as_str(),
                "vertical",
            ) && !name_is_hidden(nm) {
                out.append("\n        <li><a href=\"");
                push_char(&mut out, '/');
                let mut pv = crate::fstree::clone_path(position);
                pv.push(nm.clone());
                proof {
                    lemma_path_view_push(position@, *nm);
                }
                push_joined(&mut out, &pv);
                out.append("\">");
                out.append(nm.as_str());
                out.append("</a></li>");
                proof {
                    assert(out@ =~= step + file_item(fv[k as int], pos));
                }
            } else {
                proof {
                    assert(step + file_item(fv[k as int], pos) =~= step);
                }
            }
            k = k + 1;
        }
        proof {
            assert(fv.subrange(0, fv.len() as int) =~= fv);
        }
        out.append("\n    </ul>");
        proof {
            assert(out@ =~= listing_html_spec(dv, fv, l.vertical, l.show_files, pos));
        }
    } else {
        proof {
            assert(mid + Seq::<char>::empty() =~= mid);
            assert(out@ =~= listing_html_spec(dv, fv, l.vertical, l.show_files, pos));
        }
    }
    out
}

/// Builds and renders the sibling listing of the page at `position`.
pub fn same_level_html(root: &FsNode, position: &Vec<String>) -> (r: Result<String, BuildError>)
    ensures
        match r {
            Result::Ok(s) => match node_at(*root, path_view(position@)) {
                Option::Some(n) => n.kind is Directory && s@ == same_level_html_spec(
                    n,
                    path_view(position@),
                ),
                Option::None => false,
            },
            Result::Err(e) => e == BuildError::PathStructure && match node_at(
                *root,
                path_view(position@),
            ) {
                Option::Some(n) => !(n.kind is Directory),
                Option::None => true,
            },
        },
{
    match build_sibling_listing(root, position) {
        Result::Ok(l) => Result::Ok(listing_to_html(&l, position)),
        Result::Err(e) => Result::Err(e),
    }
}

} // verus!
