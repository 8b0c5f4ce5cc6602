//! One page's full in-scope output: the navigation fragment, the sibling
//! listing and the rendered body, concatenated in the order the caller
//! writes them between its fixed header and footer.

use crate::fstree::BuildError;
use crate::fstree::FsNode;
use crate::fstree::node_at;
use crate::fstree::path_view;
use crate::fstree::position_resolves;
use crate::nav::nav_html;
use crate::nav::nav_html_spec;
use crate::render::render;
use crate::render::render_spec;
use crate::same_level::same_level_html;
use crate::same_level::same_level_html_spec;
use vstd::prelude::*;
use vstd::string::StringExecFns;

verus! {

/// Everything this library contributes to one page, in order: navigation,
/// sibling listing, rendered body.
pub open spec fn page_html_spec(
    root: FsNode,
    pos: Seq<Seq<char>>,
    text: Seq<char>,
    mtime_secs: nat,
) -> Seq<char> {
    nav_html_spec(root, pos, mtime_secs) + (match node_at(root, pos) {
        Option::Some(n) => same_level_html_spec(n, pos),
        Option::None => Seq::empty(),
    }) + render_spec(root, pos, text)
}

/// Builds the page fragment for the page at `position`. Fails with
/// [`BuildError::PathStructure`] exactly when some prefix of the position
/// does not name a directory under `root`.
pub fn page_html(root: &FsNode, position: &Vec<String>, content: &str, mtime_secs: u64) -> (r:
    Result<String, BuildError>)
    ensures
        match r {
            Result::Ok(s) => position_resolves(*root, path_view(position@)) && s@ == page_html_spec(
                *root,
                path_view(position@),
                content@,
                mtime_secs as nat,
            ),
            Result::Err(e) => !position_resolves(*root, path_view(position@)) && e
                == BuildError::PathStructure,
        },
{
    let ghost pos = path_view(position@);
    let mut out = match nav_html(root, position, mtime_secs) {
        Result::Ok(s) => s,
        Result::Err(e) => {
            return Result::Err(e);
        },
    };
    proof {
        assert(pos.subrange(0, pos.len() as int) =~= pos);
        assert(match node_at(*root, pos.subrange(0, pos.len() as int)) {
            Option::Some(n) => n.kind is Directory,
            Option::None => false,
        });
    }
    match same_level_html(root, position) {
        Result::Ok(s) => {
            out.append(s.as_str());
        },
        Result::Err(_) => {
            proof {
                assert(false);
            }
        },
    }
    let body = render(root, position, content);
    out.append(body.as_str());
    Result::Ok(out)
}

/// One conversion is a pure function of the modelled input tree, the
/// page's position, its content text and the input tree's timestamp:
/// converting the same unchanged input twice gives byte-identical page
/// fragments both times.
pub proof fn lemma_conversion_deterministic(
    root1: FsNode,
    pos1: Seq<Seq<char>>,
    text1: Seq<char>,
    m1: nat,
    root2: FsNode,
    pos2: Seq<Seq<char>>,
    text2: Seq<char>,
    m2: nat,
)
    requires
        root1 == root2,
        pos1 == pos2,
        text1 == text2,
        m1 == m2,
    ensures
        page_html_spec(root1, pos1, text1, m1) == page_html_spec(root2, pos2, text2, m2),
{
}

} // verus!
