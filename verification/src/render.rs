//! The line-by-line markdown renderer. Each line is classified by its
//! prefix — horizontal rule, heading (deepest marker first), quote,
//! file-tree directive, table-of-contents directive — and anything else
//! passes through verbatim. The whole body sits inside one preformatted
//! region opened before the first line.

use crate::fstree::EntryModel;
use crate::fstree::FsNode;
use crate::fstree::is_hidden_name;
use crate::fstree::name_is_hidden;
use crate::fstree::node_at;
use crate::fstree::path_view;
use crate::fstree::resolve;
use crate::headings::HeadingCounters;
use crate::headings::bump;
use crate::headings::bump_exec;
use crate::headings::heading_level;
use crate::headings::heading_text;
use crate::headings::new_counters;
use crate::headings::numbering;
use crate::headings::push_numbering;
use crate::headings::start_counters;
use crate::order::sort_entries;
use crate::order::sorted_entries;
use crate::text::escape_lt_spec;
use crate::text::push_char;
use crate::text::push_escaped;
use crate::text::sanitize;
use crate::text::sanitize_spec;
use crate::text::split_char;
use crate::text::split_char_spec;
use crate::text::starts_with_seq;
use crate::text::str_starts_with;
use crate::text::strings_view;
use crate::text::trim_spec;
use crate::text::trim_str;
use crate::walker::walk;
use crate::walker::walk_spec;
use vstd::prelude::*;
use vstd::string::StrSliceExecFns;
use vstd::string::StringExecFns;

verus! {

/// The kinds of line the renderer distinguishes, in priority order.
pub enum LineKind {
    Rule,
    Heading(int),
    Quote,
    TreeDir,
    TocDir,
    Plain,
}

/// The first matching rule for a line.
pub open spec fn classify(line: Seq<char>) -> LineKind {
    if starts_with_seq(line, "---"@) {
        LineKind::Rule
    } else if heading_level(line) >= 1 {
        LineKind::Heading(heading_level(line))
    } else if starts_with_seq(line, "> "@) {
        LineKind::Quote
    } else if starts_with_seq(line, ":::tree"@) {
        LineKind::TreeDir
    } else if starts_with_seq(line, ":::toc"@) {
        LineKind::TocDir
    } else {
        LineKind::Plain
    }
}

/// The state threaded through the main pass: heading counters and how
/// many rule lines have been seen.
pub struct RenderState {
    pub counters: HeadingCounters,
    pub hrules: u64,
}

/// The state before the first line.
pub open spec fn start_state() -> RenderState {
    RenderState { counters: start_counters(), hrules: 0 }
}

/// The state after one more line: a rule line counts itself, a heading
/// bumps its counter, everything else changes nothing.
pub open spec fn step_state(st: RenderState, line: Seq<char>) -> RenderState {
    match classify(line) {
        LineKind::Rule => RenderState { counters: st.counters, hrules: (st.hrules + 1) as u64 },
        LineKind::Heading(k) => RenderState { counters: bump(st.counters, k), hrules: st.hrules },
        _ => st,
    }
}

/// The state after a whole sequence of lines.
pub open spec fn state_after(lines: Seq<Seq<char>>) -> RenderState
    decreases lines.len(),
{
    if lines.len() == 0 {
        start_state()
    } else {
        step_state(state_after(lines.drop_last()), lines.last())
    }
}

/// Every counter is bounded by the number of lines seen.
proof fn lemma_state_bounds(lines: Seq<Seq<char>>)
    ensures
        state_after(lines).counters.l1 <= lines.len(),
        state_after(lines).counters.l2 <= lines.len(),
        state_after(lines).counters.l3 <= lines.len(),
        state_after(lines).counters.l4 <= lines.len(),
        state_after(lines).counters.l5 <= lines.len(),
        state_after(lines).hrules <= lines.len(),
    decreases lines.len(),
{
    if lines.len() > 0 {
        lemma_state_bounds(lines.drop_last());
    }
}

/// The fixed opening of every heading block, up to the anchor identifier.
pub open spec fn heading_pre() -> Seq<char> {
    "</pre>\n            <span id=\""@
}

/// Between the anchor span and the self-link, for each heading level.
pub open spec fn heading_mid(level: int) -> Seq<char> {
    if level == 1 {
        "\"></span>\n            <h1><a href=\"#"@
    } else if level == 2 {
        "\"></span>\n            <h2><a href=\"#"@
    } else if level == 3 {
        "\"></span>\n            <h3><a href=\"#"@
    } else if level == 4 {
        "\"></span>\n            <h4><a href=\"#"@
    } else {
        "\"></span>\n            <h5><a href=\"#"@
    }
}

/// The closing of a heading block; levels three and deeper share one
/// closing tag.
pub open spec fn heading_close(level: int) -> Seq<char> {
    if level == 1 {
        "</a></h1>\n            <pre>"@
    } else if level == 2 {
        "</a></h2>\n            <pre>"@
    } else {
        "</a></h3>\n            <pre>"@
    }
}

/// One rendered heading: anchor span, self-link with the dotted numbering
/// of the counters after the bump, the raw heading text, and a reopened
/// preformatted block.
pub open spec fn heading_out(c: HeadingCounters, level: int, text: Seq<char>) -> Seq<char> {
    heading_pre() + sanitize_spec(text) + heading_mid(level) + sanitize_spec(text) + "\">"@
        + numbering(c, level) + ". "@ + text + heading_close(level)
}

/// One rendered quote line: the two-character prefix stripped, `<`
/// escaped, inside its own classed block.
pub open spec fn quote_out(line: Seq<char>) -> Seq<char> {
    "</pre><pre class=\"code\">"@ + escape_lt_spec(line.subrange(2, line.len() as int))
        + "</pre><pre>\n"@
}

/// `n` repetitions of the four-space indent unit.
pub open spec fn indent4(n: nat) -> Seq<char>
    decreases n,
{
    if n == 0 {
        Seq::empty()
    } else {
        indent4((n - 1) as nat) + "    "@
    }
}

/// Components joined by slashes.
pub open spec fn join_slash(p: Seq<Seq<char>>) -> Seq<char>
    decreases p.len(),
{
    if p.len() == 0 {
        Seq::empty()
    } else if p.len() == 1 {
        p[0]
    } else {
        join_slash(p.drop_last()) + seq!['/'] + p.last()
    }
}

/// Some component of the path is hidden.
pub open spec fn any_hidden(p: Seq<Seq<char>>) -> bool {
    exists|i: int| 0 <= i < p.len() && is_hidden_name(p[i])
}

/// One line of the tree listing: indentation one unit per component of
/// the entry's position-relative path beyond the first, a link to the
/// entry rooted at `/`, labelled with its base name. Entries whose
/// relative path holds a hidden component give nothing.
pub open spec fn tree_line(e: EntryModel, pos: Seq<Seq<char>>) -> Seq<char> {
    if e.path.len() <= pos.len() {
        Seq::empty()
    } else {
        let rel = e.path.subrange(pos.len() as int, e.path.len() as int);
        if any_hidden(rel) {
            Seq::empty()
        } else {
            indent4((rel.len() - 1) as nat) + "<a href=\"/"@ + join_slash(e.path) + "\">"@
                + rel.last() + "</a>\n"@
        }
    }
}

/// The lines of the tree listing, one per entry, in order.
pub open spec fn tree_lines(s: Seq<EntryModel>, pos: Seq<Seq<char>>) -> Seq<char>
    decreases s.len(),
{
    if s.len() == 0 {
        Seq::empty()
    } else {
        tree_lines(s.drop_last(), pos) + tree_line(s.last(), pos)
    }
}

/// The whole expansion of a tree directive on the page at `pos` under
/// `root`: every entry of the page's directory (files and directories
/// alike), sorted by full path, one link line each.
pub open spec fn tree_listing(root: FsNode, pos: Seq<Seq<char>>) -> Seq<char> {
    let entries = match node_at(root, pos) {
        Option::Some(n) => walk_spec(pos, n, false),
        Option::None => Seq::empty(),
    };
    tree_lines(sort_entries(entries), pos)
}

/// Appends `n` indent units.
fn push_indent(out: &mut String, n: usize)
    ensures
        final(out)@ == old(out)@ + indent4(n as nat),
{
    let mut t: usize = 0;
    proof {
        assert(old(out)@ + indent4(0) =~= old(out)@);
    }
    while t < n
        invariant
            t <= n,
            out@ == old(out)@ + indent4(t as nat),
        decreases n - t,
    {
        out.append("    ");
        t = t + 1;
    }
}

/// Appends the components joined by slashes.
pub fn push_joined(out: &mut String, p: &Vec<String>)
    ensures
        final(out)@ == old(out)@ + join_slash(path_view(p@)),
{
    let ghost pv = path_view(p@);
    let mut i: usize = 0;
    proof {
        assert(pv.subrange(0, 0) =~= Seq::<Seq<char>>::empty());
        assert(old(out)@ + join_slash(pv.subrange(0, 0)) =~= old(out)@);
    }
    while i < p.len()
        invariant
            pv == path_view(p@),
            pv.len() == p@.len(),
            i <= p.len(),
            out@ == old(out)@ + join_slash(pv.subrange(0, i as int)),
        decreases p.len() - i,
    {
        proof {
            assert(pv[i as int] == p@[i as int]@);
            assert(pv.subrange(0, i as int + 1).drop_last() =~= pv.subrange(0, i as int));
            assert(pv.subrange(0, i as int + 1).last() == pv[i as int]);
        }
        if i > 0 {
            push_char(out, '/');
            proof {
                assert((old(out)@ + join_slash(pv.subrange(0, i as int))).push('/') =~= old(out)@
                    + (join_slash(pv.subrange(0, i as int)) + seq!['/']));
            }
        }
        out.append(p[i].as_str());
        proof {
            if i == 0 {
                assert(join_slash(pv.subrange(0, 1)) == pv.subrange(0, 1)[0]);
                assert(old(out)@ + pv[0] =~= old(out)@ + join_slash(pv.subrange(0, 1)));
            } else {
                assert(old(out)@ + (join_slash(pv.subrange(0, i as int)) + seq!['/']) + pv[i as int]
                    =~= old(out)@ + join_slash(pv.subrange(0, i as int + 1)));
            }
        }
        i = i + 1;
    }
    proof {
        assert(pv.subrange(0, pv.len() as int) =~= pv);
    }
}

/// Hidden-component test on the path's components from `from` on.
fn rel_has_hidden(p: &Vec<String>, from: usize) -> (r: bool)
    requires
        from <= p.len(),
    ensures
        r == any_hidden(path_view(p@).subrange(from as int, p@.len() as int)),
{
    let ghost rel = path_view(p@).subrange(from as int, p@.len() as int);
    let mut j: usize = from;
    while j < p.len()
        invariant
            from <= j <= p.len(),
            rel == path_view(p@).subrange(from as int, p@.len() as int),
            forall|k: int| 0 <= k < j - from ==> !is_hidden_name(#[trigger] rel[k]),
        decreases p.len() - j,
    {
        proof {
            assert(rel[j - from] == p@[j as int]@);
        }
        if name_is_hidden(&p[j]) {
            return true;
        }
        j = j + 1;
    }
    false
}

/// Expands one tree directive: walks the page's directory, sorts every
/// surviving entry by path, and emits one indented link line per entry.
pub fn tree_directive(root: &FsNode, position: &Vec<String>) -> (r: String)
    ensures
        r@ == tree_listing(*root, path_view(position@)),
{
    let ghost pos = path_view(position@);
    let entries = match resolve(root, position) {
        Option::Some(n) => walk(position, n, false),
        Option::None => Vec::new(),
    };
    proof {
        match node_at(*root, pos) {
            Option::Some(n) => {
                assert(crate::fstree::entries_view(entries@) == walk_spec(pos, n, false));
            },
            Option::None => {
                assert(crate::fstree::entries_view(entries@)
                    =~= Seq::<EntryModel>::empty());
            },
        }
    }
    let sorted = sorted_entries(&entries);
    let ghost sv = crate::fstree::entries_view(sorted@);
    let mut out = String::new();
    let mut j: usize = 0;
    proof {
        assert(sv.subrange(0, 0) =~= Seq::<EntryModel>::empty());
    }
    while j < sorted.len()
        invariant
            sv == crate::fstree::entries_view(sorted@),
            sv.len() == sorted@.len(),
            pos == path_view(position@),
            j <= sorted.len(),
            out@ == tree_lines(sv.subrange(0, j as int), pos),
        decreases sorted.len() - j,
    {
        let e = &sorted[j];
        let ghost em = sv[j as int];
        proof {
            assert(em == sorted@[j as int].model());
            assert(sv.subrange(0, j as int + 1).drop_last() =~= sv.subrange(0, j as int));
            assert(sv.subrange(0, j as int + 1).last() == em);
        }
        let ghost before = out@;
        if e.path.len() > position.len() {
            let ghost rel = em.path.subrange(pos.len() as int, em.path.len() as int);
            if !rel_has_hidden(&e.path, position.len()) {
                push_indent(&mut out, e.path.len() - position.len() - 1);
                out.append("<a href=\"/");
                push_joined(&mut out, &e.path);
                out.append("\">");
                out.append(e.path[e.path.len() - 1].as_str());
                proof {
                    assert(e.path@[e.path@.len() - 1]@ == rel.last());
                }
                out.append("</a>\n");
                proof {
                    assert(out@ =~= before + tree_line(em, pos));
                }
            } else {
                proof {
                    assert(before + tree_line(em, pos) =~= before);
                }
            }
        } else {
            proof {
                assert(before + tree_line(em, pos) =~= before);
            }
        }
        j = j + 1;
    }
    proof {
        assert(sv.subrange(0, sv.len() as int) =~= sv);
    }
    out
}

/// The indentation of a table-of-contents link, by heading level.
pub open spec fn toc_indent(level: int) -> Seq<char> {
    if level == 1 {
        Seq::empty()
    } else if level == 2 {
        "    "@
    } else if level == 3 {
        "       "@
    } else if level == 4 {
        "         "@
    } else {
        "           "@
    }
}

/// The counters of the independent table-of-contents scan after a
/// sequence of lines: only heading markers count.
pub open spec fn toc_counters(lines: Seq<Seq<char>>) -> HeadingCounters
    decreases lines.len(),
{
    if lines.len() == 0 {
        start_counters()
    } else {
        bump(toc_counters(lines.drop_last()), heading_level(lines.last()))
    }
}

/// Every counter of the scan is bounded by the number of lines seen.
proof fn lemma_toc_bounds(lines: Seq<Seq<char>>)
    ensures
        toc_counters(lines).l1 <= lines.len(),
        toc_counters(lines).l2 <= lines.len(),
        toc_counters(lines).l3 <= lines.len(),
        toc_counters(lines).l4 <= lines.len(),
        toc_counters(lines).l5 <= lines.len(),
    decreases lines.len(),
{
    if lines.len() > 0 {
        lemma_toc_bounds(lines.drop_last());
    }
}

/// One table-of-contents link: the heading's trimmed text, its anchor,
/// and the dotted numbering of the scan's counters after the bump. A line
/// that is no heading gives nothing.
pub open spec fn toc_line(c: HeadingCounters, line: Seq<char>) -> Seq<char> {
    let k = heading_level(line);
    if k >= 1 {
        let t = trim_spec(heading_text(line, k));
        toc_indent(k) + "<a href=\"#"@ + sanitize_spec(t) + "\">"@ + numbering(bump(c, k), k)
            + ". "@ + t + "</a>\n"@
    } else {
        Seq::empty()
    }
}

/// The whole expansion of a table-of-contents directive: one link line
/// per heading of the document, numbered by an independent scan from the
/// start.
pub open spec fn toc_out(lines: Seq<Seq<char>>) -> Seq<char>
    decreases lines.len(),
{
    if lines.len() == 0 {
        Seq::empty()
    } else {
        toc_out(lines.drop_last()) + toc_line(toc_counters(lines.drop_last()), lines.last())
    }
}

/// The text of a heading line at a known level.
fn heading_text_exec(s: &str, level: usize) -> (r: String)
    requires
        1 <= level <= 5,
    ensures
        r@ == heading_text(s@, level as int),
{
    let n = s.unicode_len();
    if n >= level + 1 {
        s.substring_char(level + 1, n).to_owned()
    } else {
        let r = String::new();
        proof {
            assert(r@ =~= heading_text(s@, level as int));
        }
        r
    }
}

/// The heading level of a line, deepest marker first.
fn heading_level_exec(s: &str) -> (r: usize)
    ensures
        r as int == heading_level(s@),
{
    if str_starts_with(s, "#####") {
        5
    } else if str_starts_with(s, "####") {
        4
    } else if str_starts_with(s, "###") {
        3
    } else if str_starts_with(s, "##") {
        2
    } else if str_starts_with(s, "#") {
        1
    } else {
        0
    }
}

/// Appends the expansion of a table-of-contents directive, rescanning the
/// whole document with fresh counters.
#[verifier::rlimit(50)]
pub fn toc_expand(out: &mut String, lines: &Vec<String>)
    ensures
        final(out)@ == old(out)@ + toc_out(strings_view(lines@)),
{
    let ghost doc = strings_view(lines@);
    let mut c = new_counters();
    let mut i: usize = 0;
    proof {
        assert(doc.subrange(0, 0) =~= Seq::<Seq<char>>::empty());
        assert(old(out)@ + toc_out(doc.subrange(0, 0)) =~= old(out)@);
    }
    while i < lines.len()
        invariant
            doc == strings_view(lines@),
            doc.len() == lines@.len(),
            i <= lines.len(),
            c == toc_counters(doc.subrange(0, i as int)),
            out@ == old(out)@ + toc_out(doc.subrange(0, i as int)),
        decreases lines.len() - i,
    {
        let s = lines[i].as_str();
        proof {
            assert(doc[i as int] == lines@[i as int]@);
            assert(doc.subrange(0, i as int + 1).drop_last() =~= doc.subrange(0, i as int));
            assert(doc.subrange(0, i as int + 1).last() == doc[i as int]);
            lemma_toc_bounds(doc.subrange(0, i as int));
        }
        let level = heading_level_exec(s);
        if level >= 1 {
            let text = heading_text_exec(s, level);
            let t = trim_str(text.as_str());
            let anchor = sanitize(t.clone());
            let nc = bump_exec(c, level);
            let ghost before = out@;
            if level == 2 {
                out.append("    ");
            } else if level == 3 {
                out.append("       ");
            } else if level == 4 {
                out.append("         ");
            } else if level == 5 {
                out.append("           ");
            }
            proof {
                assert(out@ =~= before + toc_indent(level as int));
            }
            out.append("<a href=\"#");
            out.append(anchor.as_str());
            out.append("\">");
            push_numbering(out, nc, level);
            out.append(". ");
            out.append(t.as_str());
            out.append("</a>\n");
            c = nc;
            proof {
                let iline = doc[i as int];
                assert(out@ =~= before + toc_line(toc_counters(doc.subrange(0, i as int)), iline));
            }
        }
        i = i + 1;
    }
    proof {
        assert(doc.subrange(0, doc.len() as int) =~= doc);
    }
}

/// What one line contributes to the body: the first matching rule
/// decides. A rule line is swallowed while none has been seen, a heading
/// becomes an anchored, numbered self-link, a quote line its own escaped
/// block, the two directives their expansions, anything else itself,
/// verbatim, with its newline.
pub open spec fn line_out(
    root: FsNode,
    pos: Seq<Seq<char>>,
    doc: Seq<Seq<char>>,
    st: RenderState,
    line: Seq<char>,
) -> Seq<char> {
    match classify(line) {
        LineKind::Rule => if st.hrules == 0 {
            Seq::empty()
        } else {
            "\n            <hr>"@
        },
        LineKind::Heading(k) => heading_out(bump(st.counters, k), k, heading_text(line, k)),
        LineKind::Quote => quote_out(line),
        LineKind::TreeDir => tree_listing(root, pos),
        LineKind::TocDir => toc_out(doc),
        LineKind::Plain => line.push('\n'),
    }
}

/// The body text contributed by a prefix of the document's lines.
pub open spec fn render_lines(
    root: FsNode,
    pos: Seq<Seq<char>>,
    doc: Seq<Seq<char>>,
    pfx: Seq<Seq<char>>,
) -> Seq<char>
    decreases pfx.len(),
{
    if pfx.len() == 0 {
        Seq::empty()
    } else {
        render_lines(root, pos, doc, pfx.drop_last()) + line_out(
            root,
            pos,
            doc,
            state_after(pfx.drop_last()),
            pfx.last(),
        )
    }
}

/// The rendered body of one page: an opened preformatted region followed
/// by every line's contribution, in order.
pub open spec fn render_spec(root: FsNode, pos: Seq<Seq<char>>, text: Seq<char>) -> Seq<char> {
    let doc = split_char_spec(text, '\n');
    "<pre>"@ + render_lines(root, pos, doc, doc)
}

/// Emits one heading block and returns the bumped counters.
#[verifier::rlimit(80)]
fn emit_heading(out: &mut String, s: &str, level: usize, c: HeadingCounters) -> (nc:
    HeadingCounters)
    requires
        1 <= level <= 5,
        c.l1 < u64::MAX,
        c.l2 < u64::MAX,
        c.l3 < u64::MAX,
        c.l4 < u64::MAX,
        c.l5 < u64::MAX,
    ensures
        nc == bump(c, level as int),
        final(out)@ == old(out)@ + heading_out(
            bump(c, level as int),
            level as int,
            heading_text(s@, level as int),
        ),
{
    let text = heading_text_exec(s, level);
    let anchor = sanitize(text.clone());
    let nc = bump_exec(c, level);
    out.append("</pre>\n            <span id=\"");
    out.append(anchor.as_str());
    if level == 1 {
        out.append("\"></span>\n            <h1><a href=\"#");
    } else if level == 2 {
        out.append("\"></span>\n            <h2><a href=\"#");
    } else if level == 3 {
        out.append("\"></span>\n            <h3><a href=\"#");
    } else if level == 4 {
        out.append("\"></span>\n            <h4><a href=\"#");
    } else {
        out.append("\"></span>\n            <h5><a href=\"#");
    }
    out.append(anchor.as_str());
    out.append("\">");
    push_numbering(out, nc, level);
    out.append(". ");
    out.append(text.as_str());
    if level == 1 {
        out.append("</a></h1>\n            <pre>");
    } else if level == 2 {
        out.append("</a></h2>\n            <pre>");
    } else {
        out.append("</a></h3>\n            <pre>");
    }
    proof {
        assert(final(out)@ =~= old(out)@ + heading_out(
            bump(c, level as int),
            level as int,
            heading_text(s@, level as int),
        ));
    }
    nc
}

/// Renders the content text of the page at `position` under `root` into
/// an HTML body fragment.
pub fn render(root: &FsNode, position: &Vec<String>, content: &str) -> (r: String)
    ensures
        r@ == render_spec(*root, path_view(position@), content@),
{
    let lines = split_char(content, '\n');
    let ghost doc = strings_view(lines@);
    let ghost pos = path_view(position@);
    let mut out = String::from_str("<pre>");
    let mut c = new_counters();
    let mut hr: u64 = 0;
    let mut i: usize = 0;
    proof {
        assert(doc.subrange(0, 0) =~= Seq::<Seq<char>>::empty());
        assert(out@ + render_lines(*root, pos, doc, doc.subrange(0, 0)) =~= out@);
    }
    while i < lines.len()
        invariant
            doc == strings_view(lines@),
            doc.len() == lines@.len(),
            pos == path_view(position@),
            i <= lines.len(),
            c == state_after(doc.subrange(0, i as int)).counters,
            hr == state_after(doc.subrange(0, i as int)).hrules,
            out@ == "<pre>"@ + render_lines(*root, pos, doc, doc.subrange(0, i as int)),
        decreases lines.len() - i,
    {
        let s = lines[i].as_str();
        let ghost st = state_after(doc.subrange(0, i as int));
        proof {
            assert(doc[i as int] == lines@[i as int]@);
            assert(doc.subrange(0, i as int + 1).drop_last() =~= doc.subrange(0, i as int));
            assert(doc.subrange(0, i as int + 1).last() == doc[i as int]);
            lemma_state_bounds(doc.subrange(0, i as int));
        }
        let ghost before = out@;
        if str_starts_with(s, "---") {
            if hr > 0 {
                out.append("\n            <hr>");
            }
            hr = hr + 1;
            proof {
                assert(out@ =~= before + line_out(*root, pos, doc, st, doc[i as int]));
            }
        } else {
            let level = heading_level_exec(s);
            if level >= 1 {
                let nc = emit_heading(&mut out, s, level, c);
                c = nc;
            } else if str_starts_with(s, "> ") {
                out.append("</pre><pre class=\"code\">");
                let n = s.unicode_len();
                proof {
                    reveal_strlit("> ");
                }
                push_escaped(&mut out, s.substring_char(2, n));
                out.append("</pre><pre>\n");
                proof {
                    assert(out@ =~= before + line_out(*root, pos, doc, st, doc[i as int]));
                }
            } else if str_starts_with(s, ":::tree") {
                let t = tree_directive(root, position);
                out.append(t.as_str());
            } else if str_starts_with(s, ":::toc") {
                toc_expand(&mut out, &lines);
            } else {
                out.append(s);
                push_char(&mut out, '\n');
                proof {
                    assert(out@ =~= before + doc[i as int].push('\n'));
                }
            }
        }
        i = i + 1;
    }
    proof {
        assert(doc.subrange(0, doc.len() as int) =~= doc);
    }
    out
}

/// The table-of-contents scan numbers every heading exactly as the main
/// pass does: after any prefix of the document, the counters of the two
/// passes agree.
pub proof fn lemma_toc_counters_match(doc: Seq<Seq<char>>)
    ensures
        toc_counters(doc) == state_after(doc).counters,
    decreases doc.len(),
{
    if doc.len() > 0 {
        lemma_toc_counters_match(doc.drop_last());
        let line = doc.last();
        if starts_with_seq(line, "---"@) {
            reveal_strlit("---");
            assert(line.subrange(0, "---"@.len() as int)[0] == line[0]);
            assert(line[0] == '-');
            crate::headings::lemma_heading_first_char(line);
            assert(heading_level(line) == 0);
        }
    }
}

/// A table-of-contents directive placed anywhere in a document shows, for
/// the heading at line `i`, the same dotted numbering that the main pass
/// gives that heading.
pub proof fn lemma_toc_numbering_matches(doc: Seq<Seq<char>>, i: int)
    requires
        0 <= i < doc.len(),
        heading_level(doc[i]) >= 1,
    ensures
        numbering(
            bump(toc_counters(doc.subrange(0, i)), heading_level(doc[i])),
            heading_level(doc[i]),
        ) == numbering(
            bump(state_after(doc.subrange(0, i)).counters, heading_level(doc[i])),
            heading_level(doc[i]),
        ),
{
    lemma_toc_counters_match(doc.subrange(0, i));
}

} // verus!
