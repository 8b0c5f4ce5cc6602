//! Per-directory exclusion rules, read from an ignore file: one pattern per
//! line, each pattern a sequence of path components. A pattern matches an
//! entry when the entry's path ends with the pattern's component sequence
//! (suffix match over path segments). Blank lines give empty patterns,
//! which never match anything.

use crate::fstree::FsNode;
use crate::fstree::path_view;
use crate::text::split_char;
use crate::text::split_char_spec;
use crate::text::strings_view;
use vstd::prelude::*;
use vstd::string::StrSliceExecFns;

verus! {

/// The view of every pattern in a sequence of patterns.
pub open spec fn pats_view(v: Seq<Vec<String>>) -> Seq<Seq<Seq<char>>> {
    v.map_values(|p: Vec<String>| path_view(p@))
}

/// A line without one trailing carriage return, as a line reader would
/// yield it.
pub open spec fn strip_cr(s: Seq<char>) -> Seq<char> {
    if s.len() > 0 && s.last() == '\r' {
        s.drop_last()
    } else {
        s
    }
}

/// Only the non-empty pieces of a sequence of pieces.
pub open spec fn keep_nonempty(s: Seq<Seq<char>>) -> Seq<Seq<char>>
    decreases s.len(),
{
    if s.len() == 0 {
        Seq::empty()
    } else {
        keep_nonempty(s.drop_last()) + if s.last().len() > 0 {
            seq![s.last()]
        } else {
            Seq::empty()
        }
    }
}

/// The component sequence of one pattern line: the line without a trailing
/// carriage return, split at every slash, empty segments dropped.
pub open spec fn pattern_components(line: Seq<char>) -> Seq<Seq<char>> {
    keep_nonempty(split_char_spec(strip_cr(line), '/'))
}

/// The patterns of a sequence of lines, one per line.
pub open spec fn rules_of_lines(ls: Seq<Seq<char>>) -> Seq<Seq<Seq<char>>> {
    ls.map_values(|l: Seq<char>| pattern_components(l))
}

/// All patterns read from the text of an ignore file, one per line.
pub open spec fn rules_of_text(text: Seq<char>) -> Seq<Seq<Seq<char>>> {
    rules_of_lines(split_char_spec(text, '\n'))
}

/// The patterns in force while listing the children of `node`.
pub open spec fn ignore_patterns(node: FsNode) -> Seq<Seq<Seq<char>>> {
    match node.ignore_rules {
        Option::None => Seq::empty(),
        Option::Some(t) => rules_of_text(t@),
    }
}

/// A non-empty pattern matching the tail of a component path.
pub open spec fn suffix_matches(path: Seq<Seq<char>>, pat: Seq<Seq<char>>) -> bool {
    &&& pat.len() > 0
    &&& pat.len() <= path.len()
    &&& path.subrange(path.len() - pat.len(), path.len() as int) == pat
}

/// Some pattern of the set matches the path.
pub open spec fn ignored(path: Seq<Seq<char>>, pats: Seq<Seq<Seq<char>>>) -> bool {
    exists|k: int| 0 <= k < pats.len() && suffix_matches(path, pats[k])
}

/// Splits one pattern line into its components.
pub fn parse_pattern_line(line: &str) -> (r: Vec<String>)
    ensures
        path_view(r@) == pattern_components(line@),
{
    let n = line.unicode_len();
    let stripped: &str = if n > 0 && line.get_char(n - 1) == '\r' {
        proof {
            assert(line@.subrange(0, n as int - 1) =~= line@.drop_last());
        }
        line.substring_char(0, n - 1)
    } else {
        line
    };
    let pieces = split_char(stripped, '/');
    let mut r: Vec<String> = Vec::new();
    let mut i: usize = 0;
    let ghost pv = strings_view(pieces@);
    proof {
        assert(pv.subrange(0, 0) =~= Seq::<Seq<char>>::empty());
        assert(keep_nonempty(pv.subrange(0, 0)) =~= Seq::<Seq<char>>::empty());
        assert(path_view(r@) =~~= Seq::<Seq<char>>::empty());
    }
    while i < pieces.len()
        invariant
            i <= pieces.len(),
            pv == strings_view(pieces@),
            pv.len() == pieces@.len(),
            path_view(r@) == keep_nonempty(pv.subrange(0, i as int)),
        decreases pieces.len() - i,
    {
        proof {
            assert(pv.subrange(0, i as int + 1).drop_last() =~= pv.subrange(0, i as int));
            assert(pv.subrange(0, i as int + 1).last() == pv[i as int]);
            assert(pv[i as int] == pieces@[i as int]@);
        }
        if pieces[i].as_str().unicode_len() > 0 {
            let ghost prev = r@;
            r.push(pieces[i].clone());
            proof {
                assert(path_view(r@) =~~= path_view(prev) + seq![pv[i as int]]);
            }
        } else {
            proof {
                assert(path_view(r@) =~~= path_view(r@) + Seq::<Seq<char>>::empty());
            }
        }
        i = i + 1;
    }
    proof {
        assert(pv.subrange(0, pv.len() as int) =~= pv);
    }
    r
}

/// Parses the whole text of an ignore file.
pub fn parse_rules_text(text: &str) -> (r: Vec<Vec<String>>)
    ensures
        pats_view(r@) == rules_of_text(text@),
{
    let lines = split_char(text, '\n');
    let mut r: Vec<Vec<String>> = Vec::new();
    let mut i: usize = 0;
    let ghost lv = strings_view(lines@);
    while i < lines.len()
        invariant
            i <= lines.len(),
            lv == strings_view(lines@),
            lv.len() == lines@.len(),
            pats_view(r@) == rules_of_lines(lv.subrange(0, i as int)),
        decreases lines.len() - i,
    {
        let pat = parse_pattern_line(lines[i].as_str());
        let ghost patv = path_view(pat@);
        let ghost prev = r@;
        r.push(pat);
        proof {
            assert(lv[i as int] == lines@[i as int]@);
            assert(r@ == prev.push(pat));
            assert(pats_view(prev).len() == prev.len());
            assert(rules_of_lines(lv.subrange(0, i as int)).len() == i as int);
            assert(prev.len() == i as int);
            let full = rules_of_lines(lv.subrange(0, i as int + 1));
            assert forall|j: int| 0 <= j < pats_view(r@).len() implies pats_view(r@)[j] == full[j] by {
                assert(lv.subrange(0, i as int + 1)[j] == lv[j]);
                assert(full[j] == pattern_components(lv[j]));
                if j < i {
                    assert(pats_view(r@)[j] == pats_view(prev)[j]);
                    assert(pats_view(prev)[j] == rules_of_lines(lv.subrange(0, i as int))[j]);
                    assert(rules_of_lines(lv.subrange(0, i as int))[j] == pattern_components(
                        lv.subrange(0, i as int)[j],
                    ));
                    assert(lv.subrange(0, i as int)[j] == lv[j]);
                } else {
                    assert(pats_view(r@)[j] == patv);
                }
            }
            assert(pats_view(r@) =~= full);
        }
        i = i + 1;
    }
    proof {
        assert(lv.subrange(0, lv.len() as int) =~= lv);
        assert(pats_view(r@) =~~= rules_of_text(text@));
    }
    r
}

/// The patterns of the ignore file carried by `node`, parsed.
pub fn load_rules(node: &FsNode) -> (r: Vec<Vec<String>>)
    ensures
        pats_view(r@) == ignore_patterns(*node),
{
    match &node.ignore_rules {
        Option::Some(t) => parse_rules_text(t.as_str()),
        Option::None => {
            let r: Vec<Vec<String>> = Vec::new();
            proof {
                assert(pats_view(r@) =~~= Seq::<Seq<Seq<char>>>::empty());
            }
            r
        },
    }
}

/// Suffix-match test of one pattern against a path.
pub fn path_matches(path: &Vec<String>, pat: &Vec<String>) -> (r: bool)
    ensures
        r == suffix_matches(path_view(path@), path_view(pat@)),
{
    if pat.len() == 0 || pat.len() > path.len() {
        return false;
    }
    let off = path.len() - pat.len();
    let mut j: usize = 0;
    while j < pat.len()
        invariant
            pat.len() > 0,
            pat.len() <= path.len(),
            off == path.len() - pat.len(),
            j <= pat.len(),
            forall|k: int| 0 <= k < j ==> path@[off + k]@ == pat@[k]@,
        decreases pat.len() - j,
    {
        if !path[off + j].eq(&pat[j]) {
            proof {
                let pv = path_view(path@);
                let qv = path_view(pat@);
                assert(pv.subrange(pv.len() - qv.len(), pv.len() as int)[j as int] != qv[j as int]);
            }
            return false;
        }
        j = j + 1;
    }
    proof {
        let pv = path_view(path@);
        let qv = path_view(pat@);
        assert(pv.subrange(pv.len() - qv.len(), pv.len() as int) =~= qv);
    }
    true
}

/// Test of a path against every pattern of a set.
pub fn is_ignored(path: &Vec<String>, pats: &Vec<Vec<String>>) -> (r: bool)
    ensures
        r == ignored(path_view(path@), pats_view(pats@)),
{
    let mut k: usize = 0;
    while k < pats.len()
        invariant
            k <= pats.len(),
            forall|j: int|
                0 <= j < k ==> !suffix_matches(path_view(path@), pats_view(pats@)[j]),
        decreases pats.len() - k,
    {
        if path_matches(path, &pats[k]) {
            proof {
                assert(pats_view(pats@)[k as int] == path_view(pats@[k as int]@));
            }
            return true;
        }
        proof {
            assert(pats_view(pats@)[k as int] == path_view(pats@[k as int]@));
        }
        k = k + 1;
    }
    false
}

} // verus!
