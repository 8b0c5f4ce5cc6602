//! Five nested heading counters: a heading at level `k` increments the
//! counter of level `k` and zeroes every deeper counter. The dotted
//! numbering prefix of a heading joins the counters of levels 1 up to `k`.

use crate::text::dec_rep;
use crate::text::push_u64;
use crate::text::push_char;
use crate::text::starts_with_seq;
use vstd::prelude::*;

verus! {

/// The counter state of one rendering pass.
#[derive(Clone, Copy, PartialEq, Eq, Structural, Debug)]
pub struct HeadingCounters {
    pub l1: u64,
    pub l2: u64,
    pub l3: u64,
    pub l4: u64,
    pub l5: u64,
}

/// All counters at zero, before any line is seen.
pub open spec fn start_counters() -> HeadingCounters {
    HeadingCounters { l1: 0, l2: 0, l3: 0, l4: 0, l5: 0 }
}

/// Fresh counters for one pass.
pub fn new_counters() -> (c: HeadingCounters)
    ensures
        c == start_counters(),
{
    HeadingCounters { l1: 0, l2: 0, l3: 0, l4: 0, l5: 0 }
}

/// The counters after a heading of the given level: that level counts one
/// more, all deeper levels start over. Level `0` stands for a line that is
/// no heading and leaves the counters alone.
pub open spec fn bump(c: HeadingCounters, level: int) -> HeadingCounters {
    if level == 1 {
        HeadingCounters { l1: (c.l1 + 1) as u64, l2: 0, l3: 0, l4: 0, l5: 0 }
    } else if level == 2 {
        HeadingCounters { l1: c.l1, l2: (c.l2 + 1) as u64, l3: 0, l4: 0, l5: 0 }
    } else if level == 3 {
        HeadingCounters { l1: c.l1, l2: c.l2, l3: (c.l3 + 1) as u64, l4: 0, l5: 0 }
    } else if level == 4 {
        HeadingCounters { l1: c.l1, l2: c.l2, l3: c.l3, l4: (c.l4 + 1) as u64, l5: 0 }
    } else if level == 5 {
        HeadingCounters { l1: c.l1, l2: c.l2, l3: c.l3, l4: c.l4, l5: (c.l5 + 1) as u64 }
    } else {
        c
    }
}

/// Counter update for one heading.
pub fn bump_exec(c: HeadingCounters, level: usize) -> (r: HeadingCounters)
    requires
        c.l1 < u64::MAX,
        c.l2 < u64::MAX,
        c.l3 < u64::MAX,
        c.l4 < u64::MAX,
        c.l5 < u64::MAX,
    ensures
        r == bump(c, level as int),
{
    if level == 1 {
        HeadingCounters { l1: c.l1 + 1, l2: 0, l3: 0, l4: 0, l5: 0 }
    } else if level == 2 {
        HeadingCounters { l1: c.l1, l2: c.l2 + 1, l3: 0, l4: 0, l5: 0 }
    } else if level == 3 {
        HeadingCounters { l1: c.l1, l2: c.l2, l3: c.l3 + 1, l4: 0, l5: 0 }
    } else if level == 4 {
        HeadingCounters { l1: c.l1, l2: c.l2, l3: c.l3, l4: c.l4 + 1, l5: 0 }
    } else if level == 5 {
        HeadingCounters { l1: c.l1, l2: c.l2, l3: c.l3, l4: c.l4, l5: c.l5 + 1 }
    } else {
        c
    }
}

/// How many heading markers open the line: `5` down to `1`, longest run
/// first, or `0` for a line that is no heading.
pub open spec fn heading_level(line: Seq<char>) -> int {
    if starts_with_seq(line, "#####"@) {
        5
    } else if starts_with_seq(line, "####"@) {
        4
    } else if starts_with_seq(line, "###"@) {
        3
    } else if starts_with_seq(line, "##"@) {
        2
    } else if starts_with_seq(line, "#"@) {
        1
    } else {
        0
    }
}

/// A heading line begins with a heading marker.
pub proof fn lemma_heading_first_char(line: Seq<char>)
    ensures
        heading_level(line) >= 1 ==> line.len() > 0 && line[0] == '#',
{
    reveal_strlit("#####");
    reveal_strlit("####");
    reveal_strlit("###");
    reveal_strlit("##");
    reveal_strlit("#");
    if heading_level(line) >= 1 {
        if starts_with_seq(line, "#####"@) {
            assert(line.subrange(0, "#####"@.len() as int)[0] == line[0]);
        } else if starts_with_seq(line, "####"@) {
            assert(line.subrange(0, "####"@.len() as int)[0] == line[0]);
        } else if starts_with_seq(line, "###"@) {
            assert(line.subrange(0, "###"@.len() as int)[0] == line[0]);
        } else if starts_with_seq(line, "##"@) {
            assert(line.subrange(0, "##"@.len() as int)[0] == line[0]);
        } else {
            assert(line.subrange(0, "#"@.len() as int)[0] == line[0]);
        }
    }
}

/// The heading text: the line after the markers and exactly one following
/// character (the separating space), empty when the line is no longer than
/// that.
pub open spec fn heading_text(line: Seq<char>, level: int) -> Seq<char> {
    if line.len() >= level + 1 {
        line.subrange(level + 1, line.len() as int)
    } else {
        Seq::empty()
    }
}

/// The dotted numbering prefix of a heading at the given level: the
/// counters of levels 1 up to `level`, joined by dots.
pub open spec fn numbering(c: HeadingCounters, level: int) -> Seq<char> {
    if level == 1 {
        dec_rep(c.l1 as nat)
    } else if level == 2 {
        dec_rep(c.l1 as nat) + seq!['.'] + dec_rep(c.l2 as nat)
    } else if level == 3 {
        dec_rep(c.l1 as nat) + seq!['.'] + dec_rep(c.l2 as nat) + seq!['.'] + dec_rep(c.l3 as nat)
    } else if level == 4 {
        dec_rep(c.l1 as nat) + seq!['.'] + dec_rep(c.l2 as nat) + seq!['.'] + dec_rep(c.l3 as nat)
            + seq!['.'] + dec_rep(c.l4 as nat)
    } else if level == 5 {
        dec_rep(c.l1 as nat) + seq!['.'] + dec_rep(c.l2 as nat) + seq!['.'] + dec_rep(c.l3 as nat)
            + seq!['.'] + dec_rep(c.l4 as nat) + seq!['.'] + dec_rep(c.l5 as nat)
    } else {
        Seq::empty()
    }
}

/// Appends the dotted numbering prefix for a heading at `level`.
pub fn push_numbering(out: &mut String, c: HeadingCounters, level: usize)
    requires
        1 <= level <= 5,
    ensures
        final(out)@ == old(out)@ + numbering(c, level as int),
{
    push_u64(out, c.l1);
    if level >= 2 {
        push_char(out, '.');
        push_u64(out, c.l2);
    }
    if level >= 3 {
        push_char(out, '.');
        push_u64(out, c.l3);
    }
    if level >= 4 {
        push_char(out, '.');
        push_u64(out, c.l4);
    }
    if level >= 5 {
        push_char(out, '.');
        push_u64(out, c.l5);
    }
    proof {
        assert(final(out)@ =~= old(out)@ + numbering(c, level as int));
    }
}

} // verus!
