//! Character-level text helpers: anchor sanitisation, decimal formatting,
//! line splitting, trimming, prefix tests and lexicographic comparison.

use vstd::prelude::*;
use vstd::string::StrSliceExecFns;
use vstd::string::StringExecFns;

verus! {

/// Appends one character to a string.
///
/// Relies on `String::push`, which the standard library documents as
/// appending the given `char` to the end of the `String`.
#[verifier::external_body]
pub(crate) fn push_char(s: &mut String, c: char)
    ensures
        final(s)@ == old(s)@.push(c),
{
    s.push(c)
}

/// The view of every string in a sequence of strings.
pub open spec fn strings_view(v: Seq<String>) -> Seq<Seq<char>> {
    v.map_values(|s: String| s@)
}

/// `sanitize` turns a space into a hyphen before filtering.
pub open spec fn space_to_hyphen(c: char) -> char {
    if c == ' ' {
        '-'
    } else {
        c
    }
}

/// Characters that survive sanitisation: ASCII letters, digits and hyphens.
pub open spec fn keep_char(c: char) -> bool {
    ||| 97 <= c as u32 && c as u32 <= 122
    ||| 65 <= c as u32 && c as u32 <= 90
    ||| 48 <= c as u32 && c as u32 <= 57
    ||| c == '-'
}

/// ASCII lowercasing of a single character.
pub open spec fn lower_char(c: char) -> char {
    if 65 <= c as u32 && c as u32 <= 90 {
        (((c as u32) + 32) as u8) as char
    } else {
        c
    }
}

/// What one input character contributes to a sanitised anchor: spaces become
/// hyphens first, anything outside `[a-zA-Z0-9-]` is dropped, the rest is
/// lowercased.
pub open spec fn sanitize_char(c: char) -> Seq<char> {
    let c1 = space_to_hyphen(c);
    if keep_char(c1) {
        seq![lower_char(c1)]
    } else {
        Seq::empty()
    }
}

/// The sanitised form of a whole character sequence, used as a heading's
/// anchor identifier.
pub open spec fn sanitize_spec(s: Seq<char>) -> Seq<char>
    decreases s.len(),
{
    if s.len() == 0 {
        Seq::empty()
    } else {
        sanitize_spec(s.drop_last()) + sanitize_char(s.last())
    }
}

/// Derives an anchor identifier from heading text: spaces become hyphens,
/// every character outside `[a-z0-9-]` after ASCII lowercasing is removed.
pub fn sanitize(input: String) -> (r: String)
    ensures
        r@ == sanitize_spec(input@),
{
    let s = input.as_str();
    let n = s.unicode_len();
    let mut out = String::new();
    let mut i: usize = 0;
    while i < n
        invariant
            n == input@.len(),
            s@ == input@,
            i <= n,
            out@ == sanitize_spec(input@.subrange(0, i as int)),
        decreases n - i,
    {
        let c = s.get_char(i);
        let c1 = if c == ' ' {
            '-'
        } else {
            c
        };
        let u = c1 as u32;
        let kept = (97 <= u && u <= 122) || (65 <= u && u <= 90) || (48 <= u && u <= 57) || c1
            == '-';
        if kept {
            let lc = if 65 <= u && u <= 90 {
                ((u + 32) as u8) as char
            } else {
                c1
            };
            push_char(&mut out, lc);
        }
        proof {
            assert(input@.subrange(0, i as int + 1).drop_last() =~= input@.subrange(0, i as int));
            assert(input@.subrange(0, i as int + 1).last() == input@[i as int]);
        }
        i = i + 1;
    }
    proof {
        assert(input@.subrange(0, n as int) =~= input@);
    }
    out
}

/// The character for one decimal digit.
pub open spec fn digit_char(d: nat) -> char {
    ((48 + d) as u8) as char
}

/// The decimal representation of a natural number, most significant digit
/// first, with no leading zeroes (a single `'0'` for zero).
pub open spec fn dec_rep(n: nat) -> Seq<char>
    decreases n,
{
    if n < 10 {
        seq![digit_char(n)]
    } else {
        dec_rep(n / 10).push(digit_char(n % 10))
    }
}

/// Appends the decimal representation of `n`.
pub fn push_u64(out: &mut String, n: u64)
    ensures
        final(out)@ == old(out)@ + dec_rep(n as nat),
    decreases n,
{
    if n < 10 {
        push_char(out, (48 + n as u8) as char);
        proof {
            assert(old(out)@.push(digit_char(n as nat)) =~= old(out)@ + dec_rep(n as nat));
        }
    } else {
        push_u64(out, n / 10);
        push_char(out, (48 + (n % 10) as u8) as char);
        proof {
            assert((old(out)@ + dec_rep((n / 10) as nat)).push(digit_char((n % 10) as nat)) =~= old(
                out,
            )@ + dec_rep(n as nat));
        }
    }
}

/// Splitting a character sequence at a separator, keeping empty pieces: the
/// result always holds at least one piece.
pub open spec fn split_char_spec(s: Seq<char>, sep: char) -> Seq<Seq<char>>
    decreases s.len(),
{
    if s.len() == 0 {
        seq![Seq::<char>::empty()]
    } else {
        let prev = split_char_spec(s.drop_last(), sep);
        if s.last() == sep {
            prev.push(Seq::empty())
        } else {
            prev.update(prev.len() - 1, prev.last().push(s.last()))
        }
    }
}

/// `split_char_spec` never yields an empty piece list.
pub proof fn lemma_split_char_len(s: Seq<char>, sep: char)
    ensures
        split_char_spec(s, sep).len() >= 1,
    decreases s.len(),
{
    if s.len() > 0 {
        lemma_split_char_len(s.drop_last(), sep);
    }
}

/// Splits a string at every occurrence of `sep`, keeping empty pieces.
pub fn split_char(s: &str, sep: char) -> (r: Vec<String>)
    ensures
        strings_view(r@) == split_char_spec(s@, sep),
{
    let n = s.unicode_len();
    let mut done: Vec<String> = Vec::new();
    let mut cur = String::new();
    let mut i: usize = 0;
    while i < n
        invariant
            n == s@.len(),
            i <= n,
            strings_view(done@).push(cur@) == split_char_spec(s@.subrange(0, i as int), sep),
        decreases n - i,
    {
        let c = s.get_char(i);
        proof {
            assert(s@.subrange(0, i as int + 1).drop_last() =~= s@.subrange(0, i as int));
            assert(s@.subrange(0, i as int + 1).last() == s@[i as int]);
        }
        if c == sep {
            let ghost prev_done = done@;
            let ghost prev_cur = cur@;
            done.push(cur);
            cur = String::new();
            proof {
                assert(strings_view(done@).push(cur@) =~~= strings_view(prev_done).push(
                    prev_cur,
                ).push(Seq::empty()));
            }
        } else {
            let ghost prev_done = done@;
            let ghost prev_cur = cur@;
            push_char(&mut cur, c);
            proof {
                let before = strings_view(prev_done).push(prev_cur);
                assert(strings_view(done@).push(cur@) =~~= before.update(
                    before.len() - 1,
                    before.last().push(c),
                ));
            }
        }
        i = i + 1;
    }
    proof {
        assert(s@.subrange(0, n as int) =~= s@);
    }
    done.push(cur);
    proof {
        assert(strings_view(done@) =~~= split_char_spec(s@, sep));
    }
    done
}

/// ASCII whitespace, as trimmed from table-of-contents heading text.
pub open spec fn is_ws(c: char) -> bool {
    c == ' ' || c == '\t' || c == '\r' || c == '\n' || c == '\u{b}' || c == '\u{c}'
}

/// A sequence without its leading whitespace.
pub open spec fn trim_start_spec(s: Seq<char>) -> Seq<char>
    decreases s.len(),
{
    if s.len() > 0 && is_ws(s[0]) {
        trim_start_spec(s.drop_first())
    } else {
        s
    }
}

/// A sequence without its trailing whitespace.
pub open spec fn trim_end_spec(s: Seq<char>) -> Seq<char>
    decreases s.len(),
{
    if s.len() > 0 && is_ws(s.last()) {
        trim_end_spec(s.drop_last())
    } else {
        s
    }
}

/// A sequence without its surrounding whitespace.
pub open spec fn trim_spec(s: Seq<char>) -> Seq<char> {
    trim_end_spec(trim_start_spec(s))
}

/// Removes surrounding whitespace from a string.
pub fn trim_str(s: &str) -> (r: String)
    ensures
        r@ == trim_spec(s@),
{
    let n = s.unicode_len();
    proof {
        assert(s@.subrange(0, n as int) =~= s@);
    }
    let mut start: usize = 0;
    while start < n && is_ws_exec(s.get_char(start))
        invariant
            n == s@.len(),
            start <= n,
            trim_start_spec(s@) == trim_start_spec(s@.subrange(start as int, n as int)),
        decreases n - start,
    {
        proof {
            let tail = s@.subrange(start as int, n as int);
            assert(tail.drop_first() =~= s@.subrange(start as int + 1, n as int));
        }
        start = start + 1;
    }
    proof {
        let tail = s@.subrange(start as int, n as int);
        if start < n {
            assert(tail[0] == s@[start as int]);
        }
        assert(trim_start_spec(s@) == tail);
    }
    let mut end: usize = n;
    while end > start && is_ws_exec(s.get_char(end - 1))
        invariant
            n == s@.len(),
            start <= end <= n,
            trim_start_spec(s@) == s@.subrange(start as int, n as int),
            trim_spec(s@) == trim_end_spec(s@.subrange(start as int, end as int)),
        decreases end,
    {
        proof {
            let piece = s@.subrange(start as int, end as int);
            assert(piece.last() == s@[end - 1]);
            assert(piece.drop_last() =~= s@.subrange(start as int, end as int - 1));
        }
        end = end - 1;
    }
    proof {
        let piece = s@.subrange(start as int, end as int);
        if end > start {
            assert(piece.last() == s@[end - 1]);
        }
        assert(trim_spec(s@) == piece);
    }
    let r = s.substring_char(start, end);
    r.to_owned()
}

/// Whitespace test on one character.
pub fn is_ws_exec(c: char) -> (r: bool)
    ensures
        r == is_ws(c),
{
    c == ' ' || c == '\t' || c == '\r' || c == '\n' || c == '\u{b}' || c == '\u{c}'
}

/// One sequence beginning with another.
pub open spec fn starts_with_seq(s: Seq<char>, p: Seq<char>) -> bool {
    p.len() <= s.len() && s.subrange(0, p.len() as int) == p
}

/// Prefix test on strings.
pub fn str_starts_with(s: &str, p: &str) -> (r: bool)
    ensures
        r == starts_with_seq(s@, p@),
{
    let sn = s.unicode_len();
    let pn = p.unicode_len();
    if pn > sn {
        return false;
    }
    let mut i: usize = 0;
    while i < pn
        invariant
            sn == s@.len(),
            pn == p@.len(),
            pn <= sn,
            i <= pn,
            forall|j: int| 0 <= j < i ==> s@[j] == p@[j],
        decreases pn - i,
    {
        if s.get_char(i) != p.get_char(i) {
            assert(s@.subrange(0, p@.len() as int)[i as int] != p@[i as int]);
            return false;
        }
        i = i + 1;
    }
    proof {
        assert(s@.subrange(0, p@.len() as int) =~= p@);
    }
    true
}

/// Equality test on strings.
pub fn str_eq(a: &str, b: &str) -> (r: bool)
    ensures
        r == (a@ == b@),
{
    let an = a.unicode_len();
    let bn = b.unicode_len();
    if an != bn {
        return false;
    }
    let mut i: usize = 0;
    while i < an
        invariant
            an == a@.len(),
            bn == b@.len(),
            an == bn,
            i <= an,
            forall|j: int| 0 <= j < i ==> a@[j] == b@[j],
        decreases an - i,
    {
        if a.get_char(i) != b.get_char(i) {
            return false;
        }
        i = i + 1;
    }
    proof {
        assert(a@ =~= b@);
    }
    true
}

/// What one character becomes under `<`-escaping in quoted lines.
pub open spec fn escape_lt_char(c: char) -> Seq<char> {
    if c == '<' {
        seq!['&', 'l', 't']
    } else {
        seq![c]
    }
}

/// A sequence with every `<` replaced by `&lt`.
pub open spec fn escape_lt_spec(s: Seq<char>) -> Seq<char>
    decreases s.len(),
{
    if s.len() == 0 {
        Seq::empty()
    } else {
        escape_lt_spec(s.drop_last()) + escape_lt_char(s.last())
    }
}

/// Appends `s`, replacing every `<` with `&lt`.
pub fn push_escaped(out: &mut String, s: &str)
    ensures
        final(out)@ == old(out)@ + escape_lt_spec(s@),
{
    let n = s.unicode_len();
    let mut i: usize = 0;
    while i < n
        invariant
            n == s@.len(),
            i <= n,
            out@ == old(out)@ + escape_lt_spec(s@.subrange(0, i as int)),
        decreases n - i,
    {
        let c = s.get_char(i);
        proof {
            assert(s@.subrange(0, i as int + 1).drop_last() =~= s@.subrange(0, i as int));
            assert(s@.subrange(0, i as int + 1).last() == s@[i as int]);
        }
        if c == '<' {
            out.append("&lt");
            proof {
                reveal_strlit("&lt");
                assert(old(out)@ + escape_lt_spec(s@.subrange(0, i as int)) + "&lt"@ =~= old(out)@
                    + escape_lt_spec(s@.subrange(0, i as int + 1)));
            }
        } else {
            push_char(out, c);
            proof {
                assert((old(out)@ + escape_lt_spec(s@.subrange(0, i as int))).push(c) =~= old(out)@
                    + escape_lt_spec(s@.subrange(0, i as int + 1)));
            }
        }
        i = i + 1;
    }
    proof {
        assert(s@.subrange(0, n as int) =~= s@);
    }
}

/// Strict lexicographic order on character sequences, by code point.
pub open spec fn lt_chars(a: Seq<char>, b: Seq<char>) -> bool
    decreases a.len(),
{
    if b.len() == 0 {
        false
    } else if a.len() == 0 {
        true
    } else if (a[0] as u32) < (b[0] as u32) {
        true
    } else if (a[0] as u32) > (b[0] as u32) {
        false
    } else {
        lt_chars(a.drop_first(), b.drop_first())
    }
}

/// Strict lexicographic comparison of strings, by code point.
pub fn lt_str(a: &str, b: &str) -> (r: bool)
    ensures
        r == lt_chars(a@, b@),
{
    let an = a.unicode_len();
    let bn = b.unicode_len();
    proof {
        assert(a@.subrange(0, an as int) =~= a@);
        assert(b@.subrange(0, bn as int) =~= b@);
    }
    let mut i: usize = 0;
    while i < an && i < bn
        invariant
            an == a@.len(),
            bn == b@.len(),
            i <= an,
            i <= bn,
            lt_chars(a@, b@) == lt_chars(
                a@.subrange(i as int, an as int),
                b@.subrange(i as int, bn as int),
            ),
        decreases an - i,
    {
        let ca = a.get_char(i);
        let cb = b.get_char(i);
        proof {
            let ta = a@.subrange(i as int, an as int);
            let tb = b@.subrange(i as int, bn as int);
            assert(ta[0] == a@[i as int]);
            assert(tb[0] == b@[i as int]);
            assert(ta.drop_first() =~= a@.subrange(i as int + 1, an as int));
            assert(tb.drop_first() =~= b@.subrange(i as int + 1, bn as int));
        }
        if (ca as u32) < (cb as u32) {
            return true;
        }
        if (ca as u32) > (cb as u32) {
            return false;
        }
        i = i + 1;
    }
    an < bn
}

} // verus!
