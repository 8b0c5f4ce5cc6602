//! Lexicographic ordering of paths and names, and the sorts the listings
//! use: entries by full component path, sibling names by code point.

use crate::fstree::EntryModel;
use crate::fstree::FsEntry;
use crate::fstree::clone_path;
use crate::fstree::entries_view;
use crate::fstree::path_view;
use crate::text::lt_chars;
use crate::text::lt_str;
use crate::text::strings_view;
use vstd::prelude::*;

verus! {

/// Strict lexicographic order on component paths: componentwise by code
/// point, a proper prefix before its extensions.
pub open spec fn lt_path(a: Seq<Seq<char>>, b: Seq<Seq<char>>) -> bool
    decreases a.len(),
{
    if b.len() == 0 {
        false
    } else if a.len() == 0 {
        true
    } else if lt_chars(a[0], b[0]) {
        true
    } else if a[0] != b[0] {
        false
    } else {
        lt_path(a.drop_first(), b.drop_first())
    }
}

/// Strict lexicographic comparison of component paths.
pub fn lt_path_vec(a: &Vec<String>, b: &Vec<String>) -> (r: bool)
    ensures
        r == lt_path(path_view(a@), path_view(b@)),
{
    let ghost av = path_view(a@);
    let ghost bv = path_view(b@);
    let mut i: usize = 0;
    proof {
        assert(av.subrange(0, av.len() as int) =~= av);
        assert(bv.subrange(0, bv.len() as int) =~= bv);
    }
    while i < a.len() && i < b.len()
        invariant
            av == path_view(a@),
            bv == path_view(b@),
            av.len() == a@.len(),
            bv.len() == b@.len(),
            i <= av.len(),
            i <= bv.len(),
            lt_path(av, bv) == lt_path(
                av.subrange(i as int, av.len() as int),
                bv.subrange(i as int, bv.len() as int),
            ),
        decreases av.len() - i,
    {
        proof {
            let ta = av.subrange(i as int, av.len() as int);
            let tb = bv.subrange(i as int, bv.len() as int);
            assert(ta[0] == av[i as int]);
            assert(tb[0] == bv[i as int]);
            assert(av[i as int] == a@[i as int]@);
            assert(bv[i as int] == b@[i as int]@);
            assert(ta.drop_first() =~= av.subrange(i as int + 1, av.len() as int));
            assert(tb.drop_first() =~= bv.subrange(i as int + 1, bv.len() as int));
        }
        if lt_str(a[i].as_str(), b[i].as_str()) {
            return true;
        }
        if !a[i].eq(&b[i]) {
            return false;
        }
        i = i + 1;
    }
    a.len() < b.len()
}

/// No two elements stand in the wrong order.
pub open spec fn names_sorted(s: Seq<Seq<char>>) -> bool {
    forall|i: int, j: int| #![trigger s[i], s[j]] 0 <= i < j < s.len() ==> !lt_chars(s[j], s[i])
}

/// No two entries stand in the wrong path order.
pub open spec fn entries_sorted(s: Seq<EntryModel>) -> bool {
    forall|i: int, j: int|
        #![trigger s[i], s[j]]
        0 <= i < j < s.len() ==> !lt_path(s[j].path, s[i].path)
}

/// The character order never holds both ways.
pub proof fn lemma_lt_chars_asym(a: Seq<char>, b: Seq<char>)
    requires
        lt_chars(a, b),
    ensures
        !lt_chars(b, a),
    decreases a.len(),
{
    if a.len() > 0 && b.len() > 0 && a[0] as u32 == b[0] as u32 {
        lemma_lt_chars_asym(a.drop_first(), b.drop_first());
    }
}

/// The character order is transitive.
pub proof fn lemma_lt_chars_trans(a: Seq<char>, b: Seq<char>, c: Seq<char>)
    requires
        lt_chars(a, b),
        lt_chars(b, c),
    ensures
        lt_chars(a, c),
    decreases a.len(),
{
    if a.len() > 0 && b.len() > 0 && c.len() > 0 && a[0] as u32 == b[0] as u32 && b[0] as u32 == c[0]
        as u32 {
        lemma_lt_chars_trans(a.drop_first(), b.drop_first(), c.drop_first());
    }
}

/// The path order never holds both ways.
pub proof fn lemma_lt_path_asym(a: Seq<Seq<char>>, b: Seq<Seq<char>>)
    requires
        lt_path(a, b),
    ensures
        !lt_path(b, a),
    decreases a.len(),
{
    if a.len() > 0 && b.len() > 0 {
        if lt_chars(a[0], b[0]) {
            lemma_lt_chars_asym(a[0], b[0]);
        } else if a[0] == b[0] {
            lemma_lt_path_asym(a.drop_first(), b.drop_first());
        }
    }
}

/// The path order is transitive.
pub proof fn lemma_lt_path_trans(a: Seq<Seq<char>>, b: Seq<Seq<char>>, c: Seq<Seq<char>>)
    requires
        lt_path(a, b),
        lt_path(b, c),
    ensures
        lt_path(a, c),
    decreases a.len(),
{
    if a.len() > 0 && b.len() > 0 && c.len() > 0 {
        if lt_chars(a[0], b[0]) && lt_chars(b[0], c[0]) {
            lemma_lt_chars_trans(a[0], b[0], c[0]);
        } else if a[0] == b[0] && b[0] == c[0] {
            lemma_lt_path_trans(a.drop_first(), b.drop_first(), c.drop_first());
        }
    }
}

/// Where one entry lands in an already ordered sequence: before the first
/// element it precedes, after every element equal to it.
pub open spec fn insert_entry(s: Seq<EntryModel>, e: EntryModel) -> Seq<EntryModel>
    decreases s.len(),
{
    if s.len() == 0 {
        seq![e]
    } else if lt_path(e.path, s[0].path) {
        seq![e] + s
    } else {
        seq![s[0]] + insert_entry(s.drop_first(), e)
    }
}

/// The entries in lexicographic order of their paths, by repeated
/// insertion.
pub open spec fn sort_entries(s: Seq<EntryModel>) -> Seq<EntryModel>
    decreases s.len(),
{
    if s.len() == 0 {
        Seq::empty()
    } else {
        insert_entry(sort_entries(s.drop_last()), s.last())
    }
}

/// Skipping a prefix that the inserted entry does not precede.
proof fn lemma_insert_entry_skip(s: Seq<EntryModel>, e: EntryModel, j: int)
    requires
        0 <= j <= s.len(),
        forall|k: int| 0 <= k < j ==> !lt_path(e.path, (#[trigger] s[k]).path),
    ensures
        insert_entry(s, e) == s.subrange(0, j) + insert_entry(
            s.subrange(j, s.len() as int),
            e,
        ),
    decreases j,
{
    if j == 0 {
        assert(s.subrange(0, s.len() as int) =~= s);
        assert(s.subrange(0, 0) + insert_entry(s.subrange(0, s.len() as int), e) =~= insert_entry(
            s,
            e,
        ));
    } else {
        assert(!lt_path(e.path, s[0].path));
        assert(s.drop_first() =~= s.subrange(1, s.len() as int));
        assert forall|k: int| 0 <= k < j - 1 implies !lt_path(
            e.path,
            (#[trigger] s.drop_first()[k]).path,
        ) by {
            assert(s.drop_first()[k] == s[k + 1]);
        }
        lemma_insert_entry_skip(s.drop_first(), e, j - 1);
        assert(s.drop_first().subrange(0, j - 1) =~= s.subrange(1, j));
        assert(s.drop_first().subrange(j - 1, s.drop_first().len() as int) =~= s.subrange(
            j,
            s.len() as int,
        ));
        assert(seq![s[0]] + (s.subrange(1, j) + insert_entry(s.subrange(j, s.len() as int), e))
            =~= s.subrange(0, j) + insert_entry(s.subrange(j, s.len() as int), e));
    }
}

/// Copies one entry.
pub fn clone_entry(e: &FsEntry) -> (r: FsEntry)
    ensures
        r.model() == e.model(),
{
    FsEntry { path: clone_path(&e.path), kind: e.kind }
}

/// Inserts one entry into an ordered vector, keeping the order.
pub fn insert_entry_sorted(v: &mut Vec<FsEntry>, e: FsEntry)
    ensures
        entries_view(final(v)@) == insert_entry(entries_view(old(v)@), e.model()),
{
    let ghost s = entries_view(v@);
    let ghost em = e.model();
    let mut j: usize = 0;
    while j < v.len() && !lt_path_vec(&e.path, &v[j].path)
        invariant
            s == entries_view(v@),
            s.len() == v@.len(),
            em == e.model(),
            j <= v.len(),
            forall|k: int| 0 <= k < j ==> !lt_path(em.path, (#[trigger] s[k]).path),
        decreases v.len() - j,
    {
        proof {
            assert(s[j as int] == v@[j as int].model());
        }
        j = j + 1;
    }
    proof {
        if j < v.len() {
            assert(s[j as int] == v@[j as int].model());
        }
        lemma_insert_entry_skip(s, em, j as int);
    }
    v.insert(j, e);
    proof {
        let tail = s.subrange(j as int, s.len() as int);
        if tail.len() == 0 {
            assert(insert_entry(tail, em) =~= seq![em]);
        } else {
            assert(lt_path(em.path, tail[0].path));
            assert(insert_entry(tail, em) =~= seq![em] + tail);
        }
        assert(entries_view(final(v)@) =~= s.subrange(0, j as int) + insert_entry(tail, em)) by {
            assert forall|k: int| 0 <= k < final(v)@.len() implies entries_view(final(v)@)[k] == (
            s.subrange(0, j as int) + insert_entry(tail, em))[k] by {
                assert(final(v)@ == old(v)@.insert(j as int, e));
                old(v)@.insert_ensures(j as int, e);
                if k < j {
                    assert(final(v)@[k] == old(v)@[k]);
                } else if k == j {
                    assert(final(v)@[k] == e);
                } else {
                    assert(final(v)@[k] == old(v)@[k - 1]);
                    assert(tail[k - j - 1] == s[k - 1]);
                }
            }
        }
    }
}

/// The entries of `v` in lexicographic order of their paths.
pub fn sorted_entries(v: &Vec<FsEntry>) -> (r: Vec<FsEntry>)
    ensures
        entries_view(r@) == sort_entries(entries_view(v@)),
{
    let ghost s = entries_view(v@);
    let mut r: Vec<FsEntry> = Vec::new();
    let mut i: usize = 0;
    proof {
        assert(s.subrange(0, 0) =~= Seq::<EntryModel>::empty());
        assert(entries_view(r@) =~= Seq::<EntryModel>::empty());
    }
    while i < v.len()
        invariant
            s == entries_view(v@),
            s.len() == v@.len(),
            i <= v.len(),
            entries_view(r@) == sort_entries(s.subrange(0, i as int)),
        decreases v.len() - i,
    {
        let e = clone_entry(&v[i]);
        proof {
            assert(s[i as int] == v@[i as int].model());
            assert(s.subrange(0, i as int + 1).drop_last() =~= s.subrange(0, i as int));
            assert(s.subrange(0, i as int + 1).last() == s[i as int]);
        }
        insert_entry_sorted(&mut r, e);
        i = i + 1;
    }
    proof {
        assert(s.subrange(0, s.len() as int) =~= s);
    }
    r
}

/// Insertion keeps an entry sequence ordered, and adds nothing but the
/// inserted entry.
proof fn lemma_insert_entry_sorted_keeps(s: Seq<EntryModel>, e: EntryModel)
    requires
        entries_sorted(s),
    ensures
        entries_sorted(insert_entry(s, e)),
        forall|m: int|
            0 <= m < insert_entry(s, e).len() ==> insert_entry(s, e)[m] == e || s.contains(
                insert_entry(s, e)[m],
            ),
    decreases s.len(),
{
    let r = insert_entry(s, e);
    if s.len() == 0 {
    } else if lt_path(e.path, s[0].path) {
        assert forall|i: int, j: int| #![trigger r[i], r[j]] 0 <= i < j < r.len() implies !lt_path(
            r[j].path,
            r[i].path,
        ) by {
            assert(r[j] == s[j - 1]);
            if i == 0 {
                if lt_path(s[j - 1].path, e.path) {
                    if j == 1 {
                        lemma_lt_path_asym(e.path, s[0].path);
                    } else {
                        lemma_lt_path_trans(s[j - 1].path, e.path, s[0].path);
                    }
                }
            } else {
                assert(r[i] == s[i - 1]);
            }
        }
        assert forall|m: int| 0 <= m < r.len() implies r[m] == e || s.contains(r[m]) by {
            if m > 0 {
                assert(r[m] == s[m - 1]);
            }
        }
    } else {
        let tail = s.drop_first();
        assert forall|i: int, j: int|
            #![trigger tail[i], tail[j]]
            0 <= i < j < tail.len() implies !lt_path(tail[j].path, tail[i].path) by {
            assert(tail[i] == s[i + 1]);
            assert(tail[j] == s[j + 1]);
        }
        lemma_insert_entry_sorted_keeps(tail, e);
        let sub = insert_entry(tail, e);
        assert forall|i: int, j: int| #![trigger r[i], r[j]] 0 <= i < j < r.len() implies !lt_path(
            r[j].path,
            r[i].path,
        ) by {
            assert(r[j] == sub[j - 1]);
            if i == 0 {
                assert(r[0] == s[0]);
                if sub[j - 1] == e {
                } else {
                    assert(tail.contains(sub[j - 1]));
                    let k = choose|k: int| 0 <= k < tail.len() && tail[k] == sub[j - 1];
                    assert(tail[k] == s[k + 1]);
                }
            } else {
                assert(r[i] == sub[i - 1]);
            }
        }
        assert forall|m: int| 0 <= m < r.len() implies r[m] == e || s.contains(r[m]) by {
            if m == 0 {
                assert(r[0] == s[0]);
            } else {
                assert(r[m] == sub[m - 1]);
                if sub[m - 1] != e {
                    assert(tail.contains(sub[m - 1]));
                    let k = choose|k: int| 0 <= k < tail.len() && tail[k] == sub[m - 1];
                    assert(tail[k] == s[k + 1]);
                }
            }
        }
    }
}

/// The entry sort leaves its result in lexicographic path order.
pub proof fn lemma_sort_entries_sorted(s: Seq<EntryModel>)
    ensures
        entries_sorted(sort_entries(s)),
    decreases s.len(),
{
    if s.len() > 0 {
        lemma_sort_entries_sorted(s.drop_last());
        lemma_insert_entry_sorted_keeps(sort_entries(s.drop_last()), s.last());
    }
}

/// Insertion keeps a name sequence ordered, and adds nothing but the
/// inserted name.
proof fn lemma_insert_name_sorted_keeps(s: Seq<Seq<char>>, x: Seq<char>)
    requires
        names_sorted(s),
    ensures
        names_sorted(insert_name(s, x)),
        forall|m: int|
            0 <= m < insert_name(s, x).len() ==> insert_name(s, x)[m] == x || s.contains(
                insert_name(s, x)[m],
            ),
    decreases s.len(),
{
    let r = insert_name(s, x);
    if s.len() == 0 {
    } else if lt_chars(x, s[0]) {
        assert forall|i: int, j: int|
            #![trigger r[i], r[j]]
            0 <= i < j < r.len() implies !lt_chars(r[j], r[i]) by {
            assert(r[j] == s[j - 1]);
            if i == 0 {
                if lt_chars(s[j - 1], x) {
                    if j == 1 {
                        lemma_lt_chars_asym(x, s[0]);
                    } else {
                        lemma_lt_chars_trans(s[j - 1], x, s[0]);
                    }
                }
            } else {
                assert(r[i] == s[i - 1]);
            }
        }
        assert forall|m: int| 0 <= m < r.len() implies r[m] == x || s.contains(r[m]) by {
            if m > 0 {
                assert(r[m] == s[m - 1]);
            }
        }
    } else {
        let tail = s.drop_first();
        assert forall|i: int, j: int|
            #![trigger tail[i], tail[j]]
            0 <= i < j < tail.len() implies !lt_chars(tail[j], tail[i]) by {
            assert(tail[i] == s[i + 1]);
            assert(tail[j] == s[j + 1]);
        }
        lemma_insert_name_sorted_keeps(tail, x);
        let sub = insert_name(tail, x);
        assert forall|i: int, j: int|
            #![trigger r[i], r[j]]
            0 <= i < j < r.len() implies !lt_chars(r[j], r[i]) by {
            assert(r[j] == sub[j - 1]);
            if i == 0 {
                assert(r[0] == s[0]);
                if sub[j - 1] == x {
                } else {
                    assert(tail.contains(sub[j - 1]));
                    let k = choose|k: int| 0 <= k < tail.len() && tail[k] == sub[j - 1];
                    assert(tail[k] == s[k + 1]);
                }
            } else {
                assert(r[i] == sub[i - 1]);
            }
        }
        assert forall|m: int| 0 <= m < r.len() implies r[m] == x || s.contains(r[m]) by {
            if m == 0 {
                assert(r[0] == s[0]);
            } else {
                assert(r[m] == sub[m - 1]);
                if sub[m - 1] != x {
                    assert(tail.contains(sub[m - 1]));
                    let k = choose|k: int| 0 <= k < tail.len() && tail[k] == sub[m - 1];
                    assert(tail[k] == s[k + 1]);
                }
            }
        }
    }
}

/// The name sort leaves its result in lexicographic order.
pub proof fn lemma_sort_names_sorted(s: Seq<Seq<char>>)
    ensures
        names_sorted(sort_names(s)),
    decreases s.len(),
{
    if s.len() > 0 {
        lemma_sort_names_sorted(s.drop_last());
        lemma_insert_name_sorted_keeps(sort_names(s.drop_last()), s.last());
    }
}

/// Where one name lands in an already ordered name sequence.
pub open spec fn insert_name(s: Seq<Seq<char>>, x: Seq<char>) -> Seq<Seq<char>>
    decreases s.len(),
{
    if s.len() == 0 {
        seq![x]
    } else if lt_chars(x, s[0]) {
        seq![x] + s
    } else {
        seq![s[0]] + insert_name(s.drop_first(), x)
    }
}

/// The names in lexicographic order, by repeated insertion.
pub open spec fn sort_names(s: Seq<Seq<char>>) -> Seq<Seq<char>>
    decreases s.len(),
{
    if s.len() == 0 {
        Seq::empty()
    } else {
        insert_name(sort_names(s.drop_last()), s.last())
    }
}

/// Skipping a prefix that the inserted name does not precede.
proof fn lemma_insert_name_skip(s: Seq<Seq<char>>, x: Seq<char>, j: int)
    requires
        0 <= j <= s.len(),
        forall|k: int| 0 <= k < j ==> !lt_chars(x, #[trigger] s[k]),
    ensures
        insert_name(s, x) == s.subrange(0, j) + insert_name(s.subrange(j, s.len() as int), x),
    decreases j,
{
    if j == 0 {
        assert(s.subrange(0, s.len() as int) =~= s);
        assert(s.subrange(0, 0) + insert_name(s.subrange(0, s.len() as int), x) =~= insert_name(
            s,
            x,
        ));
    } else {
        assert(!lt_chars(x, s[0]));
        assert(s.drop_first() =~= s.subrange(1, s.len() as int));
        assert forall|k: int| 0 <= k < j - 1 implies !lt_chars(x, #[trigger] s.drop_first()[k]) by {
            assert(s.drop_first()[k] == s[k + 1]);
        }
        lemma_insert_name_skip(s.drop_first(), x, j - 1);
        assert(s.drop_first().subrange(0, j - 1) =~= s.subrange(1, j));
        assert(s.drop_first().subrange(j - 1, s.drop_first().len() as int) =~= s.subrange(
            j,
            s.len() as int,
        ));
        assert(seq![s[0]] + (s.subrange(1, j) + insert_name(s.subrange(j, s.len() as int), x)) =~= s
            .subrange(0, j) + insert_name(s.subrange(j, s.len() as int), x));
    }
}

/// Inserts one name into an ordered vector, keeping the order.
pub fn insert_name_sorted(v: &mut Vec<String>, x: String)
    ensures
        strings_view(final(v)@) == insert_name(strings_view(old(v)@), x@),
{
    let ghost s = strings_view(v@);
    let mut j: usize = 0;
    while j < v.len() && !lt_str(x.as_str(), v[j].as_str())
        invariant
            s == strings_view(v@),
            s.len() == v@.len(),
            j <= v.len(),
            forall|k: int| 0 <= k < j ==> !lt_chars(x@, #[trigger] s[k]),
        decreases v.len() - j,
    {
        proof {
            assert(s[j as int] == v@[j as int]@);
        }
        j = j + 1;
    }
    proof {
        if j < v.len() {
            assert(s[j as int] == v@[j as int]@);
        }
        lemma_insert_name_skip(s, x@, j as int);
    }
    v.insert(j, x);
    proof {
        let tail = s.subrange(j as int, s.len() as int);
        if tail.len() == 0 {
            assert(insert_name(tail, x@) =~= seq![x@]);
        } else {
            assert(lt_chars(x@, tail[0]));
            assert(insert_name(tail, x@) =~= seq![x@] + tail);
        }
        assert(strings_view(final(v)@) =~= s.subrange(0, j as int) + insert_name(tail, x@)) by {
            assert forall|k: int| 0 <= k < final(v)@.len() implies strings_view(final(v)@)[k] == (
            s.subrange(0, j as int) + insert_name(tail, x@))[k] by {
                assert(final(v)@ == old(v)@.insert(j as int, x));
                old(v)@.insert_ensures(j as int, x);
                if k < j {
                    assert(final(v)@[k] == old(v)@[k]);
                } else if k == j {
                    assert(final(v)@[k] == x);
                } else {
                    assert(final(v)@[k] == old(v)@[k - 1]);
                    assert(tail[k - j - 1] == s[k - 1]);
                }
            }
        }
    }
}

/// The names of `v` in lexicographic order.
pub fn sorted_names(v: &Vec<String>) -> (r: Vec<String>)
    ensures
        strings_view(r@) == sort_names(strings_view(v@)),
{
    let ghost s = strings_view(v@);
    let mut r: Vec<String> = Vec::new();
    let mut i: usize = 0;
    proof {
        assert(s.subrange(0, 0) =~= Seq::<Seq<char>>::empty());
        assert(strings_view(r@) =~= Seq::<Seq<char>>::empty());
    }
    while i < v.len()
        invariant
            s == strings_view(v@),
            s.len() == v@.len(),
            i <= v.len(),
            strings_view(r@) == sort_names(s.subrange(0, i as int)),
        decreases v.len() - i,
    {
        let x = v[i].clone();
        proof {
            assert(s[i as int] == v@[i as int]@);
            assert(s.subrange(0, i as int + 1).drop_last() =~= s.subrange(0, i as int));
            assert(s.subrange(0, i as int + 1).last() == s[i as int]);
        }
        insert_name_sorted(&mut r, x);
        i = i + 1;
    }
    proof {
        assert(s.subrange(0, s.len() as int) =~= s);
    }
    r
}

} // verus!
