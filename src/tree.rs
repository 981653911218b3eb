use vstd::prelude::*;

use crate::object::{entry_views, TreeEntry, TreeEntryView};

verus! {

/// Byte-wise lexicographic order: `a` sorts strictly before `b`.
pub open spec fn lex_lt(a: Seq<u8>, b: Seq<u8>) -> bool
    decreases a.len(),
{
    if a.len() == 0 {
        b.len() > 0
    } else if b.len() == 0 {
        false
    } else if a[0] != b[0] {
        a[0] < b[0]
    } else {
        lex_lt(a.drop_first(), b.drop_first())
    }
}

/// Entry names strictly increase, so no name occurs twice.
pub open spec fn names_sorted(es: Seq<TreeEntryView>) -> bool {
    forall|i: int, j: int| 0 <= i < j < es.len() ==> lex_lt(es[i].1, es[j].1)
}

pub proof fn lemma_lex_trans(a: Seq<u8>, b: Seq<u8>, c: Seq<u8>)
    requires
        lex_lt(a, b),
        lex_lt(b, c),
    ensures
        lex_lt(a, c),
    decreases a.len(),
{
    if a.len() > 0 && b.len() > 0 && c.len() > 0 && a[0] == b[0] && b[0] == c[0] {
        lemma_lex_trans(a.drop_first(), b.drop_first(), c.drop_first());
    }
}

pub proof fn lemma_lex_total(a: Seq<u8>, b: Seq<u8>)
    ensures
        lex_lt(a, b) || lex_lt(b, a) || a == b,
    decreases a.len(),
{
    if a.len() > 0 && b.len() > 0 && a[0] == b[0] {
        lemma_lex_total(a.drop_first(), b.drop_first());
        if a.drop_first() == b.drop_first() {
            assert(a =~= seq![a[0]] + a.drop_first());
            assert(b =~= seq![b[0]] + b.drop_first());
        }
    } else if a.len() == 0 && b.len() == 0 {
        assert(a =~= b);
    }
}

pub proof fn lemma_lex_irrefl(a: Seq<u8>)
    ensures
        !lex_lt(a, a),
    decreases a.len(),
{
    if a.len() > 0 {
        lemma_lex_irrefl(a.drop_first());
    }
}

/// Whether name `a` sorts strictly before name `b`.
pub fn name_lt(a: &[u8], b: &[u8]) -> (r: bool)
    ensures
        r == lex_lt(a@, b@),
{
    let mut i: usize = 0;
    assert(a@.skip(0) =~= a@);
    assert(b@.skip(0) =~= b@);
    while i < a.len() && i < b.len()
        invariant
            i <= a@.len(),
            i <= b@.len(),
            lex_lt(a@, b@) == lex_lt(a@.skip(i as int), b@.skip(i as int)),
        decreases a@.len() - i,
    {
        assert(a@.skip(i as int).drop_first() =~= a@.skip(i + 1));
        assert(b@.skip(i as int).drop_first() =~= b@.skip(i + 1));
        if a[i] != b[i] {
            return a[i] < b[i];
        }
        i += 1;
    }
    assert(a@.skip(i as int).len() == a@.len() - i);
    assert(b@.skip(i as int).len() == b@.len() - i);
    if i == a.len() {
        assert(lex_lt(a@.skip(i as int), b@.skip(i as int)) == (b@.skip(i as int).len() > 0));
    } else {
        assert(b@.skip(i as int).len() == 0);
        assert(!lex_lt(a@.skip(i as int), b@.skip(i as int)));
    }
    i == a.len() && i < b.len()
}

/// Adds `e` to a tree's entries kept in name order; an entry of the same
/// name is replaced.
pub fn insert_entry(entries: &mut Vec<TreeEntry>, e: TreeEntry)
    requires
        names_sorted(entry_views(old(entries)@)),
    ensures
        names_sorted(entry_views(final(entries)@)),
        (exists|i: int|
            0 <= i < old(entries)@.len() && old(entries)@[i].filename@ == e.filename@)
            ==> (exists|i: int|
            0 <= i < old(entries)@.len() && entry_views(final(entries)@) == entry_views(
                old(entries)@,
            ).update(i, e@)),
        (forall|i: int|
            0 <= i < old(entries)@.len() ==> old(entries)@[i].filename@ != e.filename@) ==> (exists|
            i: int,
        |
            0 <= i <= old(entries)@.len() && entry_views(final(entries)@) == entry_views(
                old(entries)@,
            ).insert(i, e@)),
{
    let ghost old_v = entry_views(entries@);
    let mut j: usize = 0;
    while j < entries.len() && name_lt(entries[j].filename.as_slice(), e.filename.as_slice())
        invariant
            j <= entries@.len(),
            entries@ == old(entries)@,
            old_v == entry_views(entries@),
            forall|k: int| 0 <= k < j ==> lex_lt(old_v[k].1, e@.1),
        decreases entries@.len() - j,
    {
        j += 1;
    }
    proof {
        if j < entries@.len() {
            lemma_lex_total(old_v[j as int].1, e@.1);
            assert forall|k: int| j < k < old_v.len() implies lex_lt(e@.1, old_v[k].1) by {
                assert(lex_lt(old_v[j as int].1, old_v[k].1));
                if old_v[j as int].1 != e@.1 {
                    lemma_lex_trans(e@.1, old_v[j as int].1, old_v[k].1);
                }
            }
        }
        assert forall|k: int| 0 <= k < old_v.len() && old_v[k].1 == e@.1 implies k == j by {
            lemma_lex_irrefl(e@.1);
            if k < j {
            } else if k > j {
                lemma_lex_total(old_v[j as int].1, e@.1);
                assert(lex_lt(old_v[j as int].1, old_v[k].1));
                if old_v[j as int].1 != e@.1 {
                    lemma_lex_trans(e@.1, old_v[j as int].1, old_v[k].1);
                } else {
                    lemma_lex_irrefl(old_v[k].1);
                }
            }
        }
    }
    if j < entries.len() && !name_lt(e.filename.as_slice(), entries[j].filename.as_slice()) {
        proof {
            lemma_lex_total(old_v[j as int].1, e@.1);
        }
        let ghost ev = e@;
        entries.set(j, e);
        proof {
            assert(entry_views(entries@) =~= old_v.update(j as int, ev));
            assert(entry_views(entries@) == entry_views(old(entries)@).update(j as int, ev));
            let nv = entry_views(entries@);
            assert forall|a: int, b: int| 0 <= a < b < nv.len() implies lex_lt(nv[a].1, nv[b].1) by {
                if a == j as int || b == j as int {
                } else {
                }
            }
        }
    } else {
        let ghost ev = e@;
        entries.insert(j, e);
        proof {
            assert(entry_views(entries@) =~= old_v.insert(j as int, ev));
            assert(entry_views(entries@) == entry_views(old(entries)@).insert(j as int, ev));
            lemma_lex_irrefl(ev.1);
            assert forall|k: int| 0 <= k < old(entries)@.len() implies old(entries)@[k].filename@ != ev.1 by {
                assert(old_v[k] == old(entries)@[k]@);
                if k == j as int {
                    assert(lex_lt(ev.1, old_v[k].1));
                }
            }
            let nv = entry_views(entries@);
            assert forall|a: int, b: int| 0 <= a < b < nv.len() implies lex_lt(nv[a].1, nv[b].1) by {
                if a < j && b < j {
                    assert(nv[a] == old_v[a] && nv[b] == old_v[b]);
                } else if a < j && b == j {
                } else if a < j && b > j {
                    assert(nv[a] == old_v[a] && nv[b] == old_v[b - 1]);
                    lemma_lex_trans(old_v[a].1, ev.1, old_v[b - 1].1);
                } else if a == j {
                    assert(nv[b] == old_v[b - 1]);
                } else {
                    assert(nv[a] == old_v[a - 1] && nv[b] == old_v[b - 1]);
                }
            }
        }
    }
}

} // verus!
