//! The canonical tree-entry order and a verified insertion sort.
//!
//! Entries sort by name, byte-wise and case-sensitive; a directory's name is
//! compared as if it ended in `/`. Two sorted sequences with the same
//! entries and pairwise distinct sort keys are identical, which is what
//! makes the packed form of a tree canonical.

use vstd::prelude::*;

use crate::objects::{views_of, TreeEntry, TreeEntryView};
use crate::raw::{bytes_le, bytes_le_exec, lemma_bytes_le_total, lemma_bytes_le_trans, push_all};

verus! {

/// The mode code of a directory entry.
pub open spec fn dir_mode() -> u32 {
    40000
}

/// The sort key: the name, with `/` appended for a directory.
pub open spec fn entry_key(e: TreeEntryView) -> Seq<u8> {
    if e.mode == dir_mode() {
        e.name.push(47u8)
    } else {
        e.name
    }
}

pub open spec fn entry_le(a: TreeEntryView, b: TreeEntryView) -> bool {
    bytes_le(entry_key(a), entry_key(b))
}

pub open spec fn sorted_entries(s: Seq<TreeEntryView>) -> bool {
    forall|i: int, j: int| 0 <= i < j < s.len() ==> entry_le(#[trigger] s[i], #[trigger] s[j])
}

pub open spec fn distinct_keys(s: Seq<TreeEntryView>) -> bool {
    forall|i: int, j: int|
        0 <= i < j < s.len() ==> entry_key(#[trigger] s[i]) != entry_key(#[trigger] s[j])
}

pub proof fn lemma_entry_le_total(a: TreeEntryView, b: TreeEntryView)
    ensures
        entry_le(a, b) || entry_le(b, a),
        (entry_le(a, b) && entry_le(b, a)) ==> entry_key(a) == entry_key(b),
{
    lemma_bytes_le_total(entry_key(a), entry_key(b));
}

pub proof fn lemma_entry_le_trans(a: TreeEntryView, b: TreeEntryView, c: TreeEntryView)
    requires
        entry_le(a, b),
        entry_le(b, c),
    ensures
        entry_le(a, c),
{
    lemma_bytes_le_trans(entry_key(a), entry_key(b), entry_key(c));
}

/// The sort key of an entry, as bytes.
fn entry_key_exec(e: &TreeEntry) -> (k: Vec<u8>)
    ensures
        k@ == entry_key(e@),
{
    let mut k: Vec<u8> = Vec::new();
    push_all(&mut k, &e.name);
    proof {
        assert(k@ =~= e.name@);
    }
    if e.mode == 40000 {
        k.push(47);
    }
    k
}

/// Canonical comparison of two entries.
pub fn entry_le_exec(a: &TreeEntry, b: &TreeEntry) -> (r: bool)
    ensures
        r == entry_le(a@, b@),
{
    let ka = entry_key_exec(a);
    let kb = entry_key_exec(b);
    bytes_le_exec(&ka, &kb)
}

/// The position at which `e` belongs in the sorted `out`.
fn find_insert_pos(out: &Vec<TreeEntry>, e: &TreeEntry) -> (pos: usize)
    ensures
        pos <= out@.len(),
        forall|j: int| 0 <= j < pos ==> !entry_le(e@, #[trigger] out@[j]@),
        pos < out@.len() ==> entry_le(e@, out@[pos as int]@),
{
    let mut pos: usize = 0;
    while pos < out.len()
        invariant
            pos <= out@.len(),
            forall|j: int| 0 <= j < pos ==> !entry_le(e@, #[trigger] out@[j]@),
        decreases out@.len() - pos,
    {
        if entry_le_exec(e, &out[pos]) {
            return pos;
        }
        pos += 1;
    }
    pos
}

/// Insert `e` into the sorted `out`, keeping it sorted.
fn insert_sorted(out: &mut Vec<TreeEntry>, e: TreeEntry)
    requires
        sorted_entries(views_of(old(out)@)),
    ensures
        sorted_entries(views_of(final(out)@)),
        views_of(final(out)@).to_multiset() == views_of(old(out)@).to_multiset().insert(e@),
{
    broadcast use vstd::seq_lib::group_to_multiset_ensures;
    broadcast use vstd::multiset::group_multiset_axioms;

    let ghost ov = views_of(out@);
    let pos = find_insert_pos(out, &e);
    let ghost ev = e@;
    out.insert(pos, e);
    proof {
        let nv = views_of(out@);
        assert(nv.len() == ov.len() + 1);
        assert forall|k: int| 0 <= k < nv.len() implies nv[k] == (if k < pos {
            ov[k]
        } else if k == pos {
            ev
        } else {
            ov[k - 1]
        }) by {
            assert(nv[k] == out@[k]@);
        }
        assert forall|i: int, j: int| 0 <= i < j < nv.len() implies entry_le(
            #[trigger] nv[i],
            #[trigger] nv[j],
        ) by {
            if i == pos {
                assert(pos < ov.len());
                assert(entry_le(ev, ov[pos as int]));
                if j - 1 > pos {
                    assert(entry_le(ov[pos as int], ov[j - 1]));
                    lemma_entry_le_trans(ev, ov[pos as int], ov[j - 1]);
                }
            } else if j == pos {
                assert(!entry_le(ev, ov[i]));
                lemma_entry_le_total(ev, ov[i]);
                assert(entry_le(ov[i], ev));
            } else if i < pos && j < pos {
                assert(entry_le(ov[i], ov[j]));
            } else if i < pos && j > pos {
                assert(entry_le(ov[i], ov[j - 1]));
            } else {
                assert(entry_le(ov[i - 1], ov[j - 1]));
            }
        }
        assert(nv.remove(pos as int) =~= ov);
        assert(nv.remove(pos as int).to_multiset() == nv.to_multiset().remove(nv[pos as int]));
        assert(nv[pos as int] == ev);
        assert(nv.contains(ev));
        assert(nv.to_multiset().count(ev) > 0);
        assert(nv.to_multiset() =~= ov.to_multiset().insert(ev));
    }
}

/// Sort the entries into canonical order; the entries themselves are kept,
/// only rearranged.
pub fn sort_entries(v: &mut Vec<TreeEntry>)
    ensures
        sorted_entries(views_of(final(v)@)),
        views_of(final(v)@).to_multiset() == views_of(old(v)@).to_multiset(),
{
    broadcast use vstd::seq_lib::group_to_multiset_ensures;
    broadcast use vstd::multiset::group_multiset_axioms;

    let ghost all = views_of(old(v)@);
    let mut out: Vec<TreeEntry> = Vec::new();
    proof {
        let e0 = views_of(out@);
        assert(e0.len() == 0);
        assert forall|x: TreeEntryView| true implies e0.to_multiset().count(x) == 0 by {
            assert(!e0.contains(x));
        }
        assert(e0.to_multiset().add(views_of(v@).to_multiset()) =~= all.to_multiset());
    }
    while v.len() > 0
        invariant
            sorted_entries(views_of(out@)),
            views_of(out@).to_multiset().add(views_of(v@).to_multiset()) == all.to_multiset(),
        decreases v@.len(),
    {
        let ghost vv = views_of(v@);
        let ghost sv = views_of(out@);
        let e = v.remove(0);
        proof {
            broadcast use vstd::seq_lib::group_to_multiset_ensures;
            broadcast use vstd::multiset::group_multiset_axioms;

            assert(views_of(v@) =~= vv.remove(0));
            assert(vv.remove(0).to_multiset() == vv.to_multiset().remove(vv[0]));
        }
        let ghost ev = e@;
        insert_sorted(&mut out, e);
        proof {
            broadcast use vstd::seq_lib::group_to_multiset_ensures;
            broadcast use vstd::multiset::group_multiset_axioms;

            assert(ev == vv[0]);
            assert(vv.contains(vv[0]));
            assert(vv.to_multiset().count(vv[0]) > 0);
            assert(views_of(out@).to_multiset().add(views_of(v@).to_multiset())
                =~= all.to_multiset());
        }
    }
    proof {
        let rest = views_of(v@);
        assert(rest.len() == 0);
        assert forall|x: TreeEntryView| true implies rest.to_multiset().count(x) == 0 by {
            assert(!rest.contains(x));
        }
        assert(views_of(out@).to_multiset() =~= all.to_multiset());
    }
    *v = out;
}

/// Canonical order is an order on keys: two sorted sequences that hold the
/// same entries, with pairwise distinct keys, are one and the same. Packing
/// the same logical tree twice therefore produces byte-identical output.
pub proof fn lemma_canonical_unique(x: Seq<TreeEntryView>, y: Seq<TreeEntryView>)
    requires
        sorted_entries(x),
        sorted_entries(y),
        distinct_keys(x),
        x.to_multiset() == y.to_multiset(),
    ensures
        x == y,
    decreases x.len(),
{
    broadcast use vstd::seq_lib::group_to_multiset_ensures;
    broadcast use vstd::multiset::group_multiset_axioms;

    if x.len() == 0 {
        assert(y.to_multiset().len() == 0);
        assert(x =~= y);
    } else if y.len() == 0 {
        assert(x.to_multiset().len() == 0);
    } else {
        assert(y.to_multiset().count(y[0]) > 0);
        assert(x.contains(y[0]));
        let i = choose|i: int| 0 <= i < x.len() && x[i] == y[0];
        assert(x.to_multiset().count(x[0]) > 0);
        assert(y.contains(x[0]));
        let j = choose|j: int| 0 <= j < y.len() && y[j] == x[0];
        if i > 0 {
            if j == 0 {
                assert(x[i] == x[0]);
                assert(entry_key(x[0]) == entry_key(x[i]));
            } else {
                assert(entry_le(x[0], x[i]));
                assert(entry_le(y[0], y[j]));
                lemma_entry_le_total(x[0], y[0]);
                assert(entry_key(x[0]) == entry_key(y[0]));
                assert(entry_key(x[i]) == entry_key(x[0]));
            }
            assert(false);
        }
        assert(x[0] == y[0]);
        assert(x.to_multiset().len() == x.len());
        assert(y.to_multiset().len() == y.len());
        assert(x.len() == y.len());
        assert(x.drop_first().to_multiset() == x.to_multiset().remove(x[0])) by {
            assert(x.remove(0) =~= x.drop_first());
        }
        assert(y.drop_first().to_multiset() == y.to_multiset().remove(y[0])) by {
            assert(y.remove(0) =~= y.drop_first());
        }
        assert forall|a: int, b: int|
            0 <= a < b < x.drop_first().len() implies entry_le(
            #[trigger] x.drop_first()[a],
            #[trigger] x.drop_first()[b],
        ) by {
            assert(x.drop_first()[a] == x[a + 1]);
            assert(x.drop_first()[b] == x[b + 1]);
        }
        assert forall|a: int, b: int|
            0 <= a < b < y.drop_first().len() implies entry_le(
            #[trigger] y.drop_first()[a],
            #[trigger] y.drop_first()[b],
        ) by {
            assert(y.drop_first()[a] == y[a + 1]);
            assert(y.drop_first()[b] == y[b + 1]);
        }
        assert forall|a: int, b: int|
            0 <= a < b < x.drop_first().len() implies entry_key(#[trigger] x.drop_first()[a])
            != entry_key(#[trigger] x.drop_first()[b]) by {
            assert(x.drop_first()[a] == x[a + 1]);
            assert(x.drop_first()[b] == x[b + 1]);
        }
        lemma_canonical_unique(x.drop_first(), y.drop_first());
        assert(x =~= y) by {
            assert forall|k: int| 0 <= k < x.len() implies x[k] == y[k] by {
                if k > 0 {
                    assert(x.drop_first()[k - 1] == y.drop_first()[k - 1]);
                }
            }
        }
    }
}

} // verus!
