//! The three object kinds and their canonical packed byte form.
//!
//! Packing is pure: each `pack` returns exactly the bytes that the spec
//! functions here describe. A blob wraps its payload in a `blob`-typed
//! header; a tree wraps the concatenation of its entries, sorted in the
//! canonical order, in a `tree`-typed header; a commit wraps its text body
//! in a `commit`-typed header. Every length field is the canonical decimal
//! of a byte count.

use vstd::prelude::*;

use crate::hexcode::{hex_decode, hex_to_bytes, is_hex_digit, is_hex_lower_seq, is_hex_seq};
use crate::order::{sort_entries, sorted_entries};
use crate::raw::{decimal_bytes, push_all, spec_dec};

verus! {

/// The bytes of the token `blob`.
pub open spec fn lit_blob() -> Seq<u8> {
    seq![98u8, 108u8, 111u8, 98u8]
}

/// The bytes of the token `tree`.
pub open spec fn lit_tree() -> Seq<u8> {
    seq![116u8, 114u8, 101u8, 101u8]
}

/// The bytes of the token `commit`.
pub open spec fn lit_commit() -> Seq<u8> {
    seq![99u8, 111u8, 109u8, 109u8, 105u8, 116u8]
}

/// The bytes of the token `parent`.
pub open spec fn lit_parent() -> Seq<u8> {
    seq![112u8, 97u8, 114u8, 101u8, 110u8, 116u8]
}

/// The bytes of the token `author`.
pub open spec fn lit_author() -> Seq<u8> {
    seq![97u8, 117u8, 116u8, 104u8, 111u8, 114u8]
}

/// The bytes of the token `committer`.
pub open spec fn lit_committer() -> Seq<u8> {
    seq![99u8, 111u8, 109u8, 109u8, 105u8, 116u8, 116u8, 101u8, 114u8]
}

/// An opaque byte payload: verbatim file content.
pub struct BlobObject {
    pub data: Vec<u8>,
}

/// One line of a tree: a mode code, a path segment, and the hex hash of the
/// child object.
pub struct TreeEntry {
    pub mode: u32,
    pub name: Vec<u8>,
    pub sha: Vec<u8>,
}

pub struct TreeEntryView {
    pub mode: u32,
    pub name: Seq<u8>,
    pub sha: Seq<u8>,
}

impl View for TreeEntry {
    type V = TreeEntryView;

    open spec fn view(&self) -> TreeEntryView {
        TreeEntryView { mode: self.mode, name: self.name@, sha: self.sha@ }
    }
}

/// A directory listing; canonical byte form sorts the entries.
pub struct TreeObject {
    pub entries: Vec<TreeEntry>,
}

pub open spec fn views_of(es: Seq<TreeEntry>) -> Seq<TreeEntryView> {
    es.map_values(|e: TreeEntry| e@)
}

/// A snapshot reference with parent linkage and authorship metadata. Dates
/// are seconds since the epoch.
pub struct CommitObject {
    pub tree_hash: Vec<u8>,
    pub parents: Vec<Vec<u8>>,
    pub author_name: Vec<u8>,
    pub author_email: Vec<u8>,
    pub author_date_seconds: u64,
    pub author_date_timezone: Vec<u8>,
    pub committer_name: Vec<u8>,
    pub committer_email: Vec<u8>,
    pub committer_date_seconds: u64,
    pub committer_date_timezone: Vec<u8>,
    pub commit_message: Vec<u8>,
}

pub struct CommitView {
    pub tree_hash: Seq<u8>,
    pub parents: Seq<Seq<u8>>,
    pub author_name: Seq<u8>,
    pub author_email: Seq<u8>,
    pub author_date_seconds: u64,
    pub author_date_timezone: Seq<u8>,
    pub committer_name: Seq<u8>,
    pub committer_email: Seq<u8>,
    pub committer_date_seconds: u64,
    pub committer_date_timezone: Seq<u8>,
    pub commit_message: Seq<u8>,
}

impl View for CommitObject {
    type V = CommitView;

    open spec fn view(&self) -> CommitView {
        CommitView {
            tree_hash: self.tree_hash@,
            parents: self.parents@.map_values(|p: Vec<u8>| p@),
            author_name: self.author_name@,
            author_email: self.author_email@,
            author_date_seconds: self.author_date_seconds,
            author_date_timezone: self.author_date_timezone@,
            committer_name: self.committer_name@,
            committer_email: self.committer_email@,
            committer_date_seconds: self.committer_date_seconds,
            committer_date_timezone: self.committer_date_timezone@,
            commit_message: self.commit_message@,
        }
    }
}

/// The tagged union over the three object kinds.
pub enum GitObject {
    Blob(BlobObject),
    Tree(TreeObject),
    Commit(CommitObject),
}

pub enum GitObjectView {
    Blob(Seq<u8>),
    Tree(Seq<TreeEntryView>),
    Commit(CommitView),
}

impl View for GitObject {
    type V = GitObjectView;

    open spec fn view(&self) -> GitObjectView {
        match self {
            GitObject::Blob(b) => GitObjectView::Blob(b.data@),
            GitObject::Tree(t) => GitObjectView::Tree(views_of(t.entries@)),
            GitObject::Commit(c) => GitObjectView::Commit(c@),
        }
    }
}

/// A tree entry the codec can pack: the hash is 40 lowercase hex digits and
/// the name is free of the entry terminator.
pub open spec fn wf_entry(e: TreeEntryView) -> bool {
    &&& e.sha.len() == 40
    &&& is_hex_lower_seq(e.sha)
    &&& forall|i: int| 0 <= i < e.name.len() ==> e.name[i] != 0u8
}

/// `"blob " ++ decimal(len) ++ NUL ++ payload`.
pub open spec fn spec_pack_blob(data: Seq<u8>) -> Seq<u8> {
    lit_blob() + seq![32u8] + spec_dec(data.len()) + seq![0u8] + data
}

/// `mode ++ SP ++ name ++ NUL ++ 20 raw hash bytes`.
pub open spec fn spec_pack_entry(e: TreeEntryView) -> Seq<u8> {
    spec_dec(e.mode as nat) + seq![32u8] + e.name + seq![0u8] + hex_to_bytes(e.sha)
}

pub open spec fn spec_pack_entries(es: Seq<TreeEntryView>) -> Seq<u8>
    decreases es.len(),
{
    if es.len() == 0 {
        Seq::empty()
    } else {
        spec_pack_entry(es[0]) + spec_pack_entries(es.drop_first())
    }
}

pub proof fn lemma_pack_entries_snoc(es: Seq<TreeEntryView>, e: TreeEntryView)
    ensures
        spec_pack_entries(es.push(e)) == spec_pack_entries(es) + spec_pack_entry(e),
    decreases es.len(),
{
    if es.len() == 0 {
        assert(es.push(e).drop_first() =~= Seq::<TreeEntryView>::empty());
        assert(spec_pack_entries(Seq::<TreeEntryView>::empty()) == Seq::<u8>::empty());
        assert(es.push(e)[0] == e);
        assert(spec_pack_entries(es.push(e)) =~= spec_pack_entries(es) + spec_pack_entry(e));
    } else {
        assert(es.push(e).drop_first() =~= es.drop_first().push(e));
        lemma_pack_entries_snoc(es.drop_first(), e);
        assert(spec_pack_entries(es.push(e)) =~= spec_pack_entries(es) + spec_pack_entry(e));
    }
}

/// `"tree " ++ decimal(len entries bytes) ++ NUL ++ entries bytes`; the
/// entry sequence is already in canonical order when a tree is packed.
pub open spec fn spec_pack_tree(es: Seq<TreeEntryView>) -> Seq<u8> {
    lit_tree() + seq![32u8] + spec_dec(spec_pack_entries(es).len()) + seq![0u8]
        + spec_pack_entries(es)
}

/// `tag ++ SP ++ name ++ SP ++ email ++ SP ++ seconds ++ SP ++ zone ++ LF`.
pub open spec fn spec_ident_line(
    tag: Seq<u8>,
    name: Seq<u8>,
    email: Seq<u8>,
    seconds: u64,
    zone: Seq<u8>,
) -> Seq<u8> {
    tag + seq![32u8] + name + seq![32u8] + email + seq![32u8] + spec_dec(seconds as nat)
        + seq![32u8] + zone + seq![10u8]
}

pub open spec fn spec_parent_lines(ps: Seq<Seq<u8>>) -> Seq<u8>
    decreases ps.len(),
{
    if ps.len() == 0 {
        Seq::empty()
    } else {
        lit_parent() + seq![32u8] + ps[0] + seq![10u8] + spec_parent_lines(ps.drop_first())
    }
}

pub proof fn lemma_parent_lines_snoc(ps: Seq<Seq<u8>>, p: Seq<u8>)
    ensures
        spec_parent_lines(ps.push(p)) == spec_parent_lines(ps) + (lit_parent() + seq![32u8] + p
            + seq![10u8]),
    decreases ps.len(),
{
    if ps.len() == 0 {
        assert(ps.push(p).drop_first() =~= Seq::<Seq<u8>>::empty());
        assert(spec_parent_lines(Seq::<Seq<u8>>::empty()) == Seq::<u8>::empty());
        assert(ps.push(p)[0] == p);
        assert(spec_parent_lines(ps.push(p)) =~= spec_parent_lines(ps) + (lit_parent()
            + seq![32u8] + p + seq![10u8]));
    } else {
        assert(ps.push(p).drop_first() =~= ps.drop_first().push(p));
        lemma_parent_lines_snoc(ps.drop_first(), p);
        assert(spec_parent_lines(ps.push(p)) =~= spec_parent_lines(ps) + (lit_parent()
            + seq![32u8] + p + seq![10u8]));
    }
}

/// The commit body: tree line, parent lines in given order, author and
/// committer lines, blank line, message, final LF.
pub open spec fn spec_commit_body(c: CommitView) -> Seq<u8> {
    lit_tree() + seq![32u8] + c.tree_hash + seq![10u8] + spec_parent_lines(c.parents)
        + spec_ident_line(
        lit_author(),
        c.author_name,
        c.author_email,
        c.author_date_seconds,
        c.author_date_timezone,
    ) + spec_ident_line(
        lit_committer(),
        c.committer_name,
        c.committer_email,
        c.committer_date_seconds,
        c.committer_date_timezone,
    ) + seq![10u8] + c.commit_message + seq![10u8]
}

/// `"commit " ++ decimal(len body) ++ NUL ++ body`.
pub open spec fn spec_pack_commit(c: CommitView) -> Seq<u8> {
    lit_commit() + seq![32u8] + spec_dec(spec_commit_body(c).len()) + seq![0u8]
        + spec_commit_body(c)
}

impl BlobObject {
    /// Canonical packed bytes of a blob.
    pub fn pack(&self) -> (r: Vec<u8>)
        ensures
            r@ == spec_pack_blob(self.data@),
    {
        let mut out: Vec<u8> = Vec::new();
        out.push(98);
        out.push(108);
        out.push(111);
        out.push(98);
        out.push(32);
        let len_bytes = decimal_bytes(self.data.len() as u64);
        push_all(&mut out, &len_bytes);
        out.push(0);
        push_all(&mut out, &self.data);
        proof {
            assert(out@ =~= spec_pack_blob(self.data@));
        }
        out
    }
}

impl TreeEntry {
    /// Canonical packed bytes of one tree entry; the hex hash leaves as 20
    /// raw bytes.
    pub fn pack(&self) -> (r: Vec<u8>)
        requires
            wf_entry(self@),
        ensures
            r@ == spec_pack_entry(self@),
    {
        let mut out = decimal_bytes(self.mode as u64);
        out.push(32);
        push_all(&mut out, &self.name);
        out.push(0);
        proof {
            assert forall|i: int| 0 <= i < self.sha@.len() implies is_hex_digit(
                #[trigger] self.sha@[i],
            ) by {}
            assert(is_hex_seq(self.sha@));
        }
        let raw = hex_decode(&self.sha).unwrap();
        push_all(&mut out, &raw);
        proof {
            assert(out@ =~= spec_pack_entry(self@));
        }
        out
    }
}

impl TreeObject {
    /// Sort the entries into canonical order, then emit the packed tree.
    pub fn pack(&mut self) -> (r: Vec<u8>)
        requires
            forall|i: int|
                0 <= i < old(self).entries@.len() ==> wf_entry(#[trigger] old(self).entries@[i]@),
        ensures
            views_of(final(self).entries@).to_multiset() == views_of(
                old(self).entries@,
            ).to_multiset(),
            sorted_entries(views_of(final(self).entries@)),
            r@ == spec_pack_tree(views_of(final(self).entries@)),
    {
        sort_entries(&mut self.entries);
        proof {
            broadcast use vstd::seq_lib::group_to_multiset_ensures;

            let nv = views_of(self.entries@);
            let ov = views_of(old(self).entries@);
            assert forall|i: int| 0 <= i < nv.len() implies wf_entry(#[trigger] nv[i]) by {
                assert(nv.contains(nv[i]));
                assert(ov.to_multiset().count(nv[i]) > 0);
                assert(ov.contains(nv[i]));
                let j = choose|j: int| 0 <= j < ov.len() && ov[j] == nv[i];
                assert(wf_entry(old(self).entries@[j]@));
            }
        }
        let ghost es = views_of(self.entries@);
        let mut body: Vec<u8> = Vec::new();
        let mut i: usize = 0;
        proof {
            assert(es.subrange(0, 0) =~= Seq::<TreeEntryView>::empty());
        }
        while i < self.entries.len()
            invariant
                i <= self.entries@.len(),
                es == views_of(self.entries@),
                forall|k: int| 0 <= k < es.len() ==> wf_entry(#[trigger] es[k]),
                body@ == spec_pack_entries(es.subrange(0, i as int)),
            decreases self.entries@.len() - i,
        {
            proof {
                assert(es[i as int] == self.entries@[i as int]@);
            }
            let packed = self.entries[i].pack();
            push_all(&mut body, &packed);
            proof {
                assert(es.subrange(0, i + 1) =~= es.subrange(0, i as int).push(es[i as int]));
                lemma_pack_entries_snoc(es.subrange(0, i as int), es[i as int]);
            }
            i += 1;
        }
        proof {
            assert(es.subrange(0, es.len() as int) =~= es);
        }
        let mut out: Vec<u8> = Vec::new();
        out.push(116);
        out.push(114);
        out.push(101);
        out.push(101);
        out.push(32);
        let len_bytes = decimal_bytes(body.len() as u64);
        push_all(&mut out, &len_bytes);
        out.push(0);
        push_all(&mut out, &body);
        proof {
            assert(out@ =~= spec_pack_tree(es));
        }
        out
    }
}

impl CommitObject {
    /// Canonical packed bytes of a commit.
    pub fn pack(&self) -> (r: Vec<u8>)
        ensures
            r@ == spec_pack_commit(self@),
    {
        let mut body: Vec<u8> = Vec::new();
        body.push(116);
        body.push(114);
        body.push(101);
        body.push(101);
        body.push(32);
        push_all(&mut body, &self.tree_hash);
        body.push(10);
        let ghost parents_v = self@.parents;
        let mut p: usize = 0;
        proof {
            assert(parents_v.subrange(0, 0) =~= Seq::<Seq<u8>>::empty());
            assert(body@ =~= lit_tree() + seq![32u8] + self.tree_hash@ + seq![10u8]
                + spec_parent_lines(parents_v.subrange(0, 0)));
        }
        while p < self.parents.len()
            invariant
                p <= self.parents@.len(),
                parents_v == self@.parents,
                parents_v.len() == self.parents@.len(),
                forall|k: int| 0 <= k < parents_v.len() ==> parents_v[k] == self.parents@[k]@,
                body@ == lit_tree() + seq![32u8] + self.tree_hash@ + seq![10u8]
                    + spec_parent_lines(parents_v.subrange(0, p as int)),
            decreases self.parents@.len() - p,
        {
            body.push(112);
            body.push(97);
            body.push(114);
            body.push(101);
            body.push(110);
            body.push(116);
            body.push(32);
            push_all(&mut body, &self.parents[p]);
            body.push(10);
            proof {
                assert(parents_v.subrange(0, p + 1) =~= parents_v.subrange(0, p as int).push(
                    parents_v[p as int],
                ));
                lemma_parent_lines_snoc(parents_v.subrange(0, p as int), parents_v[p as int]);
                assert(body@ =~= lit_tree() + seq![32u8] + self.tree_hash@ + seq![10u8]
                    + spec_parent_lines(parents_v.subrange(0, p + 1)));
            }
            p += 1;
        }
        proof {
            assert(parents_v.subrange(0, parents_v.len() as int) =~= parents_v);
        }
        push_ident_line(
            &mut body,
            false,
            &self.author_name,
            &self.author_email,
            self.author_date_seconds,
            &self.author_date_timezone,
        );
        push_ident_line(
            &mut body,
            true,
            &self.committer_name,
            &self.committer_email,
            self.committer_date_seconds,
            &self.committer_date_timezone,
        );
        body.push(10);
        push_all(&mut body, &self.commit_message);
        body.push(10);
        proof {
            assert(body@ =~= spec_commit_body(self@));
        }
        let mut out: Vec<u8> = Vec::new();
        out.push(99);
        out.push(111);
        out.push(109);
        out.push(109);
        out.push(105);
        out.push(116);
        out.push(32);
        let len_bytes = decimal_bytes(body.len() as u64);
        push_all(&mut out, &len_bytes);
        out.push(0);
        push_all(&mut out, &body);
        proof {
            assert(out@ =~= spec_pack_commit(self@));
        }
        out
    }

}

/// Append one author or committer line.
fn push_ident_line(
    body: &mut Vec<u8>,
    committer: bool,
    name: &Vec<u8>,
    email: &Vec<u8>,
    seconds: u64,
    zone: &Vec<u8>,
)
    ensures
        final(body)@ == old(body)@ + spec_ident_line(
            if committer {
                lit_committer()
            } else {
                lit_author()
            },
            name@,
            email@,
            seconds,
            zone@,
        ),
{
    if committer {
        body.push(99);
        body.push(111);
        body.push(109);
        body.push(109);
        body.push(105);
        body.push(116);
        body.push(116);
        body.push(101);
        body.push(114);
    } else {
        body.push(97);
        body.push(117);
        body.push(116);
        body.push(104);
        body.push(111);
        body.push(114);
    }
    body.push(32);
    push_all(body, name);
    body.push(32);
    push_all(body, email);
    body.push(32);
    let secs = decimal_bytes(seconds);
    push_all(body, &secs);
    body.push(32);
    push_all(body, zone);
    body.push(10);
    proof {
        assert(body@ =~= old(body)@ + spec_ident_line(
            if committer {
                lit_committer()
            } else {
                lit_author()
            },
            name@,
            email@,
            seconds,
            zone@,
        ));
    }
}

} // verus!
