//! Parsing packed bytes back into objects.
//!
//! `spec_parse_object` is the reference reading of the packed grammar: a
//! type token up to the first space, a decimal size up to the NUL, then a
//! payload whose shape the type decides. The executable parser returns
//! exactly what the spec parser says, and the lemmas at the end state the
//! round trip: parsing what `pack` produced gives the packed object back.
//!
//! A commit body is never decoded: packing commits is supported, parsing
//! them answers `NotImplemented`.

use vstd::prelude::*;

use crate::hexcode::{bytes_to_hex, hex_encode, lemma_bytes_to_hex_props, lemma_hex_to_bytes_to_hex};
use crate::objects::{
    lit_blob, lit_commit, lit_tree, spec_pack_blob, spec_pack_entries, spec_pack_entry,
    spec_pack_tree, views_of, wf_entry, BlobObject, GitObject, GitObjectView, TreeEntry,
    TreeEntryView, TreeObject,
};
use crate::raw::{
    copy_range, digits_val, find_byte, is_digit, is_digit_seq, lemma_find_byte_first,
    lemma_find_byte_spec, lemma_spec_dec_digits, parse_decimal, scan_byte, spec_dec,
};

verus! {

/// Why packed bytes were rejected.
///
/// `UnsupportedObjectType`: the type token is not `blob`, `tree` or
/// `commit` (or there is no token). `MalformedHeader`: a size or mode
/// field is empty, non-numeric or out of range. `SizeMismatch`: a blob
/// payload differs in length from the declared size. `TruncatedTree`: the
/// entry section does not consist of whole entries filling the declared
/// size. `NotImplemented`: a commit body, which only packing supports.
#[derive(Clone, Copy, PartialEq, Eq, Debug, Structural)]
pub enum ParseError {
    UnsupportedObjectType,
    MalformedHeader,
    SizeMismatch,
    TruncatedTree,
    NotImplemented,
}

/// The reference reading of a tree's entry section: whole entries, one
/// after the other, to the exact end.
pub open spec fn spec_parse_entries(body: Seq<u8>) -> Result<Seq<TreeEntryView>, ParseError>
    decreases body.len(),
    via spec_parse_entries_dec
{
    if body.len() == 0 {
        Ok(Seq::empty())
    } else {
        match find_byte(body, 32) {
            None => Err(ParseError::TruncatedTree),
            Some(i) => {
                let mode_tok = body.subrange(0, i);
                if !(mode_tok.len() > 0 && is_digit_seq(mode_tok) && digits_val(mode_tok)
                    <= u32::MAX) {
                    Err(ParseError::MalformedHeader)
                } else {
                    let rest = body.skip(i + 1);
                    match find_byte(rest, 0) {
                        None => Err(ParseError::TruncatedTree),
                        Some(j) => {
                            let name = rest.subrange(0, j);
                            let after = rest.skip(j + 1);
                            if after.len() < 20 {
                                Err(ParseError::TruncatedTree)
                            } else {
                                let entry = TreeEntryView {
                                    mode: digits_val(mode_tok) as u32,
                                    name: name,
                                    sha: bytes_to_hex(after.subrange(0, 20)),
                                };
                                match spec_parse_entries(after.skip(20)) {
                                    Ok(es) => Ok(seq![entry] + es),
                                    Err(e) => Err(e),
                                }
                            }
                        },
                    }
                }
            },
        }
    }
}

#[via_fn]
proof fn spec_parse_entries_dec(body: Seq<u8>) {
    if body.len() > 0 {
        lemma_find_byte_spec(body, 32);
        match find_byte(body, 32) {
            None => {},
            Some(i) => {
                let rest = body.skip(i + 1);
                lemma_find_byte_spec(rest, 0);
            },
        }
    }
}

/// The reference reading of packed bytes.
pub open spec fn spec_parse_object(s: Seq<u8>) -> Result<GitObjectView, ParseError> {
    match find_byte(s, 32) {
        None => Err(ParseError::UnsupportedObjectType),
        Some(i) => {
            let tok = s.subrange(0, i);
            if tok != lit_blob() && tok != lit_tree() && tok != lit_commit() {
                Err(ParseError::UnsupportedObjectType)
            } else {
                let rest = s.skip(i + 1);
                match find_byte(rest, 0) {
                    None => Err(ParseError::MalformedHeader),
                    Some(j) => {
                        let size_tok = rest.subrange(0, j);
                        if !(size_tok.len() > 0 && is_digit_seq(size_tok) && digits_val(size_tok)
                            <= usize::MAX) {
                            Err(ParseError::MalformedHeader)
                        } else {
                            let n = digits_val(size_tok);
                            let body = rest.skip(j + 1);
                            if tok == lit_commit() {
                                Err(ParseError::NotImplemented)
                            } else if tok == lit_blob() {
                                if body.len() == n {
                                    Ok(GitObjectView::Blob(body))
                                } else {
                                    Err(ParseError::SizeMismatch)
                                }
                            } else {
                                if body.len() != n {
                                    Err(ParseError::TruncatedTree)
                                } else {
                                    match spec_parse_entries(body) {
                                        Ok(es) => Ok(GitObjectView::Tree(es)),
                                        Err(e) => Err(e),
                                    }
                                }
                            }
                        }
                    },
                }
            }
        },
    }
}

enum TokenKind {
    Blob,
    Tree,
    Commit,
    Other,
}

/// Which object-kind token stands in `bytes[0..end]`.
fn token_kind(bytes: &Vec<u8>, end: usize) -> (k: TokenKind)
    requires
        end <= bytes@.len(),
    ensures
        ({
            let tok = bytes@.subrange(0, end as int);
            &&& (k is Blob) <==> tok == lit_blob()
            &&& (k is Tree) <==> tok == lit_tree()
            &&& (k is Commit) <==> tok == lit_commit()
        }),
{
    let ghost tok = bytes@.subrange(0, end as int);
    if end == 4 {
        if bytes[0] == 98 && bytes[1] == 108 && bytes[2] == 111 && bytes[3] == 98 {
            proof {
                assert(tok =~= lit_blob());
                assert(lit_tree()[0] == 116);
                assert(lit_commit().len() == 6);
            }
            return TokenKind::Blob;
        }
        if bytes[0] == 116 && bytes[1] == 114 && bytes[2] == 101 && bytes[3] == 101 {
            proof {
                assert(tok =~= lit_tree());
                assert(lit_blob()[0] == 98);
                assert(lit_commit().len() == 6);
            }
            return TokenKind::Tree;
        }
    } else if end == 6 {
        if bytes[0] == 99 && bytes[1] == 111 && bytes[2] == 109 && bytes[3] == 109 && bytes[4]
            == 105 && bytes[5] == 116 {
            proof {
                assert(tok =~= lit_commit());
                assert(lit_blob().len() == 4);
                assert(lit_tree().len() == 4);
            }
            return TokenKind::Commit;
        }
    }
    proof {
        if tok == lit_blob() {
            assert(tok.len() == 4);
            assert(tok[0] == 98 && tok[1] == 108 && tok[2] == 111 && tok[3] == 98);
            assert(bytes@[0] == 98 && bytes@[1] == 108 && bytes@[2] == 111 && bytes@[3] == 98);
            assert(false);
        }
        if tok == lit_tree() {
            assert(tok.len() == 4);
            assert(tok[0] == 116 && tok[1] == 114 && tok[2] == 101 && tok[3] == 101);
            assert(bytes@[0] == 116 && bytes@[1] == 114 && bytes@[2] == 101 && bytes@[3] == 101);
            assert(false);
        }
        if tok == lit_commit() {
            assert(tok.len() == 6);
            assert(tok[0] == 99 && tok[1] == 111 && tok[2] == 109 && tok[3] == 109 && tok[4]
                == 105 && tok[5] == 116);
            assert(bytes@[0] == 99 && bytes@[1] == 111 && bytes@[2] == 109 && bytes@[3] == 109
                && bytes@[4] == 105 && bytes@[5] == 116);
            assert(false);
        }
    }
    TokenKind::Other
}

/// Parse the entry records standing at `bytes[pos..]`, to the exact end.
fn parse_entries(bytes: &Vec<u8>, pos: usize) -> (r: Result<Vec<TreeEntry>, ParseError>)
    requires
        pos <= bytes@.len(),
    ensures
        ({
            let sp = spec_parse_entries(bytes@.skip(pos as int));
            match r {
                Ok(es) => sp == Ok::<Seq<TreeEntryView>, ParseError>(views_of(es@)),
                Err(e) => sp == Err::<Seq<TreeEntryView>, ParseError>(e),
            }
        }),
    decreases bytes@.len() - pos,
{
    let ghost body = bytes@.skip(pos as int);
    if pos == bytes.len() {
        proof {
            assert(body =~= Seq::<u8>::empty());
            assert(views_of(Seq::<TreeEntry>::empty()) =~= Seq::<TreeEntryView>::empty());
        }
        return Ok(Vec::new());
    }
    proof {
        assert(body == bytes@.subrange(pos as int, bytes@.len() as int));
    }
    let sp_pos = match scan_byte(bytes, pos, 32) {
        Some(i) => i,
        None => {
            return Err(ParseError::TruncatedTree);
        },
    };
    let ghost i_rel = sp_pos - pos;
    proof {
        assert(find_byte(body, 32) == Some(i_rel));
        assert(body.subrange(0, i_rel) =~= bytes@.subrange(pos as int, sp_pos as int));
    }
    let mode_val = match parse_decimal(bytes, pos, sp_pos) {
        Some(v) => v,
        None => {
            return Err(ParseError::MalformedHeader);
        },
    };
    if mode_val > 4294967295 {
        proof {
            assert(digits_val(body.subrange(0, i_rel)) > u32::MAX);
        }
        return Err(ParseError::MalformedHeader);
    }
    let ghost rest = body.skip(i_rel + 1);
    proof {
        assert(rest =~= bytes@.subrange(sp_pos + 1, bytes@.len() as int));
    }
    let nul_pos = match scan_byte(bytes, sp_pos + 1, 0) {
        Some(j) => j,
        None => {
            return Err(ParseError::TruncatedTree);
        },
    };
    let ghost j_rel = nul_pos - (sp_pos + 1);
    proof {
        assert(find_byte(rest, 0) == Some(j_rel));
    }
    let name = copy_range(bytes, sp_pos + 1, nul_pos);
    proof {
        assert(name@ =~= rest.subrange(0, j_rel));
    }
    let ghost after = rest.skip(j_rel + 1);
    proof {
        assert(after =~= bytes@.subrange(nul_pos + 1, bytes@.len() as int));
        assert(after.len() == bytes@.len() - (nul_pos + 1));
    }
    if bytes.len() - (nul_pos + 1) < 20 {
        return Err(ParseError::TruncatedTree);
    }
    let sha_raw = copy_range(bytes, nul_pos + 1, nul_pos + 21);
    let sha = hex_encode(&sha_raw);
    proof {
        assert(sha_raw@ =~= after.subrange(0, 20));
    }
    let entry = TreeEntry { mode: mode_val as u32, name, sha };
    let mut rest_entries = match parse_entries(bytes, nul_pos + 21) {
        Ok(es) => es,
        Err(e) => {
            proof {
                assert(after.skip(20) =~= bytes@.skip(nul_pos + 21));
            }
            return Err(e);
        },
    };
    let ghost tail_views = views_of(rest_entries@);
    rest_entries.insert(0, entry);
    proof {
        assert(after.skip(20) =~= bytes@.skip(nul_pos + 21));
        let ev = TreeEntryView {
            mode: digits_val(body.subrange(0, i_rel)) as u32,
            name: rest.subrange(0, j_rel),
            sha: bytes_to_hex(after.subrange(0, 20)),
        };
        assert(entry@ == ev);
        assert(views_of(rest_entries@) =~= seq![ev] + tail_views);
    }
    Ok(rest_entries)
}

/// Parse packed bytes into an object; the result is exactly what the
/// reference reading `spec_parse_object` gives.
pub fn parse_object(bytes: &Vec<u8>) -> (r: Result<GitObject, ParseError>)
    ensures
        r matches Ok(o) ==> spec_parse_object(bytes@) == Ok::<GitObjectView, ParseError>(o@),
        r matches Err(e) ==> spec_parse_object(bytes@) == Err::<GitObjectView, ParseError>(e),
{
    let blen = bytes.len();
    proof {
        assert(bytes@.len() == blen);
        assert(bytes@.subrange(0, bytes@.len() as int) =~= bytes@);
    }
    let sp_pos = match scan_byte(bytes, 0, 32) {
        Some(i) => i,
        None => {
            return Err(ParseError::UnsupportedObjectType);
        },
    };
    let kind = token_kind(bytes, sp_pos);
    if let TokenKind::Other = kind {
        return Err(ParseError::UnsupportedObjectType);
    }
    let ghost rest = bytes@.skip(sp_pos + 1);
    proof {
        assert(rest =~= bytes@.subrange(sp_pos + 1, bytes@.len() as int));
    }
    let nul_pos = match scan_byte(bytes, sp_pos + 1, 0) {
        Some(j) => j,
        None => {
            return Err(ParseError::MalformedHeader);
        },
    };
    let ghost j_rel = nul_pos - (sp_pos + 1);
    proof {
        assert(find_byte(rest, 0) == Some(j_rel));
        assert(bytes@.subrange(sp_pos + 1, nul_pos as int) =~= rest.subrange(0, j_rel));
    }
    let size = match parse_decimal(bytes, sp_pos + 1, nul_pos) {
        Some(v) => v,
        None => {
            return Err(ParseError::MalformedHeader);
        },
    };
    let body_start = nul_pos + 1;
    let ghost body = rest.skip(j_rel + 1);
    proof {
        assert(body =~= bytes@.subrange(body_start as int, bytes@.len() as int));
        assert(body.len() == bytes@.len() - body_start);
    }
    match kind {
        TokenKind::Commit => Err(ParseError::NotImplemented),
        TokenKind::Blob => {
            if bytes.len() - body_start == size {
                let data = copy_range(bytes, body_start, bytes.len());
                proof {
                    assert(data@ =~= body);
                }
                Ok(GitObject::Blob(BlobObject { data }))
            } else {
                Err(ParseError::SizeMismatch)
            }
        },
        TokenKind::Tree => {
            if bytes.len() - body_start != size {
                return Err(ParseError::TruncatedTree);
            }
            proof {
                assert(body =~= bytes@.skip(body_start as int));
            }
            match parse_entries(bytes, body_start) {
                Ok(es) => Ok(GitObject::Tree(TreeObject { entries: es })),
                Err(e) => Err(e),
            }
        },
        TokenKind::Other => {
            proof {
                assert(false);
            }
            Err(ParseError::UnsupportedObjectType)
        },
    }
}

/// Common structure of a packed header: the first space ends the type
/// token, the first NUL ends the digit run, and the payload follows.
proof fn lemma_header_shape(lit: Seq<u8>, t: Seq<u8>, p: Seq<u8>)
    requires
        forall|k: int| 0 <= k < lit.len() ==> lit[k] != 32 && lit[k] != 0,
        t.len() > 0,
        is_digit_seq(t),
    ensures
        ({
            let s = lit + seq![32u8] + t + seq![0u8] + p;
            &&& find_byte(s, 32) == Some(lit.len() as int)
            &&& s.subrange(0, lit.len() as int) == lit
            &&& s.skip(lit.len() as int + 1) == t + seq![0u8] + p
            &&& find_byte(t + seq![0u8] + p, 0) == Some(t.len() as int)
            &&& (t + seq![0u8] + p).subrange(0, t.len() as int) == t
            &&& (t + seq![0u8] + p).skip(t.len() as int + 1) == p
        }),
{
    let s = lit + seq![32u8] + t + seq![0u8] + p;
    let rest = t + seq![0u8] + p;
    assert(s[lit.len() as int] == 32);
    assert forall|k: int| 0 <= k < lit.len() implies s[k] != 32 by {
        assert(s[k] == lit[k]);
    }
    lemma_find_byte_first(s, 32, lit.len() as int);
    assert(s.subrange(0, lit.len() as int) =~= lit);
    assert(s.skip(lit.len() as int + 1) =~= rest);
    assert(rest[t.len() as int] == 0);
    assert forall|k: int| 0 <= k < t.len() implies rest[k] != 0 by {
        assert(rest[k] == t[k]);
        assert(is_digit(t[k]));
    }
    lemma_find_byte_first(rest, 0, t.len() as int);
    assert(rest.subrange(0, t.len() as int) =~= t);
    assert(rest.skip(t.len() as int + 1) =~= p);
}

proof fn lemma_lits_differ()
    ensures
        lit_blob() != lit_tree(),
        lit_blob() != lit_commit(),
        lit_tree() != lit_commit(),
        forall|k: int| 0 <= k < lit_blob().len() ==> lit_blob()[k] != 32 && lit_blob()[k] != 0,
        forall|k: int| 0 <= k < lit_tree().len() ==> lit_tree()[k] != 32 && lit_tree()[k] != 0,
        forall|k: int| 0 <= k < lit_commit().len() ==> lit_commit()[k] != 32 && lit_commit()[k]
            != 0,
{
    assert(lit_blob()[0] == 98);
    assert(lit_tree()[0] == 116);
    assert(lit_blob().len() == 4);
    assert(lit_commit().len() == 6);
    assert(lit_tree().len() == 4);
}

/// Round trip for blobs: parsing a packed blob gives the payload back.
pub proof fn lemma_blob_round_trip(p: Seq<u8>)
    requires
        p.len() <= usize::MAX,
    ensures
        spec_parse_object(spec_pack_blob(p)) == Ok::<GitObjectView, ParseError>(
            GitObjectView::Blob(p),
        ),
{
    let t = spec_dec(p.len());
    lemma_spec_dec_digits(p.len());
    lemma_lits_differ();
    let s = lit_blob() + seq![32u8] + t + seq![0u8] + p;
    assert(spec_pack_blob(p) =~= s);
    lemma_header_shape(lit_blob(), t, p);
}

/// A declared blob length that is not the payload's length is rejected as a
/// size mismatch, whatever digits declared it.
pub proof fn lemma_blob_size_mismatch(t: Seq<u8>, p: Seq<u8>)
    requires
        t.len() > 0,
        is_digit_seq(t),
        digits_val(t) <= usize::MAX,
        digits_val(t) != p.len(),
    ensures
        spec_parse_object(lit_blob() + seq![32u8] + t + seq![0u8] + p) == Err::<
            GitObjectView,
            ParseError,
        >(ParseError::SizeMismatch),
{
    lemma_lits_differ();
    lemma_header_shape(lit_blob(), t, p);
}

/// Round trip for one run of packed entries.
proof fn lemma_entries_round_trip(es: Seq<TreeEntryView>)
    requires
        forall|k: int| 0 <= k < es.len() ==> wf_entry(#[trigger] es[k]),
    ensures
        spec_parse_entries(spec_pack_entries(es)) == Ok::<Seq<TreeEntryView>, ParseError>(es),
    decreases es.len(),
{
    if es.len() == 0 {
        assert(spec_parse_entries(spec_pack_entries(es)) == Ok::<Seq<TreeEntryView>, ParseError>(
            Seq::empty(),
        ));
        assert(es =~= Seq::<TreeEntryView>::empty());
    } else {
        let e = es[0];
        let t = spec_dec(e.mode as nat);
        lemma_spec_dec_digits(e.mode as nat);
        let raw = crate::hexcode::hex_to_bytes(e.sha);
        lemma_bytes_to_hex_props(raw);
        lemma_hex_to_bytes_to_hex(e.sha);
        let tail = spec_pack_entries(es.drop_first());
        let p = e.name + seq![0u8] + raw + tail;
        let body = t + seq![32u8] + p;
        assert(spec_pack_entries(es) =~= body) by {
            assert(spec_pack_entries(es) == spec_pack_entry(e) + tail);
        }
        assert(body[t.len() as int] == 32);
        assert forall|k: int| 0 <= k < t.len() implies body[k] != 32 by {
            assert(body[k] == t[k]);
            assert(is_digit(t[k]));
        }
        lemma_find_byte_first(body, 32, t.len() as int);
        assert(body.subrange(0, t.len() as int) =~= t);
        let rest = body.skip(t.len() as int + 1);
        assert(rest =~= e.name + seq![0u8] + (raw + tail));
        assert(rest[e.name.len() as int] == 0);
        assert forall|k: int| 0 <= k < e.name.len() implies rest[k] != 0 by {
            assert(rest[k] == e.name[k]);
        }
        lemma_find_byte_first(rest, 0, e.name.len() as int);
        assert(rest.subrange(0, e.name.len() as int) =~= e.name);
        let after = rest.skip(e.name.len() as int + 1);
        assert(after =~= raw + tail);
        assert(raw.len() == 20) by {
            assert(e.sha.len() == 40);
        }
        assert(after.subrange(0, 20) =~= raw);
        assert(after.skip(20) =~= tail);
        assert(digits_val(t) == e.mode as nat);
        assert forall|k: int| 0 <= k < es.drop_first().len() implies wf_entry(
            #[trigger] es.drop_first()[k],
        ) by {
            assert(es.drop_first()[k] == es[k + 1]);
        }
        lemma_entries_round_trip(es.drop_first());
        let parsed = TreeEntryView {
            mode: digits_val(t) as u32,
            name: rest.subrange(0, e.name.len() as int),
            sha: bytes_to_hex(after.subrange(0, 20)),
        };
        assert(parsed.sha == e.sha);
        assert(parsed == e);
        assert(seq![e] + es.drop_first() =~= es);
    }
}

/// Round trip for trees: parsing a packed tree gives the entries back, in
/// the order they were packed.
pub proof fn lemma_tree_round_trip(es: Seq<TreeEntryView>)
    requires
        forall|k: int| 0 <= k < es.len() ==> wf_entry(#[trigger] es[k]),
        spec_pack_entries(es).len() <= usize::MAX,
    ensures
        spec_parse_object(spec_pack_tree(es)) == Ok::<GitObjectView, ParseError>(
            GitObjectView::Tree(es),
        ),
{
    let b = spec_pack_entries(es);
    let t = spec_dec(b.len());
    lemma_spec_dec_digits(b.len());
    lemma_lits_differ();
    let s = lit_tree() + seq![32u8] + t + seq![0u8] + b;
    assert(spec_pack_tree(es) =~= s);
    lemma_header_shape(lit_tree(), t, b);
    lemma_entries_round_trip(es);
}

} // verus!
