//! Reading objects back from their canonical bytes.

use crate::cursor::{index_of, lemma_split_at, take_until};
use crate::hex::{bytes_of_hex, encode_hex, hex_of, lemma_hex_of_bytes_of_hex};
use crate::numtext::{digits, is_digits, lemma_digits, parse_number, value_of};
use crate::object::{
    blob_tag, encode_entries, encode_entry, encode_object, kind_of_mode, tree_tag, Entry,
    EntryView, GitError, Object, ObjectView, kind_for_mode,
};
use vstd::prelude::*;
use vstd::slice::{slice_subrange, slice_to_vec};
use vstd::utf8::{decode_utf8, encode_utf8, encode_utf8_decode_utf8, encode_utf8_valid_utf8, valid_utf8};

verus! {

/// One tree entry at the front of `s`, and what follows it.
pub open spec fn parse_entry(s: Seq<u8>) -> Option<(EntryView, Seq<u8>)> {
    match index_of(s, 32u8) {
        None => None,
        Some(i) => {
            let mode_text = s.take(i);
            let r1 = s.skip(i + 1);
            match index_of(r1, 0u8) {
                None => None,
                Some(j) => {
                    let name = r1.take(j);
                    let r2 = r1.skip(j + 1);
                    if is_digits(mode_text, 8) && value_of(mode_text, 8) <= u32::MAX && valid_utf8(
                        name,
                    ) && r2.len() >= 20 {
                        let mode = value_of(mode_text, 8) as u32;
                        Some(
                            (
                                EntryView {
                                    mode,
                                    type_: kind_of_mode(mode),
                                    name: decode_utf8(name),
                                    sha1: hex_of(r2.take(20)),
                                },
                                r2.skip(20),
                            ),
                        )
                    } else {
                        None
                    }
                },
            }
        },
    }
}

/// The entries that `s` holds, one after another to its end.
pub open spec fn parse_entries(s: Seq<u8>) -> Option<Seq<EntryView>>
    decreases s.len(),
{
    if s.len() == 0 {
        Some(Seq::empty())
    } else {
        match parse_entry(s) {
            None => None,
            Some((e, rest)) => if rest.len() < s.len() {
                match parse_entries(rest) {
                    None => None,
                    Some(es) => Some(seq![e] + es),
                }
            } else {
                None
            },
        }
    }
}

/// The object that the canonical bytes `b` stand for: a known type word, a
/// decimal length equal to that of the body, and a body of that type.
pub open spec fn parse_object(b: Seq<u8>) -> Option<ObjectView> {
    match index_of(b, 32u8) {
        None => None,
        Some(i) => {
            let tag = b.take(i);
            let r1 = b.skip(i + 1);
            match index_of(r1, 0u8) {
                None => None,
                Some(j) => {
                    let len_text = r1.take(j);
                    let body = r1.skip(j + 1);
                    if is_digits(len_text, 10) && value_of(len_text, 10) == body.len() {
                        if tag == blob_tag() {
                            Some(ObjectView::Blob { len: body.len(), content: body })
                        } else if tag == tree_tag() {
                            match parse_entries(body) {
                                None => None,
                                Some(es) => Some(ObjectView::Tree { len: body.len(), entries: es }),
                            }
                        } else {
                            None
                        }
                    } else {
                        None
                    }
                },
            }
        },
    }
}

/// `es` in front of what `rest` holds, if it holds anything.
pub open spec fn prepend(es: Seq<EntryView>, rest: Option<Seq<EntryView>>) -> Option<Seq<EntryView>> {
    match rest {
        None => None,
        Some(r) => Some(es + r),
    }
}

/// A well-formed entry, written in front of any bytes, reads back as itself
/// and leaves those bytes.
pub proof fn lemma_entry_round_trip(e: EntryView, rest: Seq<u8>)
    requires
        e.wf(),
    ensures
        parse_entry(encode_entry(e) + rest) == Some((e, rest)),
{
    let mode_text = digits(e.mode as nat, 8);
    let name = encode_utf8(e.name);
    let hash = bytes_of_hex(e.sha1);
    lemma_digits(e.mode as nat, 8);
    encode_utf8_valid_utf8(e.name);
    encode_utf8_decode_utf8(e.name);
    lemma_hex_of_bytes_of_hex(e.sha1);
    let s = encode_entry(e) + rest;
    let tail1 = name + seq![0u8] + (hash + rest);
    assert(s =~= mode_text + seq![32u8] + tail1);
    assert forall|k: int| 0 <= k < mode_text.len() implies #[trigger] mode_text[k] != 32u8 by {
        assert(48 <= mode_text[k]);
    }
    lemma_split_at(mode_text, 32u8, tail1);
    assert forall|k: int| 0 <= k < name.len() implies #[trigger] name[k] != 0u8 by {
        assert(encode_utf8(e.name)[k] != 0u8);
    }
    lemma_split_at(name, 0u8, hash + rest);
    assert(hash.len() == 20);
    assert((hash + rest).take(20) =~= hash);
    assert((hash + rest).skip(20) =~= rest);
}

/// Well-formed entries, written one after another, read back as themselves.
pub proof fn lemma_entries_round_trip(es: Seq<EntryView>)
    requires
        forall|i: int| 0 <= i < es.len() ==> (#[trigger] es[i]).wf(),
    ensures
        parse_entries(encode_entries(es)) == Some(es),
    decreases es.len(),
{
    if es.len() > 0 {
        let rest = es.drop_first();
        assert forall|i: int| 0 <= i < rest.len() implies (#[trigger] rest[i]).wf() by {
            assert(rest[i] == es[i + 1]);
        }
        lemma_entries_round_trip(rest);
        assert(es[0].wf());
        lemma_entry_round_trip(es[0], encode_entries(rest));
        lemma_digits(es[0].mode as nat, 8);
        assert(encode_entry(es[0]).len() > 0);
        assert(seq![es[0]] + rest =~= es);
    }
}

/// A tree body that lists two well-formed entries reads back as those two
/// entries, in the order in which they were written.
pub proof fn lemma_tree_entry_order(first: EntryView, second: EntryView)
    requires
        first.wf(),
        second.wf(),
    ensures
        parse_entries(encode_entry(first) + encode_entry(second)) == Some(seq![first, second]),
{
    let es = seq![first, second];
    assert(es.drop_first() =~= seq![second]);
    assert(es.drop_first().drop_first() =~= Seq::<EntryView>::empty());
    assert(seq![second].drop_first() =~= Seq::<EntryView>::empty());
    assert(encode_entries(seq![second].drop_first()) == Seq::<u8>::empty());
    assert(encode_entries(seq![second]) =~= encode_entry(second));
    assert(encode_entries(es) =~= encode_entry(first) + encode_entry(second));
    lemma_entries_round_trip(es);
}

/// Decoding the canonical bytes of a well-formed object gives the object back.
pub proof fn lemma_round_trip(o: ObjectView)
    requires
        o.wf(),
    ensures
        parse_object(encode_object(o)) == Some(o),
{
    let tag = o.tag();
    let len_text = digits(o.len(), 10);
    let body = o.body();
    lemma_digits(o.len(), 10);
    let s = encode_object(o);
    let tail1 = len_text + seq![0u8] + body;
    assert(s =~= tag + seq![32u8] + tail1);
    assert forall|k: int| 0 <= k < tag.len() implies #[trigger] tag[k] != 32u8 by {
    }
    lemma_split_at(tag, 32u8, tail1);
    assert forall|k: int| 0 <= k < len_text.len() implies #[trigger] len_text[k] != 0u8 by {
        assert(48 <= len_text[k]);
    }
    lemma_split_at(len_text, 0u8, body);
    match o {
        ObjectView::Blob { .. } => {},
        ObjectView::Tree { entries, .. } => {
            assert(tree_tag() != blob_tag()) by {
                assert(tree_tag()[0] != blob_tag()[0]);
            }
            lemma_entries_round_trip(entries);
        },
    }
}

/// Relies on `String::from_utf8`: it succeeds exactly on valid UTF-8, and
/// the string then holds those bytes.
#[verifier::external_body]
fn string_from_utf8(bytes: Vec<u8>) -> (r: Option<String>)
    ensures
        r is Some <==> valid_utf8(bytes@),
        r matches Some(s) ==> encode_utf8(s@) == bytes@,
{
    String::from_utf8(bytes).ok()
}

impl Entry {
    /// Reads the entry that starts at `*pos` and moves `*pos` past it.
    pub fn new(bytes: &[u8], pos: &mut usize) -> (r: Result<Entry, GitError>)
        requires
            *old(pos) <= bytes@.len(),
        ensures
            *final(pos) <= bytes@.len(),
            match parse_entry(bytes@.skip(*old(pos) as int)) {
                Some((e, rest)) => {
                    &&& r matches Ok(x) && x@ == e
                    &&& *final(pos) > *old(pos)
                    &&& bytes@.skip(*final(pos) as int) == rest
                },
                None => r == Err::<Entry, GitError>(GitError::CorruptObject()),
            },
    {
        let ghost s = bytes@.skip(*pos as int);
        let ghost p0 = *pos as int;
        let mode_start = *pos;
        let mode_text = take_until(bytes, pos, 32);
        if *pos == mode_start + mode_text.len() {
            return Err(GitError::CorruptObject());
        }
        let ghost p1 = *pos as int;
        assert(bytes@.skip(p1) =~= s.skip(p1 - p0));
        let name_start = *pos;
        let name_bytes = take_until(bytes, pos, 0);
        if *pos == name_start + name_bytes.len() {
            return Err(GitError::CorruptObject());
        }
        let ghost p2 = *pos as int;
        assert(bytes@.skip(p2) =~= s.skip(p1 - p0).skip(p2 - p1));
        let mode = match parse_number(mode_text.as_slice(), 8) {
            Some(m) => {
                if m > u32::MAX as u64 {
                    return Err(GitError::CorruptObject());
                }
                m as u32
            },
            None => return Err(GitError::CorruptObject()),
        };
        if bytes.len() - *pos < 20 {
            return Err(GitError::CorruptObject());
        }
        let start = *pos;
        let hash = slice_to_vec(slice_subrange(bytes, start, start + 20));
        assert(hash@ =~= s.skip(p1 - p0).skip(p2 - p1).take(20));
        let name = match string_from_utf8(name_bytes) {
            Some(n) => n,
            None => return Err(GitError::CorruptObject()),
        };
        proof {
            encode_utf8_decode_utf8(name@);
        }
        *pos = start + 20;
        assert(bytes@.skip(*pos as int) =~= s.skip(p1 - p0).skip(p2 - p1).skip(20));
        Ok(Entry { mode, type_: kind_for_mode(mode), name, sha1: encode_hex(hash.as_slice()) })
    }
}

/// The entries from `start` to the end of `plain`.
fn decode_entries(plain: &[u8], start: usize) -> (r: Result<Vec<Entry>, GitError>)
    requires
        start <= plain@.len(),
    ensures
        match parse_entries(plain@.skip(start as int)) {
            Some(es) => r matches Ok(v) && v@.map_values(|e: Entry| e@) == es,
            None => r == Err::<Vec<Entry>, GitError>(GitError::CorruptObject()),
        },
{
    let ghost body = plain@.skip(start as int);
    let mut pos = start;
    let mut entries: Vec<Entry> = Vec::new();
    assert(entries@.map_values(|e: Entry| e@) + Seq::<EntryView>::empty() =~= Seq::<EntryView>::empty());
    while pos < plain.len()
        invariant
            pos <= plain@.len(),
            body == plain@.skip(start as int),
            parse_entries(body) == prepend(
                entries@.map_values(|e: Entry| e@),
                parse_entries(plain@.skip(pos as int)),
            ),
        decreases plain@.len() - pos,
    {
        let ghost before = pos;
        let ghost es = entries@.map_values(|e: Entry| e@);
        match Entry::new(plain, &mut pos) {
            Ok(e) => {
                entries.push(e);
                proof {
                    let rest = plain@.skip(pos as int);
                    assert(entries@.map_values(|e: Entry| e@) =~= es.push(e@));
                    match parse_entries(rest) {
                        Some(tail) => {
                            assert(es + (seq![e@] + tail) =~= es.push(e@) + tail);
                        },
                        None => {},
                    }
                }
            },
            Err(err) => {
                assert(plain@.skip(before as int).len() > 0);
                return Err(err);
            },
        }
    }
    assert(plain@.skip(pos as int) =~= Seq::<u8>::empty());
    assert(entries@.map_values(|e: Entry| e@) + Seq::<EntryView>::empty() =~= entries@.map_values(
        |e: Entry| e@,
    ));
    Ok(entries)
}

/// Which type word `tag` is: a blob, a tree, or neither.
fn tag_kind(tag: &Vec<u8>) -> (r: Option<bool>)
    ensures
        r == Some(true) <==> tag@ == blob_tag(),
        r == Some(false) <==> tag@ == tree_tag(),
{
    if tag.len() == 4 && tag[0] == 98 && tag[1] == 108 && tag[2] == 111 && tag[3] == 98 {
        assert(tag@ =~= blob_tag());
        Some(true)
    } else if tag.len() == 4 && tag[0] == 116 && tag[1] == 114 && tag[2] == 101 && tag[3] == 101 {
        assert(tag@ =~= tree_tag());
        assert(tag@ != blob_tag());
        Some(false)
    } else {
        assert(tag@ != blob_tag() && tag@ != tree_tag()) by {
            if tag@ == blob_tag() || tag@ == tree_tag() {
                assert(tag@.len() == 4);
            }
        }
        None
    }
}

impl Object {
    /// The object that the canonical bytes `plain` stand for;
    /// `CorruptObject` where they do not follow the grammar.
    pub fn decode(plain: &[u8]) -> (r: Result<Object, GitError>)
        ensures
            match parse_object(plain@) {
                Some(o) => r matches Ok(x) && x@ == o,
                None => r == Err::<Object, GitError>(GitError::CorruptObject()),
            },
    {
        let mut pos: usize = 0;
        assert(plain@.skip(0) =~= plain@);
        let tag = take_until(plain, &mut pos, 32);
        if pos == tag.len() {
            return Err(GitError::CorruptObject());
        }
        let ghost p1 = pos as int;
        let len_start = pos;
        let len_text = take_until(plain, &mut pos, 0);
        if pos == len_start + len_text.len() {
            return Err(GitError::CorruptObject());
        }
        assert(plain@.skip(pos as int) =~= plain@.skip(p1).skip(pos - p1));
        let ghost body = plain@.skip(pos as int);
        let len = match parse_number(len_text.as_slice(), 10) {
            Some(n) => n,
            None => {
                let total = plain.len();
                assert(body.len() <= total);
                return Err(GitError::CorruptObject());
            },
        };
        if len != (plain.len() - pos) as u64 {
            return Err(GitError::CorruptObject());
        }
        let len = (plain.len() - pos) as usize;
        match tag_kind(&tag) {
            Some(true) => {
                let content = slice_to_vec(slice_subrange(plain, pos, plain.len()));
                assert(content@ =~= body);
                Ok(Object::Blob { len, content })
            },
            Some(false) => {
                assert(tag@ != blob_tag());
                match decode_entries(plain, pos) {
                    Ok(entries) => Ok(Object::Tree { len, entries }),
                    Err(err) => Err(err),
                }
            },
            None => Err(GitError::CorruptObject()),
        }
    }
}

} // verus!
