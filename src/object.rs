//! Blob and tree objects, their canonical encoding and their addresses.

use crate::codec::{sha1_digest, sha1_of};
use crate::hex::{bytes_of_hex, decode_hex, encode_hex, hex_of, is_lower_hex_char, lemma_hex_of};
use crate::numtext::{digits, format_number, lemma_digits};
use vstd::prelude::*;
use vstd::string::*;
use vstd::utf8::encode_utf8;

verus! {

/// Why an operation on the store failed.
#[derive(Debug, Clone, PartialEq, Eq)]
pub enum GitError {
    /// The command line did not name a valid operation.
    InvalidArgs(String),
    /// A stored file is no complete compressed stream.
    CorruptFile(),
    /// Inflated bytes do not follow the object grammar.
    CorruptObject(),
    /// An address is not forty lowercase hexadecimal digits.
    InvalidAddress(),
    /// A file name cannot be written into a tree.
    UnreadableName(),
    /// The file system refused an operation.
    IoError(String),
}

impl GitError {
    /// A message for a person to read.
    pub fn message(&self) -> (r: String)
        ensures
            r@ == match self {
                GitError::InvalidArgs(why) => why@,
                GitError::CorruptFile() => "Could not read corrupted file"@,
                GitError::CorruptObject() => "Corrupted object"@,
                GitError::InvalidAddress() => "Not a valid object name"@,
                GitError::UnreadableName() => "File name cannot be stored"@,
                GitError::IoError(why) => why@,
            },
    {
        match self {
            GitError::InvalidArgs(why) => why.clone(),
            GitError::CorruptFile() => String::from_str("Could not read corrupted file"),
            GitError::CorruptObject() => String::from_str("Corrupted object"),
            GitError::InvalidAddress() => String::from_str("Not a valid object name"),
            GitError::UnreadableName() => String::from_str("File name cannot be stored"),
            GitError::IoError(why) => why.clone(),
        }
    }
}

/// The word for a blob.
pub open spec fn blob_kind() -> Seq<char> {
    seq!['b', 'l', 'o', 'b']
}

/// The word for a tree.
pub open spec fn tree_kind() -> Seq<char> {
    seq!['t', 'r', 'e', 'e']
}

/// The word for a blob, as bytes.
pub open spec fn blob_tag() -> Seq<u8> {
    seq![98u8, 108u8, 111u8, 98u8]
}

/// The word for a tree, as bytes.
pub open spec fn tree_tag() -> Seq<u8> {
    seq![116u8, 114u8, 101u8, 101u8]
}

/// The kind that an entry's mode points at: a blob where the octal mode
/// starts with 1, a tree otherwise.
pub open spec fn kind_of_mode(mode: u32) -> Seq<char> {
    if digits(mode as nat, 8)[0] == 49 {
        blob_kind()
    } else {
        tree_kind()
    }
}

/// Forty lowercase hexadecimal digits.
pub open spec fn is_address(s: Seq<char>) -> bool {
    &&& s.len() == 40
    &&& forall|i: int| 0 <= i < s.len() ==> is_lower_hex_char(#[trigger] s[i])
}

/// One member of a tree.
#[derive(Debug, Clone, PartialEq, Eq)]
pub struct Entry {
    /// The file mode, written in octal in the tree.
    pub mode: u32,
    /// `blob` or `tree`, as the mode says.
    pub type_: String,
    /// The member's name.
    pub name: String,
    /// The address of the member's object.
    pub sha1: String,
}

/// An entry as values.
pub struct EntryView {
    pub mode: u32,
    pub type_: Seq<char>,
    pub name: Seq<char>,
    pub sha1: Seq<char>,
}

impl View for Entry {
    type V = EntryView;

    open spec fn view(&self) -> EntryView {
        EntryView { mode: self.mode, type_: self.type_@, name: self.name@, sha1: self.sha1@ }
    }
}

/// A name whose UTF-8 form holds no NUL byte.
pub open spec fn is_storable_name(name: Seq<char>) -> bool {
    forall|k: int|
        0 <= k < encode_utf8(name).len() ==> #[trigger] encode_utf8(name)[k] != 0u8
}

impl EntryView {
    /// The entry can be written into a tree and read back.
    pub open spec fn wf(self) -> bool {
        &&& is_address(self.sha1)
        &&& self.type_ == kind_of_mode(self.mode)
        &&& is_storable_name(self.name)
    }
}

/// `<octal mode> <name>\0<20 address bytes>`.
pub open spec fn encode_entry(e: EntryView) -> Seq<u8> {
    digits(e.mode as nat, 8) + seq![32u8] + encode_utf8(e.name) + seq![0u8] + bytes_of_hex(e.sha1)
}

/// The entries' encodings one after another.
pub open spec fn encode_entries(es: Seq<EntryView>) -> Seq<u8>
    decreases es.len(),
{
    if es.len() == 0 {
        Seq::empty()
    } else {
        encode_entry(es[0]) + encode_entries(es.drop_first())
    }
}

/// Encoding one more entry appends its encoding.
pub proof fn lemma_encode_entries_push(es: Seq<EntryView>, e: EntryView)
    ensures
        encode_entries(es.push(e)) == encode_entries(es) + encode_entry(e),
    decreases es.len(),
{
    if es.len() == 0 {
        assert(es.push(e).drop_first() =~= Seq::<EntryView>::empty());
        assert(es.push(e)[0] == e);
        assert(encode_entries(es.push(e).drop_first()) == Seq::<u8>::empty());
        assert(encode_entries(es.push(e)) =~= encode_entries(es) + encode_entry(e));
    } else {
        lemma_encode_entries_push(es.drop_first(), e);
        assert(es.push(e).drop_first() =~= es.drop_first().push(e));
        assert(es.push(e)[0] == es[0]);
        let a = encode_entry(es[0]);
        let b = encode_entries(es.drop_first());
        assert(encode_entries(es.push(e)) == a + (b + encode_entry(e)));
        assert(a + (b + encode_entry(e)) =~= (a + b) + encode_entry(e));
    }
}

/// The encoding of a prefix of the entries is no longer than that of all.
proof fn lemma_encode_entries_prefix(es: Seq<EntryView>, i: int)
    requires
        0 <= i <= es.len(),
    ensures
        encode_entries(es.take(i)).len() <= encode_entries(es).len(),
    decreases es.len() - i,
{
    assert(es.take(es.len() as int) =~= es);
    if i < es.len() {
        lemma_encode_entries_prefix(es, i + 1);
        assert(es.take(i + 1) =~= es.take(i).push(es[i]));
        lemma_encode_entries_push(es.take(i), es[i]);
    }
}

/// A blob or a tree.
#[derive(Debug, Clone, PartialEq, Eq)]
pub enum Object {
    Blob { len: usize, content: Vec<u8> },
    Tree { len: usize, entries: Vec<Entry> },
}

/// An object as values.
pub enum ObjectView {
    Blob { len: nat, content: Seq<u8> },
    Tree { len: nat, entries: Seq<EntryView> },
}

impl View for Object {
    type V = ObjectView;

    open spec fn view(&self) -> ObjectView {
        match self {
            Object::Blob { len, content } => ObjectView::Blob { len: *len as nat, content: content@ },
            Object::Tree { len, entries } => ObjectView::Tree {
                len: *len as nat,
                entries: entries@.map_values(|e: Entry| e@),
            },
        }
    }
}

impl ObjectView {
    /// The length that the header declares.
    pub open spec fn len(self) -> nat {
        match self {
            ObjectView::Blob { len, .. } => len,
            ObjectView::Tree { len, .. } => len,
        }
    }

    /// The word that the header starts with.
    pub open spec fn tag(self) -> Seq<u8> {
        match self {
            ObjectView::Blob { .. } => blob_tag(),
            ObjectView::Tree { .. } => tree_tag(),
        }
    }

    /// What follows the header.
    pub open spec fn body(self) -> Seq<u8> {
        match self {
            ObjectView::Blob { content, .. } => content,
            ObjectView::Tree { entries, .. } => encode_entries(entries),
        }
    }

    /// The declared length is that of the body, and each entry is well formed.
    pub open spec fn wf(self) -> bool {
        &&& self.len() == self.body().len()
        &&& self matches ObjectView::Tree { entries, .. } ==> forall|i: int|
            0 <= i < entries.len() ==> (#[trigger] entries[i]).wf()
    }
}

/// `<type> <decimal length>\0<body>`: the bytes that are hashed and stored.
pub open spec fn encode_object(o: ObjectView) -> Seq<u8> {
    o.tag() + seq![32u8] + digits(o.len(), 10) + seq![0u8] + o.body()
}

/// The address of an object: the hexadecimal SHA-1 of its canonical bytes.
pub open spec fn address_of(o: ObjectView) -> Seq<char> {
    hex_of(sha1_of(encode_object(o)))
}

fn append_bytes(out: &mut Vec<u8>, bytes: Vec<u8>)
    ensures
        final(out)@ == old(out)@ + bytes@,
{
    let mut b = bytes;
    out.append(&mut b);
}

/// `blob` or `tree`, by the octal text of `mode`.
pub(crate) fn kind_for_mode(mode: u32) -> (r: String)
    ensures
        r@ == kind_of_mode(mode),
{
    let text = format_number(mode as u64, 8);
    proof {
        lemma_digits(mode as nat, 8);
    }
    if text[0] == 49 {
        proof {
            reveal_strlit("blob");
        }
        String::from_str("blob")
    } else {
        proof {
            reveal_strlit("tree");
        }
        String::from_str("tree")
    }
}

impl Entry {
    /// The entry for `object` under `name` and `mode`; `UnreadableName`
    /// where the name's UTF-8 form holds a NUL byte.
    pub fn from_object(name: String, mode: u32, object: &Object) -> (r: Result<Entry, GitError>)
        requires
            object@.wf(),
        ensures
            r is Ok <==> is_storable_name(name@),
            r matches Ok(e) ==> e@ == (EntryView {
                mode,
                type_: kind_of_mode(mode),
                name: name@,
                sha1: address_of(object@),
            }),
            r matches Ok(e) ==> e@.wf(),
            r is Err ==> r == Err::<Entry, GitError>(GitError::UnreadableName()),
    {
        let b = name.as_str().as_bytes_vec();
        let mut i: usize = 0;
        while i < b.len()
            invariant
                b@ == encode_utf8(name@),
                i <= b@.len(),
                forall|k: int| 0 <= k < i ==> b@[k] != 0u8,
            decreases b@.len() - i,
        {
            if b[i] == 0 {
                return Err(GitError::UnreadableName());
            }
            i = i + 1;
        }
        let sha1 = object.get_sha1();
        Ok(Entry { mode, type_: kind_for_mode(mode), name, sha1 })
    }

    /// The entry's bytes inside a tree: `<octal mode> <name>\0<20 address bytes>`.
    pub fn to_bytes(&self) -> (r: Vec<u8>)
        requires
            self@.wf(),
        ensures
            r@ == encode_entry(self@),
    {
        let mut out = format_number(self.mode as u64, 8);
        out.push(32);
        append_bytes(&mut out, self.name.as_str().as_bytes_vec());
        out.push(0);
        let hash = match decode_hex(self.sha1.as_str()) {
            Some(h) => h,
            None => Vec::new(),
        };
        append_bytes(&mut out, hash);
        assert(out@ =~= encode_entry(self@));
        out
    }

    /// The number of bytes the entry takes inside a tree.
    pub fn len(&self) -> (r: usize)
        requires
            self@.wf(),
        ensures
            r == encode_entry(self@).len(),
    {
        self.to_bytes().len()
    }
}

impl Object {
    /// A blob that holds `content`.
    pub fn blob(content: Vec<u8>) -> (r: Object)
        ensures
            r@ == (ObjectView::Blob { len: content@.len(), content: content@ }),
            r@.wf(),
    {
        let len = content.len();
        Object::Blob { len, content }
    }

    /// A tree of `entries`, in their order; `None` where their encodings
    /// together are longer than a `usize` can count.
    pub fn tree(entries: Vec<Entry>) -> (r: Option<Object>)
        requires
            forall|i: int| 0 <= i < entries@.len() ==> (#[trigger] entries@[i])@.wf(),
        ensures
            r is Some <==> encode_entries(entries@.map_values(|e: Entry| e@)).len() <= usize::MAX,
            r matches Some(o) ==> o@ == (ObjectView::Tree {
                len: encode_entries(entries@.map_values(|e: Entry| e@)).len(),
                entries: entries@.map_values(|e: Entry| e@),
            }),
            r matches Some(o) ==> o@.wf(),
    {
        let ghost es = entries@.map_values(|e: Entry| e@);
        let mut total: usize = 0;
        let mut i: usize = 0;
        while i < entries.len()
            invariant
                i <= entries@.len(),
                es == entries@.map_values(|e: Entry| e@),
                forall|k: int| 0 <= k < entries@.len() ==> (#[trigger] entries@[k])@.wf(),
                total == encode_entries(es.take(i as int)).len(),
            decreases entries@.len() - i,
        {
            proof {
                assert(es.take(i + 1) =~= es.take(i as int).push(es[i as int]));
                lemma_encode_entries_push(es.take(i as int), es[i as int]);
                lemma_encode_entries_prefix(es, i + 1);
            }
            match total.checked_add(entries[i].len()) {
                Some(t) => {
                    total = t;
                },
                None => {
                    return None;
                },
            }
            i = i + 1;
        }
        assert(es.take(i as int) =~= es);
        Some(Object::Tree { len: total, entries })
    }

    /// The canonical bytes `<type> <length>\0<body>`.
    pub fn encode(&self) -> (r: Vec<u8>)
        requires
            self@.wf(),
        ensures
            r@ == encode_object(self@),
    {
        let mut out: Vec<u8> = Vec::new();
        match self {
            Object::Blob { .. } => {
                out.push(98);
                out.push(108);
                out.push(111);
                out.push(98);
            },
            Object::Tree { .. } => {
                out.push(116);
                out.push(114);
                out.push(101);
                out.push(101);
            },
        }
        out.push(32);
        let len = match self {
            Object::Blob { len, .. } => *len,
            Object::Tree { len, .. } => *len,
        };
        append_bytes(&mut out, format_number(len as u64, 10));
        out.push(0);
        let ghost head = out@;
        assert(head =~= self@.tag() + seq![32u8] + digits(self@.len(), 10) + seq![0u8]);
        match self {
            Object::Blob { content, .. } => {
                append_bytes(&mut out, content.clone());
            },
            Object::Tree { entries, .. } => {
                let ghost es = entries@.map_values(|e: Entry| e@);
                let mut i: usize = 0;
                while i < entries.len()
                    invariant
                        self@.wf(),
                        self@ == (ObjectView::Tree { len: len as nat, entries: es }),
                        es == entries@.map_values(|e: Entry| e@),
                        i <= entries@.len(),
                        out@ == head + encode_entries(es.take(i as int)),
                    decreases entries@.len() - i,
                {
                    proof {
                        assert(es[i as int].wf());
                        assert(es.take(i + 1) =~= es.take(i as int).push(es[i as int]));
                        lemma_encode_entries_push(es.take(i as int), es[i as int]);
                    }
                    append_bytes(&mut out, entries[i].to_bytes());
                    i = i + 1;
                    assert(out@ =~= head + encode_entries(es.take(i as int)));
                }
                assert(es.take(i as int) =~= es);
            },
        }
        assert(out@ =~= encode_object(self@));
        out
    }

    /// The object's address: forty lowercase hexadecimal digits of the
    /// SHA-1 of its canonical bytes.
    pub fn get_sha1(&self) -> (r: String)
        requires
            self@.wf(),
        ensures
            r@ == address_of(self@),
            is_address(r@),
    {
        let plain = self.encode();
        let digest = sha1_digest(plain.as_slice());
        proof {
            lemma_hex_of(digest@);
        }
        encode_hex(digest.as_slice())
    }
}

} // verus!
