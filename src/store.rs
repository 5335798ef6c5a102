//! Loose objects: where an object is kept, what is written there, and how
//! it is read back.

use crate::codec::{inflated, zlib_compress, zlib_decompress};
use crate::decode::{lemma_round_trip, parse_object};
use crate::hex::is_lower_hex_char;
use crate::object::{address_of, encode_object, is_address, GitError, Object, ObjectView};
use vstd::prelude::*;
use vstd::string::*;

verus! {

/// The object that stored bytes hold, if they inflate and parse.
pub open spec fn stored_object(stored: Seq<u8>) -> Option<ObjectView> {
    match inflated(stored) {
        Some(plain) => parse_object(plain),
        None => None,
    }
}

/// What storing an object writes: its address, the directory and file
/// names for that address, and the compressed canonical bytes.
pub struct LooseObject {
    pub address: String,
    pub dir: String,
    pub file: String,
    pub data: Vec<u8>,
}

/// `w` is a stored form of `o`.
pub open spec fn is_loose_form(o: ObjectView, w: LooseObject) -> bool {
    &&& w.address@ == address_of(o)
    &&& w.dir@ == address_of(o).take(2)
    &&& w.file@ == address_of(o).skip(2)
    &&& inflated(w.data@) == Some(encode_object(o))
}

fn check_address(s: &str) -> (r: bool)
    ensures
        r == is_address(s@),
{
    let n = s.unicode_len();
    if n != 40 {
        return false;
    }
    let mut i: usize = 0;
    while i < n
        invariant
            n == s@.len(),
            i <= n,
            forall|k: int| 0 <= k < i ==> is_lower_hex_char(#[trigger] s@[k]),
        decreases n - i,
    {
        let c = s.get_char(i) as u32;
        if !((48 <= c && c <= 57) || (97 <= c && c <= 102)) {
            return false;
        }
        i = i + 1;
    }
    true
}

/// The directory and file names under which the object at `address` is
/// kept: its first two digits, and the other thirty-eight.
pub fn path_for(address: &str) -> (r: Result<(String, String), GitError>)
    ensures
        r is Ok <==> is_address(address@),
        r matches Ok((dir, file)) ==> {
            &&& dir@ == address@.take(2)
            &&& file@ == address@.skip(2)
            &&& dir@ + file@ == address@
        },
        r is Err ==> r == Err::<(String, String), GitError>(GitError::InvalidAddress()),
{
    if !check_address(address) {
        return Err(GitError::InvalidAddress());
    }
    let dir = String::from_str(address.substring_char(0, 2));
    let file = String::from_str(address.substring_char(2, 40));
    assert(address@.subrange(0, 2) =~= address@.take(2));
    assert(address@.subrange(2, 40) =~= address@.skip(2));
    assert(dir@ + file@ =~= address@);
    Ok((dir, file))
}

/// Directory members that a snapshot leaves out: the build output and the
/// store itself.
pub fn is_ignored(name: &str) -> (r: bool)
    ensures
        r == (name@ == "target"@ || name@ == ".git"@),
{
    let n = String::from_str(name);
    n == String::from_str("target") || n == String::from_str(".git")
}

impl Object {
    /// What storing the object writes: its address, the path for it, and
    /// its compressed canonical bytes.
    pub fn to_loose(&self) -> (r: LooseObject)
        requires
            self@.wf(),
        ensures
            is_loose_form(self@, r),
    {
        let address = self.get_sha1();
        let (dir, file) = path_for(address.as_str()).unwrap();
        let plain = self.encode();
        let data = zlib_compress(plain.as_slice()).unwrap();
        LooseObject { address, dir, file, data }
    }

    /// The object that the stored bytes of `object_sha` hold:
    /// `InvalidAddress` where the address is malformed, `CorruptFile` where
    /// the bytes do not inflate, `CorruptObject` where what they inflate to
    /// does not parse.
    pub fn read_from_sha1(object_sha: &str, stored: &[u8]) -> (r: Result<Object, GitError>)
        ensures
            !is_address(object_sha@) ==> r == Err::<Object, GitError>(GitError::InvalidAddress()),
            is_address(object_sha@) ==> match inflated(stored@) {
                None => r == Err::<Object, GitError>(GitError::CorruptFile()),
                Some(plain) => match parse_object(plain) {
                    Some(o) => r matches Ok(x) && x@ == o,
                    None => r == Err::<Object, GitError>(GitError::CorruptObject()),
                },
            },
    {
        if !check_address(object_sha) {
            return Err(GitError::InvalidAddress());
        }
        match zlib_decompress(stored) {
            Some(plain) => Object::decode(plain.as_slice()),
            None => Err(GitError::CorruptFile()),
        }
    }
}

/// Storing an object and reading back what was stored gives the object.
pub proof fn lemma_store_round_trip(o: ObjectView, w: LooseObject)
    requires
        o.wf(),
        is_loose_form(o, w),
    ensures
        stored_object(w.data@) == Some(o),
{
    lemma_round_trip(o);
}

/// Storing the same object twice writes to the same place under the same
/// address, and both writes hold the same canonical bytes.
pub proof fn lemma_write_idempotent(o: ObjectView, w1: LooseObject, w2: LooseObject)
    requires
        is_loose_form(o, w1),
        is_loose_form(o, w2),
    ensures
        w1.address@ == w2.address@,
        w1.dir@ == w2.dir@,
        w1.file@ == w2.file@,
        inflated(w1.data@) == inflated(w2.data@),
{
}

/// Objects with the same contents have the same address.
pub proof fn lemma_address_deterministic(a: Object, b: Object)
    requires
        a@ == b@,
    ensures
        address_of(a@) == address_of(b@),
{
}

/// Two addresses kept under the same directory and file names are the
/// same address.
pub proof fn lemma_path_injective(a: Seq<char>, b: Seq<char>)
    requires
        is_address(a),
        is_address(b),
        a.take(2) == b.take(2),
        a.skip(2) == b.skip(2),
    ensures
        a == b,
{
    assert(a =~= a.take(2) + a.skip(2));
    assert(b =~= b.take(2) + b.skip(2));
}

} // verus!
