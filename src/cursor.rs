//! Splitting a byte sequence at a delimiter.

use vstd::prelude::*;

verus! {

/// `i` is where `target` first occurs in `s`.
pub open spec fn is_first(s: Seq<u8>, target: u8, i: int) -> bool {
    &&& 0 <= i < s.len()
    &&& s[i] == target
    &&& forall|j: int| 0 <= j < i ==> s[j] != target
}

/// Where `target` first occurs in `s`, if it occurs at all.
pub open spec fn index_of(s: Seq<u8>, target: u8) -> Option<int> {
    if exists|i: int| is_first(s, target, i) {
        Some(choose|i: int| is_first(s, target, i))
    } else {
        None
    }
}

/// There is only one first occurrence.
pub proof fn lemma_index_of(s: Seq<u8>, target: u8, i: int)
    requires
        is_first(s, target, i),
    ensures
        index_of(s, target) == Some(i),
{
    let c = choose|c: int| is_first(s, target, c);
    assert(is_first(s, target, c));
    if c < i {
        assert(s[c] != target);
    } else if c > i {
        assert(s[i] != target);
    }
}

/// Text, a delimiter that it does not hold, and what follows: the delimiter
/// is found right after the text.
pub proof fn lemma_split_at(a: Seq<u8>, target: u8, b: Seq<u8>)
    requires
        forall|k: int| 0 <= k < a.len() ==> #[trigger] a[k] != target,
    ensures
        index_of(a + seq![target] + b, target) == Some(a.len() as int),
        (a + seq![target] + b).take(a.len() as int) == a,
        (a + seq![target] + b).skip(a.len() as int + 1) == b,
{
    let s = a + seq![target] + b;
    assert(s[a.len() as int] == target);
    assert forall|j: int| 0 <= j < a.len() implies s[j] != target by {
        assert(s[j] == a[j]);
    }
    lemma_index_of(s, target, a.len() as int);
    assert(s.take(a.len() as int) =~= a);
    assert(s.skip(a.len() as int + 1) =~= b);
}

/// The bytes from `*pos` up to the first `target`, with `*pos` moved past
/// it; where no `target` follows, all the bytes that are left, with `*pos`
/// moved to the end.
pub fn take_until(bytes: &[u8], pos: &mut usize, target: u8) -> (r: Vec<u8>)
    requires
        *old(pos) <= bytes@.len(),
    ensures
        match index_of(bytes@.skip(*old(pos) as int), target) {
            Some(i) => {
                &&& r@ == bytes@.skip(*old(pos) as int).take(i)
                &&& *final(pos) == *old(pos) + i + 1
            },
            None => r@ == bytes@.skip(*old(pos) as int) && *final(pos) == bytes@.len(),
        },
{
    let ghost s = bytes@.skip(*pos as int);
    let start = *pos;
    let mut out: Vec<u8> = Vec::new();
    let mut i: usize = start;
    while i < bytes.len()
        invariant
            start <= i <= bytes@.len(),
            s == bytes@.skip(start as int),
            *pos == start,
            start == *old(pos),
            out@ == s.take(i - start),
            forall|j: int| 0 <= j < i - start ==> s[j] != target,
        decreases bytes@.len() - i,
    {
        if bytes[i] == target {
            proof {
                assert(s[i - start] == bytes@[i as int]);
                lemma_index_of(s, target, i - start);
            }
            *pos = i + 1;
            return out;
        }
        out.push(bytes[i]);
        proof {
            assert(s[i - start] == bytes@[i as int]);
        }
        i = i + 1;
        proof {
            assert(out@ =~= s.take(i - start));
        }
    }
    proof {
        if exists|k: int| is_first(s, target, k) {
            let k = choose|k: int| is_first(s, target, k);
            assert(s[k] != target);
        }
        assert(s.take(i - start) =~= s);
    }
    *pos = i;
    out
}

} // verus!
