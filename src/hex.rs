//! Hexadecimal text of byte strings.

use vstd::prelude::*;

verus! {

/// The lowercase hexadecimal digit of a value below 16.
pub open spec fn hex_digit(d: u8) -> char {
    if d < 10 {
        (d + 48) as char
    } else {
        (d + 87) as char
    }
}

/// A character that reads as a hexadecimal digit, in either case.
pub open spec fn is_hex_char(c: char) -> bool {
    let n = c as u32;
    (48 <= n <= 57) || (97 <= n <= 102) || (65 <= n <= 70)
}

/// A character that is a lowercase hexadecimal digit.
pub open spec fn is_lower_hex_char(c: char) -> bool {
    let n = c as u32;
    (48 <= n <= 57) || (97 <= n <= 102)
}

/// The value of a hexadecimal digit.
pub open spec fn hex_value(c: char) -> int {
    let n = c as u32 as int;
    if 48 <= n <= 57 {
        n - 48
    } else if 97 <= n <= 102 {
        n - 87
    } else if 65 <= n <= 70 {
        n - 55
    } else {
        0
    }
}

/// Text that holds an even number of hexadecimal digits.
pub open spec fn is_hex_text(s: Seq<char>) -> bool {
    &&& s.len() % 2 == 0
    &&& forall|i: int| 0 <= i < s.len() ==> is_hex_char(#[trigger] s[i])
}

/// Two lowercase digits for each byte, high half first.
pub open spec fn hex_of(b: Seq<u8>) -> Seq<char> {
    Seq::new(
        2 * b.len(),
        |k: int|
            if k % 2 == 0 {
                hex_digit(b[k / 2] / 16)
            } else {
                hex_digit(b[k / 2] % 16)
            },
    )
}

/// The bytes that pairs of hexadecimal digits stand for.
pub open spec fn bytes_of_hex(s: Seq<char>) -> Seq<u8> {
    Seq::new(s.len() / 2, |i: int| (16 * hex_value(s[2 * i]) + hex_value(s[2 * i + 1])) as u8)
}

proof fn lemma_hex_digit(d: u8)
    requires
        d < 16,
    ensures
        is_lower_hex_char(hex_digit(d)),
        hex_value(hex_digit(d)) == d,
{
}

proof fn lemma_digit_of_value(c: char)
    requires
        is_lower_hex_char(c),
    ensures
        hex_digit(hex_value(c) as u8) == c,
{
}

/// Hexadecimal text is lowercase, and reads back as the bytes it was made of.
pub proof fn lemma_hex_of(b: Seq<u8>)
    ensures
        hex_of(b).len() == 2 * b.len(),
        forall|k: int| 0 <= k < hex_of(b).len() ==> is_lower_hex_char(#[trigger] hex_of(b)[k]),
        bytes_of_hex(hex_of(b)) == b,
{
    assert forall|k: int| 0 <= k < hex_of(b).len() implies is_lower_hex_char(
        #[trigger] hex_of(b)[k],
    ) by {
        lemma_hex_digit(b[k / 2] / 16);
        lemma_hex_digit(b[k / 2] % 16);
    }
    let h = hex_of(b);
    assert forall|i: int| 0 <= i < b.len() implies #[trigger] bytes_of_hex(h)[i] == b[i] by {
        lemma_hex_digit(b[i] / 16);
        lemma_hex_digit(b[i] % 16);
        assert(h[2 * i] == hex_digit(b[i] / 16));
        assert(h[2 * i + 1] == hex_digit(b[i] % 16));
    }
    assert(bytes_of_hex(h) =~= b);
}

/// Lowercase hexadecimal text of even length is the text of the bytes it stands for.
pub proof fn lemma_hex_of_bytes_of_hex(s: Seq<char>)
    requires
        s.len() % 2 == 0,
        forall|i: int| 0 <= i < s.len() ==> is_lower_hex_char(#[trigger] s[i]),
    ensures
        hex_of(bytes_of_hex(s)) == s,
{
    let b = bytes_of_hex(s);
    assert forall|k: int| 0 <= k < s.len() implies #[trigger] hex_of(b)[k] == s[k] by {
        let i = k / 2;
        let h = hex_value(s[2 * i]);
        let l = hex_value(s[2 * i + 1]);
        assert(is_lower_hex_char(s[2 * i]));
        assert(is_lower_hex_char(s[2 * i + 1]));
        assert(0 <= h < 16 && 0 <= l < 16);
        assert(b[i] == 16 * h + l);
        assert(b[i] / 16 == h && b[i] % 16 == l) by (nonlinear_arith)
            requires
                b[i] == 16 * h + l,
                0 <= h < 16,
                0 <= l < 16,
        ;
        lemma_digit_of_value(s[2 * i]);
        lemma_digit_of_value(s[2 * i + 1]);
        if k % 2 == 0 {
            assert(k == 2 * i);
        } else {
            assert(k == 2 * i + 1);
        }
    }
    assert(hex_of(b) =~= s);
}

fn hex_digit_of(d: u8) -> (c: char)
    requires
        d < 16,
    ensures
        c == hex_digit(d),
{
    if d < 10 {
        (d + 48) as char
    } else {
        (d + 87) as char
    }
}

fn hex_value_of(c: char) -> (r: Option<u8>)
    ensures
        r is Some <==> is_hex_char(c),
        r is Some ==> r->0 as int == hex_value(c),
{
    let n = c as u32;
    if 48 <= n && n <= 57 {
        Some((n - 48) as u8)
    } else if 97 <= n && n <= 102 {
        Some((n - 87) as u8)
    } else if 65 <= n && n <= 70 {
        Some((n - 55) as u8)
    } else {
        None
    }
}

/// Relies on `String::push`: the character is appended at the end.
#[verifier::external_body]
pub(crate) fn push_char(s: &mut String, c: char)
    ensures
        final(s)@ == old(s)@.push(c),
{
    s.push(c)
}

/// The lowercase hexadecimal text of `bytes`.
pub fn encode_hex(bytes: &[u8]) -> (s: String)
    ensures
        s@ == hex_of(bytes@),
{
    let mut s = String::new();
    let mut i: usize = 0;
    while i < bytes.len()
        invariant
            i <= bytes@.len(),
            s@.len() == 2 * i,
            forall|k: int| 0 <= k < 2 * i ==> #[trigger] s@[k] == hex_of(bytes@)[k],
        decreases bytes@.len() - i,
    {
        let b = bytes[i];
        push_char(&mut s, hex_digit_of(b / 16));
        push_char(&mut s, hex_digit_of(b % 16));
        i = i + 1;
    }
    assert(s@ =~= hex_of(bytes@));
    s
}

/// The bytes that the hexadecimal text `s` stands for, two digits a byte;
/// `None` where `s` has odd length or a character that is no hexadecimal digit.
pub fn decode_hex(s: &str) -> (r: Option<Vec<u8>>)
    ensures
        r is Some <==> is_hex_text(s@),
        r is Some ==> r->0@ == bytes_of_hex(s@),
{
    let n = s.unicode_len();
    if n % 2 != 0 {
        return None;
    }
    let mut out: Vec<u8> = Vec::new();
    let mut i: usize = 0;
    while i < n
        invariant
            n == s@.len(),
            n % 2 == 0,
            i % 2 == 0,
            i <= n,
            out@.len() * 2 == i,
            forall|k: int| 0 <= k < i ==> is_hex_char(#[trigger] s@[k]),
            forall|j: int| 0 <= j < out@.len() ==> #[trigger] out@[j] == bytes_of_hex(s@)[j],
        decreases n - i,
    {
        let hi = hex_value_of(s.get_char(i));
        let lo = hex_value_of(s.get_char(i + 1));
        match (hi, lo) {
            (Some(h), Some(l)) => {
                out.push(h * 16 + l);
            },
            _ => {
                return None;
            },
        }
        i = i + 2;
    }
    assert(out@ =~= bytes_of_hex(s@));
    Some(out)
}

} // verus!
