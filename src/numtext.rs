//! Unsigned numbers written as ASCII digits, in octal or in decimal.

use vstd::arithmetic::div_mod::{lemma_div_decreases, lemma_fundamental_div_mod, lemma_small_mod};
use vstd::prelude::*;

verus! {

/// The ASCII digit of a value below ten.
pub open spec fn digit_byte(d: nat) -> u8 {
    (d + 48) as u8
}

/// The digits of `n` in `base`, most significant first, with no leading zero.
pub open spec fn digits(n: nat, base: nat) -> Seq<u8>
    decreases n via digits_decreases
{
    if base < 2 || n < base {
        seq![digit_byte(n)]
    } else {
        digits(n / base, base).push(digit_byte(n % base))
    }
}

#[via_fn]
proof fn digits_decreases(n: nat, base: nat) {
    if !(base < 2 || n < base) {
        lemma_div_decreases(n as int, base as int);
    }
}

/// A non-empty run of ASCII digits, each below `base`.
pub open spec fn is_digits(t: Seq<u8>, base: nat) -> bool {
    &&& t.len() > 0
    &&& forall|i: int| 0 <= i < t.len() ==> 48 <= #[trigger] t[i] < 48 + base
}

/// The number that a run of digits in `base` stands for.
pub open spec fn value_of(t: Seq<u8>, base: nat) -> nat
    decreases t.len(),
{
    if t.len() == 0 {
        0
    } else {
        value_of(t.drop_last(), base) * base + (t.last() - 48) as nat
    }
}

/// The digits of a number read back as that number.
pub proof fn lemma_digits(n: nat, base: nat)
    requires
        2 <= base <= 10,
    ensures
        is_digits(digits(n, base), base),
        value_of(digits(n, base), base) == n,
    decreases n,
{
    if n >= base {
        lemma_div_decreases(n as int, base as int);
        lemma_digits(n / base, base);
        lemma_fundamental_div_mod(n as int, base as int);
        let t = digits(n, base);
        assert(t.drop_last() == digits(n / base, base));
        assert(t.last() - 48 == n % base);
        assert((n / base) * base == base * (n / base)) by (nonlinear_arith);
        assert(value_of(t, base) == value_of(t.drop_last(), base) * base + (t.last() - 48) as nat);
    } else {
        let t = digits(n, base);
        assert(t.drop_last() =~= Seq::<u8>::empty());
        assert(0 * base == 0) by (nonlinear_arith);
        assert(value_of(t, base) == value_of(t.drop_last(), base) * base + (t.last() - 48) as nat);
    }
}

/// A prefix of a run of digits stands for no more than the whole run.
proof fn lemma_value_prefix(t: Seq<u8>, i: int, base: nat)
    requires
        0 <= i <= t.len(),
        base >= 1,
    ensures
        value_of(t.take(i), base) <= value_of(t, base),
    decreases t.len() - i,
{
    assert(t.take(t.len() as int) =~= t);
    if i < t.len() {
        lemma_value_prefix(t, i + 1, base);
        let p = t.take(i + 1);
        assert(p.drop_last() == t.take(i));
        assert(value_of(t.take(i), base) * base >= value_of(t.take(i), base)) by (nonlinear_arith)
            requires
                base >= 1,
        ;
    }
}

fn push_digits(n: u64, base: u64, out: &mut Vec<u8>)
    requires
        2 <= base <= 10,
    ensures
        final(out)@ == old(out)@ + digits(n as nat, base as nat),
    decreases n,
{
    if n >= base {
        proof {
            lemma_div_decreases(n as int, base as int);
        }
        push_digits(n / base, base, out);
    }
    out.push((n % base) as u8 + 48);
    proof {
        if n >= base {
            let d = digits(n as nat, base as nat);
            assert(d == digits((n / base) as nat, base as nat).push(digit_byte((n % base) as nat)));
            assert(final(out)@ =~= old(out)@ + d);
        } else {
            lemma_small_mod(n as nat, base as nat);
            assert(final(out)@ =~= old(out)@ + digits(n as nat, base as nat));
        }
    }
}

/// The digits of `n` in `base`.
pub fn format_number(n: u64, base: u64) -> (r: Vec<u8>)
    requires
        2 <= base <= 10,
    ensures
        r@ == digits(n as nat, base as nat),
{
    let mut r: Vec<u8> = Vec::new();
    push_digits(n, base, &mut r);
    assert(r@ =~= digits(n as nat, base as nat));
    r
}

/// The number that the digits `t` stand for in `base`; `None` where `t` is
/// empty, holds another byte, or stands for more than `u64::MAX`.
pub fn parse_number(t: &[u8], base: u64) -> (r: Option<u64>)
    requires
        2 <= base <= 10,
    ensures
        r is Some <==> is_digits(t@, base as nat) && value_of(t@, base as nat) <= u64::MAX,
        r is Some ==> r->0 == value_of(t@, base as nat),
{
    if t.len() == 0 {
        return None;
    }
    let mut acc: u64 = 0;
    let mut i: usize = 0;
    while i < t.len()
        invariant
            i <= t@.len(),
            2 <= base <= 10,
            forall|k: int| 0 <= k < i ==> 48 <= #[trigger] t@[k] < 48 + base,
            acc == value_of(t@.take(i as int), base as nat),
        decreases t@.len() - i,
    {
        let b = t[i];
        if b < 48 || b >= 48 + base as u8 {
            return None;
        }
        let d = (b - 48) as u64;
        proof {
            let p = t@.take(i + 1);
            assert(p.drop_last() == t@.take(i as int));
        }
        match acc.checked_mul(base) {
            Some(m) => match m.checked_add(d) {
                Some(v) => {
                    acc = v;
                },
                None => {
                    proof {
                        lemma_value_prefix(t@, i + 1, base as nat);
                    }
                    return None;
                },
            },
            None => {
                proof {
                    lemma_value_prefix(t@, i + 1, base as nat);
                }
                return None;
            },
        }
        i = i + 1;
    }
    assert(t@.take(t@.len() as int) == t@);
    Some(acc)
}

} // verus!
