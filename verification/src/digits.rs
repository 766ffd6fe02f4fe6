//! Decimal rendering and reading of unsigned numbers, with the round-trip
//! facts that the version grammar proofs rely on.

use vstd::prelude::*;

verus! {

/// ASCII '0'.
pub const ZERO: u8 = 48;
/// ASCII '9'.
pub const NINE: u8 = 57;

pub open spec fn is_digit(b: u8) -> bool {
    ZERO <= b <= NINE
}

pub open spec fn digit_val(b: u8) -> nat
    recommends
        is_digit(b),
{
    (b - ZERO) as nat
}

/// The decimal digits of `n`, most significant first, no leading zeros
/// (the single digit `0` for zero).
pub open spec fn dec_digits(n: nat) -> Seq<u8>
    decreases n,
{
    if n < 10 {
        seq![(n + ZERO) as u8]
    } else {
        dec_digits(n / 10).push((n % 10 + ZERO) as u8)
    }
}

/// The value of a digit string, most significant first.
pub open spec fn digits_val(s: Seq<u8>) -> nat
    decreases s.len(),
{
    if s.len() == 0 {
        0
    } else {
        digits_val(s.drop_last()) * 10 + digit_val(s.last())
    }
}

pub proof fn lemma_dec_digits_shape(n: nat)
    ensures
        dec_digits(n).len() >= 1,
        forall|i: int| 0 <= i < dec_digits(n).len() ==> is_digit(#[trigger] dec_digits(n)[i]),
        dec_digits(n)[0] == ZERO <==> n == 0,
    decreases n,
{
    if n >= 10 {
        lemma_dec_digits_shape(n / 10);
    }
}

pub proof fn lemma_digits_val_dec_digits(n: nat)
    ensures
        digits_val(dec_digits(n)) == n,
    decreases n,
{
    if n < 10 {
        let s = seq![(n + ZERO) as u8];
        assert(s.drop_last() =~= Seq::<u8>::empty());
        assert(digits_val(s.drop_last()) == 0);
        assert(digits_val(s) == n);
    } else {
        lemma_digits_val_dec_digits(n / 10);
        let s = dec_digits(n / 10).push((n % 10 + ZERO) as u8);
        assert(s.drop_last() == dec_digits(n / 10));
        assert(digits_val(s) == (n / 10) * 10 + n % 10);
        assert((n / 10) * 10 + n % 10 == n) by (nonlinear_arith);
    }
}

/// Reading one more digit multiplies the value read so far by ten.
pub proof fn lemma_digits_val_take_step(s: Seq<u8>, i: int)
    requires
        0 <= i < s.len(),
    ensures
        digits_val(s.take(i + 1)) == digits_val(s.take(i)) * 10 + digit_val(s[i]),
{
    assert(s.take(i + 1).drop_last() == s.take(i));
    assert(s.take(i + 1).last() == s[i]);
}

/// Extending a digit string never lowers its value.
pub proof fn lemma_digits_val_take_monotone(s: Seq<u8>, i: int, j: int)
    requires
        0 <= i <= j <= s.len(),
    ensures
        digits_val(s.take(i)) <= digits_val(s.take(j)),
    decreases j - i,
{
    if i < j {
        lemma_digits_val_take_monotone(s, i, j - 1);
        lemma_digits_val_take_step(s, j - 1);
        assert(digits_val(s.take(j - 1)) * 10 >= digits_val(s.take(j - 1))) by (nonlinear_arith);
    }
}

/// Renders `n` in decimal, most significant digit first.
pub fn u64_to_dec(n: u64) -> (r: Vec<u8>)
    ensures
        r@ == dec_digits(n as nat),
    decreases n,
{
    if n < 10 {
        let mut v: Vec<u8> = Vec::new();
        v.push((n as u8) + ZERO);
        proof {
            assert(v@ =~= dec_digits(n as nat));
        }
        v
    } else {
        let mut v = u64_to_dec(n / 10);
        v.push(((n % 10) as u8) + ZERO);
        proof {
            assert(v@ =~= dec_digits(n as nat));
        }
        v
    }
}

/// Reads the digit run `s[from..to]` as a decimal number.
/// Returns `None` exactly when the value does not fit in a `u64`.
pub fn digits_to_u64(s: &[u8], from: usize, to: usize) -> (r: Option<u64>)
    requires
        0 <= from <= to <= s@.len(),
        forall|i: int| from <= i < to ==> is_digit(#[trigger] s@[i]),
    ensures
        match r {
            Some(v) => v as nat == digits_val(s@.subrange(from as int, to as int)),
            None => digits_val(s@.subrange(from as int, to as int)) > u64::MAX,
        },
{
    let ghost run = s@.subrange(from as int, to as int);
    let mut acc: u64 = 0;
    let mut i: usize = from;
    while i < to
        invariant
            from <= i <= to <= s@.len(),
            forall|k: int| from <= k < to ==> is_digit(#[trigger] s@[k]),
            run == s@.subrange(from as int, to as int),
            acc as nat == digits_val(run.take(i - from)),
        decreases to - i,
    {
        let d: u8 = s[i] - ZERO;
        if acc > (u64::MAX - (d as u64)) / 10 {
            proof {
                // The next digit already overflows, and further digits only grow the value.
                assert(acc * 10 + d > u64::MAX) by (nonlinear_arith)
                    requires
                        acc > (u64::MAX - (d as u64)) / 10,
                        0 <= d <= 9,
                ;
                lemma_digits_val_take_step(run, i - from);
                assert(run[i - from] == s@[i as int]);
                assert(digits_val(run.take(i - from + 1)) > u64::MAX);
                lemma_digits_val_take_monotone(run, i - from + 1, run.len() as int);
                assert(run.take(run.len() as int) == run);
            }
            return None;
        }
        proof {
            assert(acc * 10 + d <= u64::MAX) by (nonlinear_arith)
                requires
                    acc <= (u64::MAX - (d as u64)) / 10,
                    0 <= d <= 9,
            ;
            lemma_digits_val_take_step(run, i - from);
            assert(run[i - from] == s@[i as int]);
        }
        acc = acc * 10 + (d as u64);
        i = i + 1;
    }
    proof {
        assert(run.take(run.len() as int) == run);
    }
    Some(acc)
}

} // verus!
