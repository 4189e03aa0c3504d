//! Decimal numbers as they stand in a frame: written without sign or padding,
//! read as a run of ASCII digits.

use vstd::prelude::*;

verus! {

/// The ASCII digit for `d`, where `0 <= d <= 9`.
pub open spec fn digit(d: int) -> u8 {
    (48 + d) as u8
}

/// Whether `b` is one of the ASCII digits `0` to `9`.
pub open spec fn is_digit(b: u8) -> bool {
    48 <= b <= 57
}

/// The number that the ASCII digit `b` stands for; 0 for any other byte.
pub open spec fn digit_value(b: u8) -> nat {
    if is_digit(b) {
        (b - 48) as nat
    } else {
        0
    }
}

/// `n` in decimal, most significant digit first, without leading zeros.
pub open spec fn digits(n: nat) -> Seq<u8>
    decreases n,
{
    if n < 10 {
        seq![digit(n as int)]
    } else {
        digits(n / 10).push(digit((n % 10) as int))
    }
}

/// `i` in decimal, with a leading `-` if and only if it is negative.
pub open spec fn signed_digits(i: int) -> Seq<u8> {
    if i < 0 {
        seq![45u8] + digits((-i) as nat)
    } else {
        digits(i as nat)
    }
}

/// Whether every byte of `text` is an ASCII digit.
pub open spec fn all_digits(text: Seq<u8>) -> bool {
    forall|i: int| 0 <= i < text.len() ==> is_digit(#[trigger] text[i])
}

/// The number that a run of digits denotes, most significant digit first.
pub open spec fn value_of(text: Seq<u8>) -> nat
    decreases text.len(),
{
    if text.len() == 0 {
        0
    } else {
        value_of(text.drop_last()) * 10 + digit_value(text.last())
    }
}

/// What `text` reads as: a number if it is one or more ASCII digits and
/// nothing else, and the number fits a `usize`; otherwise nothing.
pub open spec fn parse_number(text: Seq<u8>) -> Option<nat> {
    if text.len() > 0 && all_digits(text) && value_of(text) <= usize::MAX {
        Some(value_of(text))
    } else {
        None
    }
}

/// The digits of a number are digits, and there is at least one.
pub proof fn lemma_digits_shape(n: nat)
    ensures
        digits(n).len() > 0,
        all_digits(digits(n)),
    decreases n,
{
    if n >= 10 {
        lemma_digits_shape(n / 10);
    }
}

/// Reading the digits of a number gives the number back.
pub proof fn lemma_value_of_digits(n: nat)
    ensures
        value_of(digits(n)) == n,
    decreases n,
{
    if n < 10 {
        assert(digits(n).drop_last() =~= Seq::<u8>::empty());
        assert(value_of(digits(n).drop_last()) == 0);
    } else {
        lemma_value_of_digits(n / 10);
        assert(digits(n).drop_last() =~= digits(n / 10));
    }
}

/// A run of digits denotes at least as much as any of its prefixes.
pub proof fn lemma_value_of_prefix(text: Seq<u8>, k: int)
    requires
        0 <= k <= text.len(),
    ensures
        value_of(text.take(k)) <= value_of(text),
    decreases text.len(),
{
    if k < text.len() {
        lemma_value_of_prefix(text.drop_last(), k);
        assert(text.drop_last().take(k) =~= text.take(k));
    } else {
        assert(text.take(k) =~= text);
    }
}

/// Appends `n` in decimal to `out`.
pub fn push_decimal(out: &mut Vec<u8>, n: usize)
    ensures
        final(out)@ == old(out)@ + digits(n as nat),
    decreases n,
{
    if n >= 10 {
        push_decimal(out, n / 10);
    }
    let d: u8 = (n % 10) as u8;
    out.push(48u8 + d);
    proof {
        if n < 10 {
            assert(out@ =~= old(out)@ + digits(n as nat));
        } else {
            assert(out@ =~= old(out)@ + digits(n as nat));
        }
    }
}

/// Appends `i` in decimal to `out`, with a `-` in front if it is negative.
pub fn push_signed(out: &mut Vec<u8>, i: i32)
    ensures
        final(out)@ == old(out)@ + signed_digits(i as int),
{
    let wide: i64 = i as i64;
    if wide < 0 {
        out.push(45u8);
        push_decimal(out, (-wide) as usize);
        assert(out@ =~= old(out)@ + signed_digits(i as int));
    } else {
        push_decimal(out, wide as usize);
    }
}

/// Reads `text[from..to]` as a decimal number.
pub fn parse_decimal(text: &[u8], from: usize, to: usize) -> (r: Option<usize>)
    requires
        from <= to <= text.len(),
    ensures
        match parse_number(text@.subrange(from as int, to as int)) {
            Some(n) => r == Some(n as usize),
            None => r is None,
        },
{
    let ghost run = text@.subrange(from as int, to as int);
    if from == to {
        return None;
    }
    let mut acc: usize = 0;
    let mut i: usize = from;
    while i < to
        invariant
            from <= i <= to <= text.len(),
            run == text@.subrange(from as int, to as int),
            all_digits(run.take(i - from)),
            acc == value_of(run.take(i - from)),
        decreases to - i,
    {
        let b: u8 = text[i];
        let ghost before = run.take(i - from);
        let ghost after = run.take(i - from + 1);
        proof {
            assert(after.drop_last() =~= before);
            assert(after.last() == b);
            lemma_value_of_prefix(run, i - from + 1);
        }
        if b < 48 || b > 57 {
            assert(run[i - from] == b);
            return None;
        }
        let d: usize = (b - 48) as usize;
        if acc > (usize::MAX - d) / 10 {
            return None;
        }
        acc = acc * 10 + d;
        i += 1;
    }
    proof {
        assert(run.take(to - from) =~= run);
    }
    Some(acc)
}

} // verus!
