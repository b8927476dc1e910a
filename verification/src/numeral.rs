//! Decimal numerals and the range of double precision.
//!
//! A numeral is too large for a double where its value is `2^1024 - 2^970`
//! or more: that number lies halfway between the largest double and
//! `2^1024`, and the conversion to a double rounds it, and all above it,
//! to infinity. Whether a numeral is that large is decided here on whole
//! numbers of 1024 bits, without a floating-point operation.
use vstd::prelude::*;
use crate::parse_string::{all_digits, digit_value, is_digit, lemma_natural_grows, natural};

verus! {

/// `2^(64 * n)`.
pub open spec fn span(n: nat) -> nat
    decreases n,
{
    if n == 0 {
        1
    } else {
        0x1_0000_0000_0000_0000 * span((n - 1) as nat)
    }
}

/// The number that limbs of 64 bits stand for, the least significant first.
pub open spec fn limbs_value(limbs: Seq<u64>) -> nat
    decreases limbs.len(),
{
    if limbs.len() == 0 {
        0
    } else {
        limbs_value(limbs.drop_last()) + (limbs.last() as nat) * span((limbs.len() - 1) as nat)
    }
}

/// The least whole number that no double holds: `2^1024 - 2^970`.
pub open spec fn first_beyond_doubles() -> nat {
    (span(16) - 1024 * span(15)) as nat
}

/// How many digits the text begins with.
pub open spec fn leading_digits(s: Seq<char>) -> nat
    decreases s.len(),
{
    if s.len() == 0 || !is_digit(s[0]) {
        0
    } else {
        1 + leading_digits(s.drop_first())
    }
}

/// The digits that a numeral begins with: what stands before its point.
pub open spec fn whole_part(numeral: Seq<char>) -> Seq<char> {
    numeral.take(leading_digits(numeral) as int)
}

/// Whether the numeral is too large for a double. What follows its whole
/// part makes no difference, as the least number that is too large is whole.
pub open spec fn beyond_doubles(numeral: Seq<char>) -> bool {
    natural(whole_part(numeral)) >= first_beyond_doubles()
}

/// Limbs stand for less than the span of their number.
proof fn lemma_limbs_bound(limbs: Seq<u64>)
    ensures
        limbs_value(limbs) < span(limbs.len()),
    decreases limbs.len(),
{
    if limbs.len() > 0 {
        lemma_limbs_bound(limbs.drop_last());
        let low = limbs_value(limbs.drop_last());
        let unit = span((limbs.len() - 1) as nat);
        let top = limbs.last();
        assert(low + top * unit < 0x1_0000_0000_0000_0000 * unit) by (nonlinear_arith)
            requires
                low < unit,
                top <= 0xFFFF_FFFF_FFFF_FFFF,
        ;
    }
}

/// A text begins with as many digits as stand before its first character
/// that is none.
proof fn lemma_leading_digits(s: Seq<char>, k: int)
    requires
        0 <= k <= s.len(),
        all_digits(s.take(k)),
    ensures
        k <= leading_digits(s) <= s.len(),
        k == s.len() || !is_digit(s[k]) ==> leading_digits(s) == k,
    decreases s.len(),
{
    if k == 0 {
        if s.len() > 0 && is_digit(s[0]) {
            assert(s.drop_first().take(0).len() == 0);
            lemma_leading_digits(s.drop_first(), 0);
        }
    } else {
        assert(s.take(k)[0] == s[0]);
        assert forall|i: int| 0 <= i < k - 1 implies is_digit(
            #[trigger] s.drop_first().take(k - 1)[i],
        ) by {
            assert(s.take(k)[i + 1] == s[i + 1]);
        }
        lemma_leading_digits(s.drop_first(), k - 1);
    }
}

/// Ten times the number in the limbs, and a digit more. What does not
/// fit in the limbs is carried out.
fn times_ten_plus(limbs: &mut Vec<u64>, digit: u64) -> (carry: u64)
    requires
        digit <= 9,
    ensures
        final(limbs)@.len() == old(limbs)@.len(),
        limbs_value(final(limbs)@) + carry * span(old(limbs)@.len()) == limbs_value(old(limbs)@)
            * 10 + digit,
        carry <= 9,
{
    let mut carry = digit;
    let mut i: usize = 0;
    assert(limbs@.take(0).len() == 0);
    assert(carry * span(0) == carry) by (nonlinear_arith)
        requires
            span(0) == 1,
    ;
    while i < limbs.len()
        invariant
            i <= limbs.len(),
            limbs.len() == old(limbs).len(),
            carry <= 9,
            limbs@.skip(i as int) == old(limbs)@.skip(i as int),
            limbs_value(limbs@.take(i as int)) + carry * span(i as nat) == limbs_value(
                old(limbs)@.take(i as int),
            ) * 10 + digit,
        decreases limbs.len() - i,
    {
        let ghost before = limbs@;
        let ghost unit = span(i as nat);
        let limb = limbs[i];
        assert(limb == old(limbs)@[i as int]) by {
            assert(limbs@.skip(i as int)[0] == old(limbs)@.skip(i as int)[0]);
        }
        let total: u128 = (limb as u128) * 10 + (carry as u128);
        let low: u64 = (total % 0x1_0000_0000_0000_0000) as u64;
        let high: u64 = (total / 0x1_0000_0000_0000_0000) as u64;
        limbs.set(i, low);
        proof {
            assert(limbs@.take(i + 1).drop_last() == before.take(i as int));
            assert(old(limbs)@.take(i + 1).drop_last() == old(limbs)@.take(i as int));
            assert(limbs@.skip(i + 1) == old(limbs)@.skip(i + 1)) by {
                assert forall|j: int| 0 <= j < limbs@.len() - (i + 1) implies #[trigger] limbs@.skip(
                    i + 1,
                )[j] == old(limbs)@.skip(i + 1)[j] by {
                    assert(before.skip(i as int)[j + 1] == old(limbs)@.skip(i as int)[j + 1]);
                }
            }
            let done = limbs_value(before.take(i as int));
            let was = limbs_value(old(limbs)@.take(i as int));
            assert(done + low * unit + high * (0x1_0000_0000_0000_0000 * unit) == (was + limb
                * unit) * 10 + digit) by (nonlinear_arith)
                requires
                    done + carry * unit == was * 10 + digit,
                    low + high * 0x1_0000_0000_0000_0000 == limb * 10 + carry,
            ;
            assert(span((i + 1) as nat) == 0x1_0000_0000_0000_0000 * unit);
        }
        carry = high;
        i += 1;
    }
    assert(limbs@.take(limbs@.len() as int) == limbs@);
    assert(old(limbs)@.take(limbs@.len() as int) == old(limbs)@);
    carry
}

/// Whether the numeral is too large for a double.
pub fn exceeds_doubles(numeral: &String) -> (r: bool)
    ensures
        r == beyond_doubles(numeral@),
{
    let mut limbs: Vec<u64> = Vec::new();
    while limbs.len() < 16
        invariant
            limbs.len() <= 16,
            limbs_value(limbs@) == 0,
        decreases 16 - limbs.len(),
    {
        let ghost before = limbs@;
        limbs.push(0);
        assert(limbs@.drop_last() == before);
        assert(0 * span((limbs@.len() - 1) as nat) == 0) by (nonlinear_arith);
    }
    let mut leading = true;
    let ghost text = numeral@;
    let ghost mut count: int = 0;
    assert(text.take(0).len() == 0);
    for c in it: numeral.as_str().chars()
        invariant
            it.seq() == text,
            text == numeral@,
            limbs.len() == 16,
            0 <= count <= it.index(),
            leading ==> count == it.index(),
            !leading ==> count < text.len() && !is_digit(text[count]),
            all_digits(text.take(count)),
            limbs_value(limbs@) == natural(text.take(count)),
    {
        if leading && c >= '0' && c <= '9' {
            let digit: u64 = (c as u32 - '0' as u32) as u64;
            let carry = times_ten_plus(&mut limbs, digit);
            proof {
                let now = text.take(count + 1);
                assert(now.drop_last() == text.take(count));
                assert(now.last() == c);
                assert(all_digits(now));
                assert(natural(now) == natural(text.take(count)) * 10 + digit_value(c));
                count = count + 1;
            }
            if carry > 0 {
                proof {
                    lemma_leading_digits(text, count);
                    let whole = whole_part(text);
                    lemma_natural_grows(whole, count);
                    assert(whole.take(count) == text.take(count));
                    assert(natural(text.take(count)) >= span(16)) by (nonlinear_arith)
                        requires
                            limbs_value(limbs@) + carry * span(16) == natural(text.take(count)),
                            carry >= 1,
                    ;
                }
                return true;
            }
        } else {
            leading = false;
        }
    }
    proof {
        lemma_leading_digits(text, count);
        assert(whole_part(text) == text.take(count));
        let low = limbs_value(limbs@.drop_last());
        lemma_limbs_bound(limbs@.drop_last());
        let top = limbs@.last();
        let unit = span(15);
        assert(limbs_value(limbs@) == low + top * unit);
        assert(span(16) == 0x1_0000_0000_0000_0000 * unit);
        assert((low + top * unit >= 0x1_0000_0000_0000_0000 * unit - 1024 * unit) == (top
            >= 0xFFFF_FFFF_FFFF_FC00)) by (nonlinear_arith)
            requires
                0 <= low < unit,
                0 <= top <= 0xFFFF_FFFF_FFFF_FFFF,
        ;
        assert(0x1_0000_0000_0000_0000 * unit - 1024 * unit >= 0) by (nonlinear_arith)
            requires
                unit >= 0,
        ;
    }
    limbs[15] >= 0xFFFF_FFFF_FFFF_FC00
}

} // verus!
