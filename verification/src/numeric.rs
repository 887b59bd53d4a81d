//! Numeric compaction: a number of up to 44 decimal digits, with a leading
//! one set in front of it, written in base 900.

use crate::bignum::U160;
use vstd::prelude::*;

verus! {

/// The longest run of digits that one numeric block holds.
pub const MAX_DIGITS: usize = 44;

/// The buffer `buf` with the slots from `at` on replaced by `part`.
pub open spec fn splice(buf: Seq<u16>, at: int, part: Seq<u16>) -> Seq<u16> {
    Seq::new(
        buf.len(),
        |i: int|
            if at <= i < at + part.len() {
                part[i - at]
            } else {
                buf[i]
            },
    )
}

/// Ten to the power `d`.
pub open spec fn pow10(d: nat) -> nat
    decreases d,
{
    if d == 0 {
        1
    } else {
        10 * pow10((d - 1) as nat)
    }
}

/// Nine hundred to the power `k`.
pub open spec fn pow900(k: nat) -> nat
    decreases k,
{
    if k == 0 {
        1
    } else {
        900 * pow900((k - 1) as nat)
    }
}

/// Tells whether a byte is an ASCII digit.
pub open spec fn is_digit(c: u8) -> bool {
    48 <= c <= 57
}

/// Tells whether every byte of a sequence is an ASCII digit.
pub open spec fn all_digits(s: Seq<u8>) -> bool {
    forall|i: int| 0 <= i < s.len() ==> is_digit(#[trigger] s[i])
}

/// The number that a sequence of ASCII digits spells in base ten.
pub open spec fn decimal_value(digits: Seq<u8>) -> nat
    decreases digits.len(),
{
    if digits.len() == 0 {
        0
    } else {
        (decimal_value(digits.drop_last()) * 10 + (digits.last() - 48)) as nat
    }
}

/// The number of decimal digits of `n`; zero has none.
pub open spec fn decimal_len(n: nat) -> nat
    decreases n,
{
    if n == 0 {
        0
    } else {
        1 + decimal_len(n / 10)
    }
}

/// The last `len` digits of `n` in base 900, the most significant first.
pub open spec fn base900(n: nat, len: nat) -> Seq<u16>
    decreases len,
{
    if len == 0 {
        Seq::empty()
    } else {
        base900(n / 900, (len - 1) as nat).push((n % 900) as u16)
    }
}

/// The number that a sequence of base-900 digits spells, the most
/// significant first.
pub open spec fn base900_value(digits: Seq<u16>) -> nat
    decreases digits.len(),
{
    if digits.len() == 0 {
        0
    } else {
        base900_value(digits.drop_last()) * 900 + digits.last() as nat
    }
}

/// The numeric block of the number `n` written with `d` digits: the number
/// `10^d + n` in base 900, on `d / 3 + 1` codewords. The leading one keeps
/// the zeros at the head of the digits.
pub open spec fn numeric_codewords(d: nat, n: nat) -> Seq<u16> {
    base900(pow10(d) + n, d / 3 + 1)
}

/// The numeric block of a run of ASCII digits.
pub open spec fn digits_codewords(digits: Seq<u8>) -> Seq<u16> {
    numeric_codewords(digits.len(), decimal_value(digits))
}

/// The numeric block of an integer: that of its decimal digits, of which
/// zero has none.
pub open spec fn number_codewords(n: u64) -> Seq<u16> {
    numeric_codewords(decimal_len(n as nat), n as nat)
}

/// A base-900 expansion of `len` digits has `len` entries, each below 900.
pub proof fn lemma_base900_shape(n: nat, len: nat)
    ensures
        base900(n, len).len() == len,
        forall|i: int| 0 <= i < len ==> #[trigger] base900(n, len)[i] < 900,
    decreases len,
{
    if len > 0 {
        lemma_base900_shape(n / 900, (len - 1) as nat);
    }
}

/// A number below `900^len` is the value of its `len` base-900 digits.
pub proof fn lemma_base900_value(n: nat, len: nat)
    requires
        n < pow900(len),
    ensures
        base900_value(base900(n, len)) == n,
    decreases len,
{
    if len > 0 {
        lemma_base900_value(n / 900, (len - 1) as nat);
        assert(base900(n, len).drop_last() =~= base900(n / 900, (len - 1) as nat));
    }
}

/// A run of `d` digits spells a number below `10^d`.
pub proof fn lemma_decimal_value_bound(digits: Seq<u8>)
    requires
        all_digits(digits),
    ensures
        decimal_value(digits) < pow10(digits.len()),
    decreases digits.len(),
{
    if digits.len() > 0 {
        lemma_decimal_value_bound(digits.drop_last());
    }
}

/// A number of `d` decimal digits lies below `10^d`, and from `10^(d-1)`
/// on where it is not zero.
pub proof fn lemma_decimal_len_bound(n: nat)
    ensures
        n < pow10(decimal_len(n)),
        n > 0 ==> pow10((decimal_len(n) - 1) as nat) <= n,
    decreases n,
{
    if n > 0 {
        lemma_decimal_len_bound(n / 10);
    }
}

/// Powers of ten grow with the exponent.
pub proof fn lemma_pow10_increases(a: nat, b: nat)
    requires
        a <= b,
    ensures
        0 < pow10(a) <= pow10(b),
    decreases b,
{
    if a < b {
        lemma_pow10_increases(a, (b - 1) as nat);
    } else if b > 0 {
        lemma_pow10_increases((a - 1) as nat, (b - 1) as nat);
    }
}

/// The values of the powers that bound the arithmetic of this module.
pub proof fn lemma_pow10_values()
    ensures
        pow10(20) == 100_000_000_000_000_000_000nat,
        pow10(44) == 100_000_000_000_000_000_000_000_000_000_000_000_000_000_000nat,
{
    assert(pow10(4) == 10_000) by {
        reveal_with_fuel(pow10, 5);
    }
    assert(pow10(8) == 100_000_000) by {
        lemma_pow10_adds(4, 4);
    }
    assert(pow10(16) == 10_000_000_000_000_000) by {
        lemma_pow10_adds(8, 8);
    }
    assert(pow10(20) == 100_000_000_000_000_000_000nat) by {
        lemma_pow10_adds(16, 4);
    }
    assert(pow10(40) == 10_000_000_000_000_000_000_000_000_000_000_000_000_000nat) by {
        lemma_pow10_adds(20, 20);
    }
    assert(pow10(44) == 100_000_000_000_000_000_000_000_000_000_000_000_000_000_000nat) by {
        lemma_pow10_adds(40, 4);
    }
}

/// `10^(a + b) == 10^a * 10^b`.
pub proof fn lemma_pow10_adds(a: nat, b: nat)
    ensures
        pow10(a + b) == pow10(a) * pow10(b),
    decreases b,
{
    if b == 0 {
        assert(pow10(a) * 1 == pow10(a));
    } else {
        lemma_pow10_adds(a, (b - 1) as nat);
        assert(pow10(a + b) == 10 * pow10((a + b - 1) as nat));
        assert(10 * (pow10(a) * pow10((b - 1) as nat)) == pow10(a) * (10 * pow10((b - 1) as nat)))
            by (nonlinear_arith);
    }
}

/// Writes the last `len` base-900 digits of `x` into `out[at..at + len]`,
/// the most significant first, and leaves the other slots as they are.
pub fn write_base900(out: &mut [u16], at: usize, len: usize, x: u128)
    requires
        at + len <= old(out)@.len(),
    ensures
        final(out)@ == splice(old(out)@, at as int, base900(x as nat, len as nat)),
{
    let ghost before = out@;
    let ghost whole = base900(x as nat, len as nat);
    let mut i: usize = len;
    let mut rest: u128 = x;
    let size = out.len();
    proof {
        lemma_base900_shape(x as nat, len as nat);
    }
    while i > 0
        invariant
            i <= len,
            at + len <= size,
            size == out@.len(),
            out@.len() == before.len(),
            whole.len() == len,
            forall|m: int| 0 <= m < i ==> #[trigger] whole[m] == base900(rest as nat, i as nat)[m],
            forall|m: int| at + i <= m < at + len ==> #[trigger] out@[m] == whole[m - at],
            forall|m: int|
                0 <= m < before.len() && !(at <= m < at + len) ==> #[trigger] out@[m] == before[m],
        decreases i,
    {
        proof {
            lemma_base900_shape(rest as nat, i as nat);
            lemma_base900_shape((rest / 900) as nat, (i - 1) as nat);
            assert(whole[i - 1] == base900(rest as nat, i as nat)[i - 1]);
        }
        i = i - 1;
        out[at + i] = (rest % 900) as u16;
        rest = rest / 900;
    }
    assert(out@ =~= splice(before, at as int, whole));
}

/// Writes the last `len` base-900 digits of `x` into `out[at..at + len]`,
/// the most significant first, and leaves the other slots as they are.
pub fn write_base900_wide(out: &mut [u16], at: usize, len: usize, x: U160)
    requires
        at + len <= old(out)@.len(),
    ensures
        final(out)@ == splice(old(out)@, at as int, base900(x@ as nat, len as nat)),
{
    let ghost before = out@;
    let ghost whole = base900(x@ as nat, len as nat);
    let mut i: usize = len;
    let mut rest = x;
    let size = out.len();
    proof {
        x.lemma_bounded();
        lemma_base900_shape(x@ as nat, len as nat);
    }
    while i > 0
        invariant
            i <= len,
            at + len <= size,
            size == out@.len(),
            out@.len() == before.len(),
            whole.len() == len,
            0 <= rest@,
            forall|m: int| 0 <= m < i ==> #[trigger] whole[m] == base900(rest@ as nat, i as nat)[m],
            forall|m: int| at + i <= m < at + len ==> #[trigger] out@[m] == whole[m - at],
            forall|m: int|
                0 <= m < before.len() && !(at <= m < at + len) ==> #[trigger] out@[m] == before[m],
        decreases i,
    {
        proof {
            lemma_base900_shape(rest@ as nat, i as nat);
            lemma_base900_shape((rest@ / 900) as nat, (i - 1) as nat);
            assert(whole[i - 1] == base900(rest@ as nat, i as nat)[i - 1]);
        }
        i = i - 1;
        let digit = rest.div_rem_small(900);
        out[at + i] = digit as u16;
        proof {
            rest.lemma_bounded();
        }
    }
    assert(out@ =~= splice(before, at as int, whole));
}

/// Counts the decimal digits of `n`; zero has none.
pub fn count_digits(n: u64) -> (d: usize)
    ensures
        d == decimal_len(n as nat),
        d <= 20,
{
    let mut d: usize = 0;
    let mut rest: u64 = n;
    proof {
        lemma_decimal_len_bound(n as nat);
        lemma_pow10_values();
        if decimal_len(n as nat) > 20 {
            lemma_pow10_increases(20, (decimal_len(n as nat) - 1) as nat);
        }
    }
    while rest > 0
        invariant
            d + decimal_len(rest as nat) == decimal_len(n as nat),
            decimal_len(n as nat) <= 20,
        decreases rest,
    {
        rest = rest / 10;
        d = d + 1;
    }
    d
}

/// Writes the numeric block of `n` into `out` from `at` on and returns its
/// length.
pub fn write_number(out: &mut [u16], at: usize, n: u64) -> (len: usize)
    requires
        at + number_codewords(n).len() <= old(out)@.len(),
    ensures
        len == number_codewords(n).len(),
        len == decimal_len(n as nat) / 3 + 1,
        final(out)@ == splice(old(out)@, at as int, number_codewords(n)),
{
    let d = count_digits(n);
    let len = d / 3 + 1;
    let mut lead: u128 = 1;
    let mut i: usize = 0;
    proof {
        lemma_base900_shape(pow10(d as nat) + n as nat, (d / 3 + 1) as nat);
        lemma_pow10_values();
    }
    while i < d
        invariant
            i <= d <= 20,
            lead == pow10(i as nat),
            pow10(20) == 100_000_000_000_000_000_000nat,
        decreases d - i,
    {
        proof {
            lemma_pow10_increases((i + 1) as nat, 20);
        }
        lead = lead * 10;
        i = i + 1;
    }
    proof {
        lemma_pow10_increases(d as nat, 20);
    }
    write_base900(out, at, len, lead + n as u128);
    len
}

/// Writes the numeric block of the digits `s[from..to]` into `out` from
/// `at` on and returns its length.
pub fn write_digits(out: &mut [u16], at: usize, s: &[u8], from: usize, to: usize) -> (len: usize)
    requires
        from <= to <= s@.len(),
        to - from <= 44,
        all_digits(s@.subrange(from as int, to as int)),
        at + (to - from) / 3 + 1 <= old(out)@.len(),
    ensures
        len == (to - from) / 3 + 1,
        len == digits_codewords(s@.subrange(from as int, to as int)).len(),
        final(out)@ == splice(
            old(out)@,
            at as int,
            digits_codewords(s@.subrange(from as int, to as int)),
        ),
{
    let ghost run = s@.subrange(from as int, to as int);
    let mut acc = U160::one();
    let mut k: usize = from;
    proof {
        lemma_pow10_values();
        assert(run.subrange(0, 0) =~= Seq::<u8>::empty());
    }
    while k < to
        invariant
            from <= k <= to <= s@.len(),
            to - from <= 44,
            run == s@.subrange(from as int, to as int),
            all_digits(run),
            acc@ == pow10((k - from) as nat) + decimal_value(run.subrange(0, k - from)),
            pow10(44) == 100_000_000_000_000_000_000_000_000_000_000_000_000_000_000nat,
        decreases to - k,
    {
        let ghost seen = run.subrange(0, k - from);
        let ghost next = run.subrange(0, k - from + 1);
        proof {
            assert(next.drop_last() =~= seen);
            assert(next.last() == s@[k as int]);
            assert(is_digit(run[k - from]));
            lemma_decimal_value_bound(next);
            lemma_pow10_increases((k - from + 1) as nat, 44);
        }
        let ghost was = acc@;
        let carry = acc.mul_small_add(10, (s[k] - 48) as u32);
        proof {
            acc.lemma_bounded();
            let now = pow10((k - from + 1) as nat) + decimal_value(next);
            assert(was * 10 + (s@[k as int] - 48) == now);
            assert(now < crate::bignum::bound());
            assert(carry == 0) by {
                if carry > 0 {
                    assert(carry * crate::bignum::bound() >= crate::bignum::bound())
                        by (nonlinear_arith)
                        requires
                            carry >= 1,
                            crate::bignum::bound() > 0,
                    ;
                }
            }
        }
        k = k + 1;
    }
    proof {
        assert(run.subrange(0, to - from) =~= run);
        lemma_base900_shape(acc@ as nat, ((to - from) / 3 + 1) as nat);
    }
    let len = (to - from) / 3 + 1;
    write_base900_wide(out, at, len, acc);
    len
}

/// `900^(a + b) == 900^a * 900^b`.
pub proof fn lemma_pow900_adds(a: nat, b: nat)
    ensures
        pow900(a + b) == pow900(a) * pow900(b),
    decreases b,
{
    if b == 0 {
        assert(pow900(a) * 1 == pow900(a));
    } else {
        lemma_pow900_adds(a, (b - 1) as nat);
        assert(pow900(a + b) == 900 * pow900((a + b - 1) as nat));
        assert(900 * (pow900(a) * pow900((b - 1) as nat)) == pow900(a) * (900 * pow900(
            (b - 1) as nat,
        ))) by (nonlinear_arith);
    }
}

/// The fifteen codewords of the longest numeric block hold twice `10^44`.
pub proof fn lemma_pow900_15()
    ensures
        pow900(15) == 205_891_132_094_649_000_000_000_000_000_000_000_000_000_000nat,
{
    assert(pow900(3) == 729_000_000) by {
        reveal_with_fuel(pow900, 4);
    }
    assert(pow900(6) == 531_441_000_000_000_000) by {
        lemma_pow900_adds(3, 3);
    }
    assert(pow900(12) == 282_429_536_481_000_000_000_000_000_000_000_000nat) by {
        lemma_pow900_adds(6, 6);
    }
    assert(pow900(15) == 205_891_132_094_649_000_000_000_000_000_000_000_000_000_000nat) by {
        lemma_pow900_adds(12, 3);
    }
}

/// A number of up to 44 digits, with the leading one in front of it, has
/// room in its numeric block: twice `10^d` is no more than
/// `900^(d / 3 + 1)`.
pub proof fn lemma_block_upper(d: nat)
    requires
        d <= 44,
    ensures
        2 * pow10(d) <= pow900(d / 3 + 1),
    decreases 44 - d,
{
    if d >= 42 {
        lemma_pow10_values();
        lemma_pow900_15();
        lemma_pow10_increases(d, 44);
    } else {
        lemma_block_upper(d + 3);
        assert(pow10(d + 3) == 1000 * pow10(d)) by {
            reveal_with_fuel(pow10, 4);
        }
        assert((d + 3) / 3 + 1 == d / 3 + 2);
        assert(pow900(d / 3 + 2) == 900 * pow900(d / 3 + 1));
    }
}

/// A number of `d` digits with the leading one in front of it needs all
/// the codewords of its numeric block: `900^(d / 3)` is no more than
/// `10^d`.
pub proof fn lemma_block_lower(d: nat)
    ensures
        pow900(d / 3) <= pow10(d),
    decreases d,
{
    if d < 3 {
        lemma_pow10_increases(0, d);
    } else {
        lemma_block_lower((d - 3) as nat);
        assert(pow10(d) == 1000 * pow10((d - 3) as nat)) by {
            reveal_with_fuel(pow10, 4);
        }
        assert(d / 3 == (d - 3) / 3 + 1);
        assert(pow900(d / 3) == 900 * pow900(((d - 3) / 3) as nat));
    }
}

/// The first of the `len` base-900 digits of a number from `900^(len-1)`
/// on is not zero.
pub proof fn lemma_base900_top(n: nat, len: nat)
    requires
        len >= 1,
        pow900((len - 1) as nat) <= n,
    ensures
        base900(n, len).len() == len,
        n < pow900(len) ==> base900(n, len)[0] >= 1,
    decreases len,
{
    lemma_base900_shape(n, len);
    if n < pow900(len) {
        if len == 1 {
            assert(pow900(0) == 1);
            assert(pow900(1) == 900) by {
                reveal_with_fuel(pow900, 2);
            }
            assert(base900(n / 900, 0).push((n % 900) as u16)[0] == (n % 900) as u16);
        } else {
            let p = pow900((len - 2) as nat);
            assert(pow900((len - 1) as nat) == 900 * p);
            assert(pow900(len) == 900 * (900 * p));
            assert(p <= n / 900 < 900 * p);
            lemma_base900_top(n / 900, (len - 1) as nat);
            lemma_base900_shape(n / 900, (len - 1) as nat);
            assert(base900(n, len)[0] == base900(n / 900, (len - 1) as nat)[0]);
        }
    }
}

/// A numeric block is exact: the codewords of a number below `10^d` that
/// is written with `d <= 44` digits spell `10^d` plus the number in base
/// 900, and the first of them is not zero.
pub proof fn lemma_numeric_exact(d: nat, n: nat)
    requires
        d <= 44,
        n < pow10(d),
    ensures
        numeric_codewords(d, n).len() == d / 3 + 1,
        base900_value(numeric_codewords(d, n)) == pow10(d) + n,
        numeric_codewords(d, n)[0] >= 1,
{
    lemma_block_upper(d);
    lemma_block_lower(d);
    lemma_base900_value(pow10(d) + n, d / 3 + 1);
    lemma_base900_top(pow10(d) + n, d / 3 + 1);
}

} // verus!
