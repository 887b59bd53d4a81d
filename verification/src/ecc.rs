//! Error-correction codewords: a convolution in the integers modulo 929.
//!
//! The correction codewords of a symbol come out of a shift register that
//! the data codewords are fed through. The taps of the register are the
//! factor table of the level: the coefficients of the generator
//! polynomial `(x - 3)(x - 3^2)...(x - 3^k)` modulo 929, which this
//! module derives instead of storing.

use vstd::arithmetic::power2::{lemma2_to64, lemma_pow2_unfold, pow2};
use vstd::prelude::*;
use vstd::slice::slice_subrange;

verus! {

/// Tells whether every one of `codewords` is a codeword: a number up to
/// 928.
pub open spec fn all_codewords(codewords: Seq<u16>) -> bool {
    forall|i: int| 0 <= i < codewords.len() ==> #[trigger] codewords[i] < 929
}

/// The seventeen correction-codeword counts that MicroPDF417 uses, in the
/// order in which their factor tables follow each other in the combined
/// table.
pub const MICRO_COUNTS: [u16; 17] = [7, 8, 9, 10, 11, 12, 13, 14, 15, 16, 18, 21, 26, 32, 38, 44, 50];

/// The number of error-correction codewords of a level: two to the power
/// `level + 1`.
pub open spec fn ecc_count_spec(level: u8) -> nat {
    pow2((level + 1) as nat)
}

/// `3^j` modulo 929: the `j`-th root of the generator polynomial.
pub open spec fn root(j: nat) -> int
    decreases j,
{
    if j == 0 {
        1
    } else {
        (3 * root((j - 1) as nat)) % 929
    }
}

/// The product `p(x) * (x - r)` modulo 929, on coefficient sequences with
/// the lowest degree first.
pub open spec fn times_linear(p: Seq<int>, r: int) -> Seq<int> {
    Seq::new(
        p.len() + 1,
        |i: int|
            ((if i > 0 {
                p[i - 1]
            } else {
                0
            }) - r * (if i < p.len() {
                p[i]
            } else {
                0
            })) % 929,
    )
}

/// The generator polynomial of `k` correction codewords,
/// `(x - 3)(x - 3^2)...(x - 3^k)` modulo 929: `k + 1` coefficients, lowest
/// degree first, the last of them 1.
pub open spec fn generator(k: nat) -> Seq<int>
    decreases k,
{
    if k == 0 {
        seq![1int]
    } else {
        times_linear(generator((k - 1) as nat), root(k))
    }
}

/// The factor table of `k` correction codewords: the generator
/// polynomial without its leading coefficient.
pub open spec fn factors(k: nat) -> Seq<u16> {
    Seq::new(k, |i: int| generator(k)[i] as u16)
}

/// The factor tables of the first `n` MicroPDF417 counts, one after the
/// other.
pub open spec fn micro_table_prefix(n: nat) -> Seq<u16>
    decreases n,
{
    if n == 0 {
        Seq::empty()
    } else {
        micro_table_prefix((n - 1) as nat) + factors(MICRO_COUNTS[n - 1] as nat)
    }
}

/// The combined MicroPDF417 factor table: the tables of all seventeen
/// counts, 344 entries.
pub open spec fn micro_table() -> Seq<u16> {
    micro_table_prefix(17)
}

/// Where the factor table of each MicroPDF417 count starts in the combined
/// table; the last entry is the length of the whole.
pub const MICRO_OFFSETS: [u16; 18] = [
    0,
    7,
    15,
    24,
    34,
    45,
    57,
    70,
    84,
    99,
    115,
    133,
    154,
    180,
    212,
    250,
    294,
    344,
];

/// The factor tables of the first `n` counts take up `MICRO_OFFSETS[n]`
/// entries, so the table of the `n`-th count starts there.
pub proof fn lemma_micro_offsets(n: nat)
    requires
        n <= 17,
    ensures
        micro_table_prefix(n).len() == MICRO_OFFSETS[n as int],
        n < 17 ==> MICRO_OFFSETS[n as int] + MICRO_COUNTS[n as int] == MICRO_OFFSETS[n + 1 as int],
    decreases n,
{
    if n > 0 {
        lemma_micro_offsets((n - 1) as nat);
    }
}

/// The combined table holds, from `MICRO_OFFSETS[n]` on, the factor table
/// of the `n`-th count.
pub proof fn lemma_micro_table_slice(n: nat)
    requires
        n < 17,
    ensures
        micro_table().len() == 344,
        micro_table().subrange(
            MICRO_OFFSETS[n as int] as int,
            MICRO_OFFSETS[n as int] + MICRO_COUNTS[n as int],
        ) == factors(MICRO_COUNTS[n as int] as nat),
{
    lemma_micro_offsets(17);
    lemma_micro_prefix_extends(n + 1, 17);
    lemma_micro_offsets(n);
    lemma_micro_offsets(n + 1);
    let whole = micro_table();
    let upto = micro_table_prefix(n + 1);
    let f = factors(MICRO_COUNTS[n as int] as nat);
    assert(upto == micro_table_prefix(n) + f);
    assert(whole.subrange(0, upto.len() as int) == upto);
    assert(whole.subrange(
        MICRO_OFFSETS[n as int] as int,
        MICRO_OFFSETS[n as int] + MICRO_COUNTS[n as int],
    ) =~= f) by {
        assert forall|i: int| 0 <= i < f.len() implies whole[MICRO_OFFSETS[n as int] + i]
            == f[i] by {
            assert(whole.subrange(0, upto.len() as int)[MICRO_OFFSETS[n as int] + i]
                == upto[MICRO_OFFSETS[n as int] + i]);
        }
    }
}

/// The tables of the first `n` counts are the head of the tables of the
/// first `m`, for `n <= m`.
pub proof fn lemma_micro_prefix_extends(n: nat, m: nat)
    requires
        n <= m <= 17,
    ensures
        micro_table_prefix(n).len() <= micro_table_prefix(m).len(),
        micro_table_prefix(m).subrange(0, micro_table_prefix(n).len() as int)
            == micro_table_prefix(n),
    decreases m - n,
{
    if n < m {
        lemma_micro_prefix_extends(n, (m - 1) as nat);
        let a = micro_table_prefix((m - 1) as nat);
        let b = micro_table_prefix(m);
        let len = micro_table_prefix(n).len() as int;
        assert(b.subrange(0, len) =~= a.subrange(0, len));
    } else {
        assert(micro_table_prefix(m).subrange(0, micro_table_prefix(n).len() as int)
            =~= micro_table_prefix(n));
    }
}

/// One step of the convolution: the correction register `e` after the data
/// codeword `cw` has been fed in.
pub open spec fn ecc_step(e: Seq<u16>, cw: u16, f: Seq<u16>) -> Seq<u16> {
    let n = f.len() as int;
    let t = (cw + e[0]) % 929;
    Seq::new(
        f.len(),
        |j: int|
            (((if j + 1 < n {
                e[j + 1] as int
            } else {
                0
            }) + 929 - (t * f[n - 1 - j]) % 929) % 929) as u16,
    )
}

/// The correction register after all of `data` has been fed in, starting
/// from zeros.
pub open spec fn ecc_register(data: Seq<u16>, f: Seq<u16>) -> Seq<u16>
    decreases data.len(),
{
    if data.len() == 0 {
        Seq::new(f.len(), |j: int| 0u16)
    } else {
        ecc_step(ecc_register(data.drop_last(), f), data.last(), f)
    }
}

/// The correction codewords of `data` under the factor table `f`: the
/// final register with every nonzero entry `e` replaced by `929 - e`.
pub open spec fn ecc_codewords(data: Seq<u16>, f: Seq<u16>) -> Seq<u16> {
    Seq::new(
        f.len(),
        |j: int|
            {
                let e = ecc_register(data, f)[j];
                if e != 0 {
                    (929 - e) as u16
                } else {
                    0u16
                }
            },
    )
}

/// The buffer `buf` with its last `f.len()` slots replaced by the
/// correction codewords of the slots before them.
pub open spec fn with_ecc(buf: Seq<u16>, f: Seq<u16>) -> Seq<u16> {
    let data = buf.subrange(0, buf.len() - f.len());
    data + ecc_codewords(data, f)
}

/// The numbers of correction codewords of the nine levels.
pub proof fn lemma_ecc_counts()
    ensures
        ecc_count_spec(0) == 2,
        ecc_count_spec(1) == 4,
        ecc_count_spec(2) == 8,
        ecc_count_spec(3) == 16,
        ecc_count_spec(4) == 32,
        ecc_count_spec(5) == 64,
        ecc_count_spec(6) == 128,
        ecc_count_spec(7) == 256,
        ecc_count_spec(8) == 512,
{
    lemma2_to64();
}

/// Every entry of a correction register is a residue modulo 929.
pub proof fn lemma_register_bounded(data: Seq<u16>, f: Seq<u16>)
    ensures
        ecc_register(data, f).len() == f.len(),
        forall|j: int| 0 <= j < f.len() ==> #[trigger] ecc_register(data, f)[j] < 929,
    decreases data.len(),
{
    if data.len() > 0 {
        lemma_register_bounded(data.drop_last(), f);
    }
}

/// The generator polynomial of `k` codewords has `k + 1` coefficients, all
/// residues modulo 929, and is monic.
pub proof fn lemma_generator_shape(k: nat)
    ensures
        generator(k).len() == k + 1,
        forall|i: int| 0 <= i <= k ==> 0 <= #[trigger] generator(k)[i] < 929,
        generator(k)[k as int] == 1,
    decreases k,
{
    if k > 0 {
        lemma_generator_shape((k - 1) as nat);
    }
}

/// Correction codewords are codewords.
pub proof fn lemma_ecc_codewords_bounded(data: Seq<u16>, f: Seq<u16>)
    ensures
        ecc_codewords(data, f).len() == f.len(),
        all_codewords(ecc_codewords(data, f)),
{
    lemma_register_bounded(data, f);
}

/// A buffer of codewords is one still when it carries its correction
/// codewords.
pub proof fn lemma_with_ecc_bounded(buf: Seq<u16>, f: Seq<u16>)
    requires
        f.len() <= buf.len(),
        all_codewords(buf.subrange(0, buf.len() - f.len())),
    ensures
        with_ecc(buf, f).len() == buf.len(),
        all_codewords(with_ecc(buf, f)),
{
    let data = buf.subrange(0, buf.len() - f.len());
    lemma_ecc_codewords_bounded(data, f);
    assert forall|i: int| 0 <= i < with_ecc(buf, f).len() implies #[trigger] with_ecc(buf, f)[i]
        < 929 by {
        if i < data.len() {
            assert(with_ecc(buf, f)[i] == data[i]);
        } else {
            assert(with_ecc(buf, f)[i] == ecc_codewords(data, f)[i - data.len()]);
        }
    }
}

/// Sealing is idempotent: a buffer that already carries its correction
/// codewords is left as it is by a second pass with the same factors.
pub proof fn lemma_ecc_idempotent(buf: Seq<u16>, f: Seq<u16>)
    requires
        f.len() <= buf.len(),
    ensures
        with_ecc(with_ecc(buf, f), f) == with_ecc(buf, f),
{
    let data = buf.subrange(0, buf.len() - f.len());
    let once = with_ecc(buf, f);
    assert(once.subrange(0, once.len() - f.len()) =~= data);
}

/// The correction codewords depend on the data region alone: two buffers
/// of one length that agree before their last `f.len()` slots are sealed
/// to the same buffer.
pub proof fn lemma_ecc_deterministic(a: Seq<u16>, b: Seq<u16>, f: Seq<u16>)
    requires
        a.len() == b.len(),
        f.len() <= a.len(),
        a.subrange(0, a.len() - f.len()) == b.subrange(0, b.len() - f.len()),
    ensures
        with_ecc(a, f) == with_ecc(b, f),
{
}

/// Returns the number of error-correction codewords that a level of a
/// regular PDF417 reserves: 2 at level 0, doubling with each level up to
/// 512 at level 8.
pub fn ecc_count(level: u8) -> (count: usize)
    requires
        level <= 8,
    ensures
        count == ecc_count_spec(level),
        2 <= count <= 512,
{
    let mut count: usize = 2;
    let mut l: u8 = 0;
    proof {
        lemma2_to64();
    }
    while l < level
        invariant
            l <= level <= 8,
            count == pow2((l + 1) as nat),
            2 <= count <= pow2(9),
            pow2(9) == 512,
        decreases level - l,
    {
        proof {
            lemma_pow2_unfold((l + 2) as nat);
            if l + 2 < 9 {
                vstd::arithmetic::power2::lemma_pow2_strictly_increases((l + 2) as nat, 9);
            }
        }
        count = count * 2;
        l = l + 1;
    }
    count
}

/// Subtraction modulo 929 as the executable code computes it, without
/// leaving the unsigned integers.
proof fn lemma_sub_mod(prev: int, x: int)
    ensures
        (prev + 929 - x % 929) % 929 == (prev - x) % 929,
{
    vstd::arithmetic::div_mod::lemma_sub_mod_noop_right(prev + 929, x, 929);
    vstd::arithmetic::div_mod::lemma_mod_add_multiples_vanish(prev - x, 929);
}

/// Writes the factor table of `k` correction codewords into
/// `table[at..at + k]` and leaves the other slots as they are.
pub fn write_factors(table: &mut [u16], at: usize, k: usize)
    requires
        at + k <= old(table)@.len(),
    ensures
        final(table)@.len() == old(table)@.len(),
        final(table)@.subrange(at as int, at + k) == factors(k as nat),
        forall|i: int|
            0 <= i < old(table)@.len() && !(at <= i < at + k) ==> final(table)@[i] == old(table)@[i],
{
    let ghost before = table@;
    let mut j: usize = 0;
    let mut r: u32 = 1;
    let len = table.len();
    while j < k
        invariant
            j <= k,
            at + k <= len,
            len == table@.len(),
            table@.len() == before.len(),
            r == root(j as nat),
            0 <= r < 929,
            forall|i: int| at <= i < at + j ==> #[trigger] table@[i] == generator(j as nat)[i - at],
            forall|i: int| 0 <= i < before.len() && !(at <= i < at + k) ==> table@[i] == before[i],
        decreases k - j,
    {
        // Multiply the polynomial of degree `j` by `x - 3^(j + 1)`.
        r = (r * 3) % 929;
        let ghost p = generator(j as nat);
        let ghost q = times_linear(p, r as int);
        proof {
            lemma_generator_shape(j as nat);
            assert(generator((j + 1) as nat) == q);
        }
        let top: u32 = if j > 0 {
            table[at + j - 1] as u32
        } else {
            0
        };
        table[at + j] = ((top + 929 - r) % 929) as u16;
        proof {
            assert(p[j as int] == 1);
            lemma_sub_mod(top as int, r as int);
            assert(r * p[j as int] == r) by (nonlinear_arith)
                requires
                    p[j as int] == 1,
            ;
            assert(table@[at + j] == q[j as int]);
        }
        let mut i: usize = j;
        while i > 0
            invariant
                i <= j < k,
                at + k <= len,
                len == table@.len(),
                table@.len() == before.len(),
                0 <= r < 929,
                q == times_linear(p, r as int),
                p.len() == j + 1,
                forall|m: int| 0 <= m <= j ==> 0 <= #[trigger] p[m] < 929,
                forall|m: int| at <= m < at + i ==> #[trigger] table@[m] == p[m - at],
                forall|m: int| at + i <= m <= at + j ==> #[trigger] table@[m] == q[m - at],
                forall|m: int|
                    0 <= m < before.len() && !(at <= m < at + k) ==> table@[m] == before[m],
            decreases i,
        {
            i = i - 1;
            let cur: u32 = table[at + i] as u32;
            let prev: u32 = if i > 0 {
                table[at + i - 1] as u32
            } else {
                0
            };
            assert(cur == p[i as int]);
            assert(i > 0 ==> prev == p[i - 1]);
            assert(r * cur <= 928 * 928) by (nonlinear_arith)
                requires
                    0 <= r <= 928,
                    0 <= cur <= 928,
            ;
            let prod: u32 = (r * cur) % 929;
            let next: u32 = (prev + 929 - prod) % 929;
            proof {
                lemma_sub_mod(prev as int, r as int * cur as int);
                assert(next == q[i as int]);
            }
            table[at + i] = next as u16;
        }
        j = j + 1;
    }
    proof {
        lemma_generator_shape(k as nat);
        assert(table@.subrange(at as int, at + k) =~= factors(k as nat));
    }
}

/// Calculates the correction codewords of `codewords` in place under the
/// factor table `factors`: the last `factors.len()` slots are overwritten
/// with the correction codewords of the slots before them.
pub fn generate_ecc_codewords(factors: &[u16], codewords: &mut [u16])
    requires
        0 < factors@.len() <= old(codewords)@.len(),
    ensures
        final(codewords)@ == with_ecc(old(codewords)@, factors@),
{
    let n = factors.len();
    let total = codewords.len();
    let nd = total - n;
    let ghost before = codewords@;
    let ghost data = before.subrange(0, nd as int);
    let ghost f = factors@;

    let mut j: usize = 0;
    while j < n
        invariant
            j <= n,
            nd + n == total,
            codewords@.len() == total,
            forall|m: int| 0 <= m < nd ==> codewords@[m] == data[m],
            forall|m: int| nd <= m < nd + j ==> codewords@[m] == 0,
        decreases n - j,
    {
        codewords[nd + j] = 0;
        j = j + 1;
    }
    assert(data.subrange(0, 0) =~= Seq::<u16>::empty());
    assert(codewords@.subrange(nd as int, total as int) =~= ecc_register(data.subrange(0, 0), f));

    let mut idx: usize = 0;
    while idx < nd
        invariant
            idx <= nd,
            0 < n,
            n == f.len(),
            f == factors@,
            nd + n == total,
            codewords@.len() == total,
            data.len() == nd,
            forall|m: int| 0 <= m < nd ==> codewords@[m] == data[m],
            codewords@.subrange(nd as int, total as int) == ecc_register(
                data.subrange(0, idx as int),
                f,
            ),
        decreases nd - idx,
    {
        let ghost seen = data.subrange(0, idx as int);
        let ghost e = ecc_register(seen, f);
        let ghost e2 = ecc_step(e, data[idx as int], f);
        proof {
            lemma_register_bounded(seen, f);
            assert(forall|m: int|
                nd <= m < total ==> codewords@[m] == codewords@.subrange(
                    nd as int,
                    total as int,
                )[m - nd]);
        }
        let t: u32 = (codewords[idx] as u32 + codewords[nd] as u32) % 929;
        let mut j: usize = 0;
        while j < n
            invariant
                j <= n,
                0 < n,
                idx < nd,
                n == f.len(),
                f == factors@,
                nd + n == total,
                codewords@.len() == total,
                data.len() == nd,
                forall|m: int| 0 <= m < nd ==> codewords@[m] == data[m],
                e.len() == n,
                forall|m: int| 0 <= m < n ==> #[trigger] e[m] < 929,
                t == (data[idx as int] + e[0]) % 929,
                e2 == ecc_step(e, data[idx as int], f),
                forall|m: int| nd <= m < nd + j ==> codewords@[m] == e2[m - nd],
                forall|m: int| nd + j <= m < total ==> codewords@[m] == e[m - nd],
            decreases n - j,
        {
            let fac: u32 = factors[n - 1 - j] as u32;
            assert(t * fac <= 928 * 65535) by (nonlinear_arith)
                requires
                    0 <= t <= 928,
                    0 <= fac <= 65535,
            ;
            let factor: u32 = (t * fac) % 929;
            let d: u32 = if j + 1 < n {
                codewords[nd + j + 1] as u32
            } else {
                0
            };
            codewords[nd + j] = ((d + 929 - factor) % 929) as u16;
            assert(codewords@[nd + j] == e2[j as int]);
            j = j + 1;
        }
        proof {
            assert(data.subrange(0, idx + 1).drop_last() =~= seen);
            assert(data.subrange(0, idx + 1).last() == data[idx as int]);
            assert(codewords@.subrange(nd as int, total as int) =~= e2);
        }
        idx = idx + 1;
    }
    assert(data.subrange(0, nd as int) =~= data);

    let ghost reg = ecc_register(data, f);
    proof {
        lemma_register_bounded(data, f);
        assert(forall|m: int|
            nd <= m < total ==> codewords@[m] == codewords@.subrange(nd as int, total as int)[m
                - nd]);
    }
    let mut j: usize = 0;
    while j < n
        invariant
            j <= n,
            n == f.len(),
            nd + n == total,
            codewords@.len() == total,
            data.len() == nd,
            forall|m: int| 0 <= m < nd ==> codewords@[m] == data[m],
            reg == ecc_register(data, f),
            reg.len() == n,
            forall|m: int| 0 <= m < n ==> #[trigger] reg[m] < 929,
            forall|m: int| nd <= m < nd + j ==> codewords@[m] == ecc_codewords(data, f)[m - nd],
            forall|m: int| nd + j <= m < total ==> codewords@[m] == reg[m - nd],
        decreases n - j,
    {
        let e = codewords[nd + j];
        if e != 0 {
            codewords[nd + j] = 929 - e;
        }
        j = j + 1;
    }
    assert(codewords@ =~= data + ecc_codewords(data, f));
}

/// Calculates the correction codewords of a regular symbol in place: the
/// last `2^(level + 1)` slots of `codewords` are overwritten with the
/// correction codewords of the slots before them.
pub fn generate_ecc(codewords: &mut [u16], level: u8)
    requires
        level <= 8,
        ecc_count_spec(level) <= old(codewords)@.len(),
    ensures
        final(codewords)@ == with_ecc(old(codewords)@, factors(ecc_count_spec(level))),
{
    let count = ecc_count(level);
    let mut table = [0u16; 512];
    write_factors(&mut table, 0, count);
    let f = slice_subrange(table.as_slice(), 0, count);
    generate_ecc_codewords(f, codewords);
}

/// Writes the combined MicroPDF417 factor table into `table`.
pub fn write_micro_table(table: &mut [u16; 344])
    ensures
        final(table)@ == micro_table(),
{
    let mut n: usize = 0;
    while n < 17
        invariant
            n <= 17,
            table@.len() == 344,
            table@.subrange(0, MICRO_OFFSETS[n as int] as int) == micro_table_prefix(n as nat),
        decreases 17 - n,
    {
        let at = MICRO_OFFSETS[n] as usize;
        let count = MICRO_COUNTS[n] as usize;
        let ghost head = table@.subrange(0, at as int);
        proof {
            lemma_micro_offsets(n as nat);
            lemma_micro_offsets((n + 1) as nat);
        }
        write_factors(table, at, count);
        proof {
            assert(table@.subrange(0, at + count) =~= head + table@.subrange(
                at as int,
                at + count,
            ));
        }
        n = n + 1;
    }
    proof {
        lemma_micro_offsets(17);
        assert(table@.subrange(0, 344) =~= table@);
    }
}

/// Calculates the correction codewords of a MicroPDF417 symbol in place:
/// the last `count` slots of `codewords` are overwritten with the
/// correction codewords of the slots before them, under the `count`
/// entries of the combined factor table that start at offset `k`.
pub fn generate_micro_ecc(codewords: &mut [u16], count: usize, k: usize)
    requires
        0 < count <= old(codewords)@.len(),
        k + count <= 344,
    ensures
        final(codewords)@ == with_ecc(
            old(codewords)@,
            micro_table().subrange(k as int, k + count),
        ),
{
    let mut table = [0u16; 344];
    write_micro_table(&mut table);
    let f = slice_subrange(table.as_slice(), k, k + count);
    generate_ecc_codewords(f, codewords);
}

} // verus!
