//! Why the correction codewords correct: a sealed buffer, read as a
//! polynomial over the integers modulo 929, vanishes at every root of the
//! generator polynomial.

use crate::ecc::{
    ecc_codewords, ecc_count_spec, ecc_register, ecc_step, factors, generator,
    lemma_generator_shape, lemma_register_bounded, root, with_ecc,
};
use crate::high_level::{sealed, sealed_micro};
use crate::tables::{lemma_variant_bounds, variant_ecc_count};
use vstd::arithmetic::power::{lemma_pow0, lemma_pow1, lemma_pow_adds, pow};
use vstd::prelude::*;

verus! {

/// Tells whether two integers are the same modulo 929.
pub open spec fn congruent(a: int, b: int) -> bool {
    (a - b) % 929 == 0
}

/// The value at `x` of the polynomial whose coefficients are `c`, the
/// highest degree first.
pub open spec fn value_at(c: Seq<int>, x: int) -> int
    decreases c.len(),
{
    if c.len() == 0 {
        0
    } else {
        value_at(c.drop_last(), x) * x + c.last()
    }
}

/// Codewords as integers.
pub open spec fn ints(c: Seq<u16>) -> Seq<int> {
    Seq::new(c.len(), |i: int| c[i] as int)
}

/// The generator polynomial of `k` correction codewords with the highest
/// degree first.
pub open spec fn generator_high(k: nat) -> Seq<int> {
    Seq::new(k + 1, |i: int| generator(k)[k - i])
}

/// Congruent integers stay congruent when both are multiplied by the
/// same.
pub proof fn lemma_congruent_times(a: int, b: int, c: int)
    requires
        congruent(a, b),
    ensures
        congruent(a * c, b * c),
        congruent(c * a, c * b),
{
    let q = (a - b) / 929;
    assert(a - b == 929 * q);
    assert(a * c - b * c == (q * c) * 929) by (nonlinear_arith)
        requires
            a - b == 929 * q,
    ;
    vstd::arithmetic::div_mod::lemma_mod_multiples_basic(q * c, 929);
    assert(c * a == a * c && c * b == b * c) by (nonlinear_arith);
}

/// A product of which one factor is a multiple of 929 is one too.
pub proof fn lemma_congruent_zero_times(a: int, c: int)
    requires
        congruent(a, 0),
    ensures
        congruent(a * c, 0),
        congruent(c * a, 0),
{
    lemma_congruent_times(a, 0, c);
    assert(0 * c == 0 && c * 0 == 0) by (nonlinear_arith);
}

/// The value of two runs of coefficients is that of the first, times `x`
/// to the length of the second, and that of the second.
pub proof fn lemma_value_concat(a: Seq<int>, b: Seq<int>, x: int)
    ensures
        value_at(a + b, x) == value_at(a, x) * pow(x, b.len()) + value_at(b, x),
    decreases b.len(),
{
    if b.len() == 0 {
        assert(a + b =~= a);
        lemma_pow0(x);
        assert(value_at(a, x) * 1 == value_at(a, x));
    } else {
        let head = b.drop_last();
        lemma_value_concat(a, head, x);
        assert((a + b).drop_last() =~= a + head);
        assert((a + b).last() == b.last());
        lemma_pow_adds(x, head.len(), 1);
        lemma_pow1(x);
        let va = value_at(a, x);
        let p = pow(x, head.len());
        assert((va * p + value_at(head, x)) * x == va * (p * x) + value_at(head, x) * x)
            by (nonlinear_arith);
    }
}

/// The value of a single coefficient is the coefficient.
pub proof fn lemma_value_one(a: int, x: int)
    ensures
        value_at(seq![a], x) == a,
{
    assert(seq![a].drop_last() =~= Seq::<int>::empty());
    assert(value_at(seq![a].drop_last(), x) == 0);
    assert(0 * x == 0) by (nonlinear_arith);
}

/// Coefficients that are congruent one by one give congruent values.
pub proof fn lemma_value_congruent(a: Seq<int>, b: Seq<int>, x: int)
    requires
        a.len() == b.len(),
        forall|i: int| 0 <= i < a.len() ==> congruent(#[trigger] a[i], b[i]),
    ensures
        congruent(value_at(a, x), value_at(b, x)),
    decreases a.len(),
{
    if a.len() > 0 {
        lemma_value_congruent(a.drop_last(), b.drop_last(), x);
        lemma_congruent_times(value_at(a.drop_last(), x), value_at(b.drop_last(), x), x);
        assert(congruent(a[a.len() - 1], b[a.len() - 1]));
    }
}

/// The value of `a[i] - t * b[i]` is the value of `a` less `t` times the
/// value of `b`.
pub proof fn lemma_value_linear(a: Seq<int>, b: Seq<int>, t: int, x: int)
    requires
        a.len() == b.len(),
    ensures
        value_at(Seq::new(a.len(), |i: int| a[i] - t * b[i]), x) == value_at(a, x) - t * value_at(
            b,
            x,
        ),
    decreases a.len(),
{
    let c = Seq::new(a.len(), |i: int| a[i] - t * b[i]);
    if a.len() == 0 {
        assert(t * 0 == 0) by (nonlinear_arith);
    } else {
        lemma_value_linear(a.drop_last(), b.drop_last(), t, x);
        assert(c.drop_last() =~= Seq::new(
            a.drop_last().len(),
            |i: int| a.drop_last()[i] - t * b.drop_last()[i],
        ));
        let va = value_at(a.drop_last(), x);
        let vb = value_at(b.drop_last(), x);
        assert((va - t * vb) * x + (a.last() - t * b.last()) == (va * x + a.last()) - t * (vb * x
            + b.last())) by (nonlinear_arith);
    }
}

/// Multiplying the generator polynomial by `x - 3^k` multiplies its value.
pub proof fn lemma_generator_step(k: nat, x: int)
    requires
        k >= 1,
    ensures
        congruent(
            value_at(generator_high(k), x),
            value_at(generator_high((k - 1) as nat), x) * (x - root(k)),
        ),
{
    let p = generator_high((k - 1) as nat);
    let q = generator_high(k);
    let r = root(k);
    lemma_generator_shape(k);
    lemma_generator_shape((k - 1) as nat);
    // The coefficients of the product, before they are reduced.
    let shifted = p.push(0);
    let scaled = seq![0int] + p;
    let raw = Seq::new(q.len(), |i: int| shifted[i] - r * scaled[i]);
    assert forall|i: int| 0 <= i < q.len() implies congruent(#[trigger] q[i], raw[i]) by {
        let low = generator((k - 1) as nat);
        assert(q[i] == generator(k)[k - i]);
        assert(generator(k)[k - i] == ((if k - i > 0 {
            low[k - i - 1]
        } else {
            0
        }) - r * (if k - i < low.len() {
            low[k - i]
        } else {
            0
        })) % 929);
        if i < k {
            assert(shifted[i] == p[i]);
            assert(p[i] == low[k - 1 - i]);
        }
        if i >= 1 {
            assert(scaled[i] == p[i - 1]);
            assert(p[i - 1] == low[k - i]);
        }
    }
    lemma_value_congruent(q, raw, x);
    lemma_value_linear(shifted, scaled, r, x);
    // The value of the shifted polynomial is `x` times that of `p`.
    assert(shifted.drop_last() =~= p);
    // The value of the polynomial with a zero in front is that of `p`.
    lemma_value_concat(seq![0int], p, x);
    lemma_value_one(0, x);
    assert(0 * pow(x, p.len()) == 0) by (nonlinear_arith);
    let vp = value_at(p, x);
    assert(vp * x - r * vp == vp * (x - r)) by (nonlinear_arith);
}

/// The generator polynomial of `k` correction codewords vanishes modulo
/// 929 at `3^j` for every `j` from 1 to `k`.
pub proof fn lemma_generator_roots(k: nat, j: nat)
    requires
        1 <= j <= k,
    ensures
        congruent(value_at(generator_high(k), root(j)), 0),
    decreases k,
{
    let x = root(j);
    lemma_generator_step(k, x);
    let v = value_at(generator_high((k - 1) as nat), x);
    if j == k {
        assert(v * (x - root(k)) == 0) by (nonlinear_arith)
            requires
                x - root(k) == 0,
        ;
    } else {
        lemma_generator_roots((k - 1) as nat, j);
        lemma_congruent_zero_times(v, x - root(k));
    }
}

/// A register of zeros has the value zero.
pub proof fn lemma_value_zeros(n: nat, x: int)
    ensures
        value_at(Seq::new(n, |i: int| 0int), x) == 0,
    decreases n,
{
    let z = Seq::new(n, |i: int| 0int);
    if n > 0 {
        lemma_value_zeros((n - 1) as nat, x);
        assert(z.drop_last() =~= Seq::new((n - 1) as nat, |i: int| 0int));
        assert(0 * x == 0) by (nonlinear_arith);
    }
}

/// One step of the convolution multiplies the value of the register by `x`
/// and adds the codeword times `x^k`, at every root `x` of the generator
/// polynomial.
pub proof fn lemma_step_value(e: Seq<u16>, cw: u16, k: nat, x: int)
    requires
        k >= 1,
        e.len() == k,
        congruent(value_at(generator_high(k), x), 0),
    ensures
        congruent(
            value_at(ints(ecc_step(e, cw, factors(k))), x),
            x * value_at(ints(e), x) + cw * pow(x, k),
        ),
{
    let f = factors(k);
    let g = generator_high(k);
    let after = ints(ecc_step(e, cw, f));
    let t = (cw + e[0]) % 929;
    lemma_generator_shape(k);
    // The register moved up by one, and the generator without its head.
    let shifted = ints(e).skip(1).push(0);
    let tail = g.skip(1);
    let raw = Seq::new(k, |i: int| shifted[i] - t * tail[i]);
    assert forall|i: int| 0 <= i < k implies congruent(#[trigger] after[i], raw[i]) by {
        assert(tail[i] == g[i + 1]);
        assert(g[i + 1] == generator(k)[k - (i + 1)]);
        assert(f[k - 1 - i] == generator(k)[k - 1 - i] as u16);
        let factor = t * f[k - 1 - i];
        assert(after[i] == ((if i + 1 < k {
            e[i + 1] as int
        } else {
            0
        }) + 929 - factor % 929) % 929);
        if i + 1 < k {
            assert(shifted[i] == e[i + 1]);
        }
    }
    lemma_value_congruent(after, raw, x);
    lemma_value_linear(shifted, tail, t, x);
    // The value of the register moved up.
    let rest = ints(e).skip(1);
    assert(shifted.drop_last() =~= rest);
    assert(seq![e[0] as int] + rest =~= ints(e));
    lemma_value_concat(seq![e[0] as int], rest, x);
    lemma_value_one(e[0] as int, x);
    // The value of the generator without its head.
    assert(seq![1int] + tail =~= g);
    lemma_value_concat(seq![1int], tail, x);
    lemma_value_one(1, x);
    lemma_pow_adds(x, (k - 1) as nat, 1);
    lemma_pow1(x);
    let xk = pow(x, k);
    let xk1 = pow(x, (k - 1) as nat);
    let ve = value_at(ints(e), x);
    let vr = value_at(rest, x);
    let vt = value_at(tail, x);
    assert(1 * xk == xk) by (nonlinear_arith);
    assert(congruent(vt, -xk));
    lemma_congruent_times(vt, -xk, t);
    lemma_congruent_times(t as int, cw + e[0], xk);
    assert(value_at(shifted, x) == vr * x);
    assert(vr * x == x * ve - e[0] * xk) by (nonlinear_arith)
        requires
            ve == e[0] * xk1 + vr,
            xk == xk1 * x,
    ;
    assert(t * (-xk) == -(t * xk)) by (nonlinear_arith);
    assert((cw + e[0]) * xk == cw * xk + e[0] * xk) by (nonlinear_arith);
}

/// The value of the correction register is `x^k` times the value of the
/// data, at every root `x` of the generator polynomial.
pub proof fn lemma_register_value(data: Seq<u16>, k: nat, x: int)
    requires
        k >= 1,
        congruent(value_at(generator_high(k), x), 0),
    ensures
        congruent(
            value_at(ints(ecc_register(data, factors(k))), x),
            pow(x, k) * value_at(ints(data), x),
        ),
    decreases data.len(),
{
    let f = factors(k);
    let xk = pow(x, k);
    if data.len() == 0 {
        lemma_value_zeros(k, x);
        assert(ints(ecc_register(data, f)) =~= Seq::new(k, |i: int| 0int));
        assert(xk * 0 == 0) by (nonlinear_arith);
    } else {
        let head = data.drop_last();
        let cw = data.last();
        let e = ecc_register(head, f);
        lemma_register_bounded(head, f);
        lemma_register_value(head, k, x);
        lemma_step_value(e, cw, k, x);
        let ve = value_at(ints(e), x);
        let vh = value_at(ints(head), x);
        lemma_congruent_times(ve, xk * vh, x);
        assert(ints(data).drop_last() =~= ints(head));
        assert(x * (xk * vh) + cw * xk == xk * (vh * x + cw)) by (nonlinear_arith);
    }
}

/// A buffer that carries correction codewords for its data vanishes,
/// as a polynomial modulo 929 with the first codeword for the highest
/// degree, at every root of the generator polynomial: at `3^j` for `j`
/// from 1 to the number of correction codewords.
pub proof fn lemma_syndromes_vanish(buf: Seq<u16>, k: nat, j: nat)
    requires
        1 <= j <= k <= buf.len(),
    ensures
        congruent(value_at(ints(with_ecc(buf, factors(k))), root(j)), 0),
{
    let x = root(j);
    let f = factors(k);
    let data = buf.subrange(0, buf.len() - k);
    let reg = ecc_register(data, f);
    let ecc = ecc_codewords(data, f);
    lemma_generator_roots(k, j);
    lemma_register_value(data, k, x);
    lemma_register_bounded(data, f);
    // The correction codewords are the register with the sign changed.
    let zeros = Seq::new(k, |i: int| 0int);
    let negated = Seq::new(k, |i: int| zeros[i] - 1 * ints(reg)[i]);
    assert forall|i: int| 0 <= i < k implies congruent(#[trigger] ints(ecc)[i], negated[i]) by {
        assert(ecc[i] == if reg[i] != 0 {
            (929 - reg[i]) as u16
        } else {
            0u16
        });
    }
    lemma_value_congruent(ints(ecc), negated, x);
    lemma_value_linear(zeros, ints(reg), 1, x);
    lemma_value_zeros(k, x);
    assert(ints(with_ecc(buf, f)) =~= ints(data) + ints(ecc));
    lemma_value_concat(ints(data), ints(ecc), x);
    let xk = pow(x, k);
    let vd = value_at(ints(data), x);
    assert(vd * xk == xk * vd) by (nonlinear_arith);
    assert(1 * value_at(ints(reg), x) == value_at(ints(reg), x)) by (nonlinear_arith);
}

/// A sealed buffer of a regular symbol vanishes at `3^j` for every `j`
/// from 1 to the number of correction codewords of its level.
pub proof fn lemma_sealed_syndromes(codewords: Seq<u16>, used: int, level: u8, j: nat)
    requires
        1 <= j <= ecc_count_spec(level) <= codewords.len(),
    ensures
        congruent(value_at(ints(sealed(codewords, used, level)), root(j)), 0),
{
    let total = codewords.len() - ecc_count_spec(level);
    let body = crate::high_level::padded(codewords.update(0, total as u16), used, total);
    lemma_syndromes_vanish(body, ecc_count_spec(level), j);
}

/// A sealed buffer of a MicroPDF417 symbol vanishes at `3^j` for every
/// `j` from 1 to the number of correction codewords of its variant.
pub proof fn lemma_sealed_micro_syndromes(codewords: Seq<u16>, used: int, variant: int, j: nat)
    requires
        0 <= variant < 34,
        1 <= j <= variant_ecc_count(variant) <= codewords.len(),
    ensures
        congruent(value_at(ints(sealed_micro(codewords, used, variant)), root(j)), 0),
{
    lemma_variant_bounds(variant);
    let count = variant_ecc_count(variant);
    let total = codewords.len() - count;
    let body = crate::high_level::padded(codewords, used, total);
    lemma_syndromes_vanish(body, count as nat, j);
}

} // verus!
