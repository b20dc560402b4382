//! Polynomials over GF(2^8) field elements, most-significant coefficient
//! first, with Horner evaluation, characteristic-2 addition, convolution
//! multiplication and synthetic division.

use vstd::prelude::*;

use crate::ff::FieldElement;
use crate::gf2_8::GF2k;
use crate::gf2_8::fmul;
use crate::gf2_8::lemma_xor_zero;

verus! {

/// The coefficient bytes of a sequence of field elements.
pub open spec fn elems(s: Seq<FieldElement>) -> Seq<u8> {
    Seq::new(s.len(), |i: int| s[i].value)
}

/// A run of zero coefficients.
pub open spec fn zeros(n: nat) -> Seq<u8> {
    Seq::new(n, |i: int| 0u8)
}

/// Whether every coefficient is zero.
pub open spec fn all_zero(s: Seq<u8>) -> bool {
    forall|i: int| 0 <= i < s.len() ==> s[i] == 0
}

/// Pointwise characteristic-2 addition of two equal-length coefficient
/// sequences.
pub open spec fn sxor(a: Seq<u8>, b: Seq<u8>) -> Seq<u8> {
    Seq::new(a.len(), |i: int| a[i] ^ b[i])
}

/// Left-pads a coefficient sequence with zeros up to length `n`.
pub open spec fn padl(s: Seq<u8>, n: nat) -> Seq<u8> {
    Seq::new(n, |i: int| if i < n - s.len() { 0u8 } else { s[i - (n - s.len())] })
}

/// The larger of two lengths.
pub open spec fn pmax(a: nat, b: nat) -> nat {
    if a >= b {
        a
    } else {
        b
    }
}

/// Polynomial addition: the shorter operand is padded with leading zeros
/// and the coefficients are combined position-wise.
pub open spec fn padd(a: Seq<u8>, b: Seq<u8>) -> Seq<u8> {
    sxor(padl(a, pmax(a.len(), b.len())), padl(b, pmax(a.len(), b.len())))
}

/// The coefficients kept by construction: everything from the first
/// nonzero coefficient onward.
pub open spec fn strip_zeros(s: Seq<u8>) -> Seq<u8>
    decreases s.len(),
{
    if s.len() == 0 {
        s
    } else if s[0] != 0 {
        s
    } else {
        strip_zeros(s.skip(1))
    }
}

/// Horner evaluation of a big-endian coefficient sequence at a point.
pub open spec fn peval(f: GF2k, s: Seq<u8>, x: u8) -> u8
    decreases s.len(),
{
    if s.len() == 0 {
        0u8
    } else {
        s.last() ^ fmul(f, peval(f, s.drop_last(), x), x)
    }
}

/// The length of the convolution of two nonempty coefficient sequences.
pub open spec fn conv_len(a: Seq<u8>, b: Seq<u8>) -> nat {
    (a.len() + b.len() - 1) as nat
}

/// The contribution of coefficient `i` of the left operand to the product,
/// restricted to the first `j` coefficients of the right operand.
pub open spec fn row_pref(f: GF2k, a: Seq<u8>, b: Seq<u8>, i: int, j: int) -> Seq<u8> {
    Seq::new(
        conv_len(a, b),
        |t: int|
            if i <= t < i + j {
                fmul(f, a[i], b[t - i])
            } else {
                0u8
            },
    )
}

/// The sum of the contributions of the first `i` coefficients of the left
/// operand: the partial convolution.
pub open spec fn conv_pref(f: GF2k, a: Seq<u8>, b: Seq<u8>, i: int) -> Seq<u8>
    decreases i,
{
    if i <= 0 {
        zeros(conv_len(a, b))
    } else {
        sxor(conv_pref(f, a, b, i - 1), row_pref(f, a, b, i - 1, b.len() as int))
    }
}

/// Full convolution: the coefficient at each position is the field sum of
/// all products of coefficient pairs whose positions add up to it.
pub open spec fn sconv(f: GF2k, a: Seq<u8>, b: Seq<u8>) -> Seq<u8> {
    conv_pref(f, a, b, a.len() as int)
}

/// One reduction step of synthetic division: the leading coefficient of the
/// window is the factor, and the divisor's tail scaled by that factor is
/// subtracted from the coefficients that follow it.
pub open spec fn sdiv_step(f: GF2k, s: Seq<u8>, g: Seq<u8>) -> Seq<u8> {
    Seq::new(
        (s.len() - 1) as nat,
        |t: int|
            if t < g.len() - 1 {
                s[t + 1] ^ fmul(f, s[0], g[t + 1])
            } else {
                s[t + 1]
            },
    )
}

/// The buffer a full synthetic-division run leaves behind: quotient
/// coefficients in front, the remainder in the trailing positions.
pub open spec fn srun(f: GF2k, buf: Seq<u8>, g: Seq<u8>) -> Seq<u8>
    decreases buf.len(),
{
    if g.len() == 0 || buf.len() < g.len() {
        buf
    } else {
        seq![buf[0]] + srun(f, sdiv_step(f, buf, g), g)
    }
}

/// How many quotient coefficients dividing a buffer of length `blen` by a
/// divisor of length `glen` produces.
pub open spec fn quot_len(blen: int, glen: int) -> int {
    if glen >= 1 && blen >= glen {
        blen - glen + 1
    } else {
        0
    }
}

/// The quotient of synthetic division.
pub open spec fn squot(f: GF2k, buf: Seq<u8>, g: Seq<u8>) -> Seq<u8> {
    srun(f, buf, g).take(quot_len(buf.len() as int, g.len() as int))
}

/// The remainder of synthetic division.
pub open spec fn srem(f: GF2k, buf: Seq<u8>, g: Seq<u8>) -> Seq<u8> {
    srun(f, buf, g).skip(quot_len(buf.len() as int, g.len() as int))
}

/// A division run leaves the buffer length unchanged.
pub proof fn lemma_srun_len(f: GF2k, buf: Seq<u8>, g: Seq<u8>)
    ensures
        srun(f, buf, g).len() == buf.len(),
    decreases buf.len(),
{
    if g.len() == 0 || buf.len() < g.len() {
    } else {
        lemma_srun_len(f, sdiv_step(f, buf, g), g);
    }
}

/// A partial convolution spans the full product length.
pub proof fn lemma_conv_pref_len(f: GF2k, a: Seq<u8>, b: Seq<u8>, i: int)
    ensures
        conv_pref(f, a, b, i).len() == conv_len(a, b),
    decreases i,
{
    if i > 0 {
        lemma_conv_pref_len(f, a, b, i - 1);
    }
}

/// The partial convolution of at least one row pins the most significant
/// product coefficient: only the first row reaches it.
pub proof fn lemma_conv_pref_first(f: GF2k, a: Seq<u8>, b: Seq<u8>, i: int)
    requires
        1 <= i <= a.len(),
        b.len() >= 1,
    ensures
        conv_pref(f, a, b, i)[0] == fmul(f, a[0], b[0]),
    decreases i,
{
    lemma_conv_pref_len(f, a, b, i - 1);
    if i == 1 {
        lemma_xor_zero(fmul(f, a[0], b[0]));
    } else {
        lemma_conv_pref_first(f, a, b, i - 1);
        lemma_xor_zero(fmul(f, a[0], b[0]));
    }
}

/// Only the last row reaches the least significant product coefficient.
pub proof fn lemma_conv_pref_last(f: GF2k, a: Seq<u8>, b: Seq<u8>, i: int)
    requires
        0 <= i <= a.len(),
        a.len() >= 1,
        b.len() >= 1,
    ensures
        i < a.len() ==> conv_pref(f, a, b, i)[conv_len(a, b) - 1] == 0,
        i == a.len() ==> conv_pref(f, a, b, i)[conv_len(a, b) - 1] == fmul(f, a.last(), b.last()),
    decreases i,
{
    if i > 0 {
        lemma_conv_pref_len(f, a, b, i - 1);
        lemma_conv_pref_last(f, a, b, i - 1);
        if i < a.len() {
            lemma_xor_zero(0u8);
        } else {
            lemma_xor_zero(fmul(f, a.last(), b.last()));
        }
    }
}

/// The length and the two end coefficients of a convolution: the ends are
/// the products of the operands' end coefficients.
pub proof fn lemma_sconv_edges(f: GF2k, a: Seq<u8>, b: Seq<u8>)
    requires
        a.len() >= 1,
        b.len() >= 1,
    ensures
        sconv(f, a, b).len() == a.len() + b.len() - 1,
        sconv(f, a, b)[0] == fmul(f, a[0], b[0]),
        sconv(f, a, b).last() == fmul(f, a.last(), b.last()),
{
    lemma_conv_pref_len(f, a, b, a.len() as int);
    lemma_conv_pref_first(f, a, b, a.len() as int);
    lemma_conv_pref_last(f, a, b, a.len() as int);
}

/// The remainder left-padded with zeros to the fixed width `g.len() - 1`,
/// so that remainders of buffers of different lengths can be compared.
pub open spec fn nrem(f: GF2k, buf: Seq<u8>, g: Seq<u8>) -> Seq<u8> {
    padl(srem(f, buf, g), (g.len() - 1) as nat)
}

/// The remainder is as long as the divisor window less one, or the whole
/// buffer where no window fits.
pub proof fn lemma_srem_len(f: GF2k, buf: Seq<u8>, g: Seq<u8>)
    requires
        g.len() >= 1,
    ensures
        buf.len() >= g.len() ==> srem(f, buf, g).len() == g.len() - 1,
        buf.len() < g.len() ==> srem(f, buf, g) == buf,
    decreases buf.len(),
{
    lemma_srun_len(f, buf, g);
    if buf.len() < g.len() {
        assert(srun(f, buf, g).skip(0) =~= srun(f, buf, g));
    }
}

/// Dividing a buffer and dividing the buffer after one reduction step
/// leave the same remainder.
pub proof fn lemma_srem_step(f: GF2k, buf: Seq<u8>, g: Seq<u8>)
    requires
        g.len() >= 1,
        buf.len() >= g.len(),
    ensures
        srem(f, buf, g) == srem(f, sdiv_step(f, buf, g), g),
{
    let step = sdiv_step(f, buf, g);
    let q = quot_len(buf.len() as int, g.len() as int);
    lemma_srun_len(f, step, g);
    assert((seq![buf[0]] + srun(f, step, g)).skip(q) =~= srun(f, step, g).skip(q - 1));
    assert(quot_len(step.len() as int, g.len() as int) == q - 1);
}

/// A division run is linear over characteristic-2 addition of buffers.
pub proof fn lemma_srun_linear(f: GF2k, x: Seq<u8>, y: Seq<u8>, g: Seq<u8>)
    requires
        f.wf(),
        x.len() == y.len(),
    ensures
        srun(f, sxor(x, y), g) == sxor(srun(f, x, g), srun(f, y, g)),
    decreases x.len(),
{
    lemma_srun_len(f, x, g);
    lemma_srun_len(f, y, g);
    if g.len() == 0 || x.len() < g.len() {
        assert(srun(f, sxor(x, y), g) == sxor(x, y));
    } else {
        let sx = sdiv_step(f, x, g);
        let sy = sdiv_step(f, y, g);
        assert(sdiv_step(f, sxor(x, y), g) =~= sxor(sx, sy)) by {
            assert forall|t: int| 0 <= t < x.len() - 1 implies sdiv_step(f, sxor(x, y), g)[t]
                == sxor(sx, sy)[t] by {
                if t < g.len() - 1 {
                    crate::gf2_8::lemma_fmul_distrib_left(f, x[0], y[0], g[t + 1]);
                    crate::gf2_8::lemma_xor_rearrange(
                        x[t + 1],
                        y[t + 1],
                        fmul(f, x[0], g[t + 1]),
                        fmul(f, y[0], g[t + 1]),
                    );
                }
            }
        }
        lemma_srun_linear(f, sx, sy, g);
        lemma_srun_len(f, sx, g);
        lemma_srun_len(f, sy, g);
        assert(seq![sxor(x, y)[0]] + sxor(srun(f, sx, g), srun(f, sy, g)) =~= sxor(
            seq![x[0]] + srun(f, sx, g),
            seq![y[0]] + srun(f, sy, g),
        ));
    }
}

/// The remainder is linear over characteristic-2 addition of buffers.
pub proof fn lemma_srem_linear(f: GF2k, x: Seq<u8>, y: Seq<u8>, g: Seq<u8>)
    requires
        f.wf(),
        g.len() >= 1,
        x.len() == y.len(),
    ensures
        srem(f, sxor(x, y), g) == sxor(srem(f, x, g), srem(f, y, g)),
{
    lemma_srun_linear(f, x, y, g);
    lemma_srun_len(f, x, g);
    lemma_srun_len(f, y, g);
    let q = quot_len(x.len() as int, g.len() as int);
    assert(sxor(srun(f, x, g), srun(f, y, g)).skip(q) =~= sxor(
        srun(f, x, g).skip(q),
        srun(f, y, g).skip(q),
    ));
}

/// Replacing a prefix of the dividend by the remainder of that prefix does
/// not change the remainder of the whole.
pub proof fn lemma_srem_congruence(f: GF2k, a: Seq<u8>, t: Seq<u8>, g: Seq<u8>)
    requires
        g.len() >= 1,
    ensures
        srem(f, a + t, g) == srem(f, srem(f, a, g) + t, g),
    decreases a.len(),
{
    if a.len() < g.len() {
        lemma_srem_len(f, a, g);
        assert(srem(f, a, g) + t =~= a + t);
    } else {
        let sa = sdiv_step(f, a, g);
        assert(sdiv_step(f, a + t, g) =~= sa + t) by {
            assert forall|k: int| 0 <= k < a.len() + t.len() - 1 implies sdiv_step(f, a + t, g)[k]
                == (sa + t)[k] by {
                if k < a.len() - 1 {
                    assert((a + t)[k + 1] == a[k + 1]);
                } else {
                    assert((a + t)[k + 1] == t[k + 1 - a.len()]);
                }
            }
        }
        lemma_srem_step(f, a + t, g);
        lemma_srem_step(f, a, g);
        lemma_srem_congruence(f, sa, t, g);
    }
}

/// A zero coefficient in front of the dividend does not change the
/// width-normalized remainder.
pub proof fn lemma_nrem_cons_zero(f: GF2k, c: Seq<u8>, g: Seq<u8>)
    requires
        g.len() >= 1,
    ensures
        nrem(f, seq![0u8] + c, g) == nrem(f, c, g),
{
    let buf = seq![0u8] + c;
    if buf.len() < g.len() {
        lemma_srem_len(f, buf, g);
        lemma_srem_len(f, c, g);
        assert(padl(buf, (g.len() - 1) as nat) =~= padl(c, (g.len() - 1) as nat));
    } else {
        assert(sdiv_step(f, buf, g) =~= c) by {
            assert forall|k: int| 0 <= k < c.len() implies sdiv_step(f, buf, g)[k] == c[k] by {
                lemma_xor_zero(c[k]);
            }
        }
        lemma_srem_step(f, buf, g);
    }
}

/// Any run of zero coefficients in front of the dividend leaves the
/// width-normalized remainder unchanged.
pub proof fn lemma_nrem_zeros_prefix(f: GF2k, n: nat, c: Seq<u8>, g: Seq<u8>)
    requires
        g.len() >= 1,
    ensures
        nrem(f, zeros(n) + c, g) == nrem(f, c, g),
    decreases n,
{
    if n == 0 {
        assert(zeros(0) + c =~= c);
    } else {
        assert(zeros(n) + c =~= seq![0u8] + (zeros((n - 1) as nat) + c));
        lemma_nrem_cons_zero(f, zeros((n - 1) as nat) + c, g);
        lemma_nrem_zeros_prefix(f, (n - 1) as nat, c, g);
    }
}

/// Left-padding with zeros preserves whether everything is zero.
pub proof fn lemma_padl_all_zero(s: Seq<u8>, n: nat)
    requires
        s.len() <= n,
    ensures
        all_zero(padl(s, n)) == all_zero(s),
{
    if all_zero(padl(s, n)) {
        assert forall|i: int| 0 <= i < s.len() implies s[i] == 0 by {
            assert(padl(s, n)[n - s.len() + i] == s[i]);
        }
    }
}

/// A single nonzero coefficient followed by any run of zeros leaves a
/// nonzero remainder, provided the divisor's trailing coefficient is
/// nonzero: this is what makes single corruptions detectable.
pub proof fn lemma_srem_unit_nonzero(f: GF2k, d: u8, n: nat, g: Seq<u8>)
    requires
        f.wf(),
        g.len() >= 2,
        g.last() != 0,
        d != 0,
    ensures
        !all_zero(srem(f, seq![d] + zeros(n), g)),
    decreases n,
{
    let buf = seq![d] + zeros(n);
    if buf.len() < g.len() {
        lemma_srem_len(f, buf, g);
        assert(srem(f, buf, g)[0] == d);
    } else {
        let a = seq![d] + zeros((n - 1) as nat);
        assert(buf =~= a + seq![0u8]);
        lemma_srem_congruence(f, a, seq![0u8], g);
        lemma_srem_unit_nonzero(f, d, (n - 1) as nat, g);
        let r = srem(f, a, g);
        lemma_srem_len(f, a, g);
        assert(r.len() == g.len() - 1);
        let rb = r + seq![0u8];
        lemma_srem_step(f, rb, g);
        let step = sdiv_step(f, rb, g);
        lemma_srem_len(f, step, g);
        assert(srem(f, buf, g) == step);
        if all_zero(step) {
            assert(step[g.len() - 2] == (rb[g.len() - 1] ^ fmul(f, rb[0], g[g.len() - 1])));
            assert(rb[g.len() - 1] == 0);
            lemma_xor_zero(fmul(f, r[0], g.last()));
            assert(fmul(f, r[0], g.last()) == 0);
            if r[0] != 0 {
                crate::gf2_8::lemma_fmul_nonzero(f, r[0], g.last());
            }
            assert(r[0] == 0);
            assert forall|k: int| 0 <= k < r.len() implies r[k] == 0 by {
                if k >= 1 {
                    assert(step[k - 1] == (rb[k] ^ fmul(f, rb[0], g[k])));
                    assert(fmul(f, rb[0], g[k]) == 0);
                    lemma_xor_zero(rb[k]);
                }
            }
            assert(false);
        }
    }
}

/// Adding any polynomial to itself yields the all-zero polynomial: the
/// characteristic-2 property.
pub proof fn lemma_poly_add_self(a: Seq<u8>)
    ensures
        all_zero(padd(a, a)),
{
    assert forall|i: int| 0 <= i < padd(a, a).len() implies padd(a, a)[i] == 0 by {
        crate::gf2_8::lemma_xor_self(padl(a, pmax(a.len(), a.len()))[i], 0);
    }
}

/// Dividing a monic polynomial by itself yields quotient one and an
/// all-zero remainder.
pub proof fn lemma_poly_div_self(f: GF2k, p: Seq<u8>)
    requires
        f.wf(),
        p.len() >= 1,
        p[0] == 1,
    ensures
        squot(f, p, p) == seq![1u8],
        srem(f, p, p) == zeros((p.len() - 1) as nat),
{
    let step = sdiv_step(f, p, p);
    assert(step =~= zeros((p.len() - 1) as nat)) by {
        assert forall|t: int| 0 <= t < p.len() - 1 implies step[t] == 0 by {
            crate::gf2_8::lemma_fmul_one(f, p[t + 1]);
            crate::gf2_8::lemma_xor_self(p[t + 1], 0);
        }
    }
    lemma_srun_len(f, step, p);
    assert(srun(f, p, p) == seq![p[0]] + srun(f, step, p));
    assert(quot_len(p.len() as int, p.len() as int) == 1);
    assert((seq![p[0]] + step).take(1) =~= seq![1u8]);
    assert((seq![p[0]] + step).skip(1) =~= step);
}

/// A polynomial over the field: an ordered coefficient sequence,
/// most-significant first.
#[derive(Debug)]
pub struct Polynomial {
    /// The coefficients, most-significant first.
    pub coeffs: Vec<FieldElement>,
}

impl Polynomial {
    /// The coefficient bytes of this polynomial.
    pub open spec fn vals(self) -> Seq<u8> {
        elems(self.coeffs@)
    }

    /// Builds a polynomial from a coefficient sequence, stripping leading
    /// zeros; the sequence must contain a nonzero coefficient, since the
    /// all-zero sequence has no pivot to strip to.
    pub fn new(coeffs: &Vec<FieldElement>) -> (r: Self)
        requires
            exists|i: int| 0 <= i < coeffs@.len() && coeffs@[i].value != 0,
        ensures
            r.vals() == strip_zeros(elems(coeffs@)),
    {
        let ghost i0 = choose|i: int| 0 <= i < coeffs@.len() && coeffs@[i].value != 0;
        let mut from: usize = 0;
        proof {
            assert(elems(coeffs@).skip(0) =~= elems(coeffs@));
        }
        while from < coeffs.len() && coeffs[from].value == 0
            invariant
                0 <= from <= i0,
                i0 < coeffs@.len(),
                coeffs@[i0].value != 0,
                strip_zeros(elems(coeffs@)) == strip_zeros(elems(coeffs@).skip(from as int)),
            decreases i0 - from,
        {
            proof {
                assert(elems(coeffs@).skip(from as int)[0] == coeffs@[from as int].value);
                assert(elems(coeffs@).skip(from as int).skip(1) =~= elems(coeffs@).skip(
                    from as int + 1,
                ));
            }
            from += 1;
        }
        proof {
            assert(from <= i0 && i0 < coeffs@.len());
        }
        let mut kept: Vec<FieldElement> = Vec::new();
        let mut i: usize = from;
        while i < coeffs.len()
            invariant
                from <= i <= coeffs@.len(),
                kept@.len() == i - from,
                forall|j: int| 0 <= j < kept@.len() ==> kept@[j] == coeffs@[from + j],
            decreases coeffs@.len() - i,
        {
            kept.push(coeffs[i]);
            i += 1;
        }
        proof {
            assert(elems(kept@) =~= elems(coeffs@).skip(from as int));
            assert(strip_zeros(elems(coeffs@).skip(from as int)) == elems(coeffs@).skip(
                from as int,
            ));
        }
        Polynomial { coeffs: kept }
    }

    /// The degree: one less than the number of coefficients.
    pub fn degree(&self) -> (r: usize)
        requires
            self.coeffs@.len() >= 1,
        ensures
            r == self.vals().len() - 1,
    {
        self.coeffs.len() - 1
    }

    /// The number of coefficients.
    pub fn len(&self) -> (r: usize)
        ensures
            r == self.vals().len(),
    {
        self.coeffs.len()
    }

    /// Evaluates the polynomial at a point by Horner's method.
    pub fn evaluate(&self, at: &FieldElement, f: &GF2k) -> (r: FieldElement)
        requires
            f.wf(),
        ensures
            r.value == peval(*f, self.vals(), at.value),
    {
        let mut result = FieldElement::zero();
        let mut i: usize = 0;
        while i < self.coeffs.len()
            invariant
                f.wf(),
                i <= self.coeffs@.len(),
                result.value == peval(*f, self.vals().take(i as int), at.value),
            decreases self.coeffs@.len() - i,
        {
            let ghost pref = self.vals().take(i as int + 1);
            proof {
                assert(pref.drop_last() =~= self.vals().take(i as int));
                assert(pref.last() == self.vals()[i as int]);
            }
            result = self.coeffs[i].add(result.mul(*at, f));
            i += 1;
        }
        proof {
            assert(self.vals().take(self.vals().len() as int) =~= self.vals());
        }
        result
    }

    /// Returns a copy of this polynomial: negation is the identity in a
    /// characteristic-2 field.
    pub fn neg(&self) -> (r: Self)
        ensures
            r.vals() == self.vals(),
    {
        let mut kept: Vec<FieldElement> = Vec::new();
        let mut i: usize = 0;
        while i < self.coeffs.len()
            invariant
                i <= self.coeffs@.len(),
                kept@.len() == i,
                forall|j: int| 0 <= j < i ==> kept@[j] == self.coeffs@[j],
            decreases self.coeffs@.len() - i,
        {
            kept.push(self.coeffs[i]);
            i += 1;
        }
        proof {
            assert(elems(kept@) =~= elems(self.coeffs@));
        }
        Polynomial { coeffs: kept }
    }

    /// Adds two polynomials: the shorter operand is padded with leading
    /// zero coefficients and the coefficients combine position-wise.
    pub fn add(&self, other: &Self) -> (r: Self)
        ensures
            r.vals() == padd(self.vals(), other.vals()),
    {
        let l1 = self.coeffs.len();
        let l2 = other.coeffs.len();
        let m = if l1 >= l2 {
            l1
        } else {
            l2
        };
        let mut out: Vec<FieldElement> = Vec::new();
        let mut idx: usize = 0;
        while idx < m
            invariant
                idx <= m,
                l1 == self.coeffs@.len(),
                l2 == other.coeffs@.len(),
                m == pmax(l1 as nat, l2 as nat),
                out@.len() == idx,
                forall|j: int|
                    0 <= j < idx ==> #[trigger] out@[j].value == padd(
                        elems(self.coeffs@),
                        elems(other.coeffs@),
                    )[j],
            decreases m - idx,
        {
            let av = if idx >= m - l1 {
                self.coeffs[idx - (m - l1)].value
            } else {
                0
            };
            let bv = if idx >= m - l2 {
                other.coeffs[idx - (m - l2)].value
            } else {
                0
            };
            out.push(FieldElement::new(av ^ bv));
            idx += 1;
        }
        proof {
            assert(elems(out@) =~= padd(self.vals(), other.vals()));
        }
        Polynomial { coeffs: out }
    }

    /// Subtracts a polynomial; in characteristic 2 this coincides with
    /// addition.
    pub fn sub(&self, other: &Self) -> (r: Self)
        ensures
            r.vals() == padd(self.vals(), other.vals()),
    {
        let n = other.neg();
        self.add(&n)
    }

    /// Whether every coefficient is zero.
    pub fn is_zero(&self) -> (r: bool)
        ensures
            r == all_zero(self.vals()),
    {
        let mut i: usize = 0;
        while i < self.coeffs.len()
            invariant
                i <= self.coeffs@.len(),
                forall|j: int| 0 <= j < i ==> #[trigger] elems(self.coeffs@)[j] == 0,
            decreases self.coeffs@.len() - i,
        {
            if self.coeffs[i].value != 0 {
                proof {
                    assert(self.vals()[i as int] != 0);
                }
                return false;
            }
            i += 1;
        }
        true
    }

    /// Multiplies two polynomials by full convolution, skipping zero
    /// coefficients, which contribute nothing. The result has one
    /// coefficient per pair of operand lengths: its first coefficient is a
    /// structural zero and the product's coefficients follow, shifted one
    /// position down.
    pub fn mul(&self, other: &Self, f: &GF2k) -> (r: Self)
        requires
            f.wf(),
            self.coeffs@.len() >= 1,
            other.coeffs@.len() >= 1,
            self.coeffs@.len() + other.coeffs@.len() <= usize::MAX,
        ensures
            r.vals() == seq![0u8] + sconv(*f, self.vals(), other.vals()),
    {
        let l1 = self.coeffs.len();
        let l2 = other.coeffs.len();
        let n = l1 + l2;
        let ghost a = self.vals();
        let ghost b = other.vals();
        let mut buf: Vec<FieldElement> = Vec::new();
        let mut z: usize = 0;
        while z < n
            invariant
                z <= n,
                buf@.len() == z,
                forall|j: int| 0 <= j < z ==> #[trigger] buf@[j].value == 0,
            decreases n - z,
        {
            buf.push(FieldElement::zero());
            z += 1;
        }
        proof {
            assert(elems(buf@).skip(1) =~= conv_pref(*f, a, b, 0));
        }
        let mut i: usize = 0;
        while i < l1
            invariant
                f.wf(),
                i <= l1,
                l1 == self.coeffs@.len(),
                l2 == other.coeffs@.len(),
                n == conv_len(a, b) + 1,
                a == self.vals(),
                b == other.vals(),
                buf@.len() == n,
                elems(buf@)[0] == 0,
                elems(buf@).skip(1) == conv_pref(*f, a, b, i as int),
            decreases l1 - i,
        {
            let ghost pre = elems(buf@).skip(1);
            let av = self.coeffs[i].value;
            if av != 0 {
                proof {
                    assert(elems(buf@).skip(1) =~= sxor(pre, row_pref(*f, a, b, i as int, 0)))
                        by {
                        assert forall|t: int| 0 <= t < n - 1 implies elems(buf@).skip(1)[t]
                            == sxor(pre, row_pref(*f, a, b, i as int, 0))[t] by {
                            lemma_xor_zero(pre[t]);
                        }
                    }
                }
                let mut j: usize = 0;
                while j < l2
                    invariant
                        f.wf(),
                        i < l1,
                        j <= l2,
                        l1 == self.coeffs@.len(),
                        l2 == other.coeffs@.len(),
                        n == conv_len(a, b) + 1,
                        a == self.vals(),
                        b == other.vals(),
                        av == a[i as int],
                        pre.len() == n - 1,
                        buf@.len() == n,
                        elems(buf@)[0] == 0,
                        elems(buf@).skip(1) == sxor(pre, row_pref(*f, a, b, i as int, j as int)),
                    decreases l2 - j,
                {
                    let ghost before = elems(buf@);
                    let ghost prodg = fmul(*f, a[i as int], b[j as int]);
                    let bv = other.coeffs[j].value;
                    if bv != 0 {
                        let prod = f.mul(av, bv);
                        let idx = i + j + 1;
                        let nv = buf[idx].value ^ prod;
                        buf.set(idx, FieldElement::new(nv));
                    }
                    proof {
                        let t0 = i + j;
                        assert(elems(buf@)[0] == before[0]);
                        assert(elems(buf@).skip(1) =~= sxor(
                            pre,
                            row_pref(*f, a, b, i as int, j as int + 1),
                        )) by {
                            assert forall|t: int| 0 <= t < n - 1 implies elems(buf@).skip(1)[t]
                                == sxor(pre, row_pref(*f, a, b, i as int, j as int + 1))[t] by {
                                assert(before.skip(1)[t] == sxor(
                                    pre,
                                    row_pref(*f, a, b, i as int, j as int),
                                )[t]);
                                assert(elems(buf@).skip(1)[t] == elems(buf@)[t + 1]);
                                assert(before.skip(1)[t] == before[t + 1]);
                                lemma_xor_zero(pre[t]);
                                lemma_xor_zero(prodg);
                                if t == t0 {
                                    assert(before[t + 1] == (pre[t] ^ 0));
                                    if b[j as int] != 0 {
                                        assert(elems(buf@)[t + 1] == ((pre[t] ^ 0) ^ prodg));
                                    } else {
                                        assert(prodg == 0);
                                        assert(elems(buf@)[t + 1] == (pre[t] ^ 0));
                                    }
                                } else {
                                    assert(elems(buf@)[t + 1] == before[t + 1]);
                                }
                            }
                        }
                    }
                    j += 1;
                }
                proof {
                    assert(sxor(pre, row_pref(*f, a, b, i as int, l2 as int)) == conv_pref(
                        *f,
                        a,
                        b,
                        i as int + 1,
                    ));
                }
            } else {
                proof {
                    assert(elems(buf@).skip(1) =~= conv_pref(*f, a, b, i as int + 1)) by {
                        assert forall|t: int| 0 <= t < n - 1 implies elems(buf@).skip(1)[t]
                            == conv_pref(*f, a, b, i as int + 1)[t] by {
                            lemma_xor_zero(pre[t]);
                            assert(row_pref(*f, a, b, i as int, l2 as int)[t] == 0);
                        }
                    }
                }
            }
            i += 1;
        }
        proof {
            assert(elems(buf@) =~= seq![0u8] + sconv(*f, a, b));
        }
        Polynomial { coeffs: buf }
    }

    /// Divides by synthetic division, returning quotient and remainder.
    /// Positions are reduced from the most significant down to where a full
    /// divisor window still fits; the remainder is what the trailing
    /// positions hold when no window fits any more.
    pub fn div(&self, divisor: &Self, f: &GF2k) -> (r: (Self, Self))
        requires
            f.wf(),
            divisor.coeffs@.len() >= 1,
        ensures
            r.0.vals() == squot(*f, self.vals(), divisor.vals()),
            r.1.vals() == srem(*f, self.vals(), divisor.vals()),
    {
        let l = self.coeffs.len();
        let dl = divisor.coeffs.len();
        let ghost orig = self.vals();
        let ghost g = divisor.vals();
        let mut buf: Vec<FieldElement> = Vec::new();
        let mut z: usize = 0;
        while z < l
            invariant
                z <= l,
                l == self.coeffs@.len(),
                buf@.len() == z,
                forall|j: int| 0 <= j < z ==> buf@[j] == self.coeffs@[j],
            decreases l - z,
        {
            buf.push(self.coeffs[z]);
            z += 1;
        }
        proof {
            assert(elems(buf@) =~= orig);
        }
        let steps = if l >= dl {
            l - dl + 1
        } else {
            0
        };
        proof {
            assert(elems(buf@).skip(0) =~= elems(buf@));
            assert(elems(buf@).take(0) + srun(*f, elems(buf@).skip(0), g) =~= srun(
                *f,
                elems(buf@),
                g,
            )) by {
                lemma_srun_len(*f, elems(buf@), g);
            }
        }
        let mut i: usize = 0;
        while i < steps
            invariant
                f.wf(),
                i <= steps,
                l == self.coeffs@.len(),
                dl == divisor.coeffs@.len(),
                dl >= 1,
                steps == quot_len(l as int, dl as int),
                orig == self.vals(),
                g == divisor.vals(),
                buf@.len() == l,
                srun(*f, orig, g) == elems(buf@).take(i as int) + srun(
                    *f,
                    elems(buf@).skip(i as int),
                    g,
                ),
            decreases steps - i,
        {
            let ghost pre = elems(buf@);
            let factor = buf[i].value;
            if factor != 0 {
                let mut j: usize = 1;
                while j < dl
                    invariant
                        f.wf(),
                        i < steps,
                        steps == quot_len(l as int, dl as int),
                        1 <= j <= dl,
                        dl == divisor.coeffs@.len(),
                        g == divisor.vals(),
                        buf@.len() == l,
                        pre.len() == l,
                        factor == pre[i as int],
                        forall|t: int|
                            0 <= t < l ==> #[trigger] elems(buf@)[t] == (if i + 1 <= t < i + j {
                                pre[t] ^ fmul(*f, pre[i as int], g[t - i])
                            } else {
                                pre[t]
                            }),
                    decreases dl - j,
                {
                    let ghost before = elems(buf@);
                    let v = f.mul(factor, divisor.coeffs[j].value);
                    let idx = i + j;
                    let nv = buf[idx].value ^ v;
                    buf.set(idx, FieldElement::new(nv));
                    proof {
                        assert forall|t: int| 0 <= t < l implies #[trigger] elems(buf@)[t] == (
                        if i + 1 <= t < i + (j + 1) {
                            pre[t] ^ fmul(*f, pre[i as int], g[t - i])
                        } else {
                            pre[t]
                        }) by {
                            if t == idx {
                                assert(before[t] == pre[t]);
                                assert(elems(buf@)[t] == nv);
                            } else {
                                assert(elems(buf@)[t] == before[t]);
                            }
                        }
                    }
                    j += 1;
                }
                proof {
                    assert(elems(buf@).skip(i as int + 1) =~= sdiv_step(*f, pre.skip(i as int), g))
                        by {
                        assert forall|t: int| 0 <= t < l - i - 1 implies elems(buf@).skip(
                            i as int + 1,
                        )[t] == sdiv_step(*f, pre.skip(i as int), g)[t] by {
                            assert(elems(buf@)[i + 1 + t] == (if i + 1 <= i + 1 + t < i + dl {
                                pre[i + 1 + t] ^ fmul(*f, pre[i as int], g[t + 1])
                            } else {
                                pre[i + 1 + t]
                            }));
                        }
                    }
                }
            } else {
                proof {
                    assert(elems(buf@).skip(i as int + 1) =~= sdiv_step(*f, pre.skip(i as int), g))
                        by {
                        assert forall|t: int| 0 <= t < l - i - 1 implies pre.skip(i as int + 1)[t]
                            == sdiv_step(*f, pre.skip(i as int), g)[t] by {
                            lemma_xor_zero(pre[i + 1 + t]);
                        }
                    }
                }
            }
            proof {
                let cur = elems(buf@);
                assert(pre.skip(i as int).len() >= dl);
                assert(srun(*f, pre.skip(i as int), g) == seq![pre.skip(i as int)[0]] + srun(
                    *f,
                    sdiv_step(*f, pre.skip(i as int), g),
                    g,
                ));
                assert(cur[i as int] == pre[i as int]);
                assert(cur.take(i as int + 1) =~= pre.take(i as int) + seq![pre[i as int]]);
                assert(pre.take(i as int) + (seq![pre.skip(i as int)[0]] + srun(
                    *f,
                    cur.skip(i as int + 1),
                    g,
                )) =~= cur.take(i as int + 1) + srun(*f, cur.skip(i as int + 1), g));
            }
            i += 1;
        }
        proof {
            if l >= dl {
                assert(elems(buf@).skip(steps as int).len() == dl - 1);
            }
            assert(srun(*f, elems(buf@).skip(steps as int), g) == elems(buf@).skip(steps as int));
            assert(elems(buf@).take(steps as int) + elems(buf@).skip(steps as int) =~= elems(
                buf@,
            ));
            assert(srun(*f, orig, g) == elems(buf@));
            lemma_srun_len(*f, orig, g);
        }
        let mut quot: Vec<FieldElement> = Vec::new();
        let mut qi: usize = 0;
        while qi < steps
            invariant
                qi <= steps,
                steps <= buf@.len(),
                quot@.len() == qi,
                forall|j: int| 0 <= j < qi ==> quot@[j] == buf@[j],
            decreases steps - qi,
        {
            quot.push(buf[qi]);
            qi += 1;
        }
        let mut remv: Vec<FieldElement> = Vec::new();
        let mut ri: usize = steps;
        while ri < buf.len()
            invariant
                steps <= ri <= buf@.len(),
                remv@.len() == ri - steps,
                forall|j: int| 0 <= j < remv@.len() ==> remv@[j] == buf@[steps + j],
            decreases buf@.len() - ri,
        {
            remv.push(buf[ri]);
            ri += 1;
        }
        proof {
            assert(elems(quot@) =~= elems(buf@).take(steps as int));
            assert(elems(remv@) =~= elems(buf@).skip(steps as int));
        }
        (Polynomial { coeffs: quot }, Polynomial { coeffs: remv })
    }

    /// The remainder of synthetic division.
    pub fn rem(&self, divisor: &Self, f: &GF2k) -> (r: Self)
        requires
            f.wf(),
            divisor.coeffs@.len() >= 1,
        ensures
            r.vals() == srem(*f, self.vals(), divisor.vals()),
    {
        let (_q, r) = self.div(divisor, f);
        r
    }
}

} // verus!
