//! The systematic Reed-Solomon codec: generator-polynomial construction,
//! encoding, and the syndrome check.

use vstd::prelude::*;

use crate::errors::Errors;
use crate::ff::FieldElement;
use crate::gf2_8::GF2k;
use crate::gf2_8::fpow;
use crate::gf2_8::lemma_fmul_nonzero;
use crate::gf2_8::lemma_fmul_one;
use crate::gf2_8::lemma_fpow_nonzero;
use crate::gf2_8::lemma_xor_self;
use crate::gf2_8::lemma_xor_zero;
use crate::polynomial::Polynomial;
use crate::polynomial::all_zero;
use crate::polynomial::elems;
use crate::polynomial::lemma_nrem_zeros_prefix;
use crate::polynomial::lemma_padl_all_zero;
use crate::polynomial::lemma_sconv_edges;
use crate::polynomial::lemma_srem_congruence;
use crate::polynomial::lemma_srem_len;
use crate::polynomial::lemma_srem_linear;
use crate::polynomial::lemma_srem_unit_nonzero;
use crate::polynomial::nrem;
use crate::polynomial::padl;
use crate::polynomial::sconv;
use crate::polynomial::srem;
use crate::polynomial::strip_zeros;
use crate::polynomial::sxor;
use crate::polynomial::zeros;

verus! {

/// The generator polynomial of degree `d`: the product of the degree-one
/// factors `(x + g^i)` for `i` from one through `d`, starting from the
/// constant polynomial one.
pub open spec fn genpoly(f: GF2k, gen: u8, d: nat) -> Seq<u8>
    decreases d,
{
    if d == 0 {
        seq![1u8]
    } else {
        sconv(f, genpoly(f, gen, (d - 1) as nat), seq![1u8, fpow(f, gen, d)])
    }
}

/// The generator polynomial has degree `d`, is monic, and, for a nonzero
/// generator element, has a nonzero constant term.
pub proof fn lemma_genpoly_facts(f: GF2k, gen: u8, d: nat)
    requires
        f.wf(),
    ensures
        genpoly(f, gen, d).len() == d + 1,
        genpoly(f, gen, d)[0] == 1,
        gen != 0 ==> genpoly(f, gen, d).last() != 0,
    decreases d,
{
    if d != 0 {
        lemma_genpoly_facts(f, gen, (d - 1) as nat);
        let p = genpoly(f, gen, (d - 1) as nat);
        let q = seq![1u8, fpow(f, gen, d)];
        lemma_sconv_edges(f, p, q);
        lemma_fmul_one(f, 1u8);
        if gen != 0 {
            lemma_fpow_nonzero(f, gen, d);
            lemma_fmul_nonzero(f, p.last(), q.last());
        }
    }
}

/// The padded message polynomial: the message coefficients followed by `k`
/// zero parity slots.
pub open spec fn padded(msg: Seq<u8>, k: nat) -> Seq<u8> {
    msg + zeros(k)
}

/// What encoding computes: the padded message polynomial minus its own
/// remainder modulo the generator polynomial, the remainder aligned at the
/// low-order end.
pub open spec fn spec_encode(f: GF2k, g: Seq<u8>, k: nat, msg: Seq<u8>) -> Seq<u8> {
    sxor(padded(msg, k), padl(srem(f, padded(msg, k), g), padded(msg, k).len()))
}

/// Builds the generator polynomial for a codec of `n` symbols with `k` of
/// them parity, over powers of the generator element.
fn create_generator_poly(f: &GF2k, n: usize, k: usize, gen: &FieldElement) -> (r: Polynomial)
    requires
        f.wf(),
        k <= n,
        n <= 256,
    ensures
        r.vals() == genpoly(*f, gen.value, (n - k) as nat),
        r.coeffs@.len() == n - k + 1,
{
    let d = n - k;
    let mut start: Vec<FieldElement> = Vec::new();
    start.push(FieldElement::one());
    let mut p = Polynomial { coeffs: start };
    proof {
        assert(p.vals() =~= seq![1u8]);
    }
    let mut i: usize = 1;
    while i <= d
        invariant
            f.wf(),
            1 <= i <= d + 1,
            d <= 256,
            p.vals() == genpoly(*f, gen.value, (i - 1) as nat),
            p.coeffs@.len() == i,
        decreases d + 1 - i,
    {
        proof {
            lemma_genpoly_facts(*f, gen.value, (i - 1) as nat);
        }
        let pw = gen.pow(i, f);
        let mut fc: Vec<FieldElement> = Vec::new();
        fc.push(FieldElement::one());
        fc.push(pw);
        let factor = Polynomial { coeffs: fc };
        proof {
            assert(factor.vals() =~= seq![1u8, fpow(*f, gen.value, i as nat)]);
        }
        let q = p.mul(&factor, f);
        proof {
            let prev = genpoly(*f, gen.value, (i - 1) as nat);
            let fac = seq![1u8, fpow(*f, gen.value, i as nat)];
            lemma_sconv_edges(*f, prev, fac);
            lemma_fmul_one(*f, 1u8);
            assert(q.vals() == seq![0u8] + sconv(*f, prev, fac));
            assert(q.vals()[1] == sconv(*f, prev, fac)[0]);
            assert(q.vals()[1] == 1);
            assert(q.coeffs@.len() == q.vals().len());
            assert(q.vals()[1] == elems(q.coeffs@)[1]);
            assert(q.coeffs@[1].value == 1);
            assert(0 <= 1 < q.coeffs@.len() && q.coeffs@[1].value != 0);
        }
        p = Polynomial::new(&q.coeffs);
        proof {
            let conv = sconv(
                *f,
                genpoly(*f, gen.value, (i - 1) as nat),
                seq![1u8, fpow(*f, gen.value, i as nat)],
            );
            assert((seq![0u8] + conv).skip(1) =~= conv);
            assert(strip_zeros(seq![0u8] + conv) == strip_zeros(conv));
            assert(strip_zeros(conv) == conv);
            lemma_genpoly_facts(*f, gen.value, i as nat);
        }
        i += 1;
    }
    proof {
        lemma_genpoly_facts(*f, gen.value, d as nat);
    }
    p
}

/// A Reed-Solomon codec: fully determined at construction and immutable
/// thereafter. It owns the field engine and the generator polynomial built
/// from the codeword length `n`, the parity count `k` and the generator
/// element.
#[derive(Debug)]
pub struct ReedSolomon {
    field: GF2k,
    total_size: usize,
    parity_size: usize,
    generator: FieldElement,
    generator_poly: Polynomial,
}

impl ReedSolomon {
    /// The field engine the codec computes with.
    pub closed spec fn spec_field(self) -> GF2k {
        self.field
    }

    /// The total codeword length.
    pub closed spec fn spec_n(self) -> nat {
        self.total_size as nat
    }

    /// The parity symbol count.
    pub closed spec fn spec_k(self) -> nat {
        self.parity_size as nat
    }

    /// The generator field element.
    pub closed spec fn spec_gen(self) -> u8 {
        self.generator.value
    }

    /// The coefficients of the held generator polynomial.
    pub closed spec fn spec_genpoly(self) -> Seq<u8> {
        self.generator_poly.vals()
    }

    /// Every codec value is well formed: the engine is well formed, the
    /// sizes passed validation, and the generator polynomial is the one
    /// derived from them.
    #[verifier::type_invariant]
    spec fn inv(self) -> bool {
        &&& self.field.wf()
        &&& 1 <= self.total_size <= 256
        &&& 1 <= self.parity_size <= self.total_size
        &&& self.generator_poly.vals() == genpoly(
            self.field,
            self.generator.value,
            (self.total_size - self.parity_size) as nat,
        )
        &&& self.generator_poly.coeffs@.len() == self.total_size - self.parity_size + 1
    }

    /// Validates `(n, k, g)` and builds the codec: `n` must be at least
    /// one, `k` at least one, and `n` at most the order of the field; each
    /// error names the first check that failed.
    pub fn new(field: GF2k, n: usize, k: usize, gen: FieldElement) -> (r: Result<
        ReedSolomon,
        Errors,
    >)
        requires
            field.wf(),
            1 <= n <= 256 && k >= 1 ==> k <= n,
        ensures
            n == 0 ==> r == Err::<ReedSolomon, Errors>(Errors::TooFewNumbers),
            n >= 1 && k == 0 ==> r == Err::<ReedSolomon, Errors>(Errors::TooFewParity),
            n >= 1 && k >= 1 && n > 256 ==> r == Err::<ReedSolomon, Errors>(Errors::TooManyNumbers),
            1 <= n <= 256 && 1 <= k ==> (r matches Ok(rs) && rs.spec_n() == n && rs.spec_k()
                == k && rs.spec_gen() == gen.value && rs.spec_field() == field && rs.spec_genpoly()
                == genpoly(field, gen.value, (n - k) as nat)),
    {
        if n == 0 {
            return Err(Errors::TooFewNumbers);
        }
        if k == 0 {
            return Err(Errors::TooFewParity);
        }
        if n > 256 {
            return Err(Errors::TooManyNumbers);
        }
        let generator_poly = create_generator_poly(&field, n, k, &gen);
        Ok(
            ReedSolomon {
                field,
                total_size: n,
                parity_size: k,
                generator: gen,
                generator_poly,
            },
        )
    }

    /// Turns the message bytes into field elements, appends the parity
    /// slots, and hands back the padded coefficient vector.
    fn pad_message(&self, message: &Vec<u8>) -> (r: Vec<FieldElement>)
        ensures
            elems(r@) == padded(message@, self.spec_k()),
    {
        let mut coeffs: Vec<FieldElement> = Vec::new();
        let mut i: usize = 0;
        while i < message.len()
            invariant
                i <= message@.len(),
                coeffs@.len() == i,
                forall|j: int| 0 <= j < i ==> #[trigger] coeffs@[j].value == message@[j],
            decreases message@.len() - i,
        {
            coeffs.push(FieldElement::new(message[i]));
            i += 1;
        }
        let mut z: usize = 0;
        while z < self.parity_size
            invariant
                z <= self.parity_size,
                coeffs@.len() == message@.len() + z,
                forall|j: int| 0 <= j < message@.len() ==> #[trigger] coeffs@[j].value == message@[j],
                forall|j: int|
                    message@.len() <= j < coeffs@.len() ==> #[trigger] coeffs@[j].value == 0,
            decreases self.parity_size - z,
        {
            coeffs.push(FieldElement::zero());
            z += 1;
        }
        proof {
            assert(elems(coeffs@) =~= padded(message@, self.spec_k()));
        }
        coeffs
    }

    /// Encodes a nonempty message: pads it with `k` parity slots, computes
    /// the remainder modulo the generator polynomial, and subtracts that
    /// remainder so the result is exactly divisible by the generator. An
    /// empty message is rejected.
    pub fn encode(&self, message: &Vec<u8>) -> (r: Result<Vec<u8>, Errors>)
        ensures
            message@.len() == 0 <==> r is Err,
            message@.len() == 0 ==> r == Err::<Vec<u8>, Errors>(Errors::InvalidMessage),
            message@.len() >= 1 ==> (r matches Ok(out) && out@ == spec_encode(
                self.spec_field(),
                self.spec_genpoly(),
                self.spec_k(),
                message@,
            )),
    {
        proof {
            use_type_invariant(&*self);
        }
        if message.len() == 0 {
            return Err(Errors::InvalidMessage);
        }
        let coeffs = self.pad_message(message);
        let message_poly = Polynomial { coeffs };
        let remainder = message_poly.rem(&self.generator_poly, &self.field);
        proof {
            lemma_srem_len(self.field, message_poly.vals(), self.generator_poly.vals());
            assert(padl(message_poly.vals(), message_poly.vals().len()) =~= message_poly.vals());
        }
        let encoded_poly = message_poly.sub(&remainder);
        let mut out: Vec<u8> = Vec::new();
        let mut i: usize = 0;
        while i < encoded_poly.coeffs.len()
            invariant
                i <= encoded_poly.coeffs@.len(),
                out@.len() == i,
                forall|j: int| 0 <= j < i ==> #[trigger] out@[j] == encoded_poly.vals()[j],
            decreases encoded_poly.coeffs@.len() - i,
        {
            out.push(encoded_poly.coeffs[i].value);
            i += 1;
        }
        proof {
            assert(out@ =~= encoded_poly.vals());
            assert(out@ =~= spec_encode(
                self.spec_field(),
                self.spec_genpoly(),
                self.spec_k(),
                message@,
            ));
        }
        Ok(out)
    }

    /// Checks a nonempty candidate codeword: rebuilds the padded
    /// polynomial, divides by the generator polynomial, and reports whether
    /// the remainder is the zero polynomial — the syndrome test. An empty
    /// message is rejected.
    pub fn check(&self, message: &Vec<u8>) -> (r: Result<bool, Errors>)
        ensures
            message@.len() == 0 <==> r is Err,
            message@.len() == 0 ==> r == Err::<bool, Errors>(Errors::InvalidMessage),
            message@.len() >= 1 ==> (r matches Ok(valid) && valid == all_zero(
                srem(
                    self.spec_field(),
                    padded(message@, self.spec_k()),
                    self.spec_genpoly(),
                ),
            )),
    {
        proof {
            use_type_invariant(&*self);
        }
        if message.len() == 0 {
            return Err(Errors::InvalidMessage);
        }
        let coeffs = self.pad_message(message);
        let message_poly = Polynomial { coeffs };
        let remainder = message_poly.rem(&self.generator_poly, &self.field);
        Ok(remainder.is_zero())
    }
}

/// Round trip: the codeword that encoding any nonempty message produces
/// passes the syndrome check, whatever the generator polynomial is — the
/// check re-pads the codeword, and the subtracted remainder cancels out of
/// the re-division exactly.
pub proof fn lemma_encode_round_trip(f: GF2k, g: Seq<u8>, k: nat, msg: Seq<u8>)
    requires
        f.wf(),
        g.len() >= 1,
    ensures
        all_zero(srem(f, padded(spec_encode(f, g, k, msg), k), g)),
{
    let p = padded(msg, k);
    let l = p.len();
    let r = srem(f, p, g);
    lemma_srem_len(f, p, g);
    let e = spec_encode(f, g, k, msg);
    assert(padded(e, k) =~= sxor(p + zeros(k), padl(r, l) + zeros(k))) by {
        assert forall|i: int| 0 <= i < l + k implies padded(e, k)[i] == sxor(
            p + zeros(k),
            padl(r, l) + zeros(k),
        )[i] by {
            lemma_xor_zero(0u8);
        }
    }
    lemma_srem_linear(f, p + zeros(k), padl(r, l) + zeros(k), g);
    lemma_srem_congruence(f, p, zeros(k), g);
    assert(srem(f, p + zeros(k), g) == srem(f, r + zeros(k), g)) by {
        assert(r + zeros(k) =~= srem(f, p, g) + zeros(k));
    }
    assert(padl(r, l) + zeros(k) =~= zeros((l - r.len()) as nat) + (r + zeros(k)));
    lemma_nrem_zeros_prefix(f, (l - r.len()) as nat, r + zeros(k), g);
    lemma_srem_len(f, p + zeros(k), g);
    lemma_srem_len(f, padl(r, l) + zeros(k), g);
    lemma_srem_len(f, r + zeros(k), g);
    let u = srem(f, p + zeros(k), g);
    let v = srem(f, padl(r, l) + zeros(k), g);
    assert(u.len() == v.len());
    assert(v == u) by {
        assert(nrem(f, padl(r, l) + zeros(k), g) == nrem(f, r + zeros(k), g));
        assert(padl(v, (g.len() - 1) as nat) =~= padl(u, (g.len() - 1) as nat));
        assert forall|i: int| 0 <= i < v.len() implies v[i] == u[i] by {
            assert(padl(v, (g.len() - 1) as nat)[g.len() - 1 - v.len() + i] == v[i]);
            assert(padl(u, (g.len() - 1) as nat)[g.len() - 1 - u.len() + i] == u[i]);
        }
    }
    assert forall|i: int| 0 <= i < srem(f, padded(e, k), g).len() implies srem(
        f,
        padded(e, k),
        g,
    )[i] == 0 by {
        assert(srem(f, padded(e, k), g)[i] == (u[i] ^ v[i]));
        lemma_xor_self(u[i], 0);
    }
}

/// Corruption detection: changing any single byte of an encoded codeword
/// makes the syndrome check fail, provided the generator polynomial has a
/// root to check — its degree is at least one and its constant term is
/// nonzero, as holds for any nonzero generator element.
pub proof fn lemma_corruption_detected(
    f: GF2k,
    g: Seq<u8>,
    k: nat,
    msg: Seq<u8>,
    pos: int,
    nb: u8,
)
    requires
        f.wf(),
        g.len() >= 2,
        g.last() != 0,
        0 <= pos < spec_encode(f, g, k, msg).len(),
        nb != spec_encode(f, g, k, msg)[pos],
    ensures
        !all_zero(srem(f, padded(spec_encode(f, g, k, msg).update(pos, nb), k), g)),
{
    let e = spec_encode(f, g, k, msg);
    let l = e.len();
    let d = e[pos] ^ nb;
    lemma_xor_self(e[pos], nb);
    let unit = Seq::new(l as nat, |i: int| if i == pos { d } else { 0u8 });
    assert(e.update(pos, nb) =~= sxor(e, unit)) by {
        assert forall|i: int| 0 <= i < l implies e.update(pos, nb)[i] == sxor(e, unit)[i] by {
            if i == pos {
                lemma_xor_self(e[pos], nb);
            } else {
                lemma_xor_zero(e[i]);
            }
        }
    }
    assert(padded(e.update(pos, nb), k) =~= sxor(padded(e, k), unit + zeros(k))) by {
        assert forall|i: int| 0 <= i < l + k implies padded(e.update(pos, nb), k)[i] == sxor(
            padded(e, k),
            unit + zeros(k),
        )[i] by {
            if i >= l {
                lemma_xor_zero(0u8);
            } else {
                if i == pos {
                    lemma_xor_self(e[pos], nb);
                } else {
                    lemma_xor_zero(e[i]);
                }
            }
        }
    }
    lemma_srem_linear(f, padded(e, k), unit + zeros(k), g);
    lemma_encode_round_trip(f, g, k, msg);
    let tail = (l + k - 1 - pos) as nat;
    assert(unit + zeros(k) =~= zeros(pos as nat) + (seq![d] + zeros(tail)));
    lemma_nrem_zeros_prefix(f, pos as nat, seq![d] + zeros(tail), g);
    lemma_srem_unit_nonzero(f, d, tail, g);
    lemma_srem_len(f, unit + zeros(k), g);
    lemma_srem_len(f, seq![d] + zeros(tail), g);
    lemma_srem_len(f, padded(e, k), g);
    let w = srem(f, unit + zeros(k), g);
    let y = srem(f, seq![d] + zeros(tail), g);
    assert(!all_zero(nrem(f, seq![d] + zeros(tail), g))) by {
        lemma_padl_all_zero(y, (g.len() - 1) as nat);
    }
    assert(!all_zero(w)) by {
        assert(nrem(f, unit + zeros(k), g) == nrem(f, seq![d] + zeros(tail), g));
        lemma_padl_all_zero(w, (g.len() - 1) as nat);
    }
    let iw = choose|i: int| 0 <= i < w.len() && w[i] != 0;
    let u = srem(f, padded(e, k), g);
    assert(srem(f, padded(e.update(pos, nb), k), g)[iw] == (u[iw] ^ w[iw]));
    lemma_xor_zero(w[iw]);
    assert(u[iw] == 0);
}

/// Round trip at the codec level: for any codec and any nonempty message,
/// the remainder that `check` computes for `encode`'s output is the zero
/// polynomial, so `check(encode(message))` reports the codeword valid.
pub proof fn lemma_codec_round_trip(rs: ReedSolomon, msg: Seq<u8>)
    requires
        rs.spec_field().wf(),
        rs.spec_n() >= rs.spec_k(),
        rs.spec_genpoly() == genpoly(
            rs.spec_field(),
            rs.spec_gen(),
            (rs.spec_n() - rs.spec_k()) as nat,
        ),
    ensures
        all_zero(
            srem(
                rs.spec_field(),
                padded(
                    spec_encode(rs.spec_field(), rs.spec_genpoly(), rs.spec_k(), msg),
                    rs.spec_k(),
                ),
                rs.spec_genpoly(),
            ),
        ),
{
    lemma_genpoly_facts(rs.spec_field(), rs.spec_gen(), (rs.spec_n() - rs.spec_k()) as nat);
    lemma_encode_round_trip(rs.spec_field(), rs.spec_genpoly(), rs.spec_k(), msg);
}

/// Corruption detection at the codec level: for a codec built from a
/// nonzero generator element with at least one parity root (`n > k`),
/// changing any single byte of an encoded codeword makes the remainder
/// that `check` computes nonzero, so `check` reports it invalid.
pub proof fn lemma_codec_corruption_detected(rs: ReedSolomon, msg: Seq<u8>, pos: int, nb: u8)
    requires
        rs.spec_field().wf(),
        rs.spec_genpoly() == genpoly(
            rs.spec_field(),
            rs.spec_gen(),
            (rs.spec_n() - rs.spec_k()) as nat,
        ),
        rs.spec_gen() != 0,
        rs.spec_n() > rs.spec_k(),
        0 <= pos < spec_encode(rs.spec_field(), rs.spec_genpoly(), rs.spec_k(), msg).len(),
        nb != spec_encode(rs.spec_field(), rs.spec_genpoly(), rs.spec_k(), msg)[pos],
    ensures
        !all_zero(
            srem(
                rs.spec_field(),
                padded(
                    spec_encode(rs.spec_field(), rs.spec_genpoly(), rs.spec_k(), msg).update(
                        pos,
                        nb,
                    ),
                    rs.spec_k(),
                ),
                rs.spec_genpoly(),
            ),
        ),
{
    lemma_genpoly_facts(rs.spec_field(), rs.spec_gen(), (rs.spec_n() - rs.spec_k()) as nat);
    lemma_corruption_detected(
        rs.spec_field(),
        rs.spec_genpoly(),
        rs.spec_k(),
        msg,
        pos,
        nb,
    );
}

} // verus!
