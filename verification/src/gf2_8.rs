//! Table-driven arithmetic for the finite field GF(2^8).
//!
//! The engine holds a log table (256 entries) and an antilog table
//! (510 entries: two back-to-back copies of the 255-element cycle of the
//! multiplicative group), built once from the primitive polynomial by
//! repeated doubling. Every property the rest of the crate relies on is
//! captured in the well-formedness predicate [`GF2k::wf`], which the
//! constructor establishes by checking the freshly built tables in full.

use vstd::prelude::*;

verus! {

/// The number of elements of the field.
pub const ORDER: usize = 256;

/// The primitive polynomial that reduction uses while the tables are built.
pub const PRIME_POLY: usize = 0x11d;

/// The GF(2^8) field engine: a pair of lookup tables with the
/// well-formedness invariant [`GF2k::wf`].
#[derive(Debug)]
pub struct GF2k {
    /// Maps each nonzero field value to its position in the multiplicative cycle.
    pub log: Vec<u8>,
    /// Maps cycle positions 0..510 to field values; the second half repeats the first.
    pub exp: Vec<u8>,
}

/// Field multiplication: zero absorbs, and nonzero operands multiply by
/// adding their discrete logs, resolved through the doubled antilog table.
pub open spec fn fmul(f: GF2k, a: u8, b: u8) -> u8 {
    if a == 0 || b == 0 {
        0u8
    } else {
        f.exp@[f.log@[a as int] as int + f.log@[b as int] as int]
    }
}

/// Field multiplicative inverse of a nonzero value.
pub open spec fn finv(f: GF2k, a: u8) -> u8 {
    f.exp@[255 - f.log@[a as int] as int]
}

/// Field division by a nonzero divisor.
pub open spec fn fdiv(f: GF2k, a: u8, b: u8) -> u8 {
    fmul(f, a, finv(f, b))
}

/// Field exponentiation: anything to the zeroth power is one, zero to a
/// positive power is zero, and otherwise the log is scaled modulo the
/// cycle length.
pub open spec fn fpow(f: GF2k, a: u8, p: nat) -> u8 {
    if p == 0 {
        1u8
    } else if a == 0 {
        0u8
    } else {
        f.exp@[(f.log@[a as int] as int * p) % 255]
    }
}

impl GF2k {
    /// The log and antilog tables are mutually inverse bijections between
    /// the nonzero field values and the cycle positions 0..255, the antilog
    /// table repeats its cycle in its second half, and position zero holds
    /// the multiplicative identity.
    pub open spec fn tables_wf(self) -> bool {
        &&& self.log@.len() == 256
        &&& self.exp@.len() == 510
        &&& self.exp@[0] == 1
        &&& forall|i: int| 0 <= i < 255 ==> #[trigger] self.exp@[i] != 0
        &&& forall|i: int| 0 <= i < 255 ==> self.exp@[i + 255] == #[trigger] self.exp@[i]
        &&& forall|i: int| 0 <= i < 255 ==> #[trigger] self.log@[self.exp@[i] as int] == i
        &&& forall|a: int| 1 <= a < 256 ==> #[trigger] self.log@[a] < 255
        &&& forall|a: int| 1 <= a < 256 ==> #[trigger] self.exp@[self.log@[a] as int] == a
    }

    /// Multiplication distributes over the characteristic-2 addition (XOR).
    pub open spec fn mul_distributive(self) -> bool {
        forall|a: u8, b: u8, c: u8|
            #[trigger] fmul(self, a, b ^ c) == fmul(self, a, b) ^ fmul(self, a, c)
    }

    /// Full well-formedness of the engine.
    pub open spec fn wf(self) -> bool {
        self.tables_wf() && self.mul_distributive()
    }

    /// The additive identity of the field.
    pub fn zero() -> (r: u8)
        ensures
            r == 0,
    {
        0
    }

    /// The multiplicative identity of the field.
    pub fn one() -> (r: u8)
        ensures
            r == 1,
    {
        1
    }

    /// Field addition, the characteristic-2 XOR.
    pub fn add(a: u8, b: u8) -> (r: u8)
        ensures
            r == (a ^ b),
    {
        a ^ b
    }

    /// Field subtraction coincides with addition in characteristic 2.
    pub fn sub(a: u8, b: u8) -> (r: u8)
        ensures
            r == (a ^ b),
    {
        a ^ b
    }

    /// Field negation is the identity: every element is its own additive inverse.
    pub fn neg(a: u8) -> (r: u8)
        ensures
            r == a,
    {
        a
    }

    /// Equality of field values.
    pub fn eq(a: &u8, b: &u8) -> (r: bool)
        ensures
            r == (a == b),
    {
        a == b
    }

    /// Reads a field value from a byte; the representations coincide.
    pub fn from_u8(a: u8) -> (r: u8)
        ensures
            r == a,
    {
        a
    }

    /// Field multiplication by table lookup.
    pub fn mul(&self, a: u8, b: u8) -> (r: u8)
        requires
            self.wf(),
        ensures
            r == fmul(*self, a, b),
    {
        self.mul_raw(a, b)
    }

    /// Table lookup multiply, needing only the bijection facts; the
    /// distributivity check is run on top of this.
    fn mul_raw(&self, a: u8, b: u8) -> (r: u8)
        requires
            self.tables_wf(),
        ensures
            r == fmul(*self, a, b),
    {
        if a == 0 || b == 0 {
            return 0;
        }
        let la = self.log[a as usize] as usize;
        let lb = self.log[b as usize] as usize;
        self.exp[la + lb]
    }

    /// Field exponentiation through the log table; the exponent is reduced
    /// modulo the cycle length before the multiply so nothing overflows.
    pub fn exp(&self, a: u8, power: usize) -> (r: u8)
        requires
            self.wf(),
        ensures
            r == fpow(*self, a, power as nat),
    {
        if power == 0 {
            return 1;
        }
        if a == 0 {
            return 0;
        }
        let la = self.log[a as usize] as usize;
        proof {
            assert(la * (power % 255) <= 255 * 254) by (nonlinear_arith)
                requires
                    la <= 255usize,
                    power % 255 < 255usize,
            ;
        }
        let idx = (la * (power % 255)) % 255;
        proof {
            vstd::arithmetic::div_mod::lemma_mul_mod_noop_right(
                la as int,
                power as int,
                255int,
            );
        }
        self.exp[idx]
    }

    /// Multiplicative inverse; absent exactly for the zero value.
    pub fn inverse(&self, a: u8) -> (r: Option<u8>)
        requires
            self.wf(),
        ensures
            a == 0 ==> r is None,
            a != 0 ==> r == Some(finv(*self, a)),
    {
        if a == 0 {
            return None;
        }
        let la = self.log[a as usize] as usize;
        Some(self.exp[255 - la])
    }

    /// Field division; absent exactly for a zero divisor.
    pub fn div(&self, a: u8, b: u8) -> (r: Option<u8>)
        requires
            self.wf(),
        ensures
            b == 0 ==> r is None,
            b != 0 ==> r == Some(fdiv(*self, a, b)),
    {
        if b == 0 {
            return None;
        }
        if a == 0 {
            return Some(0);
        }
        let inv = match self.inverse(b) {
            Some(v) => v,
            None => {
                return None;
            },
        };
        Some(self.mul(a, inv))
    }

    /// Builds the tables and hands back an engine only once every clause of
    /// [`GF2k::wf`] has been checked against them; the antilog table is the
    /// one the doubling recurrence produces.
    pub fn new() -> (r: Option<GF2k>)
        ensures
            r matches Some(f) ==> f.wf() && (forall|i: int|
                0 <= i < 255 ==> f.exp@[i] == #[trigger] cycle_value(i as nat) as u8),
    {
        let (log, exp) = build_tables();
        let f = GF2k { log, exp };
        if !f.check_tables() {
            return None;
        }
        if !f.check_distributive() {
            return None;
        }
        Some(f)
    }

    /// Checks every bijection, periodicity and identity clause of
    /// [`GF2k::tables_wf`] against the held tables.
    fn check_tables(&self) -> (r: bool)
        requires
            self.log@.len() == 256,
            self.exp@.len() == 510,
        ensures
            r ==> self.tables_wf(),
    {
        if self.exp[0] != 1 {
            return false;
        }
        let mut i: usize = 0;
        while i < 255
            invariant
                i <= 255,
                self.log@.len() == 256,
                self.exp@.len() == 510,
                forall|j: int| 0 <= j < i ==> #[trigger] self.exp@[j] != 0,
                forall|j: int| 0 <= j < i ==> self.exp@[j + 255] == #[trigger] self.exp@[j],
                forall|j: int| 0 <= j < i ==> #[trigger] self.log@[self.exp@[j] as int] == j,
            decreases 255 - i,
        {
            let e = self.exp[i];
            if e == 0 {
                return false;
            }
            if self.exp[i + 255] != e {
                return false;
            }
            if self.log[e as usize] as usize != i {
                return false;
            }
            i += 1;
        }
        let mut a: usize = 1;
        while a < 256
            invariant
                1 <= a <= 256,
                self.log@.len() == 256,
                self.exp@.len() == 510,
                forall|x: int| 1 <= x < a ==> #[trigger] self.log@[x] < 255,
                forall|x: int| 1 <= x < a ==> #[trigger] self.exp@[self.log@[x] as int] == x,
            decreases 256 - a,
        {
            let l = self.log[a];
            if l >= 255 {
                return false;
            }
            if self.exp[l as usize] as usize != a {
                return false;
            }
            a += 1;
        }
        true
    }

    /// Checks distributivity of the table multiply over XOR for every
    /// triple of field values.
    fn check_distributive(&self) -> (r: bool)
        requires
            self.tables_wf(),
        ensures
            r ==> self.mul_distributive(),
    {
        let mut a: usize = 0;
        while a < 256
            invariant
                a <= 256,
                self.tables_wf(),
                forall|x: u8, y: u8, z: u8|
                    (x as int) < (a as int) ==> #[trigger] fmul(*self, x, y ^ z) == fmul(*self, x, y)
                        ^ fmul(*self, x, z),
            decreases 256 - a,
        {
            let mut b: usize = 0;
            while b < 256
                invariant
                    a < 256,
                    b <= 256,
                    self.tables_wf(),
                    forall|y: u8, z: u8|
                        (y as int) < (b as int) ==> #[trigger] fmul(*self, a as u8, y ^ z) == fmul(
                            *self,
                            a as u8,
                            y,
                        ) ^ fmul(*self, a as u8, z),
                decreases 256 - b,
            {
                let mut c: usize = 0;
                while c < 256
                    invariant
                        a < 256,
                        b < 256,
                        c <= 256,
                        self.tables_wf(),
                        forall|z: u8|
                            (z as int) < (c as int) ==> #[trigger] fmul(*self, a as u8, (b as u8) ^ z)
                                == fmul(*self, a as u8, b as u8) ^ fmul(*self, a as u8, z),
                    decreases 256 - c,
                {
                    let lhs = self.mul_raw(a as u8, (b as u8) ^ (c as u8));
                    let rhs = self.mul_raw(a as u8, b as u8) ^ self.mul_raw(a as u8, c as u8);
                    if lhs != rhs {
                        return false;
                    }
                    c += 1;
                }
                proof {
                    assert forall|y: u8, z: u8|
                        (y as int) < (b + 1) as int implies #[trigger] fmul(
                        *self,
                        a as u8,
                        y ^ z,
                    ) == fmul(*self, a as u8, y) ^ fmul(*self, a as u8, z) by {
                        if (y as int) < (b as int) {
                        } else {
                            assert(y == b as u8);
                        }
                    }
                }
                b += 1;
            }
            proof {
                assert forall|x: u8, y: u8, z: u8|
                    (x as int) < (a + 1) as int implies #[trigger] fmul(*self, x, y ^ z) == fmul(
                    *self,
                    x,
                    y,
                ) ^ fmul(*self, x, z) by {
                    if (x as int) < (a as int) {
                    } else {
                        assert(x == a as u8);
                    }
                }
            }
            a += 1;
        }
        true
    }
}

/// Characteristic-2 addition has zero as its identity on either side.
pub proof fn lemma_xor_zero(a: u8)
    ensures
        (a ^ 0) == a,
        (0 ^ a) == a,
{
    assert((a ^ 0) == a && (0 ^ a) == a) by (bit_vector);
}

/// Every element is its own additive inverse: addition is commutative and
/// adding a value to itself yields zero.
pub proof fn lemma_xor_self(a: u8, b: u8)
    ensures
        (a ^ a) == 0,
        (a ^ b) == (b ^ a),
        a != b ==> (a ^ b) != 0,
        (a ^ (a ^ b)) == b,
{
    assert((a ^ a) == 0 && (a ^ b) == (b ^ a) && (a != b ==> (a ^ b) != 0) && (a ^ (a ^ b)) == b)
        by (bit_vector);
}

/// Two sums of two terms each may be regrouped pairwise.
pub proof fn lemma_xor_rearrange(p: u8, q: u8, r: u8, s: u8)
    ensures
        ((p ^ q) ^ (r ^ s)) == ((p ^ r) ^ (q ^ s)),
{
    assert(((p ^ q) ^ (r ^ s)) == ((p ^ r) ^ (q ^ s))) by (bit_vector);
}

/// Multiplication by one is the identity, on either side.
pub proof fn lemma_fmul_one(f: GF2k, a: u8)
    requires
        f.wf(),
    ensures
        fmul(f, a, 1) == a,
        fmul(f, 1, a) == a,
{
    assert(f.log@[f.exp@[0] as int] == 0);
    if a != 0 {
        assert(f.exp@[f.log@[a as int] as int] == a);
    }
}

/// Multiplication by zero absorbs, on either side.
pub proof fn lemma_fmul_zero(f: GF2k, a: u8)
    ensures
        fmul(f, a, 0) == 0,
        fmul(f, 0, a) == 0,
{
}

/// Multiplication is commutative.
pub proof fn lemma_fmul_comm(f: GF2k, a: u8, b: u8)
    ensures
        fmul(f, a, b) == fmul(f, b, a),
{
}

/// The field has no zero divisors: a product of nonzero values is nonzero.
pub proof fn lemma_fmul_nonzero(f: GF2k, a: u8, b: u8)
    requires
        f.wf(),
        a != 0,
        b != 0,
    ensures
        fmul(f, a, b) != 0,
{
    let la = f.log@[a as int] as int;
    let lb = f.log@[b as int] as int;
    assert(la < 255 && lb < 255);
    if la + lb < 255 {
        assert(f.exp@[la + lb] != 0);
    } else {
        assert(f.exp@[(la + lb - 255) + 255] == f.exp@[la + lb - 255]);
        assert(f.exp@[la + lb - 255] != 0);
    }
}

/// A nonzero value multiplied by its inverse yields one, and the inverse
/// itself is nonzero.
pub proof fn lemma_fmul_inverse(f: GF2k, a: u8)
    requires
        f.wf(),
        a != 0,
    ensures
        finv(f, a) != 0,
        fmul(f, a, finv(f, a)) == 1,
{
    let la = f.log@[a as int] as int;
    assert(la < 255);
    assert(f.exp@[0int + 255] == f.exp@[0int]);
    assert(f.log@[f.exp@[0] as int] == 0);
    if la == 0 {
        assert(finv(f, a) == f.exp@[255]);
        assert(f.exp@[la as int] == a);
    } else {
        assert(f.exp@[255 - la] != 0);
        assert(f.log@[f.exp@[255 - la] as int] == 255 - la);
    }
}

/// Multiplication distributes over addition in its second argument.
pub proof fn lemma_fmul_distrib(f: GF2k, a: u8, b: u8, c: u8)
    requires
        f.wf(),
    ensures
        fmul(f, a, b ^ c) == (fmul(f, a, b) ^ fmul(f, a, c)),
{
    assert(fmul(f, a, b ^ c) == fmul(f, a, b) ^ fmul(f, a, c));
}

/// Multiplication distributes over addition in its first argument.
pub proof fn lemma_fmul_distrib_left(f: GF2k, a: u8, b: u8, c: u8)
    requires
        f.wf(),
    ensures
        fmul(f, a ^ b, c) == (fmul(f, a, c) ^ fmul(f, b, c)),
{
    lemma_fmul_distrib(f, c, a, b);
}

/// A power of a nonzero value is nonzero.
pub proof fn lemma_fpow_nonzero(f: GF2k, a: u8, p: nat)
    requires
        f.wf(),
        a != 0,
    ensures
        fpow(f, a, p) != 0,
{
    if p != 0 {
        let idx = (f.log@[a as int] as int * p) % 255;
        vstd::arithmetic::mul::lemma_mul_nonnegative(f.log@[a as int] as int, p as int);
        vstd::arithmetic::div_mod::lemma_mod_bound(f.log@[a as int] as int * p as int, 255int);
        assert(f.exp@[idx] != 0);
    }
}

/// The field axioms in one place, for all field values `a` and `b`:
/// addition commutes, has zero as identity and each value as its own
/// inverse; multiplication commutes, has one as identity and zero as
/// absorber; every nonzero value times its inverse is one; anything to the
/// zeroth power is one; and zero to a positive power is zero.
pub proof fn lemma_field_axioms(f: GF2k, a: u8, b: u8)
    requires
        f.wf(),
    ensures
        (a ^ b) == (b ^ a),
        (a ^ 0) == a,
        (a ^ a) == 0,
        fmul(f, a, b) == fmul(f, b, a),
        fmul(f, a, 1) == a,
        fmul(f, a, 0) == 0,
        a != 0 ==> fmul(f, a, finv(f, a)) == 1,
        fpow(f, a, 0) == 1,
        b != 0 ==> fpow(f, 0, b as nat) == 0,
{
    lemma_xor_zero(a);
    lemma_xor_self(a, b);
    lemma_fmul_one(f, a);
    if a != 0 {
        lemma_fmul_inverse(f, a);
    }
}

/// The value the doubling recurrence reaches after `i` steps: one at the
/// start, then doubled and reduced modulo the primitive polynomial whenever
/// it overflows eight bits.
pub open spec fn cycle_value(i: nat) -> usize
    decreases i,
{
    if i == 0 {
        1usize
    } else {
        let s = cycle_value((i - 1) as nat) << 1usize;
        if s >= 256 {
            s ^ PRIME_POLY
        } else {
            s
        }
    }
}

/// Builds the log and antilog tables by repeated doubling from one,
/// reducing modulo the primitive polynomial on overflow, exactly as the
/// table provider does: cycle position `i` of the antilog table, in both
/// halves, holds the recurrence's value after `i` steps.
fn build_tables() -> (r: (Vec<u8>, Vec<u8>))
    ensures
        r.0@.len() == 256,
        r.1@.len() == 510,
        forall|i: int| 0 <= i < 255 ==> r.1@[i] == #[trigger] cycle_value(i as nat) as u8,
        forall|i: int| 0 <= i < 255 ==> r.1@[i + 255] == #[trigger] cycle_value(i as nat) as u8,
{
    let mut log: Vec<u8> = Vec::new();
    let mut i: usize = 0;
    while i < 256
        invariant
            log@.len() == i,
            i <= 256,
        decreases 256 - i,
    {
        log.push(0);
        i += 1;
    }
    let mut exp: Vec<u8> = Vec::new();
    let mut j: usize = 0;
    while j < 510
        invariant
            exp@.len() == j,
            j <= 510,
        decreases 510 - j,
    {
        exp.push(0);
        j += 1;
    }
    let mut x: usize = 1;
    let mut k: usize = 0;
    while k < 255
        invariant
            k <= 255,
            x < 256,
            x == cycle_value(k as nat),
            log@.len() == 256,
            exp@.len() == 510,
            forall|i: int| 0 <= i < k ==> exp@[i] == #[trigger] cycle_value(i as nat) as u8,
            forall|i: int| 0 <= i < k ==> exp@[i + 255] == #[trigger] cycle_value(i as nat) as u8,
        decreases 255 - k,
    {
        exp.set(k, x as u8);
        exp.set(k + 255, x as u8);
        log.set(x, k as u8);
        proof {
            assert((x << 1usize) < 512) by (bit_vector)
                requires
                    x < 256usize,
            ;
        }
        x = x << 1;
        if x >= 256 {
            proof {
                assert((x ^ 0x11d) < 256) by (bit_vector)
                    requires
                        x >= 256usize,
                        x < 512usize,
                ;
            }
            x = x ^ PRIME_POLY;
        }
        k += 1;
    }
    (log, exp)
}

} // verus!
