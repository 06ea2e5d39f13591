//! Prime field elements.
//!
//! The algorithms of this crate are written against [`FieldExt`], whose
//! operations are stated over the integers modulo `modulus()`. [`Fp`], the
//! base field of the Pallas curve, implements it through `pasta_curves`.

use ff::PrimeField;
use vstd::prelude::*;

verus! {

/// The little-endian integer that a byte sequence encodes.
pub open spec fn bytes_to_nat(s: Seq<u8>) -> nat
    decreases s.len(),
{
    if s.len() == 0 {
        0
    } else {
        s[0] as nat + 256 * bytes_to_nat(s.drop_first())
    }
}

/// Two byte sequences of one length that encode the same integer are equal.
pub proof fn lemma_bytes_to_nat_injective(s: Seq<u8>, t: Seq<u8>)
    requires
        s.len() == t.len(),
        bytes_to_nat(s) == bytes_to_nat(t),
    ensures
        s =~= t,
    decreases s.len(),
{
    if s.len() > 0 {
        lemma_bytes_to_nat_injective(s.drop_first(), t.drop_first());
        assert(s =~= seq![s[0]] + s.drop_first());
        assert(t =~= seq![t[0]] + t.drop_first());
    }
}

/// `a - b` modulo `m`, for `a, b < m`.
pub open spec fn sub_mod(a: nat, b: nat, m: nat) -> nat {
    ((a + m - b) % (m as int)) as nat
}

/// A prime field, with each operation stated over the canonical
/// representatives `0 <= value() < modulus()`.
pub trait FieldExt: Sized + Copy {
    /// The characteristic of the field.
    spec fn modulus() -> nat;

    /// The canonical representative of this element.
    spec fn value(&self) -> nat;

    proof fn lemma_value_bound(x: Self)
        ensures
            Self::modulus() > 1,
            x.value() < Self::modulus(),
    ;

    /// The additive identity.
    fn zero() -> (r: Self)
        ensures
            r.value() == 0,
    ;

    /// The multiplicative identity.
    fn one() -> (r: Self)
        ensures
            r.value() == 1,
    ;

    /// The element congruent to `v`.
    fn from_u128(v: u128) -> (r: Self)
        ensures
            r.value() == v as nat % Self::modulus(),
    ;

    fn add(&self, rhs: &Self) -> (r: Self)
        ensures
            r.value() == (self.value() + rhs.value()) % Self::modulus(),
    ;

    fn sub(&self, rhs: &Self) -> (r: Self)
        ensures
            r.value() == sub_mod(self.value(), rhs.value(), Self::modulus()),
    ;

    fn mul(&self, rhs: &Self) -> (r: Self)
        ensures
            r.value() == (self.value() * rhs.value()) % Self::modulus(),
    ;

    fn neg(&self) -> (r: Self)
        ensures
            r.value() == sub_mod(0, self.value(), Self::modulus()),
    ;

    /// The multiplicative inverse, `None` exactly for zero.
    fn invert(&self) -> (r: Option<Self>)
        ensures
            r is None <==> self.value() == 0,
            r matches Some(w) ==> (self.value() * w.value()) % Self::modulus() == 1,
    ;

    fn equals(&self, other: &Self) -> (r: bool)
        ensures
            r == (self.value() == other.value()),
    ;
}

/// The modulus of the Pallas base field.
pub open spec fn fp_modulus() -> nat {
    0x40000000000000000000000000000000224698fc094cf91b992d30ed00000001nat
}

/// An element of the Pallas base field, held as its canonical
/// little-endian encoding.
#[derive(Clone, Copy, Debug, PartialEq, Eq)]
pub struct Fp {
    repr: [u8; 32],
}

impl Fp {
    /// Every `Fp` holds a canonical encoding: each one is made by
    /// `to_repr` of `pasta_curves`, or checked by its `from_repr`.
    #[verifier::type_invariant]
    spec fn canonical(self) -> bool {
        bytes_to_nat(self.repr@) < fp_modulus()
    }

    /// The 32-byte little-endian encoding of this element.
    pub closed spec fn repr_view(self) -> Seq<u8> {
        self.repr@
    }

    /// The encoding of this element.
    pub fn to_repr(&self) -> (r: [u8; 32])
        ensures
            r@ == self.repr_view(),
            bytes_to_nat(r@) < fp_modulus(),
    {
        proof {
            use_type_invariant(self);
        }
        self.repr
    }

    /// Decodes a canonical little-endian encoding: `None` for an integer not
    /// below the modulus.
    pub fn from_repr(repr: [u8; 32]) -> (r: Option<Fp>)
        ensures
            r is Some <==> bytes_to_nat(repr@) < fp_modulus(),
            r matches Some(x) ==> x.repr_view() == repr@,
    {
        fp_from_repr(repr)
    }
}

/// `pasta_curves::Fp::from_repr`, which refuses an integer not below the
/// modulus, with its result encoded again by `to_repr`, which gives back the
/// encoding that was decoded.
#[verifier::external_body]
fn fp_from_repr(repr: [u8; 32]) -> (r: Option<Fp>)
    ensures
        r is Some <==> bytes_to_nat(repr@) < fp_modulus(),
        r matches Some(x) ==> x.repr_view() == repr@,
{
    Option::from(pasta_curves::Fp::from_repr(repr)).map(|x: pasta_curves::Fp| Fp { repr: x.to_repr() })
}

/// `pasta_curves::Fp::zero`, encoded by `to_repr`: the encoding of zero.
#[verifier::external_body]
fn fp_zero() -> (r: Fp)
    ensures
        r.value() == 0,
{
    Fp { repr: pasta_curves::Fp::zero().to_repr() }
}

/// `pasta_curves::Fp::one`, encoded by `to_repr`: the encoding of one.
#[verifier::external_body]
fn fp_one() -> (r: Fp)
    ensures
        r.value() == 1,
{
    Fp { repr: pasta_curves::Fp::one().to_repr() }
}

/// `PrimeField::from_u128` of `pasta_curves::Fp`: the element congruent to `v`.
#[verifier::external_body]
fn fp_from_u128(v: u128) -> (r: Fp)
    ensures
        r.value() == v as nat % fp_modulus(),
{
    Fp { repr: pasta_curves::Fp::from_u128(v).to_repr() }
}

/// `pasta_curves::Fp::add`: the sum modulo the modulus.
#[verifier::external_body]
fn fp_add(a: &Fp, b: &Fp) -> (r: Fp)
    ensures
        r.value() == (a.value() + b.value()) % fp_modulus(),
{
    let x = pasta_curves::Fp::from_repr(a.repr).unwrap();
    let y = pasta_curves::Fp::from_repr(b.repr).unwrap();
    Fp { repr: x.add(&y).to_repr() }
}

/// `pasta_curves::Fp::sub`: the difference modulo the modulus.
#[verifier::external_body]
fn fp_sub(a: &Fp, b: &Fp) -> (r: Fp)
    ensures
        r.value() == sub_mod(a.value(), b.value(), fp_modulus()),
{
    let x = pasta_curves::Fp::from_repr(a.repr).unwrap();
    let y = pasta_curves::Fp::from_repr(b.repr).unwrap();
    Fp { repr: x.sub(&y).to_repr() }
}

/// `pasta_curves::Fp::mul`: the product modulo the modulus.
#[verifier::external_body]
fn fp_mul(a: &Fp, b: &Fp) -> (r: Fp)
    ensures
        r.value() == (a.value() * b.value()) % fp_modulus(),
{
    let x = pasta_curves::Fp::from_repr(a.repr).unwrap();
    let y = pasta_curves::Fp::from_repr(b.repr).unwrap();
    Fp { repr: x.mul(&y).to_repr() }
}

/// `pasta_curves::Fp::neg`: the additive inverse modulo the modulus.
#[verifier::external_body]
fn fp_neg(a: &Fp) -> (r: Fp)
    ensures
        r.value() == sub_mod(0, a.value(), fp_modulus()),
{
    let x = pasta_curves::Fp::from_repr(a.repr).unwrap();
    Fp { repr: x.neg().to_repr() }
}

/// `ff::Field::invert` of `pasta_curves::Fp`: `None` for zero, else the
/// multiplicative inverse.
#[verifier::external_body]
fn fp_invert(a: &Fp) -> (r: Option<Fp>)
    ensures
        r is None <==> a.value() == 0,
        r matches Some(w) ==> (a.value() * w.value()) % fp_modulus() == 1,
{
    let x = pasta_curves::Fp::from_repr(a.repr).unwrap();
    Option::from(ff::Field::invert(&x)).map(|w: pasta_curves::Fp| Fp { repr: w.to_repr() })
}

impl FieldExt for Fp {
    open spec fn modulus() -> nat {
        fp_modulus()
    }

    open spec fn value(&self) -> nat {
        bytes_to_nat(self.repr_view()) % fp_modulus()
    }

    proof fn lemma_value_bound(x: Self) {
    }

    fn zero() -> (r: Self) {
        fp_zero()
    }

    fn one() -> (r: Self) {
        fp_one()
    }

    fn from_u128(v: u128) -> (r: Self) {
        fp_from_u128(v)
    }

    fn add(&self, rhs: &Self) -> (r: Self) {
        fp_add(self, rhs)
    }

    fn sub(&self, rhs: &Self) -> (r: Self) {
        fp_sub(self, rhs)
    }

    fn mul(&self, rhs: &Self) -> (r: Self) {
        fp_mul(self, rhs)
    }

    fn neg(&self) -> (r: Self) {
        fp_neg(self)
    }

    fn invert(&self) -> (r: Option<Self>) {
        fp_invert(self)
    }

    fn equals(&self, other: &Self) -> (r: bool) {
        proof {
            use_type_invariant(self);
            use_type_invariant(other);
        }
        let a = self.to_repr();
        let b = other.to_repr();
        let mut i: usize = 0;
        while i < 32
            invariant
                0 <= i <= 32,
                a@ == self.repr_view(),
                b@ == other.repr_view(),
                bytes_to_nat(a@) < fp_modulus(),
                bytes_to_nat(b@) < fp_modulus(),
                forall|j: int| 0 <= j < i ==> a@[j] == b@[j],
            decreases 32 - i,
        {
            if a[i] != b[i] {
                proof {
                    if bytes_to_nat(a@) == bytes_to_nat(b@) {
                        lemma_bytes_to_nat_injective(a@, b@);
                    }
                    vstd::arithmetic::div_mod::lemma_small_mod(bytes_to_nat(a@), fp_modulus());
                    vstd::arithmetic::div_mod::lemma_small_mod(bytes_to_nat(b@), fp_modulus());
                }
                return false;
            }
            i = i + 1;
        }
        proof {
            assert(a@ =~= b@);
        }
        true
    }
}

} // verus!
