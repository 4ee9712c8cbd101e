//! Natural numbers of a fixed width, 512 or 2048 bits, held as bytes, and
//! the arithmetic on residues that the group needs.
use crate::bits::{
    bits_nat, lemma_bits_nat_bound, lemma_bits_nat_injective, lemma_bits_nat_leading_zeros,
    lemma_bits_of_nat, lemma_nat_of_bits, nat_bits, zeros,
};
use crate::common::{
    bool_vec_to_byte_vec, byte_vec_to_bool_vec, bytes_bits, filled, first_bits,
    lemma_pack_unpack, lemma_unpack_pack, word_bits,
};
use crypto_bigint::modular::runtime_mod::{DynResidue, DynResidueParams};
use crypto_bigint::rand_core::OsRng;
use crypto_bigint::{NonZero, RandomMod, Uint};
use vstd::arithmetic::div_mod::*;
use vstd::arithmetic::power::*;
use vstd::arithmetic::power2::*;
use vstd::prelude::*;

verus! {

/// Number of bits of the prime of a group made from scratch.
pub const SECURITY: usize = 2048;

/// Number of bytes of a number of 2048 bits.
pub const WIDTH: usize = 256;

/// Number of bytes of a number of 512 bits.
pub const SHORT_WIDTH: usize = 64;

/// A count of bytes that a number can have: 64 or 256.
pub open spec fn valid_width(w: nat) -> bool {
    w == SHORT_WIDTH || w == WIDTH
}

/// A natural number held as 64 or 256 bytes, most significant first.
#[derive(Clone, Debug)]
pub struct Natural {
    pub bytes: Vec<u8>,
}

impl View for Natural {
    type V = nat;

    /// The number that the bytes spell.
    open spec fn view(&self) -> nat {
        bits_nat(bytes_bits(self.bytes@))
    }
}

/// Two numbers have the same count of bytes.
pub open spec fn alike(a: Natural, b: Natural) -> bool {
    a.bytes.len() == b.bytes.len()
}

impl Natural {
    /// The number has 64 or 256 bytes.
    pub open spec fn wf(&self) -> bool {
        valid_width(self.bytes.len() as nat)
    }

    /// The number `x`, in `width` bytes.
    pub fn from_u64(x: u64, width: usize) -> (r: Natural)
        requires
            valid_width(width as nat),
        ensures
            r.bytes.len() == width,
            r@ == x as nat,
    {
        let bits = word_bits(x, 8 * width);
        let bytes = bool_vec_to_byte_vec(&bits);
        proof {
            lemma_unpack_pack(bits@);
            lemma_bits_of_nat(x as nat, (8 * width) as nat);
            lemma2_to64();
            lemma_pow2_strictly_increases(64, (8 * width) as nat);
            lemma_small_mod(x as nat, pow2((8 * width) as nat));
        }
        Natural { bytes }
    }

    /// The number that the bytes spell, most significant first; `None`
    /// where they are neither 64 nor 256.
    pub fn from_be_bytes(bytes: Vec<u8>) -> (r: Option<Natural>)
        ensures
            r.is_some() == valid_width(bytes.len() as nat),
            r.is_some() ==> r.unwrap().bytes == bytes,
    {
        if bytes.len() == SHORT_WIDTH || bytes.len() == WIDTH {
            Some(Natural { bytes })
        } else {
            None
        }
    }

    /// A second copy of the number.
    pub fn copy(&self) -> (r: Natural)
        ensures
            r.bytes@ == self.bytes@,
    {
        let bytes = self.bytes.clone();
        assert(bytes@ =~= self.bytes@);
        Natural { bytes }
    }

    /// Whether two numbers of one width are equal.
    pub fn same(&self, other: &Natural) -> (r: bool)
        requires
            alike(*self, *other),
        ensures
            r == (self@ == other@),
    {
        let mut i: usize = 0;
        while i < self.bytes.len()
            invariant
                i <= self.bytes.len(),
                alike(*self, *other),
                forall|j: int| 0 <= j < i ==> self.bytes[j] == other.bytes[j],
            decreases self.bytes.len() - i,
        {
            if self.bytes[i] != other.bytes[i] {
                proof {
                    if self@ == other@ {
                        lemma_bits_nat_injective(bytes_bits(self.bytes@), bytes_bits(other.bytes@));
                        lemma_pack_unpack(self.bytes@);
                        lemma_pack_unpack(other.bytes@);
                    }
                }
                return false;
            }
            i += 1;
        }
        assert(self.bytes@ =~= other.bytes@);
        true
    }

    /// Whether the number is odd.
    pub fn is_odd(&self) -> (r: bool)
        requires
            self.wf(),
        ensures
            r == (self@ % 2 == 1),
    {
        let last = self.bytes.len() - 1;
        proof {
            lemma2_to64();
            let b = bytes_bits(self.bytes@);
            assert(b.last() == (self.bytes[last as int] as nat / 1 % 2 == 1));
        }
        self.bytes[last] % 2 == 1
    }
}

/// A number spells itself in the bits of its bytes, and is below two to the
/// power of their count.
pub proof fn lemma_natural_bound(n: Natural)
    ensures
        n@ < pow2((8 * n.bytes.len()) as nat),
        bytes_bits(n.bytes@) == nat_bits(n@, (8 * n.bytes.len()) as nat),
{
    lemma_bits_nat_bound(bytes_bits(n.bytes@));
    lemma_nat_of_bits(bytes_bits(n.bytes@));
}

/// `b` to the power `e`, modulo `p`.
pub open spec fn pow_mod(b: nat, e: nat, p: nat) -> nat {
    (pow(b as int, e) % (p as int)) as nat
}

/// The product of `a` and `b`, modulo `p`.
pub open spec fn mul_mod(a: nat, b: nat, p: nat) -> nat {
    (a * b) % p
}

/// The sum of `a` and `b`, modulo `p`.
pub open spec fn add_mod(a: nat, b: nat, p: nat) -> nat {
    (a + b) % p
}

/// The difference of `a` and `b`, modulo `p`.
pub open spec fn sub_mod(a: nat, b: nat, p: nat) -> nat {
    ((a as int - b as int) % (p as int)) as nat
}

/// The negative of `a`, modulo `p`.
pub open spec fn neg_mod(a: nat, p: nat) -> nat {
    sub_mod(0, a, p)
}

/// `x` is the inverse of `a` modulo `p`.
pub open spec fn is_inverse(x: nat, a: nat, p: nat) -> bool {
    x < p && #[trigger] mul_mod(x, a, p) == 1
}

/// `a` has an inverse modulo `p`.
pub open spec fn has_inverse(a: nat, p: nat) -> bool {
    exists|x: nat| is_inverse(x, a, p)
}

/// The inverse of `a` modulo `p`, where it has one.
pub open spec fn inverse_mod(a: nat, p: nat) -> nat {
    choose|x: nat| is_inverse(x, a, p)
}

/// A modulus that the residue arithmetic takes: an odd number from three up.
pub open spec fn is_modulus(p: Natural) -> bool {
    p.wf() && p@ % 2 == 1 && p@ >= 3
}

/// Calls `DynResidue::pow` of the crate crypto_bigint on the residue of
/// `base` modulo `modulus`, with numbers of `LIMBS` words of 64 bits, and
/// retrieves the result. The contract claims that this is `base` to the
/// power `exponent`, reduced modulo `modulus`.
#[verifier::external_body]
fn residue_pow<const LIMBS: usize>(base: &Natural, exponent: &Natural, modulus: &Natural) -> (r:
    Natural)
    requires
        is_modulus(*modulus),
        modulus.bytes.len() == 8 * LIMBS,
        alike(*base, *modulus),
        alike(*exponent, *modulus),
    ensures
        alike(r, *modulus),
        r@ == pow_mod(base@, exponent@, modulus@),
{
    let p = Uint::<LIMBS>::from_be_slice(&modulus.bytes);
    let params = DynResidueParams::new(&p);
    let b = Uint::<LIMBS>::from_be_slice(&base.bytes);
    let e = Uint::<LIMBS>::from_be_slice(&exponent.bytes);
    let r = DynResidue::new(&b, params).pow(&e).retrieve();
    let mut bytes: Vec<u8> = Vec::new();
    for w in r.to_words().iter().rev() {
        bytes.extend_from_slice(&w.to_be_bytes());
    }
    Natural { bytes }
}

/// Calls `DynResidue::mul` of the crate crypto_bigint on the residues of `a`
/// and `b` modulo `modulus`, and retrieves the result. The contract claims
/// that this is the product reduced modulo `modulus`.
#[verifier::external_body]
fn residue_mul<const LIMBS: usize>(a: &Natural, b: &Natural, modulus: &Natural) -> (r: Natural)
    requires
        is_modulus(*modulus),
        modulus.bytes.len() == 8 * LIMBS,
        alike(*a, *modulus),
        alike(*b, *modulus),
    ensures
        alike(r, *modulus),
        r@ == mul_mod(a@, b@, modulus@),
{
    let p = Uint::<LIMBS>::from_be_slice(&modulus.bytes);
    let params = DynResidueParams::new(&p);
    let x = Uint::<LIMBS>::from_be_slice(&a.bytes);
    let y = Uint::<LIMBS>::from_be_slice(&b.bytes);
    let x = DynResidue::new(&x, params);
    let y = DynResidue::new(&y, params);
    let mut bytes: Vec<u8> = Vec::new();
    for w in x.mul(&y).retrieve().to_words().iter().rev() {
        bytes.extend_from_slice(&w.to_be_bytes());
    }
    Natural { bytes }
}

/// Calls `DynResidue::square` of the crate crypto_bigint on the residue of
/// `a` modulo `modulus`, and retrieves the result. The contract claims that
/// this is `a` times `a`, reduced modulo `modulus`.
#[verifier::external_body]
fn residue_square<const LIMBS: usize>(a: &Natural, modulus: &Natural) -> (r: Natural)
    requires
        is_modulus(*modulus),
        modulus.bytes.len() == 8 * LIMBS,
        alike(*a, *modulus),
    ensures
        alike(r, *modulus),
        r@ == mul_mod(a@, a@, modulus@),
{
    let p = Uint::<LIMBS>::from_be_slice(&modulus.bytes);
    let params = DynResidueParams::new(&p);
    let x = Uint::<LIMBS>::from_be_slice(&a.bytes);
    let x = DynResidue::new(&x, params);
    let mut bytes: Vec<u8> = Vec::new();
    for w in x.square().retrieve().to_words().iter().rev() {
        bytes.extend_from_slice(&w.to_be_bytes());
    }
    Natural { bytes }
}

/// Calls `DynResidue::add` of the crate crypto_bigint on the residues of `a`
/// and `b` modulo `modulus`, and retrieves the result. The contract claims
/// that this is the sum reduced modulo `modulus`.
#[verifier::external_body]
fn residue_add<const LIMBS: usize>(a: &Natural, b: &Natural, modulus: &Natural) -> (r: Natural)
    requires
        is_modulus(*modulus),
        modulus.bytes.len() == 8 * LIMBS,
        alike(*a, *modulus),
        alike(*b, *modulus),
    ensures
        alike(r, *modulus),
        r@ == add_mod(a@, b@, modulus@),
{
    let p = Uint::<LIMBS>::from_be_slice(&modulus.bytes);
    let params = DynResidueParams::new(&p);
    let x = Uint::<LIMBS>::from_be_slice(&a.bytes);
    let y = Uint::<LIMBS>::from_be_slice(&b.bytes);
    let x = DynResidue::new(&x, params);
    let y = DynResidue::new(&y, params);
    let mut bytes: Vec<u8> = Vec::new();
    for w in x.add(&y).retrieve().to_words().iter().rev() {
        bytes.extend_from_slice(&w.to_be_bytes());
    }
    Natural { bytes }
}

/// Calls `DynResidue::sub` of the crate crypto_bigint on the residues of `a`
/// and `b` modulo `modulus`, and retrieves the result. The contract claims
/// that this is the difference reduced modulo `modulus`.
#[verifier::external_body]
fn residue_sub<const LIMBS: usize>(a: &Natural, b: &Natural, modulus: &Natural) -> (r: Natural)
    requires
        is_modulus(*modulus),
        modulus.bytes.len() == 8 * LIMBS,
        alike(*a, *modulus),
        alike(*b, *modulus),
    ensures
        alike(r, *modulus),
        r@ == sub_mod(a@, b@, modulus@),
{
    let p = Uint::<LIMBS>::from_be_slice(&modulus.bytes);
    let params = DynResidueParams::new(&p);
    let x = Uint::<LIMBS>::from_be_slice(&a.bytes);
    let y = Uint::<LIMBS>::from_be_slice(&b.bytes);
    let x = DynResidue::new(&x, params);
    let y = DynResidue::new(&y, params);
    let mut bytes: Vec<u8> = Vec::new();
    for w in x.sub(&y).retrieve().to_words().iter().rev() {
        bytes.extend_from_slice(&w.to_be_bytes());
    }
    Natural { bytes }
}

/// Calls `DynResidue::neg` of the crate crypto_bigint on the residue of `a`
/// modulo `modulus`, and retrieves the result. The contract claims that this
/// is the negative of `a` reduced modulo `modulus`.
#[verifier::external_body]
fn residue_neg<const LIMBS: usize>(a: &Natural, modulus: &Natural) -> (r: Natural)
    requires
        is_modulus(*modulus),
        modulus.bytes.len() == 8 * LIMBS,
        alike(*a, *modulus),
    ensures
        alike(r, *modulus),
        r@ == neg_mod(a@, modulus@),
{
    let p = Uint::<LIMBS>::from_be_slice(&modulus.bytes);
    let params = DynResidueParams::new(&p);
    let x = Uint::<LIMBS>::from_be_slice(&a.bytes);
    let x = DynResidue::new(&x, params);
    let mut bytes: Vec<u8> = Vec::new();
    for w in x.neg().retrieve().to_words().iter().rev() {
        bytes.extend_from_slice(&w.to_be_bytes());
    }
    Natural { bytes }
}

/// Calls `DynResidue::invert` of the crate crypto_bigint on the residue of
/// `a` modulo `modulus`, and retrieves the result. The contract claims that
/// the flag says whether `a` has an inverse modulo `modulus`, and that with
/// the flag set the number is that inverse.
#[verifier::external_body]
fn residue_invert<const LIMBS: usize>(a: &Natural, modulus: &Natural) -> (r: (Natural, bool))
    requires
        is_modulus(*modulus),
        modulus.bytes.len() == 8 * LIMBS,
        alike(*a, *modulus),
    ensures
        alike(r.0, *modulus),
        r.1 == has_inverse(a@, modulus@),
        r.1 ==> is_inverse(r.0@, a@, modulus@),
{
    let p = Uint::<LIMBS>::from_be_slice(&modulus.bytes);
    let params = DynResidueParams::new(&p);
    let x = Uint::<LIMBS>::from_be_slice(&a.bytes);
    let (inverse, found) = DynResidue::new(&x, params).invert();
    let mut bytes: Vec<u8> = Vec::new();
    for w in inverse.retrieve().to_words().iter().rev() {
        bytes.extend_from_slice(&w.to_be_bytes());
    }
    (Natural { bytes }, found.into())
}

/// Compares two numbers with `<=` of the crate crypto_bigint. The contract
/// claims that the result is the order of the numbers.
#[verifier::external_body]
fn natural_le<const LIMBS: usize>(a: &Natural, b: &Natural) -> (r: bool)
    requires
        a.bytes.len() == 8 * LIMBS,
        b.bytes.len() == 8 * LIMBS,
    ensures
        r == (a@ <= b@),
{
    Uint::<LIMBS>::from_be_slice(&a.bytes) <= Uint::<LIMBS>::from_be_slice(&b.bytes)
}

/// Calls `RandomMod::random_mod` of the crate crypto_bigint with the
/// generator of the operating system. The contract claims that the number
/// is below `modulus`.
#[verifier::external_body]
fn random_mod<const LIMBS: usize>(modulus: &Natural) -> (r: Natural)
    requires
        modulus.bytes.len() == 8 * LIMBS,
        modulus@ != 0,
    ensures
        alike(r, *modulus),
        r@ < modulus@,
{
    let bound = NonZero::new(Uint::<LIMBS>::from_be_slice(&modulus.bytes)).unwrap();
    let r = <Uint<LIMBS> as RandomMod>::random_mod(&mut OsRng, &bound);
    let mut bytes: Vec<u8> = Vec::new();
    for w in r.to_words().iter().rev() {
        bytes.extend_from_slice(&w.to_be_bytes());
    }
    Natural { bytes }
}

/// Calls `generate_safe_prime` of the crate crypto_primes for a prime of
/// `bit_length` bits, in a number of `LIMBS` words of 64 bits. Of the
/// number the contract claims only the count of its bytes.
#[verifier::external_body]
fn random_safe_prime<const LIMBS: usize>(bit_length: usize) -> (r: Natural)
    requires
        3 <= bit_length <= 64 * LIMBS,
    ensures
        r.bytes.len() == 8 * LIMBS,
{
    let p: Uint<LIMBS> = crypto_primes::generate_safe_prime(Some(bit_length));
    let mut bytes: Vec<u8> = Vec::new();
    for w in p.to_words().iter().rev() {
        bytes.extend_from_slice(&w.to_be_bytes());
    }
    Natural { bytes }
}

/// A fresh random number of `bit_length` bits that passes for a safe prime:
/// in 64 bytes for up to 512 bits, in 256 bytes above.
pub fn fresh_safe_prime(bit_length: usize) -> (r: Natural)
    requires
        3 <= bit_length <= SECURITY,
    ensures
        r.bytes.len() == (if bit_length <= 8 * SHORT_WIDTH {
            SHORT_WIDTH
        } else {
            WIDTH
        }),
{
    if bit_length <= 8 * SHORT_WIDTH {
        random_safe_prime::<8>(bit_length)
    } else {
        random_safe_prime::<32>(bit_length)
    }
}

/// `base` to the power `exponent`, modulo `modulus`.
pub fn mod_pow(base: &Natural, exponent: &Natural, modulus: &Natural) -> (r: Natural)
    requires
        is_modulus(*modulus),
        alike(*base, *modulus),
        alike(*exponent, *modulus),
    ensures
        alike(r, *modulus),
        r@ == pow_mod(base@, exponent@, modulus@),
{
    if modulus.bytes.len() == SHORT_WIDTH {
        residue_pow::<8>(base, exponent, modulus)
    } else {
        residue_pow::<32>(base, exponent, modulus)
    }
}

/// The product of `a` and `b`, modulo `modulus`.
pub fn mod_mul(a: &Natural, b: &Natural, modulus: &Natural) -> (r: Natural)
    requires
        is_modulus(*modulus),
        alike(*a, *modulus),
        alike(*b, *modulus),
    ensures
        alike(r, *modulus),
        r@ == mul_mod(a@, b@, modulus@),
{
    if modulus.bytes.len() == SHORT_WIDTH {
        residue_mul::<8>(a, b, modulus)
    } else {
        residue_mul::<32>(a, b, modulus)
    }
}

/// The square of `a`, modulo `modulus`.
pub fn mod_square(a: &Natural, modulus: &Natural) -> (r: Natural)
    requires
        is_modulus(*modulus),
        alike(*a, *modulus),
    ensures
        alike(r, *modulus),
        r@ == mul_mod(a@, a@, modulus@),
{
    if modulus.bytes.len() == SHORT_WIDTH {
        residue_square::<8>(a, modulus)
    } else {
        residue_square::<32>(a, modulus)
    }
}

/// The sum of `a` and `b`, modulo `modulus`.
pub fn mod_add(a: &Natural, b: &Natural, modulus: &Natural) -> (r: Natural)
    requires
        is_modulus(*modulus),
        alike(*a, *modulus),
        alike(*b, *modulus),
    ensures
        alike(r, *modulus),
        r@ == add_mod(a@, b@, modulus@),
{
    if modulus.bytes.len() == SHORT_WIDTH {
        residue_add::<8>(a, b, modulus)
    } else {
        residue_add::<32>(a, b, modulus)
    }
}

/// The difference of `a` and `b`, modulo `modulus`.
pub fn mod_sub(a: &Natural, b: &Natural, modulus: &Natural) -> (r: Natural)
    requires
        is_modulus(*modulus),
        alike(*a, *modulus),
        alike(*b, *modulus),
    ensures
        alike(r, *modulus),
        r@ == sub_mod(a@, b@, modulus@),
{
    if modulus.bytes.len() == SHORT_WIDTH {
        residue_sub::<8>(a, b, modulus)
    } else {
        residue_sub::<32>(a, b, modulus)
    }
}

/// The negative of `a`, modulo `modulus`.
pub fn mod_neg(a: &Natural, modulus: &Natural) -> (r: Natural)
    requires
        is_modulus(*modulus),
        alike(*a, *modulus),
    ensures
        alike(r, *modulus),
        r@ == neg_mod(a@, modulus@),
{
    if modulus.bytes.len() == SHORT_WIDTH {
        residue_neg::<8>(a, modulus)
    } else {
        residue_neg::<32>(a, modulus)
    }
}

/// The inverse of `a` modulo `modulus`, and whether there is one.
pub fn mod_invert(a: &Natural, modulus: &Natural) -> (r: (Natural, bool))
    requires
        is_modulus(*modulus),
        alike(*a, *modulus),
    ensures
        alike(r.0, *modulus),
        r.1 == has_inverse(a@, modulus@),
        r.1 ==> is_inverse(r.0@, a@, modulus@),
{
    if modulus.bytes.len() == SHORT_WIDTH {
        residue_invert::<8>(a, modulus)
    } else {
        residue_invert::<32>(a, modulus)
    }
}

/// Whether `a` is at most `b`.
pub fn less_or_equal(a: &Natural, b: &Natural) -> (r: bool)
    requires
        a.wf(),
        alike(*a, *b),
    ensures
        r == (a@ <= b@),
{
    if a.bytes.len() == SHORT_WIDTH {
        natural_le::<8>(a, b)
    } else {
        natural_le::<32>(a, b)
    }
}

/// A random number below `modulus`.
pub fn random_below(modulus: &Natural) -> (r: Natural)
    requires
        modulus.wf(),
        modulus@ != 0,
    ensures
        alike(r, *modulus),
        r@ < modulus@,
{
    if modulus.bytes.len() == SHORT_WIDTH {
        random_mod::<8>(modulus)
    } else {
        random_mod::<32>(modulus)
    }
}

/// The negative of a residue other than zero is the modulus less the residue.
pub proof fn lemma_neg_mod(a: nat, p: nat)
    requires
        0 < a < p,
    ensures
        neg_mod(a, p) == p - a,
{
    lemma_mod_add_multiples_vanish(0 - a as int, p as int);
    lemma_small_mod((p - a) as nat, p);
}

/// The last `n` bits of `v`; all of `v` where it has no more than `n`.
pub open spec fn last_bits(v: Seq<bool>, n: nat) -> Seq<bool> {
    if v.len() > n {
        v.subrange(v.len() - n, v.len() as int)
    } else {
        v
    }
}

/// The number, in `width` bytes, that the last bits of `v` spell, most
/// significant first: as many bits as the bytes hold.
pub fn bits_to_natural(v: &Vec<bool>, width: usize) -> (r: Natural)
    requires
        valid_width(width as nat),
    ensures
        r.bytes.len() == width,
        r@ == bits_nat(last_bits(v@, (8 * width) as nat)),
        v.len() <= 8 * width ==> r@ == bits_nat(v@),
{
    let len = v.len();
    let size = 8 * width;
    let mut bits: Vec<bool>;
    if len >= size {
        bits = Vec::new();
        let mut i: usize = len - size;
        while i < len
            invariant
                len >= size,
                len - size <= i <= len,
                len == v.len(),
                bits@ =~= v@.subrange(len - size, i as int),
            decreases len - i,
        {
            bits.push(v[i]);
            i += 1;
        }
        assert(bits@ =~= last_bits(v@, size as nat));
    } else {
        bits = filled(size - len, false);
        let mut rest = v.clone();
        bits.append(&mut rest);
        proof {
            assert(bits@ =~= zeros((size - len) as nat) + v@);
            lemma_bits_nat_leading_zeros((size - len) as nat, v@);
        }
    }
    let bytes = bool_vec_to_byte_vec(&bits);
    proof {
        lemma_unpack_pack(bits@);
    }
    Natural { bytes }
}

/// The number of 2048 bits that the last 2048 bits of `v` spell, most
/// significant first.
pub fn bool_vec_to_usize(v: &Vec<bool>) -> (r: Natural)
    ensures
        r.bytes.len() == WIDTH,
        r@ == bits_nat(last_bits(v@, SECURITY as nat)),
        v.len() <= SECURITY ==> r@ == bits_nat(v@),
{
    bits_to_natural(v, WIDTH)
}

/// The `output_bits` low bits of `n`, most significant first; all bits of
/// `n` where more are asked for.
pub fn usize_to_bool_vec_len(n: &Natural, output_bits: usize) -> (r: Vec<bool>)
    requires
        n.wf(),
    ensures
        output_bits <= 8 * n.bytes.len() ==> r@ == nat_bits(n@, output_bits as nat),
        output_bits > 8 * n.bytes.len() ==> r@ == nat_bits(n@, (8 * n.bytes.len()) as nat),
{
    let bits = byte_vec_to_bool_vec(&n.bytes);
    let size = 8 * n.bytes.len();
    let count = if output_bits <= size {
        output_bits
    } else {
        size
    };
    let mut out: Vec<bool> = Vec::new();
    let mut i: usize = size - count;
    proof {
        lemma_natural_bound(*n);
    }
    while i < size
        invariant
            size - count <= i <= size,
            count <= size,
            size == 8 * n.bytes.len(),
            bits@ == nat_bits(n@, size as nat),
            out@ =~= bits@.subrange(size - count, i as int),
        decreases size - i,
    {
        out.push(bits[i]);
        i += 1;
    }
    assert(out@ =~= nat_bits(n@, count as nat));
    out
}

/// A vector of no more bits than a number of `width` bytes holds, written
/// as such a number and read back in its own length, is the vector again.
pub proof fn lemma_natural_round_trip(v: Seq<bool>, width: nat)
    requires
        valid_width(width),
        v.len() <= 8 * width,
    ensures
        nat_bits(bits_nat(last_bits(v, 8 * width)), v.len()) == v,
{
    lemma_nat_of_bits(v);
}

/// Half of `p`, rounded down.
pub fn half(p: &Natural) -> (r: Natural)
    requires
        p.wf(),
    ensures
        alike(r, *p),
        r@ == p@ / 2,
{
    let bits = byte_vec_to_bool_vec(&p.bytes);
    let mut shifted = filled(1, false);
    let mut rest = first_bits(bits, 8 * p.bytes.len() - 1);
    shifted.append(&mut rest);
    proof {
        let b = bytes_bits(p.bytes@);
        assert(shifted@ =~= zeros(1) + b.drop_last());
        lemma_bits_nat_leading_zeros(1, b.drop_last());
        lemma_unpack_pack(shifted@);
    }
    let bytes = bool_vec_to_byte_vec(&shifted);
    Natural { bytes }
}

/// `n` one bits spell `2^n - 1`.
pub proof fn lemma_bits_nat_ones(n: nat)
    ensures
        bits_nat(Seq::new(n, |j: int| true)) + 1 == pow2(n),
    decreases n,
{
    lemma2_to64();
    if n > 0 {
        assert(Seq::new(n, |j: int| true).drop_last() =~= Seq::new((n - 1) as nat, |j: int| true));
        lemma_bits_nat_ones((n - 1) as nat);
        lemma_pow2_unfold(n);
    }
}

} // verus!
