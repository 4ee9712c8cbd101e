//! One-out-of-two oblivious transfer in the group of squares modulo a safe
//! prime: the encoding of messages as squares, the group, and the three
//! moves of the transfer.
use crate::bits::{bits_nat, lemma_bits_nat_bound, lemma_nat_of_bits, nat_bits};
use crate::common::{bytes_bits, filled, lengths_agree, picked, uniform};
use crate::natural::{
    add_mod, alike, bits_to_natural, half, has_inverse, inverse_mod, is_inverse, is_modulus,
    last_bits, lemma_bits_nat_ones, lemma_natural_bound, lemma_neg_mod, less_or_equal, mod_add,
    fresh_safe_prime, mod_invert, mod_mul, mod_neg, mod_pow, mod_square, mod_sub, mul_mod,
    neg_mod, pow_mod, random_below, sub_mod, valid_width, SECURITY, SHORT_WIDTH, WIDTH,
};
pub use crate::natural::{bool_vec_to_usize, usize_to_bool_vec_len, Natural};
use vstd::arithmetic::div_mod::*;
use vstd::arithmetic::power::*;
use vstd::arithmetic::power2::*;
use vstd::prelude::*;

verus! {

/// Why a transfer was given up.
#[derive(Clone, Copy, Debug, PartialEq, Eq, Structural)]
pub enum OtError {
    /// Vectors that must agree in length do not.
    LengthMismatch,
    /// A message is no number from zero up to the prime less two.
    EncodingOutOfRange,
    /// The stored prime has the wrong length, or is below seven, or does not
    /// leave three when divided by four.
    PersistenceError,
    /// The generator, or a part of a ciphertext, is no element of the group.
    GroupInvariantViolation,
}

/// The square of the group that stands for the message `m`: `m + 1` where
/// that is a square, its negative where it is not.
pub open spec fn encode(m: nat, p: nat, q: nat) -> nat {
    let e = add_mod(m, 1, p);
    if pow_mod(e, q, p) == 1 {
        e
    } else {
        neg_mod(e, p)
    }
}

/// The message that the residue `v` stands for: `v - 1` for `v` up to `q`,
/// and `-v - 1` above.
pub open spec fn decode(v: nat, p: nat, q: nat) -> nat {
    if v <= q {
        sub_mod(v, 1, p)
    } else {
        sub_mod(neg_mod(v, p), 1, p)
    }
}

/// Decoding the encoding of a message gives the message back, for every
/// message below `q`, where `p` is `2q + 1`.
pub proof fn lemma_decode_encode(m: nat, p: nat, q: nat)
    requires
        p == 2 * q + 1,
        q >= 1,
        m < q,
    ensures
        decode(encode(m, p, q), p, q) == m,
        encode(m, p, q) < p,
{
    let e = m + 1;
    lemma_small_mod(e, p);
    assert(add_mod(m, 1, p) == e);
    lemma_neg_mod(e, p);
    lemma_small_mod(m, p);
    if pow_mod(e, q, p) == 1 {
    } else {
        let v = (p - e) as nat;
        lemma_neg_mod(v, p);
    }
}

/// One, and the negative of one, modulo `p`.
pub fn get_one_and_minus_one_mod(p: &Natural) -> (r: (Natural, Natural))
    requires
        is_modulus(*p),
    ensures
        alike(r.0, *p),
        alike(r.1, *p),
        r.0@ == 1,
        r.1@ == p@ - 1,
{
    let one = Natural::from_u64(1, p.bytes.len());
    let zero = Natural::from_u64(0, p.bytes.len());
    let minus_one = mod_sub(&zero, &one, p);
    proof {
        lemma_neg_mod(1, p@);
    }
    (one, minus_one)
}

/// The element of the group that stands for the message `m`. A message from
/// the prime less one up is refused.
pub fn to_encoding(m: &Natural, p: &Natural, q: &Natural) -> (r: Result<Natural, OtError>)
    requires
        is_modulus(*p),
        alike(*m, *p),
        alike(*q, *p),
    ensures
        r.is_err() == (m@ + 1 >= p@),
        r.is_err() ==> r == Err::<Natural, OtError>(OtError::EncodingOutOfRange),
        r.is_ok() ==> alike(r.unwrap(), *p) && r.unwrap()@ == encode(m@, p@, q@) && r.unwrap()@
            < p@,
{
    let (one, minus_one) = get_one_and_minus_one_mod(p);
    if less_or_equal(&minus_one, m) {
        return Err(OtError::EncodingOutOfRange);
    }
    let shifted = mod_add(m, &one, p);
    let power = mod_pow(&shifted, q, p);
    proof {
        lemma_small_mod(m@ + 1, p@);
    }
    if power.same(&one) {
        Ok(shifted)
    } else {
        proof {
            lemma_neg_mod(shifted@, p@);
        }
        Ok(mod_neg(&shifted, p))
    }
}

/// The message that the residue `m` stands for.
pub fn from_encoding(m: &Natural, p: &Natural, q: &Natural) -> (r: Natural)
    requires
        is_modulus(*p),
        alike(*m, *p),
        alike(*q, *p),
    ensures
        alike(r, *p),
        r@ == decode(m@, p@, q@),
{
    let (one, _minus_one) = get_one_and_minus_one_mod(p);
    if less_or_equal(m, q) {
        mod_sub(m, &one, p)
    } else {
        let negated = mod_neg(m, p);
        mod_sub(&negated, &one, p)
    }
}

/// A safe prime `p`, the order `q` of the group of squares modulo `p`, and a
/// generator `g` of that group.
#[derive(Clone, Debug)]
pub struct SafePrimeGroup {
    pub g: Natural,
    pub p: Natural,
    pub q: Natural,
}

impl SafePrimeGroup {
    /// What holds of every group: `p` is odd and `2q + 1`, and `g` is none
    /// of one and `p - 1`, and `g` to the power `q` is one modulo `p`.
    pub open spec fn wf(&self) -> bool {
        &&& is_modulus(self.p)
        &&& alike(self.q, self.p)
        &&& alike(self.g, self.p)
        &&& self.p@ == 2 * self.q@ + 1
        &&& self.q@ >= 2
        &&& 1 < self.g@ < self.p@ - 1
        &&& pow_mod(self.g@, self.q@, self.p@) == 1
    }
}

/// The bytes can stand for the prime of a group: there are 64 or 256 of
/// them, and their number is at least seven and leaves three when divided
/// by four, as every safe prime from seven up does.
pub open spec fn is_prime_candidate(bytes: Seq<u8>) -> bool {
    valid_width(bytes.len()) && bits_nat(bytes_bits(bytes)) % 4 == 3 && bits_nat(bytes_bits(bytes))
        >= 7
}

/// `g` generates the group of squares modulo `p`, as far as is tested: it
/// is none of zero, one and `p - 1`, and `g` to the power `q` is one.
pub open spec fn is_generator(g: nat, p: nat, q: nat) -> bool {
    1 < g < p - 1 && pow_mod(g, q, p) == 1
}

/// The number that `p_as_bytes` spell, where they can stand for the prime of
/// a group.
pub fn prime_candidate(p_as_bytes: &Vec<u8>) -> (r: Option<Natural>)
    ensures
        r.is_some() == is_prime_candidate(p_as_bytes@),
        r.is_some() ==> r.unwrap().bytes@ == p_as_bytes@ && is_modulus(r.unwrap()),
{
    if p_as_bytes.len() != SHORT_WIDTH && p_as_bytes.len() != WIDTH {
        return None;
    }
    let p = Natural { bytes: p_as_bytes.clone() };
    assert(p.bytes@ == p_as_bytes@);
    if !p.is_odd() || !half(&p).is_odd() || !less_or_equal(
        &Natural::from_u64(7, p.bytes.len()),
        &p,
    ) {
        return None;
    }
    Some(p)
}

/// `g` has as many bytes as the prime, and generates the group of squares
/// modulo the prime that `p_as_bytes` spells.
pub open spec fn is_generator_for(g: Natural, p_as_bytes: Seq<u8>) -> bool {
    g.bytes.len() == p_as_bytes.len() && is_generator(
        g@,
        bits_nat(bytes_bits(p_as_bytes)),
        bits_nat(bytes_bits(p_as_bytes)) / 2,
    )
}

/// The group of the prime that `p_as_bytes` spells, with `g` as its
/// generator.
pub fn group_from_generator(p_as_bytes: &Vec<u8>, g: &Natural) -> (r: Result<
    SafePrimeGroup,
    OtError,
>)
    ensures
        !is_prime_candidate(p_as_bytes@) ==> r == Err::<SafePrimeGroup, OtError>(
            OtError::PersistenceError,
        ),
        is_prime_candidate(p_as_bytes@) && !is_generator_for(*g, p_as_bytes@) ==> r == Err::<
            SafePrimeGroup,
            OtError,
        >(OtError::GroupInvariantViolation),
        is_prime_candidate(p_as_bytes@) && is_generator_for(*g, p_as_bytes@) ==> r.is_ok() && r.unwrap().wf() && r.unwrap().p.bytes@ == p_as_bytes@ && r.unwrap().g.bytes@
            == g.bytes@,
{
    let p = match prime_candidate(p_as_bytes) {
        Some(p) => p,
        None => {
            return Err(OtError::PersistenceError);
        },
    };
    if g.bytes.len() != p.bytes.len() {
        return Err(OtError::GroupInvariantViolation);
    }
    let q = half(&p);
    let (one, minus_one) = get_one_and_minus_one_mod(&p);
    if less_or_equal(g, &one) || less_or_equal(&minus_one, g) {
        return Err(OtError::GroupInvariantViolation);
    }
    let order = mod_pow(g, &q, &p);
    if !order.same(&one) {
        return Err(OtError::GroupInvariantViolation);
    }
    Ok(SafePrimeGroup { g: g.copy(), p, q })
}

/// `g` is the square modulo `p` of a residue that is none of one and
/// `p - 1`.
pub open spec fn is_fresh_square(g: nat, p: nat) -> bool {
    exists|x: nat| x < p && x != 1 && x != p - 1 && g == #[trigger] mul_mod(x, x, p)
}

/// What a drawn residue `x` gives as a generator: its square modulo `p`,
/// and nothing where `x` is one or `p - 1`, whose square is one.
pub fn generator_from_draw(x: &Natural, p: &Natural) -> (r: Option<Natural>)
    requires
        is_modulus(*p),
        alike(*x, *p),
    ensures
        r.is_some() == (x@ != 1 && x@ != p@ - 1),
        r.is_some() ==> alike(r.unwrap(), *p) && r.unwrap()@ == mul_mod(x@, x@, p@),
{
    let (one, minus_one) = get_one_and_minus_one_mod(p);
    if x.same(&one) || x.same(&minus_one) {
        None
    } else {
        Some(mod_square(x, p))
    }
}

/// How often a residue is drawn before the search for a generator is given up.
pub const ATTEMPTS: usize = 128;

/// A random residue modulo `p` that is none of one and `p - 1`, squared;
/// `None` where every one of 128 draws gave one or `p - 1`. What a single
/// draw gives is said by `generator_from_draw`.
pub fn get_generator(p: &Natural) -> (r: Option<Natural>)
    requires
        is_modulus(*p),
    ensures
        r.is_some() ==> alike(r.unwrap(), *p) && is_fresh_square(r.unwrap()@, p@),
{
    let mut tries: usize = 0;
    while tries < ATTEMPTS
        invariant
            is_modulus(*p),
        decreases ATTEMPTS - tries,
    {
        let x = random_below(p);
        match generator_from_draw(&x, p) {
            Some(g) => {
                assert(g@ == mul_mod(x@, x@, p@));
                return Some(g);
            },
            None => {},
        }
        tries += 1;
    }
    None
}

/// The group of the prime that `p_as_bytes` spells, with a random generator.
/// Bytes that cannot stand for the prime are refused; so is a generator that
/// fails the test of its order.
pub fn make_group(p_as_bytes: &Vec<u8>) -> (r: Result<SafePrimeGroup, OtError>)
    ensures
        !is_prime_candidate(p_as_bytes@) ==> r == Err::<SafePrimeGroup, OtError>(
            OtError::PersistenceError,
        ),
        is_prime_candidate(p_as_bytes@) && r.is_err() ==> r == Err::<SafePrimeGroup, OtError>(
            OtError::GroupInvariantViolation,
        ),
        r.is_ok() ==> r.unwrap().wf() && r.unwrap().p.bytes@ == p_as_bytes@ && is_fresh_square(
            r.unwrap().g@,
            r.unwrap().p@,
        ),
{
    let p = match prime_candidate(p_as_bytes) {
        Some(p) => p,
        None => {
            return Err(OtError::PersistenceError);
        },
    };
    match get_generator(&p) {
        Some(g) => group_from_generator(p_as_bytes, &g),
        None => Err(OtError::GroupInvariantViolation),
    }
}

/// A fresh safe prime of `bits` bits as bytes, most significant first, and
/// the group that `make_group` gives for them.
pub fn make_group_of_bits(bits: usize) -> (r: (Vec<u8>, Result<SafePrimeGroup, OtError>))
    requires
        3 <= bits <= SECURITY,
    ensures
        r.0.len() == (if bits <= 8 * SHORT_WIDTH {
            SHORT_WIDTH
        } else {
            WIDTH
        }),
        r.1.is_ok() ==> r.1.unwrap().wf() && r.1.unwrap().p.bytes@ == r.0@ && is_fresh_square(
            r.1.unwrap().g@,
            r.1.unwrap().p@,
        ),
{
    let p = fresh_safe_prime(bits);
    let group = make_group(&p.bytes);
    (p.bytes, group)
}

/// A fresh safe prime of 2048 bits as 256 bytes, most significant first,
/// and the group that `make_group` gives for them.
pub fn make_group_from_scratch() -> (r: (Vec<u8>, Result<SafePrimeGroup, OtError>))
    ensures
        r.0.len() == WIDTH,
        r.1.is_ok() ==> r.1.unwrap().wf() && r.1.unwrap().p.bytes@ == r.0@ && is_fresh_square(
            r.1.unwrap().g@,
            r.1.unwrap().p@,
        ),
{
    make_group_of_bits(SECURITY)
}

/// In a group, the generator has an inverse: every power of it has one.
pub proof fn lemma_power_invertible(g: nat, q: nat, r: nat, p: nat)
    requires
        p > 1,
        q >= 1,
        pow_mod(g, q, p) == 1,
    ensures
        has_inverse(pow_mod(g, r, p), p),
{
    let gi = g as int;
    let pi = p as int;
    let h = pow(gi, (q - 1) as nat);
    assert(h * gi == pow(gi, q)) by {
        reveal(pow);
        assert(gi * h == h * gi) by (nonlinear_arith);
    }
    let x = (pow(h, r) % pi) as nat;
    let c = pow(gi, r);
    // x * (c % p) is one modulo p
    lemma_mul_mod_noop_general(pow(h, r), c, pi);
    lemma_pow_distributes(h, gi, r);
    lemma_pow_mod_noop(h * gi, r, pi);
    lemma1_pow(r);
    lemma_small_mod(1, p);
    assert((x as int * (c % pi)) % pi == 1);
    assert(x * pow_mod(g, r, p) == x as int * (c % pi));
    assert(mul_mod(x, pow_mod(g, r, p), p) == 1);
    lemma_mod_bound(pow(h, r), pi);
    assert(is_inverse(x, pow_mod(g, r, p), p));
}

/// A residue has at most one inverse.
pub proof fn lemma_inverse_unique(x: nat, y: nat, a: nat, p: nat)
    requires
        is_inverse(x, a, p),
        is_inverse(y, a, p),
    ensures
        x == y,
{
    let x_int = x as int;
    let y_int = y as int;
    let a_int = a as int;
    let pi = p as int;
    assert((x_int * a_int) % pi == 1);
    assert((y_int * a_int) % pi == 1);
    lemma_mul_mod_noop_general(x_int * a_int, y_int, pi);
    lemma_mul_mod_noop_general(x_int, y_int * a_int, pi);
    assert((x_int * a_int) * y_int == x_int * (y_int * a_int)) by (nonlinear_arith);
    assert(1 * y_int == y_int);
    assert(x_int * 1 == x_int);
    lemma_small_mod(x, p);
    lemma_small_mod(y, p);
}

/// The heart of the transfer: a ciphertext made with the key `g^sk` opens,
/// under `sk`, to what was put in.
pub proof fn lemma_open_sealed(g: nat, sk: nat, r: nat, inv: nat, e: nat, p: nat)
    requires
        p > 1,
        e < p,
        is_inverse(inv, pow_mod(g, r, p), p),
    ensures
        mul_mod(
            pow_mod(inv, sk, p),
            mul_mod(pow_mod(pow_mod(g, sk, p), r, p), e, p),
            p,
        ) == e,
{
    let gi = g as int;
    let ii = inv as int;
    let ei = e as int;
    let pi = p as int;
    let big_g = pow(gi, r);
    let big_k = pow(gi, sk);
    let a = pow(ii, sk);
    let b = pow(big_g, sk);
    lemma_pow_mod_noop(big_k, r, pi);
    lemma_pow_multiplies(gi, sk, r);
    lemma_pow_multiplies(gi, r, sk);
    assert(sk * r == r * sk) by (nonlinear_arith);
    assert(pow(big_k, r) == b);
    lemma_pow_distributes(ii, big_g, sk);
    assert(a * b == pow(ii * big_g, sk));
    assert((ii * (big_g % pi)) % pi == 1);
    lemma_mul_mod_noop_general(ii, big_g, pi);
    lemma_pow_mod_noop(ii * big_g, sk, pi);
    lemma1_pow(sk);
    lemma_small_mod(1, p);
    assert((a * b) % pi == 1);
    lemma_mul_mod_noop_general(b, ei, pi);
    lemma_mul_mod_noop_general(a, b * ei, pi);
    assert(a * (b * ei) == (a * b) * ei) by (nonlinear_arith);
    lemma_mul_mod_noop_general(a * b, ei, pi);
    assert(1 * ei == ei);
    lemma_small_mod(e, p);
    let sealed = mul_mod(pow_mod(pow_mod(g, sk, p), r, p), e, p);
    assert(pow_mod(g, sk, p) as int == big_k % pi);
    assert(pow_mod(pow_mod(g, sk, p), r, p) as int == b % pi);
    assert(sealed as int == ((b % pi) * ei) % pi);
    assert(sealed as int == (b * ei) % pi);
    assert(pow_mod(inv, sk, p) as int == a % pi);
    assert(mul_mod(pow_mod(inv, sk, p), sealed, p) as int == ((a % pi) * ((b * ei) % pi)) % pi);
}

/// A public key: an element of the group.
pub type PublicKey = Natural;

/// What the sender hands over: for each transfer, one ciphertext for each of
/// the two messages.
pub type OTParams = Vec<((Natural, Natural), (Natural, Natural))>;

/// Both numbers of a pair have as many bytes as `p`.
pub open spec fn pair_wf(k: (Natural, Natural), p: Natural) -> bool {
    alike(k.0, p) && alike(k.1, p)
}

/// The part of a pair that a choice bit names.
pub open spec fn chosen<T>(pair: (T, T), b: bool) -> T {
    if b {
        pair.1
    } else {
        pair.0
    }
}

/// `keys` commit to the choice `b` under the secret `sk`: the chosen key is
/// the generator to the power `sk`, the other one a square.
pub open spec fn is_commitment(
    keys: (Natural, Natural),
    sk: nat,
    b: bool,
    group: SafePrimeGroup,
) -> bool {
    &&& pair_wf(keys, group.p)
    &&& chosen(keys, b)@ == pow_mod(group.g@, sk, group.p@)
    &&& exists|x: nat| x < group.p@ && chosen(keys, !b)@ == #[trigger] mul_mod(x, x, group.p@)
}

/// `ct` is what the element `e` gives under the key `key` with the random
/// exponent `r`.
pub open spec fn seals_with(
    ct: (Natural, Natural),
    key: nat,
    e: nat,
    r: nat,
    group: SafePrimeGroup,
) -> bool {
    ct.0@ == pow_mod(group.g@, r, group.p@) && ct.1@ == mul_mod(
        pow_mod(key, r, group.p@),
        e,
        group.p@,
    )
}

/// `ct` is a ciphertext of the element `e` under the key `key`.
pub open spec fn seals(ct: (Natural, Natural), key: nat, e: nat, group: SafePrimeGroup) -> bool {
    pair_wf(ct, group.p) && exists|r: nat| r < group.q@ && #[trigger] seals_with(ct, key, e, r, group)
}

/// The message that the ciphertext `ct` opens to under the secret `sk`.
pub open spec fn opened(ct: (Natural, Natural), sk: nat, group: SafePrimeGroup) -> nat {
    decode(
        mul_mod(pow_mod(inverse_mod(ct.0@, group.p@), sk, group.p@), ct.1@, group.p@),
        group.p@,
        group.q@,
    )
}

/// A ciphertext of a message under the key `g^sk` can be opened, and opens
/// under `sk` to the decoding of the message's encoding; that is the
/// message itself where it is below `q`.
pub proof fn lemma_transfer(ct: (Natural, Natural), sk: nat, m: nat, group: SafePrimeGroup)
    requires
        group.wf(),
        m + 1 < group.p@,
        seals(
            ct,
            pow_mod(group.g@, sk, group.p@),
            encode(m, group.p@, group.q@),
            group,
        ),
    ensures
        has_inverse(ct.0@, group.p@),
        opened(ct, sk, group) == decode(encode(m, group.p@, group.q@), group.p@, group.q@),
        m < group.q@ ==> opened(ct, sk, group) == m,
{
    let p = group.p@;
    let q = group.q@;
    let g = group.g@;
    let e = encode(m, p, q);
    let key = pow_mod(g, sk, p);
    let r = choose|r: nat| r < q && #[trigger] seals_with(ct, key, e, r, group);
    lemma_power_invertible(g, q, r, p);
    let inv = inverse_mod(ct.0@, p);
    assert(is_inverse(inv, ct.0@, p));
    lemma_small_mod(m + 1, p);
    if pow_mod(m + 1, q, p) != 1 {
        lemma_neg_mod(m + 1, p);
    }
    lemma_open_sealed(g, sk, r, inv, e, p);
    if m < q {
        lemma_decode_encode(m, p, q);
    }
}

/// Every number has as many bytes as `p`.
pub open spec fn naturals_wf(numbers: Seq<Natural>, p: Natural) -> bool {
    forall|i: int| 0 <= i < numbers.len() ==> alike(#[trigger] numbers[i], p)
}

/// `num` random secret keys, each below the order of the group.
pub fn create_secret_keys(group: &SafePrimeGroup, num: usize) -> (r: Vec<Natural>)
    requires
        group.wf(),
    ensures
        r.len() == num,
        naturals_wf(r@, group.p),
        forall|i: int| 0 <= i < num ==> (#[trigger] r[i])@ < group.q@,
{
    let mut keys: Vec<Natural> = Vec::new();
    let mut i: usize = 0;
    while i < num
        invariant
            i <= num,
            group.wf(),
            keys.len() == i,
            naturals_wf(keys@, group.p),
            forall|j: int| 0 <= j < i ==> (#[trigger] keys[j])@ < group.q@,
        decreases num - i,
    {
        keys.push(random_below(&group.q));
        i += 1;
    }
    keys
}

/// The pair of keys for one choice: the real key, the generator to the
/// power `sk`, stands where the choice points, and a random square in the
/// other place.
pub fn commit_one(group: &SafePrimeGroup, sk: &Natural, b: bool) -> (r: (PublicKey, PublicKey))
    requires
        group.wf(),
        alike(*sk, group.p),
    ensures
        is_commitment(r, sk@, b, *group),
{
    let x = random_below(&group.p);
    let fake_gamal = mod_square(&x, &group.p);
    let real_gamal = mod_pow(&group.g, sk, &group.p);
    assert(fake_gamal@ == mul_mod(x@, x@, group.p@));
    if b {
        (fake_gamal, real_gamal)
    } else {
        (real_gamal, fake_gamal)
    }
}

/// The pairs of keys that commit to `choice`, one pair for each bit.
pub fn commit_choice(group: &SafePrimeGroup, sk: &Vec<Natural>, choice: &Vec<bool>) -> (r: Vec<
    (PublicKey, PublicKey),
>)
    requires
        group.wf(),
        choice.len() <= sk.len(),
        naturals_wf(sk@, group.p),
    ensures
        commits_all(r@, sk@, choice@, *group),
        pairs_wf(r@, group.p),
{
    let mut keys: Vec<(PublicKey, PublicKey)> = Vec::new();
    let mut i: usize = 0;
    while i < choice.len()
        invariant
            i <= choice.len() <= sk.len(),
            group.wf(),
            naturals_wf(sk@, group.p),
            keys.len() == i,
            forall|j: int|
                0 <= j < i ==> is_commitment(#[trigger] keys[j], sk[j]@, choice[j], *group),
        decreases choice.len() - i,
    {
        keys.push(commit_one(group, &sk[i], choice[i]));
        i += 1;
    }
    keys
}

/// Both messages of a pair can be encoded: each is below the prime less one.
pub open spec fn fits(m: (Natural, Natural), p: nat) -> bool {
    m.0@ + 1 < p && m.1@ + 1 < p
}

/// Every pair of messages can be encoded.
pub open spec fn all_fit(messages: Seq<(Natural, Natural)>, p: nat) -> bool {
    forall|i: int| 0 <= i < messages.len() ==> fits(#[trigger] messages[i], p)
}

/// Every number of every pair has as many bytes as `p`.
pub open spec fn pairs_wf(pairs: Seq<(Natural, Natural)>, p: Natural) -> bool {
    forall|i: int| 0 <= i < pairs.len() ==> pair_wf(#[trigger] pairs[i], p)
}

/// The ciphertext of the element `e` under `key`, with a fresh random
/// exponent.
pub fn seal(group: &SafePrimeGroup, key: &PublicKey, e: &Natural) -> (ct: (Natural, Natural))
    requires
        group.wf(),
        alike(*key, group.p),
        alike(*e, group.p),
    ensures
        seals(ct, key@, e@, *group),
{
    let r = random_below(&group.q);
    let s = mod_pow(key, &r, &group.p);
    let c = mod_pow(&group.g, &r, &group.p);
    let d = mod_mul(&s, e, &group.p);
    assert(seals_with((c, d), key@, e@, r@, *group));
    (c, d)
}

/// The two ciphertexts for one pair of messages: each message is encoded
/// and sealed under the key of its place.
pub fn send_one(
    group: &SafePrimeGroup,
    keys: &(PublicKey, PublicKey),
    message: &(Natural, Natural),
) -> (r: Result<((Natural, Natural), (Natural, Natural)), OtError>)
    requires
        group.wf(),
        pair_wf(*keys, group.p),
        pair_wf(*message, group.p),
    ensures
        r.is_err() == !fits(*message, group.p@),
        r.is_err() ==> r == Err::<((Natural, Natural), (Natural, Natural)), OtError>(
            OtError::EncodingOutOfRange,
        ),
        r.is_ok() ==> seals(
            r.unwrap().0,
            keys.0@,
            encode(message.0@, group.p@, group.q@),
            *group,
        ) && seals(r.unwrap().1, keys.1@, encode(message.1@, group.p@, group.q@), *group),
{
    let m_0 = match to_encoding(&message.0, &group.p, &group.q) {
        Ok(e) => e,
        Err(e) => {
            return Err(e);
        },
    };
    let m_1 = match to_encoding(&message.1, &group.p, &group.q) {
        Ok(e) => e,
        Err(e) => {
            return Err(e);
        },
    };
    let first = seal(group, &keys.0, &m_0);
    let second = seal(group, &keys.1, &m_1);
    Ok((first, second))
}

/// The sender's move: for each pair of keys and pair of messages, the two
/// ciphertexts. Place 0 carries the first message, place 1 the second.
pub fn send(
    group: &SafePrimeGroup,
    keys: &Vec<(PublicKey, PublicKey)>,
    messages: &Vec<(Natural, Natural)>,
) -> (r: Result<OTParams, OtError>)
    requires
        group.wf(),
        pairs_wf(keys@, group.p),
        pairs_wf(messages@, group.p),
    ensures
        keys.len() != messages.len() ==> r == Err::<OTParams, OtError>(OtError::LengthMismatch),
        keys.len() == messages.len() && !all_fit(messages@, group.p@) ==> r == Err::<
            OTParams,
            OtError,
        >(OtError::EncodingOutOfRange),
        keys.len() == messages.len() && all_fit(messages@, group.p@) ==> r.is_ok()
            && r.unwrap().len() == keys.len() && forall|i: int|
            0 <= i < keys.len() ==> seals(
                (#[trigger] r.unwrap()[i]).0,
                keys[i].0@,
                encode(messages[i].0@, group.p@, group.q@),
                *group,
            ) && seals(
                r.unwrap()[i].1,
                keys[i].1@,
                encode(messages[i].1@, group.p@, group.q@),
                *group,
            ),
{
    if keys.len() != messages.len() {
        return Err(OtError::LengthMismatch);
    }
    let mut out: OTParams = Vec::new();
    let mut i: usize = 0;
    while i < keys.len()
        invariant
            i <= keys.len(),
            keys.len() == messages.len(),
            group.wf(),
            pairs_wf(keys@, group.p),
            pairs_wf(messages@, group.p),
            out.len() == i,
            forall|j: int| 0 <= j < i ==> fits(#[trigger] messages[j], group.p@),
            forall|j: int|
                0 <= j < i ==> seals(
                    (#[trigger] out[j]).0,
                    keys[j].0@,
                    encode(messages[j].0@, group.p@, group.q@),
                    *group,
                ) && seals(
                    out[j].1,
                    keys[j].1@,
                    encode(messages[j].1@, group.p@, group.q@),
                    *group,
                ),
        decreases keys.len() - i,
    {
        assert(pair_wf(keys[i as int], group.p));
        assert(pair_wf(messages[i as int], group.p));
        match send_one(group, &keys[i], &messages[i]) {
            Ok(ct) => {
                out.push(ct);
            },
            Err(e) => {
                assert(!fits(messages[i as int], group.p@));
                return Err(e);
            },
        }
        i += 1;
    }
    Ok(out)
}

/// Every number of every pair of ciphertexts has as many bytes as `p`.
pub open spec fn params_wf(m: Seq<((Natural, Natural), (Natural, Natural))>, p: Natural) -> bool {
    forall|i: int| 0 <= i < m.len() ==> pair_wf((#[trigger] m[i]).0, p) && pair_wf(m[i].1, p)
}

/// Every chosen ciphertext can be opened: its first part has an inverse.
pub open spec fn all_open(
    m: Seq<((Natural, Natural), (Natural, Natural))>,
    choices: Seq<bool>,
    p: nat,
) -> bool {
    forall|i: int|
        0 <= i < m.len() && i < choices.len() ==> has_inverse(
            chosen(#[trigger] m[i], choices[i]).0@,
            p,
        )
}

/// The message that a ciphertext opens to under the secret `sk`. A
/// ciphertext whose first part has no inverse is refused.
pub fn open_one(group: &SafePrimeGroup, ct: &(Natural, Natural), sk: &Natural) -> (r: Result<
    Natural,
    OtError,
>)
    requires
        group.wf(),
        pair_wf(*ct, group.p),
        alike(*sk, group.p),
    ensures
        r.is_err() == !has_inverse(ct.0@, group.p@),
        r.is_err() ==> r == Err::<Natural, OtError>(OtError::GroupInvariantViolation),
        r.is_ok() ==> alike(r.unwrap(), group.p) && r.unwrap()@ == opened(*ct, sk@, *group),
{
    let (inverted, found) = mod_invert(&ct.0, &group.p);
    if !found {
        return Err(OtError::GroupInvariantViolation);
    }
    proof {
        lemma_inverse_unique(inverted@, inverse_mod(ct.0@, group.p@), ct.0@, group.p@);
    }
    let power = mod_pow(&inverted, sk, &group.p);
    let m = mod_mul(&power, &ct.1, &group.p);
    Ok(from_encoding(&m, &group.p, &group.q))
}

/// The receiver's move: of each pair of ciphertexts the one that the choice
/// names, opened under the secret key of its place.
pub fn receive_(
    group: &SafePrimeGroup,
    m: &OTParams,
    sk: &Vec<Natural>,
    choices: &Vec<bool>,
) -> (r: Result<Vec<Natural>, OtError>)
    requires
        group.wf(),
        params_wf(m@, group.p),
        naturals_wf(sk@, group.p),
    ensures
        m.len() != choices.len() || sk.len() != choices.len() ==> r == Err::<
            Vec<Natural>,
            OtError,
        >(OtError::LengthMismatch),
        m.len() == choices.len() && sk.len() == choices.len() && !all_open(
            m@,
            choices@,
            group.p@,
        ) ==> r == Err::<Vec<Natural>, OtError>(OtError::GroupInvariantViolation),
        m.len() == choices.len() && sk.len() == choices.len() && all_open(
            m@,
            choices@,
            group.p@,
        ) ==> r.is_ok() && r.unwrap().len() == choices.len() && forall|i: int|
            0 <= i < choices.len() ==> alike(#[trigger] r.unwrap()[i], group.p) && r.unwrap()[i]@
                == opened(
                chosen(m[i], choices[i]),
                sk[i]@,
                *group,
            ),
{
    if m.len() != choices.len() || sk.len() != choices.len() {
        return Err(OtError::LengthMismatch);
    }
    let mut out: Vec<Natural> = Vec::new();
    let mut i: usize = 0;
    while i < choices.len()
        invariant
            i <= choices.len(),
            m.len() == choices.len(),
            sk.len() == choices.len(),
            group.wf(),
            params_wf(m@, group.p),
            naturals_wf(sk@, group.p),
            out.len() == i,
            forall|j: int| 0 <= j < i ==> has_inverse(chosen(#[trigger] m[j], choices[j]).0@, group.p@),
            forall|j: int|
                0 <= j < i ==> alike(#[trigger] out[j], group.p) && out[j]@ == opened(
                    chosen(m[j], choices[j]),
                    sk[j]@,
                    *group,
                ),
        decreases choices.len() - i,
    {
        assert(pair_wf(m[i as int].0, group.p) && pair_wf(m[i as int].1, group.p));
        let opening = if choices[i] {
            open_one(group, &m[i].1, &sk[i])
        } else {
            open_one(group, &m[i].0, &sk[i])
        };
        match opening {
            Ok(x) => {
                out.push(x);
            },
            Err(e) => {
                assert(!has_inverse(chosen(m[i as int], choices[i as int]).0@, group.p@));
                return Err(e);
            },
        }
        i += 1;
    }
    Ok(out)
}

/// The numbers that pairs of bit vectors spell.
pub open spec fn numbers_of(messages: Seq<(Vec<bool>, Vec<bool>)>) -> Seq<(nat, nat)> {
    Seq::new(messages.len(), |i: int| (bits_nat(messages[i].0@), bits_nat(messages[i].1@)))
}

/// `ct` holds, for each pair of keys, a ciphertext of each message of the
/// pair of messages in the same place, under the key of its place.
pub open spec fn seals_all(
    ct: Seq<((Natural, Natural), (Natural, Natural))>,
    keys: Seq<(Natural, Natural)>,
    messages: Seq<(nat, nat)>,
    group: SafePrimeGroup,
) -> bool {
    &&& ct.len() == keys.len()
    &&& forall|i: int|
        0 <= i < keys.len() ==> seals(
            (#[trigger] ct[i]).0,
            keys[i].0@,
            encode(messages[i].0, group.p@, group.q@),
            group,
        ) && seals(ct[i].1, keys[i].1@, encode(messages[i].1, group.p@, group.q@), group)
}

/// `keys` commit to `choice` under the secret keys `sk`, place by place.
pub open spec fn commits_all(
    keys: Seq<(Natural, Natural)>,
    sk: Seq<Natural>,
    choice: Seq<bool>,
    group: SafePrimeGroup,
) -> bool {
    &&& keys.len() == choice.len()
    &&& choice.len() <= sk.len()
    &&& forall|i: int|
        0 <= i < choice.len() ==> is_commitment(#[trigger] keys[i], sk[i]@, choice[i], group)
}

/// What holds between the moves of a batch of transfers when each side has
/// done its part: every chosen ciphertext can be opened, and opens to the
/// decoding of the encoding of the chosen message, which is the message
/// itself where that is below the order of the group.
pub proof fn lemma_all_transfer(
    group: SafePrimeGroup,
    keys: Seq<(Natural, Natural)>,
    sk: Seq<Natural>,
    choice: Seq<bool>,
    messages: Seq<(nat, nat)>,
    ct: Seq<((Natural, Natural), (Natural, Natural))>,
)
    requires
        group.wf(),
        keys.len() == choice.len(),
        sk.len() == choice.len(),
        messages.len() == choice.len(),
        ct.len() == choice.len(),
        forall|i: int|
            0 <= i < choice.len() ==> (#[trigger] messages[i]).0 + 1 < group.p@ && messages[i].1
                + 1 < group.p@,
        commits_all(keys, sk, choice, group),
        seals_all(ct, keys, messages, group),
    ensures
        all_open(ct, choice, group.p@),
        forall|i: int|
            0 <= i < choice.len() ==> opened(chosen(#[trigger] ct[i], choice[i]), sk[i]@, group)
                == decode(
                encode(chosen(messages[i], choice[i]), group.p@, group.q@),
                group.p@,
                group.q@,
            ),
        forall|i: int|
            0 <= i < choice.len() && chosen(messages[i], choice[i]) < group.q@ ==> opened(
                chosen(#[trigger] ct[i], choice[i]),
                sk[i]@,
                group,
            ) == chosen(messages[i], choice[i]),
{
    assert forall|i: int| 0 <= i < choice.len() implies has_inverse(
        chosen(#[trigger] ct[i], choice[i]).0@,
        group.p@,
    ) && opened(chosen(ct[i], choice[i]), sk[i]@, group) == decode(
        encode(chosen(messages[i], choice[i]), group.p@, group.q@),
        group.p@,
        group.q@,
    ) && (chosen(messages[i], choice[i]) < group.q@ ==> opened(
        chosen(ct[i], choice[i]),
        sk[i]@,
        group,
    ) == chosen(messages[i], choice[i])) by {
        assert(is_commitment(keys[i], sk[i]@, choice[i], group));
        assert(messages[i].0 + 1 < group.p@);
        lemma_transfer(chosen(ct[i], choice[i]), sk[i]@, chosen(messages[i], choice[i]), group);
    }
}

/// Every message of every pair, read as a number, is below `p - 1`.
pub open spec fn in_range(messages: Seq<(Vec<bool>, Vec<bool>)>, p: nat) -> bool {
    forall|j: int|
        0 <= j < messages.len() ==> bits_nat((#[trigger] messages[j]).0@) + 1 < p && bits_nat(
            messages[j].1@,
        ) + 1 < p
}

/// What a message becomes on its way through a transfer: the bits of the
/// decoding of its encoding.
pub open spec fn carried(bits: Seq<bool>, p: nat, q: nat) -> Seq<bool> {
    nat_bits(decode(encode(bits_nat(bits), p, q), p, q), bits.len())
}

/// Why a batch of transfers of bit vectors is refused, if it is.
pub open spec fn refusal(
    messages: Seq<(Vec<bool>, Vec<bool>)>,
    choice: Seq<bool>,
    p: Natural,
) -> Option<OtError> {
    if choice.len() != messages.len() {
        Some(OtError::LengthMismatch)
    } else if messages.len() == 0 {
        None
    } else if !uniform(messages, messages[0].0.len() as nat) {
        Some(OtError::LengthMismatch)
    } else if messages[0].0.len() > 8 * p.bytes.len() || !in_range(messages, p@) {
        Some(OtError::EncodingOutOfRange)
    } else {
        None
    }
}

/// The pairs of bit vectors as pairs of numbers.
pub fn messages_to_naturals(messages: &Vec<(Vec<bool>, Vec<bool>)>, p: &Natural) -> (r: Vec<
    (Natural, Natural),
>)
    requires
        p.wf(),
    ensures
        r.len() == messages.len(),
        pairs_wf(r@, *p),
        forall|j: int|
            0 <= j < messages.len() ==> (#[trigger] r[j]).0@ == bits_nat(
                last_bits(messages[j].0@, (8 * p.bytes.len()) as nat),
            ) && r[j].1@ == bits_nat(last_bits(messages[j].1@, (8 * p.bytes.len()) as nat)),
{
    let mut out: Vec<(Natural, Natural)> = Vec::new();
    let mut j: usize = 0;
    while j < messages.len()
        invariant
            j <= messages.len(),
            out.len() == j,
            p.wf(),
            pairs_wf(out@, *p),
            forall|i: int|
                0 <= i < j ==> (#[trigger] out[i]).0@ == bits_nat(
                    last_bits(messages[i].0@, (8 * p.bytes.len()) as nat),
                ) && out[i].1@ == bits_nat(last_bits(messages[i].1@, (8 * p.bytes.len()) as nat)),
        decreases messages.len() - j,
    {
        let m_0 = bits_to_natural(&messages[j].0, p.bytes.len());
        let m_1 = bits_to_natural(&messages[j].1, p.bytes.len());
        out.push((m_0, m_1));
        j += 1;
    }
    out
}

impl SafePrimeGroup {
    /// Whether every number of `bits` bits is below the order of the group,
    /// so that a transfer carries every message of that length unchanged.
    pub fn carries(&self, bits: usize) -> (r: bool)
        requires
            self.wf(),
        ensures
            r == (pow2(bits as nat) <= self.q@),
    {
        if bits > 8 * self.p.bytes.len() {
            proof {
                lemma_natural_bound(self.q);
                lemma_pow2_strictly_increases((8 * self.p.bytes.len()) as nat, bits as nat);
            }
            return false;
        }
        let ones = filled(bits, true);
        let largest = bits_to_natural(&ones, self.p.bytes.len());
        proof {
            lemma_bits_nat_ones(bits as nat);
        }
        !less_or_equal(&self.q, &largest)
    }

    /// The greatest count of bits of which every number is below the order
    /// of the group: a message of so many bits a transfer carries unchanged.
    pub fn capacity(&self) -> (r: usize)
        requires
            self.wf(),
        ensures
            1 <= r <= 8 * self.p.bytes.len(),
            pow2(r as nat) <= self.q@,
            pow2((r + 1) as nat) > self.q@,
    {
        let mut bits: usize = 8 * self.p.bytes.len();
        proof {
            lemma2_to64();
            lemma_natural_bound(self.q);
            lemma_pow2_strictly_increases(bits as nat, (bits + 1) as nat);
        }
        while bits > 1 && !self.carries(bits)
            invariant
                self.wf(),
                1 <= bits <= 8 * self.p.bytes.len(),
                pow2((bits + 1) as nat) > self.q@,
            decreases bits,
        {
            bits -= 1;
        }
        bits
    }
}

/// The sender's move for messages that are bit vectors of no more bits than
/// the numbers of the group have:
/// each is read as a number and sealed.
pub fn send_bits(
    group: &SafePrimeGroup,
    keys: &Vec<(PublicKey, PublicKey)>,
    messages: &Vec<(Vec<bool>, Vec<bool>)>,
) -> (r: Result<OTParams, OtError>)
    requires
        group.wf(),
        pairs_wf(keys@, group.p),
        exists|len: nat| len <= 8 * group.p.bytes.len() && uniform(messages@, len),
    ensures
        keys.len() != messages.len() ==> r == Err::<OTParams, OtError>(OtError::LengthMismatch),
        keys.len() == messages.len() && !in_range(messages@, group.p@) ==> r == Err::<
            OTParams,
            OtError,
        >(OtError::EncodingOutOfRange),
        keys.len() == messages.len() && in_range(messages@, group.p@) ==> r.is_ok() && params_wf(
            r.unwrap()@,
            group.p,
        ) && seals_all(r.unwrap()@, keys@, numbers_of(messages@), *group),
{
    let inputs = messages_to_naturals(messages, &group.p);
    proof {
        let len = choose|len: nat| len <= 8 * group.p.bytes.len() && uniform(messages@, len);
        assert forall|j: int| 0 <= j < messages.len() implies (#[trigger] inputs[j]).0@ == bits_nat(
            messages[j].0@,
        ) && inputs[j].1@ == bits_nat(messages[j].1@) by {
            assert(messages[j].0.len() == len);
        }
        if all_fit(inputs@, group.p@) {
            assert forall|j: int| 0 <= j < messages.len() implies bits_nat(
                (#[trigger] messages[j]).0@,
            ) + 1 < group.p@ && bits_nat(messages[j].1@) + 1 < group.p@ by {
                assert(fits(inputs[j], group.p@));
            }
        } else {
            if in_range(messages@, group.p@) {
                assert forall|j: int| 0 <= j < messages.len() implies fits(
                    #[trigger] inputs[j],
                    group.p@,
                ) by {
                    assert(bits_nat(messages[j].0@) + 1 < group.p@);
                }
            }
        }
    }
    send(group, keys, &inputs)
}

/// The receiver's move for messages that are bit vectors of `len` bits:
/// each chosen ciphertext is opened and written as `len` bits.
pub fn receive_bits(
    group: &SafePrimeGroup,
    m: &OTParams,
    sk: &Vec<Natural>,
    choices: &Vec<bool>,
    len: usize,
) -> (r: Result<Vec<Vec<bool>>, OtError>)
    requires
        group.wf(),
        params_wf(m@, group.p),
        naturals_wf(sk@, group.p),
        len <= 8 * group.p.bytes.len(),
    ensures
        m.len() != choices.len() || sk.len() != choices.len() ==> r == Err::<
            Vec<Vec<bool>>,
            OtError,
        >(OtError::LengthMismatch),
        m.len() == choices.len() && sk.len() == choices.len() && !all_open(
            m@,
            choices@,
            group.p@,
        ) ==> r == Err::<Vec<Vec<bool>>, OtError>(OtError::GroupInvariantViolation),
        m.len() == choices.len() && sk.len() == choices.len() && all_open(
            m@,
            choices@,
            group.p@,
        ) ==> r.is_ok() && r.unwrap().len() == choices.len() && forall|i: int|
            0 <= i < choices.len() ==> (#[trigger] r.unwrap()[i])@ == nat_bits(
                opened(chosen(m[i], choices[i]), sk[i]@, *group),
                len as nat,
            ),
{
    let values = match receive_(group, m, sk, choices) {
        Ok(values) => values,
        Err(e) => {
            return Err(e);
        },
    };
    let mut out: Vec<Vec<bool>> = Vec::new();
    let mut i: usize = 0;
    while i < values.len()
        invariant
            i <= values.len(),
            group.wf(),
            values.len() == choices.len(),
            m.len() == choices.len(),
            sk.len() == choices.len(),
            len <= 8 * group.p.bytes.len(),
            out.len() == i,
            forall|j: int|
                0 <= j < choices.len() ==> alike(#[trigger] values[j], group.p) && values[j]@
                    == opened(
                    chosen(m[j], choices[j]),
                    sk[j]@,
                    *group,
                ),
            forall|j: int|
                0 <= j < i ==> (#[trigger] out[j])@ == nat_bits(
                    opened(chosen(m[j], choices[j]), sk[j]@, *group),
                    len as nat,
                ),
        decreases values.len() - i,
    {
        out.push(usize_to_bool_vec_len(&values[i], len));
        i += 1;
    }
    Ok(out)
}

/// One-out-of-two transfer of each pair of messages, by one transfer in the
/// group for each pair: the result holds, for each pair, the message that
/// the choice bit names. The messages of all pairs have one length, of no
/// more bits than the numbers of the group have, and each, read as a number,
/// is below the prime less one; one that is below the order of the group
/// arrives unchanged, and so does every message where the group carries
/// their length.
pub fn ote(
    messages: Vec<(Vec<bool>, Vec<bool>)>,
    choice: Vec<bool>,
    _k: usize,
    group: &SafePrimeGroup,
) -> (r: Result<Vec<Vec<bool>>, OtError>)
    requires
        group.wf(),
    ensures
        refusal(messages@, choice@, group.p) matches Some(e) ==> r == Err::<
            Vec<Vec<bool>>,
            OtError,
        >(e),
        refusal(messages@, choice@, group.p).is_none() ==> r.is_ok() && r.unwrap().len()
            == messages.len() && forall|j: int|
            0 <= j < messages.len() ==> (#[trigger] r.unwrap()[j])@ == carried(
                picked(messages@, choice@, j),
                group.p@,
                group.q@,
            ) && (bits_nat(picked(messages@, choice@, j)) < group.q@ ==> r.unwrap()[j]@ == picked(
                messages@,
                choice@,
                j,
            )),
        refusal(messages@, choice@, group.p).is_none() && messages.len() > 0 && pow2(
            messages[0].0.len() as nat,
        ) <= group.q@ ==> forall|j: int|
            0 <= j < messages.len() ==> (#[trigger] r.unwrap()[j])@ == picked(
                messages@,
                choice@,
                j,
            ),
{
    let m = messages.len();
    if choice.len() != m {
        return Err(OtError::LengthMismatch);
    }
    if m == 0 {
        return Ok(Vec::new());
    }
    let len = messages[0].0.len();
    if !lengths_agree(&messages, len) {
        return Err(OtError::LengthMismatch);
    }
    if len > 8 * group.p.bytes.len() {
        return Err(OtError::EncodingOutOfRange);
    }
    let sk = create_secret_keys(group, m);
    let keys = commit_choice(group, &sk, &choice);
    let encrypted_messages = match send_bits(group, &keys, &messages) {
        Ok(sealed) => sealed,
        Err(e) => {
            return Err(e);
        },
    };
    proof {
        lemma_all_transfer(
            *group,
            keys@,
            sk@,
            choice@,
            numbers_of(messages@),
            encrypted_messages@,
        );
    }
    let res = receive_bits(group, &encrypted_messages, &sk, &choice, len);
    proof {
        assert forall|j: int| 0 <= j < m implies (#[trigger] res.unwrap()[j])@ == carried(
            picked(messages@, choice@, j),
            group.p@,
            group.q@,
        ) && (bits_nat(picked(messages@, choice@, j)) < group.q@ ==> res.unwrap()[j]@ == picked(
            messages@,
            choice@,
            j,
        )) by {
            assert(messages[j].0.len() == len && messages[j].1.len() == len);
            assert(chosen(numbers_of(messages@)[j], choice[j]) == bits_nat(
                picked(messages@, choice@, j),
            ));
            lemma_nat_of_bits(picked(messages@, choice@, j));
        }
        if pow2(len as nat) <= group.q@ {
            assert forall|j: int| 0 <= j < m implies (#[trigger] res.unwrap()[j])@ == picked(
                messages@,
                choice@,
                j,
            ) by {
                assert(messages[j].0.len() == len && messages[j].1.len() == len);
                lemma_bits_nat_bound(picked(messages@, choice@, j));
            }
        }
    }
    res
}

} // verus!
