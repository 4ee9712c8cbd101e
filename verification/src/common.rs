//! Bit vectors, their packing into bytes, matrices of bits, the hash and the
//! pseudorandom generator that the protocols share.
use crate::bits::{
    bits_nat, lemma_bits_nat_bound, lemma_bits_nat_leading_zeros, lemma_bits_of_nat,
    lemma_nat_of_bits, nat_bit, nat_bits, xor_bits, zeros,
};
use vstd::arithmetic::power2::*;
use vstd::prelude::*;

verus! {

/// Length in bits of a hash value.
pub const OUTPUT_SIZE: usize = 256;

/// Whether the pseudorandom generator runs AES in counter mode; ChaCha20
/// where it is `false`.
pub const USE_AES: bool = false;

/// The SHA3-256 digest of `data`.
pub uninterp spec fn sha3_256_digest(data: Seq<u8>) -> Seq<u8>;

/// The first `n` bytes of the ChaCha20 key stream for `key`, with the stream
/// number and the position both zero.
pub uninterp spec fn chacha20_stream(key: Seq<u8>, n: nat) -> Seq<u8>;

/// The first `n` bytes that AES-128 in counter mode gives for `key`, counting
/// from zero.
pub uninterp spec fn aes128_ctr_stream(key: Seq<u8>, n: nat) -> Seq<u8>;

/// The first `n` bytes that AES-256 in counter mode gives for `key`, counting
/// from zero.
pub uninterp spec fn aes256_ctr_stream(key: Seq<u8>, n: nat) -> Seq<u8>;

/// Bit `pos` of `byte`, where bit 0 is the least significant.
pub fn get_bit(byte: u8, pos: u8) -> (r: bool)
    requires
        pos < 8,
    ensures
        r == nat_bit(byte as nat, pos as nat),
{
    proof {
        lemma2_to64();
        assert(pos == 0 ==> ((byte >> pos) & 1 != 0) == ((byte / 1) % 2 == 1)) by (bit_vector);
        assert(pos == 1 ==> ((byte >> pos) & 1 != 0) == ((byte / 2) % 2 == 1)) by (bit_vector);
        assert(pos == 2 ==> ((byte >> pos) & 1 != 0) == ((byte / 4) % 2 == 1)) by (bit_vector);
        assert(pos == 3 ==> ((byte >> pos) & 1 != 0) == ((byte / 8) % 2 == 1)) by (bit_vector);
        assert(pos == 4 ==> ((byte >> pos) & 1 != 0) == ((byte / 16) % 2 == 1)) by (bit_vector);
        assert(pos == 5 ==> ((byte >> pos) & 1 != 0) == ((byte / 32) % 2 == 1)) by (bit_vector);
        assert(pos == 6 ==> ((byte >> pos) & 1 != 0) == ((byte / 64) % 2 == 1)) by (bit_vector);
        assert(pos == 7 ==> ((byte >> pos) & 1 != 0) == ((byte / 128) % 2 == 1)) by (bit_vector);
    }
    (byte >> pos) & 1 != 0
}

/// The eight bits of a byte, most significant first.
pub open spec fn byte_bits(x: u8) -> Seq<bool> {
    nat_bits(x as nat, 8)
}

/// The bits of a sequence of bytes: eight for each byte, most significant first.
pub open spec fn bytes_bits(v: Seq<u8>) -> Seq<bool> {
    Seq::new(8 * v.len(), |i: int| nat_bit(v[i / 8] as nat, (7 - i % 8) as nat))
}

/// The bits of a sequence of 64-bit words: sixty-four for each word, most
/// significant first.
pub open spec fn words_bits(v: Seq<u64>) -> Seq<bool> {
    Seq::new(64 * v.len(), |i: int| nat_bit(v[i / 64] as nat, (63 - i % 64) as nat))
}

/// `b` with zero bits in front, up to the next multiple of eight.
pub open spec fn pad8(b: Seq<bool>) -> Seq<bool> {
    zeros(((8 - b.len() % 8) % 8) as nat) + b
}

/// The byte that eight bits spell.
pub open spec fn octet(b: Seq<bool>) -> u8 {
    (bits_nat(b) % 256) as u8
}

/// The bytes that `b` packs into: `b` is padded in front to whole bytes, and
/// every eight bits make one byte.
pub open spec fn bits_bytes(b: Seq<bool>) -> Seq<u8> {
    Seq::new(pad8(b).len() / 8, |i: int| octet(pad8(b).subrange(8 * i, 8 * i + 8)))
}

/// The rows of a matrix, each as a sequence.
pub open spec fn rows(m: Seq<Vec<bool>>) -> Seq<Seq<bool>> {
    Seq::new(m.len(), |i: int| m[i]@)
}

/// A matrix with `r` rows of `c` bits each.
pub open spec fn is_matrix(m: Seq<Seq<bool>>, r: nat, c: nat) -> bool {
    m.len() == r && forall|i: int| 0 <= i < r ==> (#[trigger] m[i]).len() == c
}

/// The matrix whose row `i` is column `i` of `m`. It has as many rows as
/// the first row of `m` has bits.
pub open spec fn transposed(m: Seq<Seq<bool>>) -> Seq<Seq<bool>> {
    Seq::new(m[0].len(), |i: int| Seq::new(m.len(), |j: int| m[j][i]))
}

/// `n` copies of `value`.
pub fn filled(n: usize, value: bool) -> (r: Vec<bool>)
    ensures
        r@ == Seq::new(n as nat, |j: int| value),
{
    let mut r: Vec<bool> = Vec::new();
    let mut i: usize = 0;
    while i < n
        invariant
            i <= n,
            r@ =~= Seq::new(i as nat, |j: int| value),
        decreases n - i,
    {
        r.push(value);
        i += 1;
    }
    r
}

/// The `n` low bits of `w`, most significant first; zero bits in front where
/// `n` is more than sixty-four.
pub fn word_bits(w: u64, n: usize) -> (r: Vec<bool>)
    ensures
        r@ == nat_bits(w as nat, n as nat),
{
    let mut r = filled(n, false);
    let mut idx: usize = n;
    let mut cur: u64 = w;
    proof {
        lemma2_to64();
        assert(pow2(0) == 1);
        assert(w as nat / 1 == w as nat);
        assert(cur as nat == w as nat / pow2((n - idx) as nat));
    }
    while idx > 0
        invariant
            idx <= n,
            r.len() == n,
            cur as nat == w as nat / pow2((n - idx) as nat),
            forall|j: int| idx <= j < n ==> r[j] == nat_bit(w as nat, (n - 1 - j) as nat),
        decreases idx,
    {
        idx -= 1;
        r.set(idx, cur % 2 == 1);
        proof {
            let k = (n - 1 - idx) as nat;
            lemma_pow2_unfold(k + 1);
            lemma_pow2_pos(k);
            vstd::arithmetic::div_mod::lemma_div_denominator(w as int, pow2(k) as int, 2);
            assert(pow2(k) * 2 == 2 * pow2(k)) by (nonlinear_arith);
        }
        cur = cur / 2;
    }
    assert(r@ =~= nat_bits(w as nat, n as nat));
    r
}

/// The `len` low bits of `input`, most significant first.
pub fn int_to_boolvec_len(input: usize, len: usize) -> (r: Vec<bool>)
    ensures
        r@ == nat_bits(input as nat, len as nat),
{
    word_bits(input as u64, len)
}

/// The eight bits of `input`, most significant first.
pub fn byte_to_boolvec(input: u8) -> (r: Vec<bool>)
    ensures
        r@ == byte_bits(input),
{
    word_bits(input as u64, 8)
}

/// The byte that the bits in `v` from `start` up to `end` spell, modulo 256.
pub fn range_to_u8(v: &Vec<bool>, start: usize, end: usize) -> (r: u8)
    requires
        start <= end <= v.len(),
    ensures
        r == octet(v@.subrange(start as int, end as int)),
{
    let mut acc: u8 = 0;
    let mut i: usize = start;
    while i < end
        invariant
            start <= i <= end <= v.len(),
            acc == octet(v@.subrange(start as int, i as int)),
        decreases end - i,
    {
        let bit: u8 = if v[i] { 1 } else { 0 };
        proof {
            let next = v@.subrange(start as int, i + 1);
            assert(next.drop_last() =~= v@.subrange(start as int, i as int));
            assert(next.last() == v[i as int]);
        }
        acc = (acc % 128) * 2 + bit;
        i += 1;
    }
    acc
}

/// The number that `input` spells, modulo 256.
pub fn boolvec_to_u8(input: &Vec<bool>) -> (r: u8)
    ensures
        r == octet(input@),
{
    assert(input@.subrange(0, input.len() as int) =~= input@);
    range_to_u8(input, 0, input.len())
}

/// Componentwise exclusive or.
pub fn xor_boolvec(l: &Vec<bool>, r: &Vec<bool>) -> (res: Vec<bool>)
    requires
        l.len() == r.len(),
    ensures
        res@ == xor_bits(l@, r@),
{
    let mut res: Vec<bool> = Vec::new();
    let mut i: usize = 0;
    while i < l.len()
        invariant
            i <= l.len(),
            l.len() == r.len(),
            res@ =~= Seq::new(i as nat, |j: int| l[j] != r[j]),
        decreases l.len() - i,
    {
        res.push(l[i] ^ r[i]);
        i += 1;
    }
    assert(res@ =~= xor_bits(l@, r@));
    res
}

/// The matrix with rows and columns exchanged.
pub fn transpose(matrix: &Vec<Vec<bool>>) -> (r: Vec<Vec<bool>>)
    requires
        matrix.len() > 0,
        is_matrix(rows(matrix@), matrix.len() as nat, matrix[0].len() as nat),
    ensures
        rows(r@) == transposed(rows(matrix@)),
{
    let outer_axis = matrix.len();
    let inner_axis = matrix[0].len();
    let mut m_transp: Vec<Vec<bool>> = Vec::new();
    let mut row: usize = 0;
    while row < inner_axis
        invariant
            row <= inner_axis,
            outer_axis == matrix.len(),
            outer_axis > 0,
            inner_axis == matrix[0].len(),
            is_matrix(rows(matrix@), outer_axis as nat, inner_axis as nat),
            m_transp.len() == row,
            forall|i: int|
                0 <= i < row ==> (#[trigger] m_transp[i])@ == Seq::new(
                    outer_axis as nat,
                    |j: int| matrix[j][i],
                ),
        decreases inner_axis - row,
    {
        let mut inner: Vec<bool> = Vec::new();
        let mut col: usize = 0;
        while col < outer_axis
            invariant
                col <= outer_axis,
                row < inner_axis,
                outer_axis == matrix.len(),
                is_matrix(rows(matrix@), outer_axis as nat, inner_axis as nat),
                inner@ =~= Seq::new(col as nat, |j: int| matrix[j][row as int]),
            decreases outer_axis - col,
        {
            assert(rows(matrix@)[col as int].len() == inner_axis);
            inner.push(matrix[col][row]);
            col += 1;
        }
        m_transp.push(inner);
        row += 1;
    }
    proof {
        let t = transposed(rows(matrix@));
        assert(rows(matrix@)[0] == matrix[0]@);
        assert(t.len() == inner_axis);
        assert forall|i: int| 0 <= i < inner_axis implies rows(m_transp@)[i] =~= t[i] by {
            assert(m_transp[i]@.len() == outer_axis);
        }
        assert(rows(m_transp@) =~= t);
    }
    m_transp
}

/// Exchanging rows and columns twice gives the matrix back, for a matrix with
/// at least one row and one column.
pub proof fn lemma_transpose_twice(m: Seq<Seq<bool>>, r: nat, c: nat)
    requires
        r > 0,
        c > 0,
        is_matrix(m, r, c),
    ensures
        is_matrix(transposed(m), c, r),
        transposed(transposed(m)) == m,
{
    let t = transposed(m);
    let tt = transposed(t);
    assert(m[0].len() == c);
    assert(t[0].len() == r);
    assert forall|i: int| 0 <= i < r implies tt[i] =~= #[trigger] m[i] by {
        assert(m[i].len() == c);
    }
    assert(tt =~= m);
}

/// The bits of `v` packed into bytes, the first bit the most significant of
/// the first byte; a length that is no multiple of eight is made up by zero
/// bits in front.
pub fn bool_vec_to_byte_vec(v: &Vec<bool>) -> (r: Vec<u8>)
    ensures
        r@ == bits_bytes(v@),
{
    let len = v.len();
    let head = len % 8;
    let ghost pad: int = (8 - head as int) % 8;
    let ghost p = pad8(v@);
    let mut out: Vec<u8> = Vec::new();
    if head > 0 {
        let first = range_to_u8(v, 0, head);
        proof {
            let chunk = v@.subrange(0, head as int);
            assert(p.subrange(0, 8) =~= zeros(pad as nat) + chunk);
            lemma_bits_nat_leading_zeros(pad as nat, chunk);
        }
        out.push(first);
    }
    let mut i: usize = head;
    while i < len
        invariant
            head <= i <= len,
            len == v.len(),
            head == len % 8,
            pad == (8 - head as int) % 8,
            p == pad8(v@),
            (i - head) % 8 == 0,
            out.len() == (i + pad) / 8,
            forall|k: int| 0 <= k < out.len() ==> out[k] == octet(p.subrange(8 * k, 8 * k + 8)),
        decreases len - i,
    {
        let byte = range_to_u8(v, i, i + 8);
        proof {
            let k = out.len() as int;
            assert(p.subrange(8 * k, 8 * k + 8) =~= v@.subrange(i as int, i + 8));
        }
        out.push(byte);
        i += 8;
    }
    assert(out@ =~= bits_bytes(v@));
    out
}

/// The bits of `v`, eight for each byte, most significant first.
pub fn byte_vec_to_bool_vec(v: &Vec<u8>) -> (r: Vec<bool>)
    ensures
        r@ == bytes_bits(v@),
{
    let mut out: Vec<bool> = Vec::new();
    let mut i: usize = 0;
    while i < v.len()
        invariant
            i <= v.len(),
            out.len() == 8 * i,
            forall|j: int|
                0 <= j < out.len() ==> out[j] == nat_bit(v[j / 8] as nat, (7 - j % 8) as nat),
        decreases v.len() - i,
    {
        let x = v[i];
        out.push(get_bit(x, 7));
        out.push(get_bit(x, 6));
        out.push(get_bit(x, 5));
        out.push(get_bit(x, 4));
        out.push(get_bit(x, 3));
        out.push(get_bit(x, 2));
        out.push(get_bit(x, 1));
        out.push(get_bit(x, 0));
        i += 1;
    }
    assert(out@ =~= bytes_bits(v@));
    out
}

/// The bits of `v`, sixty-four for each word, most significant first.
pub fn int_vec_to_bool_vec(v: &Vec<u64>) -> (r: Vec<bool>)
    ensures
        r@ == words_bits(v@),
{
    let mut out: Vec<bool> = Vec::new();
    let mut i: usize = 0;
    while i < v.len()
        invariant
            i <= v.len(),
            out.len() == 64 * i,
            forall|j: int|
                0 <= j < out.len() ==> out[j] == nat_bit(v[j / 64] as nat, (63 - j % 64) as nat),
        decreases v.len() - i,
    {
        let mut word = word_bits(v[i], 64);
        let ghost before = out@;
        out.append(&mut word);
        proof {
            assert forall|j: int| 0 <= j < out.len() implies out[j] == nat_bit(
                v[j / 64] as nat,
                (63 - j % 64) as nat,
            ) by {
                if j >= before.len() {
                    assert(out[j] == nat_bits(v[i as int] as nat, 64)[j - before.len()]);
                }
            }
        }
        i += 1;
    }
    assert(out@ =~= words_bits(v@));
    out
}

/// The sixty-four bits of `i`, most significant first.
pub fn int_to_bool_vec(i: usize) -> (r: Vec<bool>)
    ensures
        r@ == nat_bits(i as nat, 64),
{
    word_bits(i as u64, 64)
}

/// The byte that the eight bits of `x` spell is `x`.
pub proof fn lemma_octet_of_byte_bits(x: u8)
    ensures
        octet(byte_bits(x)) == x,
{
    lemma2_to64();
    lemma_bits_of_nat(x as nat, 8);
}

/// The bits of the byte that eight bits spell are those eight bits.
pub proof fn lemma_byte_bits_of_octet(c: Seq<bool>)
    requires
        c.len() == 8,
    ensures
        byte_bits(octet(c)) == c,
{
    lemma2_to64();
    lemma_bits_nat_bound(c);
    lemma_nat_of_bits(c);
}

/// Packing bits into bytes and unpacking the bytes gives the bits back, where
/// their number is a multiple of eight.
pub proof fn lemma_unpack_pack(b: Seq<bool>)
    requires
        b.len() % 8 == 0,
    ensures
        bytes_bits(bits_bytes(b)) == b,
{
    assert(pad8(b) =~= b);
    let u = bytes_bits(bits_bytes(b));
    assert forall|i: int| 0 <= i < b.len() implies u[i] == b[i] by {
        let k = i / 8;
        let c = b.subrange(8 * k, 8 * k + 8);
        lemma_byte_bits_of_octet(c);
        assert(byte_bits(octet(c))[i % 8] == c[i % 8]);
    }
    assert(u =~= b);
}

/// Unpacking bytes into bits and packing the bits gives the bytes back.
pub proof fn lemma_pack_unpack(v: Seq<u8>)
    ensures
        bits_bytes(bytes_bits(v)) == v,
{
    let b = bytes_bits(v);
    assert(pad8(b) =~= b);
    let w = bits_bytes(b);
    assert forall|k: int| 0 <= k < v.len() implies w[k] == v[k] by {
        assert(b.subrange(8 * k, 8 * k + 8) =~= byte_bits(v[k]));
        lemma_octet_of_byte_bits(v[k]);
    }
    assert(w =~= v);
}

/// The array that holds the items of `v`. Calls `TryInto::try_into` of std,
/// which gives the array where the vector has exactly `N` items; the contract
/// asks for that length, and claims that the array holds the same items in
/// the same order.
#[verifier::external_body]
pub fn to_array<T, const N: usize>(v: Vec<T>) -> (r: [T; N])
    requires
        v.len() == N,
    ensures
        r@ == v@,
{
    let converted: Result<[T; N], Vec<T>> = v.try_into();
    converted.ok().unwrap()
}

/// Calls `Sha3_256::digest` of the crate sha3 on `data`. The contract claims
/// that the result is the 32-byte SHA3-256 digest of `data`.
#[verifier::external_body]
fn sha3_256(data: &Vec<u8>) -> (r: Vec<u8>)
    ensures
        r@ == sha3_256_digest(data@),
        r.len() == 32,
{
    <sha3::Sha3_256 as sha3::Digest>::digest(&data[..]).to_vec()
}

/// Calls `ChaCha20Rng::from_seed` of the crate rand_chacha with `key`, then
/// `fill_bytes` on a buffer of `n` bytes. The contract claims that the `n`
/// bytes are a function of the key and of `n`.
#[verifier::external_body]
fn chacha20_fill(key: [u8; 32], n: usize) -> (r: Vec<u8>)
    ensures
        r@ == chacha20_stream(key@, n as nat),
        r.len() == n,
{
    let mut rng = <rand_chacha::ChaCha20Rng as rand::SeedableRng>::from_seed(key);
    let mut res: Vec<u8> = vec![0u8; n];
    rand::RngCore::fill_bytes(&mut rng, &mut res[..]);
    res
}

/// Calls `Aes128Ctr128::from_seed` of the crate rand_aes with `key` and the
/// counter zero, then `fill_bytes` on a buffer of `n` bytes. The contract
/// claims that the `n` bytes are a function of the key and of `n`.
#[verifier::external_body]
fn aes128_fill(key: [u8; 16], n: usize) -> (r: Vec<u8>)
    ensures
        r@ == aes128_ctr_stream(key@, n as nat),
        r.len() == n,
{
    let seed = rand_aes::seeds::Aes128Ctr128Seed::new(key, 0);
    let rng = <rand_aes::Aes128Ctr128 as rand_aes::Random>::from_seed(seed);
    let mut res: Vec<u8> = vec![0u8; n];
    rand_aes::Random::fill_bytes(&rng, &mut res[..]);
    res
}

/// Calls `Aes256Ctr128::from_seed` of the crate rand_aes with `key` and the
/// counter zero, then `fill_bytes` on a buffer of `n` bytes. The contract
/// claims that the `n` bytes are a function of the key and of `n`.
#[verifier::external_body]
fn aes256_fill(key: [u8; 32], n: usize) -> (r: Vec<u8>)
    ensures
        r@ == aes256_ctr_stream(key@, n as nat),
        r.len() == n,
{
    let seed = rand_aes::seeds::Aes256Ctr128Seed::new(key, 0);
    let rng = <rand_aes::Aes256Ctr128 as rand_aes::Random>::from_seed(seed);
    let mut res: Vec<u8> = vec![0u8; n];
    rand_aes::Random::fill_bytes(&rng, &mut res[..]);
    res
}

/// Calls `RngCore::try_fill_bytes` of the crate rand on the thread's
/// generator, with a buffer of `n` bytes. Of the bytes the contract claims
/// only their number.
#[verifier::external_body]
fn random_bytes(n: usize) -> (r: Vec<u8>)
    ensures
        r.len() == n,
{
    let mut res: Vec<u8> = vec![0u8; n];
    rand::RngCore::try_fill_bytes(&mut rand::thread_rng(), &mut res[..]).ok();
    res
}

/// Calls `random` of the crate rand for one bit. The contract claims nothing
/// of it.
#[verifier::external_body]
pub(crate) fn random_bool() -> (r: bool) {
    rand::random()
}

/// The hash of two bit vectors: the bits of the SHA3-256 digest of the bytes
/// that `v` packs into, followed by those that `j` packs into.
pub open spec fn hash_of(v: Seq<bool>, j: Seq<bool>) -> Seq<bool> {
    bytes_bits(sha3_256_digest(bits_bytes(v) + bits_bytes(j)))
}

/// The hash of `v` and `j`, 256 bits. Equal inputs give equal hashes: the
/// result is a function of the packed bytes of `v` followed by those of `j`.
pub fn hash_bits(v: &Vec<bool>, j: &Vec<bool>) -> (r: Vec<bool>)
    ensures
        r@ == hash_of(v@, j@),
        r.len() == OUTPUT_SIZE,
{
    let mut data = bool_vec_to_byte_vec(v);
    let mut second = bool_vec_to_byte_vec(j);
    data.append(&mut second);
    let output = sha3_256(&data);
    byte_vec_to_bool_vec(&output)
}

/// The key bits that a seed stands for under ChaCha20: a seed of 256 bits
/// itself, a seed of 128 bits twice.
pub open spec fn chacha_key_bits(seed: Seq<bool>) -> Seq<bool> {
    if seed.len() == 128 {
        seed + seed
    } else {
        seed
    }
}

/// The first `n` bits of the ChaCha20 key stream for `seed`.
pub open spec fn prg_chacha(seed: Seq<bool>, n: nat) -> Seq<bool> {
    bytes_bits(chacha20_stream(bits_bytes(chacha_key_bits(seed)), (n + 7) / 8)).take(n as int)
}

/// The first `n` bits that AES in counter mode gives for `seed`: AES-128 for
/// a seed of 128 bits, AES-256 for one of 256.
pub open spec fn prg_aes(seed: Seq<bool>, n: nat) -> Seq<bool> {
    if seed.len() == 128 {
        bytes_bits(aes128_ctr_stream(bits_bytes(seed), (n + 7) / 8)).take(n as int)
    } else {
        bytes_bits(aes256_ctr_stream(bits_bytes(seed), (n + 7) / 8)).take(n as int)
    }
}

/// The first `n` bits of the pseudorandom stream of `seed`.
pub open spec fn prg(seed: Seq<bool>, n: nat) -> Seq<bool> {
    if USE_AES {
        prg_aes(seed, n)
    } else {
        prg_chacha(seed, n)
    }
}

/// A seed has 128 or 256 bits.
pub open spec fn is_seed(seed: Seq<bool>) -> bool {
    seed.len() == 128 || seed.len() == 256
}

/// The first `n` bits of `v`.
pub fn first_bits(v: Vec<bool>, n: usize) -> (r: Vec<bool>)
    requires
        n <= v.len(),
    ensures
        r@ == v@.take(n as int),
{
    let mut out = v;
    out.truncate(n);
    assert(out@ =~= v@.take(n as int));
    out
}

/// The number of bytes that hold `n` bits.
pub fn bytes_for(n: usize) -> (r: usize)
    ensures
        r == (n + 7) / 8,
{
    if n % 8 == 0 {
        n / 8
    } else {
        n / 8 + 1
    }
}

/// `num` pseudorandom bits from `seed`, by ChaCha20. Equal seeds and numbers
/// give equal bits.
pub fn pseudo_random_gen_cha_cha(seed: &Vec<bool>, num: usize) -> (r: Vec<bool>)
    requires
        is_seed(seed@),
    ensures
        r@ == prg_chacha(seed@, num as nat),
        r.len() == num,
{
    let mut s = seed.clone();
    if seed.len() == 128 {
        let mut again = seed.clone();
        s.append(&mut again);
    }
    assert(s@ =~= chacha_key_bits(seed@));
    let bytes = bool_vec_to_byte_vec(&s);
    let key: [u8; 32] = to_array(bytes);
    let res = chacha20_fill(key, bytes_for(num));
    first_bits(byte_vec_to_bool_vec(&res), num)
}

/// `num` pseudorandom bits from `seed`, by AES in counter mode. Equal seeds
/// and numbers give equal bits.
pub fn pseudo_random_gen_aes(seed: &Vec<bool>, num: usize) -> (r: Vec<bool>)
    requires
        is_seed(seed@),
    ensures
        r@ == prg_aes(seed@, num as nat),
        r.len() == num,
{
    let bytes = bool_vec_to_byte_vec(seed);
    if seed.len() == 128 {
        let key: [u8; 16] = to_array(bytes);
        let res = aes128_fill(key, bytes_for(num));
        first_bits(byte_vec_to_bool_vec(&res), num)
    } else {
        let key: [u8; 32] = to_array(bytes);
        let res = aes256_fill(key, bytes_for(num));
        first_bits(byte_vec_to_bool_vec(&res), num)
    }
}

/// `num` pseudorandom bits from `seed`. Equal seeds and numbers give equal
/// bits.
pub fn pseudo_random_gen(seed: &Vec<bool>, num: usize) -> (r: Vec<bool>)
    requires
        is_seed(seed@),
    ensures
        r@ == prg(seed@, num as nat),
        r.len() == num,
{
    if USE_AES {
        pseudo_random_gen_aes(seed, num)
    } else {
        pseudo_random_gen_cha_cha(seed, num)
    }
}

/// Random bits: as many as the bytes that hold `m` bits have.
pub fn random_boolvec_len(m: usize) -> (r: Vec<bool>)
    ensures
        r.len() == 8 * ((m + 7) / 8),
{
    let res = random_bytes(bytes_for(m));
    byte_vec_to_bool_vec(&res)
}

/// The message of pair `j` that the choice bit `j` names.
pub open spec fn picked(messages: Seq<(Vec<bool>, Vec<bool>)>, choice: Seq<bool>, j: int) -> Seq<
    bool,
> {
    if choice[j] {
        messages[j].1@
    } else {
        messages[j].0@
    }
}

/// Every message of every pair has `len` bits.
pub open spec fn uniform(messages: Seq<(Vec<bool>, Vec<bool>)>, len: nat) -> bool {
    forall|j: int|
        0 <= j < messages.len() ==> (#[trigger] messages[j]).0.len() == len && messages[j].1.len()
            == len
}

/// Whether every message of every pair has `len` bits.
pub fn lengths_agree(messages: &Vec<(Vec<bool>, Vec<bool>)>, len: usize) -> (r: bool)
    ensures
        r == uniform(messages@, len as nat),
{
    let mut j: usize = 0;
    while j < messages.len()
        invariant
            j <= messages.len(),
            forall|i: int|
                0 <= i < j ==> (#[trigger] messages[i]).0.len() == len && messages[i].1.len()
                    == len,
        decreases messages.len() - j,
    {
        if messages[j].0.len() != len || messages[j].1.len() != len {
            return false;
        }
        j += 1;
    }
    true
}

/// `x` masked by the hash of the index `j` and of `row`.
pub open spec fn mask(x: Seq<bool>, j: nat, row: Seq<bool>) -> Seq<bool> {
    xor_bits(x, hash_of(nat_bits(j, 64), row))
}

/// The sender's matrix against the receiver's: row `j` of `q` is row `j` of
/// `t`, with `s` added where the choice bit `j` is set. Both have a row of
/// as many bits as `s` for each choice bit.
pub open spec fn correlated(
    q: Seq<Seq<bool>>,
    t: Seq<Seq<bool>>,
    choice: Seq<bool>,
    s: Seq<bool>,
) -> bool {
    &&& is_matrix(q, choice.len(), s.len())
    &&& is_matrix(t, choice.len(), s.len())
    &&& forall|j: int, i: int|
        0 <= j < choice.len() && 0 <= i < s.len() ==> (#[trigger] q[j][i]) == (t[j][i] != (choice[j]
            && s[i]))
}

/// The two ciphertexts of each pair of messages: the first message masked
/// by the hash of its index and its row of `q`, the second by the hash of
/// its index and that row with `s` added.
pub fn mask_messages(
    messages: &Vec<(Vec<bool>, Vec<bool>)>,
    q: &Vec<Vec<bool>>,
    s: &Vec<bool>,
) -> (y: Vec<(Vec<bool>, Vec<bool>)>)
    requires
        uniform(messages@, OUTPUT_SIZE as nat),
        is_matrix(rows(q@), messages.len() as nat, s.len() as nat),
    ensures
        y.len() == messages.len(),
        forall|j: int|
            0 <= j < messages.len() ==> (#[trigger] y[j]).0@ == mask(
                messages[j].0@,
                j as nat,
                q[j]@,
            ) && y[j].1@ == mask(messages[j].1@, j as nat, xor_bits(q[j]@, s@)),
{
    let mut y: Vec<(Vec<bool>, Vec<bool>)> = Vec::new();
    let mut j: usize = 0;
    while j < messages.len()
        invariant
            j <= messages.len(),
            uniform(messages@, OUTPUT_SIZE as nat),
            is_matrix(rows(q@), messages.len() as nat, s.len() as nat),
            y.len() == j,
            forall|i: int|
                0 <= i < j ==> (#[trigger] y[i]).0@ == mask(messages[i].0@, i as nat, q[i]@)
                    && y[i].1@ == mask(messages[i].1@, i as nat, xor_bits(q[i]@, s@)),
        decreases messages.len() - j,
    {
        assert(rows(q@)[j as int].len() == s.len());
        assert(messages[j as int].0.len() == OUTPUT_SIZE);
        let index = int_to_bool_vec(j);
        let yj_0 = xor_boolvec(&messages[j].0, &hash_bits(&index, &q[j]));
        let yj_1 = xor_boolvec(&messages[j].1, &hash_bits(&index, &xor_boolvec(&q[j], s)));
        y.push((yj_0, yj_1));
        j += 1;
    }
    y
}

/// Of each pair of ciphertexts the one that the choice bit names, with the
/// mask of its index and its row of `t` taken off.
pub fn unmask_messages(y: &Vec<(Vec<bool>, Vec<bool>)>, t: &Vec<Vec<bool>>, choice: &Vec<bool>) -> (z:
    Vec<Vec<bool>>)
    requires
        uniform(y@, OUTPUT_SIZE as nat),
        y.len() == choice.len(),
        t.len() == choice.len(),
    ensures
        z.len() == choice.len(),
        forall|j: int|
            0 <= j < choice.len() ==> (#[trigger] z[j])@ == mask(
                if choice[j] {
                    y[j].1@
                } else {
                    y[j].0@
                },
                j as nat,
                t[j]@,
            ),
{
    let mut z: Vec<Vec<bool>> = Vec::new();
    let mut j: usize = 0;
    while j < choice.len()
        invariant
            j <= choice.len(),
            uniform(y@, OUTPUT_SIZE as nat),
            y.len() == choice.len(),
            t.len() == choice.len(),
            z.len() == j,
            forall|i: int|
                0 <= i < j ==> (#[trigger] z[i])@ == mask(
                    if choice[i] {
                        y[i].1@
                    } else {
                        y[i].0@
                    },
                    i as nat,
                    t[i]@,
                ),
        decreases choice.len() - j,
    {
        assert(y[j as int].0.len() == OUTPUT_SIZE);
        let h = hash_bits(&int_to_bool_vec(j), &t[j]);
        let zj = if choice[j] {
            xor_boolvec(&y[j].1, &h)
        } else {
            xor_boolvec(&y[j].0, &h)
        };
        z.push(zj);
        j += 1;
    }
    z
}

/// With matrices that are correlated, taking the receiver's mask off the
/// chosen ciphertext gives the chosen message.
pub proof fn lemma_unmask_chosen(
    x: (Seq<bool>, Seq<bool>),
    j: nat,
    c: bool,
    q_row: Seq<bool>,
    t_row: Seq<bool>,
    s: Seq<bool>,
)
    requires
        q_row.len() == s.len(),
        t_row.len() == s.len(),
        forall|i: int| 0 <= i < s.len() ==> q_row[i] == (t_row[i] != (c && s[i])),
    ensures
        mask(
            if c {
                mask(x.1, j, xor_bits(q_row, s))
            } else {
                mask(x.0, j, q_row)
            },
            j,
            t_row,
        ) == (if c {
            x.1
        } else {
            x.0
        }),
{
    if c {
        assert(xor_bits(q_row, s) =~= t_row);
        assert(mask(mask(x.1, j, t_row), j, t_row) =~= x.1);
    } else {
        assert(q_row =~= t_row);
        assert(mask(mask(x.0, j, t_row), j, t_row) =~= x.0);
    }
}

/// `n` random bits.
pub fn random_bits(n: usize) -> (r: Vec<bool>)
    ensures
        r.len() == n,
{
    let mut r: Vec<bool> = Vec::new();
    let mut i: usize = 0;
    while i < n
        invariant
            i <= n,
            r.len() == i,
        decreases n - i,
    {
        r.push(random_bool());
        i += 1;
    }
    r
}

/// `m` pairs of random messages, each of 256 bits.
pub fn random_messages(m: usize) -> (r: Vec<(Vec<bool>, Vec<bool>)>)
    ensures
        r.len() == m,
        uniform(r@, OUTPUT_SIZE as nat),
{
    let mut out: Vec<(Vec<bool>, Vec<bool>)> = Vec::new();
    let mut i: usize = 0;
    while i < m
        invariant
            i <= m,
            out.len() == i,
            uniform(out@, OUTPUT_SIZE as nat),
        decreases m - i,
    {
        out.push((random_boolvec_len(OUTPUT_SIZE), random_boolvec_len(OUTPUT_SIZE)));
        i += 1;
    }
    out
}

} // verus!
