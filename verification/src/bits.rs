//! The arithmetic reading of bit vectors: a vector is a number written most
//! significant bit first.
use vstd::arithmetic::div_mod::*;
use vstd::arithmetic::power2::*;
use vstd::prelude::*;

verus! {

/// The number that `b` spells, most significant bit first.
pub open spec fn bits_nat(b: Seq<bool>) -> nat
    decreases b.len(),
{
    if b.len() == 0 {
        0
    } else {
        2 * bits_nat(b.drop_last()) + (if b.last() { 1nat } else { 0nat })
    }
}

/// Bit `pos` of `v`, where bit 0 is the least significant.
pub open spec fn nat_bit(v: nat, pos: nat) -> bool {
    (v / pow2(pos)) % 2 == 1
}

/// The `n` low bits of `v`, most significant first.
pub open spec fn nat_bits(v: nat, n: nat) -> Seq<bool> {
    Seq::new(n, |j: int| nat_bit(v, (n - 1 - j) as nat))
}

/// `n` zero bits.
pub open spec fn zeros(n: nat) -> Seq<bool> {
    Seq::new(n, |j: int| false)
}

/// Componentwise exclusive or of two vectors of equal length.
pub open spec fn xor_bits(l: Seq<bool>, r: Seq<bool>) -> Seq<bool> {
    Seq::new(l.len(), |j: int| l[j] != r[j])
}

/// The `n` low bits of `v` are the `n - 1` low bits of half of `v`, and
/// then the lowest bit of `v`.
pub proof fn lemma_nat_bits_step(v: nat, n: nat)
    requires
        n > 0,
    ensures
        nat_bits(v, n) =~= nat_bits(v / 2, (n - 1) as nat).push(v % 2 == 1),
{
    lemma2_to64();
    assert forall|j: int| 0 <= j < n - 1 implies #[trigger] nat_bits(v, n)[j] == nat_bits(
        v / 2,
        (n - 1) as nat,
    )[j] by {
        let k = (n - 2 - j) as nat;
        lemma_pow2_unfold(k + 1);
        lemma_pow2_pos(k);
        lemma_div_denominator(v as int, 2, pow2(k) as int);
    }
    assert(pow2(0) == 1);
    assert(nat_bits(v, n)[n - 1] == nat_bit(v, 0));
    assert(v / 1 == v);
    let shorter = nat_bits(v / 2, (n - 1) as nat).push(v % 2 == 1);
    assert(shorter.len() == n);
    assert forall|j: int| 0 <= j < n implies nat_bits(v, n)[j] == shorter[j] by {
        if j < n - 1 {
            assert(nat_bits(v, n)[j] == nat_bits(v / 2, (n - 1) as nat)[j]);
        }
    }
}

/// A vector of `n` bits spells a number below `2^n`.
pub proof fn lemma_bits_nat_bound(b: Seq<bool>)
    ensures
        bits_nat(b) < pow2(b.len()),
    decreases b.len(),
{
    lemma2_to64();
    if b.len() > 0 {
        lemma_bits_nat_bound(b.drop_last());
        lemma_pow2_unfold(b.len());
    }
}

/// Writing the `n` low bits of `v` and reading them back gives `v` modulo `2^n`.
pub proof fn lemma_bits_of_nat(v: nat, n: nat)
    ensures
        bits_nat(nat_bits(v, n)) == v % pow2(n),
    decreases n,
{
    lemma2_to64();
    if n > 0 {
        lemma_nat_bits_step(v, n);
        let rest = nat_bits(v / 2, (n - 1) as nat);
        assert(rest.push(v % 2 == 1).drop_last() =~= rest);
        lemma_bits_of_nat(v / 2, (n - 1) as nat);
        lemma_pow2_unfold(n);
        lemma_pow2_pos((n - 1) as nat);
        let h = pow2((n - 1) as nat) as int;
        // v % (2h) == 2 * ((v / 2) % h) + v % 2
        lemma_fundamental_div_mod(v as int, 2);
        lemma_fundamental_div_mod((v / 2) as int, h);
        let a = (v as int / 2) / h;
        let r = (v as int / 2) % h;
        assert(v as int == (2 * h) * a + (2 * r + v as int % 2)) by (nonlinear_arith)
            requires
                v as int == 2 * (v as int / 2) + v as int % 2,
                v as int / 2 == h * a + r,
        ;
        lemma_mod_multiples_vanish(a, 2 * r + v as int % 2, 2 * h);
        lemma_small_mod((2 * r + v as int % 2) as nat, (2 * h) as nat);
    }
}

/// Reading a vector as a number and writing that number's bits gives the vector back.
pub proof fn lemma_nat_of_bits(b: Seq<bool>)
    ensures
        nat_bits(bits_nat(b), b.len()) =~= b,
    decreases b.len(),
{
    if b.len() > 0 {
        lemma_nat_of_bits(b.drop_last());
        lemma_nat_bits_step(bits_nat(b), b.len());
        assert(b =~= b.drop_last().push(b.last()));
    }
}

/// Two vectors of one length that spell the same number are the same vector.
pub proof fn lemma_bits_nat_injective(a: Seq<bool>, b: Seq<bool>)
    requires
        a.len() == b.len(),
        bits_nat(a) == bits_nat(b),
    ensures
        a =~= b,
{
    lemma_nat_of_bits(a);
    lemma_nat_of_bits(b);
}

/// Zero bits in front do not change the number.
pub proof fn lemma_bits_nat_leading_zeros(n: nat, b: Seq<bool>)
    ensures
        bits_nat(zeros(n) + b) == bits_nat(b),
    decreases b.len(),
{
    if b.len() == 0 {
        assert(zeros(n) + b =~= zeros(n));
        lemma_bits_nat_zeros(n);
    } else {
        assert((zeros(n) + b).drop_last() =~= zeros(n) + b.drop_last());
        lemma_bits_nat_leading_zeros(n, b.drop_last());
    }
}

/// Zero bits spell zero.
pub proof fn lemma_bits_nat_zeros(n: nat)
    ensures
        bits_nat(zeros(n)) == 0,
    decreases n,
{
    if n > 0 {
        assert(zeros(n).drop_last() =~= zeros((n - 1) as nat));
        lemma_bits_nat_zeros((n - 1) as nat);
    }
}

} // verus!
