//! The extension of oblivious transfer that is light on the network: the
//! transfers in the group carry short seeds only, and both sides stretch
//! the seeds to the columns of their matrices.
use crate::bits::{bits_nat, lemma_bits_nat_bound, lemma_nat_of_bits, xor_bits};
use crate::common::{
    correlated, is_matrix, is_seed, lemma_unmask_chosen, lengths_agree, mask, mask_messages,
    picked, prg, pseudo_random_gen, random_bits, rows, transpose, transposed, uniform,
    unmask_messages, xor_boolvec, OUTPUT_SIZE,
};
use crate::ot_primitive::{
    chosen, commit_choice, create_secret_keys, in_range, lemma_all_transfer, numbers_of,
    pairs_wf, params_wf, receive_bits, seals_all, send_bits, OTParams, OtError, PublicKey,
    SafePrimeGroup,
};
use vstd::arithmetic::power2::*;
use vstd::prelude::*;

verus! {

/// The receiver of the extension: a pair of seeds for each column, and the
/// choice bits.
pub struct Receiver {
    pub k: Vec<(Vec<bool>, Vec<bool>)>,
    pub choice_bits: Vec<bool>,
}

/// The sender of the extension: its secret bits, the pairs of messages, and
/// the seeds that the transfers in the group gave it.
pub struct Sender {
    pub s: Vec<bool>,
    pub messages: Vec<(Vec<bool>, Vec<bool>)>,
    pub k_s: Vec<Vec<bool>>,
}

/// Column `i` of the sender's matrix: the stream of its seed, with the
/// correction `u_i` added where its secret bit is set.
pub open spec fn sender_column(s_i: bool, seed: Seq<bool>, u_i: Seq<bool>, m: nat) -> Seq<bool> {
    if s_i {
        xor_bits(u_i, prg(seed, m))
    } else {
        prg(seed, m)
    }
}

/// The columns of the sender's matrix.
pub open spec fn sender_columns(
    s: Seq<bool>,
    k_s: Seq<Vec<bool>>,
    u: Seq<Vec<bool>>,
    m: nat,
) -> Seq<Seq<bool>> {
    Seq::new(s.len(), |i: int| sender_column(s[i], k_s[i]@, u[i]@, m))
}

/// The columns of the receiver's matrix: the streams of the first seeds.
pub open spec fn receiver_columns(seeds: Seq<(Vec<bool>, Vec<bool>)>, m: nat) -> Seq<Seq<bool>> {
    Seq::new(seeds.len(), |i: int| prg(seeds[i].0@, m))
}

/// The correction for one column: the choice bits, with the streams of both
/// seeds added.
pub open spec fn correction(seed: (Vec<bool>, Vec<bool>), choice: Seq<bool>) -> Seq<bool> {
    xor_bits(choice, xor_bits(prg(seed.0@, choice.len()), prg(seed.1@, choice.len())))
}

impl Receiver {
    /// The receiver has a pair of seeds for each of `k` columns, each seed
    /// of `k` bits, where `k` is 128 or 256.
    pub open spec fn wf(&self, k: nat) -> bool {
        (k == 128 || k == 256) && self.k.len() == k && uniform(self.k@, k)
    }

    /// A receiver with fresh random seeds.
    pub fn initialize(k: usize, choice_bits: Vec<bool>) -> (r: Receiver)
        ensures
            r.choice_bits == choice_bits,
            r.k.len() == k,
            uniform(r.k@, k as nat),
    {
        let mut seeds: Vec<(Vec<bool>, Vec<bool>)> = Vec::new();
        let mut i: usize = 0;
        while i < k
            invariant
                i <= k,
                seeds.len() == i,
                uniform(seeds@, k as nat),
            decreases k - i,
        {
            seeds.push((random_bits(k), random_bits(k)));
            i += 1;
        }
        Receiver { k: seeds, choice_bits }
    }

    /// The receiver's part of the transfers in the group: it seals its
    /// pairs of seeds under the sender's keys.
    pub fn send_ot_primitive(&self, group: &SafePrimeGroup, keys: &Vec<(PublicKey, PublicKey)>) -> (r:
        Result<OTParams, OtError>)
        requires
            group.wf(),
            pairs_wf(keys@, group.p),
            exists|k: nat| self.wf(k),
        ensures
            keys.len() != self.k.len() ==> r == Err::<OTParams, OtError>(OtError::LengthMismatch),
            keys.len() == self.k.len() && !in_range(self.k@, group.p@) ==> r == Err::<
                OTParams,
                OtError,
            >(OtError::EncodingOutOfRange),
            keys.len() == self.k.len() && in_range(self.k@, group.p@) ==> r.is_ok() && params_wf(
                r.unwrap()@,
                group.p,
            ) && seals_all(r.unwrap()@, keys@, numbers_of(self.k@), *group),
    {
        let k = self.k.len();
        assert(k <= 8 * group.p.bytes.len() && uniform(self.k@, k as nat)) by {
            let kk = choose|k: nat| self.wf(k);
            assert(self.wf(kk));
        }
        send_bits(group, keys, &self.k)
    }
}

impl Sender {
    /// A sender with fresh random secret bits, and no seeds yet.
    pub fn initialize(k: usize, messages: Vec<(Vec<bool>, Vec<bool>)>) -> (r: Sender)
        ensures
            r.messages == messages,
            r.s.len() == k,
            r.k_s.len() == 0,
    {
        let s = random_bits(k);
        Sender { s, messages, k_s: Vec::new() }
    }

    /// The sender's part of the transfers in the group: with its secret
    /// bits as choices it receives, of each pair of the receiver's seeds,
    /// the one that its bit names.
    pub fn receive_ot_primitive(&mut self, receiver: &Receiver, group: &SafePrimeGroup)
        requires
            group.wf(),
            receiver.wf(old(self).s.len() as nat),
            pow2(old(self).s.len() as nat) <= group.q@,
        ensures
            final(self).s == old(self).s,
            final(self).messages == old(self).messages,
            final(self).k_s.len() == old(self).s.len(),
            forall|i: int|
                0 <= i < old(self).s.len() ==> (#[trigger] final(self).k_s[i])@ == (if old(
                    self,
                ).s[i] {
                    receiver.k[i].1@
                } else {
                    receiver.k[i].0@
                }),
    {
        let k = self.s.len();
        proof {
            assert forall|i: int| 0 <= i < k implies bits_nat((#[trigger] receiver.k[i]).0@)
                < group.q@ && bits_nat(receiver.k[i].1@) < group.q@ by {
                lemma_bits_nat_bound(receiver.k[i].0@);
                lemma_bits_nat_bound(receiver.k[i].1@);
            }
            assert(in_range(receiver.k@, group.p@));
        }
        let sk = create_secret_keys(group, k);
        let keys = commit_choice(group, &sk, &self.s);
        let res = receiver.send_ot_primitive(group, &keys);
        assert(res.is_ok());
        let sealed = match res {
            Ok(sealed) => sealed,
            Err(_) => Vec::new(),
        };
        proof {
            assert forall|i: int| 0 <= i < k implies (#[trigger] numbers_of(receiver.k@)[i]).0 + 1
                < group.p@ && numbers_of(receiver.k@)[i].1 + 1 < group.p@ by {
                assert(bits_nat(receiver.k[i].0@) < group.q@);
            }
            lemma_all_transfer(*group, keys@, sk@, self.s@, numbers_of(receiver.k@), sealed@);
        }
        let values = receive_bits(group, &sealed, &sk, &self.s, k);
        assert(values.is_ok());
        proof {
            assert forall|i: int| 0 <= i < k implies (#[trigger] values.unwrap()[i])@ == (if self.s[i] {
                receiver.k[i].1@
            } else {
                receiver.k[i].0@
            }) by {
                assert(bits_nat(receiver.k[i].0@) < group.q@);
                assert(receiver.k[i].0.len() == k);
                lemma_nat_of_bits(receiver.k[i].0@);
                lemma_nat_of_bits(receiver.k[i].1@);
                assert(chosen(numbers_of(receiver.k@)[i], self.s[i]) < group.q@);
            }
        }
        self.k_s = match values {
            Ok(values) => values,
            Err(_) => Vec::new(),
        };
    }

    /// The sender's last move: from the receiver's corrections `u` it
    /// builds its matrix, column by column, and masks each pair of messages
    /// with the hashes of its row.
    pub fn receive_vectors(&self, u: Vec<Vec<bool>>) -> (y: Vec<(Vec<bool>, Vec<bool>)>)
        requires
            self.s.len() > 0,
            self.k_s.len() == self.s.len(),
            u.len() == self.s.len(),
            forall|i: int| 0 <= i < self.s.len() ==> is_seed((#[trigger] self.k_s[i])@),
            is_matrix(rows(u@), self.s.len() as nat, self.messages.len() as nat),
            uniform(self.messages@, OUTPUT_SIZE as nat),
        ensures
            uniform(y@, OUTPUT_SIZE as nat),
            y.len() == self.messages.len(),
            forall|j: int|
                0 <= j < self.messages.len() ==> (#[trigger] y[j]).0@ == mask(
                    self.messages[j].0@,
                    j as nat,
                    transposed(
                        sender_columns(self.s@, self.k_s@, u@, self.messages.len() as nat),
                    )[j],
                ) && y[j].1@ == mask(
                    self.messages[j].1@,
                    j as nat,
                    xor_bits(
                        transposed(
                            sender_columns(self.s@, self.k_s@, u@, self.messages.len() as nat),
                        )[j],
                        self.s@,
                    ),
                ),
    {
        let m = self.messages.len();
        let k = self.s.len();
        let mut q: Vec<Vec<bool>> = Vec::new();
        let mut i: usize = 0;
        while i < k
            invariant
                i <= k,
                k == self.s.len(),
                m == self.messages.len(),
                self.k_s.len() == k,
                u.len() == k,
                forall|i: int| 0 <= i < k ==> is_seed((#[trigger] self.k_s[i])@),
                is_matrix(rows(u@), k as nat, m as nat),
                q.len() == i,
                forall|j: int|
                    0 <= j < i ==> (#[trigger] q[j])@ == sender_column(
                        self.s[j],
                        self.k_s[j]@,
                        u[j]@,
                        m as nat,
                    ) && q[j].len() == m,
            decreases k - i,
        {
            assert(rows(u@)[i as int].len() == m);
            let g = pseudo_random_gen(&self.k_s[i], m);
            if self.s[i] {
                q.push(xor_boolvec(&u[i], &g));
            } else {
                q.push(g);
            }
            i += 1;
        }
        assert(rows(q@) =~= sender_columns(self.s@, self.k_s@, u@, m as nat));
        let q_transp = transpose(&q);
        let y = mask_messages(&self.messages, &q_transp, &self.s);
        proof {
            assert forall|j: int| 0 <= j < m implies (#[trigger] y[j]).0.len() == OUTPUT_SIZE
                && y[j].1.len() == OUTPUT_SIZE by {
                assert(self.messages[j].0.len() == OUTPUT_SIZE);
            }
            assert forall|j: int| 0 <= j < m implies q_transp[j]@ == transposed(rows(q@))[j] by {
                assert(rows(q_transp@)[j] == q_transp[j]@);
            }
        }
        y
    }
}

/// The sender's matrix against the receiver's, where the sender holds of
/// each pair of seeds the one that its secret bit names and the receiver
/// has sent its corrections: row `j` of the sender's matrix is row `j` of
/// the receiver's, with the sender's secret bits added where the choice
/// bit `j` is set. Every stream is taken to have as many bits as were
/// asked for.
pub proof fn lemma_matrices_correlated(
    seeds: Seq<(Vec<bool>, Vec<bool>)>,
    choice: Seq<bool>,
    s: Seq<bool>,
    k_s: Seq<Vec<bool>>,
    u: Seq<Vec<bool>>,
)
    requires
        s.len() > 0,
        seeds.len() == s.len(),
        k_s.len() == s.len(),
        u.len() == s.len(),
        forall|i: int|
            0 <= i < s.len() ==> prg((#[trigger] seeds[i]).0@, choice.len()).len() == choice.len()
                && prg(seeds[i].1@, choice.len()).len() == choice.len(),
        forall|i: int|
            0 <= i < s.len() ==> (#[trigger] k_s[i])@ == (if s[i] {
                seeds[i].1@
            } else {
                seeds[i].0@
            }),
        forall|i: int| 0 <= i < s.len() ==> (#[trigger] u[i])@ == correction(seeds[i], choice),
    ensures
        correlated(
            transposed(sender_columns(s, k_s, u, choice.len())),
            transposed(receiver_columns(seeds, choice.len())),
            choice,
            s,
        ),
{
    let m = choice.len();
    let columns = sender_columns(s, k_s, u, m);
    let t = receiver_columns(seeds, m);
    let q = transposed(columns);
    let tt = transposed(t);
    assert(columns[0].len() == m) by {
        assert(u[0]@ == correction(seeds[0], choice));
    }
    assert(t[0].len() == m);
    assert forall|j: int, i: int| 0 <= j < m && 0 <= i < s.len() implies (#[trigger] q[j][i]) == (
    tt[j][i] != (choice[j] && s[i])) by {
        assert(u[i]@ == correction(seeds[i], choice));
        assert(prg(seeds[i].0@, m).len() == m);
    }
}

impl Receiver {
    /// The whole protocol from the receiver's side: the transfers of the
    /// seeds, the corrections, and the unmasking of what the sender
    /// answers. The result holds, for each pair of the sender's messages,
    /// the one that the choice bit names.
    pub fn do_protocol(&self, sender: &mut Sender, group: &SafePrimeGroup) -> (z: Vec<Vec<bool>>)
        requires
            group.wf(),
            self.wf(old(sender).s.len() as nat),
            pow2(old(sender).s.len() as nat) <= group.q@,
            old(sender).messages.len() == self.choice_bits.len(),
            uniform(old(sender).messages@, OUTPUT_SIZE as nat),
        ensures
            final(sender).s == old(sender).s,
            final(sender).messages == old(sender).messages,
            z.len() == self.choice_bits.len(),
            forall|j: int|
                0 <= j < self.choice_bits.len() ==> (#[trigger] z[j])@ == picked(
                    old(sender).messages@,
                    self.choice_bits@,
                    j,
                ),
    {
        sender.receive_ot_primitive(self, group);
        let m = self.choice_bits.len();
        let k = self.k.len();
        let mut t: Vec<Vec<bool>> = Vec::new();
        let mut u: Vec<Vec<bool>> = Vec::new();
        let mut i: usize = 0;
        while i < k
            invariant
                i <= k,
                k == self.k.len(),
                m == self.choice_bits.len(),
                self.wf(k as nat),
                t.len() == i,
                u.len() == i,
                forall|j: int|
                    0 <= j < i ==> (#[trigger] t[j])@ == prg(self.k[j].0@, m as nat) && t[j].len()
                        == m,
                forall|j: int|
                    0 <= j < i ==> (#[trigger] u[j])@ == correction(self.k[j], self.choice_bits@)
                        && u[j].len() == m && prg(self.k[j].1@, m as nat).len() == m,
            decreases k - i,
        {
            assert(self.k[i as int].0.len() == k);
            let t_i = pseudo_random_gen(&self.k[i].0, m);
            let other = pseudo_random_gen(&self.k[i].1, m);
            let u_i = xor_boolvec(&self.choice_bits, &xor_boolvec(&t_i, &other));
            t.push(t_i);
            u.push(u_i);
            i += 1;
        }
        proof {
            assert forall|i: int| 0 <= i < k implies is_seed((#[trigger] sender.k_s[i])@) by {
                assert(self.k[i].0.len() == k);
            }
        }
        let ghost columns = sender_columns(sender.s@, sender.k_s@, u@, m as nat);
        let ghost u_rows = u@;
        let y = sender.receive_vectors(u);
        let t_transpose = transpose(&t);
        proof {
            assert(rows(t@)[0] == t[0]@);
            assert(rows(t_transpose@).len() == t_transpose.len());
            assert(transposed(rows(t@)).len() == m);
        }
        let z = unmask_messages(&y, &t_transpose, &self.choice_bits);
        proof {
            let q = transposed(columns);
            let tt = transposed(rows(t@));
            assert(rows(t@) =~= receiver_columns(self.k@, m as nat)) by {
                assert forall|i: int| 0 <= i < k implies #[trigger] rows(t@)[i] == prg(
                    self.k[i].0@,
                    m as nat,
                ) by {
                    assert(rows(t@)[i] == t[i]@);
                }
            }
            assert forall|i: int| 0 <= i < k implies prg((#[trigger] self.k[i]).0@, m as nat).len()
                == m && prg(self.k[i].1@, m as nat).len() == m by {
                assert(t[i]@.len() == m);
                assert(u_rows[i]@ == correction(self.k[i], self.choice_bits@));
            }
            lemma_matrices_correlated(self.k@, self.choice_bits@, sender.s@, sender.k_s@, u_rows);
            assert forall|j: int| 0 <= j < m implies (#[trigger] z[j])@ == picked(
                sender.messages@,
                self.choice_bits@,
                j,
            ) by {
                assert(rows(t_transpose@)[j] == t_transpose[j]@);
                lemma_unmask_chosen(
                    (sender.messages[j].0@, sender.messages[j].1@),
                    j as nat,
                    self.choice_bits[j],
                    q[j],
                    tt[j],
                    sender.s@,
                );
            }
        }
        z
    }
}

/// Why the extension is refused, if it is: the choice bits must be as many
/// as the pairs of messages, `k` must be 128 or 256, every message must
/// have 256 bits, and every seed of `k` bits must be below the order of
/// the group.
pub open spec fn refusal(
    messages: Seq<(Vec<bool>, Vec<bool>)>,
    choice: Seq<bool>,
    k: nat,
    q: nat,
) -> Option<OtError> {
    if choice.len() != messages.len() || !(k == 128 || k == 256) || !uniform(
        messages,
        OUTPUT_SIZE as nat,
    ) {
        Some(OtError::LengthMismatch)
    } else if pow2(k) > q {
        Some(OtError::EncodingOutOfRange)
    } else {
        None
    }
}

/// One-out-of-two transfer of each pair of messages, by `k` transfers of
/// seeds in the group: the result holds, for each pair, the message that
/// the choice bit names.
pub fn ote(
    messages: Vec<(Vec<bool>, Vec<bool>)>,
    choice: Vec<bool>,
    k: usize,
    group: &SafePrimeGroup,
) -> (r: Result<Vec<Vec<bool>>, OtError>)
    requires
        group.wf(),
    ensures
        refusal(messages@, choice@, k as nat, group.q@) matches Some(e) ==> r == Err::<
            Vec<Vec<bool>>,
            OtError,
        >(e),
        refusal(messages@, choice@, k as nat, group.q@).is_none() ==> r.is_ok()
            && r.unwrap().len() == messages.len() && forall|j: int|
            0 <= j < messages.len() ==> (#[trigger] r.unwrap()[j])@ == picked(
                messages@,
                choice@,
                j,
            ),
{
    if choice.len() != messages.len() || !(k == 128 || k == 256) || !lengths_agree(
        &messages,
        OUTPUT_SIZE,
    ) {
        return Err(OtError::LengthMismatch);
    }
    if !group.carries(k) {
        return Err(OtError::EncodingOutOfRange);
    }
    let mut sender = Sender::initialize(k, messages);
    let receiver = Receiver::initialize(k, choice);
    Ok(receiver.do_protocol(&mut sender, group))
}

} // verus!
