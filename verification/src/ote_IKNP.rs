//! The extension of oblivious transfer by a matrix of random bits: the
//! transfers in the group carry the columns of the receiver's matrix, and
//! the sender masks its messages with the hashes of the rows it got.
use crate::bits::{bits_nat, lemma_bits_nat_bound, lemma_nat_of_bits, xor_bits};
use crate::common::{
    correlated, is_matrix, lemma_unmask_chosen, lengths_agree, mask, mask_messages, picked,
    random_bits, rows, transpose, transposed, uniform, unmask_messages, xor_boolvec, OUTPUT_SIZE,
};
use crate::natural::lemma_natural_bound;
use crate::ot_primitive::{
    chosen, commit_choice, create_secret_keys, in_range, lemma_all_transfer, numbers_of,
    pairs_wf, params_wf, receive_bits, seals_all, send_bits, OTParams, OtError, PublicKey,
    SafePrimeGroup,
};
use vstd::arithmetic::power2::*;
use vstd::prelude::*;

verus! {

/// The receiver of the extension: its matrix of random bits, a row for each
/// choice bit, and the choice bits.
pub struct Receiver {
    pub t: Vec<Vec<bool>>,
    pub choice_bits: Vec<bool>,
}

/// The sender of the extension: its secret bits and the pairs of messages.
pub struct Sender {
    pub s: Vec<bool>,
    pub messages: Vec<(Vec<bool>, Vec<bool>)>,
}

/// What the receiver offers for column `i` of its matrix `t`: the column,
/// and the column with the choice bits added.
pub open spec fn column_pair(t: Seq<Seq<bool>>, choice: Seq<bool>, i: int) -> (Seq<bool>, Seq<bool>) {
    (transposed(t)[i], xor_bits(transposed(t)[i], choice))
}

/// The numbers that the receiver's offers spell, a pair for each column.
pub open spec fn column_numbers(t: Seq<Seq<bool>>, choice: Seq<bool>, k: nat) -> Seq<(nat, nat)> {
    Seq::new(
        k,
        |i: int| (bits_nat(column_pair(t, choice, i).0), bits_nat(column_pair(t, choice, i).1)),
    )
}

/// Every number of every pair is below `p - 1`.
pub open spec fn numbers_fit(numbers: Seq<(nat, nat)>, p: nat) -> bool {
    forall|i: int|
        0 <= i < numbers.len() ==> (#[trigger] numbers[i]).0 + 1 < p && numbers[i].1 + 1 < p
}

impl Receiver {
    /// The receiver has a row of `k` bits for each of its choice bits, of
    /// which there is at least one.
    pub open spec fn wf(&self, k: nat) -> bool {
        self.choice_bits.len() > 0 && k > 0 && is_matrix(
            rows(self.t@),
            self.choice_bits.len() as nat,
            k,
        )
    }

    /// A receiver with a fresh random matrix of `m` rows and `k` columns.
    pub fn initialize(k: usize, m: usize, choice_bits: Vec<bool>) -> (r: Receiver)
        ensures
            r.choice_bits == choice_bits,
            is_matrix(rows(r.t@), m as nat, k as nat),
    {
        let mut t: Vec<Vec<bool>> = Vec::new();
        let mut j: usize = 0;
        while j < m
            invariant
                j <= m,
                t.len() == j,
                forall|i: int| 0 <= i < j ==> (#[trigger] t[i]).len() == k,
            decreases m - j,
        {
            t.push(random_bits(k));
            j += 1;
        }
        Receiver { t, choice_bits }
    }

    /// The receiver for the rows from `from` up to `to` alone, with their
    /// choice bits.
    pub fn block(&self, from: usize, to: usize) -> (r: Receiver)
        requires
            from < to <= self.choice_bits.len(),
            self.t.len() == self.choice_bits.len(),
        ensures
            r.choice_bits@ == self.choice_bits@.subrange(from as int, to as int),
            rows(r.t@) == rows(self.t@).subrange(from as int, to as int),
    {
        let mut t: Vec<Vec<bool>> = Vec::new();
        let mut choice_bits: Vec<bool> = Vec::new();
        let mut j: usize = from;
        while j < to
            invariant
                from <= j <= to <= self.choice_bits.len(),
                self.t.len() == self.choice_bits.len(),
                t.len() == j - from,
                choice_bits@ =~= self.choice_bits@.subrange(from as int, j as int),
                forall|i: int| 0 <= i < j - from ==> (#[trigger] t[i])@ == self.t[from + i]@,
            decreases to - j,
        {
            t.push(self.t[j].clone());
            choice_bits.push(self.choice_bits[j]);
            j += 1;
        }
        assert(rows(t@) =~= rows(self.t@).subrange(from as int, to as int));
        Receiver { t, choice_bits }
    }

    /// The receiver's part of the transfers in the group: for each column
    /// of its matrix it seals the column, and the column with the choice
    /// bits added, under the sender's keys.
    pub fn send_ot_primitive(&self, group: &SafePrimeGroup, keys: &Vec<(PublicKey, PublicKey)>) -> (r:
        Result<OTParams, OtError>)
        requires
            group.wf(),
            pairs_wf(keys@, group.p),
            self.wf(keys.len() as nat),
            self.choice_bits.len() <= 8 * group.p.bytes.len(),
        ensures
            !numbers_fit(
                column_numbers(rows(self.t@), self.choice_bits@, keys.len() as nat),
                group.p@,
            ) ==> r == Err::<OTParams, OtError>(OtError::EncodingOutOfRange),
            numbers_fit(
                column_numbers(rows(self.t@), self.choice_bits@, keys.len() as nat),
                group.p@,
            ) ==> r.is_ok() && params_wf(r.unwrap()@, group.p) && seals_all(
                r.unwrap()@,
                keys@,
                column_numbers(rows(self.t@), self.choice_bits@, keys.len() as nat),
                *group,
            ),
    {
        let k = keys.len();
        let m = self.choice_bits.len();
        assert(rows(self.t@)[0] == self.t[0]@);
        let columns = transpose(&self.t);
        assert(rows(columns@).len() == columns.len());
        let mut inputs: Vec<(Vec<bool>, Vec<bool>)> = Vec::new();
        let mut i: usize = 0;
        while i < k
            invariant
                i <= k,
                m == self.choice_bits.len(),
                columns.len() == k,
                rows(columns@) == transposed(rows(self.t@)),
                is_matrix(rows(columns@), k as nat, m as nat),
                inputs.len() == i,
                uniform(inputs@, m as nat),
                forall|j: int|
                    0 <= j < i ==> (#[trigger] inputs[j]).0@ == column_pair(
                        rows(self.t@),
                        self.choice_bits@,
                        j,
                    ).0 && inputs[j].1@ == column_pair(rows(self.t@), self.choice_bits@, j).1,
            decreases k - i,
        {
            assert(rows(columns@)[i as int] == columns[i as int]@);
            let column = columns[i].clone();
            let flipped = xor_boolvec(&columns[i], &self.choice_bits);
            inputs.push((column, flipped));
            i += 1;
        }
        proof {
            let numbers = column_numbers(rows(self.t@), self.choice_bits@, k as nat);
            assert(numbers_of(inputs@) =~= numbers);
            if in_range(inputs@, group.p@) {
                assert forall|i: int| 0 <= i < k implies (#[trigger] numbers[i]).0 + 1 < group.p@
                    && numbers[i].1 + 1 < group.p@ by {
                    assert(bits_nat(inputs[i].0@) + 1 < group.p@);
                }
            } else {
                if numbers_fit(numbers, group.p@) {
                    assert forall|i: int| 0 <= i < k implies bits_nat((#[trigger] inputs[i]).0@)
                        + 1 < group.p@ && bits_nat(inputs[i].1@) + 1 < group.p@ by {
                        assert(numbers[i].0 + 1 < group.p@);
                    }
                }
            }
        }
        send_bits(group, keys, &inputs)
    }
}

/// The sender's matrix: row `j` is row `j` of the receiver's matrix `t`,
/// with `s` added where the choice bit `j` is set.
pub open spec fn sender_matrix(t: Seq<Seq<bool>>, choice: Seq<bool>, s: Seq<bool>) -> Seq<Seq<bool>> {
    Seq::new(choice.len(), |j: int| Seq::new(s.len(), |i: int| t[j][i] != (choice[j] && s[i])))
}

impl Sender {
    /// A sender with fresh random secret bits.
    pub fn initialize(k: usize, messages: Vec<(Vec<bool>, Vec<bool>)>) -> (r: Sender)
        ensures
            r.messages == messages,
            r.s.len() == k,
    {
        let s = random_bits(k);
        Sender { s, messages }
    }

    /// The sender's part of the transfers in the group for a receiver whose
    /// columns each fit into one number of the group: with its secret bits
    /// as choices it receives, for each column, the receiver's column or
    /// that column with the choice bits added, and turns the columns it got
    /// into rows. Row `j` of the result is row `j` of the receiver's
    /// matrix, with the sender's secret bits added where the receiver's
    /// choice bit `j` is set.
    pub fn receive_block(&self, receiver: &Receiver, group: &SafePrimeGroup) -> (q: Vec<Vec<bool>>)
        requires
            group.wf(),
            receiver.wf(self.s.len() as nat),
            pow2(receiver.choice_bits.len() as nat) <= group.q@,
        ensures
            correlated(rows(q@), rows(receiver.t@), receiver.choice_bits@, self.s@),
            rows(q@) == sender_matrix(rows(receiver.t@), receiver.choice_bits@, self.s@),
    {
        let k = self.s.len();
        let m = receiver.choice_bits.len();
        let ghost t = rows(receiver.t@);
        let ghost numbers = column_numbers(t, receiver.choice_bits@, k as nat);
        proof {
            lemma_natural_bound(group.q);
            if m > 8 * group.p.bytes.len() {
                lemma_pow2_strictly_increases((8 * group.p.bytes.len()) as nat, m as nat);
            }
            assert(t[0].len() == k);
            assert forall|i: int| 0 <= i < k implies (#[trigger] numbers[i]).0 < group.q@
                && numbers[i].1 < group.q@ by {
                lemma_bits_nat_bound(column_pair(t, receiver.choice_bits@, i).0);
                lemma_bits_nat_bound(column_pair(t, receiver.choice_bits@, i).1);
            }
        }
        let sk = create_secret_keys(group, k);
        let keys = commit_choice(group, &sk, &self.s);
        let res = receiver.send_ot_primitive(group, &keys);
        assert(res.is_ok());
        let sealed = match res {
            Ok(sealed) => sealed,
            Err(_) => Vec::new(),
        };
        proof {
            lemma_all_transfer(*group, keys@, sk@, self.s@, numbers, sealed@);
        }
        let values = receive_bits(group, &sealed, &sk, &self.s, m);
        assert(values.is_ok());
        let columns = match values {
            Ok(values) => values,
            Err(_) => Vec::new(),
        };
        proof {
            assert forall|i: int| 0 <= i < k implies (#[trigger] columns[i])@ == chosen(
                column_pair(t, receiver.choice_bits@, i),
                self.s[i],
            ) by {
                assert(numbers[i].0 < group.q@);
                assert(chosen(numbers[i], self.s[i]) == bits_nat(
                    chosen(column_pair(t, receiver.choice_bits@, i), self.s[i]),
                ));
                lemma_nat_of_bits(chosen(column_pair(t, receiver.choice_bits@, i), self.s[i]));
            }
            assert forall|i: int| 0 <= i < k implies (#[trigger] rows(columns@)[i]).len() == m by {
                assert(rows(columns@)[i] == columns[i]@);
            }
            assert(rows(columns@)[0] == columns[0]@);
        }
        let q = transpose(&columns);
        proof {
            let wanted = sender_matrix(t, receiver.choice_bits@, self.s@);
            assert(rows(q@).len() == m);
            assert forall|j: int| 0 <= j < m implies #[trigger] rows(q@)[j] =~= wanted[j] by {
                assert forall|i: int| 0 <= i < k implies rows(q@)[j][i] == wanted[j][i] by {
                    assert(rows(columns@)[i] == columns[i]@);
                    assert(t[j].len() == k);
                }
            }
            assert(rows(q@) =~= wanted);
            assert forall|j: int| 0 <= j < m implies (#[trigger] rows(q@)[j]).len() == k by {
                assert(rows(q@)[j] == wanted[j]);
            }
        }
        q
    }

    /// The sender's part of the transfers in the group. A column of the
    /// receiver's matrix has a bit for each choice bit, and may be longer
    /// than a number of the group: the rows are taken in blocks of as many
    /// as the group carries, with a batch of transfers for each block. Row
    /// `j` of the result is row `j` of the receiver's matrix, with the
    /// sender's secret bits added where the receiver's choice bit `j` is
    /// set.
    pub fn receive_matrix(&self, receiver: &Receiver, group: &SafePrimeGroup) -> (q: Vec<Vec<bool>>)
        requires
            group.wf(),
            receiver.wf(self.s.len() as nat),
        ensures
            correlated(rows(q@), rows(receiver.t@), receiver.choice_bits@, self.s@),
            rows(q@) == sender_matrix(rows(receiver.t@), receiver.choice_bits@, self.s@),
    {
        let m = receiver.choice_bits.len();
        let step = group.capacity();
        let ghost wanted = sender_matrix(rows(receiver.t@), receiver.choice_bits@, self.s@);
        let mut q: Vec<Vec<bool>> = Vec::new();
        let mut from: usize = 0;
        while from < m
            invariant
                from <= m,
                m == receiver.choice_bits.len(),
                group.wf(),
                receiver.wf(self.s.len() as nat),
                1 <= step,
                pow2(step as nat) <= group.q@,
                wanted == sender_matrix(rows(receiver.t@), receiver.choice_bits@, self.s@),
                q.len() == from,
                forall|j: int| 0 <= j < from ==> (#[trigger] q[j])@ == wanted[j],
            decreases m - from,
        {
            let to = if m - from <= step {
                m
            } else {
                from + step
            };
            let part = receiver.block(from, to);
            proof {
                if to - from < step {
                    lemma_pow2_strictly_increases((to - from) as nat, step as nat);
                }
            }
            let mut rows_got = self.receive_block(&part, group);
            proof {
                let got = rows(rows_got@);
                assert forall|j: int| from <= j < to implies #[trigger] rows_got[j - from]@
                    == wanted[j] by {
                    assert(got[j - from] == rows_got[j - from]@);
                    assert(rows(part.t@)[j - from] == rows(receiver.t@)[j]);
                    assert(got[j - from] =~= wanted[j]);
                }
                assert(rows_got.len() == to - from) by {
                    assert(got.len() == rows_got.len());
                }
            }
            let ghost before = q@;
            let ghost added = rows_got@;
            q.append(&mut rows_got);
            proof {
                assert forall|j: int| 0 <= j < to implies (#[trigger] q[j])@ == wanted[j] by {
                    if j >= from {
                        assert(q[j] == added[j - from]);
                    } else {
                        assert(q[j] == before[j]);
                    }
                }
            }
            from = to;
        }
        proof {
            assert(rows(q@) =~= wanted);
            assert forall|j: int| 0 <= j < m implies (#[trigger] rows(q@)[j]).len()
                == self.s.len() by {
                assert(rows(q@)[j] == wanted[j]);
            }
        }
        q
    }

    /// The sender's moves: the transfers in the group, and then, for each
    /// pair of messages, the two messages masked with the hashes of the
    /// row of the sender's matrix.
    pub fn receive_ot_primitive(&self, receiver: &Receiver, group: &SafePrimeGroup) -> (y: Vec<
        (Vec<bool>, Vec<bool>),
    >)
        requires
            group.wf(),
            receiver.wf(self.s.len() as nat),
            self.messages.len() == receiver.choice_bits.len(),
            uniform(self.messages@, OUTPUT_SIZE as nat),
        ensures
            uniform(y@, OUTPUT_SIZE as nat),
            y.len() == self.messages.len(),
            forall|j: int|
                0 <= j < self.messages.len() ==> (#[trigger] y[j]).0@ == mask(
                    self.messages[j].0@,
                    j as nat,
                    sender_matrix(rows(receiver.t@), receiver.choice_bits@, self.s@)[j],
                ) && y[j].1@ == mask(
                    self.messages[j].1@,
                    j as nat,
                    xor_bits(
                        sender_matrix(rows(receiver.t@), receiver.choice_bits@, self.s@)[j],
                        self.s@,
                    ),
                ),
    {
        let q = self.receive_matrix(receiver, group);
        let y = mask_messages(&self.messages, &q, &self.s);
        proof {
            assert forall|j: int| 0 <= j < self.messages.len() implies (#[trigger] y[j]).0.len()
                == OUTPUT_SIZE && y[j].1.len() == OUTPUT_SIZE by {
                assert(self.messages[j].0.len() == OUTPUT_SIZE);
            }
            assert forall|j: int| 0 <= j < self.messages.len() implies q[j]@ == sender_matrix(
                rows(receiver.t@),
                receiver.choice_bits@,
                self.s@,
            )[j] by {
                assert(rows(q@)[j] == q[j]@);
            }
        }
        y
    }
}

impl Receiver {
    /// The whole protocol from the receiver's side: the transfers of the
    /// columns, and the unmasking of what the sender answers. The result
    /// holds, for each pair of the sender's messages, the one that the
    /// choice bit names.
    pub fn do_protocol(&self, sender: &Sender, group: &SafePrimeGroup) -> (z: Vec<Vec<bool>>)
        requires
            group.wf(),
            self.wf(sender.s.len() as nat),
            sender.messages.len() == self.choice_bits.len(),
            uniform(sender.messages@, OUTPUT_SIZE as nat),
        ensures
            z.len() == self.choice_bits.len(),
            forall|j: int|
                0 <= j < self.choice_bits.len() ==> (#[trigger] z[j])@ == picked(
                    sender.messages@,
                    self.choice_bits@,
                    j,
                ),
    {
        let y = sender.receive_ot_primitive(self, group);
        let z = unmask_messages(&y, &self.t, &self.choice_bits);
        proof {
            let q = sender_matrix(rows(self.t@), self.choice_bits@, sender.s@);
            assert forall|j: int| 0 <= j < self.choice_bits.len() implies (#[trigger] z[j])@
                == picked(sender.messages@, self.choice_bits@, j) by {
                assert(rows(self.t@)[j] == self.t[j]@);
                lemma_unmask_chosen(
                    (sender.messages[j].0@, sender.messages[j].1@),
                    j as nat,
                    self.choice_bits[j],
                    q[j],
                    self.t[j]@,
                    sender.s@,
                );
            }
        }
        z
    }
}

/// The extension goes through: the choice bits are as many as the pairs of
/// messages, `k` is 128 or 256, and every message has 256 bits.
pub open spec fn accepted(messages: Seq<(Vec<bool>, Vec<bool>)>, choice: Seq<bool>, k: nat) -> bool {
    choice.len() == messages.len() && (k == 128 || k == 256) && uniform(
        messages,
        OUTPUT_SIZE as nat,
    )
}

/// One-out-of-two transfer of each pair of messages, by transfers of the
/// `k` columns of a random matrix in the group: the result holds, for each
/// pair, the message that the choice bit names. A column has a bit for each
/// pair; where that is more than a number of the group carries, the column
/// travels in pieces.
pub fn ote(
    messages: Vec<(Vec<bool>, Vec<bool>)>,
    choice: Vec<bool>,
    k: usize,
    group: &SafePrimeGroup,
) -> (r: Result<Vec<Vec<bool>>, OtError>)
    requires
        group.wf(),
    ensures
        !accepted(messages@, choice@, k as nat) ==> r == Err::<Vec<Vec<bool>>, OtError>(
            OtError::LengthMismatch,
        ),
        accepted(messages@, choice@, k as nat) ==> r.is_ok() && r.unwrap().len() == messages.len()
            && forall|j: int|
            0 <= j < messages.len() ==> (#[trigger] r.unwrap()[j])@ == picked(
                messages@,
                choice@,
                j,
            ),
{
    let m = messages.len();
    if choice.len() != m || !(k == 128 || k == 256) || !lengths_agree(&messages, OUTPUT_SIZE) {
        return Err(OtError::LengthMismatch);
    }
    if m == 0 {
        return Ok(Vec::new());
    }
    let sender = Sender::initialize(k, messages);
    let receiver = Receiver::initialize(k, m, choice);
    Ok(receiver.do_protocol(&sender, group))
}

} // verus!
