use ot_extension::common::{
    int_to_boolvec_len, random_messages, xor_boolvec, OUTPUT_SIZE,
};
use ot_extension::ot_better_network;
use ot_extension::natural::Natural;
use ot_extension::ot_primitive::{
    commit_choice, create_secret_keys, group_from_generator, make_group, OtError, SafePrimeGroup,
};
use ot_extension::ote_IKNP;

const SAFE_512: &str = "FFFFFFFFFFFFFFFFFFFFFFFFFFFFFFFFFFFFFFFFFFFFFFFFFFFFFFFFFFFFFFFFFFFFFFFFFFFFFFFFFFFFFFFFFFFFFFFFFFFFFFFFFFFFFFFFFFFFFFFFFFFF6B1B";

const MODP_2048: &str = "FFFFFFFFFFFFFFFFC90FDAA22168C234C4C6628B80DC1CD129024E088A67CC74020BBEA63B139B22514A08798E3404DDEF9519B3CD3A431B302B0A6DF25F14374FE1356D6D51C245E485B576625E7EC6F44C42E9A637ED6B0BFF5CB6F406B7EDEE386BFB5A899FA5AE9F24117C4B1FE649286651ECE45B3DC2007CB8A163BF0598DA48361C55D39A69163FA8FD24CF5F83655D23DCA3AD961C62F356208552BB9ED529077096966D670C354E4ABC9804F1746C08CA18217C32905E462E36CE3BE39E772C180E86039B2783A2EC07A28FB5C55DF06F4C52C9DE2BCBF6955817183995497CEA956AE515D2261898FA051015728E5A8AACAA68FFFFFFFFFFFFFFFF";

fn hex_bytes(hex: &str) -> Vec<u8> {
    let digits: Vec<u8> = hex.bytes().map(|c| (c as char).to_digit(16).unwrap() as u8).collect();
    digits.chunks(2).map(|d| d[0] * 16 + d[1]).collect()
}

fn big_group() -> SafePrimeGroup {
    make_group(&hex_bytes(MODP_2048)).unwrap()
}

fn short_group() -> SafePrimeGroup {
    make_group(&hex_bytes(SAFE_512)).unwrap()
}

fn small_group() -> SafePrimeGroup {
    group_from_generator(&Natural::from_u64(107, 64).bytes, &Natural::from_u64(4, 64)).unwrap()
}

fn counting_messages(m: usize) -> Vec<(Vec<bool>, Vec<bool>)> {
    (0..m).map(|x| (int_to_boolvec_len(x, OUTPUT_SIZE), int_to_boolvec_len(x + 1, OUTPUT_SIZE))).collect()
}

fn random_choice(m: usize) -> Vec<bool> {
    (0..m).map(|_| rand::random()).collect()
}

fn oracle(messages: &Vec<(Vec<bool>, Vec<bool>)>, choice: &Vec<bool>) -> Vec<Vec<bool>> {
    messages.iter().zip(choice).map(|(m, c)| if *c { m.1.clone() } else { m.0.clone() }).collect()
}

#[test]
fn random_messages_have_256_bits() {
    let messages = random_messages(3);
    assert_eq!(messages.len(), 3);
    assert!(messages.iter().all(|m| m.0.len() == 256 && m.1.len() == 256));
    assert_ne!(messages[0].0, messages[0].1);
    assert_eq!(random_messages(0).len(), 0);
}

#[test]
fn iknp_small() {
    let group = short_group();
    let messages = vec![(int_to_boolvec_len(0, 256), int_to_boolvec_len(1, 256))];
    let out = ote_IKNP::ote(messages, vec![false], 128, &group).unwrap();
    assert_eq!(out, vec![int_to_boolvec_len(0, 256)]);
}

#[test]
fn iknp_matrix_correctness() {
    let group = short_group();
    let (m, k) = (4usize, 256usize);
    let choice = vec![true, false, true, true];
    let receiver = ote_IKNP::Receiver::initialize(k, m, choice.clone());
    let sender = ote_IKNP::Sender::initialize(k, counting_messages(m));
    assert_eq!(receiver.t.len(), m);
    assert_eq!(sender.s.len(), k);
    let q = sender.receive_matrix(&receiver, &group);
    assert_eq!(q.len(), m);
    for j in 0..m {
        let difference = xor_boolvec(&q[j], &receiver.t[j]);
        if choice[j] {
            assert_eq!(difference, sender.s);
        } else {
            assert_eq!(difference, vec![false; k]);
        }
    }
}

#[test]
fn iknp_counting_messages_128() {
    let group = short_group();
    for m in [1usize, 2, 10, 510, 1000] {
        let messages = counting_messages(m);
        let choice = random_choice(m);
        let out = ote_IKNP::ote(messages.clone(), choice.clone(), 128, &group).unwrap();
        assert_eq!(out, oracle(&messages, &choice));
    }
}

#[test]
fn iknp_random_messages_256() {
    let group = short_group();
    for m in [1usize, 10, 511] {
        let messages = random_messages(m);
        let choice = random_choice(m);
        let out = ote_IKNP::ote(messages.clone(), choice.clone(), 256, &group).unwrap();
        assert_eq!(out, oracle(&messages, &choice));
    }
}

#[test]
fn iknp_refusals() {
    let group = short_group();
    let messages = counting_messages(3);
    assert_eq!(
        ote_IKNP::ote(messages.clone(), vec![true, false], 128, &group).err(),
        Some(OtError::LengthMismatch)
    );
    assert_eq!(
        ote_IKNP::ote(messages.clone(), vec![true, false, true], 64, &group).err(),
        Some(OtError::LengthMismatch)
    );
    let short = vec![(vec![false; 255], vec![false; 256])];
    assert_eq!(ote_IKNP::ote(short, vec![true], 128, &group).err(), Some(OtError::LengthMismatch));
    assert_eq!(ote_IKNP::ote(vec![], vec![], 128, &group).unwrap(), Vec::<Vec<bool>>::new());
}

#[test]
fn iknp_columns_in_pieces() {
    // the small group carries five bits, so twelve rows go in three blocks
    let small = small_group();
    assert_eq!(small.capacity(), 5);
    for m in [5usize, 6, 10, 12] {
        let choice = random_choice(m);
        let messages = random_messages(m);
        assert_eq!(
            ote_IKNP::ote(messages.clone(), choice.clone(), 128, &small).unwrap(),
            oracle(&messages, &choice)
        );
    }
    let choice = random_choice(12);
    let receiver = ote_IKNP::Receiver::initialize(128, 12, choice.clone());
    let sender = ote_IKNP::Sender::initialize(128, counting_messages(12));
    let part = receiver.block(5, 10);
    assert_eq!(part.t, receiver.t[5..10].to_vec());
    assert_eq!(part.choice_bits, choice[5..10].to_vec());
    let q_part = sender.receive_block(&part, &small);
    let q = sender.receive_matrix(&receiver, &small);
    assert_eq!(q.len(), 12);
    assert_eq!(q_part, q[5..10].to_vec());
    for j in 0..12 {
        let difference = xor_boolvec(&q[j], &receiver.t[j]);
        assert_eq!(difference, if choice[j] { sender.s.clone() } else { vec![false; 128] });
    }
}

#[test]
fn iknp_large() {
    let group = short_group();
    assert_eq!(group.capacity(), 510);
    let m = 4_000;
    let messages = random_messages(m);
    let choice = random_choice(m);
    let out = ote_IKNP::ote(messages.clone(), choice.clone(), 128, &group).unwrap();
    assert_eq!(out, oracle(&messages, &choice));
}

#[test]
fn iknp_long_group() {
    let group = big_group();
    assert_eq!(group.capacity(), 2046);
    let (m, k) = (600usize, 8usize);
    let choice = random_choice(m);
    let receiver = ote_IKNP::Receiver::initialize(k, m, choice.clone());
    let sender = ote_IKNP::Sender::initialize(k, random_messages(m));
    let out = receiver.do_protocol(&sender, &group);
    assert_eq!(out, oracle(&sender.messages, &choice));
    let sk = create_secret_keys(&group, k);
    let keys = commit_choice(&group, &sk, &sender.s);
    let sealed = receiver.send_ot_primitive(&group, &keys).unwrap();
    assert_eq!(sealed.len(), k);
    let y = sender.receive_ot_primitive(&receiver, &group);
    assert_eq!(y.len(), m);
}

#[test]
fn alsz_small() {
    let group = short_group();
    for k in [128usize, 256] {
        for m in [1usize, 2, 10] {
            let messages = counting_messages(m);
            let choice = random_choice(m);
            let out = ot_better_network::ote(messages.clone(), choice.clone(), k, &group).unwrap();
            assert_eq!(out, oracle(&messages, &choice));
        }
    }
}

#[test]
fn alsz_thousand_256() {
    let group = short_group();
    let messages = random_messages(1000);
    let choice = random_choice(1000);
    let out = ot_better_network::ote(messages.clone(), choice.clone(), 256, &group).unwrap();
    assert_eq!(out, oracle(&messages, &choice));
}

#[test]
fn alsz_large() {
    let group = short_group();
    let m = 10_000;
    let messages = random_messages(m);
    let choice = random_choice(m);
    let out = ot_better_network::ote(messages.clone(), choice.clone(), 128, &group).unwrap();
    assert_eq!(out.len(), m);
    assert_eq!(out, oracle(&messages, &choice));
}

#[test]
fn alsz_by_hand() {
    let group = short_group();
    let k = 128;
    let messages = counting_messages(3);
    let choice = vec![true, false, true];
    let mut sender = ot_better_network::Sender::initialize(k, messages.clone());
    let receiver = ot_better_network::Receiver::initialize(k, choice.clone());
    assert_eq!(receiver.k.len(), k);
    sender.receive_ot_primitive(&receiver, &group);
    assert_eq!(sender.k_s.len(), k);
    for i in 0..k {
        let seed = if sender.s[i] { &receiver.k[i].1 } else { &receiver.k[i].0 };
        assert_eq!(&sender.k_s[i], seed);
    }
    let out = receiver.do_protocol(&mut sender, &group);
    assert_eq!(out, oracle(&messages, &choice));
    let sk = create_secret_keys(&group, k);
    let keys = commit_choice(&group, &sk, &sender.s);
    assert_eq!(receiver.send_ot_primitive(&group, &keys).unwrap().len(), k);
    assert_eq!(
        receiver.send_ot_primitive(&group, &keys[..5].to_vec()).err(),
        Some(OtError::LengthMismatch)
    );
}

#[test]
fn alsz_receive_vectors_masks_rows() {
    let k = 128;
    let messages = counting_messages(2);
    let seed = int_to_boolvec_len(99, 128);
    let sender = ot_better_network::Sender {
        s: vec![false; k],
        messages: messages.clone(),
        k_s: vec![seed.clone(); k],
    };
    let u = vec![vec![false; 2]; k];
    let y = sender.receive_vectors(u);
    // every column is the stream of the one seed, so row j repeats bit j of that stream
    let stream = ot_extension::common::pseudo_random_gen(&seed, 2);
    for j in 0..2 {
        let row = vec![stream[j]; k];
        let index = ot_extension::common::int_to_bool_vec(j);
        let mask = ot_extension::common::hash_bits(&index, &row);
        assert_eq!(y[j].0, xor_boolvec(&messages[j].0, &mask));
        assert_eq!(y[j].1, xor_boolvec(&messages[j].1, &mask));
    }
}

#[test]
fn alsz_refusals() {
    let group = short_group();
    let messages = counting_messages(3);
    assert_eq!(
        ot_better_network::ote(messages.clone(), vec![true], 128, &group).err(),
        Some(OtError::LengthMismatch)
    );
    assert_eq!(
        ot_better_network::ote(messages.clone(), vec![true; 3], 129, &group).err(),
        Some(OtError::LengthMismatch)
    );
    let long = vec![(vec![false; 257], vec![false; 257])];
    assert_eq!(
        ot_better_network::ote(long, vec![true], 128, &group).err(),
        Some(OtError::LengthMismatch)
    );
    // a seed of 128 bits does not fit below 53
    assert_eq!(
        ot_better_network::ote(messages, vec![true; 3], 128, &small_group()).err(),
        Some(OtError::EncodingOutOfRange)
    );
    assert_eq!(
        ot_better_network::ote(vec![], vec![], 256, &group).unwrap(),
        Vec::<Vec<bool>>::new()
    );
}
