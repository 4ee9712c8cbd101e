use ot_extension::common::{int_to_bool_vec, int_to_boolvec_len};
use ot_extension::natural::{
    bits_to_natural, bool_vec_to_usize, half, less_or_equal, mod_add, mod_invert, mod_mul,
    mod_neg, mod_pow, mod_square, mod_sub, random_below, usize_to_bool_vec_len, Natural,
};
use ot_extension::ot_primitive::{
    commit_choice, commit_one, create_secret_keys, from_encoding, get_generator,
    get_one_and_minus_one_mod, group_from_generator, make_group, messages_to_naturals, open_one,
    ote, receive_, receive_bits, seal, send, send_bits, send_one, to_encoding, OtError,
    SafePrimeGroup,
};

const SAFE_512: &str = "FFFFFFFFFFFFFFFFFFFFFFFFFFFFFFFFFFFFFFFFFFFFFFFFFFFFFFFFFFFFFFFFFFFFFFFFFFFFFFFFFFFFFFFFFFFFFFFFFFFFFFFFFFFFFFFFFFFFFFFFFFFF6B1B";

const MODP_2048: &str = "FFFFFFFFFFFFFFFFC90FDAA22168C234C4C6628B80DC1CD129024E088A67CC74020BBEA63B139B22514A08798E3404DDEF9519B3CD3A431B302B0A6DF25F14374FE1356D6D51C245E485B576625E7EC6F44C42E9A637ED6B0BFF5CB6F406B7EDEE386BFB5A899FA5AE9F24117C4B1FE649286651ECE45B3DC2007CB8A163BF0598DA48361C55D39A69163FA8FD24CF5F83655D23DCA3AD961C62F356208552BB9ED529077096966D670C354E4ABC9804F1746C08CA18217C32905E462E36CE3BE39E772C180E86039B2783A2EC07A28FB5C55DF06F4C52C9DE2BCBF6955817183995497CEA956AE515D2261898FA051015728E5A8AACAA68FFFFFFFFFFFFFFFF";

fn hex_bytes(hex: &str) -> Vec<u8> {
    let digits: Vec<u8> = hex.bytes().map(|c| (c as char).to_digit(16).unwrap() as u8).collect();
    digits.chunks(2).map(|d| d[0] * 16 + d[1]).collect()
}

fn big_group() -> SafePrimeGroup {
    make_group(&hex_bytes(MODP_2048)).unwrap()
}

fn short_group() -> SafePrimeGroup {
    make_group(&hex_bytes(SAFE_512)).unwrap()
}

fn n(x: u64) -> Natural {
    Natural::from_u64(x, 64)
}

fn small_group() -> SafePrimeGroup {
    group_from_generator(&n(107).bytes, &n(4)).unwrap()
}

fn number(n: &Natural) -> u64 {
    let split = n.bytes.len() - 8;
    assert!(n.bytes[..split].iter().all(|b| *b == 0));
    n.bytes[split..].iter().fold(0u64, |acc, b| acc * 256 + *b as u64)
}

#[test]
fn natural_conversions() {
    let x = Natural::from_u64(0x0102, 256);
    assert_eq!(x.bytes.len(), 256);
    assert_eq!(x.bytes[254], 1);
    assert_eq!(x.bytes[255], 2);
    assert_eq!(number(&x), 0x0102);
    assert!(x.same(&Natural::from_u64(258, 256)));
    assert!(!x.same(&Natural::from_u64(259, 256)));
    assert!(!x.is_odd());
    assert!(n(259).is_odd());
    assert_eq!(n(259).bytes.len(), 64);
    assert_eq!(number(&half(&n(107))), 53);
    assert_eq!(number(&half(&n(0))), 0);
    assert_eq!(number(&x.copy()), 258);
    assert_eq!(number(&Natural::from_u64(u64::MAX, 64)), u64::MAX);
    assert!(Natural::from_be_bytes(vec![0u8; 256]).is_some());
    assert!(Natural::from_be_bytes(vec![0u8; 64]).is_some());
    assert!(Natural::from_be_bytes(vec![0u8; 255]).is_none());
}

#[test]
fn residue_arithmetic() {
    let p = n(107);
    assert_eq!(number(&mod_pow(&n(3), &n(5), &p)), 243 % 107);
    assert_eq!(number(&mod_pow(&n(3), &n(0), &p)), 1);
    assert_eq!(number(&mod_pow(&n(110), &n(2), &p)), 9);
    assert_eq!(number(&mod_mul(&n(50), &n(60), &p)), 3000 % 107);
    assert_eq!(number(&mod_square(&n(50), &p)), 2500 % 107);
    assert_eq!(number(&mod_add(&n(100), &n(60), &p)), 53);
    assert_eq!(number(&mod_sub(&n(10), &n(60), &p)), 57);
    assert_eq!(number(&mod_neg(&n(10), &p)), 97);
    assert_eq!(number(&mod_neg(&n(0), &p)), 0);
    let (inverse, found) = mod_invert(&n(10), &p);
    assert!(found);
    assert_eq!(number(&mod_mul(&inverse, &n(10), &p)), 1);
    assert_eq!(number(&inverse), 75);
    assert!(!mod_invert(&n(0), &p).1);
    assert!(!mod_invert(&n(5), &n(15)).1);
    assert!(less_or_equal(&n(5), &n(5)));
    assert!(less_or_equal(&n(5), &n(6)));
    assert!(!less_or_equal(&n(6), &n(5)));
    assert!(less_or_equal(&n(255), &n(256)));
    for _ in 0..50 {
        assert!(number(&random_below(&n(3))) < 3);
    }
    // the same in the long width
    let long = Natural::from_u64(107, 256);
    let power = mod_pow(&Natural::from_u64(3, 256), &Natural::from_u64(5, 256), &long);
    assert_eq!(number(&power), 243 % 107);
    assert_eq!(power.bytes.len(), 256);
}

#[test]
fn bit_vectors_and_numbers() {
    let v = int_to_boolvec_len(300, 10);
    let x = bool_vec_to_usize(&v);
    assert_eq!(x.bytes.len(), 256);
    assert_eq!(number(&x), 300);
    assert_eq!(usize_to_bool_vec_len(&x, 10), v);
    assert_eq!(usize_to_bool_vec_len(&x, 3), int_to_boolvec_len(4, 3));
    assert_eq!(usize_to_bool_vec_len(&x, 0), Vec::<bool>::new());
    assert_eq!(usize_to_bool_vec_len(&x, 2048).len(), 2048);
    assert_eq!(usize_to_bool_vec_len(&x, 5000).len(), 2048);
    let short = bits_to_natural(&v, 64);
    assert_eq!(short.bytes.len(), 64);
    assert_eq!(number(&short), 300);
    assert_eq!(usize_to_bool_vec_len(&short, 10), v);
    assert_eq!(usize_to_bool_vec_len(&short, 513).len(), 512);
    assert_eq!(number(&bool_vec_to_usize(&Vec::new())), 0);
    // more than 2048 bits: the last 2048 count
    let mut long = vec![true; 10];
    long.extend(vec![false; 2040]);
    long.extend(int_to_boolvec_len(9, 8));
    assert_eq!(number(&bool_vec_to_usize(&long)), 9);
    let full = vec![true; 2048];
    assert_eq!(usize_to_bool_vec_len(&bool_vec_to_usize(&full), 2048), full);
}

#[test]
fn one_and_minus_one() {
    let (one, minus_one) = get_one_and_minus_one_mod(&n(107));
    assert_eq!(number(&one), 1);
    assert_eq!(number(&minus_one), 106);
}

#[test]
fn encoding_values() {
    let p = n(7);
    let q = n(3);
    // the squares modulo 7 are 1, 2 and 4
    let expected = [1u64, 2, 4];
    for m in 0..3u64 {
        let e = to_encoding(&n(m), &p, &q).unwrap();
        assert_eq!(number(&e), expected[m as usize]);
        assert_eq!(number(&from_encoding(&e, &p, &q)), m);
    }
    // 3 + 1 is a square above q, so it does not come back
    let e = to_encoding(&n(3), &p, &q).unwrap();
    assert_eq!(number(&e), 4);
    assert_eq!(number(&from_encoding(&e, &p, &q)), 2);
    assert_eq!(number(&from_encoding(&n(6), &p, &q)), 0);
    assert_eq!(number(&from_encoding(&n(0), &p, &q)), 6);
    assert_eq!(to_encoding(&n(6), &p, &q).err(), Some(OtError::EncodingOutOfRange));
    assert_eq!(to_encoding(&n(7), &p, &q).err(), Some(OtError::EncodingOutOfRange));
}

#[test]
fn encode_round_trip_large() {
    let group = short_group();
    let keys = create_secret_keys(&group, 1000);
    for m in keys.iter() {
        // a random number below q
        let e = to_encoding(m, &group.p, &group.q).unwrap();
        assert!(from_encoding(&e, &group.p, &group.q).same(m));
    }
    let (_, minus_one) = get_one_and_minus_one_mod(&group.p);
    assert_eq!(
        to_encoding(&minus_one, &group.p, &group.q).err(),
        Some(OtError::EncodingOutOfRange)
    );
}

#[test]
fn generator_is_a_square_of_the_group() {
    let group = big_group();
    let (one, minus_one) = get_one_and_minus_one_mod(&group.p);
    assert!(!group.g.same(&one));
    assert!(!group.g.same(&minus_one));
    assert!(half(&group.p).same(&group.q));
    let g = get_generator(&group.p).unwrap();
    assert!(group_from_generator(&group.p.bytes, &g).is_ok());
    assert!(group.carries(256));
    assert!(group.carries(2046));
    assert!(!group.carries(2047));
    assert!(!group.carries(3000));
    let short = short_group();
    assert!(short.carries(0));
    assert!(short.carries(510));
    assert!(!short.carries(511));
    assert!(small_group().carries(5));
    assert!(!small_group().carries(6));
}

#[test]
fn base_ot_identity() {
    let group = short_group();
    for _ in 0..1000 {
        let messages = vec![(int_to_boolvec_len(7, 256), int_to_boolvec_len(42, 256))];
        let out = ote(messages, vec![true], 0, &group).unwrap();
        assert_eq!(out, vec![int_to_boolvec_len(42, 256)]);
    }
    let group = small_group();
    let messages = vec![(int_to_boolvec_len(7, 7), int_to_boolvec_len(42, 7))];
    assert_eq!(ote(messages, vec![true], 0, &group).unwrap(), vec![int_to_boolvec_len(42, 7)]);
    let group = big_group();
    for _ in 0..3 {
        let messages = vec![(int_to_boolvec_len(7, 256), int_to_boolvec_len(42, 256))];
        let out = ote(messages.clone(), vec![true], 0, &group).unwrap();
        assert_eq!(out, vec![int_to_boolvec_len(42, 256)]);
        let out = ote(messages, vec![false], 0, &group).unwrap();
        assert_eq!(out, vec![int_to_boolvec_len(7, 256)]);
    }
}

#[test]
fn base_ot_batch() {
    let group = short_group();
    let messages: Vec<(Vec<bool>, Vec<bool>)> =
        (0..9usize).map(|i| (int_to_bool_vec(i), int_to_bool_vec(i + 1))).collect();
    let choice: Vec<bool> = (0..9).map(|_| rand::random()).collect();
    let out = ote(messages, choice.clone(), 0, &group).unwrap();
    assert_eq!(out.len(), 9);
    for i in 0..9usize {
        assert_eq!(out[i], int_to_bool_vec(i + choice[i] as usize));
    }
}

#[test]
fn base_ot_refusals() {
    let group = small_group();
    let pair = (int_to_boolvec_len(7, 7), int_to_boolvec_len(42, 7));
    assert_eq!(ote(vec![pair.clone()], vec![], 0, &group).err(), Some(OtError::LengthMismatch));
    assert_eq!(
        ote(vec![pair.clone(), (int_to_boolvec_len(1, 7), int_to_boolvec_len(1, 6))], vec![true, false], 0, &group).err(),
        Some(OtError::LengthMismatch)
    );
    // 106 is the prime less one
    assert_eq!(
        ote(vec![(int_to_boolvec_len(106, 7), int_to_boolvec_len(1, 7))], vec![true], 0, &group).err(),
        Some(OtError::EncodingOutOfRange)
    );
    assert_eq!(
        ote(vec![(vec![false; 513], vec![false; 513])], vec![true], 0, &group).err(),
        Some(OtError::EncodingOutOfRange)
    );
    assert_eq!(ote(vec![], vec![], 0, &group).unwrap(), Vec::<Vec<bool>>::new());
    // a message from q up passes, but changed
    let out = ote(vec![(int_to_boolvec_len(60, 7), int_to_boolvec_len(1, 7))], vec![false], 0, &group).unwrap();
    assert_ne!(out[0], int_to_boolvec_len(60, 7));
}

#[test]
fn three_moves_by_hand() {
    let group = small_group();
    let choice = vec![false, true, true];
    let sk = create_secret_keys(&group, 3);
    let keys = commit_choice(&group, &sk, &choice);
    assert_eq!(keys.len(), 3);
    let messages: Vec<(Natural, Natural)> =
        (0..3u64).map(|i| (n(10 + i), n(20 + i))).collect();
    let sealed = send(&group, &keys, &messages).unwrap();
    assert_eq!(sealed.len(), 3);
    let out = receive_(&group, &sealed, &sk, &choice).unwrap();
    assert_eq!(out.iter().map(number).collect::<Vec<u64>>(), vec![10, 21, 22]);
    let bits = receive_bits(&group, &sealed, &sk, &choice, 6).unwrap();
    assert_eq!(bits[1], int_to_boolvec_len(21, 6));

    assert_eq!(send(&group, &keys, &messages[..2].to_vec()).err(), Some(OtError::LengthMismatch));
    assert_eq!(receive_(&group, &sealed, &sk, &vec![true]).err(), Some(OtError::LengthMismatch));
    assert_eq!(
        receive_(&group, &sealed, &sk[..2].to_vec(), &choice).err(),
        Some(OtError::LengthMismatch)
    );
    let too_big = vec![(n(106), n(0)); 3];
    assert_eq!(send(&group, &keys, &too_big).err(), Some(OtError::EncodingOutOfRange));

    // a ciphertext whose first part is zero cannot be opened
    let mut broken = sealed.clone();
    broken[0].0 .0 = n(0);
    assert_eq!(
        receive_(&group, &broken, &sk, &choice).err(),
        Some(OtError::GroupInvariantViolation)
    );
    // the place that is not chosen does not matter
    let mut other = sealed.clone();
    other[0].1 .0 = n(0);
    assert!(receive_(&group, &other, &sk, &choice).is_ok());

    let keys_one = commit_one(&group, &sk[0], true);
    let sealed_one = send_one(&group, &keys_one, &(n(3), n(4))).unwrap();
    assert_eq!(number(&open_one(&group, &sealed_one.1, &sk[0]).unwrap()), 4);
    assert_eq!(send_one(&group, &keys_one, &(n(3), n(106))).err(), Some(OtError::EncodingOutOfRange));
    let e = to_encoding(&n(9), &group.p, &group.q).unwrap();
    let ct = seal(&group, &keys_one.1, &e);
    assert_eq!(number(&open_one(&group, &ct, &sk[0]).unwrap()), 9);
    assert_eq!(
        open_one(&group, &(n(0), n(5)), &sk[0]).err(),
        Some(OtError::GroupInvariantViolation)
    );

    let as_bits: Vec<(Vec<bool>, Vec<bool>)> =
        (0..3usize).map(|i| (int_to_boolvec_len(10 + i, 6), int_to_boolvec_len(20 + i, 6))).collect();
    let numbers = messages_to_naturals(&as_bits, &group.p);
    assert_eq!(number(&numbers[2].1), 22);
    let sealed = send_bits(&group, &keys, &as_bits).unwrap();
    let bits = receive_bits(&group, &sealed, &sk, &choice, 6).unwrap();
    assert_eq!(bits, vec![int_to_boolvec_len(10, 6), int_to_boolvec_len(21, 6), int_to_boolvec_len(22, 6)]);
}
