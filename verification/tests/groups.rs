use ot_extension::natural::{half, Natural};
use ot_extension::ot_primitive::{
    from_encoding, generator_from_draw, get_generator, group_from_generator, make_group,
    make_group_of_bits, prime_candidate, to_encoding, OtError,
};

const SAFE_512: &str = "FFFFFFFFFFFFFFFFFFFFFFFFFFFFFFFFFFFFFFFFFFFFFFFFFFFFFFFFFFFFFFFFFFFFFFFFFFFFFFFFFFFFFFFFFFFFFFFFFFFFFFFFFFFFFFFFFFFFFFFFFFFF6B1B";

const MODP_2048: &str = "FFFFFFFFFFFFFFFFC90FDAA22168C234C4C6628B80DC1CD129024E088A67CC74020BBEA63B139B22514A08798E3404DDEF9519B3CD3A431B302B0A6DF25F14374FE1356D6D51C245E485B576625E7EC6F44C42E9A637ED6B0BFF5CB6F406B7EDEE386BFB5A899FA5AE9F24117C4B1FE649286651ECE45B3DC2007CB8A163BF0598DA48361C55D39A69163FA8FD24CF5F83655D23DCA3AD961C62F356208552BB9ED529077096966D670C354E4ABC9804F1746C08CA18217C32905E462E36CE3BE39E772C180E86039B2783A2EC07A28FB5C55DF06F4C52C9DE2BCBF6955817183995497CEA956AE515D2261898FA051015728E5A8AACAA68FFFFFFFFFFFFFFFF";

fn hex_bytes(hex: &str) -> Vec<u8> {
    let digits: Vec<u8> = hex.bytes().map(|c| (c as char).to_digit(16).unwrap() as u8).collect();
    digits.chunks(2).map(|d| d[0] * 16 + d[1]).collect()
}

fn small_prime_bytes(p: u64) -> Vec<u8> {
    Natural::from_u64(p, 64).bytes
}

#[test]
fn modp_prime_is_safe() {
    let bytes = hex_bytes(MODP_2048);
    assert_eq!(bytes.len(), 256);
    let p = crypto_bigint::U2048::from_be_slice(&bytes);
    assert!(crypto_primes::is_safe_prime(&p));
}

#[test]
fn short_prime_is_safe() {
    let bytes = hex_bytes(SAFE_512);
    assert_eq!(bytes.len(), 64);
    let p = crypto_bigint::U512::from_be_slice(&bytes);
    assert!(crypto_primes::is_safe_prime(&p));
}

#[test]
fn group_of_modp_prime() {
    let bytes = hex_bytes(MODP_2048);
    let group = make_group(&bytes).unwrap();
    assert_eq!(group.p.bytes, bytes);
    assert_eq!(group.q.bytes, half(&group.p).bytes);
    let g = group_from_generator(&bytes, &Natural::from_u64(4, 256)).unwrap();
    assert_eq!(g.g.bytes, Natural::from_u64(4, 256).bytes);
    // a generator of another width is none of this group
    assert_eq!(
        group_from_generator(&bytes, &Natural::from_u64(4, 64)).err(),
        Some(OtError::GroupInvariantViolation)
    );
}

#[test]
fn group_of_short_prime() {
    let bytes = hex_bytes(SAFE_512);
    let group = make_group(&bytes).unwrap();
    assert_eq!(group.p.bytes, bytes);
    assert_eq!(group.g.bytes.len(), 64);
    assert!(group_from_generator(&bytes, &group.g).is_ok());
    assert!(group_from_generator(&bytes, &Natural::from_u64(4, 64)).is_ok());
    assert_eq!(
        group_from_generator(&bytes, &Natural::from_u64(1, 64)).err(),
        Some(OtError::GroupInvariantViolation)
    );
    assert_eq!(
        group_from_generator(&bytes, &Natural::from_u64(0, 64)).err(),
        Some(OtError::GroupInvariantViolation)
    );
    let mut minus_one = bytes.clone();
    minus_one[63] -= 1;
    assert_eq!(
        group_from_generator(&bytes, &Natural::from_be_bytes(minus_one).unwrap()).err(),
        Some(OtError::GroupInvariantViolation)
    );
}

#[test]
fn prime_candidates() {
    assert!(prime_candidate(&hex_bytes(SAFE_512)).is_some());
    assert!(prime_candidate(&small_prime_bytes(7)).is_some());
    assert!(prime_candidate(&small_prime_bytes(11)).is_some());
    assert!(prime_candidate(&small_prime_bytes(3)).is_none());
    assert!(prime_candidate(&small_prime_bytes(5)).is_none());
    assert!(prime_candidate(&small_prime_bytes(13)).is_none());
    assert!(prime_candidate(&small_prime_bytes(8)).is_none());
    assert!(prime_candidate(&vec![1u8; 65]).is_none());
    assert!(prime_candidate(&vec![]).is_none());
    assert_eq!(make_group(&small_prime_bytes(8)).err(), Some(OtError::PersistenceError));
    // 15 passes for a prime here, but no square modulo 15 has order 7
    assert_eq!(make_group(&small_prime_bytes(15)).err(), Some(OtError::GroupInvariantViolation));
}

#[test]
fn group_small() {
    let g = group_from_generator(&small_prime_bytes(107), &Natural::from_u64(4, 64)).unwrap();
    assert_eq!(g.q.bytes, Natural::from_u64(53, 64).bytes);
    // 2 is no square modulo 107
    assert_eq!(
        group_from_generator(&small_prime_bytes(107), &Natural::from_u64(2, 64)).err(),
        Some(OtError::GroupInvariantViolation)
    );
    assert_eq!(
        group_from_generator(&small_prime_bytes(106), &Natural::from_u64(4, 64)).err(),
        Some(OtError::PersistenceError)
    );
    assert_eq!(make_group(&vec![1u8; 255]).err(), Some(OtError::PersistenceError));
}

#[test]
fn encode_round_trip_small() {
    let p = Natural::from_u64(107, 64);
    let q = Natural::from_u64(53, 64);
    for m in 0..53u64 {
        let e = to_encoding(&Natural::from_u64(m, 64), &p, &q).unwrap();
        let back = from_encoding(&e, &p, &q);
        assert_eq!(back.bytes, Natural::from_u64(m, 64).bytes);
    }
    assert_eq!(
        to_encoding(&Natural::from_u64(106, 64), &p, &q).err(),
        Some(OtError::EncodingOutOfRange)
    );
    assert!(to_encoding(&Natural::from_u64(105, 64), &p, &q).is_ok());
}

#[test]
fn fresh_group_of_64_bits() {
    let (bytes, group) = make_group_of_bits(64);
    assert_eq!(bytes.len(), 64);
    assert!(bytes[..56].iter().all(|b| *b == 0));
    assert!(bytes[56] >= 0x80);
    let p = crypto_bigint::U512::from_be_slice(&bytes);
    assert!(crypto_primes::is_safe_prime(&p));
    let group = group.unwrap();
    assert_eq!(group.p.bytes, bytes);
    assert_eq!(group.q.bytes, half(&group.p).bytes);
    let (other, _) = make_group_of_bits(64);
    assert_ne!(other, bytes);
}

#[test]
fn generator_from_each_draw() {
    let p = Natural::from_u64(107, 64);
    assert!(generator_from_draw(&Natural::from_u64(1, 64), &p).is_none());
    assert!(generator_from_draw(&Natural::from_u64(106, 64), &p).is_none());
    let g = generator_from_draw(&Natural::from_u64(105, 64), &p).unwrap();
    assert_eq!(g.bytes, Natural::from_u64(4, 64).bytes);
    let g = generator_from_draw(&Natural::from_u64(0, 64), &p).unwrap();
    assert_eq!(g.bytes, Natural::from_u64(0, 64).bytes);
    let g = generator_from_draw(&Natural::from_u64(50, 64), &p).unwrap();
    assert_eq!(g.bytes, Natural::from_u64(2500 % 107, 64).bytes);
    // of the three residues modulo three only zero is taken
    let three = Natural::from_u64(3, 64);
    for _ in 0..20 {
        let g = get_generator(&three).unwrap();
        assert_eq!(g.bytes, Natural::from_u64(0, 64).bytes);
    }
}
