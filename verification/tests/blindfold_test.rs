use ark_bn254::Fr;
use ark_ff::{BigInt, PrimeField};
use light_poseidon::{Poseidon, PoseidonHasher};

use jolt_transpiler::gnark_blindfold_transcript::GnarkBlindFoldTranscript;
use jolt_transpiler::zk_fiat_shamir::derive_zk_fiat_shamir_challenges;

fn h(a: Fr, b: Fr, c: Fr) -> Fr {
    Poseidon::<Fr>::new_circom(3).unwrap().hash(&[a, b, c]).unwrap()
}

fn limbs(f: Fr) -> [u64; 4] {
    f.into_bigint().0
}

fn fr(l: [u64; 4]) -> Fr {
    Fr::from_bigint(BigInt::new(l)).unwrap()
}

fn le(b: &[u8]) -> Fr {
    Fr::from_le_bytes_mod_order(b)
}

#[test]
fn init_state_is_the_hash_of_the_label() {
    let t = GnarkBlindFoldTranscript::new(b"BlindFold");
    assert_eq!(t.state(), limbs(h(le(b"BlindFold"), Fr::from(0u64), Fr::from(0u64))));
    assert_eq!(t.n_rounds(), 0);
    let d = GnarkBlindFoldTranscript::default_transcript();
    assert_eq!(d.state(), GnarkBlindFoldTranscript::new(b"default").state());
}

#[test]
fn labels_are_absorbed_with_the_round() {
    let mut t = GnarkBlindFoldTranscript::new(b"test");
    let s0 = fr(t.state());
    t.raw_append_label(b"my_label");
    assert_eq!(t.state(), limbs(h(s0, Fr::from(0u64), le(b"my_label"))));
    assert_eq!(t.n_rounds(), 1);
}

#[test]
fn labels_with_length_are_packed() {
    let mut t = GnarkBlindFoldTranscript::new(b"test");
    let s0 = fr(t.state());
    t.raw_append_label_with_len(b"scalars", 5);
    let mut packed = [0u8; 32];
    packed[..7].copy_from_slice(b"scalars");
    packed[24..32].copy_from_slice(&5u64.to_be_bytes());
    assert_eq!(t.state(), limbs(h(s0, Fr::from(0u64), le(&packed))));
}

#[test]
fn long_byte_strings_are_chained() {
    let mut t = GnarkBlindFoldTranscript::new(b"chunk");
    t.raw_append_u64(7);
    let s0 = fr(t.state());
    let data = vec![0xABu8; 65];
    t.raw_append_bytes(&data);
    let zero = Fr::from(0u64);
    let c1 = h(s0, Fr::from(1u64), le(&data[0..32]));
    let c2 = h(c1, zero, le(&data[32..64]));
    let c3 = h(c2, zero, le(&data[64..65]));
    assert_eq!(t.state(), limbs(c3));
    assert_eq!(t.n_rounds(), 2);

    let s1 = fr(t.state());
    t.raw_append_bytes(&[]);
    assert_eq!(t.state(), limbs(h(s1, Fr::from(2u64), zero)));
}

#[test]
fn scalars_and_serializations() {
    let mut t = GnarkBlindFoldTranscript::new(b"test");
    let s0 = fr(t.state());
    t.raw_append_scalar([42, 0, 0, 0]);
    let s1 = h(s0, Fr::from(0u64), Fr::from(42u64));
    assert_eq!(t.state(), limbs(s1));
    t.append_serializable(b"blindfold_u", &[1u8, 2, 3]);
    let mut packed = [0u8; 32];
    packed[..11].copy_from_slice(b"blindfold_u");
    packed[24..32].copy_from_slice(&3u64.to_be_bytes());
    let s2 = h(s1, Fr::from(1u64), le(&packed));
    let s3 = h(s2, Fr::from(2u64), le(&[1, 2, 3]));
    assert_eq!(t.state(), limbs(s3));
    assert_eq!(t.n_rounds(), 3);
}

#[test]
fn challenges_squeeze_the_state() {
    let mut t = GnarkBlindFoldTranscript::new(b"challenge_test");
    let s0 = fr(t.state());
    let c = t.challenge_scalar();
    let expected = h(s0, Fr::from(0u64), Fr::from(0u64));
    assert_eq!(c, limbs(expected));
    assert_eq!(t.state(), c);
    let u = t.challenge_u128();
    let next = limbs(h(expected, Fr::from(1u64), Fr::from(0u64)));
    assert_eq!(u, (next[0] as u128) | ((next[1] as u128) << 64));
    let v = t.challenge_vector(2);
    assert_eq!(v[1], limbs(h(fr(v[0]), Fr::from(3u64), Fr::from(0u64))));
    assert_eq!(t.n_rounds(), 4);
}

#[test]
fn challenge_powers_are_successive_products() {
    let mut t = GnarkBlindFoldTranscript::new(b"powers");
    let s0 = fr(t.state());
    let p = t.challenge_scalar_powers(4);
    let q = h(s0, Fr::from(0u64), Fr::from(0u64));
    assert_eq!(p, vec![limbs(Fr::from(1u64)), limbs(q), limbs(q * q), limbs(q * q * q)]);
    assert!(t.challenge_scalar_powers(0).is_empty());
    assert_eq!(t.n_rounds(), 2);
}

#[test]
fn zk_fiat_shamir_stages_replay_the_transcript() {
    let rounds = [2usize, 0, 1];
    let labels = vec![b"stage_1".to_vec(), b"stage_2".to_vec(), b"stage_3".to_vec()];
    let cfrs = [[5u64, 0, 0, 0], [7, 1, 0, 0], [9, 0, 0, 0]];
    let got = derive_zk_fiat_shamir_challenges(&rounds, &labels, &cfrs);
    assert_eq!(got.len(), 3);

    let zero = Fr::from(0u64);
    let mut s = h(le(b"Jolt"), zero, zero);
    let mut n = 0u64;
    let mut expected = Vec::new();
    let mut next = 0;
    for (stage, &k) in rounds.iter().enumerate() {
        s = h(s, Fr::from(n), le(&labels[stage]));
        n += 1;
        for _ in 0..k {
            s = h(s, Fr::from(n), le(b"sumcheck_commitment"));
            n += 1;
            s = h(s, Fr::from(n), fr(cfrs[next]));
            n += 1;
            next += 1;
            s = h(s, Fr::from(n), zero);
            n += 1;
            expected.push(limbs(s));
        }
    }
    assert_eq!(got, expected);

    let mut t = GnarkBlindFoldTranscript::new(b"Jolt");
    let a = t.challenge_scalar_128_bits();
    let mut u = GnarkBlindFoldTranscript::new(b"Jolt");
    assert_eq!(a, u.challenge_scalar());
}
