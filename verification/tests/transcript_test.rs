use blake2::digest::consts::U32;
use blake2::{Blake2b, Digest};
use jolt_transpiler::blake2b::Blake2bAstTranscript;
use jolt_transpiler::bytes::bytes_to_scalar;
use jolt_transpiler::codegen::generate_gnark_expr;
use jolt_transpiler::mle_ast::{Arena, Atom, Edge, MleAst, Node, TranscriptHashData};
use jolt_transpiler::poseidon::PoseidonMleTranscript;

type Blake2b256 = Blake2b<U32>;

#[test]
fn test_label_to_field() {
    // "jolt" = [0x6a, 0x6f, 0x6c, 0x74] in ASCII, read little-endian.
    let mut arena = Arena::new();
    let label_field = PoseidonMleTranscript::label_to_field(&mut arena, b"jolt");
    let root = label_field.root();
    let node = arena.get_node(root).clone();
    match node {
        Node::Atom(Atom::Scalar(v)) => {
            let expected = 0x6a_u64 + (0x6f_u64 << 8) + (0x6c_u64 << 16) + (0x74_u64 << 24);
            assert_eq!(v, [expected, 0, 0, 0], "Label 'jolt' should be {} but got {:?}", expected, v);
        },
        _ => panic!("Expected Scalar atom, got {:?}", node),
    }
}

#[test]
fn poseidon_test_transcript_creation() {
    let mut arena = Arena::new();
    let transcript = PoseidonMleTranscript::new(&mut arena, b"test");
    assert_eq!(transcript.n_rounds, 0);
}

#[test]
fn test_transcript_with_jolt_label() {
    let mut arena = Arena::new();
    let transcript = PoseidonMleTranscript::new(&mut arena, b"Jolt");
    assert_eq!(transcript.n_rounds, 0);

    // The initial state is poseidon(label, 0, 0).
    let root = transcript.state.root();
    match arena.get_node(root) {
        Node::TranscriptHash(TranscriptHashData::Poseidon(_), _, _) => {},
        node => panic!("Expected Poseidon node for initial state, got {:?}", node),
    }
}

#[test]
fn poseidon_test_append_and_challenge() {
    let mut arena = Arena::new();
    let mut transcript = PoseidonMleTranscript::new(&mut arena, b"test");
    let x = MleAst::from_i128(&mut arena, 42);
    transcript.hash_and_update(&mut arena, x);
    let _challenge = transcript.challenge_mle(&mut arena);
    assert_eq!(transcript.n_rounds, 2); // 1 append + 1 challenge
}

#[test]
fn test_append_scalar_with_mle_ast() {
    let mut arena = Arena::new();
    let mut transcript = PoseidonMleTranscript::new(&mut arena, b"test");
    let var = MleAst::from_var(&mut arena, 42);
    transcript.hash_and_update(&mut arena, var);
    match arena.get_node(transcript.state.root()) {
        Node::TranscriptHash(TranscriptHashData::Poseidon(Edge::Atom(Atom::Var(idx))), _, _) => {
            assert_eq!(*idx, 42, "Expected Var(42), got Var({})", idx);
        },
        node => panic!("Expected Poseidon node hashing Var(42), got {:?}", node),
    }
}

#[test]
fn poseidon_rounds_count_every_absorb_and_squeeze() {
    let mut arena = Arena::new();
    let mut transcript = PoseidonMleTranscript::new(&mut arena, b"x");
    let a = MleAst::from_i128(&mut arena, 1);
    let b = MleAst::from_i128(&mut arena, 2);
    transcript.append_field_elements(&mut arena, &[a, b]);
    assert_eq!(transcript.n_rounds, 1);
    let cs = transcript.challenge_vector_mle(&mut arena, 3);
    assert_eq!(cs.len(), 3);
    assert_eq!(transcript.n_rounds, 4);
    let text = generate_gnark_expr(&arena, transcript.state.root());
    assert!(text.starts_with("poseidon.Hash(api, "));
}

#[test]
fn blake2b_test_transcript_creation() {
    let mut arena = Arena::new();
    let transcript = Blake2bAstTranscript::new(&mut arena, b"test");
    assert_eq!(transcript.n_rounds, 0);
    match arena.get_node(transcript.state.root()) {
        Node::Atom(Atom::Scalar(_)) => {},
        node => panic!("Expected concrete Scalar for Blake2b init, got {node:?}"),
    }
}

#[test]
fn blake2b_test_append_and_challenge() {
    let mut arena = Arena::new();
    let mut transcript = Blake2bAstTranscript::new(&mut arena, b"test");
    let x = MleAst::from_u64(&mut arena, 42);
    transcript.hash_and_update(&mut arena, x);
    let _challenge = transcript.challenge_ast(&mut arena);
    assert_eq!(transcript.n_rounds, 2); // 1 append + 1 challenge
}

#[test]
fn test_blake2b_uses_correct_backend() {
    let mut arena = Arena::new();
    let mut transcript = Blake2bAstTranscript::new(&mut arena, b"test");
    let x = MleAst::from_u64(&mut arena, 1);
    transcript.hash_and_update(&mut arena, x);
    match arena.get_node(transcript.state.root()) {
        Node::TranscriptHash(TranscriptHashData::Blake2b(data), _, _) => {
            assert_eq!(data.len(), 1, "hash_and_update should produce 1 data element");
        },
        node => panic!("Expected TranscriptHash(Blake2b, ...) node, got {node:?}"),
    }
}

#[test]
fn test_challenge_produces_empty_data() {
    let mut arena = Arena::new();
    let mut transcript = Blake2bAstTranscript::new(&mut arena, b"test");
    let challenge = transcript.challenge_ast(&mut arena);
    match arena.get_node(challenge.root()) {
        Node::TranscriptHash(TranscriptHashData::Blake2b(data), _, _) => {
            assert!(data.is_empty(), "challenge should produce empty data vec");
        },
        node => panic!("Expected TranscriptHash(Blake2b, ...) node, got {node:?}"),
    }
}

#[test]
fn test_concrete_init_matches_jolt_core() {
    let mut arena = Arena::new();
    let transcript = Blake2bAstTranscript::new(&mut arena, b"Jolt");

    let mut label_padded = vec![0u8; 32];
    label_padded[..4].copy_from_slice(b"Jolt");
    let expected: [u8; 32] = Blake2b256::new().chain_update(&label_padded).finalize().into();
    let expected_limbs = bytes_to_scalar(&expected);

    match arena.get_node(transcript.state.root()) {
        Node::Atom(Atom::Scalar(s)) => assert_eq!(*s, expected_limbs, "Blake2b init state doesn't match expected"),
        node => panic!("Expected concrete Scalar, got {node:?}"),
    }
}

#[test]
fn blake2b_label_is_padded_to_four_words() {
    let mut arena = Arena::new();
    let r = Blake2bAstTranscript::label_to_field(&mut arena, b"abcdefghi");
    match arena.get_node(r.root()) {
        Node::Atom(Atom::Scalar(s)) => {
            assert_eq!(s[0], u64::from_le_bytes(*b"abcdefgh"));
            assert_eq!(s[1], b'i' as u64);
            assert_eq!(s[2], 0);
            assert_eq!(s[3], 0);
        },
        node => panic!("Expected Scalar, got {node:?}"),
    }
}

fn scalar_of(arena: &Arena, id: usize) -> [u64; 4] {
    match arena.get_node(id) {
        Node::Atom(Atom::Scalar(v)) => *v,
        other => panic!("expected a constant, got {:?}", other),
    }
}

#[test]
fn poseidon_message_is_absorbed_as_its_whole_word() {
    let mut arena = Arena::new();
    let mut t = PoseidonMleTranscript::new(&mut arena, b"test");
    let base = arena.len();
    let msg = b"begin_append_vector";
    t.append_message(&mut arena, msg);
    assert_eq!(arena.len(), base + 3);
    let mut word = [0u8; 32];
    word[..msg.len()].copy_from_slice(msg);
    let limb = |k: usize| u64::from_le_bytes(word[8 * k..8 * k + 8].try_into().unwrap());
    assert_eq!(scalar_of(&arena, base), [limb(0), limb(1), limb(2), 0]);
    assert_ne!(limb(2), 0);
    assert_eq!(scalar_of(&arena, base + 1), [0, 0, 0, 0]);
    assert_eq!(t.state.root(), base + 2);
    assert_eq!(t.n_rounds, 1);
}

#[test]
fn poseidon_u64_is_packed_big_endian_at_the_end_of_the_word() {
    let mut arena = Arena::new();
    let mut t = PoseidonMleTranscript::new(&mut arena, b"test");
    let base = arena.len();
    let x: u64 = 0x0102_0304_0506_0708;
    t.append_u64(&mut arena, x);
    assert_eq!(scalar_of(&arena, base), [0, 0, 0, x.swap_bytes()]);
    assert_eq!(t.state.root(), base + 2);
    let base1 = arena.len();
    t.append_u64(&mut arena, 1);
    assert_eq!(scalar_of(&arena, base1), [0, 0, 0, 1u64 << 56]);
    assert_eq!(t.n_rounds, 2);
}

#[test]
fn poseidon_long_labels_are_read_whole() {
    let mut arena = Arena::new();
    let label = b"abcdefghijklmnopqrstuvwxyz";
    let r = PoseidonMleTranscript::label_to_field(&mut arena, label);
    let mut word = [0u8; 32];
    word[..label.len()].copy_from_slice(label);
    let limb = |k: usize| u64::from_le_bytes(word[8 * k..8 * k + 8].try_into().unwrap());
    assert_eq!(scalar_of(&arena, r.root()), [limb(0), limb(1), limb(2), limb(3)]);
}

#[test]
fn poseidon_bytes_are_chained_per_chunk() {
    let mut arena = Arena::new();
    let mut t = PoseidonMleTranscript::new(&mut arena, b"test");
    let base = arena.len();
    let s0 = t.state.root();
    let bytes: Vec<u8> = (1..=40).collect();
    t.append_bytes(&mut arena, &bytes);
    assert_eq!(arena.len(), base + 6);
    assert_eq!(scalar_of(&arena, base), [0, 0, 0, 0]);
    assert_eq!(scalar_of(&arena, base + 1), [0, 0, 0, 0]);
    let limb = |k: usize| u64::from_le_bytes(bytes[8 * k..8 * k + 8].try_into().unwrap());
    assert_eq!(scalar_of(&arena, base + 2), [limb(0), limb(1), limb(2), limb(3)]);
    assert_eq!(scalar_of(&arena, base + 4), [u64::from_le_bytes(bytes[32..40].try_into().unwrap()), 0, 0, 0]);
    match arena.get_node(base + 3) {
        Node::TranscriptHash(TranscriptHashData::Poseidon(_), Edge::NodeRef(s), Edge::Atom(Atom::Scalar(r))) => {
            assert_eq!((*s, *r), (s0, [0, 0, 0, 0]));
        },
        other => panic!("unexpected {:?}", other),
    }
    match arena.get_node(base + 5) {
        Node::TranscriptHash(TranscriptHashData::Poseidon(_), Edge::NodeRef(s), Edge::Atom(Atom::Scalar(r))) => {
            assert_eq!((*s, *r), (base + 3, [0, 0, 0, 0]));
        },
        other => panic!("unexpected {:?}", other),
    }
    assert_eq!(t.state.root(), base + 5);
    assert_eq!(t.n_rounds, 1);

    let before = arena.len();
    t.append_bytes(&mut arena, &[]);
    assert_eq!(arena.len(), before + 3);
    assert_eq!(scalar_of(&arena, before), [1, 0, 0, 0]);
    assert_eq!(t.n_rounds, 2);
}

#[test]
fn poseidon_vectors_are_framed_by_messages() {
    let mut arena = Arena::new();
    let mut t = PoseidonMleTranscript::new(&mut arena, b"test");
    let a = MleAst::from_var(&mut arena, 0);
    let b = MleAst::from_var(&mut arena, 1);
    let base = arena.len();
    t.append_scalars(&mut arena, &[a, b]);
    assert_eq!(arena.len(), base + 10);
    assert_eq!(t.n_rounds, 4);
    t.append_points(&mut arena, 2);
    assert_eq!(arena.len(), base + 22);
    assert_eq!(t.n_rounds, 8);
    t.append_point(&mut arena);
    t.append_serializable(&mut arena);
    assert_eq!(t.n_rounds, 10);
}

#[test]
fn poseidon_challenge_powers_multiply_by_the_challenge() {
    let mut arena = Arena::new();
    let mut t = PoseidonMleTranscript::new(&mut arena, b"test");
    let base = arena.len();
    let powers = t.challenge_scalar_powers(&mut arena, 3);
    assert_eq!(powers.iter().map(|p| p.root()).collect::<Vec<_>>(), vec![base + 3, base + 4, base + 5]);
    assert_eq!(scalar_of(&arena, base + 3), [1, 0, 0, 0]);
    assert_eq!(arena.get_node(base + 4), &Node::Mul(Edge::Atom(Atom::Scalar([1, 0, 0, 0])), Edge::NodeRef(base + 2)));
    assert_eq!(arena.get_node(base + 5), &Node::Mul(Edge::NodeRef(base + 4), Edge::NodeRef(base + 2)));
    assert_eq!(arena.len(), base + 7);
    assert_eq!(t.challenge_u128(&mut arena), 0);
    let c = t.challenge_scalar(&mut arena);
    assert_eq!(t.state, c);
    let v = t.challenge_vector(&mut arena, 2);
    assert_eq!(v.len(), 2);
    assert_eq!(t.n_rounds, 5);
}

#[test]
fn blake2b_bytes_are_hashed_in_one_call() {
    let mut arena = Arena::new();
    let mut t = Blake2bAstTranscript::new(&mut arena, b"test");
    let base = arena.len();
    let bytes: Vec<u8> = (1..=40).collect();
    t.raw_append_bytes(&mut arena, &bytes);
    assert_eq!(arena.len(), base + 4);
    let mut first = [0u8; 32];
    first.copy_from_slice(&bytes[0..32]);
    assert_eq!(scalar_of(&arena, base), bytes_to_scalar(&first));
    let mut second = [0u8; 32];
    second[..8].copy_from_slice(&bytes[32..40]);
    assert_eq!(scalar_of(&arena, base + 1), bytes_to_scalar(&second));
    match arena.get_node(base + 3) {
        Node::TranscriptHash(TranscriptHashData::Blake2b(data), _, _) => assert_eq!(data.len(), 2),
        other => panic!("unexpected {:?}", other),
    }
    assert_eq!(t.state.root(), base + 3);
}

#[test]
fn blake2b_challenges_are_truncated() {
    let mut arena = Arena::new();
    let mut t = Blake2bAstTranscript::new(&mut arena, b"test");
    let x = MleAst::from_var(&mut arena, 0);
    let base = arena.len();
    t.raw_append_scalar(&mut arena, x);
    assert_eq!(arena.get_node(base), &Node::ByteReverse(Edge::Atom(Atom::Var(0))));
    let c = t.challenge_scalar(&mut arena);
    assert_eq!(arena.get_node(c.root()), &Node::Truncate128(Edge::NodeRef(c.root() - 1)));
    let o = t.challenge_scalar_optimized(&mut arena);
    assert_eq!(arena.get_node(o.root()), &Node::Truncate128Reverse(Edge::NodeRef(o.root() - 1)));
    let v = t.challenge_vector(&mut arena, 2);
    assert_eq!(v[1].root(), v[0].root() + 3);
    let p = t.challenge_scalar_powers(&mut arena, 2);
    assert_eq!(arena.get_node(p[1].root()), &Node::Mul(Edge::Atom(Atom::Scalar([1, 0, 0, 0])), Edge::NodeRef(p[0].root() - 1)));
    assert_eq!(t.challenge_u128(&mut arena), 0);
    assert_eq!(t.n_rounds, 7);
    let d = Blake2bAstTranscript::default_in(&mut arena);
    assert_eq!((d.n_rounds, scalar_of(&arena, d.state.root())), (0, [0, 0, 0, 0]));
}

#[test]
fn symbolic_u64_and_points_are_hashed_as_elements() {
    let mut arena = Arena::new();
    let mut t = PoseidonMleTranscript::new(&mut arena, b"test");
    let v = MleAst::from_var(&mut arena, 3);
    let base = arena.len();
    t.append_u64_symbolic(&mut arena, v);
    assert_eq!(arena.len(), base + 2);
    match arena.get_node(base + 1) {
        Node::TranscriptHash(TranscriptHashData::Poseidon(Edge::Atom(Atom::Var(3))), _, _) => {},
        other => panic!("unexpected {:?}", other),
    }
    let mut b = Blake2bAstTranscript::new(&mut arena, b"test");
    let before = arena.len();
    b.raw_append_point(&mut arena);
    assert_eq!(scalar_of(&arena, before), [0, 0, 0, 0]);
    match arena.get_node(before + 2) {
        Node::TranscriptHash(TranscriptHashData::Blake2b(data), _, _) => assert_eq!(data.len(), 1),
        other => panic!("unexpected {:?}", other),
    }
}

#[test]
fn blake2b_optimized_powers_multiply_the_challenge_first() {
    let mut arena = Arena::new();
    let mut t = Blake2bAstTranscript::new(&mut arena, b"test");
    let base = arena.len();
    let p = t.challenge_scalar_powers_optimized(&mut arena, 3);
    let q = base + 2;
    assert_eq!(arena.get_node(q), &Node::Truncate128Reverse(Edge::NodeRef(base + 1)));
    assert_eq!(p.iter().map(|h| h.root()).collect::<Vec<_>>(), vec![base + 3, base + 4, base + 5]);
    assert_eq!(arena.get_node(base + 4), &Node::Mul(Edge::NodeRef(q), Edge::Atom(Atom::Scalar([1, 0, 0, 0]))));
    assert_eq!(arena.get_node(base + 5), &Node::Mul(Edge::NodeRef(q), Edge::NodeRef(base + 4)));
    let empty = t.challenge_scalar_powers_optimized(&mut arena, 0);
    assert!(empty.is_empty());
    assert_eq!(t.n_rounds, 2);
}
