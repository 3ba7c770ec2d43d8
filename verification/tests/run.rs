use k256::schnorr::signature::Verifier;
use multi_zkvm::codec::{decode, encode};
use multi_zkvm::crypto::{merkle_root, schnorr_verify, set_crypto, Crypto};
use multi_zkvm::guest::{
    commit_chunks, count_valid, extract_keys, multischnorr, process, public_words, run_guest,
    same_bytes,
};
use multi_zkvm::host::{build_input, disk_key, schnorr_sign, DiskKey, KeySet};
use multi_zkvm::primitives::{schnorr_k256, Primitives, Sha3K256, TinyKeccakK256};
use multi_zkvm::types::{
    Byte32, Candidate, GuestError, GuestInput, PubKey, PublicRecord, SchnorrSig,
};

fn secret(i: u8) -> Byte32 {
    let mut sk = [0u8; 32];
    sk[31] = i;
    sk[0] = 0x11;
    sk
}

fn committee(n: u8) -> KeySet {
    let mut keys = Vec::new();
    for i in 0..n {
        keys.push(disk_key(&secret(i + 1)).unwrap());
    }
    KeySet { keys }
}

fn bound() -> Crypto<TinyKeccakK256> {
    let mut slot = Crypto::new();
    set_crypto(&mut slot, TinyKeccakK256);
    slot
}

const MESSAGE: Byte32 = [0x5A; 32];

/// Counts a candidate exactly if the first byte of its signature is 1, and
/// refuses to be asked about a candidate whose first signature byte is 0xEE.
struct Marked;

impl Primitives for Marked {
    fn compress_spec(&self, _a: vstd::seq::Seq<u8>, _b: vstd::seq::Seq<u8>) -> vstd::seq::Seq<u8> {
        unreachable!()
    }

    fn verify_spec(
        &self,
        _msg: vstd::seq::Seq<u8>,
        _ax: vstd::seq::Seq<u8>,
        _ay: vstd::seq::Seq<u8>,
        _sig: SchnorrSig,
    ) -> bool {
        unreachable!()
    }

    fn compress(&self, a: &Byte32, b: &Byte32) -> Byte32 {
        let mut out = [0u8; 32];
        for i in 0..32 {
            out[i] = a[i] ^ b[i].rotate_left(3) ^ 0x55;
        }
        out
    }

    fn verify(&self, _msg: &Byte32, _ax: &Byte32, _ay: &Byte32, sig: &SchnorrSig) -> bool {
        if sig.rx[0] == 0xEE {
            panic!("the signature of this candidate must not be looked at");
        }
        sig.rx[0] == 1
    }
}

fn marked(tag: u8, sig_mark: u8, is_ignore: u8) -> Candidate {
    Candidate {
        key: PubKey { ax: [tag; 32], ay: [tag ^ 0xF0; 32] },
        sig: SchnorrSig { rx: [sig_mark; 32], s: [0; 32] },
        is_ignore,
    }
}

fn marked_input(candidates: Vec<Candidate>) -> GuestInput {
    let keys = extract_keys(&candidates);
    let root = merkle_root(&Marked, &keys).unwrap();
    GuestInput { root, message: MESSAGE, candidates }
}

#[test]
fn two_of_four_sign() {
    let ks = committee(4);
    let input = build_input(&ks, &[0, 2], &MESSAGE).unwrap();
    assert_eq!(input.candidates.len(), 4);
    assert_eq!(input.candidates[0].is_ignore, 0);
    assert_eq!(input.candidates[1].is_ignore, 1);
    assert_eq!(input.candidates[2].is_ignore, 0);
    assert_eq!(input.candidates[3].is_ignore, 1);
    assert_eq!(input.candidates[1].sig, SchnorrSig { rx: [0; 32], s: [0; 32] });
    assert_eq!(input.candidates[3].sig, SchnorrSig { rx: [0; 32], s: [0; 32] });
    let record = run_guest(&bound(), &encode(&input)).unwrap();
    assert_eq!(record, PublicRecord { root: input.root, message: MESSAGE, sum_valid: 2 });
}

#[test]
fn flipped_root_aborts_the_run() {
    let ks = committee(4);
    let mut input = build_input(&ks, &[0, 2], &MESSAGE).unwrap();
    input.root[17] ^= 0x04;
    assert_eq!(run_guest(&bound(), &encode(&input)), Err(GuestError::CommitmentMismatch));
    assert_eq!(multischnorr(encode(&input)), Err(GuestError::CommitmentMismatch));
}

#[test]
fn corrupted_signature_does_not_count_and_is_not_fatal() {
    let ks = committee(4);
    let mut input = build_input(&ks, &[1], &MESSAGE).unwrap();
    let intact = run_guest(&bound(), &encode(&input)).unwrap();
    assert_eq!(intact.sum_valid, 1);
    input.candidates[1].sig.s[5] ^= 0x01;
    let record = run_guest(&bound(), &encode(&input)).unwrap();
    assert_eq!(record, PublicRecord { root: input.root, message: MESSAGE, sum_valid: 0 });
}

#[test]
fn committee_of_three_aborts_the_run() {
    let ks = committee(4);
    let mut input = build_input(&ks, &[0, 1, 2], &MESSAGE).unwrap();
    input.candidates.truncate(3);
    assert_eq!(run_guest(&bound(), &encode(&input)), Err(GuestError::InvalidCommitteeSize));
    input.candidates.clear();
    assert_eq!(run_guest(&bound(), &encode(&input)), Err(GuestError::InvalidCommitteeSize));
}

#[test]
fn everyone_signs_and_no_one_signs() {
    let ks = committee(8);
    let all = build_input(&ks, &[0, 1, 2, 3, 4, 5, 6, 7], &MESSAGE).unwrap();
    assert_eq!(run_guest(&bound(), &encode(&all)).unwrap().sum_valid, 8);
    let none = build_input(&ks, &[], &MESSAGE).unwrap();
    assert_eq!(none.root, all.root);
    assert_eq!(run_guest(&bound(), &encode(&none)).unwrap().sum_valid, 0);
    let one = build_input(&committee(1), &[0], &MESSAGE).unwrap();
    assert_eq!(run_guest(&bound(), &encode(&one)).unwrap().sum_valid, 1);
}

#[test]
fn signature_over_another_message_does_not_count() {
    let ks = committee(2);
    let mut input = build_input(&ks, &[0, 1], &MESSAGE).unwrap();
    input.message = [0x5B; 32];
    let record = run_guest(&bound(), &encode(&input)).unwrap();
    assert_eq!(record.sum_valid, 0);
    assert_eq!(record.message, [0x5B; 32]);
}

#[test]
fn signature_under_another_key_does_not_count() {
    let ks = committee(2);
    let mut input = build_input(&ks, &[0, 1], &MESSAGE).unwrap();
    let sig = input.candidates[0].sig;
    input.candidates[0].sig = input.candidates[1].sig;
    input.candidates[1].sig = sig;
    assert_eq!(run_guest(&bound(), &encode(&input)).unwrap().sum_valid, 0);
}

#[test]
fn flagged_candidate_is_skipped_even_with_a_valid_signature() {
    let ks = committee(4);
    let mut input = build_input(&ks, &[0, 1, 2, 3], &MESSAGE).unwrap();
    input.candidates[2].is_ignore = 1;
    input.candidates[3].is_ignore = 0xFF;
    assert_eq!(run_guest(&bound(), &encode(&input)).unwrap().sum_valid, 2);
}

#[test]
fn malformed_key_or_signature_is_just_not_valid() {
    let ks = committee(2);
    let mut input = build_input(&ks, &[0, 1], &MESSAGE).unwrap();
    let good = input.candidates[1];
    assert!(schnorr_k256(&MESSAGE, &good.key.ax, &good.key.ay, &good.sig));
    // no point of the curve has this x-coordinate
    let no_point = [0xFF; 32];
    assert!(!schnorr_k256(&MESSAGE, &no_point, &good.key.ay, &good.sig));
    // neither half of a signature may be zero, nor as large as the modulus
    let zero = SchnorrSig { rx: [0; 32], s: [0; 32] };
    assert!(!schnorr_k256(&MESSAGE, &good.key.ax, &good.key.ay, &zero));
    let huge = SchnorrSig { rx: good.sig.rx, s: [0xFF; 32] };
    assert!(!schnorr_k256(&MESSAGE, &good.key.ax, &good.key.ay, &huge));
    // the y-coordinate plays no part in the check
    assert!(schnorr_k256(&MESSAGE, &good.key.ax, &[0; 32], &good.sig));
    input.candidates[0].sig = zero;
    assert_eq!(run_guest(&bound(), &encode(&input)).unwrap().sum_valid, 1);
}

#[test]
fn count_is_the_number_of_present_candidates_that_verify() {
    let candidates = vec![
        marked(1, 1, 0),
        marked(2, 0, 0),
        marked(3, 0xEE, 1),
        marked(4, 1, 1),
        marked(5, 1, 0),
        marked(6, 2, 0),
        marked(7, 1, 7),
        marked(8, 1, 0),
    ];
    assert_eq!(count_valid(&Marked, &MESSAGE, &candidates), 3);
    assert_eq!(count_valid(&Marked, &MESSAGE, &candidates[..4]), 1);
    assert_eq!(count_valid(&Marked, &MESSAGE, &[]), 0);
    let mut slot = Crypto::new();
    set_crypto(&mut slot, Marked);
    let input = marked_input(candidates);
    let record = process(&slot, &input).unwrap();
    assert_eq!(record, PublicRecord { root: input.root, message: MESSAGE, sum_valid: 3 });
}

#[test]
fn absent_candidates_do_not_influence_the_count() {
    let mut candidates = vec![marked(1, 1, 0), marked(2, 0, 1), marked(3, 1, 0), marked(4, 0, 1)];
    let before = count_valid(&Marked, &MESSAGE, &candidates);
    candidates[1].sig = SchnorrSig { rx: [1; 32], s: [9; 32] };
    candidates[3].sig = SchnorrSig { rx: [0xEE; 32], s: [0xEE; 32] };
    assert_eq!(count_valid(&Marked, &MESSAGE, &candidates), before);
    assert_eq!(before, 2);
}

#[test]
fn mismatch_ends_the_run_before_any_signature_is_looked_at() {
    let mut slot = Crypto::new();
    set_crypto(&mut slot, Marked);
    let mut input = marked_input(vec![marked(1, 0xEE, 0), marked(2, 0xEE, 0)]);
    input.root[0] ^= 1;
    assert_eq!(process(&slot, &input), Err(GuestError::CommitmentMismatch));
    assert_eq!(run_guest(&slot, &encode(&input)), Err(GuestError::CommitmentMismatch));
}

#[test]
fn wrong_size_ends_the_run_before_any_signature_is_looked_at() {
    let mut slot = Crypto::new();
    set_crypto(&mut slot, Marked);
    let mut input = marked_input(vec![marked(1, 0xEE, 0), marked(2, 0xEE, 0)]);
    input.candidates.push(marked(3, 0xEE, 0));
    assert_eq!(process(&slot, &input), Err(GuestError::InvalidCommitteeSize));
}

#[test]
fn failures_come_in_a_fixed_order() {
    let empty: Crypto<TinyKeccakK256> = Crypto::new();
    let ks = committee(4);
    let good = build_input(&ks, &[0], &MESSAGE).unwrap();
    let bytes = encode(&good);
    // an unreadable buffer is refused whether or not the primitives are bound
    assert_eq!(run_guest(&empty, &bytes[..100]), Err(GuestError::MalformedInput));
    assert_eq!(run_guest(&bound(), &bytes[..100]), Err(GuestError::MalformedInput));
    assert_eq!(run_guest(&bound(), &[]), Err(GuestError::MalformedInput));
    // a committee of the wrong size is refused before the binding is read
    let mut three = good.clone();
    three.candidates.truncate(3);
    assert_eq!(run_guest(&empty, &encode(&three)), Err(GuestError::InvalidCommitteeSize));
    // the binding is read before the root is compared
    let mut off = good.clone();
    off.root[0] ^= 1;
    assert_eq!(run_guest(&empty, &encode(&off)), Err(GuestError::ProviderNotBound));
    assert_eq!(run_guest(&empty, &bytes), Err(GuestError::ProviderNotBound));
    assert_eq!(run_guest(&bound(), &encode(&off)), Err(GuestError::CommitmentMismatch));
    assert!(run_guest(&bound(), &bytes).is_ok());
}

#[test]
fn unbound_primitives_are_reported() {
    let empty: Crypto<TinyKeccakK256> = Crypto::new();
    let sig = SchnorrSig { rx: [1; 32], s: [2; 32] };
    assert_eq!(
        schnorr_verify(&empty, &MESSAGE, &[3; 32], &[4; 32], &sig),
        Err(GuestError::ProviderNotBound)
    );
    assert_eq!(schnorr_verify(&bound(), &MESSAGE, &[3; 32], &[4; 32], &sig), Ok(false));
}

#[test]
fn bytes_after_the_input_abort_the_run() {
    let ks = committee(2);
    let input = build_input(&ks, &[1], &MESSAGE).unwrap();
    let mut bytes = encode(&input);
    assert_eq!(run_guest(&bound(), &bytes).unwrap().sum_valid, 1);
    bytes.extend_from_slice(&[1, 2, 3]);
    assert_eq!(run_guest(&bound(), &bytes), Err(GuestError::MalformedInput));
    assert_eq!(multischnorr(bytes), Err(GuestError::MalformedInput));
}

#[test]
fn multischnorr_returns_the_encoded_record() {
    let ks = committee(4);
    let input = build_input(&ks, &[0, 2], &MESSAGE).unwrap();
    let out = multischnorr(encode(&input)).unwrap();
    let expected = PublicRecord { root: input.root, message: MESSAGE, sum_valid: 2 };
    assert_eq!(out, encode(&expected));
    let (record, used): (PublicRecord, usize) = decode(&out).unwrap();
    assert_eq!(record, expected);
    assert_eq!(used, 68);
    assert_eq!(multischnorr(vec![0; 71]), Err(GuestError::MalformedInput));
}

#[test]
fn bindings_with_the_same_functions_agree() {
    let ks = committee(4);
    let input = build_input(&ks, &[1, 3], &MESSAGE).unwrap();
    let bytes = encode(&input);
    let mut other = Crypto::new();
    set_crypto(&mut other, Sha3K256);
    assert_eq!(run_guest(&bound(), &bytes), run_guest(&other, &bytes));
}

#[test]
fn the_two_output_framings_carry_the_same_bytes() {
    let record = PublicRecord { root: [3; 32], message: [4; 32], sum_valid: 0x0A0B_0C0D };
    let (root, message, count) = commit_chunks(&record);
    assert_eq!(root, [3; 32]);
    assert_eq!(message, [4; 32]);
    assert_eq!(count, vec![0x0D, 0x0C, 0x0B, 0x0A]);
    let mut joined = Vec::new();
    joined.extend_from_slice(&root);
    joined.extend_from_slice(&message);
    joined.extend_from_slice(&count);
    assert_eq!(joined, encode(&record));
}

#[test]
fn published_bytes_pack_into_little_endian_words() {
    assert_eq!(public_words(&[]), Vec::<u32>::new());
    assert_eq!(public_words(&[1]), vec![1]);
    assert_eq!(public_words(&[1, 2, 3, 4]), vec![0x0403_0201]);
    assert_eq!(public_words(&[1, 2, 3, 4, 5]), vec![0x0403_0201, 5]);
    assert_eq!(public_words(&[0, 0, 0, 0x80, 0xFF, 0xFF]), vec![0x8000_0000, 0xFFFF]);
    assert_eq!(public_words(&[7; 32]).len(), 8);
    assert_eq!(public_words(&2u32.to_le_bytes()), vec![2]);
}

#[test]
fn same_bytes_compares_every_byte() {
    let a = [9u8; 32];
    let mut b = a;
    assert!(same_bytes(&a, &b));
    b[31] ^= 1;
    assert!(!same_bytes(&a, &b));
    b[31] ^= 1;
    b[0] ^= 0x80;
    assert!(!same_bytes(&a, &b));
}

#[test]
fn extracted_keys_keep_the_order() {
    let candidates = vec![marked(1, 0, 0), marked(2, 0, 1), marked(3, 0, 0)];
    let keys = extract_keys(&candidates);
    assert_eq!(keys, vec![candidates[0].key, candidates[1].key, candidates[2].key]);
}

#[test]
fn library_signatures_verify_under_k256_itself() {
    let key: DiskKey = disk_key(&secret(9)).unwrap();
    let sig = schnorr_sign(&key.sk_hex, &MESSAGE).unwrap();
    let mut bytes = [0u8; 64];
    bytes[..32].copy_from_slice(&sig.rx);
    bytes[32..].copy_from_slice(&sig.s);
    let parsed = k256::schnorr::Signature::try_from(&bytes[..]).unwrap();
    let signing = k256::schnorr::SigningKey::from_bytes(&secret(9)).unwrap();
    assert!(signing.verifying_key().verify(&MESSAGE, &parsed).is_ok());
    assert_eq!(schnorr_sign(&key.sk_hex, &MESSAGE).unwrap(), sig);
    assert_ne!(schnorr_sign(&key.sk_hex, &[0x5B; 32]).unwrap(), sig);
}
