//! A run: decode the input, check the commitment, count the valid
//! signatures, and make the result public.

use vstd::prelude::*;
use vstd::bytes::{spec_u32_from_le_bytes, spec_u32_to_le_bytes, u32_from_le_bytes, u32_to_le_bytes};
use crate::codec::{
    decode, encode, holds_input, input_bytes, lemma_record_length, lemma_round_trip,
    record_bytes, spec_decode,
};
use crate::crypto::{
    is_power_of_two, lemma_bindings_agree_on_root, merkle_root, power_of_two, set_crypto,
    spec_merkle_root, Crypto,
};
use crate::primitives::{Primitives, Sha3K256};
use crate::types::{
    Byte32, Candidate, GuestError, GuestInput, GuestInputView, PubKey, PublicRecord, SchnorrSig,
};

verus! {

/// The keys of the candidates, in the candidates' order.
pub open spec fn spec_keys(cs: Seq<Candidate>) -> Seq<PubKey> {
    Seq::new(cs.len(), |i: int| cs[i].key)
}

/// Projects the candidates to their keys.
pub fn extract_keys(candidates: &[Candidate]) -> (keys: Vec<PubKey>)
    ensures
        keys@ == spec_keys(candidates@),
{
    let n = candidates.len();
    let mut keys: Vec<PubKey> = Vec::with_capacity(n);
    let mut i: usize = 0;
    while i < n
        invariant
            i <= n,
            n == candidates@.len(),
            keys@.len() == i,
            forall|j: int| 0 <= j < i ==> keys@[j] == candidates@[j].key,
        decreases n - i,
    {
        let c = &candidates[i];
        keys.push(PubKey { ax: c.key.ax, ay: c.key.ay });
        i += 1;
    }
    assert(keys@ =~= spec_keys(candidates@));
    keys
}

/// Whether two 32-byte values hold the same bytes.
pub fn same_bytes(a: &Byte32, b: &Byte32) -> (r: bool)
    ensures
        r == (a@ == b@),
{
    let mut i: usize = 0;
    while i < 32
        invariant
            i <= 32,
            forall|j: int| 0 <= j < i ==> a@[j] == b@[j],
        decreases 32 - i,
    {
        if a[i] != b[i] {
            return false;
        }
        i += 1;
    }
    assert(a@ =~= b@);
    true
}

/// Whether a candidate adds to the count: it took part, and its signature
/// over `msg` verifies under its key.
pub open spec fn contributes<P: Primitives>(p: P, msg: Seq<u8>, c: Candidate) -> bool {
    !c.absent() && p.verify_spec(msg, c.key.ax@, c.key.ay@, c.sig)
}

/// [`contributes`] as a predicate on candidates.
pub open spec fn contributing<P: Primitives>(p: P, msg: Seq<u8>) -> spec_fn(Candidate) -> bool {
    |c: Candidate| contributes(p, msg, c)
}

/// The number of candidates that took part and whose signature verifies.
pub open spec fn spec_count_valid<P: Primitives>(p: P, msg: Seq<u8>, cs: Seq<Candidate>) -> nat {
    cs.filter(contributing(p, msg)).len()
}

/// Counts the candidates whose signature over `message` verifies. A
/// candidate flagged as absent is skipped without its signature being looked
/// at; a signature that fails to verify, for whatever reason, adds nothing.
pub fn count_valid<P: Primitives>(p: &P, message: &Byte32, candidates: &[Candidate]) -> (count: u32)
    requires
        candidates@.len() <= u32::MAX,
    ensures
        count == spec_count_valid(*p, message@, candidates@),
        count <= candidates@.len(),
{
    let n = candidates.len();
    let mut sum_valid: u32 = 0;
    let mut i: usize = 0;
    while i < n
        invariant
            i <= n,
            n == candidates@.len(),
            n <= u32::MAX,
            sum_valid <= i,
            sum_valid == spec_count_valid(*p, message@, candidates@.take(i as int)),
        decreases n - i,
    {
        let c = &candidates[i];
        proof {
            let seen = candidates@.take(i + 1);
            assert(seen.drop_last() =~= candidates@.take(i as int));
            assert(seen.last() == candidates@[i as int]);
            reveal(Seq::filter);
        }
        if !c.is_absent() {
            if p.verify(message, &c.key.ax, &c.key.ay, &c.sig) {
                sum_valid += 1;
            }
        }
        i += 1;
    }
    assert(candidates@.take(n as int) =~= candidates@);
    sum_valid
}

/// Whether a run accepts a committee of `n` slots: a power of two, and no
/// more than the 32-bit count of valid signatures can reach.
pub open spec fn is_committee_size(n: nat) -> bool {
    is_power_of_two(n) && n <= u32::MAX
}

/// What a run makes of a decoded input, step by step: the committee must be
/// of an accepted size, the primitives bound, and the claimed root the one
/// that commits to the candidates' keys; only then are signatures counted.
pub open spec fn spec_process<P: Primitives>(bound: Option<P>, v: GuestInputView) -> Result<
    PublicRecord,
    GuestError,
> {
    if !is_committee_size(v.candidates.len()) {
        Err(GuestError::InvalidCommitteeSize)
    } else {
        match bound {
            None => Err(GuestError::ProviderNotBound),
            Some(p) => if spec_merkle_root(p, spec_keys(v.candidates)) != v.root@ {
                Err(GuestError::CommitmentMismatch)
            } else {
                Ok(
                    PublicRecord {
                        root: v.root,
                        message: v.message,
                        sum_valid: spec_count_valid(p, v.message@, v.candidates) as u32,
                    },
                )
            },
        }
    }
}

/// What a run makes of an input buffer.
pub open spec fn spec_run_guest<P: Primitives>(bound: Option<P>, bytes: Seq<u8>) -> Result<
    PublicRecord,
    GuestError,
> {
    match spec_decode::<GuestInput>(bytes) {
        Err(e) => Err(e),
        Ok((v, used)) => spec_process(bound, v),
    }
}

/// Checks the commitment of a decoded input and counts its valid signatures.
pub fn process<P: Primitives>(slot: &Crypto<P>, input: &GuestInput) -> (r: Result<
    PublicRecord,
    GuestError,
>)
    ensures
        r == spec_process(slot.provider(), input@),
{
    let n = input.candidates.len();
    if !power_of_two(n) || n > u32::MAX as usize {
        return Err(GuestError::InvalidCommitteeSize);
    }
    let p = match slot.get() {
        Some(p) => p,
        None => {
            return Err(GuestError::ProviderNotBound);
        },
    };
    let pubkeys = extract_keys(input.candidates.as_slice());
    let computed_root = match merkle_root(p, pubkeys.as_slice()) {
        Ok(root) => root,
        Err(e) => {
            return Err(e);
        },
    };
    if !same_bytes(&computed_root, &input.root) {
        return Err(GuestError::CommitmentMismatch);
    }
    let sum_valid = count_valid(p, &input.message, input.candidates.as_slice());
    Ok(PublicRecord { root: input.root, message: input.message, sum_valid })
}

/// Runs the whole check on an encoded input record and returns the record
/// to publish. Any failure abandons the run: there is no partial result.
pub fn run_guest<P: Primitives>(slot: &Crypto<P>, input_bytes: &[u8]) -> (r: Result<
    PublicRecord,
    GuestError,
>)
    ensures
        r == spec_run_guest(slot.provider(), input_bytes@),
        r == Err::<PublicRecord, GuestError>(GuestError::MalformedInput) <==> !holds_input(
            input_bytes@,
        ),
{
    match decode::<GuestInput>(input_bytes) {
        Ok((input, _len)) => process(slot, &input),
        Err(e) => Err(e),
    }
}

/// The bytes of the record a run publishes, or the error that ended it.
pub open spec fn published_view(r: Result<Vec<u8>, GuestError>) -> Result<Seq<u8>, GuestError> {
    match r {
        Ok(out) => Ok(out@),
        Err(e) => Err(e),
    }
}

/// What [`multischnorr`] returns for an input buffer.
pub open spec fn spec_multischnorr(bytes: Seq<u8>) -> Result<Seq<u8>, GuestError> {
    match spec_run_guest(Some(Sha3K256), bytes) {
        Ok(record) => Ok(record_bytes(record)),
        Err(e) => Err(e),
    }
}

/// A run with the `sha3` and `k256` primitives bound, from input bytes to
/// the encoded output record.
pub fn multischnorr(input_bytes: Vec<u8>) -> (r: Result<Vec<u8>, GuestError>)
    ensures
        published_view(r) == spec_multischnorr(input_bytes@),
        r is Ok ==> r->Ok_0@.len() == 68,
        r == Err::<Vec<u8>, GuestError>(GuestError::MalformedInput) <==> !holds_input(
            input_bytes@,
        ),
{
    let mut slot: Crypto<Sha3K256> = Crypto::new();
    set_crypto(&mut slot, Sha3K256);
    match run_guest(&slot, input_bytes.as_slice()) {
        Ok(record) => {
            proof {
                lemma_record_length(record);
            }
            Ok(encode(&record))
        },
        Err(e) => Err(e),
    }
}

/// The count over a list is the sum of the counts over its parts.
pub proof fn lemma_count_splits<P: Primitives>(
    p: P,
    msg: Seq<u8>,
    front: Seq<Candidate>,
    back: Seq<Candidate>,
)
    ensures
        spec_count_valid(p, msg, front + back) == spec_count_valid(p, msg, front)
            + spec_count_valid(p, msg, back),
{
    Seq::filter_distributes_over_add(front, back, contributing(p, msg));
}

/// A single candidate counts once if it contributes, and not at all if it
/// does not.
pub proof fn lemma_count_of_one<P: Primitives>(p: P, msg: Seq<u8>, c: Candidate)
    ensures
        spec_count_valid(p, msg, seq![c]) == if contributes(p, msg, c) {
            1nat
        } else {
            0nat
        },
{
    reveal_with_fuel(Seq::filter, 2);
    assert(seq![c].drop_last() =~= Seq::<Candidate>::empty());
    assert(seq![c].last() == c);
}

/// The count never exceeds the number of candidates.
pub proof fn lemma_count_is_bounded<P: Primitives>(p: P, msg: Seq<u8>, cs: Seq<Candidate>)
    ensures
        spec_count_valid(p, msg, cs) <= cs.len(),
{
    cs.lemma_filter_len(contributing(p, msg));
}

/// A candidate that abstained does not influence the count, whatever its
/// signature bytes are.
pub proof fn lemma_absent_signature_is_ignored<P: Primitives>(
    p: P,
    msg: Seq<u8>,
    cs: Seq<Candidate>,
    i: int,
    sig: SchnorrSig,
)
    requires
        0 <= i < cs.len(),
        cs[i].absent(),
    ensures
        spec_count_valid(
            p,
            msg,
            cs.update(i, Candidate { key: cs[i].key, sig, is_ignore: cs[i].is_ignore }),
        ) == spec_count_valid(p, msg, cs),
{
    let other = Candidate { key: cs[i].key, sig, is_ignore: cs[i].is_ignore };
    let front = cs.take(i);
    let back = cs.skip(i + 1);
    assert(cs =~= front + seq![cs[i]] + back);
    assert(cs.update(i, other) =~= front + seq![other] + back);
    lemma_count_splits(p, msg, front + seq![cs[i]], back);
    lemma_count_splits(p, msg, front, seq![cs[i]]);
    lemma_count_splits(p, msg, front + seq![other], back);
    lemma_count_splits(p, msg, front, seq![other]);
    lemma_count_of_one(p, msg, cs[i]);
    lemma_count_of_one(p, msg, other);
}

/// A claimed root that does not commit to the candidates' keys ends the run
/// with `CommitmentMismatch`, and the signature predicate has no say in it:
/// the outcome is the same under any binding with the same compression.
pub proof fn lemma_mismatch_ends_run<P: Primitives, Q: Primitives>(p: P, q: Q, v: GuestInputView)
    requires
        forall|a: Seq<u8>, b: Seq<u8>| #[trigger] p.compress_spec(a, b) == q.compress_spec(a, b),
        is_committee_size(v.candidates.len()),
        spec_merkle_root(p, spec_keys(v.candidates)) != v.root@,
    ensures
        spec_process(Some(p), v) == Err::<PublicRecord, GuestError>(
            GuestError::CommitmentMismatch,
        ),
        spec_process(Some(q), v) == Err::<PublicRecord, GuestError>(
            GuestError::CommitmentMismatch,
        ),
{
    lemma_bindings_agree_on_root(p, q, spec_keys(v.candidates));
}

/// The record of a successful run repeats the claimed root and the message
/// of its input, and its count is no more than the number of candidates.
pub proof fn lemma_record_repeats_input<P: Primitives>(bound: Option<P>, v: GuestInputView)
    requires
        spec_process(bound, v) is Ok,
    ensures
        spec_process(bound, v)->Ok_0.root == v.root,
        spec_process(bound, v)->Ok_0.message == v.message,
        spec_process(bound, v)->Ok_0.sum_valid <= v.candidates.len(),
        spec_process(bound, v)->Ok_0.sum_valid == spec_count_valid(
            bound->Some_0,
            v.message@,
            v.candidates,
        ),
{
    lemma_count_is_bounded(bound->Some_0, v.message@, v.candidates);
}

/// A run on the encoding of an input whose claimed root commits to its
/// candidates' keys succeeds, whatever the signature predicate answers: the
/// record repeats the root and the message, and counts the candidates that
/// took part and whose signature the predicate accepts.
pub proof fn lemma_run_counts_committed_input<P: Primitives>(p: P, v: GuestInputView)
    requires
        is_committee_size(v.candidates.len()),
        spec_merkle_root(p, spec_keys(v.candidates)) == v.root@,
    ensures
        spec_count_valid(p, v.message@, v.candidates) <= v.candidates.len(),
        spec_run_guest(Some(p), input_bytes(v)) == Ok::<PublicRecord, GuestError>(
            PublicRecord {
                root: v.root,
                message: v.message,
                sum_valid: spec_count_valid(p, v.message@, v.candidates) as u32,
            },
        ),
{
    lemma_round_trip::<GuestInput>(v, Seq::empty());
    assert(input_bytes(v) + Seq::<u8>::empty() =~= input_bytes(v));
    lemma_count_is_bounded(p, v.message@, v.candidates);
}

/// A run on the encoding of an input whose claimed root does not commit to
/// its candidates' keys ends with `CommitmentMismatch`.
pub proof fn lemma_run_refuses_mismatched_input<P: Primitives>(p: P, v: GuestInputView)
    requires
        is_committee_size(v.candidates.len()),
        spec_merkle_root(p, spec_keys(v.candidates)) != v.root@,
    ensures
        spec_run_guest(Some(p), input_bytes(v)) == Err::<PublicRecord, GuestError>(
            GuestError::CommitmentMismatch,
        ),
{
    lemma_round_trip::<GuestInput>(v, Seq::empty());
    assert(input_bytes(v) + Seq::<u8>::empty() =~= input_bytes(v));
}

/// A run on the encoding of an input whose committee is not of an accepted
/// size ends with `InvalidCommitteeSize`, bound primitives or not.
pub proof fn lemma_run_refuses_wrong_size<P: Primitives>(bound: Option<P>, v: GuestInputView)
    requires
        v.candidates.len() <= u64::MAX,
        !is_committee_size(v.candidates.len()),
    ensures
        spec_run_guest(bound, input_bytes(v)) == Err::<PublicRecord, GuestError>(
            GuestError::InvalidCommitteeSize,
        ),
{
    lemma_round_trip::<GuestInput>(v, Seq::empty());
    assert(input_bytes(v) + Seq::<u8>::empty() =~= input_bytes(v));
}

/// Bindings that compute the same two functions turn every input buffer
/// into the same outcome.
pub proof fn lemma_bindings_agree_on_run<P: Primitives, Q: Primitives>(p: P, q: Q, bytes: Seq<u8>)
    requires
        forall|a: Seq<u8>, b: Seq<u8>| #[trigger] p.compress_spec(a, b) == q.compress_spec(a, b),
        forall|m: Seq<u8>, x: Seq<u8>, y: Seq<u8>, s: SchnorrSig| #[trigger]
            p.verify_spec(m, x, y, s) == q.verify_spec(m, x, y, s),
    ensures
        spec_run_guest(Some(p), bytes) == spec_run_guest(Some(q), bytes),
{
    if spec_decode::<GuestInput>(bytes) is Ok {
        let v = spec_decode::<GuestInput>(bytes)->Ok_0.0;
        lemma_bindings_agree_on_root(p, q, spec_keys(v.candidates));
        assert(contributing(p, v.message@) =~= contributing(q, v.message@));
    }
}

/// The byte at position `k`, or zero past the end.
pub open spec fn byte_or_zero(bytes: Seq<u8>, k: int) -> u8 {
    if 0 <= k < bytes.len() {
        bytes[k]
    } else {
        0
    }
}

/// The number of 32-bit words that hold `len` bytes.
pub open spec fn word_count(len: nat) -> nat {
    len / 4 + if len % 4 == 0 {
        0nat
    } else {
        1nat
    }
}

/// The bytes as 32-bit words for a sandbox that publishes words: each four
/// bytes make one little-endian word, the last one filled up with zeros.
pub open spec fn spec_public_words(bytes: Seq<u8>) -> Seq<u32> {
    Seq::new(
        word_count(bytes.len()),
        |i: int|
            spec_u32_from_le_bytes(
                seq![
                    byte_or_zero(bytes, 4 * i),
                    byte_or_zero(bytes, 4 * i + 1),
                    byte_or_zero(bytes, 4 * i + 2),
                    byte_or_zero(bytes, 4 * i + 3),
                ],
            ),
    )
}

/// Packs published bytes into 32-bit words.
pub fn public_words(bytes: &[u8]) -> (words: Vec<u32>)
    ensures
        words@ == spec_public_words(bytes@),
{
    let len = bytes.len();
    let count = len / 4 + if len % 4 == 0 {
        0
    } else {
        1
    };
    let mut words: Vec<u32> = Vec::with_capacity(count);
    let mut i: usize = 0;
    while i < count
        invariant
            i <= count,
            len == bytes@.len(),
            count == word_count(len as nat),
            words@.len() == i,
            forall|j: int| 0 <= j < i ==> words@[j] == spec_public_words(bytes@)[j],
        decreases count - i,
    {
        let mut buf = [0u8; 4];
        let mut k: usize = 0;
        while k < 4
            invariant
                k <= 4,
                i < count,
                len == bytes@.len(),
                count == word_count(len as nat),
                forall|j: int| 0 <= j < k ==> buf@[j] == byte_or_zero(bytes@, 4 * i + j),
                forall|j: int| k <= j < 4 ==> buf@[j] == 0,
            decreases 4 - k,
        {
            if 4 * i + k < len {
                buf[k] = bytes[4 * i + k];
            }
            k += 1;
        }
        assert(buf@ =~= seq![
            byte_or_zero(bytes@, 4 * i),
            byte_or_zero(bytes@, 4 * i + 1),
            byte_or_zero(bytes@, 4 * i + 2),
            byte_or_zero(bytes@, 4 * i + 3),
        ]);
        let word = u32_from_le_bytes(buf.as_slice());
        words.push(word);
        i += 1;
    }
    assert(words@ =~= spec_public_words(bytes@));
    words
}

/// The three pieces in which a record is handed to a sandbox that takes its
/// public output piece by piece: the root, the message, and the count as
/// four little-endian bytes.
pub fn commit_chunks(record: &PublicRecord) -> (chunks: (Byte32, Byte32, Vec<u8>))
    ensures
        chunks.0 == record.root,
        chunks.1 == record.message,
        chunks.2@ == spec_u32_to_le_bytes(record.sum_valid),
        chunks.0@ + chunks.1@ + chunks.2@ == record_bytes(*record),
{
    (record.root, record.message, u32_to_le_bytes(record.sum_valid))
}

} // verus!
