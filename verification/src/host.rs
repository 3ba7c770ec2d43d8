//! The orchestrator's side: from a committee key-set and a choice of
//! signers to the input record of a run.

use vstd::prelude::*;
use vstd::string::StringExecFns;
use vstd::utf8::encode_utf8;
use crate::codec::read32;
use crate::crypto::{is_power_of_two, merkle_root, spec_merkle_root};
use crate::guest::spec_keys;
use crate::hexfmt::{
    has_0x, hex32, hex_decode, is_hex, lemma_hex32_round_trip, parse_hex32, spec_hex32,
    spec_hex_decode, spec_hex_error, spec_parse_hex32, starts_with_0x, strip_0x,
};
use crate::primitives::{keccak256_bytes, tiny_keccak_v256, TinyKeccakK256};
use crate::types::{Byte32, Candidate, GuestInput, HostError, PubKey, SchnorrSig};

verus! {

/// One member of the committee as the key-set file holds it: the secret and
/// the two coordinates of the public key, each as `0x` and hexadecimal
/// digits.
#[derive(Clone, Debug, PartialEq, Eq)]
pub struct DiskKey {
    pub sk_hex: String,
    pub ax_hex: String,
    pub ay_hex: String,
}

/// The committee, in the order that its Merkle root commits to.
#[derive(Clone, Debug, PartialEq, Eq)]
pub struct KeySet {
    pub keys: Vec<DiskKey>,
}

/// The sandboxes the orchestrator can drive.
#[derive(Clone, Copy, Debug, PartialEq, Eq, Structural)]
pub enum Backend {
    SP1,
    Risc0,
    Zisk,
}

/// The kind of proof asked of a sandbox.
#[derive(Clone, Copy, Debug, PartialEq, Eq, Structural)]
pub enum ProofKind {
    Compressed,
    Groth16,
}

/// Whether two texts hold the same characters.
pub fn same_text(a: &str, b: &str) -> (r: bool)
    ensures
        r == (a@ == b@),
{
    let x = String::from_str(a);
    let y = String::from_str(b);
    x == y
}

/// The sandbox a name stands for.
pub open spec fn spec_parse_backend(name: Seq<char>) -> Option<Backend> {
    if name == "sp1"@ {
        Some(Backend::SP1)
    } else if name == "risc0"@ {
        Some(Backend::Risc0)
    } else if name == "zisk"@ {
        Some(Backend::Zisk)
    } else {
        None
    }
}

/// Whether a text is the name of a sandbox.
pub fn is_backend_name(s: &str) -> (r: bool)
    ensures
        r == spec_parse_backend(s@) is Some,
{
    same_text(s, "sp1") || same_text(s, "risc0") || same_text(s, "zisk")
}

/// Reads the name of a sandbox. A text that names none is not to be handed
/// in: [`is_backend_name`] tells beforehand.
pub fn parse_backend(s: &str) -> (r: Backend)
    requires
        spec_parse_backend(s@) is Some,
    ensures
        spec_parse_backend(s@) == Some(r),
{
    if same_text(s, "sp1") {
        Backend::SP1
    } else if same_text(s, "risc0") {
        Backend::Risc0
    } else {
        Backend::Zisk
    }
}

/// The directory, below the workspace, that holds a sandbox's program.
pub fn guest_dir_for_backend(backend: Backend) -> (dir: &'static str)
    ensures
        dir@ == match backend {
            Backend::SP1 => "guest-sp1"@,
            Backend::Risc0 => "guest-risc0"@,
            Backend::Zisk => "guest-zisk"@,
        },
{
    match backend {
        Backend::SP1 => "guest-sp1",
        Backend::Risc0 => "guest-risc0",
        Backend::Zisk => "guest-zisk",
    }
}

/// The kind of proof a sandbox is asked for: the compressed kind from the
/// two that offer no other, the final-layer kind from every other.
pub fn proof_kind_for(label: &str) -> (kind: ProofKind)
    ensures
        kind == if label@ == "pico"@ || label@ == "zisk"@ {
            ProofKind::Compressed
        } else {
            ProofKind::Groth16
        },
{
    if same_text(label, "pico") || same_text(label, "zisk") {
        ProofKind::Compressed
    } else {
        ProofKind::Groth16
    }
}

/// Thirty-two bytes as they are if there are exactly that many, and their
/// Keccak-256 digest otherwise.
pub open spec fn spec_fit_32(bytes: Seq<u8>) -> Seq<u8> {
    if bytes.len() == 32 {
        bytes
    } else {
        tiny_keccak_v256(bytes)
    }
}

/// What [`message_to_32`] makes of its argument.
pub open spec fn spec_message_to_32(text: Seq<char>) -> Result<Seq<u8>, HostError> {
    if has_0x(text) {
        if is_hex(text.skip(2)) {
            Ok(spec_fit_32(spec_hex_decode(text.skip(2))))
        } else {
            Err(HostError::InvalidHex { cause: spec_hex_error(encode_utf8(text.skip(2))) })
        }
    } else {
        Ok(spec_fit_32(encode_utf8(text)))
    }
}

/// The bytes of a computed value, or the error that took its place.
pub open spec fn value_view(r: Result<Byte32, HostError>) -> Result<Seq<u8>, HostError> {
    match r {
        Ok(b) => Ok(b@),
        Err(e) => Err(e),
    }
}

/// Brings bytes to the 32 of a message: kept if there are 32, hashed if not.
pub fn fit_32(bytes: &[u8]) -> (out: Byte32)
    ensures
        out@ == spec_fit_32(bytes@),
{
    if bytes.len() == 32 {
        let out = read32(bytes, 0);
        assert(bytes@.subrange(0, 32) =~= bytes@);
        out
    } else {
        keccak256_bytes(bytes)
    }
}

/// Turns the message argument into the 32 bytes that are signed. After
/// `0x` the argument is hexadecimal; otherwise its own bytes are taken.
pub fn message_to_32(msg_arg: &str) -> (r: Result<Byte32, HostError>)
    ensures
        value_view(r) == spec_message_to_32(msg_arg@),
{
    if starts_with_0x(msg_arg) {
        match hex_decode(strip_0x(msg_arg)) {
            Ok(raw) => Ok(fit_32(raw.as_slice())),
            Err(cause) => Err(HostError::InvalidHex { cause }),
        }
    } else {
        Ok(fit_32(msg_arg.as_bytes()))
    }
}

/// The signature that `k256` makes of `msg` with the secret key `sk`, as
/// its 64 bytes; `None` where `k256` refuses the key or fails to sign.
pub uninterp spec fn k256_schnorr_signature(sk: Seq<u8>, msg: Seq<u8>) -> Option<Seq<u8>>;

/// The affine coordinates of the public point of the secret key `sk`, as
/// `k256` derives them; `None` where `k256` refuses the key.
pub uninterp spec fn k256_public_coordinates(sk: Seq<u8>) -> Option<(Seq<u8>, Seq<u8>)>;

/// The bytes of a signature that was made, if one was.
pub open spec fn signature_view(r: Option<[u8; 64]>) -> Option<Seq<u8>> {
    match r {
        Some(sig) => Some(sig@),
        None => None,
    }
}

/// The bytes of a pair of coordinates, if there is one.
pub open spec fn coordinates_view(r: Option<(Byte32, Byte32)>) -> Option<(Seq<u8>, Seq<u8>)> {
    match r {
        Some((x, y)) => Some((x@, y@)),
        None => None,
    }
}

/// Signs with `k256::schnorr`: `SigningKey::from_bytes` on the secret, then
/// `Signer::try_sign`, which derives its nonce from the key and the message
/// alone, then `Signature::to_bytes`. A refused key or a failed signing
/// gives `None`. The contract only gives the outcome a name.
#[verifier::external_body]
pub(crate) fn k256_schnorr_sign(sk: &Byte32, msg: &[u8]) -> (r: Option<[u8; 64]>)
    ensures
        signature_view(r) == k256_schnorr_signature(sk@, msg@),
{
    let key = k256::schnorr::SigningKey::from_bytes(sk).ok()?;
    let sig: k256::schnorr::Signature = k256::schnorr::signature::Signer::try_sign(&key, msg).ok()?;
    Some(sig.to_bytes())
}

/// Derives the public point with `k256`: `SecretKey::from_slice` on the
/// secret, the ECDSA signing key made from it, and the uncompressed encoding
/// of its verifying key, whose two coordinates are returned. A refused key
/// gives `None`. The contract only gives the outcome a name.
#[verifier::external_body]
pub(crate) fn k256_public_point(sk: &Byte32) -> (r: Option<(Byte32, Byte32)>)
    ensures
        coordinates_view(r) == k256_public_coordinates(sk@),
{
    let secret = k256::SecretKey::from_slice(sk).ok()?;
    let point = k256::ecdsa::SigningKey::from(&secret).verifying_key().to_encoded_point(false);
    Some(((*point.x()?).into(), (*point.y()?).into()))
}

/// What [`disk_key`] writes for a secret key: the texts of the secret and of
/// the two coordinates of its public point.
pub open spec fn spec_disk_key(sk: Seq<u8>) -> Option<(Seq<char>, Seq<char>, Seq<char>)> {
    match k256_public_coordinates(sk) {
        Some((ax, ay)) => Some((spec_hex32(sk), spec_hex32(ax), spec_hex32(ay))),
        None => None,
    }
}

/// The three texts of a key-set entry, if there is one.
pub open spec fn disk_key_view(r: Option<DiskKey>) -> Option<(Seq<char>, Seq<char>, Seq<char>)> {
    match r {
        Some(k) => Some((k.sk_hex@, k.ax_hex@, k.ay_hex@)),
        None => None,
    }
}

/// The key-set entry of a secret key. Each of its three texts is `0x` and
/// 64 digits, and reads back as the bytes it was written from.
pub fn disk_key(sk: &Byte32) -> (r: Option<DiskKey>)
    ensures
        disk_key_view(r) == spec_disk_key(sk@),
        r matches Some(k) ==> {
            &&& k.sk_hex@.len() == 66 && k.ax_hex@.len() == 66 && k.ay_hex@.len() == 66
            &&& spec_parse_hex32(k.sk_hex@) == Ok::<Seq<u8>, HostError>(sk@)
            &&& spec_disk_pubkey(k) == Ok::<(Seq<u8>, Seq<u8>), HostError>(
                k256_public_coordinates(sk@)->Some_0,
            )
        },
{
    match k256_public_point(sk) {
        Some((ax, ay)) => {
            proof {
                lemma_hex32_round_trip(sk@);
                lemma_hex32_round_trip(ax@);
                lemma_hex32_round_trip(ay@);
            }
            Some(DiskKey { sk_hex: hex32(sk), ax_hex: hex32(&ax), ay_hex: hex32(&ay) })
        },
        None => None,
    }
}

/// Whether each of the first `n` items gives a value.
pub open spec fn all_ok<T>(n: nat, item: spec_fn(int) -> Result<T, HostError>) -> bool {
    forall|i: int| 0 <= i < n ==> (#[trigger] item(i)) is Ok
}

/// Whether item `i` is the first that fails.
pub open spec fn is_first_error<T>(item: spec_fn(int) -> Result<T, HostError>, i: int) -> bool {
    &&& 0 <= i
    &&& item(i) is Err
    &&& forall|j: int| 0 <= j < i ==> (#[trigger] item(j)) is Ok
}

/// The outcome of working through `n` items in order, where item `i` gives
/// `item(i)`: all the values if every item gives one, and else the error of
/// the first item that fails.
pub open spec fn all_or_first_error<T>(
    n: nat,
    item: spec_fn(int) -> Result<T, HostError>,
) -> Result<Seq<T>, HostError> {
    if all_ok(n, item) {
        Ok(Seq::new(n, |i: int| item(i)->Ok_0))
    } else {
        let first = choose|i: int| i < n && is_first_error(item, i);
        Err(item(first)->Err_0)
    }
}

/// The item that fails first decides the outcome.
pub proof fn lemma_first_error_decides<T>(
    n: nat,
    item: spec_fn(int) -> Result<T, HostError>,
    i: int,
)
    requires
        i < n,
        is_first_error(item, i),
    ensures
        all_or_first_error(n, item) == Err::<Seq<T>, HostError>(item(i)->Err_0),
{
    let first = choose|k: int| k < n && is_first_error(item, k);
    assert(first == i) by {
        if first < i {
            assert(item(first) is Ok);
        }
        if i < first {
            assert(item(i) is Ok);
        }
    }
}

/// The two coordinates of a key.
pub open spec fn key_view(k: PubKey) -> (Seq<u8>, Seq<u8>) {
    (k.ax@, k.ay@)
}

/// The public key that a key-set entry holds: its x-coordinate is read
/// first, then its y-coordinate.
pub open spec fn spec_disk_pubkey(k: DiskKey) -> Result<(Seq<u8>, Seq<u8>), HostError> {
    match spec_parse_hex32(k.ax_hex@) {
        Err(e) => Err(e),
        Ok(ax) => match spec_parse_hex32(k.ay_hex@) {
            Err(e) => Err(e),
            Ok(ay) => Ok((ax, ay)),
        },
    }
}

/// Entry by entry, the public key that a key-set holds.
pub open spec fn disk_pubkey_at(keys: Seq<DiskKey>) -> spec_fn(int) -> Result<
    (Seq<u8>, Seq<u8>),
    HostError,
> {
    |i: int| spec_disk_pubkey(keys[i])
}

/// The coordinates of the keys that were read, or the error that ended it.
pub open spec fn keys_view(r: Result<Vec<PubKey>, HostError>) -> Result<
    Seq<(Seq<u8>, Seq<u8>)>,
    HostError,
> {
    match r {
        Ok(keys) => Ok(Seq::new(keys@.len(), |i: int| key_view(keys@[i]))),
        Err(e) => Err(e),
    }
}

/// Reads the public key of one key-set entry.
pub fn disk_pubkey(k: &DiskKey) -> (r: Result<PubKey, HostError>)
    ensures
        match r {
            Ok(key) => spec_disk_pubkey(*k) == Ok::<(Seq<u8>, Seq<u8>), HostError>(key_view(key)),
            Err(e) => spec_disk_pubkey(*k) == Err::<(Seq<u8>, Seq<u8>), HostError>(e),
        },
{
    let ax = match parse_hex32(k.ax_hex.as_str()) {
        Ok(v) => v,
        Err(e) => {
            return Err(e);
        },
    };
    let ay = match parse_hex32(k.ay_hex.as_str()) {
        Ok(v) => v,
        Err(e) => {
            return Err(e);
        },
    };
    Ok(PubKey { ax, ay })
}

/// Reads the public keys of the committee, in order. The first entry that
/// cannot be read ends it with that entry's error.
pub fn pubkeys_from_keyset(ks: &KeySet) -> (r: Result<Vec<PubKey>, HostError>)
    ensures
        keys_view(r) == all_or_first_error(ks.keys@.len(), disk_pubkey_at(ks.keys@)),
{
    let n = ks.keys.len();
    let ghost item = disk_pubkey_at(ks.keys@);
    let mut v: Vec<PubKey> = Vec::with_capacity(n);
    let mut i: usize = 0;
    while i < n
        invariant
            i <= n,
            n == ks.keys@.len(),
            item == disk_pubkey_at(ks.keys@),
            v@.len() == i,
            forall|j: int|
                0 <= j < i ==> item(j) == Ok::<(Seq<u8>, Seq<u8>), HostError>(
                    key_view(#[trigger] v@[j]),
                ),
        decreases n - i,
    {
        match disk_pubkey(&ks.keys[i]) {
            Ok(key) => {
                v.push(key);
            },
            Err(e) => {
                proof {
                    assert(item(i as int) == Err::<(Seq<u8>, Seq<u8>), HostError>(e));
                    assert forall|j: int| 0 <= j < i implies (#[trigger] item(j)) is Ok by {
                        assert(item(j) == Ok::<(Seq<u8>, Seq<u8>), HostError>(key_view(v@[j])));
                    }
                    lemma_first_error_decides(n as nat, item, i as int);
                }
                return Err(e);
            },
        }
        i += 1;
    }
    proof {
        assert forall|j: int| 0 <= j < n implies (#[trigger] item(j)) is Ok by {
            assert(item(j) == Ok::<(Seq<u8>, Seq<u8>), HostError>(key_view(v@[j])));
        }
        assert(Seq::new(v@.len(), |i: int| key_view(v@[i])) =~= Seq::new(
            n as nat,
            |i: int| item(i)->Ok_0,
        ));
    }
    Ok(v)
}

/// The two halves of a signature.
pub open spec fn sig_view(sig: SchnorrSig) -> (Seq<u8>, Seq<u8>) {
    (sig.rx@, sig.s@)
}

/// What [`schnorr_sign`] makes of a secret key's text and a message.
pub open spec fn spec_schnorr_sign(sk_hex: Seq<char>, msg: Seq<u8>) -> Result<
    (Seq<u8>, Seq<u8>),
    HostError,
> {
    match spec_parse_hex32(sk_hex) {
        Err(e) => Err(e),
        Ok(sk) => match k256_schnorr_signature(sk, msg) {
            None => Err(HostError::BadSigningKey),
            Some(sig) => Ok((sig.subrange(0, 32), sig.subrange(32, 64))),
        },
    }
}

/// Parts a signature's 64 bytes into its two halves.
pub fn split_signature(bytes: &[u8; 64]) -> (sig: SchnorrSig)
    ensures
        sig.rx@ == bytes@.subrange(0, 32),
        sig.s@ == bytes@.subrange(32, 64),
{
    SchnorrSig { rx: read32(bytes.as_slice(), 0), s: read32(bytes.as_slice(), 32) }
}

/// Signs a message with the secret key that `sk_hex` holds.
pub fn schnorr_sign(sk_hex: &str, msg32: &Byte32) -> (r: Result<SchnorrSig, HostError>)
    ensures
        match r {
            Ok(sig) => spec_schnorr_sign(sk_hex@, msg32@) == Ok::<(Seq<u8>, Seq<u8>), HostError>(
                sig_view(sig),
            ),
            Err(e) => spec_schnorr_sign(sk_hex@, msg32@) == Err::<(Seq<u8>, Seq<u8>), HostError>(e),
        },
{
    let sk_bytes = match parse_hex32(sk_hex) {
        Ok(v) => v,
        Err(e) => {
            return Err(e);
        },
    };
    match k256_schnorr_sign(&sk_bytes, msg32.as_slice()) {
        None => Err(HostError::BadSigningKey),
        Some(sig_bytes) => Ok(split_signature(&sig_bytes)),
    }
}

/// Whether slot `i` is among the chosen signers.
pub fn is_signer(signers: &[usize], i: usize) -> (r: bool)
    ensures
        r == signers@.contains(i),
{
    let mut k: usize = 0;
    while k < signers.len()
        invariant
            k <= signers@.len(),
            forall|j: int| 0 <= j < k ==> signers@[j] != i,
        decreases signers@.len() - k,
    {
        if signers[k] == i {
            return true;
        }
        k += 1;
    }
    false
}

/// The bytes of a candidate, field by field.
pub struct SlotView {
    pub key: (Seq<u8>, Seq<u8>),
    pub sig: (Seq<u8>, Seq<u8>),
    pub is_ignore: u8,
}

/// The bytes of a candidate, field by field.
pub open spec fn slot_view(c: Candidate) -> SlotView {
    SlotView { key: key_view(c.key), sig: sig_view(c.sig), is_ignore: c.is_ignore }
}

/// Thirty-two zero bytes.
pub open spec fn zeros32() -> Seq<u8> {
    Seq::new(32, |i: int| 0u8)
}

/// The candidate for one member: a signer carries its signature over the
/// message and is not flagged; any other carries zeros and is flagged
/// absent. The signature is made first, then the key is read.
pub open spec fn spec_slot(k: DiskKey, signer: bool, msg: Seq<u8>) -> Result<SlotView, HostError> {
    let signed = if signer {
        spec_schnorr_sign(k.sk_hex@, msg)
    } else {
        Ok((zeros32(), zeros32()))
    };
    match signed {
        Err(e) => Err(e),
        Ok(sig) => match spec_disk_pubkey(k) {
            Err(e) => Err(e),
            Ok(key) => Ok(
                SlotView {
                    key,
                    sig,
                    is_ignore: if signer {
                        0u8
                    } else {
                        1u8
                    },
                },
            ),
        },
    }
}

/// Member by member, the candidate that stands for it.
pub open spec fn slot_at(keys: Seq<DiskKey>, signers: Seq<usize>, msg: Seq<u8>) -> spec_fn(
    int,
) -> Result<SlotView, HostError> {
    |i: int| spec_slot(keys[i], signers.contains(i as usize), msg)
}

/// The bytes of the candidates that were built, or the error that ended it.
pub open spec fn slots_view(r: Result<Vec<Candidate>, HostError>) -> Result<
    Seq<SlotView>,
    HostError,
> {
    match r {
        Ok(cs) => Ok(Seq::new(cs@.len(), |i: int| slot_view(cs@[i]))),
        Err(e) => Err(e),
    }
}

/// Builds the candidate for one member.
pub fn build_slot(k: &DiskKey, signer: bool, message: &Byte32) -> (r: Result<Candidate, HostError>)
    ensures
        match r {
            Ok(c) => spec_slot(*k, signer, message@) == Ok::<SlotView, HostError>(slot_view(c)),
            Err(e) => spec_slot(*k, signer, message@) == Err::<SlotView, HostError>(e),
        },
{
    let sig = if signer {
        match schnorr_sign(k.sk_hex.as_str(), message) {
            Ok(sig) => sig,
            Err(e) => {
                return Err(e);
            },
        }
    } else {
        let zero = SchnorrSig { rx: [0u8; 32], s: [0u8; 32] };
        assert(zero.rx@ =~= zeros32() && zero.s@ =~= zeros32());
        zero
    };
    let key = match disk_pubkey(k) {
        Ok(key) => key,
        Err(e) => {
            return Err(e);
        },
    };
    Ok(Candidate { key, sig, is_ignore: if signer { 0 } else { 1 } })
}

/// Builds the candidates of a run: one per member of the committee, in
/// order. The first member that cannot be built ends it with its error.
pub fn build_candidates(ks: &KeySet, signers: &[usize], message: &Byte32) -> (r: Result<
    Vec<Candidate>,
    HostError,
>)
    ensures
        slots_view(r) == all_or_first_error(
            ks.keys@.len(),
            slot_at(ks.keys@, signers@, message@),
        ),
{
    let n = ks.keys.len();
    let ghost item = slot_at(ks.keys@, signers@, message@);
    let mut candidates: Vec<Candidate> = Vec::with_capacity(n);
    let mut i: usize = 0;
    while i < n
        invariant
            i <= n,
            n == ks.keys@.len(),
            item == slot_at(ks.keys@, signers@, message@),
            candidates@.len() == i,
            forall|j: int|
                0 <= j < i ==> item(j) == Ok::<SlotView, HostError>(
                    slot_view(#[trigger] candidates@[j]),
                ),
        decreases n - i,
    {
        let signer = is_signer(signers, i);
        match build_slot(&ks.keys[i], signer, message) {
            Ok(c) => {
                candidates.push(c);
            },
            Err(e) => {
                proof {
                    assert(item(i as int) == Err::<SlotView, HostError>(e));
                    assert forall|j: int| 0 <= j < i implies (#[trigger] item(j)) is Ok by {
                        assert(item(j) == Ok::<SlotView, HostError>(slot_view(candidates@[j])));
                    }
                    lemma_first_error_decides(n as nat, item, i as int);
                }
                return Err(e);
            },
        }
        i += 1;
    }
    proof {
        assert forall|j: int| 0 <= j < n implies (#[trigger] item(j)) is Ok by {
            assert(item(j) == Ok::<SlotView, HostError>(slot_view(candidates@[j])));
        }
        assert(Seq::new(candidates@.len(), |i: int| slot_view(candidates@[i])) =~= Seq::new(
            n as nat,
            |i: int| item(i)->Ok_0,
        ));
    }
    Ok(candidates)
}

/// What [`merkle_root_from_pubkeys`] returns: the Keccak commitment to a
/// non-empty power-of-two list of keys, and a refusal of any other list.
pub open spec fn spec_committee_root(keys: Seq<PubKey>) -> Result<Seq<u8>, HostError> {
    if is_power_of_two(keys.len()) {
        Ok(spec_merkle_root(TinyKeccakK256, keys))
    } else {
        Err(HostError::InvalidCommitteeSize)
    }
}

/// The Merkle root that the orchestrator claims for the committee.
pub fn merkle_root_from_pubkeys(pks: &[PubKey]) -> (r: Result<Byte32, HostError>)
    ensures
        value_view(r) == spec_committee_root(pks@),
{
    match merkle_root(&TinyKeccakK256, pks) {
        Ok(root) => Ok(root),
        Err(_) => Err(HostError::InvalidCommitteeSize),
    }
}

/// The error, if any, that ends the building of an input record: reading
/// the committee's keys comes first, then the size of the committee, then
/// the candidates.
pub open spec fn spec_build_failure(keys: Seq<DiskKey>, signers: Seq<usize>, msg: Seq<u8>) -> Option<
    HostError,
> {
    match all_or_first_error(keys.len(), disk_pubkey_at(keys)) {
        Err(e) => Some(e),
        Ok(_) => if !is_power_of_two(keys.len()) {
            Some(HostError::InvalidCommitteeSize)
        } else {
            match all_or_first_error(keys.len(), slot_at(keys, signers, msg)) {
                Err(e) => Some(e),
                Ok(_) => None,
            }
        },
    }
}

/// Builds the input record of a run from the committee, the chosen signers
/// and the message: the claimed root commits to the committee's keys with
/// Keccak-256, and each member stands as one candidate, in order.
pub fn build_input(ks: &KeySet, signers: &[usize], message: &Byte32) -> (r: Result<
    GuestInput,
    HostError,
>)
    ensures
        match r {
            Ok(input) => {
                &&& spec_build_failure(ks.keys@, signers@, message@) is None
                &&& is_power_of_two(input.candidates@.len())
                &&& input.message == *message
                &&& slots_view(Ok(input.candidates)) == all_or_first_error(
                    ks.keys@.len(),
                    slot_at(ks.keys@, signers@, message@),
                )
                &&& input.root@ == spec_merkle_root(TinyKeccakK256, spec_keys(input.candidates@))
            },
            Err(e) => spec_build_failure(ks.keys@, signers@, message@) == Some(e),
        },
{
    let validators = match pubkeys_from_keyset(ks) {
        Ok(v) => v,
        Err(e) => {
            return Err(e);
        },
    };
    let ghost n = ks.keys@.len();
    let ghost keys = disk_pubkey_at(ks.keys@);
    let ghost slots = slot_at(ks.keys@, signers@, message@);
    let ghost read = Seq::new(validators@.len(), |i: int| key_view(validators@[i]));
    assert(all_or_first_error(n, keys) == Ok::<Seq<(Seq<u8>, Seq<u8>)>, HostError>(read));
    assert(read.len() == n);
    let root = match merkle_root_from_pubkeys(validators.as_slice()) {
        Ok(root) => root,
        Err(e) => {
            return Err(e);
        },
    };
    let candidates = match build_candidates(ks, signers, message) {
        Ok(c) => c,
        Err(e) => {
            return Err(e);
        },
    };
    proof {
        let built = Seq::new(candidates@.len(), |i: int| slot_view(candidates@[i]));
        assert(all_or_first_error(n, slots) == Ok::<Seq<SlotView>, HostError>(built));
        assert(built.len() == n);
        assert(all_ok(n, keys) && all_ok(n, slots));
        assert forall|i: int| 0 <= i < n implies validators@[i] == candidates@[i].key by {
            assert(keys(i) is Ok && slots(i) is Ok);
            assert(keys(i) == spec_disk_pubkey(ks.keys@[i]));
            assert(slots(i) == spec_slot(ks.keys@[i], signers@.contains(i as usize), message@));
            assert(slots(i)->Ok_0.key == keys(i)->Ok_0);
            assert(read[i] == keys(i)->Ok_0);
            assert(built[i] == slots(i)->Ok_0);
            assert(key_view(validators@[i]) == slot_view(candidates@[i]).key);
            assert(validators@[i].ax@ == candidates@[i].key.ax@);
            assert(validators@[i].ay@ == candidates@[i].key.ay@);
            assert(validators@[i].ax =~= candidates@[i].key.ax);
            assert(validators@[i].ay =~= candidates@[i].key.ay);
        }
        assert(validators@ =~= spec_keys(candidates@));
    }
    Ok(GuestInput { root, message: *message, candidates })
}

} // verus!
