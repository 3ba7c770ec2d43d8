//! The records that cross the boundary of a run, and the ways a run can fail.

use vstd::prelude::*;

verus! {

/// A 32-byte field: a coordinate, a scalar, a digest or a message.
pub type Byte32 = [u8; 32];

/// The affine coordinates of a member's verification key.
#[derive(Clone, Copy, Debug, PartialEq, Eq)]
pub struct PubKey {
    pub ax: Byte32,
    pub ay: Byte32,
}

/// The two components `(R.x, s)` of a Schnorr signature.
#[derive(Clone, Copy, Debug, PartialEq, Eq)]
pub struct SchnorrSig {
    pub rx: Byte32,
    pub s: Byte32,
}

/// One committee slot: a key, the signature it may carry, and a flag that is
/// non-zero when the slot did not take part.
#[derive(Clone, Copy, Debug, PartialEq, Eq)]
pub struct Candidate {
    pub key: PubKey,
    pub sig: SchnorrSig,
    pub is_ignore: u8,
}

/// What a run receives: the claimed commitment, the message, and the slots.
#[derive(Clone, Debug, PartialEq, Eq)]
pub struct GuestInput {
    pub root: Byte32,
    pub message: Byte32,
    pub candidates: Vec<Candidate>,
}

/// What a successful run makes public.
#[derive(Clone, Copy, Debug, PartialEq, Eq)]
pub struct PublicRecord {
    pub root: Byte32,
    pub message: Byte32,
    pub sum_valid: u32,
}

/// The mathematical value of a [`GuestInput`]: its slots as a sequence.
pub struct GuestInputView {
    pub root: Byte32,
    pub message: Byte32,
    pub candidates: Seq<Candidate>,
}

impl View for GuestInput {
    type V = GuestInputView;

    open spec fn view(&self) -> GuestInputView {
        GuestInputView { root: self.root, message: self.message, candidates: self.candidates@ }
    }
}

impl View for PublicRecord {
    type V = PublicRecord;

    open spec fn view(&self) -> PublicRecord {
        *self
    }
}

impl Candidate {
    /// Whether the slot abstained: its signature is then never looked at.
    pub open spec fn absent(self) -> bool {
        self.is_ignore != 0
    }

    /// Whether the slot abstained.
    pub fn is_absent(&self) -> (r: bool)
        ensures
            r == self.absent(),
    {
        self.is_ignore != 0
    }
}

/// Why a run was abandoned. Every one of these is fatal: no record is made.
#[derive(Clone, Copy, Debug, PartialEq, Eq, Structural)]
pub enum GuestError {
    /// The buffer is not the record it declares: it ends too early, or goes
    /// on after the candidates.
    MalformedInput,
    /// The number of keys is zero or not a power of two.
    InvalidCommitteeSize,
    /// The recomputed Merkle root differs from the claimed one.
    CommitmentMismatch,
    /// The primitives were read before they were bound.
    ProviderNotBound,
}

impl GuestError {
    /// A short description, for the caller that reports the failure.
    pub fn message(&self) -> (r: &'static str)
        ensures
            r@ == match *self {
                GuestError::MalformedInput => "input record could not be decoded"@,
                GuestError::InvalidCommitteeSize => "pubkeys must be 2^n"@,
                GuestError::CommitmentMismatch => "merkle root mismatch"@,
                GuestError::ProviderNotBound => "crypto primitives not set"@,
            },
    {
        match self {
            GuestError::MalformedInput => "input record could not be decoded",
            GuestError::InvalidCommitteeSize => "pubkeys must be 2^n",
            GuestError::CommitmentMismatch => "merkle root mismatch",
            GuestError::ProviderNotBound => "crypto primitives not set",
        }
    }
}

/// Why a text is not hexadecimal.
#[derive(Clone, Copy, Debug, PartialEq, Eq, Structural)]
pub enum HexError {
    /// The byte at position `index` is no hexadecimal digit; `c` is the
    /// character with that byte's number.
    InvalidHexCharacter { c: char, index: usize },
    /// The text has an odd number of bytes.
    OddLength,
    /// The text does not have the length of a fixed-size value.
    InvalidStringLength,
}

/// Why the orchestrator could not build an input record.
#[derive(Clone, Copy, Debug, PartialEq, Eq, Structural)]
pub enum HostError {
    /// A value is not an even number of hexadecimal digits.
    InvalidHex { cause: HexError },
    /// A hexadecimal value decodes to `got` bytes where 32 are expected.
    WrongLength { got: usize },
    /// The entry of the signer list with this number, counted from zero, is
    /// not a decimal number that the machine can hold.
    BadIndex { entry: usize },
    /// An entry of the signer list names no slot of the committee.
    IndexOutOfRange { index: usize },
    /// A secret key is zero or not below the group order, or signing failed.
    BadSigningKey,
    /// The number of keys is zero or not a power of two.
    InvalidCommitteeSize,
}

} // verus!
