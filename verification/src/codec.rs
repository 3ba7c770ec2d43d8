//! The byte encoding of the input and the output record.
//!
//! Fields are written in declaration order with no padding: a 32-byte field
//! as its 32 bytes, the flag as one byte, the number of candidates as eight
//! bytes and the count of valid signatures as four, both little-endian. An
//! input record is read from a buffer that holds it and nothing else.

use vstd::prelude::*;
use vstd::bytes::{
    lemma_auto_spec_u32_to_from_le_bytes, lemma_auto_spec_u64_to_from_le_bytes,
    spec_u32_to_le_bytes, spec_u64_from_le_bytes, spec_u64_to_le_bytes, u32_from_le_bytes,
    u32_to_le_bytes, u64_from_le_bytes, u64_to_le_bytes,
};
use vstd::slice::slice_subrange;
use crate::types::{
    Byte32, Candidate, GuestError, GuestInput, GuestInputView, PubKey, PublicRecord, SchnorrSig,
};

verus! {

/// The encoded size of one candidate.
pub const CANDIDATE_BYTES: usize = 129;

/// The encoded size of an input record without its candidates.
pub const INPUT_HEADER_BYTES: usize = 72;

/// The encoded size of an output record.
pub const RECORD_BYTES: usize = 68;

/// A value with a canonical byte encoding.
pub trait Record: View + Sized {
    /// Whether the value can be written: every length in it fits its field.
    spec fn encodable(v: Self::V) -> bool;

    /// The bytes of the value.
    spec fn spec_encode(v: Self::V) -> Seq<u8>;

    /// Whether bytes may follow the value in a buffer that it is read from.
    /// A value that declares its own length takes the whole buffer.
    spec fn may_trail() -> bool;

    /// Whether a buffer is exactly as long as the value that it declares, or
    /// at least as long where bytes may follow.
    spec fn fits(bytes: Seq<u8>) -> bool;

    /// A buffer that holds the encoding of a value fits.
    proof fn lemma_held_fits(v: Self::V, bytes: Seq<u8>)
        requires
            Self::encodable(v),
            Self::spec_encode(v).is_prefix_of(bytes),
            Self::may_trail() || Self::spec_encode(v).len() == bytes.len(),
        ensures
            Self::fits(bytes),
    ;

    /// No buffer starts with the encodings of two different values.
    proof fn lemma_prefix_unique(a: Self::V, b: Self::V, bytes: Seq<u8>)
        requires
            Self::encodable(a),
            Self::spec_encode(a).is_prefix_of(bytes),
            Self::encodable(b),
            Self::spec_encode(b).is_prefix_of(bytes),
        ensures
            a == b,
    ;

    /// Writes the value out.
    fn write(&self) -> (out: Vec<u8>)
        ensures
            Self::encodable(self@),
            out@ == Self::spec_encode(self@),
    ;

    /// Reads a value from `bytes`, with the number of bytes it took; refuses
    /// `bytes` exactly if it does not fit.
    fn read(bytes: &[u8]) -> (r: Result<(Self, usize), GuestError>)
        ensures
            r is Ok <==> Self::fits(bytes@),
            match r {
                Ok((x, n)) => {
                    &&& Self::encodable(x@)
                    &&& Self::spec_encode(x@).is_prefix_of(bytes@)
                    &&& n == Self::spec_encode(x@).len()
                    &&& Self::may_trail() || n == bytes@.len()
                },
                Err(e) => {
                    &&& e == GuestError::MalformedInput
                    &&& forall|v: Self::V|
                        Self::encodable(v) && (#[trigger] Self::spec_encode(v)).is_prefix_of(
                            bytes@,
                        ) ==> !Self::may_trail() && Self::spec_encode(v).len() != bytes@.len()
                },
            },
    ;
}

/// `bytes` holds the encoding of `v`: as the whole of it, or at its front
/// where bytes may follow the value.
pub open spec fn holds_encoding<T: Record>(v: T::V, bytes: Seq<u8>) -> bool {
    &&& T::encodable(v)
    &&& T::spec_encode(v).is_prefix_of(bytes)
    &&& T::may_trail() || T::spec_encode(v).len() == bytes.len()
}

/// What decoding `bytes` yields: the value whose encoding `bytes` holds, and
/// the length of that encoding; `MalformedInput` if there is none.
pub open spec fn spec_decode<T: Record>(bytes: Seq<u8>) -> Result<(T::V, nat), GuestError> {
    if exists|v: T::V| holds_encoding::<T>(v, bytes) {
        let v = choose|v: T::V| holds_encoding::<T>(v, bytes);
        Ok((v, T::spec_encode(v).len()))
    } else {
        Err(GuestError::MalformedInput)
    }
}

/// The mathematical value of what [`decode`] returned.
pub open spec fn decoded_view<T: Record>(r: Result<(T, usize), GuestError>) -> Result<
    (T::V, nat),
    GuestError,
> {
    match r {
        Ok((x, n)) => Ok((x@, n as nat)),
        Err(e) => Err(e),
    }
}

/// Encodes a record.
pub fn encode<T: Record>(value: &T) -> (out: Vec<u8>)
    ensures
        T::encodable(value@),
        out@ == T::spec_encode(value@),
{
    value.write()
}

/// Decodes a record from `bytes`. A buffer that ends before the record does
/// is refused, and so is one that goes on after a record that declares its
/// own length; after a record of fixed length, bytes that follow are left
/// alone.
pub fn decode<T: Record>(bytes: &[u8]) -> (r: Result<(T, usize), GuestError>)
    ensures
        decoded_view(r) == spec_decode::<T>(bytes@),
        r is Ok <==> T::fits(bytes@),
{
    let r = T::read(bytes);
    proof {
        if r is Ok {
            let v = r->Ok_0.0@;
            assert(holds_encoding::<T>(v, bytes@));
            let w = choose|w: T::V| holds_encoding::<T>(w, bytes@);
            T::lemma_prefix_unique(v, w, bytes@);
        } else {
            assert forall|v: T::V| !holds_encoding::<T>(v, bytes@) by {
                if T::encodable(v) && T::spec_encode(v).is_prefix_of(bytes@) {
                    assert(!T::may_trail() && T::spec_encode(v).len() != bytes@.len());
                }
            }
        }
    }
    r
}

/// A buffer that does not fit decodes to nothing.
pub proof fn lemma_unfit_buffer_is_malformed<T: Record>(bytes: Seq<u8>)
    requires
        !T::fits(bytes),
    ensures
        spec_decode::<T>(bytes) == Err::<(T::V, nat), GuestError>(GuestError::MalformedInput),
{
    assert forall|v: T::V| !holds_encoding::<T>(v, bytes) by {
        if holds_encoding::<T>(v, bytes) {
            T::lemma_held_fits(v, bytes);
        }
    }
}

/// Decoding undoes encoding: the encoding of `v` decodes to `v` and to its
/// own length. Where bytes may follow the value, whatever follows it changes
/// nothing.
pub proof fn lemma_round_trip<T: Record>(v: T::V, tail: Seq<u8>)
    requires
        T::encodable(v),
        T::may_trail() || tail.len() == 0,
    ensures
        spec_decode::<T>(T::spec_encode(v) + tail) == Ok::<(T::V, nat), GuestError>(
            (v, T::spec_encode(v).len()),
        ),
{
    let bytes = T::spec_encode(v) + tail;
    assert(T::spec_encode(v) =~= bytes.subrange(0, T::spec_encode(v).len() as int));
    assert(holds_encoding::<T>(v, bytes));
    let w = choose|w: T::V| holds_encoding::<T>(w, bytes);
    T::lemma_prefix_unique(v, w, bytes);
}

/// A buffer that holds a value and more, where none may follow, decodes to
/// nothing.
pub proof fn lemma_trailing_bytes_are_malformed<T: Record>(v: T::V, tail: Seq<u8>)
    requires
        T::encodable(v),
        !T::may_trail(),
        tail.len() > 0,
    ensures
        spec_decode::<T>(T::spec_encode(v) + tail) == Err::<(T::V, nat), GuestError>(
            GuestError::MalformedInput,
        ),
{
    let bytes = T::spec_encode(v) + tail;
    assert(T::spec_encode(v) =~= bytes.subrange(0, T::spec_encode(v).len() as int));
    assert forall|w: T::V| !holds_encoding::<T>(w, bytes) by {
        if holds_encoding::<T>(w, bytes) {
            T::lemma_prefix_unique(v, w, bytes);
        }
    }
}

/// The bytes of one candidate: key, signature, flag.
pub open spec fn candidate_bytes(c: Candidate) -> Seq<u8> {
    c.key.ax@ + c.key.ay@ + c.sig.rx@ + c.sig.s@ + seq![c.is_ignore]
}

/// The bytes of a list of candidates, one after the other.
pub open spec fn candidates_bytes(cs: Seq<Candidate>) -> Seq<u8> {
    Seq::new(129 * cs.len(), |k: int| candidate_bytes(cs[k / 129])[k % 129])
}

/// The bytes of an input record.
pub open spec fn input_bytes(v: GuestInputView) -> Seq<u8> {
    v.root@ + v.message@ + spec_u64_to_le_bytes(v.candidates.len() as u64) + candidates_bytes(
        v.candidates,
    )
}

/// The number of candidates that the header of an input record declares.
pub open spec fn declared_candidates(bytes: Seq<u8>) -> nat {
    spec_u64_from_le_bytes(bytes.subrange(64, 72)) as nat
}

/// Whether a buffer holds the header of an input record and exactly as many
/// candidates as the header declares, with nothing after them.
pub open spec fn holds_input(bytes: Seq<u8>) -> bool {
    bytes.len() >= 72 && 72 + 129 * declared_candidates(bytes) == bytes.len()
}

/// The bytes of an output record.
pub open spec fn record_bytes(r: PublicRecord) -> Seq<u8> {
    r.root@ + r.message@ + spec_u32_to_le_bytes(r.sum_valid)
}

/// An output record always takes the same number of bytes.
pub proof fn lemma_record_length(r: PublicRecord)
    ensures
        record_bytes(r).len() == 68,
{
    lemma_auto_spec_u32_to_from_le_bytes();
}

/// Where each field of an input record lies in its encoding.
pub proof fn lemma_input_layout(v: GuestInputView)
    requires
        v.candidates.len() <= u64::MAX,
    ensures
        input_bytes(v).len() == 72 + 129 * v.candidates.len(),
        input_bytes(v).subrange(0, 32) == v.root@,
        input_bytes(v).subrange(32, 64) == v.message@,
        spec_u64_from_le_bytes(input_bytes(v).subrange(64, 72)) == v.candidates.len(),
        forall|i: int|
            0 <= i < v.candidates.len() ==> #[trigger] input_bytes(v).subrange(
                72 + 129 * i,
                72 + 129 * i + 129,
            ) == candidate_bytes(v.candidates[i]),
{
    lemma_auto_spec_u64_to_from_le_bytes();
    let e = input_bytes(v);
    let n = v.candidates.len();
    let count = spec_u64_to_le_bytes(n as u64);
    assert(count.len() == 8);
    assert(e.subrange(0, 32) =~= v.root@);
    assert(e.subrange(32, 64) =~= v.message@);
    assert(e.subrange(64, 72) =~= count);
    assert forall|i: int| 0 <= i < n implies #[trigger] e.subrange(
        72 + 129 * i,
        72 + 129 * i + 129,
    ) == candidate_bytes(v.candidates[i]) by {
        let part = e.subrange(72 + 129 * i, 72 + 129 * i + 129);
        let c = candidate_bytes(v.candidates[i]);
        assert forall|j: int| 0 <= j < 129 implies part[j] == c[j] by {
            let k = 129 * i + j;
            assert(k / 129 == i && k % 129 == j);
            assert(part[j] == e[72 + k]);
            assert(e[72 + k] == candidates_bytes(v.candidates)[k]);
        }
        assert(part =~= c);
    }
}

/// Where each field of a decoded input record was read from.
pub proof fn lemma_decoded_input_fields(bytes: Seq<u8>)
    requires
        spec_decode::<GuestInput>(bytes) is Ok,
    ensures
        holds_input(bytes),
        ({
            let (v, used) = spec_decode::<GuestInput>(bytes)->Ok_0;
            &&& used == bytes.len()
            &&& input_bytes(v) == bytes
            &&& v.root@ == bytes.subrange(0, 32)
            &&& v.message@ == bytes.subrange(32, 64)
            &&& v.candidates.len() == declared_candidates(bytes)
            &&& forall|i: int|
                0 <= i < v.candidates.len() ==> candidate_bytes(#[trigger] v.candidates[i])
                    == bytes.subrange(72 + 129 * i, 72 + 129 * i + 129)
        }),
{
    let (v, used) = spec_decode::<GuestInput>(bytes)->Ok_0;
    let e = input_bytes(v);
    assert(holds_encoding::<GuestInput>(v, bytes));
    lemma_input_layout(v);
    assert(e =~= bytes);
    assert(e.subrange(0, 32) =~= bytes.subrange(0, 32));
    assert(e.subrange(32, 64) =~= bytes.subrange(32, 64));
    assert(e.subrange(64, 72) =~= bytes.subrange(64, 72));
    assert forall|i: int| 0 <= i < v.candidates.len() implies candidate_bytes(
        #[trigger] v.candidates[i],
    ) == bytes.subrange(72 + 129 * i, 72 + 129 * i + 129) by {
        assert(e.subrange(72 + 129 * i, 72 + 129 * i + 129) =~= bytes.subrange(
            72 + 129 * i,
            72 + 129 * i + 129,
        ));
    }
}

/// A candidate is determined by its bytes.
pub proof fn lemma_candidate_bytes_injective(a: Candidate, b: Candidate)
    requires
        candidate_bytes(a) == candidate_bytes(b),
    ensures
        a == b,
{
    let x = candidate_bytes(a);
    let y = candidate_bytes(b);
    assert forall|j: int| 0 <= j < 32 implies a.key.ax@[j] == b.key.ax@[j] by {
        assert(x[j] == a.key.ax@[j] && y[j] == b.key.ax@[j]);
    }
    assert forall|j: int| 0 <= j < 32 implies a.key.ay@[j] == b.key.ay@[j] by {
        assert(x[32 + j] == a.key.ay@[j] && y[32 + j] == b.key.ay@[j]);
    }
    assert forall|j: int| 0 <= j < 32 implies a.sig.rx@[j] == b.sig.rx@[j] by {
        assert(x[64 + j] == a.sig.rx@[j] && y[64 + j] == b.sig.rx@[j]);
    }
    assert forall|j: int| 0 <= j < 32 implies a.sig.s@[j] == b.sig.s@[j] by {
        assert(x[96 + j] == a.sig.s@[j] && y[96 + j] == b.sig.s@[j]);
    }
    assert(x[128] == a.is_ignore && y[128] == b.is_ignore);
    assert(a.key.ax =~= b.key.ax);
    assert(a.key.ay =~= b.key.ay);
    assert(a.sig.rx =~= b.sig.rx);
    assert(a.sig.s =~= b.sig.s);
}

/// Copies 32 bytes out of a buffer.
pub(crate) fn read32(bytes: &[u8], at: usize) -> (out: Byte32)
    requires
        at + 32 <= bytes.len(),
    ensures
        out@ == bytes@.subrange(at as int, at + 32),
{
    let mut out = [0u8; 32];
    let mut i: usize = 0;
    while i < 32
        invariant
            i <= 32,
            at + 32 <= bytes.len(),
            forall|j: int| 0 <= j < i ==> out@[j] == bytes@[at + j],
        decreases 32 - i,
    {
        out[i] = bytes[at + i];
        i += 1;
    }
    assert(out@ =~= bytes@.subrange(at as int, at + 32));
    out
}

/// Appends the bytes of `src` to `out`.
pub fn append(out: &mut Vec<u8>, src: &[u8])
    ensures
        final(out)@ == old(out)@ + src@,
{
    let mut i: usize = 0;
    while i < src.len()
        invariant
            i <= src@.len(),
            out@ == old(out)@ + src@.subrange(0, i as int),
        decreases src@.len() - i,
    {
        out.push(src[i]);
        i += 1;
        assert(out@ =~= old(out)@ + src@.subrange(0, i as int));
    }
    assert(src@.subrange(0, i as int) =~= src@);
}

/// Appends the bytes of one candidate to `out`.
pub fn write_candidate(out: &mut Vec<u8>, c: &Candidate)
    ensures
        final(out)@ == old(out)@ + candidate_bytes(*c),
{
    append(out, c.key.ax.as_slice());
    append(out, c.key.ay.as_slice());
    append(out, c.sig.rx.as_slice());
    append(out, c.sig.s.as_slice());
    out.push(c.is_ignore);
    assert(out@ =~= old(out)@ + candidate_bytes(*c));
}

/// Reads the candidate that starts at `at`.
pub(crate) fn read_candidate(bytes: &[u8], at: usize) -> (c: Candidate)
    requires
        at + 129 <= bytes.len(),
    ensures
        candidate_bytes(c) == bytes@.subrange(at as int, at + 129),
{
    let ax = read32(bytes, at);
    let ay = read32(bytes, at + 32);
    let rx = read32(bytes, at + 64);
    let s = read32(bytes, at + 96);
    let is_ignore = bytes[at + 128];
    let c = Candidate { key: PubKey { ax, ay }, sig: SchnorrSig { rx, s }, is_ignore };
    assert(candidate_bytes(c) =~= bytes@.subrange(at as int, at + 129));
    c
}

impl Record for GuestInput {
    open spec fn encodable(v: GuestInputView) -> bool {
        v.candidates.len() <= u64::MAX
    }

    open spec fn spec_encode(v: GuestInputView) -> Seq<u8> {
        input_bytes(v)
    }

    open spec fn may_trail() -> bool {
        false
    }

    open spec fn fits(bytes: Seq<u8>) -> bool {
        holds_input(bytes)
    }

    proof fn lemma_held_fits(v: GuestInputView, bytes: Seq<u8>) {
        lemma_input_layout(v);
        assert(input_bytes(v).subrange(64, 72) =~= bytes.subrange(64, 72));
    }

    proof fn lemma_prefix_unique(a: GuestInputView, b: GuestInputView, bytes: Seq<u8>) {
        lemma_input_layout(a);
        lemma_input_layout(b);
        let ea = input_bytes(a);
        let eb = input_bytes(b);
        assert(ea.subrange(0, 32) =~= bytes.subrange(0, 32));
        assert(eb.subrange(0, 32) =~= bytes.subrange(0, 32));
        assert(ea.subrange(32, 64) =~= bytes.subrange(32, 64));
        assert(eb.subrange(32, 64) =~= bytes.subrange(32, 64));
        assert(ea.subrange(64, 72) =~= bytes.subrange(64, 72));
        assert(eb.subrange(64, 72) =~= bytes.subrange(64, 72));
        assert(a.root =~= b.root);
        assert(a.message =~= b.message);
        assert(a.candidates.len() == b.candidates.len());
        assert forall|i: int| 0 <= i < a.candidates.len() implies a.candidates[i]
            == b.candidates[i] by {
            let lo = 72 + 129 * i;
            assert(ea.subrange(lo, lo + 129) =~= bytes.subrange(lo, lo + 129));
            assert(eb.subrange(lo, lo + 129) =~= bytes.subrange(lo, lo + 129));
            lemma_candidate_bytes_injective(a.candidates[i], b.candidates[i]);
        }
        assert(a.candidates =~= b.candidates);
    }

    fn write(&self) -> (out: Vec<u8>) {
        let n = self.candidates.len();
        let mut out: Vec<u8> = Vec::new();
        append(&mut out, self.root.as_slice());
        append(&mut out, self.message.as_slice());
        let count = u64_to_le_bytes(n as u64);
        append(&mut out, count.as_slice());
        let ghost head = out@;
        let mut i: usize = 0;
        while i < n
            invariant
                i <= n,
                n == self.candidates@.len(),
                out@ == head + candidates_bytes(self.candidates@.take(i as int)),
            decreases n - i,
        {
            let ghost before = out@;
            write_candidate(&mut out, &self.candidates[i]);
            proof {
                let done = self.candidates@.take(i as int);
                let more = self.candidates@.take(i + 1);
                assert forall|k: int| 0 <= k < 129 * (i + 1) implies (candidates_bytes(done)
                    + candidate_bytes(self.candidates@[i as int]))[k] == candidates_bytes(
                    more,
                )[k] by {
                    if k >= 129 * i {
                        assert(k / 129 == i && k % 129 == k - 129 * i);
                    } else {
                        assert(k / 129 < i);
                    }
                }
                assert(candidates_bytes(done) + candidate_bytes(self.candidates@[i as int])
                    =~= candidates_bytes(more));
                assert(out@ =~= head + candidates_bytes(more));
            }
            i += 1;
        }
        assert(self.candidates@.take(n as int) =~= self.candidates@);
        out
    }

    fn read(bytes: &[u8]) -> (r: Result<(GuestInput, usize), GuestError>) {
        let len = bytes.len();
        if len < INPUT_HEADER_BYTES {
            proof {
                assert forall|v: GuestInputView|
                    Self::encodable(v) && (#[trigger] Self::spec_encode(v)).is_prefix_of(
                        bytes@,
                    ) implies Self::spec_encode(v).len() != bytes@.len() by {
                    lemma_input_layout(v);
                }
            }
            return Err(GuestError::MalformedInput);
        }
        let root = read32(bytes, 0);
        let message = read32(bytes, 32);
        let declared = u64_from_le_bytes(slice_subrange(bytes, 64, 72));
        let room = (len - INPUT_HEADER_BYTES) / CANDIDATE_BYTES;
        if (len - INPUT_HEADER_BYTES) % CANDIDATE_BYTES != 0 || declared != room as u64 {
            proof {
                assert forall|v: GuestInputView|
                    Self::encodable(v) && (#[trigger] Self::spec_encode(v)).is_prefix_of(
                        bytes@,
                    ) implies Self::spec_encode(v).len() != bytes@.len() by {
                    lemma_input_layout(v);
                    assert(input_bytes(v).subrange(64, 72) =~= bytes@.subrange(64, 72));
                }
            }
            return Err(GuestError::MalformedInput);
        }
        let n = declared as usize;
        let mut candidates: Vec<Candidate> = Vec::new();
        let mut i: usize = 0;
        while i < n
            invariant
                i <= n,
                72 + 129 * n <= bytes.len(),
                candidates@.len() == i,
                forall|j: int|
                    0 <= j < i ==> candidate_bytes(#[trigger] candidates@[j]) == bytes@.subrange(
                        72 + 129 * j,
                        72 + 129 * j + 129,
                    ),
            decreases n - i,
        {
            let c = read_candidate(bytes, INPUT_HEADER_BYTES + CANDIDATE_BYTES * i);
            candidates.push(c);
            i += 1;
        }
        let used = INPUT_HEADER_BYTES + CANDIDATE_BYTES * n;
        let input = GuestInput { root, message, candidates };
        proof {
            lemma_auto_spec_u64_to_from_le_bytes();
            let v = input@;
            let e = input_bytes(v);
            lemma_input_layout(v);
            assert(spec_u64_to_le_bytes(n as u64) == bytes@.subrange(64, 72));
            assert forall|k: int| 0 <= k < e.len() implies e[k] == bytes@[k] by {
                if k < 32 {
                    assert(e.subrange(0, 32)[k] == e[k]);
                } else if k < 64 {
                    assert(e.subrange(32, 64)[k - 32] == e[k]);
                } else if k < 72 {
                    assert(e.subrange(64, 72)[k - 64] == e[k]);
                    assert(bytes@.subrange(64, 72)[k - 64] == bytes@[k]);
                } else {
                    let j = (k - 72) / 129;
                    let o = (k - 72) % 129;
                    let lo = 72 + 129 * j;
                    assert(e.subrange(lo, lo + 129)[o] == e[k]);
                    assert(bytes@.subrange(lo, lo + 129)[o] == bytes@[k]);
                }
            }
            assert(e =~= bytes@.subrange(0, e.len() as int));
        }
        Ok((input, used))
    }
}

impl Record for PublicRecord {
    open spec fn encodable(v: PublicRecord) -> bool {
        true
    }

    open spec fn spec_encode(v: PublicRecord) -> Seq<u8> {
        record_bytes(v)
    }

    open spec fn may_trail() -> bool {
        true
    }

    open spec fn fits(bytes: Seq<u8>) -> bool {
        bytes.len() >= 68
    }

    proof fn lemma_held_fits(v: PublicRecord, bytes: Seq<u8>) {
        lemma_auto_spec_u32_to_from_le_bytes();
    }

    proof fn lemma_prefix_unique(a: PublicRecord, b: PublicRecord, bytes: Seq<u8>) {
        lemma_auto_spec_u32_to_from_le_bytes();
        let ea = record_bytes(a);
        let eb = record_bytes(b);
        assert(ea.subrange(0, 32) =~= a.root@ && eb.subrange(0, 32) =~= b.root@);
        assert(ea.subrange(32, 64) =~= a.message@ && eb.subrange(32, 64) =~= b.message@);
        assert(ea.subrange(64, 68) =~= spec_u32_to_le_bytes(a.sum_valid));
        assert(eb.subrange(64, 68) =~= spec_u32_to_le_bytes(b.sum_valid));
        assert(ea.subrange(0, 32) =~= bytes.subrange(0, 32));
        assert(eb.subrange(0, 32) =~= bytes.subrange(0, 32));
        assert(ea.subrange(32, 64) =~= bytes.subrange(32, 64));
        assert(eb.subrange(32, 64) =~= bytes.subrange(32, 64));
        assert(ea.subrange(64, 68) =~= bytes.subrange(64, 68));
        assert(eb.subrange(64, 68) =~= bytes.subrange(64, 68));
        assert(a.root =~= b.root);
        assert(a.message =~= b.message);
    }

    fn write(&self) -> (out: Vec<u8>) {
        let mut out: Vec<u8> = Vec::new();
        append(&mut out, self.root.as_slice());
        append(&mut out, self.message.as_slice());
        let count = u32_to_le_bytes(self.sum_valid);
        append(&mut out, count.as_slice());
        out
    }

    fn read(bytes: &[u8]) -> (r: Result<(PublicRecord, usize), GuestError>) {
        proof {
            lemma_auto_spec_u32_to_from_le_bytes();
        }
        if bytes.len() < RECORD_BYTES {
            assert forall|v: PublicRecord|
                Self::encodable(v) implies !(#[trigger] Self::spec_encode(v)).is_prefix_of(
                bytes@,
            ) by {
                assert(record_bytes(v).len() == 68);
            }
            return Err(GuestError::MalformedInput);
        }
        let root = read32(bytes, 0);
        let message = read32(bytes, 32);
        let sum_valid = u32_from_le_bytes(slice_subrange(bytes, 64, 68));
        let record = PublicRecord { root, message, sum_valid };
        proof {
            let e = record_bytes(record);
            assert(spec_u32_to_le_bytes(sum_valid) == bytes@.subrange(64, 68));
            assert(e =~= bytes@.subrange(0, 68));
        }
        Ok((record, RECORD_BYTES))
    }
}

} // verus!
