//! Shared byte-serialization error, constants, and readers for all variants.

use crate::hashing;
use crate::text;
use vstd::prelude::*;

verus! {

/// Magic tag at the start of every serialized sketch (`HVYK` in ASCII).
pub const MAGIC: [u8; 4] = [0x48, 0x56, 0x59, 0x4b];

/// On-disk format version. Bump whenever the byte layout changes.
pub const VERSION: u8 = 1;

/// Probe hashed at serialize time to detect a wrong seed on load.
pub const SERIALIZE_HASHER_PROBE: &'static str = "heavykeeper-serialize-hasher-probe";

/// Bytes per serialized cell: `(fingerprint: u64, count: u64)`.
pub const CELL_SIZE: usize = 16;

/// Bytes in a serialized `Xoshiro256PlusPlus` state (256-bit, little-endian).
pub const RNG_STATE_SIZE: usize = 32;

/// Error returned by every variant's `from_bytes`.
#[allow(inconsistent_fields)]
#[derive(Debug)]
pub enum DeserializeError {
    UnexpectedEof { field: &'static str, needed: usize, actual: usize },
    BadMagic { expected: [u8; 4], actual: [u8; 4] },
    WrongVariant { expected: u8, actual: u8 },
    HasherMismatch { expected: u64, actual: u64 },
    UnsupportedVersion { version: u8, expected: u8 },
    InvalidField { field: &'static str, detail: String },
    LengthMismatch { field: &'static str, actual: usize, expected: usize },
    TrailingBytes { count: usize },
}

impl DeserializeError {
    /// What the error says to a reader.
    pub open spec fn message_text(self) -> Seq<char> {
        match self {
            DeserializeError::UnexpectedEof { field, needed, actual } => {
                "Byte stream too short while reading "@ + field@ + ": need "@ + text::decimal_text(
                    needed as nat,
                ) + " more byte(s), have "@ + text::decimal_text(actual as nat)
            },
            DeserializeError::BadMagic { expected, actual } => {
                "Not a heavykeeper sketch: bad magic bytes "@ + text::hex_list_text(actual@)
                    + " (expected "@ + text::hex_list_text(expected@) + ")"@
            },
            DeserializeError::WrongVariant { expected, actual } => {
                "Payload is a different sketch variant: got tag "@ + text::decimal_text(
                    actual as nat,
                ) + " (expected "@ + text::decimal_text(expected as nat) + ")"@
            },
            DeserializeError::HasherMismatch { expected, actual } => {
                "Hasher mismatch: seed produces probe "@ + text::decimal_text(actual as nat)
                    + " but payload holds "@ + text::decimal_text(expected as nat)
                    + " (wrong seed passed to from_bytes)"@
            },
            DeserializeError::UnsupportedVersion { version, expected } => {
                "Unsupported serialization version "@ + text::decimal_text(version as nat)
                    + " (this build expects "@ + text::decimal_text(expected as nat) + ")"@
            },
            DeserializeError::InvalidField { field, detail } => {
                "Invalid "@ + field@ + " value: "@ + detail@
            },
            DeserializeError::LengthMismatch { field, actual, expected } => {
                "Length mismatch for "@ + field@ + ": payload holds "@ + text::decimal_text(
                    actual as nat,
                ) + " but expected "@ + text::decimal_text(expected as nat)
            },
            DeserializeError::TrailingBytes { count } => {
                text::decimal_text(count as nat)
                    + " unexpected trailing byte(s) after the sketch payload"@
            },
        }
    }

    /// The error as a line of text.
    pub fn message(&self) -> (line: String)
        ensures
            line@ == self.message_text(),
    {
        let mut out: String = String::new();
        match self {
            DeserializeError::UnexpectedEof { field, needed, actual } => {
                out.append("Byte stream too short while reading ");
                out.append(field);
                out.append(": need ");
                text::push_decimal(&mut out, *needed as u64);
                out.append(" more byte(s), have ");
                text::push_decimal(&mut out, *actual as u64);
            },
            DeserializeError::BadMagic { expected, actual } => {
                out.append("Not a heavykeeper sketch: bad magic bytes ");
                text::push_hex_list(&mut out, actual.as_slice());
                out.append(" (expected ");
                text::push_hex_list(&mut out, expected.as_slice());
                out.append(")");
            },
            DeserializeError::WrongVariant { expected, actual } => {
                out.append("Payload is a different sketch variant: got tag ");
                text::push_decimal(&mut out, *actual as u64);
                out.append(" (expected ");
                text::push_decimal(&mut out, *expected as u64);
                out.append(")");
            },
            DeserializeError::HasherMismatch { expected, actual } => {
                out.append("Hasher mismatch: seed produces probe ");
                text::push_decimal(&mut out, *actual);
                out.append(" but payload holds ");
                text::push_decimal(&mut out, *expected);
                out.append(" (wrong seed passed to from_bytes)");
            },
            DeserializeError::UnsupportedVersion { version, expected } => {
                out.append("Unsupported serialization version ");
                text::push_decimal(&mut out, *version as u64);
                out.append(" (this build expects ");
                text::push_decimal(&mut out, *expected as u64);
                out.append(")");
            },
            DeserializeError::InvalidField { field, detail } => {
                out.append("Invalid ");
                out.append(field);
                out.append(" value: ");
                out.append(detail.as_str());
            },
            DeserializeError::LengthMismatch { field, actual, expected } => {
                out.append("Length mismatch for ");
                out.append(field);
                out.append(": payload holds ");
                text::push_decimal(&mut out, *actual as u64);
                out.append(" but expected ");
                text::push_decimal(&mut out, *expected as u64);
            },
            DeserializeError::TrailingBytes { count } => {
                text::push_decimal(&mut out, *count as u64);
                out.append(" unexpected trailing byte(s) after the sketch payload");
            },
        }
        assert(out@ =~= self.message_text());
        out
    }
}

/// The detail of the error for a length that a `usize` cannot hold.
pub open spec fn usize_range_text(value: u64) -> Seq<char> {
    "value "@ + text::decimal_text(value as nat) + " exceeds usize range on this platform"@
}

fn usize_range_detail(value: u64) -> (detail: String)
    ensures
        detail@ == usize_range_text(value),
{
    let mut out: String = String::new();
    out.append("value ");
    text::push_decimal(&mut out, value);
    out.append(" exceeds usize range on this platform");
    assert(out@ =~= usize_range_text(value));
    out
}

/// The `n` bytes of `payload` at `at`.
pub open spec fn field_bytes(payload: Seq<u8>, at: nat, n: nat) -> Seq<u8> {
    payload.subrange(at as int, (at + n) as int)
}

/// The little-endian `u64` in `payload` at `at`.
pub open spec fn field_u64(payload: Seq<u8>, at: nat) -> u64 {
    vstd::bytes::spec_u64_from_le_bytes(field_bytes(payload, at, 8))
}

/// The header of a payload: magic, variant tag, version, hasher probe.
pub open spec fn header_bytes(variant: u8, probe: u64) -> Seq<u8> {
    MAGIC@ + seq![variant, VERSION] + vstd::bytes::spec_u64_to_le_bytes(probe)
}

/// The hash of the probe text under the hasher that `seed` gives.
pub open spec fn seed_probe(seed: u64) -> u64 {
    hashing::hash_of(
        hashing::seeded_state(seed, seed, seed, seed),
        vstd::utf8::encode_utf8(SERIALIZE_HASHER_PROBE@),
    )
}

/// `result` is the error for a read of `field` that needs `needed` bytes at `at`.
pub open spec fn is_eof<V>(
    result: Result<V, DeserializeError>,
    payload: Seq<u8>,
    at: nat,
    field: Seq<char>,
    needed: nat,
) -> bool {
    &&& result matches Err(DeserializeError::UnexpectedEof { field: f, needed: n, actual: a })
    &&& f@ == field
    &&& n == needed
    &&& a == payload.len() - at
}

/// What checking the header at `at` gives, and the position that it leaves the
/// cursor at: each check in turn reads its field and then compares it.
pub open spec fn is_header_outcome(
    payload: Seq<u8>,
    at: nat,
    variant: u8,
    probe: u64,
    result: Result<(), DeserializeError>,
    end: nat,
) -> bool {
    let left = payload.len() - at;
    if left < 4 {
        is_eof(result, payload, at, "magic"@, 4) && end == at
    } else if field_bytes(payload, at, 4) != MAGIC@ {
        &&& result matches Err(DeserializeError::BadMagic { expected, actual })
        &&& expected@ == MAGIC@
        &&& actual@ == field_bytes(payload, at, 4)
        &&& end == at + 4
    } else if left < 5 {
        is_eof(result, payload, at + 4, "variant"@, 1) && end == at + 4
    } else if payload[(at + 4) as int] != variant {
        &&& result matches Err(DeserializeError::WrongVariant { expected, actual })
        &&& expected == variant
        &&& actual == payload[(at + 4) as int]
        &&& end == at + 5
    } else if left < 6 {
        is_eof(result, payload, at + 5, "version"@, 1) && end == at + 5
    } else if payload[(at + 5) as int] != VERSION {
        &&& result matches Err(DeserializeError::UnsupportedVersion { version, expected })
        &&& version == payload[(at + 5) as int]
        &&& expected == VERSION
        &&& end == at + 6
    } else if left < 14 {
        is_eof(result, payload, at + 6, "hasher_probe"@, 8) && end == at + 6
    } else if field_u64(payload, at + 6) != probe {
        &&& result matches Err(DeserializeError::HasherMismatch { expected, actual })
        &&& expected == field_u64(payload, at + 6)
        &&& actual == probe
        &&& end == at + 14
    } else {
        result is Ok && end == at + 14
    }
}

/// A forward-only cursor over a serialized payload. Every read is
/// bounds-checked and advances the cursor, so `from_bytes` never touches raw
/// offsets and a truncated stream fails with a precise `UnexpectedEof`.
pub struct ByteReader<'a> {
    bytes: &'a [u8],
    pos: usize,
}

impl<'a> ByteReader<'a> {
    /// The whole payload.
    pub closed spec fn payload(self) -> Seq<u8> {
        self.bytes@
    }

    /// The number of bytes before the cursor.
    pub closed spec fn position(self) -> nat {
        self.pos as nat
    }

    /// The cursor lies within the payload.
    pub open spec fn wf(self) -> bool {
        self.position() <= self.payload().len()
    }

    /// A cursor at the start of `bytes`.
    pub fn new(bytes: &'a [u8]) -> (reader: Self)
        ensures
            reader.wf(),
            reader.payload() == bytes@,
            reader.position() == 0,
    {
        Self { bytes, pos: 0 }
    }

    /// Read `n` bytes, advancing the cursor.
    pub fn take(&mut self, n: usize, field: &'static str) -> (result: Result<
        &'a [u8],
        DeserializeError,
    >)
        requires
            old(self).wf(),
        ensures
            final(self).wf(),
            final(self).payload() == old(self).payload(),
            old(self).position() + n > old(self).payload().len() ==> is_eof(
                result,
                old(self).payload(),
                old(self).position(),
                field@,
                n as nat,
            ) && final(self).position() == old(self).position(),
            old(self).position() + n <= old(self).payload().len() ==> {
                &&& result matches Ok(slice)
                &&& slice@ == field_bytes(old(self).payload(), old(self).position(), n as nat)
                &&& final(self).position() == old(self).position() + n
            },
    {
        let available: usize = self.bytes.len() - self.pos;
        if available < n {
            return Err(DeserializeError::UnexpectedEof { field, needed: n, actual: available });
        }
        let slice: &'a [u8] = vstd::slice::slice_subrange(self.bytes, self.pos, self.pos + n);
        self.pos += n;
        Ok(slice)
    }

    /// Read a fixed-size byte array.
    pub fn take_array<const N: usize>(&mut self, field: &'static str) -> (result: Result<
        [u8; N],
        DeserializeError,
    >)
        requires
            old(self).wf(),
        ensures
            final(self).wf(),
            final(self).payload() == old(self).payload(),
            old(self).position() + N > old(self).payload().len() ==> is_eof(
                result,
                old(self).payload(),
                old(self).position(),
                field@,
                N as nat,
            ) && final(self).position() == old(self).position(),
            old(self).position() + N <= old(self).payload().len() ==> {
                &&& result matches Ok(array)
                &&& array@ == field_bytes(old(self).payload(), old(self).position(), N as nat)
                &&& final(self).position() == old(self).position() + N
            },
    {
        let slice: &'a [u8] = match self.take(N, field) {
            Ok(slice) => slice,
            Err(error) => return Err(error),
        };
        let mut array: [u8; N] = [0u8; N];
        let mut i: usize = 0;
        while i < N
            invariant
                slice@.len() == N,
                i <= N,
                forall|j: int| 0 <= j < i ==> array@[j] == slice@[j],
            decreases N - i,
        {
            array[i] = slice[i];
            i += 1;
        }
        assert(array@ =~= slice@);
        Ok(array)
    }

    /// Read a single byte.
    pub fn take_u8(&mut self, field: &'static str) -> (result: Result<u8, DeserializeError>)
        requires
            old(self).wf(),
        ensures
            final(self).wf(),
            final(self).payload() == old(self).payload(),
            old(self).position() + 1 > old(self).payload().len() ==> is_eof(
                result,
                old(self).payload(),
                old(self).position(),
                field@,
                1,
            ) && final(self).position() == old(self).position(),
            old(self).position() + 1 <= old(self).payload().len() ==> {
                &&& result matches Ok(byte)
                &&& byte == old(self).payload()[old(self).position() as int]
                &&& final(self).position() == old(self).position() + 1
            },
    {
        match self.take(1, field) {
            Ok(slice) => Ok(slice[0]),
            Err(error) => Err(error),
        }
    }

    /// Read a little-endian `u64`.
    pub fn take_u64(&mut self, field: &'static str) -> (result: Result<u64, DeserializeError>)
        requires
            old(self).wf(),
        ensures
            final(self).wf(),
            final(self).payload() == old(self).payload(),
            old(self).position() + 8 > old(self).payload().len() ==> is_eof(
                result,
                old(self).payload(),
                old(self).position(),
                field@,
                8,
            ) && final(self).position() == old(self).position(),
            old(self).position() + 8 <= old(self).payload().len() ==> {
                &&& result matches Ok(value)
                &&& value == field_u64(old(self).payload(), old(self).position())
                &&& final(self).position() == old(self).position() + 8
            },
    {
        match self.take(8, field) {
            Ok(slice) => Ok(vstd::bytes::u64_from_le_bytes(slice)),
            Err(error) => Err(error),
        }
    }

    /// Read a little-endian `u64` and narrow it to `usize`, erroring on overflow.
    pub fn take_usize(&mut self, field: &'static str) -> (result: Result<usize, DeserializeError>)
        requires
            old(self).wf(),
        ensures
            final(self).wf(),
            final(self).payload() == old(self).payload(),
            old(self).position() + 8 > old(self).payload().len() ==> is_eof(
                result,
                old(self).payload(),
                old(self).position(),
                field@,
                8,
            ) && final(self).position() == old(self).position(),
            old(self).position() + 8 <= old(self).payload().len() ==> {
                let value = field_u64(old(self).payload(), old(self).position());
                &&& final(self).position() == old(self).position() + 8
                &&& value <= usize::MAX ==> {
                    &&& result matches Ok(narrowed)
                    &&& narrowed == value
                }
                &&& value > usize::MAX ==> {
                    &&& result matches Err(DeserializeError::InvalidField { field: f, detail })
                    &&& f@ == field@
                    &&& detail@ == usize_range_text(value)
                }
            },
    {
        let value: u64 = match self.take_u64(field) {
            Ok(value) => value,
            Err(error) => return Err(error),
        };
        if value > usize::MAX as u64 {
            return Err(DeserializeError::InvalidField { field, detail: usize_range_detail(value) });
        }
        Ok(value as usize)
    }

    /// Verify the fixed header shared by every variant: magic, `variant` tag,
    /// version, and the hasher probe. Rebuilds the hasher from `seed` and
    /// rejects a wrong seed before any geometry is parsed.
    pub fn read_header(&mut self, variant: u8, seed: u64) -> (result: Result<(), DeserializeError>)
        requires
            old(self).wf(),
        ensures
            final(self).wf(),
            final(self).payload() == old(self).payload(),
            is_header_outcome(
                old(self).payload(),
                old(self).position(),
                variant,
                seed_probe(seed),
                result,
                final(self).position(),
            ),
    {
        let state = hashing::state_with_seeds(seed, seed, seed, seed);
        let probe: u64 = hashing::hash_bytes(&state, SERIALIZE_HASHER_PROBE.as_bytes());
        self.read_header_with_probe(variant, probe)
    }

    /// Verify the fixed header against the probe that the caller's hasher gives.
    pub fn read_header_with_probe(&mut self, variant: u8, actual_probe: u64) -> (result: Result<
        (),
        DeserializeError,
    >)
        requires
            old(self).wf(),
        ensures
            final(self).wf(),
            final(self).payload() == old(self).payload(),
            is_header_outcome(
                old(self).payload(),
                old(self).position(),
                variant,
                actual_probe,
                result,
                final(self).position(),
            ),
    {
        let magic: [u8; 4] = match self.take_array::<4>("magic") {
            Ok(magic) => magic,
            Err(error) => return Err(error),
        };
        if !hashing::bytes_equal(magic.as_slice(), MAGIC.as_slice()) {
            return Err(DeserializeError::BadMagic { expected: MAGIC, actual: magic });
        }
        let got_variant: u8 = match self.take_u8("variant") {
            Ok(got_variant) => got_variant,
            Err(error) => return Err(error),
        };
        if got_variant != variant {
            return Err(DeserializeError::WrongVariant { expected: variant, actual: got_variant });
        }
        let version: u8 = match self.take_u8("version") {
            Ok(version) => version,
            Err(error) => return Err(error),
        };
        if version != VERSION {
            return Err(DeserializeError::UnsupportedVersion { version, expected: VERSION });
        }
        let expected_probe: u64 = match self.take_u64("hasher_probe") {
            Ok(expected_probe) => expected_probe,
            Err(error) => return Err(error),
        };
        if actual_probe != expected_probe {
            return Err(
                DeserializeError::HasherMismatch { expected: expected_probe, actual: actual_probe },
            );
        }
        Ok(())
    }

    /// Reject any bytes left after the payload.
    pub fn finish(&self) -> (result: Result<(), DeserializeError>)
        requires
            self.wf(),
        ensures
            result is Ok <==> self.position() == self.payload().len(),
            result matches Err(error) ==> {
                &&& error matches DeserializeError::TrailingBytes { count }
                &&& count == self.payload().len() - self.position()
            },
    {
        if self.pos != self.bytes.len() {
            return Err(DeserializeError::TrailingBytes { count: self.bytes.len() - self.pos });
        }
        Ok(())
    }
}

/// Two reads in a row give what one read of both lengths gives.
pub proof fn law_reads_join(payload: Seq<u8>, at: nat, n: nat, k: nat)
    requires
        at + n + k <= payload.len(),
    ensures
        field_bytes(payload, at, n) + field_bytes(payload, at + n, k) == field_bytes(
            payload,
            at,
            n + k,
        ),
{
    assert(field_bytes(payload, at, n) + field_bytes(payload, at + n, k) =~= field_bytes(
        payload,
        at,
        n + k,
    ));
}

/// A `u64` reads back as the value whose little-endian bytes were written, and
/// no other bytes read as that value.
pub proof fn law_u64_reads_back(payload: Seq<u8>, at: nat, value: u64)
    requires
        at + 8 <= payload.len(),
    ensures
        field_u64(payload, at) == value <==> field_bytes(payload, at, 8)
            == vstd::bytes::spec_u64_to_le_bytes(value),
{
    vstd::bytes::lemma_auto_spec_u64_to_from_le_bytes();
    assert(field_bytes(payload, at, 8).len() == 8);
}

/// A header is accepted exactly when its bytes are those that are written for
/// the variant and the probe, and the cursor then stands behind them.
pub proof fn law_header_reads_back(
    payload: Seq<u8>,
    at: nat,
    variant: u8,
    probe: u64,
    result: Result<(), DeserializeError>,
    end: nat,
)
    requires
        at <= payload.len(),
        is_header_outcome(payload, at, variant, probe, result, end),
    ensures
        header_bytes(variant, probe).len() == 14,
        result is Ok <==> at + 14 <= payload.len() && field_bytes(payload, at, 14) == header_bytes(
            variant,
            probe,
        ),
        result is Ok ==> end == at + 14,
{
    let header = header_bytes(variant, probe);
    vstd::bytes::lemma_auto_spec_u64_to_from_le_bytes();
    assert(header.len() == 14);
    if at + 14 <= payload.len() {
        let found = field_bytes(payload, at, 14);
        law_u64_reads_back(payload, at + 6, probe);
        if result is Ok {
            let magic = field_bytes(payload, at, 4);
            let tail = field_bytes(payload, at + 6, 8);
            assert forall|i: int| 0 <= i < 14 implies found[i] == header[i] by {
                if i < 4 {
                    assert(found[i] == magic[i]);
                } else if i >= 6 {
                    assert(found[i] == tail[i - 6]);
                }
            }
            assert(found =~= header);
        }
        if found == header {
            lemma_header_fields(payload, at, variant, probe);
        }
    }
}

/// The fields of a payload that holds a header.
proof fn lemma_header_fields(payload: Seq<u8>, at: nat, variant: u8, probe: u64)
    requires
        at + 14 <= payload.len(),
        field_bytes(payload, at, 14) == header_bytes(variant, probe),
    ensures
        field_bytes(payload, at, 4) == MAGIC@,
        payload[(at + 4) as int] == variant,
        payload[(at + 5) as int] == VERSION,
        field_u64(payload, at + 6) == probe,
{
    let header = header_bytes(variant, probe);
    let found = field_bytes(payload, at, 14);
    vstd::bytes::lemma_auto_spec_u64_to_from_le_bytes();
    assert(header.len() == 14);
    assert(field_bytes(payload, at, 4) =~= MAGIC@) by {
        assert forall|i: int| 0 <= i < 4 implies field_bytes(payload, at, 4)[i] == MAGIC@[i] by {
            assert(found[i] == header[i]);
        }
    }
    assert(found[4] == header[4] == variant);
    assert(found[4] == payload[(at + 4) as int]);
    assert(found[5] == header[5] == VERSION);
    assert(found[5] == payload[(at + 5) as int]);
    assert(field_bytes(payload, at + 6, 8) =~= vstd::bytes::spec_u64_to_le_bytes(probe)) by {
        assert forall|i: int| 0 <= i < 8 implies field_bytes(payload, at + 6, 8)[i]
            == vstd::bytes::spec_u64_to_le_bytes(probe)[i] by {
            assert(found[i + 6] == header[i + 6]);
            assert(found[i + 6] == payload[at + 6 + i]);
            assert(header[i + 6] == vstd::bytes::spec_u64_to_le_bytes(probe)[i]);
        }
    }
    law_u64_reads_back(payload, at + 6, probe);
}

/// A header written for another variant is answered with both tags, whatever the
/// seed; one of the right variant that was written under another probe, with
/// both probes.
pub proof fn law_foreign_header(
    payload: Seq<u8>,
    at: nat,
    written_variant: u8,
    written_probe: u64,
    variant: u8,
    probe: u64,
    result: Result<(), DeserializeError>,
    end: nat,
)
    requires
        at + 14 <= payload.len(),
        field_bytes(payload, at, 14) == header_bytes(written_variant, written_probe),
        is_header_outcome(payload, at, variant, probe, result, end),
    ensures
        written_variant != variant ==> result == Err::<(), DeserializeError>(
            DeserializeError::WrongVariant { expected: variant, actual: written_variant },
        ),
        written_variant == variant && written_probe != probe ==> result == Err::<
            (),
            DeserializeError,
        >(DeserializeError::HasherMismatch { expected: written_probe, actual: probe }),
{
    lemma_header_fields(payload, at, written_variant, written_probe);
}

/// A header that breaks off is answered with the end of the stream, never with
/// another error.
pub proof fn law_truncated_header(
    payload: Seq<u8>,
    at: nat,
    variant: u8,
    probe: u64,
    result: Result<(), DeserializeError>,
    end: nat,
)
    requires
        at <= payload.len() < at + 14,
        payload.subrange(at as int, payload.len() as int) == header_bytes(variant, probe).take(
            payload.len() - at,
        ),
        is_header_outcome(payload, at, variant, probe, result, end),
    ensures
        result matches Err(DeserializeError::UnexpectedEof { field, needed, actual })
            && actual < needed && actual == payload.len() - end,
{
    let header = header_bytes(variant, probe);
    let found = payload.subrange(at as int, payload.len() as int);
    let left = payload.len() - at;
    vstd::bytes::lemma_auto_spec_u64_to_from_le_bytes();
    assert forall|i: int| 0 <= i < left implies payload[at + i] == header[i] by {
        assert(found[i] == header.take(left)[i]);
    }
    if left >= 4 {
        assert(field_bytes(payload, at, 4) =~= MAGIC@) by {
            assert forall|i: int| 0 <= i < 4 implies field_bytes(payload, at, 4)[i]
                == MAGIC@[i] by {
                assert(payload[at + i] == header[i]);
            }
        }
    }
    if left >= 5 {
        assert(payload[(at + 4) as int] == header[4]);
    }
    if left >= 6 {
        assert(payload[(at + 5) as int] == header[5]);
    }
}

/// A field is the bytes from its position on, in order.
pub proof fn law_field_bytes(payload: Seq<u8>, at: nat, n: nat)
    requires
        at + n <= payload.len(),
    ensures
        field_bytes(payload, at, n).len() == n,
        forall|i: int| 0 <= i < n ==> #[trigger] field_bytes(payload, at, n)[i] == payload[at + i],
        n == 8 ==> field_u64(payload, at) == vstd::bytes::spec_u64_from_le_bytes(
            payload.subrange(at as int, at + 8int),
        ),
{
}

/// The end of the stream is reported with the field, the bytes that it needs, and
/// those that are left.
pub proof fn law_end_of_stream<V>(
    result: Result<V, DeserializeError>,
    payload: Seq<u8>,
    at: nat,
    name: Seq<char>,
    size: nat,
)
    requires
        at <= payload.len(),
        is_eof(result, payload, at, name, size),
    ensures
        result matches Err(DeserializeError::UnexpectedEof { field, needed, actual }) && field@
            == name && needed == size && at + actual == payload.len(),
{
}

/// What each answer to a header means of the bytes at the cursor. A field that is
/// not there in full is the end of the stream, at the first such field; the fields
/// before it are `HVYK`, the variant and version one. Else the first field that is
/// not as it should be is named, with what was found there.
pub proof fn law_header_answers(
    payload: Seq<u8>,
    at: nat,
    variant: u8,
    probe: u64,
    result: Result<(), DeserializeError>,
    end: nat,
)
    requires
        at <= payload.len(),
        is_header_outcome(payload, at, variant, probe, result, end),
    ensures
        ({
            let left = payload.len() - at;
            let magic = payload.subrange(at as int, at + 4int);
            let good_magic = left >= 4 && magic == seq![72u8, 86, 89, 75];
            let good_variant = good_magic && left >= 5 && payload[at + 4int] == variant;
            let good_version = good_variant && left >= 6 && payload[at + 5int] == 1;
            let found = vstd::bytes::spec_u64_from_le_bytes(
                payload.subrange(at + 6int, at + 14int),
            );
            let whole = good_version && left >= 14;
            &&& result is Ok <==> whole && found == probe
            &&& (result matches Err(DeserializeError::BadMagic { .. })) <==> left >= 4
                && !good_magic
            &&& (result matches Err(DeserializeError::WrongVariant { .. })) <==> good_magic && left
                >= 5 && !good_variant
            &&& (result matches Err(DeserializeError::UnsupportedVersion { .. })) <==> good_variant
                && left >= 6 && !good_version
            &&& (result matches Err(DeserializeError::HasherMismatch { .. })) <==> whole && found
                != probe
            &&& (result matches Err(DeserializeError::UnexpectedEof { .. })) <==> left < 4 || (
            good_magic && left < 5) || (good_variant && left < 6) || (good_version && left < 14)
            &&& result matches Err(DeserializeError::BadMagic { expected, actual }) ==> expected@
                == seq![72u8, 86, 89, 75] && actual@ == magic && end == at + 4
            &&& result matches Err(DeserializeError::WrongVariant { expected, actual })
                ==> expected == variant && actual == payload[at + 4int] && end == at + 5
            &&& result matches Err(DeserializeError::UnsupportedVersion { version, expected })
                ==> version == payload[at + 5int] && expected == 1 && end == at + 6
            &&& result matches Err(DeserializeError::HasherMismatch { expected, actual })
                ==> expected == found && actual == probe && end == at + 14
            &&& result matches Err(DeserializeError::UnexpectedEof { field, needed, actual }) ==> {
                let (name, size, start): (Seq<char>, int, int) = if left < 4 {
                    ("magic"@, 4, 0)
                } else if left < 5 {
                    ("variant"@, 1, 4)
                } else if left < 6 {
                    ("version"@, 1, 5)
                } else {
                    ("hasher_probe"@, 8, 6)
                };
                field@ == name && needed == size && actual == left - start && end == at + start
            }
            &&& result is Ok ==> end == at + 14
        }),
{
    assert(MAGIC@ =~= seq![72u8, 86, 89, 75]);
}

/// A header is accepted under a seed exactly when its probe is the hash of the probe
/// text under the hasher that takes the seed for all four of its keys; another probe
/// is answered with both.
pub proof fn law_seed_decides(
    payload: Seq<u8>,
    at: nat,
    variant: u8,
    seed: u64,
    result: Result<(), DeserializeError>,
    end: nat,
)
    requires
        at + 14 <= payload.len(),
        payload.subrange(at as int, at + 6int) == seq![72u8, 86, 89, 75, variant, 1],
        is_header_outcome(payload, at, variant, seed_probe(seed), result, end),
    ensures
        ({
            let state = hashing::seeded_state(seed, seed, seed, seed);
            let hash = hashing::hash_of(
                state,
                vstd::utf8::encode_utf8("heavykeeper-serialize-hasher-probe"@),
            );
            let found = vstd::bytes::spec_u64_from_le_bytes(
                payload.subrange(at + 6int, at + 14int),
            );
            &&& found == hash ==> result is Ok
            &&& found != hash ==> result == Err::<(), DeserializeError>(
                DeserializeError::HasherMismatch { expected: found, actual: hash },
            )
        }),
{
    let head = payload.subrange(at as int, at + 6int);
    assert(payload.subrange(at as int, at + 4int) =~= seq![72u8, 86, 89, 75]) by {
        assert forall|i: int| 0 <= i < 4 implies payload[at + i] == seq![72u8, 86, 89, 75][i] by {
            assert(head[i] == payload[at + i]);
        }
    }
    assert(head[4] == payload[at + 4int]);
    assert(head[5] == payload[at + 5int]);
    law_header_answers(payload, at, variant, seed_probe(seed), result, end);
}

/// The messages, word for word; numbers are in decimal, magic bytes in hexadecimal.
pub proof fn law_messages(field: &'static str, detail: String, a: usize, b: usize, c: u8, d: u8)
    ensures
        (DeserializeError::UnexpectedEof { field, needed: a, actual: b }).message_text()
            == "Byte stream too short while reading "@ + field@ + ": need "@ + text::decimal_text(
            a as nat,
        ) + " more byte(s), have "@ + text::decimal_text(b as nat),
        (DeserializeError::WrongVariant { expected: c, actual: d }).message_text()
            == "Payload is a different sketch variant: got tag "@ + text::decimal_text(d as nat)
            + " (expected "@ + text::decimal_text(c as nat) + ")"@,
        (DeserializeError::UnsupportedVersion { version: c, expected: d }).message_text()
            == "Unsupported serialization version "@ + text::decimal_text(c as nat)
            + " (this build expects "@ + text::decimal_text(d as nat) + ")"@,
        (DeserializeError::InvalidField { field, detail }).message_text() == "Invalid "@ + field@
            + " value: "@ + detail@,
        (DeserializeError::LengthMismatch { field, actual: a, expected: b }).message_text()
            == "Length mismatch for "@ + field@ + ": payload holds "@ + text::decimal_text(a as nat)
            + " but expected "@ + text::decimal_text(b as nat),
        (DeserializeError::TrailingBytes { count: a }).message_text() == text::decimal_text(
            a as nat,
        ) + " unexpected trailing byte(s) after the sketch payload"@,
{
}

/// The messages on foreign bytes and seeds, and the detail on a length that a
/// `usize` cannot hold, word for word.
pub proof fn law_more_messages(magic: [u8; 4], other: [u8; 4], a: u64, b: u64)
    ensures
        (DeserializeError::BadMagic { expected: magic, actual: other }).message_text()
            == "Not a heavykeeper sketch: bad magic bytes "@ + text::hex_list_text(other@)
            + " (expected "@ + text::hex_list_text(magic@) + ")"@,
        (DeserializeError::HasherMismatch { expected: a, actual: b }).message_text()
            == "Hasher mismatch: seed produces probe "@ + text::decimal_text(b as nat)
            + " but payload holds "@ + text::decimal_text(a as nat)
            + " (wrong seed passed to from_bytes)"@,
        usize_range_text(a) == "value "@ + text::decimal_text(a as nat)
            + " exceeds usize range on this platform"@,
{
}

}
