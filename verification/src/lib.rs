//! K-Sortable Unique Identifiers: 20-byte identifiers whose first 4 bytes are
//! a timestamp and whose remaining 16 bytes are random, with a 27-character
//! base62 text form that sorts as the bytes do.
pub mod base62;
pub mod civil;
pub mod cli;
pub mod compressed_set;
mod error;
mod platform;
pub mod positional;
pub mod sequence;
pub mod sort;
pub mod text;
pub mod varint;

pub use compressed_set::{CompressedSet, CompressedSetIter};
pub use error::Error;
pub use sequence::Sequence;
pub use sort::{compare, is_sorted, sort};

use vstd::prelude::*;
use vstd::slice::slice_subrange;
use crate::base62::{
    alphabet, lemma_alphabet_digit, lemma_be4, lemma_bytes_below, lemma_decode_encode,
    lemma_encode_decode, lemma_encode_order, lemma_power_values, spec_decode, spec_encode,
};
use crate::text::lemma_ascii_utf8;
use vstd::utf8::encode_utf8;
use crate::text::{all_ascii, ascii_chars, ascii_string};
use vstd::string::StringSliceAdditionalSpecFns;
use crate::positional::{
    be_value, digits_below, lemma_be_append, lemma_be_bound, lemma_be_front, lemma_be_injective,
    lemma_lex_order_value, lemma_power_positive, lemma_to_digits_below, lemma_to_digits_value,
    lex_order, num_order, power, to_digits,
};

verus! {

/// KSUID epoch: May 13, 2014 in Unix seconds
pub const EPOCH: u64 = 1_400_000_000;

/// Size of a KSUID in bytes
pub const BYTE_SIZE: usize = 20;

/// Size of the payload in bytes
pub const PAYLOAD_SIZE: usize = 16;

/// Size of the encoded string
pub const ENCODED_SIZE: usize = 27;

/// The raw timestamp of a KSUID made at Unix time `unix_seconds`: the
/// seconds since the KSUID epoch (zero before it), modulo 2^32.
pub open spec fn timestamp_of_unix(unix_seconds: u64) -> nat {
    ((if unix_seconds >= EPOCH {
        unix_seconds - EPOCH
    } else {
        0
    }) % 4294967296) as nat
}

/// `n` zero bytes.
pub open spec fn zeros(n: nat) -> Seq<u8> {
    Seq::new(n, |i: int| 0u8)
}

/// `n` bytes of 0xFF.
pub open spec fn ones(n: nat) -> Seq<u8> {
    Seq::new(n, |i: int| 0xFFu8)
}

/// The 4 big-endian bytes of a 32-bit timestamp.
pub open spec fn timestamp_bytes(ts: nat) -> Seq<u8> {
    to_digits(ts, 256, 4)
}

/// The value of `n` bytes of 0xFF is `256^n - 1`.
pub proof fn lemma_ones_value(n: nat)
    ensures
        be_value(ones(n), 256) + 1 == power(256, n),
    decreases n,
{
    if n > 0 {
        lemma_ones_value((n - 1) as nat);
        assert(ones(n).drop_last() =~= ones((n - 1) as nat));
    } else {
        assert(power(256, 0) == 1);
    }
}

/// The value of `n` zero bytes is zero.
pub proof fn lemma_zeros_value(n: nat)
    ensures
        be_value(zeros(n), 256) == 0,
    decreases n,
{
    if n > 0 {
        lemma_zeros_value((n - 1) as nat);
        assert(zeros(n).drop_last() =~= zeros((n - 1) as nat));
    }
}

/// A K-Sortable Unique Identifier.
///
/// KSUIDs are 20-byte identifiers that are time-sortable. The first 4 bytes
/// are a timestamp (seconds since the KSUID epoch), and the remaining 16 bytes
/// are cryptographically random.
///
/// `Debug` prints the 20 bytes; `to_string()` gives the 27-character base62
/// text form.
#[derive(Copy, Clone, PartialEq, Eq, Hash, Debug, PartialOrd, Ord)]
pub struct Ksuid([u8; 20]);

impl View for Ksuid {
    type V = Seq<u8>;

    closed spec fn view(&self) -> Seq<u8> {
        self.0@
    }
}

impl Ksuid {
    /// The 160-bit number that the 20 bytes spell, most significant first.
    pub open spec fn value(self) -> nat {
        be_value(self@, 256)
    }

    /// The raw timestamp that the first 4 bytes spell.
    pub open spec fn spec_timestamp(self) -> nat {
        be_value(self@.take(4), 256)
    }

    /// The 16 payload bytes.
    pub open spec fn spec_payload(self) -> Seq<u8> {
        self@.skip(4)
    }

    /// A KSUID has 20 bytes, and two KSUIDs with the same bytes are equal.
    pub proof fn lemma_view(self, other: Ksuid)
        ensures
            self@.len() == 20,
            self@ == other@ ==> self == other,
    {
        if self@ == other@ {
            assert(self.0 == other.0);
        }
    }

    /// The value of a KSUID is below 2^160.
    pub proof fn lemma_value_bound(self)
        ensures
            self.value() < power(256, 20),
    {
        lemma_bytes_below(self@);
        lemma_be_bound(self@, 256);
    }

    /// The nil KSUID (all zeros).
    pub fn nil() -> (k: Ksuid)
        ensures
            k@ == zeros(20),
    {
        let k = Ksuid([0u8; 20]);
        assert(k@ =~= zeros(20));
        k
    }

    /// The maximum KSUID (all 0xFF).
    pub fn max() -> (k: Ksuid)
        ensures
            k@ == ones(20),
    {
        let k = Ksuid([0xFFu8; 20]);
        assert(k@ =~= ones(20));
        k
    }

    /// Construct a KSUID from a timestamp and payload.
    pub fn from_parts(timestamp: u32, payload: &[u8; 16]) -> (k: Ksuid)
        ensures
            k@ == timestamp_bytes(timestamp as nat) + payload@,
    {
        let mut bytes = [0u8; 20];
        bytes[0] = ((timestamp / 16777216) % 256) as u8;
        bytes[1] = ((timestamp / 65536) % 256) as u8;
        bytes[2] = ((timestamp / 256) % 256) as u8;
        bytes[3] = (timestamp % 256) as u8;
        proof {
            lemma_power_values();
            assert(power(256, 0) == 1);
            assert(timestamp as nat / 1 == timestamp as nat);
            assert(timestamp_bytes(timestamp as nat)[0] == bytes[0]);
            assert(timestamp_bytes(timestamp as nat)[1] == bytes[1]);
            assert(timestamp_bytes(timestamp as nat)[2] == bytes[2]);
            assert(timestamp_bytes(timestamp as nat)[3] == bytes[3]);
        }
        let mut i: usize = 0;
        while i < 16
            invariant
                i <= 16,
                forall|j: int| 0 <= j < 4 ==> bytes[j] == timestamp_bytes(timestamp as nat)[j],
                forall|j: int| 0 <= j < i ==> bytes[4 + j] == payload@[j],
            decreases 16 - i,
        {
            proof {
                lemma_power_values();
                assert(power(256, 0) == 1);
                assert(timestamp as nat / 1 == timestamp as nat);
            }
            bytes[4 + i] = payload[i];
            i += 1;
        }
        proof {
            lemma_power_values();
            assert(power(256, 0) == 1);
        }
        let k = Ksuid(bytes);
        assert(k@ =~= timestamp_bytes(timestamp as nat) + payload@);
        k
    }

    /// Construct a KSUID from raw bytes.
    pub fn from_bytes(bytes: &[u8; 20]) -> (k: Ksuid)
        ensures
            k@ == bytes@,
    {
        Ksuid(*bytes)
    }

    /// Construct a KSUID from a byte slice.
    /// Returns an error if the slice is not exactly 20 bytes.
    pub fn try_from_bytes(bytes: &[u8]) -> (r: Result<Ksuid, Error>)
        ensures
            bytes@.len() == 20 ==> (r matches Ok(k) && k@ == bytes@),
            bytes@.len() != 20 ==> r == Err::<Ksuid, Error>(Error::InvalidBufferSize),
    {
        if bytes.len() != 20 {
            return Err(Error::InvalidBufferSize);
        }
        let mut arr = [0u8; 20];
        let mut i: usize = 0;
        while i < 20
            invariant
                i <= 20,
                bytes@.len() == 20,
                forall|j: int| 0 <= j < i ==> arr[j] == bytes@[j],
            decreases 20 - i,
        {
            arr[i] = bytes[i];
            i += 1;
        }
        assert(arr@ =~= bytes@);
        Ok(Ksuid(arr))
    }

    /// Construct a KSUID from a byte slice, returning NIL if invalid.
    pub fn from_bytes_or_nil(bytes: &[u8]) -> (k: Ksuid)
        ensures
            bytes@.len() == 20 ==> k@ == bytes@,
            bytes@.len() != 20 ==> k@ == zeros(20),
    {
        match Self::try_from_bytes(bytes) {
            Ok(k) => k,
            Err(_) => Self::nil(),
        }
    }

    /// Construct a KSUID from parts, returning NIL if payload length is wrong.
    pub fn from_parts_or_nil(timestamp: u32, payload: &[u8]) -> (k: Ksuid)
        ensures
            payload@.len() == 16 ==> k@ == timestamp_bytes(timestamp as nat) + payload@,
            payload@.len() != 16 ==> k@ == zeros(20),
    {
        if payload.len() != 16 {
            return Self::nil();
        }
        let mut p = [0u8; 16];
        let mut i: usize = 0;
        while i < 16
            invariant
                i <= 16,
                payload@.len() == 16,
                forall|j: int| 0 <= j < i ==> p[j] == payload@[j],
            decreases 16 - i,
        {
            p[i] = payload[i];
            i += 1;
        }
        assert(p@ =~= payload@);
        Self::from_parts(timestamp, &p)
    }

    /// The raw timestamp (seconds since KSUID epoch).
    pub fn timestamp(&self) -> (t: u32)
        ensures
            t == self.spec_timestamp(),
    {
        proof {
            lemma_be4(self@.take(4));
        }
        (self.0[0] as u32) * 16777216 + (self.0[1] as u32) * 65536 + (self.0[2] as u32) * 256
            + (self.0[3] as u32)
    }

    /// The Unix timestamp.
    pub fn time(&self) -> (t: u64)
        ensures
            t == self.spec_timestamp() + EPOCH,
    {
        self.timestamp() as u64 + EPOCH
    }

    /// The 16-byte payload.
    pub fn payload(&self) -> (p: &[u8; 16])
        ensures
            p@ == self.spec_payload(),
    {
        let s = slice_subrange(self.0.as_slice(), 4, 20);
        assert(s@ =~= self@.skip(4));
        platform::as_array16(s)
    }

    /// The full 20-byte value.
    pub fn bytes(&self) -> (b: &[u8; 20])
        ensures
            b@ == self@,
    {
        &self.0
    }

    /// Returns true if this is the nil KSUID (all zeros).
    pub fn is_nil(&self) -> (r: bool)
        ensures
            r == (self@ == zeros(20)),
    {
        let mut i: usize = 0;
        while i < 20
            invariant
                i <= 20,
                forall|j: int| 0 <= j < i ==> self@[j] == 0,
            decreases 20 - i,
        {
            if self.0[i] != 0 {
                assert(self@[i as int] != zeros(20)[i as int]);
                return false;
            }
            i += 1;
        }
        assert(self@ =~= zeros(20));
        true
    }

    /// Compare this KSUID with another, returning an i32.
    ///
    /// Returns -1 if self < other, 0 if equal, 1 if self > other.
    /// The same three-way comparison as KSUID libraries in other languages offer.
    pub fn compare(&self, other: &Self) -> (r: i32)
        ensures
            r == lex_order(self@, other@),
            r == value_order(*self, *other),
    {
        order_bytes(&self.0, &other.0)
    }

    /// Whether this KSUID's value is below the other's.
    pub fn less_than(&self, other: &Self) -> (r: bool)
        ensures
            r == (self.value() < other.value()),
    {
        order_bytes(&self.0, &other.0) < 0
    }

    /// Returns the next KSUID by incrementing the entire 20-byte value by 1.
    /// Wraps from MAX to NIL.
    pub fn next(&self) -> (k: Ksuid)
        ensures
            k.value() == (self.value() + 1) % power(256, 20),
    {
        let mut bytes = self.0;
        let mut i: usize = 20;
        let mut carry = true;
        while carry && i > 0
            invariant
                i <= 20,
                bytes@.len() == 20,
                self@.len() == 20,
                carry ==> bytes@.take(i as int) == self@.take(i as int),
                carry ==> be_value(bytes@.skip(i as int), 256) == 0,
                carry ==> be_value(self@.skip(i as int), 256) + 1 == power(256, (20 - i) as nat),
                !carry ==> be_value(bytes@, 256) == be_value(self@, 256) + 1,
            decreases i,
        {
            i -= 1;
            let ghost old_bytes = bytes@;
            let x = bytes[i];
            proof {
                assert(old_bytes[i as int] == old_bytes.take(i + 1)[i as int]);
                assert(self@[i as int] == self@.take(i + 1)[i as int]);
            }
            if x == 255 {
                bytes[i] = 0;
            } else {
                bytes[i] = x + 1;
                carry = false;
            }
            proof {
                let j = i as int;
                let pj = power(256, (20 - j - 1) as nat);
                assert(self@.take(j) + self@.skip(j) =~= self@);
                lemma_be_append(self@.take(j), self@.skip(j), 256);
                lemma_be_front(self@.skip(j), 256);
                assert(self@.skip(j).drop_first() =~= self@.skip(j + 1));
                assert(bytes@.take(j) + bytes@.skip(j) =~= bytes@);
                lemma_be_append(bytes@.take(j), bytes@.skip(j), 256);
                lemma_be_front(bytes@.skip(j), 256);
                assert(bytes@.skip(j).drop_first() =~= bytes@.skip(j + 1));
                assert(bytes@.skip(j + 1) =~= old_bytes.skip(j + 1));
                assert(bytes@.take(j) =~= old_bytes.take(j));
                assert(old_bytes.take(j) =~= old_bytes.take(j + 1).take(j));
                assert(self@.take(j) =~= self@.take(j + 1).take(j));
                assert(bytes@.take(j) == self@.take(j));
                assert(self@.skip(j).len() == (20 - j) as nat);
                assert(bytes@.skip(j)[0] == bytes@[j]);
                assert(self@.skip(j)[0] == self@[j]);
                assert(self@[j] == x);
                assert(self@.skip(j + 1).len() == (20 - j - 1) as nat);
                assert(power(256, (20 - j) as nat) == 256 * pj);
                let t = be_value(self@.take(j), 256);
                let pp = power(256, (20 - j) as nat);
                assert(be_value(old_bytes.skip(j + 1), 256) == 0);
                assert(be_value(self@.skip(j + 1), 256) + 1 == pj);
                assert(be_value(self@, 256) == t * pp + be_value(self@.skip(j), 256));
                assert(be_value(self@.skip(j), 256) == x as nat * pj + be_value(self@.skip(j + 1), 256));
                assert(be_value(bytes@, 256) == t * pp + be_value(bytes@.skip(j), 256));
                assert(be_value(bytes@.skip(j), 256) == bytes@[j] as nat * pj + 0);
                if x == 255 {
                    assert(bytes@[j] == 0);
                    vstd::arithmetic::mul::lemma_mul_basics(pj as int);
                    assert(255 * pj + pj == 256 * pj) by (nonlinear_arith);
                } else {
                    assert(bytes@[j] as nat == x as nat + 1);
                    assert(t * pp + (x as nat + 1) * pj + 0 == t * pp + x as nat * pj + pj)
                        by (nonlinear_arith);
                }
            }
        }
        proof {
            if carry {
                assert(bytes@.skip(0) =~= bytes@);
                assert(self@.skip(0) =~= self@);
                lemma_power_positive(256, 20);
                assert((self.value() + 1) % power(256, 20) == 0) by (nonlinear_arith)
                    requires
                        self.value() + 1 == power(256, 20),
                        power(256, 20) > 0,
                ;
            } else {
                lemma_bytes_below(bytes@);
                lemma_be_bound(bytes@, 256);
                vstd::arithmetic::div_mod::lemma_small_mod(
                    be_value(bytes@, 256),
                    power(256, 20),
                );
            }
        }
        Ksuid(bytes)
    }

    /// Returns the previous KSUID by decrementing the entire 20-byte value by 1.
    /// Wraps from NIL to MAX.
    pub fn prev(&self) -> (k: Ksuid)
        ensures
            k.value() == (self.value() + power(256, 20) - 1) % (power(256, 20) as int),
    {
        let mut bytes = self.0;
        let mut i: usize = 20;
        let mut borrow = true;
        while borrow && i > 0
            invariant
                i <= 20,
                bytes@.len() == 20,
                self@.len() == 20,
                borrow ==> bytes@.take(i as int) == self@.take(i as int),
                borrow ==> be_value(bytes@.skip(i as int), 256) + 1 == power(256, (20 - i) as nat),
                borrow ==> be_value(self@.skip(i as int), 256) == 0,
                !borrow ==> be_value(bytes@, 256) + 1 == be_value(self@, 256),
            decreases i,
        {
            i -= 1;
            let ghost old_bytes = bytes@;
            let x = bytes[i];
            proof {
                assert(old_bytes[i as int] == old_bytes.take(i + 1)[i as int]);
                assert(self@[i as int] == self@.take(i + 1)[i as int]);
            }
            if x == 0 {
                bytes[i] = 255;
            } else {
                bytes[i] = x - 1;
                borrow = false;
            }
            proof {
                let j = i as int;
                let pj = power(256, (20 - j - 1) as nat);
                assert(self@.take(j) + self@.skip(j) =~= self@);
                lemma_be_append(self@.take(j), self@.skip(j), 256);
                lemma_be_front(self@.skip(j), 256);
                assert(self@.skip(j).drop_first() =~= self@.skip(j + 1));
                assert(bytes@.take(j) + bytes@.skip(j) =~= bytes@);
                lemma_be_append(bytes@.take(j), bytes@.skip(j), 256);
                lemma_be_front(bytes@.skip(j), 256);
                assert(bytes@.skip(j).drop_first() =~= bytes@.skip(j + 1));
                assert(bytes@.skip(j + 1) =~= old_bytes.skip(j + 1));
                assert(bytes@.take(j) =~= old_bytes.take(j));
                assert(old_bytes.take(j) =~= old_bytes.take(j + 1).take(j));
                assert(self@.take(j) =~= self@.take(j + 1).take(j));
                assert(bytes@.take(j) == self@.take(j));
                assert(self@.skip(j).len() == (20 - j) as nat);
                assert(bytes@.skip(j)[0] == bytes@[j]);
                assert(self@.skip(j)[0] == self@[j]);
                assert(self@[j] == x);
                assert(self@.skip(j + 1).len() == (20 - j - 1) as nat);
                assert(power(256, (20 - j) as nat) == 256 * pj);
                let t = be_value(self@.take(j), 256);
                let pp = power(256, (20 - j) as nat);
                assert(be_value(self@.skip(j + 1), 256) == 0);
                assert(be_value(old_bytes.skip(j + 1), 256) + 1 == pj);
                assert(be_value(self@, 256) == t * pp + be_value(self@.skip(j), 256));
                assert(be_value(self@.skip(j), 256) == x as nat * pj + 0);
                assert(be_value(bytes@, 256) == t * pp + be_value(bytes@.skip(j), 256));
                assert(be_value(bytes@.skip(j), 256) == bytes@[j] as nat * pj + be_value(old_bytes.skip(j + 1), 256));
                if x == 0 {
                    assert(bytes@[j] == 255);
                    vstd::arithmetic::mul::lemma_mul_basics(pj as int);
                    assert(255 * pj + pj == 256 * pj) by (nonlinear_arith);
                } else {
                    assert(bytes@[j] as nat == x as nat - 1);
                    assert(t * pp + (x as nat - 1) * pj + (pj - 1) + 1 == t * pp + x as nat * pj)
                        by (nonlinear_arith);
                }
            }
        }
        proof {
            lemma_power_positive(256, 20);
            if borrow {
                assert(bytes@.skip(0) =~= bytes@);
                assert(self@.skip(0) =~= self@);
                vstd::arithmetic::div_mod::lemma_small_mod(
                    be_value(bytes@, 256),
                    power(256, 20),
                );
            } else {
                let v = self.value();
                let p = power(256, 20);
                lemma_bytes_below(self@);
                lemma_be_bound(self@, 256);
                assert((v + p - 1) % (p as int) == v - 1) by (nonlinear_arith)
                    requires
                        1 <= v < p,
                ;
            }
        }
        Ksuid(bytes)
    }

    /// Generate a new KSUID with the current time and a random payload.
    ///
    /// Fails with `ClockBeforeEpoch` when the system clock reads before 1970,
    /// and with `RandomUnavailable` when the operating system supplies no
    /// random bytes.
    pub fn new() -> (r: Result<Ksuid, Error>)
        ensures
            r matches Err(e) ==> e == Error::ClockBeforeEpoch || e == Error::RandomUnavailable,
    {
        Self::from_clock_reading(platform::unix_now())
    }

    /// Generate a new KSUID from a reading of the system clock (`None` for a
    /// clock before 1970) and a random payload: the timestamp is the reading
    /// less the KSUID epoch, as `new_with_time` takes it.
    pub fn from_clock_reading(reading: Option<u64>) -> (r: Result<Ksuid, Error>)
        ensures
            reading is None ==> r == Err::<Ksuid, Error>(Error::ClockBeforeEpoch),
            reading matches Some(t) ==> (r matches Ok(k) ==> k.spec_timestamp()
                == timestamp_of_unix(t)),
            reading is Some ==> (r matches Err(e) ==> e == Error::RandomUnavailable),
    {
        match reading {
            Some(timestamp) => Self::new_with_time(timestamp),
            None => Err(Error::ClockBeforeEpoch),
        }
    }

    /// Generate a new KSUID with the given Unix timestamp and a random payload.
    ///
    /// The timestamp is the seconds since the KSUID epoch (zero before it),
    /// truncated to 32 bits. Fails with `RandomUnavailable` when the
    /// operating system supplies no random bytes.
    pub fn new_with_time(unix_seconds: u64) -> (r: Result<Ksuid, Error>)
        ensures
            r matches Ok(k) ==> k.spec_timestamp() == (if unix_seconds >= EPOCH {
                unix_seconds - EPOCH
            } else {
                0
            }) % 4294967296,
            r matches Ok(k) ==> k.spec_timestamp() == timestamp_of_unix(unix_seconds),
            r matches Err(e) ==> e == Error::RandomUnavailable,
    {
        let ts = (unix_seconds.saturating_sub(EPOCH) % 4294967296) as u32;
        let mut payload = [0u8; 16];
        if !platform::fill_random(&mut payload) {
            return Err(Error::RandomUnavailable);
        }
        let k = Self::from_parts(ts, &payload);
        proof {
            lemma_from_parts(k, ts, payload@);
        }
        Ok(k)
    }

    /// Parse a KSUID from a 27-character base62 string.
    pub fn parse(s: &str) -> (r: Result<Ksuid, Error>)
        ensures
            r matches Ok(k) ==> spec_parse(s.spec_bytes()) == Ok::<Seq<u8>, Error>(k@),
            r matches Err(e) ==> spec_parse(s.spec_bytes()) == Err::<Seq<u8>, Error>(e),
    {
        let bytes = s.as_bytes();
        if bytes.len() != ENCODED_SIZE {
            return Err(Error::InvalidLength);
        }
        let mut src = [0u8; 27];
        let mut i: usize = 0;
        while i < 27
            invariant
                i <= 27,
                bytes@.len() == 27,
                forall|j: int| 0 <= j < i ==> src[j] == bytes@[j],
            decreases 27 - i,
        {
            src[i] = bytes[i];
            i += 1;
        }
        assert(src@ =~= bytes@);
        match base62::decode(&src) {
            Ok(decoded) => Ok(Ksuid(decoded)),
            Err(e) => Err(e),
        }
    }

    /// Parse a KSUID from a string, returning NIL on error.
    pub fn parse_or_nil(s: &str) -> (k: Ksuid)
        ensures
            spec_parse(s.spec_bytes()) matches Ok(b) ==> k@ == b,
            spec_parse(s.spec_bytes()) is Err ==> k@ == zeros(20),
    {
        match Self::parse(s) {
            Ok(k) => k,
            Err(_) => Self::nil(),
        }
    }

    /// The 27-character base62 string form.
    pub fn to_string(&self) -> (s: String)
        ensures
            s@ == ascii_chars(spec_encode(self@)),
    {
        let encoded = base62::encode(&self.0);
        let mut v: Vec<u8> = Vec::with_capacity(27);
        let mut i: usize = 0;
        while i < 27
            invariant
                i <= 27,
                v@ == encoded@.take(i as int),
            decreases 27 - i,
        {
            v.push(encoded[i]);
            proof {
                assert(encoded@.take(i + 1) =~= encoded@.take(i as int).push(encoded@[i as int]));
            }
            i += 1;
        }
        proof {
            assert(encoded@.take(27) =~= encoded@);
            lemma_encoded_ascii(self@);
        }
        ascii_string(v)
    }

    /// Encode the KSUID as a 40-character uppercase hex string.
    pub fn to_hex(&self) -> (s: String)
        ensures
            s@ == ascii_chars(spec_hex(self@)),
    {
        let mut v: Vec<u8> = Vec::with_capacity(40);
        let mut i: usize = 0;
        while i < 20
            invariant
                i <= 20,
                self@.len() == 20,
                v@ == spec_hex(self@.take(i as int)),
            decreases 20 - i,
        {
            let b = self.0[i];
            v.push(hex_upper_byte(b / 16));
            v.push(hex_upper_byte(b % 16));
            proof {
                assert(spec_hex(self@.take(i + 1)) =~= spec_hex(self@.take(i as int)).push(
                    hex_char(b as nat / 16),
                ).push(hex_char(b as nat % 16))) by {
                    let t = self@.take(i as int);
                    let t1 = self@.take(i + 1);
                    assert forall|k: int| 0 <= k < 2 * i implies #[trigger] spec_hex(t1)[k]
                        == spec_hex(t)[k] by {
                        assert(t1[k / 2] == t[k / 2]);
                    }
                }
            }
            i += 1;
        }
        proof {
            assert(self@.take(20) =~= self@);
            assert(all_ascii(v@));
        }
        ascii_string(v)
    }

    /// Parse a KSUID from a 40-character hex string.
    pub fn from_hex(hex: &str) -> (r: Result<Ksuid, Error>)
        ensures
            r matches Ok(k) ==> spec_from_hex(hex.spec_bytes()) == Ok::<Seq<u8>, Error>(k@),
            r matches Err(e) ==> spec_from_hex(hex.spec_bytes()) == Err::<Seq<u8>, Error>(e),
    {
        let chars = hex.as_bytes();
        if chars.len() != 40 {
            return Err(Error::InvalidLength);
        }
        let mut bytes = [0u8; 20];
        let mut i: usize = 0;
        while i < 20
            invariant
                i <= 20,
                chars@.len() == 40,
                chars@ == hex.spec_bytes(),
                all_hex(chars@.take(2 * i)),
                forall|j: int|
                    0 <= j < i ==> bytes[j] == hex_value(chars@[2 * j]) * 16 + hex_value(
                        chars@[2 * j + 1],
                    ),
            decreases 20 - i,
        {
            let hi = match hex_digit(chars[i * 2]) {
                Ok(d) => d,
                Err(e) => {
                    proof {
                        lemma_first_non_hex(chars@, 2 * i);
                    }
                    return Err(e);
                },
            };
            proof {
                assert(all_hex(chars@.take(2 * i + 1))) by {
                    assert forall|j: int| 0 <= j < 2 * i + 1 implies is_hex_char(
                        #[trigger] chars@.take(2 * i + 1)[j],
                    ) by {
                        if j < 2 * i {
                            assert(chars@.take(2 * i + 1)[j] == chars@.take(2 * i)[j]);
                        }
                    }
                }
            }
            let lo = match hex_digit(chars[i * 2 + 1]) {
                Ok(d) => d,
                Err(e) => {
                    proof {
                        lemma_first_non_hex(chars@, 2 * i + 1);
                    }
                    return Err(e);
                },
            };
            bytes[i] = hi * 16 + lo;
            proof {
                assert(all_hex(chars@.take(2 * (i + 1)))) by {
                    assert forall|j: int| 0 <= j < 2 * (i + 1) implies is_hex_char(
                        #[trigger] chars@.take(2 * (i + 1))[j],
                    ) by {
                        if j < 2 * i + 1 {
                            assert(chars@.take(2 * (i + 1))[j] == chars@.take(2 * i + 1)[j]);
                        }
                    }
                }
            }
            i += 1;
        }
        proof {
            assert(chars@.take(40) =~= chars@);
            let expect = Seq::new(
                20,
                |j: int| (hex_value(chars@[2 * j]) * 16 + hex_value(chars@[2 * j + 1])) as u8,
            );
            assert(bytes@ =~= expect);
        }
        Ok(Ksuid(bytes))
    }
}

/// -1, 0 or 1 as the value of `a` is below, equal to or above that of `b`.
pub open spec fn value_order(a: Ksuid, b: Ksuid) -> int {
    num_order(a.value() as int, b.value() as int)
}

/// Three-way comparison of two 20-byte strings, first differing byte first.
fn order_bytes(x: &[u8; 20], y: &[u8; 20]) -> (r: i32)
    ensures
        r == lex_order(x@, y@),
        r == num_order(be_value(x@, 256) as int, be_value(y@, 256) as int),
{
    proof {
        lemma_bytes_below(x@);
        lemma_bytes_below(y@);
        lemma_lex_order_value(x@, y@, 256);
        assert(x@.skip(0) =~= x@);
        assert(y@.skip(0) =~= y@);
    }
    let mut i: usize = 0;
    while i < 20
        invariant
            i <= 20,
            lex_order(x@.skip(i as int), y@.skip(i as int)) == lex_order(x@, y@),
            lex_order(x@, y@) == num_order(be_value(x@, 256) as int, be_value(y@, 256) as int),
        decreases 20 - i,
    {
        let a = x[i];
        let b = y[i];
        proof {
            assert(x@.skip(i as int)[0] == a);
            assert(y@.skip(i as int)[0] == b);
        }
        if a < b {
            return -1;
        }
        if a > b {
            return 1;
        }
        proof {
            assert(x@.skip(i as int).drop_first() =~= x@.skip(i + 1));
            assert(y@.skip(i as int).drop_first() =~= y@.skip(i + 1));
        }
        i += 1;
    }
    assert(x@.skip(20) =~= Seq::<u8>::empty());
    assert(y@.skip(20) =~= Seq::<u8>::empty());
    0
}

/// What parsing a string with the UTF-8 bytes `b` gives: the bytes of the
/// KSUID, or the error.
pub open spec fn spec_parse(b: Seq<u8>) -> Result<Seq<u8>, Error> {
    if b.len() != 27 {
        Err(Error::InvalidLength)
    } else {
        spec_decode(b)
    }
}

/// The uppercase hex character of a nibble.
pub open spec fn hex_char(n: nat) -> u8 {
    if n < 10 {
        (n + 48) as u8
    } else {
        (n + 55) as u8
    }
}

/// The uppercase hex spelling of `b`, two characters per byte, high nibble first.
pub open spec fn spec_hex(b: Seq<u8>) -> Seq<u8> {
    Seq::new(
        2 * b.len(),
        |i: int|
            if i % 2 == 0 {
                hex_char(b[i / 2] as nat / 16)
            } else {
                hex_char(b[i / 2] as nat % 16)
            },
    )
}

/// `c` is a hex digit, upper or lower case.
pub open spec fn is_hex_char(c: u8) -> bool {
    (48 <= c && c <= 57) || (65 <= c && c <= 70) || (97 <= c && c <= 102)
}

/// The value of a hex digit.
pub open spec fn hex_value(c: u8) -> nat {
    if c <= 57 {
        (c - 48) as nat
    } else if c <= 70 {
        (c - 55) as nat
    } else {
        (c - 87) as nat
    }
}

/// Every character of `s` is a hex digit.
pub open spec fn all_hex(s: Seq<u8>) -> bool {
    forall|i: int| 0 <= i < s.len() ==> is_hex_char(#[trigger] s[i])
}

/// Index of the first character of `s` that is not a hex digit (`s.len()` if none).
pub open spec fn first_non_hex(s: Seq<u8>) -> nat
    decreases s.len(),
{
    if s.len() == 0 {
        0
    } else if !is_hex_char(s[0]) {
        0
    } else {
        1 + first_non_hex(s.drop_first())
    }
}

/// What parsing a hex string with the bytes `s` gives.
pub open spec fn spec_from_hex(s: Seq<u8>) -> Result<Seq<u8>, Error> {
    if s.len() != 40 {
        Err(Error::InvalidLength)
    } else if !all_hex(s) {
        Err(Error::InvalidCharacter(s[first_non_hex(s) as int] as char))
    } else {
        Ok(Seq::new(20, |j: int| (hex_value(s[2 * j]) * 16 + hex_value(s[2 * j + 1])) as u8))
    }
}

pub proof fn lemma_first_non_hex(s: Seq<u8>, i: int)
    requires
        0 <= i < s.len(),
        all_hex(s.take(i)),
        !is_hex_char(s[i]),
    ensures
        first_non_hex(s) == i,
    decreases i,
{
    if i > 0 {
        assert(is_hex_char(s.take(i)[0]));
        let t = s.drop_first();
        assert(all_hex(t.take(i - 1))) by {
            assert forall|j: int| 0 <= j < i - 1 implies is_hex_char(#[trigger] t.take(i - 1)[j]) by {
                assert(t.take(i - 1)[j] == s.take(i)[j + 1]);
            }
        }
        lemma_first_non_hex(t, i - 1);
    }
}

pub(crate) fn hex_upper_byte(n: u8) -> (c: u8)
    requires
        n < 16,
    ensures
        c == hex_char(n as nat),
        c < 128,
{
    if n < 10 {
        n + 48
    } else {
        n + 55
    }
}

fn hex_digit(c: u8) -> (r: Result<u8, Error>)
    ensures
        is_hex_char(c) ==> r == Ok::<u8, Error>(hex_value(c) as u8),
        !is_hex_char(c) ==> r == Err::<u8, Error>(Error::InvalidCharacter(c as char)),
{
    if c >= 48 && c <= 57 {
        Ok(c - 48)
    } else if c >= 65 && c <= 70 {
        Ok(c - 55)
    } else if c >= 97 && c <= 102 {
        Ok(c - 87)
    } else {
        Err(Error::InvalidCharacter(c as char))
    }
}

/// The base62 spelling of a KSUID is ASCII.
pub proof fn lemma_encoded_ascii(b: Seq<u8>)
    ensures
        all_ascii(spec_encode(b)),
        spec_encode(b).len() == 27,
{
    lemma_to_digits_below(be_value(b, 256), 62, 27);
    let d = to_digits(be_value(b, 256), 62, 27);
    assert forall|i: int| 0 <= i < 27 implies (#[trigger] spec_encode(b)[i]) < 128 by {
        assert(d[i] < 62);
    }
}

/// A KSUID built from parts has that timestamp and that payload.
pub proof fn lemma_from_parts(k: Ksuid, ts: u32, payload: Seq<u8>)
    requires
        payload.len() == 16,
        k@ == timestamp_bytes(ts as nat) + payload,
    ensures
        k.spec_timestamp() == ts,
        k.spec_payload() == payload,
{
    assert(k@.take(4) =~= timestamp_bytes(ts as nat));
    assert(k@.skip(4) =~= payload);
    lemma_to_digits_value(ts as nat, 256, 4);
    lemma_power_values();
    vstd::arithmetic::div_mod::lemma_small_mod(ts as nat, 4294967296);
}

impl Default for Ksuid {
    fn default() -> (k: Ksuid)
        ensures
            k@ == zeros(20),
    {
        Ksuid::nil()
    }
}

impl From<[u8; 20]> for Ksuid {
    fn from(bytes: [u8; 20]) -> (k: Ksuid)
        ensures
            k@ == bytes@,
    {
        Ksuid(bytes)
    }
}

impl vstd::std_specs::convert::FromSpecImpl<[u8; 20]> for Ksuid {
    open spec fn obeys_from_spec() -> bool {
        true
    }

    closed spec fn from_spec(v: [u8; 20]) -> Ksuid {
        Ksuid(v)
    }
}

impl From<Ksuid> for [u8; 20] {
    fn from(k: Ksuid) -> (bytes: [u8; 20])
        ensures
            bytes@ == k@,
    {
        k.0
    }
}

impl vstd::std_specs::convert::FromSpecImpl<Ksuid> for [u8; 20] {
    open spec fn obeys_from_spec() -> bool {
        true
    }

    closed spec fn from_spec(v: Ksuid) -> [u8; 20] {
        v.0
    }
}

impl AsRef<[u8]> for Ksuid {
    fn as_ref(&self) -> (b: &[u8])
        ensures
            b@ == self@,
    {
        self.0.as_slice()
    }
}

impl core::str::FromStr for Ksuid {
    type Err = Error;

    fn from_str(s: &str) -> (r: Result<Self, Self::Err>)
        ensures
            r matches Ok(k) ==> spec_parse(s.spec_bytes()) == Ok::<Seq<u8>, Error>(k@),
            r matches Err(e) ==> spec_parse(s.spec_bytes()) == Err::<Seq<u8>, Error>(e),
    {
        Self::parse(s)
    }
}

/// Two KSUIDs with the same value are the same KSUID.
pub proof fn lemma_same_value(a: Ksuid, b: Ksuid)
    requires
        a.value() == b.value(),
    ensures
        a == b,
{
    a.lemma_view(b);
    b.lemma_view(a);
    lemma_bytes_below(a@);
    lemma_bytes_below(b@);
    lemma_be_injective(a@, b@, 256);
}

/// Law: `next` undoes `prev`: the KSUID after the one before `k` is `k`.
pub proof fn lemma_next_of_prev(k: Ksuid, p: Ksuid, n: Ksuid)
    requires
        p.value() == (k.value() + power(256, 20) - 1) % (power(256, 20) as int),
        n.value() == (p.value() + 1) % power(256, 20),
    ensures
        n == k,
{
    k.lemma_value_bound();
    let v = k.value() as int;
    let m = power(256, 20) as int;
    assert(((v + m - 1) % m + 1) % m == v) by (nonlinear_arith)
        requires
            0 <= v < m,
    ;
    lemma_same_value(n, k);
}

/// Law: `prev` undoes `next`: the KSUID before the one after `k` is `k`.
pub proof fn lemma_prev_of_next(k: Ksuid, n: Ksuid, p: Ksuid)
    requires
        n.value() == (k.value() + 1) % power(256, 20),
        p.value() == (n.value() + power(256, 20) - 1) % (power(256, 20) as int),
    ensures
        p == k,
{
    k.lemma_value_bound();
    let v = k.value() as int;
    let m = power(256, 20) as int;
    assert(((v + 1) % m + m - 1) % m == v) by (nonlinear_arith)
        requires
            0 <= v < m,
    ;
    lemma_same_value(p, k);
}

/// Law: `next` of any KSUID but the maximum is greater, and `next` of the
/// maximum is the nil KSUID.
pub proof fn lemma_next_order(k: Ksuid, n: Ksuid)
    requires
        n.value() == (k.value() + 1) % power(256, 20),
    ensures
        k@ != ones(20) ==> n.value() == k.value() + 1,
        k@ == ones(20) ==> n@ == zeros(20),
{
    k.lemma_value_bound();
    n.lemma_view(n);
    k.lemma_view(k);
    lemma_ones_value(20);
    lemma_zeros_value(20);
    if k@ != ones(20) {
        lemma_bytes_below(k@);
        if k.value() + 1 == power(256, 20) {
            lemma_be_injective(k@, ones(20), 256);
        }
        vstd::arithmetic::div_mod::lemma_small_mod(k.value() + 1, power(256, 20));
    } else {
        lemma_power_positive(256, 20);
        vstd::arithmetic::div_mod::lemma_mod_self_0(power(256, 20) as int);
        lemma_bytes_below(n@);
        lemma_be_injective(n@, zeros(20), 256);
    }
}

/// Law: `prev` of any KSUID but the nil one is smaller, and `prev` of the
/// nil KSUID is the maximum.
pub proof fn lemma_prev_order(k: Ksuid, p: Ksuid)
    requires
        p.value() == (k.value() + power(256, 20) - 1) % (power(256, 20) as int),
    ensures
        k@ != zeros(20) ==> p.value() + 1 == k.value(),
        k@ == zeros(20) ==> p@ == ones(20),
{
    k.lemma_value_bound();
    p.lemma_view(p);
    k.lemma_view(k);
    lemma_ones_value(20);
    lemma_zeros_value(20);
    let v = k.value() as int;
    let m = power(256, 20) as int;
    if k@ != zeros(20) {
        lemma_bytes_below(k@);
        if v == 0 {
            lemma_be_injective(k@, zeros(20), 256);
        }
        assert((v + m - 1) % m == v - 1) by (nonlinear_arith)
            requires
                1 <= v < m,
        ;
    } else {
        assert((0 + m - 1) % m == m - 1) by (nonlinear_arith)
            requires
                m > 0,
        ;
        lemma_power_positive(256, 20);
        lemma_bytes_below(p@);
        lemma_be_injective(p@, ones(20), 256);
    }
}

/// Law: a KSUID's string form parses back to it.
pub proof fn lemma_string_roundtrip(k: Ksuid, text: Seq<char>)
    requires
        text == ascii_chars(spec_encode(k@)),
    ensures
        spec_parse(encode_utf8(text)) == Ok::<Seq<u8>, Error>(k@),
{
    k.lemma_view(k);
    lemma_encoded_ascii(k@);
    lemma_ascii_utf8(spec_encode(k@));
    lemma_decode_encode(k@);
}

/// Law: a string that parses is the string form of what it parses to.
pub proof fn lemma_parse_then_string(bytes: Seq<u8>)
    requires
        spec_parse(bytes) is Ok,
    ensures
        spec_parse(bytes) matches Ok(b) && b.len() == 20 && spec_encode(b) == bytes,
{
    lemma_encode_decode(bytes);
}

/// Law: KSUIDs order by their string forms exactly as by their bytes.
pub proof fn lemma_string_order(a: Ksuid, b: Ksuid)
    ensures
        lex_order(spec_encode(a@), spec_encode(b@)) == value_order(a, b),
        lex_order(spec_encode(a@), spec_encode(b@)) == lex_order(a@, b@),
{
    a.lemma_view(b);
    b.lemma_view(a);
    lemma_encode_order(a@, b@);
}

/// Law: a KSUID's hex form parses back to it.
pub proof fn lemma_hex_roundtrip(k: Ksuid)
    ensures
        all_ascii(spec_hex(k@)),
        spec_from_hex(spec_hex(k@)) == Ok::<Seq<u8>, Error>(k@),
{
    k.lemma_view(k);
    let h = spec_hex(k@);
    assert forall|i: int| 0 <= i < h.len() implies is_hex_char(#[trigger] h[i]) && h[i] < 128 by {
        let b = k@[i / 2] as nat;
        assert(b / 16 < 16 && b % 16 < 16);
    }
    assert forall|i: int| 0 <= i < h.len() implies (#[trigger] h[i]) < 128 by {
        assert(is_hex_char(h[i]));
    }
    let expect = Seq::new(20, |j: int| (hex_value(h[2 * j]) * 16 + hex_value(h[2 * j + 1])) as u8);
    assert(expect =~= k@) by {
        assert forall|j: int| 0 <= j < 20 implies expect[j] == k@[j] by {
            let b = k@[j] as nat;
            assert(h[2 * j] == hex_char(b / 16));
            assert(h[2 * j + 1] == hex_char(b % 16));
            assert((b / 16) * 16 + b % 16 == b);
        }
    }
}

/// A hex spelling is ASCII.
pub proof fn lemma_hex_ascii(b: Seq<u8>)
    ensures
        all_ascii(spec_hex(b)),
{
    let h = spec_hex(b);
    assert forall|i: int| 0 <= i < h.len() implies (#[trigger] h[i]) < 128 by {
        let x = b[i / 2] as nat;
        assert(x / 16 < 16 && x % 16 < 16);
    }
}


/// Law: KSUIDs sort by time: one with an earlier timestamp comes first,
/// whatever the payloads.
pub proof fn lemma_time_order(a: Ksuid, b: Ksuid)
    requires
        a.spec_timestamp() < b.spec_timestamp(),
    ensures
        a.value() < b.value(),
        value_order(a, b) == -1,
        lex_order(a@, b@) == -1,
{
    a.lemma_view(b);
    b.lemma_view(a);
    let p = power(256, 16);
    assert(a@.take(4) + a@.skip(4) =~= a@);
    assert(b@.take(4) + b@.skip(4) =~= b@);
    lemma_be_append(a@.take(4), a@.skip(4), 256);
    lemma_be_append(b@.take(4), b@.skip(4), 256);
    lemma_bytes_below(a@);
    assert(digits_below(a@.skip(4), 256)) by {
        assert forall|i: int| 0 <= i < a@.skip(4).len() implies (#[trigger] a@.skip(4)[i]) < 256 by {
            assert(a@.skip(4)[i] == a@[i + 4]);
        }
    }
    lemma_be_bound(a@.skip(4), 256);
    let ta = a.spec_timestamp();
    let tb = b.spec_timestamp();
    let pa = be_value(a@.skip(4), 256);
    let pb = be_value(b@.skip(4), 256);
    assert(ta * p + pa < tb * p + pb) by (nonlinear_arith)
        requires
            ta < tb,
            pa < p,
    ;
    lemma_lex_order_value(a@, b@, 256);
}

/// Law: a KSUID made at a Unix time within the 2^32 seconds after the epoch
/// tells that time back (`time()` is the timestamp plus the epoch); one made
/// before the epoch carries the epoch itself.
pub proof fn lemma_made_time(k: Ksuid, unix_seconds: u64)
    requires
        k.spec_timestamp() == timestamp_of_unix(unix_seconds),
    ensures
        EPOCH <= unix_seconds < EPOCH + 4294967296 ==> k.spec_timestamp() + EPOCH == unix_seconds,
        unix_seconds < EPOCH ==> k.spec_timestamp() + EPOCH == EPOCH,
{
}
} // verus!
