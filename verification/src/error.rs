use vstd::prelude::*;
use vstd::string::StringExecFns;

verus! {

/// What can go wrong when reading KSUIDs, compressed sets and sequences.
#[derive(Debug, Clone, PartialEq, Eq)]
pub enum Error {
    /// Input string is not exactly 27 characters (or a hex string not 40)
    InvalidLength,
    /// Input contains a character not in the expected alphabet
    InvalidCharacter(char),
    /// Decoded value exceeds the maximum KSUID value
    ValueOverflow,
    /// Input byte slice is not exactly 20 bytes
    InvalidBufferSize,
    /// Compressed set data is malformed
    MalformedData,
    /// Compressed set data corruption detected
    CorruptionDetected,
    /// Sequence has been exhausted (65,536 IDs generated)
    SequenceExhausted,
    /// The system clock reads a time before 1970
    ClockBeforeEpoch,
    /// The operating system's random source supplied no bytes
    RandomUnavailable,
}

/// The human-readable description of an error.
pub open spec fn spec_message(e: Error) -> Seq<char> {
    match e {
        Error::InvalidLength => "invalid length: KSUID string must be exactly 27 characters"@,
        Error::InvalidCharacter(c) => "invalid character: '"@ + seq![c]
            + "' is not in the base62 alphabet"@,
        Error::ValueOverflow => "value overflow: decoded value exceeds maximum KSUID"@,
        Error::InvalidBufferSize => "invalid buffer size: expected exactly 20 bytes"@,
        Error::MalformedData => "malformed data in compressed set"@,
        Error::CorruptionDetected => "corruption detected in compressed set"@,
        Error::SequenceExhausted => "sequence exhausted: maximum 65,536 IDs per seed"@,
        Error::ClockBeforeEpoch => "system time before Unix epoch"@,
        Error::RandomUnavailable => "random source unavailable: getrandom failed"@,
    }
}

impl Error {
    /// The human-readable description of this error.
    pub fn message(&self) -> (s: String)
        ensures
            s@ == spec_message(*self),
    {
        match self {
            Error::InvalidLength => String::from_str(
                "invalid length: KSUID string must be exactly 27 characters",
            ),
            Error::InvalidCharacter(c) => {
                let mut s = String::from_str("invalid character: '");
                let cs = crate::platform::char_string(*c);
                s.append(cs.as_str());
                s.append("' is not in the base62 alphabet");
                s
            },
            Error::ValueOverflow => String::from_str(
                "value overflow: decoded value exceeds maximum KSUID",
            ),
            Error::InvalidBufferSize => String::from_str(
                "invalid buffer size: expected exactly 20 bytes",
            ),
            Error::MalformedData => String::from_str("malformed data in compressed set"),
            Error::CorruptionDetected => String::from_str("corruption detected in compressed set"),
            Error::SequenceExhausted => String::from_str(
                "sequence exhausted: maximum 65,536 IDs per seed",
            ),
            Error::ClockBeforeEpoch => String::from_str("system time before Unix epoch"),
            Error::RandomUnavailable => String::from_str(
                "random source unavailable: getrandom failed",
            ),
        }
    }
}

} // verus!
