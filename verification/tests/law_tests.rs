use ksuid::base62;
use ksuid::varint::{decode_varint, encode_varint};
use ksuid::{CompressedSet, Error, Ksuid, Sequence};

#[test]
fn varint_roundtrip_values() {
    for &v in &[0u64, 1, 127, 128, 300, 16383, 16384, u32::MAX as u64, u64::MAX] {
        let mut buf = Vec::new();
        encode_varint(&mut buf, v);
        assert_eq!(decode_varint(&buf), Some((v, buf.len())));
    }
}

#[test]
fn varint_known_bytes() {
    let mut buf = Vec::new();
    encode_varint(&mut buf, 300);
    assert_eq!(buf, vec![0xAC, 0x02]);
    let mut buf = vec![9u8];
    encode_varint(&mut buf, u64::MAX);
    assert_eq!(buf.len(), 11);
    assert_eq!(buf[0], 9);
    assert_eq!(buf[10], 0x01);
}

#[test]
fn varint_decode_incomplete_or_empty() {
    assert_eq!(decode_varint(&[]), None);
    assert_eq!(decode_varint(&[0x80, 0x80]), None);
    assert_eq!(decode_varint(&[0x05, 0xFF]), Some((5, 1)));
}

#[test]
fn base62_encode_then_decode() {
    let bytes: [u8; 20] = [7; 20];
    let encoded = base62::encode(&bytes);
    assert_eq!(base62::decode(&encoded), Ok(bytes));
}

#[test]
fn base62_decode_errors() {
    let mut bad = [b'0'; 27];
    bad[3] = b'!';
    assert_eq!(base62::decode(&bad), Err(Error::InvalidCharacter('!')));
    let over = *b"aWgEPTl1tmebfsQzFP4bxwgy80W";
    assert_eq!(base62::decode(&over), Err(Error::ValueOverflow));
}

#[test]
fn next_then_prev_and_prev_then_next() {
    let k = Ksuid::parse("0ujtsYcgvSTl8PAuAdqWYSMnLOv").unwrap();
    assert_eq!(k.next().prev(), k);
    assert_eq!(k.prev().next(), k);
    assert_eq!(Ksuid::max().next().prev(), Ksuid::max());
    assert_eq!(Ksuid::nil().prev().next(), Ksuid::nil());
}

#[test]
fn string_and_hex_roundtrips() {
    let k = Ksuid::parse("0ujtsYcgvSTl8PAuAdqWYSMnLOv").unwrap();
    assert_eq!(Ksuid::parse(&k.to_string()), Ok(k));
    assert_eq!(Ksuid::from_hex(&k.to_hex()), Ok(k));
}

#[test]
fn string_order_follows_byte_order() {
    let a = Ksuid::from_parts(5, &[0xFF; 16]);
    let b = Ksuid::from_parts(6, &[0; 16]);
    assert!(a < b);
    assert!(a.to_string() < b.to_string());
}

#[test]
fn error_variants_from_inputs() {
    assert_eq!(Ksuid::parse("abc"), Err(Error::InvalidLength));
    assert_eq!(
        Ksuid::parse("0ujtsYcgvSTl8PAuAdqWYSMnLO!"),
        Err(Error::InvalidCharacter('!'))
    );
    assert_eq!(Ksuid::parse("aWgEPTl1tmebfsQzFP4bxwgy80W"), Err(Error::ValueOverflow));
    assert_eq!(Ksuid::try_from_bytes(&[0u8; 3]), Err(Error::InvalidBufferSize));
    assert_eq!(
        CompressedSet::from_bytes(&[0x00, 1, 2, 3]).err(),
        Some(Error::CorruptionDetected)
    );
    let mut seq = Sequence::from_seed(Ksuid::from_parts(1, &[0; 16]));
    for _ in 0..65536 {
        seq.next().unwrap();
    }
    assert_eq!(seq.next(), Err(Error::SequenceExhausted));
}

#[test]
fn error_messages() {
    assert_eq!(
        Error::InvalidLength.message(),
        "invalid length: KSUID string must be exactly 27 characters"
    );
    assert_eq!(
        Error::InvalidCharacter('!').message(),
        "invalid character: '!' is not in the base62 alphabet"
    );
    assert_eq!(
        Error::ValueOverflow.message(),
        "value overflow: decoded value exceeds maximum KSUID"
    );
    assert_eq!(
        Error::InvalidBufferSize.message(),
        "invalid buffer size: expected exactly 20 bytes"
    );
    assert_eq!(Error::MalformedData.message(), "malformed data in compressed set");
    assert_eq!(
        Error::CorruptionDetected.message(),
        "corruption detected in compressed set"
    );
    assert_eq!(
        Error::SequenceExhausted.message(),
        "sequence exhausted: maximum 65,536 IDs per seed"
    );
    assert_eq!(Error::ClockBeforeEpoch.message(), "system time before Unix epoch");
    assert_eq!(
        Error::RandomUnavailable.message(),
        "random source unavailable: getrandom failed"
    );
}

#[test]
fn sequence_writes_counter_into_last_two_bytes() {
    let mut payload = [0x22u8; 16];
    payload[15] = 0x01;
    let seed = Ksuid::from_parts(9, &payload);
    let mut seq = Sequence::from_seed(seed);
    let (lo, hi) = seq.bounds();
    assert!(lo <= hi);
    let first = seq.next().unwrap();
    assert_eq!(first.bytes()[..18], seed.bytes()[..18]);
    assert_eq!(first.bytes()[18..], [0, 0]);
    assert_eq!(first, lo);
    let second = seq.next().unwrap();
    assert_eq!(second.bytes()[18..], [0, 1]);
    assert!(first < second);
    assert_eq!(hi.bytes()[18..], [0xFF, 0xFF]);
}

#[test]
fn sequence_increases_for_a_seed_ending_in_ones() {
    let seed = Ksuid::from_parts(9, &[0xFF; 16]);
    let mut seq = Sequence::from_seed(seed);
    let (lo, hi) = seq.bounds();
    let mut prev = seq.next().unwrap();
    assert!(lo <= prev);
    for _ in 1..65536 {
        let curr = seq.next().unwrap();
        assert!(prev < curr);
        prev = curr;
    }
    assert_eq!(prev, hi);
    assert!(seq.is_exhausted());
    assert_eq!(seq.bounds().0, seed);
}

#[test]
fn new_ksuids_carry_the_current_time() {
    let k = Ksuid::new().unwrap();
    assert!(k.time() >= 1_400_000_000);
    let j = Ksuid::new_with_time(1_400_000_000 + 77).unwrap();
    assert_eq!(j.timestamp(), 77);
    let z = Ksuid::new_with_time(5).unwrap();
    assert_eq!(z.timestamp(), 0);
}

#[test]
fn compressed_set_corrupt_deltas() {
    // A delta with no KSUID before it.
    assert_eq!(
        CompressedSet::from_bytes(&[0x40, 0x01]).err(),
        Some(Error::CorruptionDetected)
    );
    assert_eq!(CompressedSet::from_bytes(&[0xC1]).err(), Some(Error::CorruptionDetected));
    // A payload range of zero.
    let mut data = vec![0x00];
    data.extend_from_slice(&[0u8; 20]);
    data.push(0xC0);
    assert_eq!(CompressedSet::from_bytes(&data).err(), Some(Error::CorruptionDetected));
    // A truncated payload after a time delta.
    let mut data = vec![0x00];
    data.extend_from_slice(&[0u8; 20]);
    data.extend_from_slice(&[0x40, 0x05, 1, 2, 3]);
    assert_eq!(CompressedSet::from_bytes(&data).err(), Some(Error::CorruptionDetected));
}

#[test]
fn compress_sorts_and_roundtrips() {
    let a = Ksuid::from_parts(10, &[1; 16]);
    let b = Ksuid::from_parts(10, &[2; 16]);
    let c = Ksuid::from_parts(20, &[0; 16]);
    let set = CompressedSet::compress(&[c, a, b, a]);
    assert_eq!(set.to_vec(), Ok(vec![a, b, c]));
    assert_eq!(CompressedSet::from_bytes(set.to_bytes()).unwrap().to_vec(), Ok(vec![a, b, c]));
}

#[test]
fn compress_payload_increment_uses_range_tag() {
    let a = Ksuid::from_parts(10, &[0; 16]);
    let b = a.next();
    let set = CompressedSet::compress(&[a, b]);
    assert_eq!(set.to_bytes().len(), 22);
    assert_eq!(set.to_bytes()[21], 0xC1);
    assert_eq!(set.to_vec(), Ok(vec![a, b]));
}

#[test]
fn sequence_ids_increase_and_stay_in_bounds() {
    let mut payload = [0x11u8; 16];
    payload[14] = 0;
    payload[15] = 0;
    let seed = Ksuid::from_parts(3, &payload);
    let mut seq = Sequence::from_seed(seed);
    let (lo, hi) = seq.bounds();
    let first = seq.next().unwrap();
    let second = seq.next().unwrap();
    assert!(first < second);
    assert!(lo <= first && second <= hi);
    assert_eq!(seq.count(), 2);
}
