use ksuid::base62;
use std::collections::HashSet;
use ksuid::{compare, is_sorted, sort, CompressedSet, Ksuid, Sequence};
#[test]
fn test_nil_constant() {
    assert_eq!(Ksuid::nil().to_string(), "000000000000000000000000000");
    assert!(Ksuid::nil().is_nil());
}

#[test]
fn test_max_constant() {
    assert_eq!(Ksuid::max().to_string(), "aWgEPTl1tmebfsQzFP4bxwgy80V");
    assert!(!Ksuid::max().is_nil());
}

#[test]
fn test_default_is_nil() {
    assert_eq!(Ksuid::default(), Ksuid::nil());
}

#[test]
fn test_parse_nil() {
    let parsed = Ksuid::parse("000000000000000000000000000").unwrap();
    assert_eq!(parsed, Ksuid::nil());
}

#[test]
fn test_parse_max() {
    let parsed = Ksuid::parse("aWgEPTl1tmebfsQzFP4bxwgy80V").unwrap();
    assert_eq!(parsed, Ksuid::max());
}

#[test]
fn test_roundtrip_nil() {
    let s = Ksuid::nil().to_string();
    let parsed = Ksuid::parse(&s).unwrap();
    assert_eq!(parsed, Ksuid::nil());
}

#[test]
fn test_roundtrip_max() {
    let s = Ksuid::max().to_string();
    let parsed = Ksuid::parse(&s).unwrap();
    assert_eq!(parsed, Ksuid::max());
}

#[test]
fn test_known_ksuid_roundtrip_1() {
    let s = "0ujsszwN8NRY24YaXiTIE2VWDTS";
    let parsed = Ksuid::parse(s).unwrap();
    assert_eq!(parsed.to_string(), s);
}

#[test]
fn test_known_ksuid_roundtrip_2() {
    let s = "0ujtsYcgvSTl8PAuAdqWYSMnLOv";
    let parsed = Ksuid::parse(s).unwrap();
    assert_eq!(parsed.to_string(), s);
}

#[test]
fn test_parse_invalid_length() {
    assert!(Ksuid::parse("too_short").is_err());
    assert!(Ksuid::parse("").is_err());
}

#[test]
fn test_parse_invalid_character() {
    // 27 chars but with invalid character
    assert!(Ksuid::parse("000000000000000000000000 00").is_err());
}

#[test]
fn test_parse_or_nil_invalid() {
    assert_eq!(Ksuid::parse_or_nil("invalid"), Ksuid::nil());
}

#[test]
fn test_from_parts() {
    let ts: u32 = 123456;
    let payload = [1u8; 16];
    let k = Ksuid::from_parts(ts, &payload);
    assert_eq!(k.timestamp(), ts);
    assert_eq!(k.payload(), &payload);
}

#[test]
fn test_from_bytes() {
    let mut bytes = [0u8; 20];
    bytes[0] = 0x01;
    bytes[19] = 0xFF;
    let k = Ksuid::from_bytes(&bytes);
    assert_eq!(k.bytes(), &bytes);
}

#[test]
fn test_time() {
    let ts: u32 = 100;
    let payload = [0u8; 16];
    let k = Ksuid::from_parts(ts, &payload);
    assert_eq!(k.time(), 100 + 1_400_000_000);
}

#[test]
fn test_ordering() {
    let k1 = Ksuid::from_parts(100, &[0u8; 16]);
    let k2 = Ksuid::from_parts(200, &[0u8; 16]);
    assert!(k1 < k2);
}

#[test]
fn test_ordering_consistent_with_string() {
    // Verify byte ordering and string ordering are consistent
    let k1 = Ksuid::from_parts(100, &[0u8; 16]);
    let k2 = Ksuid::from_parts(200, &[0u8; 16]);
    let s1 = k1.to_string();
    let s2 = k2.to_string();
    assert_eq!(k1.cmp(&k2), s1.cmp(&s2));
}

#[test]
fn test_next() {
    let k = Ksuid::from_parts(100, &[0u8; 16]);
    let n = k.next();
    assert_eq!(n.timestamp(), 100);
    assert_eq!(n.payload()[15], 1);
    assert!(n > k);
}

#[test]
fn test_prev() {
    let k = Ksuid::from_parts(100, &[0, 0, 0, 0, 0, 0, 0, 0, 0, 0, 0, 0, 0, 0, 0, 1]);
    let p = k.prev();
    assert_eq!(p.timestamp(), 100);
    assert_eq!(p.payload(), &[0u8; 16]);
    assert!(p < k);
}

#[test]
fn test_next_overflow() {
    // Payload is all 0xFF, next() now increments full 20 bytes so timestamp increments
    let k = Ksuid::from_parts(100, &[0xFF; 16]);
    let n = k.next();
    assert_eq!(n, Ksuid::from_parts(101, &[0u8; 16]));
}

#[test]
fn test_prev_underflow() {
    // Payload is all 0x00, prev() now decrements full 20 bytes so timestamp decrements
    let k = Ksuid::from_parts(100, &[0u8; 16]);
    let p = k.prev();
    assert_eq!(p, Ksuid::from_parts(99, &[0xFF; 16]));
}

#[test]
fn test_next_wraps_max_to_nil() {
    assert_eq!(Ksuid::max().next(), Ksuid::nil());
}

#[test]
fn test_prev_wraps_nil_to_max() {
    assert_eq!(Ksuid::nil().prev(), Ksuid::max());
}

#[test]
fn test_new_generates_unique() {
    let k1 = Ksuid::new().unwrap();
    let k2 = Ksuid::new().unwrap();
    assert_ne!(k1, k2);
}

#[test]
fn test_new_is_not_nil() {
    let k = Ksuid::new().unwrap();
    assert!(!k.is_nil());
}

#[test]
fn test_display_length() {
    let k = Ksuid::new().unwrap();
    assert_eq!(k.to_string().len(), 27);
}

#[test]
fn test_from_str() {
    let s = "0ujsszwN8NRY24YaXiTIE2VWDTS";
    let k: Ksuid = s.parse().unwrap();
    assert_eq!(k.to_string(), s);
}

#[test]
fn test_debug() {
    let k = Ksuid::nil();
    let debug = format!("{:?}", k);
    assert!(debug.starts_with("Ksuid("));
}

#[test]
fn test_sequence_monotonic() {
    let mut seq = Sequence::new().unwrap();
    let mut prev = seq.next().unwrap();
    for _ in 0..100 {
        let curr = seq.next().unwrap();
        assert!(curr > prev, "sequence must be monotonically increasing");
        prev = curr;
    }
}

#[test]
fn test_roundtrip_random() {
    // Generate random KSUIDs and verify encode/decode roundtrip
    for _ in 0..100 {
        let k = Ksuid::new().unwrap();
        let s = k.to_string();
        assert_eq!(s.len(), 27);
        let parsed = Ksuid::parse(&s).unwrap();
        assert_eq!(k, parsed);
    }
}

#[test]
fn test_base62_encode_decode_roundtrip_all_bytes() {
    // Test with various byte patterns
    let patterns: Vec<[u8; 20]> = vec![
        [0u8; 20],
        [0xFF; 20],
        [0x80; 20],
        [
            1, 2, 3, 4, 5, 6, 7, 8, 9, 10, 11, 12, 13, 14, 15, 16, 17, 18, 19, 20,
        ],
    ];
    for bytes in patterns {
        let encoded = base62::encode(&bytes);
        let decoded = base62::decode(&encoded).unwrap();
        assert_eq!(bytes, decoded, "roundtrip failed for {:?}", bytes);
    }
}

#[test]
fn test_known_ksuid_bytes() {
    // Test vector: "0ujsszwN8NRY24YaXiTIE2VWDTS"
    // This should decode to specific bytes and re-encode to the same string
    let s = "0ujsszwN8NRY24YaXiTIE2VWDTS";
    let k = Ksuid::parse(s).unwrap();
    let re_encoded = k.to_string();
    assert_eq!(re_encoded, s);

    // Verify timestamp is reasonable (not zero, not max)
    assert!(k.timestamp() > 0);
    assert!(k.timestamp() < u32::MAX);
}

#[test]
fn test_overflow_detection() {
    // A string that would decode to more than 20 bytes should be caught
    // "aWgEPTl1tmebfsQzFP4bxwgy80V" is MAX (all 0xFF) - valid
    // Anything "larger" in base62 should overflow
    // The character after 'V' in base62 at position 26 would be 'W'
    let overflow = "aWgEPTl1tmebfsQzFP4bxwgy80W";
    assert!(Ksuid::parse(overflow).is_err());
}

#[test]
fn test_as_ref() {
    let k = Ksuid::nil();
    let bytes: &[u8] = k.as_ref();
    assert_eq!(bytes.len(), 20);
    assert_eq!(bytes, &[0u8; 20]);
}

#[test]
fn test_hash() {
    let mut set = HashSet::new();
    let k1 = Ksuid::new().unwrap();
    let k2 = Ksuid::new().unwrap();
    set.insert(k1);
    set.insert(k2);
    assert_eq!(set.len(), 2);
    set.insert(k1);
    assert_eq!(set.len(), 2);
}

fn assert_send<T: Send>() {}

fn assert_sync<T: Sync>() {}

#[test]
fn test_send_sync() {
    assert_send::<Ksuid>();
    assert_sync::<Ksuid>();
}

#[test]
fn test_try_from_bytes() {
    let bytes = [42u8; 20];
    let k = Ksuid::try_from_bytes(&bytes).unwrap();
    assert_eq!(k.bytes(), &bytes);

    // Wrong length should fail
    assert!(Ksuid::try_from_bytes(&[0u8; 19]).is_err());
    assert!(Ksuid::try_from_bytes(&[0u8; 21]).is_err());
}

#[test]
fn test_from_bytes_or_nil() {
    let bytes = [42u8; 20];
    let k = Ksuid::from_bytes_or_nil(&bytes);
    assert_eq!(k.bytes(), &bytes);

    let k = Ksuid::from_bytes_or_nil(&[0u8; 5]);
    assert_eq!(k, Ksuid::nil());
}

#[test]
fn test_from_parts_or_nil() {
    let k = Ksuid::from_parts_or_nil(100, &[1u8; 16]);
    assert_eq!(k.timestamp(), 100);

    let k = Ksuid::from_parts_or_nil(100, &[1u8; 15]);
    assert_eq!(k, Ksuid::nil());
}

#[test]
fn test_compare_method() {
    let k1 = Ksuid::from_parts(100, &[0u8; 16]);
    let k2 = Ksuid::from_parts(200, &[0u8; 16]);
    assert_eq!(k1.compare(&k2), -1);
    assert_eq!(k2.compare(&k1), 1);
    assert_eq!(k1.compare(&k1), 0);
}

#[test]
fn test_from_into_array() {
    let bytes = [7u8; 20];
    let k: Ksuid = bytes.into();
    let back: [u8; 20] = k.into();
    assert_eq!(bytes, back);
}

#[test]
fn test_sort_utilities() {
    let k1 = Ksuid::from_parts(300, &[0u8; 16]);
    let k2 = Ksuid::from_parts(100, &[0u8; 16]);
    let k3 = Ksuid::from_parts(200, &[0u8; 16]);
    let mut ids = vec![k1, k2, k3];

    assert!(!is_sorted(&ids));
    sort(&mut ids);
    assert!(is_sorted(&ids));
    assert_eq!(ids[0], k2);
    assert_eq!(ids[1], k3);
    assert_eq!(ids[2], k1);
}

#[test]
fn test_compare_fn() {
    let k1 = Ksuid::from_parts(100, &[0u8; 16]);
    let k2 = Ksuid::from_parts(200, &[0u8; 16]);
    assert_eq!(compare(&k1, &k2), core::cmp::Ordering::Less);
    assert_eq!(compare(&k2, &k1), core::cmp::Ordering::Greater);
    assert_eq!(compare(&k1, &k1), core::cmp::Ordering::Equal);
}

#[test]
fn test_compressed_set_roundtrip() {
    let ids: Vec<Ksuid> = (0..10)
        .map(|i| Ksuid::from_parts(100, &[0, 0, 0, 0, 0, 0, 0, 0, 0, 0, 0, 0, 0, 0, 0, i]))
        .collect();

    let set = CompressedSet::compress(&ids);
    assert!(!set.is_empty());
    assert!(set.len() < 20 * 10); // Should be compressed

    let decompressed = set.to_vec().unwrap();
    assert_eq!(decompressed.len(), ids.len());

    // Verify sorted order
    let mut sorted_ids = ids.clone();
    sorted_ids.sort();
    assert_eq!(decompressed, sorted_ids);
}

#[test]
fn test_compressed_set_empty() {
    let set = CompressedSet::compress(&[]);
    assert!(set.is_empty());
    assert_eq!(set.len(), 0);
    let decompressed = set.to_vec().unwrap();
    assert!(decompressed.is_empty());
}

#[test]
fn test_compressed_set_single() {
    let k = Ksuid::from_parts(100, &[1u8; 16]);
    let set = CompressedSet::compress(&[k]);
    let decompressed = set.to_vec().unwrap();
    assert_eq!(decompressed, vec![k]);
}

#[test]
fn test_compressed_set_dedup() {
    let k = Ksuid::from_parts(100, &[1u8; 16]);
    let set = CompressedSet::compress(&[k, k, k]);
    let decompressed = set.to_vec().unwrap();
    assert_eq!(decompressed, vec![k]);
}

#[test]
fn test_compressed_set_time_delta() {
    let k1 = Ksuid::from_parts(100, &[1u8; 16]);
    let k2 = Ksuid::from_parts(200, &[2u8; 16]);
    let set = CompressedSet::compress(&[k1, k2]);
    let decompressed = set.to_vec().unwrap();
    assert_eq!(decompressed, vec![k1, k2]);
}

#[test]
fn test_compressed_set_from_bytes_roundtrip() {
    let ids: Vec<Ksuid> = (0..5)
        .map(|i| Ksuid::from_parts(100 + i, &[i as u8; 16]))
        .collect();

    let set = CompressedSet::compress(&ids);
    let raw = set.to_bytes().to_vec();
    let set2 = CompressedSet::from_bytes(&raw).unwrap();
    let decompressed = set2.to_vec().unwrap();

    let mut sorted_ids = ids;
    sorted_ids.sort();
    assert_eq!(decompressed, sorted_ids);
}

#[test]
fn test_sequence_exhaustion() {
    let seed = Ksuid::from_parts(100, &[0u8; 16]);
    let mut seq = Sequence::from_seed(seed);
    assert_eq!(seq.count(), 0);
    assert!(!seq.is_exhausted());

    // Generate all 65536 IDs
    for _ in 0..65_536 {
        seq.next().unwrap();
    }

    assert_eq!(seq.count(), 65_536);
    assert!(seq.is_exhausted());
    assert!(seq.next().is_err());
}

#[test]
fn test_sequence_reseed() {
    let seed = Ksuid::from_parts(100, &[0u8; 16]);
    let mut seq = Sequence::from_seed(seed);
    seq.next().unwrap();
    assert_eq!(seq.count(), 1);

    let new_seed = Ksuid::from_parts(200, &[0u8; 16]);
    seq.reseed_with(new_seed);
    assert_eq!(seq.count(), 0);
    assert_eq!(seq.seed(), new_seed);
}

#[test]
fn test_sequence_bounds() {
    let seed = Ksuid::from_parts(100, &[0u8; 16]);
    let seq = Sequence::from_seed(seed);
    let (min, max) = seq.bounds();
    assert_eq!(min, seed);
    assert!(max > min);
}

#[test]
fn test_to_hex_nil() {
    assert_eq!(
        Ksuid::nil().to_hex(),
        "0000000000000000000000000000000000000000"
    );
}

#[test]
fn test_to_hex_max() {
    assert_eq!(
        Ksuid::max().to_hex(),
        "FFFFFFFFFFFFFFFFFFFFFFFFFFFFFFFFFFFFFFFF"
    );
}

#[test]
fn test_from_hex_roundtrip() {
    let k = Ksuid::new().unwrap();
    let hex = k.to_hex();
    assert_eq!(hex.len(), 40);
    let parsed = Ksuid::from_hex(&hex).unwrap();
    assert_eq!(k, parsed);
}

#[test]
fn test_from_hex_lowercase() {
    let hex = "05a9a844669f7efd7b6fe812278486085878563d";
    let k = Ksuid::from_hex(hex).unwrap();
    assert_eq!(k.timestamp(), 95004740);
}

#[test]
fn test_from_hex_invalid_length() {
    assert!(Ksuid::from_hex("ABCD").is_err());
}

#[test]
fn test_from_hex_invalid_character() {
    assert!(Ksuid::from_hex("GGGGGGGGGGGGGGGGGGGGGGGGGGGGGGGGGGGGGGGG").is_err());
}

#[test]
fn test_hex_cross_compat() {
    // Vectors shared with the TypeScript KSUID library
    let k = Ksuid::from_hex("05a9a844669f7efd7b6fe812278486085878563d").unwrap();
    assert_eq!(k.to_string(), "0o5sKzFDBc56T8mbUP8wH1KpSX7");
}
