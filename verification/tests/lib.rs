use hashids::{BuildError, DecodeError, HashIds, HashIdsBuilder};

#[test]
fn it_works_1() {
    let ids = HashIds::with_salt("this is my salt");

    let numbers: Vec<u64> = vec![12345];
    let encode = ids.encode(&numbers);
    let longs = ids.decode(&encode).unwrap();

    assert_eq!(numbers, longs);
}

#[test]
fn default_equal_explicit() {
    let ids_def = HashIds::new();
    let ids_exp = HashIdsBuilder::new()
        .salt("")
        .alphabet("abcdefghijklmnopqrstuvwxyzABCDEFGHIJKLMNOPQRSTUVWXYZ1234567890")
        .build()
        .unwrap();
    let data = vec![1, 2, 3, 4, 999];
    assert_eq!(ids_def.encode(&data), ids_exp.encode(&data));
}

#[test]
fn bad() {
    let alphabet = "\u{1}\u{2}\u{3}\u{4}\u{5}\u{6}\u{7}\u{8}\n\u{f}\r\u{11}\u{0}\t\u{b}\u{c}";
    let ids = HashIdsBuilder::new().alphabet(alphabet).build().unwrap();
    let data = vec![13, 6, 47, 11, 25];
    let encoded = ids.encode(&data);
    let decoded = ids.decode(&encoded).unwrap();
    assert_eq!(decoded, data);
}

#[test]
fn literal_vector_multiple_numbers() {
    let ids = HashIds::with_salt("this is my salt");
    assert_eq!(ids.encode(&vec![683, 94108, 123, 5]), "aBMswoO2UB3Sj");
}

#[test]
fn literal_vector_min_length() {
    let ids = HashIdsBuilder::new()
        .salt("this is my salt")
        .min_length(8)
        .build()
        .unwrap();
    assert_eq!(ids.encode(&vec![1]), "gB0NV05e");
}

#[test]
fn literal_vector_custom_alphabet() {
    let ids = HashIdsBuilder::new()
        .salt("this is my salt")
        .alphabet("0123456789abcdef")
        .build()
        .unwrap();
    assert_eq!(ids.encode(&vec![1234567]), "b332db5");
}

#[test]
fn literal_vector_repeated_numbers() {
    let ids = HashIds::with_salt("this is my salt");
    assert_eq!(ids.encode(&vec![5, 5, 5, 5]), "1Wc8cwcE");
}

#[test]
fn literal_vector_number_series() {
    let ids = HashIds::with_salt("this is my salt");
    assert_eq!(
        ids.encode(&vec![1, 2, 3, 4, 5, 6, 7, 8, 9, 10]),
        "kRHnurhptKcjIDTWC3sx"
    );
}

#[test]
fn literal_vector_single_numbers() {
    let ids = HashIds::with_salt("this is my salt");
    assert_eq!(ids.encode(&vec![1]), "NV");
    assert_eq!(ids.encode(&vec![2]), "6m");
    assert_eq!(ids.encode(&vec![3]), "yD");
    assert_eq!(ids.encode(&vec![4]), "2l");
    assert_eq!(ids.encode(&vec![5]), "rD");
}

#[test]
fn cross_salt_decode_fails() {
    let ids_a = HashIds::with_salt("this is my salt");
    let ids_b = HashIds::with_salt("this is my pepper");
    let encoded = ids_a.encode(&vec![12345]);
    assert!(ids_b.decode(&encoded).is_err());
}

#[test]
fn empty_input_encodes_to_empty_string() {
    let ids = HashIds::with_salt("this is my salt");
    assert_eq!(ids.encode(&vec![]), "");
    assert_eq!(ids.decode("").unwrap(), Vec::<u64>::new());
}

#[test]
fn minimum_length_is_reached() {
    let ids = HashIdsBuilder::new()
        .salt("this is my salt")
        .min_length(30)
        .build()
        .unwrap();
    let encoded = ids.encode(&vec![1]);
    assert!(encoded.len() >= 30);
    assert_eq!(ids.decode(&encoded).unwrap(), vec![1]);
}

#[test]
fn round_trip_large_numbers() {
    let ids = HashIds::with_salt("this is my salt");
    let data = vec![u64::MAX, 0, 9007199254740992, 1];
    let encoded = ids.encode(&data);
    assert_eq!(ids.decode(&encoded).unwrap(), data);
}

#[test]
fn determinism_same_inputs_same_output() {
    let a = HashIdsBuilder::new()
        .salt("salt")
        .min_length(5)
        .build()
        .unwrap();
    let b = HashIdsBuilder::new()
        .salt("salt")
        .min_length(5)
        .build()
        .unwrap();
    let data = vec![42, 7];
    assert_eq!(a.encode(&data), b.encode(&data));
}

#[test]
fn short_alphabet_is_rejected() {
    let err = HashIdsBuilder::new().alphabet("abcdefg").build().unwrap_err();
    assert_eq!(err, BuildError::ShortAlphabet);
    assert_eq!(err.description(), "Invalid Alphabet Length");
}

#[test]
fn space_in_alphabet_is_rejected() {
    let err = HashIdsBuilder::new()
        .alphabet("abcdefghijklmnop qrstuvwxyz")
        .build()
        .unwrap_err();
    assert_eq!(err, BuildError::SpaceInAlphabet);
    assert_eq!(err.description(), "Space character found in alphabet");
}

#[test]
fn non_alphabet_characters_are_rejected() {
    let ids = HashIds::with_salt("this is my salt");
    let err = ids.decode("@@@").unwrap_err();
    assert_eq!(err, DecodeError::NonAlphabetChars);
}

#[test]
fn internal_guard_characters_are_rejected() {
    let ids = HashIds::with_salt("this is my salt");
    // With this salt the guards include 'A'; three guard characters leave
    // one in the interior after the outer two are stripped.
    let err = ids.decode("AaAaA").unwrap_err();
    assert_eq!(err, DecodeError::InternalGuardChars);
}

#[test]
fn checksum_mismatch_is_rejected() {
    let ids = HashIds::with_salt("this is my salt");
    // "NV" is encode([1]); "VN" holds only alphabet characters but was
    // never produced by this configuration.
    assert_eq!(ids.decode("NV").unwrap(), vec![1]);
    let err = ids.decode("VN").unwrap_err();
    assert_eq!(err, DecodeError::ChecksumMismatch);
}

#[test]
fn overlong_token_is_rejected() {
    let ids = HashIds::with_salt("this is my salt");
    // A token of many digits exceeds the 64-bit range and must fail
    // cleanly instead of wrapping.
    let long: String = std::iter::repeat('N').take(64).collect();
    assert!(ids.decode(&long).is_err());
}

#[test]
fn encode_hex_round_trip() {
    let ids = HashIds::with_salt("this is my salt");
    let encoded = ids.encode_hex("1234567890abcdef").unwrap();
    let back = ids.decode_hex(&encoded).unwrap();
    assert_eq!(back, "1234567890abcdef");
}

#[test]
fn encode_hex_preserves_leading_zeros() {
    let ids = HashIds::with_salt("this is my salt");
    let encoded = ids.encode_hex("000fF").unwrap();
    let back = ids.decode_hex(&encoded).unwrap();
    assert_eq!(back, "000ff");
}

#[test]
fn encode_hex_rejects_non_hex() {
    let ids = HashIds::with_salt("this is my salt");
    assert!(ids.encode_hex("").is_none());
    assert!(ids.encode_hex("12g4").is_none());
    assert!(ids.encode_hex("12 34").is_none());
    assert!(ids.encode_hex("deadbeef").is_some());
}

#[test]
fn decode_hex_rejects_foreign_strings() {
    let ids = HashIds::with_salt("this is my salt");
    assert!(ids.decode_hex("@@@").is_none());
}

#[test]
fn builder_constructors_agree() {
    let data = vec![1, 2, 3];
    let a = HashIds::new_with_salt("abc".to_string());
    let b = HashIds::with_salt("abc");
    let c = HashIds::new_with_salt_and_min_length("abc".to_string(), 0);
    assert_eq!(a.encode(&data), b.encode(&data));
    assert_eq!(a.encode(&data), c.encode(&data));
}
