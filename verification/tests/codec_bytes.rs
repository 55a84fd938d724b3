use parity_scale_codec::{Compact, Encode};
use storage_types::catalogue::{
    AccountId, EnumWithValues, EnumWithoutValues, Error, PreludeTypes, PrimitiveTypes,
    StorageTypes, SubstrateTypes,
};
use storage_types::codec::{
    decode_enum_with_values, decode_enum_without_values, decode_error, decode_prelude_types,
    decode_primitive_types, decode_signed_integers, decode_storage_types, decode_substrate_types,
    decode_unsigned_integers, encode_compact_u32, encode_enum_with_values,
    encode_enum_without_values, encode_error, encode_prelude_types, encode_primitive_types,
    encode_signed_integers, encode_storage_types, encode_substrate_types,
    encode_unsigned_integers, CodecError,
};

#[test]
fn compact_prefix_matches_reference_codec() {
    let cases: [u32; 9] = [0, 1, 63, 64, 16383, 16384, 1073741823, 1073741824, u32::MAX];
    for n in cases {
        let mut ours: Vec<u8> = Vec::new();
        encode_compact_u32(&mut ours, n);
        assert_eq!(ours, Compact(n).encode(), "compact encoding of {}", n);
    }
}

#[test]
fn unsigned_integers_bytes_match_reference_codec() {
    let store = StorageTypes::new();
    let u = store.get_unsigned_integers();
    let expected = (
        u.u128_value_max,
        u.u128_value_min,
        u.u16_value_max,
        u.u16_value_min,
        u.u32_value_max,
        u.u32_value_min,
        u.u64_value_max,
        u.u64_value_min,
        u.u8_value_max,
        u.u8_value_min,
    )
        .encode();
    assert_eq!(encode_unsigned_integers(&u), expected);
}

#[test]
fn signed_integers_bytes_match_reference_codec() {
    let store = StorageTypes::new();
    let s = store.get_signed_integers();
    let expected = (
        s.i128_value_max,
        s.i128_value_min,
        s.i16_value_max,
        s.i16_value_min,
        s.i32_value_max,
        s.i32_value_min,
        s.i64_value_max,
        s.i64_value_min,
        s.i8_value_max,
        s.i8_value_min,
    )
        .encode();
    assert_eq!(encode_signed_integers(&s), expected);
}

#[test]
fn prelude_types_bytes_match_reference_codec() {
    let store = StorageTypes::new();
    let p = store.get_prelude_types();
    let expected = (
        "This is a string".to_string(),
        Vec::<String>::new(),
        Vec::<Vec<String>>::new(),
    )
        .encode();
    assert_eq!(encode_prelude_types(&p), expected);
}

#[test]
fn nested_text_bytes_match_reference_codec() {
    let p = PreludeTypes {
        string_value: "héllo ☃".to_string(),
        vec_string_value: vec!["a".to_string(), "".to_string(), "çč".to_string()],
        vec_vec_string_value: vec![vec!["x".to_string()], vec![], vec!["y".to_string(), "☃".to_string()]],
    };
    let expected = (
        p.string_value.clone(),
        p.vec_string_value.clone(),
        p.vec_vec_string_value.clone(),
    )
        .encode();
    assert_eq!(encode_prelude_types(&p), expected);
}

#[test]
fn substrate_types_bytes_match_reference_codec() {
    let store = StorageTypes::new();
    let s = store.get_substrate_types();
    let expected = (
        s.account_id_value.bytes,
        s.balance_value_max,
        s.balance_value_min,
        s.hash_value.bytes,
    )
        .encode();
    assert_eq!(encode_substrate_types(&s), expected);
}

#[test]
fn primitive_types_bytes_are_tag_prefixed_and_ordered() {
    let store = StorageTypes::new();
    let p = store.get_primitive_types();
    let mut expected: Vec<u8> = vec![1, 0];
    expected.extend((2u8, 1u32, 2u32, 3u32).encode());
    expected.extend((p.array_value, p.tuple_value).encode());
    assert_eq!(encode_primitive_types(&p), expected);
}

#[test]
fn enum_encodings_are_stable_tags() {
    assert_eq!(encode_enum_without_values(&EnumWithoutValues::A), vec![0]);
    assert_eq!(encode_enum_without_values(&EnumWithoutValues::B), vec![1]);
    assert_eq!(encode_enum_without_values(&EnumWithoutValues::C), vec![2]);
    assert_eq!(
        encode_enum_with_values(&EnumWithValues::OneValue(7)),
        vec![0, 7, 0, 0, 0]
    );
    assert_eq!(
        encode_enum_with_values(&EnumWithValues::TwoValues(1, 256)),
        vec![1, 1, 0, 0, 0, 0, 1, 0, 0]
    );
    assert_eq!(
        encode_enum_with_values(&EnumWithValues::TheeValues(1, 2, 3)),
        vec![2, 1, 0, 0, 0, 2, 0, 0, 0, 3, 0, 0, 0]
    );
    assert_eq!(encode_error(&Error::ThisIsAnErrorEnum), vec![0]);
}

#[test]
fn round_trip_unsigned_integers() {
    let store = StorageTypes::new();
    let u = store.get_unsigned_integers();
    let bytes = encode_unsigned_integers(&u);
    let (decoded, end) = decode_unsigned_integers(&bytes, 0).unwrap();
    assert_eq!(decoded, u);
    assert_eq!(end, bytes.len());
}

#[test]
fn round_trip_signed_integers() {
    let store = StorageTypes::new();
    let s = store.get_signed_integers();
    let bytes = encode_signed_integers(&s);
    let (decoded, end) = decode_signed_integers(&bytes, 0).unwrap();
    assert_eq!(decoded, s);
    assert_eq!(end, bytes.len());
}

#[test]
fn round_trip_primitive_types() {
    let p = PrimitiveTypes {
        bool_value: false,
        enum_without_values: EnumWithoutValues::C,
        enum_with_values: EnumWithValues::TwoValues(u32::MAX, 0),
        array_value: [10, 20, 30],
        tuple_value: (0, u32::MAX),
    };
    let bytes = encode_primitive_types(&p);
    let (decoded, end) = decode_primitive_types(&bytes, 0).unwrap();
    assert_eq!(decoded, p);
    assert_eq!(end, bytes.len());
}

#[test]
fn round_trip_substrate_types() {
    let s = SubstrateTypes {
        account_id_value: AccountId::from([7u8; 32]),
        balance_value_max: 12345678901234567890,
        balance_value_min: 1,
        hash_value: storage_types::catalogue::Hash::from([0xABu8; 32]),
    };
    let bytes = encode_substrate_types(&s);
    let (decoded, end) = decode_substrate_types(&bytes, 0).unwrap();
    assert_eq!(decoded, s);
    assert_eq!(end, bytes.len());
}

#[test]
fn round_trip_prelude_types() {
    let p = PreludeTypes {
        string_value: "héllo ☃ nested".to_string(),
        vec_string_value: vec!["".to_string(), "two".to_string()],
        vec_vec_string_value: vec![vec![], vec!["deep".to_string(), "är".to_string()]],
    };
    let bytes = encode_prelude_types(&p);
    let (decoded, end) = decode_prelude_types(&bytes, 0).unwrap();
    assert_eq!(decoded, p);
    assert_eq!(end, bytes.len());
}

#[test]
fn round_trip_enums_and_error() {
    for e in [
        EnumWithoutValues::A,
        EnumWithoutValues::B,
        EnumWithoutValues::C,
    ] {
        let bytes = encode_enum_without_values(&e);
        let (decoded, end) = decode_enum_without_values(&bytes, 0).unwrap();
        assert_eq!(decoded, e);
        assert_eq!(end, bytes.len());
    }
    for e in [
        EnumWithValues::OneValue(1),
        EnumWithValues::TwoValues(1, 2),
        EnumWithValues::TheeValues(u32::MAX, 0, 7),
    ] {
        let bytes = encode_enum_with_values(&e);
        let (decoded, end) = decode_enum_with_values(&bytes, 0).unwrap();
        assert_eq!(decoded, e);
        assert_eq!(end, bytes.len());
    }
    let bytes = encode_error(&Error::ThisIsAnErrorEnum);
    let (decoded, end) = decode_error(&bytes, 0).unwrap();
    assert_eq!(decoded, Error::ThisIsAnErrorEnum);
    assert_eq!(end, bytes.len());
}

#[test]
fn round_trip_whole_store() {
    let store = StorageTypes::new();
    let bytes = encode_storage_types(&store);
    let (decoded, end) = decode_storage_types(&bytes, 0).unwrap();
    assert_eq!(decoded, store);
    assert_eq!(end, bytes.len());
}

#[test]
fn decode_rejects_unknown_tags() {
    assert_eq!(
        decode_enum_without_values(&[3], 0),
        Err(CodecError::MalformedInput)
    );
    assert_eq!(
        decode_enum_with_values(&[9, 0, 0, 0, 0], 0),
        Err(CodecError::MalformedInput)
    );
    assert_eq!(decode_error(&[1], 0), Err(CodecError::MalformedInput));
    // A boolean byte other than zero or one is out of the known set.
    assert_eq!(
        decode_primitive_types(&[2, 0, 0, 0, 0, 0, 0, 0], 0),
        Err(CodecError::MalformedInput)
    );
}

#[test]
fn decode_rejects_truncated_input() {
    assert_eq!(
        decode_unsigned_integers(&[0u8; 61], 0),
        Err(CodecError::MalformedInput)
    );
    assert_eq!(
        decode_signed_integers(&[0u8; 10], 0),
        Err(CodecError::MalformedInput)
    );
    assert_eq!(
        decode_substrate_types(&[0u8; 95], 0),
        Err(CodecError::MalformedInput)
    );
    // Tag announces a two-word payload but only one word follows.
    assert_eq!(
        decode_enum_with_values(&[1, 1, 0, 0, 0], 0),
        Err(CodecError::MalformedInput)
    );
    // The declared text length exceeds the remaining input.
    let declared: Vec<u8> = vec![5 << 2, b'a', b'b'];
    assert_eq!(
        decode_prelude_types(&declared, 0),
        Err(CodecError::MalformedInput)
    );
}

#[test]
fn decode_rejects_invalid_utf8() {
    // Compact length one, followed by a lone continuation byte.
    let bytes: Vec<u8> = vec![1 << 2, 0xFF];
    assert_eq!(
        decode_prelude_types(&bytes, 0),
        Err(CodecError::MalformedInput)
    );
}

#[test]
fn decode_rejects_non_canonical_compact() {
    // Two-byte compact form holding a value that fits the one-byte form.
    let bytes: Vec<u8> = vec![0b01, 0, b'a'];
    assert_eq!(
        decode_prelude_types(&bytes, 0),
        Err(CodecError::MalformedInput)
    );
}

#[test]
fn whole_store_bytes_match_reference_codec() {
    let store = StorageTypes::new();
    let p = store.get_primitive_types();
    let mut expected = (
        "This is a string".to_string(),
        Vec::<String>::new(),
        Vec::<Vec<String>>::new(),
    )
        .encode();
    expected.extend(vec![1, 0]);
    expected.extend((2u8, 1u32, 2u32, 3u32).encode());
    expected.extend((p.array_value, p.tuple_value).encode());
    let s = store.get_signed_integers();
    expected.extend(
        (
            s.i128_value_max,
            s.i128_value_min,
            s.i16_value_max,
            s.i16_value_min,
            s.i32_value_max,
            s.i32_value_min,
            s.i64_value_max,
            s.i64_value_min,
            s.i8_value_max,
            s.i8_value_min,
        )
            .encode(),
    );
    let b = store.get_substrate_types();
    expected.extend(
        (
            b.account_id_value.bytes,
            b.balance_value_max,
            b.balance_value_min,
            b.hash_value.bytes,
        )
            .encode(),
    );
    let u = store.get_unsigned_integers();
    expected.extend(
        (
            u.u128_value_max,
            u.u128_value_min,
            u.u16_value_max,
            u.u16_value_min,
            u.u32_value_max,
            u.u32_value_min,
            u.u64_value_max,
            u.u64_value_min,
            u.u8_value_max,
            u.u8_value_min,
        )
            .encode(),
    );
    assert_eq!(encode_storage_types(&store), expected);
}
