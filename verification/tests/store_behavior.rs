use storage_types::catalogue::{
    AccountId, EnumWithValues, EnumWithoutValues, Error, StorageTypes,
};

#[test]
fn primitive_types_scenario() {
    let store = StorageTypes::new();
    let p = store.get_primitive_types();
    assert_eq!(p.bool_value, true);
    assert_eq!(p.enum_without_values, EnumWithoutValues::A);
    assert_eq!(p.enum_with_values, EnumWithValues::TheeValues(1, 2, 3));
    assert_eq!(p.array_value, [3, 2, 1]);
    assert_eq!(p.tuple_value, (7, 8));
}

#[test]
fn unsigned_integers_scenario() {
    let store = StorageTypes::new();
    let u = store.get_unsigned_integers();
    assert_eq!(u.u8_value_max, 255);
    assert_eq!(u.u8_value_min, 0);
    assert_eq!(u.u16_value_max, 65535);
    assert_eq!(u.u16_value_min, 0);
    assert_eq!(u.u32_value_max, 4294967295);
    assert_eq!(u.u32_value_min, 0);
    assert_eq!(u.u64_value_max, 18446744073709551615);
    assert_eq!(u.u64_value_min, 0);
    assert_eq!(u.u128_value_max, 340282366920938463463374607431768211455);
    assert_eq!(u.u128_value_min, 0);
}

#[test]
fn signed_integers_boundaries() {
    let store = StorageTypes::new();
    let s = store.get_signed_integers();
    assert_eq!(s.i8_value_min, -128);
    assert_eq!(s.i8_value_max, 127);
    assert_eq!(s.i16_value_min, -32768);
    assert_eq!(s.i16_value_max, 32767);
    assert_eq!(s.i32_value_min, -2147483648);
    assert_eq!(s.i32_value_max, 2147483647);
    assert_eq!(s.i64_value_min, -9223372036854775808);
    assert_eq!(s.i64_value_max, 9223372036854775807);
    assert_eq!(s.i128_value_min, -170141183460469231731687303715884105728);
    assert_eq!(s.i128_value_max, 170141183460469231731687303715884105727);
}

#[test]
fn prelude_types_scenario() {
    let store = StorageTypes::new();
    let p = store.get_prelude_types();
    assert_eq!(p.string_value, "This is a string");
    assert!(p.vec_string_value.is_empty());
    assert!(p.vec_vec_string_value.is_empty());
}

#[test]
fn substrate_types_scenario() {
    let store = StorageTypes::new();
    let s = store.get_substrate_types();
    assert_eq!(s.account_id_value, AccountId::from([0x00; 32]));
    assert_eq!(s.account_id_value.bytes, [0u8; 32]);
    assert_eq!(s.hash_value.bytes, [0u8; 32]);
    assert_eq!(s.balance_value_max, u128::MAX);
    assert_eq!(s.balance_value_min, u128::MIN);
}

#[test]
fn construction_is_deterministic() {
    let a = StorageTypes::new();
    let b = StorageTypes::new();
    assert_eq!(a, b);
}

#[test]
fn accessors_return_independent_copies() {
    let store = StorageTypes::new();
    let mut a = store.get_prelude_types();
    let b = store.get_prelude_types();
    assert_eq!(a, b);
    a.string_value.push('x');
    a.vec_string_value.push("extra".to_string());
    assert_ne!(a, b);
    assert_eq!(b.string_value, "This is a string");
    let c = store.get_prelude_types();
    assert_eq!(b, c);
    let mut p = store.get_primitive_types();
    p.array_value[0] = 99;
    assert_eq!(store.get_primitive_types().array_value, [3, 2, 1]);
}

#[test]
fn error_accessor_always_fails() {
    let store = StorageTypes::new();
    assert_eq!(store.get_error(), Err(Error::ThisIsAnErrorEnum));
    assert_eq!(store.get_error(), Err(Error::ThisIsAnErrorEnum));
    assert!(store.get_error().is_err());
}

#[test]
fn enum_without_values_default_is_a() {
    assert_eq!(EnumWithoutValues::default(), EnumWithoutValues::A);
}
