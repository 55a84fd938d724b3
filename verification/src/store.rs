//! The canonical store: one instance of each catalogue category, populated
//! once at construction with fixed deterministic values, plus the read
//! accessors and the deliberately-failing operation.
//!
//! No operation after construction observes or causes any change to the
//! stored values: every accessor takes `&self` and returns an independent
//! copy.

use crate::catalogue::{
    AccountId, Balance, EnumWithValues, EnumWithoutValues, Error, PreludeTypes, PreludeTypesView,
    PrimitiveTypes, SignedIntegers, StorageTypes, StorageTypesView, SubstrateTypes,
    UnsignedIntegers,
};
use vstd::arithmetic::power2::{lemma2_to64, lemma2_to64_rest, lemma_pow2_adds, pow2};
use vstd::prelude::*;

verus! {

/// The fixed unsigned boundary record the store is built with: every minimum
/// is the width's zero, every maximum the width's all-ones value.
pub open spec fn canonical_unsigned_integers() -> UnsignedIntegers {
    UnsignedIntegers {
        u128_value_max: u128::MAX,
        u128_value_min: 0u128,
        u16_value_max: u16::MAX,
        u16_value_min: 0u16,
        u32_value_max: u32::MAX,
        u32_value_min: 0u32,
        u64_value_max: u64::MAX,
        u64_value_min: 0u64,
        u8_value_max: u8::MAX,
        u8_value_min: 0u8,
    }
}

/// The fixed signed boundary record the store is built with: every pair holds
/// the width's true two's-complement extremes.
pub open spec fn canonical_signed_integers() -> SignedIntegers {
    SignedIntegers {
        i128_value_max: i128::MAX,
        i128_value_min: i128::MIN,
        i16_value_max: i16::MAX,
        i16_value_min: i16::MIN,
        i32_value_max: i32::MAX,
        i32_value_min: i32::MIN,
        i64_value_max: i64::MAX,
        i64_value_min: i64::MIN,
        i8_value_max: i8::MAX,
        i8_value_min: i8::MIN,
    }
}

/// The fixed mixed-primitive record the store is built with.
pub open spec fn primitive_types_canonical(p: PrimitiveTypes) -> bool {
    &&& p.bool_value == true
    &&& p.enum_without_values == EnumWithoutValues::A
    &&& p.enum_with_values == EnumWithValues::TheeValues(1, 2, 3)
    &&& p.array_value@ =~= seq![3u32, 2u32, 1u32]
    &&& p.tuple_value == (7u32, 8u32)
}

/// The fixed domain-identifier record the store is built with: all-zero
/// identity and hash handles, and the balance width's extremes.
pub open spec fn substrate_types_canonical(s: SubstrateTypes) -> bool {
    &&& forall|i: int| 0 <= i < 32 ==> s.account_id_value.bytes@[i] == 0u8
    &&& forall|i: int| 0 <= i < 32 ==> s.hash_value.bytes@[i] == 0u8
    &&& s.balance_value_max == Balance::MAX
    &&& s.balance_value_min == 0u128
}

/// The fixed text record the store is built with: one literal text value and
/// two deliberately empty sequences.
pub open spec fn prelude_types_canonical(p: PreludeTypesView) -> bool {
    &&& p.string_value == "This is a string"@
    &&& p.vec_string_value == Seq::<Seq<char>>::empty()
    &&& p.vec_vec_string_value == Seq::<Seq<Seq<char>>>::empty()
}

/// What one-time construction produces: exactly the fixed literal values of
/// every category.
pub open spec fn storage_types_canonical(v: StorageTypesView) -> bool {
    &&& prelude_types_canonical(v.prelude_types)
    &&& primitive_types_canonical(v.primitive_types)
    &&& v.signed_integers == canonical_signed_integers()
    &&& substrate_types_canonical(v.substrate_types)
    &&& v.unsigned_integers == canonical_unsigned_integers()
}

impl StorageTypes {
    /// Builds the store, populated with the fixed canonical values.
    pub fn new() -> (r: Self)
        ensures
            storage_types_canonical(r@),
    {
        let mut arr: [u32; 3] = [0u32; 3];
        arr[0] = 3;
        arr[1] = 2;
        arr[2] = 1;
        let r = StorageTypes {
            prelude_types: PreludeTypes {
                string_value: "This is a string".to_owned(),
                vec_string_value: Vec::new(),
                vec_vec_string_value: Vec::new(),
            },
            primitive_types: PrimitiveTypes {
                bool_value: true,
                enum_without_values: EnumWithoutValues::A,
                enum_with_values: EnumWithValues::TheeValues(1, 2, 3),
                array_value: arr,
                tuple_value: (7, 8),
            },
            signed_integers: SignedIntegers {
                i128_value_max: i128::MAX,
                i128_value_min: i128::MIN,
                i16_value_max: i16::MAX,
                i16_value_min: i16::MIN,
                i32_value_max: i32::MAX,
                i32_value_min: i32::MIN,
                i64_value_max: i64::MAX,
                i64_value_min: i64::MIN,
                i8_value_max: i8::MAX,
                i8_value_min: i8::MIN,
            },
            substrate_types: SubstrateTypes {
                account_id_value: AccountId::from([0x00u8; 32]),
                balance_value_max: Balance::MAX,
                balance_value_min: Balance::MIN,
                hash_value: crate::catalogue::Hash::from([0x00u8; 32]),
            },
            unsigned_integers: UnsignedIntegers {
                u128_value_max: u128::MAX,
                u128_value_min: u128::MIN,
                u16_value_max: u16::MAX,
                u16_value_min: u16::MIN,
                u32_value_max: u32::MAX,
                u32_value_min: u32::MIN,
                u64_value_max: u64::MAX,
                u64_value_min: u64::MIN,
                u8_value_max: u8::MAX,
                u8_value_min: u8::MIN,
            },
        };
        proof {
            broadcast use vstd::array::group_array_axioms;

            assert(r.prelude_types.vec_string_value.deep_view() =~= Seq::<Seq<char>>::empty());
            assert(r.prelude_types.vec_vec_string_value.deep_view() =~= Seq::<
                Seq<Seq<char>>,
            >::empty());
            assert(r.primitive_types.array_value@ =~= seq![3u32, 2u32, 1u32]);
        }
        r
    }

    /// Returns an independent copy of the unsigned boundary record.
    pub fn get_unsigned_integers(&self) -> (r: UnsignedIntegers)
        ensures
            r == self.unsigned_integers,
    {
        self.unsigned_integers.clone()
    }

    /// Returns an independent copy of the signed boundary record.
    pub fn get_signed_integers(&self) -> (r: SignedIntegers)
        ensures
            r == self.signed_integers,
    {
        self.signed_integers.clone()
    }

    /// Returns an independent copy of the text record.
    pub fn get_prelude_types(&self) -> (r: PreludeTypes)
        ensures
            r@ == self.prelude_types@,
    {
        let r = PreludeTypes {
            string_value: self.prelude_types.string_value.clone(),
            vec_string_value: self.prelude_types.vec_string_value.clone(),
            vec_vec_string_value: self.prelude_types.vec_vec_string_value.clone(),
        };
        proof {
            assert(r.vec_string_value.deep_view() =~= self.prelude_types.vec_string_value.deep_view());
            assert forall|i: int|
                0 <= i < self.prelude_types.vec_vec_string_value@.len() implies #[trigger] r.vec_vec_string_value@[i].deep_view()
                == self.prelude_types.vec_vec_string_value@[i].deep_view() by {
                let a = self.prelude_types.vec_vec_string_value@[i];
                let b = r.vec_vec_string_value@[i];
                assert(vstd::pervasive::cloned::<Vec<String>>(a, b));
                if a != b {
                    assert(b.deep_view() =~= a.deep_view());
                }
            }
            assert(r.vec_vec_string_value.deep_view() =~= self.prelude_types.vec_vec_string_value.deep_view());
        }
        r
    }

    /// Returns an independent copy of the domain-identifier record.
    pub fn get_substrate_types(&self) -> (r: SubstrateTypes)
        ensures
            r == self.substrate_types,
    {
        self.substrate_types.clone()
    }

    /// Returns an independent copy of the mixed-primitive record.
    pub fn get_primitive_types(&self) -> (r: PrimitiveTypes)
        ensures
            r == self.primitive_types,
    {
        self.primitive_types.clone()
    }

    /// Always fails with the fixed sentinel error; never returns a success
    /// value.
    pub fn get_error(&self) -> (r: Result<(), Error>)
        ensures
            r == Err::<(), Error>(Error::ThisIsAnErrorEnum),
    {
        Err(Error::ThisIsAnErrorEnum)
    }
}

/// Boundary exactness: in the canonical records, each signed width's extremes
/// are `-(2^(W-1))` and `2^(W-1) - 1`, and each unsigned width's extremes are
/// zero and `2^W - 1`.
pub proof fn lemma_boundary_exactness(s: SignedIntegers, u: UnsignedIntegers)
    requires
        s == canonical_signed_integers(),
        u == canonical_unsigned_integers(),
    ensures
        s.i8_value_min as int == -(pow2(7) as int),
        s.i8_value_max as int == pow2(7) - 1,
        s.i16_value_min as int == -(pow2(15) as int),
        s.i16_value_max as int == pow2(15) - 1,
        s.i32_value_min as int == -(pow2(31) as int),
        s.i32_value_max as int == pow2(31) - 1,
        s.i64_value_min as int == -(pow2(63) as int),
        s.i64_value_max as int == pow2(63) - 1,
        s.i128_value_min as int == -(pow2(127) as int),
        s.i128_value_max as int == pow2(127) - 1,
        u.u8_value_min == 0,
        u.u8_value_max as int == pow2(8) - 1,
        u.u16_value_min == 0,
        u.u16_value_max as int == pow2(16) - 1,
        u.u32_value_min == 0,
        u.u32_value_max as int == pow2(32) - 1,
        u.u64_value_min == 0,
        u.u64_value_max as int == pow2(64) - 1,
        u.u128_value_min == 0,
        u.u128_value_max as int == pow2(128) - 1,
{
    lemma2_to64();
    lemma2_to64_rest();
    lemma_pow2_adds(64, 63);
    lemma_pow2_adds(64, 64);
}

/// Construction determinism: two root records that both hold the canonical
/// values are field-for-field equal.
pub proof fn lemma_construction_deterministic(a: StorageTypesView, b: StorageTypesView)
    requires
        storage_types_canonical(a),
        storage_types_canonical(b),
    ensures
        a == b,
{
    broadcast use vstd::array::group_array_axioms;

    assert(a.primitive_types.array_value =~= b.primitive_types.array_value);
    assert(a.substrate_types.account_id_value.bytes =~= b.substrate_types.account_id_value.bytes);
    assert(a.substrate_types.hash_value.bytes =~= b.substrate_types.hash_value.bytes);
    assert(a.prelude_types == b.prelude_types);
    assert(a.primitive_types == b.primitive_types);
    assert(a.substrate_types == b.substrate_types);
}

/// The canonical values fit the encoding's length prefixes, so a freshly
/// constructed store can always cross the serialization boundary.
pub proof fn lemma_canonical_store_encodable(v: StorageTypesView)
    requires
        storage_types_canonical(v),
    ensures
        crate::codec::storage_types_encodable(v),
{
    reveal_strlit("This is a string");
    let s = "This is a string"@;
    assert(vstd::utf8::is_ascii_chars(s)) by {
        assert forall|i: int| 0 <= i < s.len() implies '\0' <= #[trigger] s[i] <= '\u{7f}' by {}
    }
    vstd::utf8::is_ascii_chars_encode_utf8(s);
}

} // verus!
