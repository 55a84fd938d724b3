//! The value catalogue: a closed set of shape definitions with stable binary
//! tags (for enumerations) and stable field order (for composites).
//!
//! Every entity here is immutable after construction; the canonical store in
//! [`crate::store`] holds one instance of each composite, and the byte-level
//! layout of each shape is given in [`crate::codec`].

use vstd::prelude::*;

verus! {

/// The error reported by the deliberately-failing accessor.
///
/// A single no-payload variant: it exists to prove that the error-reporting
/// path of the hosting boundary round-trips an error value correctly.
#[derive(Clone, Copy, Debug, PartialEq, Eq, Structural)]
pub enum Error {
    ThisIsAnErrorEnum,
}

/// A closed tag set with no payloads. Tag numbering (A = 0, B = 1, C = 2) is
/// stable across versions.
#[derive(Clone, Copy, Debug, PartialEq, Eq, Structural)]
pub enum EnumWithoutValues {
    A,
    B,
    C,
}

impl Default for EnumWithoutValues {
    /// The default tag is `A`.
    fn default() -> (r: Self)
        ensures
            r == EnumWithoutValues::A,
    {
        EnumWithoutValues::A
    }
}

/// A tagged union with positional payloads. Payload arity is part of each
/// tag's identity (OneValue = 0, TwoValues = 1, TheeValues = 2) and never
/// changes post-release.
#[derive(Clone, Copy, Debug, PartialEq, Eq, Structural)]
pub enum EnumWithValues {
    OneValue(u32),
    TwoValues(u32, u32),
    TheeValues(u32, u32, u32),
}

/// A composite of mixed primitive shapes. Field order is fixed; the array
/// length is fixed at 3.
#[derive(Clone, Copy, Debug, PartialEq, Eq)]
pub struct PrimitiveTypes {
    pub bool_value: bool,
    pub enum_without_values: EnumWithoutValues,
    pub enum_with_values: EnumWithValues,
    pub array_value: [u32; 3],
    pub tuple_value: (u32, u32),
}

/// Boundary values for every signed width: each pair holds the width's true
/// two's-complement minimum and maximum.
#[derive(Clone, Copy, Debug, PartialEq, Eq, Structural)]
pub struct SignedIntegers {
    pub i128_value_max: i128,
    pub i128_value_min: i128,
    pub i16_value_max: i16,
    pub i16_value_min: i16,
    pub i32_value_max: i32,
    pub i32_value_min: i32,
    pub i64_value_max: i64,
    pub i64_value_min: i64,
    pub i8_value_max: i8,
    pub i8_value_min: i8,
}

/// Boundary values for every unsigned width: each minimum is the width's
/// zero, each maximum the width's all-ones value.
#[derive(Clone, Copy, Debug, PartialEq, Eq, Structural)]
pub struct UnsignedIntegers {
    pub u128_value_max: u128,
    pub u128_value_min: u128,
    pub u16_value_max: u16,
    pub u16_value_min: u16,
    pub u32_value_max: u32,
    pub u32_value_min: u32,
    pub u64_value_max: u64,
    pub u64_value_min: u64,
    pub u8_value_max: u8,
    pub u8_value_min: u8,
}

/// A fixed-width balance quantity.
pub type Balance = u128;

/// An opaque 32-byte identity handle. Never interpreted as an integer.
#[derive(Clone, Copy, Debug, PartialEq, Eq)]
pub struct AccountId {
    pub bytes: [u8; 32],
}

impl From<[u8; 32]> for AccountId {
    fn from(bytes: [u8; 32]) -> (r: Self) {
        AccountId { bytes }
    }
}

impl vstd::std_specs::convert::FromSpecImpl<[u8; 32]> for AccountId {
    open spec fn obeys_from_spec() -> bool {
        true
    }

    open spec fn from_spec(bytes: [u8; 32]) -> Self {
        AccountId { bytes }
    }
}

/// An opaque 32-byte content hash. Never interpreted as an integer.
#[derive(Clone, Copy, Debug, PartialEq, Eq)]
pub struct Hash {
    pub bytes: [u8; 32],
}

impl From<[u8; 32]> for Hash {
    fn from(bytes: [u8; 32]) -> (r: Self) {
        Hash { bytes }
    }
}

impl vstd::std_specs::convert::FromSpecImpl<[u8; 32]> for Hash {
    open spec fn obeys_from_spec() -> bool {
        true
    }

    open spec fn from_spec(bytes: [u8; 32]) -> Self {
        Hash { bytes }
    }
}

/// Fixed-width domain identifiers: an identity handle, a content hash, and
/// the boundary values of the balance width.
#[derive(Clone, Copy, Debug, PartialEq, Eq)]
pub struct SubstrateTypes {
    pub account_id_value: AccountId,
    pub balance_value_max: Balance,
    pub balance_value_min: Balance,
    pub hash_value: Hash,
}

/// Variable-length text structures: one text value, one sequence of text,
/// and one sequence of sequences of text. The sequences may be empty.
#[derive(Clone, Debug, PartialEq, Eq)]
pub struct PreludeTypes {
    pub string_value: String,
    pub vec_string_value: Vec<String>,
    pub vec_vec_string_value: Vec<Vec<String>>,
}

/// The mathematical value of a [`PreludeTypes`] record: each text field as
/// its character sequence.
pub ghost struct PreludeTypesView {
    pub string_value: Seq<char>,
    pub vec_string_value: Seq<Seq<char>>,
    pub vec_vec_string_value: Seq<Seq<Seq<char>>>,
}

impl View for PreludeTypes {
    type V = PreludeTypesView;

    open spec fn view(&self) -> PreludeTypesView {
        PreludeTypesView {
            string_value: self.string_value@,
            vec_string_value: self.vec_string_value.deep_view(),
            vec_vec_string_value: self.vec_vec_string_value.deep_view(),
        }
    }
}

/// The aggregate root record: one of each composite category, each
/// exclusively owned.
#[derive(Clone, Debug, PartialEq, Eq)]
pub struct StorageTypes {
    pub prelude_types: PreludeTypes,
    pub primitive_types: PrimitiveTypes,
    pub signed_integers: SignedIntegers,
    pub substrate_types: SubstrateTypes,
    pub unsigned_integers: UnsignedIntegers,
}

/// The mathematical value of a [`StorageTypes`] record.
pub ghost struct StorageTypesView {
    pub prelude_types: PreludeTypesView,
    pub primitive_types: PrimitiveTypes,
    pub signed_integers: SignedIntegers,
    pub substrate_types: SubstrateTypes,
    pub unsigned_integers: UnsignedIntegers,
}

impl View for StorageTypes {
    type V = StorageTypesView;

    open spec fn view(&self) -> StorageTypesView {
        StorageTypesView {
            prelude_types: self.prelude_types@,
            primitive_types: self.primitive_types,
            signed_integers: self.signed_integers,
            substrate_types: self.substrate_types,
            unsigned_integers: self.unsigned_integers,
        }
    }
}

} // verus!
