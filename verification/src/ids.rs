//! Unique identifiers: random (version 4) UUIDs held as their 128-bit value.
use vstd::prelude::*;

verus! {

/// The bits of a UUID that carry its version and variant.
pub open spec fn version_variant_mask() -> u128 {
    0x0000_0000_0000_F000_C000_0000_0000_0000u128
}

/// The version and variant bits of a random (version 4, RFC 4122 variant) UUID.
pub open spec fn version_4_bits() -> u128 {
    0x0000_0000_0000_4000_8000_0000_0000_0000u128
}

/// `value` is a version 4 UUID of the RFC 4122 variant.
pub open spec fn is_version_4(value: u128) -> bool {
    value & version_variant_mask() == version_4_bits()
}

/// Lowercase hexadecimal digit of `d < 16`.
pub open spec fn hex_digit(d: int) -> char {
    if d < 10 {
        (48 + d) as char
    } else {
        (87 + d) as char
    }
}

/// The `j`-th hexadecimal digit of `value`, counting from the most significant (`j < 32`).
pub open spec fn nibble(value: u128, j: int) -> int {
    (value as int / vstd::arithmetic::power::pow(16, (31 - j) as nat)) % 16
}

/// How many hyphens the hyphenated form has before position `i`.
pub open spec fn hyphens_before(i: int) -> int {
    if i < 9 {
        0
    } else if i < 14 {
        1
    } else if i < 19 {
        2
    } else if i < 24 {
        3
    } else {
        4
    }
}

/// The hyphenated form of a UUID: 32 lowercase hexadecimal digits, most
/// significant first, in groups of 8-4-4-4-12 separated by `-`.
pub open spec fn hyphenated(value: u128) -> Seq<char> {
    Seq::new(
        36,
        |i: int|
            if i == 8 || i == 13 || i == 18 || i == 23 {
                '-'
            } else {
                hex_digit(nibble(value, i - hyphens_before(i)))
            },
    )
}

/// `Uuid::new_v4`, taken as its value (`as_u128`): random bits with the version
/// set to 4 and the variant to RFC 4122. Nothing else is known of the value.
#[verifier::external_body]
fn random_uuid_value() -> (value: u128)
    ensures
        is_version_4(value),
{
    uuid::Uuid::new_v4().as_u128()
}

/// `Uuid::to_string` of the UUID with this value: its hyphenated lowercase form.
#[verifier::external_body]
fn uuid_text(value: u128) -> (text: String)
    ensures
        text@ == hyphenated(value),
{
    uuid::Uuid::from_u128(value).to_string()
}

/// A strongly-typed UUID.
#[derive(Debug, Clone, Copy, PartialEq, Eq, Hash)]
pub struct Id(u128);

impl Id {
    pub closed spec fn value(self) -> u128 {
        self.0
    }

    /// A fresh random identifier.
    pub fn new() -> (id: Id)
        ensures
            is_version_4(id.value()),
    {
        Id(random_uuid_value())
    }

    /// The identifier with the given 128-bit value.
    pub fn from_u128(value: u128) -> (id: Id)
        ensures
            id.value() == value,
    {
        Id(value)
    }

    /// The identifier's 128-bit value.
    pub fn as_u128(&self) -> (value: u128)
        ensures
            value == self.value(),
    {
        self.0
    }

    /// The hyphenated lowercase form of the identifier (how it is displayed).
    pub fn to_text(&self) -> (text: String)
        ensures
            text@ == hyphenated(self.value()),
    {
        uuid_text(self.0)
    }
}

impl Default for Id {
    fn default() -> (id: Id)
        ensures
            is_version_4(id.value()),
    {
        Id::new()
    }
}

} // verus!
