//! Session tokens: random version-4 UUIDs in their hyphenated text form.

use vstd::prelude::*;

verus! {

/// The version and variant fields of a version-4 UUID, read as a 128-bit
/// big-endian number: version nibble 4, variant bits `10`.
pub open spec fn uuid_v4_layout(bits: u128) -> bool {
    &&& (bits >> 76u128) & 0xfu128 == 4
    &&& (bits >> 62u128) & 0x3u128 == 2
}

/// Lower-case hexadecimal digit of a value below 16.
pub open spec fn hex_digit(v: int) -> char {
    if v < 10 {
        (48 + v) as char
    } else {
        (87 + v) as char
    }
}

/// The `k`-th hexadecimal digit (0 = most significant) of a 128-bit number.
pub open spec fn nibble(bits: u128, k: int) -> int {
    (bits as nat / vstd::arithmetic::power::pow(16, (31 - k) as nat) as nat) as int % 16
}

/// Which hexadecimal digit stands at text position `p` of the hyphenated form.
pub open spec fn digit_position(p: int) -> int {
    if p < 8 {
        p
    } else if p < 13 {
        p - 1
    } else if p < 18 {
        p - 2
    } else if p < 23 {
        p - 3
    } else {
        p - 4
    }
}

/// The hyphenated lower-case text of a UUID: 8-4-4-4-12 hexadecimal digits.
pub open spec fn uuid_text(bits: u128) -> Seq<char> {
    Seq::new(
        36,
        |p: int|
            if p == 8 || p == 13 || p == 18 || p == 23 {
                '-'
            } else {
                hex_digit(nibble(bits, digit_position(p)))
            },
    )
}

/// Calls `uuid::Uuid::new_v4` and reads the UUID as a `u128` (`as_u128`,
/// big-endian). The value is random; the crate fixes its version and
/// variant fields, which is all that is claimed. The crate panics when the
/// operating system's random source fails; nothing here excludes that.
#[verifier::external_body]
fn random_uuid_v4() -> (bits: u128)
    ensures
        uuid_v4_layout(bits),
{
    uuid::Uuid::new_v4().as_u128()
}

/// Calls `to_string` on `uuid::Uuid::from_u128(bits)`: the crate's `Display`
/// writes the hyphenated lower-case hexadecimal form.
#[verifier::external_body]
fn uuid_hyphenated(bits: u128) -> (s: String)
    ensures
        s@ == uuid_text(bits),
{
    uuid::Uuid::from_u128(bits).to_string()
}

/// A fresh random session token.
pub fn new_session_token() -> (t: String)
    ensures
        t@.len() == 36,
        exists|bits: u128| uuid_v4_layout(bits) && t@ == #[trigger] uuid_text(bits),
{
    let bits = random_uuid_v4();
    let t = uuid_hyphenated(bits);
    assert(uuid_v4_layout(bits) && t@ == uuid_text(bits));
    t
}

} // verus!
