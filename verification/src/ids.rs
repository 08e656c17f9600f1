//! Sheet identifiers as text and fresh identifiers, by the `uuid` crate.

use vstd::prelude::*;
use crate::position::SheetId;
use uuid::Uuid;

verus! {

/// The identifier that `uuid` reads from `text`, if it reads one.
pub uninterp spec fn uuid_parsed(text: Seq<char>) -> Option<u128>;

/// The text that `uuid` writes for an identifier.
pub uninterp spec fn uuid_text(id: u128) -> Seq<char>;

/// `Uuid::parse_str`: reads an identifier from text. The result is the
/// 128-bit value of the identifier that the crate reads, or `None` where it
/// reports an error.
#[verifier::external_body]
pub(crate) fn parse_uuid(text: &str) -> (r: Option<u128>)
    ensures
        r == uuid_parsed(text@),
{
    match Uuid::parse_str(text) {
        Ok(u) => Some(u.as_u128()),
        Err(_) => None,
    }
}

/// `Uuid`'s `Display`: writes the identifier with this 128-bit value as
/// text.
#[verifier::external_body]
pub(crate) fn write_uuid(id: u128) -> (r: String)
    ensures
        r@ == uuid_text(id),
{
    Uuid::from_u128(id).to_string()
}

/// Whether the 128-bit value is that of a random identifier: the four bits
/// of the version spell 4 and the two bits of the variant spell the standard
/// layout. The other 122 bits are free.
pub open spec fn is_random_uuid(id: u128) -> bool {
    id & 0x0000_0000_0000_f000_c000_0000_0000_0000u128 == 0x0000_0000_0000_4000_8000_0000_0000_0000u128
}

/// `Uuid::new_v4`: a random identifier. Of its 128-bit value only the bits
/// that the crate sets whatever was drawn are known: those of the version and
/// of the variant.
#[verifier::external_body]
pub(crate) fn random_uuid() -> (r: u128)
    ensures
        is_random_uuid(r),
{
    Uuid::new_v4().as_u128()
}

impl SheetId {
    /// A fresh identifier, drawn at random: a version 4 identifier of the
    /// standard layout, with nothing known of its other bits.
    pub fn new() -> (r: SheetId)
        ensures
            is_random_uuid(r.id),
    {
        SheetId { id: random_uuid() }
    }

    /// The identifier that `text` spells, if it spells one.
    pub fn parse(text: &str) -> (r: Option<SheetId>)
        ensures
            r == match uuid_parsed(text@) {
                Some(id) => Some(SheetId { id }),
                None => None,
            },
    {
        match parse_uuid(text) {
            Some(id) => Some(SheetId { id }),
            None => None,
        }
    }

    /// The identifier as text.
    pub fn to_text(&self) -> (r: String)
        ensures
            r@ == uuid_text(self.id),
    {
        write_uuid(self.id)
    }
}

} // verus!
