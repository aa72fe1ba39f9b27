//! Names of the store's records in a flat, colon-delimited key namespace.
use vstd::prelude::*;
use crate::text::{decimal, decimal_digits};

verus! {

/// `prefix` followed by the decimal notation of `id`.
pub open spec fn key_text(prefix: Seq<char>, id: u64) -> Seq<char> {
    prefix + decimal_digits(id as nat)
}

fn prefixed(prefix: &str, id: u64) -> (r: String)
    ensures
        r@ == key_text(prefix@, id),
{
    let s = String::from_str(prefix);
    let d = decimal(id);
    s.concat(d.as_str())
}

/// Key of the record of a squad.
pub fn squad_id(squad: u64) -> (r: String)
    ensures
        r@ == key_text("squad:"@, squad),
{
    prefixed("squad:", squad)
}

/// Key of the set that holds the members of a squad.
pub fn members_id(squad: u64) -> (r: String)
    ensures
        r@ == key_text("members:"@, squad),
{
    prefixed("members:", squad)
}

/// Key of the record of one member of a squad.
pub fn member_id(squad: u64, user: u64) -> (r: String)
    ensures
        r@ == key_text("member:"@, squad) + ":"@ + decimal_digits(user as nat),
{
    let s = prefixed("member:", squad);
    let s = s.concat(":");
    let d = decimal(user);
    s.concat(d.as_str())
}

/// Key of the record of a posting.
pub fn posting_id(message: u64) -> (r: String)
    ensures
        r@ == key_text("posting:"@, message),
{
    prefixed("posting:", message)
}

/// Key of the set of channels a squad was posted in.
pub fn channels_id(squad: u64) -> (r: String)
    ensures
        r@ == key_text("channels:"@, squad),
{
    prefixed("channels:", squad)
}

} // verus!
