//! Signed request construction.
//!
//! Order placement and account queries are authenticated by an HMAC-SHA-256
//! signature over the exact form-encoded query, appended in lowercase hex
//! as the final `signature` parameter.  The tag itself comes from outside
//! code (the `hmac`, `sha2` and `hex` crates) behind one trusted wrapper;
//! everything around it is verified string construction.

use vstd::prelude::*;
use hmac::{Hmac, KeyInit, Mac};
use sha2::Sha256;
use crate::decimal::{format_u64, dec_digits};

verus! {

/// The HMAC-SHA-256 tag of `msg` keyed by `key`, in lowercase hex.  The
/// tag depends on the two strings alone, so naming it is sound; nothing
/// shorter than the algorithm itself could state its value.
pub uninterp spec fn hmac_sha256_hex_of(key: Seq<char>, msg: Seq<char>) -> Seq<char>;

/// Relies on `hmac::Hmac<sha2::Sha256>` (the HMAC construction over
/// SHA-256, a pure function of key and message) and `hex::encode` (two
/// lowercase hex digits per byte of the 32-byte tag, hence 64 characters).
/// `Hmac::new_from_slice` accepts keys of any length, so it cannot fail.
#[verifier::external_body]
fn hmac_sha256_hex(key: &str, msg: &str) -> (r: String)
    ensures
        r@ == hmac_sha256_hex_of(key@, msg@),
        r@.len() == 64,
{
    let mut mac = <Hmac<Sha256> as KeyInit>::new_from_slice(key.as_bytes()).expect(
        "HMAC accepts keys of any length",
    );
    mac.update(msg.as_bytes());
    hex::encode(mac.finalize().into_bytes())
}

/// Appends the signature parameter to a form-encoded query, signing the
/// query exactly as it stands.
pub fn signed_query(query: &str, api_secret: &str) -> (r: String)
    ensures
        r@ == query@ + "&signature="@ + hmac_sha256_hex_of(api_secret@, query@),
{
    let sig = hmac_sha256_hex(api_secret, query);
    let mut r = crate::strutil::concat_str(query, "&signature=");
    r.append(sig.as_str());
    r
}

/// The unsigned account-information query: only a millisecond timestamp.
pub fn build_account_query(timestamp_ms: u64) -> (r: String)
    ensures
        r@ == "timestamp="@ + dec_digits(timestamp_ms as nat),
{
    let mut r = String::new();
    r.append("timestamp=");
    let ts = format_u64(timestamp_ms);
    r.append(ts.as_str());
    r
}

} // verus!
