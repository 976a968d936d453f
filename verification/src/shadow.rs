//! `/etc/shadow` entries hashed with SHA-512 crypt (`$6$`).

use sha_crypt::{sha512_crypt_b64, CryptError, Sha512Params, ROUNDS_DEFAULT};
use vstd::prelude::*;

verus! {

#[verifier::external_type_specification]
#[verifier::external_body]
pub struct ExCryptError(CryptError);

/// The base64 SHA-512 crypt digest of `password` under `salt`, with the
/// default number of rounds, as the `sha-crypt` crate computes it.
pub uninterp spec fn sha512_crypt_hash(password: Seq<u8>, salt: Seq<u8>) -> Seq<char>;

/// A character of the `crypt(3)` base64 alphabet `./0-9A-Za-z`.
pub open spec fn is_crypt_char(c: char) -> bool {
    c == '.' || c == '/' || ('0' <= c <= '9') || ('A' <= c <= 'Z') || ('a' <= c <= 'z')
}

/// Calls `sha_crypt::Sha512Params::new(ROUNDS_DEFAULT)` and then
/// `sha_crypt::sha512_crypt_b64`.
///
/// Claims: the call succeeds (the default round count lies within the bounds
/// that `Sha512Params::new` checks, and the base64 output is always valid
/// UTF-8), the digest is a function of the password and salt bytes alone,
/// it is 86 characters long (`PW_SIZE_SHA512`), and all of them come from the
/// `Base64ShaCrypt` alphabet of `base64ct` that `sha-crypt` encodes with.
#[verifier::external_body]
fn sha512_crypt_default_rounds(password: &[u8], salt: &[u8]) -> (r: Result<String, CryptError>)
    ensures
        r is Ok,
        r matches Ok(h) ==> h@ == sha512_crypt_hash(password@, salt@) && h@.len() == 86,
        r matches Ok(h) ==> forall|i: int| 0 <= i < h@.len() ==> is_crypt_char(#[trigger] h@[i]),
{
    let params = Sha512Params::new(ROUNDS_DEFAULT)?;
    sha512_crypt_b64(password, salt, &params)
}

/// One line of `/etc/shadow` for the SHA-512 crypt scheme.
#[derive(Clone)]
pub struct EtcShadowEntry {
    pub salt: String,
    pub hash: String,
}

/// The textual form `$6$<salt>$<hash>` of an entry.
pub open spec fn shadow_repr(salt: Seq<char>, hash: Seq<char>) -> Seq<char> {
    seq!['$', '6', '$'] + salt + seq!['$'] + hash
}

impl EtcShadowEntry {
    /// `$6$<salt>$<hash>`.
    pub fn repr(&self) -> (r: String)
        ensures
            r@ == shadow_repr(self.salt@, self.hash@),
    {
        let mut r = String::from_str("$6$");
        r.append(self.salt.as_str());
        r.append("$");
        r.append(self.hash.as_str());
        proof {
            reveal_strlit("$6$");
            reveal_strlit("$");
        }
        r
    }
}

/// The entry that stores `password` hashed under `salt`.
pub fn get_entry(password: &str, salt: &str) -> (e: EtcShadowEntry)
    ensures
        e.salt@ == salt@,
        e.hash@ == sha512_crypt_hash(vstd::utf8::encode_utf8(password@), vstd::utf8::encode_utf8(salt@)),
        e.hash@.len() == 86,
        forall|i: int| 0 <= i < e.hash@.len() ==> is_crypt_char(#[trigger] e.hash@[i]),
{
    let hashed = sha512_crypt_default_rounds(password.as_bytes(), salt.as_bytes());
    match hashed {
        Ok(hash) => EtcShadowEntry { hash, salt: salt.to_owned() },
        Err(_) => {
            proof {
                assert(false);
            }
            EtcShadowEntry { hash: String::new(), salt: salt.to_owned() }
        },
    }
}

} // verus!
