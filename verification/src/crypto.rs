//! Cryptographic functions of outside crates, behind plain values.
use hkdf::Hkdf;
use hmac::{Hmac, Mac};
use sha2::{Digest, Sha256};
use vstd::prelude::*;

verus! {

/// The HMAC-SHA-256 of a message under a key.
pub uninterp spec fn hmac_sha256(key: Seq<u8>, message: Seq<u8>) -> Seq<u8>;

/// The bytes that HKDF-SHA-256 expands from a secret, for a salt, a label and
/// a length.
pub uninterp spec fn hkdf_sha256(salt: Seq<u8>, secret: Seq<u8>, info: Seq<u8>, len: nat) -> Seq<
    u8,
>;

/// The SHA-256 digest of a message.
pub uninterp spec fn sha256_of(message: Seq<u8>) -> Seq<u8>;

/// `sha2::Sha256` with `digest`: the digest of a message, which is 32 bytes
/// long and depends on the message alone.
#[verifier::external_body]
pub(crate) fn sha256(message: &[u8]) -> (r: Vec<u8>)
    ensures
        r@ == sha256_of(message@),
        r@.len() == 32,
{
    Sha256::digest(message).to_vec()
}

pub open spec fn hex_digit(n: int) -> char {
    if n < 10 {
        ('0' as int + n) as char
    } else {
        ('a' as int + n - 10) as char
    }
}

/// Two digits for each byte, the high half first.
pub open spec fn hex_digits(bytes: Seq<u8>) -> Seq<char> {
    Seq::new(
        2 * bytes.len(),
        |i: int|
            hex_digit(
                if i % 2 == 0 {
                    bytes[i / 2] as int / 16
                } else {
                    bytes[i / 2] as int % 16
                },
            ),
    )
}

/// `hex::encode`: bytes in lower case hexadecimal digits, two for each byte.
#[verifier::external_body]
pub(crate) fn hex_text(bytes: &[u8]) -> (r: String)
    ensures
        r@ == hex_digits(bytes@),
{
    hex::encode(bytes)
}

/// `hmac::Hmac::<Sha256>` with `finalize`: the authentication code of a
/// message, which is 32 bytes long and depends on the key and the message
/// alone. Keys of any length are taken.
#[verifier::external_body]
pub(crate) fn mac(key: &[u8], message: &[u8]) -> (r: Vec<u8>)
    ensures
        r@ == hmac_sha256(key@, message@),
        r@.len() == 32,
{
    let mut mac = <Hmac<Sha256> as Mac>::new_from_slice(key).expect("HMAC takes any key length");
    mac.update(message);
    mac.finalize().into_bytes().to_vec()
}

/// `digest::Mac::verify_truncated_left` on `hmac::Hmac::<Sha256>`: whether a
/// tag is the beginning of the message's code. An empty tag, or one longer
/// than the code, is not.
#[verifier::external_body]
pub(crate) fn mac_matches(key: &[u8], message: &[u8], tag: &[u8]) -> (r: bool)
    ensures
        r == (0 < tag@.len() <= 32 && forall|i: int|
            0 <= i < tag@.len() ==> #[trigger] tag@[i] == hmac_sha256(key@, message@)[i]),
{
    let mut mac = <Hmac<Sha256> as Mac>::new_from_slice(key).expect("HMAC takes any key length");
    mac.update(message);
    mac.verify_truncated_left(tag).is_ok()
}

/// `hkdf::Hkdf::<Sha256>::new` and `expand`: key material of the asked length,
/// which the salt, the secret and the label determine. Lengths above 255
/// hash outputs are refused by the function, and so are not asked for.
#[verifier::external_body]
pub(crate) fn derive(salt: &[u8], secret: &[u8], info: &[u8], len: usize) -> (r: Vec<u8>)
    requires
        len <= 8160,
    ensures
        r@ == hkdf_sha256(salt@, secret@, info@, len as nat),
        r@.len() == len,
{
    let mut key = vec![0; len];
    Hkdf::<Sha256>::new(Some(salt), secret).expand(info, &mut key).expect("a length in range");
    key
}

} // verus!
