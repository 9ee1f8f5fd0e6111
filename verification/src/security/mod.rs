//! Security: payload encoding, password hashing and tokens, and the decisions
//! that follow a prompt-injection detection.

pub mod hex;
pub mod service;

use sha2::Digest;
use vstd::prelude::*;
use vstd::utf8::{decode_utf8, encode_utf8, valid_utf8};
use crate::ids::{is_uuid_text, new_uuid};
use crate::security::hex::{hex_bytes, hex_text, lemma_hex_round_trip, to_hex_lower};
use crate::text::{concat, matches_at, occurs_at, push_char, string_of, to_chars};

verus! {

// ---------------------------------------------------------------------------
// Outside calls
// ---------------------------------------------------------------------------

/// `hex::FromHexError`, carried opaquely.
#[verifier::external_type_specification]
#[verifier::external_body]
pub struct ExFromHexError(::hex::FromHexError);

/// `std::string::FromUtf8Error`, carried opaquely.
#[verifier::external_type_specification]
#[verifier::external_body]
pub struct ExFromUtf8Error(std::string::FromUtf8Error);

/// The SHA-256 digest of a byte string. The algorithm is not written out here.
pub uninterp spec fn sha256_of(data: Seq<u8>) -> Seq<u8>;

/// `hex::encode`: lowercase hexadecimal text, two digits per byte, high half
/// first (as the crate documents and its `HEX_CHARS_LOWER` table shows).
#[verifier::external_body]
fn hex_encode(data: &[u8]) -> (s: String)
    ensures
        s@ == hex_text(data@),
{
    ::hex::encode(data)
}

/// `hex::decode` on the bytes of `text`. It accepts digits of either case,
/// two per byte, and fails on odd length or on any other byte. Claimed here
/// over the characters of `text`: a character outside ASCII is a byte outside
/// the digits, so it fails there too.
#[verifier::external_body]
fn hex_decode(text: &str) -> (r: Result<Vec<u8>, ::hex::FromHexError>)
    ensures
        match r {
            Ok(v) => hex_bytes(text@) == Some(v@),
            Err(_) => hex_bytes(text@) is None,
        },
{
    ::hex::decode(text)
}

/// `String::from_utf8`: the text that the bytes encode, or an error when they
/// are not UTF-8.
#[verifier::external_body]
fn string_from_utf8(bytes: Vec<u8>) -> (r: Result<String, std::string::FromUtf8Error>)
    ensures
        match r {
            Ok(s) => valid_utf8(bytes@) && s@ == decode_utf8(bytes@),
            Err(_) => !valid_utf8(bytes@),
        },
{
    String::from_utf8(bytes)
}

/// `sha2::Sha256::digest`: the 32-byte SHA-256 digest of `data`, named by
/// `sha256_of`.
#[verifier::external_body]
fn sha256(data: &[u8]) -> (d: Vec<u8>)
    ensures
        d@ == sha256_of(data@),
        d@.len() == 32,
{
    sha2::Sha256::digest(data).to_vec()
}

// ---------------------------------------------------------------------------
// The model
// ---------------------------------------------------------------------------

/// Why a payload or token was refused.
#[derive(Debug, Clone, Copy, PartialEq, Eq, Structural)]
pub enum SecurityError {
    /// An encrypted payload must start with `enc:`.
    InvalidPayload,
    /// What follows `enc:` is not hexadecimal text.
    InvalidHex,
    /// The decoded bytes are not UTF-8.
    InvalidUtf8,
    /// A token must start with `token:`.
    InvalidToken,
}

pub open spec fn enc_prefix() -> Seq<char> {
    seq!['e', 'n', 'c', ':']
}

pub open spec fn hash_prefix() -> Seq<char> {
    seq!['s', 'h', 'a', '2', '5', '6', ':']
}

pub open spec fn token_prefix() -> Seq<char> {
    seq!['t', 'o', 'k', 'e', 'n', ':']
}

/// `s` begins with `prefix`.
pub open spec fn starts_with(s: Seq<char>, prefix: Seq<char>) -> bool {
    prefix.len() <= s.len() && s.subrange(0, prefix.len() as int) == prefix
}

/// What `encrypt` makes of `input`: `enc:` and the hexadecimal text of its
/// UTF-8 bytes.
pub open spec fn encrypted(input: Seq<char>) -> Seq<char> {
    enc_prefix() + hex_text(encode_utf8(input))
}

/// What `decrypt` makes of `input`.
pub open spec fn decrypted(input: Seq<char>) -> Result<Seq<char>, SecurityError> {
    if !starts_with(input, enc_prefix()) {
        Err(SecurityError::InvalidPayload)
    } else {
        match hex_bytes(input.subrange(4, input.len() as int)) {
            None => Err(SecurityError::InvalidHex),
            Some(bytes) => if valid_utf8(bytes) {
                Ok(decode_utf8(bytes))
            } else {
                Err(SecurityError::InvalidUtf8)
            },
        }
    }
}

/// What `hash_password` makes of `password`: `sha256:` and the hexadecimal
/// text of the SHA-256 digest of its UTF-8 bytes.
pub open spec fn hashed(password: Seq<char>) -> Seq<char> {
    hash_prefix() + hex_text(sha256_of(encode_utf8(password)))
}

/// A token for `user` with the identifier `id`.
pub open spec fn token_for(user: Seq<char>, id: Seq<char>) -> Seq<char> {
    token_prefix() + user + seq![':'] + id
}

/// Encoding, hashing and token handling.
pub struct SecurityManager;

impl SecurityManager {
    pub fn new() -> (m: Self) {
        SecurityManager
    }

    /// `enc:` followed by the lowercase hexadecimal text of the UTF-8 bytes of
    /// `input`.
    pub fn encrypt(&self, input: &str) -> (r: Result<String, SecurityError>)
        ensures
            r matches Ok(s) && s@ == encrypted(input@),
    {
        let prefix = "enc:";
        proof {
            reveal_strlit("enc:");
        }
        let digits = hex_encode(input.as_bytes());
        let out = concat(prefix, digits.as_str());
        Ok(out)
    }

    /// The text that an `encrypt` payload holds: refused when it does not
    /// start with `enc:`, when the rest is not hexadecimal text, or when the
    /// bytes are not UTF-8.
    pub fn decrypt(&self, input: &str) -> (r: Result<String, SecurityError>)
        ensures
            match r {
                Ok(s) => decrypted(input@) == Ok::<Seq<char>, SecurityError>(s@),
                Err(e) => decrypted(input@) == Err::<Seq<char>, SecurityError>(e),
            },
    {
        let chars = to_chars(input);
        let prefix = to_chars("enc:");
        proof {
            reveal_strlit("enc:");
        }
        assert(prefix@ =~= enc_prefix());
        if !matches_at(&chars, &prefix, 0) {
            assert(!starts_with(input@, enc_prefix())) by {
                if starts_with(input@, enc_prefix()) {
                    assert(occurs_at(chars@, prefix@, 0));
                }
            }
            return Err(SecurityError::InvalidPayload);
        }
        assert(input@.subrange(0, 4) == enc_prefix());
        let rest = string_of(&chars, 4, chars.len());
        match hex_decode(rest.as_str()) {
            Err(_) => Err(SecurityError::InvalidHex),
            Ok(bytes) => match string_from_utf8(bytes) {
                Ok(s) => Ok(s),
                Err(_) => Err(SecurityError::InvalidUtf8),
            },
        }
    }

    /// `sha256:` followed by the lowercase hexadecimal SHA-256 digest of the
    /// UTF-8 bytes of `password`.
    pub fn hash_password(&self, password: &str) -> (r: Result<String, SecurityError>)
        ensures
            r matches Ok(s) && s@ == hashed(password@) && s@.len() == 71,
    {
        let digest = sha256(password.as_bytes());
        proof {
            crate::security::hex::lemma_hex_text_len(digest@);
        }
        let digits = to_hex_lower(&digest);
        let prefix = "sha256:";
        proof {
            reveal_strlit("sha256:");
        }
        Ok(concat(prefix, digits.as_str()))
    }

    /// Whether `hash` is the hash of `password`.
    pub fn verify_password(&self, password: &str, hash: &str) -> (r: Result<bool, SecurityError>)
        ensures
            r == Ok::<bool, SecurityError>(hashed(password@) == hash@),
    {
        let own = self.hash_password(password);
        match own {
            Ok(h) => Ok(crate::text::str_equal(h.as_str(), hash)),
            Err(e) => Err(e),
        }
    }

    /// `token:`, the user, `:` and a fresh random UUID.
    pub fn generate_token(&self, user_id: &str) -> (r: Result<String, SecurityError>)
        ensures
            r matches Ok(t) && exists|id: Seq<char>| is_uuid_text(id) && t@ == token_for(user_id@, id),
    {
        let id = new_uuid();
        let mut t = concat("token:", user_id);
        proof {
            reveal_strlit("token:");
        }
        push_char(&mut t, ':');
        let t = concat(t.as_str(), id.as_str());
        assert(t@ == token_for(user_id@, id@));
        Ok(t)
    }

    /// Accepts exactly the tokens that start with `token:`.
    pub fn validate_token(&self, token: &str) -> (r: Result<(), SecurityError>)
        ensures
            r == (if starts_with(token@, token_prefix()) {
                Ok::<(), SecurityError>(())
            } else {
                Err::<(), SecurityError>(SecurityError::InvalidToken)
            }),
    {
        let chars = to_chars(token);
        let prefix = to_chars("token:");
        proof {
            reveal_strlit("token:");
        }
        assert(prefix@ =~= token_prefix());
        if matches_at(&chars, &prefix, 0) {
            assert(token@.subrange(0, 6) == token_prefix());
            Ok(())
        } else {
            assert(!starts_with(token@, token_prefix())) by {
                if starts_with(token@, token_prefix()) {
                    assert(occurs_at(chars@, prefix@, 0));
                }
            }
            Err(SecurityError::InvalidToken)
        }
    }
}

// ---------------------------------------------------------------------------
// Laws
// ---------------------------------------------------------------------------

/// Decrypting what `encrypt` made gives the input back, for every input.
pub proof fn law_decrypt_inverts_encrypt(input: Seq<char>)
    ensures
        decrypted(encrypted(input)) == Ok::<Seq<char>, SecurityError>(input),
{
    let e = encrypted(input);
    let bytes = encode_utf8(input);
    assert(e.subrange(0, 4) == enc_prefix());
    assert(e.subrange(4, e.len() as int) == hex_text(bytes));
    lemma_hex_round_trip(bytes);
    vstd::utf8::encode_utf8_valid_utf8(input);
    vstd::utf8::encode_utf8_decode_utf8(input);
}

/// Every token that `generate_token` makes is accepted by `validate_token`.
pub proof fn law_generated_tokens_validate(user: Seq<char>, id: Seq<char>)
    ensures
        starts_with(token_for(user, id), token_prefix()),
{
    assert(token_for(user, id).subrange(0, 6) == token_prefix());
}

} // verus!
