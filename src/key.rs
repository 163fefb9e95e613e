//! Derivation of the authorization token from the configured key text.

use vstd::prelude::*;
use vstd::string::*;

verus! {

/// Byte length of an Ed25519 signing secret key (seed followed by public key).
pub const SECRET_KEY_BYTES: usize = 64;

/// Byte length of an Ed25519 public key.
pub const PUBLIC_KEY_BYTES: usize = 32;

/// Length of the base64 text of a public key, and so of a derived or
/// generated token.
pub const TOKEN_CHARS: usize = 44;

/// What standard base64 decoding yields for a text; `None` when it is not base64.
pub uninterp spec fn base64_decoded(s: Seq<char>) -> Option<Seq<u8>>;

/// The standard, padded base64 text of some bytes.
pub uninterp spec fn base64_encoded(b: Seq<u8>) -> Seq<char>;

/// Relies on `base64::decode` (standard alphabet): the decoded bytes, or an
/// error when the text is not valid base64. Every four characters decode to
/// at most three bytes.
#[verifier::external_body]
fn decode_base64(s: &str) -> (r: Option<Vec<u8>>)
    ensures
        match r {
            Some(v) => base64_decoded(s@) == Some(v@) && v@.len() <= s@.len(),
            None => base64_decoded(s@) is None,
        },
{
    base64::decode(s).ok()
}

/// Relies on `base64::encode` (standard alphabet, padded): four characters
/// for each started group of three bytes.
#[verifier::external_body]
fn encode_base64(b: &[u8]) -> (r: String)
    ensures
        r@ == base64_encoded(b@),
        r@.len() == 4 * ((b@.len() + 2) / 3),
{
    base64::encode(b)
}

/// Relies on `sodiumoxide::crypto::sign::gen_keypair`: a fresh random
/// Ed25519 key pair, of which the public key's bytes are returned.
#[verifier::external_body]
fn fresh_public_key() -> (r: Vec<u8>)
    ensures
        r@.len() == PUBLIC_KEY_BYTES,
{
    let (pk, _sk) = sodiumoxide::crypto::sign::gen_keypair();
    pk.0.to_vec()
}

/// A key text that asks for a freshly generated key pair.
pub open spec fn is_placeholder_spec(k: Seq<char>) -> bool {
    k == seq!['-'] || k == seq!['_']
}

/// The public half of a signing secret key, when the bytes have a secret key's length.
pub open spec fn secret_key_half_spec(sk: Seq<u8>) -> Option<Seq<u8>> {
    if sk.len() == SECRET_KEY_BYTES {
        Some(sk.subrange((SECRET_KEY_BYTES / 2) as int, SECRET_KEY_BYTES as int))
    } else {
        None
    }
}

/// The token that the configured text names, before a placeholder is replaced:
/// the encoded second half when the text decodes to a secret key, else the
/// text itself. A text shorter than a secret key cannot decode to one.
pub open spec fn stated_token(key: Seq<char>) -> Seq<char> {
    if key.len() < SECRET_KEY_BYTES {
        key
    } else {
        match base64_decoded(key) {
            Some(sk) => match secret_key_half_spec(sk) {
                Some(half) => base64_encoded(half),
                None => key,
            },
            None => key,
        }
    }
}

/// `r` is a token that the configured text `key` may yield: the stated token,
/// or for a placeholder the base64 text of some public key. A token that is
/// not the key text itself is always [`TOKEN_CHARS`] long.
pub open spec fn is_token_of(key: Seq<char>, r: Seq<char>) -> bool {
    let s = stated_token(key);
    if is_placeholder_spec(s) {
        &&& r.len() == TOKEN_CHARS
        &&& exists|pk: Seq<u8>| pk.len() == PUBLIC_KEY_BYTES && r == base64_encoded(pk)
    } else {
        &&& r == s
        &&& s != key ==> s.len() == TOKEN_CHARS
    }
}

/// A token that the derivation yields derives to itself: feeding it back as
/// the configured text gives it again. A placeholder yields a token that is
/// neither empty nor the placeholder.
pub proof fn lemma_token_is_fixed_point(key: Seq<char>, r: Seq<char>, again: Seq<char>)
    requires
        is_token_of(key, r),
        is_token_of(r, again),
    ensures
        again == r,
        is_placeholder_spec(key) ==> r.len() == TOKEN_CHARS && r != key,
{
    assert(seq!['-'].len() == 1);
    assert(seq!['_'].len() == 1);
}

/// Whether the key text is a placeholder (`-` or `_`).
pub fn is_placeholder(key: &str) -> (r: bool)
    ensures
        r == is_placeholder_spec(key@),
{
    if key.unicode_len() != 1 {
        return false;
    }
    let c = key.get_char(0);
    proof {
        if c == '-' || c == '_' {
            assert(key@ =~= seq![c]);
        }
    }
    c == '-' || c == '_'
}

/// The second half of a signing secret key, which holds its public key;
/// `None` when the bytes are not a secret key's length.
pub fn secret_key_half(sk: &[u8]) -> (r: Option<&[u8]>)
    ensures
        match r {
            Some(h) => secret_key_half_spec(sk@) == Some(h@),
            None => secret_key_half_spec(sk@) is None,
        },
{
    if sk.len() == SECRET_KEY_BYTES {
        let h = &sk[SECRET_KEY_BYTES / 2..SECRET_KEY_BYTES];
        Some(h)
    } else {
        None
    }
}

/// The token named by a configured key text, without replacing a placeholder.
pub fn stated_token_of(key: &str) -> (r: String)
    ensures
        r@ == stated_token(key@),
        r@ != key@ ==> r@.len() == TOKEN_CHARS,
        match base64_decoded(key@) {
            Some(sk) => sk.len() == SECRET_KEY_BYTES ==> key@.len() >= SECRET_KEY_BYTES && r@
                == base64_encoded(
                sk.subrange((SECRET_KEY_BYTES / 2) as int, SECRET_KEY_BYTES as int),
            ),
            None => true,
        },
{
    match decode_base64(key) {
        Some(sk) => match secret_key_half(sk.as_slice()) {
            Some(half) => encode_base64(half),
            None => key.to_owned(),
        },
        None => key.to_owned(),
    }
}

/// The effective authorization token for a configured key text.
///
/// A text that decodes as base64 to a signing secret key yields the base64
/// text of the key's second half. A placeholder yields the base64 text of a
/// freshly generated public key. Any other text, the empty one included, is
/// the token as it stands; an empty token disables authorization.
pub fn get_server_sk(key: &str) -> (r: String)
    ensures
        is_token_of(key@, r@),
        key@.len() < SECRET_KEY_BYTES && !is_placeholder_spec(key@) ==> r@ == key@,
        match base64_decoded(key@) {
            Some(sk) => sk.len() == SECRET_KEY_BYTES ==> r@ == base64_encoded(
                sk.subrange((SECRET_KEY_BYTES / 2) as int, SECRET_KEY_BYTES as int),
            ),
            None => true,
        },
        is_placeholder_spec(key@) ==> r@.len() == TOKEN_CHARS && exists|pk: Seq<u8>|
            pk.len() == PUBLIC_KEY_BYTES && r@ == base64_encoded(pk),
{
    let stated = stated_token_of(key);
    if is_placeholder(stated.as_str()) {
        let pk = fresh_public_key();
        encode_base64(pk.as_slice())
    } else {
        stated
    }
}

} // verus!
