//! The calls into cryptography, encodings, chance and the clock.

use base64::Engine;
use hmac::Mac;
use rand::{Rng, RngCore};

use vstd::prelude::*;

use crate::digits::{b64_of, b64url_bytes, b64url_of};

verus! {

/// The HMAC-SHA256 tag of `data` under `key`.
pub uninterp spec fn hmac_sha256_of(key: Seq<u8>, data: Seq<u8>) -> Seq<u8>;

/// The HMAC-SHA256 tag of `data` under `key`, from the crates `hmac` and
/// `sha2`: it depends on the two alone and has 32 bytes. Every key length is
/// accepted there, so making the state cannot fail.
#[verifier::external_body]
pub(crate) fn hmac_sha256(key: &[u8], data: &[u8]) -> (r: Vec<u8>)
    ensures
        r@ == hmac_sha256_of(key@, data@),
        r@.len() == 32,
{
    let mut mac = hmac::Hmac::<sha2::Sha256>::new_from_slice(key).unwrap();
    mac.update(data);
    mac.finalize().into_bytes().to_vec()
}

/// The key that PBKDF2 with HMAC-SHA256 derives.
pub uninterp spec fn pbkdf2_of(password: Seq<u8>, salt: Seq<u8>, rounds: u32, len: usize) -> Seq<u8>;

/// The key that `pbkdf2::pbkdf2_hmac` with SHA-256 derives: it depends on the
/// arguments alone and has the length asked for.
#[verifier::external_body]
pub(crate) fn pbkdf2_sha256(password: &[u8], salt: &[u8], rounds: u32, len: usize) -> (r: Vec<u8>)
    requires
        rounds > 0,
        len <= 65536,
    ensures
        r@ == pbkdf2_of(password@, salt@, rounds, len),
        r@.len() == len,
{
    let mut key = vec![0u8; len];
    pbkdf2::pbkdf2_hmac::<sha2::Sha256>(password, salt, rounds, &mut key);
    key
}

/// The text that `base64`'s `URL_SAFE_NO_PAD` engine encodes bytes to: their
/// digits in the URL-safe alphabet, without padding.
#[verifier::external_body]
pub(crate) fn b64url_encode(b: &[u8]) -> (r: String)
    requires
        b@.len() <= usize::MAX / 4,
    ensures
        vstd::utf8::encode_utf8(r@) == b64url_of(b@),
{
    base64::engine::general_purpose::URL_SAFE_NO_PAD.encode(b)
}

/// The bytes that `base64`'s `URL_SAFE_NO_PAD` engine decodes text to: those
/// that it would encode to this very text. It admits neither padding nor bits
/// that are left over; `None` stands for its error.
#[verifier::external_body]
pub(crate) fn b64url_decode(text: &[u8]) -> (r: Option<Vec<u8>>)
    ensures
        match r {
            Some(b) => b64url_bytes(text@) == Some(b@),
            None => b64url_bytes(text@) is None,
        },
{
    base64::engine::general_purpose::URL_SAFE_NO_PAD.decode(text).ok()
}

/// The text that `base64`'s `STANDARD` engine encodes bytes to: their digits
/// in the standard alphabet, filled up with `=`.
#[verifier::external_body]
pub(crate) fn b64_encode(b: &[u8]) -> (r: String)
    requires
        b@.len() <= usize::MAX / 4,
    ensures
        r@ == b64_of(b@),
{
    base64::engine::general_purpose::STANDARD.encode(b)
}

/// The MessagePack array of six claims.
pub uninterp spec fn claims_bytes(
    user_id: u64,
    exp: u64,
    iat: u64,
    jti: u64,
    role: Seq<char>,
    allowed_dbs: Seq<u16>,
) -> Seq<u8>;

/// What bytes say as a MessagePack array of six claims.
pub uninterp spec fn six_claims(b: Seq<u8>) -> Option<(u64, u64, u64, u64, Seq<char>, Seq<u16>)>;

/// What bytes say as a MessagePack array of five claims.
pub uninterp spec fn five_claims(b: Seq<u8>) -> Option<(u64, u64, u64, u64, Seq<char>)>;

/// What bytes say as a MessagePack array of four claims.
pub uninterp spec fn four_claims(b: Seq<u8>) -> Option<(u64, u64, u64, u64)>;

/// The bytes that `rmp_serde::to_vec` writes for a tuple of six claims. They
/// depend on the claims alone, and reading them gives the claims back as long
/// as the lengths fit in 32 bits. `None` stands for its error, which comes
/// where memory runs out.
#[verifier::external_body]
pub(crate) fn encode_claims(user_id: u64, exp: u64, iat: u64, jti: u64, role: &str, allowed_dbs: &[u16]) -> (r: Option<Vec<u8>>)
    ensures
        r matches Some(b) ==> {
            &&& b@ == claims_bytes(user_id, exp, iat, jti, role@, allowed_dbs@)
            &&& vstd::utf8::encode_utf8(role@).len() <= u32::MAX && allowed_dbs@.len() <= u32::MAX ==> six_claims(b@)
                == Some((user_id, exp, iat, jti, role@, allowed_dbs@))
        },
{
    rmp_serde::to_vec(&(user_id, exp, iat, jti, role, allowed_dbs)).ok()
}

/// What `rmp_serde::from_slice` reads from bytes as a tuple of six claims,
/// which depends on the bytes alone; `None` stands for its error.
#[verifier::external_body]
pub(crate) fn decode_six(b: &[u8]) -> (r: Option<(u64, u64, u64, u64, String, Vec<u16>)>)
    ensures
        match r {
            Some(c) => six_claims(b@) == Some((c.0, c.1, c.2, c.3, c.4@, c.5@)),
            None => six_claims(b@) is None,
        },
{
    rmp_serde::from_slice::<(u64, u64, u64, u64, String, Vec<u16>)>(b).ok()
}

/// The same as a tuple of five claims.
#[verifier::external_body]
pub(crate) fn decode_five(b: &[u8]) -> (r: Option<(u64, u64, u64, u64, String)>)
    ensures
        match r {
            Some(c) => five_claims(b@) == Some((c.0, c.1, c.2, c.3, c.4@)),
            None => five_claims(b@) is None,
        },
{
    rmp_serde::from_slice::<(u64, u64, u64, u64, String)>(b).ok()
}

/// The same as a tuple of four claims.
#[verifier::external_body]
pub(crate) fn decode_four(b: &[u8]) -> (r: Option<(u64, u64, u64, u64)>)
    ensures
        match r {
            Some(c) => four_claims(b@) == Some((c.0, c.1, c.2, c.3)),
            None => four_claims(b@) is None,
        },
{
    rmp_serde::from_slice::<(u64, u64, u64, u64)>(b).ok()
}

/// A pair of a map: its name, and its value as a number, as a text, and as a
/// list whose items are taken as numbers.
pub type FieldParts = (String, Option<u64>, Option<String>, Option<Vec<Option<u64>>>);

/// What a pair of a map says.
pub type FieldView = (Seq<char>, Option<u64>, Option<Seq<char>>, Option<Seq<Option<u64>>>);

/// What pairs of a map say.
pub open spec fn field_views(fields: Seq<FieldParts>) -> Seq<FieldView> {
    fields.map_values(
        |f: FieldParts|
            (
                f.0@,
                f.1,
                match f.2 {
                    Some(t) => Some(t@),
                    None => None,
                },
                match f.3 {
                    Some(l) => Some(l@),
                    None => None,
                },
            ),
    )
}

/// What bytes say as a MessagePack map from texts to values that JSON has.
pub uninterp spec fn map_fields(b: Seq<u8>) -> Option<
    Seq<(Seq<char>, Option<u64>, Option<Seq<char>>, Option<Seq<Option<u64>>>)>,
>;

/// What `rmp_serde::from_slice` reads from bytes as a map from texts to
/// `serde_json` values, which depends on the bytes alone, in the order of the
/// names. Of a name that comes twice the later value stays; `None` stands for
/// its error.
#[verifier::external_body]
pub(crate) fn decode_map(b: &[u8]) -> (r: Option<Vec<FieldParts>>)
    ensures
        match r {
            Some(f) => map_fields(b@) == Some(field_views(f@)),
            None => map_fields(b@) is None,
        },
{
    let map = rmp_serde::from_slice::<std::collections::BTreeMap<String, serde_json::Value>>(b).ok()?;
    let numbers = |v: &serde_json::Value| v.as_array().map(|l| l.iter().map(|n| n.as_u64()).collect());
    Some(map.into_iter().map(|(k, v)| (k, v.as_u64(), v.as_str().map(|t| t.to_string()), numbers(&v))).collect())
}

/// What bytes say as a MessagePack array of small numbers, or as MessagePack
/// binary data.
pub uninterp spec fn msgpack_bytes(b: Seq<u8>) -> Option<Seq<u8>>;

/// What `rmp_serde::from_slice` reads from bytes as a byte string, which
/// depends on the bytes alone; `None` stands for its error.
#[verifier::external_body]
pub(crate) fn decode_bytes(b: &[u8]) -> (r: Option<Vec<u8>>)
    ensures
        match r {
            Some(x) => msgpack_bytes(b@) == Some(x@),
            None => msgpack_bytes(b@) is None,
        },
{
    rmp_serde::from_slice::<Vec<u8>>(b).ok()
}

/// What bytes say as a MessagePack text.
pub uninterp spec fn msgpack_text(b: Seq<u8>) -> Option<Seq<char>>;

/// What `rmp_serde::from_slice` reads from bytes as a text, which depends on
/// the bytes alone; `None` stands for its error.
#[verifier::external_body]
pub(crate) fn decode_text(b: &[u8]) -> (r: Option<String>)
    ensures
        match r {
            Some(x) => msgpack_text(b@) == Some(x@),
            None => msgpack_text(b@) is None,
        },
{
    rmp_serde::from_slice::<String>(b).ok()
}

/// What bytes say as a MessagePack array of two texts.
pub uninterp spec fn msgpack_pair(b: Seq<u8>) -> Option<(Seq<char>, Seq<char>)>;

/// What `rmp_serde::from_slice` reads from bytes as two texts, which depends
/// on the bytes alone; `None` stands for its error.
#[verifier::external_body]
pub(crate) fn decode_pair(b: &[u8]) -> (r: Option<(String, String)>)
    ensures
        match r {
            Some(x) => msgpack_pair(b@) == Some((x.0@, x.1@)),
            None => msgpack_pair(b@) is None,
        },
{
    rmp_serde::from_slice::<(String, String)>(b).ok()
}

/// The seconds since 1970, from `std::time::SystemTime::now`, or zero where
/// the clock stands before that. Nothing is promised of it.
#[verifier::external_body]
pub(crate) fn now_secs() -> (r: u64) {
    std::time::SystemTime::now().duration_since(std::time::UNIX_EPOCH).unwrap_or_default().as_secs()
}

/// A random number from `rand`'s thread generator. Nothing is promised of it.
#[verifier::external_body]
pub(crate) fn random_u64() -> (r: u64) {
    rand::thread_rng().gen()
}

/// Random bytes from `rand`'s thread generator, as many as asked for. Nothing
/// more is promised of them.
#[verifier::external_body]
pub(crate) fn random_bytes(n: usize) -> (r: Vec<u8>)
    ensures
        r@.len() == n,
{
    let mut b = vec![0u8; n];
    rand::thread_rng().fill_bytes(&mut b);
    b
}

/// Whether two byte strings are equal, in a time that depends on their
/// lengths alone.
pub fn constant_time_eq(a: &[u8], b: &[u8]) -> (r: bool)
    ensures
        r == (a@ == b@),
{
    if a.len() != b.len() {
        return false;
    }
    let mut acc: u8 = 0;
    let mut i: usize = 0;
    while i < a.len()
        invariant
            i <= a.len(),
            a.len() == b.len(),
            acc == 0 <==> forall|j: int| 0 <= j < i ==> a@[j] == b@[j],
        decreases a.len() - i,
    {
        let x: u8 = a[i];
        let y: u8 = b[i];
        let before: u8 = acc;
        acc = acc | (x ^ y);
        assert((before | (x ^ y)) == 0 <==> before == 0 && x == y) by (bit_vector);
        i = i + 1;
    }
    proof {
        if acc == 0 {
            assert(a@ =~= b@);
        }
    }
    acc == 0
}

} // verus!
