//! Session tokens: a hex-encoded signing key and an HMAC-SHA-512 JWT
//! carrying the holder's email and an optional expiry.

use std::collections::BTreeMap;

use hmac::digest::KeyInit;
use hmac::Hmac;
use jwt::{AlgorithmType, Header, SignWithKey, Token};
use sha2::Sha512;
use vstd::prelude::*;

use crate::err::Error;

verus! {

/// A hexadecimal digit, either case.
pub open spec fn is_hex_digit(c: char) -> bool {
    ('0' <= c && c <= '9') || ('a' <= c && c <= 'f') || ('A' <= c && c <= 'F')
}

/// The value of one hexadecimal digit.
pub open spec fn hex_val(c: char) -> u8
    recommends
        is_hex_digit(c),
{
    if '0' <= c && c <= '9' {
        ((c as u32) - ('0' as u32)) as u8
    } else if 'a' <= c && c <= 'f' {
        (((c as u32) - ('a' as u32)) + 10) as u8
    } else {
        (((c as u32) - ('A' as u32)) + 10) as u8
    }
}

/// The bytes encoded by a hex string, two digits to a byte; a trailing
/// lone digit stands for its own value.
pub open spec fn hex_bytes(s: Seq<char>) -> Seq<u8>
    decreases s.len(),
{
    if s.len() == 0 {
        Seq::<u8>::empty()
    } else if s.len() == 1 {
        seq![hex_val(s[0])]
    } else {
        seq![(hex_val(s[0]) * 16 + hex_val(s[1])) as u8] + hex_bytes(s.skip(2))
    }
}

/// Decodes a hex string into its bytes: two digits to a byte, high digit
/// first, a trailing lone digit standing for its own value.
pub fn hex2byte_v(s: &str) -> (r: Vec<u8>)
    requires
        forall|i: int| 0 <= i < s@.len() ==> is_hex_digit(s@[i]),
    ensures
        r@ == hex_bytes(s@),
    decreases s@.len(),
{
    let len = s.unicode_len();
    if len == 0 {
        let r: Vec<u8> = Vec::new();
        proof {
            assert(r@ =~= hex_bytes(s@));
        }
        r
    } else if len == 1 {
        let mut r: Vec<u8> = Vec::new();
        r.push(hex_digit_value(s.get_char(0)));
        proof {
            assert(r@ =~= hex_bytes(s@));
        }
        r
    } else {
        let hi = hex_digit_value(s.get_char(0));
        let lo = hex_digit_value(s.get_char(1));
        let rest = s.substring_char(2, len);
        proof {
            assert(rest@ =~= s@.skip(2));
            assert forall|i: int| 0 <= i < rest@.len() implies is_hex_digit(rest@[i]) by {
                assert(rest@[i] == s@[i + 2]);
            }
        }
        let mut tail = hex2byte_v(rest);
        let mut r: Vec<u8> = Vec::new();
        r.push(hi * 16 + lo);
        r.append(&mut tail);
        proof {
            assert(r@ =~= hex_bytes(s@));
        }
        r
    }
}

/// The value of one hexadecimal digit character.
fn hex_digit_value(c: char) -> (r: u8)
    requires
        is_hex_digit(c),
    ensures
        r == hex_val(c),
        r < 16,
{
    if '0' <= c && c <= '9' {
        (c as u8) - ('0' as u8)
    } else if 'a' <= c && c <= 'f' {
        ((c as u8) - ('a' as u8)) + 10
    } else {
        ((c as u8) - ('A' as u8)) + 10
    }
}

/// The token that HMAC-SHA-512 signing yields for a key, an email claim
/// and an optional expiry claim; it depends on those three alone.
pub uninterp spec fn hs512_token_of(key: Seq<u8>, email: Seq<char>, exp: Option<u64>) -> Seq<char>;

/// Relies on jwt's Token::sign_with_key with an hmac::Hmac<sha2::Sha512>
/// key: HMAC takes a key of any length, and signing a header and a map of
/// string claims cannot fail, so a token always comes back, a function of
/// the key and the claims alone.
#[verifier::external_body]
fn sign_hs512(key: &Vec<u8>, email: &str, exp: Option<u64>) -> (r: Option<String>)
    ensures
        r is Some,
        r matches Some(t) ==> t@ == hs512_token_of(key@, email@, exp),
{
    let key: Hmac<Sha512> = match Hmac::new_from_slice(key.as_slice()) {
        Ok(k) => k,
        Err(_) => return None,
    };
    let header = Header { algorithm: AlgorithmType::Hs512, ..Default::default() };
    let mut claims = BTreeMap::new();
    if let Some(exp) = exp {
        claims.insert("exp", format!("{exp}"));
    }
    claims.insert("email", email.to_string());
    Token::new(header, claims).sign_with_key(&key).ok().map(|t| t.as_str().to_string())
}

/// Relies on std::time::SystemTime::now: the seconds since the Unix
/// epoch. The clock moves, so nothing is promised of the value.
#[verifier::external_body]
fn unix_now() -> u64 {
    match std::time::SystemTime::now().duration_since(std::time::UNIX_EPOCH) {
        Ok(d) => d.as_secs(),
        Err(_) => 0,
    }
}

/// Signs a session token for `email` with the hex-encoded key: an
/// HMAC-SHA-512 JWT whose claims carry the email and, when a lifetime is
/// given, an expiry that many seconds from now (capped at the largest
/// representable time).
pub fn gen_token(key: &str, email: String, life_op: Option<u64>) -> (r: Result<String, Error>)
    requires
        forall|i: int| 0 <= i < key@.len() ==> is_hex_digit(key@[i]),
    ensures
        r is Ok,
        life_op is None ==> (r matches Ok(t) && t@ == hs512_token_of(
            hex_bytes(key@),
            email@,
            None::<u64>,
        )),
        life_op is Some ==> (r matches Ok(t) && exists|e: u64|
            t@ == hs512_token_of(hex_bytes(key@), email@, Some(e))),
{
    let key_bytes = hex2byte_v(key);
    let exp: Option<u64> = match life_op {
        Some(life) => {
            let now = unix_now();
            match now.checked_add(life) {
                Some(e) => Some(e),
                None => Some(u64::MAX),
            }
        },
        None => None,
    };
    match sign_hs512(&key_bytes, email.as_str(), exp) {
        Some(t) => Ok(t),
        None => Err(Error::Other(String::from_str("token signing failed"))),
    }
}

} // verus!
