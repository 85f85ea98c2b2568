//! Webhook signatures (`t=<unix>,v1=<HMAC-SHA256>` over `timestamp + "." + body`)
//! and random identifiers.

use crate::text::{
    chars_of, decimal, decimal_string, digit_char, hex_decode, hex_decode_chars, hex_encode, hex_lower,
    is_digit, lemma_decimal_parses, lemma_hex_roundtrip, lemma_parse_decimal,
    parse_decimal_chars, parse_u64, push_char,
};
use hmac::{Hmac, Mac};
use rand::RngCore;
use sha2::Sha256;
use vstd::prelude::*;

verus! {

/// The HMAC-SHA256 tag of `message` under `key`.
pub uninterp spec fn hmac_sha256_tag(key: Seq<u8>, message: Seq<u8>) -> Seq<u8>;

/// Computes `Hmac::<Sha256>` over `message` with `key` (`new_from_slice`,
/// `update`, `finalize`); the contract names the tag as a function of both.
#[verifier::external_body]
fn hmac_sha256(key: &[u8], message: &[u8]) -> (r: [u8; 32])
    ensures
        r@ == hmac_sha256_tag(key@, message@),
{
    let mut mac = Hmac::<Sha256>::new_from_slice(key).expect("HMAC accepts keys of any length");
    mac.update(message);
    mac.finalize().into_bytes().into()
}

/// Checks `tag` with `Mac::verify_slice` (a constant-time comparison that
/// fails on a tag of another length); the contract says it accepts exactly
/// the tag that `hmac_sha256_tag` names.
#[verifier::external_body]
fn hmac_sha256_verify(key: &[u8], message: &[u8], tag: &[u8]) -> (r: bool)
    ensures
        r == (tag@ == hmac_sha256_tag(key@, message@)),
{
    let mut mac = Hmac::<Sha256>::new_from_slice(key).expect("HMAC accepts keys of any length");
    mac.update(message);
    mac.verify_slice(tag).is_ok()
}

/// Fills 16 bytes from the operating system's random source
/// (`rand::rngs::OsRng::fill_bytes`); nothing is claimed of the bytes.
#[verifier::external_body]
fn random_bytes() -> (r: [u8; 16]) {
    let mut bytes = [0u8; 16];
    rand::rngs::OsRng.fill_bytes(&mut bytes);
    bytes
}

/// `prefix`, an underscore and the lower-case hex of `bytes`.
pub open spec fn id_text(prefix: Seq<char>, bytes: Seq<u8>) -> Seq<char> {
    prefix + seq!['_'] + hex_lower(bytes)
}

/// Whether `id` is `prefix`, an underscore and 32 lower-case hex digits.
pub open spec fn is_random_id(prefix: Seq<char>, id: Seq<char>) -> bool {
    exists|bytes: Seq<u8>| bytes.len() == 16 && id == #[trigger] id_text(prefix, bytes)
}

/// Builds the identifier `<prefix>_<hex(bytes)>`.
pub fn prefixed_id(prefix: &str, bytes: &[u8]) -> (r: String)
    ensures
        r@ == id_text(prefix@, bytes@),
{
    let mut s = String::from_str(prefix);
    push_char(&mut s, '_');
    let hex = hex_encode(bytes);
    s.append(hex.as_str());
    s
}

/// A fresh identifier `<prefix>_<32 hex digits>` from 128 random bits.
pub fn random_id(prefix: &str) -> (r: String)
    ensures
        is_random_id(prefix@, r@),
{
    let bytes = random_bytes();
    let r = prefixed_id(prefix, bytes.as_slice());
    assert(bytes@.len() == 16);
    assert(r@ == id_text(prefix@, bytes@));
    r
}

/// The ASCII codes of the decimal representation of `n`.
pub open spec fn decimal_bytes(n: nat) -> Seq<u8> {
    decimal(n).map_values(|c: char| c as u8)
}

/// The signed message: the decimal timestamp, a dot, then the exact body.
pub open spec fn webhook_message(timestamp: u64, body: Seq<u8>) -> Seq<u8> {
    decimal_bytes(timestamp as nat) + seq![46u8] + body
}

/// The separator between the timestamp and the digest in a signature header.
pub open spec fn digest_separator() -> Seq<char> {
    seq![',', 'v', '1', '=']
}

/// The signature header: `t=<timestamp>,v1=<lower-case hex HMAC-SHA256>`.
pub open spec fn webhook_signature(secret: Seq<u8>, timestamp: u64, body: Seq<u8>) -> Seq<char> {
    seq!['t', '='] + decimal(timestamp as nat) + digest_separator() + hex_lower(
        hmac_sha256_tag(secret, webhook_message(timestamp, body)),
    )
}

fn append_decimal_bytes(v: &mut Vec<u8>, n: u64)
    ensures
        final(v)@ == old(v)@ + decimal_bytes(n as nat),
    decreases n,
{
    if n >= 10 {
        append_decimal_bytes(v, n / 10);
    }
    let d: u8 = (n % 10) as u8;
    let b: u8 = 48u8 + d;
    v.push(b);
    proof {
        let c = digit_char(d as int);
        assert(c as u8 == b);
        if n >= 10 {
            assert(decimal(n as nat) == decimal((n / 10) as nat).push(c));
            assert(decimal_bytes(n as nat) =~= decimal_bytes((n / 10) as nat).push(b));
        } else {
            assert(decimal_bytes(n as nat) =~= seq![b]);
        }
    }
}

/// The bytes that are signed for `timestamp` and `body`.
fn message_bytes(timestamp: u64, body: &[u8]) -> (r: Vec<u8>)
    ensures
        r@ == webhook_message(timestamp, body@),
{
    let mut v: Vec<u8> = Vec::new();
    append_decimal_bytes(&mut v, timestamp);
    v.push(46u8);
    let mut i: usize = 0;
    let ghost head = v@;
    while i < body.len()
        invariant
            i <= body@.len(),
            v@ == head + body@.take(i as int),
        decreases body@.len() - i,
    {
        v.push(body[i]);
        assert(body@.take(i + 1) =~= body@.take(i as int).push(body@[i as int]));
        i = i + 1;
    }
    assert(body@.take(body@.len() as int) =~= body@);
    assert(v@ =~= webhook_message(timestamp, body@));
    v
}

/// Signs a webhook body for the `ZKas-Signature` header.
pub fn sign_webhook(secret: &[u8], timestamp: u64, body: &[u8]) -> (r: String)
    ensures
        r@ == webhook_signature(secret@, timestamp, body@),
        hmac_sha256_tag(secret@, webhook_message(timestamp, body@)).len() == 32,
        r@.len() == 2 + decimal(timestamp as nat).len() + 4 + 64,
{
    let message = message_bytes(timestamp, body);
    let tag = hmac_sha256(secret, message.as_slice());
    let mut s = String::new();
    push_char(&mut s, 't');
    push_char(&mut s, '=');
    let digits = decimal_string(timestamp);
    s.append(digits.as_str());
    push_char(&mut s, ',');
    push_char(&mut s, 'v');
    push_char(&mut s, '1');
    push_char(&mut s, '=');
    let hex = hex_encode(tag.as_slice());
    s.append(hex.as_str());
    assert(s@ =~= webhook_signature(secret@, timestamp, body@));
    s
}


/// The distance between two instants.
pub open spec fn abs_diff(a: u64, b: u64) -> nat {
    if a >= b {
        (a - b) as nat
    } else {
        (b - a) as nat
    }
}

/// The position of the first `,v1=` in `s` at or after `from`, if any
/// (where `str::split_once` splits).
pub open spec fn first_separator_from(s: Seq<char>, from: nat) -> Option<nat>
    decreases s.len() - from,
{
    if from + 4 > s.len() {
        None
    } else if s.subrange(from as int, from + 4int) == digest_separator() {
        Some(from)
    } else {
        first_separator_from(s, from + 1)
    }
}

/// The timestamp of the part before the separator: `t=` then a decimal
/// number as `str::parse::<u64>` reads it.
pub open spec fn signed_timestamp(time: Seq<char>) -> Option<u64> {
    if time.len() >= 2 && time[0] == 't' && time[1] == '=' {
        parse_u64(time.skip(2))
    } else {
        None
    }
}

/// Whether a signature header is accepted for `body` at time `now`: it splits
/// at its first `,v1=`, the part before reads as `t=<timestamp>` with the
/// timestamp at most `tolerance` seconds away from `now`, and the part after
/// is the hex of the HMAC-SHA256 of the decimal timestamp, a dot and the body.
pub open spec fn webhook_signature_accepted(
    secret: Seq<u8>,
    signature: Seq<char>,
    body: Seq<u8>,
    now: u64,
    tolerance: u64,
) -> bool {
    match first_separator_from(signature, 0) {
        None => false,
        Some(i) => match signed_timestamp(signature.take(i as int)) {
            None => false,
            Some(timestamp) => abs_diff(now, timestamp) <= tolerance && match hex_decode(
                signature.skip(i + 4int),
            ) {
                None => false,
                Some(tag) => tag == hmac_sha256_tag(secret, webhook_message(timestamp, body)),
            },
        },
    }
}

fn find_separator(cs: &[char]) -> (r: Option<usize>)
    ensures
        match r {
            Some(i) => first_separator_from(cs@, 0) == Some(i as nat) && i + 4 <= cs@.len(),
            None => first_separator_from(cs@, 0) is None,
        },
{
    let mut i: usize = 0;
    while cs.len() >= 4 && i <= cs.len() - 4
        invariant
            i <= cs@.len(),
            first_separator_from(cs@, 0) == first_separator_from(cs@, i as nat),
        decreases cs@.len() - i,
    {
        if cs[i] == ',' && cs[i + 1] == 'v' && cs[i + 2] == '1' && cs[i + 3] == '=' {
            assert(cs@.subrange(i as int, i + 4) =~= digest_separator());
            return Some(i);
        }
        assert(cs@.subrange(i as int, i + 4) != digest_separator()) by {
            if cs@.subrange(i as int, i + 4) == digest_separator() {
                assert(cs@.subrange(i as int, i + 4)[0] == cs@[i as int]);
                assert(cs@.subrange(i as int, i + 4)[1] == cs@[i + 1]);
                assert(cs@.subrange(i as int, i + 4)[2] == cs@[i + 2]);
                assert(cs@.subrange(i as int, i + 4)[3] == cs@[i + 3]);
            }
        }
        i = i + 1;
    }
    None
}

/// Checks a `ZKas-Signature` header against the exact body, rejecting
/// timestamps more than `tolerance` seconds away from `now`.
pub fn verify_webhook(secret: &[u8], signature: &str, body: &[u8], now: u64, tolerance: u64) -> (r:
    bool)
    ensures
        r == webhook_signature_accepted(secret@, signature@, body@, now, tolerance),
{
    let chars = chars_of(signature);
    let cs = chars.as_slice();
    let sep = match find_separator(cs) {
        Some(i) => i,
        None => {
            return false;
        },
    };
    let ghost time = cs@.take(sep as int);
    assert(cs@ == signature@);
    if sep < 2 || cs[0] != 't' || cs[1] != '=' {
        assert(signed_timestamp(time) is None) by {
            if sep >= 2 {
                assert(time[0] == cs@[0]);
                assert(time[1] == cs@[1]);
            }
        }
        return false;
    }
    assert(time[0] == cs@[0]);
    assert(time[1] == cs@[1]);
    let digits = &cs[2..sep];
    assert(digits@ =~= cs@.take(sep as int).skip(2));
    let timestamp = match parse_decimal_chars(digits) {
        Some(t) => t,
        None => {
            return false;
        },
    };
    let distance = if now >= timestamp {
        now - timestamp
    } else {
        timestamp - now
    };
    if distance > tolerance {
        return false;
    }
    let hex = &cs[sep + 4..cs.len()];
    assert(hex@ =~= cs@.skip(sep + 4));
    let tag = match hex_decode_chars(hex) {
        Some(t) => t,
        None => {
            return false;
        },
    };
    let message = message_bytes(timestamp, body);
    hmac_sha256_verify(secret, message.as_slice(), tag.as_slice())
}


proof fn lemma_first_separator(s: Seq<char>, from: nat, k: nat)
    requires
        from <= k,
        k + 4 <= s.len(),
        s.subrange(k as int, k + 4int) == digest_separator(),
        forall|j: int| from <= j < k ==> s[j] != ',',
    ensures
        first_separator_from(s, from) == Some(k),
    decreases k - from,
{
    if from < k {
        assert(s.subrange(from as int, from + 4int)[0] == s[from as int]);
        lemma_first_separator(s, from + 1, k);
    }
}

/// A signature made for a body is accepted for that body exactly when its
/// timestamp lies within the tolerance of `now`.
pub proof fn lemma_signed_webhook_verifies(
    secret: Seq<u8>,
    timestamp: u64,
    body: Seq<u8>,
    now: u64,
    tolerance: u64,
)
    ensures
        webhook_signature_accepted(
            secret,
            webhook_signature(secret, timestamp, body),
            body,
            now,
            tolerance,
        ) == (abs_diff(now, timestamp) <= tolerance),
{
    let d = decimal(timestamp as nat);
    let tag = hmac_sha256_tag(secret, webhook_message(timestamp, body));
    let sig = webhook_signature(secret, timestamp, body);
    let k = (2 + d.len()) as nat;
    lemma_decimal_parses(timestamp as nat);
    lemma_parse_decimal(timestamp);
    lemma_hex_roundtrip(tag);
    assert forall|j: int| 0 <= j < k implies sig[j] != ',' by {
        if j >= 2 {
            assert(sig[j] == d[j - 2]);
            assert(is_digit(d[j - 2]));
        }
    }
    assert(sig.subrange(k as int, k + 4int) =~= digest_separator());
    lemma_first_separator(sig, 0, k);
    assert(sig.take(k as int).skip(2) =~= d);
    assert(sig.skip(k + 4int) =~= hex_lower(tag));
}

} // verus!
