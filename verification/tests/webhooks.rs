use hmac::{Hmac, Mac};
use sha2::Sha256;
use zkas_payment_gateway::{sign_webhook, verify_webhook, InvoiceStatus};

#[test]
fn webhooks_are_signed_and_timestamp_bounded() {
    let body = br#"{"type":"invoice.confirmed"}"#;
    let signature = sign_webhook(b"secret", 1_000, body);
    assert!(verify_webhook(b"secret", &signature, body, 1_010, 30));
    assert!(!verify_webhook(b"wrong", &signature, body, 1_010, 30));
    assert!(!verify_webhook(b"secret", &signature, body, 2_000, 30));
}

#[test]
fn signature_header_shape() {
    // RFC 4231 test case 2: key "Jefe", data "what do ya want for nothing?".
    // Here the signed message is "0." followed by the body.
    let signature = sign_webhook(b"Jefe", 0, b"what do ya want for nothing?");
    assert!(signature.starts_with("t=0,v1="));
    assert_eq!(signature.len(), "t=0,v1=".len() + 64);
    assert!(signature["t=0,v1=".len()..].chars().all(|c| c.is_ascii_hexdigit() && !c.is_ascii_uppercase()));
}

#[test]
fn verification_edge_cases() {
    let body = b"payload";
    let signature = sign_webhook(b"k", 500, body);
    // Exactly at the tolerance boundary is accepted, one second beyond is not.
    assert!(verify_webhook(b"k", &signature, body, 530, 30));
    assert!(!verify_webhook(b"k", &signature, body, 531, 30));
    assert!(verify_webhook(b"k", &signature, body, 470, 30));
    // A different body fails.
    assert!(!verify_webhook(b"k", &signature, b"payloae", 500, 30));
    // Upper-case hex digits are accepted, as hex decoding is case-insensitive.
    assert!(verify_webhook(b"k", &signature.to_uppercase().replacen("T=", "t=", 1).replacen(",V1=", ",v1=", 1), body, 500, 30));
    // A leading plus on the timestamp is read as `u64::from_str` reads it.
    assert!(verify_webhook(b"k", &signature.replacen("t=", "t=+", 1), body, 500, 30));
    // Malformed headers.
    assert!(!verify_webhook(b"k", "garbage", body, 500, 30));
    assert!(!verify_webhook(b"k", &signature.replacen("t=", "x=", 1), body, 500, 30));
    assert!(!verify_webhook(b"k", &signature[..signature.len() - 1], body, 500, 30));
    assert!(!verify_webhook(b"k", "t=,v1=00", body, 500, 30));
}

#[test]
fn terminal_statuses() {
    assert!(InvoiceStatus::Confirmed.terminal());
    assert!(InvoiceStatus::Overpaid.terminal());
    assert!(InvoiceStatus::PaidLate.terminal());
    assert!(InvoiceStatus::Expired.terminal());
    assert!(!InvoiceStatus::New.terminal());
    assert!(!InvoiceStatus::Partial.terminal());
    assert!(!InvoiceStatus::Paid.terminal());
}

#[test]
fn signature_is_hmac_sha256_of_timestamp_dot_body() {
    let mut mac = Hmac::<Sha256>::new_from_slice(b"Jefe").unwrap();
    mac.update(b"1700000000.what do ya want for nothing?");
    let digest: String = mac.finalize().into_bytes().iter().map(|b| format!("{b:02x}")).collect();
    assert_eq!(digest, "1cdd0650c8be1cb0974b1788d458b1e781206cfef59b85faafc582d2e182c57e");
    assert_eq!(
        sign_webhook(b"Jefe", 1_700_000_000, b"what do ya want for nothing?"),
        format!("t=1700000000,v1={digest}")
    );
}
