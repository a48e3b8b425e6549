use hmac::Mac;
use rust_log_analyzer::github::{verify_webhook_signature, WebhookError};

fn tag_for(secret: &[u8], body: &[u8]) -> Vec<u8> {
    let mut mac = hmac::Hmac::<sha1::Sha1>::new_from_slice(secret).expect("any key length works");
    mac.update(body);
    mac.finalize().into_bytes().to_vec()
}

#[test]
fn correct_signature_is_accepted() {
    let secret = b"s3cret";
    let body = b"{\"action\":\"completed\"}";
    let header = format!("sha1={}", hex::encode(tag_for(secret, body)));
    assert_eq!(verify_webhook_signature(secret, Some(&header), body), Ok(()));
}

#[test]
fn uppercase_hex_is_accepted_too() {
    let secret = b"s3cret";
    let body = b"payload";
    let header = format!("sha1={}", hex::encode_upper(tag_for(secret, body)));
    assert_eq!(verify_webhook_signature(secret, Some(&header), body), Ok(()));
}

#[test]
fn missing_signature_is_rejected() {
    assert_eq!(
        verify_webhook_signature(b"s3cret", None, b"body"),
        Err(WebhookError::MissingSignature)
    );
}

#[test]
fn wrong_prefix_is_rejected_as_format() {
    assert_eq!(
        verify_webhook_signature(b"s3cret", Some("md5=abcd"), b"body"),
        Err(WebhookError::InvalidFormat)
    );
    assert_eq!(
        verify_webhook_signature(b"s3cret", Some("sha"), b"body"),
        Err(WebhookError::InvalidFormat)
    );
}

#[test]
fn bad_hex_is_rejected_as_hex() {
    assert_eq!(
        verify_webhook_signature(b"s3cret", Some("sha1=zz"), b"body"),
        Err(WebhookError::InvalidHex)
    );
    assert_eq!(
        verify_webhook_signature(b"s3cret", Some("sha1=abc"), b"body"),
        Err(WebhookError::InvalidHex)
    );
}

#[test]
fn tampered_body_is_rejected_as_mismatch() {
    let secret = b"s3cret";
    let header = format!("sha1={}", hex::encode(tag_for(secret, b"original")));
    assert_eq!(
        verify_webhook_signature(secret, Some(&header), b"tampered"),
        Err(WebhookError::SignatureMismatch)
    );
}

#[test]
fn wrong_secret_is_rejected_as_mismatch() {
    let body = b"payload";
    let header = format!("sha1={}", hex::encode(tag_for(b"one secret", body)));
    assert_eq!(
        verify_webhook_signature(b"another secret", Some(&header), body),
        Err(WebhookError::SignatureMismatch)
    );
}
