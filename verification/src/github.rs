//! Data shapes of the CI platform's payloads, and the webhook signature
//! check: an inbound webhook body is accepted only when its `sha1=<hex>`
//! header carries the HMAC-SHA1 tag of the body under the shared secret.

use vstd::prelude::*;
use hmac::Mac;
use vstd::string::StringSliceAdditionalSpecFns;

verus! {

pub struct CommitStatusEvent {
    pub target_url: String,
    pub context: String,
    pub repository: Repository,
}

pub struct Pr {
    pub head: PrCommitRef,
}

pub struct PrCommitRef {
    pub sha: String,
}

pub struct CommitMeta {
    pub commit: Commit,
}

pub struct Commit {
    pub message: String,
}

pub struct CheckRunEvent {
    pub check_run: CheckRun,
    pub repository: Repository,
}

pub struct CheckRun {
    pub url: String,
    pub external_id: String,
    pub details_url: String,
    pub app: App,
    pub check_suite: CheckSuite,
}

pub struct CheckSuite {
    pub id: u64,
    pub url: String,
}

pub struct App {
    pub id: u64,
}

pub struct Repository {
    pub full_name: String,
}

/// Why a webhook signature was rejected; each condition is disjoint from
/// the others.
#[derive(Clone, Copy, Debug, PartialEq, Eq, Structural)]
pub enum WebhookError {
    MissingSignature,
    InvalidFormat,
    InvalidHex,
    SignatureMismatch,
}

/// ASCII hex digit, either case.
pub open spec fn is_hex_digit(b: u8) -> bool {
    (48 <= b <= 57) || (97 <= b <= 102) || (65 <= b <= 70)
}

/// The value of one hex digit.
pub open spec fn hex_nibble(b: u8) -> int {
    if 48 <= b <= 57 {
        b - 48
    } else if 97 <= b <= 102 {
        b - 87
    } else if 65 <= b <= 70 {
        b - 55
    } else {
        0
    }
}

/// A string decodes as hex exactly when its length is even and every byte
/// is a hex digit.
pub open spec fn hex_decode_ok(s: Seq<u8>) -> bool {
    &&& s.len() % 2 == 0
    &&& forall|i: int| 0 <= i < s.len() ==> is_hex_digit(#[trigger] s[i])
}

/// The bytes a hex string decodes to: two digits per byte, high nibble
/// first.
pub open spec fn hex_decode_spec(s: Seq<u8>) -> Seq<u8>
    decreases s.len(),
{
    if s.len() < 2 {
        Seq::empty()
    } else {
        seq![(16 * hex_nibble(s[0]) + hex_nibble(s[1])) as u8] + hex_decode_spec(
            s.skip(2),
        )
    }
}

/// The HMAC-SHA1 tag of `msg` under `key`: a function of the two arguments
/// alone, computed by the hmac crate.
pub uninterp spec fn hmac_sha1(key: Seq<u8>, msg: Seq<u8>) -> Seq<u8>;

/// Relies on `hmac::Hmac<sha1::Sha1>` (`new_from_slice`, which accepts any
/// key length, then `update` and `finalize`): the 20-byte tag depends on the
/// key and message bytes alone.
#[verifier::external_body]
fn hmac_sha1_tag(key: &[u8], msg: &[u8]) -> (r: Vec<u8>)
    ensures
        r@ == hmac_sha1(key@, msg@),
        r@.len() == 20,
{
    let mut mac = hmac::Hmac::<sha1::Sha1>::new_from_slice(key).unwrap();
    mac.update(msg);
    mac.finalize().into_bytes().to_vec()
}

#[verifier::external_type_specification]
#[verifier::external_body]
pub struct ExFromHexError(hex::FromHexError);

/// Relies on `hex::decode`: it succeeds exactly on even-length strings of
/// hex digits (either case) and pairs digits high-nibble first.
#[verifier::external_body]
fn hex_decode(s: &[u8]) -> (r: Result<Vec<u8>, hex::FromHexError>)
    ensures
        r is Ok <==> hex_decode_ok(s@),
        r is Ok ==> r.unwrap()@ == hex_decode_spec(s@),
{
    hex::decode(s)
}

/// The bytes of the `sha1=` header prefix.
pub open spec fn sha1_prefix() -> Seq<u8> {
    seq![115u8, 104u8, 97u8, 49u8, 61u8]
}

/// The header names a well-formed tag: `sha1=` followed by valid hex.
pub open spec fn sig_well_formed(sig: Seq<u8>) -> bool {
    &&& sig.len() >= 5
    &&& sig.subrange(0, 5) == sha1_prefix()
    &&& hex_decode_ok(sig.skip(5))
}

/// The header's tag is the body's HMAC-SHA1 under the secret.
pub open spec fn sig_accepted(secret: Seq<u8>, sig: Seq<u8>, body: Seq<u8>) -> bool {
    &&& sig_well_formed(sig)
    &&& hex_decode_spec(sig.skip(5)) == hmac_sha1(secret, body)
}

/// Checks an inbound webhook's `sha1=<hex>` signature header against the
/// body's HMAC-SHA1 tag under the shared secret. Accepts exactly when the
/// header is present, well-formed, and carries that tag; each rejection
/// names its own cause.
pub fn verify_webhook_signature(secret: &[u8], signature: Option<&str>, body: &[u8]) -> (r:
    Result<(), WebhookError>)
    ensures
        match signature {
            Option::None => r == Result::<(), WebhookError>::Err(
                WebhookError::MissingSignature,
            ),
            Option::Some(sig) => {
                &&& (r is Ok <==> sig_accepted(secret@, sig.spec_bytes(), body@))
                &&& (r == Result::<(), WebhookError>::Err(WebhookError::InvalidFormat) <==> !(
                sig.spec_bytes().len() >= 5 && sig.spec_bytes().subrange(0, 5) == sha1_prefix()))
                &&& (r == Result::<(), WebhookError>::Err(WebhookError::InvalidHex) <==> (
                sig.spec_bytes().len() >= 5 && sig.spec_bytes().subrange(0, 5) == sha1_prefix()
                    && !hex_decode_ok(sig.spec_bytes().skip(5))))
                &&& (r == Result::<(), WebhookError>::Err(WebhookError::SignatureMismatch) <==> (
                sig_well_formed(sig.spec_bytes()) && hex_decode_spec(sig.spec_bytes().skip(5))
                    != hmac_sha1(secret@, body@)))
            },
        },
{
    let sig = match signature {
        Some(s) => s,
        None => {
            return Err(WebhookError::MissingSignature);
        },
    };
    let sb = sig.as_bytes();
    if sb.len() < 5 || sb[0] != 115 || sb[1] != 104 || sb[2] != 97 || sb[3] != 49 || sb[4] != 61 {
        proof {
            if sb@.len() >= 5 {
                assert(sb@.subrange(0, 5)[0] == sb@[0]);
                assert(sb@.subrange(0, 5)[1] == sb@[1]);
                assert(sb@.subrange(0, 5)[2] == sb@[2]);
                assert(sb@.subrange(0, 5)[3] == sb@[3]);
                assert(sb@.subrange(0, 5)[4] == sb@[4]);
                assert(sb@.subrange(0, 5) != sha1_prefix());
            }
        }
        return Err(WebhookError::InvalidFormat);
    }
    proof {
        assert(sb@.subrange(0, 5) =~= sha1_prefix());
    }
    let hexpart = vstd::slice::slice_subrange(sb, 5, sb.len());
    proof {
        assert(hexpart@ =~= sb@.skip(5));
    }
    let decoded = match hex_decode(hexpart) {
        Ok(d) => d,
        Err(_) => {
            return Err(WebhookError::InvalidHex);
        },
    };
    let tag = hmac_sha1_tag(secret, body);
    let c = crate::index::cmp_bytes(decoded.as_slice(), tag.as_slice());
    if c == 0 {
        Ok(())
    } else {
        Err(WebhookError::SignatureMismatch)
    }
}

} // verus!
