//! The WebAuthn ceremony engine boundary: relying-party configuration and
//! the cryptographic challenge/response calls, together with random-id
//! generation and the credential blob encoding.
//!
//! Everything here is a thin trusted wrapper around an outside call; the
//! ceremony lifecycle and storage orchestration built on top of it are
//! verified in the rest of the crate.

use vstd::prelude::*;

verus! {

#[verifier::external_type_specification]
#[verifier::external_body]
pub struct ExWebauthn(webauthn_rs::Webauthn);

#[verifier::external_type_specification]
#[verifier::external_body]
pub struct ExWebauthnError(webauthn_rs::prelude::WebauthnError);

#[verifier::external_type_specification]
#[verifier::external_body]
pub struct ExCreationChallengeResponse(webauthn_rs::prelude::CreationChallengeResponse);

#[verifier::external_type_specification]
#[verifier::external_body]
pub struct ExRequestChallengeResponse(webauthn_rs::prelude::RequestChallengeResponse);

#[verifier::external_type_specification]
#[verifier::external_body]
pub struct ExPasskeyRegistration(webauthn_rs::prelude::PasskeyRegistration);

#[verifier::external_type_specification]
#[verifier::external_body]
pub struct ExPasskeyAuthentication(webauthn_rs::prelude::PasskeyAuthentication);

#[verifier::external_type_specification]
#[verifier::external_body]
pub struct ExPasskey(webauthn_rs::prelude::Passkey);

#[verifier::external_type_specification]
#[verifier::external_body]
pub struct ExRegisterPublicKeyCredential(webauthn_rs::prelude::RegisterPublicKeyCredential);

#[verifier::external_type_specification]
#[verifier::external_body]
pub struct ExPublicKeyCredential(webauthn_rs::prelude::PublicKeyCredential);

#[verifier::external_type_specification]
#[verifier::external_body]
pub struct ExAuthenticationResult(webauthn_rs::prelude::AuthenticationResult);

/// Relies on uuid::Uuid::new_v4: a freshly drawn random 128-bit identifier.
/// Nothing can be promised of a random value; callers handle every outcome.
#[verifier::external_body]
pub(crate) fn fresh_id() -> u128 {
    uuid::Uuid::new_v4().as_u128()
}

/// Whether the relying-party configuration — an identifier and an origin
/// URL, both as strings — is one the engine accepts. Both of the underlying
/// checks depend on the two strings alone.
pub uninterp spec fn rp_config_ok(rp_id: Seq<char>, rp_origin: Seq<char>) -> bool;

/// Relies on url::Url::parse, webauthn_rs::WebauthnBuilder::new and
/// WebauthnBuilder::build: parsing succeeds exactly on a syntactically valid
/// URL (a function of the string alone), `new` accepts exactly when `rp_id`
/// is an effective domain of the parsed origin, and `build` never fails. So
/// the engine is produced exactly when the configuration is acceptable,
/// which `rp_config_ok` names.
#[verifier::external_body]
pub(crate) fn build_webauthn(rp_id: &str, rp_origin: &str) -> (r: Option<webauthn_rs::Webauthn>)
    ensures
        r is Some <==> rp_config_ok(rp_id@, rp_origin@),
{
    let origin = url::Url::parse(rp_origin).ok()?;
    let builder = webauthn_rs::WebauthnBuilder::new(rp_id, &origin).ok()?;
    builder.build().ok()
}

/// Relies on webauthn_rs::Webauthn::start_passkey_registration: draws a
/// fresh challenge for the given user identity (the account name doubles as
/// the display name, and no credentials are excluded). Its one failure is an
/// empty user name; the user id, sixteen uuid bytes, is never empty.
#[verifier::external_body]
pub(crate) fn start_passkey_registration(
    webauthn: &webauthn_rs::Webauthn,
    user_id: u128,
    user_name: &str,
) -> (r: Result<
    (webauthn_rs::prelude::CreationChallengeResponse, webauthn_rs::prelude::PasskeyRegistration),
    webauthn_rs::prelude::WebauthnError,
>)
    ensures
        r is Ok <==> user_name@.len() > 0,
{
    webauthn.start_passkey_registration(uuid::Uuid::from_u128(user_id), user_name, user_name, None)
}

/// Relies on webauthn_rs::Webauthn::finish_passkey_registration: verifies
/// the signed response against the stored ceremony state and returns the
/// new credential, or an error when the signature, origin or challenge do
/// not match.
#[verifier::external_body]
pub(crate) fn finish_passkey_registration(
    webauthn: &webauthn_rs::Webauthn,
    reg: &webauthn_rs::prelude::RegisterPublicKeyCredential,
    state: &webauthn_rs::prelude::PasskeyRegistration,
) -> Result<webauthn_rs::prelude::Passkey, webauthn_rs::prelude::WebauthnError> {
    webauthn.finish_passkey_registration(reg, state)
}

/// Relies on webauthn_rs::Webauthn::start_passkey_authentication: draws a
/// fresh challenge offering the given credentials. Its implementation has no
/// failure path, so it succeeds on every input, an empty set included.
#[verifier::external_body]
pub(crate) fn start_passkey_authentication(
    webauthn: &webauthn_rs::Webauthn,
    creds: &Vec<webauthn_rs::prelude::Passkey>,
) -> (r: Result<
    (webauthn_rs::prelude::RequestChallengeResponse, webauthn_rs::prelude::PasskeyAuthentication),
    webauthn_rs::prelude::WebauthnError,
>)
    ensures
        r is Ok,
{
    webauthn.start_passkey_authentication(creds)
}

/// Relies on webauthn_rs::Webauthn::finish_passkey_authentication: verifies
/// the signed response against the stored ceremony state and one of the
/// offered credentials.
#[verifier::external_body]
pub(crate) fn finish_passkey_authentication(
    webauthn: &webauthn_rs::Webauthn,
    auth: &webauthn_rs::prelude::PublicKeyCredential,
    state: &webauthn_rs::prelude::PasskeyAuthentication,
) -> Result<webauthn_rs::prelude::AuthenticationResult, webauthn_rs::prelude::WebauthnError> {
    webauthn.finish_passkey_authentication(auth, state)
}

/// Relies on the public `raw_id` field of RegisterPublicKeyCredential: the
/// binary credential id the client reported.
#[verifier::external_body]
pub(crate) fn register_raw_id(reg: &webauthn_rs::prelude::RegisterPublicKeyCredential) -> Vec<u8> {
    reg.raw_id.0.clone()
}

/// Relies on webauthn_rs::prelude::AuthenticationResult::cred_id: the
/// credential id that authenticated.
#[verifier::external_body]
pub(crate) fn auth_result_cred_id(res: &webauthn_rs::prelude::AuthenticationResult) -> Vec<u8> {
    res.cred_id().0.clone()
}

/// Relies on webauthn_rs::prelude::AuthenticationResult::counter: the
/// signature counter the authenticator reported.
#[verifier::external_body]
pub(crate) fn auth_result_counter(res: &webauthn_rs::prelude::AuthenticationResult) -> u32 {
    res.counter()
}

/// Relies on serde_json::to_string: encodes a credential as its versioned
/// JSON blob; `None` when encoding fails.
#[verifier::external_body]
pub(crate) fn serialize_passkey(passkey: &webauthn_rs::prelude::Passkey) -> Option<String> {
    serde_json::to_string(passkey).ok()
}

/// Whether a stored blob is a valid encoding of a credential: a function of
/// the string alone.
pub uninterp spec fn blob_ok(s: Seq<char>) -> bool;

/// Relies on serde_json::from_str: decodes a stored JSON blob back into a
/// credential; `None` exactly on a blob that is not a valid encoding, which
/// `blob_ok` names.
#[verifier::external_body]
pub(crate) fn deserialize_passkey(data: &str) -> (r: Option<webauthn_rs::prelude::Passkey>)
    ensures
        r is Some <==> blob_ok(data@),
{
    serde_json::from_str(data).ok()
}

} // verus!
