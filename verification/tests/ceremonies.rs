//! End-to-end ceremony flows against the real WebAuthn engine, and the
//! access gate.

use htmx_intro::auth::{Auth, GateOutcome, HttpMethod, Rejection};
use htmx_intro::db::Database;
use htmx_intro::Error;
use webauthn_rs::prelude::{PublicKeyCredential, RegisterPublicKeyCredential};

const RP_ID: &str = "localhost";
const RP_ORIGIN: &str = "http://localhost:8000/";

fn new_auth() -> Auth {
    Auth::new(Database::new(), RP_ID, RP_ORIGIN).unwrap()
}

fn forged_registration() -> RegisterPublicKeyCredential {
    serde_json::from_str(
        "{\"id\":\"AAAA\",\"rawId\":\"AAAA\",\"response\":{\"attestationObject\":\"AAAA\",\
         \"clientDataJSON\":\"AAAA\"},\"type\":\"public-key\"}",
    )
    .unwrap()
}

fn forged_assertion() -> PublicKeyCredential {
    serde_json::from_str(
        "{\"id\":\"AAAA\",\"rawId\":\"AAAA\",\"response\":{\"authenticatorData\":\"AAAA\",\
         \"clientDataJSON\":\"AAAA\",\"signature\":\"AAAA\",\"userHandle\":null},\
         \"type\":\"public-key\"}",
    )
    .unwrap()
}

#[test]
fn new_rejects_a_mismatched_origin() {
    let r = Auth::new(Database::new(), "example.com", "https://different.org");
    assert!(matches!(r, Err(Error::Configuration)));
}

#[test]
fn new_rejects_an_unparsable_origin() {
    let r = Auth::new(Database::new(), "example.com", "not a url");
    assert!(matches!(r, Err(Error::Configuration)));
}

#[test]
fn forged_registration_fails_then_the_ceremony_is_gone() {
    let mut auth = new_auth();
    let (_challenge, cid) = auth.start_register("alice", 1000).unwrap();
    let forged = forged_registration();
    let r = auth.finish_register(cid, &forged, 1010);
    assert!(matches!(r, Err(Error::Verification)));
    let r = auth.finish_register(cid, &forged, 1011);
    assert!(matches!(r, Err(Error::NotFound)));
}

#[test]
fn registration_ceremony_expires_after_the_timeout() {
    let mut auth = new_auth();
    let (_challenge, cid) = auth.start_register("alice", 1000).unwrap();
    let r = auth.finish_register(cid, &forged_registration(), 1061);
    assert!(matches!(r, Err(Error::NotFound)));
}

#[test]
fn start_register_with_an_empty_name_is_a_configuration_error() {
    let mut auth = new_auth();
    let r = auth.start_register("", 1000);
    assert!(matches!(r, Err(Error::Configuration)));
    // The user row was created before the engine refused, as in the
    // durable-store-first flow; a second attempt now conflicts.
    let r = auth.start_register("", 1001);
    assert!(matches!(r, Err(Error::Conflict)));
}

#[test]
fn start_register_with_a_taken_name_conflicts() {
    let mut auth = new_auth();
    auth.start_register("alice", 1000).unwrap();
    let r = auth.start_register("alice", 1001);
    assert!(matches!(r, Err(Error::Conflict)));
}

#[test]
fn login_error_shape_hides_unknown_users() {
    let mut auth = new_auth();
    // "bob" exists (a registration was begun) but has no credentials;
    // "carol" does not exist at all.
    auth.start_register("bob", 1000).unwrap();
    let for_credentialless = auth.start_login("bob", 1010).unwrap_err();
    let for_unknown = auth.start_login("carol", 1010).unwrap_err();
    assert_eq!(for_credentialless, for_unknown);
    assert_eq!(for_credentialless, Error::Verification);
}

#[test]
fn start_login_with_an_undecodable_blob_is_a_storage_error() {
    let mut db = Database::new();
    db.create_user(&"eve".to_string(), 3).unwrap();
    db.insert(vec![7, 7], "not a credential blob".to_string(), "eve".to_string(), 0)
        .unwrap();
    let mut auth = Auth::new(db, RP_ID, RP_ORIGIN).unwrap();
    let r = auth.start_login("eve", 1000);
    assert!(matches!(r, Err(Error::Storage)));
}

#[test]
fn finish_login_with_unknown_ceremony_is_not_found() {
    let mut auth = new_auth();
    let r = auth.finish_login(12345, &forged_assertion(), 1000);
    assert!(matches!(r, Err(Error::NotFound)));
}

#[test]
fn verify_token_of_unknown_session_is_not_found() {
    let auth = new_auth();
    assert!(matches!(auth.verify_token(7), Err(Error::NotFound)));
}

#[test]
fn gate_get_without_token_redirects_to_login() {
    let auth = new_auth();
    let r = auth.layer(&HttpMethod::Get, None);
    assert!(matches!(
        r,
        GateOutcome::Reject(Rejection::RedirectToLogin)
    ));
}

#[test]
fn gate_other_methods_without_token_are_unauthorized() {
    let auth = new_auth();
    for method in [HttpMethod::Post, HttpMethod::Put, HttpMethod::Delete] {
        let r = auth.layer(&method, None);
        assert!(matches!(r, GateOutcome::Reject(Rejection::Unauthorized)));
    }
}

#[test]
fn gate_with_unknown_token_rejects_by_method() {
    let auth = new_auth();
    assert!(matches!(
        auth.layer(&HttpMethod::Get, Some(99)),
        GateOutcome::Reject(Rejection::RedirectToLogin)
    ));
    assert!(matches!(
        auth.layer(&HttpMethod::Post, Some(99)),
        GateOutcome::Reject(Rejection::Unauthorized)
    ));
}

#[test]
fn gate_with_valid_session_proceeds_with_the_user() {
    let mut db = Database::new();
    db.create_user(&"dana".to_string(), 7).unwrap();
    db.issue(&"dana".to_string(), 42).unwrap();
    let auth = Auth::new(db, RP_ID, RP_ORIGIN).unwrap();
    match auth.layer(&HttpMethod::Get, Some(42)) {
        GateOutcome::Proceed(user) => {
            assert_eq!(user.name, "dana");
            assert_eq!(user.id, 7);
        },
        GateOutcome::Reject(_) => panic!("a valid session must proceed"),
    }
}
