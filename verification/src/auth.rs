//! The ceremony manager: passwordless registration and login flows, session
//! issuance, and the access-gate decision for protected requests.
//!
//! Within one ceremony, consumption of the stored state happens before
//! verification, and verification before any durable write; no two
//! completions of one ceremony id can both succeed.

use vstd::prelude::*;

use crate::challenge::CEREMONY_TIMEOUT_SECS;
use crate::challenge::ChallengeStore;
use crate::db::Database;
use crate::engine;
use crate::engine::blob_ok;
use crate::engine::rp_config_ok;
use crate::Error;
use crate::User;

verus! {

/// In-flight registration ceremony state: the engine's server-side state and
/// the username the ceremony was started for.
pub struct RegistrationEntry {
    pub state: webauthn_rs::prelude::PasskeyRegistration,
    pub username: String,
}

/// The in-memory half of the subsystem: the relying-party engine handle and
/// the two independent ephemeral ceremony stores (their payload shapes
/// differ, and they must not collide).
pub struct AuthHandler {
    registration_data: ChallengeStore<RegistrationEntry>,
    signin_data: ChallengeStore<webauthn_rs::prelude::PasskeyAuthentication>,
    website_data: webauthn_rs::Webauthn,
}

impl AuthHandler {
    /// The registration-ceremony store.
    pub closed spec fn reg_store(self) -> ChallengeStore<RegistrationEntry> {
        self.registration_data
    }

    /// The signin-ceremony store.
    pub closed spec fn signin_store(self) -> ChallengeStore<
        webauthn_rs::prelude::PasskeyAuthentication,
    > {
        self.signin_data
    }

    /// Both ceremony stores are well-formed.
    pub open spec fn wf(self) -> bool {
        self.reg_store().wf() && self.signin_store().wf()
    }

    /// A handler with no ceremony in flight.
    pub fn new(website_data: webauthn_rs::Webauthn) -> (h: Self)
        ensures
            h.wf(),
            forall|k: u128| !(#[trigger] h.reg_store().has(k)),
            forall|k: u128| !(#[trigger] h.signin_store().has(k)),
    {
        AuthHandler {
            registration_data: ChallengeStore::new(),
            signin_data: ChallengeStore::new(),
            website_data,
        }
    }

    /// Start a registration ceremony for `user`: draw a challenge from the
    /// engine and record the ceremony state under a fresh random id that
    /// expires a fixed delay after `now`. The engine refuses exactly an
    /// empty account name.
    pub fn start_registration(&mut self, user: &User, now: u64) -> (r: Result<
        (webauthn_rs::prelude::CreationChallengeResponse, u128),
        Error,
    >)
        requires
            old(self).wf(),
            now + CEREMONY_TIMEOUT_SECS <= u64::MAX,
        ensures
            final(self).wf(),
            r is Err <==> user.name@.len() == 0,
            match r {
                Ok(out) => {
                    &&& ChallengeStore::began(
                        old(self).reg_store(),
                        final(self).reg_store(),
                        out.1,
                        now,
                        final(self).reg_store().state_of(out.1),
                    )
                    &&& final(self).reg_store().state_of(out.1).username@ == user.name@
                    &&& final(self).signin_store() == old(self).signin_store()
                },
                Err(e) => e == Error::Configuration && *final(self) == *old(self),
            },
    {
        let (ccr, state) = match engine::start_passkey_registration(
            &self.website_data,
            user.id,
            user.name.as_str(),
        ) {
            Ok(p) => p,
            Err(_) => {
                return Err(Error::Configuration);
            },
        };
        let auth_id = engine::fresh_id();
        self.registration_data.begin(
            auth_id,
            now,
            RegistrationEntry { state, username: user.name.clone() },
        );
        Ok((ccr, auth_id))
    }

    /// Complete a registration ceremony: atomically consume the stored state
    /// (the id answers at most once), then verify the client's signed
    /// response against it. An id that was never begun, already consumed or
    /// expired is `NotFound`; a response that does not match is
    /// `Verification`. The id is gone afterwards either way.
    pub fn complete_registration(
        &mut self,
        id: u128,
        reg_info: &webauthn_rs::prelude::RegisterPublicKeyCredential,
        now: u64,
    ) -> (r: Result<(webauthn_rs::prelude::Passkey, String), Error>)
        requires
            old(self).wf(),
        ensures
            final(self).wf(),
            ChallengeStore::consumed(
                old(self).reg_store(),
                final(self).reg_store(),
                id,
                now,
                if old(self).reg_store().live(id, now) {
                    Some(old(self).reg_store().state_of(id))
                } else {
                    None
                },
            ),
            final(self).signin_store() == old(self).signin_store(),
            r == Err::<(webauthn_rs::prelude::Passkey, String), Error>(Error::NotFound) <==> !old(
                self,
            ).reg_store().live(id, now),
            match r {
                Ok(out) => out.1@ == old(self).reg_store().state_of(id).username@,
                Err(e) => e == Error::NotFound || e == Error::Verification,
            },
    {
        match self.registration_data.consume(id, now) {
            None => Err(Error::NotFound),
            Some(entry) => {
                match engine::finish_passkey_registration(
                    &self.website_data,
                    reg_info,
                    &entry.state,
                ) {
                    Ok(passkey) => Ok((passkey, entry.username)),
                    Err(_) => Err(Error::Verification),
                }
            },
        }
    }

    /// Start a login ceremony offering `passkeys`. An empty set — and only
    /// an empty set — fails, with the same generic error shape as a failed
    /// verification, so a caller cannot distinguish an unknown user from one
    /// with no credentials.
    pub fn start_login(
        &mut self,
        passkeys: &Vec<webauthn_rs::prelude::Passkey>,
        now: u64,
    ) -> (r: Result<(webauthn_rs::prelude::RequestChallengeResponse, u128), Error>)
        requires
            old(self).wf(),
            now + CEREMONY_TIMEOUT_SECS <= u64::MAX,
        ensures
            final(self).wf(),
            r is Err <==> passkeys@.len() == 0,
            passkeys@.len() == 0 ==> r == Err::<
                (webauthn_rs::prelude::RequestChallengeResponse, u128),
                Error,
            >(Error::Verification),
            match r {
                Ok(out) => {
                    &&& passkeys@.len() > 0
                    &&& ChallengeStore::began(
                        old(self).signin_store(),
                        final(self).signin_store(),
                        out.1,
                        now,
                        final(self).signin_store().state_of(out.1),
                    )
                    &&& final(self).reg_store() == old(self).reg_store()
                },
                Err(e) => e == Error::Verification && *final(self) == *old(self),
            },
    {
        if passkeys.len() == 0 {
            return Err(Error::Verification);
        }
        let (rcr, state) = match engine::start_passkey_authentication(
            &self.website_data,
            passkeys,
        ) {
            Ok(p) => p,
            // The engine's start call cannot fail; this arm is provably dead.
            Err(_) => {
                return Err(Error::Verification);
            },
        };
        let auth_id = engine::fresh_id();
        self.signin_data.begin(auth_id, now, state);
        Ok((rcr, auth_id))
    }

    /// Complete a login ceremony: atomically consume the stored state, then
    /// verify the client's signed response against it.
    pub fn complete_login(
        &mut self,
        id: u128,
        auth_info: &webauthn_rs::prelude::PublicKeyCredential,
        now: u64,
    ) -> (r: Result<webauthn_rs::prelude::AuthenticationResult, Error>)
        requires
            old(self).wf(),
        ensures
            final(self).wf(),
            ChallengeStore::consumed(
                old(self).signin_store(),
                final(self).signin_store(),
                id,
                now,
                if old(self).signin_store().live(id, now) {
                    Some(old(self).signin_store().state_of(id))
                } else {
                    None
                },
            ),
            final(self).reg_store() == old(self).reg_store(),
            r == Err::<webauthn_rs::prelude::AuthenticationResult, Error>(Error::NotFound) <==> !old(
                self,
            ).signin_store().live(id, now),
            match r {
                Ok(_) => true,
                Err(e) => e == Error::NotFound || e == Error::Verification,
            },
    {
        match self.signin_data.consume(id, now) {
            None => Err(Error::NotFound),
            Some(state) => {
                match engine::finish_passkey_authentication(&self.website_data, auth_info, &state) {
                    Ok(result) => Ok(result),
                    Err(_) => Err(Error::Verification),
                }
            },
        }
    }
}

/// An HTTP request method, as far as the access gate cares.
#[derive(Clone, Copy, Debug, PartialEq, Eq, Structural)]
pub enum HttpMethod {
    Get,
    Post,
    Put,
    Delete,
    Other,
}

/// A terminal rejection of a protected request.
#[derive(Clone, Copy, Debug, PartialEq, Eq, Structural)]
pub enum Rejection {
    /// Read-only navigations are redirected to the login entry point.
    RedirectToLogin,
    /// State-changing requests get an explicit unauthorized status.
    Unauthorized,
}

/// The access gate's verdict on one inbound request.
pub enum GateOutcome {
    /// Proceed downstream with the authenticated identity attached.
    Proceed(User),
    /// Stop with a terminal rejection.
    Reject(Rejection),
}

/// Every credential in the list carries a decodable blob.
pub open spec fn blobs_ok(creds: Seq<crate::db::CredentialRecordV>) -> bool {
    forall|i: int| 0 <= i < creds.len() ==> blob_ok((#[trigger] creds[i]).data)
}

/// Every credential row other than the one keyed `k` is the same in `post`
/// as in `pre`.
pub open spec fn creds_confined(pre: Database, post: Database, k: Seq<u8>) -> bool {
    forall|j: Seq<u8>|
        j != k && pre.has_cred(j) ==> #[trigger] post.cred_of(j) == pre.cred_of(j)
}

/// How a rejected request is answered, by method: a GET is redirected to the
/// login page, anything else gets an explicit unauthorized status.
pub open spec fn rejection_of(method: HttpMethod) -> Rejection {
    if method == HttpMethod::Get {
        Rejection::RedirectToLogin
    } else {
        Rejection::Unauthorized
    }
}

/// The authentication subsystem: the durable-store image and the in-memory
/// ceremony handler.
pub struct Auth {
    db: Database,
    auth: AuthHandler,
}

impl Auth {
    /// The durable-store image.
    pub closed spec fn db_view(self) -> Database {
        self.db
    }

    /// The in-memory ceremony handler.
    pub closed spec fn handler(self) -> AuthHandler {
        self.auth
    }

    /// Well-formed: store and handler are well-formed, and every in-flight
    /// registration ceremony references an existing user.
    pub open spec fn wf(self) -> bool {
        &&& self.db_view().wf()
        &&& self.handler().wf()
        &&& forall|k: u128|
            #[trigger] self.handler().reg_store().has(k) ==> self.db_view().user_exists(
                self.handler().reg_store().state_of(k).username@,
            )
    }

    /// Build the subsystem from a store image and the relying-party
    /// configuration (an identifier and an origin URL, fixed at startup).
    /// Fails with `Configuration` exactly when the engine rejects the pair;
    /// such a failure is fatal, since every later ceremony would fail.
    pub fn new(db: Database, rp_id: &str, rp_origin: &str) -> (r: Result<Auth, Error>)
        requires
            db.wf(),
        ensures
            r is Ok <==> rp_config_ok(rp_id@, rp_origin@),
            match r {
                Ok(a) => {
                    &&& a.wf()
                    &&& a.db_view() == db
                    &&& forall|k: u128| !(#[trigger] a.handler().reg_store().has(k))
                    &&& forall|k: u128| !(#[trigger] a.handler().signin_store().has(k))
                },
                Err(e) => e == Error::Configuration,
            },
    {
        let webauthn = match engine::build_webauthn(rp_id, rp_origin) {
            Some(w) => w,
            None => {
                return Err(Error::Configuration);
            },
        };
        Ok(Auth { db, auth: AuthHandler::new(webauthn) })
    }

    /// Start registration for `name`: create the user (first registration
    /// attempt; an already-taken name is a `Conflict`), then begin the
    /// ceremony. A fresh, non-empty name always starts one; the engine
    /// refuses exactly an empty name, and that user row persists even then.
    pub fn start_register(&mut self, name: &str, now: u64) -> (r: Result<
        (webauthn_rs::prelude::CreationChallengeResponse, u128),
        Error,
    >)
        requires
            old(self).wf(),
            now + CEREMONY_TIMEOUT_SECS <= u64::MAX,
        ensures
            final(self).wf(),
            r is Ok <==> !old(self).db_view().user_exists(name@) && name@.len() > 0,
            old(self).db_view().user_exists(name@) <==> r == Err::<
                (webauthn_rs::prelude::CreationChallengeResponse, u128),
                Error,
            >(Error::Conflict),
            match r {
                Ok(out) => {
                    &&& final(self).db_view().user_exists(name@)
                    &&& final(self).db_view().users_seq() == old(self).db_view().users_seq().push(
                        final(self).db_view().user_of(name@),
                    )
                    &&& final(self).db_view().creds_seq() == old(self).db_view().creds_seq()
                    &&& final(self).db_view().sessions_seq() == old(self).db_view().sessions_seq()
                    &&& final(self).db_view().tasks_seq() == old(self).db_view().tasks_seq()
                    &&& ChallengeStore::began(
                        old(self).handler().reg_store(),
                        final(self).handler().reg_store(),
                        out.1,
                        now,
                        final(self).handler().reg_store().state_of(out.1),
                    )
                    &&& final(self).handler().reg_store().state_of(out.1).username@ == name@
                    &&& final(self).handler().signin_store() == old(self).handler().signin_store()
                },
                Err(e) => {
                    &&& (e == Error::Conflict ==> *final(self) == *old(self))
                    &&& (e != Error::Conflict ==> {
                        &&& e == Error::Configuration
                        &&& final(self).db_view().user_exists(name@)
                        &&& final(self).db_view().users_seq() == old(
                            self,
                        ).db_view().users_seq().push(final(self).db_view().user_of(name@))
                        &&& final(self).db_view().creds_seq() == old(self).db_view().creds_seq()
                        &&& final(self).db_view().sessions_seq() == old(
                            self,
                        ).db_view().sessions_seq()
                        &&& final(self).db_view().tasks_seq() == old(self).db_view().tasks_seq()
                        &&& final(self).handler() == old(self).handler()
                    })
                },
            },
    {
        let name_string = name.to_owned();
        let user_id = engine::fresh_id();
        let user = match self.db.create_user(&name_string, user_id) {
            Ok(u) => u,
            Err(_) => {
                return Err(Error::Conflict);
            },
        };
        let r = self.auth.start_registration(&user, now);
        proof {
            assert forall|k: u128| #[trigger] self.auth.reg_store().has(k) implies self
                .db.user_exists(self.auth.reg_store().state_of(k).username@) by {
            }
        }
        r
    }

    /// Complete registration: consume the ceremony, verify the response,
    /// and persist the new credential under the client-reported raw
    /// credential id with a fresh counter.
    pub fn finish_register(
        &mut self,
        id: u128,
        reg_info: &webauthn_rs::prelude::RegisterPublicKeyCredential,
        now: u64,
    ) -> (r: Result<(), Error>)
        requires
            old(self).wf(),
        ensures
            final(self).wf(),
            ChallengeStore::consumed(
                old(self).handler().reg_store(),
                final(self).handler().reg_store(),
                id,
                now,
                if old(self).handler().reg_store().live(id, now) {
                    Some(old(self).handler().reg_store().state_of(id))
                } else {
                    None
                },
            ),
            final(self).handler().signin_store() == old(self).handler().signin_store(),
            r == Err::<(), Error>(Error::NotFound) <==> !old(self).handler().reg_store().live(
                id,
                now,
            ),
            final(self).db_view().users_seq() == old(self).db_view().users_seq(),
            final(self).db_view().sessions_seq() == old(self).db_view().sessions_seq(),
            final(self).db_view().tasks_seq() == old(self).db_view().tasks_seq(),
            match r {
                Ok(_) => {
                    &&& final(self).db_view().creds_seq() == old(self).db_view().creds_seq().push(
                        final(self).db_view().creds_seq().last(),
                    )
                    &&& final(self).db_view().creds_seq().last().username == old(
                        self,
                    ).handler().reg_store().state_of(id).username@
                    &&& final(self).db_view().creds_seq().last().counter == 0
                },
                Err(e) => {
                    &&& final(self).db_view().creds_seq() == old(self).db_view().creds_seq()
                    &&& (e == Error::NotFound || e == Error::Verification || e == Error::Storage
                        || e == Error::Conflict)
                },
            },
    {
        let (passkey, username) = match self.auth.complete_registration(id, reg_info, now) {
            Ok(p) => p,
            Err(e) => {
                return Err(e);
            },
        };
        let blob = match engine::serialize_passkey(&passkey) {
            Some(b) => b,
            None => {
                return Err(Error::Storage);
            },
        };
        let raw_id = engine::register_raw_id(reg_info);
        match self.db.insert(raw_id, blob, username, 0) {
            Ok(()) => Ok(()),
            Err(e) => Err(e),
        }
    }

    /// Start a login ceremony for `name`: look up the registered
    /// credentials, decode them, and offer them to the engine. A name with
    /// no credentials — unknown or simply credential-less — fails with the
    /// one generic error shape, so callers cannot enumerate accounts; an
    /// undecodable stored blob is a `Storage` fault; otherwise the ceremony
    /// starts.
    pub fn start_login(&mut self, name: &str, now: u64) -> (r: Result<
        (webauthn_rs::prelude::RequestChallengeResponse, u128),
        Error,
    >)
        requires
            old(self).wf(),
            now + CEREMONY_TIMEOUT_SECS <= u64::MAX,
        ensures
            final(self).wf(),
            final(self).db_view() == old(self).db_view(),
            r is Ok <==> old(self).db_view().creds_of_user(name@).len() > 0 && blobs_ok(
                old(self).db_view().creds_of_user(name@),
            ),
            r == Err::<(webauthn_rs::prelude::RequestChallengeResponse, u128), Error>(
                Error::Verification,
            ) <==> old(self).db_view().creds_of_user(name@).len() == 0,
            r == Err::<(webauthn_rs::prelude::RequestChallengeResponse, u128), Error>(
                Error::Storage,
            ) <==> old(self).db_view().creds_of_user(name@).len() > 0 && !blobs_ok(
                old(self).db_view().creds_of_user(name@),
            ),
            match r {
                Ok(out) => {
                    &&& ChallengeStore::began(
                        old(self).handler().signin_store(),
                        final(self).handler().signin_store(),
                        out.1,
                        now,
                        final(self).handler().signin_store().state_of(out.1),
                    )
                    &&& final(self).handler().reg_store() == old(self).handler().reg_store()
                },
                Err(_) => *final(self) == *old(self),
            },
    {
        let name_string = name.to_owned();
        let rows = self.db.find_by_username(&name_string);
        let ghost creds = old(self).db_view().creds_of_user(name@);
        proof {
            assert(rows@.map_values(|c: crate::db::CredentialRecord| c@).len() == rows@.len());
            assert(rows@.len() == creds.len());
        }
        let mut passkeys: Vec<webauthn_rs::prelude::Passkey> = Vec::new();
        let mut i: usize = 0;
        while i < rows.len()
            invariant
                i <= rows@.len(),
                passkeys@.len() == i,
                *self == *old(self),
                old(self).wf(),
                now + CEREMONY_TIMEOUT_SECS <= u64::MAX,
                creds == old(self).db_view().creds_of_user(name@),
                rows@.map_values(|c: crate::db::CredentialRecord| c@) == creds,
                rows@.len() == creds.len(),
                forall|j: int| 0 <= j < i ==> blob_ok((#[trigger] creds[j]).data),
            decreases rows@.len() - i,
        {
            let ghost row_view = rows@.map_values(|c: crate::db::CredentialRecord| c@)[i as int];
            match engine::deserialize_passkey(rows[i].data.as_str()) {
                Some(p) => passkeys.push(p),
                None => {
                    proof {
                        assert(creds[i as int] == row_view);
                        assert(!blob_ok(creds[i as int].data));
                        assert(!blobs_ok(creds));
                    }
                    return Err(Error::Storage);
                },
            }
            proof {
                assert(creds[i as int] == row_view);
                assert(blob_ok(creds[i as int].data));
            }
            i = i + 1;
        }
        proof {
            assert(blobs_ok(creds));
        }
        self.auth.start_login(&passkeys, now)
    }

    /// Complete a login ceremony: consume the ceremony state (a ceremony id
    /// answers at most once), verify the signed response, enforce the
    /// signature-counter rule, and mint a fresh session for the matched
    /// credential's owner. For a counter-using authenticator the reported
    /// counter must strictly exceed the stored one; a non-increasing counter
    /// is a possible cloned-credential signal, rejected as `Verification`
    /// and never written, so no stored counter ever decreases. The stored
    /// blob itself is immutable after registration: the counter column
    /// carries the accepted counter, and no other credential row changes.
    pub fn finish_login(
        &mut self,
        id: u128,
        auth_info: &webauthn_rs::prelude::PublicKeyCredential,
        now: u64,
    ) -> (r: Result<u128, Error>)
        requires
            old(self).wf(),
        ensures
            final(self).wf(),
            ChallengeStore::consumed(
                old(self).handler().signin_store(),
                final(self).handler().signin_store(),
                id,
                now,
                if old(self).handler().signin_store().live(id, now) {
                    Some(old(self).handler().signin_store().state_of(id))
                } else {
                    None
                },
            ),
            final(self).handler().reg_store() == old(self).handler().reg_store(),
            !old(self).handler().signin_store().live(id, now) ==> r == Err::<u128, Error>(
                Error::NotFound,
            ) && final(self).db_view() == old(self).db_view(),
            final(self).db_view().users_seq() == old(self).db_view().users_seq(),
            final(self).db_view().tasks_seq() == old(self).db_view().tasks_seq(),
            forall|k: Seq<u8>|
                #[trigger] final(self).db_view().has_cred(k) <==> old(self).db_view().has_cred(k),
            forall|k: Seq<u8>|
                old(self).db_view().has_cred(k) ==> #[trigger] final(self).db_view().cred_of(
                    k,
                ).counter >= old(self).db_view().cred_of(k).counter,
            exists|k: Seq<u8>|
                #[trigger] creds_confined(old(self).db_view(), final(self).db_view(), k),
            match r {
                Ok(sid) => {
                    &&& !old(self).db_view().has_session(sid)
                    &&& final(self).db_view().has_session(sid)
                    &&& exists|k: Seq<u8>|
                        #[trigger] old(self).db_view().has_cred(k)
                            && final(self).db_view().session_user(sid) == old(
                            self,
                        ).db_view().cred_of(k).username
                    &&& forall|k: u128|
                        k != sid ==> (#[trigger] final(self).db_view().has_session(k) <==> old(
                            self,
                        ).db_view().has_session(k))
                    &&& forall|k: u128|
                        k != sid && final(self).db_view().has_session(k)
                            ==> #[trigger] final(self).db_view().session_user(k) == old(
                            self,
                        ).db_view().session_user(k)
                },
                Err(_) => final(self).db_view().sessions_seq() == old(
                    self,
                ).db_view().sessions_seq(),
            },
    {
        let result = match self.auth.complete_login(id, auth_info, now) {
            Ok(res) => res,
            Err(e) => {
                proof {
                    assert(creds_confined(old(self).db_view(), self.db, Seq::<u8>::empty()));
                }
                return Err(e);
            },
        };
        let cred_id = engine::auth_result_cred_id(&result);
        let row = match self.db.find_by_credential_id(&cred_id) {
            Ok(row) => row,
            Err(_) => {
                proof {
                    assert(creds_confined(old(self).db_view(), self.db, Seq::<u8>::empty()));
                }
                return Err(Error::NotFound);
            },
        };
        let new_counter = engine::auth_result_counter(&result);
        if new_counter != 0 || row.counter != 0 {
            // A counter-using authenticator: the counter must move strictly
            // forward, else the response may come from a clone.
            if new_counter > row.counter {
                let ghost pre_update = self.db;
                match self.db.update_counter(&cred_id, row.data.clone(), new_counter) {
                    Ok(()) => {
                        proof {
                            assert forall|k: Seq<u8>| pre_update.has_cred(k) implies
                                #[trigger] self.db.cred_of(k).counter >= pre_update.cred_of(
                                k,
                            ).counter by {
                                if k == cred_id@ {
                                    assert(self.db.cred_of(k).counter == new_counter);
                                } else {
                                    assert(self.db.has_cred(k));
                                }
                            }
                        }
                    },
                    // The row was just found and the counter checked, so the
                    // refresh cannot fail; this arm is provably dead.
                    Err(_) => {
                        proof {
                            assert(creds_confined(
                                old(self).db_view(),
                                self.db,
                                Seq::<u8>::empty(),
                            ));
                        }
                        return Err(Error::Storage);
                    },
                }
            } else {
                proof {
                    assert(creds_confined(old(self).db_view(), self.db, Seq::<u8>::empty()));
                }
                return Err(Error::Verification);
            }
        }
        proof {
            assert(old(self).db_view().has_cred(cred_id@));
            assert(old(self).db_view().cred_of(cred_id@).username == row.username@);
            assert forall|k: Seq<u8>| #[trigger] self.db.has_cred(k) <==> old(
                self,
            ).db_view().has_cred(k) by {}
            assert forall|k: Seq<u8>| old(self).db_view().has_cred(k) implies #[trigger] self
                .db.cred_of(k).counter >= old(self).db_view().cred_of(k).counter by {}
            assert(creds_confined(old(self).db_view(), self.db, cred_id@));
            assert(self.db.cred_of(cred_id@).username == row.username@);
            assert(self.db.sessions_seq() == old(self).db_view().sessions_seq());
        }
        let ghost pre_issue = *self;
        let session_id = engine::fresh_id();
        let out = self.db.issue(&row.username, session_id);
        proof {
            assert(self.db.creds_seq() == pre_issue.db_view().creds_seq());
            assert forall|k: Seq<u8>| #[trigger] self.db.has_cred(k) <==> old(
                self,
            ).db_view().has_cred(k) by {
                assert(pre_issue.db_view().has_cred(k) <==> old(self).db_view().has_cred(k));
                assert(self.db.has_cred(k) <==> pre_issue.db_view().has_cred(k));
            }
            assert forall|k: Seq<u8>| old(self).db_view().has_cred(k) implies #[trigger] self
                .db.cred_of(k).counter >= old(self).db_view().cred_of(k).counter by {
                assert(pre_issue.db_view().has_cred(k));
                assert(pre_issue.db_view().cred_of(k).counter >= old(self).db_view().cred_of(
                    k,
                ).counter);
                assert(self.db.cred_of(k) == pre_issue.db_view().cred_of(k));
            }
            assert forall|j: Seq<u8>|
                j != cred_id@ && old(self).db_view().has_cred(j) implies #[trigger] self
                .db.cred_of(j) == old(self).db_view().cred_of(j) by {
                assert(pre_issue.db_view().has_cred(j));
                assert(self.db.cred_of(j) == pre_issue.db_view().cred_of(j));
            }
            assert(creds_confined(old(self).db_view(), self.db, cred_id@));
        }
        match out {
            Ok(sid) => {
                proof {
                    assert(self.db.session_user(sid) == row.username@);
                    assert(!pre_issue.db_view().has_session(sid));
                    assert(!old(self).db_view().has_session(sid));
                }
                Ok(sid)
            },
            Err(e) => Err(e),
        }
    }

    /// Resolve a session token back to its owning user, or `NotFound`.
    pub fn verify_token(&self, id: u128) -> (r: Result<User, Error>)
        requires
            self.wf(),
        ensures
            match r {
                Ok(u) => {
                    &&& self.db_view().has_session(id)
                    &&& u@.name == self.db_view().session_user(id)
                    &&& u@ == self.db_view().user_of(u@.name)
                },
                Err(e) => e == Error::NotFound && !self.db_view().has_session(id),
            },
    {
        self.db.verify(id)
    }

    /// The signed-in user's tasks, in creation order.
    pub fn tasks(&self, username: &String) -> (r: Vec<crate::Task>)
        ensures
            r@.map_values(|t: crate::Task| t@) == self.db_view().tasks_of_user(username@),
    {
        self.db.tasks(username)
    }

    /// The signed-in user's tasks, pending first, then completed.
    pub fn tasks_sorted(&self, username: &String) -> (r: Vec<crate::Task>)
        ensures
            r@.map_values(|t: crate::Task| t@) == self.db_view().tasks_of_user_done(
                username@,
                false,
            ) + self.db_view().tasks_of_user_done(username@, true),
    {
        self.db.tasks_sorted(username)
    }

    /// Create one pending task for the signed-in user.
    pub fn add_task(&mut self, name: String, username: &String, id: u128) -> (r: Result<
        crate::Task,
        Error,
    >)
        requires
            old(self).wf(),
        ensures
            final(self).wf(),
            final(self).handler() == old(self).handler(),
            r is Ok <==> old(self).db_view().user_exists(username@) && !old(
                self,
            ).db_view().has_task(id),
            match r {
                Ok(t) => {
                    &&& t@ == (crate::TaskV { name: name@, completed: false, id })
                    &&& final(self).db_view().tasks_seq() == old(self).db_view().tasks_seq().push(
                        crate::db::TaskRowV { task: t@, username: username@ },
                    )
                    &&& final(self).db_view().users_seq() == old(self).db_view().users_seq()
                    &&& final(self).db_view().creds_seq() == old(self).db_view().creds_seq()
                    &&& final(self).db_view().sessions_seq() == old(self).db_view().sessions_seq()
                },
                Err(e) => {
                    &&& final(self).db_view() == old(self).db_view()
                    &&& (e == Error::NotFound || e == Error::Conflict)
                },
            },
    {
        self.db.add_task(name, username, id)
    }

    /// Set the `completed` flag of one of the signed-in user's tasks to the
    /// opposite of the reported current value.
    pub fn set_checked(&mut self, username: &String, id: u128, completed: bool) -> (r: bool)
        requires
            old(self).wf(),
        ensures
            final(self).wf(),
            final(self).handler() == old(self).handler(),
            r <==> old(self).db_view().has_task(id) && old(self).db_view().task_of(id).username
                == username@,
            r ==> {
                &&& forall|k: u128|
                    #[trigger] final(self).db_view().has_task(k) <==> old(self).db_view().has_task(
                        k,
                    )
                &&& final(self).db_view().task_of(id) == (crate::db::TaskRowV {
                    task: crate::TaskV {
                        completed: !completed,
                        ..old(self).db_view().task_of(id).task
                    },
                    username: old(self).db_view().task_of(id).username,
                })
                &&& forall|k: u128|
                    k != id && final(self).db_view().has_task(k)
                        ==> #[trigger] final(self).db_view().task_of(k) == old(
                        self,
                    ).db_view().task_of(k)
                &&& final(self).db_view().users_seq() == old(self).db_view().users_seq()
                &&& final(self).db_view().creds_seq() == old(self).db_view().creds_seq()
                &&& final(self).db_view().sessions_seq() == old(self).db_view().sessions_seq()
            },
            !r ==> final(self).db_view() == old(self).db_view(),
    {
        self.db.set_checked(username, id, completed)
    }

    /// Delete one of the signed-in user's tasks; reports whether a row was
    /// removed.
    pub fn delete_task(&mut self, username: &String, id: u128) -> (r: bool)
        requires
            old(self).wf(),
        ensures
            final(self).wf(),
            final(self).handler() == old(self).handler(),
            r <==> old(self).db_view().has_task(id) && old(self).db_view().task_of(id).username
                == username@,
            r ==> {
                &&& final(self).db_view().tasks_seq() == old(self).db_view().tasks_seq().remove(
                    crate::db::tseq_idx(old(self).db_view().tasks_seq(), id),
                )
                &&& !final(self).db_view().has_task(id)
                &&& forall|k: u128|
                    k != id ==> (#[trigger] final(self).db_view().has_task(k) <==> old(
                        self,
                    ).db_view().has_task(k))
                &&& forall|k: u128|
                    k != id && final(self).db_view().has_task(k)
                        ==> #[trigger] final(self).db_view().task_of(k) == old(
                        self,
                    ).db_view().task_of(k)
                &&& final(self).db_view().users_seq() == old(self).db_view().users_seq()
                &&& final(self).db_view().creds_seq() == old(self).db_view().creds_seq()
                &&& final(self).db_view().sessions_seq() == old(self).db_view().sessions_seq()
            },
            !r ==> final(self).db_view() == old(self).db_view(),
    {
        self.db.delete_task(username, id)
    }

    /// Answer a rejected protected request: a GET is redirected to the login
    /// entry point; a POST, PUT, DELETE or anything else gets an explicit
    /// unauthorized status, never a redirect.
    pub fn handle_unauthorized(method: &HttpMethod) -> (r: Rejection)
        ensures
            r == rejection_of(*method),
    {
        if *method == HttpMethod::Get {
            Rejection::RedirectToLogin
        } else {
            Rejection::Unauthorized
        }
    }

    /// The access gate run on every protected request: a request with no
    /// session token (absent or malformed cookie) is rejected by method; a
    /// token that resolves to a session proceeds with the owning user
    /// attached; an unknown token is rejected by method.
    pub fn layer(&self, method: &HttpMethod, session_token: Option<u128>) -> (r: GateOutcome)
        requires
            self.wf(),
        ensures
            match session_token {
                None => r == GateOutcome::Reject(rejection_of(*method)),
                Some(t) => {
                    if self.db_view().has_session(t) {
                        match r {
                            GateOutcome::Proceed(u) => u@.name == self.db_view().session_user(t)
                                && u@ == self.db_view().user_of(u@.name),
                            GateOutcome::Reject(_) => false,
                        }
                    } else {
                        r == GateOutcome::Reject(rejection_of(*method))
                    }
                },
            },
    {
        let token = match session_token {
            Some(t) => t,
            None => {
                return GateOutcome::Reject(Self::handle_unauthorized(method));
            },
        };
        match self.verify_token(token) {
            Ok(user) => GateOutcome::Proceed(user),
            Err(_) => GateOutcome::Reject(Self::handle_unauthorized(method)),
        }
    }
}

} // verus!
