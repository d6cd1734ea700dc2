//! Passkey (WebAuthn) authentication core: ceremony lifecycle, ephemeral
//! challenge storage, credential and session records, and the access-gate
//! decision taken on every protected request.

use vstd::prelude::*;

pub mod auth;
pub mod challenge;
pub mod db;
pub mod engine;
pub mod routes;
pub mod templates;
pub mod token;

verus! {

/// The error taxonomy of the authentication core. Every fallible operation
/// reports one of these distinct outcomes; none is silently swallowed.
#[derive(Clone, Copy, Debug, PartialEq, Eq, Structural)]
pub enum Error {
    /// Invalid relying-party identity or origin; fatal at startup.
    Configuration,
    /// Ceremony id unknown, expired or already consumed; credential id,
    /// session id or user unknown.
    NotFound,
    /// Cryptographic signature or challenge mismatch during ceremony
    /// completion, or a rejected (non-increasing) signature counter.
    Verification,
    /// Insertion of a key that already exists.
    Conflict,
    /// A failure of the durable store or of value encoding.
    Storage,
}

/// A registered account: a unique login name and an opaque unique id.
pub struct User {
    pub name: String,
    pub id: u128,
}

/// The mathematical value of a `User`.
pub struct UserV {
    pub name: Seq<char>,
    pub id: u128,
}

impl View for User {
    type V = UserV;

    open spec fn view(&self) -> UserV {
        UserV { name: self.name@, id: self.id }
    }
}

impl Clone for User {
    fn clone(&self) -> (r: Self)
        ensures
            r@ == self@,
    {
        User { name: self.name.clone(), id: self.id }
    }
}

/// One to-do item owned by a user.
pub struct Task {
    pub name: String,
    pub completed: bool,
    pub id: u128,
}

/// The mathematical value of a `Task`.
pub struct TaskV {
    pub name: Seq<char>,
    pub completed: bool,
    pub id: u128,
}

impl View for Task {
    type V = TaskV;

    open spec fn view(&self) -> TaskV {
        TaskV { name: self.name@, completed: self.completed, id: self.id }
    }
}

impl Clone for Task {
    fn clone(&self) -> (r: Self)
        ensures
            r@ == self@,
    {
        Task { name: self.name.clone(), completed: self.completed, id: self.id }
    }
}

} // verus!
