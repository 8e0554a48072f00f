//! Domain-consistency core of a multi-tenant chat platform.
//!
//! The crate decides what an actor may do to an entity (permission
//! resolution) and keeps the entity graph — servers, channels, members,
//! roles, bans, messages, webhooks, emoji, per-user read state — mutually
//! consistent as it is created, mutated and destroyed.  Transport, storage
//! and authentication are thin adapters around this core and live outside
//! of it.

pub mod perms;
pub mod store;
pub mod table;
pub mod membership;
pub mod lifecycle;
pub mod unread;
pub mod messages;
pub mod onboard;
pub mod config;
pub mod login;

use vstd::prelude::*;

verus! {

/// Typed failures returned by the lifecycle operations.
#[derive(Clone, Copy, PartialEq, Eq, Structural, Debug)]
pub enum Error {
    /// A referenced entity is absent.
    NotFound,
    /// The actor's permission bitset lacks the required bit.
    Forbidden,
    /// A moderation action failed the role-rank comparison.
    InsufficientRank,
    /// A ban forbids the membership being created.
    Banned,
    /// A member record already exists for the pair.
    AlreadyMember,
    /// The server owner cannot be removed without an ownership transfer.
    OwnerCannotLeave,
    /// An overwrite subject references no role or member of the server.
    InvalidOverwriteSubject,
    /// An acknowledgement names a message id the channel never contained.
    StaleAcknowledgement,
    /// A concurrent mutation invalidated an assumption.
    Conflict,
    /// The account already completed onboarding.
    AlreadyOnboarded,
    /// An input failed validation.
    FailedValidation,
    /// The username collides with an existing one, case-insensitively.
    UsernameTaken,
}

} // verus!
