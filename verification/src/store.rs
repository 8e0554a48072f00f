//! The entity store: an arena of interrelated entities referenced by
//! id, with the consistency invariant that every lifecycle operation
//! preserves.
//!
//! Entities never own each other; they hold ids resolved through the
//! store, so cascade deletion is id traversal.  Ids are allocated from
//! a monotone counter, which makes them unique and time-ordered.

use vstd::prelude::*;
use crate::Error;
use crate::perms::{Role, Overwrite, distinct_role_ids, distinct_subjects};

verus! {

/// A pending-mentions set is capped; the oldest mention is dropped
/// first once the cap is exceeded.
pub const MAX_PENDING_MENTIONS: usize = 32;

/// The kind of a channel.
#[derive(Clone, Copy, PartialEq, Eq, Structural, Debug)]
pub enum ChannelKind {
    Text,
    Voice,
    DirectMessage,
    Group,
    SavedNotes,
}

/// A server: owns roles; its owner is an implicit member with full
/// authority.
pub struct Server {
    pub id: u64,
    pub owner: u64,
    pub name: String,
    pub roles: Vec<Role>,
    pub default_perms: u64,
}

/// A channel: server-scoped, or serverless (direct message / group)
/// with explicit recipients.
pub struct Channel {
    pub id: u64,
    pub server: Option<u64>,
    pub kind: ChannelKind,
    pub overwrites: Vec<Overwrite>,
    pub recipients: Vec<u64>,
    pub last_message: Option<u64>,
}

/// A membership record, keyed by (server, user).
pub struct Member {
    pub server: u64,
    pub user: u64,
    pub nickname: Option<String>,
    pub joined: u64,
    pub roles: Vec<u64>,
}

/// A ban record, keyed by (server, user); its existence forbids a
/// member record for the same pair.
pub struct Ban {
    pub server: u64,
    pub user: u64,
    pub reason: String,
}

/// A message; immutable except content and mentions on edit.
pub struct Message {
    pub id: u64,
    pub channel: u64,
    pub author: u64,
    pub content: String,
    pub mentions: Vec<u64>,
    pub edited: bool,
}

/// A webhook, owned by a channel.
#[derive(Clone, Copy, PartialEq, Eq, Structural, Debug)]
pub struct Webhook {
    pub id: u64,
    pub channel: u64,
}

/// An invite into a channel, owned by that channel.
#[derive(Clone, Copy, PartialEq, Eq, Structural, Debug)]
pub struct Invite {
    pub id: u64,
    pub channel: u64,
    pub creator: u64,
}

/// A custom emoji, owned by a server.
#[derive(Clone, Copy, PartialEq, Eq, Structural, Debug)]
pub struct Emoji {
    pub id: u64,
    pub server: u64,
}

/// Per-(user, channel) read state: the last acknowledged message and
/// the pending mentions, ordered oldest first.
pub struct UnreadState {
    pub user: u64,
    pub channel: u64,
    pub last_read: Option<u64>,
    pub mentions: Vec<u64>,
}

/// A user account: created at onboarding, never hard-deleted, only
/// flagged disabled.  Usernames are unique under case-insensitive
/// collation.
pub struct User {
    pub id: u64,
    pub username: String,
    pub disabled: bool,
}

/// The ledger of every message id ever accepted into a channel.  A
/// deleted message keeps its ordinal effect: an acknowledgement of its
/// id stays valid.
#[derive(Clone, Copy, PartialEq, Eq, Structural, Debug)]
pub struct SentRecord {
    pub channel: u64,
    pub message: u64,
}

/// The arena of entities plus the id allocator.
pub struct Store {
    pub users: Vec<User>,
    pub servers: Vec<Server>,
    pub channels: Vec<Channel>,
    pub members: Vec<Member>,
    pub bans: Vec<Ban>,
    pub messages: Vec<Message>,
    pub webhooks: Vec<Webhook>,
    pub invites: Vec<Invite>,
    pub emoji: Vec<Emoji>,
    pub unreads: Vec<UnreadState>,
    pub sent: Vec<SentRecord>,
    pub next_id: u64,
}

pub open spec fn user_key(u: User) -> (u64, u64) {
    (u.id, 0)
}

pub open spec fn server_key(s: Server) -> (u64, u64) {
    (s.id, 0)
}

pub open spec fn channel_key(c: Channel) -> (u64, u64) {
    (c.id, 0)
}

pub open spec fn member_key(m: Member) -> (u64, u64) {
    (m.server, m.user)
}

pub open spec fn ban_key(b: Ban) -> (u64, u64) {
    (b.server, b.user)
}

pub open spec fn message_key(m: Message) -> (u64, u64) {
    (m.id, 0)
}

pub open spec fn webhook_key(w: Webhook) -> (u64, u64) {
    (w.id, 0)
}

pub open spec fn invite_key(v: Invite) -> (u64, u64) {
    (v.id, 0)
}

pub open spec fn emoji_key(e: Emoji) -> (u64, u64) {
    (e.id, 0)
}

pub open spec fn unread_key(u: UnreadState) -> (u64, u64) {
    (u.user, u.channel)
}

pub open spec fn distinct_keys<A>(s: Seq<A>, key: spec_fn(A) -> (u64, u64)) -> bool {
    forall|i: int, j: int| 0 <= i < j < s.len() ==> key(s[i]) != key(s[j])
}

/// Users are keyed by id, and no two usernames collide under
/// case-insensitive collation.
pub open spec fn users_keyed(users: Seq<User>) -> bool {
    &&& forall|i: int, j: int| 0 <= i < j < users.len() ==> users[i].id != users[j].id
    &&& forall|i: int, j: int|
        0 <= i < j < users.len() ==> crate::onboard::lower_of(users[i].username@)
            != crate::onboard::lower_of(users[j].username@)
}

/// Every user id is below the allocator's counter.
pub open spec fn users_fresh(users: Seq<User>, next: u64) -> bool {
    forall|i: int| 0 <= i < users.len() ==> (#[trigger] users[i].id) < next
}

/// Freshness survives the counter advancing.
pub proof fn lemma_users_fresh_mono(users: Seq<User>, n1: u64, n2: u64)
    requires
        users_fresh(users, n1),
        n1 <= n2,
    ensures
        users_fresh(users, n2),
{
    assert forall|i: int| 0 <= i < users.len() implies (#[trigger] users[i].id) < n2 by {
        assert(users[i].id < n1);
    }
}

/// The roles of a server have pairwise distinct ids.
pub open spec fn distinct_role_ids_of(s: Server) -> bool {
    distinct_role_ids(s.roles@)
}

/// The overwrites of a channel have pairwise distinct subjects and its
/// recipients are pairwise distinct.
pub open spec fn channel_internally_keyed(c: Channel) -> bool {
    distinct_subjects(c.overwrites@) && (forall|i: int, j: int|
        0 <= i < j < c.recipients@.len() ==> c.recipients@[i] != c.recipients@[j])
}

/// Every role id of the server is below the allocator's counter.
pub open spec fn roles_fresh(s: Server, next: u64) -> bool {
    forall|i: int| 0 <= i < s.roles@.len() ==> (#[trigger] s.roles@[i].id) < next
}

impl Store {
    /// An empty store.
    pub fn new() -> (s: Store)
        ensures
            s.wf(),
            s.users@ =~= Seq::<User>::empty(),
            s.servers@ =~= Seq::<Server>::empty(),
            s.channels@ =~= Seq::<Channel>::empty(),
            s.members@ =~= Seq::<Member>::empty(),
            s.bans@ =~= Seq::<Ban>::empty(),
            s.messages@ =~= Seq::<Message>::empty(),
            s.webhooks@ =~= Seq::<Webhook>::empty(),
            s.invites@ =~= Seq::<Invite>::empty(),
            s.emoji@ =~= Seq::<Emoji>::empty(),
            s.unreads@ =~= Seq::<UnreadState>::empty(),
            s.sent@ =~= Seq::<SentRecord>::empty(),
    {
        Store {
            users: Vec::new(),
            servers: Vec::new(),
            channels: Vec::new(),
            members: Vec::new(),
            bans: Vec::new(),
            messages: Vec::new(),
            webhooks: Vec::new(),
            invites: Vec::new(),
            emoji: Vec::new(),
            unreads: Vec::new(),
            sent: Vec::new(),
            next_id: 1,
        }
    }

    pub open spec fn has_server(self, id: u64) -> bool {
        exists|i: int| 0 <= i < self.servers@.len() && self.servers@[i].id == id
    }

    pub open spec fn server_idx(self, id: u64) -> int {
        choose|i: int| 0 <= i < self.servers@.len() && self.servers@[i].id == id
    }

    pub open spec fn has_channel(self, id: u64) -> bool {
        exists|i: int| 0 <= i < self.channels@.len() && self.channels@[i].id == id
    }

    pub open spec fn channel_idx(self, id: u64) -> int {
        choose|i: int| 0 <= i < self.channels@.len() && self.channels@[i].id == id
    }

    /// The channel exists and belongs to this server.
    pub open spec fn channel_in_server(self, cid: u64, sid: u64) -> bool {
        exists|i: int|
            0 <= i < self.channels@.len() && self.channels@[i].id == cid && self.channels@[i].server
                == Some(sid)
    }

    pub open spec fn has_member(self, sid: u64, uid: u64) -> bool {
        exists|i: int|
            0 <= i < self.members@.len() && self.members@[i].server == sid && self.members@[i].user
                == uid
    }

    pub open spec fn member_idx(self, sid: u64, uid: u64) -> int {
        choose|i: int|
            0 <= i < self.members@.len() && self.members@[i].server == sid && self.members@[i].user
                == uid
    }

    pub open spec fn has_ban(self, sid: u64, uid: u64) -> bool {
        exists|i: int|
            0 <= i < self.bans@.len() && self.bans@[i].server == sid && self.bans@[i].user == uid
    }

    pub open spec fn has_message(self, id: u64) -> bool {
        exists|i: int| 0 <= i < self.messages@.len() && self.messages@[i].id == id
    }

    pub open spec fn message_idx(self, id: u64) -> int {
        choose|i: int| 0 <= i < self.messages@.len() && self.messages@[i].id == id
    }

    pub open spec fn has_unread(self, uid: u64, cid: u64) -> bool {
        exists|i: int|
            0 <= i < self.unreads@.len() && self.unreads@[i].user == uid && self.unreads@[i].channel
                == cid
    }

    pub open spec fn unread_idx(self, uid: u64, cid: u64) -> int {
        choose|i: int|
            0 <= i < self.unreads@.len() && self.unreads@[i].user == uid && self.unreads@[i].channel
                == cid
    }

    /// A message with this id was accepted into this channel at some
    /// point, whether or not it still exists.
    pub open spec fn ever_sent(self, cid: u64, mid: u64) -> bool {
        self.sent@.contains(SentRecord { channel: cid, message: mid })
    }

    /// Every table is keyed: no two rows share a key.
    pub open spec fn keys_distinct(self) -> bool {
        &&& distinct_keys(self.servers@, |s: Server| server_key(s))
        &&& distinct_keys(self.channels@, |c: Channel| channel_key(c))
        &&& distinct_keys(self.members@, |m: Member| member_key(m))
        &&& distinct_keys(self.bans@, |b: Ban| ban_key(b))
        &&& distinct_keys(self.messages@, |m: Message| message_key(m))
        &&& distinct_keys(self.webhooks@, |w: Webhook| webhook_key(w))
        &&& distinct_keys(self.invites@, |v: Invite| invite_key(v))
        &&& distinct_keys(self.emoji@, |e: Emoji| emoji_key(e))
        &&& distinct_keys(self.unreads@, |u: UnreadState| unread_key(u))
    }

    /// Roles of a server have distinct ids; overwrites of a channel
    /// have distinct subjects and its recipients are distinct.
    pub open spec fn entities_internally_keyed(self) -> bool {
        &&& forall|i: int|
            0 <= i < self.servers@.len() ==> distinct_role_ids_of(#[trigger] self.servers@[i])
        &&& forall|i: int|
            0 <= i < self.channels@.len() ==> channel_internally_keyed(
                #[trigger] self.channels@[i],
            )
    }

    /// Referential integrity: no entity references a parent that is
    /// gone.  This is the "no orphans survive" face of cascade
    /// deletion.
    pub open spec fn refs_ok(self) -> bool {
        &&& forall|i: int|
            0 <= i < self.channels@.len() ==> (#[trigger] self.channels@[i].server matches Some(sid)
                ==> self.has_server(sid))
        &&& forall|i: int|
            0 <= i < self.members@.len() ==> self.has_server(#[trigger] self.members@[i].server)
        &&& forall|i: int|
            0 <= i < self.bans@.len() ==> self.has_server(#[trigger] self.bans@[i].server)
        &&& forall|i: int|
            0 <= i < self.messages@.len() ==> self.has_channel(#[trigger] self.messages@[i].channel)
        &&& forall|i: int|
            0 <= i < self.webhooks@.len() ==> self.has_channel(#[trigger] self.webhooks@[i].channel)
        &&& forall|i: int|
            0 <= i < self.invites@.len() ==> self.has_channel(#[trigger] self.invites@[i].channel)
        &&& forall|i: int|
            0 <= i < self.emoji@.len() ==> self.has_server(#[trigger] self.emoji@[i].server)
        &&& forall|i: int|
            0 <= i < self.unreads@.len() ==> self.has_channel(#[trigger] self.unreads@[i].channel)
    }

    /// A member and a ban never coexist for one (server, user) pair.
    pub open spec fn bans_exclude_members(self) -> bool {
        forall|i: int|
            0 <= i < self.bans@.len() ==> !self.has_member(
                #[trigger] self.bans@[i].server,
                self.bans@[i].user,
            )
    }

    /// Every server's owner is a member of it.
    pub open spec fn owner_is_member(self) -> bool {
        forall|i: int|
            0 <= i < self.servers@.len() ==> self.has_member(
                (#[trigger] self.servers@[i]).id,
                self.servers@[i].owner,
            )
    }

    /// Every allocated id is below the allocator's counter.
    pub open spec fn ids_fresh(self) -> bool {
        &&& self.next_id >= 1
        &&& forall|i: int|
            0 <= i < self.servers@.len() ==> (#[trigger] self.servers@[i].id) < self.next_id
                && roles_fresh(self.servers@[i], self.next_id)
        &&& forall|i: int|
            0 <= i < self.channels@.len() ==> (#[trigger] self.channels@[i].id) < self.next_id
        &&& forall|i: int|
            0 <= i < self.messages@.len() ==> (#[trigger] self.messages@[i].id) < self.next_id
        &&& forall|i: int|
            0 <= i < self.webhooks@.len() ==> (#[trigger] self.webhooks@[i].id) < self.next_id
        &&& forall|i: int|
            0 <= i < self.invites@.len() ==> (#[trigger] self.invites@[i].id) < self.next_id
        &&& forall|i: int|
            0 <= i < self.emoji@.len() ==> (#[trigger] self.emoji@[i].id) < self.next_id
    }

    /// Acknowledgements reference recorded message ids, and every live
    /// message is recorded in the ledger.
    pub open spec fn acks_recorded(self) -> bool {
        &&& forall|i: int|
            0 <= i < self.unreads@.len() ==> (#[trigger] self.unreads@[i].last_read matches Some(
                mid,
            ) ==> self.ever_sent(self.unreads@[i].channel, mid))
        &&& forall|i: int|
            0 <= i < self.messages@.len() ==> self.ever_sent(
                (#[trigger] self.messages@[i]).channel,
                self.messages@[i].id,
            )
    }

    /// The store's consistency invariant: every lifecycle operation
    /// both relies on it and re-establishes it.
    pub open spec fn wf(self) -> bool {
        &&& users_keyed(self.users@)
        &&& users_fresh(self.users@, self.next_id)
        &&& self.keys_distinct()
        &&& self.entities_internally_keyed()
        &&& self.refs_ok()
        &&& self.bans_exclude_members()
        &&& self.owner_is_member()
        &&& self.ids_fresh()
        &&& self.acks_recorded()
    }

    /// Some user record carries this id.
    pub open spec fn has_user(self, id: u64) -> bool {
        exists|i: int| 0 <= i < self.users@.len() && self.users@[i].id == id
    }

    pub open spec fn user_idx(self, id: u64) -> int {
        choose|i: int| 0 <= i < self.users@.len() && self.users@[i].id == id
    }

    /// Some user's folded username equals this folded name.
    pub open spec fn username_taken(self, folded: Seq<char>) -> bool {
        exists|i: int|
            0 <= i < self.users@.len() && crate::onboard::lower_of(
                #[trigger] self.users@[i].username@,
            ) == folded
    }

    /// Index of the user record with this id: the user lookup that a
    /// fetch-user route performs.
    pub fn find_user(&self, id: u64) -> (r: Option<usize>)
        ensures
            match r {
                Some(i) => i < self.users@.len() && self.users@[i as int].id == id,
                None => !self.has_user(id),
            },
    {
        let mut i: usize = 0;
        while i < self.users.len()
            invariant
                0 <= i <= self.users@.len(),
                forall|k: int| 0 <= k < i ==> self.users@[k].id != id,
            decreases self.users@.len() - i,
        {
            if self.users[i].id == id {
                return Some(i);
            }
            i += 1;
        }
        None
    }

    /// Create a user at onboarding: the requested username must meet
    /// the username rule and be free under case-insensitive collation.
    /// Users are never hard-deleted afterwards, only flagged disabled.
    pub fn create_user(&mut self, username: String) -> (r: Result<u64, Error>)
        requires
            old(self).wf(),
            old(self).next_id < 0xFFFF_FFFF_FFFF_FFFF,
        ensures
            final(self).wf(),
            r is Err ==> *final(self) == *old(self),
            r == Err::<u64, Error>(Error::FailedValidation) <==> !crate::onboard::spec_valid_username(
                username@,
            ),
            r == Err::<u64, Error>(Error::UsernameTaken) <==> (crate::onboard::spec_valid_username(
                username@,
            ) && old(self).username_taken(crate::onboard::lower_of(username@))),
            r is Ok <==> (crate::onboard::spec_valid_username(username@) && !old(
                self,
            ).username_taken(crate::onboard::lower_of(username@))),
            r matches Ok(uid) ==> ({
                &&& uid == old(self).next_id
                &&& final(self).next_id == old(self).next_id + 1
                &&& final(self).users@.len() == old(self).users@.len() + 1
                &&& final(self).users@.subrange(0, old(self).users@.len() as int) =~= old(
                    self,
                ).users@
                &&& final(self).users@.last().id == uid
                &&& final(self).users@.last().username == username
                &&& final(self).users@.last().disabled == false
                &&& final(self).has_user(uid)
                &&& final(self).servers == old(self).servers
                &&& final(self).channels == old(self).channels
                &&& final(self).members == old(self).members
                &&& final(self).bans == old(self).bans
                &&& final(self).messages == old(self).messages
                &&& final(self).webhooks == old(self).webhooks
                &&& final(self).emoji == old(self).emoji
                &&& final(self).unreads == old(self).unreads
                &&& final(self).sent == old(self).sent
            }),
    {
        if !crate::onboard::valid_username(username.as_str()) {
            return Err(Error::FailedValidation);
        }
        let folded = crate::onboard::lowercase(username.as_str());
        let mut i: usize = 0;
        while i < self.users.len()
            invariant
                self.wf(),
                *self == *old(self),
                crate::onboard::spec_valid_username(username@),
                folded@ == crate::onboard::lower_of(username@),
                0 <= i <= self.users@.len(),
                forall|k: int|
                    0 <= k < i ==> crate::onboard::lower_of(
                        #[trigger] self.users@[k].username@,
                    ) != folded@,
            decreases self.users@.len() - i,
        {
            let other = crate::onboard::lowercase(self.users[i].username.as_str());
            if other == folded {
                proof {
                    assert(crate::onboard::lower_of(old(self).users@[i as int].username@)
                        == folded@);
                }
                return Err(Error::UsernameTaken);
            }
            i += 1;
        }
        proof {
            if old(self).username_taken(crate::onboard::lower_of(username@)) {
                let w = choose|w: int|
                    0 <= w < old(self).users@.len() && crate::onboard::lower_of(
                        old(self).users@[w].username@,
                    ) == crate::onboard::lower_of(username@);
                assert(crate::onboard::lower_of(self.users@[w].username@) != folded@);
                assert(false);
            }
        }
        let uid = self.next_id;
        self.next_id = self.next_id + 1;
        let u = User { id: uid, username: username, disabled: false };
        self.users.push(u);
        proof {
            let new = self.users@;
            let olds = old(self).users@;
            assert(new == olds.push(u));
            assert forall|a: int, b: int| 0 <= a < b < new.len() implies new[a].id
                != new[b].id by {
                if b == new.len() - 1 {
                    assert(olds[a].id < old(self).next_id);
                }
            }
            assert forall|a: int, b: int| 0 <= a < b < new.len() implies crate::onboard::lower_of(
                new[a].username@,
            ) != crate::onboard::lower_of(new[b].username@) by {
                if b == new.len() - 1 {
                    assert(crate::onboard::lower_of(olds[a].username@) != folded@);
                }
            }
            assert forall|a: int| 0 <= a < new.len() implies (#[trigger] new[a].id)
                < self.next_id by {
                if a < new.len() - 1 {
                    assert(olds[a].id < old(self).next_id);
                }
            }
            assert forall|a: int| 0 <= a < self.servers@.len() implies (
            #[trigger] self.servers@[a].id) < self.next_id && roles_fresh(
                self.servers@[a],
                self.next_id,
            ) by {
                assert(old(self).servers@[a].id < old(self).next_id);
                assert(roles_fresh(old(self).servers@[a], old(self).next_id));
                assert forall|l: int| 0 <= l < self.servers@[a].roles@.len() implies (
                #[trigger] self.servers@[a].roles@[l].id) < self.next_id by {
                    assert(old(self).servers@[a].roles@[l].id < old(self).next_id);
                }
            }
            assert(new[new.len() - 1] == u);
        }
        Ok(uid)
    }

    /// A change confined to the user table, keeping it keyed and
    /// fresh, preserves the store invariant.
    proof fn lemma_user_only_change_preserves_wf(self, pre: Store)
        requires
            pre.wf(),
            users_keyed(self.users@),
            users_fresh(self.users@, self.next_id),
            self.servers == pre.servers,
            self.channels == pre.channels,
            self.members == pre.members,
            self.bans == pre.bans,
            self.messages == pre.messages,
            self.webhooks == pre.webhooks,
            self.invites == pre.invites,
            self.emoji == pre.emoji,
            self.unreads == pre.unreads,
            self.sent == pre.sent,
            self.next_id == pre.next_id,
        ensures
            self.wf(),
    {
        assert forall|x: u64| pre.has_server(x) implies self.has_server(x) by {
            let w = choose|w: int| 0 <= w < pre.servers@.len() && pre.servers@[w].id == x;
            assert(self.servers@[w].id == x);
        }
        assert forall|x: u64| pre.has_channel(x) implies self.has_channel(x) by {
            let w = choose|w: int| 0 <= w < pre.channels@.len() && pre.channels@[w].id == x;
            assert(self.channels@[w].id == x);
        }
        assert forall|a: u64, b: u64| pre.has_member(a, b) == self.has_member(a, b) by {
            if pre.has_member(a, b) {
                let w = choose|w: int|
                    0 <= w < pre.members@.len() && pre.members@[w].server == a
                        && pre.members@[w].user == b;
                assert(self.members@[w].server == a && self.members@[w].user == b);
            }
            if self.has_member(a, b) {
                let w = choose|w: int|
                    0 <= w < self.members@.len() && self.members@[w].server == a
                        && self.members@[w].user == b;
                assert(pre.members@[w].server == a && pre.members@[w].user == b);
            }
        }
        assert forall|a: u64, b: u64| pre.ever_sent(a, b) implies self.ever_sent(a, b) by {
            let w = choose|w: int|
                0 <= w < pre.sent@.len() && pre.sent@[w] == (SentRecord {
                    channel: a,
                    message: b,
                });
            assert(self.sent@[w] == (SentRecord { channel: a, message: b }));
            assert(self.sent@.contains(self.sent@[w]));
        }
        assert forall|i: int| 0 <= i < self.channels@.len() implies (
        #[trigger] self.channels@[i].server matches Some(s2) ==> self.has_server(s2)) by {
            assert(pre.channels@[i].server matches Some(s2) ==> pre.has_server(s2));
            assert(self.channels@[i].server == pre.channels@[i].server);
        }
        assert forall|i: int| 0 <= i < self.members@.len() implies self.has_server(
            #[trigger] self.members@[i].server,
        ) by {
            assert(pre.has_server(pre.members@[i].server));
        }
        assert forall|i: int| 0 <= i < self.bans@.len() implies self.has_server(
            #[trigger] self.bans@[i].server,
        ) && !self.has_member(self.bans@[i].server, self.bans@[i].user) by {
            assert(pre.has_server(pre.bans@[i].server));
            assert(!pre.has_member(pre.bans@[i].server, pre.bans@[i].user));
        }
        assert forall|i: int| 0 <= i < self.messages@.len() implies self.has_channel(
            #[trigger] self.messages@[i].channel,
        ) by {
            assert(pre.has_channel(pre.messages@[i].channel));
        }
        assert forall|i: int| 0 <= i < self.webhooks@.len() implies self.has_channel(
            #[trigger] self.webhooks@[i].channel,
        ) by {
            assert(pre.has_channel(pre.webhooks@[i].channel));
        }
        assert forall|i: int| 0 <= i < self.invites@.len() implies self.has_channel(
            #[trigger] self.invites@[i].channel,
        ) by {
            assert(pre.has_channel(pre.invites@[i].channel));
        }
        assert forall|i: int| 0 <= i < self.emoji@.len() implies self.has_server(
            #[trigger] self.emoji@[i].server,
        ) by {
            assert(pre.has_server(pre.emoji@[i].server));
        }
        assert forall|i: int| 0 <= i < self.unreads@.len() implies self.has_channel(
            #[trigger] self.unreads@[i].channel,
        ) && (#[trigger] self.unreads@[i].last_read matches Some(m2) ==> self.ever_sent(
            self.unreads@[i].channel,
            m2,
        )) by {
            assert(pre.has_channel(pre.unreads@[i].channel));
            assert(pre.unreads@[i].last_read matches Some(m2) ==> pre.ever_sent(
                pre.unreads@[i].channel,
                m2,
            ));
        }
        assert forall|i: int| 0 <= i < self.servers@.len() implies self.has_member(
            (#[trigger] self.servers@[i]).id,
            self.servers@[i].owner,
        ) by {
            assert(pre.has_member(pre.servers@[i].id, pre.servers@[i].owner));
        }
        assert forall|i: int| 0 <= i < self.messages@.len() implies self.ever_sent(
            (#[trigger] self.messages@[i]).channel,
            self.messages@[i].id,
        ) by {
            assert(pre.ever_sent(pre.messages@[i].channel, pre.messages@[i].id));
        }
    }

    /// Flag a user disabled, or enabled again; a missing user is
    /// `NotFound`.
    pub fn set_user_disabled(&mut self, uid: u64, disabled: bool) -> (r: Result<(), Error>)
        requires
            old(self).wf(),
        ensures
            final(self).wf(),
            r is Err ==> *final(self) == *old(self),
            r == Err::<(), Error>(Error::NotFound) <==> !old(self).has_user(uid),
            r is Ok <==> old(self).has_user(uid),
            r is Ok ==> ({
                let k = old(self).user_idx(uid);
                &&& final(self).users@.len() == old(self).users@.len()
                &&& forall|i: int|
                    0 <= i < old(self).users@.len() && i != k ==> final(self).users@[i] == old(
                        self,
                    ).users@[i]
                &&& final(self).users@[k].id == uid
                &&& final(self).users@[k].username == old(self).users@[k].username
                &&& final(self).users@[k].disabled == disabled
                &&& final(self).servers == old(self).servers
                &&& final(self).channels == old(self).channels
                &&& final(self).members == old(self).members
                &&& final(self).bans == old(self).bans
                &&& final(self).messages == old(self).messages
                &&& final(self).webhooks == old(self).webhooks
                &&& final(self).emoji == old(self).emoji
                &&& final(self).unreads == old(self).unreads
                &&& final(self).sent == old(self).sent
                &&& final(self).next_id == old(self).next_id
            }),
    {
        let ui = match self.find_user(uid) {
            Some(i) => i,
            None => {
                return Err(Error::NotFound);
            },
        };
        proof {
            let k = old(self).user_idx(uid);
            assert(old(self).users@[k].id == uid);
            assert(ui as int == k);
        }
        self.users[ui].disabled = disabled;
        proof {
            let k = ui as int;
            assert forall|a: int, b: int| 0 <= a < b < self.users@.len() implies self.users@[a].id
                != self.users@[b].id by {
                assert(old(self).users@[a].id != old(self).users@[b].id);
                assert(self.users@[a].id == old(self).users@[a].id);
                assert(self.users@[b].id == old(self).users@[b].id);
            }
            assert forall|a: int, b: int|
                0 <= a < b < self.users@.len() implies crate::onboard::lower_of(
                self.users@[a].username@,
            ) != crate::onboard::lower_of(self.users@[b].username@) by {
                assert(crate::onboard::lower_of(old(self).users@[a].username@)
                    != crate::onboard::lower_of(old(self).users@[b].username@));
                assert(self.users@[a].username == old(self).users@[a].username);
                assert(self.users@[b].username == old(self).users@[b].username);
            }
            assert forall|a: int| 0 <= a < self.users@.len() implies (#[trigger] self.users@[a].id)
                < self.next_id by {
                assert(old(self).users@[a].id < old(self).next_id);
                assert(self.users@[a].id == old(self).users@[a].id);
            }
            self.lemma_user_only_change_preserves_wf(*old(self));
        }
        Ok(())
    }

    /// Index of the server with this id.
    pub fn find_server(&self, id: u64) -> (r: Option<usize>)
        ensures
            match r {
                Some(i) => i < self.servers@.len() && self.servers@[i as int].id == id,
                None => !self.has_server(id),
            },
    {
        let mut i: usize = 0;
        while i < self.servers.len()
            invariant
                0 <= i <= self.servers@.len(),
                forall|k: int| 0 <= k < i ==> self.servers@[k].id != id,
            decreases self.servers@.len() - i,
        {
            if self.servers[i].id == id {
                return Some(i);
            }
            i += 1;
        }
        None
    }

    /// Index of the channel with this id.
    pub fn find_channel(&self, id: u64) -> (r: Option<usize>)
        ensures
            match r {
                Some(i) => i < self.channels@.len() && self.channels@[i as int].id == id,
                None => !self.has_channel(id),
            },
    {
        let mut i: usize = 0;
        while i < self.channels.len()
            invariant
                0 <= i <= self.channels@.len(),
                forall|k: int| 0 <= k < i ==> self.channels@[k].id != id,
            decreases self.channels@.len() - i,
        {
            if self.channels[i].id == id {
                return Some(i);
            }
            i += 1;
        }
        None
    }

    /// Index of the membership record for this (server, user) pair.
    pub fn find_member(&self, sid: u64, uid: u64) -> (r: Option<usize>)
        ensures
            match r {
                Some(i) => i < self.members@.len() && self.members@[i as int].server == sid
                    && self.members@[i as int].user == uid,
                None => !self.has_member(sid, uid),
            },
    {
        let mut i: usize = 0;
        while i < self.members.len()
            invariant
                0 <= i <= self.members@.len(),
                forall|k: int|
                    0 <= k < i ==> !(self.members@[k].server == sid && self.members@[k].user
                        == uid),
            decreases self.members@.len() - i,
        {
            if self.members[i].server == sid && self.members[i].user == uid {
                return Some(i);
            }
            i += 1;
        }
        None
    }

    /// Index of the ban record for this (server, user) pair.
    pub fn find_ban(&self, sid: u64, uid: u64) -> (r: Option<usize>)
        ensures
            match r {
                Some(i) => i < self.bans@.len() && self.bans@[i as int].server == sid
                    && self.bans@[i as int].user == uid,
                None => !self.has_ban(sid, uid),
            },
    {
        let mut i: usize = 0;
        while i < self.bans.len()
            invariant
                0 <= i <= self.bans@.len(),
                forall|k: int|
                    0 <= k < i ==> !(self.bans@[k].server == sid && self.bans@[k].user == uid),
            decreases self.bans@.len() - i,
        {
            if self.bans[i].server == sid && self.bans[i].user == uid {
                return Some(i);
            }
            i += 1;
        }
        None
    }

    /// Index of the message with this id.
    pub fn find_message(&self, id: u64) -> (r: Option<usize>)
        ensures
            match r {
                Some(i) => i < self.messages@.len() && self.messages@[i as int].id == id,
                None => !self.has_message(id),
            },
    {
        let mut i: usize = 0;
        while i < self.messages.len()
            invariant
                0 <= i <= self.messages@.len(),
                forall|k: int| 0 <= k < i ==> self.messages@[k].id != id,
            decreases self.messages@.len() - i,
        {
            if self.messages[i].id == id {
                return Some(i);
            }
            i += 1;
        }
        None
    }

    /// Index of the read-state row for this (user, channel) pair.
    pub fn find_unread(&self, uid: u64, cid: u64) -> (r: Option<usize>)
        ensures
            match r {
                Some(i) => i < self.unreads@.len() && self.unreads@[i as int].user == uid
                    && self.unreads@[i as int].channel == cid,
                None => !self.has_unread(uid, cid),
            },
    {
        let mut i: usize = 0;
        while i < self.unreads.len()
            invariant
                0 <= i <= self.unreads@.len(),
                forall|k: int|
                    0 <= k < i ==> !(self.unreads@[k].user == uid && self.unreads@[k].channel
                        == cid),
            decreases self.unreads@.len() - i,
        {
            if self.unreads[i].user == uid && self.unreads[i].channel == cid {
                return Some(i);
            }
            i += 1;
        }
        None
    }

    /// Whether a message id was ever accepted into this channel.
    pub fn was_sent(&self, cid: u64, mid: u64) -> (r: bool)
        ensures
            r == self.ever_sent(cid, mid),
    {
        let mut i: usize = 0;
        while i < self.sent.len()
            invariant
                0 <= i <= self.sent@.len(),
                forall|k: int|
                    0 <= k < i ==> self.sent@[k] != (SentRecord { channel: cid, message: mid }),
            decreases self.sent@.len() - i,
        {
            if self.sent[i].channel == cid && self.sent[i].message == mid {
                return true;
            }
            i += 1;
        }
        false
    }

    /// Whether the channel exists and belongs to this server.
    pub fn channel_belongs(&self, cid: u64, sid: u64) -> (r: bool)
        ensures
            r == self.channel_in_server(cid, sid),
    {
        let mut i: usize = 0;
        while i < self.channels.len()
            invariant
                0 <= i <= self.channels@.len(),
                forall|k: int|
                    0 <= k < i ==> !(self.channels@[k].id == cid && self.channels@[k].server
                        == Some(sid)),
            decreases self.channels@.len() - i,
        {
            let here = match self.channels[i].server {
                Some(s) => s == sid,
                None => false,
            };
            if self.channels[i].id == cid && here {
                return true;
            }
            i += 1;
        }
        false
    }
}

} // verus!
