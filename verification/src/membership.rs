//! Membership lifecycle: joining, leaving, kicking, banning, and role
//! assignment, with the invariants that an owner never leaves without
//! an ownership transfer and that a ban and a membership never coexist.

use vstd::prelude::*;
use crate::Error;
use crate::perms::{
    Role, held_roles, spec_resolve_server, resolve_server, ALL_PERMISSIONS, P_BAN_MEMBERS,
    P_KICK_MEMBERS, P_MANAGE_ROLES,
};
use crate::store::{Store, Member, Ban, Channel, UnreadState};
use crate::table::{lemma_filter_contains, lemma_filter_in, lemma_filter_distinct};

verus! {

/// The actor's best (numerically lowest) role rank is strictly lower
/// than the rank of every role the target holds; vacuously true when
/// the target holds no role.
pub open spec fn spec_outranks(roles: Seq<Role>, actor_held: Seq<u64>, target_held: Seq<u64>) -> bool {
    held_roles(roles, target_held).len() == 0 || exists|i: int|
        0 <= i < held_roles(roles, actor_held).len() && (forall|j: int|
            0 <= j < held_roles(roles, target_held).len() ==> (
            #[trigger] held_roles(roles, actor_held)[i]).rank < (#[trigger] held_roles(
                roles,
                target_held,
            )[j]).rank)
}

/// Rank comparison for moderation: the actor moderates the target only
/// from a strictly higher authority.
pub fn outranks(roles: &Vec<Role>, actor_held: &Vec<u64>, target_held: &Vec<u64>) -> (r: bool)
    ensures
        r == spec_outranks(roles@, actor_held@, target_held@),
{
    let mine = crate::perms::gather_held(roles, actor_held);
    let theirs = crate::perms::gather_held(roles, target_held);
    if theirs.len() == 0 {
        return true;
    }
    if mine.len() == 0 {
        return false;
    }
    let mut best: u32 = mine[0].rank;
    let mut i: usize = 1;
    while i < mine.len()
        invariant
            1 <= i <= mine@.len(),
            mine@.len() > 0,
            exists|k: int| 0 <= k < mine@.len() && mine@[k].rank == best,
            forall|k: int| 0 <= k < i ==> mine@[k].rank >= best,
        decreases mine@.len() - i,
    {
        if mine[i].rank < best {
            best = mine[i].rank;
        }
        i += 1;
    }
    let mut j: usize = 0;
    while j < theirs.len()
        invariant
            0 <= j <= theirs@.len(),
            forall|k: int| 0 <= k < j ==> (#[trigger] theirs@[k]).rank > best,
            exists|k: int| 0 <= k < mine@.len() && mine@[k].rank == best,
            forall|k: int| 0 <= k < mine@.len() ==> mine@[k].rank >= best,
            theirs@.len() > 0,
            mine@ == held_roles(roles@, actor_held@),
            theirs@ == held_roles(roles@, target_held@),
        decreases theirs@.len() - j,
    {
        if theirs[j].rank <= best {
            proof {
                let ha = held_roles(roles@, actor_held@);
                let ht = held_roles(roles@, target_held@);
                assert(mine@ == ha && theirs@ == ht);
                if spec_outranks(roles@, actor_held@, target_held@) {
                    let wi = choose|i: int|
                        0 <= i < ha.len() && (forall|l: int|
                            0 <= l < ht.len() ==> (#[trigger] ha[i]).rank < (#[trigger] ht[
                                l
                            ]).rank);
                    assert(ha[wi].rank < ht[j as int].rank);
                    assert(mine@[wi].rank >= best);
                    assert(false);
                }
            }
            return false;
        }
        j += 1;
    }
    proof {
        let ha = held_roles(roles@, actor_held@);
        let ht = held_roles(roles@, target_held@);
        assert(mine@ == ha && theirs@ == ht);
        let k = choose|k: int| 0 <= k < mine@.len() && mine@[k].rank == best;
        assert forall|l: int| 0 <= l < ht.len() implies (#[trigger] ha[k]).rank < (
        #[trigger] ht[l]).rank by {
            assert(theirs@[l].rank > best);
        }
        assert(0 <= k < ha.len());
    }
    true
}

/// The channel exists in `chans` and belongs to server `sid`.
pub open spec fn channel_of(chans: Seq<Channel>, cid: u64, sid: u64) -> bool {
    exists|i: int| 0 <= i < chans.len() && chans[i].id == cid && chans[i].server == Some(sid)
}

/// The member table without the record for (`sid`, `uid`).
pub open spec fn members_without(s: Seq<Member>, sid: u64, uid: u64) -> Seq<Member> {
    s.filter(|m: Member| !(m.server == sid && m.user == uid))
}

/// The ban table without the record for (`sid`, `uid`).
pub open spec fn bans_without(s: Seq<Ban>, sid: u64, uid: u64) -> Seq<Ban> {
    s.filter(|b: Ban| !(b.server == sid && b.user == uid))
}

/// The read-state table without the rows of user `uid` that point into
/// channels of server `sid`.
pub open spec fn unreads_shed(s: Seq<UnreadState>, chans: Seq<Channel>, sid: u64, uid: u64) -> Seq<
    UnreadState,
> {
    s.filter(|u: UnreadState| !(u.user == uid && channel_of(chans, u.channel, sid)))
}

/// Whether `chans` holds a channel `cid` belonging to server `sid`.
pub fn channel_of_vec(chans: &Vec<Channel>, cid: u64, sid: u64) -> (r: bool)
    ensures
        r == channel_of(chans@, cid, sid),
{
    let mut i: usize = 0;
    while i < chans.len()
        invariant
            0 <= i <= chans@.len(),
            forall|k: int|
                0 <= k < i ==> !(chans@[k].id == cid && chans@[k].server == Some(sid)),
        decreases chans@.len() - i,
    {
        let here = match chans[i].server {
            Some(s) => s == sid,
            None => false,
        };
        if chans[i].id == cid && here {
            return true;
        }
        i += 1;
    }
    false
}

fn drop_member(v: Vec<Member>, sid: u64, uid: u64) -> (out: Vec<Member>)
    ensures
        out@ == members_without(v@, sid, uid),
{
    let ghost orig = v@;
    let mut v = v;
    let mut out: Vec<Member> = Vec::new();
    proof {
        reveal(Seq::filter);
        assert(orig.subrange(0, 0) =~= Seq::<Member>::empty());
    }
    while v.len() > 0
        invariant
            v@.len() <= orig.len(),
            v@ =~= orig.subrange(orig.len() - v@.len(), orig.len() as int),
            out@ == members_without(orig.subrange(0, orig.len() - v@.len()), sid, uid),
        decreases v@.len(),
    {
        let ghost n = orig.len() - v@.len();
        proof {
            reveal(Seq::filter);
            assert(v@[0] == orig[n as int]);
            assert(orig.subrange(0, n as int + 1).drop_last() =~= orig.subrange(0, n as int));
            assert(orig.subrange(0, n as int + 1).last() == orig[n as int]);
        }
        let m = v.remove(0);
        if !(m.server == sid && m.user == uid) {
            out.push(m);
        }
        proof {
            assert(v@ =~= orig.subrange(orig.len() - v@.len(), orig.len() as int));
        }
    }
    proof {
        assert(orig.subrange(0, orig.len() as int) =~= orig);
    }
    out
}

fn drop_ban(v: Vec<Ban>, sid: u64, uid: u64) -> (out: Vec<Ban>)
    ensures
        out@ == bans_without(v@, sid, uid),
{
    let ghost orig = v@;
    let mut v = v;
    let mut out: Vec<Ban> = Vec::new();
    proof {
        reveal(Seq::filter);
        assert(orig.subrange(0, 0) =~= Seq::<Ban>::empty());
    }
    while v.len() > 0
        invariant
            v@.len() <= orig.len(),
            v@ =~= orig.subrange(orig.len() - v@.len(), orig.len() as int),
            out@ == bans_without(orig.subrange(0, orig.len() - v@.len()), sid, uid),
        decreases v@.len(),
    {
        let ghost n = orig.len() - v@.len();
        proof {
            reveal(Seq::filter);
            assert(v@[0] == orig[n as int]);
            assert(orig.subrange(0, n as int + 1).drop_last() =~= orig.subrange(0, n as int));
            assert(orig.subrange(0, n as int + 1).last() == orig[n as int]);
        }
        let b = v.remove(0);
        if !(b.server == sid && b.user == uid) {
            out.push(b);
        }
        proof {
            assert(v@ =~= orig.subrange(orig.len() - v@.len(), orig.len() as int));
        }
    }
    proof {
        assert(orig.subrange(0, orig.len() as int) =~= orig);
    }
    out
}

fn shed_unreads(v: Vec<UnreadState>, chans: &Vec<Channel>, sid: u64, uid: u64) -> (out: Vec<
    UnreadState,
>)
    ensures
        out@ == unreads_shed(v@, chans@, sid, uid),
{
    let ghost orig = v@;
    let mut v = v;
    let mut out: Vec<UnreadState> = Vec::new();
    proof {
        reveal(Seq::filter);
        assert(orig.subrange(0, 0) =~= Seq::<UnreadState>::empty());
    }
    while v.len() > 0
        invariant
            v@.len() <= orig.len(),
            v@ =~= orig.subrange(orig.len() - v@.len(), orig.len() as int),
            out@ == unreads_shed(orig.subrange(0, orig.len() - v@.len()), chans@, sid, uid),
        decreases v@.len(),
    {
        let ghost n = orig.len() - v@.len();
        proof {
            reveal(Seq::filter);
            assert(v@[0] == orig[n as int]);
            assert(orig.subrange(0, n as int + 1).drop_last() =~= orig.subrange(0, n as int));
            assert(orig.subrange(0, n as int + 1).last() == orig[n as int]);
        }
        let u = v.remove(0);
        let of_server = channel_of_vec(chans, u.channel, sid);
        if !(u.user == uid && of_server) {
            out.push(u);
        }
        proof {
            assert(v@ =~= orig.subrange(orig.len() - v@.len(), orig.len() as int));
        }
    }
    proof {
        assert(orig.subrange(0, orig.len() as int) =~= orig);
    }
    out
}

impl Store {
    /// Server-level authority of an actor in a stored server: the
    /// owner holds everything, a non-member nothing, and a member the
    /// fold of their held roles over the server default.
    pub open spec fn server_perms(self, sid: u64, actor: u64) -> u64 {
        let s = self.servers@[self.server_idx(sid)];
        if actor == s.owner {
            ALL_PERMISSIONS
        } else if !self.has_member(sid, actor) {
            0
        } else {
            spec_resolve_server(
                s.owner,
                s.default_perms,
                s.roles@,
                actor,
                self.members@[self.member_idx(sid, actor)].roles@,
            )
        }
    }

    /// Compute the server-level authority of `actor` in the server at
    /// index `si`.
    pub fn compute_server_perms(&self, si: usize, actor: u64) -> (p: u64)
        requires
            self.wf(),
            si < self.servers@.len(),
        ensures
            p == self.server_perms(self.servers@[si as int].id, actor),
    {
        let sid = self.servers[si].id;
        proof {
            let j = self.server_idx(sid);
            assert(self.servers@[j].id == sid);
            assert(si as int == j);
        }
        if actor == self.servers[si].owner {
            return ALL_PERMISSIONS;
        }
        let mi = match self.find_member(sid, actor) {
            Some(mi) => mi,
            None => {
                return 0;
            },
        };
        proof {
            let k = self.member_idx(sid, actor);
            assert(self.members@[k].server == sid && self.members@[k].user == actor);
            assert(mi as int == k);
        }
        resolve_server(
            self.servers[si].owner,
            self.servers[si].default_perms,
            &self.servers[si].roles,
            actor,
            &self.members[mi].roles,
        )
    }

    /// A user joins a server: fails with `Banned` while a ban record
    /// exists and with `AlreadyMember` if a membership already does;
    /// otherwise a member record with no roles is created.
    pub fn join(&mut self, sid: u64, uid: u64, now: u64) -> (r: Result<(), Error>)
        requires
            old(self).wf(),
        ensures
            final(self).wf(),
            r == Err::<(), Error>(Error::NotFound) <==> !old(self).has_server(sid),
            r == Err::<(), Error>(Error::Banned) <==> old(self).has_server(sid) && old(
                self,
            ).has_ban(sid, uid),
            r == Err::<(), Error>(Error::AlreadyMember) <==> old(self).has_server(sid) && !old(
                self,
            ).has_ban(sid, uid) && old(self).has_member(sid, uid),
            r is Ok <==> old(self).has_server(sid) && !old(self).has_ban(sid, uid) && !old(
                self,
            ).has_member(sid, uid),
            r is Err ==> *final(self) == *old(self),
            r is Ok ==> ({
                &&& final(self).members@.len() == old(self).members@.len() + 1
                &&& final(self).members@.subrange(0, old(self).members@.len() as int) =~= old(
                    self,
                ).members@
                &&& final(self).members@.last().server == sid
                &&& final(self).members@.last().user == uid
                &&& final(self).members@.last().joined == now
                &&& final(self).members@.last().roles@ =~= Seq::<u64>::empty()
                &&& final(self).members@.last().nickname is None
                &&& final(self).servers == old(self).servers
                &&& final(self).channels == old(self).channels
                &&& final(self).bans == old(self).bans
                &&& final(self).messages == old(self).messages
                &&& final(self).webhooks == old(self).webhooks
                &&& final(self).invites == old(self).invites
                &&& final(self).emoji == old(self).emoji
                &&& final(self).unreads == old(self).unreads
                &&& final(self).sent == old(self).sent
                &&& final(self).users == old(self).users
                &&& final(self).next_id == old(self).next_id
            }),
            final(self).has_member(sid, uid) <==> (old(self).has_member(sid, uid) || r is Ok),
    {
        if self.find_server(sid).is_none() {
            return Err(Error::NotFound);
        }
        if self.find_ban(sid, uid).is_some() {
            return Err(Error::Banned);
        }
        if self.find_member(sid, uid).is_some() {
            return Err(Error::AlreadyMember);
        }
        let m = Member { server: sid, user: uid, nickname: None, joined: now, roles: Vec::new() };
        self.members.push(m);
        proof {
            let new = self.members@;
            let olds = old(self).members@;
            assert(new == olds.push(m));
            assert(forall|i: int| 0 <= i < olds.len() ==> new[i] == olds[i]);
            assert forall|i: int, j: int| 0 <= i < j < new.len() implies crate::store::member_key(
                new[i],
            ) != crate::store::member_key(new[j]) by {
                if j == olds.len() {
                    assert(!(olds[i].server == sid && olds[i].user == uid));
                }
            }
            assert forall|i: int| 0 <= i < self.bans@.len() implies !final(self).has_member(
                #[trigger] self.bans@[i].server,
                self.bans@[i].user,
            ) by {
                assert(!old(self).has_member(self.bans@[i].server, self.bans@[i].user));
                assert(!(self.bans@[i].server == sid && self.bans@[i].user == uid));
                if final(self).has_member(self.bans@[i].server, self.bans@[i].user) {
                    let k = choose|k: int|
                        0 <= k < new.len() && new[k].server == self.bans@[i].server && new[k].user
                            == self.bans@[i].user;
                    assert(k < olds.len());
                }
            }
            assert forall|i: int| 0 <= i < self.servers@.len() implies final(self).has_member(
                (#[trigger] self.servers@[i]).id,
                self.servers@[i].owner,
            ) by {
                let k = old(self).member_idx(self.servers@[i].id, self.servers@[i].owner);
                assert(new[k].server == self.servers@[i].id);
            }
            assert(final(self).members@.last().roles@ =~= Seq::<u64>::empty());
        }
        Ok(())
    }

    /// A user leaves a server: fails with `OwnerCannotLeave` for the
    /// owner; otherwise the member record and the user's read-state
    /// rows in the server's channels are deleted together.
    pub fn leave(&mut self, sid: u64, uid: u64) -> (r: Result<(), Error>)
        requires
            old(self).wf(),
        ensures
            final(self).wf(),
            r == Err::<(), Error>(Error::NotFound) <==> (!old(self).has_server(sid) || (old(
                self,
            ).has_server(sid) && old(self).servers@[old(self).server_idx(sid)].owner != uid && !old(
                self,
            ).has_member(sid, uid))),
            r == Err::<(), Error>(Error::OwnerCannotLeave) <==> (old(self).has_server(sid) && old(
                self,
            ).servers@[old(self).server_idx(sid)].owner == uid),
            r is Ok <==> (old(self).has_server(sid) && old(self).servers@[old(self).server_idx(
                sid,
            )].owner != uid && old(self).has_member(sid, uid)),
            r is Err ==> *final(self) == *old(self),
            r is Ok ==> ({
                &&& final(self).members@ == members_without(old(self).members@, sid, uid)
                &&& final(self).unreads@ == unreads_shed(
                    old(self).unreads@,
                    old(self).channels@,
                    sid,
                    uid,
                )
                &&& final(self).servers == old(self).servers
                &&& final(self).channels == old(self).channels
                &&& final(self).bans == old(self).bans
                &&& final(self).messages == old(self).messages
                &&& final(self).webhooks == old(self).webhooks
                &&& final(self).invites == old(self).invites
                &&& final(self).emoji == old(self).emoji
                &&& final(self).sent == old(self).sent
                &&& final(self).users == old(self).users
                &&& final(self).next_id == old(self).next_id
            }),
            !final(self).has_member(sid, uid) || r is Err,
    {
        let si = match self.find_server(sid) {
            Some(i) => i,
            None => {
                return Err(Error::NotFound);
            },
        };
        proof {
            let j = old(self).server_idx(sid);
            assert(old(self).servers@[j].id == sid);
            assert(si as int == j);
        }
        if self.servers[si].owner == uid {
            return Err(Error::OwnerCannotLeave);
        }
        if self.find_member(sid, uid).is_none() {
            return Err(Error::NotFound);
        }
        let mut members: Vec<Member> = Vec::new();
        core::mem::swap(&mut members, &mut self.members);
        self.members = drop_member(members, sid, uid);
        let mut unreads: Vec<UnreadState> = Vec::new();
        core::mem::swap(&mut unreads, &mut self.unreads);
        self.unreads = shed_unreads(unreads, &self.channels, sid, uid);
        proof {
            self.lemma_membership_removal_preserves_wf(*old(self), sid, uid);
        }
        Ok(())
    }

    /// Kick a member: requires the kick-members bit; the target must
    /// not be the owner.  Deletes the member record and the target's
    /// read state in the server's channels.
    pub fn kick(&mut self, actor: u64, sid: u64, uid: u64) -> (r: Result<(), Error>)
        requires
            old(self).wf(),
        ensures
            final(self).wf(),
            r == Err::<(), Error>(Error::NotFound) <==> (!old(self).has_server(sid) || (old(
                self,
            ).has_server(sid) && old(self).server_perms(sid, actor) & P_KICK_MEMBERS
                != 0 && old(self).servers@[old(self).server_idx(sid)].owner != uid && !old(
                self,
            ).has_member(sid, uid))),
            r == Err::<(), Error>(Error::Forbidden) <==> (old(self).has_server(sid) && old(
                self,
            ).server_perms(sid, actor) & P_KICK_MEMBERS == 0),
            r == Err::<(), Error>(Error::OwnerCannotLeave) <==> (old(self).has_server(sid) && old(
                self,
            ).server_perms(sid, actor) & P_KICK_MEMBERS != 0 && old(self).servers@[old(
                self,
            ).server_idx(sid)].owner == uid),
            r is Ok <==> (old(self).has_server(sid) && old(self).server_perms(sid, actor)
                & P_KICK_MEMBERS != 0 && old(self).servers@[old(self).server_idx(sid)].owner != uid
                && old(self).has_member(sid, uid)),
            r is Err ==> *final(self) == *old(self),
            r is Ok ==> ({
                &&& final(self).members@ == members_without(old(self).members@, sid, uid)
                &&& final(self).unreads@ == unreads_shed(
                    old(self).unreads@,
                    old(self).channels@,
                    sid,
                    uid,
                )
                &&& final(self).servers == old(self).servers
                &&& final(self).channels == old(self).channels
                &&& final(self).bans == old(self).bans
                &&& final(self).messages == old(self).messages
                &&& final(self).webhooks == old(self).webhooks
                &&& final(self).invites == old(self).invites
                &&& final(self).emoji == old(self).emoji
                &&& final(self).sent == old(self).sent
                &&& final(self).users == old(self).users
                &&& final(self).next_id == old(self).next_id
            }),
            r is Ok ==> !final(self).has_member(sid, uid),
    {
        let si = match self.find_server(sid) {
            Some(i) => i,
            None => {
                return Err(Error::NotFound);
            },
        };
        proof {
            let j = old(self).server_idx(sid);
            assert(old(self).servers@[j].id == sid);
            assert(si as int == j);
        }
        let p = self.compute_server_perms(si, actor);
        if p & P_KICK_MEMBERS == 0 {
            return Err(Error::Forbidden);
        }
        if self.servers[si].owner == uid {
            return Err(Error::OwnerCannotLeave);
        }
        if self.find_member(sid, uid).is_none() {
            return Err(Error::NotFound);
        }
        let mut members: Vec<Member> = Vec::new();
        core::mem::swap(&mut members, &mut self.members);
        self.members = drop_member(members, sid, uid);
        let mut unreads: Vec<UnreadState> = Vec::new();
        core::mem::swap(&mut unreads, &mut self.unreads);
        self.unreads = shed_unreads(unreads, &self.channels, sid, uid);
        proof {
            self.lemma_membership_removal_preserves_wf(*old(self), sid, uid);
        }
        Ok(())
    }

    /// Ban a user: requires the ban-members bit and, unless the actor
    /// owns the server, a strictly higher rank than every role the
    /// target holds.  Removes any member record and the target's read
    /// state in the server together with creating the ban; re-banning
    /// an already banned user is a no-op.
    pub fn ban(&mut self, actor: u64, sid: u64, uid: u64, reason: String) -> (r: Result<
        (),
        Error,
    >)
        requires
            old(self).wf(),
        ensures
            final(self).wf(),
            r == Err::<(), Error>(Error::NotFound) <==> !old(self).has_server(sid),
            r == Err::<(), Error>(Error::Forbidden) <==> (old(self).has_server(sid) && old(
                self,
            ).server_perms(sid, actor) & P_BAN_MEMBERS == 0),
            r == Err::<(), Error>(Error::OwnerCannotLeave) <==> (old(self).has_server(sid) && old(
                self,
            ).server_perms(sid, actor) & P_BAN_MEMBERS != 0 && old(self).servers@[old(
                self,
            ).server_idx(sid)].owner == uid),
            r == Err::<(), Error>(Error::InsufficientRank) <==> (old(self).has_server(sid) && old(
                self,
            ).server_perms(sid, actor) & P_BAN_MEMBERS != 0 && old(self).servers@[old(
                self,
            ).server_idx(sid)].owner != uid && actor != old(self).servers@[old(self).server_idx(
                sid,
            )].owner && !spec_outranks(
                old(self).servers@[old(self).server_idx(sid)].roles@,
                old(self).actor_held(sid, actor),
                old(self).actor_held(sid, uid),
            )),
            r is Ok <==> (old(self).has_server(sid) && old(self).server_perms(sid, actor)
                & P_BAN_MEMBERS != 0 && old(self).servers@[old(self).server_idx(sid)].owner != uid
                && (actor == old(self).servers@[old(self).server_idx(sid)].owner || spec_outranks(
                old(self).servers@[old(self).server_idx(sid)].roles@,
                old(self).actor_held(sid, actor),
                old(self).actor_held(sid, uid),
            ))),
            r is Ok ==> final(self).has_ban(sid, uid) && !final(self).has_member(sid, uid),
            r is Err ==> *final(self) == *old(self),
            r is Ok && old(self).has_ban(sid, uid) ==> *final(self) == *old(self),
            r is Ok && !old(self).has_ban(sid, uid) ==> ({
                &&& final(self).members@ == members_without(old(self).members@, sid, uid)
                &&& final(self).unreads@ == unreads_shed(
                    old(self).unreads@,
                    old(self).channels@,
                    sid,
                    uid,
                )
                &&& final(self).bans@.len() == old(self).bans@.len() + 1
                &&& final(self).bans@.subrange(0, old(self).bans@.len() as int) =~= old(self).bans@
                &&& final(self).bans@.last().server == sid
                &&& final(self).bans@.last().user == uid
                &&& final(self).bans@.last().reason == reason
                &&& final(self).servers == old(self).servers
                &&& final(self).channels == old(self).channels
                &&& final(self).messages == old(self).messages
                &&& final(self).webhooks == old(self).webhooks
                &&& final(self).invites == old(self).invites
                &&& final(self).emoji == old(self).emoji
                &&& final(self).sent == old(self).sent
                &&& final(self).users == old(self).users
                &&& final(self).next_id == old(self).next_id
            }),
    {
        let si = match self.find_server(sid) {
            Some(i) => i,
            None => {
                return Err(Error::NotFound);
            },
        };
        proof {
            let j = old(self).server_idx(sid);
            assert(old(self).servers@[j].id == sid);
            assert(si as int == j);
        }
        let p = self.compute_server_perms(si, actor);
        if p & P_BAN_MEMBERS == 0 {
            return Err(Error::Forbidden);
        }
        if self.servers[si].owner == uid {
            return Err(Error::OwnerCannotLeave);
        }
        if actor != self.servers[si].owner {
            let mine = self.held_of(sid, actor);
            let theirs = self.held_of(sid, uid);
            if !outranks(&self.servers[si].roles, &mine, &theirs) {
                return Err(Error::InsufficientRank);
            }
        }
        if self.find_ban(sid, uid).is_some() {
            return Ok(());
        }
        let mut members: Vec<Member> = Vec::new();
        core::mem::swap(&mut members, &mut self.members);
        self.members = drop_member(members, sid, uid);
        let mut unreads: Vec<UnreadState> = Vec::new();
        core::mem::swap(&mut unreads, &mut self.unreads);
        self.unreads = shed_unreads(unreads, &self.channels, sid, uid);
        proof {
            self.lemma_membership_removal_preserves_wf(*old(self), sid, uid);
        }
        let ghost mid = *self;
        let b = Ban { server: sid, user: uid, reason: reason };
        self.bans.push(b);
        proof {
            let new = self.bans@;
            let olds = mid.bans@;
            assert(new == olds.push(b));
            assert forall|i: int, j: int| 0 <= i < j < new.len() implies crate::store::ban_key(
                new[i],
            ) != crate::store::ban_key(new[j]) by {
                if j == olds.len() {
                    assert(!(olds[i].server == sid && olds[i].user == uid));
                }
            }
            assert forall|i: int| 0 <= i < new.len() implies !self.has_member(
                #[trigger] new[i].server,
                new[i].user,
            ) by {
                if i < olds.len() {
                    assert(!mid.has_member(new[i].server, new[i].user));
                    assert(self.members@ == mid.members@);
                } else {
                    assert(!mid.has_member(sid, uid));
                    assert(self.members@ == mid.members@);
                }
            }
            assert forall|i: int| 0 <= i < new.len() implies self.has_server(
                #[trigger] new[i].server,
            ) by {
                if i < olds.len() {
                    assert(mid.has_server(new[i].server));
                    assert(self.servers@ == mid.servers@);
                } else {
                    assert(self.servers@[si as int].id == sid);
                }
            }
            assert(self.bans@[self.bans@.len() - 1] == b);
            assert(self.has_ban(sid, uid));
            assert(self.members@ == mid.members@);
            assert(!self.has_member(sid, uid));
        }
        Ok(())
    }

    /// Lift a ban: requires the ban-members bit; fails with `NotFound`
    /// when no ban exists.
    pub fn unban(&mut self, actor: u64, sid: u64, uid: u64) -> (r: Result<(), Error>)
        requires
            old(self).wf(),
        ensures
            final(self).wf(),
            r == Err::<(), Error>(Error::NotFound) <==> (!old(self).has_server(sid) || (old(
                self,
            ).has_server(sid) && old(self).server_perms(sid, actor) & P_BAN_MEMBERS != 0 && !old(
                self,
            ).has_ban(sid, uid))),
            r == Err::<(), Error>(Error::Forbidden) <==> (old(self).has_server(sid) && old(
                self,
            ).server_perms(sid, actor) & P_BAN_MEMBERS == 0),
            r is Ok <==> (old(self).has_server(sid) && old(self).server_perms(sid, actor)
                & P_BAN_MEMBERS != 0 && old(self).has_ban(sid, uid)),
            r is Err ==> *final(self) == *old(self),
            r is Ok ==> ({
                &&& final(self).bans@ == bans_without(old(self).bans@, sid, uid)
                &&& final(self).servers == old(self).servers
                &&& final(self).channels == old(self).channels
                &&& final(self).members == old(self).members
                &&& final(self).messages == old(self).messages
                &&& final(self).webhooks == old(self).webhooks
                &&& final(self).invites == old(self).invites
                &&& final(self).emoji == old(self).emoji
                &&& final(self).unreads == old(self).unreads
                &&& final(self).sent == old(self).sent
                &&& final(self).users == old(self).users
                &&& final(self).next_id == old(self).next_id
            }),
            r is Ok ==> !final(self).has_ban(sid, uid),
    {
        let si = match self.find_server(sid) {
            Some(i) => i,
            None => {
                return Err(Error::NotFound);
            },
        };
        proof {
            let j = old(self).server_idx(sid);
            assert(old(self).servers@[j].id == sid);
            assert(si as int == j);
        }
        let p = self.compute_server_perms(si, actor);
        if p & P_BAN_MEMBERS == 0 {
            return Err(Error::Forbidden);
        }
        if self.find_ban(sid, uid).is_none() {
            return Err(Error::NotFound);
        }
        let mut bans: Vec<Ban> = Vec::new();
        core::mem::swap(&mut bans, &mut self.bans);
        self.bans = drop_ban(bans, sid, uid);
        proof {
            let bpred = |b: Ban| !(b.server == sid && b.user == uid);
            assert(self.bans@ == old(self).bans@.filter(bpred));
            lemma_filter_contains(old(self).bans@, bpred);
            lemma_filter_in(old(self).bans@, bpred);
            lemma_filter_distinct(old(self).bans@, bpred, |b: Ban| crate::store::ban_key(b));
            assert forall|i: int| 0 <= i < self.bans@.len() implies self.has_server(
                #[trigger] self.bans@[i].server,
            ) && !self.has_member(self.bans@[i].server, self.bans@[i].user) by {
                assert(self.bans@.contains(self.bans@[i]));
                assert(old(self).bans@.contains(self.bans@[i]));
                let k = choose|k: int|
                    0 <= k < old(self).bans@.len() && old(self).bans@[k] == self.bans@[i];
                assert(old(self).has_server(old(self).bans@[k].server));
                assert(!old(self).has_member(old(self).bans@[k].server, old(self).bans@[k].user));
                assert(self.servers@ == old(self).servers@);
                assert(self.members@ == old(self).members@);
            }
            if self.has_ban(sid, uid) {
                let k = choose|k: int|
                    0 <= k < self.bans@.len() && self.bans@[k].server == sid && self.bans@[k].user
                        == uid;
                assert(self.bans@.contains(self.bans@[k]));
            }
        }
        Ok(())
    }

    /// The role ids held by a user in a server: the member record's
    /// role list, or nothing for a non-member.
    pub open spec fn actor_held(self, sid: u64, uid: u64) -> Seq<u64> {
        if self.has_member(sid, uid) {
            self.members@[self.member_idx(sid, uid)].roles@
        } else {
            Seq::empty()
        }
    }

    pub(crate) fn held_of(&self, sid: u64, uid: u64) -> (out: Vec<u64>)
        requires
            self.wf(),
        ensures
            out@ == self.actor_held(sid, uid),
    {
        match self.find_member(sid, uid) {
            Some(mi) => {
                proof {
                    let k = self.member_idx(sid, uid);
                    assert(self.members@[k].server == sid && self.members@[k].user == uid);
                    assert(mi as int == k);
                }
                let mut out: Vec<u64> = Vec::new();
                let mut i: usize = 0;
                while i < self.members[mi].roles.len()
                    invariant
                        mi < self.members@.len(),
                        0 <= i <= self.members@[mi as int].roles@.len(),
                        out@ =~= self.members@[mi as int].roles@.subrange(0, i as int),
                    decreases self.members@[mi as int].roles@.len() - i,
                {
                    out.push(self.members[mi].roles[i]);
                    i += 1;
                }
                proof {
                    assert(self.members@[mi as int].roles@.subrange(
                        0,
                        self.members@[mi as int].roles@.len() as int,
                    ) =~= self.members@[mi as int].roles@);
                }
                out
            },
            None => Vec::new(),
        }
    }

    /// Assign a role to a member: requires the manage-roles bit; the
    /// role must exist in the server and the target must be a member.
    /// Assigning a role already held is a no-op.
    pub fn assign_role(&mut self, actor: u64, sid: u64, uid: u64, rid: u64) -> (r: Result<
        (),
        Error,
    >)
        requires
            old(self).wf(),
        ensures
            final(self).wf(),
            r is Err ==> *final(self) == *old(self),
            r == Err::<(), Error>(Error::Forbidden) <==> (old(self).has_server(sid) && old(
                self,
            ).server_perms(sid, actor) & P_MANAGE_ROLES == 0),
            r == Err::<(), Error>(Error::NotFound) <==> (!old(self).has_server(sid) || (old(
                self,
            ).has_server(sid) && old(self).server_perms(sid, actor) & P_MANAGE_ROLES != 0 && !(
            crate::perms::has_role(old(self).servers@[old(self).server_idx(sid)].roles@, rid)
                && old(self).has_member(sid, uid)))),
            r is Ok <==> (old(self).has_server(sid) && old(self).server_perms(sid, actor)
                & P_MANAGE_ROLES != 0 && crate::perms::has_role(
                old(self).servers@[old(self).server_idx(sid)].roles@,
                rid,
            ) && old(self).has_member(sid, uid)),
            r is Ok ==> ({
                let k = old(self).member_idx(sid, uid);
                &&& final(self).members@.len() == old(self).members@.len()
                &&& forall|i: int|
                    0 <= i < old(self).members@.len() && i != k ==> final(self).members@[i] == old(
                        self,
                    ).members@[i]
                &&& final(self).members@[k].server == sid
                &&& final(self).members@[k].user == uid
                &&& final(self).members@[k].nickname == old(self).members@[k].nickname
                &&& final(self).members@[k].joined == old(self).members@[k].joined
                &&& (if old(self).members@[k].roles@.contains(rid) {
                    final(self).members@[k].roles@ == old(self).members@[k].roles@
                } else {
                    final(self).members@[k].roles@ == old(self).members@[k].roles@.push(rid)
                })
                &&& final(self).servers == old(self).servers
                &&& final(self).channels == old(self).channels
                &&& final(self).bans == old(self).bans
                &&& final(self).messages == old(self).messages
                &&& final(self).webhooks == old(self).webhooks
                &&& final(self).invites == old(self).invites
                &&& final(self).emoji == old(self).emoji
                &&& final(self).unreads == old(self).unreads
                &&& final(self).sent == old(self).sent
                &&& final(self).users == old(self).users
                &&& final(self).next_id == old(self).next_id
            }),
    {
        let si = match self.find_server(sid) {
            Some(i) => i,
            None => {
                return Err(Error::NotFound);
            },
        };
        proof {
            let j = old(self).server_idx(sid);
            assert(old(self).servers@[j].id == sid);
            assert(si as int == j);
        }
        let p = self.compute_server_perms(si, actor);
        if p & P_MANAGE_ROLES == 0 {
            return Err(Error::Forbidden);
        }
        if crate::perms::find_role(&self.servers[si].roles, rid).is_none() {
            return Err(Error::NotFound);
        }
        let mi = match self.find_member(sid, uid) {
            Some(mi) => mi,
            None => {
                return Err(Error::NotFound);
            },
        };
        proof {
            let k = old(self).member_idx(sid, uid);
            assert(old(self).members@[k].server == sid && old(self).members@[k].user == uid);
            assert(mi as int == k);
        }
        if crate::perms::contains_u64(&self.members[mi].roles, rid) {
            return Ok(());
        }
        self.members[mi].roles.push(rid);
        proof {
            self.lemma_member_roles_update_preserves_wf(*old(self), mi as int);
        }
        Ok(())
    }

    /// Revoke a role from a member: requires the manage-roles bit; a
    /// role the member does not hold is a no-op.
    pub fn revoke_role(&mut self, actor: u64, sid: u64, uid: u64, rid: u64) -> (r: Result<
        (),
        Error,
    >)
        requires
            old(self).wf(),
        ensures
            final(self).wf(),
            r is Err ==> *final(self) == *old(self),
            r == Err::<(), Error>(Error::Forbidden) <==> (old(self).has_server(sid) && old(
                self,
            ).server_perms(sid, actor) & P_MANAGE_ROLES == 0),
            r == Err::<(), Error>(Error::NotFound) <==> (!old(self).has_server(sid) || (old(
                self,
            ).has_server(sid) && old(self).server_perms(sid, actor) & P_MANAGE_ROLES != 0 && !old(
                self,
            ).has_member(sid, uid))),
            r is Ok <==> (old(self).has_server(sid) && old(self).server_perms(sid, actor)
                & P_MANAGE_ROLES != 0 && old(self).has_member(sid, uid)),
            r is Ok ==> ({
                let k = old(self).member_idx(sid, uid);
                &&& final(self).members@.len() == old(self).members@.len()
                &&& forall|i: int|
                    0 <= i < old(self).members@.len() && i != k ==> final(self).members@[i] == old(
                        self,
                    ).members@[i]
                &&& final(self).members@[k].server == sid
                &&& final(self).members@[k].user == uid
                &&& final(self).members@[k].nickname == old(self).members@[k].nickname
                &&& final(self).members@[k].joined == old(self).members@[k].joined
                &&& final(self).members@[k].roles@ == crate::table::seq_without(
                    old(self).members@[k].roles@,
                    rid,
                )
                &&& final(self).servers == old(self).servers
                &&& final(self).channels == old(self).channels
                &&& final(self).bans == old(self).bans
                &&& final(self).messages == old(self).messages
                &&& final(self).webhooks == old(self).webhooks
                &&& final(self).invites == old(self).invites
                &&& final(self).emoji == old(self).emoji
                &&& final(self).unreads == old(self).unreads
                &&& final(self).sent == old(self).sent
                &&& final(self).users == old(self).users
                &&& final(self).next_id == old(self).next_id
            }),
    {
        let si = match self.find_server(sid) {
            Some(i) => i,
            None => {
                return Err(Error::NotFound);
            },
        };
        proof {
            let j = old(self).server_idx(sid);
            assert(old(self).servers@[j].id == sid);
            assert(si as int == j);
        }
        let p = self.compute_server_perms(si, actor);
        if p & P_MANAGE_ROLES == 0 {
            return Err(Error::Forbidden);
        }
        let mi = match self.find_member(sid, uid) {
            Some(mi) => mi,
            None => {
                return Err(Error::NotFound);
            },
        };
        proof {
            let k = old(self).member_idx(sid, uid);
            assert(old(self).members@[k].server == sid && old(self).members@[k].user == uid);
            assert(mi as int == k);
        }
        let kept = crate::table::filter_ne(&self.members[mi].roles, rid);
        self.members[mi].roles = kept;
        proof {
            self.lemma_member_roles_update_preserves_wf(*old(self), mi as int);
        }
        Ok(())
    }

    /// Changing only the role list of one member record preserves the
    /// store invariant.
    proof fn lemma_member_roles_update_preserves_wf(self, pre: Store, k: int)
        requires
            pre.wf(),
            0 <= k < pre.members@.len(),
            self.members@.len() == pre.members@.len(),
            forall|i: int|
                0 <= i < pre.members@.len() && i != k ==> self.members@[i] == pre.members@[i],
            self.members@[k].server == pre.members@[k].server,
            self.members@[k].user == pre.members@[k].user,
            self.servers == pre.servers,
            self.channels == pre.channels,
            self.bans == pre.bans,
            self.messages == pre.messages,
            self.webhooks == pre.webhooks,
            self.invites == pre.invites,
            self.emoji == pre.emoji,
            self.unreads == pre.unreads,
            self.sent == pre.sent,
            self.users == pre.users,
            self.next_id == pre.next_id,
        ensures
            self.wf(),
    {
        assert forall|a: u64, b: u64| self.has_member(a, b) == pre.has_member(a, b) by {
            if self.has_member(a, b) {
                let i = choose|i: int|
                    0 <= i < self.members@.len() && self.members@[i].server == a
                        && self.members@[i].user == b;
                assert(pre.members@[i].server == a && pre.members@[i].user == b);
            }
            if pre.has_member(a, b) {
                let i = choose|i: int|
                    0 <= i < pre.members@.len() && pre.members@[i].server == a
                        && pre.members@[i].user == b;
                assert(self.members@[i].server == a && self.members@[i].user == b);
            }
        }
        assert forall|i: int, j: int| 0 <= i < j < self.members@.len() implies crate::store::member_key(
            self.members@[i],
        ) != crate::store::member_key(self.members@[j]) by {
            assert(crate::store::member_key(pre.members@[i]) != crate::store::member_key(
                pre.members@[j],
            ));
            assert(crate::store::member_key(self.members@[i]) == crate::store::member_key(
                pre.members@[i],
            ));
            assert(crate::store::member_key(self.members@[j]) == crate::store::member_key(
                pre.members@[j],
            ));
        }
        assert forall|i: int| 0 <= i < self.members@.len() implies self.has_server(
            #[trigger] self.members@[i].server,
        ) by {
            assert(self.members@[i].server == pre.members@[i].server);
            assert(pre.has_server(pre.members@[i].server));
        }
    }

    /// Removing one member record (plus the user's read state in the
    /// server) from a well-formed store keeps it well-formed, provided
    /// the removed user does not own the server.
    proof fn lemma_membership_removal_preserves_wf(self, pre: Store, sid: u64, uid: u64)
        requires
            pre.wf(),
            pre.has_server(sid),
            pre.servers@[pre.server_idx(sid)].owner != uid,
            self.members@ == members_without(pre.members@, sid, uid),
            self.unreads@ == unreads_shed(pre.unreads@, pre.channels@, sid, uid),
            self.servers == pre.servers,
            self.channels == pre.channels,
            self.bans == pre.bans,
            self.messages == pre.messages,
            self.webhooks == pre.webhooks,
            self.invites == pre.invites,
            self.emoji == pre.emoji,
            self.sent == pre.sent,
            self.users == pre.users,
            self.next_id == pre.next_id,
        ensures
            self.wf(),
            !self.has_member(sid, uid),
    {
        let mpred = |m: Member| !(m.server == sid && m.user == uid);
        let upred = |u: UnreadState| !(u.user == uid && channel_of(pre.channels@, u.channel, sid));
        lemma_filter_contains(pre.members@, mpred);
        lemma_filter_in(pre.members@, mpred);
        lemma_filter_distinct(pre.members@, mpred, |m: Member| crate::store::member_key(m));
        lemma_filter_contains(pre.unreads@, upred);
        lemma_filter_in(pre.unreads@, upred);
        lemma_filter_distinct(pre.unreads@, upred, |u: UnreadState| crate::store::unread_key(u));
        assert forall|i: int| 0 <= i < self.members@.len() implies self.has_server(
            #[trigger] self.members@[i].server,
        ) by {
            assert(pre.members@.contains(self.members@[i]));
            let k = choose|k: int| 0 <= k < pre.members@.len() && pre.members@[k] == self.members@[i];
            assert(pre.has_server(pre.members@[k].server));
        }
        assert forall|i: int| 0 <= i < self.unreads@.len() implies self.has_channel(
            #[trigger] self.unreads@[i].channel,
        ) by {
            assert(pre.unreads@.contains(self.unreads@[i]));
            let k = choose|k: int| 0 <= k < pre.unreads@.len() && pre.unreads@[k] == self.unreads@[i];
            assert(pre.has_channel(pre.unreads@[k].channel));
        }
        assert forall|i: int| 0 <= i < self.bans@.len() implies !self.has_member(
            #[trigger] self.bans@[i].server,
            self.bans@[i].user,
        ) by {
            if self.has_member(self.bans@[i].server, self.bans@[i].user) {
                let k = choose|k: int|
                    0 <= k < self.members@.len() && self.members@[k].server == self.bans@[i].server
                        && self.members@[k].user == self.bans@[i].user;
                assert(self.members@.contains(self.members@[k]));
                assert(pre.members@.contains(self.members@[k]));
                let k2 = choose|k2: int|
                    0 <= k2 < pre.members@.len() && pre.members@[k2] == self.members@[k];
                assert(pre.has_member(self.bans@[i].server, self.bans@[i].user));
            }
        }
        assert forall|i: int| 0 <= i < self.servers@.len() implies self.has_member(
            (#[trigger] self.servers@[i]).id,
            self.servers@[i].owner,
        ) by {
            let s = self.servers@[i];
            assert(pre.has_member(s.id, s.owner));
            let k = pre.member_idx(s.id, s.owner);
            let m = pre.members@[k];
            if s.id == sid {
                let j = pre.server_idx(sid);
                assert(pre.servers@[j].id == sid);
                assert(i == j);
                assert(m.user == s.owner && s.owner != uid);
                assert(mpred(m));
            } else {
                assert(mpred(m));
            }
            assert(self.members@.contains(m));
            let k2 = choose|k2: int| 0 <= k2 < self.members@.len() && self.members@[k2] == m;
            assert(self.has_member(s.id, s.owner));
        }
        assert forall|i: int| 0 <= i < self.unreads@.len() implies (
        #[trigger] self.unreads@[i].last_read matches Some(mid) ==> self.ever_sent(
            self.unreads@[i].channel,
            mid,
        )) by {
            assert(pre.unreads@.contains(self.unreads@[i]));
            let k = choose|k: int| 0 <= k < pre.unreads@.len() && pre.unreads@[k] == self.unreads@[i];
        }
        if self.has_member(sid, uid) {
            let k = choose|k: int|
                0 <= k < self.members@.len() && self.members@[k].server == sid
                    && self.members@[k].user == uid;
            assert(self.members@.contains(self.members@[k]));
        }
    }
}

} // verus!
