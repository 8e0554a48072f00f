//! Message lifecycle: sending, editing and deleting messages, with the
//! channel's last-message pointer and the recipients' read state kept
//! consistent.

use vstd::prelude::*;
use crate::Error;
use crate::perms::{P_SEND_MESSAGE, P_MANAGE_MESSAGES};
use crate::store::{Store, Message, SentRecord, UnreadState};
use crate::unread::{
    seq_has_unread, seq_unread_idx, spec_append_mention, row_after_delivery,
};

verus! {

/// Channel-level authority of an actor over a stored channel.
impl Store {
    pub open spec fn channel_perms(self, cid: u64, actor: u64) -> u64 {
        let c = self.channels@[self.channel_idx(cid)];
        match c.server {
            Some(sid) => {
                let s = self.servers@[self.server_idx(sid)];
                crate::perms::spec_resolve_channel(
                    s.owner,
                    s.default_perms,
                    s.roles@,
                    actor,
                    self.has_member(sid, actor),
                    self.actor_held(sid, actor),
                    c.overwrites@,
                )
            },
            None => crate::perms::spec_resolve_dm(c.recipients@, actor, c.overwrites@),
        }
    }

    /// Compute the channel-level authority of `actor` over the channel
    /// at index `ci`.
    pub fn compute_channel_perms(&self, ci: usize, actor: u64) -> (p: u64)
        requires
            self.wf(),
            ci < self.channels@.len(),
        ensures
            p == self.channel_perms(self.channels@[ci as int].id, actor),
    {
        let cid = self.channels[ci].id;
        proof {
            let j = self.channel_idx(cid);
            assert(self.channels@[j].id == cid);
            assert(ci as int == j);
        }
        match self.channels[ci].server {
            Some(sid) => {
                let si = match self.find_server(sid) {
                    Some(i) => i,
                    None => {
                        proof {
                            assert(false);
                        }
                        return 0;
                    },
                };
                proof {
                    let j = self.server_idx(sid);
                    assert(self.servers@[j].id == sid);
                    assert(si as int == j);
                }
                let held = self.held_of(sid, actor);
                let is_member = self.find_member(sid, actor).is_some();
                crate::perms::resolve_channel(
                    self.servers[si].owner,
                    self.servers[si].default_perms,
                    &self.servers[si].roles,
                    actor,
                    is_member,
                    &held,
                    &self.channels[ci].overwrites,
                )
            },
            None => crate::perms::resolve_dm(
                &self.channels[ci].recipients,
                actor,
                &self.channels[ci].overwrites,
            ),
        }
    }

    /// The users who receive messages sent to this channel: the
    /// members of its server, or for a serverless channel its
    /// recipients.
    pub open spec fn is_recipient(self, cid: u64, u: u64) -> bool {
        let c = self.channels@[self.channel_idx(cid)];
        match c.server {
            Some(sid) => self.has_member(sid, u),
            None => c.recipients@.contains(u),
        }
    }

    fn members_of_server(&self, sid: u64) -> (out: Vec<u64>)
        requires
            self.wf(),
        ensures
            forall|u: u64| #[trigger] out@.contains(u) <==> self.has_member(sid, u),
            forall|a: int, b: int| 0 <= a < b < out@.len() ==> out@[a] != out@[b],
    {
        let mut out: Vec<u64> = Vec::new();
        let mut i: usize = 0;
        while i < self.members.len()
            invariant
                self.wf(),
                0 <= i <= self.members@.len(),
                forall|u: u64|
                    #[trigger] out@.contains(u) <==> (exists|j: int|
                        0 <= j < i && self.members@[j].server == sid && self.members@[j].user
                            == u),
                forall|a: int, b: int| 0 <= a < b < out@.len() ==> out@[a] != out@[b],
            decreases self.members@.len() - i,
        {
            let ghost pre_out = out@;
            if self.members[i].server == sid {
                proof {
                    if pre_out.contains(self.members@[i as int].user) {
                        let j = choose|j: int|
                            0 <= j < i && self.members@[j].server == sid && self.members@[j].user
                                == self.members@[i as int].user;
                        assert(crate::store::member_key(self.members@[j])
                            == crate::store::member_key(self.members@[i as int]));
                        assert(false);
                    }
                }
                out.push(self.members[i].user);
            }
            proof {
                assert forall|u: u64| #[trigger] out@.contains(u) <==> (exists|j: int|
                    0 <= j < i + 1 && self.members@[j].server == sid && self.members@[j].user
                        == u) by {
                    if out@.contains(u) {
                        let k = choose|k: int| 0 <= k < out@.len() && out@[k] == u;
                        if k < pre_out.len() {
                            assert(pre_out[k] == u);
                            assert(pre_out.contains(u));
                        } else {
                            assert(self.members@[i as int].server == sid
                                && self.members@[i as int].user == u);
                        }
                    }
                    if exists|j: int|
                        0 <= j < i + 1 && self.members@[j].server == sid && self.members@[j].user
                            == u {
                        let j = choose|j: int|
                            0 <= j < i + 1 && self.members@[j].server == sid
                                && self.members@[j].user == u;
                        if j < i {
                            assert(pre_out.contains(u));
                            let k = choose|k: int| 0 <= k < pre_out.len() && pre_out[k] == u;
                            assert(out@[k] == u);
                        } else {
                            assert(self.members@[i as int].server == sid);
                            assert(out@[out@.len() - 1] == u);
                        }
                    }
                }
            }
            i += 1;
        }
        out
    }

    fn copy_recipients(&self, ci: usize) -> (out: Vec<u64>)
        requires
            ci < self.channels@.len(),
        ensures
            out@ == self.channels@[ci as int].recipients@,
    {
        let mut out: Vec<u64> = Vec::new();
        let mut i: usize = 0;
        while i < self.channels[ci].recipients.len()
            invariant
                ci < self.channels@.len(),
                0 <= i <= self.channels@[ci as int].recipients@.len(),
                out@ =~= self.channels@[ci as int].recipients@.subrange(0, i as int),
            decreases self.channels@[ci as int].recipients@.len() - i,
        {
            out.push(self.channels[ci].recipients[i]);
            i += 1;
        }
        proof {
            assert(self.channels@[ci as int].recipients@.subrange(
                0,
                self.channels@[ci as int].recipients@.len() as int,
            ) =~= self.channels@[ci as int].recipients@);
        }
        out
    }

    /// Send a message: requires the send-message bit at channel level.
    /// The message is persisted and recorded in the ledger, the
    /// channel's last-message pointer advances to it, and every
    /// recipient other than the author has their read state updated.
    pub fn send_message(&mut self, actor: u64, cid: u64, content: String, mentions: Vec<u64>) -> (r:
        Result<u64, Error>)
        requires
            old(self).wf(),
            old(self).next_id < 0xFFFF_FFFF_FFFF_FFFF,
        ensures
            final(self).wf(),
            r is Err ==> *final(self) == *old(self),
            r == Err::<u64, Error>(Error::NotFound) <==> !old(self).has_channel(cid),
            r == Err::<u64, Error>(Error::Forbidden) <==> (old(self).has_channel(cid) && old(
                self,
            ).channel_perms(cid, actor) & P_SEND_MESSAGE == 0),
            r is Ok <==> (old(self).has_channel(cid) && old(self).channel_perms(cid, actor)
                & P_SEND_MESSAGE != 0),
            r matches Ok(mid) ==> ({
                let k = old(self).channel_idx(cid);
                &&& mid == old(self).next_id
                &&& final(self).next_id == old(self).next_id + 1
                &&& final(self).messages@.len() == old(self).messages@.len() + 1
                &&& final(self).messages@.subrange(0, old(self).messages@.len() as int) =~= old(
                    self,
                ).messages@
                &&& final(self).messages@.last().id == mid
                &&& final(self).messages@.last().channel == cid
                &&& final(self).messages@.last().author == actor
                &&& final(self).messages@.last().content == content
                &&& final(self).messages@.last().mentions == mentions
                &&& final(self).messages@.last().edited == false
                &&& final(self).sent@ == old(self).sent@.push(
                    SentRecord { channel: cid, message: mid },
                )
                &&& final(self).users == old(self).users
                &&& final(self).channels@.len() == old(self).channels@.len()
                &&& forall|i: int|
                    0 <= i < old(self).channels@.len() && i != k ==> final(self).channels@[i]
                        == old(self).channels@[i]
                &&& final(self).channels@[k].id == cid
                &&& final(self).channels@[k].server == old(self).channels@[k].server
                &&& final(self).channels@[k].kind == old(self).channels@[k].kind
                &&& final(self).channels@[k].overwrites == old(self).channels@[k].overwrites
                &&& final(self).channels@[k].recipients == old(self).channels@[k].recipients
                &&& final(self).channels@[k].last_message == Some(mid)
                &&& final(self).servers == old(self).servers
                &&& final(self).members == old(self).members
                &&& final(self).bans == old(self).bans
                &&& final(self).webhooks == old(self).webhooks
                &&& final(self).invites == old(self).invites
                &&& final(self).emoji == old(self).emoji
                &&& (forall|j: int|
                    0 <= j < final(self).unreads@.len() ==> row_after_send(
                        *old(self),
                        #[trigger] final(self).unreads@[j],
                        actor,
                        cid,
                        mid,
                        mentions@,
                    ))
                &&& (forall|a: u64, b: u64|
                    #[trigger] final(self).has_unread(a, b) <==> (old(self).has_unread(a, b) || (b
                        == cid && old(self).is_recipient(cid, a) && a != actor)))
            }),
    {
        let ci = match self.find_channel(cid) {
            Some(i) => i,
            None => {
                return Err(Error::NotFound);
            },
        };
        proof {
            let j = old(self).channel_idx(cid);
            assert(old(self).channels@[j].id == cid);
            assert(ci as int == j);
        }
        let p = self.compute_channel_perms(ci, actor);
        if p & P_SEND_MESSAGE == 0 {
            return Err(Error::Forbidden);
        }
        let mid = self.next_id;
        self.next_id = self.next_id + 1;
        self.channels[ci].last_message = Some(mid);
        proof {
            let k = ci as int;
            assert(crate::store::channel_internally_keyed(self.channels@[k])) by {
                assert(crate::store::channel_internally_keyed(old(self).channels@[k]));
            }
            assert(self.wf()) by {
                assert(self.users@ == old(self).users@);
                crate::store::lemma_users_fresh_mono(
                    self.users@,
                    old(self).next_id,
                    self.next_id,
                );
                assert forall|i: int| 0 <= i < self.servers@.len() implies (
                #[trigger] self.servers@[i].id) < self.next_id && crate::store::roles_fresh(
                    self.servers@[i],
                    self.next_id,
                ) by {
                    assert(old(self).servers@[i].id < old(self).next_id);
                    assert(crate::store::roles_fresh(old(self).servers@[i], old(self).next_id));
                    assert forall|l: int| 0 <= l < self.servers@[i].roles@.len() implies (
                    #[trigger] self.servers@[i].roles@[l].id) < self.next_id by {
                        assert(old(self).servers@[i].roles@[l].id < old(self).next_id);
                    }
                }
                assert forall|i: int, j: int| 0 <= i < j < self.channels@.len() implies crate::store::channel_key(
                    self.channels@[i],
                ) != crate::store::channel_key(self.channels@[j]) by {
                    assert(crate::store::channel_key(old(self).channels@[i])
                        != crate::store::channel_key(old(self).channels@[j]));
                    assert(self.channels@[i].id == old(self).channels@[i].id);
                    assert(self.channels@[j].id == old(self).channels@[j].id);
                }
                assert forall|x: u64| self.has_channel(x) == old(self).has_channel(x) by {
                    if self.has_channel(x) {
                        let i = choose|i: int|
                            0 <= i < self.channels@.len() && self.channels@[i].id == x;
                        assert(old(self).channels@[i].id == x);
                    }
                    if old(self).has_channel(x) {
                        let i = choose|i: int|
                            0 <= i < old(self).channels@.len() && old(self).channels@[i].id == x;
                        assert(self.channels@[i].id == x);
                    }
                }
                assert forall|i: int| 0 <= i < self.channels@.len() implies (
                #[trigger] self.channels@[i].server matches Some(s2) ==> self.has_server(s2))
                    && crate::store::channel_internally_keyed(self.channels@[i]) && (
                self.channels@[i].id) < self.next_id by {
                    assert(old(self).channels@[i].server matches Some(s2) ==> old(
                        self,
                    ).has_server(s2));
                    assert(crate::store::channel_internally_keyed(old(self).channels@[i]));
                    assert(old(self).channels@[i].id < old(self).next_id);
                    assert(self.channels@[i].server == old(self).channels@[i].server);
                }
            }
        }
        let ghost st1 = *self;
        self.sent.push(SentRecord { channel: cid, message: mid });
        proof {
            assert(self.wf()) by {
                assert forall|i: int| 0 <= i < self.unreads@.len() implies (
                #[trigger] self.unreads@[i].last_read matches Some(m2) ==> self.ever_sent(
                    self.unreads@[i].channel,
                    m2,
                )) by {
                    if let Some(m2) = self.unreads@[i].last_read {
                        assert(st1.ever_sent(st1.unreads@[i].channel, m2));
                        let k2 = choose|k2: int|
                            0 <= k2 < st1.sent@.len() && st1.sent@[k2] == (SentRecord {
                                channel: st1.unreads@[i].channel,
                                message: m2,
                            });
                        assert(self.sent@[k2] == (SentRecord {
                            channel: self.unreads@[i].channel,
                            message: m2,
                        }));
                        assert(self.sent@.contains(self.sent@[k2]));
                    }
                }
                assert forall|i: int| 0 <= i < self.messages@.len() implies self.ever_sent(
                    (#[trigger] self.messages@[i]).channel,
                    self.messages@[i].id,
                ) by {
                    assert(st1.ever_sent(st1.messages@[i].channel, st1.messages@[i].id));
                    let k2 = choose|k2: int|
                        0 <= k2 < st1.sent@.len() && st1.sent@[k2] == (SentRecord {
                            channel: st1.messages@[i].channel,
                            message: st1.messages@[i].id,
                        });
                    assert(self.sent@[k2] == (SentRecord {
                        channel: self.messages@[i].channel,
                        message: self.messages@[i].id,
                    }));
                    assert(self.sent@.contains(self.sent@[k2]));
                }
            }
            assert(self.ever_sent(cid, mid)) by {
                assert(self.sent@[self.sent@.len() - 1] == (SentRecord {
                    channel: cid,
                    message: mid,
                }));
                assert(self.sent@.contains(self.sent@[self.sent@.len() - 1]));
            }
        }
        let ghost st2 = *self;
        let mut mentioned_copy: Vec<u64> = Vec::new();
        let mut mc: usize = 0;
        while mc < mentions.len()
            invariant
                0 <= mc <= mentions@.len(),
                mentioned_copy@ =~= mentions@.subrange(0, mc as int),
            decreases mentions@.len() - mc,
        {
            mentioned_copy.push(mentions[mc]);
            mc += 1;
        }
        proof {
            assert(mentions@.subrange(0, mentions@.len() as int) =~= mentions@);
            assert(mentioned_copy@ == mentions@);
        }
        let msg = Message {
            id: mid,
            channel: cid,
            author: actor,
            content: content,
            mentions: mentions,
            edited: false,
        };
        self.messages.push(msg);
        proof {
            assert(self.wf()) by {
                assert forall|i: int, j: int| 0 <= i < j < self.messages@.len() implies crate::store::message_key(
                    self.messages@[i],
                ) != crate::store::message_key(self.messages@[j]) by {
                    if j == self.messages@.len() - 1 {
                        assert(st2.messages@[i].id < st2.next_id);
                    }
                }
                assert forall|i: int| 0 <= i < self.messages@.len() implies self.has_channel(
                    #[trigger] self.messages@[i].channel,
                ) && (self.messages@[i].id) < self.next_id by {
                    if i < self.messages@.len() - 1 {
                        assert(st2.has_channel(st2.messages@[i].channel));
                        assert(st2.messages@[i].id < st2.next_id);
                    } else {
                        assert(self.channels@[ci as int].id == cid);
                    }
                }
                assert forall|i: int| 0 <= i < self.messages@.len() implies self.ever_sent(
                    (#[trigger] self.messages@[i]).channel,
                    self.messages@[i].id,
                ) by {
                    if i < self.messages@.len() - 1 {
                        assert(st2.ever_sent(st2.messages@[i].channel, st2.messages@[i].id));
                    } else {
                        assert(st2.ever_sent(cid, mid));
                    }
                }
            }
        }
        let ghost st3 = *self;
        let recipients = match self.channels[ci].server {
            Some(sid) => self.members_of_server(sid),
            None => self.copy_recipients(ci),
        };
        proof {
            if self.channels@[ci as int].server is None {
                assert(crate::store::channel_internally_keyed(self.channels@[ci as int]));
            }
            assert(self.has_channel(cid)) by {
                assert(self.channels@[ci as int].id == cid);
            }
        }
        let ghost rec_seq = recipients@;
        self.notify_recipients(cid, mid, actor, &mentioned_copy, &recipients);
        proof {
            let pre0 = *old(self);
            assert(st3.unreads@ == pre0.unreads@);
            assert forall|u: u64| rec_seq.contains(u) == pre0.is_recipient(cid, u) by {
                let k = pre0.channel_idx(cid);
                assert(pre0.channels@[k].id == cid);
                assert(k == ci as int);
                assert(st3.channels@[ci as int].server == pre0.channels@[k].server);
                match pre0.channels@[k].server {
                    Some(sid) => {
                        assert(rec_seq.contains(u) == st3.has_member(sid, u));
                        assert forall|a: u64, b: u64|
                            st3.has_member(a, b) == pre0.has_member(a, b) by {
                            assert(st3.members@ == pre0.members@);
                        }
                    },
                    None => {
                        assert(st3.channels@[ci as int].recipients@ == pre0.channels@[
                            k
                        ].recipients@);
                    },
                }
            }
            assert forall|a: u64, b: u64| st3.has_unread(a, b) == pre0.has_unread(a, b) by {
                assert(st3.unreads@ == pre0.unreads@);
            }
            assert forall|j: int|
                0 <= j < self.unreads@.len() implies row_after_send(
                pre0,
                #[trigger] self.unreads@[j],
                actor,
                cid,
                mid,
                mentions@,
            ) by {
                assert(row_after_delivery(
                    st3.unreads@,
                    self.unreads@[j],
                    rec_seq,
                    actor,
                    cid,
                    mid,
                    mentioned_copy@,
                ));
                assert(rec_seq.contains(self.unreads@[j].user) == pre0.is_recipient(
                    cid,
                    self.unreads@[j].user,
                ));
            }
            assert forall|a: u64, b: u64| #[trigger] self.has_unread(a, b) <==> (pre0.has_unread(
                a,
                b,
            ) || (b == cid && pre0.is_recipient(cid, a) && a != actor)) by {
                assert(self.has_unread(a, b) <==> (st3.has_unread(a, b) || (b == cid
                    && rec_seq.contains(a) && a != actor)));
            }
            assert(self.messages@.subrange(0, pre0.messages@.len() as int) =~= pre0.messages@);
        }
        Ok(mid)
    }
}

/// How an edit's mention diff adjusts one row of the read state: a
/// newly mentioned recipient gains the message in their pending set, a
/// no-longer-mentioned one loses it, and everything else — the key,
/// the read marker, rows of other channels — stays.
pub open spec fn row_after_edit(
    pre_row: UnreadState,
    row: UnreadState,
    cid: u64,
    mid: u64,
    author: u64,
    mentioned: Seq<u64>,
) -> bool {
    &&& row.user == pre_row.user
    &&& row.channel == pre_row.channel
    &&& row.last_read == pre_row.last_read
    &&& (if pre_row.channel == cid && pre_row.user != author && mentioned.contains(pre_row.user) {
        if pre_row.mentions@.contains(mid) {
            row.mentions@ == pre_row.mentions@
        } else {
            row.mentions@ == spec_append_mention(pre_row.mentions@, mid, true)
        }
    } else if pre_row.channel == cid && !mentioned.contains(pre_row.user) {
        row.mentions@ == crate::table::seq_without(pre_row.mentions@, mid)
    } else {
        row.mentions@ == pre_row.mentions@
    })
}

impl Store {
    /// Edit a message: only its author, or an actor holding the
    /// manage-messages bit, may do so, and only content and mentions
    /// change (the message is marked edited).  The mention diff is
    /// applied to the pending-mention sets incrementally.
    pub fn edit_message(&mut self, actor: u64, mid: u64, content: String, mentions: Vec<u64>) -> (r:
        Result<(), Error>)
        requires
            old(self).wf(),
        ensures
            final(self).wf(),
            r is Err ==> *final(self) == *old(self),
            r == Err::<(), Error>(Error::NotFound) <==> !old(self).has_message(mid),
            r == Err::<(), Error>(Error::Forbidden) <==> (old(self).has_message(mid) && actor
                != old(self).messages@[old(self).message_idx(mid)].author && old(
                self,
            ).channel_perms(old(self).messages@[old(self).message_idx(mid)].channel, actor)
                & P_MANAGE_MESSAGES == 0),
            r is Ok <==> (old(self).has_message(mid) && (actor == old(self).messages@[old(
                self,
            ).message_idx(mid)].author || old(self).channel_perms(
                old(self).messages@[old(self).message_idx(mid)].channel,
                actor,
            ) & P_MANAGE_MESSAGES != 0)),
            r is Ok ==> ({
                let k = old(self).message_idx(mid);
                let cid = old(self).messages@[k].channel;
                let author = old(self).messages@[k].author;
                &&& final(self).messages@.len() == old(self).messages@.len()
                &&& forall|i: int|
                    0 <= i < old(self).messages@.len() && i != k ==> final(self).messages@[i]
                        == old(self).messages@[i]
                &&& final(self).messages@[k].id == mid
                &&& final(self).messages@[k].channel == cid
                &&& final(self).messages@[k].author == author
                &&& final(self).messages@[k].content == content
                &&& final(self).messages@[k].mentions == mentions
                &&& final(self).messages@[k].edited == true
                &&& final(self).unreads@.len() == old(self).unreads@.len()
                &&& (forall|i: int|
                    0 <= i < old(self).unreads@.len() ==> row_after_edit(
                        old(self).unreads@[i],
                        #[trigger] final(self).unreads@[i],
                        cid,
                        mid,
                        author,
                        mentions@,
                    ))
                &&& final(self).servers == old(self).servers
                &&& final(self).channels == old(self).channels
                &&& final(self).members == old(self).members
                &&& final(self).bans == old(self).bans
                &&& final(self).webhooks == old(self).webhooks
                &&& final(self).invites == old(self).invites
                &&& final(self).emoji == old(self).emoji
                &&& final(self).sent == old(self).sent
                &&& final(self).users == old(self).users
                &&& final(self).next_id == old(self).next_id
            }),
    {
        let mi = match self.find_message(mid) {
            Some(i) => i,
            None => {
                return Err(Error::NotFound);
            },
        };
        proof {
            let k = old(self).message_idx(mid);
            assert(old(self).messages@[k].id == mid);
            assert(mi as int == k);
        }
        let cid = self.messages[mi].channel;
        let author = self.messages[mi].author;
        if actor != author {
            let ci = match self.find_channel(cid) {
                Some(i) => i,
                None => {
                    proof {
                        assert(false);
                    }
                    return Err(Error::NotFound);
                },
            };
            proof {
                let j = old(self).channel_idx(cid);
                assert(old(self).channels@[j].id == cid);
                assert(ci as int == j);
            }
            let p = self.compute_channel_perms(ci, actor);
            if p & P_MANAGE_MESSAGES == 0 {
                return Err(Error::Forbidden);
            }
        }
        let ghost ment = mentions@;
        let mentioned_exec = mentions;
        self.messages[mi].content = content;
        self.messages[mi].edited = true;
        proof {
            self.lemma_message_row_update_preserves_wf(*old(self), mi as int);
        }
        let ghost st1 = *self;
        let mut i: usize = 0;
        while i < self.unreads.len()
            invariant
                st1.wf(),
                self.wf(),
                0 <= i <= self.unreads@.len(),
                self.unreads@.len() == st1.unreads@.len(),
                forall|j: int|
                    i <= j < st1.unreads@.len() ==> #[trigger] self.unreads@[j] == st1.unreads@[j],
                forall|j: int|
                    0 <= j < i ==> row_after_edit(
                        st1.unreads@[j],
                        #[trigger] self.unreads@[j],
                        cid,
                        mid,
                        author,
                        ment,
                    ),
                self.servers == st1.servers,
                self.channels == st1.channels,
                self.members == st1.members,
                self.bans == st1.bans,
                self.messages == st1.messages,
                self.webhooks == st1.webhooks,
                self.invites == st1.invites,
                self.emoji == st1.emoji,
                self.sent == st1.sent,
                self.users == st1.users,
                self.next_id == st1.next_id,
                mentioned_exec@ == ment,
            decreases self.unreads@.len() - i,
        {
            let ghost pre_row = self.unreads@[i as int];
            let row_channel = self.unreads[i].channel;
            let row_user = self.unreads[i].user;
            if row_channel == cid && row_user != author && crate::perms::contains_u64(
                &mentioned_exec,
                row_user,
            ) {
                if !crate::perms::contains_u64(&self.unreads[i].mentions, mid) {
                    let ghost pre_ms = self.unreads@[i as int].mentions@;
                    if self.unreads[i].mentions.len() >= crate::store::MAX_PENDING_MENTIONS {
                        self.unreads[i].mentions.remove(0);
                        proof {
                            assert(self.unreads@[i as int].mentions@ =~= pre_ms.subrange(
                                1,
                                pre_ms.len() as int,
                            ));
                        }
                    }
                    self.unreads[i].mentions.push(mid);
                    proof {
                        assert(self.unreads@[i as int].mentions@ == spec_append_mention(
                            pre_ms,
                            mid,
                            true,
                        ));
                    }
                }
            } else if row_channel == cid && !crate::perms::contains_u64(
                &mentioned_exec,
                row_user,
            ) {
                let kept = crate::table::filter_ne(&self.unreads[i].mentions, mid);
                self.unreads[i].mentions = kept;
            }
            proof {
                assert(row_after_edit(
                    pre_row,
                    self.unreads@[i as int],
                    cid,
                    mid,
                    author,
                    ment,
                ));
                self.lemma_unread_table_reshaped_preserves_wf(st1);
            }
            i += 1;
        }
        let ghost st2 = *self;
        self.messages[mi].mentions = mentioned_exec;
        proof {
            self.lemma_message_row_update_preserves_wf(st2, mi as int);
        }
        Ok(())
    }

    /// Changing only the content, mentions or edited flag of one
    /// message row preserves the invariant.
    proof fn lemma_message_row_update_preserves_wf(self, pre: Store, k: int)
        requires
            pre.wf(),
            0 <= k < pre.messages@.len(),
            self.messages@.len() == pre.messages@.len(),
            forall|i: int|
                0 <= i < pre.messages@.len() && i != k ==> self.messages@[i] == pre.messages@[i],
            self.messages@[k].id == pre.messages@[k].id,
            self.messages@[k].channel == pre.messages@[k].channel,
            self.servers == pre.servers,
            self.channels == pre.channels,
            self.members == pre.members,
            self.bans == pre.bans,
            self.webhooks == pre.webhooks,
            self.invites == pre.invites,
            self.emoji == pre.emoji,
            self.unreads == pre.unreads,
            self.sent == pre.sent,
            self.users == pre.users,
            self.next_id == pre.next_id,
        ensures
            self.wf(),
    {
        assert forall|i: int, j: int| 0 <= i < j < self.messages@.len() implies crate::store::message_key(
            self.messages@[i],
        ) != crate::store::message_key(self.messages@[j]) by {
            assert(crate::store::message_key(pre.messages@[i]) != crate::store::message_key(
                pre.messages@[j],
            ));
            assert(self.messages@[i].id == pre.messages@[i].id);
            assert(self.messages@[j].id == pre.messages@[j].id);
        }
        assert forall|i: int| 0 <= i < self.messages@.len() implies self.has_channel(
            #[trigger] self.messages@[i].channel,
        ) by {
            assert(pre.has_channel(pre.messages@[i].channel));
            assert(self.messages@[i].channel == pre.messages@[i].channel);
        }
        assert forall|i: int| 0 <= i < self.messages@.len() implies (
        #[trigger] self.messages@[i].id) < self.next_id by {
            assert(pre.messages@[i].id < pre.next_id);
            assert(self.messages@[i].id == pre.messages@[i].id);
        }
        assert forall|i: int| 0 <= i < self.messages@.len() implies self.ever_sent(
            (#[trigger] self.messages@[i]).channel,
            self.messages@[i].id,
        ) by {
            assert(pre.ever_sent(pre.messages@[i].channel, pre.messages@[i].id));
            assert(self.messages@[i].channel == pre.messages@[i].channel);
            assert(self.messages@[i].id == pre.messages@[i].id);
        }
    }

    /// Mutating only the `mentions` vectors of read-state rows (keys,
    /// markers and count unchanged) preserves the invariant.
    proof fn lemma_unread_table_reshaped_preserves_wf(self, pre: Store)
        requires
            pre.wf(),
            self.unreads@.len() == pre.unreads@.len(),
            forall|i: int|
                0 <= i < pre.unreads@.len() ==> (#[trigger] self.unreads@[i]).user
                    == pre.unreads@[i].user && self.unreads@[i].channel == pre.unreads@[i].channel
                    && self.unreads@[i].last_read == pre.unreads@[i].last_read,
            self.servers == pre.servers,
            self.channels == pre.channels,
            self.members == pre.members,
            self.bans == pre.bans,
            self.messages == pre.messages,
            self.webhooks == pre.webhooks,
            self.invites == pre.invites,
            self.emoji == pre.emoji,
            self.sent == pre.sent,
            self.users == pre.users,
            self.next_id == pre.next_id,
        ensures
            self.wf(),
    {
        assert forall|i: int, j: int| 0 <= i < j < self.unreads@.len() implies crate::store::unread_key(
            self.unreads@[i],
        ) != crate::store::unread_key(self.unreads@[j]) by {
            assert(crate::store::unread_key(pre.unreads@[i]) != crate::store::unread_key(
                pre.unreads@[j],
            ));
        }
        assert forall|i: int| 0 <= i < self.unreads@.len() implies self.has_channel(
            #[trigger] self.unreads@[i].channel,
        ) by {
            assert(pre.has_channel(pre.unreads@[i].channel));
        }
        assert forall|i: int| 0 <= i < self.unreads@.len() implies (
        #[trigger] self.unreads@[i].last_read matches Some(m2) ==> self.ever_sent(
            self.unreads@[i].channel,
            m2,
        )) by {
            assert(pre.unreads@[i].last_read matches Some(m2) ==> pre.ever_sent(
                pre.unreads@[i].channel,
                m2,
            ));
        }
    }

    /// The id of the most recent remaining message in a channel.
    fn latest_message_in(&self, cid: u64) -> (r: Option<u64>)
        ensures
            match r {
                Some(m) => (exists|i: int|
                    0 <= i < self.messages@.len() && self.messages@[i].channel == cid
                        && self.messages@[i].id == m) && (forall|i: int|
                    0 <= i < self.messages@.len() && (#[trigger] self.messages@[i]).channel == cid
                        ==> self.messages@[i].id <= m),
                None => forall|i: int|
                    0 <= i < self.messages@.len() ==> (#[trigger] self.messages@[i]).channel
                        != cid,
            },
    {
        let mut best: Option<u64> = None;
        let mut i: usize = 0;
        while i < self.messages.len()
            invariant
                0 <= i <= self.messages@.len(),
                match best {
                    Some(m) => (exists|j: int|
                        0 <= j < i && self.messages@[j].channel == cid && self.messages@[j].id
                            == m) && (forall|j: int|
                        0 <= j < i && (#[trigger] self.messages@[j]).channel == cid
                            ==> self.messages@[j].id <= m),
                    None => forall|j: int|
                        0 <= j < i ==> (#[trigger] self.messages@[j]).channel != cid,
                },
            decreases self.messages@.len() - i,
        {
            if self.messages[i].channel == cid {
                let mine = self.messages[i].id;
                best = match best {
                    Some(m) => if mine > m {
                        Some(mine)
                    } else {
                        Some(m)
                    },
                    None => Some(mine),
                };
            }
            i += 1;
        }
        best
    }

    /// Delete a message: only its author, or an actor holding the
    /// manage-messages bit, may do so.  The id is removed from every
    /// pending-mentions set (read markers stay), and a deleted
    /// last-message pointer is recomputed from the remaining messages,
    /// falling back to none.
    pub fn delete_message(&mut self, actor: u64, mid: u64) -> (r: Result<(), Error>)
        requires
            old(self).wf(),
        ensures
            final(self).wf(),
            r is Err ==> *final(self) == *old(self),
            r == Err::<(), Error>(Error::NotFound) <==> !old(self).has_message(mid),
            r == Err::<(), Error>(Error::Forbidden) <==> (old(self).has_message(mid) && actor
                != old(self).messages@[old(self).message_idx(mid)].author && old(
                self,
            ).channel_perms(old(self).messages@[old(self).message_idx(mid)].channel, actor)
                & P_MANAGE_MESSAGES == 0),
            r is Ok <==> (old(self).has_message(mid) && (actor == old(self).messages@[old(
                self,
            ).message_idx(mid)].author || old(self).channel_perms(
                old(self).messages@[old(self).message_idx(mid)].channel,
                actor,
            ) & P_MANAGE_MESSAGES != 0)),
            r is Ok ==> ({
                let cid = old(self).messages@[old(self).message_idx(mid)].channel;
                let ck = old(self).channel_idx(cid);
                &&& final(self).messages@ == old(self).messages@.filter(
                    |m: Message| m.id != mid,
                )
                &&& !final(self).has_message(mid)
                &&& final(self).unreads@.len() == old(self).unreads@.len()
                &&& (forall|i: int|
                    0 <= i < old(self).unreads@.len() ==> ({
                        &&& (#[trigger] final(self).unreads@[i]).user == old(self).unreads@[
                            i
                        ].user
                        &&& final(self).unreads@[i].channel == old(self).unreads@[i].channel
                        &&& final(self).unreads@[i].last_read == old(self).unreads@[i].last_read
                        &&& final(self).unreads@[i].mentions@ == crate::table::seq_without(
                            old(self).unreads@[i].mentions@,
                            mid,
                        )
                    }))
                &&& final(self).channels@.len() == old(self).channels@.len()
                &&& forall|i: int|
                    0 <= i < old(self).channels@.len() && i != ck ==> final(self).channels@[i]
                        == old(self).channels@[i]
                &&& final(self).channels@[ck].id == cid
                &&& final(self).channels@[ck].server == old(self).channels@[ck].server
                &&& final(self).channels@[ck].kind == old(self).channels@[ck].kind
                &&& final(self).channels@[ck].overwrites == old(self).channels@[ck].overwrites
                &&& final(self).channels@[ck].recipients == old(self).channels@[ck].recipients
                &&& (old(self).channels@[ck].last_message != Some(mid)
                    ==> final(self).channels@[ck].last_message == old(self).channels@[
                    ck
                ].last_message)
                &&& (old(self).channels@[ck].last_message == Some(mid)
                    ==> (match final(self).channels@[ck].last_message {
                    Some(m) => m != mid && (exists|i: int|
                        0 <= i < final(self).messages@.len()
                            && (#[trigger] final(self).messages@[i]).channel == cid
                            && final(self).messages@[i].id == m),
                    None => forall|i: int|
                        0 <= i < final(self).messages@.len()
                            ==> (#[trigger] final(self).messages@[i]).channel != cid,
                }))
                &&& final(self).servers == old(self).servers
                &&& final(self).members == old(self).members
                &&& final(self).bans == old(self).bans
                &&& final(self).webhooks == old(self).webhooks
                &&& final(self).invites == old(self).invites
                &&& final(self).emoji == old(self).emoji
                &&& final(self).sent == old(self).sent
                &&& final(self).users == old(self).users
                &&& final(self).next_id == old(self).next_id
            }),
    {
        let mi = match self.find_message(mid) {
            Some(i) => i,
            None => {
                return Err(Error::NotFound);
            },
        };
        proof {
            let k = old(self).message_idx(mid);
            assert(old(self).messages@[k].id == mid);
            assert(mi as int == k);
        }
        let cid = self.messages[mi].channel;
        let author = self.messages[mi].author;
        let ci = match self.find_channel(cid) {
            Some(i) => i,
            None => {
                proof {
                    assert(false);
                }
                return Err(Error::NotFound);
            },
        };
        proof {
            let j = old(self).channel_idx(cid);
            assert(old(self).channels@[j].id == cid);
            assert(ci as int == j);
        }
        if actor != author {
            let p = self.compute_channel_perms(ci, actor);
            if p & P_MANAGE_MESSAGES == 0 {
                return Err(Error::Forbidden);
            }
        }
        let mut messages: Vec<Message> = Vec::new();
        core::mem::swap(&mut messages, &mut self.messages);
        self.messages = drop_message(messages, mid);
        proof {
            let gpred = |m: Message| m.id != mid;
            crate::table::lemma_filter_contains(old(self).messages@, gpred);
            crate::table::lemma_filter_in(old(self).messages@, gpred);
            crate::table::lemma_filter_distinct(
                old(self).messages@,
                gpred,
                |m: Message| crate::store::message_key(m),
            );
            assert forall|i: int| 0 <= i < self.messages@.len() implies self.has_channel(
                #[trigger] self.messages@[i].channel,
            ) && (self.messages@[i].id) < self.next_id && self.ever_sent(
                self.messages@[i].channel,
                self.messages@[i].id,
            ) by {
                assert(self.messages@.contains(self.messages@[i]));
                assert(old(self).messages@.contains(self.messages@[i]));
                let k = choose|k: int|
                    0 <= k < old(self).messages@.len() && old(self).messages@[k]
                        == self.messages@[i];
            }
            if self.has_message(mid) {
                let k = choose|k: int|
                    0 <= k < self.messages@.len() && self.messages@[k].id == mid;
                assert(self.messages@.contains(self.messages@[k]));
            }
        }
        self.clear_mention_everywhere(mid);
        let ghost st2 = *self;
        let was_last = match self.channels[ci].last_message {
            Some(m) => m == mid,
            None => false,
        };
        if was_last {
            let newest = self.latest_message_in(cid);
            proof {
                if let Some(m) = newest {
                    assert(self.messages@ == old(self).messages@.filter(
                        |m2: Message| m2.id != mid,
                    ));
                    let j = choose|j: int|
                        0 <= j < self.messages@.len() && self.messages@[j].channel == cid
                            && self.messages@[j].id == m;
                    assert(!self.has_message(mid));
                    if m == mid {
                        assert(self.messages@[j].id == mid);
                        assert(false);
                    }
                }
            }
            self.channels[ci].last_message = newest;
        }
        proof {
            let k = ci as int;
            assert(crate::store::channel_internally_keyed(self.channels@[k])) by {
                assert(crate::store::channel_internally_keyed(st2.channels@[k]));
            }
            self.lemma_channel_update_preserves_wf(st2, k);
        }
        Ok(())
    }
}

fn drop_message(v: Vec<Message>, mid: u64) -> (out: Vec<Message>)
    ensures
        out@ == v@.filter(|m: Message| m.id != mid),
{
    let ghost orig = v@;
    let mut v = v;
    let mut out: Vec<Message> = Vec::new();
    proof {
        reveal(Seq::filter);
        assert(orig.subrange(0, 0) =~= Seq::<Message>::empty());
    }
    while v.len() > 0
        invariant
            v@.len() <= orig.len(),
            v@ =~= orig.subrange(orig.len() - v@.len(), orig.len() as int),
            out@ == orig.subrange(0, orig.len() - v@.len()).filter(|m: Message| m.id != mid),
        decreases v@.len(),
    {
        let ghost n = orig.len() - v@.len();
        proof {
            reveal(Seq::filter);
            assert(v@[0] == orig[n as int]);
            assert(orig.subrange(0, n as int + 1).drop_last() =~= orig.subrange(0, n as int));
            assert(orig.subrange(0, n as int + 1).last() == orig[n as int]);
        }
        let x = v.remove(0);
        if x.id != mid {
            out.push(x);
        }
        proof {
            assert(v@ =~= orig.subrange(orig.len() - v@.len(), orig.len() as int));
        }
    }
    proof {
        assert(orig.subrange(0, orig.len() as int) =~= orig);
    }
    out
}

/// How a send rewrites one row of the read-state table, phrased over
/// the recipients of the channel rather than a recipient list.
pub open spec fn row_after_send(
    pre: Store,
    row: UnreadState,
    author: u64,
    cid: u64,
    mid: u64,
    mentioned: Seq<u64>,
) -> bool {
    if row.channel == cid && pre.is_recipient(cid, row.user) && row.user != author {
        if seq_has_unread(pre.unreads@, row.user, cid) {
            let p = pre.unreads@[seq_unread_idx(pre.unreads@, row.user, cid)];
            row.last_read == p.last_read && row.mentions@ == spec_append_mention(
                p.mentions@,
                mid,
                mentioned.contains(row.user),
            )
        } else {
            row.last_read is None && row.mentions@ == spec_append_mention(
                Seq::empty(),
                mid,
                mentioned.contains(row.user),
            )
        }
    } else {
        pre.unreads@.contains(row)
    }
}

} // verus!
