//! Per-(user, channel) read state: rows are created on message
//! delivery, pending mentions are appended (capped, oldest first out)
//! and cleared, and acknowledgement advances the read marker without
//! ever regressing it.

use vstd::prelude::*;
use crate::Error;
use crate::store::{Store, UnreadState, MAX_PENDING_MENTIONS};
use crate::table::filter_gt;

verus! {

/// Appending a mention to a pending set: a no-op unless the user is
/// mentioned; at the cap, the oldest pending mention is dropped first.
pub open spec fn spec_append_mention(s: Seq<u64>, mid: u64, is_mentioned: bool) -> Seq<u64> {
    if !is_mentioned {
        s
    } else if s.len() < MAX_PENDING_MENTIONS as int {
        s.push(mid)
    } else {
        s.subrange(1, s.len() as int).push(mid)
    }
}

/// The read marker only advances: the new marker is the larger of the
/// current one and the acknowledged id.
pub open spec fn spec_advance(last: Option<u64>, mid: u64) -> u64 {
    match last {
        Some(l) => if l >= mid {
            l
        } else {
            mid
        },
        None => mid,
    }
}

/// A row for this (user, channel) pair exists in the table.
pub open spec fn seq_has_unread(s: Seq<UnreadState>, uid: u64, cid: u64) -> bool {
    exists|i: int| 0 <= i < s.len() && s[i].user == uid && s[i].channel == cid
}

/// The index of the row for this (user, channel) pair.
pub open spec fn seq_unread_idx(s: Seq<UnreadState>, uid: u64, cid: u64) -> int {
    choose|i: int| 0 <= i < s.len() && s[i].user == uid && s[i].channel == cid
}

/// How one delivery rewrites one row of the read-state table, given
/// the set of users the delivery addresses: an addressed user's row is
/// created (with no read marker) or its pending mentions appended; any
/// other row is an untouched row of the previous table.
pub open spec fn row_after_delivery(
    pre: Seq<UnreadState>,
    row: UnreadState,
    addressed: Seq<u64>,
    author: u64,
    cid: u64,
    mid: u64,
    mentioned: Seq<u64>,
) -> bool {
    if row.channel == cid && addressed.contains(row.user) && row.user != author {
        if seq_has_unread(pre, row.user, cid) {
            let p = pre[seq_unread_idx(pre, row.user, cid)];
            row.last_read == p.last_read && row.mentions@ == spec_append_mention(
                p.mentions@,
                mid,
                mentioned.contains(row.user),
            )
        } else {
            row.last_read is None && row.mentions@ == spec_append_mention(
                Seq::empty(),
                mid,
                mentioned.contains(row.user),
            )
        }
    } else {
        pre.contains(row)
    }
}

impl Store {
    /// Changing the `last_read` and `mentions` of one read-state row,
    /// keeping its key and a recorded read marker, preserves the
    /// invariant.
    proof fn lemma_unread_update_preserves_wf(self, pre: Store, k: int)
        requires
            pre.wf(),
            0 <= k < pre.unreads@.len(),
            self.unreads@.len() == pre.unreads@.len(),
            forall|i: int|
                0 <= i < pre.unreads@.len() && i != k ==> self.unreads@[i] == pre.unreads@[i],
            self.unreads@[k].user == pre.unreads@[k].user,
            self.unreads@[k].channel == pre.unreads@[k].channel,
            (self.unreads@[k].last_read matches Some(mid) ==> pre.ever_sent(
                pre.unreads@[k].channel,
                mid,
            )),
            self.servers == pre.servers,
            self.channels == pre.channels,
            self.members == pre.members,
            self.bans == pre.bans,
            self.messages == pre.messages,
            self.webhooks == pre.webhooks,
            self.invites == pre.invites,
            self.emoji == pre.emoji,
            self.sent == pre.sent,
            self.users == pre.users,
            self.next_id == pre.next_id,
        ensures
            self.wf(),
    {
        assert forall|i: int, j: int| 0 <= i < j < self.unreads@.len() implies crate::store::unread_key(
            self.unreads@[i],
        ) != crate::store::unread_key(self.unreads@[j]) by {
            assert(crate::store::unread_key(pre.unreads@[i]) != crate::store::unread_key(
                pre.unreads@[j],
            ));
            assert(crate::store::unread_key(self.unreads@[i]) == crate::store::unread_key(
                pre.unreads@[i],
            ));
            assert(crate::store::unread_key(self.unreads@[j]) == crate::store::unread_key(
                pre.unreads@[j],
            ));
        }
        assert forall|i: int| 0 <= i < self.unreads@.len() implies self.has_channel(
            #[trigger] self.unreads@[i].channel,
        ) by {
            assert(self.unreads@[i].channel == pre.unreads@[i].channel);
            assert(pre.has_channel(pre.unreads@[i].channel));
        }
        assert forall|i: int| 0 <= i < self.unreads@.len() implies (
        #[trigger] self.unreads@[i].last_read matches Some(mid) ==> self.ever_sent(
            self.unreads@[i].channel,
            mid,
        )) by {
            if i != k {
                assert(pre.unreads@[i].last_read matches Some(mid) ==> pre.ever_sent(
                    pre.unreads@[i].channel,
                    mid,
                ));
            }
        }
    }

    /// Pushing a fresh read-state row for an existing channel, with a
    /// recorded (or absent) read marker, preserves the invariant.
    proof fn lemma_unread_push_preserves_wf(self, pre: Store, row: UnreadState)
        requires
            pre.wf(),
            self.unreads@ == pre.unreads@.push(row),
            !pre.has_unread(row.user, row.channel),
            pre.has_channel(row.channel),
            (row.last_read matches Some(mid) ==> pre.ever_sent(row.channel, mid)),
            self.servers == pre.servers,
            self.channels == pre.channels,
            self.members == pre.members,
            self.bans == pre.bans,
            self.messages == pre.messages,
            self.webhooks == pre.webhooks,
            self.invites == pre.invites,
            self.emoji == pre.emoji,
            self.sent == pre.sent,
            self.users == pre.users,
            self.next_id == pre.next_id,
        ensures
            self.wf(),
            self.has_unread(row.user, row.channel),
    {
        let new = self.unreads@;
        let olds = pre.unreads@;
        assert forall|i: int, j: int| 0 <= i < j < new.len() implies crate::store::unread_key(
            new[i],
        ) != crate::store::unread_key(new[j]) by {
            if j == new.len() - 1 {
                assert(!(olds[i].user == row.user && olds[i].channel == row.channel));
            }
        }
        assert forall|i: int| 0 <= i < new.len() implies self.has_channel(
            #[trigger] new[i].channel,
        ) by {
            if i < new.len() - 1 {
                assert(pre.has_channel(olds[i].channel));
            }
        }
        assert forall|i: int| 0 <= i < new.len() implies (#[trigger] new[i].last_read matches Some(
            mid,
        ) ==> self.ever_sent(new[i].channel, mid)) by {
            if i < new.len() - 1 {
                assert(olds[i].last_read matches Some(mid) ==> pre.ever_sent(
                    olds[i].channel,
                    mid,
                ));
            }
        }
        assert(new[new.len() - 1] == row);
    }

    /// Deliver one message to one recipient: create the read-state row
    /// (with no read marker) if none exists, and append the message to
    /// the pending mentions if the recipient is mentioned.
    pub fn notify_one(&mut self, cid: u64, mid: u64, uid: u64, is_mentioned: bool)
        requires
            old(self).wf(),
            old(self).has_channel(cid),
        ensures
            final(self).wf(),
            final(self).servers == old(self).servers,
            final(self).channels == old(self).channels,
            final(self).members == old(self).members,
            final(self).bans == old(self).bans,
            final(self).messages == old(self).messages,
            final(self).webhooks == old(self).webhooks,
            final(self).invites == old(self).invites,
            final(self).emoji == old(self).emoji,
            final(self).sent == old(self).sent,
            final(self).users == old(self).users,
            final(self).next_id == old(self).next_id,
            forall|a: u64, b: u64|
                #[trigger] final(self).has_unread(a, b) <==> (old(self).has_unread(a, b) || (a
                    == uid && b == cid)),
            old(self).has_unread(uid, cid) ==> ({
                let k = seq_unread_idx(old(self).unreads@, uid, cid);
                &&& final(self).unreads@.len() == old(self).unreads@.len()
                &&& forall|i: int|
                    0 <= i < old(self).unreads@.len() && i != k ==> final(self).unreads@[i] == old(
                        self,
                    ).unreads@[i]
                &&& final(self).unreads@[k].user == uid
                &&& final(self).unreads@[k].channel == cid
                &&& final(self).unreads@[k].last_read == old(self).unreads@[k].last_read
                &&& final(self).unreads@[k].mentions@ == spec_append_mention(
                    old(self).unreads@[k].mentions@,
                    mid,
                    is_mentioned,
                )
            }),
            !old(self).has_unread(uid, cid) ==> ({
                &&& final(self).unreads@.len() == old(self).unreads@.len() + 1
                &&& final(self).unreads@ == old(self).unreads@.push(
                    final(self).unreads@.last(),
                )
                &&& final(self).unreads@.last().user == uid
                &&& final(self).unreads@.last().channel == cid
                &&& final(self).unreads@.last().last_read is None
                &&& final(self).unreads@.last().mentions@ == spec_append_mention(
                    Seq::empty(),
                    mid,
                    is_mentioned,
                )
            }),
    {
        match self.find_unread(uid, cid) {
            Some(ui) => {
                proof {
                    let k = seq_unread_idx(old(self).unreads@, uid, cid);
                    assert(old(self).unreads@[k].user == uid && old(self).unreads@[k].channel
                        == cid);
                    assert(ui as int == k);
                }
                let ghost pre_ms = self.unreads@[ui as int].mentions@;
                if is_mentioned {
                    if self.unreads[ui].mentions.len() >= MAX_PENDING_MENTIONS {
                        self.unreads[ui].mentions.remove(0);
                        proof {
                            assert(self.unreads@[ui as int].mentions@ =~= pre_ms.subrange(
                                1,
                                pre_ms.len() as int,
                            ));
                        }
                    }
                    self.unreads[ui].mentions.push(mid);
                }
                proof {
                    let k = ui as int;
                    assert(self.unreads@[k].mentions@ == spec_append_mention(
                        pre_ms,
                        mid,
                        is_mentioned,
                    ));
                    assert(old(self).unreads@[k].last_read matches Some(m2) ==> old(
                        self,
                    ).ever_sent(old(self).unreads@[k].channel, m2));
                    self.lemma_unread_update_preserves_wf(*old(self), k);
                    assert forall|a: u64, b: u64| #[trigger] self.has_unread(a, b) <==> (old(
                        self,
                    ).has_unread(a, b) || (a == uid && b == cid)) by {
                        if self.has_unread(a, b) {
                            let j = choose|j: int|
                                0 <= j < self.unreads@.len() && self.unreads@[j].user == a
                                    && self.unreads@[j].channel == b;
                            assert(old(self).unreads@[j].user == a && old(self).unreads@[j].channel
                                == b);
                        }
                        if old(self).has_unread(a, b) {
                            let j = choose|j: int|
                                0 <= j < old(self).unreads@.len() && old(self).unreads@[j].user
                                    == a && old(self).unreads@[j].channel == b;
                            assert(self.unreads@[j].user == a && self.unreads@[j].channel == b);
                        }
                        if a == uid && b == cid {
                            assert(self.unreads@[k].user == a && self.unreads@[k].channel == b);
                        }
                    }
                }
            },
            None => {
                let mut ms: Vec<u64> = Vec::new();
                if is_mentioned {
                    ms.push(mid);
                }
                proof {
                    if is_mentioned {
                        assert(ms@ =~= Seq::<u64>::empty().push(mid));
                    } else {
                        assert(ms@ =~= Seq::<u64>::empty());
                    }
                }
                let row = UnreadState { user: uid, channel: cid, last_read: None, mentions: ms };
                self.unreads.push(row);
                proof {
                    self.lemma_unread_push_preserves_wf(*old(self), row);
                    let n = self.unreads@.len() - 1;
                    assert(self.unreads@[n] == row);
                    assert forall|a: u64, b: u64| #[trigger] self.has_unread(a, b) <==> (old(
                        self,
                    ).has_unread(a, b) || (a == uid && b == cid)) by {
                        if self.has_unread(a, b) {
                            let j = choose|j: int|
                                0 <= j < self.unreads@.len() && self.unreads@[j].user == a
                                    && self.unreads@[j].channel == b;
                            if j < n {
                                assert(old(self).unreads@[j].user == a && old(
                                    self,
                                ).unreads@[j].channel == b);
                            }
                        }
                        if old(self).has_unread(a, b) {
                            let j = choose|j: int|
                                0 <= j < old(self).unreads@.len() && old(self).unreads@[j].user
                                    == a && old(self).unreads@[j].channel == b;
                            assert(self.unreads@[j].user == a && self.unreads@[j].channel == b);
                        }
                        if a == uid && b == cid {
                            assert(self.unreads@[n].user == a && self.unreads@[n].channel == b);
                        }
                    }
                }
            },
        }
    }

    /// Deliver one message to every recipient other than the author:
    /// each gets a read-state row if they had none (with no read
    /// marker), and each mentioned recipient gets the message appended
    /// to their pending mentions.
    pub fn notify_recipients(
        &mut self,
        cid: u64,
        mid: u64,
        author: u64,
        mentioned: &Vec<u64>,
        recipients: &Vec<u64>,
    )
        requires
            old(self).wf(),
            old(self).has_channel(cid),
            forall|i: int, j: int|
                0 <= i < j < recipients@.len() ==> recipients@[i] != recipients@[j],
        ensures
            final(self).wf(),
            final(self).servers == old(self).servers,
            final(self).channels == old(self).channels,
            final(self).members == old(self).members,
            final(self).bans == old(self).bans,
            final(self).messages == old(self).messages,
            final(self).webhooks == old(self).webhooks,
            final(self).invites == old(self).invites,
            final(self).emoji == old(self).emoji,
            final(self).sent == old(self).sent,
            final(self).users == old(self).users,
            final(self).next_id == old(self).next_id,
            forall|j: int|
                0 <= j < final(self).unreads@.len() ==> row_after_delivery(
                    old(self).unreads@,
                    #[trigger] final(self).unreads@[j],
                    recipients@,
                    author,
                    cid,
                    mid,
                    mentioned@,
                ),
            forall|a: u64, b: u64|
                #[trigger] final(self).has_unread(a, b) <==> (old(self).has_unread(a, b) || (b
                    == cid && recipients@.contains(a) && a != author)),
    {
        let mut i: usize = 0;
        proof {
            assert(recipients@.subrange(0, 0) =~= Seq::<u64>::empty());
        }
        while i < recipients.len()
            invariant
                self.wf(),
                old(self).wf(),
                old(self).has_channel(cid),
                forall|a: int, b: int|
                    0 <= a < b < recipients@.len() ==> recipients@[a] != recipients@[b],
                0 <= i <= recipients@.len(),
                self.servers == old(self).servers,
                self.channels == old(self).channels,
                self.members == old(self).members,
                self.bans == old(self).bans,
                self.messages == old(self).messages,
                self.webhooks == old(self).webhooks,
                self.invites == old(self).invites,
                self.emoji == old(self).emoji,
                self.sent == old(self).sent,
                self.users == old(self).users,
                self.next_id == old(self).next_id,
                forall|j: int|
                    0 <= j < self.unreads@.len() ==> row_after_delivery(
                        old(self).unreads@,
                        #[trigger] self.unreads@[j],
                        recipients@.subrange(0, i as int),
                        author,
                        cid,
                        mid,
                        mentioned@,
                    ),
                forall|a: u64, b: u64|
                    #[trigger] self.has_unread(a, b) <==> (old(self).has_unread(a, b) || (b == cid
                        && recipients@.subrange(0, i as int).contains(a) && a != author)),
            decreases recipients@.len() - i,
        {
            let u = recipients[i];
            let ghost procd = recipients@.subrange(0, i as int);
            let ghost procd2 = recipients@.subrange(0, i as int + 1);
            proof {
                assert(procd2 =~= procd.push(u));
                assert forall|x: u64| #[trigger] procd2.contains(x) <==> (procd.contains(x) || x
                    == u) by {
                    if procd2.contains(x) {
                        let j = choose|j: int| 0 <= j < procd2.len() && procd2[j] == x;
                        if j < procd.len() {
                            assert(procd[j] == x);
                        }
                    }
                    if procd.contains(x) {
                        let j = choose|j: int| 0 <= j < procd.len() && procd[j] == x;
                        assert(procd2[j] == x);
                    }
                    if x == u {
                        assert(procd2[procd2.len() - 1] == x);
                    }
                }
                if procd.contains(u) {
                    let j = choose|j: int| 0 <= j < procd.len() && procd[j] == u;
                    assert(recipients@[j] == recipients@[i as int]);
                    assert(false);
                }
            }
            if u != author {
                let is_m = crate::perms::contains_u64(mentioned, u);
                let ghost pre0 = old(self).unreads@;
                let ghost a_tab = self.unreads@;
                let ghost a_store = *self;
                proof {
                    assert(self.has_channel(cid)) by {
                        assert(old(self).has_channel(cid));
                    }
                }
                self.notify_one(cid, mid, u, is_m);
                proof {
                    let b_tab = self.unreads@;
                    if a_store.has_unread(u, cid) {
                        let k = seq_unread_idx(a_tab, u, cid);
                        assert(a_tab[k].user == u && a_tab[k].channel == cid);
                        assert forall|j: int|
                            0 <= j < b_tab.len() implies row_after_delivery(
                            pre0,
                            #[trigger] b_tab[j],
                            procd2,
                            author,
                            cid,
                            mid,
                            mentioned@,
                        ) by {
                            if j != k {
                                assert(b_tab[j] == a_tab[j]);
                                assert(row_after_delivery(
                                    pre0,
                                    a_tab[j],
                                    procd,
                                    author,
                                    cid,
                                    mid,
                                    mentioned@,
                                ));
                                if b_tab[j].channel == cid && b_tab[j].user == u {
                                    assert(crate::store::unread_key(a_tab[j])
                                        == crate::store::unread_key(a_tab[k]));
                                    assert(false);
                                }
                            } else {
                                assert(a_store.has_unread(u, cid) == old(self).has_unread(u, cid));
                                assert(row_after_delivery(
                                    pre0,
                                    a_tab[k],
                                    procd,
                                    author,
                                    cid,
                                    mid,
                                    mentioned@,
                                ));
                                assert(pre0.contains(a_tab[k]));
                                let k0 = choose|k0: int|
                                    0 <= k0 < pre0.len() && pre0[k0] == a_tab[k];
                                assert(seq_has_unread(pre0, u, cid));
                                let k1 = seq_unread_idx(pre0, u, cid);
                                assert(pre0[k1].user == u && pre0[k1].channel == cid);
                                assert(crate::store::unread_key(pre0[k0])
                                    == crate::store::unread_key(pre0[k1]));
                                if k0 != k1 {
                                    assert(false);
                                }
                                assert(pre0[k1] == a_tab[k]);
                            }
                        }
                    } else {
                        let n = b_tab.len() - 1;
                        assert forall|j: int|
                            0 <= j < b_tab.len() implies row_after_delivery(
                            pre0,
                            #[trigger] b_tab[j],
                            procd2,
                            author,
                            cid,
                            mid,
                            mentioned@,
                        ) by {
                            if j < n {
                                assert(b_tab[j] == a_tab[j]);
                                assert(row_after_delivery(
                                    pre0,
                                    a_tab[j],
                                    procd,
                                    author,
                                    cid,
                                    mid,
                                    mentioned@,
                                ));
                                if b_tab[j].channel == cid && b_tab[j].user == u {
                                    assert(a_store.has_unread(u, cid));
                                    assert(false);
                                }
                            } else {
                                assert(a_store.has_unread(u, cid) == old(self).has_unread(u, cid));
                                assert(!seq_has_unread(pre0, u, cid)) by {
                                    if seq_has_unread(pre0, u, cid) {
                                        let k1 = seq_unread_idx(pre0, u, cid);
                                        assert(old(self).unreads@[k1].user == u && old(
                                            self,
                                        ).unreads@[k1].channel == cid);
                                        assert(old(self).has_unread(u, cid));
                                        assert(false);
                                    }
                                }
                            }
                        }
                    }
                    assert forall|a: u64, b: u64| #[trigger] self.has_unread(a, b) <==> (old(
                        self,
                    ).has_unread(a, b) || (b == cid && procd2.contains(a) && a != author)) by {
                        assert(self.has_unread(a, b) <==> (a_store.has_unread(a, b) || (a == u && b
                            == cid)));
                    }
                }
            } else {
                proof {
                    assert forall|j: int|
                        0 <= j < self.unreads@.len() implies row_after_delivery(
                        old(self).unreads@,
                        #[trigger] self.unreads@[j],
                        procd2,
                        author,
                        cid,
                        mid,
                        mentioned@,
                    ) by {
                        assert(row_after_delivery(
                            old(self).unreads@,
                            self.unreads@[j],
                            procd,
                            author,
                            cid,
                            mid,
                            mentioned@,
                        ));
                    }
                }
            }
            i += 1;
        }
        proof {
            assert(recipients@.subrange(0, recipients@.len() as int) =~= recipients@);
        }
    }

    /// The pending set after a run of mentioning deliveries to one
    /// row, oldest first.
    pub open spec fn pending_after(mids: Seq<u64>) -> Seq<u64>
        decreases mids.len(),
    {
        if mids.len() == 0 {
            Seq::empty()
        } else {
            spec_append_mention(Store::pending_after(mids.drop_last()), mids.last(), true)
        }
    }

    /// The unread round trip for one (user, channel) pair: a fresh row
    /// that receives mentions of messages with ascending ids
    /// accumulates exactly those ids in order (below the cap), and an
    /// acknowledgement of any one of them clears exactly the mentions
    /// up to it, leaving the newer suffix pending.  Each delivery and
    /// the acknowledgement act on the row as `notify_one`,
    /// `send_message` and `acknowledge` promise.
    pub proof fn lemma_unread_round_trip(mids: Seq<u64>, k: int)
        requires
            mids.len() <= MAX_PENDING_MENTIONS,
            forall|i: int, j: int| 0 <= i < j < mids.len() ==> mids[i] < mids[j],
            0 <= k < mids.len(),
        ensures
            Store::pending_after(mids) == mids,
            Store::pending_after(mids).filter(|x: u64| x > mids[k]) =~= mids.subrange(
                k + 1,
                mids.len() as int,
            ),
    {
        Store::lemma_pending_after_identity(mids);
        Store::lemma_ascending_filter_above(mids, k);
    }

    /// Below the cap, a run of mentioning deliveries accumulates the
    /// delivered ids exactly, in order.
    proof fn lemma_pending_after_identity(mids: Seq<u64>)
        requires
            mids.len() <= MAX_PENDING_MENTIONS,
        ensures
            Store::pending_after(mids) == mids,
        decreases mids.len(),
    {
        if mids.len() > 0 {
            let t = mids.drop_last();
            Store::lemma_pending_after_identity(t);
            assert(Store::pending_after(mids) == t.push(mids.last()));
            assert(t.push(mids.last()) =~= mids);
        } else {
            assert(Store::pending_after(mids) =~= mids);
        }
    }

    /// In a strictly ascending sequence, the ids above the k-th are
    /// exactly the suffix after it.
    proof fn lemma_ascending_filter_above(mids: Seq<u64>, k: int)
        requires
            forall|i: int, j: int| 0 <= i < j < mids.len() ==> mids[i] < mids[j],
            0 <= k < mids.len(),
        ensures
            mids.filter(|x: u64| x > mids[k]) =~= mids.subrange(k + 1, mids.len() as int),
        decreases mids.len(),
    {
        reveal(Seq::filter);
        let pred = |x: u64| x > mids[k];
        if mids.len() > 0 {
            let t = mids.drop_last();
            let last = mids.last();
            if k == mids.len() - 1 {
                assert(!pred(last));
                assert(mids.filter(pred) == t.filter(pred));
                crate::table::lemma_filter_in(t, pred);
                if t.filter(pred).len() > 0 {
                    assert(t.contains(t.filter(pred)[0]) && pred(t.filter(pred)[0]));
                    let w = choose|w: int| 0 <= w < t.len() && t[w] == t.filter(pred)[0];
                    assert(mids[w] < mids[k]);
                    assert(false);
                }
                assert(mids.filter(pred).len() == 0);
                assert(mids.subrange(k + 1, mids.len() as int).len() == 0);
                assert(mids.filter(pred) =~= mids.subrange(k + 1, mids.len() as int));
            } else {
                assert(pred(last));
                assert(mids.filter(pred) == t.filter(pred).push(last));
                assert(t[k] == mids[k]);
                Store::lemma_ascending_filter_above(t, k);
                assert(t.filter(|x: u64| x > t[k]) =~= t.subrange(k + 1, t.len() as int));
                assert(t.filter(pred) =~= t.subrange(k + 1, t.len() as int)) by {
                    assert(t.filter(pred) == t.filter(|x: u64| x > t[k])) by {
                        assert((|x: u64| x > t[k]) =~= pred) by {
                            assert(t[k] == mids[k]);
                        }
                    }
                }
                assert(mids.filter(pred) =~= mids.subrange(k + 1, mids.len() as int));
            }
        }
    }

    /// Unread updates for one (user, channel) pair commute when ids
    /// order them: delivering a mention of a newer message and
    /// acknowledging an older one leave the same read state in either
    /// order, as long as the pending set is below its cap.  The read
    /// marker is decided by the acknowledged id alone, and the pending
    /// set by which mentions exceed it.
    pub proof fn lemma_delivery_ack_commute(
        last: Option<u64>,
        mentions: Seq<u64>,
        ack: u64,
        delivered: u64,
    )
        requires
            delivered > ack,
            mentions.len() < MAX_PENDING_MENTIONS as int,
        ensures
            spec_append_mention(mentions, delivered, true).filter(|x: u64| x > ack)
                =~= spec_append_mention(
                mentions.filter(|x: u64| x > ack),
                delivered,
                true,
            ),
    {
        reveal(Seq::filter);
        let s = mentions;
        let pred = |x: u64| x > ack;
        assert(s.push(delivered).drop_last() =~= s);
        assert(s.push(delivered).last() == delivered);
        assert(s.push(delivered).filter(pred) == s.filter(pred).push(delivered));
        crate::table::lemma_filter_in(s, pred);
        assert(s.filter(pred).len() <= s.len()) by {
            Seq::lemma_filter_len(s, pred);
        }
    }

    /// Acknowledge a message id in a channel.  An id the channel never
    /// contained is rejected with `StaleAcknowledgement` and the state
    /// is left untouched; otherwise the read marker advances (never
    /// regresses) and every pending mention up to the acknowledged id
    /// is cleared.
    pub fn acknowledge(&mut self, uid: u64, cid: u64, mid: u64) -> (r: Result<(), Error>)
        requires
            old(self).wf(),
        ensures
            final(self).wf(),
            r == Err::<(), Error>(Error::NotFound) <==> !old(self).has_channel(cid),
            r == Err::<(), Error>(Error::StaleAcknowledgement) <==> (old(self).has_channel(cid)
                && !old(self).ever_sent(cid, mid)),
            r is Ok <==> (old(self).has_channel(cid) && old(self).ever_sent(cid, mid)),
            r is Err ==> *final(self) == *old(self),
            r is Ok ==> ({
                &&& final(self).servers == old(self).servers
                &&& final(self).channels == old(self).channels
                &&& final(self).members == old(self).members
                &&& final(self).bans == old(self).bans
                &&& final(self).messages == old(self).messages
                &&& final(self).webhooks == old(self).webhooks
                &&& final(self).invites == old(self).invites
                &&& final(self).emoji == old(self).emoji
                &&& final(self).sent == old(self).sent
                &&& final(self).users == old(self).users
                &&& final(self).next_id == old(self).next_id
            }),
            r is Ok && old(self).has_unread(uid, cid) ==> ({
                let k = old(self).unread_idx(uid, cid);
                &&& final(self).unreads@.len() == old(self).unreads@.len()
                &&& forall|i: int|
                    0 <= i < old(self).unreads@.len() && i != k ==> final(self).unreads@[i] == old(
                        self,
                    ).unreads@[i]
                &&& final(self).unreads@[k].user == uid
                &&& final(self).unreads@[k].channel == cid
                &&& final(self).unreads@[k].last_read == Some(
                    spec_advance(old(self).unreads@[k].last_read, mid),
                )
                &&& final(self).unreads@[k].mentions@ == old(self).unreads@[k].mentions@.filter(
                    |x: u64| x > mid,
                )
            }),
            r is Ok && !old(self).has_unread(uid, cid) ==> ({
                &&& final(self).unreads@.len() == old(self).unreads@.len() + 1
                &&& final(self).unreads@.subrange(0, old(self).unreads@.len() as int) =~= old(
                    self,
                ).unreads@
                &&& final(self).unreads@.last().user == uid
                &&& final(self).unreads@.last().channel == cid
                &&& final(self).unreads@.last().last_read == Some(mid)
                &&& final(self).unreads@.last().mentions@ =~= Seq::<u64>::empty()
            }),
    {
        if self.find_channel(cid).is_none() {
            return Err(Error::NotFound);
        }
        if !self.was_sent(cid, mid) {
            return Err(Error::StaleAcknowledgement);
        }
        match self.find_unread(uid, cid) {
            Some(ui) => {
                proof {
                    let k = old(self).unread_idx(uid, cid);
                    assert(old(self).unreads@[k].user == uid && old(self).unreads@[k].channel
                        == cid);
                    assert(ui as int == k);
                }
                let new_mark = match self.unreads[ui].last_read {
                    Some(l) => if l >= mid {
                        l
                    } else {
                        mid
                    },
                    None => mid,
                };
                self.unreads[ui].last_read = Some(new_mark);
                let kept = filter_gt(&self.unreads[ui].mentions, mid);
                self.unreads[ui].mentions = kept;
                proof {
                    let k = ui as int;
                    assert(self.unreads@[k].last_read matches Some(m2) ==> (m2 == new_mark));
                    if new_mark != mid {
                        assert(old(self).unreads@[k].last_read == Some(new_mark));
                        assert(old(self).ever_sent(cid, new_mark));
                    }
                    self.lemma_unread_update_preserves_wf(*old(self), k);
                }
                Ok(())
            },
            None => {
                let row = UnreadState {
                    user: uid,
                    channel: cid,
                    last_read: Some(mid),
                    mentions: Vec::new(),
                };
                self.unreads.push(row);
                proof {
                    self.lemma_unread_push_preserves_wf(*old(self), row);
                    assert(self.unreads@.last().mentions@ =~= Seq::<u64>::empty());
                }
                Ok(())
            },
        }
    }

    /// Remove one message id from every pending-mentions set; read
    /// markers are left untouched, because a read marker is a pointer
    /// in time, not a per-message flag.
    pub fn clear_mention_everywhere(&mut self, mid: u64)
        requires
            old(self).wf(),
        ensures
            final(self).wf(),
            final(self).unreads@.len() == old(self).unreads@.len(),
            forall|i: int|
                0 <= i < old(self).unreads@.len() ==> ({
                    &&& (#[trigger] final(self).unreads@[i]).user == old(self).unreads@[i].user
                    &&& final(self).unreads@[i].channel == old(self).unreads@[i].channel
                    &&& final(self).unreads@[i].last_read == old(self).unreads@[i].last_read
                    &&& final(self).unreads@[i].mentions@ == crate::table::seq_without(
                        old(self).unreads@[i].mentions@,
                        mid,
                    )
                }),
            final(self).servers == old(self).servers,
            final(self).channels == old(self).channels,
            final(self).members == old(self).members,
            final(self).bans == old(self).bans,
            final(self).messages == old(self).messages,
            final(self).webhooks == old(self).webhooks,
            final(self).invites == old(self).invites,
            final(self).emoji == old(self).emoji,
            final(self).sent == old(self).sent,
            final(self).users == old(self).users,
            final(self).next_id == old(self).next_id,
    {
        let mut i: usize = 0;
        while i < self.unreads.len()
            invariant
                old(self).wf(),
                0 <= i <= self.unreads@.len(),
                self.unreads@.len() == old(self).unreads@.len(),
                forall|j: int|
                    i <= j < old(self).unreads@.len() ==> #[trigger] self.unreads@[j] == old(
                        self,
                    ).unreads@[j],
                forall|j: int|
                    0 <= j < i ==> ({
                        &&& (#[trigger] self.unreads@[j]).user == old(self).unreads@[j].user
                        &&& self.unreads@[j].channel == old(self).unreads@[j].channel
                        &&& self.unreads@[j].last_read == old(self).unreads@[j].last_read
                        &&& self.unreads@[j].mentions@ == crate::table::seq_without(
                            old(self).unreads@[j].mentions@,
                            mid,
                        )
                    }),
                self.servers == old(self).servers,
                self.channels == old(self).channels,
                self.members == old(self).members,
                self.bans == old(self).bans,
                self.messages == old(self).messages,
                self.webhooks == old(self).webhooks,
                self.invites == old(self).invites,
                self.emoji == old(self).emoji,
                self.sent == old(self).sent,
                self.users == old(self).users,
                self.next_id == old(self).next_id,
            decreases self.unreads@.len() - i,
        {
            let kept = crate::table::filter_ne(&self.unreads[i].mentions, mid);
            self.unreads[i].mentions = kept;
            i += 1;
        }
        proof {
            assert forall|i: int, j: int| 0 <= i < j < self.unreads@.len() implies crate::store::unread_key(
                self.unreads@[i],
            ) != crate::store::unread_key(self.unreads@[j]) by {
                assert(crate::store::unread_key(old(self).unreads@[i])
                    != crate::store::unread_key(old(self).unreads@[j]));
            }
            assert forall|i: int| 0 <= i < self.unreads@.len() implies self.has_channel(
                #[trigger] self.unreads@[i].channel,
            ) by {
                assert(old(self).has_channel(old(self).unreads@[i].channel));
            }
            assert forall|i: int| 0 <= i < self.unreads@.len() implies (
            #[trigger] self.unreads@[i].last_read matches Some(m2) ==> self.ever_sent(
                self.unreads@[i].channel,
                m2,
            )) by {
                assert(old(self).unreads@[i].last_read matches Some(m2) ==> old(self).ever_sent(
                    old(self).unreads@[i].channel,
                    m2,
                ));
            }
        }
    }
}

} // verus!
