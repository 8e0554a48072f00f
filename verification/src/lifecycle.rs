//! Server and channel lifecycle: creation with overwrite validation,
//! edits, and cascading deletion that leaves no orphan behind.

use vstd::prelude::*;
use crate::Error;
use crate::membership::channel_of;
use crate::store::{
    Store, Server, Channel, Member, Ban, Message, Webhook, Invite, Emoji, UnreadState,
    distinct_role_ids_of, channel_internally_keyed, roles_fresh,
};
use crate::table::{lemma_filter_contains, lemma_filter_in, lemma_filter_distinct};

verus! {

/// The server table without the server `sid`.
pub open spec fn servers_without(s: Seq<Server>, sid: u64) -> Seq<Server> {
    s.filter(|x: Server| x.id != sid)
}

/// The channels that do not belong to server `sid`.
pub open spec fn channels_outside(s: Seq<Channel>, sid: u64) -> Seq<Channel> {
    s.filter(|c: Channel| c.server != Some(sid))
}

/// The member records outside server `sid`.
pub open spec fn members_outside(s: Seq<Member>, sid: u64) -> Seq<Member> {
    s.filter(|m: Member| m.server != sid)
}

/// The ban records outside server `sid`.
pub open spec fn bans_outside(s: Seq<Ban>, sid: u64) -> Seq<Ban> {
    s.filter(|b: Ban| b.server != sid)
}

/// The emoji outside server `sid`.
pub open spec fn emoji_outside(s: Seq<Emoji>, sid: u64) -> Seq<Emoji> {
    s.filter(|e: Emoji| e.server != sid)
}

/// The messages whose channel is not a channel of server `sid`.
pub open spec fn messages_outside(s: Seq<Message>, chans: Seq<Channel>, sid: u64) -> Seq<Message> {
    s.filter(|m: Message| !channel_of(chans, m.channel, sid))
}

/// The webhooks whose channel is not a channel of server `sid`.
pub open spec fn webhooks_outside(s: Seq<Webhook>, chans: Seq<Channel>, sid: u64) -> Seq<Webhook> {
    s.filter(|w: Webhook| !channel_of(chans, w.channel, sid))
}

/// The invites whose channel is not a channel of server `sid`.
pub open spec fn invites_outside(s: Seq<Invite>, chans: Seq<Channel>, sid: u64) -> Seq<Invite> {
    s.filter(|v: Invite| !channel_of(chans, v.channel, sid))
}

/// The read-state rows whose channel is not a channel of server `sid`.
pub open spec fn unreads_outside(s: Seq<UnreadState>, chans: Seq<Channel>, sid: u64) -> Seq<
    UnreadState,
> {
    s.filter(|u: UnreadState| !channel_of(chans, u.channel, sid))
}

/// The messages outside channel `cid`.
pub open spec fn messages_not_in(s: Seq<Message>, cid: u64) -> Seq<Message> {
    s.filter(|m: Message| m.channel != cid)
}

/// The webhooks outside channel `cid`.
pub open spec fn webhooks_not_in(s: Seq<Webhook>, cid: u64) -> Seq<Webhook> {
    s.filter(|w: Webhook| w.channel != cid)
}

/// The invites outside channel `cid`.
pub open spec fn invites_not_in(s: Seq<Invite>, cid: u64) -> Seq<Invite> {
    s.filter(|v: Invite| v.channel != cid)
}

/// The read-state rows outside channel `cid`.
pub open spec fn unreads_not_in(s: Seq<UnreadState>, cid: u64) -> Seq<UnreadState> {
    s.filter(|u: UnreadState| u.channel != cid)
}

/// The channel table without the channel `cid`.
pub open spec fn channels_without(s: Seq<Channel>, cid: u64) -> Seq<Channel> {
    s.filter(|c: Channel| c.id != cid)
}

/// Whether the overwrites have pairwise distinct subjects.
pub fn distinct_subjects_exec(ows: &Vec<crate::perms::Overwrite>) -> (r: bool)
    ensures
        r == crate::perms::distinct_subjects(ows@),
{
    let mut i: usize = 0;
    while i < ows.len()
        invariant
            0 <= i <= ows@.len(),
            forall|a: int, b: int| 0 <= a < b < i ==> ows@[a].subject != ows@[b].subject,
        decreases ows@.len() - i,
    {
        let mut j: usize = 0;
        while j < i
            invariant
                0 <= j <= i < ows@.len(),
                forall|a: int, b: int| 0 <= a < b < i ==> ows@[a].subject != ows@[b].subject,
                forall|a: int| 0 <= a < j ==> ows@[a].subject != ows@[i as int].subject,
            decreases i - j,
        {
            if ows[j].subject == ows[i].subject {
                return false;
            }
            j += 1;
        }
        i += 1;
    }
    true
}

/// Whether the ids are pairwise distinct.
pub fn distinct_u64_exec(v: &Vec<u64>) -> (r: bool)
    ensures
        r == (forall|i: int, j: int| 0 <= i < j < v@.len() ==> v@[i] != v@[j]),
{
    let mut i: usize = 0;
    while i < v.len()
        invariant
            0 <= i <= v@.len(),
            forall|a: int, b: int| 0 <= a < b < i ==> v@[a] != v@[b],
        decreases v@.len() - i,
    {
        let mut j: usize = 0;
        while j < i
            invariant
                0 <= j <= i < v@.len(),
                forall|a: int, b: int| 0 <= a < b < i ==> v@[a] != v@[b],
                forall|a: int| 0 <= a < j ==> v@[a] != v@[i as int],
            decreases i - j,
        {
            if v[j] == v[i] {
                return false;
            }
            j += 1;
        }
        i += 1;
    }
    true
}

fn drop_servers(v: Vec<Server>, sid: u64) -> (out: Vec<Server>)
    ensures
        out@ == servers_without(v@, sid),
{
    let ghost orig = v@;
    let mut v = v;
    let mut out: Vec<Server> = Vec::new();
    proof {
        reveal(Seq::filter);
        assert(orig.subrange(0, 0) =~= Seq::<Server>::empty());
    }
    while v.len() > 0
        invariant
            v@.len() <= orig.len(),
            v@ =~= orig.subrange(orig.len() - v@.len(), orig.len() as int),
            out@ == servers_without(orig.subrange(0, orig.len() - v@.len()), sid),
        decreases v@.len(),
    {
        let ghost n = orig.len() - v@.len();
        proof {
            reveal(Seq::filter);
            assert(v@[0] == orig[n as int]);
            assert(orig.subrange(0, n as int + 1).drop_last() =~= orig.subrange(0, n as int));
            assert(orig.subrange(0, n as int + 1).last() == orig[n as int]);
        }
        let x = v.remove(0);
        if x.id != sid {
            out.push(x);
        }
        proof {
            assert(v@ =~= orig.subrange(orig.len() - v@.len(), orig.len() as int));
        }
    }
    proof {
        assert(orig.subrange(0, orig.len() as int) =~= orig);
    }
    out
}

fn drop_channels_of(v: Vec<Channel>, sid: u64) -> (out: Vec<Channel>)
    ensures
        out@ == channels_outside(v@, sid),
{
    let ghost orig = v@;
    let mut v = v;
    let mut out: Vec<Channel> = Vec::new();
    proof {
        reveal(Seq::filter);
        assert(orig.subrange(0, 0) =~= Seq::<Channel>::empty());
    }
    while v.len() > 0
        invariant
            v@.len() <= orig.len(),
            v@ =~= orig.subrange(orig.len() - v@.len(), orig.len() as int),
            out@ == channels_outside(orig.subrange(0, orig.len() - v@.len()), sid),
        decreases v@.len(),
    {
        let ghost n = orig.len() - v@.len();
        proof {
            reveal(Seq::filter);
            assert(v@[0] == orig[n as int]);
            assert(orig.subrange(0, n as int + 1).drop_last() =~= orig.subrange(0, n as int));
            assert(orig.subrange(0, n as int + 1).last() == orig[n as int]);
        }
        let x = v.remove(0);
        let keep = match x.server {
            Some(s) => s != sid,
            None => true,
        };
        if keep {
            out.push(x);
        }
        proof {
            assert(v@ =~= orig.subrange(orig.len() - v@.len(), orig.len() as int));
        }
    }
    proof {
        assert(orig.subrange(0, orig.len() as int) =~= orig);
    }
    out
}

fn drop_members_of(v: Vec<Member>, sid: u64) -> (out: Vec<Member>)
    ensures
        out@ == members_outside(v@, sid),
{
    let ghost orig = v@;
    let mut v = v;
    let mut out: Vec<Member> = Vec::new();
    proof {
        reveal(Seq::filter);
        assert(orig.subrange(0, 0) =~= Seq::<Member>::empty());
    }
    while v.len() > 0
        invariant
            v@.len() <= orig.len(),
            v@ =~= orig.subrange(orig.len() - v@.len(), orig.len() as int),
            out@ == members_outside(orig.subrange(0, orig.len() - v@.len()), sid),
        decreases v@.len(),
    {
        let ghost n = orig.len() - v@.len();
        proof {
            reveal(Seq::filter);
            assert(v@[0] == orig[n as int]);
            assert(orig.subrange(0, n as int + 1).drop_last() =~= orig.subrange(0, n as int));
            assert(orig.subrange(0, n as int + 1).last() == orig[n as int]);
        }
        let x = v.remove(0);
        if x.server != sid {
            out.push(x);
        }
        proof {
            assert(v@ =~= orig.subrange(orig.len() - v@.len(), orig.len() as int));
        }
    }
    proof {
        assert(orig.subrange(0, orig.len() as int) =~= orig);
    }
    out
}

fn drop_bans_of(v: Vec<Ban>, sid: u64) -> (out: Vec<Ban>)
    ensures
        out@ == bans_outside(v@, sid),
{
    let ghost orig = v@;
    let mut v = v;
    let mut out: Vec<Ban> = Vec::new();
    proof {
        reveal(Seq::filter);
        assert(orig.subrange(0, 0) =~= Seq::<Ban>::empty());
    }
    while v.len() > 0
        invariant
            v@.len() <= orig.len(),
            v@ =~= orig.subrange(orig.len() - v@.len(), orig.len() as int),
            out@ == bans_outside(orig.subrange(0, orig.len() - v@.len()), sid),
        decreases v@.len(),
    {
        let ghost n = orig.len() - v@.len();
        proof {
            reveal(Seq::filter);
            assert(v@[0] == orig[n as int]);
            assert(orig.subrange(0, n as int + 1).drop_last() =~= orig.subrange(0, n as int));
            assert(orig.subrange(0, n as int + 1).last() == orig[n as int]);
        }
        let x = v.remove(0);
        if x.server != sid {
            out.push(x);
        }
        proof {
            assert(v@ =~= orig.subrange(orig.len() - v@.len(), orig.len() as int));
        }
    }
    proof {
        assert(orig.subrange(0, orig.len() as int) =~= orig);
    }
    out
}

fn drop_emoji_of(v: &Vec<Emoji>, sid: u64) -> (out: Vec<Emoji>)
    ensures
        out@ == emoji_outside(v@, sid),
{
    let mut out: Vec<Emoji> = Vec::new();
    let mut i: usize = 0;
    proof {
        reveal(Seq::filter);
        assert(v@.subrange(0, 0) =~= Seq::<Emoji>::empty());
    }
    while i < v.len()
        invariant
            0 <= i <= v@.len(),
            out@ == emoji_outside(v@.subrange(0, i as int), sid),
        decreases v@.len() - i,
    {
        proof {
            reveal(Seq::filter);
            assert(v@.subrange(0, i + 1).drop_last() =~= v@.subrange(0, i as int));
            assert(v@.subrange(0, i + 1).last() == v@[i as int]);
        }
        if v[i].server != sid {
            out.push(v[i]);
        }
        i += 1;
    }
    proof {
        assert(v@.subrange(0, v@.len() as int) =~= v@);
    }
    out
}

fn drop_webhooks_shed(v: &Vec<Webhook>, chans: &Vec<Channel>, sid: u64) -> (out: Vec<Webhook>)
    ensures
        out@ == webhooks_outside(v@, chans@, sid),
{
    let mut out: Vec<Webhook> = Vec::new();
    let mut i: usize = 0;
    proof {
        reveal(Seq::filter);
        assert(v@.subrange(0, 0) =~= Seq::<Webhook>::empty());
    }
    while i < v.len()
        invariant
            0 <= i <= v@.len(),
            out@ == webhooks_outside(v@.subrange(0, i as int), chans@, sid),
        decreases v@.len() - i,
    {
        proof {
            reveal(Seq::filter);
            assert(v@.subrange(0, i + 1).drop_last() =~= v@.subrange(0, i as int));
            assert(v@.subrange(0, i + 1).last() == v@[i as int]);
        }
        if !crate::membership::channel_of_vec(chans, v[i].channel, sid) {
            out.push(v[i]);
        }
        i += 1;
    }
    proof {
        assert(v@.subrange(0, v@.len() as int) =~= v@);
    }
    out
}

fn drop_invites_shed(v: &Vec<Invite>, chans: &Vec<Channel>, sid: u64) -> (out: Vec<Invite>)
    ensures
        out@ == invites_outside(v@, chans@, sid),
{
    let mut out: Vec<Invite> = Vec::new();
    let mut i: usize = 0;
    proof {
        reveal(Seq::filter);
        assert(v@.subrange(0, 0) =~= Seq::<Invite>::empty());
    }
    while i < v.len()
        invariant
            0 <= i <= v@.len(),
            out@ == invites_outside(v@.subrange(0, i as int), chans@, sid),
        decreases v@.len() - i,
    {
        proof {
            reveal(Seq::filter);
            assert(v@.subrange(0, i + 1).drop_last() =~= v@.subrange(0, i as int));
            assert(v@.subrange(0, i + 1).last() == v@[i as int]);
        }
        if !crate::membership::channel_of_vec(chans, v[i].channel, sid) {
            out.push(v[i]);
        }
        i += 1;
    }
    proof {
        assert(v@.subrange(0, v@.len() as int) =~= v@);
    }
    out
}

fn drop_invites_of_channel(v: &Vec<Invite>, cid: u64) -> (out: Vec<Invite>)
    ensures
        out@ == invites_not_in(v@, cid),
{
    let mut out: Vec<Invite> = Vec::new();
    let mut i: usize = 0;
    proof {
        reveal(Seq::filter);
        assert(v@.subrange(0, 0) =~= Seq::<Invite>::empty());
    }
    while i < v.len()
        invariant
            0 <= i <= v@.len(),
            out@ == invites_not_in(v@.subrange(0, i as int), cid),
        decreases v@.len() - i,
    {
        proof {
            reveal(Seq::filter);
            assert(v@.subrange(0, i + 1).drop_last() =~= v@.subrange(0, i as int));
            assert(v@.subrange(0, i + 1).last() == v@[i as int]);
        }
        if v[i].channel != cid {
            out.push(v[i]);
        }
        i += 1;
    }
    proof {
        assert(v@.subrange(0, v@.len() as int) =~= v@);
    }
    out
}

fn drop_messages_shed(v: Vec<Message>, chans: &Vec<Channel>, sid: u64) -> (out: Vec<Message>)
    ensures
        out@ == messages_outside(v@, chans@, sid),
{
    let ghost orig = v@;
    let mut v = v;
    let mut out: Vec<Message> = Vec::new();
    proof {
        reveal(Seq::filter);
        assert(orig.subrange(0, 0) =~= Seq::<Message>::empty());
    }
    while v.len() > 0
        invariant
            v@.len() <= orig.len(),
            v@ =~= orig.subrange(orig.len() - v@.len(), orig.len() as int),
            out@ == messages_outside(orig.subrange(0, orig.len() - v@.len()), chans@, sid),
        decreases v@.len(),
    {
        let ghost n = orig.len() - v@.len();
        proof {
            reveal(Seq::filter);
            assert(v@[0] == orig[n as int]);
            assert(orig.subrange(0, n as int + 1).drop_last() =~= orig.subrange(0, n as int));
            assert(orig.subrange(0, n as int + 1).last() == orig[n as int]);
        }
        let x = v.remove(0);
        let gone = crate::membership::channel_of_vec(chans, x.channel, sid);
        if !gone {
            out.push(x);
        }
        proof {
            assert(v@ =~= orig.subrange(orig.len() - v@.len(), orig.len() as int));
        }
    }
    proof {
        assert(orig.subrange(0, orig.len() as int) =~= orig);
    }
    out
}

fn drop_unreads_shed(v: Vec<UnreadState>, chans: &Vec<Channel>, sid: u64) -> (out: Vec<
    UnreadState,
>)
    ensures
        out@ == unreads_outside(v@, chans@, sid),
{
    let ghost orig = v@;
    let mut v = v;
    let mut out: Vec<UnreadState> = Vec::new();
    proof {
        reveal(Seq::filter);
        assert(orig.subrange(0, 0) =~= Seq::<UnreadState>::empty());
    }
    while v.len() > 0
        invariant
            v@.len() <= orig.len(),
            v@ =~= orig.subrange(orig.len() - v@.len(), orig.len() as int),
            out@ == unreads_outside(orig.subrange(0, orig.len() - v@.len()), chans@, sid),
        decreases v@.len(),
    {
        let ghost n = orig.len() - v@.len();
        proof {
            reveal(Seq::filter);
            assert(v@[0] == orig[n as int]);
            assert(orig.subrange(0, n as int + 1).drop_last() =~= orig.subrange(0, n as int));
            assert(orig.subrange(0, n as int + 1).last() == orig[n as int]);
        }
        let x = v.remove(0);
        let gone = crate::membership::channel_of_vec(chans, x.channel, sid);
        if !gone {
            out.push(x);
        }
        proof {
            assert(v@ =~= orig.subrange(orig.len() - v@.len(), orig.len() as int));
        }
    }
    proof {
        assert(orig.subrange(0, orig.len() as int) =~= orig);
    }
    out
}

fn drop_channel(v: Vec<Channel>, cid: u64) -> (out: Vec<Channel>)
    ensures
        out@ == channels_without(v@, cid),
{
    let ghost orig = v@;
    let mut v = v;
    let mut out: Vec<Channel> = Vec::new();
    proof {
        reveal(Seq::filter);
        assert(orig.subrange(0, 0) =~= Seq::<Channel>::empty());
    }
    while v.len() > 0
        invariant
            v@.len() <= orig.len(),
            v@ =~= orig.subrange(orig.len() - v@.len(), orig.len() as int),
            out@ == channels_without(orig.subrange(0, orig.len() - v@.len()), cid),
        decreases v@.len(),
    {
        let ghost n = orig.len() - v@.len();
        proof {
            reveal(Seq::filter);
            assert(v@[0] == orig[n as int]);
            assert(orig.subrange(0, n as int + 1).drop_last() =~= orig.subrange(0, n as int));
            assert(orig.subrange(0, n as int + 1).last() == orig[n as int]);
        }
        let x = v.remove(0);
        if x.id != cid {
            out.push(x);
        }
        proof {
            assert(v@ =~= orig.subrange(orig.len() - v@.len(), orig.len() as int));
        }
    }
    proof {
        assert(orig.subrange(0, orig.len() as int) =~= orig);
    }
    out
}

fn drop_messages_of_channel(v: Vec<Message>, cid: u64) -> (out: Vec<Message>)
    ensures
        out@ == messages_not_in(v@, cid),
{
    let ghost orig = v@;
    let mut v = v;
    let mut out: Vec<Message> = Vec::new();
    proof {
        reveal(Seq::filter);
        assert(orig.subrange(0, 0) =~= Seq::<Message>::empty());
    }
    while v.len() > 0
        invariant
            v@.len() <= orig.len(),
            v@ =~= orig.subrange(orig.len() - v@.len(), orig.len() as int),
            out@ == messages_not_in(orig.subrange(0, orig.len() - v@.len()), cid),
        decreases v@.len(),
    {
        let ghost n = orig.len() - v@.len();
        proof {
            reveal(Seq::filter);
            assert(v@[0] == orig[n as int]);
            assert(orig.subrange(0, n as int + 1).drop_last() =~= orig.subrange(0, n as int));
            assert(orig.subrange(0, n as int + 1).last() == orig[n as int]);
        }
        let x = v.remove(0);
        if x.channel != cid {
            out.push(x);
        }
        proof {
            assert(v@ =~= orig.subrange(orig.len() - v@.len(), orig.len() as int));
        }
    }
    proof {
        assert(orig.subrange(0, orig.len() as int) =~= orig);
    }
    out
}

fn drop_webhooks_of_channel(v: &Vec<Webhook>, cid: u64) -> (out: Vec<Webhook>)
    ensures
        out@ == webhooks_not_in(v@, cid),
{
    let mut out: Vec<Webhook> = Vec::new();
    let mut i: usize = 0;
    proof {
        reveal(Seq::filter);
        assert(v@.subrange(0, 0) =~= Seq::<Webhook>::empty());
    }
    while i < v.len()
        invariant
            0 <= i <= v@.len(),
            out@ == webhooks_not_in(v@.subrange(0, i as int), cid),
        decreases v@.len() - i,
    {
        proof {
            reveal(Seq::filter);
            assert(v@.subrange(0, i + 1).drop_last() =~= v@.subrange(0, i as int));
            assert(v@.subrange(0, i + 1).last() == v@[i as int]);
        }
        if v[i].channel != cid {
            out.push(v[i]);
        }
        i += 1;
    }
    proof {
        assert(v@.subrange(0, v@.len() as int) =~= v@);
    }
    out
}

fn drop_unreads_of_channel(v: Vec<UnreadState>, cid: u64) -> (out: Vec<UnreadState>)
    ensures
        out@ == unreads_not_in(v@, cid),
{
    let ghost orig = v@;
    let mut v = v;
    let mut out: Vec<UnreadState> = Vec::new();
    proof {
        reveal(Seq::filter);
        assert(orig.subrange(0, 0) =~= Seq::<UnreadState>::empty());
    }
    while v.len() > 0
        invariant
            v@.len() <= orig.len(),
            v@ =~= orig.subrange(orig.len() - v@.len(), orig.len() as int),
            out@ == unreads_not_in(orig.subrange(0, orig.len() - v@.len()), cid),
        decreases v@.len(),
    {
        let ghost n = orig.len() - v@.len();
        proof {
            reveal(Seq::filter);
            assert(v@[0] == orig[n as int]);
            assert(orig.subrange(0, n as int + 1).drop_last() =~= orig.subrange(0, n as int));
            assert(orig.subrange(0, n as int + 1).last() == orig[n as int]);
        }
        let x = v.remove(0);
        if x.channel != cid {
            out.push(x);
        }
        proof {
            assert(v@ =~= orig.subrange(orig.len() - v@.len(), orig.len() as int));
        }
    }
    proof {
        assert(orig.subrange(0, orig.len() as int) =~= orig);
    }
    out
}

fn drop_subject(v: &Vec<crate::perms::Overwrite>, s: crate::perms::Subject) -> (out: Vec<
    crate::perms::Overwrite,
>)
    ensures
        out@ == v@.filter(|o: crate::perms::Overwrite| o.subject != s),
{
    let mut out: Vec<crate::perms::Overwrite> = Vec::new();
    let mut i: usize = 0;
    proof {
        reveal(Seq::filter);
        assert(v@.subrange(0, 0) =~= Seq::<crate::perms::Overwrite>::empty());
    }
    while i < v.len()
        invariant
            0 <= i <= v@.len(),
            out@ == v@.subrange(0, i as int).filter(
                |o: crate::perms::Overwrite| o.subject != s,
            ),
        decreases v@.len() - i,
    {
        proof {
            reveal(Seq::filter);
            assert(v@.subrange(0, i + 1).drop_last() =~= v@.subrange(0, i as int));
            assert(v@.subrange(0, i + 1).last() == v@[i as int]);
        }
        if !(v[i].subject == s) {
            out.push(v[i]);
        }
        i += 1;
    }
    proof {
        assert(v@.subrange(0, v@.len() as int) =~= v@);
    }
    out
}

impl Store {
    /// Delete a server with its whole dependency cone: channels,
    /// roles, members, bans, webhooks, emoji, messages and read state
    /// referencing it directly or through one of its channels.  Only
    /// the owner may delete a server.
    pub fn delete_server(&mut self, actor: u64, sid: u64) -> (r: Result<(), Error>)
        requires
            old(self).wf(),
        ensures
            final(self).wf(),
            r == Err::<(), Error>(Error::NotFound) <==> !old(self).has_server(sid),
            r == Err::<(), Error>(Error::Forbidden) <==> (old(self).has_server(sid) && actor
                != old(self).servers@[old(self).server_idx(sid)].owner),
            r is Ok <==> (old(self).has_server(sid) && actor == old(self).servers@[old(
                self,
            ).server_idx(sid)].owner),
            r is Err ==> *final(self) == *old(self),
            r is Ok ==> ({
                &&& final(self).servers@ == servers_without(old(self).servers@, sid)
                &&& final(self).channels@ == channels_outside(old(self).channels@, sid)
                &&& final(self).members@ == members_outside(old(self).members@, sid)
                &&& final(self).bans@ == bans_outside(old(self).bans@, sid)
                &&& final(self).emoji@ == emoji_outside(old(self).emoji@, sid)
                &&& final(self).messages@ == messages_outside(
                    old(self).messages@,
                    old(self).channels@,
                    sid,
                )
                &&& final(self).webhooks@ == webhooks_outside(
                    old(self).webhooks@,
                    old(self).channels@,
                    sid,
                )
                &&& final(self).invites@ == invites_outside(
                    old(self).invites@,
                    old(self).channels@,
                    sid,
                )
                &&& final(self).unreads@ == unreads_outside(
                    old(self).unreads@,
                    old(self).channels@,
                    sid,
                )
                &&& final(self).sent == old(self).sent
                &&& final(self).users == old(self).users
                &&& final(self).next_id == old(self).next_id
            }),
            r is Ok ==> !final(self).has_server(sid),
    {
        let si = match self.find_server(sid) {
            Some(i) => i,
            None => {
                return Err(Error::NotFound);
            },
        };
        proof {
            let j = old(self).server_idx(sid);
            assert(old(self).servers@[j].id == sid);
            assert(si as int == j);
        }
        if actor != self.servers[si].owner {
            return Err(Error::Forbidden);
        }
        let mut messages: Vec<Message> = Vec::new();
        core::mem::swap(&mut messages, &mut self.messages);
        self.messages = drop_messages_shed(messages, &self.channels, sid);
        self.webhooks = drop_webhooks_shed(&self.webhooks, &self.channels, sid);
        self.invites = drop_invites_shed(&self.invites, &self.channels, sid);
        self.emoji = drop_emoji_of(&self.emoji, sid);
        let mut unreads: Vec<UnreadState> = Vec::new();
        core::mem::swap(&mut unreads, &mut self.unreads);
        self.unreads = drop_unreads_shed(unreads, &self.channels, sid);
        let mut bans: Vec<Ban> = Vec::new();
        core::mem::swap(&mut bans, &mut self.bans);
        self.bans = drop_bans_of(bans, sid);
        let mut members: Vec<Member> = Vec::new();
        core::mem::swap(&mut members, &mut self.members);
        self.members = drop_members_of(members, sid);
        let mut channels: Vec<Channel> = Vec::new();
        core::mem::swap(&mut channels, &mut self.channels);
        self.channels = drop_channels_of(channels, sid);
        let mut servers: Vec<Server> = Vec::new();
        core::mem::swap(&mut servers, &mut self.servers);
        self.servers = drop_servers(servers, sid);
        proof {
            self.lemma_delete_server_preserves_wf(*old(self), sid);
        }
        Ok(())
    }

    proof fn lemma_delete_server_preserves_wf(self, pre: Store, sid: u64)
        requires
            pre.wf(),
            self.servers@ == servers_without(pre.servers@, sid),
            self.channels@ == channels_outside(pre.channels@, sid),
            self.members@ == members_outside(pre.members@, sid),
            self.bans@ == bans_outside(pre.bans@, sid),
            self.emoji@ == emoji_outside(pre.emoji@, sid),
            self.messages@ == messages_outside(pre.messages@, pre.channels@, sid),
            self.webhooks@ == webhooks_outside(pre.webhooks@, pre.channels@, sid),
            self.invites@ == invites_outside(pre.invites@, pre.channels@, sid),
            self.unreads@ == unreads_outside(pre.unreads@, pre.channels@, sid),
            self.sent == pre.sent,
            self.users == pre.users,
            self.next_id == pre.next_id,
        ensures
            self.wf(),
            !self.has_server(sid),
    {
        let spred = |x: Server| x.id != sid;
        let cpred = |c: Channel| c.server != Some(sid);
        let mpred = |m: Member| m.server != sid;
        let bpred = |b: Ban| b.server != sid;
        let epred = |e: Emoji| e.server != sid;
        let gpred = |m: Message| !channel_of(pre.channels@, m.channel, sid);
        let wpred = |w: Webhook| !channel_of(pre.channels@, w.channel, sid);
        let ipred = |v: Invite| !channel_of(pre.channels@, v.channel, sid);
        let upred = |u: UnreadState| !channel_of(pre.channels@, u.channel, sid);
        lemma_filter_contains(pre.servers@, spred);
        lemma_filter_distinct(pre.servers@, spred, |x: Server| crate::store::server_key(x));
        lemma_filter_contains(pre.channels@, cpred);
        lemma_filter_distinct(pre.channels@, cpred, |c: Channel| crate::store::channel_key(c));
        lemma_filter_contains(pre.members@, mpred);
        lemma_filter_distinct(pre.members@, mpred, |m: Member| crate::store::member_key(m));
        lemma_filter_contains(pre.bans@, bpred);
        lemma_filter_distinct(pre.bans@, bpred, |b: Ban| crate::store::ban_key(b));
        lemma_filter_contains(pre.emoji@, epred);
        lemma_filter_distinct(pre.emoji@, epred, |e: Emoji| crate::store::emoji_key(e));
        lemma_filter_contains(pre.messages@, gpred);
        lemma_filter_distinct(pre.messages@, gpred, |m: Message| crate::store::message_key(m));
        lemma_filter_contains(pre.webhooks@, wpred);
        lemma_filter_distinct(pre.webhooks@, wpred, |w: Webhook| crate::store::webhook_key(w));
        lemma_filter_contains(pre.invites@, ipred);
        lemma_filter_distinct(pre.invites@, ipred, |v: Invite| crate::store::invite_key(v));
        lemma_filter_contains(pre.unreads@, upred);
        lemma_filter_distinct(pre.unreads@, upred, |u: UnreadState| crate::store::unread_key(u));
        assert forall|x: u64| x != sid && pre.has_server(x) implies self.has_server(x) by {
            let k = choose|k: int| 0 <= k < pre.servers@.len() && pre.servers@[k].id == x;
            assert(self.servers@.contains(pre.servers@[k]));
            let k2 = choose|k2: int|
                0 <= k2 < self.servers@.len() && self.servers@[k2] == pre.servers@[k];
        }
        assert forall|x: u64|
            pre.has_channel(x) && !channel_of(pre.channels@, x, sid) implies self.has_channel(
            x,
        ) by {
            let k = choose|k: int| 0 <= k < pre.channels@.len() && pre.channels@[k].id == x;
            assert(pre.channels@[k].server != Some(sid));
            assert(self.channels@.contains(pre.channels@[k]));
            let k2 = choose|k2: int|
                0 <= k2 < self.channels@.len() && self.channels@[k2] == pre.channels@[k];
        }
        assert forall|i: int| 0 <= i < self.channels@.len() implies (
        #[trigger] self.channels@[i].server matches Some(s2) ==> self.has_server(s2)) by {
            assert(self.channels@.contains(self.channels@[i]));
            assert(pre.channels@.contains(self.channels@[i]));
            let k = choose|k: int|
                0 <= k < pre.channels@.len() && pre.channels@[k] == self.channels@[i];
            if let Some(s2) = self.channels@[i].server {
                assert(pre.has_server(s2));
                assert(s2 != sid);
            }
        }
        assert forall|i: int| 0 <= i < self.members@.len() implies self.has_server(
            #[trigger] self.members@[i].server,
        ) by {
            assert(self.members@.contains(self.members@[i]));
            assert(pre.members@.contains(self.members@[i]));
            let k = choose|k: int| 0 <= k < pre.members@.len() && pre.members@[k] == self.members@[i];
            assert(pre.has_server(self.members@[i].server));
        }
        assert forall|i: int| 0 <= i < self.bans@.len() implies self.has_server(
            #[trigger] self.bans@[i].server,
        ) && !self.has_member(self.bans@[i].server, self.bans@[i].user) by {
            assert(self.bans@.contains(self.bans@[i]));
            assert(pre.bans@.contains(self.bans@[i]));
            let k = choose|k: int| 0 <= k < pre.bans@.len() && pre.bans@[k] == self.bans@[i];
            assert(pre.has_server(self.bans@[i].server));
            if self.has_member(self.bans@[i].server, self.bans@[i].user) {
                let k2 = choose|k2: int|
                    0 <= k2 < self.members@.len() && self.members@[k2].server == self.bans@[i].server
                        && self.members@[k2].user == self.bans@[i].user;
                assert(self.members@.contains(self.members@[k2]));
                assert(pre.members@.contains(self.members@[k2]));
                let k3 = choose|k3: int|
                    0 <= k3 < pre.members@.len() && pre.members@[k3] == self.members@[k2];
                assert(pre.has_member(self.bans@[i].server, self.bans@[i].user));
                assert(!pre.has_member(pre.bans@[k].server, pre.bans@[k].user));
            }
        }
        assert forall|i: int| 0 <= i < self.emoji@.len() implies self.has_server(
            #[trigger] self.emoji@[i].server,
        ) by {
            assert(self.emoji@.contains(self.emoji@[i]));
            assert(pre.emoji@.contains(self.emoji@[i]));
            let k = choose|k: int| 0 <= k < pre.emoji@.len() && pre.emoji@[k] == self.emoji@[i];
            assert(pre.has_server(self.emoji@[i].server));
        }
        assert forall|i: int| 0 <= i < self.messages@.len() implies self.has_channel(
            #[trigger] self.messages@[i].channel,
        ) by {
            assert(self.messages@.contains(self.messages@[i]));
            assert(pre.messages@.contains(self.messages@[i]));
            let k = choose|k: int|
                0 <= k < pre.messages@.len() && pre.messages@[k] == self.messages@[i];
            assert(pre.has_channel(self.messages@[i].channel));
            assert(!channel_of(pre.channels@, self.messages@[i].channel, sid));
        }
        assert forall|i: int| 0 <= i < self.webhooks@.len() implies self.has_channel(
            #[trigger] self.webhooks@[i].channel,
        ) by {
            assert(self.webhooks@.contains(self.webhooks@[i]));
            assert(pre.webhooks@.contains(self.webhooks@[i]));
            let k = choose|k: int|
                0 <= k < pre.webhooks@.len() && pre.webhooks@[k] == self.webhooks@[i];
            assert(pre.has_channel(self.webhooks@[i].channel));
            assert(!channel_of(pre.channels@, self.webhooks@[i].channel, sid));
        }
        assert forall|i: int| 0 <= i < self.invites@.len() implies self.has_channel(
            #[trigger] self.invites@[i].channel,
        ) by {
            assert(self.invites@.contains(self.invites@[i]));
            assert(pre.invites@.contains(self.invites@[i]));
            let k = choose|k: int|
                0 <= k < pre.invites@.len() && pre.invites@[k] == self.invites@[i];
            assert(pre.has_channel(self.invites@[i].channel));
            assert(!channel_of(pre.channels@, self.invites@[i].channel, sid));
        }
        assert forall|i: int| 0 <= i < self.unreads@.len() implies self.has_channel(
            #[trigger] self.unreads@[i].channel,
        ) by {
            assert(self.unreads@.contains(self.unreads@[i]));
            assert(pre.unreads@.contains(self.unreads@[i]));
            let k = choose|k: int| 0 <= k < pre.unreads@.len() && pre.unreads@[k] == self.unreads@[i];
            assert(pre.has_channel(self.unreads@[i].channel));
            assert(!channel_of(pre.channels@, self.unreads@[i].channel, sid));
        }
        assert forall|i: int| 0 <= i < self.servers@.len() implies self.has_member(
            (#[trigger] self.servers@[i]).id,
            self.servers@[i].owner,
        ) by {
            let s = self.servers@[i];
            assert(self.servers@.contains(s));
            assert(pre.servers@.contains(s));
            let k = choose|k: int| 0 <= k < pre.servers@.len() && pre.servers@[k] == s;
            assert(pre.has_member(s.id, s.owner));
            let k2 = pre.member_idx(s.id, s.owner);
            let m = pre.members@[k2];
            assert(m.server == s.id && s.id != sid);
            assert(self.members@.contains(m));
            let k3 = choose|k3: int| 0 <= k3 < self.members@.len() && self.members@[k3] == m;
        }
        assert forall|i: int| 0 <= i < self.servers@.len() implies distinct_role_ids_of(
            #[trigger] self.servers@[i],
        ) by {
            assert(self.servers@.contains(self.servers@[i]));
            assert(pre.servers@.contains(self.servers@[i]));
            let k = choose|k: int|
                0 <= k < pre.servers@.len() && pre.servers@[k] == self.servers@[i];
        }
        assert forall|i: int| 0 <= i < self.channels@.len() implies channel_internally_keyed(
            #[trigger] self.channels@[i],
        ) by {
            assert(self.channels@.contains(self.channels@[i]));
            assert(pre.channels@.contains(self.channels@[i]));
            let k = choose|k: int|
                0 <= k < pre.channels@.len() && pre.channels@[k] == self.channels@[i];
        }
        assert forall|i: int| 0 <= i < self.servers@.len() implies (
        #[trigger] self.servers@[i].id) < self.next_id && roles_fresh(
            self.servers@[i],
            self.next_id,
        ) by {
            assert(self.servers@.contains(self.servers@[i]));
            assert(pre.servers@.contains(self.servers@[i]));
            let k = choose|k: int|
                0 <= k < pre.servers@.len() && pre.servers@[k] == self.servers@[i];
        }
        assert forall|i: int| 0 <= i < self.channels@.len() implies (
        #[trigger] self.channels@[i].id) < self.next_id by {
            assert(self.channels@.contains(self.channels@[i]));
            assert(pre.channels@.contains(self.channels@[i]));
            let k = choose|k: int|
                0 <= k < pre.channels@.len() && pre.channels@[k] == self.channels@[i];
        }
        assert forall|i: int| 0 <= i < self.messages@.len() implies (
        #[trigger] self.messages@[i].id) < self.next_id && self.ever_sent(
            self.messages@[i].channel,
            self.messages@[i].id,
        ) by {
            assert(self.messages@.contains(self.messages@[i]));
            assert(pre.messages@.contains(self.messages@[i]));
            let k = choose|k: int|
                0 <= k < pre.messages@.len() && pre.messages@[k] == self.messages@[i];
        }
        assert forall|i: int| 0 <= i < self.webhooks@.len() implies (
        #[trigger] self.webhooks@[i].id) < self.next_id by {
            assert(self.webhooks@.contains(self.webhooks@[i]));
            assert(pre.webhooks@.contains(self.webhooks@[i]));
            let k = choose|k: int|
                0 <= k < pre.webhooks@.len() && pre.webhooks@[k] == self.webhooks@[i];
        }
        assert forall|i: int| 0 <= i < self.invites@.len() implies (
        #[trigger] self.invites@[i].id) < self.next_id by {
            assert(self.invites@.contains(self.invites@[i]));
            assert(pre.invites@.contains(self.invites@[i]));
            let k = choose|k: int|
                0 <= k < pre.invites@.len() && pre.invites@[k] == self.invites@[i];
        }
        assert forall|i: int| 0 <= i < self.emoji@.len() implies (#[trigger] self.emoji@[i].id)
            < self.next_id by {
            assert(self.emoji@.contains(self.emoji@[i]));
            assert(pre.emoji@.contains(self.emoji@[i]));
            let k = choose|k: int| 0 <= k < pre.emoji@.len() && pre.emoji@[k] == self.emoji@[i];
        }
        assert forall|i: int| 0 <= i < self.unreads@.len() implies (
        #[trigger] self.unreads@[i].last_read matches Some(mid) ==> self.ever_sent(
            self.unreads@[i].channel,
            mid,
        )) by {
            assert(self.unreads@.contains(self.unreads@[i]));
            assert(pre.unreads@.contains(self.unreads@[i]));
            let k = choose|k: int| 0 <= k < pre.unreads@.len() && pre.unreads@[k] == self.unreads@[i];
        }
        if self.has_server(sid) {
            let k = choose|k: int| 0 <= k < self.servers@.len() && self.servers@[k].id == sid;
            assert(self.servers@.contains(self.servers@[k]));
        }
    }

    /// Create a server owned by `owner`, with no roles yet and an
    /// implicit member record for the owner (the owner's authority
    /// comes from ownership, not from a role).
    pub fn create_server(&mut self, owner: u64, name: String, default_perms: u64, now: u64) -> (sid:
        u64)
        requires
            old(self).wf(),
            old(self).next_id < 0xFFFF_FFFF_FFFF_FFFF,
        ensures
            final(self).wf(),
            sid == old(self).next_id,
            final(self).next_id == old(self).next_id + 1,
            final(self).servers@.len() == old(self).servers@.len() + 1,
            final(self).servers@.subrange(0, old(self).servers@.len() as int) =~= old(
                self,
            ).servers@,
            final(self).servers@.last().id == sid,
            final(self).servers@.last().owner == owner,
            final(self).servers@.last().name == name,
            final(self).servers@.last().roles@ =~= Seq::<crate::perms::Role>::empty(),
            final(self).servers@.last().default_perms == default_perms,
            final(self).members@.len() == old(self).members@.len() + 1,
            final(self).members@.subrange(0, old(self).members@.len() as int) =~= old(
                self,
            ).members@,
            final(self).members@.last().server == sid,
            final(self).members@.last().user == owner,
            final(self).channels == old(self).channels,
            final(self).bans == old(self).bans,
            final(self).messages == old(self).messages,
            final(self).webhooks == old(self).webhooks,
            final(self).invites == old(self).invites,
            final(self).emoji == old(self).emoji,
            final(self).unreads == old(self).unreads,
            final(self).sent == old(self).sent,
            final(self).users == old(self).users,
            final(self).has_server(sid),
    {
        let sid = self.next_id;
        self.next_id = self.next_id + 1;
        let s = Server {
            id: sid,
            owner: owner,
            name: name,
            roles: Vec::new(),
            default_perms: default_perms,
        };
        self.servers.push(s);
        let m = Member { server: sid, user: owner, nickname: None, joined: now, roles: Vec::new() };
        self.members.push(m);
        proof {
            crate::store::lemma_users_fresh_mono(self.users@, old(self).next_id, self.next_id);
            let news = self.servers@;
            let newm = self.members@;
            assert(news == old(self).servers@.push(s));
            assert(newm == old(self).members@.push(m));
            assert forall|i: int, j: int| 0 <= i < j < news.len() implies crate::store::server_key(
                news[i],
            ) != crate::store::server_key(news[j]) by {
                if j == news.len() - 1 {
                    assert(old(self).servers@[i].id < sid);
                }
            }
            assert forall|i: int, j: int| 0 <= i < j < newm.len() implies crate::store::member_key(
                newm[i],
            ) != crate::store::member_key(newm[j]) by {
                if j == newm.len() - 1 && newm[i].server == sid {
                    assert(old(self).has_server(sid));
                    let k = choose|k: int|
                        0 <= k < old(self).servers@.len() && old(self).servers@[k].id == sid;
                    assert(old(self).servers@[k].id < old(self).next_id);
                    assert(false);
                }
            }
            assert forall|i: int| 0 <= i < self.bans@.len() implies !self.has_member(
                #[trigger] self.bans@[i].server,
                self.bans@[i].user,
            ) by {
                if self.has_member(self.bans@[i].server, self.bans@[i].user) {
                    let k = choose|k: int|
                        0 <= k < newm.len() && newm[k].server == self.bans@[i].server
                            && newm[k].user == self.bans@[i].user;
                    if k == newm.len() - 1 {
                        assert(old(self).has_server(self.bans@[i].server));
                        let k2 = choose|k2: int|
                            0 <= k2 < old(self).servers@.len() && old(self).servers@[k2].id
                                == self.bans@[i].server;
                        assert(false);
                    } else {
                        assert(!old(self).has_member(self.bans@[i].server, self.bans@[i].user));
                    }
                }
            }
            assert forall|i: int| 0 <= i < news.len() implies self.has_member(
                (#[trigger] news[i]).id,
                news[i].owner,
            ) by {
                if i < news.len() - 1 {
                    let k = old(self).member_idx(news[i].id, news[i].owner);
                    assert(newm[k].server == news[i].id && newm[k].user == news[i].owner);
                } else {
                    assert(newm[newm.len() - 1].server == sid && newm[newm.len() - 1].user
                        == owner);
                }
            }
            assert forall|i: int| 0 <= i < newm.len() implies self.has_server(
                #[trigger] newm[i].server,
            ) by {
                if i < newm.len() - 1 {
                    assert(old(self).has_server(newm[i].server));
                    let k = choose|k: int|
                        0 <= k < old(self).servers@.len() && old(self).servers@[k].id
                            == newm[i].server;
                    assert(news[k].id == newm[i].server);
                } else {
                    assert(news[news.len() - 1].id == sid);
                }
            }
            assert forall|i: int| 0 <= i < self.channels@.len() implies (
            #[trigger] self.channels@[i].server matches Some(s2) ==> self.has_server(s2)) by {
                if let Some(s2) = self.channels@[i].server {
                    assert(old(self).has_server(s2));
                    let k = choose|k: int|
                        0 <= k < old(self).servers@.len() && old(self).servers@[k].id == s2;
                    assert(news[k].id == s2);
                }
            }
            assert forall|i: int| 0 <= i < self.emoji@.len() implies self.has_server(
                #[trigger] self.emoji@[i].server,
            ) by {
                assert(old(self).has_server(self.emoji@[i].server));
                let k = choose|k: int|
                    0 <= k < old(self).servers@.len() && old(self).servers@[k].id
                        == self.emoji@[i].server;
                assert(news[k].id == self.emoji@[i].server);
            }
            assert forall|i: int| 0 <= i < news.len() implies (#[trigger] news[i].id)
                < self.next_id && roles_fresh(news[i], self.next_id) && distinct_role_ids_of(
                news[i],
            ) by {
                if i < news.len() - 1 {
                    assert(old(self).servers@[i].id < old(self).next_id);
                    assert(roles_fresh(old(self).servers@[i], old(self).next_id));
                    assert(distinct_role_ids_of(old(self).servers@[i]));
                    assert forall|l: int| 0 <= l < news[i].roles@.len() implies (
                    #[trigger] news[i].roles@[l].id) < self.next_id by {
                        assert(old(self).servers@[i].roles@[l].id < old(self).next_id);
                    }
                } else {
                    assert(news[i].roles@.len() == 0);
                }
            }
            assert forall|i: int| 0 <= i < self.bans@.len() implies self.has_server(
                #[trigger] self.bans@[i].server,
            ) by {
                assert(old(self).has_server(self.bans@[i].server));
                let k = choose|k: int|
                    0 <= k < old(self).servers@.len() && old(self).servers@[k].id
                        == self.bans@[i].server;
                assert(news[k].id == self.bans@[i].server);
            }
            assert(self.servers@.last().roles@ =~= Seq::<crate::perms::Role>::empty());
        }
        sid
    }

    /// Changing one server row while keeping its id and the freshness
    /// and distinctness of its roles preserves the store invariant;
    /// the owner may change to another member.
    proof fn lemma_server_update_preserves_wf(self, pre: Store, k: int)
        requires
            pre.wf(),
            0 <= k < pre.servers@.len(),
            self.servers@.len() == pre.servers@.len(),
            forall|i: int|
                0 <= i < pre.servers@.len() && i != k ==> self.servers@[i] == pre.servers@[i],
            self.servers@[k].id == pre.servers@[k].id,
            self.has_member(self.servers@[k].id, self.servers@[k].owner),
            distinct_role_ids_of(self.servers@[k]),
            roles_fresh(self.servers@[k], self.next_id),
            self.servers@[k].id < self.next_id,
            self.next_id >= pre.next_id,
            self.channels == pre.channels,
            self.members == pre.members,
            self.bans == pre.bans,
            self.messages == pre.messages,
            self.webhooks == pre.webhooks,
            self.invites == pre.invites,
            self.emoji == pre.emoji,
            self.unreads == pre.unreads,
            self.sent == pre.sent,
            self.users == pre.users,
        ensures
            self.wf(),
    {
        assert(self.users@ == pre.users@);
        crate::store::lemma_users_fresh_mono(self.users@, pre.next_id, self.next_id);
        assert forall|x: u64| self.has_server(x) == pre.has_server(x) by {
            if self.has_server(x) {
                let i = choose|i: int|
                    0 <= i < self.servers@.len() && self.servers@[i].id == x;
                assert(pre.servers@[i].id == x);
            }
            if pre.has_server(x) {
                let i = choose|i: int| 0 <= i < pre.servers@.len() && pre.servers@[i].id == x;
                assert(self.servers@[i].id == x);
            }
        }
        assert forall|i: int, j: int| 0 <= i < j < self.servers@.len() implies crate::store::server_key(
            self.servers@[i],
        ) != crate::store::server_key(self.servers@[j]) by {
            assert(crate::store::server_key(pre.servers@[i]) != crate::store::server_key(
                pre.servers@[j],
            ));
            assert(self.servers@[i].id == pre.servers@[i].id);
            assert(self.servers@[j].id == pre.servers@[j].id);
        }
        assert forall|i: int| 0 <= i < self.servers@.len() implies self.has_member(
            (#[trigger] self.servers@[i]).id,
            self.servers@[i].owner,
        ) by {
            if i != k {
                assert(pre.has_member(pre.servers@[i].id, pre.servers@[i].owner));
            }
        }
        assert forall|i: int| 0 <= i < self.servers@.len() implies distinct_role_ids_of(
            #[trigger] self.servers@[i],
        ) && (#[trigger] self.servers@[i].id) < self.next_id && roles_fresh(
            self.servers@[i],
            self.next_id,
        ) by {
            if i != k {
                assert(pre.servers@[i].id < pre.next_id);
                assert(roles_fresh(pre.servers@[i], pre.next_id));
                assert forall|l: int|
                    0 <= l < self.servers@[i].roles@.len() implies (
                #[trigger] self.servers@[i].roles@[l].id) < self.next_id by {
                    assert(pre.servers@[i].roles@[l].id < pre.next_id);
                }
            }
        }
    }

    /// Create a role in a server: requires the manage-roles bit; the
    /// fresh role starts with the given rank and bits.
    pub fn create_role(&mut self, actor: u64, sid: u64, rank: u32, allow: u64, deny: u64) -> (r:
        Result<u64, Error>)
        requires
            old(self).wf(),
            old(self).next_id < 0xFFFF_FFFF_FFFF_FFFF,
        ensures
            final(self).wf(),
            r is Err ==> *final(self) == *old(self),
            r == Err::<u64, Error>(Error::NotFound) <==> !old(self).has_server(sid),
            r == Err::<u64, Error>(Error::Forbidden) <==> (old(self).has_server(sid) && old(
                self,
            ).server_perms(sid, actor) & crate::perms::P_MANAGE_ROLES == 0),
            r is Ok <==> (old(self).has_server(sid) && old(self).server_perms(sid, actor)
                & crate::perms::P_MANAGE_ROLES != 0),
            r matches Ok(rid) ==> ({
                let k = old(self).server_idx(sid);
                &&& rid == old(self).next_id
                &&& final(self).next_id == old(self).next_id + 1
                &&& final(self).servers@.len() == old(self).servers@.len()
                &&& forall|i: int|
                    0 <= i < old(self).servers@.len() && i != k ==> final(self).servers@[i] == old(
                        self,
                    ).servers@[i]
                &&& final(self).servers@[k].id == sid
                &&& final(self).servers@[k].owner == old(self).servers@[k].owner
                &&& final(self).servers@[k].name == old(self).servers@[k].name
                &&& final(self).servers@[k].default_perms == old(self).servers@[k].default_perms
                &&& final(self).servers@[k].roles@ == old(self).servers@[k].roles@.push(
                    crate::perms::Role { id: rid, rank: rank, allow: allow, deny: deny },
                )
                &&& final(self).channels == old(self).channels
                &&& final(self).members == old(self).members
                &&& final(self).bans == old(self).bans
                &&& final(self).messages == old(self).messages
                &&& final(self).webhooks == old(self).webhooks
                &&& final(self).invites == old(self).invites
                &&& final(self).emoji == old(self).emoji
                &&& final(self).unreads == old(self).unreads
                &&& final(self).sent == old(self).sent
                &&& final(self).users == old(self).users
            }),
    {
        let si = match self.find_server(sid) {
            Some(i) => i,
            None => {
                return Err(Error::NotFound);
            },
        };
        proof {
            let j = old(self).server_idx(sid);
            assert(old(self).servers@[j].id == sid);
            assert(si as int == j);
        }
        let p = self.compute_server_perms(si, actor);
        if p & crate::perms::P_MANAGE_ROLES == 0 {
            return Err(Error::Forbidden);
        }
        let rid = self.next_id;
        self.next_id = self.next_id + 1;
        let role = crate::perms::Role { id: rid, rank: rank, allow: allow, deny: deny };
        self.servers[si].roles.push(role);
        proof {
            let k = si as int;
            let srv = self.servers@[k];
            assert forall|i: int, j: int| 0 <= i < j < srv.roles@.len() implies srv.roles@[i].id
                != srv.roles@[j].id by {
                if j == srv.roles@.len() - 1 {
                    assert(old(self).servers@[k].roles@[i].id < old(self).next_id);
                }
            }
            assert forall|l: int| 0 <= l < srv.roles@.len() implies (#[trigger] srv.roles@[l].id)
                < self.next_id by {
                if l < srv.roles@.len() - 1 {
                    assert(old(self).servers@[k].roles@[l].id < old(self).next_id);
                }
            }
            assert(self.has_member(srv.id, srv.owner)) by {
                let m = old(self).member_idx(sid, old(self).servers@[k].owner);
                assert(self.members@[m].server == sid);
            }
            self.lemma_server_update_preserves_wf(*old(self), k);
        }
        Ok(rid)
    }

    /// Change the rank of a role: requires the manage-roles bit.
    pub fn set_role_rank(&mut self, actor: u64, sid: u64, rid: u64, rank: u32) -> (r: Result<
        (),
        Error,
    >)
        requires
            old(self).wf(),
        ensures
            final(self).wf(),
            r is Err ==> *final(self) == *old(self),
            r == Err::<(), Error>(Error::Forbidden) <==> (old(self).has_server(sid) && old(
                self,
            ).server_perms(sid, actor) & crate::perms::P_MANAGE_ROLES == 0),
            r == Err::<(), Error>(Error::NotFound) <==> (!old(self).has_server(sid) || (old(
                self,
            ).has_server(sid) && old(self).server_perms(sid, actor) & crate::perms::P_MANAGE_ROLES
                != 0 && !crate::perms::has_role(
                old(self).servers@[old(self).server_idx(sid)].roles@,
                rid,
            ))),
            r is Ok <==> (old(self).has_server(sid) && old(self).server_perms(sid, actor)
                & crate::perms::P_MANAGE_ROLES != 0 && crate::perms::has_role(
                old(self).servers@[old(self).server_idx(sid)].roles@,
                rid,
            )),
            r is Ok ==> ({
                let k = old(self).server_idx(sid);
                let roles = old(self).servers@[k].roles@;
                &&& final(self).servers@.len() == old(self).servers@.len()
                &&& forall|i: int|
                    0 <= i < old(self).servers@.len() && i != k ==> final(self).servers@[i] == old(
                        self,
                    ).servers@[i]
                &&& final(self).servers@[k].id == sid
                &&& final(self).servers@[k].owner == old(self).servers@[k].owner
                &&& final(self).servers@[k].name == old(self).servers@[k].name
                &&& final(self).servers@[k].default_perms == old(self).servers@[k].default_perms
                &&& final(self).servers@[k].roles@.len() == roles.len()
                &&& forall|l: int|
                    0 <= l < roles.len() ==> (#[trigger] final(self).servers@[k].roles@[l]) == (
                    if roles[l].id == rid {
                        crate::perms::Role {
                            id: roles[l].id,
                            rank: rank,
                            allow: roles[l].allow,
                            deny: roles[l].deny,
                        }
                    } else {
                        roles[l]
                    })
                &&& final(self).channels == old(self).channels
                &&& final(self).members == old(self).members
                &&& final(self).bans == old(self).bans
                &&& final(self).messages == old(self).messages
                &&& final(self).webhooks == old(self).webhooks
                &&& final(self).invites == old(self).invites
                &&& final(self).emoji == old(self).emoji
                &&& final(self).unreads == old(self).unreads
                &&& final(self).sent == old(self).sent
                &&& final(self).users == old(self).users
                &&& final(self).next_id == old(self).next_id
            }),
    {
        let si = match self.find_server(sid) {
            Some(i) => i,
            None => {
                return Err(Error::NotFound);
            },
        };
        proof {
            let j = old(self).server_idx(sid);
            assert(old(self).servers@[j].id == sid);
            assert(si as int == j);
        }
        let p = self.compute_server_perms(si, actor);
        if p & crate::perms::P_MANAGE_ROLES == 0 {
            return Err(Error::Forbidden);
        }
        let n = self.servers[si].roles.len();
        let mut ri: usize = 0;
        let mut found: usize = n;
        while ri < n
            invariant
                si < self.servers@.len(),
                n == self.servers@[si as int].roles@.len(),
                0 <= ri <= n,
                found <= n,
                found == n ==> forall|l: int|
                    0 <= l < ri ==> self.servers@[si as int].roles@[l].id != rid,
                found < n ==> self.servers@[si as int].roles@[found as int].id == rid,
            decreases n - ri,
        {
            if found == n && self.servers[si].roles[ri].id == rid {
                found = ri;
            }
            ri += 1;
        }
        if found >= n {
            proof {
                if crate::perms::has_role(self.servers@[si as int].roles@, rid) {
                    let l = choose|l: int|
                        0 <= l < self.servers@[si as int].roles@.len()
                            && self.servers@[si as int].roles@[l].id == rid;
                    assert(false);
                }
            }
            return Err(Error::NotFound);
        }
        let ri = found;
        let old_role = self.servers[si].roles[ri];
        self.servers[si].roles[ri] = crate::perms::Role {
            id: old_role.id,
            rank: rank,
            allow: old_role.allow,
            deny: old_role.deny,
        };
        proof {
            let k = si as int;
            let srv = self.servers@[k];
            let roles = old(self).servers@[k].roles@;
            assert forall|i: int, j: int| 0 <= i < j < srv.roles@.len() implies srv.roles@[i].id
                != srv.roles@[j].id by {
                assert(roles[i].id != roles[j].id);
            }
            assert forall|l: int| 0 <= l < srv.roles@.len() implies (#[trigger] srv.roles@[l].id)
                < self.next_id by {
                assert(roles[l].id < old(self).next_id);
            }
            assert(self.has_member(srv.id, srv.owner)) by {
                let m = old(self).member_idx(sid, old(self).servers@[k].owner);
                assert(self.members@[m].server == sid);
            }
            self.lemma_server_update_preserves_wf(*old(self), k);
            assert forall|l: int|
                0 <= l < roles.len() && roles[l].id == rid implies l == ri as int by {
                assert(roles[l].id == roles[ri as int].id);
            }
        }
        Ok(())
    }

    /// Transfer ownership to another member: only the current owner
    /// may do so, and only to a current member.
    pub fn transfer_ownership(&mut self, actor: u64, sid: u64, new_owner: u64) -> (r: Result<
        (),
        Error,
    >)
        requires
            old(self).wf(),
        ensures
            final(self).wf(),
            r is Err ==> *final(self) == *old(self),
            r == Err::<(), Error>(Error::Forbidden) <==> (old(self).has_server(sid) && actor
                != old(self).servers@[old(self).server_idx(sid)].owner),
            r == Err::<(), Error>(Error::NotFound) <==> (!old(self).has_server(sid) || (old(
                self,
            ).has_server(sid) && actor == old(self).servers@[old(self).server_idx(sid)].owner
                && !old(self).has_member(sid, new_owner))),
            r is Ok <==> (old(self).has_server(sid) && actor == old(self).servers@[old(
                self,
            ).server_idx(sid)].owner && old(self).has_member(sid, new_owner)),
            r is Ok ==> ({
                let k = old(self).server_idx(sid);
                &&& final(self).servers@.len() == old(self).servers@.len()
                &&& forall|i: int|
                    0 <= i < old(self).servers@.len() && i != k ==> final(self).servers@[i] == old(
                        self,
                    ).servers@[i]
                &&& final(self).servers@[k].id == sid
                &&& final(self).servers@[k].owner == new_owner
                &&& final(self).servers@[k].name == old(self).servers@[k].name
                &&& final(self).servers@[k].roles == old(self).servers@[k].roles
                &&& final(self).servers@[k].default_perms == old(self).servers@[k].default_perms
                &&& final(self).channels == old(self).channels
                &&& final(self).members == old(self).members
                &&& final(self).bans == old(self).bans
                &&& final(self).messages == old(self).messages
                &&& final(self).webhooks == old(self).webhooks
                &&& final(self).invites == old(self).invites
                &&& final(self).emoji == old(self).emoji
                &&& final(self).unreads == old(self).unreads
                &&& final(self).sent == old(self).sent
                &&& final(self).users == old(self).users
                &&& final(self).next_id == old(self).next_id
            }),
    {
        let si = match self.find_server(sid) {
            Some(i) => i,
            None => {
                return Err(Error::NotFound);
            },
        };
        proof {
            let j = old(self).server_idx(sid);
            assert(old(self).servers@[j].id == sid);
            assert(si as int == j);
        }
        if actor != self.servers[si].owner {
            return Err(Error::Forbidden);
        }
        if self.find_member(sid, new_owner).is_none() {
            return Err(Error::NotFound);
        }
        self.servers[si].owner = new_owner;
        proof {
            let k = si as int;
            let srv = self.servers@[k];
            assert(self.has_member(srv.id, srv.owner)) by {
                let m = old(self).member_idx(sid, new_owner);
                assert(self.members@[m].server == sid && self.members@[m].user == new_owner);
            }
            assert(distinct_role_ids_of(srv)) by {
                assert(distinct_role_ids_of(old(self).servers@[k]));
            }
            assert(roles_fresh(srv, self.next_id)) by {
                assert(roles_fresh(old(self).servers@[k], old(self).next_id));
            }
            self.lemma_server_update_preserves_wf(*old(self), k);
        }
        Ok(())
    }

    /// Whether the actor may manage a stored channel: the
    /// manage-channels bit at server level for a server channel, being
    /// a recipient for a serverless one.
    pub open spec fn can_manage_channel(self, cid: u64, actor: u64) -> bool {
        let c = self.channels@[self.channel_idx(cid)];
        match c.server {
            Some(sid) => self.server_perms(sid, actor) & crate::perms::P_MANAGE_CHANNELS != 0,
            None => c.recipients@.contains(actor),
        }
    }

    /// Whether one overwrite subject is valid for a stored channel: a
    /// role of the owning server or a current member; for a serverless
    /// channel, a recipient.
    pub open spec fn overwrite_subject_valid(self, cid: u64, s: crate::perms::Subject) -> bool {
        let c = self.channels@[self.channel_idx(cid)];
        match c.server {
            Some(sid) => match s {
                crate::perms::Subject::Role(rid) => crate::perms::has_role(
                    self.servers@[self.server_idx(sid)].roles@,
                    rid,
                ),
                crate::perms::Subject::User(u) => self.has_member(sid, u),
            },
            None => match s {
                crate::perms::Subject::Role(_) => false,
                crate::perms::Subject::User(u) => c.recipients@.contains(u),
            },
        }
    }

    /// Every overwrite subject references a role of the server or a
    /// current member: the validity rule checked on channel creation
    /// and on every overwrite edit.
    pub open spec fn valid_subjects(self, sid: u64, ows: Seq<crate::perms::Overwrite>) -> bool {
        forall|i: int|
            0 <= i < ows.len() ==> (match (#[trigger] ows[i]).subject {
                crate::perms::Subject::Role(rid) => crate::perms::has_role(
                    self.servers@[self.server_idx(sid)].roles@,
                    rid,
                ),
                crate::perms::Subject::User(u) => self.has_member(sid, u),
            })
    }

    fn check_subjects(&self, si: usize, ows: &Vec<crate::perms::Overwrite>) -> (r: bool)
        requires
            self.wf(),
            si < self.servers@.len(),
        ensures
            r == self.valid_subjects(self.servers@[si as int].id, ows@),
    {
        let sid = self.servers[si].id;
        proof {
            let j = self.server_idx(sid);
            assert(self.servers@[j].id == sid);
            assert(si as int == j);
        }
        let mut i: usize = 0;
        while i < ows.len()
            invariant
                self.wf(),
                si < self.servers@.len(),
                sid == self.servers@[si as int].id,
                si as int == self.server_idx(sid),
                0 <= i <= ows@.len(),
                forall|k: int|
                    0 <= k < i ==> (match (#[trigger] ows@[k]).subject {
                        crate::perms::Subject::Role(rid) => crate::perms::has_role(
                            self.servers@[self.server_idx(sid)].roles@,
                            rid,
                        ),
                        crate::perms::Subject::User(u) => self.has_member(sid, u),
                    }),
            decreases ows@.len() - i,
        {
            let ok = match ows[i].subject {
                crate::perms::Subject::Role(rid) => crate::perms::find_role(
                    &self.servers[si].roles,
                    rid,
                ).is_some(),
                crate::perms::Subject::User(u) => self.find_member(sid, u).is_some(),
            };
            if !ok {
                return false;
            }
            i += 1;
        }
        true
    }

    /// Changing one channel row while keeping its id, its server
    /// reference and its internal keying preserves the store invariant.
    pub(crate) proof fn lemma_channel_update_preserves_wf(self, pre: Store, k: int)
        requires
            pre.wf(),
            0 <= k < pre.channels@.len(),
            self.channels@.len() == pre.channels@.len(),
            forall|i: int|
                0 <= i < pre.channels@.len() && i != k ==> self.channels@[i] == pre.channels@[i],
            self.channels@[k].id == pre.channels@[k].id,
            self.channels@[k].server == pre.channels@[k].server,
            channel_internally_keyed(self.channels@[k]),
            self.servers == pre.servers,
            self.members == pre.members,
            self.bans == pre.bans,
            self.messages == pre.messages,
            self.webhooks == pre.webhooks,
            self.invites == pre.invites,
            self.emoji == pre.emoji,
            self.unreads == pre.unreads,
            self.sent == pre.sent,
            self.users == pre.users,
            self.next_id == pre.next_id,
        ensures
            self.wf(),
    {
        assert forall|x: u64| self.has_channel(x) == pre.has_channel(x) by {
            if self.has_channel(x) {
                let i = choose|i: int|
                    0 <= i < self.channels@.len() && self.channels@[i].id == x;
                assert(pre.channels@[i].id == x);
            }
            if pre.has_channel(x) {
                let i = choose|i: int| 0 <= i < pre.channels@.len() && pre.channels@[i].id == x;
                assert(self.channels@[i].id == x);
            }
        }
        assert forall|i: int, j: int| 0 <= i < j < self.channels@.len() implies crate::store::channel_key(
            self.channels@[i],
        ) != crate::store::channel_key(self.channels@[j]) by {
            assert(crate::store::channel_key(pre.channels@[i]) != crate::store::channel_key(
                pre.channels@[j],
            ));
            assert(self.channels@[i].id == pre.channels@[i].id);
            assert(self.channels@[j].id == pre.channels@[j].id);
        }
        assert forall|i: int| 0 <= i < self.channels@.len() implies (
        #[trigger] self.channels@[i].server matches Some(s2) ==> self.has_server(s2))
            && channel_internally_keyed(self.channels@[i]) && (self.channels@[i].id)
            < self.next_id by {
            if i != k {
                assert(pre.channels@[i].server matches Some(s2) ==> pre.has_server(s2));
                assert(channel_internally_keyed(pre.channels@[i]));
                assert(pre.channels@[i].id < pre.next_id);
            } else {
                assert(pre.channels@[k].server matches Some(s2) ==> pre.has_server(s2));
                assert(pre.channels@[k].id < pre.next_id);
            }
        }
    }

    /// Pushing one fresh, well-formed channel preserves the store
    /// invariant.
    proof fn lemma_channel_push_preserves_wf(self, pre: Store, c: Channel)
        requires
            pre.wf(),
            self.channels@ == pre.channels@.push(c),
            c.id == pre.next_id,
            self.next_id == pre.next_id + 1,
            channel_internally_keyed(c),
            (c.server matches Some(sid) ==> pre.has_server(sid)),
            self.servers == pre.servers,
            self.members == pre.members,
            self.bans == pre.bans,
            self.messages == pre.messages,
            self.webhooks == pre.webhooks,
            self.invites == pre.invites,
            self.emoji == pre.emoji,
            self.unreads == pre.unreads,
            self.sent == pre.sent,
            self.users == pre.users,
        ensures
            self.wf(),
            self.has_channel(c.id),
    {
        assert(self.users@ == pre.users@);
        crate::store::lemma_users_fresh_mono(self.users@, pre.next_id, self.next_id);
        let new = self.channels@;
        let olds = pre.channels@;
        assert forall|i: int, j: int| 0 <= i < j < new.len() implies crate::store::channel_key(
            new[i],
        ) != crate::store::channel_key(new[j]) by {
            if j == new.len() - 1 {
                assert(olds[i].id < pre.next_id);
            }
        }
        assert forall|i: int| 0 <= i < new.len() implies (#[trigger] new[i].server matches Some(
            s2,
        ) ==> self.has_server(s2)) && channel_internally_keyed(new[i]) && (new[i].id)
            < self.next_id by {
            if i < new.len() - 1 {
                assert(olds[i].server matches Some(s2) ==> pre.has_server(s2));
                assert(channel_internally_keyed(olds[i]));
                assert(olds[i].id < pre.next_id);
            }
        }
        assert forall|i: int| 0 <= i < self.messages@.len() implies self.has_channel(
            #[trigger] self.messages@[i].channel,
        ) by {
            assert(pre.has_channel(self.messages@[i].channel));
            let k = choose|k: int|
                0 <= k < olds.len() && olds[k].id == self.messages@[i].channel;
            assert(new[k].id == self.messages@[i].channel);
        }
        assert forall|i: int| 0 <= i < self.webhooks@.len() implies self.has_channel(
            #[trigger] self.webhooks@[i].channel,
        ) by {
            assert(pre.has_channel(self.webhooks@[i].channel));
            let k = choose|k: int|
                0 <= k < olds.len() && olds[k].id == self.webhooks@[i].channel;
            assert(new[k].id == self.webhooks@[i].channel);
        }
        assert forall|i: int| 0 <= i < self.invites@.len() implies self.has_channel(
            #[trigger] self.invites@[i].channel,
        ) by {
            assert(pre.has_channel(self.invites@[i].channel));
            let k = choose|k: int|
                0 <= k < olds.len() && olds[k].id == self.invites@[i].channel;
            assert(new[k].id == self.invites@[i].channel);
        }
        assert forall|i: int| 0 <= i < self.unreads@.len() implies self.has_channel(
            #[trigger] self.unreads@[i].channel,
        ) by {
            assert(pre.has_channel(self.unreads@[i].channel));
            let k = choose|k: int|
                0 <= k < olds.len() && olds[k].id == self.unreads@[i].channel;
            assert(new[k].id == self.unreads@[i].channel);
        }
        assert forall|i: int| 0 <= i < self.servers@.len() implies (
        #[trigger] self.servers@[i].id) < self.next_id && roles_fresh(
            self.servers@[i],
            self.next_id,
        ) by {
            assert(pre.servers@[i].id < pre.next_id);
            assert(roles_fresh(pre.servers@[i], pre.next_id));
            assert forall|l: int| 0 <= l < self.servers@[i].roles@.len() implies (
            #[trigger] self.servers@[i].roles@[l].id) < self.next_id by {
                assert(pre.servers@[i].roles@[l].id < pre.next_id);
            }
        }
        assert(new[new.len() - 1].id == c.id);
    }

    /// Create a channel in a server: requires the manage-channels bit;
    /// every overwrite subject is validated against the server's roles
    /// and members.
    pub fn create_channel(
        &mut self,
        actor: u64,
        sid: u64,
        kind: crate::store::ChannelKind,
        overwrites: Vec<crate::perms::Overwrite>,
    ) -> (r: Result<u64, Error>)
        requires
            old(self).wf(),
            old(self).next_id < 0xFFFF_FFFF_FFFF_FFFF,
        ensures
            final(self).wf(),
            r is Err ==> *final(self) == *old(self),
            r == Err::<u64, Error>(Error::NotFound) <==> !old(self).has_server(sid),
            r == Err::<u64, Error>(Error::Forbidden) <==> (old(self).has_server(sid) && old(
                self,
            ).server_perms(sid, actor) & crate::perms::P_MANAGE_CHANNELS == 0),
            r == Err::<u64, Error>(Error::InvalidOverwriteSubject) <==> (old(self).has_server(sid)
                && old(self).server_perms(sid, actor) & crate::perms::P_MANAGE_CHANNELS != 0 && !(
            crate::perms::distinct_subjects(overwrites@) && old(self).valid_subjects(
                sid,
                overwrites@,
            ))),
            r is Ok <==> (old(self).has_server(sid) && old(self).server_perms(sid, actor)
                & crate::perms::P_MANAGE_CHANNELS != 0 && crate::perms::distinct_subjects(
                overwrites@,
            ) && old(self).valid_subjects(sid, overwrites@)),
            r matches Ok(cid) ==> ({
                &&& cid == old(self).next_id
                &&& final(self).next_id == old(self).next_id + 1
                &&& final(self).channels@.len() == old(self).channels@.len() + 1
                &&& final(self).channels@.subrange(0, old(self).channels@.len() as int) =~= old(
                    self,
                ).channels@
                &&& final(self).channels@.last().id == cid
                &&& final(self).channels@.last().server == Some(sid)
                &&& final(self).channels@.last().kind == kind
                &&& final(self).channels@.last().overwrites == overwrites
                &&& final(self).channels@.last().recipients@ =~= Seq::<u64>::empty()
                &&& final(self).channels@.last().last_message is None
                &&& final(self).servers == old(self).servers
                &&& final(self).members == old(self).members
                &&& final(self).bans == old(self).bans
                &&& final(self).messages == old(self).messages
                &&& final(self).webhooks == old(self).webhooks
                &&& final(self).invites == old(self).invites
                &&& final(self).emoji == old(self).emoji
                &&& final(self).unreads == old(self).unreads
                &&& final(self).sent == old(self).sent
                &&& final(self).users == old(self).users
                &&& final(self).channel_in_server(cid, sid)
            }),
    {
        let si = match self.find_server(sid) {
            Some(i) => i,
            None => {
                return Err(Error::NotFound);
            },
        };
        proof {
            let j = old(self).server_idx(sid);
            assert(old(self).servers@[j].id == sid);
            assert(si as int == j);
        }
        let p = self.compute_server_perms(si, actor);
        if p & crate::perms::P_MANAGE_CHANNELS == 0 {
            return Err(Error::Forbidden);
        }
        let distinct = distinct_subjects_exec(&overwrites);
        let valid = self.check_subjects(si, &overwrites);
        if !(distinct && valid) {
            return Err(Error::InvalidOverwriteSubject);
        }
        let cid = self.next_id;
        self.next_id = self.next_id + 1;
        let c = Channel {
            id: cid,
            server: Some(sid),
            kind: kind,
            overwrites: overwrites,
            recipients: Vec::new(),
            last_message: None,
        };
        self.channels.push(c);
        proof {
            assert(channel_internally_keyed(c));
            self.lemma_channel_push_preserves_wf(*old(self), c);
            assert(self.channels@.last().recipients@ =~= Seq::<u64>::empty());
            assert(self.channels@[self.channels@.len() - 1].id == cid);
        }
        Ok(cid)
    }

    /// Create a serverless (direct-message or group) channel for a set
    /// of recipients; the creator must be one of them and the list must
    /// be free of duplicates.
    pub fn create_group(
        &mut self,
        creator: u64,
        kind: crate::store::ChannelKind,
        recipients: Vec<u64>,
    ) -> (r: Result<u64, Error>)
        requires
            old(self).wf(),
            old(self).next_id < 0xFFFF_FFFF_FFFF_FFFF,
        ensures
            final(self).wf(),
            r is Err ==> *final(self) == *old(self),
            r is Err <==> !((forall|i: int, j: int|
                0 <= i < j < recipients@.len() ==> recipients@[i] != recipients@[j])
                && recipients@.contains(creator)),
            r matches Ok(cid) ==> ({
                &&& cid == old(self).next_id
                &&& final(self).next_id == old(self).next_id + 1
                &&& final(self).channels@.len() == old(self).channels@.len() + 1
                &&& final(self).channels@.subrange(0, old(self).channels@.len() as int) =~= old(
                    self,
                ).channels@
                &&& final(self).channels@.last().id == cid
                &&& final(self).channels@.last().server is None
                &&& final(self).channels@.last().kind == kind
                &&& final(self).channels@.last().overwrites@ =~= Seq::<
                    crate::perms::Overwrite,
                >::empty()
                &&& final(self).channels@.last().recipients == recipients
                &&& final(self).channels@.last().last_message is None
                &&& final(self).servers == old(self).servers
                &&& final(self).members == old(self).members
                &&& final(self).bans == old(self).bans
                &&& final(self).messages == old(self).messages
                &&& final(self).webhooks == old(self).webhooks
                &&& final(self).invites == old(self).invites
                &&& final(self).emoji == old(self).emoji
                &&& final(self).unreads == old(self).unreads
                &&& final(self).sent == old(self).sent
                &&& final(self).users == old(self).users
                &&& final(self).has_channel(cid)
            }),
    {
        let distinct = distinct_u64_exec(&recipients);
        let present = crate::perms::contains_u64(&recipients, creator);
        if !(distinct && present) {
            return Err(Error::Conflict);
        }
        let cid = self.next_id;
        self.next_id = self.next_id + 1;
        let c = Channel {
            id: cid,
            server: None,
            kind: kind,
            overwrites: Vec::new(),
            recipients: recipients,
            last_message: None,
        };
        self.channels.push(c);
        proof {
            assert(channel_internally_keyed(c));
            self.lemma_channel_push_preserves_wf(*old(self), c);
            assert(self.channels@.last().overwrites@ =~= Seq::<crate::perms::Overwrite>::empty());
        }
        Ok(cid)
    }

    /// Delete a channel with its messages, webhooks, overwrites and
    /// read-state rows.  In a server, the manage-channels bit is
    /// required; in a serverless channel, being a recipient is.
    pub fn delete_channel(&mut self, actor: u64, cid: u64) -> (r: Result<(), Error>)
        requires
            old(self).wf(),
        ensures
            final(self).wf(),
            r is Err ==> *final(self) == *old(self),
            r == Err::<(), Error>(Error::NotFound) <==> !old(self).has_channel(cid),
            r == Err::<(), Error>(Error::Forbidden) <==> (old(self).has_channel(cid) && !old(
                self,
            ).can_manage_channel(cid, actor)),
            r is Ok <==> (old(self).has_channel(cid) && old(self).can_manage_channel(cid, actor)),
            r is Ok ==> ({
                &&& final(self).channels@ == channels_without(old(self).channels@, cid)
                &&& final(self).messages@ == messages_not_in(old(self).messages@, cid)
                &&& final(self).webhooks@ == webhooks_not_in(old(self).webhooks@, cid)
                &&& final(self).invites@ == invites_not_in(old(self).invites@, cid)
                &&& final(self).unreads@ == unreads_not_in(old(self).unreads@, cid)
                &&& final(self).servers == old(self).servers
                &&& final(self).members == old(self).members
                &&& final(self).bans == old(self).bans
                &&& final(self).emoji == old(self).emoji
                &&& final(self).sent == old(self).sent
                &&& final(self).users == old(self).users
                &&& final(self).next_id == old(self).next_id
                &&& !final(self).has_channel(cid)
            }),
    {
        let ci = match self.find_channel(cid) {
            Some(i) => i,
            None => {
                return Err(Error::NotFound);
            },
        };
        match self.channels[ci].server {
            Some(sid) => {
                let si = match self.find_server(sid) {
                    Some(i) => i,
                    None => {
                        proof {
                            assert(false);
                        }
                        return Err(Error::NotFound);
                    },
                };
                proof {
                    let j = old(self).server_idx(sid);
                    assert(old(self).servers@[j].id == sid);
                    assert(si as int == j);
                }
                let p = self.compute_server_perms(si, actor);
                if p & crate::perms::P_MANAGE_CHANNELS == 0 {
                    return Err(Error::Forbidden);
                }
            },
            None => {
                if !crate::perms::contains_u64(&self.channels[ci].recipients, actor) {
                    return Err(Error::Forbidden);
                }
            },
        }
        let mut messages: Vec<Message> = Vec::new();
        core::mem::swap(&mut messages, &mut self.messages);
        self.messages = drop_messages_of_channel(messages, cid);
        self.webhooks = drop_webhooks_of_channel(&self.webhooks, cid);
        self.invites = drop_invites_of_channel(&self.invites, cid);
        let mut unreads: Vec<UnreadState> = Vec::new();
        core::mem::swap(&mut unreads, &mut self.unreads);
        self.unreads = drop_unreads_of_channel(unreads, cid);
        let mut channels: Vec<Channel> = Vec::new();
        core::mem::swap(&mut channels, &mut self.channels);
        self.channels = drop_channel(channels, cid);
        proof {
            self.lemma_delete_channel_preserves_wf(*old(self), cid);
        }
        Ok(())
    }

    proof fn lemma_delete_channel_preserves_wf(self, pre: Store, cid: u64)
        requires
            pre.wf(),
            self.channels@ == channels_without(pre.channels@, cid),
            self.messages@ == messages_not_in(pre.messages@, cid),
            self.webhooks@ == webhooks_not_in(pre.webhooks@, cid),
            self.invites@ == invites_not_in(pre.invites@, cid),
            self.unreads@ == unreads_not_in(pre.unreads@, cid),
            self.servers == pre.servers,
            self.members == pre.members,
            self.bans == pre.bans,
            self.emoji == pre.emoji,
            self.sent == pre.sent,
            self.users == pre.users,
            self.next_id == pre.next_id,
        ensures
            self.wf(),
            !self.has_channel(cid),
    {
        let cpred = |c: Channel| c.id != cid;
        let gpred = |m: Message| m.channel != cid;
        let wpred = |w: Webhook| w.channel != cid;
        let ipred = |v: Invite| v.channel != cid;
        let upred = |u: UnreadState| u.channel != cid;
        lemma_filter_contains(pre.channels@, cpred);
        lemma_filter_distinct(pre.channels@, cpred, |c: Channel| crate::store::channel_key(c));
        lemma_filter_contains(pre.messages@, gpred);
        lemma_filter_distinct(pre.messages@, gpred, |m: Message| crate::store::message_key(m));
        lemma_filter_contains(pre.webhooks@, wpred);
        lemma_filter_distinct(pre.webhooks@, wpred, |w: Webhook| crate::store::webhook_key(w));
        lemma_filter_contains(pre.invites@, ipred);
        lemma_filter_distinct(pre.invites@, ipred, |v: Invite| crate::store::invite_key(v));
        lemma_filter_contains(pre.unreads@, upred);
        lemma_filter_distinct(pre.unreads@, upred, |u: UnreadState| crate::store::unread_key(u));
        assert forall|x: u64| x != cid && pre.has_channel(x) implies self.has_channel(x) by {
            let k = choose|k: int| 0 <= k < pre.channels@.len() && pre.channels@[k].id == x;
            assert(self.channels@.contains(pre.channels@[k]));
            let k2 = choose|k2: int|
                0 <= k2 < self.channels@.len() && self.channels@[k2] == pre.channels@[k];
        }
        assert forall|i: int| 0 <= i < self.channels@.len() implies (
        #[trigger] self.channels@[i].server matches Some(s2) ==> self.has_server(s2))
            && channel_internally_keyed(self.channels@[i]) && (self.channels@[i].id)
            < self.next_id by {
            assert(self.channels@.contains(self.channels@[i]));
            assert(pre.channels@.contains(self.channels@[i]));
            let k = choose|k: int|
                0 <= k < pre.channels@.len() && pre.channels@[k] == self.channels@[i];
        }
        assert forall|i: int| 0 <= i < self.messages@.len() implies self.has_channel(
            #[trigger] self.messages@[i].channel,
        ) && (self.messages@[i].id) < self.next_id && self.ever_sent(
            self.messages@[i].channel,
            self.messages@[i].id,
        ) by {
            assert(self.messages@.contains(self.messages@[i]));
            assert(pre.messages@.contains(self.messages@[i]));
            let k = choose|k: int|
                0 <= k < pre.messages@.len() && pre.messages@[k] == self.messages@[i];
            assert(pre.has_channel(self.messages@[i].channel));
            assert(self.messages@[i].channel != cid);
        }
        assert forall|i: int| 0 <= i < self.webhooks@.len() implies self.has_channel(
            #[trigger] self.webhooks@[i].channel,
        ) && (self.webhooks@[i].id) < self.next_id by {
            assert(self.webhooks@.contains(self.webhooks@[i]));
            assert(pre.webhooks@.contains(self.webhooks@[i]));
            let k = choose|k: int|
                0 <= k < pre.webhooks@.len() && pre.webhooks@[k] == self.webhooks@[i];
            assert(pre.has_channel(self.webhooks@[i].channel));
            assert(self.webhooks@[i].channel != cid);
        }
        assert forall|i: int| 0 <= i < self.invites@.len() implies self.has_channel(
            #[trigger] self.invites@[i].channel,
        ) && (self.invites@[i].id) < self.next_id by {
            assert(self.invites@.contains(self.invites@[i]));
            assert(pre.invites@.contains(self.invites@[i]));
            let k = choose|k: int|
                0 <= k < pre.invites@.len() && pre.invites@[k] == self.invites@[i];
            assert(pre.has_channel(self.invites@[i].channel));
            assert(self.invites@[i].channel != cid);
        }
        assert forall|i: int| 0 <= i < self.unreads@.len() implies self.has_channel(
            #[trigger] self.unreads@[i].channel,
        ) && (#[trigger] self.unreads@[i].last_read matches Some(mid) ==> self.ever_sent(
            self.unreads@[i].channel,
            mid,
        )) by {
            assert(self.unreads@.contains(self.unreads@[i]));
            assert(pre.unreads@.contains(self.unreads@[i]));
            let k = choose|k: int| 0 <= k < pre.unreads@.len() && pre.unreads@[k] == self.unreads@[i];
            assert(pre.has_channel(self.unreads@[i].channel));
            assert(self.unreads@[i].channel != cid);
        }
        assert forall|i: int| 0 <= i < self.servers@.len() implies distinct_role_ids_of(
            #[trigger] self.servers@[i],
        ) by {
            assert(distinct_role_ids_of(pre.servers@[i]));
        }
        assert forall|i: int| 0 <= i < self.channels@.len() implies channel_internally_keyed(
            #[trigger] self.channels@[i],
        ) by {
            assert(self.channels@.contains(self.channels@[i]));
            assert(pre.channels@.contains(self.channels@[i]));
            let k = choose|k: int|
                0 <= k < pre.channels@.len() && pre.channels@[k] == self.channels@[i];
            assert(channel_internally_keyed(pre.channels@[k]));
        }
        assert forall|i: int| 0 <= i < self.channels@.len() implies (
        #[trigger] self.channels@[i].server matches Some(s2) ==> self.has_server(s2)) by {
            assert(self.channels@.contains(self.channels@[i]));
            assert(pre.channels@.contains(self.channels@[i]));
            let k = choose|k: int|
                0 <= k < pre.channels@.len() && pre.channels@[k] == self.channels@[i];
            if let Some(s2) = self.channels@[i].server {
                assert(pre.has_server(s2));
            }
        }
        assert forall|i: int| 0 <= i < self.members@.len() implies self.has_server(
            #[trigger] self.members@[i].server,
        ) by {
            assert(pre.has_server(pre.members@[i].server));
        }
        assert forall|i: int| 0 <= i < self.bans@.len() implies self.has_server(
            #[trigger] self.bans@[i].server,
        ) by {
            assert(pre.has_server(pre.bans@[i].server));
        }
        assert forall|i: int| 0 <= i < self.emoji@.len() implies self.has_server(
            #[trigger] self.emoji@[i].server,
        ) by {
            assert(pre.has_server(pre.emoji@[i].server));
        }
        assert forall|i: int| 0 <= i < self.servers@.len() implies (
        #[trigger] self.servers@[i].id) < self.next_id && roles_fresh(
            self.servers@[i],
            self.next_id,
        ) by {
            assert(pre.servers@[i].id < pre.next_id);
            assert(roles_fresh(pre.servers@[i], pre.next_id));
        }
        assert forall|i: int| 0 <= i < self.channels@.len() implies (
        #[trigger] self.channels@[i].id) < self.next_id by {
            assert(self.channels@.contains(self.channels@[i]));
            assert(pre.channels@.contains(self.channels@[i]));
            let k = choose|k: int|
                0 <= k < pre.channels@.len() && pre.channels@[k] == self.channels@[i];
            assert(pre.channels@[k].id < pre.next_id);
        }
        assert forall|i: int| 0 <= i < self.messages@.len() implies (
        #[trigger] self.messages@[i].id) < self.next_id by {
            assert(self.messages@.contains(self.messages@[i]));
            assert(pre.messages@.contains(self.messages@[i]));
            let k = choose|k: int|
                0 <= k < pre.messages@.len() && pre.messages@[k] == self.messages@[i];
            assert(pre.messages@[k].id < pre.next_id);
        }
        assert forall|i: int| 0 <= i < self.webhooks@.len() implies (
        #[trigger] self.webhooks@[i].id) < self.next_id by {
            assert(self.webhooks@.contains(self.webhooks@[i]));
            assert(pre.webhooks@.contains(self.webhooks@[i]));
            let k = choose|k: int|
                0 <= k < pre.webhooks@.len() && pre.webhooks@[k] == self.webhooks@[i];
            assert(pre.webhooks@[k].id < pre.next_id);
        }
        assert forall|i: int| 0 <= i < self.invites@.len() implies (
        #[trigger] self.invites@[i].id) < self.next_id by {
            assert(self.invites@.contains(self.invites@[i]));
            assert(pre.invites@.contains(self.invites@[i]));
            let k = choose|k: int|
                0 <= k < pre.invites@.len() && pre.invites@[k] == self.invites@[i];
            assert(pre.invites@[k].id < pre.next_id);
        }
        assert forall|i: int| 0 <= i < self.emoji@.len() implies (#[trigger] self.emoji@[i].id)
            < self.next_id by {
            assert(pre.emoji@[i].id < pre.next_id);
        }
        assert forall|i: int| 0 <= i < self.messages@.len() implies self.ever_sent(
            (#[trigger] self.messages@[i]).channel,
            self.messages@[i].id,
        ) by {
            assert(self.messages@.contains(self.messages@[i]));
            assert(pre.messages@.contains(self.messages@[i]));
            let k = choose|k: int|
                0 <= k < pre.messages@.len() && pre.messages@[k] == self.messages@[i];
            assert(pre.ever_sent(pre.messages@[k].channel, pre.messages@[k].id));
        }
        if self.has_channel(cid) {
            let k = choose|k: int| 0 <= k < self.channels@.len() && self.channels@[k].id == cid;
            assert(self.channels@.contains(self.channels@[k]));
        }
        assert forall|i: int| 0 <= i < self.unreads@.len() implies self.has_channel(
            #[trigger] self.unreads@[i].channel,
        ) by {
            assert(self.unreads@.contains(self.unreads@[i]));
            assert(pre.unreads@.contains(self.unreads@[i]));
            let k = choose|k: int| 0 <= k < pre.unreads@.len() && pre.unreads@[k] == self.unreads@[i];
            assert(pre.has_channel(self.unreads@[i].channel));
            assert(self.unreads@[i].channel != cid);
        }
    }

    /// Set (create or replace) one overwrite on a channel, after
    /// re-validating that its subject references a role of the server
    /// or a current member; in a serverless channel, only a recipient
    /// may be addressed.
    pub fn set_channel_overwrite(&mut self, actor: u64, cid: u64, ow: crate::perms::Overwrite) -> (r:
        Result<(), Error>)
        requires
            old(self).wf(),
        ensures
            final(self).wf(),
            r is Err ==> *final(self) == *old(self),
            r == Err::<(), Error>(Error::NotFound) <==> !old(self).has_channel(cid),
            r == Err::<(), Error>(Error::Forbidden) <==> (old(self).has_channel(cid) && !old(
                self,
            ).can_manage_channel(cid, actor)),
            r == Err::<(), Error>(Error::InvalidOverwriteSubject) <==> (old(self).has_channel(cid)
                && old(self).can_manage_channel(cid, actor) && !old(self).overwrite_subject_valid(
                cid,
                ow.subject,
            )),
            r is Ok <==> (old(self).has_channel(cid) && old(self).can_manage_channel(cid, actor)
                && old(self).overwrite_subject_valid(cid, ow.subject)),
            r is Ok ==> ({
                let k = old(self).channel_idx(cid);
                &&& final(self).channels@.len() == old(self).channels@.len()
                &&& forall|i: int|
                    0 <= i < old(self).channels@.len() && i != k ==> final(self).channels@[i]
                        == old(self).channels@[i]
                &&& final(self).channels@[k].id == cid
                &&& final(self).channels@[k].server == old(self).channels@[k].server
                &&& final(self).channels@[k].kind == old(self).channels@[k].kind
                &&& final(self).channels@[k].recipients == old(self).channels@[k].recipients
                &&& final(self).channels@[k].last_message == old(self).channels@[k].last_message
                &&& final(self).channels@[k].overwrites@ == old(self).channels@[
                    k
                ].overwrites@.filter(|o: crate::perms::Overwrite| o.subject != ow.subject).push(ow)
                &&& final(self).servers == old(self).servers
                &&& final(self).members == old(self).members
                &&& final(self).bans == old(self).bans
                &&& final(self).messages == old(self).messages
                &&& final(self).webhooks == old(self).webhooks
                &&& final(self).invites == old(self).invites
                &&& final(self).emoji == old(self).emoji
                &&& final(self).unreads == old(self).unreads
                &&& final(self).sent == old(self).sent
                &&& final(self).users == old(self).users
                &&& final(self).next_id == old(self).next_id
            }),
    {
        let ci = match self.find_channel(cid) {
            Some(i) => i,
            None => {
                return Err(Error::NotFound);
            },
        };
        proof {
            let j = old(self).channel_idx(cid);
            assert(old(self).channels@[j].id == cid);
            assert(ci as int == j);
        }
        match self.channels[ci].server {
            Some(sid) => {
                let si = match self.find_server(sid) {
                    Some(i) => i,
                    None => {
                        proof {
                            assert(false);
                        }
                        return Err(Error::NotFound);
                    },
                };
                proof {
                    let j = old(self).server_idx(sid);
                    assert(old(self).servers@[j].id == sid);
                    assert(si as int == j);
                }
                let p = self.compute_server_perms(si, actor);
                if p & crate::perms::P_MANAGE_CHANNELS == 0 {
                    return Err(Error::Forbidden);
                }
                let ok = match ow.subject {
                    crate::perms::Subject::Role(rid) => crate::perms::find_role(
                        &self.servers[si].roles,
                        rid,
                    ).is_some(),
                    crate::perms::Subject::User(u) => self.find_member(sid, u).is_some(),
                };
                if !ok {
                    return Err(Error::InvalidOverwriteSubject);
                }
            },
            None => {
                if !crate::perms::contains_u64(&self.channels[ci].recipients, actor) {
                    return Err(Error::Forbidden);
                }
                let ok = match ow.subject {
                    crate::perms::Subject::Role(_) => false,
                    crate::perms::Subject::User(u) => crate::perms::contains_u64(
                        &self.channels[ci].recipients,
                        u,
                    ),
                };
                if !ok {
                    return Err(Error::InvalidOverwriteSubject);
                }
            },
        }
        let kept = drop_subject(&self.channels[ci].overwrites, ow.subject);
        let mut new_ows = kept;
        new_ows.push(ow);
        self.channels[ci].overwrites = new_ows;
        proof {
            let k = ci as int;
            let opred = |o: crate::perms::Overwrite| o.subject != ow.subject;
            let okey = |o: crate::perms::Overwrite| crate::perms::subject_pair(o.subject);
            let pre_ows = old(self).channels@[k].overwrites@;
            lemma_filter_in(pre_ows, opred);
            let f = pre_ows.filter(opred);
            assert(crate::perms::distinct_subjects(pre_ows));
            assert forall|a: int, b: int| 0 <= a < b < pre_ows.len() implies okey(pre_ows[a])
                != okey(pre_ows[b]) by {
                assert(pre_ows[a].subject != pre_ows[b].subject);
                crate::perms::lemma_subject_pair_injective(
                    pre_ows[a].subject,
                    pre_ows[b].subject,
                );
            }
            lemma_filter_distinct(pre_ows, opred, okey);
            assert forall|a: int, b: int|
                0 <= a < b < self.channels@[k].overwrites@.len() implies self.channels@[
                k
            ].overwrites@[a].subject != self.channels@[k].overwrites@[b].subject by {
                if b < f.len() {
                    assert(okey(f[a]) != okey(f[b]));
                } else {
                    assert(self.channels@[k].overwrites@[b] == ow);
                    assert(opred(f[a]));
                }
            }
            assert(channel_internally_keyed(self.channels@[k])) by {
                assert(channel_internally_keyed(old(self).channels@[k]));
            }
            self.lemma_channel_update_preserves_wf(*old(self), k);
        }
        Ok(())
    }

    /// No entity of a deleted server survives: the server itself, its
    /// channels, member and ban records, emoji, and — through its
    /// channels — messages, webhooks and read-state rows are all
    /// unreachable afterwards.
    pub proof fn lemma_delete_server_cascade(pre: Store, post: Store, sid: u64)
        requires
            pre.wf(),
            post.servers@ == servers_without(pre.servers@, sid),
            post.channels@ == channels_outside(pre.channels@, sid),
            post.members@ == members_outside(pre.members@, sid),
            post.bans@ == bans_outside(pre.bans@, sid),
            post.emoji@ == emoji_outside(pre.emoji@, sid),
            post.messages@ == messages_outside(pre.messages@, pre.channels@, sid),
            post.webhooks@ == webhooks_outside(pre.webhooks@, pre.channels@, sid),
            post.invites@ == invites_outside(pre.invites@, pre.channels@, sid),
            post.unreads@ == unreads_outside(pre.unreads@, pre.channels@, sid),
        ensures
            !post.has_server(sid),
            forall|cid: u64| pre.channel_in_server(cid, sid) ==> !post.has_channel(cid),
            forall|uid: u64| !post.has_member(sid, uid),
            forall|uid: u64| !post.has_ban(sid, uid),
            forall|i: int| 0 <= i < post.emoji@.len() ==> (#[trigger] post.emoji@[i]).server != sid,
            forall|i: int|
                0 <= i < post.webhooks@.len() ==> !pre.channel_in_server(
                    (#[trigger] post.webhooks@[i]).channel,
                    sid,
                ),
            forall|i: int|
                0 <= i < post.invites@.len() ==> !pre.channel_in_server(
                    (#[trigger] post.invites@[i]).channel,
                    sid,
                ),
            forall|i: int|
                0 <= i < post.messages@.len() ==> !pre.channel_in_server(
                    (#[trigger] post.messages@[i]).channel,
                    sid,
                ),
            forall|i: int|
                0 <= i < post.unreads@.len() ==> !pre.channel_in_server(
                    (#[trigger] post.unreads@[i]).channel,
                    sid,
                ),
    {
        let spred = |x: Server| x.id != sid;
        let cpred = |c: Channel| c.server != Some(sid);
        let mpred = |m: Member| m.server != sid;
        let bpred = |b: Ban| b.server != sid;
        let epred = |e: Emoji| e.server != sid;
        let gpred = |m: Message| !channel_of(pre.channels@, m.channel, sid);
        let wpred = |w: Webhook| !channel_of(pre.channels@, w.channel, sid);
        let ipred = |v: Invite| !channel_of(pre.channels@, v.channel, sid);
        let upred = |u: UnreadState| !channel_of(pre.channels@, u.channel, sid);
        lemma_filter_in(pre.servers@, spred);
        lemma_filter_in(pre.channels@, cpred);
        lemma_filter_in(pre.members@, mpred);
        lemma_filter_in(pre.bans@, bpred);
        lemma_filter_in(pre.emoji@, epred);
        lemma_filter_in(pre.messages@, gpred);
        lemma_filter_in(pre.webhooks@, wpred);
        lemma_filter_in(pre.invites@, ipred);
        lemma_filter_in(pre.unreads@, upred);
        if post.has_server(sid) {
            let k = choose|k: int| 0 <= k < post.servers@.len() && post.servers@[k].id == sid;
        }
        assert forall|cid: u64| pre.channel_in_server(cid, sid) implies !post.has_channel(cid) by {
            if post.has_channel(cid) {
                let k = choose|k: int|
                    0 <= k < post.channels@.len() && post.channels@[k].id == cid;
                assert(cpred(post.channels@[k]));
                let k2 = choose|k2: int|
                    0 <= k2 < pre.channels@.len() && pre.channels@[k2].id == cid
                        && pre.channels@[k2].server == Some(sid);
                assert(pre.channels@.contains(post.channels@[k]));
                let k3 = choose|k3: int|
                    0 <= k3 < pre.channels@.len() && pre.channels@[k3] == post.channels@[k];
                assert(crate::store::channel_key(pre.channels@[k2]) == crate::store::channel_key(
                    pre.channels@[k3],
                ));
                if k2 != k3 {
                    assert(pre.keys_distinct());
                    assert(false);
                }
            }
        }
        assert forall|uid: u64| !post.has_member(sid, uid) by {
            if post.has_member(sid, uid) {
                let k = choose|k: int|
                    0 <= k < post.members@.len() && post.members@[k].server == sid
                        && post.members@[k].user == uid;
                assert(mpred(post.members@[k]));
            }
        }
        assert forall|uid: u64| !post.has_ban(sid, uid) by {
            if post.has_ban(sid, uid) {
                let k = choose|k: int|
                    0 <= k < post.bans@.len() && post.bans@[k].server == sid && post.bans@[k].user
                        == uid;
                assert(bpred(post.bans@[k]));
            }
        }
        assert forall|i: int| 0 <= i < post.webhooks@.len() implies !pre.channel_in_server(
            (#[trigger] post.webhooks@[i]).channel,
            sid,
        ) by {
            assert(wpred(post.webhooks@[i]));
        }
        assert forall|i: int| 0 <= i < post.invites@.len() implies !pre.channel_in_server(
            (#[trigger] post.invites@[i]).channel,
            sid,
        ) by {
            assert(ipred(post.invites@[i]));
        }
        assert forall|i: int| 0 <= i < post.messages@.len() implies !pre.channel_in_server(
            (#[trigger] post.messages@[i]).channel,
            sid,
        ) by {
            assert(gpred(post.messages@[i]));
        }
        assert forall|i: int| 0 <= i < post.unreads@.len() implies !pre.channel_in_server(
            (#[trigger] post.unreads@[i]).channel,
            sid,
        ) by {
            assert(upred(post.unreads@[i]));
        }
    }
}

} // verus!
