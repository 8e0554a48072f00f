use revolt_core::perms::{Overwrite, Subject, ALL_PERMISSIONS, P_SEND_MESSAGE};
use revolt_core::store::{ChannelKind, Emoji, Invite, Store, Webhook};
use revolt_core::Error;

fn populated_server(store: &mut Store) -> (u64, u64) {
    let sid = store.create_server(1, String::from("home"), P_SEND_MESSAGE, 10);
    let cid = store
        .create_channel(1, sid, ChannelKind::Text, Vec::new())
        .unwrap();
    store.join(sid, 2, 11).unwrap();
    (sid, cid)
}

#[test]
fn delete_server_cascades_to_everything() {
    // After deleting a server, none of its channels, members, bans,
    // webhooks, emoji or read-state rows can be retrieved.
    let mut store = Store::new();
    let (sid, cid) = populated_server(&mut store);
    store.join(sid, 3, 12).unwrap();
    store.ban(1, sid, 3, String::from("out")).unwrap();
    store.send_message(1, cid, String::from("hi"), vec![2]).unwrap();
    store.webhooks.push(Webhook { id: 900, channel: cid });
    store.emoji.push(Emoji { id: 901, server: sid });
    store.invites.push(Invite { id: 902, channel: cid, creator: 1 });
    store.next_id = 1000;
    assert_eq!(store.delete_server(2, sid), Err(Error::Forbidden));
    assert_eq!(store.delete_server(1, sid), Ok(()));
    assert!(store.find_server(sid).is_none());
    assert!(store.find_channel(cid).is_none());
    assert!(store.find_member(sid, 1).is_none());
    assert!(store.find_member(sid, 2).is_none());
    assert!(store.find_ban(sid, 3).is_none());
    assert!(store.webhooks.is_empty());
    assert!(store.emoji.is_empty());
    assert!(store.invites.is_empty());
    assert!(store.unreads.is_empty());
    assert!(store.messages.is_empty());
}

#[test]
fn delete_channel_cascades_but_keeps_server() {
    let mut store = Store::new();
    let (sid, cid) = populated_server(&mut store);
    store.send_message(1, cid, String::from("hi"), Vec::new()).unwrap();
    store.invites.push(Invite { id: 950, channel: cid, creator: 1 });
    store.next_id = 1000;
    assert_eq!(store.delete_channel(1, cid), Ok(()));
    assert!(store.find_channel(cid).is_none());
    assert!(store.invites.is_empty());
    assert!(store.messages.is_empty());
    assert!(store.unreads.is_empty());
    assert!(store.find_server(sid).is_some());
    assert!(store.find_member(sid, 2).is_some());
}

#[test]
fn create_channel_rejects_invalid_overwrite_subject() {
    let mut store = Store::new();
    let sid = store.create_server(1, String::from("home"), 0, 10);
    let bad = vec![Overwrite { subject: Subject::Role(999), allow: 0, deny: 0 }];
    assert_eq!(
        store.create_channel(1, sid, ChannelKind::Text, bad),
        Err(Error::InvalidOverwriteSubject)
    );
    let bad_user = vec![Overwrite { subject: Subject::User(42), allow: 0, deny: 0 }];
    assert_eq!(
        store.create_channel(1, sid, ChannelKind::Text, bad_user),
        Err(Error::InvalidOverwriteSubject)
    );
}

#[test]
fn set_overwrite_revalidates_subject() {
    let mut store = Store::new();
    let (sid, cid) = populated_server(&mut store);
    let ow = Overwrite { subject: Subject::User(2), allow: P_SEND_MESSAGE, deny: 0 };
    assert_eq!(store.set_channel_overwrite(1, cid, ow), Ok(()));
    let stale = Overwrite { subject: Subject::User(77), allow: P_SEND_MESSAGE, deny: 0 };
    assert_eq!(
        store.set_channel_overwrite(1, cid, stale),
        Err(Error::InvalidOverwriteSubject)
    );
    let _ = sid;
}

#[test]
fn send_requires_the_send_bit() {
    let mut store = Store::new();
    let sid = store.create_server(1, String::from("quiet"), 0, 10);
    let cid = store
        .create_channel(1, sid, ChannelKind::Text, Vec::new())
        .unwrap();
    store.join(sid, 2, 11).unwrap();
    assert_eq!(
        store.send_message(2, cid, String::from("hi"), Vec::new()),
        Err(Error::Forbidden)
    );
    // A user overwrite can grant the bit.
    let ow = Overwrite { subject: Subject::User(2), allow: P_SEND_MESSAGE, deny: 0 };
    store.set_channel_overwrite(1, cid, ow).unwrap();
    assert!(store.send_message(2, cid, String::from("hi"), Vec::new()).is_ok());
}

#[test]
fn unread_round_trip() {
    // Sending several messages creates exactly one read-state row per
    // recipient with no read marker; acknowledging one of them sets
    // the marker to it and clears every pending mention up to it.
    let mut store = Store::new();
    let (sid, cid) = populated_server(&mut store);
    let m1 = store.send_message(1, cid, String::from("a"), vec![2]).unwrap();
    let m2 = store.send_message(1, cid, String::from("b"), vec![2]).unwrap();
    let m3 = store.send_message(1, cid, String::from("c"), vec![2]).unwrap();
    let rows: Vec<usize> = (0..store.unreads.len())
        .filter(|&i| store.unreads[i].user == 2 && store.unreads[i].channel == cid)
        .collect();
    assert_eq!(rows.len(), 1);
    let row = rows[0];
    assert_eq!(store.unreads[row].last_read, None);
    assert_eq!(store.unreads[row].mentions, vec![m1, m2, m3]);
    assert_eq!(store.acknowledge(2, cid, m2), Ok(()));
    let ui = store.find_unread(2, cid).unwrap();
    assert_eq!(store.unreads[ui].last_read, Some(m2));
    assert_eq!(store.unreads[ui].mentions, vec![m3]);
    let _ = sid;
}

#[test]
fn acknowledge_of_unknown_id_is_stale_and_changes_nothing() {
    let mut store = Store::new();
    let (_sid, cid) = populated_server(&mut store);
    let m1 = store.send_message(1, cid, String::from("a"), vec![2]).unwrap();
    let before = store.unreads.len();
    let ui = store.find_unread(2, cid).unwrap();
    let marker = store.unreads[ui].last_read;
    let pending = store.unreads[ui].mentions.clone();
    assert_eq!(store.acknowledge(2, cid, m1 + 500), Err(Error::StaleAcknowledgement));
    assert_eq!(store.unreads.len(), before);
    let ui = store.find_unread(2, cid).unwrap();
    assert_eq!(store.unreads[ui].last_read, marker);
    assert_eq!(store.unreads[ui].mentions, pending);
}

#[test]
fn acknowledge_never_regresses() {
    let mut store = Store::new();
    let (_sid, cid) = populated_server(&mut store);
    let m1 = store.send_message(1, cid, String::from("a"), Vec::new()).unwrap();
    let m3 = store.send_message(1, cid, String::from("c"), Vec::new()).unwrap();
    assert_eq!(store.acknowledge(2, cid, m3), Ok(()));
    assert_eq!(store.acknowledge(2, cid, m1), Ok(()));
    let ui = store.find_unread(2, cid).unwrap();
    assert_eq!(store.unreads[ui].last_read, Some(m3));
}

#[test]
fn acknowledged_id_survives_message_deletion() {
    let mut store = Store::new();
    let (_sid, cid) = populated_server(&mut store);
    let m1 = store.send_message(1, cid, String::from("a"), Vec::new()).unwrap();
    assert_eq!(store.acknowledge(2, cid, m1), Ok(()));
    assert_eq!(store.delete_message(1, m1), Ok(()));
    // The read marker stays valid, and so does a later acknowledgement
    // of the deleted id.
    let ui = store.find_unread(2, cid).unwrap();
    assert_eq!(store.unreads[ui].last_read, Some(m1));
    assert_eq!(store.acknowledge(2, cid, m1), Ok(()));
}

#[test]
fn delete_message_clears_mentions_and_recomputes_pointer() {
    let mut store = Store::new();
    let (_sid, cid) = populated_server(&mut store);
    let m1 = store.send_message(1, cid, String::from("a"), vec![2]).unwrap();
    let m2 = store.send_message(1, cid, String::from("b"), vec![2]).unwrap();
    let ci = store.find_channel(cid).unwrap();
    assert_eq!(store.channels[ci].last_message, Some(m2));
    assert_eq!(store.delete_message(1, m2), Ok(()));
    let ci = store.find_channel(cid).unwrap();
    assert_eq!(store.channels[ci].last_message, Some(m1));
    let ui = store.find_unread(2, cid).unwrap();
    assert_eq!(store.unreads[ui].mentions, vec![m1]);
    assert_eq!(store.delete_message(1, m1), Ok(()));
    let ci = store.find_channel(cid).unwrap();
    assert_eq!(store.channels[ci].last_message, None);
}

#[test]
fn edit_message_adjusts_mentions_incrementally() {
    let mut store = Store::new();
    let (_sid, cid) = populated_server(&mut store);
    let m1 = store.send_message(1, cid, String::from("a"), Vec::new()).unwrap();
    let ui = store.find_unread(2, cid).unwrap();
    assert!(store.unreads[ui].mentions.is_empty());
    assert_eq!(
        store.edit_message(1, m1, String::from("a @2"), vec![2]),
        Ok(())
    );
    let ui = store.find_unread(2, cid).unwrap();
    assert_eq!(store.unreads[ui].mentions, vec![m1]);
    let mi = store.find_message(m1).unwrap();
    assert!(store.messages[mi].edited);
    assert_eq!(store.messages[mi].content, String::from("a @2"));
    assert_eq!(
        store.edit_message(1, m1, String::from("a"), Vec::new()),
        Ok(())
    );
    let ui = store.find_unread(2, cid).unwrap();
    assert!(store.unreads[ui].mentions.is_empty());
}

#[test]
fn edit_requires_authorship_or_override() {
    let mut store = Store::new();
    let (sid, cid) = populated_server(&mut store);
    let m1 = store.send_message(1, cid, String::from("a"), Vec::new()).unwrap();
    assert_eq!(
        store.edit_message(2, m1, String::from("x"), Vec::new()),
        Err(Error::Forbidden)
    );
    assert_eq!(
        store.delete_message(2, m1),
        Err(Error::Forbidden)
    );
    // Grant the override bit through a role.
    let role = store
        .create_role(1, sid, 0, ALL_PERMISSIONS, 0)
        .unwrap();
    store.assign_role(1, sid, 2, role).unwrap();
    assert_eq!(store.edit_message(2, m1, String::from("x"), Vec::new()), Ok(()));
    assert_eq!(store.delete_message(2, m1), Ok(()));
}

#[test]
fn group_channel_delivers_to_recipients() {
    let mut store = Store::new();
    let gid = store
        .create_group(5, ChannelKind::Group, vec![5, 6, 7])
        .unwrap();
    let m1 = store.send_message(5, gid, String::from("hi"), vec![6]).unwrap();
    assert!(store.find_unread(6, gid).is_some());
    assert!(store.find_unread(7, gid).is_some());
    assert!(store.find_unread(5, gid).is_none());
    let ui = store.find_unread(6, gid).unwrap();
    assert_eq!(store.unreads[ui].mentions, vec![m1]);
    // A non-recipient cannot send.
    assert_eq!(
        store.send_message(9, gid, String::from("hi"), Vec::new()),
        Err(Error::Forbidden)
    );
}

#[test]
fn mention_cap_drops_oldest_first() {
    let mut store = Store::new();
    let (_sid, cid) = populated_server(&mut store);
    let mut first = None;
    let mut last = 0;
    for _ in 0..33 {
        let m = store.send_message(1, cid, String::from("x"), vec![2]).unwrap();
        if first.is_none() {
            first = Some(m);
        }
        last = m;
    }
    let ui = store.find_unread(2, cid).unwrap();
    assert_eq!(store.unreads[ui].mentions.len(), 32);
    assert_eq!(*store.unreads[ui].mentions.last().unwrap(), last);
    assert!(!store.unreads[ui].mentions.contains(&first.unwrap()));
}

#[test]
fn group_recipients_must_be_distinct_and_include_creator() {
    let mut store = Store::new();
    assert_eq!(
        store.create_group(5, ChannelKind::Group, vec![5, 6, 6]),
        Err(Error::Conflict)
    );
    assert_eq!(
        store.create_group(5, ChannelKind::Group, vec![6, 7]),
        Err(Error::Conflict)
    );
    assert!(store.channels.is_empty());
    assert!(store.create_group(5, ChannelKind::Group, vec![5, 6]).is_ok());
}
