use revolt_core::perms::{ALL_PERMISSIONS, P_BAN_MEMBERS, P_KICK_MEMBERS, P_SEND_MESSAGE};
use revolt_core::store::Store;
use revolt_core::Error;

fn server_with_owner(store: &mut Store, owner: u64) -> u64 {
    store.create_server(owner, String::from("home"), P_SEND_MESSAGE, 10)
}

#[test]
fn join_creates_member() {
    let mut store = Store::new();
    let sid = server_with_owner(&mut store, 1);
    assert_eq!(store.join(sid, 2, 11), Ok(()));
    assert!(store.find_member(sid, 2).is_some());
}

#[test]
fn join_unknown_server_fails() {
    let mut store = Store::new();
    assert_eq!(store.join(999, 2, 11), Err(Error::NotFound));
}

#[test]
fn join_twice_fails_with_already_member() {
    let mut store = Store::new();
    let sid = server_with_owner(&mut store, 1);
    assert_eq!(store.join(sid, 2, 11), Ok(()));
    assert_eq!(store.join(sid, 2, 12), Err(Error::AlreadyMember));
}

#[test]
fn ban_removes_member_and_blocks_rejoin() {
    // Banning a current member deletes the member record together with
    // creating the ban, and a banned user cannot rejoin.
    let mut store = Store::new();
    let sid = server_with_owner(&mut store, 1);
    assert_eq!(store.join(sid, 2, 11), Ok(()));
    assert_eq!(store.ban(1, sid, 2, String::from("spam")), Ok(()));
    assert!(store.find_member(sid, 2).is_none());
    assert!(store.find_ban(sid, 2).is_some());
    assert_eq!(store.join(sid, 2, 12), Err(Error::Banned));
}

#[test]
fn unban_allows_rejoin() {
    let mut store = Store::new();
    let sid = server_with_owner(&mut store, 1);
    assert_eq!(store.join(sid, 2, 11), Ok(()));
    assert_eq!(store.ban(1, sid, 2, String::from("spam")), Ok(()));
    assert_eq!(store.unban(1, sid, 2), Ok(()));
    assert!(store.find_ban(sid, 2).is_none());
    assert_eq!(store.join(sid, 2, 13), Ok(()));
}

#[test]
fn owner_cannot_leave_or_be_kicked_or_banned() {
    let mut store = Store::new();
    let sid = server_with_owner(&mut store, 1);
    assert_eq!(store.leave(sid, 1), Err(Error::OwnerCannotLeave));
    assert_eq!(store.kick(1, sid, 1), Err(Error::OwnerCannotLeave));
    assert_eq!(store.ban(1, sid, 1, String::from("no")), Err(Error::OwnerCannotLeave));
}

#[test]
fn kick_requires_permission() {
    let mut store = Store::new();
    let sid = server_with_owner(&mut store, 1);
    assert_eq!(store.join(sid, 2, 11), Ok(()));
    assert_eq!(store.join(sid, 3, 12), Ok(()));
    // User 2 holds no role with the kick bit.
    assert_eq!(store.kick(2, sid, 3), Err(Error::Forbidden));
    assert_eq!(store.kick(1, sid, 3), Ok(()));
    assert!(store.find_member(sid, 3).is_none());
}

#[test]
fn ban_requires_strictly_higher_rank() {
    let mut store = Store::new();
    let sid = server_with_owner(&mut store, 1);
    let moderator = store
        .create_role(1, sid, 5, P_BAN_MEMBERS | P_KICK_MEMBERS, 0)
        .unwrap();
    let admin = store.create_role(1, sid, 0, ALL_PERMISSIONS, 0).unwrap();
    assert_eq!(store.join(sid, 2, 11), Ok(()));
    assert_eq!(store.join(sid, 3, 12), Ok(()));
    assert_eq!(store.assign_role(1, sid, 2, moderator), Ok(()));
    assert_eq!(store.assign_role(1, sid, 3, admin), Ok(()));
    // The moderator (rank 5) cannot ban the admin (rank 0).
    assert_eq!(
        store.ban(2, sid, 3, String::from("rank")),
        Err(Error::InsufficientRank)
    );
    // The admin (rank 0) can ban the moderator (rank 5).
    assert_eq!(store.ban(3, sid, 2, String::from("rank")), Ok(()));
    assert!(store.find_ban(sid, 2).is_some());
}

#[test]
fn ban_without_bit_is_forbidden() {
    let mut store = Store::new();
    let sid = server_with_owner(&mut store, 1);
    assert_eq!(store.join(sid, 2, 11), Ok(()));
    assert_eq!(store.join(sid, 3, 12), Ok(()));
    assert_eq!(store.ban(2, sid, 3, String::from("no bit")), Err(Error::Forbidden));
}

#[test]
fn revoke_role_removes_it() {
    let mut store = Store::new();
    let sid = server_with_owner(&mut store, 1);
    let role = store.create_role(1, sid, 3, P_SEND_MESSAGE, 0).unwrap();
    assert_eq!(store.join(sid, 2, 11), Ok(()));
    assert_eq!(store.assign_role(1, sid, 2, role), Ok(()));
    let mi = store.find_member(sid, 2).unwrap();
    assert_eq!(store.members[mi].roles.len(), 1);
    assert_eq!(store.revoke_role(1, sid, 2, role), Ok(()));
    let mi = store.find_member(sid, 2).unwrap();
    assert_eq!(store.members[mi].roles.len(), 0);
}

#[test]
fn assign_role_needs_existing_role() {
    let mut store = Store::new();
    let sid = server_with_owner(&mut store, 1);
    assert_eq!(store.join(sid, 2, 11), Ok(()));
    assert_eq!(store.assign_role(1, sid, 2, 999), Err(Error::NotFound));
}

#[test]
fn transfer_ownership_lets_old_owner_leave() {
    let mut store = Store::new();
    let sid = server_with_owner(&mut store, 1);
    assert_eq!(store.join(sid, 2, 11), Ok(()));
    assert_eq!(store.transfer_ownership(2, sid, 2), Err(Error::Forbidden));
    assert_eq!(store.transfer_ownership(1, sid, 2), Ok(()));
    assert_eq!(store.leave(sid, 1), Ok(()));
    assert!(store.find_member(sid, 1).is_none());
    assert_eq!(store.leave(sid, 2), Err(Error::OwnerCannotLeave));
}
