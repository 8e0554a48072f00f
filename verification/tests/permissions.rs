use revolt_core::perms::{
    resolve_channel, resolve_dm, resolve_server, Overwrite, Role, Subject, ALL_PERMISSIONS,
    DM_BASE, P_BAN_MEMBERS, P_REACT, P_SEND_MESSAGE,
};

#[test]
fn owner_gets_everything() {
    let roles: Vec<Role> = Vec::new();
    let held: Vec<u64> = Vec::new();
    assert_eq!(resolve_server(1, 0, &roles, 1, &held), ALL_PERMISSIONS);
}

#[test]
fn no_roles_fall_through_to_default() {
    let roles: Vec<Role> = Vec::new();
    let held: Vec<u64> = Vec::new();
    assert_eq!(
        resolve_server(1, P_SEND_MESSAGE, &roles, 2, &held),
        P_SEND_MESSAGE
    );
}

#[test]
fn stale_role_reference_contributes_nothing() {
    let roles: Vec<Role> = Vec::new();
    let held = vec![42u64];
    assert_eq!(resolve_server(1, P_REACT, &roles, 2, &held), P_REACT);
}

#[test]
fn admin_and_member_roles_fold_to_all() {
    // Role "Admin" (rank 0, allow everything) and role "Member"
    // (rank 10, allow send, deny ban) held together resolve to the
    // full bitset: the admin role, being of lower rank, is applied
    // last and wins.
    let roles = vec![
        Role { id: 1, rank: 0, allow: ALL_PERMISSIONS, deny: 0 },
        Role { id: 2, rank: 10, allow: P_SEND_MESSAGE, deny: P_BAN_MEMBERS },
    ];
    let held = vec![1u64, 2u64];
    assert_eq!(resolve_server(99, 0, &roles, 7, &held), ALL_PERMISSIONS);
}

#[test]
fn lower_rank_deny_overrides_higher_rank_allow() {
    let roles = vec![
        Role { id: 1, rank: 0, allow: 0, deny: P_BAN_MEMBERS },
        Role { id: 2, rank: 10, allow: P_BAN_MEMBERS, deny: 0 },
    ];
    let held = vec![1u64, 2u64];
    assert_eq!(resolve_server(99, 0, &roles, 7, &held), 0);
}

#[test]
fn equal_rank_ties_break_by_lower_id() {
    let roles = vec![
        Role { id: 1, rank: 4, allow: P_REACT, deny: 0 },
        Role { id: 2, rank: 4, allow: 0, deny: P_REACT },
    ];
    let held = vec![1u64, 2u64];
    // Id 1 has higher authority at equal rank, so its allow applies
    // last and wins over the deny of id 2.
    assert_eq!(resolve_server(99, 0, &roles, 7, &held), P_REACT);
}

#[test]
fn non_member_gets_nothing_in_server_channel() {
    let roles: Vec<Role> = Vec::new();
    let held: Vec<u64> = Vec::new();
    let ows = vec![Overwrite { subject: Subject::User(2), allow: ALL_PERMISSIONS, deny: 0 }];
    assert_eq!(
        resolve_channel(1, ALL_PERMISSIONS, &roles, 2, false, &held, &ows),
        0
    );
}

#[test]
fn user_overwrite_outranks_role_overwrite_and_server_level() {
    let roles = vec![Role { id: 1, rank: 0, allow: 0, deny: 0 }];
    let held = vec![1u64];
    let ows = vec![
        Overwrite { subject: Subject::Role(1), allow: P_SEND_MESSAGE, deny: 0 },
        Overwrite { subject: Subject::User(2), allow: 0, deny: P_SEND_MESSAGE },
    ];
    // The server level and the role overwrite both grant send; the
    // user overwrite denies it and has the final say.
    assert_eq!(
        resolve_channel(1, P_SEND_MESSAGE, &roles, 2, true, &held, &ows),
        0
    );
}

#[test]
fn role_overwrite_outranks_server_level() {
    let roles = vec![Role { id: 1, rank: 0, allow: 0, deny: 0 }];
    let held = vec![1u64];
    let ows = vec![Overwrite { subject: Subject::Role(1), allow: P_SEND_MESSAGE, deny: 0 }];
    assert_eq!(
        resolve_channel(1, 0, &roles, 2, true, &held, &ows),
        P_SEND_MESSAGE
    );
}

#[test]
fn stale_overwrite_subject_contributes_nothing() {
    let roles: Vec<Role> = Vec::new();
    let held = vec![42u64];
    let ows = vec![Overwrite { subject: Subject::Role(42), allow: ALL_PERMISSIONS, deny: 0 }];
    assert_eq!(resolve_channel(1, P_REACT, &roles, 2, true, &held, &ows), P_REACT);
}

#[test]
fn dm_recipients_get_the_base_and_strangers_nothing() {
    let recipients = vec![2u64, 3u64];
    let ows: Vec<Overwrite> = Vec::new();
    assert_eq!(resolve_dm(&recipients, 2, &ows), DM_BASE);
    assert_eq!(resolve_dm(&recipients, 9, &ows), 0);
}
