//! Permission model: bitsets, ranked roles, channel overwrites, and the
//! resolver that computes an actor's effective permissions.
//!
//! Permissions are a pair of `u64` bitsets per source (explicit allow,
//! explicit deny; an unset bit in both inherits).  Sources are folded in
//! precedence order: the source applied last wins, and a lower rank
//! (ties broken by id) means higher authority, hence applied later.

use vstd::prelude::*;

verus! {

/// Every permission bit set: the bitset of a server owner.
pub const ALL_PERMISSIONS: u64 = 0xFFFF_FFFF_FFFF_FFFF;

/// Permission to send a message in a channel.
pub const P_SEND_MESSAGE: u64 = 0x1;

/// Permission to react to messages.
pub const P_REACT: u64 = 0x2;

/// Permission to kick members from a server.
pub const P_KICK_MEMBERS: u64 = 0x4;

/// Permission to ban and unban users.
pub const P_BAN_MEMBERS: u64 = 0x8;

/// Permission to assign and revoke roles.
pub const P_MANAGE_ROLES: u64 = 0x10;

/// Permission to create, edit and delete channels and their overwrites.
pub const P_MANAGE_CHANNELS: u64 = 0x20;

/// Permission to edit or delete messages of other authors.
pub const P_MANAGE_MESSAGES: u64 = 0x40;

/// Base bitset of a serverless (direct-message or group) channel:
/// recipients may message and react, nothing more.
pub const DM_BASE: u64 = 0x3;

/// A ranked role: a server-scoped source of allow/deny bits.
/// Lower `rank` means higher authority; ties are broken by `id`
/// (lower id wins).
#[derive(Clone, Copy, PartialEq, Eq, Structural, Debug)]
pub struct Role {
    pub id: u64,
    pub rank: u32,
    pub allow: u64,
    pub deny: u64,
}

/// The subject of a channel overwrite: one role or one user.
#[derive(Clone, Copy, PartialEq, Eq, Structural, Debug)]
pub enum Subject {
    Role(u64),
    User(u64),
}

/// A channel-scoped overwrite: allow/deny bits layered over the
/// subject's ambient authority.
#[derive(Clone, Copy, PartialEq, Eq, Structural, Debug)]
pub struct Overwrite {
    pub subject: Subject,
    pub allow: u64,
    pub deny: u64,
}

pub open spec fn is_role_subject(s: Subject) -> bool {
    match s {
        Subject::Role(_) => true,
        Subject::User(_) => false,
    }
}

pub open spec fn subject_id(s: Subject) -> u64 {
    match s {
        Subject::Role(id) => id,
        Subject::User(id) => id,
    }
}

/// A subject encoded as a pair of integers, injectively.
pub open spec fn subject_pair(s: Subject) -> (u64, u64) {
    match s {
        Subject::Role(id) => (0, id),
        Subject::User(id) => (1, id),
    }
}

/// The pair encoding distinguishes distinct subjects.
pub proof fn lemma_subject_pair_injective(a: Subject, b: Subject)
    ensures
        a != b ==> subject_pair(a) != subject_pair(b),
{
}

/// `a` is applied no later than `b` in the fold: `a` has no higher
/// authority than `b`.
pub open spec fn applies_before(a: Role, b: Role) -> bool {
    a.rank > b.rank || (a.rank == b.rank && a.id >= b.id)
}

/// One fold step: set the allow bits, then clear the deny bits.
/// Within one source, deny wins over allow.
pub open spec fn apply_source(v: u64, r: Role) -> u64 {
    (v | r.allow) & !r.deny
}

/// Fold a sequence of sources over a base bitset, first element first:
/// the last element has the final say.
pub open spec fn fold_sources(v: u64, s: Seq<Role>) -> u64
    decreases s.len(),
{
    if s.len() == 0 {
        v
    } else {
        apply_source(fold_sources(v, s.drop_last()), s.last())
    }
}

/// Insert a role into a sequence sorted by application order.
pub open spec fn insert_sorted(s: Seq<Role>, r: Role) -> Seq<Role>
    decreases s.len(),
{
    if s.len() == 0 {
        seq![r]
    } else if applies_before(s.last(), r) {
        s.push(r)
    } else {
        insert_sorted(s.drop_last(), r).push(s.last())
    }
}

/// Canonical application order of a set of roles: insertion sort by
/// `applies_before`, so the highest-authority role ends up last.
pub open spec fn sort_sources(s: Seq<Role>) -> Seq<Role>
    decreases s.len(),
{
    if s.len() == 0 {
        s
    } else {
        insert_sorted(sort_sources(s.drop_last()), s.last())
    }
}

/// The sequence is in application order.
pub open spec fn sorted(s: Seq<Role>) -> bool {
    forall|i: int, j: int| 0 <= i < j < s.len() ==> applies_before(s[i], s[j])
}

/// The roles of `roles` whose id the member holds; a held id that
/// matches no role contributes nothing.
pub open spec fn held_roles(roles: Seq<Role>, held: Seq<u64>) -> Seq<Role> {
    roles.filter(|r: Role| held.contains(r.id))
}

/// No two roles share an id.
pub open spec fn distinct_role_ids(roles: Seq<Role>) -> bool {
    forall|i: int, j: int| 0 <= i < j < roles.len() ==> roles[i].id != roles[j].id
}

/// Some role of the sequence carries this id.
pub open spec fn has_role(roles: Seq<Role>, id: u64) -> bool {
    exists|i: int| 0 <= i < roles.len() && roles[i].id == id
}

/// The role carrying this id (meaningful under `distinct_role_ids`
/// when `has_role` holds).
pub open spec fn role_with_id(roles: Seq<Role>, id: u64) -> Role {
    roles[choose|i: int| 0 <= i < roles.len() && roles[i].id == id]
}

/// No two overwrites share a subject.
pub open spec fn distinct_subjects(ows: Seq<Overwrite>) -> bool {
    forall|i: int, j: int| 0 <= i < j < ows.len() ==> ows[i].subject != ows[j].subject
}

/// Some overwrite addresses this user.
pub open spec fn has_user_overwrite(ows: Seq<Overwrite>, user: u64) -> bool {
    exists|i: int| 0 <= i < ows.len() && ows[i].subject == Subject::User(user)
}

/// The overwrite addressing this user (meaningful under
/// `distinct_subjects` when `has_user_overwrite` holds).
pub open spec fn user_overwrite(ows: Seq<Overwrite>, user: u64) -> Overwrite {
    ows[choose|i: int| 0 <= i < ows.len() && ows[i].subject == Subject::User(user)]
}

/// An overwrite read as a fold source; the rank is that of the role it
/// references (0 for a user subject, which is applied last anyway).
pub open spec fn overwrite_as_source(ow: Overwrite, rank: u32) -> Role {
    Role { id: subject_id(ow.subject), rank: rank, allow: ow.allow, deny: ow.deny }
}

/// Whether a role overwrite applies to the actor: its subject is a role
/// the actor holds and that still exists in the server; a stale subject
/// contributes nothing.
pub open spec fn role_ow_applies(roles: Seq<Role>, held: Seq<u64>, ow: Overwrite) -> bool {
    is_role_subject(ow.subject) && held.contains(subject_id(ow.subject)) && has_role(
        roles,
        subject_id(ow.subject),
    )
}

/// The role overwrites that apply to the actor, each read as a fold
/// source ranked by the role it references.
pub open spec fn applicable_role_ows(roles: Seq<Role>, held: Seq<u64>, ows: Seq<Overwrite>) -> Seq<
    Role,
> {
    ows.filter(|ow: Overwrite| role_ow_applies(roles, held, ow)).map_values(
        |ow: Overwrite|
            overwrite_as_source(ow, role_with_id(roles, subject_id(ow.subject)).rank),
    )
}

/// Server-level authority of an actor: the owner bypasses everything;
/// anyone else folds their held roles in application order over the
/// server default.
pub open spec fn spec_resolve_server(
    owner: u64,
    default_perms: u64,
    roles: Seq<Role>,
    actor: u64,
    held: Seq<u64>,
) -> u64 {
    if actor == owner {
        ALL_PERMISSIONS
    } else {
        fold_sources(default_perms, sort_sources(held_roles(roles, held)))
    }
}

/// Channel-level authority in a server-scoped channel.  Non-members get
/// the empty bitset; the owner gets everything; anyone else starts from
/// their server-level bitset, folds the applicable role overwrites in
/// application order, and finally the user overwrite, which has the
/// final say.
pub open spec fn spec_resolve_channel(
    owner: u64,
    default_perms: u64,
    roles: Seq<Role>,
    actor: u64,
    is_member: bool,
    held: Seq<u64>,
    ows: Seq<Overwrite>,
) -> u64 {
    if actor == owner {
        ALL_PERMISSIONS
    } else if !is_member {
        0
    } else {
        let base = spec_resolve_server(owner, default_perms, roles, actor, held);
        let after_roles = fold_sources(base, sort_sources(applicable_role_ows(roles, held, ows)));
        if has_user_overwrite(ows, actor) {
            apply_source(after_roles, overwrite_as_source(user_overwrite(ows, actor), 0))
        } else {
            after_roles
        }
    }
}

/// Channel-level authority in a serverless (direct-message or group)
/// channel: recipients get the fixed base, adjusted by their user
/// overwrite if one exists; non-recipients get nothing.
pub open spec fn spec_resolve_dm(recipients: Seq<u64>, actor: u64, ows: Seq<Overwrite>) -> u64 {
    if !recipients.contains(actor) {
        0
    } else if has_user_overwrite(ows, actor) {
        apply_source(DM_BASE, overwrite_as_source(user_overwrite(ows, actor), 0))
    } else {
        DM_BASE
    }
}

fn applies_before_exec(a: &Role, b: &Role) -> (r: bool)
    ensures
        r == applies_before(*a, *b),
{
    a.rank > b.rank || (a.rank == b.rank && a.id >= b.id)
}

/// Whether the vector contains this id.
pub fn contains_u64(v: &Vec<u64>, x: u64) -> (r: bool)
    ensures
        r == v@.contains(x),
{
    let mut i: usize = 0;
    while i < v.len()
        invariant
            0 <= i <= v@.len(),
            forall|k: int| 0 <= k < i ==> v@[k] != x,
        decreases v@.len() - i,
    {
        if v[i] == x {
            return true;
        }
        i += 1;
    }
    false
}

fn insert_vec(v: Vec<Role>, r: Role) -> (out: Vec<Role>)
    ensures
        out@ == insert_sorted(v@, r),
    decreases v@.len(),
{
    let mut v = v;
    if v.len() == 0 {
        v.push(r);
        proof {
            assert(v@ =~= seq![r]);
        }
        v
    } else {
        let last = v[v.len() - 1];
        if applies_before_exec(&last, &r) {
            v.push(r);
            v
        } else {
            let popped = v.pop().unwrap();
            let mut out = insert_vec(v, r);
            out.push(popped);
            out
        }
    }
}

fn sort_vec(v: &Vec<Role>) -> (out: Vec<Role>)
    ensures
        out@ == sort_sources(v@),
{
    let mut out: Vec<Role> = Vec::new();
    let mut i: usize = 0;
    proof {
        assert(v@.subrange(0, 0) =~= Seq::<Role>::empty());
    }
    while i < v.len()
        invariant
            0 <= i <= v@.len(),
            out@ == sort_sources(v@.subrange(0, i as int)),
        decreases v@.len() - i,
    {
        proof {
            assert(v@.subrange(0, i + 1).drop_last() =~= v@.subrange(0, i as int));
            assert(v@.subrange(0, i + 1).last() == v@[i as int]);
        }
        out = insert_vec(out, v[i]);
        i += 1;
    }
    proof {
        assert(v@.subrange(0, v@.len() as int) =~= v@);
    }
    out
}

fn fold_vec(base: u64, v: &Vec<Role>) -> (p: u64)
    ensures
        p == fold_sources(base, v@),
{
    let mut acc = base;
    let mut i: usize = 0;
    proof {
        assert(v@.subrange(0, 0) =~= Seq::<Role>::empty());
    }
    while i < v.len()
        invariant
            0 <= i <= v@.len(),
            acc == fold_sources(base, v@.subrange(0, i as int)),
        decreases v@.len() - i,
    {
        proof {
            assert(v@.subrange(0, i + 1).drop_last() =~= v@.subrange(0, i as int));
            assert(v@.subrange(0, i + 1).last() == v@[i as int]);
        }
        acc = (acc | v[i].allow) & !v[i].deny;
        i += 1;
    }
    proof {
        assert(v@.subrange(0, v@.len() as int) =~= v@);
    }
    acc
}

/// The roles of `roles` whose id appears in `held`.
pub fn gather_held(roles: &Vec<Role>, held: &Vec<u64>) -> (out: Vec<Role>)
    ensures
        out@ == held_roles(roles@, held@),
{
    let mut out: Vec<Role> = Vec::new();
    let mut i: usize = 0;
    proof {
        reveal(Seq::filter);
        assert(roles@.subrange(0, 0) =~= Seq::<Role>::empty());
    }
    while i < roles.len()
        invariant
            0 <= i <= roles@.len(),
            out@ == held_roles(roles@.subrange(0, i as int), held@),
        decreases roles@.len() - i,
    {
        proof {
            reveal(Seq::filter);
            assert(roles@.subrange(0, i + 1).drop_last() =~= roles@.subrange(0, i as int));
            assert(roles@.subrange(0, i + 1).last() == roles@[i as int]);
        }
        if contains_u64(held, roles[i].id) {
            out.push(roles[i]);
        }
        i += 1;
    }
    proof {
        assert(roles@.subrange(0, roles@.len() as int) =~= roles@);
    }
    out
}

/// The role carrying this id, if any.
pub fn find_role(roles: &Vec<Role>, id: u64) -> (r: Option<Role>)
    ensures
        match r {
            Some(role) => roles@.contains(role) && role.id == id,
            None => !has_role(roles@, id),
        },
{
    let mut i: usize = 0;
    while i < roles.len()
        invariant
            0 <= i <= roles@.len(),
            forall|k: int| 0 <= k < i ==> roles@[k].id != id,
        decreases roles@.len() - i,
    {
        if roles[i].id == id {
            return Some(roles[i]);
        }
        i += 1;
    }
    None
}

/// The overwrite addressing this user, if any.
pub fn find_user_overwrite(ows: &Vec<Overwrite>, user: u64) -> (r: Option<Overwrite>)
    ensures
        match r {
            Some(ow) => ows@.contains(ow) && ow.subject == Subject::User(user),
            None => !has_user_overwrite(ows@, user),
        },
{
    let mut i: usize = 0;
    while i < ows.len()
        invariant
            0 <= i <= ows@.len(),
            forall|k: int| 0 <= k < i ==> ows@[k].subject != Subject::User(user),
        decreases ows@.len() - i,
    {
        if let Subject::User(u) = ows[i].subject {
            if u == user {
                return Some(ows[i]);
            }
        }
        i += 1;
    }
    None
}

fn gather_role_ows(roles: &Vec<Role>, held: &Vec<u64>, ows: &Vec<Overwrite>) -> (out: Vec<Role>)
    requires
        distinct_role_ids(roles@),
    ensures
        out@ == applicable_role_ows(roles@, held@, ows@),
{
    let mut out: Vec<Role> = Vec::new();
    let mut i: usize = 0;
    proof {
        reveal(Seq::filter);
        assert(ows@.subrange(0, 0) =~= Seq::<Overwrite>::empty());
        assert(out@ =~= applicable_role_ows(roles@, held@, ows@.subrange(0, 0)));
    }
    while i < ows.len()
        invariant
            0 <= i <= ows@.len(),
            distinct_role_ids(roles@),
            out@ == applicable_role_ows(roles@, held@, ows@.subrange(0, i as int)),
        decreases ows@.len() - i,
    {
        let ghost pre = ows@.subrange(0, i as int);
        let ghost pred = |ow: Overwrite| role_ow_applies(roles@, held@, ow);
        proof {
            reveal(Seq::filter);
            assert(ows@.subrange(0, i + 1).drop_last() =~= pre);
            assert(ows@.subrange(0, i + 1).last() == ows@[i as int]);
        }
        let ow = ows[i];
        let mut applies = false;
        let mut rank: u32 = 0;
        if let Subject::Role(rid) = ow.subject {
            if contains_u64(held, rid) {
                if let Some(role) = find_role(roles, rid) {
                    applies = true;
                    rank = role.rank;
                    proof {
                        let j = choose|j: int|
                            0 <= j < roles@.len() && roles@[j].id == rid;
                        assert(roles@.contains(role));
                        let kidx = choose|k: int| 0 <= k < roles@.len() && roles@[k] == role;
                        assert(roles@[kidx] == role);
                        assert(role_with_id(roles@, rid) == roles@[j]);
                        assert(kidx == j);
                    }
                }
            }
        }
        proof {
            assert(applies == pred(ows@[i as int]));
        }
        if applies {
            out.push(Role { id: match ow.subject {
                Subject::Role(rid) => rid,
                Subject::User(uid) => uid,
            }, rank: rank, allow: ow.allow, deny: ow.deny });
        }
        proof {
            assert(out@ =~= applicable_role_ows(roles@, held@, ows@.subrange(0, i + 1)));
        }
        i += 1;
    }
    proof {
        assert(ows@.subrange(0, ows@.len() as int) =~= ows@);
    }
    out
}

/// Server-level permission resolution.  Pure in its inputs, never
/// fails: stale held role ids contribute nothing.
pub fn resolve_server(
    owner: u64,
    default_perms: u64,
    roles: &Vec<Role>,
    actor: u64,
    held: &Vec<u64>,
) -> (p: u64)
    ensures
        p == spec_resolve_server(owner, default_perms, roles@, actor, held@),
{
    if actor == owner {
        return ALL_PERMISSIONS;
    }
    let mine = gather_held(roles, held);
    let ordered = sort_vec(&mine);
    fold_vec(default_perms, &ordered)
}

/// Channel-level permission resolution for a server-scoped channel.
/// Pure in its inputs, never fails: stale overwrite subjects contribute
/// nothing, and overwrites never grant access to non-members.
pub fn resolve_channel(
    owner: u64,
    default_perms: u64,
    roles: &Vec<Role>,
    actor: u64,
    is_member: bool,
    held: &Vec<u64>,
    ows: &Vec<Overwrite>,
) -> (p: u64)
    requires
        distinct_role_ids(roles@),
        distinct_subjects(ows@),
    ensures
        p == spec_resolve_channel(owner, default_perms, roles@, actor, is_member, held@, ows@),
{
    if actor == owner {
        return ALL_PERMISSIONS;
    }
    if !is_member {
        return 0;
    }
    let base = resolve_server(owner, default_perms, roles, actor, held);
    let row = gather_role_ows(roles, held, ows);
    let ordered = sort_vec(&row);
    let after_roles = fold_vec(base, &ordered);
    match find_user_overwrite(ows, actor) {
        Some(ow) => {
            proof {
                let j = choose|j: int|
                    0 <= j < ows@.len() && ows@[j].subject == Subject::User(actor);
                let kidx = choose|k: int| 0 <= k < ows@.len() && ows@[k] == ow;
                assert(ows@[kidx] == ow);
                assert(user_overwrite(ows@, actor) == ows@[j]);
                assert(kidx == j);
            }
            (after_roles | ow.allow) & !ow.deny
        },
        None => after_roles,
    }
}

/// Channel-level permission resolution for a serverless channel.
pub fn resolve_dm(recipients: &Vec<u64>, actor: u64, ows: &Vec<Overwrite>) -> (p: u64)
    requires
        distinct_subjects(ows@),
    ensures
        p == spec_resolve_dm(recipients@, actor, ows@),
{
    if !contains_u64(recipients, actor) {
        return 0;
    }
    match find_user_overwrite(ows, actor) {
        Some(ow) => {
            proof {
                let j = choose|j: int|
                    0 <= j < ows@.len() && ows@[j].subject == Subject::User(actor);
                let kidx = choose|k: int| 0 <= k < ows@.len() && ows@[k] == ow;
                assert(ows@[kidx] == ow);
                assert(user_overwrite(ows@, actor) == ows@[j]);
                assert(kidx == j);
            }
            (DM_BASE | ow.allow) & !ow.deny
        },
        None => DM_BASE,
    }
}

proof fn lemma_insert_sorted_props(s: Seq<Role>, r: Role)
    requires
        sorted(s),
    ensures
        sorted(insert_sorted(s, r)),
        insert_sorted(s, r).len() == s.len() + 1,
        insert_sorted(s, r).to_multiset() =~= s.to_multiset().insert(r),
        forall|k: int|
            0 <= k < insert_sorted(s, r).len() ==> insert_sorted(s, r)[k] == r || s.contains(
                insert_sorted(s, r)[k],
            ),
    decreases s.len(),
{
    broadcast use vstd::seq_lib::group_to_multiset_ensures;
    broadcast use vstd::multiset::group_multiset_axioms;

    let out = insert_sorted(s, r);
    if s.len() == 0 {
        assert(out =~= Seq::<Role>::empty().push(r));
        assert(out.to_multiset() =~= s.to_multiset().insert(r));
    } else if applies_before(s.last(), r) {
        assert(out == s.push(r));
        assert forall|i: int, j: int| 0 <= i < j < out.len() implies applies_before(
            out[i],
            out[j],
        ) by {
            if j == s.len() {
                assert(applies_before(s[i], s.last()));
            }
        }
    } else {
        let t = s.drop_last();
        let u = insert_sorted(t, r);
        assert(sorted(t));
        lemma_insert_sorted_props(t, r);
        assert(out == u.push(s.last()));
        assert forall|i: int, j: int| 0 <= i < j < out.len() implies applies_before(
            out[i],
            out[j],
        ) by {
            if j == u.len() {
                if u[i] == r {
                    assert(applies_before(r, s.last()));
                } else {
                    let k = choose|k: int| 0 <= k < t.len() && t[k] == u[i];
                    assert(applies_before(s[k], s.last()));
                }
            }
        }
        assert(s =~= t.push(s.last()));
        assert(s.to_multiset() =~= t.to_multiset().insert(s.last()));
        assert(out.to_multiset() =~= t.to_multiset().insert(r).insert(s.last()));
        assert(out.to_multiset() =~= s.to_multiset().insert(r)) by {
            assert forall|x: Role|
                t.to_multiset().insert(r).insert(s.last()).count(x) == t.to_multiset().insert(
                    s.last(),
                ).insert(r).count(x) by {}
        }
        assert forall|k: int| 0 <= k < out.len() implies out[k] == r || s.contains(out[k]) by {
            if k < u.len() {
                if u[k] != r {
                    let j = choose|j: int| 0 <= j < t.len() && t[j] == u[k];
                    assert(s[j] == out[k]);
                }
            } else {
                assert(out[k] == s.last());
            }
        }
    }
}

/// The canonical application order is sorted and is a permutation of
/// its input: `sort_sources` reorders the given roles by precedence and
/// neither drops nor invents one.
pub proof fn lemma_sort_sources_props(s: Seq<Role>)
    ensures
        sorted(sort_sources(s)),
        sort_sources(s).len() == s.len(),
        sort_sources(s).to_multiset() =~= s.to_multiset(),
    decreases s.len(),
{
    broadcast use vstd::seq_lib::group_to_multiset_ensures;
    broadcast use vstd::multiset::group_multiset_axioms;

    if s.len() > 0 {
        let t = s.drop_last();
        lemma_sort_sources_props(t);
        lemma_insert_sorted_props(sort_sources(t), s.last());
        assert(s =~= t.push(s.last()));
        assert(s.to_multiset() =~= t.to_multiset().insert(s.last()));
    }
}

/// The application order is unique: two arrangements of the same roles
/// that are both sorted by precedence are equal outright, provided no
/// two of the roles share an id.  The precedence fold is therefore
/// well-defined on the role set itself.
pub proof fn lemma_application_order_unique(s1: Seq<Role>, s2: Seq<Role>)
    requires
        sorted(s1),
        sorted(s2),
        distinct_role_ids(s1),
        s1.to_multiset() =~= s2.to_multiset(),
    ensures
        s1 =~= s2,
    decreases s1.len(),
{
    broadcast use vstd::seq_lib::group_to_multiset_ensures;
    broadcast use vstd::multiset::group_multiset_axioms;

    assert(s1.len() == s1.to_multiset().len());
    assert(s2.len() == s2.to_multiset().len());
    if s1.len() > 0 {
        let a = s1.last();
        let b = s2.last();
        assert(s1[s1.len() - 1] == a);
        assert(s1.contains(a));
        assert(s2.to_multiset().count(a) > 0);
        assert(s2.contains(a));
        let ka = choose|k: int| 0 <= k < s2.len() && s2[k] == a;
        assert(s2[s2.len() - 1] == b);
        assert(s2.contains(b));
        assert(s1.to_multiset().count(b) > 0);
        assert(s1.contains(b));
        let kb = choose|k: int| 0 <= k < s1.len() && s1[k] == b;
        assert(a == b) by {
            if ka == s2.len() - 1 {
            } else if kb == s1.len() - 1 {
            } else {
                assert(applies_before(a, b));
                assert(applies_before(b, a));
                assert(a.rank == b.rank && a.id == b.id);
                assert(s1[kb].id == s1[s1.len() - 1].id);
                assert(false);
            }
        }
        let t1 = s1.drop_last();
        let t2 = s2.drop_last();
        assert(s1.remove(s1.len() - 1) =~= t1);
        assert(s2.remove(s2.len() - 1) =~= t2);
        assert(t1.to_multiset() =~= s1.to_multiset().remove(a));
        assert(t2.to_multiset() =~= s2.to_multiset().remove(a));
        assert(t1.to_multiset() =~= t2.to_multiset());
        assert(sorted(t1) && sorted(t2) && distinct_role_ids(t1));
        lemma_application_order_unique(t1, t2);
        assert forall|i: int| 0 <= i < s1.len() implies s1[i] == s2[i] by {
            if i < s1.len() - 1 {
                assert(t1[i] == t2[i]);
            }
        }
        assert(s1 =~= s2);
    } else {
        assert(s1 =~= s2);
    }
}

/// For an actor who does not own the server, the server-level result
/// is the fold over any arrangement of the held roles that is sorted
/// by precedence — there is exactly one such arrangement, so the
/// fold order of the resolution is forced.
pub proof fn lemma_resolve_matches_any_application_order(
    owner: u64,
    default_perms: u64,
    roles: Seq<Role>,
    actor: u64,
    held: Seq<u64>,
    s: Seq<Role>,
)
    requires
        actor != owner,
        distinct_role_ids(roles),
        sorted(s),
        s.to_multiset() =~= held_roles(roles, held).to_multiset(),
    ensures
        spec_resolve_server(owner, default_perms, roles, actor, held) == fold_sources(
            default_perms,
            s,
        ),
{
    broadcast use vstd::seq_lib::group_to_multiset_ensures;
    broadcast use vstd::multiset::group_multiset_axioms;

    let hr = held_roles(roles, held);
    lemma_sort_sources_props(hr);
    let canon = sort_sources(hr);
    crate::table::lemma_filter_in(roles, |r: Role| held.contains(r.id));
    crate::table::lemma_filter_distinct(
        roles,
        |r: Role| held.contains(r.id),
        |r: Role| (r.id, 0u64),
    );
    assert(distinct_role_ids(hr));
    assert(hr.no_duplicates()) by {
        assert forall|i: int, j: int|
            0 <= i < hr.len() && 0 <= j < hr.len() && i != j implies hr[i] != hr[j] by {
            if i < j {
                assert(hr[i].id != hr[j].id);
            } else {
                assert(hr[j].id != hr[i].id);
            }
        }
    }
    hr.lemma_multiset_has_no_duplicates();
    canon.lemma_multiset_has_no_duplicates_conv();
    assert(distinct_role_ids(canon)) by {
        assert forall|i: int, j: int|
            0 <= i < j < canon.len() implies canon[i].id != canon[j].id by {
            if canon[i].id == canon[j].id {
                assert(canon.contains(canon[i]) && canon.contains(canon[j]));
                assert(hr.to_multiset().count(canon[i]) > 0);
                assert(hr.contains(canon[i]));
                assert(hr.to_multiset().count(canon[j]) > 0);
                assert(hr.contains(canon[j]));
                let ki = choose|k: int| 0 <= k < hr.len() && hr[k] == canon[i];
                let kj = choose|k: int| 0 <= k < hr.len() && hr[k] == canon[j];
                if ki != kj {
                    assert(hr[ki].id != hr[kj].id);
                    assert(false);
                } else {
                    assert(canon[i] == canon[j]);
                    assert(canon.no_duplicates());
                    assert(false);
                }
            }
        }
    }
    lemma_application_order_unique(canon, s);
}

proof fn lemma_apply_bits(v: u64, a: u64, d: u64, m: u64)
    ensures
        d & m == m ==> ((v | a) & !d) & m == 0,
        a & m == m && d & m == 0 ==> ((v | a) & !d) & m == m,
        a & m == 0 && d & m == 0 ==> ((v | a) & !d) & m == v & m,
{
    assert(d & m == m ==> ((v | a) & !d) & m == 0) by (bit_vector);
    assert(a & m == m && d & m == 0 ==> ((v | a) & !d) & m == m) by (bit_vector);
    assert(a & m == 0 && d & m == 0 ==> ((v | a) & !d) & m == v & m) by (bit_vector);
}

/// A fold leaves untouched bits alone: if no source of the fold sets or
/// clears the bits of `m`, the result agrees with the base on `m`.
pub proof fn lemma_fold_untouched(v: u64, s: Seq<Role>, m: u64)
    requires
        forall|i: int| 0 <= i < s.len() ==> s[i].allow & m == 0 && s[i].deny & m == 0,
    ensures
        fold_sources(v, s) & m == v & m,
    decreases s.len(),
{
    if s.len() > 0 {
        let t = s.drop_last();
        lemma_fold_untouched(v, t, m);
        lemma_apply_bits(fold_sources(v, t), s.last().allow, s.last().deny, m);
    }
}

/// The last source of a fold that touches a bit decides it: whatever
/// came before, the result carries that source's verdict on `m`.
pub proof fn lemma_fold_last_toucher(v: u64, s: Seq<Role>, i: int, m: u64)
    requires
        0 <= i < s.len(),
        s[i].deny & m == m || (s[i].allow & m == m && s[i].deny & m == 0),
        forall|j: int| i < j < s.len() ==> s[j].allow & m == 0 && s[j].deny & m == 0,
    ensures
        fold_sources(v, s) & m == (if s[i].deny & m == m {
            0u64
        } else {
            m
        }),
    decreases s.len(),
{
    let t = s.drop_last();
    let r = s.last();
    if i == s.len() - 1 {
        lemma_apply_bits(fold_sources(v, t), r.allow, r.deny, m);
    } else {
        lemma_fold_last_toucher(v, t, i, m);
        lemma_apply_bits(fold_sources(v, t), r.allow, r.deny, m);
    }
}

/// A denied bit stays cleared unless a source applied strictly later in
/// the fold — under the canonical order, one of strictly higher
/// precedence — allows it again.
pub proof fn lemma_deny_overridden_only_later(v: u64, s: Seq<Role>, i: int, k: u64)
    requires
        k < 64,
        0 <= i < s.len(),
        s[i].deny & (1u64 << k) == (1u64 << k),
        fold_sources(v, s) & (1u64 << k) == (1u64 << k),
    ensures
        exists|j: int| i < j < s.len() && s[j].allow & (1u64 << k) == (1u64 << k),
    decreases s.len(),
{
    let m = 1u64 << k;
    assert(m != 0) by (bit_vector)
        requires
            k < 64,
            m == 1u64 << k,
    ;
    let t = s.drop_last();
    let r = s.last();
    let a = r.allow;
    let d = r.deny;
    assert(a & m == 0 || a & m == m) by (bit_vector)
        requires
            k < 64,
            m == 1u64 << k,
    ;
    if i == s.len() - 1 {
        lemma_apply_bits(fold_sources(v, t), a, d, m);
        assert(fold_sources(v, s) & m == 0);
    } else {
        if a & m == m {
            assert(i < s.len() - 1 < s.len() && s[s.len() - 1].allow & m == m);
        } else {
            let x = fold_sources(v, t);
            assert(((x | a) & !d) & m == m ==> x & m == m) by (bit_vector)
                requires
                    a & m == 0,
            ;
            lemma_deny_overridden_only_later(v, t, i, k);
            let j = choose|j: int| i < j < t.len() && t[j].allow & m == m;
            assert(i < j < s.len() && s[j].allow & m == m);
        }
    }
}

/// The server-level resolution is exactly the precedence fold: unless
/// the actor owns the server, the result is the fold of the actor's
/// held roles, reordered so that the lowest-precedence role is applied
/// first and the highest-precedence (lowest rank, ties to the lower id)
/// role is applied last and wins.
pub proof fn lemma_resolve_is_precedence_fold(
    owner: u64,
    default_perms: u64,
    roles: Seq<Role>,
    actor: u64,
    held: Seq<u64>,
)
    requires
        actor != owner,
    ensures
        spec_resolve_server(owner, default_perms, roles, actor, held) == fold_sources(
            default_perms,
            sort_sources(held_roles(roles, held)),
        ),
        sorted(sort_sources(held_roles(roles, held))),
        sort_sources(held_roles(roles, held)).to_multiset() =~= held_roles(
            roles,
            held,
        ).to_multiset(),
{
    lemma_sort_sources_props(held_roles(roles, held));
}

/// A deny bit of a held role survives into the server-level result only
/// if a role of strictly higher precedence allows the bit again.
pub proof fn lemma_server_deny_overridden_only_by_higher(
    owner: u64,
    default_perms: u64,
    roles: Seq<Role>,
    actor: u64,
    held: Seq<u64>,
    i: int,
    k: u64,
)
    requires
        actor != owner,
        k < 64,
        0 <= i < sort_sources(held_roles(roles, held)).len(),
        sort_sources(held_roles(roles, held))[i].deny & (1u64 << k) == (1u64 << k),
        spec_resolve_server(owner, default_perms, roles, actor, held) & (1u64 << k) == (1u64 << k),
    ensures
        exists|j: int|
            i < j < sort_sources(held_roles(roles, held)).len() && sort_sources(
                held_roles(roles, held),
            )[j].allow & (1u64 << k) == (1u64 << k),
{
    lemma_deny_overridden_only_later(default_perms, sort_sources(held_roles(roles, held)), i, k);
}

/// The user-subject overwrite has the final say at channel level: for a
/// member who does not own the server, a bit it denies is absent from
/// the result and a bit it allows (and does not deny) is present,
/// whatever the role overwrites and the server-level bitset said.
pub proof fn lemma_user_overwrite_outranks_all(
    owner: u64,
    default_perms: u64,
    roles: Seq<Role>,
    actor: u64,
    held: Seq<u64>,
    ows: Seq<Overwrite>,
    k: u64,
)
    requires
        actor != owner,
        k < 64,
        has_user_overwrite(ows, actor),
    ensures
        user_overwrite(ows, actor).deny & (1u64 << k) == (1u64 << k) ==> spec_resolve_channel(
            owner,
            default_perms,
            roles,
            actor,
            true,
            held,
            ows,
        ) & (1u64 << k) == 0,
        user_overwrite(ows, actor).allow & (1u64 << k) == (1u64 << k) && user_overwrite(
            ows,
            actor,
        ).deny & (1u64 << k) == 0 ==> spec_resolve_channel(
            owner,
            default_perms,
            roles,
            actor,
            true,
            held,
            ows,
        ) & (1u64 << k) == (1u64 << k),
{
    let m = 1u64 << k;
    let base = spec_resolve_server(owner, default_perms, roles, actor, held);
    let after_roles = fold_sources(base, sort_sources(applicable_role_ows(roles, held, ows)));
    let ow = user_overwrite(ows, actor);
    lemma_apply_bits(after_roles, ow.allow, ow.deny, m);
}

/// Role-subject overwrites outrank the server-level bitset: when the
/// actor has no user overwrite, the last role overwrite touching a bit
/// decides it; and when no overwrite touches the bit at all, the
/// channel result falls through to the server-level bitset.
pub proof fn lemma_role_overwrites_outrank_server(
    owner: u64,
    default_perms: u64,
    roles: Seq<Role>,
    actor: u64,
    held: Seq<u64>,
    ows: Seq<Overwrite>,
    i: int,
    k: u64,
)
    requires
        actor != owner,
        k < 64,
        !has_user_overwrite(ows, actor),
        0 <= i < sort_sources(applicable_role_ows(roles, held, ows)).len(),
        sort_sources(applicable_role_ows(roles, held, ows))[i].deny & (1u64 << k) == (1u64 << k)
            || (sort_sources(applicable_role_ows(roles, held, ows))[i].allow & (1u64 << k) == (1u64
            << k) && sort_sources(applicable_role_ows(roles, held, ows))[i].deny & (1u64 << k)
            == 0),
        forall|j: int|
            i < j < sort_sources(applicable_role_ows(roles, held, ows)).len() ==> sort_sources(
                applicable_role_ows(roles, held, ows),
            )[j].allow & (1u64 << k) == 0 && sort_sources(applicable_role_ows(roles, held, ows))[
                j
            ].deny & (1u64 << k) == 0,
    ensures
        spec_resolve_channel(owner, default_perms, roles, actor, true, held, ows) & (1u64 << k) == (
        if sort_sources(applicable_role_ows(roles, held, ows))[i].deny & (1u64 << k) == (1u64 << k) {
            0u64
        } else {
            1u64 << k
        }),
{
    let m = 1u64 << k;
    let base = spec_resolve_server(owner, default_perms, roles, actor, held);
    lemma_fold_last_toucher(base, sort_sources(applicable_role_ows(roles, held, ows)), i, m);
}

/// With no overwrite touching a bit, the channel-level result agrees
/// with the server-level bitset on it.
pub proof fn lemma_channel_falls_through_to_server(
    owner: u64,
    default_perms: u64,
    roles: Seq<Role>,
    actor: u64,
    held: Seq<u64>,
    ows: Seq<Overwrite>,
    k: u64,
)
    requires
        actor != owner,
        k < 64,
        !has_user_overwrite(ows, actor),
        forall|j: int|
            0 <= j < sort_sources(applicable_role_ows(roles, held, ows)).len() ==> sort_sources(
                applicable_role_ows(roles, held, ows),
            )[j].allow & (1u64 << k) == 0 && sort_sources(applicable_role_ows(roles, held, ows))[
                j
            ].deny & (1u64 << k) == 0,
    ensures
        spec_resolve_channel(owner, default_perms, roles, actor, true, held, ows) & (1u64 << k)
            == spec_resolve_server(owner, default_perms, roles, actor, held) & (1u64 << k),
{
    let m = 1u64 << k;
    let base = spec_resolve_server(owner, default_perms, roles, actor, held);
    lemma_fold_untouched(base, sort_sources(applicable_role_ows(roles, held, ows)), m);
}

} // verus!
