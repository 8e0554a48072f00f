//! Onboarding: validating the requested username and preparing the
//! first-login group channel.

use vstd::prelude::*;
use crate::Error;
use crate::store::{Store, ChannelKind};

verus! {

/// Data for completing onboarding.
pub struct DataOnboard {
    /// New username which will be used to identify the user on the
    /// platform.
    pub username: String,
}

/// Whether a regular-expression pattern compiles.
pub uninterp spec fn regex_ok(pattern: Seq<char>) -> bool;

/// Whether a compiled pattern matches a text.
pub uninterp spec fn regex_match(pattern: Seq<char>, text: Seq<char>) -> bool;

/// Relies on regex::Regex::new and regex::Regex::is_match: whether a
/// pattern compiles, and whether it then matches a text, depend on the
/// pattern and the text alone.
#[verifier::external_body]
fn regex_is_match(pattern: &str, text: &str) -> (r: Option<bool>)
    ensures
        r is Some <==> regex_ok(pattern@),
        r matches Some(b) ==> b == regex_match(pattern@, text@),
{
    match regex::Regex::new(pattern) {
        Ok(re) => Some(re.is_match(text)),
        Err(_) => None,
    }
}

/// The case-folded form of a text, under which usernames collate.
pub uninterp spec fn lower_of(s: Seq<char>) -> Seq<char>;

/// Relies on str::to_lowercase: the result depends on the characters
/// alone.
#[verifier::external_body]
pub(crate) fn lowercase(s: &str) -> (r: String)
    ensures
        r@ == lower_of(s@),
{
    s.to_lowercase()
}

/// The username rule: 2 to 32 characters, each a letter, digit,
/// underscore, dot or dash — the pattern blocks zero-width and
/// lookalike characters.
pub open spec fn spec_valid_username(name: Seq<char>) -> bool {
    &&& 2 <= name.len() <= 32
    &&& regex_ok("^(\\p{L}|[\\d_.-])+$"@)
    &&& regex_match("^(\\p{L}|[\\d_.-])+$"@, name)
}

/// Validate a requested username against the length and pattern rule.
pub fn valid_username(name: &str) -> (r: bool)
    ensures
        r == spec_valid_username(name@),
{
    let n = name.unicode_len();
    if n < 2 || n > 32 {
        return false;
    }
    match regex_is_match("^(\\p{L}|[\\d_.-])+$", name) {
        Some(b) => b,
        None => false,
    }
}

/// The onboarding gate: an account that already onboarded is rejected,
/// then the requested username is validated.
pub fn onboard_decision(already_onboarded: bool, data: &DataOnboard) -> (r: Result<(), Error>)
    ensures
        r == Err::<(), Error>(Error::AlreadyOnboarded) <==> already_onboarded,
        r == Err::<(), Error>(Error::FailedValidation) <==> (!already_onboarded
            && !spec_valid_username(data.username@)),
        r is Ok <==> (!already_onboarded && spec_valid_username(data.username@)),
{
    if already_onboarded {
        return Err(Error::AlreadyOnboarded);
    }
    if !valid_username(data.username.as_str()) {
        return Err(Error::FailedValidation);
    }
    Ok(())
}

/// Prepare first-login data: with no official bot accounts configured
/// nothing is created; otherwise a group channel is created whose
/// recipients are the new user and every bot.
pub fn prepare_onboard_group(store: &mut Store, user: u64, bots: &Vec<u64>) -> (r: Result<
    Option<u64>,
    Error,
>)
    requires
        old(store).wf(),
        old(store).next_id < 0xFFFF_FFFF_FFFF_FFFF,
    ensures
        final(store).wf(),
        r is Err ==> *final(store) == *old(store),
        bots@.len() == 0 ==> (r == Ok::<Option<u64>, Error>(None) && *final(store) == *old(
            store,
        )),
        r matches Ok(Some(cid)) ==> ({
            &&& final(store).has_channel(cid)
            &&& cid == old(store).next_id
            &&& final(store).next_id == old(store).next_id + 1
            &&& final(store).channels@.len() == old(store).channels@.len() + 1
            &&& final(store).channels@.subrange(0, old(store).channels@.len() as int) =~= old(
                store,
            ).channels@
            &&& final(store).channels@.last().id == cid
            &&& final(store).channels@.last().server is None
            &&& final(store).channels@.last().kind == ChannelKind::Group
            &&& final(store).channels@.last().recipients@ == seq![user] + bots@
            &&& final(store).channels@.last().last_message is None
            &&& final(store).channels@.last().overwrites@ =~= Seq::<
                crate::perms::Overwrite,
            >::empty()
            &&& final(store).servers == old(store).servers
            &&& final(store).members == old(store).members
            &&& final(store).bans == old(store).bans
            &&& final(store).messages == old(store).messages
            &&& final(store).webhooks == old(store).webhooks
            &&& final(store).invites == old(store).invites
            &&& final(store).emoji == old(store).emoji
            &&& final(store).unreads == old(store).unreads
            &&& final(store).sent == old(store).sent
            &&& final(store).users == old(store).users
        }),
        (bots@.len() > 0 && (forall|i: int, j: int|
            0 <= i < j < bots@.len() ==> bots@[i] != bots@[j]) && !bots@.contains(user)) ==> (
        r matches Ok(Some(cid)) && cid == old(store).next_id),
{
    if bots.len() == 0 {
        return Ok(None);
    }
    let mut recipients: Vec<u64> = Vec::new();
    recipients.push(user);
    let mut i: usize = 0;
    while i < bots.len()
        invariant
            0 <= i <= bots@.len(),
            recipients@ =~= seq![user] + bots@.subrange(0, i as int),
        decreases bots@.len() - i,
    {
        recipients.push(bots[i]);
        i += 1;
    }
    proof {
        assert(bots@.subrange(0, bots@.len() as int) =~= bots@);
        assert(recipients@ =~= seq![user] + bots@);
    }
    let ghost rec = recipients@;
    proof {
        if (forall|a: int, b: int| 0 <= a < b < bots@.len() ==> bots@[a] != bots@[b])
            && !bots@.contains(user) {
            assert forall|a: int, b: int| 0 <= a < b < rec.len() implies rec[a] != rec[b] by {
                if a == 0 {
                    assert(rec[b] == bots@[b - 1]);
                    assert(bots@.contains(bots@[b - 1]));
                } else {
                    assert(rec[a] == bots@[a - 1] && rec[b] == bots@[b - 1]);
                }
            }
        }
        assert(rec[0] == user);
        assert(rec.contains(user));
    }
    match store.create_group(user, ChannelKind::Group, recipients) {
        Ok(cid) => Ok(Some(cid)),
        Err(e) => Err(e),
    }
}

} // verus!
