//! Login: assembling the request to the single-sign-on service and
//! deciding what to do with its answer.

use vstd::prelude::*;

verus! {

/// Login data.
pub struct DataLogin {
    /// Friendly name used for the session.
    pub friendly_name: Option<String>,
}

/// The answer of the single-sign-on service, as this core reads it.
pub enum UuapResponse {
    /// The user may not log in here.
    Forbidden { username: String },
    /// The client must be redirected to authenticate.
    Redirect { uri: String },
    /// The user is authenticated.
    Success { username: String, email: String },
}

/// What the caller must do with a single-sign-on answer.
pub enum LoginAction {
    /// Reject the login, naming the forbidden user.
    Reject { username: String },
    /// Redirect the client to this URI.
    Redirect { uri: String },
    /// Get or create the user and open a session under this friendly
    /// name (empty when none was requested).
    CreateSession { username: String, email: String, friendly_name: String },
}

/// The cookie header of the outgoing request: every (name, value)
/// pair rendered as `name=value; `, in order.
pub open spec fn spec_cookie_header(names: Seq<Seq<char>>, values: Seq<Seq<char>>) -> Seq<char>
    decreases names.len(),
{
    if names.len() == 0 || names.len() != values.len() {
        Seq::empty()
    } else {
        spec_cookie_header(names.drop_last(), values.drop_last()) + names.last() + "="@
            + values.last() + "; "@
    }
}

/// Render the cookie pairs as one request header value.
pub fn cookie_header(names: &Vec<String>, values: &Vec<String>) -> (r: String)
    requires
        names@.len() == values@.len(),
    ensures
        r@ == spec_cookie_header(
            names@.map_values(|s: String| s@),
            values@.map_values(|s: String| s@),
        ),
{
    let ghost ns = names@.map_values(|s: String| s@);
    let ghost vs = values@.map_values(|s: String| s@);
    let mut out = String::new();
    let mut i: usize = 0;
    proof {
        assert(ns.subrange(0, 0) =~= Seq::<Seq<char>>::empty());
        assert(out@ =~= spec_cookie_header(ns.subrange(0, 0), vs.subrange(0, 0)));
    }
    while i < names.len()
        invariant
            names@.len() == values@.len(),
            ns == names@.map_values(|s: String| s@),
            vs == values@.map_values(|s: String| s@),
            0 <= i <= names@.len(),
            out@ == spec_cookie_header(ns.subrange(0, i as int), vs.subrange(0, i as int)),
        decreases names@.len() - i,
    {
        proof {
            assert(ns.subrange(0, i + 1).drop_last() =~= ns.subrange(0, i as int));
            assert(vs.subrange(0, i + 1).drop_last() =~= vs.subrange(0, i as int));
            assert(ns.subrange(0, i + 1).last() == names@[i as int]@);
            assert(vs.subrange(0, i + 1).last() == values@[i as int]@);
        }
        out.append(names[i].as_str());
        out.append("=");
        out.append(values[i].as_str());
        out.append("; ");
        i += 1;
    }
    proof {
        assert(ns.subrange(0, ns.len() as int) =~= ns);
        assert(vs.subrange(0, vs.len() as int) =~= vs);
    }
    out
}

/// The URL of the single-sign-on login endpoint for a service.
pub fn login_url(base: &str, service: &str) -> (r: String)
    ensures
        r@ == base@ + "/v1/login?service="@ + service@,
{
    let mut out = String::new();
    out.append(base);
    out.append("/v1/login?service=");
    out.append(service);
    out
}

/// Decide what a single-sign-on answer means: a forbidden user and a
/// redirect are passed back as such, and a success opens a session
/// under the requested friendly name, defaulting to the empty one.
pub fn login_decision(resp: UuapResponse, data: DataLogin) -> (a: LoginAction)
    ensures
        match resp {
            UuapResponse::Forbidden { username } => (a matches LoginAction::Reject {
                username: u,
            } && u == username),
            UuapResponse::Redirect { uri } => (a matches LoginAction::Redirect { uri: u } && u
                == uri),
            UuapResponse::Success { username, email } => (a matches LoginAction::CreateSession {
                username: un,
                email: em,
                friendly_name: fname,
            } && un == username && em == email && fname@ == (match data.friendly_name {
                Some(n) => n@,
                None => Seq::<char>::empty(),
            })),
        },
{
    match resp {
        UuapResponse::Forbidden { username } => LoginAction::Reject { username },
        UuapResponse::Redirect { uri } => LoginAction::Redirect { uri },
        UuapResponse::Success { username, email } => {
            let friendly_name = match data.friendly_name {
                Some(n) => n,
                None => String::new(),
            };
            LoginAction::CreateSession { username, email, friendly_name }
        },
    }
}

} // verus!
