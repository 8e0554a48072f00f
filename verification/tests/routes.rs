use revolt_core::config::{build_config, BuildInformation};
use revolt_core::login::{cookie_header, login_decision, login_url, DataLogin, LoginAction, UuapResponse};
use revolt_core::onboard::{onboard_decision, prepare_onboard_group, valid_username, DataOnboard};
use revolt_core::store::Store;
use revolt_core::Error;

#[test]
fn username_rule_accepts_and_rejects() {
    assert!(valid_username("ab"));
    assert!(valid_username("user_name.42-x"));
    assert!(valid_username("Sélène"));
    assert!(!valid_username("a"));
    assert!(!valid_username(""));
    assert!(!valid_username("has space"));
    assert!(!valid_username("semi;colon"));
    let long = "a".repeat(33);
    assert!(!valid_username(&long));
    let max = "a".repeat(32);
    assert!(valid_username(&max));
}

#[test]
fn onboard_gate() {
    let data = DataOnboard { username: String::from("newcomer") };
    assert_eq!(onboard_decision(true, &data), Err(Error::AlreadyOnboarded));
    assert_eq!(onboard_decision(false, &data), Ok(()));
    let bad = DataOnboard { username: String::from("!") };
    assert_eq!(onboard_decision(false, &bad), Err(Error::FailedValidation));
}

#[test]
fn onboard_group_is_created_only_with_bots() {
    let mut store = Store::new();
    let none = prepare_onboard_group(&mut store, 50, &Vec::new()).unwrap();
    assert_eq!(none, None);
    assert!(store.channels.is_empty());
    let some = prepare_onboard_group(&mut store, 50, &vec![7, 8]).unwrap();
    let cid = some.unwrap();
    let ci = store.find_channel(cid).unwrap();
    assert_eq!(store.channels[ci].recipients, vec![50, 7, 8]);
    assert!(store.channels[ci].server.is_none());
}

fn sample_build() -> BuildInformation {
    BuildInformation {
        commit_sha: String::from("deadbeef"),
        commit_timestamp: String::from("2024-01-01"),
        semver: String::from("0.1.0"),
        origin_url: String::from("https://example.org/src"),
        timestamp: String::from("2024-01-02"),
    }
}

#[test]
fn config_enables_services_with_nonempty_urls() {
    let c = build_config(
        String::from("0.6.5"),
        true,
        String::from("key"),
        false,
        true,
        String::from("https://autumn.example"),
        String::new(),
        String::from("https://prompt.example"),
        true,
        String::from("https://voso.example"),
        String::from("wss://voso.example"),
        String::from("wss://ws.example"),
        String::from("https://app.example"),
        String::from("vapid-key"),
        sample_build(),
    );
    assert!(c.features.autumn.enabled);
    assert!(!c.features.january.enabled);
    assert!(c.features.promptserv.enabled);
    assert!(c.features.captcha.enabled);
    assert_eq!(c.features.captcha.key, "key");
    assert!(!c.features.email);
    assert!(c.features.invite_only);
    assert_eq!(c.revolt, "0.6.5");
    assert_eq!(c.ws, "wss://ws.example");
    assert_eq!(c.build.commit_sha, "deadbeef");
}

#[test]
fn cookie_header_renders_pairs_in_order() {
    let names = vec![String::from("sid"), String::from("theme")];
    let values = vec![String::from("abc"), String::from("dark")];
    assert_eq!(cookie_header(&names, &values), "sid=abc; theme=dark; ");
    let empty: Vec<String> = Vec::new();
    assert_eq!(cookie_header(&empty, &Vec::new()), "");
}

#[test]
fn login_url_appends_service() {
    assert_eq!(
        login_url("https://sso.example", "https://app.example"),
        "https://sso.example/v1/login?service=https://app.example"
    );
}

#[test]
fn login_decision_maps_each_answer() {
    let data = DataLogin { friendly_name: Some(String::from("laptop")) };
    match login_decision(
        UuapResponse::Success {
            username: String::from("u"),
            email: String::from("u@example.org"),
        },
        data,
    ) {
        LoginAction::CreateSession { username, email, friendly_name } => {
            assert_eq!(username, "u");
            assert_eq!(email, "u@example.org");
            assert_eq!(friendly_name, "laptop");
        },
        _ => panic!("expected a session"),
    }
    let anon = DataLogin { friendly_name: None };
    match login_decision(
        UuapResponse::Success {
            username: String::from("u"),
            email: String::from("e"),
        },
        anon,
    ) {
        LoginAction::CreateSession { friendly_name, .. } => assert_eq!(friendly_name, ""),
        _ => panic!("expected a session"),
    }
    let data = DataLogin { friendly_name: None };
    match login_decision(UuapResponse::Forbidden { username: String::from("evil") }, data) {
        LoginAction::Reject { username } => assert_eq!(username, "evil"),
        _ => panic!("expected a rejection"),
    }
    let data = DataLogin { friendly_name: None };
    match login_decision(UuapResponse::Redirect { uri: String::from("https://sso") }, data) {
        LoginAction::Redirect { uri } => assert_eq!(uri, "https://sso"),
        _ => panic!("expected a redirect"),
    }
}

#[test]
fn create_user_enforces_rule_and_collation() {
    let mut store = Store::new();
    assert_eq!(store.create_user(String::from("!")), Err(Error::FailedValidation));
    let uid = store.create_user(String::from("Neko")).unwrap();
    // A username that differs only in case collides.
    assert_eq!(store.create_user(String::from("neko")), Err(Error::UsernameTaken));
    assert_eq!(store.create_user(String::from("NEKO")), Err(Error::UsernameTaken));
    let other = store.create_user(String::from("neko2")).unwrap();
    assert_ne!(uid, other);
    let ui = store.find_user(uid).unwrap();
    assert_eq!(store.users[ui].username, "Neko");
    assert!(!store.users[ui].disabled);
    assert!(store.find_user(uid + 999).is_none());
}

#[test]
fn users_are_disabled_not_deleted() {
    let mut store = Store::new();
    let uid = store.create_user(String::from("tobedisabled")).unwrap();
    assert_eq!(store.set_user_disabled(uid + 1, true), Err(Error::NotFound));
    assert_eq!(store.set_user_disabled(uid, true), Ok(()));
    let ui = store.find_user(uid).unwrap();
    assert!(store.users[ui].disabled);
    assert_eq!(store.users.len(), 1);
    assert_eq!(store.set_user_disabled(uid, false), Ok(()));
    let ui = store.find_user(uid).unwrap();
    assert!(!store.users[ui].disabled);
}
