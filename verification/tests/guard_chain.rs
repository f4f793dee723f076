use tasktrack::guards::{
    authenticate, dispatch, get_flash_msg, resolve_session, Candidate, DispatchResult,
    GuardKind, GuardOutcome, RequestContext,
};
use tasktrack::auth::AuthError;
use tasktrack::store::Store;
use tasktrack::user::User;

fn user(id: u8, email: &str, admin: bool) -> User {
    User {
        id: Some(id),
        email: email.to_string(),
        name: format!("user {}", id),
        password: String::new(),
        created: "2024-01-01 00:00:00".to_string(),
        profile_pic: String::new(),
        admin,
        premium: false,
    }
}

fn store_with(users: Vec<User>) -> Store {
    let next = users.len() as u8 + 1;
    let mut store = Store::new();
    store.users = users;
    store.next_user_id = next;
    store
}

fn ctx(cookie: Option<&str>, param: Option<u8>) -> RequestContext {
    RequestContext {
        session_cookie: cookie.map(|c| c.to_string()),
        project_id_param: param,
    }
}

#[test]
fn valid_session_resolves_to_the_exact_record() {
    let store = store_with(vec![user(1, "a@example.com", false)]);
    let resolved = resolve_session(&store, &ctx(Some("1"), None)).expect("session resolves");
    assert_eq!(resolved.id, Some(1));
    assert_eq!(resolved.email, "a@example.com");
}

#[test]
fn missing_malformed_and_unknown_cookies_resolve_to_anonymous() {
    let store = store_with(vec![user(1, "a@example.com", false)]);
    assert!(resolve_session(&store, &ctx(None, None)).is_none());
    assert!(resolve_session(&store, &ctx(Some("not a number"), None)).is_none());
    assert!(resolve_session(&store, &ctx(Some("9"), None)).is_none());
}

#[test]
fn user_guard_yields_the_user_and_falls_through_otherwise() {
    let store = store_with(vec![user(1, "a@example.com", false)]);
    let chain = vec![Candidate { rank: 1, kind: GuardKind::RequireUser }];
    match dispatch(&store, &ctx(Some("1"), None), &chain) {
        DispatchResult::Matched(0, GuardOutcome::AuthedUser(u)) => {
            assert_eq!(u.email, "a@example.com");
        },
        other => panic!("expected the user guard to match, got {:?}", other),
    }
    assert!(matches!(
        dispatch(&store, &ctx(Some("garbled"), None), &chain),
        DispatchResult::LoginRedirect
    ));
    assert!(matches!(
        dispatch(&store, &ctx(None, None), &chain),
        DispatchResult::LoginRedirect
    ));
    assert!(matches!(
        dispatch(&store, &ctx(Some("3"), None), &chain),
        DispatchResult::LoginRedirect
    ));
}

#[test]
fn non_admin_falls_through_the_admin_guard_whatever_the_session() {
    let store = store_with(vec![user(1, "a@example.com", false)]);
    let chain = vec![Candidate { rank: 1, kind: GuardKind::RequireAdmin }];
    for cookie in [Some("1"), Some("junk"), Some("9"), None] {
        assert!(matches!(
            dispatch(&store, &ctx(cookie, None), &chain),
            DispatchResult::LoginRedirect
        ));
    }
}

#[test]
fn admin_guard_yields_the_admin() {
    let store = store_with(vec![user(1, "root@example.com", true)]);
    let chain = vec![Candidate { rank: 1, kind: GuardKind::RequireAdmin }];
    match dispatch(&store, &ctx(Some("1"), None), &chain) {
        DispatchResult::Matched(0, GuardOutcome::AuthedAdmin(a)) => {
            assert!(a.user.admin);
            assert_eq!(a.user.id, Some(1));
        },
        other => panic!("expected the admin guard to match, got {:?}", other),
    }
}

#[test]
fn failed_guard_skips_only_its_own_alternative() {
    let store = store_with(vec![user(1, "a@example.com", false)]);
    let chain = vec![
        Candidate { rank: 1, kind: GuardKind::RequireAdmin },
        Candidate { rank: 2, kind: GuardKind::RequireUser },
        Candidate { rank: 3, kind: GuardKind::MaybeUser },
    ];
    match dispatch(&store, &ctx(Some("1"), None), &chain) {
        DispatchResult::Matched(1, GuardOutcome::AuthedUser(u)) => {
            assert_eq!(u.id, Some(1));
        },
        other => panic!("expected rank 2 to match, got {:?}", other),
    }
    match dispatch(&store, &ctx(None, None), &chain) {
        DispatchResult::Matched(2, GuardOutcome::MaybeUser(None)) => {},
        other => panic!("expected the anonymous alternative, got {:?}", other),
    }
}

#[test]
fn projects_guard_yields_the_projects_most_recent_first() {
    let mut store = store_with(vec![user(1, "a@example.com", false)]);
    store.add_project("older", 1, "2024-01-01 00:00:00");
    store.add_project("newer", 1, "2024-06-01 00:00:00");
    store.add_project("foreign", 2, "2024-07-01 00:00:00");
    let chain = vec![Candidate { rank: 1, kind: GuardKind::RequireProjects }];
    match dispatch(&store, &ctx(Some("1"), None), &chain) {
        DispatchResult::Matched(0, GuardOutcome::UserProjects(ps)) => {
            let names: Vec<String> = ps.0.iter().map(|p| p.name.clone()).collect();
            assert_eq!(names, vec!["newer".to_string(), "older".to_string()]);
        },
        other => panic!("expected the projects guard to match, got {:?}", other),
    }
}

#[test]
fn task_guard_needs_only_the_path_parameter() {
    let mut store = Store::new();
    store.add_task("first", 4, "2024-01-01 00:00:00");
    store.add_task("other project", 5, "2024-01-02 00:00:00");
    store.add_task("second", 4, "2024-01-03 00:00:00");
    let chain = vec![Candidate { rank: 1, kind: GuardKind::RequireProjectTasks }];
    match dispatch(&store, &ctx(None, Some(4)), &chain) {
        DispatchResult::Matched(0, GuardOutcome::TasksForProject(ts)) => {
            let descriptions: Vec<String> = ts.0.iter().map(|t| t.description.clone()).collect();
            assert_eq!(descriptions, vec!["first".to_string(), "second".to_string()]);
        },
        other => panic!("expected the task guard to match, got {:?}", other),
    }
    assert!(matches!(
        dispatch(&store, &ctx(None, None), &chain),
        DispatchResult::LoginRedirect
    ));
}

#[test]
fn authenticate_accepts_the_right_password_and_rejects_the_wrong_one() {
    let mut store = Store::new();
    let uid = store
        .add_user("Ada", "ada@example.com", "open sesame", "2024-01-01 00:00:00")
        .expect("registration succeeds");
    let granted = authenticate(&store, "ada@example.com", "open sesame")
        .expect("the stored hash is checkable");
    assert_eq!(granted.expect("right password grants a session").id, Some(uid));
    let denied = authenticate(&store, "ada@example.com", "open says me")
        .expect("the stored hash is checkable");
    assert!(denied.is_none());
    let unknown = authenticate(&store, "nobody@example.com", "open sesame")
        .expect("an unknown email is not an error");
    assert!(unknown.is_none());
}

#[test]
fn a_malformed_stored_hash_is_a_checking_error_not_a_denial() {
    let mut store = store_with(vec![user(1, "a@example.com", false)]);
    store.users[0].password = "not a bcrypt hash".to_string();
    let r = authenticate(&store, "a@example.com", "whatever");
    assert_eq!(r.unwrap_err(), AuthError::BadStoredHash);
}

#[test]
fn flash_message_pair_passes_through() {
    let r = get_flash_msg(Some(("success".to_string(), "Project deleted".to_string())));
    assert_eq!(r, Ok(("success".to_string(), "Project deleted".to_string())));
    assert_eq!(get_flash_msg(None), Err(()));
}
