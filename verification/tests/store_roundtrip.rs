use tasktrack::store::{AddUserError, Store};

fn seeded_store() -> Store {
    Store::new()
}

#[test]
fn add_project_then_load_yields_owner_and_empty_participants() {
    let mut store = seeded_store();
    let uid = store
        .add_user("Ada", "ada@example.com", "correct horse", "2024-01-01 00:00:00")
        .expect("adding a fresh user succeeds");
    let pid = store.add_project("alpha", uid, "2024-02-01 00:00:00");
    let loaded = store.get_project_by_id(pid).expect("the project just created is loadable");
    assert_eq!(loaded.id, Some(pid));
    assert_eq!(loaded.owner, uid);
    assert!(loaded.participants.is_empty());
    assert_eq!(loaded.name, "alpha");
    assert_eq!(loaded.proj_start_date, "2024-02-01 00:00:00");
    assert_eq!(loaded.proj_end_date, "");
}

#[test]
fn project_ids_are_assigned_in_sequence() {
    let mut store = seeded_store();
    let p1 = store.add_project("one", 1, "2024-01-01 00:00:00");
    let p2 = store.add_project("two", 1, "2024-01-02 00:00:00");
    assert_eq!(p1, 1);
    assert_eq!(p2, 2);
}

#[test]
fn duplicate_email_is_rejected_and_nothing_changes() {
    let mut store = seeded_store();
    store
        .add_user("Ada", "ada@example.com", "pw one", "2024-01-01 00:00:00")
        .expect("first registration succeeds");
    let before = store.users.len();
    let err = store
        .add_user("Imposter", "ada@example.com", "pw two", "2024-01-02 00:00:00")
        .expect_err("second registration under the same email fails");
    assert_eq!(err, AddUserError::EmailExists);
    assert_eq!(store.users.len(), before);
}

#[test]
fn get_user_by_id_finds_exactly_the_stored_record() {
    let mut store = seeded_store();
    let uid = store
        .add_user("Ada", "ada@example.com", "pw", "2024-01-01 00:00:00")
        .expect("registration succeeds");
    let u = store.get_user_by_id(uid).expect("the user exists");
    assert_eq!(u.id, Some(uid));
    assert_eq!(u.email, "ada@example.com");
    assert_eq!(u.name, "Ada");
    assert!(!u.admin);
    assert!(store.get_user_by_id(200).is_none());
}

#[test]
fn edit_project_replaces_name_and_end_date_only() {
    let mut store = seeded_store();
    let pid = store.add_project("draft", 7, "2024-01-01 00:00:00");
    assert!(store.edit_project(pid, "final", "2024-03-01 00:00:00"));
    let loaded = store.get_project_by_id(pid).expect("still there");
    assert_eq!(loaded.name, "final");
    assert_eq!(loaded.proj_end_date, "2024-03-01 00:00:00");
    assert_eq!(loaded.proj_start_date, "2024-01-01 00:00:00");
    assert_eq!(loaded.owner, 7);
}

#[test]
fn edit_project_on_missing_id_is_a_no_op() {
    let mut store = seeded_store();
    store.add_project("only", 1, "2024-01-01 00:00:00");
    let before = store.projects.len();
    assert!(!store.edit_project(99, "ghost", "2024-03-01 00:00:00"));
    assert_eq!(store.projects.len(), before);
    assert_eq!(store.get_project_by_id(1).unwrap().name, "only");
}

#[test]
fn delete_project_reports_the_distinguished_no_op() {
    let mut store = seeded_store();
    let pid = store.add_project("doomed", 1, "2024-01-01 00:00:00");
    assert!(store.delete_project_db(99).is_none());
    assert_eq!(store.projects.len(), 1);
    assert!(store.delete_project_db(pid).is_some());
    assert!(store.get_project_by_id(pid).is_err());
}

#[test]
fn delete_task_reports_the_distinguished_no_op() {
    let mut store = seeded_store();
    let tid = store.add_task("chore", 1, "2024-01-01 00:00:00");
    assert!(store.delete_task_db(42).is_none());
    assert_eq!(store.tasks.len(), 1);
    assert!(store.delete_task_db(tid).is_some());
    assert!(store.get_task_by_id(tid).is_none());
}
