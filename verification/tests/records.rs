//! The durable-store model: credentials, sessions and tasks.

use htmx_intro::db::Database;
use htmx_intro::Error;

fn db_with_user(name: &str, id: u128) -> Database {
    let mut db = Database::new();
    db.create_user(&name.to_string(), id).unwrap();
    db
}

#[test]
fn create_user_duplicate_name_conflicts() {
    let mut db = db_with_user("alice", 1);
    let r = db.create_user(&"alice".to_string(), 2);
    assert!(matches!(r, Err(Error::Conflict)));
}

#[test]
fn register_two_distinct_credentials_succeeds() {
    let mut db = db_with_user("alice", 1);
    db.insert(vec![1, 2, 3], "blob-a".to_string(), "alice".to_string(), 0)
        .unwrap();
    db.insert(vec![4, 5, 6], "blob-b".to_string(), "alice".to_string(), 0)
        .unwrap();
    assert_eq!(db.find_by_username(&"alice".to_string()).len(), 2);
}

#[test]
fn register_same_credential_id_twice_conflicts() {
    let mut db = db_with_user("alice", 1);
    db.insert(vec![1, 2, 3], "blob-a".to_string(), "alice".to_string(), 0)
        .unwrap();
    let r = db.insert(vec![1, 2, 3], "blob-b".to_string(), "alice".to_string(), 0);
    assert!(matches!(r, Err(Error::Conflict)));
    assert_eq!(db.find_by_username(&"alice".to_string()).len(), 1);
}

#[test]
fn insert_for_unknown_user_fails() {
    let mut db = Database::new();
    let r = db.insert(vec![1], "blob".to_string(), "ghost".to_string(), 0);
    assert!(matches!(r, Err(Error::NotFound)));
}

#[test]
fn find_by_username_unknown_returns_empty_list() {
    let db = Database::new();
    let creds = db.find_by_username(&"ghost".to_string());
    assert!(creds.is_empty());
}

#[test]
fn find_by_username_credentialless_returns_empty_list() {
    let db = db_with_user("bob", 2);
    let creds = db.find_by_username(&"bob".to_string());
    assert!(creds.is_empty());
}

#[test]
fn find_by_credential_id_unknown_is_not_found() {
    let db = Database::new();
    let r = db.find_by_credential_id(&vec![9, 9]);
    assert!(matches!(r, Err(Error::NotFound)));
}

#[test]
fn stored_counter_never_decreases() {
    let mut db = db_with_user("alice", 1);
    let id = vec![1, 2, 3];
    db.insert(id.clone(), "v1".to_string(), "alice".to_string(), 5)
        .unwrap();

    let r = db.update_counter(&id, "v2".to_string(), 5);
    assert!(matches!(r, Err(Error::Verification)));
    assert_eq!(db.find_by_credential_id(&id).unwrap().counter, 5);

    let r = db.update_counter(&id, "v3".to_string(), 4);
    assert!(matches!(r, Err(Error::Verification)));
    assert_eq!(db.find_by_credential_id(&id).unwrap().counter, 5);

    db.update_counter(&id, "v4".to_string(), 7).unwrap();
    let rec = db.find_by_credential_id(&id).unwrap();
    assert_eq!(rec.counter, 7);
    assert_eq!(rec.data, "v4");

    let r = db.update_counter(&id, "v5".to_string(), 6);
    assert!(matches!(r, Err(Error::Verification)));
    assert_eq!(db.find_by_credential_id(&id).unwrap().counter, 7);
}

#[test]
fn update_counter_unknown_credential_is_not_found() {
    let mut db = Database::new();
    let r = db.update_counter(&vec![1], "v".to_string(), 1);
    assert!(matches!(r, Err(Error::NotFound)));
}

#[test]
fn issue_for_unknown_user_fails() {
    let mut db = Database::new();
    let r = db.issue(&"ghost".to_string(), 42);
    assert!(matches!(r, Err(Error::NotFound)));
}

#[test]
fn issue_then_verify_resolves_the_user() {
    let mut db = db_with_user("dana", 7);
    let sid = db.issue(&"dana".to_string(), 42).unwrap();
    assert_eq!(sid, 42);
    let user = db.verify(42).unwrap();
    assert_eq!(user.name, "dana");
    assert_eq!(user.id, 7);
}

#[test]
fn verify_unknown_session_is_not_found() {
    let db = Database::new();
    assert!(matches!(db.verify(42), Err(Error::NotFound)));
}

#[test]
fn issue_duplicate_session_id_conflicts() {
    let mut db = db_with_user("dana", 7);
    db.issue(&"dana".to_string(), 42).unwrap();
    let r = db.issue(&"dana".to_string(), 42);
    assert!(matches!(r, Err(Error::Conflict)));
}

#[test]
fn tasks_are_listed_in_creation_order() {
    let mut db = db_with_user("alice", 1);
    let owner = "alice".to_string();
    db.add_task("first".to_string(), &owner, 10).unwrap();
    db.add_task("second".to_string(), &owner, 11).unwrap();
    let tasks = db.tasks(&owner);
    assert_eq!(tasks.len(), 2);
    assert_eq!(tasks[0].name, "first");
    assert_eq!(tasks[1].name, "second");
    assert!(!tasks[0].completed);
}

#[test]
fn add_task_for_unknown_user_fails() {
    let mut db = Database::new();
    let r = db.add_task("t".to_string(), &"ghost".to_string(), 1);
    assert!(matches!(r, Err(Error::NotFound)));
}

#[test]
fn add_task_duplicate_id_conflicts() {
    let mut db = db_with_user("alice", 1);
    let owner = "alice".to_string();
    db.add_task("a".to_string(), &owner, 10).unwrap();
    let r = db.add_task("b".to_string(), &owner, 10);
    assert!(matches!(r, Err(Error::Conflict)));
}

#[test]
fn set_checked_stores_the_opposite_of_the_reported_state() {
    let mut db = db_with_user("alice", 1);
    let owner = "alice".to_string();
    db.add_task("a".to_string(), &owner, 10).unwrap();
    assert!(db.set_checked(&owner, 10, false));
    assert!(db.tasks(&owner)[0].completed);
    assert!(db.set_checked(&owner, 10, true));
    assert!(!db.tasks(&owner)[0].completed);
}

#[test]
fn set_checked_of_someone_elses_task_is_a_no_op() {
    let mut db = db_with_user("alice", 1);
    db.create_user(&"bob".to_string(), 2).unwrap();
    db.add_task("a".to_string(), &"alice".to_string(), 10).unwrap();
    assert!(!db.set_checked(&"bob".to_string(), 10, false));
    assert!(!db.tasks(&"alice".to_string())[0].completed);
}

#[test]
fn tasks_sorted_puts_pending_before_completed() {
    let mut db = db_with_user("alice", 1);
    let owner = "alice".to_string();
    db.add_task("a".to_string(), &owner, 10).unwrap();
    db.add_task("b".to_string(), &owner, 11).unwrap();
    db.add_task("c".to_string(), &owner, 12).unwrap();
    assert!(db.set_checked(&owner, 10, false));
    let tasks = db.tasks_sorted(&owner);
    assert_eq!(tasks.len(), 3);
    assert_eq!(tasks[0].name, "b");
    assert_eq!(tasks[1].name, "c");
    assert_eq!(tasks[2].name, "a");
    assert!(tasks[2].completed);
}

#[test]
fn delete_task_reports_whether_a_row_was_removed() {
    let mut db = db_with_user("alice", 1);
    let owner = "alice".to_string();
    db.add_task("a".to_string(), &owner, 10).unwrap();
    assert!(db.delete_task(&owner, 10));
    assert!(!db.delete_task(&owner, 10));
    assert!(db.tasks(&owner).is_empty());
}
