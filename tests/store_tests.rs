use gresources::database::{Database, StoreError};
use gresources::models::Resource;

fn put(db: &mut Database, path: &str, content: &str, at: i64) -> i64 {
    let r = Resource::new_at(path.to_string(), content.to_string(), at);
    db.create_resource(&r).unwrap()
}

#[test]
fn create_then_get_returns_content_and_size() {
    let mut db = Database::new();
    let id = put(&mut db, "/a/b", "héllo", 10);
    assert_eq!(id, 1);
    let got = db.get_resource("/a/b").unwrap();
    assert_eq!(got.content, Some("héllo".to_string()));
    assert_eq!(got.size, 6);
    assert_eq!(got.id, Some(1));
    assert_eq!(got.created_at, 10);
    assert!(db.resource_exists("/a/b"));
    assert!(!db.resource_exists("/a"));
}

#[test]
fn stored_size_is_recomputed() {
    let mut db = Database::new();
    let mut r = Resource::new_at("/x".to_string(), "abc".to_string(), 1);
    r.size = 99;
    db.create_resource(&r).unwrap();
    assert_eq!(db.get_resource("/x").unwrap().size, 3);
}

#[test]
fn ids_are_handed_out_in_turn() {
    let mut db = Database::new();
    assert_eq!(put(&mut db, "/a", "", 0), 1);
    assert_eq!(put(&mut db, "/b", "", 0), 2);
}

#[test]
fn create_at_occupied_path_conflicts() {
    let mut db = Database::new();
    put(&mut db, "/a", "first", 1);
    let again = Resource::new_at("/a".to_string(), "second".to_string(), 2);
    assert_eq!(db.create_resource(&again), Err(StoreError::Conflict));
    assert_eq!(db.get_resource("/a").unwrap().content, Some("first".to_string()));
}

#[test]
fn update_missing_is_not_found() {
    let mut db = Database::new();
    assert_eq!(db.update_resource_at("/nope", "x", 5), Err(StoreError::NotFound));
    assert_eq!(db.update_resource("/nope", "x"), Err(StoreError::NotFound));
}

#[test]
fn update_changes_content_size_and_time_only() {
    let mut db = Database::new();
    put(&mut db, "/a", "old", 100);
    db.update_resource_at("/a", "new content", 200).unwrap();
    let got = db.get_resource("/a").unwrap();
    assert_eq!(got.content, Some("new content".to_string()));
    assert_eq!(got.size, 11);
    assert_eq!(got.updated_at, 200);
    assert_eq!(got.created_at, 100);
    assert_eq!(got.id, Some(1));
}

#[test]
fn update_now_keeps_creation_time() {
    let mut db = Database::new();
    put(&mut db, "/a", "old", 100);
    db.update_resource("/a", "xy").unwrap();
    let got = db.get_resource("/a").unwrap();
    assert_eq!(got.created_at, 100);
    assert!(got.updated_at > 100);
    assert_eq!(got.size, 2);
}

#[test]
fn delete_missing_is_not_found() {
    let mut db = Database::new();
    assert_eq!(db.delete_resource("/nope"), Err(StoreError::NotFound));
}

#[test]
fn delete_removes_the_row() {
    let mut db = Database::new();
    put(&mut db, "/a", "x", 1);
    put(&mut db, "/b", "y", 1);
    assert_eq!(db.delete_resource("/a"), Ok(()));
    assert!(db.get_resource("/a").is_none());
    assert!(db.get_resource("/b").is_some());
}

#[test]
fn listing_shows_direct_children_in_order() {
    let mut db = Database::new();
    put(&mut db, "/a/b/y/z", "z", 1);
    put(&mut db, "/a/b/x", "x", 1);
    let info = db.list_folder_at("/a/b", 50).unwrap();
    assert_eq!(info.resources, vec!["/a/b/x".to_string(), "/a/b/y".to_string()]);
    assert_eq!(info.path, "/a/b");
    assert_eq!(info.created_at, 50);
    let sub = db.list_folder_at("/a/b/y", 50).unwrap();
    assert_eq!(sub.resources, vec!["/a/b/y/z".to_string()]);
    assert!(!db.folder_is_empty("/a/b"));
    assert!(!db.folder_is_empty("/a/b/y"));
}

#[test]
fn listing_orders_by_bytes_and_lists_each_child_once() {
    let mut db = Database::new();
    put(&mut db, "/f/y-1", "", 1);
    put(&mut db, "/f/y/deep/er", "", 1);
    put(&mut db, "/f/y/z", "", 1);
    put(&mut db, "/f/y", "", 1);
    put(&mut db, "/f/é", "", 1);
    put(&mut db, "/f/B", "", 1);
    let info = db.list_folder_at("/f/", 0).unwrap();
    assert_eq!(
        info.resources,
        vec![
            "/f/B".to_string(),
            "/f/y".to_string(),
            "/f/y-1".to_string(),
            "/f/é".to_string()
        ]
    );
    assert_eq!(info.path, "/f/");
}

#[test]
fn listing_takes_creation_time_of_an_exact_row() {
    let mut db = Database::new();
    put(&mut db, "/a", "", 42);
    put(&mut db, "/a/b", "", 43);
    let info = db.list_folder_at("/a", 999).unwrap();
    assert_eq!(info.created_at, 42);
    assert_eq!(info.resources, vec!["/a/b".to_string()]);
}

#[test]
fn listing_a_missing_folder_is_not_found() {
    let mut db = Database::new();
    put(&mut db, "/ab/c", "", 1);
    assert!(matches!(db.list_folder_at("/a", 0), Err(StoreError::NotFound)));
    assert!(matches!(db.list_folder_resources("/zz"), Err(StoreError::NotFound)));
}

#[test]
fn root_always_exists() {
    let db = Database::new();
    let info = db.list_folder_at("/", 3).unwrap();
    assert!(info.resources.is_empty());
    assert_eq!(info.path, "/");
    assert!(db.list_folder_resources("/").is_ok());
}

#[test]
fn folder_is_empty_follows_the_prefix() {
    let mut db = Database::new();
    put(&mut db, "/a/bc", "", 1);
    assert!(db.folder_is_empty("/a/b"));
    assert!(!db.folder_is_empty("/a"));
    assert!(!db.folder_is_empty("/a/"));
    put(&mut db, "/a/b/c/d", "", 1);
    assert!(!db.folder_is_empty("/a/b"));
    assert!(!db.folder_is_empty("/"));
    assert!(Database::new().folder_is_empty("/"));
}

#[test]
fn update_time_never_moves_back() {
    let mut db = Database::new();
    put(&mut db, "/a", "x", 100);
    db.update_resource_at("/a", "y", 50).unwrap();
    let got = db.get_resource("/a").unwrap();
    assert_eq!(got.updated_at, 100);
    assert_eq!(got.created_at, 100);
    assert_eq!(got.content, Some("y".to_string()));
}

#[test]
fn stored_update_time_is_not_before_creation() {
    let mut db = Database::new();
    let mut r = Resource::new_at("/a".to_string(), "x".to_string(), 100);
    r.updated_at = 10;
    db.create_resource(&r).unwrap();
    assert_eq!(db.get_resource("/a").unwrap().updated_at, 100);
}

#[test]
fn restore_keeps_ids_and_later_ids_are_fresh() {
    let mut db = Database::new();
    let mut r = Resource::new_at("/a".to_string(), "x".to_string(), 1);
    r.id = Some(7);
    assert_eq!(db.restore_resource(&r), Ok(()));
    assert_eq!(db.get_resource("/a").unwrap().id, Some(7));
    assert_eq!(put(&mut db, "/b", "", 1), 8);
    let mut low = Resource::new_at("/c".to_string(), String::new(), 1);
    low.id = Some(3);
    assert_eq!(db.restore_resource(&low), Ok(()));
    assert_eq!(put(&mut db, "/d", "", 1), 9);
}

#[test]
fn restore_rejects_bad_ids_and_taken_paths() {
    let mut db = Database::new();
    put(&mut db, "/a", "", 1);
    let mut r = Resource::new_at("/a".to_string(), String::new(), 1);
    r.id = Some(5);
    assert_eq!(db.restore_resource(&r), Err(StoreError::Conflict));
    let mut taken = Resource::new_at("/b".to_string(), String::new(), 1);
    taken.id = Some(1);
    assert_eq!(db.restore_resource(&taken), Err(StoreError::InvalidId));
    let none = Resource::new_at("/b".to_string(), String::new(), 1);
    assert_eq!(db.restore_resource(&none), Err(StoreError::InvalidId));
    let mut zero = Resource::new_at("/b".to_string(), String::new(), 1);
    zero.id = Some(0);
    assert_eq!(db.restore_resource(&zero), Err(StoreError::InvalidId));
    let mut max = Resource::new_at("/b".to_string(), String::new(), 1);
    max.id = Some(i64::MAX);
    assert_eq!(db.restore_resource(&max), Err(StoreError::InvalidId));
    assert!(db.get_resource("/b").is_none());
}
