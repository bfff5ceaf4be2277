use gresources::models::Resource;

#[test]
fn test_resource_creation() {
    let resource = Resource::new("/test/resource".to_string(), "test content".to_string());

    assert_eq!(resource.path, "/test/resource");
    assert_eq!(resource.content, Some("test content".to_string()));
    assert_eq!(resource.size, 12); // length of "test content"
    assert_eq!(resource.user_id, 1);
    // Resource has content, so it's not a folder
    assert!(resource.content.is_some());
}

#[test]
fn test_folder_path_extraction() {
    let resource = Resource::new("/folder/subfolder/resource".to_string(), "content".to_string());

    assert_eq!(resource.get_folder_path(), "/folder/subfolder");
    // Test that the path ends with "resource"
    assert!(resource.path.ends_with("resource"));
}

#[test]
fn test_root_level_resource() {
    let resource = Resource::new("/resource".to_string(), "content".to_string());

    assert_eq!(resource.get_folder_path(), "/");
    // Test that the path ends with "resource"
    assert!(resource.path.ends_with("resource"));
}

#[test]
fn size_counts_utf8_bytes() {
    let resource = Resource::new_at("/r".to_string(), "héllo €".to_string(), 7);
    assert_eq!(resource.size, 10);
    assert_eq!(resource.created_at, 7);
    assert_eq!(resource.updated_at, 7);
    assert_eq!(resource.id, None);
}

#[test]
fn created_now_is_after_the_epoch() {
    let resource = Resource::new("/r".to_string(), String::new());
    assert!(resource.created_at > 1_600_000_000_000);
    assert_eq!(resource.created_at, resource.updated_at);
}

#[test]
fn folder_of_a_path_without_slash_is_root() {
    let resource = Resource::new_at("plain".to_string(), String::new(), 0);
    assert_eq!(resource.get_folder_path(), "/");
}

#[test]
fn duplicate_keeps_every_field() {
    let resource = Resource::new_at("/a/b".to_string(), "x".to_string(), 5);
    let copy = resource.duplicate();
    assert_eq!(copy.path, resource.path);
    assert_eq!(copy.content, resource.content);
    assert_eq!(copy.size, resource.size);
    assert_eq!(copy.created_at, resource.created_at);
}
