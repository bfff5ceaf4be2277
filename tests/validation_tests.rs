use gresources::validation::{
    decimal, normalize_path, validate_content, validate_content_within, validate_path,
    validate_path_within, Limits, ValidationError, MAX_RESOURCE_SIZE,
};

#[test]
fn test_path_validation() {
    // Valid paths
    assert!(validate_path("/resource").is_ok());
    assert!(validate_path("/folder/resource").is_ok());
    assert!(validate_path("/").is_ok());

    // Invalid paths
    assert!(validate_path("").is_err());
    assert!(validate_path("no-leading-slash").is_err());

    // Test max depth (5 levels)
    assert!(validate_path("/a/b/c/d/e").is_ok());
    assert!(validate_path("/a/b/c/d/e/f").is_err());
}

#[test]
fn test_content_validation() {
    assert!(validate_content("small content").is_ok());

    // Test max size (5MB)
    let large_content = "x".repeat(5 * 1024 * 1024 + 1);
    assert!(validate_content(&large_content).is_err());
}

#[test]
fn test_path_normalization() {
    assert_eq!(normalize_path("/path/"), "/path");
    assert_eq!(normalize_path("/"), "/");
    assert_eq!(normalize_path("/path/to/resource"), "/path/to/resource");
}

#[test]
fn test_validate_path() {
    assert!(validate_path("/valid/path").is_ok());
    assert!(validate_path("/").is_ok());
    assert!(validate_path("").is_err());
    assert!(validate_path("no-leading-slash").is_err());

    let deep_path = "/a/b/c/d/e/f";
    assert!(validate_path(deep_path).is_err());

    let max_depth_path = "/a/b/c/d/e";
    assert!(validate_path(max_depth_path).is_ok());
}

#[test]
fn test_validate_content() {
    assert!(validate_content("small content").is_ok());

    let large_content = "x".repeat(MAX_RESOURCE_SIZE + 1);
    assert!(validate_content(&large_content).is_err());
}

#[test]
fn test_normalize_path() {
    assert_eq!(normalize_path("/path/"), "/path");
    assert_eq!(normalize_path("/"), "/");
    assert_eq!(normalize_path("/path/to/resource"), "/path/to/resource");
}

#[test]
fn each_path_error_has_its_input() {
    assert_eq!(validate_path(""), Err(ValidationError::EmptyPath));
    assert_eq!(validate_path("a/b"), Err(ValidationError::MissingLeadingSlash));
    assert_eq!(validate_path("/a/b/c/d/e/f"), Err(ValidationError::TooDeep));
    let long = format!("/{}", "n".repeat(101));
    assert_eq!(validate_path(&long), Err(ValidationError::NameTooLong));
    assert_eq!(validate_path("/a/x..y"), Err(ValidationError::InvalidCharacters));
    assert_eq!(validate_path("/a/b\0c"), Err(ValidationError::InvalidCharacters));
    for c in ['<', '>', ':', '"', '|', '?', '*'] {
        let p = format!("/a/b{}c", c);
        assert_eq!(validate_path(&p), Err(ValidationError::ReservedCharacters));
    }
}

#[test]
fn segment_length_limit_is_exact() {
    let ok = format!("/{}", "n".repeat(100));
    assert!(validate_path(&ok).is_ok());
    // 51 two-byte characters: 102 bytes.
    let wide = format!("/{}", "é".repeat(51));
    assert_eq!(validate_path(&wide), Err(ValidationError::NameTooLong));
}

#[test]
fn first_violation_wins() {
    // Too deep and holding a reserved character: depth is checked first.
    assert_eq!(validate_path("/a/b/c/d/e/f*"), Err(ValidationError::TooDeep));
    // Each check runs over all segments before the next one.
    assert_eq!(validate_path("/x*y/a..b"), Err(ValidationError::InvalidCharacters));
    assert_eq!(validate_path("/a..b/x*y"), Err(ValidationError::InvalidCharacters));
    let long_second = format!("/x*y/{}", "n".repeat(101));
    assert_eq!(validate_path(&long_second), Err(ValidationError::NameTooLong));
    assert_eq!(validate_path("/a/b/c/d/e/f<"), Err(ValidationError::TooDeep));
}

#[test]
fn empty_segments_do_not_count() {
    assert!(validate_path("//a///b/c/d/e//").is_ok());
    assert!(validate_path("/a.b/c.d").is_ok());
}

#[test]
fn content_limit_is_exact_in_bytes() {
    let max = "x".repeat(MAX_RESOURCE_SIZE);
    assert!(validate_content(&max).is_ok());
    let over = "x".repeat(MAX_RESOURCE_SIZE + 1);
    assert_eq!(validate_content(&over), Err(ValidationError::ContentTooLarge));
    // Two bytes per character: half as many characters reach the limit.
    let wide = "é".repeat(MAX_RESOURCE_SIZE / 2);
    assert!(validate_content(&wide).is_ok());
    let wider = format!("{}x", wide);
    assert!(validate_content(&wider).is_err());
}

#[test]
fn normalize_is_idempotent_on_examples() {
    for p in ["/a/b//", "/", "//", "/a", "", "/a/b/c/"] {
        let once = normalize_path(p);
        assert_eq!(normalize_path(&once), once);
    }
    assert_eq!(normalize_path("/a/b//"), "/a/b");
}

#[test]
fn error_messages() {
    assert_eq!(ValidationError::EmptyPath.message(), "Path cannot be empty");
    assert_eq!(ValidationError::TooDeep.message(), "Maximum folder depth is 5");
}

#[test]
fn messages_follow_the_limits() {
    let lim = Limits { max_depth: 12, max_name_length: 7, max_content_size: 1024 };
    assert_eq!(ValidationError::TooDeep.message_within(&lim), "Maximum folder depth is 12");
    assert_eq!(
        ValidationError::NameTooLong.message_within(&lim),
        "Resource name cannot exceed 7 characters"
    );
    assert_eq!(
        ValidationError::ContentTooLarge.message(),
        "Content size cannot exceed 5242880 bytes"
    );
}

#[test]
fn decimal_digits() {
    assert_eq!(decimal(0), "0");
    assert_eq!(decimal(9), "9");
    assert_eq!(decimal(10), "10");
    assert_eq!(decimal(5242880), "5242880");
}

#[test]
fn limits_can_be_widened() {
    let wide = Limits { max_depth: 6, max_name_length: 200, max_content_size: 10 };
    assert!(validate_path_within("/a/b/c/d/e/f", &wide).is_ok());
    assert_eq!(validate_path_within("/a/b/c/d/e/f/g", &wide), Err(ValidationError::TooDeep));
    assert!(validate_content_within("0123456789", &wide).is_ok());
    assert!(validate_content_within("0123456789a", &wide).is_err());
    assert_eq!(Limits::standard().max_depth, 5);
}

#[test]
fn slashes_alone_normalize_to_root() {
    assert_eq!(normalize_path("//"), "/");
    assert_eq!(normalize_path("///"), "/");
    assert_eq!(normalize_path(""), "");
    assert!(validate_path("//").is_ok());
    assert!(validate_path(&normalize_path("//")).is_ok());
}

#[test]
fn normalizing_keeps_validity() {
    for p in ["/a/b//", "//", "/", "/x*/", "a//", "/a/b/c/d/e/f/"] {
        let n = normalize_path(p);
        assert_eq!(validate_path(&n), validate_path(p));
    }
}
