//! The four request verbs on a path: the decisions between validation and
//! the store, and the reply that each outcome gets.
use crate::database::{
    children, folder_exists, has_descendant, has_path, index_of, is_update, lookup, Database,
    StoreError,
};
use crate::models::{FolderInfo, Resource, DEFAULT_USER_ID};
use crate::order::{strictly_ascending, texts};
use crate::validation::{
    byte_len, is_valid_path_within, normalize_path, normalized, path_error_within,
    trim_trailing_slashes, validate_content_within, validate_path_within, Limits, ValidationError,
};
use vstd::prelude::*;

verus! {

/// The outcome of a request.
#[derive(Debug)]
pub enum Reply {
    /// The resource was created (201).
    Created,
    /// The resource at the path (200).
    Found(Resource),
    /// The folder at the path (200).
    Listing(FolderInfo),
    /// The resource was updated (204).
    Updated,
    /// The resource was removed, or the folder was empty (200).
    Deleted,
    /// The path is invalid (400).
    InvalidPath(ValidationError),
    /// The content is invalid (400).
    InvalidContent(ValidationError),
    /// A resource is already stored at the path (409).
    AlreadyExists,
    /// Neither a resource nor a folder is at the path (404).
    NotFound,
    /// The folder still holds resources (400).
    NonEmptyFolder,
    /// The store failed (500).
    StoreFailure(StoreError),
}

impl Reply {
    /// The HTTP status code of this outcome.
    pub fn status(&self) -> (r: u16)
        ensures
            self is Created ==> r == 201,
            self is Found || self is Listing || self is Deleted ==> r == 200,
            self is Updated ==> r == 204,
            self is InvalidPath || self is InvalidContent || self is NonEmptyFolder ==> r == 400,
            self is AlreadyExists ==> r == 409,
            self is NotFound ==> r == 404,
            self is StoreFailure ==> r == 500,
    {
        match self {
            Reply::Created => 201,
            Reply::Found(_) => 200,
            Reply::Listing(_) => 200,
            Reply::Updated => 204,
            Reply::Deleted => 200,
            Reply::InvalidPath(_) => 400,
            Reply::InvalidContent(_) => 400,
            Reply::AlreadyExists => 409,
            Reply::NotFound => 404,
            Reply::NonEmptyFolder => 400,
            Reply::StoreFailure(_) => 500,
        }
    }
}

/// POST, under `limits`: creates a resource at the normalised path with `body` as content,
/// where the path and the content are valid and nothing is stored there yet.
pub fn handle_post(db: &mut Database, limits: &Limits, raw_path: &str, body: &str) -> (r: Reply)
    requires
        old(db).wf(),
    ensures
        final(db).wf(),
        ({
            let p = normalized(raw_path@);
            let t = old(db)@;
            &&& !is_valid_path_within(p, *limits) ==> r == Reply::InvalidPath(path_error_within(p, *limits)->0) && final(db)@ == t
            &&& is_valid_path_within(p, *limits) && byte_len(body@) > limits.max_content_size ==> r
                == Reply::InvalidContent(ValidationError::ContentTooLarge) && final(db)@ == t
            &&& is_valid_path_within(p, *limits) && byte_len(body@) <= limits.max_content_size && has_path(t, p) ==> r
                == Reply::AlreadyExists && final(db)@ == t
            &&& is_valid_path_within(p, *limits) && byte_len(body@) <= limits.max_content_size && !has_path(t, p)
                && old(db).spec_next_id() < i64::MAX ==> {
                &&& r == Reply::Created
                &&& final(db)@.len() == t.len() + 1
                &&& final(db)@.take(t.len() as int) == t
                &&& final(db)@.last().path@ == p
                &&& final(db)@.last().id == Some(old(db).spec_next_id())
                &&& final(db)@.last().user_id == DEFAULT_USER_ID
                &&& final(db)@.last().content matches Some(c) && c@ == body@
                &&& final(db)@.last().size == byte_len(body@)
                &&& final(db)@.last().created_at == final(db)@.last().updated_at
            }
            &&& is_valid_path_within(p, *limits) && byte_len(body@) <= limits.max_content_size && !has_path(t, p)
                && old(db).spec_next_id() == i64::MAX ==> r == Reply::StoreFailure(
                StoreError::IdsExhausted,
            ) && final(db)@ == t
        }),
{
    let path = normalize_path(raw_path);
    if let Err(e) = validate_path_within(path.as_str(), limits) {
        return Reply::InvalidPath(e);
    }
    if let Err(e) = validate_content_within(body, limits) {
        return Reply::InvalidContent(e);
    }
    if db.resource_exists(path.as_str()) {
        return Reply::AlreadyExists;
    }
    let resource = Resource::new(path, body.to_string());
    match db.create_resource(&resource) {
        Ok(_) => {
            assert(db@.take(old(db)@.len() as int) =~= old(db)@);
            Reply::Created
        },
        Err(e) => Reply::StoreFailure(e),
    }
}

/// GET, under `limits`: the resource at the normalised path, else the folder there, else
/// `NotFound`.
pub fn handle_get(db: &Database, limits: &Limits, raw_path: &str) -> (r: Reply)
    requires
        db.wf(),
    ensures
        ({
            let p = normalized(raw_path@);
            let t = db@;
            let key = trim_trailing_slashes(p);
            &&& !is_valid_path_within(p, *limits) ==> r == Reply::InvalidPath(path_error_within(p, *limits)->0)
            &&& is_valid_path_within(p, *limits) && has_path(t, p) ==> r == Reply::Found(lookup(t, p)->0)
            &&& is_valid_path_within(p, *limits) && !has_path(t, p) && !folder_exists(t, key) ==> r == Reply::NotFound
            &&& is_valid_path_within(p, *limits) && !has_path(t, p) && folder_exists(t, key) ==> (r matches Reply::Listing(
                info,
            ) && info.path@ == p && strictly_ascending(texts(info.resources@)) && texts(
                info.resources@,
            ).to_set() == children(t, key))
        }),
{
    let path = normalize_path(raw_path);
    if let Err(e) = validate_path_within(path.as_str(), limits) {
        return Reply::InvalidPath(e);
    }
    match db.get_resource(path.as_str()) {
        Some(resource) => Reply::Found(resource),
        None => match db.list_folder_resources(path.as_str()) {
            Ok(info) => Reply::Listing(info),
            Err(_) => Reply::NotFound,
        },
    }
}

/// PATCH, under `limits`: replaces the content of the resource at the normalised path, where
/// the path and the content are valid and the resource exists.
pub fn handle_patch(db: &mut Database, limits: &Limits, raw_path: &str, body: &str) -> (r: Reply)
    requires
        old(db).wf(),
    ensures
        final(db).wf(),
        ({
            let p = normalized(raw_path@);
            let t = old(db)@;
            &&& !is_valid_path_within(p, *limits) ==> r == Reply::InvalidPath(path_error_within(p, *limits)->0) && final(db)@ == t
            &&& is_valid_path_within(p, *limits) && byte_len(body@) > limits.max_content_size ==> r
                == Reply::InvalidContent(ValidationError::ContentTooLarge) && final(db)@ == t
            &&& is_valid_path_within(p, *limits) && byte_len(body@) <= limits.max_content_size && !has_path(t, p) ==> r
                == Reply::NotFound && final(db)@ == t
            &&& is_valid_path_within(p, *limits) && byte_len(body@) <= limits.max_content_size && has_path(t, p) ==> {
                &&& r == Reply::Updated
                &&& final(db)@.len() == t.len()
                &&& forall|j: int|
                    0 <= j < t.len() && j != index_of(t, p) ==> final(db)@[j] == t[j]
                &&& exists|now: i64|
                    is_update(t[index_of(t, p)], #[trigger] final(db)@[index_of(t, p)], body@, now)
            }
        }),
{
    let path = normalize_path(raw_path);
    if let Err(e) = validate_path_within(path.as_str(), limits) {
        return Reply::InvalidPath(e);
    }
    if let Err(e) = validate_content_within(body, limits) {
        return Reply::InvalidContent(e);
    }
    if !db.resource_exists(path.as_str()) {
        return Reply::NotFound;
    }
    match db.update_resource(path.as_str(), body) {
        Ok(()) => Reply::Updated,
        Err(e) => Reply::StoreFailure(e),
    }
}

/// DELETE, under `limits`: removes the resource at the normalised path; where there is none,
/// an empty folder is removed as a no-op and a folder that holds resources
/// is refused.
pub fn handle_delete(db: &mut Database, limits: &Limits, raw_path: &str) -> (r: Reply)
    requires
        old(db).wf(),
    ensures
        final(db).wf(),
        ({
            let p = normalized(raw_path@);
            let t = old(db)@;
            let key = trim_trailing_slashes(p);
            &&& !is_valid_path_within(p, *limits) ==> r == Reply::InvalidPath(path_error_within(p, *limits)->0) && final(db)@ == t
            &&& is_valid_path_within(p, *limits) && has_path(t, p) ==> r == Reply::Deleted && final(db)@ == t.remove(
                index_of(t, p),
            )
            &&& is_valid_path_within(p, *limits) && !has_path(t, p) && !has_descendant(t, key) ==> r == Reply::Deleted
                && final(db)@ == t
            &&& is_valid_path_within(p, *limits) && !has_path(t, p) && has_descendant(t, key) ==> r
                == Reply::NonEmptyFolder && final(db)@ == t
        }),
{
    let path = normalize_path(raw_path);
    if let Err(e) = validate_path_within(path.as_str(), limits) {
        return Reply::InvalidPath(e);
    }
    if db.resource_exists(path.as_str()) {
        return match db.delete_resource(path.as_str()) {
            Ok(()) => Reply::Deleted,
            Err(e) => Reply::StoreFailure(e),
        };
    }
    if db.folder_is_empty(path.as_str()) {
        Reply::Deleted
    } else {
        Reply::NonEmptyFolder
    }
}

} // verus!
