//! The stored resource, the derived folder listing, and the clock.
use crate::validation::byte_len;
use vstd::prelude::*;

verus! {

/// The single owner that every resource is stored for.
pub const DEFAULT_USER_ID: i64 = 1;

/// Relies on chrono's `DateTime<Utc>: From<SystemTime>` and
/// `DateTime::timestamp_millis`: the current UTC time in milliseconds since
/// the Unix epoch, negative for a clock set before it. Nothing is promised of
/// the value: the clock may read anything.
#[verifier::external_body]
pub(crate) fn now_millis() -> (r: i64) {
    chrono::DateTime::<chrono::Utc>::from(std::time::SystemTime::now()).timestamp_millis()
}

/// A text resource. Timestamps are milliseconds since the Unix epoch, UTC.
#[derive(Debug)]
pub struct Resource {
    pub id: Option<i64>,
    pub user_id: i64,
    pub path: String,
    pub content: Option<String>,
    pub size: usize,
    pub created_at: i64,
    pub updated_at: i64,
}

/// The text of an optional content, empty where there is none.
pub open spec fn content_text(c: Option<String>) -> Seq<char> {
    match c {
        Some(s) => s@,
        None => seq![],
    }
}

/// Index of the last `/` of a path, if it has one.
pub open spec fn last_slash(p: Seq<char>) -> int {
    choose|i: int| 0 <= i < p.len() && p[i] == '/' && forall|j: int| i < j < p.len() ==> p[j] != '/'
}

/// The folder that holds a path: everything before its last `/`, or the root
/// where that is the leading `/` or there is none.
pub open spec fn folder_of(p: Seq<char>) -> Seq<char> {
    if exists|i: int| 0 <= i < p.len() && p[i] == '/' {
        if last_slash(p) == 0 {
            seq!['/']
        } else {
            p.subrange(0, last_slash(p))
        }
    } else {
        seq!['/']
    }
}

impl Resource {
    /// A fresh resource at `path`, created now.
    pub fn new(path: String, content: String) -> (r: Resource)
        ensures
            r.id is None,
            r.user_id == DEFAULT_USER_ID,
            r.path@ == path@,
            r.content matches Some(c) && c@ == content@,
            r.size == byte_len(content@),
            r.created_at == r.updated_at,
    {
        let now = now_millis();
        Resource::new_at(path, content, now)
    }

    /// A fresh resource at `path`, created at `now`.
    pub fn new_at(path: String, content: String, now: i64) -> (r: Resource)
        ensures
            r.id is None,
            r.user_id == DEFAULT_USER_ID,
            r.path@ == path@,
            r.content matches Some(c) && c@ == content@,
            r.size == byte_len(content@),
            r.created_at == now,
            r.updated_at == now,
    {
        let size = content.as_str().as_bytes().len();
        Resource {
            id: None,
            user_id: DEFAULT_USER_ID,
            path,
            content: Some(content),
            size,
            created_at: now,
            updated_at: now,
        }
    }

    /// A field-by-field copy.
    pub fn duplicate(&self) -> (r: Resource)
        ensures
            r == *self,
    {
        let content = match &self.content {
            Some(c) => Some(c.clone()),
            None => None,
        };
        Resource {
            id: self.id,
            user_id: self.user_id,
            path: self.path.clone(),
            content,
            size: self.size,
            created_at: self.created_at,
            updated_at: self.updated_at,
        }
    }

    /// The folder that holds this resource.
    pub fn get_folder_path(&self) -> (r: String)
        ensures
            r@ == folder_of(self.path@),
    {
        let p = self.path.as_str();
        let n = p.unicode_len();
        let mut i: usize = n;
        while i > 0 && p.get_char(i - 1) != '/'
            invariant
                i <= n,
                n == p@.len(),
                p@ == self.path@,
                forall|j: int| i <= j < n ==> p@[j] != '/',
            decreases i,
        {
            i = i - 1;
        }
        if i == 0 {
            assert(!exists|j: int| 0 <= j < p@.len() && p@[j] == '/');
            proof {
                reveal_strlit("/");
            }
            return "/".to_string();
        }
        let pos = i - 1;
        assert(0 <= pos < p@.len() && p@[pos as int] == '/');
        let ghost ls = last_slash(p@);
        assert(ls == pos) by {
            if ls < pos {
            } else if ls > pos {
            }
        }
        if pos == 0 {
            proof {
                reveal_strlit("/");
                assert("/"@ =~= seq!['/']);
            }
            "/".to_string()
        } else {
            p.substring_char(0, pos).to_string()
        }
    }
}

/// A derived folder: the path asked for, when it was created, and its direct
/// children in ascending order.
#[derive(Debug)]
pub struct FolderInfo {
    pub path: String,
    pub created_at: i64,
    pub resources: Vec<String>,
}

} // verus!
