//! The resource store: a table of resources keyed by path, with folders
//! derived from the stored paths by prefix.
use crate::models::{content_text, now_millis, FolderInfo, Resource};
use crate::order::{insert_sorted, strictly_ascending, texts};
use crate::validation::{byte_len, trim_slashes, trim_trailing_slashes};
use vstd::prelude::*;

verus! {

/// Why a store operation did not take place.
#[derive(Debug, Clone, Copy, PartialEq, Eq, Structural)]
pub enum StoreError {
    /// A resource is already stored at the path.
    Conflict,
    /// No resource, or no folder, is found at the path.
    NotFound,
    /// Every resource identifier has been handed out.
    IdsExhausted,
    /// A restored resource has no identifier, one out of range, or one that
    /// is already taken.
    InvalidId,
}

/// Paths are unique in the table.
pub open spec fn unique_paths(t: Seq<Resource>) -> bool {
    forall|i: int, j: int| 0 <= i < j < t.len() ==> (#[trigger] t[i]).path@ != (#[trigger] t[j]).path@
}

/// Each stored size is the UTF-8 length of the stored content.
pub open spec fn sizes_consistent(t: Seq<Resource>) -> bool {
    forall|i: int| 0 <= i < t.len() ==> (#[trigger] t[i]).size == byte_len(content_text(t[i].content))
}

/// Every row has an identifier, from 1 up to but not including `next`.
pub open spec fn ids_below(t: Seq<Resource>, next: i64) -> bool {
    forall|i: int| 0 <= i < t.len() ==> ((#[trigger] t[i]).id matches Some(x) && 1 <= x < next)
}

/// Identifiers are unique in the table.
pub open spec fn unique_ids(t: Seq<Resource>) -> bool {
    forall|i: int, j: int| 0 <= i < j < t.len() ==> (#[trigger] t[i]).id != (#[trigger] t[j]).id
}

/// No row was updated before it was created.
pub open spec fn times_ordered(t: Seq<Resource>) -> bool {
    forall|i: int| 0 <= i < t.len() ==> (#[trigger] t[i]).created_at <= t[i].updated_at
}

/// A row holds this identifier.
pub open spec fn has_id(t: Seq<Resource>, x: i64) -> bool {
    exists|i: int| 0 <= i < t.len() && (#[trigger] t[i]).id == Some(x)
}

/// The later of two times.
pub open spec fn later(a: i64, b: i64) -> i64 {
    if a >= b {
        a
    } else {
        b
    }
}

/// A row is stored at exactly this path.
pub open spec fn has_path(t: Seq<Resource>, p: Seq<char>) -> bool {
    exists|i: int| 0 <= i < t.len() && (#[trigger] t[i]).path@ == p
}

pub open spec fn index_of(t: Seq<Resource>, p: Seq<char>) -> int {
    choose|i: int| 0 <= i < t.len() && (#[trigger] t[i]).path@ == p
}

/// The row stored at exactly this path.
pub open spec fn lookup(t: Seq<Resource>, p: Seq<char>) -> Option<Resource> {
    if has_path(t, p) {
        Some(t[index_of(t, p)])
    } else {
        None
    }
}

/// The row that storing `r` under identifier `id` writes; an update time
/// before the creation time is raised to it.
pub open spec fn stored(r: Resource, id: i64) -> Resource {
    Resource {
        id: Some(id),
        user_id: r.user_id,
        path: r.path,
        content: r.content,
        size: byte_len(content_text(r.content)) as usize,
        created_at: r.created_at,
        updated_at: later(r.updated_at, r.created_at),
    }
}

/// `new` is `old` with its content replaced by `content` at time `now`; the
/// update time never moves back.
pub open spec fn is_update(old: Resource, new: Resource, content: Seq<char>, now: i64) -> bool {
    &&& new.content matches Some(c) && c@ == content
    &&& new.size == byte_len(content)
    &&& new.updated_at == later(now, old.updated_at)
    &&& new.id == old.id
    &&& new.user_id == old.user_id
    &&& new.path == old.path
    &&& new.created_at == old.created_at
}

/// `p` lies inside the folder `key`: it starts with `key` followed by `/`.
pub open spec fn is_descendant(p: Seq<char>, key: Seq<char>) -> bool {
    &&& p.len() > key.len()
    &&& p.take(key.len() as int) == key
    &&& p[key.len() as int] == '/'
}

/// The index of the first `/` of `p` at or after `j`, or the length of `p`.
pub open spec fn next_slash(p: Seq<char>, j: int) -> int
    decreases p.len() - j,
{
    if j >= p.len() {
        p.len() as int
    } else if p[j] == '/' {
        j
    } else {
        next_slash(p, j + 1)
    }
}

/// End of the first segment of `p` below the folder `key`.
pub open spec fn child_end(p: Seq<char>, key: Seq<char>) -> int {
    next_slash(p, key.len() + 1 as int)
}

/// `p` lies inside `key` and names a non-empty direct child of it.
pub open spec fn is_child_entry(p: Seq<char>, key: Seq<char>) -> bool {
    is_descendant(p, key) && child_end(p, key) > key.len() + 1
}

/// The direct child of `key` that holds `p`.
pub open spec fn child_of(p: Seq<char>, key: Seq<char>) -> Seq<char> {
    p.take(child_end(p, key))
}

/// The direct children of `key` among the first `k` rows.
pub open spec fn children_upto(t: Seq<Resource>, key: Seq<char>, k: int) -> Set<Seq<char>> {
    Set::new(
        |c: Seq<char>|
            exists|j: int|
                0 <= j < k && is_child_entry((#[trigger] t[j]).path@, key) && c == child_of(
                    t[j].path@,
                    key,
                ),
    )
}

/// The direct children of the folder `key`: a row inside it lists the first
/// segment below it, once, however deep the row lies.
pub open spec fn children(t: Seq<Resource>, key: Seq<char>) -> Set<Seq<char>> {
    children_upto(t, key, t.len() as int)
}

/// Some row lies inside the folder `key`.
pub open spec fn has_descendant(t: Seq<Resource>, key: Seq<char>) -> bool {
    exists|i: int| 0 <= i < t.len() && is_descendant((#[trigger] t[i]).path@, key)
}

/// The folder `key` exists: it is the root, a row is stored at it, or a row
/// lies inside it.
pub open spec fn folder_exists(t: Seq<Resource>, key: Seq<char>) -> bool {
    key.len() == 0 || has_path(t, key) || has_descendant(t, key)
}

/// The creation time a folder reports: that of a row stored at exactly its
/// path, else the time of the query.
pub open spec fn folder_created_at(t: Seq<Resource>, key: Seq<char>, now: i64) -> i64 {
    if has_path(t, key) {
        t[index_of(t, key)].created_at
    } else {
        now
    }
}

/// After a resource is stored at a free path, looking that path up gives the
/// stored row: the same content, and the UTF-8 length of that content as its
/// size.
pub proof fn lemma_create_then_get(t: Seq<Resource>, r: Resource, id: i64)
    requires
        unique_paths(t),
        !has_path(t, r.path@),
    ensures
        lookup(t.push(stored(r, id)), r.path@) == Some(stored(r, id)),
        stored(r, id).content == r.content,
        stored(r, id).size == byte_len(content_text(r.content)) as usize,
{
    let u = t.push(stored(r, id));
    let n = t.len() as int;
    assert(u[n].path@ == r.path@);
    let x = index_of(u, r.path@);
    assert(x == n) by {
        if x < n {
            assert(u[x] == t[x]);
        }
    }
}

/// An update changes the content, the size and the update time, never the
/// creation time; where the clock has not gone back behind the row's update
/// time, the new update time is the clock reading, and it is never before
/// the creation time.
pub proof fn lemma_update_times(old: Resource, new: Resource, content: Seq<char>, now: i64)
    requires
        is_update(old, new, content, now),
        old.created_at <= old.updated_at,
    ensures
        new.created_at == old.created_at,
        new.content matches Some(c) && c@ == content,
        new.size == byte_len(content),
        new.updated_at >= old.updated_at,
        new.updated_at >= new.created_at,
        now >= old.updated_at ==> new.updated_at == now,
{
}

/// A folder without trailing slashes is empty exactly where no stored path
/// starts with the folder followed by `/`.
pub proof fn lemma_folder_empty_iff_no_prefix(t: Seq<Resource>, f: Seq<char>)
    requires
        trim_trailing_slashes(f) == f,
    ensures
        !has_descendant(t, trim_trailing_slashes(f)) <==> forall|i: int|
            0 <= i < t.len() ==> !f.push('/').is_prefix_of(#[trigger] t[i].path@),
{
    assert forall|i: int| 0 <= i < t.len() implies (is_descendant(#[trigger] t[i].path@, f)
        <==> f.push('/').is_prefix_of(t[i].path@)) by {
        let p = t[i].path@;
        if is_descendant(p, f) {
            assert(p.take(f.len() + 1 as int) =~= f.push('/'));
        }
        if f.push('/').is_prefix_of(p) {
            assert(p.take(f.len() as int) =~= f.push('/').take(f.len() as int));
            assert(f.push('/').take(f.len() as int) =~= f);
            assert(p[f.len() as int] == f.push('/')[f.len() as int]);
        }
    }
}

/// The root, `/` with its trailing slashes taken away, always exists as a
/// folder; in an empty table it has no children.
pub proof fn lemma_root_always_exists(t: Seq<Resource>)
    ensures
        trim_trailing_slashes(seq!['/']) == Seq::<char>::empty(),
        folder_exists(t, Seq::<char>::empty()),
        t.len() == 0 ==> children(t, Seq::<char>::empty()) == Set::<Seq<char>>::empty(),
{
    let s = seq!['/'];
    assert(s.drop_last() =~= Seq::<char>::empty());
    assert(trim_trailing_slashes(s) == trim_trailing_slashes(s.drop_last()));
    if t.len() == 0 {
        assert(children(t, Seq::<char>::empty()) =~= Set::<Seq<char>>::empty());
    }
}

/// The table of resources. Paths and identifiers are unique; each size
/// matches its content; no row was updated before it was created.
pub struct Database {
    rows: Vec<Resource>,
    next_id: i64,
}

impl View for Database {
    type V = Seq<Resource>;

    closed spec fn view(&self) -> Seq<Resource> {
        self.rows@
    }
}

impl Database {
    /// The identifier that the next stored resource gets.
    pub closed spec fn spec_next_id(&self) -> i64 {
        self.next_id
    }

    pub open spec fn wf(&self) -> bool {
        &&& unique_paths(self@)
        &&& sizes_consistent(self@)
        &&& self.spec_next_id() >= 1
        &&& ids_below(self@, self.spec_next_id())
        &&& unique_ids(self@)
        &&& times_ordered(self@)
    }

    /// An empty table.
    pub fn new() -> (r: Database)
        ensures
            r.wf(),
            r@.len() == 0,
            r.spec_next_id() == 1,
    {
        Database { rows: Vec::new(), next_id: 1 }
    }

    /// The index of the row at `path`, if there is one.
    fn find(&self, path: &str) -> (r: Option<usize>)
        requires
            self.wf(),
        ensures
            r is None <==> !has_path(self@, path@),
            r matches Some(i) ==> i < self@.len() && i == index_of(self@, path@),
    {
        let key = path.to_string();
        let mut i: usize = 0;
        while i < self.rows.len()
            invariant
                self.wf(),
                key@ == path@,
                i <= self.rows@.len(),
                forall|j: int| 0 <= j < i ==> (#[trigger] self.rows@[j]).path@ != path@,
            decreases self.rows@.len() - i,
        {
            if self.rows[i].path == key {
                proof {
                    let k = index_of(self@, path@);
                    assert(self@[i as int].path@ == path@);
                    assert(k == i) by {
                        if k != i {
                            if k < i {
                                assert(self@[k].path@ != self@[i as int].path@);
                            } else {
                                assert(self@[i as int].path@ != self@[k].path@);
                            }
                        }
                    }
                }
                return Some(i);
            }
            i = i + 1;
        }
        None
    }

    /// A row is stored at exactly `path`.
    pub fn resource_exists(&self, path: &str) -> (r: bool)
        requires
            self.wf(),
        ensures
            r == has_path(self@, path@),
    {
        self.find(path).is_some()
    }

    /// The row stored at exactly `path`.
    pub fn get_resource(&self, path: &str) -> (r: Option<Resource>)
        requires
            self.wf(),
        ensures
            r == lookup(self@, path@),
    {
        match self.find(path) {
            Some(i) => Some(self.rows[i].duplicate()),
            None => None,
        }
    }

    /// Stores `resource` under a fresh identifier, which it returns, with its
    /// size computed from its content. Fails with `Conflict` where a row is
    /// already stored at its path.
    pub fn create_resource(&mut self, resource: &Resource) -> (r: Result<i64, StoreError>)
        requires
            old(self).wf(),
        ensures
            final(self).wf(),
            has_path(old(self)@, resource.path@) ==> r == Err::<i64, StoreError>(StoreError::Conflict)
                && final(self)@ == old(self)@ && final(self).spec_next_id() == old(self).spec_next_id(),
            !has_path(old(self)@, resource.path@) && old(self).spec_next_id() == i64::MAX ==> r
                == Err::<i64, StoreError>(StoreError::IdsExhausted) && final(self)@ == old(self)@
                && final(self).spec_next_id() == old(self).spec_next_id(),
            !has_path(old(self)@, resource.path@) && old(self).spec_next_id() < i64::MAX ==> r
                == Ok::<i64, StoreError>(old(self).spec_next_id()) && final(self)@ == old(self)@.push(
                stored(*resource, old(self).spec_next_id()),
            ) && final(self).spec_next_id() == old(self).spec_next_id() + 1,
    {
        if self.find(resource.path.as_str()).is_some() {
            return Err(StoreError::Conflict);
        }
        if self.next_id == i64::MAX {
            return Err(StoreError::IdsExhausted);
        }
        let id = self.next_id;
        proof {
            if has_id(self@, id) {
                let k = choose|k: int| 0 <= k < self@.len() && (#[trigger] self@[k]).id == Some(id);
                assert(self@[k].id matches Some(x) && x < id);
            }
        }
        self.push_row(resource, id);
        Ok(id)
    }

    /// Stores `resource` under the identifier it carries, as when a table is
    /// reloaded. Fails with `Conflict` where a row is already stored at its
    /// path, and with `InvalidId` where it carries no identifier, one below 1
    /// or equal to `i64::MAX`, or one that a stored row holds.
    pub fn restore_resource(&mut self, resource: &Resource) -> (r: Result<(), StoreError>)
        requires
            old(self).wf(),
        ensures
            final(self).wf(),
            ({
                let t = old(self)@;
                let ok_id = (resource.id matches Some(x) && 1 <= x < i64::MAX && !has_id(t, x));
                &&& has_path(t, resource.path@) ==> r == Err::<(), StoreError>(StoreError::Conflict)
                    && final(self)@ == t && final(self).spec_next_id() == old(self).spec_next_id()
                &&& !has_path(t, resource.path@) && !ok_id ==> r == Err::<(), StoreError>(
                    StoreError::InvalidId,
                ) && final(self)@ == t && final(self).spec_next_id() == old(self).spec_next_id()
                &&& !has_path(t, resource.path@) && ok_id ==> r is Ok && final(self)@ == t.push(
                    stored(*resource, resource.id->0),
                ) && final(self).spec_next_id() == later((resource.id->0 + 1) as i64, old(self).spec_next_id())
            }),
    {
        if self.find(resource.path.as_str()).is_some() {
            return Err(StoreError::Conflict);
        }
        let id = match resource.id {
            Some(x) => x,
            None => {
                return Err(StoreError::InvalidId);
            },
        };
        if id < 1 || id == i64::MAX || self.holds_id(id) {
            return Err(StoreError::InvalidId);
        }
        self.push_row(resource, id);
        Ok(())
    }

    /// A stored row holds the identifier `x`.
    fn holds_id(&self, x: i64) -> (r: bool)
        ensures
            r == has_id(self@, x),
    {
        let mut i: usize = 0;
        while i < self.rows.len()
            invariant
                i <= self.rows@.len(),
                forall|j: int| 0 <= j < i ==> (#[trigger] self.rows@[j]).id != Some(x),
            decreases self.rows@.len() - i,
        {
            let same = match self.rows[i].id {
                Some(y) => y == x,
                None => false,
            };
            if same {
                assert(self@[i as int].id == Some(x));
                return true;
            }
            i = i + 1;
        }
        false
    }

    /// Appends the row that storing `resource` under `id` writes.
    fn push_row(&mut self, resource: &Resource, id: i64)
        requires
            old(self).wf(),
            !has_path(old(self)@, resource.path@),
            !has_id(old(self)@, id),
            1 <= id < i64::MAX,
        ensures
            final(self).wf(),
            final(self)@ == old(self)@.push(stored(*resource, id)),
            final(self).spec_next_id() == later((id + 1) as i64, old(self).spec_next_id()),
    {
        let content = match &resource.content {
            Some(c) => Some(c.clone()),
            None => None,
        };
        let size = match &content {
            Some(c) => c.as_str().as_bytes().len(),
            None => 0,
        };
        let updated_at = if resource.updated_at >= resource.created_at {
            resource.updated_at
        } else {
            resource.created_at
        };
        let row = Resource {
            id: Some(id),
            user_id: resource.user_id,
            path: resource.path.clone(),
            content,
            size,
            created_at: resource.created_at,
            updated_at,
        };
        assert(row == stored(*resource, id));
        self.rows.push(row);
        if id >= self.next_id {
            self.next_id = id + 1;
        }
        proof {
            let t = self.rows@;
            let o = old(self)@;
            let n = o.len() as int;
            assert forall|i: int| 0 <= i < n implies #[trigger] t[i] == o[i] by {}
            assert forall|i: int, j: int| 0 <= i < j < t.len() implies (#[trigger] t[i]).path@
                != (#[trigger] t[j]).path@ by {
                if j == n {
                    assert(t[i] == o[i]);
                } else {
                    assert(t[i] == o[i] && t[j] == o[j]);
                }
            }
            assert forall|i: int, j: int| 0 <= i < j < t.len() implies (#[trigger] t[i]).id
                != (#[trigger] t[j]).id by {
                if j == n {
                    assert(t[i] == o[i]);
                } else {
                    assert(t[i] == o[i] && t[j] == o[j]);
                }
            }
            assert forall|i: int| 0 <= i < t.len() implies (#[trigger] t[i]).size == byte_len(
                content_text(t[i].content),
            ) && t[i].created_at <= t[i].updated_at && (t[i].id matches Some(x) && 1 <= x
                < self.next_id) by {
                if i < n {
                    assert(t[i] == o[i]);
                }
            }
        }
    }

    /// Replaces the content of the row at `path`, recomputes its size and sets
    /// its update time to now. Fails with `NotFound` where no row is stored
    /// there.
    pub fn update_resource(&mut self, path: &str, content: &str) -> (r: Result<(), StoreError>)
        requires
            old(self).wf(),
        ensures
            final(self).wf(),
            final(self).spec_next_id() == old(self).spec_next_id(),
            !has_path(old(self)@, path@) ==> r == Err::<(), StoreError>(StoreError::NotFound)
                && final(self)@ == old(self)@,
            has_path(old(self)@, path@) ==> r is Ok && final(self)@.len() == old(self)@.len()
                && (forall|j: int|
                0 <= j < old(self)@.len() && j != index_of(old(self)@, path@) ==> final(self)@[j]
                    == old(self)@[j]) && exists|now: i64|
                is_update(
                    old(self)@[index_of(old(self)@, path@)],
                    #[trigger] final(self)@[index_of(old(self)@, path@)],
                    content@,
                    now,
                ),
    {
        let now = now_millis();
        let r = self.update_resource_at(path, content, now);
        proof {
            if has_path(old(self)@, path@) {
                let i = index_of(old(self)@, path@);
                assert(is_update(old(self)@[i], self@[i], content@, now));
            }
        }
        r
    }

    /// Replaces the content of the row at `path`, recomputes its size and sets
    /// its update time to `now`, or keeps it where `now` is earlier; its
    /// creation time stays. Fails with `NotFound` where no row is stored
    /// there.
    pub fn update_resource_at(&mut self, path: &str, content: &str, now: i64) -> (r: Result<(), StoreError>)
        requires
            old(self).wf(),
        ensures
            final(self).wf(),
            final(self).spec_next_id() == old(self).spec_next_id(),
            !has_path(old(self)@, path@) ==> r == Err::<(), StoreError>(StoreError::NotFound)
                && final(self)@ == old(self)@,
            has_path(old(self)@, path@) ==> r is Ok && final(self)@.len() == old(self)@.len()
                && is_update(
                old(self)@[index_of(old(self)@, path@)],
                final(self)@[index_of(old(self)@, path@)],
                content@,
                now,
            ) && forall|j: int|
                0 <= j < old(self)@.len() && j != index_of(old(self)@, path@) ==> final(self)@[j]
                    == old(self)@[j],
    {
        match self.find(path) {
            None => Err(StoreError::NotFound),
            Some(i) => {
                let old_row = self.rows[i].duplicate();
                let text = content.to_string();
                let size = content.as_bytes().len();
                let updated_at = if now >= old_row.updated_at {
                    now
                } else {
                    old_row.updated_at
                };
                let row = Resource {
                    id: old_row.id,
                    user_id: old_row.user_id,
                    path: old_row.path,
                    content: Some(text),
                    size,
                    created_at: old_row.created_at,
                    updated_at,
                };
                self.rows.set(i, row);
                proof {
                    let t = self.rows@;
                    assert forall|a: int, b: int| 0 <= a < b < t.len() implies (#[trigger] t[a]).path@
                        != (#[trigger] t[b]).path@ by {
                        assert(t[a].path@ == old(self)@[a].path@);
                        assert(t[b].path@ == old(self)@[b].path@);
                    }
                    assert forall|a: int, b: int| 0 <= a < b < t.len() implies (#[trigger] t[a]).id
                        != (#[trigger] t[b]).id by {
                        assert(t[a].id == old(self)@[a].id);
                        assert(t[b].id == old(self)@[b].id);
                    }
                    assert forall|a: int| 0 <= a < t.len() implies (#[trigger] t[a]).size == byte_len(
                        content_text(t[a].content),
                    ) && t[a].created_at <= t[a].updated_at && (t[a].id matches Some(x) && 1 <= x
                        < self.next_id) by {
                        if a != i {
                            assert(t[a] == old(self)@[a]);
                        } else {
                            assert(old(self)@[a].created_at <= old(self)@[a].updated_at);
                        }
                    }
                }
                Ok(())
            },
        }
    }

    /// Removes the row at `path`. Fails with `NotFound` where no row is stored
    /// there.
    pub fn delete_resource(&mut self, path: &str) -> (r: Result<(), StoreError>)
        requires
            old(self).wf(),
        ensures
            final(self).wf(),
            final(self).spec_next_id() == old(self).spec_next_id(),
            !has_path(old(self)@, path@) ==> r == Err::<(), StoreError>(StoreError::NotFound)
                && final(self)@ == old(self)@,
            has_path(old(self)@, path@) ==> r is Ok && final(self)@ == old(self)@.remove(
                index_of(old(self)@, path@),
            ),
    {
        match self.find(path) {
            None => Err(StoreError::NotFound),
            Some(i) => {
                self.rows.remove(i);
                proof {
                    let t = self.rows@;
                    let o = old(self)@;
                    assert forall|a: int, b: int| 0 <= a < b < t.len() implies (#[trigger] t[a]).path@
                        != (#[trigger] t[b]).path@ by {
                        let oa = if a < i { a } else { a + 1 };
                        let ob = if b < i { b } else { b + 1 };
                        assert(t[a] == o[oa] && t[b] == o[ob]);
                    }
                    assert forall|a: int, b: int| 0 <= a < b < t.len() implies (#[trigger] t[a]).id
                        != (#[trigger] t[b]).id by {
                        let oa = if a < i { a } else { a + 1 };
                        let ob = if b < i { b } else { b + 1 };
                        assert(t[a] == o[oa] && t[b] == o[ob]);
                    }
                    assert forall|a: int| 0 <= a < t.len() implies (#[trigger] t[a]).size == byte_len(
                        content_text(t[a].content),
                    ) && t[a].created_at <= t[a].updated_at && (t[a].id matches Some(x) && 1 <= x
                        < self.next_id) by {
                        let oa = if a < i { a } else { a + 1 };
                        assert(t[a] == o[oa]);
                    }
                }
                Ok(())
            },
        }
    }

    /// No row lies inside the folder `folder_path` (its trailing slashes
    /// aside), at any depth.
    pub fn folder_is_empty(&self, folder_path: &str) -> (r: bool)
        requires
            self.wf(),
        ensures
            r == !has_descendant(self@, trim_trailing_slashes(folder_path@)),
    {
        let key = trim_slashes(folder_path);
        let key_chars = chars_of(key.as_str());
        let mut i: usize = 0;
        while i < self.rows.len()
            invariant
                key_chars@ == key@,
                key@ == trim_trailing_slashes(folder_path@),
                i <= self.rows@.len(),
                forall|j: int| 0 <= j < i ==> !is_descendant((#[trigger] self.rows@[j]).path@, key@),
            decreases self.rows@.len() - i,
        {
            if is_descendant_exec(self.rows[i].path.as_str(), &key_chars) {
                return false;
            }
            i = i + 1;
        }
        true
    }

    /// The folder at `folder_path`, reporting the current time as its
    /// creation time where no row is stored at its exact path.
    pub fn list_folder_resources(&self, folder_path: &str) -> (r: Result<FolderInfo, StoreError>)
        requires
            self.wf(),
        ensures
            ({
                let key = trim_trailing_slashes(folder_path@);
                &&& r is Err <==> !folder_exists(self@, key)
                &&& r matches Err(e) ==> e == StoreError::NotFound
                &&& r matches Ok(info) ==> {
                    &&& info.path@ == folder_path@
                    &&& has_path(self@, key) ==> info.created_at == self@[index_of(self@, key)].created_at
                    &&& strictly_ascending(texts(info.resources@))
                    &&& texts(info.resources@).to_set() == children(self@, key)
                }
            }),
    {
        let now = now_millis();
        self.list_folder_at(folder_path, now)
    }

    /// The folder at `folder_path` (its trailing slashes aside; `/` is the
    /// root, which always exists): the path as asked, its creation time, and
    /// its direct children in ascending order. A row inside it at any depth
    /// makes it exist and lists the first segment below it. Fails with
    /// `NotFound` where the folder does not exist.
    pub fn list_folder_at(&self, folder_path: &str, now: i64) -> (r: Result<FolderInfo, StoreError>)
        requires
            self.wf(),
        ensures
            ({
                let key = trim_trailing_slashes(folder_path@);
                &&& r is Err <==> !folder_exists(self@, key)
                &&& r matches Err(e) ==> e == StoreError::NotFound
                &&& r matches Ok(info) ==> {
                    &&& info.path@ == folder_path@
                    &&& info.created_at == folder_created_at(self@, key, now)
                    &&& strictly_ascending(texts(info.resources@))
                    &&& texts(info.resources@).to_set() == children(self@, key)
                }
            }),
    {
        let key = trim_slashes(folder_path);
        let key_chars = chars_of(key.as_str());
        let klen = key_chars.len();
        let mut created_at = now;
        let mut exact = false;
        let mut inside = false;
        let mut list: Vec<String> = Vec::new();
        let ghost t = self@;
        let ghost k = key@;
        assert(texts(list@).to_set() =~= children_upto(t, k, 0));
        let mut i: usize = 0;
        while i < self.rows.len()
            invariant
                t == self@,
                k == key@,
                key_chars@ == k,
                klen == k.len(),
                k == trim_trailing_slashes(folder_path@),
                unique_paths(t),
                i <= t.len(),
                exact ==> exists|j: int|
                    0 <= j < i && (#[trigger] t[j]).path@ == k && created_at == t[j].created_at,
                !exact ==> created_at == now && forall|j: int| 0 <= j < i ==> (#[trigger] t[j]).path@ != k,
                inside <==> exists|j: int| 0 <= j < i && is_descendant((#[trigger] t[j]).path@, k),
                strictly_ascending(texts(list@)),
                texts(list@).to_set() == children_upto(t, k, i as int),
            decreases t.len() - i,
        {
            let p = self.rows[i].path.as_str();
            if self.rows[i].path == key {
                exact = true;
                created_at = self.rows[i].created_at;
            }
            if is_descendant_exec(p, &key_chars) {
                inside = true;
                let pn = p.unicode_len();
                assert(klen < pn);
                let end = next_slash_exec(p, klen + 1);
                if end > klen + 1 {
                    let child = p.substring_char(0, end).to_string();
                    assert(child@ == child_of(t[i as int].path@, k));
                    insert_sorted(&mut list, child);
                }
            }
            proof {
                assert forall|c: Seq<char>| #[trigger] children_upto(t, k, i + 1).contains(c) <==> (
                children_upto(t, k, i as int).contains(c) || (is_child_entry(t[i as int].path@, k)
                    && c == child_of(t[i as int].path@, k))) by {
                    if children_upto(t, k, i + 1).contains(c) {
                        let j = choose|j: int|
                            0 <= j < i + 1 && is_child_entry((#[trigger] t[j]).path@, k) && c == child_of(
                                t[j].path@,
                                k,
                            );
                        if j < i {
                            assert(children_upto(t, k, i as int).contains(c));
                        }
                    }
                    if children_upto(t, k, i as int).contains(c) {
                        let j = choose|j: int|
                            0 <= j < i && is_child_entry((#[trigger] t[j]).path@, k) && c == child_of(
                                t[j].path@,
                                k,
                            );
                        assert(0 <= j < i + 1);
                    }
                }
                assert(texts(list@).to_set() =~= children_upto(t, k, i + 1));
            }
            i = i + 1;
        }
        if !exact && !inside && klen > 0 {
            return Err(StoreError::NotFound);
        }
        proof {
            if exact {
                let j = choose|j: int| 0 <= j < i && (#[trigger] t[j]).path@ == k && created_at == t[j].created_at;
                let x = index_of(t, k);
                assert(x == j) by {
                    if x < j {
                        assert(t[x].path@ != t[j].path@);
                    } else if x > j {
                        assert(t[j].path@ != t[x].path@);
                    }
                }
            }
        }
        Ok(FolderInfo { path: folder_path.to_string(), created_at, resources: list })
    }
}

/// The characters of a text.
fn chars_of(s: &str) -> (r: Vec<char>)
    ensures
        r@ == s@,
{
    let n = s.unicode_len();
    let mut r: Vec<char> = Vec::new();
    let mut i: usize = 0;
    while i < n
        invariant
            n == s@.len(),
            i <= n,
            r@ == s@.take(i as int),
        decreases n - i,
    {
        r.push(s.get_char(i));
        assert(r@ =~= s@.take(i + 1));
        i = i + 1;
    }
    assert(s@.take(n as int) =~= s@);
    r
}

/// `p` starts with `key` followed by `/`.
fn is_descendant_exec(p: &str, key: &Vec<char>) -> (r: bool)
    ensures
        r == is_descendant(p@, key@),
{
    let n = p.unicode_len();
    let klen = key.len();
    if n <= klen {
        return false;
    }
    let mut j: usize = 0;
    while j < klen
        invariant
            n == p@.len(),
            klen == key@.len(),
            klen < n,
            j <= klen,
            forall|m: int| 0 <= m < j ==> p@[m] == key@[m],
        decreases klen - j,
    {
        if p.get_char(j) != key[j] {
            assert(p@.take(klen as int)[j as int] != key@[j as int]);
            return false;
        }
        j = j + 1;
    }
    assert(p@.take(klen as int) =~= key@);
    p.get_char(klen) == '/'
}

/// The index of the first `/` of `p` at or after `start`, or its length.
fn next_slash_exec(p: &str, start: usize) -> (r: usize)
    ensures
        r == next_slash(p@, start as int),
        r <= p@.len(),
{
    let n = p.unicode_len();
    let mut j: usize = start;
    if j >= n {
        return n;
    }
    while j < n && p.get_char(j) != '/'
        invariant
            n == p@.len(),
            start <= j <= n,
            next_slash(p@, start as int) == next_slash(p@, j as int),
        decreases n - j,
    {
        j = j + 1;
    }
    j
}

} // verus!
