//! Path semantics: normalisation and validation of hierarchical resource
//! paths, and the content-size limit.
use vstd::prelude::*;
use vstd::string::StringExecFns;
use vstd::utf8::encode_utf8;

verus! {

/// Longest accepted path segment, in UTF-8 bytes.
pub const MAX_RESOURCE_NAME_LENGTH: usize = 100;

/// Largest accepted resource content, in UTF-8 bytes (5 MiB).
pub const MAX_RESOURCE_SIZE: usize = 5 * 1024 * 1024;

/// Largest accepted number of non-empty path segments.
pub const MAX_FOLDER_DEPTH: usize = 5;

/// The limits that paths and contents are held to.
#[derive(Debug, Clone, Copy, PartialEq, Eq, Structural)]
pub struct Limits {
    /// Largest number of non-empty path segments.
    pub max_depth: usize,
    /// Longest path segment, in UTF-8 bytes.
    pub max_name_length: usize,
    /// Largest content, in UTF-8 bytes.
    pub max_content_size: usize,
}

pub open spec fn default_limits() -> Limits {
    Limits {
        max_depth: MAX_FOLDER_DEPTH,
        max_name_length: MAX_RESOURCE_NAME_LENGTH,
        max_content_size: MAX_RESOURCE_SIZE,
    }
}

impl Limits {
    /// The default limits: 5 segments, 100 bytes a segment, 5 MiB of content.
    pub fn standard() -> (r: Limits)
        ensures
            r == default_limits(),
    {
        Limits {
            max_depth: MAX_FOLDER_DEPTH,
            max_name_length: MAX_RESOURCE_NAME_LENGTH,
            max_content_size: MAX_RESOURCE_SIZE,
        }
    }
}

/// Why a path or a content body was rejected.
#[derive(Debug, Clone, Copy, PartialEq, Eq, Structural)]
pub enum ValidationError {
    EmptyPath,
    MissingLeadingSlash,
    TooDeep,
    NameTooLong,
    InvalidCharacters,
    ReservedCharacters,
    ContentTooLarge,
}

pub open spec fn digit(d: nat) -> char {
    if d == 0 {
        '0'
    } else if d == 1 {
        '1'
    } else if d == 2 {
        '2'
    } else if d == 3 {
        '3'
    } else if d == 4 {
        '4'
    } else if d == 5 {
        '5'
    } else if d == 6 {
        '6'
    } else if d == 7 {
        '7'
    } else if d == 8 {
        '8'
    } else {
        '9'
    }
}

/// The decimal digits of `n`.
pub open spec fn decimal_text(n: nat) -> Seq<char>
    decreases n,
{
    if n < 10 {
        seq![digit(n)]
    } else {
        decimal_text(n / 10).push(digit(n % 10))
    }
}

fn digit_str(d: usize) -> (r: &'static str)
    requires
        d < 10,
    ensures
        r@ == seq![digit(d as nat)],
{
    proof {
        reveal_strlit("0");
        reveal_strlit("1");
        reveal_strlit("2");
        reveal_strlit("3");
        reveal_strlit("4");
        reveal_strlit("5");
        reveal_strlit("6");
        reveal_strlit("7");
        reveal_strlit("8");
        reveal_strlit("9");
    }
    let r = if d == 0 {
        "0"
    } else if d == 1 {
        "1"
    } else if d == 2 {
        "2"
    } else if d == 3 {
        "3"
    } else if d == 4 {
        "4"
    } else if d == 5 {
        "5"
    } else if d == 6 {
        "6"
    } else if d == 7 {
        "7"
    } else if d == 8 {
        "8"
    } else {
        "9"
    };
    assert(r@ =~= seq![digit(d as nat)]);
    r
}

/// `n` written in decimal.
pub fn decimal(n: usize) -> (r: String)
    ensures
        r@ == decimal_text(n as nat),
    decreases n,
{
    if n < 10 {
        digit_str(n).to_string()
    } else {
        let mut s = decimal(n / 10);
        s.append(digit_str(n % 10));
        assert(s@ =~= decimal_text(n as nat));
        s
    }
}

/// The client-facing reason for each error under the given limits.
pub open spec fn reason(e: ValidationError, lim: Limits) -> Seq<char> {
    match e {
        ValidationError::EmptyPath => "Path cannot be empty"@,
        ValidationError::MissingLeadingSlash => "Path must start with '/'"@,
        ValidationError::TooDeep => "Maximum folder depth is "@ + decimal_text(lim.max_depth as nat),
        ValidationError::NameTooLong => "Resource name cannot exceed "@ + decimal_text(
            lim.max_name_length as nat,
        ) + " characters"@,
        ValidationError::InvalidCharacters => "Invalid characters in path"@,
        ValidationError::ReservedCharacters => "Path contains reserved characters"@,
        ValidationError::ContentTooLarge => "Content size cannot exceed "@ + decimal_text(
            lim.max_content_size as nat,
        ) + " bytes"@,
    }
}

impl ValidationError {
    /// The client-facing reason for this error under the default limits.
    pub fn message(&self) -> (r: String)
        ensures
            r@ == reason(*self, default_limits()),
    {
        self.message_within(&Limits::standard())
    }

    /// The client-facing reason for this error under `limits`.
    pub fn message_within(&self, limits: &Limits) -> (r: String)
        ensures
            r@ == reason(*self, *limits),
    {
        match self {
            ValidationError::EmptyPath => "Path cannot be empty".to_string(),
            ValidationError::MissingLeadingSlash => "Path must start with '/'".to_string(),
            ValidationError::TooDeep => {
                let mut s = "Maximum folder depth is ".to_string();
                s.append(decimal(limits.max_depth).as_str());
                s
            },
            ValidationError::NameTooLong => {
                let mut s = "Resource name cannot exceed ".to_string();
                s.append(decimal(limits.max_name_length).as_str());
                s.append(" characters");
                s
            },
            ValidationError::InvalidCharacters => "Invalid characters in path".to_string(),
            ValidationError::ReservedCharacters => "Path contains reserved characters".to_string(),
            ValidationError::ContentTooLarge => {
                let mut s = "Content size cannot exceed ".to_string();
                s.append(decimal(limits.max_content_size).as_str());
                s.append(" bytes");
                s
            },
        }
    }
}

/// Length of a text in UTF-8 bytes.
pub open spec fn byte_len(s: Seq<char>) -> nat {
    encode_utf8(s).len()
}

/// The non-empty segments of a path, split on `/`, in order.
pub open spec fn segments(s: Seq<char>) -> Seq<Seq<char>>
    decreases s.len(),
{
    if s.len() == 0 {
        seq![]
    } else {
        let prev = segments(s.drop_last());
        if s.last() == '/' {
            prev
        } else if s.len() >= 2 && s[s.len() - 2] != '/' {
            prev.update(prev.len() - 1, prev.last().push(s.last()))
        } else {
            prev.push(seq![s.last()])
        }
    }
}

pub open spec fn has_dot_dot(seg: Seq<char>) -> bool {
    exists|j: int| 0 <= j && j + 1 < seg.len() && #[trigger] seg[j] == '.' && seg[j + 1] == '.'
}

pub open spec fn has_nul(seg: Seq<char>) -> bool {
    exists|j: int| 0 <= j < seg.len() && seg[j] == '\0'
}

pub open spec fn is_reserved(c: char) -> bool {
    c == '<' || c == '>' || c == ':' || c == '"' || c == '|' || c == '?' || c == '*'
}

pub open spec fn has_reserved(seg: Seq<char>) -> bool {
    exists|j: int| 0 <= j < seg.len() && is_reserved(seg[j])
}

/// Some segment is longer than `max_name` UTF-8 bytes.
pub open spec fn any_too_long(segs: Seq<Seq<char>>, max_name: usize) -> bool {
    exists|k: int| 0 <= k < segs.len() && byte_len(#[trigger] segs[k]) > max_name
}

/// Some segment holds `..` or a NUL character.
pub open spec fn any_bad_chars(segs: Seq<Seq<char>>) -> bool {
    exists|k: int| 0 <= k < segs.len() && (has_dot_dot(#[trigger] segs[k]) || has_nul(segs[k]))
}

/// Some segment holds a reserved character.
pub open spec fn any_reserved(segs: Seq<Seq<char>>) -> bool {
    exists|k: int| 0 <= k < segs.len() && has_reserved(#[trigger] segs[k])
}

/// The first violation found in a path under `lim`, checking in order:
/// non-empty, leading `/`, depth, then over all segments their length, then
/// `..` or NUL, then reserved characters. `None` for a valid path.
pub open spec fn path_error_within(s: Seq<char>, lim: Limits) -> Option<ValidationError> {
    if s.len() == 0 {
        Some(ValidationError::EmptyPath)
    } else if s[0] != '/' {
        Some(ValidationError::MissingLeadingSlash)
    } else if segments(s).len() > lim.max_depth {
        Some(ValidationError::TooDeep)
    } else if any_too_long(segments(s), lim.max_name_length) {
        Some(ValidationError::NameTooLong)
    } else if any_bad_chars(segments(s)) {
        Some(ValidationError::InvalidCharacters)
    } else if any_reserved(segments(s)) {
        Some(ValidationError::ReservedCharacters)
    } else {
        None
    }
}

pub open spec fn is_valid_path_within(s: Seq<char>, lim: Limits) -> bool {
    path_error_within(s, lim) is None
}

/// The first violation found in a path under the default limits.
pub open spec fn path_error(s: Seq<char>) -> Option<ValidationError> {
    path_error_within(s, default_limits())
}

pub open spec fn is_valid_path(s: Seq<char>) -> bool {
    path_error(s) is None
}

/// A text takes at least one UTF-8 byte per character.
pub proof fn lemma_byte_len_at_least_chars(s: Seq<char>)
    ensures
        byte_len(s) >= s.len(),
    decreases s.len(),
{
    if s.len() > 0 {
        lemma_byte_len_at_least_chars(s.drop_first());
    }
}

/// Under any limits, a path is rejected where it is empty, does not start
/// with `/`, has more non-empty segments than the depth limit, or has a
/// segment longer than the name limit in characters, or holding `..`, a NUL
/// character or one of `< > : " | ? *`.
pub proof fn lemma_invalid_paths_rejected(p: Seq<char>, lim: Limits)
    ensures
        p.len() == 0 ==> !is_valid_path_within(p, lim),
        p.len() > 0 && p[0] != '/' ==> !is_valid_path_within(p, lim),
        segments(p).len() > lim.max_depth ==> !is_valid_path_within(p, lim),
        forall|k: int|
            0 <= k < segments(p).len() && ((#[trigger] segments(p)[k]).len() > lim.max_name_length
                || has_dot_dot(segments(p)[k]) || has_nul(segments(p)[k]) || has_reserved(
                segments(p)[k],
            )) ==> !is_valid_path_within(p, lim),
{
    assert forall|k: int|
        0 <= k < segments(p).len() && ((#[trigger] segments(p)[k]).len() > lim.max_name_length
            || has_dot_dot(segments(p)[k]) || has_nul(segments(p)[k]) || has_reserved(
            segments(p)[k],
        )) implies !is_valid_path_within(p, lim) by {
        lemma_byte_len_at_least_chars(segments(p)[k]);
    }
}

/// A path without its trailing slashes.
pub open spec fn trim_trailing_slashes(s: Seq<char>) -> Seq<char>
    decreases s.len(),
{
    if s.len() > 0 && s.last() == '/' {
        trim_trailing_slashes(s.drop_last())
    } else {
        s
    }
}

/// The canonical form of a path: it loses its trailing slashes, and a
/// non-empty path made of slashes alone becomes the root `/`.
pub open spec fn normalized(s: Seq<char>) -> Seq<char> {
    if s.len() > 0 && trim_trailing_slashes(s).len() == 0 {
        seq!['/']
    } else {
        trim_trailing_slashes(s)
    }
}

proof fn lemma_trim_shape(s: Seq<char>)
    ensures
        trim_trailing_slashes(s).len() <= s.len(),
        trim_trailing_slashes(s) == s.subrange(0, trim_trailing_slashes(s).len() as int),
        trim_trailing_slashes(s).len() == 0 || trim_trailing_slashes(s).last() != '/',
        forall|j: int|
            trim_trailing_slashes(s).len() <= j < s.len() ==> s[j] == '/',
    decreases s.len(),
{
    if s.len() > 0 && s.last() == '/' {
        lemma_trim_shape(s.drop_last());
        assert forall|j: int| trim_trailing_slashes(s).len() <= j < s.len() implies s[j] == '/' by {
            if j < s.len() - 1 {
                assert(s.drop_last()[j] == s[j]);
            }
        }
        assert(s.drop_last().subrange(0, trim_trailing_slashes(s).len() as int) =~= s.subrange(
            0,
            trim_trailing_slashes(s).len() as int,
        ));
    } else {
        assert(s.subrange(0, s.len() as int) =~= s);
    }
}

proof fn lemma_trim_of_prefix(s: Seq<char>, n: int)
    requires
        0 <= n <= s.len(),
        n == 0 || s[n - 1] != '/',
        forall|j: int| n <= j < s.len() ==> s[j] == '/',
    ensures
        trim_trailing_slashes(s) == s.subrange(0, n),
    decreases s.len(),
{
    if s.len() > n {
        assert(s.drop_last().len() < s.len());
        lemma_trim_of_prefix(s.drop_last(), n);
        assert(s.drop_last().subrange(0, n) =~= s.subrange(0, n));
    } else {
        assert(s.subrange(0, n) =~= s);
    }
}

proof fn lemma_trim_root()
    ensures
        trim_trailing_slashes(seq!['/']).len() == 0,
{
    let r = seq!['/'];
    assert(r.drop_last() =~= Seq::<char>::empty());
    assert(trim_trailing_slashes(r) == trim_trailing_slashes(r.drop_last()));
}

/// Normalising twice gives what normalising once gives.
pub proof fn lemma_normalize_idempotent(p: Seq<char>)
    ensures
        normalized(normalized(p)) == normalized(p),
{
    lemma_trim_shape(p);
    lemma_trim_root();
    let t = trim_trailing_slashes(p);
    if t.len() > 0 {
        lemma_trim_of_prefix(t, t.len() as int);
        assert(t.subrange(0, t.len() as int) =~= t);
    }
}

/// Trailing slashes do not change the segments of a path.
proof fn lemma_segments_of_trim(s: Seq<char>)
    ensures
        segments(trim_trailing_slashes(s)) == segments(s),
    decreases s.len(),
{
    if s.len() > 0 && s.last() == '/' {
        lemma_segments_of_trim(s.drop_last());
    }
}

/// Normalising a path does not change whether, or why, it is rejected: it
/// keeps its first character and its segments, and a valid path stays valid.
pub proof fn lemma_normalize_keeps_path_error(p: Seq<char>, lim: Limits)
    ensures
        path_error_within(normalized(p), lim) == path_error_within(p, lim),
        normalized(p).len() == 0 <==> p.len() == 0,
{
    lemma_trim_shape(p);
    lemma_trim_root();
    lemma_segments_of_trim(p);
    lemma_segments_of_trim(seq!['/']);
    let t = trim_trailing_slashes(p);
    let n = normalized(p);
    if p.len() > 0 {
        if t.len() == 0 {
            assert(p[0] == '/');
            assert(segments(trim_trailing_slashes(seq!['/'])) == segments(Seq::<char>::empty()));
            assert(t =~= Seq::<char>::empty());
            assert(segments(n) == segments(p));
            assert(n[0] == '/');
        } else {
            assert(t[0] == p.subrange(0, t.len() as int)[0]);
            assert(n[0] == p[0]);
        }
    }
}

/// Strips the trailing slashes of a path; a non-empty path of slashes alone
/// becomes the root `/`.
pub fn normalize_path(path: &str) -> (r: String)
    ensures
        r@ == normalized(path@),
{
    let n = path.unicode_len();
    let t = trim_slashes(path);
    if n > 0 && t.unicode_len() == 0 {
        proof {
            reveal_strlit("/");
        }
        let root = "/".to_string();
        assert(root@ =~= seq!['/']);
        return root;
    }
    t
}

/// The path without any of its trailing slashes (the root becomes empty).
pub fn trim_slashes(path: &str) -> (r: String)
    ensures
        r@ == trim_trailing_slashes(path@),
{
    let n = path.unicode_len();
    let mut end: usize = n;
    while end > 0 && path.get_char(end - 1) == '/'
        invariant
            end <= n,
            n == path@.len(),
            forall|j: int| end <= j < n ==> path@[j] == '/',
        decreases end,
    {
        end = end - 1;
    }
    proof {
        lemma_trim_of_prefix(path@, end as int);
    }
    let kept = path.substring_char(0, end);
    kept.to_string()
}

/// Checks a path under the default limits; see `validate_path_within`.
pub fn validate_path(path: &str) -> (r: Result<(), ValidationError>)
    ensures
        r is Ok <==> is_valid_path(path@),
        r matches Err(e) ==> path_error(path@) == Some(e),
{
    validate_path_within(path, &Limits::standard())
}

/// Checks a path, in order: it is non-empty, starts with `/`, has at most
/// `limits.max_depth` non-empty segments, no segment is over
/// `limits.max_name_length` bytes long, none holds `..` or a NUL character,
/// and none holds one of `< > : " | ? *`. The first violation found is
/// returned.
pub fn validate_path_within(path: &str, limits: &Limits) -> (r: Result<(), ValidationError>)
    ensures
        r is Ok <==> is_valid_path_within(path@, *limits),
        r matches Err(e) ==> path_error_within(path@, *limits) == Some(e),
{
    let n = path.unicode_len();
    if n == 0 {
        return Err(ValidationError::EmptyPath);
    }
    if path.get_char(0) != '/' {
        return Err(ValidationError::MissingLeadingSlash);
    }
    let ranges = segment_ranges(path);
    if ranges.len() > limits.max_depth {
        return Err(ValidationError::TooDeep);
    }
    let ghost segs = segments(path@);
    let max_name = limits.max_name_length;
    let mut k: usize = 0;
    while k < ranges.len()
        invariant
            segs == segments(path@),
            ranges_match(path@, segs, ranges@, path@.len() as int),
            segs.len() <= limits.max_depth,
            path@.len() > 0,
            path@[0] == '/',
            max_name == limits.max_name_length,
            k <= ranges@.len(),
            forall|m: int| 0 <= m < k ==> byte_len(#[trigger] segs[m]) <= max_name,
        decreases ranges@.len() - k,
    {
        let (a, b) = ranges[k];
        assert(ranges@[k as int] == (a, b));
        let seg = path.substring_char(a, b);
        assert(seg@ == segs[k as int]);
        if seg.as_bytes().len() > max_name {
            assert(any_too_long(segs, max_name));
            return Err(ValidationError::NameTooLong);
        }
        k = k + 1;
    }
    assert(!any_too_long(segs, max_name));
    let mut k: usize = 0;
    while k < ranges.len()
        invariant
            segs == segments(path@),
            ranges_match(path@, segs, ranges@, path@.len() as int),
            segs.len() <= limits.max_depth,
            path@.len() > 0,
            path@[0] == '/',
            max_name == limits.max_name_length,
            k <= ranges@.len(),
            !any_too_long(segs, max_name),
            forall|m: int| 0 <= m < k ==> !has_dot_dot(#[trigger] segs[m]) && !has_nul(segs[m]),
        decreases ranges@.len() - k,
    {
        let (a, b) = ranges[k];
        assert(ranges@[k as int] == (a, b));
        let seg = path.substring_char(a, b);
        assert(seg@ == segs[k as int]);
        if has_bad_chars(seg) {
            assert(any_bad_chars(segs));
            return Err(ValidationError::InvalidCharacters);
        }
        k = k + 1;
    }
    assert(!any_bad_chars(segs));
    let mut k: usize = 0;
    while k < ranges.len()
        invariant
            segs == segments(path@),
            ranges_match(path@, segs, ranges@, path@.len() as int),
            segs.len() <= limits.max_depth,
            path@.len() > 0,
            path@[0] == '/',
            max_name == limits.max_name_length,
            k <= ranges@.len(),
            !any_too_long(segs, max_name),
            !any_bad_chars(segs),
            forall|m: int| 0 <= m < k ==> !has_reserved(#[trigger] segs[m]),
        decreases ranges@.len() - k,
    {
        let (a, b) = ranges[k];
        assert(ranges@[k as int] == (a, b));
        let seg = path.substring_char(a, b);
        assert(seg@ == segs[k as int]);
        if has_reserved_chars(seg) {
            assert(any_reserved(segs));
            return Err(ValidationError::ReservedCharacters);
        }
        k = k + 1;
    }
    assert(!any_reserved(segs));
    Ok(())
}

/// The segment holds `..` or a NUL character.
fn has_bad_chars(seg: &str) -> (r: bool)
    ensures
        r == (has_dot_dot(seg@) || has_nul(seg@)),
{
    let n = seg.unicode_len();
    let mut j: usize = 0;
    while j < n
        invariant
            n == seg@.len(),
            j <= n,
            forall|i: int| 0 <= i < j ==> seg@[i] != '\0',
            forall|i: int| 0 <= i && i + 1 < seg@.len() && i < j ==> !(#[trigger] seg@[i] == '.' && seg@[i + 1] == '.'),
        decreases n - j,
    {
        let c = seg.get_char(j);
        if c == '\0' {
            assert(has_nul(seg@));
            return true;
        }
        if c == '.' && j + 1 < n && seg.get_char(j + 1) == '.' {
            assert(has_dot_dot(seg@));
            return true;
        }
        j = j + 1;
    }
    assert(!has_nul(seg@));
    assert(!has_dot_dot(seg@));
    false
}

/// The segment holds one of `< > : " | ? *`.
fn has_reserved_chars(seg: &str) -> (r: bool)
    ensures
        r == has_reserved(seg@),
{
    let n = seg.unicode_len();
    let mut j: usize = 0;
    while j < n
        invariant
            n == seg@.len(),
            j <= n,
            forall|i: int| 0 <= i < j ==> !is_reserved(seg@[i]),
        decreases n - j,
    {
        let c = seg.get_char(j);
        if c == '<' || c == '>' || c == ':' || c == '"' || c == '|' || c == '?' || c == '*' {
            assert(is_reserved(seg@[j as int]));
            return true;
        }
        j = j + 1;
    }
    false
}

/// `r` holds the char ranges, each ending by `bound`, of the segments `segs`
/// of `s`.
pub open spec fn ranges_match(s: Seq<char>, segs: Seq<Seq<char>>, r: Seq<(usize, usize)>, bound: int) -> bool {
    &&& r.len() == segs.len()
    &&& forall|m: int|
        0 <= m < r.len() ==> {
            &&& (#[trigger] r[m]).0 <= r[m].1
            &&& r[m].1 <= bound
            &&& segs[m] == s.subrange(r[m].0 as int, r[m].1 as int)
        }
}

/// The char ranges `[a, b)` of the non-empty segments of a path.
fn segment_ranges(path: &str) -> (r: Vec<(usize, usize)>)
    ensures
        ranges_match(path@, segments(path@), r@, path@.len() as int),
{
    let n = path.unicode_len();
    let mut ranges: Vec<(usize, usize)> = Vec::new();
    let mut i: usize = 0;
    let mut prev_slash = true;
    while i < n
        invariant
            n == path@.len(),
            i <= n,
            ranges_match(path@, segments(path@.take(i as int)), ranges@, i as int),
            prev_slash <==> (i == 0 || path@[i - 1] == '/'),
            !prev_slash ==> ranges@.len() > 0 && ranges@.last().1 == i,
        decreases n - i,
    {
        let c = path.get_char(i);
        let ghost pre = path@.take(i as int);
        let ghost cur = path@.take(i + 1);
        assert(cur.drop_last() =~= pre);
        assert(cur.last() == c);
        proof {
            reveal_with_fuel(segments, 1);
        }
        if c == '/' {
            assert(segments(cur) == segments(pre));
            prev_slash = true;
        } else if !prev_slash {
            let last = ranges.len() - 1;
            let (a, _b) = ranges[last];
            proof {
                let prev = segments(pre);
                assert(cur.len() >= 2 && cur[cur.len() - 2] != '/');
                assert(segments(cur) == prev.update(prev.len() - 1, prev.last().push(c)));
                assert(prev.last().push(c) =~= path@.subrange(a as int, i + 1));
            }
            ranges.set(last, (a, i + 1));
            assert(ranges_match(path@, segments(cur), ranges@, i + 1));
        } else {
            proof {
                assert(cur.len() < 2 || cur[cur.len() - 2] == '/');
                assert(segments(cur) == segments(pre).push(seq![c]));
                assert(seq![c] =~= path@.subrange(i as int, i + 1));
            }
            ranges.push((i, i + 1));
            assert(ranges_match(path@, segments(cur), ranges@, i + 1));
            prev_slash = false;
        }
        i = i + 1;
    }
    assert(path@.take(n as int) =~= path@);
    ranges
}

/// Checks that a content body is at most `MAX_RESOURCE_SIZE` bytes long in
/// UTF-8.
pub fn validate_content(content: &str) -> (r: Result<(), ValidationError>)
    ensures
        r is Ok <==> byte_len(content@) <= MAX_RESOURCE_SIZE,
        r matches Err(e) ==> e == ValidationError::ContentTooLarge,
{
    validate_content_within(content, &Limits::standard())
}

/// Checks that a content body is at most `limits.max_content_size` bytes
/// long in UTF-8.
pub fn validate_content_within(content: &str, limits: &Limits) -> (r: Result<(), ValidationError>)
    ensures
        r is Ok <==> byte_len(content@) <= limits.max_content_size,
        r matches Err(e) ==> e == ValidationError::ContentTooLarge,
{
    if content.as_bytes().len() > limits.max_content_size {
        return Err(ValidationError::ContentTooLarge);
    }
    Ok(())
}

} // verus!
