//! Publishing one index into the shared browser: route names, repository slugs, the catalog,
//! and the choices made around the files of the site.
use vstd::prelude::*;

use crate::config::is_ascii_alphanumeric;
use crate::documents::{deduplicate_documents, deduplicated, document_views};
use crate::file_data::string_views;
use crate::index::{Document, DocumentView};
use crate::order::{stable_sort, stably_sorted, with_key, SortKey};
use crate::paths::{dot, dot_dot, has_parent_dir, has_parent_segment, has_root, is_absolute, segments};
use crate::text::{
    chars_equal, chars_of, find_char, first_index_of, lemma_first_index_of, push_range, split_at_char,
    string_of, trim, trimmed, views,
};

verus! {

/// What to publish.
pub struct BuildOptions {
    /// The SCIP index file.
    pub input: String,
    /// The checkout that the index was made from, if given.
    pub source_root: Option<String>,
    /// The root of the site.
    pub web_root: String,
    pub repo_url: String,
    pub commit: String,
    pub title: String,
}

/// What a build published.
pub struct BuildReport {
    pub files: usize,
    pub occurrences: usize,
    pub output: String,
    pub warnings: Vec<String>,
}

/// Why a build input was refused.
pub enum SiteFailure {
    InvalidRouteSegment(Seq<char>),
    EmptyRepoUrl,
    NoSlugCharacters,
    UnsafeDocumentPath(Seq<char>),
    SlugCollision(Seq<char>, Seq<char>, Seq<char>),
    NoDocuments,
}

/// A build error.
#[derive(Debug)]
pub enum SiteError {
    /// `{name} must contain only ASCII letters, digits, '.', '_' or '-'`
    InvalidRouteSegment { name: String },
    /// `--repo-url must not be empty`
    EmptyRepoUrl,
    /// `--repo-url does not contain any slug characters`
    NoSlugCharacters,
    /// `unsafe SCIP document path: {path:?}`
    UnsafeDocumentPath { path: String },
    /// `repository slug collision: {repo_url:?} and {existing:?} both become {slug:?}`
    SlugCollision { repo_url: String, existing: String, slug: String },
    /// `SCIP index contains no documents`
    NoDocuments,
}

impl View for SiteError {
    type V = SiteFailure;

    open spec fn view(&self) -> SiteFailure {
        match self {
            SiteError::InvalidRouteSegment { name } => SiteFailure::InvalidRouteSegment(name@),
            SiteError::EmptyRepoUrl => SiteFailure::EmptyRepoUrl,
            SiteError::NoSlugCharacters => SiteFailure::NoSlugCharacters,
            SiteError::UnsafeDocumentPath { path } => SiteFailure::UnsafeDocumentPath(path@),
            SiteError::SlugCollision { repo_url, existing, slug } => SiteFailure::SlugCollision(
                repo_url@,
                existing@,
                slug@,
            ),
            SiteError::NoDocuments => SiteFailure::NoDocuments,
        }
    }
}

/// A character allowed in a route segment.
pub open spec fn route_char(c: char) -> bool {
    is_ascii_alphanumeric(c) || c == '.' || c == '_' || c == '-'
}

/// A valid route segment: not empty, and only ASCII letters, digits, `.`, `_` and `-`.
pub open spec fn route_segment_ok(s: Seq<char>) -> bool {
    s.len() > 0 && forall|i: int| 0 <= i < s.len() ==> route_char(#[trigger] s[i])
}

/// Checks that `value` can stand in a URL route; `name` says what it is.
pub fn validate_route_segment(value: &str, name: &str) -> (res: Result<(), SiteError>)
    ensures
        res is Ok <==> route_segment_ok(value@),
        res matches Err(e) ==> e@ == SiteFailure::InvalidRouteSegment(name@),
{
    let chars = chars_of(value);
    let mut ok = chars.len() > 0;
    let mut i: usize = 0;
    while ok && i < chars.len()
        invariant
            i <= chars@.len(),
            chars@ == value@,
            ok ==> chars@.len() > 0,
            ok ==> forall|j: int| 0 <= j < i ==> route_char(#[trigger] chars@[j]),
            !ok ==> !route_segment_ok(value@),
        decreases chars@.len() - i,
    {
        let c = chars[i];
        if !(('a' <= c && c <= 'z') || ('A' <= c && c <= 'Z') || ('0' <= c && c <= '9') || c == '.'
            || c == '_' || c == '-') {
            ok = false;
        }
        i += 1;
    }
    if ok {
        Ok(())
    } else {
        Err(SiteError::InvalidRouteSegment { name: name.to_owned() })
    }
}

/// A safe document path: not empty, relative, and made of plain names only (no leading `.`
/// component and no `..`).
pub open spec fn document_path_ok(s: Seq<char>) -> bool {
    &&& s.len() > 0
    &&& !has_root(s)
    &&& segments(s)[0] != dot()
    &&& !has_parent_segment(s)
}

/// Checks that a document path stays inside the source tree.
pub fn validate_relative_path(value: &str) -> (res: Result<(), SiteError>)
    ensures
        res is Ok <==> document_path_ok(value@),
        res matches Err(e) ==> e@ == SiteFailure::UnsafeDocumentPath(value@),
{
    let chars = chars_of(value);
    let segs = split_at_char(&chars, '/');
    proof {
        crate::text::lemma_split_nonempty(chars@, '/');
    }
    assert(views(segs@)[0] == segs@[0]@);
    let first_is_dot = segs[0].len() == 1 && segs[0][0] == '.';
    proof {
        if first_is_dot {
            assert(segs@[0]@ =~= dot());
        } else if segs@[0]@.len() == 1 {
            assert(segs@[0]@[0] != dot()[0]);
        }
    }
    if chars.len() == 0 || is_absolute(&chars) || first_is_dot || has_parent_dir(&chars) {
        Err(SiteError::UnsafeDocumentPath { path: value.to_owned() })
    } else {
        Ok(())
    }
}

/// The host and path that `url::Url::parse` reads from `input`, when it parses as a URL with a
/// host.
pub uninterp spec fn url_host_and_path(input: Seq<char>) -> Option<(Seq<char>, Seq<char>)>;

/// A character that may stand in a URL scheme: an ASCII letter or digit, `+`, `-` or `.`.
pub open spec fn is_scheme_char(c: char) -> bool {
    ('a' <= c <= 'z') || ('A' <= c <= 'Z') || ('0' <= c <= '9') || c == '+' || c == '-' || c == '.'
}

/// Text without a URL scheme: it holds no control character or space, and it does not begin
/// with an ASCII letter followed by scheme characters up to a `:`.
pub open spec fn lacks_url_scheme(s: Seq<char>) -> bool {
    &&& forall|i: int| 0 <= i < s.len() ==> (#[trigger] s[i] as u32) > 0x20
    &&& !(exists|i: int|
        0 < i < s.len() && #[trigger] s[i] == ':' && (('a' <= s[0] <= 'z') || ('A' <= s[0] <= 'Z'))
            && forall|j: int| 0 <= j < i ==> is_scheme_char(#[trigger] s[j]))
}

/// Parses `input` with `url::Url::parse` and, when that succeeds and the URL has a host
/// (`Url::host_str`), gives the host and the path (`Url::path`); what that is for a given input is
/// the name `url_host_and_path`. Stated besides: text without a scheme (`lacks_url_scheme`)
/// does not parse, as `Url::parse` has no base URL to resolve it against.
#[verifier::external_body]
fn parse_url_host_and_path(input: &str) -> (res: Option<(String, String)>)
    ensures
        match res {
            Some((host, path)) => url_host_and_path(input@) == Some((host@, path@)),
            None => url_host_and_path(input@) is None,
        },
        lacks_url_scheme(input@) ==> res is None,
{
    let url = url::Url::parse(input).ok()?;
    let host = url.host_str()?.to_owned();
    Some((host, url.path().to_owned()))
}

/// Whether `url::Url::parse` accepts `input` as a URL.
pub uninterp spec fn url_parses(input: Seq<char>) -> bool;

/// Whether `url::Url::parse` accepts `url`: the name `url_parses`.
#[verifier::external_body]
fn url_is_valid(url: &str) -> (b: bool)
    ensures
        b == url_parses(url@),
{
    url::Url::parse(url).is_ok()
}

/// The local path of a URL (`url::Url::parse`, then `Url::to_file_path`), when the URL parses
/// and names a local file whose path is UTF-8 text (`OsString::into_string`); none when the
/// URL does not parse (the name `url_parses`). Nothing more is stated of the result: which
/// URLs name local files, and how, follows the platform's path rules.
#[verifier::external_body]
fn url_file_path(url: &str) -> (res: Option<String>)
    ensures
        res is Some ==> url_parses(url@),
{
    let parsed = url::Url::parse(url).ok()?;
    let path = parsed.to_file_path().ok()?;
    path.into_os_string().into_string().ok()
}

/// The source root that an index records: the local path of its project root URL, when the
/// index has metadata (`project_root`) and that URL parses and names a local path.
pub fn infer_source_root(project_root: Option<&str>) -> (res: Option<String>)
    ensures
        project_root is None ==> res is None,
        project_root matches Some(root) && !url_parses(root@) ==> res is None,
        res is Some ==> (project_root matches Some(root) && url_parses(root@)),
{
    match project_root {
        Some(root) => if url_is_valid(root) {
            url_file_path(root)
        } else {
            None
        },
        None => None,
    }
}

/// The lower-case mapping of `c` (std's `char::to_lowercase`).
pub uninterp spec fn lowercase_of(c: char) -> Seq<char>;

/// The characters of `c.to_lowercase()`: the Unicode lower-case mapping, named `lowercase_of`;
/// an ASCII capital maps to its small letter, and other ASCII characters to themselves.
#[verifier::external_body]
fn lowercase(c: char) -> (out: Vec<char>)
    ensures
        out@ == lowercase_of(c),
        'A' <= c <= 'Z' ==> out@ == seq![((c as u32) + 32) as char],
        (c as u32) < 128 && !('A' <= c <= 'Z') ==> out@ == seq![c],
{
    c.to_lowercase().collect()
}

/// `s` with its first `from` replaced by `to`.
pub open spec fn replace_first(s: Seq<char>, from: char, to: char) -> Seq<char> {
    match first_index_of(s, from) {
        Some(i) => s.update(i, to),
        None => s,
    }
}

/// `s` without any trailing `c` (`trim_end_matches(c)`).
pub open spec fn trim_end_char(s: Seq<char>, c: char) -> Seq<char>
    decreases s.len(),
{
    if s.len() > 0 && s.last() == c {
        trim_end_char(s.drop_last(), c)
    } else {
        s
    }
}

/// `.git`
pub open spec fn git_suffix() -> Seq<char> {
    seq!['.', 'g', 'i', 't']
}

/// `s` without any trailing `.git` (`trim_end_matches(".git")`).
pub open spec fn trim_end_git(s: Seq<char>) -> Seq<char>
    decreases s.len(),
{
    if s.len() >= 4 && s.skip(s.len() - 4) == git_suffix() {
        trim_end_git(s.take(s.len() - 4))
    } else {
        s
    }
}

/// The host and path that a repository URL names: host and path of a URL; otherwise for
/// `user@host:path`, `host/path`; otherwise the text itself.
pub open spec fn repo_location(input: Seq<char>) -> Seq<char> {
    match url_host_and_path(input) {
        Some((host, path)) => host + path,
        None => plain_location(input),
    }
}

/// The location of a repository address that is not a URL with a host: what follows the
/// first `@`, with its first `:` made a `/`; the whole text where there is no `@`.
pub open spec fn plain_location(input: Seq<char>) -> Seq<char> {
    match first_index_of(input, '@') {
        Some(i) => replace_first(input.skip(i + 1), ':', '/'),
        None => input,
    }
}

/// The lower-case mapping of every character of `s`, in order.
pub open spec fn lowered(s: Seq<char>) -> Seq<char>
    decreases s.len(),
{
    if s.len() == 0 {
        Seq::empty()
    } else {
        lowered(s.drop_last()) + lowercase_of(s.last())
    }
}

/// The slug built from `s` so far, and whether it ends in a separator: letters and digits are
/// kept, and each run of other characters after the first kept one becomes one `-`.
pub open spec fn slug_state(s: Seq<char>) -> (Seq<char>, bool)
    decreases s.len(),
{
    if s.len() == 0 {
        (Seq::empty(), false)
    } else {
        let (slug, sep) = slug_state(s.drop_last());
        let c = s.last();
        if is_ascii_alphanumeric(c) {
            (slug.push(c), false)
        } else if slug.len() > 0 && !sep {
            (slug.push('-'), true)
        } else {
            (slug, sep)
        }
    }
}

/// The slug of a repository location that has been trimmed of `/` and `.git`.
pub open spec fn slug_of(location: Seq<char>) -> Seq<char> {
    trim_end_char(slug_state(lowered(location)).0, '-')
}

/// The trimmed location of a repository URL.
pub open spec fn trimmed_location(repo_url: Seq<char>) -> Seq<char> {
    trim_end_git(trim_end_char(repo_location(trimmed(repo_url)), '/'))
}

/// The slug of a repository location (host and path), or why there is none: the location is
/// trimmed of trailing `/` and then of trailing `.git`.
pub open spec fn location_slug(location: Seq<char>) -> Result<Seq<char>, SiteFailure> {
    let trimmed_loc = trim_end_git(trim_end_char(location, '/'));
    if trimmed_loc.len() == 0 {
        Err(SiteFailure::EmptyRepoUrl)
    } else if slug_of(trimmed_loc).len() == 0 {
        Err(SiteFailure::NoSlugCharacters)
    } else {
        Ok(slug_of(trimmed_loc))
    }
}

/// The slug of a repository URL, or why there is none.
pub open spec fn repo_slug(repo_url: Seq<char>) -> Result<Seq<char>, SiteFailure> {
    location_slug(repo_location(trimmed(repo_url)))
}

fn location_of(input: &str) -> (out: Vec<char>)
    ensures
        out@ == repo_location(input@),
        lacks_url_scheme(input@) ==> repo_location(input@) == plain_location(input@),
{
    match parse_url_host_and_path(input) {
        Some((host, path)) => {
            let mut out = chars_of(host.as_str());
            let p = chars_of(path.as_str());
            crate::text::push_all(&mut out, &p);
            out
        },
        None => {
            let chars = chars_of(input);
            let n = chars.len();
            match find_char(&chars, 0, '@') {
                None => {
                    assert(chars@.skip(0) =~= chars@);
                    chars
                },
                Some(at) => {
                    assert(chars@.skip(0) =~= chars@);
                    proof {
                        lemma_first_index_of(chars@, '@');
                    }
                    assert(at < chars@.len());
                    let mut rest: Vec<char> = Vec::new();
                    push_range(&mut rest, &chars, at + 1, n);
                    assert(rest@ =~= chars@.skip(at + 1));
                    match find_char(&rest, 0, ':') {
                        None => {
                            assert(rest@.skip(0) =~= rest@);
                            rest
                        },
                        Some(colon) => {
                            assert(rest@.skip(0) =~= rest@);
                            proof {
                                lemma_first_index_of(rest@, ':');
                            }
                            rest.set(colon, '/');
                            rest
                        },
                    }
                },
            }
        },
    }
}

fn trim_end_slashes(s: &mut Vec<char>)
    ensures
        final(s)@ == trim_end_char(old(s)@, '/'),
    decreases old(s)@.len(),
{
    if s.len() > 0 && s[s.len() - 1] == '/' {
        s.pop();
        trim_end_slashes(s);
    }
}

fn trim_end_dot_git(s: &mut Vec<char>)
    ensures
        final(s)@ == trim_end_git(old(s)@),
    decreases old(s)@.len(),
{
    let n = s.len();
    if n >= 4 && s[n - 4] == '.' && s[n - 3] == 'g' && s[n - 2] == 'i' && s[n - 1] == 't' {
        assert(s@.skip(n - 4) =~= git_suffix());
        s.truncate(n - 4);
        assert(s@ =~= old(s)@.take(n - 4));
        trim_end_dot_git(s);
    } else {
        proof {
            if n >= 4 {
                let t = s@.skip(n - 4);
                assert(t[0] == s@[n - 4] && t[1] == s@[n - 3] && t[2] == s@[n - 2] && t[3] == s@[n - 1]);
                assert(t != git_suffix());
            }
        }
    }
}

/// The slug of a repository URL: its host and path, lower case, with each run of other
/// characters than ASCII letters and digits turned into one `-`.
pub fn slug_repo_url(repo_url: &str) -> (res: Result<String, SiteError>)
    ensures
        match res {
            Ok(s) => repo_slug(repo_url@) == Ok::<Seq<char>, SiteFailure>(s@),
            Err(e) => repo_slug(repo_url@) == Err::<Seq<char>, SiteFailure>(e@),
        },
        all_ascii(repo_location(trimmed(repo_url@))) ==> repo_slug(repo_url@) == ascii_location_slug(
            repo_location(trimmed(repo_url@)),
        ),
        lacks_url_scheme(trimmed(repo_url@)) ==> repo_location(trimmed(repo_url@)) == plain_location(
            trimmed(repo_url@),
        ),
{
    let input = string_of(&trim(&chars_of(repo_url)));
    let location = location_of(input.as_str());
    slug_location_chars(location)
}

/// Whether every character of `s` is ASCII.
pub open spec fn all_ascii(s: Seq<char>) -> bool {
    forall|i: int| 0 <= i < s.len() ==> (#[trigger] s[i] as u32) < 128
}

/// The ASCII lower-case form of `c`: a capital letter becomes its small letter.
pub open spec fn ascii_lower_char(c: char) -> char {
    if 'A' <= c <= 'Z' {
        ((c as u32) + 32) as char
    } else {
        c
    }
}

/// Each character of `s` in ASCII lower case.
pub open spec fn ascii_lower(s: Seq<char>) -> Seq<char>
    decreases s.len(),
{
    if s.len() == 0 {
        Seq::empty()
    } else {
        ascii_lower(s.drop_last()).push(ascii_lower_char(s.last()))
    }
}

/// The slug of an ASCII location: `location_slug` with ASCII lower case.
pub open spec fn ascii_location_slug(location: Seq<char>) -> Result<Seq<char>, SiteFailure> {
    let trimmed_loc = trim_end_git(trim_end_char(location, '/'));
    let slug = trim_end_char(slug_state(ascii_lower(trimmed_loc)).0, '-');
    if trimmed_loc.len() == 0 {
        Err(SiteFailure::EmptyRepoUrl)
    } else if slug.len() == 0 {
        Err(SiteFailure::NoSlugCharacters)
    } else {
        Ok(slug)
    }
}

proof fn lemma_ascii_trim_end(s: Seq<char>, c: char)
    requires
        all_ascii(s),
    ensures
        all_ascii(trim_end_char(s, c)),
    decreases s.len(),
{
    if s.len() > 0 && s.last() == c {
        let t = s.drop_last();
        assert forall|i: int| 0 <= i < t.len() implies (#[trigger] t[i] as u32) < 128 by {
            assert(t[i] == s[i]);
        }
        lemma_ascii_trim_end(t, c);
    }
}

proof fn lemma_ascii_trim_git(s: Seq<char>)
    requires
        all_ascii(s),
    ensures
        all_ascii(trim_end_git(s)),
    decreases s.len(),
{
    if s.len() >= 4 && s.skip(s.len() - 4) == git_suffix() {
        let t = s.take(s.len() - 4);
        assert forall|i: int| 0 <= i < t.len() implies (#[trigger] t[i] as u32) < 128 by {
            assert(t[i] == s[i]);
        }
        lemma_ascii_trim_git(t);
    }
}

/// The slug of a repository location (the host and path of its URL, or what follows `@` in
/// an SSH address): lower case, with each run of characters other than ASCII letters and
/// digits turned into one `-`.
pub fn slug_location(location: &str) -> (res: Result<String, SiteError>)
    ensures
        match res {
            Ok(s) => location_slug(location@) == Ok::<Seq<char>, SiteFailure>(s@),
            Err(e) => location_slug(location@) == Err::<Seq<char>, SiteFailure>(e@),
        },
        all_ascii(location@) ==> location_slug(location@) == ascii_location_slug(location@),
{
    slug_location_chars(chars_of(location))
}

fn slug_location_chars(location: Vec<char>) -> (res: Result<String, SiteError>)
    ensures
        match res {
            Ok(s) => location_slug(location@) == Ok::<Seq<char>, SiteFailure>(s@),
            Err(e) => location_slug(location@) == Err::<Seq<char>, SiteFailure>(e@),
        },
        all_ascii(location@) ==> location_slug(location@) == ascii_location_slug(location@),
{
    let ghost input = location@;
    let mut location = location;
    trim_end_slashes(&mut location);
    proof {
        if all_ascii(input) {
            lemma_ascii_trim_end(input, '/');
        }
    }
    let ghost after_slashes = location@;
    trim_end_dot_git(&mut location);
    proof {
        if all_ascii(input) {
            lemma_ascii_trim_git(after_slashes);
        }
    }
    if location.len() == 0 {
        return Err(SiteError::EmptyRepoUrl);
    }
    let mut slug: Vec<char> = Vec::new();
    let mut separator = false;
    let ghost mut seen: Seq<char> = Seq::empty();
    let mut i: usize = 0;
    while i < location.len()
        invariant
            i <= location@.len(),
            seen == lowered(location@.take(i as int)),
            (slug@, separator) == slug_state(seen),
            all_ascii(input) ==> all_ascii(location@),
            all_ascii(input) ==> seen == ascii_lower(location@.take(i as int)),
        decreases location@.len() - i,
    {
        let lower = lowercase(location[i]);
        proof {
            if all_ascii(input) {
                let c = location@[i as int];
                assert((c as u32) < 128);
                assert(lower@ == seq![ascii_lower_char(c)]);
                let t = location@.take(i + 1);
                assert(t.drop_last() =~= location@.take(i as int));
                assert(t.last() == c);
                assert(ascii_lower(t) =~= seen + lower@);
            }
        }
        proof {
            assert(location@.take(i + 1).drop_last() =~= location@.take(i as int));
        }
        let mut k: usize = 0;
        while k < lower.len()
            invariant
                k <= lower@.len(),
                (slug@, separator) == slug_state(seen + lower@.take(k as int)),
            decreases lower@.len() - k,
        {
            let c = lower[k];
            proof {
                let t = seen + lower@.take(k + 1);
                assert(t.drop_last() =~= seen + lower@.take(k as int));
                assert(t.last() == c);
            }
            if ('a' <= c && c <= 'z') || ('A' <= c && c <= 'Z') || ('0' <= c && c <= '9') {
                slug.push(c);
                separator = false;
            } else if slug.len() > 0 && !separator {
                slug.push('-');
                separator = true;
            }
            k += 1;
        }
        proof {
            assert(lower@.take(lower@.len() as int) =~= lower@);
            seen = seen + lower@;
        }
        i += 1;
    }
    proof {
        assert(location@.take(location@.len() as int) =~= location@);
    }
    trim_end_dashes(&mut slug);
    proof {
        if all_ascii(input) {
            assert(slug_of(location@) == slug@);
        }
    }
    if slug.len() == 0 {
        return Err(SiteError::NoSlugCharacters);
    }
    Ok(string_of(&slug))
}

/// A well-shaped slug: ASCII letters, digits and `-`, with no `-` first and no two `-` in a
/// row.
pub open spec fn slug_shaped(s: Seq<char>) -> bool {
    &&& forall|i: int| 0 <= i < s.len() ==> is_ascii_alphanumeric(#[trigger] s[i]) || s[i] == '-'
    &&& s.len() > 0 ==> s[0] != '-'
    &&& forall|i: int| 0 <= i < s.len() - 1 ==> !(#[trigger] s[i] == '-' && s[i + 1] == '-')
}

proof fn lemma_slug_state_shaped(s: Seq<char>)
    ensures
        slug_shaped(slug_state(s).0),
        slug_state(s).1 <==> (slug_state(s).0.len() > 0 && slug_state(s).0.last() == '-'),
    decreases s.len(),
{
    if s.len() > 0 {
        lemma_slug_state_shaped(s.drop_last());
        let (prev, sep) = slug_state(s.drop_last());
        let (out, _) = slug_state(s);
        assert forall|i: int| 0 <= i < out.len() - 1 implies !(#[trigger] out[i] == '-' && out[i + 1] == '-') by {
            if i < prev.len() - 1 {
                assert(out[i] == prev[i] && out[i + 1] == prev[i + 1]);
            } else if i == prev.len() - 1 && out.len() > prev.len() {
                assert(out[i] == prev.last());
            }
        }
        assert forall|i: int| 0 <= i < out.len() implies is_ascii_alphanumeric(#[trigger] out[i]) || out[i] == '-' by {
            if i < prev.len() {
                assert(out[i] == prev[i]);
            }
        }
        if prev.len() > 0 {
            assert(out[0] == prev[0]);
        }
    }
}

proof fn lemma_trim_end_shaped(s: Seq<char>)
    requires
        slug_shaped(s),
    ensures
        slug_shaped(trim_end_char(s, '-')),
        trim_end_char(s, '-').len() > 0 ==> trim_end_char(s, '-').last() != '-',
    decreases s.len(),
{
    if s.len() > 0 && s.last() == '-' {
        let t = s.drop_last();
        assert forall|i: int| 0 <= i < t.len() - 1 implies !(#[trigger] t[i] == '-' && t[i + 1] == '-') by {
            assert(t[i] == s[i] && t[i + 1] == s[i + 1]);
        }
        assert forall|i: int| 0 <= i < t.len() implies is_ascii_alphanumeric(#[trigger] t[i]) || t[i] == '-' by {
            assert(t[i] == s[i]);
        }
        if t.len() > 0 {
            assert(t[0] == s[0]);
        }
        lemma_trim_end_shaped(t);
    }
}

/// A repository slug is a valid route segment: ASCII letters and digits, with single `-`
/// between runs of them and never at either end.
pub proof fn law_slug_is_route_segment(repo_url: Seq<char>)
    ensures
        repo_slug(repo_url) matches Ok(slug) ==> {
            &&& route_segment_ok(slug)
            &&& slug_shaped(slug)
            &&& slug.last() != '-'
        },
{
    let location = trimmed_location(repo_url);
    lemma_slug_state_shaped(lowered(location));
    lemma_trim_end_shaped(slug_state(lowered(location)).0);
    let slug = slug_of(location);
    assert forall|i: int| 0 <= i < slug.len() implies route_char(#[trigger] slug[i]) by {
        assert(is_ascii_alphanumeric(slug[i]) || slug[i] == '-');
    }
}

fn trim_end_dashes(s: &mut Vec<char>)
    ensures
        final(s)@ == trim_end_char(old(s)@, '-'),
    decreases old(s)@.len(),
{
    if s.len() > 0 && s[s.len() - 1] == '-' {
        s.pop();
        trim_end_dashes(s);
    }
}

/// The published commit of a project.
pub struct CatalogCommit {
    pub commit: String,
    pub title: String,
    pub file_count: usize,
    pub occurrence_count: usize,
}

/// A project of the catalog.
pub struct CatalogProject {
    pub slug: String,
    pub repo_url: String,
    pub commits: Vec<CatalogCommit>,
}

/// The list of published projects.
pub struct Catalog {
    pub version: u32,
    pub projects: Vec<CatalogProject>,
}

/// A catalog commit as plain values.
pub struct CommitView {
    pub commit: Seq<char>,
    pub title: Seq<char>,
    pub file_count: usize,
    pub occurrence_count: usize,
}

/// A catalog project as plain values.
pub struct ProjectView {
    pub slug: Seq<char>,
    pub repo_url: Seq<char>,
    pub commits: Seq<CommitView>,
}

impl View for CatalogCommit {
    type V = CommitView;

    open spec fn view(&self) -> CommitView {
        CommitView {
            commit: self.commit@,
            title: self.title@,
            file_count: self.file_count,
            occurrence_count: self.occurrence_count,
        }
    }
}

impl View for CatalogProject {
    type V = ProjectView;

    open spec fn view(&self) -> ProjectView {
        ProjectView {
            slug: self.slug@,
            repo_url: self.repo_url@,
            commits: self.commits@.map_values(|c: CatalogCommit| c@),
        }
    }
}

impl SortKey for CatalogProject {
    open spec fn sort_key(&self) -> Seq<char> {
        self.slug@
    }

    fn key_chars(&self) -> (out: Vec<char>) {
        chars_of(self.slug.as_str())
    }
}

/// The views of projects.
pub open spec fn project_views(ps: Seq<CatalogProject>) -> Seq<ProjectView> {
    ps.map_values(|p: CatalogProject| p@)
}

/// The slugs of projects.
pub open spec fn project_slugs(ps: Seq<CatalogProject>) -> Seq<Seq<char>> {
    ps.map_values(|p: CatalogProject| p.slug@)
}

/// An empty catalog, for a site that has none yet.
pub fn new_catalog() -> (out: Catalog)
    ensures
        out.version == 1,
        out.projects@.len() == 0,
{
    Catalog { version: 1, projects: Vec::new() }
}

/// The projects, before sorting, after publishing `entry` for `slug`: the first project with
/// this slug keeps only `entry`; with no such project, a new one is added at the end.
pub open spec fn catalog_after(
    projects: Seq<ProjectView>,
    slug: Seq<char>,
    repo_url: Seq<char>,
    entry: CommitView,
) -> Seq<ProjectView> {
    match first_index_of(projects.map_values(|p: ProjectView| p.slug), slug) {
        Some(i) => projects.update(
            i,
            ProjectView { slug: projects[i].slug, repo_url: projects[i].repo_url, commits: seq![entry] },
        ),
        None => projects.push(ProjectView { slug, repo_url, commits: seq![entry] }),
    }
}

/// Whether publishing `slug` for `repo_url` collides with a different repository that has the
/// same slug.
pub open spec fn slug_collides(projects: Seq<ProjectView>, slug: Seq<char>, repo_url: Seq<char>) -> bool {
    match first_index_of(projects.map_values(|p: ProjectView| p.slug), slug) {
        Some(i) => projects[i].repo_url != repo_url,
        None => false,
    }
}

/// The position of the first project whose slug is `slug`.
fn find_project(projects: &Vec<CatalogProject>, slug: &str) -> (res: Option<usize>)
    ensures
        res matches Some(k) ==> first_index_of(project_slugs(projects@), slug@) == Some(k as int),
        res is None ==> first_index_of(project_slugs(projects@), slug@) is None,
{
    let target = chars_of(slug);
    proof {
        lemma_first_index_of(project_slugs(projects@), slug@);
    }
    let mut i: usize = 0;
    while i < projects.len()
        invariant
            i <= projects@.len(),
            target@ == slug@,
            forall|j: int| 0 <= j < i ==> project_slugs(projects@)[j] != slug@,
            first_index_of(project_slugs(projects@), slug@) matches Some(f) ==> {
                &&& 0 <= f < project_slugs(projects@).len()
                &&& project_slugs(projects@)[f] == slug@
                &&& forall|j: int| 0 <= j < f ==> project_slugs(projects@)[j] != slug@
            },
            first_index_of(project_slugs(projects@), slug@) is None ==> forall|j: int|
                0 <= j < projects@.len() ==> project_slugs(projects@)[j] != slug@,
        decreases projects@.len() - i,
    {
        if chars_equal(&chars_of(projects[i].slug.as_str()), &target) {
            proof {
                assert(project_slugs(projects@)[i as int] == slug@);
                if let Some(f) = first_index_of(project_slugs(projects@), slug@) {
                    assert(!(f < i));
                    assert(!(f > i));
                }
            }
            return Some(i);
        }
        i += 1;
    }
    proof {
        if let Some(f) = first_index_of(project_slugs(projects@), slug@) {
            assert(project_slugs(projects@)[f] != slug@);
        }
    }
    None
}

/// Records that `commit` of `repo_url` is now the one published under `slug`, replacing the
/// project's earlier commits; projects end up in slug order.
pub fn update_catalog(
    catalog: Catalog,
    slug: &str,
    repo_url: &str,
    commit: &str,
    title: &str,
    file_count: usize,
    occurrence_count: usize,
) -> (res: Result<Catalog, SiteError>)
    ensures
        slug_collides(project_views(catalog.projects@), slug@, repo_url@) ==> (res matches Err(e)
            && e@ == SiteFailure::SlugCollision(
            repo_url@,
            project_views(catalog.projects@)[first_index_of(project_slugs(catalog.projects@), slug@)->0].repo_url,
            slug@,
        )),
        !slug_collides(project_views(catalog.projects@), slug@, repo_url@) ==> (res matches Ok(out) && {
            &&& out.version == 1
            &&& catalog_published(
                catalog.projects@,
                slug@,
                repo_url@,
                (CommitView { commit: commit@, title: title@, file_count, occurrence_count }),
                out.projects@,
            )
        }),
{
    let ghost old_views = project_views(catalog.projects@);
    let ghost entry_view = CommitView { commit: commit@, title: title@, file_count, occurrence_count };
    proof {
        assert(old_views.map_values(|p: ProjectView| p.slug) =~= project_slugs(catalog.projects@));
        lemma_first_index_of(project_slugs(catalog.projects@), slug@);
    }
    let mut projects = catalog.projects;
    let found = find_project(&projects, slug);
    let entry = CatalogCommit {
        commit: commit.to_owned(),
        title: title.to_owned(),
        file_count,
        occurrence_count,
    };
    match found {
        Some(k) => {
            proof {
                assert(project_slugs(catalog.projects@)[k as int] == catalog.projects@[k as int].slug@);
                assert(old_views[k as int].repo_url == catalog.projects@[k as int].repo_url@);
            }
            if !chars_equal(&chars_of(projects[k].repo_url.as_str()), &chars_of(repo_url)) {
                return Err(SiteError::SlugCollision {
                    repo_url: repo_url.to_owned(),
                    existing: projects[k].repo_url.clone(),
                    slug: slug.to_owned(),
                });
            }
            let project = projects.remove(k);
            let updated = CatalogProject { slug: project.slug, repo_url: project.repo_url, commits: vec![entry] };
            projects.insert(k, updated);
            proof {
                assert(updated@.commits =~= seq![entry_view]);
                assert(project_views(projects@) =~= catalog_after(old_views, slug@, repo_url@, entry_view));
            }
        },
        None => {
            let added = CatalogProject {
                slug: slug.to_owned(),
                repo_url: repo_url.to_owned(),
                commits: vec![entry],
            };
            projects.push(added);
            proof {
                assert(added@.commits =~= seq![entry_view]);
                assert(project_views(projects@) =~= catalog_after(old_views, slug@, repo_url@, entry_view));
            }
        },
    }
    let ghost before_sort = projects@;
    let sorted = stable_sort(projects);
    proof {
        assert(project_views(before_sort) == catalog_after(old_views, slug@, repo_url@, entry_view));
        assert(stably_sorted(before_sort, sorted@));
        assert(project_views(before_sort) == catalog_after(
            project_views(catalog.projects@),
            slug@,
            repo_url@,
            CommitView { commit: commit@, title: title@, file_count, occurrence_count },
        ) && stably_sorted(before_sort, sorted@));
    }
    Ok(Catalog { version: 1, projects: sorted })
}

/// The projects among `s` whose slug is `k`, in order.
pub open spec fn views_with_slug(s: Seq<ProjectView>, k: Seq<char>) -> Seq<ProjectView>
    decreases s.len(),
{
    if s.len() == 0 {
        Seq::empty()
    } else {
        let prev = views_with_slug(s.drop_last(), k);
        if s.last().slug == k {
            prev.push(s.last())
        } else {
            prev
        }
    }
}

/// The catalog that update_catalog returns for `projects`: the projects after publishing
/// `entry` for `slug`, stably sorted by slug.
pub open spec fn catalog_published(
    projects: Seq<CatalogProject>,
    slug: Seq<char>,
    repo_url: Seq<char>,
    entry: CommitView,
    out: Seq<CatalogProject>,
) -> bool {
    exists|p: Seq<CatalogProject>|
        #![trigger project_views(p)]
        project_views(p) == catalog_after(project_views(projects), slug, repo_url, entry) && stably_sorted(
            p,
            out,
        )
}

proof fn lemma_views_with_key(p: Seq<CatalogProject>, k: Seq<char>)
    ensures
        project_views(with_key(p, k)) == views_with_slug(project_views(p), k),
    decreases p.len(),
{
    if p.len() > 0 {
        lemma_views_with_key(p.drop_last(), k);
        assert(project_views(p.drop_last()) =~= project_views(p).drop_last());
        let prev = with_key(p.drop_last(), k);
        if p.last().sort_key() == k {
            assert(project_views(prev.push(p.last())) =~= project_views(prev).push(p.last()@));
        }
    }
}

proof fn lemma_with_slug_update(s: Seq<ProjectView>, i: int, x: ProjectView, k: Seq<char>)
    requires
        0 <= i < s.len(),
        s[i].slug == x.slug,
        x.slug != k,
    ensures
        views_with_slug(s.update(i, x), k) == views_with_slug(s, k),
    decreases s.len(),
{
    let t = s.update(i, x);
    if i < s.len() - 1 {
        lemma_with_slug_update(s.drop_last(), i, x, k);
        assert(t.drop_last() =~= s.drop_last().update(i, x));
    } else {
        assert(t.drop_last() =~= s.drop_last());
    }
}

proof fn lemma_with_slug_absent(s: Seq<ProjectView>, k: Seq<char>)
    requires
        forall|j: int| 0 <= j < s.len() ==> #[trigger] s[j].slug != k,
    ensures
        views_with_slug(s, k) == Seq::<ProjectView>::empty(),
    decreases s.len(),
{
    if s.len() > 0 {
        lemma_with_slug_absent(s.drop_last(), k);
    }
}

proof fn lemma_with_slug_first(s: Seq<ProjectView>, k: Seq<char>, i: int)
    requires
        0 <= i < s.len(),
        s[i].slug == k,
        forall|j: int| 0 <= j < i ==> #[trigger] s[j].slug != k,
    ensures
        views_with_slug(s, k).len() > 0,
        views_with_slug(s, k)[0] == s[i],
    decreases s.len(),
{
    if i < s.len() - 1 {
        lemma_with_slug_first(s.drop_last(), k, i);
    } else {
        lemma_with_slug_absent(s.drop_last(), k);
    }
}

/// Publishing a commit leaves its project with that one commit, under its own repository
/// URL, and every project of another slug as it was.
pub proof fn law_catalog_keeps_only_latest(
    projects: Seq<CatalogProject>,
    slug: Seq<char>,
    repo_url: Seq<char>,
    entry: CommitView,
    out: Seq<CatalogProject>,
)
    requires
        !slug_collides(project_views(projects), slug, repo_url),
        catalog_published(projects, slug, repo_url, entry, out),
    ensures
        views_with_slug(project_views(out), slug).len() > 0,
        views_with_slug(project_views(out), slug)[0].commits == seq![entry],
        views_with_slug(project_views(out), slug)[0].repo_url == repo_url,
        forall|k: Seq<char>|
            k != slug ==> #[trigger] views_with_slug(project_views(out), k) == views_with_slug(
                project_views(projects),
                k,
            ),
{
    let p = choose|p: Seq<CatalogProject>|
        #![trigger project_views(p)]
        project_views(p) == catalog_after(project_views(projects), slug, repo_url, entry) && stably_sorted(
            p,
            out,
        );
    let views = project_views(projects);
    let after = project_views(p);
    let keys = views.map_values(|v: ProjectView| v.slug);
    lemma_first_index_of(keys, slug);
    assert forall|k: Seq<char>| #[trigger] views_with_slug(project_views(out), k) == views_with_slug(after, k) by {
        lemma_views_with_key(out, k);
        lemma_views_with_key(p, k);
        assert(with_key(out, k) == with_key(p, k));
    }
    match first_index_of(keys, slug) {
        Some(i) => {
            let x = ProjectView { slug: views[i].slug, repo_url: views[i].repo_url, commits: seq![entry] };
            assert(after == views.update(i, x));
            assert(keys[i] == views[i].slug);
            assert forall|j: int| 0 <= j < i implies #[trigger] after[j].slug != slug by {
                assert(keys[j] == views[j].slug);
            }
            lemma_with_slug_first(after, slug, i);
            assert forall|k: Seq<char>| k != slug implies #[trigger] views_with_slug(after, k) == views_with_slug(views, k) by {
                lemma_with_slug_update(views, i, x, k);
            }
        },
        None => {
            let x = ProjectView { slug, repo_url, commits: seq![entry] };
            assert(after == views.push(x));
            assert forall|j: int| 0 <= j < views.len() implies #[trigger] after[j].slug != slug by {
                assert(keys[j] == views[j].slug);
            }
            lemma_with_slug_first(after, slug, views.len() as int);
            assert forall|k: Seq<char>| k != slug implies #[trigger] views_with_slug(after, k) == views_with_slug(views, k) by {
                assert(after.drop_last() =~= views);
            }
        },
    }
}

/// Whether an entry of a project's directory is removed when `current_commit` is published: a
/// directory that is not the current commit and whose name does not start with `.`.
pub fn should_prune(is_dir: bool, name: &str, current_commit: &str) -> (res: bool)
    ensures
        res == (is_dir && name@ != current_commit@ && !(name@.len() > 0 && name@[0] == '.')),
{
    let n = chars_of(name);
    is_dir && !chars_equal(&n, &chars_of(current_commit)) && !(n.len() > 0 && n[0] == '.')
}

/// How the text of a document is obtained.
#[derive(Debug, PartialEq, Eq)]
pub enum SourceChoice {
    /// The file read from the source root.
    FromDisk,
    /// The text embedded in the index; `warn` when reading the file failed first.
    Embedded { warn: bool },
    /// Reading the file failed and the index embeds no text.
    ReadFailed,
    /// No source root is given and the index embeds no text.
    NoText,
}

/// Chooses where a document's text comes from: `read` is whether reading the file under the
/// source root succeeded, or `None` without a source root.
pub fn choose_source(read: Option<bool>, has_embedded_text: bool) -> (res: SourceChoice)
    ensures
        res == match read {
            Some(true) => SourceChoice::FromDisk,
            Some(false) => if has_embedded_text {
                SourceChoice::Embedded { warn: true }
            } else {
                SourceChoice::ReadFailed
            },
            None => if has_embedded_text {
                SourceChoice::Embedded { warn: false }
            } else {
                SourceChoice::NoText
            },
        },
{
    match read {
        Some(true) => SourceChoice::FromDisk,
        Some(false) => if has_embedded_text {
            SourceChoice::Embedded { warn: true }
        } else {
            SourceChoice::ReadFailed
        },
        None => if has_embedded_text {
            SourceChoice::Embedded { warn: false }
        } else {
            SourceChoice::NoText
        },
    }
}

/// The path of the first of `docs` whose path is not a safe document path.
pub open spec fn first_unsafe_path(docs: Seq<DocumentView>) -> Option<Seq<char>>
    decreases docs.len(),
{
    if docs.len() == 0 {
        None
    } else if !document_path_ok(docs[0].relative_path) {
        Some(docs[0].relative_path)
    } else {
        first_unsafe_path(docs.drop_first())
    }
}

/// The documents of a decoded index, ready to publish: an index without documents is
/// refused; the others are consolidated one per path, with their warnings appended to
/// `warnings`, and refused at the first consolidated document whose path is not safe.
#[verifier::loop_isolation(false)]
pub fn prepare_documents(documents: Vec<Document>, warnings: &mut Vec<String>) -> (res: Result<
    Vec<Document>,
    SiteError,
>)
    ensures
        documents@.len() == 0 ==> (res matches Err(e) && e@ == SiteFailure::NoDocuments),
        documents@.len() == 0 ==> final(warnings)@ == old(warnings)@,
        documents@.len() > 0 ==> match res {
            Ok(out) => {
                &&& deduplicated(
                    documents@,
                    document_views(out@),
                    string_views(old(warnings)@),
                    string_views(final(warnings)@),
                )
                &&& first_unsafe_path(document_views(out@)) is None
            },
            Err(e) => exists|out: Seq<DocumentView>|
                #![trigger first_unsafe_path(out)]
                {
                    &&& deduplicated(
                        documents@,
                        out,
                        string_views(old(warnings)@),
                        string_views(final(warnings)@),
                    )
                    &&& first_unsafe_path(out) matches Some(p)
                    &&& e@ == SiteFailure::UnsafeDocumentPath(p)
                }
        },
{
    if documents.len() == 0 {
        return Err(SiteError::NoDocuments);
    }
    let out = deduplicate_documents(documents, warnings);
    let ghost views = document_views(out@);
    let mut i: usize = 0;
    assert(views.skip(0) =~= views);
    while i < out.len()
        invariant
            i <= out@.len(),
            views == document_views(out@),
            first_unsafe_path(views) == first_unsafe_path(views.skip(i as int)),
        decreases out@.len() - i,
    {
        let ghost rest = views.skip(i as int);
        assert(rest[0] == out@[i as int]@);
        assert(rest.drop_first() =~= views.skip(i + 1));
        match validate_relative_path(out[i].relative_path.as_str()) {
            Ok(()) => {},
            Err(e) => {
                assert(first_unsafe_path(views) == Some(out@[i as int].relative_path@));
                return Err(e);
            },
        }
        i += 1;
    }
    assert(views.skip(i as int) =~= Seq::<DocumentView>::empty());
    Ok(out)
}

} // verus!
