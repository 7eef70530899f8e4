//! Agent source resolution: which kind of source a string names, the
//! safety checks on git URLs and download names, and checksum verification.

use vstd::prelude::*;
use vstd::string::*;
use sha2::Digest;
use crate::text::{chars_of, hex_encode, hex_of, is_alphanumeric, alphanumeric, push_char, str_eq};

verus! {

// ── Substrings ───────────────────────────────────────────────────────────────

/// `p` occurs in `s` at `i`.
pub open spec fn occurs_at(s: Seq<char>, p: Seq<char>, i: int) -> bool {
    0 <= i && i + p.len() <= s.len() && s.subrange(i, i + p.len()) == p
}

/// `p` occurs in `s`, as `str::contains` finds it.
pub open spec fn has_sub(s: Seq<char>, p: Seq<char>) -> bool {
    exists|i: int| #[trigger] occurs_at(s, p, i)
}

pub open spec fn starts_with(s: Seq<char>, p: Seq<char>) -> bool {
    occurs_at(s, p, 0)
}

pub open spec fn ends_with(s: Seq<char>, p: Seq<char>) -> bool {
    occurs_at(s, p, s.len() - p.len())
}

fn matches_at(s: &Vec<char>, p: &Vec<char>, i: usize) -> (b: bool)
    ensures
        b == occurs_at(s@, p@, i as int),
{
    if i > s.len() || p.len() > s.len() - i {
        return false;
    }
    let mut k: usize = 0;
    while k < p.len()
        invariant
            i + p.len() <= s.len(),
            k <= p.len(),
            forall|q: int| 0 <= q < k ==> #[trigger] s@[i + q] == p@[q],
        decreases p.len() - k,
    {
        if s[i + k] != p[k] {
            proof {
                assert(s@.subrange(i as int, i + p.len())[k as int] != p@[k as int]);
            }
            return false;
        }
        k += 1;
    }
    proof {
        assert forall|q: int| 0 <= q < p@.len() implies s@.subrange(i as int, i + p.len())[q] == p@[q] by {
            assert(s@[i + q] == p@[q]);
        }
        assert(s@.subrange(i as int, i + p.len()) =~= p@);
    }
    true
}

/// Whether `p` occurs in `s`.
pub fn contains_str(s: &str, p: &str) -> (b: bool)
    ensures
        b == has_sub(s@, p@),
{
    let sv = chars_of(s);
    let pv = chars_of(p);
    let mut i: usize = 0;
    loop
        invariant
            sv@ == s@,
            pv@ == p@,
            i <= sv.len(),
            forall|j: int| 0 <= j < i ==> !#[trigger] occurs_at(s@, p@, j),
        decreases sv.len() - i,
    {
        if matches_at(&sv, &pv, i) {
            return true;
        }
        if i == sv.len() {
            proof {
                assert forall|j: int| !#[trigger] occurs_at(s@, p@, j) by {
                    if 0 <= j && j < i {
                    }
                }
            }
            return false;
        }
        i += 1;
    }
}

pub fn starts_with_str(s: &str, p: &str) -> (b: bool)
    ensures
        b == starts_with(s@, p@),
{
    let sv = chars_of(s);
    let pv = chars_of(p);
    matches_at(&sv, &pv, 0)
}

pub fn ends_with_str(s: &str, p: &str) -> (b: bool)
    ensures
        b == ends_with(s@, p@),
{
    let sv = chars_of(s);
    let pv = chars_of(p);
    if pv.len() > sv.len() {
        return false;
    }
    matches_at(&sv, &pv, sv.len() - pv.len())
}

// ── Sources ──────────────────────────────────────────────────────────────────

/// An HTTP(S) URL that names a git repository rather than an archive.
pub open spec fn git_like(url: Seq<char>) -> bool {
    ||| ends_with(url, ".git"@)
    ||| (has_sub(url, "github.com"@) && !has_sub(url, ".tar"@) && !has_sub(url, ".zip"@))
    ||| (has_sub(url, "gitlab.com/"@) && !has_sub(url, ".tar"@) && !has_sub(url, ".zip"@))
}

pub fn looks_like_git_url(url: &str) -> (b: bool)
    ensures
        b == git_like(url@),
{
    ends_with_str(url, ".git")
        || (contains_str(url, "github.com") && !contains_str(url, ".tar") && !contains_str(url, ".zip"))
        || (contains_str(url, "gitlab.com/") && !contains_str(url, ".tar") && !contains_str(url, ".zip"))
}

/// What an agent source names.
pub enum SourceKind {
    /// A git repository, to clone.
    GitRepo,
    /// An archive, to download and unpack.
    Archive,
    /// A directory on this node.
    LocalPath,
}

pub open spec fn source_kind(s: Seq<char>) -> SourceKind {
    if starts_with(s, "https://"@) || starts_with(s, "http://"@) {
        if git_like(s) { SourceKind::GitRepo } else { SourceKind::Archive }
    } else if starts_with(s, "git@"@) || ends_with(s, ".git"@) {
        SourceKind::GitRepo
    } else {
        SourceKind::LocalPath
    }
}

/// Which kind of source `source` names: HTTP(S) URLs are git repositories
/// or archives, `git@` and `.git` sources are repositories, and anything
/// else is a local path.
pub fn classify_source(source: &str) -> (k: SourceKind)
    ensures
        k == source_kind(source@),
{
    if starts_with_str(source, "https://") || starts_with_str(source, "http://") {
        if looks_like_git_url(source) { SourceKind::GitRepo } else { SourceKind::Archive }
    } else if starts_with_str(source, "git@") || ends_with_str(source, ".git") {
        SourceKind::GitRepo
    } else {
        SourceKind::LocalPath
    }
}

/// Why a source was refused.
pub enum FetchError {
    /// The git URL holds a token that could inject flags or commands.
    UnsafeToken(String),
    /// The git URL's scheme is not https, http, git@ or ssh.
    BadScheme,
    /// No safe file name can be derived from the URL.
    NoSafeName,
    /// The download's SHA-256 digest is not the expected one.
    ChecksumMismatch { expected: String, actual: String },
}

/// The tokens refused in git URLs, in the order they are checked.
pub open spec fn banned_tokens() -> Seq<Seq<char>> {
    seq!["--upload-pack"@, "--exec"@, "--no-local"@, "; "@, "&"@, "|"@, "`"@, "$"@]
}

/// The first banned token found in `url`, by the order of the list.
pub open spec fn first_banned(url: Seq<char>, k: int) -> Option<Seq<char>>
    decreases 8 - k,
{
    if k < 0 || k >= 8 {
        None
    } else if has_sub(url, banned_tokens()[k]) {
        Some(banned_tokens()[k])
    } else {
        first_banned(url, k + 1)
    }
}

pub open spec fn scheme_ok(url: Seq<char>) -> bool {
    starts_with(url, "https://"@) || starts_with(url, "http://"@) || starts_with(url, "git@"@) || starts_with(url, "ssh://"@)
}

/// Refuses git URLs that hold a banned token, then those of another scheme.
pub fn validate_git_url(url: &str) -> (r: Result<(), FetchError>)
    ensures
        match first_banned(url@, 0) {
            Some(t) => r matches Err(FetchError::UnsafeToken(s)) && s@ == t,
            None => if scheme_ok(url@) { r is Ok } else { r matches Err(FetchError::BadScheme) },
        },
{
    proof {
        reveal_strlit("--upload-pack"); reveal_strlit("--exec"); reveal_strlit("--no-local"); reveal_strlit("; ");
        reveal_strlit("&"); reveal_strlit("|"); reveal_strlit("`"); reveal_strlit("$");
    }
    let banned: Vec<&str> = vec!["--upload-pack", "--exec", "--no-local", "; ", "&", "|", "`", "$"];
    proof {
        assert(banned@.map_values(|t: &str| t@) =~= banned_tokens());
    }
    let mut k: usize = 0;
    while k < banned.len()
        invariant
            banned@.map_values(|t: &str| t@) == banned_tokens(),
            banned@.len() == 8,
            k <= 8,
            first_banned(url@, 0) == first_banned(url@, k as int),
        decreases 8 - k,
    {
        proof {
            assert(banned@[k as int]@ == banned_tokens()[k as int]);
        }
        if contains_str(url, banned[k]) {
            return Err(FetchError::UnsafeToken(String::from_str(banned[k])));
        }
        k += 1;
    }
    if !starts_with_str(url, "https://") && !starts_with_str(url, "http://") && !starts_with_str(url, "git@")
        && !starts_with_str(url, "ssh://") {
        return Err(FetchError::BadScheme);
    }
    Ok(())
}

// ── Download names ───────────────────────────────────────────────────────────

/// Index just past the last `/` of `s`, or 0.
pub open spec fn after_last_slash(s: Seq<char>, j: int) -> int
    decreases j,
{
    if j <= 0 { 0 } else if s[j - 1] == '/' { j } else { after_last_slash(s, j - 1) }
}

/// Index of the first `?` at or after `i`, or the length.
pub open spec fn first_question(s: Seq<char>, i: int) -> int
    decreases s.len() - i,
{
    if i < 0 || i >= s.len() || s[i] == '?' { i } else { first_question(s, i + 1) }
}

/// The last path segment of `url` without its query string.
pub open spec fn url_last_segment(url: Seq<char>) -> Seq<char> {
    let lo = after_last_slash(url, url.len() as int);
    url.subrange(lo, first_question(url, lo))
}

/// `name` with every character other than a letter, a digit, `.`, `-` and
/// `_` replaced by `_`.
pub open spec fn file_safe(name: Seq<char>) -> Seq<char> {
    name.map_values(|c: char| if alphanumeric(c) || c == '.' || c == '-' || c == '_' { c } else { '_' })
}

proof fn lemma_after_last_slash(s: Seq<char>, j: int)
    requires
        0 <= j <= s.len(),
    ensures
        0 <= after_last_slash(s, j) <= j,
    decreases j,
{
    if j > 0 && s[j - 1] != '/' {
        lemma_after_last_slash(s, j - 1);
    }
}

proof fn lemma_first_question(s: Seq<char>, i: int)
    requires
        0 <= i <= s.len(),
    ensures
        i <= first_question(s, i) <= s.len(),
    decreases s.len() - i,
{
    if i < s.len() && s[i] != '?' {
        lemma_first_question(s, i + 1);
    }
}

/// A safe local file name for a download from `url`: the URL's last path
/// segment without its query, made safe; refused when that is empty, `.`
/// or `..`.
pub fn safe_download_name(url: &str) -> (r: Result<String, FetchError>)
    ensures
        ({
            let n = file_safe(url_last_segment(url@));
            if n.len() == 0 || n == "."@ || n == ".."@ {
                r matches Err(FetchError::NoSafeName)
            } else {
                r matches Ok(s) && s@ == n
            }
        }),
{
    let cs = chars_of(url);
    let mut lo = cs.len();
    while lo > 0 && cs[lo - 1] != '/'
        invariant
            cs@ == url@,
            lo <= cs.len(),
            after_last_slash(url@, url@.len() as int) == after_last_slash(url@, lo as int),
        decreases lo,
    {
        lo -= 1;
    }
    proof {
        lemma_after_last_slash(url@, lo as int);
    }
    let mut hi = lo;
    while hi < cs.len() && cs[hi] != '?'
        invariant
            cs@ == url@,
            lo <= hi <= cs.len(),
            first_question(url@, lo as int) == first_question(url@, hi as int),
        decreases cs.len() - hi,
    {
        hi += 1;
    }
    let ghost seg = url@.subrange(lo as int, hi as int);
    let mut name = String::new();
    let mut i = lo;
    while i < hi
        invariant
            cs@ == url@,
            lo <= i <= hi <= cs.len(),
            seg == url@.subrange(lo as int, hi as int),
            name@ == file_safe(seg).take(i - lo),
        decreases hi - i,
    {
        let c = cs[i];
        let d = if is_alphanumeric(c) || c == '.' || c == '-' || c == '_' { c } else { '_' };
        push_char(&mut name, d);
        proof {
            assert(file_safe(seg).take(i - lo + 1) =~= file_safe(seg).take(i - lo).push(d));
        }
        i += 1;
    }
    proof {
        assert(file_safe(seg).take(hi - lo) =~= file_safe(seg));
        reveal_strlit(".");
        reveal_strlit("..");
    }
    if name.unicode_len() == 0 || str_eq(name.as_str(), ".") || str_eq(name.as_str(), "..") {
        return Err(FetchError::NoSafeName);
    }
    Ok(name)
}

/// How a downloaded file is unpacked.
pub enum ArchiveKind {
    Tar,
    Zip,
    /// Not an archive: kept as it is.
    Plain,
}

/// What `str::to_lowercase` gives of a string.
pub uninterp spec fn lowercase(s: Seq<char>) -> Seq<char>;

/// `s` in lowercase, by std's `str::to_lowercase`.
#[verifier::external_body]
pub fn to_lowercase(s: &str) -> (r: String)
    ensures
        r@ == lowercase(s@),
{
    s.to_lowercase()
}

/// How a downloaded agent archive named `filename` is unpacked, by its
/// lowercase suffix: `.tar.gz`, `.tgz` and `.tar.bz2` are tar archives,
/// `.zip` zip archives.
pub fn archive_kind(filename: &str) -> (k: ArchiveKind)
    ensures
        k == ({
            let l = lowercase(filename@);
            if ends_with(l, ".tar.gz"@) || ends_with(l, ".tgz"@) || ends_with(l, ".tar.bz2"@) {
                ArchiveKind::Tar
            } else if ends_with(l, ".zip"@) {
                ArchiveKind::Zip
            } else {
                ArchiveKind::Plain
            }
        }),
{
    let lower = to_lowercase(filename);
    let l = lower.as_str();
    if ends_with_str(l, ".tar.gz") || ends_with_str(l, ".tgz") || ends_with_str(l, ".tar.bz2") {
        ArchiveKind::Tar
    } else if ends_with_str(l, ".zip") {
        ArchiveKind::Zip
    } else {
        ArchiveKind::Plain
    }
}

// ── Checksums ────────────────────────────────────────────────────────────────

/// The SHA-256 digest of `b`.
pub uninterp spec fn sha256(b: Seq<u8>) -> Seq<u8>;

/// SHA-256 from the `sha2` crate; a digest is 32 bytes.
#[verifier::external_body]
fn sha256_digest(b: &[u8]) -> (r: Vec<u8>)
    ensures
        r@ == sha256(b@),
        r@.len() == 32,
{
    sha2::Sha256::digest(b).to_vec()
}

/// Accepts `bytes` when their SHA-256 digest, in lowercase hexadecimal,
/// equals `expected` in lowercase.
pub fn verify_sha256(bytes: &Vec<u8>, expected: &str) -> (r: Result<(), FetchError>)
    ensures
        hex_of(sha256(bytes@)) == lowercase(expected@) ==> r is Ok,
        hex_of(sha256(bytes@)) != lowercase(expected@) ==> (r matches Err(FetchError::ChecksumMismatch { expected: e, actual: a })
            && e@ == expected@ && a@ == hex_of(sha256(bytes@))),
{
    let digest = sha256_digest(bytes.as_slice());
    let actual = hex_encode(&digest);
    let want = to_lowercase(expected);
    if str_eq(actual.as_str(), want.as_str()) {
        Ok(())
    } else {
        Err(FetchError::ChecksumMismatch { expected: String::from_str(expected), actual })
    }
}

} // verus!
