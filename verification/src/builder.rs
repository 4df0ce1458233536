//! Turn what was read from the filesystem into manifest entries.
//! Reading the files is the caller's part; hashing, content capture and
//! timestamps are computed here.

use vstd::prelude::*;
use vstd::utf8::{decode_utf8, valid_utf8};
use crate::hash::{digest_text, hash_bytes};
use crate::manifest::{Entry, EntryKind, EntryView, opt_text};
use crate::text::{forward_slashes, normalize_separators};
use crate::walk::WalkOptions;

verus! {

/// Maximum size of a file whose text content is stored inline for content diffs.
pub const CONTENT_CAP_BYTES: usize = 256 * 1024;

/// Options for building a snapshot: how to walk, and whether to store text content.
#[derive(Debug, Clone)]
pub struct SnapOptions {
    pub walk: WalkOptions,
    /// Store inline text content for small UTF-8 files (enables content diffs).
    pub store_content: bool,
}

impl Default for SnapOptions {
    fn default() -> (r: Self)
        ensures
            !r.walk.hidden,
            r.walk.use_ignore,
            r.walk.extra_ignores@.len() == 0,
            r.store_content,
    {
        SnapOptions { walk: WalkOptions::default(), store_content: true }
    }
}

/// Decodes `bytes` as UTF-8 with `String::from_utf8`: the text when the
/// bytes are valid UTF-8, nothing otherwise, as its documentation says.
#[verifier::external_body]
fn utf8_text(bytes: &[u8]) -> (r: Option<String>)
    ensures
        r is Some <==> valid_utf8(bytes@),
        r matches Some(s) ==> s@ == decode_utf8(bytes@),
{
    String::from_utf8(bytes.to_vec()).ok()
}

/// The inline text stored for a file's bytes: only when storage is enabled,
/// the file is at most the cap, and it is valid UTF-8.
pub open spec fn inline_text(bytes: Seq<u8>, store_content: bool) -> Option<Seq<char>> {
    if store_content && bytes.len() <= CONTENT_CAP_BYTES && valid_utf8(bytes) {
        Some(decode_utf8(bytes))
    } else {
        None
    }
}

/// Return inline text content for small UTF-8 files when storage is enabled.
pub fn inline_content(bytes: &[u8], store_content: bool) -> (r: Option<String>)
    ensures
        opt_text(r) == inline_text(bytes@, store_content),
{
    if !store_content || bytes.len() > CONTENT_CAP_BYTES {
        return None;
    }
    utf8_text(bytes)
}

/// The permission bits of a Unix mode (setuid, setgid, sticky, rwx).
pub fn permission_bits(mode: u32) -> (r: u32)
    ensures
        r == mode & 0o7777,
{
    mode & 0o7777
}

/// The recorded mode for a raw Unix mode, when the platform has one.
pub open spec fn recorded_mode(raw_mode: Option<u32>) -> Option<u32> {
    match raw_mode {
        Some(m) => Some(m & 0o7777),
        None => None,
    }
}

fn mode_of(raw_mode: Option<u32>) -> (r: Option<u32>)
    ensures
        r == recorded_mode(raw_mode),
{
    match raw_mode {
        Some(m) => Some(permission_bits(m)),
        None => None,
    }
}

/// The entry recorded for a regular file with these contents.
pub fn file_entry(
    rel: String,
    size: u64,
    raw_mode: Option<u32>,
    bytes: &[u8],
    mtime: Option<String>,
    store_content: bool,
) -> (e: Entry)
    ensures
        e@ == (EntryView {
            path: rel@,
            kind: EntryKind::File,
            size: Some(size),
            mode: recorded_mode(raw_mode),
            hash: Some(digest_text(bytes@)),
            target: None,
            mtime: opt_text(mtime),
            content: inline_text(bytes@, store_content),
        }),
{
    let hash = hash_bytes(bytes);
    let content = inline_content(bytes, store_content);
    Entry {
        path: rel,
        kind: EntryKind::File,
        size: Some(size),
        mode: mode_of(raw_mode),
        hash: Some(hash),
        target: None,
        mtime,
        content,
    }
}

/// The entry recorded for a symbolic link to `target`; the target is kept
/// with `/` separators.
pub fn symlink_entry(rel: String, raw_mode: Option<u32>, target: &str, mtime: Option<String>) -> (e: Entry)
    ensures
        e@ == (EntryView {
            path: rel@,
            kind: EntryKind::Symlink,
            size: None,
            mode: recorded_mode(raw_mode),
            hash: None,
            target: Some(forward_slashes(target@)),
            mtime: opt_text(mtime),
            content: None,
        }),
{
    Entry {
        path: rel,
        kind: EntryKind::Symlink,
        size: None,
        mode: mode_of(raw_mode),
        hash: None,
        target: Some(normalize_separators(target)),
        mtime,
        content: None,
    }
}

/// The RFC 3339 text of the instant `second`.`nanosecond` after the Unix
/// epoch, as jiff's `Timestamp` displays it, or nothing when jiff rejects the
/// instant as out of its range.
pub uninterp spec fn jiff_timestamp_text(second: i64, nanosecond: i32) -> Option<Seq<char>>;

/// Calls `jiff::Timestamp::new(second, nanosecond)` and displays the result.
/// The contract claims only that the outcome is a function of the two
/// numbers, named `jiff_timestamp_text`; it does not state the range jiff
/// accepts nor the text it writes.
#[verifier::external_body]
fn jiff_rfc3339(second: i64, nanosecond: i32) -> (r: Option<String>)
    ensures
        opt_text(r) == jiff_timestamp_text(second, nanosecond),
{
    match jiff::Timestamp::new(second, nanosecond) {
        Ok(ts) => Some(ts.to_string()),
        Err(_) => None,
    }
}

/// The RFC 3339 text of an instant given as seconds and nanoseconds since
/// the Unix epoch (negative before it): how snapshots record `created_at`
/// and file modification times.
pub fn timestamp_text(second: i64, nanosecond: i32) -> (r: Option<String>)
    ensures
        opt_text(r) == jiff_timestamp_text(second, nanosecond),
{
    jiff_rfc3339(second, nanosecond)
}

} // verus!
