//! Per-file pipeline decisions.
//!
//! The I/O shell reads metadata, content and snapshots and performs writes;
//! every decision between those steps is made here: the two-tier skip check
//! (cheap metadata first, canonical hash second), the diff decision, the
//! version record, and the persisted history bytes. Within one file the
//! stages are strictly sequential: metadata, permit, hash, compare, diff,
//! finalize, history append.

use vstd::prelude::*;

use crate::canon::strip_cr_spec;
use crate::history::{opt_bytes_view, FileHistory, HistoryView, VersionView};
use crate::json::{dec, history_to_json, json_of, sp_history};
use crate::sha::canon_hash_spec;

verus! {

/// The per-file versioning pipeline. Its decisions live in this module as
/// free functions; the I/O shell drives them in stage order for each file.
pub struct Processor;

impl Processor {
    /// The storage alias for a path, given the working directory.
    pub fn calculate_path_alias(path: &[u8], cwd: &[u8]) -> (r: Vec<u8>)
        ensures
            r@ == crate::alias::alias_spec(path@, cwd@),
    {
        crate::alias::calculate_path_alias(path, cwd)
    }
}

/// One file's failure, with the offending path: creating its directory,
/// handling a file, or persisting its history metadata.
pub enum ProcessError {
    CreateDir(Vec<u8>),
    File(Vec<u8>),
    Metadata(Vec<u8>),
}

impl ProcessError {
    /// The offending path.
    pub fn path(&self) -> (r: &Vec<u8>)
        ensures
            r@ == (match self {
                ProcessError::CreateDir(p) => p@,
                ProcessError::File(p) => p@,
                ProcessError::Metadata(p) => p@,
            }),
    {
        match self {
            ProcessError::CreateDir(p) => p,
            ProcessError::File(p) => p,
            ProcessError::Metadata(p) => p,
        }
    }
}

/// Do two byte strings hold the same bytes?
pub fn bytes_equal(a: &[u8], b: &[u8]) -> (r: bool)
    ensures
        r == (a@ == b@),
{
    if a.len() != b.len() {
        proof {
            assert(a@ != b@);
        }
        return false;
    }
    let n = a.len();
    let mut k: usize = 0;
    while k < n
        invariant
            n == a@.len() == b@.len(),
            k <= n,
            forall|t: int| 0 <= t < k ==> #[trigger] a@[t] == b@[t],
        decreases n - k,
    {
        if a[k] != b[k] {
            return false;
        }
        k = k + 1;
    }
    proof {
        assert(a@ =~= b@);
    }
    true
}

/// The cheap skip: the last stored version has this size and modification
/// time, so the file is taken as unchanged with no hashing at all.
pub open spec fn metadata_unchanged(h: HistoryView, size: u64, mtime_ns: u128) -> bool {
    &&& h.versions.len() > 0
    &&& h.versions.last().size == size
    &&& h.versions.last().mtime_ns == mtime_ns
}

/// Decide the metadata skip for one file.
pub fn should_skip_metadata(h: &FileHistory, size: u64, mtime_ns: u128) -> (r: bool)
    ensures
        r == metadata_unchanged(h@, size, mtime_ns),
{
    let n = h.versions.len();
    if n == 0 {
        return false;
    }
    let last = &h.versions[n - 1];
    last.size == size && last.mtime_ns == mtime_ns
}

/// The deep skip: the canonical hash equals the last stored version's hash,
/// so the content is unchanged despite size or time drift and no new
/// version is recorded.
pub open spec fn content_unchanged(h: HistoryView, hash: Seq<u8>) -> bool {
    &&& h.versions.len() > 0
    &&& h.versions.last().hash == hash
}

/// Decide the content skip for one file, given its canonical hash.
pub fn should_skip_content(h: &FileHistory, hash: &[u8]) -> (r: bool)
    ensures
        r == content_unchanged(h@, hash@),
{
    let n = h.versions.len();
    if n == 0 {
        return false;
    }
    let last = &h.versions[n - 1];
    bytes_equal(last.hash.as_slice(), hash)
}

/// Does a loaded history belong to a different original path? Two paths
/// whose aliases collide share one directory; this flags the collision
/// instead of silently merging unrelated histories.
pub fn alias_collision(h: &FileHistory, original_path: &[u8]) -> (r: bool)
    ensures
        r == (h@.versions.len() > 0 && h@.original_path != original_path@),
{
    if h.versions.len() == 0 {
        return false;
    }
    !bytes_equal(h.original_path.as_slice(), original_path)
}

/// A history with no versions yet, for `alias` and `original_path`.
pub open spec fn fresh_history(h: HistoryView, alias: Seq<u8>, original_path: Seq<u8>) -> bool {
    &&& h.versions.len() == 0
    &&& h.alias == alias
    &&& h.original_path == original_path
}

/// Interpret the stored history file, if any.
///
/// A missing file and an unparsable file both yield a fresh history for the
/// given alias and path — the one recoverable failure of the store; the
/// alias then restarts its version numbering at 1. A parsed history is
/// returned exactly as stored.
pub fn load_history(data: Option<&Vec<u8>>, alias: Vec<u8>, original_path: Vec<u8>) -> (h:
    FileHistory)
    ensures
        (match data {
            Some(d) => match sp_history(d@) {
                Some(hv) => h@ == hv,
                None => fresh_history(h@, alias@, original_path@),
            },
            None => fresh_history(h@, alias@, original_path@),
        }),
{
    match data {
        None => FileHistory::new(alias, original_path),
        Some(d) => match crate::json::history_from_json(d.as_slice()) {
            Some(h) => h,
            None => FileHistory::new(alias, original_path),
        },
    }
}

/// The name of the diff artifact introduced by version `n`.
pub open spec fn diff_name_spec(n: u64) -> Seq<u8> {
    seq![118u8] + dec(n as nat) + seq![46u8, 100, 105, 102, 102]
}

/// Render the diff artifact name for version `n`: `v<n>.diff`.
pub fn diff_file_name(n: u64) -> (r: Vec<u8>)
    ensures
        r@ == diff_name_spec(n),
{
    let mut out: Vec<u8> = Vec::new();
    out.push(118);
    crate::json::push_dec(&mut out, n as u128);
    out.push(46);
    out.push(100);
    out.push(105);
    out.push(102);
    out.push(102);
    proof {
        assert(out@ =~= diff_name_spec(n));
    }
    out
}

/// Relies on `chrono::Local::now` and `chrono::DateTime::to_rfc3339` for the
/// wall-clock processing timestamp; nothing is assumed of the result.
#[verifier::external_body]
fn now_rfc3339() -> (r: Vec<u8>)
{
    chrono::Local::now().to_rfc3339().into_bytes()
}

/// Record one successful change: append the record of the new version —
/// observed hash, size, modification time, the wall clock's timestamp, and
/// the diff artifact's name if one was written — and render the history
/// bytes to persist.
pub fn store_version(
    history: &mut FileHistory,
    hash: Vec<u8>,
    size: u64,
    mtime_ns: u128,
    diff_file: Option<Vec<u8>>,
) -> (r: Vec<u8>)
    requires
        old(history).versions@.len() < u64::MAX,
    ensures
        final(history)@.versions == old(history)@.versions.push(
            old(history)@.next_record(
                hash@,
                size,
                mtime_ns,
                final(history)@.versions.last().processed_at,
                opt_bytes_view(diff_file),
            ),
        ),
        final(history)@.alias == old(history)@.alias,
        final(history)@.original_path == old(history)@.original_path,
        old(history)@.wf() ==> final(history)@.wf(),
        r@ == json_of(final(history)@),
{
    let timestamp = now_rfc3339();
    history.append_version(hash, size, mtime_ns, timestamp, diff_file);
    history_to_json(history)
}

// ----------------------------------------------------------------------
// Laws of the pipeline.
// ----------------------------------------------------------------------

/// A file whose version was just stored with the observed size and
/// modification time is skipped by the cheap metadata check on the next
/// run, before any hashing and before any history write.
pub proof fn lemma_second_run_skips_metadata(
    h: HistoryView,
    r: VersionView,
    size: u64,
    mtime_ns: u128,
)
    requires
        r.size == size,
        r.mtime_ns == mtime_ns,
    ensures
        metadata_unchanged(
            HistoryView {
                versions: h.versions.push(r),
                alias: h.alias,
                original_path: h.original_path,
            },
            size,
            mtime_ns,
        ),
{
}

/// Contents whose canonical forms agree — in particular contents that are
/// byte-identical but for carriage returns — have the same canonical hash,
/// however they are split into chunks.
pub proof fn lemma_canon_hash_cr_insensitive(a: Seq<u8>, b: Seq<u8>)
    requires
        strip_cr_spec(a) == strip_cr_spec(b),
    ensures
        canon_hash_spec(a) == canon_hash_spec(b),
{
}

/// A content hashes exactly like its own carriage-return-free form: storing
/// a file and later seeing it with the other line-ending style yields the
/// same canonical hash.
pub proof fn lemma_canonical_form_hashes_alike(s: Seq<u8>)
    ensures
        canon_hash_spec(strip_cr_spec(s)) == canon_hash_spec(s),
{
    crate::canon::lemma_strip_cr_idempotent(s);
}

/// A file whose version was just stored under its canonical hash is skipped
/// by the content check on the next run when the hash comes out the same,
/// so no new version, diff, snapshot or history write happens.
pub proof fn lemma_second_run_skips_content(h: HistoryView, r: VersionView, hash: Seq<u8>)
    requires
        r.hash == hash,
    ensures
        content_unchanged(
            HistoryView {
                versions: h.versions.push(r),
                alias: h.alias,
                original_path: h.original_path,
            },
            hash,
        ),
{
}

/// In a well-formed history the records are numbered `1..=N` in order: the
/// `i`-th stored record carries version number `i + 1`.
pub proof fn lemma_versions_contiguous(h: HistoryView)
    requires
        h.wf(),
    ensures
        forall|i: int|
            0 <= i < h.versions.len() ==> #[trigger] h.versions[i].version == i + 1,
{
}

} // verus!
