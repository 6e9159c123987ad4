//! Diff artifacts: a unified line diff between the previous snapshot and the
//! new content, produced only when it is cheap and meaningful.
//!
//! A diff is attempted only when a prior snapshot exists and the new content
//! is below the chunk threshold; it is kept only when both contents decode
//! as text and the diff itself is nonempty. Skipping a diff is never an
//! error: the snapshot alone represents the version.

use vstd::prelude::*;

use vstd::utf8::valid_utf8;

verus! {

/// The streaming chunk size; files at or above it get no diff artifact.
pub const CHUNK_SIZE: u64 = 8388608;

/// The unified line diff of two texts under a header name, as the `similar`
/// crate renders it: a function of the three arguments alone.
pub uninterp spec fn udiff_of(old: Seq<u8>, new: Seq<u8>, header: Seq<u8>) -> Seq<u8>;

/// Relies on `str::from_utf8`: it accepts exactly the valid UTF-8 byte
/// strings.
#[verifier::external_body]
fn check_utf8(b: &[u8]) -> (r: bool)
    ensures
        r == valid_utf8(b@),
{
    std::str::from_utf8(b).is_ok()
}

/// Relies on `similar::TextDiff::from_lines` and
/// `similar::udiff::UnifiedDiff` (default context, with a header): the
/// rendered unified diff depends on the two texts and the header name alone.
#[verifier::external_body]
fn unified_diff(old: &[u8], new: &[u8], header: &[u8]) -> (r: Vec<u8>)
    requires
        valid_utf8(old@),
        valid_utf8(new@),
        valid_utf8(header@),
    ensures
        r@ == udiff_of(old@, new@, header@),
{
    let old_s = std::str::from_utf8(old).unwrap();
    let new_s = std::str::from_utf8(new).unwrap();
    let header_s = std::str::from_utf8(header).unwrap();
    let text_diff = similar::TextDiff::from_lines(old_s, new_s);
    let rendered = similar::udiff::UnifiedDiff::from_text_diff(&text_diff)
        .header(header_s, header_s)
        .to_string();
    rendered.into_bytes()
}

/// When a diff artifact exists for a new version: a prior snapshot was
/// there, the new content is under the chunk threshold, both contents are
/// text, and the rendered diff is nonempty.
pub open spec fn diff_produced(
    prior_snapshot: bool,
    new_size: u64,
    old: Option<Seq<u8>>,
    new: Option<Seq<u8>>,
    header: Seq<u8>,
) -> bool {
    &&& prior_snapshot
    &&& new_size < CHUNK_SIZE
    &&& old is Some
    &&& new is Some
    &&& valid_utf8(old.unwrap())
    &&& valid_utf8(new.unwrap())
    &&& udiff_of(old.unwrap(), new.unwrap(), header).len() > 0
}

/// The view of optional content handed in by the caller.
pub open spec fn opt_view(o: Option<&Vec<u8>>) -> Option<Seq<u8>> {
    match o {
        Some(v) => Some(v@),
        None => None,
    }
}

/// Decide on and render the diff artifact for a new version.
///
/// `old` and `new` are the previous snapshot's content and the new content,
/// `None` where the caller could not read them (a read failure here skips
/// the diff, it never fails the version). The result is the diff text
/// exactly when a diff is owed; every skip case yields `None`.
pub fn make_diff(
    prior_snapshot: bool,
    new_size: u64,
    old: Option<&Vec<u8>>,
    new: Option<&Vec<u8>>,
    header: &[u8],
) -> (r: Option<Vec<u8>>)
    requires
        valid_utf8(header@),
    ensures
        (match r {
            Some(d) => diff_produced(prior_snapshot, new_size, opt_view(old), opt_view(new), header@)
                && d@ == udiff_of(old.unwrap()@, new.unwrap()@, header@),
            None => !diff_produced(
                prior_snapshot,
                new_size,
                opt_view(old),
                opt_view(new),
                header@,
            ),
        }),
{
    if !prior_snapshot || new_size >= CHUNK_SIZE {
        return None;
    }
    let old_content = match old {
        Some(c) => c,
        None => {
            return None;
        },
    };
    let new_content = match new {
        Some(c) => c,
        None => {
            return None;
        },
    };
    if !check_utf8(old_content.as_slice()) {
        return None;
    }
    if !check_utf8(new_content.as_slice()) {
        return None;
    }
    let rendered = unified_diff(old_content.as_slice(), new_content.as_slice(), header);
    if rendered.len() == 0 {
        return None;
    }
    Some(rendered)
}

} // verus!
