//! Per-file version history: one record per stored version.
//!
//! Version numbers are contiguous and 1-based; the history is append-only,
//! and exactly one record is appended per successful change.

use vstd::prelude::*;

verus! {

/// One stored version of one logical file.
pub struct FileVersion {
    /// 1-based, contiguous version number.
    pub version: u64,
    /// Canonical content hash, lowercase hex.
    pub hash: Vec<u8>,
    /// Byte size of the source file as observed at hash time.
    pub size: u64,
    /// Modification time, nanoseconds since the epoch, at hash time.
    pub mtime_ns: u128,
    /// Wall-clock processing timestamp.
    pub processed_at: Vec<u8>,
    /// Name of the diff artifact this version introduced, if one was made.
    pub diff_file: Option<Vec<u8>>,
}

/// The view of an optional byte string.
pub open spec fn opt_bytes_view(o: Option<Vec<u8>>) -> Option<Seq<u8>> {
    match o {
        Some(d) => Some(d@),
        None => None,
    }
}

/// Mathematical model of a version record.
pub struct VersionView {
    pub version: u64,
    pub hash: Seq<u8>,
    pub size: u64,
    pub mtime_ns: u128,
    pub processed_at: Seq<u8>,
    pub diff_file: Option<Seq<u8>>,
}

impl View for FileVersion {
    type V = VersionView;

    open spec fn view(&self) -> VersionView {
        VersionView {
            version: self.version,
            hash: self.hash@,
            size: self.size,
            mtime_ns: self.mtime_ns,
            processed_at: self.processed_at@,
            diff_file: match self.diff_file {
                Some(ref d) => Some(d@),
                None => None,
            },
        }
    }
}

/// The whole known history of one logical file.
pub struct FileHistory {
    /// Append-only; insertion order is version order.
    pub versions: Vec<FileVersion>,
    /// The alias naming this file's storage directory.
    pub alias: Vec<u8>,
    /// The original absolute path the alias was derived from.
    pub original_path: Vec<u8>,
}

/// The models of a sequence of version records.
pub open spec fn versions_view(vs: Seq<FileVersion>) -> Seq<VersionView> {
    Seq::new(vs.len(), |i: int| vs[i]@)
}

/// Mathematical model of a file history.
pub struct HistoryView {
    pub versions: Seq<VersionView>,
    pub alias: Seq<u8>,
    pub original_path: Seq<u8>,
}

impl View for FileHistory {
    type V = HistoryView;

    open spec fn view(&self) -> HistoryView {
        HistoryView {
            versions: versions_view(self.versions@),
            alias: self.alias@,
            original_path: self.original_path@,
        }
    }
}

impl HistoryView {
    /// Version numbers are contiguous starting at 1.
    pub open spec fn wf(self) -> bool {
        forall|i: int| 0 <= i < self.versions.len() ==> #[trigger] self.versions[i].version == i + 1
    }

    /// The record a successful change appends: the next contiguous version
    /// number, carrying the observed hash, size, modification time,
    /// processing timestamp and optional diff artifact name.
    pub open spec fn next_record(
        self,
        hash: Seq<u8>,
        size: u64,
        mtime_ns: u128,
        processed_at: Seq<u8>,
        diff_file: Option<Seq<u8>>,
    ) -> VersionView {
        VersionView {
            version: (self.versions.len() + 1) as u64,
            hash: hash,
            size: size,
            mtime_ns: mtime_ns,
            processed_at: processed_at,
            diff_file: diff_file,
        }
    }
}

impl FileHistory {
    /// A fresh, empty history for `alias`, recording the path it came from.
    pub fn new(alias: Vec<u8>, original_path: Vec<u8>) -> (h: Self)
        ensures
            h@.versions == Seq::<VersionView>::empty(),
            h@.alias == alias@,
            h@.original_path == original_path@,
            h@.wf(),
    {
        let h = FileHistory { versions: Vec::new(), alias, original_path };
        proof {
            assert(h@.versions =~= Seq::<VersionView>::empty());
        }
        h
    }

    /// Append the record of one successful change.
    ///
    /// The new record gets the next contiguous version number, so a
    /// well-formed history stays well-formed: after the `n`-th successful
    /// change the records are numbered `1..=n` in order.
    pub fn append_version(
        &mut self,
        hash: Vec<u8>,
        size: u64,
        mtime_ns: u128,
        processed_at: Vec<u8>,
        diff_file: Option<Vec<u8>>,
    )
        requires
            old(self).versions@.len() < u64::MAX,
        ensures
            final(self)@.versions == old(self)@.versions.push(
                old(self)@.next_record(hash@, size, mtime_ns, processed_at@, opt_bytes_view(diff_file)),
            ),
            final(self)@.alias == old(self)@.alias,
            final(self)@.original_path == old(self)@.original_path,
            old(self)@.wf() ==> final(self)@.wf(),
    {
        let version = self.versions.len() as u64 + 1;
        let record = FileVersion { version, hash, size, mtime_ns, processed_at, diff_file };
        let ghost rv = record@;
        self.versions.push(record);
        proof {
            assert(self@.versions =~= old(self)@.versions.push(rv));
        }
    }

    /// The number of stored versions.
    pub fn version_count(&self) -> (n: usize)
        ensures
            n == self@.versions.len(),
    {
        self.versions.len()
    }
}

} // verus!
