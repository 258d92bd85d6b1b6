//! Harvest core engine: verified file ingest.
//!
//! This crate is deliberately UI-agnostic: it holds what a command line and a
//! desktop application share, and touches no disk itself. It decides what to
//! copy, follows every copy from the first read to the read-back, keeps the
//! journal, writes the manifest, and says how a run ended. What it states is
//! proved: that bytes copied off a card are handed to every destination, and
//! that a destination counts as verified only if it has the checksum of the
//! source.

pub mod console;
pub mod copy;
pub mod dates;
pub mod drive;
pub mod filter;
pub mod group;
pub mod hash;
pub mod history;
pub mod journal;
pub mod manifest;
pub mod path;
pub mod presets;
pub mod request;
pub mod reverify;
pub mod run;
pub mod scan;
pub mod settings;
pub mod sort;
pub mod survey;
pub mod template;
pub mod text;
pub mod transfer;

pub use copy::{
    copy_file_verified, dest_paths, identify, CopyAction, CopySession, DestReport, FileReport,
};
pub use filter::{normalize_ext, Filter, FilterError};
pub use hash::{hash_file, HashAlgo, Hasher};
pub use journal::{JournalHeader, JournalRecord, LoadedJournal, JOURNAL_VERSION};
pub use manifest::{to_mhl, to_sidecar, ManifestEntry};
pub use path::{forward_slash, FilePath};
pub use presets::Preset;
pub use request::{build_config, ConfigError, CopyRequest};
pub use reverify::{run_verify, VerifyRun};
pub use run::{
    filter_and_template, plan, present_at_all, total_size, HarvestConfig, HarvestPlan, SetupError,
    JOURNAL_NAME,
};
pub use scan::{mtime_ns, scan, scan_with, FileMeta, FileTime, Found, SourceFile, WalkEntry};
pub use settings::Settings;
pub use template::{render as render_template, RenderCtx};
pub use transfer::{run_harvest, HarvestEvent, HarvestOutcome, HarvestRun};

use vstd::prelude::*;

verus! {

/// 8 MiB streaming buffer — favors throughput on large media files.
pub const DEFAULT_BUF_SIZE: usize = 8 * 1024 * 1024;

/// Options for a harvest run.
#[derive(Debug, Clone, Copy)]
pub struct HarvestOptions {
    pub algo: HashAlgo,
    pub verify: bool,
    pub buf_size: usize,
}

impl Default for HarvestOptions {
    fn default() -> (r: Self)
        ensures
            r.algo == HashAlgo::Xxh64,
            r.verify,
            r.buf_size == DEFAULT_BUF_SIZE,
    {
        HarvestOptions { algo: HashAlgo::Xxh64, verify: true, buf_size: DEFAULT_BUF_SIZE }
    }
}

} // verus!
