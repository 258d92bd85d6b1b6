//! Global, app-wide settings and their defaults.

use vstd::prelude::*;
use vstd::string::*;

verus! {

/// Global, app-wide settings (defaults for new transfers + behaviors).
/// Distinct from per-transfer options, which live on each preset.
#[derive(Debug, Clone)]
pub struct Settings {
    pub default_hash: String,
    pub default_verify: bool,
    pub default_skip_existing: bool,
    pub default_write_manifest: bool,
    pub default_exclude_ext: String,
    pub confirm_before_harvest: bool,
    pub notify: bool,
    pub auto_eject: bool,
    pub keep_awake: bool,
}

/// What an option is that is on unless it is switched off.
pub fn default_true() -> (r: bool)
    ensures
        r,
{
    true
}

/// The algorithm of a new transfer.
pub fn default_hash() -> (r: String)
    ensures
        r@ == "xxh64"@,
{
    "xxh64".to_owned()
}

impl Default for Settings {
    fn default() -> (r: Self)
        ensures
            r.default_hash@ == "xxh64"@,
            r.default_verify,
            r.default_skip_existing,
            r.default_write_manifest,
            r.default_exclude_ext@ == Seq::<char>::empty(),
            r.confirm_before_harvest,
            r.notify,
            !r.auto_eject,
            r.keep_awake,
    {
        let none = String::new();
        assert(none@ == Seq::<char>::empty());
        Settings {
            default_hash: default_hash(),
            default_verify: true,
            default_skip_existing: true,
            default_write_manifest: true,
            default_exclude_ext: none,
            confirm_before_harvest: true,
            notify: true,
            auto_eject: false,
            keep_awake: true,
        }
    }
}

} // verus!
