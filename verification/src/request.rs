//! What a front end asks for, and the configuration it makes.

use crate::filter;
use crate::filter::{Filter, FilterError};
use crate::hash;
use crate::hash::HashAlgo;
use crate::path;
use crate::path::{last_position, FilePath};
use crate::run;
use crate::run::HarvestConfig;
use crate::text;
use crate::text::{from_chars, to_chars, trim};
use vstd::prelude::*;
use vstd::string::*;

verus! {

/// Copy request sent from a front end.
#[derive(Debug, Clone)]
pub struct CopyRequest {
    pub source: String,
    pub dests: Vec<String>,
    pub hash: String,
    pub verify: bool,
    pub resume: bool,
    pub skip_existing: bool,
    pub include_ext: Option<String>,
    pub exclude_ext: Option<String>,
    pub min_size: Option<String>,
    pub max_size: Option<String>,
    pub newer_than: Option<String>,
    pub older_than: Option<String>,
    pub exclude_paths: Vec<String>,
    pub owner_only: bool,
    pub dest_template: Option<String>,
    pub project: Option<String>,
    pub write_manifest: bool,
}

/// Why a request makes no configuration.
#[derive(Debug)]
pub enum ConfigError {
    /// No algorithm has this name.
    UnknownHash(String),
    /// The filter makes no sense.
    Filter(FilterError),
}

/// What a [`ConfigError`] stands for.
pub enum ConfigFailure {
    UnknownHash(Seq<char>),
    Filter(filter::FilterFailure),
}

impl View for ConfigError {
    type V = ConfigFailure;

    open spec fn view(&self) -> ConfigFailure {
        match *self {
            ConfigError::UnknownHash(s) => ConfigFailure::UnknownHash(s@),
            ConfigError::Filter(e) => ConfigFailure::Filter(e@),
        }
    }
}

/// The message for a request that makes no configuration.
pub open spec fn config_message(f: ConfigFailure) -> Seq<char> {
    match f {
        ConfigFailure::UnknownHash(s) => "unknown hash algorithm '"@ + s + "'"@,
        ConfigFailure::Filter(x) => filter::filter_message(x),
    }
}

impl ConfigError {
    /// The message for the user.
    pub fn message(&self) -> (r: String)
        ensures
            r@ == config_message(self@),
    {
        match self {
            ConfigError::UnknownHash(s) => {
                let mut r = "unknown hash algorithm '".to_owned();
                r.append(s.as_str());
                r.append("'");
                r
            },
            ConfigError::Filter(e) => e.message(),
        }
    }
}

/// A template, unless it is blank.
pub open spec fn real_template(t: Option<Seq<char>>) -> Option<Seq<char>> {
    match t {
        Some(s) => if text::trimmed(s).len() == 0 {
            None
        } else {
            Some(s)
        },
        None => None,
    }
}

/// The configuration that a request makes for `user`, the account it runs
/// under, or why it makes none.
pub open spec fn config_of(req: CopyRequest, user: Option<Seq<char>>) -> Result<
    run::ConfigModel,
    ConfigFailure,
> {
    match hash::algo_of_name(req.hash@) {
        None => Err(ConfigFailure::UnknownHash(req.hash@)),
        Some(algo) => match filter::built(
            text::opt_text(req.include_ext),
            text::opt_text(req.exclude_ext),
            text::opt_text(req.min_size),
            text::opt_text(req.max_size),
            text::opt_text(req.newer_than),
            text::opt_text(req.older_than),
        ) {
            Err(x) => Err(ConfigFailure::Filter(x)),
            Ok(m) => Ok(
                run::ConfigModel {
                    source: req.source@,
                    dests: text::texts(req.dests@),
                    algo,
                    verify: req.verify,
                    resume: req.resume,
                    skip_existing: req.skip_existing,
                    filter: filter::FilterModel {
                        exclude_paths: text::texts(req.exclude_paths@),
                        owner: if req.owner_only {
                            user
                        } else {
                            None
                        },
                        ..m
                    },
                    dest_template: real_template(text::opt_text(req.dest_template)),
                    project: match req.project {
                        Some(p) => p@,
                        None => Seq::<char>::empty(),
                    },
                    write_manifest: req.write_manifest,
                    journal_path: None,
                    manifest_path: None,
                },
            ),
        },
    }
}

/// The paths with the texts of a list.
fn to_paths(list: Vec<String>) -> (r: Vec<FilePath>)
    ensures
        path::path_texts(r@) == text::texts(list@),
{
    let ghost all = text::texts(list@);
    let ghost given = list@;
    let mut r: Vec<FilePath> = Vec::new();
    assert(path::path_texts(r@) == all.take(0));
    for s in it: list
        invariant
            it.seq() == given,
            all == text::texts(given),
            path::path_texts(r@) == all.take(it.index()),
    {
        let ghost before = path::path_texts(r@);
        let ghost model = s@;
        r.push(FilePath { text: s });
        assert(path::path_texts(r@) == before.push(model));
        assert(all.take(it.index() + 1) == before.push(model));
    }
    assert(all.take(all.len() as int) == all);
    r
}

/// The characters of an optional string, borrowed.
fn borrowed(s: &Option<String>) -> (r: Option<&str>)
    ensures
        text::str_text(r) == text::opt_text(*s),
{
    match s {
        Some(s) => Some(s.as_str()),
        None => None,
    }
}

/// A template, unless it is blank.
fn used_template(t: Option<String>) -> (r: Option<String>)
    ensures
        text::opt_text(r) == real_template(text::opt_text(t)),
{
    match t {
        Some(s) => if trim(s.as_str()).as_str().is_empty() {
            None
        } else {
            Some(s)
        },
        None => None,
    }
}

/// The configuration that a request makes. `user` is the account it runs
/// under, for the "only files I own" filter.
pub fn build_config(req: CopyRequest, user: Option<String>) -> (r: Result<
    HarvestConfig,
    ConfigError,
>)
    ensures
        match config_of(req, text::opt_text(user)) {
            Ok(m) => r matches Ok(c) && c@ == m,
            Err(x) => r matches Err(e) && e@ == x,
        },
{
    let Some(algo) = HashAlgo::parse(req.hash.as_str()) else {
        return Err(ConfigError::UnknownHash(req.hash));
    };
    let built = Filter::build(
        borrowed(&req.include_ext),
        borrowed(&req.exclude_ext),
        borrowed(&req.min_size),
        borrowed(&req.max_size),
        borrowed(&req.newer_than),
        borrowed(&req.older_than),
    );
    let typed = match built {
        Ok(f) => f,
        Err(e) => return Err(ConfigError::Filter(e)),
    };
    let wanted = Filter {
        include_ext: typed.include_ext,
        exclude_ext: typed.exclude_ext,
        min_size: typed.min_size,
        max_size: typed.max_size,
        newer_than_ns: typed.newer_than_ns,
        older_than_ns: typed.older_than_ns,
        exclude_paths: to_paths(req.exclude_paths),
        owner: if req.owner_only {
            user
        } else {
            None
        },
    };
    let project = match req.project {
        Some(p) => p,
        None => String::new(),
    };
    assert(req.project is None ==> project@ == Seq::<char>::empty());
    Ok(
        HarvestConfig {
            source: FilePath { text: req.source },
            dests: to_paths(req.dests),
            algo,
            verify: req.verify,
            resume: req.resume,
            skip_existing: req.skip_existing,
            filter: wanted,
            dest_template: used_template(req.dest_template),
            project,
            write_manifest: req.write_manifest,
            journal_path: None,
            manifest_path: None,
        },
    )
}

/// The account name, from the two variables that may hold it: the first that
/// is set counts, and an empty name is none.
pub fn account_name(username: Option<String>, user: Option<String>) -> (r: Option<String>)
    ensures
        text::opt_text(r) == match if username is Some {
            username
        } else {
            user
        } {
            Some(n) => if n@.len() == 0 {
                None
            } else {
                Some(n@)
            },
            None => None,
        },
{
    let name = match username {
        Some(n) => Some(n),
        None => user,
    };
    match name {
        Some(n) => if n.as_str().is_empty() {
            None
        } else {
            Some(n)
        },
        None => None,
    }
}

/// The name of an account without the domain that Windows puts in front of it,
/// with `\` between them.
pub fn bare_account(owner: &str) -> (r: String)
    ensures
        r@ == owner@.skip(path::last_index(owner@, '\\') + 1),
{
    let chars = to_chars(owner);
    let n = chars.len();
    let from = match last_position(&chars, '\\') {
        Some(at) => at + 1,
        None => 0,
    };
    assert(chars@.subrange(from as int, chars@.len() as int) == owner@.skip(
        path::last_index(owner@, '\\') + 1,
    ));
    from_chars(&chars, from, n)
}

// ---------------------------------------------------------------------------
// Laws
// ---------------------------------------------------------------------------

/// A configuration carries the request over: paths, options and the filter that
/// was typed, with the excluded paths and, if only one's own files are wanted,
/// the account. A blank template counts as none.
pub proof fn configurations_carry_the_request(req: CopyRequest, user: Option<Seq<char>>)
    ensures
        config_of(req, user) matches Ok(c) ==> {
            &&& hash::algo_of_name(req.hash@) == Some(c.algo)
            &&& c.source == req.source@
            &&& c.dests == text::texts(req.dests@)
            &&& c.verify == req.verify
            &&& c.resume == req.resume
            &&& c.skip_existing == req.skip_existing
            &&& c.write_manifest == req.write_manifest
            &&& c.filter.exclude_paths == text::texts(req.exclude_paths@)
            &&& c.filter.owner == if req.owner_only {
                user
            } else {
                None
            }
            &&& c.journal_path is None && c.manifest_path is None
            &&& req.project matches Some(p) ==> c.project == p@
            &&& req.project is None ==> c.project.len() == 0
            &&& c.dest_template is Some <==> req.dest_template is Some && text::trimmed(
                req.dest_template->0@,
            ).len() > 0
            &&& c.dest_template is Some ==> c.dest_template->0 == req.dest_template->0@
            &&& filter::built(
                text::opt_text(req.include_ext),
                text::opt_text(req.exclude_ext),
                text::opt_text(req.min_size),
                text::opt_text(req.max_size),
                text::opt_text(req.newer_than),
                text::opt_text(req.older_than),
            ) matches Ok(m) && c.filter.include_ext == m.include_ext && c.filter.exclude_ext
                == m.exclude_ext && c.filter.min_size == m.min_size && c.filter.max_size
                == m.max_size && c.filter.newer_than_ns == m.newer_than_ns
                && c.filter.older_than_ns == m.older_than_ns
        },
        hash::algo_of_name(req.hash@) is None ==> (config_of(req, user) matches Err(x) && x
            == ConfigFailure::UnknownHash(req.hash@)),
        hash::algo_of_name(req.hash@) is Some ==> (config_of(req, user) matches Err(x) ==> (
        filter::built(
            text::opt_text(req.include_ext),
            text::opt_text(req.exclude_ext),
            text::opt_text(req.min_size),
            text::opt_text(req.max_size),
            text::opt_text(req.newer_than),
            text::opt_text(req.older_than),
        ) matches Err(y) && x == ConfigFailure::Filter(y))),
        hash::algo_of_name(req.hash@) is Some ==> (config_of(req, user) is Err <==> filter::built(
            text::opt_text(req.include_ext),
            text::opt_text(req.exclude_ext),
            text::opt_text(req.min_size),
            text::opt_text(req.max_size),
            text::opt_text(req.newer_than),
            text::opt_text(req.older_than),
        ) is Err),
{
}

/// The message for a request that makes no configuration names the algorithm,
/// or is that of the filter.
pub proof fn config_messages_name_the_problem(s: Seq<char>, f: filter::FilterFailure)
    ensures
        config_message(ConfigFailure::UnknownHash(s)) == "unknown hash algorithm '"@ + s + "'"@,
        config_message(ConfigFailure::Filter(f)) == filter::filter_message(f),
{
}

} // verus!
