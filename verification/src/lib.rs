#![allow(unused_imports)]

pub mod countmap;
pub mod engine;
pub mod error;
pub mod ext;
pub mod filter;
pub mod normalize;
pub mod sort;

use vstd::prelude::*;
use crate::countmap::CountMap;
use crate::engine::{
    count_in, count_tokens_partitioned, extract_raw_tokens, kept_tokens,
    lemma_counted_is_canonical, lemma_counted_is_included, lemma_excluded_never_counted,
    lemma_raw_tokens_dot_free, raw_tokens,
};
use crate::error::{PnumError, PnumResult};
use crate::filter::{norm_token_set, FilterSpec};
use crate::normalize::normalize_spec;

verus! {

/// Options controlling a scan: how far to traverse and which
/// extensions to count.
#[derive(Debug)]
pub struct Config {
    /// Visit subdirectories; when false only direct children of the
    /// root are considered.
    pub recursive: bool,
    /// Skip hidden entries (and everything below a hidden directory).
    pub ignore_hidden: bool,
    /// Raw inclusion filters as the user typed them; empty means no
    /// inclusion restriction.
    pub includes: Vec<String>,
    /// Raw exclude filters as the user typed them; an excluded
    /// extension is never counted.
    pub excludes: Vec<String>,
}

impl Default for Config {
    /// A non-recursive scan with no filters that keeps hidden entries.
    fn default() -> (c: Config)
        ensures
            !c.recursive,
            !c.ignore_hidden,
            c.includes@.len() == 0,
            c.excludes@.len() == 0,
    {
        Config { recursive: false, ignore_hidden: false, includes: Vec::new(), excludes: Vec::new() }
    }
}

/// Relies on std::path::Path::is_dir: true exactly when the path
/// names an existing directory (after following symlinks).
#[verifier::external_body]
fn path_is_dir(path: &str) -> bool {
    std::path::Path::new(path).is_dir()
}

/// Relies on ignore::WalkBuilder and ignore::DirEntry: walks the tree
/// under `root` (only its direct children when `recursive` is false,
/// skipping hidden entries and their descendants when `ignore_hidden`
/// is true), converting each surviving entry to its file name paired
/// with whether it is a regular file, per DirEntry::file_name and
/// DirEntry::file_type.  Entries that error during traversal are
/// skipped: traversal is best-effort.
#[verifier::external_body]
fn walk_entries(root: &str, recursive: bool, ignore_hidden: bool) -> Vec<(String, bool)> {
    let mut builder = ignore::WalkBuilder::new(root);
    builder.hidden(ignore_hidden);
    if !recursive {
        builder.max_depth(Some(1));
    }
    let mut out: Vec<(String, bool)> = Vec::new();
    for entry in builder.build() {
        if let Ok(entry) = entry {
            let is_file = entry.file_type().map_or(false, |t| t.is_file());
            out.push((entry.file_name().to_string_lossy().into_owned(), is_file));
        }
    }
    out
}

/// What a successful scan reports, given the entries the traversal
/// produced: for every key, the number of regular files whose raw
/// extension passed the filter and normalized to that key, and as the
/// total the number of files counted.
pub open spec fn scan_result_of(m: CountMap, entries: Seq<(String, bool)>, config: Config) -> bool {
    let kept = kept_tokens(
        raw_tokens(engine::file_names(entries)),
        norm_token_set(config.includes@),
        norm_token_set(config.excludes@),
    );
    &&& forall|k: Seq<char>| m.count(k) == count_in(kept, k)
    &&& m.total() == kept.len()
}

/// Counts the regular files under `path` by canonical extension,
/// partitioning the aggregation across `workers` slices (spec'd
/// behaviour does not depend on the number).
///
/// Fails fast with `InvalidPath` when the root is not an existing
/// directory; otherwise the traversal is best-effort and the result
/// counts, per canonical token, the files the walk produced whose
/// extension passes the configured filter.  Every key is a canonical
/// token, an excluded extension is never counted, and when the
/// inclusion list is non-empty only its extensions are.
pub fn count_extensions_with_workers(path: &str, config: &Config, workers: usize) -> (r:
    PnumResult<CountMap>)
    requires
        workers >= 1,
    ensures
        (r matches Err(e) ==> (e matches PnumError::InvalidPath(p) && p@ == path@)),
        (r matches Ok(m) ==> m.wf()),
        (r matches Ok(m) ==> exists|entries: Seq<(String, bool)>|
            scan_result_of(m, entries, *config)),
        (r matches Ok(m) ==> forall|k: Seq<char>| m.count(k) > 0 ==> k == normalize_spec(k)),
        (r matches Ok(m) ==> forall|k: Seq<char>|
            norm_token_set(config.excludes@).contains(k) ==> m.count(k) == 0),
        (r matches Ok(m) ==> forall|k: Seq<char>|
            m.count(k) > 0 && !norm_token_set(config.includes@).is_empty()
                ==> norm_token_set(config.includes@).contains(k)),
{
    if !path_is_dir(path) {
        return Err(PnumError::InvalidPath(path.to_owned()));
    }
    let filter = FilterSpec::new(&config.includes, &config.excludes);
    let entries = walk_entries(path, config.recursive, config.ignore_hidden);
    let raws = extract_raw_tokens(&entries);
    let m = count_tokens_partitioned(&raws, &filter, workers);
    let res: PnumResult<CountMap> = Ok(m);
    proof {
        let inc = norm_token_set(config.includes@);
        let exc = norm_token_set(config.excludes@);
        let names = engine::file_names(entries@);
        assert(scan_result_of(res->Ok_0, entries@, *config));
        assert(exists|es: Seq<(String, bool)>| scan_result_of(res->Ok_0, es, *config));
        assert forall|k: Seq<char>| m.count(k) > 0 implies k == normalize_spec(k) by {
            lemma_raw_tokens_dot_free(names);
            lemma_counted_is_canonical(raw_tokens(names), inc, exc, k);
        }
        assert forall|k: Seq<char>| exc.contains(k) implies m.count(k) == 0 by {
            lemma_excluded_never_counted(raw_tokens(names), inc, exc, k);
        }
        assert forall|k: Seq<char>| m.count(k) > 0 && !inc.is_empty() implies inc.contains(k) by {
            lemma_counted_is_included(raw_tokens(names), inc, exc, k);
        }
    }
    res
}

/// Counts the regular files under `path` by canonical extension: the
/// sequential engine, equivalent to a scan with one worker.
pub fn count_extensions(path: &str, config: &Config) -> (r: PnumResult<CountMap>)
    ensures
        (r matches Err(e) ==> (e matches PnumError::InvalidPath(p) && p@ == path@)),
        (r matches Ok(m) ==> m.wf()),
        (r matches Ok(m) ==> exists|entries: Seq<(String, bool)>|
            scan_result_of(m, entries, *config)),
        (r matches Ok(m) ==> forall|k: Seq<char>| m.count(k) > 0 ==> k == normalize_spec(k)),
        (r matches Ok(m) ==> forall|k: Seq<char>|
            norm_token_set(config.excludes@).contains(k) ==> m.count(k) == 0),
        (r matches Ok(m) ==> forall|k: Seq<char>|
            m.count(k) > 0 && !norm_token_set(config.includes@).is_empty()
                ==> norm_token_set(config.includes@).contains(k)),
{
    count_extensions_with_workers(path, config, 1)
}

} // verus!
