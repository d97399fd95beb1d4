//! Scan configuration and its validation.
//!
//! A scan starts from a root directory and looks for directories holding a
//! marker entry (the `stopper`). Entries whose name equals an ignore
//! pattern are not descended into — except the marker itself, which is
//! never filtered. The surrounding program observes the file system (does
//! the root exist, is it a file) and hands those observations in as plain
//! booleans.

use vstd::prelude::*;
use vstd::string::StrSliceExecFns;

verus! {

/// A fatal, pre-scan configuration fault. Only these halt the operation;
/// per-directory listing errors during a scan are absorbed locally.
#[derive(Clone, Copy, Debug, PartialEq, Eq, Structural)]
pub enum ConfigError {
    /// The root path does not exist.
    RootMissing,
    /// The root path names a file, not a directory.
    RootIsFile,
    /// The marker name is not a valid entry name.
    InvalidMarker,
    /// An ignore pattern is not a valid entry name.
    InvalidPattern,
}

/// The configuration of one scan and of the selection that follows it.
/// Immutable once a scan starts.
pub struct Args {
    /// Search recursively from this directory.
    pub root_dir: String,
    /// Jump straight to the first directory matching this string, skipping
    /// interactive selection.
    pub search_query: Option<String>,
    /// Search for directories containing an entry of this name.
    pub stopper: String,
    /// Entry names that are never descended into.
    pub ignores: Vec<String>,
    /// Continue searching inside a subtree after the marker was found there.
    pub greedy: bool,
    /// How many workers traverse the tree.
    pub cpus: usize,
    /// Compare queries against paths without case folding.
    pub case_sensitive: bool,
}

impl Clone for Args {
    fn clone(&self) -> (r: Self)
        ensures
            r.root_dir@ == self.root_dir@,
            r.search_query.deep_view() == self.search_query.deep_view(),
            r.stopper@ == self.stopper@,
            r.ignores.deep_view() == self.ignores.deep_view(),
            r.greedy == self.greedy,
            r.cpus == self.cpus,
            r.case_sensitive == self.case_sensitive,
    {
        let mut ignores: Vec<String> = Vec::new();
        let mut i: usize = 0;
        while i < self.ignores.len()
            invariant
                i <= self.ignores@.len(),
                ignores@ == self.ignores@.subrange(0, i as int),
            decreases self.ignores@.len() - i,
        {
            ignores.push(self.ignores[i].clone());
            proof {
                assert(ignores@ =~= self.ignores@.subrange(0, i + 1));
            }
            i = i + 1;
        }
        proof {
            assert(ignores@ =~= self.ignores@);
            assert(ignores.deep_view() =~= self.ignores.deep_view());
        }
        let r = Args {
            root_dir: self.root_dir.clone(),
            search_query: match &self.search_query {
                Some(q) => Some(q.clone()),
                None => None,
            },
            stopper: self.stopper.clone(),
            ignores,
            greedy: self.greedy,
            cpus: self.cpus,
            case_sensitive: self.case_sensitive,
        };
        r
    }
}

/// A marker name or ignore pattern is a single entry name: non-empty and
/// without a path separator.
pub open spec fn pattern_ok(p: Seq<char>) -> bool {
    p.len() > 0 && !p.contains('/')
}

fn pattern_ok_exec(p: &str) -> (b: bool)
    ensures
        b == pattern_ok(p@),
{
    let n = p.unicode_len();
    if n == 0 {
        return false;
    }
    let mut i: usize = 0;
    while i < n
        invariant
            n == p@.len(),
            i <= n,
            forall|k: int| 0 <= k < i ==> p@[k] != '/',
        decreases n - i,
    {
        if p.get_char(i) == '/' {
            return false;
        }
        i = i + 1;
    }
    true
}

impl Args {
    /// The marker and every ignore pattern are well-formed entry names.
    pub open spec fn valid(&self) -> bool {
        &&& pattern_ok(self.stopper@)
        &&& forall|k: int|
            0 <= k < self.ignores@.len() ==> pattern_ok(#[trigger] self.ignores.deep_view()[k])
    }

    /// Check the marker name and the ignore patterns, reporting the first
    /// fault: a bad marker before a bad pattern.
    pub fn validate(&self) -> (r: Result<(), ConfigError>)
        ensures
            r is Ok <==> self.valid(),
            !pattern_ok(self.stopper@) ==> r == Result::<(), ConfigError>::Err(
                ConfigError::InvalidMarker,
            ),
            pattern_ok(self.stopper@) && !self.valid() ==> r == Result::<(), ConfigError>::Err(
                ConfigError::InvalidPattern,
            ),
    {
        if !pattern_ok_exec(self.stopper.as_str()) {
            return Err(ConfigError::InvalidMarker);
        }
        let mut i: usize = 0;
        while i < self.ignores.len()
            invariant
                pattern_ok(self.stopper@),
                i <= self.ignores@.len(),
                forall|k: int| 0 <= k < i ==> pattern_ok(#[trigger] self.ignores.deep_view()[k]),
            decreases self.ignores@.len() - i,
        {
            let ok = pattern_ok_exec(self.ignores[i].as_str());
            proof {
                assert(self.ignores.deep_view()[i as int] == self.ignores@[i as int]@);
            }
            if !ok {
                return Err(ConfigError::InvalidPattern);
            }
            i = i + 1;
        }
        Ok(())
    }
}

/// Decide whether a path may serve as the scan root, from the surrounding
/// program's observations of the file system: the root must exist and must
/// not be a file.
pub fn valid_path(path: &str, path_exists: bool, is_file: bool) -> (r: Result<String, ConfigError>)
    ensures
        r is Ok <==> path_exists && !is_file,
        r is Ok ==> r->Ok_0@ == path@,
        !path_exists ==> r == Result::<String, ConfigError>::Err(ConfigError::RootMissing),
        path_exists && is_file ==> r == Result::<String, ConfigError>::Err(ConfigError::RootIsFile),
{
    if !path_exists {
        Err(ConfigError::RootMissing)
    } else if is_file {
        Err(ConfigError::RootIsFile)
    } else {
        Ok(path.to_owned())
    }
}

/// The default worker count: half of the logical processors, and at least
/// one worker.
pub fn default_concurrency(logical_cpus: usize) -> (r: usize)
    ensures
        r == if logical_cpus / 2 >= 1 {
            logical_cpus / 2
        } else {
            1usize
        },
{
    let half = logical_cpus / 2;
    if half >= 1 {
        half
    } else {
        1
    }
}

} // verus!
