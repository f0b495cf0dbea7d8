//! Traversal configuration: the parsed command-line options and their
//! conversion into a compiled `Config`. Pattern compilation happens here,
//! before any walker is constructed, so a malformed glob fails fast.

use vstd::prelude::*;

use crate::glob::{glob_ok, patterns_view, GlobPattern};
use crate::pathiterator::FileIteratorConfig;

verus! {

/// The command-line options, as plain values. The argument parser of the
/// binary fills this in; tests build it directly.
#[derive(Debug)]
pub struct Args {
    /// Show hidden files.
    pub show_all: bool,
    /// Turn colorization on always.
    pub color_on: bool,
    /// Turn colorization off always.
    pub color_off: bool,
    /// Directory to search.
    pub dir: String,
    /// List only those files matching one of these patterns.
    pub include_pattern: Vec<String>,
    /// Exclude any files matching one of these patterns.
    pub exclude_pattern: Vec<String>,
    /// Descend only this many directories deep.
    pub max_level: usize,
    /// List directories only.
    pub only_dirs: bool,
}

/// A malformed glob pattern, found while building a `Config`. The payload
/// is the offending pattern text.
#[derive(Debug)]
pub enum ConfigError {
    InvalidIncludePattern(String),
    InvalidExcludePattern(String),
}

impl ConfigError {
    /// A human-readable description of the error.
    pub fn message(&self) -> (r: String)
        ensures
            self matches ConfigError::InvalidIncludePattern(p) ==> r@ =~= "Invalid include_pattern: "@
                + p@,
            self matches ConfigError::InvalidExcludePattern(p) ==> r@ =~= "Invalid exclude_pattern: "@
                + p@,
    {
        match self {
            ConfigError::InvalidIncludePattern(p) => {
                let mut s = String::from_str("Invalid include_pattern: ");
                s.append(p.as_str());
                s
            },
            ConfigError::InvalidExcludePattern(p) => {
                let mut s = String::from_str("Invalid exclude_pattern: ");
                s.append(p.as_str());
                s
            },
        }
    }
}

/// The configuration for one traversal and its display: colour, the filter
/// options, the depth limit, and the compiled glob sets, which are built
/// once and never mutated afterwards.
#[derive(Clone, Debug)]
pub struct Config {
    pub use_color: bool,
    pub show_hidden: bool,
    pub show_only_dirs: bool,
    pub max_level: usize,
    pub include_globs: Vec<GlobPattern>,
    pub exclude_globs: Vec<GlobPattern>,
}

impl Default for Config {
    /// No colour, no hidden files, files and directories, unbounded depth,
    /// empty glob sets.
    fn default() -> (r: Config)
        ensures
            !r.use_color,
            !r.show_hidden,
            !r.show_only_dirs,
            r.max_level == usize::MAX,
            r.include_globs@.len() == 0,
            r.exclude_globs@.len() == 0,
    {
        Config {
            use_color: false,
            show_hidden: false,
            show_only_dirs: false,
            max_level: usize::MAX,
            include_globs: Vec::new(),
            exclude_globs: Vec::new(),
        }
    }
}

/// Compiles a list of pattern texts; on the first malformed pattern,
/// returns its index and text.
fn compile_patterns(patterns: &Vec<String>) -> (r: Result<Vec<GlobPattern>, String>)
    ensures
        r matches Ok(ps) ==> patterns_view(ps@) == patterns@.map_values(|s: String| s@) && (
        forall|i: int| 0 <= i < patterns@.len() ==> glob_ok(patterns@[i]@)),
        r matches Err(p) ==> exists|i: int|
            0 <= i < patterns@.len() && !glob_ok(#[trigger] patterns@[i]@) && p@ == patterns@[i]@
                && (forall|j: int| 0 <= j < i ==> glob_ok(patterns@[j]@)),
{
    let mut out: Vec<GlobPattern> = Vec::new();
    let mut i: usize = 0;
    while i < patterns.len()
        invariant
            i <= patterns@.len(),
            out@.len() == i,
            forall|j: int| 0 <= j < i ==> glob_ok(#[trigger] patterns@[j]@),
            forall|j: int| 0 <= j < i ==> #[trigger] out@[j]@ == patterns@[j]@,
        decreases patterns@.len() - i,
    {
        match GlobPattern::compile(patterns[i].as_str()) {
            Some(p) => {
                out.push(p);
            },
            None => {
                let ghost bad = i as int;
                let p = patterns[i].clone();
                proof {
                    assert(!glob_ok(patterns@[bad]@));
                }
                return Err(p);
            },
        }
        i = i + 1;
    }
    proof {
        assert(patterns_view(out@) =~= patterns@.map_values(|s: String| s@));
    }
    Ok(out)
}

impl Config {
    /// Builds a configuration from parsed options. Succeeds exactly when
    /// every pattern text is a well-formed glob; a malformed pattern is
    /// reported with its text, the include set checked first. Colour is on
    /// when forced on, off when forced off, and otherwise follows whether
    /// standard output is a terminal, which the caller reports.
    pub fn from_args(args: &Args, stdout_is_tty: bool) -> (r: Result<Config, ConfigError>)
        ensures
            r is Ok <==> (forall|i: int|
                0 <= i < args.include_pattern@.len() ==> glob_ok(
                    #[trigger] args.include_pattern@[i]@,
                )) && (forall|i: int|
                0 <= i < args.exclude_pattern@.len() ==> glob_ok(
                    #[trigger] args.exclude_pattern@[i]@,
                )),
            r matches Ok(c) ==> c.use_color == (args.color_on || (!args.color_off && stdout_is_tty))
                && c.show_hidden == args.show_all && c.show_only_dirs == args.only_dirs
                && c.max_level == args.max_level && patterns_view(c.include_globs@)
                == args.include_pattern@.map_values(|s: String| s@) && patterns_view(
                c.exclude_globs@,
            ) == args.exclude_pattern@.map_values(|s: String| s@),
            r matches Err(ConfigError::InvalidIncludePattern(p)) ==> exists|i: int|
                0 <= i < args.include_pattern@.len() && !glob_ok(
                    #[trigger] args.include_pattern@[i]@,
                ) && p@ == args.include_pattern@[i]@,
            r matches Err(ConfigError::InvalidExcludePattern(p)) ==> (forall|i: int|
                0 <= i < args.include_pattern@.len() ==> glob_ok(
                    #[trigger] args.include_pattern@[i]@,
                )) && exists|i: int|
                0 <= i < args.exclude_pattern@.len() && !glob_ok(
                    #[trigger] args.exclude_pattern@[i]@,
                ) && p@ == args.exclude_pattern@[i]@,
    {
        let include_globs = match compile_patterns(&args.include_pattern) {
            Ok(ps) => ps,
            Err(p) => {
                return Err(ConfigError::InvalidIncludePattern(p));
            },
        };
        let exclude_globs = match compile_patterns(&args.exclude_pattern) {
            Ok(ps) => ps,
            Err(p) => {
                return Err(ConfigError::InvalidExcludePattern(p));
            },
        };
        let use_color = if args.color_on {
            true
        } else if args.color_off {
            false
        } else {
            stdout_is_tty
        };
        Ok(
            Config {
                use_color,
                show_hidden: args.show_all,
                show_only_dirs: args.only_dirs,
                max_level: args.max_level,
                include_globs,
                exclude_globs,
            },
        )
    }

    /// Hands the compiled configuration to a walker, giving up ownership of
    /// the glob sets; the colour choice plays no part in traversal.
    pub fn into_iterator_config(self) -> (r: FileIteratorConfig)
        ensures
            r.show_hidden == self.show_hidden,
            r.show_only_dirs == self.show_only_dirs,
            r.max_level == self.max_level,
            r.include_globs == self.include_globs,
            r.exclude_globs == self.exclude_globs,
    {
        let Config { use_color: _, show_hidden, show_only_dirs, max_level, include_globs, exclude_globs } =
            self;
        FileIteratorConfig { show_hidden, show_only_dirs, max_level, include_globs, exclude_globs }
    }
}

} // verus!
