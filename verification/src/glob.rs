//! Compiled glob patterns.
//!
//! A `GlobPattern` pairs a pattern text with the matcher compiled from it,
//! so that matching can be described as a pure function of the pattern text
//! and the candidate name.

use vstd::prelude::*;

verus! {

/// Whether a pattern text is a well-formed glob: parsing succeeds and the
/// parsed pattern compiles into a matcher.
pub uninterp spec fn glob_ok(pattern: Seq<char>) -> bool;

/// Whether a glob pattern matches a file name. The matcher is compiled with
/// default options, so the result depends on the pattern text and the name
/// alone.
pub uninterp spec fn glob_match(pattern: Seq<char>, name: Seq<char>) -> bool;

#[verifier::external_type_specification]
#[verifier::external_body]
pub struct ExGlobSet(globset::GlobSet);

/// Relies on the derived globset::GlobSet::clone only to exist; nothing is
/// promised of the copy. It lets a `GlobPattern`, and so a configuration,
/// be cloned for a further traversal.
pub assume_specification[ <globset::GlobSet as Clone>::clone ](v: &globset::GlobSet) -> (r:
    globset::GlobSet);

/// A glob matcher together with the text it was compiled from.
///
/// The matcher is a one-pattern `globset::GlobSet`, because building a set
/// is the fallible route to a matcher: a pattern that parses but cannot be
/// compiled (say, a regex past the engine's nesting limit) is reported as
/// an error there instead of aborting. The fields are private: every value
/// is built by `compile`, which guarantees that `matcher` was compiled from
/// `text` with default options.
#[derive(Clone, Debug)]
pub struct GlobPattern {
    text: String,
    matcher: globset::GlobSet,
}

impl View for GlobPattern {
    type V = Seq<char>;

    closed spec fn view(&self) -> Seq<char> {
        self.text@
    }
}

impl GlobPattern {
    /// Relies on globset::Glob::new and globset::GlobSetBuilder::build:
    /// parsing and compiling succeed or fail on the pattern text alone, and
    /// the compiled matcher's behaviour is a function of that text. Both
    /// steps report failure as an error, which becomes `None` here.
    #[verifier::external_body]
    pub fn compile(text: &str) -> (r: Option<GlobPattern>)
        ensures
            r is Some <==> glob_ok(text@),
            r matches Some(p) ==> p@ == text@,
    {
        let glob = match globset::Glob::new(text) {
            Ok(g) => g,
            Err(_) => return None,
        };
        let mut builder = globset::GlobSetBuilder::new();
        builder.add(glob);
        match builder.build() {
            Ok(matcher) => Some(GlobPattern { text: text.to_owned(), matcher }),
            Err(_) => None,
        }
    }

    /// Relies on globset::GlobSet::is_match: with the single pattern the
    /// set holds, the result is whether that pattern matches, a function of
    /// the compiled pattern text and the candidate name alone.
    #[verifier::external_body]
    pub fn is_match(&self, name: &str) -> (r: bool)
        ensures
            r == glob_match(self@, name@),
    {
        self.matcher.is_match(name)
    }
}

/// The texts of a sequence of compiled patterns.
pub open spec fn patterns_view(ps: Seq<GlobPattern>) -> Seq<Seq<char>> {
    ps.map_values(|p: GlobPattern| p@)
}

} // verus!
