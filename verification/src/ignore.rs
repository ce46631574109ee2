//! Patterns that exempt resources from ownership.

use vstd::prelude::*;

verus! {

/// Why `regex::Regex::new` refuses a pattern; `None` where it accepts it.
pub uninterp spec fn pattern_fault(pattern: Seq<char>) -> Option<Seq<char>>;

/// Whether the pattern, where it is accepted, matches somewhere in the text.
pub uninterp spec fn pattern_matches(pattern: Seq<char>, text: Seq<char>) -> bool;

/// Calls `regex::Regex::new`.  Whether it accepts the pattern, and the message of its error, is a
/// function of the pattern alone.
#[verifier::external_body]
fn refusal(pattern: &str) -> (fault: Option<String>)
    ensures
        match fault {
            Some(message) => pattern_fault(pattern@) == Some(message@),
            None => pattern_fault(pattern@) is None,
        },
{
    regex::Regex::new(pattern).err().map(|e| e.to_string())
}

/// Calls `regex::Regex::is_match` on the compiled pattern.  Whether it matches is a function of
/// the pattern and the text alone; a pattern that is not accepted matches nothing.
#[verifier::external_body]
fn is_match(pattern: &str, text: &str) -> (found: bool)
    ensures
        found == pattern_matches(pattern@, text@),
{
    regex::Regex::new(pattern).is_ok_and(|re| re.is_match(text))
}

/// A pattern that was accepted.
#[derive(Debug, PartialEq)]
pub struct IgnorePattern {
    pattern: String,
}

impl View for IgnorePattern {
    type V = Seq<char>;

    closed spec fn view(&self) -> Seq<char> {
        self.pattern@
    }
}

impl IgnorePattern {
    #[verifier::type_invariant]
    spec fn accepted(self) -> bool {
        pattern_fault(self.pattern@) is None
    }

    /// The pattern, if it is accepted.
    pub fn new(pattern: &str) -> (made: Result<IgnorePattern, String>)
        ensures
            match made {
                Ok(made) => pattern_fault(pattern@) is None && made@ == pattern@,
                Err(message) => pattern_fault(pattern@) == Some(message@),
            },
    {
        match refusal(pattern) {
            Some(message) => Err(message),
            None => Ok(IgnorePattern { pattern: pattern.to_owned() }),
        }
    }

    /// Whether the pattern matches somewhere in the text.
    pub fn matches(&self, text: &str) -> (found: bool)
        ensures
            found == pattern_matches(self@, text@),
    {
        is_match(self.pattern.as_str(), text)
    }
}

/// Some pattern matches.
pub open spec fn any_matches(patterns: Seq<IgnorePattern>, text: Seq<char>) -> bool {
    exists|i: int| 0 <= i < patterns.len() && pattern_matches((#[trigger] patterns[i])@, text)
}

/// Whether some pattern matches.
pub fn is_ignored(text: &str, patterns: &Vec<IgnorePattern>) -> (ignored: bool)
    ensures
        ignored == any_matches(patterns@, text@),
{
    let mut i: usize = 0;
    while i < patterns.len()
        invariant
            i <= patterns@.len(),
            forall|k: int| 0 <= k < i ==> !pattern_matches((#[trigger] patterns@[k])@, text@),
        decreases patterns.len() - i,
    {
        if patterns[i].matches(text) {
            assert(pattern_matches(patterns@[i as int]@, text@));
            return true;
        }
        i = i + 1;
    }
    false
}

} // verus!
