use vstd::prelude::*;
use vstd::string::StringSliceAdditionalSpecFns;

verus! {

/// Whether the glob `pattern` compiles and matches `path`.
pub uninterp spec fn glob_match(pattern: Seq<char>, path: Seq<char>) -> bool;

/// A base name that the default rule hides: it starts with `.` and is
/// neither `.` nor `..`.
pub open spec fn is_hidden(name: Seq<u8>) -> bool {
    &&& name.len() > 0
    &&& name[0] == 46u8
    &&& name != seq![46u8]
    &&& name != seq![46u8, 46u8]
}

/// Some pattern of `patterns` matches `path`.
pub open spec fn excluded_by(patterns: Seq<String>, path: Seq<char>) -> bool {
    exists|i: int| 0 <= i < patterns.len() && glob_match(#[trigger] patterns[i]@, path)
}

/// An entry passes the filter when its base name is not hidden and no pattern
/// matches its full path.
pub open spec fn accepted(name: Seq<u8>, path: Seq<char>, patterns: Seq<String>) -> bool {
    !is_hidden(name) && !excluded_by(patterns, path)
}

/// Relies on glob::Pattern::new and glob::Pattern::matches: true when the
/// pattern compiles and matches the path, false when it does not compile.
/// The answer depends on the two strings alone.
#[verifier::external_body]
fn glob_matches(pattern: &str, path: &str) -> (r: bool)
    ensures
        r == glob_match(pattern@, path@),
{
    match glob::Pattern::new(pattern) {
        Ok(p) => p.matches(path),
        Err(_) => false,
    }
}

/// Whether the base name `name` is hidden by default.
pub fn is_hidden_name(name: &str) -> (r: bool)
    ensures
        r == is_hidden(name.spec_bytes()),
{
    let b = name.as_bytes();
    if b.len() == 0 || b[0] != 46u8 {
        return false;
    }
    if b.len() == 1 {
        assert(b@ == seq![46u8]);
        return false;
    }
    if b.len() == 2 && b[1] == 46u8 {
        assert(b@ == seq![46u8, 46u8]);
        return false;
    }
    assert(b@ != seq![46u8]);
    assert(b@.len() != 2 || b@[1] != 46u8);
    true
}

/// Whether one of the patterns matches `path`. A pattern that does not
/// compile matches nothing.
pub fn matches_any(patterns: &Vec<String>, path: &str) -> (r: bool)
    ensures
        r == excluded_by(patterns@, path@),
{
    let mut i: usize = 0;
    while i < patterns.len()
        invariant
            i <= patterns@.len(),
            forall|k: int| 0 <= k < i ==> !glob_match(#[trigger] patterns@[k]@, path@),
        decreases patterns.len() - i,
    {
        if glob_matches(patterns[i].as_str(), path) {
            return true;
        }
        i = i + 1;
    }
    false
}

/// The filter's answer once the patterns have answered `matched`: keep the
/// entry when its base name is not hidden and no pattern matched.
pub fn passes(name: &str, matched: bool) -> (r: bool)
    ensures
        r == (!is_hidden(name.spec_bytes()) && !matched),
{
    !is_hidden_name(name) && !matched
}

/// Whether the walk keeps an entry with base name `name` and full path
/// `path`: a rejected directory is not entered, so nothing beneath it is
/// visited.
pub fn entry_accepted(name: &str, path: &str, patterns: &Vec<String>) -> (r: bool)
    ensures
        r == accepted(name.spec_bytes(), path@, patterns@),
        is_hidden(name.spec_bytes()) ==> !r,
{
    let matched = matches_any(patterns, path);
    passes(name, matched)
}

} // verus!
