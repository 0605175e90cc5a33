//! The entry filters of the file finder: which directory entries pass the
//! requested entry types and name patterns.

use vstd::prelude::*;

verus! {

/// The kinds of directory entry the finder can select.
#[derive(Debug, PartialEq, Eq, Structural, Clone, Copy)]
pub enum EntryType {
    Dir,
    File,
    Link,
}

/// A compiled name pattern, carried through the filters as an opaque value.
#[verifier::external_type_specification]
#[verifier::external_body]
pub struct ExRegex(regex::Regex);

/// Named image of what `regex::Regex::is_match` returns for a compiled
/// pattern and a text.
pub uninterp spec fn regex_match(re: regex::Regex, text: Seq<char>) -> bool;

/// Relies on regex::Regex::is_match: whether the compiled pattern matches
/// anywhere in the text, a function of the pattern and the text alone.
#[verifier::external_body]
fn regex_is_match(re: &regex::Regex, text: &str) -> (r: bool)
    ensures
        r == regex_match(*re, text@),
{
    re.is_match(text)
}

/// Whether an entry of the given kind passes the type filter: an empty
/// filter accepts every entry, otherwise some requested type must be the
/// entry's own.
pub fn entry_type_matches(types: &Vec<EntryType>, kind: EntryType) -> (r: bool)
    ensures
        r <==> (types@.len() == 0 || exists|k: int| 0 <= k < types@.len() && types@[k] == kind),
{
    if types.len() == 0 {
        return true;
    }
    let mut i: usize = 0;
    while i < types.len()
        invariant
            i <= types@.len(),
            forall|k: int| 0 <= k < i ==> types@[k] != kind,
        decreases types@.len() - i,
    {
        if types[i] == kind {
            return true;
        }
        i = i + 1;
    }
    false
}

/// Whether an entry's file name passes the name filter: an empty filter
/// accepts every entry, otherwise some pattern must match the name.
pub fn name_matches(names: &Vec<regex::Regex>, name: &str) -> (r: bool)
    ensures
        r <==> (names@.len() == 0 || exists|k: int|
            0 <= k < names@.len() && regex_match(names@[k], name@)),
{
    if names.len() == 0 {
        return true;
    }
    let mut i: usize = 0;
    while i < names.len()
        invariant
            i <= names@.len(),
            forall|k: int| 0 <= k < i ==> !regex_match(names@[k], name@),
        decreases names@.len() - i,
    {
        if regex_is_match(&names[i], name) {
            return true;
        }
        i = i + 1;
    }
    false
}

} // verus!
