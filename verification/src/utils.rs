//! Small helpers on string prefixes and suffixes.

use vstd::prelude::*;
use crate::text::{chars_end_with, chars_start_with, to_chars};

verus! {

/// Whether `candidates[i]` is the first entry of `candidates` that `snippet` begins with.
pub open spec fn is_first_prefix(snippet: Seq<char>, candidates: Seq<&str>, i: int) -> bool {
    &&& 0 <= i < candidates.len()
    &&& candidates[i]@.is_prefix_of(snippet)
    &&& forall|j: int| 0 <= j < i ==> !(#[trigger] candidates[j])@.is_prefix_of(snippet)
}

/// Whether `candidates[i]` is the first entry of `candidates` that `snippet` ends with.
pub open spec fn is_first_suffix(snippet: Seq<char>, candidates: Seq<&str>, i: int) -> bool {
    &&& 0 <= i < candidates.len()
    &&& candidates[i]@.is_suffix_of(snippet)
    &&& forall|j: int| 0 <= j < i ==> !(#[trigger] candidates[j])@.is_suffix_of(snippet)
}

/// Returns the first of `prefixes` that `snippet` starts with, if there is one.
pub fn start_with_one_of<'a>(snippet: &str, prefixes: &[&'a str]) -> (found: Option<&'a str>)
    ensures
        match found {
            Some(prefix) => exists|i: int|
                is_first_prefix(snippet@, prefixes@, i) && #[trigger] prefixes@[i] == prefix,
            None => forall|i: int|
                0 <= i < prefixes@.len() ==> !(#[trigger] prefixes@[i])@.is_prefix_of(snippet@),
        },
{
    let chars = to_chars(snippet);
    let mut i: usize = 0;
    while i < prefixes.len()
        invariant
            i <= prefixes@.len(),
            chars@ == snippet@,
            forall|j: int| 0 <= j < i ==> !(#[trigger] prefixes@[j])@.is_prefix_of(snippet@),
        decreases prefixes.len() - i,
    {
        let prefix: &'a str = prefixes[i];
        let prefix_chars = to_chars(prefix);
        if chars_start_with(&chars, &prefix_chars) {
            assert(is_first_prefix(snippet@, prefixes@, i as int));
            return Some(prefix);
        }
        i += 1;
    }
    None
}

/// Returns the first of `suffixes` that `snippet` ends with, if there is one.
pub fn end_with_one_of<'a>(snippet: &str, suffixes: &[&'a str]) -> (found: Option<&'a str>)
    ensures
        match found {
            Some(suffix) => exists|i: int|
                is_first_suffix(snippet@, suffixes@, i) && #[trigger] suffixes@[i] == suffix,
            None => forall|i: int|
                0 <= i < suffixes@.len() ==> !(#[trigger] suffixes@[i])@.is_suffix_of(snippet@),
        },
{
    let chars = to_chars(snippet);
    let mut i: usize = 0;
    while i < suffixes.len()
        invariant
            i <= suffixes@.len(),
            chars@ == snippet@,
            forall|j: int| 0 <= j < i ==> !(#[trigger] suffixes@[j])@.is_suffix_of(snippet@),
        decreases suffixes.len() - i,
    {
        let suffix: &'a str = suffixes[i];
        let suffix_chars = to_chars(suffix);
        if chars_end_with(&chars, &suffix_chars) {
            assert(is_first_suffix(snippet@, suffixes@, i as int));
            return Some(suffix);
        }
        i += 1;
    }
    None
}

} // verus!
