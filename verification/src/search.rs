//! Values of a text search over the files of an overlay, and the matching of
//! file names without regard to ASCII case.

use vstd::prelude::*;
use vstd::string::StringSliceAdditionalSpecFns;

verus! {

/// Identifies one search among those that a session has started.
#[derive(Debug, Copy, Clone, PartialEq, Eq, PartialOrd, Ord)]
pub struct SearchId(pub usize);

/// A line of a file, counted from 1.
#[derive(Debug, Copy, Clone)]
pub struct LineNumber(pub usize);

/// The absolute path of an entry inside the overlay.
#[derive(Clone, PartialEq, Eq, PartialOrd, Ord, Hash, Debug)]
pub struct FullPath(pub String);

/// The last component of an entry's path.
#[derive(Clone, PartialEq, Eq, PartialOrd, Ord, Hash, Debug)]
pub struct FileName(pub String);

/// The matches of one search in one file, each with the line where its context starts.
#[derive(Debug, Clone)]
pub struct SearchResult {
    /// Path of the file inside the overlay.
    pub file: String,
    pub matches: Vec<(LineNumber, String)>,
}

/// A byte with the bit cleared that tells upper-case from lower-case ASCII letters.
pub open spec fn fold_case(b: u8) -> u8 {
    b & !0x20u8
}

/// `needle` occurs in `haystack` at index `at` when case is ignored.
pub open spec fn matches_at(needle: Seq<u8>, haystack: Seq<u8>, at: int) -> bool {
    &&& 0 <= at
    &&& at + needle.len() <= haystack.len()
    &&& forall|k: int|
        0 <= k < needle.len() ==> fold_case(#[trigger] haystack[at + k]) == fold_case(needle[k])
}

/// `needle` occurs somewhere in `haystack` when case is ignored. The empty
/// needle occurs in every haystack.
pub open spec fn icontains(needle: Seq<u8>, haystack: Seq<u8>) -> bool {
    needle.len() == 0 || exists|at: int| matches_at(needle, haystack, at)
}

/// Whether `needle` occurs at index `at` of `haystack` when case is ignored.
fn window_matches(needle: &[u8], haystack: &[u8], at: usize) -> (r: bool)
    requires
        at + needle@.len() <= haystack@.len(),
    ensures
        r == matches_at(needle@, haystack@, at as int),
{
    let total = haystack.len();
    let mut k: usize = 0;
    while k < needle.len()
        invariant
            k <= needle@.len(),
            total == haystack@.len(),
            at + needle@.len() <= haystack@.len(),
            forall|j: int|
                0 <= j < k ==> fold_case(#[trigger] haystack@[at + j]) == fold_case(needle@[j]),
        decreases needle@.len() - k,
    {
        let haystack_c = haystack[at + k];
        let needle_c = needle[k];
        if (haystack_c & !0x20u8) != (needle_c & !0x20u8) {
            assert(fold_case(haystack@[at + k]) != fold_case(needle@[k as int]));
            return false;
        }
        k += 1;
    }
    true
}

/// Whether `needle` occurs in `haystack`, where bytes that differ only in
/// the ASCII case bit count as equal.
pub fn ascii_icontains(needle: &str, haystack: &str) -> (r: bool)
    ensures
        r == icontains(needle.spec_bytes(), haystack.spec_bytes()),
{
    let needle_bytes = needle.as_bytes();
    let haystack_bytes = haystack.as_bytes();
    if needle_bytes.len() == 0 {
        return true;
    }
    if haystack_bytes.len() < needle_bytes.len() {
        assert(!icontains(needle_bytes@, haystack_bytes@));
        return false;
    }
    let windows = haystack_bytes.len() - needle_bytes.len() + 1;
    let mut at: usize = 0;
    while at < windows
        invariant
            at <= windows,
            windows == haystack_bytes@.len() - needle_bytes@.len() + 1,
            needle_bytes@.len() > 0,
            needle_bytes@ == needle.spec_bytes(),
            haystack_bytes@ == haystack.spec_bytes(),
            forall|j: int| 0 <= j < at ==> !matches_at(needle_bytes@, haystack_bytes@, j),
        decreases windows - at,
    {
        if window_matches(needle_bytes, haystack_bytes, at) {
            return true;
        }
        at += 1;
    }
    assert(!icontains(needle_bytes@, haystack_bytes@));
    false
}

} // verus!
