//! Verified core of a container-build orchestrator.
//!
//! The library discovers dependency relations between locally producible
//! container images (declared through base-image lines in build-definition
//! files), computes a build order that places every known base before its
//! dependents, and composes the exact command lines that drive an external
//! container engine.  All text is modelled as `Vec<char>`, viewed as
//! `Seq<char>`; the surrounding binary converts to and from `String` and
//! performs every file-system and subprocess operation.

pub mod edges;
pub mod executor;
pub mod graph;
pub mod names;
pub mod pipeline;
pub mod planner;

use vstd::prelude::*;

verus! {

/// True when `suffix` is a suffix of `s`.
pub open spec fn is_suffix_of(suffix: Seq<char>, s: Seq<char>) -> bool {
    suffix.len() <= s.len() && s.skip(s.len() - suffix.len()) == suffix
}

/// Decides whether a file name carries the configured build-file suffix;
/// the scanner records exactly the non-directory entries for which this holds.
pub fn is_candidate_file(name: &Vec<char>, suffix: &Vec<char>) -> (r: bool)
    ensures
        r == is_suffix_of(suffix@, name@),
{
    if suffix.len() > name.len() {
        proof {
            assert(!is_suffix_of(suffix@, name@));
        }
        return false;
    }
    let offset = name.len() - suffix.len();
    let mut i: usize = 0;
    while i < suffix.len()
        invariant
            suffix.len() <= name.len(),
            offset == name.len() - suffix.len(),
            i <= suffix.len(),
            forall|k: int| 0 <= k < i ==> name@[offset + k] == suffix@[k],
        decreases suffix.len() - i,
    {
        if name[offset + i] != suffix[i] {
            proof {
                assert(name@.skip(name@.len() - suffix@.len())[i as int] != suffix@[i as int]);
            }
            return false;
        }
        i = i + 1;
    }
    proof {
        assert(name@.skip(name@.len() - suffix@.len()) =~= suffix@);
    }
    true
}

/// Clones a character vector; the copy views equal.
pub fn clone_chars(v: &Vec<char>) -> (r: Vec<char>)
    ensures
        r@ == v@,
{
    let r = v.clone();
    proof {
        assert forall|i: int| 0 <= i < v@.len() implies r@[i] == v@[i] by {
            assert(vstd::pervasive::cloned::<char>(v@[i], r@[i]));
        }
        assert(r@ =~= v@);
    }
    r
}

/// Tests two character vectors for equality of their contents.
pub fn chars_eq(a: &Vec<char>, b: &Vec<char>) -> (r: bool)
    ensures
        r == (a@ == b@),
{
    if a.len() != b.len() {
        return false;
    }
    let mut i: usize = 0;
    while i < a.len()
        invariant
            a@.len() == b@.len(),
            i <= a@.len(),
            forall|k: int| 0 <= k < i ==> a@[k] == b@[k],
        decreases a.len() - i,
    {
        if a[i] != b[i] {
            return false;
        }
        i = i + 1;
    }
    proof {
        assert(a@ =~= b@);
    }
    true
}

/// Whether a list of names holds `n`.
pub fn name_list_contains(names: &Vec<Vec<char>>, n: &Vec<char>) -> (r: bool)
    ensures
        r == names.deep_view().contains(n@),
{
    let mut i: usize = 0;
    while i < names.len()
        invariant
            i <= names@.len(),
            forall|k: int| 0 <= k < i ==> names.deep_view()[k] != n@,
        decreases names.len() - i,
    {
        if chars_eq(&names[i], n) {
            proof {
                assert(names@[i as int]@ =~= names.deep_view()[i as int]);
                assert(names.deep_view()[i as int] == n@);
            }
            return true;
        }
        proof {
            assert(names@[i as int]@ =~= names.deep_view()[i as int]);
        }
        i = i + 1;
    }
    proof {
        assert(names.deep_view().len() == names@.len());
        assert(!names.deep_view().contains(n@));
    }
    false
}

} // verus!
