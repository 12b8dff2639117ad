//! The path validator: decides from the name alone, before any key is
//! derived and before the host is touched, whether a logical file name can
//! stand for a single file.

use vstd::prelude::*;

verus! {

/// Why the validator turned a path down.
#[derive(Clone, Copy, Debug, PartialEq, Eq, Structural)]
pub enum PathRejection {
    /// The path has no characters.
    Empty,
    /// The path holds a control character, which the glue between the
    /// store and the host cannot carry.
    UnsafeCharacter,
    /// The path ends in a separator: it names the root or a directory.
    Directory,
    /// The last component of the path is `.`.
    CurrentDirectory,
    /// The last component of the path is `..`.
    ParentDirectory,
}

/// What the validator says of a path.
#[derive(Clone, Copy, Debug, PartialEq, Eq, Structural)]
pub enum PathVerdict {
    Accepted,
    Rejected(PathRejection),
}

/// A control character: below the space, or the delete character.
pub open spec fn is_unsafe_char(c: char) -> bool {
    (c as u32) < 0x20 || c as u32 == 0x7f
}

/// Some character of the path is a control character.
pub open spec fn has_unsafe_char(path: Seq<char>) -> bool {
    exists|i: int| 0 <= i < path.len() && is_unsafe_char(#[trigger] path[i])
}

/// The last component of the path, what follows its last separator, is
/// `token`.
pub open spec fn last_component_is(path: Seq<char>, token: Seq<char>) -> bool {
    &&& path.len() >= token.len()
    &&& path.subrange(path.len() - token.len(), path.len() as int) == token
    &&& (path.len() == token.len() || path[path.len() - token.len() - 1] == '/')
}

/// The verdict on a path. The tests are made in this order, and the first
/// that applies gives the reason.
pub open spec fn spec_validate(path: Seq<char>) -> PathVerdict {
    if path.len() == 0 {
        PathVerdict::Rejected(PathRejection::Empty)
    } else if has_unsafe_char(path) {
        PathVerdict::Rejected(PathRejection::UnsafeCharacter)
    } else if path.last() == '/' {
        PathVerdict::Rejected(PathRejection::Directory)
    } else if last_component_is(path, seq!['.']) {
        PathVerdict::Rejected(PathRejection::CurrentDirectory)
    } else if last_component_is(path, seq!['.', '.']) {
        PathVerdict::Rejected(PathRejection::ParentDirectory)
    } else {
        PathVerdict::Accepted
    }
}

/// The validator accepts the path.
pub open spec fn path_accepted(path: Seq<char>) -> bool {
    spec_validate(path) == PathVerdict::Accepted
}

/// Whether `c` is a control character.
pub fn unsafe_char(c: char) -> (found: bool)
    ensures
        found == is_unsafe_char(c),
{
    (c as u32) < 0x20 || c as u32 == 0x7f
}

/// Validates a logical file name.
pub fn validate_path(path: &str) -> (verdict: PathVerdict)
    ensures
        verdict == spec_validate(path@),
{
    let n: usize = path.unicode_len();
    if n == 0 {
        return PathVerdict::Rejected(PathRejection::Empty);
    }
    let mut i: usize = 0;
    while i < n
        invariant
            i <= n,
            n == path@.len(),
            forall|k: int| 0 <= k < i ==> !is_unsafe_char(#[trigger] path@[k]),
        decreases n - i,
    {
        if unsafe_char(path.get_char(i)) {
            return PathVerdict::Rejected(PathRejection::UnsafeCharacter);
        }
        i = i + 1;
    }
    let last: char = path.get_char(n - 1);
    if last == '/' {
        return PathVerdict::Rejected(PathRejection::Directory);
    }
    if last != '.' {
        proof {
            assert(path@.subrange(n - 1, n as int)[0] == last);
            if n >= 2 {
                assert(path@.subrange(n - 2, n as int)[1] == last);
            }
        }
        return PathVerdict::Accepted;
    }
    if n == 1 || path.get_char(n - 2) == '/' {
        assert(path@.subrange(n - 1, n as int) =~= seq!['.']);
        return PathVerdict::Rejected(PathRejection::CurrentDirectory);
    }
    proof {
        assert(!last_component_is(path@, seq!['.']));
    }
    if path.get_char(n - 2) != '.' {
        proof {
            assert(path@.subrange(n - 2, n as int)[0] == path@[n - 2]);
        }
        return PathVerdict::Accepted;
    }
    if n == 2 || path.get_char(n - 3) == '/' {
        assert(path@.subrange(n - 2, n as int) =~= seq!['.', '.']);
        return PathVerdict::Rejected(PathRejection::ParentDirectory);
    }
    PathVerdict::Accepted
}

} // verus!
