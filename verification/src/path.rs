//! Paths, as sequences of bytes.

use vstd::prelude::*;

use crate::bytes::{push_all, to_vec};

verus! {

/// A path below a directory: an absolute path stands for itself, another one is appended, behind a
/// slash unless there is none to separate it from or one is there.
pub open spec fn joined(directory: Seq<u8>, path: Seq<u8>) -> Seq<u8> {
    if path.len() > 0 && path[0] == '/' as u8 {
        path
    } else if directory.len() == 0 || directory.last() == '/' as u8 {
        directory + path
    } else {
        directory + seq!['/' as u8] + path
    }
}

/// A path below a directory.
pub fn join(directory: &[u8], path: &[u8]) -> (result: Vec<u8>)
    ensures
        result@ == joined(directory@, path@),
{
    if path.len() > 0 && path[0] == '/' as u8 {
        return to_vec(path);
    }
    let mut result: Vec<u8> = to_vec(directory);
    if directory.len() > 0 && directory[directory.len() - 1] != '/' as u8 {
        result.push('/' as u8);
    }
    push_all(&mut result, path);
    assert(result@ =~= joined(directory@, path@));
    result
}

/// Different relative paths are different paths below a directory.
pub proof fn law_joined_is_injective(directory: Seq<u8>, a: Seq<u8>, b: Seq<u8>)
    requires
        a.len() > 0 ==> a[0] != '/' as u8,
        b.len() > 0 ==> b[0] != '/' as u8,
        joined(directory, a) == joined(directory, b),
    ensures
        a == b,
{
    let path = joined(directory, a);
    let start = path.len() - a.len();
    assert(path.skip(start) =~= a);
    assert(path.skip(start) =~= b);
}

/// A path below a directory ends with the path. It is the path itself where that is absolute, and
/// it starts with the directory where it is not, with exactly one slash between the two unless
/// there is no directory.
pub proof fn law_joined(directory: Seq<u8>, path: Seq<u8>)
    ensures
        ({
            let whole = joined(directory, path);
            let start = whole.len() - path.len();
            &&& start >= 0 && whole.skip(start) == path
            &&& path.len() > 0 && path[0] == 0x2f ==> start == 0
            &&& !(path.len() > 0 && path[0] == 0x2f) ==> {
                &&& start >= directory.len() && whole.take(directory.len() as int) == directory
                &&& directory.len() == 0 ==> start == 0
                &&& directory.len() > 0 && directory.last() == 0x2f ==> start == directory.len()
                &&& directory.len() > 0 && directory.last() != 0x2f ==> start == directory.len() + 1
                    && whole[start - 1] == 0x2f
            }
        }),
{
    let whole = joined(directory, path);
    let start = whole.len() - path.len();
    assert(whole.skip(start) =~= path);
    if !(path.len() > 0 && path[0] == 0x2f) {
        assert(whole.take(directory.len() as int) =~= directory);
    }
}

} // verus!
