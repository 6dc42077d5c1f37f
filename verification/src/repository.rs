//! What the files of a repository tell before its history is read.

use vstd::prelude::*;
use crate::error::{PipelineError, RepositoryFault};

verus! {

/// Why a repository cannot be used, from what is found at its path: nothing
/// at all; a configuration file but no metadata directory, as a bare
/// repository has; a metadata directory that cannot be opened; or neither.
pub open spec fn access_fault(path_exists: bool, has_metadata_dir: bool, has_config_file: bool) -> RepositoryFault {
    if !path_exists {
        RepositoryFault::Missing
    } else if !has_metadata_dir && has_config_file {
        RepositoryFault::Bare
    } else if has_metadata_dir {
        RepositoryFault::Corrupted
    } else {
        RepositoryFault::NotARepository
    }
}

/// The failure of a repository that could not be opened, named by what is
/// found at its path.
pub fn classify_access_fault(path_exists: bool, has_metadata_dir: bool, has_config_file: bool) -> (failure:
    PipelineError)
    ensures
        failure == PipelineError::RepositoryAccess(
            access_fault(path_exists, has_metadata_dir, has_config_file),
        ),
{
    let fault = if !path_exists {
        RepositoryFault::Missing
    } else if !has_metadata_dir && has_config_file {
        RepositoryFault::Bare
    } else if has_metadata_dir {
        RepositoryFault::Corrupted
    } else {
        RepositoryFault::NotARepository
    };
    PipelineError::RepositoryAccess(fault)
}

/// The ending of the name of a reachability bitmap: `.bitmap`.
pub open spec fn bitmap_ending() -> Seq<u8> {
    seq![46u8, 98u8, 105u8, 116u8, 109u8, 97u8, 112u8]
}

/// Whether a file name has the extension `bitmap`: it ends in `.bitmap` and
/// has something before that.
pub open spec fn is_bitmap_name(name: Seq<u8>) -> bool {
    name.len() > 7 && name.subrange(name.len() - 7, name.len() as int) == bitmap_ending()
}

/// Whether a file name has the extension `bitmap`.
pub fn names_bitmap(name: &[u8]) -> (r: bool)
    ensures
        r == is_bitmap_name(name@),
{
    let count = name.len();
    if count <= 7 {
        return false;
    }
    let from = count - 7;
    let same = name[from] == 46 && name[from + 1] == 98 && name[from + 2] == 105 && name[from + 3]
        == 116 && name[from + 4] == 109 && name[from + 5] == 97 && name[from + 6] == 112;
    proof {
        if same {
            assert(name@.subrange(count - 7, count as int) =~= bitmap_ending());
        }
    }
    same
}

/// Whether a pack directory with files of these names holds a reachability
/// bitmap. Without one the size queries are slower, and no less right.
pub fn has_bitmap_index(names: &Vec<Vec<u8>>) -> (found: bool)
    ensures
        found == exists|i: int| 0 <= i < names@.len() && is_bitmap_name(#[trigger] names@[i]@),
{
    let mut i: usize = 0;
    while i < names.len()
        invariant
            i <= names@.len(),
            forall|k: int| 0 <= k < i ==> !is_bitmap_name(#[trigger] names@[k]@),
        decreases names@.len() - i,
    {
        if names_bitmap(names[i].as_slice()) {
            return true;
        }
        i = i + 1;
    }
    false
}

} // verus!
