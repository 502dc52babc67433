//! What a path must be: the functions directory, and files read by funky.
use vstd::prelude::*;
use crate::error::FunkyError;

verus! {

/// What to do with the functions directory `path` given whether it exists and
/// is a directory: `Ok(true)` to create it, `Ok(false)` to use it as it is,
/// `NotADirectory` when something else is there.
pub fn dir_status(path: &str, exists: bool, is_dir: bool) -> (r: Result<bool, FunkyError>)
    ensures
        r is Err <==> (exists && !is_dir),
        r matches Ok(create) ==> create == !exists,
        r matches Err(e) ==> (e matches FunkyError::NotADirectory(p) && p@ == path@),
{
    if exists {
        if !is_dir {
            return Err(FunkyError::NotADirectory(String::from_str(path)));
        }
        Ok(false)
    } else {
        Ok(true)
    }
}

/// A file to read must exist and not be a directory: `FileNotFound` or
/// `IsADirectory` otherwise.
pub fn file_status(path: &str, exists: bool, is_dir: bool) -> (r: Result<(), FunkyError>)
    ensures
        r is Ok <==> (exists && !is_dir),
        !exists ==> (r matches Err(e) && (e matches FunkyError::FileNotFound(p) && p@ == path@)),
        exists && is_dir ==> (r matches Err(e) && (e matches FunkyError::IsADirectory(p) && p@ == path@)),
{
    if exists {
        if is_dir {
            return Err(FunkyError::IsADirectory(String::from_str(path)));
        }
        Ok(())
    } else {
        Err(FunkyError::FileNotFound(String::from_str(path)))
    }
}

} // verus!
