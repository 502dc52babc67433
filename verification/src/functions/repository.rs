//! Where function files are kept: one `<name>.zsh` file per function in a
//! directory.
use vstd::prelude::*;
use std::path::PathBuf;
use crate::error::FunkyError;
use crate::functions::Slug;

verus! {

#[verifier::external_type_specification]
#[verifier::external_body]
pub struct ExPathBuf(PathBuf);

/// The functions kept as files in one directory.
pub struct FileSystemRepository {
    base_path: PathBuf,
}

impl FileSystemRepository {
    pub closed spec fn spec_base_path(&self) -> PathBuf {
        self.base_path
    }

    /// A repository of the functions in `base_path`.
    pub fn new(base_path: PathBuf) -> (r: Self)
        ensures
            r.spec_base_path() == base_path,
    {
        FileSystemRepository { base_path }
    }

    /// The directory holding the function files.
    pub fn base_path(&self) -> (r: &PathBuf)
        ensures
            *r == self.spec_base_path(),
    {
        &self.base_path
    }
}

/// The file name of a function: its name and `.zsh`.
pub open spec fn function_file_name(id: Seq<char>) -> Seq<char> {
    id + ".zsh"@
}

/// The file name holding the function `id`.
pub fn file_name_for(id: &Slug) -> (r: String)
    ensures
        r@ == function_file_name(id@),
{
    let mut r = String::from_str(id.as_str());
    r.append(".zsh");
    r
}

/// The name of the function a file holds: the file name without its `.zsh`
/// extension, for a file name with something before that extension.
pub open spec fn function_name_of_file(file_name: Seq<char>) -> Option<Seq<char>> {
    if file_name.len() > 4 && file_name.skip(file_name.len() - 4) == ".zsh"@ {
        Some(file_name.take(file_name.len() - 4))
    } else {
        None
    }
}

/// The names of the functions among the files named `file_names`, in order.
pub open spec fn function_names_in(file_names: Seq<Seq<char>>) -> Seq<Seq<char>>
    decreases file_names.len(),
{
    if file_names.len() == 0 {
        seq![]
    } else {
        function_names_in(file_names.drop_last()) + match function_name_of_file(file_names.last()) {
            Some(n) => seq![n],
            None => seq![],
        }
    }
}

/// A function's file is listed under the function's own name: the name read
/// back from the file name `file_name_for` gives is the slug itself.
pub proof fn lemma_file_name_round_trip(id: Seq<char>)
    requires
        id.len() > 0,
    ensures
        function_name_of_file(function_file_name(id)) == Some(id),
{
    reveal_strlit(".zsh");
    let f = function_file_name(id);
    assert(f.skip(f.len() - 4) =~= ".zsh"@);
    assert(f.take(f.len() - 4) =~= id);
}

/// Listing keeps exactly the function files: the names listed for the file
/// names of some functions, in any order, are those functions' names.
pub proof fn lemma_listed_names_of_function_files(ids: Seq<Seq<char>>)
    requires
        forall|i: int| 0 <= i < ids.len() ==> (#[trigger] ids[i]).len() > 0,
    ensures
        function_names_in(ids.map_values(|id: Seq<char>| function_file_name(id))) == ids,
    decreases ids.len(),
{
    let files = ids.map_values(|id: Seq<char>| function_file_name(id));
    if ids.len() > 0 {
        let rest = ids.drop_last();
        lemma_listed_names_of_function_files(rest);
        assert(files.drop_last() =~= rest.map_values(|id: Seq<char>| function_file_name(id)));
        lemma_file_name_round_trip(ids.last());
        assert(ids =~= rest + seq![ids.last()]);
    } else {
        assert(files =~= Seq::<Seq<char>>::empty());
    }
}

/// An update goes only to a function that exists: `FunctionNotFound` otherwise.
pub fn check_update_target(exists: bool, id: &Slug) -> (r: Result<(), FunkyError>)
    ensures
        r is Ok <==> exists,
        r matches Err(e) ==> (e matches FunkyError::FunctionNotFound(n) && n@ == id@),
{
    if exists {
        Ok(())
    } else {
        Err(FunkyError::FunctionNotFound(String::from_str(id.as_str())))
    }
}

} // verus!
