//! Listing functions: the function names among the files of the directory.
use vstd::prelude::*;
use crate::functions::repository::{function_name_of_file, function_names_in};
use crate::text::{chars_of, string_of, string_views};

verus! {

/// The names of the functions among the files named `file_names`, in order:
/// each file name ending in `.zsh` with something before it, without the
/// extension.
pub fn function_names(file_names: &Vec<String>) -> (r: Vec<String>)
    ensures
        string_views(r@) == function_names_in(string_views(file_names@)),
{
    let mut r: Vec<String> = Vec::new();
    let mut i: usize = 0;
    proof {
        assert(string_views(file_names@).take(0) =~= Seq::<Seq<char>>::empty());
        assert(string_views(r@) =~= Seq::<Seq<char>>::empty());
    }
    while i < file_names.len()
        invariant
            i <= file_names.len(),
            string_views(r@) == function_names_in(string_views(file_names@).take(i as int)),
        decreases file_names.len() - i,
    {
        let v = chars_of(file_names[i].as_str());
        let n = v.len();
        let ghost names = string_views(file_names@);
        assert(names.take(i + 1).drop_last() =~= names.take(i as int));
        assert(names.take(i + 1).last() == v@);
        let ghost before = string_views(r@);
        if n > 4 && v[n - 4] == '.' && v[n - 3] == 'z' && v[n - 2] == 's' && v[n - 1] == 'h' {
            proof {
                reveal_strlit(".zsh");
                assert(v@.skip(n - 4) =~= ".zsh"@);
            }
            let name = string_of(&v, 0, n - 4);
            r.push(name);
            assert(string_views(r@) =~= before + seq![v@.take(n - 4)]);
        } else {
            proof {
                reveal_strlit(".zsh");
                if n > 4 && v@.skip(n - 4) == ".zsh"@ {
                    assert(v@.skip(n - 4)[0] == v@[n - 4]);
                    assert(v@.skip(n - 4)[1] == v@[n - 3]);
                    assert(v@.skip(n - 4)[2] == v@[n - 2]);
                    assert(v@.skip(n - 4)[3] == v@[n - 1]);
                }
                assert(function_name_of_file(v@) is None);
            }
            assert(string_views(r@) =~= before + Seq::<Seq<char>>::empty());
        }
        i = i + 1;
    }
    assert(string_views(file_names@).take(file_names.len() as int) =~= string_views(file_names@));
    r
}

} // verus!
