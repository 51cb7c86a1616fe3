//! Where a model file lies inside a hub repository.

use vstd::prelude::*;
use vstd::string::*;

verus! {

/// The path of `file` inside a repository: below `sub_folder`, if there is
/// one, with a single `/` between the two.
pub open spec fn hub_file_path_spec(sub_folder: Option<Seq<char>>, file: Seq<char>) -> Seq<char> {
    match sub_folder {
        Some(folder) => folder + seq!['/'] + file,
        None => file,
    }
}

/// The path under which `file` is asked for in a repository.
pub fn hub_file_path(sub_folder: Option<&str>, file: &str) -> (path: String)
    ensures
        path@ == hub_file_path_spec(
            match sub_folder {
                Some(folder) => Some(folder@),
                None => None,
            },
            file@,
        ),
{
    match sub_folder {
        Some(folder) => {
            proof {
                reveal_strlit("/");
                assert("/"@ =~= seq!['/']);
            }
            String::from_str(folder).concat("/").concat(file)
        },
        None => String::from_str(file),
    }
}

} // verus!
