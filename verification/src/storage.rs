//! Where the index file lives.
use crate::text::string_of;
use vstd::prelude::*;

verus! {

/// `child` joined onto `base`, as `Path::join` computes it on the build
/// target, rendered as a string.
pub uninterp spec fn spec_path_join(base: Seq<char>, child: Seq<char>) -> Seq<char>;

/// `Path::join` of `base` and `child`, as a string.
#[verifier::external_body]
pub(crate) fn path_join(base: &str, child: &str) -> (r: String)
    ensures
        r@ == spec_path_join(base@, child@),
{
    std::path::Path::new(base).join(child).to_string_lossy().into_owned()
}

/// The directory of the tool's files under a knowledge base root.
pub open spec fn rns_dir(root: Seq<char>) -> Seq<char> {
    spec_path_join(root, seq!['.', 'r', 'n', 's'])
}

/// Path of the index file: `.rns/index.json` under the root.
pub fn index_file_path(root: &str) -> (r: String)
    ensures
        r@ == spec_path_join(rns_dir(root@), seq!['i', 'n', 'd', 'e', 'x', '.', 'j', 's', 'o', 'n']),
{
    let dir_name = ['.', 'r', 'n', 's'];
    let file_name = ['i', 'n', 'd', 'e', 'x', '.', 'j', 's', 'o', 'n'];
    assert(dir_name@ == seq!['.', 'r', 'n', 's']);
    assert(file_name@ == seq!['i', 'n', 'd', 'e', 'x', '.', 'j', 's', 'o', 'n']);
    let dir = path_join(root, string_of(&dir_name).as_str());
    path_join(dir.as_str(), string_of(&file_name).as_str())
}

} // verus!
