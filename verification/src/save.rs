//! The file that a tree is saved to.

use vstd::prelude::*;

verus! {

/// What `std::path::PathBuf::push` makes of the path `base` when `name` is
/// pushed onto it.
pub uninterp spec fn path_joined(base: Seq<char>, name: Seq<char>) -> Seq<char>;

/// What `std::path::PathBuf::set_extension` makes of `path` when it is given
/// `extension`.
pub uninterp spec fn path_with_extension(path: Seq<char>, extension: Seq<char>) -> Seq<char>;

/// The name of the file for a tree that is saved into a directory.
pub open spec fn default_file_name() -> Seq<char> {
    seq!['m', 'o', 'l', 'e']
}

/// The extension of every saved tree.
pub open spec fn saved_extension() -> Seq<char> {
    seq!['m', 'd']
}

/// Whether `text` holds no path separator of any platform.
pub open spec fn no_separator(text: Seq<char>) -> bool {
    forall|i: int| 0 <= i < text.len() ==> text[i] != '/' && text[i] != '\\'
}

/// The path of the file for the target `target`: in a directory the file of
/// the default name, and in every case with the extension of a saved tree in
/// place of its own.
pub open spec fn save_path_text(target: Seq<char>, target_is_dir: bool) -> Seq<char> {
    let file = if target_is_dir {
        path_joined(target, default_file_name())
    } else {
        target
    };
    path_with_extension(file, saved_extension())
}

/// Calls `std::path::PathBuf::push` on the path `base` with `name`. The
/// result is a function of the two texts; nothing more is claimed of it.
#[verifier::external_body]
fn join(base: &str, name: &str) -> (path: String)
    ensures
        path@ == path_joined(base@, name@),
{
    let mut path = std::path::PathBuf::from(base);
    path.push(name);
    path.to_string_lossy().into_owned()
}

/// Calls `std::path::PathBuf::set_extension` on `path` with `extension`,
/// which may hold no path separator: on one that does the call panics. The
/// result is a function of the two texts; nothing more is claimed of it.
#[verifier::external_body]
fn replace_extension(path: &str, extension: &str) -> (changed: String)
    requires
        no_separator(extension@),
    ensures
        changed@ == path_with_extension(path@, extension@),
{
    let mut changed = std::path::PathBuf::from(path);
    changed.set_extension(extension);
    changed.to_string_lossy().into_owned()
}

/// The path of the file that a tree is saved to. `target` is what was asked
/// for; `target_is_dir` says whether a directory of that path exists.
pub fn save_path(target: &str, target_is_dir: bool) -> (path: String)
    ensures
        path@ == save_path_text(target@, target_is_dir),
{
    proof {
        reveal_strlit("mole");
        reveal_strlit("md");
        assert("mole"@ =~= default_file_name());
        assert("md"@ =~= saved_extension());
    }
    if target_is_dir {
        let file = join(target, "mole");
        replace_extension(file.as_str(), "md")
    } else {
        replace_extension(target, "md")
    }
}

} // verus!
