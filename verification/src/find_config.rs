//! Finding the configuration file: the nearest directory, from the working
//! directory up to the root, that holds one of the configuration file names.
use std::path::Path;

use vstd::prelude::*;

use crate::error::ConfigError;

verus! {

/// The names a configuration file may have, in order of preference.
pub const CONFIG_NAMES: [&'static str; 4] = [".edlintrc.json", ".edlintrc", ".edlintrc.yaml", ".edlintrc.yml"];

/// Whether `name` is a single plain file name: not empty, neither `.` nor `..`,
/// and free of separators and drive colons.
pub open spec fn is_plain_file_name(name: Seq<char>) -> bool {
    &&& name.len() > 0
    &&& name != seq!['.']
    &&& name != seq!['.', '.']
    &&& forall|i: int| 0 <= i < name.len() ==> name[i] != '/' && name[i] != '\\' && name[i] != ':'
}

/// Whether `path` ends with `name`.
pub open spec fn ends_with(path: Seq<char>, name: Seq<char>) -> bool {
    name.len() <= path.len() && path.subrange(path.len() - name.len(), path.len() as int) == name
}

/// The configuration file names, by their characters.
pub open spec fn config_names() -> Seq<Seq<char>> {
    seq![".edlintrc.json"@, ".edlintrc"@, ".edlintrc.yaml"@, ".edlintrc.yml"@]
}

/// Whether a path is written with the verbatim prefix `\\?\`.
pub open spec fn is_verbatim(path: Seq<char>) -> bool {
    path.len() >= 4 && path[0] == '\\' && path[1] == '\\' && path[2] == '?' && path[3] == '\\'
}

/// The path that `Path::join` makes of a directory and a file name, by characters.
/// The syntax of paths is that of the platform the program is built for; it is
/// fixed for a given program and depends on nothing else.
pub uninterp spec fn joined_path(dir: Seq<char>, name: Seq<char>) -> Seq<char>;

/// The directory that `Path::parent` gives for a path, by characters, if any.
/// As for [`joined_path`], the path syntax is the platform's.
pub uninterp spec fn parent_dir(dir: Seq<char>) -> Option<Seq<char>>;

/// `Path::join` with a plain file name, as characters: the joined path ends with
/// that name and, unless the directory is verbatim (which `push` normalizes),
/// starts with the directory.
#[verifier::external_body]
fn path_join(dir: &str, name: &str) -> (res: String)
    requires
        is_plain_file_name(name@),
    ensures
        res@ == joined_path(dir@, name@),
        ends_with(res@, name@),
        !is_verbatim(dir@) ==> dir@.len() <= res@.len() && res@.subrange(0, dir@.len() as int) == dir@,
{
    Path::new(dir).join(name).to_string_lossy().into_owned()
}

/// `Path::parent`, as characters: the path without its last component, which is a
/// strictly shorter prefix of it; `None` at a root, at a bare prefix, or for the
/// empty path.
#[verifier::external_body]
fn path_parent(dir: &str) -> (res: Option<String>)
    ensures
        (match res {
            Some(p) => parent_dir(dir@) == Some(p@),
            None => parent_dir(dir@) is None,
        }),
        res matches Some(p) ==> p@.len() < dir@.len() && p@ == dir@.subrange(0, p@.len() as int),
        dir@.len() == 0 ==> res is None,
{
    match Path::new(dir).parent() {
        Some(p) => Some(p.to_string_lossy().into_owned()),
        None => None,
    }
}

/// The candidate files of one directory, one per configuration name, in order.
pub open spec fn candidates_in(dir: Seq<char>) -> Seq<Seq<char>> {
    seq![
        joined_path(dir, config_names()[0]),
        joined_path(dir, config_names()[1]),
        joined_path(dir, config_names()[2]),
        joined_path(dir, config_names()[3]),
    ]
}

/// Every candidate file from `dir` up: the directory's own candidates, then
/// those of its parent, and so on up to the directory that has no parent.
pub open spec fn search_candidates(dir: Seq<char>) -> Seq<Seq<char>>
    decreases dir.len(),
{
    candidates_in(dir) + match parent_dir(dir) {
        Some(p) => if p.len() < dir.len() {
            search_candidates(p)
        } else {
            Seq::empty()
        },
        None => Seq::empty(),
    }
}

/// The file test accepted the path `c`.
pub open spec fn accepted<F: Fn(&str) -> bool>(is_config_file: F, c: Seq<char>) -> bool {
    exists|q: &str| q@ == c && #[trigger] is_config_file.ensures((q,), true)
}

/// The file test rejected the path `c`.
pub open spec fn rejected<F: Fn(&str) -> bool>(is_config_file: F, c: Seq<char>) -> bool {
    exists|q: &str| q@ == c && #[trigger] is_config_file.ensures((q,), false)
}

/// Looks for the configuration file from `cwd` upwards: the candidates of
/// [`search_candidates`] are handed to `is_config_file` in order, and the first
/// one it accepts is the result. When it rejects them all, up to the directory
/// without a parent, the result is `ConfigNotFound`.
pub fn find_config<F: Fn(&str) -> bool>(cwd: &str, is_config_file: F) -> (res: Result<
    String,
    ConfigError,
>)
    requires
        forall|p: &str| is_config_file.requires((p,)),
    ensures
        (match res {
            Ok(p) => exists|i: int|
                0 <= i < search_candidates(cwd@).len() && search_candidates(cwd@)[i] == p@
                    && accepted(is_config_file, p@) && forall|j: int|
                    0 <= j < i ==> rejected(is_config_file, #[trigger] search_candidates(cwd@)[j]),
            Err(e) => e is ConfigNotFound && forall|j: int|
                0 <= j < search_candidates(cwd@).len() ==> rejected(
                    is_config_file,
                    #[trigger] search_candidates(cwd@)[j],
                ),
        }),
{
    let ghost all = search_candidates(cwd@);
    let ghost mut done: int = 0;
    let mut current_dir = String::from_str(cwd);
    loop
        invariant
            forall|p: &str| is_config_file.requires((p,)),
            all == search_candidates(cwd@),
            0 <= done,
            done + search_candidates(current_dir@).len() == all.len(),
            all.subrange(done, all.len() as int) == search_candidates(current_dir@),
            forall|j: int| 0 <= j < done ==> rejected(is_config_file, #[trigger] all[j]),
        decreases current_dir@.len(),
    {
        let ghost here = search_candidates(current_dir@);
        assert(here.len() >= 4);
        assert forall|k: int| 0 <= k < 4 implies all[done + k] == #[trigger] candidates_in(
            current_dir@,
        )[k] by {
            assert(all.subrange(done, all.len() as int)[k] == all[done + k]);
        }
        let mut k: usize = 0;
        while k < 4
            invariant
                forall|p: &str| is_config_file.requires((p,)),
                all == search_candidates(cwd@),
                0 <= done,
                done + 4 <= all.len(),
                k <= 4,
                forall|k2: int| 0 <= k2 < 4 ==> all[done + k2] == #[trigger] candidates_in(
                    current_dir@,
                )[k2],
                forall|j: int| 0 <= j < done + k ==> rejected(is_config_file, #[trigger] all[j]),
            decreases 4 - k,
        {
            let name = CONFIG_NAMES[k];
            proof {
                reveal_strlit(".edlintrc.json");
                reveal_strlit(".edlintrc");
                reveal_strlit(".edlintrc.yaml");
                reveal_strlit(".edlintrc.yml");
            }
            assert(name@ == config_names()[k as int]);
            let config_path = path_join(current_dir.as_str(), name);
            let candidate: &str = config_path.as_str();
            assert(all[done + k] == candidates_in(current_dir@)[k as int]);
            assert(candidates_in(current_dir@)[k as int] == joined_path(current_dir@, config_names()[k as int]));
            assert(candidate@ == all[done + k]);
            let found = is_config_file(candidate);
            if found {
                assert(accepted(is_config_file, config_path@));
                return Ok(config_path);
            }
            assert(rejected(is_config_file, all[done + k]));
            k = k + 1;
        }
        proof {
            done = done + 4;
        }
        match path_parent(current_dir.as_str()) {
            Some(parent) => {
                assert(here == candidates_in(current_dir@) + search_candidates(parent@));
                assert(all.subrange(done, all.len() as int) =~= search_candidates(parent@)) by {
                    assert forall|j: int| 0 <= j < search_candidates(parent@).len() implies all.subrange(done, all.len() as int)[j] == search_candidates(parent@)[j] by {
                        assert(here[j + 4] == search_candidates(parent@)[j]);
                        assert(all.subrange(done - 4, all.len() as int)[j + 4] == here[j + 4]);
                    }
                }
                current_dir = parent;
            },
            None => {
                assert(here =~= candidates_in(current_dir@));
                return Err(ConfigError::ConfigNotFound);
            },
        }
    }
}

} // verus!
