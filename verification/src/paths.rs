//! Where the application keeps its files.

use std::path::PathBuf;
use vstd::prelude::*;

verus! {

/// `std::path::PathBuf`, carried through.
#[verifier::external_type_specification]
#[verifier::external_body]
pub struct ExPathBuf(std::path::PathBuf);

/// The components of a path, from its root on.
pub uninterp spec fn components(p: PathBuf) -> Seq<Seq<char>>;

/// A name that is one component of a path on every platform.
pub open spec fn plain_name(s: Seq<char>) -> bool {
    &&& s.len() > 0
    &&& s != "."@
    &&& s != ".."@
    &&& forall|i: int|
        0 <= i < s.len() ==> #[trigger] s[i] != '/' && s[i] != '\\' && s[i] != ':'
}

/// `std::path::Path::join` with a plain name, which appends that name as the
/// last component.
#[verifier::external_body]
fn join(base: &PathBuf, name: &str) -> (r: PathBuf)
    requires
        plain_name(name@),
    ensures
        components(r) == components(*base).push(name@),
{
    base.join(name)
}

/// The `Clone` of `std::path::PathBuf`, which gives an equal path.
#[verifier::external_body]
pub(crate) fn copy_path(p: &PathBuf) -> (r: PathBuf)
    ensures
        r == *p,
{
    p.clone()
}

/// `dirs::config_dir`, the user's configuration directory. Nothing is said of
/// the answer: it depends on the platform and the environment, and there may
/// be none.
#[verifier::external_body]
fn config_dir() -> (r: Option<PathBuf>) {
    dirs::config_dir()
}

/// A copy of an optional path.
pub fn copy_optional(p: &Option<PathBuf>) -> (r: Option<PathBuf>)
    ensures
        r == *p,
{
    match p {
        Some(x) => Some(copy_path(x)),
        None => None,
    }
}

/// The directory name under the configuration directory.
pub open spec fn folder() -> Seq<char> {
    "mellonella"@
}

/// `p` is the file `name` in the application's directory under `dir`.
pub open spec fn is_file_in(p: Option<PathBuf>, dir: Option<PathBuf>, name: Seq<char>) -> bool {
    match (p, dir) {
        (Some(x), Some(d)) => components(x) == components(d).push(folder()).push(name),
        (None, None) => true,
        _ => false,
    }
}

/// The file `name` in the application's directory under `dir`, where there is
/// a `dir`.
pub fn file_in(dir: Option<PathBuf>, name: &str) -> (r: Option<PathBuf>)
    requires
        plain_name(name@),
    ensures
        is_file_in(r, dir, name@),
{
    match dir {
        Some(d) => {
            proof {
                reveal_strlit("mellonella");
                reveal_strlit(".");
                reveal_strlit("..");
            }
            let own: PathBuf = join(&d, "mellonella");
            Some(join(&own, name))
        },
        None => None,
    }
}

/// `p` is the file `name` in a directory of the application.
pub open spec fn is_own_file(p: Option<PathBuf>, name: Seq<char>) -> bool {
    exists|dir: Option<PathBuf>| #[trigger] is_file_in(p, dir, name)
}

/// Default location of the auto-saved enrollment. Returns `None` on platforms
/// where there is no configuration directory.
pub fn default_enrollment_path() -> (r: Option<PathBuf>)
    ensures
        is_own_file(r, "enrollment.json"@),
{
    proof {
        reveal_strlit("enrollment.json");
        reveal_strlit(".");
        reveal_strlit("..");
    }
    file_in(config_dir(), "enrollment.json")
}

/// Companion profile used only to identify the separated streams.
pub fn default_separator_enrollment_path() -> (r: Option<PathBuf>)
    ensures
        is_own_file(r, "enrollment-separator.json"@),
{
    proof {
        reveal_strlit("enrollment-separator.json");
        reveal_strlit(".");
        reveal_strlit("..");
    }
    file_in(config_dir(), "enrollment-separator.json")
}

/// Location of the persisted separator threshold.
pub fn separator_threshold_path() -> (r: Option<PathBuf>)
    ensures
        is_own_file(r, "separator-threshold.txt"@),
{
    proof {
        reveal_strlit("separator-threshold.txt");
        reveal_strlit(".");
        reveal_strlit("..");
    }
    file_in(config_dir(), "separator-threshold.txt")
}

/// Location of the persisted gate controls.
pub fn gate_settings_path() -> (r: Option<PathBuf>)
    ensures
        is_own_file(r, "gate-settings.txt"@),
{
    proof {
        reveal_strlit("gate-settings.txt");
        reveal_strlit(".");
        reveal_strlit("..");
    }
    file_in(config_dir(), "gate-settings.txt")
}

/// Location of the threshold file that preceded the speaker gate settings.
pub fn legacy_voiceprint_threshold_path() -> (r: Option<PathBuf>)
    ensures
        is_own_file(r, "voiceprint-threshold.txt"@),
{
    proof {
        reveal_strlit("voiceprint-threshold.txt");
        reveal_strlit(".");
        reveal_strlit("..");
    }
    file_in(config_dir(), "voiceprint-threshold.txt")
}

} // verus!
