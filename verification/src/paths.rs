//! Where the results of a quiz are stored: in a `results` directory next to the
//! quiz file, in a file named after the quiz.
use vstd::prelude::*;

use crate::common::{concat, QuizError, QuizErrorView};

verus! {

/// `s` ends with `suffix`.
pub open spec fn ends_with(s: Seq<char>, suffix: Seq<char>) -> bool {
    suffix.len() <= s.len() && s.subrange(s.len() - suffix.len(), s.len() as int) == suffix
}

/// `part` occurs in `s`.
pub open spec fn occurs_in(part: Seq<char>, s: Seq<char>) -> bool {
    exists|i: int| 0 <= i && i + part.len() <= s.len() && #[trigger] s.subrange(i, i + part.len()) == part
}

/// What `std::path::Path::parent` gives for the path `path`, on the platform the
/// library is built for.
pub uninterp spec fn path_parent(path: Seq<char>) -> Option<Seq<char>>;

/// What `std::path::Path::file_name` gives for the path `path`, on the platform
/// the library is built for.
pub uninterp spec fn path_file_name(path: Seq<char>) -> Option<Seq<char>>;

/// The path that `std::path::PathBuf::push` makes of `base` and `name`, on the
/// platform the library is built for.
pub uninterp spec fn path_joined(base: Seq<char>, name: Seq<char>) -> Seq<char>;

/// The directory part of `path`, as `std::path::Path::parent` gives it: the path
/// without its final component. The contract names the result (`path_parent`)
/// and says that it is a prefix of `path` and that an empty path has none; which
/// prefix it is depends on the separators of the platform.
#[verifier::external_body]
fn parent_of(path: &str) -> (r: Option<String>)
    ensures
        r is None <==> path_parent(path@) is None,
        r matches Some(p) ==> path_parent(path@) == Some(p@),
        path@.len() == 0 ==> r is None,
        r matches Some(p) ==> p@.len() <= path@.len() && path@.subrange(0, p@.len() as int) == p@,
{
    match std::path::Path::new(path).parent() {
        Some(p) => Some(p.to_string_lossy().into_owned()),
        None => None,
    }
}

/// The final component of `path`, as `std::path::Path::file_name` gives it. The
/// contract names the result (`path_file_name`) and says that it occurs in
/// `path` and that an empty path has none; where the component begins depends on
/// the separators of the platform.
#[verifier::external_body]
fn file_name_of(path: &str) -> (r: Option<String>)
    ensures
        r is None <==> path_file_name(path@) is None,
        r matches Some(f) ==> path_file_name(path@) == Some(f@),
        path@.len() == 0 ==> r is None,
        r matches Some(f) ==> occurs_in(f@, path@),
{
    match std::path::Path::new(path).file_name() {
        Some(f) => Some(f.to_string_lossy().into_owned()),
        None => None,
    }
}

/// `name` pushed onto the path `base`, as `std::path::PathBuf::push` does. The
/// contract names the result (`path_joined`) and says that it ends with `name`,
/// and that pushing onto an empty path gives `name`; the separator put between
/// them depends on the platform.
#[verifier::external_body]
fn join_path(base: &str, name: &str) -> (r: String)
    ensures
        r@ == path_joined(base@, name@),
        ends_with(r@, name@),
        base@.len() == 0 ==> r@ == name@,
{
    let mut p = std::path::PathBuf::from(base);
    p.push(name);
    p.to_string_lossy().into_owned()
}

/// The name of the results file of the quiz whose file is named `short`.
pub fn results_file_name(short: &str) -> (r: String)
    ensures
        r@ == short@ + "_results.json"@,
{
    concat(short, "_results.json")
}

/// The directory of the path `fullname`: its parent, or the empty path when it
/// has none.
pub open spec fn parent_dir(fullname: Seq<char>) -> Seq<char> {
    match path_parent(fullname) {
        Some(p) => p,
        None => Seq::empty(),
    }
}

/// The directory where the results of the quiz at `fullname` are kept.
pub open spec fn results_dir(fullname: Seq<char>) -> Seq<char> {
    path_joined(parent_dir(fullname), "results"@)
}

/// The directory where the results of the quiz at `fullname` are stored: the
/// directory `results` next to the quiz file.
pub fn get_results_dir_path(fullname: &str) -> (r: String)
    ensures
        r@ == results_dir(fullname@),
        ends_with(r@, "results"@),
{
    let parent = match parent_of(fullname) {
        Some(p) => p,
        None => String::new(),
    };
    join_path(parent.as_str(), "results")
}

/// The file where the results of the quiz at `fullname` are stored. It is an
/// error (`QuizNotFound`) when the path has no file name.
pub fn get_results_path(fullname: &str) -> (r: Result<String, QuizError>)
    ensures
        r is Err <==> path_file_name(fullname@) is None,
        r matches Ok(p) ==> p@ == path_joined(
            results_dir(fullname@),
            path_file_name(fullname@).unwrap() + "_results.json"@,
        ),
        fullname@.len() == 0 ==> r is Err,
        r matches Err(e) ==> e@ == QuizErrorView::QuizNotFound(fullname@),
        r matches Ok(p) ==> ends_with(p@, "_results.json"@),
{
    match file_name_of(fullname) {
        Some(short) => {
            let dir = get_results_dir_path(fullname);
            let file = results_file_name(short.as_str());
            let path = join_path(dir.as_str(), file.as_str());
            proof {
                let f = file@;
                let n = "_results.json"@;
                assert(f.subrange(f.len() - n.len(), f.len() as int) =~= n);
                let pv = path@;
                assert(pv.subrange(pv.len() - n.len(), pv.len() as int) =~= f.subrange(
                    f.len() - n.len(),
                    f.len() as int,
                ));
            }
            Ok(path)
        },
        None => Err(QuizError::QuizNotFound(String::from_str(fullname))),
    }
}

} // verus!
