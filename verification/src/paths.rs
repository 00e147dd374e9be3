//! File names under directories. Paths are held as text.

use vstd::prelude::*;

use crate::text;

verus! {

/// A single file name: not empty, and free of the marks that separate path
/// components or drives on any platform.
pub open spec fn plain_name(name: Seq<char>) -> bool {
    &&& name.len() > 0
    &&& forall|i: int|
        0 <= i < name.len() ==> #[trigger] name[i] != '/' && name[i] != '\\' && name[i] != ':'
}

/// A Windows path that is taken literally (`\\?\...`).
pub open spec fn literal_path(dir: Seq<char>) -> bool {
    text::begins(dir, seq!['\\', '\\', '?', '\\'])
}

/// `path` is `name` under `dir`. Nothing stands between the two where `dir` is
/// empty or ends in a slash. Else it is `/` or `\`, as the platform has it; on
/// Windows nothing is added behind a backslash or a drive. A literal Windows
/// path is rebuilt from its components, so only its end is fixed.
pub open spec fn is_under(path: Seq<char>, dir: Seq<char>, name: Seq<char>) -> bool {
    if literal_path(dir) {
        name != "."@ && name != ".."@ ==> text::finishes(path, name)
    } else if dir.len() == 0 || dir.last() == '/' {
        path == dir + name
    } else {
        ||| path == dir.push('/') + name
        ||| path == dir.push('\\') + name
        ||| (dir.last() == '\\' || dir.last() == ':') && path == dir + name
    }
}

/// A path under a directory ends in its name.
pub proof fn path_ends_in_its_name(path: Seq<char>, dir: Seq<char>, name: Seq<char>)
    requires
        is_under(path, dir, name),
        name != "."@,
        name != ".."@,
    ensures
        text::finishes(path, name),
{
    if !literal_path(dir) {
        assert((dir + name).skip(dir.len() as int) =~= name);
        assert((dir.push('/') + name).skip(dir.len() as int + 1) =~= name);
        assert((dir.push('\\') + name).skip(dir.len() as int + 1) =~= name);
    }
}

/// `path` is `name` under `dir`, where `name` is a plain file name.
pub open spec fn is_joined(path: Seq<char>, dir: Seq<char>, name: Seq<char>) -> bool {
    plain_name(name) ==> is_under(path, dir, name)
}

/// `Path::join`: a plain file name goes under `dir`, after a separator where
/// `dir` does not end in one. Nothing is said of a name that is a path itself.
#[verifier::external_body]
pub(crate) fn join(dir: &str, name: &str) -> (out: String)
    ensures
        is_joined(out@, dir@, name@),
{
    std::path::Path::new(dir).join(name).to_string_lossy().into_owned()
}

/// What stands behind the last slash, or all where there is none.
pub open spec fn after_slash(path: Seq<char>) -> Seq<char>
    decreases path.len(),
{
    if path.len() == 0 || path.last() == '/' {
        seq![]
    } else {
        after_slash(path.drop_last()).push(path.last())
    }
}

/// Marks that separate the components of a path on some platform.
pub open spec fn is_separator(c: char) -> bool {
    c == '/' || c == '\\'
}

/// A path that begins with two separators. On Windows such a path may name a
/// share or a device rather than a file.
pub open spec fn leads_to_a_share(path: Seq<char>) -> bool {
    path.len() >= 2 && is_separator(path[0]) && is_separator(path[1])
}

/// Whether a path ends, behind its last slash, in a plain file name.
pub open spec fn ends_in_name(path: Seq<char>) -> bool {
    let name = after_slash(path);
    plain_name(name) && name != "."@ && name != ".."@ && !leads_to_a_share(path)
}

/// `Path::file_name`: the last component of a path, where that is a file name.
/// A slash separates components on every platform. A file name is never empty,
/// and it is a part of the path. Which part it is, is left unsaid of a path that
/// ends otherwise than in a plain name behind a slash, or that begins with two
/// separators: there it depends on the platform.
#[verifier::external_body]
pub(crate) fn file_name(path: &str) -> (r: Option<String>)
    ensures
        ends_in_name(path@) ==> r is Some && r->0@ == after_slash(path@),
        r is Some ==> r->0@.len() > 0 && text::holds(path@, r->0@),
{
    std::path::Path::new(path).file_name().map(|f| f.to_string_lossy().into_owned())
}

/// The text behind the last dot is `ext`: it is not empty, holds no separator,
/// and a file name begins in front of the dot.
pub open spec fn has_extension(path: Seq<char>, ext: Seq<char>) -> bool {
    let dot = path.len() - ext.len() - 1;
    &&& plain_name(ext)
    &&& !ext.contains('.')
    &&& dot > 0
    &&& path[dot] == '.'
    &&& path.skip(dot + 1) == ext
    &&& !is_separator(path[dot - 1])
    &&& path[dot - 1] != ':'
    &&& !leads_to_a_share(path)
}

/// `Path::extension`: the part of the file name behind its last dot, where the
/// name does not begin with that dot. There is none in a path without a dot.
/// What comes of a path that ends otherwise than in a file name and an
/// extension is left unsaid: there it depends on the platform.
#[verifier::external_body]
pub(crate) fn extension(path: &str) -> (r: Option<String>)
    ensures
        forall|ext: Seq<char>| #[trigger]
            has_extension(path@, ext) ==> r is Some && r->0@ == ext,
        !path@.contains('.') ==> r is None,
{
    std::path::Path::new(path).extension().map(|e| e.to_string_lossy().into_owned())
}

/// `out` is `path` with another extension: instead of the one it has, or behind
/// a dot where its file name has no dot.
pub open spec fn replaces_extension(out: Seq<char>, path: Seq<char>, ext: Seq<char>) -> bool {
    &&& forall|had: Seq<char>| #[trigger]
        has_extension(path, had) ==> out == path.take(path.len() - had.len()) + ext
    &&& ends_in_name(path) && !after_slash(path).contains('.') ==> out == path.push('.') + ext
}

/// `Path::with_extension`: the extension of the file name is replaced, and one
/// is added where there is none. An extension may not hold a separator. What
/// comes of a path that ends otherwise than in a file name is left unsaid:
/// there it depends on the platform.
#[verifier::external_body]
pub(crate) fn with_extension(path: &str, extension: &str) -> (out: String)
    requires
        plain_name(extension@),
    ensures
        replaces_extension(out@, path@, extension@),
{
    std::path::Path::new(path).with_extension(extension).to_string_lossy().into_owned()
}

} // verus!
