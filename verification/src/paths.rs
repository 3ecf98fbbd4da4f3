//! File system paths as text, as they are on Unix: a slash stands between the
//! components, and an absolute path begins with one.
use std::path::Path;

use vstd::prelude::*;
use crate::text;

verus! {

/// The name of what `Path::parent` gives for a path.
pub uninterp spec fn parent_of(path: Seq<char>) -> Option<Seq<char>>;

/// `std::path::Path::parent`: the path without its last component, or nothing
/// where the path is empty or ends in a root. The result is a function of the
/// path alone.
#[verifier::external_body]
pub(crate) fn parent(path: &str) -> (r: Option<String>)
    ensures
        text::option_view(r) == parent_of(path@),
{
    Path::new(path).parent().map(|p| p.to_string_lossy().to_string())
}

/// The name of what `Path::file_name` gives for a path.
pub uninterp spec fn file_name_of(path: Seq<char>) -> Option<Seq<char>>;

/// `std::path::Path::file_name`: the last component of the path, where it is a
/// normal one. The result is a function of the path alone.
#[verifier::external_body]
pub(crate) fn file_name(path: &str) -> (r: Option<String>)
    ensures
        text::option_view(r) == file_name_of(path@),
{
    Path::new(path).file_name().map(|p| p.to_string_lossy().to_string())
}

/// The name of what `Path::with_file_name` gives for a path and a name.
pub uninterp spec fn with_file_name_of(path: Seq<char>, name: Seq<char>) -> Seq<char>;

/// `std::path::Path::with_file_name`: the path with its last component
/// replaced. The result is a function of the path and the name alone.
#[verifier::external_body]
pub(crate) fn with_file_name(path: &str, name: &str) -> (r: String)
    ensures
        r@ == with_file_name_of(path@, name@),
{
    Path::new(path).with_file_name(name).to_string_lossy().to_string()
}

/// The path that `relative` leads to from `base`: an absolute path leads to
/// itself; any other is added behind one slash.
pub open spec fn joined(base: Seq<char>, relative: Seq<char>) -> Seq<char> {
    if relative.len() > 0 && relative[0] == '/' {
        relative
    } else if base.len() == 0 || base.last() == '/' {
        base + relative
    } else {
        base + seq!['/'] + relative
    }
}

/// The path that `relative` leads to from `base`.
pub fn join(base: &str, relative: &str) -> (r: String)
    ensures
        r@ == joined(base@, relative@),
{
    let b = text::chars_of(base);
    let tail = text::chars_of(relative);
    if tail.len() > 0 && tail[0] == '/' {
        return text::copy_str(relative);
    }
    let mut out = text::chars_of(base);
    if b.len() > 0 && b[b.len() - 1] != '/' {
        out.push('/');
        assert(out@ =~= base@ + seq!['/']);
    }
    text::extend(&mut out, &tail);
    text::string_of(&out)
}

/// From a directory a relative path leads to what stands below it, with one
/// slash between the two; an absolute path leads to itself.
pub proof fn law_join_is_below(dir: Seq<char>, relative: Seq<char>)
    requires
        relative.len() > 0,
    ensures
        relative[0] == '/' ==> joined(dir, relative) == relative,
        relative[0] != '/' ==> joined(dir.push('/'), relative) == dir.push('/') + relative,
        relative[0] != '/' && dir.len() > 0 && dir.last() != '/' ==> joined(dir, relative)
            == dir.push('/') + relative,
        relative[0] != '/' && dir.len() == 0 ==> joined(dir, relative) == relative,
{
    assert(dir.push('/') =~= dir + seq!['/']);
    if dir.len() == 0 {
        assert(dir + relative =~= relative);
    }
}

} // verus!
