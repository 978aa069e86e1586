//! Paths of tables, partitions and data files.

use vstd::prelude::*;
use vstd::string::*;

use crate::text::{chars_of, has_prefix, last_position, law_beginnings_and_ends, law_trim_end};
use crate::text::{law_trim_start, lemma_last_position, strip_prefix_text, trim_end, trim_end_char};
use crate::text::{trim_start, trim_start_char};

verus! {

/// Whether a name marks what committers and tools leave beside the data: it starts with a dot
/// or an underscore.
pub open spec fn is_hidden_name(name: Seq<char>) -> bool {
    name.len() > 0 && (name[0] == '.' || name[0] == '_')
}

/// Whether a file of this name can hold data of a format table.
pub open spec fn is_data_file_name(name: Seq<char>) -> bool {
    name.len() > 0 && !is_hidden_name(name)
}

/// The directory and the name of the file at `path`, where `path` names a directory at all.
/// Slashes at the end of `path` do not count.
pub open spec fn parent_and_file(path: Seq<char>) -> Option<(Seq<char>, Seq<char>)> {
    let trimmed = trim_end(path, '/');
    let slash = last_position(trimmed, '/');
    if slash < 0 {
        None
    } else {
        Some((trimmed.take(slash), trimmed.skip(slash + 1)))
    }
}

/// `child` below `parent`, with one slash between them.
pub open spec fn path_below(parent: Seq<char>, child: Seq<char>) -> Seq<char> {
    let parent = trim_end(parent, '/');
    let child = trim_end(trim_start(child, '/'), '/');
    if child.len() == 0 {
        parent
    } else {
        parent + seq!['/'] + child
    }
}

/// Whether `path` is a directory or lies below it. `/t_x` does not lie in `/t`.
pub open spec fn lies_in(path: Seq<char>, directory: Seq<char>) -> bool {
    path == directory || has_prefix(path, directory + seq!['/'])
}

/// Whether `path` is a directory or lies below it.
pub(crate) fn lies_in_directory(path: &str, directory: &str) -> (r: bool)
    ensures
        r == lies_in(path@, directory@),
{
    let ghost below = directory@ + seq!['/'];
    match strip_prefix_text(path, directory) {
        None => {
            proof {
                if has_prefix(path@, below) {
                    assert(path@.take(directory@.len() as int) =~= path@.take(
                        below.len() as int,
                    ).take(directory@.len() as int));
                    assert(below.take(directory@.len() as int) =~= directory@);
                }
                assert(directory@.take(directory@.len() as int) =~= directory@);
            }
            false
        },
        Some(rest) => {
            if rest.is_empty() {
                assert(path@ =~= path@.take(directory@.len() as int));
                return true;
            }
            let first = rest.get_char(0);
            proof {
                assert(first == path@[directory@.len() as int]);
                if first == '/' {
                    assert forall|i: int| 0 <= i < below.len() implies path@[i] == below[i] by {
                        if i < directory@.len() {
                            assert(path@[i] == path@.take(directory@.len() as int)[i]);
                        }
                    }
                    assert(path@.take(below.len() as int) =~= below);
                } else if has_prefix(path@, below) {
                    assert(path@.take(below.len() as int)[directory@.len() as int] == '/');
                }
            }
            first == '/'
        },
    }
}

/// Whether `name` starts with a dot or an underscore.
pub(crate) fn is_hidden(name: &str) -> (r: bool)
    ensures
        r == is_hidden_name(name@),
{
    if name.is_empty() {
        return false;
    }
    let first = name.get_char(0);
    first == '.' || first == '_'
}

/// Whether a file of this name can hold data: the name is not empty and starts with neither a
/// dot nor an underscore.
pub fn is_format_table_data_file_name(file_name: &str) -> (r: bool)
    ensures
        r == is_data_file_name(file_name@),
{
    !file_name.is_empty() && !is_hidden(file_name)
}

/// Splits a path into the directory and the file name; `None` where the path has no slash
/// before its end.
pub fn split_parent_and_file<'a>(path: &'a str) -> (r: Option<(&'a str, &'a str)>)
    ensures
        match r {
            Some(parts) => parent_and_file(path@) == Some((parts.0@, parts.1@)),
            None => parent_and_file(path@) is None,
        },
{
    let trimmed = trim_end_char(path, '/');
    let chars = chars_of(trimmed);
    let mut i: usize = chars.len();
    assert(trimmed@.take(trimmed@.len() as int) == trimmed@);
    while i > 0
        invariant
            0 <= i <= chars@.len(),
            chars@ == trimmed@,
            trimmed@ == trim_end(path@, '/'),
            last_position(trimmed@, '/') == last_position(trimmed@.take(i as int), '/'),
        decreases i,
    {
        if chars[i - 1] == '/' {
            let parent = trimmed.substring_char(0, i - 1);
            let file = trimmed.substring_char(i, chars.len());
            assert(parent@ == trimmed@.take(i - 1));
            assert(file@ == trimmed@.skip(i as int));
            return Some((parent, file));
        }
        assert(trimmed@.take(i as int).drop_last() == trimmed@.take(i - 1));
        i = i - 1;
    }
    None
}

/// Puts `child` below `parent`: one slash between the two, none at the end; an empty child is
/// the parent itself.
pub fn join_path(parent: &str, child: &str) -> (r: String)
    ensures
        r@ == path_below(parent@, child@),
{
    let parent = trim_end_char(parent, '/');
    let child = trim_end_char(trim_start_char(child, '/'), '/');
    let mut r = parent.to_string();
    if !child.is_empty() {
        r.push('/');
        r.append(child);
        assert(r@ == parent@ + seq!['/'] + child@);
    }
    r
}

/// The directory and the file name, put together again, are the path without the slashes at its
/// end.
pub proof fn law_split_path_is_the_path(path: Seq<char>)
    ensures
        parent_and_file(path) matches Some(parts) ==> {
            &&& parts.0 + seq!['/'] + parts.1 == trim_end(path, '/')
            &&& !parts.1.contains('/')
        },
        parent_and_file(path) is None ==> !trim_end(path, '/').contains('/'),
{
    let trimmed = trim_end(path, '/');
    let slash = last_position(trimmed, '/');
    lemma_last_position(trimmed, '/');
    if slash >= 0 {
        let file = trimmed.skip(slash + 1);
        assert(trimmed.take(slash) + seq!['/'] + file == trimmed);
        assert forall|i: int| 0 <= i < file.len() implies file[i] != '/' by {
            assert(file[i] == trimmed[slash + 1 + i]);
        }
    }
}

/// A file that is put below a directory is found there, under its name.
pub proof fn law_file_below_is_found(directory: Seq<char>, name: Seq<char>)
    requires
        name.len() > 0,
        !name.contains('/'),
    ensures
        parent_and_file(path_below(directory, name)) == Some((trim_end(directory, '/'), name)),
{
    let parent = trim_end(directory, '/');
    assert(name.contains(name.first()));
    assert(name.contains(name.last()));
    assert(trim_start(name, '/') == name);
    assert(trim_end(name, '/') == name);
    let path = parent + seq!['/'] + name;
    assert(path.last() == name.last());
    assert(trim_end(path, '/') == path);
    let slash = parent.len() as int;
    assert forall|i: int| slash < i < path.len() implies path[i] != '/' by {
        assert(path[i] == name[i - slash - 1]);
        assert(name.contains(name[i - slash - 1]));
    }
    assert(path[slash] == '/');
    lemma_last_position(path, '/');
    assert(path.take(slash) =~= parent);
    assert(path.skip(slash + 1) =~= name);
}

/// A name can be that of a data file exactly where it is not empty and starts with neither a dot
/// nor an underscore.
pub proof fn law_data_file_names(name: Seq<char>)
    ensures
        is_data_file_name(name) <==> name.len() > 0 && name[0] != '.' && name[0] != '_',
{
}

/// Between a directory and what is put below it stands one slash, however many the two had there,
/// and there is none at the end.
pub proof fn law_one_slash_between(
    directory: Seq<char>,
    child: Seq<char>,
    slashes: nat,
    before: nat,
    behind: nat,
)
    requires
        directory.len() == 0 || directory.last() != '/',
        child.len() > 0,
        child.first() != '/',
        child.last() != '/',
    ensures
        path_below(
            directory + Seq::new(slashes, |i: int| '/'),
            Seq::new(before, |i: int| '/') + child + Seq::new(behind, |i: int| '/'),
        ) == directory + seq!['/'] + child,
        path_below(
            directory + Seq::new(slashes, |i: int| '/'),
            Seq::new(before, |i: int| '/'),
        ) == directory,
{
    law_trim_end(directory, '/', slashes);
    let tail = child + Seq::new(behind, |i: int| '/');
    assert(Seq::new(before, |i: int| '/') + child + Seq::new(behind, |i: int| '/') =~= Seq::new(
        before,
        |i: int| '/',
    ) + tail);
    assert(tail.first() == child.first());
    law_trim_start(tail, '/', before);
    law_trim_end(child, '/', behind);
    let none = Seq::<char>::empty();
    assert(Seq::new(before, |i: int| '/') + none =~= Seq::new(before, |i: int| '/'));
    law_trim_start(none, '/', before);
}

/// A path lies in a directory exactly where it is the directory, or goes on behind it with a slash.
pub proof fn law_lying_in_a_directory(path: Seq<char>, directory: Seq<char>)
    ensures
        lies_in(path, directory) <==> path == directory || exists|rest: Seq<char>|
            path == #[trigger] (directory + seq!['/'] + rest),
{
    law_beginnings_and_ends(path, directory + seq!['/']);
}

} // verus!
