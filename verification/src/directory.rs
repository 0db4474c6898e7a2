//! Directories as a root and the names below it.

use vstd::prelude::*;
use crate::codec;
use crate::path_text;
use crate::path_text::{native_path_components, path_starts_with_drive, PathStyle};
use crate::text;
use crate::text::{chars_of, join_parts};

verus! {

/// An absolute path, split into its root and the components below.
pub ghost struct DirectoryModel {
    pub root: Seq<char>,
    pub parts: Seq<Seq<char>>,
}

/// An absolute path starts with a slash; on Windows, with a drive and a slash or with two slashes,
/// a server and a share.
pub open spec fn absolute_path(path: Seq<char>, style: PathStyle) -> Option<DirectoryModel> {
    match style {
        PathStyle::Unix => if path.len() > 0 && path[0] == '/' {
            Some(
                DirectoryModel {
                    root: seq!['/'],
                    parts: path_text::native_components(path, style),
                },
            )
        } else {
            None
        },
        PathStyle::Windows => {
            let parts = path_text::native_components(path, style);
            if path_text::starts_with_drive(path, style) && path.len() > 2 && path_text::is_separator(
                path[2],
            ) {
                Some(DirectoryModel { root: path.take(2).push('/'), parts: parts.skip(1) })
            } else if path.len() > 1 && path_text::is_separator(path[0]) && path_text::is_separator(
                path[1],
            ) && parts.len() > 1 {
                Some(
                    DirectoryModel {
                        root: seq!['/', '/'] + parts[0].push('/') + parts[1].push('/'),
                        parts: parts.skip(2),
                    },
                )
            } else {
                None
            }
        },
    }
}

#[derive(Debug, Clone, PartialEq, Eq)]
pub struct Directory {
    pub root: String,
    pub parts: Vec<String>,
}

impl View for Directory {
    type V = DirectoryModel;

    open spec fn view(&self) -> DirectoryModel {
        DirectoryModel { root: self.root@, parts: text::texts(self.parts@) }
    }
}

pub open spec fn opt_directory(directory: Option<Directory>) -> Option<DirectoryModel> {
    match directory {
        Some(present) => Some(present@),
        None => None,
    }
}

/// The strings from `start` on.
fn strings_from(values: &Vec<String>, start: usize) -> (tail: Vec<String>)
    ensures
        start <= values.len() ==> text::texts(tail@) == text::texts(values@).skip(start as int),
{
    let mut tail: Vec<String> = Vec::new();
    let mut i: usize = start;
    let ghost all = text::texts(values@);
    proof {
        if start <= values.len() {
            assert(text::texts(tail@) =~= all.subrange(start as int, start as int));
        }
    }
    while i < values.len()
        invariant
            all == text::texts(values@),
            start <= values.len() ==> start <= i <= values.len() && text::texts(tail@)
                == all.subrange(start as int, i as int),
            start > values.len() ==> i >= values.len(),
        decreases values.len() - i,
    {
        let ghost before = tail@;
        tail.push(values[i].clone());
        proof {
            assert(text::texts(tail@) =~= text::texts(before).push(all[i as int]));
            assert(all.subrange(start as int, i + 1) =~= all.subrange(start as int, i as int).push(
                all[i as int],
            ));
        }
        i = i + 1;
    }
    proof {
        if start <= values.len() {
            assert(all.subrange(start as int, i as int) =~= all.skip(start as int));
        }
    }
    tail
}

/// On Windows a drive is the first component of its path.
proof fn lemma_drive_is_a_component(path: Seq<char>)
    requires
        path.len() > 2,
        path[1] == ':',
        path_text::is_separator(path[2]),
    ensures
        path_text::native_components(path, PathStyle::Windows).len() > 0,
{
    let front = path.take(2);
    let rest = path.skip(3);
    assert(path =~= front.push(path[2]) + rest);
    path_text::lemma_components_concat(front, path[2], rest, PathStyle::Windows);
    let style = PathStyle::Windows;
    let one = path.take(1);
    assert(front.drop_last() =~= one);
    assert(one.drop_last() =~= Seq::empty());
    let start = path_text::native_segments(Seq::<char>::empty(), style);
    assert(start =~= seq![Seq::<char>::empty()]);
    let a = path_text::native_segments(one, style);
    let b = path_text::native_segments(front, style);
    assert(a.len() > 0);
    assert(b == a.drop_last().push(a.last().push(':')));
    assert(path_text::names_entry(b.last())) by {
        assert(b.last().last() == ':');
        if b.last() == seq!['.'] {
            assert(b.last()[0] == '.');
        }
    }
    let keep = |segment: Seq<char>| path_text::names_entry(segment);
    a.drop_last().lemma_filter_push(a.last().push(':'), keep);
    assert(path_text::components(front).len() > 0);
}

pub fn split_absolute_path(path: &str, style: PathStyle) -> (r: Option<Directory>)
    ensures
        opt_directory(r) == absolute_path(path@, style),
        r is Some == path_text::is_absolute(path@, style),
{
    let chars: Vec<char> = chars_of(path);
    match style {
        PathStyle::Unix => {
            if chars.len() == 0 || chars[0] != '/' {
                return None;
            }
            let mut root: String = String::new();
            root.push('/');
            assert(root@ =~= seq!['/']);
            Some(Directory { root, parts: native_path_components(path, style) })
        },
        PathStyle::Windows => {
            let parts: Vec<String> = native_path_components(path, style);
            proof {
                assert(parts.len() == path_text::native_components(path@, style).len());
            }
            if path_starts_with_drive(path, style) && chars.len() > 2
                && path_text::metadata_path_byte_is_separator(chars[2]) {
                let mut root: String = String::new();
                root.push(chars[0]);
                root.push(chars[1]);
                root.push('/');
                proof {
                    assert(root@ =~= path@.take(2).push('/'));
                    lemma_drive_is_a_component(path@);
                }
                Some(Directory { root, parts: strings_from(&parts, 1) })
            } else if chars.len() > 1 && path_text::metadata_path_byte_is_separator(chars[0])
                && path_text::metadata_path_byte_is_separator(chars[1]) && parts.len() > 1 {
                let mut root: String = String::new();
                root.push('/');
                root.push('/');
                root.push_str(parts[0].as_str());
                root.push('/');
                root.push_str(parts[1].as_str());
                root.push('/');
                proof {
                    let all = text::texts(parts@);
                    assert(all[0] == parts@[0]@ && all[1] == parts@[1]@);
                    assert(root@ =~= seq!['/', '/'] + all[0].push('/') + all[1].push('/'));
                }
                Some(Directory { root, parts: strings_from(&parts, 2) })
            } else {
                None
            }
        },
    }
}

/// The path of an entry of a directory.
pub open spec fn child_text(directory: DirectoryModel, name: Seq<char>) -> Seq<char> {
    directory_text(DirectoryModel { root: directory.root, parts: directory.parts.push(name) })
}

pub open spec fn directory_text(directory: DirectoryModel) -> Seq<char> {
    directory.root + text::joined(directory.parts, '/')
}

pub open spec fn parent_directory(directory: DirectoryModel) -> Option<DirectoryModel> {
    if directory.parts.len() == 0 {
        None
    } else {
        Some(DirectoryModel { root: directory.root, parts: directory.parts.drop_last() })
    }
}

impl Directory {
    pub fn path_text(&self) -> (path: String)
        ensures
            path@ == directory_text(self@),
    {
        let mut path: String = self.root.clone();
        let tail: String = join_parts(&self.parts, '/');
        path.push_str(tail.as_str());
        path
    }

    /// The path of the entry `name` in the directory.
    pub fn child_path(&self, name: &str) -> (path: String)
        ensures
            path@ == child_text(self@, name@),
            self@.parts.len() == 0 ==> path@ == self@.root + name@,
            self@.parts.len() > 0 ==> path@ == directory_text(self@).push('/') + name@,
    {
        proof {
            lemma_child_text(self@, name@);
        }
        let mut path: String = self.path_text();
        let ghost parts = text::texts(self.parts@);
        let ghost before = path@;
        proof {
            text::lemma_joined_push(parts, name@, '/');
        }
        if self.parts.len() > 0 {
            path.push('/');
        }
        path.push_str(name);
        proof {
            if parts.len() == 0 {
                assert(text::joined(parts, '/') =~= Seq::empty());
            }
            assert(path@ =~= child_text(self@, name@));
        }
        path
    }

    /// Moves to the parent, where there is one.
    pub fn pop(&mut self) -> (moved: bool)
        ensures
            moved == (parent_directory(old(self)@) is Some),
            final(self)@ == if moved {
                parent_directory(old(self)@)->0
            } else {
                old(self)@
            },
    {
        if self.parts.len() == 0 {
            return false;
        }
        self.parts.pop();
        assert(text::texts(self.parts@) =~= text::texts(old(self).parts@).drop_last());
        true
    }
}

/// The directory of a path, where it names anything at all.
pub open spec fn directory_of(path: Seq<char>, style: PathStyle) -> Option<Seq<char>> {
    match absolute_path(path, style) {
        Some(file) => match parent_directory(file) {
            Some(directory) => Some(directory_text(directory)),
            None => None,
        },
        None => {
            let parts = path_text::native_components(path, style);
            if parts.len() == 0 {
                None
            } else {
                Some(text::joined(parts.drop_last(), '/'))
            }
        },
    }
}

pub fn path_directory(path: &str, style: PathStyle) -> (r: Option<String>)
    ensures
        codec::opt_text(r) == directory_of(path@, style),
{
    match split_absolute_path(path, style) {
        Some(file) => {
            let mut file: Directory = file;
            if file.pop() {
                Some(file.path_text())
            } else {
                None
            }
        },
        None => {
            let mut parts: Vec<String> = native_path_components(path, style);
            let ghost all = parts@;
            proof {
                assert(parts.len() == path_text::native_components(path@, style).len());
            }
            if parts.len() == 0 {
                return None;
            }
            parts.pop();
            assert(text::texts(parts@) =~= text::texts(all).drop_last());
            Some(join_parts(&parts, '/'))
        },
    }
}

/// A path splits exactly where it is absolute, into its root and its components: none is lost.
pub proof fn lemma_absolute_path(path: Seq<char>, style: PathStyle)
    ensures
        absolute_path(path, style) is Some == path_text::is_absolute(path, style),
        absolute_path(path, style) matches Some(found) ==> {
            let parts = path_text::native_components(path, style);
            &&& style is Unix ==> found.root == seq!['/'] && found.parts == parts
            &&& style is Windows && path_text::starts_with_drive(path, style) ==> found.root
                == path.take(2).push('/') && found.parts == parts.skip(1)
            &&& style is Windows && !path_text::starts_with_drive(path, style) ==> found.parts
                == parts.skip(2)
        },
{
}

/// The parent of a directory is where its last name leads back from: a child has the directory as its
/// parent, and the root has none.
pub proof fn lemma_parent_of_child(directory: DirectoryModel, name: Seq<char>)
    ensures
        parent_directory(
            DirectoryModel { root: directory.root, parts: directory.parts.push(name) },
        ) == Some(directory),
        parent_directory(directory) is None == (directory.parts.len() == 0),
        parent_directory(directory) matches Some(parent) ==> child_text(
            parent,
            directory.parts.last(),
        ) == directory_text(directory),
{
    let child = DirectoryModel { root: directory.root, parts: directory.parts.push(name) };
    assert(child.parts.drop_last() =~= directory.parts);
    if directory.parts.len() > 0 {
        assert(directory.parts.drop_last().push(directory.parts.last()) =~= directory.parts);
    }
}

/// The text of a child is the text of its directory, a slash where the directory is not the root, and
/// the name.
pub proof fn lemma_child_text(directory: DirectoryModel, name: Seq<char>)
    ensures
        directory.parts.len() == 0 ==> child_text(directory, name) == directory.root + name,
        directory.parts.len() > 0 ==> child_text(directory, name) == directory_text(directory).push(
            '/',
        ) + name,
{
    text::lemma_joined_push(directory.parts, name, '/');
    assert(child_text(directory, name) =~= if directory.parts.len() == 0 {
        directory.root + name
    } else {
        directory_text(directory).push('/') + name
    });
}

/// The directory of a path is the path without its last name, and a path without a name has none.
pub proof fn lemma_directory_of(path: Seq<char>, style: PathStyle)
    ensures
        match absolute_path(path, style) {
            Some(file) => match directory_of(path, style) {
                Some(directory) => file.parts.len() > 0 && directory_text(file) == if file.parts.len()
                    == 1 {
                    directory + file.parts.last()
                } else {
                    directory.push('/') + file.parts.last()
                },
                None => file.parts.len() == 0,
            },
            None => {
                let parts = path_text::native_components(path, style);
                match directory_of(path, style) {
                    Some(directory) => parts.len() > 0 && text::joined(parts, '/')
                        == if parts.len() == 1 {
                        directory + parts.last()
                    } else {
                        directory.push('/') + parts.last()
                    },
                    None => parts.len() == 0,
                }
            },
        },
{
    if let Some(file) = absolute_path(path, style) {
        lemma_parent_of_child(file, Seq::empty());
        if let Some(parent) = parent_directory(file) {
            lemma_child_text(parent, file.parts.last());
            assert(directory_text(parent) =~= parent.root + text::joined(parent.parts, '/'));
            if parent.parts.len() == 0 {
                assert(directory_text(parent) =~= parent.root);
            }
        }
    }
}

} // verus!
