//! Directory entries as the pipeline sees them: a path and the metadata
//! cached with it.
use crate::order::{bytes_lt, lex_lt};
use vstd::prelude::*;
use vstd::std_specs::iter::IteratorSpec;
use vstd::utf8::encode_utf8;

verus! {

/// One object of a directory listing: its full path, and the metadata that
/// the listing cached with it.
#[derive(Debug, PartialEq, Eq)]
pub struct DirectoryEntry {
    /// The full path, by which entries are ordered.
    pub path: String,
    /// The last component of the path, as shown in messages.
    pub file_name: String,
    /// The extension of the file name, if it has one.
    pub extension: Option<String>,
    /// Whether the entry is a directory.
    pub is_dir: bool,
}

/// What a [`DirectoryEntry`] holds, as plain mathematical values.
pub struct EntryView {
    pub path: Seq<char>,
    pub file_name: Seq<char>,
    pub extension: Option<Seq<char>>,
    pub is_dir: bool,
}

impl EntryView {
    /// The sort key: the bytes of the path. Entries are ranked by these in
    /// lexicographic order, which for the entries of one directory is the
    /// order of their file names.
    pub open spec fn key(self) -> Seq<u8> {
        encode_utf8(self.path)
    }

    /// The entry is a file whose extension is exactly `ext`.
    pub open spec fn is_file_with(self, ext: Seq<char>) -> bool {
        !self.is_dir && self.extension == Some(ext)
    }

    /// The extension under which the entry is counted: that of a file, none
    /// for a directory.
    pub open spec fn counted_extension(self) -> Option<Seq<char>> {
        if self.is_dir {
            None
        } else {
            self.extension
        }
    }
}

/// The characters of a string that may be absent.
pub open spec fn option_text(text: Option<String>) -> Option<Seq<char>> {
    match text {
        Some(s) => Some(s@),
        None => None,
    }
}

impl View for DirectoryEntry {
    type V = EntryView;

    open spec fn view(&self) -> EntryView {
        EntryView {
            path: self.path@,
            file_name: self.file_name@,
            extension: option_text(self.extension),
            is_dir: self.is_dir,
        }
    }
}

/// The views of the entries of a listing, in the listing's order.
pub open spec fn listing(entries: Seq<DirectoryEntry>) -> Seq<EntryView> {
    entries.map_values(|e: DirectoryEntry| e@)
}

/// The position of the last `.` in `name`, or `-1` where it holds none.
pub open spec fn last_dot(name: Seq<char>) -> int
    decreases name.len(),
{
    if name.len() == 0 {
        -1
    } else if name.last() == '.' {
        name.len() - 1
    } else {
        last_dot(name.drop_last())
    }
}

/// The extension of a file name: what follows its last `.`. A name without
/// a `.`, a name whose only `.` is its first character, and the name `..`
/// have none. A name that ends in `.` has the empty extension.
pub open spec fn extension_of(name: Seq<char>) -> Option<Seq<char>> {
    let d = last_dot(name);
    if d <= 0 || name == seq!['.', '.'] {
        None
    } else {
        Some(name.skip(d + 1))
    }
}

/// `last_dot` finds a `.` that no other follows.
pub proof fn lemma_last_dot(name: Seq<char>)
    ensures
        -1 <= last_dot(name) < name.len(),
        last_dot(name) >= 0 ==> name[last_dot(name)] == '.',
        forall|j: int| last_dot(name) < j < name.len() ==> name[j] != '.',
    decreases name.len(),
{
    if name.len() > 0 && name.last() != '.' {
        let rest = name.drop_last();
        lemma_last_dot(rest);
        assert forall|j: int| last_dot(name) < j < name.len() implies name[j] != '.' by {
            if j < rest.len() {
                assert(rest[j] == name[j]);
            }
        }
    }
}

/// The extension of a file name: what follows its last `.`, if the name has
/// a `.` behind its first character and is not `..`.
pub fn file_extension(name: &str) -> (r: Option<String>)
    ensures
        option_text(r) == extension_of(name@),
{
    let n: usize = name.unicode_len();
    let mut dot: Option<usize> = None;
    let mut dots: usize = 0;
    let mut i: usize = 0;
    for c in it: name.chars()
        invariant
            it.seq() == name@,
            i == it.index(),
            n == name@.len(),
            dots <= i,
            match dot {
                Some(d) => d == last_dot(name@.take(i as int)),
                None => last_dot(name@.take(i as int)) == -1,
            },
            dots == i <==> (forall|j: int| 0 <= j < i ==> name@[j] == '.'),
    {
        assert(name@.take(i + 1).drop_last() =~= name@.take(i as int));
        if c == '.' {
            dot = Some(i);
            dots += 1;
        }
        i += 1;
    }
    proof {
        assert(name@.take(i as int) =~= name@);
        lemma_last_dot(name@);
    }
    match dot {
        None => None,
        Some(d) => {
            if d == 0 || (n == 2 && dots == 2) {
                proof {
                    if n == 2 && dots == 2 {
                        assert(name@ =~= seq!['.', '.']);
                    }
                }
                None
            } else {
                proof {
                    if name@ == seq!['.', '.'] {
                        assert(name@[0] == '.' && name@[1] == '.');
                    }
                }
                let ext = name.substring_char(d + 1, n);
                Some(ext.to_owned())
            }
        },
    }
}

impl Clone for DirectoryEntry {
    fn clone(&self) -> (r: Self)
        ensures
            r@ == self@,
    {
        DirectoryEntry {
            path: self.path.clone(),
            file_name: self.file_name.clone(),
            extension: match &self.extension {
                Some(ext) => Some(ext.clone()),
                None => None,
            },
            is_dir: self.is_dir,
        }
    }
}

impl DirectoryEntry {
    /// An entry with the given path, file name and kind, its extension taken
    /// from the file name.
    pub fn new(path: String, file_name: String, is_dir: bool) -> (r: Self)
        ensures
            r@ == (EntryView {
                path: path@,
                file_name: file_name@,
                extension: extension_of(file_name@),
                is_dir,
            }),
    {
        let extension = file_extension(file_name.as_str());
        DirectoryEntry { path, file_name, extension, is_dir }
    }

    /// Whether the entry is a file whose extension is exactly `ext`; case
    /// counts.
    pub fn is_file_with(&self, ext: &String) -> (r: bool)
        ensures
            r == self@.is_file_with(ext@),
    {
        match &self.extension {
            Some(own) => !self.is_dir && *own == *ext,
            None => false,
        }
    }

    /// Whether the path of this entry comes strictly before that of `other`.
    pub fn path_before(&self, other: &DirectoryEntry) -> (r: bool)
        ensures
            r == lex_lt(self@.key(), other@.key()),
    {
        bytes_lt(self.path.as_str().as_bytes(), other.path.as_str().as_bytes())
    }
}

} // verus!
