//! Files on the clipboard, and the entries that were cut and not yet pasted.

use crate::paths::{
    components, file_name_of, is_absolute, is_same_path, parent_of, path_file_name, path_parent,
    same_path,
};
use crate::text::{holds_text, same_text};
use vstd::prelude::*;

verus! {

/// Files on the clipboard.
#[derive(Debug, PartialEq, Eq)]
pub struct FileClipboard {
    pub paths: Vec<String>,
    pub cut: bool,
}

/// The entries that were cut, by directory and name. A directory is the same
/// whichever way its path is written.
#[derive(Debug, PartialEq, Eq)]
pub struct CutMarks {
    pub marks: Vec<(String, String)>,
    /// Changes whenever the marks do.
    pub generation: u64,
}

/// Whether one of `paths` is the entry `name` of `dir`.
pub open spec fn is_among(paths: Seq<String>, dir: Seq<char>, name: Seq<char>) -> bool {
    exists|i: int| 0 <= i < paths.len() && is_entry(#[trigger] paths[i], dir, name)
}

pub open spec fn is_entry(path: String, dir: Seq<char>, name: Seq<char>) -> bool {
    &&& path_parent(path@) is Some
    &&& same_path(path_parent(path@)->0, dir)
    &&& path_file_name(path@) == Some(name)
}

pub open spec fn mark_of(mark: (String, String), dir: Seq<char>, name: Seq<char>) -> bool {
    same_path(mark.0@, dir) && mark.1@ == name
}

impl CutMarks {
    /// Whether the entry `name` of `dir` is marked.
    pub open spec fn marked(self, dir: Seq<char>, name: Seq<char>) -> bool {
        exists|i: int| 0 <= i < self.marks@.len() && mark_of(#[trigger] self.marks@[i], dir, name)
    }

    /// Whether no entry is marked twice.
    pub open spec fn wf(self) -> bool {
        forall|i: int, j: int|
            0 <= i < j < self.marks@.len() ==> !(same_path(
                (#[trigger] self.marks@[i]).0@,
                (#[trigger] self.marks@[j]).0@,
            ) && self.marks@[i].1@ == self.marks@[j].1@)
    }

    pub fn new() -> (marks: Self)
        ensures
            marks.wf(),
            marks.generation == 0,
            marks.marks@.len() == 0,
    {
        CutMarks { marks: Vec::new(), generation: 0 }
    }

    /// Whether the entry `name` of `dir` is marked.
    pub fn is_marked(&self, dir: &str, name: &str) -> (m: bool)
        ensures
            m == self.marked(dir@, name@),
    {
        let mut i: usize = 0;
        while i < self.marks.len()
            invariant
                i <= self.marks@.len(),
                forall|j: int| 0 <= j < i ==> !mark_of(#[trigger] self.marks@[j], dir@, name@),
            decreases self.marks@.len() - i,
        {
            if is_same_path(self.marks[i].0.as_str(), dir) && same_text(
                self.marks[i].1.as_str(),
                name,
            ) {
                assert(mark_of(self.marks@[i as int], dir@, name@));
                return true;
            }
            i = i + 1;
        }
        false
    }

    /// Marks the entry `name` of `dir`.
    pub fn mark(&mut self, dir: String, name: String)
        requires
            old(self).wf(),
        ensures
            final(self).wf(),
            final(self).generation == old(self).generation,
            forall|d: Seq<char>, n: Seq<char>|
                #![trigger final(self).marked(d, n)]
                final(self).marked(d, n) <==> old(self).marked(d, n) || (same_path(dir@, d) && n
                    == name@),
    {
        let ghost before = *self;
        let ghost d = dir@;
        let ghost n = name@;
        if self.is_marked(dir.as_str(), name.as_str()) {
            return;
        }
        self.marks.push((dir, name));
        proof {
            assert forall|dir: Seq<char>, name: Seq<char>| #[trigger] self.marked(dir, name)
                <==> before.marked(dir, name) || (same_path(d, dir) && name == n) by {
                if self.marked(dir, name) {
                    let k = choose|k: int|
                        0 <= k < self.marks@.len() && mark_of(#[trigger] self.marks@[k], dir, name);
                    if k < before.marks@.len() {
                        assert(mark_of(before.marks@[k], dir, name));
                    }
                }
                if before.marked(dir, name) {
                    let k = choose|k: int|
                        0 <= k < before.marks@.len() && mark_of(
                            #[trigger] before.marks@[k],
                            dir,
                            name,
                        );
                    assert(mark_of(self.marks@[k], dir, name));
                }
                if same_path(d, dir) && name == n {
                    assert(mark_of(self.marks@[before.marks@.len() as int], dir, name));
                }
            }
            assert forall|a: int, b: int| 0 <= a < b < self.marks@.len() implies !(same_path(
                (#[trigger] self.marks@[a]).0@,
                (#[trigger] self.marks@[b]).0@,
            ) && self.marks@[a].1@ == self.marks@[b].1@) by {
                if b < before.marks@.len() {
                    assert(before.marks@[a] == self.marks@[a]);
                    assert(before.marks@[b] == self.marks@[b]);
                } else {
                    assert(!mark_of(before.marks@[a], d, n));
                }
            }
        }
    }

    /// Replaces the marks by those of `paths` where they were cut; else there
    /// are none.
    pub fn set(&mut self, paths: &Vec<String>, cut: bool)
        requires
            old(self).generation < u64::MAX,
        ensures
            final(self).wf(),
            final(self).generation == old(self).generation + 1,
            forall|dir: Seq<char>, name: Seq<char>|
                #![trigger final(self).marked(dir, name)]
                final(self).marked(dir, name) <==> cut && is_among(paths@, dir, name),
    {
        let mut fresh = CutMarks { marks: Vec::new(), generation: self.generation + 1 };
        let mut i: usize = 0;
        if cut {
            while i < paths.len()
                invariant
                    i <= paths@.len(),
                    fresh.wf(),
                    fresh.generation == old(self).generation + 1,
                    forall|dir: Seq<char>, name: Seq<char>|
                        #![trigger fresh.marked(dir, name)]
                        fresh.marked(dir, name) <==> is_among(paths@.take(i as int), dir, name),
                decreases paths@.len() - i,
            {
                let ghost seen = paths@.take(i as int);
                let ghost now = paths@.take(i + 1);
                let path = paths[i].as_str();
                let parent = parent_of(path);
                let file_name = file_name_of(path);
                proof {
                    assert forall|dir: Seq<char>, name: Seq<char>| is_among(now, dir, name)
                        <==> is_among(seen, dir, name) || is_entry(
                        paths@[i as int],
                        dir,
                        name,
                    ) by {
                        if is_among(now, dir, name) {
                            let k = choose|k: int|
                                0 <= k < now.len() && is_entry(#[trigger] now[k], dir, name);
                            if k < seen.len() {
                                assert(is_entry(seen[k], dir, name));
                            }
                        }
                        if is_among(seen, dir, name) {
                            let k = choose|k: int|
                                0 <= k < seen.len() && is_entry(#[trigger] seen[k], dir, name);
                            assert(is_entry(now[k], dir, name));
                        }
                        if is_entry(paths@[i as int], dir, name) {
                            assert(is_entry(now[i as int], dir, name));
                        }
                    }
                }
                if let (Some(dir), Some(name)) = (parent, file_name) {
                    fresh.mark(dir, name);
                }
                i = i + 1;
            }
            assert(paths@.take(i as int) =~= paths@);
        }
        *self = fresh;
    }

    /// Takes all marks away.
    pub fn clear(&mut self)
        requires
            old(self).wf(),
            old(self).generation < u64::MAX,
        ensures
            final(self).wf(),
            final(self).marks@.len() == 0,
            final(self).generation == (if old(self).marks@.len() > 0 {
                old(self).generation + 1
            } else {
                old(self).generation as int
            }),
    {
        if self.marks.len() > 0 {
            self.marks = Vec::new();
            self.generation = self.generation + 1;
        }
    }

    /// The names that are marked in `dir`, each once; `None` where none is.
    pub fn names_for(&self, dir: &str) -> (names: Option<Vec<String>>)
        requires
            self.wf(),
        ensures
            match names {
                Some(v) => {
                    &&& v@.len() > 0
                    &&& each_once(v@)
                    &&& forall|name: Seq<char>|
                        #![trigger self.marked(dir@, name)]
                        self.marked(dir@, name) <==> holds_text(v@, name)
                },
                None => forall|name: Seq<char>| !(#[trigger] self.marked(dir@, name)),
            },
    {
        let mut names: Vec<String> = Vec::new();
        let mut i: usize = 0;
        while i < self.marks.len()
            invariant
                i <= self.marks@.len(),
                self.wf(),
                each_once(names@),
                forall|name: Seq<char>|
                    #![trigger holds_text(names@, name)]
                    holds_text(names@, name) <==> exists|j: int|
                        0 <= j < i && mark_of(#[trigger] self.marks@[j], dir@, name),
            decreases self.marks@.len() - i,
        {
            let ghost before = names@;
            if is_same_path(self.marks[i].0.as_str(), dir) {
                names.push(self.marks[i].1.clone());
                proof {
                    assert(!holds_text(before, self.marks@[i as int].1@)) by {
                        if holds_text(before, self.marks@[i as int].1@) {
                            let j = choose|j: int|
                                0 <= j < i && mark_of(
                                    #[trigger] self.marks@[j],
                                    dir@,
                                    self.marks@[i as int].1@,
                                );
                            assert(same_path(self.marks@[j].0@, self.marks@[i as int].0@));
                        }
                    }
                    assert(each_once(names@)) by {
                        assert forall|a: int, b: int| 0 <= a < b < names@.len() implies (
                        #[trigger] names@[a])@ != (#[trigger] names@[b])@ by {
                            assert(before[a] == names@[a]);
                            if b < before.len() {
                                assert(before[b] == names@[b]);
                            }
                        }
                    }
                    assert forall|name: Seq<char>| #[trigger] holds_text(names@, name)
                        <==> holds_text(before, name) || name == self.marks@[i as int].1@ by {
                        if holds_text(names@, name) {
                            let k = choose|k: int|
                                0 <= k < names@.len() && (#[trigger] names@[k])@ == name;
                            if k < before.len() {
                                assert(before[k]@ == name);
                            }
                        }
                        if holds_text(before, name) {
                            let k = choose|k: int|
                                0 <= k < before.len() && (#[trigger] before[k])@ == name;
                            assert(names@[k]@ == name);
                        }
                        if name == self.marks@[i as int].1@ {
                            assert(names@[before.len() as int]@ == name);
                        }
                    }
                    assert(mark_of(self.marks@[i as int], dir@, self.marks@[i as int].1@));
                }
            }
            i = i + 1;
        }
        if names.len() == 0 {
            proof {
                assert forall|name: Seq<char>| !(#[trigger] self.marked(dir@, name)) by {
                    assert(!holds_text(names@, name));
                }
            }
            return None;
        }
        proof {
            assert forall|name: Seq<char>| #[trigger] self.marked(dir@, name) <==> holds_text(
                names@,
                name,
            ) by {}
        }
        Some(names)
    }
}

/// Whether no two of `strings` hold the same text.
pub open spec fn each_once(strings: Seq<String>) -> bool {
    forall|a: int, b: int|
        0 <= a < b < strings.len() ==> (#[trigger] strings[a])@ != (#[trigger] strings[b])@
}

/// Copying or cutting files: what goes on the clipboard, with the marks of what
/// was cut.
pub fn write_files(marks: &mut CutMarks, paths: Vec<String>, cut: bool) -> (files: FileClipboard)
    requires
        old(marks).generation < u64::MAX,
    ensures
        files == (FileClipboard { paths, cut }),
        final(marks).wf(),
        final(marks).generation == old(marks).generation + 1,
        forall|dir: Seq<char>, name: Seq<char>|
            #![trigger final(marks).marked(dir, name)]
            final(marks).marked(dir, name) <==> cut && is_among(paths@, dir, name),
{
    marks.set(&paths, cut);
    FileClipboard { paths, cut }
}

/// The files on the clipboard: what its file formats hold, where it offers
/// any that can be read; else the paths that its text lists, as a copy.
pub fn read_files(decoded: Option<FileClipboard>, plain_paths: Vec<String>) -> (files: Option<
    FileClipboard,
>)
    ensures
        files == (match decoded {
            Some(files) => Some(files),
            None => if plain_paths@.len() > 0 {
                Some(FileClipboard { paths: plain_paths, cut: false })
            } else {
                None
            },
        }),
{
    match decoded {
        Some(files) => Some(files),
        None => if plain_paths.len() > 0 {
            Some(FileClipboard { paths: plain_paths, cut: false })
        } else {
            None
        },
    }
}

/// A mark is of one entry: of its name, in its directory however that is
/// written. No entry of another name, and none of another directory, is marked
/// by it.
pub proof fn lemma_mark_is_of_one_entry(
    mark: (String, String),
    dir: Seq<char>,
    name: Seq<char>,
    other_dir: Seq<char>,
    other_name: Seq<char>,
)
    requires
        mark_of(mark, dir, name),
    ensures
        mark.1@ == name,
        components(mark.0@) == components(dir),
        mark_of(mark, other_dir, other_name) <==> other_name == name && components(other_dir)
            == components(dir) && is_absolute(other_dir) == is_absolute(dir),
{
}

/// An entry is among some paths exactly where one of them has its name, and a
/// parent that is its directory.
pub proof fn lemma_among_paths(paths: Seq<String>, dir: Seq<char>, name: Seq<char>)
    ensures
        is_among(paths, dir, name) <==> exists|i: int|
            {
                &&& 0 <= i < paths.len()
                &&& path_file_name((#[trigger] paths[i])@) == Some(name)
                &&& path_parent(paths[i]@) is Some
                &&& components(path_parent(paths[i]@)->0) == components(dir)
                &&& is_absolute(path_parent(paths[i]@)->0) == is_absolute(dir)
            },
{
    if is_among(paths, dir, name) {
        let i = choose|i: int| 0 <= i < paths.len() && is_entry(#[trigger] paths[i], dir, name);
        assert(path_file_name(paths[i]@) == Some(name));
    }
    if exists|i: int|
        {
            &&& 0 <= i < paths.len()
            &&& path_file_name((#[trigger] paths[i])@) == Some(name)
            &&& path_parent(paths[i]@) is Some
            &&& components(path_parent(paths[i]@)->0) == components(dir)
            &&& is_absolute(path_parent(paths[i]@)->0) == is_absolute(dir)
        } {
        let i = choose|i: int|
            {
                &&& 0 <= i < paths.len()
                &&& path_file_name((#[trigger] paths[i])@) == Some(name)
                &&& path_parent(paths[i]@) is Some
                &&& components(path_parent(paths[i]@)->0) == components(dir)
                &&& is_absolute(path_parent(paths[i]@)->0) == is_absolute(dir)
            };
        assert(is_entry(paths[i], dir, name));
    }
}

/// How a directory is written does not matter to what is marked in it.
pub proof fn lemma_marks_of_one_directory(
    marks: CutMarks,
    dir: Seq<char>,
    same: Seq<char>,
    name: Seq<char>,
)
    requires
        components(dir) == components(same),
        is_absolute(dir) == is_absolute(same),
    ensures
        marks.marked(dir, name) <==> marks.marked(same, name),
        marks.marked(dir, name) ==> exists|i: int|
            0 <= i < marks.marks@.len() && (#[trigger] marks.marks@[i]).1@ == name && components(
                marks.marks@[i].0@,
            ) == components(dir),
{
    if marks.marked(dir, name) {
        let i = choose|i: int|
            0 <= i < marks.marks@.len() && mark_of(#[trigger] marks.marks@[i], dir, name);
        assert(mark_of(marks.marks@[i], same, name));
    }
    if marks.marked(same, name) {
        let i = choose|i: int|
            0 <= i < marks.marks@.len() && mark_of(#[trigger] marks.marks@[i], same, name);
        assert(mark_of(marks.marks@[i], dir, name));
    }
}

} // verus!
