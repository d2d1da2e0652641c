//! Absolute paths of the local file system, as the dialogs name them.

use crate::text::{chars_of, find, find_char, lemma_find, same_text, string_of};
use vstd::prelude::*;

verus! {

/// A local path: its plain, absolute text (`/home/user/a.txt`).
#[derive(Debug, PartialEq, Eq)]
pub struct VPath {
    pub path: String,
}

impl Clone for VPath {
    fn clone(&self) -> (copy: Self)
        ensures
            copy == *self,
    {
        VPath { path: self.path.clone() }
    }
}

/// Some paths once more.
pub fn copy_paths(paths: &Vec<VPath>) -> (copy: Vec<VPath>)
    ensures
        copy@ == paths@,
{
    let mut copy: Vec<VPath> = Vec::new();
    while copy.len() < paths.len()
        invariant
            copy@.len() <= paths@.len(),
            forall|i: int| 0 <= i < copy@.len() ==> copy@[i] == paths@[i],
        decreases paths@.len() - copy@.len(),
    {
        let next = paths[copy.len()].clone();
        copy.push(next);
    }
    assert(copy@ =~= paths@);
    copy
}

/// The last position in `s` at which `c` stands.
pub open spec fn find_last(s: Seq<char>, c: char) -> Option<int>
    decreases s.len(),
{
    if s.len() == 0 {
        None
    } else if s.last() == c {
        Some(s.len() - 1)
    } else {
        find_last(s.drop_last(), c)
    }
}

/// `find_last` gives the last occurrence.
pub proof fn lemma_find_last(s: Seq<char>, c: char)
    ensures
        match find_last(s, c) {
            Some(at) => 0 <= at < s.len() && s[at] == c && forall|i: int|
                at < i < s.len() ==> s[i] != c,
            None => forall|i: int| 0 <= i < s.len() ==> s[i] != c,
        },
    decreases s.len(),
{
    if s.len() > 0 && s.last() != c {
        lemma_find_last(s.drop_last(), c);
        assert forall|i: int| 0 <= i < s.len() - 1 implies s[i] == s.drop_last()[i] by {}
    }
}

pub fn last_char_at(s: &Vec<char>, c: char) -> (at: Option<usize>)
    ensures
        match at {
            Some(i) => find_last(s@, c) == Some(i as int) && i < s@.len(),
            None => find_last(s@, c) is None,
        },
{
    let mut n: usize = s.len();
    assert(s@.take(n as int) =~= s@);
    while n > 0
        invariant
            n <= s@.len(),
            find_last(s@, c) == find_last(s@.take(n as int), c),
        decreases n,
    {
        assert(s@.take(n as int).last() == s@[n - 1]);
        if s[n - 1] == c {
            return Some(n - 1);
        }
        assert(s@.take(n as int).drop_last() =~= s@.take(n - 1));
        n = n - 1;
    }
    None
}

/// The text of the directory that holds the entry at `path`: what stands
/// before the last `/`, or `/` itself for an entry of the root. The root has
/// none.
pub open spec fn parent_text(path: Seq<char>) -> Option<Seq<char>> {
    match find_last(path, '/') {
        None => None,
        Some(at) => if path.len() <= 1 {
            None
        } else if at == 0 {
            Some(seq!['/'])
        } else {
            Some(path.take(at))
        },
    }
}

/// The name of the entry at `path`: what stands behind the last `/`, if
/// anything does.
pub open spec fn name_text(path: Seq<char>) -> Option<Seq<char>> {
    let start = match find_last(path, '/') {
        None => 0,
        Some(at) => at + 1,
    };
    if start < path.len() {
        Some(path.skip(start))
    } else {
        None
    }
}

/// The path of the entry `name` in `dir`.
pub open spec fn child_text(dir: Seq<char>, name: Seq<char>) -> Seq<char> {
    if dir.len() > 0 && dir.last() == '/' {
        dir + name
    } else {
        dir + seq!['/'] + name
    }
}

/// Whether `name` can name an entry: one path component, not a step to the
/// directory itself or to its parent.
pub open spec fn is_entry_name(name: Seq<char>) -> bool {
    &&& name.len() > 0
    &&& name != "."@
    &&& name != ".."@
    &&& find(name, '/', 0) == name.len()
    &&& find(name, '\0', 0) == name.len()
}

impl VPath {
    /// A path from its absolute text.
    pub fn local(path: String) -> (p: VPath)
        ensures
            p.path@ == path@,
    {
        VPath { path }
    }

    /// The directory that holds this entry.
    pub fn parent(&self) -> (p: Option<VPath>)
        ensures
            match p {
                Some(q) => parent_text(self.path@) == Some(q.path@),
                None => parent_text(self.path@) is None,
            },
    {
        let chars = chars_of(self.path.as_str());
        let found = last_char_at(&chars, '/');
        match found {
            None => None,
            Some(at) => {
                if chars.len() <= 1 {
                    None
                } else if at == 0 {
                    let path = string_of(&chars, 0, 1);
                    proof {
                        lemma_find_last(chars@, '/');
                        assert(path@ =~= seq!['/']);
                    }
                    Some(VPath { path })
                } else {
                    let path = string_of(&chars, 0, at);
                    assert(path@ =~= self.path@.take(at as int));
                    Some(VPath { path })
                }
            },
        }
    }

    /// The name of this entry.
    pub fn file_name(&self) -> (name: Option<String>)
        ensures
            match name {
                Some(n) => name_text(self.path@) == Some(n@),
                None => name_text(self.path@) is None,
            },
    {
        let chars = chars_of(self.path.as_str());
        let n: usize = chars.len();
        let start: usize = match last_char_at(&chars, '/') {
            None => 0,
            Some(at) => at + 1,
        };
        if start < n {
            let name = string_of(&chars, start, n);
            assert(name@ =~= self.path@.skip(start as int));
            Some(name)
        } else {
            None
        }
    }

    /// The entry `name` of this directory. A plain name always names one.
    pub fn join(&self, name: &str) -> (p: Option<VPath>)
        ensures
            match p {
                Some(q) => q.path@ == child_text(self.path@, name@),
                None => !is_entry_name(name@),
            },
    {
        let chars = chars_of(name);
        if chars.len() == 0 || same_text(name, ".") || same_text(name, "..") || find_char(
            &chars,
            '/',
            0,
        ) < chars.len() || find_char(&chars, '\0', 0) < chars.len() {
            return None;
        }
        let dir = chars_of(self.path.as_str());
        let mut path = self.path.clone();
        if dir.len() == 0 || dir[dir.len() - 1] != '/' {
            path.push('/');
            assert(path@ =~= self.path@ + seq!['/']);
        }
        path.append(name);
        Some(VPath { path })
    }

    /// The URI of this path.
    pub fn to_uri(&self) -> (uri: String)
        ensures
            uri@ == "file://"@ + self.path@,
    {
        let mut uri = "file://".to_owned();
        uri.append(self.path.as_str());
        uri
    }
}

/// A path is the entry of its name in its parent, where its last two names do
/// not stand more than one slash apart.
pub proof fn lemma_parent_and_name_make_the_path(path: Seq<char>)
    requires
        path.len() > 1,
        path[0] == '/',
        path.last() != '/',
        forall|i: int| 0 < i && find_last(path, '/') == Some(i) ==> path[i - 1] != '/',
    ensures
        parent_text(path) is Some,
        name_text(path) is Some,
        child_text(parent_text(path)->0, name_text(path)->0) == path,
{
    lemma_find_last(path, '/');
    let at = find_last(path, '/')->0;
    if at > 0 {
        assert(path[at - 1] != '/');
        assert(path.take(at) + seq!['/'] + path.skip(at + 1) =~= path);
    } else {
        assert(path.take(1) + path.skip(1) =~= path);
    }
}

/// An entry's path leads back to its directory and its name.
pub proof fn lemma_entry_of_a_directory(dir: Seq<char>, name: Seq<char>)
    requires
        is_entry_name(name),
        dir == seq!['/'] || (dir.len() > 0 && dir[0] == '/' && dir.last() != '/'),
    ensures
        parent_text(child_text(dir, name)) == Some(dir),
        name_text(child_text(dir, name)) == Some(name),
{
    let path = child_text(dir, name);
    lemma_find_last(path, '/');
    lemma_find(name, '/', 0);
    let at = path.len() - name.len() - 1;
    assert(path[at] == '/');
    assert forall|i: int| at < i < path.len() implies path[i] != '/' by {
        assert(path[i] == name[i - at - 1]);
    }
    assert(find_last(path, '/') == Some(at));
    assert(path.skip(at + 1) =~= name);
    if at > 0 {
        assert(path.take(at) =~= dir);
    } else {
        assert(dir =~= seq!['/']);
    }
}

/// A name that can name an entry is not empty, leads neither to its directory
/// nor to the one above, and holds neither a slash nor a zero.
pub proof fn lemma_entry_name(name: Seq<char>)
    ensures
        is_entry_name(name) <==> {
            &&& name.len() > 0
            &&& name != seq!['.']
            &&& name != seq!['.', '.']
            &&& !name.contains('/')
            &&& !name.contains('\0')
        },
{
    reveal_strlit(".");
    reveal_strlit("..");
    assert("."@ =~= seq!['.']);
    assert(".."@ =~= seq!['.', '.']);
    lemma_find(name, '/', 0);
    lemma_find(name, '\0', 0);
    if find(name, '/', 0) < name.len() {
        assert(name.contains(name[find(name, '/', 0)]));
    }
    if find(name, '\0', 0) < name.len() {
        assert(name.contains(name[find(name, '\0', 0)]));
    }
}

/// The root has neither a parent nor a name.
pub proof fn lemma_root()
    ensures
        parent_text(seq!['/']) is None,
        name_text(seq!['/']) is None,
{
    reveal_with_fuel(find_last, 2);
}

} // verus!
