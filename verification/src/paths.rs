//! Path texts of Unix: parents, names, extensions and joins.

use crate::text::{chars_of, push_char, same_text, string_of};
use crate::vpath::{find_last, last_char_at, lemma_find_last};
use vstd::prelude::*;

verus! {

/// The text of a path without its final component.
pub uninterp spec fn path_parent(path: Seq<char>) -> Option<Seq<char>>;

pub open spec fn is_absolute(path: Seq<char>) -> bool {
    path.len() > 0 && path[0] == '/'
}

/// A path joined to a directory: an absolute path as it is, any other behind
/// the directory and a `/`, which a directory that is empty or ends in one does
/// not need.
pub open spec fn path_join(dir: Seq<char>, path: Seq<char>) -> Seq<char> {
    if is_absolute(path) {
        path
    } else if dir.len() == 0 || dir.last() == '/' {
        dir + path
    } else {
        dir + seq!['/'] + path
    }
}

/// What stands between the slashes of a path.
pub open spec fn slash_parts(path: Seq<char>) -> Seq<Seq<char>>
    decreases path.len(),
{
    if path.len() == 0 {
        seq![Seq::empty()]
    } else {
        let before = slash_parts(path.drop_last());
        if path.last() == '/' {
            before.push(Seq::empty())
        } else {
            before.drop_last().push(before.last().push(path.last()))
        }
    }
}

/// The parts that say something: none that is empty, and no `.` but in front.
pub open spec fn telling_parts(parts: Seq<Seq<char>>) -> Seq<Seq<char>>
    decreases parts.len(),
{
    if parts.len() == 0 {
        Seq::empty()
    } else {
        let before = telling_parts(parts.drop_last());
        let part = parts.last();
        if part.len() == 0 || (part == seq!['.'] && parts.len() > 1) {
            before
        } else {
            before.push(part)
        }
    }
}

/// The components of a path.
pub open spec fn components(path: Seq<char>) -> Seq<Seq<char>> {
    telling_parts(slash_parts(path))
}

/// A path's final component, where that is a name.
pub open spec fn path_file_name(path: Seq<char>) -> Option<Seq<char>> {
    let parts = components(path);
    if parts.len() == 0 || parts.last() == seq!['.'] || parts.last() == seq!['.', '.'] {
        None
    } else {
        Some(parts.last())
    }
}

/// Whether two texts are the same path: both absolute or neither, with the same
/// components.
pub open spec fn same_path(a: Seq<char>, b: Seq<char>) -> bool {
    is_absolute(a) == is_absolute(b) && components(a) == components(b)
}

/// A slash behind a path does not make it another.
pub proof fn lemma_trailing_slash_says_nothing(path: Seq<char>)
    requires
        path.len() > 0,
    ensures
        same_path(path, path.push('/')),
{
    assert(path.push('/').drop_last() =~= path);
    assert(slash_parts(path).push(Seq::empty()).drop_last() =~= slash_parts(path));
}

/// Whether `path` is a directory's text, a `/` and an entry's name, with
/// nothing in it that a path's components leave out.
pub open spec fn is_plain_path(path: Seq<char>) -> bool {
    match find_last(path, '/') {
        None => false,
        Some(at) => {
            let name = path.skip(at + 1);
            &&& at > 0
            &&& path[at - 1] != '/'
            &&& path[at - 1] != '.'
            &&& name.len() > 0
            &&& name != "."@
            &&& name != ".."@
        },
    }
}

/// `std::path::Path::parent`, as text. The result is a function of the path.
/// There is one exactly where the path has a component. It has all components
/// but the last and is as absolute as the path. A plain path's parent is what
/// stands before its last `/`.
#[verifier::external_body]
pub(crate) fn parent_of(path: &str) -> (parent: Option<String>)
    ensures
        match parent {
            Some(p) => {
                &&& path_parent(path@) == Some(p@)
                &&& components(path@).len() > 0
                &&& components(p@) == components(path@).drop_last()
                &&& is_absolute(p@) == is_absolute(path@)
            },
            None => path_parent(path@) is None && components(path@).len() == 0,
        },
        is_plain_path(path@) ==> parent is Some && parent->0@ == path@.take(
            find_last(path@, '/')->0,
        ),
{
    std::path::Path::new(path).parent().map(|p| p.to_string_lossy().into_owned())
}

/// A path's final component, where that is a name.
pub fn file_name_of(path: &str) -> (name: Option<String>)
    ensures
        match name {
            Some(n) => path_file_name(path@) == Some(n@),
            None => path_file_name(path@) is None,
        },
{
    let parts = components_of(path);
    let n: usize = parts.len();
    if n == 0 {
        assert(components(path@).len() == 0);
        return None;
    }
    let last = &parts[n - 1];
    assert(components(path@).last() == last@);
    let dots = (last.len() == 1 && last[0] == '.') || (last.len() == 2 && last[0] == '.' && last[1]
        == '.');
    proof {
        if last@.len() == 1 && last@[0] == '.' {
            assert(last@ =~= seq!['.']);
        }
        if last@.len() == 2 && last@[0] == '.' && last@[1] == '.' {
            assert(last@ =~= seq!['.', '.']);
        }
    }
    if dots {
        return None;
    }
    let name = string_of(last, 0, last.len());
    assert(name@ =~= last@);
    Some(name)
}

proof fn lemma_last_part(path: Seq<char>)
    ensures
        slash_parts(path).len() > 0,
        slash_parts(path).last() == path.skip(
            match find_last(path, '/') {
                Some(at) => at + 1,
                None => 0,
            },
        ),
        find_last(path, '/') is Some ==> slash_parts(path).len() > 1,
    decreases path.len(),
{
    lemma_find_last(path, '/');
    if path.len() == 0 {
        assert(slash_parts(path).last() =~= path.skip(0));
    } else {
        let rest = path.drop_last();
        lemma_find_last(rest, '/');
        lemma_last_part(rest);
        if path.last() == '/' {
            assert(slash_parts(path).last() =~= path.skip(path.len() as int));
        } else {
            let at = match find_last(rest, '/') {
                Some(at) => at + 1,
                None => 0,
            };
            assert(rest.skip(at).push(path.last()) =~= path.skip(at));
        }
    }
}

/// A plain path's name is what stands behind its last `/`.
pub proof fn lemma_plain_name(path: Seq<char>)
    requires
        is_plain_path(path),
    ensures
        path_file_name(path) == Some(path.skip(find_last(path, '/')->0 + 1)),
{
    lemma_find_last(path, '/');
    lemma_last_part(path);
    reveal_strlit(".");
    reveal_strlit("..");
    assert("."@ =~= seq!['.']);
    assert(".."@ =~= seq!['.', '.']);
}

proof fn lemma_parts_of_name(dir: Seq<char>, name: Seq<char>)
    requires
        forall|i: int| 0 <= i < name.len() ==> name[i] != '/',
    ensures
        slash_parts(dir).len() > 0,
        slash_parts(dir + name) == slash_parts(dir).drop_last().push(
            slash_parts(dir).last() + name,
        ),
    decreases name.len(),
{
    lemma_last_part(dir);
    let parts = slash_parts(dir);
    if name.len() == 0 {
        assert(dir + name =~= dir);
        assert(parts.last() + name =~= parts.last());
        assert(parts.drop_last().push(parts.last()) =~= parts);
    } else {
        let less = name.drop_last();
        lemma_parts_of_name(dir, less);
        assert((dir + name).drop_last() =~= dir + less);
        assert((dir + name).last() == name.last());
        let before = slash_parts(dir + less);
        assert(before.drop_last() =~= parts.drop_last());
        assert((parts.last() + less).push(name.last()) =~= parts.last() + name);
    }
}

proof fn lemma_telling_parts(parts: Seq<Seq<char>>)
    ensures
        forall|i: int|
            0 <= i < telling_parts(parts).len() ==> parts.contains(#[trigger] telling_parts(parts)[i])
                && telling_parts(parts)[i].len() > 0,
    decreases parts.len(),
{
    if parts.len() > 0 {
        let rest = parts.drop_last();
        lemma_telling_parts(rest);
        assert forall|i: int| 0 <= i < telling_parts(parts).len() implies parts.contains(
            #[trigger] telling_parts(parts)[i],
        ) && telling_parts(parts)[i].len() > 0 by {
            if i < telling_parts(rest).len() {
                let k = choose|k: int| 0 <= k < rest.len() && rest[k] == telling_parts(rest)[i];
                assert(parts[k] == telling_parts(parts)[i]);
            } else {
                assert(parts[parts.len() - 1] == telling_parts(parts)[i]);
            }
        }
    }
}

proof fn lemma_no_slash_in_parts(path: Seq<char>)
    ensures
        slash_parts(path).len() > 0,
        forall|i: int, j: int|
            0 <= i < slash_parts(path).len() && 0 <= j < slash_parts(path)[i].len()
                ==> #[trigger] slash_parts(path)[i][j] != '/',
    decreases path.len(),
{
    if path.len() > 0 {
        let before = slash_parts(path.drop_last());
        lemma_no_slash_in_parts(path.drop_last());
        let parts = slash_parts(path);
        assert forall|i: int, j: int| 0 <= i < parts.len() && 0 <= j < parts[i].len() implies
            #[trigger] parts[i][j] != '/' by {
            if i < before.len() - 1 {
                assert(parts[i] == before[i]);
                assert(before[i][j] != '/');
            } else if path.last() == '/' {
                if i == before.len() - 1 {
                    assert(parts[i] == before[i]);
                    assert(before[i][j] != '/');
                }
            } else if j < before.last().len() {
                assert(before[before.len() - 1][j] != '/');
            }
        }
    }
}

/// An entry's path has the components of its directory and, behind them, the
/// entry's name.
pub proof fn lemma_components_of_entry(dir: Seq<char>, name: Seq<char>)
    requires
        name.len() > 0,
        name != seq!['.'],
        forall|i: int| 0 <= i < name.len() ==> name[i] != '/',
    ensures
        components(path_join(dir, name)) == components(dir).push(name),
        dir.len() > 0 ==> is_absolute(path_join(dir, name)) == is_absolute(dir),
{
    assert(!is_absolute(name));
    let start = if dir.len() == 0 || dir.last() == '/' {
        dir
    } else {
        dir.push('/')
    };
    assert(path_join(dir, name) =~= start + name);
    lemma_parts_of_name(start, name);
    let parts = slash_parts(start);
    if dir.len() == 0 {
        assert(parts.last() =~= Seq::<char>::empty());
    } else {
        lemma_last_part(start);
        lemma_find_last(start, '/');
        assert(start.last() == '/');
        assert(find_last(start, '/') == Some(start.len() - 1));
        assert(parts.last() =~= Seq::<char>::empty());
    }
    assert(parts.last() + name =~= name);
    let all = slash_parts(start + name);
    assert(all.drop_last() =~= parts.drop_last());
    assert(components(start + name) == telling_parts(parts.drop_last()).push(name));
    assert(telling_parts(parts) == telling_parts(parts.drop_last()));
    if start != dir {
        assert(start.drop_last() =~= dir);
        assert(parts.drop_last() =~= slash_parts(dir));
    }
}

/// A path joined to a directory.
pub fn joined(dir: &str, path: &str) -> (whole: String)
    ensures
        whole@ == path_join(dir@, path@),
{
    let tail = chars_of(path);
    if tail.len() > 0 && tail[0] == '/' {
        return path.to_owned();
    }
    let head = chars_of(dir);
    let mut whole = dir.to_owned();
    if head.len() > 0 && head[head.len() - 1] != '/' {
        push_char(&mut whole, '/');
        assert(whole@ =~= dir@ + seq!['/']);
    }
    whole.append(path);
    whole
}

pub open spec fn part_views(parts: Seq<Vec<char>>) -> Seq<Seq<char>> {
    Seq::new(parts.len(), |i: int| parts[i]@)
}

fn says_something(part: &Vec<char>, first: bool) -> (says: bool)
    ensures
        says == !(part@.len() == 0 || (part@ == seq!['.'] && !first)),
{
    if part.len() == 0 {
        return false;
    }
    let dot = part.len() == 1 && part[0] == '.';
    proof {
        if dot {
            assert(part@ =~= seq!['.']);
        }
    }
    !dot || first
}

fn components_of(path: &str) -> (found: Vec<Vec<char>>)
    ensures
        part_views(found@) == components(path@),
{
    let chars = chars_of(path);
    let mut found: Vec<Vec<char>> = Vec::new();
    let mut part: Vec<char> = Vec::new();
    let mut first: bool = true;
    let mut i: usize = 0;
    proof {
        let start = slash_parts(chars@.take(0));
        assert(start =~= seq![Seq::<char>::empty()]);
        assert(start.drop_last() =~= Seq::<Seq<char>>::empty());
        assert(part_views(found@) =~= telling_parts(start.drop_last()));
        assert(part@ =~= start.last());
    }
    while i < chars.len()
        invariant
            i <= chars@.len(),
            first == (slash_parts(chars@.take(i as int)).len() == 1),
            slash_parts(chars@.take(i as int)).len() > 0,
            part@ == slash_parts(chars@.take(i as int)).last(),
            part_views(found@) == telling_parts(slash_parts(chars@.take(i as int)).drop_last()),
        decreases chars@.len() - i,
    {
        let ghost parts = slash_parts(chars@.take(i as int));
        let ghost now = chars@.take(i + 1);
        let ghost before = part_views(found@);
        proof {
            assert(now.drop_last() =~= chars@.take(i as int));
            assert(now.last() == chars@[i as int]);
        }
        let c = chars[i];
        if c == '/' {
            if says_something(&part, first) {
                let ghost last = part@;
                found.push(part);
                assert(part_views(found@) =~= before.push(last));
            }
            part = Vec::new();
            first = false;
            assert(slash_parts(now).drop_last() =~= parts);
            assert(part@ =~= slash_parts(now).last());
        } else {
            part.push(c);
            assert(slash_parts(now).drop_last() =~= parts.drop_last());
        }
        i = i + 1;
    }
    assert(chars@.take(i as int) =~= path@);
    if says_something(&part, first) {
        let ghost before = part_views(found@);
        let ghost last = part@;
        found.push(part);
        assert(part_views(found@) =~= before.push(last));
    }
    found
}

fn same_chars(a: &Vec<char>, b: &Vec<char>) -> (same: bool)
    ensures
        same == (a@ == b@),
{
    if a.len() != b.len() {
        return false;
    }
    let mut i: usize = 0;
    while i < a.len()
        invariant
            i <= a@.len(),
            a@.len() == b@.len(),
            forall|j: int| 0 <= j < i ==> a@[j] == b@[j],
        decreases a@.len() - i,
    {
        if a[i] != b[i] {
            return false;
        }
        i = i + 1;
    }
    assert(a@ =~= b@);
    true
}

fn begins_absolute(path: &str) -> (absolute: bool)
    ensures
        absolute == is_absolute(path@),
{
    let chars = chars_of(path);
    chars.len() > 0 && chars[0] == '/'
}

/// Whether two texts are the same path.
pub fn is_same_path(a: &str, b: &str) -> (same: bool)
    ensures
        same == same_path(a@, b@),
{
    if begins_absolute(a) != begins_absolute(b) {
        return false;
    }
    let left = components_of(a);
    let right = components_of(b);
    if left.len() != right.len() {
        assert(part_views(left@).len() != part_views(right@).len());
        return false;
    }
    let mut i: usize = 0;
    while i < left.len()
        invariant
            i <= left@.len(),
            left@.len() == right@.len(),
            part_views(left@) == components(a@),
            part_views(right@) == components(b@),
            forall|j: int| 0 <= j < i ==> left@[j]@ == right@[j]@,
        decreases left@.len() - i,
    {
        if !same_chars(&left[i], &right[i]) {
            assert(part_views(left@)[i as int] != part_views(right@)[i as int]);
            return false;
        }
        i = i + 1;
    }
    assert(part_views(left@) =~= part_views(right@));
    true
}

/// An entry name's extension: what stands behind its last `.`, unless that is
/// its first character.
pub open spec fn extension(name: Seq<char>) -> Option<Seq<char>> {
    match find_last(name, '.') {
        None => None,
        Some(at) => if at == 0 || name == ".."@ {
            None
        } else {
            Some(name.skip(at + 1))
        },
    }
}

pub fn extension_of(name: &str) -> (ext: Option<String>)
    ensures
        match ext {
            Some(e) => extension(name@) == Some(e@),
            None => extension(name@) is None,
        },
{
    let chars = chars_of(name);
    let n: usize = chars.len();
    match last_char_at(&chars, '.') {
        None => None,
        Some(at) => {
            if at == 0 || same_text(name, "..") {
                None
            } else {
                let ext = string_of(&chars, at + 1, n);
                assert(ext@ =~= name@.skip(at as int + 1));
                Some(ext)
            }
        },
    }
}

/// What destination text is completed from, given its parent and its name:
/// the directory and the part of a name typed so far. A text that ends in `/`
/// is a directory with nothing typed behind it.
pub open spec fn split_given(
    text: Seq<char>,
    parent: Option<Seq<char>>,
    name: Option<Seq<char>>,
) -> Option<(Seq<char>, Seq<char>)> {
    if text.len() > 0 && text.last() == '/' {
        Some((text, Seq::empty()))
    } else if parent is Some && name is Some {
        Some((parent->0, name->0))
    } else {
        None
    }
}

/// Splits `text` into the directory and the part of a name typed so far,
/// given the text's parent and its name.
pub fn split_with(text: &str, parent: Option<String>, name: Option<String>) -> (split: Option<
    (String, String),
>)
    ensures
        match split {
            Some((dir, prefix)) => split_given(
                text@,
                (match parent {
                    Some(p) => Some(p@),
                    None => None,
                }),
                (match name {
                    Some(n) => Some(n@),
                    None => None,
                }),
            ) == Some((dir@, prefix@)),
            None => (text@.len() == 0 || text@.last() != '/') && (parent is None || name is None),
        },
{
    let chars = chars_of(text);
    if chars.len() > 0 && chars[chars.len() - 1] == '/' {
        return Some((text.to_owned(), String::new()));
    }
    match (parent, name) {
        (Some(dir), Some(prefix)) => Some((dir, prefix)),
        _ => None,
    }
}

/// Splits a destination text into the directory and the part of a name typed
/// so far.
pub fn split_parent_prefix(text: &str) -> (split: Option<(String, String)>)
    ensures
        match split {
            Some((dir, prefix)) => split_given(
                text@,
                path_parent(text@),
                path_file_name(text@),
            ) == Some((dir@, prefix@)),
            None => split_given(text@, path_parent(text@), path_file_name(text@)) is None,
        },
        is_plain_path(text@) ==> split is Some && (split->0).0@ == text@.take(
            find_last(text@, '/')->0,
        ) && (split->0).1@ == text@.skip(find_last(text@, '/')->0 + 1),
        match split {
            Some((dir, prefix)) => {
                &&& same_path(path_join(dir@, prefix@), text@)
                &&& forall|i: int| 0 <= i < prefix@.len() ==> prefix@[i] != '/'
                &&& prefix@.len() == 0 <==> text@.len() > 0 && text@.last() == '/'
            },
            None => (text@.len() == 0 || text@.last() != '/') && path_file_name(text@) is None,
        },
{
    let parent = parent_of(text);
    let name = file_name_of(text);
    proof {
        lemma_find_last(text@, '/');
        if is_plain_path(text@) {
            let at = find_last(text@, '/')->0;
            assert(text@.skip(at + 1).last() == text@.last());
            lemma_plain_name(text@);
        }
        if text@.len() > 0 && text@.last() == '/' {
            assert(path_join(text@, Seq::empty()) =~= text@);
        } else if name is Some {
            let prefix = name->0@;
            lemma_telling_parts(slash_parts(text@));
            lemma_no_slash_in_parts(text@);
            let dir = parent->0@;
            assert(components(text@).contains(prefix));
            lemma_components_of_entry(dir, prefix);
            assert(components(dir).push(prefix) =~= components(text@));
            if dir.len() == 0 {
                assert(path_join(dir, prefix) =~= prefix);
            }
        }
    }
    split_with(text, parent, name)
}

/// Parts with a slash between each two.
pub open spec fn with_slashes(parts: Seq<Seq<char>>) -> Seq<char>
    decreases parts.len(),
{
    if parts.len() == 0 {
        Seq::empty()
    } else if parts.len() == 1 {
        parts[0]
    } else {
        with_slashes(parts.drop_last()) + seq!['/'] + parts.last()
    }
}

/// The parts of a path hold no slash, and with slashes between them they are
/// the path.
pub proof fn lemma_parts_make_the_path(path: Seq<char>)
    ensures
        with_slashes(slash_parts(path)) == path,
        forall|i: int| 0 <= i < slash_parts(path).len() ==> !(#[trigger] slash_parts(path)[i]).contains('/'),
    decreases path.len(),
{
    lemma_no_slash_in_parts(path);
    let parts = slash_parts(path);
    if path.len() == 0 {
        assert(with_slashes(parts) =~= path);
    } else {
        let rest = path.drop_last();
        lemma_parts_make_the_path(rest);
        lemma_no_slash_in_parts(rest);
        let before = slash_parts(rest);
        assert(rest.push(path.last()) =~= path);
        if path.last() == '/' {
            assert(parts.drop_last() =~= before);
            assert(with_slashes(parts) =~= path);
        } else {
            assert(parts.drop_last() =~= before.drop_last());
            assert(with_slashes(parts) =~= with_slashes(before).push(path.last()));
        }
    }
    assert forall|i: int| 0 <= i < parts.len() implies !(#[trigger] parts[i]).contains('/') by {
        if parts[i].contains('/') {
            let j = choose|j: int| 0 <= j < parts[i].len() && parts[i][j] == '/';
            assert(parts[i][j] != '/');
        }
    }
}

/// The components of a path are parts of it, in their order, none of them empty;
/// a part is left out only where it is empty, or a `.` that is not in front.
pub proof fn lemma_components_are_parts(path: Seq<char>)
    ensures
        slash_parts(path).len() > 0,
        components(path) == (if slash_parts(path)[0].len() == 0 {
            Seq::empty()
        } else {
            seq![slash_parts(path)[0]]
        }) + slash_parts(path).drop_first().filter(
            |part: Seq<char>| part.len() > 0 && part != seq!['.'],
        ),
{
    lemma_no_slash_in_parts(path);
    lemma_telling_parts_are_filtered(slash_parts(path));
}

proof fn lemma_telling_parts_are_filtered(parts: Seq<Seq<char>>)
    requires
        parts.len() > 0,
    ensures
        telling_parts(parts) == (if parts[0].len() == 0 {
            Seq::empty()
        } else {
            seq![parts[0]]
        }) + parts.drop_first().filter(|part: Seq<char>| part.len() > 0 && part != seq!['.']),
    decreases parts.len(),
{
    reveal(Seq::filter);
    let tells = |part: Seq<char>| part.len() > 0 && part != seq!['.'];
    if parts.len() == 1 {
        assert(parts.drop_first() =~= Seq::<Seq<char>>::empty());
        assert(telling_parts(parts.drop_last()) =~= Seq::<Seq<char>>::empty());
        assert(parts.drop_first().filter(tells) =~= Seq::<Seq<char>>::empty());
        assert(telling_parts(parts) =~= (if parts[0].len() == 0 {
            Seq::empty()
        } else {
            seq![parts[0]]
        }) + parts.drop_first().filter(tells));
    } else {
        lemma_telling_parts_are_filtered(parts.drop_last());
        assert(parts.drop_first().drop_last() =~= parts.drop_last().drop_first());
        assert(parts.drop_first().last() == parts.last());
        assert(telling_parts(parts) =~= (if parts[0].len() == 0 {
            Seq::empty()
        } else {
            seq![parts[0]]
        }) + parts.drop_first().filter(tells));
    }
}

/// What an absolute path is joined to does not matter. Any other path stands
/// behind the directory, with one slash between them at least, and none put in
/// where there is one.
pub proof fn lemma_joined_path(dir: Seq<char>, path: Seq<char>)
    ensures
        path.len() > 0 && path[0] == '/' ==> path_join(dir, path) == path,
        !(path.len() > 0 && path[0] == '/') ==> {
            &&& dir.is_prefix_of(path_join(dir, path))
            &&& path.is_suffix_of(path_join(dir, path))
            &&& dir.len() > 0 && dir.last() != '/' ==> path_join(dir, path).len() == dir.len() + 1
                + path.len() && path_join(dir, path)[dir.len() as int] == '/'
            &&& dir.len() == 0 || dir.last() == '/' ==> path_join(dir, path).len() == dir.len()
                + path.len()
        },
{
    if !(path.len() > 0 && path[0] == '/') {
        let whole = path_join(dir, path);
        assert(whole.take(dir.len() as int) =~= dir);
        assert(whole.skip(whole.len() - path.len()) =~= path);
    }
}

/// An extension is what stands behind a name's last dot, unless that is its
/// first character. So a hidden file has none by its first dot, and the name of
/// the directory above has none.
pub proof fn lemma_extension(name: Seq<char>)
    ensures
        match extension(name) {
            Some(ext) => {
                &&& !ext.contains('.')
                &&& name.len() > ext.len() + 1
                &&& name[name.len() - ext.len() - 1] == '.'
                &&& name.skip(name.len() - ext.len()) == ext
            },
            None => name == seq!['.', '.'] || forall|i: int| 0 < i < name.len() ==> name[i] != '.',
        },
        extension(seq!['.', '.']) is None,
{
    reveal_strlit("..");
    assert(".."@ =~= seq!['.', '.']);
    lemma_find_last(name, '.');
    if let Some(ext) = extension(name) {
        let at = find_last(name, '.')->0;
        assert(name.skip(name.len() - ext.len()) =~= ext);
        if ext.contains('.') {
            let i = choose|i: int| 0 <= i < ext.len() && ext[i] == '.';
            assert(name[at + 1 + i] == '.');
        }
    }
}

/// A text that ends in a slash is a directory with nothing typed behind it;
/// any other is split where its parent ends, given that it has one and a name.
pub proof fn lemma_split(text: Seq<char>, parent: Option<Seq<char>>, name: Option<Seq<char>>)
    ensures
        text.len() > 0 && text.last() == '/' ==> split_given(text, parent, name) == Some(
            (text, Seq::<char>::empty()),
        ),
        !(text.len() > 0 && text.last() == '/') ==> match split_given(text, parent, name) {
            Some((dir, typed)) => parent == Some(dir) && name == Some(typed),
            None => parent is None || name is None,
        },
{
}

/// A path that begins at the root is never one that does not. Two entries of a
/// directory have the same path only where they have the same name, and no entry
/// has its directory's.
pub proof fn lemma_same_path(
    a: Seq<char>,
    b: Seq<char>,
    dir: Seq<char>,
    one: Seq<char>,
    other: Seq<char>,
)
    requires
        one.len() > 0 && one != seq!['.'] && !one.contains('/'),
        other.len() > 0 && other != seq!['.'] && !other.contains('/'),
    ensures
        same_path(a, b) ==> ((a.len() > 0 && a[0] == '/') <==> (b.len() > 0 && b[0] == '/')),
        same_path(a, b) <==> same_path(b, a),
        same_path(a, a),
        same_path(path_join(dir, one), path_join(dir, other)) <==> one == other,
        !same_path(path_join(dir, one), dir),
{
    assert forall|i: int| 0 <= i < one.len() implies one[i] != '/' by {
        assert(one.contains(one[i]));
    }
    assert forall|i: int| 0 <= i < other.len() implies other[i] != '/' by {
        assert(other.contains(other[i]));
    }
    lemma_components_of_entry(dir, one);
    lemma_components_of_entry(dir, other);
    let parts = components(dir);
    assert(parts.push(one).last() == one);
    assert(parts.push(other).last() == other);
    assert(parts.push(one).len() == parts.len() + 1);
}

} // verus!
