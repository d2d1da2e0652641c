//! The function-key bar.

use crate::text::{
    chars_of, decimal, is_whitespace, lemma_trimmed_start, same_text, string_of, trimmed_start, whitespace,
};
use vstd::prelude::*;

verus! {

/// One slot: the key, and the short label of what it does.
#[derive(Debug, PartialEq, Eq)]
pub struct FKeySlot {
    pub key: &'static str,
    pub label: String,
}

impl Clone for FKeySlot {
    fn clone(&self) -> (copy: Self)
        ensures
            copy == *self,
    {
        FKeySlot { key: self.key, label: self.label.clone() }
    }
}

/// The name of the key at place `i`.
pub open spec fn key_name(i: int) -> Seq<char> {
    if i == 0 {
        "F1"@
    } else if i == 1 {
        "F2"@
    } else if i == 2 {
        "F3"@
    } else if i == 3 {
        "F4"@
    } else if i == 4 {
        "F5"@
    } else if i == 5 {
        "F6"@
    } else if i == 6 {
        "F7"@
    } else if i == 7 {
        "F8"@
    } else if i == 8 {
        "F9"@
    } else if i == 9 {
        "F10"@
    } else if i == 10 {
        "F11"@
    } else {
        "F12"@
    }
}

fn key_display(i: usize) -> (key: &'static str)
    ensures
        key@ == key_name(i as int),
{
    if i == 0 {
        "F1"
    } else if i == 1 {
        "F2"
    } else if i == 2 {
        "F3"
    } else if i == 3 {
        "F4"
    } else if i == 4 {
        "F5"
    } else if i == 5 {
        "F6"
    } else if i == 6 {
        "F7"
    } else if i == 7 {
        "F8"
    } else if i == 8 {
        "F9"
    } else if i == 9 {
        "F10"
    } else if i == 10 {
        "F11"
    } else {
        "F12"
    }
}

pub open spec fn fallback_text(id: Seq<char>) -> Seq<char> {
    if id == "help.show"@ {
        "Help"@
    } else if id == "menu.activate"@ {
        "Menu"@
    } else if id == "tbd.f9_unverified"@ {
        "(unverified)"@
    } else if id == "window.toggle_fullscreen"@ {
        "Fullscreen"@
    } else {
        "?"@
    }
}

/// The label of a command that the catalogue does not list.
pub fn fallback_label(id: &str) -> (label: &'static str)
    ensures
        label@ == fallback_text(id@),
{
    if same_text(id, "help.show") {
        "Help"
    } else if same_text(id, "menu.activate") {
        "Menu"
    } else if same_text(id, "tbd.f9_unverified") {
        "(unverified)"
    } else if same_text(id, "window.toggle_fullscreen") {
        "Fullscreen"
    } else {
        "?"
    }
}

/// The characters of `s` up to its first whitespace.
pub open spec fn up_to_whitespace(s: Seq<char>) -> Seq<char>
    decreases s.len(),
{
    if s.len() == 0 || is_whitespace(s[0]) {
        Seq::empty()
    } else {
        seq![s[0]] + up_to_whitespace(s.skip(1))
    }
}

/// The first word of a title; a title without one as it stands.
pub open spec fn first_word(title: Seq<char>) -> Seq<char> {
    let rest = trimmed_start(title);
    if rest.len() == 0 {
        title
    } else {
        up_to_whitespace(rest)
    }
}

proof fn lemma_word(s: Seq<char>, n: int)
    requires
        0 <= n <= s.len(),
        forall|i: int| 0 <= i < n ==> !is_whitespace(s[i]),
        n < s.len() ==> is_whitespace(s[n]),
    ensures
        up_to_whitespace(s) == s.take(n),
    decreases n,
{
    if n > 0 {
        let rest = s.skip(1);
        assert forall|i: int| 0 <= i < n - 1 implies !is_whitespace(rest[i]) by {
            assert(rest[i] == s[i + 1]);
        }
        if n < s.len() {
            assert(rest[n - 1] == s[n]);
        }
        lemma_word(rest, n - 1);
        assert(seq![s[0]] + rest.take(n - 1) =~= s.take(n));
    } else {
        assert(s.take(0) =~= Seq::<char>::empty());
    }
}

/// The first word of a command's title.
pub fn short_label(title: &str) -> (label: String)
    ensures
        label@ == first_word(title@),
{
    let chars = chars_of(title);
    let n: usize = chars.len();
    let mut from: usize = 0;
    assert(chars@.skip(0) =~= chars@);
    while from < n && whitespace(chars[from])
        invariant
            from <= n == chars@.len(),
            trimmed_start(chars@) == trimmed_start(chars@.skip(from as int)),
        decreases n - from,
    {
        assert(chars@.skip(from as int)[0] == chars@[from as int]);
        assert(chars@.skip(from as int).skip(1) =~= chars@.skip(from as int + 1));
        from = from + 1;
    }
    let ghost rest = chars@.skip(from as int);
    proof {
        if from < n {
            assert(rest[0] == chars@[from as int]);
        }
        assert(trimmed_start(chars@) == rest);
    }
    if from == n {
        return title.to_owned();
    }
    let mut to: usize = from;
    while to < n && !whitespace(chars[to])
        invariant
            from <= to <= n == chars@.len(),
            forall|i: int| from <= i < to ==> !is_whitespace(chars@[i]),
        decreases n - to,
    {
        to = to + 1;
    }
    proof {
        assert forall|i: int| 0 <= i < to - from implies !is_whitespace(rest[i]) by {
            assert(rest[i] == chars@[from + i]);
        }
        if to < n {
            assert(rest[to - from] == chars@[to as int]);
        }
        lemma_word(rest, to - from);
        assert(rest.take(to - from) =~= chars@.subrange(from as int, to as int));
    }
    string_of(&chars, from, to)
}

/// A command of the catalogue: its id and its title.
#[derive(Debug, PartialEq, Eq)]
pub struct CatalogueEntry {
    pub id: String,
    pub title: String,
}

/// The title that the catalogue gives a command.
pub open spec fn title_of(catalogue: Seq<CatalogueEntry>, id: Seq<char>, from: int) -> Option<
    Seq<char>,
>
    decreases catalogue.len() - from,
{
    if from < 0 || from >= catalogue.len() {
        None
    } else if catalogue[from].id@ == id {
        Some(catalogue[from].title@)
    } else {
        title_of(catalogue, id, from + 1)
    }
}

/// A command's label: the first word of its title, or the label of one that
/// the catalogue does not list.
pub open spec fn label_of(catalogue: Seq<CatalogueEntry>, id: Seq<char>) -> Seq<char> {
    match title_of(catalogue, id, 0) {
        Some(title) => first_word(title),
        None => fallback_text(id),
    }
}

pub fn command_label(id: &str, catalogue: &Vec<CatalogueEntry>) -> (label: String)
    ensures
        label@ == label_of(catalogue@, id@),
{
    let mut i: usize = 0;
    while i < catalogue.len()
        invariant
            i <= catalogue@.len(),
            title_of(catalogue@, id@, 0) == title_of(catalogue@, id@, i as int),
        decreases catalogue@.len() - i,
    {
        if same_text(catalogue[i].id.as_str(), id) {
            return short_label(catalogue[i].title.as_str());
        }
        i = i + 1;
    }
    fallback_label(id).to_owned()
}

/// The commands that a key is bound to, in a panel and in the application.
#[derive(Debug, PartialEq, Eq)]
pub struct KeyCommands {
    pub panel: Option<String>,
    pub app: Option<String>,
}

/// The command of the key at place `i`: the panel's, else the application's;
/// F11 has one of its own where neither binds it.
pub open spec fn command_of(keys: KeyCommands, i: int) -> Option<Seq<char>> {
    match (keys.panel, keys.app) {
        (Some(id), _) => Some(id@),
        (None, Some(id)) => Some(id@),
        (None, None) => if i == 10 {
            Some("window.toggle_fullscreen"@)
        } else {
            None
        },
    }
}

/// The label of a key; empty where nothing is bound to it.
pub open spec fn slot_label(catalogue: Seq<CatalogueEntry>, keys: KeyCommands, i: int) -> Seq<
    char,
> {
    match command_of(keys, i) {
        Some(id) => label_of(catalogue, id),
        None => Seq::empty(),
    }
}

/// The bar's twelve slots, from what each key is bound to and the catalogue's
/// titles.
pub fn build_function_bar(bindings: &Vec<KeyCommands>, catalogue: &Vec<CatalogueEntry>) -> (slots:
    Vec<FKeySlot>)
    requires
        bindings@.len() == 12,
    ensures
        slots@.len() == 12,
        forall|i: int|
            0 <= i < 12 ==> (#[trigger] slots@[i]).key@ == key_name(i) && slots@[i].label@
                == slot_label(catalogue@, bindings@[i], i),
{
    let mut slots: Vec<FKeySlot> = Vec::new();
    let mut i: usize = 0;
    while i < 12
        invariant
            i <= 12,
            bindings@.len() == 12,
            slots@.len() == i,
            forall|j: int|
                0 <= j < i ==> (#[trigger] slots@[j]).key@ == key_name(j) && slots@[j].label@
                    == slot_label(catalogue@, bindings@[j], j),
        decreases 12 - i,
    {
        let keys = &bindings[i];
        let label = match (&keys.panel, &keys.app) {
            (Some(id), _) => command_label(id.as_str(), catalogue),
            (None, Some(id)) => command_label(id.as_str(), catalogue),
            (None, None) => if i == 10 {
                command_label("window.toggle_fullscreen", catalogue)
            } else {
                String::new()
            },
        };
        assert(label@ =~= slot_label(catalogue@, bindings@[i as int], i as int));
        slots.push(FKeySlot { key: key_display(i), label });
        i = i + 1;
    }
    slots
}

/// The keys are F1 to F12, in their order.
pub proof fn lemma_keys_are_numbered(i: int)
    requires
        0 <= i < 12,
    ensures
        key_name(i) == seq!['F'] + decimal((i + 1) as nat),
{
    reveal_strlit("F1");
    reveal_strlit("F2");
    reveal_strlit("F3");
    reveal_strlit("F4");
    reveal_strlit("F5");
    reveal_strlit("F6");
    reveal_strlit("F7");
    reveal_strlit("F8");
    reveal_strlit("F9");
    reveal_strlit("F10");
    reveal_strlit("F11");
    reveal_strlit("F12");
    reveal_with_fuel(decimal, 3);
    assert(key_name(i) =~= seq!['F'] + decimal((i + 1) as nat));
}

proof fn lemma_up_to_whitespace(s: Seq<char>) -> (n: int)
    ensures
        0 <= n <= s.len(),
        up_to_whitespace(s) == s.take(n),
        forall|i: int| 0 <= i < n ==> !is_whitespace(s[i]),
        n < s.len() ==> is_whitespace(s[n]),
    decreases s.len(),
{
    if s.len() == 0 || is_whitespace(s[0]) {
        assert(s.take(0) =~= Seq::<char>::empty());
        0
    } else {
        let n = lemma_up_to_whitespace(s.skip(1));
        assert forall|i: int| 0 <= i < n + 1 implies !is_whitespace(s[i]) by {
            if i > 0 {
                assert(s.skip(1)[i - 1] == s[i]);
            }
        }
        assert(seq![s[0]] + s.skip(1).take(n) =~= s.take(n + 1));
        if n + 1 < s.len() {
            assert(s.skip(1)[n] == s[n + 1]);
        }
        n + 1
    }
}

/// A label is a title's first word, whole and nothing more; a title of
/// whitespace alone is its own label.
pub proof fn lemma_first_word(title: Seq<char>)
    ensures
        (forall|i: int| 0 <= i < title.len() ==> is_whitespace(title[i])) ==> first_word(title)
            == title,
        (exists|i: int| 0 <= i < title.len() && !is_whitespace(title[i])) ==> exists|
            from: int,
            to: int,
        |
            {
                &&& 0 <= from < to <= title.len()
                &&& first_word(title) == #[trigger] title.subrange(from, to)
                &&& forall|i: int| 0 <= i < from ==> is_whitespace(title[i])
                &&& forall|i: int| from <= i < to ==> !is_whitespace(title[i])
                &&& to < title.len() ==> is_whitespace(title[to])
            },
{
    let k = lemma_trimmed_start(title);
    let rest = title.skip(k);
    let n = lemma_up_to_whitespace(rest);
    if k < title.len() {
        assert(rest[0] == title[k]);
        assert(!is_whitespace(title[k]));
        assert(rest.take(n) =~= title.subrange(k, k + n));
        assert forall|i: int| k <= i < k + n implies !is_whitespace(title[i]) by {
            assert(rest[i - k] == title[i]);
        }
        if k + n < title.len() {
            assert(rest[n] == title[k + n]);
        }
    }
}

/// A command's title is that of the first entry of the catalogue with its id;
/// it has none exactly where there is no such entry.
pub proof fn lemma_title_of(catalogue: Seq<CatalogueEntry>, id: Seq<char>, from: int)
    requires
        0 <= from,
    ensures
        match title_of(catalogue, id, from) {
            Some(title) => exists|k: int|
                {
                    &&& from <= k < catalogue.len()
                    &&& (#[trigger] catalogue[k]).id@ == id
                    &&& catalogue[k].title@ == title
                    &&& forall|j: int| from <= j < k ==> (#[trigger] catalogue[j]).id@ != id
                },
            None => forall|k: int|
                from <= k < catalogue.len() ==> (#[trigger] catalogue[k]).id@ != id,
        },
    decreases catalogue.len() - from,
{
    if from < catalogue.len() && catalogue[from].id@ != id {
        lemma_title_of(catalogue, id, from + 1);
    }
}

/// A key does what the panel binds to it, else what the application does. A key
/// that neither binds does nothing and has no label, but for F11, which has the
/// label of the full screen.
pub proof fn lemma_slot(catalogue: Seq<CatalogueEntry>, keys: KeyCommands, i: int)
    requires
        0 <= i < 12,
    ensures
        keys.panel is Some ==> slot_label(catalogue, keys, i) == label_of(
            catalogue,
            keys.panel->0@,
        ),
        keys.panel is None && keys.app is Some ==> slot_label(catalogue, keys, i) == label_of(
            catalogue,
            keys.app->0@,
        ),
        keys.panel is None && keys.app is None && i != 10 ==> slot_label(catalogue, keys, i).len()
            == 0,
        keys.panel is None && keys.app is None && i == 10 ==> slot_label(catalogue, keys, i)
            == label_of(catalogue, "window.toggle_fullscreen"@),
{
}

/// A command that the catalogue lists is labelled from its title; any other from
/// the few labels that stand beside the catalogue, or by a question mark.
pub proof fn lemma_label_of(catalogue: Seq<CatalogueEntry>, id: Seq<char>)
    ensures
        title_of(catalogue, id, 0) is Some ==> label_of(catalogue, id) == first_word(
            title_of(catalogue, id, 0)->0,
        ),
        title_of(catalogue, id, 0) is None ==> {
            ||| id == "help.show"@ && label_of(catalogue, id) == "Help"@
            ||| id == "menu.activate"@ && label_of(catalogue, id) == "Menu"@
            ||| id == "tbd.f9_unverified"@ && label_of(catalogue, id) == "(unverified)"@
            ||| id == "window.toggle_fullscreen"@ && label_of(catalogue, id) == "Fullscreen"@
            ||| label_of(catalogue, id) == "?"@ && !seq![
                "help.show"@,
                "menu.activate"@,
                "tbd.f9_unverified"@,
                "window.toggle_fullscreen"@,
            ].contains(id)
        },
{
}

} // verus!
