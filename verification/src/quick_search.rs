//! Type-ahead search: the two regimes, how names are matched, and which match
//! the cursor jumps to.

use crate::text::{chars_of, same_text};
use vstd::prelude::*;
use vstd::utf8::{encode_scalar, encode_utf8};

verus! {

/// Which mouse gesture selects a row.
#[derive(Clone, Copy, Debug, PartialEq, Eq, Structural)]
pub enum MouseMode {
    /// A plain click selects.
    Windows,
    /// A plain click moves the cursor; a right click selects.
    Norton,
    /// The mouse does not select.
    Off,
}

impl Default for MouseMode {
    fn default() -> (mode: Self)
        ensures
            mode == MouseMode::Windows,
    {
        MouseMode::Windows
    }
}

impl MouseMode {
    /// Reads the setting; a value that is not known stands for the default.
    pub fn from_settings_str(value: &str) -> (mode: Self)
        ensures
            mode == (if value@ == "norton"@ {
                MouseMode::Norton
            } else if value@ == "none"@ {
                MouseMode::Off
            } else {
                MouseMode::Windows
            }),
    {
        if same_text(value, "norton") {
            MouseMode::Norton
        } else if same_text(value, "none") {
            MouseMode::Off
        } else {
            MouseMode::Windows
        }
    }
}

/// What typing does.
#[derive(Clone, Copy, Debug, PartialEq, Eq, Structural)]
pub enum QuickSearchMode {
    /// The cursor jumps to the best match.
    Jump,
    /// Rows that do not match are hidden.
    Filter,
}

impl Default for QuickSearchMode {
    fn default() -> (mode: Self)
        ensures
            mode == QuickSearchMode::Jump,
    {
        QuickSearchMode::Jump
    }
}

pub open spec fn other_mode(mode: QuickSearchMode) -> QuickSearchMode {
    match mode {
        QuickSearchMode::Jump => QuickSearchMode::Filter,
        QuickSearchMode::Filter => QuickSearchMode::Jump,
    }
}

impl QuickSearchMode {
    /// Reads the setting; a value that is not known stands for the default.
    pub fn from_settings_str(value: &str) -> (mode: Self)
        ensures
            mode == (if value@ == "filter"@ {
                QuickSearchMode::Filter
            } else {
                QuickSearchMode::Jump
            }),
    {
        if same_text(value, "filter") {
            QuickSearchMode::Filter
        } else {
            QuickSearchMode::Jump
        }
    }

    /// The other regime.
    pub fn toggled(self) -> (mode: Self)
        ensures
            mode == other_mode(self),
    {
        match self {
            QuickSearchMode::Jump => QuickSearchMode::Filter,
            QuickSearchMode::Filter => QuickSearchMode::Jump,
        }
    }
}

/// Switching the regime twice gives the first one back.
pub proof fn lemma_toggled_twice(mode: QuickSearchMode)
    ensures
        other_mode(other_mode(mode)) == mode,
        other_mode(mode) != mode,
{
}

/// The score of `name` under the pattern `query`, or `None` where it does not
/// match.
pub uninterp spec fn fuzzy_score(query: Seq<char>, name: Seq<char>) -> Option<u32>;

/// The places in `name` that the pattern `query` matched, pattern word by
/// pattern word.
pub uninterp spec fn fuzzy_indices(query: Seq<char>, name: Seq<char>) -> Seq<u32>;

/// A character in its simple case folding.
pub uninterp spec fn folded(c: char) -> char;

/// A Latin letter without its accents; any other character as it is.
pub uninterp spec fn unaccented(c: char) -> char;

/// Whether a character is a lower-case one.
pub uninterp spec fn is_lower(c: char) -> bool;

/// `nucleo_matcher::chars::to_lower_case`. The result is a function of the
/// character.
#[verifier::external_body]
fn fold_char(c: char) -> (f: char)
    ensures
        f == folded(c),
{
    nucleo_matcher::chars::to_lower_case(c)
}

/// `nucleo_matcher::chars::normalize`. The result is a function of the
/// character.
#[verifier::external_body]
fn unaccent_char(c: char) -> (u: char)
    ensures
        u == unaccented(c),
{
    nucleo_matcher::chars::normalize(c)
}

/// `char::is_lowercase`. The result is a function of the character.
#[verifier::external_body]
fn lower_char(c: char) -> (l: bool)
    ensures
        l == is_lower(c),
{
    c.is_lowercase()
}

/// Whether the words of a query are parted at `i`: by a space that no backslash
/// stands before.
pub open spec fn parted_at(query: Seq<char>, i: int) -> bool {
    query[i] == ' ' && !(i > 0 && query[i - 1] == '\\')
}

/// The words of a query.
pub open spec fn words(query: Seq<char>) -> Seq<Seq<char>>
    decreases query.len(),
{
    if query.len() == 0 {
        seq![Seq::empty()]
    } else {
        let before = words(query.drop_last());
        if parted_at(query, query.len() - 1) {
            before.push(Seq::empty())
        } else {
            before.drop_last().push(before.last().push(query.last()))
        }
    }
}

pub open spec fn all_ascii(word: Seq<char>) -> bool {
    forall|i: int| 0 <= i < word.len() ==> (#[trigger] word[i] as u32) < 0x80
}

pub open spec fn backslashes(word: Seq<char>) -> nat
    decreases word.len(),
{
    if word.len() == 0 {
        0
    } else {
        backslashes(word.drop_last()) + if word.last() == '\\' {
            1nat
        } else {
            0nat
        }
    }
}

/// How many characters the matcher looks for, at most, to find a word. In a
/// word that is not ASCII it can double a backslash.
pub open spec fn room(word: Seq<char>) -> nat {
    word.len() + if all_ascii(word) {
        0
    } else {
        backslashes(word)
    }
}

/// The most that a word can score in a name of `len` characters: 36 for the
/// first character and 26 for each further one.
pub open spec fn top_score(word: Seq<char>, len: nat) -> nat {
    let n = if room(word) < len {
        room(word)
    } else {
        len
    };
    if n == 0 {
        0
    } else {
        10 + 26 * n
    }
}

/// The most that some words can score together.
pub open spec fn top_total(words: Seq<Seq<char>>, len: nat) -> nat
    decreases words.len(),
{
    if words.len() == 0 {
        0
    } else {
        top_total(words.drop_last(), len) + top_score(words.last(), len)
    }
}

/// Whether a word holds an accented letter, so that accents are not passed over
/// in looking for it.
pub open spec fn is_accented(word: Seq<char>) -> bool {
    !all_ascii(word) && exists|i: int|
        0 <= i < word.len() && unaccented(folded(#[trigger] word[i])) != folded(word[i])
}

/// Whether a character is a lower-case one that case folding changes (`ſ` or
/// `µ`). Where accents are not passed over, the matcher folds it in looking for
/// the place at which a word can begin, and not in matching the word there.
pub open spec fn folds_though_lower(c: char) -> bool {
    is_lower(c) && folded(c) != c
}

/// Whether a character is read as `first` in looking for the place at which a
/// word can begin, and not in matching the word there.
pub open spec fn is_false_start(c: char, first: char) -> bool {
    folds_though_lower(c) && folded(c) == folded(first)
}

/// Whether a character is read as `first` both times.
pub open spec fn is_true_start(c: char, first: char) -> bool {
    !folds_though_lower(c) && folded(c) == folded(first)
}

/// Whether a name holds at `k` a character that is read as `first` both times
/// and that the matcher surely looks at. It passes over characters that belong
/// to the one before them, which the first of a name and an ASCII character
/// behind another do not.
pub open spec fn is_sure_start(name: Seq<char>, k: int, first: char) -> bool {
    &&& is_true_start(name[k], first)
    &&& k == 0 || ((name[k - 1] as u32) < 0x80 && (name[k] as u32) < 0x80 && name[k] != '\n')
}

/// Whether an accented word can begin in a name, and the matcher can look for
/// its beginning too far in front.
pub open spec fn is_misread(word: Seq<char>, name: Seq<char>) -> bool {
    is_accented(word) && exists|i: int, j: int|
        {
            &&& 0 <= i < j < name.len()
            &&& #[trigger] is_false_start(name[i], word[0])
            &&& #[trigger] is_true_start(name[j], word[0])
            &&& forall|k: int| 0 <= k < i ==> !(#[trigger] is_sure_start(name, k, word[0]))
        }
}

/// Whether the matcher's counts hold: it takes no more than 2^32 - 1 bytes of a
/// name, it multiplies the name's length with a word's, a word's score has 16
/// bits and the query's has 32.
pub open spec fn counts_fit(words: Seq<Seq<char>>, len: nat) -> bool {
    &&& 4 * len <= u32::MAX
    &&& 4 * 2520 * len <= usize::MAX
    &&& forall|i: int|
        0 <= i < words.len() ==> top_score(#[trigger] words[i], len) <= u16::MAX
    &&& top_total(words, len) <= u32::MAX
}

/// Whether the matcher can be asked for a query in a name.
pub open spec fn can_match(query: Seq<char>, name: Seq<char>) -> bool {
    &&& counts_fit(words(query), name.len())
    &&& forall|i: int| 0 <= i < words(query).len() ==> !is_misread(#[trigger] words(query)[i], name)
}

/// `nucleo_matcher::pattern::Pattern::score` of the pattern that
/// `Pattern::parse` reads out of `query`, letter case ignored and accents
/// matched smartly, with a matcher of the default configuration. The result
/// is a function of the two texts.
#[verifier::external_body]
fn pattern_score(query: &str, name: &str) -> (score: Option<u32>)
    requires
        can_match(query@, name@),
    ensures
        score == fuzzy_score(query@, name@),
{
    let mut matcher = nucleo_matcher::Matcher::new(nucleo_matcher::Config::DEFAULT);
    let mut buf = Vec::new();
    nucleo_matcher::pattern::Pattern::parse(
        query,
        nucleo_matcher::pattern::CaseMatching::Ignore,
        nucleo_matcher::pattern::Normalization::Smart,
    ).score(nucleo_matcher::Utf32Str::new(name, &mut buf), &mut matcher)
}

/// `nucleo_matcher::pattern::Pattern::indices` of the same pattern, matcher
/// and name: the indices that the call appends to an empty vector. The result
/// is a function of the two texts.
#[verifier::external_body]
fn pattern_indices(query: &str, name: &str) -> (indices: Vec<u32>)
    requires
        can_match(query@, name@),
    ensures
        indices@ == fuzzy_indices(query@, name@),
{
    let mut matcher = nucleo_matcher::Matcher::new(nucleo_matcher::Config::DEFAULT);
    let mut buf = Vec::new();
    let mut indices = Vec::new();
    nucleo_matcher::pattern::Pattern::parse(
        query,
        nucleo_matcher::pattern::CaseMatching::Ignore,
        nucleo_matcher::pattern::Normalization::Smart,
    ).indices(nucleo_matcher::Utf32Str::new(name, &mut buf), &mut matcher, &mut indices);
    indices
}

pub open spec fn word_views(words: Seq<Vec<char>>) -> Seq<Seq<char>> {
    Seq::new(words.len(), |i: int| words[i]@)
}

fn split_words(query: &Vec<char>) -> (found: Vec<Vec<char>>)
    ensures
        word_views(found@) == words(query@),
{
    let mut found: Vec<Vec<char>> = Vec::new();
    let mut word: Vec<char> = Vec::new();
    let mut i: usize = 0;
    assert(word_views(found@).push(word@) =~= words(query@.take(0)));
    while i < query.len()
        invariant
            i <= query@.len(),
            word_views(found@).push(word@) == words(query@.take(i as int)),
        decreases query@.len() - i,
    {
        let ghost before = word_views(found@);
        let ghost current = word@;
        let ghost now = query@.take(i + 1);
        assert(now.drop_last() =~= query@.take(i as int));
        assert(now.last() == query@[i as int]);
        assert(i > 0 ==> now[i - 1] == query@[i - 1]);
        assert(before.push(current).drop_last() =~= before);
        let c = query[i];
        if c == ' ' && !(i > 0 && query[i - 1] == '\\') {
            found.push(word);
            word = Vec::new();
            assert(word_views(found@) =~= before.push(current));
            assert(word@ =~= Seq::<char>::empty());
        } else {
            word.push(c);
        }
        assert(word_views(found@).push(word@) =~= words(now));
        i = i + 1;
    }
    assert(query@.take(i as int) =~= query@);
    let ghost before = word_views(found@);
    found.push(word);
    assert(word_views(found@) =~= before.push(word@));
    found
}

fn ascii_word(word: &Vec<char>) -> (ascii: bool)
    ensures
        ascii == all_ascii(word@),
{
    let mut i: usize = 0;
    while i < word.len()
        invariant
            i <= word@.len(),
            forall|j: int| 0 <= j < i ==> (#[trigger] word@[j] as u32) < 0x80,
        decreases word@.len() - i,
    {
        if (word[i] as u32) >= 0x80 {
            assert(!((word@[i as int] as u32) < 0x80));
            return false;
        }
        i = i + 1;
    }
    true
}

fn word_room(word: &Vec<char>) -> (n: u128)
    ensures
        n == room(word@),
{
    let mut count: u128 = 0;
    let mut i: usize = 0;
    assert(word@.take(0).len() == 0);
    while i < word.len()
        invariant
            i <= word@.len(),
            count <= i,
            count == backslashes(word@.take(i as int)),
        decreases word@.len() - i,
    {
        assert(word@.take(i + 1).drop_last() =~= word@.take(i as int));
        assert(word@.take(i + 1).last() == word@[i as int]);
        if word[i] == '\\' {
            count = count + 1;
        }
        i = i + 1;
    }
    assert(word@.take(i as int) =~= word@);
    if ascii_word(word) {
        word.len() as u128
    } else {
        word.len() as u128 + count
    }
}

fn word_top(word: &Vec<char>, len: usize) -> (top: u128)
    ensures
        top == top_score(word@, len as nat),
{
    let wanted = word_room(word);
    let n: u128 = if wanted < len as u128 {
        wanted
    } else {
        len as u128
    };
    if n == 0 {
        0
    } else {
        10 + 26 * n
    }
}

fn counts_hold(words: &Vec<Vec<char>>, len: usize) -> (fit: bool)
    ensures
        fit == counts_fit(word_views(words@), len as nat),
{
    if 4 * (len as u128) > u32::MAX as u128 || 10080 * (len as u128) > usize::MAX as u128 {
        return false;
    }
    let ghost views = word_views(words@);
    let mut total: u128 = 0;
    let mut i: usize = 0;
    assert(views.take(0).len() == 0);
    while i < words.len()
        invariant
            i <= words@.len(),
            views == word_views(words@),
            total <= i * 65535,
            total == top_total(views.take(i as int), len as nat),
            forall|j: int|
                0 <= j < i ==> top_score(#[trigger] views[j], len as nat) <= u16::MAX,
        decreases words@.len() - i,
    {
        let top = word_top(&words[i], len);
        assert(views[i as int] == words@[i as int]@);
        if top > 65535 {
            assert(top_score(views[i as int], len as nat) > u16::MAX);
            return false;
        }
        assert(views.take(i + 1).drop_last() =~= views.take(i as int));
        assert(views.take(i + 1).last() == views[i as int]);
        assert(i * 65535 <= 0xffff_ffff_ffff_ffff * 65535) by (nonlinear_arith)
            requires
                i <= 0xffff_ffff_ffff_ffff,
        ;
        total = total + top;
        i = i + 1;
    }
    assert(views.take(i as int) =~= views);
    total <= u32::MAX as u128
}

fn accented_word(word: &Vec<char>) -> (accented: bool)
    ensures
        accented == is_accented(word@),
{
    if ascii_word(word) {
        return false;
    }
    let mut i: usize = 0;
    while i < word.len()
        invariant
            i <= word@.len(),
            !all_ascii(word@),
            forall|j: int|
                0 <= j < i ==> unaccented(folded(#[trigger] word@[j])) == folded(word@[j]),
        decreases word@.len() - i,
    {
        let f = fold_char(word[i]);
        if unaccent_char(f) != f {
            assert(unaccented(folded(word@[i as int])) != folded(word@[i as int]));
            return true;
        }
        i = i + 1;
    }
    false
}

fn misread_word(word: &Vec<char>, name: &Vec<char>) -> (misread: bool)
    ensures
        misread == is_misread(word@, name@),
{
    if !accented_word(word) {
        return false;
    }
    let first = fold_char(word[0]);
    let mut too_far = false;
    let ghost mut at: int = 0;
    let mut i: usize = 0;
    while i < name.len()
        invariant
            i <= name@.len(),
            is_accented(word@),
            first == folded(word@[0]),
            too_far ==> 0 <= at < i && is_false_start(name@[at], word@[0]) && (forall|k: int|
                0 <= k < at ==> !(#[trigger] is_sure_start(name@, k, word@[0]))) && (forall|j: int|
                at < j < i ==> !(#[trigger] is_true_start(name@[j], word@[0]))),
            forall|k: int|
                0 <= k < (if too_far {
                    at
                } else {
                    i as int
                }) ==> !(#[trigger] is_false_start(name@[k], word@[0])),
            !too_far ==> forall|k: int|
                0 <= k < i ==> !(#[trigger] is_sure_start(name@, k, word@[0])),
        decreases name@.len() - i,
    {
        let f = fold_char(name[i]);
        if f == first {
            if f != name[i] && lower_char(name[i]) {
                assert(is_false_start(name@[i as int], word@[0]));
                if !too_far {
                    too_far = true;
                    proof {
                        at = i as int;
                    }
                }
            } else {
                assert(is_true_start(name@[i as int], word@[0]));
                if too_far {
                    assert(is_false_start(name@[at], word@[0]));
                    return true;
                }
                if i == 0 || ((name[i - 1] as u32) < 0x80 && (name[i] as u32) < 0x80 && name[i]
                    != '\n') {
                    assert(is_sure_start(name@, i as int, word@[0]));
                    return false;
                }
            }
        }
        i = i + 1;
    }
    false
}

/// Whether the matcher can be asked for a query in a name.
pub fn matcher_takes(query: &str, name: &str) -> (takes: bool)
    ensures
        takes == can_match(query@, name@),
{
    let found = split_words(&chars_of(query));
    let letters = chars_of(name);
    if !counts_hold(&found, letters.len()) {
        return false;
    }
    let ghost views = word_views(found@);
    let mut i: usize = 0;
    while i < found.len()
        invariant
            i <= found@.len(),
            letters@ == name@,
            views == word_views(found@),
            views == words(query@),
            forall|j: int| 0 <= j < i ==> !is_misread(#[trigger] views[j], name@),
        decreases found@.len() - i,
    {
        assert(views[i as int] == found@[i as int]@);
        if misread_word(&found[i], &letters) {
            assert(is_misread(words(query@)[i as int], name@));
            return false;
        }
        i = i + 1;
    }
    true
}

/// The score of `name` under `query`; `None` where it does not match.
pub fn score_name(query: &str, name: &str) -> (s: Option<u32>)
    requires
        can_match(query@, name@),
    ensures
        s == fuzzy_score(query@, name@),
{
    pattern_score(query, name)
}

/// The places in `name` that `query` matched, in order, each once.
pub fn matched_places(query: &str, name: &str) -> (places: Vec<u32>)
    requires
        can_match(query@, name@),
    ensures
        is_sorted_set_of(places@, fuzzy_indices(query@, name@)),
{
    sorted_distinct(&pattern_indices(query, name))
}

/// Whether `s` rises from each item to the next.
pub open spec fn strictly_rising(s: Seq<u32>) -> bool {
    forall|i: int, j: int| 0 <= i < j < s.len() ==> #[trigger] s[i] < #[trigger] s[j]
}

/// Whether `s` lists what `of` holds, in rising order, each once.
pub open spec fn is_sorted_set_of(s: Seq<u32>, of: Seq<u32>) -> bool {
    &&& strictly_rising(s)
    &&& forall|x: u32| #[trigger] s.contains(x) <==> of.contains(x)
}

/// What a vector holds, in rising order, each once.
pub fn sorted_distinct(items: &Vec<u32>) -> (sorted: Vec<u32>)
    ensures
        is_sorted_set_of(sorted@, items@),
        sorted@.len() <= items@.len(),
{
    let mut sorted: Vec<u32> = Vec::new();
    let mut i: usize = 0;
    assert(items@.take(0) =~= Seq::<u32>::empty());
    while i < items.len()
        invariant
            i <= items@.len(),
            is_sorted_set_of(sorted@, items@.take(i as int)),
            sorted@.len() <= i,
        decreases items@.len() - i,
    {
        let x = items[i];
        let ghost before = sorted@;
        let ghost seen = items@.take(i as int);
        let ghost now = items@.take(i + 1);
        proof {
            assert(now =~= seen.push(x));
            assert forall|y: u32| #[trigger] now.contains(y) <==> (seen.contains(y) || y == x) by {
                if now.contains(y) {
                    let k = choose|k: int| 0 <= k < now.len() && now[k] == y;
                    if k < seen.len() {
                        assert(seen[k] == y);
                    }
                }
                if seen.contains(y) {
                    let k = choose|k: int| 0 <= k < seen.len() && seen[k] == y;
                    assert(now[k] == y);
                }
                assert(now[i as int] == x);
            }
        }
        let mut at: usize = 0;
        while at < sorted.len() && sorted[at] < x
            invariant
                sorted@ == before,
                at <= before.len(),
                forall|j: int| 0 <= j < at ==> before[j] < x,
            decreases before.len() - at,
        {
            at = at + 1;
        }
        if at < sorted.len() && sorted[at] == x {
            assert(before[at as int] == x);
            assert(before.contains(x));
        } else {
            proof {
                let after = before.insert(at as int, x);
                assert forall|a: int, b: int| 0 <= a < b < after.len() implies #[trigger] after[a]
                    < #[trigger] after[b] by {
                    let oa = if a < at {
                        a
                    } else {
                        a - 1
                    };
                    let ob = if b < at {
                        b
                    } else {
                        b - 1
                    };
                    if a != at && b != at {
                        assert(before[oa] < before[ob]);
                    } else if a == at {
                        if ob > at {
                            assert(before[at as int] < before[ob]);
                        }
                    }
                }
                assert forall|y: u32| #[trigger] after.contains(y) <==> (before.contains(y) || y
                    == x) by {
                    if after.contains(y) {
                        let k = choose|k: int| 0 <= k < after.len() && after[k] == y;
                        if k < at {
                            assert(before[k] == y);
                        } else if k > at {
                            assert(before[k - 1] == y);
                        }
                    }
                    if before.contains(y) {
                        let k = choose|k: int| 0 <= k < before.len() && before[k] == y;
                        if k < at {
                            assert(after[k] == y);
                        } else {
                            assert(after[k + 1] == y);
                        }
                    }
                    assert(after[at as int] == x);
                }
            }
            sorted.insert(at, x);
        }
        i = i + 1;
    }
    assert(items@.take(i as int) =~= items@);
    sorted
}

/// How far apart two rows are.
pub open spec fn distance(a: int, b: int) -> int {
    if a < b {
        b - a
    } else {
        a - b
    }
}

/// Whether match `a` goes before match `b`: it scores higher, or as high and
/// nearer to the anchor, or as high and as near and further up. A match is a
/// row and its score.
pub open spec fn goes_before(a: (usize, u32), b: (usize, u32), anchor: int) -> bool {
    ||| a.1 > b.1
    ||| a.1 == b.1 && distance(a.0 as int, anchor) < distance(b.0 as int, anchor)
    ||| a.1 == b.1 && distance(a.0 as int, anchor) == distance(b.0 as int, anchor) && a.0 < b.0
}

/// Whether the rows of `matched` rise.
pub open spec fn rows_rise(matched: Seq<(usize, u32)>) -> bool {
    forall|i: int, j: int|
        0 <= i < j < matched.len() ==> (#[trigger] matched[i]).0 < (#[trigger] matched[j]).0
}

/// Whether the match at `w` goes before every other.
pub open spec fn is_best(matched: Seq<(usize, u32)>, anchor: int, w: int) -> bool {
    &&& 0 <= w < matched.len()
    &&& forall|i: int|
        0 <= i < matched.len() && i != w ==> goes_before(
            matched[w],
            #[trigger] matched[i],
            anchor,
        )
}

/// At most one match goes before every other.
pub proof fn lemma_best_is_unique(matched: Seq<(usize, u32)>, anchor: int, a: int, b: int)
    requires
        is_best(matched, anchor, a),
        is_best(matched, anchor, b),
    ensures
        a == b,
{
    if a != b {
        assert(goes_before(matched[a], matched[b], anchor));
        assert(goes_before(matched[b], matched[a], anchor));
    }
}

fn gap(a: usize, b: usize) -> (d: usize)
    ensures
        d == distance(a as int, b as int),
{
    if a < b {
        b - a
    } else {
        a - b
    }
}

/// Picks the match that the cursor jumps to.
pub fn pick_match(matched: &Vec<(usize, u32)>, anchor: usize) -> (winner: Option<usize>)
    requires
        rows_rise(matched@),
    ensures
        match winner {
            Some(w) => is_best(matched@, anchor as int, w as int),
            None => matched@.len() == 0,
        },
{
    if matched.len() == 0 {
        return None;
    }
    let mut best: usize = 0;
    let mut i: usize = 1;
    while i < matched.len()
        invariant
            1 <= i <= matched@.len(),
            best < i,
            rows_rise(matched@),
            forall|j: int|
                0 <= j < i && j != best ==> goes_before(
                    matched@[best as int],
                    #[trigger] matched@[j],
                    anchor as int,
                ),
        decreases matched@.len() - i,
    {
        let a = matched[best];
        let b = matched[i];
        assert(matched@[best as int].0 < matched@[i as int].0);
        if b.1 > a.1 || (b.1 == a.1 && gap(b.0, anchor) < gap(a.0, anchor)) {
            best = i;
        }
        i = i + 1;
    }
    Some(best)
}

/// UTF-8 length of a character.
pub open spec fn utf8_len(c: char) -> nat {
    if (c as u32) < 0x80 {
        1
    } else if (c as u32) < 0x800 {
        2
    } else if (c as u32) < 0x10000 {
        3
    } else {
        4
    }
}

/// UTF-8 length of a text.
pub open spec fn byte_len(s: Seq<char>) -> nat
    decreases s.len(),
{
    if s.len() == 0 {
        0
    } else {
        byte_len(s.drop_last()) + utf8_len(s.last())
    }
}

/// Whether a byte lies in one of the ranges.
pub open spec fn covered(ranges: Seq<core::ops::Range<usize>>, byte: int) -> bool {
    exists|r: int| 0 <= r < ranges.len() && (#[trigger] ranges[r]).start <= byte < ranges[r].end
}

/// Whether a byte belongs to one of the characters of `s` that `picked` names.
pub open spec fn picked_byte(s: Seq<char>, picked: Seq<u32>, byte: int) -> bool {
    exists|k: int|
        0 <= k < s.len() && #[trigger] picks(picked, k) && byte_len(s.take(k)) <= byte < byte_len(
            s.take(k + 1),
        )
}

pub open spec fn picks(picked: Seq<u32>, k: int) -> bool {
    exists|i: int| 0 <= i < picked.len() && #[trigger] picked[i] == k
}

/// Whether ranges are not empty and leave at least a byte between them.
pub open spec fn apart(ranges: Seq<core::ops::Range<usize>>) -> bool {
    &&& forall|r: int| 0 <= r < ranges.len() ==> (#[trigger] ranges[r]).start < ranges[r].end
    &&& forall|r: int, q: int|
        0 <= r < q < ranges.len() ==> (#[trigger] ranges[r]).end < (#[trigger] ranges[q]).start
}

fn char_bytes(c: char) -> (n: usize)
    ensures
        n == utf8_len(c),
        1 <= n <= 4,
{
    if (c as u32) < 0x80 {
        1
    } else if (c as u32) < 0x800 {
        2
    } else if (c as u32) < 0x10000 {
        3
    } else {
        4
    }
}

fn contains_index(indices: &Vec<u32>, k: usize) -> (found: bool)
    ensures
        found == picks(indices@, k as int),
{
    let mut i: usize = 0;
    while i < indices.len()
        invariant
            i <= indices@.len(),
            forall|j: int| 0 <= j < i ==> indices@[j] != k,
        decreases indices@.len() - i,
    {
        if indices[i] as u64 == k as u64 {
            return true;
        }
        i = i + 1;
    }
    false
}

/// The byte ranges of the characters that `indices` names, in order, with
/// neighbouring characters in one range. Indices behind the end name nothing.
pub fn char_indices_to_byte_ranges(name: &str, indices: &Vec<u32>) -> (ranges: Vec<core::ops::Range<usize>>)
    requires
        byte_len(name@) <= usize::MAX,
    ensures
        apart(ranges@),
        forall|byte: int|
            #![trigger covered(ranges@, byte)]
            covered(ranges@, byte) <==> picked_byte(name@, indices@, byte),
{
    let chars = chars_of(name);
    let mut ranges: Vec<core::ops::Range<usize>> = Vec::new();
    let mut offset: usize = 0;
    let mut k: usize = 0;
    let ghost s = name@;
    assert(s.take(0).len() == 0);
    while k < chars.len()
        invariant
            chars@ == s,
            s == name@,
            k <= s.len(),
            offset == byte_len(s.take(k as int)),
            byte_len(s) <= usize::MAX,
            apart(ranges@),
            forall|r: int| 0 <= r < ranges@.len() ==> (#[trigger] ranges@[r]).end <= offset,
            forall|byte: int|
                #![trigger covered(ranges@, byte)]
                covered(ranges@, byte) <==> picked_byte(s.take(k as int), indices@, byte),
        decreases s.len() - k,
    {
        let n = char_bytes(chars[k]);
        let ghost before = ranges@;
        let ghost seen = s.take(k as int);
        let ghost now = s.take(k + 1);
        proof {
            assert(now.drop_last() =~= seen);
            assert(now.last() == chars@[k as int]);
            lemma_byte_len_grows(s, k + 1);
            lemma_picked_step(s, indices@, k as int);
        }
        let end: usize = offset + n;
        if contains_index(indices, k) {
            let count: usize = ranges.len();
            if count > 0 && ranges[count - 1].end == offset {
                let from: usize = ranges[count - 1].start;
                ranges.set(count - 1, from..end);
                proof {
                    let after = ranges@;
                    assert forall|byte: int| #[trigger] covered(after, byte) <==> (covered(
                        before,
                        byte,
                    ) || offset <= byte < end) by {
                        if covered(after, byte) {
                            let r = choose|r: int|
                                0 <= r < after.len() && (#[trigger] after[r]).start <= byte
                                    < after[r].end;
                            if r < count - 1 {
                                assert(before[r].start <= byte < before[r].end);
                            } else if byte < offset {
                                assert(before[r].start <= byte < before[r].end);
                            }
                        }
                        if covered(before, byte) {
                            let r = choose|r: int|
                                0 <= r < before.len() && (#[trigger] before[r]).start <= byte
                                    < before[r].end;
                            assert(after[r].start <= byte < after[r].end);
                        }
                        if offset <= byte < end {
                            assert(before[count - 1].start < before[count - 1].end);
                            assert(after[count - 1].start <= byte < after[count - 1].end);
                        }
                    }
                    assert forall|r: int, q: int| 0 <= r < q < after.len() implies (
                    #[trigger] after[r]).end < (#[trigger] after[q]).start by {
                        assert(before[r].end < before[q].start);
                    }
                    assert forall|r: int| 0 <= r < after.len() implies (#[trigger] after[r]).start
                        < after[r].end by {
                        assert(before[r].start < before[r].end);
                    }
                }
            } else {
                ranges.push(offset..end);
                proof {
                    let after = ranges@;
                    assert forall|byte: int| #[trigger] covered(after, byte) <==> (covered(
                        before,
                        byte,
                    ) || offset <= byte < end) by {
                        if covered(after, byte) {
                            let r = choose|r: int|
                                0 <= r < after.len() && (#[trigger] after[r]).start <= byte
                                    < after[r].end;
                            if r < count {
                                assert(before[r].start <= byte < before[r].end);
                            }
                        }
                        if covered(before, byte) {
                            let r = choose|r: int|
                                0 <= r < before.len() && (#[trigger] before[r]).start <= byte
                                    < before[r].end;
                            assert(after[r].start <= byte < after[r].end);
                        }
                        if offset <= byte < end {
                            assert(after[count as int].start <= byte < after[count as int].end);
                        }
                    }
                    assert forall|r: int, q: int| 0 <= r < q < after.len() implies (
                    #[trigger] after[r]).end < (#[trigger] after[q]).start by {
                        if q < count {
                            assert(before[r].end < before[q].start);
                        } else {
                            assert(before[r].end <= offset);
                            if r < count - 1 {
                                assert(before[r].end < before[count - 1].start);
                                assert(before[count - 1].start < before[count - 1].end);
                            }
                        }
                    }
                }
            }
        }
        offset = end;
        k = k + 1;
    }
    assert(s.take(k as int) =~= s);
    ranges
}

proof fn lemma_byte_len_grows(s: Seq<char>, n: int)
    requires
        0 <= n <= s.len(),
    ensures
        byte_len(s.take(n)) <= byte_len(s),
    decreases s.len(),
{
    if n < s.len() {
        lemma_byte_len_grows(s.drop_last(), n);
        assert(s.drop_last().take(n) =~= s.take(n));
    } else {
        assert(s.take(n) =~= s);
    }
}

proof fn lemma_picked_step(s: Seq<char>, picked: Seq<u32>, k: int)
    requires
        0 <= k < s.len(),
    ensures
        forall|byte: int|
            #![trigger picked_byte(s.take(k + 1), picked, byte)]
            picked_byte(s.take(k + 1), picked, byte) <==> (picked_byte(s.take(k), picked, byte) || (
            picks(picked, k) && byte_len(s.take(k)) <= byte < byte_len(s.take(k + 1)))),
        forall|byte: int|
            #![trigger picked_byte(s.take(k), picked, byte)]
            picked_byte(s.take(k + 1), picked, byte) <==> (picked_byte(s.take(k), picked, byte) || (
            picks(picked, k) && byte_len(s.take(k)) <= byte < byte_len(s.take(k + 1)))),
{
    let now = s.take(k + 1);
    let seen = s.take(k);
    assert forall|byte: int| picked_byte(now, picked, byte) <==> (picked_byte(seen, picked, byte)
        || (picks(picked, k) && byte_len(s.take(k)) <= byte < byte_len(s.take(k + 1)))) by {
        assert(now.take(k) =~= s.take(k));
        assert(now.take(k + 1) =~= s.take(k + 1));
        if picked_byte(now, picked, byte) {
            let j = choose|j: int|
                0 <= j < now.len() && #[trigger] picks(picked, j) && byte_len(now.take(j)) <= byte
                    < byte_len(now.take(j + 1));
            if j < k {
                assert(now.take(j) =~= seen.take(j));
                assert(now.take(j + 1) =~= seen.take(j + 1));
                assert(picks(picked, j));
            }
        }
        if picked_byte(seen, picked, byte) {
            let j = choose|j: int|
                0 <= j < seen.len() && #[trigger] picks(picked, j) && byte_len(seen.take(j))
                    <= byte < byte_len(seen.take(j + 1));
            assert(now.take(j) =~= seen.take(j));
            assert(now.take(j + 1) =~= seen.take(j + 1));
            assert(picks(picked, j));
        }
    }
}

proof fn lemma_encoding_grows(s: Seq<char>, c: char)
    ensures
        encode_utf8(s.push(c)).len() == encode_utf8(s).len() + utf8_len(c),
    decreases s.len(),
{
    if s.len() == 0 {
        assert(s.push(c).drop_first() =~= Seq::<char>::empty());
        assert(encode_utf8(Seq::<char>::empty()).len() == 0);
        assert(encode_scalar(c as u32).len() == utf8_len(c));
    } else {
        lemma_encoding_grows(s.drop_first(), c);
        assert(s.push(c).drop_first() =~= s.drop_first().push(c));
        assert(s.push(c)[0] == s[0]);
    }
}

/// The length of a text is that of its encoding.
pub proof fn lemma_byte_len_is_that_of_the_encoding(s: Seq<char>)
    ensures
        byte_len(s) == encode_utf8(s).len(),
    decreases s.len(),
{
    if s.len() > 0 {
        lemma_byte_len_is_that_of_the_encoding(s.drop_last());
        lemma_encoding_grows(s.drop_last(), s.last());
        assert(s.drop_last().push(s.last()) =~= s);
    }
}

proof fn lemma_prefixes_rise(s: Seq<char>, a: int, b: int)
    requires
        0 <= a <= b <= s.len(),
    ensures
        byte_len(s.take(a)) + (b - a) <= byte_len(s.take(b)),
    decreases b - a,
{
    if a < b {
        lemma_prefixes_rise(s, a, b - 1);
        assert(s.take(b).drop_last() =~= s.take(b - 1));
    }
}

/// The bytes of a character are covered where it was named, and not where it was
/// not: each character of a name is set off whole or not at all. Between two
/// ranges lies at least one byte that is not.
pub proof fn lemma_named_characters_are_covered(
    name: Seq<char>,
    indices: Seq<u32>,
    ranges: Seq<core::ops::Range<usize>>,
    k: int,
    byte: int,
)
    requires
        apart(ranges),
        forall|b: int|
            #![trigger covered(ranges, b)]
            covered(ranges, b) <==> picked_byte(name, indices, b),
        0 <= k < name.len(),
        encode_utf8(name.take(k)).len() <= byte < encode_utf8(name.take(k + 1)).len(),
    ensures
        (exists|i: int| 0 <= i < indices.len() && #[trigger] indices[i] == k) <==> (exists|r: int|
            0 <= r < ranges.len() && (#[trigger] ranges[r]).start <= byte < ranges[r].end),
        forall|r: int|
            0 <= r < ranges.len() - 1 ==> (#[trigger] ranges[r]).end < ranges[r + 1].start,
{
    lemma_byte_len_is_that_of_the_encoding(name.take(k));
    lemma_byte_len_is_that_of_the_encoding(name.take(k + 1));
    assert(covered(ranges, byte) <==> picked_byte(name, indices, byte));
    if picks(indices, k) {
        assert(picked_byte(name, indices, byte));
    }
    if picked_byte(name, indices, byte) {
        let j = choose|j: int|
            0 <= j < name.len() && #[trigger] picks(indices, j) && byte_len(name.take(j)) <= byte
                < byte_len(name.take(j + 1));
        if j < k {
            lemma_prefixes_rise(name, j + 1, k);
        } else if k < j {
            lemma_prefixes_rise(name, k + 1, j);
        }
    }
    assert forall|r: int| 0 <= r < ranges.len() - 1 implies (#[trigger] ranges[r]).end
        < ranges[r + 1].start by {
        assert(ranges[r + 1].start < ranges[r + 1].end);
    }
}

/// Sorting keeps what there is, once each, from the smallest to the largest; so
/// there is one way to do it.
pub proof fn lemma_sorted_set_is_one(a: Seq<u32>, b: Seq<u32>, of: Seq<u32>)
    requires
        is_sorted_set_of(a, of),
        is_sorted_set_of(b, of),
    ensures
        a == b,
        forall|i: int| 0 <= i < a.len() - 1 ==> #[trigger] a[i] < a[i + 1],
        forall|x: u32| of.contains(x) ==> a.contains(x),
        forall|i: int| 0 <= i < a.len() ==> of.contains(#[trigger] a[i]),
{
    lemma_same_rising(a, b, 0);
    assert forall|i: int| 0 <= i < a.len() implies of.contains(#[trigger] a[i]) by {
        assert(a.contains(a[i]));
    }
    assert(a =~= b);
}

proof fn lemma_same_rising(a: Seq<u32>, b: Seq<u32>, from: int)
    requires
        strictly_rising(a),
        strictly_rising(b),
        forall|x: u32| a.contains(x) <==> b.contains(x),
        0 <= from <= a.len(),
        from <= b.len(),
        forall|i: int| 0 <= i < from ==> a[i] == b[i],
    ensures
        a.len() == b.len(),
        forall|i: int| 0 <= i < a.len() ==> a[i] == b[i],
    decreases a.len() - from,
{
    if from < a.len() {
        let x = a[from];
        assert(a.contains(x));
        assert(b.contains(x));
        let j = choose|j: int| 0 <= j < b.len() && b[j] == x;
        if j < from {
            assert(a[j] < a[from]);
        }
        if j > from {
            let y = b[from];
            assert(b.contains(y));
            assert(a.contains(y));
            let i = choose|i: int| 0 <= i < a.len() && a[i] == y;
            assert(b[from] < b[j]);
            if i < from {
                assert(b[i] < b[from]);
            } else if i > from {
                assert(a[from] < a[i]);
            }
        }
        lemma_same_rising(a, b, from + 1);
    } else if b.len() > from {
        let y = b[from];
        assert(b.contains(y));
        let i = choose|i: int| 0 <= i < a.len() && a[i] == y;
        assert(b[i] < b[from]);
    }
}

proof fn lemma_words_of_ascii(query: Seq<char>)
    requires
        all_ascii(query),
    ensures
        0 < words(query).len() <= query.len() + 1,
        forall|i: int| 0 <= i < words(query).len() ==> all_ascii(#[trigger] words(query)[i]),
    decreases query.len(),
{
    if query.len() > 0 {
        let before = words(query.drop_last());
        let now = words(query);
        assert(all_ascii(query.drop_last())) by {
            assert forall|i: int| 0 <= i < query.len() - 1 implies (
            #[trigger] query.drop_last()[i] as u32) < 0x80 by {
                assert((query[i] as u32) < 0x80);
            }
        }
        lemma_words_of_ascii(query.drop_last());
        assert forall|i: int| 0 <= i < now.len() implies all_ascii(#[trigger] now[i]) by {
            if i < before.len() - 1 {
                assert(now[i] == before[i]);
            } else if parted_at(query, query.len() - 1) {
                if i == before.len() - 1 {
                    assert(now[i] == before[i]);
                }
            } else {
                let word = before[before.len() - 1];
                assert(now[i] == word.push(query.last()));
                assert((query[query.len() - 1] as u32) < 0x80);
            }
        }
    }
}

proof fn lemma_top_total(words: Seq<Seq<char>>, len: nat)
    ensures
        top_total(words, len) <= words.len() * (10 + 26 * len),
    decreases words.len(),
{
    if words.len() > 0 {
        lemma_top_total(words.drop_last(), len);
        let each = 10 + 26 * len;
        assert(words.len() * each == (words.len() - 1) * each + each) by (nonlinear_arith)
            requires
                words.len() > 0,
        ;
    }
}

/// The matcher can be asked for whatever is typed in ASCII, in the name of any
/// file: only a name, or a query, that is longer than any in use is refused.
pub proof fn lemma_plain_queries_are_taken(query: Seq<char>, name: Seq<char>)
    requires
        forall|i: int| 0 <= i < query.len() ==> (#[trigger] query[i] as u32) < 0x80,
        query.len() <= 60000,
        name.len() <= 2520,
    ensures
        can_match(query, name),
{
    let list = words(query);
    let len = name.len();
    lemma_words_of_ascii(query);
    lemma_top_total(list, len);
    assert(list.len() * (10 + 26 * len) <= 60001 * 65530) by (nonlinear_arith)
        requires
            list.len() <= 60001,
            10 + 26 * len <= 65530,
    ;
    assert(usize::MAX >= 0xffff_ffff);
    assert(4 * len <= u32::MAX);
    assert(4 * 2520 * len <= 0xffff_ffff) by (nonlinear_arith)
        requires
            len <= 2520,
    ;
    assert(top_total(list, len) <= u32::MAX);
    assert forall|i: int| 0 <= i < list.len() implies top_score(#[trigger] list[i], len)
        <= u16::MAX by {}
    assert forall|i: int| 0 <= i < list.len() implies !is_misread(#[trigger] list[i], name) by {
        assert(all_ascii(list[i]));
    }
}

} // verus!
