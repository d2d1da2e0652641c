//! Text primitives: building strings, decimal numerals, trimming and
//! searching, each stated over the sequence of characters a string holds.

use vstd::prelude::*;

verus! {

broadcast use vstd::seq::group_seq_axioms;

/// `String::push` appends one character at the end.
pub assume_specification[ String::push ](s: &mut String, c: char)
    ensures
        final(s)@ == old(s)@.push(c),
;

/// Appends one character.
pub fn push_char(out: &mut String, c: char)
    ensures
        final(out)@ == old(out)@ + seq![c],
{
    out.push(c);
    assert(out@ =~= old(out)@ + seq![c]);
}

/// The decimal digit for `d`, for `d` from 0 to 9.
pub open spec fn digit(d: int) -> char {
    if d == 0 {
        '0'
    } else if d == 1 {
        '1'
    } else if d == 2 {
        '2'
    } else if d == 3 {
        '3'
    } else if d == 4 {
        '4'
    } else if d == 5 {
        '5'
    } else if d == 6 {
        '6'
    } else if d == 7 {
        '7'
    } else if d == 8 {
        '8'
    } else {
        '9'
    }
}

pub fn digit_char(d: u64) -> (c: char)
    requires
        d < 10,
    ensures
        c == digit(d as int),
{
    if d == 0 {
        '0'
    } else if d == 1 {
        '1'
    } else if d == 2 {
        '2'
    } else if d == 3 {
        '3'
    } else if d == 4 {
        '4'
    } else if d == 5 {
        '5'
    } else if d == 6 {
        '6'
    } else if d == 7 {
        '7'
    } else if d == 8 {
        '8'
    } else {
        '9'
    }
}

/// Whether `c` is an ASCII decimal digit.
pub open spec fn is_digit(c: char) -> bool {
    '0' <= c <= '9'
}

/// The value of a decimal digit.
pub open spec fn digit_value(c: char) -> nat {
    (c as int - '0' as int) as nat
}

/// `n` in decimal, without leading zeros.
pub open spec fn decimal(n: nat) -> Seq<char>
    decreases n,
{
    if n < 10 {
        seq![digit(n as int)]
    } else {
        decimal(n / 10).push(digit((n % 10) as int))
    }
}

/// `count` zeros.
pub open spec fn zeros(count: nat) -> Seq<char> {
    Seq::new(count, |i: int| '0')
}

/// `n` in decimal, filled up with leading zeros to at least `width`
/// characters.
pub open spec fn padded(n: nat, width: nat) -> Seq<char> {
    let text = decimal(n);
    if text.len() < width {
        zeros((width - text.len()) as nat) + text
    } else {
        text
    }
}

/// Whether every character of `s` is a decimal digit.
pub open spec fn all_digits(s: Seq<char>) -> bool {
    forall|i: int| 0 <= i < s.len() ==> is_digit(#[trigger] s[i])
}

/// The number that a sequence of decimal digits stands for.
pub open spec fn number(s: Seq<char>) -> nat
    decreases s.len(),
{
    if s.len() == 0 {
        0
    } else {
        number(s.drop_last()) * 10 + digit_value(s.last())
    }
}

pub proof fn lemma_digit(d: int)
    requires
        0 <= d < 10,
    ensures
        is_digit(digit(d)),
        digit_value(digit(d)) == d,
{
}

/// A decimal numeral is not empty, holds only digits, and stands for its
/// number.
pub proof fn lemma_decimal_reads_back(n: nat)
    ensures
        decimal(n).len() > 0,
        all_digits(decimal(n)),
        number(decimal(n)) == n,
    decreases n,
{
    if n < 10 {
        lemma_digit(n as int);
        assert(decimal(n).drop_last() =~= Seq::<char>::empty());
        assert(number(Seq::<char>::empty()) == 0);
    } else {
        lemma_decimal_reads_back(n / 10);
        lemma_digit((n % 10) as int);
        assert(decimal(n).drop_last() =~= decimal(n / 10));
    }
}

proof fn lemma_number_of_zeros(count: nat, s: Seq<char>)
    ensures
        number(zeros(count) + s) == number(s),
    decreases s.len(), count,
{
    let whole = zeros(count) + s;
    if s.len() > 0 {
        assert(whole.drop_last() =~= zeros(count) + s.drop_last());
        lemma_number_of_zeros(count, s.drop_last());
    } else if count > 0 {
        assert(whole.drop_last() =~= zeros((count - 1) as nat) + s);
        lemma_number_of_zeros((count - 1) as nat, s);
        assert(whole.last() == '0');
    } else {
        assert(whole =~= s);
    }
}

/// Leading zeros change neither that a numeral holds only digits nor the
/// number it stands for.
pub proof fn lemma_padded_reads_back(n: nat, width: nat)
    ensures
        padded(n, width).len() > 0,
        all_digits(padded(n, width)),
        number(padded(n, width)) == n,
{
    lemma_decimal_reads_back(n);
    let text = decimal(n);
    if text.len() < width {
        let count = (width - text.len()) as nat;
        lemma_number_of_zeros(count, text);
        assert forall|i: int| 0 <= i < padded(n, width).len() implies is_digit(
            #[trigger] padded(n, width)[i],
        ) by {
            if i >= count {
                assert(padded(n, width)[i] == text[i - count]);
            }
        }
    }
}

/// Appends `n` in decimal.
pub fn push_decimal(out: &mut String, n: u64)
    ensures
        final(out)@ == old(out)@ + decimal(n as nat),
    decreases n,
{
    if n >= 10 {
        push_decimal(out, n / 10);
    }
    out.push(digit_char(n % 10));
    assert(out@ =~= old(out)@ + decimal(n as nat));
}

/// `n` in decimal.
pub fn decimal_text(n: u64) -> (text: String)
    ensures
        text@ == decimal(n as nat),
{
    let mut text = String::new();
    push_decimal(&mut text, n);
    assert(text@ =~= decimal(n as nat));
    text
}

/// Appends `n` in decimal, filled up with zeros to at least `width`
/// characters.
pub fn push_padded(out: &mut String, n: u64, width: usize)
    ensures
        final(out)@ == old(out)@ + padded(n as nat, width as nat),
{
    let text = decimal_text(n);
    let digits = chars_of(text.as_str());
    let mut filled: usize = digits.len();
    let ghost start = out@;
    while filled < width
        invariant
            digits@ == decimal(n as nat),
            digits@.len() <= filled,
            filled <= width || filled == digits@.len(),
            out@ == start + zeros((filled - digits@.len()) as nat),
        decreases width - filled,
    {
        out.push('0');
        filled = filled + 1;
        assert(out@ =~= start + zeros((filled - digits@.len()) as nat));
    }
    out.append(text.as_str());
    assert(out@ =~= start + padded(n as nat, width as nat));
}

/// The characters of `s`.
pub fn chars_of(s: &str) -> (v: Vec<char>)
    ensures
        v@ == s@,
{
    let mut v: Vec<char> = Vec::new();
    for c in it: s.chars()
        invariant
            it.seq() == s@,
            v@ == s@.take(it.index()),
    {
        v.push(c);
        assert(v@ =~= s@.take(it.index() + 1));
    }
    assert(v@ =~= s@);
    v
}

/// Appends the characters of `chars`.
pub fn push_chars(out: &mut String, chars: &Vec<char>)
    ensures
        final(out)@ == old(out)@ + chars@,
{
    let ghost start = out@;
    let mut i: usize = 0;
    while i < chars.len()
        invariant
            i <= chars@.len(),
            out@ == start + chars@.take(i as int),
        decreases chars@.len() - i,
    {
        out.push(chars[i]);
        i = i + 1;
        assert(out@ =~= start + chars@.take(i as int));
    }
    assert(chars@.take(i as int) =~= chars@);
}

/// The string that holds `chars[from..to]`.
pub fn string_of(chars: &Vec<char>, from: usize, to: usize) -> (s: String)
    requires
        from <= to <= chars@.len(),
    ensures
        s@ == chars@.subrange(from as int, to as int),
{
    let mut s = String::new();
    let mut i: usize = from;
    while i < to
        invariant
            from <= i <= to <= chars@.len(),
            s@ == chars@.subrange(from as int, i as int),
        decreases to - i,
    {
        s.push(chars[i]);
        i = i + 1;
        assert(s@ =~= chars@.subrange(from as int, i as int));
    }
    s
}

/// Whether `a` and `b` hold the same characters.
pub fn same_text(a: &str, b: &str) -> (same: bool)
    ensures
        same == (a@ == b@),
{
    a.to_owned() == b.to_owned()
}

/// The first position at or after `from` at which `c` stands in `s`, or the
/// length of `s`.
pub open spec fn find(s: Seq<char>, c: char, from: int) -> int
    decreases s.len() - from,
{
    if from < 0 || from >= s.len() {
        s.len() as int
    } else if s[from] == c {
        from
    } else {
        find(s, c, from + 1)
    }
}

/// `find` gives the first occurrence: `c` stands there, and nowhere between
/// `from` and there.
pub proof fn lemma_find(s: Seq<char>, c: char, from: int)
    requires
        0 <= from <= s.len(),
    ensures
        from <= find(s, c, from) <= s.len(),
        find(s, c, from) < s.len() ==> s[find(s, c, from)] == c,
        forall|i: int| from <= i < find(s, c, from) ==> s[i] != c,
    decreases s.len() - from,
{
    if from < s.len() && s[from] != c {
        lemma_find(s, c, from + 1);
    }
}

/// A position before which `c` does not stand, and at which it stands or the
/// text ends, is where `find` ends up.
pub proof fn lemma_find_is(s: Seq<char>, c: char, from: int, at: int)
    requires
        0 <= from <= at <= s.len(),
        forall|i: int| from <= i < at ==> s[i] != c,
        at < s.len() ==> s[at] == c,
    ensures
        find(s, c, from) == at,
    decreases at - from,
{
    if from < at {
        lemma_find_is(s, c, from + 1, at);
    }
}

pub fn find_char(s: &Vec<char>, c: char, from: usize) -> (at: usize)
    requires
        from <= s@.len(),
    ensures
        at == find(s@, c, from as int),
        from <= at <= s@.len(),
{
    let mut at: usize = from;
    while at < s.len() && s[at] != c
        invariant
            from <= at <= s@.len(),
            forall|i: int| from <= i < at ==> s@[i] != c,
        decreases s@.len() - at,
    {
        at = at + 1;
    }
    proof {
        lemma_find_is(s@, c, from as int, at as int);
    }
    at
}

/// Unicode's `White_Space` property.
pub open spec fn is_whitespace(c: char) -> bool {
    ||| '\u{9}' <= c <= '\u{d}'
    ||| c == '\u{20}'
    ||| c == '\u{85}'
    ||| c == '\u{a0}'
    ||| c == '\u{1680}'
    ||| '\u{2000}' <= c <= '\u{200a}'
    ||| c == '\u{2028}'
    ||| c == '\u{2029}'
    ||| c == '\u{202f}'
    ||| c == '\u{205f}'
    ||| c == '\u{3000}'
}

pub fn whitespace(c: char) -> (w: bool)
    ensures
        w == is_whitespace(c),
{
    ('\u{9}' <= c && c <= '\u{d}') || c == '\u{20}' || c == '\u{85}' || c == '\u{a0}' || c
        == '\u{1680}' || ('\u{2000}' <= c && c <= '\u{200a}') || c == '\u{2028}' || c == '\u{2029}'
        || c == '\u{202f}' || c == '\u{205f}' || c == '\u{3000}'
}

/// `s` without the whitespace at its start.
pub open spec fn trimmed_start(s: Seq<char>) -> Seq<char>
    decreases s.len(),
{
    if s.len() > 0 && is_whitespace(s[0]) {
        trimmed_start(s.skip(1))
    } else {
        s
    }
}

/// `s` without the whitespace at its end.
pub open spec fn trimmed_end(s: Seq<char>) -> Seq<char>
    decreases s.len(),
{
    if s.len() > 0 && is_whitespace(s.last()) {
        trimmed_end(s.drop_last())
    } else {
        s
    }
}

/// `s` without the whitespace at either end.
pub open spec fn trimmed(s: Seq<char>) -> Seq<char> {
    trimmed_end(trimmed_start(s))
}

pub fn trim_chars(s: &Vec<char>) -> (v: Vec<char>)
    ensures
        v@ == trimmed(s@),
{
    let mut from: usize = 0;
    assert(s@.skip(0) =~= s@);
    while from < s.len() && whitespace(s[from])
        invariant
            from <= s@.len(),
            trimmed_start(s@) == trimmed_start(s@.skip(from as int)),
        decreases s@.len() - from,
    {
        assert(s@.skip(from as int)[0] == s@[from as int]);
        assert(s@.skip(from as int).skip(1) =~= s@.skip(from as int + 1));
        from = from + 1;
    }
    proof {
        if from < s@.len() {
            assert(s@.skip(from as int)[0] == s@[from as int]);
        }
        assert(trimmed_start(s@) == s@.skip(from as int));
    }
    let mut to: usize = s.len();
    assert(s@.subrange(from as int, to as int) =~= s@.skip(from as int));
    while to > from && whitespace(s[to - 1])
        invariant
            from <= to <= s@.len(),
            trimmed(s@) == trimmed_end(s@.subrange(from as int, to as int)),
        decreases to,
    {
        let ghost now = s@.subrange(from as int, to as int);
        assert(now.last() == s@[to - 1]);
        assert(now.drop_last() =~= s@.subrange(from as int, to as int - 1));
        to = to - 1;
    }
    let ghost kept = s@.subrange(from as int, to as int);
    let mut v: Vec<char> = Vec::new();
    let mut i: usize = from;
    while i < to
        invariant
            from <= i <= to <= s@.len(),
            v@ == s@.subrange(from as int, i as int),
        decreases to - i,
    {
        v.push(s[i]);
        i = i + 1;
        assert(v@ =~= s@.subrange(from as int, i as int));
    }
    proof {
        if from < to {
            assert(kept.last() == s@[to - 1]);
        }
    }
    v
}

/// `s` without the whitespace at either end.
pub fn trim(s: &str) -> (t: String)
    ensures
        t@ == trimmed(s@),
{
    let chars = trim_chars(&chars_of(s));
    let t = string_of(&chars, 0, chars.len());
    assert(t@ =~= chars@);
    t
}

/// What `text` says as an unsigned decimal number: an optional `+`, then one
/// or more digits that stand for at most `max`.
pub open spec fn unsigned(text: Seq<char>, max: nat) -> Option<nat> {
    let digits = if text.len() > 0 && text[0] == '+' {
        text.skip(1)
    } else {
        text
    };
    if digits.len() > 0 && all_digits(digits) && number(digits) <= max {
        Some(number(digits))
    } else {
        None
    }
}

proof fn lemma_number_grows(s: Seq<char>, n: int)
    requires
        0 <= n <= s.len(),
    ensures
        number(s.take(n)) <= number(s),
    decreases s.len(),
{
    if n < s.len() {
        lemma_number_grows(s.drop_last(), n);
        assert(s.drop_last().take(n) =~= s.take(n));
    } else {
        assert(s.take(n) =~= s);
    }
}

/// Reads `text[from..to]` as an unsigned decimal number of at most `max`.
pub fn read_unsigned(text: &Vec<char>, from: usize, to: usize, max: u64) -> (n: Option<u64>)
    requires
        from <= to <= text@.len(),
    ensures
        match n {
            Some(v) => unsigned(text@.subrange(from as int, to as int), max as nat) == Some(
                v as nat,
            ),
            None => unsigned(text@.subrange(from as int, to as int), max as nat) is None,
        },
{
    let ghost part = text@.subrange(from as int, to as int);
    let mut i: usize = from;
    if i < to && text[i] == '+' {
        i = i + 1;
    }
    let start: usize = i;
    let ghost digits = text@.subrange(start as int, to as int);
    proof {
        if start > from {
            assert(part[0] == text@[from as int]);
            assert(digits =~= part.skip(1));
        } else {
            assert(digits =~= part);
            if part.len() > 0 {
                assert(part[0] == text@[from as int]);
            }
        }
    }
    if start == to {
        return None;
    }
    let mut value: u64 = 0;
    assert(digits.take(0) =~= Seq::<char>::empty());
    while i < to
        invariant
            from <= start <= i <= to <= text@.len(),
            digits == text@.subrange(start as int, to as int),
            all_digits(digits.take(i - start)),
            value == number(digits.take(i - start)),
            value <= max,
            start < to,
            part == text@.subrange(from as int, to as int),
            digits == (if part.len() > 0 && part[0] == '+' {
                part.skip(1)
            } else {
                part
            }),
        decreases to - i,
    {
        let c = text[i];
        assert(digits[i - start] == c);
        if c < '0' || c > '9' {
            return None;
        }
        let d: u64 = (c as u32 - '0' as u32) as u64;
        let ghost next = digits.take(i - start + 1);
        proof {
            assert(next.drop_last() =~= digits.take(i - start));
            assert(next.last() == c);
            lemma_number_grows(digits, i - start + 1);
            assert forall|j: int| 0 <= j < next.len() implies is_digit(#[trigger] next[j]) by {
                if j < i - start {
                    assert(digits.take(i - start)[j] == next[j]);
                }
            }
        }
        if value > max / 10 || value * 10 > max - d.min(max) || d > max {
            assert(value * 10 + d > max);
            return None;
        }
        value = value * 10 + d;
        i = i + 1;
    }
    assert(digits.take(to - start) =~= digits);
    Some(value)
}

/// The texts of some strings.
pub open spec fn texts_of(strings: Seq<String>) -> Seq<Seq<char>> {
    Seq::new(strings.len(), |i: int| strings[i]@)
}

/// The text of an optional string.
pub open spec fn text_of(s: Option<String>) -> Option<Seq<char>> {
    match s {
        Some(t) => Some(t@),
        None => None,
    }
}

/// Whether one of `strings` holds the text.
pub open spec fn holds_text(strings: Seq<String>, text: Seq<char>) -> bool {
    exists|i: int| 0 <= i < strings.len() && (#[trigger] strings[i])@ == text
}

/// A numeral's last digit is the units', and what stands before it is the
/// numeral of the tens; no numeral but that of nought begins with a `0`.
pub proof fn lemma_decimal_digits(n: nat)
    ensures
        decimal(n).last() as int == '0' as int + n % 10,
        n < 10 ==> decimal(n).len() == 1,
        n >= 10 ==> decimal(n).drop_last() == decimal(n / 10),
        decimal(n)[0] == '0' ==> n == 0,
    decreases n,
{
    if n >= 10 {
        lemma_decimal_digits(n / 10);
        assert(decimal(n).drop_last() =~= decimal(n / 10));
        assert(decimal(n)[0] == decimal(n / 10)[0]);
    }
}

/// A padded numeral has as many characters as were asked for, or as many as it
/// needs; what stands before the numeral are zeros.
pub proof fn lemma_padded_width(n: nat, width: nat)
    ensures
        padded(n, width).len() == (if decimal(n).len() < width {
            width
        } else {
            decimal(n).len()
        }),
        decimal(n).is_suffix_of(padded(n, width)),
        forall|i: int|
            0 <= i < padded(n, width).len() - decimal(n).len() ==> padded(n, width)[i] == '0',
{
    let text = padded(n, width);
    assert(text.skip(text.len() - decimal(n).len()) =~= decimal(n));
}

/// What is taken away at the start is whitespace, up to the first character that
/// is none. Returns where that is.
pub proof fn lemma_trimmed_start(s: Seq<char>) -> (k: int)
    ensures
        0 <= k <= s.len(),
        trimmed_start(s) == s.skip(k),
        forall|i: int| 0 <= i < k ==> is_whitespace(s[i]),
        k < s.len() ==> !is_whitespace(s[k]),
    decreases s.len(),
{
    if s.len() > 0 && is_whitespace(s[0]) {
        let k = lemma_trimmed_start(s.skip(1));
        assert(s.skip(1).skip(k) =~= s.skip(k + 1));
        assert forall|i: int| 0 <= i < k + 1 implies is_whitespace(s[i]) by {
            if i > 0 {
                assert(s[i] == s.skip(1)[i - 1]);
            }
        }
        k + 1
    } else {
        assert(s.skip(0) =~= s);
        0
    }
}

proof fn lemma_trimmed_end(s: Seq<char>) -> (k: int)
    ensures
        0 <= k <= s.len(),
        trimmed_end(s) == s.take(k),
        forall|i: int| k <= i < s.len() ==> is_whitespace(s[i]),
        k > 0 ==> !is_whitespace(s[k - 1]),
    decreases s.len(),
{
    if s.len() > 0 && is_whitespace(s.last()) {
        let k = lemma_trimmed_end(s.drop_last());
        assert(s.drop_last().take(k) =~= s.take(k));
        assert forall|i: int| k <= i < s.len() implies is_whitespace(s[i]) by {
            if i < s.len() - 1 {
                assert(s[i] == s.drop_last()[i]);
            }
        }
        k
    } else {
        assert(s.take(s.len() as int) =~= s);
        s.len() as int
    }
}

/// Trimming takes whitespace away at both ends, all of it, and nothing else.
pub proof fn lemma_trimmed(s: Seq<char>)
    ensures
        trimmed(s).len() > 0 ==> !is_whitespace(trimmed(s)[0]) && !is_whitespace(trimmed(s).last()),
        exists|from: int, to: int|
            {
                &&& 0 <= from <= to <= s.len()
                &&& trimmed(s) == #[trigger] s.subrange(from, to)
                &&& forall|i: int| 0 <= i < from || to <= i < s.len() ==> is_whitespace(s[i])
            },
{
    let from = lemma_trimmed_start(s);
    let rest = s.skip(from);
    let k = lemma_trimmed_end(rest);
    assert(rest.take(k) =~= s.subrange(from, from + k));
    assert forall|i: int| 0 <= i < from || from + k <= i < s.len() implies is_whitespace(s[i]) by {
        if i >= from {
            assert(rest[i - from] == s[i]);
        }
    }
    if k > 0 {
        assert(rest[0] == s[from]);
        assert(trimmed(s)[0] == rest[0]);
        assert(trimmed(s).last() == rest[k - 1]);
    }
}

/// A number is read where there are digits, with or without a `+` in front, and
/// nothing else, and where it does not exceed the bound; a numeral reads back.
pub proof fn lemma_unsigned(text: Seq<char>, n: nat, max: nat)
    ensures
        unsigned(text, max) is Some ==> {
            &&& unsigned(text, max)->0 <= max
            &&& text.len() > 0
            &&& forall|i: int| 0 < i < text.len() ==> is_digit(text[i])
            &&& text[0] == '+' || is_digit(text[0])
        },
        unsigned(decimal(n), max) == (if n <= max {
            Some(n)
        } else {
            None
        }),
        unsigned(seq!['+'] + decimal(n), max) == unsigned(decimal(n), max),
{
    lemma_decimal_reads_back(n);
    assert(is_digit(decimal(n)[0]));
    assert((seq!['+'] + decimal(n)).skip(1) =~= decimal(n));
    if unsigned(text, max) is Some {
        assert forall|i: int| 0 < i < text.len() implies is_digit(text[i]) by {
            if text[0] == '+' {
                assert(text.skip(1)[i - 1] == text[i]);
            }
        }
    }
}

/// What counts as whitespace: the controls from tab to carriage return, the next
/// line, and every space that Unicode has.
pub proof fn lemma_whitespace(c: char)
    ensures
        is_whitespace(c) <==> {
            let code = c as u32;
            ||| 0x9 <= code <= 0xd
            ||| code == 0x20
            ||| code == 0x85
            ||| code == 0xa0
            ||| code == 0x1680
            ||| 0x2000 <= code <= 0x200a
            ||| 0x2028 <= code <= 0x2029
            ||| code == 0x202f
            ||| code == 0x205f
            ||| code == 0x3000
        },
{
}

/// The texts of some strings are theirs, one for one.
pub proof fn lemma_texts_of(strings: Seq<String>, i: int)
    requires
        0 <= i < strings.len(),
    ensures
        texts_of(strings).len() == strings.len(),
        texts_of(strings)[i] == strings[i]@,
        holds_text(strings, strings[i]@),
        text_of(Some(strings[i])) == Some(strings[i]@),
        text_of(None) is None,
{
}

} // verus!
