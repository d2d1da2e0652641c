//! The dialog that changes permissions and timestamps: octal and symbolic
//! permission texts that mirror each other, two timestamp fields, and what
//! Enter makes of them.

use crate::calendar::{civil_seconds, date_text, parse_date_time, spelled, spells_a_minute,
    write_date, Timestamp};
use crate::dialog_job::{immediate_job, no_state_dir, no_state_dir_text, report_job_outcome,
    outcome_text, run_now, DialogJob, Notice, NoticeLevel, PlanOutcome};
use crate::jobs::JobKind;
use crate::text::{chars_of, decimal, push_chars, push_decimal, same_text, trim, trimmed};
use crate::vpath::{copy_paths, VPath};
use vstd::prelude::*;

verus! {

broadcast use vstd::seq::group_seq_axioms;

/// Whether `c` is an octal digit.
pub open spec fn is_octal_digit(c: char) -> bool {
    '0' <= c <= '7'
}

/// The number that a sequence of octal digits stands for.
pub open spec fn octal_number(s: Seq<char>) -> nat
    decreases s.len(),
{
    if s.len() == 0 {
        0
    } else {
        octal_number(s.drop_last()) * 8 + (s.last() as int - '0' as int) as nat
    }
}

/// The permission bits that an octal text spells: one to four octal digits.
pub open spec fn octal_mode(s: Seq<char>) -> Option<u32> {
    if 1 <= s.len() <= 4 && forall|i: int| 0 <= i < s.len() ==> is_octal_digit(#[trigger] s[i]) {
        Some(octal_number(s) as u32)
    } else {
        None
    }
}

pub open spec fn octal_digit(d: int) -> char {
    if d == 0 {
        '0'
    } else if d == 1 {
        '1'
    } else if d == 2 {
        '2'
    } else if d == 3 {
        '3'
    } else if d == 4 {
        '4'
    } else if d == 5 {
        '5'
    } else if d == 6 {
        '6'
    } else {
        '7'
    }
}

/// The permission bits of a mode: its lowest twelve.
pub open spec fn permission_bits(mode: u32) -> u32 {
    (mode % 4096) as u32
}

/// The octal text of a mode's permission bits: four digits where setuid,
/// setgid or sticky is set, else three.
pub open spec fn octal_text(mode: u32) -> Seq<char> {
    let b = permission_bits(mode) as int;
    let low = seq![octal_digit(b / 64 % 8), octal_digit(b / 8 % 8), octal_digit(b % 8)];
    if b >= 512 {
        seq![octal_digit(b / 512)] + low
    } else {
        low
    }
}

proof fn lemma_octal_digit(d: int)
    requires
        0 <= d < 8,
    ensures
        is_octal_digit(octal_digit(d)),
        octal_digit(d) as int - '0' as int == d,
{
}

proof fn lemma_octal_number_of_three(s: Seq<char>)
    requires
        s.len() == 3,
    ensures
        octal_number(s) == ((s[0] as int - '0' as int) as nat * 8 + (s[1] as int
            - '0' as int) as nat) * 8 + (s[2] as int - '0' as int) as nat,
{
    reveal_with_fuel(octal_number, 4);
    assert(s.drop_last().drop_last().drop_last() =~= Seq::<char>::empty());
}

proof fn lemma_octal_number_of_four(s: Seq<char>)
    requires
        s.len() == 4,
    ensures
        octal_number(s) == (((s[0] as int - '0' as int) as nat * 8 + (s[1] as int
            - '0' as int) as nat) * 8 + (s[2] as int - '0' as int) as nat) * 8 + (s[3] as int
            - '0' as int) as nat,
{
    lemma_octal_number_of_three(s.drop_last());
}

proof fn lemma_octal_bound(s: Seq<char>)
    requires
        s.len() <= 4,
        forall|i: int| 0 <= i < s.len() ==> is_octal_digit(#[trigger] s[i]),
    ensures
        s.len() == 0 ==> octal_number(s) < 1,
        s.len() == 1 ==> octal_number(s) < 8,
        s.len() == 2 ==> octal_number(s) < 64,
        s.len() == 3 ==> octal_number(s) < 512,
        octal_number(s) < 4096,
    decreases s.len(),
{
    if s.len() > 0 {
        assert(is_octal_digit(s[s.len() - 1]));
        lemma_octal_bound(s.drop_last());
    }
}

/// Every octal text of a mode reads back as the mode's permission bits, and
/// shows those bits the same way again.
pub proof fn lemma_octal_text_reads_back(mode: u32)
    ensures
        octal_mode(octal_text(mode)) == Some(permission_bits(mode)),
        octal_text(octal_mode(octal_text(mode))->0) == octal_text(mode),
{
    let b = permission_bits(mode) as int;
    let s = octal_text(mode);
    lemma_octal_digit(b / 512);
    lemma_octal_digit(b / 64 % 8);
    lemma_octal_digit(b / 8 % 8);
    lemma_octal_digit(b % 8);
    if b >= 512 {
        assert(s.len() == 4);
        assert(s[0] == octal_digit(b / 512));
        assert(s[1] == octal_digit(b / 64 % 8));
        assert(s[2] == octal_digit(b / 8 % 8));
        assert(s[3] == octal_digit(b % 8));
        lemma_octal_number_of_four(s);
    } else {
        lemma_octal_number_of_three(s);
    }
}

/// Reads one to four octal digits as permission bits.
pub fn parse_octal_mode(text: &str) -> (bits: Option<u32>)
    ensures
        bits == octal_mode(text@),
        bits is Some ==> bits->0 < 4096,
{
    let chars = chars_of(text);
    if chars.len() == 0 || chars.len() > 4 {
        return None;
    }
    let mut bits: u32 = 0;
    let mut i: usize = 0;
    assert(chars@.take(0) =~= Seq::<char>::empty());
    while i < chars.len()
        invariant
            chars@ == text@,
            i <= chars@.len() <= 4,
            forall|j: int| 0 <= j < i ==> is_octal_digit(#[trigger] chars@[j]),
            bits == octal_number(chars@.take(i as int)),
            bits < 4096,
            i <= 3 ==> bits < 512,
        decreases chars@.len() - i,
    {
        let c = chars[i];
        if c < '0' || c > '7' {
            assert(!is_octal_digit(text@[i as int]));
            return None;
        }
        let ghost next = chars@.take(i + 1);
        proof {
            assert(next.drop_last() =~= chars@.take(i as int));
            assert(forall|j: int| 0 <= j < next.len() ==> next[j] == chars@[j]);
            lemma_octal_bound(next);
        }
        bits = bits * 8 + (c as u32 - '0' as u32);
        i = i + 1;
    }
    assert(chars@.take(i as int) =~= chars@);
    Some(bits)
}

fn octal_char(d: u32) -> (c: char)
    requires
        d < 8,
    ensures
        c == octal_digit(d as int),
{
    if d == 0 {
        '0'
    } else if d == 1 {
        '1'
    } else if d == 2 {
        '2'
    } else if d == 3 {
        '3'
    } else if d == 4 {
        '4'
    } else if d == 5 {
        '5'
    } else if d == 6 {
        '6'
    } else {
        '7'
    }
}

/// The octal text of a mode's permission bits.
pub fn format_octal_mode(mode: u32) -> (text: String)
    ensures
        text@ == octal_text(mode),
{
    let bits: u32 = mode % 4096;
    let mut text = String::new();
    if bits >= 512 {
        text.push(octal_char(bits / 512));
    }
    text.push(octal_char(bits / 64 % 8));
    text.push(octal_char(bits / 8 % 8));
    text.push(octal_char(bits % 8));
    assert(text@ =~= octal_text(mode));
    text
}

/// Whether three characters are a read, a write and an execute column, the
/// last with the given letters for its special bit.
pub open spec fn is_triad(r: char, w: char, x: char, lower: char, upper: char) -> bool {
    &&& r == 'r' || r == '-'
    &&& w == 'w' || w == '-'
    &&& x == 'x' || x == lower || x == upper || x == '-'
}

/// The bits that three such columns stand for.
pub open spec fn triad_bits(
    r: char,
    w: char,
    x: char,
    lower: char,
    upper: char,
    masks: (u32, u32, u32, u32),
) -> u32 {
    (if r == 'r' {
        masks.0
    } else {
        0u32
    }) | (if w == 'w' {
        masks.1
    } else {
        0u32
    }) | (if x == 'x' {
        masks.2
    } else if x == lower {
        masks.2 | masks.3
    } else if x == upper {
        masks.3
    } else {
        0u32
    })
}

/// The permission bits that a symbolic text spells: nine characters, `s` or
/// `S` for setuid and setgid, `t` or `T` for sticky, in upper case where the
/// execute bit is not set.
pub open spec fn symbolic_mode(s: Seq<char>) -> Option<u32> {
    if s.len() == 9 && is_triad(s[0], s[1], s[2], 's', 'S') && is_triad(s[3], s[4], s[5], 's', 'S')
        && is_triad(s[6], s[7], s[8], 't', 'T') {
        Some(
            triad_bits(s[0], s[1], s[2], 's', 'S', (0o400, 0o200, 0o100, 0o4000)) | triad_bits(
                s[3],
                s[4],
                s[5],
                's',
                'S',
                (0o040, 0o020, 0o010, 0o2000),
            ) | triad_bits(s[6], s[7], s[8], 't', 'T', (0o004, 0o002, 0o001, 0o1000)),
        )
    } else {
        None
    }
}

pub open spec fn execute_char(x: bool, special: bool, lower: char, upper: char) -> char {
    if x && special {
        lower
    } else if special {
        upper
    } else if x {
        'x'
    } else {
        '-'
    }
}

pub open spec fn flag_char(set: bool, c: char) -> char {
    if set {
        c
    } else {
        '-'
    }
}

/// The symbolic text of a mode's permission bits, as `ls -l` shows them.
pub open spec fn symbolic_text(mode: u32) -> Seq<char> {
    seq![
        flag_char(mode & 0o400 != 0, 'r'),
        flag_char(mode & 0o200 != 0, 'w'),
        execute_char(mode & 0o100 != 0, mode & 0o4000 != 0, 's', 'S'),
        flag_char(mode & 0o040 != 0, 'r'),
        flag_char(mode & 0o020 != 0, 'w'),
        execute_char(mode & 0o010 != 0, mode & 0o2000 != 0, 's', 'S'),
        flag_char(mode & 0o004 != 0, 'r'),
        flag_char(mode & 0o002 != 0, 'w'),
        execute_char(mode & 0o001 != 0, mode & 0o1000 != 0, 't', 'T'),
    ]
}

/// The bits of a read, a write and an execute column and a special bit.
#[verifier::opaque]
pub open spec fn set_bits(
    r: bool,
    w: bool,
    x: bool,
    special: bool,
    masks: (u32, u32, u32, u32),
) -> u32 {
    (if r {
        masks.0
    } else {
        0u32
    }) | (if w {
        masks.1
    } else {
        0u32
    }) | ((if x {
        masks.2
    } else {
        0u32
    }) | (if special {
        masks.3
    } else {
        0u32
    }))
}

/// The bits of a mode under some masks.
pub open spec fn bits_under(mode: u32, masks: (u32, u32, u32, u32)) -> u32 {
    set_bits(
        mode & masks.0 != 0,
        mode & masks.1 != 0,
        mode & masks.2 != 0,
        mode & masks.3 != 0,
        masks,
    )
}

proof fn lemma_bits_under(mode: u32)
    ensures
        bits_under(mode, (0o400, 0o200, 0o100, 0o4000)) == mode & 0o4700,
        bits_under(mode, (0o040, 0o020, 0o010, 0o2000)) == mode & 0o2070,
        bits_under(mode, (0o004, 0o002, 0o001, 0o1000)) == mode & 0o1007,
{
    reveal(set_bits);
    assert((if mode & 0o400 != 0 {
        0o400u32
    } else {
        0u32
    }) | (if mode & 0o200 != 0 {
        0o200u32
    } else {
        0u32
    }) | ((if mode & 0o100 != 0 {
        0o100u32
    } else {
        0u32
    }) | (if mode & 0o4000 != 0 {
        0o4000u32
    } else {
        0u32
    })) == mode & 0o4700) by (bit_vector);
    assert((if mode & 0o040 != 0 {
        0o040u32
    } else {
        0u32
    }) | (if mode & 0o020 != 0 {
        0o020u32
    } else {
        0u32
    }) | ((if mode & 0o010 != 0 {
        0o010u32
    } else {
        0u32
    }) | (if mode & 0o2000 != 0 {
        0o2000u32
    } else {
        0u32
    })) == mode & 0o2070) by (bit_vector);
    assert((if mode & 0o004 != 0 {
        0o004u32
    } else {
        0u32
    }) | (if mode & 0o002 != 0 {
        0o002u32
    } else {
        0u32
    }) | ((if mode & 0o001 != 0 {
        0o001u32
    } else {
        0u32
    }) | (if mode & 0o1000 != 0 {
        0o1000u32
    } else {
        0u32
    })) == mode & 0o1007) by (bit_vector);
}

proof fn lemma_triad(r: bool, w: bool, x: bool, special: bool, lower: char, upper: char, masks: (
    u32,
    u32,
    u32,
    u32,
))
    requires
        (lower == 's' && upper == 'S') || (lower == 't' && upper == 'T'),
    ensures
        is_triad(
            flag_char(r, 'r'),
            flag_char(w, 'w'),
            execute_char(x, special, lower, upper),
            lower,
            upper,
        ),
        triad_bits(
            flag_char(r, 'r'),
            flag_char(w, 'w'),
            execute_char(x, special, lower, upper),
            lower,
            upper,
            masks,
        ) == set_bits(r, w, x, special, masks),
{
    reveal(set_bits);
    let a = masks.2;
    let b = masks.3;
    assert(a | 0u32 == a) by (bit_vector);
    assert(0u32 | b == b) by (bit_vector);
    assert(0u32 | 0u32 == 0u32) by (bit_vector);
}

proof fn lemma_triad_of_mode(
    mode: u32,
    lower: char,
    upper: char,
    masks: (u32, u32, u32, u32),
    r: char,
    w: char,
    x: char,
)
    requires
        (lower == 's' && upper == 'S') || (lower == 't' && upper == 'T'),
        r == flag_char(mode & masks.0 != 0, 'r'),
        w == flag_char(mode & masks.1 != 0, 'w'),
        x == execute_char(mode & masks.2 != 0, mode & masks.3 != 0, lower, upper),
    ensures
        is_triad(r, w, x, lower, upper),
        triad_bits(r, w, x, lower, upper, masks) == bits_under(mode, masks),
{
    lemma_triad(
        mode & masks.0 != 0,
        mode & masks.1 != 0,
        mode & masks.2 != 0,
        mode & masks.3 != 0,
        lower,
        upper,
        masks,
    );
}

/// Every symbolic text of a mode reads back as the mode's permission bits.
pub proof fn lemma_symbolic_text_reads_back(mode: u32)
    ensures
        symbolic_mode(symbolic_text(mode)) == Some(permission_bits(mode)),
{
    let s = symbolic_text(mode);
    lemma_bits_under(mode);
    lemma_triad_of_mode(mode, 's', 'S', (0o400, 0o200, 0o100, 0o4000), s[0], s[1], s[2]);
    lemma_triad_of_mode(mode, 's', 'S', (0o040, 0o020, 0o010, 0o2000), s[3], s[4], s[5]);
    lemma_triad_of_mode(mode, 't', 'T', (0o004, 0o002, 0o001, 0o1000), s[6], s[7], s[8]);
    assert((mode & 0o4700) | (mode & 0o2070) | (mode & 0o1007) == mode % 4096) by (bit_vector);
}

/// The symbolic text shows nothing but the permission bits.
pub proof fn lemma_symbolic_text_of_bits(mode: u32)
    ensures
        symbolic_text(permission_bits(mode)) == symbolic_text(mode),
{
    let b = permission_bits(mode);
    assert(b == mode % 4096);
    assert(forall|m: u32| m < 4096 ==> #[trigger] (b & m) == mode & m) by (bit_vector)
        requires
            b == mode % 4096,
    ;
    assert(b & 0o4000 == mode & 0o4000 && b & 0o2000 == mode & 0o2000 && b & 0o1000 == mode & 0o1000
        && b & 0o400 == mode & 0o400 && b & 0o200 == mode & 0o200 && b & 0o100 == mode & 0o100 && b
        & 0o040 == mode & 0o040 && b & 0o020 == mode & 0o020 && b & 0o010 == mode & 0o010 && b
        & 0o004 == mode & 0o004 && b & 0o002 == mode & 0o002 && b & 0o001 == mode & 0o001);
    assert(symbolic_text(b) =~= symbolic_text(mode));
}

/// Reads nine permission columns as permission bits.
pub fn parse_symbolic_mode(text: &str) -> (bits: Option<u32>)
    ensures
        bits == symbolic_mode(text@),
{
    let chars = chars_of(text);
    if chars.len() != 9 {
        return None;
    }
    let user = read_triad(chars[0], chars[1], chars[2], 's', 'S', (0o400, 0o200, 0o100, 0o4000));
    let group = read_triad(chars[3], chars[4], chars[5], 's', 'S', (0o040, 0o020, 0o010, 0o2000));
    let other = read_triad(chars[6], chars[7], chars[8], 't', 'T', (0o004, 0o002, 0o001, 0o1000));
    match (user, group, other) {
        (Some(u), Some(g), Some(o)) => Some(u | g | o),
        _ => None,
    }
}

fn read_triad(
    r: char,
    w: char,
    x: char,
    lower: char,
    upper: char,
    masks: (u32, u32, u32, u32),
) -> (bits: Option<u32>)
    ensures
        match bits {
            Some(b) => is_triad(r, w, x, lower, upper) && b == triad_bits(
                r,
                w,
                x,
                lower,
                upper,
                masks,
            ),
            None => !is_triad(r, w, x, lower, upper),
        },
{
    if (r != 'r' && r != '-') || (w != 'w' && w != '-') || (x != 'x' && x != lower && x != upper
        && x != '-') {
        return None;
    }
    let read: u32 = if r == 'r' {
        masks.0
    } else {
        0
    };
    let write: u32 = if w == 'w' {
        masks.1
    } else {
        0
    };
    let execute: u32 = if x == 'x' {
        masks.2
    } else if x == lower {
        masks.2 | masks.3
    } else if x == upper {
        masks.3
    } else {
        0
    };
    Some(read | write | execute)
}

fn flag(set: bool, c: char) -> (out: char)
    ensures
        out == flag_char(set, c),
{
    if set {
        c
    } else {
        '-'
    }
}

fn execute_flag(x: bool, special: bool, lower: char, upper: char) -> (out: char)
    ensures
        out == execute_char(x, special, lower, upper),
{
    if x && special {
        lower
    } else if special {
        upper
    } else if x {
        'x'
    } else {
        '-'
    }
}

/// Appends the symbolic text of a mode's permission bits.
pub fn push_symbolic_mode(out: &mut String, mode: u32)
    ensures
        final(out)@ == old(out)@ + symbolic_text(mode),
{
    let columns: Vec<char> = vec![
        flag(mode & 0o400 != 0, 'r'),
        flag(mode & 0o200 != 0, 'w'),
        execute_flag(mode & 0o100 != 0, mode & 0o4000 != 0, 's', 'S'),
        flag(mode & 0o040 != 0, 'r'),
        flag(mode & 0o020 != 0, 'w'),
        execute_flag(mode & 0o010 != 0, mode & 0o2000 != 0, 's', 'S'),
        flag(mode & 0o004 != 0, 'r'),
        flag(mode & 0o002 != 0, 'w'),
        execute_flag(mode & 0o001 != 0, mode & 0o1000 != 0, 't', 'T'),
    ];
    assert(columns@ =~= symbolic_text(mode));
    push_chars(out, &columns);
}

/// The symbolic text of a mode's permission bits.
pub fn format_symbolic_mode(mode: u32) -> (text: String)
    ensures
        text@ == symbolic_text(mode),
{
    let mut text = String::new();
    push_symbolic_mode(&mut text, mode);
    assert(text@ =~= symbolic_text(mode));
    text
}

/// The text that a timestamp field opens with.
pub fn format_date_time(secs: i64) -> (text: String)
    ensures
        text@ == date_text(secs as int),
{
    let mut text = String::new();
    write_date(&mut text, secs);
    assert(text@ =~= date_text(secs as int));
    text
}

/// What a key does in the dialog.
#[derive(Clone, Copy, Debug, PartialEq, Eq, Structural)]
pub enum AttributesAction {
    ToggleRecursiveApply,
}

/// The key that the dialog is bound to: the action that a keystroke stands
/// for.
pub fn bind_attributes_dialog_keys(keys: &str) -> (action: Option<AttributesAction>)
    ensures
        action == (if keys@ == "ctrl-r"@ {
            Some(AttributesAction::ToggleRecursiveApply)
        } else {
            None
        }),
{
    if same_text(keys, "ctrl-r") {
        Some(AttributesAction::ToggleRecursiveApply)
    } else {
        None
    }
}

/// What a single entry's attributes are when the dialog opens on it.
#[derive(Clone, Copy, Debug, PartialEq, Eq, Structural)]
pub struct AttributesPrefill {
    /// The mode, file-type bits and all.
    pub mode: Option<u32>,
    pub modified_secs: Option<i64>,
    pub accessed_secs: Option<i64>,
}

/// A change of attributes; what is `None` stays as it is.
#[derive(Clone, Copy, Debug, PartialEq, Eq, Structural)]
pub struct MetaPatch {
    pub mode: Option<u32>,
    pub modified: Option<Timestamp>,
    pub accessed: Option<Timestamp>,
}

impl MetaPatch {
    /// Whether the patch changes nothing.
    pub open spec fn empty(self) -> bool {
        self.mode is None && self.modified is None && self.accessed is None
    }

    pub fn is_empty(&self) -> (e: bool)
        ensures
            e == self.empty(),
    {
        self.mode.is_none() && self.modified.is_none() && self.accessed.is_none()
    }
}

/// What Enter leads to.
#[derive(Debug, PartialEq, Eq)]
pub enum AttributesAnswer {
    /// A plan is already being made.
    Busy,
    /// The dialog stays open and the user is told why.
    Refused(Notice),
    /// Nothing is to be changed: the dialog closes.
    Close,
    /// A plan is to be made that applies the patch to the targets, and where it
    /// is recursive to everything inside those that are directories.
    Plan { targets: Vec<VPath>, patch: MetaPatch, recursive: bool },
}

/// The dialog's state: its targets, the texts of its four fields and its one
/// option.
#[derive(Debug, PartialEq, Eq)]
pub struct AttributesDialogState {
    pub targets: Vec<VPath>,
    /// The one target's name; `None` for several targets.
    pub single_name: Option<String>,
    pub has_directory_target: bool,
    pub mode_octal: String,
    pub mode_symbolic: String,
    pub modified: String,
    pub accessed: String,
    pub recursive: bool,
    pub planning_in_progress: bool,
    /// Where a job's journal goes.
    pub state_dir: Option<String>,
}

pub open spec fn octal_refusal(text: Seq<char>) -> Seq<char> {
    "\u{201c}"@ + text
        + "\u{201d} isn't a valid octal permission value (three or four digits, 0-7, e.g. 755)."@
}

pub open spec fn symbolic_refusal(text: Seq<char>) -> Seq<char> {
    "\u{201c}"@ + text
        + "\u{201d} isn't a valid symbolic permission value (nine characters, e.g. rwxr-xr-x)."@
}

pub open spec fn time_refusal(label: Seq<char>, text: Seq<char>) -> Seq<char> {
    label + ": \u{201c}"@ + text
        + "\u{201d} isn't a valid date and time (expected YYYY-MM-DD HH:MM)."@
}

/// The permission bits that the two permission fields ask for: those of the
/// octal field, or where that is blank those of the symbolic field. A field
/// that is not blank and does not parse is refused.
pub open spec fn mode_choice(octal: Seq<char>, symbolic: Seq<char>) -> Result<
    Option<u32>,
    Seq<char>,
> {
    let o = trimmed(octal);
    let s = trimmed(symbolic);
    if o.len() > 0 {
        match octal_mode(o) {
            Some(bits) => Ok(Some(bits)),
            None => Err(octal_refusal(o)),
        }
    } else if s.len() > 0 {
        match symbolic_mode(s) {
            Some(bits) => Ok(Some(bits)),
            None => Err(symbolic_refusal(s)),
        }
    } else {
        Ok(None)
    }
}

/// The moment that a timestamp field asks for; a blank field asks for none.
pub open spec fn time_choice(label: Seq<char>, field: Seq<char>) -> Result<
    Option<Timestamp>,
    Seq<char>,
> {
    let t = trimmed(field);
    if t.len() == 0 {
        Ok(None)
    } else if spells_a_minute(t) {
        Ok(Some(Timestamp { secs: civil_seconds(spelled(t)->0) as i64, nanos: 0 }))
    } else {
        Err(time_refusal(label, t))
    }
}

/// What the symbolic field holds after the octal field changed.
pub open spec fn mirrored_symbolic(octal: Seq<char>, symbolic: Seq<char>) -> Seq<char> {
    let t = trimmed(octal);
    if t.len() == 0 {
        Seq::empty()
    } else if octal_mode(t) is Some {
        symbolic_text(octal_mode(t)->0)
    } else {
        symbolic
    }
}

/// What the octal field holds after the symbolic field changed.
pub open spec fn mirrored_octal(symbolic: Seq<char>, octal: Seq<char>) -> Seq<char> {
    let t = trimmed(symbolic);
    if t.len() == 0 {
        Seq::empty()
    } else if symbolic_mode(t) is Some {
        octal_text(symbolic_mode(t)->0)
    } else {
        octal
    }
}

fn choose_mode(octal: &str, symbolic: &str) -> (r: Result<Option<u32>, String>)
    ensures
        match r {
            Ok(mode) => mode_choice(octal@, symbolic@) == Ok::<Option<u32>, Seq<char>>(mode),
            Err(message) => mode_choice(octal@, symbolic@) == Err::<Option<u32>, Seq<char>>(
                message@,
            ),
        },
{
    let o = trim(octal);
    let s = trim(symbolic);
    if !o.as_str().is_empty() {
        match parse_octal_mode(o.as_str()) {
            Some(bits) => Ok(Some(bits)),
            None => {
                let mut message = "\u{201c}".to_owned();
                message.append(o.as_str());
                message.append(
                    "\u{201d} isn't a valid octal permission value (three or four digits, 0-7, e.g. 755).",
                );
                Err(message)
            },
        }
    } else if !s.as_str().is_empty() {
        match parse_symbolic_mode(s.as_str()) {
            Some(bits) => Ok(Some(bits)),
            None => {
                let mut message = "\u{201c}".to_owned();
                message.append(s.as_str());
                message.append(
                    "\u{201d} isn't a valid symbolic permission value (nine characters, e.g. rwxr-xr-x).",
                );
                Err(message)
            },
        }
    } else {
        Ok(None)
    }
}

/// Reads a timestamp field: blank asks for no change.
pub fn parse_timestamp_field(field: &str, label: &str) -> (r: Result<Option<Timestamp>, String>)
    ensures
        match r {
            Ok(time) => time_choice(label@, field@) == Ok::<Option<Timestamp>, Seq<char>>(time),
            Err(message) => time_choice(label@, field@) == Err::<Option<Timestamp>, Seq<char>>(
                message@,
            ),
        },
{
    let text = trim(field);
    if text.as_str().is_empty() {
        return Ok(None);
    }
    match parse_date_time(text.as_str()) {
        Some(t) => Ok(Some(t)),
        None => {
            let mut message = label.to_owned();
            message.append(": \u{201c}");
            message.append(text.as_str());
            message.append("\u{201d} isn't a valid date and time (expected YYYY-MM-DD HH:MM).");
            Err(message)
        },
    }
}

/// The title for several targets, or for one whose name is not at hand.
pub open spec fn counted_title(count: nat) -> Seq<char> {
    "Change attributes of "@ + decimal(count) + (if count == 1 {
        " item:"@
    } else {
        " items:"@
    })
}

impl AttributesDialogState {
    /// The patch that the fields spell, where none of them is refused.
    pub open spec fn patch(self) -> MetaPatch {
        MetaPatch {
            mode: mode_choice(self.mode_octal@, self.mode_symbolic@)->Ok_0,
            modified: time_choice("Modified"@, self.modified@)->Ok_0,
            accessed: time_choice("Accessed"@, self.accessed@)->Ok_0,
        }
    }

    /// Why Enter is refused: the first field that does not parse, or that a
    /// change is asked for and there is nowhere to keep its journal.
    pub open spec fn refusal(self) -> Option<Seq<char>> {
        if mode_choice(self.mode_octal@, self.mode_symbolic@) is Err {
            Some(mode_choice(self.mode_octal@, self.mode_symbolic@)->Err_0)
        } else if time_choice("Modified"@, self.modified@) is Err {
            Some(time_choice("Modified"@, self.modified@)->Err_0)
        } else if time_choice("Accessed"@, self.accessed@) is Err {
            Some(time_choice("Accessed"@, self.accessed@)->Err_0)
        } else if !self.patch().empty() && self.state_dir is None {
            Some(no_state_dir_text())
        } else {
            None
        }
    }

    /// Opens the dialog. The fields of a single target show what it has; with
    /// nothing to show they are blank.
    pub fn new(
        targets: Vec<VPath>,
        single_name: Option<String>,
        has_directory_target: bool,
        prefill: Option<AttributesPrefill>,
        state_dir: Option<String>,
    ) -> (state: Self)
        ensures
            state.targets == targets,
            state.single_name == single_name,
            state.has_directory_target == has_directory_target,
            state.state_dir == state_dir,
            !state.recursive,
            !state.planning_in_progress,
            state.mode_octal@ == (match prefill {
                Some(AttributesPrefill { mode: Some(mode), .. }) => octal_text(mode),
                _ => Seq::empty(),
            }),
            state.mode_symbolic@ == (match prefill {
                Some(AttributesPrefill { mode: Some(mode), .. }) => symbolic_text(mode),
                _ => Seq::empty(),
            }),
            state.modified@ == (match prefill {
                Some(AttributesPrefill { modified_secs: Some(secs), .. }) => date_text(secs as int),
                _ => Seq::empty(),
            }),
            state.accessed@ == (match prefill {
                Some(AttributesPrefill { accessed_secs: Some(secs), .. }) => date_text(secs as int),
                _ => Seq::empty(),
            }),
    {
        let shown = match prefill {
            Some(p) => p,
            None => AttributesPrefill { mode: None, modified_secs: None, accessed_secs: None },
        };
        let (mode_octal, mode_symbolic) = match shown.mode {
            Some(mode) => (format_octal_mode(mode), format_symbolic_mode(mode)),
            None => (String::new(), String::new()),
        };
        let modified = match shown.modified_secs {
            Some(secs) => format_date_time(secs),
            None => String::new(),
        };
        let accessed = match shown.accessed_secs {
            Some(secs) => format_date_time(secs),
            None => String::new(),
        };
        AttributesDialogState {
            targets,
            single_name,
            has_directory_target,
            mode_octal,
            mode_symbolic,
            modified,
            accessed,
            recursive: false,
            planning_in_progress: false,
            state_dir,
        }
    }

    /// The octal field changed: the symbolic field follows. Returns whether
    /// it had to change.
    pub fn sync_symbolic_from_octal(&mut self) -> (changed: bool)
        ensures
            final(self).mode_symbolic@ == mirrored_symbolic(
                old(self).mode_octal@,
                old(self).mode_symbolic@,
            ),
            changed == (final(self).mode_symbolic@ != old(self).mode_symbolic@),
            *final(self) == (AttributesDialogState {
                mode_symbolic: final(self).mode_symbolic,
                ..*old(self)
            }),
    {
        let text = trim(self.mode_octal.as_str());
        let derived = if text.as_str().is_empty() {
            String::new()
        } else {
            match parse_octal_mode(text.as_str()) {
                Some(bits) => format_symbolic_mode(bits),
                None => {
                    return false;
                },
            }
        };
        if same_text(self.mode_symbolic.as_str(), derived.as_str()) {
            return false;
        }
        self.mode_symbolic = derived;
        true
    }

    /// The symbolic field changed: the octal field follows. Returns whether
    /// it had to change.
    pub fn sync_octal_from_symbolic(&mut self) -> (changed: bool)
        ensures
            final(self).mode_octal@ == mirrored_octal(
                old(self).mode_symbolic@,
                old(self).mode_octal@,
            ),
            changed == (final(self).mode_octal@ != old(self).mode_octal@),
            *final(self) == (AttributesDialogState {
                mode_octal: final(self).mode_octal,
                ..*old(self)
            }),
    {
        let text = trim(self.mode_symbolic.as_str());
        let derived = if text.as_str().is_empty() {
            String::new()
        } else {
            match parse_symbolic_mode(text.as_str()) {
                Some(bits) => format_octal_mode(bits),
                None => {
                    return false;
                },
            }
        };
        if same_text(self.mode_octal.as_str(), derived.as_str()) {
            return false;
        }
        self.mode_octal = derived;
        true
    }

    /// Flips whether the patch also applies to everything inside the
    /// directories.
    pub fn toggle_recursive(&mut self)
        ensures
            *final(self) == (AttributesDialogState { recursive: !old(self).recursive, ..*old(self) }),
    {
        self.recursive = !self.recursive;
    }

    /// Enter: a patch of the fields that are not blank.
    pub fn confirm(&mut self) -> (answer: AttributesAnswer)
        ensures
            match answer {
                AttributesAnswer::Busy => old(self).planning_in_progress && *final(self) == *old(self),
                AttributesAnswer::Refused(notice) => !old(self).planning_in_progress && old(self).refusal() == Some(notice.message@) && notice.level == NoticeLevel::Warning
                    && *final(self) == *old(self),
                AttributesAnswer::Close => !old(self).planning_in_progress && old(self).refusal() is None && old(self).patch().empty() && *final(self) == *old(self),
                AttributesAnswer::Plan { targets, patch, recursive } => {
                    &&& !old(self).planning_in_progress
                    &&& old(self).refusal() is None
                    &&& targets@ == old(self).targets@
                    &&& patch == old(self).patch()
                    &&& !patch.empty()
                    &&& recursive == old(self).recursive
                    &&& *final(self) == (AttributesDialogState {
                        planning_in_progress: true,
                        ..*old(self)
                    })
                },
            },
    {
        if self.planning_in_progress {
            return AttributesAnswer::Busy;
        }
        let mode = match choose_mode(self.mode_octal.as_str(), self.mode_symbolic.as_str()) {
            Ok(mode) => mode,
            Err(message) => {
                return AttributesAnswer::Refused(Notice { level: NoticeLevel::Warning, message });
            },
        };
        let modified = match parse_timestamp_field(self.modified.as_str(), "Modified") {
            Ok(time) => time,
            Err(message) => {
                return AttributesAnswer::Refused(Notice { level: NoticeLevel::Warning, message });
            },
        };
        let accessed = match parse_timestamp_field(self.accessed.as_str(), "Accessed") {
            Ok(time) => time,
            Err(message) => {
                return AttributesAnswer::Refused(Notice { level: NoticeLevel::Warning, message });
            },
        };
        let patch = MetaPatch { mode, modified, accessed };
        if patch.is_empty() {
            return AttributesAnswer::Close;
        }
        if self.state_dir.is_none() {
            return AttributesAnswer::Refused(no_state_dir(NoticeLevel::Warning));
        }
        self.planning_in_progress = true;
        AttributesAnswer::Plan {
            targets: copy_paths(&self.targets),
            patch,
            recursive: self.recursive,
        }
    }

    /// The job that the plan is queued as.
    pub fn job(&self) -> (job: DialogJob)
        ensures
            job == immediate_job(JobKind::ChangeAttributes, true),
    {
        run_now(JobKind::ChangeAttributes, true)
    }

    /// The planning run came to its end. Returns whether the dialog closes,
    /// and the notice that is raised where it does not.
    pub fn planning_ended(&mut self, outcome: &PlanOutcome) -> (r: (bool, Option<Notice>))
        ensures
            *final(self) == (AttributesDialogState { planning_in_progress: false, ..*old(self) }),
            r.0 == (outcome is Enqueued),
            match r.1 {
                Some(notice) => outcome_text(*outcome) == Some(notice.message@) && notice.level
                    == NoticeLevel::Error,
                None => outcome_text(*outcome) is None,
            },
    {
        self.planning_in_progress = false;
        report_job_outcome(outcome)
    }

    /// The dialog's headline.
    pub fn title(&self) -> (text: String)
        ensures
            text@ == attributes_title(self.single_name, self.targets@.len()),
    {
        match &self.single_name {
            Some(name) => {
                let mut text = "Change attributes of \u{201c}".to_owned();
                text.append(name.as_str());
                text.append("\u{201d}:");
                text
            },
            None => {
                let mut text = "Change attributes of ".to_owned();
                push_decimal(&mut text, self.targets.len() as u64);
                if self.targets.len() == 1 {
                    text.append(" item:");
                } else {
                    text.append(" items:");
                }
                text
            },
        }
    }

    /// The line that says what the recursive option does.
    pub fn recursive_hint(&self) -> (text: &'static str)
        ensures
            text@ == recursive_text(self.recursive, self.has_directory_target),
    {
        if self.recursive {
            "Recursive: on (Ctrl+R) \u{2014} applies to everything inside the selected director\u{200b}ies too"
        } else if self.has_directory_target {
            "Recursive: off (Ctrl+R) \u{2014} only the selected entries themselves"
        } else {
            "Recursive: off (Ctrl+R) \u{2014} nothing selected is a directory, so this changes nothing"
        }
    }

    /// The dialog as it is shown.
    pub fn render(&self) -> (view: AttributesView)
        ensures
            view.title@ == attributes_title(self.single_name, self.targets@.len()),
            view.fields@.len() == 4,
            view.fields@[0].label@ == "Permissions (octal)"@,
            view.fields@[0].value == self.mode_octal,
            view.fields@[1].label@ == "Symbolic"@,
            view.fields@[1].value == self.mode_symbolic,
            view.fields@[2].label@ == "Modified"@,
            view.fields@[2].value == self.modified,
            view.fields@[3].label@ == "Accessed"@,
            view.fields@[3].value == self.accessed,
            view.recursive@ == recursive_text(self.recursive, self.has_directory_target),
            view.hint@ == "A blank field is left unchanged. Enter to confirm, Esc to cancel."@,
    {
        AttributesView {
            title: self.title(),
            fields: vec![
                FieldRow { label: "Permissions (octal)", value: self.mode_octal.clone() },
                FieldRow { label: "Symbolic", value: self.mode_symbolic.clone() },
                FieldRow { label: "Modified", value: self.modified.clone() },
                FieldRow { label: "Accessed", value: self.accessed.clone() },
            ],
            recursive: self.recursive_hint(),
            hint: "A blank field is left unchanged. Enter to confirm, Esc to cancel.",
        }
    }
}

/// A field with its label.
#[derive(Debug, PartialEq, Eq)]
pub struct FieldRow {
    pub label: &'static str,
    pub value: String,
}

/// The dialog as it is shown.
#[derive(Debug, PartialEq, Eq)]
pub struct AttributesView {
    pub title: String,
    pub fields: Vec<FieldRow>,
    pub recursive: &'static str,
    pub hint: &'static str,
}

/// The dialog's headline: the one target's name, or how many there are.
pub open spec fn attributes_title(single_name: Option<String>, targets: nat) -> Seq<char> {
    match single_name {
        Some(name) => "Change attributes of \u{201c}"@ + name@ + "\u{201d}:"@,
        None => counted_title(targets),
    }
}

/// The line that says what the recursive option does.
pub open spec fn recursive_text(recursive: bool, has_directory_target: bool) -> Seq<char> {
    if recursive {
        "Recursive: on (Ctrl+R) \u{2014} applies to everything inside the selected director\u{200b}ies too"@
    } else if has_directory_target {
        "Recursive: off (Ctrl+R) \u{2014} only the selected entries themselves"@
    } else {
        "Recursive: off (Ctrl+R) \u{2014} nothing selected is a directory, so this changes nothing"@
    }
}

proof fn lemma_plain_text_is_trimmed(s: Seq<char>)
    requires
        s.len() > 0,
        !crate::text::is_whitespace(s[0]),
        !crate::text::is_whitespace(s.last()),
    ensures
        trimmed(s) == s,
{
}

proof fn lemma_mode_texts_are_trimmed(mode: u32)
    ensures
        trimmed(octal_text(mode)) == octal_text(mode),
        trimmed(symbolic_text(mode)) == symbolic_text(mode),
        octal_text(mode).len() > 0,
        symbolic_text(mode).len() > 0,
{
    let b = permission_bits(mode) as int;
    lemma_octal_digit(b / 512);
    lemma_octal_digit(b / 64 % 8);
    lemma_octal_digit(b % 8);
    lemma_plain_text_is_trimmed(octal_text(mode));
    lemma_plain_text_is_trimmed(symbolic_text(mode));
}

/// The two permission fields stop changing each other: where an edit of one
/// changes the other, and that change is carried back, nothing is left to
/// carry over again.
pub proof fn lemma_mirroring_settles(octal: Seq<char>, symbolic: Seq<char>)
    ensures
        ({
            let symbolic1 = mirrored_symbolic(octal, symbolic);
            let octal1 = mirrored_octal(symbolic1, octal);
            symbolic1 != symbolic ==> mirrored_symbolic(octal1, symbolic1) == symbolic1
        }),
        ({
            let octal1 = mirrored_octal(symbolic, octal);
            let symbolic1 = mirrored_symbolic(octal1, symbolic);
            octal1 != octal ==> mirrored_octal(symbolic1, octal1) == octal1
        }),
{
    let t = trimmed(octal);
    if t.len() == 0 {
        assert(trimmed(Seq::<char>::empty()) =~= Seq::<char>::empty());
    } else if octal_mode(t) is Some {
        let bits = octal_mode(t)->0;
        lemma_octal_bound(t);
        lemma_symbolic_text_reads_back(bits);
        lemma_octal_text_reads_back(bits);
        lemma_mode_texts_are_trimmed(bits);
    }
    let t = trimmed(symbolic);
    if t.len() == 0 {
        assert(trimmed(Seq::<char>::empty()) =~= Seq::<char>::empty());
    } else if symbolic_mode(t) is Some {
        let bits = symbolic_mode(t)->0;
        lemma_symbolic_text_reads_back(bits);
        lemma_octal_text_reads_back(bits);
        lemma_mode_texts_are_trimmed(bits);
        lemma_mode_texts_are_trimmed(permission_bits(bits));
        lemma_symbolic_text_of_bits(bits);
    }
}

/// A field that does not parse leaves the other one as it is.
pub proof fn lemma_garbage_does_not_spread(octal: Seq<char>, symbolic: Seq<char>)
    ensures
        trimmed(octal).len() > 0 && octal_mode(trimmed(octal)) is None ==> mirrored_symbolic(
            octal,
            symbolic,
        ) == symbolic,
        trimmed(symbolic).len() > 0 && symbolic_mode(trimmed(symbolic)) is None ==> mirrored_octal(
            symbolic,
            octal,
        ) == octal,
{
}

/// One field's text, carried over to the other and back, stands for the same
/// permission bits.
pub proof fn lemma_renderings_agree(mode: u32)
    ensures
        symbolic_mode(symbolic_text(octal_mode(octal_text(mode))->0)) == Some(
            permission_bits(mode),
        ),
        octal_mode(octal_text(symbolic_mode(symbolic_text(mode))->0)) == Some(
            permission_bits(mode),
        ),
        symbolic_text(symbolic_mode(symbolic_text(mode))->0) == symbolic_text(mode),
{
    lemma_octal_text_reads_back(mode);
    lemma_symbolic_text_reads_back(mode);
    lemma_symbolic_text_reads_back(permission_bits(mode));
    lemma_octal_text_reads_back(permission_bits(mode));
    lemma_symbolic_text_of_bits(mode);
}

/// The permission bits are the lowest twelve of a mode.
pub proof fn lemma_permission_bits(mode: u32)
    ensures
        permission_bits(mode) == mode & 0o7777,
{
    assert(mode % 4096 == mode & 0o7777) by (bit_vector);
}

/// Each column of the symbolic text tells of its own bit: reading, writing and
/// executing, of the owner, the group and the others. The execute columns tell
/// of setuid, setgid and sticky too.
pub proof fn lemma_columns_tell_of_their_bits(mode: u32)
    ensures
        ({
            let text = symbolic_text(mode);
            &&& text.len() == 9
            &&& text[0] == 'r' <==> mode & 0o400 != 0
            &&& text[1] == 'w' <==> mode & 0o200 != 0
            &&& text[2] == 'x' || text[2] == 's' <==> mode & 0o100 != 0
            &&& text[2] == 's' || text[2] == 'S' <==> mode & 0o4000 != 0
            &&& text[3] == 'r' <==> mode & 0o040 != 0
            &&& text[4] == 'w' <==> mode & 0o020 != 0
            &&& text[5] == 'x' || text[5] == 's' <==> mode & 0o010 != 0
            &&& text[5] == 's' || text[5] == 'S' <==> mode & 0o2000 != 0
            &&& text[6] == 'r' <==> mode & 0o004 != 0
            &&& text[7] == 'w' <==> mode & 0o002 != 0
            &&& text[8] == 'x' || text[8] == 't' <==> mode & 0o001 != 0
            &&& text[8] == 't' || text[8] == 'T' <==> mode & 0o1000 != 0
            &&& forall|i: int|
                0 <= i < 9 ==> seq!['r', 'w', 'x', 's', 'S', 't', 'T', '-'].contains(
                    #[trigger] text[i],
                )
        }),
{
    let text = symbolic_text(mode);
    let letters = seq!['r', 'w', 'x', 's', 'S', 't', 'T', '-'];
    assert(letters[0] == 'r' && letters[1] == 'w' && letters[2] == 'x' && letters[3] == 's'
        && letters[4] == 'S' && letters[5] == 't' && letters[6] == 'T' && letters[7] == '-');
}

/// The octal text has a digit for each three bits, and a fourth only where
/// setuid, setgid or sticky is set.
pub proof fn lemma_octal_digits(mode: u32)
    ensures
        ({
            let text = octal_text(mode);
            let bits = mode as int % 4096;
            let n = text.len() as int;
            &&& n == 4 || n == 3
            &&& n == 4 <==> bits >= 512
            &&& text[n - 1] as int == '0' as int + bits % 8
            &&& text[n - 2] as int == '0' as int + bits / 8 % 8
            &&& text[n - 3] as int == '0' as int + bits / 64 % 8
            &&& n == 4 ==> text[0] as int == '0' as int + bits / 512
        }),
{
    let bits = permission_bits(mode) as int;
    lemma_octal_digit(bits % 8);
    lemma_octal_digit(bits / 8 % 8);
    lemma_octal_digit(bits / 64 % 8);
    lemma_octal_digit(bits / 512);
}

/// An octal text is one to four octal digits, each worth eight times the one
/// behind it.
pub proof fn lemma_octal_value(text: Seq<char>, digit: char)
    ensures
        octal_mode(text) is Some <==> 1 <= text.len() <= 4 && forall|i: int|
            0 <= i < text.len() ==> '0' <= #[trigger] text[i] <= '7',
        octal_mode(text) is Some && text.len() < 4 && '0' <= digit <= '7' ==> octal_mode(
            text.push(digit),
        ) is Some && octal_mode(text.push(digit))->0 == 8 * octal_mode(text)->0 + (digit as int
            - '0' as int),
        '0' <= digit <= '7' ==> octal_mode(seq![digit]) is Some && octal_mode(seq![digit])->0
            == digit as int - '0' as int,
{
    if octal_mode(text) is Some && text.len() < 4 && '0' <= digit <= '7' {
        let more = text.push(digit);
        assert forall|i: int| 0 <= i < more.len() implies is_octal_digit(#[trigger] more[i]) by {
            if i < text.len() {
                assert(is_octal_digit(text[i]));
            }
        }
        assert(more.drop_last() =~= text);
        lemma_octal_bound(text);
        lemma_octal_bound(more);
    }
    if '0' <= digit <= '7' {
        let one = seq![digit];
        assert(one.drop_last() =~= Seq::<char>::empty());
        assert(octal_number(Seq::<char>::empty()) == 0);
        assert(octal_number(one) == digit as int - '0' as int);
        assert(forall|i: int| 0 <= i < one.len() ==> is_octal_digit(#[trigger] one[i]));
    }
}

/// The octal field goes before the symbolic one. A blank field asks for nothing;
/// a change is refused exactly where the field that decides is not blank and
/// does not parse.
pub proof fn lemma_octal_goes_first(octal: Seq<char>, symbolic: Seq<char>)
    ensures
        ({
            let o = trimmed(octal);
            let s = trimmed(symbolic);
            let choice = mode_choice(octal, symbolic);
            &&& o.len() > 0 && octal_mode(o) is Some ==> choice == Ok::<
                Option<u32>,
                Seq<char>,
            >(octal_mode(o))
            &&& o.len() > 0 && octal_mode(o) is None ==> choice is Err
            &&& o.len() == 0 && s.len() > 0 && symbolic_mode(s) is Some ==> choice == Ok::<
                Option<u32>,
                Seq<char>,
            >(symbolic_mode(s))
            &&& o.len() == 0 && s.len() > 0 && symbolic_mode(s) is None ==> choice is Err
            &&& o.len() == 0 && s.len() == 0 ==> choice == Ok::<Option<u32>, Seq<char>>(None)
        }),
{
}

/// A time that a field shows is asked for as the minute that it shows, whatever
/// whitespace stands around it; a blank field asks for no change.
pub proof fn lemma_time_field(label: Seq<char>, field: Seq<char>)
    ensures
        ({
            let t = trimmed(field);
            let choice = time_choice(label, field);
            &&& t.len() == 0 ==> choice == Ok::<Option<Timestamp>, Seq<char>>(None)
            &&& t.len() > 0 && spells_a_minute(t) ==> choice is Ok && choice->Ok_0 is Some
                && choice->Ok_0->0.secs == civil_seconds(spelled(t)->0) && choice->Ok_0->0.nanos == 0
            &&& t.len() > 0 && !spells_a_minute(t) ==> choice is Err && label.is_prefix_of(
                choice->Err_0,
            )
        }),
{
    let t = trimmed(field);
    let text = time_refusal(label, t);
    assert(text.take(label.len() as int) =~= label);
}

/// Each field of the dialog changes its own attribute: the permissions from the
/// permission fields, and each time from the field of its name.
pub proof fn lemma_fields_change_their_own(state: AttributesDialogState)
    requires
        state.refusal() is None,
    ensures
        ({
            let patch = state.patch();
            let modified = trimmed(state.modified@);
            let accessed = trimmed(state.accessed@);
            &&& patch.modified is Some <==> modified.len() > 0
            &&& patch.modified is Some ==> patch.modified->0.secs == civil_seconds(
                spelled(modified)->0,
            )
            &&& patch.accessed is Some <==> accessed.len() > 0
            &&& patch.accessed is Some ==> patch.accessed->0.secs == civil_seconds(
                spelled(accessed)->0,
            )
            &&& patch.mode is Some <==> trimmed(state.mode_octal@).len() > 0 || trimmed(
                state.mode_symbolic@,
            ).len() > 0
            &&& trimmed(state.mode_octal@).len() > 0 ==> patch.mode == octal_mode(
                trimmed(state.mode_octal@),
            )
            &&& patch.empty() <==> modified.len() == 0 && accessed.len() == 0 && trimmed(
                state.mode_octal@,
            ).len() == 0 && trimmed(state.mode_symbolic@).len() == 0
        }),
{
    lemma_time_field("Modified"@, state.modified@);
    lemma_time_field("Accessed"@, state.accessed@);
    lemma_octal_goes_first(state.mode_octal@, state.mode_symbolic@);
}

/// Enter is refused exactly where a field does not parse, or where a change is
/// asked for that no journal can be kept of; the permissions are looked at
/// first, then the modification time, then that of the last access.
pub proof fn lemma_refusal(state: AttributesDialogState)
    ensures
        ({
            let mode = mode_choice(state.mode_octal@, state.mode_symbolic@);
            let modified = trimmed(state.modified@);
            let accessed = trimmed(state.accessed@);
            let bad_modified = modified.len() > 0 && !spells_a_minute(modified);
            let bad_accessed = accessed.len() > 0 && !spells_a_minute(accessed);
            &&& mode is Err ==> state.refusal() == Some(mode->Err_0)
            &&& mode is Ok && bad_modified ==> state.refusal() is Some && "Modified"@.is_prefix_of(
                state.refusal()->0,
            )
            &&& mode is Ok && !bad_modified && bad_accessed ==> state.refusal() is Some
                && "Accessed"@.is_prefix_of(state.refusal()->0)
            &&& mode is Ok && !bad_modified && !bad_accessed ==> (state.refusal() is Some
                <==> state.state_dir is None && !(modified.len() == 0 && accessed.len() == 0
                && mode->Ok_0 is None))
        }),
{
    lemma_time_field("Modified"@, state.modified@);
    lemma_time_field("Accessed"@, state.accessed@);
}

/// An edit of one permission field shows in the other: what parses is shown for
/// the same bits, and a field that is emptied empties the other.
pub proof fn lemma_fields_mirror_each_other(octal: Seq<char>, symbolic: Seq<char>)
    ensures
        octal_mode(trimmed(octal)) is Some ==> symbolic_mode(mirrored_symbolic(octal, symbolic))
            == octal_mode(trimmed(octal)),
        symbolic_mode(trimmed(symbolic)) is Some ==> octal_mode(mirrored_octal(symbolic, octal))
            == Some(permission_bits(symbolic_mode(trimmed(symbolic))->0)),
        trimmed(octal).len() == 0 ==> mirrored_symbolic(octal, symbolic).len() == 0,
        trimmed(symbolic).len() == 0 ==> mirrored_octal(symbolic, octal).len() == 0,
{
    let o = trimmed(octal);
    let s = trimmed(symbolic);
    if octal_mode(o) is Some {
        lemma_octal_bound(o);
        lemma_symbolic_text_reads_back(octal_mode(o)->0);
    }
    if symbolic_mode(s) is Some {
        lemma_octal_text_reads_back(symbolic_mode(s)->0);
    }
}

/// The headline names the one target, or says how many there are.
pub proof fn lemma_attributes_headline(name: String, targets: nat)
    ensures
        (seq!['\u{201c}'] + name@ + seq!['\u{201d}', ':']).is_suffix_of(
            attributes_title(Some(name), targets),
        ),
        ("Change attributes of "@ + decimal(targets) + " item"@).is_prefix_of(
            attributes_title(None, targets),
        ),
        targets == 1 <==> " item:"@.is_suffix_of(attributes_title(None, targets)),
{
    reveal_strlit("Change attributes of \u{201c}");
    reveal_strlit("\u{201d}:");
    reveal_strlit(" item");
    reveal_strlit(" item:");
    reveal_strlit(" items:");
    let single = attributes_title(Some(name), targets);
    let tail = seq!['\u{201c}'] + name@ + seq!['\u{201d}', ':'];
    assert(single.skip(single.len() - tail.len()) =~= tail);
    let counted = attributes_title(None, targets);
    let head = "Change attributes of "@ + decimal(targets) + " item"@;
    assert(counted.take(head.len() as int) =~= head);
    let one = " item:"@;
    if targets == 1 {
        assert(counted.skip(counted.len() - one.len()) =~= one);
    } else if one.is_suffix_of(counted) {
        assert(counted[counted.len() - 2] == one[one.len() - 2]);
        assert(counted[counted.len() - 2] == 's');
    }
}

/// The line of the recursive option says whether it is on.
pub proof fn lemma_recursive_line(recursive: bool, has_directory_target: bool)
    ensures
        recursive <==> "Recursive: on"@.is_prefix_of(
            recursive_text(recursive, has_directory_target),
        ),
        !recursive <==> "Recursive: off"@.is_prefix_of(
            recursive_text(recursive, has_directory_target),
        ),
        !recursive && has_directory_target ==> recursive_text(recursive, has_directory_target)
            != recursive_text(recursive, false),
{
    reveal_strlit("Recursive: on");
    reveal_strlit("Recursive: off");
    reveal_strlit(
        "Recursive: on (Ctrl+R) \u{2014} applies to everything inside the selected director\u{200b}ies too",
    );
    reveal_strlit("Recursive: off (Ctrl+R) \u{2014} only the selected entries themselves");
    reveal_strlit(
        "Recursive: off (Ctrl+R) \u{2014} nothing selected is a directory, so this changes nothing",
    );
    let text = recursive_text(recursive, has_directory_target);
    let on = "Recursive: on"@;
    let off = "Recursive: off"@;
    if recursive {
        assert(text.take(on.len() as int) =~= on);
        if off.is_prefix_of(text) {
            assert(text[12] == off[12]);
        }
    } else {
        assert(text.take(off.len() as int) =~= off);
        if on.is_prefix_of(text) {
            assert(text[12] == on[12]);
        }
    }
}

/// What is refused is named in the refusal.
pub proof fn lemma_refusals_name_the_text(text: Seq<char>)
    ensures
        (seq!['\u{201c}'] + text + seq!['\u{201d}']).is_prefix_of(octal_refusal(text)),
        (seq!['\u{201c}'] + text + seq!['\u{201d}']).is_prefix_of(symbolic_refusal(text)),
        octal_refusal(text) != symbolic_refusal(text),
{
    reveal_strlit("\u{201c}");
    reveal_strlit(
        "\u{201d} isn't a valid octal permission value (three or four digits, 0-7, e.g. 755).",
    );
    reveal_strlit(
        "\u{201d} isn't a valid symbolic permission value (nine characters, e.g. rwxr-xr-x).",
    );
    let head = seq!['\u{201c}'] + text + seq!['\u{201d}'];
    let octal = octal_refusal(text);
    let symbolic = symbolic_refusal(text);
    assert(octal.take(head.len() as int) =~= head);
    assert(symbolic.take(head.len() as int) =~= head);
    assert(octal[text.len() as int + 17] == 'o');
    assert(symbolic[text.len() as int + 17] == 's');
}

proof fn lemma_columns_stay_apart(
    a: u32,
    b: u32,
    c: u32,
    d: u32,
    e: u32,
    f: u32,
    g: u32,
    h: u32,
    i: u32,
    j: u32,
    k: u32,
    l: u32,
)
    requires
        a == 0 || a == 0o400,
        b == 0 || b == 0o200,
        c == 0 || c == 0o100,
        d == 0 || d == 0o4000,
        e == 0 || e == 0o040,
        f == 0 || f == 0o020,
        g == 0 || g == 0o010,
        h == 0 || h == 0o2000,
        i == 0 || i == 0o004,
        j == 0 || j == 0o002,
        k == 0 || k == 0o001,
        l == 0 || l == 0o1000,
    ensures
        ({
            let all = (a | b | (c | d)) | (e | f | (g | h)) | (i | j | (k | l));
            &&& all & 0o400 == a
            &&& all & 0o200 == b
            &&& all & 0o100 == c
            &&& all & 0o4000 == d
            &&& all & 0o040 == e
            &&& all & 0o020 == f
            &&& all & 0o010 == g
            &&& all & 0o2000 == h
            &&& all & 0o004 == i
            &&& all & 0o002 == j
            &&& all & 0o001 == k
            &&& all & 0o1000 == l
        }),
{
    let all = (a | b | (c | d)) | (e | f | (g | h)) | (i | j | (k | l));
    assert(all & 0o400 == a && all & 0o200 == b && all & 0o100 == c && all & 0o4000 == d && all
        & 0o040 == e && all & 0o020 == f && all & 0o010 == g && all & 0o2000 == h && all & 0o004
        == i && all & 0o002 == j && all & 0o001 == k && all & 0o1000 == l) by (bit_vector)
        requires
            a == 0 || a == 0o400,
            b == 0 || b == 0o200,
            c == 0 || c == 0o100,
            d == 0 || d == 0o4000,
            e == 0 || e == 0o040,
            f == 0 || f == 0o020,
            g == 0 || g == 0o010,
            h == 0 || h == 0o2000,
            i == 0 || i == 0o004,
            j == 0 || j == 0o002,
            k == 0 || k == 0o001,
            l == 0 || l == 0o1000,
            all == (a | b | (c | d)) | (e | f | (g | h)) | (i | j | (k | l)),
    ;
}

/// What a bit is worth: its mask where it is set.
#[verifier::opaque]
spec fn worth(set: bool, mask: u32) -> u32 {
    if set {
        mask
    } else {
        0
    }
}

proof fn lemma_triad_is_the_sum(
    r: char,
    w: char,
    x: char,
    lower: char,
    upper: char,
    masks: (u32, u32, u32, u32),
)
    requires
        is_triad(r, w, x, lower, upper),
        (lower == 's' && upper == 'S') || (lower == 't' && upper == 'T'),
    ensures
        triad_bits(r, w, x, lower, upper, masks) == worth(r == 'r', masks.0) | worth(
            w == 'w',
            masks.1,
        ) | (worth(x == 'x' || x == lower, masks.2) | worth(x == lower || x == upper, masks.3)),
{
    reveal(worth);
    let m2 = masks.2;
    let m3 = masks.3;
    assert(m2 | 0u32 == m2) by (bit_vector);
    assert(0u32 | m3 == m3) by (bit_vector);
    assert(0u32 | 0u32 == 0u32) by (bit_vector);
}

proof fn lemma_triad_is_shown(
    bits: u32,
    r: char,
    w: char,
    x: char,
    lower: char,
    upper: char,
    masks: (u32, u32, u32, u32),
)
    requires
        is_triad(r, w, x, lower, upper),
        (lower == 's' && upper == 'S') || (lower == 't' && upper == 'T'),
        masks.0 != 0 && masks.1 != 0 && masks.2 != 0 && masks.3 != 0,
        bits & masks.0 == worth(r == 'r', masks.0),
        bits & masks.1 == worth(w == 'w', masks.1),
        bits & masks.2 == worth(x == 'x' || x == lower, masks.2),
        bits & masks.3 == worth(x == lower || x == upper, masks.3),
    ensures
        flag_char(bits & masks.0 != 0, 'r') == r,
        flag_char(bits & masks.1 != 0, 'w') == w,
        execute_char(bits & masks.2 != 0, bits & masks.3 != 0, lower, upper) == x,
{
    reveal(worth);
}

proof fn lemma_worth(set: bool, mask: u32)
    ensures
        worth(set, mask) == 0 || worth(set, mask) == mask,
{
    reveal(worth);
}

proof fn lemma_bits_of_spelling(text: Seq<char>, bits: u32)
    requires
        symbolic_mode(text) == Some(bits),
    ensures
        bits & 0o400 == worth(text[0] == 'r', 0o400),
        bits & 0o200 == worth(text[1] == 'w', 0o200),
        bits & 0o100 == worth(text[2] == 'x' || text[2] == 's', 0o100),
        bits & 0o4000 == worth(text[2] == 's' || text[2] == 'S', 0o4000),
        bits & 0o040 == worth(text[3] == 'r', 0o040),
        bits & 0o020 == worth(text[4] == 'w', 0o020),
        bits & 0o010 == worth(text[5] == 'x' || text[5] == 's', 0o010),
        bits & 0o2000 == worth(text[5] == 's' || text[5] == 'S', 0o2000),
        bits & 0o004 == worth(text[6] == 'r', 0o004),
        bits & 0o002 == worth(text[7] == 'w', 0o002),
        bits & 0o001 == worth(text[8] == 'x' || text[8] == 't', 0o001),
        bits & 0o1000 == worth(text[8] == 't' || text[8] == 'T', 0o1000),
{
    lemma_triad_is_the_sum(text[0], text[1], text[2], 's', 'S', (0o400, 0o200, 0o100, 0o4000));
    lemma_triad_is_the_sum(text[3], text[4], text[5], 's', 'S', (0o040, 0o020, 0o010, 0o2000));
    lemma_triad_is_the_sum(text[6], text[7], text[8], 't', 'T', (0o004, 0o002, 0o001, 0o1000));
    let a = worth(text[0] == 'r', 0o400);
    let b = worth(text[1] == 'w', 0o200);
    let c = worth(text[2] == 'x' || text[2] == 's', 0o100);
    let d = worth(text[2] == 's' || text[2] == 'S', 0o4000);
    let e = worth(text[3] == 'r', 0o040);
    let f = worth(text[4] == 'w', 0o020);
    let g = worth(text[5] == 'x' || text[5] == 's', 0o010);
    let h = worth(text[5] == 's' || text[5] == 'S', 0o2000);
    let i = worth(text[6] == 'r', 0o004);
    let j = worth(text[7] == 'w', 0o002);
    let k = worth(text[8] == 'x' || text[8] == 't', 0o001);
    let l = worth(text[8] == 't' || text[8] == 'T', 0o1000);
    lemma_worth(text[0] == 'r', 0o400);
    lemma_worth(text[1] == 'w', 0o200);
    lemma_worth(text[2] == 'x' || text[2] == 's', 0o100);
    lemma_worth(text[2] == 's' || text[2] == 'S', 0o4000);
    lemma_worth(text[3] == 'r', 0o040);
    lemma_worth(text[4] == 'w', 0o020);
    lemma_worth(text[5] == 'x' || text[5] == 's', 0o010);
    lemma_worth(text[5] == 's' || text[5] == 'S', 0o2000);
    lemma_worth(text[6] == 'r', 0o004);
    lemma_worth(text[7] == 'w', 0o002);
    lemma_worth(text[8] == 'x' || text[8] == 't', 0o001);
    lemma_worth(text[8] == 't' || text[8] == 'T', 0o1000);
    lemma_columns_stay_apart(a, b, c, d, e, f, g, h, i, j, k, l);
}

/// A symbolic text is read only where it is the text of what it is read as: no
/// other spelling is taken.
pub proof fn lemma_symbolic_spelling_is_one(text: Seq<char>)
    requires
        symbolic_mode(text) is Some,
    ensures
        symbolic_text(symbolic_mode(text)->0) == text,
{
    let bits = symbolic_mode(text)->0;
    lemma_bits_of_spelling(text, bits);
    let user = (0o400u32, 0o200u32, 0o100u32, 0o4000u32);
    let group = (0o040u32, 0o020u32, 0o010u32, 0o2000u32);
    let other = (0o004u32, 0o002u32, 0o001u32, 0o1000u32);
    lemma_triad_is_shown(bits, text[0], text[1], text[2], 's', 'S', user);
    lemma_triad_is_shown(bits, text[3], text[4], text[5], 's', 'S', group);
    lemma_triad_is_shown(bits, text[6], text[7], text[8], 't', 'T', other);
    assert(symbolic_text(bits) =~= text);
}

} // verus!
