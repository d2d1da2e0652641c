//! Byte counts as the panels show them: whole bytes below one kilobyte, else
//! the count in the largest unit it reaches, with one decimal.

use crate::columns::EntryKind;
use crate::text::{
    decimal, digit, digit_char, is_digit, lemma_decimal_reads_back, push_char, push_decimal,
};
use vstd::arithmetic::power::pow;
use vstd::prelude::*;

verus! {

/// How many bytes the `unit`-th unit holds: B, KB, MB, GB, TB, PB.
pub open spec fn unit_bytes(unit: int) -> int {
    if unit <= 0 {
        1
    } else if unit == 1 {
        1024
    } else if unit == 2 {
        1048576
    } else if unit == 3 {
        1073741824
    } else if unit == 4 {
        1099511627776
    } else {
        1125899906842624
    }
}

pub open spec fn unit_name(unit: int) -> Seq<char> {
    if unit <= 0 {
        "B"@
    } else if unit == 1 {
        "KB"@
    } else if unit == 2 {
        "MB"@
    } else if unit == 3 {
        "GB"@
    } else if unit == 4 {
        "TB"@
    } else {
        "PB"@
    }
}

/// `n / d` rounded to the nearest whole number, an even one where two are
/// equally near.
pub open spec fn nearest(n: int, d: int) -> int {
    let q = n / d;
    let twice = 2 * (n % d);
    if twice > d || (twice == d && q % 2 == 1) {
        q + 1
    } else {
        q
    }
}

/// The largest power of two that a count is kept to a multiple of so that 53
/// significant bits hold it.
pub open spec fn grain(bytes: nat) -> int {
    if bytes < 0x20_0000_0000_0000 {
        1
    } else if bytes < 0x40_0000_0000_0000 {
        2
    } else if bytes < 0x80_0000_0000_0000 {
        4
    } else if bytes < 0x100_0000_0000_0000 {
        8
    } else if bytes < 0x200_0000_0000_0000 {
        16
    } else if bytes < 0x400_0000_0000_0000 {
        32
    } else if bytes < 0x800_0000_0000_0000 {
        64
    } else if bytes < 0x1000_0000_0000_0000 {
        128
    } else if bytes < 0x2000_0000_0000_0000 {
        256
    } else if bytes < 0x4000_0000_0000_0000 {
        512
    } else if bytes < 0x8000_0000_0000_0000 {
        1024
    } else {
        2048
    }
}

/// A count kept to 53 significant bits.
pub open spec fn kept(bytes: nat) -> int {
    nearest(bytes as int, grain(bytes)) * grain(bytes)
}

/// The unit a count is shown in: the largest that it reaches.
pub open spec fn unit_of(bytes: nat) -> int {
    if bytes < 1024 {
        0
    } else if bytes < 1048576 {
        1
    } else if bytes < 1073741824 {
        2
    } else if bytes < 1099511627776 {
        3
    } else if bytes < 1125899906842624 {
        4
    } else {
        5
    }
}

/// Tenths of its unit that a count is shown with.
pub open spec fn tenths(bytes: nat) -> int {
    nearest(kept(bytes) * 10, unit_bytes(unit_of(bytes)))
}

/// A byte count as the panels show it.
pub open spec fn byte_count_text(bytes: nat) -> Seq<char> {
    if unit_of(bytes) == 0 {
        decimal(bytes) + " B"@
    } else {
        decimal((tenths(bytes) / 10) as nat) + seq!['.', digit(tenths(bytes) % 10)] + " "@
            + unit_name(unit_of(bytes))
    }
}

/// The Size column's text: directories show no size.
pub open spec fn size_text(kind: EntryKind, bytes: nat) -> Seq<char> {
    if kind == EntryKind::Directory {
        "<DIR>"@
    } else {
        byte_count_text(bytes)
    }
}

fn nearest_quotient(n: u128, d: u128) -> (q: u128)
    requires
        d > 0,
        d <= 0x1_0000_0000_0000_0000,
        n < 0x1_0000_0000_0000_0000_0000,
    ensures
        q == nearest(n as int, d as int),
{
    let q = n / d;
    let rest = n % d;
    assert(q <= n) by (nonlinear_arith)
        requires
            q == n as int / d as int,
            d >= 1,
    ;
    assert(rest < d);
    if 2 * rest > d || (2 * rest == d && q % 2 == 1) {
        q + 1
    } else {
        q
    }
}

fn grain_of(bytes: u64) -> (g: u64)
    ensures
        g == grain(bytes as nat),
        1 <= g <= 2048,
{
    if bytes < 0x20_0000_0000_0000 {
        1
    } else if bytes < 0x40_0000_0000_0000 {
        2
    } else if bytes < 0x80_0000_0000_0000 {
        4
    } else if bytes < 0x100_0000_0000_0000 {
        8
    } else if bytes < 0x200_0000_0000_0000 {
        16
    } else if bytes < 0x400_0000_0000_0000 {
        32
    } else if bytes < 0x800_0000_0000_0000 {
        64
    } else if bytes < 0x1000_0000_0000_0000 {
        128
    } else if bytes < 0x2000_0000_0000_0000 {
        256
    } else if bytes < 0x4000_0000_0000_0000 {
        512
    } else if bytes < 0x8000_0000_0000_0000 {
        1024
    } else {
        2048
    }
}

proof fn lemma_kept_bound(bytes: nat)
    requires
        bytes <= u64::MAX,
    ensures
        0 <= kept(bytes) <= bytes + 2048,
{
    let g = grain(bytes);
    let q = bytes as int / g;
    assert(q * g <= bytes) by {
        vstd::arithmetic::div_mod::lemma_fundamental_div_mod(bytes as int, g);
        assert(g * q == q * g) by (nonlinear_arith);
    }
    assert((q + 1) * g == q * g + g) by (nonlinear_arith);
    assert(0 <= q * g) by (nonlinear_arith)
        requires
            q >= 0,
            g >= 1,
    ;
}

/// Appends a byte count as the panels show it.
pub fn write_byte_count(out: &mut String, bytes: u64)
    ensures
        final(out)@ == old(out)@ + byte_count_text(bytes as nat),
{
    let ghost start = out@;
    let (unit, whole, name): (u8, u64, &'static str) = if bytes < 1024 {
        (0, 1, "B")
    } else if bytes < 1048576 {
        (1, 1024, "KB")
    } else if bytes < 1073741824 {
        (2, 1048576, "MB")
    } else if bytes < 1099511627776 {
        (3, 1073741824, "GB")
    } else if bytes < 1125899906842624 {
        (4, 1099511627776, "TB")
    } else {
        (5, 1125899906842624, "PB")
    };
    let mut text = String::new();
    if unit == 0 {
        push_decimal(&mut text, bytes);
        text.append(" B");
        assert(text@ =~= byte_count_text(bytes as nat));
    } else {
        let g = grain_of(bytes);
        let q = nearest_quotient(bytes as u128, g as u128);
        proof {
            lemma_kept_bound(bytes as nat);
            assert(q * g == kept(bytes as nat));
        }
        let held: u128 = q * g as u128;
        let shown = nearest_quotient(held * 10, whole as u128);
        proof {
            lemma_tenths_bound(held as int * 10, whole as int);
        }
        push_decimal(&mut text, (shown / 10) as u64);
        push_char(&mut text, '.');
        push_char(&mut text, digit_char((shown % 10) as u64));
        text.append(" ");
        text.append(name);
        assert(text@ =~= byte_count_text(bytes as nat));
    }
    out.append(text.as_str());
}

proof fn lemma_tenths_bound(n: int, d: int)
    requires
        0 <= n <= 10 * (u64::MAX + 2048),
        d >= 1024,
    ensures
        0 <= nearest(n, d) <= u64::MAX,
{
    let q = n / d;
    vstd::arithmetic::div_mod::lemma_fundamental_div_mod(n, d);
    assert(1024 * q <= d * q) by (nonlinear_arith)
        requires
            d >= 1024,
            q >= 0,
    ;
}

/// Appends the Size column's text.
pub fn write_size(out: &mut String, kind: EntryKind, bytes: u64)
    ensures
        final(out)@ == old(out)@ + size_text(kind, bytes as nat),
{
    if kind == EntryKind::Directory {
        out.append("<DIR>");
    } else {
        write_byte_count(out, bytes);
    }
}

/// Whether `q` is the whole number nearest to `n / d`, the even one of two that
/// are equally near.
pub open spec fn is_nearest(q: int, n: int, d: int) -> bool {
    &&& -d <= 2 * (q * d - n) <= d
    &&& 2 * (q * d - n) == d || 2 * (q * d - n) == -d ==> q % 2 == 0
}

/// Quotients are rounded to the nearest whole number, to an even one where two
/// are equally near.
pub proof fn lemma_nearest(n: int, d: int)
    requires
        n >= 0,
        d > 0,
    ensures
        nearest(n, d) >= 0,
        is_nearest(nearest(n, d), n, d),
{
    let q = n / d;
    vstd::arithmetic::div_mod::lemma_fundamental_div_mod(n, d);
    assert(d * q == q * d) by (nonlinear_arith);
    assert((q + 1) * d == q * d + d) by (nonlinear_arith);
    assert(q >= 0) by (nonlinear_arith)
        requires
            n >= 0,
            d > 0,
            q == n / d,
    ;
}

/// Whether `held` is what 53 significant bits hold of a count: the count itself
/// where that has no more, else the nearest multiple of the power of two that
/// brings it down to 53.
pub open spec fn is_held(held: int, bytes: nat, log: nat) -> bool {
    let grain = pow(2, log);
    &&& bytes < 0x20_0000_0000_0000 ==> log == 0
    &&& bytes >= 0x20_0000_0000_0000 ==> grain * 0x10_0000_0000_0000 <= bytes < grain
        * 0x20_0000_0000_0000
    &&& exists|times: int| held == times * grain && #[trigger] is_nearest(times, bytes as int, grain)
}

proof fn lemma_held(bytes: nat) -> (log: nat)
    requires
        bytes <= u64::MAX,
    ensures
        is_held(kept(bytes), bytes, log),
        kept(bytes) >= 0,
{
    let log: nat = if bytes < 0x20_0000_0000_0000 {
        0
    } else if bytes < 0x40_0000_0000_0000 {
        1
    } else if bytes < 0x80_0000_0000_0000 {
        2
    } else if bytes < 0x100_0000_0000_0000 {
        3
    } else if bytes < 0x200_0000_0000_0000 {
        4
    } else if bytes < 0x400_0000_0000_0000 {
        5
    } else if bytes < 0x800_0000_0000_0000 {
        6
    } else if bytes < 0x1000_0000_0000_0000 {
        7
    } else if bytes < 0x2000_0000_0000_0000 {
        8
    } else if bytes < 0x4000_0000_0000_0000 {
        9
    } else if bytes < 0x8000_0000_0000_0000 {
        10
    } else {
        11
    };
    reveal_with_fuel(pow, 12);
    let g = grain(bytes);
    assert(pow(2, log) == g);
    lemma_nearest(bytes as int, g);
    let times = nearest(bytes as int, g);
    assert(times * g >= 0) by (nonlinear_arith)
        requires
            times >= 0,
            g >= 1,
    ;
    log
}

/// A count below 1024 is shown as it is. A larger one is shown in a unit of the
/// next power of 1024, the largest that the count reaches of those up to
/// petabytes: as the nearest tenth of what 53 significant bits hold of the count,
/// an even one where two are equally near.
pub proof fn lemma_byte_count_reads_back(bytes: nat)
    requires
        bytes <= u64::MAX,
    ensures
        bytes < 1024 ==> byte_count_text(bytes) == decimal(bytes) + " B"@,
        1024 <= bytes ==> exists|whole: nat, tenth: int, power: nat, held: int, log: nat|
            {
                let unit = pow(1024, power);
                &&& 1 <= power <= 5
                &&& 0 <= tenth < 10
                &&& unit <= bytes
                &&& power < 5 ==> bytes < 1024 * unit
                &&& byte_count_text(bytes) == #[trigger] shown_in_tenths(whole, tenth, power)
                &&& #[trigger] is_held(held, bytes, log)
                &&& is_nearest(10 * whole + tenth, 10 * held, unit)
            },
{
    if bytes >= 1024 {
        let power = unit_of(bytes) as nat;
        let unit = unit_bytes(power as int);
        reveal_with_fuel(pow, 6);
        assert(pow(1024, power) == unit);
        let log = lemma_held(bytes);
        let held = kept(bytes);
        let shown = tenths(bytes);
        lemma_nearest(held * 10, unit);
        let whole = (shown / 10) as nat;
        let tenth = shown % 10;
        assert(10 * whole + tenth == shown);
        assert(byte_count_text(bytes) =~= shown_in_tenths(whole, tenth, power));
        assert(is_held(held, bytes, log));
    }
}

/// A number with one decimal and the name of a power of 1024 bytes.
pub open spec fn shown_in_tenths(whole: nat, tenth: int, power: nat) -> Seq<char> {
    decimal(whole) + seq!['.'] + decimal(tenth as nat) + " "@ + seq![
        "B"@,
        "KB"@,
        "MB"@,
        "GB"@,
        "TB"@,
        "PB"@,
    ][power as int]
}

/// The Size column shows the size of everything but a directory.
pub proof fn lemma_only_directories_show_no_size(kind: EntryKind, bytes: nat)
    ensures
        kind == EntryKind::Directory <==> size_text(kind, bytes) == "<DIR>"@,
        kind != EntryKind::Directory ==> size_text(kind, bytes) == byte_count_text(bytes),
{
    reveal_strlit("<DIR>");
    lemma_decimal_reads_back(bytes);
    lemma_decimal_reads_back((tenths(bytes) / 10) as nat);
    if kind != EntryKind::Directory {
        assert(is_digit(byte_count_text(bytes)[0]));
        assert("<DIR>"@[0] == '<');
    }
}

} // verus!
