//! Amounts of memory, changes of them, and times of day, as text.
use vstd::prelude::*;

use crate::binary;
use crate::binary::hold;
use crate::number;
use crate::number::{push_one_decimal, push_two_digits};

verus! {

/// How many kilobytes make a mebibyte.
pub const KB_PER_MIB: u64 = 1024;

/// How many kilobytes make a gibibyte.
pub const KB_PER_GIB: u64 = 1_048_576;

/// An amount of `kb` kilobytes in mebibytes, or in gibibytes from one of them on, to one
/// digit behind the point. The amount is first rounded to double precision, which leaves
/// all amounts below 2 to the power 53 as they are.
pub open spec fn human(kb: nat) -> Seq<char> {
    let k = binary::held(kb);
    if k >= KB_PER_GIB {
        number::one_decimal(binary::nearest(10 * k, KB_PER_GIB as nat)) + " GiB"@
    } else {
        number::one_decimal(binary::nearest(10 * k, KB_PER_MIB as nat)) + " MiB"@
    }
}

/// Writes an amount of `kb` kilobytes in mebibytes or gibibytes.
pub fn format_human(kb: u64) -> (r: String)
    ensures
        r@ == human(kb as nat),
{
    let k: u128 = hold(kb);
    let mut r = String::new();
    if k >= KB_PER_GIB as u128 {
        push_one_decimal(&mut r, binary::round_quotient(10 * k, KB_PER_GIB as u128));
        r.append(" GiB");
    } else {
        push_one_decimal(&mut r, binary::round_quotient(10 * k, KB_PER_MIB as u128));
        r.append(" MiB");
    }
    assert(r@ =~= human(kb as nat));
    r
}

/// The sign of a change: plus, minus, or none where nothing changed.
pub open spec fn sign(delta: int) -> Seq<char> {
    if delta > 0 {
        "+"@
    } else if delta < 0 {
        "-"@
    } else {
        Seq::empty()
    }
}

/// The change from `previous` to `current` kilobytes: its sign, then its amount.
pub open spec fn delta_text(current: int, previous: int) -> Seq<char> {
    sign(current - previous) + human(binary::abs(current - previous) as nat)
}

/// Writes the change from `previous` to `current` kilobytes.
pub fn format_delta_kb(current: i64, previous: i64) -> (r: String)
    requires
        i64::MIN <= current - previous <= i64::MAX,
    ensures
        r@ == delta_text(current as int, previous as int),
{
    let delta: i64 = current - previous;
    let mut r = String::new();
    let amount: u64 = if delta > 0 {
        r.append("+");
        delta as u64
    } else if delta < 0 {
        r.append("-");
        (-(delta as i128)) as u64
    } else {
        0
    };
    let text = format_human(amount);
    r.append(text.as_str());
    assert(r@ =~= delta_text(current as int, previous as int));
    r
}

/// The time of day, in hours, minutes and seconds, at `secs` seconds after a midnight.
pub open spec fn clock(secs: nat) -> Seq<char> {
    number::two_digits((secs / 3600) % 24) + ":"@ + number::two_digits((secs / 60) % 60) + ":"@
        + number::two_digits(secs % 60)
}

/// Writes the time of day, in universal time, at `secs` seconds after the start of 1970.
pub fn chrono_lite_timestamp(secs: u64) -> (r: String)
    ensures
        r@ == clock(secs as nat),
{
    let mut r = String::new();
    push_two_digits(&mut r, (secs / 3600) % 24);
    r.append(":");
    push_two_digits(&mut r, (secs / 60) % 60);
    r.append(":");
    push_two_digits(&mut r, secs % 60);
    assert(r@ =~= clock(secs as nat));
    r
}

/// An amount that double precision holds exactly is shown in mebibytes, or in gibibytes from
/// one of them on, as the nearest tenth; of two that are equally near, as the even one.
pub proof fn law_human_exact(kb: nat)
    requires
        kb <= binary::DOUBLE_END,
    ensures
        kb < KB_PER_GIB ==> human(kb) == number::one_decimal(
            binary::nearest(10 * kb, KB_PER_MIB as nat),
        ) + " MiB"@,
        kb >= KB_PER_GIB ==> human(kb) == number::one_decimal(
            binary::nearest(10 * kb, KB_PER_GIB as nat),
        ) + " GiB"@,
{
    binary::law_held_small(kb);
}

/// The same change the other way round has the same amount and the opposite sign.
pub proof fn law_delta_opposite(a: int, b: int)
    ensures
        exists|amount: nat|
            delta_text(a, b) == sign(a - b) + #[trigger] human(amount) && delta_text(b, a) == sign(
                b - a,
            ) + human(amount),
        a > b ==> sign(a - b) == "+"@ && sign(b - a) == "-"@,
{
    let amount = binary::abs(a - b) as nat;
    assert(delta_text(a, b) == sign(a - b) + human(amount));
}

/// No change is shown without a sign.
pub proof fn law_delta_of_nothing(a: int)
    ensures
        delta_text(a, a) == human(0),
{
    assert(Seq::<char>::empty() + human(0) =~= human(0));
}

/// The clock shows two digits for each of hours, minutes and seconds.
pub proof fn law_clock_width(secs: nat)
    ensures
        clock(secs).len() == 8,
        clock(secs)[2] == ':',
        clock(secs)[5] == ':',
{
    lemma_two_digits_width((secs / 3600) % 24);
    lemma_two_digits_width((secs / 60) % 60);
    lemma_two_digits_width(secs % 60);
    reveal_strlit(":");
}

/// A number below a hundred takes two digits.
proof fn lemma_two_digits_width(n: nat)
    requires
        n < 100,
    ensures
        number::two_digits(n).len() == 2,
{
    reveal_with_fuel(number::decimal, 2);
}

/// The clock shows the same time a day later.
pub proof fn law_clock_repeats(secs: nat)
    ensures
        clock(secs + 86400) == clock(secs),
{
    lemma_day(secs);
}

/// A day is a whole number of days, of hours and of minutes.
proof fn lemma_day(secs: nat)
    ensures
        ((secs + 86400) / 3600) % 24 == (secs / 3600) % 24,
        ((secs + 86400) / 60) % 60 == (secs / 60) % 60,
        (secs + 86400) % 60 == secs % 60,
{
    let hours = secs / 3600;
    let minutes = secs / 60;
    assert((secs + 86400) / 3600 == hours + 24);
    assert((secs + 86400) / 60 == minutes + 1440);
    assert((hours + 24) % 24 == hours % 24);
    assert((minutes + 1440) % 60 == minutes % 60);
}

} // verus!
