//! What amounts, changes and times of day show.
use vstd::prelude::*;

use crate::laws::number::law_two_digits_form;
use crate::number::{all_digits, value};
use crate::readable::{clock, delta_text, human};

verus! {

/// A growth is shown with a plus sign and the amount that was added, a fall with a minus sign and
/// the amount that was lost, and no change as zero without a sign.
pub proof fn law_change_shows_difference(from: int, by: nat)
    ensures
        by > 0 ==> delta_text(from + by, from) == "+"@ + human(by),
        by > 0 ==> delta_text(from, from + by) == "-"@ + human(by),
        delta_text(from, from) == human(0),
{
    assert(Seq::<char>::empty() + human(0) =~= human(0));
}

/// Two digits of hours, two of minutes and two of seconds, with colons between, make up the
/// seconds since midnight.
pub proof fn law_clock_shows_time(secs: nat)
    ensures
        ({
            let c = clock(secs);
            let h = c.subrange(0, 2);
            let m = c.subrange(3, 5);
            let s = c.subrange(6, 8);
            &&& c.len() == 8
            &&& c[2] == ':' && c[5] == ':'
            &&& all_digits(h) && all_digits(m) && all_digits(s)
            &&& value(m) < 60 && value(s) < 60
            &&& 3600 * value(h) + 60 * value(m) + value(s) == secs % 86400
        }),
{
    let c = clock(secs);
    let hours = (secs / 3600) % 24;
    let minutes = (secs / 60) % 60;
    law_two_digits_form(hours);
    law_two_digits_form(minutes);
    law_two_digits_form(secs % 60);
    reveal_strlit(":");
    assert(c.subrange(0, 2) =~= crate::number::two_digits(hours));
    assert(c.subrange(3, 5) =~= crate::number::two_digits(minutes));
    assert(c.subrange(6, 8) =~= crate::number::two_digits(secs % 60));
    lemma_parts_of_day(secs);
}

/// Hours, minutes and seconds make up the time of the day.
proof fn lemma_parts_of_day(secs: nat)
    ensures
        3600 * ((secs / 3600) % 24) + 60 * ((secs / 60) % 60) + secs % 60 == secs % 86400,
{
    let d = secs / 86400;
    let r = secs % 86400;
    assert(secs == 86400 * d + r);
    assert(secs / 3600 == 24 * d + r / 3600);
    assert((24 * d + r / 3600) % 24 == r / 3600);
    assert(secs / 60 == 1440 * d + r / 60);
    assert((1440 * d + r / 60) % 60 == (r / 60) % 60);
    assert(secs % 60 == r % 60);
}

} // verus!
