//! Coloured text for terminals.
//!
//! The colours come from the crate `colored`. Whether it writes any depends on the
//! environment of the process and on its terminal, so what is known of a painted text is
//! that it is one of two: the text as it was, or the text between the codes of its style.
//! The switch is taken to hold still while one text is painted.
use colored::Colorize;
use vstd::prelude::*;

verus! {

/// The code that ends every style.
pub open spec fn reset() -> Seq<char> {
    seq!['\u{1b}', '[', '0', 'm']
}

/// The code that begins red text.
pub open spec fn red() -> Seq<char> {
    seq!['\u{1b}', '[', '3', '1', 'm']
}

/// The code that begins green text.
pub open spec fn green() -> Seq<char> {
    seq!['\u{1b}', '[', '3', '2', 'm']
}

/// The code that begins yellow text.
pub open spec fn yellow() -> Seq<char> {
    seq!['\u{1b}', '[', '3', '3', 'm']
}

/// The code that begins blue text.
pub open spec fn blue() -> Seq<char> {
    seq!['\u{1b}', '[', '3', '4', 'm']
}

/// The code that begins purple text.
pub open spec fn purple() -> Seq<char> {
    seq!['\u{1b}', '[', '3', '5', 'm']
}

/// The code that begins cyan text.
pub open spec fn cyan() -> Seq<char> {
    seq!['\u{1b}', '[', '3', '6', 'm']
}

/// The code that begins bold cyan text.
pub open spec fn bold_cyan() -> Seq<char> {
    seq!['\u{1b}', '[', '1', ';', '3', '6', 'm']
}

/// `s` with the style begun anew behind every code in it that ends a style.
pub open spec fn restyled(s: Seq<char>, style: Seq<char>) -> Seq<char>
    decreases s.len(),
{
    if s.len() == 0 {
        Seq::empty()
    } else if s.len() >= 4 && s.take(4) == reset() {
        reset() + style + restyled(s.skip(4), style)
    } else {
        seq![s[0]] + restyled(s.skip(1), style)
    }
}

/// `s` followed by as many spaces as it lacks to `width` characters.
pub open spec fn padded(s: Seq<char>, width: nat) -> Seq<char> {
    if s.len() >= width {
        s
    } else {
        s + Seq::new((width - s.len()) as nat, |i: int| ' ')
    }
}

/// `s` between the codes of the style if colours are on, and else `s` as it was.
pub open spec fn in_style(on: bool, style: Seq<char>, s: Seq<char>) -> Seq<char> {
    if on {
        style + restyled(s, style) + reset()
    } else {
        s
    }
}

/// Whether `r` is `s` as it was, or `s` between the codes of the style.
pub open spec fn painted(style: Seq<char>, s: Seq<char>, r: Seq<char>) -> bool {
    r == in_style(false, style, s) || r == in_style(true, style, s)
}

/// Whether `r` is `s` as it was, or `s` between the codes of the style, with the text between
/// the codes padded to `width` characters.
pub open spec fn painted_wide(style: Seq<char>, s: Seq<char>, width: nat, r: Seq<char>) -> bool {
    r == padded(s, width) || r == style + padded(restyled(s, style), width) + reset()
}

/// `Colorize::red`, written out: the text, between the codes for red if colours are on.
#[verifier::external_body]
pub(crate) fn paint_red(s: &str) -> (r: String)
    ensures
        painted(red(), s@, r@),
{
    s.red().to_string()
}

/// `Colorize::green`, written out: the text, between the codes for green if colours are on.
#[verifier::external_body]
pub(crate) fn paint_green(s: &str) -> (r: String)
    ensures
        painted(green(), s@, r@),
{
    s.green().to_string()
}

/// `Colorize::yellow`, written out: the text, between the codes for yellow if colours are on.
#[verifier::external_body]
pub(crate) fn paint_yellow(s: &str) -> (r: String)
    ensures
        painted(yellow(), s@, r@),
{
    s.yellow().to_string()
}

/// `Colorize::purple`, written out: the text, between the codes for purple if colours are on.
#[verifier::external_body]
pub(crate) fn paint_purple(s: &str) -> (r: String)
    ensures
        painted(purple(), s@, r@),
{
    s.purple().to_string()
}

/// `Colorize::cyan`, written out: the text, between the codes for cyan if colours are on.
#[verifier::external_body]
pub(crate) fn paint_cyan(s: &str) -> (r: String)
    ensures
        painted(cyan(), s@, r@),
{
    s.cyan().to_string()
}

/// `Colorize::cyan` and then `Colorize::bold`, written out: the text, between the codes for
/// bold cyan if colours are on.
#[verifier::external_body]
pub(crate) fn paint_bold_cyan(s: &str) -> (r: String)
    ensures
        painted(bold_cyan(), s@, r@),
{
    s.cyan().bold().to_string()
}

/// `Colorize::blue`, written out in a field of `width` characters: the text, padded on the
/// right, and between the codes for blue if colours are on. The codes do not count as
/// characters of the field.
#[verifier::external_body]
pub(crate) fn paint_blue_wide(s: &str, width: usize) -> (r: String)
    requires
        width <= 1000,
    ensures
        painted_wide(blue(), s@, width as nat, r@),
{
    format!("{:width$}", s.blue(), width = width)
}

/// Text in which no style ends keeps all its characters, in order, between the codes.
pub proof fn law_restyled_keeps(s: Seq<char>, style: Seq<char>)
    requires
        forall|i: int| 0 <= i < s.len() ==> #[trigger] s[i] != '\u{1b}',
    ensures
        restyled(s, style) == s,
    decreases s.len(),
{
    if s.len() > 0 {
        if s.len() >= 4 {
            assert(s.take(4)[0] == s[0]);
            assert(reset()[0] == '\u{1b}');
        }
        let t = s.skip(1);
        assert forall|i: int| 0 <= i < t.len() implies #[trigger] t[i] != '\u{1b}' by {
            assert(t[i] == s[i + 1]);
        }
        law_restyled_keeps(t, style);
        assert(seq![s[0]] + t =~= s);
    }
}

} // verus!
