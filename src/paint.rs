//! Terminal colors through the `colored` crate.
//!
//! Whether colors are written depends on the environment (`CLICOLOR`,
//! `CLICOLOR_FORCE`, `NO_COLOR`, whether standard output is a terminal), so
//! each call gives either its input unchanged or its input wrapped in the
//! style's escape sequence and a reset; nothing more is known of it.
use vstd::prelude::*;

verus! {

/// The reset sequence `ESC [ 0 m`.
pub open spec fn reset_seq() -> Seq<char> {
    seq!['\x1b', '[', '0', 'm']
}

/// `s` holds a reset sequence.
pub open spec fn holds_reset(s: Seq<char>) -> bool {
    exists|i: int| 0 <= i && i + 4 <= s.len() && #[trigger] s.subrange(i, i + 4) == reset_seq()
}

/// `s` wrapped in the escape sequence for style `code`, then a reset.
pub open spec fn painted(s: Seq<char>, code: Seq<char>) -> Seq<char> {
    seq!['\x1b', '['] + code + seq!['m'] + s + reset_seq()
}

/// `r` is how `s` may be shown in style `code`: unchanged when colors are
/// off, wrapped in the style when they are on. Nothing is claimed when `s`
/// itself holds a reset sequence.
pub open spec fn shown_as(s: Seq<char>, code: Seq<char>, r: Seq<char>) -> bool {
    !holds_reset(s) ==> (r == s || r == painted(s, code))
}

/// Relies on `colored::Colorize::dimmed` and the `Display` of the
/// `ColoredString` it gives (style code `2`).
#[verifier::external_body]
pub(crate) fn dimmed(s: &str) -> (r: String)
    ensures
        shown_as(s@, "2"@, r@),
{
    colored::Colorize::dimmed(s).to_string()
}

/// Relies on `colored::Colorize::normal`, which clears every style and
/// color, and the `Display` of the plain `ColoredString` it gives, which
/// writes the input as it is.
#[verifier::external_body]
pub(crate) fn normal(s: &str) -> (r: String)
    ensures
        r@ == s@,
{
    colored::Colorize::normal(s).to_string()
}

/// Relies on `colored::Colorize::bright_black` and the `Display` of the
/// `ColoredString` it gives (color code `90`).
#[verifier::external_body]
pub(crate) fn bright_black(s: &str) -> (r: String)
    ensures
        shown_as(s@, "90"@, r@),
{
    colored::Colorize::bright_black(s).to_string()
}

/// Relies on `colored::Colorize::bright_black` followed by
/// `colored::Colorize::dimmed` on the result, and its `Display`: the style
/// comes before the color (code `2;90`).
#[verifier::external_body]
pub(crate) fn bright_black_dimmed(s: &str) -> (r: String)
    ensures
        shown_as(s@, "2;90"@, r@),
{
    colored::Colorize::dimmed(colored::Colorize::bright_black(s)).to_string()
}

/// Relies on `colored::Colorize::red` and the `Display` of the
/// `ColoredString` it gives (color code `31`).
#[verifier::external_body]
pub(crate) fn red(s: &str) -> (r: String)
    ensures
        shown_as(s@, "31"@, r@),
{
    colored::Colorize::red(s).to_string()
}

/// Relies on `colored::Colorize::green` and the `Display` of the
/// `ColoredString` it gives (color code `32`).
#[verifier::external_body]
pub(crate) fn green(s: &str) -> (r: String)
    ensures
        shown_as(s@, "32"@, r@),
{
    colored::Colorize::green(s).to_string()
}

/// Relies on `colored::Colorize::yellow` and the `Display` of the
/// `ColoredString` it gives (color code `33`).
#[verifier::external_body]
pub(crate) fn yellow(s: &str) -> (r: String)
    ensures
        shown_as(s@, "33"@, r@),
{
    colored::Colorize::yellow(s).to_string()
}

} // verus!
