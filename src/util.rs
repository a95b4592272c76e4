//! Path text: splitting a path for display, with the home directory shown
//! as `~`, and expanding a leading `~` to the home directory.
use vstd::prelude::*;
use crate::paint::{bright_black, bright_black_dimmed, dimmed, normal, shown_as};
use crate::text::{ends_with, has_suffix, join_spec, join_str, split_spec, split_str, starts_with_char};

verus! {

/// The optional string as characters.
pub open spec fn opt_view(o: Option<String>) -> Option<Seq<char>> {
    match o {
        Some(s) => Some(s@),
        None => None,
    }
}

/// `parent` may be what `Path::parent` gives for `path`: a prefix of it,
/// if anything.
pub open spec fn parent_fits(path: Seq<char>, parent: Option<Seq<char>>) -> bool {
    match parent {
        Some(d) => d.len() <= path.len() && path.subrange(0, d.len() as int) == d,
        None => true,
    }
}

/// `base` may be what `Path::file_name` gives for `path`: a piece of it, if
/// anything.
pub open spec fn base_fits(path: Seq<char>, base: Option<Seq<char>>) -> bool {
    match base {
        Some(n) => exists|i: int| 0 <= i && i + n.len() <= path.len() && #[trigger] path.subrange(i, i + n.len()) == n,
        None => true,
    }
}

/// Relies on `std::path::Path::parent`, which gives the path without its
/// final component, if there is one: a prefix of the path, borrowed from
/// it. A prefix of UTF-8 text cut at a component boundary is UTF-8, so
/// `to_str` does not fail. How a path splits into components depends on
/// the platform.
#[verifier::external_body]
fn path_parent(p: &str) -> (r: Option<String>)
    ensures
        parent_fits(p@, opt_view(r)),
{
    std::path::Path::new(p).parent().map(|d| d.to_str().unwrap_or("").to_string())
}

/// Relies on `std::path::Path::file_name`, which gives the final component
/// of the path, if it is a normal one: a piece of the path, borrowed from
/// it, and UTF-8 as the path is. How a path splits into components depends
/// on the platform.
#[verifier::external_body]
fn path_file_name(p: &str) -> (r: Option<String>)
    ensures
        base_fits(p@, opt_view(r)),
{
    std::path::Path::new(p).file_name().map(|n| n.to_str().unwrap_or("").to_string())
}

/// Relies on `dirs::home_dir`, which reads the user's home directory from
/// the environment (or the system on Windows); nothing is known of the
/// result. A path that is not UTF-8 is given as empty text.
#[verifier::external_body]
pub(crate) fn home_dir() -> (r: Option<String>) {
    dirs::home_dir().map(|p| p.to_str().unwrap_or("").to_string())
}

/// Relies on `std::path::MAIN_SEPARATOR`, the platform's path separator.
#[verifier::external_body]
fn main_separator() -> (r: char)
    ensures
        r == '/' || r == '\\',
{
    std::path::MAIN_SEPARATOR
}

/// `rep` before, between and after the characters of `s`, which is what
/// replacing the empty pattern does.
pub open spec fn interleave(s: Seq<char>, rep: Seq<char>) -> Seq<char>
    decreases s.len(),
{
    if s.len() == 0 {
        rep
    } else {
        interleave(s.drop_last(), rep) + seq![s.last()] + rep
    }
}

/// `s` with every non-overlapping occurrence of `pat`, matched from the
/// left, replaced by `rep`.
pub open spec fn replaced(s: Seq<char>, pat: Seq<char>, rep: Seq<char>) -> Seq<char> {
    if pat.len() == 0 {
        interleave(s, rep)
    } else {
        join_spec(split_spec(s, pat), rep)
    }
}

/// `s` with every occurrence of `pat` replaced by `rep`.
pub fn replace_all(s: &str, pat: &str, rep: &str) -> (r: String)
    ensures
        r@ == replaced(s@, pat@, rep@),
{
    if pat.unicode_len() == 0 {
        let n = s.unicode_len();
        let mut r = String::new();
        r.append(rep);
        let mut i: usize = 0;
        while i < n
            invariant
                n == s@.len(),
                i <= n,
                r@ == interleave(s@.subrange(0, i as int), rep@),
            decreases n - i,
        {
            let one = s.substring_char(i, i + 1);
            r.append(one);
            r.append(rep);
            assert(s@.subrange(0, i + 1).drop_last() =~= s@.subrange(0, i as int));
            assert(one@ =~= seq![s@.subrange(0, i + 1).last()]);
            i = i + 1;
        }
        assert(s@.subrange(0, n as int) =~= s@);
        r
    } else {
        let parts = split_str(s, pat);
        join_str(parts.as_slice(), rep)
    }
}

/// The directory part of a displayed path: the parent, with the home
/// directory replaced by `~`.
pub open spec fn shown_dir(parent: Option<Seq<char>>, home: Option<Seq<char>>) -> Option<Seq<char>> {
    match parent {
        Some(d) => match home {
            Some(h) => Some(replaced(d, h, "~"@)),
            None => Some(d),
        },
        None => None,
    }
}

/// A path split for display into the directory prefix (ending in a
/// separator unless it is empty or already ends in `/`) and the base name.
pub open spec fn display_parts(
    parent: Option<Seq<char>>,
    base: Option<Seq<char>>,
    home: Option<Seq<char>>,
    sep: char,
) -> (Seq<char>, Seq<char>) {
    let dir = shown_dir(parent, home);
    let d = match dir {
        Some(d) => d,
        None => seq![],
    };
    let sep_used = match dir {
        Some(d) => if ends_with(d, "/"@) || d.len() == 0 {
            seq![]
        } else {
            seq![sep]
        },
        None => seq![sep],
    };
    (d + sep_used, match base {
        Some(b) => b,
        None => seq![],
    })
}

/// Splits a path for display, given its parent and base name as
/// `std::path` gives them.
pub fn format_path_parts(parent: Option<String>, base: Option<String>, home: Option<String>, sep: char) -> (r: (
    String,
    String,
))
    ensures
        (r.0@, r.1@) == display_parts(opt_view(parent), opt_view(base), opt_view(home), sep),
{
    proof {
        reveal_strlit("~");
        reveal_strlit("/");
    }
    let dir: Option<String> = match parent {
        Some(d) => match home {
            Some(h) => Some(replace_all(d.as_str(), h.as_str(), "~")),
            None => Some(d),
        },
        None => None,
    };
    let mut prefix = String::new();
    let sep_text = crate::text::char_string(sep);
    match &dir {
        Some(d) => {
            prefix.append(d.as_str());
            let ends_in_slash = has_suffix(d.as_str(), "/");
            if !(ends_in_slash || d.unicode_len() == 0) {
                prefix.append(sep_text.as_str());
            }
        },
        None => {
            prefix.append(sep_text.as_str());
        },
    }
    let name = match base {
        Some(b) => b,
        None => String::new(),
    };
    assert(prefix@ =~= display_parts(opt_view(parent), opt_view(base), opt_view(home), sep).0);
    (prefix, name)
}

/// `parts` is how `path` is split for display, with home directory `home`
/// and separator `sep`, from a parent and a base name that `std::path` may
/// give for it.
pub open spec fn display_split(path: Seq<char>, home: Option<Seq<char>>, sep: char, parts: (Seq<char>, Seq<char>)) -> bool {
    exists|parent: Option<Seq<char>>, base: Option<Seq<char>>|
        #[trigger] display_parts(parent, base, home, sep) == parts && parent_fits(path, parent) && base_fits(path, base)
}

/// Splits `path` for display into its directory prefix, with `home_dir`
/// shown as `~`, and its base name.
pub fn format_path_with_homedir(path: &str, home_dir: Option<String>, sep: char) -> (r: (String, String))
    ensures
        display_split(path@, opt_view(home_dir), sep, (r.0@, r.1@)),
{
    let base = path_file_name(path);
    let parent = path_parent(path);
    let ghost (pv, bv, hv) = (opt_view(parent), opt_view(base), opt_view(home_dir));
    let r = format_path_parts(parent, base, home_dir, sep);
    assert(display_parts(pv, bv, hv, sep) == (r.0@, r.1@));
    r
}

/// Splits `path` for display, with the user's home directory shown as `~`
/// and the platform's separator.
pub fn split_on_basename(path: &str) -> (r: (String, String))
    ensures
        exists|home: Option<Seq<char>>, sep: char| #[trigger] display_split(path@, home, sep, (r.0@, r.1@)),
{
    let home = home_dir();
    let sep = main_separator();
    format_path_with_homedir(path, home, sep)
}

/// `r` displays `path` split as `display_parts` splits it for home `home`
/// and separator `sep`, with the directory prefix dimmed.
pub open spec fn path_shown(path: Seq<char>, home: Option<Seq<char>>, sep: char, r: Seq<char>) -> bool {
    exists|parts: (Seq<char>, Seq<char>), prefix: Seq<char>|
        #![trigger display_split(path, home, sep, parts), shown_as(parts.0, "2"@, prefix)]
        display_split(path, home, sep, parts) && shown_as(parts.0, "2"@, prefix) && r == prefix + parts.1
}

/// `path` for display: its directory prefix dimmed, then its base name.
pub fn format_path(path: &str) -> (r: String)
    ensures
        exists|home: Option<Seq<char>>, sep: char| #[trigger] path_shown(path@, home, sep, r@),
{
    let home = home_dir();
    let sep = main_separator();
    let (prefix, basename) = format_path_with_homedir(path, home, sep);
    let shown_prefix = dimmed(prefix.as_str());
    let shown_base = normal(basename.as_str());
    let mut r = shown_prefix;
    r.append(shown_base.as_str());
    proof {
        let parts = (prefix@, basename@);
        assert(display_split(path@, opt_view(home), sep, parts));
        assert(r@ == shown_prefix@ + parts.1);
        assert(shown_as(parts.0, "2"@, shown_prefix@));
        assert(path_shown(path@, opt_view(home), sep, r@));
    }
    r
}

/// The headline printed above a target's output: a blank line, `in`, the
/// directory prefix and the base name, in dim gray.
pub open spec fn headline_of(parts: (Seq<char>, Seq<char>), r: Seq<char>) -> bool {
    exists|word: Seq<char>, prefix: Seq<char>, base: Seq<char>|
        #![trigger shown_as("in"@, "2;90"@, word), shown_as(parts.0, "2;90"@, prefix), shown_as(parts.1, "90"@, base)]
        shown_as("in"@, "2;90"@, word) && shown_as(parts.0, "2;90"@, prefix) && shown_as(parts.1, "90"@, base)
            && r == "\n\n"@ + word + " "@ + prefix + base
}

/// The headline for target `path`.
pub fn get_headline(path: &str) -> (r: String)
    ensures
        exists|home: Option<Seq<char>>, sep: char, parts: (Seq<char>, Seq<char>)|
            #![trigger display_split(path@, home, sep, parts), headline_of(parts, r@)]
            display_split(path@, home, sep, parts) && headline_of(parts, r@),
{
    let home = home_dir();
    let sep = main_separator();
    let (prefix, basename) = format_path_with_homedir(path, home, sep);
    let word = bright_black_dimmed("in");
    let shown_prefix = bright_black_dimmed(prefix.as_str());
    let shown_base = bright_black(basename.as_str());
    let mut r = "\n\n".to_string();
    r.append(word.as_str());
    r.append(" ");
    r.append(shown_prefix.as_str());
    r.append(shown_base.as_str());
    proof {
        let parts = (prefix@, basename@);
        assert(display_split(path@, opt_view(home), sep, parts));
        assert(shown_as("in"@, "2;90"@, word@));
        assert(shown_as(parts.0, "2;90"@, shown_prefix@));
        assert(shown_as(parts.1, "90"@, shown_base@));
        assert(r@ == "\n\n"@ + word@ + " "@ + shown_prefix@ + shown_base@);
        assert(headline_of(parts, r@));
    }
    r
}

/// `input` with a leading `~` (alone or before `/`) replaced by `home`,
/// when the home directory is known.
pub open spec fn tilde_expanded(input: Seq<char>, home: Option<Seq<char>>) -> Seq<char> {
    if starts_with_char(input, '~') && (input.len() == 1 || input[1] == '/') && home is Some {
        home->Some_0 + input.drop_first()
    } else {
        input
    }
}

/// `~` followed by a backslash, which is expanded on Windows only.
pub open spec fn tilde_backslash(input: Seq<char>) -> bool {
    input.len() > 1 && input[0] == '~' && input[1] == '\\'
}

/// Relies on `shellexpand::tilde_with_context`: a leading `~` that stands
/// alone or before `/` becomes the home directory the closure gives; any
/// other text comes back unchanged (a `~` before a backslash is expanded on
/// Windows only). The closure only hands over `home`.
#[verifier::external_body]
fn tilde_with_home(input: &str, home: &Option<String>) -> (r: String)
    ensures
        !tilde_backslash(input@) ==> r@ == tilde_expanded(input@, opt_view(*home)),
{
    shellexpand::tilde_with_context(input, || home.clone()).to_string()
}

/// `input` with a leading `~` expanded to `home`.
pub fn expand_path_with_home(input: &str, home: &Option<String>) -> (r: String)
    ensures
        !tilde_backslash(input@) ==> r@ == tilde_expanded(input@, opt_view(*home)),
{
    tilde_with_home(input, home)
}

/// `input` with a leading `~` expanded to the user's home directory.
pub fn expand_path(input: &str) -> (r: String)
    ensures
        !tilde_backslash(input@) ==> exists|home: Option<Seq<char>>| r@ == tilde_expanded(input@, home),
        !starts_with_char(input@, '~') ==> r@ == input@,
{
    let home = home_dir();
    expand_path_with_home(input, &home)
}

/// The stored path `input` with a leading `~` expanded.
pub fn expand_pathbuf(input: String) -> (r: String)
    ensures
        !tilde_backslash(input@) ==> exists|home: Option<Seq<char>>| r@ == tilde_expanded(input@, home),
        !starts_with_char(input@, '~') ==> r@ == input@,
{
    expand_path(input.as_str())
}

} // verus!
