//! Reading `git status --branch --porcelain` output and laying out one
//! status line per directory.
use vstd::prelude::*;
use crate::paint::{bright_black, green, normal, red, shown_as, yellow};
use crate::util::{format_path, path_shown};
use crate::text::{
    after_first, before_occurrence, ends_with, find_first, has_prefix, has_suffix, join_str, lemma_join_split,
    lemma_join_split_prefix, lemma_split_first, lemma_split_len, lemma_split_nonempty, occurrences, split_spec, split_str,
    starts_with, views,
};

verus! {

/// The branch assumed when the default branch cannot be found out.
pub const DEFAULT_BRANCH: &'static str = "master";

/// The number of lines that name a changed file: every line that is neither
/// empty nor the branch header.
pub open spec fn dirty_count(lines: Seq<Seq<char>>) -> nat
    decreases lines.len(),
{
    if lines.len() == 0 {
        0
    } else {
        let rest = dirty_count(lines.drop_last());
        if starts_with(lines.last(), "## "@) || lines.last().len() == 0 {
            rest
        } else {
            rest + 1
        }
    }
}

proof fn lemma_dirty_count_bound(lines: Seq<Seq<char>>)
    ensures
        dirty_count(lines) <= lines.len(),
    decreases lines.len(),
{
    if lines.len() > 0 {
        lemma_dirty_count_bound(lines.drop_last());
    }
}

/// The number of changed files that the status lines list.
pub fn get_num_dirty_files(lines: &[String]) -> (r: usize)
    ensures
        r == dirty_count(views(lines@)),
{
    let mut count: usize = 0;
    let mut i: usize = 0;
    while i < lines.len()
        invariant
            i <= lines@.len(),
            count == dirty_count(views(lines@).subrange(0, i as int)),
            count <= i,
        decreases lines.len() - i,
    {
        let ghost part = views(lines@).subrange(0, i + 1);
        assert(part.drop_last() =~= views(lines@).subrange(0, i as int));
        assert(part.last() == lines@[i as int]@);
        proof {
            reveal_strlit("## ");
        }
        if !(has_prefix(lines[i].as_str(), "## ") || lines[i].unicode_len() == 0) {
            count = count + 1;
        }
        i = i + 1;
    }
    assert(views(lines@).subrange(0, i as int) =~= views(lines@));
    count
}

/// Whether `git status --porcelain` output lists any changed file.
pub fn is_modified_output(output: &str) -> (r: bool)
    ensures
        r == (dirty_count(split_spec(output@, seq!['\n'])) != 0),
{
    let lines = split_str(output, "\n");
    proof {
        reveal_strlit("\n");
        assert("\n"@ =~= seq!['\n']);
    }
    get_num_dirty_files(lines.as_slice()) != 0
}

/// The branch named in a branch header line: the text after the first
/// `## `, cut before the middle one of its `...` separators (the first of
/// two, the second of three or four), so that a remote-tracking part is
/// dropped.
pub open spec fn branch_of(line: Seq<char>) -> Seq<char> {
    let text = after_first(line, "## "@);
    let k = occurrences(text, "..."@);
    if k == 0 {
        text
    } else {
        before_occurrence(text, "..."@, ((k + 1) / 2 - 1) as nat)
    }
}

/// The branch that the first status line names, if there is a line.
pub fn get_branch(lines: &[String]) -> (r: Option<String>)
    ensures
        lines@.len() == 0 ==> r is None,
        lines@.len() > 0 ==> (r matches Some(b) && b@ == branch_of(lines@[0]@)),
{
    if lines.len() == 0 {
        return None;
    }
    let line = lines[0].as_str();
    proof {
        reveal_strlit("## ");
        reveal_strlit("...");
    }
    let mut split = split_str(line, "## ");
    let ghost pieces = views(split@);
    proof {
        lemma_split_first(line@, "## "@);
        lemma_split_nonempty(line@, "## "@);
        let i = find_first(line@, "## "@);
        if i >= 0 {
            lemma_split_nonempty(line@.subrange(i + 3, line@.len() as int), "## "@);
        }
    }
    if split.len() > 1 {
        split.remove(0);
        assert(views(split@) =~= pieces.drop_first());
    }
    let joined = join_str(split.as_slice(), "## ");
    proof {
        let i = find_first(line@, "## "@);
        if i >= 0 {
            let after = line@.subrange(i + 3, line@.len() as int);
            assert(pieces.drop_first() =~= split_spec(after, "## "@));
            lemma_join_split(after, "## "@);
        }
        assert(joined@ == after_first(line@, "## "@));
    }
    let dots = split_str(joined.as_str(), "...");
    proof {
        lemma_split_len(joined@, "..."@);
        lemma_split_first(joined@, "..."@);
    }
    let middle = dots.len() / 2;
    if middle == 0 {
        let last = dots[dots.len() - 1].clone();
        assert(last@ == views(dots@).last());
        Some(last)
    } else {
        let mut head: Vec<String> = Vec::new();
        let mut i: usize = 0;
        while i < middle
            invariant
                middle <= dots@.len(),
                i <= middle,
                head@ == dots@.subrange(0, i as int),
            decreases middle - i,
        {
            head.push(dots[i].clone());
            assert(head@ =~= dots@.subrange(0, i + 1));
            i = i + 1;
        }
        assert(views(head@) =~= views(dots@).subrange(0, middle as int));
        proof {
            lemma_join_split_prefix(joined@, "..."@, middle as nat);
        }
        Some(join_str(head.as_slice(), "..."))
    }
}

/// How far the branch is ahead or behind its remote, from a header line
/// that ends in a bracketed note: the note after the last ` [`.
pub open spec fn behindness_of(line: Seq<char>) -> Option<Seq<char>> {
    if ends_with(line, "]"@) {
        Some("["@ + split_spec(line, " ["@).last())
    } else {
        None
    }
}

/// The ahead/behind note of the first status line, if it has one.
pub fn get_behindness(lines: &[String]) -> (r: Option<String>)
    ensures
        lines@.len() == 0 ==> r is None,
        lines@.len() > 0 ==> match behindness_of(lines@[0]@) {
            Some(b) => r matches Some(x) && x@ == b,
            None => r is None,
        },
{
    if lines.len() == 0 {
        return None;
    }
    let line = lines[0].as_str();
    if has_suffix(line, "]") {
        let split = split_str(line, " [");
        proof {
            crate::text::lemma_split_nonempty(line@, " ["@);
        }
        let mut r = String::new();
        r.append("[");
        r.append(split[split.len() - 1].as_str());
        assert(views(split@).last() == split@[split@.len() - 1]@);
        Some(r)
    } else {
        None
    }
}

/// The number of padding spaces after a text of `len` characters in a
/// column of width `width`: what is left of the width, and at least one.
pub open spec fn padding(width: int, len: int) -> int {
    if width - len >= 1 {
        width - len
    } else {
        1
    }
}

/// `n` spaces.
pub open spec fn spaces(n: nat) -> Seq<char> {
    Seq::new(n, |i: int| ' ')
}

/// The padding that follows a text of `string_length` characters in a
/// column of width `max_len`.
pub fn get_spaces_with_maxlen(max_len: i32, string_length: usize) -> (r: String)
    ensures
        r@ == spaces(padding(max_len as int, string_length as int) as nat),
{
    let n: usize = if max_len <= 1 {
        1
    } else if string_length >= (max_len as usize) - 1 {
        1
    } else {
        (max_len as usize) - string_length
    };
    let mut r = String::new();
    let mut i: usize = 0;
    proof {
        reveal_strlit(" ");
        assert(" "@ =~= seq![' ']);
    }
    while i < n
        invariant
            " "@ == seq![' '],
            i <= n,
            r@ == spaces(i as nat),
        decreases n - i,
    {
        r.append(" ");
        assert(r@ =~= spaces((i + 1) as nat));
        i = i + 1;
    }
    r
}

/// Width of the path column of a status line.
pub const PATH_COLUMN: i32 = 50;

/// Width of the file-count column of a status line.
pub const DIRTY_COLUMN: i32 = 25;

/// A status line: the path and the file count each padded to its column,
/// then the branch and the ahead/behind note.
pub open spec fn status_line_of(path: Seq<char>, dirtyness: Seq<char>, branch: Seq<char>, behindness: Seq<char>) -> Seq<char> {
    path + spaces(padding(PATH_COLUMN as int, path.len() as int) as nat) + dirtyness + spaces(
        padding(DIRTY_COLUMN as int, dirtyness.len() as int) as nat,
    ) + branch + behindness
}

/// Lays out a status line from its already formatted parts.
pub fn status_line(path: &str, dirtyness: &str, branch: &str, behindness: &str) -> (r: String)
    ensures
        r@ == status_line_of(path@, dirtyness@, branch@, behindness@),
{
    let mut r = String::new();
    r.append(path);
    r.append(get_spaces_with_maxlen(PATH_COLUMN, path.unicode_len()).as_str());
    r.append(dirtyness);
    r.append(get_spaces_with_maxlen(DIRTY_COLUMN, dirtyness.unicode_len()).as_str());
    r.append(branch);
    r.append(behindness);
    r
}

/// The line shown for a directory whose status could not be read: the path
/// padded to its column, then the message.
pub fn error_line(path: &str, message: &str) -> (r: String)
    ensures
        r@ == path@ + spaces(padding(PATH_COLUMN as int, path@.len() as int) as nat) + message@,
{
    let mut r = String::new();
    r.append(path);
    r.append(get_spaces_with_maxlen(PATH_COLUMN, path.unicode_len()).as_str());
    r.append(message);
    r
}

/// The decimal digits of `n`.
pub open spec fn decimal(n: nat) -> Seq<char>
    decreases n,
{
    if n < 10 {
        seq![digit(n)]
    } else {
        decimal(n / 10) + seq![digit(n % 10)]
    }
}

/// The digit character for `d` below ten.
pub open spec fn digit(d: nat) -> char {
    "0123456789"@[d as int]
}

fn decimal_string(n: usize) -> (r: String)
    ensures
        r@ == decimal(n as nat),
    decreases n,
{
    proof {
        reveal_strlit("0123456789");
    }
    let d = n % 10;
    let one = "0123456789".substring_char(d, d + 1);
    assert(one@ =~= seq![digit(d as nat)]);
    if n < 10 {
        one.to_string()
    } else {
        let mut r = decimal_string(n / 10);
        r.append(one);
        r
    }
}

/// The file-count text of a status line: how many files are changed, or
/// that the directory is clean.
pub open spec fn dirtyness_of(lines: Seq<Seq<char>>) -> Seq<char> {
    if dirty_count(lines) != 0 {
        decimal(dirty_count(lines)) + " modified"@
    } else {
        "Clean"@
    }
}

/// The file-count text for the status lines.
pub fn dirtyness_text(lines: &[String]) -> (r: String)
    ensures
        r@ == dirtyness_of(views(lines@)),
{
    let n = get_num_dirty_files(lines);
    if n != 0 {
        let mut r = decimal_string(n);
        r.append(" modified");
        r
    } else {
        "Clean".to_string()
    }
}

/// `d` shows the file-count text: red when files are changed, green when
/// the directory is clean.
pub open spec fn dirtyness_shown(lines: Seq<Seq<char>>, d: Seq<char>) -> bool {
    shown_as(dirtyness_of(lines), if dirty_count(lines) != 0 { "31"@ } else { "32"@ }, d)
}

/// The colored file-count text for the status lines.
pub fn get_dirtyness(lines: &[String]) -> (r: String)
    ensures
        dirtyness_shown(views(lines@), r@),
{
    let text = dirtyness_text(lines);
    if get_num_dirty_files(lines) != 0 {
        red(text.as_str())
    } else {
        green(text.as_str())
    }
}

/// `b` shows the branch: gray when it is not the default branch, plain when
/// it is, and a yellow `<UNKNOWN>` when there is no status line.
pub open spec fn branch_shown(lines: Seq<Seq<char>>, default_branch: Seq<char>, b: Seq<char>) -> bool {
    if lines.len() == 0 {
        shown_as("<UNKNOWN>"@, "33"@, b)
    } else if branch_of(lines[0]) != default_branch {
        shown_as(branch_of(lines[0]), "90"@, b)
    } else {
        b == branch_of(lines[0])
    }
}

/// The colored branch of the status lines.
pub fn get_colored_branch(lines: &[String], default_branch: &str) -> (r: String)
    ensures
        branch_shown(views(lines@), default_branch@, r@),
{
    match get_branch(lines) {
        Some(b) => {
            assert(views(lines@)[0] == lines@[0]@);
            if !crate::text::str_eq(b.as_str(), default_branch) {
                bright_black(b.as_str())
            } else {
                normal(b.as_str())
            }
        },
        None => yellow("<UNKNOWN>"),
    }
}

/// `x` shows the ahead/behind note in yellow after a space, or is empty
/// when there is none.
pub open spec fn behindness_shown(lines: Seq<Seq<char>>, x: Seq<char>) -> bool {
    if lines.len() == 0 {
        x.len() == 0
    } else {
        match behindness_of(lines[0]) {
            Some(b) => exists|y: Seq<char>| #[trigger] shown_as(b, "33"@, y) && x == " "@ + y,
            None => x.len() == 0,
        }
    }
}

/// The colored ahead/behind note of the status lines.
pub fn get_colored_behindness(lines: &[String]) -> (r: String)
    ensures
        behindness_shown(views(lines@), r@),
{
    match get_behindness(lines) {
        Some(b) => {
            let y = yellow(b.as_str());
            let mut r = " ".to_string();
            r.append(y.as_str());
            proof {
                assert(views(lines@)[0] == lines@[0]@);
                assert(shown_as(b@, "33"@, y@));
            }
            r
        },
        None => String::new(),
    }
}

/// `r` is the status line of directory `path` for `git status` output
/// `output`: its shown path, colored file count, branch and ahead/behind
/// note, laid out in columns.
pub open spec fn output_shown(path: Seq<char>, output: Seq<char>, default_branch: Seq<char>, r: Seq<char>) -> bool {
    let lines = split_spec(output, seq!['\n']);
    exists|p: Seq<char>, d: Seq<char>, b: Seq<char>, x: Seq<char>|
        #![trigger status_line_of(p, d, b, x)]
        (exists|home: Option<Seq<char>>, sep: char| #[trigger] path_shown(path, home, sep, p))
            && dirtyness_shown(lines, d) && branch_shown(lines, default_branch, b) && behindness_shown(lines, x)
            && r == status_line_of(p, d, b, x)
}

/// The status line for directory `path` from its `git status` output.
pub fn format_output(path: &str, output: &str, default_branch: &str) -> (r: String)
    ensures
        output_shown(path@, output@, default_branch@, r@),
{
    let lines = split_str(output, "\n");
    proof {
        reveal_strlit("\n");
        assert("\n"@ =~= seq!['\n']);
    }
    let branch = get_colored_branch(lines.as_slice(), default_branch);
    let dirtyness = get_dirtyness(lines.as_slice());
    let behindness = get_colored_behindness(lines.as_slice());
    let formatted_path = format_path(path);
    let r = status_line(formatted_path.as_str(), dirtyness.as_str(), branch.as_str(), behindness.as_str());
    assert(output_shown(path@, output@, default_branch@, r@));
    r
}

/// The status line for a directory whose status could not be read: its
/// shown path and the message, both in red.
pub fn format_error(path: &str) -> (r: String)
    ensures
        exists|p: Seq<char>, m: Seq<char>|
            #![trigger shown_as("SOMETHING WRONG"@, "31"@, m), p.len()]
            shown_as("SOMETHING WRONG"@, "31"@, m) && r@ == p + spaces(
                padding(PATH_COLUMN as int, p.len() as int) as nat,
            ) + m,
{
    let formatted = format_path(path);
    let shown = red(formatted.as_str());
    let message = red("SOMETHING WRONG");
    error_line(shown.as_str(), message.as_str())
}

/// The first line of a command's output, or `fallback` when the command
/// could not be run.
pub open spec fn first_line_or(output: Option<Seq<char>>, fallback: Seq<char>) -> Seq<char> {
    match output {
        Some(o) => split_spec(o, seq!['\n'])[0],
        None => fallback,
    }
}

/// The name of the first remote that `git remote` printed, or `origin`
/// when it could not be run.
pub fn remote_from_output(output: Option<&str>) -> (r: String)
    ensures
        r@ == first_line_or(
            match output {
                Some(o) => Some(o@),
                None => None,
            },
            "origin"@,
        ),
{
    match output {
        Some(o) => {
            let lines = split_str(o, "\n");
            proof {
                reveal_strlit("\n");
                assert("\n"@ =~= seq!['\n']);
                crate::text::lemma_split_nonempty(o@, seq!['\n']);
            }
            lines[0].clone()
        },
        None => "origin".to_string(),
    }
}

/// The default branch from the output of `git symbolic-ref` on the
/// remote's `HEAD`: the last `/`-separated part of its first line, or
/// the assumed default when there is none or it is empty.
pub open spec fn default_branch_of(output: Option<Seq<char>>) -> Seq<char> {
    match output {
        Some(o) => {
            let last = split_spec(split_spec(o, seq!['\n'])[0], seq!['/']).last();
            if last.len() == 0 {
                DEFAULT_BRANCH@
            } else {
                last
            }
        },
        None => DEFAULT_BRANCH@,
    }
}

/// The default branch that `git symbolic-ref` printed.
pub fn default_branch_from_output(output: Option<&str>) -> (r: String)
    ensures
        r@ == default_branch_of(
            match output {
                Some(o) => Some(o@),
                None => None,
            },
        ),
{
    match output {
        Some(o) => {
            let lines = split_str(o, "\n");
            proof {
                reveal_strlit("\n");
                reveal_strlit("/");
                assert("\n"@ =~= seq!['\n']);
                assert("/"@ =~= seq!['/']);
                crate::text::lemma_split_nonempty(o@, seq!['\n']);
            }
            let parts = split_str(lines[0].as_str(), "/");
            proof {
                crate::text::lemma_split_nonempty(lines@[0]@, seq!['/']);
            }
            let last = &parts[parts.len() - 1];
            assert(views(parts@).last() == last@);
            if last.unicode_len() == 0 {
                DEFAULT_BRANCH.to_string()
            } else {
                last.clone()
            }
        },
        None => DEFAULT_BRANCH.to_string(),
    }
}

/// The arguments of the `git` call that lists changed files with a branch
/// header.
pub fn run_status_command() -> (r: Vec<String>)
    ensures
        views(r@) == seq!["-c"@, "color.ui=always"@, "status"@, "--branch"@, "--porcelain"@],
{
    let r = vec![
        "-c".to_string(),
        "color.ui=always".to_string(),
        "status".to_string(),
        "--branch".to_string(),
        "--porcelain".to_string(),
    ];
    assert(views(r@) =~= seq!["-c"@, "color.ui=always"@, "status"@, "--branch"@, "--porcelain"@]);
    r
}

/// The arguments of the `git` call that prints where `remote`'s `HEAD`
/// points.
pub fn default_branch_args(remote: &str) -> (r: Vec<String>)
    ensures
        views(r@) == seq!["-c"@, "color.ui=always"@, "symbolic-ref"@, "refs/remotes/"@ + remote@ + "/HEAD"@],
{
    let mut head = "refs/remotes/".to_string();
    head.append(remote);
    head.append("/HEAD");
    let r = vec!["-c".to_string(), "color.ui=always".to_string(), "symbolic-ref".to_string(), head];
    assert(views(r@) =~= seq!["-c"@, "color.ui=always"@, "symbolic-ref"@, "refs/remotes/"@ + remote@ + "/HEAD"@]);
    r
}

} // verus!
