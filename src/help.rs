//! The examples shown after the tool's help text.
use vstd::prelude::*;
use crate::paint::{bright_black, shown_as};
use crate::text::{join_spec, join_str, views};

verus! {

/// The comment line of each example.
pub open spec fn help_comments() -> Seq<Seq<char>> {
    seq![
        "# Tag current directory with tag `backend`"@,
        "# Remove tag `backend` from current directory"@,
        "# List tagged directories"@,
        "# Execute command in all directories tagged with `backend`"@,
        "# Execute command in all directories tagged with `backend` in parallel"@,
        "# Execute command in all directories tagged with `backend` and `frontend` in parallel"@,
        "# List status of all directories tagged with `backend`"@,
        "# Removes the `backend` tag entirely, leaving the directories intact"@,
        "# Removes all tags from current directory"@,
        "# Execute command in specified directory"@,
        "# Execute command in dirty repositories"@,
        "# Launch a tmux session with a pane for each of the directories tagged with `backend`"@,
    ]
}

/// The command line of each example.
pub open spec fn help_examples() -> Seq<Seq<char>> {
    seq![
        "$ mrt config -a backend"@,
        "$ mrt config -d backend"@,
        "$ mrt -l"@,
        "$ mrt +backend sed -i 's/someversion = \"1.0.0\"/someversion = \"1.2.0\"/g' build.sbt"@,
        "$ mrt -p +backend git pull"@,
        "$ mrt -p +backend +frontend git pull"@,
        "$ mrt +backend status"@,
        "$ mrt config -D backend"@,
        "$ mrt config -r"@,
        "$ mrt +/opt/somedir ls -l"@,
        "$ mrt -m git diff"@,
        "$ mrt +backend tmux"@,
    ]
}

/// One example: its comment and its command line, each indented.
pub open spec fn example_block(comment: Seq<char>, example: Seq<char>) -> Seq<char> {
    "    "@ + comment + "\n    "@ + example
}

/// The help text for the given comment lines (as shown) and command lines:
/// a heading, then the examples separated by blank lines.
pub open spec fn help_layout(comments: Seq<Seq<char>>, examples: Seq<Seq<char>>) -> Seq<char> {
    "EXAMPLES:\n"@ + join_spec(
        Seq::new(comments.len(), |i: int| example_block(comments[i], examples[i])),
        "\n\n"@,
    ) + "\n    "@
}

/// Lays out the help text from comment lines and command lines of the same
/// number.
pub fn help_text_from(comments: &Vec<String>, examples: &Vec<String>) -> (r: String)
    requires
        comments@.len() == examples@.len(),
    ensures
        r@ == help_layout(views(comments@), views(examples@)),
{
    let mut blocks: Vec<String> = Vec::new();
    let mut i: usize = 0;
    while i < comments.len()
        invariant
            comments@.len() == examples@.len(),
            i <= comments@.len(),
            views(blocks@) == Seq::new(i as nat, |j: int| example_block(views(comments@)[j], views(examples@)[j])),
        decreases comments.len() - i,
    {
        let mut block = "    ".to_string();
        block.append(comments[i].as_str());
        block.append("\n    ");
        block.append(examples[i].as_str());
        let ghost before = blocks@;
        blocks.push(block);
        proof {
            assert(views(comments@)[i as int] == comments@[i as int]@);
            assert(views(examples@)[i as int] == examples@[i as int]@);
            assert(views(blocks@) =~= views(before).push(block@));
            assert(views(blocks@) =~= Seq::new((i + 1) as nat, |j: int| example_block(views(comments@)[j], views(examples@)[j])));
        }
        i = i + 1;
    }
    let mut r = "EXAMPLES:\n".to_string();
    r.append(join_str(blocks.as_slice(), "\n\n").as_str());
    r.append("\n    ");
    r
}

/// The comment lines, each as shown in gray.
pub open spec fn comments_shown(shown: Seq<Seq<char>>) -> bool {
    shown.len() == help_comments().len() && forall|i: int|
        0 <= i < shown.len() ==> #[trigger] shown_as(help_comments()[i], "90"@, shown[i])
}

/// The examples shown after the tool's help text, their comments in gray.
pub fn help_text() -> (r: String)
    ensures
        exists|shown: Seq<Seq<char>>| #[trigger] comments_shown(shown) && r@ == help_layout(shown, help_examples()),
{
    let comments = vec![
        "# Tag current directory with tag `backend`",
        "# Remove tag `backend` from current directory",
        "# List tagged directories",
        "# Execute command in all directories tagged with `backend`",
        "# Execute command in all directories tagged with `backend` in parallel",
        "# Execute command in all directories tagged with `backend` and `frontend` in parallel",
        "# List status of all directories tagged with `backend`",
        "# Removes the `backend` tag entirely, leaving the directories intact",
        "# Removes all tags from current directory",
        "# Execute command in specified directory",
        "# Execute command in dirty repositories",
        "# Launch a tmux session with a pane for each of the directories tagged with `backend`",
    ];
    let examples = vec![
        "$ mrt config -a backend".to_string(),
        "$ mrt config -d backend".to_string(),
        "$ mrt -l".to_string(),
        "$ mrt +backend sed -i 's/someversion = \"1.0.0\"/someversion = \"1.2.0\"/g' build.sbt".to_string(),
        "$ mrt -p +backend git pull".to_string(),
        "$ mrt -p +backend +frontend git pull".to_string(),
        "$ mrt +backend status".to_string(),
        "$ mrt config -D backend".to_string(),
        "$ mrt config -r".to_string(),
        "$ mrt +/opt/somedir ls -l".to_string(),
        "$ mrt -m git diff".to_string(),
        "$ mrt +backend tmux".to_string(),
    ];
    assert(views(examples@) =~= help_examples());
    assert(comments@.map_values(|c: &str| c@) =~= help_comments());
    let mut shown: Vec<String> = Vec::new();
    let mut i: usize = 0;
    while i < comments.len()
        invariant
            comments@.len() == help_comments().len(),
            comments@.map_values(|c: &str| c@) == help_comments(),
            i <= comments@.len(),
            shown@.len() == i,
            forall|j: int| 0 <= j < i ==> #[trigger] shown_as(help_comments()[j], "90"@, shown@[j]@),
        decreases comments.len() - i,
    {
        let c: &str = comments[i];
        assert(help_comments()[i as int] == c@);
        shown.push(bright_black(c));
        i = i + 1;
    }
    let r = help_text_from(&shown, &examples);
    proof {
        assert forall|j: int| 0 <= j < views(shown@).len() implies #[trigger] shown_as(help_comments()[j], "90"@, views(shown@)[j]) by {
            assert(views(shown@)[j] == shown@[j]@);
        }
        assert(comments_shown(views(shown@)));
    }
    r
}

} // verus!
