//! Shell completion: the words offered after what has been typed so far.
use vstd::prelude::*;
use crate::classify::{classified, env_tag_tokens, name_views, parse_arguments, tag_token, TAG_PREFIX};
use crate::config::{entry_names, without, ConfigFile};
use crate::text::{join_spec, join_str, str_eq, views};

verus! {

/// The name of the completion subcommand, which is not part of what the
/// user typed.
pub const COMPLETION_WORD: &'static str = "completion";

/// The tag tokens of the table's tags that are not selected yet, in the
/// table's order.
pub open spec fn unselected_tags(names: Seq<Seq<char>>, selected: Seq<Seq<char>>) -> Seq<Seq<char>>
    decreases names.len(),
{
    if names.len() == 0 {
        seq![]
    } else {
        let rest = unselected_tags(names.drop_last(), selected);
        let token = seq![TAG_PREFIX] + names.last();
        if selected.contains(token) {
            rest
        } else {
            rest.push(token)
        }
    }
}

/// The lines of completion words for the typed arguments `args` (the word
/// `completion` left out): the subcommand names while neither a command nor
/// a subcommand has been typed, then the tags not selected yet while no
/// command has been typed.
pub open spec fn completion_lines_of(
    args: Seq<Seq<char>>,
    subcommands: Seq<Seq<char>>,
    tag_names: Seq<Seq<char>>,
    env_tags: Seq<Seq<char>>,
) -> Seq<Seq<char>> {
    let parsed = classified(without(args, COMPLETION_WORD@), subcommands, env_tags);
    let has_subcommand = exists|i: int| 0 <= i < subcommands.len() && parsed.before_tags.contains(#[trigger] subcommands[i]);
    let first = if parsed.after_tags.len() == 0 && !has_subcommand {
        seq![join_spec(subcommands, seq![' '])]
    } else {
        seq![]
    };
    let second = if parsed.after_tags.len() == 0 {
        seq![join_spec(unselected_tags(tag_names, parsed.tags), seq![' '])]
    } else {
        seq![]
    };
    first + second
}

fn contains_string(v: &Vec<String>, s: &str) -> (r: bool)
    ensures
        r == views(v@).contains(s@),
{
    let mut i: usize = 0;
    while i < v.len()
        invariant
            i <= v@.len(),
            forall|j: int| 0 <= j < i ==> v@[j]@ != s@,
        decreases v.len() - i,
    {
        if str_eq(v[i].as_str(), s) {
            assert(views(v@)[i as int] == s@);
            return true;
        }
        i = i + 1;
    }
    assert(!views(v@).contains(s@)) by {
        if views(v@).contains(s@) {
            let j = choose|j: int| 0 <= j < views(v@).len() && views(v@)[j] == s@;
            assert(v@[j]@ == s@);
        }
    }
    false
}

fn without_word(args: &[String], word: &str) -> (r: Vec<String>)
    ensures
        views(r@) == without(views(args@), word@),
{
    let mut r: Vec<String> = Vec::new();
    let mut i: usize = 0;
    while i < args.len()
        invariant
            i <= args@.len(),
            views(r@) == without(views(args@).subrange(0, i as int), word@),
        decreases args.len() - i,
    {
        let ghost part = views(args@).subrange(0, i + 1);
        assert(part.drop_last() =~= views(args@).subrange(0, i as int));
        assert(part.last() == args@[i as int]@);
        let ghost before = r@;
        if !str_eq(args[i].as_str(), word) {
            r.push(args[i].clone());
            assert(views(r@) =~= views(before).push(args@[i as int]@));
        }
        i = i + 1;
    }
    assert(views(args@).subrange(0, i as int) =~= views(args@));
    r
}

/// The completion words to print, one line per entry, for the typed
/// arguments `args`; `env_value` is the setting that holds the default tags,
/// if it is set.
pub fn completion_lines(
    args: &[String],
    subcommand_names: &[&String],
    config: &ConfigFile,
    env_value: Option<&str>,
) -> (r: Vec<String>)
    ensures
        views(r@) == completion_lines_of(
            views(args@),
            name_views(subcommand_names@),
            entry_names(config.tags@),
            match env_value {
                Some(v) => env_tag_tokens(v@),
                None => seq![],
            },
        ),
{
    proof {
        reveal_strlit(" ");
        assert(" "@ =~= seq![' ']);
    }
    let typed = without_word(args, COMPLETION_WORD);
    let parsed = parse_arguments(typed.as_slice(), subcommand_names, env_value);
    let ghost subs = name_views(subcommand_names@);
    let mut names: Vec<String> = Vec::new();
    let mut has_subcommand = false;
    let mut i: usize = 0;
    while i < subcommand_names.len()
        invariant
            i <= subcommand_names@.len(),
            subs == name_views(subcommand_names@),
            views(names@) == subs.subrange(0, i as int),
            has_subcommand == exists|j: int| 0 <= j < i && views(parsed.before_tags@).contains(#[trigger] subs[j]),
        decreases subcommand_names.len() - i,
    {
        let name: &String = subcommand_names[i];
        let ghost before = names@;
        names.push(name.clone());
        assert(views(names@) =~= subs.subrange(0, i + 1)) by {
            assert(views(names@) =~= views(before).push(name@));
        }
        if contains_string(&parsed.before_tags, name.as_str()) {
            has_subcommand = true;
        }
        proof {
            assert(subs[i as int] == name@);
        }
        i = i + 1;
    }
    assert(subs.subrange(0, i as int) =~= subs);
    let mut r: Vec<String> = Vec::new();
    if parsed.after_tags.len() == 0 && !has_subcommand {
        r.push(join_str(names.as_slice(), " "));
    }
    if parsed.after_tags.len() == 0 {
        let ghost tag_names = entry_names(config.tags@);
        let mut offered: Vec<String> = Vec::new();
        let mut k: usize = 0;
        while k < config.tags.len()
            invariant
                k <= config.tags@.len(),
                tag_names == entry_names(config.tags@),
                views(offered@) == unselected_tags(tag_names.subrange(0, k as int), views(parsed.tags@)),
            decreases config.tags.len() - k,
        {
            let token = tag_token(config.tags[k].0.as_str());
            let ghost part = tag_names.subrange(0, k + 1);
            assert(part.drop_last() =~= tag_names.subrange(0, k as int));
            assert(part.last() == config.tags@[k as int].0@);
            let ghost before = offered@;
            if !contains_string(&parsed.tags, token.as_str()) {
                offered.push(token);
                assert(views(offered@) =~= views(before).push(token@));
            }
            k = k + 1;
        }
        assert(tag_names.subrange(0, k as int) =~= tag_names);
        r.push(join_str(offered.as_slice(), " "));
    }
    proof {
        let env_tags = match env_value {
            Some(v) => env_tag_tokens(v@),
            None => seq![],
        };
        assert(parsed@ == classified(without(views(args@), COMPLETION_WORD@), subs, env_tags));
        assert(views(r@) =~= completion_lines_of(views(args@), subs, entry_names(config.tags@), env_tags));
    }
    r
}

/// The bash script that hooks the tool's completion into the shell.
pub fn get_bash() -> (r: String)
    ensures
        r@ == BASH_COMPLETION@,
{
    BASH_COMPLETION.to_string()
}

/// The bash completion script.
pub const BASH_COMPLETION: &'static str = "
_mrt_complete() {
  COMPREPLY=()
  local word=\"${COMP_WORDS[COMP_CWORD]}\"

  local command=\"${COMP_WORDS[@]:1:${#COMP_WORDS[@]}-2}\"
  local completions=\"$(mrt completion $command)\"
  COMPREPLY=( $(compgen -W \"$completions\" -- \"$word\") )
}

complete -F _mrt_complete mrt
    ";

} // verus!
