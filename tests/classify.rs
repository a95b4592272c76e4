use mrt::classify::{find_tags_in_args, get_tags_from_env, parse_arguments, tag_token, ParsedArgs};

fn to_string_vec(v: Vec<&str>) -> Vec<String> {
    v.into_iter().map(|s| s.to_owned()).collect()
}

fn subcmd_names() -> Vec<String> {
    to_string_vec(vec!["status", "config", "tmux"])
}

fn classify(args: Vec<&str>, names: &[String]) -> ParsedArgs {
    let test_args = to_string_vec(args);
    let s: Vec<&String> = names.iter().collect();
    find_tags_in_args(&test_args, &s, &Vec::new())
}

#[test]
fn test_single_tag_is_parsed_correctly() {
    let test_args: Vec<String> = to_string_vec(vec!["mrt", "-p", "+testtag", "ls", "-l", "-h"]);

    let expected = ParsedArgs {
        tags: to_string_vec(vec!["+testtag"]),
        before_tags: to_string_vec(vec!["mrt", "-p"]),
        after_tags: to_string_vec(vec!["ls", "-l", "-h"]),
    };

    let names = subcmd_names();
    let s: Vec<&String> = names.iter().collect();
    let result = find_tags_in_args(&test_args, &s, &Vec::new());

    assert_eq!(result, expected);
}

#[test]
fn test_multiple_tags_are_parsed_correctly() {
    let test_args: Vec<String> = to_string_vec(vec![
        "mrt", "+testtag", "+testaru", "+testari", "+x", "ls", "-l", "-h",
    ]);

    let expected = ParsedArgs {
        tags: to_string_vec(vec!["+testtag", "+testaru", "+testari", "+x"]),
        before_tags: to_string_vec(vec!["mrt"]),
        after_tags: to_string_vec(vec!["ls", "-l", "-h"]),
    };

    let names = subcmd_names();
    let s: Vec<&String> = names.iter().map(|x| x).collect();
    let result = find_tags_in_args(&test_args, &s, &Vec::new());

    assert_eq!(result, expected);
}

#[test]
fn test_double_dash_makes_subcommands_after_tags() {
    let test_args1: Vec<String> =
        to_string_vec(vec!["mrt", "+testtag", "+testaru", "+testari", "status"]);
    let test_args2: Vec<String> = to_string_vec(vec![
        "mrt", "+testtag", "+testaru", "+testari", "--", "status",
    ]);

    let test_args3: Vec<String> = to_string_vec(vec!["mrt", "--", "status"]);

    let test_args4: Vec<String> = to_string_vec(vec!["mrt", "status"]);

    let expected1 = ParsedArgs {
        tags: to_string_vec(vec!["+testtag", "+testaru", "+testari"]),
        before_tags: to_string_vec(vec!["mrt", "status"]),
        after_tags: to_string_vec(vec![]),
    };

    let expected2 = ParsedArgs {
        tags: to_string_vec(vec!["+testtag", "+testaru", "+testari"]),
        before_tags: to_string_vec(vec!["mrt"]),
        after_tags: to_string_vec(vec!["status"]),
    };

    let expected3 = ParsedArgs {
        tags: to_string_vec(vec![]),
        before_tags: to_string_vec(vec!["mrt"]),
        after_tags: to_string_vec(vec!["status"]),
    };

    let expected4 = ParsedArgs {
        tags: to_string_vec(vec![]),
        before_tags: to_string_vec(vec!["mrt", "status"]),
        after_tags: to_string_vec(vec![]),
    };

    let names = subcmd_names();
    let s: Vec<&String> = names.iter().map(|x| x).collect();
    let result1 = find_tags_in_args(&test_args1, &s, &Vec::new());
    let result2 = find_tags_in_args(&test_args2, &s, &Vec::new());
    let result3 = find_tags_in_args(&test_args3, &s, &Vec::new());
    let result4 = find_tags_in_args(&test_args4, &s, &Vec::new());

    assert_eq!(result1, expected1);
    assert_eq!(result2, expected2);
    assert_eq!(result3, expected3);
    assert_eq!(result4, expected4);
}

#[test]
fn test_external_commands_are_parsed_without_tags() {
    let test_args: Vec<String> = to_string_vec(vec!["mrt", "testingsaru"]);

    let expected = ParsedArgs {
        tags: to_string_vec(vec![]),
        before_tags: to_string_vec(vec!["mrt"]),
        after_tags: to_string_vec(vec!["testingsaru"]),
    };

    let names = subcmd_names();
    let s: Vec<&String> = names.iter().map(|x| x).collect();
    let result = find_tags_in_args(&test_args, &s, &Vec::new());

    assert_eq!(result, expected);
}

#[test]
fn test_that_subcommands_are_not_subcommands_when_after_external() {
    let test_args1: Vec<String> = to_string_vec(vec!["mrt", "+testtag", "status"]);
    let test_args2: Vec<String> = to_string_vec(vec!["mrt", "+testtag", "git", "status"]);

    let expected1 = ParsedArgs {
        tags: to_string_vec(vec!["+testtag"]),
        before_tags: to_string_vec(vec!["mrt", "status"]),
        after_tags: to_string_vec(vec![]),
    };

    let expected2 = ParsedArgs {
        tags: to_string_vec(vec!["+testtag"]),
        before_tags: to_string_vec(vec!["mrt"]),
        after_tags: to_string_vec(vec!["git", "status"]),
    };

    let names = subcmd_names();
    let s: Vec<&String> = names.iter().map(|x| x).collect();
    let result1 = find_tags_in_args(&test_args1, &s, &Vec::new());
    let result2 = find_tags_in_args(&test_args2, &s, &Vec::new());

    assert_eq!(result1, expected1);
    assert_eq!(result2, expected2);
}

#[test]
fn test_sub_subcommands_are_parsed_as_before_tags() {
    let test_args1: Vec<String> =
        to_string_vec(vec!["mrt", "+testtag", "status", "-l", "-a", "apekatt"]);

    let expected1 = ParsedArgs {
        tags: to_string_vec(vec!["+testtag"]),
        before_tags: to_string_vec(vec!["mrt", "status", "-l", "-a", "apekatt"]),
        after_tags: to_string_vec(vec![]),
    };

    let names = subcmd_names();
    let s: Vec<&String> = names.iter().map(|x| x).collect();
    let result1 = find_tags_in_args(&test_args1, &s, &Vec::new());

    assert_eq!(result1, expected1);
}

#[test]
fn tag_then_command_without_reserved_names() {
    let r = classify(vec!["mrt", "-p", "+testtag", "ls", "-l", "-h"], &[]);
    assert_eq!(r.tags, to_string_vec(vec!["+testtag"]));
    assert_eq!(r.before_tags, to_string_vec(vec!["mrt", "-p"]));
    assert_eq!(r.after_tags, to_string_vec(vec!["ls", "-l", "-h"]));
}

#[test]
fn reserved_name_after_tags_is_a_tool_token() {
    let names = to_string_vec(vec!["status"]);
    let r = classify(vec!["mrt", "+t1", "+t2", "status"], &names);
    assert_eq!(r.tags, to_string_vec(vec!["+t1", "+t2"]));
    assert_eq!(r.after_tags, Vec::<String>::new());
    assert_eq!(r.before_tags, to_string_vec(vec!["mrt", "status"]));
}

#[test]
fn separator_turns_reserved_name_into_command() {
    let names = to_string_vec(vec!["status"]);
    let r = classify(vec!["mrt", "+t1", "+t2", "--", "status"], &names);
    assert_eq!(r.tags, to_string_vec(vec!["+t1", "+t2"]));
    assert_eq!(r.after_tags, to_string_vec(vec!["status"]));
    assert_eq!(r.before_tags, to_string_vec(vec!["mrt"]));
}

#[test]
fn untagged_arguments_start_command_at_first_plain_token() {
    let r = classify(vec!["mrt", "-p", "-c", "git", "-v", "log"], &[]);
    assert!(r.tags.is_empty());
    assert_eq!(r.before_tags, to_string_vec(vec!["mrt", "-p", "-c"]));
    assert_eq!(r.after_tags, to_string_vec(vec!["git", "-v", "log"]));
}

#[test]
fn untagged_flags_after_separator_start_command() {
    let r = classify(vec!["mrt", "-p", "--", "-x", "y"], &[]);
    assert!(r.tags.is_empty());
    assert_eq!(r.before_tags, to_string_vec(vec!["mrt", "-p"]));
    assert_eq!(r.after_tags, to_string_vec(vec!["-x", "y"]));
}

#[test]
fn empty_arguments_give_empty_lists() {
    let r = classify(vec![], &[]);
    assert!(r.tags.is_empty() && r.before_tags.is_empty() && r.after_tags.is_empty());
}

#[test]
fn bare_prefix_is_an_empty_tag() {
    let r = classify(vec!["mrt", "+", "ls"], &[]);
    assert_eq!(r.tags, to_string_vec(vec!["+"]));
    assert_eq!(r.after_tags, to_string_vec(vec!["ls"]));
}

#[test]
fn tag_after_command_is_a_command_argument() {
    let r = classify(vec!["mrt", "+a", "echo", "+b"], &[]);
    assert_eq!(r.tags, to_string_vec(vec!["+a"]));
    assert_eq!(r.after_tags, to_string_vec(vec!["echo", "+b"]));
}

#[test]
fn default_tags_apply_only_without_tag_tokens() {
    let env = to_string_vec(vec!["+x"]);
    let args = to_string_vec(vec!["mrt", "ls"]);
    let none: Vec<&String> = Vec::new();
    let r = find_tags_in_args(&args, &none, &env);
    assert_eq!(r.tags, env);
    let args2 = to_string_vec(vec!["mrt", "+a", "ls"]);
    let r2 = find_tags_in_args(&args2, &none, &env);
    assert_eq!(r2.tags, to_string_vec(vec!["+a"]));
}

#[test]
fn env_value_is_split_trimmed_and_prefixed() {
    assert_eq!(get_tags_from_env(Some(" a , b,c ")), to_string_vec(vec!["+a", "+b", "+c"]));
    assert_eq!(get_tags_from_env(Some("")), to_string_vec(vec!["+"]));
    assert!(get_tags_from_env(None).is_empty());
}

#[test]
fn tag_token_prefixes_name() {
    assert_eq!(tag_token("web"), "+web");
}

#[test]
fn parse_arguments_uses_env_value() {
    let args = to_string_vec(vec!["mrt", "git", "pull"]);
    let none: Vec<&String> = Vec::new();
    let r = parse_arguments(&args, &none, Some("front,back"));
    assert_eq!(r.tags, to_string_vec(vec!["+front", "+back"]));
    assert_eq!(r.after_tags, to_string_vec(vec!["git", "pull"]));
}
