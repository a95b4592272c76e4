use mrt::completion::{completion_lines, get_bash};
use mrt::config::{ConfigFile, Tag};
use mrt::errors::MrtError;
use mrt::help::{help_text, help_text_from};
use mrt::tmux::{attach_args, generate_session_name, new_session_args, open_panes};

fn strings(v: Vec<&str>) -> Vec<String> {
    v.into_iter().map(String::from).collect()
}

#[test]
fn session_names_are_prefixed_and_random() {
    let a = generate_session_name();
    let b = generate_session_name();
    assert!(a.starts_with("mrt-"));
    assert_eq!(a.len(), 40);
    assert_ne!(a, b);
}

#[test]
fn pane_plan_splits_all_but_the_last() {
    let plan = open_panes("s", &strings(vec!["/a", "/b"]));
    let expected: Vec<Vec<String>> = vec![
        strings(vec!["send-keys", "-t", "s", "cd /a", "Enter"]),
        strings(vec!["split-window", "-v", "-t", "s"]),
        strings(vec!["select-layout", "-t", "s", "tiled"]),
        strings(vec!["send-keys", "-t", "s", "cd /b", "Enter"]),
        strings(vec!["select-layout", "-t", "s", "tiled"]),
    ];
    assert_eq!(plan, expected);
    assert_eq!(new_session_args("s"), strings(vec!["new-session", "-d", "-s", "s"]));
    assert_eq!(attach_args("s"), strings(vec!["attach", "-t", "s"]));
}

#[test]
fn completion_offers_subcommands_and_unselected_tags() {
    let mut c = ConfigFile::new();
    c.tags.push((String::from("web"), Tag { paths: strings(vec!["/w"]) }));
    c.tags.push((String::from("api"), Tag { paths: strings(vec!["/a"]) }));
    let names = strings(vec!["status", "config", "tmux"]);
    let refs: Vec<&String> = names.iter().collect();
    let lines = completion_lines(&strings(vec!["mrt", "completion", "+web"]), &refs, &c, None);
    assert_eq!(lines, strings(vec!["status config tmux", "+api"]));
    let after_sub = completion_lines(&strings(vec!["mrt", "completion", "status"]), &refs, &c, None);
    assert_eq!(after_sub, strings(vec!["+web +api"]));
    let after_cmd = completion_lines(&strings(vec!["mrt", "completion", "+web", "git"]), &refs, &c, None);
    assert!(after_cmd.is_empty());
}

#[test]
fn bash_script_calls_completion() {
    assert!(get_bash().contains("mrt completion $command"));
}

#[test]
fn errors_carry_their_message() {
    let e = MrtError::new("boom");
    assert_eq!(e.message(), "boom");
    assert_eq!(e.to_string(), "Something wrong");
}

#[test]
fn help_layout_separates_examples() {
    let text = help_text_from(&strings(vec!["# a", "# b"]), &strings(vec!["$ x", "$ y"]));
    assert_eq!(text, "EXAMPLES:\n    # a\n    $ x\n\n    # b\n    $ y\n    ");
}

#[test]
fn help_text_lists_every_example() {
    let text = help_text();
    assert!(text.starts_with("EXAMPLES:\n"));
    assert!(text.contains("$ mrt +backend tmux"));
    assert!(text.contains("List tagged directories"));
    assert!(text.ends_with("$ mrt +backend tmux\n    "));
}
