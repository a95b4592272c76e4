use mrt::status::{
    default_branch_args, default_branch_from_output, dirtyness_text, error_line, format_error, format_output,
    get_behindness, get_branch, get_colored_behindness, get_colored_branch, get_dirtyness,
    get_num_dirty_files, get_spaces_with_maxlen, is_modified_output, remote_from_output, run_status_command, status_line,
};

fn to_string_vec(v: Vec<&str>) -> Vec<String> {
    v.into_iter().map(|s| s.to_owned()).collect()
}

#[test]
fn test_get_behindness_func() {
    let input1 = to_string_vec(vec!["## mas...[ter...origin/mas...[ter [behind 1]"]);
    let input2 = to_string_vec(vec!["## master...origin/master [behind 2]"]);
    let input3 = to_string_vec(vec!["## mas...[ter...origin/mas...[ter"]);
    let input4 = to_string_vec(vec!["## master...origin/master"]);

    let expected1 = String::from("[behind 1]");
    let expected2 = String::from("[behind 2]");

    assert_eq!(get_behindness(&input1), Some(expected1));
    assert_eq!(get_behindness(&input2), Some(expected2));
    assert_eq!(get_behindness(&input3), None);
    assert_eq!(get_behindness(&input4), None);
}

#[test]
fn test_get_branch_func() {
    let input1 = to_string_vec(vec!["## master...origin/master"]);
    let input2 = to_string_vec(vec!["## mas## ter...origin/mas## ter"]);
    let input3 = to_string_vec(vec!["## mas...## ter...origin/mas...## ter"]);
    let input4 = to_string_vec(vec!["## mas...[ter...origin/mas...[ter [behind 1]"]);
    let input5 = to_string_vec(vec!["## master...origin/master [behind 1]"]);

    let expected1 = String::from("master");
    let expected2 = String::from("mas## ter");
    let expected3 = String::from("mas...## ter");
    let expected4 = String::from("mas...[ter");
    let expected5 = String::from("master");

    assert_eq!(get_branch(&input1), Some(expected1));
    assert_eq!(get_branch(&input2), Some(expected2));
    assert_eq!(get_branch(&input3), Some(expected3));
    assert_eq!(get_branch(&input4), Some(expected4));
    assert_eq!(get_branch(&input5), Some(expected5));
}

#[test]
fn test_get_branch_without_remote() {
    let input = to_string_vec(vec!["## some-branch"]);
    let expected = String::from("some-branch");
    assert_eq!(get_branch(&input), Some(expected));
}

#[test]
fn no_lines_no_branch() {
    let empty: Vec<String> = Vec::new();
    assert_eq!(get_branch(&empty), None);
    assert_eq!(get_behindness(&empty), None);
}

#[test]
fn dirty_files_skip_header_and_blank_lines() {
    let lines = to_string_vec(vec!["## master", " M a.rs", "?? b.rs", ""]);
    assert_eq!(get_num_dirty_files(&lines), 2);
    assert_eq!(dirtyness_text(&lines), "2 modified");
    let clean = to_string_vec(vec!["## master", ""]);
    assert_eq!(get_num_dirty_files(&clean), 0);
    assert_eq!(dirtyness_text(&clean), "Clean");
}

#[test]
fn dirtyness_counts_past_nine() {
    let mut lines = vec![String::from("## main")];
    for i in 0..12 {
        lines.push(format!(" M f{}", i));
    }
    assert_eq!(dirtyness_text(&lines), "12 modified");
}

#[test]
fn modified_output_detection() {
    assert!(is_modified_output("## master\n M x\n"));
    assert!(!is_modified_output("## master\n"));
    assert!(!is_modified_output(""));
}

#[test]
fn padding_is_at_least_one_space() {
    assert_eq!(get_spaces_with_maxlen(25, 5), " ".repeat(20));
    assert_eq!(get_spaces_with_maxlen(25, 30), " ");
    assert_eq!(get_spaces_with_maxlen(25, 24), " ");
    assert_eq!(get_spaces_with_maxlen(-3, 0), " ");
}

#[test]
fn status_line_layout() {
    let line = status_line("p", "Clean", "main", " [ahead 1]");
    let expected = format!("p{}Clean{}main [ahead 1]", " ".repeat(49), " ".repeat(20));
    assert_eq!(line, expected);
    assert_eq!(error_line("p", "SOMETHING WRONG"), format!("p{}SOMETHING WRONG", " ".repeat(49)));
}

#[test]
fn remote_and_default_branch_from_output() {
    assert_eq!(remote_from_output(Some("upstream\norigin\n")), "upstream");
    assert_eq!(remote_from_output(None), "origin");
    assert_eq!(default_branch_from_output(Some("refs/remotes/origin/main\n")), "main");
    assert_eq!(default_branch_from_output(Some("")), "master");
    assert_eq!(default_branch_from_output(None), "master");
}

#[test]
fn git_arguments() {
    assert_eq!(run_status_command(), vec!["-c", "color.ui=always", "status", "--branch", "--porcelain"]);
    assert_eq!(
        default_branch_args("origin"),
        vec!["-c", "color.ui=always", "symbolic-ref", "refs/remotes/origin/HEAD"]
    );
}

fn plain_or_painted(r: &str, text: &str, code: &str) -> bool {
    r == text || r == format!("\x1b[{}m{}\x1b[0m", code, text)
}

#[test]
fn colored_pieces_are_plain_or_painted() {
    let lines = to_string_vec(vec!["## dev...origin/dev [ahead 2]", " M x"]);
    assert!(plain_or_painted(&get_dirtyness(&lines), "1 modified", "31"));
    let clean = to_string_vec(vec!["## dev"]);
    assert!(plain_or_painted(&get_dirtyness(&clean), "Clean", "32"));
    assert!(plain_or_painted(&get_colored_branch(&lines, "main"), "dev", "90"));
    assert_eq!(get_colored_branch(&lines, "dev"), "dev");
    let empty: Vec<String> = Vec::new();
    assert!(plain_or_painted(&get_colored_branch(&empty, "main"), "<UNKNOWN>", "33"));
    let b = get_colored_behindness(&lines);
    assert!(b.starts_with(' ') && plain_or_painted(&b[1..], "[ahead 2]", "33"));
    assert_eq!(get_colored_behindness(&clean), "");
}

#[test]
fn format_output_lays_out_status_line() {
    let line = format_output("/x/repo", "## main\n M a\n", "main");
    assert!(line.contains("repo"));
    assert!(line.contains("main"));
    assert!(line.contains("1 modified"));
    let err = format_error("/x/repo");
    assert!(err.contains("SOMETHING WRONG"));
}
