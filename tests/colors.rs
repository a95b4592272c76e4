use mrt::help::help_text;
use mrt::status::{get_colored_behindness, get_colored_branch, get_dirtyness, format_error};
use mrt::util::{format_path, get_headline};

fn lines(v: Vec<&str>) -> Vec<String> {
    v.into_iter().map(String::from).collect()
}

#[test]
fn forced_colors_wrap_each_piece_in_its_style() {
    colored::control::set_override(true);
    let status = lines(vec!["## dev...origin/dev [behind 3]", " M x"]);
    assert_eq!(get_dirtyness(&status), "\x1b[31m1 modified\x1b[0m");
    assert_eq!(get_dirtyness(&lines(vec!["## dev"])), "\x1b[32mClean\x1b[0m");
    assert_eq!(get_colored_branch(&status, "main"), "\x1b[90mdev\x1b[0m");
    assert_eq!(get_colored_branch(&status, "dev"), "dev");
    assert_eq!(get_colored_branch(&Vec::new(), "main"), "\x1b[33m<UNKNOWN>\x1b[0m");
    assert_eq!(get_colored_behindness(&status), " \x1b[33m[behind 3]\x1b[0m");
    assert_eq!(format_path("/definitely/not/home/leaf"), "\x1b[2m/definitely/not/home/\x1b[0mleaf");
    assert_eq!(
        get_headline("/definitely/not/home/leaf"),
        "\n\n\x1b[2;90min\x1b[0m \x1b[2;90m/definitely/not/home/\x1b[0m\x1b[90mleaf\x1b[0m"
    );
    assert!(format_error("/definitely/not/home/leaf").ends_with("\x1b[31mSOMETHING WRONG\x1b[0m"));
    assert!(help_text().contains("    \x1b[90m# List tagged directories\x1b[0m\n    $ mrt -l\n\n"));
    colored::control::unset_override();
}
