use mrt::config::{ConfigFile, Tag, APP_VERSION};
use mrt::resolve::{get_all_paths, missing_tags, select_modified, tag_name};
use mrt::sorted::{lex_less, sorted_unique};

fn strings(v: Vec<&str>) -> Vec<String> {
    v.into_iter().map(String::from).collect()
}

fn config() -> ConfigFile {
    let mut c = ConfigFile::new();
    c.tags.push((String::from("web"), Tag { paths: strings(vec!["/srv/web", "/srv/api"]) }));
    c.tags.push((String::from("api"), Tag { paths: strings(vec!["/srv/api"]) }));
    c.tags.push((String::from("ops"), Tag { paths: strings(vec!["/opt/ops"]) }));
    c
}

#[test]
fn tags_resolve_to_sorted_unique_paths() {
    let c = config();
    let tags = strings(vec!["+web", "+api"]);
    let r = get_all_paths(&tags, &c, &vec![None, None]);
    assert_eq!(r, strings(vec!["/srv/api", "/srv/web"]));
}

#[test]
fn resolving_twice_gives_identical_lists() {
    let c = config();
    let tags = strings(vec!["+ops", "+web", "+api", "+web"]);
    let lits = vec![None, None, None, None];
    let first = get_all_paths(&tags, &c, &lits);
    let second = get_all_paths(&tags, &c, &lits);
    assert_eq!(first, second);
    let reordered = strings(vec!["+api", "+web", "+ops"]);
    assert_eq!(get_all_paths(&reordered, &c, &vec![None, None, None]), first);
    assert_eq!(first, strings(vec!["/opt/ops", "/srv/api", "/srv/web"]));
}

#[test]
fn no_tags_selects_every_tagged_path() {
    let c = config();
    let r = get_all_paths(&Vec::new(), &c, &Vec::new());
    assert_eq!(r, strings(vec!["/opt/ops", "/srv/api", "/srv/web"]));
}

#[test]
fn unknown_tag_uses_existing_literal_path() {
    let c = config();
    let tags = strings(vec!["+/tmp/x", "+nothing", "+", "+web"]);
    let lits = vec![Some(String::from("/tmp/x")), None, None, None];
    let r = get_all_paths(&tags, &c, &lits);
    assert_eq!(r, strings(vec!["/srv/api", "/srv/web", "/tmp/x"]));
    assert_eq!(missing_tags(&tags, &c, &lits), strings(vec!["+nothing", "+"]));
}

#[test]
fn empty_tag_name_is_not_found_even_with_literal() {
    let c = config();
    let tags = strings(vec!["+"]);
    let lits = vec![Some(String::from("/x"))];
    assert!(get_all_paths(&tags, &c, &lits).is_empty());
    assert_eq!(missing_tags(&tags, &c, &lits), tags);
}

#[test]
fn tag_names_drop_the_prefix() {
    assert_eq!(tag_name("+web"), "web");
    assert_eq!(tag_name("+"), "");
    assert_eq!(tag_name(""), "");
}

#[test]
fn modified_filter_keeps_unknown_state() {
    let paths = strings(vec!["/a", "/b", "/c"]);
    let r = select_modified(&paths, &vec![Some(true), Some(false), None]);
    assert_eq!(r, strings(vec!["/a", "/c"]));
}

#[test]
fn sorting_is_by_code_point() {
    assert_eq!(sorted_unique(&strings(vec!["b", "a/b", "a-b", "b", "A"])), strings(vec!["A", "a-b", "a/b", "b"]));
    assert!(lex_less("ab", "abc"));
    assert!(!lex_less("abc", "abc"));
    assert!(lex_less("Z", "a"));
}

#[test]
fn new_config_is_empty() {
    let c = ConfigFile::new();
    assert_eq!(c.version, APP_VERSION);
    assert!(c.tags.is_empty());
    assert!(c.last_paths.is_none());
}

#[test]
fn adding_a_directory_keeps_paths_sorted_once() {
    let mut c = config();
    c.add_tag_to_dir("web", "/a");
    c.add_tag_to_dir("web", "/a");
    c.add_tag_to_dir("new", "/n");
    let web = &c.tags.iter().find(|(n, _)| n == "web").unwrap().1;
    assert_eq!(web.paths, strings(vec!["/a", "/srv/api", "/srv/web"]));
    let new = &c.tags.iter().find(|(n, _)| n == "new").unwrap().1;
    assert_eq!(new.paths, strings(vec!["/n"]));
}

#[test]
fn removing_the_last_directory_drops_the_tag() {
    let mut c = config();
    assert!(c.remove_dir_from_tag("ops", "/opt/ops"));
    assert!(c.tags.iter().all(|(n, _)| n != "ops"));
    assert!(c.remove_dir_from_tag("web", "/srv/api"));
    let web = &c.tags.iter().find(|(n, _)| n == "web").unwrap().1;
    assert_eq!(web.paths, strings(vec!["/srv/web"]));
    assert!(!c.remove_dir_from_tag("ghost", "/x"));
}

#[test]
fn removing_a_directory_everywhere() {
    let mut c = config();
    c.remove_dir_everywhere("/srv/api");
    let names: Vec<&str> = c.tags.iter().map(|(n, _)| n.as_str()).collect();
    assert_eq!(names, vec!["web", "ops"]);
    assert_eq!(c.tags[0].1.paths, strings(vec!["/srv/web"]));
}

#[test]
fn deleting_a_tag() {
    let mut c = config();
    c.delete_tag("api");
    c.delete_tag("absent");
    let names: Vec<&str> = c.tags.iter().map(|(n, _)| n.as_str()).collect();
    assert_eq!(names, vec!["web", "ops"]);
}

#[test]
fn previous_paths_are_kept_only_when_present() {
    let mut c = config();
    assert!(!c.store_previous_paths(&Vec::new()));
    assert!(c.last_paths.is_none());
    assert!(c.store_previous_paths(&strings(vec!["/a"])));
    assert_eq!(c.last_paths, Some(strings(vec!["/a"])));
}

#[test]
fn config_paths_expand_tilde() {
    let mut c = ConfigFile::new();
    c.tags.push((String::from("t"), Tag { paths: strings(vec!["~/p", "/abs"]) }));
    let e = c.expand_config_paths_with_home(&Some(String::from("/home/me")));
    assert_eq!(e.tags[0].1.paths, strings(vec!["/home/me/p", "/abs"]));
}
