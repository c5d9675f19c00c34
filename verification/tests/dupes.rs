use ddh_move::dupes::{
    get_dupe_files, keep_prefixed_file, path_contains_component, pathlist_contains_any_path_components,
    paths_to_delete, sort_dupes_alphabetically, sort_dupes_by_longer_length, sort_dupes_by_shorter_length,
    PathPrefixAlphaPreference, PathPrefixDupePreference,
};
use ddh_move::Fileinfo;
use std::path::PathBuf;

fn bytes_of(p: &PathBuf) -> Vec<u8> {
    p.to_str().unwrap().as_bytes().to_vec()
}

fn path_of(b: &[u8]) -> PathBuf {
    PathBuf::from(String::from_utf8(b.to_vec()).unwrap())
}

fn group(paths: &[&str]) -> Fileinfo {
    Fileinfo::from(paths.iter().map(|p| bytes_of(&PathBuf::from(p))).collect())
}

fn texts(f: &Fileinfo) -> Vec<String> {
    f.file_paths.iter().map(|p| String::from_utf8(p.clone()).unwrap()).collect()
}

#[test]
fn fileinfo_ctor_works_correctly() {
    let one = "one";
    let two = "two";
    let fi = Fileinfo::from(vec![bytes_of(&PathBuf::from(one)), bytes_of(&PathBuf::from(two))]);
    assert_eq!(path_of(&fi.file_paths[0]).to_str().unwrap(), one);
    assert_eq!(path_of(&fi.file_paths[1]).to_str().unwrap(), two);
}

#[test]
fn path_contains_component_works_correctly() {
    let test_path = bytes_of(&PathBuf::from("foo/bar/bas"));
    assert!(path_contains_component(&test_path, "foo"));
    assert!(path_contains_component(&test_path, "bar"));
    assert!(path_contains_component(&test_path, "bas"));
}

#[test]
fn pathlist_contains_any_path_components_works_correctly() {
    let test_path = bytes_of(&PathBuf::from("foo/bar/bas"));

    let test_vec_1 = vec!["foo"];
    let test_vec_2 = vec!["blagh", "bar"];
    let test_vec_3 = vec!["foo", "bar", "bas"];
    let test_vec_4 = vec!["blagh"];

    assert!(pathlist_contains_any_path_components(&test_path, &test_vec_1));
    assert!(pathlist_contains_any_path_components(&test_path, &test_vec_2));
    assert!(pathlist_contains_any_path_components(&test_path, &test_vec_3));
    assert!(!pathlist_contains_any_path_components(&test_path, &test_vec_4));
}

#[test]
fn paths_matching_pathprefix_are_first() {
    let path_prefix = "bar/";
    let dupe_file = group(&[
        "foo/some-file.txt",
        "bar/.hidden-folder/some-file2.txt",
        "bar/some-file.txt",
        "bas/some-file.txt",
    ]);
    let mut dupes = vec![dupe_file];
    let whitelist = vec![];
    let blacklist: Vec<&str> = vec![];

    keep_prefixed_file(path_prefix, &mut dupes, PathPrefixDupePreference::Plain, whitelist, blacklist);

    assert!(path_of(&dupes[0].file_paths[0]).starts_with(path_prefix));
}

#[test]
fn user_can_blacklist_paths() {
    let path_prefix = "bar/";
    let dupe_file = group(&[
        "foo/some-file.txt",
        "bar/.hidden-folder/some-file2.txt",
        "bar/some-file.txt",
        "bas/some-file.txt",
    ]);
    let mut dupes = vec![dupe_file];
    let test_path_component = ".hidden-folder";
    let whitelist = vec![];
    let blacklist: Vec<&str> = vec![test_path_component];

    keep_prefixed_file(path_prefix, &mut dupes, PathPrefixDupePreference::Plain, whitelist, blacklist);

    assert!(!path_contains_component(&dupes[0].file_paths[0], test_path_component));
}

#[test]
fn user_can_whitelist_paths() {
    let path_prefix = "bar/";
    let dupe_file = group(&[
        "foo/some-file.txt",
        "bar/.hidden-folder/some-file2.txt",
        "bar/1/some-file.txt",
        "bar/2/some-file.txt",
        "bas/some-file.txt",
    ]);
    let mut dupes = vec![dupe_file];
    let test_path_component = "2"; // This path would ordinarily sort after "1"
    let whitelist = vec![test_path_component];
    let blacklist: Vec<&str> = vec![];

    keep_prefixed_file(path_prefix, &mut dupes, PathPrefixDupePreference::Plain, whitelist, blacklist);

    assert!(path_contains_component(&dupes[0].file_paths[0], test_path_component));
}

#[test]
fn prefix_order_is_complete_and_stable() {
    let mut dupes = vec![group(&[
        "foo/x/some-file.txt",
        "bar/.hidden/a.txt",
        "keep/bar/b.txt",
        "bar/zz/c.txt",
        "bar/a/c.txt",
        "bar//a/c.txt",
        "other/c.txt",
    ])];
    keep_prefixed_file("bar", &mut dupes, PathPrefixDupePreference::Plain, vec!["keep"], vec![".hidden"]);
    assert_eq!(
        texts(&dupes[0]),
        vec![
            "keep/bar/b.txt",
            "bar/a/c.txt",
            "bar//a/c.txt",
            "bar/zz/c.txt",
            "foo/x/some-file.txt",
            "other/c.txt",
            "bar/.hidden/a.txt",
        ]
    );
}

#[test]
fn blacklist_wins_over_whitelist() {
    let mut dupes = vec![group(&["a/keep/secret/f", "b/f"])];
    keep_prefixed_file("a", &mut dupes, PathPrefixDupePreference::Plain, vec!["keep"], vec!["secret"]);
    assert_eq!(texts(&dupes[0]), vec!["b/f", "a/keep/secret/f"]);
}

#[test]
fn prefix_preference_with_length_tie_breaks() {
    let paths = ["p/long-directory/x.txt", "p/d/longer-name.txt", "p/d/x.txt", "q/x.txt"];
    let mut short = vec![group(&paths)];
    keep_prefixed_file("p", &mut short, PathPrefixDupePreference::Short, vec![], vec![]);
    assert_eq!(texts(&short[0]), vec!["p/d/x.txt", "p/d/longer-name.txt", "p/long-directory/x.txt", "q/x.txt"]);
    let mut long = vec![group(&paths)];
    keep_prefixed_file("p", &mut long, PathPrefixDupePreference::Long, vec![], vec![]);
    assert_eq!(texts(&long[0]), vec!["p/long-directory/x.txt", "p/d/longer-name.txt", "p/d/x.txt", "q/x.txt"]);
}

#[test]
fn shorter_and_longer_are_stable() {
    let paths = ["ab/cd", "xy/zw", "a/b", "abc/defg", "x/y"];
    let mut short = vec![group(&paths)];
    sort_dupes_by_shorter_length(&mut short);
    assert_eq!(texts(&short[0]), vec!["a/b", "x/y", "ab/cd", "xy/zw", "abc/defg"]);
    let mut long = vec![group(&paths)];
    sort_dupes_by_longer_length(&mut long);
    assert_eq!(texts(&long[0]), vec!["abc/defg", "ab/cd", "xy/zw", "a/b", "x/y"]);
}

#[test]
fn alphabetical_first_and_last() {
    let paths = ["b/a", "a/c", "a-b/c", "a/b/c", "a//c"];
    let mut first = vec![group(&paths), group(&["z", "y"])];
    sort_dupes_alphabetically(&mut first, PathPrefixAlphaPreference::First);
    assert_eq!(texts(&first[0]), vec!["a/b/c", "a/c", "a//c", "a-b/c", "b/a"]);
    assert_eq!(texts(&first[1]), vec!["y", "z"]);
    let mut last = vec![group(&paths)];
    sort_dupes_alphabetically(&mut last, PathPrefixAlphaPreference::Last);
    assert_eq!(texts(&last[0]), vec!["b/a", "a-b/c", "a/c", "a//c", "a/b/c"]);
}

#[test]
fn alphabetical_order_agrees_with_std_paths() {
    let paths = ["b/a", "a/c", "a-b/c", "a/b/c", "/z", "./a", "../a", "a/..", "", "a", "A/b", "a/b/"];
    let mut sorted = vec![group(&paths)];
    sort_dupes_alphabetically(&mut sorted, PathPrefixAlphaPreference::First);
    let mut expected: Vec<PathBuf> = paths.iter().map(PathBuf::from).collect();
    expected.sort_by(|a, b| a.cmp(b));
    let expected: Vec<String> = expected.iter().map(|p| p.to_str().unwrap().to_string()).collect();
    assert_eq!(texts(&sorted[0]), expected);
}

#[test]
fn only_groups_with_copies_are_dupes() {
    let files = vec![group(&["a", "b"]), group(&["c"]), group(&[]), group(&["d", "e", "f"])];
    let dupes = get_dupe_files(files);
    assert_eq!(dupes.len(), 2);
    assert_eq!(texts(&dupes[0]), vec!["a", "b"]);
    assert_eq!(texts(&dupes[1]), vec!["d", "e", "f"]);
}

#[test]
fn all_but_the_first_copy_are_deleted() {
    let f = group(&["keep", "x", "y"]);
    let gone: Vec<String> = paths_to_delete(&f).iter().map(|p| String::from_utf8(p.clone()).unwrap()).collect();
    assert_eq!(gone, vec!["x", "y"]);
    assert!(paths_to_delete(&group(&[])).is_empty());
    assert!(paths_to_delete(&group(&["only"])).is_empty());
}

#[test]
fn sorting_twice_changes_nothing_more() {
    let paths = ["q/a", "p/b/c", "p//b/c", "r", "p/a", "q/a"];
    let mut once = vec![group(&paths)];
    keep_prefixed_file("p", &mut once, PathPrefixDupePreference::Short, vec!["q"], vec!["b"]);
    let first = texts(&once[0]);
    keep_prefixed_file("p", &mut once, PathPrefixDupePreference::Short, vec!["q"], vec!["b"]);
    assert_eq!(texts(&once[0]), first);
    assert_eq!(first, vec!["q/a", "q/a", "p/a", "r", "p/b/c", "p//b/c"]);
}

#[test]
fn shortest_and_longest_paths_are_kept() {
    let mut short = vec![group(&["a/bbbbbb", "aa/b"])];
    sort_dupes_by_shorter_length(&mut short);
    assert_eq!(texts(&short[0]), vec!["aa/b", "a/bbbbbb"]);
    let mut long = vec![group(&["aaaa/b", "a/bbbbbbbb"])];
    sort_dupes_by_longer_length(&mut long);
    assert_eq!(texts(&long[0]), vec!["a/bbbbbbbb", "aaaa/b"]);
    let mut prefixed = vec![group(&["p/a/bbbbbb", "p/aa/b", "q"])];
    keep_prefixed_file("p", &mut prefixed, PathPrefixDupePreference::Short, vec![], vec![]);
    assert_eq!(texts(&prefixed[0]), vec!["p/aa/b", "p/a/bbbbbb", "q"]);
}

#[test]
fn longer_reverses_shorter_for_distinct_lengths() {
    let paths = ["abc/d", "a", "ab/cdef", "x/y"];
    let mut short = vec![group(&paths)];
    sort_dupes_by_shorter_length(&mut short);
    let mut long = vec![group(&paths)];
    sort_dupes_by_longer_length(&mut long);
    let mut reversed = texts(&short[0]);
    reversed.reverse();
    assert_eq!(texts(&long[0]), reversed);
}
