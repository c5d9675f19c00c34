use ddh_move::dupes::{path_filename_len, path_parent_len, pathbuf_len_sort};
use ddh_move::ordering::Comparison;
use ddh_move::path::{compare_paths, components_of, has_component, starts_with, PathComponent};
use ddh_move::sorting::SortOrder;
use std::cmp::Ordering;
use std::path::{Component, Path};

const SAMPLES: [&str; 40] = [
    "", "/", "//", "///a", ".", "..", "./", "./.", "./a", ".//a", "./..", "../a", "a/..", "a", "a/", "a//",
    "a/.", "a/./", "a/./b", "a//b", "a/b/", "/a", "/a/", "/a/b", "/./a", "/..", "/.", ".a", ".a/b", "a.", "...",
    "a/.../b", "foo/some-file.txt", "bar/.hidden-folder/some-file2.txt", "bar/", "a/b/c/d.txt", "ü/é.txt",
    "x/./y/../z", "//a//b//", "./a/b/",
];

fn std_components(p: &str) -> Vec<String> {
    Path::new(p)
        .components()
        .map(|c| match c {
            Component::RootDir => "<root>".to_string(),
            Component::CurDir => "<cur>".to_string(),
            Component::ParentDir => "<parent>".to_string(),
            Component::Normal(n) => n.to_str().unwrap().to_string(),
            Component::Prefix(_) => "<prefix>".to_string(),
        })
        .collect()
}

fn our_components(p: &str) -> Vec<String> {
    components_of(p.as_bytes())
        .iter()
        .map(|c| match c {
            PathComponent::RootDir => "<root>".to_string(),
            PathComponent::CurDir => "<cur>".to_string(),
            PathComponent::ParentDir => "<parent>".to_string(),
            PathComponent::Normal(n) => String::from_utf8(n.clone()).unwrap(),
        })
        .collect()
}

fn as_ordering(c: Comparison) -> Ordering {
    match c {
        Comparison::Less => Ordering::Less,
        Comparison::Equal => Ordering::Equal,
        Comparison::Greater => Ordering::Greater,
    }
}

#[test]
fn components_agree_with_std_paths() {
    for p in SAMPLES {
        assert_eq!(our_components(p), std_components(p), "{:?}", p);
    }
}

#[test]
fn parent_and_file_name_lengths_agree_with_std_paths() {
    for p in SAMPLES {
        let bytes = p.as_bytes().to_vec();
        let parent = Path::new(p).parent().map(|q| q.to_str().unwrap().len()).unwrap_or(0);
        let name = Path::new(p).file_name().map(|n| n.len()).unwrap_or(0);
        assert_eq!(path_parent_len(&bytes), parent, "parent of {:?}", p);
        assert_eq!(path_filename_len(&bytes), name, "file name of {:?}", p);
    }
}

#[test]
fn order_and_prefix_agree_with_std_paths() {
    for a in SAMPLES {
        for b in SAMPLES {
            let ours = as_ordering(compare_paths(a.as_bytes(), b.as_bytes()));
            assert_eq!(ours, Path::new(a).cmp(Path::new(b)), "{:?} vs {:?}", a, b);
            assert_eq!(starts_with(a.as_bytes(), b.as_bytes()), Path::new(a).starts_with(b), "{:?} starts with {:?}", a, b);
        }
    }
}

#[test]
fn components_are_matched_whole() {
    let p = "foo/bar.d/./baz/..";
    assert!(has_component(p.as_bytes(), b"foo"));
    assert!(has_component(p.as_bytes(), b"bar.d"));
    assert!(has_component(p.as_bytes(), b"baz"));
    assert!(!has_component(p.as_bytes(), b"bar"));
    assert!(!has_component(p.as_bytes(), b"."));
    assert!(!has_component(p.as_bytes(), b".."));
    assert!(!has_component(p.as_bytes(), b""));
}

#[test]
fn length_order_compares_whole_paths() {
    let a = b"dir/file.txt".to_vec();
    let b = b"longdir/f".to_vec();
    let c = b"dir/other.txt".to_vec();
    assert_eq!(path_parent_len(&a), 3);
    assert_eq!(path_filename_len(&a), 8);
    assert_eq!(pathbuf_len_sort(&a, &b, SortOrder::Ascending), Comparison::Greater);
    assert_eq!(pathbuf_len_sort(&a, &b, SortOrder::Descending), Comparison::Less);
    assert_eq!(pathbuf_len_sort(&a, &c, SortOrder::Ascending), Comparison::Less);
    assert_eq!(pathbuf_len_sort(&c, &a, SortOrder::Descending), Comparison::Less);
    assert_eq!(pathbuf_len_sort(&a, &a, SortOrder::Ascending), Comparison::Equal);
}

#[test]
fn parent_names_all_components_but_the_last() {
    for p in SAMPLES {
        let comps = our_components(p);
        if comps.is_empty() {
            continue;
        }
        let parent = &p.as_bytes()[..path_parent_len(&p.as_bytes().to_vec())];
        let parent_comps = our_components(std::str::from_utf8(parent).unwrap());
        assert_eq!(parent_comps, comps[..comps.len() - 1].to_vec(), "{:?}", p);
    }
}
