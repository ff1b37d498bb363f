use std::path::Path;

use filelist::path::{compare_components, components_of, path_extension, path_file_name, Order};
use filelist::text::{chars_of, contains, ends_with};

const SAMPLES: &[&str] = &[
    "",
    ".",
    "..",
    "/",
    "//",
    "./",
    "./a",
    "a",
    "a.txt",
    ".bashrc",
    ".a.b",
    "a.",
    "a..b",
    "/home/user/movie.mkv",
    "/home/user/archive.tar.gz",
    "/home/user/dir/",
    "/home/user/dir/.",
    "/home/user/file.txt/.",
    "/home/user/..",
    "a//b",
    "a/./b",
    "a b/f",
    "a/f",
    "a-b/f",
    "../up/x.png",
    "x/.hidden.png",
    "Ünïcødé/Фото.JPG",
    "/tmp/a/b/c.d/e",
];

fn std_order(a: &str, b: &str) -> Order {
    match Path::new(a).cmp(Path::new(b)) {
        std::cmp::Ordering::Less => Order::Less,
        std::cmp::Ordering::Equal => Order::Equal,
        std::cmp::Ordering::Greater => Order::Greater,
    }
}

fn our_order(a: &str, b: &str) -> Order {
    let ka = components_of(&chars_of(a));
    let kb = components_of(&chars_of(b));
    compare_components(&ka, &kb)
}

#[test]
fn extension_agrees_with_std() {
    for p in SAMPLES {
        let expected = Path::new(p).extension().map(|e| e.to_string_lossy().into_owned());
        assert_eq!(path_extension(p), expected, "extension of {:?}", p);
    }
}

#[test]
fn file_name_agrees_with_std() {
    for p in SAMPLES {
        let expected = Path::new(p).file_name().map(|e| e.to_string_lossy().into_owned());
        assert_eq!(path_file_name(p), expected, "file name of {:?}", p);
    }
}

#[test]
fn order_agrees_with_std() {
    for a in SAMPLES {
        for b in SAMPLES {
            assert_eq!(our_order(a, b), std_order(a, b), "order of {:?} and {:?}", a, b);
        }
    }
}

#[test]
fn extension_examples() {
    assert_eq!(path_extension("/a/b.txt"), Some("txt".to_string()));
    assert_eq!(path_extension("/a/x.tar.gz"), Some("gz".to_string()));
    assert_eq!(path_extension("/a/.bashrc"), None);
    assert_eq!(path_extension("/a/noext"), None);
    assert_eq!(path_extension("/a/y."), Some("".to_string()));
    assert_eq!(path_extension("/a/z.txt/.."), None);
}

#[test]
fn order_by_components_not_bytes() {
    // "a b" sorts after "a" as a component, though ' ' sorts before '/'.
    assert_eq!(our_order("a/f", "a b/f"), Order::Less);
    assert_eq!(our_order("a//b", "a/./b"), Order::Equal);
    assert_eq!(our_order("/x", "x"), Order::Less);
    assert_eq!(our_order("./x", "x"), Order::Less);
    assert_eq!(our_order("../x", "x"), Order::Less);
    assert_eq!(our_order("a", "a/b"), Order::Less);
}

#[test]
fn ends_with_and_contains() {
    assert!(ends_with("mkv", "mkv"));
    assert!(ends_with("xmkv", "mkv"));
    assert!(!ends_with("mk", "mkv"));
    assert!(ends_with("anything", ""));
    assert!(contains("holiday", "lid"));
    assert!(contains("holiday", ""));
    assert!(!contains("holiday", "xyz"));
    assert!(!contains("ab", "abc"));
}
