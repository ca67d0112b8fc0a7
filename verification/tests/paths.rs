use protov::bytes::{bytes_precede, copy_bytes, same_bytes};
use protov::order::{sort_descending, sorted_contains};
use protov::path::{Component, PathBuf};

fn path(text: &str) -> PathBuf {
    PathBuf::from_text(text)
}

fn joined(a: &str, b: &str) -> Vec<u8> {
    path(a).join(b.as_bytes()).bytes
}

fn names(text: &str) -> Vec<String> {
    path(text)
        .components()
        .iter()
        .map(|c| match c {
            Component::RootDir => "<root>".to_string(),
            Component::CurDir => "<here>".to_string(),
            Component::ParentDir => "<up>".to_string(),
            Component::Normal(name) => String::from_utf8(name.clone()).unwrap(),
        })
        .collect()
}

fn name(text: &str) -> Option<String> {
    path(text).file_name().map(|n| String::from_utf8(n).unwrap())
}

fn ext(text: &str) -> Option<String> {
    path(text).extension().map(|n| String::from_utf8(n).unwrap())
}

#[test]
fn joining_an_empty_path_ends_in_a_separator() {
    let joined = path("./vendor").join(b"");
    assert_eq!(joined.bytes, b"./vendor/");
}

#[test]
fn joining_puts_one_separator_between() {
    assert_eq!(joined("./vendor", "public"), b"./vendor/public");
    assert_eq!(joined("./vendor/", "public"), b"./vendor/public");
    assert_eq!(joined("", "public"), b"public");
    assert_eq!(joined(".", "a/b"), b"./a/b");
}

#[test]
fn joining_an_absolute_path_gives_that_path() {
    assert_eq!(joined("./vendor", "/etc"), b"/etc");
    assert!(path("/etc").is_absolute());
    assert!(!path("etc").is_absolute());
    assert!(!path("").is_absolute());
}

#[test]
fn components_leave_out_what_says_nothing() {
    assert_eq!(names("/usr//local/./lib/"), vec!["<root>", "usr", "local", "lib"]);
    assert_eq!(names("./a/../b"), vec!["<here>", "a", "<up>", "b"]);
    assert_eq!(names("a/./b"), vec!["a", "b"]);
    assert_eq!(names(""), Vec::<String>::new());
    assert_eq!(names("."), vec!["<here>"]);
    assert_eq!(names("/."), vec!["<root>"]);
    assert_eq!(path("./a/../b").component_count(), 4);
}

#[test]
fn skipping_components_gives_the_relative_path() {
    assert_eq!(path("/src/tree/a/b").skip_components(3).bytes, b"a/b");
    assert_eq!(path("/src").skip_components(2).bytes, b"");
    assert_eq!(path("/src").skip_components(9).bytes, b"");
    assert_eq!(path("./a/./b//c").skip_components(1).bytes, b"a/b/c");
    assert_eq!(path("/a").skip_components(0).bytes, b"/a");
}

#[test]
fn the_file_name_is_the_last_plain_component() {
    assert_eq!(name("a/b.proto"), Some("b.proto".to_string()));
    assert_eq!(name("a/b/"), Some("b".to_string()));
    assert_eq!(name("a/b/."), Some("b".to_string()));
    assert_eq!(name("a/.."), None);
    assert_eq!(name("/"), None);
    assert_eq!(name("."), None);
    assert_eq!(name(""), None);
}

#[test]
fn the_extension_is_what_follows_the_last_dot() {
    assert_eq!(ext("a/b.proto"), Some("proto".to_string()));
    assert_eq!(ext("a.tar.gz"), Some("gz".to_string()));
    assert_eq!(ext("a."), Some("".to_string()));
    assert_eq!(ext(".proto"), None);
    assert_eq!(ext("proto"), None);
    assert_eq!(ext("a.proto/.."), None);
}

#[test]
fn paths_are_equal_by_their_components() {
    assert!(path("a/b/").same(&path("a//./b")));
    assert!(path("a/b") == path("a/b/."));
    assert!(!path("a/b").same(&path("./a/b")));
    assert!(!path("a/b").same(&path("/a/b")));
    assert!(!path("ab").same(&path("a/b")));
}

#[test]
fn paths_are_ordered_by_their_components() {
    assert!(path("a").precedes(&path("a/b")));
    assert!(path("a/z").precedes(&path("a-b")));
    assert!(!path("a/b").precedes(&path("a/b/")));
    assert!(path("/z").precedes(&path("./a")));
    assert!(path("./z").precedes(&path("../a")));
    assert!(path("../z").precedes(&path("a")));
}

#[test]
fn sorting_puts_later_paths_first_and_keeps_spellings() {
    let sorted = sort_descending(vec![path("a"), path("a/b/c"), path("b"), path("a/b"), path("b/")]);
    let texts: Vec<Vec<u8>> = sorted.iter().map(|p| p.bytes.clone()).collect();
    assert_eq!(
        texts,
        vec![
            b"b".to_vec(),
            b"b/".to_vec(),
            b"a/b/c".to_vec(),
            b"a/b".to_vec(),
            b"a".to_vec(),
        ]
    );
    assert!(sorted_contains(&sorted, &path("a/./b")));
    assert!(!sorted_contains(&sorted, &path("a/c")));
    assert!(!sorted_contains(&Vec::new(), &path("a")));
    assert!(sort_descending(Vec::new()).is_empty());
}

#[test]
fn bytes_are_ordered_like_a_dictionary() {
    assert!(bytes_precede(b"a", b"ab"));
    assert!(bytes_precede(b"ab", b"b"));
    assert!(!bytes_precede(b"b", b"b"));
    assert!(bytes_precede(b"a", b"\xff"));
    assert!(same_bytes(b"ab", b"ab"));
    assert!(!same_bytes(b"ab", b"a"));
    assert_eq!(copy_bytes(b"ab"), b"ab");
}

#[test]
fn copies_of_paths_are_the_same_bytes() {
    let odd = PathBuf { bytes: vec![0x61, 0xff, 0x2f] };
    assert_eq!(odd.clone().bytes, odd.bytes);
}
