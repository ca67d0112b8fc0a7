use protov::actions::{BuildActions, TargetBuildActions, BUILD_OUTPUTS_PATH};
use protov::config::{CompileTarget, Config, LocalSource, RemoteSource, Source};
use protov::home::expand_path;
use protov::index::{CacheEntry, CacheIndex};
use protov::path::PathBuf;
use protov::stat::{copy_paths, target_stat_diff, Stat};

fn path(text: &str) -> PathBuf {
    PathBuf::from_text(text)
}

fn paths(texts: &[&str]) -> Vec<PathBuf> {
    texts.iter().map(|t| path(t)).collect()
}

fn texts(paths: &[PathBuf]) -> Vec<String> {
    paths
        .iter()
        .map(|p| String::from_utf8(p.bytes.clone()).unwrap())
        .collect()
}

fn stat(dirs: &[&str], files: &[&str]) -> Stat {
    Stat { dirs: paths(dirs), files: paths(files) }
}

fn target(out: &str) -> CompileTarget {
    CompileTarget {
        out_path: path(out),
        out_gen_path: path("buf.gen.yaml"),
        sources: Vec::new(),
    }
}

fn local(at: &str, name: &str) -> Source {
    Source::Local(LocalSource { path: at.to_string(), name: name.to_string() })
}

fn remote(tag: &str) -> Source {
    Source::Remote(RemoteSource {
        url: "https://github.com/org/public".to_string(),
        tag: tag.to_string(),
        path: "protos".to_string(),
        name: "public".to_string(),
    })
}

#[test]
fn a_source_is_known_by_its_name() {
    assert_eq!(local("~/org/monorepo/protos", "monorepo").name(), "monorepo");
    assert_eq!(remote("v1.2.3").name(), "public");
}

#[test]
fn sources_are_equal_by_everything_they_say() {
    assert!(remote("v1.2.3") == remote("v1.2.3").clone());
    assert!(remote("v1.2.3") != remote("v1.2.4"));
    assert!(local("a", "public") != remote("v1.2.3"));
    assert!(local("a", "x") != local("b", "x"));
    assert!(local("a", "x") == local("a", "x").clone());
}

#[test]
fn configurations_are_equal_by_what_they_hold() {
    let one = Config {
        sources: vec![remote("v1.2.3"), local("~/org/monorepo/protos", "monorepo")],
        templates: vec![],
        targets: vec![target("./go")],
    };
    let other = Config {
        sources: vec![remote("v1.2.3"), local("~/org/monorepo/protos", "monorepo")],
        templates: vec![],
        targets: vec![target("./go/")],
    };
    assert!(one == other);
    assert!(one != Config { sources: vec![], templates: vec![], targets: vec![] });
}

/// Variables out of their names and values.
fn vars(all: &[(&str, &str)]) -> Vec<(String, String)> {
    all.iter().map(|(name, value)| (name.to_string(), value.to_string())).collect()
}

#[test]
fn the_tilde_stands_for_the_home_directory() {
    let home = Some("/home/ann".to_string());
    let none = vars(&[]);
    assert_eq!(expand_path("~/org/protos", &home, &none), "/home/ann/org/protos");
    assert_eq!(expand_path("~/", &home, &none), "/home/ann/");
    assert_eq!(expand_path("~/a~b", &home, &none), "/home/ann/a~b");
    assert_eq!(expand_path("~", &home, &none), "~");
    assert_eq!(expand_path("~ann/org", &home, &none), "~ann/org");
    assert_eq!(expand_path("/abs/~/x", &home, &none), "/abs/~/x");
    assert_eq!(expand_path("", &home, &none), "");
    assert_eq!(expand_path("~/org", &None, &none), "~/org");
}

#[test]
fn a_reference_stands_for_the_value_of_the_variable() {
    let set = vars(&[("FOO", "bar"), ("ORG", "/srv/org"), ("EMPTY", ""), ("_a1", "x")]);
    assert_eq!(expand_path("$FOO/x", &None, &set), "bar/x");
    assert_eq!(expand_path("$FOO", &None, &set), "bar");
    assert_eq!(expand_path("$ORG/$FOO/protos", &None, &set), "/srv/org/bar/protos");
    assert_eq!(expand_path("a$FOO-b", &None, &set), "abar-b");
    assert_eq!(expand_path("$FOO$FOO", &None, &set), "barbar");
    assert_eq!(expand_path("/p$EMPTY/q", &None, &set), "/p/q");
    assert_eq!(expand_path("$_a1.d", &None, &set), "x.d");
    assert_eq!(expand_path("d\u{e9}p\u{f4}t/$FOO", &None, &set), "d\u{e9}p\u{f4}t/bar");
}

#[test]
fn what_is_no_reference_stays_as_written() {
    let set = vars(&[("FOO", "bar")]);
    assert_eq!(expand_path("$BAR/x", &None, &set), "$BAR/x");
    assert_eq!(expand_path("$FOOL/x", &None, &set), "$FOOL/x");
    assert_eq!(expand_path("$foo", &None, &set), "$foo");
    assert_eq!(expand_path("$", &None, &set), "$");
    assert_eq!(expand_path("a$/b", &None, &set), "a$/b");
    assert_eq!(expand_path("$$FOO", &None, &set), "$bar");
    assert_eq!(expand_path("FOO/x", &None, &set), "FOO/x");
    assert_eq!(expand_path("$", &None, &vars(&[("", "nothing")])), "$");
}

#[test]
fn a_value_is_not_looked_at_again() {
    let home = Some("/home/$FOO".to_string());
    let set = vars(&[("FOO", "$BAR"), ("BAR", "baz"), ("TILDE", "~")]);
    assert_eq!(expand_path("$FOO/x", &home, &set), "$BAR/x");
    assert_eq!(expand_path("$TILDE/x", &home, &set), "~/x");
    assert_eq!(expand_path("~/$BAR", &home, &set), "/home/$FOO/baz");
    assert_eq!(expand_path("$A", &None, &vars(&[("A", "1"), ("A", "2")])), "1");
}

#[test]
fn expanding_a_path_again_changes_nothing() {
    let home = Some("/home/ann".to_string());
    let set = vars(&[("FOO", "bar")]);
    let once = expand_path("~/org/$FOO", &home, &set);
    assert_eq!(once, "/home/ann/org/bar");
    assert_eq!(expand_path(&once, &home, &set), once);
    let tilde = Some("~".to_string());
    let kept = expand_path("~/org", &tilde, &set);
    assert_eq!(kept, "~/org");
    assert_eq!(expand_path(&kept, &tilde, &set), kept);
}

#[test]
fn the_first_entry_of_a_source_is_found() {
    let index = CacheIndex {
        entries: vec![
            CacheEntry { path: path("/c/1"), source: remote("v1") },
            CacheEntry { path: path("/c/2"), source: remote("v2") },
            CacheEntry { path: path("/c/3"), source: remote("v1") },
        ],
    };
    assert_eq!(index.lookup_cached_source(&remote("v1")).unwrap().path.bytes, b"/c/1");
    assert_eq!(index.lookup_cached_source(&remote("v2")).unwrap().path.bytes, b"/c/2");
    assert!(index.lookup_cached_source(&remote("v3")).is_none());
    assert!(index.clone().lookup_cached_source(&remote("v2")).is_some());
    assert!(CacheIndex::default().lookup_cached_source(&remote("v1")).is_none());
}

#[test]
fn an_entry_is_found_once_it_is_there() {
    let mut index = CacheIndex::default();
    index.entries.push(CacheEntry { path: path("/c/1"), source: remote("v1") });
    assert!(index.lookup_cached_source(&remote("v2")).is_none());
    index.entries.push(CacheEntry { path: path("/c/2"), source: remote("v2") });
    assert_eq!(index.lookup_cached_source(&remote("v2")).unwrap().path.bytes, b"/c/2");
    assert_eq!(index.lookup_cached_source(&remote("v1")).unwrap().path.bytes, b"/c/1");
}

#[test]
fn the_difference_is_what_came_to_be_in_between() {
    let before = stat(&["go", "go/old"], &["go/a.go", "go/old/b.go"]);
    let after = stat(&["go/new", "go/old", "go/new/deep"], &["go/new/c.go", "go/a.go", "go/a.txt"]);
    let diff = target_stat_diff(&before, &after);
    assert_eq!(texts(&diff.dirs), vec!["go/new", "go/new/deep"]);
    assert_eq!(texts(&diff.files), vec!["go/new/c.go", "go/a.txt"]);
}

#[test]
fn the_difference_goes_by_components_and_keeps_repeats() {
    let before = stat(&["./go/x"], &[]);
    let after = stat(&["./go//x/", "go/x"], &["f", "f"]);
    let diff = target_stat_diff(&before, &after);
    assert_eq!(texts(&diff.dirs), vec!["go/x"]);
    assert_eq!(texts(&diff.files), vec!["f", "f"]);
}

#[test]
fn a_directory_that_did_not_change_has_an_empty_difference() {
    let once = stat(&["go/x"], &["go/x/a", "go/b"]);
    let diff = target_stat_diff(&once, &once.clone());
    assert!(diff.dirs.is_empty() && diff.files.is_empty());
    let none = target_stat_diff(&once, &Stat::default());
    assert!(none.dirs.is_empty() && none.files.is_empty());
}

#[test]
fn a_copied_list_has_the_same_paths() {
    assert_eq!(texts(&copy_paths(&paths(&["b", "a", "b"]))), vec!["b", "a", "b"]);
}

#[test]
fn the_record_of_a_target_is_found() {
    let mut actions = BuildActions::default();
    assert!(actions.find_target(&path("./go")).is_none());
    actions.set_target(&target("./go"), stat(&[], &["./go/a"]));
    actions.set_target(&target("./ts"), stat(&[], &["./ts/a"]));
    let found = actions.find_target(&path("./go/")).unwrap();
    assert_eq!(texts(&found.diff.files), vec!["./go/a"]);
    assert!(actions.find_target(&path("go")).is_none());
}

#[test]
fn a_new_record_takes_the_place_of_the_old() {
    let mut actions = BuildActions {
        diffs: vec![
            TargetBuildActions { target: path("go"), diff: stat(&[], &["go/1"]) },
            TargetBuildActions { target: path("ts"), diff: stat(&[], &["ts/1"]) },
        ],
    };
    actions.set_target(&target("go/"), stat(&["go/d"], &[]));
    assert_eq!(actions.diffs.len(), 2);
    assert_eq!(actions.diffs[0].target.bytes, b"go/");
    assert_eq!(texts(&actions.diffs[0].diff.dirs), vec!["go/d"]);
    assert!(actions.diffs[0].diff.files.is_empty());
    assert_eq!(texts(&actions.diffs[1].diff.files), vec!["ts/1"]);
    actions.set_target(&target("go"), stat(&[], &["go/3"]));
    assert_eq!(actions.diffs.len(), 2);
    assert_eq!(texts(&actions.clone().diffs[0].diff.files), vec!["go/3"]);
}

#[test]
fn the_record_is_kept_beside_the_configuration() {
    assert_eq!(BUILD_OUTPUTS_PATH, "./protov-build-outputs.json");
}
