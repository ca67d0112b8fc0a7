use protov::actions::{BuildActions, TargetBuildActions};
use protov::cache::{cache, cache_in, CacheOutcome};
use protov::config::{CompileTarget, Config, LocalSource, RemoteSource, Source, Template};
use protov::checkout::CheckoutError;
use protov::command::CheckoutStage;
use protov::copy::{CopyError, CopyOutcome};
use protov::home::Environment;
use protov::index::{CacheEntry, CacheIndex};
use protov::path::PathBuf;
use protov::protocol::{Reply, Request, Turn};
use protov::stat::Stat;
use protov::targets::{build_targets, clean_targets, TargetsError, TargetsOutcome};
use protov::templates::{create_targets_from_templates, TemplatesOutcome};
use protov::vendor::{
    clean_vendor, populate_vendor, CleanVendorOutcome, PopulateOutcome, VendorReport,
};
use protov::walk::StatError;

fn path(text: &str) -> PathBuf {
    PathBuf::from_text(text)
}

fn text(path: &PathBuf) -> String {
    String::from_utf8(path.bytes.clone()).unwrap()
}

fn show(request: &Request) -> String {
    match request {
        Request::CreateDir(p) => format!("make-one {}", text(p)),
        Request::CreateDirAll(p) => format!("make {}", text(p)),
        Request::IsDir(p) => format!("is-dir {}", text(p)),
        Request::Exists(p) => format!("exists {}", text(p)),
        Request::OpenDir(p) => format!("open {}", text(p)),
        Request::NextEntry => "next".to_string(),
        Request::IsEmptyDir(p) => format!("is-empty {}", text(p)),
        Request::RemoveFile(p) => format!("remove-file {}", text(p)),
        Request::RemoveDir(p) => format!("remove-dir {}", text(p)),
        Request::RemoveDirAll(p) => format!("remove-all {}", text(p)),
        Request::CopyFile { src, dst } => format!("copy {} {}", text(src), text(dst)),
        Request::Run(command) => {
            let mut all = vec![command.program.clone()];
            for arg in &command.args {
                all.push(String::from_utf8(arg.clone()).unwrap());
            }
            format!("run {} in {}", all.join(" "), text(&command.dir))
        }
        Request::FreshName => "name".to_string(),
        Request::ReadCacheIndex(p) => format!("read-index {}", text(p)),
        Request::WriteCacheIndex { path, index } => {
            format!("write-index {} {}", text(path), index.entries.len())
        }
        Request::ReadBuildActions(p) => format!("read-record {}", text(p)),
        Request::WriteBuildActions { path, actions } => {
            let records: Vec<String> = actions
                .diffs
                .iter()
                .map(|d| {
                    format!("{}:{}+{}", text(&d.target), d.diff.dirs.len(), d.diff.files.len())
                })
                .collect();
            format!("write-record {} {}", text(path), records.join(","))
        }
    }
}

fn remote(name: &str, at: &str) -> Source {
    Source::Remote(RemoteSource {
        url: "https://github.com/org/public".to_string(),
        tag: "v1.2.3".to_string(),
        path: at.to_string(),
        name: name.to_string(),
    })
}

fn local(name: &str, at: &str) -> Source {
    Source::Local(LocalSource { path: at.to_string(), name: name.to_string() })
}

fn target(out: &str, sources: &[&str]) -> CompileTarget {
    CompileTarget {
        out_path: path(out),
        out_gen_path: path("buf.gen.yaml"),
        sources: sources.iter().map(|s| s.to_string()).collect(),
    }
}

fn config(sources: Vec<Source>, targets: Vec<CompileTarget>) -> Config {
    Config { sources, templates: vec![], targets }
}

fn record(out: &str, dirs: &[&str], files: &[&str]) -> TargetBuildActions {
    TargetBuildActions {
        target: path(out),
        diff: Stat {
            dirs: dirs.iter().map(|t| path(t)).collect(),
            files: files.iter().map(|t| path(t)).collect(),
        },
    }
}

fn entry(at: &str, is_dir: bool) -> Reply {
    Reply::Entry { path: path(at), is_dir }
}

fn ok() -> Reply {
    Reply::Exited { success: true }
}

fn environment(home: Option<String>, vars: &[(&str, &str)]) -> Environment {
    let vars = vars.iter().map(|(name, value)| (name.to_string(), value.to_string())).collect();
    Environment { home, vars }
}

fn run_cache(config: &Config, home: Option<String>, replies: Vec<Reply>) -> (Vec<String>, CacheOutcome) {
    let mut seen = Vec::new();
    let env = environment(home, &[("ORG", "/srv/org")]);
    let mut turn = cache_in(config, &env, Some(path("/c")));
    for reply in replies {
        turn = match turn {
            Turn::Ask(run, request) => {
                seen.push(show(&request));
                run.step(reply)
            }
            Turn::End(_) => panic!("it has ended"),
        };
    }
    match turn {
        Turn::Ask(_, request) => panic!("{:?}", request),
        Turn::End(outcome) => (seen, outcome),
    }
}

fn run_targets(config: &Config, building: bool, replies: Vec<Reply>) -> (Vec<String>, TargetsOutcome) {
    let mut seen = Vec::new();
    let mut turn = if building { build_targets(config) } else { clean_targets(config) };
    for reply in replies {
        turn = match turn {
            Turn::Ask(run, request) => {
                seen.push(show(&request));
                run.step(reply)
            }
            Turn::End(_) => panic!("it has ended"),
        };
    }
    match turn {
        Turn::Ask(_, request) => panic!("{:?}", request),
        Turn::End(outcome) => (seen, outcome),
    }
}

#[test]
fn a_source_that_is_not_in_the_cache_is_cloned() {
    let config = config(vec![remote("public", "")], vec![]);
    let (seen, outcome) = run_cache(
        &config,
        None,
        vec![
            Reply::Done,
            Reply::Failed,
            Reply::Name("x".to_string()),
            ok(),
            ok(),
            Reply::Done,
        ],
    );
    assert_eq!(
        seen,
        vec![
            "make /c/protov",
            "read-index /c/protov/cache.json",
            "name",
            "run git clone -n --depth=1 --branch v1.2.3 https://github.com/org/public x in /c/protov",
            "run git checkout v1.2.3 in /c/protov/x",
            "write-index /c/protov/cache.json 1",
        ]
    );
    match outcome {
        CacheOutcome::Cached { index, .. } => {
            assert_eq!(index.entries.len(), 1);
            assert_eq!(text(&index.entries[0].path), "/c/protov/x");
            assert!(index.entries[0].source == remote("public", ""));
        }
        other => panic!("{:?}", other),
    }
}

#[test]
fn a_full_cache_is_left_alone() {
    let config = config(vec![remote("public", "protos")], vec![]);
    let index = CacheIndex {
        entries: vec![CacheEntry { path: path("/c/protov/y"), source: remote("public", "protos") }],
    };
    let (seen, outcome) =
        run_cache(&config, None, vec![Reply::Failed, Reply::CacheIndex(index), Reply::Failed]);
    assert_eq!(
        seen,
        vec![
            "make /c/protov",
            "read-index /c/protov/cache.json",
            "write-index /c/protov/cache.json 1",
        ]
    );
    assert!(matches!(outcome, CacheOutcome::Cached { index, .. } if index.entries.len() == 1));
}

#[test]
fn a_source_that_cannot_be_cloned_is_passed_over() {
    let config = config(vec![remote("a", ""), remote("b", "")], vec![]);
    let (seen, outcome) = run_cache(
        &config,
        None,
        vec![
            Reply::Done,
            Reply::Failed,
            Reply::Name("x".to_string()),
            Reply::Exited { success: false },
            Reply::Name("y".to_string()),
            ok(),
            ok(),
            Reply::Done,
        ],
    );
    assert_eq!(seen.last().unwrap(), "write-index /c/protov/cache.json 1");
    match outcome {
        CacheOutcome::Cached { index, failures } => {
            assert!(index.entries[0].source == remote("b", ""));
            assert!(index.lookup_cached_source(&remote("a", "")).is_none());
            assert_eq!(failures.len(), 1);
            assert_eq!(failures[0].source.name, "a");
            assert!(matches!(
                failures[0].error,
                CheckoutError::Unsuccessful(CheckoutStage::Clone)
            ));
        }
        other => panic!("{:?}", other),
    }
}

#[test]
fn every_source_is_in_the_index_or_among_the_failures() {
    let config = config(vec![remote("a", ""), remote("b", ""), local("l", "/org")], vec![]);
    let (_, outcome) = run_cache(
        &config,
        None,
        vec![
            Reply::Done,
            Reply::Failed,
            Reply::Failed,
            Reply::Name("y".to_string()),
            Reply::Failed,
            Reply::Failed,
        ],
    );
    match outcome {
        CacheOutcome::CannotList { dir, failures } => {
            assert_eq!(text(&dir), "/org");
            let names: Vec<&str> = failures.iter().map(|f| f.source.name.as_str()).collect();
            assert_eq!(names, vec!["a", "b"]);
            assert!(matches!(failures[0].error, CheckoutError::Unnamed));
            assert!(matches!(
                failures[1].error,
                CheckoutError::NotStarted(CheckoutStage::Clone)
            ));
        }
        other => panic!("{:?}", other),
    }
}

#[test]
fn new_entries_are_in_the_order_of_the_configuration() {
    let config = config(vec![remote("b", ""), remote("a", ""), remote("b", "")], vec![]);
    let old = CacheIndex {
        entries: vec![
            CacheEntry { path: path("/c/1"), source: remote("z", "") },
            CacheEntry { path: path("/c/2"), source: remote("z", "") },
        ],
    };
    let (_, outcome) = run_cache(
        &config,
        None,
        vec![
            Reply::Done,
            Reply::CacheIndex(old),
            Reply::Name("x".to_string()),
            ok(),
            ok(),
            Reply::Name("y".to_string()),
            ok(),
            ok(),
            Reply::Done,
        ],
    );
    match outcome {
        CacheOutcome::Cached { index, failures } => {
            let names: Vec<&str> = index.entries.iter().map(|e| e.source.name()).collect();
            assert_eq!(names, vec!["z", "z", "b", "a"]);
            assert!(failures.is_empty());
        }
        other => panic!("{:?}", other),
    }
}

#[test]
fn old_entries_of_the_cache_stay() {
    let config = config(vec![remote("a", "")], vec![]);
    let old = CacheIndex {
        entries: vec![CacheEntry { path: path("/c/protov/old"), source: remote("gone", "") }],
    };
    let (_, outcome) = run_cache(
        &config,
        None,
        vec![
            Reply::Done,
            Reply::CacheIndex(old),
            Reply::Name("x".to_string()),
            ok(),
            ok(),
            Reply::Done,
        ],
    );
    match outcome {
        CacheOutcome::Cached { index, .. } => {
            assert_eq!(index.entries.len(), 2);
            assert_eq!(text(&index.entries[0].path), "/c/protov/old");
            assert_eq!(text(&index.entries[1].path), "/c/protov/x");
        }
        other => panic!("{:?}", other),
    }
}

#[test]
fn a_local_source_may_name_a_variable() {
    let sources = vec![local("monorepo", "$ORG/protos"), local("unknown", "/x/$GONE")];
    let config = config(sources, vec![]);
    let (seen, outcome) = run_cache(
        &config,
        None,
        vec![
            Reply::Done,
            Reply::Failed,
            Reply::Exited { success: true },
            Reply::Exited { success: true },
            Reply::Done,
        ],
    );
    assert_eq!(seen[2], "run ls in /srv/org/protos");
    assert_eq!(seen[3], "run ls in /x/$GONE");
    assert!(matches!(outcome, CacheOutcome::Cached { index, .. } if index.entries.is_empty()));

    let env = environment(None, &[("ORG", "/srv/org")]);
    let index = CacheIndex { entries: vec![] };
    match populate_vendor(&config, &env, index) {
        Turn::Ask(_, request) => assert_eq!(show(&request), "is-dir /srv/org/protos"),
        other => panic!("{:?}", other),
    }
}

#[test]
fn local_sources_are_listed_and_not_cached() {
    let config = config(vec![local("monorepo", "~/org")], vec![]);
    let (seen, outcome) = run_cache(
        &config,
        Some("/home/ann".to_string()),
        vec![Reply::Done, Reply::Failed, Reply::Exited { success: false }, Reply::Done],
    );
    assert_eq!(seen[2], "run ls in /home/ann/org");
    assert!(matches!(outcome, CacheOutcome::Cached { index, .. } if index.entries.is_empty()));
}

#[test]
fn a_local_source_that_cannot_be_listed_ends_it() {
    let config = config(vec![local("monorepo", "/org")], vec![]);
    let (_, outcome) = run_cache(&config, None, vec![Reply::Done, Reply::Failed, Reply::Failed]);
    assert!(matches!(outcome, CacheOutcome::CannotList { dir, .. } if text(&dir) == "/org"));
}

#[test]
fn without_a_cache_directory_there_is_no_cache() {
    let config = config(vec![], vec![]);
    assert!(matches!(
        cache_in(&config, &environment(None, &[]), None),
        Turn::End(CacheOutcome::NoCacheDir)
    ));
}

#[test]
fn the_users_cache_is_where_caches_are() {
    let config = config(vec![], vec![]);
    let env = environment(None, &[]);
    match (cache(&config, &env), dirs::cache_dir()) {
        (Turn::Ask(_, Request::CreateDirAll(root)), Some(dir)) => {
            assert_eq!(text(&root), dir.join("protov").to_str().unwrap());
        }
        (Turn::End(CacheOutcome::NoCacheDir), None) => {}
        (other, dir) => panic!("{:?} {:?}", other, dir),
    }
}

#[test]
fn the_vendor_directory_is_made_anew() {
    let (run, first) = match clean_vendor() {
        Turn::Ask(run, request) => (run, show(&request)),
        other => panic!("{:?}", other),
    };
    assert_eq!(first, "remove-all ./vendor");
    let (run, second) = match run.step(Reply::Done) {
        Turn::Ask(run, request) => (run, show(&request)),
        other => panic!("{:?}", other),
    };
    assert_eq!(second, "make-one ./vendor");
    assert!(matches!(run.step(Reply::Failed), Turn::End(CleanVendorOutcome::Emptied)));
}

#[test]
fn a_vendor_directory_that_cannot_be_removed_is_not_made() {
    match clean_vendor() {
        Turn::Ask(run, _) => {
            assert!(matches!(run.step(Reply::Failed), Turn::End(CleanVendorOutcome::NotRemoved)));
        }
        other => panic!("{:?}", other),
    }
}

#[test]
fn sources_are_vendored_under_their_names() {
    let config = config(
        vec![remote("public", "protos"), local("monorepo", "~/org"), remote("lost", "")],
        vec![],
    );
    let index = CacheIndex {
        entries: vec![CacheEntry { path: path("/c/protov/x"), source: remote("public", "protos") }],
    };
    let env = environment(Some("/home/ann".to_string()), &[("ORG", "/srv/org")]);
    let mut seen = Vec::new();
    let mut turn = populate_vendor(&config, &env, index);
    for reply in vec![
        Reply::Answer(true),
        Reply::Answer(true),
        Reply::Done,
        Reply::EndOfDir,
        Reply::Answer(true),
        Reply::Answer(true),
        Reply::Done,
        Reply::EndOfDir,
    ] {
        turn = match turn {
            Turn::Ask(run, request) => {
                seen.push(show(&request));
                run.step(reply)
            }
            Turn::End(_) => panic!("it has ended"),
        };
    }
    match turn {
        Turn::End(PopulateOutcome::Populated(reports)) => {
            assert_eq!(reports.len(), 3);
            assert!(matches!(&reports[0], VendorReport::Copied(log) if log.actions.is_empty()));
            assert!(matches!(&reports[1], VendorReport::Copied(log) if log.actions.is_empty()));
            assert!(matches!(&reports[2], VendorReport::Missing(s) if *s == remote("lost", "")));
        }
        other => panic!("{:?}", other),
    }
    assert_eq!(
        seen,
        vec![
            "is-dir /c/protov/x/protos",
            "exists ./vendor/public/",
            "open /c/protov/x/protos",
            "next",
            "is-dir /home/ann/org",
            "exists ./vendor/monorepo/",
            "open /home/ann/org",
            "next",
        ]
    );
}

#[test]
fn what_was_vendored_before_a_failure_is_told() {
    let config = config(vec![local("a", "/a"), remote("lost", ""), local("b", "/b")], vec![]);
    let env = environment(None, &[]);
    let mut turn = populate_vendor(&config, &env, CacheIndex::default());
    for reply in vec![
        Reply::Answer(true),
        Reply::Answer(true),
        Reply::Done,
        entry("/a/x.proto", false),
        Reply::Done,
        Reply::EndOfDir,
        Reply::Answer(true),
        Reply::Answer(true),
        Reply::Failed,
    ] {
        turn = match turn {
            Turn::Ask(run, _) => run.step(reply),
            Turn::End(_) => panic!("it has ended"),
        };
    }
    match turn {
        Turn::End(PopulateOutcome::NotCopied { reports, cached, error }) => {
            assert_eq!(reports.len(), 2);
            assert!(matches!(&reports[0], VendorReport::Copied(log) if log.actions.len() == 1));
            assert!(matches!(&reports[1], VendorReport::Missing(_)));
            assert!(!cached);
            assert!(matches!(error, CopyError::OpenDir));
        }
        other => panic!("{:?}", other),
    }
}

#[test]
fn a_local_source_in_the_cache_is_copied_from_there() {
    let config = config(vec![local("monorepo", "/org")], vec![]);
    let index = CacheIndex {
        entries: vec![CacheEntry { path: path("/c/protov/l"), source: local("monorepo", "/org") }],
    };
    let env = environment(None, &[]);
    match populate_vendor(&config, &env, index) {
        Turn::Ask(run, request) => {
            assert_eq!(show(&request), "is-dir /c/protov/l");
            assert!(matches!(
                run.step(Reply::Answer(false)),
                Turn::End(PopulateOutcome::NotCopied {
                    cached: true,
                    error: CopyError::NotADirectory,
                    ..
                })
            ));
        }
        other => panic!("{:?}", other),
    }
}

#[test]
fn a_local_source_that_cannot_be_copied_ends_it() {
    let config = config(vec![local("monorepo", "/org")], vec![]);
    let env = environment(None, &[]);
    match populate_vendor(&config, &env, CacheIndex::default()) {
        Turn::Ask(run, _) => assert!(matches!(
            run.step(Reply::Answer(false)),
            Turn::End(PopulateOutcome::NotCopied {
                cached: false,
                error: CopyError::NotADirectory,
                ..
            })
        )),
        other => panic!("{:?}", other),
    }
}

#[test]
fn templates_take_the_place_of_what_is_there() {
    let config = Config {
        sources: vec![],
        templates: vec![
            Template { in_path: path("tpl/go"), out_path: path("go") },
            Template { in_path: path("/abs/ts"), out_path: path("./ts") },
        ],
        targets: vec![],
    };
    let mut seen = Vec::new();
    let mut turn = create_targets_from_templates(&config);
    for reply in vec![
        Reply::Answer(true),
        Reply::Failed,
        Reply::Answer(true),
        Reply::Answer(false),
        Reply::Done,
        Reply::Done,
        Reply::EndOfDir,
        Reply::Answer(false),
        Reply::Answer(false),
    ] {
        turn = match turn {
            Turn::Ask(run, request) => {
                seen.push(show(&request));
                run.step(reply)
            }
            Turn::End(_) => panic!("it has ended"),
        };
    }
    match turn {
        Turn::End(TemplatesOutcome { copies }) => {
            assert_eq!(copies.len(), 2);
            assert!(matches!(&copies[0], CopyOutcome::Copied(log) if log.actions.len() == 1));
            assert!(matches!(&copies[1], CopyOutcome::Failed(CopyError::NotADirectory)));
        }
        other => panic!("{:?}", other),
    }
    assert_eq!(
        seen,
        vec![
            "exists go",
            "remove-all go",
            "is-dir ./tpl/go",
            "exists ./go/",
            "make ./go/",
            "open ./tpl/go",
            "next",
            "exists ./ts",
            "is-dir /abs/ts",
        ]
    );
}

#[test]
fn a_build_removes_what_the_last_one_added_and_records_anew() {
    let config = config(vec![], vec![target("go", &["one", "two"])]);
    let actions = BuildActions {
        diffs: vec![record("old", &[], &["old/x"]), record("go", &["go/d"], &["go/d/f"])],
    };
    let (seen, outcome) = run_targets(
        &config,
        true,
        vec![
            Reply::BuildActions(actions),
            Reply::Done,
            Reply::Answer(true),
            Reply::Done,
            Reply::Done,
            entry("go/hand", false),
            Reply::EndOfDir,
            ok(),
            Reply::Exited { success: false },
            Reply::Done,
            entry("go/hand", false),
            entry("go/new", true),
            Reply::EndOfDir,
            Reply::Done,
            entry("go/new/a.go", false),
            entry("go/new/b.go", false),
            Reply::EndOfDir,
            Reply::Done,
        ],
    );
    assert_eq!(
        seen,
        vec![
            "read-record ./protov-build-outputs.json",
            "remove-file go/d/f",
            "is-empty go/d",
            "remove-dir go/d",
            "open go",
            "next",
            "next",
            "run buf generate ./vendor/one --template buf.gen.yaml --output go in .",
            "run buf generate ./vendor/two --template buf.gen.yaml --output go in .",
            "open go",
            "next",
            "next",
            "next",
            "open go/new",
            "next",
            "next",
            "next",
            "write-record ./protov-build-outputs.json old:0+1,go:1+2",
        ]
    );
    assert!(matches!(outcome, TargetsOutcome::Finished));
}

#[test]
fn a_build_goes_on_where_a_removal_fails() {
    let config = config(vec![], vec![target("go", &[])]);
    let actions = BuildActions { diffs: vec![record("go", &[], &["go/f", "go/g"])] };
    let (seen, outcome) = run_targets(
        &config,
        true,
        vec![
            Reply::BuildActions(actions),
            Reply::Failed,
            Reply::Done,
            Reply::EndOfDir,
            Reply::Done,
            Reply::EndOfDir,
            Reply::Done,
        ],
    );
    assert_eq!(seen[1], "remove-file go/f");
    assert_eq!(seen[2], "open go");
    assert_eq!(seen.last().unwrap(), "write-record ./protov-build-outputs.json go:0+0");
    assert!(matches!(outcome, TargetsOutcome::Finished));
}

#[test]
fn cleaning_up_looks_before_and_after() {
    let config = config(vec![], vec![target("go", &["one"]), target("ts", &["one"])]);
    let actions = BuildActions { diffs: vec![record("go", &[], &["go/f"])] };
    let (seen, outcome) = run_targets(
        &config,
        false,
        vec![
            Reply::BuildActions(actions),
            Reply::Done,
            entry("go/f", false),
            Reply::EndOfDir,
            Reply::Done,
            Reply::Done,
            Reply::EndOfDir,
            Reply::Done,
            Reply::EndOfDir,
            Reply::Done,
            Reply::EndOfDir,
            Reply::Done,
        ],
    );
    assert_eq!(
        seen,
        vec![
            "read-record ./protov-build-outputs.json",
            "open go",
            "next",
            "next",
            "remove-file go/f",
            "open go",
            "next",
            "open ts",
            "next",
            "open ts",
            "next",
            "write-record ./protov-build-outputs.json go:0+0,ts:0+0",
        ]
    );
    assert!(matches!(outcome, TargetsOutcome::Finished));
}

#[test]
fn the_record_of_each_target_stays() {
    let config = config(vec![], vec![target("go", &["one"]), target("ts", &[])]);
    let (seen, outcome) = run_targets(
        &config,
        true,
        vec![
            Reply::Failed,
            Reply::Done,
            Reply::EndOfDir,
            ok(),
            Reply::Done,
            entry("go/a.go", false),
            Reply::EndOfDir,
            Reply::Done,
            Reply::EndOfDir,
            Reply::Done,
            entry("ts/d", true),
            Reply::EndOfDir,
            Reply::Done,
            Reply::EndOfDir,
            Reply::Done,
        ],
    );
    assert_eq!(
        seen.last().unwrap(),
        "write-record ./protov-build-outputs.json go:0+1,ts:1+0"
    );
    assert!(matches!(outcome, TargetsOutcome::Finished));
}

#[test]
fn cleaning_up_again_removes_nothing() {
    let config = config(vec![], vec![target("go", &[])]);
    let actions = BuildActions { diffs: vec![record("go", &[], &[])] };
    let (seen, _) = run_targets(
        &config,
        false,
        vec![
            Reply::BuildActions(actions),
            Reply::Done,
            Reply::EndOfDir,
            Reply::Done,
            Reply::EndOfDir,
            Reply::Done,
        ],
    );
    assert!(!seen.iter().any(|s| s.starts_with("remove")));
}

#[test]
fn a_run_that_stops_writes_nothing() {
    let config = config(vec![], vec![target("go", &["one"])]);
    for (building, replies) in [
        (true, vec![Reply::Failed, Reply::Failed]),
        (false, vec![Reply::Failed, Reply::Failed]),
        (true, vec![Reply::Failed, Reply::Done, Reply::EndOfDir, Reply::Failed]),
        (true, vec![Reply::Failed, Reply::Done, Reply::EndOfDir, ok(), Reply::Failed]),
        (false, vec![Reply::Failed, Reply::Done, Reply::EndOfDir, Reply::Done, Reply::Failed]),
    ] {
        let (seen, outcome) = run_targets(&config, building, replies);
        assert!(!seen.iter().any(|s| s.starts_with("write")));
        assert!(matches!(outcome, TargetsOutcome::Failed(_)));
    }
}

#[test]
fn a_run_says_why_it_stopped() {
    let config = config(vec![], vec![target("go", &["one"])]);
    let (_, outcome) = run_targets(&config, true, vec![Reply::Failed, Reply::Failed]);
    assert!(matches!(
        outcome,
        TargetsOutcome::Failed(TargetsError::Look(StatError::ReadDir(p))) if text(&p) == "go"
    ));
    let (_, outcome) = run_targets(
        &config,
        true,
        vec![Reply::Failed, Reply::Done, Reply::EndOfDir, Reply::Failed],
    );
    assert!(matches!(outcome, TargetsOutcome::Failed(TargetsError::NotGenerated)));
    let (_, outcome) = run_targets(
        &Config { sources: vec![], templates: vec![], targets: vec![] },
        false,
        vec![Reply::Failed, Reply::Failed],
    );
    assert!(matches!(outcome, TargetsOutcome::Failed(TargetsError::NotWritten)));
}
