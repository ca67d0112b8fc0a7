use protov::actions::TargetBuildActions;
use protov::copy::{begin_copy, copy_dir_recursive, Action, CopyError, CopyOutcome};
use protov::path::PathBuf;
use protov::protocol::{Reply, Request, Turn};
use protov::removal::{target_clean, CleanError, CleanOutcome};
use protov::stat::Stat;
use protov::walk::{begin_stat, target_stat, StatError, StatOutcome};

fn path(text: &str) -> PathBuf {
    PathBuf::from_text(text)
}

fn text(path: &PathBuf) -> String {
    String::from_utf8(path.bytes.clone()).unwrap()
}

fn texts(paths: &[PathBuf]) -> Vec<String> {
    paths.iter().map(text).collect()
}

fn paths(texts: &[&str]) -> Vec<PathBuf> {
    texts.iter().map(|t| path(t)).collect()
}

fn show(request: &Request) -> String {
    match request {
        Request::IsDir(p) => format!("is-dir {}", text(p)),
        Request::Exists(p) => format!("exists {}", text(p)),
        Request::OpenDir(p) => format!("open {}", text(p)),
        Request::NextEntry => "next".to_string(),
        Request::CreateDirAll(p) => format!("make {}", text(p)),
        Request::IsEmptyDir(p) => format!("is-empty {}", text(p)),
        Request::RemoveFile(p) => format!("remove-file {}", text(p)),
        Request::RemoveDir(p) => format!("remove-dir {}", text(p)),
        Request::CopyFile { src, dst } => format!("copy {} {}", text(src), text(dst)),
        other => panic!("{:?}", other),
    }
}

fn entry(at: &str, is_dir: bool) -> Reply {
    Reply::Entry { path: path(at), is_dir }
}

fn look(dir: &str, replies: Vec<Reply>) -> (Vec<String>, StatOutcome) {
    let mut seen = Vec::new();
    let mut turn = target_stat(&path(dir));
    for reply in replies {
        turn = match turn {
            Turn::Ask(run, request) => {
                seen.push(show(&request));
                run.step(reply)
            }
            Turn::End(_) => panic!("it has ended"),
        };
    }
    match turn {
        Turn::Ask(_, request) => panic!("{:?}", request),
        Turn::End(outcome) => (seen, outcome),
    }
}

fn clean(dirs: &[&str], files: &[&str], replies: Vec<Reply>) -> (Vec<String>, CleanOutcome) {
    let record = TargetBuildActions {
        target: path("go"),
        diff: Stat { dirs: paths(dirs), files: paths(files) },
    };
    let mut seen = Vec::new();
    let mut turn = target_clean(&record);
    for reply in replies {
        turn = match turn {
            Turn::Ask(run, request) => {
                seen.push(show(&request));
                run.step(reply)
            }
            Turn::End(_) => panic!("it has ended"),
        };
    }
    match turn {
        Turn::Ask(_, request) => panic!("{:?}", request),
        Turn::End(outcome) => (seen, outcome),
    }
}

fn copy(src: &str, dst: &str, replies: Vec<Reply>) -> (Vec<String>, CopyOutcome) {
    let mut seen = Vec::new();
    let mut turn = copy_dir_recursive(path(src), path(dst));
    for reply in replies {
        turn = match turn {
            Turn::Ask(run, request) => {
                seen.push(show(&request));
                run.step(reply)
            }
            Turn::End(_) => panic!("it has ended"),
        };
    }
    match turn {
        Turn::Ask(_, request) => panic!("{:?}", request),
        Turn::End(outcome) => (seen, outcome),
    }
}

fn actions(outcome: CopyOutcome) -> Vec<String> {
    match outcome {
        CopyOutcome::Copied(log) => log
            .actions
            .iter()
            .map(|a| match a {
                Action::CopyFile { src, dst } => format!("copied {} {}", text(src), text(dst)),
                Action::CreateDir { dir } => format!("made {}", text(dir)),
                Action::IgnorePath { src } => format!("ignored {}", text(src)),
            })
            .collect(),
        other => panic!("{:?}", other),
    }
}

#[test]
fn a_look_finds_everything_below() {
    let (seen, outcome) = look(
        "go",
        vec![
            Reply::Done,
            entry("go/a", true),
            entry("go/f", false),
            entry("go/b", true),
            Reply::EndOfDir,
            Reply::Done,
            entry("go/b/g", false),
            Reply::EndOfDir,
            Reply::Done,
            Reply::EndOfDir,
        ],
    );
    assert_eq!(
        seen,
        vec![
            "open go", "next", "next", "next", "next", "open go/b", "next", "next", "open go/a",
            "next"
        ]
    );
    match outcome {
        StatOutcome::Found(stat) => {
            assert_eq!(texts(&stat.dirs), vec!["go/a", "go/b"]);
            assert_eq!(texts(&stat.files), vec!["go/f", "go/b/g"]);
        }
        other => panic!("{:?}", other),
    }
}

#[test]
fn a_look_at_an_empty_directory_finds_nothing() {
    let (_, outcome) = look("go", vec![Reply::Done, Reply::EndOfDir]);
    match outcome {
        StatOutcome::Found(stat) => assert!(stat.dirs.is_empty() && stat.files.is_empty()),
        other => panic!("{:?}", other),
    }
}

#[test]
fn a_look_stops_at_what_cannot_be_read() {
    let (_, outcome) = look("go", vec![Reply::Failed]);
    assert!(matches!(outcome, StatOutcome::Failed(StatError::ReadDir(p)) if text(&p) == "go"));
    let (_, outcome) =
        look("go", vec![Reply::Done, entry("go/a", true), Reply::EndOfDir, Reply::Failed]);
    assert!(matches!(outcome, StatOutcome::Failed(StatError::ReadDir(p)) if text(&p) == "go/a"));
    let (_, outcome) = look("go", vec![Reply::Done, Reply::Failed]);
    assert!(matches!(outcome, StatOutcome::Failed(StatError::ReadEntry)));
}

#[test]
fn a_look_that_has_begun_opens_the_directory() {
    let (_, request) = begin_stat(&path("go"));
    assert_eq!(show(&request), "open go");
}

#[test]
fn files_are_removed_first_and_then_directories_from_the_inside() {
    let (seen, outcome) = clean(
        &["go/a", "go/a/b"],
        &["go/a/b/2", "go/1"],
        vec![
            Reply::Done,
            Reply::Done,
            Reply::Answer(true),
            Reply::Done,
            Reply::Answer(true),
            Reply::Done,
        ],
    );
    assert_eq!(
        seen,
        vec![
            "remove-file go/a/b/2",
            "remove-file go/1",
            "is-empty go/a/b",
            "remove-dir go/a/b",
            "is-empty go/a",
            "remove-dir go/a",
        ]
    );
    assert!(matches!(outcome, CleanOutcome::Cleaned));
}

#[test]
fn where_nothing_was_added_nothing_is_removed() {
    let (seen, outcome) = clean(&[], &[], vec![]);
    assert!(seen.is_empty());
    assert!(matches!(outcome, CleanOutcome::Cleaned));
}

#[test]
fn a_removal_stops_at_what_goes_wrong() {
    let (_, outcome) = clean(&["d"], &["f"], vec![Reply::Failed]);
    assert!(matches!(outcome, CleanOutcome::Failed(CleanError::RemoveFile(p)) if text(&p) == "f"));
    let (_, outcome) = clean(&["d"], &[], vec![Reply::Failed]);
    assert!(matches!(outcome, CleanOutcome::Failed(CleanError::ReadDir(p)) if text(&p) == "d"));
    let (_, outcome) = clean(&["d"], &[], vec![Reply::Answer(false)]);
    assert!(matches!(outcome, CleanOutcome::Failed(CleanError::NotEmpty(p)) if text(&p) == "d"));
    let (_, outcome) = clean(&["d"], &[], vec![Reply::Answer(true), Reply::Failed]);
    assert!(matches!(outcome, CleanOutcome::Failed(CleanError::RemoveDir(p)) if text(&p) == "d"));
}

#[test]
fn protobuf_files_are_copied_to_where_they_belong() {
    let (seen, outcome) = copy(
        "/c/x/protos",
        "./vendor/public",
        vec![
            Reply::Answer(true),
            Reply::Answer(false),
            Reply::Done,
            Reply::Done,
            entry("/c/x/protos/a.proto", false),
            Reply::Done,
            entry("/c/x/protos/README.md", false),
            entry("/c/x/protos/.git", true),
            entry("/c/x/protos/v1", true),
            entry("/c/x/protos/buf.yaml", false),
            Reply::Done,
            Reply::EndOfDir,
            Reply::Answer(true),
            Reply::Done,
            entry("/c/x/protos/v1/buf.lock", false),
            Reply::Done,
            Reply::EndOfDir,
        ],
    );
    assert_eq!(
        seen,
        vec![
            "is-dir /c/x/protos",
            "exists ./vendor/public/",
            "make ./vendor/public/",
            "open /c/x/protos",
            "next",
            "copy /c/x/protos/a.proto ./vendor/public/a.proto",
            "next",
            "next",
            "next",
            "next",
            "copy /c/x/protos/buf.yaml ./vendor/public/buf.yaml",
            "next",
            "exists ./vendor/public/v1",
            "open /c/x/protos/v1",
            "next",
            "copy /c/x/protos/v1/buf.lock ./vendor/public/v1/buf.lock",
            "next",
        ]
    );
    assert_eq!(
        actions(outcome),
        vec![
            "made ./vendor/public/",
            "copied /c/x/protos/a.proto ./vendor/public/a.proto",
            "ignored /c/x/protos/README.md",
            "ignored /c/x/protos/.git",
            "copied /c/x/protos/buf.yaml ./vendor/public/buf.yaml",
            "copied /c/x/protos/v1/buf.lock ./vendor/public/v1/buf.lock",
        ]
    );
}

#[test]
fn a_git_directory_is_noted_and_not_entered() {
    for first in [true, false] {
        let mut entries = vec![entry("s/.git", true)];
        let file = vec![entry("s/a.proto", false), Reply::Done];
        if first {
            entries.extend(file);
        } else {
            let git = entries;
            entries = file;
            entries.extend(git);
        }
        let mut replies = vec![Reply::Answer(true), Reply::Answer(false), Reply::Done, Reply::Done];
        replies.extend(entries);
        replies.push(Reply::EndOfDir);
        let (seen, outcome) = copy("s", "d", replies);
        assert!(!seen.iter().any(|r| r == "open s/.git"));
        let log = actions(outcome);
        assert_eq!(log.len(), 3);
        assert!(log.contains(&"ignored s/.git".to_string()));
        assert!(log.contains(&"copied s/a.proto d/a.proto".to_string()));
    }
}

#[test]
fn copying_again_makes_no_directory() {
    let told = || {
        vec![
            Reply::Done,
            entry("s/v1", true),
            entry("s/notes", false),
            entry("s/a.proto", false),
            Reply::Done,
            Reply::EndOfDir,
        ]
    };
    let inner = || vec![Reply::Done, entry("s/v1/b.proto", false), Reply::Done, Reply::EndOfDir];
    let mut first = vec![Reply::Answer(true), Reply::Answer(false), Reply::Done];
    first.extend(told());
    first.extend([Reply::Answer(false), Reply::Done]);
    first.extend(inner());
    let mut second = vec![Reply::Answer(true), Reply::Answer(true)];
    second.extend(told());
    second.push(Reply::Answer(true));
    second.extend(inner());
    let first = actions(copy("s", "d", first).1);
    let second = actions(copy("s", "d", second).1);
    assert_eq!(
        second,
        vec!["ignored s/notes", "copied s/a.proto d/a.proto", "copied s/v1/b.proto d/v1/b.proto"]
    );
    let kept: Vec<String> = first.into_iter().filter(|a| !a.starts_with("made")).collect();
    assert_eq!(kept, second);
}

#[test]
fn the_listed_order_of_directories_does_not_matter() {
    let well = || {
        let mut replies = Vec::new();
        for _ in 0..3 {
            replies.extend([Reply::Answer(true), Reply::Done]);
        }
        replies
    };
    let (one, end) = clean(&["go/a", "go/a/b", "go/c"], &[], well());
    assert!(matches!(end, CleanOutcome::Cleaned));
    let (other, end) = clean(&["go/c", "go/a/b", "go/a"], &[], well());
    assert!(matches!(end, CleanOutcome::Cleaned));
    assert_eq!(one, other);
}

#[test]
fn only_the_wanted_files_are_copied() {
    for (name, wanted) in [
        ("a.proto", true),
        ("a.b.proto", true),
        (".proto", false),
        ("proto", false),
        ("a.proto.bak", false),
        ("a.PROTO", false),
        ("buf.yaml", true),
        ("buf.lock", true),
        ("buf.gen.yaml", false),
        (".git", false),
    ] {
        let at = format!("s/{}", name);
        let mut replies =
            vec![Reply::Answer(true), Reply::Answer(true), Reply::Done, entry(&at, false)];
        if wanted {
            replies.push(Reply::Done);
        }
        replies.push(Reply::EndOfDir);
        let (_, outcome) = copy("s", "d", replies);
        let log = actions(outcome);
        if wanted {
            assert_eq!(log, vec![format!("copied s/{} d/{}", name, name)]);
        } else {
            assert_eq!(log, vec![format!("ignored s/{}", name)]);
        }
    }
}

#[test]
fn what_has_no_name_is_left_alone() {
    let replies = vec![
        Reply::Answer(true),
        Reply::Answer(true),
        Reply::Done,
        entry("s/..", false),
        Reply::EndOfDir,
    ];
    let (_, outcome) = copy("s", "d", replies);
    assert!(actions(outcome).is_empty());
}

#[test]
fn a_copy_stops_at_what_goes_wrong() {
    let failed = |replies: Vec<Reply>| match copy("s", "d", replies).1 {
        CopyOutcome::Failed(error) => error,
        other => panic!("{:?}", other),
    };
    assert!(matches!(failed(vec![Reply::Answer(false)]), CopyError::NotADirectory));
    assert!(matches!(
        failed(vec![Reply::Answer(true), Reply::Answer(false), Reply::Failed]),
        CopyError::CreateDir
    ));
    assert!(matches!(
        failed(vec![Reply::Answer(true), Reply::Answer(true), Reply::Failed]),
        CopyError::OpenDir
    ));
    assert!(matches!(
        failed(vec![Reply::Answer(true), Reply::Answer(true), Reply::Done, Reply::Failed]),
        CopyError::ReadEntry
    ));
    assert!(matches!(
        failed(vec![
            Reply::Answer(true),
            Reply::Answer(true),
            Reply::Done,
            entry("s/a.proto", false),
            Reply::Failed
        ]),
        CopyError::CopyFile
    ));
}

#[test]
fn a_reply_that_does_not_fit_counts_as_a_failure() {
    let (_, outcome) = copy("s", "d", vec![Reply::EndOfDir]);
    assert!(matches!(outcome, CopyOutcome::Failed(CopyError::NotADirectory)));
    let (_, outcome) = look("go", vec![Reply::Answer(true)]);
    assert!(matches!(outcome, StatOutcome::Failed(StatError::ReadDir(_))));
}

#[test]
fn a_copy_that_has_begun_asks_for_the_directory() {
    let (_, request) = begin_copy(path("s"), path("d"));
    assert_eq!(show(&request), "is-dir s");
}
