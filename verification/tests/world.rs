use protov::actions::BuildActions;
use protov::command::Command;
use protov::config::{CompileTarget, Config, LocalSource, RemoteSource, Source};
use protov::copy::{copy_dir_recursive, Action, CopyError, CopyOutcome};
use protov::home::Environment;
use protov::index::CacheIndex;
use protov::path::PathBuf;
use protov::protocol::{Reply, Request, Turn};
use protov::sync::{clean, sync, sync_in, SyncEnd, SyncOutcome};
use protov::targets::{build_targets, TargetsError, TargetsOutcome};
use protov::vendor::VendorReport;
use std::collections::{BTreeSet, VecDeque};

/// A disk and the programs that work on it, in memory.
#[derive(Default)]
struct World {
    dirs: BTreeSet<String>,
    files: BTreeSet<String>,
    index: Option<CacheIndex>,
    actions: Option<BuildActions>,
    reading: VecDeque<(String, bool)>,
    started: Vec<String>,
    git_works: bool,
}

/// The environment with that home directory, and with `TEAM` set.
fn environment(home: Option<String>) -> Environment {
    Environment { home, vars: vec![("TEAM".to_string(), "monorepo".to_string())] }
}

fn plain(path: &PathBuf) -> String {
    let text = String::from_utf8(path.bytes.clone()).unwrap();
    let start = if text.starts_with('/') { "/" } else { "" };
    let names: Vec<&str> = text.split('/').filter(|s| !s.is_empty() && *s != ".").collect();
    format!("{}{}", start, names.join("/"))
}

fn done(yes: bool) -> Reply {
    if yes {
        Reply::Done
    } else {
        Reply::Failed
    }
}

impl World {
    fn new(dirs: &[&str], files: &[&str]) -> World {
        World {
            dirs: dirs.iter().map(|s| s.to_string()).collect(),
            files: files.iter().map(|s| s.to_string()).collect(),
            git_works: true,
            ..World::default()
        }
    }

    fn is_dir(&self, path: &str) -> bool {
        path.is_empty() || path == "/" || self.dirs.contains(path)
    }

    fn make_all(&mut self, path: &str) {
        for (i, _) in path.match_indices('/').filter(|(i, _)| *i > 0) {
            self.dirs.insert(path[..i].to_string());
        }
        self.dirs.insert(path.to_string());
    }

    fn children(&self, path: &str) -> Vec<(String, bool)> {
        let prefix = if path.is_empty() { String::new() } else { format!("{}/", path) };
        let mut found = Vec::new();
        for (set, is_dir) in [(&self.dirs, true), (&self.files, false)] {
            for p in set {
                if let Some(rest) = p.strip_prefix(&prefix) {
                    if !rest.is_empty() && !rest.contains('/') {
                        found.push((rest.to_string(), is_dir));
                    }
                }
            }
        }
        found
    }

    fn run(&mut self, command: &Command) -> Reply {
        let args: Vec<String> =
            command.args.iter().map(|a| String::from_utf8(a.clone()).unwrap()).collect();
        let dir = plain(&command.dir);
        self.started.push(format!("{} {}", command.program, args.first().map_or("", |a| a)));
        match (command.program.as_str(), args.first().map_or("", |a| a.as_str())) {
            ("git", "clone") => {
                if self.git_works {
                    let at = format!("{}/{}", dir, args.last().unwrap());
                    self.make_all(&format!("{}/.git", at));
                    self.files.insert(format!("{}/.git/x.proto", at));
                    self.make_all(&format!("{}/protos/v1", at));
                    self.files.insert(format!("{}/protos/buf.yaml", at));
                    self.files.insert(format!("{}/protos/README.md", at));
                    self.files.insert(format!("{}/protos/v1/a.proto", at));
                }
                Reply::Exited { success: self.git_works }
            }
            ("git", _) => Reply::Exited { success: self.git_works },
            ("ls", _) => {
                if self.is_dir(&dir) {
                    Reply::Exited { success: true }
                } else {
                    Reply::Failed
                }
            }
            ("buf", _) => {
                let input = plain(&PathBuf::from_text(&args[1]));
                let out = plain(&PathBuf::from_text(&args[5]));
                if !self.is_dir(&input) {
                    return Reply::Exited { success: false };
                }
                let name = input.rsplit('/').next().unwrap().to_string();
                self.make_all(&format!("{}/{}", out, name));
                self.files.insert(format!("{}/{}/gen.go", out, name));
                Reply::Exited { success: true }
            }
            _ => Reply::Failed,
        }
    }

    fn answer(&mut self, request: Request, at: &mut PathBuf) -> Reply {
        match request {
            Request::CreateDir(p) => {
                self.dirs.insert(plain(&p));
                Reply::Done
            }
            Request::CreateDirAll(p) => {
                self.make_all(&plain(&p));
                Reply::Done
            }
            Request::IsDir(p) => Reply::Answer(self.is_dir(&plain(&p))),
            Request::Exists(p) => {
                Reply::Answer(self.is_dir(&plain(&p)) || self.files.contains(&plain(&p)))
            }
            Request::OpenDir(p) => {
                let name = plain(&p);
                if !self.is_dir(&name) {
                    return Reply::Failed;
                }
                self.reading = self.children(&name).into();
                *at = p;
                Reply::Done
            }
            Request::NextEntry => match self.reading.pop_front() {
                Some((name, is_dir)) => Reply::Entry { path: at.join(name.as_bytes()), is_dir },
                None => Reply::EndOfDir,
            },
            Request::IsEmptyDir(p) => {
                if self.is_dir(&plain(&p)) {
                    Reply::Answer(self.children(&plain(&p)).is_empty())
                } else {
                    Reply::Failed
                }
            }
            Request::RemoveFile(p) => done(self.files.remove(&plain(&p))),
            Request::RemoveDir(p) => done(self.dirs.remove(&plain(&p))),
            Request::RemoveDirAll(p) => {
                let root = plain(&p);
                let prefix = format!("{}/", root);
                let there = self.dirs.remove(&root);
                self.dirs.retain(|d| !d.starts_with(&prefix));
                self.files.retain(|f| !f.starts_with(&prefix));
                done(there)
            }
            Request::CopyFile { src, dst } => {
                if self.files.contains(&plain(&src)) {
                    self.files.insert(plain(&dst));
                    Reply::Done
                } else {
                    Reply::Failed
                }
            }
            Request::Run(command) => self.run(&command),
            Request::FreshName => panic!("names are found by the library"),
            Request::ReadCacheIndex(_) => match &self.index {
                Some(index) => Reply::CacheIndex(index.clone()),
                None => Reply::Failed,
            },
            Request::WriteCacheIndex { index, .. } => {
                self.index = Some(index);
                Reply::Done
            }
            Request::ReadBuildActions(_) => match &self.actions {
                Some(actions) => Reply::BuildActions(actions.clone()),
                None => Reply::Failed,
            },
            Request::WriteBuildActions { actions, .. } => {
                self.actions = Some(actions);
                Reply::Done
            }
        }
    }

    fn sync(&mut self, config: &Config) -> SyncOutcome {
        self.sync_and_tell(config).outcome
    }

    fn sync_and_tell(&mut self, config: &Config) -> SyncEnd {
        let env = environment(Some("/home/ann".to_string()));
        let mut at = PathBuf::from_text("");
        let mut turn = sync_in(config, &env, Some(PathBuf::from_text("/cache")));
        loop {
            turn = match turn {
                Turn::Ask(run, request) => {
                    let reply = self.answer(request, &mut at);
                    run.step(reply)
                }
                Turn::End(outcome) => return outcome,
            };
        }
    }

    fn clean(&mut self, config: &Config) -> TargetsOutcome {
        let mut at = PathBuf::from_text("");
        let mut turn = clean(config);
        loop {
            turn = match turn {
                Turn::Ask(run, request) => {
                    let reply = self.answer(request, &mut at);
                    run.step(reply)
                }
                Turn::End(outcome) => return outcome,
            };
        }
    }

    fn build(&mut self, config: &Config) -> TargetsOutcome {
        let mut at = PathBuf::from_text("");
        let mut turn = build_targets(config);
        loop {
            turn = match turn {
                Turn::Ask(run, request) => {
                    let reply = self.answer(request, &mut at);
                    run.step(reply)
                }
                Turn::End(outcome) => return outcome,
            };
        }
    }

    fn copy(&mut self, src: &str, dst: &str) -> Vec<Action> {
        let mut at = PathBuf::from_text("");
        let mut turn = copy_dir_recursive(PathBuf::from_text(src), PathBuf::from_text(dst));
        loop {
            turn = match turn {
                Turn::Ask(run, request) => {
                    let reply = self.answer(request, &mut at);
                    run.step(reply)
                }
                Turn::End(CopyOutcome::Copied(log)) => return log.actions,
                Turn::End(CopyOutcome::Failed(error)) => panic!("{:?}", error),
            };
        }
    }

    fn below(&self, prefix: &str) -> Vec<String> {
        self.files.iter().filter(|f| f.starts_with(prefix)).cloned().collect()
    }
}

fn config() -> Config {
    Config {
        sources: vec![
            Source::Remote(RemoteSource {
                url: "https://github.com/org/public".to_string(),
                tag: "v1.2.3".to_string(),
                path: "protos".to_string(),
                name: "public".to_string(),
            }),
            Source::Local(LocalSource {
                path: "~/org/$TEAM/protos".to_string(),
                name: "monorepo".to_string(),
            }),
        ],
        templates: vec![],
        targets: vec![CompileTarget {
            out_path: PathBuf::from_text("./go"),
            out_gen_path: PathBuf::from_text("./go/buf.go.yaml"),
            sources: vec!["public".to_string(), "monorepo".to_string()],
        }],
    }
}

fn world() -> World {
    World::new(
        &["go", "vendor", "vendor/stale", "/home", "/home/ann", "/home/ann/org",
          "/home/ann/org/monorepo", "/home/ann/org/monorepo/protos"],
        &["go/buf.go.yaml", "vendor/stale/old.proto", "/home/ann/org/monorepo/protos/m.proto",
          "/home/ann/org/monorepo/protos/Makefile"],
    )
}

#[test]
fn a_sync_vendors_and_builds_everything() {
    let mut world = world();
    let outcome = world.sync(&config());
    assert!(matches!(outcome, SyncOutcome::Synced), "{:?}", outcome);
    assert_eq!(
        world.below("vendor/"),
        vec![
            "vendor/monorepo/m.proto",
            "vendor/public/buf.yaml",
            "vendor/public/v1/a.proto",
        ]
    );
    assert_eq!(
        world.below("go/"),
        vec!["go/buf.go.yaml", "go/monorepo/gen.go", "go/public/gen.go"]
    );
    assert_eq!(
        world.started,
        vec![
            "git clone",
            "git sparse-checkout",
            "git checkout",
            "ls ",
            "buf generate",
            "buf generate",
        ]
    );
    assert_eq!(world.index.as_ref().unwrap().entries.len(), 1);
}

#[test]
fn a_second_sync_finds_the_source_in_the_cache() {
    let mut world = world();
    world.sync(&config());
    world.started.clear();
    let outcome = world.sync(&config());
    assert!(matches!(outcome, SyncOutcome::Synced), "{:?}", outcome);
    assert_eq!(world.started, vec!["ls ", "buf generate", "buf generate"]);
    assert_eq!(world.index.as_ref().unwrap().entries.len(), 1);
    assert_eq!(
        world.below("go/"),
        vec!["go/buf.go.yaml", "go/monorepo/gen.go", "go/public/gen.go"]
    );
}

#[test]
fn cleaning_up_leaves_what_was_there_before() {
    let mut world = world();
    world.sync(&config());
    let outcome = world.clean(&config());
    assert!(matches!(outcome, TargetsOutcome::Finished), "{:?}", outcome);
    assert_eq!(world.below("go/"), vec!["go/buf.go.yaml"]);
    assert!(!world.dirs.contains("go/public") && world.dirs.contains("go"));
    let record = &world.actions.as_ref().unwrap().diffs[0].diff;
    assert!(record.dirs.is_empty() && record.files.is_empty());
}

#[test]
fn cleaning_up_after_a_build_restores_the_disk() {
    let mut config = config();
    config.targets.push(CompileTarget {
        out_path: PathBuf::from_text("docs/api"),
        out_gen_path: PathBuf::from_text("docs/buf.yaml"),
        sources: vec!["monorepo".to_string()],
    });
    let mut world = World::new(
        &["go", "go/monorepo", "docs", "docs/api", "vendor", "vendor/public", "vendor/monorepo"],
        &["go/buf.go.yaml", "go/monorepo/kept.go", "docs/api/index.html"],
    );
    let (dirs, files) = (world.dirs.clone(), world.files.clone());
    assert!(matches!(world.build(&config), TargetsOutcome::Finished));
    assert!(world.files.contains("go/monorepo/gen.go"));
    assert!(world.files.contains("docs/api/monorepo/gen.go"));
    assert!(world.dirs.contains("go/public") && world.dirs.contains("docs/api/monorepo"));
    assert!(matches!(world.clean(&config), TargetsOutcome::Finished));
    assert_eq!(world.dirs, dirs);
    assert_eq!(world.files, files);
}

#[test]
fn copying_twice_does_what_copying_once_does() {
    let mut world = World::new(
        &["src", "src/v1", "src/v1/deep", "src/.git"],
        &["src/a.proto", "src/notes.txt", "src/v1/b.proto", "src/v1/deep/buf.yaml",
          "src/.git/c.proto"],
    );
    let show = |actions: &[Action]| -> Vec<String> {
        let mut shown: Vec<String> = actions.iter().map(|a| format!("{:?}", a)).collect();
        shown.sort();
        shown
    };
    let first = world.copy("src", "out/copy");
    let made: Vec<String> = first
        .iter()
        .filter_map(|a| match a {
            Action::CreateDir { dir } => Some(plain(dir)),
            _ => None,
        })
        .collect();
    assert_eq!(made, vec!["out/copy", "out/copy/v1", "out/copy/v1/deep"]);
    assert_eq!(
        world.below("out/"),
        vec!["out/copy/a.proto", "out/copy/v1/b.proto", "out/copy/v1/deep/buf.yaml"]
    );
    let (dirs, files) = (world.dirs.clone(), world.files.clone());
    let second = world.copy("src", "out/copy");
    let kept: Vec<Action> =
        first.into_iter().filter(|a| !matches!(a, Action::CreateDir { .. })).collect();
    assert_eq!(kept.len(), 5);
    assert_eq!(show(&second), show(&kept));
    assert_eq!(world.dirs, dirs);
    assert_eq!(world.files, files);
}

#[test]
fn a_sync_tells_what_it_copied_and_passed_over() {
    let mut world = world();
    let SyncEnd { report, .. } = world.sync_and_tell(&config());
    assert!(report.failures.is_empty());
    let ignored: Vec<Vec<String>> = report
        .vendored
        .iter()
        .map(|r| match r {
            VendorReport::Copied(log) => log
                .actions
                .iter()
                .filter_map(|a| match a {
                    Action::IgnorePath { src } => Some(plain(src)),
                    _ => None,
                })
                .collect(),
            other => panic!("{:?}", other),
        })
        .collect();
    assert_eq!(ignored[0].len(), 1);
    assert!(ignored[0][0].ends_with("/protos/README.md"));
    assert_eq!(ignored[1], vec!["/home/ann/org/monorepo/protos/Makefile"]);
}

#[test]
fn a_repositorys_own_data_is_noted_and_left_alone() {
    let mut world = world();
    world.dirs.insert("/home/ann/org/monorepo/protos/.git".to_string());
    world.files.insert("/home/ann/org/monorepo/protos/.git/x.proto".to_string());
    let SyncEnd { report, .. } = world.sync_and_tell(&config());
    match &report.vendored[1] {
        VendorReport::Copied(log) => assert!(log.actions.iter().any(|a| matches!(
            a,
            Action::IgnorePath { src } if plain(src) == "/home/ann/org/monorepo/protos/.git"
        ))),
        other => panic!("{:?}", other),
    }
    assert_eq!(world.below("vendor/monorepo"), vec!["vendor/monorepo/m.proto"]);
}

#[test]
fn cleaning_up_spares_what_is_beside_the_output() {
    let mut world = world();
    world.dirs.insert("go/public".to_string());
    world.files.insert("go/public/hand.go".to_string());
    world.sync(&config());
    assert!(world.files.contains("go/public/gen.go"));
    world.clean(&config());
    assert_eq!(world.below("go/"), vec!["go/buf.go.yaml", "go/public/hand.go"]);
}

#[test]
fn clones_are_named_by_the_library() {
    let mut world = world();
    world.sync(&config());
    let path = plain(&world.index.as_ref().unwrap().entries[0].path);
    let name = path.strip_prefix("/cache/protov/").unwrap();
    assert_eq!(name.len(), 36);
    assert!(world.dirs.contains(&path));
}

#[test]
fn a_source_that_cannot_be_cloned_is_left_out() {
    let mut world = world();
    world.git_works = false;
    let SyncEnd { report, outcome } = world.sync_and_tell(&config());
    assert!(matches!(outcome, SyncOutcome::Synced), "{:?}", outcome);
    assert_eq!(report.failures.len(), 1);
    assert_eq!(report.failures[0].source.name, "public");
    assert!(matches!(&report.vendored[0], VendorReport::Missing(s) if s.name() == "public"));
    assert!(matches!(&report.vendored[1], VendorReport::Copied(_)));
    assert_eq!(world.below("vendor/"), vec!["vendor/monorepo/m.proto"]);
    assert_eq!(world.below("go/"), vec!["go/buf.go.yaml", "go/monorepo/gen.go"]);
}

#[test]
fn a_sync_goes_on_where_there_is_no_vendor_directory() {
    let mut world = world();
    world.dirs.remove("vendor");
    world.dirs.remove("vendor/stale");
    world.files.remove("vendor/stale/old.proto");
    assert!(matches!(world.sync(&config()), SyncOutcome::Synced));
    assert_eq!(world.below("vendor/").len(), 3);
}

#[test]
fn a_sync_ends_where_a_local_source_is_missing() {
    let mut world = world();
    world.dirs.remove("/home/ann/org/monorepo/protos");
    match world.sync(&config()) {
        SyncOutcome::CannotList(dir) => {
            assert_eq!(plain(&dir), "/home/ann/org/monorepo/protos");
        }
        other => panic!("{:?}", other),
    }
    assert_eq!(world.below("vendor/"), vec!["vendor/stale/old.proto"]);
}

#[test]
fn a_sync_ends_where_a_clone_is_missing() {
    let mut world = world();
    world.sync(&config());
    let clone = plain(&world.index.as_ref().unwrap().entries[0].path);
    world.dirs.retain(|d| !d.starts_with(&clone));
    assert!(matches!(
        world.sync(&config()),
        SyncOutcome::NotVendored { cached: true, error: CopyError::NotADirectory }
    ));
}

#[test]
fn a_sync_says_that_the_targets_are_not_built() {
    let mut world = world();
    world.dirs.remove("go");
    world.files.remove("go/buf.go.yaml");
    assert!(matches!(world.sync(&config()), SyncOutcome::NotBuilt(TargetsError::Look(_))));
    assert!(world.actions.is_none());
}

#[test]
fn without_a_directory_for_caches_nothing_is_done() {
    let config = config();
    let env = environment(None);
    match sync_in(&config, &env, None) {
        Turn::End(SyncEnd { report, outcome: SyncOutcome::NoCacheDir }) => {
            assert!(report.failures.is_empty() && report.vendored.is_empty());
        }
        other => panic!("{:?}", other),
    }
}

#[test]
fn a_sync_begins_in_the_users_cache() {
    let config = config();
    let env = environment(None);
    match (sync(&config, &env), dirs::cache_dir()) {
        (Turn::Ask(_, Request::CreateDirAll(root)), Some(dir)) => {
            assert_eq!(root.bytes, dir.join("protov").to_str().unwrap().as_bytes());
        }
        (Turn::End(SyncEnd { outcome: SyncOutcome::NoCacheDir, .. }), None) => {}
        (other, dir) => panic!("{:?} {:?}", other, dir),
    }
}

#[test]
fn going_on_step_by_step_asks_for_names() {
    let config = config();
    let env = environment(None);
    let turn = sync_in(&config, &env, Some(PathBuf::from_text("/cache")));
    let turn = match turn {
        Turn::Ask(run, _) => run.advance(Reply::Done),
        other => panic!("{:?}", other),
    };
    let turn = match turn {
        Turn::Ask(run, Request::ReadCacheIndex(_)) => run.advance(Reply::Failed),
        other => panic!("{:?}", other),
    };
    let turn = match turn {
        Turn::Ask(run, Request::FreshName) => run.advance(Reply::Name("x".to_string())),
        other => panic!("{:?}", other),
    };
    match turn {
        Turn::Ask(_, Request::Run(command)) => {
            assert_eq!(command.args.last().unwrap(), b"x");
        }
        other => panic!("{:?}", other),
    }
}
