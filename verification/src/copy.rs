//! Copying the protobuf files of a directory tree.
use crate::bytes::same_bytes;
use crate::command::text_bytes;
use crate::path::{
    components, extension, file_name, is_plain_name, join, law_extension_follows_the_last_dot,
    lemma_extension_is_of_the_name, lemma_join_plain_name, path_views, skip_components, PathBuf,
};
use crate::protocol::{Reply, ReplyView, Request, RequestView, Turn, TurnView};
use vstd::prelude::*;

verus! {

/// One thing that a copy did.
#[derive(Debug)]
pub enum Action {
    /// A file was copied.
    CopyFile { src: PathBuf, dst: PathBuf },
    /// A directory was made.
    CreateDir { dir: PathBuf },
    /// A path was passed over: a file that is not wanted, or a directory that
    /// holds a repository's own data.
    IgnorePath { src: PathBuf },
}

/// What a copy did, in order.
#[derive(Debug)]
pub struct ActionLog {
    pub actions: Vec<Action>,
}

/// A copy of a directory tree, as far as it has come.
#[derive(Debug)]
pub struct CopyDir {
    depth: usize,
    dst: PathBuf,
    pending: Vec<PathBuf>,
    log: Vec<Action>,
    at: CopyPoint,
}

/// What a copy waits for. `dir` is the directory that is being copied, and
/// `target` the one that it is copied to.
#[derive(Debug)]
pub enum CopyPoint {
    /// Word on whether there is a directory to copy.
    Checking { src: PathBuf },
    /// Word on whether `target` is there.
    Probing { dir: PathBuf, target: PathBuf },
    /// `target` to be made.
    Creating { dir: PathBuf, target: PathBuf },
    /// `dir` to be opened.
    Opening { dir: PathBuf, target: PathBuf },
    /// The next entry of `dir`.
    Reading { dir: PathBuf, target: PathBuf },
    /// A file to be copied.
    Copying { dir: PathBuf, target: PathBuf, from: PathBuf, to: PathBuf },
}

/// How a copy ends.
#[derive(Debug)]
pub enum CopyOutcome {
    Copied(ActionLog),
    Failed(CopyError),
}

/// Why a copy stopped.
#[derive(Debug)]
pub enum CopyError {
    /// What is to be copied is not a directory.
    NotADirectory,
    /// A directory could not be made.
    CreateDir,
    /// A directory could not be opened.
    OpenDir,
    /// An entry of a directory could not be read.
    ReadEntry,
    /// A file could not be copied.
    CopyFile,
}

pub enum ActionView {
    CopyFile { src: Seq<u8>, dst: Seq<u8> },
    CreateDir { dir: Seq<u8> },
    IgnorePath { src: Seq<u8> },
}

pub struct CopyDirView {
    /// How many components the directory that is copied has.
    pub depth: nat,
    /// Where the copy goes.
    pub dst: Seq<u8>,
    /// The directories that are still to be copied; the last is next.
    pub pending: Seq<Seq<u8>>,
    /// What was done so far.
    pub log: Seq<ActionView>,
    pub at: CopyPointView,
}

pub enum CopyPointView {
    Checking { src: Seq<u8> },
    Probing { dir: Seq<u8>, target: Seq<u8> },
    Creating { dir: Seq<u8>, target: Seq<u8> },
    Opening { dir: Seq<u8>, target: Seq<u8> },
    Reading { dir: Seq<u8>, target: Seq<u8> },
    Copying { dir: Seq<u8>, target: Seq<u8>, from: Seq<u8>, to: Seq<u8> },
}

pub enum CopyOutcomeView {
    Copied(Seq<ActionView>),
    Failed(CopyError),
}

impl View for Action {
    type V = ActionView;

    open spec fn view(&self) -> ActionView {
        match self {
            Action::CopyFile { src, dst } => ActionView::CopyFile { src: src@, dst: dst@ },
            Action::CreateDir { dir } => ActionView::CreateDir { dir: dir@ },
            Action::IgnorePath { src } => ActionView::IgnorePath { src: src@ },
        }
    }
}

/// The actions that a list of them stands for.
pub open spec fn action_views(actions: Seq<Action>) -> Seq<ActionView> {
    actions.map_values(|a: Action| a@)
}

impl View for ActionLog {
    type V = Seq<ActionView>;

    open spec fn view(&self) -> Seq<ActionView> {
        action_views(self.actions@)
    }
}

impl View for CopyPoint {
    type V = CopyPointView;

    open spec fn view(&self) -> CopyPointView {
        match self {
            CopyPoint::Checking { src } => CopyPointView::Checking { src: src@ },
            CopyPoint::Probing { dir, target } => CopyPointView::Probing {
                dir: dir@,
                target: target@,
            },
            CopyPoint::Creating { dir, target } => CopyPointView::Creating {
                dir: dir@,
                target: target@,
            },
            CopyPoint::Opening { dir, target } => CopyPointView::Opening {
                dir: dir@,
                target: target@,
            },
            CopyPoint::Reading { dir, target } => CopyPointView::Reading {
                dir: dir@,
                target: target@,
            },
            CopyPoint::Copying { dir, target, from, to } => CopyPointView::Copying {
                dir: dir@,
                target: target@,
                from: from@,
                to: to@,
            },
        }
    }
}

impl View for CopyDir {
    type V = CopyDirView;

    closed spec fn view(&self) -> CopyDirView {
        CopyDirView {
            depth: self.depth as nat,
            dst: self.dst@,
            pending: path_views(self.pending@),
            log: action_views(self.log@),
            at: self.at@,
        }
    }
}

impl View for CopyOutcome {
    type V = CopyOutcomeView;

    open spec fn view(&self) -> CopyOutcomeView {
        match self {
            CopyOutcome::Copied(log) => CopyOutcomeView::Copied(log@),
            CopyOutcome::Failed(error) => CopyOutcomeView::Failed(*error),
        }
    }
}

/// The name of the directories that are passed over.
pub open spec fn git_dir_name() -> Seq<u8> {
    text_bytes(".git"@)
}

/// Whether a directory is passed over: it holds a repository's own data.
pub open spec fn is_git_dir(path: Seq<u8>) -> bool {
    file_name(path) == Some(git_dir_name())
}

/// Whether a file is copied: protobuf files, and the files that configure what
/// is generated out of them.
pub open spec fn is_wanted_file(path: Seq<u8>) -> bool {
    ||| extension(path) == Some(text_bytes("proto"@))
    ||| file_name(path) == Some(text_bytes("buf.yaml"@))
    ||| file_name(path) == Some(text_bytes("buf.lock"@))
}

/// Where a directory is copied to: below `dst`, as it lies below the directory
/// with `depth` components that the copy started from.
pub open spec fn copy_target(dst: Seq<u8>, depth: nat, dir: Seq<u8>) -> Seq<u8> {
    join(dst, skip_components(dir, depth))
}

/// Goes on with the directory that is next, or ends where none is left.
pub open spec fn copy_next(
    depth: nat,
    dst: Seq<u8>,
    pending: Seq<Seq<u8>>,
    log: Seq<ActionView>,
) -> TurnView<CopyDirView, CopyOutcomeView> {
    if pending.len() == 0 {
        TurnView::End(CopyOutcomeView::Copied(log))
    } else {
        let dir = pending.last();
        let target = copy_target(dst, depth, dir);
        TurnView::Ask(
            CopyDirView {
                depth,
                dst,
                pending: pending.drop_last(),
                log,
                at: CopyPointView::Probing { dir, target },
            },
            RequestView::Exists(target),
        )
    }
}

/// A copy starts by asking whether there is a directory to copy.
pub open spec fn copy_start(src: Seq<u8>, dst: Seq<u8>) -> TurnView<CopyDirView, CopyOutcomeView> {
    TurnView::Ask(
        CopyDirView {
            depth: components(src).len(),
            dst,
            pending: Seq::empty(),
            log: Seq::empty(),
            at: CopyPointView::Checking { src },
        },
        RequestView::IsDir(src),
    )
}

/// What becomes of an entry of `dir`: a directory is copied in its turn unless
/// it is to be passed over, a file is copied if it is wanted, what is passed over
/// is noted, and a file that has no name is left alone.
pub open spec fn copy_entry(
    run: CopyDirView,
    dir: Seq<u8>,
    target: Seq<u8>,
    path: Seq<u8>,
    is_dir: bool,
) -> TurnView<CopyDirView, CopyOutcomeView> {
    if is_dir {
        TurnView::Ask(
            if is_git_dir(path) {
                CopyDirView { log: run.log.push(ActionView::IgnorePath { src: path }), ..run }
            } else {
                CopyDirView { pending: run.pending.push(path), ..run }
            },
            RequestView::NextEntry,
        )
    } else {
        match file_name(path) {
            Some(name) => if is_wanted_file(path) {
                let to = join(target, name);
                TurnView::Ask(
                    CopyDirView { at: CopyPointView::Copying { dir, target, from: path, to }, ..run },
                    RequestView::CopyFile { src: path, dst: to },
                )
            } else {
                TurnView::Ask(
                    CopyDirView { log: run.log.push(ActionView::IgnorePath { src: path }), ..run },
                    RequestView::NextEntry,
                )
            },
            None => TurnView::Ask(run, RequestView::NextEntry),
        }
    }
}

/// Each directory is made where it is copied to, unless it is there, before its
/// entries are read. The first thing that goes wrong ends the copy.
pub open spec fn copy_step(run: CopyDirView, reply: ReplyView) -> TurnView<
    CopyDirView,
    CopyOutcomeView,
> {
    match run.at {
        CopyPointView::Checking { src } => if reply == ReplyView::Answer(true) {
            copy_next(run.depth, run.dst, run.pending.push(src), run.log)
        } else {
            TurnView::End(CopyOutcomeView::Failed(CopyError::NotADirectory))
        },
        CopyPointView::Probing { dir, target } => if reply == ReplyView::Answer(true) {
            TurnView::Ask(
                CopyDirView { at: CopyPointView::Opening { dir, target }, ..run },
                RequestView::OpenDir(dir),
            )
        } else {
            TurnView::Ask(
                CopyDirView { at: CopyPointView::Creating { dir, target }, ..run },
                RequestView::CreateDirAll(target),
            )
        },
        CopyPointView::Creating { dir, target } => if reply is Done {
            TurnView::Ask(
                CopyDirView {
                    log: run.log.push(ActionView::CreateDir { dir: target }),
                    at: CopyPointView::Opening { dir, target },
                    ..run
                },
                RequestView::OpenDir(dir),
            )
        } else {
            TurnView::End(CopyOutcomeView::Failed(CopyError::CreateDir))
        },
        CopyPointView::Opening { dir, target } => if reply is Done {
            TurnView::Ask(
                CopyDirView { at: CopyPointView::Reading { dir, target }, ..run },
                RequestView::NextEntry,
            )
        } else {
            TurnView::End(CopyOutcomeView::Failed(CopyError::OpenDir))
        },
        CopyPointView::Reading { dir, target } => match reply {
            ReplyView::Entry { path, is_dir } => copy_entry(run, dir, target, path, is_dir),
            ReplyView::EndOfDir => copy_next(run.depth, run.dst, run.pending, run.log),
            _ => TurnView::End(CopyOutcomeView::Failed(CopyError::ReadEntry)),
        },
        CopyPointView::Copying { dir, target, from, to } => if reply is Done {
            TurnView::Ask(
                CopyDirView {
                    log: run.log.push(ActionView::CopyFile { src: from, dst: to }),
                    at: CopyPointView::Reading { dir, target },
                    ..run
                },
                RequestView::NextEntry,
            )
        } else {
            TurnView::End(CopyOutcomeView::Failed(CopyError::CopyFile))
        },
    }
}

/// Whether a name is the given one.
fn is_named(name: &Option<Vec<u8>>, wanted: &str) -> (named: bool)
    ensures
        named == (match name {
            Some(name) => name@ == text_bytes(wanted@),
            None => false,
        }),
{
    match name {
        Some(name) => same_bytes(name.as_slice(), wanted.as_bytes()),
        None => false,
    }
}

/// Whether a directory is passed over.
fn git_dir(path: &PathBuf) -> (passed_over: bool)
    ensures
        passed_over == is_git_dir(path@),
{
    is_named(&path.file_name(), ".git")
}

/// Whether a file is copied.
fn wanted_file(path: &PathBuf) -> (wanted: bool)
    ensures
        wanted == is_wanted_file(path@),
{
    let name = path.file_name();
    is_named(&path.extension(), "proto") || is_named(&name, "buf.yaml") || is_named(
        &name,
        "buf.lock",
    )
}

/// Goes on with the directory that is next, or ends where none is left.
fn next_dir(depth: usize, dst: PathBuf, pending: Vec<PathBuf>, log: Vec<Action>) -> (turn: Turn<
    CopyDir,
    CopyOutcome,
>)
    ensures
        turn@ == copy_next(depth as nat, dst@, path_views(pending@), action_views(log@)),
{
    let mut pending = pending;
    let ghost all = path_views(pending@);
    match pending.pop() {
        Some(dir) => {
            proof {
                assert(path_views(pending@) =~= all.drop_last());
                assert(all.last() == dir@);
            }
            let relative = dir.skip_components(depth);
            let target = dst.join(relative.bytes.as_slice());
            let request = Request::Exists(target.clone());
            let at = CopyPoint::Probing { dir, target };
            Turn::Ask(CopyDir { depth, dst, pending, log, at }, request)
        },
        None => Turn::End(CopyOutcome::Copied(ActionLog { actions: log })),
    }
}

/// A copy of `src` to `dst` that has just begun, and what it asks for.
pub fn begin_copy(src: PathBuf, dst: PathBuf) -> (begun: (CopyDir, Request))
    ensures
        copy_start(src@, dst@) matches TurnView::Ask(run, request) && run == begun.0@ && request
            == begun.1@,
{
    let depth = src.component_count();
    let request = Request::IsDir(src.clone());
    let run = CopyDir {
        depth,
        dst,
        pending: Vec::new(),
        log: Vec::new(),
        at: CopyPoint::Checking { src },
    };
    assert(run@.pending =~= Seq::<Seq<u8>>::empty());
    assert(run@.log =~= Seq::<ActionView>::empty());
    (run, request)
}

/// Starts to copy the directory `src` to `dst`.
pub fn copy_dir_recursive(src: PathBuf, dst: PathBuf) -> (turn: Turn<CopyDir, CopyOutcome>)
    ensures
        turn@ == copy_start(src@, dst@),
{
    let (run, request) = begin_copy(src, dst);
    Turn::Ask(run, request)
}

impl CopyDir {
    /// Takes an entry of the directory that is being copied.
    fn entry(self, dir: PathBuf, target: PathBuf, path: PathBuf, is_dir: bool) -> (turn: Turn<
        CopyDir,
        CopyOutcome,
    >)
        requires
            self@.at == (CopyPointView::Reading { dir: dir@, target: target@ }),
        ensures
            turn@ == copy_entry(self@, dir@, target@, path@, is_dir),
    {
        let CopyDir { depth, dst, mut pending, mut log, at } = self;
        if is_dir {
            let ghost waiting = path_views(pending@);
            let ghost done = action_views(log@);
            let ghost shown = path@;
            if git_dir(&path) {
                log.push(Action::IgnorePath { src: path });
                assert(action_views(log@) =~= done.push(ActionView::IgnorePath { src: shown }));
            } else {
                pending.push(path);
                assert(path_views(pending@) =~= waiting.push(shown));
            }
            return Turn::Ask(CopyDir { depth, dst, pending, log, at }, Request::NextEntry);
        }
        match path.file_name() {
            Some(name) => {
                if wanted_file(&path) {
                    let to = target.join(name.as_slice());
                    let request = Request::CopyFile { src: path.clone(), dst: to.clone() };
                    let at = CopyPoint::Copying { dir, target, from: path, to };
                    Turn::Ask(CopyDir { depth, dst, pending, log, at }, request)
                } else {
                    let ghost done = action_views(log@);
                    let ghost shown = path@;
                    log.push(Action::IgnorePath { src: path });
                    assert(action_views(log@) =~= done.push(ActionView::IgnorePath { src: shown }));
                    Turn::Ask(CopyDir { depth, dst, pending, log, at }, Request::NextEntry)
                }
            },
            None => Turn::Ask(CopyDir { depth, dst, pending, log, at }, Request::NextEntry),
        }
    }

    /// Goes on with the reply to what was asked for.
    pub fn step(self, reply: Reply) -> (turn: Turn<CopyDir, CopyOutcome>)
        ensures
            turn@ == copy_step(self@, reply@),
    {
        let CopyDir { depth, dst, mut pending, mut log, at } = self;
        let ghost waiting = path_views(pending@);
        let ghost done = action_views(log@);
        match at {
            CopyPoint::Checking { src } => match reply {
                Reply::Answer(true) => {
                    let ghost shown = src@;
                    pending.push(src);
                    assert(path_views(pending@) =~= waiting.push(shown));
                    next_dir(depth, dst, pending, log)
                },
                _ => Turn::End(CopyOutcome::Failed(CopyError::NotADirectory)),
            },
            CopyPoint::Probing { dir, target } => match reply {
                Reply::Answer(true) => {
                    let request = Request::OpenDir(dir.clone());
                    let at = CopyPoint::Opening { dir, target };
                    Turn::Ask(CopyDir { depth, dst, pending, log, at }, request)
                },
                _ => {
                    let request = Request::CreateDirAll(target.clone());
                    let at = CopyPoint::Creating { dir, target };
                    Turn::Ask(CopyDir { depth, dst, pending, log, at }, request)
                },
            },
            CopyPoint::Creating { dir, target } => match reply {
                Reply::Done => {
                    let ghost shown = target@;
                    log.push(Action::CreateDir { dir: target.clone() });
                    assert(action_views(log@) =~= done.push(ActionView::CreateDir { dir: shown }));
                    let request = Request::OpenDir(dir.clone());
                    let at = CopyPoint::Opening { dir, target };
                    Turn::Ask(CopyDir { depth, dst, pending, log, at }, request)
                },
                _ => Turn::End(CopyOutcome::Failed(CopyError::CreateDir)),
            },
            CopyPoint::Opening { dir, target } => match reply {
                Reply::Done => {
                    let at = CopyPoint::Reading { dir, target };
                    Turn::Ask(CopyDir { depth, dst, pending, log, at }, Request::NextEntry)
                },
                _ => Turn::End(CopyOutcome::Failed(CopyError::OpenDir)),
            },
            CopyPoint::Reading { dir, target } => match reply {
                Reply::Entry { path, is_dir } => {
                    let at = CopyPoint::Reading { dir: dir.clone(), target: target.clone() };
                    CopyDir { depth, dst, pending, log, at }.entry(dir, target, path, is_dir)
                },
                Reply::EndOfDir => next_dir(depth, dst, pending, log),
                _ => Turn::End(CopyOutcome::Failed(CopyError::ReadEntry)),
            },
            CopyPoint::Copying { dir, target, from, to } => match reply {
                Reply::Done => {
                    let ghost shown = ActionView::CopyFile { src: from@, dst: to@ };
                    log.push(Action::CopyFile { src: from, dst: to });
                    assert(action_views(log@) =~= done.push(shown));
                    let at = CopyPoint::Reading { dir, target };
                    Turn::Ask(CopyDir { depth, dst, pending, log, at }, Request::NextEntry)
                },
                _ => Turn::End(CopyOutcome::Failed(CopyError::CopyFile)),
            },
        }
    }
}

// ---------------------------------------------------------------------------
// What is copied
// ---------------------------------------------------------------------------

/// The bytes of the texts that decide what is copied.
proof fn lemma_texts()
    ensures
        text_bytes("proto"@) == seq![0x70u8, 0x72u8, 0x6fu8, 0x74u8, 0x6fu8],
        text_bytes(".proto"@) == seq![0x2eu8, 0x70u8, 0x72u8, 0x6fu8, 0x74u8, 0x6fu8],
{
    reveal_strlit("proto");
    reveal_strlit(".proto");
    vstd::utf8::is_ascii_chars_encode_utf8("proto"@);
    vstd::utf8::is_ascii_chars_encode_utf8(".proto"@);
    assert(text_bytes("proto"@) =~= seq![0x70u8, 0x72u8, 0x6fu8, 0x74u8, 0x6fu8]);
    assert(text_bytes(".proto"@) =~= seq![0x2eu8, 0x70u8, 0x72u8, 0x6fu8, 0x74u8, 0x6fu8]);
}

/// A directory is left out exactly where its name is `.git`, byte for byte: every
/// other directory is copied, whatever it is called and wherever it is.
pub proof fn law_only_git_is_left_out(dir: Seq<u8>, name: Seq<u8>)
    requires
        is_plain_name(name),
    ensures
        is_git_dir(join(dir, name)) <==> name == vstd::utf8::encode_utf8(".git"@),
{
    lemma_join_plain_name(dir, name);
}

/// A file is wanted exactly where its name ends in `.proto`, with something ahead of
/// that, or is `buf.yaml` or `buf.lock`, wherever it is.
pub proof fn law_wanted_files_are_protobuf_files(dir: Seq<u8>, name: Seq<u8>)
    requires
        is_plain_name(name),
    ensures
        is_wanted_file(join(dir, name)) <==> {
            ||| name == vstd::utf8::encode_utf8("buf.yaml"@)
            ||| name == vstd::utf8::encode_utf8("buf.lock"@)
            ||| exists|stem: Seq<u8>|
                stem.len() > 0 && name == #[trigger] (stem + vstd::utf8::encode_utf8(".proto"@))
        },
{
    let path = join(dir, name);
    let ext = text_bytes("proto"@);
    let dotted = text_bytes(".proto"@);
    lemma_join_plain_name(dir, name);
    lemma_texts();
    if extension(path) == Some(ext) {
        lemma_extension_is_of_the_name(path);
        let stem = choose|stem: Seq<u8>|
            stem.len() > 0 && file_name(path) == Some(#[trigger] stem.push(0x2e) + ext);
        assert(stem.push(0x2e) + ext =~= stem + dotted);
    }
    if exists|stem: Seq<u8>| stem.len() > 0 && name == #[trigger] (stem + dotted) {
        let stem = choose|stem: Seq<u8>| stem.len() > 0 && name == #[trigger] (stem + dotted);
        assert(stem.push(0x2e) + ext =~= stem + dotted);
        law_extension_follows_the_last_dot(path, stem, ext);
    }
}

/// What has no name is neither left out nor wanted.
pub proof fn law_nothing_is_decided_without_a_name(path: Seq<u8>)
    requires
        file_name(path) is None,
    ensures
        !is_git_dir(path),
        !is_wanted_file(path),
{
}

/// A log says of each thing that was done, in order, what it was, of the very paths
/// that it holds.
pub proof fn law_logs_say_what_was_done(log: ActionLog, i: int)
    ensures
        log@.len() == log.actions@.len(),
        0 <= i < log.actions@.len() ==> match log.actions@[i] {
            Action::CopyFile { src, dst } => log@[i] == (ActionView::CopyFile {
                src: src.bytes@,
                dst: dst.bytes@,
            }),
            Action::CreateDir { dir } => log@[i] == (ActionView::CreateDir { dir: dir.bytes@ }),
            Action::IgnorePath { src } => log@[i] == (ActionView::IgnorePath { src: src.bytes@ }),
        },
{
    if 0 <= i < log.actions@.len() {
        assert(log@[i] == log.actions@[i]@);
    }
}

} // verus!
