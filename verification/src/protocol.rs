//! How a run and the outside world take turns.
//!
//! A run asks for one piece of work, is handed the reply, and either asks for
//! the next or ends with an outcome.
use crate::actions::{BuildActions, TargetBuildActionsView};
use crate::command::{Command, CommandView};
use crate::index::{CacheEntryView, CacheIndex};
use crate::path::PathBuf;
use vstd::prelude::*;

verus! {

/// A piece of outside work.
#[derive(Debug)]
pub enum Request {
    /// Make the directory; its parent has to be there.
    CreateDir(PathBuf),
    /// Make the directory and what is missing above it.
    CreateDirAll(PathBuf),
    /// Tell whether this is a directory.
    IsDir(PathBuf),
    /// Tell whether there is anything here.
    Exists(PathBuf),
    /// Start reading the directory.
    OpenDir(PathBuf),
    /// Read the next entry of the directory that was opened last.
    NextEntry,
    /// Tell whether this directory has no entry.
    IsEmptyDir(PathBuf),
    /// Remove the file.
    RemoveFile(PathBuf),
    /// Remove the directory; it has to be empty.
    RemoveDir(PathBuf),
    /// Remove the directory and everything in it.
    RemoveDirAll(PathBuf),
    /// Copy the file.
    CopyFile { src: PathBuf, dst: PathBuf },
    /// Start the program and wait until it ends.
    Run(Command),
    /// Think of a name that nothing has yet.
    FreshName,
    /// Read the index of the cache.
    ReadCacheIndex(PathBuf),
    /// Write the index of the cache.
    WriteCacheIndex { path: PathBuf, index: CacheIndex },
    /// Read the record of what builds added.
    ReadBuildActions(PathBuf),
    /// Write the record of what builds added.
    WriteBuildActions { path: PathBuf, actions: BuildActions },
}

/// What came of a request. A run takes a reply that does not fit what it asked
/// for as [`Reply::Failed`].
#[derive(Debug)]
pub enum Reply {
    /// It was done.
    Done,
    /// It could not be done.
    Failed,
    /// The answer to a question.
    Answer(bool),
    /// An entry of the directory, and whether it is a directory itself.
    Entry { path: PathBuf, is_dir: bool },
    /// The directory has no more entries.
    EndOfDir,
    /// The program ran, and said whether it was successful.
    Exited { success: bool },
    /// A name that nothing has yet.
    Name(String),
    /// The index of the cache, as read.
    CacheIndex(CacheIndex),
    /// The record of what builds added, as read.
    BuildActions(BuildActions),
}

pub enum RequestView {
    CreateDir(Seq<u8>),
    CreateDirAll(Seq<u8>),
    IsDir(Seq<u8>),
    Exists(Seq<u8>),
    OpenDir(Seq<u8>),
    NextEntry,
    IsEmptyDir(Seq<u8>),
    RemoveFile(Seq<u8>),
    RemoveDir(Seq<u8>),
    RemoveDirAll(Seq<u8>),
    CopyFile { src: Seq<u8>, dst: Seq<u8> },
    Run(CommandView),
    FreshName,
    ReadCacheIndex(Seq<u8>),
    WriteCacheIndex { path: Seq<u8>, index: Seq<CacheEntryView> },
    ReadBuildActions(Seq<u8>),
    WriteBuildActions { path: Seq<u8>, actions: Seq<TargetBuildActionsView> },
}

pub enum ReplyView {
    Done,
    Failed,
    Answer(bool),
    Entry { path: Seq<u8>, is_dir: bool },
    EndOfDir,
    Exited { success: bool },
    Name(Seq<char>),
    CacheIndex(Seq<CacheEntryView>),
    BuildActions(Seq<TargetBuildActionsView>),
}

impl View for Request {
    type V = RequestView;

    open spec fn view(&self) -> RequestView {
        match self {
            Request::CreateDir(p) => RequestView::CreateDir(p@),
            Request::CreateDirAll(p) => RequestView::CreateDirAll(p@),
            Request::IsDir(p) => RequestView::IsDir(p@),
            Request::Exists(p) => RequestView::Exists(p@),
            Request::OpenDir(p) => RequestView::OpenDir(p@),
            Request::NextEntry => RequestView::NextEntry,
            Request::IsEmptyDir(p) => RequestView::IsEmptyDir(p@),
            Request::RemoveFile(p) => RequestView::RemoveFile(p@),
            Request::RemoveDir(p) => RequestView::RemoveDir(p@),
            Request::RemoveDirAll(p) => RequestView::RemoveDirAll(p@),
            Request::CopyFile { src, dst } => RequestView::CopyFile { src: src@, dst: dst@ },
            Request::Run(command) => RequestView::Run(command@),
            Request::FreshName => RequestView::FreshName,
            Request::ReadCacheIndex(p) => RequestView::ReadCacheIndex(p@),
            Request::WriteCacheIndex { path, index } => RequestView::WriteCacheIndex {
                path: path@,
                index: index@,
            },
            Request::ReadBuildActions(p) => RequestView::ReadBuildActions(p@),
            Request::WriteBuildActions { path, actions } => RequestView::WriteBuildActions {
                path: path@,
                actions: actions@,
            },
        }
    }
}

impl View for Reply {
    type V = ReplyView;

    open spec fn view(&self) -> ReplyView {
        match self {
            Reply::Done => ReplyView::Done,
            Reply::Failed => ReplyView::Failed,
            Reply::Answer(yes) => ReplyView::Answer(*yes),
            Reply::Entry { path, is_dir } => ReplyView::Entry { path: path@, is_dir: *is_dir },
            Reply::EndOfDir => ReplyView::EndOfDir,
            Reply::Exited { success } => ReplyView::Exited { success: *success },
            Reply::Name(name) => ReplyView::Name(name@),
            Reply::CacheIndex(index) => ReplyView::CacheIndex(index@),
            Reply::BuildActions(actions) => ReplyView::BuildActions(actions@),
        }
    }
}

/// Where a run stands: it waits for the reply to a request, or it has ended.
#[derive(Debug)]
pub enum Turn<R, T> {
    Ask(R, Request),
    End(T),
}

pub enum TurnView<R, T> {
    Ask(R, RequestView),
    End(T),
}

impl<R: View, T: View> View for Turn<R, T> {
    type V = TurnView<R::V, T::V>;

    open spec fn view(&self) -> TurnView<R::V, T::V> {
        match self {
            Turn::Ask(run, request) => TurnView::Ask(run@, request@),
            Turn::End(outcome) => TurnView::End(outcome@),
        }
    }
}

// ---------------------------------------------------------------------------
// Whole runs
// ---------------------------------------------------------------------------

/// Where a run stands after the replies, from where it started. Replies that
/// come after it has ended are not looked at.
pub open spec fn after<R, T>(
    start: TurnView<R, T>,
    step: spec_fn(R, ReplyView) -> TurnView<R, T>,
    replies: Seq<ReplyView>,
) -> TurnView<R, T>
    decreases replies.len(),
{
    if replies.len() == 0 {
        start
    } else {
        match after(start, step, replies.drop_last()) {
            TurnView::Ask(run, _) => step(run, replies.last()),
            TurnView::End(outcome) => TurnView::End(outcome),
        }
    }
}

/// Everything that a run asks for while it is given the replies, the request
/// that it then waits on included.
pub open spec fn requests<R, T>(
    start: TurnView<R, T>,
    step: spec_fn(R, ReplyView) -> TurnView<R, T>,
    replies: Seq<ReplyView>,
) -> Seq<RequestView>
    decreases replies.len(),
{
    let earlier = if replies.len() == 0 {
        Seq::empty()
    } else {
        requests(start, step, replies.drop_last())
    };
    match after(start, step, replies) {
        TurnView::Ask(_, request) => earlier.push(request),
        TurnView::End(_) => earlier,
    }
}

/// Whether each reply is one that `fits` where the run stands when it comes.
pub open spec fn all_fit<R, T>(
    start: TurnView<R, T>,
    step: spec_fn(R, ReplyView) -> TurnView<R, T>,
    fits: spec_fn(R, ReplyView) -> bool,
    replies: Seq<ReplyView>,
) -> bool
    decreases replies.len(),
{
    replies.len() > 0 ==> {
        &&& all_fit(start, step, fits, replies.drop_last())
        &&& after(start, step, replies.drop_last()) matches TurnView::Ask(run, _) ==> fits(
            run,
            replies.last(),
        )
    }
}

/// What holds at the start and is kept by every step holds wherever a run
/// stands, whatever the replies.
pub proof fn lemma_always<R, T>(
    start: TurnView<R, T>,
    step: spec_fn(R, ReplyView) -> TurnView<R, T>,
    fits: spec_fn(R, ReplyView) -> bool,
    holds: spec_fn(TurnView<R, T>) -> bool,
    replies: Seq<ReplyView>,
)
    requires
        holds(start),
        forall|run: R, request: RequestView, reply: ReplyView|
            #![trigger holds(TurnView::Ask(run, request)), step(run, reply)]
            holds(TurnView::Ask(run, request)) && fits(run, reply) ==> holds(step(run, reply)),
        all_fit(start, step, fits, replies),
    ensures
        holds(after(start, step, replies)),
    decreases replies.len(),
{
    if replies.len() > 0 {
        lemma_always(start, step, fits, holds, replies.drop_last());
        match after(start, step, replies.drop_last()) {
            TurnView::Ask(run, request) => {
                assert(fits(run, replies.last()));
                assert(holds(TurnView::Ask(run, request)));
            },
            TurnView::End(_) => {},
        }
    }
}

/// Going on with later replies goes on from where the earlier ones led.
pub proof fn lemma_after_splits<R, T>(
    start: TurnView<R, T>,
    step: spec_fn(R, ReplyView) -> TurnView<R, T>,
    first: Seq<ReplyView>,
    rest: Seq<ReplyView>,
)
    ensures
        after(start, step, first + rest) == after(after(start, step, first), step, rest),
    decreases rest.len(),
{
    if rest.len() == 0 {
        assert(first + rest =~= first);
    } else {
        lemma_after_splits(start, step, first, rest.drop_last());
        assert((first + rest).drop_last() =~= first + rest.drop_last());
        assert((first + rest).last() == rest.last());
    }
}

/// Where every reply fits, all of them do.
pub proof fn lemma_everything_fits<R, T>(
    start: TurnView<R, T>,
    step: spec_fn(R, ReplyView) -> TurnView<R, T>,
    fits: spec_fn(R, ReplyView) -> bool,
    replies: Seq<ReplyView>,
)
    requires
        forall|run: R, reply: ReplyView| #[trigger] fits(run, reply),
    ensures
        all_fit(start, step, fits, replies),
    decreases replies.len(),
{
    if replies.len() > 0 {
        lemma_everything_fits(start, step, fits, replies.drop_last());
    }
}

/// Where all replies fit, so do the first of them.
pub proof fn lemma_first_fit<R, T>(
    start: TurnView<R, T>,
    step: spec_fn(R, ReplyView) -> TurnView<R, T>,
    fits: spec_fn(R, ReplyView) -> bool,
    replies: Seq<ReplyView>,
    k: int,
)
    requires
        all_fit(start, step, fits, replies),
        0 <= k <= replies.len(),
    ensures
        all_fit(start, step, fits, replies.take(k)),
    decreases replies.len(),
{
    if k == replies.len() {
        assert(replies.take(k) =~= replies);
    } else {
        lemma_first_fit(start, step, fits, replies.drop_last(), k);
        assert(replies.drop_last().take(k) =~= replies.take(k));
    }
}

/// A request says what is asked for, of the very path that it holds.
pub proof fn law_requests_say_what_is_asked_for(request: Request)
    ensures
        match request {
            Request::CreateDir(p) => request@ == RequestView::CreateDir(p.bytes@),
            Request::CreateDirAll(p) => request@ == RequestView::CreateDirAll(p.bytes@),
            Request::IsDir(p) => request@ == RequestView::IsDir(p.bytes@),
            Request::Exists(p) => request@ == RequestView::Exists(p.bytes@),
            Request::OpenDir(p) => request@ == RequestView::OpenDir(p.bytes@),
            Request::NextEntry => request@ == RequestView::NextEntry,
            Request::IsEmptyDir(p) => request@ == RequestView::IsEmptyDir(p.bytes@),
            Request::RemoveFile(p) => request@ == RequestView::RemoveFile(p.bytes@),
            Request::RemoveDir(p) => request@ == RequestView::RemoveDir(p.bytes@),
            Request::RemoveDirAll(p) => request@ == RequestView::RemoveDirAll(p.bytes@),
            Request::CopyFile { src, dst } => request@ == (RequestView::CopyFile {
                src: src.bytes@,
                dst: dst.bytes@,
            }),
            Request::Run(command) => request@ == RequestView::Run(command@),
            Request::FreshName => request@ == RequestView::FreshName,
            Request::ReadCacheIndex(p) => request@ == RequestView::ReadCacheIndex(p.bytes@),
            Request::WriteCacheIndex { path, index } => request@ == (RequestView::WriteCacheIndex {
                path: path.bytes@,
                index: index@,
            }),
            Request::ReadBuildActions(p) => request@ == RequestView::ReadBuildActions(p.bytes@),
            Request::WriteBuildActions { path, actions } => request@ == (
            RequestView::WriteBuildActions { path: path.bytes@, actions: actions@ }),
        },
{
}

/// A reply says what came of the request, and of the very path that it holds.
pub proof fn law_replies_say_what_came_of_it(reply: Reply)
    ensures
        match reply {
            Reply::Done => reply@ == ReplyView::Done,
            Reply::Failed => reply@ == ReplyView::Failed,
            Reply::Answer(yes) => reply@ == ReplyView::Answer(yes),
            Reply::Entry { path, is_dir } => reply@ == (ReplyView::Entry {
                path: path.bytes@,
                is_dir,
            }),
            Reply::EndOfDir => reply@ == ReplyView::EndOfDir,
            Reply::Exited { success } => reply@ == (ReplyView::Exited { success }),
            Reply::Name(name) => reply@ == ReplyView::Name(name@),
            Reply::CacheIndex(index) => reply@ == ReplyView::CacheIndex(index@),
            Reply::BuildActions(actions) => reply@ == ReplyView::BuildActions(actions@),
        },
{
}

} // verus!
