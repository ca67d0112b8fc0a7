//! Finding everything that is below a directory.
use crate::path::{path_views, PathBuf};
use crate::protocol::{
    after, requests, Reply, ReplyView, Request, RequestView, Turn, TurnView,
};
use crate::stat::{Stat, StatView};
use vstd::prelude::*;

verus! {

/// A look at everything below a directory, as far as it has come.
#[derive(Debug)]
pub struct TargetStat {
    pending: Vec<PathBuf>,
    found: Stat,
    opening: Option<PathBuf>,
}

/// How a look at a directory ends.
#[derive(Debug)]
pub enum StatOutcome {
    /// What there is.
    Found(Stat),
    /// Something could not be read.
    Failed(StatError),
}

/// What could not be read.
#[derive(Debug)]
pub enum StatError {
    /// The directory.
    ReadDir(PathBuf),
    /// An entry of a directory.
    ReadEntry,
}

pub struct TargetStatView {
    /// The directories that were found and not opened yet; the last is next.
    pub pending: Seq<Seq<u8>>,
    /// What was found.
    pub found: StatView,
    /// The directory that is being opened. Where there is none, the entries of
    /// the one that was opened last are being read.
    pub opening: Option<Seq<u8>>,
}

pub enum StatOutcomeView {
    Found(StatView),
    Failed(StatErrorView),
}

pub enum StatErrorView {
    ReadDir(Seq<u8>),
    ReadEntry,
}

impl View for TargetStat {
    type V = TargetStatView;

    closed spec fn view(&self) -> TargetStatView {
        TargetStatView {
            pending: path_views(self.pending@),
            found: self.found@,
            opening: match self.opening {
                Some(dir) => Some(dir@),
                None => None,
            },
        }
    }
}

impl View for StatError {
    type V = StatErrorView;

    open spec fn view(&self) -> StatErrorView {
        match self {
            StatError::ReadDir(dir) => StatErrorView::ReadDir(dir@),
            StatError::ReadEntry => StatErrorView::ReadEntry,
        }
    }
}

impl View for StatOutcome {
    type V = StatOutcomeView;

    open spec fn view(&self) -> StatOutcomeView {
        match self {
            StatOutcome::Found(stat) => StatOutcomeView::Found(stat@),
            StatOutcome::Failed(error) => StatOutcomeView::Failed(error@),
        }
    }
}

/// Opens the directory that is next, or ends where none is left.
pub open spec fn stat_next(pending: Seq<Seq<u8>>, found: StatView) -> TurnView<
    TargetStatView,
    StatOutcomeView,
> {
    if pending.len() == 0 {
        TurnView::End(StatOutcomeView::Found(found))
    } else {
        TurnView::Ask(
            TargetStatView { pending: pending.drop_last(), found, opening: Some(pending.last()) },
            RequestView::OpenDir(pending.last()),
        )
    }
}

/// A look at everything below `dir` starts with `dir`.
pub open spec fn stat_start(dir: Seq<u8>) -> TurnView<TargetStatView, StatOutcomeView> {
    stat_next(seq![dir], StatView::empty())
}

/// An entry that is a directory is noted as one and read in its turn; any other
/// entry is noted as a file. A directory or an entry that cannot be read ends
/// the look.
pub open spec fn stat_step(run: TargetStatView, reply: ReplyView) -> TurnView<
    TargetStatView,
    StatOutcomeView,
> {
    match run.opening {
        Some(dir) => if reply is Done {
            TurnView::Ask(TargetStatView { opening: None, ..run }, RequestView::NextEntry)
        } else {
            TurnView::End(StatOutcomeView::Failed(StatErrorView::ReadDir(dir)))
        },
        None => match reply {
            ReplyView::Entry { path, is_dir } => if is_dir {
                TurnView::Ask(
                    TargetStatView {
                        pending: run.pending.push(path),
                        found: StatView { dirs: run.found.dirs.push(path), ..run.found },
                        opening: None,
                    },
                    RequestView::NextEntry,
                )
            } else {
                TurnView::Ask(
                    TargetStatView {
                        pending: run.pending,
                        found: StatView { files: run.found.files.push(path), ..run.found },
                        opening: None,
                    },
                    RequestView::NextEntry,
                )
            },
            ReplyView::EndOfDir => stat_next(run.pending, run.found),
            _ => TurnView::End(StatOutcomeView::Failed(StatErrorView::ReadEntry)),
        },
    }
}

/// Opens the directory that is next, or ends where none is left.
fn open_next(pending: Vec<PathBuf>, found: Stat) -> (turn: Turn<TargetStat, StatOutcome>)
    ensures
        turn@ == stat_next(path_views(pending@), found@),
{
    let mut pending = pending;
    let ghost all = path_views(pending@);
    match pending.pop() {
        Some(dir) => {
            proof {
                assert(path_views(pending@) =~= all.drop_last());
                assert(all.last() == dir@);
            }
            Turn::Ask(
                TargetStat { pending, found, opening: Some(dir.clone()) },
                Request::OpenDir(dir),
            )
        },
        None => Turn::End(StatOutcome::Found(found)),
    }
}

/// A look at everything below `dir` that has just begun, and what it asks for.
pub fn begin_stat(dir: &PathBuf) -> (begun: (TargetStat, Request))
    ensures
        stat_start(dir@) matches TurnView::Ask(run, request) && run == begun.0@ && request
            == begun.1@,
{
    let pending: Vec<PathBuf> = Vec::new();
    let run = TargetStat { pending, found: Stat::default(), opening: Some(dir.clone()) };
    assert(run@.pending =~= seq![dir@].drop_last());
    (run, Request::OpenDir(dir.clone()))
}

/// Starts to look at everything below `dir`.
pub fn target_stat(dir: &PathBuf) -> (turn: Turn<TargetStat, StatOutcome>)
    ensures
        turn@ == stat_start(dir@),
{
    let (run, request) = begin_stat(dir);
    Turn::Ask(run, request)
}

impl TargetStat {
    /// Goes on with the reply to what was asked for.
    pub fn step(self, reply: Reply) -> (turn: Turn<TargetStat, StatOutcome>)
        ensures
            turn@ == stat_step(self@, reply@),
    {
        let TargetStat { mut pending, mut found, opening } = self;
        match opening {
            Some(dir) => match reply {
                Reply::Done => Turn::Ask(
                    TargetStat { pending, found, opening: None },
                    Request::NextEntry,
                ),
                _ => Turn::End(StatOutcome::Failed(StatError::ReadDir(dir))),
            },
            None => match reply {
                Reply::Entry { path, is_dir } => {
                    let ghost shown = path@;
                    let ghost seen = found@;
                    let ghost waiting = path_views(pending@);
                    if is_dir {
                        found.dirs.push(path.clone());
                        pending.push(path);
                        proof {
                            assert(found@.dirs =~= seen.dirs.push(shown));
                            assert(path_views(pending@) =~= waiting.push(shown));
                        }
                    } else {
                        found.files.push(path);
                        assert(found@.files =~= seen.files.push(shown));
                    }
                    Turn::Ask(TargetStat { pending, found, opening: None }, Request::NextEntry)
                },
                Reply::EndOfDir => open_next(pending, found),
                _ => Turn::End(StatOutcome::Failed(StatError::ReadEntry)),
            },
        }
    }
}

// ---------------------------------------------------------------------------
// What a whole look finds
// ---------------------------------------------------------------------------

/// The entries that the replies tell of, in order: those that are directories,
/// or those that are not.
pub open spec fn entries_told(replies: Seq<ReplyView>, dirs: bool) -> Seq<Seq<u8>>
    decreases replies.len(),
{
    if replies.len() == 0 {
        Seq::empty()
    } else {
        let earlier = entries_told(replies.drop_last(), dirs);
        match replies.last() {
            ReplyView::Entry { path, is_dir } => if is_dir == dirs {
                earlier.push(path)
            } else {
                earlier
            },
            _ => earlier,
        }
    }
}

/// The directories that were opened, in order.
pub open spec fn dirs_opened(asked: Seq<RequestView>) -> Seq<Seq<u8>>
    decreases asked.len(),
{
    if asked.len() == 0 {
        Seq::empty()
    } else {
        let earlier = dirs_opened(asked.drop_last());
        match asked.last() {
            RequestView::OpenDir(dir) => earlier.push(dir),
            _ => earlier,
        }
    }
}

/// The step of a look, to follow a whole one with.
pub open spec fn stat_stepper() -> spec_fn(TargetStatView, ReplyView) -> TurnView<
    TargetStatView,
    StatOutcomeView,
> {
    |run: TargetStatView, reply: ReplyView| stat_step(run, reply)
}

/// What has been found at any time is what the replies told of, and of the
/// directories found so far each was opened or is still to be.
proof fn lemma_stat_so_far(dir: Seq<u8>, replies: Seq<ReplyView>)
    ensures
        after(stat_start(dir), stat_stepper(), replies) matches TurnView::Ask(run, _) ==> {
            &&& run.found.dirs == entries_told(replies, true)
            &&& run.found.files == entries_told(replies, false)
            &&& dirs_opened(requests(stat_start(dir), stat_stepper(), replies)).to_multiset().add(
                run.pending.to_multiset(),
            ) == run.found.dirs.to_multiset().insert(dir)
        },
    decreases replies.len(),
{
    broadcast use vstd::seq_lib::group_to_multiset_ensures;
    let start = stat_start(dir);
    let step = stat_stepper();
    let asked = requests(start, step, replies);
    reveal_with_fuel(dirs_opened, 2);
    if replies.len() == 0 {
        assert(asked =~= seq![RequestView::OpenDir(dir)]);
        assert(asked.drop_last() =~= Seq::<RequestView>::empty());
        assert(dirs_opened(asked) =~= Seq::<Seq<u8>>::empty().push(dir));
        assert(seq![dir].drop_last() =~= Seq::<Seq<u8>>::empty());
        assert(dirs_opened(asked).to_multiset().add(Seq::<Seq<u8>>::empty().to_multiset())
            =~= Seq::<Seq<u8>>::empty().to_multiset().insert(dir));
    } else {
        let earlier = replies.drop_last();
        lemma_stat_so_far(dir, earlier);
        match (after(start, step, earlier), after(start, step, replies)) {
            (TurnView::Ask(was, _), TurnView::Ask(run, request)) => {
                let asked_before = requests(start, step, earlier);
                assert(asked == asked_before.push(request));
                assert(asked.drop_last() =~= asked_before);
                let opened = dirs_opened(asked_before);
                match request {
                    RequestView::OpenDir(next) => {
                        assert(was.pending =~= run.pending.push(next));
                        assert(dirs_opened(asked) == opened.push(next));
                        assert(opened.push(next).to_multiset().add(run.pending.to_multiset())
                            =~= opened.to_multiset().add(run.pending.push(next).to_multiset()));
                    },
                    _ => {
                        assert(dirs_opened(asked) == opened);
                        match replies.last() {
                            ReplyView::Entry { path, is_dir } => if is_dir && was.opening is None {
                                assert(opened.to_multiset().add(
                                    was.pending.push(path).to_multiset(),
                                ) =~= opened.to_multiset().add(was.pending.to_multiset()).insert(
                                    path,
                                ));
                                assert(was.found.dirs.push(path).to_multiset().insert(dir)
                                    =~= was.found.dirs.to_multiset().insert(dir).insert(path));
                            },
                            _ => {},
                        }
                    },
                }
            },
            _ => {},
        }
    }
}

/// A look that comes to its end tells of exactly the entries that it was told
/// of, in order, and has opened `dir` and every directory that it found, each
/// as often as it was found.
pub proof fn law_stat_finds_everything(
    dir: Seq<u8>,
    replies: Seq<ReplyView>,
    last: ReplyView,
    stat: StatView,
)
    requires
        after(stat_start(dir), stat_stepper(), replies) is Ask,
        after(stat_start(dir), stat_stepper(), replies.push(last)) == TurnView::<
            TargetStatView,
            StatOutcomeView,
        >::End(StatOutcomeView::Found(stat)),
    ensures
        stat.dirs == entries_told(replies, true),
        stat.files == entries_told(replies, false),
        dirs_opened(requests(stat_start(dir), stat_stepper(), replies)).to_multiset()
            == stat.dirs.to_multiset().insert(dir),
{
    broadcast use vstd::seq_lib::group_to_multiset_ensures;
    lemma_stat_so_far(dir, replies);
    assert(replies.push(last).drop_last() =~= replies);
    match after(stat_start(dir), stat_stepper(), replies) {
        TurnView::Ask(run, _) => {
            assert(run.pending =~= Seq::<Seq<u8>>::empty());
            assert(dirs_opened(requests(stat_start(dir), stat_stepper(), replies)).to_multiset().add(
                run.pending.to_multiset(),
            ) =~= dirs_opened(requests(stat_start(dir), stat_stepper(), replies)).to_multiset());
        },
        TurnView::End(_) => {},
    }
}

} // verus!
