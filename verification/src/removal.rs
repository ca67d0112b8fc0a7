//! Removing what the last build of a target added.
use crate::actions::{TargetBuildActions, TargetBuildActionsView};
use crate::order::{
    descending, law_sort_forgets_the_listed_order, law_sort_puts_inner_first, law_sort_rearranges,
    sort_descending,
};
use crate::path::{is_below, path_views, same_path, PathBuf};
use crate::protocol::{
    after, requests, Reply, ReplyView, Request, RequestView, Turn, TurnView,
};
use crate::stat::copy_paths;
use vstd::prelude::*;

verus! {

/// The removal of what a build added, as far as it has come.
#[derive(Debug)]
pub struct TargetClean {
    files: Vec<PathBuf>,
    dirs: Vec<PathBuf>,
    at: CleanPoint,
}

/// What a removal waits for: `n` counts from the first file, or the first
/// directory, to be removed.
#[derive(Debug)]
pub enum CleanPoint {
    /// File `n` to be removed.
    File(usize),
    /// Word on whether directory `n` is empty.
    Probe(usize),
    /// Directory `n` to be removed.
    Dir(usize),
}

/// How a removal ends.
#[derive(Debug)]
pub enum CleanOutcome {
    Cleaned,
    Failed(CleanError),
}

/// Why a removal stopped.
#[derive(Debug)]
pub enum CleanError {
    /// The file could not be removed.
    RemoveFile(PathBuf),
    /// The directory could not be read.
    ReadDir(PathBuf),
    /// The directory is not empty.
    NotEmpty(PathBuf),
    /// The directory could not be removed.
    RemoveDir(PathBuf),
}

pub struct TargetCleanView {
    pub files: Seq<Seq<u8>>,
    pub dirs: Seq<Seq<u8>>,
    pub at: CleanPointView,
}

pub enum CleanPointView {
    File(int),
    Probe(int),
    Dir(int),
}

pub enum CleanOutcomeView {
    Cleaned,
    Failed(CleanErrorView),
}

pub enum CleanErrorView {
    RemoveFile(Seq<u8>),
    ReadDir(Seq<u8>),
    NotEmpty(Seq<u8>),
    RemoveDir(Seq<u8>),
}

impl View for CleanPoint {
    type V = CleanPointView;

    open spec fn view(&self) -> CleanPointView {
        match self {
            CleanPoint::File(n) => CleanPointView::File(*n as int),
            CleanPoint::Probe(n) => CleanPointView::Probe(*n as int),
            CleanPoint::Dir(n) => CleanPointView::Dir(*n as int),
        }
    }
}

impl View for TargetClean {
    type V = TargetCleanView;

    closed spec fn view(&self) -> TargetCleanView {
        TargetCleanView {
            files: path_views(self.files@),
            dirs: path_views(self.dirs@),
            at: self.at@,
        }
    }
}

impl View for CleanError {
    type V = CleanErrorView;

    open spec fn view(&self) -> CleanErrorView {
        match self {
            CleanError::RemoveFile(p) => CleanErrorView::RemoveFile(p@),
            CleanError::ReadDir(p) => CleanErrorView::ReadDir(p@),
            CleanError::NotEmpty(p) => CleanErrorView::NotEmpty(p@),
            CleanError::RemoveDir(p) => CleanErrorView::RemoveDir(p@),
        }
    }
}

impl View for CleanOutcome {
    type V = CleanOutcomeView;

    open spec fn view(&self) -> CleanOutcomeView {
        match self {
            CleanOutcome::Cleaned => CleanOutcomeView::Cleaned,
            CleanOutcome::Failed(error) => CleanOutcomeView::Failed(error@),
        }
    }
}

/// Goes on with directory `n`, or ends where there is none.
pub open spec fn clean_dirs_from(files: Seq<Seq<u8>>, dirs: Seq<Seq<u8>>, n: int) -> TurnView<
    TargetCleanView,
    CleanOutcomeView,
> {
    if n < dirs.len() {
        TurnView::Ask(
            TargetCleanView { files, dirs, at: CleanPointView::Probe(n) },
            RequestView::IsEmptyDir(dirs[n]),
        )
    } else {
        TurnView::End(CleanOutcomeView::Cleaned)
    }
}

/// Goes on with file `n`, or with the directories where there is none.
pub open spec fn clean_files_from(files: Seq<Seq<u8>>, dirs: Seq<Seq<u8>>, n: int) -> TurnView<
    TargetCleanView,
    CleanOutcomeView,
> {
    if n < files.len() {
        TurnView::Ask(
            TargetCleanView { files, dirs, at: CleanPointView::File(n) },
            RequestView::RemoveFile(files[n]),
        )
    } else {
        clean_dirs_from(files, dirs, 0)
    }
}

/// Files come first, in the order in which they are recorded, and then the
/// directories, later paths first.
pub open spec fn clean_start(record: TargetBuildActionsView) -> TurnView<
    TargetCleanView,
    CleanOutcomeView,
> {
    clean_files_from(record.diff.files, descending(record.diff.dirs), 0)
}

/// A directory is removed only on word that it is empty. The first thing that
/// goes wrong ends the removal.
pub open spec fn clean_step(run: TargetCleanView, reply: ReplyView) -> TurnView<
    TargetCleanView,
    CleanOutcomeView,
> {
    match run.at {
        CleanPointView::File(n) => if reply is Done {
            clean_files_from(run.files, run.dirs, n + 1)
        } else {
            TurnView::End(CleanOutcomeView::Failed(CleanErrorView::RemoveFile(run.files[n])))
        },
        CleanPointView::Probe(n) => match reply {
            ReplyView::Answer(empty) => if empty {
                TurnView::Ask(
                    TargetCleanView { at: CleanPointView::Dir(n), ..run },
                    RequestView::RemoveDir(run.dirs[n]),
                )
            } else {
                TurnView::End(CleanOutcomeView::Failed(CleanErrorView::NotEmpty(run.dirs[n])))
            },
            _ => TurnView::End(CleanOutcomeView::Failed(CleanErrorView::ReadDir(run.dirs[n]))),
        },
        CleanPointView::Dir(n) => if reply is Done {
            clean_dirs_from(run.files, run.dirs, n + 1)
        } else {
            TurnView::End(CleanOutcomeView::Failed(CleanErrorView::RemoveDir(run.dirs[n])))
        },
    }
}

/// A removal waits for something that is there to be removed.
pub open spec fn clean_in_range(run: TargetCleanView) -> bool {
    match run.at {
        CleanPointView::File(n) => 0 <= n < run.files.len(),
        CleanPointView::Probe(n) => 0 <= n < run.dirs.len(),
        CleanPointView::Dir(n) => 0 <= n < run.dirs.len(),
    }
}

/// Goes on with directory `n`, or ends where there is none.
fn dirs_from(files: Vec<PathBuf>, dirs: Vec<PathBuf>, n: usize) -> (turn: Turn<
    TargetClean,
    CleanOutcome,
>)
    ensures
        turn@ == clean_dirs_from(path_views(files@), path_views(dirs@), n as int),
        turn matches Turn::Ask(run, _) ==> clean_in_range(run@),
{
    if n < dirs.len() {
        let dir = dirs[n].clone();
        Turn::Ask(TargetClean { files, dirs, at: CleanPoint::Probe(n) }, Request::IsEmptyDir(dir))
    } else {
        Turn::End(CleanOutcome::Cleaned)
    }
}

/// Goes on with file `n`, or with the directories where there is none.
fn files_from(files: Vec<PathBuf>, dirs: Vec<PathBuf>, n: usize) -> (turn: Turn<
    TargetClean,
    CleanOutcome,
>)
    ensures
        turn@ == clean_files_from(path_views(files@), path_views(dirs@), n as int),
        turn matches Turn::Ask(run, _) ==> clean_in_range(run@),
{
    if n < files.len() {
        let file = files[n].clone();
        Turn::Ask(TargetClean { files, dirs, at: CleanPoint::File(n) }, Request::RemoveFile(file))
    } else {
        dirs_from(files, dirs, 0)
    }
}

/// Starts to remove what the build added.
pub fn target_clean(actions: &TargetBuildActions) -> (turn: Turn<TargetClean, CleanOutcome>)
    ensures
        turn@ == clean_start(actions@),
{
    files_from(copy_paths(&actions.diff.files), sort_descending(copy_paths(&actions.diff.dirs)), 0)
}

impl TargetClean {
    #[verifier::type_invariant]
    spec fn well_formed(self) -> bool {
        clean_in_range(self@)
    }

    /// Goes on with the reply to what was asked for.
    pub fn step(self, reply: Reply) -> (turn: Turn<TargetClean, CleanOutcome>)
        ensures
            turn@ == clean_step(self@, reply@),
    {
        proof {
            use_type_invariant(&self);
        }
        let TargetClean { files, dirs, at } = self;
        assert(files.len() == files@.len() && dirs.len() == dirs@.len());
        match at {
            CleanPoint::File(n) => match reply {
                Reply::Done => files_from(files, dirs, n + 1),
                _ => Turn::End(CleanOutcome::Failed(CleanError::RemoveFile(files[n].clone()))),
            },
            CleanPoint::Probe(n) => {
                let dir = dirs[n].clone();
                match reply {
                    Reply::Answer(true) => Turn::Ask(
                        TargetClean { files, dirs, at: CleanPoint::Dir(n) },
                        Request::RemoveDir(dir),
                    ),
                    Reply::Answer(false) => Turn::End(
                        CleanOutcome::Failed(CleanError::NotEmpty(dir)),
                    ),
                    _ => Turn::End(CleanOutcome::Failed(CleanError::ReadDir(dir))),
                }
            },
            CleanPoint::Dir(n) => match reply {
                Reply::Done => dirs_from(files, dirs, n + 1),
                _ => Turn::End(CleanOutcome::Failed(CleanError::RemoveDir(dirs[n].clone()))),
            },
        }
    }
}

// ---------------------------------------------------------------------------
// What a whole removal does
// ---------------------------------------------------------------------------

/// What was asked to be removed, in order.
pub open spec fn removed(asked: Seq<RequestView>) -> Seq<Seq<u8>>
    decreases asked.len(),
{
    if asked.len() == 0 {
        Seq::empty()
    } else {
        let earlier = removed(asked.drop_last());
        match asked.last() {
            RequestView::RemoveFile(p) => earlier.push(p),
            RequestView::RemoveDir(p) => earlier.push(p),
            _ => earlier,
        }
    }
}

/// Everything that the record says was added, in the order in which it goes.
pub open spec fn removal_order(record: TargetBuildActionsView) -> Seq<Seq<u8>> {
    record.diff.files + descending(record.diff.dirs)
}

/// The step of a removal, to follow a whole one with.
pub open spec fn clean_stepper() -> spec_fn(TargetCleanView, ReplyView) -> TurnView<
    TargetCleanView,
    CleanOutcomeView,
> {
    |run: TargetCleanView, reply: ReplyView| clean_step(run, reply)
}

/// What a request asks to be removed.
pub open spec fn removal_asked(request: RequestView) -> Seq<Seq<u8>> {
    match request {
        RequestView::RemoveFile(p) => seq![p],
        RequestView::RemoveDir(p) => seq![p],
        _ => Seq::empty(),
    }
}

/// What was asked to be removed, with what is asked for now.
pub open spec fn also_removed(
    done: Seq<Seq<u8>>,
    turn: TurnView<TargetCleanView, CleanOutcomeView>,
) -> Seq<Seq<u8>> {
    match turn {
        TurnView::Ask(_, request) => done + removal_asked(request),
        TurnView::End(_) => done,
    }
}

/// How much of the removal has been asked for, and for what it waits.
pub open spec fn clean_progress(
    record: TargetBuildActionsView,
    turn: TurnView<TargetCleanView, CleanOutcomeView>,
    done: Seq<Seq<u8>>,
) -> bool {
    let files = record.diff.files;
    let dirs = descending(record.diff.dirs);
    let order = removal_order(record);
    match turn {
        TurnView::Ask(run, request) => {
            &&& run.files == files
            &&& run.dirs == dirs
            &&& clean_in_range(run)
            &&& match run.at {
                CleanPointView::File(n) => request == RequestView::RemoveFile(files[n]) && done
                    == order.take(n + 1),
                CleanPointView::Probe(n) => request == RequestView::IsEmptyDir(dirs[n]) && done
                    == order.take(files.len() + n),
                CleanPointView::Dir(n) => request == RequestView::RemoveDir(dirs[n]) && done
                    == order.take(files.len() + n + 1),
            }
        },
        TurnView::End(outcome) => {
            &&& done.len() <= order.len()
            &&& done == order.take(done.len() as int)
            &&& outcome is Cleaned ==> done == order
        },
    }
}

/// A removal starts at the beginning.
pub proof fn lemma_clean_starts(record: TargetBuildActionsView)
    ensures
        clean_progress(
            record,
            clean_start(record),
            also_removed(Seq::empty(), clean_start(record)),
        ),
{
    let order = removal_order(record);
    let done = also_removed(Seq::empty(), clean_start(record));
    if record.diff.files.len() > 0 {
        assert(done =~= order.take(1));
    } else if order.len() > 0 {
        assert(done =~= order.take(0));
    } else {
        assert(done =~= order);
        assert(done =~= order.take(0));
    }
}

/// A step takes a removal on from where it is.
pub proof fn lemma_clean_goes_on(
    record: TargetBuildActionsView,
    run: TargetCleanView,
    request: RequestView,
    done: Seq<Seq<u8>>,
    reply: ReplyView,
)
    requires
        clean_progress(record, TurnView::Ask(run, request), done),
    ensures
        clean_progress(record, clean_step(run, reply), also_removed(done, clean_step(run, reply))),
{
    let order = removal_order(record);
    let turn = clean_step(run, reply);
    let now = also_removed(done, turn);
    match turn {
        TurnView::Ask(next, _) => match next.at {
            CleanPointView::File(n) => {
                assert(now =~= order.take(n + 1));
            },
            CleanPointView::Probe(n) => {
                assert(now =~= order.take(record.diff.files.len() + n));
            },
            CleanPointView::Dir(n) => {
                assert(now =~= order.take(record.diff.files.len() + n + 1));
            },
        },
        TurnView::End(_) => {
            assert(order.take(order.len() as int) =~= order);
            assert(now =~= order.take(now.len() as int));
        },
    }
}

/// One more request removes what it asks to be removed.
pub proof fn lemma_removed_push(asked: Seq<RequestView>, request: RequestView)
    ensures
        removed(asked.push(request)) == removed(asked) + removal_asked(request),
{
    assert(asked.push(request).drop_last() =~= asked);
    assert(removed(asked.push(request)) =~= removed(asked) + removal_asked(request));
}

proof fn lemma_clean_so_far(record: TargetBuildActionsView, replies: Seq<ReplyView>)
    ensures
        clean_progress(
            record,
            after(clean_start(record), clean_stepper(), replies),
            removed(requests(clean_start(record), clean_stepper(), replies)),
        ),
    decreases replies.len(),
{
    let start = clean_start(record);
    let step = clean_stepper();
    if replies.len() == 0 {
        lemma_clean_starts(record);
        match start {
            TurnView::Ask(_, request) => {
                lemma_removed_push(Seq::empty(), request);
            },
            TurnView::End(_) => {},
        }
    } else {
        let earlier = replies.drop_last();
        lemma_clean_so_far(record, earlier);
        let asked = requests(start, step, earlier);
        match after(start, step, earlier) {
            TurnView::Ask(run, request) => {
                lemma_clean_goes_on(record, run, request, removed(asked), replies.last());
                match after(start, step, replies) {
                    TurnView::Ask(_, next) => {
                        lemma_removed_push(asked, next);
                    },
                    TurnView::End(_) => {},
                }
            },
            TurnView::End(_) => {},
        }
    }
}

/// A removal asks for nothing to be removed but what the record says was added,
/// files first and then directories, later paths first, each once and none
/// before those that come ahead of it; and where it ends well it has asked for
/// all of it.
pub proof fn law_clean_removes_what_was_added(
    record: TargetBuildActionsView,
    replies: Seq<ReplyView>,
)
    ensures
        ({
            let turn = after(clean_start(record), clean_stepper(), replies);
            let done = removed(requests(clean_start(record), clean_stepper(), replies));
            &&& done.len() <= removal_order(record).len()
            &&& done == removal_order(record).take(done.len() as int)
            &&& turn == TurnView::<TargetCleanView, CleanOutcomeView>::End(
                CleanOutcomeView::Cleaned,
            ) ==> done == removal_order(record)
        }),
{
    lemma_clean_so_far(record, replies);
    let order = removal_order(record);
    let done = removed(requests(clean_start(record), clean_stepper(), replies));
    match after(clean_start(record), clean_stepper(), replies) {
        TurnView::Ask(run, _) => {
            assert(done =~= order.take(done.len() as int));
        },
        TurnView::End(_) => {},
    }
}

/// A directory is asked to be removed only right after word came that it is
/// empty.
pub proof fn law_clean_removes_empty_dirs_only(
    record: TargetBuildActionsView,
    replies: Seq<ReplyView>,
    run: TargetCleanView,
    dir: Seq<u8>,
)
    requires
        after(clean_start(record), clean_stepper(), replies) == TurnView::<
            TargetCleanView,
            CleanOutcomeView,
        >::Ask(run, RequestView::RemoveDir(dir)),
    ensures
        replies.len() > 0,
        replies.last() == ReplyView::Answer(true),
        after(clean_start(record), clean_stepper(), replies.drop_last()) matches TurnView::Ask(
            _,
            request,
        ) && request == RequestView::IsEmptyDir(dir),
{
    lemma_clean_so_far(record, replies);
    if replies.len() > 0 {
        lemma_clean_so_far(record, replies.drop_last());
    }
}

/// By the time a directory is asked to be removed, so was everything that was
/// added below it.
pub proof fn law_clean_goes_from_the_inside_out(
    record: TargetBuildActionsView,
    replies: Seq<ReplyView>,
    run: TargetCleanView,
    outer: Seq<u8>,
    inner: Seq<u8>,
)
    requires
        after(clean_start(record), clean_stepper(), replies) == TurnView::<
            TargetCleanView,
            CleanOutcomeView,
        >::Ask(run, RequestView::RemoveDir(outer)),
        is_below(inner, outer),
        record.diff.files.contains(inner) || record.diff.dirs.contains(inner),
    ensures
        removed(requests(clean_start(record), clean_stepper(), replies)).contains(inner),
{
    broadcast use vstd::seq_lib::group_to_multiset_ensures;
    lemma_clean_so_far(record, replies);
    let files = record.diff.files;
    let dirs = descending(record.diff.dirs);
    let order = removal_order(record);
    let done = removed(requests(clean_start(record), clean_stepper(), replies));
    match run.at {
        CleanPointView::Dir(n) => {
            if files.contains(inner) {
                let i = choose|i: int| 0 <= i < files.len() && files[i] == inner;
                assert(done[i] == inner);
            } else {
                law_sort_rearranges(record.diff.dirs);
                assert(record.diff.dirs.to_multiset().count(inner) > 0);
                assert(dirs.contains(inner));
                let i = choose|i: int| 0 <= i < dirs.len() && dirs[i] == inner;
                law_sort_puts_inner_first(record.diff.dirs, i, n);
                assert(done[files.len() + i] == inner);
            }
        },
        _ => {},
    }
}

/// Whether two requests ask for the same thing, however the paths are written.
pub open spec fn same_removal(a: RequestView, b: RequestView) -> bool {
    match (a, b) {
        (RequestView::RemoveFile(p), RequestView::RemoveFile(q)) => same_path(p, q),
        (RequestView::IsEmptyDir(p), RequestView::IsEmptyDir(q)) => same_path(p, q),
        (RequestView::RemoveDir(p), RequestView::RemoveDir(q)) => same_path(p, q),
        _ => false,
    }
}

/// Whether two removals stand at the same place: both wait for the same thing, or
/// both have ended, well or not.
pub open spec fn same_stand(
    a: TurnView<TargetCleanView, CleanOutcomeView>,
    b: TurnView<TargetCleanView, CleanOutcomeView>,
) -> bool {
    match (a, b) {
        (TurnView::Ask(_, p), TurnView::Ask(_, q)) => same_removal(p, q),
        (TurnView::End(p), TurnView::End(q)) => p is Cleaned <==> q is Cleaned,
        _ => false,
    }
}

/// What keeps two removals together.
spec fn in_step(
    a: TurnView<TargetCleanView, CleanOutcomeView>,
    b: TurnView<TargetCleanView, CleanOutcomeView>,
) -> bool {
    &&& same_stand(a, b)
    &&& a matches TurnView::Ask(x, _) ==> (b matches TurnView::Ask(y, _) && {
        &&& clean_in_range(x)
        &&& x.at == y.at
        &&& x.files == y.files
        &&& x.dirs.len() == y.dirs.len()
        &&& forall|i: int| 0 <= i < x.dirs.len() ==> same_path(#[trigger] x.dirs[i], y.dirs[i])
    })
}

/// The order in which the record lists directories does not matter: two removals
/// of the same files and directories, given the same replies, ask for the same
/// things one after the other and end alike.
pub proof fn law_listed_order_does_not_matter(
    a: TargetBuildActionsView,
    b: TargetBuildActionsView,
    replies: Seq<ReplyView>,
)
    requires
        a.diff.files == b.diff.files,
        a.diff.dirs.to_multiset() == b.diff.dirs.to_multiset(),
    ensures
        same_stand(
            after(clean_start(a), clean_stepper(), replies),
            after(clean_start(b), clean_stepper(), replies),
        ),
        ({
            let first = requests(clean_start(a), clean_stepper(), replies);
            let second = requests(clean_start(b), clean_stepper(), replies);
            &&& first.len() == second.len()
            &&& forall|i: int|
                0 <= i < first.len() ==> same_removal(#[trigger] first[i], second[i])
        }),
{
    lemma_in_step(a, b, replies);
}

proof fn lemma_in_step(
    a: TargetBuildActionsView,
    b: TargetBuildActionsView,
    replies: Seq<ReplyView>,
)
    requires
        a.diff.files == b.diff.files,
        a.diff.dirs.to_multiset() == b.diff.dirs.to_multiset(),
    ensures
        in_step(
            after(clean_start(a), clean_stepper(), replies),
            after(clean_start(b), clean_stepper(), replies),
        ),
        ({
            let first = requests(clean_start(a), clean_stepper(), replies);
            let second = requests(clean_start(b), clean_stepper(), replies);
            &&& first.len() == second.len()
            &&& forall|i: int|
                0 <= i < first.len() ==> same_removal(#[trigger] first[i], second[i])
        }),
    decreases replies.len(),
{
    law_sort_forgets_the_listed_order(a.diff.dirs, b.diff.dirs);
    if replies.len() > 0 {
        lemma_in_step(a, b, replies.drop_last());
    }
}

} // verus!
