//! What building or cleaning up targets removes.
use crate::actions::{
    find_record, law_set_then_find, record_index, set_record, TargetBuildActionsView,
};
use crate::built::{is_in_shape, lemma_loaded, lemma_shape, targets_stepper, told_records};
use crate::config::CompileTargetView;
use crate::order::{holds_path, law_sort_rearranges};
use crate::path::same_path;
use crate::protocol::{after, all_fit, requests, ReplyView, RequestView, TurnView};
use crate::removal::{
    also_removed, clean_progress, clean_step, lemma_clean_goes_on, lemma_clean_starts,
    lemma_removed_push, removal_asked, removal_order, removed, CleanOutcomeView, CleanPointView,
    TargetCleanView,
};
use crate::stat::{law_diff_of_nothing_new_is_empty, stat_diff, StatView};
use crate::targets::{
    clear_target, empty_target, removal_of, target_from, targets_start, targets_step, Job,
    RoundView, TargetsOutcomeView, TargetsPointView, TargetsRunView,
};
use crate::walk::{stat_step, StatOutcomeView};
use vstd::prelude::*;

verus! {

// ---------------------------------------------------------------------------
// Nothing but what builds added
// ---------------------------------------------------------------------------

/// What the record says that the last build of the target added.
pub open spec fn recorded_of(
    actions: Seq<TargetBuildActionsView>,
    target: CompileTargetView,
) -> StatView {
    match find_record(actions, target.out_path) {
        Some(record) => record.diff,
        None => StatView::empty(),
    }
}

/// Whether a request removes nothing, or something that the record says a build
/// of one of the targets added.
pub open spec fn removes_what_builds_added(
    targets: Seq<CompileTargetView>,
    actions: Seq<TargetBuildActionsView>,
    request: RequestView,
) -> bool {
    match request {
        RequestView::RemoveFile(p) => exists|n: int|
            0 <= n < targets.len() && recorded_of(actions, #[trigger] targets[n]).files.contains(p),
        RequestView::RemoveDir(p) => exists|n: int|
            0 <= n < targets.len() && recorded_of(actions, #[trigger] targets[n]).dirs.contains(p),
        RequestView::RemoveDirAll(_) => false,
        _ => true,
    }
}

/// Whether a removal that is under way is the one of that record.
spec fn is_removal_of(
    record: Option<TargetBuildActionsView>,
    clean: TargetCleanView,
    request: RequestView,
) -> bool {
    record matches Some(record) && exists|done: Seq<Seq<u8>>| #[trigger]
        clean_progress(record, TurnView::Ask(clean, request), done)
}

/// What holds of a run wherever it stands: what it removes is what the record
/// says of the target that it is at.
spec fn removal_is_recorded(
    targets: Seq<CompileTargetView>,
    turn: TurnView<TargetsRunView, TargetsOutcomeView>,
) -> bool {
    turn matches TurnView::Ask(run, request) ==> match run.at {
        TargetsPointView::Clearing(n, clean) => is_removal_of(
            find_record(run.round.actions, targets[n].out_path),
            clean,
            request,
        ),
        TargetsPointView::Emptying(n, _, clean) => is_removal_of(
            find_record(run.round.actions, targets[n].out_path),
            clean,
            request,
        ),
        _ => !(request is RemoveFile) && !(request is RemoveDir) && !(request is RemoveDirAll),
    }
}

/// A removal that has just begun is the one of the record.
proof fn lemma_begun_removal_is_recorded(round: RoundView, n: int)
    ensures
        removal_of(round, n) matches TurnView::Ask(clean, request) ==> is_removal_of(
            find_record(round.actions, round.targets[n].out_path),
            clean,
            request,
        ),
{
    match find_record(round.actions, round.targets[n].out_path) {
        Some(record) => {
            lemma_clean_starts(record);
        },
        None => {},
    }
}

/// A removal that goes on is still the one of the record.
proof fn lemma_removal_stays_recorded(
    record: Option<TargetBuildActionsView>,
    clean: TargetCleanView,
    request: RequestView,
    reply: ReplyView,
)
    requires
        is_removal_of(record, clean, request),
    ensures
        clean_step(clean, reply) matches TurnView::Ask(next, asked) ==> is_removal_of(
            record,
            next,
            asked,
        ),
{
    match record {
        Some(record) => {
            let done = choose|done: Seq<Seq<u8>>| #[trigger]
                clean_progress(record, TurnView::Ask(clean, request), done);
            lemma_clean_goes_on(record, clean, request, done, reply);
        },
        None => {},
    }
}

proof fn lemma_removals_are_recorded(
    targets: Seq<CompileTargetView>,
    job: Job,
    replies: Seq<ReplyView>,
)
    ensures
        removal_is_recorded(
            targets,
            after(targets_start(targets, job), targets_stepper(), replies),
        ),
    decreases replies.len(),
{
    let start = targets_start(targets, job);
    let step = targets_stepper();
    if replies.len() > 0 {
        let earlier = replies.drop_last();
        lemma_removals_are_recorded(targets, job, earlier);
        lemma_shape(targets, job, earlier);
        match after(start, step, earlier) {
            TurnView::Ask(was, request) => {
                let round = was.round;
                let reply = replies.last();
                match was.at {
                    TargetsPointView::Loading => {
                        lemma_begun_removal_is_recorded(
                            RoundView { actions: told_records(seq![reply]), ..round },
                            0,
                        );
                    },
                    TargetsPointView::Clearing(n, clean) => {
                        let record = find_record(round.actions, targets[n].out_path);
                        lemma_removal_stays_recorded(record, clean, request, reply);
                    },
                    TargetsPointView::Before(n, _) => {
                        lemma_begun_removal_is_recorded(round, n);
                    },
                    TargetsPointView::Emptying(n, _, clean) => {
                        let record = find_record(round.actions, targets[n].out_path);
                        lemma_removal_stays_recorded(record, clean, request, reply);
                    },
                    TargetsPointView::After(n, before, stat) => {
                        match stat_step(stat, reply) {
                            TurnView::End(StatOutcomeView::Found(found)) => {
                                let actions = set_record(
                                    round.actions,
                                    targets[n].out_path,
                                    stat_diff(before, found),
                                );
                                lemma_begun_removal_is_recorded(
                                    RoundView { actions, ..round },
                                    n + 1,
                                );
                            },
                            _ => {},
                        }
                    },
                    _ => {},
                }
            },
            TurnView::End(_) => {},
        }
    }
}

/// Building and cleaning up remove nothing but what the record says a build of
/// one of the targets added.
pub proof fn law_only_what_builds_added_is_removed(
    targets: Seq<CompileTargetView>,
    job: Job,
    replies: Seq<ReplyView>,
    run: TargetsRunView,
    request: RequestView,
)
    requires
        after(targets_start(targets, job), targets_stepper(), replies) == TurnView::<
            TargetsRunView,
            TargetsOutcomeView,
        >::Ask(run, request),
    ensures
        removes_what_builds_added(targets, run.round.actions, request),
{
    broadcast use vstd::seq_lib::group_to_multiset_ensures;
    lemma_shape(targets, job, replies);
    lemma_removals_are_recorded(targets, job, replies);
    let under_way = match run.at {
        TargetsPointView::Clearing(n, clean) => Some((n, clean)),
        TargetsPointView::Emptying(n, _, clean) => Some((n, clean)),
        _ => None,
    };
    match under_way {
        Some((n, clean)) => {
            let record = find_record(run.round.actions, targets[n].out_path)->0;
            law_sort_rearranges(record.diff.dirs);
            match clean.at {
                CleanPointView::File(i) => {
                    assert(record.diff.files.contains(record.diff.files[i]));
                },
                CleanPointView::Probe(_) => {},
                CleanPointView::Dir(i) => {
                    assert(clean.dirs.contains(clean.dirs[i]));
                    assert(clean.dirs.to_multiset().count(clean.dirs[i]) > 0);
                    assert(record.diff.dirs.contains(clean.dirs[i]));
                },
            }
        },
        None => {},
    }
}

// ---------------------------------------------------------------------------
// All of what builds added
// ---------------------------------------------------------------------------

/// Whether no two targets are at the same path.
pub open spec fn distinct_targets(targets: Seq<CompileTargetView>) -> bool {
    forall|i: int, j: int|
        #![trigger targets[i], targets[j]]
        0 <= i < j < targets.len() ==> !same_path(targets[i].out_path, targets[j].out_path)
}

/// What is to be removed of what the record says, in order.
pub open spec fn removal_due(record: Option<TargetBuildActionsView>) -> Seq<Seq<u8>> {
    match record {
        Some(record) => removal_order(record),
        None => Seq::empty(),
    }
}

/// What the record says that builds of the first `n` targets added, in the order
/// in which it goes.
pub open spec fn removals_due(
    targets: Seq<CompileTargetView>,
    records: Seq<TargetBuildActionsView>,
    n: int,
) -> Seq<Seq<u8>>
    decreases n,
{
    if n <= 0 {
        Seq::empty()
    } else {
        removals_due(targets, records, n - 1) + removal_due(
            find_record(records, targets[n - 1].out_path),
        )
    }
}

/// Whether a reply to a removal is what is hoped for.
pub open spec fn clean_goes_well(clean: TargetCleanView, reply: ReplyView) -> bool {
    match clean.at {
        CleanPointView::File(_) => reply is Done,
        CleanPointView::Probe(_) => reply == ReplyView::Answer(true),
        CleanPointView::Dir(_) => reply is Done,
    }
}

/// Whether every removal goes well, to hold the replies of a whole run to.
pub open spec fn removals_go_well() -> spec_fn(TargetsRunView, ReplyView) -> bool {
    |run: TargetsRunView, reply: ReplyView|
        match run.at {
            TargetsPointView::Clearing(_, clean) => clean_goes_well(clean, reply),
            TargetsPointView::Emptying(_, _, clean) => clean_goes_well(clean, reply),
            _ => true,
        }
}

/// Whether the record says of the targets from `n` on what it said at first.
spec fn untouched_from(
    targets: Seq<CompileTargetView>,
    base: Seq<TargetBuildActionsView>,
    actions: Seq<TargetBuildActionsView>,
    n: int,
) -> bool {
    forall|i: int|
        n <= i < targets.len() ==> find_record(actions, (#[trigger] targets[i]).out_path)
            == find_record(base, targets[i].out_path)
}

/// Whether the removal for target `n` is under way, and what it has asked for is
/// the rest of `gone`.
spec fn removal_under_way(
    targets: Seq<CompileTargetView>,
    base: Seq<TargetBuildActionsView>,
    n: int,
    clean: TargetCleanView,
    request: RequestView,
    gone: Seq<Seq<u8>>,
) -> bool {
    let due = removals_due(targets, base, n);
    &&& due.len() <= gone.len()
    &&& gone == due + gone.skip(due.len() as int)
    &&& find_record(base, targets[n].out_path) matches Some(record) && clean_progress(
        record,
        TurnView::Ask(clean, request),
        gone.skip(due.len() as int),
    )
}

/// How far a run has come: `gone` is what it has asked to be removed.
spec fn removals_progress(
    targets: Seq<CompileTargetView>,
    job: Job,
    base: Seq<TargetBuildActionsView>,
    turn: TurnView<TargetsRunView, TargetsOutcomeView>,
    gone: Seq<Seq<u8>>,
) -> bool {
    match turn {
        TurnView::Ask(run, request) => {
            let actions = run.round.actions;
            match run.at {
                TargetsPointView::Loading => gone.len() == 0,
                TargetsPointView::Clearing(n, clean) => untouched_from(targets, base, actions, n)
                    && removal_under_way(targets, base, n, clean, request, gone),
                TargetsPointView::Before(n, _) => untouched_from(targets, base, actions, n) && gone
                    == removals_due(
                    targets,
                    base,
                    if job is Build {
                        n + 1
                    } else {
                        n
                    },
                ),
                TargetsPointView::Generating(n, _, _) => untouched_from(targets, base, actions, n)
                    && gone == removals_due(targets, base, n + 1),
                TargetsPointView::Emptying(n, _, clean) => untouched_from(
                    targets,
                    base,
                    actions,
                    n,
                ) && removal_under_way(targets, base, n, clean, request, gone),
                TargetsPointView::After(n, _, _) => untouched_from(targets, base, actions, n)
                    && gone == removals_due(targets, base, n + 1),
                TargetsPointView::Storing => gone == removals_due(
                    targets,
                    base,
                    targets.len() as int,
                ),
            }
        },
        TurnView::End(TargetsOutcomeView::Finished) => gone == removals_due(
            targets,
            base,
            targets.len() as int,
        ),
        TurnView::End(_) => true,
    }
}

/// What was asked to be removed, with what is asked for now.
spec fn gone_now(
    gone: Seq<Seq<u8>>,
    turn: TurnView<TargetsRunView, TargetsOutcomeView>,
) -> Seq<Seq<u8>> {
    match turn {
        TurnView::Ask(_, request) => gone + removal_asked(request),
        TurnView::End(_) => gone,
    }
}

/// Takes the removal for target `n` on: `done` is what it has asked for before.
proof fn lemma_removal_progresses(
    job: Job,
    base: Seq<TargetBuildActionsView>,
    round: RoundView,
    n: int,
    before: StatView,
    removal: TurnView<TargetCleanView, CleanOutcomeView>,
    done: Seq<Seq<u8>>,
)
    requires
        0 <= n < round.targets.len(),
        round.job == job,
        untouched_from(round.targets, base, round.actions, n),
        match find_record(base, round.targets[n].out_path) {
            Some(record) => clean_progress(record, removal, also_removed(done, removal)),
            None => removal is End && done.len() == 0,
        },
        removal matches TurnView::End(outcome) ==> outcome is Cleaned,
    ensures
        job is Build ==> removals_progress(
            round.targets,
            job,
            base,
            clear_target(round, n, removal),
            gone_now(
                removals_due(round.targets, base, n) + done,
                clear_target(round, n, removal),
            ),
        ),
        job is Clean ==> removals_progress(
            round.targets,
            job,
            base,
            empty_target(round, n, before, removal),
            gone_now(
                removals_due(round.targets, base, n) + done,
                empty_target(round, n, before, removal),
            ),
        ),
{
    let due = removals_due(round.targets, base, n);
    let gone = due + done;
    match removal {
        TurnView::Ask(clean, request) => {
            let now = gone + removal_asked(request);
            assert(now.skip(due.len() as int) =~= done + removal_asked(request));
            assert(now =~= due + now.skip(due.len() as int));
            assert(removal_under_way(round.targets, base, n, clean, request, now));
        },
        TurnView::End(_) => {
            assert(done =~= removal_due(find_record(base, round.targets[n].out_path)));
            assert(gone == removals_due(round.targets, base, n + 1));
            assert(gone + Seq::<Seq<u8>>::empty() =~= gone);
        },
    }
}

/// Begins the removal for target `n`.
proof fn lemma_removal_begins(
    job: Job,
    base: Seq<TargetBuildActionsView>,
    round: RoundView,
    n: int,
    before: StatView,
)
    requires
        0 <= n < round.targets.len(),
        round.job == job,
        untouched_from(round.targets, base, round.actions, n),
    ensures
        job is Build ==> removals_progress(
            round.targets,
            job,
            base,
            clear_target(round, n, removal_of(round, n)),
            gone_now(
                removals_due(round.targets, base, n),
                clear_target(round, n, removal_of(round, n)),
            ),
        ),
        job is Clean ==> removals_progress(
            round.targets,
            job,
            base,
            empty_target(round, n, before, removal_of(round, n)),
            gone_now(
                removals_due(round.targets, base, n),
                empty_target(round, n, before, removal_of(round, n)),
            ),
        ),
{
    let none = Seq::<Seq<u8>>::empty();
    let due = removals_due(round.targets, base, n);
    let record = find_record(base, round.targets[n].out_path);
    assert(find_record(round.actions, round.targets[n].out_path) == record);
    match record {
        Some(record) => {
            lemma_clean_starts(record);
        },
        None => {},
    }
    lemma_removal_progresses(job, base, round, n, before, removal_of(round, n), none);
    assert(due + none =~= due);
}

/// Goes on with target `n`, with the removals of those before it done.
proof fn lemma_target_begins(
    job: Job,
    base: Seq<TargetBuildActionsView>,
    round: RoundView,
    n: int,
)
    requires
        0 <= n <= round.targets.len(),
        round.job == job,
        untouched_from(round.targets, base, round.actions, n),
    ensures
        removals_progress(
            round.targets,
            job,
            base,
            target_from(round, n),
            gone_now(removals_due(round.targets, base, n), target_from(round, n)),
        ),
{
    let due = removals_due(round.targets, base, n);
    assert(due + Seq::<Seq<u8>>::empty() =~= due);
    if n < round.targets.len() {
        lemma_removal_begins(job, base, round, n, StatView::empty());
    }
}

proof fn lemma_step_progresses(
    targets: Seq<CompileTargetView>,
    job: Job,
    base: Seq<TargetBuildActionsView>,
    was: TargetsRunView,
    request: RequestView,
    gone: Seq<Seq<u8>>,
    reply: ReplyView,
)
    requires
        distinct_targets(targets),
        is_in_shape(targets, job, TurnView::Ask(was, request)),
        removals_progress(targets, job, base, TurnView::Ask(was, request), gone),
        removals_go_well()(was, reply),
        was.at is Loading ==> base == told_records(seq![reply]),
    ensures
        removals_progress(
            targets,
            job,
            base,
            targets_step(was, reply),
            gone_now(gone, targets_step(was, reply)),
        ),
{
    let round = was.round;
    let none = Seq::<Seq<u8>>::empty();
    assert(gone + none =~= gone);
    match was.at {
        TargetsPointView::Loading => {
            assert(gone =~= removals_due(targets, base, 0));
            lemma_target_begins(job, base, RoundView { actions: base, ..round }, 0);
        },
        TargetsPointView::Clearing(n, clean) => {
            let record = find_record(base, targets[n].out_path)->0;
            let done = gone.skip(removals_due(targets, base, n).len() as int);
            lemma_clean_goes_on(record, clean, request, done, reply);
            let removal = clean_step(clean, reply);
            lemma_removal_progresses(job, base, round, n, StatView::empty(), removal, done);
        },
        TargetsPointView::Before(n, stat) => {
            match stat_step(stat, reply) {
                TurnView::End(StatOutcomeView::Found(before)) => {
                    if job is Clean {
                        lemma_removal_begins(job, base, round, n, before);
                    }
                },
                _ => {},
            }
        },
        TargetsPointView::Emptying(n, before, clean) => {
            let record = find_record(base, targets[n].out_path)->0;
            let done = gone.skip(removals_due(targets, base, n).len() as int);
            lemma_clean_goes_on(record, clean, request, done, reply);
            let removal = clean_step(clean, reply);
            lemma_removal_progresses(job, base, round, n, before, removal, done);
        },
        TargetsPointView::After(n, before, stat) => {
            match stat_step(stat, reply) {
                TurnView::End(StatOutcomeView::Found(found)) => {
                    let out = targets[n].out_path;
                    let diff = stat_diff(before, found);
                    let actions = set_record(round.actions, out, diff);
                    assert forall|i: int| n + 1 <= i < targets.len() implies find_record(
                        actions,
                        (#[trigger] targets[i]).out_path,
                    ) == find_record(base, targets[i].out_path) by {
                        assert(!same_path(targets[n].out_path, targets[i].out_path));
                        law_set_then_find(round.actions, out, diff, targets[i].out_path);
                    }
                    lemma_target_begins(job, base, RoundView { actions, ..round }, n + 1);
                },
                _ => {},
            }
        },
        _ => {},
    }
}

proof fn lemma_removals_so_far(targets: Seq<CompileTargetView>, job: Job, replies: Seq<ReplyView>)
    requires
        distinct_targets(targets),
        all_fit(targets_start(targets, job), targets_stepper(), removals_go_well(), replies),
    ensures
        removals_progress(
            targets,
            job,
            told_records(replies),
            after(targets_start(targets, job), targets_stepper(), replies),
            removed(requests(targets_start(targets, job), targets_stepper(), replies)),
        ),
    decreases replies.len(),
{
    let start = targets_start(targets, job);
    let step = targets_stepper();
    let base = told_records(replies);
    if replies.len() == 0 {
        match start {
            TurnView::Ask(_, request) => {
                lemma_removed_push(Seq::empty(), request);
            },
            TurnView::End(_) => {},
        }
    } else {
        let earlier = replies.drop_last();
        lemma_removals_so_far(targets, job, earlier);
        lemma_shape(targets, job, earlier);
        lemma_loaded(targets, job, earlier);
        let asked = requests(start, step, earlier);
        assert(earlier.len() > 0 ==> base == told_records(earlier));
        match after(start, step, earlier) {
            TurnView::Ask(was, request) => {
                let gone = removed(asked);
                if was.at is Loading {
                    assert(replies =~= seq![replies.last()]);
                }
                lemma_step_progresses(targets, job, base, was, request, gone, replies.last());
                match after(start, step, replies) {
                    TurnView::Ask(_, next) => {
                        lemma_removed_push(asked, next);
                    },
                    TurnView::End(_) => {},
                }
            },
            TurnView::End(_) => {},
        }
    }
}

/// Where no two targets are at the same path and every removal goes well, a run
/// that comes to its end has asked to remove everything that the record it read
/// says builds of its targets added, target by target, files first and then
/// directories, later paths first, and each once.
pub proof fn law_all_that_builds_added_is_removed(
    targets: Seq<CompileTargetView>,
    job: Job,
    replies: Seq<ReplyView>,
)
    requires
        distinct_targets(targets),
        all_fit(targets_start(targets, job), targets_stepper(), removals_go_well(), replies),
        after(targets_start(targets, job), targets_stepper(), replies) == TurnView::<
            TargetsRunView,
            TargetsOutcomeView,
        >::End(TargetsOutcomeView::Finished),
    ensures
        removed(requests(targets_start(targets, job), targets_stepper(), replies)) == removals_due(
            targets,
            told_records(replies),
            targets.len() as int,
        ),
{
    lemma_removals_so_far(targets, job, replies);
}

// ---------------------------------------------------------------------------
// What is left on record
// ---------------------------------------------------------------------------

/// Whether the second look finds nothing that the first did not.
pub open spec fn nothing_new(before: StatView, found: StatView) -> bool {
    &&& forall|i: int| 0 <= i < found.dirs.len() ==> holds_path(before.dirs, #[trigger] found.dirs[i])
    &&& forall|i: int|
        0 <= i < found.files.len() ==> holds_path(before.files, #[trigger] found.files[i])
}

/// Whether nothing comes to be between the looks, to hold the replies of a whole
/// run to.
pub open spec fn nothing_appears() -> spec_fn(TargetsRunView, ReplyView) -> bool {
    |run: TargetsRunView, reply: ReplyView|
        match run.at {
            TargetsPointView::After(_, before, stat) => match stat_step(stat, reply) {
                TurnView::End(StatOutcomeView::Found(found)) => nothing_new(before, found),
                _ => true,
            },
            _ => true,
        }
}

/// Whether the record says of the target that its last build added nothing.
pub open spec fn nothing_recorded(
    actions: Seq<TargetBuildActionsView>,
    target: CompileTargetView,
) -> bool {
    find_record(actions, target.out_path) matches Some(record) && record.diff == StatView::empty()
}

/// Of one path spelled in two ways the same is found.
proof fn lemma_find_same(records: Seq<TargetBuildActionsView>, a: Seq<u8>, b: Seq<u8>)
    requires
        same_path(a, b),
    ensures
        find_record(records, a) == find_record(records, b),
{
    let of_a = |r: TargetBuildActionsView| same_path(r.target, a);
    let of_b = |r: TargetBuildActionsView| same_path(r.target, b);
    assert(of_a =~= of_b);
    assert(record_index(records, a) == record_index(records, b));
}

/// How many targets a run is past when it stands there.
pub open spec fn targets_past(targets: Seq<CompileTargetView>, at: TargetsPointView) -> int {
    match at {
        TargetsPointView::Loading => 0,
        TargetsPointView::Clearing(n, _) => n,
        TargetsPointView::Before(n, _) => n,
        TargetsPointView::Generating(n, _, _) => n,
        TargetsPointView::Emptying(n, _, _) => n,
        TargetsPointView::After(n, _, _) => n,
        TargetsPointView::Storing => targets.len() as int,
    }
}

proof fn lemma_nothing_recorded_so_far(
    targets: Seq<CompileTargetView>,
    job: Job,
    replies: Seq<ReplyView>,
)
    requires
        all_fit(targets_start(targets, job), targets_stepper(), nothing_appears(), replies),
    ensures
        after(targets_start(targets, job), targets_stepper(), replies) matches TurnView::Ask(run, _)
            ==> forall|i: int|
            0 <= i < targets_past(targets, run.at) ==> nothing_recorded(
                run.round.actions,
                #[trigger] targets[i],
            ),
    decreases replies.len(),
{
    let start = targets_start(targets, job);
    let step = targets_stepper();
    if replies.len() > 0 {
        let earlier = replies.drop_last();
        lemma_nothing_recorded_so_far(targets, job, earlier);
        lemma_shape(targets, job, earlier);
        match after(start, step, earlier) {
            TurnView::Ask(was, _) => match was.at {
                TargetsPointView::After(n, before, stat) => match stat_step(stat, replies.last()) {
                    TurnView::End(StatOutcomeView::Found(found)) => {
                        let out = targets[n].out_path;
                        law_diff_of_nothing_new_is_empty(before, found);
                        let diff = stat_diff(before, found);
                        let actions = set_record(was.round.actions, out, diff);
                        assert forall|i: int| 0 <= i < n + 1 implies nothing_recorded(
                            actions,
                            #[trigger] targets[i],
                        ) by {
                            law_set_then_find(was.round.actions, out, diff, targets[i].out_path);
                            if same_path(targets[i].out_path, out) {
                                lemma_find_same(actions, targets[i].out_path, out);
                            }
                        }
                    },
                    _ => {},
                },
                _ => {},
            },
            TurnView::End(_) => {},
        }
    }
}

/// Where nothing comes to be between the two looks at any target, as when it is
/// cleaned up and left alone, what is written as the record says of every target
/// that there is nothing to remove.
pub proof fn law_nothing_is_left_on_record(
    targets: Seq<CompileTargetView>,
    job: Job,
    replies: Seq<ReplyView>,
    run: TargetsRunView,
    path: Seq<u8>,
    actions: Seq<TargetBuildActionsView>,
    i: int,
)
    requires
        all_fit(targets_start(targets, job), targets_stepper(), nothing_appears(), replies),
        after(targets_start(targets, job), targets_stepper(), replies) == TurnView::<
            TargetsRunView,
            TargetsOutcomeView,
        >::Ask(run, RequestView::WriteBuildActions { path, actions }),
        0 <= i < targets.len(),
    ensures
        nothing_recorded(actions, targets[i]),
{
    lemma_shape(targets, job, replies);
    lemma_nothing_recorded_so_far(targets, job, replies);
}

/// Where no two targets are at the same path, what is on record of a target that
/// a run is past stays on record until the run ends.
pub proof fn law_record_of_a_target_stays(
    targets: Seq<CompileTargetView>,
    job: Job,
    replies: Seq<ReplyView>,
    more: Seq<ReplyView>,
    run: TargetsRunView,
    request: RequestView,
    later: TargetsRunView,
    last: RequestView,
    i: int,
)
    requires
        distinct_targets(targets),
        after(targets_start(targets, job), targets_stepper(), replies) == TurnView::<
            TargetsRunView,
            TargetsOutcomeView,
        >::Ask(run, request),
        after(targets_start(targets, job), targets_stepper(), replies + more) == TurnView::<
            TargetsRunView,
            TargetsOutcomeView,
        >::Ask(later, last),
        0 <= i < targets_past(targets, run.at),
    ensures
        i < targets_past(targets, later.at),
        find_record(later.round.actions, targets[i].out_path) == find_record(
            run.round.actions,
            targets[i].out_path,
        ),
    decreases more.len(),
{
    let start = targets_start(targets, job);
    let step = targets_stepper();
    if more.len() == 0 {
        assert(replies + more =~= replies);
    } else {
        let earlier = replies + more.drop_last();
        assert((replies + more).drop_last() =~= earlier);
        lemma_shape(targets, job, earlier);
        lemma_loaded(targets, job, replies);
        lemma_loaded(targets, job, earlier);
        match after(start, step, earlier) {
            TurnView::Ask(was, asked) => {
                law_record_of_a_target_stays(
                    targets,
                    job,
                    replies,
                    more.drop_last(),
                    run,
                    request,
                    was,
                    asked,
                    i,
                );
                match was.at {
                    TargetsPointView::After(n, before, stat) => match stat_step(stat, more.last()) {
                        TurnView::End(StatOutcomeView::Found(found)) => {
                            assert(!same_path(targets[i].out_path, targets[n].out_path));
                            law_set_then_find(
                                was.round.actions,
                                targets[n].out_path,
                                stat_diff(before, found),
                                targets[i].out_path,
                            );
                        },
                        _ => {},
                    },
                    _ => {},
                }
            },
            TurnView::End(_) => {},
        }
    }
}

} // verus!
