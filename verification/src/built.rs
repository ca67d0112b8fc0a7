//! What building or cleaning up targets does as a whole.
use crate::actions::{
    find_record, law_set_keeps_one_record_each, law_set_then_find, one_record_each, set_record,
    TargetBuildActionsView,
};
use crate::command::{generate_command, CommandView};
use crate::config::CompileTargetView;
use crate::path::same_path;
use crate::protocol::{after, requests, ReplyView, RequestView, TurnView};
use crate::stat::{stat_diff, StatView};
use crate::targets::{
    record_path, targets_start, targets_step, Job, TargetsErrorView, TargetsOutcomeView,
    TargetsPointView, TargetsRunView,
};
use crate::walk::{stat_step, StatOutcomeView, TargetStatView};
use vstd::prelude::*;

verus! {

/// The step of going through targets, to follow a whole run with.
pub open spec fn targets_stepper() -> spec_fn(TargetsRunView, ReplyView) -> TurnView<
    TargetsRunView,
    TargetsOutcomeView,
> {
    |run: TargetsRunView, reply: ReplyView| targets_step(run, reply)
}

/// The record that a run starts from: what it was told is on disk, or nothing.
pub open spec fn told_records(replies: Seq<ReplyView>) -> Seq<TargetBuildActionsView> {
    if replies.len() == 0 {
        Seq::empty()
    } else {
        match replies[0] {
            ReplyView::BuildActions(actions) => actions,
            _ => Seq::empty(),
        }
    }
}

/// What holds of a run wherever it stands: it is at one of the targets, doing
/// what belongs to its job.
pub open spec fn is_in_shape(
    targets: Seq<CompileTargetView>,
    job: Job,
    turn: TurnView<TargetsRunView, TargetsOutcomeView>,
) -> bool {
    turn matches TurnView::Ask(run, request) ==> {
        &&& run.round.targets == targets
        &&& run.round.job == job
        &&& match run.at {
            TargetsPointView::Loading => !(request is WriteBuildActions),
            TargetsPointView::Clearing(n, _) => 0 <= n < targets.len() && job is Build && !(
            request is WriteBuildActions),
            TargetsPointView::Before(n, _) => 0 <= n < targets.len() && !(
            request is WriteBuildActions),
            TargetsPointView::Generating(n, _, k) => 0 <= n < targets.len() && job is Build && 0
                <= k < targets[n].sources.len() && !(request is WriteBuildActions),
            TargetsPointView::Emptying(n, _, _) => 0 <= n < targets.len() && job is Clean && !(
            request is WriteBuildActions),
            TargetsPointView::After(n, _, _) => 0 <= n < targets.len() && !(
            request is WriteBuildActions),
            TargetsPointView::Storing => request == (RequestView::WriteBuildActions {
                path: record_path(),
                actions: run.round.actions,
            }),
        }
    }
}

/// A run is in shape wherever it stands.
pub proof fn lemma_shape(targets: Seq<CompileTargetView>, job: Job, replies: Seq<ReplyView>)
    ensures
        is_in_shape(targets, job, after(targets_start(targets, job), targets_stepper(), replies)),
    decreases replies.len(),
{
    if replies.len() > 0 {
        lemma_shape(targets, job, replies.drop_last());
    }
}

/// A run reads the record first, and has read it once a reply came.
pub proof fn lemma_loaded(targets: Seq<CompileTargetView>, job: Job, replies: Seq<ReplyView>)
    ensures
        after(targets_start(targets, job), targets_stepper(), replies) matches TurnView::Ask(run, _)
            ==> (run.at is Loading <==> replies.len() == 0),
    decreases replies.len(),
{
    if replies.len() > 0 {
        lemma_loaded(targets, job, replies.drop_last());
    }
}

// ---------------------------------------------------------------------------
// What stays on record
// ---------------------------------------------------------------------------

/// Whether a path is none of the targets.
pub open spec fn is_elsewhere(targets: Seq<CompileTargetView>, other: Seq<u8>) -> bool {
    forall|i: int| 0 <= i < targets.len() ==> !same_path(other, (#[trigger] targets[i]).out_path)
}

/// Whether the record says of everything that is none of the targets what it
/// said before, and has one record of each target if it had.
pub open spec fn keeps_records(
    targets: Seq<CompileTargetView>,
    before: Seq<TargetBuildActionsView>,
    after: Seq<TargetBuildActionsView>,
) -> bool {
    &&& one_record_each(before) ==> one_record_each(after)
    &&& forall|other: Seq<u8>|
        is_elsewhere(targets, other) ==> #[trigger] find_record(after, other) == find_record(
            before,
            other,
        )
}

proof fn lemma_set_keeps_records(
    targets: Seq<CompileTargetView>,
    base: Seq<TargetBuildActionsView>,
    actions: Seq<TargetBuildActionsView>,
    n: int,
    diff: StatView,
)
    requires
        keeps_records(targets, base, actions),
        0 <= n < targets.len(),
    ensures
        keeps_records(targets, base, set_record(actions, targets[n].out_path, diff)),
{
    let out = targets[n].out_path;
    if one_record_each(base) {
        law_set_keeps_one_record_each(actions, out, diff);
    }
    assert forall|other: Seq<u8>| is_elsewhere(targets, other) implies #[trigger] find_record(
        set_record(actions, out, diff),
        other,
    ) == find_record(base, other) by {
        law_set_then_find(actions, out, diff, other);
        assert(find_record(actions, other) == find_record(base, other));
    }
}

proof fn lemma_records_so_far(targets: Seq<CompileTargetView>, job: Job, replies: Seq<ReplyView>)
    ensures
        after(targets_start(targets, job), targets_stepper(), replies) matches TurnView::Ask(run, _)
            ==> run.at is Loading || keeps_records(
            targets,
            told_records(replies),
            run.round.actions,
        ),
    decreases replies.len(),
{
    let start = targets_start(targets, job);
    let step = targets_stepper();
    if replies.len() > 0 {
        let earlier = replies.drop_last();
        lemma_records_so_far(targets, job, earlier);
        lemma_shape(targets, job, earlier);
        lemma_loaded(targets, job, earlier);
        match after(start, step, earlier) {
            TurnView::Ask(was, _) => {
                let base = told_records(replies);
                match was.at {
                    TargetsPointView::Loading => {},
                    TargetsPointView::After(n, before, stat) => {
                        assert(base == told_records(earlier));
                        match stat_step(stat, replies.last()) {
                            TurnView::End(StatOutcomeView::Found(found)) => {
                                let diff = stat_diff(before, found);
                                lemma_set_keeps_records(targets, base, was.round.actions, n, diff);
                            },
                            _ => {},
                        }
                    },
                    _ => {
                        assert(base == told_records(earlier));
                    },
                }
            },
            TurnView::End(_) => {},
        }
    }
}

/// What is written as the record of what builds added says of everything that is
/// none of the targets what the record that was read said, and has one record of
/// each target if that one had.
pub proof fn law_other_records_stay(
    targets: Seq<CompileTargetView>,
    job: Job,
    replies: Seq<ReplyView>,
    run: TargetsRunView,
    path: Seq<u8>,
    actions: Seq<TargetBuildActionsView>,
)
    requires
        after(targets_start(targets, job), targets_stepper(), replies) == TurnView::<
            TargetsRunView,
            TargetsOutcomeView,
        >::Ask(run, RequestView::WriteBuildActions { path, actions }),
    ensures
        path == record_path(),
        keeps_records(targets, told_records(replies), actions),
{
    lemma_shape(targets, job, replies);
    lemma_records_so_far(targets, job, replies);
}

/// The records that were asked to be written, in order.
pub open spec fn records_written(asked: Seq<RequestView>) -> Seq<Seq<TargetBuildActionsView>>
    decreases asked.len(),
{
    if asked.len() == 0 {
        Seq::empty()
    } else {
        let earlier = records_written(asked.drop_last());
        match asked.last() {
            RequestView::WriteBuildActions { path, actions } => earlier.push(actions),
            _ => earlier,
        }
    }
}

proof fn lemma_written_so_far(targets: Seq<CompileTargetView>, job: Job, replies: Seq<ReplyView>)
    ensures
        ({
            let written = records_written(
                requests(targets_start(targets, job), targets_stepper(), replies),
            );
            match after(targets_start(targets, job), targets_stepper(), replies) {
                TurnView::Ask(run, _) => if run.at is Storing {
                    written == seq![run.round.actions]
                } else {
                    written.len() == 0
                },
                TurnView::End(TargetsOutcomeView::Finished) => written.len() == 1,
                TurnView::End(TargetsOutcomeView::Failed(error)) => if error is NotWritten {
                    written.len() == 1
                } else {
                    written.len() == 0
                },
            }
        }),
    decreases replies.len(),
{
    let start = targets_start(targets, job);
    let step = targets_stepper();
    let asked = requests(start, step, replies);
    lemma_shape(targets, job, replies);
    if replies.len() == 0 {
        reveal_with_fuel(records_written, 2);
        assert(asked =~= seq![RequestView::ReadBuildActions(record_path())]);
        assert(asked.drop_last() =~= Seq::<RequestView>::empty());
    } else {
        let earlier = replies.drop_last();
        lemma_written_so_far(targets, job, earlier);
        lemma_shape(targets, job, earlier);
        let asked_before = requests(start, step, earlier);
        match after(start, step, replies) {
            TurnView::Ask(run, request) => {
                assert(asked == asked_before.push(request));
                assert(asked.drop_last() =~= asked_before);
                if run.at is Storing {
                    assert(records_written(asked) =~= seq![run.round.actions]);
                }
            },
            TurnView::End(_) => {},
        }
    }
}

/// The record is written once, at the end. A run that stops before has not
/// written it.
pub proof fn law_record_is_written_at_the_end(
    targets: Seq<CompileTargetView>,
    job: Job,
    replies: Seq<ReplyView>,
    outcome: TargetsOutcomeView,
)
    requires
        after(targets_start(targets, job), targets_stepper(), replies) == TurnView::<
            TargetsRunView,
            TargetsOutcomeView,
        >::End(outcome),
    ensures
        records_written(requests(targets_start(targets, job), targets_stepper(), replies)).len()
            == (match outcome {
            TargetsOutcomeView::Finished => 1nat,
            TargetsOutcomeView::Failed(TargetsErrorView::NotWritten) => 1nat,
            TargetsOutcomeView::Failed(_) => 0nat,
        }),
{
    lemma_written_so_far(targets, job, replies);
}

/// Once the second look at a target is done, the record of the target is what
/// that look found and the first did not.
pub proof fn law_what_was_added_is_recorded(
    targets: Seq<CompileTargetView>,
    job: Job,
    replies: Seq<ReplyView>,
    last: ReplyView,
    run: TargetsRunView,
    request: RequestView,
    n: int,
    before: StatView,
    look: TargetStatView,
    found: StatView,
)
    requires
        after(targets_start(targets, job), targets_stepper(), replies) == TurnView::<
            TargetsRunView,
            TargetsOutcomeView,
        >::Ask(run, request),
        run.at == TargetsPointView::After(n, before, look),
        stat_step(look, last) == TurnView::<TargetStatView, StatOutcomeView>::End(
            StatOutcomeView::Found(found),
        ),
    ensures
        0 <= n < targets.len(),
        after(targets_start(targets, job), targets_stepper(), replies.push(last))
            matches TurnView::Ask(next, _) && find_record(
            next.round.actions,
            targets[n].out_path,
        ) == Some(
            TargetBuildActionsView {
                target: targets[n].out_path,
                diff: stat_diff(before, found),
            },
        ),
{
    lemma_shape(targets, job, replies);
    assert(replies.push(last).drop_last() =~= replies);
    let out = targets[n].out_path;
    law_set_then_find(run.round.actions, out, stat_diff(before, found), out);
}

// ---------------------------------------------------------------------------
// What is started
// ---------------------------------------------------------------------------

/// The programs that were started, in order.
pub open spec fn programs_run(asked: Seq<RequestView>) -> Seq<CommandView>
    decreases asked.len(),
{
    if asked.len() == 0 {
        Seq::empty()
    } else {
        let earlier = programs_run(asked.drop_last());
        match asked.last() {
            RequestView::Run(command) => earlier.push(command),
            _ => earlier,
        }
    }
}

/// The generator for the first `k` sources of a target, in order.
pub open spec fn target_commands(target: CompileTargetView, k: int) -> Seq<CommandView> {
    target.sources.take(k).map_values(
        |name: Seq<char>| generate_command(name, target.out_gen_path, target.out_path),
    )
}

/// The generator for every source of the first `n` targets, in order.
pub open spec fn build_commands(targets: Seq<CompileTargetView>, n: int) -> Seq<CommandView>
    decreases n,
{
    if n <= 0 {
        Seq::empty()
    } else {
        build_commands(targets, n - 1) + target_commands(
            targets[n - 1],
            targets[n - 1].sources.len() as int,
        )
    }
}

/// What a build has started when it stands there.
spec fn started_by(
    targets: Seq<CompileTargetView>,
    at: TargetsPointView,
) -> Seq<CommandView> {
    match at {
        TargetsPointView::Loading => Seq::empty(),
        TargetsPointView::Clearing(n, _) => build_commands(targets, n),
        TargetsPointView::Before(n, _) => build_commands(targets, n),
        TargetsPointView::Generating(n, _, k) => build_commands(targets, n) + target_commands(
            targets[n],
            k + 1,
        ),
        TargetsPointView::Emptying(n, _, _) => build_commands(targets, n),
        TargetsPointView::After(n, _, _) => build_commands(targets, n + 1),
        TargetsPointView::Storing => build_commands(targets, targets.len() as int),
    }
}

proof fn lemma_started_so_far(targets: Seq<CompileTargetView>, job: Job, replies: Seq<ReplyView>)
    ensures
        ({
            let started = programs_run(
                requests(targets_start(targets, job), targets_stepper(), replies),
            );
            match job {
                Job::Build => match after(
                    targets_start(targets, job),
                    targets_stepper(),
                    replies,
                ) {
                    TurnView::Ask(run, _) => started == started_by(targets, run.at),
                    TurnView::End(TargetsOutcomeView::Finished) => started == build_commands(
                        targets,
                        targets.len() as int,
                    ),
                    TurnView::End(_) => true,
                },
                Job::Clean => started.len() == 0,
            }
        }),
    decreases replies.len(),
{
    let start = targets_start(targets, job);
    let step = targets_stepper();
    let asked = requests(start, step, replies);
    if replies.len() == 0 {
        reveal_with_fuel(programs_run, 2);
        assert(asked =~= seq![RequestView::ReadBuildActions(record_path())]);
        assert(asked.drop_last() =~= Seq::<RequestView>::empty());
    } else {
        let earlier = replies.drop_last();
        lemma_started_so_far(targets, job, earlier);
        lemma_shape(targets, job, earlier);
        lemma_shape(targets, job, replies);
        let asked_before = requests(start, step, earlier);
        match (after(start, step, earlier), after(start, step, replies)) {
            (TurnView::Ask(was, _), TurnView::Ask(run, request)) => {
                assert(asked == asked_before.push(request));
                assert(asked.drop_last() =~= asked_before);
                match was.at {
                    TargetsPointView::Before(n, _) => {
                        let commands = build_commands(targets, n);
                        let target = targets[n];
                        assert(commands + target_commands(target, 0) =~= commands);
                        if target.sources.len() > 0 {
                            assert(commands + target_commands(target, 1) =~= commands.push(
                                generate_command(
                                    target.sources[0],
                                    target.out_gen_path,
                                    target.out_path,
                                ),
                            ));
                        }
                    },
                    TargetsPointView::Generating(n, _, k) => {
                        let commands = build_commands(targets, n);
                        let target = targets[n];
                        if k + 1 < target.sources.len() {
                            assert(commands + target_commands(target, k + 2) =~= (commands
                                + target_commands(target, k + 1)).push(
                                generate_command(
                                    target.sources[k + 1],
                                    target.out_gen_path,
                                    target.out_path,
                                ),
                            ));
                        }
                    },
                    _ => {},
                }
            },
            _ => {},
        }
    }
}

/// A build that comes to its end has started the generator for every source of
/// every target, each once and in the order of the configuration, and nothing
/// else.
pub proof fn law_build_generates_everything(
    targets: Seq<CompileTargetView>,
    replies: Seq<ReplyView>,
)
    requires
        after(targets_start(targets, Job::Build), targets_stepper(), replies) == TurnView::<
            TargetsRunView,
            TargetsOutcomeView,
        >::End(TargetsOutcomeView::Finished),
    ensures
        programs_run(requests(targets_start(targets, Job::Build), targets_stepper(), replies))
            == build_commands(targets, targets.len() as int),
{
    lemma_started_so_far(targets, Job::Build, replies);
}

/// Cleaning up starts no program.
pub proof fn law_clean_starts_nothing(targets: Seq<CompileTargetView>, replies: Seq<ReplyView>)
    ensures
        programs_run(requests(targets_start(targets, Job::Clean), targets_stepper(), replies)).len()
            == 0,
{
    lemma_started_so_far(targets, Job::Clean, replies);
}

} // verus!
