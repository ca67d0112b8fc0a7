//! What follows a reply while targets are gone through, and what has been done by
//! the end.
use crate::actions::{
    find_record, law_set_leaves_the_others_in_place, law_set_then_find, set_record,
    TargetBuildActionsView,
};
use crate::built::{
    build_commands, is_elsewhere, law_build_generates_everything, lemma_loaded, lemma_shape,
    programs_run, targets_stepper, told_records,
};
use crate::command::{generate_command, CommandView};
use crate::config::CompileTargetView;
use crate::emptied::distinct_targets;
use crate::followed::{look_waits_for, removal_waits_for};
use crate::order::{descending, law_sort_rearranges, law_sorted_is_in_order};
use crate::path::{join, lemma_path_order, path_less, same_path};
use crate::protocol::{after, requests, ReplyView, RequestView, TurnView};
use crate::removal::{clean_start, CleanOutcomeView, TargetCleanView};
use crate::stat::stat_diff;
use crate::targets::{
    record_path, removal_of, targets_start, Job, TargetsErrorView, TargetsOutcomeView,
    TargetsPointView, TargetsRunView,
};
use crate::walk::{dirs_opened, stat_step, StatErrorView, StatOutcomeView};
use vstd::prelude::*;

verus! {

/// What a run waits for.
spec fn round_waits_for(run: TargetsRunView) -> RequestView {
    let targets = run.round.targets;
    match run.at {
        TargetsPointView::Loading => RequestView::ReadBuildActions(record_path()),
        TargetsPointView::Clearing(_, clean) => removal_waits_for(clean),
        TargetsPointView::Before(_, look) => look_waits_for(look),
        TargetsPointView::Generating(n, _, k) => RequestView::Run(
            generate_command(
                targets[n].sources[k],
                targets[n].out_gen_path,
                targets[n].out_path,
            ),
        ),
        TargetsPointView::Emptying(_, _, clean) => removal_waits_for(clean),
        TargetsPointView::After(_, _, look) => look_waits_for(look),
        TargetsPointView::Storing => RequestView::WriteBuildActions {
            path: record_path(),
            actions: run.round.actions,
        },
    }
}

proof fn lemma_round_waits(targets: Seq<CompileTargetView>, job: Job, replies: Seq<ReplyView>)
    ensures
        after(targets_start(targets, job), targets_stepper(), replies) matches TurnView::Ask(
            run,
            request,
        ) ==> request == round_waits_for(run),
    decreases replies.len(),
{
    if replies.len() > 0 {
        lemma_round_waits(targets, job, replies.drop_last());
        lemma_shape(targets, job, replies.drop_last());
    }
}

/// Going through targets, for a build or to clean up, fails exactly where a target
/// could not be looked at, the generator could not be started, or the record could
/// not be written, and says which. Everything else is gone on after: a record that
/// could not be read, a generator that was not successful, and a removal that went
/// wrong, after which the target is looked at. It ends well where the record was
/// written, and nowhere else.
pub proof fn law_round_fails_only_where_it_must(
    targets: Seq<CompileTargetView>,
    job: Job,
    replies: Seq<ReplyView>,
    run: TargetsRunView,
    request: RequestView,
    reply: ReplyView,
)
    requires
        after(targets_start(targets, job), targets_stepper(), replies) == TurnView::<
            TargetsRunView,
            TargetsOutcomeView,
        >::Ask(run, request),
    ensures
        ({
            let next = after(targets_start(targets, job), targets_stepper(), replies.push(reply));
            match request {
                RequestView::ReadBuildActions(path) => {
                    &&& path == vstd::utf8::encode_utf8("./protov-build-outputs.json"@)
                    &&& replies.len() == 0
                    &&& next is Ask
                },
                RequestView::OpenDir(dir) => if reply is Done {
                    next matches TurnView::Ask(_, asked) && asked is NextEntry
                } else {
                    next == TurnView::<TargetsRunView, TargetsOutcomeView>::End(
                        TargetsOutcomeView::Failed(
                            TargetsErrorView::Look(StatErrorView::ReadDir(dir)),
                        ),
                    )
                },
                RequestView::NextEntry => match reply {
                    ReplyView::Entry { .. } => next matches TurnView::Ask(_, asked)
                        && asked is NextEntry,
                    ReplyView::EndOfDir => next matches TurnView::Ask(_, asked) && !(
                    asked is NextEntry),
                    _ => next == TurnView::<TargetsRunView, TargetsOutcomeView>::End(
                        TargetsOutcomeView::Failed(
                            TargetsErrorView::Look(StatErrorView::ReadEntry),
                        ),
                    ),
                },
                RequestView::RemoveFile(_) => if reply is Done {
                    next is Ask
                } else {
                    next matches TurnView::Ask(_, RequestView::OpenDir(dir)) && exists|n: int|
                        0 <= n < targets.len() && dir == (#[trigger] targets[n]).out_path
                },
                RequestView::IsEmptyDir(p) => if reply == ReplyView::Answer(true) {
                    next matches TurnView::Ask(_, asked) && asked == RequestView::RemoveDir(p)
                } else {
                    next matches TurnView::Ask(_, RequestView::OpenDir(dir)) && exists|n: int|
                        0 <= n < targets.len() && dir == (#[trigger] targets[n]).out_path
                },
                RequestView::RemoveDir(_) => if reply is Done {
                    next is Ask
                } else {
                    next matches TurnView::Ask(_, RequestView::OpenDir(dir)) && exists|n: int|
                        0 <= n < targets.len() && dir == (#[trigger] targets[n]).out_path
                },
                RequestView::Run(_) => if reply is Exited {
                    job is Build && next is Ask
                } else {
                    job is Build && next == TurnView::<TargetsRunView, TargetsOutcomeView>::End(
                        TargetsOutcomeView::Failed(TargetsErrorView::NotGenerated),
                    )
                },
                RequestView::WriteBuildActions { path, actions } => {
                    &&& path == vstd::utf8::encode_utf8("./protov-build-outputs.json"@)
                    &&& next == TurnView::<TargetsRunView, TargetsOutcomeView>::End(
                        if reply is Done {
                            TargetsOutcomeView::Finished
                        } else {
                            TargetsOutcomeView::Failed(TargetsErrorView::NotWritten)
                        },
                    )
                },
                _ => false,
            }
        }),
{
    lemma_round_waits(targets, job, replies);
    lemma_shape(targets, job, replies);
    lemma_loaded(targets, job, replies);
    assert(replies.push(reply).drop_last() =~= replies);
    match run.at {
        TargetsPointView::Clearing(n, _) => {
            assert(targets[n].out_path == targets[n].out_path);
        },
        TargetsPointView::Emptying(n, _, _) => {
            assert(targets[n].out_path == targets[n].out_path);
        },
        _ => {},
    }
}

// ---------------------------------------------------------------------------
// Every target is gone through
// ---------------------------------------------------------------------------

/// How often a run has opened the directory of target `j` at the least, where it
/// stands there.
spec fn looks_due(at: TargetsPointView, j: int) -> nat {
    let (n, now): (int, nat) = match at {
        TargetsPointView::Loading => (0, 0),
        TargetsPointView::Clearing(n, _) => (n, 0),
        TargetsPointView::Before(n, _) => (n, 1),
        TargetsPointView::Generating(n, _, _) => (n, 1),
        TargetsPointView::Emptying(n, _, _) => (n, 1),
        TargetsPointView::After(n, _, _) => (n, 2),
        TargetsPointView::Storing => (j + 1, 2),
    };
    if j < n {
        2
    } else if j == n {
        now
    } else {
        0
    }
}

/// How many targets are done with where a run stands there.
spec fn done_with(targets: Seq<CompileTargetView>, at: TargetsPointView) -> int {
    match at {
        TargetsPointView::Loading => 0,
        TargetsPointView::Clearing(n, _) => n,
        TargetsPointView::Before(n, _) => n,
        TargetsPointView::Generating(n, _, _) => n,
        TargetsPointView::Emptying(n, _, _) => n,
        TargetsPointView::After(n, _, _) => n,
        TargetsPointView::Storing => targets.len() as int,
    }
}

proof fn lemma_looks_so_far(
    targets: Seq<CompileTargetView>,
    job: Job,
    replies: Seq<ReplyView>,
    j: int,
)
    requires
        0 <= j < targets.len(),
    ensures
        after(targets_start(targets, job), targets_stepper(), replies) matches TurnView::Ask(run, _)
            ==> {
            let opened = dirs_opened(
                requests(targets_start(targets, job), targets_stepper(), replies),
            );
            &&& opened.to_multiset().count(targets[j].out_path) >= looks_due(run.at, j)
            &&& j < done_with(targets, run.at) ==> find_record(
                run.round.actions,
                targets[j].out_path,
            ) is Some
        },
    decreases replies.len(),
{
    broadcast use vstd::seq_lib::group_to_multiset_ensures;
    let start = targets_start(targets, job);
    let step = targets_stepper();
    let asked = requests(start, step, replies);
    if replies.len() > 0 {
        let earlier = replies.drop_last();
        lemma_looks_so_far(targets, job, earlier, j);
        lemma_shape(targets, job, earlier);
        lemma_shape(targets, job, replies);
        let asked_before = requests(start, step, earlier);
        match (after(start, step, earlier), after(start, step, replies)) {
            (TurnView::Ask(was, _), TurnView::Ask(run, request)) => {
                assert(asked == asked_before.push(request));
                assert(asked.drop_last() =~= asked_before);
                let opened = dirs_opened(asked_before);
                match request {
                    RequestView::OpenDir(dir) => {
                        assert(dirs_opened(asked) == opened.push(dir));
                    },
                    _ => {
                        assert(dirs_opened(asked) == opened);
                    },
                }
                match was.at {
                    TargetsPointView::After(n, before, look) => {
                        match stat_step(look, replies.last()) {
                            TurnView::End(StatOutcomeView::Found(found)) => {
                                law_set_then_find(
                                    was.round.actions,
                                    targets[n].out_path,
                                    stat_diff(before, found),
                                    targets[j].out_path,
                                );
                                let more = set_record(
                                    was.round.actions,
                                    targets[n].out_path,
                                    stat_diff(before, found),
                                );
                                if same_path(targets[j].out_path, targets[n].out_path) {
                                    lemma_same_found(
                                        more,
                                        targets[j].out_path,
                                        targets[n].out_path,
                                    );
                                }
                            },
                            _ => {},
                        }
                    },
                    _ => {},
                }
            },
            _ => {},
        }
    }
}

/// What is found of a target does not go by how its path is written.
proof fn lemma_same_found(
    records: Seq<TargetBuildActionsView>,
    a: Seq<u8>,
    b: Seq<u8>,
)
    requires
        same_path(a, b),
    ensures
        find_record(records, a) == find_record(records, b),
{
    let p = |r: TargetBuildActionsView| same_path(r.target, a);
    let q = |r: TargetBuildActionsView| same_path(r.target, b);
    assert(p =~= q);
}

/// By the time the record is written, for a build or to clean up, every target of the
/// configuration was looked at twice, whatever came of the removals and of the
/// generator, and what is written has a record of every one.
pub proof fn law_round_goes_through_every_target(
    targets: Seq<CompileTargetView>,
    job: Job,
    replies: Seq<ReplyView>,
    run: TargetsRunView,
    path: Seq<u8>,
    actions: Seq<TargetBuildActionsView>,
    j: int,
)
    requires
        after(targets_start(targets, job), targets_stepper(), replies) == TurnView::<
            TargetsRunView,
            TargetsOutcomeView,
        >::Ask(run, RequestView::WriteBuildActions { path, actions }),
        0 <= j < targets.len(),
    ensures
        dirs_opened(
            requests(targets_start(targets, job), targets_stepper(), replies),
        ).to_multiset().count(targets[j].out_path) >= 2,
        find_record(actions, targets[j].out_path) is Some,
{
    lemma_looks_so_far(targets, job, replies, j);
    lemma_round_waits(targets, job, replies);
    lemma_shape(targets, job, replies);
}

/// A run that ends well has asked to write the record.
pub proof fn law_round_ends_well_with_the_record(
    targets: Seq<CompileTargetView>,
    job: Job,
    replies: Seq<ReplyView>,
    last: ReplyView,
)
    requires
        after(targets_start(targets, job), targets_stepper(), replies) is Ask,
        after(targets_start(targets, job), targets_stepper(), replies.push(last)) == TurnView::<
            TargetsRunView,
            TargetsOutcomeView,
        >::End(TargetsOutcomeView::Finished),
    ensures
        after(targets_start(targets, job), targets_stepper(), replies) matches TurnView::Ask(
            _,
            request,
        ) && request is WriteBuildActions,
        last is Done,
{
    match after(targets_start(targets, job), targets_stepper(), replies) {
        TurnView::Ask(run, request) => {
            law_round_fails_only_where_it_must(targets, job, replies, run, request, last);
        },
        TurnView::End(_) => {},
    }
}

// ---------------------------------------------------------------------------
// What the generator is started for
// ---------------------------------------------------------------------------

/// Whether a command runs the generator on the vendored source `k` of the target, with
/// the template of the target, and into its output directory.
pub open spec fn is_run_for(command: CommandView, target: CompileTargetView, k: int) -> bool {
    &&& command.program == "buf"@
    &&& command.args == seq![
        vstd::utf8::encode_utf8("generate"@),
        join(
            vstd::utf8::encode_utf8("./vendor"@),
            vstd::utf8::encode_utf8(target.sources[k]),
        ),
        vstd::utf8::encode_utf8("--template"@),
        target.out_gen_path,
        vstd::utf8::encode_utf8("--output"@),
        target.out_path,
    ]
}

/// A build that ends well has started the generator once for every source of every
/// target, target by target, and has told it of that source, and of the template and
/// the output directory of that target: where the runs for target `i` begin stands at
/// `offsets[i]`.
pub proof fn law_generator_is_started_for_every_source(
    targets: Seq<CompileTargetView>,
    replies: Seq<ReplyView>,
) -> (offsets: Seq<int>)
    requires
        after(targets_start(targets, Job::Build), targets_stepper(), replies) == TurnView::<
            TargetsRunView,
            TargetsOutcomeView,
        >::End(TargetsOutcomeView::Finished),
    ensures
        ({
            let started = programs_run(
                requests(targets_start(targets, Job::Build), targets_stepper(), replies),
            );
            &&& offsets.len() == targets.len() + 1
            &&& offsets[0] == 0
            &&& offsets[targets.len() as int] == started.len()
            &&& forall|i: int|
                0 <= i < targets.len() ==> offsets[i + 1] == #[trigger] offsets[i]
                    + targets[i].sources.len()
            &&& forall|i: int, k: int|
                0 <= i < targets.len() && 0 <= k < targets[i].sources.len() ==> #[trigger] is_run_for(
                    started[offsets[i] + k],
                    targets[i],
                    k,
                )
        }),
{
    law_build_generates_everything(targets, replies);
    let offsets = lemma_offsets(targets, targets.len() as int);
    offsets
}

proof fn lemma_offsets(targets: Seq<CompileTargetView>, n: int) -> (offsets: Seq<int>)
    requires
        0 <= n <= targets.len(),
    ensures
        offsets.len() == n + 1,
        offsets[0] == 0,
        offsets[n] == build_commands(targets, n).len(),
        forall|i: int| 0 <= i <= n ==> 0 <= #[trigger] offsets[i] <= offsets[n],
        forall|i: int|
            0 <= i < n ==> offsets[i + 1] == #[trigger] offsets[i] + targets[i].sources.len(),
        forall|i: int, k: int|
            0 <= i < n && 0 <= k < targets[i].sources.len() ==> #[trigger] is_run_for(
                build_commands(targets, n)[offsets[i] + k],
                targets[i],
                k,
            ),
    decreases n,
{
    if n == 0 {
        seq![0int]
    } else {
        let first = lemma_offsets(targets, n - 1);
        let before = build_commands(targets, n - 1);
        let all = build_commands(targets, n);
        let offsets = first.push(all.len() as int);
        assert(all.len() == before.len() + targets[n - 1].sources.len());
        assert forall|i: int, k: int|
            0 <= i < n && 0 <= k < targets[i].sources.len() implies #[trigger] is_run_for(
            all[offsets[i] + k],
            targets[i],
            k,
        ) by {
            if i < n - 1 {
                assert(is_run_for(before[first[i] + k], targets[i], k));
                assert(first[i + 1] == first[i] + targets[i].sources.len());
                assert(first[i + 1] <= first[n - 1]);
                assert(all[offsets[i] + k] == before[first[i] + k]);
            } else {
                assert(offsets[i] == before.len());
            }
        }
        assert forall|i: int| 0 <= i < n implies offsets[i + 1] == #[trigger] offsets[i]
            + targets[i].sources.len() by {
            if i < n - 1 {
                assert(first[i + 1] == first[i] + targets[i].sources.len());
            }
        }
        offsets
    }
}

// ---------------------------------------------------------------------------
// In which order each target is dealt with
// ---------------------------------------------------------------------------

/// Whether a request begins the removal of what is on record of the target, or, where
/// there is nothing to remove, a look at the target: the first file that was added, or,
/// where there is none, a directory that was added and that no other one comes after.
pub open spec fn begins_with_removal(
    actions: Seq<TargetBuildActionsView>,
    target: CompileTargetView,
    request: RequestView,
) -> bool {
    match find_record(actions, target.out_path) {
        Some(record) => if record.diff.files.len() > 0 {
            request == RequestView::RemoveFile(record.diff.files[0])
        } else if record.diff.dirs.len() > 0 {
            request matches RequestView::IsEmptyDir(dir) && record.diff.dirs.contains(dir)
                && forall|i: int|
                0 <= i < record.diff.dirs.len() ==> !path_less(dir, #[trigger] record.diff.dirs[i])
        } else {
            request == RequestView::OpenDir(target.out_path)
        },
        None => request == RequestView::OpenDir(target.out_path),
    }
}

proof fn lemma_begins_with_removal(
    actions: Seq<TargetBuildActionsView>,
    target: CompileTargetView,
    removal: TurnView<TargetCleanView, CleanOutcomeView>,
    request: RequestView,
)
    requires
        match find_record(actions, target.out_path) {
            Some(record) => removal == clean_start(record),
            None => removal is End,
        },
        match removal {
            TurnView::Ask(_, asked) => request == asked,
            TurnView::End(_) => request == RequestView::OpenDir(target.out_path),
        },
    ensures
        begins_with_removal(actions, target, request),
{
    broadcast use vstd::seq_lib::group_to_multiset_ensures;
    if let Some(record) = find_record(actions, target.out_path) {
        let dirs = record.diff.dirs;
        let sorted = descending(dirs);
        law_sort_rearranges(dirs);
        assert(sorted.len() == sorted.to_multiset().len());
        assert(dirs.len() == dirs.to_multiset().len());
        if record.diff.files.len() == 0 && dirs.len() > 0 {
            let dir = sorted[0];
            assert(sorted.contains(dir));
            assert(dirs.to_multiset().count(dir) > 0);
            assert forall|i: int| 0 <= i < dirs.len() implies !path_less(
                dir,
                #[trigger] dirs[i],
            ) by {
                assert(dirs.contains(dirs[i]));
                assert(sorted.to_multiset().count(dirs[i]) > 0);
                let j = sorted.index_of(dirs[i]);
                if j > 0 {
                    law_sorted_is_in_order(dirs, 0, j);
                } else {
                    lemma_path_order(dir, dir, dir);
                }
            }
        }
    }
}

/// Each target is dealt with in its turn. A build begins a target with the removal of
/// what is on record of it, then looks at it, starts the generator for one source after
/// the other, and looks at it again; a clean-up looks at it, removes what is on record
/// of it, and looks at it again. After the last, the record is written. Nothing else
/// comes in between.
pub proof fn law_round_deals_with_each_target_in_its_turn(
    targets: Seq<CompileTargetView>,
    job: Job,
    replies: Seq<ReplyView>,
    run: TargetsRunView,
    request: RequestView,
    reply: ReplyView,
    later: TargetsRunView,
    asked: RequestView,
)
    requires
        after(targets_start(targets, job), targets_stepper(), replies) == TurnView::<
            TargetsRunView,
            TargetsOutcomeView,
        >::Ask(run, request),
        after(targets_start(targets, job), targets_stepper(), replies.push(reply)) == TurnView::<
            TargetsRunView,
            TargetsOutcomeView,
        >::Ask(later, asked),
    ensures
        ({
            // The target that is taken up next, where the one before is done with.
            let taken_up = match run.at {
                TargetsPointView::Loading => Some(0int),
                TargetsPointView::After(n, _, _) => if request is NextEntry && reply is EndOfDir
                    && !(later.at matches TargetsPointView::After(m, _, _) && m == n) {
                    Some(n + 1)
                } else {
                    None
                },
                _ => None,
            };
            match taken_up {
                Some(n) => if n >= targets.len() {
                    asked is WriteBuildActions
                } else if job is Build {
                    begins_with_removal(later.round.actions, targets[n], asked)
                } else {
                    asked == RequestView::OpenDir(targets[n].out_path)
                },
                None => match (run.at, later.at) {
                    (TargetsPointView::Clearing(n, _), TargetsPointView::Clearing(m, _)) => n == m,
                    (TargetsPointView::Clearing(n, _), TargetsPointView::Before(m, _)) => n == m
                        && asked == RequestView::OpenDir(targets[n].out_path),
                    (TargetsPointView::Before(n, _), TargetsPointView::Before(m, _)) => n == m,
                    (TargetsPointView::Before(n, _), _) => if job is Clean {
                        begins_with_removal(later.round.actions, targets[n], asked)
                    } else if targets[n].sources.len() > 0 {
                        asked matches RequestView::Run(command) && is_run_for(
                            command,
                            targets[n],
                            0,
                        )
                    } else {
                        asked == RequestView::OpenDir(targets[n].out_path)
                    },
                    (TargetsPointView::Generating(n, _, k), _) => if k + 1
                        < targets[n].sources.len() {
                        asked matches RequestView::Run(command) && is_run_for(
                            command,
                            targets[n],
                            k + 1,
                        )
                    } else {
                        asked == RequestView::OpenDir(targets[n].out_path)
                    },
                    (TargetsPointView::Emptying(n, _, _), TargetsPointView::Emptying(m, _, _)) => n
                        == m,
                    (TargetsPointView::Emptying(n, _, _), TargetsPointView::After(m, _, _)) => n
                        == m && asked == RequestView::OpenDir(targets[n].out_path),
                    (TargetsPointView::After(n, _, _), TargetsPointView::After(m, _, _)) => n == m,
                    _ => false,
                },
            }
        }),
        run.at is Loading || run.at is After || later.round.actions == run.round.actions,
{
    lemma_round_waits(targets, job, replies);
    lemma_shape(targets, job, replies);
    lemma_shape(targets, job, replies.push(reply));
    lemma_round_waits(targets, job, replies.push(reply));
    assert(replies.push(reply).drop_last() =~= replies);
    let round = later.round;
    match run.at {
        TargetsPointView::Loading => {
            if targets.len() > 0 && job is Build {
                lemma_begins_with_removal(round.actions, targets[0], removal_of(round, 0), asked);
            }
        },
        TargetsPointView::After(n, _, _) => {
            if n + 1 < targets.len() && job is Build && !(later.at is After) {
                lemma_begins_with_removal(
                    round.actions,
                    targets[n + 1],
                    removal_of(round, n + 1),
                    asked,
                );
            }
        },
        TargetsPointView::Before(n, _) => {
            if job is Clean && !(later.at is Before) {
                lemma_begins_with_removal(round.actions, targets[n], removal_of(round, n), asked);
            }
        },
        _ => {},
    }
}

proof fn lemma_records_in_place(
    targets: Seq<CompileTargetView>,
    job: Job,
    replies: Seq<ReplyView>,
    i: int,
)
    requires
        0 <= i < told_records(replies).len(),
        is_elsewhere(targets, told_records(replies)[i].target),
    ensures
        after(targets_start(targets, job), targets_stepper(), replies) matches TurnView::Ask(run, _)
            ==> run.at is Loading || (i < run.round.actions.len() && run.round.actions[i]
            == told_records(replies)[i]),
    decreases replies.len(),
{
    let start = targets_start(targets, job);
    let step = targets_stepper();
    if replies.len() > 1 {
        let earlier = replies.drop_last();
        lemma_records_in_place(targets, job, earlier, i);
        lemma_shape(targets, job, earlier);
        lemma_loaded(targets, job, earlier);
        match after(start, step, earlier) {
            TurnView::Ask(was, _) => match was.at {
                TargetsPointView::After(n, before, look) => {
                    match stat_step(look, replies.last()) {
                        TurnView::End(StatOutcomeView::Found(found)) => {
                            assert(!same_path(told_records(replies)[i].target, targets[n].out_path));
                            law_set_leaves_the_others_in_place(
                                was.round.actions,
                                targets[n].out_path,
                                stat_diff(before, found),
                                i,
                            );
                        },
                        _ => {},
                    }
                },
                _ => {},
            },
            TurnView::End(_) => {},
        }
    } else if replies.len() == 1 {
        assert(replies.drop_last() =~= Seq::<ReplyView>::empty());
        assert(after(start, step, replies.drop_last()) == start);
        reveal_with_fuel(after, 2);
    }
}

/// What is written as the record has every record that was read and is of none of the
/// targets, as it was and where it was.
pub proof fn law_other_records_stay_in_place(
    targets: Seq<CompileTargetView>,
    job: Job,
    replies: Seq<ReplyView>,
    run: TargetsRunView,
    path: Seq<u8>,
    actions: Seq<TargetBuildActionsView>,
    i: int,
)
    requires
        after(targets_start(targets, job), targets_stepper(), replies) == TurnView::<
            TargetsRunView,
            TargetsOutcomeView,
        >::Ask(run, RequestView::WriteBuildActions { path, actions }),
        0 <= i < told_records(replies).len(),
        is_elsewhere(targets, told_records(replies)[i].target),
    ensures
        i < actions.len(),
        actions[i] == told_records(replies)[i],
{
    lemma_records_in_place(targets, job, replies, i);
    lemma_round_waits(targets, job, replies);
    lemma_shape(targets, job, replies);
}

proof fn lemma_later_records(
    targets: Seq<CompileTargetView>,
    job: Job,
    replies: Seq<ReplyView>,
    j: int,
)
    requires
        distinct_targets(targets),
        0 <= j < targets.len(),
    ensures
        after(targets_start(targets, job), targets_stepper(), replies) matches TurnView::Ask(run, _)
            ==> run.at is Loading || j < done_with(targets, run.at) || find_record(
            run.round.actions,
            targets[j].out_path,
        ) == find_record(told_records(replies), targets[j].out_path),
    decreases replies.len(),
{
    let start = targets_start(targets, job);
    let step = targets_stepper();
    if replies.len() > 0 {
        let earlier = replies.drop_last();
        lemma_later_records(targets, job, earlier, j);
        lemma_shape(targets, job, earlier);
        lemma_loaded(targets, job, earlier);
        match after(start, step, earlier) {
            TurnView::Ask(was, _) => match was.at {
                TargetsPointView::After(n, before, look) => {
                    match stat_step(look, replies.last()) {
                        TurnView::End(StatOutcomeView::Found(found)) => {
                            law_set_then_find(
                                was.round.actions,
                                targets[n].out_path,
                                stat_diff(before, found),
                                targets[j].out_path,
                            );
                        },
                        _ => {},
                    }
                },
                _ => {},
            },
            TurnView::End(_) => {},
        }
    }
}

/// Where no two targets are at the same path, a target that is not done with is on
/// record as it was when the record was read, whatever came of the targets before it.
pub proof fn law_records_of_later_targets_stay(
    targets: Seq<CompileTargetView>,
    job: Job,
    replies: Seq<ReplyView>,
    run: TargetsRunView,
    request: RequestView,
    j: int,
)
    requires
        distinct_targets(targets),
        after(targets_start(targets, job), targets_stepper(), replies) == TurnView::<
            TargetsRunView,
            TargetsOutcomeView,
        >::Ask(run, request),
        0 <= j < targets.len(),
        match run.at {
            TargetsPointView::Clearing(n, _) => n <= j,
            TargetsPointView::Before(n, _) => n <= j,
            TargetsPointView::Generating(n, _, _) => n <= j,
            TargetsPointView::Emptying(n, _, _) => n <= j,
            TargetsPointView::After(n, _, _) => n <= j,
            _ => false,
        },
    ensures
        find_record(run.round.actions, targets[j].out_path) == find_record(
            told_records(replies),
            targets[j].out_path,
        ),
{
    lemma_later_records(targets, job, replies, j);
}

} // verus!
