//! Building targets on a disk and cleaning up after it.
use crate::actions::{find_record, law_set_then_find, set_record, TargetBuildActionsView};
use crate::built::targets_stepper;
use crate::cleared::{
    cleared, clearing, differs_below, lemma_adding_differs_below, lemma_cleared_is_restored,
    lemma_clearing_goes_on, lemma_clearing_keeps_what_was_there, lemma_clearing_starts,
    lemma_grows_on, lemma_others_stay, lemma_same_as_the_third,
};
use crate::command::generate_command;
use crate::config::CompileTargetView;
use crate::disk::{
    answers, apart, generates, grows, lemma_played, place, played, same_below, Disk, Tree,
};
use crate::path::same_path;
use crate::protocol::{after, ReplyView, RequestView, TurnView};
use crate::removal::{clean_start, clean_step, CleanOutcomeView, TargetCleanView};
use crate::seen::{
    lemma_look_goes_on, lemma_look_starts, lemma_looks_tell_added, lemma_sees_the_same,
    lemma_tells_the_same, looking, sees_all, tells_added,
};
use crate::stat::{stat_diff, StatView};
use crate::targets::{
    clear_target, empty_target, generate_from, target_from, targets_start, targets_step, Job, RoundView,
    TargetsOutcomeView, TargetsPointView, TargetsRunView,
};
use crate::walk::{stat_step, StatOutcomeView};
use vstd::prelude::*;

verus! {

/// Whether no target is kept in the directory of another, or below it.
pub open spec fn targets_are_apart(targets: Seq<CompileTargetView>) -> bool {
    forall|i: int, j: int|
        #![trigger targets[i], targets[j]]
        0 <= i < targets.len() && 0 <= j < targets.len() && i != j ==> apart(
            place(targets[i].out_path),
            place(targets[j].out_path),
        )
}

/// Whether the directory of every target is there.
pub open spec fn targets_are_there(targets: Seq<CompileTargetView>, tree: Tree) -> bool {
    forall|j: int|
        0 <= j < targets.len() ==> tree.dirs.contains(place((#[trigger] targets[j]).out_path))
}

proof fn lemma_apart_differ(targets: Seq<CompileTargetView>, i: int, j: int)
    requires
        targets_are_apart(targets),
        0 <= i < targets.len(),
        0 <= j < targets.len(),
        i != j,
    ensures
        apart(place(targets[i].out_path), place(targets[j].out_path)),
        !same_path(targets[j].out_path, targets[i].out_path),
{
    let a = place(targets[i].out_path);
    assert(a.is_prefix_of(a));
}

// ---------------------------------------------------------------------------
// A build
// ---------------------------------------------------------------------------

/// Whether the record tells what was added for the target since `old`.
pub open spec fn is_recorded(
    actions: Seq<TargetBuildActionsView>,
    target: CompileTargetView,
    old: Tree,
    tree: Tree,
) -> bool {
    find_record(actions, target.out_path) matches Some(record) && tells_added(
        record.diff,
        target.out_path,
        old,
        tree,
    )
}

/// Whether the first `n` targets are recorded, and nothing was added for those from
/// `m` on.
pub open spec fn built_up_to(
    targets: Seq<CompileTargetView>,
    old: Tree,
    tree: Tree,
    actions: Seq<TargetBuildActionsView>,
    n: int,
    m: int,
) -> bool {
    &&& tree.well_formed()
    &&& grows(old, tree)
    &&& forall|j: int| 0 <= j < n ==> is_recorded(actions, #[trigger] targets[j], old, tree)
    &&& forall|j: int|
        n <= j < targets.len() ==> find_record(actions, (#[trigger] targets[j]).out_path) is None
    &&& forall|j: int|
        m <= j < targets.len() ==> same_below(tree, old, place((#[trigger] targets[j]).out_path))
}

/// What holds of a build that nothing was recorded before, wherever it stands.
spec fn building(
    targets: Seq<CompileTargetView>,
    old: Tree,
    turn: TurnView<TargetsRunView, TargetsOutcomeView>,
    disk: Disk,
) -> bool {
    match turn {
        TurnView::Ask(run, request) => {
            let actions = run.round.actions;
            &&& run.round.targets == targets
            &&& run.round.job is Build
            &&& disk.record is None
            &&& match run.at {
                TargetsPointView::Loading => request is ReadBuildActions && disk.tree == old,
                TargetsPointView::Before(n, look) => {
                    &&& 0 <= n < targets.len()
                    &&& built_up_to(targets, old, disk.tree, actions, n, n)
                    &&& looking(targets[n].out_path, disk, look, request)
                },
                TargetsPointView::Generating(n, before, k) => {
                    &&& 0 <= n < targets.len()
                    &&& built_up_to(targets, old, disk.tree, actions, n, n + 1)
                    &&& sees_all(before, targets[n].out_path, old)
                    &&& request == RequestView::Run(
                        generate_command(
                            targets[n].sources[k],
                            targets[n].out_gen_path,
                            targets[n].out_path,
                        ),
                    )
                },
                TargetsPointView::After(n, before, look) => {
                    &&& 0 <= n < targets.len()
                    &&& built_up_to(targets, old, disk.tree, actions, n, n + 1)
                    &&& sees_all(before, targets[n].out_path, old)
                    &&& looking(targets[n].out_path, disk, look, request)
                },
                TargetsPointView::Storing => {
                    &&& built_up_to(
                        targets,
                        old,
                        disk.tree,
                        actions,
                        targets.len() as int,
                        targets.len() as int,
                    )
                    &&& request matches RequestView::WriteBuildActions { actions: told, .. } && told
                        == actions
                },
                _ => false,
            }
        },
        TurnView::End(outcome) => outcome is Finished ==> (disk.record matches Some(actions)
            && built_up_to(
            targets,
            old,
            disk.tree,
            actions,
            targets.len() as int,
            targets.len() as int,
        )),
    }
}

proof fn lemma_next_build(
    targets: Seq<CompileTargetView>,
    old: Tree,
    round: RoundView,
    n: int,
    disk: Disk,
)
    requires
        0 <= n <= targets.len(),
        round.targets == targets,
        round.job is Build,
        disk.record is None,
        built_up_to(targets, old, disk.tree, round.actions, n, n),
    ensures
        building(targets, old, target_from(round, n), disk),
{
    if n < targets.len() {
        assert(find_record(round.actions, targets[n].out_path) is None);
        lemma_look_starts(targets[n].out_path, disk);
    }
}

proof fn lemma_next_source(
    targets: Seq<CompileTargetView>,
    old: Tree,
    round: RoundView,
    n: int,
    before: StatView,
    k: int,
    disk: Disk,
)
    requires
        0 <= n < targets.len(),
        round.targets == targets,
        round.job is Build,
        disk.record is None,
        built_up_to(targets, old, disk.tree, round.actions, n, n + 1),
        sees_all(before, targets[n].out_path, old),
    ensures
        building(targets, old, generate_from(round, n, before, k), disk),
{
    lemma_look_starts(targets[n].out_path, disk);
}

/// What the generator adds for one target makes no difference to the others.
proof fn lemma_generator_adds(
    targets: Seq<CompileTargetView>,
    old: Tree,
    a: Tree,
    b: Tree,
    actions: Seq<TargetBuildActionsView>,
    n: int,
)
    requires
        targets_are_apart(targets),
        0 <= n < targets.len(),
        built_up_to(targets, old, a, actions, n, n + 1),
        b.well_formed(),
        grows(a, b),
        differs_below(a, b, place(targets[n].out_path)),
    ensures
        built_up_to(targets, old, b, actions, n, n + 1),
{
    assert(grows(old, b));
    assert forall|j: int| 0 <= j < n implies is_recorded(
        actions,
        #[trigger] targets[j],
        old,
        b,
    ) by {
        assert(is_recorded(actions, targets[j], old, a));
        lemma_apart_differ(targets, n, j);
        lemma_others_stay(a, b, place(targets[n].out_path), place(targets[j].out_path));
        let record = find_record(actions, targets[j].out_path)->0;
        lemma_tells_the_same(record.diff, targets[j].out_path, old, a, b);
    }
    assert forall|j: int| n + 1 <= j < targets.len() implies same_below(
        b,
        old,
        place((#[trigger] targets[j]).out_path),
    ) by {
        let at = place(targets[j].out_path);
        lemma_apart_differ(targets, n, j);
        lemma_others_stay(a, b, place(targets[n].out_path), at);
        lemma_same_as_the_third(a, b, old, at);
    }
}

/// What was added for a target is recorded.
proof fn lemma_recording(
    targets: Seq<CompileTargetView>,
    old: Tree,
    tree: Tree,
    actions: Seq<TargetBuildActionsView>,
    n: int,
    diff: StatView,
)
    requires
        targets_are_apart(targets),
        0 <= n < targets.len(),
        built_up_to(targets, old, tree, actions, n, n + 1),
        tells_added(diff, targets[n].out_path, old, tree),
    ensures
        built_up_to(
            targets,
            old,
            tree,
            set_record(actions, targets[n].out_path, diff),
            n + 1,
            n + 1,
        ),
{
    let more = set_record(actions, targets[n].out_path, diff);
    assert forall|j: int| 0 <= j < n + 1 implies is_recorded(
        more,
        #[trigger] targets[j],
        old,
        tree,
    ) by {
        law_set_then_find(actions, targets[n].out_path, diff, targets[j].out_path);
        if j < n {
            lemma_apart_differ(targets, n, j);
            assert(is_recorded(actions, targets[j], old, tree));
        }
    }
    assert forall|j: int| n + 1 <= j < targets.len() implies find_record(
        more,
        (#[trigger] targets[j]).out_path,
    ) is None by {
        law_set_then_find(actions, targets[n].out_path, diff, targets[j].out_path);
        lemma_apart_differ(targets, n, j);
    }
}

proof fn lemma_build_goes_on(
    targets: Seq<CompileTargetView>,
    old: Tree,
    run: TargetsRunView,
    request: RequestView,
    disk: Disk,
    reply: ReplyView,
    next: Disk,
)
    requires
        targets_are_apart(targets),
        targets_are_there(targets, old),
        old.well_formed(),
        building(targets, old, TurnView::Ask(run, request), disk),
        answers(disk, request, reply, next),
    ensures
        building(targets, old, targets_step(run, reply), next),
{
    let round = run.round;
    match run.at {
        TargetsPointView::Loading => {
            let empty = Seq::<TargetBuildActionsView>::empty();
            assert forall|j: int| 0 <= j < targets.len() implies same_below(
                old,
                old,
                place((#[trigger] targets[j]).out_path),
            ) by {}
            lemma_next_build(targets, old, RoundView { actions: empty, ..round }, 0, next);
        },
        TargetsPointView::Before(n, look) => {
            let base = targets[n].out_path;
            assert(disk.tree.dirs.contains(place(base)));
            lemma_look_goes_on(base, disk, look, request, reply, next);
            match stat_step(look, reply) {
                TurnView::End(StatOutcomeView::Found(before)) => {
                    lemma_sees_the_same(before, base, next.tree, old);
                    lemma_next_source(targets, old, round, n, before, 0, next);
                },
                _ => {},
            }
        },
        TargetsPointView::Generating(n, before, k) => {
            let base = targets[n].out_path;
            let command = generate_command(targets[n].sources[k], targets[n].out_gen_path, base);
            assert(command.args.last() == base);
            assert(generates(disk, command, next));
            lemma_adding_differs_below(disk.tree, next.tree, place(base));
            lemma_generator_adds(targets, old, disk.tree, next.tree, round.actions, n);
            lemma_next_source(targets, old, round, n, before, k + 1, next);
        },
        TargetsPointView::After(n, before, look) => {
            let base = targets[n].out_path;
            assert(old.dirs.contains(place(base)));
            lemma_look_goes_on(base, disk, look, request, reply, next);
            match stat_step(look, reply) {
                TurnView::End(StatOutcomeView::Found(found)) => {
                    let diff = stat_diff(before, found);
                    lemma_looks_tell_added(base, before, found, old, next.tree);
                    lemma_recording(targets, old, next.tree, round.actions, n, diff);
                    lemma_next_build(
                        targets,
                        old,
                        RoundView { actions: set_record(round.actions, base, diff), ..round },
                        n + 1,
                        next,
                    );
                },
                _ => {},
            }
        },
        _ => {},
    }
}

proof fn lemma_build(
    targets: Seq<CompileTargetView>,
    replies: Seq<ReplyView>,
    disks: Seq<Disk>,
)
    requires
        targets_are_apart(targets),
        targets_are_there(targets, disks[0].tree),
        disks[0].tree.well_formed(),
        disks[0].record is None,
        played(targets_start(targets, Job::Build), targets_stepper(), replies, disks),
    ensures
        building(
            targets,
            disks[0].tree,
            after(targets_start(targets, Job::Build), targets_stepper(), replies),
            disks.last(),
        ),
{
    let old = disks[0].tree;
    let holds = |turn: TurnView<TargetsRunView, TargetsOutcomeView>, disk: Disk|
        building(targets, old, turn, disk);
    let step = targets_stepper();
    assert forall|
        run: TargetsRunView,
        request: RequestView,
        disk: Disk,
        reply: ReplyView,
        next: Disk,
    |
        #![trigger holds(TurnView::Ask(run, request), disk), answers(disk, request, reply, next)]
        holds(TurnView::Ask(run, request), disk) && answers(
            disk,
            request,
            reply,
            next,
        ) implies holds(step(run, reply), next) by {
        lemma_build_goes_on(targets, old, run, request, disk, reply, next);
    }
    lemma_played(targets_start(targets, Job::Build), step, replies, disks, holds);
}

// ---------------------------------------------------------------------------
// Cleaning up after it
// ---------------------------------------------------------------------------

/// Whether the first `n` targets are as they were before the build, and those from
/// `m` on as it left them.
spec fn cleaned_up_to(
    targets: Seq<CompileTargetView>,
    old: Tree,
    was: Disk,
    tree: Tree,
    actions: Seq<TargetBuildActionsView>,
    n: int,
    m: int,
) -> bool {
    &&& tree.well_formed()
    &&& targets_are_there(targets, tree)
    &&& was.record matches Some(records) && forall|j: int|
        n <= j < targets.len() ==> find_record(actions, (#[trigger] targets[j]).out_path)
            == find_record(records, targets[j].out_path)
    &&& forall|j: int|
        0 <= j < n ==> same_below(tree, old, place((#[trigger] targets[j]).out_path))
    &&& forall|j: int|
        m <= j < targets.len() ==> same_below(
            tree,
            was.tree,
            place((#[trigger] targets[j]).out_path),
        )
}

/// What holds of cleaning up after a build, wherever it stands.
spec fn cleaning(
    targets: Seq<CompileTargetView>,
    old: Tree,
    was: Disk,
    turn: TurnView<TargetsRunView, TargetsOutcomeView>,
    disk: Disk,
) -> bool {
    match turn {
        TurnView::Ask(run, request) => {
            let actions = run.round.actions;
            &&& run.round.targets == targets
            &&& run.round.job is Clean
            &&& match run.at {
                TargetsPointView::Loading => request is ReadBuildActions && disk == was,
                TargetsPointView::Before(n, look) => {
                    &&& 0 <= n < targets.len()
                    &&& cleaned_up_to(targets, old, was, disk.tree, actions, n, n)
                    &&& looking(targets[n].out_path, disk, look, request)
                },
                TargetsPointView::Emptying(n, before, clean) => {
                    &&& 0 <= n < targets.len()
                    &&& cleaned_up_to(targets, old, was, disk.tree, actions, n, n + 1)
                    &&& find_record(actions, targets[n].out_path) matches Some(record) && clearing(
                        targets[n].out_path,
                        was.tree,
                        disk.tree,
                        record,
                        clean,
                        request,
                    )
                },
                TargetsPointView::After(n, before, look) => {
                    &&& 0 <= n < targets.len()
                    &&& cleaned_up_to(targets, old, was, disk.tree, actions, n, n + 1)
                    &&& same_below(disk.tree, old, place(targets[n].out_path))
                    &&& looking(targets[n].out_path, disk, look, request)
                },
                TargetsPointView::Storing => {
                    &&& cleaned_up_to(
                        targets,
                        old,
                        was,
                        disk.tree,
                        actions,
                        targets.len() as int,
                        targets.len() as int,
                    )
                    &&& request is WriteBuildActions
                },
                _ => false,
            }
        },
        TurnView::End(outcome) => outcome is Finished && forall|j: int|
            0 <= j < targets.len() ==> same_below(
                disk.tree,
                old,
                place((#[trigger] targets[j]).out_path),
            ),
    }
}

/// Whether a disk is as a build that nothing was recorded before left it.
spec fn is_built(targets: Seq<CompileTargetView>, old: Tree, disk: Disk) -> bool {
    disk.record matches Some(actions) && built_up_to(
        targets,
        old,
        disk.tree,
        actions,
        targets.len() as int,
        targets.len() as int,
    )
}

proof fn lemma_next_clean(
    targets: Seq<CompileTargetView>,
    old: Tree,
    was: Disk,
    round: RoundView,
    n: int,
    disk: Disk,
)
    requires
        0 <= n <= targets.len(),
        round.targets == targets,
        round.job is Clean,
        cleaned_up_to(targets, old, was, disk.tree, round.actions, n, n),
    ensures
        cleaning(targets, old, was, target_from(round, n), disk),
{
    if n < targets.len() {
        lemma_look_starts(targets[n].out_path, disk);
    }
}

/// What becomes of one target makes no difference to the others.
proof fn lemma_others_are_spared(
    targets: Seq<CompileTargetView>,
    old: Tree,
    was: Disk,
    a: Tree,
    b: Tree,
    actions: Seq<TargetBuildActionsView>,
    n: int,
)
    requires
        targets_are_apart(targets),
        0 <= n < targets.len(),
        cleaned_up_to(targets, old, was, a, actions, n, n + 1),
        b.well_formed(),
        differs_below(a, b, place(targets[n].out_path)),
    ensures
        cleaned_up_to(targets, old, was, b, actions, n, n + 1),
{
    let at = place(targets[n].out_path);
    assert forall|j: int| 0 <= j < targets.len() implies b.dirs.contains(
        place((#[trigger] targets[j]).out_path),
    ) by {
        assert(a.dirs.contains(place(targets[j].out_path)));
        lemma_others_stay(a, b, at, place(targets[j].out_path));
        if j != n {
            lemma_apart_differ(targets, n, j);
        }
    }
    assert forall|j: int| 0 <= j < n implies same_below(
        b,
        old,
        place((#[trigger] targets[j]).out_path),
    ) by {
        let other = place(targets[j].out_path);
        lemma_apart_differ(targets, n, j);
        lemma_others_stay(a, b, at, other);
        lemma_same_as_the_third(a, b, old, other);
    }
    assert forall|j: int| n + 1 <= j < targets.len() implies same_below(
        b,
        was.tree,
        place((#[trigger] targets[j]).out_path),
    ) by {
        let other = place(targets[j].out_path);
        lemma_apart_differ(targets, n, j);
        lemma_others_stay(a, b, at, other);
        lemma_same_as_the_third(a, b, was.tree, other);
    }
}

/// How a removal that is under way or has ended leaves the run.
proof fn lemma_next_removal(
    targets: Seq<CompileTargetView>,
    old: Tree,
    was: Disk,
    round: RoundView,
    n: int,
    before: StatView,
    removal: TurnView<TargetCleanView, CleanOutcomeView>,
    disk: Disk,
)
    requires
        0 <= n < targets.len(),
        round.targets == targets,
        round.job is Clean,
        is_built(targets, old, was),
        cleaned_up_to(targets, old, was, disk.tree, round.actions, n, n + 1),
        find_record(round.actions, targets[n].out_path) matches Some(record) && cleared(
            targets[n].out_path,
            was.tree,
            disk.tree,
            record,
            removal,
        ),
    ensures
        cleaning(targets, old, was, empty_target(round, n, before, removal), disk),
{
    let record = find_record(round.actions, targets[n].out_path)->0;
    match removal {
        TurnView::Ask(..) => {},
        TurnView::End(_) => {
            assert(is_recorded(was.record->0, targets[n], old, was.tree));
            lemma_cleared_is_restored(targets[n].out_path, old, was.tree, disk.tree, record);
            lemma_look_starts(targets[n].out_path, disk);
        },
    }
}

proof fn lemma_clean_goes_on(
    targets: Seq<CompileTargetView>,
    old: Tree,
    was: Disk,
    run: TargetsRunView,
    request: RequestView,
    disk: Disk,
    reply: ReplyView,
    next: Disk,
)
    requires
        targets_are_apart(targets),
        targets_are_there(targets, old),
        old.well_formed(),
        is_built(targets, old, was),
        cleaning(targets, old, was, TurnView::Ask(run, request), disk),
        answers(disk, request, reply, next),
    ensures
        cleaning(targets, old, was, targets_step(run, reply), next),
{
    let round = run.round;
    match run.at {
        TargetsPointView::Loading => {
            let actions = was.record->0;
            assert forall|j: int| 0 <= j < targets.len() implies was.tree.dirs.contains(
                place((#[trigger] targets[j]).out_path),
            ) by {
                assert(old.dirs.contains(place(targets[j].out_path)));
            }
            lemma_next_clean(targets, old, was, RoundView { actions, ..round }, 0, next);
        },
        TargetsPointView::Before(n, look) => {
            let base = targets[n].out_path;
            assert(disk.tree.dirs.contains(place(base)));
            lemma_look_goes_on(base, disk, look, request, reply, next);
            match stat_step(look, reply) {
                TurnView::End(StatOutcomeView::Found(before)) => {
                    assert(is_recorded(was.record->0, targets[n], old, was.tree));
                    let record = find_record(round.actions, base)->0;
                    lemma_clearing_starts(base, was.tree, next.tree, record);
                    lemma_next_removal(
                        targets,
                        old,
                        was,
                        round,
                        n,
                        before,
                        clean_start(record),
                        next,
                    );
                },
                _ => {},
            }
        },
        TargetsPointView::Emptying(n, before, clean) => {
            let base = targets[n].out_path;
            let record = find_record(round.actions, base)->0;
            assert(is_recorded(was.record->0, targets[n], old, was.tree));
            lemma_clearing_goes_on(
                base, old, was.tree, disk, record, clean, request, reply, next,
            );
            lemma_others_are_spared(targets, old, was, disk.tree, next.tree, round.actions, n);
            lemma_next_removal(
                targets, old, was, round, n, before, clean_step(clean, reply), next,
            );
        },
        TargetsPointView::After(n, before, look) => {
            let base = targets[n].out_path;
            assert(disk.tree.dirs.contains(place(base)));
            lemma_look_goes_on(base, disk, look, request, reply, next);
            match stat_step(look, reply) {
                TurnView::End(StatOutcomeView::Found(found)) => {
                    let diff = stat_diff(before, found);
                    let actions = set_record(round.actions, base, diff);
                    assert forall|j: int| n + 1 <= j < targets.len() implies find_record(
                        actions,
                        (#[trigger] targets[j]).out_path,
                    ) == find_record(was.record->0, targets[j].out_path) by {
                        law_set_then_find(round.actions, base, diff, targets[j].out_path);
                        lemma_apart_differ(targets, n, j);
                    }
                    lemma_next_clean(
                        targets, old, was, RoundView { actions, ..round }, n + 1, next,
                    );
                },
                _ => {},
            }
        },
        _ => {},
    }
}

proof fn lemma_clean(
    targets: Seq<CompileTargetView>,
    old: Tree,
    replies: Seq<ReplyView>,
    disks: Seq<Disk>,
)
    requires
        targets_are_apart(targets),
        targets_are_there(targets, old),
        old.well_formed(),
        is_built(targets, old, disks[0]),
        played(targets_start(targets, Job::Clean), targets_stepper(), replies, disks),
    ensures
        cleaning(
            targets,
            old,
            disks[0],
            after(targets_start(targets, Job::Clean), targets_stepper(), replies),
            disks.last(),
        ),
{
    let was = disks[0];
    let holds = |turn: TurnView<TargetsRunView, TargetsOutcomeView>, disk: Disk|
        cleaning(targets, old, was, turn, disk);
    let step = targets_stepper();
    assert forall|
        run: TargetsRunView,
        request: RequestView,
        disk: Disk,
        reply: ReplyView,
        next: Disk,
    |
        #![trigger holds(TurnView::Ask(run, request), disk), answers(disk, request, reply, next)]
        holds(TurnView::Ask(run, request), disk) && answers(
            disk,
            request,
            reply,
            next,
        ) implies holds(step(run, reply), next) by {
        lemma_clean_goes_on(targets, old, was, run, request, disk, reply, next);
    }
    lemma_played(targets_start(targets, Job::Clean), step, replies, disks, holds);
}

/// Cleaning up after a build restores the targets: on a disk on which nothing was
/// recorded and the directory of every target is there, apart from the others, a
/// build that ends well, its generator having added what it likes below the
/// directories of the targets and changed nothing, and then a clean-up, with nothing
/// changed in between, ends well too, and leaves below the directory of every target
/// exactly what there was before the build.
pub proof fn law_clean_restores_the_disk(
    targets: Seq<CompileTargetView>,
    built: Seq<ReplyView>,
    build_disks: Seq<Disk>,
    cleaned: Seq<ReplyView>,
    clean_disks: Seq<Disk>,
    outcome: TargetsOutcomeView,
)
    requires
        build_disks[0].tree.well_formed(),
        build_disks[0].record is None,
        targets_are_apart(targets),
        targets_are_there(targets, build_disks[0].tree),
        played(targets_start(targets, Job::Build), targets_stepper(), built, build_disks),
        after(targets_start(targets, Job::Build), targets_stepper(), built) == TurnView::<
            TargetsRunView,
            TargetsOutcomeView,
        >::End(TargetsOutcomeView::Finished),
        clean_disks[0] == build_disks.last(),
        played(targets_start(targets, Job::Clean), targets_stepper(), cleaned, clean_disks),
        after(targets_start(targets, Job::Clean), targets_stepper(), cleaned) == TurnView::<
            TargetsRunView,
            TargetsOutcomeView,
        >::End(outcome),
    ensures
        outcome is Finished,
        forall|j: int|
            0 <= j < targets.len() ==> same_below(
                clean_disks.last().tree,
                build_disks[0].tree,
                place((#[trigger] targets[j]).out_path),
            ),
{
    lemma_build(targets, built, build_disks);
    lemma_clean(targets, build_disks[0].tree, cleaned, clean_disks);
}

// ---------------------------------------------------------------------------
// Building again
// ---------------------------------------------------------------------------

/// Whether the first `n` targets are built again and recorded, those from `n` on are
/// on record as before, and those from `m` on are as the earlier build left them.
spec fn rebuilt_up_to(
    targets: Seq<CompileTargetView>,
    old: Tree,
    was: Disk,
    tree: Tree,
    actions: Seq<TargetBuildActionsView>,
    n: int,
    m: int,
) -> bool {
    &&& tree.well_formed()
    &&& grows(old, tree)
    &&& forall|j: int| 0 <= j < n ==> is_recorded(actions, #[trigger] targets[j], old, tree)
    &&& was.record matches Some(records) && forall|j: int|
        n <= j < targets.len() ==> find_record(actions, (#[trigger] targets[j]).out_path)
            == find_record(records, targets[j].out_path)
    &&& forall|j: int|
        m <= j < targets.len() ==> same_below(
            tree,
            was.tree,
            place((#[trigger] targets[j]).out_path),
        )
}

/// What holds of a build after an earlier one, wherever it stands.
spec fn rebuilding(
    targets: Seq<CompileTargetView>,
    old: Tree,
    was: Disk,
    turn: TurnView<TargetsRunView, TargetsOutcomeView>,
    disk: Disk,
) -> bool {
    match turn {
        TurnView::Ask(run, request) => {
            let actions = run.round.actions;
            &&& run.round.targets == targets
            &&& run.round.job is Build
            &&& match run.at {
                TargetsPointView::Loading => request is ReadBuildActions && disk == was,
                TargetsPointView::Clearing(n, clean) => {
                    &&& 0 <= n < targets.len()
                    &&& rebuilt_up_to(targets, old, was, disk.tree, actions, n, n + 1)
                    &&& find_record(actions, targets[n].out_path) matches Some(record) && clearing(
                        targets[n].out_path,
                        was.tree,
                        disk.tree,
                        record,
                        clean,
                        request,
                    )
                },
                TargetsPointView::Before(n, look) => {
                    &&& 0 <= n < targets.len()
                    &&& rebuilt_up_to(targets, old, was, disk.tree, actions, n, n + 1)
                    &&& same_below(disk.tree, old, place(targets[n].out_path))
                    &&& looking(targets[n].out_path, disk, look, request)
                },
                TargetsPointView::Generating(n, before, k) => {
                    &&& 0 <= n < targets.len()
                    &&& rebuilt_up_to(targets, old, was, disk.tree, actions, n, n + 1)
                    &&& sees_all(before, targets[n].out_path, old)
                    &&& request == RequestView::Run(
                        generate_command(
                            targets[n].sources[k],
                            targets[n].out_gen_path,
                            targets[n].out_path,
                        ),
                    )
                },
                TargetsPointView::After(n, before, look) => {
                    &&& 0 <= n < targets.len()
                    &&& rebuilt_up_to(targets, old, was, disk.tree, actions, n, n + 1)
                    &&& sees_all(before, targets[n].out_path, old)
                    &&& looking(targets[n].out_path, disk, look, request)
                },
                TargetsPointView::Storing => {
                    &&& rebuilt_up_to(
                        targets,
                        old,
                        was,
                        disk.tree,
                        actions,
                        targets.len() as int,
                        targets.len() as int,
                    )
                    &&& request matches RequestView::WriteBuildActions { actions: told, .. } && told
                        == actions
                },
                _ => false,
            }
        },
        TurnView::End(outcome) => outcome is Finished ==> is_built(targets, old, disk),
    }
}

/// How a removal that is under way or has ended leaves the build.
proof fn lemma_next_clearing(
    targets: Seq<CompileTargetView>,
    old: Tree,
    was: Disk,
    round: RoundView,
    n: int,
    removal: TurnView<TargetCleanView, CleanOutcomeView>,
    disk: Disk,
)
    requires
        0 <= n < targets.len(),
        round.targets == targets,
        round.job is Build,
        is_built(targets, old, was),
        rebuilt_up_to(targets, old, was, disk.tree, round.actions, n, n + 1),
        find_record(round.actions, targets[n].out_path) matches Some(record) && cleared(
            targets[n].out_path,
            was.tree,
            disk.tree,
            record,
            removal,
        ),
    ensures
        rebuilding(targets, old, was, clear_target(round, n, removal), disk),
{
    let record = find_record(round.actions, targets[n].out_path)->0;
    match removal {
        TurnView::Ask(..) => {},
        TurnView::End(_) => {
            assert(is_recorded(was.record->0, targets[n], old, was.tree));
            lemma_cleared_is_restored(targets[n].out_path, old, was.tree, disk.tree, record);
            lemma_look_starts(targets[n].out_path, disk);
        },
    }
}

proof fn lemma_next_rebuild(
    targets: Seq<CompileTargetView>,
    old: Tree,
    was: Disk,
    round: RoundView,
    n: int,
    disk: Disk,
)
    requires
        0 <= n <= targets.len(),
        round.targets == targets,
        round.job is Build,
        is_built(targets, old, was),
        rebuilt_up_to(targets, old, was, disk.tree, round.actions, n, n),
    ensures
        rebuilding(targets, old, was, target_from(round, n), disk),
{
    if n < targets.len() {
        assert(is_recorded(was.record->0, targets[n], old, was.tree));
        let record = find_record(round.actions, targets[n].out_path)->0;
        lemma_clearing_starts(targets[n].out_path, was.tree, disk.tree, record);
        lemma_next_clearing(targets, old, was, round, n, clean_start(record), disk);
    }
}

/// What becomes of one target makes no difference to the others.
proof fn lemma_others_are_not_rebuilt(
    targets: Seq<CompileTargetView>,
    old: Tree,
    was: Disk,
    a: Tree,
    b: Tree,
    actions: Seq<TargetBuildActionsView>,
    n: int,
)
    requires
        targets_are_apart(targets),
        0 <= n < targets.len(),
        rebuilt_up_to(targets, old, was, a, actions, n, n + 1),
        b.well_formed(),
        grows(old, b),
        differs_below(a, b, place(targets[n].out_path)),
    ensures
        rebuilt_up_to(targets, old, was, b, actions, n, n + 1),
{
    let at = place(targets[n].out_path);
    assert forall|j: int| 0 <= j < n implies is_recorded(
        actions,
        #[trigger] targets[j],
        old,
        b,
    ) by {
        assert(is_recorded(actions, targets[j], old, a));
        lemma_apart_differ(targets, n, j);
        lemma_others_stay(a, b, at, place(targets[j].out_path));
        let record = find_record(actions, targets[j].out_path)->0;
        lemma_tells_the_same(record.diff, targets[j].out_path, old, a, b);
    }
    assert forall|j: int| n + 1 <= j < targets.len() implies same_below(
        b,
        was.tree,
        place((#[trigger] targets[j]).out_path),
    ) by {
        let other = place(targets[j].out_path);
        lemma_apart_differ(targets, n, j);
        lemma_others_stay(a, b, at, other);
        lemma_same_as_the_third(a, b, was.tree, other);
    }
}

proof fn lemma_next_source_again(
    targets: Seq<CompileTargetView>,
    old: Tree,
    was: Disk,
    round: RoundView,
    n: int,
    before: StatView,
    k: int,
    disk: Disk,
)
    requires
        0 <= n < targets.len(),
        round.targets == targets,
        round.job is Build,
        rebuilt_up_to(targets, old, was, disk.tree, round.actions, n, n + 1),
        sees_all(before, targets[n].out_path, old),
    ensures
        rebuilding(targets, old, was, generate_from(round, n, before, k), disk),
{
    lemma_look_starts(targets[n].out_path, disk);
}

proof fn lemma_rebuild_goes_on(
    targets: Seq<CompileTargetView>,
    old: Tree,
    was: Disk,
    run: TargetsRunView,
    request: RequestView,
    disk: Disk,
    reply: ReplyView,
    next: Disk,
)
    requires
        targets_are_apart(targets),
        targets_are_there(targets, old),
        old.well_formed(),
        is_built(targets, old, was),
        rebuilding(targets, old, was, TurnView::Ask(run, request), disk),
        answers(disk, request, reply, next),
    ensures
        rebuilding(targets, old, was, targets_step(run, reply), next),
{
    let round = run.round;
    match run.at {
        TargetsPointView::Loading => {
            let actions = was.record->0;
            lemma_next_rebuild(targets, old, was, RoundView { actions, ..round }, 0, next);
        },
        TargetsPointView::Clearing(n, clean) => {
            let base = targets[n].out_path;
            let record = find_record(round.actions, base)->0;
            assert(is_recorded(was.record->0, targets[n], old, was.tree));
            lemma_clearing_goes_on(
                base, old, was.tree, disk, record, clean, request, reply, next,
            );
            lemma_clearing_keeps_what_was_there(
                base,
                old,
                was.tree,
                next.tree,
                record,
                clean_step(clean, reply),
            );
            lemma_grows_on(old, disk.tree, next.tree, place(base));
            lemma_others_are_not_rebuilt(
                targets,
                old,
                was,
                disk.tree,
                next.tree,
                round.actions,
                n,
            );
            lemma_next_clearing(targets, old, was, round, n, clean_step(clean, reply), next);
        },
        TargetsPointView::Before(n, look) => {
            let base = targets[n].out_path;
            assert(old.dirs.contains(place(base)));
            lemma_look_goes_on(base, disk, look, request, reply, next);
            match stat_step(look, reply) {
                TurnView::End(StatOutcomeView::Found(before)) => {
                    lemma_sees_the_same(before, base, next.tree, old);
                    lemma_next_source_again(targets, old, was, round, n, before, 0, next);
                },
                _ => {},
            }
        },
        TargetsPointView::Generating(n, before, k) => {
            let base = targets[n].out_path;
            let command = generate_command(targets[n].sources[k], targets[n].out_gen_path, base);
            assert(command.args.last() == base);
            assert(generates(disk, command, next));
            lemma_adding_differs_below(disk.tree, next.tree, place(base));
            assert(grows(old, next.tree));
            lemma_others_are_not_rebuilt(
                targets,
                old,
                was,
                disk.tree,
                next.tree,
                round.actions,
                n,
            );
            lemma_next_source_again(targets, old, was, round, n, before, k + 1, next);
        },
        TargetsPointView::After(n, before, look) => {
            let base = targets[n].out_path;
            assert(old.dirs.contains(place(base)));
            lemma_look_goes_on(base, disk, look, request, reply, next);
            match stat_step(look, reply) {
                TurnView::End(StatOutcomeView::Found(found)) => {
                    let diff = stat_diff(before, found);
                    let actions = set_record(round.actions, base, diff);
                    lemma_looks_tell_added(base, before, found, old, next.tree);
                    assert forall|j: int| 0 <= j < n + 1 implies is_recorded(
                        actions,
                        #[trigger] targets[j],
                        old,
                        next.tree,
                    ) by {
                        law_set_then_find(round.actions, base, diff, targets[j].out_path);
                        if j < n {
                            lemma_apart_differ(targets, n, j);
                            assert(is_recorded(round.actions, targets[j], old, next.tree));
                        }
                    }
                    assert forall|j: int| n + 1 <= j < targets.len() implies find_record(
                        actions,
                        (#[trigger] targets[j]).out_path,
                    ) == find_record(was.record->0, targets[j].out_path) by {
                        law_set_then_find(round.actions, base, diff, targets[j].out_path);
                        lemma_apart_differ(targets, n, j);
                    }
                    lemma_next_rebuild(
                        targets, old, was, RoundView { actions, ..round }, n + 1, next,
                    );
                },
                _ => {},
            }
        },
        TargetsPointView::Storing => {
            assert forall|j: int| 0 <= j < targets.len() implies is_recorded(
                round.actions,
                #[trigger] targets[j],
                old,
                next.tree,
            ) by {
                assert(is_recorded(round.actions, targets[j], old, disk.tree));
            }
        },
        _ => {},
    }
}

proof fn lemma_rebuild(
    targets: Seq<CompileTargetView>,
    old: Tree,
    replies: Seq<ReplyView>,
    disks: Seq<Disk>,
)
    requires
        targets_are_apart(targets),
        targets_are_there(targets, old),
        old.well_formed(),
        is_built(targets, old, disks[0]),
        played(targets_start(targets, Job::Build), targets_stepper(), replies, disks),
    ensures
        rebuilding(
            targets,
            old,
            disks[0],
            after(targets_start(targets, Job::Build), targets_stepper(), replies),
            disks.last(),
        ),
{
    let was = disks[0];
    let holds = |turn: TurnView<TargetsRunView, TargetsOutcomeView>, disk: Disk|
        rebuilding(targets, old, was, turn, disk);
    let step = targets_stepper();
    assert forall|
        run: TargetsRunView,
        request: RequestView,
        disk: Disk,
        reply: ReplyView,
        next: Disk,
    |
        #![trigger holds(TurnView::Ask(run, request), disk), answers(disk, request, reply, next)]
        holds(TurnView::Ask(run, request), disk) && answers(
            disk,
            request,
            reply,
            next,
        ) implies holds(step(run, reply), next) by {
        lemma_rebuild_goes_on(targets, old, was, run, request, disk, reply, next);
    }
    lemma_played(targets_start(targets, Job::Build), step, replies, disks, holds);
}

/// A build on a disk: what it was told, and the disk before the first reply and after
/// each of them.
pub struct BuildOnDisk {
    pub replies: Seq<ReplyView>,
    pub disks: Seq<Disk>,
}

/// Whether builds ended well one after the other on a disk, with nothing changed in
/// between.
pub open spec fn builds_follow(targets: Seq<CompileTargetView>, builds: Seq<BuildOnDisk>) -> bool {
    &&& forall|i: int|
        0 <= i < builds.len() ==> {
            let build = #[trigger] builds[i];
            &&& played(
                targets_start(targets, Job::Build),
                targets_stepper(),
                build.replies,
                build.disks,
            )
            &&& after(targets_start(targets, Job::Build), targets_stepper(), build.replies)
                == TurnView::<TargetsRunView, TargetsOutcomeView>::End(TargetsOutcomeView::Finished)
        }
    &&& forall|i: int, j: int|
        #![trigger builds[i], builds[j]]
        0 <= i < builds.len() && j == i + 1 && j < builds.len() ==> builds[j].disks[0]
            == builds[i].disks.last()
}

proof fn lemma_builds(targets: Seq<CompileTargetView>, builds: Seq<BuildOnDisk>, n: int)
    requires
        0 < n <= builds.len(),
        builds_follow(targets, builds),
        builds[0].disks[0].tree.well_formed(),
        builds[0].disks[0].record is None,
        targets_are_apart(targets),
        targets_are_there(targets, builds[0].disks[0].tree),
    ensures
        is_built(targets, builds[0].disks[0].tree, builds[n - 1].disks.last()),
    decreases n,
{
    let old = builds[0].disks[0].tree;
    let build = builds[n - 1];
    if n == 1 {
        lemma_build(targets, build.replies, build.disks);
    } else {
        lemma_builds(targets, builds, n - 1);
        assert(builds[n - 1].disks[0] == builds[n - 2].disks.last());
        lemma_rebuild(targets, old, build.replies, build.disks);
    }
}

/// Cleaning up restores the targets however often they were built: on a disk on which
/// nothing was recorded at first, after any number of builds that ended well, each
/// adding what it likes below the directories of the targets, a clean-up ends well and
/// leaves below the directory of every target exactly what there was before the first
/// build. So each build removes what the one before added ahead of its first look.
pub proof fn law_clean_restores_the_disk_after_many_builds(
    targets: Seq<CompileTargetView>,
    builds: Seq<BuildOnDisk>,
    cleaned: Seq<ReplyView>,
    clean_disks: Seq<Disk>,
    outcome: TargetsOutcomeView,
)
    requires
        builds.len() > 0,
        builds_follow(targets, builds),
        builds[0].disks[0].tree.well_formed(),
        builds[0].disks[0].record is None,
        targets_are_apart(targets),
        targets_are_there(targets, builds[0].disks[0].tree),
        clean_disks[0] == builds.last().disks.last(),
        played(targets_start(targets, Job::Clean), targets_stepper(), cleaned, clean_disks),
        after(targets_start(targets, Job::Clean), targets_stepper(), cleaned) == TurnView::<
            TargetsRunView,
            TargetsOutcomeView,
        >::End(outcome),
    ensures
        outcome is Finished,
        forall|j: int|
            0 <= j < targets.len() ==> same_below(
                clean_disks.last().tree,
                builds[0].disks[0].tree,
                place((#[trigger] targets[j]).out_path),
            ),
{
    lemma_builds(targets, builds, builds.len() as int);
    lemma_clean(targets, builds[0].disks[0].tree, cleaned, clean_disks);
}

} // verus!
