//! Cleaning up after a build: what goes, and what stays.
use crate::actions::{find_record, law_set_then_find, TargetBuildActionsView};
use crate::built::{law_what_was_added_is_recorded, lemma_shape, targets_stepper, told_records};
use crate::config::CompileTargetView;
use crate::emptied::{
    distinct_targets, law_all_that_builds_added_is_removed, law_record_of_a_target_stays,
    removal_due, removals_due, removals_go_well, targets_past,
};
use crate::order::{descending, holds_path, law_sort_rearranges};
use crate::path::{components, is_below, same_path};
use crate::protocol::{
    after, all_fit, lemma_first_fit, requests, ReplyView, RequestView, TurnView,
};
use crate::removal::{removal_order, removed};
use crate::stat::{stat_diff, StatView};
use crate::targets::{targets_start, Job, TargetsOutcomeView, TargetsPointView, TargetsRunView};
use crate::walk::{stat_step, StatOutcomeView, TargetStatView};
use vstd::prelude::*;

verus! {

/// What is due for one of the targets is among what is due for all of them.
proof fn lemma_due_for_a_target(
    targets: Seq<CompileTargetView>,
    records: Seq<TargetBuildActionsView>,
    n: int,
    i: int,
    p: Seq<u8>,
)
    requires
        0 <= i < n,
        removal_due(find_record(records, targets[i].out_path)).contains(p),
    ensures
        removals_due(targets, records, n).contains(p),
    decreases n,
{
    let earlier = removals_due(targets, records, n - 1);
    let last = removal_due(find_record(records, targets[n - 1].out_path));
    if i == n - 1 {
        let k = choose|k: int| 0 <= k < last.len() && last[k] == p;
        assert(removals_due(targets, records, n)[earlier.len() + k] == p);
    } else {
        lemma_due_for_a_target(targets, records, n - 1, i, p);
        let k = choose|k: int| 0 <= k < earlier.len() && earlier[k] == p;
        assert(removals_due(targets, records, n)[k] == p);
    }
}

/// A path that the second look found and the first did not is among what is to
/// be removed.
proof fn lemma_added_is_due(
    record: TargetBuildActionsView,
    before: StatView,
    found: StatView,
    p: Seq<u8>,
)
    requires
        record.diff == stat_diff(before, found),
        is_added(before, found, p),
    ensures
        removal_order(record).contains(p),
{
    broadcast use vstd::seq_lib::group_to_multiset_ensures;
    let files = record.diff.files;
    let dirs = descending(record.diff.dirs);
    if found.files.contains(p) && !holds_path(before.files, p) {
        let k = choose|k: int| 0 <= k < found.files.len() && found.files[k] == p;
        found.files.lemma_filter_contains(|q: Seq<u8>| !holds_path(before.files, q), k);
        let i = choose|i: int| 0 <= i < files.len() && files[i] == p;
        assert(removal_order(record)[i] == p);
    } else {
        let k = choose|k: int| 0 <= k < found.dirs.len() && found.dirs[k] == p;
        found.dirs.lemma_filter_contains(|q: Seq<u8>| !holds_path(before.dirs, q), k);
        law_sort_rearranges(record.diff.dirs);
        assert(record.diff.dirs.to_multiset().count(p) > 0);
        assert(dirs.contains(p));
        let i = choose|i: int| 0 <= i < dirs.len() && dirs[i] == p;
        assert(removal_order(record)[files.len() + i] == p);
    }
}

/// What is due for all of the targets is due for one of them.
proof fn lemma_due_for_some_target(
    targets: Seq<CompileTargetView>,
    records: Seq<TargetBuildActionsView>,
    n: int,
    p: Seq<u8>,
) -> (i: int)
    requires
        0 <= n,
        removals_due(targets, records, n).contains(p),
    ensures
        0 <= i < n,
        removal_due(find_record(records, targets[i].out_path)).contains(p),
    decreases n,
{
    let all = removals_due(targets, records, n);
    let k = choose|k: int| 0 <= k < all.len() && all[k] == p;
    let earlier = removals_due(targets, records, n - 1);
    let last = removal_due(find_record(records, targets[n - 1].out_path));
    if k < earlier.len() {
        assert(earlier[k] == p);
        lemma_due_for_some_target(targets, records, n - 1, p)
    } else {
        assert(last[k - earlier.len()] == p);
        n - 1
    }
}

/// Whether the second look found a path and the first did not.
pub open spec fn is_added(before: StatView, found: StatView, p: Seq<u8>) -> bool {
    ||| found.files.contains(p) && !holds_path(before.files, p)
    ||| found.dirs.contains(p) && !holds_path(before.dirs, p)
}

/// What is to be removed is what the second look found and the first did not.
proof fn lemma_due_was_added(
    record: TargetBuildActionsView,
    before: StatView,
    found: StatView,
    p: Seq<u8>,
)
    requires
        record.diff == stat_diff(before, found),
        removal_order(record).contains(p),
    ensures
        is_added(before, found, p),
{
    broadcast use vstd::seq_lib::group_to_multiset_ensures;
    let files = record.diff.files;
    let dirs = descending(record.diff.dirs);
    let order = removal_order(record);
    let k = choose|k: int| 0 <= k < order.len() && order[k] == p;
    if k < files.len() {
        let new = |q: Seq<u8>| !holds_path(before.files, q);
        found.files.lemma_filter_pred(new, k);
        assert(found.files.filter(new).contains(p));
        found.files.lemma_filter_contains_rev(new, p);
    } else {
        let new = |q: Seq<u8>| !holds_path(before.dirs, q);
        assert(dirs[k - files.len()] == p);
        assert(dirs.contains(p));
        law_sort_rearranges(record.diff.dirs);
        assert(dirs.to_multiset().count(p) > 0);
        assert(record.diff.dirs.contains(p));
        let i = choose|i: int| 0 <= i < record.diff.dirs.len() && record.diff.dirs[i] == p;
        found.dirs.lemma_filter_pred(new, i);
        found.dirs.lemma_filter_contains_rev(new, p);
    }
}

/// Whether reply `k` ended the second look at target `i`: the first had found
/// what is `before`, and the second what is `found`.
pub open spec fn look_ends_at(
    targets: Seq<CompileTargetView>,
    job: Job,
    replies: Seq<ReplyView>,
    k: int,
    i: int,
    before: StatView,
    found: StatView,
) -> bool {
    &&& 0 <= k < replies.len()
    &&& match after(targets_start(targets, job), targets_stepper(), replies.take(k)) {
        TurnView::Ask(run, _) => match run.at {
            TargetsPointView::After(n, first, look) => n == i && first == before && stat_step(
                look,
                replies[k],
            ) == TurnView::<TargetStatView, StatOutcomeView>::End(StatOutcomeView::Found(found)),
            _ => false,
        },
        TurnView::End(_) => false,
    }
}

/// Whether a run looked at target `i` twice, and found what is `before` and then
/// what is `found`.
pub open spec fn looked_at(
    targets: Seq<CompileTargetView>,
    job: Job,
    replies: Seq<ReplyView>,
    i: int,
    before: StatView,
    found: StatView,
) -> bool {
    exists|k: int| #[trigger] look_ends_at(targets, job, replies, k, i, before, found)
}

/// Whether a path came to be while a build was at one of its targets: the second
/// look at that target found it and the first did not.
pub open spec fn is_added_by_build(
    targets: Seq<CompileTargetView>,
    replies: Seq<ReplyView>,
    p: Seq<u8>,
) -> bool {
    exists|i: int, before: StatView, found: StatView| #[trigger]
        looked_at(targets, Job::Build, replies, i, before, found) && is_added(before, found, p)
}

/// Whether what is on record of target `i` is what one of the looks added.
spec fn record_is_of_a_look(
    targets: Seq<CompileTargetView>,
    job: Job,
    replies: Seq<ReplyView>,
    actions: Seq<TargetBuildActionsView>,
    i: int,
) -> bool {
    exists|before: StatView, found: StatView| #[trigger]
        looked_at(targets, job, replies, i, before, found) && find_record(
            actions,
            targets[i].out_path,
        ) == Some(
            TargetBuildActionsView {
                target: targets[i].out_path,
                diff: stat_diff(before, found),
            },
        )
}

/// A look stays on record when more replies come.
proof fn lemma_record_stays_of_a_look(
    targets: Seq<CompileTargetView>,
    job: Job,
    replies: Seq<ReplyView>,
    actions: Seq<TargetBuildActionsView>,
    later: Seq<TargetBuildActionsView>,
    i: int,
)
    requires
        replies.len() > 0,
        record_is_of_a_look(targets, job, replies.drop_last(), actions, i),
        find_record(later, targets[i].out_path) == find_record(actions, targets[i].out_path),
    ensures
        record_is_of_a_look(targets, job, replies, later, i),
{
    let earlier = replies.drop_last();
    let (before, found) = choose|before: StatView, found: StatView| #[trigger]
        looked_at(targets, job, earlier, i, before, found) && find_record(
            actions,
            targets[i].out_path,
        ) == Some(
            TargetBuildActionsView {
                target: targets[i].out_path,
                diff: stat_diff(before, found),
            },
        );
    let k = choose|k: int| #[trigger] look_ends_at(targets, job, earlier, k, i, before, found);
    assert(replies.take(k) =~= earlier.take(k));
    assert(look_ends_at(targets, job, replies, k, i, before, found));
    assert(looked_at(targets, job, replies, i, before, found));
}

proof fn lemma_records_are_of_looks(
    targets: Seq<CompileTargetView>,
    job: Job,
    replies: Seq<ReplyView>,
)
    requires
        distinct_targets(targets),
    ensures
        after(targets_start(targets, job), targets_stepper(), replies) matches TurnView::Ask(run, _)
            ==> forall|i: int|
            0 <= i < targets_past(targets, run.at) ==> #[trigger] record_is_of_a_look(
                targets,
                job,
                replies,
                run.round.actions,
                i,
            ),
    decreases replies.len(),
{
    let start = targets_start(targets, job);
    let step = targets_stepper();
    if replies.len() > 0 {
        let earlier = replies.drop_last();
        lemma_records_are_of_looks(targets, job, earlier);
        lemma_shape(targets, job, earlier);
        match (after(start, step, earlier), after(start, step, replies)) {
            (TurnView::Ask(was, _), TurnView::Ask(run, _)) => {
                let actions = run.round.actions;
                assert forall|i: int| 0 <= i < targets_past(targets, run.at) implies
                    #[trigger] record_is_of_a_look(targets, job, replies, actions, i) by {
                    match was.at {
                        TargetsPointView::After(n, before, look) => match stat_step(
                            look,
                            replies.last(),
                        ) {
                            TurnView::End(StatOutcomeView::Found(found)) => {
                                let diff = stat_diff(before, found);
                                let out = targets[n].out_path;
                                let other = targets[i].out_path;
                                law_set_then_find(was.round.actions, out, diff, other);
                                if i == n {
                                    let k = replies.len() - 1;
                                    assert(replies.take(k) =~= earlier);
                                    assert(look_ends_at(targets, job, replies, k, i, before, found));
                                    assert(looked_at(targets, job, replies, i, before, found));
                                } else {
                                    assert(record_is_of_a_look(
                                        targets,
                                        job,
                                        earlier,
                                        was.round.actions,
                                        i,
                                    ));
                                    assert(!same_path(targets[i].out_path, targets[n].out_path));
                                    lemma_record_stays_of_a_look(
                                        targets,
                                        job,
                                        replies,
                                        was.round.actions,
                                        actions,
                                        i,
                                    );
                                }
                            },
                            _ => {
                                assert(record_is_of_a_look(
                                    targets,
                                    job,
                                    earlier,
                                    was.round.actions,
                                    i,
                                ));
                                lemma_record_stays_of_a_look(
                                    targets,
                                    job,
                                    replies,
                                    was.round.actions,
                                    actions,
                                    i,
                                );
                            },
                        },
                        TargetsPointView::Loading => {},
                        _ => {
                            assert(record_is_of_a_look(
                                targets,
                                job,
                                earlier,
                                was.round.actions,
                                i,
                            ));
                            lemma_record_stays_of_a_look(
                                targets,
                                job,
                                replies,
                                was.round.actions,
                                actions,
                                i,
                            );
                        },
                    }
                }
            },
            _ => {},
        }
    }
}

/// The look at target `i` is what the record says of it by the time that the
/// record is written.
proof fn lemma_look_is_recorded(
    targets: Seq<CompileTargetView>,
    job: Job,
    replies: Seq<ReplyView>,
    run: TargetsRunView,
    request: RequestView,
    i: int,
    before: StatView,
    found: StatView,
)
    requires
        distinct_targets(targets),
        after(targets_start(targets, job), targets_stepper(), replies) == TurnView::<
            TargetsRunView,
            TargetsOutcomeView,
        >::Ask(run, request),
        looked_at(targets, job, replies, i, before, found),
    ensures
        0 <= i < targets.len(),
        i < targets_past(targets, run.at),
        find_record(run.round.actions, targets[i].out_path) == Some(
            TargetBuildActionsView {
                target: targets[i].out_path,
                diff: stat_diff(before, found),
            },
        ),
{
    let start = targets_start(targets, job);
    let step = targets_stepper();
    let k = choose|k: int| #[trigger] look_ends_at(targets, job, replies, k, i, before, found);
    let first = replies.take(k);
    let rest = replies.skip(k + 1);
    assert(first.push(replies[k]) =~= replies.take(k + 1));
    assert(first.push(replies[k]) + rest =~= replies);
    match after(start, step, first) {
        TurnView::Ask(at, asked) => {
            let look = at.at->After_2;
            law_what_was_added_is_recorded(
                targets,
                job,
                first,
                replies[k],
                at,
                asked,
                i,
                before,
                look,
                found,
            );
            assert(first.push(replies[k]).drop_last() =~= first);
            match after(start, step, first.push(replies[k])) {
                TurnView::Ask(next, next_asked) => {
                    law_record_of_a_target_stays(
                        targets,
                        job,
                        first.push(replies[k]),
                        rest,
                        next,
                        next_asked,
                        run,
                        request,
                        i,
                    );
                },
                TurnView::End(_) => {},
            }
        },
        TurnView::End(_) => {},
    }
}

/// Cleaning up undoes a build. Say that a build, of targets no two of which are
/// at the same path, came to write the record, and that cleaning up with that
/// record comes to its end and every removal goes well. What cleaning up then
/// asks to remove is what came to be during the build and nothing else: the paths
/// that the second look at a target found and the first did not.
pub proof fn law_clean_undoes_build(
    targets: Seq<CompileTargetView>,
    built: Seq<ReplyView>,
    stored: TargetsRunView,
    path: Seq<u8>,
    actions: Seq<TargetBuildActionsView>,
    cleaned: Seq<ReplyView>,
    p: Seq<u8>,
)
    requires
        distinct_targets(targets),
        after(targets_start(targets, Job::Build), targets_stepper(), built) == TurnView::<
            TargetsRunView,
            TargetsOutcomeView,
        >::Ask(stored, RequestView::WriteBuildActions { path, actions }),
        told_records(cleaned) == actions,
        all_fit(
            targets_start(targets, Job::Clean),
            targets_stepper(),
            removals_go_well(),
            cleaned,
        ),
        after(targets_start(targets, Job::Clean), targets_stepper(), cleaned) == TurnView::<
            TargetsRunView,
            TargetsOutcomeView,
        >::End(TargetsOutcomeView::Finished),
    ensures
        removed(requests(targets_start(targets, Job::Clean), targets_stepper(), cleaned)).contains(
            p,
        ) <==> is_added_by_build(targets, built, p),
{
    let n = targets.len() as int;
    let request = RequestView::WriteBuildActions { path, actions };
    lemma_shape(targets, Job::Build, built);
    law_all_that_builds_added_is_removed(targets, Job::Clean, cleaned);
    if removals_due(targets, actions, n).contains(p) {
        let i = lemma_due_for_some_target(targets, actions, n, p);
        lemma_records_are_of_looks(targets, Job::Build, built);
        assert(record_is_of_a_look(targets, Job::Build, built, actions, i));
        let (before, found) = choose|before: StatView, found: StatView| #[trigger]
            looked_at(targets, Job::Build, built, i, before, found) && find_record(
                actions,
                targets[i].out_path,
            ) == Some(
                TargetBuildActionsView {
                    target: targets[i].out_path,
                    diff: stat_diff(before, found),
                },
            );
        lemma_due_was_added(
            find_record(actions, targets[i].out_path)->0,
            before,
            found,
            p,
        );
        assert(is_added_by_build(targets, built, p));
    }
    if is_added_by_build(targets, built, p) {
        let (i, before, found) = choose|i: int, before: StatView, found: StatView| #[trigger]
            looked_at(targets, Job::Build, built, i, before, found) && is_added(before, found, p);
        lemma_look_is_recorded(
            targets,
            Job::Build,
            built,
            stored,
            request,
            i,
            before,
            found,
        );
        lemma_added_is_due(find_record(actions, targets[i].out_path)->0, before, found, p);
        lemma_due_for_a_target(targets, actions, n, i, p);
    }
}

// ---------------------------------------------------------------------------
// What was there before stays
// ---------------------------------------------------------------------------

/// Whether no target is at the path of another, nor below it.
pub open spec fn targets_apart(targets: Seq<CompileTargetView>) -> bool {
    forall|i: int, j: int|
        #![trigger targets[i], targets[j]]
        0 <= i < targets.len() && 0 <= j < targets.len() && i != j ==> !same_path(
            targets[i].out_path,
            targets[j].out_path,
        ) && !is_below(targets[i].out_path, targets[j].out_path)
}

/// Whether a look at a target is told of nothing but what is below the target,
/// to hold the replies of a whole run to.
pub open spec fn looks_stay_below() -> spec_fn(TargetsRunView, ReplyView) -> bool {
    |run: TargetsRunView, reply: ReplyView|
        match (run.at, reply) {
            (TargetsPointView::Before(n, _), ReplyView::Entry { path, is_dir }) => is_below(
                path,
                run.round.targets[n].out_path,
            ),
            (TargetsPointView::After(n, _, _), ReplyView::Entry { path, is_dir }) => is_below(
                path,
                run.round.targets[n].out_path,
            ),
            _ => true,
        }
}

/// Whether a path is not a directory now that was a file, nor a file that was a
/// directory.
pub open spec fn kind_stays(before: StatView, found: StatView, q: Seq<u8>) -> bool {
    &&& !(holds_path(before.files, q) && holds_path(found.dirs, q))
    &&& !(holds_path(before.dirs, q) && holds_path(found.files, q))
}

/// Whether nothing that was a file is a directory now, nor the other way round.
pub open spec fn kinds_stay(before: StatView, found: StatView) -> bool {
    forall|q: Seq<u8>| #[trigger] kind_stays(before, found, q)
}

/// Whether the first look found the path.
pub open spec fn was_there(before: StatView, p: Seq<u8>) -> bool {
    holds_path(before.files, p) || holds_path(before.dirs, p)
}

/// Whether everything that a look found is below the target.
spec fn is_all_below(found: StatView, out: Seq<u8>) -> bool {
    &&& forall|i: int| 0 <= i < found.files.len() ==> is_below(#[trigger] found.files[i], out)
    &&& forall|i: int| 0 <= i < found.dirs.len() ==> is_below(#[trigger] found.dirs[i], out)
}

/// What the looks of a run have found so far is below the target.
spec fn looks_are_below(targets: Seq<CompileTargetView>, at: TargetsPointView) -> bool {
    match at {
        TargetsPointView::Before(n, look) => is_all_below(look.found, targets[n].out_path),
        TargetsPointView::Generating(n, before, _) => is_all_below(before, targets[n].out_path),
        TargetsPointView::Emptying(n, before, _) => is_all_below(before, targets[n].out_path),
        TargetsPointView::After(n, before, look) => is_all_below(before, targets[n].out_path)
            && is_all_below(look.found, targets[n].out_path),
        _ => true,
    }
}

proof fn lemma_look_stays_below(look: TargetStatView, reply: ReplyView, out: Seq<u8>)
    requires
        is_all_below(look.found, out),
        reply matches ReplyView::Entry { path, is_dir } ==> is_below(path, out),
    ensures
        match stat_step(look, reply) {
            TurnView::Ask(next, _) => is_all_below(next.found, out),
            TurnView::End(StatOutcomeView::Found(found)) => is_all_below(found, out),
            TurnView::End(_) => true,
        },
{
}

proof fn lemma_looks_are_below(
    targets: Seq<CompileTargetView>,
    job: Job,
    replies: Seq<ReplyView>,
)
    requires
        all_fit(targets_start(targets, job), targets_stepper(), looks_stay_below(), replies),
    ensures
        after(targets_start(targets, job), targets_stepper(), replies) matches TurnView::Ask(run, _)
            ==> looks_are_below(targets, run.at),
    decreases replies.len(),
{
    if replies.len() > 0 {
        let earlier = replies.drop_last();
        lemma_looks_are_below(targets, job, earlier);
        lemma_shape(targets, job, earlier);
        match after(targets_start(targets, job), targets_stepper(), earlier) {
            TurnView::Ask(was, _) => match was.at {
                TargetsPointView::Before(n, look) => {
                    lemma_look_stays_below(look, replies.last(), targets[n].out_path);
                },
                TargetsPointView::After(n, _, look) => {
                    lemma_look_stays_below(look, replies.last(), targets[n].out_path);
                },
                _ => {},
            },
            TurnView::End(_) => {},
        }
    }
}

/// What a look found, first or second, is below the target.
proof fn lemma_found_is_below(
    targets: Seq<CompileTargetView>,
    job: Job,
    replies: Seq<ReplyView>,
    i: int,
    before: StatView,
    found: StatView,
)
    requires
        all_fit(targets_start(targets, job), targets_stepper(), looks_stay_below(), replies),
        looked_at(targets, job, replies, i, before, found),
    ensures
        0 <= i < targets.len(),
        is_all_below(before, targets[i].out_path),
        is_all_below(found, targets[i].out_path),
{
    let k = choose|k: int| #[trigger] look_ends_at(targets, job, replies, k, i, before, found);
    lemma_first_fit(
        targets_start(targets, job),
        targets_stepper(),
        looks_stay_below(),
        replies,
        k,
    );
    lemma_shape(targets, job, replies.take(k));
    lemma_looks_are_below(targets, job, replies.take(k));
}

/// A target is looked at once before and once after.
proof fn lemma_one_look_each(
    targets: Seq<CompileTargetView>,
    job: Job,
    replies: Seq<ReplyView>,
    i: int,
    k: int,
    before: StatView,
    found: StatView,
    l: int,
    other_before: StatView,
    other_found: StatView,
)
    requires
        distinct_targets(targets),
        look_ends_at(targets, job, replies, k, i, before, found),
        look_ends_at(targets, job, replies, l, i, other_before, other_found),
        k <= l,
    ensures
        before == other_before,
        found == other_found,
{
    if k < l {
        let some = replies.take(l);
        assert(some.take(k) =~= replies.take(k));
        assert(look_ends_at(targets, job, some, k, i, before, found));
        assert(looked_at(targets, job, some, i, before, found));
        match after(targets_start(targets, job), targets_stepper(), some) {
            TurnView::Ask(run, request) => {
                lemma_look_is_recorded(targets, job, some, run, request, i, before, found);
            },
            TurnView::End(_) => {},
        }
    }
}

/// A path is below one target at most.
proof fn lemma_below_one_target(
    targets: Seq<CompileTargetView>,
    i: int,
    j: int,
    p: Seq<u8>,
    q: Seq<u8>,
)
    requires
        targets_apart(targets),
        0 <= i < targets.len(),
        0 <= j < targets.len(),
        is_below(p, targets[i].out_path),
        is_below(q, targets[j].out_path),
        same_path(p, q),
    ensures
        i == j,
{
    if i != j {
        let a = components(targets[i].out_path);
        let b = components(targets[j].out_path);
        let c = components(p);
        if a.len() <= b.len() {
            assert(b.take(a.len() as int) =~= c.take(a.len() as int));
            assert(a.len() == b.len() ==> a =~= b);
        } else {
            assert(a.take(b.len() as int) =~= c.take(b.len() as int));
        }
    }
}

/// What is there at the second look and was not at the first was not there at the
/// first as anything else either.
proof fn lemma_added_was_not_there(before: StatView, found: StatView, p: Seq<u8>)
    requires
        is_added(before, found, p),
        kinds_stay(before, found),
    ensures
        !was_there(before, p),
{
    assert(kind_stays(before, found, p));
    if found.files.contains(p) && !holds_path(before.files, p) {
        let m = choose|m: int| 0 <= m < found.files.len() && found.files[m] == p;
        assert(same_path(found.files[m], p));
        assert(holds_path(found.files, p));
    } else {
        let m = choose|m: int| 0 <= m < found.dirs.len() && found.dirs[m] == p;
        assert(same_path(found.dirs[m], p));
        assert(holds_path(found.dirs, p));
    }
}

/// What the second look at a target found is below that target, and what the
/// first look at another found is not.
proof fn lemma_looks_are_of_one_target(
    targets: Seq<CompileTargetView>,
    replies: Seq<ReplyView>,
    i: int,
    first: StatView,
    second: StatView,
    j: int,
    before: StatView,
    found: StatView,
    p: Seq<u8>,
)
    requires
        targets_apart(targets),
        all_fit(
            targets_start(targets, Job::Build),
            targets_stepper(),
            looks_stay_below(),
            replies,
        ),
        looked_at(targets, Job::Build, replies, i, first, second),
        looked_at(targets, Job::Build, replies, j, before, found),
        is_added(first, second, p),
        was_there(before, p),
    ensures
        i == j,
{
    lemma_found_is_below(targets, Job::Build, replies, i, first, second);
    lemma_found_is_below(targets, Job::Build, replies, j, before, found);
    assert(is_below(p, targets[i].out_path));
    let q = if holds_path(before.files, p) {
        let k = choose|k: int|
            0 <= k < before.files.len() && same_path(#[trigger] before.files[k], p);
        before.files[k]
    } else {
        let k = choose|k: int|
            0 <= k < before.dirs.len() && same_path(#[trigger] before.dirs[k], p);
        before.dirs[k]
    };
    assert(is_below(q, targets[j].out_path));
    lemma_below_one_target(targets, i, j, p, q);
}

/// Of one target there is one first look and one second.
proof fn lemma_same_looks(
    targets: Seq<CompileTargetView>,
    job: Job,
    replies: Seq<ReplyView>,
    i: int,
    first: StatView,
    second: StatView,
    before: StatView,
    found: StatView,
)
    requires
        distinct_targets(targets),
        looked_at(targets, job, replies, i, first, second),
        looked_at(targets, job, replies, i, before, found),
    ensures
        first == before,
        second == found,
{
    let k = choose|k: int| #[trigger] look_ends_at(targets, job, replies, k, i, first, second);
    let l = choose|l: int| #[trigger] look_ends_at(targets, job, replies, l, i, before, found);
    if k <= l {
        lemma_one_look_each(targets, job, replies, i, k, first, second, l, before, found);
    } else {
        lemma_one_look_each(targets, job, replies, i, l, before, found, k, first, second);
    }
}

/// What was there before a build is kept when cleaning up after it. Say that a
/// build, of targets none of which is at or below another, came to write the
/// record; that its looks were told of nothing but what is below the target; that
/// nothing that was a file became a directory, nor the other way round; and that
/// cleaning up with that record comes to its end and every removal goes well.
/// Cleaning up then asks to remove nothing that the first look at a target found.
pub proof fn law_clean_spares_what_was_there(
    targets: Seq<CompileTargetView>,
    built: Seq<ReplyView>,
    stored: TargetsRunView,
    path: Seq<u8>,
    actions: Seq<TargetBuildActionsView>,
    cleaned: Seq<ReplyView>,
    j: int,
    before: StatView,
    found: StatView,
    p: Seq<u8>,
)
    requires
        targets_apart(targets),
        after(targets_start(targets, Job::Build), targets_stepper(), built) == TurnView::<
            TargetsRunView,
            TargetsOutcomeView,
        >::Ask(stored, RequestView::WriteBuildActions { path, actions }),
        all_fit(
            targets_start(targets, Job::Build),
            targets_stepper(),
            looks_stay_below(),
            built,
        ),
        forall|i: int, first: StatView, second: StatView| #[trigger]
            looked_at(targets, Job::Build, built, i, first, second) ==> kinds_stay(first, second),
        told_records(cleaned) == actions,
        all_fit(
            targets_start(targets, Job::Clean),
            targets_stepper(),
            removals_go_well(),
            cleaned,
        ),
        after(targets_start(targets, Job::Clean), targets_stepper(), cleaned) == TurnView::<
            TargetsRunView,
            TargetsOutcomeView,
        >::End(TargetsOutcomeView::Finished),
        looked_at(targets, Job::Build, built, j, before, found),
        was_there(before, p),
    ensures
        !removed(requests(targets_start(targets, Job::Clean), targets_stepper(), cleaned)).contains(
            p,
        ),
{
    law_clean_undoes_build(targets, built, stored, path, actions, cleaned, p);
    if is_added_by_build(targets, built, p) {
        let (i, first, second) = choose|i: int, first: StatView, second: StatView| #[trigger]
            looked_at(targets, Job::Build, built, i, first, second) && is_added(first, second, p);
        lemma_looks_are_of_one_target(targets, built, i, first, second, j, before, found, p);
        lemma_same_looks(targets, Job::Build, built, i, first, second, before, found);
        lemma_added_was_not_there(before, found, p);
    }
}

} // verus!
