//! Runs that are made of others: which of them is under way, and since when.
use crate::actions::find_record;
use crate::built::{lemma_shape, targets_stepper};
use crate::cache::{
    cache_from, cache_start, CacheOutcomeView, CachePointView, CacheRunView, CacheStateView,
};
use crate::cached::cache_stepper;
use crate::checkout::{
    checkout_start, checkout_stepper, CheckoutOutcomeView, RemoteCheckoutView,
};
use crate::config::{CompileTargetView, SourceView, TemplateView};
use crate::copy::{copy_start, copy_step, CopyDirView, CopyOutcomeView};
use crate::home::EnvironmentView;
use crate::index::{lookup, CacheEntryView};
use crate::mirror::copy_stepper;
use crate::path::join;
use crate::protocol::{after, ReplyView, RequestView, TurnView};
use crate::removal::{
    clean_start, clean_step, clean_stepper, CleanOutcomeView, TargetCleanView,
};
use crate::stat::StatView;
use crate::targets::{
    targets_start, Job, TargetsOutcomeView, TargetsPointView, TargetsRunView,
};
use crate::templates::{templates_start, templates_stepper, CopyTemplatesView, TemplatePointView};
use crate::vendor::{
    populate_from, populate_start, reported, vendor_copy, PopulateOutcomeView, PopulateVendorView,
    VendorReportView, VendorStateView,
};
use crate::vendored::populate_stepper;
use crate::walk::{stat_start, stat_step, stat_stepper, StatOutcomeView, TargetStatView};
use vstd::prelude::*;

verus! {

/// What comes after a place in the replies, with one more of them.
proof fn lemma_one_more(replies: Seq<ReplyView>, k: int)
    requires
        replies.len() > 0,
        0 <= k <= replies.len() - 1,
    ensures
        replies.skip(k).len() > 0,
        replies.skip(k).drop_last() == replies.drop_last().skip(k),
        replies.skip(k).last() == replies.last(),
{
    assert(replies.skip(k).drop_last() =~= replies.drop_last().skip(k));
}

// ---------------------------------------------------------------------------
// Filling the vendor directory
// ---------------------------------------------------------------------------

proof fn lemma_from_begins_a_copy(state: VendorStateView, n: int)
    requires
        0 <= n,
        state.reports.len() == n,
    ensures
        populate_from(state, n) matches TurnView::Ask(run, request) ==> {
            &&& n <= run.at < state.sources.len()
            &&& run.state.sources == state.sources
            &&& run.state.env == state.env
            &&& run.state.index == state.index
            &&& run.state.reports.len() == run.at
            &&& run.state.reports.take(n) == state.reports
            &&& vendor_copy(state.sources[run.at], state.env, state.index) matches Some(way)
                && copy_start(way.src, way.dst) == TurnView::<CopyDirView, CopyOutcomeView>::Ask(
                run.copy,
                request,
            )
        },
        populate_from(state, n) matches TurnView::End(outcome) ==> (outcome matches
            PopulateOutcomeView::Populated(reports) && reports.len() >= n && reports.take(n)
            == state.reports),
    decreases state.sources.len() - n,
{
    if n < state.sources.len() && vendor_copy(state.sources[n], state.env, state.index) is None {
        let more = reported(state, VendorReportView::Missing(state.sources[n]));
        lemma_from_begins_a_copy(more, n + 1);
        assert(more.reports.take(n) =~= state.reports);
        match populate_from(more, n + 1) {
            TurnView::Ask(run, _) => {
                assert(run.state.reports.take(n + 1).take(n) =~= run.state.reports.take(n));
            },
            TurnView::End(PopulateOutcomeView::Populated(reports)) => {
                assert(reports.take(n + 1).take(n) =~= reports.take(n));
            },
            _ => {},
        }
    } else {
        assert(state.reports.take(n) =~= state.reports);
    }
}

/// While the vendor directory is filled, the copy of one of the sources is under way,
/// from where the source is to where it goes: what is waited for is what that copy
/// waits for, given the replies from a certain one on, which is handed back. Every
/// source before it has a report.
pub proof fn law_populate_is_at_a_copy(
    sources: Seq<SourceView>,
    env: EnvironmentView,
    index: Seq<CacheEntryView>,
    replies: Seq<ReplyView>,
    run: PopulateVendorView,
    request: RequestView,
) -> (since: int)
    requires
        after(populate_start(sources, env, index), populate_stepper(), replies) == TurnView::<
            PopulateVendorView,
            PopulateOutcomeView,
        >::Ask(run, request),
    ensures
        0 <= since <= replies.len(),
        0 <= run.at < sources.len(),
        run.state.sources == sources,
        run.state.env == env,
        run.state.index == index,
        run.state.reports.len() == run.at,
        vendor_copy(sources[run.at], env, index) matches Some(way) && after(
            copy_start(way.src, way.dst),
            copy_stepper(),
            replies.skip(since),
        ) == TurnView::<CopyDirView, CopyOutcomeView>::Ask(run.copy, request),
    decreases replies.len(),
{
    let start = populate_start(sources, env, index);
    if replies.len() == 0 {
        let state = VendorStateView { sources, env, index, reports: Seq::empty() };
        lemma_from_begins_a_copy(state, 0);
        0
    } else {
        let earlier = replies.drop_last();
        match after(start, populate_stepper(), earlier) {
            TurnView::Ask(was, asked) => {
                let since = law_populate_is_at_a_copy(sources, env, index, earlier, was, asked);
                match copy_step(was.copy, replies.last()) {
                    TurnView::Ask(_, _) => {
                        lemma_one_more(replies, since);
                        since
                    },
                    TurnView::End(CopyOutcomeView::Copied(log)) => {
                        let report = VendorReportView::Copied(log);
                        lemma_from_begins_a_copy(reported(was.state, report), was.at + 1);
                        assert(replies.skip(replies.len() as int) =~= Seq::empty());
                        replies.len() as int
                    },
                    _ => 0,
                }
            },
            TurnView::End(_) => 0,
        }
    }
}

/// Once the copy of a source has ended well, there is a report of it with what that
/// copy did, behind the reports of the sources before it, and it stays.
pub proof fn law_populate_reports_what_each_copy_did(
    sources: Seq<SourceView>,
    env: EnvironmentView,
    index: Seq<CacheEntryView>,
    replies: Seq<ReplyView>,
    run: PopulateVendorView,
    request: RequestView,
    last: ReplyView,
)
    requires
        after(populate_start(sources, env, index), populate_stepper(), replies) == TurnView::<
            PopulateVendorView,
            PopulateOutcomeView,
        >::Ask(run, request),
    ensures
        copy_step(run.copy, last) matches TurnView::End(CopyOutcomeView::Copied(log)) ==> {
            let reports = match after(
                populate_start(sources, env, index),
                populate_stepper(),
                replies.push(last),
            ) {
                TurnView::Ask(later, _) => later.state.reports,
                TurnView::End(PopulateOutcomeView::Populated(reports)) => reports,
                _ => Seq::empty(),
            };
            &&& reports.len() > run.at
            &&& reports.take(run.at) == run.state.reports
            &&& reports[run.at] == VendorReportView::Copied(log)
        },
        copy_step(run.copy, last) is Ask ==> (after(
            populate_start(sources, env, index),
            populate_stepper(),
            replies.push(last),
        ) matches TurnView::Ask(later, _) && later.state.reports == run.state.reports && later.at
            == run.at),
{
    let since = law_populate_is_at_a_copy(sources, env, index, replies, run, request);
    assert(replies.push(last).drop_last() =~= replies);
    if let TurnView::End(CopyOutcomeView::Copied(log)) = copy_step(run.copy, last) {
        let state = reported(run.state, VendorReportView::Copied(log));
        lemma_from_begins_a_copy(state, run.at + 1);
        let reports = match populate_from(state, run.at + 1) {
            TurnView::Ask(later, _) => later.state.reports,
            TurnView::End(PopulateOutcomeView::Populated(reports)) => reports,
            _ => Seq::empty(),
        };
        assert(reports.take(run.at + 1)[run.at] == reports[run.at]);
        assert(reports.take(run.at) =~= state.reports.take(run.at));
        assert(state.reports.take(run.at) =~= run.state.reports);
    }
}

// ---------------------------------------------------------------------------
// Copying templates
// ---------------------------------------------------------------------------

/// While a template is copied, a copy is under way from its path to where it goes,
/// both from the working directory: what is waited for is what that copy waits for,
/// given the replies from a certain one on, which is handed back.
pub proof fn law_templates_are_at_a_copy(
    templates: Seq<TemplateView>,
    replies: Seq<ReplyView>,
    run: CopyTemplatesView,
    request: RequestView,
) -> (since: int)
    requires
        after(templates_start(templates), templates_stepper(), replies) == TurnView::<
            CopyTemplatesView,
            Seq<CopyOutcomeView>,
        >::Ask(run, request),
    ensures
        0 <= since <= replies.len(),
        run.templates == templates,
        0 <= run.at < templates.len(),
        run.copies.len() == run.at,
        run.point matches TemplatePointView::Copying(copy) ==> after(
            copy_start(
                join(vstd::utf8::encode_utf8("."@), templates[run.at].in_path),
                join(vstd::utf8::encode_utf8("."@), templates[run.at].out_path),
            ),
            copy_stepper(),
            replies.skip(since),
        ) == TurnView::<CopyDirView, CopyOutcomeView>::Ask(copy, request),
    decreases replies.len(),
{
    if replies.len() == 0 {
        0
    } else {
        let earlier = replies.drop_last();
        assert(replies.skip(replies.len() as int) =~= Seq::empty());
        match after(templates_start(templates), templates_stepper(), earlier) {
            TurnView::Ask(was, asked) => {
                let since = law_templates_are_at_a_copy(templates, earlier, was, asked);
                match was.point {
                    TemplatePointView::Copying(copy) => {
                        lemma_one_more(replies, since);
                        since
                    },
                    _ => replies.len() as int,
                }
            },
            TurnView::End(_) => 0,
        }
    }
}

// ---------------------------------------------------------------------------
// Bringing the cache up to date
// ---------------------------------------------------------------------------

proof fn lemma_from_checks_nothing_out(state: CacheStateView, n: int)
    ensures
        cache_from(state, n) matches TurnView::Ask(run, _) ==> run.state == state && !(
        run.at is CheckingOut),
    decreases state.sources.len() - n,
{
    if n < state.sources.len() && lookup(state.index, state.sources[n]) is Some {
        lemma_from_checks_nothing_out(state, n + 1);
    }
}

/// While a source is checked out into the cache, a checkout of it is under way, into
/// the cache and under the name that was given: what is waited for is what that
/// checkout waits for, given the replies from a certain one on, which is handed back.
pub proof fn law_update_is_at_a_checkout(
    sources: Seq<SourceView>,
    env: EnvironmentView,
    dir: Seq<u8>,
    replies: Seq<ReplyView>,
    run: CacheRunView,
    request: RequestView,
) -> (since: int)
    requires
        after(cache_start(sources, env, Some(dir)), cache_stepper(), replies) == TurnView::<
            CacheRunView,
            CacheOutcomeView,
        >::Ask(run, request),
    ensures
        0 <= since <= replies.len(),
        run.state.root == join(dir, vstd::utf8::encode_utf8("protov"@)),
        run.at matches CachePointView::CheckingOut(_, checkout) ==> {
            &&& since > 0
            &&& replies[since - 1] == ReplyView::Name(checkout.name)
            &&& after(
                checkout_start(
                    checkout.source,
                    join(dir, vstd::utf8::encode_utf8("protov"@)),
                    checkout.name,
                ),
                checkout_stepper(),
                replies.skip(since),
            ) == TurnView::<RemoteCheckoutView, CheckoutOutcomeView>::Ask(checkout, request)
        },
    decreases replies.len(),
{
    if replies.len() == 0 {
        0
    } else {
        let earlier = replies.drop_last();
        assert(replies.skip(replies.len() as int) =~= Seq::empty());
        assert forall|state: CacheStateView, n: int|
            (#[trigger] cache_from(state, n) matches TurnView::Ask(next, _) ==> next.state == state
                && !(next.at is CheckingOut)) by {
            lemma_from_checks_nothing_out(state, n);
        }
        match after(cache_start(sources, env, Some(dir)), cache_stepper(), earlier) {
            TurnView::Ask(was, asked) => {
                let since = law_update_is_at_a_checkout(sources, env, dir, earlier, was, asked);
                match was.at {
                    CachePointView::CheckingOut(_, checkout) => {
                        lemma_one_more(replies, since);
                        assert(replies[since - 1] == earlier[since - 1]);
                        since
                    },
                    _ => replies.len() as int,
                }
            },
            TurnView::End(_) => 0,
        }
    }
}

// ---------------------------------------------------------------------------
// Going through targets
// ---------------------------------------------------------------------------

/// While targets are gone through, a look at one of them is under way, or the removal
/// of what its last build added, or the generator is waited for: what is waited for is
/// what that look or removal waits for, given the replies from a certain one on, which
/// is handed back.
pub proof fn law_round_is_at_a_look_or_a_removal(
    targets: Seq<CompileTargetView>,
    job: Job,
    replies: Seq<ReplyView>,
    run: TargetsRunView,
    request: RequestView,
) -> (since: int)
    requires
        after(targets_start(targets, job), targets_stepper(), replies) == TurnView::<
            TargetsRunView,
            TargetsOutcomeView,
        >::Ask(run, request),
    ensures
        0 <= since <= replies.len(),
        match run.at {
            TargetsPointView::Clearing(n, clean) => find_record(
                run.round.actions,
                targets[n].out_path,
            ) matches Some(record) && after(
                clean_start(record),
                clean_stepper(),
                replies.skip(since),
            ) == TurnView::<TargetCleanView, CleanOutcomeView>::Ask(clean, request),
            TargetsPointView::Emptying(n, _, clean) => find_record(
                run.round.actions,
                targets[n].out_path,
            ) matches Some(record) && after(
                clean_start(record),
                clean_stepper(),
                replies.skip(since),
            ) == TurnView::<TargetCleanView, CleanOutcomeView>::Ask(clean, request),
            TargetsPointView::Before(n, look) => after(
                stat_start(targets[n].out_path),
                stat_stepper(),
                replies.skip(since),
            ) == TurnView::<TargetStatView, StatOutcomeView>::Ask(look, request),
            TargetsPointView::After(n, _, look) => after(
                stat_start(targets[n].out_path),
                stat_stepper(),
                replies.skip(since),
            ) == TurnView::<TargetStatView, StatOutcomeView>::Ask(look, request),
            _ => true,
        },
    decreases replies.len(),
{
    if replies.len() == 0 {
        0
    } else {
        let earlier = replies.drop_last();
        let reply = replies.last();
        lemma_shape(targets, job, earlier);
        assert(replies.skip(replies.len() as int) =~= Seq::empty());
        match after(targets_start(targets, job), targets_stepper(), earlier) {
            TurnView::Ask(was, asked) => {
                let since = law_round_is_at_a_look_or_a_removal(targets, job, earlier, was, asked);
                let goes_on = match was.at {
                    TargetsPointView::Clearing(_, clean) => clean_step(clean, reply) is Ask,
                    TargetsPointView::Emptying(_, _, clean) => clean_step(clean, reply) is Ask,
                    TargetsPointView::Before(_, look) => stat_step(look, reply) is Ask,
                    TargetsPointView::After(_, _, look) => stat_step(look, reply) is Ask,
                    _ => false,
                };
                if goes_on {
                    lemma_one_more(replies, since);
                    since
                } else {
                    replies.len() as int
                }
            },
            TurnView::End(_) => 0,
        }
    }
}

/// What a run goes by as found by the first look at a target is what a look at it
/// found: between which replies that was is handed back.
pub proof fn law_first_look_is_what_was_found(
    targets: Seq<CompileTargetView>,
    job: Job,
    replies: Seq<ReplyView>,
    run: TargetsRunView,
    request: RequestView,
) -> (span: (int, int))
    requires
        after(targets_start(targets, job), targets_stepper(), replies) == TurnView::<
            TargetsRunView,
            TargetsOutcomeView,
        >::Ask(run, request),
    ensures
        0 <= span.0 <= span.1 <= replies.len(),
        match run.at {
            TargetsPointView::Generating(n, before, _) => found_between(
                targets[n].out_path,
                replies,
                span.0,
                span.1,
                before,
            ),
            TargetsPointView::Emptying(n, before, _) => found_between(
                targets[n].out_path,
                replies,
                span.0,
                span.1,
                before,
            ),
            TargetsPointView::After(n, before, _) => found_between(
                targets[n].out_path,
                replies,
                span.0,
                span.1,
                before,
            ),
            _ => true,
        },
    decreases replies.len(),
{
    if replies.len() == 0 {
        (0, 0)
    } else {
        let earlier = replies.drop_last();
        let n = replies.len() as int;
        lemma_shape(targets, job, earlier);
        match after(targets_start(targets, job), targets_stepper(), earlier) {
            TurnView::Ask(was, asked) => {
                let span = law_first_look_is_what_was_found(targets, job, earlier, was, asked);
                let since = law_round_is_at_a_look_or_a_removal(targets, job, earlier, was, asked);
                match was.at {
                    TargetsPointView::Before(_, _) => {
                        lemma_one_more(replies, since);
                        assert(replies.subrange(since, n) =~= replies.skip(since));
                        (since, n)
                    },
                    _ => {
                        assert(replies.subrange(span.0, span.1) =~= earlier.subrange(
                            span.0,
                            span.1,
                        ));
                        span
                    },
                }
            },
            TurnView::End(_) => (0, 0),
        }
    }
}

/// Whether a look at a directory that was given those of the replies found that.
pub open spec fn found_between(
    dir: Seq<u8>,
    replies: Seq<ReplyView>,
    from: int,
    to: int,
    found: StatView,
) -> bool {
    after(stat_start(dir), stat_stepper(), replies.subrange(from, to)) == TurnView::<
        TargetStatView,
        StatOutcomeView,
    >::End(StatOutcomeView::Found(found))
}

} // verus!
