//! What a synchronisation does as a whole.
use crate::built::targets_stepper;
use crate::cache::{
    cache_from, cache_start, cache_step, CacheFailureView, CacheOutcomeView, CacheRunView,
    CacheStateView,
};
use crate::cached::cache_stepper;
use crate::config::ConfigView;
use crate::home::EnvironmentView;
use crate::index::{lookup, CacheEntryView};
use crate::protocol::{after, requests, ReplyView, RequestView, TurnView};
use crate::sync::{
    report_of, sync_start, sync_step, SyncEndView, SyncOutcomeView, SyncPointView, SyncReportView,
    SyncRunView,
};
use crate::targets::{targets_start, Job, TargetsOutcomeView, TargetsRunView};
use crate::vendor::{
    clean_vendor_start, clean_vendor_step, populate_start, CleanVendor, CleanVendorOutcome,
    PopulateOutcomeView, PopulateVendorView, VendorReportView,
};
use crate::vendored::populate_stepper;
use vstd::prelude::*;

verus! {

/// The step of a synchronisation, to follow a whole one with.
pub open spec fn sync_stepper() -> spec_fn(SyncRunView, ReplyView) -> TurnView<
    SyncRunView,
    SyncEndView,
> {
    |run: SyncRunView, reply: ReplyView| sync_step(run, reply)
}

/// The step of emptying the vendor directory, to follow a whole run with.
pub open spec fn clean_vendor_stepper() -> spec_fn(CleanVendor, ReplyView) -> TurnView<
    CleanVendor,
    CleanVendorOutcome,
> {
    |run: CleanVendor, reply: ReplyView| clean_vendor_step(run, reply)
}

/// Without a directory for caches a synchronisation asks for nothing and ends.
pub proof fn law_no_cache_dir_no_sync(
    config: ConfigView,
    env: EnvironmentView,
    replies: Seq<ReplyView>,
)
    ensures
        after(sync_start(config, env, None), sync_stepper(), replies) == TurnView::<
            SyncRunView,
            SyncEndView,
        >::End(
            SyncEndView { report: report_of(Seq::empty()), outcome: SyncOutcomeView::NoCacheDir },
        ),
        requests(sync_start(config, env, None), sync_stepper(), replies).len() == 0,
    decreases replies.len(),
{
    if replies.len() > 0 {
        law_no_cache_dir_no_sync(config, env, replies.drop_last());
    }
}

/// The replies that each part of a synchronisation is given.
pub struct SyncParts {
    pub caching: Seq<ReplyView>,
    pub clearing: Seq<ReplyView>,
    pub populating: Seq<ReplyView>,
    pub building: Seq<ReplyView>,
}

impl SyncParts {
    /// All the replies, in order.
    pub open spec fn all(self) -> Seq<ReplyView> {
        self.caching + self.clearing + self.populating + self.building
    }
}

/// What brings the cache up to date asks for.
pub open spec fn caching_asks(
    config: ConfigView,
    env: EnvironmentView,
    dir: Option<Seq<u8>>,
    parts: SyncParts,
) -> Seq<RequestView> {
    requests(cache_start(config.sources, env, dir), cache_stepper(), parts.caching)
}

/// What empties the vendor directory asks for.
pub open spec fn clearing_asks(parts: SyncParts) -> Seq<RequestView> {
    requests(clean_vendor_start(), clean_vendor_stepper(), parts.clearing)
}

/// What fills the vendor directory asks for.
pub open spec fn populating_asks(
    config: ConfigView,
    env: EnvironmentView,
    index: Seq<CacheEntryView>,
    parts: SyncParts,
) -> Seq<RequestView> {
    requests(populate_start(config.sources, env, index), populate_stepper(), parts.populating)
}

/// What builds the targets asks for.
pub open spec fn building_asks(config: ConfigView, parts: SyncParts) -> Seq<RequestView> {
    requests(targets_start(config.targets, Job::Build), targets_stepper(), parts.building)
}

/// Whether the cache is brought up to date, and has that index then, but for
/// those failures.
pub open spec fn is_cached(
    config: ConfigView,
    env: EnvironmentView,
    dir: Option<Seq<u8>>,
    parts: SyncParts,
    index: Seq<CacheEntryView>,
    failures: Seq<CacheFailureView>,
) -> bool {
    after(cache_start(config.sources, env, dir), cache_stepper(), parts.caching) == TurnView::<
        CacheRunView,
        CacheOutcomeView,
    >::End(CacheOutcomeView::Cached { index, failures })
}

/// Whether emptying the vendor directory has ended, well or not.
pub open spec fn is_cleared(parts: SyncParts) -> bool {
    after(clean_vendor_start(), clean_vendor_stepper(), parts.clearing) is End
}

/// Whether the vendor directory is filled, with those reports.
pub open spec fn is_populated(
    config: ConfigView,
    env: EnvironmentView,
    parts: SyncParts,
    index: Seq<CacheEntryView>,
    reports: Seq<VendorReportView>,
) -> bool {
    after(populate_start(config.sources, env, index), populate_stepper(), parts.populating)
        == TurnView::<PopulateVendorView, PopulateOutcomeView>::End(
        PopulateOutcomeView::Populated(reports),
    )
}

/// Whether the targets are built.
pub open spec fn is_built(config: ConfigView, parts: SyncParts) -> bool {
    after(targets_start(config.targets, Job::Build), targets_stepper(), parts.building)
        == TurnView::<TargetsRunView, TargetsOutcomeView>::End(TargetsOutcomeView::Finished)
}

/// Where a synchronisation stands, in terms of its parts: those before the one
/// that it is at have come to their end, and those after it have not begun.
pub open spec fn stands_at(
    config: ConfigView,
    env: EnvironmentView,
    dir: Option<Seq<u8>>,
    turn: TurnView<SyncRunView, SyncEndView>,
    asked: Seq<RequestView>,
    parts: SyncParts,
    index: Seq<CacheEntryView>,
    report: SyncReportView,
) -> bool {
    match turn {
        TurnView::Ask(run, request) => {
            &&& run.config == config
            &&& run.env == env
            &&& match run.at {
                SyncPointView::Caching(cache) => {
                    &&& run.report == report_of(Seq::empty())
                    &&& after(
                        cache_start(config.sources, env, dir),
                        cache_stepper(),
                        parts.caching,
                    ) == TurnView::<CacheRunView, CacheOutcomeView>::Ask(cache, request)
                    &&& parts.clearing.len() == 0
                    &&& parts.populating.len() == 0
                    &&& parts.building.len() == 0
                    &&& asked == caching_asks(config, env, dir, parts)
                },
                SyncPointView::Clearing(kept, clean) => {
                    &&& kept == index
                    &&& run.report == report_of(report.failures)
                    &&& is_cached(config, env, dir, parts, index, report.failures)
                    &&& after(clean_vendor_start(), clean_vendor_stepper(), parts.clearing)
                        == TurnView::<CleanVendor, CleanVendorOutcome>::Ask(clean, request)
                    &&& parts.populating.len() == 0
                    &&& parts.building.len() == 0
                    &&& asked == caching_asks(config, env, dir, parts) + clearing_asks(parts)
                },
                SyncPointView::Populating(populate) => {
                    &&& run.report == report_of(report.failures)
                    &&& is_cached(config, env, dir, parts, index, report.failures)
                    &&& is_cleared(parts)
                    &&& after(
                        populate_start(config.sources, env, index),
                        populate_stepper(),
                        parts.populating,
                    ) == TurnView::<PopulateVendorView, PopulateOutcomeView>::Ask(populate, request)
                    &&& parts.building.len() == 0
                    &&& asked == caching_asks(config, env, dir, parts) + clearing_asks(parts)
                        + populating_asks(config, env, index, parts)
                },
                SyncPointView::Building(build) => {
                    &&& run.report == report
                    &&& is_cached(config, env, dir, parts, index, report.failures)
                    &&& is_cleared(parts)
                    &&& is_populated(config, env, parts, index, report.vendored)
                    &&& after(
                        targets_start(config.targets, Job::Build),
                        targets_stepper(),
                        parts.building,
                    ) == TurnView::<TargetsRunView, TargetsOutcomeView>::Ask(build, request)
                    &&& asked == caching_asks(config, env, dir, parts) + clearing_asks(parts)
                        + populating_asks(config, env, index, parts) + building_asks(config, parts)
                },
            }
        },
        TurnView::End(SyncEndView { report: told, outcome: SyncOutcomeView::Synced }) => {
            &&& told == report
            &&& is_cached(config, env, dir, parts, index, report.failures)
            &&& is_cleared(parts)
            &&& is_populated(config, env, parts, index, report.vendored)
            &&& is_built(config, parts)
            &&& asked == caching_asks(config, env, dir, parts) + clearing_asks(parts)
                + populating_asks(config, env, index, parts) + building_asks(config, parts)
        },
        TurnView::End(SyncEndView { report: told, outcome: SyncOutcomeView::NoCacheDir }) => {
            &&& dir is None
            &&& told.failures.len() == 0
            &&& told.vendored.len() == 0
            &&& asked.len() == 0
        },
        TurnView::End(SyncEndView { report: told, outcome: SyncOutcomeView::CannotList(listed) }) => {
            &&& after(cache_start(config.sources, env, dir), cache_stepper(), parts.caching)
                == TurnView::<CacheRunView, CacheOutcomeView>::End(
                CacheOutcomeView::CannotList { dir: listed, failures: told.failures },
            )
            &&& told.vendored.len() == 0
            &&& asked == caching_asks(config, env, dir, parts)
        },
        TurnView::End(
            SyncEndView { report: told, outcome: SyncOutcomeView::NotVendored { cached, error } },
        ) => {
            &&& is_cached(config, env, dir, parts, index, told.failures)
            &&& is_cleared(parts)
            &&& after(
                populate_start(config.sources, env, index),
                populate_stepper(),
                parts.populating,
            ) == TurnView::<PopulateVendorView, PopulateOutcomeView>::End(
                PopulateOutcomeView::NotCopied { reports: told.vendored, cached, error },
            )
            &&& asked == caching_asks(config, env, dir, parts) + clearing_asks(parts)
                + populating_asks(config, env, index, parts)
        },
        TurnView::End(SyncEndView { report: told, outcome: SyncOutcomeView::NotBuilt(error) }) => {
            &&& is_cached(config, env, dir, parts, index, told.failures)
            &&& is_cleared(parts)
            &&& is_populated(config, env, parts, index, told.vendored)
            &&& after(
                targets_start(config.targets, Job::Build),
                targets_stepper(),
                parts.building,
            ) == TurnView::<TargetsRunView, TargetsOutcomeView>::End(
                TargetsOutcomeView::Failed(error),
            )
            &&& asked == caching_asks(config, env, dir, parts) + clearing_asks(parts)
                + populating_asks(config, env, index, parts) + building_asks(config, parts)
        },
    }
}

/// What was asked for, with what is asked for now.
spec fn asked_now(
    asked: Seq<RequestView>,
    turn: TurnView<SyncRunView, SyncEndView>,
) -> Seq<RequestView> {
    match turn {
        TurnView::Ask(_, request) => asked.push(request),
        TurnView::End(_) => asked,
    }
}

proof fn lemma_from_asks(state: CacheStateView, n: int)
    ensures
        cache_from(state, n) is Ask,
    decreases state.sources.len() - n,
{
    if n < state.sources.len() && lookup(state.index, state.sources[n]) is Some {
        lemma_from_asks(state, n + 1);
    }
}

/// Where there is a directory for caches, an update does not end for want of one.
proof fn lemma_cache_dir_stays(run: CacheRunView, reply: ReplyView)
    ensures
        cache_step(run, reply) matches TurnView::End(outcome) ==> !(outcome is NoCacheDir),
{
    assert forall|state: CacheStateView, n: int| #[trigger] cache_from(state, n) is Ask by {
        lemma_from_asks(state, n);
    }
}

/// A step while the cache is brought up to date.
proof fn lemma_caching_goes_on(
    config: ConfigView,
    env: EnvironmentView,
    dir: Option<Seq<u8>>,
    run: SyncRunView,
    request: RequestView,
    asked: Seq<RequestView>,
    parts: SyncParts,
    index: Seq<CacheEntryView>,
    report: SyncReportView,
    reply: ReplyView,
) -> (found: (SyncParts, Seq<CacheEntryView>, SyncReportView))
    requires
        run.at is Caching,
        stands_at(config, env, dir, TurnView::Ask(run, request), asked, parts, index, report),
    ensures
        found.0.all() == parts.all().push(reply),
        stands_at(
            config,
            env,
            dir,
            sync_step(run, reply),
            asked_now(asked, sync_step(run, reply)),
            found.0,
            found.1,
            found.2,
        ),
{
    let more = SyncParts { caching: parts.caching.push(reply), ..parts };
    let start = cache_start(config.sources, env, dir);
    let turn = sync_step(run, reply);
    let cache = run.at->Caching_0;
    assert(more.caching.drop_last() =~= parts.caching);
    assert(more.all() =~= parts.all().push(reply));
    assert(after(start, cache_stepper(), more.caching) == cache_step(cache, reply));
    lemma_cache_dir_stays(cache, reply);
    let found = match after(start, cache_stepper(), more.caching) {
        TurnView::End(CacheOutcomeView::Cached { index, failures }) => (
            more,
            index,
            report_of(failures),
        ),
        _ => (more, index, report),
    };
    match turn {
        TurnView::Ask(next, _) => match next.at {
            SyncPointView::Caching(_) => {
                assert(asked_now(asked, turn) =~= caching_asks(config, env, dir, more));
            },
            _ => {
                assert(asked_now(asked, turn) =~= caching_asks(config, env, dir, more)
                    + clearing_asks(more));
            },
        },
        TurnView::End(_) => {
            assert(asked_now(asked, turn) =~= caching_asks(config, env, dir, more));
        },
    }
    found
}

/// A step while the vendor directory is emptied.
proof fn lemma_clearing_goes_on(
    config: ConfigView,
    env: EnvironmentView,
    dir: Option<Seq<u8>>,
    run: SyncRunView,
    request: RequestView,
    asked: Seq<RequestView>,
    parts: SyncParts,
    index: Seq<CacheEntryView>,
    report: SyncReportView,
    reply: ReplyView,
) -> (found: (SyncParts, Seq<CacheEntryView>, SyncReportView))
    requires
        run.at is Clearing,
        stands_at(config, env, dir, TurnView::Ask(run, request), asked, parts, index, report),
    ensures
        found.0.all() == parts.all().push(reply),
        stands_at(
            config,
            env,
            dir,
            sync_step(run, reply),
            asked_now(asked, sync_step(run, reply)),
            found.0,
            found.1,
            found.2,
        ),
{
    let more = SyncParts { clearing: parts.clearing.push(reply), ..parts };
    let turn = sync_step(run, reply);
    let caching = caching_asks(config, env, dir, more);
    assert(more.clearing.drop_last() =~= parts.clearing);
    assert(more.all() =~= parts.all().push(reply));
    let found = match populate_start(config.sources, env, index) {
        TurnView::End(PopulateOutcomeView::Populated(vendored)) => (
            more,
            index,
            SyncReportView { vendored, ..report },
        ),
        _ => (more, index, report),
    };
    match turn {
        TurnView::Ask(next, _) => match next.at {
            SyncPointView::Clearing(_, _) => {
                assert(asked_now(asked, turn) =~= caching + clearing_asks(more));
            },
            SyncPointView::Populating(_) => {
                assert(asked_now(asked, turn) =~= caching + clearing_asks(more) + populating_asks(
                    config,
                    env,
                    index,
                    more,
                ));
            },
            _ => {
                assert(asked_now(asked, turn) =~= caching + clearing_asks(more) + populating_asks(
                    config,
                    env,
                    index,
                    more,
                ) + building_asks(config, more));
            },
        },
        TurnView::End(_) => {},
    }
    found
}

/// A step while the vendor directory is filled.
proof fn lemma_populating_goes_on(
    config: ConfigView,
    env: EnvironmentView,
    dir: Option<Seq<u8>>,
    run: SyncRunView,
    request: RequestView,
    asked: Seq<RequestView>,
    parts: SyncParts,
    index: Seq<CacheEntryView>,
    report: SyncReportView,
    reply: ReplyView,
) -> (found: (SyncParts, Seq<CacheEntryView>, SyncReportView))
    requires
        run.at is Populating,
        stands_at(config, env, dir, TurnView::Ask(run, request), asked, parts, index, report),
    ensures
        found.0.all() == parts.all().push(reply),
        stands_at(
            config,
            env,
            dir,
            sync_step(run, reply),
            asked_now(asked, sync_step(run, reply)),
            found.0,
            found.1,
            found.2,
        ),
{
    let more = SyncParts { populating: parts.populating.push(reply), ..parts };
    let start = populate_start(config.sources, env, index);
    let turn = sync_step(run, reply);
    let before = caching_asks(config, env, dir, more) + clearing_asks(more);
    assert(more.populating.drop_last() =~= parts.populating);
    assert(more.all() =~= parts.all().push(reply));
    let found = match after(start, populate_stepper(), more.populating) {
        TurnView::End(PopulateOutcomeView::Populated(vendored)) => (
            more,
            index,
            SyncReportView { vendored, ..report },
        ),
        _ => (more, index, report),
    };
    match turn {
        TurnView::Ask(next, _) => match next.at {
            SyncPointView::Populating(_) => {
                assert(asked_now(asked, turn) =~= before + populating_asks(
                    config,
                    env,
                    index,
                    more,
                ));
            },
            _ => {
                assert(asked_now(asked, turn) =~= before + populating_asks(
                    config,
                    env,
                    index,
                    more,
                ) + building_asks(config, more));
            },
        },
        TurnView::End(_) => {
            assert(asked_now(asked, turn) =~= before + populating_asks(config, env, index, more));
        },
    }
    found
}

/// A step while the targets are built.
proof fn lemma_building_goes_on(
    config: ConfigView,
    env: EnvironmentView,
    dir: Option<Seq<u8>>,
    run: SyncRunView,
    request: RequestView,
    asked: Seq<RequestView>,
    parts: SyncParts,
    index: Seq<CacheEntryView>,
    report: SyncReportView,
    reply: ReplyView,
) -> (found: (SyncParts, Seq<CacheEntryView>, SyncReportView))
    requires
        run.at is Building,
        stands_at(config, env, dir, TurnView::Ask(run, request), asked, parts, index, report),
    ensures
        found.0.all() == parts.all().push(reply),
        stands_at(
            config,
            env,
            dir,
            sync_step(run, reply),
            asked_now(asked, sync_step(run, reply)),
            found.0,
            found.1,
            found.2,
        ),
{
    let more = SyncParts { building: parts.building.push(reply), ..parts };
    let turn = sync_step(run, reply);
    assert(more.building.drop_last() =~= parts.building);
    assert(more.all() =~= parts.all().push(reply));
    assert(asked_now(asked, turn) =~= caching_asks(config, env, dir, more) + clearing_asks(more)
        + populating_asks(config, env, index, more) + building_asks(config, more));
    (more, index, report)
}

/// A synchronisation is the cache being brought up to date, then the vendor
/// directory being emptied, then filled, and then the targets being built: what
/// it asks for is what they ask for, each with its share of the replies, and none
/// begins before the one ahead of it has come to its end; and what it tells of is
/// what they tell of. It ends where a part does that the others cannot follow: without
/// a directory for caches, where a local source could not be listed, where a source
/// could not be copied, or where the targets could not be built; and else once they are
/// built. The parts are handed back, with the index of the cache and with what there is
/// to tell, as far as they are known.
pub proof fn law_sync_is_its_parts(
    config: ConfigView,
    env: EnvironmentView,
    dir: Option<Seq<u8>>,
    replies: Seq<ReplyView>,
) -> (found: (SyncParts, Seq<CacheEntryView>, SyncReportView))
    ensures
        found.0.all() == replies,
        stands_at(
            config,
            env,
            dir,
            after(sync_start(config, env, dir), sync_stepper(), replies),
            requests(sync_start(config, env, dir), sync_stepper(), replies),
            found.0,
            found.1,
            found.2,
        ),
    decreases replies.len(),
{
    let start = sync_start(config, env, dir);
    let step = sync_stepper();
    if replies.len() == 0 {
        let none = Seq::<ReplyView>::empty();
        let parts = SyncParts { caching: none, clearing: none, populating: none, building: none };
        assert(parts.all() =~= replies);
        (parts, Seq::empty(), report_of(Seq::empty()))
    } else {
        let earlier = replies.drop_last();
        let reply = replies.last();
        let (parts, index, report) = law_sync_is_its_parts(config, env, dir, earlier);
        let asked = requests(start, step, earlier);
        let found = match after(start, step, earlier) {
            TurnView::Ask(run, request) => match run.at {
                SyncPointView::Caching(_) => lemma_caching_goes_on(
                    config, env, dir, run, request, asked, parts, index, report, reply,
                ),
                SyncPointView::Clearing(_, _) => lemma_clearing_goes_on(
                    config, env, dir, run, request, asked, parts, index, report, reply,
                ),
                SyncPointView::Populating(_) => lemma_populating_goes_on(
                    config, env, dir, run, request, asked, parts, index, report, reply,
                ),
                SyncPointView::Building(_) => lemma_building_goes_on(
                    config, env, dir, run, request, asked, parts, index, report, reply,
                ),
            },
            TurnView::End(_) => {
                let more = SyncParts { building: parts.building.push(reply), ..parts };
                assert(more.building.drop_last() =~= parts.building);
                assert(more.all() =~= parts.all().push(reply));
                (more, index, report)
            },
        };
        assert(earlier.push(reply) =~= replies);
        assert(requests(start, step, replies) == asked_now(asked, after(start, step, replies)));
        found
    }
}

} // verus!
