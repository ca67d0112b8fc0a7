//! The commands: `sync` and `clean`.
use crate::cache::{
    cache, cache_in, cache_start, cache_step, failure_views, lemma_names_are_waited_for,
    CacheFailure, CacheFailureView, CacheOutcome, CacheOutcomeView, CacheRun, CacheRunView,
};
use crate::checkout::{fresh_clone_name, is_random_uuid_text};
use crate::config::{Config, ConfigView};
use crate::copy::{copy_step, CopyError, CopyOutcomeView};
use crate::home::{Environment, EnvironmentView};
use crate::index::{CacheEntryView, CacheIndex};
use crate::path::PathBuf;
use crate::protocol::{Reply, ReplyView, Request, RequestView, Turn, TurnView};
use crate::targets::{
    build_targets, clean_targets, targets_start, targets_step, Job, TargetsError, TargetsErrorView,
    TargetsOutcome, TargetsOutcomeView, TargetsRun, TargetsRunView,
};
use crate::vendor::{
    clean_vendor, clean_vendor_start, clean_vendor_step, lemma_copies_start_with_the_question,
    populate_start, populate_step, populate_vendor, report_views, reported, CleanVendor,
    CleanVendorOutcome, PopulateOutcome, PopulateOutcomeView, PopulateVendor, PopulateVendorView,
    VendorReport, VendorReportView, VendorStateView,
};
use vstd::prelude::*;

verus! {

/// A synchronisation, as far as it has come.
#[derive(Debug)]
pub struct SyncRun<'a> {
    config: &'a Config,
    env: &'a Environment,
    report: SyncReport,
    at: SyncPoint<'a>,
}

/// What a synchronisation has to tell of, apart from how it ended.
#[derive(Debug)]
pub struct SyncReport {
    /// The remote sources that could not be had, and why.
    pub failures: Vec<CacheFailure>,
    /// What became of each source when the vendor directory was filled.
    pub vendored: Vec<VendorReport>,
}

/// The end of a synchronisation: what there is to tell, and how it ended.
#[derive(Debug)]
pub struct SyncEnd {
    pub report: SyncReport,
    pub outcome: SyncOutcome,
}

/// What a synchronisation is at.
#[derive(Debug)]
pub enum SyncPoint<'a> {
    /// The cache is brought up to date.
    Caching(CacheRun<'a>),
    /// The vendor directory is emptied. The index of the cache is kept for later.
    Clearing(CacheIndex, CleanVendor),
    /// The vendor directory is filled.
    Populating(PopulateVendor<'a>),
    /// The targets are built.
    Building(TargetsRun<'a>),
}

/// How a synchronisation ends.
#[derive(Debug)]
pub enum SyncOutcome {
    /// It came to its end.
    Synced,
    /// There is no directory for caches.
    NoCacheDir,
    /// The directory of a local source could not be listed.
    CannotList(PathBuf),
    /// A source could not be copied into the vendor directory. It was copied out
    /// of the cache, or from where it is.
    NotVendored { cached: bool, error: CopyError },
    /// The targets could not be built.
    NotBuilt(TargetsError),
}

pub struct SyncRunView {
    pub config: ConfigView,
    pub env: EnvironmentView,
    pub report: SyncReportView,
    pub at: SyncPointView,
}

pub struct SyncReportView {
    pub failures: Seq<CacheFailureView>,
    pub vendored: Seq<VendorReportView>,
}

pub struct SyncEndView {
    pub report: SyncReportView,
    pub outcome: SyncOutcomeView,
}

pub enum SyncPointView {
    Caching(CacheRunView),
    Clearing(Seq<CacheEntryView>, CleanVendor),
    Populating(PopulateVendorView),
    Building(TargetsRunView),
}

pub enum SyncOutcomeView {
    Synced,
    NoCacheDir,
    CannotList(Seq<u8>),
    NotVendored { cached: bool, error: CopyError },
    NotBuilt(TargetsErrorView),
}

impl<'a> View for SyncPoint<'a> {
    type V = SyncPointView;

    open spec fn view(&self) -> SyncPointView {
        match self {
            SyncPoint::Caching(run) => SyncPointView::Caching(run@),
            SyncPoint::Clearing(index, run) => SyncPointView::Clearing(index@, run@),
            SyncPoint::Populating(run) => SyncPointView::Populating(run@),
            SyncPoint::Building(run) => SyncPointView::Building(run@),
        }
    }
}

impl View for SyncReport {
    type V = SyncReportView;

    open spec fn view(&self) -> SyncReportView {
        SyncReportView {
            failures: failure_views(self.failures@),
            vendored: report_views(self.vendored@),
        }
    }
}

impl View for SyncEnd {
    type V = SyncEndView;

    open spec fn view(&self) -> SyncEndView {
        SyncEndView { report: self.report@, outcome: self.outcome@ }
    }
}

impl<'a> View for SyncRun<'a> {
    type V = SyncRunView;

    closed spec fn view(&self) -> SyncRunView {
        SyncRunView {
            config: self.config@,
            env: self.env@,
            report: self.report@,
            at: self.at@,
        }
    }
}

impl View for SyncOutcome {
    type V = SyncOutcomeView;

    open spec fn view(&self) -> SyncOutcomeView {
        match self {
            SyncOutcome::Synced => SyncOutcomeView::Synced,
            SyncOutcome::NoCacheDir => SyncOutcomeView::NoCacheDir,
            SyncOutcome::CannotList(dir) => SyncOutcomeView::CannotList(dir@),
            SyncOutcome::NotVendored { cached, error } => SyncOutcomeView::NotVendored {
                cached: *cached,
                error: *error,
            },
            SyncOutcome::NotBuilt(error) => SyncOutcomeView::NotBuilt(error@),
        }
    }
}

/// What there is to tell before the vendor directory is filled.
pub open spec fn report_of(failures: Seq<CacheFailureView>) -> SyncReportView {
    SyncReportView { failures, vendored: Seq::empty() }
}

/// Takes what came of building the targets.
pub open spec fn sync_building(
    config: ConfigView,
    env: EnvironmentView,
    report: SyncReportView,
    turn: TurnView<TargetsRunView, TargetsOutcomeView>,
) -> TurnView<SyncRunView, SyncEndView> {
    match turn {
        TurnView::Ask(run, request) => TurnView::Ask(
            SyncRunView { config, env, report, at: SyncPointView::Building(run) },
            request,
        ),
        TurnView::End(TargetsOutcomeView::Finished) => TurnView::End(
            SyncEndView { report, outcome: SyncOutcomeView::Synced },
        ),
        TurnView::End(TargetsOutcomeView::Failed(error)) => TurnView::End(
            SyncEndView { report, outcome: SyncOutcomeView::NotBuilt(error) },
        ),
    }
}

/// Takes what came of filling the vendor directory. The targets are built next.
pub open spec fn sync_populating(
    config: ConfigView,
    env: EnvironmentView,
    report: SyncReportView,
    turn: TurnView<PopulateVendorView, PopulateOutcomeView>,
) -> TurnView<SyncRunView, SyncEndView> {
    match turn {
        TurnView::Ask(run, request) => TurnView::Ask(
            SyncRunView { config, env, report, at: SyncPointView::Populating(run) },
            request,
        ),
        TurnView::End(PopulateOutcomeView::Populated(reports)) => sync_building(
            config,
            env,
            SyncReportView { vendored: reports, ..report },
            targets_start(config.targets, Job::Build),
        ),
        TurnView::End(PopulateOutcomeView::NotCopied { reports, cached, error }) => TurnView::End(
            SyncEndView {
                report: SyncReportView { vendored: reports, ..report },
                outcome: SyncOutcomeView::NotVendored { cached, error },
            },
        ),
    }
}

/// Takes what came of emptying the vendor directory. It is filled next, whether
/// or not it could be emptied.
pub open spec fn sync_clearing(
    config: ConfigView,
    env: EnvironmentView,
    report: SyncReportView,
    index: Seq<CacheEntryView>,
    turn: TurnView<CleanVendor, CleanVendorOutcome>,
) -> TurnView<SyncRunView, SyncEndView> {
    match turn {
        TurnView::Ask(run, request) => TurnView::Ask(
            SyncRunView { config, env, report, at: SyncPointView::Clearing(index, run) },
            request,
        ),
        TurnView::End(_) => sync_populating(
            config,
            env,
            report,
            populate_start(config.sources, env, index),
        ),
    }
}

/// Takes what came of bringing the cache up to date. The vendor directory is
/// emptied next.
pub open spec fn sync_caching(
    config: ConfigView,
    env: EnvironmentView,
    turn: TurnView<CacheRunView, CacheOutcomeView>,
) -> TurnView<SyncRunView, SyncEndView> {
    match turn {
        TurnView::Ask(run, request) => {
            let at = SyncPointView::Caching(run);
            TurnView::Ask(SyncRunView { config, env, report: report_of(Seq::empty()), at }, request)
        },
        TurnView::End(CacheOutcomeView::NoCacheDir) => TurnView::End(
            SyncEndView { report: report_of(Seq::empty()), outcome: SyncOutcomeView::NoCacheDir },
        ),
        TurnView::End(CacheOutcomeView::CannotList { dir, failures }) => TurnView::End(
            SyncEndView { report: report_of(failures), outcome: SyncOutcomeView::CannotList(dir) },
        ),
        TurnView::End(CacheOutcomeView::Cached { index, failures }) => sync_clearing(
            config,
            env,
            report_of(failures),
            index,
            clean_vendor_start(),
        ),
    }
}

/// A synchronisation starts with the cache, which is below the directory for
/// caches.
pub open spec fn sync_start(
    config: ConfigView,
    env: EnvironmentView,
    dir: Option<Seq<u8>>,
) -> TurnView<SyncRunView, SyncEndView> {
    sync_caching(config, env, cache_start(config.sources, env, dir))
}

/// What a synchronisation is at goes on with the reply.
pub open spec fn sync_step(run: SyncRunView, reply: ReplyView) -> TurnView<
    SyncRunView,
    SyncEndView,
> {
    let SyncRunView { config, env, report, at } = run;
    match at {
        SyncPointView::Caching(cache) => sync_caching(config, env, cache_step(cache, reply)),
        SyncPointView::Clearing(index, clean) => sync_clearing(
            config,
            env,
            report,
            index,
            clean_vendor_step(clean, reply),
        ),
        SyncPointView::Populating(populate) => sync_populating(
            config,
            env,
            report,
            populate_step(populate, reply),
        ),
        SyncPointView::Building(build) => sync_building(
            config,
            env,
            report,
            targets_step(build, reply),
        ),
    }
}

impl SyncReport {
    /// What there is to tell before the vendor directory is filled.
    fn of(failures: Vec<CacheFailure>) -> (report: SyncReport)
        ensures
            report@ == report_of(failure_views(failures@)),
    {
        let report = SyncReport { failures, vendored: Vec::new() };
        assert(report@.vendored =~= Seq::<VendorReportView>::empty());
        report
    }

    /// Nothing to tell.
    fn nothing() -> (report: SyncReport)
        ensures
            report@ == report_of(Seq::empty()),
    {
        let failures: Vec<CacheFailure> = Vec::new();
        assert(failure_views(failures@) =~= Seq::<CacheFailureView>::empty());
        SyncReport::of(failures)
    }
}

/// Takes what came of building the targets.
fn take_building<'a>(
    config: &'a Config,
    env: &'a Environment,
    report: SyncReport,
    turn: Turn<TargetsRun<'a>, TargetsOutcome>,
) -> (next: Turn<SyncRun<'a>, SyncEnd>)
    ensures
        next@ == sync_building(config@, env@, report@, turn@),
{
    match turn {
        Turn::Ask(run, request) => Turn::Ask(
            SyncRun { config, env, report, at: SyncPoint::Building(run) },
            request,
        ),
        Turn::End(TargetsOutcome::Finished) => Turn::End(
            SyncEnd { report, outcome: SyncOutcome::Synced },
        ),
        Turn::End(TargetsOutcome::Failed(error)) => Turn::End(
            SyncEnd { report, outcome: SyncOutcome::NotBuilt(error) },
        ),
    }
}

/// Takes what came of filling the vendor directory.
fn take_populating<'a>(
    config: &'a Config,
    env: &'a Environment,
    report: SyncReport,
    turn: Turn<PopulateVendor<'a>, PopulateOutcome>,
) -> (next: Turn<SyncRun<'a>, SyncEnd>)
    ensures
        next@ == sync_populating(config@, env@, report@, turn@),
{
    match turn {
        Turn::Ask(run, request) => Turn::Ask(
            SyncRun { config, env, report, at: SyncPoint::Populating(run) },
            request,
        ),
        Turn::End(PopulateOutcome::Populated(reports)) => {
            let report = SyncReport { failures: report.failures, vendored: reports };
            take_building(config, env, report, build_targets(config))
        },
        Turn::End(PopulateOutcome::NotCopied { reports, cached, error }) => {
            let report = SyncReport { failures: report.failures, vendored: reports };
            Turn::End(SyncEnd { report, outcome: SyncOutcome::NotVendored { cached, error } })
        },
    }
}

/// Takes what came of emptying the vendor directory.
fn take_clearing<'a>(
    config: &'a Config,
    env: &'a Environment,
    report: SyncReport,
    index: CacheIndex,
    turn: Turn<CleanVendor, CleanVendorOutcome>,
) -> (next: Turn<SyncRun<'a>, SyncEnd>)
    ensures
        next@ == sync_clearing(config@, env@, report@, index@, turn@),
{
    match turn {
        Turn::Ask(run, request) => Turn::Ask(
            SyncRun { config, env, report, at: SyncPoint::Clearing(index, run) },
            request,
        ),
        Turn::End(_) => take_populating(config, env, report, populate_vendor(config, env, index)),
    }
}

/// Takes what came of bringing the cache up to date.
fn take_caching<'a>(
    config: &'a Config,
    env: &'a Environment,
    turn: Turn<CacheRun<'a>, CacheOutcome>,
) -> (next: Turn<SyncRun<'a>, SyncEnd>)
    ensures
        next@ == sync_caching(config@, env@, turn@),
{
    match turn {
        Turn::Ask(run, request) => {
            let report = SyncReport::nothing();
            Turn::Ask(SyncRun { config, env, report, at: SyncPoint::Caching(run) }, request)
        },
        Turn::End(CacheOutcome::NoCacheDir) => Turn::End(
            SyncEnd { report: SyncReport::nothing(), outcome: SyncOutcome::NoCacheDir },
        ),
        Turn::End(CacheOutcome::CannotList { dir, failures }) => Turn::End(
            SyncEnd { report: SyncReport::of(failures), outcome: SyncOutcome::CannotList(dir) },
        ),
        Turn::End(CacheOutcome::Cached { index, failures }) => take_clearing(
            config,
            env,
            SyncReport::of(failures),
            index,
            clean_vendor(),
        ),
    }
}

/// Starts to bring everything in step with the sources, with the cache below the
/// directory for caches.
pub fn sync_in<'a>(config: &'a Config, env: &'a Environment, dir: Option<PathBuf>) -> (turn: Turn<
    SyncRun<'a>,
    SyncEnd,
>)
    ensures
        turn@ == sync_start(
            config@,
            env@,
            match dir {
                Some(dir) => Some(dir@),
                None => None,
            },
        ),
{
    take_caching(config, env, cache_in(config, env, dir))
}

/// Starts to bring everything in step with the sources, with the user's cache.
pub fn sync<'a>(config: &'a Config, env: &'a Environment) -> (turn: Turn<
    SyncRun<'a>,
    SyncEnd,
>)
    ensures
        exists|dir: Option<Seq<u8>>|
            turn@ == #[trigger] sync_start(config@, env@, dir),
{
    let first = cache(config, env);
    let ghost dir = choose|dir: Option<Seq<u8>>|
        first@ == #[trigger] cache_start(config@.sources, env@, dir);
    let turn = take_caching(config, env, first);
    assert(turn@ == sync_start(config@, env@, dir));
    turn
}

/// Starts to remove what builds of the targets added.
pub fn clean<'a>(config: &'a Config) -> (turn: Turn<TargetsRun<'a>, TargetsOutcome>)
    ensures
        turn@ == targets_start(config@.targets, Job::Clean),
{
    clean_targets(config)
}

/// A name is asked for only where the cache waits for one.
proof fn lemma_only_the_cache_asks_for_names(run: SyncRunView, reply: ReplyView)
    ensures
        sync_step(run, reply) matches TurnView::Ask(next, request) ==> (request is FreshName ==> (
        next.at matches SyncPointView::Caching(cache) && cache.at is Naming)),
{
    match run.at {
        SyncPointView::Caching(cache) => {
            lemma_names_are_waited_for(cache, reply);
        },
        SyncPointView::Clearing(index, _) => {
            let SyncRunView { config, env, report, at } = run;
            let reports = Seq::<VendorReportView>::empty();
            let state = VendorStateView { sources: config.sources, env, index, reports };
            lemma_copies_start_with_the_question(state, 0);
        },
        SyncPointView::Populating(populate) => match copy_step(populate.copy, reply) {
            TurnView::End(CopyOutcomeView::Copied(log)) => {
                let state = reported(populate.state, VendorReportView::Copied(log));
                lemma_copies_start_with_the_question(state, populate.at + 1);
            },
            _ => {},
        },
        SyncPointView::Building(_) => {},
    }
}

impl<'a> SyncRun<'a> {
    /// Goes on with the reply to what was asked for.
    pub fn advance(self, reply: Reply) -> (turn: Turn<SyncRun<'a>, SyncEnd>)
        ensures
            turn@ == sync_step(self@, reply@),
    {
        let SyncRun { config, env, report, at } = self;
        match at {
            SyncPoint::Caching(run) => take_caching(config, env, run.step(reply)),
            SyncPoint::Clearing(index, run) => {
                take_clearing(config, env, report, index, run.step(reply))
            },
            SyncPoint::Populating(run) => take_populating(config, env, report, run.step(reply)),
            SyncPoint::Building(run) => take_building(config, env, report, run.step(reply)),
        }
    }

    /// Goes on with the reply to what was asked for, and finds the names that
    /// clones in the cache are given: it never asks for one.
    pub fn step(self, reply: Reply) -> (turn: Turn<SyncRun<'a>, SyncEnd>)
        ensures
            match sync_step(self@, reply@) {
                TurnView::Ask(run, RequestView::FreshName) => exists|name: Seq<char>|
                    is_random_uuid_text(name) && turn@ == #[trigger] sync_step(
                        run,
                        ReplyView::Name(name),
                    ),
                next => turn@ == next,
            },
            turn@ matches TurnView::Ask(_, request) ==> !(request is FreshName),
    {
        proof {
            lemma_only_the_cache_asks_for_names(self@, reply@);
        }
        match self.advance(reply) {
            Turn::Ask(run, Request::FreshName) => run.advance(Reply::Name(fresh_clone_name())),
            turn => turn,
        }
    }
}

/// What a synchronisation ends with says what it tells of, in order, and how it ended.
pub proof fn law_ends_say_what_came_of_it(end: SyncEnd, i: int)
    ensures
        end@.report.failures.len() == end.report.failures@.len(),
        end@.report.vendored.len() == end.report.vendored@.len(),
        0 <= i < end.report.failures@.len() ==> {
            &&& end@.report.failures[i].source == end.report.failures@[i].source@
            &&& end@.report.failures[i].error == end.report.failures@[i].error
        },
        0 <= i < end.report.vendored@.len() ==> match end.report.vendored@[i] {
            VendorReport::Copied(log) => end@.report.vendored[i] == VendorReportView::Copied(log@),
            VendorReport::Missing(source) => end@.report.vendored[i] == VendorReportView::Missing(
                source@,
            ),
        },
        match end.outcome {
            SyncOutcome::Synced => end@.outcome is Synced,
            SyncOutcome::NoCacheDir => end@.outcome is NoCacheDir,
            SyncOutcome::CannotList(dir) => end@.outcome == SyncOutcomeView::CannotList(
                dir.bytes@,
            ),
            SyncOutcome::NotVendored { cached, error } => end@.outcome == (
            SyncOutcomeView::NotVendored { cached, error }),
            SyncOutcome::NotBuilt(error) => end@.outcome == SyncOutcomeView::NotBuilt(error@),
        },
{
    if 0 <= i < end.report.vendored@.len() {
        assert(end@.report.vendored[i] == end.report.vendored@[i]@);
    }
}

} // verus!
