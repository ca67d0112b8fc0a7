//! The vendor directory: emptying it, and filling it from the cache.
use crate::cache::local_dir;
use crate::command::text_bytes;
use crate::config::{source_views, Config, Source, SourceView};
use crate::copy::{
    begin_copy, copy_start, copy_step, ActionLog, ActionView, CopyDir, CopyDirView, CopyError,
    CopyOutcome, CopyOutcomeView,
};
use crate::home::{expand_path, Environment, EnvironmentView};
use crate::index::{lookup, CacheEntryView, CacheIndex};
use crate::path::{join, PathBuf};
use crate::protocol::{Reply, ReplyView, Request, RequestView, Turn, TurnView};
use vstd::prelude::*;

verus! {

/// The vendor directory.
pub open spec fn vendor_dir() -> Seq<u8> {
    join(text_bytes("."@), text_bytes("vendor"@))
}

/// Where the source of that name is vendored.
pub open spec fn vendored_at(name: Seq<char>) -> Seq<u8> {
    join(vendor_dir(), text_bytes(name))
}

/// The vendor directory.
fn vendor() -> (dir: PathBuf)
    ensures
        dir@ == vendor_dir(),
{
    PathBuf::from_text(".").join("vendor".as_bytes())
}

// ---------------------------------------------------------------------------
// Emptying it
// ---------------------------------------------------------------------------

/// The vendor directory being emptied: it is removed and made anew.
#[derive(Debug)]
pub enum CleanVendor {
    /// It is to be removed.
    Removing,
    /// It is to be made.
    Creating,
}

/// How emptying the vendor directory ends.
#[derive(Debug)]
pub enum CleanVendorOutcome {
    /// What was in there is gone.
    Emptied,
    /// It could not be removed.
    NotRemoved,
}

impl View for CleanVendor {
    type V = CleanVendor;

    open spec fn view(&self) -> CleanVendor {
        *self
    }
}

impl View for CleanVendorOutcome {
    type V = CleanVendorOutcome;

    open spec fn view(&self) -> CleanVendorOutcome {
        *self
    }
}

/// The directory is removed first.
pub open spec fn clean_vendor_start() -> TurnView<CleanVendor, CleanVendorOutcome> {
    TurnView::Ask(CleanVendor::Removing, RequestView::RemoveDirAll(vendor_dir()))
}

/// Where the directory could not be removed none is made. Whether one could be
/// made is no matter.
pub open spec fn clean_vendor_step(run: CleanVendor, reply: ReplyView) -> TurnView<
    CleanVendor,
    CleanVendorOutcome,
> {
    match run {
        CleanVendor::Removing => if reply is Done {
            TurnView::Ask(CleanVendor::Creating, RequestView::CreateDir(vendor_dir()))
        } else {
            TurnView::End(CleanVendorOutcome::NotRemoved)
        },
        CleanVendor::Creating => TurnView::End(CleanVendorOutcome::Emptied),
    }
}

/// Starts to empty the vendor directory.
pub fn clean_vendor() -> (turn: Turn<CleanVendor, CleanVendorOutcome>)
    ensures
        turn@ == clean_vendor_start(),
{
    Turn::Ask(CleanVendor::Removing, Request::RemoveDirAll(vendor()))
}

impl CleanVendor {
    /// Goes on with the reply to what was asked for.
    pub fn step(self, reply: Reply) -> (turn: Turn<CleanVendor, CleanVendorOutcome>)
        ensures
            turn@ == clean_vendor_step(self@, reply@),
    {
        match self {
            CleanVendor::Removing => match reply {
                Reply::Done => Turn::Ask(CleanVendor::Creating, Request::CreateDir(vendor())),
                _ => Turn::End(CleanVendorOutcome::NotRemoved),
            },
            CleanVendor::Creating => Turn::End(CleanVendorOutcome::Emptied),
        }
    }
}

// ---------------------------------------------------------------------------
// Filling it
// ---------------------------------------------------------------------------

/// The vendor directory, as far as it has been filled.
#[derive(Debug)]
pub struct VendorState<'a> {
    sources: &'a Vec<Source>,
    env: &'a Environment,
    index: CacheIndex,
    reports: Vec<VendorReport>,
}

/// The vendor directory being filled, as far as that has come.
#[derive(Debug)]
pub struct PopulateVendor<'a> {
    state: VendorState<'a>,
    at: usize,
    cached: bool,
    copy: CopyDir,
}

/// What became of a source.
#[derive(Debug)]
pub enum VendorReport {
    /// It was copied; this is what the copy did.
    Copied(ActionLog),
    /// It is remote and not in the cache, so there was nothing to copy.
    Missing(Source),
}

/// How filling the vendor directory ends. The reports are of the sources that
/// were dealt with, in the order of the configuration.
#[derive(Debug)]
pub enum PopulateOutcome {
    /// Every source that could be had is there.
    Populated(Vec<VendorReport>),
    /// A source could not be copied. It was copied out of the cache, or from
    /// where it is.
    NotCopied { reports: Vec<VendorReport>, cached: bool, error: CopyError },
}

pub struct VendorStateView {
    pub sources: Seq<SourceView>,
    pub env: EnvironmentView,
    pub index: Seq<CacheEntryView>,
    /// What became of the sources so far.
    pub reports: Seq<VendorReportView>,
}

pub struct PopulateVendorView {
    pub state: VendorStateView,
    /// The source that is being copied.
    pub at: int,
    /// Whether it is copied out of the cache.
    pub cached: bool,
    pub copy: CopyDirView,
}

pub enum VendorReportView {
    Copied(Seq<ActionView>),
    Missing(SourceView),
}

pub enum PopulateOutcomeView {
    Populated(Seq<VendorReportView>),
    NotCopied { reports: Seq<VendorReportView>, cached: bool, error: CopyError },
}

impl View for VendorReport {
    type V = VendorReportView;

    open spec fn view(&self) -> VendorReportView {
        match self {
            VendorReport::Copied(log) => VendorReportView::Copied(log@),
            VendorReport::Missing(source) => VendorReportView::Missing(source@),
        }
    }
}

/// The reports that a list of them stands for.
pub open spec fn report_views(reports: Seq<VendorReport>) -> Seq<VendorReportView> {
    reports.map_values(|r: VendorReport| r@)
}

impl<'a> View for VendorState<'a> {
    type V = VendorStateView;

    closed spec fn view(&self) -> VendorStateView {
        VendorStateView {
            sources: source_views(self.sources@),
            env: self.env@,
            index: self.index@,
            reports: report_views(self.reports@),
        }
    }
}

impl<'a> View for PopulateVendor<'a> {
    type V = PopulateVendorView;

    closed spec fn view(&self) -> PopulateVendorView {
        PopulateVendorView {
            state: self.state@,
            at: self.at as int,
            cached: self.cached,
            copy: self.copy@,
        }
    }
}

impl View for PopulateOutcome {
    type V = PopulateOutcomeView;

    open spec fn view(&self) -> PopulateOutcomeView {
        match self {
            PopulateOutcome::Populated(reports) => PopulateOutcomeView::Populated(
                report_views(reports@),
            ),
            PopulateOutcome::NotCopied { reports, cached, error } => PopulateOutcomeView::NotCopied {
                reports: report_views(reports@),
                cached: *cached,
                error: *error,
            },
        }
    }
}

/// How a source gets into the vendor directory: whether it comes out of the
/// cache, from which directory, and to which.
pub struct VendorCopyView {
    pub cached: bool,
    pub src: Seq<u8>,
    pub dst: Seq<u8>,
}

/// A source that is in the cache is copied out of it, a remote one from its path
/// in the clone. A local one that is not is copied from where it is. There is
/// nothing to copy of a remote one that is not.
pub open spec fn vendor_copy(
    source: SourceView,
    env: EnvironmentView,
    index: Seq<CacheEntryView>,
) -> Option<VendorCopyView> {
    match lookup(index, source) {
        Some(entry) => Some(
            VendorCopyView {
                cached: true,
                src: match entry.source {
                    SourceView::Local(_) => entry.path,
                    SourceView::Remote(remote) => join(entry.path, text_bytes(remote.path)),
                },
                dst: vendored_at(entry.source.name()),
            },
        ),
        None => match source {
            SourceView::Local(local) => Some(
                VendorCopyView {
                    cached: false,
                    src: local_dir(local.path, env),
                    dst: vendored_at(local.name),
                },
            ),
            SourceView::Remote(_) => None,
        },
    }
}

/// Notes what became of a source.
pub open spec fn reported(state: VendorStateView, report: VendorReportView) -> VendorStateView {
    VendorStateView { reports: state.reports.push(report), ..state }
}

/// Goes on with source `n`. One that cannot be had is noted and passed over.
pub open spec fn populate_from(state: VendorStateView, n: int) -> TurnView<
    PopulateVendorView,
    PopulateOutcomeView,
>
    decreases state.sources.len() - n,
{
    if n >= state.sources.len() {
        TurnView::End(PopulateOutcomeView::Populated(state.reports))
    } else {
        match vendor_copy(state.sources[n], state.env, state.index) {
            Some(way) => {
                let first = copy_start(way.src, way.dst);
                TurnView::Ask(
                    PopulateVendorView { state, at: n, cached: way.cached, copy: first->Ask_0 },
                    first->Ask_1,
                )
            },
            None => populate_from(
                reported(state, VendorReportView::Missing(state.sources[n])),
                n + 1,
            ),
        }
    }
}

/// The vendor directory is filled from the first source on.
pub open spec fn populate_start(
    sources: Seq<SourceView>,
    env: EnvironmentView,
    index: Seq<CacheEntryView>,
) -> TurnView<PopulateVendorView, PopulateOutcomeView> {
    populate_from(VendorStateView { sources, env, index, reports: Seq::empty() }, 0)
}

/// A source is copied by asking first whether there is a directory to copy.
pub proof fn lemma_copies_start_with_the_question(state: VendorStateView, n: int)
    ensures
        populate_from(state, n) matches TurnView::Ask(_, request) ==> request is IsDir,
    decreases state.sources.len() - n,
{
    if n < state.sources.len() && vendor_copy(state.sources[n], state.env, state.index) is None {
        let report = VendorReportView::Missing(state.sources[n]);
        lemma_copies_start_with_the_question(reported(state, report), n + 1);
    }
}

/// The sources are copied one after the other. The first that cannot be ends it.
pub open spec fn populate_step(run: PopulateVendorView, reply: ReplyView) -> TurnView<
    PopulateVendorView,
    PopulateOutcomeView,
> {
    match copy_step(run.copy, reply) {
        TurnView::Ask(copy, request) => TurnView::Ask(PopulateVendorView { copy, ..run }, request),
        TurnView::End(CopyOutcomeView::Copied(log)) => populate_from(
            reported(run.state, VendorReportView::Copied(log)),
            run.at + 1,
        ),
        TurnView::End(CopyOutcomeView::Failed(error)) => TurnView::End(
            PopulateOutcomeView::NotCopied {
                reports: run.state.reports,
                cached: run.cached,
                error,
            },
        ),
    }
}

/// How a source gets into the vendor directory.
struct VendorCopy {
    cached: bool,
    src: PathBuf,
    dst: PathBuf,
}

/// How the source gets into the vendor directory.
fn way_of(source: &Source, env: &Environment, index: &CacheIndex) -> (way: Option<VendorCopy>)
    ensures
        match way {
            Some(way) => vendor_copy(source@, env@, index@) == Some(
                VendorCopyView { cached: way.cached, src: way.src@, dst: way.dst@ },
            ),
            None => vendor_copy(source@, env@, index@) is None,
        },
{
    match index.lookup_cached_source(source) {
        Some(entry) => {
            let dst = vendor().join(entry.source.name().as_bytes());
            let src = match &entry.source {
                Source::Local(_) => entry.path.clone(),
                Source::Remote(remote) => entry.path.join(remote.path.as_str().as_bytes()),
            };
            Some(VendorCopy { cached: true, src, dst })
        },
        None => match source {
            Source::Local(local) => {
                let full = expand_path(local.path.as_str(), &env.home, &env.vars);
                let src = PathBuf::from_text(full.as_str());
                let dst = vendor().join(local.name.as_str().as_bytes());
                Some(VendorCopy { cached: false, src, dst })
            },
            Source::Remote(_) => None,
        },
    }
}

impl<'a> VendorState<'a> {
    /// Notes what became of a source.
    fn report(&mut self, report: VendorReport)
        ensures
            final(self)@ == reported(old(self)@, report@),
    {
        let ghost noted = report_views(self.reports@);
        let ghost shown = report@;
        self.reports.push(report);
        assert(report_views(self.reports@) =~= noted.push(shown));
    }

    /// Goes on with source `n`.
    fn copy_from(self, n: usize) -> (turn: Turn<PopulateVendor<'a>, PopulateOutcome>)
        ensures
            turn@ == populate_from(self@, n as int),
    {
        let sources = self.sources;
        let mut state = self;
        let mut i: usize = n;
        while i < sources.len()
            invariant
                state@.sources == source_views(sources@),
                populate_from(state@, i as int) == populate_from(self@, n as int),
            decreases sources.len() - i,
        {
            assert(state@.sources[i as int] == sources@[i as int]@);
            match way_of(&sources[i], state.env, &state.index) {
                Some(way) => {
                    let (copy, request) = begin_copy(way.src, way.dst);
                    assert(state@.sources.len() == sources@.len());
                    let run = PopulateVendor { state, at: i, cached: way.cached, copy };
                    return Turn::Ask(run, request);
                },
                None => {
                    state.report(VendorReport::Missing(sources[i].clone()));
                },
            }
            i = i + 1;
        }
        Turn::End(PopulateOutcome::Populated(state.reports))
    }
}

/// Starts to fill the vendor directory.
pub fn populate_vendor<'a>(
    config: &'a Config,
    env: &'a Environment,
    index: CacheIndex,
) -> (turn: Turn<PopulateVendor<'a>, PopulateOutcome>)
    ensures
        turn@ == populate_start(config@.sources, env@, index@),
{
    let state = VendorState { sources: &config.sources, env, index, reports: Vec::new() };
    assert(state@.reports =~= Seq::<VendorReportView>::empty());
    state.copy_from(0)
}

impl<'a> PopulateVendor<'a> {
    #[verifier::type_invariant]
    spec fn well_formed(self) -> bool {
        self.at < self.state@.sources.len()
    }

    /// Goes on with the reply to what was asked for.
    pub fn step(self, reply: Reply) -> (turn: Turn<PopulateVendor<'a>, PopulateOutcome>)
        ensures
            turn@ == populate_step(self@, reply@),
    {
        proof {
            use_type_invariant(&self);
        }
        let PopulateVendor { mut state, at, cached, copy } = self;
        assert(state.sources.len() == state.sources@.len());
        match copy.step(reply) {
            Turn::Ask(copy, request) => Turn::Ask(
                PopulateVendor { state, at, cached, copy },
                request,
            ),
            Turn::End(CopyOutcome::Copied(log)) => {
                state.report(VendorReport::Copied(log));
                state.copy_from(at + 1)
            },
            Turn::End(CopyOutcome::Failed(error)) => Turn::End(
                PopulateOutcome::NotCopied { reports: state.reports, cached, error },
            ),
        }
    }
}

} // verus!
