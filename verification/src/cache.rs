//! Bringing the cache up to date with the configuration.
use crate::checkout::{
    check_out, checkout_start, checkout_step, CheckoutError, CheckoutOutcome, CheckoutOutcomeView,
    RemoteCheckout, RemoteCheckoutView,
};
use crate::command::{list_command, list_dir, text_bytes};
use crate::config::{source_views, Config, RemoteSource, RemoteSourceView, Source, SourceView};
use crate::home::{expand_path, expanded, Environment, EnvironmentView};
use crate::index::{lookup, CacheEntryView, CacheIndex};
use crate::path::{join, PathBuf};
use crate::protocol::{Reply, ReplyView, Request, RequestView, Turn, TurnView};
use vstd::prelude::*;

verus! {

/// The cache, as far as it has been brought up to date.
#[derive(Debug)]
pub struct CacheState<'a> {
    sources: &'a Vec<Source>,
    env: &'a Environment,
    root: PathBuf,
    index: CacheIndex,
    failures: Vec<CacheFailure>,
}

/// The cache being brought up to date, as far as that has come.
#[derive(Debug)]
pub struct CacheRun<'a> {
    state: CacheState<'a>,
    at: CachePoint,
}

/// A source that could not be had, and why.
#[derive(Debug)]
pub struct CacheFailure {
    pub source: RemoteSource,
    pub error: CheckoutError,
}

/// What the cache waits for. A number says which source of the configuration it
/// is about.
#[derive(Debug)]
pub enum CachePoint {
    /// The cache directory to be made.
    Preparing,
    /// The index to be read.
    Loading,
    /// A name for the clone of a source.
    Naming(usize, RemoteSource),
    /// A source to be checked out.
    CheckingOut(usize, RemoteCheckout),
    /// A directory to be listed.
    Listing(usize, PathBuf),
    /// The index to be written.
    Storing,
}

/// How bringing the cache up to date ends.
#[derive(Debug)]
pub enum CacheOutcome {
    /// There is no directory for caches.
    NoCacheDir,
    /// The cache is up to date, but for the sources that could not be had.
    Cached { index: CacheIndex, failures: Vec<CacheFailure> },
    /// The directory of a local source could not be listed. The failures are
    /// those of the sources before it.
    CannotList { dir: PathBuf, failures: Vec<CacheFailure> },
}

pub struct CacheStateView {
    pub sources: Seq<SourceView>,
    pub env: EnvironmentView,
    pub root: Seq<u8>,
    pub index: Seq<CacheEntryView>,
    /// The sources that could not be had so far, and why.
    pub failures: Seq<CacheFailureView>,
}

pub struct CacheRunView {
    pub state: CacheStateView,
    pub at: CachePointView,
}

pub struct CacheFailureView {
    pub source: RemoteSourceView,
    pub error: CheckoutError,
}

pub enum CachePointView {
    Preparing,
    Loading,
    Naming(int, RemoteSourceView),
    CheckingOut(int, RemoteCheckoutView),
    Listing(int, Seq<u8>),
    Storing,
}

pub enum CacheOutcomeView {
    NoCacheDir,
    Cached { index: Seq<CacheEntryView>, failures: Seq<CacheFailureView> },
    CannotList { dir: Seq<u8>, failures: Seq<CacheFailureView> },
}

impl View for CacheFailure {
    type V = CacheFailureView;

    open spec fn view(&self) -> CacheFailureView {
        CacheFailureView { source: self.source@, error: self.error }
    }
}

/// The failures that a list of them stands for.
pub open spec fn failure_views(failures: Seq<CacheFailure>) -> Seq<CacheFailureView> {
    failures.map_values(|f: CacheFailure| f@)
}

impl View for CachePoint {
    type V = CachePointView;

    open spec fn view(&self) -> CachePointView {
        match self {
            CachePoint::Preparing => CachePointView::Preparing,
            CachePoint::Loading => CachePointView::Loading,
            CachePoint::Naming(n, source) => CachePointView::Naming(*n as int, source@),
            CachePoint::CheckingOut(n, run) => CachePointView::CheckingOut(*n as int, run@),
            CachePoint::Listing(n, dir) => CachePointView::Listing(*n as int, dir@),
            CachePoint::Storing => CachePointView::Storing,
        }
    }
}

impl<'a> View for CacheState<'a> {
    type V = CacheStateView;

    closed spec fn view(&self) -> CacheStateView {
        CacheStateView {
            sources: source_views(self.sources@),
            env: self.env@,
            root: self.root@,
            index: self.index@,
            failures: failure_views(self.failures@),
        }
    }
}

impl<'a> View for CacheRun<'a> {
    type V = CacheRunView;

    closed spec fn view(&self) -> CacheRunView {
        CacheRunView { state: self.state@, at: self.at@ }
    }
}

impl View for CacheOutcome {
    type V = CacheOutcomeView;

    open spec fn view(&self) -> CacheOutcomeView {
        match self {
            CacheOutcome::NoCacheDir => CacheOutcomeView::NoCacheDir,
            CacheOutcome::Cached { index, failures } => CacheOutcomeView::Cached {
                index: index@,
                failures: failure_views(failures@),
            },
            CacheOutcome::CannotList { dir, failures } => CacheOutcomeView::CannotList {
                dir: dir@,
                failures: failure_views(failures@),
            },
        }
    }
}

/// Where the cache is, below the directory for caches.
pub open spec fn cache_root(dir: Seq<u8>) -> Seq<u8> {
    join(dir, text_bytes("protov"@))
}

/// Where the index of the cache is.
pub open spec fn index_path(root: Seq<u8>) -> Seq<u8> {
    join(root, text_bytes("cache.json"@))
}

/// Where a local source is.
pub open spec fn local_dir(path: Seq<char>, env: EnvironmentView) -> Seq<u8> {
    text_bytes(expanded(path, env.home, env.vars))
}

/// Goes on with source `n`: those that are in the cache are passed over, a
/// remote one is checked out under a fresh name, and the directory of a local
/// one is listed. After the last, the index is written.
pub open spec fn cache_from(state: CacheStateView, n: int) -> TurnView<
    CacheRunView,
    CacheOutcomeView,
>
    decreases state.sources.len() - n,
{
    if n >= state.sources.len() {
        TurnView::Ask(
            CacheRunView { state, at: CachePointView::Storing },
            RequestView::WriteCacheIndex { path: index_path(state.root), index: state.index },
        )
    } else if lookup(state.index, state.sources[n]) is Some {
        cache_from(state, n + 1)
    } else {
        match state.sources[n] {
            SourceView::Remote(source) => TurnView::Ask(
                CacheRunView { state, at: CachePointView::Naming(n, source) },
                RequestView::FreshName,
            ),
            SourceView::Local(source) => {
                let dir = local_dir(source.path, state.env);
                TurnView::Ask(
                    CacheRunView { state, at: CachePointView::Listing(n, dir) },
                    RequestView::Run(list_command(dir)),
                )
            },
        }
    }
}

/// The cache before anything is known of it.
pub open spec fn cache_unread(
    sources: Seq<SourceView>,
    env: EnvironmentView,
    dir: Seq<u8>,
) -> CacheStateView {
    CacheStateView {
        sources,
        env,
        root: cache_root(dir),
        index: Seq::empty(),
        failures: Seq::empty(),
    }
}

/// The cache directory is made first.
pub open spec fn cache_start(
    sources: Seq<SourceView>,
    env: EnvironmentView,
    dir: Option<Seq<u8>>,
) -> TurnView<CacheRunView, CacheOutcomeView> {
    match dir {
        Some(dir) => TurnView::Ask(
            CacheRunView { state: cache_unread(sources, env, dir), at: CachePointView::Preparing },
            RequestView::CreateDirAll(cache_root(dir)),
        ),
        None => TurnView::End(CacheOutcomeView::NoCacheDir),
    }
}

/// Goes on after source `n`, which could not be had.
pub open spec fn cache_failed(
    state: CacheStateView,
    n: int,
    source: RemoteSourceView,
    error: CheckoutError,
) -> TurnView<CacheRunView, CacheOutcomeView> {
    cache_from(
        CacheStateView {
            failures: state.failures.push(CacheFailureView { source, error }),
            ..state
        },
        n + 1,
    )
}

/// Takes what came of a checkout of source `n`: a source that could be had is
/// entered into the index, one that could not is noted.
pub open spec fn cache_checkout(
    state: CacheStateView,
    n: int,
    source: RemoteSourceView,
    turn: TurnView<RemoteCheckoutView, CheckoutOutcomeView>,
) -> TurnView<CacheRunView, CacheOutcomeView> {
    match turn {
        TurnView::Ask(checkout, request) => TurnView::Ask(
            CacheRunView { state, at: CachePointView::CheckingOut(n, checkout) },
            request,
        ),
        TurnView::End(CheckoutOutcomeView::Cached(entry)) => cache_from(
            CacheStateView { index: state.index.push(entry), ..state },
            n + 1,
        ),
        TurnView::End(CheckoutOutcomeView::Failed(error)) => cache_failed(state, n, source, error),
    }
}

/// An index that cannot be read is taken as empty, and it is no matter whether
/// the cache directory could be made or the index be written.
pub open spec fn cache_step(run: CacheRunView, reply: ReplyView) -> TurnView<
    CacheRunView,
    CacheOutcomeView,
> {
    let state = run.state;
    match run.at {
        CachePointView::Preparing => TurnView::Ask(
            CacheRunView { state, at: CachePointView::Loading },
            RequestView::ReadCacheIndex(index_path(state.root)),
        ),
        CachePointView::Loading => match reply {
            ReplyView::CacheIndex(index) => cache_from(CacheStateView { index, ..state }, 0),
            _ => cache_from(CacheStateView { index: Seq::empty(), ..state }, 0),
        },
        CachePointView::Naming(n, source) => match reply {
            ReplyView::Name(name) => cache_checkout(
                state,
                n,
                source,
                checkout_start(source, state.root, name),
            ),
            _ => cache_failed(state, n, source, CheckoutError::Unnamed),
        },
        CachePointView::CheckingOut(n, checkout) => cache_checkout(
            state,
            n,
            checkout.source,
            checkout_step(checkout, reply),
        ),
        CachePointView::Listing(n, dir) => if reply is Exited {
            cache_from(state, n + 1)
        } else {
            TurnView::End(CacheOutcomeView::CannotList { dir, failures: state.failures })
        },
        CachePointView::Storing => TurnView::End(
            CacheOutcomeView::Cached { index: state.index, failures: state.failures },
        ),
    }
}

proof fn lemma_from_waits_for_names(state: CacheStateView, n: int)
    ensures
        cache_from(state, n) matches TurnView::Ask(run, request) ==> (request is FreshName
            ==> run.at is Naming),
    decreases state.sources.len() - n,
{
    if n < state.sources.len() && lookup(state.index, state.sources[n]) is Some {
        lemma_from_waits_for_names(state, n + 1);
    }
}

/// A name is asked for only where one is waited for.
pub proof fn lemma_names_are_waited_for(run: CacheRunView, reply: ReplyView)
    ensures
        cache_step(run, reply) matches TurnView::Ask(next, request) ==> (request is FreshName
            ==> next.at is Naming),
{
    assert forall|state: CacheStateView, n: int|
        (#[trigger] cache_from(state, n) matches TurnView::Ask(next, request) ==> (
        request is FreshName ==> next.at is Naming)) by {
        lemma_from_waits_for_names(state, n);
    }
}

impl<'a> CacheState<'a> {
    /// How many sources there are.
    closed spec fn len(self) -> nat {
        self.sources@.len()
    }

    /// Goes on with source `n`.
    fn go_on_from(self, n: usize) -> (turn: Turn<CacheRun<'a>, CacheOutcome>)
        ensures
            turn@ == cache_from(self@, n as int),
    {
        let mut i: usize = n;
        while i < self.sources.len()
            invariant
                cache_from(self@, i as int) == cache_from(self@, n as int),
            decreases self.sources.len() - i,
        {
            assert(self@.sources[i as int] == self.sources@[i as int]@);
            match self.index.lookup_cached_source(&self.sources[i]) {
                Some(_) => {},
                None => match &self.sources[i] {
                    Source::Remote(source) => {
                        let at = CachePoint::Naming(i, source.clone());
                        return Turn::Ask(CacheRun { state: self, at }, Request::FreshName);
                    },
                    Source::Local(source) => {
                        let path = expand_path(
                            source.path.as_str(),
                            &self.env.home,
                            &self.env.vars,
                        );
                        let dir = PathBuf::from_text(path.as_str());
                        let request = Request::Run(list_dir(dir.clone()));
                        let at = CachePoint::Listing(i, dir);
                        return Turn::Ask(CacheRun { state: self, at }, request);
                    },
                },
            }
            i = i + 1;
        }
        let path = self.root.join("cache.json".as_bytes());
        let request = Request::WriteCacheIndex { path, index: self.index.clone() };
        Turn::Ask(CacheRun { state: self, at: CachePoint::Storing }, request)
    }

    /// Goes on after source `n`, which could not be had.
    fn note_failure(self, n: usize, source: RemoteSource, error: CheckoutError) -> (next: Turn<
        CacheRun<'a>,
        CacheOutcome,
    >)
        requires
            n < self.len(),
        ensures
            next@ == cache_failed(self@, n as int, source@, error),
    {
        let CacheState { sources, env, root, index, mut failures } = self;
        assert(sources.len() == sources@.len());
        let ghost noted = failure_views(failures@);
        let failure = CacheFailure { source, error };
        let ghost shown = failure@;
        failures.push(failure);
        assert(failure_views(failures@) =~= noted.push(shown));
        CacheState { sources, env, root, index, failures }.go_on_from(n + 1)
    }

    /// Takes what came of a checkout of source `n`.
    fn take_checkout(
        self,
        n: usize,
        source: RemoteSource,
        turn: Turn<RemoteCheckout, CheckoutOutcome>,
    ) -> (next: Turn<CacheRun<'a>, CacheOutcome>)
        requires
            n < self.len(),
        ensures
            next@ == cache_checkout(self@, n as int, source@, turn@),
    {
        match turn {
            Turn::Ask(checkout, request) => Turn::Ask(
                CacheRun { state: self, at: CachePoint::CheckingOut(n, checkout) },
                request,
            ),
            Turn::End(CheckoutOutcome::Cached(entry)) => {
                let CacheState { sources, env, root, mut index, failures } = self;
                assert(sources.len() == sources@.len());
                let ghost before = index@;
                let ghost shown = entry@;
                index.entries.push(entry);
                assert(index@ =~= before.push(shown));
                CacheState { sources, env, root, index, failures }.go_on_from(n + 1)
            },
            Turn::End(CheckoutOutcome::Failed(error)) => self.note_failure(n, source, error),
        }
    }
}

/// Starts to bring the cache up to date that is below the directory for caches.
pub fn cache_in<'a>(config: &'a Config, env: &'a Environment, dir: Option<PathBuf>) -> (turn: Turn<
    CacheRun<'a>,
    CacheOutcome,
>)
    ensures
        turn@ == cache_start(
            config@.sources,
            env@,
            match dir {
                Some(dir) => Some(dir@),
                None => None,
            },
        ),
{
    match dir {
        Some(dir) => {
            let root = dir.join("protov".as_bytes());
            let request = Request::CreateDirAll(root.clone());
            let state = CacheState {
                sources: &config.sources,
                env,
                root,
                index: CacheIndex::default(),
                failures: Vec::new(),
            };
            assert(state@.failures =~= Seq::<CacheFailureView>::empty());
            Turn::Ask(CacheRun { state, at: CachePoint::Preparing }, request)
        },
        None => Turn::End(CacheOutcome::NoCacheDir),
    }
}

/// The bytes of [`dirs::cache_dir`], which goes by the environment and the
/// system: nothing is said of which directory it is, nor of whether there is
/// one.
#[verifier::external_body]
fn user_cache_dir() -> (dir: Option<Vec<u8>>) {
    match dirs::cache_dir() {
        Some(dir) => Some(dir.into_os_string().into_encoded_bytes()),
        None => None,
    }
}

/// Starts to bring the user's cache up to date.
pub fn cache<'a>(config: &'a Config, env: &'a Environment) -> (turn: Turn<
    CacheRun<'a>,
    CacheOutcome,
>)
    ensures
        exists|dir: Option<Seq<u8>>|
            turn@ == #[trigger] cache_start(config@.sources, env@, dir),
{
    match user_cache_dir() {
        Some(bytes) => cache_in(config, env, Some(PathBuf { bytes })),
        None => cache_in(config, env, None),
    }
}

impl<'a> CacheRun<'a> {
    #[verifier::type_invariant]
    spec fn well_formed(self) -> bool {
        match self.at {
            CachePoint::Naming(n, _) => n < self.state.len(),
            CachePoint::CheckingOut(n, _) => n < self.state.len(),
            CachePoint::Listing(n, _) => n < self.state.len(),
            _ => true,
        }
    }

    /// Goes on with the reply to what was asked for.
    pub fn step(self, reply: Reply) -> (turn: Turn<CacheRun<'a>, CacheOutcome>)
        ensures
            turn@ == cache_step(self@, reply@),
    {
        proof {
            use_type_invariant(&self);
        }
        let CacheRun { state, at } = self;
        assert(state.sources.len() == state.sources@.len());
        match at {
            CachePoint::Preparing => {
                let request = Request::ReadCacheIndex(state.root.join("cache.json".as_bytes()));
                Turn::Ask(CacheRun { state, at: CachePoint::Loading }, request)
            },
            CachePoint::Loading => {
                let index = match reply {
                    Reply::CacheIndex(index) => index,
                    _ => CacheIndex::default(),
                };
                CacheState { index, ..state }.go_on_from(0)
            },
            CachePoint::Naming(n, source) => match reply {
                Reply::Name(name) => {
                    let turn = check_out(&source, &state.root, name);
                    state.take_checkout(n, source, turn)
                },
                _ => state.note_failure(n, source, CheckoutError::Unnamed),
            },
            CachePoint::CheckingOut(n, checkout) => {
                let source = checkout.source();
                state.take_checkout(n, source, checkout.step(reply))
            },
            CachePoint::Listing(n, dir) => match reply {
                Reply::Exited { success } => state.go_on_from(n + 1),
                _ => Turn::End(CacheOutcome::CannotList { dir, failures: state.failures }),
            },
            CachePoint::Storing => Turn::End(
                CacheOutcome::Cached { index: state.index, failures: state.failures },
            ),
        }
    }
}

} // verus!
