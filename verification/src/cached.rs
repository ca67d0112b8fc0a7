//! What a whole update of the cache does.
use crate::cache::{
    cache_failed, cache_from, cache_root, cache_start, cache_step, cache_unread, CacheFailureView,
    CacheOutcomeView, CachePointView, CacheRunView, CacheStateView,
};
use crate::checkout::{checkout_entry, checkout_step, CheckoutError, CheckoutOutcomeView};
use crate::config::{RemoteSourceView, SourceView};
use crate::home::EnvironmentView;
use crate::index::{
    law_push_keeps_one_entry_each, law_push_then_lookup, lookup, one_entry_each, CacheEntryView,
};
use crate::protocol::{
    after, all_fit, lemma_after_splits, lemma_always, lemma_everything_fits, ReplyView, RequestView,
    TurnView,
};
use vstd::prelude::*;

verus! {

/// The step of an update of the cache, to follow a whole one with.
pub open spec fn cache_stepper() -> spec_fn(CacheRunView, ReplyView) -> TurnView<
    CacheRunView,
    CacheOutcomeView,
> {
    |run: CacheRunView, reply: ReplyView| cache_step(run, reply)
}

/// The index that an update starts from: what it was told is on disk, or nothing.
pub open spec fn loaded(reply: ReplyView) -> Seq<CacheEntryView> {
    match reply {
        ReplyView::CacheIndex(index) => index,
        _ => Seq::empty(),
    }
}

/// Whether an entry is of a remote source of the configuration that was cloned
/// into the cache.
pub open spec fn is_new_clone(
    sources: Seq<SourceView>,
    root: Seq<u8>,
    entry: CacheEntryView,
) -> bool {
    &&& sources.contains(entry.source)
    &&& entry.source matches SourceView::Remote(source) && exists|name: Seq<char>|
        entry == #[trigger] checkout_entry(source, root, name)
}

/// Whether the entries are of sources among the first `n`, in the order of the
/// configuration.
pub open spec fn in_source_order(
    sources: Seq<SourceView>,
    entries: Seq<CacheEntryView>,
    n: int,
) -> bool
    decreases n,
{
    ||| entries.len() == 0
    ||| n > 0 && in_source_order(sources, entries, n - 1)
    ||| n > 0 && entries.last().source == sources[n - 1] && in_source_order(
        sources,
        entries.drop_last(),
        n - 1,
    )
}

/// Whether `index` is `base` with entries added, in the order of the
/// configuration, for remote sources among its first `n` that were cloned into
/// the cache and had no entry until then.
pub open spec fn extends_up_to(
    sources: Seq<SourceView>,
    root: Seq<u8>,
    base: Seq<CacheEntryView>,
    index: Seq<CacheEntryView>,
    n: int,
) -> bool {
    &&& base.len() <= index.len()
    &&& index.take(base.len() as int) == base
    &&& in_source_order(sources, index.skip(base.len() as int), n)
    &&& forall|i: int|
        base.len() <= i < index.len() ==> is_new_clone(sources, root, #[trigger] index[i])
            && lookup(index.take(i), index[i].source) is None
    &&& one_entry_each(base) ==> one_entry_each(index)
}

/// Whether `index` is `base` with entries added, in the order of the
/// configuration, for remote sources of it that were cloned into the cache and
/// had no entry until then.
pub open spec fn extends_index(
    sources: Seq<SourceView>,
    root: Seq<u8>,
    base: Seq<CacheEntryView>,
    index: Seq<CacheEntryView>,
) -> bool {
    extends_up_to(sources, root, base, index, sources.len() as int)
}

proof fn lemma_order_goes_on(
    sources: Seq<SourceView>,
    entries: Seq<CacheEntryView>,
    m: int,
    n: int,
)
    requires
        in_source_order(sources, entries, m),
        0 <= m <= n,
    ensures
        in_source_order(sources, entries, n),
    decreases n - m,
{
    if m < n {
        lemma_order_goes_on(sources, entries, m, n - 1);
    }
}

/// Which source an update is about to deal with, and what it knows of it.
spec fn cache_point_holds(run: CacheRunView) -> bool {
    let CacheStateView { sources, env, root, index, failures } = run.state;
    match run.at {
        CachePointView::Naming(n, source) => {
            &&& 0 <= n < sources.len()
            &&& sources[n] == SourceView::Remote(source)
            &&& lookup(index, sources[n]) is None
        },
        CachePointView::CheckingOut(n, checkout) => {
            &&& 0 <= n < sources.len()
            &&& sources[n] == SourceView::Remote(checkout.source)
            &&& checkout.cache == root
            &&& lookup(index, sources[n]) is None
        },
        CachePointView::Listing(n, _) => {
            &&& 0 <= n < sources.len()
            &&& sources[n] is Local
        },
        _ => true,
    }
}

/// How many sources an update is past when it stands there.
spec fn sources_past(run: CacheRunView) -> int {
    match run.at {
        CachePointView::Preparing => 0,
        CachePointView::Loading => 0,
        CachePointView::Naming(n, _) => n,
        CachePointView::CheckingOut(n, _) => n,
        CachePointView::Listing(n, _) => n,
        CachePointView::Storing => run.state.sources.len() as int,
    }
}

/// What holds of an update wherever it stands once the index was read.
spec fn cache_grows(
    sources: Seq<SourceView>,
    root: Seq<u8>,
    base: Seq<CacheEntryView>,
    turn: TurnView<CacheRunView, CacheOutcomeView>,
) -> bool {
    match turn {
        TurnView::Ask(run, _) => {
            &&& run.state.sources == sources
            &&& run.state.root == root
            &&& !(run.at is Preparing) && !(run.at is Loading)
            &&& cache_point_holds(run)
            &&& extends_up_to(sources, root, base, run.state.index, sources_past(run))
        },
        TurnView::End(CacheOutcomeView::Cached { index, failures }) => extends_index(
            sources,
            root,
            base,
            index,
        ),
        TurnView::End(_) => true,
    }
}

proof fn lemma_from_grows(base: Seq<CacheEntryView>, state: CacheStateView, n: int)
    requires
        0 <= n <= state.sources.len(),
        extends_up_to(state.sources, state.root, base, state.index, n),
    ensures
        cache_grows(state.sources, state.root, base, cache_from(state, n)),
    decreases state.sources.len() - n,
{
    if n < state.sources.len() && lookup(state.index, state.sources[n]) is Some {
        lemma_from_grows(base, state, n + 1);
    }
}

proof fn lemma_entry_extends(
    sources: Seq<SourceView>,
    root: Seq<u8>,
    base: Seq<CacheEntryView>,
    index: Seq<CacheEntryView>,
    n: int,
    entry: CacheEntryView,
)
    requires
        extends_up_to(sources, root, base, index, n),
        0 <= n < sources.len(),
        entry.source == sources[n],
        lookup(index, sources[n]) is None,
        is_new_clone(sources, root, entry),
    ensures
        extends_up_to(sources, root, base, index.push(entry), n + 1),
{
    let longer = index.push(entry);
    let old = base.len() as int;
    assert(longer.take(old) =~= index.take(old));
    assert(longer.skip(old) =~= index.skip(old).push(entry));
    assert(longer.skip(old).drop_last() =~= index.skip(old));
    assert forall|i: int| old <= i < longer.len() implies is_new_clone(
        sources,
        root,
        #[trigger] longer[i],
    ) && lookup(longer.take(i), longer[i].source) is None by {
        assert(longer.take(i) =~= index.take(i));
        if i < index.len() {
            assert(longer[i] == index[i]);
        } else {
            assert(index.take(i) =~= index);
        }
    }
    if one_entry_each(base) {
        law_push_keeps_one_entry_each(index, entry);
    }
}

proof fn lemma_step_grows(
    base: Seq<CacheEntryView>,
    run: CacheRunView,
    request: RequestView,
    reply: ReplyView,
)
    requires
        cache_grows(run.state.sources, run.state.root, base, TurnView::Ask(run, request)),
    ensures
        cache_grows(run.state.sources, run.state.root, base, cache_step(run, reply)),
{
    let state = run.state;
    match run.at {
        CachePointView::Naming(n, source) => {
            lemma_failure_grows(base, state, n, source, CheckoutError::Unnamed);
        },
        CachePointView::CheckingOut(n, checkout) => {
            match checkout_step(checkout, reply) {
                TurnView::Ask(_, _) => {},
                TurnView::End(CheckoutOutcomeView::Cached(entry)) => {
                    assert(entry == checkout_entry(checkout.source, state.root, checkout.name));
                    assert(state.sources.contains(state.sources[n]));
                    assert(is_new_clone(state.sources, state.root, entry));
                    let index = state.index.push(entry);
                    lemma_entry_extends(state.sources, state.root, base, state.index, n, entry);
                    lemma_from_grows(base, CacheStateView { index, ..state }, n + 1);
                },
                TurnView::End(CheckoutOutcomeView::Failed(error)) => {
                    lemma_failure_grows(base, state, n, checkout.source, error);
                },
            }
        },
        CachePointView::Listing(n, _) => {
            lemma_from_grows(base, state, n + 1);
        },
        _ => {},
    }
}

proof fn lemma_failure_grows(
    base: Seq<CacheEntryView>,
    state: CacheStateView,
    n: int,
    source: RemoteSourceView,
    error: CheckoutError,
)
    requires
        0 <= n < state.sources.len(),
        extends_up_to(state.sources, state.root, base, state.index, n),
    ensures
        cache_grows(
            state.sources,
            state.root,
            base,
            cache_failed(state, n, source, error),
        ),
{
    let failures = state.failures.push(CacheFailureView { source, error });
    lemma_from_grows(base, CacheStateView { failures, ..state }, n + 1);
}

/// The state of an update right after the index was read.
pub open spec fn cache_read(
    sources: Seq<SourceView>,
    env: EnvironmentView,
    dir: Seq<u8>,
    read: ReplyView,
) -> CacheStateView {
    CacheStateView { index: loaded(read), ..cache_unread(sources, env, dir) }
}

/// Where an update stands right after the index was read.
proof fn lemma_after_loading(
    sources: Seq<SourceView>,
    env: EnvironmentView,
    dir: Seq<u8>,
    prepared: ReplyView,
    read: ReplyView,
)
    ensures
        after(cache_start(sources, env, Some(dir)), cache_stepper(), seq![prepared, read])
            == cache_from(cache_read(sources, env, dir, read), 0),
{
    let two = seq![prepared, read];
    assert(two.drop_last() =~= seq![prepared]);
    assert(seq![prepared].drop_last() =~= Seq::<ReplyView>::empty());
    reveal_with_fuel(after, 3);
}

/// Whatever comes of it, an update loses no entry of the index that it started
/// from and moves none. What it adds, in the order of the configuration, are
/// remote sources of it that were cloned into the cache and had no entry until
/// then; and where there was one entry of each source there still is.
pub proof fn law_update_keeps_entries(
    sources: Seq<SourceView>,
    env: EnvironmentView,
    dir: Seq<u8>,
    prepared: ReplyView,
    read: ReplyView,
    replies: Seq<ReplyView>,
)
    ensures
        match after(
            cache_start(sources, env, Some(dir)),
            cache_stepper(),
            seq![prepared, read] + replies,
        ) {
            TurnView::Ask(run, _) => extends_index(
                sources,
                cache_root(dir),
                loaded(read),
                run.state.index,
            ),
            TurnView::End(CacheOutcomeView::Cached { index, failures }) => extends_index(
                sources,
                cache_root(dir),
                loaded(read),
                index,
            ),
            TurnView::End(_) => true,
        },
{
    let root = cache_root(dir);
    let base = loaded(read);
    let state = cache_read(sources, env, dir, read);
    let start = cache_from(state, 0);
    let step = cache_stepper();
    let fits = |run: CacheRunView, reply: ReplyView| true;
    let holds = |turn: TurnView<CacheRunView, CacheOutcomeView>| cache_grows(
        sources,
        root,
        base,
        turn,
    );
    let begin = cache_start(sources, env, Some(dir));
    lemma_after_splits(begin, step, seq![prepared, read], replies);
    lemma_after_loading(sources, env, dir, prepared, read);
    assert(base.take(base.len() as int) =~= base);
    assert(base.skip(base.len() as int).len() == 0);
    lemma_from_grows(base, state, 0);
    assert forall|run: CacheRunView, request: RequestView, reply: ReplyView|
        #![trigger holds(TurnView::Ask(run, request)), step(run, reply)]
        holds(TurnView::Ask(run, request)) && fits(run, reply) implies holds(step(run, reply)) by {
        lemma_step_grows(base, run, request, reply);
    }
    lemma_everything_fits(start, step, fits, replies);
    lemma_always(start, step, fits, holds, replies);
    match after(start, step, replies) {
        TurnView::Ask(run, _) => {
            let added = run.state.index.skip(base.len() as int);
            lemma_order_goes_on(sources, added, sources_past(run), sources.len() as int);
        },
        TurnView::End(_) => {},
    }
}

// ---------------------------------------------------------------------------
// What is in the cache at the end
// ---------------------------------------------------------------------------

/// Whether a reply is what is hoped for: a name is found, and git is successful.
pub open spec fn goes_well(run: CacheRunView, reply: ReplyView) -> bool {
    match run.at {
        CachePointView::Naming(_, _) => reply is Name,
        CachePointView::CheckingOut(_, _) => reply == (ReplyView::Exited { success: true }),
        _ => true,
    }
}

/// [`goes_well`], to hold the replies of a whole update to.
pub open spec fn all_goes_well() -> spec_fn(CacheRunView, ReplyView) -> bool {
    |run: CacheRunView, reply: ReplyView| goes_well(run, reply)
}

/// Whether the index has every remote source among the first `n`.
pub open spec fn has_remotes(sources: Seq<SourceView>, index: Seq<CacheEntryView>, n: int) -> bool {
    forall|i: int|
        0 <= i < n && i < sources.len() && sources[i] is Remote ==> lookup(
            index,
            #[trigger] sources[i],
        ) is Some
}

/// Whether the source is among those that could not be had.
pub open spec fn is_failure(failures: Seq<CacheFailureView>, source: SourceView) -> bool {
    exists|k: int|
        0 <= k < failures.len() && source == SourceView::Remote((#[trigger] failures[k]).source)
}

/// Whether each remote source among the first `n` is in the index or among those
/// that could not be had.
pub open spec fn are_accounted_for(
    sources: Seq<SourceView>,
    index: Seq<CacheEntryView>,
    failures: Seq<CacheFailureView>,
    n: int,
) -> bool {
    forall|i: int|
        0 <= i < n && i < sources.len() && sources[i] is Remote ==> lookup(
            index,
            #[trigger] sources[i],
        ) is Some || is_failure(failures, sources[i])
}

/// What holds of an update wherever it stands: every remote source that it is
/// past is accounted for, and where all goes well there is no failure.
spec fn cache_accounts(
    sources: Seq<SourceView>,
    well: bool,
    turn: TurnView<CacheRunView, CacheOutcomeView>,
) -> bool {
    match turn {
        TurnView::Ask(run, _) => {
            let CacheStateView { sources: listed, env, root, index, failures } = run.state;
            &&& listed == sources
            &&& cache_point_holds(run)
            &&& well ==> failures.len() == 0
            &&& are_accounted_for(sources, index, failures, sources_past(run))
        },
        TurnView::End(CacheOutcomeView::Cached { index, failures }) => {
            &&& well ==> failures.len() == 0
            &&& are_accounted_for(sources, index, failures, sources.len() as int)
        },
        TurnView::End(_) => true,
    }
}

proof fn lemma_from_accounts(well: bool, state: CacheStateView, n: int)
    requires
        0 <= n,
        well ==> state.failures.len() == 0,
        are_accounted_for(state.sources, state.index, state.failures, n),
    ensures
        cache_accounts(state.sources, well, cache_from(state, n)),
    decreases state.sources.len() - n,
{
    if n < state.sources.len() && lookup(state.index, state.sources[n]) is Some {
        lemma_from_accounts(well, state, n + 1);
    }
}

proof fn lemma_failure_accounts(
    state: CacheStateView,
    n: int,
    source: RemoteSourceView,
    error: CheckoutError,
)
    requires
        0 <= n < state.sources.len(),
        state.sources[n] == SourceView::Remote(source),
        are_accounted_for(state.sources, state.index, state.failures, n),
    ensures
        cache_accounts(
            state.sources,
            false,
            cache_failed(state, n, source, error),
        ),
{
    let failures = state.failures.push(CacheFailureView { source, error });
    let sources = state.sources;
    assert forall|i: int|
        0 <= i < n + 1 && i < sources.len() && sources[i] is Remote implies lookup(
        state.index,
        #[trigger] sources[i],
    ) is Some || is_failure(failures, sources[i]) by {
        if i == n {
            assert(failures[state.failures.len() as int].source == source);
        } else if is_failure(state.failures, sources[i]) {
            let k = choose|k: int|
                0 <= k < state.failures.len() && sources[i] == SourceView::Remote(
                    (#[trigger] state.failures[k]).source,
                );
            assert(failures[k] == state.failures[k]);
        }
    }
    lemma_from_accounts(false, CacheStateView { failures, ..state }, n + 1);
}

proof fn lemma_step_accounts(
    well: bool,
    run: CacheRunView,
    request: RequestView,
    reply: ReplyView,
)
    requires
        cache_accounts(run.state.sources, well, TurnView::Ask(run, request)),
        well ==> goes_well(run, reply),
    ensures
        cache_accounts(run.state.sources, well, cache_step(run, reply)),
{
    let state = run.state;
    let sources = state.sources;
    match run.at {
        CachePointView::Loading => {
            lemma_from_accounts(well, CacheStateView { index: loaded(reply), ..state }, 0);
        },
        CachePointView::Naming(n, source) => {
            if !(reply is Name) {
                lemma_failure_accounts(state, n, source, CheckoutError::Unnamed);
            }
        },
        CachePointView::CheckingOut(n, checkout) => {
            match checkout_step(checkout, reply) {
                TurnView::Ask(_, _) => {},
                TurnView::End(CheckoutOutcomeView::Cached(entry)) => {
                    let index = state.index.push(entry);
                    assert forall|i: int|
                        0 <= i < n + 1 && i < sources.len() && sources[i] is Remote implies lookup(
                        index,
                        #[trigger] sources[i],
                    ) is Some || is_failure(state.failures, sources[i]) by {
                        law_push_then_lookup(state.index, entry, sources[i]);
                    }
                    lemma_from_accounts(well, CacheStateView { index, ..state }, n + 1);
                },
                TurnView::End(CheckoutOutcomeView::Failed(error)) => {
                    lemma_failure_accounts(state, n, checkout.source, error);
                },
            }
        },
        CachePointView::Listing(n, _) => {
            assert(are_accounted_for(sources, state.index, state.failures, n + 1));
            lemma_from_accounts(well, state, n + 1);
        },
        _ => {},
    }
}

/// An update that comes to its end leaves no remote source of the configuration
/// out: each is in the index, or among those that could not be had.
pub proof fn law_update_accounts_for_every_source(
    sources: Seq<SourceView>,
    env: EnvironmentView,
    dir: Option<Seq<u8>>,
    replies: Seq<ReplyView>,
    index: Seq<CacheEntryView>,
    failures: Seq<CacheFailureView>,
)
    requires
        after(cache_start(sources, env, dir), cache_stepper(), replies) == TurnView::<
            CacheRunView,
            CacheOutcomeView,
        >::End(CacheOutcomeView::Cached { index, failures }),
    ensures
        are_accounted_for(sources, index, failures, sources.len() as int),
{
    let step = cache_stepper();
    let start = cache_start(sources, env, dir);
    let fits = |run: CacheRunView, reply: ReplyView| true;
    let holds = |turn: TurnView<CacheRunView, CacheOutcomeView>| cache_accounts(
        sources,
        false,
        turn,
    );
    assert forall|run: CacheRunView, request: RequestView, reply: ReplyView|
        #![trigger holds(TurnView::Ask(run, request)), step(run, reply)]
        holds(TurnView::Ask(run, request)) && fits(run, reply) implies holds(step(run, reply)) by {
        lemma_step_accounts(false, run, request, reply);
    }
    lemma_everything_fits(start, step, fits, replies);
    lemma_always(start, step, fits, holds, replies);
}

/// Where every checkout goes well, an update that comes to its end leaves every
/// remote source of the configuration in the cache, and tells of no failure.
pub proof fn law_update_fills_the_cache(
    sources: Seq<SourceView>,
    env: EnvironmentView,
    dir: Option<Seq<u8>>,
    replies: Seq<ReplyView>,
    index: Seq<CacheEntryView>,
    failures: Seq<CacheFailureView>,
)
    requires
        all_fit(cache_start(sources, env, dir), cache_stepper(), all_goes_well(), replies),
        after(cache_start(sources, env, dir), cache_stepper(), replies) == TurnView::<
            CacheRunView,
            CacheOutcomeView,
        >::End(CacheOutcomeView::Cached { index, failures }),
    ensures
        has_remotes(sources, index, sources.len() as int),
        failures.len() == 0,
{
    let step = cache_stepper();
    let fits = all_goes_well();
    let holds = |turn: TurnView<CacheRunView, CacheOutcomeView>| cache_accounts(
        sources,
        true,
        turn,
    );
    assert forall|run: CacheRunView, request: RequestView, reply: ReplyView|
        #![trigger holds(TurnView::Ask(run, request)), step(run, reply)]
        holds(TurnView::Ask(run, request)) && fits(run, reply) implies holds(step(run, reply)) by {
        lemma_step_accounts(true, run, request, reply);
    }
    lemma_always(cache_start(sources, env, dir), step, fits, holds, replies);
}

// ---------------------------------------------------------------------------
// A cache that is up to date
// ---------------------------------------------------------------------------

/// What holds of an update that finds everything in the index.
spec fn cache_is_quiet(
    sources: Seq<SourceView>,
    base: Seq<CacheEntryView>,
    turn: TurnView<CacheRunView, CacheOutcomeView>,
) -> bool {
    match turn {
        TurnView::Ask(run, request) => {
            &&& run.state.sources == sources
            &&& run.state.index == base
            &&& match run.at {
                CachePointView::Listing(n, _) => 0 <= n,
                CachePointView::Storing => true,
                _ => false,
            }
        },
        TurnView::End(CacheOutcomeView::Cached { index, failures }) => index == base,
        TurnView::End(_) => true,
    }
}

proof fn lemma_from_is_quiet(state: CacheStateView, n: int)
    requires
        0 <= n,
        has_remotes(state.sources, state.index, state.sources.len() as int),
    ensures
        cache_is_quiet(state.sources, state.index, cache_from(state, n)),
    decreases state.sources.len() - n,
{
    if n < state.sources.len() {
        if lookup(state.index, state.sources[n]) is Some {
            lemma_from_is_quiet(state, n + 1);
        } else {
            assert(!(state.sources[n] is Remote));
        }
    }
}

/// Where the index that is read has every remote source of the configuration,
/// nothing is cloned: from then on an update waits for local directories to be
/// listed and for the index to be written, and the index stays as it is.
pub proof fn law_full_cache_is_left_alone(
    sources: Seq<SourceView>,
    env: EnvironmentView,
    dir: Seq<u8>,
    prepared: ReplyView,
    read: ReplyView,
    replies: Seq<ReplyView>,
)
    requires
        has_remotes(sources, loaded(read), sources.len() as int),
    ensures
        match after(
            cache_start(sources, env, Some(dir)),
            cache_stepper(),
            seq![prepared, read] + replies,
        ) {
            TurnView::Ask(run, _) => run.state.index == loaded(read) && (run.at is Listing
                || run.at is Storing),
            TurnView::End(CacheOutcomeView::Cached { index, failures }) => index == loaded(read),
            TurnView::End(_) => true,
        },
{
    let base = loaded(read);
    let state = cache_read(sources, env, dir, read);
    let start = cache_from(state, 0);
    let step = cache_stepper();
    let fits = |run: CacheRunView, reply: ReplyView| true;
    let holds = |turn: TurnView<CacheRunView, CacheOutcomeView>| cache_is_quiet(
        sources,
        base,
        turn,
    );
    let begin = cache_start(sources, env, Some(dir));
    lemma_after_splits(begin, step, seq![prepared, read], replies);
    lemma_after_loading(sources, env, dir, prepared, read);
    lemma_from_is_quiet(state, 0);
    assert forall|run: CacheRunView, request: RequestView, reply: ReplyView|
        #![trigger holds(TurnView::Ask(run, request)), step(run, reply)]
        holds(TurnView::Ask(run, request)) && fits(run, reply) implies holds(step(run, reply)) by {
        match run.at {
            CachePointView::Listing(n, _) => {
                lemma_from_is_quiet(run.state, n + 1);
            },
            _ => {},
        }
    }
    lemma_everything_fits(start, step, fits, replies);
    lemma_always(start, step, fits, holds, replies);
}

} // verus!
