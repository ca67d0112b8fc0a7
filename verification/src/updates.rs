//! What follows a reply while the cache is brought up to date, and what has been
//! done by the end.
use crate::cache::{
    cache_from, cache_start, cache_step, CacheFailureView, CacheOutcomeView, CachePointView,
    CacheRunView, CacheStateView,
};
use crate::cached::cache_stepper;
use crate::checkout::{checkout_step, CheckoutError, CheckoutOutcomeView};
use crate::command::{stage_command, CheckoutStage, CommandView};
use crate::config::{LocalSourceView, RemoteSourceView, SourceView};
use crate::home::{expanded, EnvironmentView};
use crate::index::{law_lookup_finds_the_source, law_push_then_lookup, lookup, CacheEntryView};
use crate::path::join;
use crate::protocol::{after, requests, ReplyView, RequestView, TurnView};
use vstd::prelude::*;

verus! {

/// Where the cache is, below the directory for caches.
pub open spec fn cache_below(dir: Seq<u8>) -> Seq<u8> {
    join(dir, vstd::utf8::encode_utf8("protov"@))
}

/// Where the index of the cache is, below the directory for caches.
pub open spec fn index_below(dir: Seq<u8>) -> Seq<u8> {
    join(cache_below(dir), vstd::utf8::encode_utf8("cache.json"@))
}

/// Whether a program lists the directory of the local source.
pub open spec fn lists(
    command: CommandView,
    source: LocalSourceView,
    env: EnvironmentView,
) -> bool {
    &&& command.program == "ls"@
    &&& command.args.len() == 0
    &&& command.dir == vstd::utf8::encode_utf8(expanded(source.path, env.home, env.vars))
}

/// Whether the index has no entry of the source.
pub open spec fn is_not_cached(index: Seq<CacheEntryView>, source: SourceView) -> bool {
    forall|i: int| 0 <= i < index.len() ==> (#[trigger] index[i]).source != source
}

/// What holds of an update wherever it waits.
pub open spec fn update_holds(
    sources: Seq<SourceView>,
    env: EnvironmentView,
    dir: Seq<u8>,
    run: CacheRunView,
    request: RequestView,
) -> bool {
    let state = run.state;
    &&& state.sources == sources
    &&& state.env == env
    &&& state.root == cache_below(dir)
    &&& match run.at {
        CachePointView::Preparing => {
            &&& request == RequestView::CreateDirAll(cache_below(dir))
            &&& state.index.len() == 0
            &&& state.failures.len() == 0
        },
        CachePointView::Loading => {
            &&& request == RequestView::ReadCacheIndex(index_below(dir))
            &&& state.index.len() == 0
            &&& state.failures.len() == 0
        },
        CachePointView::Naming(n, source) => {
            &&& request is FreshName
            &&& 0 <= n < sources.len()
            &&& sources[n] == SourceView::Remote(source)
            &&& is_not_cached(state.index, sources[n])
        },
        CachePointView::CheckingOut(n, checkout) => {
            &&& request == RequestView::Run(
                stage_command(checkout.stage, checkout.source, cache_below(dir), checkout.name),
            )
            &&& 0 <= n < sources.len()
            &&& sources[n] == SourceView::Remote(checkout.source)
            &&& checkout.cache == cache_below(dir)
            &&& is_not_cached(state.index, sources[n])
        },
        CachePointView::Listing(n, listed) => {
            &&& 0 <= n < sources.len()
            &&& sources[n] matches SourceView::Local(source) && request matches RequestView::Run(
                command,
            ) && lists(command, source, env) && command.dir == listed
            &&& is_not_cached(state.index, sources[n])
        },
        CachePointView::Storing => request == (RequestView::WriteCacheIndex {
            path: index_below(dir),
            index: state.index,
        }),
    }
}

proof fn lemma_from_holds(dir: Seq<u8>, state: CacheStateView, n: int)
    requires
        0 <= n <= state.sources.len(),
        state.root == cache_below(dir),
    ensures
        cache_from(state, n) matches TurnView::Ask(run, request) && {
            &&& update_holds(state.sources, state.env, dir, run, request)
            &&& run.state == state
            &&& !(run.at is Preparing) && !(run.at is Loading) && !(run.at is CheckingOut)
        },
    decreases state.sources.len() - n,
{
    if n < state.sources.len() {
        law_lookup_finds_the_source(state.index, state.sources[n]);
        if lookup(state.index, state.sources[n]) is Some {
            lemma_from_holds(dir, state, n + 1);
        }
    }
}

proof fn lemma_step_holds(
    sources: Seq<SourceView>,
    env: EnvironmentView,
    dir: Seq<u8>,
    run: CacheRunView,
    request: RequestView,
    reply: ReplyView,
)
    requires
        update_holds(sources, env, dir, run, request),
    ensures
        cache_step(run, reply) matches TurnView::Ask(next, asked) ==> update_holds(
            sources,
            env,
            dir,
            next,
            asked,
        ),
{
    assert forall|state: CacheStateView, n: int|
        0 <= n <= state.sources.len() && state.root == cache_below(dir) implies (
    #[trigger] cache_from(state, n) matches TurnView::Ask(next, asked) && update_holds(
        state.sources,
        state.env,
        dir,
        next,
        asked,
    )) by {
        lemma_from_holds(dir, state, n);
    }
}

proof fn lemma_update_holds(
    sources: Seq<SourceView>,
    env: EnvironmentView,
    dir: Seq<u8>,
    replies: Seq<ReplyView>,
)
    ensures
        after(cache_start(sources, env, Some(dir)), cache_stepper(), replies) matches TurnView::Ask(
            run,
            request,
        ) ==> update_holds(sources, env, dir, run, request),
    decreases replies.len(),
{
    if replies.len() > 0 {
        let earlier = replies.drop_last();
        lemma_update_holds(sources, env, dir, earlier);
        match after(cache_start(sources, env, Some(dir)), cache_stepper(), earlier) {
            TurnView::Ask(run, request) => {
                lemma_step_holds(sources, env, dir, run, request, replies.last());
            },
            TurnView::End(_) => {},
        }
    }
}

/// An update begins with the cache directory, `protov` in the directory for caches,
/// and then with the index in it, `cache.json`, whatever came of making the directory.
pub proof fn law_update_begins_with_the_index(
    sources: Seq<SourceView>,
    env: EnvironmentView,
    dir: Seq<u8>,
    made: ReplyView,
)
    ensures
        ({
            let cache = join(dir, vstd::utf8::encode_utf8("protov"@));
            let start = cache_start(sources, env, Some(dir));
            &&& start matches TurnView::Ask(_, request) && request == RequestView::CreateDirAll(
                cache,
            )
            &&& after(start, cache_stepper(), seq![made]) matches TurnView::Ask(_, request)
                && request == RequestView::ReadCacheIndex(
                join(cache, vstd::utf8::encode_utf8("cache.json"@)),
            )
        }),
{
    let start = cache_start(sources, env, Some(dir));
    assert(seq![made].drop_last() =~= Seq::<ReplyView>::empty());
    reveal_with_fuel(after, 2);
    lemma_update_holds(sources, env, dir, Seq::empty());
}

/// An update ends where the index was asked to be written, whatever came of that, and
/// hands back what it asked to be written. The only other end is that the directory of
/// a local source could not be listed because `ls` could not be started there. Nothing
/// else ends it: not a directory that could not be made, nor an index that could not be
/// read, which is then taken as empty, nor a source that could not be had, which is
/// noted, with the reason.
pub proof fn law_update_ends_only_where_it_must(
    sources: Seq<SourceView>,
    env: EnvironmentView,
    dir: Seq<u8>,
    replies: Seq<ReplyView>,
    run: CacheRunView,
    request: RequestView,
    reply: ReplyView,
)
    requires
        after(cache_start(sources, env, Some(dir)), cache_stepper(), replies) == TurnView::<
            CacheRunView,
            CacheOutcomeView,
        >::Ask(run, request),
    ensures
        ({
            let next = after(
                cache_start(sources, env, Some(dir)),
                cache_stepper(),
                replies.push(reply),
            );
            let index = run.state.index;
            let failures = run.state.failures;
            match request {
                RequestView::CreateDirAll(_) => next is Ask,
                RequestView::ReadCacheIndex(_) => next matches TurnView::Ask(later, _) && {
                    &&& later.state.index == (match reply {
                        ReplyView::CacheIndex(told) => told,
                        _ => Seq::empty(),
                    })
                    &&& later.state.failures.len() == 0
                },
                RequestView::FreshName => next matches TurnView::Ask(later, asked) && exists|
                    source: RemoteSourceView,
                |
                    {
                        &&& #[trigger] sources.contains(SourceView::Remote(source))
                        &&& is_not_cached(index, SourceView::Remote(source))
                        &&& later.state.index == index
                        &&& match reply {
                            ReplyView::Name(name) => {
                                &&& later.state.failures == failures
                                &&& asked == RequestView::Run(
                                    stage_command(
                                        CheckoutStage::Clone,
                                        source,
                                        cache_below(dir),
                                        name,
                                    ),
                                )
                            },
                            _ => later.state.failures == failures.push(
                                CacheFailureView { source, error: CheckoutError::Unnamed },
                            ),
                        }
                    },
                RequestView::Run(command) => match run.at {
                    CachePointView::CheckingOut(_, checkout) => next matches TurnView::Ask(
                        later,
                        asked,
                    ) && {
                        let source = checkout.source;
                        let stage = checkout.stage;
                        &&& sources.contains(SourceView::Remote(source))
                        &&& command == stage_command(
                            stage,
                            source,
                            cache_below(dir),
                            checkout.name,
                        )
                        &&& match reply {
                            ReplyView::Exited { success } => match stage {
                                CheckoutStage::Checkout => {
                                    &&& later.state.failures == failures
                                    &&& later.state.index == index.push(
                                        CacheEntryView {
                                            path: join(
                                                cache_below(dir),
                                                vstd::utf8::encode_utf8(checkout.name),
                                            ),
                                            source: SourceView::Remote(source),
                                        },
                                    )
                                },
                                _ => if success {
                                    &&& later.state.failures == failures
                                    &&& later.state.index == index
                                    &&& asked == RequestView::Run(
                                        stage_command(
                                            if stage is Clone && source.path.len() > 0 {
                                                CheckoutStage::SparseCheckout
                                            } else {
                                                CheckoutStage::Checkout
                                            },
                                            source,
                                            cache_below(dir),
                                            checkout.name,
                                        ),
                                    )
                                } else {
                                    &&& later.state.index == index
                                    &&& later.state.failures == failures.push(
                                        CacheFailureView {
                                            source,
                                            error: CheckoutError::Unsuccessful(stage),
                                        },
                                    )
                                },
                            },
                            _ => {
                                &&& later.state.index == index
                                &&& later.state.failures == failures.push(
                                    CacheFailureView {
                                        source,
                                        error: CheckoutError::NotStarted(stage),
                                    },
                                )
                            },
                        }
                    },
                    _ => {
                        &&& exists|source: LocalSourceView| #[trigger]
                            sources.contains(SourceView::Local(source)) && is_not_cached(
                                index,
                                SourceView::Local(source),
                            ) && lists(command, source, env)
                        &&& if reply is Exited {
                            next matches TurnView::Ask(later, _) && later.state.index == index
                                && later.state.failures == failures
                        } else {
                            next == TurnView::<CacheRunView, CacheOutcomeView>::End(
                                CacheOutcomeView::CannotList { dir: command.dir, failures },
                            )
                        }
                    },
                },
                RequestView::WriteCacheIndex { path, index: written } => {
                    &&& path == join(
                        join(dir, vstd::utf8::encode_utf8("protov"@)),
                        vstd::utf8::encode_utf8("cache.json"@),
                    )
                    &&& written == index
                    &&& next == TurnView::<CacheRunView, CacheOutcomeView>::End(
                        CacheOutcomeView::Cached { index: written, failures },
                    )
                },
                _ => false,
            }
        }),
{
    lemma_update_holds(sources, env, dir, replies);
    assert(replies.push(reply).drop_last() =~= replies);
    assert forall|state: CacheStateView, n: int|
        0 <= n <= state.sources.len() && state.root == cache_below(dir) implies (
    #[trigger] cache_from(state, n) matches TurnView::Ask(next, asked) && next.state == state) by {
        lemma_from_holds(dir, state, n);
    }
    match run.at {
        CachePointView::Naming(n, source) => {
            assert(sources.contains(sources[n]));
            assert(sources.contains(SourceView::Remote(source)));
        },
        CachePointView::CheckingOut(n, checkout) => {
            assert(sources.contains(sources[n]));
        },
        CachePointView::Listing(n, listed) => {
            assert(sources.contains(sources[n]));
            assert(sources.contains(SourceView::Local(sources[n]->Local_0)));
        },
        _ => {},
    }
}

// ---------------------------------------------------------------------------
// Every local source is listed
// ---------------------------------------------------------------------------

/// How many sources an update is past where it waits there.
spec fn past(sources: Seq<SourceView>, at: CachePointView) -> int {
    match at {
        CachePointView::Preparing => 0,
        CachePointView::Loading => 0,
        CachePointView::Naming(n, _) => n,
        CachePointView::CheckingOut(n, _) => n,
        CachePointView::Listing(n, _) => n,
        CachePointView::Storing => sources.len() as int,
    }
}

/// Whether the directory of the source was asked to be listed.
spec fn was_listed(
    asked: Seq<RequestView>,
    source: LocalSourceView,
    env: EnvironmentView,
) -> bool {
    exists|i: int|
        0 <= i < asked.len() && (#[trigger] asked[i] matches RequestView::Run(command) && lists(
            command,
            source,
            env,
        ))
}

/// Whether the local sources among the first `n` are listed or in the index.
spec fn listed_up_to(
    sources: Seq<SourceView>,
    env: EnvironmentView,
    index: Seq<CacheEntryView>,
    asked: Seq<RequestView>,
    n: int,
) -> bool {
    forall|j: int|
        0 <= j < n && j < sources.len() ==> (#[trigger] sources[j] matches SourceView::Local(source)
            ==> was_listed(asked, source, env) || lookup(index, sources[j]) is Some)
}

proof fn lemma_from_lists(state: CacheStateView, asked: Seq<RequestView>, n: int)
    requires
        0 <= n <= state.sources.len(),
        listed_up_to(state.sources, state.env, state.index, asked, n),
    ensures
        cache_from(state, n) matches TurnView::Ask(run, _) ==> listed_up_to(
            state.sources,
            state.env,
            state.index,
            asked,
            past(state.sources, run.at),
        ),
    decreases state.sources.len() - n,
{
    if n < state.sources.len() && lookup(state.index, state.sources[n]) is Some {
        lemma_from_lists(state, asked, n + 1);
    }
}

proof fn lemma_more_is_asked(
    sources: Seq<SourceView>,
    env: EnvironmentView,
    index: Seq<CacheEntryView>,
    longer: Seq<CacheEntryView>,
    asked: Seq<RequestView>,
    more: Seq<RequestView>,
    n: int,
)
    requires
        listed_up_to(sources, env, index, asked, n),
        asked.len() <= more.len(),
        forall|i: int| 0 <= i < asked.len() ==> #[trigger] more[i] == asked[i],
        longer == index || exists|entry: CacheEntryView| longer == #[trigger] index.push(entry),
    ensures
        listed_up_to(sources, env, longer, more, n),
{
    assert forall|j: int| 0 <= j < n && j < sources.len() implies (
    #[trigger] sources[j] matches SourceView::Local(source) ==> was_listed(more, source, env)
        || lookup(longer, sources[j]) is Some) by {
        if let SourceView::Local(source) = sources[j] {
            if was_listed(asked, source, env) {
                let i = choose|i: int|
                    0 <= i < asked.len() && (#[trigger] asked[i] matches RequestView::Run(command)
                        && lists(command, source, env));
                assert(more[i] == asked[i]);
            } else if longer != index {
                let entry = choose|entry: CacheEntryView| longer == #[trigger] index.push(entry);
                law_push_then_lookup(index, entry, sources[j]);
            }
        }
    }
}

/// Going on from source `n`, with one more request.
proof fn lemma_listed_from(
    dir: Seq<u8>,
    state: CacheStateView,
    index: Seq<CacheEntryView>,
    before: Seq<RequestView>,
    n: int,
)
    requires
        0 <= n <= state.sources.len(),
        state.root == cache_below(dir),
        listed_up_to(state.sources, state.env, index, before, n),
        state.index == index || exists|entry: CacheEntryView|
            state.index == #[trigger] index.push(entry),
    ensures
        cache_from(state, n) matches TurnView::Ask(run, asked) && run.state == state
            && listed_up_to(
            state.sources,
            state.env,
            state.index,
            before.push(asked),
            past(state.sources, run.at),
        ),
{
    lemma_from_holds(dir, state, n);
    let asked = cache_from(state, n)->Ask_1;
    lemma_more_is_asked(
        state.sources,
        state.env,
        index,
        state.index,
        before,
        before.push(asked),
        n,
    );
    lemma_from_lists(state, before.push(asked), n);
}

proof fn lemma_listed_on(
    sources: Seq<SourceView>,
    env: EnvironmentView,
    dir: Seq<u8>,
    run: CacheRunView,
    request: RequestView,
    reply: ReplyView,
    before: Seq<RequestView>,
)
    requires
        update_holds(sources, env, dir, run, request),
        before.len() > 0,
        before.last() == request,
        listed_up_to(sources, env, run.state.index, before, past(sources, run.at)),
    ensures
        cache_step(run, reply) matches TurnView::Ask(next, asked) ==> listed_up_to(
            sources,
            env,
            next.state.index,
            before.push(asked),
            past(sources, next.at),
        ),
{
    let state = run.state;
    let index = state.index;
    match run.at {
        CachePointView::Preparing => {},
        CachePointView::Loading => {
            let told = match reply {
                ReplyView::CacheIndex(told) => told,
                _ => Seq::empty(),
            };
            let read = CacheStateView { index: told, ..state };
            assert(listed_up_to(sources, env, told, before, 0));
            lemma_listed_from(dir, read, told, before, 0);
        },
        CachePointView::Naming(n, source) => {
            assert(listed_up_to(sources, env, index, before, n + 1));
            match reply {
                ReplyView::Name(_) => {
                    let asked = cache_step(run, reply)->Ask_1;
                    lemma_more_is_asked(sources, env, index, index, before, before.push(asked), n);
                },
                _ => {
                    let failure = CacheFailureView { source, error: CheckoutError::Unnamed };
                    let failures = state.failures.push(failure);
                    lemma_listed_from(dir, CacheStateView { failures, ..state }, index, before, n + 1);
                },
            }
        },
        CachePointView::CheckingOut(n, checkout) => {
            assert(listed_up_to(sources, env, index, before, n + 1));
            match checkout_step(checkout, reply) {
                TurnView::Ask(_, asked) => {
                    lemma_more_is_asked(sources, env, index, index, before, before.push(asked), n);
                },
                TurnView::End(CheckoutOutcomeView::Cached(entry)) => {
                    let longer = CacheStateView { index: index.push(entry), ..state };
                    lemma_listed_from(dir, longer, index, before, n + 1);
                },
                TurnView::End(CheckoutOutcomeView::Failed(error)) => {
                    let failure = CacheFailureView { source: checkout.source, error };
                    let failures = state.failures.push(failure);
                    lemma_listed_from(dir, CacheStateView { failures, ..state }, index, before, n + 1);
                },
            }
        },
        CachePointView::Listing(n, _) => {
            assert(before[before.len() - 1] == request);
            assert(was_listed(before, sources[n]->Local_0, env));
            assert(listed_up_to(sources, env, index, before, n + 1));
            lemma_listed_from(dir, state, index, before, n + 1);
        },
        CachePointView::Storing => {},
    }
}

proof fn lemma_listed_so_far(
    sources: Seq<SourceView>,
    env: EnvironmentView,
    dir: Seq<u8>,
    replies: Seq<ReplyView>,
)
    ensures
        after(cache_start(sources, env, Some(dir)), cache_stepper(), replies) matches TurnView::Ask(
            run,
            _,
        ) ==> listed_up_to(
            sources,
            env,
            run.state.index,
            requests(cache_start(sources, env, Some(dir)), cache_stepper(), replies),
            past(sources, run.at),
        ),
    decreases replies.len(),
{
    let start = cache_start(sources, env, Some(dir));
    let step = cache_stepper();
    if replies.len() > 0 {
        let earlier = replies.drop_last();
        lemma_listed_so_far(sources, env, dir, earlier);
        lemma_update_holds(sources, env, dir, earlier);
        match after(start, step, earlier) {
            TurnView::Ask(run, request) => {
                lemma_listed_on(
                    sources,
                    env,
                    dir,
                    run,
                    request,
                    replies.last(),
                    requests(start, step, earlier),
                );
            },
            TurnView::End(_) => {},
        }
    }
}

/// By the time the index is written, the directory of every local source of the
/// configuration that has no entry was listed.
pub proof fn law_every_local_source_is_listed(
    sources: Seq<SourceView>,
    env: EnvironmentView,
    dir: Seq<u8>,
    replies: Seq<ReplyView>,
    run: CacheRunView,
    path: Seq<u8>,
    index: Seq<CacheEntryView>,
    j: int,
    source: LocalSourceView,
)
    requires
        after(cache_start(sources, env, Some(dir)), cache_stepper(), replies) == TurnView::<
            CacheRunView,
            CacheOutcomeView,
        >::Ask(run, RequestView::WriteCacheIndex { path, index }),
        0 <= j < sources.len(),
        sources[j] == SourceView::Local(source),
        is_not_cached(index, sources[j]),
    ensures
        exists|command: CommandView| #[trigger]
            lists(command, source, env) && requests(
                cache_start(sources, env, Some(dir)),
                cache_stepper(),
                replies,
            ).contains(RequestView::Run(command)),
{
    let asked = requests(cache_start(sources, env, Some(dir)), cache_stepper(), replies);
    lemma_update_holds(sources, env, dir, replies);
    lemma_listed_so_far(sources, env, dir, replies);
    law_lookup_finds_the_source(index, sources[j]);
    assert(was_listed(asked, source, env));
    let i = choose|i: int|
        0 <= i < asked.len() && (#[trigger] asked[i] matches RequestView::Run(command) && lists(
            command,
            source,
            env,
        ));
    assert(lists(asked[i]->Run_0, source, env));
    assert(asked.contains(asked[i]));
}

} // verus!
