//! What filling the vendor directory does as a whole.
use crate::cached::has_remotes;
use crate::command::{generator_input, text_bytes};
use crate::config::{LocalSourceView, RemoteSourceView, SourceView};
use crate::copy::{copy_step, ActionView, CopyError, CopyOutcomeView};
use crate::followed::copy_waits_for;
use crate::home::{expanded, EnvironmentView};
use crate::index::{
    law_lookup_finds_the_first_entry, law_lookup_finds_the_source, CacheEntryView,
};
use crate::mirror::{
    copies_started, copy_is_on_course, dirs_by, dirs_left, dirs_told, entry_is_of_dir, files_copied,
    is_copy_request, lemma_covered_on, lemma_one_more_reply, lemma_one_more_request,
    lemma_step_covers, lemma_step_is_on_course, opened_by, wanted_told,
};
use crate::path::{
    components, is_plain_name, join, law_components_of_one_more_part, law_components_of_one_part,
    law_join_puts_one_behind_the_other, lemma_components_of_join, lemma_join_plain_name, names,
    ComponentView, SEPARATOR,
};
use crate::protocol::{after, all_fit, lemma_always, requests, ReplyView, RequestView, TurnView};
use crate::vendor::{
    clean_vendor_start, clean_vendor_step, populate_from, populate_start, populate_step, reported,
    vendor_copy, vendor_dir, vendored_at, CleanVendor, CleanVendorOutcome, PopulateOutcomeView,
    PopulateVendorView, VendorReportView, VendorStateView,
};
use crate::walk::dirs_opened;
use vstd::prelude::*;

verus! {

/// A source is vendored under its name, wherever it is copied from.
pub proof fn law_sources_keep_their_names(
    source: SourceView,
    env: EnvironmentView,
    index: Seq<CacheEntryView>,
)
    ensures
        vendor_copy(source, env, index) matches Some(way) ==> way.dst == vendored_at(
            source.name(),
        ),
{
    law_lookup_finds_the_source(index, source);
}

/// The generator looks for a source where it is vendored.
pub proof fn law_generator_finds_what_is_vendored(name: Seq<char>)
    ensures
        generator_input(name) == vendored_at(name),
{
    reveal_strlit(".");
    reveal_strlit("vendor");
    reveal_strlit("./vendor");
    vstd::utf8::is_ascii_chars_encode_utf8("."@);
    vstd::utf8::is_ascii_chars_encode_utf8("vendor"@);
    vstd::utf8::is_ascii_chars_encode_utf8("./vendor"@);
    let dot = text_bytes("."@);
    let tail = text_bytes("vendor"@);
    assert(dot.last() != SEPARATOR);
    assert(tail[0] != SEPARATOR);
    assert(text_bytes("./vendor"@) =~= vendor_dir());
}

/// A source with a plain name is vendored in a directory right below the vendor
/// directory.
pub proof fn law_plain_names_lie_in_vendor(name: Seq<char>)
    requires
        is_plain_name(text_bytes(name)),
    ensures
        components(vendored_at(name)) == components(vendor_dir()).push(
            ComponentView::Normal(text_bytes(name)),
        ),
{
    lemma_join_plain_name(vendor_dir(), text_bytes(name));
}

/// Where every remote source is in the cache, there is a way to have every
/// source.
pub proof fn law_full_cache_gives_every_source(
    sources: Seq<SourceView>,
    env: EnvironmentView,
    index: Seq<CacheEntryView>,
    i: int,
)
    requires
        has_remotes(sources, index, sources.len() as int),
        0 <= i < sources.len(),
    ensures
        vendor_copy(sources[i], env, index) is Some,
{
}

// ---------------------------------------------------------------------------
// Whole runs
// ---------------------------------------------------------------------------

/// The step of filling the vendor directory, to follow a whole run with.
pub open spec fn populate_stepper() -> spec_fn(PopulateVendorView, ReplyView) -> TurnView<
    PopulateVendorView,
    PopulateOutcomeView,
> {
    |run: PopulateVendorView, reply: ReplyView| populate_step(run, reply)
}

/// Whether a run is told of an entry only while it reads a directory, and of one
/// that is in there.
pub open spec fn vendored_entries_of_dirs() -> spec_fn(PopulateVendorView, ReplyView) -> bool {
    |run: PopulateVendorView, reply: ReplyView| entry_is_of_dir(run.copy, reply)
}

/// Whether a request belongs to the copy of the source to where it is vendored.
pub open spec fn is_vendor_request(
    source: SourceView,
    env: EnvironmentView,
    index: Seq<CacheEntryView>,
    request: RequestView,
) -> bool {
    vendor_copy(source, env, index) matches Some(way) && is_copy_request(
        way.src,
        vendored_at(source.name()),
        request,
    )
}

/// Whether a run is at one of the sources, and goes by the environment and the
/// index of the cache that it was given.
spec fn is_at_a_source(
    sources: Seq<SourceView>,
    env: EnvironmentView,
    index: Seq<CacheEntryView>,
    run: PopulateVendorView,
) -> bool {
    &&& run.state.sources == sources
    &&& run.state.env == env
    &&& run.state.index == index
    &&& 0 <= run.at < sources.len()
}

/// What holds of a run wherever it stands: it is at a source that can be had,
/// and the copy of that source is on its course.
spec fn populate_is_on_course(
    sources: Seq<SourceView>,
    env: EnvironmentView,
    index: Seq<CacheEntryView>,
    turn: TurnView<PopulateVendorView, PopulateOutcomeView>,
) -> bool {
    turn matches TurnView::Ask(run, request) ==> {
        &&& is_at_a_source(sources, env, index, run)
        &&& vendor_copy(sources[run.at], env, index) matches Some(way) && copy_is_on_course(
            way.src,
            way.dst,
            TurnView::Ask(run.copy, request),
        )
    }
}

proof fn lemma_from_is_on_course(state: VendorStateView, n: int)
    requires
        0 <= n,
    ensures
        populate_is_on_course(state.sources, state.env, state.index, populate_from(state, n)),
    decreases state.sources.len() - n,
{
    if n < state.sources.len() && vendor_copy(state.sources[n], state.env, state.index) is None {
        let report = VendorReportView::Missing(state.sources[n]);
        lemma_from_is_on_course(reported(state, report), n + 1);
    }
}

/// Filling the vendor directory asks for nothing but what the copy of a source
/// of the configuration, to where that source is vendored, may ask for.
pub proof fn law_populate_stays_on_course(
    sources: Seq<SourceView>,
    env: EnvironmentView,
    index: Seq<CacheEntryView>,
    replies: Seq<ReplyView>,
    run: PopulateVendorView,
    request: RequestView,
)
    requires
        all_fit(
            populate_start(sources, env, index),
            populate_stepper(),
            vendored_entries_of_dirs(),
            replies,
        ),
        after(populate_start(sources, env, index), populate_stepper(), replies) == TurnView::<
            PopulateVendorView,
            PopulateOutcomeView,
        >::Ask(run, request),
    ensures
        0 <= run.at < sources.len(),
        is_vendor_request(sources[run.at], env, index, request),
{
    let start = populate_start(sources, env, index);
    let step = populate_stepper();
    let fits = vendored_entries_of_dirs();
    let holds = |turn: TurnView<PopulateVendorView, PopulateOutcomeView>| populate_is_on_course(
        sources,
        env,
        index,
        turn,
    );
    lemma_from_is_on_course(VendorStateView { sources, env, index, reports: Seq::empty() }, 0);
    assert forall|run: PopulateVendorView, request: RequestView, reply: ReplyView|
        #![trigger holds(TurnView::Ask(run, request)), step(run, reply)]
        holds(TurnView::Ask(run, request)) && fits(run, reply) implies holds(step(run, reply)) by {
        match vendor_copy(sources[run.at], env, index) {
            Some(way) => {
                lemma_step_is_on_course(way.src, way.dst, run.copy, request, reply);
            },
            None => {},
        }
        match copy_step(run.copy, reply) {
            TurnView::End(CopyOutcomeView::Copied(log)) => {
                let report = VendorReportView::Copied(log);
                lemma_from_is_on_course(reported(run.state, report), run.at + 1);
            },
            _ => {},
        }
    }
    lemma_always(start, step, fits, holds, replies);
    law_sources_keep_their_names(sources[run.at], env, index);
}

/// The directories that the first `n` sources are copied from, in order, without
/// those that cannot be had.
pub open spec fn copies_due(
    sources: Seq<SourceView>,
    env: EnvironmentView,
    index: Seq<CacheEntryView>,
    n: int,
) -> Seq<Seq<u8>>
    decreases n,
{
    if n <= 0 {
        Seq::empty()
    } else {
        let earlier = copies_due(sources, env, index, n - 1);
        match vendor_copy(sources[n - 1], env, index) {
            Some(way) => earlier.push(way.src),
            None => earlier,
        }
    }
}

/// Whether there is one report of each of the first `n` sources, in order: that
/// it was copied where it could be had, and that it is missing where not.
pub open spec fn reports_tell_of(
    sources: Seq<SourceView>,
    env: EnvironmentView,
    index: Seq<CacheEntryView>,
    reports: Seq<VendorReportView>,
    n: int,
) -> bool {
    &&& reports.len() == n
    &&& forall|i: int|
        0 <= i < n ==> match vendor_copy(sources[i], env, index) {
            Some(_) => #[trigger] reports[i] is Copied,
            None => reports[i] == VendorReportView::Missing(sources[i]),
        }
}

/// How far a run has come: `started` are the copies that it has started.
spec fn populate_progress(
    sources: Seq<SourceView>,
    env: EnvironmentView,
    index: Seq<CacheEntryView>,
    turn: TurnView<PopulateVendorView, PopulateOutcomeView>,
    started: Seq<Seq<u8>>,
) -> bool {
    match turn {
        TurnView::Ask(run, _) => {
            &&& is_at_a_source(sources, env, index, run)
            &&& vendor_copy(sources[run.at], env, index) is Some
            &&& started == copies_due(sources, env, index, run.at + 1)
            &&& reports_tell_of(sources, env, index, run.state.reports, run.at)
        },
        TurnView::End(PopulateOutcomeView::Populated(reports)) => {
            &&& started == copies_due(sources, env, index, sources.len() as int)
            &&& reports_tell_of(sources, env, index, reports, sources.len() as int)
        },
        TurnView::End(PopulateOutcomeView::NotCopied { reports, cached, error }) => {
            &&& reports.len() < sources.len()
            &&& reports_tell_of(sources, env, index, reports, reports.len() as int)
        },
    }
}

proof fn lemma_from_progresses(state: VendorStateView, n: int, started: Seq<Seq<u8>>)
    requires
        0 <= n <= state.sources.len(),
        started == copies_due(state.sources, state.env, state.index, n),
        reports_tell_of(state.sources, state.env, state.index, state.reports, n),
    ensures
        ({
            let VendorStateView { sources, env, index, reports } = state;
            match populate_from(state, n) {
                TurnView::Ask(run, request) => {
                    &&& request matches RequestView::IsDir(dir) && populate_progress(
                        sources,
                        env,
                        index,
                        TurnView::Ask(run, request),
                        started.push(dir),
                    )
                    &&& dirs_left(run.copy) == seq![request->IsDir_0]
                },
                TurnView::End(outcome) => populate_progress(
                    sources,
                    env,
                    index,
                    TurnView::End(outcome),
                    started,
                ) && outcome is Populated,
            }
        }),
    decreases state.sources.len() - n,
{
    if n < state.sources.len() {
        match vendor_copy(state.sources[n], state.env, state.index) {
            Some(way) => {
                assert(Seq::<Seq<u8>>::empty().push(way.src) =~= seq![way.src]);
            },
            None => {
                let report = VendorReportView::Missing(state.sources[n]);
                let more = reported(state, report);
                assert forall|i: int| 0 <= i < n + 1 implies match vendor_copy(
                    state.sources[i],
                    state.env,
                    state.index,
                ) {
                    Some(_) => #[trigger] more.reports[i] is Copied,
                    None => more.reports[i] == VendorReportView::Missing(state.sources[i]),
                } by {
                    if i < n {
                        assert(more.reports[i] == state.reports[i]);
                    }
                }
                lemma_from_progresses(more, n + 1, started);
            },
        }
    }
}

/// A source that was copied is noted.
proof fn lemma_copied_is_noted(state: VendorStateView, n: int, log: Seq<ActionView>)
    requires
        0 <= n < state.sources.len(),
        vendor_copy(state.sources[n], state.env, state.index) is Some,
        reports_tell_of(state.sources, state.env, state.index, state.reports, n),
    ensures
        reports_tell_of(
            state.sources,
            state.env,
            state.index,
            reported(state, VendorReportView::Copied(log)).reports,
            n + 1,
        ),
{
    let reports = reported(state, VendorReportView::Copied(log)).reports;
    assert forall|i: int| 0 <= i < n + 1 implies match vendor_copy(
        state.sources[i],
        state.env,
        state.index,
    ) {
        Some(_) => #[trigger] reports[i] is Copied,
        None => reports[i] == VendorReportView::Missing(state.sources[i]),
    } by {
        if i < n {
            assert(reports[i] == state.reports[i]);
        }
    }
}

proof fn lemma_populate_so_far(
    sources: Seq<SourceView>,
    env: EnvironmentView,
    index: Seq<CacheEntryView>,
    replies: Seq<ReplyView>,
)
    ensures
        populate_progress(
            sources,
            env,
            index,
            after(populate_start(sources, env, index), populate_stepper(), replies),
            copies_started(
                requests(populate_start(sources, env, index), populate_stepper(), replies),
            ),
        ),
    decreases replies.len(),
{
    let start = populate_start(sources, env, index);
    let step = populate_stepper();
    let asked = requests(start, step, replies);
    if replies.len() == 0 {
        let state = VendorStateView { sources, env, index, reports: Seq::empty() };
        lemma_from_progresses(state, 0, Seq::empty());
        reveal_with_fuel(copies_started, 2);
        match start {
            TurnView::Ask(_, request) => {
                assert(asked =~= seq![request]);
                assert(asked.drop_last() =~= Seq::<RequestView>::empty());
            },
            TurnView::End(_) => {},
        }
    } else {
        let earlier = replies.drop_last();
        lemma_populate_so_far(sources, env, index, earlier);
        let asked_before = requests(start, step, earlier);
        match after(start, step, earlier) {
            TurnView::Ask(was, _) => {
                match copy_step(was.copy, replies.last()) {
                    TurnView::Ask(_, request) => {
                        assert(!(request is IsDir));
                    },
                    TurnView::End(CopyOutcomeView::Copied(log)) => {
                        lemma_copied_is_noted(was.state, was.at, log);
                        lemma_from_progresses(
                            reported(was.state, VendorReportView::Copied(log)),
                            was.at + 1,
                            copies_started(asked_before),
                        );
                    },
                    TurnView::End(CopyOutcomeView::Failed(_)) => {},
                }
                match after(start, step, replies) {
                    TurnView::Ask(run, request) => {
                        assert(asked == asked_before.push(request));
                        assert(asked.drop_last() =~= asked_before);
                    },
                    TurnView::End(_) => {},
                }
            },
            TurnView::End(_) => {},
        }
    }
}

/// Where filling the vendor directory comes to its end, a copy was started of
/// every source that could be had, each once and in the order of the
/// configuration, and there is a report of every source, in that order: that it
/// was copied, or that it is missing.
pub proof fn law_populate_takes_every_source(
    sources: Seq<SourceView>,
    env: EnvironmentView,
    index: Seq<CacheEntryView>,
    replies: Seq<ReplyView>,
    reports: Seq<VendorReportView>,
)
    requires
        after(populate_start(sources, env, index), populate_stepper(), replies) == TurnView::<
            PopulateVendorView,
            PopulateOutcomeView,
        >::End(PopulateOutcomeView::Populated(reports)),
    ensures
        copies_started(requests(populate_start(sources, env, index), populate_stepper(), replies))
            == copies_due(sources, env, index, sources.len() as int),
        reports_tell_of(sources, env, index, reports, sources.len() as int),
{
    lemma_populate_so_far(sources, env, index, replies);
}

proof fn lemma_full_cache_leaves_nothing_out(
    sources: Seq<SourceView>,
    env: EnvironmentView,
    index: Seq<CacheEntryView>,
    n: int,
)
    requires
        has_remotes(sources, index, sources.len() as int),
        0 <= n <= sources.len(),
    ensures
        copies_due(sources, env, index, n).len() == n,
        forall|i: int|
            0 <= i < n ==> (vendor_copy(#[trigger] sources[i], env, index) matches Some(way)
                && copies_due(sources, env, index, n)[i] == way.src),
    decreases n,
{
    if n > 0 {
        lemma_full_cache_leaves_nothing_out(sources, env, index, n - 1);
        law_full_cache_gives_every_source(sources, env, index, n - 1);
    }
}

/// Where every remote source is in the cache, filling the vendor directory does
/// not come to its end without a copy of every source of the configuration.
pub proof fn law_full_cache_is_vendored_whole(
    sources: Seq<SourceView>,
    env: EnvironmentView,
    index: Seq<CacheEntryView>,
    replies: Seq<ReplyView>,
    reports: Seq<VendorReportView>,
    i: int,
)
    requires
        has_remotes(sources, index, sources.len() as int),
        after(populate_start(sources, env, index), populate_stepper(), replies) == TurnView::<
            PopulateVendorView,
            PopulateOutcomeView,
        >::End(PopulateOutcomeView::Populated(reports)),
        0 <= i < sources.len(),
    ensures
        ({
            let started = copies_started(
                requests(populate_start(sources, env, index), populate_stepper(), replies),
            );
            &&& started.len() == sources.len()
            &&& vendor_copy(sources[i], env, index) matches Some(way) && started[i] == way.src
            &&& reports[i] is Copied
        }),
{
    law_populate_takes_every_source(sources, env, index, replies, reports);
    lemma_full_cache_leaves_nothing_out(sources, env, index, sources.len() as int);
    assert(vendor_copy(sources[i], env, index) is Some);
}

proof fn lemma_populate_covers_so_far(
    sources: Seq<SourceView>,
    env: EnvironmentView,
    index: Seq<CacheEntryView>,
    replies: Seq<ReplyView>,
)
    requires
        all_fit(
            populate_start(sources, env, index),
            populate_stepper(),
            vendored_entries_of_dirs(),
            replies,
        ),
    ensures
        ({
            let start = populate_start(sources, env, index);
            let asked = requests(start, populate_stepper(), replies);
            after(start, populate_stepper(), replies) matches TurnView::Ask(run, _) ==> {
                &&& files_copied(asked) == wanted_told(replies)
                &&& dirs_opened(asked).to_multiset().add(dirs_left(run.copy).to_multiset())
                    == dirs_told(replies).to_multiset().add(
                    copies_due(sources, env, index, run.at + 1).to_multiset(),
                )
            }
        }),
    decreases replies.len(),
{
    broadcast use vstd::seq_lib::group_to_multiset_ensures;
    let start = populate_start(sources, env, index);
    let step = populate_stepper();
    let asked = requests(start, step, replies);
    let none = Seq::<Seq<u8>>::empty();
    if replies.len() == 0 {
        let state = VendorStateView { sources, env, index, reports: Seq::empty() };
        lemma_from_progresses(state, 0, none);
        match start {
            TurnView::Ask(run, request) => {
                lemma_one_more_request(Seq::empty(), request);
                assert(files_copied(asked) =~= none);
                assert(dirs_opened(asked) =~= none);
                assert(copies_due(sources, env, index, run.at + 1) =~= dirs_left(run.copy));
            },
            TurnView::End(_) => {},
        }
    } else {
        let earlier = replies.drop_last();
        lemma_populate_covers_so_far(sources, env, index, earlier);
        lemma_populate_so_far(sources, env, index, earlier);
        lemma_one_more_reply(replies);
        let before = requests(start, step, earlier);
        match (after(start, step, earlier), after(start, step, replies)) {
            (TurnView::Ask(was, _), TurnView::Ask(run, request)) => {
                let reply = replies.last();
                lemma_one_more_request(before, request);
                lemma_step_covers(was.copy, reply);
                match copy_step(was.copy, reply) {
                    TurnView::Ask(copy, _) => {
                        lemma_covered_on(
                            dirs_opened(before),
                            dirs_left(was.copy),
                            dirs_told(earlier),
                            copies_due(sources, env, index, run.at + 1),
                            opened_by(request),
                            dirs_left(copy),
                            dirs_by(reply),
                        );
                    },
                    TurnView::End(CopyOutcomeView::Copied(log)) => {
                        lemma_copied_is_noted(was.state, was.at, log);
                        let started = copies_started(before);
                        lemma_from_progresses(
                            reported(was.state, VendorReportView::Copied(log)),
                            was.at + 1,
                            started,
                        );
                        let dir = request->IsDir_0;
                        let opened = dirs_opened(before).to_multiset();
                        assert(dirs_left(was.copy) =~= none);
                        assert(wanted_told(replies) =~= wanted_told(earlier));
                        assert(dirs_told(replies) =~= dirs_told(earlier));
                        assert(dirs_opened(asked) =~= dirs_opened(before));
                        assert(files_copied(asked) =~= files_copied(before));
                        assert(copies_due(sources, env, index, run.at + 1) == started.push(dir));
                        assert(seq![dir] =~= none.push(dir));
                        assert(opened.add(none.to_multiset()) =~= opened);
                        assert(opened.add(none.push(dir).to_multiset()) =~= opened.insert(dir));
                        assert(dirs_told(earlier).to_multiset().add(
                            started.push(dir).to_multiset(),
                        ) =~= dirs_told(earlier).to_multiset().add(started.to_multiset()).insert(
                            dir,
                        ));
                    },
                    TurnView::End(CopyOutcomeView::Failed(_)) => {},
                }
            },
            _ => {},
        }
    }
}

/// Filling the vendor directory misses nothing: where it comes to its end, it has
/// asked for every wanted file that it was told of, in order, and has opened the
/// directory of every source that could be had and every directory that it was
/// told of and does not pass over, each as often as it was told of it.
pub proof fn law_populate_misses_nothing(
    sources: Seq<SourceView>,
    env: EnvironmentView,
    index: Seq<CacheEntryView>,
    replies: Seq<ReplyView>,
    last: ReplyView,
    reports: Seq<VendorReportView>,
)
    requires
        all_fit(
            populate_start(sources, env, index),
            populate_stepper(),
            vendored_entries_of_dirs(),
            replies.push(last),
        ),
        after(populate_start(sources, env, index), populate_stepper(), replies) is Ask,
        after(populate_start(sources, env, index), populate_stepper(), replies.push(last))
            == TurnView::<PopulateVendorView, PopulateOutcomeView>::End(
            PopulateOutcomeView::Populated(reports),
        ),
    ensures
        ({
            let asked = requests(
                populate_start(sources, env, index),
                populate_stepper(),
                replies.push(last),
            );
            &&& files_copied(asked) == wanted_told(replies.push(last))
            &&& dirs_opened(asked).to_multiset() == dirs_told(
                replies.push(last),
            ).to_multiset().add(
                copies_due(sources, env, index, sources.len() as int).to_multiset(),
            )
        }),
{
    broadcast use vstd::seq_lib::group_to_multiset_ensures;
    let start = populate_start(sources, env, index);
    let step = populate_stepper();
    let all = replies.push(last);
    let none = Seq::<Seq<u8>>::empty();
    assert(all.drop_last() =~= replies);
    lemma_populate_covers_so_far(sources, env, index, replies);
    lemma_populate_so_far(sources, env, index, replies);
    lemma_one_more_reply(all);
    match after(start, step, replies) {
        TurnView::Ask(run, _) => {
            lemma_step_covers(run.copy, last);
            match copy_step(run.copy, last) {
                TurnView::End(CopyOutcomeView::Copied(log)) => {
                    lemma_copied_is_noted(run.state, run.at, log);
                    lemma_from_progresses(
                        reported(run.state, VendorReportView::Copied(log)),
                        run.at + 1,
                        copies_started(requests(start, step, replies)),
                    );
                    assert(wanted_told(all) =~= wanted_told(replies));
                    assert(dirs_told(all) =~= dirs_told(replies));
                    assert(dirs_left(run.copy) =~= none);
                    let opened = dirs_opened(requests(start, step, replies)).to_multiset();
                    assert(opened.add(none.to_multiset()) =~= opened);
                },
                _ => {},
            }
        },
        TurnView::End(_) => {},
    }
}

// ---------------------------------------------------------------------------
// Where sources are copied from and to
// ---------------------------------------------------------------------------

/// A remote source that is in the cache is copied from its path in the clone: from
/// the clone itself where it has no path, and else from what the path leads to from
/// there. The first entry of the source says where the clone is.
pub proof fn law_remote_source_is_copied_from_its_path_in_the_clone(
    remote: RemoteSourceView,
    env: EnvironmentView,
    index: Seq<CacheEntryView>,
    i: int,
)
    requires
        0 <= i < index.len(),
        index[i].source == SourceView::Remote(remote),
        forall|j: int| 0 <= j < i ==> (#[trigger] index[j]).source != SourceView::Remote(remote),
    ensures
        vendor_copy(SourceView::Remote(remote), env, index) matches Some(way) && {
            let clone = index[i].path;
            let path = vstd::utf8::encode_utf8(remote.path);
            let gap = way.src.len() - clone.len() - path.len();
            &&& way.cached
            &&& path.len() > 0 && path[0] == 0x2f ==> way.src == path
            &&& !(path.len() > 0 && path[0] == 0x2f) ==> {
                &&& gap == (if clone.len() > 0 && clone.last() != 0x2f {
                    1int
                } else {
                    0int
                })
                &&& way.src.take(clone.len() as int) == clone
                &&& gap == 1 ==> way.src[clone.len() as int] == 0x2f
                &&& way.src.skip(clone.len() + gap) == path
                &&& clone.len() > 0 ==> components(way.src) == components(clone) + names(path)
            }
            &&& remote.path.len() == 0 ==> components(way.src) == components(clone)
        },
{
    let clone = index[i].path;
    let path = vstd::utf8::encode_utf8(remote.path);
    law_lookup_finds_the_first_entry(index, SourceView::Remote(remote), i);
    law_join_puts_one_behind_the_other(clone, path);
    lemma_components_of_join(clone, path);
    if remote.path.len() == 0 {
        vstd::utf8::is_ascii_chars_encode_utf8(remote.path);
        assert(path =~= Seq::<u8>::empty());
        law_components_of_one_part(path);
        if clone.len() > 0 {
            law_components_of_one_more_part(clone, path);
            assert(clone.push(0x2f) + path =~= clone.push(0x2f));
            if clone.last() == 0x2f {
                assert(join(clone, path) =~= clone);
            } else {
                assert(join(clone, path) =~= clone.push(0x2f));
            }
        } else {
            assert(join(clone, path) =~= clone);
        }
    }
}

/// A local source is copied from the directory that the configuration names, its
/// path expanded, or from where the cache has it if it is in there.
pub proof fn law_local_source_is_copied_from_where_it_is(
    local: LocalSourceView,
    env: EnvironmentView,
    index: Seq<CacheEntryView>,
)
    ensures
        (forall|j: int|
            0 <= j < index.len() ==> (#[trigger] index[j]).source != SourceView::Local(local)) ==> (
        vendor_copy(SourceView::Local(local), env, index) matches Some(way) && !way.cached
            && way.src == vstd::utf8::encode_utf8(expanded(local.path, env.home, env.vars))),
        forall|i: int|
            0 <= i < index.len() && (#[trigger] index[i]).source == SourceView::Local(local) && (
            forall|j: int|
                0 <= j < i ==> (#[trigger] index[j]).source != SourceView::Local(local)) ==> (
            vendor_copy(SourceView::Local(local), env, index) matches Some(way) && way.cached
                && way.src == index[i].path),
{
    let source = SourceView::Local(local);
    law_lookup_finds_the_source(index, source);
    assert forall|i: int|
        0 <= i < index.len() && (#[trigger] index[i]).source == source && (forall|j: int|
            0 <= j < i ==> (#[trigger] index[j]).source != source) implies (vendor_copy(
        source,
        env,
        index,
    ) matches Some(way) && way.cached && way.src == index[i].path) by {
        law_lookup_finds_the_first_entry(index, source, i);
    }
}

/// There is nothing to copy of a source exactly where it is remote and not in the
/// cache.
pub proof fn law_only_remote_sources_can_be_missing(
    source: SourceView,
    env: EnvironmentView,
    index: Seq<CacheEntryView>,
)
    ensures
        vendor_copy(source, env, index) is None <==> source is Remote && forall|j: int|
            0 <= j < index.len() ==> (#[trigger] index[j]).source != source,
{
    law_lookup_finds_the_source(index, source);
}

/// A source is copied to the directory of its name in `./vendor`, whether it is local
/// or remote, in the cache or not.
pub proof fn law_source_is_copied_to_its_name_in_vendor(
    source: SourceView,
    env: EnvironmentView,
    index: Seq<CacheEntryView>,
    name: Seq<char>,
)
    requires
        match source {
            SourceView::Local(local) => local.name == name,
            SourceView::Remote(remote) => remote.name == name,
        },
    ensures
        vendor_copy(source, env, index) matches Some(way) ==> {
            let dir = vstd::utf8::encode_utf8("./vendor"@);
            &&& way.dst == join(dir, vstd::utf8::encode_utf8(name))
            &&& is_plain_name(vstd::utf8::encode_utf8(name)) ==> components(way.dst) == seq![
                ComponentView::CurDir,
                ComponentView::Normal(vstd::utf8::encode_utf8("vendor"@)),
                ComponentView::Normal(vstd::utf8::encode_utf8(name)),
            ]
        },
{
    law_lookup_finds_the_source(index, source);
    law_generator_finds_what_is_vendored(name);
    law_vendor_is_below_the_working_directory();
    if is_plain_name(vstd::utf8::encode_utf8(name)) {
        lemma_join_plain_name(vendor_dir(), vstd::utf8::encode_utf8(name));
        if vendor_copy(source, env, index) is Some {
            assert(components(vendor_copy(source, env, index)->0.dst) =~= seq![
                ComponentView::CurDir,
                ComponentView::Normal(vstd::utf8::encode_utf8("vendor"@)),
                ComponentView::Normal(vstd::utf8::encode_utf8(name)),
            ]);
        }
    }
}

/// The vendor directory is the one of that name in the working directory.
pub proof fn law_vendor_is_below_the_working_directory()
    ensures
        vendor_dir() == vstd::utf8::encode_utf8("./vendor"@),
        components(vendor_dir()) == seq![
            ComponentView::CurDir,
            ComponentView::Normal(vstd::utf8::encode_utf8("vendor"@)),
        ],
{
    let dot = vstd::utf8::encode_utf8("."@);
    let name = vstd::utf8::encode_utf8("vendor"@);
    reveal_strlit(".");
    reveal_strlit("vendor");
    reveal_strlit("./vendor");
    vstd::utf8::is_ascii_chars_encode_utf8("."@);
    vstd::utf8::is_ascii_chars_encode_utf8("vendor"@);
    vstd::utf8::is_ascii_chars_encode_utf8("./vendor"@);
    assert(dot =~= seq![0x2eu8]);
    assert(vendor_dir() =~= vstd::utf8::encode_utf8("./vendor"@));
    assert(dot.push(0x2f) + name =~= vendor_dir());
    assert(!name.contains(0x2f)) by {
        assert forall|i: int| 0 <= i < name.len() implies name[i] != 0x2f by {
            assert(name[i] == "vendor"@[i] as u8);
        }
    }
    assert(!dot.contains(0x2f));
    law_components_of_one_part(dot);
    law_components_of_one_more_part(dot, name);
    assert(components(vendor_dir()) =~= seq![
        ComponentView::CurDir,
        ComponentView::Normal(name),
    ]);
}

/// Emptying the vendor directory asks for it to be removed, and, where that was done,
/// for it to be made. It says that it was emptied exactly where it was removed,
/// whatever came of making it.
pub proof fn law_vendor_is_removed_and_made(removed: ReplyView, made: ReplyView)
    ensures
        clean_vendor_start() matches TurnView::Ask(first, request) && {
            let dir = vstd::utf8::encode_utf8("./vendor"@);
            &&& request == RequestView::RemoveDirAll(dir)
            &&& removed is Done ==> (clean_vendor_step(first, removed) matches TurnView::Ask(
                second,
                request,
            ) && request == RequestView::CreateDir(dir) && clean_vendor_step(second, made)
                == TurnView::<CleanVendor, CleanVendorOutcome>::End(CleanVendorOutcome::Emptied))
            &&& !(removed is Done) ==> clean_vendor_step(first, removed) == TurnView::<
                CleanVendor,
                CleanVendorOutcome,
            >::End(CleanVendorOutcome::NotRemoved)
        },
{
    law_vendor_is_below_the_working_directory();
}

// ---------------------------------------------------------------------------
// What follows a reply
// ---------------------------------------------------------------------------

/// What holds of a run wherever it waits.
spec fn populate_holds(
    sources: Seq<SourceView>,
    env: EnvironmentView,
    index: Seq<CacheEntryView>,
    turn: TurnView<PopulateVendorView, PopulateOutcomeView>,
) -> bool {
    turn matches TurnView::Ask(run, request) ==> {
        &&& run.state.sources == sources
        &&& run.state.env == env
        &&& run.state.index == index
        &&& 0 <= run.at < sources.len()
        &&& request == copy_waits_for(run.copy)
        &&& vendor_copy(sources[run.at], env, index) matches Some(way) && way.cached == run.cached
    }
}

proof fn lemma_from_populates(state: VendorStateView, n: int)
    requires
        0 <= n,
    ensures
        populate_holds(state.sources, state.env, state.index, populate_from(state, n)),
        populate_from(state, n) matches TurnView::End(outcome) ==> outcome is Populated,
    decreases state.sources.len() - n,
{
    if n < state.sources.len() && vendor_copy(state.sources[n], state.env, state.index) is None {
        let report = VendorReportView::Missing(state.sources[n]);
        lemma_from_populates(reported(state, report), n + 1);
    }
}

proof fn lemma_populate_holds(
    sources: Seq<SourceView>,
    env: EnvironmentView,
    index: Seq<CacheEntryView>,
    replies: Seq<ReplyView>,
)
    ensures
        populate_holds(
            sources,
            env,
            index,
            after(populate_start(sources, env, index), populate_stepper(), replies),
        ),
    decreases replies.len(),
{
    if replies.len() == 0 {
        let state = VendorStateView { sources, env, index, reports: Seq::empty() };
        lemma_from_populates(state, 0);
    } else {
        let earlier = replies.drop_last();
        lemma_populate_holds(sources, env, index, earlier);
        match after(populate_start(sources, env, index), populate_stepper(), earlier) {
            TurnView::Ask(run, request) => match copy_step(run.copy, replies.last()) {
                TurnView::End(CopyOutcomeView::Copied(log)) => {
                    let report = VendorReportView::Copied(log);
                    lemma_from_populates(reported(run.state, report), run.at + 1);
                },
                _ => {},
            },
            TurnView::End(_) => {},
        }
    }
}

/// Filling the vendor directory stops exactly where the copy of a source went wrong:
/// the directory of the source is not there, a directory could not be made or opened,
/// an entry could not be read, or a file could not be copied. It says which of these it
/// was, whether the source came out of the cache, and what became of the sources before
/// it. After every other reply it goes on, or ends well.
pub proof fn law_populate_stops_only_where_a_copy_fails(
    sources: Seq<SourceView>,
    env: EnvironmentView,
    index: Seq<CacheEntryView>,
    replies: Seq<ReplyView>,
    run: PopulateVendorView,
    request: RequestView,
    reply: ReplyView,
)
    requires
        after(populate_start(sources, env, index), populate_stepper(), replies) == TurnView::<
            PopulateVendorView,
            PopulateOutcomeView,
        >::Ask(run, request),
    ensures
        ({
            let next = after(
                populate_start(sources, env, index),
                populate_stepper(),
                replies.push(reply),
            );
            let error = match request {
                RequestView::IsDir(_) => if reply == ReplyView::Answer(true) {
                    None
                } else {
                    Some(CopyError::NotADirectory)
                },
                RequestView::Exists(_) => None,
                RequestView::CreateDirAll(_) => if reply is Done {
                    None
                } else {
                    Some(CopyError::CreateDir)
                },
                RequestView::OpenDir(_) => if reply is Done {
                    None
                } else {
                    Some(CopyError::OpenDir)
                },
                RequestView::NextEntry => if reply is Entry || reply is EndOfDir {
                    None
                } else {
                    Some(CopyError::ReadEntry)
                },
                _ => if reply is Done {
                    None
                } else {
                    Some(CopyError::CopyFile)
                },
            };
            &&& 0 <= run.at < sources.len()
            &&& match error {
                Some(error) => next == TurnView::<PopulateVendorView, PopulateOutcomeView>::End(
                    PopulateOutcomeView::NotCopied {
                        reports: run.state.reports,
                        cached: exists|i: int|
                            0 <= i < index.len() && (#[trigger] index[i]).source
                                == sources[run.at],
                        error,
                    },
                ),
                None => next matches TurnView::End(outcome) ==> outcome is Populated,
            }
        }),
{
    lemma_populate_holds(sources, env, index, replies);
    law_lookup_finds_the_source(index, sources[run.at]);
    assert(replies.push(reply).drop_last() =~= replies);
    if let TurnView::End(CopyOutcomeView::Copied(log)) = copy_step(run.copy, reply) {
        lemma_from_populates(reported(run.state, VendorReportView::Copied(log)), run.at + 1);
    }
}

/// A copy of a source begins at the directory that the source is copied from.
pub proof fn law_populate_begins_each_copy_at_its_source(
    sources: Seq<SourceView>,
    env: EnvironmentView,
    index: Seq<CacheEntryView>,
    replies: Seq<ReplyView>,
    run: PopulateVendorView,
    dir: Seq<u8>,
)
    requires
        after(populate_start(sources, env, index), populate_stepper(), replies) == TurnView::<
            PopulateVendorView,
            PopulateOutcomeView,
        >::Ask(run, RequestView::IsDir(dir)),
    ensures
        0 <= run.at < sources.len(),
        vendor_copy(sources[run.at], env, index) matches Some(way) && way.src == dir,
    decreases replies.len(),
{
    lemma_populate_holds(sources, env, index, replies);
    if replies.len() == 0 {
        lemma_from_begins(VendorStateView { sources, env, index, reports: Seq::empty() }, 0);
    } else {
        let earlier = replies.drop_last();
        lemma_populate_holds(sources, env, index, earlier);
        match after(populate_start(sources, env, index), populate_stepper(), earlier) {
            TurnView::Ask(was, _) => match copy_step(was.copy, replies.last()) {
                TurnView::End(CopyOutcomeView::Copied(log)) => {
                    let report = VendorReportView::Copied(log);
                    lemma_from_begins(reported(was.state, report), was.at + 1);
                },
                _ => {},
            },
            TurnView::End(_) => {},
        }
    }
}

proof fn lemma_from_begins(state: VendorStateView, n: int)
    requires
        0 <= n,
    ensures
        populate_from(state, n) matches TurnView::Ask(run, request) ==> (vendor_copy(
            state.sources[run.at],
            state.env,
            state.index,
        ) matches Some(way) && request == RequestView::IsDir(way.src)),
    decreases state.sources.len() - n,
{
    if n < state.sources.len() && vendor_copy(state.sources[n], state.env, state.index) is None {
        let report = VendorReportView::Missing(state.sources[n]);
        lemma_from_begins(reported(state, report), n + 1);
    }
}

} // verus!
