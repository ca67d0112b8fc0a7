//! What follows a reply: which ones a run goes on after, which ones end it, and
//! with what.
use crate::actions::TargetBuildActionsView;
use crate::checkout::{
    checkout_start, checkout_stepper, CheckoutError, CheckoutOutcomeView, RemoteCheckoutView,
};
use crate::command::{stage_command, CheckoutStage};
use crate::config::{RemoteSourceView, SourceView};
use crate::copy::{
    copy_start, is_git_dir, is_wanted_file, law_nothing_is_decided_without_a_name, CopyDirView, CopyError,
    CopyOutcomeView, CopyPointView,
};
use crate::index::CacheEntryView;
use crate::mirror::{copy_stepper, dirs_left, entries_of_dirs, lemma_on_course};
use crate::path::{components, file_name, join};
use crate::protocol::{after, all_fit, requests, ReplyView, RequestView, TurnView};
use crate::removal::{
    clean_start, clean_stepper, CleanErrorView, CleanOutcomeView, CleanPointView, TargetCleanView,
};
use crate::walk::{
    dirs_opened, stat_start, stat_stepper, StatErrorView, StatOutcomeView, TargetStatView,
};
use vstd::prelude::*;

verus! {

// ---------------------------------------------------------------------------
// A look
// ---------------------------------------------------------------------------

/// What a look waits for.
pub open spec fn look_waits_for(run: TargetStatView) -> RequestView {
    match run.opening {
        Some(dir) => RequestView::OpenDir(dir),
        None => RequestView::NextEntry,
    }
}

proof fn lemma_look_waits(dir: Seq<u8>, replies: Seq<ReplyView>)
    ensures
        after(stat_start(dir), stat_stepper(), replies) matches TurnView::Ask(run, request)
            ==> request == look_waits_for(run),
    decreases replies.len(),
{
    if replies.len() > 0 {
        lemma_look_waits(dir, replies.drop_last());
    }
}

/// A look opens its directory first.
pub proof fn law_look_opens_its_directory(dir: Seq<u8>)
    ensures
        stat_start(dir) matches TurnView::Ask(_, request) && request == RequestView::OpenDir(dir),
{
}

/// A look reads on after every entry, whatever it is, and opens another directory or
/// ends well where one has no more. It fails exactly where a directory could not be
/// opened, or an entry not be read, and says which.
pub proof fn law_look_fails_only_where_reading_does(
    dir: Seq<u8>,
    replies: Seq<ReplyView>,
    run: TargetStatView,
    request: RequestView,
    reply: ReplyView,
)
    requires
        after(stat_start(dir), stat_stepper(), replies) == TurnView::<
            TargetStatView,
            StatOutcomeView,
        >::Ask(run, request),
    ensures
        ({
            let next = after(stat_start(dir), stat_stepper(), replies.push(reply));
            match request {
                RequestView::OpenDir(d) => if reply is Done {
                    next matches TurnView::Ask(_, asked) && asked is NextEntry
                } else {
                    next matches TurnView::End(StatOutcomeView::Failed(error)) && error
                        == StatErrorView::ReadDir(d)
                },
                RequestView::NextEntry => match reply {
                    ReplyView::Entry { .. } => next matches TurnView::Ask(_, asked)
                        && asked is NextEntry,
                    ReplyView::EndOfDir => match next {
                        TurnView::Ask(_, asked) => asked is OpenDir,
                        TurnView::End(outcome) => outcome is Found,
                    },
                    _ => next matches TurnView::End(StatOutcomeView::Failed(error)) && error
                        is ReadEntry,
                },
                _ => false,
            }
        }),
{
    lemma_look_waits(dir, replies);
    assert(replies.push(reply).drop_last() =~= replies);
}

// ---------------------------------------------------------------------------
// A removal
// ---------------------------------------------------------------------------

/// What a removal waits for.
pub open spec fn removal_waits_for(run: TargetCleanView) -> RequestView {
    match run.at {
        CleanPointView::File(n) => RequestView::RemoveFile(run.files[n]),
        CleanPointView::Probe(n) => RequestView::IsEmptyDir(run.dirs[n]),
        CleanPointView::Dir(n) => RequestView::RemoveDir(run.dirs[n]),
    }
}

proof fn lemma_removal_waits(record: TargetBuildActionsView, replies: Seq<ReplyView>)
    ensures
        after(clean_start(record), clean_stepper(), replies) matches TurnView::Ask(run, request)
            ==> request == removal_waits_for(run),
    decreases replies.len(),
{
    if replies.len() > 0 {
        lemma_removal_waits(record, replies.drop_last());
    }
}

/// A removal goes on after everything that was done. It stops exactly at the first
/// thing that went wrong: a file or an empty directory that could not be removed, a
/// directory that could not be read, or one that is not empty; and says which. A
/// directory is removed right after word came that it is empty.
pub proof fn law_removal_stops_only_at_what_goes_wrong(
    record: TargetBuildActionsView,
    replies: Seq<ReplyView>,
    run: TargetCleanView,
    request: RequestView,
    reply: ReplyView,
)
    requires
        after(clean_start(record), clean_stepper(), replies) == TurnView::<
            TargetCleanView,
            CleanOutcomeView,
        >::Ask(run, request),
    ensures
        ({
            let next = after(clean_start(record), clean_stepper(), replies.push(reply));
            match request {
                RequestView::RemoveFile(p) => if reply is Done {
                    next matches TurnView::End(outcome) ==> outcome is Cleaned
                } else {
                    next matches TurnView::End(CleanOutcomeView::Failed(error)) && error
                        == CleanErrorView::RemoveFile(p)
                },
                RequestView::IsEmptyDir(p) => match reply {
                    ReplyView::Answer(true) => next matches TurnView::Ask(_, asked) && asked
                        == RequestView::RemoveDir(p),
                    ReplyView::Answer(false) => next matches TurnView::End(
                        CleanOutcomeView::Failed(error),
                    ) && error == CleanErrorView::NotEmpty(p),
                    _ => next matches TurnView::End(CleanOutcomeView::Failed(error)) && error
                        == CleanErrorView::ReadDir(p),
                },
                RequestView::RemoveDir(p) => if reply is Done {
                    next matches TurnView::End(outcome) ==> outcome is Cleaned
                } else {
                    next matches TurnView::End(CleanOutcomeView::Failed(error)) && error
                        == CleanErrorView::RemoveDir(p)
                },
                _ => false,
            }
        }),
{
    lemma_removal_waits(record, replies);
    assert(replies.push(reply).drop_last() =~= replies);
}

// ---------------------------------------------------------------------------
// A copy
// ---------------------------------------------------------------------------

/// What a copy waits for.
pub open spec fn copy_waits_for(run: CopyDirView) -> RequestView {
    match run.at {
        CopyPointView::Checking { src } => RequestView::IsDir(src),
        CopyPointView::Probing { target, .. } => RequestView::Exists(target),
        CopyPointView::Creating { target, .. } => RequestView::CreateDirAll(target),
        CopyPointView::Opening { dir, .. } => RequestView::OpenDir(dir),
        CopyPointView::Reading { .. } => RequestView::NextEntry,
        CopyPointView::Copying { from, to, .. } => RequestView::CopyFile { src: from, dst: to },
    }
}

pub proof fn lemma_copy_waits(src: Seq<u8>, dst: Seq<u8>, replies: Seq<ReplyView>)
    ensures
        after(copy_start(src, dst), copy_stepper(), replies) matches TurnView::Ask(run, request)
            ==> request == copy_waits_for(run),
    decreases replies.len(),
{
    if replies.len() > 0 {
        lemma_copy_waits(src, dst, replies.drop_last());
    }
}

/// A copy goes on after everything that was done, and after every entry that it is
/// told of. It fails exactly at the first thing that went wrong, and says what: that
/// there is no directory to copy, that a directory could not be made or opened, that
/// an entry could not be read, or that a file could not be copied. A directory that is
/// not there is asked for, a wanted file is asked to be copied right after word of it
/// came, and nothing else is.
pub proof fn law_copy_fails_only_at_what_goes_wrong(
    src: Seq<u8>,
    dst: Seq<u8>,
    replies: Seq<ReplyView>,
    run: CopyDirView,
    request: RequestView,
    reply: ReplyView,
)
    requires
        after(copy_start(src, dst), copy_stepper(), replies) == TurnView::<
            CopyDirView,
            CopyOutcomeView,
        >::Ask(run, request),
    ensures
        replies.len() == 0 ==> request == RequestView::IsDir(src),
        ({
            let next = after(copy_start(src, dst), copy_stepper(), replies.push(reply));
            match request {
                RequestView::IsDir(_) => if reply == ReplyView::Answer(true) {
                    next matches TurnView::Ask(_, asked) && asked is Exists
                } else {
                    next matches TurnView::End(CopyOutcomeView::Failed(error)) && error
                        == CopyError::NotADirectory
                },
                RequestView::Exists(target) => if reply == ReplyView::Answer(true) {
                    next matches TurnView::Ask(_, asked) && asked is OpenDir
                } else {
                    next matches TurnView::Ask(_, asked) && asked == RequestView::CreateDirAll(
                        target,
                    )
                },
                RequestView::CreateDirAll(_) => if reply is Done {
                    next matches TurnView::Ask(_, asked) && asked is OpenDir
                } else {
                    next matches TurnView::End(CopyOutcomeView::Failed(error)) && error
                        == CopyError::CreateDir
                },
                RequestView::OpenDir(_) => if reply is Done {
                    next matches TurnView::Ask(_, asked) && asked is NextEntry
                } else {
                    next matches TurnView::End(CopyOutcomeView::Failed(error)) && error
                        == CopyError::OpenDir
                },
                RequestView::NextEntry => match reply {
                    ReplyView::Entry { path, is_dir } => if !is_dir && is_wanted_file(path) {
                        next matches TurnView::Ask(_, RequestView::CopyFile { src: from, dst: _ })
                            && from == path
                    } else {
                        next matches TurnView::Ask(_, asked) && asked is NextEntry
                    },
                    ReplyView::EndOfDir => match next {
                        TurnView::Ask(_, asked) => asked is Exists,
                        TurnView::End(outcome) => outcome is Copied,
                    },
                    _ => next matches TurnView::End(CopyOutcomeView::Failed(error)) && error
                        == CopyError::ReadEntry,
                },
                RequestView::CopyFile { .. } => if reply is Done {
                    next matches TurnView::Ask(_, asked) && asked is NextEntry
                } else {
                    next matches TurnView::End(CopyOutcomeView::Failed(error)) && error
                        == CopyError::CopyFile
                },
                _ => false,
            }
        }),
{
    lemma_copy_waits(src, dst, replies);
    assert(replies.push(reply).drop_last() =~= replies);
    if let ReplyView::Entry { path, is_dir } = reply {
        if file_name(path) is None {
            law_nothing_is_decided_without_a_name(path);
        }
    }
}

/// A directory is opened right after word came that its copy is there or was made:
/// what was asked about lies below `dst` as the directory lies below `src`.
pub proof fn law_directory_is_read_once_its_copy_is_there(
    src: Seq<u8>,
    dst: Seq<u8>,
    replies: Seq<ReplyView>,
    run: CopyDirView,
    target: Seq<u8>,
    reply: ReplyView,
    next: CopyDirView,
    dir: Seq<u8>,
)
    requires
        all_fit(copy_start(src, dst), copy_stepper(), entries_of_dirs(), replies),
        after(copy_start(src, dst), copy_stepper(), replies) == TurnView::<
            CopyDirView,
            CopyOutcomeView,
        >::Ask(run, RequestView::Exists(target)) || after(
            copy_start(src, dst),
            copy_stepper(),
            replies,
        ) == TurnView::<CopyDirView, CopyOutcomeView>::Ask(run, RequestView::CreateDirAll(target)),
        after(copy_start(src, dst), copy_stepper(), replies.push(reply)) == TurnView::<
            CopyDirView,
            CopyOutcomeView,
        >::Ask(next, RequestView::OpenDir(dir)),
    ensures
        components(dir).len() >= components(src).len(),
        components(dir).take(components(src).len() as int) == components(src),
        components(target) == components(dst) + components(dir).skip(components(src).len() as int),
{
    lemma_on_course(src, dst, replies);
    lemma_copy_waits(src, dst, replies);
    lemma_copy_waits(src, dst, replies.push(reply));
    assert(replies.push(reply).drop_last() =~= replies);
}

// ---------------------------------------------------------------------------
// A checkout
// ---------------------------------------------------------------------------

proof fn lemma_checkout_stands(
    source: RemoteSourceView,
    cache: Seq<u8>,
    name: Seq<char>,
    replies: Seq<ReplyView>,
)
    ensures
        after(checkout_start(source, cache, name), checkout_stepper(), replies)
            matches TurnView::Ask(run, request) ==> {
            &&& run.source == source
            &&& run.cache == cache
            &&& run.name == name
            &&& replies.len() <= (if source.path.len() == 0 {
                1int
            } else {
                2int
            })
            &&& run.stage == (if replies.len() == 0 {
                CheckoutStage::Clone
            } else if replies.len() == 1 && source.path.len() > 0 {
                CheckoutStage::SparseCheckout
            } else {
                CheckoutStage::Checkout
            })
            &&& request == RequestView::Run(stage_command(run.stage, source, cache, name))
        },
    decreases replies.len(),
{
    if replies.len() > 0 {
        lemma_checkout_stands(source, cache, name, replies.drop_last());
    }
}

/// A checkout clones first, then narrows the checkout if the source has a path, and
/// then checks out. It ends with an entry of the source, at the directory of that name
/// in the cache, exactly where git could be started at every step and was successful
/// at all but the last, where it is no matter. It fails at the first step where git
/// could not be started or was not successful, and says which step that is.
pub proof fn law_checkout_ends_by_what_git_says(
    source: RemoteSourceView,
    cache: Seq<u8>,
    name: Seq<char>,
    replies: Seq<ReplyView>,
    run: RemoteCheckoutView,
    request: RequestView,
    reply: ReplyView,
)
    requires
        after(checkout_start(source, cache, name), checkout_stepper(), replies) == TurnView::<
            RemoteCheckoutView,
            CheckoutOutcomeView,
        >::Ask(run, request),
    ensures
        ({
            let next = after(
                checkout_start(source, cache, name),
                checkout_stepper(),
                replies.push(reply),
            );
            let last = if source.path =~= Seq::<char>::empty() {
                1int
            } else {
                2int
            };
            let stage = if replies.len() == 0 {
                CheckoutStage::Clone
            } else if replies.len() == last {
                CheckoutStage::Checkout
            } else {
                CheckoutStage::SparseCheckout
            };
            &&& replies.len() <= last
            &&& request == RequestView::Run(stage_command(stage, source, cache, name))
            &&& match reply {
                ReplyView::Exited { success } => if replies.len() == last {
                    next matches TurnView::End(CheckoutOutcomeView::Cached(entry)) && entry == (
                    CacheEntryView {
                        path: join(cache, vstd::utf8::encode_utf8(name)),
                        source: SourceView::Remote(source),
                    })
                } else if success {
                    next is Ask
                } else {
                    next matches TurnView::End(CheckoutOutcomeView::Failed(error)) && error
                        == CheckoutError::Unsuccessful(stage)
                },
                _ => next matches TurnView::End(CheckoutOutcomeView::Failed(error)) && error
                    == CheckoutError::NotStarted(stage),
            }
        }),
{
    lemma_checkout_stands(source, cache, name, replies);
    assert(replies.push(reply).drop_last() =~= replies);
    if source.path.len() == 0 {
        assert(source.path =~= Seq::<char>::empty());
    }
}

// ---------------------------------------------------------------------------
// In which order directories are read
// ---------------------------------------------------------------------------

/// Whether the replies told of the directories in the list, in that order, at those
/// places; a place before all of them stands for `first`.
spec fn are_told_at(
    replies: Seq<ReplyView>,
    first: Seq<u8>,
    dirs: Seq<Seq<u8>>,
    places: Seq<int>,
) -> bool {
    &&& places.len() == dirs.len()
    &&& forall|i: int|
        0 <= i < places.len() ==> -1 <= #[trigger] places[i] < replies.len() && (if places[i] == -1 {
            dirs[i] == first
        } else {
            replies[places[i]] == ReplyView::Entry { path: dirs[i], is_dir: true }
        })
    &&& forall|i: int, j: int|
        #![trigger places[i], places[j]]
        0 <= i < j < places.len() ==> places[i] < places[j]
}

/// Whether each directory that the replies told of, but for those that are left out,
/// is at one of the places or was opened.
spec fn others_are_opened(
    replies: Seq<ReplyView>,
    asked: Seq<RequestView>,
    skips: spec_fn(Seq<u8>) -> bool,
    places: Seq<int>,
) -> bool {
    forall|k: int|
        0 <= k < replies.len() ==> (#[trigger] replies[k] matches ReplyView::Entry { path, is_dir }
            ==> (is_dir && !skips(path) ==> places.contains(k) || dirs_opened(asked).contains(path)))
}

/// One more reply, which tells of no directory, and one more request.
proof fn lemma_places_stay(
    replies: Seq<ReplyView>,
    asked: Seq<RequestView>,
    request: RequestView,
    skips: spec_fn(Seq<u8>) -> bool,
    first: Seq<u8>,
    dirs: Seq<Seq<u8>>,
    places: Seq<int>,
)
    requires
        replies.len() > 0,
        are_told_at(replies.drop_last(), first, dirs, places),
        others_are_opened(replies.drop_last(), asked, skips, places),
        replies.last() matches ReplyView::Entry { path, is_dir } ==> !is_dir || skips(path),
    ensures
        are_told_at(replies, first, dirs, places),
        others_are_opened(replies, asked.push(request), skips, places),
{
    let earlier = replies.drop_last();
    assert(asked.push(request).drop_last() =~= asked);
    assert forall|i: int| 0 <= i < places.len() implies -1 <= #[trigger] places[i] < replies.len()
        && (if places[i] == -1 {
        dirs[i] == first
    } else {
        replies[places[i]] == ReplyView::Entry { path: dirs[i], is_dir: true }
    }) by {
        if places[i] != -1 {
            assert(replies[places[i]] == earlier[places[i]]);
        }
    }
    assert forall|k: int| 0 <= k < replies.len() implies (#[trigger] replies[k] matches
        ReplyView::Entry { path, is_dir } ==> (is_dir && !skips(path) ==> places.contains(k)
        || dirs_opened(asked.push(request)).contains(path))) by {
        if k < earlier.len() {
            assert(replies[k] == earlier[k]);
            if let ReplyView::Entry { path, is_dir } = replies[k] {
                if dirs_opened(asked).contains(path) {
                    let i = dirs_opened(asked).index_of(path);
                    assert(dirs_opened(asked.push(request))[i] == path);
                }
            }
        }
    }
}

/// The last of the directories is opened.
proof fn lemma_last_is_opened(
    replies: Seq<ReplyView>,
    asked: Seq<RequestView>,
    skips: spec_fn(Seq<u8>) -> bool,
    first: Seq<u8>,
    dirs: Seq<Seq<u8>>,
    places: Seq<int>,
)
    requires
        asked.len() > 0,
        dirs.len() > 0,
        asked.last() == RequestView::OpenDir(dirs.last()),
        are_told_at(replies, first, dirs, places),
        others_are_opened(replies, asked, skips, places),
    ensures
        are_told_at(replies, first, dirs.drop_last(), places.drop_last()),
        others_are_opened(replies, asked, skips, places.drop_last()),
{
    assert(dirs_opened(asked).last() == dirs.last());
    assert(dirs_opened(asked).contains(dirs.last()));
    assert forall|k: int| 0 <= k < replies.len() implies (#[trigger] replies[k] matches
        ReplyView::Entry { path, is_dir } ==> (is_dir && !skips(path) ==>
        places.drop_last().contains(k) || dirs_opened(asked).contains(path))) by {
        if places.contains(k) {
            let i = places.index_of(k);
            if i < places.len() - 1 {
                assert(places.drop_last()[i] == k);
            } else {
                assert(places[places.len() - 1] == k);
            }
        }
    }
    assert forall|i: int| 0 <= i < places.drop_last().len() implies -1
        <= #[trigger] places.drop_last()[i] < replies.len() && (if places.drop_last()[i] == -1 {
        dirs.drop_last()[i] == first
    } else {
        replies[places.drop_last()[i]] == ReplyView::Entry {
            path: dirs.drop_last()[i],
            is_dir: true,
        }
    }) by {
        assert(places.drop_last()[i] == places[i]);
        assert(dirs.drop_last()[i] == dirs[i]);
    }
}

/// A directory that the last reply tells of is the last.
proof fn lemma_told_comes_last(
    replies: Seq<ReplyView>,
    asked: Seq<RequestView>,
    request: RequestView,
    skips: spec_fn(Seq<u8>) -> bool,
    first: Seq<u8>,
    dirs: Seq<Seq<u8>>,
    places: Seq<int>,
    path: Seq<u8>,
)
    requires
        replies.len() > 0,
        are_told_at(replies.drop_last(), first, dirs, places),
        others_are_opened(replies.drop_last(), asked, skips, places),
        replies.last() == (ReplyView::Entry { path, is_dir: true }),
    ensures
        are_told_at(replies, first, dirs.push(path), places.push(replies.len() - 1)),
        others_are_opened(replies, asked.push(request), skips, places.push(replies.len() - 1)),
{
    let earlier = replies.drop_last();
    let more = places.push(replies.len() - 1);
    let now = asked.push(request);
    assert(now.drop_last() =~= asked);
    assert forall|i: int| 0 <= i < more.len() implies -1 <= #[trigger] more[i] < replies.len() && (
    if more[i] == -1 {
        dirs.push(path)[i] == first
    } else {
        replies[more[i]] == ReplyView::Entry { path: dirs.push(path)[i], is_dir: true }
    }) by {
        if i < places.len() {
            assert(more[i] == places[i]);
            if places[i] != -1 {
                assert(replies[places[i]] == earlier[places[i]]);
            }
        }
    }
    assert forall|k: int| 0 <= k < replies.len() implies (#[trigger] replies[k] matches
        ReplyView::Entry { path, is_dir } ==> (is_dir && !skips(path) ==> more.contains(k)
        || dirs_opened(now).contains(path))) by {
        if k < earlier.len() {
            assert(replies[k] == earlier[k]);
            if places.contains(k) {
                let i = places.index_of(k);
                assert(more[i] == k);
            }
            if let ReplyView::Entry { path, is_dir } = replies[k] {
                if dirs_opened(asked).contains(path) {
                    let i = dirs_opened(asked).index_of(path);
                    assert(dirs_opened(now)[i] == path);
                }
            }
        } else {
            assert(more[places.len() as int] == k);
        }
    }
}

/// Of the directories that were told of behind a place, all were opened, if the last
/// place that waits is that one.
proof fn lemma_later_are_opened(
    replies: Seq<ReplyView>,
    asked: Seq<RequestView>,
    skips: spec_fn(Seq<u8>) -> bool,
    places: Seq<int>,
    first: Seq<u8>,
    dirs: Seq<Seq<u8>>,
    k: int,
)
    requires
        are_told_at(replies, first, dirs, places),
        others_are_opened(replies, asked, skips, places),
        places.len() > 0,
        places.last() < k < replies.len(),
    ensures
        replies[k] matches ReplyView::Entry { path, is_dir } ==> (is_dir && !skips(path)
            ==> dirs_opened(asked).contains(path)),
{
    if places.contains(k) {
        let i = places.index_of(k);
        assert(places[i] <= places[places.len() - 1]);
    }
}

proof fn lemma_look_places(dir: Seq<u8>, replies: Seq<ReplyView>) -> (places: Seq<int>)
    ensures
        after(stat_start(dir), stat_stepper(), replies) matches TurnView::Ask(run, _) ==> {
            &&& are_told_at(replies, dir, run.pending, places)
            &&& others_are_opened(
                replies,
                requests(stat_start(dir), stat_stepper(), replies),
                |p: Seq<u8>| false,
                places,
            )
        },
    decreases replies.len(),
{
    let start = stat_start(dir);
    let step = stat_stepper();
    let skips = |p: Seq<u8>| false;
    if replies.len() == 0 {
        assert(seq![dir].drop_last() =~= Seq::<Seq<u8>>::empty());
        Seq::empty()
    } else {
        let earlier = replies.drop_last();
        let reply = replies.last();
        let places = lemma_look_places(dir, earlier);
        lemma_look_waits(dir, earlier);
        let asked = requests(start, step, earlier);
        match (after(start, step, earlier), after(start, step, replies)) {
            (TurnView::Ask(was, _), TurnView::Ask(run, request)) => {
                assert(requests(start, step, replies) == asked.push(request));
                match reply {
                    ReplyView::Entry { path, is_dir } => if is_dir {
                        lemma_told_comes_last(
                            replies, asked, request, skips, dir, was.pending, places, path,
                        );
                        places.push(replies.len() - 1)
                    } else {
                        lemma_places_stay(replies, asked, request, skips, dir, was.pending, places);
                        places
                    },
                    ReplyView::EndOfDir => {
                        lemma_places_stay(replies, asked, request, skips, dir, was.pending, places);
                        lemma_last_is_opened(
                            replies,
                            asked.push(request),
                            skips,
                            dir,
                            was.pending,
                            places,
                        );
                        places.drop_last()
                    },
                    _ => {
                        lemma_places_stay(replies, asked, request, skips, dir, was.pending, places);
                        places
                    },
                }
            },
            _ => places,
        }
    }
}

/// A look goes deep first: where it opens a directory after another, that is the one
/// that it was told of last among those that it has not opened yet. Which reply told of
/// it is handed back.
pub proof fn law_look_goes_deep_first(
    dir: Seq<u8>,
    replies: Seq<ReplyView>,
    run: TargetStatView,
    next: Seq<u8>,
) -> (k: int)
    requires
        replies.len() > 0,
        after(stat_start(dir), stat_stepper(), replies) == TurnView::<
            TargetStatView,
            StatOutcomeView,
        >::Ask(run, RequestView::OpenDir(next)),
    ensures
        -1 <= k < replies.len(),
        k == -1 ==> next == dir,
        k >= 0 ==> replies[k] == (ReplyView::Entry { path: next, is_dir: true }),
        forall|j: int|
            k < j < replies.len() ==> (#[trigger] replies[j] matches ReplyView::Entry {
                path,
                is_dir,
            } ==> (is_dir ==> dirs_opened(
                requests(stat_start(dir), stat_stepper(), replies),
            ).contains(path))),
{
    let start = stat_start(dir);
    let step = stat_stepper();
    let earlier = replies.drop_last();
    let places = lemma_look_places(dir, earlier);
    lemma_look_waits(dir, earlier);
    lemma_look_waits(dir, replies);
    let skips = |p: Seq<u8>| false;
    let asked = requests(start, step, earlier);
    match after(start, step, earlier) {
        TurnView::Ask(was, _) => {
            let now = asked.push(RequestView::OpenDir(next));
            assert(requests(start, step, replies) == now);
            assert(now.drop_last() =~= asked);
            let k = places.last();
            assert(places[places.len() - 1] == k);
            lemma_places_stay(
                replies,
                asked,
                RequestView::OpenDir(next),
                skips,
                dir,
                was.pending,
                places,
            );
            assert forall|j: int| k < j < replies.len() implies (#[trigger] replies[j] matches
                ReplyView::Entry { path, is_dir } ==> (is_dir ==> dirs_opened(
                requests(start, step, replies),
            ).contains(path))) by {
                lemma_later_are_opened(replies, now, skips, places, dir, was.pending, j);
            }
            k
        },
        TurnView::End(_) => -1,
    }
}

proof fn lemma_copy_places(src: Seq<u8>, dst: Seq<u8>, replies: Seq<ReplyView>) -> (places: Seq<
    int,
>)
    requires
        all_fit(copy_start(src, dst), copy_stepper(), entries_of_dirs(), replies),
    ensures
        after(copy_start(src, dst), copy_stepper(), replies) matches TurnView::Ask(run, _) ==> {
            &&& are_told_at(replies, src, dirs_left(run), places)
            &&& others_are_opened(
                replies,
                requests(copy_start(src, dst), copy_stepper(), replies),
                |p: Seq<u8>| is_git_dir(p),
                places,
            )
            &&& run.at matches CopyPointView::Checking { src: p } ==> p == src && run.pending.len()
                == 0
        },
    decreases replies.len(),
{
    let start = copy_start(src, dst);
    let step = copy_stepper();
    let skips = |p: Seq<u8>| is_git_dir(p);
    if replies.len() == 0 {
        assert(dirs_left(start->Ask_0) =~= seq![src]);
        seq![-1int]
    } else {
        let earlier = replies.drop_last();
        let reply = replies.last();
        let places = lemma_copy_places(src, dst, earlier);
        lemma_copy_waits(src, dst, earlier);
        let asked = requests(start, step, earlier);
        match (after(start, step, earlier), after(start, step, replies)) {
            (TurnView::Ask(was, _), TurnView::Ask(run, request)) => {
                let left = dirs_left(was);
                assert(requests(start, step, replies) == asked.push(request));
                match request {
                    RequestView::OpenDir(dir) => {
                        lemma_places_stay(replies, asked, request, skips, src, left, places);
                        assert(left.last() == dir);
                        assert(left.drop_last() =~= dirs_left(run));
                        lemma_last_is_opened(
                            replies,
                            asked.push(request),
                            skips,
                            src,
                            left,
                            places,
                        );
                        places.drop_last()
                    },
                    _ => match reply {
                        ReplyView::Entry { path, is_dir } => if is_dir && !is_git_dir(path) {
                            lemma_told_comes_last(
                                replies, asked, request, skips, src, left, places, path,
                            );
                            assert(dirs_left(run) =~= left.push(path));
                            places.push(replies.len() - 1)
                        } else {
                            lemma_places_stay(replies, asked, request, skips, src, left, places);
                            assert(dirs_left(run) =~= left);
                            places
                        },
                        _ => {
                            lemma_places_stay(replies, asked, request, skips, src, left, places);
                            assert(dirs_left(run) =~= left);
                            places
                        },
                    },
                }
            },
            _ => places,
        }
    }
}

/// A copy goes deep first: where it goes on with a directory, that is the one that it
/// was told of last among those that it has neither opened nor passed over. Which reply
/// told of it is handed back; there is none for `src`.
pub proof fn law_copy_goes_deep_first(
    src: Seq<u8>,
    dst: Seq<u8>,
    replies: Seq<ReplyView>,
    run: CopyDirView,
    next: Seq<u8>,
) -> (k: int)
    requires
        all_fit(copy_start(src, dst), copy_stepper(), entries_of_dirs(), replies),
        after(copy_start(src, dst), copy_stepper(), replies) == TurnView::<
            CopyDirView,
            CopyOutcomeView,
        >::Ask(run, RequestView::OpenDir(next)),
    ensures
        -1 <= k < replies.len(),
        k == -1 ==> next == src,
        k >= 0 ==> replies[k] == (ReplyView::Entry { path: next, is_dir: true }),
        forall|j: int|
            k < j < replies.len() ==> (#[trigger] replies[j] matches ReplyView::Entry {
                path,
                is_dir,
            } ==> (is_dir && !is_git_dir(path) ==> dirs_opened(
                requests(copy_start(src, dst), copy_stepper(), replies),
            ).contains(path))),
{
    let start = copy_start(src, dst);
    let step = copy_stepper();
    let skips = |p: Seq<u8>| is_git_dir(p);
    let earlier = replies.drop_last();
    lemma_copy_waits(src, dst, replies);
    if replies.len() == 0 {
        -1
    } else {
        let places = lemma_copy_places(src, dst, earlier);
        lemma_copy_waits(src, dst, earlier);
        let asked = requests(start, step, earlier);
        match after(start, step, earlier) {
            TurnView::Ask(was, _) => {
                let left = dirs_left(was);
                let now = asked.push(RequestView::OpenDir(next));
                assert(requests(start, step, replies) == now);
                lemma_places_stay(
                    replies,
                    asked,
                    RequestView::OpenDir(next),
                    skips,
                    src,
                    left,
                    places,
                );
                assert(left.last() == next);
                let k = places.last();
                assert(places[places.len() - 1] == k);
                assert forall|j: int| k < j < replies.len() implies (#[trigger] replies[j] matches
                    ReplyView::Entry { path, is_dir } ==> (is_dir && !is_git_dir(path)
                    ==> dirs_opened(requests(start, step, replies)).contains(path))) by {
                    lemma_later_are_opened(replies, now, skips, places, src, left, j);
                }
                k
            },
            TurnView::End(_) => -1,
        }
    }
}

} // verus!
