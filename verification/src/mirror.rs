//! What a whole copy of a directory tree does.
use crate::copy::{
    copy_entry, copy_next, copy_start, copy_step, copy_target, git_dir_name, is_git_dir,
    is_wanted_file, law_only_git_is_left_out, law_wanted_files_are_protobuf_files, ActionView,
    CopyDirView, CopyOutcomeView, CopyPointView,
};
use crate::path::{
    collect, components, file_name, is_absolute, is_plain_name, join, leading,
    lemma_components_of_join, lemma_join_plain_name, names, ComponentView,
};
use crate::protocol::{after, all_fit, lemma_always, requests, ReplyView, RequestView, TurnView};
use crate::search::{lemma_same_filtered, lemma_same_mapped};
use crate::walk::{dirs_opened, entries_told};
use vstd::prelude::*;

verus! {

/// The step of a copy, to follow a whole one with.
pub open spec fn copy_stepper() -> spec_fn(CopyDirView, ReplyView) -> TurnView<
    CopyDirView,
    CopyOutcomeView,
> {
    |run: CopyDirView, reply: ReplyView| copy_step(run, reply)
}

/// The directories that copies were started of, in order.
pub open spec fn copies_started(asked: Seq<RequestView>) -> Seq<Seq<u8>>
    decreases asked.len(),
{
    if asked.len() == 0 {
        Seq::empty()
    } else {
        let earlier = copies_started(asked.drop_last());
        match asked.last() {
            RequestView::IsDir(dir) => earlier.push(dir),
            _ => earlier,
        }
    }
}

/// Whether `path` is a plain name in the directory `dir`.
pub open spec fn is_child(dir: Seq<u8>, path: Seq<u8>) -> bool {
    exists|name: Seq<u8>| is_plain_name(name) && path == #[trigger] join(dir, name)
}

/// Whether a copy is told of an entry only while it reads a directory, and of
/// one that is in there.
pub open spec fn entry_is_of_dir(run: CopyDirView, reply: ReplyView) -> bool {
    match reply {
        ReplyView::Entry { path, is_dir } => match run.at {
            CopyPointView::Reading { dir, target } => is_child(dir, path),
            _ => false,
        },
        _ => true,
    }
}

/// [`entry_is_of_dir`], to hold the replies of a whole copy to.
pub open spec fn entries_of_dirs() -> spec_fn(CopyDirView, ReplyView) -> bool {
    |run: CopyDirView, reply: ReplyView| entry_is_of_dir(run, reply)
}

/// Whether a component is the plain name of a directory that is not passed over.
pub open spec fn is_copied_dir_name(c: ComponentView) -> bool {
    c matches ComponentView::Normal(name) && is_plain_name(name) && name != git_dir_name()
}

/// Whether `dir` is `src` or lies below it, with no directory in between that is
/// passed over.
pub open spec fn is_copied_dir(src: Seq<u8>, dir: Seq<u8>) -> bool {
    let n = components(src).len() as int;
    let cs = components(dir);
    &&& n <= cs.len()
    &&& cs.take(n) == components(src)
    &&& forall|i: int| n <= i < cs.len() ==> is_copied_dir_name(#[trigger] cs[i])
}

/// Whether `to` lies below `dst` as `from` lies below `src`, with no directory
/// in between that is passed over.
pub open spec fn mirrors(src: Seq<u8>, dst: Seq<u8>, from: Seq<u8>, to: Seq<u8>) -> bool {
    let n = components(src).len() as int;
    let cs = components(from);
    &&& n < cs.len()
    &&& cs.take(n) == components(src)
    &&& forall|i: int| n <= i < cs.len() - 1 ==> is_copied_dir_name(#[trigger] cs[i])
    &&& components(to) == components(dst) + cs.skip(n)
}

/// Whether a directory stands where the copy of `dir` belongs.
pub open spec fn is_copy_of_dir(src: Seq<u8>, dst: Seq<u8>, dir: Seq<u8>, target: Seq<u8>) -> bool {
    is_copied_dir(src, dir) && components(target) == components(dst) + components(dir).skip(
        components(src).len() as int,
    )
}

/// Whether a directory stands where the copy of some directory belongs.
pub open spec fn is_copy_destination(src: Seq<u8>, dst: Seq<u8>, target: Seq<u8>) -> bool {
    exists|dir: Seq<u8>| #[trigger] is_copy_of_dir(src, dst, dir, target)
}

/// What a copy of `src` to `dst` may ask for.
pub open spec fn is_copy_request(src: Seq<u8>, dst: Seq<u8>, request: RequestView) -> bool {
    match request {
        RequestView::IsDir(p) => p == src,
        RequestView::OpenDir(p) => is_copied_dir(src, p),
        RequestView::Exists(p) => is_copy_destination(src, dst, p),
        RequestView::CreateDirAll(p) => is_copy_destination(src, dst, p),
        RequestView::CopyFile { src: from, dst: to } => mirrors(src, dst, from, to)
            && is_wanted_file(from),
        RequestView::NextEntry => true,
        _ => false,
    }
}

/// Joining plain names gives the path with those components.
proof fn lemma_collect_plain(cs: Seq<ComponentView>)
    requires
        forall|i: int| 0 <= i < cs.len() ==> is_copied_dir_name(#[trigger] cs[i]),
    ensures
        components(collect(cs)) == cs,
        names(collect(cs)) == cs,
        !is_absolute(collect(cs)),
    decreases cs.len(),
{
    if cs.len() == 0 {
        reveal_with_fuel(crate::path::contributions, 2);
        assert(crate::path::segments(collect(cs)).drop_last() =~= Seq::<Seq<u8>>::empty());
        assert(components(collect(cs)) =~= cs);
        assert(names(collect(cs)) =~= cs);
    } else {
        let front = cs.drop_last();
        lemma_collect_plain(front);
        match cs.last() {
            ComponentView::Normal(name) => {
                assert(is_copied_dir_name(cs[cs.len() - 1]));
                lemma_join_plain_name(collect(front), name);
                assert(components(collect(cs)) =~= cs);
            },
            _ => {
                assert(is_copied_dir_name(cs[cs.len() - 1]));
            },
        }
        let p = collect(cs);
        assert(is_copied_dir_name(cs[0]));
        if leading(p).len() > 0 {
            assert(components(p)[0] == leading(p)[0]);
        }
        assert(leading(p) =~= Seq::<ComponentView>::empty());
        assert(names(p) =~= cs);
    }
}

/// Where a directory below `src` is copied to lies below `dst` in the same way.
proof fn lemma_copy_target(src: Seq<u8>, dst: Seq<u8>, dir: Seq<u8>)
    requires
        is_copied_dir(src, dir),
    ensures
        is_copy_of_dir(src, dst, dir, copy_target(dst, components(src).len(), dir)),
{
    let n = components(src).len();
    let rest = components(dir).skip(n as int);
    assert forall|i: int| 0 <= i < rest.len() implies is_copied_dir_name(#[trigger] rest[i]) by {
        assert(rest[i] == components(dir)[n + i]);
    }
    lemma_collect_plain(rest);
    lemma_components_of_join(dst, collect(rest));
    if dst.len() == 0 {
        reveal_with_fuel(crate::path::contributions, 2);
        assert(crate::path::segments(dst).drop_last() =~= Seq::<Seq<u8>>::empty());
        assert(components(dst) =~= Seq::<ComponentView>::empty());
        assert(components(dst) + rest =~= rest);
    }
}

/// What holds of a copy of `src` to `dst` wherever it stands.
pub open spec fn copy_is_on_course(
    src: Seq<u8>,
    dst: Seq<u8>,
    turn: TurnView<CopyDirView, CopyOutcomeView>,
) -> bool {
    match turn {
        TurnView::Ask(run, request) => {
            &&& run.depth == components(src).len()
            &&& run.dst == dst
            &&& forall|i: int|
                0 <= i < run.pending.len() ==> is_copied_dir(src, #[trigger] run.pending[i])
            &&& match run.at {
                CopyPointView::Checking { src: p } => p == src,
                CopyPointView::Probing { dir, target } => is_copy_of_dir(src, dst, dir, target),
                CopyPointView::Creating { dir, target } => is_copy_of_dir(src, dst, dir, target),
                CopyPointView::Opening { dir, target } => is_copy_of_dir(src, dst, dir, target),
                CopyPointView::Reading { dir, target } => is_copy_of_dir(src, dst, dir, target),
                CopyPointView::Copying { dir, target, from, to } => is_copy_of_dir(
                    src,
                    dst,
                    dir,
                    target,
                ),
            }
            &&& is_copy_request(src, dst, request)
        },
        TurnView::End(_) => true,
    }
}

proof fn lemma_next_is_on_course(
    src: Seq<u8>,
    dst: Seq<u8>,
    pending: Seq<Seq<u8>>,
    log: Seq<ActionView>,
)
    requires
        forall|i: int| 0 <= i < pending.len() ==> is_copied_dir(src, #[trigger] pending[i]),
    ensures
        copy_is_on_course(src, dst, copy_next(components(src).len(), dst, pending, log)),
{
    if pending.len() > 0 {
        let dir = pending.last();
        assert(is_copied_dir(src, pending[pending.len() - 1]));
        lemma_copy_target(src, dst, dir);
        let rest = pending.drop_last();
        assert forall|i: int| 0 <= i < rest.len() implies is_copied_dir(src, #[trigger] rest[i]) by {
            assert(rest[i] == pending[i]);
        }
        let target = copy_target(dst, components(src).len(), dir);
        assert(is_copy_of_dir(src, dst, dir, target));
        assert(is_copy_destination(src, dst, target));
    }
}

proof fn lemma_entry_is_on_course(
    src: Seq<u8>,
    dst: Seq<u8>,
    run: CopyDirView,
    dir: Seq<u8>,
    target: Seq<u8>,
    name: Seq<u8>,
    is_dir: bool,
)
    requires
        copy_is_on_course(src, dst, TurnView::Ask(run, RequestView::NextEntry)),
        run.at == (CopyPointView::Reading { dir, target }),
        is_plain_name(name),
    ensures
        copy_is_on_course(src, dst, copy_entry(run, dir, target, join(dir, name), is_dir)),
{
    let path = join(dir, name);
    let n = components(src).len() as int;
    lemma_join_plain_name(dir, name);
    assert(components(path).take(n) =~= components(dir).take(n));
    if is_dir {
        if !is_git_dir(path) {
            let cs = components(path);
            assert forall|i: int| n <= i < cs.len() implies is_copied_dir_name(#[trigger] cs[i]) by {
                if i < components(dir).len() {
                    assert(cs[i] == components(dir)[i]);
                }
            }
            assert(is_copied_dir(src, path));
        }
    } else if is_wanted_file(path) {
        let to = join(target, name);
        lemma_join_plain_name(target, name);
        let cs = components(path);
        assert forall|i: int| n <= i < cs.len() - 1 implies is_copied_dir_name(#[trigger] cs[i]) by {
            assert(cs[i] == components(dir)[i]);
        }
        assert(components(to) =~= components(dst) + cs.skip(n));
        assert(mirrors(src, dst, path, to));
    }
}

/// A step keeps a copy on its course.
pub proof fn lemma_step_is_on_course(
    src: Seq<u8>,
    dst: Seq<u8>,
    run: CopyDirView,
    request: RequestView,
    reply: ReplyView,
)
    requires
        copy_is_on_course(src, dst, TurnView::Ask(run, request)),
        entry_is_of_dir(run, reply),
    ensures
        copy_is_on_course(src, dst, copy_step(run, reply)),
{
    match run.at {
        CopyPointView::Checking { src: p } => {
            let pending = run.pending.push(p);
            assert(components(p).take(components(src).len() as int) =~= components(src));
            assert(is_copied_dir(src, p));
            assert forall|i: int| 0 <= i < pending.len() implies is_copied_dir(
                src,
                #[trigger] pending[i],
            ) by {
                if i < run.pending.len() {
                    assert(pending[i] == run.pending[i]);
                }
            }
            lemma_next_is_on_course(src, dst, pending, run.log);
        },
        CopyPointView::Reading { dir, target } => match reply {
            ReplyView::Entry { path, is_dir } => {
                let name = choose|name: Seq<u8>|
                    is_plain_name(name) && path == #[trigger] join(dir, name);
                lemma_entry_is_on_course(src, dst, run, dir, target, name, is_dir);
            },
            _ => {
                lemma_next_is_on_course(src, dst, run.pending, run.log);
            },
        },
        CopyPointView::Probing { dir, target } => {
            assert(is_copy_destination(src, dst, target));
        },
        _ => {},
    }
}

/// A copy is on its course wherever it stands.
pub proof fn lemma_on_course(src: Seq<u8>, dst: Seq<u8>, replies: Seq<ReplyView>)
    requires
        all_fit(copy_start(src, dst), copy_stepper(), entries_of_dirs(), replies),
    ensures
        copy_is_on_course(src, dst, after(copy_start(src, dst), copy_stepper(), replies)),
{
    let holds = |turn: TurnView<CopyDirView, CopyOutcomeView>| copy_is_on_course(src, dst, turn);
    let fits = entries_of_dirs();
    let step = copy_stepper();
    assert forall|run: CopyDirView, request: RequestView, reply: ReplyView|
        #![trigger holds(TurnView::Ask(run, request)), step(run, reply)]
        holds(TurnView::Ask(run, request)) && fits(run, reply) implies holds(step(run, reply)) by {
        lemma_step_is_on_course(src, dst, run, request, reply);
    }
    lemma_always(copy_start(src, dst), step, fits, holds, replies);
}

/// A copy of `src` to `dst` reads `src` and directories below it alone, copies
/// nothing but protobuf files and what configures them, to where they lie below
/// `dst` as they lie below `src`, makes no directory but those that they belong
/// in, and never goes into a repository's own data.
pub proof fn law_copy_stays_on_course(
    src: Seq<u8>,
    dst: Seq<u8>,
    replies: Seq<ReplyView>,
    run: CopyDirView,
    request: RequestView,
)
    requires
        all_fit(copy_start(src, dst), copy_stepper(), entries_of_dirs(), replies),
        after(copy_start(src, dst), copy_stepper(), replies) == TurnView::<
            CopyDirView,
            CopyOutcomeView,
        >::Ask(run, request),
    ensures
        is_copy_request(src, dst, request),
{
    lemma_on_course(src, dst, replies);
}

// ---------------------------------------------------------------------------
// The log
// ---------------------------------------------------------------------------

/// The requests that change something, in order, as the log would tell of them.
pub open spec fn changes_asked(asked: Seq<RequestView>) -> Seq<ActionView>
    decreases asked.len(),
{
    if asked.len() == 0 {
        Seq::empty()
    } else {
        let earlier = changes_asked(asked.drop_last());
        match asked.last() {
            RequestView::CreateDirAll(dir) => earlier.push(ActionView::CreateDir { dir }),
            RequestView::CopyFile { src, dst } => earlier.push(ActionView::CopyFile { src, dst }),
            _ => earlier,
        }
    }
}

/// What a log tells of that was done, without what was passed over.
pub open spec fn changes_logged(log: Seq<ActionView>) -> Seq<ActionView> {
    log.filter(|a: ActionView| !(a is IgnorePath))
}

/// What a log tells of that was passed over.
pub open spec fn paths_ignored(log: Seq<ActionView>) -> Seq<ActionView> {
    log.filter(|a: ActionView| a is IgnorePath)
}

/// Whether an entry is passed over: a file that has a name and is not wanted, or
/// a directory that holds a repository's own data.
pub open spec fn is_passed_over(path: Seq<u8>, is_dir: bool) -> bool {
    if is_dir {
        is_git_dir(path)
    } else {
        file_name(path) is Some && !is_wanted_file(path)
    }
}

/// The entries that were told of and are passed over, in order, as the log would
/// tell of them.
pub open spec fn ignored_told(replies: Seq<ReplyView>) -> Seq<ActionView>
    decreases replies.len(),
{
    if replies.len() == 0 {
        Seq::empty()
    } else {
        let earlier = ignored_told(replies.drop_last());
        match replies.last() {
            ReplyView::Entry { path, is_dir } => if is_passed_over(path, is_dir) {
                earlier.push(ActionView::IgnorePath { src: path })
            } else {
                earlier
            },
            _ => earlier,
        }
    }
}

/// The change that a copy waits for and has not logged yet.
spec fn change_under_way(at: CopyPointView) -> Seq<ActionView> {
    match at {
        CopyPointView::Creating { dir, target } => seq![ActionView::CreateDir { dir: target }],
        CopyPointView::Copying { dir, target, from, to } => seq![
            ActionView::CopyFile { src: from, dst: to },
        ],
        _ => Seq::empty(),
    }
}

proof fn lemma_log_push(log: Seq<ActionView>, a: ActionView)
    ensures
        changes_logged(log.push(a)) == (if a is IgnorePath {
            changes_logged(log)
        } else {
            changes_logged(log).push(a)
        }),
        paths_ignored(log.push(a)) == (if a is IgnorePath {
            paths_ignored(log).push(a)
        } else {
            paths_ignored(log)
        }),
{
    reveal(Seq::filter);
    assert(log.push(a).drop_last() =~= log);
}

proof fn lemma_log_so_far(src: Seq<u8>, dst: Seq<u8>, replies: Seq<ReplyView>)
    requires
        all_fit(copy_start(src, dst), copy_stepper(), entries_of_dirs(), replies),
    ensures
        ({
            let asked = requests(copy_start(src, dst), copy_stepper(), replies);
            after(copy_start(src, dst), copy_stepper(), replies) matches TurnView::Ask(run, request)
                ==> {
                &&& changes_asked(asked) == changes_logged(run.log) + change_under_way(run.at)
                &&& ignored_told(replies) == paths_ignored(run.log)
                &&& change_under_way(run.at).len() == 0 ==> !(request is CreateDirAll)
                    && !(request is CopyFile)
            }
        }),
    decreases replies.len(),
{
    reveal(Seq::filter);
    let start = copy_start(src, dst);
    let step = copy_stepper();
    let asked = requests(start, step, replies);
    if replies.len() == 0 {
        reveal_with_fuel(changes_asked, 2);
        assert(asked =~= seq![RequestView::IsDir(src)]);
        assert(asked.drop_last() =~= Seq::<RequestView>::empty());
        assert(changes_asked(asked) =~= Seq::<ActionView>::empty());
    } else {
        let earlier = replies.drop_last();
        lemma_log_so_far(src, dst, earlier);
        match (after(start, step, earlier), after(start, step, replies)) {
            (TurnView::Ask(was, _), TurnView::Ask(run, request)) => {
                let asked_before = requests(start, step, earlier);
                assert(asked == asked_before.push(request));
                assert(asked.drop_last() =~= asked_before);
                if run.log.len() > 0 {
                    lemma_log_push(was.log, run.log.last());
                }
                assert(run.log == was.log || run.log == was.log.push(run.log.last()));
                assert(changes_asked(asked) =~= changes_logged(run.log) + change_under_way(run.at));
            },
            _ => {},
        }
    }
}

/// The log of a copy that comes to its end tells of everything that it asked to
/// be done, in order, and of everything that it was told of and passed over: the
/// files that are not wanted and the directories that hold a repository's own
/// data.
pub proof fn law_log_tells_everything(
    src: Seq<u8>,
    dst: Seq<u8>,
    replies: Seq<ReplyView>,
    last: ReplyView,
    log: Seq<ActionView>,
)
    requires
        all_fit(copy_start(src, dst), copy_stepper(), entries_of_dirs(), replies),
        after(copy_start(src, dst), copy_stepper(), replies) is Ask,
        after(copy_start(src, dst), copy_stepper(), replies.push(last)) == TurnView::<
            CopyDirView,
            CopyOutcomeView,
        >::End(CopyOutcomeView::Copied(log)),
    ensures
        changes_logged(log) == changes_asked(
            requests(copy_start(src, dst), copy_stepper(), replies),
        ),
        paths_ignored(log) == ignored_told(replies),
{
    lemma_log_so_far(src, dst, replies);
    assert(replies.push(last).drop_last() =~= replies);
    match after(copy_start(src, dst), copy_stepper(), replies) {
        TurnView::Ask(run, _) => {
            assert(changes_logged(run.log) + change_under_way(run.at) =~= changes_logged(run.log));
        },
        TurnView::End(_) => {},
    }
}

// ---------------------------------------------------------------------------
// Everything is copied
// ---------------------------------------------------------------------------

/// The wanted files that were told of, in order.
pub open spec fn wanted_told(replies: Seq<ReplyView>) -> Seq<Seq<u8>>
    decreases replies.len(),
{
    if replies.len() == 0 {
        Seq::empty()
    } else {
        let earlier = wanted_told(replies.drop_last());
        match replies.last() {
            ReplyView::Entry { path, is_dir } => if !is_dir && is_wanted_file(path) {
                earlier.push(path)
            } else {
                earlier
            },
            _ => earlier,
        }
    }
}

/// The directories that were told of and are not passed over, in order.
pub open spec fn dirs_told(replies: Seq<ReplyView>) -> Seq<Seq<u8>>
    decreases replies.len(),
{
    if replies.len() == 0 {
        Seq::empty()
    } else {
        let earlier = dirs_told(replies.drop_last());
        match replies.last() {
            ReplyView::Entry { path, is_dir } => if is_dir && !is_git_dir(path) {
                earlier.push(path)
            } else {
                earlier
            },
            _ => earlier,
        }
    }
}

/// The files that were asked to be copied, in order.
pub open spec fn files_copied(asked: Seq<RequestView>) -> Seq<Seq<u8>>
    decreases asked.len(),
{
    if asked.len() == 0 {
        Seq::empty()
    } else {
        let earlier = files_copied(asked.drop_last());
        match asked.last() {
            RequestView::CopyFile { src, dst } => earlier.push(src),
            _ => earlier,
        }
    }
}

/// The directories that are known of and not opened yet.
pub open spec fn dirs_left(run: CopyDirView) -> Seq<Seq<u8>> {
    match run.at {
        CopyPointView::Checking { src } => run.pending.push(src),
        CopyPointView::Probing { dir, target } => run.pending.push(dir),
        CopyPointView::Creating { dir, target } => run.pending.push(dir),
        _ => run.pending,
    }
}

/// The wanted file that a reply tells of.
pub open spec fn wanted_by(reply: ReplyView) -> Seq<Seq<u8>> {
    match reply {
        ReplyView::Entry { path, is_dir } => if !is_dir && is_wanted_file(path) {
            seq![path]
        } else {
            Seq::empty()
        },
        _ => Seq::empty(),
    }
}

/// The directory that a reply tells of, unless it is passed over.
pub open spec fn dirs_by(reply: ReplyView) -> Seq<Seq<u8>> {
    match reply {
        ReplyView::Entry { path, is_dir } => if is_dir && !is_git_dir(path) {
            seq![path]
        } else {
            Seq::empty()
        },
        _ => Seq::empty(),
    }
}

/// The file that a request asks to be copied.
pub open spec fn copied_by(request: RequestView) -> Seq<Seq<u8>> {
    match request {
        RequestView::CopyFile { src, dst } => seq![src],
        _ => Seq::empty(),
    }
}

/// The directory that a request asks to be opened.
pub open spec fn opened_by(request: RequestView) -> Seq<Seq<u8>> {
    match request {
        RequestView::OpenDir(dir) => seq![dir],
        _ => Seq::empty(),
    }
}

/// One more request adds what it asks for.
pub proof fn lemma_one_more_request(asked: Seq<RequestView>, request: RequestView)
    ensures
        files_copied(asked.push(request)) == files_copied(asked) + copied_by(request),
        dirs_opened(asked.push(request)) == dirs_opened(asked) + opened_by(request),
{
    assert(asked.push(request).drop_last() =~= asked);
    assert(files_copied(asked.push(request)) =~= files_copied(asked) + copied_by(request));
    assert(dirs_opened(asked.push(request)) =~= dirs_opened(asked) + opened_by(request));
}

/// One more reply adds what it tells of.
pub proof fn lemma_one_more_reply(replies: Seq<ReplyView>)
    requires
        replies.len() > 0,
    ensures
        wanted_told(replies) == wanted_told(replies.drop_last()) + wanted_by(replies.last()),
        dirs_told(replies) == dirs_told(replies.drop_last()) + dirs_by(replies.last()),
{
    assert(wanted_told(replies) =~= wanted_told(replies.drop_last()) + wanted_by(replies.last()));
    assert(dirs_told(replies) =~= dirs_told(replies.drop_last()) + dirs_by(replies.last()));
}

/// A step asks for the wanted file that it was told of, and of the directories
/// that are known of each is opened or still left. At the end none is left.
pub proof fn lemma_step_covers(run: CopyDirView, reply: ReplyView)
    requires
        entry_is_of_dir(run, reply),
    ensures
        match copy_step(run, reply) {
            TurnView::Ask(next, request) => {
                &&& copied_by(request) == wanted_by(reply)
                &&& opened_by(request).to_multiset().add(dirs_left(next).to_multiset())
                    == dirs_left(run).to_multiset().add(dirs_by(reply).to_multiset())
            },
            TurnView::End(CopyOutcomeView::Copied(_)) => {
                &&& wanted_by(reply).len() == 0
                &&& dirs_by(reply).len() == 0
                &&& dirs_left(run).len() == 0
            },
            TurnView::End(CopyOutcomeView::Failed(_)) => true,
        },
{
    broadcast use vstd::seq_lib::group_to_multiset_ensures;
    let none = Seq::<Seq<u8>>::empty();
    match copy_step(run, reply) {
        TurnView::Ask(next, request) => {
            let left = dirs_left(run);
            match request {
                RequestView::OpenDir(dir) => {
                    assert(left =~= dirs_left(next).push(dir));
                    assert(opened_by(request) =~= none.push(dir));
                    assert(dirs_by(reply) =~= none);
                    assert(none.push(dir).to_multiset().add(dirs_left(next).to_multiset())
                        =~= dirs_left(next).push(dir).to_multiset().add(none.to_multiset()));
                },
                _ => {
                    assert(opened_by(request) =~= none);
                    if dirs_by(reply).len() > 0 {
                        let path = dirs_by(reply)[0];
                        assert(dirs_by(reply) =~= none.push(path));
                        assert(dirs_left(next) =~= left.push(path));
                        assert(none.to_multiset().add(left.push(path).to_multiset())
                            =~= left.to_multiset().add(none.push(path).to_multiset()));
                    } else {
                        assert(dirs_by(reply) =~= none);
                        assert(dirs_left(next) =~= left);
                        assert(none.to_multiset().add(left.to_multiset())
                            =~= left.to_multiset().add(none.to_multiset()));
                    }
                },
            }
        },
        TurnView::End(_) => {},
    }
}

/// What a step adds to the requests and to the replies, in multisets: `due` is
/// what was to be opened from the start.
pub proof fn lemma_covered_on(
    opened: Seq<Seq<u8>>,
    left: Seq<Seq<u8>>,
    told: Seq<Seq<u8>>,
    due: Seq<Seq<u8>>,
    more_opened: Seq<Seq<u8>>,
    next_left: Seq<Seq<u8>>,
    more_told: Seq<Seq<u8>>,
)
    requires
        opened.to_multiset().add(left.to_multiset()) == told.to_multiset().add(due.to_multiset()),
        more_opened.to_multiset().add(next_left.to_multiset()) == left.to_multiset().add(
            more_told.to_multiset(),
        ),
    ensures
        (opened + more_opened).to_multiset().add(next_left.to_multiset()) == (told
            + more_told).to_multiset().add(due.to_multiset()),
{
    vstd::seq_lib::lemma_multiset_commutative(opened, more_opened);
    vstd::seq_lib::lemma_multiset_commutative(told, more_told);
    assert forall|x: Seq<u8>|
        (opened + more_opened).to_multiset().add(next_left.to_multiset()).count(x) == (told
            + more_told).to_multiset().add(due.to_multiset()).count(x) by {
        let before = opened.to_multiset().add(left.to_multiset());
        let step = more_opened.to_multiset().add(next_left.to_multiset());
        assert(before.count(x) == opened.to_multiset().count(x) + left.to_multiset().count(x));
        assert(step.count(x) == more_opened.to_multiset().count(x) + next_left.to_multiset().count(
            x,
        ));
    }
    assert((opened + more_opened).to_multiset().add(next_left.to_multiset()) =~= (told
        + more_told).to_multiset().add(due.to_multiset()));
}

proof fn lemma_coverage_so_far(src: Seq<u8>, dst: Seq<u8>, replies: Seq<ReplyView>)
    requires
        all_fit(copy_start(src, dst), copy_stepper(), entries_of_dirs(), replies),
    ensures
        ({
            let asked = requests(copy_start(src, dst), copy_stepper(), replies);
            match after(copy_start(src, dst), copy_stepper(), replies) {
                TurnView::Ask(run, request) => {
                    &&& files_copied(asked) == wanted_told(replies)
                    &&& dirs_opened(asked).to_multiset().add(dirs_left(run).to_multiset())
                        == dirs_told(replies).to_multiset().add(seq![src].to_multiset())
                },
                TurnView::End(_) => true,
            }
        }),
    decreases replies.len(),
{
    broadcast use vstd::seq_lib::group_to_multiset_ensures;
    let start = copy_start(src, dst);
    let step = copy_stepper();
    let asked = requests(start, step, replies);
    let none = Seq::<Seq<u8>>::empty();
    if replies.len() == 0 {
        lemma_one_more_request(Seq::empty(), RequestView::IsDir(src));
        assert(files_copied(asked) =~= none);
        assert(dirs_opened(asked) =~= none);
        assert(none.push(src) =~= seq![src]);
    } else {
        let earlier = replies.drop_last();
        lemma_coverage_so_far(src, dst, earlier);
        lemma_one_more_reply(replies);
        match (after(start, step, earlier), after(start, step, replies)) {
            (TurnView::Ask(was, _), TurnView::Ask(run, request)) => {
                let before = requests(start, step, earlier);
                lemma_one_more_request(before, request);
                lemma_step_covers(was, replies.last());
                lemma_covered_on(
                    dirs_opened(before),
                    dirs_left(was),
                    dirs_told(earlier),
                    seq![src],
                    opened_by(request),
                    dirs_left(run),
                    dirs_by(replies.last()),
                );
            },
            _ => {},
        }
    }
}

/// A copy that comes to its end has asked for every wanted file that it was told
/// of, in order, and has opened `src` and every directory that it was told of
/// and does not pass over, each as often as it was told of it.
pub proof fn law_copy_misses_nothing(
    src: Seq<u8>,
    dst: Seq<u8>,
    replies: Seq<ReplyView>,
    last: ReplyView,
    log: Seq<ActionView>,
)
    requires
        all_fit(copy_start(src, dst), copy_stepper(), entries_of_dirs(), replies),
        after(copy_start(src, dst), copy_stepper(), replies) is Ask,
        after(copy_start(src, dst), copy_stepper(), replies.push(last)) == TurnView::<
            CopyDirView,
            CopyOutcomeView,
        >::End(CopyOutcomeView::Copied(log)),
    ensures
        files_copied(requests(copy_start(src, dst), copy_stepper(), replies)) == wanted_told(
            replies,
        ),
        dirs_opened(requests(copy_start(src, dst), copy_stepper(), replies)).to_multiset()
            == dirs_told(replies).to_multiset().insert(src),
{
    broadcast use vstd::seq_lib::group_to_multiset_ensures;
    lemma_coverage_so_far(src, dst, replies);
    assert(replies.push(last).drop_last() =~= replies);
    let none = Seq::<Seq<u8>>::empty();
    let opened = dirs_opened(requests(copy_start(src, dst), copy_stepper(), replies));
    match after(copy_start(src, dst), copy_stepper(), replies) {
        TurnView::Ask(run, _) => {
            assert(dirs_left(run) =~= none);
            assert(seq![src] =~= none.push(src));
            assert(opened.to_multiset().add(none.to_multiset()) =~= opened.to_multiset());
            assert(dirs_told(replies).to_multiset().add(none.push(src).to_multiset())
                =~= dirs_told(replies).to_multiset().insert(src));
        },
        TurnView::End(_) => {},
    }
}

// ---------------------------------------------------------------------------
// Where copies go, and copying again
// ---------------------------------------------------------------------------

/// Where the file `path` belongs in a copy of `src` to `dst`.
pub open spec fn place_of(src: Seq<u8>, dst: Seq<u8>, path: Seq<u8>) -> Seq<u8> {
    let below = components(path).skip(components(src).len() as int);
    join(join(dst, collect(below.drop_last())), file_name(path)->0)
}

/// The copy of the file, as the log tells of it.
pub open spec fn copy_of_file(src: Seq<u8>, dst: Seq<u8>) -> spec_fn(Seq<u8>) -> ActionView {
    |path: Seq<u8>| ActionView::CopyFile { src: path, dst: place_of(src, dst, path) }
}

/// The copies that a log tells of.
pub open spec fn copies_logged(log: Seq<ActionView>) -> Seq<ActionView> {
    log.filter(|a: ActionView| a is CopyFile)
}

/// The copy that is waited for and not logged yet.
spec fn copy_under_way(at: CopyPointView) -> Seq<ActionView> {
    match at {
        CopyPointView::Copying { dir, target, from, to } => seq![
            ActionView::CopyFile { src: from, dst: to },
        ],
        _ => Seq::empty(),
    }
}

/// The directory that a copy is at is copied to where it belongs.
spec fn target_is_right(run: CopyDirView) -> bool {
    match run.at {
        CopyPointView::Checking { src } => true,
        CopyPointView::Probing { dir, target } => target == copy_target(run.dst, run.depth, dir),
        CopyPointView::Creating { dir, target } => target == copy_target(run.dst, run.depth, dir),
        CopyPointView::Opening { dir, target } => target == copy_target(run.dst, run.depth, dir),
        CopyPointView::Reading { dir, target } => target == copy_target(run.dst, run.depth, dir),
        CopyPointView::Copying { dir, target, from, to } => target == copy_target(
            run.dst,
            run.depth,
            dir,
        ),
    }
}

/// A wanted file is copied to its place.
proof fn lemma_file_goes_to_its_place(
    src: Seq<u8>,
    dst: Seq<u8>,
    dir: Seq<u8>,
    path: Seq<u8>,
)
    requires
        is_copied_dir(src, dir),
        is_child(dir, path),
    ensures
        file_name(path) matches Some(name) && join(
            copy_target(dst, components(src).len(), dir),
            name,
        ) == place_of(src, dst, path),
{
    let name = choose|name: Seq<u8>| is_plain_name(name) && path == #[trigger] join(dir, name);
    lemma_join_plain_name(dir, name);
    let n = components(src).len() as int;
    assert(components(path).skip(n).drop_last() =~= components(dir).skip(n));
}

proof fn lemma_copies_push(log: Seq<ActionView>, a: ActionView)
    ensures
        copies_logged(log.push(a)) == (if a is CopyFile {
            copies_logged(log).push(a)
        } else {
            copies_logged(log)
        }),
{
    reveal(Seq::filter);
    assert(log.push(a).drop_last() =~= log);
}

proof fn lemma_places_so_far(src: Seq<u8>, dst: Seq<u8>, replies: Seq<ReplyView>)
    requires
        all_fit(copy_start(src, dst), copy_stepper(), entries_of_dirs(), replies),
    ensures
        after(copy_start(src, dst), copy_stepper(), replies) matches TurnView::Ask(run, _) ==> {
            &&& target_is_right(run)
            &&& copies_logged(run.log) + copy_under_way(run.at) == wanted_told(replies).map_values(
                copy_of_file(src, dst),
            )
        },
    decreases replies.len(),
{
    reveal(Seq::filter);
    let start = copy_start(src, dst);
    let step = copy_stepper();
    let place = copy_of_file(src, dst);
    if replies.len() == 0 {
        assert(wanted_told(replies).map_values(place) =~= Seq::<ActionView>::empty());
    } else {
        let earlier = replies.drop_last();
        lemma_places_so_far(src, dst, earlier);
        lemma_on_course(src, dst, earlier);
        lemma_one_more_reply(replies);
        match (after(start, step, earlier), after(start, step, replies)) {
            (TurnView::Ask(was, _), TurnView::Ask(run, _)) => {
                if run.log.len() > 0 {
                    lemma_copies_push(was.log, run.log.last());
                }
                assert(run.log == was.log || run.log == was.log.push(run.log.last()));
                let told = wanted_told(earlier).map_values(place);
                match (was.at, replies.last()) {
                    (
                        CopyPointView::Reading { dir, target },
                        ReplyView::Entry { path, is_dir },
                    ) => {
                        lemma_file_goes_to_its_place(src, dst, dir, path);
                        if !is_dir && is_wanted_file(path) {
                            assert(wanted_told(replies).map_values(place) =~= told.push(
                                place(path),
                            ));
                            assert(copies_logged(run.log) + copy_under_way(run.at) =~= told.push(
                                place(path),
                            ));
                        } else {
                            assert(wanted_told(replies) =~= wanted_told(earlier));
                        }
                    },
                    _ => {
                        assert(wanted_told(replies) =~= wanted_told(earlier));
                        assert(copies_logged(run.log) + copy_under_way(run.at) =~= told);
                    },
                }
            },
            _ => {},
        }
    }
}

/// The log of a copy that comes to its end tells of the wanted files that the
/// copy was told of, in order, each copied to its place below `dst`.
pub proof fn law_copies_go_to_their_places(
    src: Seq<u8>,
    dst: Seq<u8>,
    replies: Seq<ReplyView>,
    last: ReplyView,
    log: Seq<ActionView>,
)
    requires
        all_fit(copy_start(src, dst), copy_stepper(), entries_of_dirs(), replies),
        after(copy_start(src, dst), copy_stepper(), replies) is Ask,
        after(copy_start(src, dst), copy_stepper(), replies.push(last)) == TurnView::<
            CopyDirView,
            CopyOutcomeView,
        >::End(CopyOutcomeView::Copied(log)),
    ensures
        copies_logged(log) == wanted_told(replies).map_values(copy_of_file(src, dst)),
{
    lemma_places_so_far(src, dst, replies);
    assert(replies.push(last).drop_last() =~= replies);
    match after(copy_start(src, dst), copy_stepper(), replies) {
        TurnView::Ask(run, _) => {
            assert(copies_logged(run.log) + copy_under_way(run.at) =~= copies_logged(run.log));
        },
        TurnView::End(_) => {},
    }
}

/// Whether every directory is there already where it is copied to, to hold the
/// replies of a whole copy to.
pub open spec fn everything_is_there() -> spec_fn(CopyDirView, ReplyView) -> bool {
    |run: CopyDirView, reply: ReplyView|
        run.at is Probing ==> reply == ReplyView::Answer(true)
}

/// Whether a log tells of no directory that was made.
pub open spec fn makes_no_directory(log: Seq<ActionView>) -> bool {
    forall|i: int| 0 <= i < log.len() ==> !(#[trigger] log[i] is CreateDir)
}

proof fn lemma_nothing_made_so_far(src: Seq<u8>, dst: Seq<u8>, replies: Seq<ReplyView>)
    requires
        all_fit(copy_start(src, dst), copy_stepper(), everything_is_there(), replies),
    ensures
        after(copy_start(src, dst), copy_stepper(), replies) matches TurnView::Ask(run, _)
            ==> makes_no_directory(run.log) && !(run.at is Creating),
    decreases replies.len(),
{
    if replies.len() > 0 {
        lemma_nothing_made_so_far(src, dst, replies.drop_last());
    }
}

/// A copy to where every directory is there already makes none.
pub proof fn law_copy_makes_what_is_missing_only(
    src: Seq<u8>,
    dst: Seq<u8>,
    replies: Seq<ReplyView>,
    last: ReplyView,
    log: Seq<ActionView>,
)
    requires
        all_fit(copy_start(src, dst), copy_stepper(), everything_is_there(), replies),
        after(copy_start(src, dst), copy_stepper(), replies) is Ask,
        after(copy_start(src, dst), copy_stepper(), replies.push(last)) == TurnView::<
            CopyDirView,
            CopyOutcomeView,
        >::End(CopyOutcomeView::Copied(log)),
    ensures
        makes_no_directory(log),
{
    lemma_nothing_made_so_far(src, dst, replies);
    assert(replies.push(last).drop_last() =~= replies);
}

proof fn lemma_wanted_are_told_files(replies: Seq<ReplyView>)
    ensures
        wanted_told(replies) == entries_told(replies, false).filter(
            |p: Seq<u8>| is_wanted_file(p),
        ),
    decreases replies.len(),
{
    reveal(Seq::filter);
    if replies.len() > 0 {
        lemma_wanted_are_told_files(replies.drop_last());
        let files = entries_told(replies, false);
        if files.len() > 0 {
            assert(files.drop_last().push(files.last()) =~= files);
        }
        match replies.last() {
            ReplyView::Entry { path, is_dir } => if !is_dir {
                assert(files.drop_last() =~= entries_told(replies.drop_last(), false));
            },
            _ => {},
        }
    } else {
        assert(wanted_told(replies) =~= entries_told(replies, false).filter(
            |p: Seq<u8>| is_wanted_file(p),
        ));
    }
}

/// How often the log tells of a path that was passed over.
spec fn times_ignored(replies: Seq<ReplyView>, action: ActionView, is_dir: bool) -> nat {
    match action {
        ActionView::IgnorePath { src } => if is_passed_over(src, is_dir) {
            entries_told(replies, is_dir).to_multiset().count(src)
        } else {
            0
        },
        _ => 0,
    }
}

proof fn lemma_ignored_counts(replies: Seq<ReplyView>, action: ActionView)
    ensures
        ignored_told(replies).to_multiset().count(action) == times_ignored(replies, action, true)
            + times_ignored(replies, action, false),
    decreases replies.len(),
{
    broadcast use vstd::seq_lib::group_to_multiset_ensures;
    if replies.len() > 0 {
        lemma_ignored_counts(replies.drop_last(), action);
    }
}

/// Copying again does the same again: where a second copy of `src` to `dst` finds
/// every directory there already and is told of the same entries as the first, in
/// whatever order, it makes no directory, copies the same files to the same
/// places, and passes over the same paths.
pub proof fn law_copying_again_does_the_same(
    src: Seq<u8>,
    dst: Seq<u8>,
    first: Seq<ReplyView>,
    first_last: ReplyView,
    first_log: Seq<ActionView>,
    second: Seq<ReplyView>,
    second_last: ReplyView,
    second_log: Seq<ActionView>,
)
    requires
        all_fit(copy_start(src, dst), copy_stepper(), entries_of_dirs(), first),
        after(copy_start(src, dst), copy_stepper(), first) is Ask,
        after(copy_start(src, dst), copy_stepper(), first.push(first_last)) == TurnView::<
            CopyDirView,
            CopyOutcomeView,
        >::End(CopyOutcomeView::Copied(first_log)),
        all_fit(copy_start(src, dst), copy_stepper(), entries_of_dirs(), second),
        all_fit(copy_start(src, dst), copy_stepper(), everything_is_there(), second),
        after(copy_start(src, dst), copy_stepper(), second) is Ask,
        after(copy_start(src, dst), copy_stepper(), second.push(second_last)) == TurnView::<
            CopyDirView,
            CopyOutcomeView,
        >::End(CopyOutcomeView::Copied(second_log)),
        forall|is_dir: bool|
            (#[trigger] entries_told(first, is_dir)).to_multiset() == entries_told(
                second,
                is_dir,
            ).to_multiset(),
    ensures
        makes_no_directory(second_log),
        copies_logged(second_log).to_multiset() == copies_logged(first_log).to_multiset(),
        paths_ignored(second_log).to_multiset() == paths_ignored(first_log).to_multiset(),
{
    law_copy_makes_what_is_missing_only(src, dst, second, second_last, second_log);
    law_copies_go_to_their_places(src, dst, first, first_last, first_log);
    law_copies_go_to_their_places(src, dst, second, second_last, second_log);
    law_log_tells_everything(src, dst, first, first_last, first_log);
    law_log_tells_everything(src, dst, second, second_last, second_log);
    lemma_wanted_are_told_files(first);
    lemma_wanted_are_told_files(second);
    assert(entries_told(first, false).to_multiset() == entries_told(second, false).to_multiset());
    assert(entries_told(first, true).to_multiset() == entries_told(second, true).to_multiset());
    lemma_same_filtered(
        entries_told(first, false),
        entries_told(second, false),
        |p: Seq<u8>| is_wanted_file(p),
    );
    lemma_same_mapped(wanted_told(first), wanted_told(second), copy_of_file(src, dst));
    assert forall|a: ActionView|
        ignored_told(first).to_multiset().count(a) == ignored_told(second).to_multiset().count(
            a,
        ) by {
        lemma_ignored_counts(first, a);
        lemma_ignored_counts(second, a);
    }
    assert(ignored_told(first).to_multiset() =~= ignored_told(second).to_multiset());
}

// ---------------------------------------------------------------------------
// What becomes of one entry
// ---------------------------------------------------------------------------

proof fn lemma_told_among(replies: Seq<ReplyView>, k: int, path: Seq<u8>, is_dir: bool)
    requires
        0 <= k < replies.len(),
        replies[k] == (ReplyView::Entry { path, is_dir }),
    ensures
        is_dir && !is_git_dir(path) ==> dirs_told(replies).contains(path),
        !is_dir && is_wanted_file(path) ==> wanted_told(replies).contains(path),
        is_passed_over(path, is_dir) ==> ignored_told(replies).contains(
            ActionView::IgnorePath { src: path },
        ),
    decreases replies.len(),
{
    let earlier = replies.drop_last();
    if k < replies.len() - 1 {
        lemma_told_among(earlier, k, path, is_dir);
        assert forall|p: Seq<u8>| dirs_told(earlier).contains(p) implies dirs_told(
            replies,
        ).contains(p) by {
            let i = dirs_told(earlier).index_of(p);
            assert(dirs_told(replies)[i] == p);
        }
        assert forall|p: Seq<u8>| wanted_told(earlier).contains(p) implies wanted_told(
            replies,
        ).contains(p) by {
            let i = wanted_told(earlier).index_of(p);
            assert(wanted_told(replies)[i] == p);
        }
        assert forall|a: ActionView| ignored_told(earlier).contains(a) implies ignored_told(
            replies,
        ).contains(a) by {
            let i = ignored_told(earlier).index_of(a);
            assert(ignored_told(replies)[i] == a);
        }
    } else {
        if is_dir && !is_git_dir(path) {
            assert(dirs_told(replies).last() == path);
        }
        if !is_dir && is_wanted_file(path) {
            assert(wanted_told(replies).last() == path);
        }
        if is_passed_over(path, is_dir) {
            assert(ignored_told(replies).last() == (ActionView::IgnorePath { src: path }));
        }
    }
}

/// By the end of a copy that ends well, every directory that it was told of was
/// opened, unless its name is `.git`; that one is logged as passed over.
pub proof fn law_every_directory_but_git_is_opened(
    src: Seq<u8>,
    dst: Seq<u8>,
    replies: Seq<ReplyView>,
    last: ReplyView,
    log: Seq<ActionView>,
    k: int,
    dir: Seq<u8>,
    name: Seq<u8>,
)
    requires
        all_fit(copy_start(src, dst), copy_stepper(), entries_of_dirs(), replies),
        after(copy_start(src, dst), copy_stepper(), replies) is Ask,
        after(copy_start(src, dst), copy_stepper(), replies.push(last)) == TurnView::<
            CopyDirView,
            CopyOutcomeView,
        >::End(CopyOutcomeView::Copied(log)),
        0 <= k < replies.len(),
        replies[k] == (ReplyView::Entry { path: join(dir, name), is_dir: true }),
        is_plain_name(name),
    ensures
        name != vstd::utf8::encode_utf8(".git"@) ==> dirs_opened(
            requests(copy_start(src, dst), copy_stepper(), replies),
        ).contains(join(dir, name)),
        name == vstd::utf8::encode_utf8(".git"@) ==> log.contains(
            ActionView::IgnorePath { src: join(dir, name) },
        ),
{
    broadcast use vstd::seq_lib::group_to_multiset_ensures;
    let path = join(dir, name);
    law_only_git_is_left_out(dir, name);
    lemma_told_among(replies, k, path, true);
    law_copy_misses_nothing(src, dst, replies, last, log);
    law_log_tells_everything(src, dst, replies, last, log);
    let opened = dirs_opened(requests(copy_start(src, dst), copy_stepper(), replies));
    if name != vstd::utf8::encode_utf8(".git"@) {
        assert(dirs_told(replies).to_multiset().count(path) > 0);
        assert(opened.to_multiset().count(path) > 0);
    } else {
        lemma_logged(log, ActionView::IgnorePath { src: path }, |a: ActionView| a is IgnorePath);
    }
}

/// By the end of a copy that ends well, every file that it was told of is in the log:
/// as copied to its place if its name ends in `.proto`, with something ahead of that,
/// or is `buf.yaml` or `buf.lock`, and else as passed over.
pub proof fn law_every_file_is_copied_or_passed_over(
    src: Seq<u8>,
    dst: Seq<u8>,
    replies: Seq<ReplyView>,
    last: ReplyView,
    log: Seq<ActionView>,
    k: int,
    dir: Seq<u8>,
    name: Seq<u8>,
)
    requires
        all_fit(copy_start(src, dst), copy_stepper(), entries_of_dirs(), replies),
        after(copy_start(src, dst), copy_stepper(), replies) is Ask,
        after(copy_start(src, dst), copy_stepper(), replies.push(last)) == TurnView::<
            CopyDirView,
            CopyOutcomeView,
        >::End(CopyOutcomeView::Copied(log)),
        0 <= k < replies.len(),
        replies[k] == (ReplyView::Entry { path: join(dir, name), is_dir: false }),
        is_plain_name(name),
    ensures
        if name == vstd::utf8::encode_utf8("buf.yaml"@) || name == vstd::utf8::encode_utf8(
            "buf.lock"@,
        ) || exists|stem: Seq<u8>|
            stem.len() > 0 && name == #[trigger] (stem + vstd::utf8::encode_utf8(".proto"@)) {
            exists|to: Seq<u8>|
                log.contains(#[trigger] copied_to(join(dir, name), to)) && components(to)
                    == components(dst) + components(join(dir, name)).skip(
                    components(src).len() as int,
                )
        } else {
            log.contains(ActionView::IgnorePath { src: join(dir, name) })
        },
{
    let path = join(dir, name);
    law_wanted_files_are_protobuf_files(dir, name);
    lemma_join_plain_name(dir, name);
    lemma_told_among(replies, k, path, false);
    law_log_tells_everything(src, dst, replies, last, log);
    law_copies_go_to_their_places(src, dst, replies, last, log);
    if is_wanted_file(path) {
        let told = wanted_told(replies);
        let i = told.index_of(path);
        let copies = told.map_values(copy_of_file(src, dst));
        let to = place_of(src, dst, path);
        assert(copies[i] == copied_to(path, to));
        assert(copies_logged(log).contains(copies[i]));
        lemma_logged(log, copies[i], |a: ActionView| a is CopyFile);
        lemma_copied_entry(src, dst, replies, k, path);
    } else {
        lemma_logged(log, ActionView::IgnorePath { src: path }, |a: ActionView| a is IgnorePath);
    }
}

/// The copy of a file, as a log tells of it.
pub open spec fn copied_to(from: Seq<u8>, to: Seq<u8>) -> ActionView {
    ActionView::CopyFile { src: from, dst: to }
}

proof fn lemma_logged(log: Seq<ActionView>, a: ActionView, pred: spec_fn(ActionView) -> bool)
    requires
        log.filter(pred).contains(a),
    ensures
        log.contains(a),
{
    log.lemma_filter_contains_rev(pred, a);
}

/// Where the copy of an entry belongs.
proof fn lemma_copied_entry(
    src: Seq<u8>,
    dst: Seq<u8>,
    replies: Seq<ReplyView>,
    k: int,
    path: Seq<u8>,
)
    requires
        all_fit(copy_start(src, dst), copy_stepper(), entries_of_dirs(), replies),
        after(copy_start(src, dst), copy_stepper(), replies) is Ask,
        0 <= k < replies.len(),
        replies[k] == (ReplyView::Entry { path, is_dir: false }),
    ensures
        components(place_of(src, dst, path)) == components(dst) + components(path).skip(
            components(src).len() as int,
        ),
    decreases replies.len(),
{
    let start = copy_start(src, dst);
    let step = copy_stepper();
    let earlier = replies.drop_last();
    if k < replies.len() - 1 {
        lemma_copied_entry(src, dst, earlier, k, path);
    } else {
        lemma_on_course(src, dst, earlier);
        match after(start, step, earlier) {
            TurnView::Ask(run, _) => {
                let dir = run.at->Reading_dir;
                let name = choose|name: Seq<u8>|
                    is_plain_name(name) && path == #[trigger] join(dir, name);
                lemma_join_plain_name(dir, name);
                lemma_copy_target(src, dst, dir);
                let n = components(src).len() as int;
                let below = components(path).skip(n);
                assert(below.drop_last() =~= components(dir).skip(n));
                let target = copy_target(dst, components(src).len(), dir);
                assert(place_of(src, dst, path) == join(target, name));
                lemma_join_plain_name(target, name);
                assert(components(place_of(src, dst, path)) =~= components(dst) + below);
            },
            TurnView::End(_) => {},
        }
    }
}

} // verus!
