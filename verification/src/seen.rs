//! What looks at a directory see of a disk.
use crate::disk::{
    all_plain, answers, lemma_path_at, lemma_path_at_differs, path_at, place,
    same_at, same_below, spot, Disk, Tree,
};
use crate::explored::{
    exploring, is_reached, leads_to, lemma_all_told, lemma_closes, lemma_due_names, lemma_opens,
    lemma_sets_out, lemma_tells, opened, read_through, setting_out, told, Exploration,
};
use crate::order::holds_path;
use crate::path::{join, same_path};
use crate::protocol::{ReplyView, RequestView, TurnView};
use crate::search::lemma_push_holds;
use crate::stat::{new_paths, stat_diff, StatView};
use crate::walk::{stat_start, stat_step, StatOutcomeView, TargetStatView};
use vstd::prelude::*;

verus! {

/// Whether a list holds paths that names lead to from `base`, none of them twice.
pub open spec fn is_list_below(list: Seq<Seq<u8>>, base: Seq<u8>) -> bool {
    &&& list.no_duplicates()
    &&& forall|p: Seq<u8>| #[trigger] list.contains(p) ==> leads_to(base, p)
}

/// Whether a look at `base` found exactly what there is below it.
pub open spec fn sees_all(stat: StatView, base: Seq<u8>, tree: Tree) -> bool {
    &&& is_list_below(stat.dirs, base)
    &&& is_list_below(stat.files, base)
    &&& forall|names: Seq<Seq<u8>>|
        #![trigger path_at(base, names)]
        all_plain(names) && names.len() > 0 ==> {
            &&& stat.dirs.contains(path_at(base, names)) <==> tree.dirs.contains(
                spot(place(base), names),
            )
            &&& stat.files.contains(path_at(base, names)) <==> tree.files.contains_key(
                spot(place(base), names),
            )
        }
}

/// Whether what is recorded is exactly what one tree has below `base` and the other
/// has not.
pub open spec fn tells_added(diff: StatView, base: Seq<u8>, old: Tree, new: Tree) -> bool {
    &&& is_list_below(diff.dirs, base)
    &&& is_list_below(diff.files, base)
    &&& forall|names: Seq<Seq<u8>>|
        #![trigger path_at(base, names)]
        all_plain(names) && names.len() > 0 ==> {
            &&& diff.dirs.contains(path_at(base, names)) <==> new.dirs.contains(
                spot(place(base), names),
            ) && !old.dirs.contains(spot(place(base), names))
            &&& diff.files.contains(path_at(base, names)) <==> new.files.contains_key(
                spot(place(base), names),
            ) && !old.files.contains_key(spot(place(base), names))
        }
}

/// Nothing is left out of a look.
pub open spec fn leaves_nothing_out() -> spec_fn(Seq<u8>) -> bool {
    |path: Seq<u8>| false
}

/// How far a look has come with the disk.
pub open spec fn exploration_of(run: TargetStatView, disk: Disk) -> Exploration {
    match run.opening {
        Some(dir) => Exploration {
            dirs: run.found.dirs,
            files: run.found.files,
            pending: run.pending.push(dir),
            current: None,
        },
        None => Exploration {
            dirs: run.found.dirs,
            files: run.found.files,
            pending: run.pending,
            current: Some((disk.reading, disk.left)),
        },
    }
}

/// What holds of a look at `base` while it waits.
pub open spec fn looking(
    base: Seq<u8>,
    disk: Disk,
    run: TargetStatView,
    request: RequestView,
) -> bool {
    &&& exploring(base, disk.tree, leaves_nothing_out(), exploration_of(run, disk))
    &&& match run.opening {
        Some(dir) => request == RequestView::OpenDir(dir),
        None => request is NextEntry,
    }
}

pub proof fn lemma_look_starts(base: Seq<u8>, disk: Disk)
    ensures
        stat_start(base) matches TurnView::Ask(run, request) && looking(base, disk, run, request),
{
    lemma_sets_out(base, disk.tree, leaves_nothing_out());
    let run = stat_start(base)->Ask_0;
    assert(exploration_of(run, disk).pending =~= seq![base]);
    assert(exploration_of(run, disk) == setting_out(base));
}

proof fn lemma_look_ends(base: Seq<u8>, tree: Tree, e: Exploration)
    requires
        tree.well_formed(),
        exploring(base, tree, leaves_nothing_out(), e),
        e.current is None,
        e.pending.len() == 0,
    ensures
        sees_all(StatView { dirs: e.dirs, files: e.files }, base, tree),
{
    assert forall|names: Seq<Seq<u8>>|
        #![trigger path_at(base, names)]
        all_plain(names) && names.len() > 0 implies {
        &&& e.dirs.contains(path_at(base, names)) <==> tree.dirs.contains(spot(place(base), names))
        &&& e.files.contains(path_at(base, names)) <==> tree.files.contains_key(
            spot(place(base), names),
        )
    } by {
        lemma_all_told(base, tree, leaves_nothing_out(), e, names);
        assert(tree.has(spot(place(base), names)) ==> is_reached(
            base,
            tree,
            leaves_nothing_out(),
            names,
        ));
    }
}

/// A look at a directory that is there goes well, leaves the disk as it is, and
/// ends with exactly what there is.
pub proof fn lemma_look_goes_on(
    base: Seq<u8>,
    disk: Disk,
    run: TargetStatView,
    request: RequestView,
    reply: ReplyView,
    next: Disk,
)
    requires
        disk.tree.well_formed(),
        disk.tree.dirs.contains(place(base)),
        looking(base, disk, run, request),
        answers(disk, request, reply, next),
    ensures
        next.tree == disk.tree,
        next.record == disk.record,
        match stat_step(run, reply) {
            TurnView::Ask(run, request) => looking(base, next, run, request),
            TurnView::End(StatOutcomeView::Found(stat)) => sees_all(stat, base, next.tree),
            TurnView::End(StatOutcomeView::Failed(_)) => false,
        },
{
    let tree = disk.tree;
    let skips = leaves_nothing_out();
    let e = exploration_of(run, disk);
    match run.opening {
        Some(dir) => {
            assert(e.pending.last() == dir);
            assert(e.pending.drop_last() =~= run.pending);
            assert(e.pending.contains(dir));
            let ds = lemma_due_names(base, tree, skips, e, dir);
            lemma_path_at(base, ds);
            lemma_opens(base, tree, skips, e);
            if ds.len() > 0 {
                assert(e.dirs.contains(dir));
            }
            let after = stat_step(run, reply)->Ask_0;
            assert(exploration_of(after, next) == opened(e, tree.names_in(place(dir))));
        },
        None => {
            if exists|name: Seq<u8>| disk.left.contains(name) {
                let name = choose|name: Seq<u8>| #[trigger]
                    disk.left.contains(name) && reply == (ReplyView::Entry {
                        path: join(disk.reading, name),
                        is_dir: tree.dirs.contains(place(join(disk.reading, name))),
                    }) && next == (Disk { left: disk.left.remove(name), ..disk });
                let is_dir = tree.dirs.contains(place(join(disk.reading, name)));
                lemma_tells(base, tree, skips, e, name, is_dir);
                let after = stat_step(run, reply)->Ask_0;
                assert(exploration_of(after, next) == told(e, skips, name, is_dir));
            } else {
                lemma_closes(base, tree, skips, e);
                let f = read_through(e);
                if run.pending.len() == 0 {
                    lemma_look_ends(base, tree, f);
                } else {
                    let after = stat_step(run, reply)->Ask_0;
                    assert(run.pending.drop_last().push(run.pending.last()) =~= run.pending);
                    assert(exploration_of(after, next) == f);
                }
            }
        },
    }
}

// ---------------------------------------------------------------------------
// What two looks tell apart
// ---------------------------------------------------------------------------

proof fn lemma_filter_holds<A>(s: Seq<A>, pred: spec_fn(A) -> bool, x: A)
    ensures
        s.filter(pred).contains(x) <==> s.contains(x) && pred(x),
    decreases s.len(),
{
    reveal(Seq::filter);
    if s.len() > 0 {
        let first = s.drop_last();
        lemma_filter_holds(first, pred, x);
        assert(first.push(s.last()) =~= s);
        lemma_push_holds(first, s.last(), x);
        lemma_push_holds(first.filter(pred), s.last(), x);
    }
}

proof fn lemma_filter_keeps_apart<A>(s: Seq<A>, pred: spec_fn(A) -> bool)
    requires
        s.no_duplicates(),
    ensures
        s.filter(pred).no_duplicates(),
    decreases s.len(),
{
    reveal(Seq::filter);
    if s.len() > 0 {
        let first = s.drop_last();
        assert(first.no_duplicates());
        lemma_filter_keeps_apart(first, pred);
        lemma_filter_holds(first, pred, s.last());
        if first.contains(s.last()) {
            let i = first.index_of(s.last());
            assert(s[i] == s[s.len() - 1]);
        }
    }
}

proof fn lemma_new_paths(
    base: Seq<u8>,
    before: Seq<Seq<u8>>,
    after: Seq<Seq<u8>>,
    names: Seq<Seq<u8>>,
)
    requires
        is_list_below(before, base),
        is_list_below(after, base),
        all_plain(names),
    ensures
        is_list_below(new_paths(before, after), base),
        new_paths(before, after).contains(path_at(base, names)) <==> after.contains(
            path_at(base, names),
        ) && !before.contains(path_at(base, names)),
{
    let pred = |p: Seq<u8>| !holds_path(before, p);
    let path = path_at(base, names);
    lemma_filter_keeps_apart(after, pred);
    assert forall|p: Seq<u8>| #[trigger] new_paths(before, after).contains(p) implies leads_to(
        base,
        p,
    ) by {
        lemma_filter_holds(after, pred, p);
    }
    lemma_filter_holds(after, pred, path);
    if before.contains(path) {
        let i = before.index_of(path);
        assert(same_path(before[i], path));
    }
    if holds_path(before, path) {
        let i = choose|i: int| 0 <= i < before.len() && same_path(#[trigger] before[i], path);
        assert(before.contains(before[i]));
        let ms = choose|ms: Seq<Seq<u8>>|
            all_plain(ms) && ms.len() > 0 && before[i] == #[trigger] path_at(base, ms);
        lemma_path_at_differs(base, ms, names);
    }
}

/// Two looks that each saw everything tell what was added in between.
pub proof fn lemma_looks_tell_added(
    base: Seq<u8>,
    before: StatView,
    after: StatView,
    old: Tree,
    new: Tree,
)
    requires
        sees_all(before, base, old),
        sees_all(after, base, new),
    ensures
        tells_added(stat_diff(before, after), base, old, new),
{
    lemma_new_paths(base, before.dirs, after.dirs, Seq::empty());
    lemma_new_paths(base, before.files, after.files, Seq::empty());
    assert forall|names: Seq<Seq<u8>>|
        #![trigger path_at(base, names)]
        all_plain(names) && names.len() > 0 implies {
        let diff = stat_diff(before, after);
        &&& diff.dirs.contains(path_at(base, names)) <==> new.dirs.contains(
            spot(place(base), names),
        ) && !old.dirs.contains(spot(place(base), names))
        &&& diff.files.contains(path_at(base, names)) <==> new.files.contains_key(
            spot(place(base), names),
        ) && !old.files.contains_key(spot(place(base), names))
    } by {
        lemma_new_paths(base, before.dirs, after.dirs, names);
        lemma_new_paths(base, before.files, after.files, names);
    }
}

/// Only what is below `base` matters to a look.
pub proof fn lemma_sees_the_same(stat: StatView, base: Seq<u8>, a: Tree, b: Tree)
    requires
        sees_all(stat, base, a),
        same_below(a, b, place(base)),
    ensures
        sees_all(stat, base, b),
{
    assert forall|names: Seq<Seq<u8>>|
        #![trigger path_at(base, names)]
        all_plain(names) && names.len() > 0 implies {
        &&& stat.dirs.contains(path_at(base, names)) <==> b.dirs.contains(spot(place(base), names))
        &&& stat.files.contains(path_at(base, names)) <==> b.files.contains_key(
            spot(place(base), names),
        )
    } by {
        assert(same_at(a, b, place(base), names));
    }
}

/// Only what is below `base` matters to what was added there.
pub proof fn lemma_tells_the_same(diff: StatView, base: Seq<u8>, old: Tree, a: Tree, b: Tree)
    requires
        tells_added(diff, base, old, a),
        same_below(a, b, place(base)),
    ensures
        tells_added(diff, base, old, b),
{
    assert forall|names: Seq<Seq<u8>>|
        #![trigger path_at(base, names)]
        all_plain(names) && names.len() > 0 implies {
        &&& diff.dirs.contains(path_at(base, names)) <==> b.dirs.contains(spot(place(base), names))
            && !old.dirs.contains(spot(place(base), names))
        &&& diff.files.contains(path_at(base, names)) <==> b.files.contains_key(
            spot(place(base), names),
        ) && !old.files.contains_key(spot(place(base), names))
    } by {
        assert(same_at(a, b, place(base), names));
    }
}

} // verus!
