//! What the removal of what a build added does to a disk.
use crate::actions::TargetBuildActionsView;
use crate::disk::{
    all_plain, answers, apart, grows, lemma_apart, lemma_last_name, lemma_one_more_name,
    lemma_path_at, lemma_path_at_differs, lies_below, only_adds, path_at, place, same_at,
    same_below, same_place, spot, Disk, Tree,
};
use crate::explored::leads_to;
use crate::order::{descending, law_sort_puts_inner_first, law_sort_rearranges};
use crate::path::{is_below, ComponentView};
use crate::protocol::{ReplyView, RequestView, TurnView};
use crate::removal::{
    clean_dirs_from, clean_files_from, clean_in_range, clean_start, clean_step, CleanOutcomeView,
    CleanPointView, TargetCleanView,
};
use crate::seen::{is_list_below, tells_added};
use vstd::prelude::*;

verus! {

/// Whether trees differ at most in what is below a place.
pub open spec fn differs_below(a: Tree, b: Tree, at: Seq<ComponentView>) -> bool {
    forall|x: Seq<ComponentView>| !lies_below(at, x) ==> #[trigger] same_place(a, b, x)
}

/// What is added below a place makes no difference anywhere else.
pub proof fn lemma_adding_differs_below(a: Tree, b: Tree, at: Seq<ComponentView>)
    requires
        b.well_formed(),
        only_adds(a, b, at),
    ensures
        differs_below(a, b, at),
{
    assert forall|x: Seq<ComponentView>| !lies_below(at, x) implies #[trigger] same_place(
        a,
        b,
        x,
    ) by {
        assert(a.files.contains_key(x) ==> b.files.contains_key(x));
        assert(a.dirs.contains(x) ==> b.dirs.contains(x));
        assert(b.has(x) && !a.has(x) ==> lies_below(at, x));
        assert(!(b.files.contains_key(x) && b.dirs.contains(x)));
    }
}

/// What differs below one place stays as it is below another that is apart from it.
pub proof fn lemma_others_stay(
    a: Tree,
    b: Tree,
    at: Seq<ComponentView>,
    other: Seq<ComponentView>,
)
    requires
        differs_below(a, b, at),
    ensures
        a.dirs.contains(at) == b.dirs.contains(at),
        apart(at, other) ==> same_below(a, b, other) && a.dirs.contains(other) == b.dirs.contains(
            other,
        ),
{
    if lies_below(at, at) {
        let names = choose|names: Seq<Seq<u8>>|
            all_plain(names) && names.len() > 0 && at == #[trigger] spot(at, names);
        assert(spot(at, names).len() == at.len() + names.len());
    }
    assert(same_place(a, b, at));
    if apart(at, other) {
        assert forall|names: Seq<Seq<u8>>|
            all_plain(names) && names.len() > 0 implies #[trigger] same_at(a, b, other, names) by {
            let x = spot(other, names);
            if lies_below(at, x) {
                let ms = choose|ms: Seq<Seq<u8>>|
                    all_plain(ms) && ms.len() > 0 && x == #[trigger] spot(at, ms);
                lemma_apart(at, other, ms, names);
            }
            assert(same_place(a, b, x));
        }
        if lies_below(at, other) {
            let ms = choose|ms: Seq<Seq<u8>>|
                all_plain(ms) && ms.len() > 0 && other == #[trigger] spot(at, ms);
            lemma_apart(at, other, ms, ms);
        }
        assert(same_place(a, b, other));
    }
}

/// Two trees that are the same as a third below a place are the same there.
pub proof fn lemma_same_as_the_third(a: Tree, b: Tree, c: Tree, at: Seq<ComponentView>)
    requires
        same_below(a, b, at),
        same_below(a, c, at),
    ensures
        same_below(b, c, at),
{
    assert forall|names: Seq<Seq<u8>>|
        all_plain(names) && names.len() > 0 implies #[trigger] same_at(b, c, at, names) by {
        assert(same_at(a, b, at, names));
        assert(same_at(a, c, at, names));
    }
}

/// Whether there is at a place below `base` what there was, unless it is among the
/// files and directories that are gone.
pub open spec fn is_without_at(
    base: Seq<u8>,
    was: Tree,
    tree: Tree,
    files: Seq<Seq<u8>>,
    dirs: Seq<Seq<u8>>,
    names: Seq<Seq<u8>>,
) -> bool {
    let x = spot(place(base), names);
    &&& tree.files.contains_key(x) <==> was.files.contains_key(x) && !files.contains(
        path_at(base, names),
    )
    &&& tree.files.contains_key(x) ==> tree.files[x] == was.files[x]
    &&& tree.dirs.contains(x) <==> was.dirs.contains(x) && !dirs.contains(path_at(base, names))
}

/// Whether there is below `base` what there was, but for the files and directories
/// that are gone.
pub open spec fn is_without(
    base: Seq<u8>,
    was: Tree,
    tree: Tree,
    files: Seq<Seq<u8>>,
    dirs: Seq<Seq<u8>>,
) -> bool {
    forall|names: Seq<Seq<u8>>|
        #![trigger path_at(base, names)]
        all_plain(names) && names.len() > 0 ==> is_without_at(base, was, tree, files, dirs, names)
}

/// What holds of a removal below `base` while it waits: what it asked for before is
/// gone.
pub open spec fn clearing(
    base: Seq<u8>,
    was: Tree,
    tree: Tree,
    record: TargetBuildActionsView,
    run: TargetCleanView,
    request: RequestView,
) -> bool {
    let files = record.diff.files;
    let dirs = descending(record.diff.dirs);
    &&& run.files == files
    &&& run.dirs == dirs
    &&& clean_in_range(run)
    &&& match run.at {
        CleanPointView::File(n) => request == RequestView::RemoveFile(files[n]) && is_without(
            base,
            was,
            tree,
            files.take(n),
            Seq::empty(),
        ),
        CleanPointView::Probe(n) => request == RequestView::IsEmptyDir(dirs[n]) && is_without(
            base,
            was,
            tree,
            files,
            dirs.take(n),
        ),
        CleanPointView::Dir(n) => {
            &&& request == RequestView::RemoveDir(dirs[n])
            &&& is_without(base, was, tree, files, dirs.take(n))
            &&& forall|name: Seq<u8>| !(#[trigger] tree.names_in(place(dirs[n])).contains(name))
        },
    }
}

/// Where a removal stands with the disk.
pub open spec fn cleared(
    base: Seq<u8>,
    was: Tree,
    tree: Tree,
    record: TargetBuildActionsView,
    turn: TurnView<TargetCleanView, CleanOutcomeView>,
) -> bool {
    match turn {
        TurnView::Ask(run, request) => clearing(base, was, tree, record, run, request),
        TurnView::End(outcome) => outcome is Cleaned && is_without(
            base,
            was,
            tree,
            record.diff.files,
            descending(record.diff.dirs),
        ),
    }
}

proof fn lemma_goes_on_with_dirs(
    base: Seq<u8>,
    was: Tree,
    tree: Tree,
    record: TargetBuildActionsView,
    n: int,
)
    requires
        0 <= n <= descending(record.diff.dirs).len(),
        is_without(base, was, tree, record.diff.files, descending(record.diff.dirs).take(n)),
    ensures
        cleared(
            base,
            was,
            tree,
            record,
            clean_dirs_from(record.diff.files, descending(record.diff.dirs), n),
        ),
{
    let dirs = descending(record.diff.dirs);
    if n == dirs.len() {
        assert(dirs.take(n) =~= dirs);
    }
}

proof fn lemma_goes_on_with_files(
    base: Seq<u8>,
    was: Tree,
    tree: Tree,
    record: TargetBuildActionsView,
    n: int,
)
    requires
        0 <= n <= record.diff.files.len(),
        is_without(base, was, tree, record.diff.files.take(n), Seq::empty()),
    ensures
        cleared(
            base,
            was,
            tree,
            record,
            clean_files_from(record.diff.files, descending(record.diff.dirs), n),
        ),
{
    let files = record.diff.files;
    if n == files.len() {
        assert(files.take(n) =~= files);
        assert(descending(record.diff.dirs).take(0) =~= Seq::<Seq<u8>>::empty());
        lemma_goes_on_with_dirs(base, was, tree, record, 0);
    }
}

pub proof fn lemma_clearing_starts(
    base: Seq<u8>,
    was: Tree,
    tree: Tree,
    record: TargetBuildActionsView,
)
    requires
        same_below(tree, was, place(base)),
    ensures
        cleared(base, was, tree, record, clean_start(record)),
{
    let none = Seq::<Seq<u8>>::empty();
    assert forall|names: Seq<Seq<u8>>|
        #![trigger path_at(base, names)]
        all_plain(names) && names.len() > 0 implies is_without_at(
        base,
        was,
        tree,
        none,
        none,
        names,
    ) by {
        assert(same_at(tree, was, place(base), names));
    }
    assert(record.diff.files.take(0) =~= none);
    lemma_goes_on_with_files(base, was, tree, record, 0);
}

/// The sorted directories are those of the record, none of them twice.
proof fn lemma_sorted_dirs(dirs: Seq<Seq<u8>>, p: Seq<u8>)
    requires
        dirs.no_duplicates(),
    ensures
        descending(dirs).no_duplicates(),
        descending(dirs).contains(p) <==> dirs.contains(p),
{
    broadcast use vstd::seq_lib::group_to_multiset_ensures;
    law_sort_rearranges(dirs);
    dirs.lemma_multiset_has_no_duplicates();
    descending(dirs).lemma_multiset_has_no_duplicates_conv();
    assert(dirs.contains(p) <==> dirs.to_multiset().count(p) > 0);
    assert(descending(dirs).contains(p) <==> descending(dirs).to_multiset().count(p) > 0);
}

/// One more item of the list is gone.
proof fn lemma_one_more_gone(list: Seq<Seq<u8>>, n: int, p: Seq<u8>)
    requires
        0 <= n < list.len(),
        list.no_duplicates(),
    ensures
        list.take(n + 1).contains(p) <==> list.take(n).contains(p) || p == list[n],
        !list.take(n).contains(list[n]),
{
    if list.take(n).contains(p) {
        let i = list.take(n).index_of(p);
        assert(list.take(n + 1)[i] == p);
    }
    if list.take(n + 1).contains(p) {
        let i = list.take(n + 1).index_of(p);
        if i < n {
            assert(list.take(n)[i] == p);
        }
    }
    assert(list.take(n + 1)[n] == list[n]);
    if list.take(n).contains(list[n]) {
        let i = list.take(n).index_of(list[n]);
        assert(list[i] == list[n]);
    }
}

/// The names that lead to a path of the list.
proof fn lemma_names_of(list: Seq<Seq<u8>>, base: Seq<u8>, n: int) -> (names: Seq<Seq<u8>>)
    requires
        is_list_below(list, base),
        0 <= n < list.len(),
    ensures
        all_plain(names),
        names.len() > 0,
        list[n] == path_at(base, names),
        place(list[n]) == spot(place(base), names),
        lies_below(place(base), place(list[n])),
{
    assert(list.contains(list[n]));
    assert(leads_to(base, list[n]));
    let names = choose|names: Seq<Seq<u8>>|
        all_plain(names) && names.len() > 0 && list[n] == #[trigger] path_at(base, names);
    lemma_path_at(base, names);
    names
}

/// A file that was added is removed.
proof fn lemma_file_goes(
    base: Seq<u8>,
    old: Tree,
    was: Tree,
    disk: Disk,
    record: TargetBuildActionsView,
    n: int,
    reply: ReplyView,
    next: Disk,
)
    requires
        disk.tree.well_formed(),
        tells_added(record.diff, base, old, was),
        0 <= n < record.diff.files.len(),
        is_without(base, was, disk.tree, record.diff.files.take(n), Seq::empty()),
        answers(disk, RequestView::RemoveFile(record.diff.files[n]), reply, next),
    ensures
        reply is Done,
        next.record == disk.record,
        next.tree.well_formed(),
        differs_below(disk.tree, next.tree, place(base)),
        is_without(base, was, next.tree, record.diff.files.take(n + 1), Seq::empty()),
{
    let files = record.diff.files;
    let none = Seq::<Seq<u8>>::empty();
    let tree = disk.tree;
    let names = lemma_names_of(files, base, n);
    let x = place(files[n]);
    assert(files.contains(path_at(base, names)));
    lemma_one_more_gone(files, n, files[n]);
    assert(tree.files.contains_key(x));
    let after = next.tree;
    assert forall|y: Seq<ComponentView>| #[trigger] after.has(y) implies tree.has(y) by {}
    assert forall|y: Seq<ComponentView>| !lies_below(place(base), y) implies #[trigger] same_place(
        tree,
        after,
        y,
    ) by {
        assert(y != x);
    }
    assert forall|ms: Seq<Seq<u8>>|
        #![trigger path_at(base, ms)]
        all_plain(ms) && ms.len() > 0 implies is_without_at(
        base,
        was,
        after,
        files.take(n + 1),
        none,
        ms,
    ) by {
        lemma_one_more_gone(files, n, path_at(base, ms));
        lemma_path_at_differs(base, ms, names);
    }
}

/// By the time a directory that was added is looked into, there is nothing in it.
proof fn lemma_dir_is_empty(
    base: Seq<u8>,
    old: Tree,
    was: Tree,
    tree: Tree,
    record: TargetBuildActionsView,
    n: int,
    name: Seq<u8>,
)
    requires
        old.well_formed(),
        tells_added(record.diff, base, old, was),
        0 <= n < descending(record.diff.dirs).len(),
        is_without(
            base,
            was,
            tree,
            record.diff.files,
            descending(record.diff.dirs).take(n),
        ),
    ensures
        !tree.names_in(place(descending(record.diff.dirs)[n])).contains(name),
{
    let dirs = descending(record.diff.dirs);
    let dir = dirs[n];
    lemma_sorted_dirs(record.diff.dirs, dir);
    assert(dirs.contains(dir));
    let k = record.diff.dirs.index_of(dir);
    let names = lemma_names_of(record.diff.dirs, base, k);
    assert(record.diff.dirs.contains(path_at(base, names)));
    assert(!old.dirs.contains(spot(place(base), names)));
    if tree.names_in(place(dir)).contains(name) {
        let inner = names.push(name);
        lemma_one_more_name(base, names, name);
        let x = spot(place(base), inner);
        let path = path_at(base, inner);
        assert(tree.has(x));
        assert(old.has(x) ==> old.dirs.contains(x.drop_last()));
        assert(!old.has(x));
        if tree.files.contains_key(x) {
            assert(record.diff.files.contains(path));
        } else {
            assert(record.diff.dirs.contains(path));
            lemma_sorted_dirs(record.diff.dirs, path);
            let i = dirs.index_of(path);
            assert(is_below(dirs[i], dirs[n]));
            law_sort_puts_inner_first(record.diff.dirs, i, n);
            assert(dirs.take(n)[i] == path);
            assert(dirs.take(n).contains(path));
        }
    }
}

/// A directory that was added is removed.
proof fn lemma_dir_goes(
    base: Seq<u8>,
    old: Tree,
    was: Tree,
    disk: Disk,
    record: TargetBuildActionsView,
    n: int,
    reply: ReplyView,
    next: Disk,
)
    requires
        disk.tree.well_formed(),
        tells_added(record.diff, base, old, was),
        0 <= n < descending(record.diff.dirs).len(),
        is_without(
            base,
            was,
            disk.tree,
            record.diff.files,
            descending(record.diff.dirs).take(n),
        ),
        forall|name: Seq<u8>|
            !(#[trigger] disk.tree.names_in(place(descending(record.diff.dirs)[n])).contains(name)),
        answers(disk, RequestView::RemoveDir(descending(record.diff.dirs)[n]), reply, next),
    ensures
        reply is Done,
        next.record == disk.record,
        next.tree.well_formed(),
        differs_below(disk.tree, next.tree, place(base)),
        is_without(
            base,
            was,
            next.tree,
            record.diff.files,
            descending(record.diff.dirs).take(n + 1),
        ),
{
    let dirs = descending(record.diff.dirs);
    let dir = dirs[n];
    let tree = disk.tree;
    let after = next.tree;
    let x = place(dir);
    lemma_sorted_dirs(record.diff.dirs, dir);
    assert(dirs.contains(dir));
    let k = record.diff.dirs.index_of(dir);
    let names = lemma_names_of(record.diff.dirs, base, k);
    lemma_last_name(base, names);
    assert(record.diff.dirs.contains(path_at(base, names)));
    lemma_one_more_gone(dirs, n, dir);
    assert(tree.dirs.contains(x));
    assert(x.last() is Normal);
    assert forall|y: Seq<ComponentView>| #[trigger] after.has(y) implies tree.has(y) && (y.len() > 0
        ==> y.drop_last() != x) by {
        if y.len() > 0 && y.drop_last() == x {
            assert(y[y.len() - 2] == x.last());
            assert(tree.has(y));
            assert(y.last() is Normal);
            let name = y.last()->Normal_0;
            assert(x.push(y.last()) =~= y);
            assert(tree.names_in(x).contains(name));
        }
    }
    assert forall|y: Seq<ComponentView>| !lies_below(place(base), y) implies #[trigger] same_place(
        tree,
        after,
        y,
    ) by {
        assert(y != x);
    }
    assert forall|ms: Seq<Seq<u8>>|
        #![trigger path_at(base, ms)]
        all_plain(ms) && ms.len() > 0 implies is_without_at(
        base,
        was,
        after,
        record.diff.files,
        dirs.take(n + 1),
        ms,
    ) by {
        lemma_one_more_gone(dirs, n, path_at(base, ms));
        lemma_path_at_differs(base, ms, names);
    }
}

/// The removal of what was added since `old` goes well on the disk, and makes no
/// difference anywhere but below `base`.
pub proof fn lemma_clearing_goes_on(
    base: Seq<u8>,
    old: Tree,
    was: Tree,
    disk: Disk,
    record: TargetBuildActionsView,
    run: TargetCleanView,
    request: RequestView,
    reply: ReplyView,
    next: Disk,
)
    requires
        old.well_formed(),
        disk.tree.well_formed(),
        tells_added(record.diff, base, old, was),
        clearing(base, was, disk.tree, record, run, request),
        answers(disk, request, reply, next),
    ensures
        next.record == disk.record,
        next.tree.well_formed(),
        differs_below(disk.tree, next.tree, place(base)),
        cleared(base, was, next.tree, record, clean_step(run, reply)),
{
    let files = record.diff.files;
    let dirs = descending(record.diff.dirs);
    match run.at {
        CleanPointView::File(n) => {
            lemma_file_goes(base, old, was, disk, record, n, reply, next);
            lemma_goes_on_with_files(base, was, next.tree, record, n + 1);
        },
        CleanPointView::Probe(n) => {
            assert forall|name: Seq<u8>| !(#[trigger] disk.tree.names_in(place(dirs[n])).contains(
                name,
            )) by {
                lemma_dir_is_empty(base, old, was, disk.tree, record, n, name);
            }
            let dir = dirs[n];
            lemma_sorted_dirs(record.diff.dirs, dir);
            assert(dirs.contains(dir));
            let k = record.diff.dirs.index_of(dir);
            let names = lemma_names_of(record.diff.dirs, base, k);
            assert(record.diff.dirs.contains(path_at(base, names)));
            lemma_one_more_gone(dirs, n, dir);
            assert(disk.tree.dirs.contains(place(dir)));
        },
        CleanPointView::Dir(n) => {
            lemma_dir_goes(base, old, was, disk, record, n, reply, next);
            lemma_goes_on_with_dirs(base, was, next.tree, record, n + 1);
        },
    }
}

/// Where all that was added since `old` is gone, there is what there was then.
pub proof fn lemma_cleared_is_restored(
    base: Seq<u8>,
    old: Tree,
    was: Tree,
    tree: Tree,
    record: TargetBuildActionsView,
)
    requires
        grows(old, was),
        tells_added(record.diff, base, old, was),
        is_without(base, was, tree, record.diff.files, descending(record.diff.dirs)),
    ensures
        same_below(tree, old, place(base)),
{
    assert forall|names: Seq<Seq<u8>>|
        all_plain(names) && names.len() > 0 implies #[trigger] same_at(
        tree,
        old,
        place(base),
        names,
    ) by {
        let path = path_at(base, names);
        let x = spot(place(base), names);
        lemma_sorted_dirs(record.diff.dirs, path);
        assert(old.files.contains_key(x) ==> was.files.contains_key(x));
        assert(old.dirs.contains(x) ==> was.dirs.contains(x));
    }
}

/// Whether everything that one tree has below a place the other has too, and the same.
pub open spec fn keeps_below(old: Tree, tree: Tree, at: Seq<ComponentView>) -> bool {
    forall|names: Seq<Seq<u8>>|
        all_plain(names) && names.len() > 0 ==> {
            let x = #[trigger] spot(at, names);
            &&& old.files.contains_key(x) ==> tree.files.contains_key(x) && tree.files[x]
                == old.files[x]
            &&& old.dirs.contains(x) ==> tree.dirs.contains(x)
        }
}

/// A removal of what was added since `old` keeps all that was there then.
pub proof fn lemma_clearing_keeps_what_was_there(
    base: Seq<u8>,
    old: Tree,
    was: Tree,
    tree: Tree,
    record: TargetBuildActionsView,
    turn: TurnView<TargetCleanView, CleanOutcomeView>,
)
    requires
        grows(old, was),
        tells_added(record.diff, base, old, was),
        cleared(base, was, tree, record, turn),
    ensures
        keeps_below(old, tree, place(base)),
{
    let files = record.diff.files;
    let dirs = descending(record.diff.dirs);
    let none = Seq::<Seq<u8>>::empty();
    assert forall|names: Seq<Seq<u8>>| all_plain(names) && names.len() > 0 implies {
        let x = #[trigger] spot(place(base), names);
        &&& old.files.contains_key(x) ==> tree.files.contains_key(x) && tree.files[x]
            == old.files[x]
        &&& old.dirs.contains(x) ==> tree.dirs.contains(x)
    } by {
        let path = path_at(base, names);
        let x = spot(place(base), names);
        lemma_sorted_dirs(record.diff.dirs, path);
        assert forall|n: int|
            0 <= n <= files.len() && (#[trigger] files.take(n)).contains(path) implies files.contains(
            path,
        ) by {
            let i = files.take(n).index_of(path);
            assert(files[i] == path);
        }
        assert forall|n: int|
            0 <= n <= dirs.len() && (#[trigger] dirs.take(n)).contains(path) implies dirs.contains(
            path,
        ) by {
            let i = dirs.take(n).index_of(path);
            assert(dirs[i] == path);
        }
        assert(old.files.contains_key(x) ==> was.files.contains_key(x));
        assert(old.dirs.contains(x) ==> was.dirs.contains(x));
        match turn {
            TurnView::Ask(run, _) => match run.at {
                CleanPointView::File(n) => {
                    assert(is_without_at(base, was, tree, files.take(n), none, names));
                },
                CleanPointView::Probe(n) => {
                    assert(is_without_at(base, was, tree, files, dirs.take(n), names));
                },
                CleanPointView::Dir(n) => {
                    assert(is_without_at(base, was, tree, files, dirs.take(n), names));
                },
            },
            TurnView::End(_) => {
                assert(is_without_at(base, was, tree, files, dirs, names));
            },
        }
    }
}

/// What is kept below a place, and the same anywhere else as in a tree that has it
/// all, is kept.
pub proof fn lemma_grows_on(old: Tree, a: Tree, b: Tree, at: Seq<ComponentView>)
    requires
        grows(old, a),
        differs_below(a, b, at),
        keeps_below(old, b, at),
    ensures
        grows(old, b),
{
    assert forall|x: Seq<ComponentView>| #[trigger] old.files.contains_key(x) implies b.files.contains_key(
        x,
    ) && b.files[x] == old.files[x] by {
        if lies_below(at, x) {
            let names = choose|names: Seq<Seq<u8>>|
                all_plain(names) && names.len() > 0 && x == #[trigger] spot(at, names);
        } else {
            assert(same_place(a, b, x));
        }
    }
    assert forall|x: Seq<ComponentView>| #[trigger] old.dirs.contains(x) implies b.dirs.contains(
        x,
    ) by {
        if lies_below(at, x) {
            let names = choose|names: Seq<Seq<u8>>|
                all_plain(names) && names.len() > 0 && x == #[trigger] spot(at, names);
        } else {
            assert(same_place(a, b, x));
        }
    }
}

} // verus!
