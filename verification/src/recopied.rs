//! Copying a directory tree on a disk, and copying it again.
use crate::copy::{
    copy_next, copy_start, copy_step, is_git_dir, is_wanted_file, law_only_git_is_left_out,
    law_wanted_files_are_protobuf_files, ActionView, CopyDirView, CopyOutcomeView, CopyPointView,
};
use crate::disk::{
    all_plain, answers, apart, dirs_to, lemma_apart, lemma_last_name, lemma_one_more_name,
    lemma_path_at, lemma_path_at_differs, path_at, place, played, same_at, same_below, spot, Disk,
    Tree,
};
use crate::explored::{
    exploring, is_due, is_reached, is_told, leads_to, lemma_all_told, lemma_closes,
    lemma_due_names, lemma_opens, lemma_sets_out, lemma_tells, lemma_told_is_reached, opened,
    setting_out, told, Exploration,
};
use crate::mirror::{
    copies_logged, copy_is_on_course, copy_stepper, dirs_left, entries_of_dirs, entry_is_of_dir,
    everything_is_there, is_child, is_copy_of_dir, law_copying_again_does_the_same,
    lemma_step_is_on_course, makes_no_directory, paths_ignored,
};
use crate::path::{components, is_plain_name, join, lemma_join_plain_name, ComponentView};
use crate::protocol::{after, all_fit, ReplyView, RequestView, TurnView};
use crate::search::lemma_push_holds;
use crate::walk::entries_told;
use vstd::prelude::*;

verus! {

/// What a copy leaves out.
pub open spec fn leaves_out_git() -> spec_fn(Seq<u8>) -> bool {
    |path: Seq<u8>| is_git_dir(path)
}

/// Whether nothing but names comes after a name on the way to a place.
pub open spec fn is_straight(at: Seq<ComponentView>) -> bool {
    forall|k: int|
        0 < k < at.len() && at[k - 1] is Normal ==> (#[trigger] at[k] matches ComponentView::Normal(
            name,
        ) && is_plain_name(name))
}

/// How far a copy has come with reading the directories, once it was told of those
/// directories and files.
spec fn exploration_at(
    run: CopyDirView,
    dirs: Seq<Seq<u8>>,
    files: Seq<Seq<u8>>,
    disk: Disk,
) -> Exploration {
    let reading = Exploration {
        dirs,
        files,
        pending: run.pending,
        current: Some((disk.reading, disk.left)),
    };
    match run.at {
        CopyPointView::Checking { src } => Exploration {
            pending: run.pending.push(src),
            current: None,
            ..reading
        },
        CopyPointView::Probing { dir, .. } => Exploration {
            pending: run.pending.push(dir),
            current: None,
            ..reading
        },
        CopyPointView::Creating { dir, .. } => Exploration {
            pending: run.pending.push(dir),
            current: None,
            ..reading
        },
        CopyPointView::Opening { dir, .. } => Exploration {
            pending: run.pending.push(dir),
            current: None,
            ..reading
        },
        _ => reading,
    }
}

/// The file that is being copied.
spec fn under_way(run: CopyDirView) -> Option<Seq<u8>> {
    match run.at {
        CopyPointView::Copying { from, .. } => Some(from),
        _ => None,
    }
}

/// Whether something stands for the copy of every directory that was told of and is
/// not left out, but for those in the list.
spec fn dirs_stand(
    src: Seq<u8>,
    dst: Seq<u8>,
    tree: Tree,
    dirs: Seq<Seq<u8>>,
    unmade: Seq<Seq<u8>>,
) -> bool {
    forall|names: Seq<Seq<u8>>|
        #![trigger path_at(src, names)]
        all_plain(names) && (names.len() == 0 || (dirs.contains(path_at(src, names)) && !is_git_dir(
            path_at(src, names),
        ))) && !unmade.contains(path_at(src, names)) ==> tree.has(spot(place(dst), names))
}

/// Whether there is a copy of every wanted file that was told of, but for that one.
spec fn files_stand(
    src: Seq<u8>,
    dst: Seq<u8>,
    old: Tree,
    tree: Tree,
    files: Seq<Seq<u8>>,
    but: Option<Seq<u8>>,
) -> bool {
    forall|names: Seq<Seq<u8>>|
        #![trigger path_at(src, names)]
        all_plain(names) && names.len() > 0 && files.contains(path_at(src, names))
            && is_wanted_file(path_at(src, names)) && but != Some(path_at(src, names))
            ==> tree.files.contains_key(spot(place(dst), names)) && tree.files[spot(
            place(dst),
            names,
        )] == old.files[spot(place(src), names)]
}

/// Whether none of the names is `.git`.
pub open spec fn without_git(names: Seq<Seq<u8>>) -> bool {
    forall|k: int| 0 <= k < names.len() ==> #[trigger] names[k] != vstd::utf8::encode_utf8(".git"@)
}

/// Whether a name is one of a protobuf file, or of a file that configures what is
/// generated out of them.
pub open spec fn is_of_protobuf(name: Seq<u8>) -> bool {
    ||| name == vstd::utf8::encode_utf8("buf.yaml"@)
    ||| name == vstd::utf8::encode_utf8("buf.lock"@)
    ||| exists|stem: Seq<u8>|
        stem.len() > 0 && name == #[trigger] (stem + vstd::utf8::encode_utf8(".proto"@))
}

/// Whether the names lead to a file below `src` that is copied.
pub open spec fn leads_to_a_copied_file(src: Seq<u8>, tree: Tree, names: Seq<Seq<u8>>) -> bool {
    &&& all_plain(names)
    &&& names.len() > 0
    &&& tree.files.contains_key(spot(place(src), names))
    &&& without_git(names.drop_last())
    &&& is_of_protobuf(names.last())
}

/// Whether the names lead to a directory that is copied: `src`, or one below it.
pub open spec fn leads_to_a_copied_dir(src: Seq<u8>, tree: Tree, names: Seq<Seq<u8>>) -> bool {
    &&& all_plain(names)
    &&& names.len() > 0 ==> tree.dirs.contains(spot(place(src), names))
    &&& without_git(names)
}

/// Whether nothing was lost from one tree to the other, and what came to be are the
/// directories on the way to the copy of a directory, and copies of files.
pub open spec fn adds_copies(src: Seq<u8>, dst: Seq<u8>, old: Tree, tree: Tree) -> bool {
    &&& forall|x: Seq<ComponentView>| #[trigger] old.dirs.contains(x) ==> tree.dirs.contains(x)
    &&& forall|x: Seq<ComponentView>| #[trigger]
        old.files.contains_key(x) ==> tree.files.contains_key(x)
    &&& forall|x: Seq<ComponentView>| #[trigger]
        tree.dirs.contains(x) && !old.dirs.contains(x) ==> exists|names: Seq<Seq<u8>>|
            leads_to_a_copied_dir(src, old, names) && x.is_prefix_of(
                #[trigger] spot(place(dst), names),
            )
    &&& forall|x: Seq<ComponentView>| #[trigger]
        tree.files.contains_key(x) && !(old.files.contains_key(x) && old.files[x] == tree.files[x])
            ==> exists|names: Seq<Seq<u8>>|
            leads_to_a_copied_file(src, old, names) && x == #[trigger] spot(place(dst), names)
                && tree.files[x] == old.files[spot(place(src), names)]
}

/// What can be reached has no `.git` on the way.
proof fn lemma_reached_without_git(src: Seq<u8>, tree: Tree, names: Seq<Seq<u8>>)
    requires
        all_plain(names),
        names.len() > 0,
        tree.has(spot(place(src), names)),
    ensures
        is_reached(src, tree, leaves_out_git(), names) <==> without_git(names.drop_last()),
        is_git_dir(path_at(src, names)) <==> names.last() == vstd::utf8::encode_utf8(".git"@),
        is_wanted_file(path_at(src, names)) <==> is_of_protobuf(names.last()),
{
    let first = names.drop_last();
    lemma_last_name(src, names);
    law_only_git_is_left_out(path_at(src, first), names.last());
    law_wanted_files_are_protobuf_files(path_at(src, first), names.last());
    assert forall|k: int| 0 < k < names.len() implies (is_git_dir(
        #[trigger] path_at(src, names.take(k)),
    ) <==> first[k - 1] == vstd::utf8::encode_utf8(".git"@)) by {
        let some = names.take(k);
        assert forall|i: int| 0 <= i < some.len() implies is_plain_name(#[trigger] some[i]) by {
            assert(some[i] == names[i]);
        }
        lemma_last_name(src, some);
        law_only_git_is_left_out(path_at(src, some.drop_last()), some.last());
    }
    if is_reached(src, tree, leaves_out_git(), names) {
        assert forall|k: int| 0 <= k < first.len() implies #[trigger] first[k]
            != vstd::utf8::encode_utf8(".git"@) by {
            assert(!is_git_dir(path_at(src, names.take(k + 1))));
        }
    }
    if without_git(first) {
        assert forall|k: int| 0 < k < names.len() implies !(leaves_out_git())(
            #[trigger] path_at(src, names.take(k)),
        ) by {
            assert(first[k - 1] != vstd::utf8::encode_utf8(".git"@));
        }
    }
}

/// What a copy waits for.
spec fn waits_for(run: CopyDirView) -> RequestView {
    match run.at {
        CopyPointView::Checking { src } => RequestView::IsDir(src),
        CopyPointView::Probing { target, .. } => RequestView::Exists(target),
        CopyPointView::Creating { target, .. } => RequestView::CreateDirAll(target),
        CopyPointView::Opening { dir, .. } => RequestView::OpenDir(dir),
        CopyPointView::Reading { .. } => RequestView::NextEntry,
        CopyPointView::Copying { from, to, .. } => RequestView::CopyFile { src: from, dst: to },
    }
}

/// What holds of a copy while it waits, once it was told of those directories and
/// files.
spec fn copying(
    src: Seq<u8>,
    dst: Seq<u8>,
    old: Tree,
    dirs: Seq<Seq<u8>>,
    files: Seq<Seq<u8>>,
    run: CopyDirView,
    request: RequestView,
    disk: Disk,
) -> bool {
    &&& copy_is_on_course(src, dst, TurnView::Ask(run, request))
    &&& request == waits_for(run)
    &&& disk.tree.well_formed()
    &&& same_below(old, disk.tree, place(src))
    &&& exploring(src, old, leaves_out_git(), exploration_at(run, dirs, files, disk))
    &&& dirs_stand(src, dst, disk.tree, dirs, dirs_left(run))
    &&& files_stand(src, dst, old, disk.tree, files, under_way(run))
    &&& adds_copies(src, dst, old, disk.tree)
    &&& match run.at {
        CopyPointView::Checking { .. } => run.pending.len() == 0 && disk.tree == old,
        CopyPointView::Reading { dir, .. } => {
            &&& disk.tree.dirs.contains(place(src))
            &&& disk.reading == dir
        },
        CopyPointView::Copying { dir, target, from, to } => {
            &&& disk.tree.dirs.contains(place(src))
            &&& disk.reading == dir
            &&& files.contains(from)
            &&& is_wanted_file(from)
            &&& exists|names: Seq<Seq<u8>>|
                all_plain(names) && names.len() > 0 && from == #[trigger] path_at(src, names)
                    && place(to) == spot(place(dst), names)
        },
        _ => disk.tree.dirs.contains(place(src)),
    }
}

/// What a copy that has ended well leaves behind.
spec fn copied(
    src: Seq<u8>,
    dst: Seq<u8>,
    old: Tree,
    dirs: Seq<Seq<u8>>,
    files: Seq<Seq<u8>>,
    tree: Tree,
) -> bool {
    &&& tree.well_formed()
    &&& tree.dirs.contains(place(src))
    &&& same_below(old, tree, place(src))
    &&& exploring(
        src,
        old,
        leaves_out_git(),
        Exploration { dirs, files, pending: Seq::empty(), current: None },
    )
    &&& dirs_stand(src, dst, tree, dirs, Seq::empty())
    &&& files_stand(src, dst, old, tree, files, None)
    &&& adds_copies(src, dst, old, tree)
}

/// The list with the entry that the reply tells of.
spec fn with_told(list: Seq<Seq<u8>>, reply: ReplyView, dirs: bool) -> Seq<Seq<u8>> {
    match reply {
        ReplyView::Entry { path, is_dir } => if is_dir == dirs {
            list.push(path)
        } else {
            list
        },
        _ => list,
    }
}

/// What lies on the way to a place below `b` is not below `a`, where the two are
/// apart.
proof fn lemma_way_is_apart(
    a: Seq<ComponentView>,
    b: Seq<ComponentView>,
    x: Seq<Seq<u8>>,
    y: Seq<Seq<u8>>,
)
    requires
        apart(a, b),
    ensures
        !spot(a, x).is_prefix_of(spot(b, y)),
{
    if spot(a, x).is_prefix_of(spot(b, y)) {
        let all = spot(b, y);
        assert(a =~= all.take(a.len() as int)) by {
            assert forall|i: int| 0 <= i < a.len() implies a[i] == all[i] by {
                assert(spot(a, x)[i] == a[i]);
                assert(spot(a, x)[i] == all[i]);
            }
        }
        if a.len() <= b.len() {
            assert(b.take(a.len() as int) =~= a);
            assert(a.is_prefix_of(b));
        } else {
            assert(a.take(b.len() as int) =~= b);
            assert(b.is_prefix_of(a));
        }
    }
}

/// The copy of a directory belongs where the same names lead to.
proof fn lemma_target_place(
    src: Seq<u8>,
    dst: Seq<u8>,
    names: Seq<Seq<u8>>,
    target: Seq<u8>,
)
    requires
        all_plain(names),
        is_copy_of_dir(src, dst, path_at(src, names), target),
    ensures
        place(target) == spot(place(dst), names),
{
    lemma_path_at(src, names);
    lemma_path_at(dst, names);
    let n = components(src).len() as int;
    assert(spot(components(src), names).skip(n) =~= names.map_values(
        |name: Seq<u8>| ComponentView::Normal(name),
    ));
    assert(components(target) =~= components(path_at(dst, names)));
}

/// A place below one that is straight is straight.
proof fn lemma_straight_on(at: Seq<ComponentView>, names: Seq<Seq<u8>>)
    requires
        is_straight(at),
        all_plain(names),
    ensures
        is_straight(spot(at, names)),
{
    let all = spot(at, names);
    assert forall|k: int| 0 < k < all.len() && all[k - 1] is Normal implies (
    #[trigger] all[k] matches ComponentView::Normal(name) && is_plain_name(name)) by {
        if k < at.len() {
            assert(all[k] == at[k]);
            assert(all[k - 1] == at[k - 1]);
        } else {
            assert(all[k] == ComponentView::Normal(names[k - at.len()]));
        }
    }
}

/// Making a directory, and what is missing above it, keeps a tree well formed.
proof fn lemma_made_is_well_formed(tree: Tree, at: Seq<ComponentView>)
    requires
        tree.well_formed(),
        is_straight(at),
        forall|x: Seq<ComponentView>| #[trigger]
            dirs_to(at).contains(x) ==> !tree.files.contains_key(x),
    ensures
        (Tree { dirs: tree.dirs.union(dirs_to(at)), ..tree }).well_formed(),
{
    let made = Tree { dirs: tree.dirs.union(dirs_to(at)), ..tree };
    assert forall|x: Seq<ComponentView>| #[trigger] made.has(x) && x.len() > 0 implies made.dirs.contains(
        x.drop_last(),
    ) by {
        if dirs_to(at).contains(x) {
            assert(x.is_prefix_of(at));
            assert(x.drop_last() =~= at.take(x.len() - 1));
            assert(x.drop_last().is_prefix_of(at));
            assert(dirs_to(at).contains(x.drop_last()));
        } else {
            assert(tree.has(x));
        }
    }
    assert forall|x: Seq<ComponentView>| #[trigger]
        made.has(x) && x.len() > 1 && x[x.len() - 2] is Normal implies (x.last() matches
        ComponentView::Normal(name) && is_plain_name(name)) by {
        if dirs_to(at).contains(x) {
            assert(x.is_prefix_of(at));
            let k = x.len() - 1;
            assert(x[k] == at[k]);
            assert(x[k - 1] == at[k - 1]);
        } else {
            assert(tree.has(x));
        }
    }
    assert forall|x: Seq<ComponentView>| !(#[trigger] made.files.contains_key(x)
        && made.dirs.contains(x)) by {
        if dirs_to(at).contains(x) {
        }
    }
}

/// Putting a file into a directory keeps a tree well formed.
proof fn lemma_put_is_well_formed(
    tree: Tree,
    dst: Seq<u8>,
    names: Seq<Seq<u8>>,
    contents: Seq<u8>,
)
    requires
        tree.well_formed(),
        all_plain(names),
        names.len() > 0,
        tree.dirs.contains(spot(place(dst), names).drop_last()),
        !tree.dirs.contains(spot(place(dst), names)),
    ensures
        (Tree {
            files: tree.files.insert(spot(place(dst), names), contents),
            ..tree
        }).well_formed(),
{
    let at = spot(place(dst), names);
    let put = Tree { files: tree.files.insert(at, contents), ..tree };
    lemma_last_name(dst, names);
    assert forall|x: Seq<ComponentView>| #[trigger] put.has(x) implies x == at || tree.has(x) by {}
    assert(at.last() == ComponentView::Normal(names.last()));
}

// ---------------------------------------------------------------------------
// A copy
// ---------------------------------------------------------------------------

/// A directory that is due is there, and so are the names in it.
proof fn lemma_due_dir(
    src: Seq<u8>,
    old: Tree,
    tree: Tree,
    e: Exploration,
    dir: Seq<u8>,
) -> (names: Seq<Seq<u8>>)
    requires
        exploring(src, old, leaves_out_git(), e),
        is_due(src, leaves_out_git(), e, dir),
        same_below(old, tree, place(src)),
        tree.dirs.contains(place(src)),
    ensures
        all_plain(names),
        dir == path_at(src, names),
        dir == src <==> names.len() == 0,
        tree.dirs.contains(place(dir)),
        tree.names_in(place(dir)) == old.names_in(place(dir)),
{
    let names = lemma_due_names(src, old, leaves_out_git(), e, dir);
    lemma_path_at(src, names);
    if names.len() == 0 {
        assert(spot(place(src), names) =~= place(src));
    } else {
        assert(e.dirs.contains(dir));
        assert(same_at(old, tree, place(src), names));
    }
    assert forall|name: Seq<u8>| tree.names_in(place(dir)).contains(name) <==> old.names_in(
        place(dir),
    ).contains(name) by {
        if is_plain_name(name) {
            lemma_one_more_name(src, names, name);
            assert(same_at(old, tree, place(src), names.push(name)));
        }
    }
    assert(tree.names_in(place(dir)) =~= old.names_in(place(dir)));
    names
}

/// Going on with the next directory, or ending where none is left.
proof fn lemma_next_dir(
    src: Seq<u8>,
    dst: Seq<u8>,
    old: Tree,
    dirs: Seq<Seq<u8>>,
    files: Seq<Seq<u8>>,
    pending: Seq<Seq<u8>>,
    log: Seq<ActionView>,
    disk: Disk,
)
    requires
        disk.tree.well_formed(),
        disk.tree.dirs.contains(place(src)),
        same_below(old, disk.tree, place(src)),
        exploring(
            src,
            old,
            leaves_out_git(),
            Exploration { dirs, files, pending, current: None },
        ),
        dirs_stand(src, dst, disk.tree, dirs, pending),
        files_stand(src, dst, old, disk.tree, files, None),
        adds_copies(src, dst, old, disk.tree),
        copy_is_on_course(src, dst, copy_next(components(src).len(), dst, pending, log)),
    ensures
        match copy_next(components(src).len(), dst, pending, log) {
            TurnView::Ask(run, request) => copying(
                src,
                dst,
                old,
                dirs,
                files,
                run,
                request,
                disk,
            ),
            TurnView::End(_) => copied(src, dst, old, dirs, files, disk.tree),
        },
{
    if pending.len() == 0 {
        assert(pending =~= Seq::empty());
    } else {
        assert(pending.drop_last().push(pending.last()) =~= pending);
    }
}

proof fn lemma_entry_told(
    src: Seq<u8>,
    dst: Seq<u8>,
    old: Tree,
    dirs: Seq<Seq<u8>>,
    files: Seq<Seq<u8>>,
    run: CopyDirView,
    disk: Disk,
    name: Seq<u8>,
    is_dir: bool,
    next: Disk,
)
    requires
        copying(src, dst, old, dirs, files, run, RequestView::NextEntry, disk),
        run.at is Reading,
        disk.left.contains(name),
        is_dir == disk.tree.dirs.contains(place(join(disk.reading, name))),
        next == (Disk { left: disk.left.remove(name), ..disk }),
    ensures
        ({
            let reply = ReplyView::Entry { path: join(disk.reading, name), is_dir };
            &&& entry_is_of_dir(run, reply)
            &&& copy_step(run, reply) matches TurnView::Ask(after, request) && copying(
                src,
                dst,
                old,
                with_told(dirs, reply, true),
                with_told(files, reply, false),
                after,
                request,
                next,
            )
        }),
{
    let skips = leaves_out_git();
    let e = exploration_at(run, dirs, files, disk);
    let dir = disk.reading;
    let path = join(dir, name);
    let reply = ReplyView::Entry { path, is_dir };
    let target = run.at->Reading_target;
    assert(is_plain_name(name));
    assert(is_child(dir, path));
    lemma_step_is_on_course(src, dst, run, RequestView::NextEntry, reply);
    let ds = lemma_due_dir(src, old, disk.tree, e, dir);
    let names = ds.push(name);
    lemma_one_more_name(src, ds, name);
    lemma_path_at(src, names);
    assert(same_at(old, disk.tree, place(src), names));
    lemma_tells(src, old, skips, e, name, is_dir);
    let f = told(e, skips, name, is_dir);
    let more_dirs = with_told(dirs, reply, true);
    let more_files = with_told(files, reply, false);
    lemma_join_plain_name(dir, name);
    let after = copy_step(run, reply)->Ask_0;
    assert(exploration_at(after, more_dirs, more_files, next) == f);
    assert forall|ms: Seq<Seq<u8>>|
        #![trigger path_at(src, ms)]
        all_plain(ms) && (ms.len() == 0 || (more_dirs.contains(path_at(src, ms)) && !is_git_dir(
            path_at(src, ms),
        ))) && !dirs_left(after).contains(path_at(src, ms)) implies next.tree.has(
        spot(place(dst), ms),
    ) by {
        lemma_push_holds(run.pending, path, path_at(src, ms));
        lemma_push_holds(dirs, path, path_at(src, ms));
        if ms.len() > 0 && !dirs.contains(path_at(src, ms)) {
            assert(path_at(src, ms) == path);
            assert(dirs_left(after) == run.pending.push(path));
        }
    }
    assert forall|ms: Seq<Seq<u8>>|
        #![trigger path_at(src, ms)]
        all_plain(ms) && ms.len() > 0 && more_files.contains(path_at(src, ms)) && is_wanted_file(
            path_at(src, ms),
        ) && under_way(after) != Some(path_at(src, ms)) implies next.tree.files.contains_key(
        spot(place(dst), ms),
    ) && next.tree.files[spot(place(dst), ms)] == old.files[spot(place(src), ms)] by {
        lemma_push_holds(files, path, path_at(src, ms));
    }
    if after.at is Copying {
        lemma_push_holds(files, path, path);
        lemma_target_place(src, dst, ds, target);
        let to = after.at->to;
        assert(to == join(target, name));
        let one = seq![name];
        assert(path_at(target, one) == to) by {
            assert(one.drop_last() =~= Seq::<Seq<u8>>::empty());
            reveal_with_fuel(path_at, 2);
        }
        lemma_path_at(target, one);
        assert(spot(place(target), one) =~= spot(place(dst), names));
        assert(path == path_at(src, names));
    }
}

/// A directory is made for a copy.
proof fn lemma_dir_is_made(
    src: Seq<u8>,
    dst: Seq<u8>,
    old: Tree,
    dirs: Seq<Seq<u8>>,
    files: Seq<Seq<u8>>,
    run: CopyDirView,
    disk: Disk,
    next: Disk,
)
    requires
        apart(place(src), place(dst)),
        is_straight(place(dst)),
        run.at is Creating,
        copying(src, dst, old, dirs, files, run, waits_for(run), disk),
        answers(disk, waits_for(run), ReplyView::Done, next),
    ensures
        copy_step(run, ReplyView::Done) matches TurnView::Ask(after, request) && copying(
            src,
            dst,
            old,
            dirs,
            files,
            after,
            request,
            next,
        ),
{
    let e = exploration_at(run, dirs, files, disk);
    let dir = run.at->Creating_dir;
    let target = run.at->Creating_target;
    assert(e.pending.last() == dir);
    assert(e.pending.contains(dir));
    let names = lemma_due_dir(src, old, disk.tree, e, dir);
    lemma_target_place(src, dst, names, target);
    let at = place(target);
    lemma_straight_on(place(dst), names);
    lemma_made_is_well_formed(disk.tree, at);
    lemma_step_is_on_course(src, dst, run, waits_for(run), ReplyView::Done);
    let after = copy_step(run, ReplyView::Done)->Ask_0;
    assert(exploration_at(after, dirs, files, next) == e);
    assert(leads_to_a_copied_dir(src, old, names)) by {
        if names.len() > 0 {
            assert(e.dirs.contains(dir));
            assert(is_told(e, dir));
            lemma_told_is_reached(src, old, leaves_out_git(), e, names);
            lemma_path_at(src, names);
            lemma_reached_without_git(src, old, names);
            assert forall|k: int| 0 <= k < names.len() implies #[trigger] names[k]
                != vstd::utf8::encode_utf8(".git"@) by {
                if k < names.len() - 1 {
                    assert(names.drop_last()[k] == names[k]);
                }
            }
        }
    }
    assert forall|x: Seq<ComponentView>| #[trigger]
        next.tree.dirs.contains(x) && !old.dirs.contains(x) implies exists|ms: Seq<Seq<u8>>|
        leads_to_a_copied_dir(src, old, ms) && x.is_prefix_of(#[trigger] spot(place(dst), ms)) by {
        if !disk.tree.dirs.contains(x) {
            assert(dirs_to(at).contains(x));
            assert(x.is_prefix_of(spot(place(dst), names)));
        }
    }
    assert forall|ms: Seq<Seq<u8>>|
        all_plain(ms) && ms.len() > 0 implies #[trigger] same_at(
        old,
        next.tree,
        place(src),
        ms,
    ) by {
        assert(same_at(old, disk.tree, place(src), ms));
        lemma_way_is_apart(place(src), place(dst), ms, names);
        assert(!dirs_to(at).contains(spot(place(src), ms)));
    }
    assert forall|ms: Seq<Seq<u8>>|
        #![trigger path_at(src, ms)]
        all_plain(ms) && (ms.len() == 0 || (dirs.contains(path_at(src, ms)) && !is_git_dir(
            path_at(src, ms),
        ))) && !dirs_left(after).contains(path_at(src, ms)) implies next.tree.has(
        spot(place(dst), ms),
    ) by {
        lemma_push_holds(run.pending, dir, path_at(src, ms));
        if path_at(src, ms) == dir {
            lemma_path_at_differs(src, ms, names);
            assert(at.is_prefix_of(at));
            assert(dirs_to(at).contains(at));
        } else {
            assert(disk.tree.has(spot(place(dst), ms)));
        }
    }
}

/// A file is copied.
proof fn lemma_file_is_copied(
    src: Seq<u8>,
    dst: Seq<u8>,
    old: Tree,
    dirs: Seq<Seq<u8>>,
    files: Seq<Seq<u8>>,
    run: CopyDirView,
    disk: Disk,
    next: Disk,
)
    requires
        apart(place(src), place(dst)),
        run.at is Copying,
        copying(src, dst, old, dirs, files, run, waits_for(run), disk),
        answers(disk, waits_for(run), ReplyView::Done, next),
    ensures
        copy_step(run, ReplyView::Done) matches TurnView::Ask(after, request) && copying(
            src,
            dst,
            old,
            dirs,
            files,
            after,
            request,
            next,
        ),
{
    let from = run.at->from;
    let to = run.at->to;
    let names = choose|names: Seq<Seq<u8>>|
        all_plain(names) && names.len() > 0 && from == #[trigger] path_at(src, names) && place(to)
            == spot(place(dst), names);
    lemma_path_at(src, names);
    assert(same_at(old, disk.tree, place(src), names));
    lemma_put_is_well_formed(disk.tree, dst, names, disk.tree.files[place(from)]);
    lemma_step_is_on_course(src, dst, run, waits_for(run), ReplyView::Done);
    let after = copy_step(run, ReplyView::Done)->Ask_0;
    assert(exploration_at(after, dirs, files, next) == exploration_at(run, dirs, files, disk));
    assert(leads_to_a_copied_file(src, old, names)) by {
        let e = exploration_at(run, dirs, files, disk);
        assert(is_told(e, from));
        assert(e.files.contains(from));
        lemma_told_is_reached(src, old, leaves_out_git(), e, names);
        lemma_reached_without_git(src, old, names);
    }
    assert forall|x: Seq<ComponentView>| #[trigger]
        next.tree.files.contains_key(x) && !(old.files.contains_key(x) && old.files[x]
            == next.tree.files[x]) implies exists|ms: Seq<Seq<u8>>|
        leads_to_a_copied_file(src, old, ms) && x == #[trigger] spot(place(dst), ms)
            && next.tree.files[x] == old.files[spot(place(src), ms)] by {
        if x == place(to) {
            assert(x == spot(place(dst), names));
        } else {
            assert(disk.tree.files.contains_key(x));
        }
    }
    assert forall|ms: Seq<Seq<u8>>|
        all_plain(ms) && ms.len() > 0 implies #[trigger] same_at(
        old,
        next.tree,
        place(src),
        ms,
    ) by {
        assert(same_at(old, disk.tree, place(src), ms));
        lemma_apart(place(src), place(dst), ms, names);
    }
    assert forall|ms: Seq<Seq<u8>>|
        #![trigger path_at(src, ms)]
        all_plain(ms) && (ms.len() == 0 || (dirs.contains(path_at(src, ms)) && !is_git_dir(
            path_at(src, ms),
        ))) && !dirs_left(after).contains(path_at(src, ms)) implies next.tree.has(
        spot(place(dst), ms),
    ) by {
        assert(disk.tree.has(spot(place(dst), ms)));
    }
    assert forall|ms: Seq<Seq<u8>>|
        #![trigger path_at(src, ms)]
        all_plain(ms) && ms.len() > 0 && files.contains(path_at(src, ms)) && is_wanted_file(
            path_at(src, ms),
        ) && under_way(after) != Some(path_at(src, ms)) implies next.tree.files.contains_key(
        spot(place(dst), ms),
    ) && next.tree.files[spot(place(dst), ms)] == old.files[spot(place(src), ms)] by {
        lemma_path_at_differs(src, ms, names);
        lemma_path_at_differs(dst, ms, names);
    }
}

/// A copy goes on with what the disk answers. Only what it asks to be made can go
/// wrong.
proof fn lemma_copy_goes_on(
    src: Seq<u8>,
    dst: Seq<u8>,
    old: Tree,
    dirs: Seq<Seq<u8>>,
    files: Seq<Seq<u8>>,
    run: CopyDirView,
    request: RequestView,
    disk: Disk,
    reply: ReplyView,
    next: Disk,
)
    requires
        apart(place(src), place(dst)),
        is_straight(place(dst)),
        copying(src, dst, old, dirs, files, run, request, disk),
        answers(disk, request, reply, next),
    ensures
        entry_is_of_dir(run, reply),
        match copy_step(run, reply) {
            TurnView::Ask(after, request) => copying(
                src,
                dst,
                old,
                with_told(dirs, reply, true),
                with_told(files, reply, false),
                after,
                request,
                next,
            ),
            TurnView::End(CopyOutcomeView::Copied(_)) => copied(
                src,
                dst,
                old,
                with_told(dirs, reply, true),
                with_told(files, reply, false),
                next.tree,
            ),
            TurnView::End(CopyOutcomeView::Failed(_)) => run.at is Checking || run.at is Creating
                || run.at is Copying,
        },
{
    let skips = leaves_out_git();
    let e = exploration_at(run, dirs, files, disk);
    match run.at {
        CopyPointView::Checking { .. } => {
            lemma_step_is_on_course(src, dst, run, request, reply);
            if reply == ReplyView::Answer(true) {
                lemma_next_dir(src, dst, old, dirs, files, run.pending.push(src), run.log, next);
            }
        },
        CopyPointView::Probing { dir, target } => {
            lemma_step_is_on_course(src, dst, run, request, reply);
            let after = copy_step(run, reply)->Ask_0;
            assert(exploration_at(after, dirs, files, next) == e);
            if reply == ReplyView::Answer(true) {
                assert(e.pending.last() == dir);
                assert(e.pending.contains(dir));
                let names = lemma_due_dir(src, old, disk.tree, e, dir);
                lemma_target_place(src, dst, names, target);
                assert forall|ms: Seq<Seq<u8>>|
                    #![trigger path_at(src, ms)]
                    all_plain(ms) && (ms.len() == 0 || (dirs.contains(path_at(src, ms))
                        && !is_git_dir(path_at(src, ms)))) && !dirs_left(after).contains(
                        path_at(src, ms),
                    ) implies next.tree.has(spot(place(dst), ms)) by {
                    lemma_push_holds(run.pending, dir, path_at(src, ms));
                    if path_at(src, ms) == dir {
                        lemma_path_at_differs(src, ms, names);
                    }
                }
            }
        },
        CopyPointView::Creating { .. } => {
            if reply is Done {
                lemma_dir_is_made(src, dst, old, dirs, files, run, disk, next);
            }
        },
        CopyPointView::Opening { dir, target } => {
            assert(e.pending.last() == dir);
            assert(e.pending.contains(dir));
            assert(e.pending.drop_last() =~= run.pending);
            let names = lemma_due_dir(src, old, disk.tree, e, dir);
            lemma_step_is_on_course(src, dst, run, request, reply);
            lemma_opens(src, old, skips, e);
            let after = copy_step(run, reply)->Ask_0;
            assert(exploration_at(after, dirs, files, next) == opened(
                e,
                old.names_in(place(dir)),
            ));
        },
        CopyPointView::Reading { dir, target } => {
            if exists|name: Seq<u8>| disk.left.contains(name) {
                let name = choose|name: Seq<u8>| #[trigger]
                    disk.left.contains(name) && reply == (ReplyView::Entry {
                        path: join(disk.reading, name),
                        is_dir: disk.tree.dirs.contains(place(join(disk.reading, name))),
                    }) && next == (Disk { left: disk.left.remove(name), ..disk });
                let is_dir = disk.tree.dirs.contains(place(join(disk.reading, name)));
                lemma_entry_told(src, dst, old, dirs, files, run, disk, name, is_dir, next);
            } else {
                lemma_step_is_on_course(src, dst, run, request, reply);
                lemma_closes(src, old, skips, e);
                lemma_next_dir(src, dst, old, dirs, files, run.pending, run.log, next);
            }
        },
        CopyPointView::Copying { .. } => {
            if reply is Done {
                lemma_file_is_copied(src, dst, old, dirs, files, run, disk, next);
            }
        },
    }
}

/// Where a copy on a disk stands.
proof fn lemma_copy_so_far(
    src: Seq<u8>,
    dst: Seq<u8>,
    replies: Seq<ReplyView>,
    disks: Seq<Disk>,
)
    requires
        disks[0].tree.well_formed(),
        apart(place(src), place(dst)),
        is_straight(place(dst)),
        played(copy_start(src, dst), copy_stepper(), replies, disks),
    ensures
        all_fit(copy_start(src, dst), copy_stepper(), entries_of_dirs(), replies),
        after(copy_start(src, dst), copy_stepper(), replies) matches TurnView::Ask(run, request)
            ==> copying(
            src,
            dst,
            disks[0].tree,
            entries_told(replies, true),
            entries_told(replies, false),
            run,
            request,
            disks.last(),
        ),
    decreases replies.len(),
{
    let start = copy_start(src, dst);
    let step = copy_stepper();
    let old = disks[0].tree;
    if replies.len() == 0 {
        let none = Seq::<Seq<u8>>::empty();
        let run = start->Ask_0;
        let e = exploration_at(run, none, none, disks[0]);
        assert(e.pending =~= seq![src]);
        assert(e == setting_out(src));
        lemma_sets_out(src, old, leaves_out_git());
        lemma_push_holds(none, src, src);
        assert(dirs_left(run).contains(path_at(src, none)));
        assert forall|ms: Seq<Seq<u8>>|
            #![trigger path_at(src, ms)]
            ms.len() == 0 implies dirs_left(run).contains(path_at(src, ms)) by {
            assert(ms =~= none);
        }
    } else {
        let earlier = replies.drop_last();
        let disks_before = disks.drop_last();
        assert(disks_before.last() == disks[disks.len() - 2]);
        assert(disks_before[0] == disks[0]);
        lemma_copy_so_far(src, dst, earlier, disks_before);
        match after(start, step, earlier) {
            TurnView::Ask(run, request) => {
                lemma_copy_goes_on(
                    src,
                    dst,
                    old,
                    entries_told(earlier, true),
                    entries_told(earlier, false),
                    run,
                    request,
                    disks_before.last(),
                    replies.last(),
                    disks.last(),
                );
            },
            TurnView::End(_) => {},
        }
    }
}

/// What a copy on a disk that ends well leaves behind.
proof fn lemma_copy_ends(
    src: Seq<u8>,
    dst: Seq<u8>,
    replies: Seq<ReplyView>,
    last: ReplyView,
    log: Seq<ActionView>,
    disks: Seq<Disk>,
)
    requires
        disks[0].tree.well_formed(),
        apart(place(src), place(dst)),
        is_straight(place(dst)),
        played(copy_start(src, dst), copy_stepper(), replies.push(last), disks),
        after(copy_start(src, dst), copy_stepper(), replies) is Ask,
        after(copy_start(src, dst), copy_stepper(), replies.push(last)) == TurnView::<
            CopyDirView,
            CopyOutcomeView,
        >::End(CopyOutcomeView::Copied(log)),
    ensures
        all_fit(copy_start(src, dst), copy_stepper(), entries_of_dirs(), replies),
        copied(
            src,
            dst,
            disks[0].tree,
            entries_told(replies, true),
            entries_told(replies, false),
            disks.last().tree,
        ),
{
    let all = replies.push(last);
    let before = disks.drop_last();
    assert(all.drop_last() =~= replies);
    assert(before.last() == disks[disks.len() - 2]);
    assert(before[0] == disks[0]);
    lemma_copy_so_far(src, dst, replies, before);
    match after(copy_start(src, dst), copy_stepper(), replies) {
        TurnView::Ask(run, request) => {
            let dirs = entries_told(replies, true);
            let files = entries_told(replies, false);
            lemma_copy_goes_on(
                src,
                dst,
                disks[0].tree,
                dirs,
                files,
                run,
                request,
                before.last(),
                last,
                disks.last(),
            );
            assert(!(last is Entry));
        },
        TurnView::End(_) => {},
    }
}

// ---------------------------------------------------------------------------
// Copying again
// ---------------------------------------------------------------------------

/// Whether what a copy would make out of what the names lead to is there: something
/// that stands for a directory, and for a wanted file one that holds the same.
spec fn is_mirrored_at(src: Seq<u8>, dst: Seq<u8>, tree: Tree, names: Seq<Seq<u8>>) -> bool {
    let from = spot(place(src), names);
    let to = spot(place(dst), names);
    &&& names.len() == 0 ==> tree.has(to)
    &&& names.len() > 0 && is_reached(src, tree, leaves_out_git(), names) ==> {
        &&& tree.dirs.contains(from) && !is_git_dir(path_at(src, names)) ==> tree.has(to)
        &&& tree.files.contains_key(from) && is_wanted_file(path_at(src, names))
            ==> tree.files.contains_key(to) && tree.files[to] == tree.files[from]
    }
}

/// Whether everything that a copy would make is there.
spec fn is_mirrored(src: Seq<u8>, dst: Seq<u8>, tree: Tree) -> bool {
    &&& tree.dirs.contains(place(src))
    &&& forall|names: Seq<Seq<u8>>|
        all_plain(names) ==> #[trigger] is_mirrored_at(src, dst, tree, names)
}

proof fn lemma_copied_is_mirrored(
    src: Seq<u8>,
    dst: Seq<u8>,
    old: Tree,
    dirs: Seq<Seq<u8>>,
    files: Seq<Seq<u8>>,
    tree: Tree,
)
    requires
        old.well_formed(),
        copied(src, dst, old, dirs, files, tree),
    ensures
        is_mirrored(src, dst, tree),
{
    let skips = leaves_out_git();
    let e = Exploration { dirs, files, pending: Seq::empty(), current: None };
    let none = Seq::<Seq<u8>>::empty();
    assert forall|names: Seq<Seq<u8>>|
        all_plain(names) implies #[trigger] is_mirrored_at(src, dst, tree, names) by {
        assert(!none.contains(path_at(src, names)));
        if names.len() > 0 && is_reached(src, tree, skips, names) {
            assert(same_at(old, tree, place(src), names));
            assert(is_reached(src, old, skips, names));
            lemma_all_told(src, old, skips, e, names);
        }
    }
}

/// Copying what is mirrored finds everything there, and changes nothing.
proof fn lemma_again_goes_on(
    src: Seq<u8>,
    dst: Seq<u8>,
    dirs: Seq<Seq<u8>>,
    files: Seq<Seq<u8>>,
    run: CopyDirView,
    request: RequestView,
    disk: Disk,
    reply: ReplyView,
    next: Disk,
)
    requires
        apart(place(src), place(dst)),
        is_straight(place(dst)),
        is_mirrored(src, dst, disk.tree),
        copying(src, dst, disk.tree, dirs, files, run, request, disk),
        !(run.at is Creating),
        answers(disk, request, reply, next),
    ensures
        next.tree == disk.tree,
        run.at is Probing ==> reply == ReplyView::Answer(true),
        copy_step(run, reply) matches TurnView::Ask(after, _) ==> !(after.at is Creating),
        copy_step(run, reply) matches TurnView::End(outcome) ==> outcome is Copied,
{
    let tree = disk.tree;
    let skips = leaves_out_git();
    let e = exploration_at(run, dirs, files, disk);
    lemma_copy_goes_on(src, dst, tree, dirs, files, run, request, disk, reply, next);
    match run.at {
        CopyPointView::Probing { dir, target } => {
            assert(e.pending.last() == dir);
            assert(e.pending.contains(dir));
            let names = lemma_due_dir(src, tree, tree, e, dir);
            lemma_target_place(src, dst, names, target);
            lemma_path_at(src, names);
            if names.len() > 0 {
                assert(is_told(e, dir));
                lemma_told_is_reached(src, tree, skips, e, names);
            }
            assert(is_mirrored_at(src, dst, tree, names));
        },
        CopyPointView::Copying { from, to, .. } => {
            let names = choose|names: Seq<Seq<u8>>|
                all_plain(names) && names.len() > 0 && from == #[trigger] path_at(src, names)
                    && place(to) == spot(place(dst), names);
            lemma_path_at(src, names);
            assert(is_told(e, from));
            assert(tree.files.contains_key(place(from)));
            lemma_told_is_reached(src, tree, skips, e, names);
            assert(is_mirrored_at(src, dst, tree, names));
            assert(tree.files.contains_key(place(to)));
            assert(tree.has(place(to)));
            assert(tree.files.insert(place(to), tree.files[place(from)]) =~= tree.files);
        },
        _ => {},
    }
}

proof fn lemma_again_so_far(
    src: Seq<u8>,
    dst: Seq<u8>,
    replies: Seq<ReplyView>,
    disks: Seq<Disk>,
)
    requires
        disks[0].tree.well_formed(),
        apart(place(src), place(dst)),
        is_straight(place(dst)),
        is_mirrored(src, dst, disks[0].tree),
        played(copy_start(src, dst), copy_stepper(), replies, disks),
    ensures
        all_fit(copy_start(src, dst), copy_stepper(), everything_is_there(), replies),
        disks.last().tree == disks[0].tree,
        match after(copy_start(src, dst), copy_stepper(), replies) {
            TurnView::Ask(run, _) => !(run.at is Creating),
            TurnView::End(outcome) => outcome is Copied,
        },
    decreases replies.len(),
{
    let start = copy_start(src, dst);
    let step = copy_stepper();
    if replies.len() > 0 {
        let earlier = replies.drop_last();
        let disks_before = disks.drop_last();
        assert(disks_before.last() == disks[disks.len() - 2]);
        assert(disks_before[0] == disks[0]);
        lemma_again_so_far(src, dst, earlier, disks_before);
        lemma_copy_so_far(src, dst, earlier, disks_before);
        match after(start, step, earlier) {
            TurnView::Ask(run, request) => {
                lemma_again_goes_on(
                    src,
                    dst,
                    entries_told(earlier, true),
                    entries_told(earlier, false),
                    run,
                    request,
                    disks_before.last(),
                    replies.last(),
                    disks.last(),
                );
            },
            TurnView::End(_) => {},
        }
    }
}

/// Two lists that hold the same, and nothing twice, hold it as often.
proof fn lemma_same_items(a: Seq<Seq<u8>>, b: Seq<Seq<u8>>)
    requires
        a.no_duplicates(),
        b.no_duplicates(),
        forall|p: Seq<u8>| a.contains(p) <==> b.contains(p),
    ensures
        a.to_multiset() == b.to_multiset(),
{
    broadcast use vstd::seq_lib::group_to_multiset_ensures;
    a.lemma_multiset_has_no_duplicates();
    b.lemma_multiset_has_no_duplicates();
    assert forall|p: Seq<u8>| a.to_multiset().count(p) == b.to_multiset().count(p) by {
        assert(a.contains(p) <==> a.to_multiset().count(p) > 0);
        assert(b.contains(p) <==> b.to_multiset().count(p) > 0);
        assert(a.contains(p) <==> b.contains(p));
    }
    assert(a.to_multiset() =~= b.to_multiset());
}

/// Two copies from the same directories are told of the same.
proof fn lemma_told_alike(
    src: Seq<u8>,
    old: Tree,
    new: Tree,
    e: Exploration,
    f: Exploration,
)
    requires
        old.well_formed(),
        new.well_formed(),
        same_below(old, new, place(src)),
        exploring(src, old, leaves_out_git(), e),
        exploring(src, new, leaves_out_git(), f),
        e.current is None && e.pending.len() == 0,
        f.current is None && f.pending.len() == 0,
    ensures
        e.dirs.to_multiset() == f.dirs.to_multiset(),
        e.files.to_multiset() == f.files.to_multiset(),
{
    let skips = leaves_out_git();
    assert forall|p: Seq<u8>|
        (e.dirs.contains(p) <==> f.dirs.contains(p)) && (e.files.contains(p) <==> f.files.contains(
            p,
        )) by {
        if is_told(e, p) || is_told(f, p) {
            assert(leads_to(src, p));
            let names = choose|names: Seq<Seq<u8>>|
                all_plain(names) && names.len() > 0 && p == #[trigger] path_at(src, names);
            assert(same_at(old, new, place(src), names));
            assert(is_reached(src, old, skips, names) <==> is_reached(src, new, skips, names));
            lemma_all_told(src, old, skips, e, names);
            lemma_all_told(src, new, skips, f, names);
        }
    }
    lemma_same_items(e.dirs, f.dirs);
    lemma_same_items(e.files, f.files);
}

/// Copying twice does on a disk what copying once does: where `src` and `dst` are
/// apart from each other, and nothing but names comes after a name in `dst`, a copy
/// right after one that ended well ends well too, makes no directory, copies the same
/// files to the same places, passes over the same paths, and leaves the disk as it
/// was.
pub proof fn law_copying_twice_is_copying_once(
    src: Seq<u8>,
    dst: Seq<u8>,
    first: Seq<ReplyView>,
    first_last: ReplyView,
    first_log: Seq<ActionView>,
    first_disks: Seq<Disk>,
    second: Seq<ReplyView>,
    second_last: ReplyView,
    outcome: CopyOutcomeView,
    second_disks: Seq<Disk>,
)
    requires
        first_disks[0].tree.well_formed(),
        apart(place(src), place(dst)),
        is_straight(place(dst)),
        played(copy_start(src, dst), copy_stepper(), first.push(first_last), first_disks),
        after(copy_start(src, dst), copy_stepper(), first) is Ask,
        after(copy_start(src, dst), copy_stepper(), first.push(first_last)) == TurnView::<
            CopyDirView,
            CopyOutcomeView,
        >::End(CopyOutcomeView::Copied(first_log)),
        second_disks[0].tree == first_disks.last().tree,
        played(copy_start(src, dst), copy_stepper(), second.push(second_last), second_disks),
        after(copy_start(src, dst), copy_stepper(), second) is Ask,
        after(copy_start(src, dst), copy_stepper(), second.push(second_last)) == TurnView::<
            CopyDirView,
            CopyOutcomeView,
        >::End(outcome),
    ensures
        outcome matches CopyOutcomeView::Copied(log) && {
            &&& makes_no_directory(log)
            &&& copies_logged(log).to_multiset() == copies_logged(first_log).to_multiset()
            &&& paths_ignored(log).to_multiset() == paths_ignored(first_log).to_multiset()
        },
        second_disks.last().tree == first_disks.last().tree,
{
    let old = first_disks[0].tree;
    let tree = first_disks.last().tree;
    let none = Seq::<Seq<u8>>::empty();
    lemma_copy_ends(src, dst, first, first_last, first_log, first_disks);
    let e = Exploration {
        dirs: entries_told(first, true),
        files: entries_told(first, false),
        pending: none,
        current: None,
    };
    lemma_copied_is_mirrored(src, dst, old, e.dirs, e.files, tree);
    lemma_again_so_far(src, dst, second.push(second_last), second_disks);
    assert(second.push(second_last).drop_last() =~= second);
    let log = outcome->Copied_0;
    lemma_copy_ends(src, dst, second, second_last, log, second_disks);
    let f = Exploration {
        dirs: entries_told(second, true),
        files: entries_told(second, false),
        pending: none,
        current: None,
    };
    lemma_told_alike(src, old, tree, e, f);
    assert forall|is_dir: bool|
        (#[trigger] entries_told(first, is_dir)).to_multiset() == entries_told(
            second,
            is_dir,
        ).to_multiset() by {
        if is_dir {
        }
    }
    law_copying_again_does_the_same(
        src,
        dst,
        first,
        first_last,
        first_log,
        second,
        second_last,
        log,
    );
}

/// A copy on a disk that ends well mirrors `src` at `dst`: every protobuf file below
/// `src`, and every file that configures what is generated out of them, has a copy that
/// holds the same at the same place below `dst`, and something stands for every
/// directory, but for what is in a directory called `.git`. Nothing is lost, and
/// nothing else comes to be or changes.
pub proof fn law_copy_mirrors_the_directory(
    src: Seq<u8>,
    dst: Seq<u8>,
    replies: Seq<ReplyView>,
    last: ReplyView,
    log: Seq<ActionView>,
    disks: Seq<Disk>,
)
    requires
        disks[0].tree.well_formed(),
        apart(place(src), place(dst)),
        is_straight(place(dst)),
        played(copy_start(src, dst), copy_stepper(), replies.push(last), disks),
        after(copy_start(src, dst), copy_stepper(), replies) is Ask,
        after(copy_start(src, dst), copy_stepper(), replies.push(last)) == TurnView::<
            CopyDirView,
            CopyOutcomeView,
        >::End(CopyOutcomeView::Copied(log)),
    ensures
        ({
            let old = disks[0].tree;
            let tree = disks.last().tree;
            &&& forall|names: Seq<Seq<u8>>| #[trigger]
                leads_to_a_copied_file(src, old, names) ==> tree.files.contains_key(
                    spot(place(dst), names),
                ) && tree.files[spot(place(dst), names)] == old.files[spot(place(src), names)]
            &&& forall|names: Seq<Seq<u8>>| #[trigger]
                leads_to_a_copied_dir(src, old, names) ==> tree.has(spot(place(dst), names))
            &&& adds_copies(src, dst, old, tree)
            &&& same_below(old, tree, place(src))
        }),
{
    let old = disks[0].tree;
    let tree = disks.last().tree;
    let skips = leaves_out_git();
    lemma_copy_ends(src, dst, replies, last, log, disks);
    let e = Exploration {
        dirs: entries_told(replies, true),
        files: entries_told(replies, false),
        pending: Seq::empty(),
        current: None,
    };
    let none = Seq::<Seq<u8>>::empty();
    assert forall|names: Seq<Seq<u8>>| #[trigger]
        leads_to_a_copied_file(src, old, names) implies tree.files.contains_key(
        spot(place(dst), names),
    ) && tree.files[spot(place(dst), names)] == old.files[spot(place(src), names)] by {
        lemma_reached_without_git(src, old, names);
        lemma_all_told(src, old, skips, e, names);
    }
    assert forall|names: Seq<Seq<u8>>| #[trigger]
        leads_to_a_copied_dir(src, old, names) implies tree.has(spot(place(dst), names)) by {
        assert(!none.contains(path_at(src, names)));
        if names.len() > 0 {
            assert forall|k: int| 0 <= k < names.drop_last().len() implies #[trigger]
                names.drop_last()[k] != vstd::utf8::encode_utf8(".git"@) by {
                assert(names.drop_last()[k] == names[k]);
            }
            assert(names[names.len() - 1] == names.last());
            lemma_reached_without_git(src, old, names);
            lemma_all_told(src, old, skips, e, names);
        }
    }
}

} // verus!
