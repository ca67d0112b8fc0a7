//! A disk that answers what runs ask for.
//!
//! Some laws speak of runs that work
//! on such a disk. It holds files and directories and no links, and a request fails
//! on it only where what it asks for cannot be done.
use crate::actions::TargetBuildActionsView;
use crate::command::CommandView;
use crate::path::{
    components, is_below, is_plain_name, join, lemma_join_plain_name, same_path, ComponentView,
};
use crate::protocol::{after, ReplyView, RequestView, TurnView};
use vstd::prelude::*;

verus! {

/// The files, with what they hold, and the directories that there are. Each is
/// known by its place.
pub struct Tree {
    pub files: Map<Seq<ComponentView>, Seq<u8>>,
    pub dirs: Set<Seq<ComponentView>>,
}

/// A disk, and what it remembers from one request to the next.
pub struct Disk {
    pub tree: Tree,
    /// The directory that was opened last.
    pub reading: Seq<u8>,
    /// The names in it that were not told of yet.
    pub left: Set<Seq<u8>>,
    /// The record of what builds added, where one was written.
    pub record: Option<Seq<TargetBuildActionsView>>,
}

/// The place that a path is of: `./a` and `a` are of the same.
pub open spec fn place(path: Seq<u8>) -> Seq<ComponentView> {
    let cs = components(path);
    if cs.len() > 0 && cs[0] is CurDir {
        cs.skip(1)
    } else {
        cs
    }
}

/// Whether all are names of a file or directory.
pub open spec fn all_plain(names: Seq<Seq<u8>>) -> bool {
    forall|i: int| 0 <= i < names.len() ==> is_plain_name(#[trigger] names[i])
}

/// The place that the names lead to, one after the other.
pub open spec fn spot(at: Seq<ComponentView>, names: Seq<Seq<u8>>) -> Seq<ComponentView> {
    at + names.map_values(|name: Seq<u8>| ComponentView::Normal(name))
}

/// The path that the names lead to, one after the other.
pub open spec fn path_at(base: Seq<u8>, names: Seq<Seq<u8>>) -> Seq<u8>
    decreases names.len(),
{
    if names.len() == 0 {
        base
    } else {
        join(path_at(base, names.drop_last()), names.last())
    }
}

impl Tree {
    /// Whether there is a file or a directory.
    pub open spec fn has(self, at: Seq<ComponentView>) -> bool {
        self.files.contains_key(at) || self.dirs.contains(at)
    }

    /// The names of what is in a directory.
    pub open spec fn names_in(self, at: Seq<ComponentView>) -> Set<Seq<u8>> {
        Set::new(
            |name: Seq<u8>| is_plain_name(name) && self.has(at.push(ComponentView::Normal(name))),
        )
    }

    /// Nothing is both a file and a directory, everything is in a directory, and
    /// nothing but names comes after a name.
    pub open spec fn well_formed(self) -> bool {
        &&& forall|at: Seq<ComponentView>|
            !(#[trigger] self.files.contains_key(at) && self.dirs.contains(at))
        &&& forall|at: Seq<ComponentView>| #[trigger]
            self.has(at) && at.len() > 0 ==> self.dirs.contains(at.drop_last())
        &&& forall|at: Seq<ComponentView>| #[trigger]
            self.has(at) && at.len() > 1 && at[at.len() - 2] is Normal ==> (at.last() matches
                ComponentView::Normal(name) && is_plain_name(name))
    }
}

/// Whether a place is the same in both trees: a file that holds the same, a
/// directory, or nothing.
pub open spec fn same_place(a: Tree, b: Tree, x: Seq<ComponentView>) -> bool {
    &&& a.files.contains_key(x) == b.files.contains_key(x)
    &&& a.files.contains_key(x) ==> a.files[x] == b.files[x]
    &&& a.dirs.contains(x) == b.dirs.contains(x)
}

/// Whether what the names lead to is the same in both trees.
pub open spec fn same_at(a: Tree, b: Tree, at: Seq<ComponentView>, names: Seq<Seq<u8>>) -> bool {
    same_place(a, b, spot(at, names))
}

/// Whether everything below a place is the same in both trees.
pub open spec fn same_below(a: Tree, b: Tree, at: Seq<ComponentView>) -> bool {
    forall|names: Seq<Seq<u8>>|
        all_plain(names) && names.len() > 0 ==> #[trigger] same_at(a, b, at, names)
}

/// Whether a place is below another.
pub open spec fn lies_below(at: Seq<ComponentView>, x: Seq<ComponentView>) -> bool {
    exists|names: Seq<Seq<u8>>|
        all_plain(names) && names.len() > 0 && x == #[trigger] spot(at, names)
}

/// Whether everything in one tree is in the other, and is the same there.
pub open spec fn grows(old: Tree, new: Tree) -> bool {
    &&& forall|x: Seq<ComponentView>| #[trigger]
        old.files.contains_key(x) ==> new.files.contains_key(x) && new.files[x] == old.files[x]
    &&& forall|x: Seq<ComponentView>| #[trigger] old.dirs.contains(x) ==> new.dirs.contains(x)
}

/// Whether nothing is lost or changed from one to the other, and what is new is
/// below the place.
pub open spec fn only_adds(a: Tree, b: Tree, at: Seq<ComponentView>) -> bool {
    &&& grows(a, b)
    &&& forall|x: Seq<ComponentView>| #[trigger] b.has(x) && !a.has(x) ==> lies_below(at, x)
}

/// The directories that a path goes through, and the one that it leads to.
pub open spec fn dirs_to(at: Seq<ComponentView>) -> Set<Seq<ComponentView>> {
    Set::new(|x: Seq<ComponentView>| x.is_prefix_of(at))
}

/// Whether a program did on the disk what the generator may do: it added something
/// below the directory that is its last argument, or nothing at all.
pub open spec fn generates(disk: Disk, command: CommandView, next: Disk) -> bool {
    &&& next == Disk { tree: next.tree, ..disk }
    &&& next.tree.well_formed()
    &&& only_adds(disk.tree, next.tree, place(command.args.last()))
}

/// Whether `reply` is what the disk answers to the request, and `next` is the disk
/// as it is then. The names in a directory are told in any order. What is asked for
/// and has nothing to do with the disk may be answered in any way.
pub open spec fn answers(disk: Disk, request: RequestView, reply: ReplyView, next: Disk) -> bool {
    let tree = disk.tree;
    match request {
        RequestView::Exists(p) => reply == ReplyView::Answer(tree.has(place(p))) && next == disk,
        RequestView::IsDir(p) => reply == ReplyView::Answer(tree.dirs.contains(place(p))) && next
            == disk,
        RequestView::OpenDir(p) => if tree.dirs.contains(place(p)) {
            reply is Done && next == Disk { reading: p, left: tree.names_in(place(p)), ..disk }
        } else {
            reply is Failed && next == disk
        },
        RequestView::NextEntry => if exists|name: Seq<u8>| disk.left.contains(name) {
            exists|name: Seq<u8>| #[trigger]
                disk.left.contains(name) && reply == (ReplyView::Entry {
                    path: join(disk.reading, name),
                    is_dir: tree.dirs.contains(place(join(disk.reading, name))),
                }) && next == (Disk { left: disk.left.remove(name), ..disk })
        } else {
            reply is EndOfDir && next == disk
        },
        RequestView::IsEmptyDir(p) => {
            &&& next == disk
            &&& if tree.dirs.contains(place(p)) {
                reply == ReplyView::Answer(
                    forall|name: Seq<u8>| !(#[trigger] tree.names_in(place(p)).contains(name)),
                )
            } else {
                reply is Failed
            }
        },
        RequestView::RemoveFile(p) => if tree.files.contains_key(place(p)) {
            reply is Done && next == (Disk {
                tree: Tree { files: tree.files.remove(place(p)), ..tree },
                ..disk
            })
        } else {
            reply is Failed && next == disk
        },
        RequestView::RemoveDir(p) => if tree.dirs.contains(place(p)) && forall|name: Seq<u8>|
            !(#[trigger] tree.names_in(place(p)).contains(name)) {
            reply is Done && next == (Disk {
                tree: Tree { dirs: tree.dirs.remove(place(p)), ..tree },
                ..disk
            })
        } else {
            reply is Failed && next == disk
        },
        RequestView::RemoveDirAll(p) => if tree.dirs.contains(place(p)) {
            reply is Done && next == (Disk {
                tree: Tree {
                    files: tree.files.remove_keys(
                        Set::new(|x: Seq<ComponentView>| place(p).is_prefix_of(x)),
                    ),
                    dirs: tree.dirs.difference(
                        Set::new(|x: Seq<ComponentView>| place(p).is_prefix_of(x)),
                    ),
                },
                ..disk
            })
        } else {
            reply is Failed && next == disk
        },
        RequestView::CreateDir(p) => if place(p).len() > 0 && !tree.has(place(p))
            && tree.dirs.contains(place(p).drop_last()) {
            reply is Done && next == (Disk {
                tree: Tree { dirs: tree.dirs.insert(place(p)), ..tree },
                ..disk
            })
        } else {
            reply is Failed && next == disk
        },
        RequestView::CreateDirAll(p) => if forall|x: Seq<ComponentView>| #[trigger]
            dirs_to(place(p)).contains(x) ==> !tree.files.contains_key(x) {
            reply is Done && next == (Disk {
                tree: Tree { dirs: tree.dirs.union(dirs_to(place(p))), ..tree },
                ..disk
            })
        } else {
            reply is Failed && next == disk
        },
        RequestView::CopyFile { src, dst } => if tree.files.contains_key(place(src)) && place(
            dst,
        ).len() > 0 && tree.dirs.contains(place(dst).drop_last()) && !tree.dirs.contains(
            place(dst),
        ) {
            reply is Done && next == (Disk {
                tree: Tree {
                    files: tree.files.insert(place(dst), tree.files[place(src)]),
                    ..tree
                },
                ..disk
            })
        } else {
            reply is Failed && next == disk
        },
        RequestView::ReadBuildActions(_) => next == disk && match disk.record {
            Some(actions) => reply == ReplyView::BuildActions(actions),
            None => reply is Failed,
        },
        RequestView::WriteBuildActions { path, actions } => reply is Done && next == (Disk {
            record: Some(actions),
            ..disk
        }),
        RequestView::Run(command) => (reply is Exited || reply is Failed) && generates(
            disk,
            command,
            next,
        ),
        _ => next == disk,
    }
}

/// Whether a run was given the replies by the disk: `disks` are the disk before the
/// first reply and after each of them.
pub open spec fn played<R, T>(
    start: TurnView<R, T>,
    step: spec_fn(R, ReplyView) -> TurnView<R, T>,
    replies: Seq<ReplyView>,
    disks: Seq<Disk>,
) -> bool
    decreases replies.len(),
{
    &&& disks.len() == replies.len() + 1
    &&& replies.len() > 0 ==> {
        &&& played(start, step, replies.drop_last(), disks.drop_last())
        &&& match after(start, step, replies.drop_last()) {
            TurnView::Ask(_, request) => answers(
                disks[disks.len() - 2],
                request,
                replies.last(),
                disks.last(),
            ),
            TurnView::End(_) => disks.last() == disks[disks.len() - 2],
        }
    }
}

/// What holds at the start and is kept by every answer of the disk holds wherever a
/// run stands.
pub proof fn lemma_played<R, T>(
    start: TurnView<R, T>,
    step: spec_fn(R, ReplyView) -> TurnView<R, T>,
    replies: Seq<ReplyView>,
    disks: Seq<Disk>,
    holds: spec_fn(TurnView<R, T>, Disk) -> bool,
)
    requires
        played(start, step, replies, disks),
        holds(start, disks[0]),
        forall|run: R, request: RequestView, disk: Disk, reply: ReplyView, next: Disk|
            #![trigger holds(TurnView::Ask(run, request), disk), answers(disk, request, reply, next)]
            holds(TurnView::Ask(run, request), disk) && answers(disk, request, reply, next)
                ==> holds(step(run, reply), next),
    ensures
        holds(after(start, step, replies), disks.last()),
    decreases replies.len(),
{
    if replies.len() > 0 {
        let earlier = disks.drop_last();
        assert(earlier.last() == disks[disks.len() - 2]);
        assert(earlier[0] == disks[0]);
        lemma_played(start, step, replies.drop_last(), earlier, holds);
        match after(start, step, replies.drop_last()) {
            TurnView::Ask(run, request) => {
                assert(holds(TurnView::Ask(run, request), earlier.last()));
                assert(answers(earlier.last(), request, replies.last(), disks.last()));
            },
            TurnView::End(_) => {},
        }
    }
}

// ---------------------------------------------------------------------------
// Places and the paths that lead to them
// ---------------------------------------------------------------------------

/// The path that names lead to is of the place that they lead to.
pub proof fn lemma_path_at(base: Seq<u8>, names: Seq<Seq<u8>>)
    requires
        all_plain(names),
    ensures
        components(path_at(base, names)) == spot(components(base), names),
        place(path_at(base, names)) == spot(place(base), names),
    decreases names.len(),
{
    let cs = components(base);
    let ms = names.map_values(|name: Seq<u8>| ComponentView::Normal(name));
    if names.len() == 0 {
        assert(spot(cs, names) =~= cs);
    } else {
        let first = names.drop_last();
        assert forall|i: int| 0 <= i < first.len() implies is_plain_name(#[trigger] first[i]) by {
            assert(first[i] == names[i]);
        }
        lemma_path_at(base, first);
        lemma_join_plain_name(path_at(base, first), names.last());
        assert(spot(cs, names) =~= spot(cs, first).push(ComponentView::Normal(names.last())));
    }
    let all = spot(cs, names);
    if cs.len() == 0 {
        assert(all =~= ms);
        if names.len() > 0 {
            assert(ms[0] is Normal);
        }
        assert(spot(place(base), names) =~= ms);
    } else if cs[0] is CurDir {
        assert(all[0] == cs[0]);
        assert(all.skip(1) =~= cs.skip(1) + ms);
    } else {
        assert(all[0] == cs[0]);
    }
}

/// Different names lead to different paths and places.
pub proof fn lemma_path_at_differs(base: Seq<u8>, a: Seq<Seq<u8>>, b: Seq<Seq<u8>>)
    requires
        all_plain(a),
        all_plain(b),
    ensures
        same_path(path_at(base, a), path_at(base, b)) <==> a == b,
        path_at(base, a) == path_at(base, b) <==> a == b,
        spot(place(base), a) == spot(place(base), b) <==> a == b,
{
    lemma_path_at(base, a);
    lemma_path_at(base, b);
    if same_path(path_at(base, a), path_at(base, b)) {
        lemma_spot_differs(components(base), a, b);
    }
    if spot(place(base), a) == spot(place(base), b) {
        lemma_spot_differs(place(base), a, b);
    }
}

proof fn lemma_spot_differs(at: Seq<ComponentView>, a: Seq<Seq<u8>>, b: Seq<Seq<u8>>)
    requires
        spot(at, a) == spot(at, b),
    ensures
        a == b,
{
    assert(spot(at, a).len() == at.len() + a.len());
    assert(spot(at, b).len() == at.len() + b.len());
    assert forall|i: int| 0 <= i < a.len() implies a[i] == b[i] by {
        assert(spot(at, a)[at.len() + i] == ComponentView::Normal(a[i]));
        assert(spot(at, b)[at.len() + i] == ComponentView::Normal(b[i]));
    }
    assert(a =~= b);
}

/// One more name leads into the directory that the others lead to.
pub proof fn lemma_one_more_name(base: Seq<u8>, names: Seq<Seq<u8>>, name: Seq<u8>)
    requires
        all_plain(names),
        is_plain_name(name),
    ensures
        all_plain(names.push(name)),
        names.push(name).drop_last() == names,
        path_at(base, names.push(name)) == join(path_at(base, names), name),
        spot(place(base), names.push(name)) == spot(place(base), names).push(
            ComponentView::Normal(name),
        ),
        spot(place(base), names.push(name)).drop_last() == spot(place(base), names),
        is_below(path_at(base, names.push(name)), path_at(base, names)),
{
    let more = names.push(name);
    assert(more.drop_last() =~= names);
    assert forall|i: int| 0 <= i < more.len() implies is_plain_name(#[trigger] more[i]) by {
        if i < names.len() {
            assert(more[i] == names[i]);
        }
    }
    assert(spot(place(base), more) =~= spot(place(base), names).push(ComponentView::Normal(name)));
    assert(spot(place(base), more).drop_last() =~= spot(place(base), names));
    lemma_path_at(base, names);
    lemma_path_at(base, more);
    assert(components(path_at(base, more)).take(components(path_at(base, names)).len() as int)
        =~= components(path_at(base, names)));
}

/// The last name leads out of the directory that the others lead to.
pub proof fn lemma_last_name(base: Seq<u8>, names: Seq<Seq<u8>>)
    requires
        all_plain(names),
        names.len() > 0,
    ensures
        all_plain(names.drop_last()),
        is_plain_name(names.last()),
        names.drop_last().push(names.last()) == names,
        path_at(base, names) == join(path_at(base, names.drop_last()), names.last()),
        spot(place(base), names) == spot(place(base), names.drop_last()).push(
            ComponentView::Normal(names.last()),
        ),
        spot(place(base), names).drop_last() == spot(place(base), names.drop_last()),
{
    let first = names.drop_last();
    assert forall|i: int| 0 <= i < first.len() implies is_plain_name(#[trigger] first[i]) by {
        assert(first[i] == names[i]);
    }
    assert(first.push(names.last()) =~= names);
    lemma_one_more_name(base, first, names.last());
}

/// Whether neither place is the other or below it.
pub open spec fn apart(a: Seq<ComponentView>, b: Seq<ComponentView>) -> bool {
    !a.is_prefix_of(b) && !b.is_prefix_of(a)
}

/// What is at or below one of two places that are apart is not at or below the
/// other.
pub proof fn lemma_apart(
    a: Seq<ComponentView>,
    b: Seq<ComponentView>,
    x: Seq<Seq<u8>>,
    y: Seq<Seq<u8>>,
)
    requires
        apart(a, b),
    ensures
        spot(a, x) != spot(b, y),
        spot(a, x) != b,
        spot(b, y) != a,
{
    if spot(a, x) == spot(b, y) {
        if a.len() <= b.len() {
            assert(spot(a, x).take(a.len() as int) =~= a);
            assert(spot(b, y).take(a.len() as int) =~= b.take(a.len() as int));
            assert(a.is_prefix_of(b));
        } else {
            assert(spot(a, x).take(b.len() as int) =~= a.take(b.len() as int));
            assert(spot(b, y).take(b.len() as int) =~= b);
            assert(b.is_prefix_of(a));
        }
    }
    if spot(a, x) == b {
        assert(b.take(a.len() as int) =~= a);
        assert(a.is_prefix_of(b));
    }
    if spot(b, y) == a {
        assert(a.take(b.len() as int) =~= b);
        assert(b.is_prefix_of(a));
    }
}

} // verus!
