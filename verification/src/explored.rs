//! Reading a directory and the directories below it, one after the other.
use crate::disk::{
    all_plain, lemma_last_name, lemma_one_more_name, lemma_path_at, lemma_path_at_differs, path_at,
    place, spot, Tree,
};
use crate::path::{is_plain_name, join, ComponentView};
use crate::search::lemma_push_holds;
use vstd::prelude::*;

verus! {

/// How far the reading of directories has come.
pub struct Exploration {
    /// The directories that were told of.
    pub dirs: Seq<Seq<u8>>,
    /// The files that were told of.
    pub files: Seq<Seq<u8>>,
    /// The directories that are still to be read.
    pub pending: Seq<Seq<u8>>,
    /// The directory that is being read, and the names in it that were not told of
    /// yet.
    pub current: Option<(Seq<u8>, Set<Seq<u8>>)>,
}

/// Whether names lead from one path to the other.
pub open spec fn leads_to(base: Seq<u8>, path: Seq<u8>) -> bool {
    exists|names: Seq<Seq<u8>>|
        all_plain(names) && names.len() > 0 && path == #[trigger] path_at(base, names)
}

/// Whether a path was told of.
pub open spec fn is_told(e: Exploration, path: Seq<u8>) -> bool {
    e.dirs.contains(path) || e.files.contains(path)
}

/// Whether a path is of a directory that is read at some time: where the reading
/// started, or one that was told of and is not left out.
pub open spec fn is_due(
    base: Seq<u8>,
    skips: spec_fn(Seq<u8>) -> bool,
    e: Exploration,
    path: Seq<u8>,
) -> bool {
    path == base || (e.dirs.contains(path) && !skips(path))
}

/// Whether the directory is read as far as the name, or further.
pub open spec fn is_read(
    base: Seq<u8>,
    skips: spec_fn(Seq<u8>) -> bool,
    e: Exploration,
    dir: Seq<u8>,
    name: Seq<u8>,
) -> bool {
    &&& is_due(base, skips, e, dir)
    &&& !e.pending.contains(dir)
    &&& match e.current {
        Some((current, left)) => current == dir ==> !left.contains(name),
        None => true,
    }
}

/// Whether what there is below `base` is told of just as far as directories were
/// read.
pub open spec fn told_as_read(
    base: Seq<u8>,
    tree: Tree,
    skips: spec_fn(Seq<u8>) -> bool,
    e: Exploration,
) -> bool {
    forall|names: Seq<Seq<u8>>|
        #![trigger path_at(base, names)]
        all_plain(names) && names.len() > 0 && tree.has(spot(place(base), names)) ==> (is_told(
            e,
            path_at(base, names),
        ) <==> is_read(base, skips, e, path_at(base, names.drop_last()), names.last()))
}

/// What holds at any time of the reading of directories from `base` on.
pub open spec fn exploring(
    base: Seq<u8>,
    tree: Tree,
    skips: spec_fn(Seq<u8>) -> bool,
    e: Exploration,
) -> bool {
    &&& forall|p: Seq<u8>| #[trigger]
        e.dirs.contains(p) ==> leads_to(base, p) && tree.dirs.contains(place(p))
    &&& forall|p: Seq<u8>| #[trigger]
        e.files.contains(p) ==> leads_to(base, p) && tree.files.contains_key(place(p))
    &&& e.dirs.no_duplicates()
    &&& e.files.no_duplicates()
    &&& e.pending.no_duplicates()
    &&& forall|p: Seq<u8>| #[trigger] e.pending.contains(p) ==> is_due(base, skips, e, p)
    &&& e.current matches Some((dir, left)) ==> {
        &&& is_due(base, skips, e, dir)
        &&& !e.pending.contains(dir)
        &&& forall|name: Seq<u8>| #[trigger]
            left.contains(name) ==> is_plain_name(name) && tree.has(
                place(dir).push(ComponentView::Normal(name)),
            )
    }
    &&& told_as_read(base, tree, skips, e)
}

/// The start of it: `base` is still to be read.
pub open spec fn setting_out(base: Seq<u8>) -> Exploration {
    Exploration { dirs: Seq::empty(), files: Seq::empty(), pending: seq![base], current: None }
}

/// The next directory is opened.
pub open spec fn opened(e: Exploration, names: Set<Seq<u8>>) -> Exploration {
    Exploration {
        pending: e.pending.drop_last(),
        current: Some((e.pending.last(), names)),
        ..e
    }
}

/// An entry of the directory is told of.
pub open spec fn told(
    e: Exploration,
    skips: spec_fn(Seq<u8>) -> bool,
    name: Seq<u8>,
    is_dir: bool,
) -> Exploration {
    let (dir, left) = e.current->0;
    let path = join(dir, name);
    let current = Some((dir, left.remove(name)));
    if is_dir {
        Exploration {
            dirs: e.dirs.push(path),
            pending: if skips(path) {
                e.pending
            } else {
                e.pending.push(path)
            },
            current,
            ..e
        }
    } else {
        Exploration { files: e.files.push(path), current, ..e }
    }
}

/// The directory is read to the end.
pub open spec fn read_through(e: Exploration) -> Exploration {
    Exploration { current: None, ..e }
}

pub proof fn lemma_sets_out(base: Seq<u8>, tree: Tree, skips: spec_fn(Seq<u8>) -> bool)
    ensures
        exploring(base, tree, skips, setting_out(base)),
{
    let e = setting_out(base);
    assert(e.pending[0] == base);
    assert(e.pending.contains(base));
}

/// A path that is due is `base`, or names lead to it.
pub proof fn lemma_due_names(
    base: Seq<u8>,
    tree: Tree,
    skips: spec_fn(Seq<u8>) -> bool,
    e: Exploration,
    dir: Seq<u8>,
) -> (names: Seq<Seq<u8>>)
    requires
        exploring(base, tree, skips, e),
        is_due(base, skips, e, dir),
    ensures
        all_plain(names),
        dir == path_at(base, names),
        dir == base <==> names.len() == 0,
{
    if dir == base {
        Seq::empty()
    } else {
        assert(leads_to(base, dir));
        let names = choose|names: Seq<Seq<u8>>|
            all_plain(names) && names.len() > 0 && dir == #[trigger] path_at(base, names);
        names
    }
}

pub proof fn lemma_opens(
    base: Seq<u8>,
    tree: Tree,
    skips: spec_fn(Seq<u8>) -> bool,
    e: Exploration,
)
    requires
        exploring(base, tree, skips, e),
        e.current is None,
        e.pending.len() > 0,
    ensures
        exploring(base, tree, skips, opened(e, tree.names_in(place(e.pending.last())))),
{
    let dir = e.pending.last();
    let left = tree.names_in(place(dir));
    let f = opened(e, left);
    assert(e.pending.contains(dir));
    assert(f.pending.no_duplicates());
    assert forall|p: Seq<u8>| #[trigger] f.pending.contains(p) <==> (e.pending.contains(p) && p
        != dir) by {
        if f.pending.contains(p) {
            let i = f.pending.index_of(p);
            assert(e.pending[i] == p);
        }
        if e.pending.contains(p) && p != dir {
            let i = e.pending.index_of(p);
            assert(f.pending[i] == p);
        }
    }
    let ds = lemma_due_names(base, tree, skips, e, dir);
    assert forall|names: Seq<Seq<u8>>|
        #![trigger path_at(base, names)]
        all_plain(names) && names.len() > 0 && tree.has(spot(place(base), names)) implies (is_told(
        f,
        path_at(base, names),
    ) <==> is_read(base, skips, f, path_at(base, names.drop_last()), names.last())) by {
        lemma_last_name(base, names);
        let parent = path_at(base, names.drop_last());
        assert(is_told(e, path_at(base, names)) <==> is_read(
            base,
            skips,
            e,
            parent,
            names.last(),
        ));
        if parent == dir {
            lemma_path_at(base, names.drop_last());
            assert(left.contains(names.last()));
        }
    }
}

pub proof fn lemma_tells(
    base: Seq<u8>,
    tree: Tree,
    skips: spec_fn(Seq<u8>) -> bool,
    e: Exploration,
    name: Seq<u8>,
    is_dir: bool,
)
    requires
        exploring(base, tree, skips, e),
        e.current matches Some((dir, left)) && left.contains(name) && is_dir == tree.dirs.contains(
            place(join(dir, name)),
        ),
    ensures
        exploring(base, tree, skips, told(e, skips, name, is_dir)),
{
    let (dir, left) = e.current->0;
    let path = join(dir, name);
    let f = told(e, skips, name, is_dir);
    let ds = lemma_due_names(base, tree, skips, e, dir);
    let names = ds.push(name);
    lemma_one_more_name(base, ds, name);
    lemma_path_at(base, ds);
    lemma_path_at(base, names);
    assert(path == path_at(base, names));
    assert(names.last() == name);
    assert(tree.has(spot(place(base), names)));
    assert(!is_told(e, path));
    assert(leads_to(base, path));
    lemma_path_at_differs(base, names, Seq::empty());
    assert(path_at(base, Seq::empty()) == base);
    assert(path != base);
    lemma_path_at_differs(base, names, ds);
    assert(path != dir);
    assert(!e.pending.contains(path));
    assert forall|p: Seq<u8>| #[trigger] f.dirs.contains(p) <==> (e.dirs.contains(p) || (is_dir && p
        == path)) by {
        lemma_push_holds(e.dirs, path, p);
    }
    assert forall|p: Seq<u8>| #[trigger] f.files.contains(p) <==> (e.files.contains(p) || (!is_dir
        && p == path)) by {
        lemma_push_holds(e.files, path, p);
    }
    assert forall|p: Seq<u8>| #[trigger] f.pending.contains(p) <==> (e.pending.contains(p) || (
    is_dir && !skips(path) && p == path)) by {
        lemma_push_holds(e.pending, path, p);
    }
    lemma_push_keeps_apart(e.dirs, path);
    lemma_push_keeps_apart(e.files, path);
    lemma_push_keeps_apart(e.pending, path);
    assert forall|ns: Seq<Seq<u8>>|
        #![trigger path_at(base, ns)]
        all_plain(ns) && ns.len() > 0 && tree.has(spot(place(base), ns)) implies (is_told(
        f,
        path_at(base, ns),
    ) <==> is_read(base, skips, f, path_at(base, ns.drop_last()), ns.last())) by {
        lemma_last_name(base, ns);
        let parent = path_at(base, ns.drop_last());
        assert(is_told(e, path_at(base, ns)) <==> is_read(base, skips, e, parent, ns.last()));
        lemma_path_at_differs(base, ns, names);
        lemma_path_at_differs(base, ns.drop_last(), ds);
        if parent == dir && ns.last() == name {
            assert(ns == names);
        }
    }
}

pub proof fn lemma_closes(
    base: Seq<u8>,
    tree: Tree,
    skips: spec_fn(Seq<u8>) -> bool,
    e: Exploration,
)
    requires
        exploring(base, tree, skips, e),
        e.current matches Some((dir, left)) && forall|name: Seq<u8>| !left.contains(name),
    ensures
        exploring(base, tree, skips, read_through(e)),
{
    let f = read_through(e);
    assert forall|ns: Seq<Seq<u8>>|
        #![trigger path_at(base, ns)]
        all_plain(ns) && ns.len() > 0 && tree.has(spot(place(base), ns)) implies (is_told(
        f,
        path_at(base, ns),
    ) <==> is_read(base, skips, f, path_at(base, ns.drop_last()), ns.last())) by {
        assert(is_told(e, path_at(base, ns)) <==> is_read(
            base,
            skips,
            e,
            path_at(base, ns.drop_last()),
            ns.last(),
        ));
    }
}

/// Whether what the names lead to is there, and no directory on the way is left out.
pub open spec fn is_reached(
    base: Seq<u8>,
    tree: Tree,
    skips: spec_fn(Seq<u8>) -> bool,
    names: Seq<Seq<u8>>,
) -> bool {
    &&& tree.has(spot(place(base), names))
    &&& forall|k: int|
        0 < k < names.len() ==> !skips(#[trigger] path_at(base, names.take(k)))
}

/// What was told of can be reached.
pub proof fn lemma_told_is_reached(
    base: Seq<u8>,
    tree: Tree,
    skips: spec_fn(Seq<u8>) -> bool,
    e: Exploration,
    names: Seq<Seq<u8>>,
)
    requires
        exploring(base, tree, skips, e),
        all_plain(names),
        names.len() > 0,
        is_told(e, path_at(base, names)),
    ensures
        is_reached(base, tree, skips, names),
    decreases names.len(),
{
    let first = names.drop_last();
    lemma_path_at(base, names);
    lemma_last_name(base, names);
    assert(is_due(base, skips, e, path_at(base, first)));
    if first.len() > 0 {
        lemma_path_at_differs(base, first, Seq::empty());
        assert(path_at(base, Seq::empty()) == base);
        lemma_told_is_reached(base, tree, skips, e, first);
        assert forall|k: int| 0 < k < names.len() implies !skips(
            #[trigger] path_at(base, names.take(k)),
        ) by {
            if k < first.len() {
                assert(first.take(k) =~= names.take(k));
            } else {
                assert(names.take(k) =~= first);
            }
        }
    }
}

/// Where all directories were read, everything that can be reached was told of.
pub proof fn lemma_all_told(
    base: Seq<u8>,
    tree: Tree,
    skips: spec_fn(Seq<u8>) -> bool,
    e: Exploration,
    names: Seq<Seq<u8>>,
)
    requires
        tree.well_formed(),
        exploring(base, tree, skips, e),
        e.current is None,
        e.pending.len() == 0,
        all_plain(names),
        names.len() > 0,
    ensures
        e.dirs.contains(path_at(base, names)) <==> is_reached(base, tree, skips, names)
            && tree.dirs.contains(spot(place(base), names)),
        e.files.contains(path_at(base, names)) <==> is_reached(base, tree, skips, names)
            && tree.files.contains_key(spot(place(base), names)),
    decreases names.len(),
{
    let first = names.drop_last();
    lemma_path_at(base, names);
    lemma_last_name(base, names);
    assert(!(tree.files.contains_key(spot(place(base), names)) && tree.dirs.contains(
        spot(place(base), names),
    )));
    if tree.has(spot(place(base), names)) {
        assert(is_told(e, path_at(base, names)) <==> is_read(
            base,
            skips,
            e,
            path_at(base, first),
            names.last(),
        ));
        if first.len() > 0 {
            lemma_all_told(base, tree, skips, e, first);
            lemma_path_at_differs(base, first, Seq::empty());
            assert(path_at(base, Seq::empty()) == base);
            assert(tree.dirs.contains(spot(place(base), first)));
            assert(names.take(first.len() as int) =~= first);
            assert forall|k: int| 0 < k < first.len() implies first.take(k) == #[trigger] names.take(
                k,
            ) by {
                assert(first.take(k) =~= names.take(k));
            }
            if is_reached(base, tree, skips, names) {
                assert forall|k: int| 0 < k < first.len() implies !skips(
                    #[trigger] path_at(base, first.take(k)),
                ) by {
                    assert(first.take(k) == names.take(k));
                }
            }
            if is_due(base, skips, e, path_at(base, first)) {
                assert forall|k: int| 0 < k < names.len() implies !skips(
                    #[trigger] path_at(base, names.take(k)),
                ) by {
                    if k < first.len() {
                        assert(first.take(k) == names.take(k));
                    }
                }
            }
        } else {
            assert(first =~= Seq::empty());
        }
    }
}

proof fn lemma_push_keeps_apart<A>(s: Seq<A>, x: A)
    requires
        s.no_duplicates(),
    ensures
        !s.contains(x) ==> s.push(x).no_duplicates(),
{
}

} // verus!
