//! What a directory holds, and what was added to it in between.
use crate::order::{
    descending, holds_path, is_descending, law_sort_keeps_paths, sort_descending, sorted_contains,
};
use crate::path::{path_views, same_path, PathBuf};
use vstd::prelude::*;

verus! {

/// What was found below a directory; or, of two looks at it, what is there at
/// the second and was not at the first.
#[derive(Debug)]
pub struct Stat {
    /// Paths of directories.
    pub dirs: Vec<PathBuf>,
    /// Paths of everything else.
    pub files: Vec<PathBuf>,
}

pub struct StatView {
    pub dirs: Seq<Seq<u8>>,
    pub files: Seq<Seq<u8>>,
}

impl View for Stat {
    type V = StatView;

    open spec fn view(&self) -> StatView {
        StatView { dirs: path_views(self.dirs@), files: path_views(self.files@) }
    }
}

impl StatView {
    pub open spec fn empty() -> StatView {
        StatView { dirs: Seq::empty(), files: Seq::empty() }
    }
}

impl Default for Stat {
    fn default() -> (stat: Self)
        ensures
            stat@ == StatView::empty(),
    {
        let stat = Stat { dirs: Vec::new(), files: Vec::new() };
        assert(stat@.dirs =~= Seq::<Seq<u8>>::empty());
        assert(stat@.files =~= Seq::<Seq<u8>>::empty());
        stat
    }
}

/// The paths of `after` that `before` does not hold, in the order of `after`.
pub open spec fn new_paths(before: Seq<Seq<u8>>, after: Seq<Seq<u8>>) -> Seq<Seq<u8>> {
    after.filter(|p: Seq<u8>| !holds_path(before, p))
}

/// What the second look found and the first did not.
pub open spec fn stat_diff(before: StatView, after: StatView) -> StatView {
    StatView {
        dirs: new_paths(before.dirs, after.dirs),
        files: new_paths(before.files, after.files),
    }
}

/// A copy of the list.
pub fn copy_paths(paths: &Vec<PathBuf>) -> (copy: Vec<PathBuf>)
    ensures
        path_views(copy@) == path_views(paths@),
{
    let mut copy: Vec<PathBuf> = Vec::new();
    let mut i: usize = 0;
    while i < paths.len()
        invariant
            i <= paths.len(),
            path_views(copy@) == path_views(paths@).take(i as int),
        decreases paths.len() - i,
    {
        let ghost before = path_views(copy@);
        copy.push(paths[i].clone());
        proof {
            assert(path_views(copy@) =~= before.push(paths@[i as int]@));
            assert(path_views(copy@) =~= path_views(paths@).take(i + 1));
        }
        i = i + 1;
    }
    assert(path_views(paths@).take(i as int) =~= path_views(paths@));
    copy
}

/// The paths of `after` that `before` does not hold, in the order of `after`.
fn added_paths(before: &Vec<PathBuf>, after: &Vec<PathBuf>) -> (added: Vec<PathBuf>)
    ensures
        path_views(added@) == new_paths(path_views(before@), path_views(after@)),
{
    let ghost vb = path_views(before@);
    let ghost va = path_views(after@);
    let sorted = sort_descending(copy_paths(before));
    let mut added: Vec<PathBuf> = Vec::new();
    let mut i: usize = 0;
    proof {
        reveal(Seq::filter);
        assert(path_views(added@) =~= new_paths(vb, va.take(0)));
    }
    while i < after.len()
        invariant
            i <= after.len(),
            vb == path_views(before@),
            va == path_views(after@),
            path_views(sorted@) == descending(vb),
            is_descending(path_views(sorted@)),
            path_views(added@) == new_paths(vb, va.take(i as int)),
        decreases after.len() - i,
    {
        let ghost shown = path_views(added@);
        let ghost x = va[i as int];
        proof {
            reveal(Seq::filter);
            assert(x == after@[i as int]@);
            law_sort_keeps_paths(vb, x);
            assert(va.take(i + 1).drop_last() =~= va.take(i as int));
            assert(va.take(i + 1).last() == x);
        }
        if !sorted_contains(&sorted, &after[i]) {
            added.push(after[i].clone());
            assert(path_views(added@) =~= shown.push(x));
        }
        i = i + 1;
    }
    assert(va.take(i as int) =~= va);
    added
}

impl Clone for Stat {
    fn clone(&self) -> (copy: Self)
        ensures
            copy@ == self@,
    {
        Stat { dirs: copy_paths(&self.dirs), files: copy_paths(&self.files) }
    }
}

/// What the second look found and the first did not: what came to be in between.
pub fn target_stat_diff(before: &Stat, after: &Stat) -> (diff: Stat)
    ensures
        diff@ == stat_diff(before@, after@),
{
    Stat {
        dirs: added_paths(&before.dirs, &after.dirs),
        files: added_paths(&before.files, &after.files),
    }
}

proof fn lemma_new_paths(before: Seq<Seq<u8>>, after: Seq<Seq<u8>>, q: Seq<u8>)
    ensures
        holds_path(new_paths(before, after), q) <==> holds_path(after, q) && !holds_path(before, q),
{
    let pred = |p: Seq<u8>| !holds_path(before, p);
    let added = new_paths(before, after);
    if holds_path(added, q) {
        let i = choose|i: int| 0 <= i < added.len() && same_path(#[trigger] added[i], q);
        after.lemma_filter_pred(pred, i);
        assert(added.contains(added[i]));
        after.lemma_filter_contains_rev(pred, added[i]);
        let k = choose|k: int| 0 <= k < after.len() && after[k] == added[i];
        assert(same_path(after[k], q));
        if holds_path(before, q) {
            let j = choose|j: int| 0 <= j < before.len() && same_path(#[trigger] before[j], q);
            assert(same_path(before[j], added[i]));
        }
    }
    if holds_path(after, q) && !holds_path(before, q) {
        let k = choose|k: int| 0 <= k < after.len() && same_path(#[trigger] after[k], q);
        if holds_path(before, after[k]) {
            let j = choose|j: int|
                0 <= j < before.len() && same_path(#[trigger] before[j], after[k]);
            assert(same_path(before[j], q));
        }
        after.lemma_filter_contains(pred, k);
        let i = choose|i: int| 0 <= i < added.len() && added[i] == after[k];
        assert(same_path(added[i], q));
    }
}

/// A path is in the difference exactly if the second look found it and the
/// first did not.
pub proof fn law_diff_is_what_was_added(before: StatView, after: StatView, q: Seq<u8>)
    ensures
        holds_path(stat_diff(before, after).dirs, q) <==> holds_path(after.dirs, q) && !holds_path(
            before.dirs,
            q,
        ),
        holds_path(stat_diff(before, after).files, q) <==> holds_path(after.files, q)
            && !holds_path(before.files, q),
{
    lemma_new_paths(before.dirs, after.dirs, q);
    lemma_new_paths(before.files, after.files, q);
}

proof fn lemma_nothing_new(before: Seq<Seq<u8>>, after: Seq<Seq<u8>>)
    requires
        forall|i: int| 0 <= i < after.len() ==> holds_path(before, #[trigger] after[i]),
    ensures
        new_paths(before, after) == Seq::<Seq<u8>>::empty(),
{
    after.lemma_all_neg_filter_empty(|p: Seq<u8>| !holds_path(before, p));
    assert(new_paths(before, after) =~= Seq::<Seq<u8>>::empty());
}

/// Where the second look finds nothing that the first did not, the difference
/// is empty.
pub proof fn law_diff_of_nothing_new_is_empty(before: StatView, after: StatView)
    requires
        forall|i: int| 0 <= i < after.dirs.len() ==> holds_path(before.dirs, #[trigger] after.dirs[i]),
        forall|i: int|
            0 <= i < after.files.len() ==> holds_path(before.files, #[trigger] after.files[i]),
    ensures
        stat_diff(before, after) == StatView::empty(),
{
    lemma_nothing_new(before.dirs, after.dirs);
    lemma_nothing_new(before.files, after.files);
}

/// A directory that did not change has an empty difference.
pub proof fn law_diff_with_itself_is_empty(stat: StatView)
    ensures
        stat_diff(stat, stat) == StatView::empty(),
{
    assert forall|i: int| 0 <= i < stat.dirs.len() implies holds_path(
        stat.dirs,
        #[trigger] stat.dirs[i],
    ) by {
        assert(same_path(stat.dirs[i], stat.dirs[i]));
    }
    assert forall|i: int| 0 <= i < stat.files.len() implies holds_path(
        stat.files,
        #[trigger] stat.files[i],
    ) by {
        assert(same_path(stat.files[i], stat.files[i]));
    }
    law_diff_of_nothing_new_is_empty(stat, stat);
}

/// One more path that the second look found is one more in the difference, at its
/// end, unless the first look found it too.
pub proof fn law_difference_grows_with_what_is_found(
    before: StatView,
    after: StatView,
    path: Seq<u8>,
)
    ensures
        ({
            let more_dirs = StatView { dirs: after.dirs.push(path), ..after };
            let more_files = StatView { files: after.files.push(path), ..after };
            let diff = stat_diff(before, after);
            &&& stat_diff(before, more_dirs) == (StatView {
                dirs: if holds_path(before.dirs, path) {
                    diff.dirs
                } else {
                    diff.dirs.push(path)
                },
                ..diff
            })
            &&& stat_diff(before, more_files) == (StatView {
                files: if holds_path(before.files, path) {
                    diff.files
                } else {
                    diff.files.push(path)
                },
                ..diff
            })
        }),
        stat_diff(before, StatView { dirs: Seq::empty(), files: Seq::empty() }) == (StatView {
            dirs: Seq::empty(),
            files: Seq::empty(),
        }),
{
    reveal(Seq::filter);
    assert(after.dirs.push(path).drop_last() =~= after.dirs);
    assert(after.files.push(path).drop_last() =~= after.files);
}

/// What was found says which directories and which files, in order.
pub proof fn law_stats_say_what_was_found(stat: Stat, i: int)
    ensures
        stat@.dirs.len() == stat.dirs@.len(),
        stat@.files.len() == stat.files@.len(),
        0 <= i < stat.dirs@.len() ==> stat@.dirs[i] == stat.dirs@[i].bytes@,
        0 <= i < stat.files@.len() ==> stat@.files[i] == stat.files@[i].bytes@,
{
}

} // verus!
