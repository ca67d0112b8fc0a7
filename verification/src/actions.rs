//! What the last build of each target added.
use crate::config::CompileTarget;
use crate::path::{same_path, PathBuf};
use crate::search::{first_where, lemma_first_where, lemma_first_where_is, lemma_first_where_none};
use crate::stat::{Stat, StatView};
use vstd::prelude::*;

verus! {

/// Where the record of what builds added is kept.
pub const BUILD_OUTPUTS_PATH: &'static str = "./protov-build-outputs.json";

/// What the last build of each target added.
#[derive(Debug)]
pub struct BuildActions {
    pub diffs: Vec<TargetBuildActions>,
}

/// What the last build of one target added.
#[derive(Debug)]
pub struct TargetBuildActions {
    pub target: PathBuf,
    pub diff: Stat,
}

pub struct TargetBuildActionsView {
    pub target: Seq<u8>,
    pub diff: StatView,
}

impl View for TargetBuildActions {
    type V = TargetBuildActionsView;

    open spec fn view(&self) -> TargetBuildActionsView {
        TargetBuildActionsView { target: self.target@, diff: self.diff@ }
    }
}

impl View for BuildActions {
    type V = Seq<TargetBuildActionsView>;

    open spec fn view(&self) -> Seq<TargetBuildActionsView> {
        self.diffs@.map_values(|d: TargetBuildActions| d@)
    }
}

/// Where the first record of the target stands, if it has one.
pub open spec fn record_index(records: Seq<TargetBuildActionsView>, target: Seq<u8>) -> Option<int> {
    first_where(records, |r: TargetBuildActionsView| same_path(r.target, target))
}

/// What the records say of the target: the first one that is of it.
pub open spec fn find_record(records: Seq<TargetBuildActionsView>, target: Seq<u8>) -> Option<
    TargetBuildActionsView,
> {
    match record_index(records, target) {
        Some(i) => Some(records[i]),
        None => None,
    }
}

/// The records with what is said of the target replaced, or added at the end
/// where nothing was.
pub open spec fn set_record(
    records: Seq<TargetBuildActionsView>,
    target: Seq<u8>,
    diff: StatView,
) -> Seq<TargetBuildActionsView> {
    let record = TargetBuildActionsView { target, diff };
    match record_index(records, target) {
        Some(i) => records.update(i, record),
        None => records.push(record),
    }
}

/// No two records are of the same target.
pub open spec fn one_record_each(records: Seq<TargetBuildActionsView>) -> bool {
    forall|i: int, j: int|
        #![trigger records[i], records[j]]
        0 <= i < j < records.len() ==> !same_path(records[i].target, records[j].target)
}

impl Clone for TargetBuildActions {
    fn clone(&self) -> (copy: Self)
        ensures
            copy@ == self@,
    {
        TargetBuildActions { target: self.target.clone(), diff: self.diff.clone() }
    }
}

impl Clone for BuildActions {
    fn clone(&self) -> (copy: Self)
        ensures
            copy@ == self@,
    {
        let mut diffs: Vec<TargetBuildActions> = Vec::new();
        let mut i: usize = 0;
        while i < self.diffs.len()
            invariant
                i <= self.diffs.len(),
                diffs@.len() == i,
                forall|j: int| 0 <= j < i ==> (#[trigger] diffs@[j])@ == self.diffs@[j]@,
            decreases self.diffs.len() - i,
        {
            diffs.push(self.diffs[i].clone());
            i = i + 1;
        }
        let copy = BuildActions { diffs };
        assert(copy@ =~= self@);
        copy
    }
}

impl Default for BuildActions {
    fn default() -> (actions: Self)
        ensures
            actions@ == Seq::<TargetBuildActionsView>::empty(),
    {
        let actions = BuildActions { diffs: Vec::new() };
        assert(actions@ =~= Seq::<TargetBuildActionsView>::empty());
        actions
    }
}

impl BuildActions {
    /// Where the first record of the target stands.
    fn position(&self, target: &PathBuf) -> (at: Option<usize>)
        ensures
            match at {
                Some(i) => record_index(self@, target@) == Some(i as int) && i < self.diffs@.len(),
                None => record_index(self@, target@) is None,
            },
    {
        let ghost pred = |r: TargetBuildActionsView| same_path(r.target, target@);
        let mut i: usize = 0;
        while i < self.diffs.len()
            invariant
                i <= self.diffs.len(),
                pred == (|r: TargetBuildActionsView| same_path(r.target, target@)),
                forall|j: int| 0 <= j < i ==> !pred(#[trigger] self@[j]),
            decreases self.diffs.len() - i,
        {
            assert(self@[i as int] == self.diffs@[i as int]@);
            if self.diffs[i].target.same(target) {
                proof {
                    lemma_first_where_is(self@, pred, i as int);
                }
                return Some(i);
            }
            i = i + 1;
        }
        proof {
            lemma_first_where_none(self@, pred);
        }
        None
    }

    /// What the last build of the target added, if that is known.
    pub fn find_target(&self, target: &PathBuf) -> (found: Option<&TargetBuildActions>)
        ensures
            match found {
                Some(record) => find_record(self@, target@) == Some(record@),
                None => find_record(self@, target@) is None,
            },
    {
        match self.position(target) {
            Some(i) => {
                assert(self@[i as int] == self.diffs@[i as int]@);
                Some(&self.diffs[i])
            },
            None => None,
        }
    }

    /// Records what a build of the target added, in place of what was recorded
    /// of it.
    pub fn set_target(&mut self, target: &CompileTarget, actions: Stat)
        ensures
            final(self)@ == set_record(old(self)@, target@.out_path, actions@),
    {
        let ghost before = self@;
        let at = self.position(&target.out_path);
        let record = TargetBuildActions { target: target.out_path.clone(), diff: actions };
        let ghost shown = record@;
        match at {
            Some(i) => {
                self.diffs.set(i, record);
                assert(self@ =~= before.update(i as int, shown));
            },
            None => {
                self.diffs.push(record);
                assert(self@ =~= before.push(shown));
            },
        }
    }
}

/// After a target is recorded, that record is what is found of it, and what is
/// found of every other target is as before.
pub proof fn law_set_then_find(
    records: Seq<TargetBuildActionsView>,
    target: Seq<u8>,
    diff: StatView,
    other: Seq<u8>,
)
    ensures
        find_record(set_record(records, target, diff), target) == Some(
            TargetBuildActionsView { target, diff },
        ),
        !same_path(other, target) ==> find_record(set_record(records, target, diff), other)
            == find_record(records, other),
{
    let after = set_record(records, target, diff);
    let of_target = |r: TargetBuildActionsView| same_path(r.target, target);
    let of_other = |r: TargetBuildActionsView| same_path(r.target, other);
    lemma_first_where(records, of_target);
    lemma_first_where(records, of_other);
    let at = match record_index(records, target) {
        Some(i) => i,
        None => records.len() as int,
    };
    assert forall|j: int| 0 <= j < at implies !of_target(#[trigger] after[j]) by {
        assert(after[j] == records[j]);
    }
    lemma_first_where_is(after, of_target, at);
    if !same_path(other, target) {
        match record_index(records, other) {
            Some(k) => {
                assert(k != at);
                assert forall|j: int| 0 <= j < k implies !of_other(#[trigger] after[j]) by {
                    if j != at {
                        assert(after[j] == records[j]);
                    }
                }
                lemma_first_where_is(after, of_other, k);
            },
            None => {
                assert forall|j: int| 0 <= j < after.len() implies !of_other(#[trigger] after[j]) by {
                    if j != at {
                        assert(after[j] == records[j]);
                    }
                }
                lemma_first_where_none(after, of_other);
            },
        }
    }
}

/// Recording a target twice leaves what recording it the second time alone does.
pub proof fn law_last_record_stays(
    records: Seq<TargetBuildActionsView>,
    target: Seq<u8>,
    first: StatView,
    second: StatView,
)
    ensures
        set_record(set_record(records, target, first), target, second) == set_record(
            records,
            target,
            second,
        ),
{
    let after = set_record(records, target, first);
    let of_target = |r: TargetBuildActionsView| same_path(r.target, target);
    lemma_first_where(records, of_target);
    let at = match record_index(records, target) {
        Some(i) => i,
        None => records.len() as int,
    };
    assert forall|j: int| 0 <= j < at implies !of_target(#[trigger] after[j]) by {
        assert(after[j] == records[j]);
    }
    lemma_first_where_is(after, of_target, at);
    assert(set_record(after, target, second) =~= set_record(records, target, second));
}

/// Recording a target keeps that there is one record of each.
pub proof fn law_set_keeps_one_record_each(
    records: Seq<TargetBuildActionsView>,
    target: Seq<u8>,
    diff: StatView,
)
    requires
        one_record_each(records),
    ensures
        one_record_each(set_record(records, target, diff)),
{
    let of_target = |r: TargetBuildActionsView| same_path(r.target, target);
    lemma_first_where(records, of_target);
    let after = set_record(records, target, diff);
    assert forall|i: int, j: int|
        #![trigger after[i], after[j]]
        0 <= i < j < after.len() implies !same_path(after[i].target, after[j].target) by {
        match record_index(records, target) {
            Some(k) => {
                if i == k {
                    assert(after[j] == records[j]);
                    assert(!same_path(records[i].target, records[j].target));
                } else if j == k {
                    assert(after[i] == records[i]);
                    assert(!same_path(records[i].target, records[j].target));
                } else {
                    assert(after[i] == records[i] && after[j] == records[j]);
                }
            },
            None => {
                assert(after[i] == records[i]);
                assert(!of_target(records[i]));
                if j < records.len() {
                    assert(after[j] == records[j]);
                }
            },
        }
    }
}

/// What is found of a target is the record that stands ahead of all others of it,
/// however the target's path is written, and one is found wherever there is one.
pub proof fn law_find_finds_the_first_record(
    records: Seq<TargetBuildActionsView>,
    target: Seq<u8>,
)
    ensures
        match find_record(records, target) {
            Some(record) => exists|i: int|
                {
                    &&& 0 <= i < records.len()
                    &&& record == #[trigger] records[i]
                    &&& same_path(records[i].target, target)
                    &&& forall|j: int| 0 <= j < i ==> !same_path((#[trigger] records[j]).target, target)
                },
            None => forall|j: int|
                0 <= j < records.len() ==> !same_path((#[trigger] records[j]).target, target),
        },
{
    let pred = |r: TargetBuildActionsView| same_path(r.target, target);
    lemma_first_where(records, pred);
    match record_index(records, target) {
        Some(i) => {
            assert forall|j: int| 0 <= j < i implies !same_path(
                (#[trigger] records[j]).target,
                target,
            ) by {
                assert(!pred(records[j]));
            }
            assert(pred(records[i]));
        },
        None => {
            assert forall|j: int| 0 <= j < records.len() implies !same_path(
                (#[trigger] records[j]).target,
                target,
            ) by {
                assert(!pred(records[j]));
            }
        },
    }
}

/// Recording a target changes one record of it or adds one at the end, and leaves
/// every other record as it is and where it is.
pub proof fn law_set_leaves_the_others_in_place(
    records: Seq<TargetBuildActionsView>,
    target: Seq<u8>,
    diff: StatView,
    i: int,
)
    requires
        0 <= i < records.len(),
    ensures
        set_record(records, target, diff).len() == (if find_record(records, target) is Some {
            records.len()
        } else {
            records.len() + 1
        }),
        !same_path(records[i].target, target) ==> set_record(records, target, diff)[i]
            == records[i],
        same_path(records[i].target, target) && (forall|j: int|
            0 <= j < i ==> !same_path((#[trigger] records[j]).target, target)) ==> set_record(
            records,
            target,
            diff,
        )[i] == (TargetBuildActionsView { target, diff }),
{
    let pred = |r: TargetBuildActionsView| same_path(r.target, target);
    lemma_first_where(records, pred);
    if let Some(k) = record_index(records, target) {
        assert(pred(records[k]));
    }
}

/// A record says of each target, in order, what its last build added.
pub proof fn law_records_say_what_was_added(actions: BuildActions, i: int)
    ensures
        actions@.len() == actions.diffs@.len(),
        0 <= i < actions.diffs@.len() ==> actions@[i] == (TargetBuildActionsView {
            target: actions.diffs@[i].target.bytes@,
            diff: actions.diffs@[i].diff@,
        }),
{
}

} // verus!
