//! Building targets, and cleaning up what was built.
//!
//! Both go through the targets of the configuration one by one, look at what is
//! there before and after, and record what was added in between.
use crate::actions::{
    find_record, set_record, BuildActions, TargetBuildActionsView, BUILD_OUTPUTS_PATH,
};
use crate::command::{generate, generate_command, text_bytes};
use crate::config::{CompileTarget, CompileTargetView, Config};
use crate::path::PathBuf;
use crate::protocol::{Reply, ReplyView, Request, RequestView, Turn, TurnView};
use crate::removal::{
    clean_start, clean_step, target_clean, CleanOutcome, CleanOutcomeView, TargetClean,
    TargetCleanView,
};
use crate::stat::{stat_diff, target_stat_diff, Stat, StatView};
use crate::walk::{
    begin_stat, stat_start, stat_step, StatError, StatErrorView, StatOutcome, StatOutcomeView,
    TargetStat, TargetStatView,
};
use vstd::prelude::*;

verus! {

/// What is done with each target.
#[derive(Debug)]
pub enum Job {
    /// What its last build added is removed, and then it is built.
    Build,
    /// What its last build added is removed.
    Clean,
}

/// What goes along from target to target.
#[derive(Debug)]
pub struct Round<'a> {
    targets: &'a Vec<CompileTarget>,
    job: Job,
    actions: BuildActions,
}

/// Targets being built or cleaned up, as far as that has come.
#[derive(Debug)]
pub struct TargetsRun<'a> {
    round: Round<'a>,
    at: TargetsPoint,
}

/// What is waited for. The first number says which target it is about.
#[derive(Debug)]
pub enum TargetsPoint {
    /// The record of what builds added to be read.
    Loading,
    /// What the last build added to be removed, before anything else.
    Clearing(usize, TargetClean),
    /// The first look.
    Before(usize, TargetStat),
    /// The source of that number to be built, after that first look.
    Generating(usize, Stat, usize),
    /// What the last build added to be removed, after that first look.
    Emptying(usize, Stat, TargetClean),
    /// The second look, after that first one.
    After(usize, Stat, TargetStat),
    /// The record of what builds added to be written.
    Storing,
}

/// How building or cleaning up targets ends.
#[derive(Debug)]
pub enum TargetsOutcome {
    /// Every target was gone through, and the record was written.
    Finished,
    /// It stopped there, and the record was left as it was.
    Failed(TargetsError),
}

/// Why building or cleaning up targets stopped.
#[derive(Debug)]
pub enum TargetsError {
    /// A target could not be looked at.
    Look(StatError),
    /// The generator could not be started.
    NotGenerated,
    /// The record of what builds added could not be written.
    NotWritten,
}

pub struct RoundView {
    pub targets: Seq<CompileTargetView>,
    pub job: Job,
    /// The record of what builds added, as it stands.
    pub actions: Seq<TargetBuildActionsView>,
}

pub struct TargetsRunView {
    pub round: RoundView,
    pub at: TargetsPointView,
}

pub enum TargetsPointView {
    Loading,
    Clearing(int, TargetCleanView),
    Before(int, TargetStatView),
    Generating(int, StatView, int),
    Emptying(int, StatView, TargetCleanView),
    After(int, StatView, TargetStatView),
    Storing,
}

pub enum TargetsOutcomeView {
    Finished,
    Failed(TargetsErrorView),
}

pub enum TargetsErrorView {
    Look(StatErrorView),
    NotGenerated,
    NotWritten,
}

/// The targets that a list of them stands for.
pub open spec fn target_views(targets: Seq<CompileTarget>) -> Seq<CompileTargetView> {
    targets.map_values(|t: CompileTarget| t@)
}

impl<'a> View for Round<'a> {
    type V = RoundView;

    closed spec fn view(&self) -> RoundView {
        RoundView {
            targets: target_views(self.targets@),
            job: self.job,
            actions: self.actions@,
        }
    }
}

impl View for TargetsPoint {
    type V = TargetsPointView;

    open spec fn view(&self) -> TargetsPointView {
        match self {
            TargetsPoint::Loading => TargetsPointView::Loading,
            TargetsPoint::Clearing(n, clean) => TargetsPointView::Clearing(*n as int, clean@),
            TargetsPoint::Before(n, stat) => TargetsPointView::Before(*n as int, stat@),
            TargetsPoint::Generating(n, before, k) => TargetsPointView::Generating(
                *n as int,
                before@,
                *k as int,
            ),
            TargetsPoint::Emptying(n, before, clean) => TargetsPointView::Emptying(
                *n as int,
                before@,
                clean@,
            ),
            TargetsPoint::After(n, before, stat) => TargetsPointView::After(
                *n as int,
                before@,
                stat@,
            ),
            TargetsPoint::Storing => TargetsPointView::Storing,
        }
    }
}

impl<'a> View for TargetsRun<'a> {
    type V = TargetsRunView;

    closed spec fn view(&self) -> TargetsRunView {
        TargetsRunView { round: self.round@, at: self.at@ }
    }
}

impl View for TargetsError {
    type V = TargetsErrorView;

    open spec fn view(&self) -> TargetsErrorView {
        match self {
            TargetsError::Look(error) => TargetsErrorView::Look(error@),
            TargetsError::NotGenerated => TargetsErrorView::NotGenerated,
            TargetsError::NotWritten => TargetsErrorView::NotWritten,
        }
    }
}

impl View for TargetsOutcome {
    type V = TargetsOutcomeView;

    open spec fn view(&self) -> TargetsOutcomeView {
        match self {
            TargetsOutcome::Finished => TargetsOutcomeView::Finished,
            TargetsOutcome::Failed(error) => TargetsOutcomeView::Failed(error@),
        }
    }
}

/// Where the record of what builds added is kept.
pub open spec fn record_path() -> Seq<u8> {
    text_bytes(BUILD_OUTPUTS_PATH@)
}

/// The removal of what the last build of target `n` added. Where no build is
/// recorded there is nothing to remove.
pub open spec fn removal_of(round: RoundView, n: int) -> TurnView<
    TargetCleanView,
    CleanOutcomeView,
> {
    match find_record(round.actions, round.targets[n].out_path) {
        Some(record) => clean_start(record),
        None => TurnView::End(CleanOutcomeView::Cleaned),
    }
}

/// Takes the first look at target `n`.
pub open spec fn look_before(round: RoundView, n: int) -> TurnView<
    TargetsRunView,
    TargetsOutcomeView,
> {
    let first = stat_start(round.targets[n].out_path);
    TurnView::Ask(
        TargetsRunView { round, at: TargetsPointView::Before(n, first->Ask_0) },
        first->Ask_1,
    )
}

/// Takes the second look at target `n`.
pub open spec fn look_after(round: RoundView, n: int, before: StatView) -> TurnView<
    TargetsRunView,
    TargetsOutcomeView,
> {
    let first = stat_start(round.targets[n].out_path);
    TurnView::Ask(
        TargetsRunView { round, at: TargetsPointView::After(n, before, first->Ask_0) },
        first->Ask_1,
    )
}

/// What comes of the removal that goes before the first look. Whether it ended
/// well is no matter.
pub open spec fn clear_target(
    round: RoundView,
    n: int,
    removal: TurnView<TargetCleanView, CleanOutcomeView>,
) -> TurnView<TargetsRunView, TargetsOutcomeView> {
    match removal {
        TurnView::Ask(clean, request) => TurnView::Ask(
            TargetsRunView { round, at: TargetsPointView::Clearing(n, clean) },
            request,
        ),
        TurnView::End(_) => look_before(round, n),
    }
}

/// What comes of the removal that goes between the looks. Whether it ended well
/// is no matter.
pub open spec fn empty_target(
    round: RoundView,
    n: int,
    before: StatView,
    removal: TurnView<TargetCleanView, CleanOutcomeView>,
) -> TurnView<TargetsRunView, TargetsOutcomeView> {
    match removal {
        TurnView::Ask(clean, request) => TurnView::Ask(
            TargetsRunView { round, at: TargetsPointView::Emptying(n, before, clean) },
            request,
        ),
        TurnView::End(_) => look_after(round, n, before),
    }
}

/// Builds target `n` out of its source `k`, or takes the second look where it
/// has been built out of all of them.
pub open spec fn generate_from(round: RoundView, n: int, before: StatView, k: int) -> TurnView<
    TargetsRunView,
    TargetsOutcomeView,
> {
    let target = round.targets[n];
    if k < target.sources.len() {
        TurnView::Ask(
            TargetsRunView { round, at: TargetsPointView::Generating(n, before, k) },
            RequestView::Run(
                generate_command(target.sources[k], target.out_gen_path, target.out_path),
            ),
        )
    } else {
        look_after(round, n, before)
    }
}

/// Goes on with target `n`. After the last, the record is written.
pub open spec fn target_from(round: RoundView, n: int) -> TurnView<
    TargetsRunView,
    TargetsOutcomeView,
> {
    if n >= round.targets.len() {
        TurnView::Ask(
            TargetsRunView { round, at: TargetsPointView::Storing },
            RequestView::WriteBuildActions { path: record_path(), actions: round.actions },
        )
    } else {
        match round.job {
            Job::Build => clear_target(round, n, removal_of(round, n)),
            Job::Clean => look_before(round, n),
        }
    }
}

/// The record of what builds added is read first.
pub open spec fn targets_start(targets: Seq<CompileTargetView>, job: Job) -> TurnView<
    TargetsRunView,
    TargetsOutcomeView,
> {
    TurnView::Ask(
        TargetsRunView {
            round: RoundView { targets, job, actions: Seq::empty() },
            at: TargetsPointView::Loading,
        },
        RequestView::ReadBuildActions(record_path()),
    )
}

/// A record that cannot be read is taken as empty. A target that cannot be
/// looked at, and a generator that cannot be started, end the run; whether the
/// generator was successful is no matter.
pub open spec fn targets_step(run: TargetsRunView, reply: ReplyView) -> TurnView<
    TargetsRunView,
    TargetsOutcomeView,
> {
    let round = run.round;
    match run.at {
        TargetsPointView::Loading => match reply {
            ReplyView::BuildActions(actions) => target_from(RoundView { actions, ..round }, 0),
            _ => target_from(RoundView { actions: Seq::empty(), ..round }, 0),
        },
        TargetsPointView::Clearing(n, clean) => clear_target(round, n, clean_step(clean, reply)),
        TargetsPointView::Before(n, stat) => match stat_step(stat, reply) {
            TurnView::Ask(stat, request) => TurnView::Ask(
                TargetsRunView { round, at: TargetsPointView::Before(n, stat) },
                request,
            ),
            TurnView::End(StatOutcomeView::Found(before)) => match round.job {
                Job::Build => generate_from(round, n, before, 0),
                Job::Clean => empty_target(round, n, before, removal_of(round, n)),
            },
            TurnView::End(StatOutcomeView::Failed(error)) => TurnView::End(
                TargetsOutcomeView::Failed(TargetsErrorView::Look(error)),
            ),
        },
        TargetsPointView::Generating(n, before, k) => if reply is Exited {
            generate_from(round, n, before, k + 1)
        } else {
            TurnView::End(TargetsOutcomeView::Failed(TargetsErrorView::NotGenerated))
        },
        TargetsPointView::Emptying(n, before, clean) => empty_target(
            round,
            n,
            before,
            clean_step(clean, reply),
        ),
        TargetsPointView::After(n, before, stat) => match stat_step(stat, reply) {
            TurnView::Ask(stat, request) => TurnView::Ask(
                TargetsRunView { round, at: TargetsPointView::After(n, before, stat) },
                request,
            ),
            TurnView::End(StatOutcomeView::Found(after)) => target_from(
                RoundView {
                    actions: set_record(
                        round.actions,
                        round.targets[n].out_path,
                        stat_diff(before, after),
                    ),
                    ..round
                },
                n + 1,
            ),
            TurnView::End(StatOutcomeView::Failed(error)) => TurnView::End(
                TargetsOutcomeView::Failed(TargetsErrorView::Look(error)),
            ),
        },
        TargetsPointView::Storing => if reply is Done {
            TurnView::End(TargetsOutcomeView::Finished)
        } else {
            TurnView::End(TargetsOutcomeView::Failed(TargetsErrorView::NotWritten))
        },
    }
}

impl<'a> Round<'a> {
    /// How many targets there are.
    closed spec fn len(self) -> nat {
        self.targets@.len()
    }

    /// The removal of what the last build of target `n` added.
    fn removal(&self, n: usize) -> (removal: Turn<TargetClean, CleanOutcome>)
        requires
            n < self.len(),
        ensures
            removal@ == removal_of(self@, n as int),
    {
        assert(self@.targets[n as int] == self.targets@[n as int]@);
        match self.actions.find_target(&self.targets[n].out_path) {
            Some(record) => target_clean(record),
            None => Turn::End(CleanOutcome::Cleaned),
        }
    }

    /// Takes the first look at target `n`.
    fn look_before(self, n: usize) -> (turn: Turn<TargetsRun<'a>, TargetsOutcome>)
        requires
            n < self.len(),
        ensures
            turn@ == look_before(self@, n as int),
    {
        assert(self@.targets[n as int] == self.targets@[n as int]@);
        let (stat, request) = begin_stat(&self.targets[n].out_path);
        Turn::Ask(TargetsRun { round: self, at: TargetsPoint::Before(n, stat) }, request)
    }

    /// Takes the second look at target `n`.
    fn look_after(self, n: usize, before: Stat) -> (turn: Turn<TargetsRun<'a>, TargetsOutcome>)
        requires
            n < self.len(),
        ensures
            turn@ == look_after(self@, n as int, before@),
    {
        assert(self@.targets[n as int] == self.targets@[n as int]@);
        let (stat, request) = begin_stat(&self.targets[n].out_path);
        Turn::Ask(TargetsRun { round: self, at: TargetsPoint::After(n, before, stat) }, request)
    }

    /// Takes what came of the removal that goes before the first look.
    fn clear_target(self, n: usize, removal: Turn<TargetClean, CleanOutcome>) -> (turn: Turn<
        TargetsRun<'a>,
        TargetsOutcome,
    >)
        requires
            n < self.len(),
        ensures
            turn@ == clear_target(self@, n as int, removal@),
    {
        match removal {
            Turn::Ask(clean, request) => Turn::Ask(
                TargetsRun { round: self, at: TargetsPoint::Clearing(n, clean) },
                request,
            ),
            Turn::End(_) => self.look_before(n),
        }
    }

    /// Takes what came of the removal that goes between the looks.
    fn empty_target(
        self,
        n: usize,
        before: Stat,
        removal: Turn<TargetClean, CleanOutcome>,
    ) -> (turn: Turn<TargetsRun<'a>, TargetsOutcome>)
        requires
            n < self.len(),
        ensures
            turn@ == empty_target(self@, n as int, before@, removal@),
    {
        match removal {
            Turn::Ask(clean, request) => Turn::Ask(
                TargetsRun { round: self, at: TargetsPoint::Emptying(n, before, clean) },
                request,
            ),
            Turn::End(_) => self.look_after(n, before),
        }
    }

    /// Builds target `n` out of its source `k`, or takes the second look.
    fn generate_from(self, n: usize, before: Stat, k: usize) -> (turn: Turn<
        TargetsRun<'a>,
        TargetsOutcome,
    >)
        requires
            n < self.len(),
        ensures
            turn@ == generate_from(self@, n as int, before@, k as int),
    {
        assert(self@.targets[n as int] == self.targets@[n as int]@);
        let target = &self.targets[n];
        if k < target.sources.len() {
            assert(target@.sources[k as int] == target.sources@[k as int]@);
            let command = generate(
                target.sources[k].as_str(),
                &target.out_gen_path,
                &target.out_path,
            );
            Turn::Ask(
                TargetsRun { round: self, at: TargetsPoint::Generating(n, before, k) },
                Request::Run(command),
            )
        } else {
            self.look_after(n, before)
        }
    }

    /// Goes on with target `n`.
    fn target_from(self, n: usize) -> (turn: Turn<TargetsRun<'a>, TargetsOutcome>)
        ensures
            turn@ == target_from(self@, n as int),
    {
        if n >= self.targets.len() {
            let actions = self.actions.clone();
            let path = PathBuf::from_text(BUILD_OUTPUTS_PATH);
            return Turn::Ask(
                TargetsRun { round: self, at: TargetsPoint::Storing },
                Request::WriteBuildActions { path, actions },
            );
        }
        match self.job {
            Job::Build => {
                let removal = self.removal(n);
                self.clear_target(n, removal)
            },
            Job::Clean => self.look_before(n),
        }
    }
}

/// Starts to go through the targets.
fn start<'a>(config: &'a Config, job: Job) -> (turn: Turn<TargetsRun<'a>, TargetsOutcome>)
    ensures
        turn@ == targets_start(config@.targets, job),
{
    let round = Round { targets: &config.targets, job, actions: BuildActions::default() };
    assert(config@.targets == target_views(config.targets@));
    Turn::Ask(
        TargetsRun { round, at: TargetsPoint::Loading },
        Request::ReadBuildActions(PathBuf::from_text(BUILD_OUTPUTS_PATH)),
    )
}

/// Starts to build the targets: what the last build of each added is removed
/// first.
pub fn build_targets<'a>(config: &'a Config) -> (turn: Turn<TargetsRun<'a>, TargetsOutcome>)
    ensures
        turn@ == targets_start(config@.targets, Job::Build),
{
    start(config, Job::Build)
}

/// Starts to clean up the targets: what the last build of each added is removed.
pub fn clean_targets<'a>(config: &'a Config) -> (turn: Turn<TargetsRun<'a>, TargetsOutcome>)
    ensures
        turn@ == targets_start(config@.targets, Job::Clean),
{
    start(config, Job::Clean)
}

impl<'a> TargetsRun<'a> {
    #[verifier::type_invariant]
    spec fn well_formed(self) -> bool {
        match self.at {
            TargetsPoint::Loading => true,
            TargetsPoint::Clearing(n, _) => n < self.round.len(),
            TargetsPoint::Before(n, _) => n < self.round.len(),
            TargetsPoint::Generating(n, _, k) => n < self.round.len() && k
                < self.round@.targets[n as int].sources.len(),
            TargetsPoint::Emptying(n, _, _) => n < self.round.len(),
            TargetsPoint::After(n, _, _) => n < self.round.len(),
            TargetsPoint::Storing => true,
        }
    }

    /// Goes on with the reply to what was asked for.
    pub fn step(self, reply: Reply) -> (turn: Turn<TargetsRun<'a>, TargetsOutcome>)
        ensures
            turn@ == targets_step(self@, reply@),
    {
        proof {
            use_type_invariant(&self);
        }
        let TargetsRun { round, at } = self;
        assert(round.targets.len() == round.targets@.len());
        match at {
            TargetsPoint::Loading => {
                let actions = match reply {
                    Reply::BuildActions(actions) => actions,
                    _ => BuildActions::default(),
                };
                Round { actions, ..round }.target_from(0)
            },
            TargetsPoint::Clearing(n, clean) => round.clear_target(n, clean.step(reply)),
            TargetsPoint::Before(n, stat) => match stat.step(reply) {
                Turn::Ask(stat, request) => Turn::Ask(
                    TargetsRun { round, at: TargetsPoint::Before(n, stat) },
                    request,
                ),
                Turn::End(StatOutcome::Found(before)) => match round.job {
                    Job::Build => round.generate_from(n, before, 0),
                    Job::Clean => {
                        let removal = round.removal(n);
                        round.empty_target(n, before, removal)
                    },
                },
                Turn::End(StatOutcome::Failed(error)) => Turn::End(
                    TargetsOutcome::Failed(TargetsError::Look(error)),
                ),
            },
            TargetsPoint::Generating(n, before, k) => match reply {
                Reply::Exited { success } => {
                    assert(round@.targets[n as int] == round.targets@[n as int]@);
                    assert(round.targets[n as int].sources.len() > k);
                    round.generate_from(n, before, k + 1)
                },
                _ => Turn::End(TargetsOutcome::Failed(TargetsError::NotGenerated)),
            },
            TargetsPoint::Emptying(n, before, clean) => round.empty_target(
                n,
                before,
                clean.step(reply),
            ),
            TargetsPoint::After(n, before, stat) => match stat.step(reply) {
                Turn::Ask(stat, request) => Turn::Ask(
                    TargetsRun { round, at: TargetsPoint::After(n, before, stat) },
                    request,
                ),
                Turn::End(StatOutcome::Found(after)) => {
                    assert(round@.targets[n as int] == round.targets@[n as int]@);
                    let diff = target_stat_diff(&before, &after);
                    let Round { targets, job, mut actions } = round;
                    actions.set_target(&targets[n], diff);
                    Round { targets, job, actions }.target_from(n + 1)
                },
                Turn::End(StatOutcome::Failed(error)) => Turn::End(
                    TargetsOutcome::Failed(TargetsError::Look(error)),
                ),
            },
            TargetsPoint::Storing => match reply {
                Reply::Done => Turn::End(TargetsOutcome::Finished),
                _ => Turn::End(TargetsOutcome::Failed(TargetsError::NotWritten)),
            },
        }
    }
}

/// How building or cleaning up targets ends says whether it went well, and else why it
/// stopped.
pub proof fn law_outcomes_say_why_it_stopped(outcome: TargetsOutcome)
    ensures
        match outcome {
            TargetsOutcome::Finished => outcome@ is Finished,
            TargetsOutcome::Failed(TargetsError::Look(StatError::ReadDir(dir))) => outcome@
                == TargetsOutcomeView::Failed(
                TargetsErrorView::Look(StatErrorView::ReadDir(dir.bytes@)),
            ),
            TargetsOutcome::Failed(TargetsError::Look(StatError::ReadEntry)) => outcome@
                == TargetsOutcomeView::Failed(TargetsErrorView::Look(StatErrorView::ReadEntry)),
            TargetsOutcome::Failed(TargetsError::NotGenerated) => outcome@
                == TargetsOutcomeView::Failed(TargetsErrorView::NotGenerated),
            TargetsOutcome::Failed(TargetsError::NotWritten) => outcome@
                == TargetsOutcomeView::Failed(TargetsErrorView::NotWritten),
        },
{
}

} // verus!
