//! Copying templates to where targets are built.
use crate::command::text_bytes;
use crate::config::{Config, Template, TemplateView};
use crate::copy::{
    begin_copy, copy_start, copy_step, CopyDir, CopyDirView, CopyOutcome, CopyOutcomeView,
};
use crate::followed::copy_waits_for;
use crate::mirror::{
    copies_started, copy_is_on_course, dirs_by, dirs_left, dirs_told, entry_is_of_dir, files_copied,
    is_copy_request, lemma_covered_on, lemma_one_more_reply, lemma_one_more_request,
    lemma_step_covers, lemma_step_is_on_course, opened_by, wanted_told,
};
use crate::path::{join, PathBuf};
use crate::protocol::{
    after, all_fit, requests, Reply, ReplyView, Request, RequestView, Turn, TurnView,
};
use crate::walk::dirs_opened;
use vstd::prelude::*;

verus! {

/// Templates being copied, as far as that has come.
#[derive(Debug)]
pub struct CopyTemplates<'a> {
    templates: &'a Vec<Template>,
    copies: Vec<CopyOutcome>,
    at: usize,
    point: TemplatePoint,
}

/// What is waited for, of the template that is being copied.
#[derive(Debug)]
pub enum TemplatePoint {
    /// Word on whether there is anything where the copy goes.
    Probing,
    /// What is there to be removed.
    Wiping,
    /// The copy.
    Copying(CopyDir),
}

/// How copying templates ends: it always comes to its end, and says of each
/// template, in order, what came of its copy.
#[derive(Debug)]
pub struct TemplatesOutcome {
    pub copies: Vec<CopyOutcome>,
}

pub struct CopyTemplatesView {
    pub templates: Seq<TemplateView>,
    /// What came of the copies so far.
    pub copies: Seq<CopyOutcomeView>,
    /// The template that is being copied.
    pub at: int,
    pub point: TemplatePointView,
}

pub enum TemplatePointView {
    Probing,
    Wiping,
    Copying(CopyDirView),
}

impl View for TemplatePoint {
    type V = TemplatePointView;

    open spec fn view(&self) -> TemplatePointView {
        match self {
            TemplatePoint::Probing => TemplatePointView::Probing,
            TemplatePoint::Wiping => TemplatePointView::Wiping,
            TemplatePoint::Copying(copy) => TemplatePointView::Copying(copy@),
        }
    }
}

/// The templates that a list of them stands for.
pub open spec fn template_views(templates: Seq<Template>) -> Seq<TemplateView> {
    templates.map_values(|t: Template| t@)
}

/// The outcomes that a list of them stands for.
pub open spec fn copy_views(copies: Seq<CopyOutcome>) -> Seq<CopyOutcomeView> {
    copies.map_values(|c: CopyOutcome| c@)
}

impl<'a> View for CopyTemplates<'a> {
    type V = CopyTemplatesView;

    closed spec fn view(&self) -> CopyTemplatesView {
        CopyTemplatesView {
            templates: template_views(self.templates@),
            copies: copy_views(self.copies@),
            at: self.at as int,
            point: self.point@,
        }
    }
}

impl View for TemplatesOutcome {
    type V = Seq<CopyOutcomeView>;

    open spec fn view(&self) -> Seq<CopyOutcomeView> {
        copy_views(self.copies@)
    }
}

/// The path, from the working directory.
pub open spec fn from_here(path: Seq<u8>) -> Seq<u8> {
    join(text_bytes("."@), path)
}

/// Goes on with template `n`, or ends where there is none.
pub open spec fn templates_from(
    templates: Seq<TemplateView>,
    copies: Seq<CopyOutcomeView>,
    n: int,
) -> TurnView<CopyTemplatesView, Seq<CopyOutcomeView>> {
    if n < templates.len() {
        TurnView::Ask(
            CopyTemplatesView { templates, copies, at: n, point: TemplatePointView::Probing },
            RequestView::Exists(templates[n].out_path),
        )
    } else {
        TurnView::End(copies)
    }
}

/// The templates are copied from the first one on.
pub open spec fn templates_start(templates: Seq<TemplateView>) -> TurnView<
    CopyTemplatesView,
    Seq<CopyOutcomeView>,
> {
    templates_from(templates, Seq::empty(), 0)
}

/// Starts the copy of the template that the run is at.
pub open spec fn template_copy(run: CopyTemplatesView) -> TurnView<
    CopyTemplatesView,
    Seq<CopyOutcomeView>,
> {
    let template = run.templates[run.at];
    let first = copy_start(from_here(template.in_path), from_here(template.out_path));
    TurnView::Ask(
        CopyTemplatesView { point: TemplatePointView::Copying(first->Ask_0), ..run },
        first->Ask_1,
    )
}

/// What is where a template goes is removed before the template is copied.
/// Whether it could be is no matter, and what came of the copy is noted.
pub open spec fn templates_step(run: CopyTemplatesView, reply: ReplyView) -> TurnView<
    CopyTemplatesView,
    Seq<CopyOutcomeView>,
> {
    match run.point {
        TemplatePointView::Probing => if reply == ReplyView::Answer(true) {
            TurnView::Ask(
                CopyTemplatesView { point: TemplatePointView::Wiping, ..run },
                RequestView::RemoveDirAll(run.templates[run.at].out_path),
            )
        } else {
            template_copy(run)
        },
        TemplatePointView::Wiping => template_copy(run),
        TemplatePointView::Copying(copy) => match copy_step(copy, reply) {
            TurnView::Ask(copy, request) => TurnView::Ask(
                CopyTemplatesView { point: TemplatePointView::Copying(copy), ..run },
                request,
            ),
            TurnView::End(outcome) => templates_from(
                run.templates,
                run.copies.push(outcome),
                run.at + 1,
            ),
        },
    }
}

/// Goes on with template `n`, or ends where there is none.
fn go_on_from<'a>(templates: &'a Vec<Template>, copies: Vec<CopyOutcome>, n: usize) -> (turn: Turn<
    CopyTemplates<'a>,
    TemplatesOutcome,
>)
    ensures
        turn@ == templates_from(template_views(templates@), copy_views(copies@), n as int),
{
    if n < templates.len() {
        assert(template_views(templates@)[n as int] == templates@[n as int]@);
        let request = Request::Exists(templates[n].out_path.clone());
        let point = TemplatePoint::Probing;
        Turn::Ask(CopyTemplates { templates, copies, at: n, point }, request)
    } else {
        Turn::End(TemplatesOutcome { copies })
    }
}

/// Starts to copy the templates to where targets are built.
pub fn create_targets_from_templates<'a>(config: &'a Config) -> (turn: Turn<
    CopyTemplates<'a>,
    TemplatesOutcome,
>)
    ensures
        turn@ == templates_start(config@.templates),
{
    let copies: Vec<CopyOutcome> = Vec::new();
    assert(config@.templates == template_views(config.templates@));
    assert(copy_views(copies@) =~= Seq::<CopyOutcomeView>::empty());
    go_on_from(&config.templates, copies, 0)
}

impl<'a> CopyTemplates<'a> {
    #[verifier::type_invariant]
    spec fn well_formed(self) -> bool {
        self.at < self.templates@.len()
    }

    /// Starts the copy of the template that the run is at.
    fn start_copy(self) -> (turn: Turn<CopyTemplates<'a>, TemplatesOutcome>)
        ensures
            turn@ == template_copy(self@),
    {
        proof {
            use_type_invariant(&self);
        }
        let CopyTemplates { templates, copies, at, point: _ } = self;
        assert(template_views(templates@)[at as int] == templates@[at as int]@);
        let src = PathBuf::from_text(".").join(templates[at].in_path.bytes.as_slice());
        let dst = PathBuf::from_text(".").join(templates[at].out_path.bytes.as_slice());
        let (copy, request) = begin_copy(src, dst);
        let point = TemplatePoint::Copying(copy);
        Turn::Ask(CopyTemplates { templates, copies, at, point }, request)
    }

    /// Goes on with the reply to what was asked for.
    pub fn step(self, reply: Reply) -> (turn: Turn<CopyTemplates<'a>, TemplatesOutcome>)
        ensures
            turn@ == templates_step(self@, reply@),
    {
        proof {
            use_type_invariant(&self);
        }
        let CopyTemplates { templates, mut copies, at, point } = self;
        assert(templates.len() == templates@.len());
        match point {
            TemplatePoint::Probing => match reply {
                Reply::Answer(true) => {
                    assert(template_views(templates@)[at as int] == templates@[at as int]@);
                    let request = Request::RemoveDirAll(templates[at].out_path.clone());
                    let point = TemplatePoint::Wiping;
                    Turn::Ask(CopyTemplates { templates, copies, at, point }, request)
                },
                _ => CopyTemplates { templates, copies, at, point }.start_copy(),
            },
            TemplatePoint::Wiping => CopyTemplates { templates, copies, at, point }.start_copy(),
            TemplatePoint::Copying(copy) => match copy.step(reply) {
                Turn::Ask(copy, request) => {
                    let point = TemplatePoint::Copying(copy);
                    Turn::Ask(CopyTemplates { templates, copies, at, point }, request)
                },
                Turn::End(outcome) => {
                    let ghost noted = copy_views(copies@);
                    let ghost shown = outcome@;
                    copies.push(outcome);
                    assert(copy_views(copies@) =~= noted.push(shown));
                    go_on_from(templates, copies, at + 1)
                },
            },
        }
    }
}

// ---------------------------------------------------------------------------
// What copying the templates does as a whole
// ---------------------------------------------------------------------------

/// The step of copying templates, to follow a whole run with.
pub open spec fn templates_stepper() -> spec_fn(CopyTemplatesView, ReplyView) -> TurnView<
    CopyTemplatesView,
    Seq<CopyOutcomeView>,
> {
    |run: CopyTemplatesView, reply: ReplyView| templates_step(run, reply)
}

/// Where the first `n` templates are, in order.
pub open spec fn template_dirs(templates: Seq<TemplateView>, n: int) -> Seq<Seq<u8>> {
    templates.take(n).map_values(|t: TemplateView| from_here(t.in_path))
}

/// The templates whose copy was started when a run stands there.
spec fn templates_started(run: CopyTemplatesView) -> int {
    match run.point {
        TemplatePointView::Copying(_) => run.at + 1,
        _ => run.at,
    }
}

/// How far a run has come: `started` are the copies that it has started.
spec fn templates_progress(
    templates: Seq<TemplateView>,
    turn: TurnView<CopyTemplatesView, Seq<CopyOutcomeView>>,
    started: Seq<Seq<u8>>,
) -> bool {
    match turn {
        TurnView::Ask(run, request) => {
            &&& run.templates == templates
            &&& 0 <= run.at < templates.len()
            &&& run.copies.len() == run.at
            &&& request matches RequestView::RemoveDirAll(dir) ==> dir
                == templates[run.at].out_path
            &&& started == template_dirs(templates, templates_started(run))
        },
        TurnView::End(copies) => {
            &&& copies.len() == templates.len()
            &&& started == template_dirs(templates, templates.len() as int)
        },
    }
}

proof fn lemma_one_more_template(templates: Seq<TemplateView>, n: int)
    requires
        0 <= n < templates.len(),
    ensures
        template_dirs(templates, n + 1) == template_dirs(templates, n).push(
            from_here(templates[n].in_path),
        ),
{
    assert(template_dirs(templates, n + 1) =~= template_dirs(templates, n).push(
        from_here(templates[n].in_path),
    ));
}

proof fn lemma_templates_so_far(templates: Seq<TemplateView>, replies: Seq<ReplyView>)
    ensures
        templates_progress(
            templates,
            after(templates_start(templates), templates_stepper(), replies),
            copies_started(requests(templates_start(templates), templates_stepper(), replies)),
        ),
    decreases replies.len(),
{
    let start = templates_start(templates);
    let step = templates_stepper();
    let asked = requests(start, step, replies);
    if replies.len() == 0 {
        reveal_with_fuel(copies_started, 2);
        assert(template_dirs(templates, 0) =~= Seq::<Seq<u8>>::empty());
        match start {
            TurnView::Ask(_, request) => {
                assert(asked =~= seq![request]);
                assert(asked.drop_last() =~= Seq::<RequestView>::empty());
            },
            TurnView::End(_) => {},
        }
    } else {
        let earlier = replies.drop_last();
        lemma_templates_so_far(templates, earlier);
        let asked_before = requests(start, step, earlier);
        match after(start, step, earlier) {
            TurnView::Ask(was, _) => {
                lemma_one_more_template(templates, was.at);
                match after(start, step, replies) {
                    TurnView::Ask(run, request) => {
                        assert(asked == asked_before.push(request));
                        assert(asked.drop_last() =~= asked_before);
                    },
                    TurnView::End(_) => {},
                }
            },
            TurnView::End(_) => {},
        }
    }
}

/// By its end a run has started a copy of every template, each once and in the
/// order of the configuration, and says of each what came of it.
pub proof fn law_every_template_is_copied(
    templates: Seq<TemplateView>,
    replies: Seq<ReplyView>,
    copies: Seq<CopyOutcomeView>,
)
    requires
        after(templates_start(templates), templates_stepper(), replies) == TurnView::<
            CopyTemplatesView,
            Seq<CopyOutcomeView>,
        >::End(copies),
    ensures
        copies_started(requests(templates_start(templates), templates_stepper(), replies))
            == templates.map_values(|t: TemplateView| from_here(t.in_path)),
        copies.len() == templates.len(),
{
    lemma_templates_so_far(templates, replies);
    assert(templates.take(templates.len() as int) =~= templates);
}

/// Nothing is removed but what is where a template goes, and that only right
/// after word came that something is there.
pub proof fn law_templates_wipe_their_places_only(
    templates: Seq<TemplateView>,
    replies: Seq<ReplyView>,
    run: CopyTemplatesView,
    dir: Seq<u8>,
)
    requires
        after(templates_start(templates), templates_stepper(), replies) == TurnView::<
            CopyTemplatesView,
            Seq<CopyOutcomeView>,
        >::Ask(run, RequestView::RemoveDirAll(dir)),
    ensures
        0 <= run.at < templates.len(),
        dir == templates[run.at].out_path,
        replies.len() > 0,
        replies.last() == ReplyView::Answer(true),
{
    lemma_templates_so_far(templates, replies);
    if replies.len() > 0 {
        lemma_templates_so_far(templates, replies.drop_last());
    }
}

/// Whether a run is told of an entry only while it reads a directory, and of one
/// that is in there.
pub open spec fn template_entries_of_dirs() -> spec_fn(CopyTemplatesView, ReplyView) -> bool {
    |run: CopyTemplatesView, reply: ReplyView|
        match run.point {
            TemplatePointView::Copying(copy) => entry_is_of_dir(copy, reply),
            _ => !(reply is Entry),
        }
}

/// Whether every copy came to its end.
pub open spec fn all_copied(copies: Seq<CopyOutcomeView>) -> bool {
    forall|i: int| 0 <= i < copies.len() ==> #[trigger] copies[i] is Copied
}

/// The directories that are known of and not opened yet.
spec fn template_dirs_left(run: CopyTemplatesView) -> Seq<Seq<u8>> {
    match run.point {
        TemplatePointView::Copying(copy) => dirs_left(copy),
        _ => Seq::empty(),
    }
}

proof fn lemma_templates_cover_so_far(templates: Seq<TemplateView>, replies: Seq<ReplyView>)
    requires
        all_fit(
            templates_start(templates),
            templates_stepper(),
            template_entries_of_dirs(),
            replies,
        ),
    ensures
        ({
            let asked = requests(templates_start(templates), templates_stepper(), replies);
            after(templates_start(templates), templates_stepper(), replies) matches TurnView::Ask(
                run,
                _,
            ) ==> (all_copied(run.copies) ==> {
                &&& files_copied(asked) == wanted_told(replies)
                &&& dirs_opened(asked).to_multiset().add(template_dirs_left(run).to_multiset())
                    == dirs_told(replies).to_multiset().add(
                    template_dirs(templates, templates_started(run)).to_multiset(),
                )
            })
        }),
    decreases replies.len(),
{
    broadcast use vstd::seq_lib::group_to_multiset_ensures;
    let start = templates_start(templates);
    let step = templates_stepper();
    let asked = requests(start, step, replies);
    let none = Seq::<Seq<u8>>::empty();
    if replies.len() == 0 {
        assert(template_dirs(templates, 0) =~= none);
        match start {
            TurnView::Ask(_, request) => {
                lemma_one_more_request(Seq::empty(), request);
                assert(files_copied(asked) =~= none);
                assert(dirs_opened(asked) =~= none);
            },
            TurnView::End(_) => {},
        }
    } else {
        let earlier = replies.drop_last();
        lemma_templates_cover_so_far(templates, earlier);
        lemma_templates_so_far(templates, earlier);
        lemma_one_more_reply(replies);
        let before = requests(start, step, earlier);
        match (after(start, step, earlier), after(start, step, replies)) {
            (TurnView::Ask(was, _), TurnView::Ask(run, request)) => {
                let reply = replies.last();
                lemma_one_more_request(before, request);
                lemma_one_more_template(templates, was.at);
                let opened = dirs_opened(before).to_multiset();
                let told = dirs_told(earlier);
                match was.point {
                    TemplatePointView::Copying(copy) => {
                        lemma_step_covers(copy, reply);
                        match copy_step(copy, reply) {
                            TurnView::Ask(next, _) => {
                                if all_copied(run.copies) {
                                    lemma_covered_on(
                                        dirs_opened(before),
                                        dirs_left(copy),
                                        told,
                                        template_dirs(templates, run.at + 1),
                                        opened_by(request),
                                        dirs_left(next),
                                        dirs_by(reply),
                                    );
                                }
                            },
                            TurnView::End(outcome) => {
                                if all_copied(run.copies) {
                                    assert(run.copies[was.at] == outcome);
                                    assert forall|i: int| 0 <= i < was.copies.len() implies
                                        #[trigger] was.copies[i] is Copied by {
                                        assert(run.copies[i] == was.copies[i]);
                                    }
                                    assert(dirs_left(copy) =~= none);
                                    assert(wanted_told(replies) =~= wanted_told(earlier));
                                    assert(dirs_told(replies) =~= told);
                                    assert(dirs_opened(asked) =~= dirs_opened(before));
                                    assert(files_copied(asked) =~= files_copied(before));
                                }
                            },
                        }
                    },
                    _ => {
                        assert(wanted_told(replies) =~= wanted_told(earlier));
                        assert(dirs_told(replies) =~= told);
                        assert(dirs_opened(asked) =~= dirs_opened(before));
                        assert(files_copied(asked) =~= files_copied(before));
                        match run.point {
                            TemplatePointView::Copying(copy) => {
                                let dir = from_here(templates[run.at].in_path);
                                let due = template_dirs(templates, run.at);
                                assert(dirs_left(copy) =~= none.push(dir));
                                assert(opened.add(none.to_multiset()) =~= opened);
                                assert(opened.add(none.push(dir).to_multiset()) =~= opened.insert(
                                    dir,
                                ));
                                assert(told.to_multiset().add(due.push(dir).to_multiset())
                                    =~= told.to_multiset().add(due.to_multiset()).insert(dir));
                            },
                            _ => {},
                        }
                    },
                }
            },
            _ => {},
        }
    }
}

/// Copying templates misses nothing: where every copy came to its end, every
/// wanted file that was told of was asked for, in order, and every template and
/// every directory that was told of and is not passed over was opened, each as
/// often as it was told of.
pub proof fn law_templates_miss_nothing(
    templates: Seq<TemplateView>,
    replies: Seq<ReplyView>,
    last: ReplyView,
    copies: Seq<CopyOutcomeView>,
)
    requires
        all_fit(
            templates_start(templates),
            templates_stepper(),
            template_entries_of_dirs(),
            replies.push(last),
        ),
        after(templates_start(templates), templates_stepper(), replies) is Ask,
        after(templates_start(templates), templates_stepper(), replies.push(last)) == TurnView::<
            CopyTemplatesView,
            Seq<CopyOutcomeView>,
        >::End(copies),
        all_copied(copies),
    ensures
        ({
            let asked = requests(
                templates_start(templates),
                templates_stepper(),
                replies.push(last),
            );
            &&& files_copied(asked) == wanted_told(replies.push(last))
            &&& dirs_opened(asked).to_multiset() == dirs_told(
                replies.push(last),
            ).to_multiset().add(
                templates.map_values(|t: TemplateView| from_here(t.in_path)).to_multiset(),
            )
        }),
{
    broadcast use vstd::seq_lib::group_to_multiset_ensures;
    let start = templates_start(templates);
    let step = templates_stepper();
    let all = replies.push(last);
    let none = Seq::<Seq<u8>>::empty();
    assert(all.drop_last() =~= replies);
    lemma_templates_cover_so_far(templates, replies);
    lemma_templates_so_far(templates, replies);
    lemma_one_more_reply(all);
    match after(start, step, replies) {
        TurnView::Ask(run, _) => match run.point {
            TemplatePointView::Copying(copy) => {
                lemma_step_covers(copy, last);
                match copy_step(copy, last) {
                    TurnView::End(outcome) => {
                        assert(copies[run.at] == outcome);
                        assert forall|i: int| 0 <= i < run.copies.len() implies
                            #[trigger] run.copies[i] is Copied by {
                            assert(copies[i] == run.copies[i]);
                        }
                        assert(wanted_told(all) =~= wanted_told(replies));
                        assert(dirs_told(all) =~= dirs_told(replies));
                        assert(dirs_left(copy) =~= none);
                        let opened = dirs_opened(requests(start, step, replies)).to_multiset();
                        assert(opened.add(none.to_multiset()) =~= opened);
                        assert(templates.take(templates.len() as int) =~= templates);
                    },
                    TurnView::Ask(_, _) => {},
                }
            },
            _ => {},
        },
        TurnView::End(_) => {},
    }
}

// ---------------------------------------------------------------------------
// What follows a reply
// ---------------------------------------------------------------------------

/// What holds of a run wherever it waits.
spec fn templates_hold(
    templates: Seq<TemplateView>,
    run: CopyTemplatesView,
    request: RequestView,
) -> bool {
    &&& run.templates == templates
    &&& 0 <= run.at < templates.len()
    &&& match run.point {
        TemplatePointView::Probing => request == RequestView::Exists(templates[run.at].out_path),
        TemplatePointView::Wiping => request == RequestView::RemoveDirAll(
            templates[run.at].out_path,
        ),
        TemplatePointView::Copying(copy) => request == copy_waits_for(copy),
    }
}

proof fn lemma_templates_hold(templates: Seq<TemplateView>, replies: Seq<ReplyView>)
    ensures
        after(templates_start(templates), templates_stepper(), replies) matches TurnView::Ask(
            run,
            request,
        ) ==> templates_hold(templates, run, request),
    decreases replies.len(),
{
    if replies.len() > 0 {
        lemma_templates_hold(templates, replies.drop_last());
    }
}

/// Each template is copied from its path to where it goes, both from the working
/// directory. Before that, what is there is asked about, and asked to be removed
/// exactly where there is something; whatever comes of that, the copy follows. What
/// comes of a copy is noted, and the next template follows, or the end where there is
/// none: nothing ends it before.
pub proof fn law_templates_follow_one_another(
    templates: Seq<TemplateView>,
    replies: Seq<ReplyView>,
    run: CopyTemplatesView,
    request: RequestView,
    reply: ReplyView,
)
    requires
        after(templates_start(templates), templates_stepper(), replies) == TurnView::<
            CopyTemplatesView,
            Seq<CopyOutcomeView>,
        >::Ask(run, request),
    ensures
        0 <= run.at < templates.len(),
        replies.len() == 0 ==> run.at == 0 && request == RequestView::Exists(
            templates[0].out_path,
        ),
        ({
            let next = after(templates_start(templates), templates_stepper(), replies.push(reply));
            let template = templates[run.at];
            let src = join(vstd::utf8::encode_utf8("."@), template.in_path);
            match run.point {
                TemplatePointView::Probing => {
                    &&& request == RequestView::Exists(template.out_path)
                    &&& next matches TurnView::Ask(later, asked) && later.at == run.at && asked
                        == (if reply == ReplyView::Answer(true) {
                        RequestView::RemoveDirAll(template.out_path)
                    } else {
                        RequestView::IsDir(src)
                    })
                },
                TemplatePointView::Wiping => {
                    &&& request == RequestView::RemoveDirAll(template.out_path)
                    &&& next matches TurnView::Ask(later, asked) && later.at == run.at && asked
                        == RequestView::IsDir(src)
                },
                TemplatePointView::Copying(copy) => match copy_step(copy, reply) {
                    TurnView::Ask(_, further) => next matches TurnView::Ask(later, asked)
                        && later.at == run.at && asked == further,
                    TurnView::End(outcome) => if run.at + 1 < templates.len() {
                        next matches TurnView::Ask(later, asked) && later.at == run.at + 1
                            && later.copies == run.copies.push(outcome) && asked
                            == RequestView::Exists(templates[run.at + 1].out_path)
                    } else {
                        next == TurnView::<CopyTemplatesView, Seq<CopyOutcomeView>>::End(
                            run.copies.push(outcome),
                        )
                    },
                },
            }
        }),
{
    lemma_templates_hold(templates, replies);
    assert(replies.push(reply).drop_last() =~= replies);
}

/// The copy of a template asks for nothing but what a copy from its path to where it
/// goes, both from the working directory, may ask for.
pub proof fn law_templates_stay_on_course(
    templates: Seq<TemplateView>,
    replies: Seq<ReplyView>,
    run: CopyTemplatesView,
    request: RequestView,
)
    requires
        all_fit(
            templates_start(templates),
            templates_stepper(),
            template_entries_of_dirs(),
            replies,
        ),
        after(templates_start(templates), templates_stepper(), replies) == TurnView::<
            CopyTemplatesView,
            Seq<CopyOutcomeView>,
        >::Ask(run, request),
    ensures
        0 <= run.at < templates.len(),
        run.point is Copying ==> is_copy_request(
            join(vstd::utf8::encode_utf8("."@), templates[run.at].in_path),
            join(vstd::utf8::encode_utf8("."@), templates[run.at].out_path),
            request,
        ),
{
    lemma_templates_on_course(templates, replies);
}

proof fn lemma_templates_on_course(templates: Seq<TemplateView>, replies: Seq<ReplyView>)
    requires
        all_fit(
            templates_start(templates),
            templates_stepper(),
            template_entries_of_dirs(),
            replies,
        ),
    ensures
        after(templates_start(templates), templates_stepper(), replies) matches TurnView::Ask(
            run,
            request,
        ) ==> templates_hold(templates, run, request) && (run.point matches
            TemplatePointView::Copying(copy) ==> copy_is_on_course(
            from_here(templates[run.at].in_path),
            from_here(templates[run.at].out_path),
            TurnView::Ask(copy, request),
        )),
    decreases replies.len(),
{
    lemma_templates_hold(templates, replies);
    if replies.len() > 0 {
        let earlier = replies.drop_last();
        lemma_templates_on_course(templates, earlier);
        match after(templates_start(templates), templates_stepper(), earlier) {
            TurnView::Ask(run, request) => match run.point {
                TemplatePointView::Copying(copy) => {
                    lemma_step_is_on_course(
                        from_here(templates[run.at].in_path),
                        from_here(templates[run.at].out_path),
                        copy,
                        request,
                        replies.last(),
                    );
                },
                _ => {},
            },
            TurnView::End(_) => {},
        }
    }
}

} // verus!
