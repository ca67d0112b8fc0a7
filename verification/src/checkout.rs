//! Getting a source out of its repository and into the cache.
use crate::command::{
    checkout_command, next_stage, stage_after, stage_command, text_bytes, CheckoutStage,
};
use crate::config::{RemoteSource, RemoteSourceView, Source, SourceView};
use crate::index::{CacheEntry, CacheEntryView};
use crate::path::{
    components, is_plain_name, join, lemma_join_plain_name, ComponentView, PathBuf, DOT, SEPARATOR,
};
use crate::protocol::{after, requests, Reply, ReplyView, Request, RequestView, Turn, TurnView};
use vstd::prelude::*;

verus! {

/// A digit of a hexadecimal number, in lower case.
pub open spec fn is_hex_digit(c: char) -> bool {
    ('0' <= c && c <= '9') || ('a' <= c && c <= 'f')
}

/// The text of a random UUID: 32 hexadecimal digits in lower case in groups of
/// 8, 4, 4, 4 and 12 with hyphens in between, the third group starting with a 4
/// and the fourth with one of 8, 9, a and b.
pub open spec fn is_random_uuid_text(s: Seq<char>) -> bool {
    &&& s.len() == 36
    &&& forall|i: int|
        0 <= i < 36 ==> if i == 8 || i == 13 || i == 18 || i == 23 {
            #[trigger] s[i] == '-'
        } else {
            is_hex_digit(s[i])
        }
    &&& s[14] == '4'
    &&& s[19] == '8' || s[19] == '9' || s[19] == 'a' || s[19] == 'b'
}

/// The text of [`uuid::Uuid::new_v4`], which masks random bits so that the
/// version is 4 and the variant the one of RFC 9562, and which `Display` writes
/// hyphenated and in lower case. That two calls give two texts is likely and is
/// not claimed. The call panics where the system has no random numbers to give.
#[verifier::external_body]
fn random_uuid_text() -> (text: String)
    ensures
        is_random_uuid_text(text@),
{
    uuid::Uuid::new_v4().to_string()
}

/// A name for a clone in the cache that nothing there is likely to have.
pub fn fresh_clone_name() -> (name: String)
    ensures
        is_random_uuid_text(name@),
{
    random_uuid_text()
}

/// The checkout of a source into the cache, as far as it has come.
#[derive(Debug)]
pub struct RemoteCheckout {
    source: RemoteSource,
    cache: PathBuf,
    name: String,
    stage: CheckoutStage,
}

/// How a checkout ends.
#[derive(Debug)]
pub enum CheckoutOutcome {
    /// The source is in the cache.
    Cached(CacheEntry),
    Failed(CheckoutError),
}

/// Why a checkout failed.
#[derive(Debug)]
pub enum CheckoutError {
    /// Git could not be started at that step.
    NotStarted(CheckoutStage),
    /// Git was not successful at that step.
    Unsuccessful(CheckoutStage),
    /// No name was found for the clone.
    Unnamed,
}

pub struct RemoteCheckoutView {
    pub source: RemoteSourceView,
    pub cache: Seq<u8>,
    pub name: Seq<char>,
    pub stage: CheckoutStage,
}

pub enum CheckoutOutcomeView {
    Cached(CacheEntryView),
    Failed(CheckoutError),
}

impl View for RemoteCheckout {
    type V = RemoteCheckoutView;

    closed spec fn view(&self) -> RemoteCheckoutView {
        RemoteCheckoutView {
            source: self.source@,
            cache: self.cache@,
            name: self.name@,
            stage: self.stage,
        }
    }
}

impl View for CheckoutOutcome {
    type V = CheckoutOutcomeView;

    open spec fn view(&self) -> CheckoutOutcomeView {
        match self {
            CheckoutOutcome::Cached(entry) => CheckoutOutcomeView::Cached(entry@),
            CheckoutOutcome::Failed(error) => CheckoutOutcomeView::Failed(*error),
        }
    }
}

/// The entry of a source that was cloned into `name` below `cache`.
pub open spec fn checkout_entry(
    source: RemoteSourceView,
    cache: Seq<u8>,
    name: Seq<char>,
) -> CacheEntryView {
    CacheEntryView { path: join(cache, text_bytes(name)), source: SourceView::Remote(source) }
}

/// Tells git what to do at a step.
pub open spec fn checkout_at(
    source: RemoteSourceView,
    cache: Seq<u8>,
    name: Seq<char>,
    stage: CheckoutStage,
) -> TurnView<RemoteCheckoutView, CheckoutOutcomeView> {
    TurnView::Ask(
        RemoteCheckoutView { source, cache, name, stage },
        RequestView::Run(stage_command(stage, source, cache, name)),
    )
}

/// A checkout starts with the clone.
pub open spec fn checkout_start(
    source: RemoteSourceView,
    cache: Seq<u8>,
    name: Seq<char>,
) -> TurnView<RemoteCheckoutView, CheckoutOutcomeView> {
    checkout_at(source, cache, name, CheckoutStage::Clone)
}

/// Whether it matters that git was successful at a step. What the last step
/// leaves is taken as it is.
pub open spec fn success_matters(stage: CheckoutStage) -> bool {
    !(stage is Checkout)
}

/// The steps follow one another until one goes wrong; after the last, the
/// source is in the cache.
pub open spec fn checkout_step(run: RemoteCheckoutView, reply: ReplyView) -> TurnView<
    RemoteCheckoutView,
    CheckoutOutcomeView,
> {
    match reply {
        ReplyView::Exited { success } => if !success && success_matters(run.stage) {
            TurnView::End(CheckoutOutcomeView::Failed(CheckoutError::Unsuccessful(run.stage)))
        } else {
            match next_stage(run.stage, run.source) {
                Some(stage) => checkout_at(run.source, run.cache, run.name, stage),
                None => TurnView::End(
                    CheckoutOutcomeView::Cached(checkout_entry(run.source, run.cache, run.name)),
                ),
            }
        },
        _ => TurnView::End(CheckoutOutcomeView::Failed(CheckoutError::NotStarted(run.stage))),
    }
}

/// Tells git what to do at a step.
fn at_stage(source: RemoteSource, cache: PathBuf, name: String, stage: CheckoutStage) -> (turn: Turn<
    RemoteCheckout,
    CheckoutOutcome,
>)
    ensures
        turn@ == checkout_at(source@, cache@, name@, stage),
{
    let command = checkout_command(&stage, &source, &cache, name.as_str());
    Turn::Ask(RemoteCheckout { source, cache, name, stage }, Request::Run(command))
}

/// Starts to get the source into the directory `name` of the cache.
pub fn check_out(source: &RemoteSource, cache: &PathBuf, name: String) -> (turn: Turn<
    RemoteCheckout,
    CheckoutOutcome,
>)
    ensures
        turn@ == checkout_start(source@, cache@, name@),
{
    at_stage(source.clone(), cache.clone(), name, CheckoutStage::Clone)
}

/// Starts to get the source into the cache, in a directory of a fresh name.
pub fn cache_remote_source(source: &RemoteSource, cache: &PathBuf) -> (turn: Turn<
    RemoteCheckout,
    CheckoutOutcome,
>)
    ensures
        exists|name: Seq<char>|
            is_random_uuid_text(name) && turn@ == #[trigger] checkout_start(source@, cache@, name),
{
    let name = fresh_clone_name();
    check_out(source, cache, name)
}

impl RemoteCheckout {
    /// The source that is checked out.
    pub fn source(&self) -> (source: RemoteSource)
        ensures
            source@ == self@.source,
    {
        self.source.clone()
    }

    /// Goes on with the reply to what was asked for.
    pub fn step(self, reply: Reply) -> (turn: Turn<RemoteCheckout, CheckoutOutcome>)
        ensures
            turn@ == checkout_step(self@, reply@),
    {
        let RemoteCheckout { source, cache, name, stage } = self;
        let success = match reply {
            Reply::Exited { success } => success,
            _ => return Turn::End(CheckoutOutcome::Failed(CheckoutError::NotStarted(stage))),
        };
        let matters = match stage {
            CheckoutStage::Checkout => false,
            _ => true,
        };
        if !success && matters {
            return Turn::End(CheckoutOutcome::Failed(CheckoutError::Unsuccessful(stage)));
        }
        match stage_after(&stage, &source) {
            Some(next) => at_stage(source, cache, name, next),
            None => {
                let path = cache.join(name.as_str().as_bytes());
                let entry = CacheEntry { path, source: Source::Remote(source) };
                Turn::End(CheckoutOutcome::Cached(entry))
            },
        }
    }
}

// ---------------------------------------------------------------------------
// What a whole checkout does
// ---------------------------------------------------------------------------

/// The steps of a checkout, in order.
pub open spec fn checkout_plan(source: RemoteSourceView) -> Seq<CheckoutStage> {
    if source.path.len() == 0 {
        seq![CheckoutStage::Clone, CheckoutStage::Checkout]
    } else {
        seq![CheckoutStage::Clone, CheckoutStage::SparseCheckout, CheckoutStage::Checkout]
    }
}

/// What git is told at each of the steps.
pub open spec fn checkout_requests(
    source: RemoteSourceView,
    cache: Seq<u8>,
    name: Seq<char>,
) -> Seq<RequestView> {
    checkout_plan(source).map_values(
        |stage: CheckoutStage| RequestView::Run(stage_command(stage, source, cache, name)),
    )
}

/// The step of a checkout, to follow a whole one with.
pub open spec fn checkout_stepper() -> spec_fn(RemoteCheckoutView, ReplyView) -> TurnView<
    RemoteCheckoutView,
    CheckoutOutcomeView,
> {
    |run: RemoteCheckoutView, reply: ReplyView| checkout_step(run, reply)
}

proof fn lemma_checkout_so_far(
    source: RemoteSourceView,
    cache: Seq<u8>,
    name: Seq<char>,
    replies: Seq<ReplyView>,
)
    ensures
        ({
            let plan = checkout_plan(source);
            let asked = requests(checkout_start(source, cache, name), checkout_stepper(), replies);
            &&& asked.len() <= plan.len()
            &&& asked == checkout_requests(source, cache, name).take(asked.len() as int)
            &&& match after(checkout_start(source, cache, name), checkout_stepper(), replies) {
                TurnView::Ask(run, _) => run.source == source && run.cache == cache && run.name
                    == name && asked.len() == replies.len() + 1 && run.stage
                    == plan[replies.len() as int],
                TurnView::End(outcome) => outcome matches CheckoutOutcomeView::Cached(entry) ==> {
                    &&& entry == checkout_entry(source, cache, name)
                    &&& asked.len() == plan.len()
                },
            }
        }),
    decreases replies.len(),
{
    let start = checkout_start(source, cache, name);
    let step = checkout_stepper();
    let asked = requests(start, step, replies);
    let all = checkout_requests(source, cache, name);
    if replies.len() == 0 {
        assert(asked =~= all.take(1));
    } else {
        let earlier = replies.drop_last();
        lemma_checkout_so_far(source, cache, name, earlier);
        match after(start, step, replies) {
            TurnView::Ask(run, request) => {
                let before = requests(start, step, earlier);
                assert(asked == before.push(request));
                assert(all[before.len() as int] == request);
                assert(asked =~= all.take(asked.len() as int));
            },
            TurnView::End(_) => {},
        }
    }
}

/// A checkout tells git to clone, to narrow the checkout where the source has a
/// path, and to check out, in that order and each once, and stops at the first
/// step that goes wrong. Where it ends well it has taken all the steps, and the
/// entry is of that source and at the directory that was cloned into.
pub proof fn law_checkout_follows_its_plan(
    source: RemoteSourceView,
    cache: Seq<u8>,
    name: Seq<char>,
    replies: Seq<ReplyView>,
)
    ensures
        ({
            let asked = requests(checkout_start(source, cache, name), checkout_stepper(), replies);
            let all = checkout_requests(source, cache, name);
            &&& asked.len() <= all.len()
            &&& asked == all.take(asked.len() as int)
            &&& after(checkout_start(source, cache, name), checkout_stepper(), replies)
                matches TurnView::End(CheckoutOutcomeView::Cached(entry)) ==> asked == all && entry
                == checkout_entry(source, cache, name)
        }),
{
    lemma_checkout_so_far(source, cache, name, replies);
    let all = checkout_requests(source, cache, name);
    assert(all.take(all.len() as int) =~= all);
}

/// A clone with a fresh name is a directory right below the cache.
pub proof fn law_clones_lie_in_the_cache(cache: Seq<u8>, name: Seq<char>)
    requires
        is_random_uuid_text(name),
    ensures
        components(join(cache, text_bytes(name))) == components(cache).push(
            ComponentView::Normal(text_bytes(name)),
        ),
{
    assert forall|i: int| 0 <= i < name.len() implies 0 <= (#[trigger] name[i]) as nat && (
    name[i] as nat) < 128 && name[i] as u8 != SEPARATOR by {}
    vstd::utf8::is_ascii_chars_encode_utf8(name);
    let bytes = text_bytes(name);
    assert(bytes.len() == 36);
    assert(!bytes.contains(SEPARATOR)) by {
        assert forall|i: int| 0 <= i < bytes.len() implies bytes[i] != SEPARATOR by {
            assert(bytes[i] == name[i] as u8);
        }
    }
    assert(bytes != seq![DOT]);
    assert(bytes != seq![DOT, DOT]);
    assert(is_plain_name(bytes));
    lemma_join_plain_name(cache, bytes);
}

} // verus!
