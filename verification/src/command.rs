//! The programs that are started, and what they are told.
use crate::bytes::copy_bytes;
use crate::config::{RemoteSource, RemoteSourceView};
use crate::path::{join, PathBuf};
use vstd::prelude::*;

verus! {

/// A program to start: its name, what it is told, and where it runs.
#[derive(Debug)]
pub struct Command {
    pub program: String,
    pub args: Vec<Vec<u8>>,
    pub dir: PathBuf,
}

pub struct CommandView {
    pub program: Seq<char>,
    pub args: Seq<Seq<u8>>,
    pub dir: Seq<u8>,
}

impl View for Command {
    type V = CommandView;

    open spec fn view(&self) -> CommandView {
        CommandView {
            program: self.program@,
            args: self.args@.map_values(|a: Vec<u8>| a@),
            dir: self.dir@,
        }
    }
}

/// The bytes of a text.
pub open spec fn text_bytes(text: Seq<char>) -> Seq<u8> {
    vstd::utf8::encode_utf8(text)
}

/// The text as an argument.
fn arg(text: &str) -> (bytes: Vec<u8>)
    ensures
        bytes@ == text_bytes(text@),
{
    copy_bytes(text.as_bytes())
}

/// How a source gets from its repository into the cache: the steps, in order.
#[derive(Debug)]
pub enum CheckoutStage {
    /// The repository is cloned, with no file checked out.
    Clone,
    /// What is checked out is narrowed to the path of the source.
    SparseCheckout,
    /// The files are checked out.
    Checkout,
}

/// The step that follows, if one does. Without a path there is nothing to
/// narrow the checkout to.
pub open spec fn next_stage(stage: CheckoutStage, source: RemoteSourceView) -> Option<CheckoutStage> {
    match stage {
        CheckoutStage::Clone => if source.path.len() == 0 {
            Some(CheckoutStage::Checkout)
        } else {
            Some(CheckoutStage::SparseCheckout)
        },
        CheckoutStage::SparseCheckout => Some(CheckoutStage::Checkout),
        CheckoutStage::Checkout => None,
    }
}

/// What git is told at a step. The clone goes into `name` below `cache`; the
/// later steps run in there.
pub open spec fn stage_command(
    stage: CheckoutStage,
    source: RemoteSourceView,
    cache: Seq<u8>,
    name: Seq<char>,
) -> CommandView {
    let clone_dir = join(cache, text_bytes(name));
    match stage {
        CheckoutStage::Clone => CommandView {
            program: "git"@,
            args: if source.path.len() == 0 {
                seq![
                    text_bytes("clone"@),
                    text_bytes("-n"@),
                    text_bytes("--depth=1"@),
                    text_bytes("--branch"@),
                    text_bytes(source.tag),
                    text_bytes(source.url),
                    text_bytes(name),
                ]
            } else {
                seq![
                    text_bytes("clone"@),
                    text_bytes("-n"@),
                    text_bytes("--depth=1"@),
                    text_bytes("--filter=blob:none"@),
                    text_bytes("--branch"@),
                    text_bytes(source.tag),
                    text_bytes(source.url),
                    text_bytes(name),
                ]
            },
            dir: cache,
        },
        CheckoutStage::SparseCheckout => CommandView {
            program: "git"@,
            args: seq![
                text_bytes("sparse-checkout"@),
                text_bytes("set"@),
                text_bytes("--no-cone"@),
                text_bytes(source.path),
            ],
            dir: clone_dir,
        },
        CheckoutStage::Checkout => CommandView {
            program: "git"@,
            args: seq![text_bytes("checkout"@), text_bytes(source.tag)],
            dir: clone_dir,
        },
    }
}

/// The step that follows, if one does.
pub fn stage_after(stage: &CheckoutStage, source: &RemoteSource) -> (next: Option<CheckoutStage>)
    ensures
        next == next_stage(*stage, source@),
{
    match stage {
        CheckoutStage::Clone => if source.path.as_str().is_empty() {
            Some(CheckoutStage::Checkout)
        } else {
            Some(CheckoutStage::SparseCheckout)
        },
        CheckoutStage::SparseCheckout => Some(CheckoutStage::Checkout),
        CheckoutStage::Checkout => None,
    }
}

/// What git is told at a step.
pub fn checkout_command(
    stage: &CheckoutStage,
    source: &RemoteSource,
    cache: &PathBuf,
    name: &str,
) -> (command: Command)
    ensures
        command@ == stage_command(*stage, source@, cache@, name@),
{
    let mut args: Vec<Vec<u8>> = Vec::new();
    let dir = match stage {
        CheckoutStage::Clone => {
            args.push(arg("clone"));
            args.push(arg("-n"));
            args.push(arg("--depth=1"));
            if !source.path.as_str().is_empty() {
                args.push(arg("--filter=blob:none"));
            }
            args.push(arg("--branch"));
            args.push(arg(source.tag.as_str()));
            args.push(arg(source.url.as_str()));
            args.push(arg(name));
            cache.clone()
        },
        CheckoutStage::SparseCheckout => {
            args.push(arg("sparse-checkout"));
            args.push(arg("set"));
            args.push(arg("--no-cone"));
            args.push(arg(source.path.as_str()));
            cache.join(name.as_bytes())
        },
        CheckoutStage::Checkout => {
            args.push(arg("checkout"));
            args.push(arg(source.tag.as_str()));
            cache.join(name.as_bytes())
        },
    };
    let command = Command { program: "git".to_owned(), args, dir };
    assert(command@.args =~= stage_command(*stage, source@, cache@, name@).args);
    command
}

/// The program that shows whether a directory can be listed.
pub open spec fn list_command(dir: Seq<u8>) -> CommandView {
    CommandView { program: "ls"@, args: Seq::empty(), dir }
}

/// The program that shows whether a directory can be listed.
pub fn list_dir(dir: PathBuf) -> (command: Command)
    ensures
        command@ == list_command(dir@),
{
    let command = Command { program: "ls".to_owned(), args: Vec::new(), dir };
    assert(command@.args =~= Seq::<Seq<u8>>::empty());
    command
}

/// Where the generator finds a vendored source.
pub open spec fn generator_input(name: Seq<char>) -> Seq<u8> {
    join(text_bytes("./vendor"@), text_bytes(name))
}

/// The program that generates code out of a vendored source.
pub open spec fn generate_command(
    name: Seq<char>,
    out_gen_path: Seq<u8>,
    out_path: Seq<u8>,
) -> CommandView {
    CommandView {
        program: "buf"@,
        args: seq![
            text_bytes("generate"@),
            generator_input(name),
            text_bytes("--template"@),
            out_gen_path,
            text_bytes("--output"@),
            out_path,
        ],
        dir: text_bytes("."@),
    }
}

/// The program that generates code out of a vendored source.
pub fn generate(name: &str, out_gen_path: &PathBuf, out_path: &PathBuf) -> (command: Command)
    ensures
        command@ == generate_command(name@, out_gen_path@, out_path@),
{
    let mut args: Vec<Vec<u8>> = Vec::new();
    args.push(arg("generate"));
    args.push(PathBuf::from_text("./vendor").join(name.as_bytes()).bytes);
    args.push(arg("--template"));
    args.push(copy_bytes(out_gen_path.bytes.as_slice()));
    args.push(arg("--output"));
    args.push(copy_bytes(out_path.bytes.as_slice()));
    let command = Command { program: "buf".to_owned(), args, dir: PathBuf::from_text(".") };
    assert(command@.args =~= generate_command(name@, out_gen_path@, out_path@).args);
    command
}

// ---------------------------------------------------------------------------
// What the programs are told, whatever they are started for
// ---------------------------------------------------------------------------

/// A clone is always told the branch: `--branch` stands directly before the tag of
/// the source, whatever the tag is, and then come the URL and, at the end, the
/// directory to clone into. Ahead of that, git is told to clone, to check out no
/// file and to fetch one commit, and, exactly where the source has a path, to leave
/// out what files hold. It runs in the cache.
pub proof fn law_clone_is_of_the_tag(source: RemoteSourceView, cache: Seq<u8>, name: Seq<char>)
    ensures
        ({
            let clone = stage_command(CheckoutStage::Clone, source, cache, name);
            let args = clone.args;
            let n = args.len() as int;
            &&& clone.program == "git"@
            &&& clone.dir == cache
            &&& n == (if source.path =~= Seq::<char>::empty() {
                7int
            } else {
                8int
            })
            &&& args[0] == vstd::utf8::encode_utf8("clone"@)
            &&& args[1] == vstd::utf8::encode_utf8("-n"@)
            &&& args[2] == vstd::utf8::encode_utf8("--depth=1"@)
            &&& n == 8 ==> args[3] == vstd::utf8::encode_utf8("--filter=blob:none"@)
            &&& args[n - 4] == vstd::utf8::encode_utf8("--branch"@)
            &&& args[n - 3] == vstd::utf8::encode_utf8(source.tag)
            &&& args[n - 2] == vstd::utf8::encode_utf8(source.url)
            &&& args[n - 1] == vstd::utf8::encode_utf8(name)
        }),
{
    if source.path.len() == 0 {
        assert(source.path =~= Seq::<char>::empty());
    }
}

/// The steps after the clone run in the directory that the clone went into: the one
/// that the clone's last argument names, in the directory where the clone ran.
pub proof fn law_later_steps_run_in_the_clone(
    stage: CheckoutStage,
    source: RemoteSourceView,
    cache: Seq<u8>,
    name: Seq<char>,
)
    requires
        !(stage is Clone),
    ensures
        ({
            let clone = stage_command(CheckoutStage::Clone, source, cache, name);
            let later = stage_command(stage, source, cache, name);
            later.program == "git"@ && later.dir == join(clone.dir, clone.args.last())
        }),
{
}

/// The checkout is narrowed to the path of the source, as it is written and as a
/// pattern, and to nothing else.
pub proof fn law_narrowing_is_to_the_path(
    source: RemoteSourceView,
    cache: Seq<u8>,
    name: Seq<char>,
)
    ensures
        ({
            let args = stage_command(CheckoutStage::SparseCheckout, source, cache, name).args;
            &&& args.len() == 4
            &&& args[0] == vstd::utf8::encode_utf8("sparse-checkout"@)
            &&& args[1] == vstd::utf8::encode_utf8("set"@)
            &&& args[2] == vstd::utf8::encode_utf8("--no-cone"@)
            &&& args[3] == vstd::utf8::encode_utf8(source.path)
        }),
{
}

/// What is checked out is what was cloned: the last step names what stands behind
/// `--branch` in the clone.
pub proof fn law_checkout_is_of_what_was_cloned(
    source: RemoteSourceView,
    cache: Seq<u8>,
    name: Seq<char>,
)
    ensures
        ({
            let clone = stage_command(CheckoutStage::Clone, source, cache, name).args;
            let args = stage_command(CheckoutStage::Checkout, source, cache, name).args;
            &&& args.len() == 2
            &&& args[0] == vstd::utf8::encode_utf8("checkout"@)
            &&& args[1] == clone[clone.len() - 3]
        }),
{
}

/// A checkout has the step that narrows it exactly where the source has a path, and
/// ends with the checkout.
pub proof fn law_steps_of_a_checkout(source: RemoteSourceView)
    ensures
        next_stage(CheckoutStage::Clone, source) == Some(CheckoutStage::Checkout) <==> source.path
            =~= Seq::<char>::empty(),
        next_stage(CheckoutStage::Clone, source) == Some(CheckoutStage::SparseCheckout) <==> !(
        source.path =~= Seq::<char>::empty()),
        next_stage(CheckoutStage::SparseCheckout, source) == Some(CheckoutStage::Checkout),
        next_stage(CheckoutStage::Checkout, source) is None,
{
    if source.path.len() == 0 {
        assert(source.path =~= Seq::<char>::empty());
    }
}

/// A directory is listed by `ls`, started in it and told nothing.
pub proof fn law_listing_is_of_the_directory(dir: Seq<u8>)
    ensures
        list_command(dir).program == "ls"@,
        list_command(dir).args.len() == 0,
        list_command(dir).dir == dir,
{
}

/// The generator is told the template and the output directory of the target byte
/// for byte, absolute paths included, each behind its flag, and the vendored source
/// ahead of them. It is told nothing else, and runs in the working directory.
pub proof fn law_generator_is_told_the_target(
    name: Seq<char>,
    out_gen_path: Seq<u8>,
    out_path: Seq<u8>,
)
    ensures
        ({
            let command = generate_command(name, out_gen_path, out_path);
            let args = command.args;
            &&& command.program == "buf"@
            &&& command.dir == vstd::utf8::encode_utf8("."@)
            &&& args.len() == 6
            &&& args[0] == vstd::utf8::encode_utf8("generate"@)
            &&& args[1] == join(
                vstd::utf8::encode_utf8("./vendor"@),
                vstd::utf8::encode_utf8(name),
            )
            &&& args[2] == vstd::utf8::encode_utf8("--template"@)
            &&& args[3] == out_gen_path
            &&& args[4] == vstd::utf8::encode_utf8("--output"@)
            &&& args[5] == out_path
        }),
{
}

/// A command says which program is started, what it is told, argument by argument, and
/// where it runs.
pub proof fn law_commands_say_what_is_started(command: Command, i: int)
    ensures
        command@.program == command.program@,
        command@.dir == command.dir.bytes@,
        command@.args.len() == command.args@.len(),
        0 <= i < command.args@.len() ==> command@.args[i] == command.args@[i]@,
{
}

} // verus!
