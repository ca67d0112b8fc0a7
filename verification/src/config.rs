//! What the configuration file says.
use crate::path::PathBuf;
use vstd::prelude::*;

verus! {

/// The configuration: where sources come from, and what is built out of them.
#[derive(Debug, PartialEq, Eq)]
pub struct Config {
    pub sources: Vec<Source>,
    pub templates: Vec<Template>,
    pub targets: Vec<CompileTarget>,
}

/// A directory that is copied to where a target is built.
#[derive(Debug, PartialEq, Eq)]
pub struct Template {
    pub in_path: PathBuf,
    pub out_path: PathBuf,
}

/// A directory that code is generated into.
#[derive(Debug, PartialEq, Eq)]
pub struct CompileTarget {
    /// Where the output goes. It also tells one target from another.
    pub out_path: PathBuf,
    /// The template that the generator is given.
    pub out_gen_path: PathBuf,
    /// The names of the sources that are built.
    pub sources: Vec<String>,
}

/// Where protobuf files come from.
#[derive(Debug)]
pub enum Source {
    Local(LocalSource),
    Remote(RemoteSource),
}

/// A directory on this machine.
#[derive(Debug)]
pub struct LocalSource {
    pub path: String,
    pub name: String,
}

/// A directory in a git repository, at a tag.
#[derive(Debug)]
pub struct RemoteSource {
    pub url: String,
    pub tag: String,
    pub path: String,
    pub name: String,
}

pub struct LocalSourceView {
    pub path: Seq<char>,
    pub name: Seq<char>,
}

pub struct RemoteSourceView {
    pub url: Seq<char>,
    pub tag: Seq<char>,
    pub path: Seq<char>,
    pub name: Seq<char>,
}

pub enum SourceView {
    Local(LocalSourceView),
    Remote(RemoteSourceView),
}

pub struct TemplateView {
    pub in_path: Seq<u8>,
    pub out_path: Seq<u8>,
}

pub struct CompileTargetView {
    pub out_path: Seq<u8>,
    pub out_gen_path: Seq<u8>,
    pub sources: Seq<Seq<char>>,
}

pub struct ConfigView {
    pub sources: Seq<SourceView>,
    pub templates: Seq<TemplateView>,
    pub targets: Seq<CompileTargetView>,
}

impl View for LocalSource {
    type V = LocalSourceView;

    open spec fn view(&self) -> LocalSourceView {
        LocalSourceView { path: self.path@, name: self.name@ }
    }
}

impl View for RemoteSource {
    type V = RemoteSourceView;

    open spec fn view(&self) -> RemoteSourceView {
        RemoteSourceView { url: self.url@, tag: self.tag@, path: self.path@, name: self.name@ }
    }
}

impl View for Source {
    type V = SourceView;

    open spec fn view(&self) -> SourceView {
        match self {
            Source::Local(source) => SourceView::Local(source@),
            Source::Remote(source) => SourceView::Remote(source@),
        }
    }
}

impl View for Template {
    type V = TemplateView;

    open spec fn view(&self) -> TemplateView {
        TemplateView { in_path: self.in_path@, out_path: self.out_path@ }
    }
}

impl View for CompileTarget {
    type V = CompileTargetView;

    open spec fn view(&self) -> CompileTargetView {
        CompileTargetView {
            out_path: self.out_path@,
            out_gen_path: self.out_gen_path@,
            sources: text_views(self.sources@),
        }
    }
}

impl View for Config {
    type V = ConfigView;

    open spec fn view(&self) -> ConfigView {
        ConfigView {
            sources: source_views(self.sources@),
            templates: self.templates@.map_values(|t: Template| t@),
            targets: self.targets@.map_values(|t: CompileTarget| t@),
        }
    }
}

/// The texts that a list of strings stands for.
pub open spec fn text_views(texts: Seq<String>) -> Seq<Seq<char>> {
    texts.map_values(|t: String| t@)
}

/// The sources that a list of them stands for.
pub open spec fn source_views(sources: Seq<Source>) -> Seq<SourceView> {
    sources.map_values(|s: Source| s@)
}

impl SourceView {
    /// The name under which the source is vendored.
    pub open spec fn name(self) -> Seq<char> {
        match self {
            SourceView::Local(source) => source.name,
            SourceView::Remote(source) => source.name,
        }
    }
}

impl Source {
    /// The name under which the source is vendored.
    pub fn name(&self) -> (name: &str)
        ensures
            name@ == self@.name(),
    {
        match self {
            Source::Local(source) => source.name.as_str(),
            Source::Remote(source) => source.name.as_str(),
        }
    }
}

impl Clone for LocalSource {
    fn clone(&self) -> (copy: Self)
        ensures
            copy@ == self@,
    {
        LocalSource { path: self.path.clone(), name: self.name.clone() }
    }
}

impl Clone for RemoteSource {
    fn clone(&self) -> (copy: Self)
        ensures
            copy@ == self@,
    {
        RemoteSource {
            url: self.url.clone(),
            tag: self.tag.clone(),
            path: self.path.clone(),
            name: self.name.clone(),
        }
    }
}

impl Clone for Source {
    fn clone(&self) -> (copy: Self)
        ensures
            copy@ == self@,
    {
        match self {
            Source::Local(source) => Source::Local(source.clone()),
            Source::Remote(source) => Source::Remote(source.clone()),
        }
    }
}

impl PartialEq for LocalSource {
    fn eq(&self, other: &Self) -> (same: bool) {
        self.path == other.path && self.name == other.name
    }
}

impl Eq for LocalSource {

}

impl vstd::std_specs::cmp::PartialEqSpecImpl for LocalSource {
    open spec fn obeys_eq_spec() -> bool {
        true
    }

    open spec fn eq_spec(&self, other: &Self) -> bool {
        self@ == other@
    }
}

impl PartialEq for RemoteSource {
    fn eq(&self, other: &Self) -> (same: bool) {
        self.url == other.url && self.tag == other.tag && self.path == other.path && self.name
            == other.name
    }
}

impl Eq for RemoteSource {

}

impl vstd::std_specs::cmp::PartialEqSpecImpl for RemoteSource {
    open spec fn obeys_eq_spec() -> bool {
        true
    }

    open spec fn eq_spec(&self, other: &Self) -> bool {
        self@ == other@
    }
}

impl PartialEq for Source {
    fn eq(&self, other: &Self) -> (same: bool) {
        match (self, other) {
            (Source::Local(a), Source::Local(b)) => *a == *b,
            (Source::Remote(a), Source::Remote(b)) => *a == *b,
            _ => false,
        }
    }
}

impl Eq for Source {

}

impl vstd::std_specs::cmp::PartialEqSpecImpl for Source {
    open spec fn obeys_eq_spec() -> bool {
        true
    }

    open spec fn eq_spec(&self, other: &Self) -> bool {
        self@ == other@
    }
}

/// A source has the name that the configuration gives it, wherever it comes from.
pub proof fn law_sources_are_named_by_the_configuration(
    local: LocalSourceView,
    remote: RemoteSourceView,
)
    ensures
        SourceView::Local(local).name() == local.name,
        SourceView::Remote(remote).name() == remote.name,
{
}

/// What the configuration says is what is in it: every source, template and target,
/// in order, each with all that is said of it.
pub proof fn law_configuration_says_what_is_in_it(config: Config, i: int)
    ensures
        config@.sources.len() == config.sources@.len(),
        config@.templates.len() == config.templates@.len(),
        config@.targets.len() == config.targets@.len(),
        0 <= i < config.sources@.len() ==> match config.sources@[i] {
            Source::Local(source) => config@.sources[i] == SourceView::Local(
                LocalSourceView { path: source.path@, name: source.name@ },
            ),
            Source::Remote(source) => config@.sources[i] == SourceView::Remote(
                RemoteSourceView {
                    url: source.url@,
                    tag: source.tag@,
                    path: source.path@,
                    name: source.name@,
                },
            ),
        },
        0 <= i < config.templates@.len() ==> config@.templates[i] == (TemplateView {
            in_path: config.templates@[i].in_path.bytes@,
            out_path: config.templates@[i].out_path.bytes@,
        }),
        0 <= i < config.targets@.len() ==> {
            let target = config.targets@[i];
            &&& config@.targets[i].out_path == target.out_path.bytes@
            &&& config@.targets[i].out_gen_path == target.out_gen_path.bytes@
            &&& config@.targets[i].sources.len() == target.sources@.len()
            &&& forall|k: int|
                0 <= k < target.sources@.len() ==> config@.targets[i].sources[k]
                    == #[trigger] target.sources@[k]@
        },
{
    if 0 <= i < config.targets@.len() {
        let target = config.targets@[i];
        assert(config@.targets[i] == target@);
    }
}

} // verus!
