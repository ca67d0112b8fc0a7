//! Paths in the Unix form: byte strings in which `/` separates names.
//!
//! A path is compared, ordered and cut up by its components, so `a//b`, `a/./b`
//! and `a/b/` are three ways to write one path.
use crate::bytes::{
    bytes_less, bytes_precede, copy_bytes, lemma_lex_irreflexive, lemma_lex_prefix, lemma_lex_skip,
    lemma_lex_total, lemma_lex_transitive, lex_less, same_bytes, strict_total_order,
};
use vstd::prelude::*;

verus! {

/// The byte that separates the names in a path.
pub const SEPARATOR: u8 = 0x2f;

/// The byte `.`.
pub const DOT: u8 = 0x2e;

/// One component of a path, as a mathematical value.
pub enum ComponentView {
    /// The `/` that an absolute path starts with.
    RootDir,
    /// A `.` that the path starts with.
    CurDir,
    /// A `..`.
    ParentDir,
    /// Any other name.
    Normal(Seq<u8>),
}

/// The pieces of `p` between its separators: one more than there are separators.
pub open spec fn segments(p: Seq<u8>) -> Seq<Seq<u8>>
    decreases p.len(),
{
    if p.len() == 0 {
        seq![Seq::<u8>::empty()]
    } else {
        let before = segments(p.drop_last());
        if p.last() == SEPARATOR {
            before.push(Seq::<u8>::empty())
        } else {
            before.drop_last().push(before.last().push(p.last()))
        }
    }
}

/// What a segment contributes to a path: nothing where it is empty or `.`.
pub open spec fn segment_component(s: Seq<u8>) -> Option<ComponentView> {
    if s.len() == 0 || s == seq![DOT] {
        None
    } else if s == seq![DOT, DOT] {
        Some(ComponentView::ParentDir)
    } else {
        Some(ComponentView::Normal(s))
    }
}

/// The contributions of the segments, in order.
pub open spec fn contributions(segs: Seq<Seq<u8>>) -> Seq<ComponentView>
    decreases segs.len(),
{
    if segs.len() == 0 {
        Seq::empty()
    } else {
        let before = contributions(segs.drop_last());
        match segment_component(segs.last()) {
            Some(c) => before.push(c),
            None => before,
        }
    }
}

/// An absolute path starts with a separator.
pub open spec fn is_absolute(p: Seq<u8>) -> bool {
    p.len() > 0 && p[0] == SEPARATOR
}

/// Whether the first segment of `p` is `.`.
pub open spec fn starts_with_dot(p: Seq<u8>) -> bool {
    p.len() > 0 && p[0] == DOT && (p.len() == 1 || p[1] == SEPARATOR)
}

/// The component that stands for how `p` starts, if there is one.
pub open spec fn leading(p: Seq<u8>) -> Seq<ComponentView> {
    if is_absolute(p) {
        seq![ComponentView::RootDir]
    } else if starts_with_dot(p) {
        seq![ComponentView::CurDir]
    } else {
        Seq::empty()
    }
}

/// The names in `p` and its `..`, without what [`leading`] says of its start.
pub open spec fn names(p: Seq<u8>) -> Seq<ComponentView> {
    contributions(segments(p))
}

/// The components of a path.
pub open spec fn components(p: Seq<u8>) -> Seq<ComponentView> {
    leading(p) + names(p)
}

/// Whether two byte strings write the same path.
pub open spec fn same_path(a: Seq<u8>, b: Seq<u8>) -> bool {
    components(a) == components(b)
}

/// `q` seen from `p`: `q` itself where it is absolute, else `q` below `p`.
pub open spec fn join(p: Seq<u8>, q: Seq<u8>) -> Seq<u8> {
    if is_absolute(q) {
        q
    } else if p.len() == 0 || p.last() == SEPARATOR {
        p + q
    } else {
        p.push(SEPARATOR) + q
    }
}

/// How a component is written.
pub open spec fn component_text(c: ComponentView) -> Seq<u8> {
    match c {
        ComponentView::RootDir => seq![SEPARATOR],
        ComponentView::CurDir => seq![DOT],
        ComponentView::ParentDir => seq![DOT, DOT],
        ComponentView::Normal(name) => name,
    }
}

/// The path that joining the components one after the other gives.
pub open spec fn collect(cs: Seq<ComponentView>) -> Seq<u8>
    decreases cs.len(),
{
    if cs.len() == 0 {
        Seq::empty()
    } else {
        join(collect(cs.drop_last()), component_text(cs.last()))
    }
}

/// The path without its first `n` components; the empty path where it has no more.
pub open spec fn skip_components(p: Seq<u8>, n: nat) -> Seq<u8> {
    let cs = components(p);
    collect(if n <= cs.len() { cs.skip(n as int) } else { Seq::empty() })
}

/// The name that a path ends in, unless it ends in a root, a `.` or a `..`.
pub open spec fn file_name(p: Seq<u8>) -> Option<Seq<u8>> {
    let cs = components(p);
    if cs.len() == 0 {
        None
    } else {
        match cs.last() {
            ComponentView::Normal(name) => Some(name),
            _ => None,
        }
    }
}

/// Where the last `.` of a name stands, if it has one.
pub open spec fn last_dot(name: Seq<u8>) -> Option<int>
    decreases name.len(),
{
    if name.len() == 0 {
        None
    } else if name.last() == DOT {
        Some(name.len() - 1)
    } else {
        last_dot(name.drop_last())
    }
}

/// What follows the last `.` of the path's name; none where that `.` is missing
/// or is what the name starts with.
pub open spec fn extension(p: Seq<u8>) -> Option<Seq<u8>> {
    match file_name(p) {
        Some(name) => match last_dot(name) {
            Some(i) => if i == 0 {
                None
            } else {
                Some(name.skip(i + 1))
            },
            None => None,
        },
        None => None,
    }
}

/// A name that can stand between two separators and stay as it is: not empty,
/// not `.`, not `..`, and without a separator.
pub open spec fn is_plain_name(s: Seq<u8>) -> bool {
    &&& segment_component(s) == Some(ComponentView::Normal(s))
    &&& !s.contains(SEPARATOR)
}

/// Where a kind of component stands in the order of components.
pub open spec fn component_rank(c: ComponentView) -> int {
    match c {
        ComponentView::RootDir => 0,
        ComponentView::CurDir => 1,
        ComponentView::ParentDir => 2,
        ComponentView::Normal(_) => 3,
    }
}

/// The order of components: by kind, and names by their bytes.
pub open spec fn component_less(a: ComponentView, b: ComponentView) -> bool {
    match (a, b) {
        (ComponentView::Normal(x), ComponentView::Normal(y)) => bytes_less(x, y),
        _ => component_rank(a) < component_rank(b),
    }
}

/// The order of paths: component by component.
pub open spec fn path_less(a: Seq<u8>, b: Seq<u8>) -> bool {
    lex_less(components(a), components(b), |x: ComponentView, y: ComponentView| component_less(x, y))
}

/// Whether `inner` lies somewhere below `outer`, going by their components.
pub open spec fn is_below(inner: Seq<u8>, outer: Seq<u8>) -> bool {
    &&& components(outer).len() < components(inner).len()
    &&& components(inner).take(components(outer).len() as int) == components(outer)
}

// ---------------------------------------------------------------------------
// How segments and components of a joined path come about
// ---------------------------------------------------------------------------

proof fn lemma_segments_nonempty(p: Seq<u8>)
    ensures
        segments(p).len() > 0,
    decreases p.len(),
{
    if p.len() > 0 {
        lemma_segments_nonempty(p.drop_last());
    }
}

/// A separator parts the segments before it from those after it.
proof fn lemma_segments_split(p: Seq<u8>, q: Seq<u8>)
    ensures
        segments(p.push(SEPARATOR) + q) == segments(p) + segments(q),
    decreases q.len(),
{
    let whole = p.push(SEPARATOR) + q;
    lemma_segments_nonempty(p);
    lemma_segments_nonempty(q);
    if q.len() == 0 {
        assert(whole =~= p.push(SEPARATOR));
        assert(whole.drop_last() =~= p);
        assert(segments(whole) =~= segments(p) + segments(q));
    } else {
        lemma_segments_split(p, q.drop_last());
        lemma_segments_nonempty(q.drop_last());
        assert(whole.drop_last() =~= p.push(SEPARATOR) + q.drop_last());
        assert(whole.last() == q.last());
        assert(segments(whole) =~= segments(p) + segments(q));
    }
}

proof fn lemma_contributions_add(a: Seq<Seq<u8>>, b: Seq<Seq<u8>>)
    ensures
        contributions(a + b) == contributions(a) + contributions(b),
    decreases b.len(),
{
    if b.len() == 0 {
        assert(a + b =~= a);
        assert(contributions(a + b) =~= contributions(a) + contributions(b));
    } else {
        lemma_contributions_add(a, b.drop_last());
        assert((a + b).drop_last() =~= a + b.drop_last());
        assert(contributions(a + b) =~= contributions(a) + contributions(b));
    }
}

/// Where `q` is relative, the joined path has the components of `p` followed by
/// the names of `q`; where `q` is absolute it has those of `q` alone.
pub proof fn lemma_components_of_join(p: Seq<u8>, q: Seq<u8>)
    ensures
        is_absolute(q) ==> components(join(p, q)) == components(q),
        !is_absolute(q) && p.len() == 0 ==> components(join(p, q)) == components(q),
        !is_absolute(q) && p.len() > 0 ==> components(join(p, q)) == components(p) + names(q),
{
    if !is_absolute(q) {
        let whole = join(p, q);
        if p.len() == 0 {
            assert(whole =~= q);
        } else if p.last() == SEPARATOR {
            let stem = p.drop_last();
            assert(p =~= stem.push(SEPARATOR) + Seq::<u8>::empty());
            lemma_segments_split(stem, Seq::empty());
            assert(whole =~= stem.push(SEPARATOR) + q);
            lemma_segments_split(stem, q);
            lemma_contributions_add(segments(stem), segments(q));
            lemma_contributions_add(segments(stem), segments(Seq::<u8>::empty()));
            reveal_with_fuel(contributions, 2);
            assert(segments(Seq::<u8>::empty()).drop_last() =~= Seq::<Seq<u8>>::empty());
            assert(names(Seq::<u8>::empty()) =~= Seq::<ComponentView>::empty());
            assert(names(p) =~= contributions(segments(stem)));
            assert(leading(whole) == leading(p));
            assert(components(whole) =~= components(p) + names(q));
        } else {
            lemma_segments_split(p, q);
            lemma_contributions_add(segments(p), segments(q));
            assert(leading(whole) == leading(p));
            assert(components(whole) =~= components(p) + names(q));
        }
    }
}

proof fn lemma_segments_of_unseparated(s: Seq<u8>)
    requires
        !s.contains(SEPARATOR),
    ensures
        segments(s) == seq![s],
    decreases s.len(),
{
    if s.len() > 0 {
        assert(forall|b: u8| s.drop_last().contains(b) ==> s.contains(b));
        lemma_segments_of_unseparated(s.drop_last());
        assert(s.contains(s.last()));
        assert(s.drop_last().push(s.last()) =~= s);
        assert(segments(s) =~= seq![s]);
    } else {
        assert(s =~= Seq::<u8>::empty());
    }
}

/// A plain name is a path of one component.
pub proof fn lemma_components_of_plain_name(s: Seq<u8>)
    requires
        is_plain_name(s),
    ensures
        !is_absolute(s),
        names(s) == seq![ComponentView::Normal(s)],
        components(s) == seq![ComponentView::Normal(s)],
{
    lemma_segments_of_unseparated(s);
    reveal_with_fuel(contributions, 2);
    assert(segments(s).drop_last() =~= Seq::<Seq<u8>>::empty());
    assert(names(s) =~= seq![ComponentView::Normal(s)]);
    if s.len() > 1 {
        assert(s.contains(s[1]));
    }
    if s.len() > 0 {
        assert(s.contains(s[0]));
    }
    assert(s.len() == 1 && s[0] == DOT ==> s =~= seq![DOT]);
    assert(components(s) =~= seq![ComponentView::Normal(s)]);
}

/// Joining a plain name adds it as the last component, and the path is then
/// named by it.
pub proof fn lemma_join_plain_name(p: Seq<u8>, name: Seq<u8>)
    requires
        is_plain_name(name),
    ensures
        components(join(p, name)) == components(p).push(ComponentView::Normal(name)),
        file_name(join(p, name)) == Some(name),
{
    lemma_components_of_plain_name(name);
    lemma_components_of_join(p, name);
    if p.len() == 0 {
        reveal_with_fuel(contributions, 2);
        assert(segments(p).drop_last() =~= Seq::<Seq<u8>>::empty());
        assert(components(p) =~= Seq::<ComponentView>::empty());
    }
    assert(components(join(p, name)) =~= components(p).push(ComponentView::Normal(name)));
}

// ---------------------------------------------------------------------------
// The order of paths
// ---------------------------------------------------------------------------

proof fn lemma_bytes_order()
    ensures
        strict_total_order(|x: Seq<u8>, y: Seq<u8>| bytes_less(x, y)),
{
    let byte = |x: u8, y: u8| x < y;
    assert(strict_total_order(byte));
    assert forall|x: Seq<u8>| !bytes_less(x, x) by {
        lemma_lex_irreflexive(x, byte);
    }
    assert forall|x: Seq<u8>, y: Seq<u8>, z: Seq<u8>|
        bytes_less(x, y) && bytes_less(y, z) implies bytes_less(x, z) by {
        lemma_lex_transitive(x, y, z, byte);
    }
    assert forall|x: Seq<u8>, y: Seq<u8>| x == y || bytes_less(x, y) || bytes_less(y, x) by {
        lemma_lex_total(x, y, byte);
    }
}

proof fn lemma_component_order()
    ensures
        strict_total_order(|x: ComponentView, y: ComponentView| component_less(x, y)),
{
    lemma_bytes_order();
    let names = |x: Seq<u8>, y: Seq<u8>| bytes_less(x, y);
    assert forall|x: ComponentView| !component_less(x, x) by {
        if let ComponentView::Normal(n) = x {
            assert(!names(n, n));
        }
    }
    assert forall|x: ComponentView, y: ComponentView, z: ComponentView|
        component_less(x, y) && component_less(y, z) implies component_less(x, z) by {
        if let (ComponentView::Normal(a), ComponentView::Normal(b), ComponentView::Normal(c)) = (
            x,
            y,
            z,
        ) {
            assert(names(a, b) && names(b, c));
        }
    }
    assert forall|x: ComponentView, y: ComponentView|
        x == y || component_less(x, y) || component_less(y, x) by {
        if let (ComponentView::Normal(a), ComponentView::Normal(b)) = (x, y) {
            assert(a == b || names(a, b) || names(b, a));
        }
    }
}

/// Paths are ordered strictly, and of two paths that are not the same one comes
/// first.
pub proof fn lemma_path_order(a: Seq<u8>, b: Seq<u8>, c: Seq<u8>)
    ensures
        !path_less(a, a),
        path_less(a, b) && path_less(b, c) ==> path_less(a, c),
        same_path(a, b) || path_less(a, b) || path_less(b, a),
        same_path(a, b) ==> !path_less(a, b) && !path_less(b, a),
{
    lemma_component_order();
    let lt = |x: ComponentView, y: ComponentView| component_less(x, y);
    lemma_lex_irreflexive(components(a), lt);
    lemma_lex_total(components(a), components(b), lt);
    if path_less(a, b) && path_less(b, c) {
        lemma_lex_transitive(components(a), components(b), components(c), lt);
    }
}

/// A directory comes before everything below it.
pub proof fn lemma_below_comes_later(inner: Seq<u8>, outer: Seq<u8>)
    requires
        is_below(inner, outer),
    ensures
        path_less(outer, inner),
        !path_less(inner, outer),
{
    let lt = |x: ComponentView, y: ComponentView| component_less(x, y);
    lemma_lex_prefix(components(outer), components(inner), lt);
    lemma_path_order(outer, inner, outer);
}

// ---------------------------------------------------------------------------
// Paths that code can hold
// ---------------------------------------------------------------------------

/// One component of a path.
#[derive(Debug)]
pub enum Component {
    RootDir,
    CurDir,
    ParentDir,
    Normal(Vec<u8>),
}

impl View for Component {
    type V = ComponentView;

    open spec fn view(&self) -> ComponentView {
        match self {
            Component::RootDir => ComponentView::RootDir,
            Component::CurDir => ComponentView::CurDir,
            Component::ParentDir => ComponentView::ParentDir,
            Component::Normal(name) => ComponentView::Normal(name@),
        }
    }
}

/// The components that a list of them stands for.
pub open spec fn component_views(cs: Seq<Component>) -> Seq<ComponentView> {
    cs.map_values(|c: Component| c@)
}

/// A path.
#[derive(Debug)]
pub struct PathBuf {
    pub bytes: Vec<u8>,
}

impl View for PathBuf {
    type V = Seq<u8>;

    open spec fn view(&self) -> Seq<u8> {
        self.bytes@
    }
}

/// The paths that a list of them stands for.
pub open spec fn path_views(ps: Seq<PathBuf>) -> Seq<Seq<u8>> {
    ps.map_values(|p: PathBuf| p@)
}

/// What a segment contributes to a path.
fn component_of(segment: Vec<u8>) -> (c: Option<Component>)
    ensures
        match c {
            Some(c) => segment_component(segment@) == Some(c@),
            None => segment_component(segment@) is None,
        },
{
    if segment.len() == 0 {
        return None;
    }
    if segment[0] == DOT {
        if segment.len() == 1 {
            assert(segment@ =~= seq![DOT]);
            return None;
        }
        if segment.len() == 2 && segment[1] == DOT {
            assert(segment@ =~= seq![DOT, DOT]);
            return Some(Component::ParentDir);
        }
    }
    Some(Component::Normal(segment))
}

impl PathBuf {
    /// The path that the text writes.
    pub fn from_text(text: &str) -> (p: PathBuf)
        ensures
            p@ == vstd::utf8::encode_utf8(text@),
    {
        PathBuf { bytes: copy_bytes(text.as_bytes()) }
    }

    /// Whether the path starts at the root.
    pub fn is_absolute(&self) -> (absolute: bool)
        ensures
            absolute == is_absolute(self@),
    {
        self.bytes.len() > 0 && self.bytes[0] == SEPARATOR
    }

    /// `other` seen from this path: `other` itself where it is absolute, else
    /// `other` below this path.
    pub fn join(&self, other: &[u8]) -> (joined: PathBuf)
        ensures
            joined@ == join(self@, other@),
    {
        if other.len() > 0 && other[0] == SEPARATOR {
            return PathBuf { bytes: copy_bytes(other) };
        }
        let mut bytes = copy_bytes(self.bytes.as_slice());
        if bytes.len() > 0 && bytes[bytes.len() - 1] != SEPARATOR {
            bytes.push(SEPARATOR);
        }
        let ghost before = bytes@;
        bytes.extend_from_slice(other);
        assert(bytes@ =~= before + other@);
        PathBuf { bytes }
    }

    /// The components of the path.
    pub fn components(&self) -> (cs: Vec<Component>)
        ensures
            component_views(cs@) == components(self@),
    {
        let mut cs: Vec<Component> = Vec::new();
        let n = self.bytes.len();
        if n > 0 && self.bytes[0] == SEPARATOR {
            cs.push(Component::RootDir);
        } else if n > 0 && self.bytes[0] == DOT && (n == 1 || self.bytes[1] == SEPARATOR) {
            cs.push(Component::CurDir);
        }
        assert(component_views(cs@) =~= leading(self@));
        let mut segment: Vec<u8> = Vec::new();
        let mut i: usize = 0;
        proof {
            assert(self@.take(0) =~= Seq::<u8>::empty());
            assert(segments(self@.take(0)).drop_last() =~= Seq::<Seq<u8>>::empty());
            assert(component_views(cs@) =~= leading(self@) + contributions(
                segments(self@.take(0)).drop_last(),
            ));
        }
        while i < n
            invariant
                i <= n,
                n == self@.len(),
                segments(self@.take(i as int)).len() > 0,
                segment@ == segments(self@.take(i as int)).last(),
                component_views(cs@) == leading(self@) + contributions(
                    segments(self@.take(i as int)).drop_last(),
                ),
            decreases n - i,
        {
            let b = self.bytes[i];
            let ghost before = self@.take(i as int);
            let ghost after = self@.take(i + 1);
            assert(after.drop_last() =~= before);
            if b == SEPARATOR {
                let ghost shown = component_views(cs@);
                match component_of(segment) {
                    Some(c) => {
                        cs.push(c);
                        assert(component_views(cs@) =~= shown.push(c@));
                    },
                    None => {},
                }
                segment = Vec::new();
                proof {
                    assert(segments(after).drop_last() =~= segments(before));
                    assert(component_views(cs@) =~= leading(self@) + contributions(
                        segments(before),
                    ));
                }
            } else {
                segment.push(b);
                assert(segments(after).drop_last() =~= segments(before).drop_last());
            }
            i = i + 1;
        }
        assert(self@.take(i as int) =~= self@);
        let ghost shown = component_views(cs@);
        match component_of(segment) {
            Some(c) => {
                cs.push(c);
                assert(component_views(cs@) =~= shown.push(c@));
            },
            None => {},
        }
        assert(component_views(cs@) =~= components(self@));
        cs
    }

    /// How many components the path has.
    pub fn component_count(&self) -> (n: usize)
        ensures
            n == components(self@).len(),
    {
        let cs = self.components();
        cs.len()
    }

    /// The path without its first `n` components.
    pub fn skip_components(&self, n: usize) -> (rest: PathBuf)
        ensures
            rest@ == skip_components(self@, n as nat),
    {
        let cs = self.components();
        let ghost all = components(self@);
        let mut rest = PathBuf { bytes: Vec::new() };
        let mut i: usize = n;
        proof {
            if n <= all.len() {
                assert(all.skip(n as int).take(0) =~= Seq::<ComponentView>::empty());
            }
        }
        while i < cs.len()
            invariant
                n <= i,
                component_views(cs@) == all,
                n <= all.len() ==> i <= all.len(),
                n <= all.len() ==> rest@ == collect(all.skip(n as int).take(i - n)),
                n > all.len() ==> rest@.len() == 0,
            decreases cs.len() - i,
        {
            let ghost taken = all.skip(n as int).take(i + 1 - n);
            assert(component_views(cs@)[i as int] == cs@[i as int]@);
            rest = match &cs[i] {
                Component::RootDir => rest.join(&[SEPARATOR]),
                Component::CurDir => rest.join(&[DOT]),
                Component::ParentDir => rest.join(&[DOT, DOT]),
                Component::Normal(name) => rest.join(name.as_slice()),
            };
            proof {
                assert(taken.drop_last() =~= all.skip(n as int).take(i - n));
                assert(taken.last() == all[i as int]);
            }
            i = i + 1;
        }
        proof {
            if n <= all.len() {
                assert(all.skip(n as int).take(i - n) =~= all.skip(n as int));
            } else {
                assert(rest@ =~= Seq::<u8>::empty());
            }
        }
        rest
    }

    /// The name that the path ends in.
    pub fn file_name(&self) -> (name: Option<Vec<u8>>)
        ensures
            match name {
                Some(name) => file_name(self@) == Some(name@),
                None => file_name(self@) is None,
            },
    {
        let mut cs = self.components();
        let ghost all = cs@;
        match cs.pop() {
            Some(Component::Normal(name)) => {
                assert(component_views(all)[all.len() - 1] == all[all.len() - 1]@);
                Some(name)
            },
            Some(_) => {
                assert(component_views(all)[all.len() - 1] == all[all.len() - 1]@);
                None
            },
            None => None,
        }
    }

    /// What follows the last `.` of the path's name.
    pub fn extension(&self) -> (ext: Option<Vec<u8>>)
        ensures
            match ext {
                Some(ext) => extension(self@) == Some(ext@),
                None => extension(self@) is None,
            },
    {
        let name = match self.file_name() {
            Some(name) => name,
            None => return None,
        };
        let mut i: usize = name.len();
        assert(name@.take(i as int) =~= name@);
        while i > 0
            invariant
                i <= name@.len(),
                last_dot(name@.take(i as int)) == last_dot(name@),
                file_name(self@) == Some(name@),
            decreases i,
        {
            assert(name@.take(i as int).drop_last() =~= name@.take(i - 1));
            i = i - 1;
            if name[i] == DOT {
                assert(last_dot(name@) == Some(i as int));
                if i == 0 {
                    return None;
                }
                let ext = copy_bytes(vstd::slice::slice_subrange(name.as_slice(), i + 1, name.len()));
                assert(ext@ =~= name@.skip(i + 1));
                return Some(ext);
            }
        }
        None
    }
}

/// Whether the two components are the same.
fn same_component(a: &Component, b: &Component) -> (same: bool)
    ensures
        same == (a@ == b@),
{
    match (a, b) {
        (Component::RootDir, Component::RootDir) => true,
        (Component::CurDir, Component::CurDir) => true,
        (Component::ParentDir, Component::ParentDir) => true,
        (Component::Normal(x), Component::Normal(y)) => same_bytes(x.as_slice(), y.as_slice()),
        _ => false,
    }
}

/// Where the kind of the component stands in the order of components.
fn rank(c: &Component) -> (r: u8)
    ensures
        r == component_rank(c@),
{
    match c {
        Component::RootDir => 0,
        Component::CurDir => 1,
        Component::ParentDir => 2,
        Component::Normal(_) => 3,
    }
}

/// Whether `a` comes before `b` in the order of components.
fn component_precedes(a: &Component, b: &Component) -> (less: bool)
    ensures
        less == component_less(a@, b@),
{
    match (a, b) {
        (Component::Normal(x), Component::Normal(y)) => bytes_precede(x.as_slice(), y.as_slice()),
        _ => rank(a) < rank(b),
    }
}

impl PathBuf {
    /// Whether the two write the same path.
    pub fn same(&self, other: &PathBuf) -> (same: bool)
        ensures
            same == same_path(self@, other@),
    {
        let a = self.components();
        let b = other.components();
        let ghost va = component_views(a@);
        let ghost vb = component_views(b@);
        if a.len() != b.len() {
            assert(va.len() != vb.len());
            return false;
        }
        let mut i: usize = 0;
        while i < a.len()
            invariant
                i <= a.len(),
                a.len() == b.len(),
                va == component_views(a@),
                vb == component_views(b@),
                va == components(self@),
                vb == components(other@),
                forall|j: int| 0 <= j < i ==> va[j] == vb[j],
            decreases a.len() - i,
        {
            assert(va[i as int] == a@[i as int]@);
            assert(vb[i as int] == b@[i as int]@);
            if !same_component(&a[i], &b[i]) {
                return false;
            }
            i = i + 1;
        }
        assert(va =~= vb);
        true
    }

    /// Whether this path comes before the other one.
    pub fn precedes(&self, other: &PathBuf) -> (less: bool)
        ensures
            less == path_less(self@, other@),
    {
        let a = self.components();
        let b = other.components();
        let ghost va = component_views(a@);
        let ghost vb = component_views(b@);
        let ghost lt = |x: ComponentView, y: ComponentView| component_less(x, y);
        let mut i: usize = 0;
        while i < a.len() && i < b.len()
            invariant
                i <= a.len(),
                i <= b.len(),
                va == component_views(a@),
                vb == component_views(b@),
                va == components(self@),
                vb == components(other@),
                lt == (|x: ComponentView, y: ComponentView| component_less(x, y)),
                forall|j: int| 0 <= j < i ==> va[j] == vb[j],
            decreases a.len() - i,
        {
            assert(va[i as int] == a@[i as int]@);
            assert(vb[i as int] == b@[i as int]@);
            if !same_component(&a[i], &b[i]) {
                proof {
                    lemma_lex_skip(va, vb, i as int, lt);
                    assert(va.skip(i as int)[0] == va[i as int]);
                    assert(vb.skip(i as int)[0] == vb[i as int]);
                }
                return component_precedes(&a[i], &b[i]);
            }
            i = i + 1;
        }
        proof {
            lemma_lex_skip(va, vb, i as int, lt);
        }
        i < b.len()
    }
}

impl PartialEq for PathBuf {
    fn eq(&self, other: &Self) -> (same: bool) {
        self.same(other)
    }
}

impl Eq for PathBuf {

}

impl vstd::std_specs::cmp::PartialEqSpecImpl for PathBuf {
    open spec fn obeys_eq_spec() -> bool {
        true
    }

    open spec fn eq_spec(&self, other: &Self) -> bool {
        same_path(self@, other@)
    }
}

impl Clone for PathBuf {
    fn clone(&self) -> (copy: Self)
        ensures
            copy@ == self@,
    {
        PathBuf { bytes: copy_bytes(self.bytes.as_slice()) }
    }
}

// ---------------------------------------------------------------------------
// What paths mean
// ---------------------------------------------------------------------------

/// Joining puts the second path behind the first, with one separator between them
/// where the first is not empty and does not end with one. A second path that is
/// absolute takes the place of the first.
pub proof fn law_join_puts_one_behind_the_other(p: Seq<u8>, q: Seq<u8>)
    ensures
        q.len() > 0 && q[0] == 0x2f ==> join(p, q) == q,
        !(q.len() > 0 && q[0] == 0x2f) ==> {
            let whole = join(p, q);
            let gap = whole.len() - p.len() - q.len();
            &&& gap == (if p.len() > 0 && p.last() != 0x2f {
                1int
            } else {
                0int
            })
            &&& whole.take(p.len() as int) == p
            &&& whole.skip(p.len() + gap) == q
            &&& gap == 1 ==> whole[p.len() as int] == 0x2f
        },
{
    let whole = join(p, q);
    if !(q.len() > 0 && q[0] == 0x2f) {
        let gap = whole.len() - p.len() - q.len();
        assert(whole.take(p.len() as int) =~= p);
        assert(whole.skip(p.len() + gap) =~= q);
    }
}

/// What a part of a path between separators adds to what the path goes through: an
/// empty one and `.` add nothing, `..` is the way up, and anything else is a name.
spec fn part_of(s: Seq<u8>) -> Seq<ComponentView> {
    if s =~= Seq::<u8>::empty() || s =~= seq![0x2eu8] {
        Seq::empty()
    } else if s =~= seq![0x2eu8, 0x2eu8] {
        seq![ComponentView::ParentDir]
    } else {
        seq![ComponentView::Normal(s)]
    }
}

proof fn lemma_names_of_part(s: Seq<u8>)
    requires
        !s.contains(0x2f),
    ensures
        names(s) == part_of(s),
{
    lemma_segments_of_unseparated(s);
    reveal_with_fuel(contributions, 2);
    assert(segments(s).drop_last() =~= Seq::<Seq<u8>>::empty());
    if s.len() == 0 {
        assert(s =~= Seq::<u8>::empty());
    }
    assert(names(s) =~= part_of(s));
}

/// A path without a separator is what it says: nothing, the working directory, the
/// way up, or a name.
pub proof fn law_components_of_one_part(s: Seq<u8>)
    requires
        !s.contains(0x2f),
    ensures
        s.len() == 0 ==> components(s) == Seq::<ComponentView>::empty(),
        s == seq![0x2eu8] ==> components(s) == seq![ComponentView::CurDir],
        s == seq![0x2eu8, 0x2eu8] ==> components(s) == seq![ComponentView::ParentDir],
        s.len() > 0 && s != seq![0x2eu8] && s != seq![0x2eu8, 0x2eu8] ==> components(s) == seq![
            ComponentView::Normal(s),
        ],
{
    lemma_names_of_part(s);
    if s.len() > 0 {
        assert(s.contains(s[0]));
    }
    if s.len() > 1 {
        assert(s.contains(s[1]));
    }
    assert(s.len() == 1 && s[0] == DOT ==> s =~= seq![0x2eu8]);
    if s =~= seq![0x2eu8] {
        assert(components(s) =~= seq![ComponentView::CurDir]);
    } else {
        assert(components(s) =~= part_of(s));
    }
    if s.len() == 0 {
        assert(s =~= Seq::<u8>::empty());
    }
}

/// One more part behind a separator goes on from where the path led.
pub proof fn law_components_of_one_more_part(p: Seq<u8>, s: Seq<u8>)
    requires
        p.len() > 0,
        !s.contains(0x2f),
    ensures
        s.len() == 0 || s == seq![0x2eu8] ==> components(p.push(0x2f) + s) == components(p),
        s == seq![0x2eu8, 0x2eu8] ==> components(p.push(0x2f) + s) == components(p).push(
            ComponentView::ParentDir,
        ),
        s.len() > 0 && s != seq![0x2eu8] && s != seq![0x2eu8, 0x2eu8] ==> components(
            p.push(0x2f) + s,
        ) == components(p).push(ComponentView::Normal(s)),
{
    let whole = p.push(SEPARATOR) + s;
    lemma_names_of_part(s);
    lemma_segments_split(p, s);
    lemma_contributions_add(segments(p), segments(s));
    assert(whole[0] == p[0]);
    if p.len() > 1 {
        assert(whole[1] == p[1]);
    }
    assert(leading(whole) == leading(p));
    assert(components(whole) =~= components(p) + part_of(s));
    if s.len() == 0 {
        assert(s =~= Seq::<u8>::empty());
    }
    if part_of(s).len() == 0 {
        assert(components(p) + part_of(s) =~= components(p));
    } else {
        assert(components(p) + part_of(s) =~= components(p).push(part_of(s)[0]));
    }
}

/// A part behind a separator with nothing ahead of it is below the root.
pub proof fn law_components_from_the_root(s: Seq<u8>)
    requires
        !s.contains(0x2f),
    ensures
        s.len() == 0 || s == seq![0x2eu8] ==> components(seq![0x2fu8] + s) == seq![
            ComponentView::RootDir,
        ],
        s == seq![0x2eu8, 0x2eu8] ==> components(seq![0x2fu8] + s) == seq![
            ComponentView::RootDir,
            ComponentView::ParentDir,
        ],
        s.len() > 0 && s != seq![0x2eu8] && s != seq![0x2eu8, 0x2eu8] ==> components(
            seq![0x2fu8] + s,
        ) == seq![ComponentView::RootDir, ComponentView::Normal(s)],
{
    let none = Seq::<u8>::empty();
    let whole = seq![0x2fu8] + s;
    lemma_names_of_part(s);
    lemma_segments_split(none, s);
    assert(none.push(SEPARATOR) + s =~= whole);
    lemma_contributions_add(segments(none), segments(s));
    lemma_names_of_part(none);
    assert(names(none) =~= Seq::<ComponentView>::empty());
    assert(leading(whole) =~= seq![ComponentView::RootDir]);
    assert(components(whole) =~= seq![ComponentView::RootDir] + part_of(s));
    if s.len() == 0 {
        assert(s =~= Seq::<u8>::empty());
    }
    assert(part_of(s).len() == 0 ==> components(whole) =~= seq![ComponentView::RootDir]);
    assert(part_of(s).len() == 1 ==> components(whole) =~= seq![
        ComponentView::RootDir,
        part_of(s)[0],
    ]);
}

/// Two paths are the same where they go through the same, and only there.
pub proof fn law_same_path_is_the_same_way(a: Seq<u8>, b: Seq<u8>)
    ensures
        same_path(a, b) <==> components(a) == components(b),
{
}

/// A name is plain where it is not empty, has no separator, and is neither `.` nor
/// `..`.
pub proof fn law_plain_names(s: Seq<u8>)
    ensures
        is_plain_name(s) <==> s.len() > 0 && !s.contains(0x2f) && !(s =~= seq![0x2eu8]) && !(s
            =~= seq![0x2eu8, 0x2eu8]),
{
}

/// A path has a name where the last thing that it goes through is one.
pub proof fn law_file_name_is_the_last_part(p: Seq<u8>, s: Seq<u8>)
    requires
        !s.contains(0x2f),
    ensures
        is_plain_name(s) ==> file_name(s) == Some(s) && file_name(seq![0x2fu8] + s) == Some(s),
        !is_plain_name(s) ==> file_name(s) is None && file_name(seq![0x2fu8] + s) is None,
        p.len() > 0 ==> file_name(p.push(0x2f) + s) == (if is_plain_name(s) {
            Some(s)
        } else if s =~= seq![0x2eu8, 0x2eu8] {
            None
        } else {
            file_name(p)
        }),
{
    law_components_of_one_part(s);
    law_components_from_the_root(s);
    law_plain_names(s);
    if p.len() > 0 {
        law_components_of_one_more_part(p, s);
    }
}

proof fn lemma_last_dot_of(stem: Seq<u8>, ext: Seq<u8>)
    requires
        !ext.contains(0x2e),
    ensures
        last_dot(stem.push(0x2e) + ext) == Some(stem.len() as int),
    decreases ext.len(),
{
    let whole = stem.push(0x2e) + ext;
    if ext.len() == 0 {
        assert(whole =~= stem.push(0x2e));
    } else {
        assert(whole.drop_last() =~= stem.push(0x2e) + ext.drop_last());
        assert(ext.contains(ext.last()));
        assert forall|b: u8| ext.drop_last().contains(b) implies ext.contains(b) by {
            let i = ext.drop_last().index_of(b);
            assert(ext[i] == b);
        }
        lemma_last_dot_of(stem, ext.drop_last());
    }
}

proof fn lemma_no_last_dot(name: Seq<u8>)
    requires
        !name.contains(0x2e),
    ensures
        last_dot(name) is None,
    decreases name.len(),
{
    if name.len() > 0 {
        assert(name.contains(name.last()));
        assert forall|b: u8| name.drop_last().contains(b) implies name.contains(b) by {
            let i = name.drop_last().index_of(b);
            assert(name[i] == b);
        }
        lemma_no_last_dot(name.drop_last());
    }
}

/// What follows the last dot of a name is its extension, where something stands
/// ahead of that dot.
pub proof fn law_extension_follows_the_last_dot(p: Seq<u8>, stem: Seq<u8>, ext: Seq<u8>)
    requires
        file_name(p) == Some(stem.push(0x2e) + ext),
        !ext.contains(0x2e),
    ensures
        extension(p) == (if stem.len() > 0 {
            Some(ext)
        } else {
            None
        }),
{
    lemma_last_dot_of(stem, ext);
    assert((stem.push(0x2e) + ext).skip(stem.len() as int + 1) =~= ext);
}

/// A path that has no name, or whose name has no dot, has no extension.
pub proof fn law_no_dot_no_extension(p: Seq<u8>)
    requires
        file_name(p) matches Some(name) ==> !name.contains(0x2e),
    ensures
        extension(p) is None,
{
    if let Some(name) = file_name(p) {
        lemma_no_last_dot(name);
    }
}

/// Skipping what a path goes through first leaves a path that goes through the rest.
pub proof fn law_skipping_leaves_the_rest(p: Seq<u8>, n: nat)
    requires
        n <= components(p).len(),
        forall|i: int| n <= i < components(p).len() ==> (#[trigger] components(p)[i] matches
            ComponentView::Normal(name) && is_plain_name(name)),
    ensures
        components(skip_components(p, n)) == components(p).skip(n as int),
{
    let cs = components(p).skip(n as int);
    assert forall|i: int| 0 <= i < cs.len() implies (#[trigger] cs[i] matches ComponentView::Normal(
        name,
    ) && is_plain_name(name)) by {
        assert(cs[i] == components(p)[n + i]);
    }
    lemma_collected(cs);
}

proof fn lemma_collected(cs: Seq<ComponentView>)
    requires
        forall|i: int| 0 <= i < cs.len() ==> (#[trigger] cs[i] matches ComponentView::Normal(name)
            && is_plain_name(name)),
    ensures
        components(collect(cs)) == cs,
    decreases cs.len(),
{
    if cs.len() == 0 {
        law_components_of_one_part(collect(cs));
        assert(components(collect(cs)) =~= cs);
    } else {
        lemma_collected(cs.drop_last());
        assert(cs[cs.len() - 1] is Normal);
        match cs.last() {
            ComponentView::Normal(name) => {
                lemma_join_plain_name(collect(cs.drop_last()), name);
            },
            _ => {},
        }
        assert(components(collect(cs)) =~= cs);
    }
}

/// A path is below another where it goes through all that the other goes through and
/// then further.
pub proof fn law_below_is_further_on(inner: Seq<u8>, outer: Seq<u8>)
    ensures
        is_below(inner, outer) <==> exists|rest: Seq<ComponentView>|
            rest.len() > 0 && components(inner) == #[trigger] (components(outer) + rest),
{
    let a = components(inner);
    let b = components(outer);
    if is_below(inner, outer) {
        let rest = a.skip(b.len() as int);
        assert(b + rest =~= a);
    }
    if exists|rest: Seq<ComponentView>| rest.len() > 0 && a == #[trigger] (b + rest) {
        let rest = choose|rest: Seq<ComponentView>| rest.len() > 0 && a == #[trigger] (b + rest);
        assert((b + rest).take(b.len() as int) =~= b);
    }
}

/// Paths that part ways after the same start come in the order of what they go on
/// with: the end of the path, then the root, the working directory, the way up, and
/// last the names, in the order of their bytes.
pub proof fn law_paths_come_in_the_order_of_their_parts(
    a: Seq<u8>,
    b: Seq<u8>,
    start: Seq<ComponentView>,
    x: Seq<ComponentView>,
    y: Seq<ComponentView>,
)
    requires
        components(a) == start + x,
        components(b) == start + y,
        x.len() > 0 && y.len() > 0 ==> x[0] != y[0],
    ensures
        x.len() == 0 ==> (path_less(a, b) <==> y.len() > 0),
        y.len() == 0 ==> !path_less(a, b),
        x.len() > 0 && y.len() > 0 ==> (path_less(a, b) <==> match (x[0], y[0]) {
            (ComponentView::Normal(m), ComponentView::Normal(n)) => bytes_less(m, n),
            (ComponentView::RootDir, _) => true,
            (_, ComponentView::RootDir) => false,
            (ComponentView::CurDir, _) => true,
            (_, ComponentView::CurDir) => false,
            (ComponentView::ParentDir, _) => true,
            (_, _) => false,
        }),
{
    let lt = |x: ComponentView, y: ComponentView| component_less(x, y);
    lemma_lex_skip(components(a), components(b), start.len() as int, lt);
    assert((start + x).skip(start.len() as int) =~= x);
    assert((start + y).skip(start.len() as int) =~= y);
}

/// An extension stands behind the last dot of the name, with something ahead of it.
pub proof fn lemma_extension_is_of_the_name(p: Seq<u8>)
    ensures
        extension(p) matches Some(ext) ==> exists|stem: Seq<u8>|
            stem.len() > 0 && file_name(p) == Some(#[trigger] stem.push(0x2e) + ext),
{
    if extension(p) is Some {
        let name = file_name(p)->0;
        let i = last_dot(name)->0;
        lemma_last_dot_is_a_dot(name);
        let stem = name.take(i);
        assert(stem.push(0x2e) + name.skip(i + 1) =~= name);
    }
}

proof fn lemma_last_dot_is_a_dot(name: Seq<u8>)
    ensures
        last_dot(name) matches Some(i) ==> 0 <= i < name.len() && name[i] == 0x2e,
    decreases name.len(),
{
    if name.len() > 0 {
        lemma_last_dot_is_a_dot(name.drop_last());
    }
}

} // verus!
