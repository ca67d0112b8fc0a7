//! Paths that name the home directory or environment variables.
use vstd::prelude::*;

verus! {

/// What the library is told of the environment it runs in: the home directory
/// and the variables that are set, each with its value.
#[derive(Debug)]
pub struct Environment {
    pub home: Option<String>,
    pub vars: Vec<(String, String)>,
}

/// What an environment says.
pub struct EnvironmentView {
    pub home: Option<Seq<char>>,
    pub vars: Seq<(Seq<char>, Seq<char>)>,
}

impl View for Environment {
    type V = EnvironmentView;

    open spec fn view(&self) -> EnvironmentView {
        EnvironmentView { home: opt_text(self.home), vars: var_views(self.vars@) }
    }
}

/// The text that may be there.
pub open spec fn opt_text(text: Option<String>) -> Option<Seq<char>> {
    match text {
        Some(text) => Some(text@),
        None => None,
    }
}

/// The names and the values of variables.
pub open spec fn var_views(vars: Seq<(String, String)>) -> Seq<(Seq<char>, Seq<char>)> {
    vars.map_values(|var: (String, String)| (var.0@, var.1@))
}

/// Whether a character may stand in the name of a variable.
pub open spec fn is_name_char(c: char) -> bool {
    ('a' <= c && c <= 'z') || ('A' <= c && c <= 'Z') || ('0' <= c && c <= '9') || c == '_'
}

/// How many characters at the start of a text may stand in a name.
pub open spec fn name_len(text: Seq<char>) -> nat
    decreases text.len(),
{
    if text.len() > 0 && is_name_char(text[0]) {
        1 + name_len(text.skip(1))
    } else {
        0
    }
}

/// The value of the first variable that has the name.
pub open spec fn value_of(vars: Seq<(Seq<char>, Seq<char>)>, name: Seq<char>) -> Option<Seq<char>>
    decreases vars.len(),
{
    if vars.len() == 0 {
        None
    } else if vars[0].0 == name {
        Some(vars[0].1)
    } else {
        value_of(vars.skip(1), name)
    }
}

proof fn lemma_name_stays_inside(text: Seq<char>)
    ensures
        name_len(text) <= text.len(),
    decreases text.len(),
{
    if text.len() > 0 && is_name_char(text[0]) {
        lemma_name_stays_inside(text.skip(1));
    }
}

/// What stands for a `$` and the name that follows it: the variable's value, or the
/// reference as it is written where no name follows or no such variable is set.
pub open spec fn reference(vars: Seq<(Seq<char>, Seq<char>)>, name: Seq<char>) -> Seq<char> {
    match value_of(vars, name) {
        Some(value) if name.len() > 0 => value,
        _ => seq!['$'] + name,
    }
}

/// The text with the values of the variables in the place of the references to
/// them. The name in a reference is as long as it can be.
pub open spec fn with_vars(text: Seq<char>, vars: Seq<(Seq<char>, Seq<char>)>) -> Seq<char>
    decreases text.len(),
    via with_vars_goes_on
{
    if text.len() == 0 {
        Seq::empty()
    } else if text[0] == '$' {
        let n = name_len(text.skip(1));
        reference(vars, text.skip(1).take(n as int)) + with_vars(text.skip(1 + n as int), vars)
    } else {
        seq![text[0]] + with_vars(text.skip(1), vars)
    }
}

#[via_fn]
proof fn with_vars_goes_on(text: Seq<char>, vars: Seq<(Seq<char>, Seq<char>)>) {
    lemma_name_stays_inside(text.skip(1));
}

/// Whether a path is written as one in the home directory.
pub open spec fn starts_at_home(path: Seq<char>) -> bool {
    path.len() >= 2 && path[0] == '~' && path[1] == '/'
}

/// The path with the values of the variables in the place of the references to
/// them, and with the home directory in the place of a leading `~`, where the path
/// is written that way and the home directory is known. What was put in place is
/// not looked at again.
pub open spec fn expanded(
    path: Seq<char>,
    home: Option<Seq<char>>,
    vars: Seq<(Seq<char>, Seq<char>)>,
) -> Seq<char> {
    match home {
        Some(home) if starts_at_home(path) => home + with_vars(path.skip(1), vars),
        _ => with_vars(path, vars),
    }
}

/// The place after the name that starts at a place of the text.
fn name_end(text: &str, from: usize) -> (end: usize)
    requires
        from <= text@.len(),
        text@.len() <= usize::MAX,
    ensures
        from <= end <= text@.len(),
        end - from == name_len(text@.skip(from as int)),
{
    let n: usize = text.unicode_len();
    let mut end: usize = from;
    while end < n
        invariant
            from <= end <= n,
            n == text@.len(),
            name_len(text@.skip(from as int)) == end - from + name_len(text@.skip(end as int)),
        ensures
            from <= end <= n,
            name_len(text@.skip(from as int)) == end - from,
        decreases n - end,
    {
        let c = text.get_char(end);
        if !(('a' <= c && c <= 'z') || ('A' <= c && c <= 'Z') || ('0' <= c && c <= '9') || c
            == '_') {
            break ;
        }
        assert(text@.skip(end as int).skip(1) =~= text@.skip(end + 1));
        end = end + 1;
    }
    end
}

/// What stands for a `$` and the name that follows it.
fn resolve(name: &str, vars: &Vec<(String, String)>) -> (text: String)
    ensures
        text@ == reference(var_views(vars@), name@),
{
    let ghost views = var_views(vars@);
    if name.unicode_len() > 0 {
        let wanted: String = name.to_owned();
        let mut i: usize = 0;
        assert(views.skip(0) =~= views);
        while i < vars.len()
            invariant
                0 <= i <= vars.len(),
                wanted@ == name@,
                name@.len() > 0,
                views == var_views(vars@),
                value_of(views, name@) == value_of(views.skip(i as int), name@),
            decreases vars.len() - i,
        {
            assert(views.skip(i as int)[0] == views[i as int]);
            assert(views.skip(i as int).skip(1) =~= views.skip(i + 1));
            if vars[i].0 == wanted {
                return vars[i].1.clone();
            }
            i = i + 1;
        }
        assert(value_of(views, name@) is None);
    }
    let mut text: String = "$".to_owned();
    proof {
        reveal_strlit("$");
        assert("$"@ =~= seq!['$']);
    }
    text.append(name);
    text
}

/// The path with the values of the variables in the place of the references to
/// them, and the home directory in the place of a leading `~`.
pub fn expand_path(path: &str, home: &Option<String>, vars: &Vec<(String, String)>) -> (full:
    String)
    ensures
        full@ == expanded(path@, opt_text(*home), var_views(vars@)),
{
    let n: usize = path.unicode_len();
    let mut full: String = String::new();
    let mut at: usize = 0;
    if n >= 2 && path.get_char(0) == '~' && path.get_char(1) == '/' {
        if let Some(home) = home {
            full = home.clone();
            at = 1;
        }
    }
    let ghost views = var_views(vars@);
    let ghost goal = expanded(path@, opt_text(*home), views);
    proof {
        assert(path@.skip(0) =~= path@);
        assert(full@ + with_vars(path@.skip(at as int), views) =~= goal);
    }
    while at < n
        invariant
            0 <= at <= n,
            n == path@.len(),
            views == var_views(vars@),
            full@ + with_vars(path@.skip(at as int), views) == goal,
        decreases n - at,
    {
        let ghost before = full@;
        let ghost left = path@.skip(at as int);
        if path.get_char(at) == '$' {
            let end: usize = name_end(path, at + 1);
            let name = path.substring_char(at + 1, end);
            let text = resolve(name, vars);
            full.append(text.as_str());
            proof {
                assert(left.skip(1) =~= path@.skip(at + 1));
                assert(left.skip(1).take(end - (at + 1)) =~= name@);
                assert(left.skip(end - at) =~= path@.skip(end as int));
                assert(full@ + with_vars(path@.skip(end as int), views) =~= goal);
            }
            at = end;
        } else {
            full.append(path.substring_char(at, at + 1));
            proof {
                assert(left.skip(1) =~= path@.skip(at + 1));
                assert(full@ =~= before.push(left[0]));
                assert(full@ + with_vars(path@.skip(at + 1), views) =~= goal);
            }
            at = at + 1;
        }
    }
    assert(with_vars(path@.skip(at as int), views) =~= Seq::empty());
    full
}

/// Whether every `$` of a text starts a reference to a variable that is set.
pub open spec fn all_set(text: Seq<char>, vars: Seq<(Seq<char>, Seq<char>)>) -> bool
    decreases text.len(),
    via all_set_goes_on
{
    if text.len() == 0 {
        true
    } else if text[0] == '$' {
        let n = name_len(text.skip(1));
        n > 0 && value_of(vars, text.skip(1).take(n as int)) is Some && all_set(
            text.skip(1 + n as int),
            vars,
        )
    } else {
        all_set(text.skip(1), vars)
    }
}

#[via_fn]
proof fn all_set_goes_on(text: Seq<char>, vars: Seq<(Seq<char>, Seq<char>)>) {
    lemma_name_stays_inside(text.skip(1));
}

/// Whether no value holds a `$`.
pub open spec fn values_are_plain(vars: Seq<(Seq<char>, Seq<char>)>) -> bool {
    forall|i: int| 0 <= i < vars.len() ==> !(#[trigger] vars[i]).1.contains('$')
}

proof fn lemma_values_are_plain(vars: Seq<(Seq<char>, Seq<char>)>, name: Seq<char>)
    requires
        values_are_plain(vars),
    ensures
        value_of(vars, name) matches Some(value) ==> !value.contains('$'),
    decreases vars.len(),
{
    if vars.len() > 0 && vars[0].0 != name {
        assert(forall|i: int| 0 <= i < vars.skip(1).len() ==> vars.skip(1)[i] == vars[i + 1]);
        lemma_values_are_plain(vars.skip(1), name);
    }
}

proof fn lemma_no_reference_is_left(text: Seq<char>, vars: Seq<(Seq<char>, Seq<char>)>)
    requires
        all_set(text, vars),
        values_are_plain(vars),
    ensures
        !with_vars(text, vars).contains('$'),
    decreases text.len(),
{
    if text.len() > 0 {
        if text[0] == '$' {
            let n = name_len(text.skip(1));
            lemma_name_stays_inside(text.skip(1));
            lemma_no_reference_is_left(text.skip(1 + n as int), vars);
            lemma_values_are_plain(vars, text.skip(1).take(n as int));
            assert(text.skip(1).take(n as int).len() == n);
        } else {
            lemma_no_reference_is_left(text.skip(1), vars);
        }
    }
}

/// A text without a `$` stays as it is, whatever variables are set.
pub proof fn law_plain_text_stays(text: Seq<char>, vars: Seq<(Seq<char>, Seq<char>)>)
    requires
        !text.contains('$'),
    ensures
        with_vars(text, vars) == text,
    decreases text.len(),
{
    if text.len() > 0 {
        assert(text[0] != '$');
        assert forall|i: int| 0 <= i < text.skip(1).len() implies text.skip(1)[i] != '$' by {
            assert(text.skip(1)[i] == text[i + 1]);
        }
        law_plain_text_stays(text.skip(1), vars);
    }
    assert(with_vars(text, vars) =~= text);
}

/// A path without a `$` that is not written as one in the home directory stays as
/// it is.
pub proof fn law_plain_path_stays(
    path: Seq<char>,
    home: Option<Seq<char>>,
    vars: Seq<(Seq<char>, Seq<char>)>,
)
    requires
        !path.contains('$'),
        !starts_at_home(path),
    ensures
        expanded(path, home, vars) == path,
{
    law_plain_text_stays(path, vars);
}

/// A reference to a variable that is set gives its value, and what follows the name
/// is expanded on its own.
pub proof fn law_reference_gives_the_value(
    name: Seq<char>,
    rest: Seq<char>,
    home: Option<Seq<char>>,
    vars: Seq<(Seq<char>, Seq<char>)>,
)
    requires
        name.len() > 0,
        forall|i: int| 0 <= i < name.len() ==> is_name_char(#[trigger] name[i]),
        rest.len() > 0 ==> !is_name_char(rest[0]),
        value_of(vars, name) is Some,
    ensures
        expanded(seq!['$'] + name + rest, home, vars) == value_of(vars, name)->0 + with_vars(
            rest,
            vars,
        ),
{
    let path = seq!['$'] + name + rest;
    lemma_name_of(name, rest);
    assert(path.skip(1) =~= name + rest);
    assert((name + rest).take(name.len() as int) =~= name);
    assert(path.skip(1 + name.len() as int) =~= rest);
}

proof fn lemma_name_of(name: Seq<char>, rest: Seq<char>)
    requires
        forall|i: int| 0 <= i < name.len() ==> is_name_char(#[trigger] name[i]),
        rest.len() > 0 ==> !is_name_char(rest[0]),
    ensures
        name_len(name + rest) == name.len(),
    decreases name.len(),
{
    if name.len() > 0 {
        assert forall|i: int| 0 <= i < name.skip(1).len() implies is_name_char(
            #[trigger] name.skip(1)[i],
        ) by {
            assert(name.skip(1)[i] == name[i + 1]);
        }
        lemma_name_of(name.skip(1), rest);
        assert((name + rest).skip(1) =~= name.skip(1) + rest);
        assert((name + rest)[0] == name[0]);
    } else {
        assert(name + rest =~= rest);
    }
}

/// Expanding a path that was expanded changes nothing more, where every reference
/// in the path is to a variable that is set, and no reference and no leading `~`
/// comes from the home directory or the values.
pub proof fn law_expanding_twice(
    path: Seq<char>,
    home: Option<Seq<char>>,
    vars: Seq<(Seq<char>, Seq<char>)>,
)
    requires
        all_set(path, vars),
        values_are_plain(vars),
        starts_at_home(with_vars(path, vars)) ==> starts_at_home(path),
        home matches Some(home) ==> !home.contains('$') && !starts_at_home(home),
    ensures
        expanded(expanded(path, home, vars), home, vars) == expanded(path, home, vars),
{
    let full = expanded(path, home, vars);
    lemma_no_reference_is_left(path, vars);
    match home {
        Some(home) if starts_at_home(path) => {
            let rest = with_vars(path.skip(1), vars);
            lemma_no_reference_is_left(path.skip(1), vars);
            assert(rest[0] == '/');
            assert(full[home.len() as int] == '/');
            assert forall|i: int| 0 <= i < full.len() implies full[i] != '$' by {
                if i < home.len() {
                    assert(full[i] == home[i]);
                } else {
                    assert(full[i] == rest[i - home.len()]);
                }
            }
            law_plain_text_stays(full, vars);
            if starts_at_home(full) {
                assert(home.len() == 1 && home[0] == '~');
                assert(full.skip(1) =~= rest);
                law_plain_text_stays(rest, vars);
            }
        },
        _ => {
            law_plain_text_stays(full, vars);
        },
    }
}

/// A `~` ahead of a separator at the start of a path is the home directory, where
/// that is known, and the rest is expanded as if it stood alone.
pub proof fn law_tilde_is_the_home_directory(
    rest: Seq<char>,
    home: Option<Seq<char>>,
    vars: Seq<(Seq<char>, Seq<char>)>,
)
    ensures
        home matches Some(home) ==> expanded(seq!['~', '/'] + rest, Some(home), vars) == home
            + seq!['/'] + expanded(rest, None, vars),
        home is None ==> expanded(seq!['~', '/'] + rest, home, vars) == seq!['~', '/'] + expanded(
            rest,
            None,
            vars,
        ),
{
    let path = seq!['~', '/'] + rest;
    assert(path.skip(1) =~= seq!['/'] + rest);
    assert((seq!['/'] + rest).skip(1) =~= rest);
    assert(with_vars(seq!['/'] + rest, vars) =~= seq!['/'] + with_vars(rest, vars));
    assert(with_vars(path, vars) =~= seq!['~', '/'] + with_vars(rest, vars));
    if let Some(home) = home {
        assert(home + (seq!['/'] + with_vars(rest, vars)) =~= home + seq!['/'] + with_vars(
            rest,
            vars,
        ));
    }
}

/// Nowhere else does the home directory matter.
pub proof fn law_home_matters_behind_a_tilde_only(
    path: Seq<char>,
    home: Option<Seq<char>>,
    vars: Seq<(Seq<char>, Seq<char>)>,
)
    requires
        path.len() < 2 || path[0] != '~' || path[1] != '/',
    ensures
        expanded(path, home, vars) == expanded(path, None, vars),
{
}

/// What starts no reference stays, and the rest is expanded as if it stood alone; of
/// nothing there comes nothing.
pub proof fn law_plain_characters_stay(
    c: char,
    rest: Seq<char>,
    vars: Seq<(Seq<char>, Seq<char>)>,
)
    requires
        c != '$',
    ensures
        expanded(seq![c] + rest, None, vars) == seq![c] + expanded(rest, None, vars),
        expanded(Seq::empty(), None, vars) == Seq::<char>::empty(),
{
    assert((seq![c] + rest).skip(1) =~= rest);
}

/// A `$` with a name behind it that no variable has stays, name and all, and so does
/// one with no name behind it.
pub proof fn law_unset_reference_stays(
    name: Seq<char>,
    rest: Seq<char>,
    vars: Seq<(Seq<char>, Seq<char>)>,
)
    requires
        forall|i: int| 0 <= i < name.len() ==> is_name_char(#[trigger] name[i]),
        rest.len() > 0 ==> !is_name_char(rest[0]),
        name.len() == 0 || forall|i: int| 0 <= i < vars.len() ==> (#[trigger] vars[i]).0 != name,
    ensures
        expanded(seq!['$'] + name + rest, None, vars) == seq!['$'] + name + expanded(
            rest,
            None,
            vars,
        ),
{
    let path = seq!['$'] + name + rest;
    lemma_name_of(name, rest);
    assert(path.skip(1) =~= name + rest);
    assert((name + rest).take(name.len() as int) =~= name);
    assert(path.skip(1 + name.len() as int) =~= rest);
    if name.len() > 0 {
        lemma_value_is_of_the_first(vars, name);
    }
}

proof fn lemma_value_is_of_the_first(vars: Seq<(Seq<char>, Seq<char>)>, name: Seq<char>)
    ensures
        match value_of(vars, name) {
            Some(value) => exists|i: int|
                {
                    &&& 0 <= i < vars.len()
                    &&& (#[trigger] vars[i]).0 == name
                    &&& vars[i].1 == value
                    &&& forall|j: int| 0 <= j < i ==> (#[trigger] vars[j]).0 != name
                },
            None => forall|i: int| 0 <= i < vars.len() ==> (#[trigger] vars[i]).0 != name,
        },
    decreases vars.len(),
{
    if vars.len() > 0 && vars[0].0 != name {
        let rest = vars.skip(1);
        lemma_value_is_of_the_first(rest, name);
        assert forall|i: int| 0 <= i < rest.len() implies rest[i] == #[trigger] vars[i + 1] by {}
        match value_of(rest, name) {
            Some(value) => {
                let i = choose|i: int|
                    {
                        &&& 0 <= i < rest.len()
                        &&& (#[trigger] rest[i]).0 == name
                        &&& rest[i].1 == value
                        &&& forall|j: int| 0 <= j < i ==> (#[trigger] rest[j]).0 != name
                    };
                assert forall|j: int| 0 <= j < i + 1 implies (#[trigger] vars[j]).0 != name by {
                    if j > 0 {
                        assert(rest[j - 1] == vars[j]);
                    }
                }
                assert(vars[i + 1].0 == name && vars[i + 1].1 == value);
            },
            None => {
                assert forall|i: int| 0 <= i < vars.len() implies (#[trigger] vars[i]).0 != name by {
                    if i > 0 {
                        assert(rest[i - 1] == vars[i]);
                    }
                }
            },
        }
    }
}

/// The value of a variable is the one that stands first, and there is one wherever a
/// variable has the name.
pub proof fn law_first_variable_counts(vars: Seq<(Seq<char>, Seq<char>)>, i: int)
    requires
        0 <= i < vars.len(),
        forall|j: int| 0 <= j < i ==> (#[trigger] vars[j]).0 != vars[i].0,
    ensures
        value_of(vars, vars[i].0) == Some(vars[i].1),
{
    lemma_value_is_of_the_first(vars, vars[i].0);
}

/// A name is made of ASCII letters, digits and underscores.
pub proof fn law_names_are_ascii(c: char)
    ensures
        is_name_char(c) <==> {
            let n = c as u32;
            ||| 48 <= n <= 57
            ||| 65 <= n <= 90
            ||| 97 <= n <= 122
            ||| n == 95
        },
{
}

/// An environment says where the home directory is, and of each variable, in order,
/// what it is called and what its value is.
pub proof fn law_environments_say_what_is_set(env: Environment, i: int)
    ensures
        match env.home {
            Some(home) => env@.home == Some(home@),
            None => env@.home is None,
        },
        env@.vars.len() == env.vars@.len(),
        0 <= i < env.vars@.len() ==> env@.vars[i].0 == env.vars@[i].0@ && env@.vars[i].1
            == env.vars@[i].1@,
{
}

} // verus!
