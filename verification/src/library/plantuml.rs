//! PlantUML component diagrams as architecture rules.
//!
//! Components carry their module identifiers as stereotypes (`[Service] <<..service..>>`); an
//! item may only depend on items of its own component or of components its component has an
//! arrow to. Lines are read with the `regex` crate, as the diagram syntax is written there.

use vstd::prelude::*;
use vstd::string::*;

use crate::base::dependency_predicates::{dependency, dependency_origin, dependency_target, DependencyPredicate};
use crate::base::package_matcher::{identifier_problem, problem_of, spec_match, PackageMatcher};
use crate::base::predicates::{
    lemma_has_string_contains, name, reside_in_any_package, reside_outside_of_packages, some_identifier_matches,
    ItemPredicate,
};
use crate::base::regex_match::{
    regex_all_captures, regex_all_captures_of, regex_captures, regex_captures_of, regex_is_match,
    regex_match, regex_split, regex_split_of,
};
use crate::domain::{contains_string, has_string, resolve, Dependency, RustItem, RustItems};
use crate::lang::condition::{
    considered, considered_dependencies, dependency_events, dependency_objects, dependency_sub_events,
    item_described, items_described, lemma_added_one, lemma_considered_described, objects_of, reference_of,
    ArchCondition, ConditionLogic,
};
use crate::lang::events::{
    any_face, is_blank, only_face, single_event, ConditionEvent, ConditionEvents, CorrespondingObject, EventView,
    EventsView, SimpleConditionEvent,
};
use crate::order::{sort_unique, sorted_unique};
use crate::lang::events::is_white;
use crate::library::freeze::properties::{lines, text_lines};
use crate::text::{
    cat, cat3, char_views, join, join_quoted, join_seq, join_single_quoted, str_eq, string_of, trim_chars, trim_str, trimmed,
    views,
};

verus! {

// ---- model ----------------------------------------------------------------------------------

/// Errors while reading a diagram.
#[derive(Debug, Clone, PartialEq, Eq)]
pub enum PlantUmlError {
    /// The diagram could not be read.
    Parse(String),
    /// The diagram is syntactically fine but not usable as an architecture.
    IllegalDiagram(String),
}

/// An error as a mathematical value.
pub enum PlantUmlErrorView {
    /// The diagram could not be read.
    Parse(Seq<char>),
    /// The diagram is not usable as an architecture.
    IllegalDiagram(Seq<char>),
}

impl View for PlantUmlError {
    type V = PlantUmlErrorView;

    open spec fn view(&self) -> PlantUmlErrorView {
        match self {
            PlantUmlError::Parse(m) => PlantUmlErrorView::Parse(m@),
            PlantUmlError::IllegalDiagram(m) => PlantUmlErrorView::IllegalDiagram(m@),
        }
    }
}

/// A component of a diagram.
#[derive(Debug, Clone, PartialEq, Eq)]
pub struct PlantUmlComponent {
    /// The name between `[` and `]`.
    pub name: String,
    /// The stereotypes (`<<..package..>>`), i.e. the module identifiers, each once.
    pub stereotypes: Vec<String>,
    /// The alias (`as alias`).
    pub alias: Option<String>,
}

/// A component as a mathematical value.
pub struct ComponentView {
    /// The name.
    pub name: Seq<char>,
    /// The stereotypes.
    pub stereotypes: Seq<Seq<char>>,
    /// The alias.
    pub alias: Option<Seq<char>>,
}

impl View for PlantUmlComponent {
    type V = ComponentView;

    open spec fn view(&self) -> ComponentView {
        ComponentView { name: self.name@, stereotypes: views(self.stereotypes@), alias: self.alias.deep_view() }
    }
}

/// The views of components.
pub open spec fn component_views(cs: Seq<PlantUmlComponent>) -> Seq<ComponentView> {
    cs.map_values(|c: PlantUmlComponent| c@)
}

/// A parsed diagram: its components and its arrows, as indexes into the components.
#[derive(Debug)]
pub struct PlantUmlDiagram {
    /// The components, each name once.
    pub components: Vec<PlantUmlComponent>,
    /// The arrows `(origin, target)`, each once.
    pub dependencies: Vec<(usize, usize)>,
}

/// A diagram as a mathematical value.
pub struct DiagramView {
    /// The components.
    pub components: Seq<ComponentView>,
    /// The arrows.
    pub dependencies: Seq<(int, int)>,
}

/// The arrows as pairs of integers.
pub open spec fn pair_views(v: Seq<(usize, usize)>) -> Seq<(int, int)> {
    v.map_values(|p: (usize, usize)| (p.0 as int, p.1 as int))
}

impl View for PlantUmlDiagram {
    type V = DiagramView;

    open spec fn view(&self) -> DiagramView {
        DiagramView { components: component_views(self.components@), dependencies: pair_views(self.dependencies@) }
    }
}

/// Every arrow joins two components.
pub open spec fn arrows_wf(components: Seq<ComponentView>, dependencies: Seq<(int, int)>) -> bool {
    forall|j: int| 0 <= j < dependencies.len() ==> {
        let p = #[trigger] dependencies[j];
        0 <= p.0 < components.len() && 0 <= p.1 < components.len()
    }
}

/// No two components have the same name.
pub open spec fn names_distinct(cs: Seq<ComponentView>) -> bool {
    forall|i: int, j: int| 0 <= i < j < cs.len() ==> #[trigger] cs[i].name != #[trigger] cs[j].name
}

impl PlantUmlDiagram {
    /// Every arrow joins two components, and no two components have the same name.
    pub open spec fn wf(&self) -> bool {
        &&& arrows_wf(self@.components, self@.dependencies)
        &&& names_distinct(self@.components)
    }
}

// ---- texts ----------------------------------------------------------------------------------

/// `s` without leading `c`s (`trim_start_matches(c)`).
pub open spec fn drop_leading(s: Seq<char>, c: char) -> Seq<char>
    decreases s.len(),
{
    if s.len() > 0 && s[0] == c { drop_leading(s.drop_first(), c) } else { s }
}

/// `s` without trailing `c`s (`trim_end_matches(c)`).
pub open spec fn drop_trailing(s: Seq<char>, c: char) -> Seq<char>
    decreases s.len(),
{
    if s.len() > 0 && s.last() == c { drop_trailing(s.drop_last(), c) } else { s }
}

/// `s` up to its first `c`, or all of it.
pub open spec fn take_until(s: Seq<char>, c: char) -> Seq<char>
    decreases s.len(),
{
    if s.len() == 0 {
        s
    } else if s[0] == c {
        Seq::empty()
    } else {
        seq![s[0]] + take_until(s.drop_first(), c)
    }
}

/// `s` without leading `c`s and then without trailing `d`s.
fn strip_chars(s: &Vec<char>, c: char, d: char) -> (r: Vec<char>)
    ensures
        r@ == drop_trailing(drop_leading(s@, c), d),
{
    let mut i: usize = 0;
    proof {
        assert(s@.subrange(0, s@.len() as int) =~= s@);
    }
    while i < s.len() && s[i] == c
        invariant
            i <= s@.len(),
            drop_leading(s@, c) == drop_leading(s@.subrange(i as int, s@.len() as int), c),
        decreases s@.len() - i,
    {
        proof {
            let t = s@.subrange(i as int, s@.len() as int);
            assert(t.drop_first() =~= s@.subrange(i + 1, s@.len() as int));
        }
        i += 1;
    }
    let ghost rest = s@.subrange(i as int, s@.len() as int);
    proof {
        if i < s@.len() {
            assert(rest[0] == s@[i as int]);
        }
        assert(drop_leading(rest, c) == rest);
    }
    let mut j: usize = s.len();
    while j > i && s[j - 1] == d
        invariant
            i <= j <= s@.len(),
            rest == s@.subrange(i as int, s@.len() as int),
            drop_trailing(rest, d) == drop_trailing(s@.subrange(i as int, j as int), d),
        decreases j,
    {
        proof {
            let t = s@.subrange(i as int, j as int);
            assert(t.last() == s@[j - 1]);
            assert(t.drop_last() =~= s@.subrange(i as int, j - 1));
        }
        j -= 1;
    }
    let mut r: Vec<char> = Vec::new();
    let mut k: usize = i;
    while k < j
        invariant
            i <= k <= j,
            j <= s@.len(),
            r@ == s@.subrange(i as int, k as int),
        decreases j - k,
    {
        r.push(s[k]);
        proof {
            assert(s@.subrange(i as int, k + 1) =~= s@.subrange(i as int, k as int).push(s@[k as int]));
        }
        k += 1;
    }
    proof {
        let t = s@.subrange(i as int, j as int);
        if j > i {
            assert(t.last() == s@[j - 1]);
        }
        assert(drop_trailing(t, d) == t);
    }
    r
}

/// `s` up to its first `c`, or all of it.
fn chars_until(s: &Vec<char>, c: char) -> (r: Vec<char>)
    ensures
        r@ == take_until(s@, c),
{
    let mut r: Vec<char> = Vec::new();
    let mut i: usize = 0;
    proof {
        assert(s@.subrange(0, s@.len() as int) =~= s@);
        assert(s@.take(0) =~= Seq::<char>::empty());
    }
    while i < s.len() && s[i] != c
        invariant
            i <= s@.len(),
            r@ == s@.take(i as int),
            take_until(s@, c) == s@.take(i as int) + take_until(s@.subrange(i as int, s@.len() as int), c),
        decreases s@.len() - i,
    {
        proof {
            let t = s@.subrange(i as int, s@.len() as int);
            assert(t[0] == s@[i as int]);
            assert(t.drop_first() =~= s@.subrange(i + 1, s@.len() as int));
            assert(s@.take(i + 1) =~= s@.take(i as int) + seq![s@[i as int]]);
        }
        r.push(s[i]);
        i += 1;
    }
    proof {
        let t = s@.subrange(i as int, s@.len() as int);
        if i < s@.len() {
            assert(t[0] == s@[i as int]);
            assert(take_until(t, c) =~= Seq::<char>::empty());
        } else {
            assert(t =~= Seq::<char>::empty());
        }
        assert(take_until(s@, c) =~= s@.take(i as int));
    }
    r
}

// ---- the diagram syntax ---------------------------------------------------------------------

/// Comment lines: `'` after optional white space.
pub open spec fn comment_pattern() -> Seq<char> {
    "^\\s*'"@
}

/// A component line: `[Name] <<..id..>> as alias #color`.
pub open spec fn component_pattern() -> Seq<char> {
    "^\\s*(?:component)?\\s*\\[(?P<componentName>[^\\[\\]]+)\\]\\s*(?:<<[^<>]+>>\\s*)*\\s*(?:as \"?(?P<alias>[^\" ]+)\"?)?\\s*(?:#[\\w|/\\\\-]+)?\\s*$"@
}

/// One stereotype: `<<..id..>>`.
pub open spec fn stereotype_pattern() -> Seq<char> {
    "<<([^<>]+)>>"@
}

/// An arrow pointing right: `-->`, `-left->`, `-[#red]->`.
pub open spec fn right_arrow_pattern() -> Seq<char> {
    "\\s-+(left|right|up|down|\\[[^\\]]+\\])?-*>\\s"@
}

/// An arrow pointing left: `<--`, `<-up-`.
pub open spec fn left_arrow_pattern() -> Seq<char> {
    "\\s<-*(left|right|up|down|\\[[^\\]]+\\])?-+\\s"@
}

fn comment_pattern_str() -> (r: &'static str)
    ensures
        r@ == comment_pattern(),
{
    "^\\s*'"
}

fn component_pattern_str() -> (r: &'static str)
    ensures
        r@ == component_pattern(),
{
    "^\\s*(?:component)?\\s*\\[(?P<componentName>[^\\[\\]]+)\\]\\s*(?:<<[^<>]+>>\\s*)*\\s*(?:as \"?(?P<alias>[^\" ]+)\"?)?\\s*(?:#[\\w|/\\\\-]+)?\\s*$"
}

fn stereotype_pattern_str() -> (r: &'static str)
    ensures
        r@ == stereotype_pattern(),
{
    "<<([^<>]+)>>"
}

fn right_arrow_pattern_str() -> (r: &'static str)
    ensures
        r@ == right_arrow_pattern(),
{
    "\\s-+(left|right|up|down|\\[[^\\]]+\\])?-*>\\s"
}

fn left_arrow_pattern_str() -> (r: &'static str)
    ensures
        r@ == left_arrow_pattern(),
{
    "\\s<-*(left|right|up|down|\\[[^\\]]+\\])?-+\\s"
}

/// Group `i` of a match, `None` where it took no part or does not exist.
pub open spec fn group_of(groups: Seq<Option<Seq<char>>>, i: int) -> Option<Seq<char>> {
    if 0 <= i < groups.len() { groups[i] } else { None }
}

/// The texts of group 1 of each match, where it took part, in order.
pub open spec fn first_groups(matches: Seq<Seq<Option<Seq<char>>>>) -> Seq<Seq<char>>
    decreases matches.len(),
{
    if matches.len() == 0 {
        Seq::empty()
    } else {
        first_groups(matches.drop_last()) + match group_of(matches.last(), 1) {
            Some(t) => seq![t],
            None => Seq::empty(),
        }
    }
}

/// The texts of `s`, each at its first place only.
pub open spec fn distinct_in_order(s: Seq<Seq<char>>) -> Seq<Seq<char>>
    decreases s.len(),
{
    if s.len() == 0 {
        s
    } else {
        let a = distinct_in_order(s.drop_last());
        if a.contains(s.last()) { a } else { a.push(s.last()) }
    }
}

/// An alias may not hold brackets or double quotes.
pub open spec fn bad_alias(alias: Seq<char>) -> bool {
    alias.contains('[') || alias.contains(']') || alias.contains('"')
}

/// The message for an alias with brackets or double quotes.
pub open spec fn alias_message(alias: Seq<char>) -> Seq<char> {
    "Alias '"@ + alias + "' should not contain character(s): '[' or ']' or '\"'"@
}

/// The message for a component without stereotype.
pub open spec fn no_stereotype_message(name: Seq<char>) -> Seq<char> {
    "Components must include at least one stereotype specifying the package identifier(<<..>>), but component '"@
        + name + "' does not"@
}

/// The component a line declares, from the groups of the component pattern's match
/// (`componentName` is group 1, `alias` group 2) and the matches of the stereotype pattern.
pub open spec fn component_of_matches(
    captures: Option<Seq<Option<Seq<char>>>>,
    stereotype_matches: Seq<Seq<Option<Seq<char>>>>,
) -> Result<Option<ComponentView>, PlantUmlErrorView> {
    match captures {
        None => Ok(None),
        Some(groups) => match group_of(groups, 1) {
            None => Ok(None),
            Some(name) => {
                let alias = group_of(groups, 2);
                if alias is Some && bad_alias(alias->0) {
                    Err(PlantUmlErrorView::IllegalDiagram(alias_message(alias->0)))
                } else {
                    let stereotypes = distinct_in_order(first_groups(stereotype_matches));
                    if stereotypes.len() == 0 {
                        Err(PlantUmlErrorView::IllegalDiagram(no_stereotype_message(name)))
                    } else {
                        Ok(Some(ComponentView { name, stereotypes, alias }))
                    }
                }
            },
        },
    }
}

/// The component `line` declares, if any.
pub open spec fn line_component(line: Seq<char>) -> Result<Option<ComponentView>, PlantUmlErrorView> {
    component_of_matches(regex_captures_of(component_pattern(), line), regex_all_captures_of(stereotype_pattern(), line))
}

/// The view of a component result.
pub open spec fn component_result(r: Result<Option<PlantUmlComponent>, PlantUmlError>) -> Result<Option<ComponentView>, PlantUmlErrorView> {
    match r {
        Ok(None) => Ok(None),
        Ok(Some(c)) => Ok(Some(c@)),
        Err(e) => Err(e@),
    }
}

/// The pair an arrow split gives, trimmed; `(after, before)` for an arrow pointing left.
pub open spec fn pair_of_split(split: Option<(Seq<char>, Seq<char>)>, pointing_left: bool) -> Seq<(Seq<char>, Seq<char>)> {
    match split {
        None => Seq::empty(),
        Some((before, after)) => if pointing_left {
            seq![(trimmed(after), trimmed(before))]
        } else {
            seq![(trimmed(before), trimmed(after))]
        },
    }
}

/// The `(origin, target)` pairs of a line from its splits at a right and at a left arrow.
pub open spec fn pairs_of_splits(right: Option<(Seq<char>, Seq<char>)>, left: Option<(Seq<char>, Seq<char>)>) -> Seq<(Seq<char>, Seq<char>)> {
    pair_of_split(right, false) + pair_of_split(left, true)
}

/// The `(origin, target)` names or aliases of the arrows on `line`, the description after
/// `:` left out.
pub open spec fn line_pairs(line: Seq<char>) -> Seq<(Seq<char>, Seq<char>)> {
    let w = take_until(line, ':');
    pairs_of_splits(regex_split_of(right_arrow_pattern(), w), regex_split_of(left_arrow_pattern(), w))
}

/// The first component from `i` on with the alias `key`.
pub open spec fn alias_position(cs: Seq<ComponentView>, key: Seq<char>, i: int) -> Option<int>
    decreases cs.len() - i,
{
    if i < 0 || i >= cs.len() {
        None
    } else if cs[i].alias == Some(key) {
        Some(i)
    } else {
        alias_position(cs, key, i + 1)
    }
}

/// The first component from `i` on with the name `key`.
pub open spec fn name_position(cs: Seq<ComponentView>, key: Seq<char>, i: int) -> Option<int>
    decreases cs.len() - i,
{
    if i < 0 || i >= cs.len() {
        None
    } else if cs[i].name == key {
        Some(i)
    } else {
        name_position(cs, key, i + 1)
    }
}

/// The text an arrow end names a component by: trimmed, without enclosing brackets.
pub open spec fn component_key(s: Seq<char>) -> Seq<char> {
    drop_trailing(drop_leading(trimmed(s), '['), ']')
}

/// The component an arrow end names: the first with that alias, else the first with that name.
pub open spec fn component_named(cs: Seq<ComponentView>, s: Seq<char>) -> Option<int> {
    let key = component_key(s);
    match alias_position(cs, key, 0) {
        Some(i) => Some(i),
        None => name_position(cs, key, 0),
    }
}

/// Lines that are no comments.
pub open spec fn is_comment(line: Seq<char>) -> bool {
    regex_is_match(comment_pattern(), line) == Some(true)
}

/// The lines that are no comments, in order.
pub open spec fn uncommented(lines: Seq<Seq<char>>) -> Seq<Seq<char>>
    decreases lines.len(),
{
    if lines.len() == 0 {
        lines
    } else {
        uncommented(lines.drop_last()) + if is_comment(lines.last()) { Seq::empty() } else { seq![lines.last()] }
    }
}

/// Some component of `cs` has the name.
pub open spec fn named_in(cs: Seq<ComponentView>, name: Seq<char>) -> bool {
    exists|j: int| 0 <= j < cs.len() && #[trigger] cs[j].name == name
}

/// The components `lines` declare, each name once, or the error of the first line in error.
pub open spec fn components_of_lines(lines: Seq<Seq<char>>) -> Result<Seq<ComponentView>, PlantUmlErrorView>
    decreases lines.len(),
{
    if lines.len() == 0 {
        Ok(Seq::empty())
    } else {
        match components_of_lines(lines.drop_last()) {
            Err(e) => Err(e),
            Ok(cs) => match line_component(lines.last()) {
                Err(e) => Err(e),
                Ok(None) => Ok(cs),
                Ok(Some(c)) => if named_in(cs, c.name) { Ok(cs) } else { Ok(cs.push(c)) },
            },
        }
    }
}

/// `deps` with the arrow a pair names, if both ends name components and it is new.
pub open spec fn add_pair(cs: Seq<ComponentView>, deps: Seq<(int, int)>, pair: (Seq<char>, Seq<char>)) -> Seq<(int, int)> {
    match (component_named(cs, pair.0), component_named(cs, pair.1)) {
        (Some(o), Some(t)) => if deps.contains((o, t)) { deps } else { deps.push((o, t)) },
        _ => deps,
    }
}

/// `deps` with the arrows of the pairs, one after the other.
pub open spec fn add_pairs(cs: Seq<ComponentView>, deps: Seq<(int, int)>, pairs: Seq<(Seq<char>, Seq<char>)>) -> Seq<(int, int)>
    decreases pairs.len(),
{
    if pairs.len() == 0 {
        deps
    } else {
        add_pair(cs, add_pairs(cs, deps, pairs.drop_last()), pairs.last())
    }
}

/// The arrows of `lines` between the components `cs`, each once, in order.
pub open spec fn arrows_of_lines(cs: Seq<ComponentView>, lines: Seq<Seq<char>>) -> Seq<(int, int)>
    decreases lines.len(),
{
    if lines.len() == 0 {
        Seq::empty()
    } else {
        add_pairs(cs, arrows_of_lines(cs, lines.drop_last()), line_pairs(lines.last()))
    }
}

/// The diagram `text` describes, or the error of its first illegal component line.
pub open spec fn parsed(text: Seq<char>) -> Result<DiagramView, PlantUmlErrorView> {
    let ls = uncommented(text_lines(text));
    match components_of_lines(ls) {
        Err(e) => Err(e),
        Ok(cs) => Ok(DiagramView { components: cs, dependencies: arrows_of_lines(cs, ls) }),
    }
}

/// The view of a parse result.
pub open spec fn diagram_result(r: Result<PlantUmlDiagram, PlantUmlError>) -> Result<DiagramView, PlantUmlErrorView> {
    match r {
        Ok(d) => Ok(d@),
        Err(e) => Err(e@),
    }
}

// ---- reading a diagram ----------------------------------------------------------------------

/// Group `i` of a match, as an owned text.
fn group_at(groups: &Vec<Option<String>>, i: usize) -> (r: Option<String>)
    ensures
        r.deep_view() == group_of(groups.deep_view(), i as int),
{
    if i < groups.len() {
        match &groups[i] {
            Some(t) => Some(t.clone()),
            None => None,
        }
    } else {
        None
    }
}

/// Whether `s` holds `c`.
fn has_char(s: &str, c: char) -> (r: bool)
    ensures
        r == s@.contains(c),
{
    let v = crate::text::chars_of(s);
    let mut i: usize = 0;
    while i < v.len()
        invariant
            i <= v@.len(),
            v@ == s@,
            forall|j: int| 0 <= j < i ==> v@[j] != c,
        decreases v@.len() - i,
    {
        if v[i] == c {
            return true;
        }
        i += 1;
    }
    false
}

/// The texts of group 1 of the matches, each once, in order.
fn distinct_first_groups(matches: &Vec<Vec<Option<String>>>) -> (r: Vec<String>)
    ensures
        views(r@) == distinct_in_order(first_groups(matches.deep_view())),
{
    let mut r: Vec<String> = Vec::new();
    let mut i: usize = 0;
    proof {
        assert(matches.deep_view().take(0) =~= Seq::<Seq<Option<Seq<char>>>>::empty());
        assert(views(r@) =~= Seq::<Seq<char>>::empty());
    }
    while i < matches.len()
        invariant
            i <= matches@.len(),
            views(r@) == distinct_in_order(first_groups(matches.deep_view().take(i as int))),
        decreases matches@.len() - i,
    {
        let ghost before = matches.deep_view().take(i as int);
        let ghost after = matches.deep_view().take(i + 1);
        proof {
            assert(after.drop_last() =~= before);
            assert(after.last() == matches@[i as int].deep_view());
        }
        let g = group_at(&matches[i], 1);
        match g {
            Some(t) => {
                proof {
                    assert(first_groups(after) =~= first_groups(before).push(t@));
                    assert(first_groups(after).drop_last() =~= first_groups(before));
                    lemma_has_string_contains(r@, t@);
                }
                if !contains_string(&r, t.as_str()) {
                    let ghost old_r = r@;
                    r.push(t);
                    proof {
                        assert(views(r@) =~= views(old_r).push(t@));
                    }
                }
            },
            None => {
                proof {
                    assert(first_groups(after) =~= first_groups(before));
                }
            },
        }
        i += 1;
    }
    proof {
        assert(matches.deep_view().take(matches@.len() as int) =~= matches.deep_view());
    }
    r
}

/// The component declared by a line whose match of the component pattern gave `captures`
/// (`componentName` is group 1, `alias` group 2) and whose matches of the stereotype pattern
/// gave `stereotype_matches`.
pub fn component_from(captures: Option<Vec<Option<String>>>, stereotype_matches: Vec<Vec<Option<String>>>) -> (r: Result<Option<PlantUmlComponent>, PlantUmlError>)
    ensures
        component_result(r) == component_of_matches(captures.deep_view(), stereotype_matches.deep_view()),
{
    let groups = match captures {
        None => {
            return Ok(None);
        },
        Some(g) => g,
    };
    let name = match group_at(&groups, 1) {
        None => {
            return Ok(None);
        },
        Some(n) => n,
    };
    let alias = group_at(&groups, 2);
    match &alias {
        Some(a) => {
            if has_char(a.as_str(), '[') || has_char(a.as_str(), ']') || has_char(a.as_str(), '"') {
                let message = cat3("Alias '", a.as_str(), "' should not contain character(s): '[' or ']' or '\"'");
                return Err(PlantUmlError::IllegalDiagram(message));
            }
        },
        None => {},
    }
    let stereotypes = distinct_first_groups(&stereotype_matches);
    if stereotypes.len() == 0 {
        let message = cat3(
            "Components must include at least one stereotype specifying the package identifier(<<..>>), but component '",
            name.as_str(),
            "' does not",
        );
        return Err(PlantUmlError::IllegalDiagram(message));
    }
    Ok(Some(PlantUmlComponent { name, stereotypes, alias }))
}

/// The component `line` declares, if any.
fn parse_component(line: &str) -> (r: Result<Option<PlantUmlComponent>, PlantUmlError>)
    ensures
        component_result(r) == line_component(line@),
{
    let captures = regex_captures(component_pattern_str(), line);
    let matches = regex_all_captures(stereotype_pattern_str(), line);
    component_from(captures, matches)
}

/// The `(origin, target)` pairs of a line whose text before `:` split at a right arrow gave
/// `right` and at a left arrow gave `left`: the parts trimmed, swapped for the left arrow.
pub fn dependencies_from(right: Option<(String, String)>, left: Option<(String, String)>) -> (r: Vec<(String, String)>)
    ensures
        r.deep_view() == pairs_of_splits(right.deep_view(), left.deep_view()),
{
    let mut r: Vec<(String, String)> = Vec::new();
    match &right {
        Some((before, after)) => {
            r.push((trim_str(before.as_str()), trim_str(after.as_str())));
        },
        None => {},
    }
    let ghost first = r.deep_view();
    proof {
        assert(first =~= pair_of_split(right.deep_view(), false));
    }
    match &left {
        Some((before, after)) => {
            r.push((trim_str(after.as_str()), trim_str(before.as_str())));
        },
        None => {},
    }
    proof {
        assert(r.deep_view() =~= first + pair_of_split(left.deep_view(), true));
    }
    r
}

/// The `(origin, target)` names or aliases of the arrows on `line`.
fn parse_dependencies(line: &str) -> (r: Vec<(String, String)>)
    ensures
        r.deep_view() == line_pairs(line@),
{
    let v = crate::text::chars_of(line);
    let w = string_of(&chars_until(&v, ':'));
    let right = regex_split(right_arrow_pattern_str(), w.as_str());
    let left = regex_split(left_arrow_pattern_str(), w.as_str());
    dependencies_from(right, left)
}

proof fn lemma_alias_position_range(cs: Seq<ComponentView>, key: Seq<char>, i: int)
    ensures
        alias_position(cs, key, i) matches Some(j) ==> i <= j < cs.len() && cs[j].alias == Some(key),
    decreases cs.len() - i,
{
    if 0 <= i < cs.len() && cs[i].alias != Some(key) {
        lemma_alias_position_range(cs, key, i + 1);
    }
}

proof fn lemma_name_position_range(cs: Seq<ComponentView>, key: Seq<char>, i: int)
    ensures
        name_position(cs, key, i) matches Some(j) ==> i <= j < cs.len() && cs[j].name == key,
    decreases cs.len() - i,
{
    if 0 <= i < cs.len() && cs[i].name != key {
        lemma_name_position_range(cs, key, i + 1);
    }
}

/// The component an arrow end names lies in the diagram.
proof fn lemma_component_named_range(cs: Seq<ComponentView>, s: Seq<char>)
    ensures
        component_named(cs, s) matches Some(j) ==> 0 <= j < cs.len(),
{
    lemma_alias_position_range(cs, component_key(s), 0);
    lemma_name_position_range(cs, component_key(s), 0);
}

/// An index as an integer.
pub open spec fn index_view(i: Option<usize>) -> Option<int> {
    match i {
        Some(j) => Some(j as int),
        None => None,
    }
}

/// The component an arrow end `s` names.
fn find_component(cs: &Vec<PlantUmlComponent>, s: &str) -> (r: Option<usize>)
    ensures
        index_view(r) == component_named(component_views(cs@), s@),
{
    let ghost cv = component_views(cs@);
    let v = crate::text::chars_of(s);
    let key = string_of(&strip_chars(&trim_chars(&v), '[', ']'));
    let mut i: usize = 0;
    while i < cs.len()
        invariant
            i <= cs@.len(),
            cv == component_views(cs@),
            key@ == component_key(s@),
            alias_position(cv, key@, 0) == alias_position(cv, key@, i as int),
        decreases cs@.len() - i,
    {
        let hit = match &cs[i].alias {
            Some(a) => str_eq(a.as_str(), key.as_str()),
            None => false,
        };
        proof {
            assert(cv[i as int] == cs@[i as int]@);
        }
        if hit {
            return Some(i);
        }
        i += 1;
    }
    let mut j: usize = 0;
    while j < cs.len()
        invariant
            j <= cs@.len(),
            cv == component_views(cs@),
            key@ == component_key(s@),
            alias_position(cv, key@, 0) is None,
            name_position(cv, key@, 0) == name_position(cv, key@, j as int),
        decreases cs@.len() - j,
    {
        proof {
            assert(cv[j as int] == cs@[j as int]@);
        }
        if str_eq(cs[j].name.as_str(), key.as_str()) {
            return Some(j);
        }
        j += 1;
    }
    None
}

/// Whether some component of `cs` has the name.
fn has_component_named(cs: &Vec<PlantUmlComponent>, name: &str) -> (r: bool)
    ensures
        r == named_in(component_views(cs@), name@),
{
    let ghost cv = component_views(cs@);
    let mut i: usize = 0;
    while i < cs.len()
        invariant
            i <= cs@.len(),
            cv == component_views(cs@),
            forall|j: int| 0 <= j < i ==> cv[j].name != name@,
        decreases cs@.len() - i,
    {
        proof {
            assert(cv[i as int] == cs@[i as int]@);
        }
        if str_eq(cs[i].name.as_str(), name) {
            proof {
                assert(cv[i as int].name == name@);
            }
            return true;
        }
        i += 1;
    }
    false
}

/// Whether the arrow `(o, t)` is among `deps`.
fn has_arrow(deps: &Vec<(usize, usize)>, o: usize, t: usize) -> (r: bool)
    ensures
        r == pair_views(deps@).contains((o as int, t as int)),
{
    let mut i: usize = 0;
    while i < deps.len()
        invariant
            i <= deps@.len(),
            forall|j: int| 0 <= j < i ==> #[trigger] pair_views(deps@)[j] != (o as int, t as int),
        decreases deps@.len() - i,
    {
        if deps[i].0 == o && deps[i].1 == t {
            proof {
                assert(pair_views(deps@)[i as int] == (o as int, t as int));
            }
            return true;
        }
        proof {
            assert(pair_views(deps@)[i as int] == (deps@[i as int].0 as int, deps@[i as int].1 as int));
        }
        i += 1;
    }
    false
}

/// The components read from lines have distinct names.
proof fn lemma_components_distinct(lines: Seq<Seq<char>>)
    requires
        components_of_lines(lines) is Ok,
    ensures
        names_distinct(components_of_lines(lines)->Ok_0),
    decreases lines.len(),
{
    if lines.len() > 0 {
        lemma_components_distinct(lines.drop_last());
        let cs = components_of_lines(lines.drop_last())->Ok_0;
        match line_component(lines.last()) {
            Ok(Some(c)) => {
                if !named_in(cs, c.name) {
                    let ds = cs.push(c);
                    assert forall|i: int, j: int| 0 <= i < j < ds.len() implies #[trigger] ds[i].name != #[trigger] ds[j].name by {
                        if j == cs.len() {
                            assert(ds[i] == cs[i]);
                        } else {
                            assert(ds[i] == cs[i] && ds[j] == cs[j]);
                        }
                    }
                }
            },
            _ => {},
        }
    }
}

proof fn lemma_components_error_stays(lines: Seq<Seq<char>>, i: int)
    requires
        0 <= i <= lines.len(),
        components_of_lines(lines.take(i)) is Err,
    ensures
        components_of_lines(lines) == components_of_lines(lines.take(i)),
    decreases lines.len() - i,
{
    if i < lines.len() {
        assert(lines.take(i + 1).drop_last() =~= lines.take(i));
        lemma_components_error_stays(lines, i + 1);
    } else {
        assert(lines.take(i) =~= lines);
    }
}

impl PlantUmlDiagram {
    /// Parses diagram text: the lines that are no comments, their components (each name once,
    /// in order) and then their arrows between components (each once, in order); the error of
    /// the first illegal component line otherwise.
    pub fn parse(text: &str) -> (r: Result<PlantUmlDiagram, PlantUmlError>)
        ensures
            diagram_result(r) == parsed(text@),
            r matches Ok(d) ==> d.wf(),
    {
        let all = lines(text);
        let ghost all_lines = char_views(all@);
        let mut kept: Vec<String> = Vec::new();
        let mut i: usize = 0;
        proof {
            assert(all_lines.take(0) =~= Seq::<Seq<char>>::empty());
            assert(views(kept@) =~= Seq::<Seq<char>>::empty());
        }
        while i < all.len()
            invariant
                i <= all@.len(),
                all_lines == char_views(all@),
                views(kept@) == uncommented(all_lines.take(i as int)),
            decreases all@.len() - i,
        {
            let line = string_of(&all[i]);
            let comment = match regex_match(comment_pattern_str(), line.as_str()) {
                Some(b) => b,
                None => false,
            };
            let ghost before = views(kept@);
            proof {
                assert(all_lines.take(i + 1).drop_last() =~= all_lines.take(i as int));
                assert(all_lines.take(i + 1).last() == line@);
            }
            if !comment {
                kept.push(line);
                proof {
                    assert(views(kept@) =~= before + seq![all_lines[i as int]]);
                }
            } else {
                proof {
                    assert(views(kept@) =~= before + Seq::<Seq<char>>::empty());
                }
            }
            i += 1;
        }
        let ghost ls = views(kept@);
        proof {
            assert(all_lines.take(all@.len() as int) =~= all_lines);
            assert(all_lines == text_lines(text@));
            assert(ls == uncommented(text_lines(text@)));
            assert(ls.take(0) =~= Seq::<Seq<char>>::empty());
            assert(component_views(Seq::<PlantUmlComponent>::empty()) =~= Seq::<ComponentView>::empty());
        }
        let mut components: Vec<PlantUmlComponent> = Vec::new();
        let mut k: usize = 0;
        while k < kept.len()
            invariant
                k <= kept@.len(),
                ls == views(kept@),
                ls == uncommented(text_lines(text@)),
                components_of_lines(ls.take(k as int)) == Ok::<Seq<ComponentView>, PlantUmlErrorView>(component_views(components@)),
            decreases kept@.len() - k,
        {
            proof {
                assert(ls.take(k + 1).drop_last() =~= ls.take(k as int));
                assert(ls.take(k + 1).last() == kept@[k as int]@);
            }
            match parse_component(kept[k].as_str()) {
                Err(e) => {
                    proof {
                        assert(components_of_lines(ls.take(k + 1)) == Err::<Seq<ComponentView>, PlantUmlErrorView>(e@));
                        lemma_components_error_stays(ls, k + 1);
                    }
                    return Err(e);
                },
                Ok(None) => {},
                Ok(Some(c)) => {
                    if !has_component_named(&components, c.name.as_str()) {
                        let ghost before = components@;
                        components.push(c);
                        proof {
                            assert(component_views(components@) =~= component_views(before).push(c@));
                        }
                    }
                },
            }
            k += 1;
        }
        let ghost cv = component_views(components@);
        proof {
            assert(ls.take(kept@.len() as int) =~= ls);
            lemma_components_distinct(ls);
        }
        let mut deps: Vec<(usize, usize)> = Vec::new();
        let mut m: usize = 0;
        proof {
            assert(pair_views(deps@) =~= Seq::<(int, int)>::empty());
        }
        while m < kept.len()
            invariant
                m <= kept@.len(),
                ls == views(kept@),
                ls == uncommented(text_lines(text@)),
                components_of_lines(ls) == Ok::<Seq<ComponentView>, PlantUmlErrorView>(cv),
                names_distinct(cv),
                cv == component_views(components@),
                pair_views(deps@) == arrows_of_lines(cv, ls.take(m as int)),
                arrows_wf(cv, pair_views(deps@)),
            decreases kept@.len() - m,
        {
            let pairs = parse_dependencies(kept[m].as_str());
            let ghost start = pair_views(deps@);
            let ghost ps = pairs.deep_view();
            let mut n: usize = 0;
            proof {
                assert(ps.take(0) =~= Seq::<(Seq<char>, Seq<char>)>::empty());
            }
            while n < pairs.len()
                invariant
                    n <= pairs@.len(),
                    ps == pairs.deep_view(),
                    cv == component_views(components@),
                    pair_views(deps@) == add_pairs(cv, start, ps.take(n as int)),
                    arrows_wf(cv, pair_views(deps@)),
                decreases pairs@.len() - n,
            {
                let o = find_component(&components, pairs[n].0.as_str());
                let t = find_component(&components, pairs[n].1.as_str());
                let ghost prev = pair_views(deps@);
                proof {
                    assert(ps.take(n + 1).drop_last() =~= ps.take(n as int));
                    assert(ps.take(n + 1).last() == ps[n as int]);
                    assert(ps[n as int] == (pairs@[n as int].0@, pairs@[n as int].1@));
                    lemma_component_named_range(cv, ps[n as int].0);
                    lemma_component_named_range(cv, ps[n as int].1);
                }
                match (o, t) {
                    (Some(a), Some(b)) => {
                        if !has_arrow(&deps, a, b) {
                            deps.push((a, b));
                            proof {
                                assert(pair_views(deps@) =~= prev.push((a as int, b as int)));
                            }
                        }
                    },
                    _ => {},
                }
                n += 1;
            }
            proof {
                assert(ps.take(pairs@.len() as int) =~= ps);
                assert(ls.take(m + 1).drop_last() =~= ls.take(m as int));
                assert(ls.take(m + 1).last() == kept@[m as int]@);
            }
            m += 1;
        }
        proof {
            assert(ls.take(kept@.len() as int) =~= ls);
        }
        Ok(PlantUmlDiagram { components, dependencies: deps })
    }

    /// All components.
    pub fn components(&self) -> (r: &Vec<PlantUmlComponent>)
        ensures
            r@ == self.components@,
    {
        &self.components
    }
}

impl PlantUmlComponent {
    /// The name between `[` and `]`.
    pub fn name(&self) -> (r: &str)
        ensures
            r@ == self.name@,
    {
        self.name.as_str()
    }

    /// The stereotypes, i.e. the module identifiers.
    pub fn stereotypes(&self) -> (r: &Vec<String>)
        ensures
            r@ == self.stereotypes@,
    {
        &self.stereotypes
    }

    /// The alias, if any.
    pub fn alias(&self) -> (r: Option<&str>)
        ensures
            r matches Some(a) ==> self.alias matches Some(b) && a@ == b@,
            r is None <==> self.alias is None,
    {
        match &self.alias {
            Some(a) => Some(a.as_str()),
            None => None,
        }
    }
}

// ---- the diagram's components and arrows ----------------------------------------------------

/// The components with an alias, in order.
pub open spec fn aliased(cs: Seq<PlantUmlComponent>) -> Seq<PlantUmlComponent>
    decreases cs.len(),
{
    if cs.len() == 0 {
        cs
    } else {
        aliased(cs.drop_last()) + if cs.last().alias is Some { seq![cs.last()] } else { Seq::empty() }
    }
}

/// The first component equal to `c`.
pub open spec fn position_of(cs: Seq<ComponentView>, c: ComponentView, i: int) -> Option<int>
    decreases cs.len() - i,
{
    if i < 0 || i >= cs.len() {
        None
    } else if cs[i] == c {
        Some(i)
    } else {
        position_of(cs, c, i + 1)
    }
}

/// The targets of the arrows from `o`, in order.
pub open spec fn targets_of(deps: Seq<(int, int)>, o: int) -> Seq<int>
    decreases deps.len(),
{
    if deps.len() == 0 {
        Seq::empty()
    } else {
        targets_of(deps.drop_last(), o) + if deps.last().0 == o { seq![deps.last().1] } else { Seq::empty() }
    }
}

/// The components the component `c` has arrows to, in order; none if `c` is not in the
/// diagram.
pub open spec fn dependencies_of_component(d: DiagramView, c: ComponentView) -> Seq<ComponentView> {
    match position_of(d.components, c, 0) {
        None => Seq::empty(),
        Some(i) => targets_of(d.dependencies, i).map_values(|t: int| d.components[t]),
    }
}

/// Whether two components are equal.
fn same_component(a: &PlantUmlComponent, b: &PlantUmlComponent) -> (r: bool)
    ensures
        r == (a@ == b@),
{
    if !str_eq(a.name.as_str(), b.name.as_str()) || a.stereotypes.len() != b.stereotypes.len() {
        proof {
            if a@ == b@ {
                assert(views(a.stereotypes@).len() == views(b.stereotypes@).len());
            }
        }
        return false;
    }
    let same_alias = match (&a.alias, &b.alias) {
        (Some(x), Some(y)) => str_eq(x.as_str(), y.as_str()),
        (None, None) => true,
        _ => false,
    };
    if !same_alias {
        return false;
    }
    let mut i: usize = 0;
    while i < a.stereotypes.len()
        invariant
            i <= a.stereotypes@.len(),
            a.stereotypes@.len() == b.stereotypes@.len(),
            forall|j: int| 0 <= j < i ==> a.stereotypes@[j]@ == b.stereotypes@[j]@,
        decreases a.stereotypes@.len() - i,
    {
        if !str_eq(a.stereotypes[i].as_str(), b.stereotypes[i].as_str()) {
            proof {
                if a@ == b@ {
                    assert(views(a.stereotypes@)[i as int] == views(b.stereotypes@)[i as int]);
                }
            }
            return false;
        }
        i += 1;
    }
    proof {
        assert(views(a.stereotypes@) =~= views(b.stereotypes@));
    }
    true
}

/// The first component equal to `c`.
fn component_index(cs: &Vec<PlantUmlComponent>, c: &PlantUmlComponent) -> (r: Option<usize>)
    ensures
        index_view(r) == position_of(component_views(cs@), c@, 0),
{
    let ghost cv = component_views(cs@);
    let mut i: usize = 0;
    while i < cs.len()
        invariant
            i <= cs@.len(),
            cv == component_views(cs@),
            position_of(cv, c@, 0) == position_of(cv, c@, i as int),
        decreases cs@.len() - i,
    {
        proof {
            assert(cv[i as int] == cs@[i as int]@);
        }
        if same_component(&cs[i], c) {
            return Some(i);
        }
        i += 1;
    }
    None
}

impl PlantUmlDiagram {
    /// The components with an alias.
    pub fn components_with_alias(&self) -> (r: Vec<&PlantUmlComponent>)
        ensures
            r@.map_values(|c: &PlantUmlComponent| *c) == aliased(self.components@),
    {
        let mut r: Vec<&PlantUmlComponent> = Vec::new();
        let mut i: usize = 0;
        proof {
            assert(self.components@.take(0) =~= Seq::<PlantUmlComponent>::empty());
            assert(r@.map_values(|c: &PlantUmlComponent| *c) =~= Seq::<PlantUmlComponent>::empty());
        }
        while i < self.components.len()
            invariant
                i <= self.components@.len(),
                r@.map_values(|c: &PlantUmlComponent| *c) == aliased(self.components@.take(i as int)),
            decreases self.components@.len() - i,
        {
            let ghost before = r@.map_values(|c: &PlantUmlComponent| *c);
            proof {
                assert(self.components@.take(i + 1).drop_last() =~= self.components@.take(i as int));
                assert(self.components@.take(i + 1).last() == self.components@[i as int]);
            }
            if self.components[i].alias.is_some() {
                r.push(&self.components[i]);
                proof {
                    assert(r@.map_values(|c: &PlantUmlComponent| *c) =~= before + seq![self.components@[i as int]]);
                }
            } else {
                proof {
                    assert(before =~= before + Seq::<PlantUmlComponent>::empty());
                }
            }
            i += 1;
        }
        proof {
            assert(self.components@.take(self.components@.len() as int) =~= self.components@);
        }
        r
    }

    /// The components `component` has arrows to; none if it is not in the diagram.
    pub fn dependencies_of(&self, component: &PlantUmlComponent) -> (r: Vec<&PlantUmlComponent>)
        requires
            self.wf(),
        ensures
            r@.map_values(|c: &PlantUmlComponent| c@) == dependencies_of_component(self@, component@),
    {
        let ghost cv = self@.components;
        let index = component_index(&self.components, component);
        let mut r: Vec<&PlantUmlComponent> = Vec::new();
        match index {
            None => {
                proof {
                    assert(r@.map_values(|c: &PlantUmlComponent| c@) =~= Seq::<ComponentView>::empty());
                }
                r
            },
            Some(o) => {
                let ghost deps = self@.dependencies;
                let mut k: usize = 0;
                proof {
                    assert(deps.take(0) =~= Seq::<(int, int)>::empty());
                    assert(r@.map_values(|c: &PlantUmlComponent| c@) =~= Seq::<ComponentView>::empty());
                }
                while k < self.dependencies.len()
                    invariant
                        k <= self.dependencies@.len(),
                        self.wf(),
                        deps == self@.dependencies,
                        cv == self@.components,
                        r@.map_values(|c: &PlantUmlComponent| c@) == targets_of(deps.take(k as int), o as int).map_values(|t: int| cv[t]),
                    decreases self.dependencies@.len() - k,
                {
                    let ghost before = targets_of(deps.take(k as int), o as int);
                    proof {
                        assert(deps.take(k + 1).drop_last() =~= deps.take(k as int));
                        assert(deps.take(k + 1).last() == deps[k as int]);
                        assert(deps[k as int] == (self.dependencies@[k as int].0 as int, self.dependencies@[k as int].1 as int));
                    }
                    if self.dependencies[k].0 == o {
                        let t = self.dependencies[k].1;
                        proof {
                            assert(arrows_wf(cv, deps));
                            assert(0 <= deps[k as int].1 < cv.len());
                        }
                        let ghost old_r = r@.map_values(|c: &PlantUmlComponent| c@);
                        r.push(&self.components[t]);
                        proof {
                            assert(targets_of(deps.take(k + 1), o as int) =~= before.push(t as int));
                            assert(cv[t as int] == self.components@[t as int]@);
                            assert(r@.map_values(|c: &PlantUmlComponent| c@) =~= old_r.push(cv[t as int]));
                            assert(before.push(t as int).map_values(|x: int| cv[x]) =~= before.map_values(|x: int| cv[x]).push(cv[t as int]));
                        }
                    } else {
                        proof {
                            assert(targets_of(deps.take(k + 1), o as int) =~= before);
                        }
                    }
                    k += 1;
                }
                proof {
                    assert(deps.take(self.dependencies@.len() as int) =~= deps);
                }
                r
            },
        }
    }
}

// ---- conditions from diagrams ---------------------------------------------------------------

/// The stereotypes of all components, one component after the other.
pub open spec fn all_stereotypes(cs: Seq<ComponentView>) -> Seq<Seq<char>>
    decreases cs.len(),
{
    if cs.len() == 0 {
        Seq::empty()
    } else {
        all_stereotypes(cs.drop_last()) + cs.last().stereotypes
    }
}

/// The first text of `s` that occurred before.
pub open spec fn first_repeated(s: Seq<Seq<char>>) -> Option<Seq<char>>
    decreases s.len(),
{
    if s.len() == 0 {
        None
    } else {
        match first_repeated(s.drop_last()) {
            Some(x) => Some(x),
            None => if s.drop_last().contains(s.last()) { Some(s.last()) } else { None },
        }
    }
}

/// The first text of `s` that is no legal package identifier.
pub open spec fn first_illegal(s: Seq<Seq<char>>) -> Option<Seq<char>>
    decreases s.len(),
{
    if s.len() == 0 {
        None
    } else {
        match first_illegal(s.drop_last()) {
            Some(x) => Some(x),
            None => if identifier_problem(s.last()) is Some { Some(s.last()) } else { None },
        }
    }
}

/// Why a diagram cannot serve as a condition, if it cannot: it has no component, a stereotype
/// occurs twice, or a stereotype is no legal package identifier.
pub open spec fn diagram_problem(name: Seq<char>, d: DiagramView) -> Option<Seq<char>> {
    if d.components.len() == 0 {
        Some("No components defined in diagram <"@ + name + ">"@)
    } else {
        match first_repeated(all_stereotypes(d.components)) {
            Some(s) => Some("Stereotype '"@ + s + "' should be unique"@),
            None => match first_illegal(all_stereotypes(d.components)) {
                Some(s) => identifier_problem(s),
                None => None,
            },
        }
    }
}

/// Some identifier of `ids` matches the module `package`.
pub open spec fn matches_some(ids: Seq<Seq<char>>, package: Seq<char>) -> bool {
    exists|i: int| 0 <= i < ids.len() && spec_match(#[trigger] ids[i], package) is Some
}

proof fn lemma_matches_some_views(ids: Seq<String>, package: Seq<char>)
    ensures
        some_identifier_matches(ids, package) == matches_some(views(ids), package),
{
    if some_identifier_matches(ids, package) {
        let i = choose|i: int| 0 <= i < ids.len() && spec_match(#[trigger] ids[i]@, package) is Some;
        assert(views(ids)[i] == ids[i]@);
    }
    if matches_some(views(ids), package) {
        let i = choose|i: int| 0 <= i < views(ids).len() && spec_match(#[trigger] views(ids)[i], package) is Some;
        assert(views(ids)[i] == ids[i]@);
    }
}

/// Which dependencies the diagram must cover.
#[derive(Debug)]
pub enum Configuration {
    /// Every dependency must be allowed by the diagram.
    AllDependencies,
    /// Only dependencies whose target lies in some component count.
    OnlyDependenciesInDiagram,
    /// Only dependencies whose target resides in one of the packages count.
    OnlyDependenciesInAnyPackage(Vec<String>),
}

impl Configuration {
    /// Every dependency must be allowed by the diagram.
    pub fn considering_all_dependencies() -> (r: Configuration)
        ensures
            r == Configuration::AllDependencies,
    {
        Configuration::AllDependencies
    }

    /// Only dependencies whose target lies in some component count.
    pub fn considering_only_dependencies_in_diagram() -> (r: Configuration)
        ensures
            r == Configuration::OnlyDependenciesInDiagram,
    {
        Configuration::OnlyDependenciesInDiagram
    }

    /// Only dependencies whose target resides in one of the packages count.
    pub fn considering_only_dependencies_in_any_package(package_identifiers: &Vec<String>) -> (r: Configuration)
        ensures
            r matches Configuration::OnlyDependenciesInAnyPackage(ids) && views(ids@) == views(package_identifiers@),
    {
        Configuration::OnlyDependenciesInAnyPackage(crate::text::clone_strings(package_identifiers))
    }
}

/// How the dependencies a configuration ignores read in the condition's description.
pub open spec fn ignore_description(configuration: Configuration) -> Seq<char> {
    match configuration {
        Configuration::AllDependencies => Seq::empty(),
        Configuration::OnlyDependenciesInDiagram => " while ignoring dependencies not contained in the diagram"@,
        Configuration::OnlyDependenciesInAnyPackage(ids) => " while ignoring dependencies outside of packages ["@
            + join_single_quoted(views(ids@)) + "]"@,
    }
}

/// Whether a configuration ignores the dependency `d` for the diagram `diagram`.
pub open spec fn ignored_by(configuration: Configuration, diagram: DiagramView, d: Dependency, items: Seq<RustItem>) -> bool {
    match configuration {
        Configuration::AllDependencies => false,
        Configuration::OnlyDependenciesInDiagram => !matches_some(
            all_stereotypes(diagram.components),
            resolve(items, d.target).package_name,
        ),
        Configuration::OnlyDependenciesInAnyPackage(ids) => !matches_some(views(ids@), resolve(items, d.target).package_name),
    }
}

/// The condition that items adhere to a diagram.
#[derive(Debug)]
pub struct PlantUmlArchCondition {
    /// The description.
    pub description: String,
    /// The dependencies not checked.
    pub ignore: DependencyPredicate,
    /// The diagram.
    pub diagram: PlantUmlDiagram,
}

impl PlantUmlArchCondition {
    /// The diagram and the ignored dependencies are well formed.
    pub open spec fn wf(&self) -> bool {
        self.diagram.wf() && self.ignore.wf()
    }

    /// The condition for the diagram `diagram` named `name`, or why the diagram cannot serve:
    /// it has no component, a stereotype occurs twice, or a stereotype is no legal package
    /// identifier.
    pub fn from_diagram(name: &str, diagram: PlantUmlDiagram, configuration: Configuration) -> (r: Result<PlantUmlArchCondition, PlantUmlError>)
        requires
            diagram.wf(),
        ensures
            match diagram_problem(name@, diagram@) {
                Some(m) => r matches Err(e) && e@ == PlantUmlErrorView::IllegalDiagram(m),
                None => r matches Ok(c) && {
                    &&& c.wf()
                    &&& c.diagram@ == diagram@
                    &&& c.description@ == "adhere to PlantUML diagram <"@ + name@ + ">"@ + ignore_description(configuration)
                    &&& forall|d: Dependency, items: Seq<RustItem>| #[trigger] c.ignore.holds(d, items)
                        == ignored_by(configuration, diagram@, d, items)
                },
            },
    {
        if diagram.components.len() == 0 {
            let message = cat3("No components defined in diagram <", name, ">");
            return Err(PlantUmlError::IllegalDiagram(message));
        }
        let all = stereotypes_of(&diagram.components);
        match repeated_of(&all) {
            Some(s) => {
                let message = cat3("Stereotype '", s.as_str(), "' should be unique");
                return Err(PlantUmlError::IllegalDiagram(message));
            },
            None => {},
        }
        match illegal_of(&all) {
            Some(s) => {
                proof {
                    lemma_first_illegal_problem(all_stereotypes(diagram@.components));
                }
                let message = match problem_of(s.as_str()) {
                    Some(m) => m,
                    None => String::new(),
                };
                return Err(PlantUmlError::IllegalDiagram(message));
            },
            None => {},
        }
        let ignore = ignore_predicate(&configuration, &all);
        let mut description = cat3("adhere to PlantUML diagram <", name, ">");
        description.append(ignore.description.as_str());
        proof {
            assert(diagram@.components == component_views(diagram.components@));
        }
        Ok(PlantUmlArchCondition { description, ignore, diagram })
    }

    /// The description.
    pub fn description(&self) -> (r: &str)
        ensures
            r@ == self.description@,
    {
        self.description.as_str()
    }

    /// Also ignores the dependencies matching `predicate`; the description gets `, ` and the
    /// predicate's description.
    pub fn ignore_dependencies_with(self, predicate: DependencyPredicate) -> (r: PlantUmlArchCondition)
        requires
            self.wf(),
            predicate.wf(),
        ensures
            r.wf(),
            r.diagram@ == self.diagram@,
            r.description@ == self.description@ + ", "@ + predicate.description@,
            forall|d: Dependency, items: Seq<RustItem>| #[trigger] r.ignore.holds(d, items)
                == (self.ignore.holds(d, items) || predicate.holds(d, items)),
    {
        let description = cat3(self.description.as_str(), ", ", predicate.description.as_str());
        PlantUmlArchCondition { description, ignore: self.ignore.or(predicate), diagram: self.diagram }
    }

    /// Also ignores the dependencies whose origin satisfies `predicate`; described as
    /// `ignoring dependencies with origin <predicate>`.
    pub fn ignore_dependencies_with_origin(self, predicate: ItemPredicate) -> (r: PlantUmlArchCondition)
        requires
            self.wf(),
            predicate.wf(),
        ensures
            r.wf(),
            r.diagram@ == self.diagram@,
            r.description@ == self.description@ + ", "@ + "ignoring dependencies with origin "@ + predicate.description@,
            forall|d: Dependency, items: Seq<RustItem>| #[trigger] r.ignore.holds(d, items)
                == (self.ignore.holds(d, items) || predicate.holds(resolve(items, d.origin))),
    {
        let description = cat("ignoring dependencies with origin ", predicate.description.as_str());
        let p = dependency_origin(predicate).as_(description.as_str());
        self.ignore_dependencies_with(p)
    }

    /// Also ignores the dependencies whose target satisfies `predicate`; described as
    /// `ignoring dependencies with target <predicate>`.
    pub fn ignore_dependencies_with_target(self, predicate: ItemPredicate) -> (r: PlantUmlArchCondition)
        requires
            self.wf(),
            predicate.wf(),
        ensures
            r.wf(),
            r.diagram@ == self.diagram@,
            r.description@ == self.description@ + ", "@ + "ignoring dependencies with target "@ + predicate.description@,
            forall|d: Dependency, items: Seq<RustItem>| #[trigger] r.ignore.holds(d, items)
                == (self.ignore.holds(d, items) || predicate.holds(resolve(items, d.target))),
    {
        let description = cat("ignoring dependencies with target ", predicate.description.as_str());
        let p = dependency_target(predicate).as_(description.as_str());
        self.ignore_dependencies_with(p)
    }

    /// Also ignores the dependencies from the item named `origin` to the item named `target`;
    /// described as `ignoring dependencies from <origin> to <target>`.
    pub fn ignore_dependencies(self, origin: &str, target: &str) -> (r: PlantUmlArchCondition)
        requires
            self.wf(),
        ensures
            r.wf(),
            r.diagram@ == self.diagram@,
            r.description@ == self.description@ + ", "@ + "ignoring dependencies from "@ + origin@ + " to "@ + target@,
            forall|d: Dependency, items: Seq<RustItem>| #[trigger] r.ignore.holds(d, items)
                == (self.ignore.holds(d, items) || (resolve(items, d.origin).full_name == origin@
                    && resolve(items, d.target).full_name == target@)),
    {
        let mut description = cat3("ignoring dependencies from ", origin, " to ");
        description.append(target);
        let p = dependency(name(origin), name(target)).as_(description.as_str());
        proof {
            reveal_strlit("ignoring dependencies from ");
            reveal_strlit(" to ");
        }
        self.ignore_dependencies_with(p)
    }
}

/// The stereotypes of all components, one component after the other.
fn stereotypes_of(cs: &Vec<PlantUmlComponent>) -> (r: Vec<String>)
    ensures
        views(r@) == all_stereotypes(component_views(cs@)),
{
    let mut r: Vec<String> = Vec::new();
    let mut i: usize = 0;
    proof {
        assert(component_views(cs@).take(0) =~= Seq::<ComponentView>::empty());
        assert(views(r@) =~= Seq::<Seq<char>>::empty());
    }
    while i < cs.len()
        invariant
            i <= cs@.len(),
            views(r@) == all_stereotypes(component_views(cs@).take(i as int)),
        decreases cs@.len() - i,
    {
        let ghost before = views(r@);
        let mut k: usize = 0;
        while k < cs[i].stereotypes.len()
            invariant
                i < cs@.len(),
                k <= cs@[i as int].stereotypes@.len(),
                views(r@) == before + views(cs@[i as int].stereotypes@).take(k as int),
            decreases cs@[i as int].stereotypes@.len() - k,
        {
            let ghost old_r = r@;
            r.push(cs[i].stereotypes[k].clone());
            proof {
                assert(views(r@) =~= views(old_r).push(cs@[i as int].stereotypes@[k as int]@));
                assert(views(cs@[i as int].stereotypes@).take(k + 1) =~= views(cs@[i as int].stereotypes@).take(k as int).push(cs@[i as int].stereotypes@[k as int]@));
                assert(views(r@) =~= before + views(cs@[i as int].stereotypes@).take(k + 1));
            }
            k += 1;
        }
        proof {
            let cv = component_views(cs@);
            assert(cv.take(i + 1).drop_last() =~= cv.take(i as int));
            assert(cv.take(i + 1).last() == cs@[i as int]@);
            assert(views(cs@[i as int].stereotypes@).take(cs@[i as int].stereotypes@.len() as int) =~= views(cs@[i as int].stereotypes@));
        }
        i += 1;
    }
    proof {
        assert(component_views(cs@).take(cs@.len() as int) =~= component_views(cs@));
    }
    r
}

/// The first text that occurred before, if any.
fn repeated_of(all: &Vec<String>) -> (r: Option<String>)
    ensures
        r.deep_view() == first_repeated(views(all@)),
{
    let ghost s = views(all@);
    let mut seen: Vec<String> = Vec::new();
    let mut i: usize = 0;
    proof {
        assert(s.take(0) =~= Seq::<Seq<char>>::empty());
        assert(views(seen@) =~= s.take(0));
    }
    while i < all.len()
        invariant
            i <= all@.len(),
            s == views(all@),
            views(seen@) == s.take(i as int),
            first_repeated(s.take(i as int)) is None,
        decreases all@.len() - i,
    {
        proof {
            assert(s.take(i + 1).drop_last() =~= s.take(i as int));
            assert(s.take(i + 1).last() == all@[i as int]@);
            lemma_has_string_contains(seen@, all@[i as int]@);
        }
        if contains_string(&seen, all[i].as_str()) {
            proof {
                lemma_repeated_stays(s, i + 1);
            }
            return Some(all[i].clone());
        }
        seen.push(all[i].clone());
        proof {
            assert(views(seen@) =~= s.take(i + 1));
        }
        i += 1;
    }
    proof {
        assert(s.take(all@.len() as int) =~= s);
    }
    None
}

proof fn lemma_repeated_stays(s: Seq<Seq<char>>, i: int)
    requires
        0 <= i <= s.len(),
        first_repeated(s.take(i)) is Some,
    ensures
        first_repeated(s) == first_repeated(s.take(i)),
    decreases s.len() - i,
{
    if i < s.len() {
        assert(s.take(i + 1).drop_last() =~= s.take(i));
        lemma_repeated_stays(s, i + 1);
    } else {
        assert(s.take(i) =~= s);
    }
}

proof fn lemma_illegal_stays(s: Seq<Seq<char>>, i: int)
    requires
        0 <= i <= s.len(),
        first_illegal(s.take(i)) is Some,
    ensures
        first_illegal(s) == first_illegal(s.take(i)),
    decreases s.len() - i,
{
    if i < s.len() {
        assert(s.take(i + 1).drop_last() =~= s.take(i));
        lemma_illegal_stays(s, i + 1);
    } else {
        assert(s.take(i) =~= s);
    }
}

/// The first illegal identifier has a problem.
proof fn lemma_first_illegal_problem(s: Seq<Seq<char>>)
    ensures
        first_illegal(s) matches Some(x) ==> identifier_problem(x) is Some,
    decreases s.len(),
{
    if s.len() > 0 {
        lemma_first_illegal_problem(s.drop_last());
    }
}

/// The first text that is no legal package identifier, if any.
fn illegal_of(all: &Vec<String>) -> (r: Option<String>)
    ensures
        r.deep_view() == first_illegal(views(all@)),
{
    let ghost s = views(all@);
    let mut i: usize = 0;
    while i < all.len()
        invariant
            i <= all@.len(),
            s == views(all@),
            first_illegal(s.take(i as int)) is None,
        decreases all@.len() - i,
    {
        proof {
            assert(s.take(i + 1).drop_last() =~= s.take(i as int));
            assert(s.take(i + 1).last() == all@[i as int]@);
        }
        let m = PackageMatcher::of(all[i].as_str());
        if !m.legal {
            proof {
                lemma_illegal_stays(s, i + 1);
            }
            return Some(all[i].clone());
        }
        i += 1;
    }
    proof {
        assert(s.take(all@.len() as int) =~= s);
    }
    None
}

/// The dependencies a configuration ignores, for a diagram with the stereotypes `all`.
fn ignore_predicate(configuration: &Configuration, all: &Vec<String>) -> (r: DependencyPredicate)
    ensures
        r.wf(),
        r.description@ == ignore_description(*configuration),
        forall|d: Dependency, items: Seq<RustItem>| #[trigger] r.holds(d, items) == match *configuration {
            Configuration::AllDependencies => false,
            Configuration::OnlyDependenciesInDiagram => !matches_some(views(all@), resolve(items, d.target).package_name),
            Configuration::OnlyDependenciesInAnyPackage(ids) => !matches_some(views(ids@), resolve(items, d.target).package_name),
        },
{
    match configuration {
        Configuration::AllDependencies => {
            let r = DependencyPredicate::always_false().as_("");
            proof {
                reveal_strlit("");
            }
            r
        },
        Configuration::OnlyDependenciesInDiagram => {
            let p = dependency_target(reside_outside_of_packages(all)).as_(" while ignoring dependencies not contained in the diagram");
            proof {
                assert forall|d: Dependency, items: Seq<RustItem>| #[trigger] p.holds(d, items)
                    == !matches_some(views(all@), resolve(items, d.target).package_name) by {
                    lemma_matches_some_views(all@, resolve(items, d.target).package_name);
                }
            }
            p
        },
        Configuration::OnlyDependenciesInAnyPackage(ids) => {
            let description = cat3(" while ignoring dependencies outside of packages [", join_quoted(ids).as_str(), "]");
            let p = dependency_target(reside_outside_of_packages(ids)).as_(description.as_str());
            proof {
                assert forall|d: Dependency, items: Seq<RustItem>| #[trigger] p.holds(d, items)
                    == !matches_some(views(ids@), resolve(items, d.target).package_name) by {
                    lemma_matches_some_views(ids@, resolve(items, d.target).package_name);
                }
            }
            p
        },
    }
}

/// The condition that items adhere to the diagram `diagram` named `name`: the diagram is
/// parsed and then checked as [`PlantUmlArchCondition::from_diagram`] does.
pub fn adhere_to_plant_uml_diagram_from_str(name: &str, diagram: &str, configuration: Configuration) -> (r: Result<PlantUmlArchCondition, PlantUmlError>)
    ensures
        match parsed(diagram@) {
            Err(e) => r matches Err(f) && f@ == e,
            Ok(d) => match diagram_problem(name@, d) {
                Some(m) => r matches Err(f) && f@ == PlantUmlErrorView::IllegalDiagram(m),
                None => r matches Ok(c) && {
                    &&& c.wf()
                    &&& c.diagram@ == d
                    &&& c.description@ == "adhere to PlantUML diagram <"@ + name@ + ">"@ + ignore_description(configuration)
                    &&& forall|x: Dependency, items: Seq<RustItem>| #[trigger] c.ignore.holds(x, items)
                        == ignored_by(configuration, d, x, items)
                },
            },
        },
{
    match PlantUmlDiagram::parse(diagram) {
        Err(e) => Err(e),
        Ok(d) => PlantUmlArchCondition::from_diagram(name, d, configuration),
    }
}

// ---- checking items -------------------------------------------------------------------------

/// The components whose stereotypes match the module `package`, by index, in order.
pub open spec fn owners_of(cs: Seq<ComponentView>, package: Seq<char>) -> Seq<int>
    decreases cs.len(),
{
    if cs.len() == 0 {
        Seq::empty()
    } else {
        owners_of(cs.drop_last(), package) + if matches_some(cs.last().stereotypes, package) {
            seq![cs.len() - 1]
        } else {
            Seq::empty()
        }
    }
}

/// `acc` followed by the texts of `s` it does not hold yet, in order.
pub open spec fn extend_distinct(acc: Seq<Seq<char>>, s: Seq<Seq<char>>) -> Seq<Seq<char>>
    decreases s.len(),
{
    if s.len() == 0 {
        acc
    } else {
        let a = extend_distinct(acc, s.drop_last());
        if a.contains(s.last()) { a } else { a.push(s.last()) }
    }
}

/// The module identifiers an item of component `i` may depend on: the component's own
/// stereotypes, then the new ones of the components it has arrows to.
pub open spec fn allowed_identifiers(d: DiagramView, i: int) -> Seq<Seq<char>> {
    extend_distinct(d.components[i].stereotypes, all_stereotypes(dependencies_of_component(d, d.components[i])))
}

/// Every dependency of `deps` is ignored.
pub open spec fn all_ignored(deps: Seq<Dependency>, ignore: DependencyPredicate, items: Seq<RustItem>) -> bool {
    forall|j: int| 0 <= j < deps.len() ==> ignore.holds(#[trigger] deps[j], items)
}

/// The message for an item in no component.
pub open spec fn not_contained_message(name: Seq<char>) -> Seq<char> {
    "Item "@ + name + " is not contained in any component"@
}

/// The message for an item in the components named `names`.
pub open spec fn many_components_message(name: Seq<char>, names: Seq<Seq<char>>) -> Seq<char> {
    "Item "@ + name + " may not be contained in more than one component, but is contained in ["@
        + join_seq(names, ", "@) + "]"@
}

/// The event of a dependency: satisfied where its target's module matches one of `allowed`.
pub open spec fn allowed_event(d: Dependency, allowed: Seq<Seq<char>>, items: Seq<RustItem>) -> EventView {
    single_event(
        CorrespondingObject::Dependency(d),
        matches_some(allowed, resolve(items, d.target).package_name),
        d.description@,
    )
}

/// The event of `only have dependencies in any package <allowed>` on the considered
/// dependencies, if there are any.
pub open spec fn allowed_events(deps: Seq<Dependency>, allowed: Seq<Seq<char>>, items: Seq<RustItem>) -> Seq<EventView> {
    if deps.len() == 0 {
        Seq::empty()
    } else {
        let sub = EventsView::empty().added_all(deps.map_values(|d: Dependency| allowed_event(d, allowed, items)));
        seq![EventView { face: only_face(sub.violating), inverse: any_face(dependency_objects(deps), sub.violating, sub.allowed) }]
    }
}

/// The events of checking `item` against the diagram: none when every dependency is ignored;
/// a violation when the item lies in no component or in several (named in increasing order);
/// else the event of its dependencies that are not ignored, allowed where their target's
/// module matches a stereotype of its component or of a component it has an arrow to.
pub open spec fn diagram_events(c: PlantUmlArchCondition, item: RustItem, items: Seq<RustItem>) -> Seq<EventView> {
    let deps = item.dependencies@;
    let d = c.diagram@;
    if all_ignored(deps, c.ignore, items) {
        Seq::empty()
    } else {
        let owners = owners_of(d.components, item.package_name@);
        let object = CorrespondingObject::Item(reference_of(item));
        if owners.len() == 0 {
            seq![single_event(object, false, not_contained_message(item.full_name@))]
        } else if owners.len() > 1 {
            let names = owners.map_values(|i: int| d.components[i].name);
            seq![single_event(object, false, many_components_message(item.full_name@, sort_unique(names)))]
        } else {
            allowed_events(considered(deps, c.ignore, items), allowed_identifiers(d, owners[0]), items)
        }
    }
}

/// Whether one of the identifiers matches the module `package`.
fn matches_any_identifier(ids: &Vec<String>, package: &str) -> (r: bool)
    ensures
        r == matches_some(views(ids@), package@),
{
    let mut i: usize = 0;
    while i < ids.len()
        invariant
            i <= ids@.len(),
            forall|j: int| 0 <= j < i ==> spec_match(#[trigger] views(ids@)[j], package@) is None,
        decreases ids@.len() - i,
    {
        let m = PackageMatcher::of(ids[i].as_str());
        if m.matches(package) {
            proof {
                assert(spec_match(views(ids@)[i as int], package@) is Some);
            }
            return true;
        }
        proof {
            assert(views(ids@)[i as int] == ids@[i as int]@);
        }
        i += 1;
    }
    false
}

/// The components whose stereotypes match `package`.
fn owners_in(cs: &Vec<PlantUmlComponent>, package: &str) -> (r: Vec<usize>)
    ensures
        r@.map_values(|i: usize| i as int) == owners_of(component_views(cs@), package@),
        forall|j: int| 0 <= j < r@.len() ==> #[trigger] r@[j] < cs@.len(),
{
    let ghost cv = component_views(cs@);
    let mut r: Vec<usize> = Vec::new();
    let mut i: usize = 0;
    proof {
        assert(cv.take(0) =~= Seq::<ComponentView>::empty());
        assert(r@.map_values(|i: usize| i as int) =~= Seq::<int>::empty());
    }
    while i < cs.len()
        invariant
            i <= cs@.len(),
            cv == component_views(cs@),
            r@.map_values(|i: usize| i as int) == owners_of(cv.take(i as int), package@),
            forall|j: int| 0 <= j < r@.len() ==> #[trigger] r@[j] < i,
        decreases cs@.len() - i,
    {
        let ghost before = r@.map_values(|i: usize| i as int);
        proof {
            assert(cv.take(i + 1).drop_last() =~= cv.take(i as int));
            assert(cv.take(i + 1).last() == cs@[i as int]@);
        }
        if matches_any_identifier(&cs[i].stereotypes, package) {
            r.push(i);
            proof {
                assert(r@.map_values(|i: usize| i as int) =~= before + seq![i as int]);
            }
        } else {
            proof {
                assert(before =~= before + Seq::<int>::empty());
            }
        }
        i += 1;
    }
    proof {
        assert(cv.take(cs@.len() as int) =~= cv);
    }
    r
}

/// The module identifiers an item of component `i` may depend on.
fn allowed_of(d: &PlantUmlDiagram, i: usize) -> (r: Vec<String>)
    requires
        d.wf(),
        i < d.components@.len(),
    ensures
        views(r@) == allowed_identifiers(d@, i as int),
{
    let ghost own = d@.components[i as int].stereotypes;
    let mut r = crate::text::clone_strings(&d.components[i].stereotypes);
    let targets = d.dependencies_of(&d.components[i]);
    let ghost tv = targets@.map_values(|c: &PlantUmlComponent| c@);
    proof {
        assert(d@.components[i as int] == d.components@[i as int]@);
        assert(tv == dependencies_of_component(d@, d@.components[i as int]));
        assert(tv.take(0) =~= Seq::<ComponentView>::empty());
        assert(all_stereotypes(tv.take(0)) + Seq::<Seq<char>>::empty() =~= Seq::<Seq<char>>::empty());
    }
    let mut t: usize = 0;
    while t < targets.len()
        invariant
            t <= targets@.len(),
            tv == targets@.map_values(|c: &PlantUmlComponent| c@),
            views(r@) == extend_distinct(own, all_stereotypes(tv.take(t as int))),
        decreases targets@.len() - t,
    {
        let ghost prefix = all_stereotypes(tv.take(t as int));
        let ghost st = views(targets@[t as int].stereotypes@);
        let mut k: usize = 0;
        proof {
            assert(prefix + st.take(0) =~= prefix);
        }
        while k < targets[t].stereotypes.len()
            invariant
                t < targets@.len(),
                k <= targets@[t as int].stereotypes@.len(),
                st == views(targets@[t as int].stereotypes@),
                views(r@) == extend_distinct(own, prefix + st.take(k as int)),
            decreases targets@[t as int].stereotypes@.len() - k,
        {
            let x = &targets[t].stereotypes[k];
            proof {
                assert((prefix + st.take(k + 1)).drop_last() =~= prefix + st.take(k as int));
                assert((prefix + st.take(k + 1)).last() == x@);
                lemma_has_string_contains(r@, x@);
            }
            if !contains_string(&r, x.as_str()) {
                let ghost old_r = r@;
                r.push(x.clone());
                proof {
                    assert(views(r@) =~= views(old_r).push(x@));
                }
            }
            k += 1;
        }
        proof {
            assert(st.take(st.len() as int) =~= st);
            assert(tv.take(t + 1).drop_last() =~= tv.take(t as int));
            assert(tv.take(t + 1).last() == targets@[t as int]@);
        }
        t += 1;
    }
    proof {
        assert(tv.take(targets@.len() as int) =~= tv);
    }
    r
}

impl PlantUmlArchCondition {
    /// Checks `item` against the diagram, adding its events.
    pub fn check_item(&self, item: &RustItem, items: &RustItems, events: &mut ConditionEvents)
        requires
            self.wf(),
            item_described(*item),
            items_described(items.items@),
        ensures
            final(events)@ == old(events)@.added_all(diagram_events(*self, *item, items.items@)),
    {
        let ghost d = self.diagram@;
        let deps = &item.dependencies;
        let mut all = true;
        let mut j: usize = 0;
        while j < deps.len()
            invariant
                j <= deps@.len(),
                self.wf(),
                all == forall|k: int| 0 <= k < j ==> self.ignore.holds(#[trigger] deps@[k], items.items@),
            decreases deps@.len() - j,
        {
            if !self.ignore.test(&deps[j], items) {
                all = false;
            }
            j += 1;
        }
        if all {
            proof {
                assert(old(events)@.added_all(Seq::<EventView>::empty()) == old(events)@);
            }
            return;
        }
        let owners = owners_in(&self.diagram.components, item.package_name.as_str());
        let object = CorrespondingObject::Item(item.reference());
        if owners.len() == 0 {
            let message = cat3("Item ", item.full_name.as_str(), " is not contained in any component");
            proof {
                reveal_strlit("Item ");
                assert(message@[0] == 'I');
                assert(!is_white(message@[0]));
            }
            let e = SimpleConditionEvent::violated(object, message);
            proof {
                lemma_added_one(old(events)@, e.event_view());
            }
            events.add(e);
            return;
        }
        if owners.len() > 1 {
            let mut names: Vec<String> = Vec::new();
            let mut k: usize = 0;
            while k < owners.len()
                invariant
                    k <= owners@.len(),
                    d == self.diagram@,
                    forall|j: int| 0 <= j < owners@.len() ==> #[trigger] owners@[j] < self.diagram.components@.len(),
                    views(names@) == owners@.take(k as int).map_values(|i: usize| d.components[i as int].name),
                decreases owners@.len() - k,
            {
                let ghost old_n = names@;
                names.push(self.diagram.components[owners[k]].name.clone());
                proof {
                    assert(d.components[owners@[k as int] as int] == self.diagram.components@[owners@[k as int] as int]@);
                    assert(views(names@) =~= views(old_n).push(d.components[owners@[k as int] as int].name));
                    assert(owners@.take(k + 1).map_values(|i: usize| d.components[i as int].name)
                        =~= owners@.take(k as int).map_values(|i: usize| d.components[i as int].name).push(d.components[owners@[k as int] as int].name));
                }
                k += 1;
            }
            let sorted = sorted_unique(&names);
            let mut message = cat3("Item ", item.full_name.as_str(), " may not be contained in more than one component, but is contained in [");
            message.append(join(&sorted, ", ").as_str());
            message.append("]");
            proof {
                reveal_strlit("Item ");
                reveal_strlit(", ");
                assert(", "@ =~= seq![',', ' ']);
                assert(message@[0] == 'I');
                assert(!is_white(message@[0]));
                let ov = owners@.map_values(|i: usize| i as int);
                assert(owners@.take(owners@.len() as int) =~= owners@);
                assert(owners@.map_values(|i: usize| d.components[i as int].name) =~= ov.map_values(|i: int| d.components[i].name));
            }
            let e = SimpleConditionEvent::violated(object, message);
            proof {
                lemma_added_one(old(events)@, e.event_view());
            }
            events.add(e);
            return;
        }
        proof {
            assert(owners@.map_values(|i: usize| i as int)[0] == owners@[0] as int);
        }
        let allowed = allowed_of(&self.diagram, owners[0]);
        let considered = considered_dependencies(deps, &self.ignore, items);
        proof {
            lemma_considered_described(deps@, self.ignore, items.items@);
        }
        if considered.len() > 0 {
            let p = dependency_target(reside_in_any_package(&allowed));
            let sub = dependency_sub_events(&considered, &p, items);
            proof {
                assert forall|x: Dependency| #[trigger] p.holds(x, items.items@)
                    == matches_some(views(allowed@), resolve(items.items@, x.target).package_name) by {
                    lemma_matches_some_views(allowed@, resolve(items.items@, x.target).package_name);
                }
                assert(dependency_events(considered@, p, items.items@)
                    =~= considered@.map_values(|x: Dependency| allowed_event(x, views(allowed@), items.items@)));
            }
            let objects = objects_of(&considered);
            let e = ConditionEvent::only(objects, sub.allowed, sub.violating);
            proof {
                lemma_added_one(old(events)@, e@);
            }
            events.add_boxed(e);
        } else {
            proof {
                assert(old(events)@.added_all(Seq::<EventView>::empty()) == old(events)@);
            }
        }
    }

    /// The condition as an [`ArchCondition`], described by its description.
    pub fn into_condition(self) -> (r: ArchCondition)
        requires
            self.wf(),
        ensures
            r.wf(),
            r.description@ == self.description@,
            r.logic == ConditionLogic::PlantUml(self),
    {
        let description = self.description.clone();
        ArchCondition::new(description.as_str(), ConditionLogic::PlantUml(self))
    }
}

// ---- laws -----------------------------------------------------------------------------------

proof fn lemma_violating_grows(v: EventsView, evs: Seq<EventView>)
    ensures
        v.added_all(evs).violating.len() >= v.violating.len(),
        v.added_all(evs).violating.len() > v.violating.len()
            <==> exists|j: int| 0 <= j < evs.len() && (#[trigger] evs[j]).face.violation,
    decreases evs.len(),
{
    if evs.len() > 0 {
        lemma_violating_grows(v, evs.drop_last());
        if exists|j: int| 0 <= j < evs.drop_last().len() && (#[trigger] evs.drop_last()[j]).face.violation {
            let j = choose|j: int| 0 <= j < evs.drop_last().len() && (#[trigger] evs.drop_last()[j]).face.violation;
            assert(evs[j] == evs.drop_last()[j]);
        }
        if exists|j: int| 0 <= j < evs.len() && (#[trigger] evs[j]).face.violation {
            let j = choose|j: int| 0 <= j < evs.len() && (#[trigger] evs[j]).face.violation;
            if j < evs.len() - 1 {
                assert(evs.drop_last()[j] == evs[j]);
            }
        }
    }
}

proof fn lemma_considered_offending(deps: Seq<Dependency>, ignore: DependencyPredicate, items: Seq<RustItem>, allowed: Seq<Seq<char>>)
    ensures
        (exists|j: int| 0 <= j < considered(deps, ignore, items).len()
            && !matches_some(allowed, resolve(items, (#[trigger] considered(deps, ignore, items)[j]).target).package_name))
        <==> (exists|k: int| 0 <= k < deps.len() && !ignore.holds(#[trigger] deps[k], items)
            && !matches_some(allowed, resolve(items, deps[k].target).package_name)),
    decreases deps.len(),
{
    if deps.len() > 0 {
        let front = deps.drop_last();
        lemma_considered_offending(front, ignore, items, allowed);
        let cf = considered(front, ignore, items);
        let c = considered(deps, ignore, items);
        assert forall|j: int| 0 <= j < cf.len() implies #[trigger] c[j] == cf[j] by {}
        if exists|j: int| 0 <= j < c.len() && !matches_some(allowed, resolve(items, (#[trigger] c[j]).target).package_name) {
            let j = choose|j: int| 0 <= j < c.len() && !matches_some(allowed, resolve(items, (#[trigger] c[j]).target).package_name);
            if j < cf.len() {
                assert(c[j] == cf[j]);
                let k = choose|k: int| 0 <= k < front.len() && !ignore.holds(#[trigger] front[k], items)
                    && !matches_some(allowed, resolve(items, front[k].target).package_name);
                assert(deps[k] == front[k]);
            } else {
                assert(c[j] == deps.last());
                assert(deps[deps.len() - 1] == deps.last());
            }
        }
        if exists|k: int| 0 <= k < deps.len() && !ignore.holds(#[trigger] deps[k], items)
            && !matches_some(allowed, resolve(items, deps[k].target).package_name) {
            let k = choose|k: int| 0 <= k < deps.len() && !ignore.holds(#[trigger] deps[k], items)
                && !matches_some(allowed, resolve(items, deps[k].target).package_name);
            if k < front.len() {
                assert(front[k] == deps[k]);
                let j = choose|j: int| 0 <= j < cf.len()
                    && !matches_some(allowed, resolve(items, (#[trigger] cf[j]).target).package_name);
                assert(c[j] == cf[j]);
            } else {
                assert(c[cf.len() as int] == deps.last());
            }
        }
    }
}

proof fn lemma_some_not_ignored(deps: Seq<Dependency>, ignore: DependencyPredicate, items: Seq<RustItem>)
    requires
        !all_ignored(deps, ignore, items),
    ensures
        considered(deps, ignore, items).len() > 0,
    decreases deps.len(),
{
    let k = choose|k: int| 0 <= k < deps.len() && !ignore.holds(#[trigger] deps[k], items);
    if k < deps.len() - 1 {
        assert(deps.drop_last()[k] == deps[k]);
        lemma_some_not_ignored(deps.drop_last(), ignore, items);
    } else {
        assert(deps.last() == deps[k]);
    }
}

/// What a diagram allows: an item whose dependencies are all ignored gives no event. Else an
/// item that lies in no component, or in several, violates the diagram; and an item that lies
/// in exactly one component violates it if and only if one of its dependencies that is not
/// ignored leads to a module that none of the identifiers its component allows (its own
/// stereotypes and those of the components it has arrows to) matches.
pub proof fn lemma_items_depend_along_arrows(c: PlantUmlArchCondition, item: RustItem, items: Seq<RustItem>)
    ensures
        all_ignored(item.dependencies@, c.ignore, items) ==> diagram_events(c, item, items).len() == 0,
        !all_ignored(item.dependencies@, c.ignore, items) && owners_of(c.diagram@.components, item.package_name@).len() != 1
            ==> diagram_events(c, item, items).len() == 1 && diagram_events(c, item, items)[0].face.violation,
        owners_of(c.diagram@.components, item.package_name@).len() == 1 ==> (
            (exists|j: int| 0 <= j < diagram_events(c, item, items).len() && (#[trigger] diagram_events(c, item, items)[j]).face.violation)
            <==> (exists|k: int| 0 <= k < item.dependencies@.len() && !c.ignore.holds(#[trigger] item.dependencies@[k], items)
                && !matches_some(
                    allowed_identifiers(c.diagram@, owners_of(c.diagram@.components, item.package_name@)[0]),
                    resolve(items, item.dependencies@[k].target).package_name,
                ))),
{
    let evs = diagram_events(c, item, items);
    let deps = item.dependencies@;
    let owners = owners_of(c.diagram@.components, item.package_name@);
    if owners.len() == 1 {
        let allowed = allowed_identifiers(c.diagram@, owners[0]);
        if all_ignored(deps, c.ignore, items) {
            if exists|k: int| 0 <= k < deps.len() && !c.ignore.holds(#[trigger] deps[k], items)
                && !matches_some(allowed, resolve(items, deps[k].target).package_name) {
                let k = choose|k: int| 0 <= k < deps.len() && !c.ignore.holds(#[trigger] deps[k], items)
                    && !matches_some(allowed, resolve(items, deps[k].target).package_name);
                assert(c.ignore.holds(deps[k], items));
            }
        } else {
            let cons = considered(deps, c.ignore, items);
            lemma_some_not_ignored(deps, c.ignore, items);
            let mapped = cons.map_values(|d: Dependency| allowed_event(d, allowed, items));
            lemma_violating_grows(EventsView::empty(), mapped);
            lemma_considered_offending(deps, c.ignore, items, allowed);
            let sub = EventsView::empty().added_all(mapped);
            assert(evs == allowed_events(cons, allowed, items));
            assert(evs[0].face.violation == (sub.violating.len() > 0));
            assert(evs.len() == 1);
            if exists|j: int| 0 <= j < mapped.len() && (#[trigger] mapped[j]).face.violation {
                let j = choose|j: int| 0 <= j < mapped.len() && (#[trigger] mapped[j]).face.violation;
                assert(!matches_some(allowed, resolve(items, cons[j].target).package_name));
            }
            if exists|j: int| 0 <= j < cons.len()
                && !matches_some(allowed, resolve(items, (#[trigger] cons[j]).target).package_name) {
                let j = choose|j: int| 0 <= j < cons.len()
                    && !matches_some(allowed, resolve(items, (#[trigger] cons[j]).target).package_name);
                assert(mapped[j].face.violation);
            }
            if exists|j: int| 0 <= j < evs.len() && (#[trigger] evs[j]).face.violation {
                assert(evs[0].face.violation);
            }
        }
    }
}


/// Extending texts keeps those there before, in their places.
proof fn lemma_extend_distinct_keeps(acc: Seq<Seq<char>>, s: Seq<Seq<char>>)
    ensures
        extend_distinct(acc, s).len() >= acc.len(),
        forall|k: int| 0 <= k < acc.len() ==> #[trigger] extend_distinct(acc, s)[k] == acc[k],
    decreases s.len(),
{
    if s.len() > 0 {
        lemma_extend_distinct_keeps(acc, s.drop_last());
    }
}

/// An item may always depend on its own component: for an item in exactly one component, each
/// stereotype of that component is among the identifiers it may depend on, so where every
/// dependency that is not ignored leads to a module matching a stereotype of its own
/// component, checking the item against the diagram gives no violation.
pub proof fn lemma_own_component_allowed(c: PlantUmlArchCondition, item: RustItem, items: Seq<RustItem>)
    requires
        owners_of(c.diagram@.components, item.package_name@).len() == 1,
        forall|k: int| 0 <= k < item.dependencies@.len() && !c.ignore.holds(#[trigger] item.dependencies@[k], items)
            ==> matches_some(
                c.diagram@.components[owners_of(c.diagram@.components, item.package_name@)[0]].stereotypes,
                resolve(items, item.dependencies@[k].target).package_name,
            ),
    ensures
        forall|k: int| 0 <= k < c.diagram@.components[owners_of(c.diagram@.components, item.package_name@)[0]].stereotypes.len()
            ==> allowed_identifiers(c.diagram@, owners_of(c.diagram@.components, item.package_name@)[0]).contains(
                #[trigger] c.diagram@.components[owners_of(c.diagram@.components, item.package_name@)[0]].stereotypes[k]),
        forall|j: int| 0 <= j < diagram_events(c, item, items).len() ==> !(#[trigger] diagram_events(c, item, items)[j]).face.violation,
{
    let d = c.diagram@;
    let o = owners_of(d.components, item.package_name@)[0];
    let own = d.components[o].stereotypes;
    let allowed = allowed_identifiers(d, o);
    lemma_extend_distinct_keeps(own, all_stereotypes(dependencies_of_component(d, d.components[o])));
    assert forall|k: int| 0 <= k < own.len() implies allowed.contains(#[trigger] own[k]) by {
        assert(allowed[k] == own[k]);
    }
    lemma_items_depend_along_arrows(c, item, items);
    let deps = item.dependencies@;
    if exists|k: int| 0 <= k < deps.len() && !c.ignore.holds(#[trigger] deps[k], items)
        && !matches_some(allowed, resolve(items, deps[k].target).package_name) {
        let k = choose|k: int| 0 <= k < deps.len() && !c.ignore.holds(#[trigger] deps[k], items)
            && !matches_some(allowed, resolve(items, deps[k].target).package_name);
        let p = resolve(items, deps[k].target).package_name;
        assert(matches_some(own, p));
        let i = choose|i: int| 0 <= i < own.len() && spec_match(#[trigger] own[i], p) is Some;
        assert(allowed[i] == own[i]);
        assert(spec_match(allowed[i], p) is Some);
    }
}


/// Extending texts by others holds exactly the texts of both.
proof fn lemma_extend_distinct_members(acc: Seq<Seq<char>>, s: Seq<Seq<char>>, x: Seq<char>)
    ensures
        extend_distinct(acc, s).contains(x) <==> (acc.contains(x) || s.contains(x)),
    decreases s.len(),
{
    if s.len() > 0 {
        let rest = s.drop_last();
        lemma_extend_distinct_members(acc, rest, x);
        let a = extend_distinct(acc, rest);
        if rest.contains(x) {
            let j = choose|j: int| 0 <= j < rest.len() && rest[j] == x;
            assert(s[j] == x);
        }
        if s.contains(x) && !rest.contains(x) {
            let j = choose|j: int| 0 <= j < s.len() && s[j] == x;
            if j < rest.len() {
                assert(rest[j] == x);
            }
            assert(x == s.last());
        }
        if !a.contains(s.last()) {
            let b = a.push(s.last());
            assert(b[b.len() - 1] == s.last());
            if a.contains(x) {
                let j = choose|j: int| 0 <= j < a.len() && a[j] == x;
                assert(b[j] == x);
            }
            if b.contains(x) && x != s.last() {
                let j = choose|j: int| 0 <= j < b.len() && b[j] == x;
                assert(a[j] == x);
            }
        }
        if x == s.last() {
            assert(s[s.len() - 1] == x);
        }
    }
}

/// The stereotypes of components are those of one of them.
proof fn lemma_all_stereotypes_members(cs: Seq<ComponentView>, x: Seq<char>)
    ensures
        all_stereotypes(cs).contains(x) <==> exists|t: int| 0 <= t < cs.len() && (#[trigger] cs[t]).stereotypes.contains(x),
    decreases cs.len(),
{
    if cs.len() > 0 {
        let rest = cs.drop_last();
        lemma_all_stereotypes_members(rest, x);
        let a = all_stereotypes(rest);
        let l = cs.last().stereotypes;
        let all = all_stereotypes(cs);
        assert(all == a + l);
        if all.contains(x) {
            let j = choose|j: int| 0 <= j < all.len() && all[j] == x;
            if j < a.len() {
                assert(a[j] == x);
                let t = choose|t: int| 0 <= t < rest.len() && (#[trigger] rest[t]).stereotypes.contains(x);
                assert(cs[t] == rest[t]);
            } else {
                assert(l[j - a.len()] == x);
                assert(cs[cs.len() - 1] == cs.last());
            }
        }
        if exists|t: int| 0 <= t < cs.len() && (#[trigger] cs[t]).stereotypes.contains(x) {
            let t = choose|t: int| 0 <= t < cs.len() && (#[trigger] cs[t]).stereotypes.contains(x);
            if t < rest.len() {
                assert(rest[t] == cs[t]);
                let j = choose|j: int| 0 <= j < a.len() && a[j] == x;
                assert(all[j] == x);
            } else {
                assert(cs[t] == cs.last());
                let j = choose|j: int| 0 <= j < l.len() && l[j] == x;
                assert(all[a.len() + j] == x);
            }
        }
    }
}

/// The identifiers an item of component `i` may depend on are exactly the stereotypes of that
/// component and those of the components it has arrows to.
pub proof fn lemma_allowed_identifiers_members(d: DiagramView, i: int, x: Seq<char>)
    ensures
        allowed_identifiers(d, i).contains(x) <==> (d.components[i].stereotypes.contains(x)
            || exists|t: int| 0 <= t < dependencies_of_component(d, d.components[i]).len()
                && (#[trigger] dependencies_of_component(d, d.components[i])[t]).stereotypes.contains(x)),
{
    lemma_extend_distinct_members(d.components[i].stereotypes, all_stereotypes(dependencies_of_component(d, d.components[i])), x);
    lemma_all_stereotypes_members(dependencies_of_component(d, d.components[i]), x);
}

} // verus!
