//! The model the rules are checked against: items (structs, enums, traits, functions), the
//! modules they reside in and the dependencies between them.

use vstd::prelude::*;
use vstd::string::*;

use crate::text::{cat3, str_eq};

verus! {

/// What kind of item an item is.
#[derive(Debug, Clone, Copy, PartialEq, Eq, Structural)]
pub enum ItemKind {
    /// A struct.
    Struct,
    /// An enum.
    Enum,
    /// A trait.
    Trait,
    /// A free function.
    Function,
    /// Anything else, e.g. a type alias or an item outside the imported code.
    Other,
}

/// Where an item is declared.
#[derive(Debug, Clone, Copy, PartialEq, Eq, Structural)]
pub enum Nesting {
    /// Directly in a module.
    TopLevel,
    /// Inside another item (an impl block or a module of an item).
    Nested,
    /// Inside a function body.
    Local,
}

/// A modifier of an item.
#[derive(Debug, Clone, Copy, PartialEq, Eq, Structural)]
pub enum RustModifier {
    /// `pub` without restriction.
    Pub,
    /// `pub(super)`, `pub(in ..)`.
    PubRestricted,
    /// No `pub`.
    Private,
    /// No `self` receiver, or an associated const / `static` / `const` item.
    Static,
    /// An inherent method, which cannot be overridden.
    Final,
    /// `unsafe`.
    Unsafe,
    /// `async`.
    Async,
    /// `pub(crate)`.
    PubCrate,
    /// `#[non_exhaustive]`.
    NonExhaustive,
}

/// A constructor or a field of an item.
#[derive(Debug)]
pub struct Member {
    /// The full name, e.g. `my_app::Service::new` or `my_app::Service::state`.
    pub full_name: String,
    /// Its modifiers.
    pub modifiers: Vec<RustModifier>,
}

/// The spec form of a [`Member`].
pub struct MemberView {
    pub full_name: Seq<char>,
    pub modifiers: Seq<RustModifier>,
}

impl View for Member {
    type V = MemberView;

    open spec fn view(&self) -> MemberView {
        MemberView { full_name: self.full_name@, modifiers: self.modifiers@ }
    }
}

/// The views of members.
pub open spec fn member_views(v: Seq<Member>) -> Seq<MemberView> {
    v.map_values(|m: Member| m@)
}

impl Member {
    /// A member named `full_name` with `modifiers`.
    pub fn new(full_name: &str, modifiers: Vec<RustModifier>) -> (r: Member)
        ensures
            r.full_name@ == full_name@,
            r.modifiers@ == modifiers@,
    {
        Member { full_name: String::from_str(full_name), modifiers }
    }

    /// A copy.
    pub fn copy(&self) -> (r: Member)
        ensures
            r@ == self@,
    {
        Member { full_name: self.full_name.clone(), modifiers: copy_modifiers(&self.modifiers) }
    }

    /// Whether the member has `modifier`.
    pub fn has_modifier(&self, modifier: RustModifier) -> (r: bool)
        ensures
            r == self.modifiers@.contains(modifier),
    {
        let mut i: usize = 0;
        while i < self.modifiers.len()
            invariant
                i <= self.modifiers@.len(),
                forall|j: int| 0 <= j < i ==> self.modifiers@[j] != modifier,
            decreases self.modifiers@.len() - i,
        {
            if self.modifiers[i] == modifier {
                assert(self.modifiers@[i as int] == modifier);
                return true;
            }
            i += 1;
        }
        false
    }
}

/// Copies of the members.
pub fn copy_members(v: &Vec<Member>) -> (r: Vec<Member>)
    ensures
        member_views(r@) == member_views(v@),
{
    let mut r: Vec<Member> = Vec::new();
    let mut i: usize = 0;
    while i < v.len()
        invariant
            i <= v@.len(),
            r@.len() == i,
            member_views(r@) == member_views(v@.take(i as int)),
        decreases v@.len() - i,
    {
        let ghost before = r@;
        let m = v[i].copy();
        r.push(m);
        proof {
            assert forall|j: int| 0 <= j < r@.len() implies member_views(r@)[j] == member_views(v@.take(i + 1))[j] by {
                if j < i {
                    assert(r@[j] == before[j]);
                    assert(member_views(before)[j] == member_views(v@.take(i as int))[j]);
                    assert(v@.take(i + 1)[j] == v@.take(i as int)[j]);
                } else {
                    assert(v@.take(i + 1)[j] == v@[i as int]);
                }
            }
            assert(member_views(r@) =~= member_views(v@.take(i + 1)));
        }
        i += 1;
    }
    proof {
        assert(v@.take(v@.len() as int) =~= v@);
    }
    r
}

/// The name of an item as the end of a dependency.
#[derive(Debug)]
pub struct ItemRef {
    /// The full name, e.g. `my_app::service::Service`.
    pub full_name: String,
    /// The name without module path, e.g. `Service`.
    pub simple_name: String,
    /// The module the item resides in, e.g. `my_app::service`.
    pub package_name: String,
}

/// `package::simple`.
pub open spec fn qualified(package: Seq<char>, simple: Seq<char>) -> Seq<char> {
    package + seq![':', ':'] + simple
}

impl ItemRef {
    /// The item `simple_name` in module `package_name`.
    pub fn new(package_name: &str, simple_name: &str) -> (r: ItemRef)
        ensures
            r.package_name@ == package_name@,
            r.simple_name@ == simple_name@,
            r.full_name@ == qualified(package_name@, simple_name@),
    {
        let full_name = cat3(package_name, "::", simple_name);
        proof {
            reveal_strlit("::");
            assert("::"@ =~= seq![':', ':']);
        }
        ItemRef {
            full_name,
            simple_name: String::from_str(simple_name),
            package_name: String::from_str(package_name),
        }
    }

    /// A copy.
    pub fn copy(&self) -> (r: ItemRef)
        ensures
            r == *self,
    {
        ItemRef {
            full_name: self.full_name.clone(),
            simple_name: self.simple_name.clone(),
            package_name: self.package_name.clone(),
        }
    }
}

/// What kind of access a dependency is, if any.
#[derive(Debug, Clone, Copy, PartialEq, Eq, Structural)]
pub enum AccessKind {
    /// A dependency that is no access, e.g. the use of a type in a signature.
    Other,
    /// A read of a field.
    GetField,
    /// A write of a field.
    SetField,
    /// A call of a method.
    MethodCall,
    /// A call of a constructor.
    ConstructorCall,
}

/// A dependency of one item on another (`Dependency`); an access of a member is one too.
#[derive(Debug)]
pub struct Dependency {
    /// The depending item.
    pub origin: ItemRef,
    /// The item depended on (for an access: the owner of the member).
    pub target: ItemRef,
    /// How the dependency reads in reports, e.g.
    /// `Function <a::f()> calls function <b::g()> in (a.rs:12)`.
    pub description: String,
    /// The kind of access, or [`AccessKind::Other`].
    pub kind: AccessKind,
    /// The name of the accessed member; empty for other dependencies.
    pub member: String,
    /// The parameter types of a called method or constructor as written, joined by `, `.
    pub parameters: String,
}

impl Dependency {
    /// A dependency from `origin` to `target` described by `description`, no access.
    pub fn new(origin: ItemRef, target: ItemRef, description: &str) -> (r: Dependency)
        ensures
            r.origin == origin,
            r.target == target,
            r.description@ == description@,
            r.kind == AccessKind::Other,
            r.member@.len() == 0,
            r.parameters@.len() == 0,
    {
        Dependency { origin, target, description: String::from_str(description), kind: AccessKind::Other, member: String::new(), parameters: String::new() }
    }

    /// An access of `kind` from `origin` to the member `member` of `target`.
    pub fn access(origin: ItemRef, target: ItemRef, kind: AccessKind, member: &str, parameters: &str, description: &str) -> (r: Dependency)
        ensures
            r.origin == origin,
            r.target == target,
            r.description@ == description@,
            r.kind == kind,
            r.member@ == member@,
            r.parameters@ == parameters@,
    {
        Dependency {
            origin,
            target,
            description: String::from_str(description),
            kind,
            member: String::from_str(member),
            parameters: String::from_str(parameters),
        }
    }

    /// A copy.
    pub fn copy(&self) -> (r: Dependency)
        ensures
            r == *self,
    {
        Dependency {
            origin: self.origin.copy(),
            target: self.target.copy(),
            description: self.description.clone(),
            kind: self.kind,
            member: self.member.clone(),
            parameters: self.parameters.clone(),
        }
    }

    /// The description.
    pub fn description(&self) -> (r: &str)
        ensures
            r@ == self.description@,
    {
        self.description.as_str()
    }
}

/// Copies of the dependencies.
pub fn copy_dependencies(v: &Vec<Dependency>) -> (r: Vec<Dependency>)
    ensures
        r@ == v@,
{
    let mut r: Vec<Dependency> = Vec::new();
    let mut i: usize = 0;
    while i < v.len()
        invariant
            i <= v@.len(),
            r@ == v@.take(i as int),
        decreases v@.len() - i,
    {
        r.push(v[i].copy());
        proof {
            assert(v@.take(i + 1) == v@.take(i as int).push(v@[i as int]));
        }
        i += 1;
    }
    proof {
        assert(v@.take(v@.len() as int) =~= v@);
    }
    r
}

/// An imported item: a type, trait or function of a crate.
#[derive(Debug)]
pub struct RustItem {
    /// The full name, e.g. `my_app::service::Service`.
    pub full_name: String,
    /// The name without module path.
    pub simple_name: String,
    /// The module the item resides in.
    pub package_name: String,
    /// What kind of item this is.
    pub kind: ItemKind,
    /// Where the item is declared.
    pub nesting: Nesting,
    /// Its modifiers.
    pub modifiers: Vec<RustModifier>,
    /// The names of its attributes and derives, e.g. `transactional`, `Debug`.
    pub annotations: Vec<String>,
    /// The traits it implements, by full name.
    pub implemented: Vec<String>,
    /// Where it is declared, e.g. `(service.rs:12)`.
    pub source_location: String,
    /// Its dependencies on other items.
    pub dependencies: Vec<Dependency>,
    /// The functions classified as its constructors.
    pub constructors: Vec<Member>,
    /// Its fields.
    pub fields: Vec<Member>,
}

impl RustItem {
    /// A top-level item `simple_name` of kind `kind` in module `package_name`, without
    /// modifiers, attributes or dependencies.
    pub fn new(package_name: &str, simple_name: &str, kind: ItemKind) -> (r: RustItem)
        ensures
            r.package_name@ == package_name@,
            r.simple_name@ == simple_name@,
            r.full_name@ == qualified(package_name@, simple_name@),
            r.kind == kind,
            r.nesting == Nesting::TopLevel,
            r.modifiers@.len() == 0,
            r.annotations@.len() == 0,
            r.implemented@.len() == 0,
            r.dependencies@.len() == 0,
            r.source_location@ == Seq::<char>::empty(),
            r.constructors@.len() == 0,
            r.fields@.len() == 0,
    {
        let reference = ItemRef::new(package_name, simple_name);
        RustItem {
            full_name: reference.full_name,
            simple_name: reference.simple_name,
            package_name: reference.package_name,
            kind,
            nesting: Nesting::TopLevel,
            modifiers: Vec::new(),
            annotations: Vec::new(),
            implemented: Vec::new(),
            source_location: String::new(),
            dependencies: Vec::new(),
            constructors: Vec::new(),
            fields: Vec::new(),
        }
    }

    /// The reference to this item.
    pub fn reference(&self) -> (r: ItemRef)
        ensures
            r.full_name == self.full_name,
            r.simple_name == self.simple_name,
            r.package_name == self.package_name,
    {
        ItemRef {
            full_name: self.full_name.clone(),
            simple_name: self.simple_name.clone(),
            package_name: self.package_name.clone(),
        }
    }

    /// The item's name.
    pub fn name(&self) -> (r: &str)
        ensures
            r@ == self.full_name@,
    {
        self.full_name.as_str()
    }

    /// The item's module.
    pub fn package_name(&self) -> (r: &str)
        ensures
            r@ == self.package_name@,
    {
        self.package_name.as_str()
    }

    /// `Item <full name>`, as reports name an item.
    pub fn description(&self) -> (r: String)
        ensures
            r@ == item_description(self.full_name@),
    {
        let r = cat3("Item <", self.full_name.as_str(), ">");
        proof {
            reveal_strlit("Item <");
            reveal_strlit(">");
        }
        r
    }

    /// Whether the item has `modifier`.
    pub fn has_modifier(&self, modifier: RustModifier) -> (r: bool)
        ensures
            r == self.modifiers@.contains(modifier),
    {
        let mut i: usize = 0;
        while i < self.modifiers.len()
            invariant
                i <= self.modifiers@.len(),
                forall|j: int| 0 <= j < i ==> self.modifiers@[j] != modifier,
            decreases self.modifiers@.len() - i,
        {
            if self.modifiers[i] == modifier {
                proof {
                    assert(self.modifiers@.contains(self.modifiers@[i as int]));
                }
                return true;
            }
            i += 1;
        }
        false
    }

    /// Whether the item carries the attribute or derive `annotation`.
    pub fn is_annotated_with(&self, annotation: &str) -> (r: bool)
        ensures
            r == has_string(self.annotations@, annotation@),
    {
        contains_string(&self.annotations, annotation)
    }

    /// Whether the item implements the trait named `trait_name`.
    pub fn implements(&self, trait_name: &str) -> (r: bool)
        ensures
            r == has_string(self.implemented@, trait_name@),
    {
        contains_string(&self.implemented, trait_name)
    }

    /// A copy.
    pub fn copy(&self) -> (r: RustItem)
        ensures
            same_item(r, *self),
    {
        RustItem {
            full_name: self.full_name.clone(),
            simple_name: self.simple_name.clone(),
            package_name: self.package_name.clone(),
            kind: self.kind,
            nesting: self.nesting,
            modifiers: copy_modifiers(&self.modifiers),
            annotations: crate::text::clone_strings(&self.annotations),
            implemented: crate::text::clone_strings(&self.implemented),
            source_location: self.source_location.clone(),
            dependencies: copy_dependencies(&self.dependencies),
            constructors: copy_members(&self.constructors),
            fields: copy_members(&self.fields),
        }
    }
}

/// Two items agree in everything rules read.
pub open spec fn same_item(a: RustItem, b: RustItem) -> bool {
    &&& a@ == b@
    &&& a.dependencies@ == b.dependencies@
    &&& a.source_location@ == b.source_location@
    &&& member_views(a.constructors@) == member_views(b.constructors@)
    &&& member_views(a.fields@) == member_views(b.fields@)
}

/// `Item <name>`.
pub open spec fn item_description(full_name: Seq<char>) -> Seq<char> {
    "Item <"@ + full_name + ">"@
}

/// Some string of `v` has the view `s`.
pub open spec fn has_string(v: Seq<String>, s: Seq<char>) -> bool {
    exists|i: int| 0 <= i < v.len() && v[i]@ == s
}

/// Whether some string of `v` equals `s`.
pub fn contains_string(v: &Vec<String>, s: &str) -> (r: bool)
    ensures
        r == has_string(v@, s@),
{
    let mut i: usize = 0;
    while i < v.len()
        invariant
            i <= v@.len(),
            forall|j: int| 0 <= j < i ==> v@[j]@ != s@,
        decreases v@.len() - i,
    {
        if str_eq(v[i].as_str(), s) {
            return true;
        }
        i += 1;
    }
    false
}

fn copy_modifiers(v: &Vec<RustModifier>) -> (r: Vec<RustModifier>)
    ensures
        r@ == v@,
{
    let mut r: Vec<RustModifier> = Vec::new();
    let mut i: usize = 0;
    while i < v.len()
        invariant
            i <= v@.len(),
            r@ == v@.take(i as int),
        decreases v@.len() - i,
    {
        r.push(v[i]);
        proof {
            assert(v@.take(i + 1) == v@.take(i as int).push(v@[i as int]));
        }
        i += 1;
    }
    proof {
        assert(v@.take(v@.len() as int) =~= v@);
    }
    r
}

/// Copies of the items.
pub fn copy_items(v: &Vec<RustItem>) -> (r: Vec<RustItem>)
    ensures
        r@.len() == v@.len(),
        forall|i: int| 0 <= i < v@.len() ==> same_item(#[trigger] r@[i], v@[i]),
{
    let mut r: Vec<RustItem> = Vec::new();
    let mut i: usize = 0;
    while i < v.len()
        invariant
            i <= v@.len(),
            r@.len() == i,
            forall|j: int| 0 <= j < i ==> same_item(#[trigger] r@[j], v@[j]),
        decreases v@.len() - i,
    {
        r.push(v[i].copy());
        i += 1;
    }
    r
}

/// The imported items.
#[derive(Debug)]
pub struct RustItems {
    /// The items in import order.
    pub items: Vec<RustItem>,
}

/// The first item of `items` named `name`, from position `from` on.
pub open spec fn find_item(items: Seq<RustItem>, name: Seq<char>, from: int) -> Option<int>
    decreases items.len() - from,
{
    if from < 0 || from >= items.len() {
        None
    } else if items[from].full_name@ == name {
        Some(from)
    } else {
        find_item(items, name, from + 1)
    }
}

/// What predicates read of an item.
pub struct ItemView {
    pub full_name: Seq<char>,
    pub simple_name: Seq<char>,
    pub package_name: Seq<char>,
    pub kind: ItemKind,
    pub nesting: Nesting,
    pub modifiers: Seq<RustModifier>,
    pub annotations: Seq<Seq<char>>,
    pub implemented: Seq<Seq<char>>,
}

impl View for RustItem {
    type V = ItemView;

    open spec fn view(&self) -> ItemView {
        ItemView {
            full_name: self.full_name@,
            simple_name: self.simple_name@,
            package_name: self.package_name@,
            kind: self.kind,
            nesting: self.nesting,
            modifiers: self.modifiers@,
            annotations: crate::text::views(self.annotations@),
            implemented: crate::text::views(self.implemented@),
        }
    }
}

/// The item a reference stands for: the imported item of that name, or else a bare item
/// holding only the names of the reference.
pub open spec fn resolve(items: Seq<RustItem>, r: ItemRef) -> ItemView {
    match find_item(items, r.full_name@, 0) {
        Some(i) => items[i]@,
        None => stub_of(r),
    }
}

/// A bare item holding only the names of `r`.
pub open spec fn stub_of(r: ItemRef) -> ItemView {
    ItemView {
        full_name: r.full_name@,
        simple_name: r.simple_name@,
        package_name: r.package_name@,
        kind: ItemKind::Other,
        nesting: Nesting::TopLevel,
        modifiers: Seq::empty(),
        annotations: Seq::empty(),
        implemented: Seq::empty(),
    }
}

impl RustItems {
    /// The items `items`.
    pub fn of(items: Vec<RustItem>) -> (r: RustItems)
        ensures
            r.items@ == items@,
    {
        RustItems { items }
    }

    /// The items as a vector.
    pub fn to_vec(&self) -> (r: Vec<RustItem>)
        ensures
            r@.len() == self.items@.len(),
            forall|i: int| 0 <= i < self.items@.len() ==> same_item(#[trigger] r@[i], self.items@[i]),
    {
        copy_items(&self.items)
    }

    /// The position of the first item named `name`.
    pub fn position(&self, name: &str) -> (r: Option<usize>)
        ensures
            r matches Some(i) ==> i < self.items@.len() && find_item(self.items@, name@, 0) == Some(i as int),
            r is None ==> find_item(self.items@, name@, 0) is None,
    {
        let mut i: usize = 0;
        while i < self.items.len()
            invariant
                i <= self.items@.len(),
                find_item(self.items@, name@, 0) == find_item(self.items@, name@, i as int),
            decreases self.items@.len() - i,
        {
            if str_eq(self.items[i].full_name.as_str(), name) {
                return Some(i);
            }
            i += 1;
        }
        None
    }

    /// The item `reference` stands for (see [`resolve`]).
    pub fn resolve(&self, reference: &ItemRef) -> (r: RustItem)
        ensures
            r@ == resolve(self.items@, *reference),
    {
        match self.position(reference.full_name.as_str()) {
            Some(i) => self.items[i].copy(),
            None => {
                let r = RustItem {
                    full_name: reference.full_name.clone(),
                    simple_name: reference.simple_name.clone(),
                    package_name: reference.package_name.clone(),
                    kind: ItemKind::Other,
                    nesting: Nesting::TopLevel,
                    modifiers: Vec::new(),
                    annotations: Vec::new(),
                    implemented: Vec::new(),
                    source_location: String::new(),
                    dependencies: Vec::new(),
                    constructors: Vec::new(),
                    fields: Vec::new(),
                };
                proof {
                    assert(crate::text::views(r.annotations@) =~= Seq::<Seq<char>>::empty());
                    assert(crate::text::views(r.implemented@) =~= Seq::<Seq<char>>::empty());
                    assert(r.modifiers@ =~= Seq::<RustModifier>::empty());
                }
                r
            },
        }
    }

    /// The number of items.
    pub fn len(&self) -> (r: usize)
        ensures
            r == self.items@.len(),
    {
        self.items.len()
    }

    /// The dependencies of imported items on the item named `name`, in import order.
    pub fn dependencies_to(&self, name: &str) -> (r: Vec<Dependency>)
        ensures
            r@ == dependencies_to(self.items@, name@),
    {
        let mut r: Vec<Dependency> = Vec::new();
        let mut i: usize = 0;
        while i < self.items.len()
            invariant
                i <= self.items@.len(),
                r@ == dependencies_to(self.items@.take(i as int), name@),
            decreases self.items@.len() - i,
        {
            let deps = &self.items[i].dependencies;
            let mut j: usize = 0;
            while j < deps.len()
                invariant
                    i < self.items@.len(),
                    deps@ == self.items@[i as int].dependencies@,
                    j <= deps@.len(),
                    r@ == dependencies_to(self.items@.take(i as int), name@) + targeting(deps@.take(j as int), name@),
                decreases deps@.len() - j,
            {
                proof {
                    assert(deps@.take(j + 1).drop_last() =~= deps@.take(j as int));
                }
                if str_eq(deps[j].target.full_name.as_str(), name) {
                    r.push(deps[j].copy());
                }
                j += 1;
            }
            proof {
                assert(deps@.take(deps@.len() as int) =~= deps@);
                assert(self.items@.take(i + 1).drop_last() =~= self.items@.take(i as int));
            }
            i += 1;
        }
        proof {
            assert(self.items@.take(self.items@.len() as int) =~= self.items@);
        }
        r
    }
}

/// The dependencies among `deps` whose target is named `name`.
pub open spec fn targeting(deps: Seq<Dependency>, name: Seq<char>) -> Seq<Dependency>
    decreases deps.len(),
{
    if deps.len() == 0 {
        Seq::empty()
    } else {
        targeting(deps.drop_last(), name) + if deps.last().target.full_name@ == name {
            seq![deps.last()]
        } else {
            Seq::empty()
        }
    }
}

/// The dependencies of `items` on the item named `name`, in order.
pub open spec fn dependencies_to(items: Seq<RustItem>, name: Seq<char>) -> Seq<Dependency>
    decreases items.len(),
{
    if items.len() == 0 {
        Seq::empty()
    } else {
        dependencies_to(items.drop_last(), name) + targeting(items.last().dependencies@, name)
    }
}


/// The dependencies on an item named `name` are dependencies of the items: what holds of every
/// dependency of every item holds of them.
pub proof fn lemma_dependencies_to_among(items: Seq<RustItem>, name: Seq<char>, p: spec_fn(Dependency) -> bool)
    requires
        forall|i: int, j: int| 0 <= i < items.len() && 0 <= j < items[i].dependencies@.len() ==> p(#[trigger] items[i].dependencies@[j]),
    ensures
        forall|k: int| 0 <= k < dependencies_to(items, name).len() ==> p(#[trigger] dependencies_to(items, name)[k]),
    decreases items.len(),
{
    if items.len() > 0 {
        let rest = items.drop_last();
        assert forall|i: int, j: int| 0 <= i < rest.len() && 0 <= j < rest[i].dependencies@.len() implies p(#[trigger] rest[i].dependencies@[j]) by {
            assert(rest[i] == items[i]);
        }
        lemma_dependencies_to_among(rest, name, p);
        let last = items.last();
        assert(last == items[items.len() - 1]);
        lemma_targeting_among(last.dependencies@, name, p);
        let a = dependencies_to(rest, name);
        let b = targeting(last.dependencies@, name);
        let t = dependencies_to(items, name);
        assert forall|k: int| 0 <= k < t.len() implies p(#[trigger] t[k]) by {
            if k >= a.len() {
                assert(t[k] == b[k - a.len()]);
            } else {
                assert(t[k] == a[k]);
            }
        }
    }
}

/// The dependencies of `deps` on an item named `name` are among `deps`.
proof fn lemma_targeting_among(deps: Seq<Dependency>, name: Seq<char>, p: spec_fn(Dependency) -> bool)
    requires
        forall|j: int| 0 <= j < deps.len() ==> p(#[trigger] deps[j]),
    ensures
        forall|k: int| 0 <= k < targeting(deps, name).len() ==> p(#[trigger] targeting(deps, name)[k]),
    decreases deps.len(),
{
    if deps.len() > 0 {
        let rest = deps.drop_last();
        assert forall|j: int| 0 <= j < rest.len() implies p(#[trigger] rest[j]) by {
            assert(rest[j] == deps[j]);
        }
        lemma_targeting_among(rest, name, p);
        let a = targeting(rest, name);
        let t = targeting(deps, name);
        assert forall|k: int| 0 <= k < t.len() implies p(#[trigger] t[k]) by {
            if k >= a.len() {
                assert(t[k] == deps.last());
                assert(deps[deps.len() - 1] == deps.last());
            } else {
                assert(t[k] == a[k]);
            }
        }
    }
}

} // verus!
