//! Slices: partitions of the items by the capture groups of a package identifier or by an
//! assignment table, and rules about the dependencies between them.

pub mod cycles;
pub mod rules;

use vstd::prelude::*;
use vstd::string::*;

use crate::base::package_matcher::{spec_match, PackageMatcher};
use crate::domain::{find_item, same_item, ItemView, RustItem, RustItems};
use crate::order::{sort_unique, sorted_unique};
use crate::text::{cat, cat3, clone_strings, decimal, decimal_string, join, join_seq, quote, replace_all, replaced_from, single_quoted, str_eq, views};

verus! {

/// The identifier of the slice an item belongs to (`SliceIdentifier`); without parts it marks
/// items that belong to no slice.
#[derive(Debug)]
pub struct SliceIdentifier {
    /// The parts, e.g. the captured module names.
    pub parts: Vec<String>,
}

impl SliceIdentifier {
    /// An identifier made of `parts`.
    pub fn of(parts: &[&str]) -> (r: SliceIdentifier)
        requires
            parts@.len() > 0,
        ensures
            r.parts@.len() == parts@.len(),
            forall|i: int| 0 <= i < parts@.len() ==> #[trigger] r.parts@[i]@ == parts@[i]@,
    {
        SliceIdentifier { parts: crate::text::owned_strings(parts) }
    }

    /// An identifier made of the owned `parts`.
    pub fn of_parts(parts: Vec<String>) -> (r: SliceIdentifier)
        requires
            parts@.len() > 0,
        ensures
            r.parts == parts,
    {
        SliceIdentifier { parts }
    }

    /// The identifier of items that belong to no slice.
    pub fn ignore() -> (r: SliceIdentifier)
        ensures
            r.parts@.len() == 0,
    {
        SliceIdentifier { parts: Vec::new() }
    }

    /// The parts.
    pub fn parts(&self) -> (r: &[String])
        ensures
            r@ == self.parts@,
    {
        self.parts.as_slice()
    }

    /// Whether this identifier marks items that belong to no slice.
    pub fn is_ignore(&self) -> (r: bool)
        ensures
            r == (self.parts@.len() == 0),
    {
        self.parts.len() == 0
    }
}

/// An entry of an assignment table: the item of that full name belongs to that slice.
#[derive(Debug)]
pub struct SliceEntry {
    /// The full name of the item.
    pub full_name: String,
    /// Its slice.
    pub identifier: SliceIdentifier,
}

/// How items are assigned to slices (`SliceAssignment`).
#[derive(Debug)]
pub enum SliceAssignment {
    /// By the modules a package identifier captures in the item's module
    ///; items it does not match, or where it captures
    /// nothing, belong to no slice.
    Matching(PackageMatcher),
    /// By a table, described as the text; items not in it belong to no slice.
    Table(String, Vec<SliceEntry>),
}

/// The parts the first entry for `name` assigns, from position `from` on; none if there is
/// no entry.
pub open spec fn entry_parts(entries: Seq<SliceEntry>, name: Seq<char>, from: int) -> Seq<Seq<char>>
    decreases entries.len() - from,
{
    if from < 0 || from >= entries.len() {
        Seq::empty()
    } else if entries[from].full_name@ == name {
        views(entries[from].identifier.parts@)
    } else {
        entry_parts(entries, name, from + 1)
    }
}

impl SliceAssignment {
    /// A matcher inside is well formed.
    pub open spec fn wf(&self) -> bool {
        match self {
            SliceAssignment::Matching(m) => m.wf(),
            SliceAssignment::Table(_, _) => true,
        }
    }

    /// The identifier parts of the slice `item` belongs to; none if it belongs to none.
    pub open spec fn parts_for(&self, item: ItemView) -> Seq<Seq<char>> {
        match self {
            SliceAssignment::Matching(m) => match spec_match(m.identifier@, item.package_name) {
                Some(groups) => groups,
                None => Seq::empty(),
            },
            SliceAssignment::Table(_, entries) => entry_parts(entries@, item.full_name, 0),
        }
    }

    /// How the assignment reads in rule texts.
    pub open spec fn description_text(&self) -> Seq<char> {
        match self {
            SliceAssignment::Matching(m) => single_quoted(m.identifier@),
            SliceAssignment::Table(d, _) => d@,
        }
    }

    /// The slice `item` belongs to.
    pub fn identifier_of(&self, item: &RustItem) -> (r: SliceIdentifier)
        requires
            self.wf(),
        ensures
            views(r.parts@) == self.parts_for(item@),
    {
        match self {
            SliceAssignment::Matching(m) => match m.match_(item.package_name.as_str()) {
                Some(result) => SliceIdentifier { parts: result.groups },
                None => {
                    let r = SliceIdentifier::ignore();
                    proof {
                        assert(views(r.parts@) =~= Seq::<Seq<char>>::empty());
                    }
                    r
                },
            },
            SliceAssignment::Table(_, entries) => {
                let mut i: usize = 0;
                while i < entries.len()
                    invariant
                        i <= entries@.len(),
                        self.parts_for(item@) == entry_parts(entries@, item.full_name@, 0),
                        entry_parts(entries@, item.full_name@, 0) == entry_parts(entries@, item.full_name@, i as int),
                    decreases entries@.len() - i,
                {
                    if str_eq(entries[i].full_name.as_str(), item.full_name.as_str()) {
                        let parts = clone_strings(&entries[i].identifier.parts);
                        proof {
                            assert(entry_parts(entries@, item.full_name@, i as int) == views(entries@[i as int].identifier.parts@));
                            assert(views(parts@) =~= views(entries@[i as int].identifier.parts@));
                        }
                        return SliceIdentifier { parts };
                    }
                    i += 1;
                }
                let r = SliceIdentifier::ignore();
                proof {
                    assert(views(r.parts@) =~= Seq::<Seq<char>>::empty());
                }
                r
            },
        }
    }

    /// How the assignment reads in rule texts: the identifier in quotes, or the table's
    /// description.
    pub fn description(&self) -> (r: String)
        ensures
            r@ == self.description_text(),
    {
        match self {
            SliceAssignment::Matching(m) => quote(m.identifier.as_str()),
            SliceAssignment::Table(d, _) => d.clone(),
        }
    }

    /// A copy.
    pub fn copy(&self) -> (r: SliceAssignment)
        requires
            self.wf(),
        ensures
            r.wf(),
            forall|x: ItemView| r.parts_for(x) == self.parts_for(x),
            r.description_text() == self.description_text(),
    {
        match self {
            SliceAssignment::Matching(m) => SliceAssignment::Matching(PackageMatcher::of(m.identifier.as_str())),
            SliceAssignment::Table(d, entries) => {
                let mut copied: Vec<SliceEntry> = Vec::new();
                let mut i: usize = 0;
                while i < entries.len()
                    invariant
                        i <= entries@.len(),
                        copied@.len() == i,
                        forall|j: int| 0 <= j < i ==> (#[trigger] copied@[j]).full_name@ == entries@[j].full_name@
                            && views(copied@[j].identifier.parts@) == views(entries@[j].identifier.parts@),
                    decreases entries@.len() - i,
                {
                    copied.push(SliceEntry {
                        full_name: entries[i].full_name.clone(),
                        identifier: SliceIdentifier { parts: clone_strings(&entries[i].identifier.parts) },
                    });
                    i += 1;
                }
                let r = SliceAssignment::Table(d.clone(), copied);
                proof {
                    assert forall|x: ItemView| r.parts_for(x) == self.parts_for(x) by {
                        lemma_entry_parts_same(copied@, entries@, x.full_name, 0);
                    }
                }
                r
            },
        }
    }
}

proof fn lemma_entry_parts_same(a: Seq<SliceEntry>, b: Seq<SliceEntry>, name: Seq<char>, from: int)
    requires
        a.len() == b.len(),
        forall|j: int| 0 <= j < a.len() ==> (#[trigger] a[j]).full_name@ == b[j].full_name@
            && views(a[j].identifier.parts@) == views(b[j].identifier.parts@),
    ensures
        entry_parts(a, name, from) == entry_parts(b, name, from),
    decreases a.len() - from,
{
    if 0 <= from < a.len() {
        assert(a[from].full_name@ == b[from].full_name@);
        lemma_entry_parts_same(a, b, name, from + 1);
    }
}

/// Assigns items to slices by a table, described as `description` (`SliceAssignment` made
/// of a function: the table holds its result for the items).
pub fn slice_assignment(description: &str, entries: Vec<SliceEntry>) -> (r: SliceAssignment)
    ensures
        r.wf(),
        r.description_text() == description@,
        r matches SliceAssignment::Table(_, e) && e == entries,
{
    SliceAssignment::Table(String::from_str(description), entries)
}

/// The key that groups and orders slices: the parts joined by NUL, which orders them as their
/// parts compared one after the other (for parts without NUL).
pub open spec fn key_of(parts: Seq<Seq<char>>) -> Seq<char> {
    join_seq(parts, seq!['\0'])
}

/// `$<i>`.
pub open spec fn placeholder(i: nat) -> Seq<char> {
    seq!['$'] + decimal(i)
}

/// `Slice $1 - $2 - .. - $<n>`.
pub open spec fn default_pattern(n: nat) -> Seq<char> {
    "Slice "@ + join_seq(Seq::new(n, |i: int| placeholder((i + 1) as nat)), " - "@)
}

/// `pattern` with `$1` .. `$<i>` replaced by the parts, one after the other.
pub open spec fn described(pattern: Seq<char>, parts: Seq<Seq<char>>, i: nat) -> Seq<char>
    decreases i,
{
    if i == 0 {
        pattern
    } else {
        replaced_from(described(pattern, parts, (i - 1) as nat), placeholder(i), parts[i - 1], 0)
    }
}

/// A group of items that belong together (`Slice`), given by the full names of its members.
#[derive(Debug)]
pub struct Slice {
    /// The identifier.
    pub identifier: SliceIdentifier,
    /// The description with `$1`, `$2`, .. standing for the parts.
    pub description_pattern: String,
    /// The full names of the members, in import order.
    pub members: Vec<String>,
}

/// What rules read of a slice.
pub struct SliceView {
    pub parts: Seq<Seq<char>>,
    pub pattern: Seq<char>,
    pub members: Seq<Seq<char>>,
}

impl View for Slice {
    type V = SliceView;

    open spec fn view(&self) -> SliceView {
        SliceView { parts: views(self.identifier.parts@), pattern: self.description_pattern@, members: views(self.members@) }
    }
}

impl SliceView {
    /// The description: the pattern with the parts in place of `$1`, `$2`, ...
    pub open spec fn description(self) -> Seq<char> {
        described(self.pattern, self.parts, self.parts.len())
    }
}

/// `$<i>` (executable).
fn placeholder_of(i: usize) -> (r: String)
    ensures
        r@ == placeholder(i as nat),
{
    let number = decimal_string(i as u64);
    let r = cat("$", number.as_str());
    proof {
        reveal_strlit("$");
        assert("$"@ =~= seq!['$']);
    }
    r
}

/// `Slice $1 - .. - $<n>` (executable).
fn default_pattern_of(n: usize) -> (r: String)
    ensures
        r@ == default_pattern(n as nat),
{
    let mut placeholders: Vec<String> = Vec::new();
    let mut i: usize = 0;
    while i < n
        invariant
            i <= n,
            views(placeholders@) == Seq::new(i as nat, |j: int| placeholder((j + 1) as nat)),
        decreases n - i,
    {
        let ghost before = placeholders@;
        placeholders.push(placeholder_of(i + 1));
        proof {
            assert(views(placeholders@) =~= views(before).push(placeholder((i + 1) as nat)));
            assert(Seq::new((i + 1) as nat, |j: int| placeholder((j + 1) as nat)) =~= Seq::new(i as nat, |j: int| placeholder((j + 1) as nat)).push(placeholder((i + 1) as nat)));
        }
        i += 1;
    }
    let joined = join(&placeholders, " - ");
    cat("Slice ", joined.as_str())
}

/// `pattern` with `$1`, `$2`, .. replaced by the parts, one after the other.
pub fn fill_placeholders(pattern: &str, parts: &Vec<String>) -> (r: String)
    ensures
        r@ == described(pattern@, views(parts@), parts@.len()),
{
    let mut result = String::from_str(pattern);
    let mut i: usize = 0;
    while i < parts.len()
        invariant
            i <= parts@.len(),
            result@ == described(pattern@, views(parts@), i as nat),
        decreases parts@.len() - i,
    {
        let p = placeholder_of(i + 1);
        proof {
            assert(p@.len() > 0);
        }
        result = replace_all(result.as_str(), p.as_str(), parts[i].as_str());
        proof {
            assert(views(parts@)[i as int] == parts@[i as int]@);
        }
        i += 1;
    }
    result
}

/// The items of `items` named by `names`, in the order of the names; a name without an item
/// is left out.
pub open spec fn member_items(names: Seq<Seq<char>>, items: Seq<RustItem>) -> Seq<RustItem>
    decreases names.len(),
{
    if names.len() == 0 {
        Seq::empty()
    } else {
        let before = member_items(names.drop_last(), items);
        match find_item(items, names.last(), 0) {
            Some(k) => before.push(items[k]),
            None => before,
        }
    }
}

impl Slice {
    /// The description, e.g. `Slice one`.
    pub fn description(&self) -> (r: String)
        ensures
            r@ == self@.description(),
    {
        fill_placeholders(self.description_pattern.as_str(), &self.identifier.parts)
    }

    /// The identifier.
    pub fn identifier(&self) -> (r: &SliceIdentifier)
        ensures
            *r == self.identifier,
    {
        &self.identifier
    }

    /// The full names of the members.
    pub fn members(&self) -> (r: &Vec<String>)
        ensures
            *r == self.members,
    {
        &self.members
    }

    /// The members as items of `all`, in order; members not among them are left out.
    pub fn items(&self, all: &RustItems) -> (r: Vec<RustItem>)
        ensures
            r@.len() == member_items(views(self.members@), all.items@).len(),
            forall|j: int| 0 <= j < r@.len() ==> same_item(#[trigger] r@[j], member_items(views(self.members@), all.items@)[j]),
            r@.len() <= self.members@.len(),
            forall|j: int| 0 <= j < r@.len() ==> views(self.members@).contains(#[trigger] r@[j].full_name@),
    {
        let mut r: Vec<RustItem> = Vec::new();
        let mut i: usize = 0;
        while i < self.members.len()
            invariant
                i <= self.members@.len(),
                r@.len() <= i,
                forall|j: int| 0 <= j < r@.len() ==> views(self.members@).contains(#[trigger] r@[j].full_name@),
                r@.len() == member_items(views(self.members@).take(i as int), all.items@).len(),
                forall|j: int| 0 <= j < r@.len() ==> same_item(#[trigger] r@[j], member_items(views(self.members@).take(i as int), all.items@)[j]),
            decreases self.members@.len() - i,
        {
            let ghost names = views(self.members@);
            proof {
                assert(names.take(i + 1).drop_last() =~= names.take(i as int));
                assert(names.take(i + 1).last() == self.members@[i as int]@);
            }
            let ghost before = r@;
            match all.position(self.members[i].as_str()) {
                Some(k) => {
                    proof {
                        crate::lang::transitive::lemma_find_item(all.items@, self.members@[i as int]@, 0);
                    }
                    let item = all.items[k].copy();
                    proof {
                        assert(views(self.members@)[i as int] == item.full_name@);
                    }
                    r.push(item);
                    proof {
                        assert forall|j: int| 0 <= j < r@.len() implies same_item(#[trigger] r@[j], member_items(names.take(i + 1), all.items@)[j]) by {
                            if j < before.len() {
                                assert(r@[j] == before[j]);
                            }
                        }
                    }
                },
                None => {
                    proof {
                        assert forall|j: int| 0 <= j < r@.len() implies same_item(#[trigger] r@[j], member_items(names.take(i + 1), all.items@)[j]) by {
                            assert(r@[j] == before[j]);
                        }
                    }
                },
            }
            i += 1;
        }
        proof {
            assert(views(self.members@).take(self.members@.len() as int) =~= views(self.members@));
        }
        r
    }

    /// The number of members.
    pub fn len(&self) -> (r: usize)
        ensures
            r == self.members@.len(),
    {
        self.members.len()
    }

    /// Whether the slice has no members.
    pub fn is_empty(&self) -> (r: bool)
        ensures
            r == (self.members@.len() == 0),
    {
        self.members.len() == 0
    }

    /// Whether the item named `full_name` is a member (`contains(..)`).
    pub fn contains(&self, full_name: &str) -> (r: bool)
        ensures
            r == views(self.members@).contains(full_name@),
    {
        let r = crate::domain::contains_string(&self.members, full_name);
        proof {
            crate::base::predicates::lemma_has_string_contains(self.members@, full_name@);
        }
        r
    }

    /// The `index`-th part of the identifier, counting from 1.
    pub fn name_part(&self, index: usize) -> (r: &str)
        requires
            0 < index <= self.identifier.parts@.len(),
        ensures
            r@ == self@.parts[index - 1],
    {
        self.identifier.parts[index - 1].as_str()
    }

    /// The same slice described by `pattern`, with `$1`, `$2`, .. standing for the parts
    /// (`as(pattern)`).
    pub fn as_(&self, pattern: &str) -> (r: Slice)
        ensures
            r@ == (SliceView { pattern: pattern@, ..self@ }),
    {
        Slice {
            identifier: SliceIdentifier { parts: clone_strings(&self.identifier.parts) },
            description_pattern: String::from_str(pattern),
            members: clone_strings(&self.members),
        }
    }

    /// A copy.
    pub fn copy(&self) -> (r: Slice)
        ensures
            r@ == self@,
    {
        Slice {
            identifier: SliceIdentifier { parts: clone_strings(&self.identifier.parts) },
            description_pattern: self.description_pattern.clone(),
            members: clone_strings(&self.members),
        }
    }
}

/// The keys of the items of `xs` that belong to a slice, in order.
pub open spec fn assigned_keys(a: SliceAssignment, xs: Seq<ItemView>) -> Seq<Seq<char>>
    decreases xs.len(),
{
    if xs.len() == 0 {
        Seq::empty()
    } else {
        assigned_keys(a, xs.drop_last()) + if a.parts_for(xs.last()).len() > 0 {
            seq![key_of(a.parts_for(xs.last()))]
        } else {
            Seq::empty()
        }
    }
}

/// The full names of the items of `xs` in the slice of key `k`, in order.
pub open spec fn members_with(a: SliceAssignment, xs: Seq<ItemView>, k: Seq<char>) -> Seq<Seq<char>>
    decreases xs.len(),
{
    if xs.len() == 0 {
        Seq::empty()
    } else {
        members_with(a, xs.drop_last(), k) + if a.parts_for(xs.last()).len() > 0 && key_of(a.parts_for(xs.last())) == k {
            seq![xs.last().full_name]
        } else {
            Seq::empty()
        }
    }
}

/// The parts of the first item of `xs` in the slice of key `k`.
pub open spec fn parts_with(a: SliceAssignment, xs: Seq<ItemView>, k: Seq<char>) -> Seq<Seq<char>>
    decreases xs.len(),
{
    if xs.len() == 0 {
        Seq::empty()
    } else if members_with(a, xs.drop_last(), k).len() > 0 {
        parts_with(a, xs.drop_last(), k)
    } else {
        a.parts_for(xs.last())
    }
}

/// The slices of `xs`: one per key, in increasing order of keys, each described by `pattern`
/// or else by `Slice $1 - .. - $<n>`.
pub open spec fn slices_of(a: SliceAssignment, xs: Seq<ItemView>, pattern: Option<Seq<char>>) -> Seq<SliceView> {
    sort_unique(assigned_keys(a, xs)).map_values(|k: Seq<char>| SliceView {
        parts: parts_with(a, xs, k),
        pattern: match pattern {
            Some(p) => p,
            None => default_pattern(parts_with(a, xs, k).len()),
        },
        members: members_with(a, xs, k),
    })
}

/// The views of slices.
pub open spec fn slice_views(v: Seq<Slice>) -> Seq<SliceView> {
    v.map_values(|s: Slice| s@)
}

/// A described collection of slices (`Slices`).
#[derive(Debug)]
pub struct Slices {
    /// The slices.
    pub slices: Vec<Slice>,
    /// The description.
    pub description: String,
}

impl Slices {
    /// Slices by the capture groups of a package identifier, e.g. `..my_app::(*)..`;
    /// described as `slices matching '<identifier>'`.
    pub fn matching(package_identifier: &str) -> (r: SlicesTransformer)
        ensures
            r.wf(),
            r.assignment matches SliceAssignment::Matching(m) && m.identifier@ == package_identifier@,
            r.description@ == "slices matching "@ + single_quoted(package_identifier@),
            r.naming_pattern is None,
    {
        let matcher = PackageMatcher::of(package_identifier);
        let assignment = SliceAssignment::Matching(matcher);
        let description = cat("slices matching ", assignment.description().as_str());
        SlicesTransformer { assignment, description, naming_pattern: None }
    }

    /// Slices by an assignment; described as `slices assigned from <description>`.
    pub fn assigned_from(assignment: SliceAssignment) -> (r: SlicesTransformer)
        requires
            assignment.wf(),
        ensures
            r.wf(),
            r.assignment == assignment,
            r.description@ == "slices assigned from "@ + assignment.description_text(),
            r.naming_pattern is None,
    {
        let description = cat("slices assigned from ", assignment.description().as_str());
        SlicesTransformer { assignment, description, naming_pattern: None }
    }

    /// The slices.
    pub fn iter(&self) -> (r: &[Slice])
        ensures
            r@ == self.slices@,
    {
        self.slices.as_slice()
    }

    /// The number of slices.
    pub fn len(&self) -> (r: usize)
        ensures
            r == self.slices@.len(),
    {
        self.slices.len()
    }

    /// Whether there are no slices.
    pub fn is_empty(&self) -> (r: bool)
        ensures
            r == (self.slices@.len() == 0),
    {
        self.slices.len() == 0
    }

    /// Copies of the slices.
    pub fn to_vec(&self) -> (r: Vec<Slice>)
        ensures
            slice_views(r@) == slice_views(self.slices@),
    {
        let mut r: Vec<Slice> = Vec::new();
        let mut i: usize = 0;
        while i < self.slices.len()
            invariant
                i <= self.slices@.len(),
                slice_views(r@) == slice_views(self.slices@.take(i as int)),
            decreases self.slices@.len() - i,
        {
            r.push(self.slices[i].copy());
            proof {
                assert(slice_views(self.slices@.take(i + 1)) =~= slice_views(self.slices@.take(i as int)).push(self.slices@[i as int]@));
                assert(slice_views(r@) =~= slice_views(self.slices@.take(i + 1)));
            }
            i += 1;
        }
        proof {
            assert(self.slices@.take(self.slices@.len() as int) =~= self.slices@);
        }
        r
    }

    /// The same slices under another description (`as(..)`).
    pub fn as_(&self, description: &str) -> (r: Slices)
        ensures
            slice_views(r.slices@) == slice_views(self.slices@),
            r.description@ == description@,
    {
        Slices { slices: self.to_vec(), description: String::from_str(description) }
    }

    /// Every slice described by `pattern`, see [`Slice::as_`].
    pub fn naming_slices(&self, pattern: &str) -> (r: Slices)
        ensures
            r.slices@.len() == self.slices@.len(),
            forall|i: int| 0 <= i < r.slices@.len() ==> (#[trigger] r.slices@[i])@ == (SliceView { pattern: pattern@, ..self.slices@[i]@ }),
            r.description == self.description,
    {
        let mut v: Vec<Slice> = Vec::new();
        let mut i: usize = 0;
        while i < self.slices.len()
            invariant
                i <= self.slices@.len(),
                v@.len() == i,
                forall|j: int| 0 <= j < i ==> (#[trigger] v@[j])@ == (SliceView { pattern: pattern@, ..self.slices@[j]@ }),
            decreases self.slices@.len() - i,
        {
            v.push(self.slices[i].as_(pattern));
            i += 1;
        }
        Slices { slices: v, description: self.description.clone() }
    }
}

/// Turns items into slices.
#[derive(Debug)]
pub struct SlicesTransformer {
    /// How items are assigned to slices.
    pub assignment: SliceAssignment,
    /// The description, e.g. `slices matching '..app::(*)..'`.
    pub description: String,
    /// The pattern the slices are described by, if not the default one.
    pub naming_pattern: Option<String>,
}

/// The view of an optional text.
pub open spec fn opt_text(o: Option<String>) -> Option<Seq<char>> {
    match o {
        Some(s) => Some(s@),
        None => None,
    }
}

/// The views of items.
pub open spec fn item_views(v: Seq<RustItem>) -> Seq<ItemView> {
    v.map_values(|x: RustItem| x@)
}

impl SlicesTransformer {
    /// The assignment is well formed.
    pub open spec fn wf(&self) -> bool {
        self.assignment.wf()
    }

    /// Describes the slices by `pattern`.
    pub fn naming_slices(self, pattern: &str) -> (r: SlicesTransformer)
        ensures
            r.assignment == self.assignment,
            r.description == self.description,
            opt_text(r.naming_pattern) == Some(pattern@),
    {
        SlicesTransformer { naming_pattern: Some(String::from_str(pattern)), ..self }
    }

    /// Overrides the description (`as(..)`).
    pub fn as_(self, description: &str) -> (r: SlicesTransformer)
        ensures
            r.assignment == self.assignment,
            r.description@ == description@,
            r.naming_pattern == self.naming_pattern,
    {
        SlicesTransformer { description: String::from_str(description), ..self }
    }

    /// The description.
    pub fn description(&self) -> (r: &str)
        ensures
            r@ == self.description@,
    {
        self.description.as_str()
    }

    /// A copy.
    pub fn copy(&self) -> (r: SlicesTransformer)
        requires
            self.wf(),
        ensures
            r.wf(),
            forall|x: ItemView| r.assignment.parts_for(x) == self.assignment.parts_for(x),
            r.description == self.description,
            opt_text(r.naming_pattern) == opt_text(self.naming_pattern),
    {
        let naming_pattern = match &self.naming_pattern {
            Some(p) => Some(p.clone()),
            None => None,
        };
        SlicesTransformer { assignment: self.assignment.copy(), description: self.description.clone(), naming_pattern }
    }

    /// The slices of the items `xs` (`transform(..)`), described as this transformer.
    pub fn transform(&self, xs: &Vec<RustItem>) -> (r: Slices)
        requires
            self.wf(),
        ensures
            slice_views(r.slices@) == slices_of(self.assignment, item_views(xs@), opt_text(self.naming_pattern)),
            r.description == self.description,
    {
        let ghost ys = item_views(xs@);
        let a = &self.assignment;
        // the identifier and key of each item
        let mut ids: Vec<SliceIdentifier> = Vec::new();
        let mut keys: Vec<String> = Vec::new();
        let mut all_keys: Vec<String> = Vec::new();
        let mut i: usize = 0;
        while i < xs.len()
            invariant
                i <= xs@.len(),
                ys == item_views(xs@),
                self.wf(),
                *a == self.assignment,
                ids@.len() == i,
                all_keys@.len() == i,
                forall|j: int| 0 <= j < i ==> views((#[trigger] ids@[j]).parts@) == a.parts_for(ys[j]),
                forall|j: int| 0 <= j < i ==> (#[trigger] all_keys@[j])@ == key_of(a.parts_for(ys[j])),
                views(keys@) == assigned_keys(*a, ys.take(i as int)),
            decreases xs@.len() - i,
        {
            let id = a.identifier_of(&xs[i]);
            let key = join(&id.parts, "\0");
            proof {
                reveal_strlit("\0");
                assert("\0"@ =~= seq!['\0']);
                assert(ys.take(i + 1).drop_last() =~= ys.take(i as int));
                assert(ys.take(i + 1).last() == ys[i as int]);
                assert(ys[i as int] == xs@[i as int]@);
            }
            if id.parts.len() > 0 {
                let ghost before = keys@;
                keys.push(key.clone());
                proof {
                    assert(views(keys@) =~= views(before).push(key@));
                }
            } else {
                proof {
                    assert(views(keys@) =~= views(keys@) + Seq::<Seq<char>>::empty());
                }
            }
            all_keys.push(key);
            ids.push(id);
            i += 1;
        }
        proof {
            assert(ys.take(xs@.len() as int) =~= ys);
        }
        let sorted = sorted_unique(&keys);
        let ghost sk = views(sorted@);
        let mut result: Vec<Slice> = Vec::new();
        let mut m: usize = 0;
        while m < sorted.len()
            invariant
                m <= sorted@.len(),
                ys == item_views(xs@),
                *a == self.assignment,
                sk == views(sorted@),
                sk == sort_unique(assigned_keys(*a, ys)),
                sk.to_set() == views(keys@).to_set(),
                views(keys@) == assigned_keys(*a, ys),
                ids@.len() == xs@.len(),
                all_keys@.len() == xs@.len(),
                forall|j: int| 0 <= j < xs@.len() ==> views((#[trigger] ids@[j]).parts@) == a.parts_for(ys[j]),
                forall|j: int| 0 <= j < xs@.len() ==> (#[trigger] all_keys@[j])@ == key_of(a.parts_for(ys[j])),
                slice_views(result@) == slices_of(*a, ys, opt_text(self.naming_pattern)).take(m as int),
            decreases sorted@.len() - m,
        {
            let k = &sorted[m];
            let mut members: Vec<String> = Vec::new();
            let mut parts: Vec<String> = Vec::new();
            let mut found = false;
            let mut j: usize = 0;
            while j < xs.len()
                invariant
                    j <= xs@.len(),
                    ys == item_views(xs@),
                    ids@.len() == xs@.len(),
                    all_keys@.len() == xs@.len(),
                    forall|q: int| 0 <= q < xs@.len() ==> views((#[trigger] ids@[q]).parts@) == a.parts_for(ys[q]),
                    forall|q: int| 0 <= q < xs@.len() ==> (#[trigger] all_keys@[q])@ == key_of(a.parts_for(ys[q])),
                    views(members@) == members_with(*a, ys.take(j as int), k@),
                    found == (members@.len() > 0),
                    found ==> views(parts@) == parts_with(*a, ys.take(j as int), k@),
                decreases xs@.len() - j,
            {
                proof {
                    assert(ys.take(j + 1).drop_last() =~= ys.take(j as int));
                    assert(ys.take(j + 1).last() == ys[j as int]);
                }
                if ids[j].parts.len() > 0 && str_eq(all_keys[j].as_str(), k.as_str()) {
                    let ghost before = members@;
                    members.push(xs[j].full_name.clone());
                    if !found {
                        parts = clone_strings(&ids[j].parts);
                        found = true;
                    }
                    proof {
                        assert(views(members@) =~= views(before).push(ys[j as int].full_name));
                    }
                } else {
                    proof {
                        assert(views(members@) =~= views(members@) + Seq::<Seq<char>>::empty());
                    }
                }
                j += 1;
            }
            proof {
                assert(ys.take(xs@.len() as int) =~= ys);
                // every key comes from some item, so the slice has members
                assert(sk.to_set().contains(sk[m as int]));
                assert(views(keys@).to_set().contains(sk[m as int]));
                lemma_key_has_member(*a, ys, sk[m as int]);
            }
            let pattern = match &self.naming_pattern {
                Some(p) => p.clone(),
                None => default_pattern_of(parts.len()),
            };
            let slice = Slice { identifier: SliceIdentifier { parts }, description_pattern: pattern, members };
            let ghost before = result@;
            result.push(slice);
            proof {
                assert(sk[m as int] == sorted@[m as int]@);
                assert(slice_views(result@) =~= slice_views(before).push(slice@));
                assert(slices_of(*a, ys, opt_text(self.naming_pattern)).take(m + 1) =~= slices_of(*a, ys, opt_text(self.naming_pattern)).take(m as int).push(slice@));
            }
            m += 1;
        }
        proof {
            assert(slices_of(*a, ys, opt_text(self.naming_pattern)).take(sorted@.len() as int) =~= slices_of(*a, ys, opt_text(self.naming_pattern)));
        }
        Slices { slices: result, description: self.description.clone() }
    }

    /// The slices of the imported items (`of(..)`).
    pub fn of(&self, items: &RustItems) -> (r: Slices)
        requires
            self.wf(),
        ensures
            slice_views(r.slices@) == slices_of(self.assignment, item_views(items.items@), opt_text(self.naming_pattern)),
            r.description == self.description,
    {
        self.transform(&items.items)
    }
}

/// A key in the assigned keys belongs to some item, which is then a member of its slice.
proof fn lemma_key_has_member(a: SliceAssignment, xs: Seq<ItemView>, k: Seq<char>)
    requires
        assigned_keys(a, xs).contains(k),
    ensures
        members_with(a, xs, k).len() > 0,
    decreases xs.len(),
{
    let before = assigned_keys(a, xs.drop_last());
    let i = choose|i: int| 0 <= i < assigned_keys(a, xs).len() && assigned_keys(a, xs)[i] == k;
    if i < before.len() {
        assert(before[i] == k);
        lemma_key_has_member(a, xs.drop_last(), k);
    }
}

} // verus!
