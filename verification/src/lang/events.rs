//! Events produced by checking a condition against objects (`ConditionEvent`), and their
//! collection (`ConditionEvents`).
//!
//! An event is kept together with its inversion, each as a plain face: whether it is a
//! violation, the lines it reports and what it hands to violation handlers. Inverting swaps
//! the two faces, so a composite event (`and`, `or`, `contain any`, `contain only`) is
//! inverted exactly as its parts would be.

use vstd::prelude::*;
use vstd::string::*;

use crate::domain::{item_description, Dependency, ItemRef, RustItem};
use crate::order::{sort_unique, sorted_unique};
use crate::text::{cat, decimal, join, join_seq, views};

verus! {

/// The object an event is about.
#[derive(Debug)]
pub enum CorrespondingObject {
    /// An item.
    Item(ItemRef),
    /// A dependency.
    Dependency(Dependency),
    /// A number, e.g. of checked items.
    Count(usize),
    /// Any other value, given by its description (a slice, a cycle, ...).
    Other(String),
}

impl CorrespondingObject {
    /// Wraps another value, given by its description.
    pub fn other(value: String) -> (r: CorrespondingObject)
        ensures
            r == CorrespondingObject::Other(value),
    {
        CorrespondingObject::Other(value)
    }

    /// The description of an [`Other`](Self::Other) value.
    pub fn downcast_ref(&self) -> (r: Option<&String>)
        ensures
            match *self {
                CorrespondingObject::Other(v) => r == Some(&v),
                _ => r is None,
            },
    {
        match self {
            CorrespondingObject::Other(v) => Some(v),
            _ => None,
        }
    }

    /// A copy.
    pub fn copy(&self) -> (r: CorrespondingObject)
        ensures
            r == *self,
    {
        match self {
            CorrespondingObject::Item(i) => CorrespondingObject::Item(i.copy()),
            CorrespondingObject::Dependency(d) => CorrespondingObject::Dependency(d.copy()),
            CorrespondingObject::Count(n) => CorrespondingObject::Count(*n),
            CorrespondingObject::Other(t) => CorrespondingObject::Other(t.clone()),
        }
    }
}

/// Copies of the objects.
pub fn copy_objects(v: &Vec<CorrespondingObject>) -> (r: Vec<CorrespondingObject>)
    ensures
        r@ == v@,
{
    let mut r: Vec<CorrespondingObject> = Vec::new();
    let mut i: usize = 0;
    while i < v.len()
        invariant
            i <= v@.len(),
            r@ == v@.take(i as int),
        decreases v@.len() - i,
    {
        r.push(v[i].copy());
        proof {
            assert(v@.take(i + 1) == v@.take(i as int).push(v@[i as int]));
        }
        i += 1;
    }
    proof {
        assert(v@.take(v@.len() as int) =~= v@);
    }
    r
}

/// `<object description> <message> in <location>`.
pub open spec fn message_text(item: RustItem, message: Seq<char>) -> Seq<char> {
    item_description(item.full_name@) + " "@ + message + " in "@ + item.source_location@
}

/// Builds the standard message `<object description> <message> in <location>`.
pub fn create_message(item: &RustItem, message: &str) -> (r: String)
    ensures
        r@ == message_text(*item, message@),
{
    let mut r = item.description();
    r.append(" ");
    r.append(message);
    r.append(" in ");
    r.append(item.source_location.as_str());
    r
}

/// What a violation handler receives for one violation: the objects and the message.
#[derive(Debug)]
pub struct Handled {
    /// The objects the violation is about.
    pub objects: Vec<CorrespondingObject>,
    /// The message.
    pub message: String,
}

/// The spec form of [`Handled`].
pub struct HandledView {
    pub objects: Seq<CorrespondingObject>,
    pub message: Seq<char>,
}

impl View for Handled {
    type V = HandledView;

    open spec fn view(&self) -> HandledView {
        HandledView { objects: self.objects@, message: self.message@ }
    }
}

impl Handled {
    /// A copy.
    pub fn copy(&self) -> (r: Handled)
        ensures
            r@ == self@,
    {
        Handled { objects: copy_objects(&self.objects), message: self.message.clone() }
    }
}

/// The views of handled violations.
pub open spec fn handled_views(v: Seq<Handled>) -> Seq<HandledView> {
    v.map_values(|h: Handled| h@)
}

/// Copies of handled violations.
pub fn copy_handled(v: &Vec<Handled>) -> (r: Vec<Handled>)
    ensures
        handled_views(r@) == handled_views(v@),
{
    let mut r: Vec<Handled> = Vec::new();
    let mut i: usize = 0;
    while i < v.len()
        invariant
            i <= v@.len(),
            handled_views(r@) == handled_views(v@.take(i as int)),
        decreases v@.len() - i,
    {
        r.push(v[i].copy());
        proof {
            assert(handled_views(v@.take(i + 1)) =~= handled_views(v@.take(i as int)).push(v@[i as int]@));
            assert(handled_views(r@) =~= handled_views(v@.take(i + 1)));
        }
        i += 1;
    }
    proof {
        assert(v@.take(v@.len() as int) =~= v@);
    }
    r
}

/// One side of an event: whether it is a violation, the lines it reports and what it hands
/// to violation handlers.
#[derive(Debug)]
pub struct EventFace {
    /// Whether the condition was violated.
    pub violation: bool,
    /// The lines reported for the event.
    pub lines: Vec<String>,
    /// What violation handlers receive.
    pub handled: Vec<Handled>,
}

/// The spec form of [`EventFace`].
pub struct FaceView {
    pub violation: bool,
    pub lines: Seq<Seq<char>>,
    pub handled: Seq<HandledView>,
}

impl View for EventFace {
    type V = FaceView;

    open spec fn view(&self) -> FaceView {
        FaceView { violation: self.violation, lines: views(self.lines@), handled: handled_views(self.handled@) }
    }
}

impl EventFace {
    /// A copy.
    pub fn copy(&self) -> (r: EventFace)
        ensures
            r@ == self@,
    {
        EventFace { violation: self.violation, lines: self.lines.clone(), handled: copy_handled(&self.handled) }
    }
}

/// An event produced by checking a condition against one object (`ConditionEvent`), with
/// its inversion.
#[derive(Debug)]
pub struct ConditionEvent {
    /// The event.
    pub face: EventFace,
    /// Its inversion.
    pub inverse: EventFace,
}

/// The spec form of [`ConditionEvent`]: the event and its inversion.
pub struct EventView {
    pub face: FaceView,
    pub inverse: FaceView,
}

impl View for ConditionEvent {
    type V = EventView;

    open spec fn view(&self) -> EventView {
        EventView { face: self.face@, inverse: self.inverse@ }
    }
}

impl EventView {
    /// The event with satisfied and violated swapped.
    pub open spec fn inverted(self) -> EventView {
        EventView { face: self.inverse, inverse: self.face }
    }
}

/// The face of a single event about `object` with `message`.
pub open spec fn simple_face(object: CorrespondingObject, violation: bool, message: Seq<char>) -> FaceView {
    FaceView {
        violation,
        lines: seq![message],
        handled: seq![HandledView { objects: seq![object], message }],
    }
}

/// The single event about `object` with `message`, satisfied or not.
pub open spec fn single_event(object: CorrespondingObject, satisfied: bool, message: Seq<char>) -> EventView {
    EventView { face: simple_face(object, !satisfied, message), inverse: simple_face(object, satisfied, message) }
}

/// The views of events.
pub open spec fn event_views(v: Seq<ConditionEvent>) -> Seq<EventView> {
    v.map_values(|e: ConditionEvent| e@)
}

/// The lines of the faces of `evs`, one event after the other.
pub open spec fn face_lines(evs: Seq<EventView>) -> Seq<Seq<char>>
    decreases evs.len(),
{
    if evs.len() == 0 {
        Seq::empty()
    } else {
        face_lines(evs.drop_last()) + evs.last().face.lines
    }
}

/// What the faces of `evs` hand to violation handlers, one event after the other.
pub open spec fn face_handled(evs: Seq<EventView>) -> Seq<HandledView>
    decreases evs.len(),
{
    if evs.len() == 0 {
        Seq::empty()
    } else {
        face_handled(evs.drop_last()) + evs.last().face.handled
    }
}

/// The face of `contain any element that ..`: violated when no element satisfied the
/// condition; reports the violations joined into one line.
pub open spec fn any_face(objects: Seq<CorrespondingObject>, allowed: Seq<EventView>, violating: Seq<EventView>) -> FaceView {
    let text = join_seq(face_lines(violating), "\n"@);
    FaceView {
        violation: allowed.len() == 0,
        lines: seq![text],
        handled: seq![HandledView { objects, message: text }],
    }
}

/// The face of `contain only elements that ..`: violated when some element violated the
/// condition; reports the lines of those violations.
pub open spec fn only_face(violating: Seq<EventView>) -> FaceView {
    FaceView { violation: violating.len() > 0, lines: face_lines(violating), handled: face_handled(violating) }
}

/// The face of `e`, or of its inversion when `inverse`.
pub open spec fn side(e: EventView, inverse: bool) -> FaceView {
    if inverse { e.inverse } else { e.face }
}

/// Some event of `evs` is a violation (on the chosen side).
pub open spec fn has_violation(evs: Seq<EventView>, inverse: bool) -> bool {
    exists|j: int| 0 <= j < evs.len() && (#[trigger] side(evs[j], inverse)).violation
}

/// The lines of the violations among `evs` (on the chosen side).
pub open spec fn violation_lines(evs: Seq<EventView>, inverse: bool) -> Seq<Seq<char>>
    decreases evs.len(),
{
    if evs.len() == 0 {
        Seq::empty()
    } else {
        violation_lines(evs.drop_last(), inverse) + if side(evs.last(), inverse).violation {
            side(evs.last(), inverse).lines
        } else {
            Seq::empty()
        }
    }
}

/// What the violations among `evs` hand to violation handlers (on the chosen side).
pub open spec fn violation_handled(evs: Seq<EventView>, inverse: bool) -> Seq<HandledView>
    decreases evs.len(),
{
    if evs.len() == 0 {
        Seq::empty()
    } else {
        violation_handled(evs.drop_last(), inverse) + if side(evs.last(), inverse).violation {
            side(evs.last(), inverse).handled
        } else {
            Seq::empty()
        }
    }
}

/// The lines of the violations of all evaluated conditions.
pub open spec fn joined_lines(evals: Seq<Seq<EventView>>, inverse: bool) -> Seq<Seq<char>>
    decreases evals.len(),
{
    if evals.len() == 0 {
        Seq::empty()
    } else {
        joined_lines(evals.drop_last(), inverse) + violation_lines(evals.last(), inverse)
    }
}

/// What the violations of all evaluated conditions hand to violation handlers.
pub open spec fn joined_handled(evals: Seq<Seq<EventView>>, inverse: bool) -> Seq<HandledView>
    decreases evals.len(),
{
    if evals.len() == 0 {
        Seq::empty()
    } else {
        joined_handled(evals.drop_last(), inverse) + violation_handled(evals.last(), inverse)
    }
}

/// The face of the conjunction of the evaluated conditions (on the chosen side): violated
/// when one of them has a violation; reports the distinct violation lines in order.
pub open spec fn and_face(evals: Seq<Seq<EventView>>, inverse: bool) -> FaceView {
    FaceView {
        violation: exists|i: int| 0 <= i < evals.len() && has_violation(#[trigger] evals[i], inverse),
        lines: sort_unique(joined_lines(evals, inverse)),
        handled: joined_handled(evals, inverse),
    }
}

/// The face of the disjunction of the evaluated conditions about `object` (on the chosen
/// side): violated when each of them has a violation; reports the distinct violation lines
/// in order, joined by ` and `, as one line.
pub open spec fn or_face(object: CorrespondingObject, evals: Seq<Seq<EventView>>, inverse: bool) -> FaceView {
    simple_face(
        object,
        forall|i: int| 0 <= i < evals.len() ==> has_violation(#[trigger] evals[i], inverse),
        join_seq(sort_unique(joined_lines(evals, inverse)), " and "@),
    )
}

/// The line `message` as a string.
pub fn one_line(message: &String) -> (r: Vec<String>)
    ensures
        r@ == seq![*message],
{
    let mut r: Vec<String> = Vec::new();
    r.push(message.clone());
    r
}

/// The violation `message` about `objects`.
fn one_handled(objects: Vec<CorrespondingObject>, message: String) -> (r: Vec<Handled>)
    ensures
        handled_views(r@) == seq![HandledView { objects: objects@, message: message@ }],
{
    let mut r: Vec<Handled> = Vec::new();
    r.push(Handled { objects, message });
    proof {
        assert(handled_views(r@) =~= seq![HandledView { objects: objects@, message: message@ }]);
    }
    r
}

/// The face of a single event.
fn simple_face_of(object: &CorrespondingObject, violation: bool, message: &String) -> (r: EventFace)
    ensures
        r@ == simple_face(*object, violation, message@),
{
    let mut objects: Vec<CorrespondingObject> = Vec::new();
    objects.push(object.copy());
    let lines = one_line(message);
    proof {
        assert(objects@ =~= seq![*object]);
        assert(views(lines@) =~= seq![message@]);
    }
    EventFace { violation, lines, handled: one_handled(objects, message.clone()) }
}

/// A single satisfied or violated event with one message (`SimpleConditionEvent`).
#[derive(Debug)]
pub struct SimpleConditionEvent {
    /// The object the event is about.
    pub object: CorrespondingObject,
    /// Whether the condition was satisfied.
    pub satisfied: bool,
    /// The message.
    pub message: String,
}

/// Whether `c` is white space (`char::is_whitespace`).
pub open spec fn is_white(c: char) -> bool {
    c == ' ' || ('\u{9}' <= c && c <= '\u{d}') || c == '\u{85}' || c == '\u{a0}' || c == '\u{1680}'
        || ('\u{2000}' <= c && c <= '\u{200a}') || c == '\u{2028}' || c == '\u{2029}' || c == '\u{202f}'
        || c == '\u{205f}' || c == '\u{3000}'
}

/// The text is empty once white space is trimmed.
pub open spec fn is_blank(s: Seq<char>) -> bool {
    forall|i: int| 0 <= i < s.len() ==> is_white(#[trigger] s[i])
}

impl SimpleConditionEvent {
    /// Creates an event. A violation needs a message that is not blank.
    pub fn new(object: CorrespondingObject, satisfied: bool, message: String) -> (r: SimpleConditionEvent)
        requires
            satisfied || !is_blank(message@),
        ensures
            r.object == object,
            r.satisfied == satisfied,
            r.message == message,
    {
        SimpleConditionEvent { object, satisfied, message }
    }

    /// A violated event.
    pub fn violated(object: CorrespondingObject, message: String) -> (r: SimpleConditionEvent)
        requires
            !is_blank(message@),
        ensures
            r.object == object,
            !r.satisfied,
            r.message == message,
    {
        Self::new(object, false, message)
    }

    /// A satisfied event.
    pub fn satisfied(object: CorrespondingObject, message: String) -> (r: SimpleConditionEvent)
        ensures
            r.object == object,
            r.satisfied,
            r.message == message,
    {
        Self::new(object, true, message)
    }

    /// The object the event is about.
    pub open spec fn object(&self) -> CorrespondingObject {
        self.object
    }

    /// Whether the condition was satisfied.
    pub open spec fn is_satisfied(&self) -> bool {
        self.satisfied
    }

    /// The message.
    pub open spec fn text(&self) -> Seq<char> {
        self.message@
    }

    /// The message.
    pub fn message(&self) -> (r: &str)
        ensures
            r@ == self.message@,
    {
        self.message.as_str()
    }

    /// The object the event is about.
    pub fn corresponding_object(&self) -> (r: &CorrespondingObject)
        ensures
            *r == self.object,
    {
        &self.object
    }

    /// The event as a [`ConditionEvent`].
    pub open spec fn event_view(&self) -> EventView {
        single_event(self.object, self.satisfied, self.message@)
    }

    /// The event as a [`ConditionEvent`].
    pub fn into_event(self) -> (r: ConditionEvent)
        ensures
            r@ == self.event_view(),
    {
        let face = simple_face_of(&self.object, !self.satisfied, &self.message);
        let inverse = simple_face_of(&self.object, self.satisfied, &self.message);
        ConditionEvent { face, inverse }
    }
}

/// The lines of the faces of `evs`.
fn collect_face_lines(evs: &Vec<ConditionEvent>) -> (r: Vec<String>)
    ensures
        views(r@) == face_lines(event_views(evs@)),
{
    let mut r: Vec<String> = Vec::new();
    let mut i: usize = 0;
    while i < evs.len()
        invariant
            i <= evs@.len(),
            views(r@) == face_lines(event_views(evs@.take(i as int))),
        decreases evs@.len() - i,
    {
        let ghost before = r@;
        let mut more = evs[i].face.lines.clone();
        let ghost added = more@;
        r.append(&mut more);
        proof {
            assert(views(r@) =~= views(before) + views(added));
            assert(event_views(evs@.take(i + 1)).drop_last() =~= event_views(evs@.take(i as int)));
            assert(event_views(evs@.take(i + 1)).last() == evs@[i as int]@);
        }
        i += 1;
    }
    proof {
        assert(evs@.take(evs@.len() as int) =~= evs@);
    }
    r
}

/// What the faces of `evs` hand to violation handlers.
fn collect_face_handled(evs: &Vec<ConditionEvent>) -> (r: Vec<Handled>)
    ensures
        handled_views(r@) == face_handled(event_views(evs@)),
{
    let mut r: Vec<Handled> = Vec::new();
    let mut i: usize = 0;
    while i < evs.len()
        invariant
            i <= evs@.len(),
            handled_views(r@) == face_handled(event_views(evs@.take(i as int))),
        decreases evs@.len() - i,
    {
        let ghost before = r@;
        let mut more = copy_handled(&evs[i].face.handled);
        let ghost added = more@;
        r.append(&mut more);
        proof {
            assert(event_views(evs@.take(i + 1)).drop_last() =~= event_views(evs@.take(i as int)));
            assert(event_views(evs@.take(i + 1)).last() == evs@[i as int]@);
            assert(handled_views(r@) =~= handled_views(before) + handled_views(added));
        }
        i += 1;
    }
    proof {
        assert(evs@.take(evs@.len() as int) =~= evs@);
    }
    r
}

/// The face of `contain any element that ..`.
fn any_face_of(objects: &Vec<CorrespondingObject>, allowed: &Vec<ConditionEvent>, violating: &Vec<ConditionEvent>) -> (r: EventFace)
    ensures
        r@ == any_face(objects@, event_views(allowed@), event_views(violating@)),
{
    let lines = collect_face_lines(violating);
    let text = join(&lines, "\n");
    let one = one_line(&text);
    proof {
        assert(views(one@) =~= seq![text@]);
    }
    EventFace { violation: allowed.len() == 0, lines: one, handled: one_handled(copy_objects(objects), text.clone()) }
}

/// The face of `contain only elements that ..`.
fn only_face_of(violating: &Vec<ConditionEvent>) -> (r: EventFace)
    ensures
        r@ == only_face(event_views(violating@)),
{
    EventFace { violation: violating.len() > 0, lines: collect_face_lines(violating), handled: collect_face_handled(violating) }
}

/// The evaluated events of one part of an `and` or `or`, satisfied ones first.
#[derive(Debug)]
pub struct EvaluatedCondition {
    /// The events, satisfied ones first.
    pub events: Vec<ConditionEvent>,
}

impl View for EvaluatedCondition {
    type V = Seq<EventView>;

    open spec fn view(&self) -> Seq<EventView> {
        event_views(self.events@)
    }
}

/// The views of evaluated conditions.
pub open spec fn evaluated_views(v: Seq<EvaluatedCondition>) -> Seq<Seq<EventView>> {
    v.map_values(|e: EvaluatedCondition| e@)
}

impl EvaluatedCondition {
    /// The events of a check, satisfied ones first.
    pub fn from_events(events: ConditionEvents) -> (r: EvaluatedCondition)
        ensures
            r@ == events@.allowed + events@.violating,
    {
        let v = events.into_all_events();
        EvaluatedCondition { events: v }
    }
}

/// Whether some event of `evs` is a violation on the chosen side.
fn any_violation(evs: &Vec<ConditionEvent>, inverse: bool) -> (r: bool)
    ensures
        r == has_violation(event_views(evs@), inverse),
{
    let mut i: usize = 0;
    while i < evs.len()
        invariant
            i <= evs@.len(),
            forall|j: int| 0 <= j < i ==> !(#[trigger] side(event_views(evs@)[j], inverse)).violation,
        decreases evs@.len() - i,
    {
        let f = if inverse { &evs[i].inverse } else { &evs[i].face };
        if f.violation {
            proof {
                assert(side(event_views(evs@)[i as int], inverse).violation);
            }
            return true;
        }
        i += 1;
    }
    false
}

/// Appends the lines and handled violations of the violations among `evs` on the chosen side.
fn collect_violations(evs: &Vec<ConditionEvent>, inverse: bool, lines: &mut Vec<String>, handled: &mut Vec<Handled>)
    ensures
        views(final(lines)@) == views(old(lines)@) + violation_lines(event_views(evs@), inverse),
        handled_views(final(handled)@) == handled_views(old(handled)@) + violation_handled(event_views(evs@), inverse),
{
    let mut i: usize = 0;
    while i < evs.len()
        invariant
            i <= evs@.len(),
            views(lines@) == views(old(lines)@) + violation_lines(event_views(evs@.take(i as int)), inverse),
            handled_views(handled@) == handled_views(old(handled)@) + violation_handled(event_views(evs@.take(i as int)), inverse),
        decreases evs@.len() - i,
    {
        proof {
            assert(event_views(evs@.take(i + 1)).drop_last() =~= event_views(evs@.take(i as int)));
            assert(event_views(evs@.take(i + 1)).last() == evs@[i as int]@);
        }
        let f = if inverse { &evs[i].inverse } else { &evs[i].face };
        if f.violation {
            let ghost lines_before = lines@;
            let mut more = f.lines.clone();
            let ghost lines_added = more@;
            lines.append(&mut more);
            proof {
                assert(views(lines@) =~= views(lines_before) + views(lines_added));
            }
            let ghost before = handled@;
            let mut more_handled = copy_handled(&f.handled);
            let ghost added = more_handled@;
            handled.append(&mut more_handled);
            proof {
                assert(handled_views(handled@) =~= handled_views(before) + handled_views(added));
            }
        } else {
            proof {
                assert(views(lines@) =~= views(lines@) + Seq::<Seq<char>>::empty());
            }
        }
        proof {
            assert(views(lines@) =~= views(old(lines)@) + violation_lines(event_views(evs@.take(i + 1)), inverse));
            assert(handled_views(handled@) =~= handled_views(old(handled)@) + violation_handled(event_views(evs@.take(i + 1)), inverse));
        }
        i += 1;
    }
    proof {
        assert(evs@.take(evs@.len() as int) =~= evs@);
    }
}

/// The violation lines, handled violations, and which parts have violations, of evaluated
/// conditions on the chosen side.
fn summarize(evals: &Vec<EvaluatedCondition>, inverse: bool) -> (r: (Vec<String>, Vec<Handled>, bool, bool))
    ensures
        views(r.0@) == joined_lines(evaluated_views(evals@), inverse),
        handled_views(r.1@) == joined_handled(evaluated_views(evals@), inverse),
        r.2 == exists|i: int| 0 <= i < evals@.len() && has_violation(#[trigger] evaluated_views(evals@)[i], inverse),
        r.3 == forall|i: int| 0 <= i < evals@.len() ==> has_violation(#[trigger] evaluated_views(evals@)[i], inverse),
{
    let mut lines: Vec<String> = Vec::new();
    let mut handled: Vec<Handled> = Vec::new();
    let mut some = false;
    let mut all = true;
    let mut i: usize = 0;
    while i < evals.len()
        invariant
            i <= evals@.len(),
            views(lines@) == joined_lines(evaluated_views(evals@.take(i as int)), inverse),
            handled_views(handled@) == joined_handled(evaluated_views(evals@.take(i as int)), inverse),
            some == exists|j: int| 0 <= j < i && has_violation(#[trigger] evaluated_views(evals@)[j], inverse),
            all == forall|j: int| 0 <= j < i ==> has_violation(#[trigger] evaluated_views(evals@)[j], inverse),
        decreases evals@.len() - i,
    {
        proof {
            assert(evaluated_views(evals@.take(i + 1)).drop_last() =~= evaluated_views(evals@.take(i as int)));
            assert(evaluated_views(evals@.take(i + 1)).last() == evals@[i as int]@);
            assert(evaluated_views(evals@)[i as int] == evals@[i as int]@);
        }
        collect_violations(&evals[i].events, inverse, &mut lines, &mut handled);
        let v = any_violation(&evals[i].events, inverse);
        some = some || v;
        all = all && v;
        i += 1;
    }
    proof {
        assert(evals@.take(evals@.len() as int) =~= evals@);
    }
    (lines, handled, some, all)
}

/// The face of a conjunction on the chosen side.
fn and_face_of(evals: &Vec<EvaluatedCondition>, inverse: bool) -> (r: EventFace)
    ensures
        r@ == and_face(evaluated_views(evals@), inverse),
{
    let (lines, handled, some, _all) = summarize(evals, inverse);
    let distinct = sorted_unique(&lines);
    EventFace { violation: some, lines: distinct, handled }
}

/// The face of a disjunction on the chosen side.
fn or_face_of(object: &CorrespondingObject, evals: &Vec<EvaluatedCondition>, inverse: bool) -> (r: EventFace)
    ensures
        r@ == or_face(*object, evaluated_views(evals@), inverse),
{
    let (lines, _handled, _some, all) = summarize(evals, inverse);
    let distinct = sorted_unique(&lines);
    let text = join(&distinct, " and ");
    let r = simple_face_of(object, all, &text);
    proof {
        assert(r@ == simple_face(*object, all, join_seq(views(distinct@), " and "@)));
    }
    r
}

impl ConditionEvent {
    /// Whether the condition was violated.
    pub fn is_violation(&self) -> (r: bool)
        ensures
            r == self@.face.violation,
    {
        self.face.violation
    }

    /// The same event with satisfied and violated swapped (used by `never(..)`).
    pub fn invert(&self) -> (r: ConditionEvent)
        ensures
            r@ == self@.inverted(),
    {
        ConditionEvent { face: self.inverse.copy(), inverse: self.face.copy() }
    }

    /// A copy.
    pub fn copy(&self) -> (r: ConditionEvent)
        ensures
            r@ == self@,
    {
        ConditionEvent { face: self.face.copy(), inverse: self.inverse.copy() }
    }

    /// The lines reported for this event.
    pub fn description_lines(&self) -> (r: Vec<String>)
        ensures
            views(r@) == self@.face.lines,
    {
        self.face.lines.clone()
    }

    /// What violation handlers receive for this event.
    pub fn handled(&self) -> (r: Vec<Handled>)
        ensures
            handled_views(r@) == self@.face.handled,
    {
        copy_handled(&self.face.handled)
    }

    /// The event of `contain any element that ..` about `objects` with the satisfied and
    /// violated events of the elements: violated when no element satisfied the condition.
    pub fn any(objects: Vec<CorrespondingObject>, allowed: Vec<ConditionEvent>, violating: Vec<ConditionEvent>) -> (r: ConditionEvent)
        ensures
            r@.face == any_face(objects@, event_views(allowed@), event_views(violating@)),
            r@.inverse == only_face(event_views(allowed@)),
    {
        ConditionEvent { face: any_face_of(&objects, &allowed, &violating), inverse: only_face_of(&allowed) }
    }

    /// The event of `contain only elements that ..`: violated when some element violated the
    /// condition.
    pub fn only(objects: Vec<CorrespondingObject>, allowed: Vec<ConditionEvent>, violating: Vec<ConditionEvent>) -> (r: ConditionEvent)
        ensures
            r@.face == only_face(event_views(violating@)),
            r@.inverse == any_face(objects@, event_views(violating@), event_views(allowed@)),
    {
        ConditionEvent { face: only_face_of(&violating), inverse: any_face_of(&objects, &violating, &allowed) }
    }

    /// The event of the conjunction of evaluated conditions about `object`.
    pub fn and(object: CorrespondingObject, evaluated: Vec<EvaluatedCondition>) -> (r: ConditionEvent)
        ensures
            r@.face == and_face(evaluated_views(evaluated@), false),
            r@.inverse == or_face(object, evaluated_views(evaluated@), true),
    {
        ConditionEvent { face: and_face_of(&evaluated, false), inverse: or_face_of(&object, &evaluated, true) }
    }

    /// The event of the disjunction of evaluated conditions about `object`.
    pub fn or(object: CorrespondingObject, evaluated: Vec<EvaluatedCondition>) -> (r: ConditionEvent)
        ensures
            r@.face == or_face(object, evaluated_views(evaluated@), false),
            r@.inverse == and_face(evaluated_views(evaluated@), true),
    {
        ConditionEvent { face: or_face_of(&object, &evaluated, false), inverse: and_face_of(&evaluated, true) }
    }
}

/// Inverting an event twice gives it back.
pub proof fn lemma_invert_twice(e: EventView)
    ensures
        e.inverted().inverted() == e,
{
}

/// Inverting a single event swaps satisfied and violated.
pub proof fn lemma_invert_simple(e: SimpleConditionEvent)
    ensures
        e.event_view().inverted().face.violation == !e.event_view().face.violation,
        e.event_view().inverted().face.lines == e.event_view().face.lines,
{
}

/// Inverting `contain any` gives `contain only` of the same elements with satisfied and
/// violated swapped, and the other way round; either way the violation flips.
pub proof fn lemma_invert_any_only(objects: Seq<CorrespondingObject>, allowed: Seq<EventView>, violating: Seq<EventView>)
    ensures
        any_face(objects, allowed, violating).violation == !only_face(allowed).violation,
        only_face(violating).violation == !any_face(objects, violating, allowed).violation,
{
}

/// The events of a condition check (`ConditionEvents`): satisfied and violated events, and a
/// custom text for the number of violations.
#[derive(Debug)]
pub struct ConditionEvents {
    /// The satisfied events.
    pub allowed: Vec<ConditionEvent>,
    /// The violated events.
    pub violating: Vec<ConditionEvent>,
    /// A custom text for the number of violations.
    pub information: Option<String>,
}

/// The spec form of [`ConditionEvents`].
pub struct EventsView {
    pub allowed: Seq<EventView>,
    pub violating: Seq<EventView>,
    pub information: Option<Seq<char>>,
}

impl View for ConditionEvents {
    type V = EventsView;

    open spec fn view(&self) -> EventsView {
        EventsView {
            allowed: event_views(self.allowed@),
            violating: event_views(self.violating@),
            information: match self.information {
                Some(s) => Some(s@),
                None => None,
            },
        }
    }
}

impl EventsView {
    /// No events.
    pub open spec fn empty() -> EventsView {
        EventsView { allowed: Seq::empty(), violating: Seq::empty(), information: None }
    }

    /// With `e` added to the violated or the satisfied events.
    pub open spec fn added(self, e: EventView) -> EventsView {
        if e.face.violation {
            EventsView { violating: self.violating.push(e), ..self }
        } else {
            EventsView { allowed: self.allowed.push(e), ..self }
        }
    }

    /// With the events `evs` added one after the other.
    pub open spec fn added_all(self, evs: Seq<EventView>) -> EventsView
        decreases evs.len(),
    {
        if evs.len() == 0 {
            self
        } else {
            self.added_all(evs.drop_last()).added(evs.last())
        }
    }

    /// With the text of `other` taking the place of this one's, where `other` has one.
    pub open spec fn informed_by(self, other: EventsView) -> EventsView {
        match other.information {
            Some(t) => EventsView { information: Some(t), ..self },
            None => self,
        }
    }

    /// All events, satisfied ones first.
    pub open spec fn all(self) -> Seq<EventView> {
        self.allowed + self.violating
    }

    /// Violated events stand among the violating ones only, satisfied ones among the allowed.
    pub open spec fn sides_agree(self) -> bool {
        &&& forall|i: int| 0 <= i < self.violating.len() ==> (#[trigger] self.violating[i]).face.violation
        &&& forall|i: int| 0 <= i < self.allowed.len() ==> !(#[trigger] self.allowed[i]).face.violation
    }
}

/// Adding events one after the other (as `add`, `add_boxed` and `add_all` do) puts each
/// violated event last among the violating ones and each satisfied one last among the allowed
/// ones, so events that started with violated events only among the violating ones keep it so;
/// a violation is contained exactly when the violating events are not empty.
pub proof fn lemma_added_events_keep_sides(v: EventsView, evs: Seq<EventView>)
    requires
        v.sides_agree(),
    ensures
        v.added_all(evs).sides_agree(),
        v.added_all(evs).violating.len() + v.added_all(evs).allowed.len() == v.violating.len() + v.allowed.len() + evs.len(),
        forall|e: EventView| #[trigger] v.added(e).violating == if e.face.violation { v.violating.push(e) } else { v.violating },
        forall|e: EventView| #[trigger] v.added(e).allowed == if e.face.violation { v.allowed } else { v.allowed.push(e) },
    decreases evs.len(),
{
    if evs.len() > 0 {
        lemma_added_events_keep_sides(v, evs.drop_last());
        let w = v.added_all(evs.drop_last());
        let e = evs.last();
        assert forall|i: int| 0 <= i < w.added(e).violating.len() implies (#[trigger] w.added(e).violating[i]).face.violation by {
            if e.face.violation && i == w.violating.len() {
            } else {
                assert(w.added(e).violating[i] == w.violating[i]);
            }
        }
        assert forall|i: int| 0 <= i < w.added(e).allowed.len() implies !(#[trigger] w.added(e).allowed[i]).face.violation by {
            if !e.face.violation && i == w.allowed.len() {
            } else {
                assert(w.added(e).allowed[i] == w.allowed[i]);
            }
        }
    }
}

/// The events of `evs`, each inverted.
pub open spec fn inverted_all(evs: Seq<EventView>) -> Seq<EventView> {
    evs.map_values(|e: EventView| e.inverted())
}

impl ConditionEvents {
    /// No events (`ConditionEvents.Factory.create()`).
    pub fn new() -> (r: ConditionEvents)
        ensures
            r@ == EventsView::empty(),
    {
        let r = ConditionEvents { allowed: Vec::new(), violating: Vec::new(), information: None };
        proof {
            assert(r@.allowed =~= Seq::<EventView>::empty());
            assert(r@.violating =~= Seq::<EventView>::empty());
        }
        r
    }

    /// Adds a single event.
    pub fn add(&mut self, event: SimpleConditionEvent)
        ensures
            final(self)@ == old(self)@.added(event.event_view()),
    {
        self.add_boxed(event.into_event());
    }

    /// Adds an event.
    pub fn add_boxed(&mut self, event: ConditionEvent)
        ensures
            final(self)@ == old(self)@.added(event@),
    {
        let ghost e = event@;
        if event.is_violation() {
            self.violating.push(event);
            proof {
                assert(self@.violating =~= old(self)@.violating.push(e));
                assert(self@.allowed =~= old(self)@.allowed);
            }
        } else {
            self.allowed.push(event);
            proof {
                assert(self@.allowed =~= old(self)@.allowed.push(e));
                assert(self@.violating =~= old(self)@.violating);
            }
        }
    }

    /// The violated events.
    pub fn violating(&self) -> (r: &Vec<ConditionEvent>)
        ensures
            event_views(r@) == self@.violating,
    {
        &self.violating
    }

    /// The satisfied events.
    pub fn allowed(&self) -> (r: &Vec<ConditionEvent>)
        ensures
            event_views(r@) == self@.allowed,
    {
        &self.allowed
    }

    /// Whether some event is a violation.
    pub fn contain_violation(&self) -> (r: bool)
        ensures
            r == (self@.violating.len() > 0),
    {
        self.violating.len() > 0
    }

    /// The custom text for the number of violations, if set.
    pub fn information_about_number_of_violations(&self) -> (r: Option<&String>)
        ensures
            match self.information {
                Some(s) => r == Some(&s),
                None => r is None,
            },
    {
        match &self.information {
            Some(s) => Some(s),
            None => None,
        }
    }

    /// Sets the custom text for the number of violations, e.g. for cycle counts.
    pub fn set_information_about_number_of_violations(&mut self, information: String)
        ensures
            final(self)@ == (EventsView { information: Some(information@), ..old(self)@ }),
    {
        self.information = Some(information);
    }

    /// All events, satisfied ones first.
    pub fn into_all_events(self) -> (r: Vec<ConditionEvent>)
        ensures
            event_views(r@) == self@.all(),
    {
        let mut all = self.allowed;
        let ghost a = all@;
        let mut violating = self.violating;
        let ghost v = violating@;
        all.append(&mut violating);
        proof {
            assert(event_views(all@) =~= event_views(a) + event_views(v));
        }
        all
    }

    /// Adds all events of `other`, each inverted (used by `never(..)`); the text for the
    /// number of violations of `other` takes over, where it has one.
    pub fn add_all_inverted(&mut self, other: ConditionEvents)
        ensures
            final(self)@ == old(self)@.added_all(inverted_all(other@.all())).informed_by(other@),
    {
        let ghost o = other@;
        let information = other.information;
        let other_view: Ghost<EventsView> = Ghost(EventsView { allowed: o.allowed, violating: o.violating, information: o.information });
        let all = ConditionEvents { allowed: other.allowed, violating: other.violating, information: None }.into_all_events();
        let ghost start = self@;
        let mut i: usize = 0;
        while i < all.len()
            invariant
                i <= all@.len(),
                event_views(all@) == o.all(),
                self@ == start.added_all(inverted_all(o.all().take(i as int))),
            decreases all@.len() - i,
        {
            let e = all[i].invert();
            self.add_boxed(e);
            proof {
                assert(inverted_all(o.all().take(i + 1)).drop_last() =~= inverted_all(o.all().take(i as int)));
                assert(o.all()[i as int] == all@[i as int]@);
            }
            i += 1;
        }
        proof {
            assert(o.all().take(all@.len() as int) =~= o.all());
        }
        if let Some(t) = information {
            self.information = Some(t);
        }
    }

    /// Adds all events of `other`; the text for the number of violations of `other` takes
    /// over, where it has one.
    pub fn add_all(&mut self, other: ConditionEvents)
        ensures
            final(self)@ == (EventsView {
                allowed: old(self)@.allowed + other@.allowed,
                violating: old(self)@.violating + other@.violating,
                ..old(self)@
            }).informed_by(other@),
    {
        let ghost o = other@;
        let ghost a = self.allowed@;
        let ghost v = self.violating@;
        let mut allowed = other.allowed;
        let ghost oa = allowed@;
        let mut violating = other.violating;
        let ghost ov = violating@;
        self.allowed.append(&mut allowed);
        self.violating.append(&mut violating);
        proof {
            assert(event_views(self.allowed@) =~= event_views(a) + event_views(oa));
            assert(event_views(self.violating@) =~= event_views(v) + event_views(ov));
        }
        if let Some(t) = other.information {
            self.information = Some(t);
        }
    }
}

// ---- typed objects of violations ------------------------------------------------------------

/// Values of a type that corresponding objects stand for.
pub trait FromCorrespondingObject: Sized {
    /// `values` are the values of this type that `object` stands for.
    spec fn stands_for(object: CorrespondingObject, values: Seq<Self>) -> bool;

    /// The values of this type `object` stands for, possibly none.
    fn from_corresponding_object(object: &CorrespondingObject) -> (r: Vec<Self>)
        ensures
            Self::stands_for(*object, r@);
}

/// `values` are the values of type `T` that `objects` stand for, one object after the other.
pub open spec fn converted_as<T: FromCorrespondingObject>(objects: Seq<CorrespondingObject>, values: Seq<T>) -> bool
    decreases objects.len(),
{
    if objects.len() == 0 {
        values.len() == 0
    } else {
        exists|k: int|
            #![trigger values.take(k)]
            0 <= k <= values.len() && converted_as(objects.drop_last(), values.take(k))
                && T::stands_for(objects.last(), values.skip(k))
    }
}

/// The item an object stands for, if it is one.
pub open spec fn item_of(object: CorrespondingObject) -> Seq<ItemRef> {
    match object {
        CorrespondingObject::Item(i) => seq![i],
        _ => Seq::empty(),
    }
}

/// The dependency an object stands for, if it is one.
pub open spec fn dependency_of(object: CorrespondingObject) -> Seq<Dependency> {
    match object {
        CorrespondingObject::Dependency(d) => seq![d],
        _ => Seq::empty(),
    }
}

/// The text an object stands for: the description of another value, or a number in decimal.
pub open spec fn text_of(object: CorrespondingObject) -> Seq<Seq<char>> {
    match object {
        CorrespondingObject::Other(t) => seq![t@],
        CorrespondingObject::Count(n) => seq![decimal(n as nat)],
        _ => Seq::empty(),
    }
}

impl FromCorrespondingObject for ItemRef {
    open spec fn stands_for(object: CorrespondingObject, values: Seq<ItemRef>) -> bool {
        values == item_of(object)
    }

    fn from_corresponding_object(object: &CorrespondingObject) -> (r: Vec<ItemRef>)
        ensures
            r@ == item_of(*object),
    {
        let mut r: Vec<ItemRef> = Vec::new();
        match object {
            CorrespondingObject::Item(i) => r.push(i.copy()),
            _ => {},
        }
        proof {
            assert(r@ =~= item_of(*object));
        }
        r
    }
}

impl FromCorrespondingObject for Dependency {
    open spec fn stands_for(object: CorrespondingObject, values: Seq<Dependency>) -> bool {
        values == dependency_of(object)
    }

    fn from_corresponding_object(object: &CorrespondingObject) -> (r: Vec<Dependency>)
        ensures
            r@ == dependency_of(*object),
    {
        let mut r: Vec<Dependency> = Vec::new();
        match object {
            CorrespondingObject::Dependency(d) => r.push(d.copy()),
            _ => {},
        }
        proof {
            assert(r@ =~= dependency_of(*object));
        }
        r
    }
}

impl FromCorrespondingObject for String {
    open spec fn stands_for(object: CorrespondingObject, values: Seq<String>) -> bool {
        views(values) == text_of(object)
    }

    fn from_corresponding_object(object: &CorrespondingObject) -> (r: Vec<String>)
        ensures
            views(r@) == text_of(*object),
    {
        let mut r: Vec<String> = Vec::new();
        match object {
            CorrespondingObject::Other(t) => r.push(t.clone()),
            CorrespondingObject::Count(n) => r.push(crate::text::decimal_string(*n as u64)),
            _ => {},
        }
        proof {
            assert(views(r@) =~= text_of(*object));
        }
        r
    }
}

/// Handles violations with the objects of type `T` they are about (`ViolationHandler<T>`).
pub trait ViolationHandler<T> {
    /// Whether this handler keeps the record [`handed`](Self::handed) that the contract of
    /// `handle` speaks of; by default it does not, and `handle` then promises nothing.
    open spec fn obeys_handed_spec() -> bool {
        false
    }

    /// The violations handed to this handler so far: the objects and the message of each.
    /// Only meaningful where [`obeys_handed_spec`](Self::obeys_handed_spec) holds.
    open spec fn handed(&self) -> Seq<(Seq<T>, Seq<char>)> {
        Seq::empty()
    }

    /// Called once per violation with its objects of type `T` and its message.
    fn handle(&mut self, violating_objects: Vec<T>, message: &str)
        ensures
            Self::obeys_handed_spec() ==> final(self).handed() == old(self).handed().push((violating_objects@, message@));
}

/// `handed` is what a handler of objects of type `T` is handed for `violations`: for each
/// violation whose objects stand for values of type `T`, those values and its message, in
/// order; violations without such values are passed over.
pub open spec fn handed_over<T: FromCorrespondingObject>(violations: Seq<HandledView>, handed: Seq<(Seq<T>, Seq<char>)>) -> bool
    decreases violations.len(),
{
    if violations.len() == 0 {
        handed.len() == 0
    } else {
        let v = violations.last();
        ||| converted_as(v.objects, Seq::<T>::empty()) && handed_over(violations.drop_last(), handed)
        ||| handed.len() > 0 && handed.last().0.len() > 0 && converted_as(v.objects, handed.last().0)
            && handed.last().1 == v.message && handed_over(violations.drop_last(), handed.drop_last())
    }
}

/// The values of type `T` the objects stand for, one object after the other.
pub(crate) fn converted_objects<T: FromCorrespondingObject>(objects: &Vec<CorrespondingObject>) -> (r: Vec<T>)
    ensures
        converted_as(objects@, r@),
{
    let mut r: Vec<T> = Vec::new();
    let mut i: usize = 0;
    while i < objects.len()
        invariant
            i <= objects@.len(),
            converted_as(objects@.take(i as int), r@),
        decreases objects@.len() - i,
    {
        let ghost before = r@;
        let mut values = T::from_corresponding_object(&objects[i]);
        let ghost added = values@;
        r.append(&mut values);
        proof {
            let k = before.len() as int;
            assert(r@.take(k) =~= before);
            assert(r@.skip(k) =~= added);
            assert(objects@.take(i + 1).drop_last() =~= objects@.take(i as int));
            assert(objects@.take(i + 1).last() == objects@[i as int]);
            assert(converted_as(objects@.take(i + 1).drop_last(), r@.take(k)));
        }
        i += 1;
    }
    proof {
        assert(objects@.take(objects@.len() as int) =~= objects@);
    }
    r
}

/// Values that can be the object of an event (`AsCorrespondingObject`).
pub trait AsCorrespondingObject {
    /// The object the value stands as.
    fn as_corresponding_object(&self) -> CorrespondingObject;
}

impl AsCorrespondingObject for ItemRef {
    fn as_corresponding_object(&self) -> (r: CorrespondingObject)
        ensures
            r == CorrespondingObject::Item(*self),
    {
        CorrespondingObject::Item(self.copy())
    }
}

impl AsCorrespondingObject for Dependency {
    fn as_corresponding_object(&self) -> (r: CorrespondingObject)
        ensures
            r == CorrespondingObject::Dependency(*self),
    {
        CorrespondingObject::Dependency(self.copy())
    }
}

impl AsCorrespondingObject for usize {
    fn as_corresponding_object(&self) -> (r: CorrespondingObject)
        ensures
            r == CorrespondingObject::Count(*self),
    {
        CorrespondingObject::Count(*self)
    }
}

impl AsCorrespondingObject for String {
    fn as_corresponding_object(&self) -> (r: CorrespondingObject)
        ensures
            r matches CorrespondingObject::Other(t) && t@ == self@,
    {
        CorrespondingObject::Other(self.clone())
    }
}

} // verus!
