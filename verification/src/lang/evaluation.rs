//! The outcome of evaluating a rule (`EvaluationResult`) and its failure report.

use vstd::prelude::*;
use vstd::string::*;

use super::events::{
    converted_objects, face_handled, face_lines, event_views, handled_views, ConditionEvent, ConditionEvents, EventFace,
    EventView, FaceView, FromCorrespondingObject, Handled, HandledView, ViolationHandler, handed_over,
};
use super::rule::{priority_text, Priority};
use crate::order::{sort_strings, sorted};
use crate::base::regex_match::{regex_is_match, regex_match};
use crate::text::{char_views, chars_of, clone_strings, decimal, decimal_string, ensure_unix_line_breaks, join, join_seq, split_chars, split_on, string_of, trim_chars, trimmed, unix_line_breaks, views};

verus! {

/// The spec form of [`EvaluationResult`].
pub struct ResultView {
    pub rule_description: Seq<char>,
    pub violations: Seq<EventView>,
    pub information: Option<Seq<char>>,
    pub priority: Priority,
}

/// The outcome of evaluating a rule (`EvaluationResult`): its violated events.
#[derive(Debug)]
pub struct EvaluationResult {
    /// The description of the rule.
    pub rule_description: String,
    /// The violated events.
    pub violations: Vec<ConditionEvent>,
    /// A custom text for the number of violations.
    pub information: Option<String>,
    /// The priority of the rule.
    pub priority: Priority,
}

/// The view of an optional string.
pub open spec fn opt_view(o: Option<String>) -> Option<Seq<char>> {
    match o {
        Some(s) => Some(s@),
        None => None,
    }
}

impl View for EvaluationResult {
    type V = ResultView;

    open spec fn view(&self) -> ResultView {
        ResultView {
            rule_description: self.rule_description@,
            violations: event_views(self.violations@),
            information: opt_view(self.information),
            priority: self.priority,
        }
    }
}

/// The spec form of a failure report.
pub struct ReportView {
    pub rule_description: Seq<char>,
    pub priority: Priority,
    pub failures: Seq<Seq<char>>,
    pub information: Option<Seq<char>>,
}

/// `report` holds the violation lines of `result` in the order of `str` (each as often as
/// it is reported), under the result's description, priority and text for the number of
/// violations.
pub open spec fn reports(report: ReportView, result: ResultView) -> bool {
    &&& report.rule_description == result.rule_description
    &&& report.priority == result.priority
    &&& report.information == result.information
    &&& sorted(report.failures)
    &&& report.failures.to_multiset() == face_lines(result.violations).to_multiset()
}

impl EvaluationResult {
    /// A result without violations, to which parts can be added.
    pub fn empty(rule_description: &str, priority: Priority) -> (r: EvaluationResult)
        ensures
            r@ == (ResultView { rule_description: rule_description@, violations: Seq::empty(), information: None, priority }),
    {
        let r = EvaluationResult { rule_description: String::from_str(rule_description), violations: Vec::new(), information: None, priority };
        proof {
            assert(r@.violations =~= Seq::<EventView>::empty());
        }
        r
    }

    /// The result from the events of a condition: its violated events and text for the
    /// number of violations.
    pub fn new(rule_description: &str, events: ConditionEvents, priority: Priority, ignore_patterns: &Vec<String>) -> (r: EvaluationResult)
        ensures
            r@ == (ResultView {
                rule_description: rule_description@,
                violations: ignored(events@.violating, views(ignore_patterns@)),
                information: events@.information,
                priority,
            }),
    {
        let violations = apply_ignore_patterns(events.violating, ignore_patterns);
        EvaluationResult { rule_description: String::from_str(rule_description), violations, information: events.information, priority }
    }

    /// The result without the violation lines that one of `ignore_patterns` matches once
    /// their line breaks are made spaces; events left without lines are dropped.
    pub fn without_ignored(self, ignore_patterns: &Vec<String>) -> (r: EvaluationResult)
        ensures
            r@ == (ResultView { violations: ignored(self@.violations, views(ignore_patterns@)), ..self@ }),
    {
        let violations = apply_ignore_patterns(self.violations, ignore_patterns);
        EvaluationResult { violations, ..self }
    }

    /// The report with all violation lines sorted.
    pub fn failure_report(&self) -> (r: FailureReport)
        ensures
            reports(r@, self@),
    {
        let mut lines: Vec<String> = Vec::new();
        let mut i: usize = 0;
        while i < self.violations.len()
            invariant
                i <= self.violations@.len(),
                views(lines@) == face_lines(event_views(self.violations@.take(i as int))),
            decreases self.violations@.len() - i,
        {
            let ghost before = lines@;
            let mut more = self.violations[i].description_lines();
            let ghost added = more@;
            lines.append(&mut more);
            proof {
                assert(views(lines@) =~= views(before) + views(added));
                assert(event_views(self.violations@.take(i + 1)).drop_last() =~= event_views(self.violations@.take(i as int)));
            }
            i += 1;
        }
        proof {
            assert(self.violations@.take(self.violations@.len() as int) =~= self.violations@);
        }
        let failures = sort_strings(lines);
        let information = match &self.information {
            Some(t) => Some(t.clone()),
            None => None,
        };
        FailureReport {
            rule_description: self.rule_description.clone(),
            priority: self.priority,
            messages: FailureMessages { failures, information },
        }
    }

    /// Adds the violations of another result (`add(..)`).
    pub fn add(&mut self, part: EvaluationResult)
        ensures
            final(self)@ == (ResultView { violations: old(self)@.violations + part@.violations, ..old(self)@ }),
    {
        let ghost v = self.violations@;
        let mut more = part.violations;
        let ghost m = more@;
        self.violations.append(&mut more);
        proof {
            assert(event_views(self.violations@) =~= event_views(v) + event_views(m));
        }
    }

    /// Whether any violation remains.
    pub fn has_violation(&self) -> (r: bool)
        ensures
            r == (self@.violations.len() > 0),
    {
        self.violations.len() > 0
    }

    /// The priority.
    pub fn priority(&self) -> (r: Priority)
        ensures
            r == self.priority,
    {
        self.priority
    }

    /// The description of the rule.
    pub fn rule_description(&self) -> (r: &str)
        ensures
            r@ == self.rule_description@,
    {
        self.rule_description.as_str()
    }

    /// Passes each violation's objects of type `T` and its message to `handler`, skipping
    /// violations without objects of that type.
    pub fn handle_violations<T: FromCorrespondingObject, H: ViolationHandler<T>>(&self, handler: &mut H)
        ensures
            H::obeys_handed_spec() ==> {
                &&& final(handler).handed().len() >= old(handler).handed().len()
                &&& final(handler).handed().take(old(handler).handed().len() as int) == old(handler).handed()
                &&& handed_over(face_handled(self@.violations), final(handler).handed().skip(old(handler).handed().len() as int))
            },
    {
        let all = self.handle_all_violations();
        let ghost start = handler.handed();
        let ghost views_all = handled_views(all@);
        let mut i: usize = 0;
        while i < all.len()
            invariant
                i <= all@.len(),
                views_all == handled_views(all@),
                start == old(handler).handed(),
                H::obeys_handed_spec() ==> {
                    &&& handler.handed().len() >= start.len()
                    &&& handler.handed().take(start.len() as int) == start
                    &&& handed_over(views_all.take(i as int), handler.handed().skip(start.len() as int))
                },
            decreases all@.len() - i,
        {
            let ghost before = handler.handed();
            let converted: Vec<T> = converted_objects(&all[i].objects);
            proof {
                assert(views_all.take(i + 1).drop_last() =~= views_all.take(i as int));
                assert(views_all.take(i + 1).last() == all@[i as int]@);
            }
            if converted.len() > 0 {
                let ghost pair = (converted@, all@[i as int].message@);
                handler.handle(converted, all[i].message.as_str());
                proof {
                    if H::obeys_handed_spec() {
                        assert(handler.handed() == before.push(pair));
                        assert(handler.handed().take(start.len() as int) =~= before.take(start.len() as int));
                        assert(handler.handed().skip(start.len() as int).drop_last() =~= before.skip(start.len() as int));
                        assert(handler.handed().skip(start.len() as int).last() == pair);
                    }
                }
            } else {
                proof {
                    assert(converted@ =~= Seq::<T>::empty());
                }
            }
            i += 1;
        }
        proof {
            assert(views_all.take(all@.len() as int) =~= views_all);
        }
    }

    /// Each violation's objects with its message, in order: what a handler that keeps all is
    /// handed.
    pub fn handle_all_violations(&self) -> (r: Vec<Handled>)
        ensures
            handled_views(r@) == face_handled(self@.violations),
    {
        let mut r: Vec<Handled> = Vec::new();
        let mut i: usize = 0;
        while i < self.violations.len()
            invariant
                i <= self.violations@.len(),
                handled_views(r@) == face_handled(event_views(self.violations@.take(i as int))),
            decreases self.violations@.len() - i,
        {
            let ghost before = r@;
            let mut more = self.violations[i].handled();
            let ghost added = more@;
            r.append(&mut more);
            proof {
                assert(handled_views(r@) =~= handled_views(before) + handled_views(added));
                assert(event_views(self.violations@.take(i + 1)).drop_last() =~= event_views(self.violations@.take(i as int)));
            }
            i += 1;
        }
        proof {
            assert(self.violations@.take(self.violations@.len() as int) =~= self.violations@);
        }
        r
    }
}

/// The lines of the violations of two sequences of events, one after the other.
pub proof fn lemma_face_lines_concat(a: Seq<EventView>, b: Seq<EventView>)
    ensures
        face_lines(a + b) == face_lines(a) + face_lines(b),
    decreases b.len(),
{
    if b.len() == 0 {
        assert(a + b =~= a);
        assert(face_lines(a) + face_lines(b) =~= face_lines(a));
    } else {
        lemma_face_lines_concat(a, b.drop_last());
        assert((a + b).drop_last() =~= a + b.drop_last());
        assert((a + b).last() == b.last());
        assert(face_lines(a) + face_lines(b) =~= face_lines(a) + face_lines(b.drop_last()) + b.last().face.lines);
    }
}

/// Adding a result `part` to a result `r` (as [`EvaluationResult::add`] does) reports the
/// violation lines of both, sorted, under the description, priority and text for the number of
/// violations of `r`; the sum has a violation exactly when one of the two has.
pub proof fn lemma_added_results_report(r: ResultView, part: ResultView, report: ReportView)
    requires
        reports(report, ResultView { violations: r.violations + part.violations, ..r }),
    ensures
        sorted(report.failures),
        report.failures.to_multiset() == face_lines(r.violations).to_multiset().add(face_lines(part.violations).to_multiset()),
        report.rule_description == r.rule_description,
        report.priority == r.priority,
        report.information == r.information,
        ((r.violations + part.violations).len() > 0) == (r.violations.len() > 0 || part.violations.len() > 0),
{
    lemma_face_lines_concat(r.violations, part.violations);
    vstd::seq_lib::lemma_multiset_commutative(face_lines(r.violations), face_lines(part.violations));
}

/// The violation lines of a report (`FailureMessages`).
#[derive(Debug)]
pub struct FailureMessages {
    /// The lines.
    pub failures: Vec<String>,
    /// A custom text for the number of violations.
    pub information: Option<String>,
}

/// The text in the headline's brackets: the custom text if set, else `<n> times`.
pub open spec fn number_text(failures: nat, information: Option<Seq<char>>) -> Seq<char> {
    match information {
        Some(t) => t,
        None => decimal(failures) + " times"@,
    }
}

impl FailureMessages {
    /// The text for the `(..)` part of the headline.
    pub fn information_about_number_of_violations(&self) -> (r: String)
        ensures
            r@ == number_text(self.failures@.len(), opt_view(self.information)),
    {
        match &self.information {
            Some(t) => t.clone(),
            None => {
                let mut r = decimal_string(self.failures.len() as u64);
                r.append(" times");
                r
            },
        }
    }

    /// The lines.
    pub fn lines(&self) -> (r: &Vec<String>)
        ensures
            r@ == self.failures@,
    {
        &self.failures
    }

    /// Whether there are no lines.
    pub fn is_empty(&self) -> (r: bool)
        ensures
            r == (self.failures@.len() == 0),
    {
        self.failures.len() == 0
    }
}

/// The default failure text:
/// `Architecture Violation [Priority: <p>] - Rule '<rule>' was violated (<number>):` and the
/// lines, each on a line of its own.
pub open spec fn failure_text(rule_description: Seq<char>, failures: Seq<Seq<char>>, information: Seq<char>, priority: Priority) -> Seq<char> {
    "Architecture Violation [Priority: "@ + priority_text(priority) + "] - Rule '"@ + rule_description
        + "' was violated ("@ + information + "):\n"@ + join_seq(failures, "\n"@)
}

/// Renders a failure report in the default format.
#[derive(Debug, Clone, Copy)]
pub struct DefaultFailureDisplayFormat;

impl DefaultFailureDisplayFormat {
    /// The complete failure text for a violated rule.
    pub fn format_failure(&self, rule_description: &str, failure_messages: &FailureMessages, priority: Priority) -> (r: String)
        ensures
            r@ == failure_text(
                rule_description@,
                views(failure_messages.failures@),
                number_text(failure_messages.failures@.len(), opt_view(failure_messages.information)),
                priority,
            ),
    {
        let mut r = String::from_str("Architecture Violation [Priority: ");
        r.append(priority.as_string());
        r.append("] - Rule '");
        r.append(rule_description);
        r.append("' was violated (");
        r.append(failure_messages.information_about_number_of_violations().as_str());
        r.append("):\n");
        r.append(join(&failure_messages.failures, "\n").as_str());
        r
    }
}

/// The report of a violated rule (`FailureReport`).
#[derive(Debug)]
pub struct FailureReport {
    /// The description of the rule.
    pub rule_description: String,
    /// The priority.
    pub priority: Priority,
    /// The lines.
    pub messages: FailureMessages,
}

impl View for FailureReport {
    type V = ReportView;

    open spec fn view(&self) -> ReportView {
        ReportView {
            rule_description: self.rule_description@,
            priority: self.priority,
            failures: views(self.messages.failures@),
            information: opt_view(self.messages.information),
        }
    }
}

impl FailureReport {
    /// Whether there are no lines.
    pub fn is_empty(&self) -> (r: bool)
        ensures
            r == (self@.failures.len() == 0),
    {
        self.messages.is_empty()
    }

    /// The violation lines.
    pub fn details(&self) -> (r: Vec<String>)
        ensures
            r@ == self.messages.failures@,
    {
        self.messages.failures.clone()
    }

    /// The messages.
    pub fn failure_messages(&self) -> (r: &FailureMessages)
        ensures
            *r == self.messages,
    {
        &self.messages
    }

    /// The description of the rule.
    pub fn rule_description(&self) -> (r: &str)
        ensures
            r@ == self.rule_description@,
    {
        self.rule_description.as_str()
    }

    /// The priority.
    pub fn priority(&self) -> (r: Priority)
        ensures
            r == self.priority,
    {
        self.priority
    }

    /// The report in the default format, as printed for a failed rule.
    pub fn text(&self) -> (r: String)
        ensures
            r@ == failure_text(
                self@.rule_description,
                self@.failures,
                number_text(self@.failures.len(), self@.information),
                self.priority,
            ),
    {
        DefaultFailureDisplayFormat.format_failure(self.rule_description.as_str(), &self.messages, self.priority)
    }
}

/// Which violation lines a filter keeps.
pub enum LineTest {
    /// Lines not among these known lines, once line breaks are made `\n`.
    NotAmong(Vec<String>),
    /// Lines that none of these regular expressions matches, once each line break (`\r\n`
    /// or `\n`) is made a space; an expression that does not compile matches nothing.
    NotMatching(Vec<String>),
}

/// The spec form of [`LineTest`].
pub enum LineSelection {
    NotAmong(Seq<Seq<char>>),
    NotMatching(Seq<Seq<char>>),
}

impl View for LineTest {
    type V = LineSelection;

    open spec fn view(&self) -> LineSelection {
        match self {
            LineTest::NotAmong(v) => LineSelection::NotAmong(views(v@)),
            LineTest::NotMatching(v) => LineSelection::NotMatching(views(v@)),
        }
    }
}

/// `line` with each line break (`\r\n` or `\n`) made a space.
pub open spec fn spaced_line_breaks(line: Seq<char>) -> Seq<char> {
    unix_line_breaks(line).map_values(|c: char| if c == '\n' { ' ' } else { c })
}

/// Some of `patterns` matches `line` with its line breaks made spaces.
pub open spec fn ignored_line(patterns: Seq<Seq<char>>, line: Seq<char>) -> bool {
    exists|i: int| 0 <= i < patterns.len() && #[trigger] regex_is_match(patterns[i], spaced_line_breaks(line)) == Some(true)
}

/// Whether a violation line is kept.
pub open spec fn keeps(t: LineSelection, line: Seq<char>) -> bool {
    match t {
        LineSelection::NotAmong(known) => !known.contains(unix_line_breaks(line)),
        LineSelection::NotMatching(patterns) => !ignored_line(patterns, line),
    }
}

/// The violations that remain once the lines that an ignore pattern matches are dropped:
/// all of them where there is no pattern.
pub open spec fn ignored(evs: Seq<EventView>, patterns: Seq<Seq<char>>) -> Seq<EventView> {
    if patterns.len() == 0 {
        evs
    } else {
        filtered_violations(evs, LineSelection::NotMatching(patterns))
    }
}

/// The lines of `lines` that are kept.
pub open spec fn kept_lines(lines: Seq<Seq<char>>, known: LineSelection) -> Seq<Seq<char>>
    decreases lines.len(),
{
    if lines.len() == 0 {
        Seq::empty()
    } else {
        kept_lines(lines.drop_last(), known) + if keeps(known, lines.last()) { seq![lines.last()] } else { Seq::empty() }
    }
}

/// The handled violations whose message is kept.
pub open spec fn kept_handled(hs: Seq<HandledView>, known: LineSelection) -> Seq<HandledView>
    decreases hs.len(),
{
    if hs.len() == 0 {
        Seq::empty()
    } else {
        kept_handled(hs.drop_last(), known) + if keeps(known, hs.last().message) { seq![hs.last()] } else { Seq::empty() }
    }
}

/// A face with only the kept lines; a violation only while some line is kept.
pub open spec fn filtered_face(f: FaceView, known: LineSelection) -> FaceView {
    FaceView {
        violation: f.violation && kept_lines(f.lines, known).len() > 0,
        lines: kept_lines(f.lines, known),
        handled: kept_handled(f.handled, known),
    }
}

/// An event with only the kept lines, on both sides.
pub open spec fn filtered_event(e: EventView, known: LineSelection) -> EventView {
    EventView { face: filtered_face(e.face, known), inverse: filtered_face(e.inverse, known) }
}

/// The filtered events that still are violations.
pub open spec fn filtered_violations(evs: Seq<EventView>, known: LineSelection) -> Seq<EventView>
    decreases evs.len(),
{
    if evs.len() == 0 {
        Seq::empty()
    } else {
        filtered_violations(evs.drop_last(), known) + if filtered_event(evs.last(), known).face.violation {
            seq![filtered_event(evs.last(), known)]
        } else {
            Seq::empty()
        }
    }
}

/// The kept lines of two sequences of lines, one after the other.
proof fn lemma_kept_lines_concat(a: Seq<Seq<char>>, b: Seq<Seq<char>>, t: LineSelection)
    ensures
        kept_lines(a + b, t) == kept_lines(a, t) + kept_lines(b, t),
    decreases b.len(),
{
    if b.len() == 0 {
        assert(a + b =~= a);
        assert(kept_lines(a, t) + kept_lines(b, t) =~= kept_lines(a, t));
    } else {
        lemma_kept_lines_concat(a, b.drop_last(), t);
        assert((a + b).drop_last() =~= a + b.drop_last());
        assert((a + b).last() == b.last());
        let tail = if keeps(t, b.last()) { seq![b.last()] } else { Seq::<Seq<char>>::empty() };
        assert(kept_lines(a, t) + kept_lines(b, t) =~= kept_lines(a, t) + kept_lines(b.drop_last(), t) + tail);
    }
}

/// Filtering violations by a line test (as [`EvaluationResult::filter_descriptions_matching`]
/// and the ignore patterns do) leaves exactly the violation lines that the test keeps, in
/// their order; so a filtered result has a violation exactly when some line is kept.
pub proof fn lemma_filtered_lines(evs: Seq<EventView>, t: LineSelection)
    requires
        forall|i: int| 0 <= i < evs.len() ==> (#[trigger] evs[i]).face.violation,
    ensures
        face_lines(filtered_violations(evs, t)) == kept_lines(face_lines(evs), t),
        filtered_violations(evs, t).len() == 0 <==> kept_lines(face_lines(evs), t).len() == 0,
    decreases evs.len(),
{
    if evs.len() > 0 {
        let rest = evs.drop_last();
        let e = evs.last();
        assert(forall|i: int| 0 <= i < rest.len() ==> (#[trigger] rest[i]) == evs[i]);
        lemma_filtered_lines(rest, t);
        lemma_kept_lines_concat(face_lines(rest), e.face.lines, t);
        let f = filtered_event(e, t);
        if f.face.violation {
            lemma_face_lines_concat(filtered_violations(rest, t), seq![f]);
            assert(face_lines(seq![f]) == face_lines(seq![f].drop_last()) + f.face.lines);
            assert(seq![f].drop_last() =~= Seq::<EventView>::empty());
            assert(face_lines(seq![f]) =~= f.face.lines);
        } else {
            assert(filtered_violations(evs, t) =~= filtered_violations(rest, t));
            assert(kept_lines(e.face.lines, t).len() == 0);
            assert(kept_lines(face_lines(evs), t) =~= kept_lines(face_lines(rest), t));
        }
        if filtered_violations(evs, t).len() == 0 {
            assert(filtered_violations(rest, t).len() == 0);
            assert(!f.face.violation);
        }
        if filtered_violations(evs, t).len() > 0 && kept_lines(face_lines(evs), t).len() == 0 {
            if f.face.violation {
                assert(kept_lines(e.face.lines, t).len() > 0);
            } else {
                assert(filtered_violations(rest, t).len() > 0);
            }
        }
    } else {
        assert(kept_lines(face_lines(evs), t) =~= Seq::<Seq<char>>::empty());
    }
}

/// `line` with each line break (`\r\n` or `\n`) made a space.
pub fn space_line_breaks(line: &str) -> (r: String)
    ensures
        r@ == spaced_line_breaks(line@),
{
    let unix = ensure_unix_line_breaks(line);
    let cs = crate::text::chars_of(unix.as_str());
    let mut out: Vec<char> = Vec::new();
    let mut i: usize = 0;
    while i < cs.len()
        invariant
            cs@ == unix_line_breaks(line@),
            i <= cs@.len(),
            out@ == cs@.take(i as int).map_values(|c: char| if c == '\n' { ' ' } else { c }),
        decreases cs@.len() - i,
    {
        let c = cs[i];
        out.push(if c == '\n' { ' ' } else { c });
        proof {
            assert(cs@.take(i + 1).map_values(|c: char| if c == '\n' { ' ' } else { c })
                =~= cs@.take(i as int).map_values(|c: char| if c == '\n' { ' ' } else { c }).push(if c == '\n' { ' ' } else { c }));
        }
        i += 1;
    }
    proof {
        assert(cs@.take(cs@.len() as int) =~= cs@);
    }
    crate::text::string_of(&out)
}

/// Whether some of `patterns` matches `line` with its line breaks made spaces.
fn matches_ignore_pattern(patterns: &Vec<String>, line: &str) -> (r: bool)
    ensures
        r == ignored_line(views(patterns@), line@),
{
    let spaced = space_line_breaks(line);
    let mut i: usize = 0;
    while i < patterns.len()
        invariant
            i <= patterns@.len(),
            spaced@ == spaced_line_breaks(line@),
            forall|j: int| 0 <= j < i ==> #[trigger] regex_is_match(views(patterns@)[j], spaced@) != Some(true),
        decreases patterns@.len() - i,
    {
        let m = regex_match(patterns[i].as_str(), spaced.as_str());
        proof {
            assert(views(patterns@)[i as int] == patterns@[i as int]@);
        }
        if m == Some(true) {
            return true;
        }
        i += 1;
    }
    false
}

fn keeps_line(t: &LineTest, line: &str) -> (r: bool)
    ensures
        r == keeps(t@, line@),
{
    match t {
        LineTest::NotAmong(known) => keeps_known_line(known, line),
        LineTest::NotMatching(patterns) => !matches_ignore_pattern(patterns, line),
    }
}

fn keeps_known_line(known: &Vec<String>, line: &str) -> (r: bool)
    ensures
        r == keeps(LineSelection::NotAmong(views(known@)), line@),
{
    let normalized = ensure_unix_line_breaks(line);
    let mut i: usize = 0;
    while i < known.len()
        invariant
            i <= known@.len(),
            normalized@ == unix_line_breaks(line@),
            forall|j: int| 0 <= j < i ==> known@[j]@ != normalized@,
        decreases known@.len() - i,
    {
        if crate::text::str_eq(known[i].as_str(), normalized.as_str()) {
            proof {
                assert(views(known@)[i as int] == normalized@);
                assert(views(known@).contains(normalized@));
            }
            return false;
        }
        i += 1;
    }
    proof {
        if views(known@).contains(normalized@) {
            let j = choose|j: int| 0 <= j < views(known@).len() && views(known@)[j] == normalized@;
            assert(known@[j]@ == normalized@);
        }
    }
    true
}

fn filter_face(f: &EventFace, known: &LineTest) -> (r: EventFace)
    ensures
        r@ == filtered_face(f@, known@),
{
    let mut lines: Vec<String> = Vec::new();
    let mut i: usize = 0;
    proof {
        assert(views(lines@) =~= Seq::<Seq<char>>::empty());
    }
    while i < f.lines.len()
        invariant
            i <= f.lines@.len(),
            views(lines@) == kept_lines(views(f.lines@.take(i as int)), known@),
        decreases f.lines@.len() - i,
    {
        proof {
            assert(views(f.lines@.take(i + 1)).drop_last() =~= views(f.lines@.take(i as int)));
            assert(views(f.lines@.take(i + 1)).last() == f.lines@[i as int]@);
        }
        if keeps_line(known, f.lines[i].as_str()) {
            let ghost before = views(lines@);
            lines.push(f.lines[i].clone());
            proof {
                assert(views(lines@) =~= before + seq![f.lines@[i as int]@]);
            }
        } else {
            proof {
                assert(views(lines@) =~= views(lines@) + Seq::<Seq<char>>::empty());
            }
        }
        i += 1;
    }
    let mut handled: Vec<Handled> = Vec::new();
    let mut j: usize = 0;
    proof {
        assert(f.lines@.take(f.lines@.len() as int) =~= f.lines@);
        assert(handled_views(handled@) =~= Seq::<HandledView>::empty());
    }
    while j < f.handled.len()
        invariant
            j <= f.handled@.len(),
            handled_views(handled@) == kept_handled(handled_views(f.handled@.take(j as int)), known@),
        decreases f.handled@.len() - j,
    {
        proof {
            assert(handled_views(f.handled@.take(j + 1)).drop_last() =~= handled_views(f.handled@.take(j as int)));
            assert(handled_views(f.handled@.take(j + 1)).last() == f.handled@[j as int]@);
        }
        if keeps_line(known, f.handled[j].message.as_str()) {
            let ghost before = handled_views(handled@);
            handled.push(f.handled[j].copy());
            proof {
                assert(handled_views(handled@) =~= before + seq![f.handled@[j as int]@]);
            }
        } else {
            proof {
                assert(handled_views(handled@) =~= handled_views(handled@) + Seq::<HandledView>::empty());
            }
        }
        j += 1;
    }
    proof {
        assert(f.handled@.take(f.handled@.len() as int) =~= f.handled@);
    }
    let violation = f.violation && lines.len() > 0;
    EventFace { violation, lines, handled }
}

impl EvaluationResult {
    /// Keeps only the violation lines not among `known_lines` (compared with `\n` line
    /// breaks); events left without lines are dropped, and the custom text for the number of
    /// violations is reset.
    pub fn filter_descriptions_matching(&self, known_lines: &Vec<String>) -> (r: EvaluationResult)
        ensures
            r@ == (ResultView { violations: filtered_violations(self@.violations, LineSelection::NotAmong(views(known_lines@))), information: None, ..self@ }),
    {
        let test = LineTest::NotAmong(clone_strings(known_lines));
        let violations = filter_violations(&self.violations, &test);
        EvaluationResult { rule_description: self.rule_description.clone(), violations, information: None, priority: self.priority }
    }
}

/// The violations with only the lines that `test` keeps; events left without lines are
/// dropped.
fn filter_violations(all: &Vec<ConditionEvent>, test: &LineTest) -> (r: Vec<ConditionEvent>)
    ensures
        event_views(r@) == filtered_violations(event_views(all@), test@),
{
        let mut violations: Vec<ConditionEvent> = Vec::new();
        let mut i: usize = 0;
        proof {
            assert(event_views(violations@) =~= Seq::<EventView>::empty());
        }
        while i < all.len()
            invariant
                i <= all@.len(),
                event_views(violations@) == filtered_violations(event_views(all@.take(i as int)), test@),
            decreases all@.len() - i,
        {
            proof {
                assert(event_views(all@.take(i + 1)).drop_last() =~= event_views(all@.take(i as int)));
                assert(event_views(all@.take(i + 1)).last() == all@[i as int]@);
            }
            let e = ConditionEvent { face: filter_face(&all[i].face, test), inverse: filter_face(&all[i].inverse, test) };
            if e.face.violation {
                let ghost before = event_views(violations@);
                let ghost ev = e@;
                violations.push(e);
                proof {
                    assert(event_views(violations@) =~= before + seq![ev]);
                }
            } else {
                proof {
                    assert(event_views(violations@) =~= event_views(violations@) + Seq::<EventView>::empty());
                }
            }
            i += 1;
        }
        proof {
            assert(all@.take(all@.len() as int) =~= all@);
        }
        violations
}

/// Whether a trimmed line of an ignore patterns file holds a pattern: it is not empty and does
/// not start with `#`.
pub open spec fn is_pattern_line(line: Seq<char>) -> bool {
    line.len() > 0 && line[0] != '#'
}

/// The trimmed lines among `lines` that hold patterns, in order.
pub open spec fn pattern_lines(lines: Seq<Seq<char>>) -> Seq<Seq<char>>
    decreases lines.len(),
{
    if lines.len() == 0 {
        Seq::empty()
    } else {
        pattern_lines(lines.drop_last()) + if is_pattern_line(trimmed(lines.last())) { seq![trimmed(lines.last())] } else { Seq::empty() }
    }
}

/// The patterns of an ignore patterns file that reads `text`: its lines (split at `\n`; a
/// `\r` before it goes with the trimming), trimmed, without the empty ones and those that
/// start with `#`.
pub open spec fn ignore_patterns_in(text: Seq<char>) -> Seq<Seq<char>> {
    pattern_lines(split_on(text, seq!['\n']))
}

/// The patterns in the text of an ignore patterns file: one regular expression per line;
/// blank lines and lines starting with `#` hold none.
pub fn parse_ignore_patterns(text: &str) -> (r: Vec<String>)
    ensures
        views(r@) == ignore_patterns_in(text@),
{
    let chars = chars_of(text);
    let mut sep: Vec<char> = Vec::new();
    sep.push('\n');
    proof {
        assert(sep@ =~= seq!['\n']);
    }
    let pieces = split_chars(&chars, &sep);
    let ghost lines = char_views(pieces@);
    let mut r: Vec<String> = Vec::new();
    let mut i: usize = 0;
    while i < pieces.len()
        invariant
            i <= pieces@.len(),
            lines == char_views(pieces@),
            lines == split_on(text@, seq!['\n']),
            views(r@) == pattern_lines(lines.take(i as int)),
        decreases pieces@.len() - i,
    {
        proof {
            assert(lines.take(i + 1).drop_last() =~= lines.take(i as int));
            assert(lines.take(i + 1).last() == pieces@[i as int]@);
        }
        let t = trim_chars(&pieces[i]);
        if t.len() > 0 && t[0] != '#' {
            let ghost before = views(r@);
            r.push(string_of(&t));
            proof {
                assert(views(r@) =~= before + seq![t@]);
            }
        } else {
            proof {
                assert(views(r@) =~= views(r@) + Seq::<Seq<char>>::empty());
            }
        }
        i += 1;
    }
    proof {
        assert(lines.take(pieces@.len() as int) =~= lines);
    }
    r
}

/// The violations without the lines that one of `ignore_patterns` matches once their line
/// breaks are made spaces; events left without lines are dropped. Without patterns all
/// violations stay as they are.
pub fn apply_ignore_patterns(violations: Vec<ConditionEvent>, ignore_patterns: &Vec<String>) -> (r: Vec<ConditionEvent>)
    ensures
        event_views(r@) == ignored(event_views(violations@), views(ignore_patterns@)),
{
    if ignore_patterns.len() == 0 {
        return violations;
    }
    let test = LineTest::NotMatching(clone_strings(ignore_patterns));
    filter_violations(&violations, &test)
}

} // verus!
