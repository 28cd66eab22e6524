//! The condition that an item can only be constructed inside its own module: every function
//! classified as its constructor is private, and a struct cannot be built with a struct
//! literal from outside (it has a private field or is `#[non_exhaustive]`).

use vstd::prelude::*;
use vstd::string::*;

use super::condition::{lemma_added_all_concat, lemma_added_one, reference_of};
use super::events::{
    create_message, is_blank, is_white, message_text, single_event, ConditionEvents, CorrespondingObject, EventView,
    SimpleConditionEvent,
};
use crate::domain::{member_views, ItemKind, MemberView, RustItem, RustModifier};
use crate::text::cat3;

verus! {

/// `Constructor <name> is private` or `.. is not private`.
pub open spec fn constructor_message(m: MemberView) -> Seq<char> {
    "Constructor <"@ + m.full_name + "> "@ + if m.modifiers.contains(RustModifier::Private) {
        "is private"@
    } else {
        "is not private"@
    }
}

/// The event on one constructor of `item`: satisfied where it is private.
pub open spec fn constructor_event(item: RustItem, m: MemberView) -> EventView {
    single_event(CorrespondingObject::Item(reference_of(item)), m.modifiers.contains(RustModifier::Private), constructor_message(m))
}

/// A struct cannot be built with a struct literal outside its module: it is
/// `#[non_exhaustive]` or has a private field.
pub open spec fn sealed(item: RustItem) -> bool {
    item.modifiers@.contains(RustModifier::NonExhaustive)
        || exists|i: int| 0 <= i < item.fields@.len() && (#[trigger] item.fields@[i]).modifiers@.contains(RustModifier::Private)
}

/// The message on whether a struct can be built with a struct literal from outside.
pub open spec fn literal_message(item: RustItem) -> Seq<char> {
    message_text(item, if sealed(item) {
        "cannot be constructed with a struct literal outside its module"@
    } else {
        "can be constructed with a struct literal outside its module"@
    })
}

/// What `have only private constructors` finds on `item`: one event per constructor, in order,
/// then, for a struct, one on whether it can be built with a struct literal from outside.
pub open spec fn private_constructor_events(item: RustItem) -> Seq<EventView> {
    Seq::new(item.constructors@.len(), |i: int| constructor_event(item, item.constructors@[i]@))
        + if item.kind == ItemKind::Struct {
        seq![single_event(CorrespondingObject::Item(reference_of(item)), sealed(item), literal_message(item))]
    } else {
        Seq::empty()
    }
}

/// Adds the events of `have only private constructors` on `item`.
pub fn check_private_constructors(item: &RustItem, events: &mut ConditionEvents)
    ensures
        final(events)@ == old(events)@.added_all(private_constructor_events(*item)),
{
    let ghost cons = Seq::new(item.constructors@.len(), |i: int| constructor_event(*item, item.constructors@[i]@));
    let mut i: usize = 0;
    proof {
        assert(cons.take(0) =~= Seq::<EventView>::empty());
    }
    while i < item.constructors.len()
        invariant
            i <= item.constructors@.len(),
            cons == Seq::new(item.constructors@.len(), |i: int| constructor_event(*item, item.constructors@[i]@)),
            events@ == old(events)@.added_all(cons.take(i as int)),
        decreases item.constructors@.len() - i,
    {
        let m = &item.constructors[i];
        let private = m.has_modifier(RustModifier::Private);
        let message = cat3("Constructor <", m.full_name.as_str(), if private { "> is private" } else { "> is not private" });
        proof {
            reveal_strlit("Constructor <");
            reveal_strlit("> is private");
            reveal_strlit("> is not private");
            reveal_strlit("is private");
            reveal_strlit("is not private");
            reveal_strlit("> ");
            assert(message@ =~= constructor_message(m@));
            assert(message@[0] == 'C');
            assert(!is_white(message@[0]));
        }
        let e = SimpleConditionEvent::new(CorrespondingObject::Item(item.reference()), private, message);
        proof {
            assert(e.event_view() == cons[i as int]);
            assert(cons.take(i + 1) =~= cons.take(i as int) + seq![cons[i as int]]);
            lemma_added_all_concat(old(events)@, cons.take(i as int), seq![cons[i as int]]);
            lemma_added_one(events@, cons[i as int]);
        }
        events.add(e);
        i += 1;
    }
    proof {
        assert(cons.take(cons.len() as int) =~= cons);
    }
    if item.kind == ItemKind::Struct {
        let mut is_sealed = item.has_modifier(RustModifier::NonExhaustive);
        let mut j: usize = 0;
        while j < item.fields.len()
            invariant
                j <= item.fields@.len(),
                is_sealed == (item.modifiers@.contains(RustModifier::NonExhaustive)
                    || exists|k: int| 0 <= k < j && (#[trigger] item.fields@[k]).modifiers@.contains(RustModifier::Private)),
            decreases item.fields@.len() - j,
        {
            if item.fields[j].has_modifier(RustModifier::Private) {
                is_sealed = true;
            }
            j += 1;
        }
        let message = create_message(item, if is_sealed {
            "cannot be constructed with a struct literal outside its module"
        } else {
            "can be constructed with a struct literal outside its module"
        });
        proof {
            reveal_strlit("cannot be constructed with a struct literal outside its module");
            reveal_strlit("can be constructed with a struct literal outside its module");
            reveal_strlit("Item <");
            assert(message@ == literal_message(*item));
            assert(message@[0] == 'I');
            assert(!is_white(message@[0]));
        }
        let e = SimpleConditionEvent::new(CorrespondingObject::Item(item.reference()), is_sealed, message);
        let ghost last = e.event_view();
        proof {
            assert(private_constructor_events(*item) == cons + seq![last]);
            lemma_added_all_concat(old(events)@, cons, seq![last]);
            lemma_added_one(events@, last);
        }
        events.add(e);
    } else {
        proof {
            assert(private_constructor_events(*item) =~= cons);
        }
    }
}

} // verus!
