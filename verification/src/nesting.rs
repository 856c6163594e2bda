//! What holds of every tree that is built from scopes entered and left.

use vstd::prelude::*;
use crate::scopes::{
    all_single, closed_under, elapsed, entered, finished, replay, roots, untouched, well_nested,
    Event, Pending,
};
use crate::tree::Tree;

verus! {

proof fn lemma_untouched_drop_last(events: Seq<Event>, id: u64)
    requires
        untouched(events, id),
        events.len() > 0,
    ensures
        untouched(events.drop_last(), id),
        events.last().id() != id,
{
    assert forall|k: int| 0 <= k < events.drop_last().len() implies
        (#[trigger] events.drop_last()[k]).id()
        != id by {
        assert(events[k].id() != id);
    }
    assert(events[events.len() - 1].id() != id);
}

/// While a scope stays open it keeps the time at which it was entered, and
/// it gains as children the trees of the scopes that close directly under
/// it, those and no others, in the order in which they close.
pub proof fn law_children_in_closing_order(
    scopes: Map<u64, Pending>,
    events: Seq<Event>,
    parent: u64,
)
    requires
        scopes.contains_key(parent),
        well_nested(scopes, events),
        untouched(events, parent),
    ensures
        replay(scopes, events).contains_key(parent),
        replay(scopes, events)[parent].start == scopes[parent].start,
        replay(scopes, events)[parent].children == scopes[parent].children + closed_under(
            scopes,
            events,
            parent,
        ),
    decreases events.len(),
{
    if events.len() == 0 {
        assert(scopes[parent].children + Seq::<Tree>::empty() =~= scopes[parent].children);
    } else {
        let earlier = events.drop_last();
        lemma_untouched_drop_last(events, parent);
        law_children_in_closing_order(scopes, earlier, parent);
        let state = replay(scopes, earlier);
        let last = events.last();
        let so_far = closed_under(scopes, earlier, parent);
        match last {
            Event::Enter { id, now } => {},
            Event::Exit { id, name, parent: above, now } => {
                if above == Some(parent) {
                    let tree = finished(state[id], name, now);
                    assert((scopes[parent].children + so_far).push(tree) =~= scopes[parent].children
                        + so_far.push(tree));
                }
            },
        }
    }
}

/// The tree of a scope mirrors what happened while the scope was open: it
/// bears the name given when the scope is left, stands for one scope, took
/// the time from entering to leaving, and has as children the trees of the
/// scopes that closed directly under it, in the order in which they closed.
pub proof fn law_tree_mirrors_nesting(
    scopes: Map<u64, Pending>,
    id: u64,
    start: u64,
    inside: Seq<Event>,
    name: Seq<char>,
    parent: Option<u64>,
    now: u64,
)
    requires
        well_nested(entered(scopes, id, start), inside),
        untouched(inside, id),
    ensures
        (Event::Exit { id, name, parent, now }).tree(replay(entered(scopes, id, start), inside))
            == Some(
            Tree {
                name,
                count: 1,
                duration: elapsed(start, now),
                children: closed_under(entered(scopes, id, start), inside, id),
            },
        ),
{
    let opened = entered(scopes, id, start);
    law_children_in_closing_order(opened, inside, id);
    assert(Seq::<Tree>::empty() + closed_under(opened, inside, id) =~= closed_under(
        opened,
        inside,
        id,
    ));
}

/// An event keeps the trees inside the open scopes made of scopes that each
/// stand for themselves alone, and the tree that it finishes is made of such
/// scopes too. Of a scope that is left this holds where the event can follow
/// on the open scopes; of a scope that is entered it holds anyway.
pub proof fn law_event_keeps_single(scopes: Map<u64, Pending>, event: Event)
    requires
        all_single(scopes),
        event is Exit ==> event.fits(scopes),
    ensures
        all_single(event.apply(scopes)),
        event.tree(scopes) matches Some(tree) ==> tree.single(),
{
    let after = event.apply(scopes);
    match event {
        Event::Enter { id, now } => {
            assert forall|other: u64, i: int|
                after.contains_key(other) && 0 <= i < after[other].children.len() implies (
            #[trigger] after[other].children[i]).single() by {
                if other != id {
                    assert(scopes[other].children[i].single());
                }
            }
        },
        Event::Exit { id, name, parent: above, now } => {
            let tree = finished(scopes[id], name, now);
            assert(tree.single()) by {
                assert forall|i: int| 0 <= i < tree.children.len() implies (
                #[trigger] tree.children[i]).single() by {
                    assert(scopes[id].children[i].single());
                }
            }
            assert forall|other: u64, i: int|
                after.contains_key(other) && 0 <= i < after[other].children.len() implies (
            #[trigger] after[other].children[i]).single() by {
                if above == Some(other) {
                    if i < scopes[other].children.len() {
                        assert(scopes[other].children[i].single());
                    }
                } else {
                    assert(scopes[other].children[i].single());
                }
            }
        },
    }
}

/// Every scope of a tree that is built stands for itself alone: where that
/// holds of the trees inside the scopes that are open, it holds after any
/// events, of those trees, of each tree that closes under a scope and of each
/// tree that closes without one.
pub proof fn law_built_trees_single(scopes: Map<u64, Pending>, events: Seq<Event>)
    requires
        all_single(scopes),
        well_nested(scopes, events),
    ensures
        all_single(replay(scopes, events)),
        forall|k: int|
            0 <= k < roots(scopes, events).len() ==> (#[trigger] roots(scopes, events)[k]).single(),
        forall|parent: u64, k: int|
            0 <= k < closed_under(scopes, events, parent).len() ==> (#[trigger] closed_under(
                scopes,
                events,
                parent,
            )[k]).single(),
    decreases events.len(),
{
    if events.len() > 0 {
        let earlier = events.drop_last();
        law_built_trees_single(scopes, earlier);
        law_event_keeps_single(replay(scopes, earlier), events.last());
        assert forall|k: int| 0 <= k < roots(scopes, events).len() implies (#[trigger] roots(
            scopes,
            events,
        )[k]).single() by {
            if k < roots(scopes, earlier).len() {
                assert(roots(scopes, earlier)[k].single());
            }
        }
        assert forall|parent: u64, k: int|
            0 <= k < closed_under(scopes, events, parent).len() implies (#[trigger] closed_under(
            scopes,
            events,
            parent,
        )[k]).single() by {
            if k < closed_under(scopes, earlier, parent).len() {
                assert(closed_under(scopes, earlier, parent)[k].single());
            }
        }
    }
}

} // verus!
