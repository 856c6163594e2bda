//! The mathematical model of the scopes that are open, and of what entering
//! and leaving a scope does to them.

use vstd::prelude::*;
use crate::tree::Tree;

verus! {

/// A scope that has been entered and not yet left.
pub struct Pending {
    /// When the scope was entered, in nanoseconds.
    pub start: u64,
    /// The trees of the scopes that have closed inside it so far, in the
    /// order in which they closed.
    pub children: Seq<Tree>,
}

/// The nanoseconds from `start` to `now`, and none if `now` is the earlier.
pub open spec fn elapsed(start: u64, now: u64) -> nat {
    if now >= start {
        (now - start) as nat
    } else {
        0
    }
}

/// The tree of a scope that is left at `now` and shown as `name`.
pub open spec fn finished(pending: Pending, name: Seq<char>, now: u64) -> Tree {
    Tree { name, count: 1, duration: elapsed(pending.start, now), children: pending.children }
}

/// The open scopes after scope `id` has been entered at `now`.
pub open spec fn entered(scopes: Map<u64, Pending>, id: u64, now: u64) -> Map<u64, Pending> {
    scopes.insert(id, Pending { start: now, children: Seq::empty() })
}

/// The open scopes after scope `id` has been left at `now`: it is open no
/// longer, and its tree is the newest child of `parent`, if it has one.
pub open spec fn left(
    scopes: Map<u64, Pending>,
    id: u64,
    name: Seq<char>,
    parent: Option<u64>,
    now: u64,
) -> Map<u64, Pending> {
    match parent {
        Some(p) => scopes.remove(id).insert(
            p,
            Pending {
                start: scopes[p].start,
                children: scopes[p].children.push(finished(scopes[id], name, now)),
            },
        ),
        None => scopes.remove(id),
    }
}

/// What the host reports of a scope.
pub enum Event {
    /// Scope `id` was entered at `now`.
    Enter { id: u64, now: u64 },
    /// Scope `id` was left at `now`. It is shown as `name`, and `parent` is
    /// the scope around it, if there is one.
    Exit { id: u64, name: Seq<char>, parent: Option<u64>, now: u64 },
}

impl Event {
    /// The scope that the event is about.
    pub open spec fn id(self) -> u64 {
        match self {
            Event::Enter { id, .. } => id,
            Event::Exit { id, .. } => id,
        }
    }

    /// The event can follow on `scopes`: a scope that is entered is not open
    /// yet; a scope that is left is open, and so is its parent, which is
    /// another scope.
    pub open spec fn fits(self, scopes: Map<u64, Pending>) -> bool {
        match self {
            Event::Enter { id, .. } => !scopes.contains_key(id),
            Event::Exit { id, parent, .. } => scopes.contains_key(id) && match parent {
                Some(p) => p != id && scopes.contains_key(p),
                None => true,
            },
        }
    }

    /// The open scopes after the event.
    pub open spec fn apply(self, scopes: Map<u64, Pending>) -> Map<u64, Pending> {
        match self {
            Event::Enter { id, now } => entered(scopes, id, now),
            Event::Exit { id, name, parent, now } => left(scopes, id, name, parent, now),
        }
    }

    /// The tree that the event finishes, if it is the leaving of a scope.
    pub open spec fn tree(self, scopes: Map<u64, Pending>) -> Option<Tree> {
        match self {
            Event::Enter { .. } => None,
            Event::Exit { id, name, now, .. } => Some(finished(scopes[id], name, now)),
        }
    }

    /// The scope under which the event puts a finished tree, if any.
    pub open spec fn parent(self) -> Option<u64> {
        match self {
            Event::Enter { .. } => None,
            Event::Exit { parent, .. } => parent,
        }
    }
}

/// The open scopes after `events` have followed on `scopes`.
pub open spec fn replay(scopes: Map<u64, Pending>, events: Seq<Event>) -> Map<u64, Pending>
    decreases events.len(),
{
    if events.len() == 0 {
        scopes
    } else {
        events.last().apply(replay(scopes, events.drop_last()))
    }
}

/// Each of `events` can follow on what came before it.
pub open spec fn well_nested(scopes: Map<u64, Pending>, events: Seq<Event>) -> bool
    decreases events.len(),
{
    events.len() > 0 ==> well_nested(scopes, events.drop_last()) && events.last().fits(
        replay(scopes, events.drop_last()),
    )
}

/// The trees of the scopes that `events` close directly under `parent`, in
/// the order in which they close.
pub open spec fn closed_under(scopes: Map<u64, Pending>, events: Seq<Event>, parent: u64) -> Seq<
    Tree,
>
    decreases events.len(),
{
    if events.len() == 0 {
        Seq::empty()
    } else {
        let earlier = closed_under(scopes, events.drop_last(), parent);
        let last = events.last();
        if last.parent() == Some(parent) {
            earlier.push(last.tree(replay(scopes, events.drop_last())).unwrap())
        } else {
            earlier
        }
    }
}

/// The trees of the scopes without a parent that `events` close, in the
/// order in which they close.
pub open spec fn roots(scopes: Map<u64, Pending>, events: Seq<Event>) -> Seq<Tree>
    decreases events.len(),
{
    if events.len() == 0 {
        Seq::empty()
    } else {
        let earlier = roots(scopes, events.drop_last());
        let last = events.last();
        if last is Exit && last.parent() is None {
            earlier.push(last.tree(replay(scopes, events.drop_last())).unwrap())
        } else {
            earlier
        }
    }
}

/// None of `events` is about scope `id`.
pub open spec fn untouched(events: Seq<Event>, id: u64) -> bool {
    forall|k: int| 0 <= k < events.len() ==> (#[trigger] events[k]).id() != id
}

/// Every tree that has closed inside an open scope is made of scopes that
/// each stand for themselves alone.
pub open spec fn all_single(scopes: Map<u64, Pending>) -> bool {
    forall|id: u64, i: int|
        scopes.contains_key(id) && 0 <= i < scopes[id].children.len() ==> (
        #[trigger] scopes[id].children[i]).single()
}

} // verus!
