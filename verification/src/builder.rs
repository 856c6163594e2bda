//! The builder of trees: it keeps the scopes that are open and turns each
//! scope that is left into a node.

use std::collections::HashMap;
use vstd::prelude::*;
use crate::node::{trees, Node};
use crate::render::{report, texts};
use crate::nesting::law_event_keeps_single;
use crate::scopes::{all_single, entered, finished, left, Event, Pending};
use crate::tree::{aggregates, law_within_limits_mergeable};

verus! {

/// What is kept of a scope while it is open.
pub struct Data {
    pub(crate) start: u64,
    pub(crate) children: Vec<Node>,
}

impl View for Data {
    type V = Pending;

    open(crate) spec fn view(&self) -> Pending {
        Pending { start: self.start, children: trees(self.children@) }
    }
}

impl Data {
    /// The state of a scope that is entered at `now`.
    pub fn new(now: u64) -> (data: Data)
        ensures
            data@ == (Pending { start: now, children: Seq::empty() }),
    {
        let data = Data { start: now, children: Vec::new() };
        assert(trees(data.children@) =~= Seq::empty());
        data
    }

    /// The node of the scope, which is left at `now` and shown as `name`.
    pub fn into_node(self, name: String, now: u64) -> (node: Node)
        ensures
            node@ == finished(self@, name@, now),
    {
        let duration = if now >= self.start {
            now - self.start
        } else {
            0
        };
        Node::new(name, duration, self.children)
    }
}

/// Builds a tree of nodes from the scopes that are entered and left, and
/// knows whether finished trees are to be aggregated.
///
/// Every event changes the builder, so one builder serves one sequence of
/// events: where scopes are reported from several threads, the caller guards
/// the builder.
pub struct SpanTree {
    pub(crate) aggregate: bool,
    pub(crate) open: HashMap<u64, Data>,
}

/// A builder with no scope open, which does not aggregate.
pub fn span_tree() -> (tree: SpanTree)
    ensures
        !tree.aggregating(),
        tree.open() == Map::<u64, Pending>::empty(),
        all_single(tree.open()),
{
    let tree = SpanTree { aggregate: false, open: HashMap::new() };
    assert(tree.open() =~= Map::<u64, Pending>::empty());
    tree
}

impl Default for SpanTree {
    fn default() -> (tree: SpanTree)
        ensures
            !tree.aggregating(),
            tree.open() == Map::<u64, Pending>::empty(),
            all_single(tree.open()),
    {
        span_tree()
    }
}

impl SpanTree {
    /// Finished trees are aggregated before they are rendered.
    pub open(crate) spec fn aggregating(&self) -> bool {
        self.aggregate
    }

    /// The scopes that are open, by their identity.
    pub open(crate) spec fn open(&self) -> Map<u64, Pending> {
        self.open@.map_values(|data: Data| data@)
    }

    /// Merge identical sibling scopes together, or do not.
    pub fn aggregate(self, yes: bool) -> (tree: SpanTree)
        ensures
            tree.aggregating() == yes,
            tree.open() == self.open(),
    {
        SpanTree { aggregate: yes, open: self.open }
    }

    /// Whether finished trees are aggregated.
    pub fn is_aggregating(&self) -> (yes: bool)
        ensures
            yes == self.aggregating(),
    {
        self.aggregate
    }

    /// Whether scope `id` is open.
    pub fn is_open(&self, id: u64) -> (yes: bool)
        ensures
            yes == self.open().contains_key(id),
    {
        self.open.contains_key(&id)
    }

    /// Renders the tree below `root`, and aggregates it first if this
    /// builder aggregates. Where it is to aggregate a tree that is not within
    /// the limits, it does nothing and hands back no lines.
    pub fn finish(&self, root: &mut Node, styled: bool) -> (lines: Option<Vec<String>>)
        ensures
            lines is Some <==> (self.aggregating() ==> old(root)@.within_limits()),
            lines matches Some(lines) ==> texts(lines@) == report(final(root)@, styled),
            lines is Some && self.aggregating() ==> aggregates(final(root)@, old(root)@),
            lines is None || !self.aggregating() ==> final(root)@ == old(root)@,
    {
        if self.aggregate && !root.within_limits() {
            return None;
        }
        proof {
            if self.aggregate {
                law_within_limits_mergeable(root@);
            }
        }
        Some(root.print(self.aggregate, styled))
    }

    /// Scope `id` is entered at `now`.
    pub fn on_new_span(&mut self, id: u64, now: u64)
        ensures
            final(self).aggregating() == old(self).aggregating(),
            final(self).open() == entered(old(self).open(), id, now),
            all_single(old(self).open()) ==> all_single(final(self).open()),
    {
        self.open.insert(id, Data::new(now));
        assert(self.open() =~= entered(old(self).open(), id, now));
        proof {
            if all_single(old(self).open()) {
                law_event_keeps_single(old(self).open(), Event::Enter { id, now });
            }
        }
    }

    /// Scope `id` is left at `now`. It is shown as `name`, and `parent` is
    /// the open scope around it, if there is one. The node of the scope
    /// becomes the newest child of its parent. Without a parent it is the
    /// root of a finished tree, and is handed back.
    pub fn on_close(&mut self, id: u64, name: String, parent: Option<u64>, now: u64) -> (root:
        Option<Node>)
        requires
            old(self).open().contains_key(id),
            parent matches Some(p) ==> p != id && old(self).open().contains_key(p),
        ensures
            final(self).aggregating() == old(self).aggregating(),
            final(self).open() == left(old(self).open(), id, name@, parent, now),
            match root {
                Some(node) => parent is None && node@ == finished(old(self).open()[id], name@, now),
                None => parent is Some,
            },
            all_single(old(self).open()) ==> all_single(final(self).open()) && (root matches Some(
                node,
            ) ==> node@.single()),
    {
        proof {
            if all_single(old(self).open()) {
                law_event_keeps_single(
                    old(self).open(),
                    Event::Exit { id, name: name@, parent, now },
                );
            }
        }
        let data = self.open.remove(&id).unwrap();
        let node = data.into_node(name, now);
        match parent {
            Some(p) => {
                let mut above = self.open.remove(&p).unwrap();
                above.children.push(node);
                assert(trees(above.children@) =~= old(self).open()[p].children.push(node@));
                self.open.insert(p, above);
                assert(self.open() =~= left(old(self).open(), id, name@, parent, now));
                None
            },
            None => {
                assert(self.open() =~= left(old(self).open(), id, name@, parent, now));
                Some(node)
            },
        }
    }
}

} // verus!
