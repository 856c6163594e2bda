//! The nodes of a profile as they are held in memory.

use vstd::prelude::*;
use crate::tree::{joined, Tree};

verus! {

/// A finished scope: its name, how many scopes it stands for, how long they
/// took in nanoseconds, and the scopes that closed inside it.
#[derive(Debug, PartialEq, Eq)]
pub struct Node {
    pub(crate) name: String,
    pub(crate) count: u32,
    pub(crate) duration: u64,
    pub(crate) children: Vec<Node>,
}

impl Node {
    /// The tree that this node is the root of.
    pub open(crate) spec fn tree(self) -> Tree
        decreases self,
    {
        Tree {
            name: self.name@,
            count: self.count as nat,
            duration: self.duration as nat,
            children: Seq::new(
                self.children@.len(),
                |i: int|
                    if 0 <= i < self.children@.len() {
                        self.children@[i].tree()
                    } else {
                        arbitrary()
                    },
            ),
        }
    }

    /// The children of the model are the models of the children.
    pub(crate) proof fn lemma_children(self)
        ensures
            self@.children == trees(self.children@),
    {
        assert(self@.children =~= trees(self.children@));
    }

    /// The counts and durations of a node fit the integers that hold them.
    pub proof fn lemma_fits(self)
        ensures
            self@.fits(),
        decreases self,
    {
        assert forall|i: int| 0 <= i < self@.children.len() implies
            (#[trigger] self@.children[i]).fits() by {
            self.children@[i].lemma_fits();
        }
    }

    /// A node for one scope named `name` that took `duration` nanoseconds and
    /// inside which `children` closed, in that order.
    pub fn new(name: String, duration: u64, children: Vec<Node>) -> (node: Node)
        ensures
            node@ == (Tree {
                name: name@,
                count: 1,
                duration: duration as nat,
                children: trees(children@),
            }),
            (forall|i: int| 0 <= i < children@.len() ==> (#[trigger] children@[i])@.well_formed())
                ==> node@.well_formed(),
    {
        let node = Node { name, count: 1, duration, children };
        proof {
            node.lemma_children();
        }
        node
    }

    /// The label of the scope.
    pub fn name(&self) -> (name: &str)
        ensures
            name@ == self@.name,
    {
        self.name.as_str()
    }

    /// The number of scopes merged into this node.
    pub fn count(&self) -> (count: u32)
        ensures
            count == self@.count,
    {
        self.count
    }

    /// The time that the scopes of this node took together, in nanoseconds.
    pub fn duration(&self) -> (duration: u64)
        ensures
            duration == self@.duration,
    {
        self.duration
    }

    /// The nodes of the scopes that closed inside this one.
    pub fn children(&self) -> (children: &Vec<Node>)
        ensures
            trees(children@) == self@.children,
    {
        proof {
            self.lemma_children();
        }
        &self.children
    }

    /// Merges this node into `other`, which bears the same name: `other`
    /// gains the count and the duration of this node, and its children behind
    /// those that `other` has already.
    pub fn merge_into(self, other: &mut Node)
        requires
            self@.name == old(other)@.name,
            old(other)@.count + self@.count <= u32::MAX,
            old(other)@.duration + self@.duration <= u64::MAX,
        ensures
            final(other)@ == joined(old(other)@, self@),
            old(other)@.well_formed() && self@.well_formed() ==> final(other)@.well_formed(),
    {
        proof {
            self.lemma_children();
            other.lemma_children();
        }
        let mut children = self.children;
        other.count = other.count + self.count;
        other.duration = other.duration + self.duration;
        other.children.append(&mut children);
        proof {
            other.lemma_children();
            assert(trees(other.children@) =~= old(other)@.children + self@.children);
        }
    }
}

impl View for Node {
    type V = Tree;

    open spec fn view(&self) -> Tree {
        self.tree()
    }
}

/// The models of `nodes`, in the same order.
pub open spec fn trees(nodes: Seq<Node>) -> Seq<Tree> {
    nodes.map_values(|node: Node| node@)
}

} // verus!
