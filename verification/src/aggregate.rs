//! Aggregation: siblings that share a name are merged into one node, at
//! every depth of the tree.

use vstd::prelude::*;
use crate::laws::{
    law_aggregated_mergeable, law_aggregation_aggregated, law_aggregation_conserves,
    law_aggregation_distinct, law_aggregation_well_formed,
};
use crate::node::{trees, Node};
use crate::text::{compare_text, text_le, text_lt};
use crate::tree::{
    aggregates, collapses, count_sum, duration_sum, has_name, joined, lemma_collapses_join,
    lemma_collapses_push, lemma_merged_height, lemma_merged_mergeable, lemma_named_members,
    lemma_named_nonempty, lemma_named_push, lemma_named_take_sums, lemma_sums_push, level, merged,
    named, sorted,
};

verus! {

/// Sorts `nodes` by name with `slice::sort_by`, which is stable, and with
/// `compare_text` to tell which of two names comes first. Afterwards the
/// names are in order, and the nodes that bear any one name are those that
/// bore it before, in the order they had.
#[verifier::external_body]
fn sort_by_name(nodes: &mut Vec<Node>)
    ensures
        sorted(trees(final(nodes)@)),
        forall|name: Seq<char>| #[trigger]
            named(trees(final(nodes)@), name) == named(trees(old(nodes)@), name),
{
    nodes.sort_by(|a, b| compare_text(a.name.as_str(), b.name.as_str()));
}

/// Merges the neighbours of `nodes` that share a name.
fn collapse(nodes: Vec<Node>) -> (out: Vec<Node>)
    requires
        sorted(trees(nodes@)),
        forall|name: Seq<char>|
            count_sum(#[trigger] named(trees(nodes@), name)) <= u32::MAX && duration_sum(
                named(trees(nodes@), name),
            ) <= u64::MAX,
    ensures
        collapses(trees(out@), trees(nodes@)),
{
    let ghost all = trees(nodes@);
    let mut out: Vec<Node> = Vec::new();
    for node in it: nodes.into_iter()
        invariant
            it.seq() == nodes@,
            all == trees(nodes@),
            sorted(all),
            forall|name: Seq<char>|
                count_sum(#[trigger] named(all, name)) <= u32::MAX && duration_sum(
                    named(all, name),
                ) <= u64::MAX,
            collapses(trees(out@), all.take(it.index())),
    {
        let ghost i = it.index();
        let ghost seen = all.take(i);
        let ghost before = trees(out@);
        let ghost t = node@;
        proof {
            assert(t == all[i]);
            assert(all.take(i + 1) =~= seen.push(t));
        }
        let len = out.len();
        if len > 0 && out[len - 1].name == node.name {
            proof {
                assert(before.last() == out@[len - 1]@);
                assert(before.last() == merged(t.name, named(seen, t.name)));
                lemma_named_take_sums(all, i + 1, t.name);
                lemma_named_push(seen, t, t.name);
                lemma_sums_push(named(seen, t.name), t);
                lemma_collapses_join(before, seen, t);
            }
            node.merge_into(&mut out[len - 1]);
            proof {
                assert(trees(out@)[len - 1] == out@[len - 1]@);
                assert(trees(out@) =~= before.update(len - 1, joined(before.last(), t)));
            }
        } else {
            proof {
                assert forall|a: int, b: int| 0 <= a <= b < seen.push(t).len() implies text_le(
                    #[trigger] seen.push(t)[a].name,
                    #[trigger] seen.push(t)[b].name,
                ) by {
                    assert(text_le(all[a].name, all[b].name));
                }
                if len > 0 {
                    assert(before.last() == out@[len - 1]@);
                }
                lemma_collapses_push(before, seen, t);
            }
            out.push(node);
            proof {
                assert(trees(out@) =~= before.push(t));
            }
        }
    }
    proof {
        assert(all.take(nodes@.len() as int) =~= all);
    }
    out
}

impl Node {
    /// Aggregates the tree below this node: wherever several children of one
    /// node share a name, they become one child, which has their counts and
    /// durations added up and their children, aggregated in turn, below it.
    /// The children of every node end up in ascending order of name.
    pub fn aggregate(&mut self)
        requires
            old(self)@.mergeable(),
        ensures
            aggregates(final(self)@, old(self)@),
            final(self)@.distinct(),
            count_sum(final(self)@.children) == count_sum(old(self)@.children),
            duration_sum(final(self)@.children) == duration_sum(old(self)@.children),
            final(self)@.mergeable(),
            old(self)@.well_formed() ==> final(self)@.well_formed(),
        decreases old(self)@.height(),
    {
        let ghost before = self@;
        proof {
            self.lemma_children();
        }
        if self.children.len() == 0 {
            proof {
                self.lemma_fits();
                law_aggregated_mergeable(self@);
                law_aggregation_distinct(self@, before);
            }
            return ;
        }
        let mut nodes: Vec<Node> = Vec::new();
        core::mem::swap(&mut self.children, &mut nodes);
        sort_by_name(&mut nodes);
        let ghost in_order = trees(nodes@);
        proof {
            assert forall|name: Seq<char>|
                count_sum(#[trigger] named(in_order, name)) <= u32::MAX && duration_sum(
                    named(in_order, name),
                ) <= u64::MAX by {
                assert(level(before.children, Seq::empty()) == before.children);
                assert(count_sum(named(level(before.children, Seq::empty()), name)) <= u32::MAX);
            }
        }
        let mut merged_nodes = collapse(nodes);
        let ghost mids = trees(merged_nodes@);
        proof {
            assert forall|k: int| 0 <= k < before.children.len() implies has_name(
                mids,
                (#[trigger] before.children[k]).name,
            ) by {
                let name = before.children[k].name;
                lemma_named_nonempty(before.children, k);
                lemma_named_members(in_order, name);
                let first = named(in_order, name)[0];
                let at = choose|at: int| 0 <= at < in_order.len() && in_order[at] == first;
                assert(has_name(mids, in_order[at].name));
            }
            assert(collapses(mids, before.children));
        }
        let n = merged_nodes.len();
        let mut i: usize = 0;
        while i < n
            invariant
                i <= n,
                n == merged_nodes@.len(),
                n == mids.len(),
                before == old(self)@,
                before.mergeable(),
                before.children.len() > 0,
                collapses(mids, before.children),
                forall|j: int| i <= j < n ==> (#[trigger] merged_nodes@[j])@ == mids[j],
                forall|j: int| 0 <= j < i ==> aggregates((#[trigger] merged_nodes@[j])@, mids[j]),
            decreases n - i,
        {
            proof {
                assert(merged_nodes@[i as int]@ == mids[i as int]);
                lemma_merged_mergeable(before, mids[i as int].name);
                lemma_merged_height(before, mids[i as int].name);
            }
            let child = &mut merged_nodes[i];
            child.aggregate();
            i += 1;
        }
        self.children = merged_nodes;
        proof {
            self.lemma_children();
            let after = self@.children;
            assert forall|j: int| 0 <= j < after.len() implies (#[trigger] after[j]).name
                == mids[j].name && aggregates(after[j], mids[j]) by {
                assert(after[j] == self.children@[j]@);
            }
            assert forall|a: int, b: int| 0 <= a < b < after.len() implies text_lt(
                #[trigger] after[a].name,
                #[trigger] after[b].name,
            ) by {
                assert(text_lt(mids[a].name, mids[b].name));
            }
            assert forall|k: int| 0 <= k < before.children.len() implies has_name(
                after,
                (#[trigger] before.children[k]).name,
            ) by {
                let name = before.children[k].name;
                assert(has_name(mids, name));
                let j = choose|j: int| 0 <= j < mids.len() && mids[j].name == name;
                assert(after[j].name == name);
            }
            assert(aggregates(self@, before));
            self.lemma_fits();
            law_aggregation_aggregated(self@, before);
            law_aggregated_mergeable(self@);
            law_aggregation_distinct(self@, before);
            law_aggregation_conserves(self@, before);
            if before.well_formed() {
                law_aggregation_well_formed(self@, before);
            }
        }
    }
}

} // verus!
