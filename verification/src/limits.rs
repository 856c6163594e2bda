//! The limits within which a tree can be aggregated, tested at run time.

use vstd::prelude::*;
use crate::node::{trees, Node};
use crate::tree::{lemma_totals_push, lemma_totals_take, total_count_of, total_duration_of};

verus! {

/// The totals of `nodes`, if they fit.
fn totals_of(nodes: &Vec<Node>) -> (sums: Option<(u32, u64)>)
    ensures
        match sums {
            Some((count, duration)) => count == total_count_of(trees(nodes@)) && duration
                == total_duration_of(trees(nodes@)),
            None => total_count_of(trees(nodes@)) > u32::MAX || total_duration_of(trees(nodes@))
                > u64::MAX,
        },
    decreases nodes,
{
    let ghost all = trees(nodes@);
    let mut count: u32 = 0;
    let mut duration: u64 = 0;
    let n = nodes.len();
    let mut i: usize = 0;
    while i < n
        invariant
            i <= n,
            n == nodes@.len(),
            all == trees(nodes@),
            count == total_count_of(all.take(i as int)),
            duration == total_duration_of(all.take(i as int)),
        decreases n - i,
    {
        let node = &nodes[i];
        proof {
            node.lemma_children();
            assert(all.take(i + 1) =~= all.take(i as int).push(node@));
            lemma_totals_push(all.take(i as int), node@);
            lemma_totals_take(all, i + 1);
        }
        match totals_of(&node.children) {
            None => {
                return None;
            },
            Some((below_count, below_duration)) => {
                if node.count > u32::MAX - below_count || node.duration > u64::MAX
                    - below_duration {
                    return None;
                }
                let own_count = node.count + below_count;
                let own_duration = node.duration + below_duration;
                if own_count > u32::MAX - count || own_duration > u64::MAX - duration {
                    return None;
                }
                count = count + own_count;
                duration = duration + own_duration;
            },
        }
        i += 1;
    }
    proof {
        assert(all.take(n as int) =~= all);
    }
    Some((count, duration))
}

impl Node {
    /// Whether the tree below this node is within the limits inside which
    /// it can be aggregated.
    pub fn within_limits(&self) -> (yes: bool)
        ensures
            yes == self@.within_limits(),
    {
        proof {
            self.lemma_children();
        }
        totals_of(&self.children).is_some()
    }
}

} // verus!
