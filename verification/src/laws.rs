//! What holds of every aggregation.

use vstd::prelude::*;
use crate::text::{law_text_le_antisymmetric, text_lt};
use crate::tree::{
    aggregates, ascending, count_sum, duration_sum, has_name, lemma_merged_one, lemma_named_empty,
    lemma_named_members, lemma_named_push, lemma_sums_push, level, merged, named, offspring, Tree,
};

verus! {

/// Two lists whose names strictly ascend, and which hold the same names,
/// hold them at the same places.
proof fn lemma_same_names(xs: Seq<Tree>, ys: Seq<Tree>)
    requires
        ascending(xs),
        ascending(ys),
        forall|i: int| 0 <= i < xs.len() ==> has_name(ys, (#[trigger] xs[i]).name),
        forall|j: int| 0 <= j < ys.len() ==> has_name(xs, (#[trigger] ys[j]).name),
    ensures
        xs.len() == ys.len(),
        forall|i: int| 0 <= i < xs.len() ==> (#[trigger] xs[i]).name == ys[i].name,
    decreases xs.len(),
{
    if xs.len() == 0 {
        if ys.len() > 0 {
            assert(has_name(xs, ys[0].name));
        }
    } else {
        let x = xs.last();
        assert(has_name(ys, xs[xs.len() - 1].name));
        let y = ys.last();
        let at_y = choose|j: int| 0 <= j < ys.len() && (#[trigger] ys[j]).name == x.name;
        assert(has_name(xs, ys[ys.len() - 1].name));
        let at_x = choose|i: int| 0 <= i < xs.len() && (#[trigger] xs[i]).name == y.name;
        if x.name != y.name {
            assert(text_lt(ys[at_y].name, ys[ys.len() - 1].name));
            assert(text_lt(xs[at_x].name, xs[xs.len() - 1].name));
            law_text_le_antisymmetric(x.name, y.name);
        }
        let xs0 = xs.drop_last();
        let ys0 = ys.drop_last();
        assert forall|i: int| 0 <= i < xs0.len() implies
            has_name(ys0, (#[trigger] xs0[i]).name) by {
            assert(has_name(ys, xs[i].name));
            let j = choose|j: int| 0 <= j < ys.len() && (#[trigger] ys[j]).name == xs[i].name;
            assert(text_lt(xs[i].name, xs[xs.len() - 1].name));
            assert(ys0[j].name == xs0[i].name);
        }
        assert forall|j: int| 0 <= j < ys0.len() implies
            has_name(xs0, (#[trigger] ys0[j]).name) by {
            assert(has_name(xs, ys[j].name));
            let i = choose|i: int| 0 <= i < xs.len() && (#[trigger] xs[i]).name == ys[j].name;
            assert(text_lt(ys[j].name, ys[ys.len() - 1].name));
            assert(xs0[i].name == ys0[j].name);
        }
        assert(ascending(xs0)) by {
            assert forall|i: int, j: int| 0 <= i < j < xs0.len() implies text_lt(
                #[trigger] xs0[i].name,
                #[trigger] xs0[j].name,
            ) by {
                assert(text_lt(xs[i].name, xs[j].name));
            }
        }
        assert(ascending(ys0)) by {
            assert forall|i: int, j: int| 0 <= i < j < ys0.len() implies text_lt(
                #[trigger] ys0[i].name,
                #[trigger] ys0[j].name,
            ) by {
                assert(text_lt(ys[i].name, ys[j].name));
            }
        }
        lemma_same_names(xs0, ys0);
        assert forall|i: int| 0 <= i < xs.len() implies (#[trigger] xs[i]).name == ys[i].name by {
            if i < xs.len() - 1 {
                assert(xs0[i].name == ys0[i].name);
            }
        }
    }
}

/// Where no two members share a name, the bearers of a member's name are
/// that member alone.
proof fn lemma_named_alone(xs: Seq<Tree>, i: int)
    requires
        ascending(xs),
        0 <= i < xs.len(),
    ensures
        named(xs, xs[i].name) == seq![xs[i]],
    decreases xs.len(),
{
    let name = xs[i].name;
    let xs0 = xs.drop_last();
    if i == xs.len() - 1 {
        assert forall|k: int| 0 <= k < xs0.len() implies (#[trigger] xs0[k]).name != name by {
            assert(text_lt(xs[k].name, xs[i].name));
        }
        lemma_named_empty(xs0, name);
        assert(named(xs, name) =~= seq![xs[i]]);
    } else {
        assert(text_lt(xs[i].name, xs[xs.len() - 1].name));
        assert(ascending(xs0)) by {
            assert forall|a: int, b: int| 0 <= a < b < xs0.len() implies text_lt(
                #[trigger] xs0[a].name,
                #[trigger] xs0[b].name,
            ) by {
                assert(text_lt(xs[a].name, xs[b].name));
            }
        }
        lemma_named_alone(xs0, i);
    }
}

/// A tree has one aggregation and no other.
pub proof fn law_aggregation_unique(a: Tree, b: Tree, t: Tree)
    requires
        aggregates(a, t),
        aggregates(b, t),
    ensures
        a == b,
    decreases a,
{
    assert forall|i: int| 0 <= i < a.children.len() implies has_name(
        b.children,
        (#[trigger] a.children[i]).name,
    ) by {
        let name = a.children[i].name;
        lemma_named_members(t.children, name);
        let first = named(t.children, name)[0];
        let k = choose|k: int| 0 <= k < t.children.len() && t.children[k] == first;
        assert(has_name(b.children, t.children[k].name));
    }
    assert forall|j: int| 0 <= j < b.children.len() implies has_name(
        a.children,
        (#[trigger] b.children[j]).name,
    ) by {
        let name = b.children[j].name;
        lemma_named_members(t.children, name);
        let first = named(t.children, name)[0];
        let k = choose|k: int| 0 <= k < t.children.len() && t.children[k] == first;
        assert(has_name(a.children, t.children[k].name));
    }
    lemma_same_names(a.children, b.children);
    assert forall|i: int| 0 <= i < a.children.len() implies a.children[i] == b.children[i] by {
        let name = a.children[i].name;
        assert(b.children[i].name == name);
        law_aggregation_unique(a.children[i], b.children[i], merged(name, named(t.children, name)));
    }
    assert(a.children =~= b.children);
}

/// An aggregation is an aggregated tree.
pub proof fn law_aggregation_aggregated(a: Tree, t: Tree)
    requires
        aggregates(a, t),
    ensures
        a.aggregated(),
    decreases a,
{
    assert forall|i: int| 0 <= i < a.children.len() implies
        (#[trigger] a.children[i]).aggregated() by {
        let child = a.children[i];
        law_aggregation_aggregated(child, merged(child.name, named(t.children, child.name)));
    }
}

/// An aggregated tree is its own aggregation.
pub proof fn law_aggregated_unchanged(a: Tree)
    requires
        a.aggregated(),
    ensures
        aggregates(a, a),
    decreases a,
{
    assert forall|i: int| 0 <= i < a.children.len() implies {
        let group = named(a.children, (#[trigger] a.children[i]).name);
        group.len() > 0 && aggregates(a.children[i], merged(a.children[i].name, group))
    } by {
        let child = a.children[i];
        lemma_named_alone(a.children, i);
        lemma_merged_one(child);
        law_aggregated_unchanged(child);
    }
}

/// Aggregation is idempotent: to aggregate an aggregation once more gives
/// the same tree.
pub proof fn law_aggregation_idempotent(a: Tree, t: Tree, again: Tree)
    requires
        aggregates(a, t),
        aggregates(again, a),
    ensures
        again == a,
{
    law_aggregation_aggregated(a, t);
    law_aggregated_unchanged(a);
    law_aggregation_unique(again, a, a);
}

/// The members of `ts` are aggregated trees that fit, and their names
/// strictly ascend.
spec fn tidy(ts: Seq<Tree>) -> bool {
    &&& ascending(ts)
    &&& forall|i: int| 0 <= i < ts.len() ==> (#[trigger] ts[i]).aggregated() && ts[i].fits()
}

/// In a tidy list the bearers of a name are one member or none, so that
/// their sums fit and their children are a tidy list again.
proof fn lemma_tidy_named(ts: Seq<Tree>, name: Seq<char>)
    requires
        tidy(ts),
    ensures
        count_sum(named(ts, name)) <= u32::MAX,
        duration_sum(named(ts, name)) <= u64::MAX,
        tidy(offspring(named(ts, name))),
{
    if has_name(ts, name) {
        let i = choose|i: int| 0 <= i < ts.len() && (#[trigger] ts[i]).name == name;
        lemma_named_alone(ts, i);
        lemma_sums_push(Seq::empty(), ts[i]);
        assert(Seq::<Tree>::empty().push(ts[i]) =~= seq![ts[i]]);
        assert(offspring(seq![ts[i]]) =~= ts[i].children);
        assert(ts[i].aggregated() && ts[i].fits());
    } else {
        lemma_named_empty(ts, name);
    }
}

/// What is found along a path below a tidy list is a tidy list.
proof fn lemma_tidy_level(ts: Seq<Tree>, path: Seq<Seq<char>>)
    requires
        tidy(ts),
    ensures
        tidy(level(ts, path)),
    decreases path.len(),
{
    if path.len() > 0 {
        lemma_tidy_named(ts, path[0]);
        lemma_tidy_level(offspring(named(ts, path[0])), path.drop_first());
    }
}

/// An aggregated tree whose counts and durations fit can be aggregated.
pub proof fn law_aggregated_mergeable(a: Tree)
    requires
        a.aggregated(),
        a.fits(),
    ensures
        a.mergeable(),
{
    assert forall|path: Seq<Seq<char>>, name: Seq<char>|
        count_sum(#[trigger] named(level(a.children, path), name)) <= u32::MAX && duration_sum(
            named(level(a.children, path), name),
        ) <= u64::MAX by {
        lemma_tidy_level(a.children, path);
        lemma_tidy_named(level(a.children, path), name);
    }
}

/// In an aggregation no two children of one scope share a name, at any
/// depth.
pub proof fn law_aggregation_distinct(a: Tree, t: Tree)
    requires
        aggregates(a, t),
    ensures
        a.distinct(),
    decreases a,
{
    assert forall|i: int, j: int| 0 <= i < j < a.children.len() implies
        (#[trigger] a.children[i]).name
        != (#[trigger] a.children[j]).name by {
        assert(text_lt(a.children[i].name, a.children[j].name));
    }
    assert forall|i: int| 0 <= i < a.children.len() implies
        (#[trigger] a.children[i]).distinct() by {
        let child = a.children[i];
        law_aggregation_distinct(child, merged(child.name, named(t.children, child.name)));
    }
}

/// Some well-formed trees merge into a well-formed tree.
proof fn lemma_merged_well_formed(name: Seq<char>, ts: Seq<Tree>)
    requires
        ts.len() > 0,
        forall|i: int| 0 <= i < ts.len() ==> (#[trigger] ts[i]).well_formed(),
    ensures
        merged(name, ts).well_formed(),
        forall|i: int| 0 <= i < offspring(ts).len() ==> (#[trigger] offspring(ts)[i]).well_formed(),
        count_sum(ts) >= 1,
    decreases ts.len(),
{
    let ts0 = ts.drop_last();
    let last = ts.last();
    assert(ts[ts.len() - 1].well_formed());
    if ts0.len() > 0 {
        assert forall|i: int| 0 <= i < ts0.len() implies (#[trigger] ts0[i]).well_formed() by {
            assert(ts[i].well_formed());
        }
        lemma_merged_well_formed(name, ts0);
    }
    assert forall|i: int| 0 <= i < offspring(ts).len() implies (#[trigger] offspring(
        ts,
    )[i]).well_formed() by {
        if i < offspring(ts0).len() {
            assert(offspring(ts0)[i].well_formed());
        } else {
            assert(last.children[i - offspring(ts0).len()].well_formed());
        }
    }
}

/// A tree of scopes that each stand for themselves alone is well formed.
pub proof fn law_single_well_formed(t: Tree)
    requires
        t.single(),
    ensures
        t.well_formed(),
    decreases t,
{
    assert forall|i: int| 0 <= i < t.children.len() implies
        (#[trigger] t.children[i]).well_formed() by {
        law_single_well_formed(t.children[i]);
    }
}

/// The aggregation of a well-formed tree is well formed.
pub proof fn law_aggregation_well_formed(a: Tree, t: Tree)
    requires
        aggregates(a, t),
        t.well_formed(),
    ensures
        a.well_formed(),
    decreases a,
{
    assert forall|i: int| 0 <= i < a.children.len() implies
        (#[trigger] a.children[i]).well_formed() by {
        let child = a.children[i];
        let group = named(t.children, child.name);
        lemma_named_members(t.children, child.name);
        assert forall|k: int| 0 <= k < group.len() implies (#[trigger] group[k]).well_formed() by {
            let at = choose|at: int| 0 <= at < t.children.len() && t.children[at] == group[k];
            assert(t.children[at].well_formed());
        }
        lemma_merged_well_formed(child.name, group);
        law_aggregation_well_formed(child, merged(child.name, group));
    }
}

/// The counts that the members of `ts` have under each name of `rs`, added
/// up over `rs`.
spec fn grouped_count(rs: Seq<Tree>, ts: Seq<Tree>) -> nat
    decreases rs.len(),
{
    if rs.len() == 0 {
        0
    } else {
        grouped_count(rs.drop_last(), ts) + count_sum(named(ts, rs.last().name))
    }
}

/// The durations that the members of `ts` have under each name of `rs`,
/// added up over `rs`.
spec fn grouped_duration(rs: Seq<Tree>, ts: Seq<Tree>) -> nat
    decreases rs.len(),
{
    if rs.len() == 0 {
        0
    } else {
        grouped_duration(rs.drop_last(), ts) + duration_sum(named(ts, rs.last().name))
    }
}

proof fn lemma_ascending_drop_last(xs: Seq<Tree>)
    requires
        ascending(xs),
        xs.len() > 0,
    ensures
        ascending(xs.drop_last()),
        !has_name(xs.drop_last(), xs.last().name),
{
    let xs0 = xs.drop_last();
    assert forall|a: int, b: int| 0 <= a < b < xs0.len() implies text_lt(
        #[trigger] xs0[a].name,
        #[trigger] xs0[b].name,
    ) by {
        assert(text_lt(xs[a].name, xs[b].name));
    }
    assert forall|k: int| 0 <= k < xs0.len() implies (#[trigger] xs0[k]).name != xs.last().name by {
        assert(text_lt(xs[k].name, xs[xs.len() - 1].name));
    }
}

/// One more member in `ts` adds its count and duration to the grouped sums
/// once if `rs` has its name, and not at all if `rs` has it not.
proof fn lemma_grouped_push(rs: Seq<Tree>, ts: Seq<Tree>, x: Tree)
    requires
        ascending(rs),
    ensures
        grouped_count(rs, ts.push(x)) == grouped_count(rs, ts) + if has_name(rs, x.name) {
            x.count
        } else {
            0
        },
        grouped_duration(rs, ts.push(x)) == grouped_duration(rs, ts) + if has_name(rs, x.name) {
            x.duration
        } else {
            0
        },
    decreases rs.len(),
{
    if rs.len() > 0 {
        let rs0 = rs.drop_last();
        let r = rs.last();
        lemma_ascending_drop_last(rs);
        lemma_grouped_push(rs0, ts, x);
        lemma_named_push(ts, x, r.name);
        lemma_sums_push(named(ts, r.name), x);
        if x.name == r.name {
            assert(rs[rs.len() - 1].name == x.name);
        } else {
            if has_name(rs, x.name) {
                let k = choose|k: int| 0 <= k < rs.len() && (#[trigger] rs[k]).name == x.name;
                assert(rs0[k].name == x.name);
            }
            if has_name(rs0, x.name) {
                let k = choose|k: int| 0 <= k < rs0.len() && (#[trigger] rs0[k]).name == x.name;
                assert(rs[k].name == x.name);
            }
        }
    }
}

/// Where the names of `rs` differ and every member of `ts` has one of them,
/// the grouped sums are the sums of `ts`.
proof fn lemma_grouped_all(rs: Seq<Tree>, ts: Seq<Tree>)
    requires
        ascending(rs),
        forall|k: int| 0 <= k < ts.len() ==> has_name(rs, (#[trigger] ts[k]).name),
    ensures
        grouped_count(rs, ts) == count_sum(ts),
        grouped_duration(rs, ts) == duration_sum(ts),
    decreases ts.len(),
{
    if ts.len() == 0 {
        lemma_grouped_none(rs);
        assert(ts =~= Seq::<Tree>::empty());
    } else {
        let ts0 = ts.drop_last();
        assert forall|k: int| 0 <= k < ts0.len() implies has_name(rs, (#[trigger] ts0[k]).name) by {
            assert(has_name(rs, ts[k].name));
        }
        lemma_grouped_all(rs, ts0);
        lemma_grouped_push(rs, ts0, ts.last());
        assert(ts0.push(ts.last()) =~= ts);
        assert(has_name(rs, ts[ts.len() - 1].name));
    }
}

/// Over no members the grouped sums are nothing.
proof fn lemma_grouped_none(rs: Seq<Tree>)
    ensures
        grouped_count(rs, Seq::empty()) == 0,
        grouped_duration(rs, Seq::empty()) == 0,
    decreases rs.len(),
{
    if rs.len() > 0 {
        lemma_grouped_none(rs.drop_last());
    }
}

/// Where each member of `rs` has the count and the duration that the bearers
/// of its name have in `ts`, the sums of `rs` are the grouped sums.
proof fn lemma_grouped_sums(rs: Seq<Tree>, ts: Seq<Tree>)
    requires
        forall|i: int|
            0 <= i < rs.len() ==> (#[trigger] rs[i]).count == count_sum(named(ts, rs[i].name))
                && rs[i].duration == duration_sum(named(ts, rs[i].name)),
    ensures
        count_sum(rs) == grouped_count(rs, ts),
        duration_sum(rs) == grouped_duration(rs, ts),
    decreases rs.len(),
{
    if rs.len() > 0 {
        let rs0 = rs.drop_last();
        assert forall|i: int| 0 <= i < rs0.len() implies (#[trigger] rs0[i]).count == count_sum(
            named(ts, rs0[i].name),
        ) && rs0[i].duration == duration_sum(named(ts, rs0[i].name)) by {
            assert(rs[i].count == count_sum(named(ts, rs[i].name)));
        }
        lemma_grouped_sums(rs0, ts);
        assert(rs[rs.len() - 1].count == count_sum(named(ts, rs.last().name)));
    }
}

/// Aggregation conserves counts and durations: the children of a tree have,
/// added up, the count and the duration that they had before. As each child
/// of an aggregation is the aggregation of what its name's bearers merge
/// into, this holds of the children of every scope.
pub proof fn law_aggregation_conserves(a: Tree, t: Tree)
    requires
        aggregates(a, t),
    ensures
        count_sum(a.children) == count_sum(t.children),
        duration_sum(a.children) == duration_sum(t.children),
{
    assert forall|i: int| 0 <= i < a.children.len() implies (#[trigger] a.children[i]).count
        == count_sum(named(t.children, a.children[i].name)) && a.children[i].duration
        == duration_sum(named(t.children, a.children[i].name)) by {
        let child = a.children[i];
        assert(aggregates(child, merged(child.name, named(t.children, child.name))));
    }
    lemma_grouped_sums(a.children, t.children);
    lemma_grouped_all(a.children, t.children);
}

} // verus!
