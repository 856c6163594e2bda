//! The mathematical model of a profile: a tree of named, counted, timed
//! scopes, and what it means to aggregate one.

use vstd::prelude::*;
use crate::text::{law_text_le_antisymmetric, text_le, text_lt};

verus! {

/// One scope of a profile, or several scopes merged into one.
pub struct Tree {
    /// The label under which the scope is shown.
    pub name: Seq<char>,
    /// How many scopes were merged into this one.
    pub count: nat,
    /// The time, in nanoseconds, that those scopes took together.
    pub duration: nat,
    /// The scopes that closed inside this one.
    pub children: Seq<Tree>,
}

/// The members of `ts` that bear `name`, in the order in which they stand.
pub open spec fn named(ts: Seq<Tree>, name: Seq<char>) -> Seq<Tree>
    decreases ts.len(),
{
    if ts.len() == 0 {
        Seq::empty()
    } else if ts.last().name == name {
        named(ts.drop_last(), name).push(ts.last())
    } else {
        named(ts.drop_last(), name)
    }
}

/// Some member of `ts` bears `name`.
pub open spec fn has_name(ts: Seq<Tree>, name: Seq<char>) -> bool {
    exists|i: int| 0 <= i < ts.len() && (#[trigger] ts[i]).name == name
}

/// The counts of `ts`, added up.
pub open spec fn count_sum(ts: Seq<Tree>) -> nat
    decreases ts.len(),
{
    if ts.len() == 0 {
        0
    } else {
        count_sum(ts.drop_last()) + ts.last().count
    }
}

/// The durations of `ts`, added up.
pub open spec fn duration_sum(ts: Seq<Tree>) -> nat
    decreases ts.len(),
{
    if ts.len() == 0 {
        0
    } else {
        duration_sum(ts.drop_last()) + ts.last().duration
    }
}

/// The children of all of `ts`, one list after the other.
pub open spec fn offspring(ts: Seq<Tree>) -> Seq<Tree>
    decreases ts.len(),
{
    if ts.len() == 0 {
        Seq::empty()
    } else {
        offspring(ts.drop_last()) + ts.last().children
    }
}

/// The single tree that `ts` merge into: their counts and durations added
/// up, their children put in one list.
pub open spec fn merged(name: Seq<char>, ts: Seq<Tree>) -> Tree {
    Tree { name, count: count_sum(ts), duration: duration_sum(ts), children: offspring(ts) }
}

/// `into` after `from`, which bears the same name, has been merged into it:
/// it has gained the count and the duration of `from`, and its children
/// behind those that it had.
pub open spec fn joined(into: Tree, from: Tree) -> Tree {
    Tree {
        name: into.name,
        count: into.count + from.count,
        duration: into.duration + from.duration,
        children: into.children + from.children,
    }
}

/// The names of `ts` strictly ascend, so no two members share one.
pub open spec fn ascending(ts: Seq<Tree>) -> bool {
    forall|i: int, j: int| 0 <= i < j < ts.len() ==>
        text_lt(#[trigger] ts[i].name, #[trigger] ts[j].name)
}

/// The names of `ts` are in order, equal names side by side.
pub open spec fn sorted(ts: Seq<Tree>) -> bool {
    forall|i: int, j: int| 0 <= i <= j < ts.len() ==>
        text_le(#[trigger] ts[i].name, #[trigger] ts[j].name)
}

/// `r` is `t` aggregated.
///
/// The root keeps its name, count and duration. Its children are one per
/// name that occurs among the children of `t`, in ascending order of name;
/// each is, aggregated in turn, what the children of `t` bearing that name
/// merge into.
pub open spec fn aggregates(r: Tree, t: Tree) -> bool
    decreases r,
{
    &&& r.name == t.name
    &&& r.count == t.count
    &&& r.duration == t.duration
    &&& ascending(r.children)
    &&& forall|k: int|
        0 <= k < t.children.len() ==> has_name(r.children, (#[trigger] t.children[k]).name)
    &&& forall|i: int|
        0 <= i < r.children.len() ==> {
            let group = named(t.children, (#[trigger] r.children[i]).name);
            group.len() > 0 && aggregates(r.children[i], merged(r.children[i].name, group))
        }
}

/// The trees found below `ts` by following `path`: at each step, the
/// children of the members that bear the next name.
pub open spec fn level(ts: Seq<Tree>, path: Seq<Seq<char>>) -> Seq<Tree>
    decreases path.len(),
{
    if path.len() == 0 {
        ts
    } else {
        level(offspring(named(ts, path[0])), path.drop_first())
    }
}

impl Tree {
    /// Aggregation can be carried out in 32-bit counts and 64-bit durations:
    /// the trees that it merges into one, which are those reached from the
    /// root by one path of names, have a count total and a duration total
    /// that fit.
    pub open spec fn mergeable(self) -> bool {
        forall|path: Seq<Seq<char>>, name: Seq<char>|
            count_sum(#[trigger] named(level(self.children, path), name)) <= u32::MAX
                && duration_sum(named(level(self.children, path), name)) <= u64::MAX
    }

    /// The tree is an aggregated one: the names of the children of every
    /// scope strictly ascend.
    pub open spec fn aggregated(self) -> bool
        decreases self,
    {
        &&& ascending(self.children)
        &&& forall|i: int| 0 <= i < self.children.len() ==>
            (#[trigger] self.children[i]).aggregated()
    }

    /// Every count of the tree fits 32 bits, and every duration 64 bits.
    pub open spec fn fits(self) -> bool
        decreases self,
    {
        &&& self.count <= u32::MAX
        &&& self.duration <= u64::MAX
        &&& forall|i: int| 0 <= i < self.children.len() ==> (#[trigger] self.children[i]).fits()
    }

    /// Every scope of the tree stands for one scope at least.
    pub open spec fn well_formed(self) -> bool
        decreases self,
    {
        &&& self.count >= 1
        &&& forall|i: int|
            0 <= i < self.children.len() ==> (#[trigger] self.children[i]).well_formed()
    }

    /// Every scope of the tree stands for itself alone.
    pub open spec fn single(self) -> bool
        decreases self,
    {
        &&& self.count == 1
        &&& forall|i: int| 0 <= i < self.children.len() ==> (#[trigger] self.children[i]).single()
    }

    /// Nowhere in the tree do two children of one scope share a name.
    pub open spec fn distinct(self) -> bool
        decreases self,
    {
        &&& forall|i: int, j: int|
            0 <= i < j < self.children.len() ==> (#[trigger] self.children[i]).name != (
            #[trigger] self.children[j]).name
        &&& forall|i: int| 0 <= i < self.children.len() ==> (#[trigger] self.children[i]).distinct()
    }

    /// The number of scopes in the tree, the root among them.
    pub open spec fn size(self) -> nat
        decreases self, 1nat,
    {
        1 + size_of(self.children)
    }

    /// The counts of all scopes of the tree, added up.
    pub open spec fn total_count(self) -> nat
        decreases self, 1nat,
    {
        self.count + total_count_of(self.children)
    }

    /// The durations of all scopes of the tree, added up.
    pub open spec fn total_duration(self) -> nat
        decreases self, 1nat,
    {
        self.duration + total_duration_of(self.children)
    }

    /// All scopes below the root have, added up, a count that fits 32 bits
    /// and a duration that fits 64 bits. A tree within these limits can be
    /// aggregated.
    pub open spec fn within_limits(self) -> bool {
        total_count_of(self.children) <= u32::MAX && total_duration_of(self.children) <= u64::MAX
    }

    /// The number of scopes on the longest way down from the root.
    pub open spec fn height(self) -> nat
        decreases self, 1nat,
    {
        1 + tallest(self.children)
    }
}

/// The number of scopes in all of `ts`.
pub open spec fn size_of(ts: Seq<Tree>) -> nat
    decreases ts, 0nat,
{
    if ts.len() == 0 {
        0
    } else {
        size_of(ts.drop_last()) + ts.last().size()
    }
}

/// The counts of all scopes of all of `ts`, added up.
pub open spec fn total_count_of(ts: Seq<Tree>) -> nat
    decreases ts, 0nat,
{
    if ts.len() == 0 {
        0
    } else {
        total_count_of(ts.drop_last()) + ts.last().total_count()
    }
}

/// The durations of all scopes of all of `ts`, added up.
pub open spec fn total_duration_of(ts: Seq<Tree>) -> nat
    decreases ts, 0nat,
{
    if ts.len() == 0 {
        0
    } else {
        total_duration_of(ts.drop_last()) + ts.last().total_duration()
    }
}

/// The height of the highest of `ts`, and 0 if there is none.
pub open spec fn tallest(ts: Seq<Tree>) -> nat
    decreases ts, 0nat,
{
    if ts.len() == 0 {
        0
    } else if ts.last().height() > tallest(ts.drop_last()) {
        ts.last().height()
    } else {
        tallest(ts.drop_last())
    }
}

/// `rs` is `ts` with the members that share a name merged into one: one
/// member per name of `ts`, in ascending order of name.
pub open spec fn collapses(rs: Seq<Tree>, ts: Seq<Tree>) -> bool {
    &&& ascending(rs)
    &&& forall|k: int| 0 <= k < ts.len() ==> has_name(rs, (#[trigger] ts[k]).name)
    &&& forall|i: int|
        0 <= i < rs.len() ==> {
            let group = named(ts, (#[trigger] rs[i]).name);
            group.len() > 0 && rs[i] == merged(rs[i].name, group)
        }
}

/// Where a list is collapsed and one more tree follows that bears the name
/// of the last of the merged ones, to merge it into that one collapses the
/// longer list.
pub proof fn lemma_collapses_join(rs: Seq<Tree>, seen: Seq<Tree>, t: Tree)
    requires
        collapses(rs, seen),
        rs.len() > 0,
        rs.last().name == t.name,
    ensures
        collapses(rs.update(rs.len() - 1, joined(rs.last(), t)), seen.push(t)),
{
    let last = rs.len() - 1;
    let after = rs.update(last, joined(rs.last(), t));
    lemma_sums_push(named(seen, t.name), t);
    assert forall|i: int| 0 <= i < after.len() implies {
        let group = named(seen.push(t), (#[trigger] after[i]).name);
        group.len() > 0 && after[i] == merged(after[i].name, group)
    } by {
        lemma_named_push(seen, t, after[i].name);
        if i < last {
            assert(text_lt(rs[i].name, rs[last].name));
        }
    }
    assert forall|k: int| 0 <= k < seen.push(t).len() implies has_name(
        after,
        (#[trigger] seen.push(t)[k]).name,
    ) by {
        if k < seen.len() {
            assert(has_name(rs, seen[k].name));
            let i = choose|i: int| 0 <= i < rs.len() && (#[trigger] rs[i]).name == seen[k].name;
            assert(after[i].name == seen[k].name);
        } else {
            assert(after[last].name == t.name);
        }
    }
    assert forall|a: int, b: int| 0 <= a < b < after.len() implies text_lt(
        #[trigger] after[a].name,
        #[trigger] after[b].name,
    ) by {
        assert(text_lt(rs[a].name, rs[b].name));
    }
}

/// Where a list in order is collapsed and one more tree follows, which does
/// not bear the name of the last of the merged ones, that tree as it is
/// collapses the longer list.
pub proof fn lemma_collapses_push(rs: Seq<Tree>, seen: Seq<Tree>, t: Tree)
    requires
        collapses(rs, seen),
        sorted(seen.push(t)),
        rs.len() > 0 ==> rs.last().name != t.name,
    ensures
        collapses(rs.push(t), seen.push(t)),
{
    let longer = seen.push(t);
    let after = rs.push(t);
    // every merged tree bears the name of a tree seen, which comes no later
    // than the name of `t`
    assert forall|i: int| 0 <= i < rs.len() implies text_le((#[trigger] rs[i]).name, t.name) by {
        lemma_named_members(seen, rs[i].name);
        let first = named(seen, rs[i].name)[0];
        let k = choose|k: int| 0 <= k < seen.len() && seen[k] == first;
        assert(text_le(longer[k].name, longer[seen.len() as int].name));
    }
    assert forall|i: int| 0 <= i < rs.len() implies text_lt((#[trigger] rs[i]).name, t.name) by {
        if rs[i].name == t.name {
            assert(text_lt(rs[i].name, rs[rs.len() - 1].name));
            assert(text_le(rs[rs.len() - 1].name, t.name));
            law_text_le_antisymmetric(rs[i].name, rs[rs.len() - 1].name);
        }
    }
    assert(!has_name(seen, t.name)) by {
        if has_name(seen, t.name) {
            let k = choose|k: int| 0 <= k < seen.len() && (#[trigger] seen[k]).name == t.name;
            assert(has_name(rs, seen[k].name));
            let i = choose|i: int| 0 <= i < rs.len() && (#[trigger] rs[i]).name == t.name;
            assert(text_lt(rs[i].name, t.name));
        }
    }
    lemma_named_empty(seen, t.name);
    lemma_merged_one(t);
    assert(named(seen, t.name).push(t) =~= seq![t]);
    assert forall|i: int| 0 <= i < after.len() implies {
        let group = named(longer, (#[trigger] after[i]).name);
        group.len() > 0 && after[i] == merged(after[i].name, group)
    } by {
        lemma_named_push(seen, t, after[i].name);
        if i < rs.len() {
            assert(text_lt(rs[i].name, t.name));
        }
    }
    assert forall|k: int| 0 <= k < longer.len() implies
        has_name(after, (#[trigger] longer[k]).name) by {
        if k < seen.len() {
            assert(has_name(rs, seen[k].name));
            let i = choose|i: int| 0 <= i < rs.len() && (#[trigger] rs[i]).name == seen[k].name;
            assert(after[i].name == seen[k].name);
        } else {
            assert(after[rs.len() as int].name == t.name);
        }
    }
    assert forall|a: int, b: int| 0 <= a < b < after.len() implies text_lt(
        #[trigger] after[a].name,
        #[trigger] after[b].name,
    ) by {
        if b < rs.len() {
            assert(text_lt(rs[a].name, rs[b].name));
        } else {
            assert(text_lt(rs[a].name, t.name));
        }
    }
}

/// What `named` picks from a list with one more member at its end.
pub proof fn lemma_named_push(ts: Seq<Tree>, t: Tree, name: Seq<char>)
    ensures
        named(ts.push(t), name) == if t.name == name {
            named(ts, name).push(t)
        } else {
            named(ts, name)
        },
{
    assert(ts.push(t).drop_last() =~= ts);
}

/// Each member that `named` picks bears the name and is a member of the list.
pub proof fn lemma_named_members(ts: Seq<Tree>, name: Seq<char>)
    ensures
        forall|i: int|
            0 <= i < named(ts, name).len() ==> (#[trigger] named(ts, name)[i]).name == name
                && ts.contains(named(ts, name)[i]),
    decreases ts.len(),
{
    if ts.len() > 0 {
        lemma_named_members(ts.drop_last(), name);
        assert forall|i: int| 0 <= i < named(ts, name).len() implies (#[trigger] named(
            ts,
            name,
        )[i]).name == name && ts.contains(named(ts, name)[i]) by {
            let rest = named(ts.drop_last(), name);
            if i < rest.len() {
                let k = choose|k: int| 0 <= k < ts.drop_last().len()
                    && ts.drop_last()[k] == rest[i];
                assert(ts[k] == rest[i]);
            } else {
                assert(ts[ts.len() - 1] == ts.last());
            }
        }
    }
}

/// A name that a member bears is picked at least once.
pub proof fn lemma_named_nonempty(ts: Seq<Tree>, k: int)
    requires
        0 <= k < ts.len(),
    ensures
        named(ts, ts[k].name).len() > 0,
    decreases ts.len(),
{
    if k < ts.len() - 1 {
        lemma_named_nonempty(ts.drop_last(), k);
    }
}

/// A name that no member bears is picked nowhere.
pub proof fn lemma_named_empty(ts: Seq<Tree>, name: Seq<char>)
    requires
        !has_name(ts, name),
    ensures
        named(ts, name) == Seq::<Tree>::empty(),
    decreases ts.len(),
{
    if ts.len() > 0 {
        assert(ts[ts.len() - 1].name != name);
        assert forall|i: int| 0 <= i < ts.drop_last().len() implies
            (#[trigger] ts.drop_last()[i]).name
            != name by {
            assert(ts[i].name != name);
        }
        lemma_named_empty(ts.drop_last(), name);
    }
}

/// The sums of a list with one more member at its end.
pub proof fn lemma_sums_push(ts: Seq<Tree>, t: Tree)
    ensures
        count_sum(ts.push(t)) == count_sum(ts) + t.count,
        duration_sum(ts.push(t)) == duration_sum(ts) + t.duration,
        offspring(ts.push(t)) == offspring(ts) + t.children,
{
    assert(ts.push(t).drop_last() =~= ts);
}

/// Among the first `k` members no more is picked, by count and by duration,
/// than in the whole list.
pub proof fn lemma_named_take_sums(ts: Seq<Tree>, k: int, name: Seq<char>)
    requires
        0 <= k <= ts.len(),
    ensures
        count_sum(named(ts.take(k), name)) <= count_sum(named(ts, name)),
        duration_sum(named(ts.take(k), name)) <= duration_sum(named(ts, name)),
    decreases ts.len() - k,
{
    if k < ts.len() {
        lemma_named_take_sums(ts, k + 1, name);
        assert(ts.take(k + 1) =~= ts.take(k).push(ts[k]));
        lemma_named_push(ts.take(k), ts[k], name);
        lemma_sums_push(named(ts.take(k), name), ts[k]);
    } else {
        assert(ts.take(k) =~= ts);
    }
}

/// A tree that is merged from one tree alone is that tree.
pub proof fn lemma_merged_one(t: Tree)
    ensures
        merged(t.name, seq![t]) == t,
{
    lemma_sums_push(Seq::empty(), t);
    assert(Seq::<Tree>::empty().push(t) =~= seq![t]);
    assert(offspring(seq![t]) =~= t.children);
}

/// Following a path from the children of what a name's bearers merge into
/// is following the path, with that name put first, from the list itself.
pub proof fn lemma_level_below(ts: Seq<Tree>, name: Seq<char>, path: Seq<Seq<char>>)
    ensures
        level(offspring(named(ts, name)), path) == level(ts, seq![name] + path),
{
    let longer = seq![name] + path;
    assert(longer.drop_first() =~= path);
}

/// What the bearers of a name merge into can be aggregated where the tree
/// that holds them can.
pub proof fn lemma_merged_mergeable(t: Tree, name: Seq<char>)
    requires
        t.mergeable(),
    ensures
        merged(name, named(t.children, name)).mergeable(),
{
    let m = merged(name, named(t.children, name));
    assert forall|path: Seq<Seq<char>>, below: Seq<char>|
        count_sum(#[trigger] named(level(m.children, path), below)) <= u32::MAX && duration_sum(
            named(level(m.children, path), below),
        ) <= u64::MAX by {
        lemma_level_below(t.children, name, path);
        assert(count_sum(named(level(t.children, seq![name] + path), below)) <= u32::MAX);
    }
}

/// No member is higher than the highest.
pub proof fn lemma_tallest_member(ts: Seq<Tree>, i: int)
    requires
        0 <= i < ts.len(),
    ensures
        ts[i].height() <= tallest(ts),
    decreases ts.len(),
{
    if i < ts.len() - 1 {
        lemma_tallest_member(ts.drop_last(), i);
    }
}

/// A bound on the height of every member bounds the highest.
pub proof fn lemma_tallest_bound(ts: Seq<Tree>, bound: nat)
    requires
        forall|i: int| 0 <= i < ts.len() ==> (#[trigger] ts[i]).height() <= bound,
    ensures
        tallest(ts) <= bound,
    decreases ts.len(),
{
    if ts.len() > 0 {
        assert forall|i: int| 0 <= i < ts.drop_last().len() implies
            (#[trigger] ts.drop_last()[i]).height()
            <= bound by {
            assert(ts[i].height() <= bound);
        }
        lemma_tallest_bound(ts.drop_last(), bound);
        assert(ts[ts.len() - 1].height() <= bound);
    }
}

/// The children of trees no higher than `bound + 1` are no higher than `bound`.
pub proof fn lemma_offspring_tallest(ts: Seq<Tree>, bound: nat)
    requires
        forall|i: int| 0 <= i < ts.len() ==> (#[trigger] ts[i]).height() <= bound + 1,
    ensures
        tallest(offspring(ts)) <= bound,
    decreases ts.len(),
{
    if ts.len() > 0 {
        let rest = offspring(ts.drop_last());
        let last = ts.last().children;
        assert forall|i: int| 0 <= i < ts.drop_last().len() implies
            (#[trigger] ts.drop_last()[i]).height()
            <= bound + 1 by {
            assert(ts[i].height() <= bound + 1);
        }
        lemma_offspring_tallest(ts.drop_last(), bound);
        assert(ts[ts.len() - 1].height() <= bound + 1);
        assert forall|i: int| 0 <= i < (rest + last).len() implies
            (#[trigger] (rest + last)[i]).height()
            <= bound by {
            if i < rest.len() {
                lemma_tallest_member(rest, i);
            } else {
                lemma_tallest_member(last, i - rest.len());
            }
        }
        lemma_tallest_bound(rest + last, bound);
    }
}

/// What the bearers of a name merge into is lower than the tree that holds
/// them.
pub proof fn lemma_merged_height(t: Tree, name: Seq<char>)
    requires
        t.children.len() > 0,
    ensures
        merged(name, named(t.children, name)).height() < t.height(),
{
    let group = named(t.children, name);
    lemma_tallest_member(t.children, 0);
    let bound = (tallest(t.children) - 1) as nat;
    lemma_named_members(t.children, name);
    assert forall|i: int| 0 <= i < group.len() implies (#[trigger] group[i]).height() <= bound
        + 1 by {
        let k = choose|k: int| 0 <= k < t.children.len() && t.children[k] == group[i];
        lemma_tallest_member(t.children, k);
    }
    lemma_offspring_tallest(group, bound);
}

/// The totals of a list with one more member at its end.
pub proof fn lemma_totals_push(ts: Seq<Tree>, t: Tree)
    ensures
        total_count_of(ts.push(t)) == total_count_of(ts) + t.total_count(),
        total_duration_of(ts.push(t)) == total_duration_of(ts) + t.total_duration(),
{
    assert(ts.push(t).drop_last() =~= ts);
}

/// The totals of two lists put together are the totals of each, added up.
pub proof fn lemma_totals_add(xs: Seq<Tree>, ys: Seq<Tree>)
    ensures
        total_count_of(xs + ys) == total_count_of(xs) + total_count_of(ys),
        total_duration_of(xs + ys) == total_duration_of(xs) + total_duration_of(ys),
    decreases ys.len(),
{
    if ys.len() == 0 {
        assert(xs + ys =~= xs);
    } else {
        lemma_totals_add(xs, ys.drop_last());
        assert((xs + ys).drop_last() =~= xs + ys.drop_last());
    }
}

/// The first `k` members have totals no greater than the whole list.
pub proof fn lemma_totals_take(ts: Seq<Tree>, k: int)
    requires
        0 <= k <= ts.len(),
    ensures
        total_count_of(ts.take(k)) <= total_count_of(ts),
        total_duration_of(ts.take(k)) <= total_duration_of(ts),
{
    lemma_totals_add(ts.take(k), ts.skip(k));
    assert(ts.take(k) + ts.skip(k) =~= ts);
}

/// The totals of a list are made up of what its members have themselves
/// and of the totals of their children.
pub proof fn lemma_totals_offspring(ts: Seq<Tree>)
    ensures
        total_count_of(ts) == count_sum(ts) + total_count_of(offspring(ts)),
        total_duration_of(ts) == duration_sum(ts) + total_duration_of(offspring(ts)),
    decreases ts.len(),
{
    if ts.len() > 0 {
        let last = ts.last();
        lemma_totals_offspring(ts.drop_last());
        lemma_totals_add(offspring(ts.drop_last()), last.children);
        assert(last.total_count() == last.count + total_count_of(last.children));
        assert(last.total_duration() == last.duration + total_duration_of(last.children));
    }
}

/// The bearers of a name have totals no greater than the whole list.
pub proof fn lemma_totals_named(ts: Seq<Tree>, name: Seq<char>)
    ensures
        total_count_of(named(ts, name)) <= total_count_of(ts),
        total_duration_of(named(ts, name)) <= total_duration_of(ts),
    decreases ts.len(),
{
    if ts.len() > 0 {
        lemma_totals_named(ts.drop_last(), name);
        lemma_totals_push(named(ts.drop_last(), name), ts.last());
    }
}

/// What is found along a path has totals no greater than the list from
/// which the path sets out.
pub proof fn lemma_totals_level(ts: Seq<Tree>, path: Seq<Seq<char>>)
    ensures
        total_count_of(level(ts, path)) <= total_count_of(ts),
        total_duration_of(level(ts, path)) <= total_duration_of(ts),
    decreases path.len(),
{
    if path.len() > 0 {
        let bearers = named(ts, path[0]);
        lemma_totals_level(offspring(bearers), path.drop_first());
        lemma_totals_offspring(bearers);
        lemma_totals_named(ts, path[0]);
    }
}

/// A tree within the limits can be aggregated.
pub proof fn law_within_limits_mergeable(t: Tree)
    requires
        t.within_limits(),
    ensures
        t.mergeable(),
{
    assert forall|path: Seq<Seq<char>>, name: Seq<char>|
        count_sum(#[trigger] named(level(t.children, path), name)) <= u32::MAX && duration_sum(
            named(level(t.children, path), name),
        ) <= u64::MAX by {
        let found = level(t.children, path);
        lemma_totals_offspring(named(found, name));
        lemma_totals_named(found, name);
        lemma_totals_level(t.children, path);
    }
}

} // verus!
