//! Rendering: one line of text for each node, indented by its depth.

use vstd::prelude::*;
use crate::node::{trees, Node};
use crate::text::{blanks, decimal, left_aligned, push_blanks, push_decimal, push_left_aligned};
use crate::tree::{aggregates, size_of, Tree};

verus! {

/// The text that stands for a duration of `nanos` nanoseconds: what the
/// standard library prints for a `Duration` with two digits behind the point,
/// such as `8.37ms`.
pub uninterp spec fn duration_text(nanos: u64) -> Seq<char>;

/// Formats `nanos` nanoseconds as `Duration`'s `Debug` does at a precision
/// of two, in a field at least three wide. Nothing is claimed of the text but
/// that it is the one named `duration_text`.
#[verifier::external_body]
pub(crate) fn format_duration(nanos: u64) -> (text: String)
    ensures
        text@ == duration_text(nanos),
{
    format!("{:3.2?}", std::time::Duration::from_nanos(nanos))
}

/// The escape sequence that switches bold type on.
pub open spec fn bold() -> Seq<char> {
    seq!['\u{1b}', '[', '1', 'm']
}

/// The escape sequence that switches all styling off.
pub open spec fn reset() -> Seq<char> {
    seq!['\u{1b}', '[', '0', 'm']
}

/// The column that shows a duration: the text between two spaces, filled up
/// to nine characters.
pub open spec fn duration_column(duration: Seq<char>) -> Seq<char> {
    left_aligned(seq![' '] + duration + seq![' '], 9)
}

/// The column that shows a count. A count above one is written in base ten,
/// filled up to six characters, between two spaces. Otherwise the column is
/// a single space.
pub open spec fn count_column(count: nat) -> Seq<char> {
    if count > 1 {
        seq![' '] + left_aligned(decimal(count), 6) + seq![' ']
    } else {
        seq![' ']
    }
}

/// The column that shows a name, in bold type where `styled` asks for it.
pub open spec fn name_column(name: Seq<char>, styled: bool) -> Seq<char> {
    if styled {
        bold() + name + reset()
    } else {
        name
    }
}

/// The three columns of a line, without its indentation.
pub open spec fn columns(duration: Seq<char>, count: nat, name: Seq<char>, styled: bool) -> Seq<
    char,
> {
    duration_column(duration) + count_column(count) + name_column(name, styled)
}

/// The line for a scope at depth `level`: two spaces for each level, then
/// the duration, the count and the name.
pub open spec fn line_text(
    level: nat,
    duration: Seq<char>,
    count: nat,
    name: Seq<char>,
    styled: bool,
) -> Seq<char> {
    blanks(2 * level) + columns(duration, count, name, styled)
}

/// The line for the root of `t`, shown at depth `level`.
pub open spec fn row(t: Tree, level: nat, styled: bool) -> Seq<char> {
    line_text(level, duration_text(t.duration as u64), t.count, t.name, styled)
}

/// The lines for `t` and all below it: the line of the root first, then the
/// lines of each child in turn, one level deeper.
pub open spec fn rows(t: Tree, level: nat, styled: bool) -> Seq<Seq<char>>
    decreases t, 1nat,
{
    seq![row(t, level, styled)] + rows_of(t.children, level + 1, styled)
}

/// The lines for each of `ts` in turn, all at depth `level`.
pub open spec fn rows_of(ts: Seq<Tree>, level: nat, styled: bool) -> Seq<Seq<char>>
    decreases ts, 0nat,
{
    if ts.len() == 0 {
        Seq::empty()
    } else {
        rows_of(ts.drop_last(), level, styled) + rows(ts.last(), level, styled)
    }
}

/// The whole report for `t`: its lines from depth 0, and an empty line to
/// close it.
pub open spec fn report(t: Tree, styled: bool) -> Seq<Seq<char>> {
    rows(t, 0, styled).push(Seq::empty())
}

/// What each of `lines` holds.
pub open spec fn texts(lines: Seq<String>) -> Seq<Seq<char>> {
    lines.map_values(|text: String| text@)
}

/// The count column is blank for a scope that stands for itself alone, and
/// shows the count, from its second character on, for a scope that stands for
/// more.
pub proof fn law_count_column(count: nat)
    ensures
        count <= 1 ==> count_column(count) == blanks(1),
        count > 1 ==>
            count_column(count).subrange(1, 1 + decimal(count).len() as int) == decimal(count),
{
    if count > 1 {
        assert(count_column(count).subrange(1, 1 + decimal(count).len() as int) =~= decimal(count));
    } else {
        assert(count_column(count) =~= blanks(1));
    }
}

/// A line at depth `level` is the line at depth 0 behind two spaces for each
/// level, so that a child stands two spaces deeper than its parent.
pub proof fn law_row_indented(t: Tree, level: nat, styled: bool)
    ensures
        row(t, level, styled) == blanks(2 * level) + row(t, 0, styled),
        row(t, level + 1, styled) == blanks(2) + row(t, level, styled),
{
    let shown = columns(duration_text(t.duration as u64), t.count, t.name, styled);
    assert(blanks(0) + shown =~= shown);
    assert(blanks(2 * (level + 1)) + shown =~= blanks(2) + (blanks(2 * level) + shown));
}

/// There is one line for each scope of a tree.
pub proof fn law_one_row_per_scope(t: Tree, level: nat, styled: bool)
    ensures
        rows(t, level, styled).len() == t.size(),
    decreases t, 1nat,
{
    lemma_rows_of_len(t.children, level + 1, styled);
}

proof fn lemma_rows_of_len(ts: Seq<Tree>, level: nat, styled: bool)
    ensures
        rows_of(ts, level, styled).len() == size_of(ts),
    decreases ts, 0nat,
{
    if ts.len() > 0 {
        lemma_rows_of_len(ts.drop_last(), level, styled);
        law_one_row_per_scope(ts.last(), level, styled);
    }
}

/// Appends the three columns of a line to `out`.
fn push_columns(out: &mut String, duration: &str, count: u32, name: &str, styled: bool)
    ensures
        final(out)@ == old(out)@ + columns(duration@, count as nat, name@, styled),
{
    proof {
        reveal_strlit(" ");
        reveal_strlit("\u{1b}[1m");
        reveal_strlit("\u{1b}[0m");
    }
    let mut cell = String::from_str(" ");
    cell.append(duration);
    cell.append(" ");
    assert(cell@ =~= seq![' '] + duration@ + seq![' ']);
    push_left_aligned(out, cell.as_str(), 9);
    let ghost with_duration = out@;
    out.append(" ");
    if count > 1 {
        let mut number = String::new();
        push_decimal(&mut number, count);
        assert(number@ =~= decimal(count as nat));
        push_left_aligned(out, number.as_str(), 6);
        out.append(" ");
    }
    assert(out@ =~= with_duration + count_column(count as nat));
    let ghost with_count = out@;
    if styled {
        out.append("\u{1b}[1m");
        out.append(name);
        out.append("\u{1b}[0m");
        assert("\u{1b}[1m"@ =~= bold());
        assert("\u{1b}[0m"@ =~= reset());
    } else {
        out.append(name);
    }
    assert(out@ =~= with_count + name_column(name@, styled));
    assert(out@ =~= old(out)@ + columns(duration@, count as nat, name@, styled));
}

/// The line that shows, at depth `level`, a scope named `name` that stands
/// for `count` scopes, with `duration` as the text for the time it took.
pub fn format_line(level: usize, duration: &str, count: u32, name: &str, styled: bool) -> (text:
    String)
    ensures
        text@ == line_text(level as nat, duration@, count as nat, name@, styled),
{
    let mut text = String::new();
    let mut i: usize = 0;
    while i < level
        invariant
            i <= level,
            text@ == blanks(2 * (i as nat)),
        decreases level - i,
    {
        push_blanks(&mut text, 2);
        i += 1;
        assert(text@ =~= blanks(2 * (i as nat)));
    }
    push_columns(&mut text, duration, count, name, styled);
    text
}

impl Node {
    /// Appends to `lines` the lines for this node and all below it. The node
    /// stands at depth `level`, and `indent` is the indentation of that depth.
    fn go(&self, indent: &str, styled: bool, lines: &mut Vec<String>, Ghost(level): Ghost<nat>)
        requires
            indent@ == blanks(2 * level),
        ensures
            texts(final(lines)@) == texts(old(lines)@) + rows(self@, level, styled),
        decreases self,
    {
        proof {
            self.lemma_children();
            reveal_strlit("  ");
        }
        let duration = format_duration(self.duration);
        let mut text = String::from_str(indent);
        push_columns(&mut text, duration.as_str(), self.count, self.name.as_str(), styled);
        lines.push(text);
        let mut deeper = String::from_str(indent);
        deeper.append("  ");
        assert(deeper@ =~= blanks(2 * (level + 1)));
        let ghost below = trees(self.children@);
        let ghost start = texts(lines@);
        assert(start =~= texts(old(lines)@) + seq![row(self@, level, styled)]);
        let n = self.children.len();
        let mut i: usize = 0;
        while i < n
            invariant
                i <= n,
                n == self.children@.len(),
                below == trees(self.children@),
                deeper@ == blanks(2 * (level + 1)),
                texts(lines@) == start + rows_of(below.take(i as int), level + 1, styled),
            decreases n - i,
        {
            self.children[i].go(deeper.as_str(), styled, lines, Ghost(level + 1));
            proof {
                assert(below.take(i + 1).drop_last() =~= below.take(i as int));
                assert(below.take(i + 1).last() == self.children@[i as int]@);
            }
            i += 1;
        }
        proof {
            assert(below.take(n as int) =~= below);
        }
    }

    /// The report for the tree below this node: a line for each scope, each
    /// child two spaces deeper than its parent, and an empty line at the end.
    pub fn render(&self, styled: bool) -> (lines: Vec<String>)
        ensures
            texts(lines@) == report(self@, styled),
    {
        let mut lines: Vec<String> = Vec::new();
        assert(texts(lines@) =~= Seq::<Seq<char>>::empty());
        proof {
            reveal_strlit("");
            assert(""@ =~= blanks(0));
        }
        self.go("", styled, &mut lines, Ghost(0));
        lines.push(String::new());
        assert(texts(lines@) =~= report(self@, styled));
        lines
    }

    /// Aggregates the tree if `agg` says so, and renders it.
    pub fn print(&mut self, agg: bool, styled: bool) -> (lines: Vec<String>)
        requires
            agg ==> old(self)@.mergeable(),
        ensures
            agg ==> aggregates(final(self)@, old(self)@),
            !agg ==> final(self)@ == old(self)@,
            texts(lines@) == report(final(self)@, styled),
    {
        if agg {
            self.aggregate();
        }
        self.render(styled)
    }
}

} // verus!
