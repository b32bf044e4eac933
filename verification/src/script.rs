//! The lines of a comparison, the walk that produces them from a table of
//! lengths, and the text they are shown as.

use crate::subsequence::{embeds, is_common_subsequence, lemma_embeds_extend};
use vstd::prelude::*;

verus! {

/// One line of a comparison, tagged by where it occurs.
#[derive(Debug, PartialEq, Eq)]
pub enum DiffLine<T> {
    /// The line stands in both sequences and is kept.
    Common(T),
    /// The line stands in the second sequence only: it is to be inserted.
    OnlyInSecond(T),
    /// The line stands in the first sequence only: it is to be removed.
    OnlyInFirst(T),
}

impl<T: Clone> Clone for DiffLine<T> {
    /// The copy has the tag of the line, and its text is a clone of the
    /// line's text.
    fn clone(&self) -> (copy: Self)
        ensures
            match (*self, copy) {
                (DiffLine::Common(text), DiffLine::Common(other)) => cloned(text, other),
                (DiffLine::OnlyInSecond(text), DiffLine::OnlyInSecond(other)) => cloned(
                    text,
                    other,
                ),
                (DiffLine::OnlyInFirst(text), DiffLine::OnlyInFirst(other)) => cloned(text, other),
                _ => false,
            },
    {
        match self {
            DiffLine::Common(text) => DiffLine::Common(text.clone()),
            DiffLine::OnlyInSecond(text) => DiffLine::OnlyInSecond(text.clone()),
            DiffLine::OnlyInFirst(text) => DiffLine::OnlyInFirst(text.clone()),
        }
    }
}

impl<T: DeepView> DeepView for DiffLine<T> {
    type V = DiffLine<T::V>;

    open spec fn deep_view(&self) -> DiffLine<T::V> {
        match self {
            DiffLine::Common(text) => DiffLine::Common(text.deep_view()),
            DiffLine::OnlyInSecond(text) => DiffLine::OnlyInSecond(text.deep_view()),
            DiffLine::OnlyInFirst(text) => DiffLine::OnlyInFirst(text.deep_view()),
        }
    }
}

/// What the walk does at a position `(i, j)`: which of the two sequences
/// gives up its last remaining element.
#[derive(Clone, Copy, Debug, PartialEq, Eq, Structural)]
pub enum Move {
    /// Both last elements are equal and leave together.
    Both,
    /// The last element of the second sequence leaves.
    Second,
    /// The last element of the first sequence leaves.
    First,
    /// Nothing is left in either sequence.
    Done,
}

/// A table of lengths as the walk reads it: a value for each `(row, column)`.
pub type Table = spec_fn(int, int) -> int;

/// The move at `(i, j)`, with `i` elements of `a` and `j` elements of `b`
/// still to reconcile. Equal last elements leave together; otherwise the
/// second sequence gives up its element unless the table is strictly larger
/// above than to the left.
pub open spec fn next_move<T>(table: Table, a: Seq<T>, b: Seq<T>, i: nat, j: nat) -> Move {
    if i > 0 && j > 0 && a[i - 1] == b[j - 1] {
        Move::Both
    } else if j > 0 && (i == 0 || table(i as int, j - 1) >= table(i - 1, j as int)) {
        Move::Second
    } else if i > 0 {
        Move::First
    } else {
        Move::Done
    }
}

/// The lines that the walk from `(i, j)` back to `(0, 0)` yields, in the order
/// of the sequences: what a move yields comes after all that the moves from
/// its predecessor yield.
pub open spec fn walk<T>(table: Table, a: Seq<T>, b: Seq<T>, i: nat, j: nat) -> Seq<DiffLine<T>>
    decreases i + j,
{
    match next_move(table, a, b, i, j) {
        Move::Both => walk(table, a, b, (i - 1) as nat, (j - 1) as nat).push(
            DiffLine::Common(a[i - 1]),
        ),
        Move::Second => walk(table, a, b, i, (j - 1) as nat).push(DiffLine::OnlyInSecond(b[j - 1])),
        Move::First => walk(table, a, b, (i - 1) as nat, j).push(DiffLine::OnlyInFirst(a[i - 1])),
        Move::Done => Seq::empty(),
    }
}

/// The walk from `(i, j)` reads no cell outside `[0, i] × [0, j]`: two tables
/// that agree on that rectangle give the same lines.
pub proof fn lemma_walk_stays_inside<T>(
    table: Table,
    other: Table,
    a: Seq<T>,
    b: Seq<T>,
    i: nat,
    j: nat,
)
    requires
        forall|row: int, column: int|
            0 <= row <= i && 0 <= column <= j ==> #[trigger] table(row, column) == other(
                row,
                column,
            ),
    ensures
        walk(table, a, b, i, j) == walk(other, a, b, i, j),
    decreases i + j,
{
    if i > 0 && j > 0 {
        assert(table(i as int, j - 1) == other(i as int, j - 1));
        assert(table(i - 1, j as int) == other(i - 1, j as int));
    }
    match next_move(table, a, b, i, j) {
        Move::Both => lemma_walk_stays_inside(table, other, a, b, (i - 1) as nat, (j - 1) as nat),
        Move::Second => lemma_walk_stays_inside(table, other, a, b, i, (j - 1) as nat),
        Move::First => lemma_walk_stays_inside(table, other, a, b, (i - 1) as nat, j),
        Move::Done => {},
    }
}

/// The lines of a comparison that stand in the first sequence, in order.
pub open spec fn first_side<T>(script: Seq<DiffLine<T>>) -> Seq<T>
    decreases script.len(),
{
    if script.len() == 0 {
        Seq::empty()
    } else {
        match script.last() {
            DiffLine::Common(text) => first_side(script.drop_last()).push(text),
            DiffLine::OnlyInFirst(text) => first_side(script.drop_last()).push(text),
            DiffLine::OnlyInSecond(_) => first_side(script.drop_last()),
        }
    }
}

/// The lines of a comparison that stand in the second sequence, in order.
pub open spec fn second_side<T>(script: Seq<DiffLine<T>>) -> Seq<T>
    decreases script.len(),
{
    if script.len() == 0 {
        Seq::empty()
    } else {
        match script.last() {
            DiffLine::Common(text) => second_side(script.drop_last()).push(text),
            DiffLine::OnlyInSecond(text) => second_side(script.drop_last()).push(text),
            DiffLine::OnlyInFirst(_) => second_side(script.drop_last()),
        }
    }
}

/// The lines of a comparison that are common to both sequences, in order.
pub open spec fn common_side<T>(script: Seq<DiffLine<T>>) -> Seq<T>
    decreases script.len(),
{
    if script.len() == 0 {
        Seq::empty()
    } else {
        match script.last() {
            DiffLine::Common(text) => common_side(script.drop_last()).push(text),
            _ => common_side(script.drop_last()),
        }
    }
}

/// Whatever the table holds, the walk from `(i, j)` accounts for each of the
/// first `i` elements of `a` and each of the first `j` elements of `b` exactly
/// once and in order: its lines of the first sequence are that prefix of `a`,
/// its lines of the second sequence that prefix of `b`.
pub proof fn lemma_walk_sides<T>(table: Table, a: Seq<T>, b: Seq<T>, i: nat, j: nat)
    requires
        i <= a.len(),
        j <= b.len(),
    ensures
        first_side(walk(table, a, b, i, j)) == a.take(i as int),
        second_side(walk(table, a, b, i, j)) == b.take(j as int),
    decreases i + j,
{
    let script = walk(table, a, b, i, j);
    match next_move(table, a, b, i, j) {
        Move::Both => {
            let shorter = walk(table, a, b, (i - 1) as nat, (j - 1) as nat);
            lemma_walk_sides(table, a, b, (i - 1) as nat, (j - 1) as nat);
            assert(script.drop_last() =~= shorter);
            assert(a.take(i as int) =~= a.take(i - 1).push(a[i - 1]));
            assert(b.take(j as int) =~= b.take(j - 1).push(b[j - 1]));
        },
        Move::Second => {
            let shorter = walk(table, a, b, i, (j - 1) as nat);
            lemma_walk_sides(table, a, b, i, (j - 1) as nat);
            assert(script.drop_last() =~= shorter);
            assert(b.take(j as int) =~= b.take(j - 1).push(b[j - 1]));
        },
        Move::First => {
            let shorter = walk(table, a, b, (i - 1) as nat, j);
            lemma_walk_sides(table, a, b, (i - 1) as nat, j);
            assert(script.drop_last() =~= shorter);
            assert(a.take(i as int) =~= a.take(i - 1).push(a[i - 1]));
        },
        Move::Done => {
            assert(a.take(0) =~= Seq::empty());
            assert(b.take(0) =~= Seq::empty());
        },
    }
}

/// Whatever the table holds, the walk of a sequence against itself yields
/// only common lines: one per element, in order.
pub proof fn lemma_walk_self<T>(table: Table, a: Seq<T>, i: nat)
    requires
        i <= a.len(),
    ensures
        walk(table, a, a, i, i) == a.take(i as int).map_values(|text: T| DiffLine::Common(text)),
    decreases i,
{
    if i > 0 {
        lemma_walk_self(table, a, (i - 1) as nat);
        assert(a.take(i as int) =~= a.take(i - 1).push(a[i - 1]));
    }
    assert(walk(table, a, a, i, i) =~= a.take(i as int).map_values(
        |text: T| DiffLine::Common(text),
    ));
}

/// Whatever the table holds, the common lines of the walk from `(i, j)` are a
/// common subsequence of the first `i` elements of `a` and the first `j`
/// elements of `b`. Returns the positions of those lines in `a` and in `b`.
pub proof fn lemma_walk_common<T>(table: Table, a: Seq<T>, b: Seq<T>, i: nat, j: nat) -> (at: (
    Seq<int>,
    Seq<int>,
))
    requires
        i <= a.len(),
        j <= b.len(),
    ensures
        embeds(at.0, common_side(walk(table, a, b, i, j)), a.take(i as int)),
        embeds(at.1, common_side(walk(table, a, b, i, j)), b.take(j as int)),
        is_common_subsequence(
            common_side(walk(table, a, b, i, j)),
            a.take(i as int),
            b.take(j as int),
        ),
    decreases i + j,
{
    let script = walk(table, a, b, i, j);
    let at = match next_move(table, a, b, i, j) {
        Move::Both => {
            let shorter = walk(table, a, b, (i - 1) as nat, (j - 1) as nat);
            let inner = lemma_walk_common(table, a, b, (i - 1) as nat, (j - 1) as nat);
            assert(script.drop_last() =~= shorter);
            assert(a.take(i as int).drop_last() =~= a.take(i - 1));
            assert(b.take(j as int).drop_last() =~= b.take(j - 1));
            lemma_embeds_extend(inner.0, common_side(shorter), a.take(i as int));
            lemma_embeds_extend(inner.1, common_side(shorter), b.take(j as int));
            (inner.0.push(i - 1), inner.1.push(j - 1))
        },
        Move::Second => {
            let shorter = walk(table, a, b, i, (j - 1) as nat);
            let inner = lemma_walk_common(table, a, b, i, (j - 1) as nat);
            assert(script.drop_last() =~= shorter);
            assert(b.take(j as int).drop_last() =~= b.take(j - 1));
            lemma_embeds_extend(inner.1, common_side(shorter), b.take(j as int));
            inner
        },
        Move::First => {
            let shorter = walk(table, a, b, (i - 1) as nat, j);
            let inner = lemma_walk_common(table, a, b, (i - 1) as nat, j);
            assert(script.drop_last() =~= shorter);
            assert(a.take(i as int).drop_last() =~= a.take(i - 1));
            lemma_embeds_extend(inner.0, common_side(shorter), a.take(i as int));
            inner
        },
        Move::Done => (Seq::empty(), Seq::empty()),
    };
    assert(embeds(at.0, common_side(script), a.take(i as int)));
    assert(embeds(at.1, common_side(script), b.take(j as int)));
    at
}

/// Whatever the table holds, the walk from `(i, j)` has one line per element
/// of the two prefixes, with each common line standing for two elements.
pub proof fn lemma_walk_len<T>(table: Table, a: Seq<T>, b: Seq<T>, i: nat, j: nat)
    ensures
        walk(table, a, b, i, j).len() + common_side(walk(table, a, b, i, j)).len() == i + j,
    decreases i + j,
{
    let script = walk(table, a, b, i, j);
    match next_move(table, a, b, i, j) {
        Move::Both => {
            lemma_walk_len(table, a, b, (i - 1) as nat, (j - 1) as nat);
            assert(script.drop_last() =~= walk(table, a, b, (i - 1) as nat, (j - 1) as nat));
        },
        Move::Second => {
            lemma_walk_len(table, a, b, i, (j - 1) as nat);
            assert(script.drop_last() =~= walk(table, a, b, i, (j - 1) as nat));
        },
        Move::First => {
            lemma_walk_len(table, a, b, (i - 1) as nat, j);
            assert(script.drop_last() =~= walk(table, a, b, (i - 1) as nat, j));
        },
        Move::Done => {},
    }
}

/// A line with the roles of the two sequences exchanged.
pub open spec fn swapped_line<T>(line: DiffLine<T>) -> DiffLine<T> {
    match line {
        DiffLine::Common(text) => DiffLine::Common(text),
        DiffLine::OnlyInSecond(text) => DiffLine::OnlyInFirst(text),
        DiffLine::OnlyInFirst(text) => DiffLine::OnlyInSecond(text),
    }
}

/// A comparison with the roles of the two sequences exchanged in every line.
pub open spec fn swap_roles<T>(script: Seq<DiffLine<T>>) -> Seq<DiffLine<T>> {
    script.map_values(|line: DiffLine<T>| swapped_line(line))
}

/// The text of one line: a common line as it is, a line of the second
/// sequence behind `"> "`, a line of the first sequence behind `"< "`.
pub open spec fn rendered_line(line: DiffLine<Seq<char>>) -> Seq<char> {
    match line {
        DiffLine::Common(text) => text,
        DiffLine::OnlyInSecond(text) => seq!['>', ' '] + text,
        DiffLine::OnlyInFirst(text) => seq!['<', ' '] + text,
    }
}

/// The text of a whole comparison: the empty line that marks the point where
/// both sequences are exhausted, then the text of each line in order.
pub open spec fn rendered(script: Seq<DiffLine<Seq<char>>>) -> Seq<Seq<char>> {
    seq![Seq::<char>::empty()] + script.map_values(|line: DiffLine<Seq<char>>| rendered_line(line))
}

impl DiffLine<String> {
    /// The line as text, with the marker of its tag in front.
    pub fn render(&self) -> (text: String)
        ensures
            text@ == rendered_line(self.deep_view()),
    {
        match self {
            DiffLine::Common(line) => line.clone(),
            DiffLine::OnlyInSecond(line) => {
                proof {
                    reveal_strlit("> ");
                }
                let mut text = "> ".to_owned();
                text.append(line.as_str());
                assert(text@ =~= seq!['>', ' '] + line@);
                text
            },
            DiffLine::OnlyInFirst(line) => {
                proof {
                    reveal_strlit("< ");
                }
                let mut text = "< ".to_owned();
                text.append(line.as_str());
                assert(text@ =~= seq!['<', ' '] + line@);
                text
            },
        }
    }
}

/// The text lines of a comparison: an empty line first, then one text line
/// per line of the comparison.
pub fn render(lines: &Vec<DiffLine<String>>) -> (text: Vec<String>)
    ensures
        text.deep_view() == rendered(lines.deep_view()),
{
    let mut text: Vec<String> = Vec::new();
    text.push(String::new());
    let mut k: usize = 0;
    while k < lines.len()
        invariant
            k <= lines.len(),
            text.deep_view() =~= rendered(lines.deep_view().take(k as int)),
        decreases lines.len() - k,
    {
        let ghost before = text.deep_view();
        let line = lines[k].render();
        text.push(line);
        proof {
            assert(text.deep_view() =~= before.push(line@));
            assert(lines.deep_view().take(k + 1) =~= lines.deep_view().take(k as int).push(
                lines[k as int].deep_view(),
            ));
        }
        k += 1;
    }
    assert(lines.deep_view().take(k as int) =~= lines.deep_view());
    text
}

} // verus!
