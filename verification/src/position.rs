//! Lines, columns and indentation, as a scan over characters computes them.
use crate::chars::{line_break, space, whitespace};
use vstd::prelude::*;

verus! {

/// Where a scan stands after the characters it has consumed. Lines and
/// columns count from zero; columns and indentation count expanded tabs.
pub struct Position {
    /// Number of line ends consumed.
    pub line: nat,
    /// Width of the current line so far.
    pub column: nat,
    /// Width of the run of spaces and tabs that begins the current line.
    pub indent: nat,
    /// Whether the last character consumed was a carriage return.
    pub after_cr: bool,
}

/// Whether `column` is a tab stop: a multiple of the tab width.
pub open spec fn is_tab_stop(column: nat, tab: nat) -> bool
    recommends
        tab >= 1,
{
    column % tab == 0
}

/// The column of the first tab stop after `column`.
pub open spec fn next_tab_stop(column: nat, tab: nat) -> nat
    recommends
        tab >= 1,
{
    (column + (tab - column % tab)) as nat
}

impl Position {
    /// The position before any character.
    pub open spec fn origin() -> Position {
        Position { line: 0, column: 0, indent: 0, after_cr: false }
    }

    /// The position at the start of the line after this one.
    pub open spec fn next_line(self) -> Position {
        Position { line: self.line + 1, column: 0, indent: 0, after_cr: self.after_cr }
    }

    /// The position after consuming `c` at this one, with tab stops every
    /// `tab` columns.
    pub open spec fn step(self, tab: nat, c: char) -> Position
        recommends
            tab >= 1,
    {
        let grows = self.indent == self.column && space(c);
        let moved = if c == '\t' {
            Position { column: next_tab_stop(self.column, tab), ..self }
        } else if c == '\r' {
            self.next_line()
        } else if c == '\n' {
            if self.after_cr {
                self
            } else {
                self.next_line()
            }
        } else {
            Position { column: self.column + 1, ..self }
        };
        Position {
            indent: if grows {
                moved.column
            } else {
                moved.indent
            },
            after_cr: c == '\r',
            ..moved
        }
    }

    /// The position after consuming the characters of `s` in turn.
    pub open spec fn run(self, tab: nat, s: Seq<char>) -> Position
        recommends
            tab >= 1,
        decreases s.len(),
    {
        if s.len() == 0 {
            self
        } else {
            self.run(tab, s.drop_last()).step(tab, s.last())
        }
    }
}

/// `n` pairs of carriage return and line feed.
pub open spec fn crlf_pairs(n: nat) -> Seq<char>
    decreases n,
{
    if n == 0 {
        seq![]
    } else {
        crlf_pairs((n - 1) as nat) + seq!['\r', '\n']
    }
}

/// Consuming two texts in turn is consuming their concatenation.
pub proof fn lemma_run_concat(p: Position, tab: nat, a: Seq<char>, b: Seq<char>)
    ensures
        p.run(tab, a + b) == p.run(tab, a).run(tab, b),
    decreases b.len(),
{
    if b.len() == 0 {
        assert(a + b =~= a);
    } else {
        assert((a + b).drop_last() =~= a + b.drop_last());
        lemma_run_concat(p, tab, a, b.drop_last());
    }
}

/// Consuming one more character is one more step.
pub proof fn lemma_run_push(p: Position, tab: nat, s: Seq<char>, c: char)
    ensures
        p.run(tab, s.push(c)) == p.run(tab, s).step(tab, c),
{
    assert(s.push(c).drop_last() =~= s);
}

/// A tab moves the column to the smallest multiple of the tab width that is
/// greater than the column.
pub proof fn lemma_tab_stop(p: Position, tab: nat)
    requires
        tab >= 1,
    ensures
        p.step(tab, '\t').column == next_tab_stop(p.column, tab),
        is_tab_stop(p.step(tab, '\t').column, tab),
        p.column < p.step(tab, '\t').column <= p.column + tab,
        forall|m: nat| #[trigger] is_tab_stop(m, tab) && m > p.column ==> m >= p.step(tab, '\t').column,
{
    let c = p.column as int;
    let t = tab as int;
    let stop = next_tab_stop(p.column, tab) as int;
    vstd::arithmetic::div_mod::lemma_fundamental_div_mod(c, t);
    assert(stop == t * (c / t + 1)) by (nonlinear_arith)
        requires
            c == t * (c / t) + c % t,
            stop == c + (t - c % t),
    ;
    vstd::arithmetic::div_mod::lemma_mod_multiples_basic(c / t + 1, t);
    assert((c / t + 1) * t == t * (c / t + 1)) by (nonlinear_arith);
    assert forall|m: nat| #[trigger] is_tab_stop(m, tab) && m > p.column implies m >= stop by {
        let mi = m as int;
        vstd::arithmetic::div_mod::lemma_fundamental_div_mod(mi, t);
        assert(mi / t >= c / t + 1) by (nonlinear_arith)
            requires
                mi == t * (mi / t),
                c == t * (c / t) + c % t,
                0 <= c % t < t,
                mi > c,
                t >= 1,
        ;
        assert(mi >= stop) by (nonlinear_arith)
            requires
                mi == t * (mi / t),
                stop == t * (c / t + 1),
                mi / t >= c / t + 1,
                t >= 1,
        ;
    }
}

/// One character adds at most one line and at most a tab width of columns,
/// and leaves the indentation within the column.
pub proof fn lemma_step_bounds(p: Position, tab: nat, c: char)
    requires
        tab >= 1,
        p.indent <= p.column,
    ensures
        p.line <= p.step(tab, c).line <= p.line + 1,
        p.step(tab, c).column <= p.column + tab,
        p.step(tab, c).indent <= p.step(tab, c).column,
{
    lemma_tab_stop(p, tab);
}

/// A text adds at most one line for each character and at most a tab width
/// of columns for each, and leaves the indentation within the column.
pub proof fn lemma_run_bounds(p: Position, tab: nat, s: Seq<char>)
    requires
        tab >= 1,
        p.indent <= p.column,
    ensures
        p.line <= p.run(tab, s).line <= p.line + s.len(),
        p.run(tab, s).column <= p.column + s.len() * tab,
        p.run(tab, s).indent <= p.run(tab, s).column,
    decreases s.len(),
{
    if s.len() > 0 {
        lemma_run_bounds(p, tab, s.drop_last());
        lemma_step_bounds(p.run(tab, s.drop_last()), tab, s.last());
        assert((s.len() - 1) * tab + tab == s.len() * tab) by (nonlinear_arith);
    }
}

/// A carriage return and the line feed after it end one line together,
/// however many such pairs come in a row.
pub proof fn lemma_crlf_counts_once(p: Position, tab: nat, n: nat)
    ensures
        p.run(tab, crlf_pairs(n)).line == p.line + n,
        n > 0 ==> p.run(tab, crlf_pairs(n)).column == 0 && p.run(tab, crlf_pairs(n)).indent == 0,
    decreases n,
{
    if n > 0 {
        let before = crlf_pairs((n - 1) as nat);
        let pair = seq!['\r', '\n'];
        lemma_crlf_counts_once(p, tab, (n - 1) as nat);
        lemma_run_concat(p, tab, before, pair);
        let q = p.run(tab, before);
        assert(pair.drop_last() =~= seq!['\r']);
        assert(pair.drop_last().drop_last() =~= Seq::<char>::empty());
        reveal_with_fuel(Position::run, 3);
        assert(q.run(tab, pair) == q.step(tab, '\r').step(tab, '\n'));
    }
}

/// While a line holds nothing but spaces and tabs, its indentation is its
/// width.
pub proof fn lemma_indent_of_leading_spaces(p: Position, tab: nat, s: Seq<char>)
    requires
        tab >= 1,
        p.indent == p.column,
        forall|i: int| 0 <= i < s.len() ==> space(#[trigger] s[i]),
    ensures
        p.run(tab, s).indent == p.run(tab, s).column,
        p.run(tab, s).line == p.line,
    decreases s.len(),
{
    if s.len() > 0 {
        lemma_indent_of_leading_spaces(p, tab, s.drop_last());
        assert(space(s[s.len() - 1]));
    }
}

/// Where a line begins with spaces and tabs and a character follows that is
/// no whitespace, the indentation behind that character is the width of the
/// spaces and tabs.
pub proof fn lemma_indent_is_width_of_leading_spaces(
    p: Position,
    tab: nat,
    s: Seq<char>,
    c: char,
)
    requires
        tab >= 1,
        p.indent == p.column,
        forall|i: int| 0 <= i < s.len() ==> space(#[trigger] s[i]),
        !whitespace(c),
    ensures
        p.run(tab, s.push(c)).indent == p.run(tab, s).column,
        p.run(tab, s.push(c)).column == p.run(tab, s).column + 1,
        p.run(tab, s.push(c)).line == p.line,
{
    lemma_indent_of_leading_spaces(p, tab, s);
    lemma_run_push(p, tab, s, c);
    lemma_run_bounds(p, tab, s);
    lemma_indent_stops(p.run(tab, s), tab, c);
}

/// Each plain space is one column wide.
pub proof fn lemma_width_of_spaces(p: Position, tab: nat, s: Seq<char>)
    requires
        forall|i: int| 0 <= i < s.len() ==> #[trigger] s[i] == ' ',
    ensures
        p.run(tab, s).column == p.column + s.len(),
        p.run(tab, s).line == p.line,
    decreases s.len(),
{
    if s.len() > 0 {
        lemma_width_of_spaces(p, tab, s.drop_last());
        assert(s[s.len() - 1] == ' ');
    }
}

/// A character that is no whitespace leaves the indentation as it is and
/// moves the column past it.
pub proof fn lemma_indent_stops(p: Position, tab: nat, c: char)
    requires
        tab >= 1,
        p.indent <= p.column,
        !whitespace(c),
    ensures
        p.step(tab, c).indent == p.indent,
        p.step(tab, c).column == p.column + 1,
        p.step(tab, c).indent < p.step(tab, c).column,
{
}

/// Once the column is past the indentation, nothing changes the indentation
/// until the line ends.
pub proof fn lemma_indent_frozen(p: Position, tab: nat, s: Seq<char>)
    requires
        tab >= 1,
        p.indent < p.column,
        forall|i: int| 0 <= i < s.len() ==> !line_break(#[trigger] s[i]),
    ensures
        p.run(tab, s).indent == p.indent,
        p.run(tab, s).column >= p.column + s.len(),
        p.run(tab, s).line == p.line,
    decreases s.len(),
{
    if s.len() > 0 {
        lemma_indent_frozen(p, tab, s.drop_last());
        assert(!line_break(s[s.len() - 1]));
        lemma_tab_stop(p.run(tab, s.drop_last()), tab);
    }
}

} // verus!
