//! Source positions: 1-based (line, column) pairs.
//!
//! Every consumed character advances the running position: a newline or
//! carriage return moves to the next line and resets the column to 1, any
//! other character moves one column to the right.  The counters saturate
//! at `usize::MAX`, a machine limit that no realistic input reaches.

use vstd::prelude::*;

verus! {

/// A source position: `.0` is the line, `.1` the column, both 1-based.
#[derive(Clone, Copy, Debug, Default, PartialEq, Eq, Structural)]
pub struct Position(pub usize, pub usize);

/// A counter increment that saturates at `usize::MAX`.
pub open spec fn sat_inc(n: usize) -> usize {
    if n == usize::MAX {
        n
    } else {
        (n + 1) as usize
    }
}

/// The position reached after consuming one character at position `p`.
pub open spec fn pos_step(p: Position, c: char) -> Position {
    if c == '\n' || c == '\r' {
        Position(sat_inc(p.0), 1)
    } else {
        Position(p.0, sat_inc(p.1))
    }
}

/// The position reached after consuming every character of `s`, in order,
/// starting from `p`.
pub open spec fn pos_steps(p: Position, s: Seq<char>) -> Position
    decreases s.len(),
{
    if s.len() == 0 {
        p
    } else {
        pos_steps(pos_step(p, s[0]), s.skip(1))
    }
}

/// Stepping over a concatenation is stepping over each part in turn.
pub proof fn lemma_pos_steps_app(p: Position, a: Seq<char>, b: Seq<char>)
    ensures
        pos_steps(p, a + b) == pos_steps(pos_steps(p, a), b),
    decreases a.len(),
{
    if a.len() == 0 {
        assert(a + b =~= b);
    } else {
        assert((a + b)[0] == a[0]);
        assert((a + b).skip(1) =~= a.skip(1) + b);
        lemma_pos_steps_app(pos_step(p, a[0]), a.skip(1), b);
    }
}

/// Stepping over a sequence one character at a time agrees with stepping
/// over the whole sequence: consuming `s.take(i)` and then `s[i]` reaches
/// the same position as consuming `s.take(i + 1)`.
pub proof fn lemma_pos_steps_snoc(p: Position, s: Seq<char>, i: int)
    requires
        0 <= i < s.len(),
    ensures
        pos_step(pos_steps(p, s.take(i)), s[i]) == pos_steps(p, s.take(i + 1)),
{
    assert(s.take(i + 1) =~= s.take(i) + seq![s[i]]);
    lemma_pos_steps_app(p, s.take(i), seq![s[i]]);
    lemma_pos_steps_one(pos_steps(p, s.take(i)), s[i]);
}

/// Stepping over a one-character sequence is a single step.
pub proof fn lemma_pos_steps_one(p: Position, c: char)
    ensures
        pos_steps(p, seq![c]) == pos_step(p, c),
{
    reveal_with_fuel(pos_steps, 2);
    assert(seq![c].skip(1) =~= Seq::<char>::empty());
    assert(pos_steps(p, seq![c]) == pos_steps(pos_step(p, c), seq![c].skip(1)));
}

impl Position {
    /// The position after consuming character `c` at this position.
    pub fn stepped(self, c: char) -> (r: Position)
        ensures
            r == pos_step(self, c),
    {
        if c == '\n' || c == '\r' {
            let line: usize = if self.0 == usize::MAX {
                self.0
            } else {
                self.0 + 1
            };
            Position(line, 1)
        } else {
            let col: usize = if self.1 == usize::MAX {
                self.1
            } else {
                self.1 + 1
            };
            Position(self.0, col)
        }
    }
}

} // verus!
