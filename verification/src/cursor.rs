//! A generic bidirectional scanning cursor.
//!
//! `PeekBuffer` holds the live element sequence, a separately held
//! history of already-consumed elements, and a cursor index.  It
//! supports bounded forward and backward lookahead (`peek*`), strided
//! batch peeking, cursor motion that never removes elements
//! (`advance*` / `rewind*`), consumption that moves elements into the
//! history (`eat*`), and history-based undo (`restore*`).
//!
//! Batch operations are all-or-nothing: when fewer elements remain (or
//! precede the cursor, or sit in the history) than requested, the
//! operation returns `None` and changes nothing.  A `step` of 0 in a
//! strided batch operation likewise returns `None`, since no `step`-wide
//! stride can yield the requested number of distinct elements.
//! Cursor motion saturates at the ends of the live sequence.

use vstd::prelude::*;

verus! {

/// The ghost state of a cursor: the live data, the history of consumed
/// elements (most recent last), and the cursor index into the data.
#[verifier::ext_equal]
pub ghost struct CursorView<T> {
    pub data: Seq<T>,
    pub history: Seq<T>,
    pub index: int,
}

/// The elements `s[begin]`, `s[begin + step]`, ... — `n` of them.
pub open spec fn strided<T>(s: Seq<T>, begin: int, n: int, step: int) -> Seq<T>
    decreases n,
{
    if n <= 0 {
        Seq::empty()
    } else {
        seq![s[begin]] + strided(s, begin + step, n - 1, step)
    }
}

/// `strided` yields exactly `n` elements, the `i`-th being
/// `s[begin + i * step]`.
pub proof fn lemma_strided<T>(s: Seq<T>, begin: int, n: int, step: int)
    requires
        n >= 0,
    ensures
        strided(s, begin, n, step).len() == n,
        forall|i: int|
            0 <= i < n ==> strided(s, begin, n, step)[i] == s[begin + i * step],
    decreases n,
{
    if n > 0 {
        lemma_strided(s, begin + step, n - 1, step);
        assert forall|i: int| 0 <= i < n implies strided(s, begin, n, step)[i] == s[begin + i
            * step] by {
            if i > 0 {
                assert(strided(s, begin, n, step)[i] == strided(s, begin + step, n - 1, step)[i
                    - 1]);
                assert((begin + step) + (i - 1) * step == begin + i * step) by (nonlinear_arith);
            } else {
                assert(begin + 0 * step == begin) by (nonlinear_arith);
            }
        }
    }
}

/// A stride of 1 is a plain subrange.
pub proof fn lemma_strided_one<T>(s: Seq<T>, begin: int, n: int)
    requires
        n >= 0,
        0 <= begin,
        begin + n <= s.len(),
    ensures
        strided(s, begin, n, 1) == s.subrange(begin, begin + n),
{
    lemma_strided(s, begin, n, 1);
    assert(strided(s, begin, n, 1) =~= s.subrange(begin, begin + n));
}

/// The number of strided elements within a span of `span` elements:
/// one per full stride, plus one for a trailing partial stride.
pub open spec fn strided_count(span: int, step: int) -> int {
    span / step + if span % step != 0 {
        1int
    } else {
        0int
    }
}

/// Bounds on `strided_count`: a positive span holds at least one
/// strided element, and the last one lies within the span.
pub proof fn lemma_strided_count(span: int, step: int)
    requires
        span >= 0,
        step >= 1,
    ensures
        strided_count(span, step) >= 0,
        (strided_count(span, step) == 0) <==> (span == 0),
        strided_count(span, step) >= 1 ==> (strided_count(span, step) - 1) * step < span,
        span % step != 0 ==> span / step < span,
{
    let c = strided_count(span, step);
    assert(span / step >= 0 && span % step >= 0 && span % step < step && span == span / step * step
        + span % step) by (nonlinear_arith)
        requires span >= 0 && step >= 1;
    if span == 0 {
        assert(span / step == 0) by (nonlinear_arith)
            requires
                step >= 1,
                span == 0;
    }
    if span >= 1 && span % step == 0 {
        assert(span / step >= 1) by (nonlinear_arith)
            requires
                span >= 1,
                step >= 1,
                span % step == 0,
                span == span / step * step + span % step;
    }
    if c >= 1 {
        assert((c - 1) * step < span) by (nonlinear_arith)
            requires
                step >= 1,
                span == span / step * step + span % step,
                0 <= span % step < step,
                c == span / step + if span % step != 0 { 1int } else { 0int },
                c >= 1;
    }
    if span % step != 0 {
        assert(step >= 2 && span >= 1) by (nonlinear_arith)
            requires
                span >= 0,
                step >= 1,
                span % step != 0;
        assert(span / step < span) by (nonlinear_arith)
            requires
                step >= 2,
                span >= 1,
                span == span / step * step + span % step,
                0 <= span % step < step,
                span % step != 0;
    }
}

/// The elements consumed by a strided batch eat: the element at
/// `begin`, then, after its removal, the element at `begin + step - 1`
/// of the shrunken sequence (the next strided element of the original
/// sequence), and so on — `n` elements in all.
pub open spec fn eaten_strided<T>(d: Seq<T>, begin: int, n: int, step: int) -> Seq<T>
    decreases n,
{
    if n <= 0 {
        Seq::empty()
    } else {
        seq![d[begin]] + eaten_strided(d.remove(begin), begin + (step - 1), n - 1, step)
    }
}

/// The live sequence left by a strided batch eat.
pub open spec fn remove_strided<T>(d: Seq<T>, begin: int, n: int, step: int) -> Seq<T>
    decreases n,
{
    if n <= 0 {
        d
    } else {
        remove_strided(d.remove(begin), begin + (step - 1), n - 1, step)
    }
}

/// The live sequence left by a strided batch restore: `c[0]` inserted
/// at `begin`, then `c[1]` at `begin + step` of the grown sequence, and
/// so on.
pub open spec fn insert_strided<T>(d: Seq<T>, begin: int, c: Seq<T>, step: int) -> Seq<T>
    decreases c.len(),
{
    if c.len() == 0 {
        d
    } else {
        insert_strided(d.insert(begin, c[0]), begin + step, c.skip(1), step)
    }
}

/// `eaten_strided` yields exactly `n` elements.
pub proof fn lemma_eaten_strided_len<T>(d: Seq<T>, begin: int, n: int, step: int)
    requires
        n >= 0,
    ensures
        eaten_strided(d, begin, n, step).len() == n,
    decreases n,
{
    if n > 0 {
        lemma_eaten_strided_len(d.remove(begin), begin + (step - 1), n - 1, step);
    }
}

/// How one successful `eat` call relates the cursor state before the
/// call to the state after it: the element at the cursor moves from the
/// live sequence to the end of the history.
pub open spec fn eat_rel<T>(pre: CursorView<T>, post: CursorView<T>) -> bool {
    &&& 0 <= pre.index < pre.data.len()
    &&& post.data == pre.data.remove(pre.index)
    &&& post.history == pre.history.push(pre.data[pre.index])
    &&& post.index == pre.index
}

/// How one successful `restore` call relates the cursor state before
/// the call to the state after it: the most recently consumed element
/// moves from the history back into the live sequence at the cursor.
pub open spec fn restore_rel<T>(pre: CursorView<T>, post: CursorView<T>) -> bool {
    &&& pre.history.len() > 0
    &&& post.data == pre.data.insert(pre.index, pre.history.last())
    &&& post.history == pre.history.drop_last()
    &&& post.index == pre.index
}

/// How one successful or failed `eat` call relates the cursor state
/// before the call, the state after it, and the returned element.
pub open spec fn eat_transition<T>(pre: CursorView<T>, post: CursorView<T>, r: Option<T>) -> bool {
    if 0 <= pre.index < pre.data.len() {
        &&& r == Some(pre.data[pre.index])
        &&& eat_rel(pre, post)
    } else {
        &&& r == None::<T>
        &&& post == pre
    }
}

/// How one successful or failed `restore` call relates the cursor state
/// before the call, the state after it, and the returned element.
pub open spec fn restore_transition<T>(
    pre: CursorView<T>,
    post: CursorView<T>,
    r: Option<T>,
) -> bool {
    if pre.history.len() > 0 {
        &&& r == Some(pre.history.last())
        &&& restore_rel(pre, post)
    } else {
        &&& r == None::<T>
        &&& post == pre
    }
}

/// Undo law, one step: a successful `eat` followed by a successful
/// `restore` returns the live sequence, the cursor index and the
/// history to their prior state.
pub proof fn lemma_eat_restore_undo<T>(s0: CursorView<T>, s1: CursorView<T>, s2: CursorView<T>)
    requires
        eat_rel(s0, s1),
        restore_rel(s1, s2),
    ensures
        s2.data == s0.data,
        s2.history == s0.history,
        s2.index == s0.index,
{
    assert(s2.data =~= s0.data);
    assert(s2.history =~= s0.history);
}

/// Undo law: after `n` consumed elements, `n` `restore` calls return
/// the cursor's live sequence, index and history to their state before
/// the consumes.  `states` is the chain of cursor states: `states[0]`
/// through `states[n]` linked by successful `eat` calls, `states[n]`
/// through `states[2 * n]` linked by successful `restore` calls.
pub proof fn lemma_undo_round_trip<T>(states: Seq<CursorView<T>>, n: int)
    requires
        n >= 0,
        states.len() == 2 * n + 1,
        forall|i: int| 0 <= i < n ==> eat_rel(#[trigger] states[i], states[i + 1]),
        forall|i: int| n <= i < 2 * n ==> restore_rel(#[trigger] states[i], states[i + 1]),
    ensures
        states[2 * n].data == states[0].data,
        states[2 * n].history == states[0].history,
        states[2 * n].index == states[0].index,
    decreases n,
{
    if n > 0 {
        lemma_eat_restore_undo(states[n - 1], states[n], states[n + 1]);
        let inner = states.subrange(0, n) + states.subrange(n + 2, 2 * n + 1);
        assert(inner.len() == 2 * (n - 1) + 1);
        assert(states[n + 1].data == states[n - 1].data && states[n + 1].history == states[n
            - 1].history && states[n + 1].index == states[n - 1].index);
        assert forall|i: int| 0 <= i < n - 1 implies eat_rel(#[trigger] inner[i], inner[i + 1]) by {
            assert(eat_rel(states[i], states[i + 1]));
            assert(inner[i] == states[i] && inner[i + 1] == states[i + 1]);
        }
        assert forall|i: int| n - 1 <= i < 2 * (n - 1) implies restore_rel(
            #[trigger] inner[i],
            inner[i + 1],
        ) by {
            if i == n - 1 {
                assert(inner[i] == states[n - 1] && inner[i + 1] == states[n + 2]);
                assert(restore_rel(states[n + 1], states[n + 2]));
                assert(states[n - 1] =~= states[n + 1]);
            } else {
                assert(inner[i] == states[i + 2] && inner[i + 1] == states[i + 3]);
                assert(restore_rel(states[i + 2], states[i + 3]));
            }
        }
        lemma_undo_round_trip(inner, n - 1);
        assert(inner[0] == states[0]);
        if n >= 2 {
            assert(inner[2 * (n - 1)] == states[2 * n]);
        }
    }
}

/// A generic sequence cursor with bounded lookahead and consume/undo
/// history.
///
/// The live sequence and the history are owned, contiguous buffers;
/// consuming an element moves it from the live buffer into the history,
/// restoring moves it back.  The cursor index never exceeds the length
/// of the live sequence.
#[derive(Clone, Debug, Default)]
pub struct PeekBuffer<T: Copy> {
    data: Vec<T>,
    history: Vec<T>,
    index: usize,
}

impl<T: Copy> View for PeekBuffer<T> {
    type V = CursorView<T>;

    closed spec fn view(&self) -> CursorView<T> {
        CursorView { data: self.data@, history: self.history@, index: self.index as int }
    }
}

impl<T: Copy> PeekBuffer<T> {
    /// Well-formedness: the cursor index stays within the live sequence.
    /// `new` establishes it and every method preserves it.
    pub open spec fn wf(self) -> bool {
        0 <= self@.index <= self@.data.len()
    }

    /// A cursor over `data`, positioned at its start, with empty history.
    pub fn new(data: Vec<T>) -> (r: Self)
        ensures
            r@.data == data@,
            r@.history == Seq::<T>::empty(),
            r@.index == 0,
            r.wf(),
    {
        Self { data, history: Vec::new(), index: 0 }
    }

    /// Read-only lookahead at absolute index `index` of the live
    /// sequence; `None` past its end.  Does not move the cursor.
    pub fn peek_at(&self, index: usize) -> (r: Option<T>)
        ensures
            r == if index < self@.data.len() {
                Some(self@.data[index as int])
            } else {
                None::<T>
            },
    {
        if index < self.data.len() {
            Some(self.data[index])
        } else {
            None
        }
    }

    /// The strided elements of the live sequence at indices
    /// `range_begin`, `range_begin + step`, ... below `range_end`;
    /// `None` if the range exceeds the live sequence or `step` is 0.
    pub fn peek_from_to(&self, range_begin: usize, range_end: usize, step: usize) -> (r: Option<
        Vec<T>,
    >)
        ensures
            if step >= 1 && range_begin <= range_end && range_end <= self@.data.len() {
                r matches Some(v) && v@ == strided(
                    self@.data,
                    range_begin as int,
                    strided_count(range_end - range_begin, step as int),
                    step as int,
                )
            } else {
                r == None::<Vec<T>>
            },
    {
        if step < 1 || range_begin > range_end || range_end > self.data.len() {
            return None;
        }
        let span: usize = range_end - range_begin;
        proof {
            lemma_strided_count(span as int, step as int);
        }
        let count: usize = span / step + if span % step != 0 {
            1
        } else {
            0
        };
        let ghost n = strided_count(span as int, step as int);
        let mut result: Vec<T> = Vec::new();
        let mut pos: usize = range_begin;
        let mut k: usize = 0;
        while k < count
            invariant
                0 <= k <= count,
                count == n,
                n == strided_count(span as int, step as int),
                step >= 1,
                range_begin + span == range_end <= self@.data.len(),
                span == range_end - range_begin,
                k < count ==> pos == range_begin + k * step < range_end,
                result@.len() == k,
                forall|j: int| 0 <= j < k ==> result@[j] == self@.data[range_begin + j * step],
            decreases count - k,
        {
            proof {
                assert(pos < range_end);
            }
            result.push(self.data[pos]);
            k = k + 1;
            if k < count {
                proof {
                    lemma_strided_count(span as int, step as int);
                    assert(range_begin + k * step == pos + step) by (nonlinear_arith)
                        requires
                            pos == range_begin + (k - 1) * step,
                    ;
                    assert(k * step <= (count - 1) * step) by (nonlinear_arith)
                        requires
                            k <= count - 1 && step >= 1 && k >= 0,
                    ;
                    assert(pos + step < range_end);
                }
                pos = pos + step;
            }
        }
        proof {
            lemma_strided(self@.data, range_begin as int, n, step as int);
            assert(result@ =~= strided(self@.data, range_begin as int, n, step as int));
        }
        Some(result)
    }

    /// The element at the cursor; `None` when the cursor is at the end.
    pub fn peek(&self) -> (r: Option<T>)
        ensures
            r == if self@.index < self@.data.len() {
                Some(self@.data[self@.index])
            } else {
                None::<T>
            },
    {
        self.peek_at(self.index)
    }

    /// The next `n` elements at the cursor, or `None` when fewer than
    /// `n` remain — an all-or-nothing read that never returns a short
    /// batch and never moves the cursor.
    pub fn peek_many(&self, n: usize) -> (r: Option<Vec<T>>)
        ensures
            if self@.index + n <= self@.data.len() {
                r matches Some(v) && v@ == self@.data.subrange(self@.index, self@.index + n)
            } else {
                r == None::<Vec<T>>
            },
    {
        if self.index > self.data.len() || n > self.data.len() - self.index {
            return None;
        }
        let r = self.peek_from_to(self.index, self.index + n, 1);
        proof {
            assert(strided_count(n as int, 1) == n as int);
            lemma_strided_one(self@.data, self@.index, n as int);
        }
        r
    }

    /// The next `n` elements strided by `step`: the elements at offsets
    /// `0`, `step`, ..., `(n - 1) * step` from the cursor.  `None` when
    /// fewer than `n * step` elements remain or `step` is 0.
    pub fn peek_many_stepping(&self, n: usize, step: usize) -> (r: Option<Vec<T>>)
        ensures
            if step >= 1 && self@.index + n * step <= self@.data.len() {
                r matches Some(v) && v@ == strided(self@.data, self@.index, n as int, step as int)
                    && v@.len() == n
            } else {
                r == None::<Vec<T>>
            },
    {
        if step < 1 {
            return None;
        }
        let len = self.data.len();
        let p = match n.checked_mul(step) {
            Some(p) => p,
            None => {
                proof {
                    assert(n * step > usize::MAX >= self@.data.len());
                }
                return None;
            },
        };
        if self.index > len || p > len - self.index {
            return None;
        }
        let r = self.peek_from_to(self.index, self.index + p, step);
        proof {
            assert(p == n * step);
            assert(strided_count((n * step) as int, step as int) == n as int) by (nonlinear_arith)
                requires step >= 1 && n >= 0 && p == n * step;
            lemma_strided(self@.data, self@.index, n as int, step as int);
        }
        r
    }

    /// The element just before the cursor; `None` at the beginning.
    pub fn peek_behind(&self) -> (r: Option<T>)
        ensures
            r == if 1 <= self@.index <= self@.data.len() {
                Some(self@.data[self@.index - 1])
            } else {
                None::<T>
            },
    {
        if self.index >= 1 && self.index - 1 < self.data.len() {
            Some(self.data[self.index - 1])
        } else {
            None
        }
    }

    /// The `n` elements just before the cursor, in sequence order;
    /// `None` when fewer than `n` precede it.
    pub fn peek_behind_many(&self, n: usize) -> (r: Option<Vec<T>>)
        ensures
            if n <= self@.index <= self@.data.len() {
                r matches Some(v) && v@ == self@.data.subrange(self@.index - n, self@.index)
            } else {
                r == None::<Vec<T>>
            },
    {
        if n > self.index || self.index > self.data.len() {
            return None;
        }
        let r = self.peek_from_to(self.index - n, self.index, 1);
        proof {
            assert(strided_count(n as int, 1) == n as int);
            lemma_strided_one(self@.data, self@.index - n, n as int);
        }
        r
    }

    /// The `n` elements strided by `step` that end just before the
    /// cursor; `None` when fewer than `n * step` precede it or `step`
    /// is 0.
    pub fn peek_behind_many_stepping(&self, n: usize, step: usize) -> (r: Option<Vec<T>>)
        ensures
            if step >= 1 && n * step <= self@.index <= self@.data.len() {
                r matches Some(v) && v@ == strided(
                    self@.data,
                    self@.index - n * step,
                    n as int,
                    step as int,
                ) && v@.len() == n
            } else {
                r == None::<Vec<T>>
            },
    {
        if step < 1 {
            return None;
        }
        let p = match n.checked_mul(step) {
            Some(p) => p,
            None => {
                proof {
                    assert(n * step > usize::MAX >= self@.index);
                }
                return None;
            },
        };
        if p > self.index || self.index > self.data.len() {
            return None;
        }
        let r = self.peek_from_to(self.index - p, self.index, step);
        proof {
            assert(strided_count((n * step) as int, step as int) == n as int) by (nonlinear_arith)
                requires step >= 1 && n >= 0 && p == n * step;
            lemma_strided(self@.data, self@.index - p, n as int, step as int);
        }
        r
    }

    /// Move the cursor one element forward; a no-op at the end.
    pub fn advance(&mut self)
        ensures
            final(self)@.data == old(self)@.data,
            final(self)@.history == old(self)@.history,
            final(self)@.index == if old(self)@.index < old(self)@.data.len() {
                old(self)@.index + 1
            } else {
                old(self)@.index
            },
            old(self).wf() ==> final(self).wf(),
    {
        if self.index < self.data.len() {
            self.index = self.index + 1;
        }
    }

    /// Move the cursor `n` elements forward, saturating at the end of
    /// the live sequence.
    pub fn advance_by(&mut self, n: usize)
        ensures
            final(self)@.data == old(self)@.data,
            final(self)@.history == old(self)@.history,
            final(self)@.index == vstd::math::min(
                old(self)@.index + n,
                old(self)@.data.len() as int,
            ),
            final(self).wf(),
    {
        let len = self.data.len();
        if self.index >= len {
            self.index = len;
        } else if n <= len - self.index {
            self.index = self.index + n;
        } else {
            self.index = len;
        }
    }

    /// Move the cursor `n * step` elements forward, saturating at the
    /// end of the live sequence.
    pub fn advance_by_stepping(&mut self, n: usize, step: usize)
        ensures
            final(self)@.data == old(self)@.data,
            final(self)@.history == old(self)@.history,
            final(self)@.index == vstd::math::min(
                old(self)@.index + n * step,
                old(self)@.data.len() as int,
            ),
            final(self).wf(),
    {
        match n.checked_mul(step) {
            Some(p) => self.advance_by(p),
            None => {
                self.index = self.data.len();
            },
        }
    }

    /// Move the cursor to index `index`, saturating at the end of the
    /// live sequence.
    pub fn advance_to(&mut self, index: usize)
        ensures
            final(self)@.data == old(self)@.data,
            final(self)@.history == old(self)@.history,
            final(self)@.index == vstd::math::min(index as int, old(self)@.data.len() as int),
            final(self).wf(),
    {
        let len = self.data.len();
        if index <= len {
            self.index = index;
        } else {
            self.index = len;
        }
    }

    /// Move the cursor to the end of the live sequence.
    pub fn advance_to_end(&mut self)
        ensures
            final(self)@.data == old(self)@.data,
            final(self)@.history == old(self)@.history,
            final(self)@.index == old(self)@.data.len(),
            final(self).wf(),
    {
        self.index = self.data.len();
    }

    /// Move the cursor one element backward; a no-op at the beginning.
    pub fn rewind(&mut self)
        ensures
            final(self)@.data == old(self)@.data,
            final(self)@.history == old(self)@.history,
            final(self)@.index == if old(self)@.index > 0 {
                old(self)@.index - 1
            } else {
                0int
            },
            old(self).wf() ==> final(self).wf(),
    {
        if self.index > 0 {
            self.index = self.index - 1;
        }
    }

    /// Move the cursor `n` elements backward, saturating at 0.
    pub fn rewind_by(&mut self, n: usize)
        ensures
            final(self)@.data == old(self)@.data,
            final(self)@.history == old(self)@.history,
            final(self)@.index == vstd::math::max(old(self)@.index - n, 0int),
            old(self).wf() ==> final(self).wf(),
    {
        if n <= self.index {
            self.index = self.index - n;
        } else {
            self.index = 0;
        }
    }

    /// Move the cursor `n * step` elements backward, saturating at 0.
    pub fn rewind_by_stepping(&mut self, n: usize, step: usize)
        ensures
            final(self)@.data == old(self)@.data,
            final(self)@.history == old(self)@.history,
            final(self)@.index == vstd::math::max(old(self)@.index - n * step, 0int),
            old(self).wf() ==> final(self).wf(),
    {
        match n.checked_mul(step) {
            Some(p) => self.rewind_by(p),
            None => {
                self.index = 0;
            },
        }
    }

    /// Move the cursor back to index `index`; a no-op if the cursor is
    /// already at or before it.
    pub fn rewind_to(&mut self, index: usize)
        ensures
            final(self)@.data == old(self)@.data,
            final(self)@.history == old(self)@.history,
            final(self)@.index == vstd::math::min(index as int, old(self)@.index),
            old(self).wf() ==> final(self).wf(),
    {
        if index < self.index {
            self.index = index;
        }
    }

    /// Move the cursor back to the beginning of the live sequence.
    pub fn rewind_to_beginning(&mut self)
        ensures
            final(self)@.data == old(self)@.data,
            final(self)@.history == old(self)@.history,
            final(self)@.index == 0,
            old(self).wf() ==> final(self).wf(),
    {
        self.index = 0;
    }

    /// Consume the element at the cursor: remove it from the live
    /// sequence, append it to the history, and return it.  `None`, with
    /// no change, when the cursor is at the end.
    pub fn eat(&mut self) -> (r: Option<T>)
        ensures
            eat_transition(old(self)@, final(self)@, r),
            old(self).wf() ==> final(self).wf(),
    {
        if self.index < self.data.len() {
            let x = self.data.remove(self.index);
            self.history.push(x);
            Some(x)
        } else {
            None
        }
    }

    /// Consume the next `n` elements at the cursor, appending them to
    /// the history in sequence order and returning them.  `None`, with
    /// no change at all, when fewer than `n` elements remain: a failed
    /// batch eat never consumes partially.
    pub fn eat_many(&mut self, n: usize) -> (r: Option<Vec<T>>)
        ensures
            if old(self)@.index + n <= old(self)@.data.len() {
                &&& r matches Some(v) && v@ == old(self)@.data.subrange(
                    old(self)@.index,
                    old(self)@.index + n,
                )
                &&& final(self)@.data == old(self)@.data.subrange(0, old(self)@.index) + old(
                    self,
                )@.data.subrange(old(self)@.index + n, old(self)@.data.len() as int)
                &&& final(self)@.history == old(self)@.history + old(self)@.data.subrange(
                    old(self)@.index,
                    old(self)@.index + n,
                )
                &&& final(self)@.index == old(self)@.index
            } else {
                r == None::<Vec<T>> && final(self)@ == old(self)@
            },
            old(self).wf() ==> final(self).wf(),
    {
        if self.index > self.data.len() || n > self.data.len() - self.index {
            return None;
        }
        let ghost o = self@;
        let mut result: Vec<T> = Vec::new();
        let mut i: usize = 0;
        while i < n
            invariant
                0 <= i <= n,
                o.index + n <= o.data.len(),
                self@.index == o.index,
                self@.data =~= o.data.subrange(0, o.index) + o.data.subrange(
                    o.index + i,
                    o.data.len() as int,
                ),
                result@ =~= o.data.subrange(o.index, o.index + i),
                self@.history =~= o.history + result@,
            decreases n - i,
        {
            let x = self.data.remove(self.index);
            result.push(x);
            self.history.push(x);
            i = i + 1;
            proof {
                assert(self@.data =~= o.data.subrange(0, o.index) + o.data.subrange(
                    o.index + i,
                    o.data.len() as int,
                ));
                assert(result@ =~= o.data.subrange(o.index, o.index + i));
            }
        }
        Some(result)
    }

    /// Consume `n` elements strided by `step`: the element at the
    /// cursor, then the next strided element of the original sequence,
    /// and so on, appending them to the history in consumption order
    /// and returning them.  `None`, with no change at all, when fewer
    /// than `n * step` elements remain or `step` is 0.
    pub fn eat_many_stepping(&mut self, n: usize, step: usize) -> (r: Option<Vec<T>>)
        ensures
            if step >= 1 && old(self)@.index + n * step <= old(self)@.data.len() {
                &&& r matches Some(v) && v@ == eaten_strided(
                    old(self)@.data,
                    old(self)@.index,
                    n as int,
                    step as int,
                ) && v@.len() == n
                &&& final(self)@.data == remove_strided(
                    old(self)@.data,
                    old(self)@.index,
                    n as int,
                    step as int,
                )
                &&& final(self)@.history == old(self)@.history + eaten_strided(
                    old(self)@.data,
                    old(self)@.index,
                    n as int,
                    step as int,
                )
                &&& final(self)@.index == old(self)@.index
            } else {
                r == None::<Vec<T>> && final(self)@ == old(self)@
            },
            old(self).wf() ==> final(self).wf(),
    {
        if step < 1 {
            return None;
        }
        let len = self.data.len();
        let p = match n.checked_mul(step) {
            Some(p) => p,
            None => {
                proof {
                    assert(n * step > usize::MAX >= self@.data.len());
                }
                return None;
            },
        };
        if self.index > len || p > len - self.index {
            return None;
        }
        let ghost o = self@;
        proof {
            lemma_eaten_strided_len(o.data, o.index, n as int, step as int);
        }
        let mut result: Vec<T> = Vec::new();
        let mut pos: usize = self.index;
        let mut i: usize = 0;
        proof {
            if n >= 1 {
                assert((n - 1) * step + 1 <= n * step) by (nonlinear_arith)
                    requires
                        n >= 1 && step >= 1,
                ;
            }
            assert(0int * (step - 1) == 0) by (nonlinear_arith);
            assert(result@ + eaten_strided(o.data, o.index, n as int, step as int)
                =~= eaten_strided(o.data, o.index, n as int, step as int));
        }
        while i < n
            invariant
                0 <= i <= n,
                step >= 1,
                self@.index == o.index,
                self@.data.len() == o.data.len() - i,
                i < n ==> pos == o.index + i * (step - 1),
                i < n ==> pos + (n - i - 1) * step + 1 <= self@.data.len(),
                eaten_strided(o.data, o.index, n as int, step as int) == result@ + eaten_strided(
                    self@.data,
                    pos as int,
                    n - i,
                    step as int,
                ),
                remove_strided(o.data, o.index, n as int, step as int) == remove_strided(
                    self@.data,
                    pos as int,
                    n - i,
                    step as int,
                ),
                result@.len() == i,
                self@.history =~= o.history + result@,
            decreases n - i,
        {
            let ghost m = n - i;
            let ghost data0 = self@.data;
            let ghost res0 = result@;
            let ghost pos0 = pos as int;
            proof {
                assert((m - 1) * step >= 0) by (nonlinear_arith)
                    requires
                        step >= 1,
                        m >= 1,
                ;
            }
            let x = self.data.remove(pos);
            result.push(x);
            self.history.push(x);
            i = i + 1;
            proof {
                assert(eaten_strided(data0, pos0, m, step as int) == seq![data0[pos0]]
                    + eaten_strided(data0.remove(pos0), pos0 + (step - 1), m - 1, step as int));
                assert(remove_strided(data0, pos0, m, step as int) == remove_strided(
                    data0.remove(pos0),
                    pos0 + (step - 1),
                    m - 1,
                    step as int,
                ));
                assert(self@.data == data0.remove(pos0));
                assert(result@ =~= res0 + seq![x]);
                assert(res0 + (seq![x] + eaten_strided(
                    self@.data,
                    pos0 + (step - 1),
                    m - 1,
                    step as int,
                )) =~= result@ + eaten_strided(self@.data, pos0 + (step - 1), m - 1, step as int));
                assert(self@.history =~= o.history + result@);
            }
            if i < n {
                let cur_len = self.data.len();
                proof {
                    assert(o.index + i * (step - 1) == pos + (step - 1)) by (nonlinear_arith)
                        requires
                            pos == o.index + (i - 1) * (step - 1),
                    ;
                    assert((m - 2) * step == (m - 1) * step - step) by (nonlinear_arith);
                    assert((m - 2) * step >= 0) by (nonlinear_arith)
                        requires
                            step >= 1,
                            m >= 2,
                    ;
                    assert(pos + (step - 1) + (m - 2) * step + 1 <= cur_len);
                }
                pos = pos + (step - 1);
            } else {
                proof {
                    assert(eaten_strided(self@.data, pos0 + (step - 1), 0, step as int)
                        =~= Seq::<T>::empty());
                    assert(eaten_strided(self@.data, pos as int, 0, step as int)
                        =~= Seq::<T>::empty());
                    assert(result@ + Seq::<T>::empty() =~= result@);
                }
            }
        }
        proof {
            assert(eaten_strided(self@.data, pos as int, 0, step as int) =~= Seq::<T>::empty());
            assert(result@ + eaten_strided(self@.data, pos as int, 0, step as int) =~= result@);
            assert(eaten_strided(o.data, o.index, n as int, step as int) == result@);
            assert(n * step >= n) by (nonlinear_arith)
                requires
                    step >= 1,
                    n >= 0,
            ;
        }
        Some(result)
    }

    /// Undo the most recent `eat`: pop the last element off the history
    /// and re-insert it into the live sequence at the cursor.  `None`,
    /// with no change, when the history is empty.
    pub fn restore(&mut self) -> (r: Option<T>)
        requires
            old(self).wf(),
        ensures
            restore_transition(old(self)@, final(self)@, r),
            final(self).wf(),
    {
        match self.history.pop() {
            Some(x) => {
                self.data.insert(self.index, x);
                Some(x)
            },
            None => None,
        }
    }

    /// Undo the `n` most recent consumptions: remove the last `n`
    /// history elements and re-insert them into the live sequence at
    /// the cursor in their exact prior order.  The elements are
    /// returned in pop order, most recently consumed first.  `None`,
    /// with no change, when the history holds fewer than `n` elements.
    pub fn restore_many(&mut self, n: usize) -> (r: Option<Vec<T>>)
        requires
            old(self).wf(),
        ensures
            ({
                let hl = old(self)@.history.len() as int;
                if n <= hl {
                    &&& r matches Some(v) && v@ == old(self)@.history.subrange(
                        hl - n,
                        hl,
                    ).reverse()
                    &&& final(self)@.data == old(self)@.data.subrange(0, old(self)@.index) + old(
                        self,
                    )@.history.subrange(hl - n, hl) + old(self)@.data.subrange(
                        old(self)@.index,
                        old(self)@.data.len() as int,
                    )
                    &&& final(self)@.history == old(self)@.history.subrange(0, hl - n)
                    &&& final(self)@.index == old(self)@.index
                } else {
                    r == None::<Vec<T>> && final(self)@ == old(self)@
                }
            }),
            final(self).wf(),
    {
        if n > self.history.len() {
            return None;
        }
        let ghost o = self@;
        let ghost hl = o.history.len() as int;
        let ghost chunk = o.history.subrange(hl - n, hl);
        let mut result: Vec<T> = Vec::new();
        let mut i: usize = 0;
        while i < n
            invariant
                0 <= i <= n <= hl,
                hl == o.history.len(),
                self@.data == o.data,
                self@.index == o.index,
                self@.history =~= o.history.subrange(0, hl - i),
                result@.len() == i,
                forall|j: int| 0 <= j < i ==> result@[j] == o.history[hl - 1 - j],
            decreases n - i,
        {
            let x = match self.history.pop() {
                Some(x) => x,
                None => {
                    return None;
                },
            };
            result.push(x);
            i = i + 1;
            proof {
                assert(self@.history =~= o.history.subrange(0, hl - i));
            }
        }
        proof {
            assert(result@ =~= chunk.reverse());
        }
        let mut j: usize = 0;
        proof {
            assert(chunk.subrange(n as int, n as int) =~= Seq::<T>::empty());
            assert(self@.data =~= o.data.subrange(0, o.index) + chunk.subrange(n as int, n as int)
                + o.data.subrange(o.index, o.data.len() as int));
        }
        while j < n
            invariant
                0 <= j <= n,
                0 <= o.index <= o.data.len(),
                hl == o.history.len(),
                n <= hl,
                chunk == o.history.subrange(hl - n, hl),
                result@.len() == n,
                forall|k: int| 0 <= k < n ==> result@[k] == o.history[hl - 1 - k],
                self@.index == o.index,
                self@.history == o.history.subrange(0, hl - n),
                self@.data.len() == o.data.len() + j,
                self@.data =~= o.data.subrange(0, o.index) + chunk.subrange(n - j, n as int)
                    + o.data.subrange(o.index, o.data.len() as int),
            decreases n - j,
        {
            self.data.insert(self.index, result[j]);
            j = j + 1;
            proof {
                assert(o.history[hl - 1 - (j - 1)] == chunk[n - j]);
                assert(self@.data =~= o.data.subrange(0, o.index) + chunk.subrange(n - j, n as int)
                    + o.data.subrange(o.index, o.data.len() as int));
            }
        }
        proof {
            assert(chunk.subrange(0, n as int) =~= chunk);
        }
        Some(result)
    }

    /// Undo the `n` most recent consumptions, re-inserting them strided
    /// by `step`: the oldest of the `n` at the cursor, the next at
    /// `step` positions further right of the grown sequence, and so on.
    /// The elements are returned in pop order.  `None`, with no change,
    /// when the history holds fewer than `n` elements, `step` is 0, or a
    /// stride would fall outside the live sequence.
    pub fn restore_many_stepping(&mut self, n: usize, step: usize) -> (r: Option<Vec<T>>)
        requires
            old(self).wf(),
        ensures
            ({
                let hl = old(self)@.history.len() as int;
                let chunk = old(self)@.history.subrange(hl - n, hl);
                if step >= 1 && n <= hl && (n == 0 || old(self)@.index + (n - 1) * (step - 1)
                    <= old(self)@.data.len()) {
                    &&& r matches Some(v) && v@ == chunk.reverse()
                    &&& final(self)@.data == insert_strided(
                        old(self)@.data,
                        old(self)@.index,
                        chunk,
                        step as int,
                    )
                    &&& final(self)@.history == old(self)@.history.subrange(0, hl - n)
                    &&& final(self)@.index == old(self)@.index
                } else {
                    r == None::<Vec<T>> && final(self)@ == old(self)@
                }
            }),
            final(self).wf(),
    {
        if step < 1 {
            return None;
        }
        if n > self.history.len() {
            return None;
        }
        let dlen = self.data.len();
        if n >= 1 {
            let p = match (n - 1).checked_mul(step - 1) {
                Some(p) => p,
                None => {
                    proof {
                        assert((n - 1) * (step - 1) > usize::MAX >= self@.data.len());
                    }
                    return None;
                },
            };
            if p > dlen - self.index {
                return None;
            }
        }
        let ghost o = self@;
        let ghost hl = o.history.len() as int;
        let ghost chunk = o.history.subrange(hl - n, hl);
        let mut result: Vec<T> = Vec::new();
        let mut i: usize = 0;
        while i < n
            invariant
                0 <= i <= n <= hl,
                hl == o.history.len(),
                self@.data == o.data,
                self@.index == o.index,
                n >= 1 ==> o.index + (n - 1) * (step - 1) <= o.data.len(),
                self@.history =~= o.history.subrange(0, hl - i),
                result@.len() == i,
                forall|j: int| 0 <= j < i ==> result@[j] == o.history[hl - 1 - j],
            decreases n - i,
        {
            let x = match self.history.pop() {
                Some(x) => x,
                None => {
                    return None;
                },
            };
            result.push(x);
            i = i + 1;
            proof {
                assert(self@.history =~= o.history.subrange(0, hl - i));
            }
        }
        proof {
            assert(result@ =~= chunk.reverse());
        }
        let mut pos: usize = self.index;
        let mut j: usize = 0;
        proof {
            assert(chunk.skip(0) =~= chunk);
            assert(0int * step == 0) by (nonlinear_arith);
        }
        while j < n
            invariant
                step >= 1,
                0 <= j <= n,
                0 <= o.index <= o.data.len(),
                n >= 1 ==> o.index + (n - 1) * (step - 1) <= o.data.len(),
                j < n ==> pos == o.index + j * step,
                hl == o.history.len(),
                n <= hl,
                chunk == o.history.subrange(hl - n, hl),
                result@.len() == n,
                forall|k: int| 0 <= k < n ==> result@[k] == o.history[hl - 1 - k],
                self@.index == o.index,
                self@.history == o.history.subrange(0, hl - n),
                self@.data.len() == o.data.len() + j,
                insert_strided(o.data, o.index, chunk, step as int) == insert_strided(
                    self@.data,
                    pos as int,
                    chunk.skip(j as int),
                    step as int,
                ),
            decreases n - j,
        {
            let ghost data0 = self@.data;
            let ghost pos0 = pos as int;
            let ghost j0 = j as int;
            proof {
                assert(j * step == j * (step - 1) + j && j * (step - 1) <= (n - 1) * (step - 1))
                    by (nonlinear_arith)
                    requires
                        0 <= j <= n - 1,
                        step >= 1,
                ;
                assert(pos <= data0.len());
                assert(chunk.skip(j0)[0] == chunk[j0]);
                assert(o.history[hl - 1 - (n - 1 - j0)] == chunk[j0]);
                assert(insert_strided(data0, pos0, chunk.skip(j0), step as int) == insert_strided(
                    data0.insert(pos0, chunk.skip(j0)[0]),
                    pos0 + step,
                    chunk.skip(j0).skip(1),
                    step as int,
                ));
            }
            self.data.insert(pos, result[n - 1 - j]);
            j = j + 1;
            proof {
                assert(self@.data == data0.insert(pos0, chunk[j0]));
                assert(chunk.skip(j0).skip(1) =~= chunk.skip(j as int));
            }
            if j < n {
                let cur_len = self.data.len();
                proof {
                    assert(o.index + j * step == pos + step) by (nonlinear_arith)
                        requires
                            pos == o.index + (j - 1) * step,
                    ;
                    assert(j * step == j * (step - 1) + j && j * (step - 1) <= (n - 1) * (step
                        - 1)) by (nonlinear_arith)
                        requires
                            0 <= j <= n - 1,
                            step >= 1,
                    ;
                    assert(pos + step <= cur_len);
                }
                pos = pos + step;
            }
        }
        proof {
            assert(chunk.skip(n as int) =~= Seq::<T>::empty());
        }
        Some(result)
    }

    /// Forget the consumption history; restoring past this point is no
    /// longer possible.
    pub fn clear_history(&mut self)
        ensures
            final(self)@.data == old(self)@.data,
            final(self)@.history == Seq::<T>::empty(),
            final(self)@.index == old(self)@.index,
            old(self).wf() ==> final(self).wf(),
    {
        self.history.clear();
    }

    /// Drop the live sequence and reset the cursor to its beginning;
    /// the history is kept.
    pub fn clear_data(&mut self)
        ensures
            final(self)@.data == Seq::<T>::empty(),
            final(self)@.history == old(self)@.history,
            final(self)@.index == 0,
            final(self).wf(),
    {
        self.data.clear();
        self.index = 0;
    }

    /// Drop both the live sequence and the history and reset the
    /// cursor.
    pub fn clear(&mut self)
        ensures
            final(self)@.data == Seq::<T>::empty(),
            final(self)@.history == Seq::<T>::empty(),
            final(self)@.index == 0,
            final(self).wf(),
    {
        self.data.clear();
        self.history.clear();
        self.index = 0;
    }
}

} // verus!
