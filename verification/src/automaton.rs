//! The plain automaton: one full row of the distance matrix, for a pattern of
//! any length.

use crate::metric::{edit_distance, lemma_distance_bounds, lemma_distance_push, prefix_within};
use crate::myers::row;
use vstd::prelude::*;

verus! {

/// A pattern, held codepoint by codepoint.
pub struct LevenshteinAutomaton {
    chars: Vec<char>,
}

/// The distance row of a pattern after some codepoints were fed.
pub struct LevenshteinAutomatonState<'a> {
    m: &'a LevenshteinAutomaton,
    row: Vec<usize>,
    consumed: Ghost<Seq<char>>,
}

impl LevenshteinAutomaton {
    /// The string that this automaton measures distances to.
    pub closed spec fn pattern(&self) -> Seq<char> {
        self.chars@
    }

    /// The automaton that measures distances to `string`.
    pub fn new(string: &str) -> (m: Self)
        ensures
            m.pattern() == string@,
    {
        let mut chars: Vec<char> = Vec::new();
        for c in it: string.chars()
            invariant
                it.seq() == string@,
                chars@ == string@.take(it.index()),
        {
            chars.push(c);
            assert(string@.take(it.index() + 1) =~= string@.take(it.index()).push(c));
        }
        assert(string@.take(string@.len() as int) =~= string@);
        Self { chars }
    }

    /// The state that has consumed nothing: the row `0, 1, 2, ...`.
    pub fn start(&self) -> (s: LevenshteinAutomatonState<'_>)
        ensures
            s.wf(),
            s.pattern() == self.pattern(),
            s.consumed() == Seq::<char>::empty(),
    {
        let mut cells: Vec<usize> = Vec::new();
        let mut i: usize = 0;
        cells.push(0);
        while i < self.chars.len()
            invariant
                i <= self.chars@.len(),
                cells@.len() == i + 1,
                forall|j: int| 0 <= j <= i ==> cells@[j] == j,
            decreases self.chars@.len() - i,
        {
            i += 1;
            cells.push(i);
        }
        assert forall|j: int| 0 <= j <= self.chars@.len() implies #[trigger] cells@[j] == row(
            Seq::<char>::empty(),
            self.chars@,
            j,
        ) by {}
        LevenshteinAutomatonState { m: self, row: cells, consumed: Ghost(Seq::empty()) }
    }
}

impl<'a> LevenshteinAutomatonState<'a> {
    /// The row holds, entry by entry, the distances from what was consumed to
    /// the prefixes of the pattern.
    pub closed spec fn wf(&self) -> bool {
        &&& self.row@.len() == self.m.chars@.len() + 1
        &&& forall|i: int|
            0 <= i <= self.m.chars@.len() ==> #[trigger] self.row@[i] == row(
                self.consumed@,
                self.m.chars@,
                i,
            )
    }

    /// The fixed string that distances are measured to.
    pub closed spec fn pattern(&self) -> Seq<char> {
        self.m.chars@
    }

    /// The codepoints fed so far, in order.
    pub closed spec fn consumed(&self) -> Seq<char> {
        self.consumed@
    }

    /// The last entry of the row.
    pub closed spec fn spec_distance(&self) -> int {
        self.row@.last() as int
    }

    /// Whether some entry of the row is at most `max_edits`.
    pub closed spec fn spec_can_match(&self, max_edits: int) -> bool {
        exists|i: int| 0 <= i < self.row@.len() && #[trigger] self.row@[i] <= max_edits
    }

    /// The state after one more codepoint; `self` is left as it was.
    pub fn step(&self, value: char) -> (next: Self)
        requires
            self.wf(),
            self.consumed().len() < usize::MAX,
        ensures
            next.wf(),
            next.pattern() == self.pattern(),
            next.consumed() == self.consumed().push(value),
    {
        let ghost text = self.consumed@;
        let ghost after = text.push(value);
        let ghost pattern = self.m.chars@;
        proof {
            assert(pattern.take(0).len() == 0);
            assert(self.row@[0] == row(text, pattern, 0));
        }
        let mut add = self.row[0];
        let mut sub = add;
        let mut cells: Vec<usize> = Vec::new();
        let mut i: usize = 0;
        while i < self.row.len()
            invariant
                self.wf(),
                text == self.consumed@,
                after == text.push(value),
                pattern == self.m.chars@,
                text.len() < usize::MAX,
                i <= self.row@.len(),
                cells@.len() == i,
                forall|j: int| 0 <= j < i ==> #[trigger] cells@[j] == row(after, pattern, j),
                i == 0 ==> sub == text.len() && add == text.len(),
                i > 0 ==> sub == row(text, pattern, i - 1) && add == row(after, pattern, i - 1),
            decreases self.row@.len() - i,
        {
            let x = self.row[i];
            proof {
                assert(x == row(text, pattern, i as int));
                if i > 0 {
                    let c = pattern[i - 1];
                    assert(pattern.take(i as int) =~= pattern.take(i - 1).push(c));
                    lemma_distance_push(text, value, pattern.take(i - 1), c);
                    lemma_distance_bounds(text, pattern.take(i - 1));
                    lemma_distance_bounds(text, pattern.take(i as int));
                }
            }
            sub = if i != 0 && self.m.chars[i - 1] == value {
                sub
            } else {
                sub + 1
            };
            let least = if x < sub {
                x + 1
            } else {
                sub
            };
            add = if add < least {
                add + 1
            } else {
                least
            };
            sub = x;
            cells.push(add);
            i += 1;
        }
        LevenshteinAutomatonState { m: self.m, row: cells, consumed: Ghost(after) }
    }

    /// The distance between what was consumed and the whole pattern.
    pub fn distance(&self) -> (d: usize)
        requires
            self.wf(),
        ensures
            d == self.spec_distance(),
            d == edit_distance(self.consumed(), self.pattern()),
    {
        proof {
            assert(self.m.chars@.take(self.m.chars@.len() as int) =~= self.m.chars@);
        }
        self.row[self.row.len() - 1]
    }

    /// Whether what was consumed is within `max_edits` of some prefix of the
    /// pattern.
    pub fn can_match(&self, max_edits: usize) -> (b: bool)
        requires
            self.wf(),
        ensures
            b == self.spec_can_match(max_edits as int),
            b == prefix_within(self.consumed(), self.pattern(), max_edits as nat),
    {
        let mut least = self.row[0];
        let mut i: usize = 1;
        while i < self.row.len()
            invariant
                1 <= i <= self.row@.len(),
                exists|j: int| 0 <= j < i && self.row@[j] == least,
                forall|j: int| 0 <= j < i ==> least <= self.row@[j],
            decreases self.row@.len() - i,
        {
            if self.row[i] < least {
                least = self.row[i];
            }
            i += 1;
        }
        proof {
            self.lemma_can_match(max_edits as int);
            let j = choose|j: int| 0 <= j < self.row@.len() && self.row@[j] == least;
            assert(self.row@[j] <= max_edits ==> self.spec_can_match(max_edits as int));
        }
        least <= max_edits
    }

    /// The last entry of the row is the distance to the whole pattern.
    pub proof fn lemma_distance(&self)
        requires
            self.wf(),
        ensures
            self.spec_distance() == edit_distance(self.consumed(), self.pattern()),
    {
        assert(self.m.chars@.take(self.m.chars@.len() as int) =~= self.m.chars@);
    }

    /// Reading the row for a budget is asking for a near prefix of the
    /// pattern.
    pub proof fn lemma_can_match(&self, max_edits: int)
        requires
            self.wf(),
            0 <= max_edits,
        ensures
            self.spec_can_match(max_edits) == prefix_within(
                self.consumed(),
                self.pattern(),
                max_edits as nat,
            ),
    {
        let text = self.consumed@;
        let pattern = self.m.chars@;
        if self.spec_can_match(max_edits) {
            let i = choose|i: int| 0 <= i < self.row@.len() && #[trigger] self.row@[i] <= max_edits;
            assert(self.row@[i] == row(text, pattern, i));
            assert(edit_distance(text, pattern.take(i)) <= max_edits);
        }
        if prefix_within(text, pattern, max_edits as nat) {
            let i = choose|i: int|
                0 <= i <= pattern.len() && edit_distance(text, #[trigger] pattern.take(i))
                    <= max_edits;
            assert(self.row@[i] == row(text, pattern, i));
        }
    }
}

} // verus!
