//! The distance kernel: an automaton that holds one row of the distance matrix
//! of a fixed pattern and takes the other string one codepoint at a time.
//!
//! Patterns of at most 64 codepoints are run on the bit-parallel update of
//! `myers`; longer ones on the plain row.

use crate::bits::{
    bit, lemma_bit_or, lemma_bit_single, lemma_ones_below_bound, lemma_ones_masked, low_mask,
    ones_below,
};
use crate::metric::{
    edit_distance, lemma_distance_bounds, lemma_distance_push, lemma_distance_self,
    lemma_distance_symmetric, prefix_within,
};
use crate::myers::{encodes, lemma_row_sum, lemma_start_encodes, lemma_step_encodes, marks, row};
use crate::rowmin::{lemma_cancel, lemma_trough_counted, lemma_trough_row, trough};
use vstd::prelude::*;
use vstd::std_specs::iter::IteratorSpec;
use vstd::string::StrSliceExecFns;

verus! {

/// What a search needs from an automaton state: feed it one codepoint, read
/// the distance so far, and ask whether a budget can still be met.
pub trait AutomatonState: Sized {
    /// The state is consistent with its pattern and with what it has consumed.
    spec fn wf(&self) -> bool;

    /// The fixed string that distances are measured to.
    spec fn pattern(&self) -> Seq<char>;

    /// The codepoints fed so far, in order.
    spec fn consumed(&self) -> Seq<char>;

    /// The state after one more codepoint. `self` is left as it was, so a
    /// search can branch from it.
    fn step(&self, value: char) -> (next: Self)
        requires
            self.wf(),
            self.consumed().len() < u32::MAX,
        ensures
            next.wf(),
            next.pattern() == self.pattern(),
            next.consumed() == self.consumed().push(value),
    ;

    /// The distance between what was consumed and the whole pattern.
    fn distance(&self) -> (d: u32)
        requires
            self.wf(),
        ensures
            d == edit_distance(self.consumed(), self.pattern()),
    ;

    /// Whether what was consumed is within `max_edits` of some prefix of the
    /// pattern. Where it is not, nothing that starts with the consumed
    /// codepoints is within `max_edits` of the pattern.
    fn can_match(&self, max_edits: u32) -> (b: bool)
        requires
            self.wf(),
        ensures
            b == prefix_within(self.consumed(), self.pattern(), max_edits as nat),
    ;
}

/// A pattern prepared for stepping.
pub struct LevenshteinAutomaton<'a> {
    string: &'a str,
    len: usize,
    mask: u64,
    chars: [char; 64],
}

/// The row, kept in full or packed into two words.
enum LevenshteinState {
    General(Vec<u32>),
    Bitvector { vp: u64, vn: u64, offset: u32 },
}

/// One row of the distance matrix of an automaton's pattern.
pub struct LevenshteinAutomatonState<'a> {
    m: &'a LevenshteinAutomaton<'a>,
    state: LevenshteinState,
    consumed: Ghost<Seq<char>>,
}

/// `str::eq` says whether two string slices hold the same codepoints in the
/// same order. Taken from the documentation of std, not proved.
#[verifier::external_body]
fn same_text(a: &str, b: &str) -> (r: bool)
    ensures
        r == (a@ == b@),
{
    a == b
}

impl<'a> LevenshteinAutomaton<'a> {
    /// The string that this automaton measures distances to.
    pub closed spec fn pattern(&self) -> Seq<char> {
        self.string@
    }

    /// The prepared parts agree with the pattern.
    pub closed spec fn wf(&self) -> bool {
        &&& self.len == self.string@.len()
        &&& self.len <= u32::MAX
        &&& self.mask == low_mask(self.len as nat)
        &&& forall|i: int| 0 <= i < 64 && i < self.len ==> self.chars@[i] == self.string@[i]
    }

    /// The automaton that measures distances to `string`.
    pub fn new(string: &'a str) -> (m: Self)
        requires
            string@.len() <= u32::MAX,
        ensures
            m.wf(),
            m.pattern() == string@,
    {
        let len = string.unicode_len();
        Self::new_assume_len(string, len)
    }

    /// As `new`, for a caller that has counted the codepoints already.
    fn new_assume_len(string: &'a str, len: usize) -> (m: Self)
        requires
            len == string@.len(),
            len <= u32::MAX,
        ensures
            m.wf(),
            m.pattern() == string@,
    {
        let mut chars = ['\0';64];
        let mut i: usize = 0;
        let mut rest = string.chars();
        while i < 64
            invariant
                i <= 64,
                i <= string@.len(),
                rest.remaining() == string@.skip(i as int),
                forall|j: int| 0 <= j < i ==> chars@[j] == string@[j],
            ensures
                i == 64 || i == string@.len(),
                forall|j: int| 0 <= j < i ==> chars@[j] == string@[j],
            decreases 64 - i,
        {
            match rest.next() {
                Some(c) => {
                    assert(string@.skip(i as int).drop_first() =~= string@.skip(i + 1));
                    chars[i] = c;
                    i += 1;
                },
                None => {
                    break ;
                },
            }
        }
        let mask = if len >= 64 {
            u64::MAX
        } else {
            let width = len as u64;
            assert((1u64 << width) >= 1) by (bit_vector)
                requires
                    width < 64,
            ;
            (1u64 << width) - 1
        };
        Self { string, len, mask, chars }
    }

    /// The state that has consumed nothing.
    pub fn start(&self) -> (s: LevenshteinAutomatonState<'_>)
        requires
            self.wf(),
        ensures
            s.wf(),
            s.pattern() == self.pattern(),
            s.consumed() == Seq::<char>::empty(),
    {
        let state = if self.len <= 64 {
            proof {
                lemma_start_encodes(self.string@);
            }
            LevenshteinState::Bitvector { vp: self.mask, vn: 0, offset: 0 }
        } else {
            let mut cells: Vec<u32> = Vec::new();
            let mut i: usize = 0;
            cells.push(0);
            while i < self.len
                invariant
                    self.len <= u32::MAX,
                    i <= self.len,
                    cells@.len() == i + 1,
                    forall|j: int| 0 <= j <= i ==> cells@[j] == j,
                decreases self.len - i,
            {
                i += 1;
                cells.push(i as u32);
            }
            assert forall|j: int| 0 <= j <= self.len implies #[trigger] cells@[j] == row(
                Seq::<char>::empty(),
                self.string@,
                j,
            ) by {}
            LevenshteinState::General(cells)
        };
        LevenshteinAutomatonState { m: self, state, consumed: Ghost(Seq::empty()) }
    }
}

impl<'a> LevenshteinAutomatonState<'a> {
    /// Whether the row is kept packed into two words.
    pub closed spec fn packed(&self) -> bool {
        self.state is Bitvector
    }

    /// The row is kept packed exactly where the pattern fits in a word of 64
    /// bits.
    pub proof fn lemma_packed(&self)
        requires
            self.wf(),
        ensures
            self.packed() == (self.pattern().len() <= 64),
    {
    }

    /// The distance as the state holds it: the last entry of the plain row,
    /// or the first entry of the packed row with all its steps up added and
    /// all its steps down taken off.
    pub closed spec fn spec_distance(&self) -> int {
        match self.state {
            LevenshteinState::General(v) => v@.last() as int,
            LevenshteinState::Bitvector { vp, vn, offset } => offset + ones_below(
                vp & self.m.mask,
                64,
            ) - ones_below(vn & self.m.mask, 64),
        }
    }

    /// Entry `i` of the row as the state holds it.
    pub closed spec fn spec_cell(&self, i: int) -> int {
        match self.state {
            LevenshteinState::General(v) => v@[i] as int,
            LevenshteinState::Bitvector { vp, vn, offset } => offset + ones_below(vp, i as nat)
                - ones_below(vn, i as nat),
        }
    }

    /// Whether some entry of the row, as the state holds it, is at most
    /// `max_edits`.
    pub closed spec fn spec_can_match(&self, max_edits: int) -> bool {
        exists|i: int| 0 <= i <= self.m.len && #[trigger] self.spec_cell(i) <= max_edits
    }

    /// What the state holds is the row of the distance matrix: its entries
    /// are the distances from what was consumed to the prefixes of the
    /// pattern, whichever way the row is kept.
    pub proof fn lemma_reading(&self, max_edits: int)
        requires
            self.wf(),
            0 <= max_edits,
        ensures
            self.spec_distance() == edit_distance(self.consumed(), self.pattern()),
            self.spec_can_match(max_edits) == prefix_within(
                self.consumed(),
                self.pattern(),
                max_edits as nat,
            ),
    {
        let text = self.consumed@;
        let pattern = self.m.string@;
        assert(pattern.take(pattern.len() as int) =~= pattern);
        assert forall|i: int| 0 <= i <= pattern.len() implies #[trigger] self.spec_cell(i) == row(
            text,
            pattern,
            i,
        ) by {
            match self.state {
                LevenshteinState::General(v) => {},
                LevenshteinState::Bitvector { vp, vn, offset } => {
                    lemma_row_sum(vp, vn, text, pattern, i as nat);
                },
            }
        }
        match self.state {
            LevenshteinState::General(v) => {},
            LevenshteinState::Bitvector { vp, vn, offset } => {
                lemma_ones_masked(vp, pattern.len());
                lemma_ones_masked(vn, pattern.len());
                assert(self.spec_cell(pattern.len() as int) == row(
                    text,
                    pattern,
                    pattern.len() as int,
                ));
            },
        }
        if self.spec_can_match(max_edits) {
            let i = choose|i: int|
                0 <= i <= self.m.len && #[trigger] self.spec_cell(i) <= max_edits;
            assert(edit_distance(text, pattern.take(i)) <= max_edits);
        }
        if prefix_within(text, pattern, max_edits as nat) {
            let i = choose|i: int|
                0 <= i <= pattern.len() && edit_distance(text, #[trigger] pattern.take(i))
                    <= max_edits;
            assert(self.spec_cell(i) == row(text, pattern, i));
        }
    }

    /// Feeds one codepoint, in place.
    #[verifier::rlimit(50)]
    pub fn step_mut(&mut self, value: char)
        requires
            old(self).wf(),
            old(self).consumed().len() < u32::MAX,
        ensures
            final(self).wf(),
            final(self).pattern() == old(self).pattern(),
            final(self).consumed() == old(self).consumed().push(value),
    {
        let m = self.m;
        let ghost text = self.consumed@;
        let ghost next = text.push(value);
        let ghost pattern = m.string@;
        match &mut self.state {
            LevenshteinState::General(v) => {
                let mut sub = v[0];
                let mut add = sub + 1;
                let mut del: u32;
                v[0] = add;
                let mut i: usize = 0;
                assert(pattern.take(0).len() == 0);
                for c in it: m.string.chars()
                    invariant
                        it.seq() == pattern,
                        i == it.index(),
                        pattern.len() <= u32::MAX,
                        text.len() < u32::MAX,
                        next == text.push(value),
                        v@.len() == pattern.len() + 1,
                        sub == row(text, pattern, i as int),
                        add == row(next, pattern, i as int),
                        forall|j: int| 0 <= j <= i ==> #[trigger] v@[j] == row(next, pattern, j),
                        forall|j: int|
                            i < j <= pattern.len() ==> #[trigger] v@[j] == row(text, pattern, j),
                {
                    proof {
                        assert(c == pattern[i as int]);
                        assert(pattern.take(i + 1) =~= pattern.take(i as int).push(c));
                        lemma_distance_push(text, value, pattern.take(i as int), c);
                        lemma_distance_bounds(text, pattern.take(i as int));
                    }
                    del = v[i + 1];
                    sub = if c == value {
                        sub
                    } else {
                        sub + 1
                    };
                    let least = if del < sub {
                        del + 1
                    } else {
                        sub
                    };
                    add = if add < least {
                        add + 1
                    } else {
                        least
                    };
                    sub = del;
                    v[i + 1] = add;
                    i += 1;
                }
            },
            LevenshteinState::Bitvector { vp, vn, offset } => {
                // Myers as described by Hyyro
                // Step 1: D0
                let mut pm: u64 = 0;
                let mut x: u64 = 1;
                let mut i: usize = 0;
                assert(1u64 << 0u64 == 1u64) by (bit_vector);
                assert forall|j: int| 0 <= j < 64 implies !#[trigger] bit(0, j) by {
                    lemma_bit_single(j, j);
                }
                while i < m.len
                    invariant
                        m.wf(),
                        m.len <= 64,
                        i <= m.len,
                        i < 64 ==> x == 1u64 << (i as u64),
                        forall|j: int|
                            0 <= j < 64 ==> #[trigger] bit(pm, j) == (j < i && m.chars@[j]
                                == value),
                    decreases m.len - i,
                {
                    let ghost before = pm;
                    if m.chars[i] == value {
                        pm |= x;
                        assert forall|j: int| 0 <= j < 64 implies #[trigger] bit(pm, j) == (bit(
                            before,
                            j,
                        ) || j == i) by {
                            lemma_bit_or(before, x, j);
                            lemma_bit_single(i as int, j);
                        }
                    }
                    proof {
                        let iu = i as u64;
                        assert(iu < 63 ==> (1u64 << iu) << 1 == 1u64 << ((iu + 1) as u64))
                            by (bit_vector);
                    }
                    x <<= 1;
                    i += 1;
                }
                proof {
                    assert(marks(pm, pattern, value));
                    lemma_step_encodes(pm, *vp, *vn, text, value, pattern);
                }
                let d0 = (((pm & *vp).wrapping_add(*vp)) ^ *vp) | pm | *vn;
                // Step 2-3: HP and HN
                let mut hp = *vn | !(d0 | *vp);
                let mut hn = d0 & *vp;
                // Step 6-7: VP and VN
                hp = (hp << 1) | 1;
                hn <<= 1;

                *vp = hn | !(d0 | hp);
                *vn = hp & d0;
                *offset += 1;
            },
        }
        self.consumed = Ghost(next);
    }
}

impl<'a> Clone for LevenshteinAutomatonState<'a> {
    /// A second state that has consumed the same codepoints.
    fn clone(&self) -> (r: Self)
        ensures
            r.wf() == self.wf(),
            r.pattern() == self.pattern(),
            r.consumed() == self.consumed(),
    {
        let state = match &self.state {
            LevenshteinState::General(v) => LevenshteinState::General(v.clone()),
            LevenshteinState::Bitvector { vp, vn, offset } => LevenshteinState::Bitvector {
                vp: *vp,
                vn: *vn,
                offset: *offset,
            },
        };
        LevenshteinAutomatonState { m: self.m, state, consumed: self.consumed }
    }
}

impl<'a> AutomatonState for LevenshteinAutomatonState<'a> {
    closed spec fn wf(&self) -> bool {
        &&& self.m.wf()
        &&& self.consumed@.len() <= u32::MAX
        &&& match self.state {
            LevenshteinState::General(v) => {
                &&& self.m.len > 64
                &&& v@.len() == self.m.len + 1
                &&& forall|i: int|
                    0 <= i <= self.m.len ==> #[trigger] v@[i] == row(
                        self.consumed@,
                        self.m.string@,
                        i,
                    )
            },
            LevenshteinState::Bitvector { vp, vn, offset } => {
                &&& self.m.len <= 64
                &&& offset == self.consumed@.len()
                &&& encodes(vp, vn, self.consumed@, self.m.string@)
            },
        }
    }

    closed spec fn pattern(&self) -> Seq<char> {
        self.m.string@
    }

    closed spec fn consumed(&self) -> Seq<char> {
        self.consumed@
    }

    fn step(&self, value: char) -> (next: Self) {
        let mut new = self.clone();
        new.step_mut(value);
        new
    }

    fn distance(&self) -> (d: u32)
        ensures
            d == self.spec_distance(),
    {
        proof {
            assert(self.m.string@.take(self.m.len as int) =~= self.m.string@);
            lemma_distance_bounds(self.consumed@, self.m.string@);
        }
        match &self.state {
            LevenshteinState::General(v) => v[v.len() - 1],
            LevenshteinState::Bitvector { vp, vn, offset } => {
                let up = (*vp & self.m.mask).count_ones();
                let down = (*vn & self.m.mask).count_ones();
                proof {
                    lemma_ones_masked(*vp, self.m.len as nat);
                    lemma_ones_masked(*vn, self.m.len as nat);
                    lemma_ones_below_bound(*vp, self.m.len as nat);
                    lemma_ones_below_bound(*vn, self.m.len as nat);
                    lemma_row_sum(*vp, *vn, self.consumed@, self.m.string@, self.m.len as nat);
                }
                ((*offset as u64 + up as u64) - down as u64) as u32
            },
        }
    }

    fn can_match(&self, max_edits: u32) -> (b: bool)
        ensures
            b == self.spec_can_match(max_edits as int),
    {
        let ghost text = self.consumed@;
        let ghost pattern = self.m.string@;
        proof {
            self.lemma_reading(max_edits as int);
        }
        match &self.state {
            LevenshteinState::General(v) => {
                let mut least = v[0];
                let mut i: usize = 1;
                while i < v.len()
                    invariant
                        1 <= i <= v@.len(),
                        exists|j: int| 0 <= j < i && v@[j] == least,
                        forall|j: int| 0 <= j < i ==> least <= v@[j],
                    decreases v@.len() - i,
                {
                    if v[i] < least {
                        least = v[i];
                    }
                    i += 1;
                }
                proof {
                    let j = choose|j: int| 0 <= j < v@.len() && v@[j] == least;
                    assert(v@[j] == row(text, pattern, j));
                    if prefix_within(text, pattern, max_edits as nat) {
                        let k = choose|k: int|
                            0 <= k <= pattern.len() && edit_distance(
                                text,
                                #[trigger] pattern.take(k),
                            ) <= max_edits;
                        assert(v@[k] == row(text, pattern, k));
                    }
                }
                least <= max_edits
            },
            LevenshteinState::Bitvector { vp, vn, offset } => {
                if *offset <= max_edits {
                    assert(pattern.take(0).len() == 0);
                    return true;
                }
                let mut vpi = *vp & self.m.mask;
                let mut nvni = !(*vn & self.m.mask);
                proof {
                    lemma_trough_row(*vp, *vn, text, pattern, max_edits as nat);
                }
                let ghost lowest = trough(vpi, nvni, 64);
                while vpi != 0 && !nvni != 0
                    invariant
                        vpi & !nvni == 0,
                        trough(vpi, nvni, 64) == lowest,
                    decreases vpi,
                {
                    // The minimum is preserved in this operation
                    // Earlier positive steps cancel out later negative ones
                    proof {
                        lemma_cancel(vpi, nvni);
                    }
                    let x = nvni.wrapping_add(vpi);
                    vpi &= x;
                    nvni |= x;
                }
                proof {
                    lemma_trough_counted(vpi, nvni, 64);
                }
                *offset - nvni.count_zeros() <= max_edits
            },
        }
    }
}

/// The packed automaton and the plain one agree: two states that have
/// consumed the same codepoints over the same pattern hold the same distance
/// and give the same answer to every budget. For patterns of at most 64
/// codepoints the first is the bit-parallel state.
pub proof fn lemma_automata_agree(
    packed: LevenshteinAutomatonState,
    plain: crate::automaton::LevenshteinAutomatonState,
    max_edits: u32,
)
    requires
        packed.wf(),
        plain.wf(),
        packed.pattern() == plain.pattern(),
        packed.consumed() == plain.consumed(),
    ensures
        packed.spec_distance() == plain.spec_distance(),
        packed.spec_can_match(max_edits as int) == plain.spec_can_match(max_edits as int),
{
    packed.lemma_reading(max_edits as int);
    plain.lemma_distance();
    plain.lemma_can_match(max_edits as int);
}

/// Find the Levenshtein distance between two strings
pub fn levenshtein(a: &str, b: &str) -> (d: u32)
    requires
        a@.len() <= u32::MAX,
        b@.len() <= u32::MAX,
    ensures
        d == edit_distance(a@, b@),
{
    if same_text(a, b) {
        proof {
            lemma_distance_self(a@);
        }
        return 0;
    }
    let len_a = a.unicode_len();
    let len_b = b.unicode_len();

    let (pattern, len_pattern, text) = if (len_a < len_b || len_a > 64) && len_b <= 64 {
        (b, len_b, a)
    } else {
        (a, len_a, b)
    };
    proof {
        lemma_distance_symmetric(a@, b@);
    }
    let automaton = LevenshteinAutomaton::new_assume_len(pattern, len_pattern);
    let mut state = automaton.start();
    for value in it: text.chars()
        invariant
            it.seq() == text@,
            text@.len() <= u32::MAX,
            state.wf(),
            state.pattern() == pattern@,
            state.consumed() == text@.take(it.index()),
    {
        state.step_mut(value);
        assert(text@.take(it.index() + 1) =~= text@.take(it.index()).push(value));
    }
    assert(text@.take(text@.len() as int) =~= text@);
    state.distance()
}

} // verus!
