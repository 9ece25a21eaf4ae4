//! A dictionary held as a prefix tree, searched by walking an automaton along
//! its edges and cutting every branch that the budget can no longer reach.

use crate::levenshtein::{AutomatonState, LevenshteinAutomaton};
use crate::metric::{
    edit_distance, lemma_distance_bounds, lemma_distance_zero, lemma_extension_bound,
};
use crate::query::{all_fit, among, listed, within};
use std::collections::HashMap;
use vstd::prelude::*;
use vstd::std_specs::iter::IteratorSpec;

verus! {

/// Whether `k` is the number of a codepoint: a Unicode scalar value.
pub open spec fn is_codepoint(k: u32) -> bool {
    k <= 0xD7FF || (0xE000 <= k && k <= 0x10FFFF)
}

/// `char::from_u32` gives the codepoint with the given number, and `None`
/// where the number is a surrogate or lies above `0x10FFFF`. Taken from the
/// documentation of std, not proved.
pub assume_specification[ char::from_u32 ](k: u32) -> (c: Option<char>)
    ensures
        is_codepoint(k) ==> c == Some(k as char),
        !is_codepoint(k) ==> c is None,
;

/// A string found, behind its distance from the query.
#[derive(Clone, Copy)]
struct FindResult<'a>(u32, &'a str);

/// A node of the prefix tree; the root stands for the whole dictionary.
pub struct Trie {
    // Indicates terminal and nice when traversing
    value: Option<String>,
    // Under the number of the codepoint on the edge
    children: HashMap<u32, Trie>,
}

impl View for Trie {
    type V = Set<Seq<char>>;

    /// The strings of the dictionary.
    closed spec fn view(&self) -> Set<Seq<char>> {
        Set::new(|s: Seq<char>| self.has_path(s))
    }
}

impl Trie {
    /// Whether the walk from this node along the codepoints of `path` ends at
    /// a terminal node.
    pub closed spec fn has_path(&self, path: Seq<char>) -> bool
        decreases path.len(),
    {
        if path.len() == 0 {
            self.value is Some
        } else {
            let k = path[0] as u32;
            self.children@.contains_key(k) && self.children@[k].has_path(path.drop_first())
        }
    }

    /// This node, reached from the root along `prefix`, and all below it are
    /// in order: a terminal node stores the string spelled by its path, every
    /// edge is labelled by a codepoint, and below the root no leaf is left
    /// without a string.
    pub closed spec fn wf_at(&self, prefix: Seq<char>) -> bool
        decreases self,
    {
        &&& prefix.len() <= u32::MAX
        &&& (self.value matches Some(s) ==> s@ == prefix)
        &&& (prefix.len() > 0 ==> self.value is Some || !self.children@.dom().is_empty())
        &&& forall|k: u32| #[trigger]
            self.children@.contains_key(k) ==> is_codepoint(k) && self.children@[k].wf_at(
                prefix.push(k as char),
            )
    }

    /// As `wf_at`, but for the rule on leaves at this very node: it may be
    /// a leaf without a string, as a node is while a string is being added
    /// below it.
    spec fn shape_at(&self, prefix: Seq<char>) -> bool {
        &&& prefix.len() <= u32::MAX
        &&& (self.value matches Some(s) ==> s@ == prefix)
        &&& forall|k: u32| #[trigger]
            self.children@.contains_key(k) ==> is_codepoint(k) && self.children@[k].wf_at(
                prefix.push(k as char),
            )
    }

    /// The whole tree is in order.
    pub open spec fn wf(&self) -> bool {
        self.wf_at(Seq::empty())
    }

    /// The dictionary of the given strings; the empty one where none are
    /// given.
    pub fn py_new(items: Option<Vec<String>>) -> (t: Self)
        requires
            items matches Some(v) ==> all_fit(v@),
        ensures
            t.wf(),
            forall|s: Seq<char>| t@.contains(s) <==> (items matches Some(v) && among(v@, s)),
    {
        match items {
            None => Self::new(),
            Some(v) => Self::from_iter(v),
        }
    }

    /// The dictionary of the given strings.
    pub fn from_iter(items: Vec<String>) -> (t: Self)
        requires
            all_fit(items@),
        ensures
            t.wf(),
            forall|s: Seq<char>| t@.contains(s) <==> among(items@, s),
    {
        let mut trie = Self::new();
        trie.extend(items);
        trie
    }

    /// Adds each of the given strings, in their order.
    pub fn extend(&mut self, items: Vec<String>)
        requires
            old(self).wf(),
            all_fit(items@),
        ensures
            final(self).wf(),
            forall|s: Seq<char>|
                final(self)@.contains(s) <==> (old(self)@.contains(s) || among(items@, s)),
    {
        let ghost all = items@;
        for item in it: items
            invariant
                it.seq() == all,
                all_fit(all),
                self.wf(),
                forall|s: Seq<char>|
                    self@.contains(s) <==> (old(self)@.contains(s) || among(
                        all.take(it.index()),
                        s,
                    )),
        {
            let ghost at = it.index();
            assert(item == all[at]);
            self.insert(item);
            proof {
                assert forall|s: Seq<char>| self@.contains(s) <==> (old(self)@.contains(s) || among(
                    all.take(at + 1),
                    s,
                )) by {
                    let shorter = all.take(at);
                    let longer = all.take(at + 1);
                    if among(shorter, s) {
                        let i = choose|i: int| 0 <= i < shorter.len() && shorter[i]@ == s;
                        assert(longer[i]@ == s);
                    }
                    if among(longer, s) {
                        let i = choose|i: int| 0 <= i < longer.len() && longer[i]@ == s;
                        if i < at {
                            assert(shorter[i]@ == s);
                        }
                    }
                    if s == all[at]@ {
                        assert(longer[at]@ == s);
                    }
                }
            }
        }
        assert(all.take(all.len() as int) =~= all);
    }

    /// The empty dictionary.
    pub fn new() -> (t: Self)
        ensures
            t.wf(),
            t@ == Set::<Seq<char>>::empty(),
    {
        let t = Self { value: None, children: HashMap::new() };
        assert(t@ =~= Set::<Seq<char>>::empty());
        t
    }

    /// `after` is `before` with the string spelled by `tail` added, both
    /// reached along `prefix`.
    spec fn grafted(before: Trie, after: Trie, tail: Seq<char>, prefix: Seq<char>) -> bool {
        &&& after.wf_at(prefix)
        &&& (after.value is Some || !after.children@.dom().is_empty())
        &&& forall|p: Seq<char>| after.has_path(p) <==> (before.has_path(p) || p == tail)
    }

    /// What holds below a node once a string was added under one of its
    /// children holds at the node.
    proof fn lemma_graft_up(
        parent: Trie,
        parent_final: Trie,
        before: Trie,
        after: Trie,
        c: char,
        prefix: Seq<char>,
        tail: Seq<char>,
    )
        requires
            parent.shape_at(prefix),
            tail.len() > 0,
            tail[0] == c,
            parent.children@.contains_key(c as u32) ==> before == parent.children@[c as u32],
            !parent.children@.contains_key(c as u32) ==> forall|p: Seq<char>| !before.has_path(p),
            parent_final.value == parent.value,
            parent_final.children@ == parent.children@.insert(c as u32, after),
            Self::grafted(before, after, tail.drop_first(), prefix.push(c)),
        ensures
            Self::grafted(parent, parent_final, tail, prefix),
    {
        let key = c as u32;
        let rest = tail.drop_first();
        vstd::utf8::char_u32_cast(c, key);
        vstd::utf8::char_is_scalar(c);
        assert(parent_final.children@.dom().contains(key));
        assert forall|p: Seq<char>| parent_final.has_path(p) <==> (parent.has_path(p) || p
            == tail) by {
            if p.len() > 0 {
                if p[0] as u32 == key {
                    vstd::utf8::char_u32_cast(p[0], key);
                    assert(p[0] == c);
                    assert(after.has_path(p.drop_first()) <==> (before.has_path(p.drop_first())
                        || p.drop_first() == rest));
                    assert(p =~= seq![p[0]] + p.drop_first());
                    assert(tail =~= seq![c] + rest);
                }
            } else {
                assert(p != tail);
            }
        }
        assert(prefix.push(key as char) == prefix.push(c));
    }

    /// Adds `value`: walks one edge for each of its codepoints, making the
    /// nodes that are not there yet, and leaves the string at the end of the
    /// walk.
    #[verifier::rlimit(50)]
    pub fn insert(&mut self, value: String)
        requires
            old(self).wf(),
            value@.len() <= u32::MAX,
        ensures
            final(self).wf(),
            final(self)@ == old(self)@.insert(value@),
    {
        let ghost whole = value@;
        let mut node = self;
        proof {
            assert(whole.take(0) =~= Seq::<char>::empty());
            assert(whole.skip(0) =~= whole);
        }
        for c in it: value.as_str().chars()
            invariant
                it.seq() == whole,
                whole.len() <= u32::MAX,
                node.shape_at(whole.take(it.index())),
                Self::grafted(*node, *final(node), whole.skip(it.index()), whole.take(it.index()))
                    ==> Self::grafted(*old(self), *final(self), whole, Seq::empty()),
        {
            let ghost depth = it.index();
            let ghost prefix = whole.take(depth);
            let ghost below = prefix.push(c);
            let ghost tail = whole.skip(depth);
            let ghost rest = whole.skip(depth + 1);
            let key = c as u32;
            proof {
                assert(below =~= whole.take(depth + 1));
                vstd::utf8::char_u32_cast(c, key);
                assert(tail.len() > 0 && tail[0] == c);
                assert(tail.drop_first() =~= rest);
            }
            let ghost parent = *node;
            let child = node.children.entry(key).or_insert(
                Self { value: None, children: HashMap::new() },
            );
            let ghost before = *child;
            proof {
                assert(child.shape_at(below));
                assert forall|pf: Trie, af: Trie|
                    #![trigger
                        Self::grafted(before, af, rest, below),
                        Self::grafted(parent, pf, tail, prefix)]
                    pf.value == parent.value && pf.children@ == parent.children@.insert(key, af)
                        && Self::grafted(before, af, rest, below) implies Self::grafted(
                    parent,
                    pf,
                    tail,
                    prefix,
                ) by {
                    Self::lemma_graft_up(parent, pf, before, af, c, prefix, tail);
                }
            }
            node = child;
        }
        proof {
            assert(whole.take(whole.len() as int) =~= whole);
            assert(whole.skip(whole.len() as int) =~= Seq::<char>::empty());
        }
        let ghost last = *node;
        node.value = Some(value);
        proof {
            assert forall|p: Seq<char>| node.has_path(p) <==> (last.has_path(p) || p
                == Seq::<char>::empty()) by {
                if p.len() == 0 {
                    assert(p =~= Seq::<char>::empty());
                }
            }
        }
    }

    /// The stored string equal to `value`, if there is one.
    pub fn get(&self, value: &str) -> (r: Option<&str>)
        requires
            self.wf(),
        ensures
            match r {
                Some(s) => s@ == value@ && self@.contains(value@),
                None => !self@.contains(value@),
            },
    {
        let mut node = self;
        assert(value@.take(0) =~= Seq::<char>::empty());
        assert(value@.skip(0) =~= value@);
        for c in it: value.chars()
            invariant
                it.seq() == value@,
                node.wf_at(value@.take(it.index())),
                self.has_path(value@) == node.has_path(value@.skip(it.index())),
        {
            proof {
                let tail = value@.skip(it.index());
                assert(tail.len() > 0 && tail[0] == c);
                assert(tail.drop_first() =~= value@.skip(it.index() + 1));
                assert(value@.take(it.index() + 1) =~= value@.take(it.index()).push(c));
                vstd::utf8::char_u32_cast(c, c as u32);
                vstd::utf8::char_is_scalar(c);
            }
            match node.children.get(&(c as u32)) {
                Some(child) => {
                    node = child;
                },
                None => {
                    return None;
                },
            }
        }
        proof {
            assert(value@.skip(value@.len() as int) =~= Seq::<char>::empty());
            assert(value@.take(value@.len() as int) =~= value@);
        }
        match &node.value {
            Some(s) => Some(s.as_str()),
            None => None,
        }
    }

    /// Whether `value` is in the dictionary.
    pub fn contains(&self, value: &str) -> (b: bool)
        requires
            self.wf(),
        ensures
            b == self@.contains(value@),
    {
        self.get(value).is_some()
    }

    /// The strings of the dictionary, each once, in no particular order.
    pub fn values(&self) -> (r: Vec<&str>)
        requires
            self.wf(),
        ensures
            forall|i: int| 0 <= i < r@.len() ==> self@.contains(#[trigger] r@[i]@),
            forall|s: Seq<char>| #[trigger] self@.contains(s) ==> listed(r@, 0, s),
            forall|i: int, j: int| 0 <= i < j < r@.len() ==> r@[i]@ != r@[j]@,
    {
        let mut out: Vec<&str> = Vec::new();
        self.iter(&mut out, Ghost(Seq::empty()));
        proof {
            let empty = Seq::<char>::empty();
            assert forall|i: int| 0 <= i < out@.len() implies self@.contains(
                #[trigger] out@[i]@,
            ) by {
                assert(self.holds(empty, out@[i]@));
                assert(out@[i]@.skip(0) =~= out@[i]@);
            }
            assert forall|s: Seq<char>| #[trigger] self@.contains(s) implies listed(out@, 0, s) by {
                assert(empty + s =~= s);
                assert(listed(out@, 0, empty + s));
            }
        }
        out
    }

    /// Appends to `out` the strings stored at and below this node, which is
    /// reached along `prefix`.
    #[verifier::rlimit(50)]
    fn iter<'a>(&'a self, out: &mut Vec<&'a str>, Ghost(prefix): Ghost<Seq<char>>)
        requires
            self.wf_at(prefix),
        ensures
            old(out)@.len() <= final(out)@.len(),
            forall|i: int| 0 <= i < old(out)@.len() ==> final(out)@[i] == old(out)@[i],
            forall|i: int|
                old(out)@.len() <= i < final(out)@.len() ==> self.holds(
                    prefix,
                    #[trigger] final(out)@[i]@,
                ),
            forall|t: Seq<char>| #[trigger]
                self.has_path(t) ==> listed(final(out)@, old(out)@.len() as int, prefix + t),
            forall|i: int, j: int|
                old(out)@.len() <= i < j < final(out)@.len() ==> final(out)@[i]@ != final(out)@[j]@,
        decreases self,
    {
        let ghost base = out@.len() as int;
        let ghost n = prefix.len() as int;
        if let Some(v) = &self.value {
            out.push(v.as_str());
            proof {
                assert(v@.skip(n) =~= Seq::<char>::empty());
                assert(v@.take(n) =~= prefix);
                assert(out@[base]@ == prefix);
            }
        }
        let ghost seq = vstd::std_specs::hash::spec_hash_map_iter(&self.children).remaining();
        // For each string listed so far, the place in `seq` of the child that
        // it came from; -1 for the string of this node itself.
        let ghost mut origin: Seq<int> = Seq::new((out@.len() - base) as nat, |i: int| -1int);
        for entry in it: self.children.iter()
            invariant
                it.seq() == seq,
                seq == vstd::std_specs::hash::spec_hash_map_iter(&self.children).remaining(),
                seq.no_duplicates(),
                self.wf_at(prefix),
                n == prefix.len(),
                base == old(out)@.len(),
                base <= out@.len(),
                origin.len() == out@.len() - base,
                forall|i: int| 0 <= i < base ==> out@[i] == old(out)@[i],
                forall|i: int| base <= i < out@.len() ==> self.holds(prefix, #[trigger] out@[i]@),
                forall|i: int|
                    base <= i < out@.len() ==> {
                        let from = #[trigger] origin[i - base];
                        if from == -1 {
                            out@[i]@ == prefix
                        } else {
                            &&& 0 <= from < it.index()
                            &&& out@[i]@.len() > n
                            &&& out@[i]@[n] as u32 == *seq[from].0
                        }
                    },
                self.value is Some ==> listed(out@, base, prefix),
                forall|j: int, t: Seq<char>|
                    0 <= j < it.index() && (#[trigger] seq[j]).1.has_path(t) ==> listed(
                        out@,
                        base,
                        #[trigger] (prefix.push(*seq[j].0 as char) + t),
                    ),
                forall|i: int, j: int| base <= i < j < out@.len() ==> out@[i]@ != out@[j]@,
        {
            let (next, subtrie) = entry;
            let ghost below = prefix.push(*next as char);
            let ghost before = out@;
            let ghost at = it.index();
            proof {
                assert(self.children@.contains_key(*next) && self.children@[*next] == *subtrie);
                assert(subtrie.wf_at(below));
            }
            subtrie.iter(out, Ghost(below));
            proof {
                origin = origin + Seq::new((out@.len() - before.len()) as nat, |i: int| at);
                assert forall|i: int| base <= i < out@.len() implies self.holds(
                    prefix,
                    #[trigger] out@[i]@,
                ) by {
                    if i >= before.len() {
                        let s = out@[i]@;
                        assert(subtrie.holds(below, s));
                        assert(below.len() == n + 1);
                        assert(s.take(n + 1) == below);
                        assert(s.take(n) =~= s.take(n + 1).take(n));
                        assert(below.take(n) =~= prefix);
                        assert(s.take(n + 1)[n] == s[n]);
                        let tail = s.skip(n);
                        vstd::utf8::char_u32_cast(tail[0], tail[0] as u32);
                        assert(tail.drop_first() =~= s.skip(n + 1));
                    } else {
                        assert(out@[i] == before[i]);
                    }
                }
                assert forall|i: int| base <= i < out@.len() implies ({
                    let from = #[trigger] origin[i - base];
                    if from == -1 {
                        out@[i]@ == prefix
                    } else {
                        &&& 0 <= from < at + 1
                        &&& out@[i]@.len() > n
                        &&& out@[i]@[n] as u32 == *seq[from].0
                    }
                }) by {
                    if i >= before.len() {
                        let s = out@[i]@;
                        assert(subtrie.holds(below, s));
                        assert(s.take(n + 1)[n] == s[n]);
                        vstd::utf8::char_is_scalar(s[n]);
                        assert(is_codepoint(*next));
                    } else {
                        assert(out@[i] == before[i]);
                    }
                }
                assert forall|j: int, t: Seq<char>|
                    0 <= j < at + 1 && (#[trigger] seq[j]).1.has_path(t) implies listed(
                    out@,
                    base,
                    #[trigger] (prefix.push(*seq[j].0 as char) + t),
                ) by {
                    let s = prefix.push(*seq[j].0 as char) + t;
                    if j < at {
                        assert(listed(before, base, s));
                        let i = choose|i: int| base <= i < before.len() && before[i]@ == s;
                        assert(out@[i] == before[i]);
                    } else {
                        assert(listed(out@, before.len() as int, below + t));
                    }
                }
                if self.value is Some {
                    let i = choose|i: int| base <= i < before.len() && before[i]@ == prefix;
                    assert(out@[i] == before[i]);
                }
                assert forall|i: int, j: int| base <= i < j < out@.len() implies out@[i]@
                    != out@[j]@ by {
                    if i < before.len() && j >= before.len() {
                        assert(out@[i] == before[i]);
                        assert(subtrie.holds(below, out@[j]@));
                        let from = origin[i - base];
                        let s = out@[j]@;
                        assert(s.take(n + 1)[n] == s[n]);
                        if from != -1 {
                            assert(seq[from] != seq[at]);
                            assert(self.children@[*seq[from].0] == *seq[from].1);
                        }
                    } else if j < before.len() {
                        assert(out@[i] == before[i]);
                        assert(out@[j] == before[j]);
                    }
                }
            }
        }
        proof {
            assert forall|t: Seq<char>| #[trigger] self.has_path(t) implies listed(
                out@,
                base,
                prefix + t,
            ) by {
                if t.len() == 0 {
                    assert(prefix + t =~= prefix);
                } else {
                    let k = t[0] as u32;
                    let child = self.children@[k];
                    vstd::utf8::char_u32_cast(t[0], k);
                    assert(seq.contains((&k, &child)));
                    let j = choose|j: int| 0 <= j < seq.len() && seq[j] == (&k, &child);
                    assert(seq[j].1.has_path(t.drop_first()));
                    assert(prefix.push(*seq[j].0 as char) + t.drop_first() =~= prefix + t);
                }
            }
        }
    }

    /// `s` is stored at or below this node, which is reached along `prefix`.
    spec fn holds(&self, prefix: Seq<char>, s: Seq<char>) -> bool {
        &&& prefix.len() <= s.len()
        &&& s.take(prefix.len() as int) == prefix
        &&& self.has_path(s.skip(prefix.len() as int))
    }

    /// No string at or below this node, which is reached along `prefix`, is
    /// nearer than `bound` to `query`.
    spec fn floor(&self, prefix: Seq<char>, query: Seq<char>, bound: nat) -> bool {
        forall|t: Seq<char>| #[trigger]
            self.has_path(t) ==> edit_distance(prefix + t, query) >= bound
    }

    /// The nearest string to `query` within `max_edits`, if the dictionary
    /// holds one. Where several are nearest, any of them may come back.
    pub fn find_one(&self, query: &str, max_edits: Option<usize>) -> (r: Option<&str>)
        requires
            self.wf(),
            query@.len() <= u32::MAX,
        ensures
            match r {
                Some(s) => {
                    &&& self@.contains(s@)
                    &&& within(edit_distance(s@, query@), max_edits)
                    &&& forall|t: Seq<char>| #[trigger]
                        self@.contains(t) ==> edit_distance(s@, query@) <= edit_distance(t, query@)
                },
                None => forall|t: Seq<char>| #[trigger]
                    self@.contains(t) ==> !within(edit_distance(t, query@), max_edits),
            },
            self@.contains(query@) ==> r is Some && r->0@ == query@,
    {
        let automaton = LevenshteinAutomaton::new(query);
        let budget: u32 = match max_edits {
            Some(k) => if k > u32::MAX as usize {
                u32::MAX
            } else {
                k as u32
            },
            None => u32::MAX,
        };
        let start = automaton.start();
        let found = self.find_automaton(&start, budget);
        proof {
            let empty = Seq::<char>::empty();
            assert forall|t: Seq<char>| empty + t == t by {
                assert(empty + t =~= t);
            }
            assert forall|t: Seq<char>| #[trigger] self@.contains(t) implies edit_distance(
                t,
                query@,
            ) <= u32::MAX by {
                self.lemma_depth(empty, t);
                lemma_distance_bounds(t, query@);
            }
            if let Some(hit) = found {
                assert(hit.1@.skip(0) =~= hit.1@);
            }
            if self@.contains(query@) {
                crate::metric::lemma_distance_self(query@);
                if let Some(hit) = found {
                    lemma_distance_zero(hit.1@, query@);
                }
            }
        }
        match found {
            Some(hit) => Some(hit.1),
            None => None,
        }
    }

    /// Strings stored below a node are no longer than the deepest path.
    proof fn lemma_depth(&self, prefix: Seq<char>, t: Seq<char>)
        requires
            self.wf_at(prefix),
            self.has_path(t),
        ensures
            prefix.len() + t.len() <= u32::MAX,
        decreases t.len(),
    {
        if t.len() > 0 {
            let k = t[0] as u32;
            vstd::utf8::char_u32_cast(t[0], k);
            self.children@[k].lemma_depth(prefix.push(t[0]), t.drop_first());
        }
    }

    /// The nearest string to the pattern of `state` at or below this node,
    /// within `max_edits`; `state` has consumed the path to this node.
    #[verifier::rlimit(50)]
    fn find_automaton<'a, S: AutomatonState>(&'a self, state: &S, max_edits: u32) -> (r: Option<
        FindResult<'a>,
    >)
        requires
            self.wf_at(state.consumed()),
            state.wf(),
        ensures
            match r {
                Some(found) => {
                    &&& found.0 <= max_edits
                    &&& found.0 == edit_distance(found.1@, state.pattern())
                    &&& self.holds(state.consumed(), found.1@)
                    &&& self.floor(state.consumed(), state.pattern(), found.0 as nat)
                },
                None => self.floor(state.consumed(), state.pattern(), max_edits as nat + 1),
            },
        decreases self,
    {
        let ghost prefix = state.consumed();
        let ghost query = state.pattern();
        let mut best: Option<FindResult<'a>> = None;
        if !state.can_match(max_edits) {
            proof {
                assert forall|t: Seq<char>| #[trigger] self.has_path(t) implies edit_distance(
                    prefix + t,
                    query,
                ) >= max_edits as nat + 1 by {
                    if edit_distance(prefix + t, query) <= max_edits {
                        lemma_extension_bound(prefix, t, query, max_edits as nat);
                    }
                }
            }
            return best;
        }
        let distance = state.distance();
        if distance <= max_edits {
            best =
            match &self.value {
                Some(k) => Some(FindResult(distance, k.as_str())),
                None => None,
            };
            proof {
                if let Some(k) = &self.value {
                    assert(k@.skip(prefix.len() as int) =~= Seq::<char>::empty());
                    assert(k@.take(prefix.len() as int) =~= prefix);
                }
            }
        }
        let ghost mut bound: nat = match best {
            Some(found) => found.0 as nat,
            None => max_edits as nat + 1,
        };
        let ghost seq = vstd::std_specs::hash::spec_hash_map_iter(&self.children).remaining();
        for entry in it: self.children.iter()
            invariant
                it.seq() == seq,
                seq == vstd::std_specs::hash::spec_hash_map_iter(&self.children).remaining(),
                self.wf_at(prefix),
                state.wf(),
                state.consumed() == prefix,
                state.pattern() == query,
                distance == edit_distance(prefix, query),
                bound == match best {
                    Some(found) => found.0 as nat,
                    None => max_edits as nat + 1,
                },
                best matches Some(found) ==> {
                    &&& found.0 <= max_edits
                    &&& found.0 == edit_distance(found.1@, query)
                    &&& self.holds(prefix, found.1@)
                },
                self.value is Some ==> distance >= bound,
                forall|j: int|
                    0 <= j < it.index() ==> (#[trigger] seq[j]).1.floor(
                        prefix.push(*seq[j].0 as char),
                        query,
                        bound,
                    ),
        {
            let (next, subtrie) = entry;
            let ghost below = prefix.push(*next as char);
            proof {
                assert(self.children@.contains_key(*next) && self.children@[*next] == *subtrie);
                assert(subtrie.wf_at(below));
            }
            let budget = match &best {
                Some(found) => {
                    if found.0 == 0 {
                        proof {
                            assert forall|t: Seq<char>| #[trigger]
                                self.has_path(t) implies edit_distance(prefix + t, query)
                                >= 0nat by {}
                        }
                        return best;
                    }
                    found.0 - 1
                },
                None => max_edits,
            };
            if let Some(c) = char::from_u32(*next) {
                let branch = state.step(c);
                // Method returns some iff best is none or distance is lower
                if let Some(result) = subtrie.find_automaton(&branch, budget) {
                    proof {
                        let s = result.1@;
                        let n = prefix.len() as int;
                        assert(s.take(n) =~= s.take(n + 1).take(n));
                        assert(s.take(n) =~= prefix);
                        let tail = s.skip(n);
                        assert(s.take(n + 1) == below);
                        assert(s.take(n + 1)[n] == s[n]);
                        assert(below[n] == *next as char);
                        assert(tail[0] == *next as char);
                        vstd::utf8::char_u32_cast(tail[0], tail[0] as u32);
                        assert(tail.drop_first() =~= s.skip(n + 1));
                        assert(self.has_path(tail));
                        bound = result.0 as nat;
                    }
                    best = Some(result);
                }
            }
        }
        proof {
            assert forall|t: Seq<char>| #[trigger] self.has_path(t) implies edit_distance(
                prefix + t,
                query,
            ) >= bound by {
                if t.len() == 0 {
                    assert(prefix + t =~= prefix);
                } else {
                    let k = t[0] as u32;
                    let child = self.children@[k];
                    vstd::utf8::char_u32_cast(t[0], k);
                    assert(seq.contains((&k, &child)));
                    let j = choose|j: int| 0 <= j < seq.len() && seq[j] == (&k, &child);
                    assert(seq[j].1.floor(prefix.push(*seq[j].0 as char), query, bound));
                    assert(child.has_path(t.drop_first()));
                    assert(prefix.push(t[0]) + t.drop_first() =~= prefix + t);
                }
            }
        }
        best
    }
}

} // verus!
