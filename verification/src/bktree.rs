//! A dictionary held as a Burkhard-Keller tree: every child hangs under the
//! distance between its strings and the string of its parent, and a search
//! leaves out the children that the triangle inequality rules out.

use crate::levenshtein::levenshtein;
use crate::metric::{
    edit_distance, lemma_distance_bounds, lemma_distance_self, lemma_distance_symmetric,
    lemma_distance_triangle, lemma_distance_zero,
};
use crate::query::{all_fit, among, listed, within};
use std::collections::hash_map::Entry;
use std::collections::{HashMap, VecDeque};
use vstd::prelude::*;
use vstd::std_specs::hash::spec_hash_map_iter;
use vstd::std_specs::iter::IteratorSpec;

verus! {

/// A node with all that hangs below it.
struct Tree {
    value: String,
    children: HashMap<u32, Tree>,
}

/// A dictionary of strings, searched by distance.
pub struct BKTreeLevenshtein {
    tree: Option<Tree>,
}

/// Whether `s` is stored under one of the nodes of `queue`.
spec fn waiting(queue: Seq<&Tree>, s: Seq<char>) -> bool {
    exists|i: int| 0 <= i < queue.len() && (#[trigger] queue[i]).member(s)
}

/// The strings stored under the nodes of `queue`.
spec fn pending(queue: Seq<&Tree>) -> Set<Seq<char>> {
    Set::new(|s: Seq<char>| waiting(queue, s))
}

/// No string is stored under two nodes of `queue`.
spec fn apart(queue: Seq<&Tree>) -> bool {
    forall|i: int, j: int, s: Seq<char>|
        #![trigger queue[i].member(s), queue[j].member(s)]
        0 <= i < j < queue.len() && queue[i].member(s) ==> !queue[j].member(s)
}

/// Whether a search for `query` that looks at one of the nodes of `queue`
/// comes upon a string within `k`.
spec fn reach_waiting(queue: Seq<&Tree>, query: Seq<char>, k: nat) -> bool {
    exists|i: int| 0 <= i < queue.len() && (#[trigger] queue[i]).reaches(query, k)
}

/// Whether a child under `key` may hold a string nearer than `limit` to a
/// query that is at distance `d` from the string of the parent: by the
/// triangle inequality, every string under the child is at least as far from
/// the query as `key` is from `d`.
spec fn in_band(key: int, d: int, limit: int) -> bool {
    d - limit < key && key < d + limit
}

/// Whether `j` is one of `origin`.
spec fn kept(origin: Seq<int>, j: int) -> bool {
    exists|m: int| 0 <= m < origin.len() && origin[m] == j
}

/// A tree of strings as a mathematical value: the string of a node, and
/// under each key the tree of the child that hangs there.
pub struct Shape {
    pub value: Seq<char>,
    pub children: Map<u32, Shape>,
}

impl Shape {
    /// The tree of a single string.
    pub open spec fn leaf(value: Seq<char>) -> Shape {
        Shape { value, children: Map::empty() }
    }

    /// Whether `s` is the string of this node or of a node below it.
    pub open spec fn member(self, s: Seq<char>) -> bool
        decreases self,
    {
        ||| self.value == s
        ||| exists|k: u32| #[trigger] self.children.contains_key(k) && self.children[k].member(s)
    }

    /// The tree after `s` was added: `s` goes down from the root, at every
    /// node to the child under its distance from the string of the node,
    /// until that distance is zero or no child hangs there; there it becomes
    /// a leaf.
    pub open spec fn grown(self, s: Seq<char>) -> Shape
        decreases self,
    {
        let d = edit_distance(s, self.value) as u32;
        if d == 0 {
            self
        } else if self.children.contains_key(d) {
            Shape {
                value: self.value,
                children: self.children.insert(d, self.children[d].grown(s)),
            }
        } else {
            Shape { value: self.value, children: self.children.insert(d, Shape::leaf(s)) }
        }
    }

    /// Whether a search for `query` with budget `k` that looks at this node
    /// comes upon a string within `k`, here or further down. Below a node
    /// the search looks only at the children whose key differs by less than
    /// `k` from the distance between `query` and the string of the node.
    pub open spec fn reaches(self, query: Seq<char>, k: nat) -> bool
        decreases self,
    {
        let d = edit_distance(self.value, query);
        ||| d <= k
        ||| exists|key: u32| #[trigger]
            self.children.contains_key(key) && d - k < key < d + k && self.children[key].reaches(
                query,
                k,
            )
    }
}

/// The tree that holds `s` alone where there was none, and the tree grown by
/// `s` where there was one.
pub open spec fn planted(from: Option<Shape>, s: Seq<char>) -> Option<Shape> {
    match from {
        Some(shape) => Some(shape.grown(s)),
        None => Some(Shape::leaf(s)),
    }
}

/// The tree after `items` were added one after another.
pub open spec fn built(from: Option<Shape>, items: Seq<String>) -> Option<Shape>
    decreases items.len(),
{
    if items.len() == 0 {
        from
    } else {
        planted(built(from, items.drop_last()), items.last()@)
    }
}

impl Tree {
    /// This tree as a mathematical value.
    spec fn shape(&self) -> Shape
        decreases self,
    {
        Shape {
            value: self.value@,
            children: Map::new(
                |k: u32| self.children@.contains_key(k),
                |k: u32|
                    if self.children@.contains_key(k) {
                        self.children@[k].shape()
                    } else {
                        Shape::leaf(Seq::empty())
                    },
            ),
        }
    }

    /// Membership read off the shape.
    proof fn lemma_shape_member(&self, s: Seq<char>)
        ensures
            self.member(s) == self.shape().member(s),
        decreases self,
    {
        let shape = self.shape();
        if self.member(s) && self.value@ != s {
            let k = choose|k: u32| #[trigger]
                self.children@.contains_key(k) && self.children@[k].member(s);
            self.children@[k].lemma_shape_member(s);
            assert(shape.children.contains_key(k) && shape.children[k].member(s));
        }
        if shape.member(s) && shape.value != s {
            let k = choose|k: u32| #[trigger]
                shape.children.contains_key(k) && shape.children[k].member(s);
            self.children@[k].lemma_shape_member(s);
            assert(self.children@.contains_key(k) && self.children@[k].member(s));
        }
    }

    /// Reach read off the shape.
    proof fn lemma_shape_reaches(&self, query: Seq<char>, k: nat)
        ensures
            self.reaches(query, k) == self.shape().reaches(query, k),
        decreases self,
    {
        let shape = self.shape();
        let d = edit_distance(self.value@, query);
        if self.reaches(query, k) && d > k {
            let key = choose|key: u32| #[trigger]
                self.children@.contains_key(key) && in_band(key as int, d as int, k as int)
                    && self.children@[key].reaches(query, k);
            self.children@[key].lemma_shape_reaches(query, k);
            assert(shape.children.contains_key(key) && shape.children[key].reaches(query, k));
        }
        if shape.reaches(query, k) && d > k {
            let key = choose|key: u32| #[trigger]
                shape.children.contains_key(key) && d - k < key < d + k
                    && shape.children[key].reaches(query, k);
            self.children@[key].lemma_shape_reaches(query, k);
            assert(self.children@.contains_key(key) && self.children@[key].reaches(query, k));
        }
    }

    /// Whether a search for `query` with budget `k` that looks at this node
    /// comes upon a string within `k`, here or further down.
    spec fn reaches(&self, query: Seq<char>, k: nat) -> bool
        decreases self,
    {
        let d = edit_distance(self.value@, query);
        ||| d <= k
        ||| exists|key: u32| #[trigger]
            self.children@.contains_key(key) && in_band(key as int, d as int, k as int)
                && self.children@[key].reaches(query, k)
    }

    /// Whether `s` is the string of this node or of a node below it.
    pub closed spec fn member(&self, s: Seq<char>) -> bool
        decreases self,
    {
        ||| self.value@ == s
        ||| exists|k: u32| #[trigger]
            self.children@.contains_key(k) && self.children@[k].member(s)
    }

    /// Every string under the child at key `k` is at distance `k` from the
    /// string of this node, no key is zero, and no string is too long for
    /// its distances to fit in 32 bits; the same holds of every child.
    pub closed spec fn wf(&self) -> bool
        decreases self,
    {
        &&& self.value@.len() <= u32::MAX
        &&& forall|k: u32| #[trigger]
            self.children@.contains_key(k) ==> {
                &&& k != 0
                &&& self.children@[k].wf()
                &&& forall|s: Seq<char>| #[trigger]
                    self.children@[k].member(s) ==> edit_distance(s, self.value@) == k
            }
    }

    /// The strings of this node and of the nodes below it.
    spec fn members(&self) -> Set<Seq<char>> {
        Set::new(|s: Seq<char>| self.member(s))
    }

    /// The strings below the children under the keys `ks`.
    spec fn below(&self, ks: Set<u32>) -> Set<Seq<char>> {
        Set::new(
            |s: Seq<char>|
                exists|k: u32|
                    ks.contains(k) && #[trigger] self.children@.contains_key(k)
                        && self.children@[k].member(s),
        )
    }

    /// A tree holds finitely many strings.
    proof fn lemma_members_finite(&self)
        ensures
            self.members().finite(),
        decreases self, 1nat, 0nat,
    {
        self.lemma_below_finite(self.children@.dom());
        assert(self.members() =~= self.below(self.children@.dom()).insert(self.value@));
    }

    /// Finitely many children hold finitely many strings.
    proof fn lemma_below_finite(&self, ks: Set<u32>)
        requires
            ks.finite(),
        ensures
            self.below(ks).finite(),
        decreases self, 0nat, ks.len(),
    {
        if ks.is_empty() {
            assert(self.below(ks) =~= Set::<Seq<char>>::empty());
        } else {
            let k = ks.choose();
            let rest = ks.remove(k);
            self.lemma_below_finite(rest);
            if self.children@.contains_key(k) {
                self.children@[k].lemma_members_finite();
                assert(self.below(ks) =~= self.below(rest).union(self.children@[k].members()));
            } else {
                assert(self.below(ks) =~= self.below(rest));
            }
        }
    }

    /// No string of a well-formed tree is too long.
    proof fn lemma_member_fits(&self, s: Seq<char>)
        requires
            self.wf(),
            self.member(s),
        ensures
            s.len() <= u32::MAX,
        decreases self,
    {
        if self.value@ != s {
            let k = choose|k: u32| #[trigger]
                self.children@.contains_key(k) && self.children@[k].member(s);
            self.children@[k].lemma_member_fits(s);
        }
    }

    /// A string that is nearer than `k` to the query is never cut off: the
    /// keys on the way down to it all lie within the band.
    proof fn lemma_reaches(&self, query: Seq<char>, k: nat, t: Seq<char>)
        requires
            self.wf(),
            self.member(t),
            edit_distance(t, query) < k,
        ensures
            self.reaches(query, k),
        decreases self,
    {
        let d = edit_distance(self.value@, query);
        if t != self.value@ && d > k {
            let key = choose|key: u32| #[trigger]
                self.children@.contains_key(key) && self.children@[key].member(t);
            lemma_distance_triangle(self.value@, t, query);
            lemma_distance_triangle(t, query, self.value@);
            lemma_distance_symmetric(self.value@, t);
            lemma_distance_symmetric(self.value@, query);
            self.children@[key].lemma_reaches(query, k, t);
        }
    }

    /// What a search comes upon is a string of the tree within the budget.
    proof fn lemma_reached(&self, query: Seq<char>, k: nat) -> (t: Seq<char>)
        requires
            self.reaches(query, k),
        ensures
            self.member(t),
            edit_distance(t, query) <= k,
        decreases self,
    {
        let d = edit_distance(self.value@, query);
        if d <= k {
            self.value@
        } else {
            let key = choose|key: u32| #[trigger]
                self.children@.contains_key(key) && in_band(key as int, d as int, k as int)
                    && self.children@[key].reaches(query, k);
            self.children@[key].lemma_reached(query, k)
        }
    }

    /// The tree of a single string.
    fn new(value: String) -> (t: Self)
        requires
            value@.len() <= u32::MAX,
        ensures
            t.wf(),
            t.value == value,
            t.shape() == Shape::leaf(value@),
            forall|s: Seq<char>| t.member(s) <==> s == value@,
    {
        let t = Self { value: value, children: HashMap::new() };
        assert(t.shape().children =~= Map::<u32, Shape>::empty());
        t
    }

    /// Adds `value` at or below this node, unless it is there already.
    fn insert(&mut self, value: String)
        requires
            old(self).wf(),
            value@.len() <= u32::MAX,
        ensures
            final(self).wf(),
            final(self).value == old(self).value,
            final(self).shape() == old(self).shape().grown(value@),
            forall|s: Seq<char>| final(self).member(s) <==> (old(self).member(s) || s == value@),
        decreases *old(self),
    {
        let distance = levenshtein(value.as_str(), self.value.as_str());
        if distance == 0 {
            proof {
                lemma_distance_zero(value@, self.value@);
            }
            return ;
        }
        let ghost added = value@;
        let ghost before = self.children@;
        match self.children.entry(distance) {
            Entry::Occupied(mut entry) => entry.get_mut().insert(value),
            Entry::Vacant(entry) => {
                entry.insert(Self::new(value));
            },
        };
        proof {
            let after = self.children@[distance];
            assert(self.children@ == before.insert(distance, after));
            assert(self.shape().children =~= old(self).shape().children.insert(
                distance,
                after.shape(),
            ));
            assert forall|s: Seq<char>| after.member(s) <==> (s == added || (before.contains_key(
                distance,
            ) && before[distance].member(s))) by {}
            assert forall|s: Seq<char>| self.member(s) <==> (old(self).member(s) || s
                == added) by {
                if self.member(s) && self.value@ != s {
                    let k = choose|k: u32| #[trigger]
                        self.children@.contains_key(k) && self.children@[k].member(s);
                    if s != added {
                        assert(before.contains_key(k) && before[k].member(s));
                    }
                }
                if old(self).member(s) && self.value@ != s {
                    let k = choose|k: u32| #[trigger]
                        before.contains_key(k) && before[k].member(s);
                    assert(self.children@.contains_key(k) && self.children@[k].member(s));
                }
                if s == added {
                    assert(self.children@.contains_key(distance) && self.children@[distance].member(
                        s,
                    ));
                }
            }
        }
    }

    /// Appends to `out` the strings of this node and of the nodes below it.
    #[verifier::rlimit(50)]
    pub fn iter<'a>(&'a self, out: &mut Vec<&'a str>)
        requires
            self.wf(),
        ensures
            old(out)@.len() <= final(out)@.len(),
            forall|i: int| 0 <= i < old(out)@.len() ==> final(out)@[i] == old(out)@[i],
            forall|i: int|
                old(out)@.len() <= i < final(out)@.len() ==> self.member(
                    #[trigger] final(out)@[i]@,
                ),
            forall|s: Seq<char>| #[trigger]
                self.member(s) ==> listed(final(out)@, old(out)@.len() as int, s),
            forall|i: int, j: int|
                old(out)@.len() <= i < j < final(out)@.len() ==> final(out)@[i]@ != final(out)@[j]@,
        decreases self,
    {
        let ghost base = out@.len() as int;
        out.push(self.value.as_str());
        proof {
            assert(out@[base]@ == self.value@);
        }
        let ghost seq = spec_hash_map_iter(&self.children).remaining();
        // For each string listed so far, the place in `seq` of the child that
        // it came from; -1 for the string of this node itself.
        let ghost mut origin: Seq<int> = seq![-1int];
        for entry in it: self.children.iter()
            invariant
                it.seq() == seq,
                seq == spec_hash_map_iter(&self.children).remaining(),
                seq.no_duplicates(),
                self.wf(),
                base == old(out)@.len(),
                base < out@.len(),
                origin.len() == out@.len() - base,
                forall|i: int| 0 <= i < base ==> out@[i] == old(out)@[i],
                forall|i: int| base <= i < out@.len() ==> self.member(#[trigger] out@[i]@),
                forall|i: int|
                    base <= i < out@.len() ==> {
                        let from = #[trigger] origin[i - base];
                        if from == -1 {
                            out@[i]@ == self.value@
                        } else {
                            &&& 0 <= from < it.index()
                            &&& edit_distance(out@[i]@, self.value@) == *seq[from].0
                        }
                    },
                listed(out@, base, self.value@),
                forall|j: int, s: Seq<char>|
                    0 <= j < it.index() && #[trigger] seq[j].1.member(s) ==> listed(out@, base, s),
                forall|i: int, j: int| base <= i < j < out@.len() ==> out@[i]@ != out@[j]@,
        {
            let (key, child) = entry;
            let ghost before = out@;
            let ghost at = it.index();
            proof {
                assert(self.children@.contains_key(*key) && self.children@[*key] == *child);
            }
            child.iter(out);
            proof {
                origin = origin + Seq::new((out@.len() - before.len()) as nat, |i: int| at);
                assert forall|i: int| base <= i < out@.len() implies self.member(
                    #[trigger] out@[i]@,
                ) by {
                    if i < before.len() {
                        assert(out@[i] == before[i]);
                    } else {
                        assert(child.member(out@[i]@));
                    }
                }
                assert forall|i: int| base <= i < out@.len() implies ({
                    let from = #[trigger] origin[i - base];
                    if from == -1 {
                        out@[i]@ == self.value@
                    } else {
                        &&& 0 <= from < at + 1
                        &&& edit_distance(out@[i]@, self.value@) == *seq[from].0
                    }
                }) by {
                    if i < before.len() {
                        assert(out@[i] == before[i]);
                    } else {
                        assert(child.member(out@[i]@));
                    }
                }
                assert forall|j: int, s: Seq<char>|
                    0 <= j < at + 1 && #[trigger] seq[j].1.member(s) implies listed(
                    out@,
                    base,
                    s,
                ) by {
                    if j < at {
                        assert(listed(before, base, s));
                        let i = choose|i: int| base <= i < before.len() && before[i]@ == s;
                        assert(out@[i] == before[i]);
                    } else {
                        assert(listed(out@, before.len() as int, s));
                    }
                }
                let own = choose|i: int| base <= i < before.len() && before[i]@ == self.value@;
                assert(out@[own] == before[own]);
                assert forall|i: int, j: int| base <= i < j < out@.len() implies out@[i]@
                    != out@[j]@ by {
                    if i < before.len() && j >= before.len() {
                        assert(out@[i] == before[i]);
                        assert(child.member(out@[j]@));
                        lemma_distance_self(self.value@);
                        let from = origin[i - base];
                        if from != -1 {
                            assert(seq[from] != seq[at]);
                            assert(self.children@[*seq[from].0] == *seq[from].1);
                        }
                    } else if j < before.len() {
                        assert(out@[i] == before[i]);
                        assert(out@[j] == before[j]);
                    }
                }
            }
        }
        proof {
            assert forall|s: Seq<char>| #[trigger] self.member(s) implies listed(out@, base, s) by {
                if s != self.value@ {
                    let k = choose|k: u32| #[trigger]
                        self.children@.contains_key(k) && self.children@[k].member(s);
                    let child = self.children@[k];
                    assert(seq.contains((&k, &child)));
                    let j = choose|j: int| 0 <= j < seq.len() && seq[j] == (&k, &child);
                    assert(seq[j].1.member(s));
                }
            }
        }
    }
}

impl View for BKTreeLevenshtein {
    type V = Set<Seq<char>>;

    /// The strings of the dictionary.
    closed spec fn view(&self) -> Set<Seq<char>> {
        match self.tree {
            Some(t) => t.members(),
            None => Set::empty(),
        }
    }
}

impl BKTreeLevenshtein {
    /// The tree keeps its distances: every string below a child stands at
    /// the distance of that child's key from the string of the parent.
    pub closed spec fn wf(&self) -> bool {
        self.tree matches Some(t) ==> t.wf()
    }

    /// The tree of the dictionary as a mathematical value; `None` while the
    /// dictionary is empty.
    pub closed spec fn shape(&self) -> Option<Shape> {
        match self.tree {
            Some(t) => Some(t.shape()),
            None => None,
        }
    }

    /// The strings of the dictionary are the strings of its tree.
    pub proof fn lemma_shape_holds(&self, s: Seq<char>)
        ensures
            self@.contains(s) <==> (self.shape() matches Some(shape) && shape.member(s)),
    {
        if let Some(t) = self.tree {
            t.lemma_shape_member(s);
        }
    }

    /// The dictionary of the given strings; the empty one where none are
    /// given.
    pub fn py_new(items: Option<Vec<String>>) -> (t: Self)
        requires
            items matches Some(v) ==> all_fit(v@),
        ensures
            t.wf(),
            forall|s: Seq<char>| t@.contains(s) <==> (items matches Some(v) && among(v@, s)),
            t.shape() == match items {
                Some(v) => built(None, v@),
                None => None,
            },
    {
        match items {
            None => Self::new(),
            Some(v) => Self::from_iter(v),
        }
    }

    /// The empty dictionary.
    pub fn new() -> (t: Self)
        ensures
            t.wf(),
            t@ == Set::<Seq<char>>::empty(),
            t.shape() is None,
    {
        Self { tree: None }
    }

    /// Adds `value`; a string that the dictionary already holds is left
    /// alone.
    pub fn insert(&mut self, value: String)
        requires
            old(self).wf(),
            value@.len() <= u32::MAX,
        ensures
            final(self).wf(),
            final(self)@ == old(self)@.insert(value@),
            final(self).shape() == planted(old(self).shape(), value@),
    {
        match &mut self.tree {
            Some(t) => t.insert(value),
            None => {
                self.tree = Some(Tree::new(value));
            },
        }
        assert(self@ =~= old(self)@.insert(value@));
    }

    /// The stored string equal to `value`, if there is one.
    pub fn get(&self, value: &str) -> (r: Option<&str>)
        requires
            self.wf(),
            value@.len() <= u32::MAX,
        ensures
            match r {
                Some(s) => s@ == value@ && self@.contains(value@),
                None => !self@.contains(value@),
            },
    {
        let mut node = match &self.tree {
            Some(t) => t,
            None => {
                return None;
            },
        };
        let ghost root = self.tree->0;
        loop
            invariant
                value@.len() <= u32::MAX,
                self.tree == Some(root),
                node.wf(),
                root.member(value@) == node.member(value@),
            ensures
                node.value@ == value@,
                root.member(value@),
            decreases node,
        {
            let distance = levenshtein(value, node.value.as_str());
            if distance == 0 {
                proof {
                    lemma_distance_zero(value@, node.value@);
                }
                break ;
            }
            proof {
                lemma_distance_self(value@);
                if node.member(value@) {
                    let k = choose|k: u32| #[trigger]
                        node.children@.contains_key(k) && node.children@[k].member(value@);
                    assert(k == distance);
                }
            }
            match node.children.get(&distance) {
                Some(child) => {
                    assert(node.children@.contains_key(distance));
                    node = child;
                },
                None => {
                    return None;
                },
            }
        }
        Some(node.value.as_str())
    }

    /// Whether `value` is in the dictionary.
    pub fn contains(&self, value: &str) -> (b: bool)
        requires
            self.wf(),
            value@.len() <= u32::MAX,
        ensures
            b == self@.contains(value@),
    {
        self.get(value).is_some()
    }

    /// The strings of the dictionary, each once, in no particular order.
    pub fn values(&self) -> (r: Vec<&str>)
        requires
            self.wf(),
        ensures
            forall|i: int| 0 <= i < r@.len() ==> self@.contains(#[trigger] r@[i]@),
            forall|s: Seq<char>| #[trigger] self@.contains(s) ==> listed(r@, 0, s),
            forall|i: int, j: int| 0 <= i < j < r@.len() ==> r@[i]@ != r@[j]@,
    {
        self.iter()
    }

    /// The strings of the dictionary, each once, in no particular order.
    pub fn iter(&self) -> (r: Vec<&str>)
        requires
            self.wf(),
        ensures
            forall|i: int| 0 <= i < r@.len() ==> self@.contains(#[trigger] r@[i]@),
            forall|s: Seq<char>| #[trigger] self@.contains(s) ==> listed(r@, 0, s),
            forall|i: int, j: int| 0 <= i < j < r@.len() ==> r@[i]@ != r@[j]@,
    {
        let mut out: Vec<&str> = Vec::new();
        if let Some(t) = &self.tree {
            t.iter(&mut out);
        }
        out
    }

    /// Whether a search for `query` comes upon a string within the budget.
    ///
    /// A search looks at the root, and below a node only at the children whose
    /// key differs from the node's own distance to `query` by less than the
    /// budget. It finds something as soon as one of the strings that it looks
    /// at is within the budget. Without a budget every search of a dictionary
    /// that is not empty finds something.
    pub open spec fn finds(&self, query: Seq<char>, max_edits: Option<usize>) -> bool {
        match self.shape() {
            Some(shape) => match max_edits {
                Some(k) => shape.reaches(query, k as nat),
                None => true,
            },
            None => false,
        }
    }

    /// A search finds something whenever the dictionary holds a string that
    /// is nearer to the query than the budget, or there is no budget.
    pub proof fn lemma_finds_nearer(&self, query: Seq<char>, max_edits: Option<usize>, t: Seq<char>)
        requires
            self.wf(),
            self@.contains(t),
            max_edits matches Some(k) ==> edit_distance(t, query) < k,
        ensures
            self.finds(query, max_edits),
    {
        if let Some(k) = max_edits {
            self.tree->0.lemma_reaches(query, k as nat, t);
            self.tree->0.lemma_shape_reaches(query, k as nat);
        }
    }

    /// With a budget of zero a search looks at the root alone: it finds the
    /// string of the root and no other.
    pub proof fn lemma_finds_exact(&self, query: Seq<char>)
        ensures
            self.finds(query, Some(0usize)) <==> (self.shape() matches Some(shape) && shape.value
                == query),
    {
        if let Some(shape) = self.shape() {
            lemma_distance_self(query);
            if edit_distance(shape.value, query) == 0 {
                lemma_distance_zero(shape.value, query);
            }
        }
    }

    /// A search that finds something with a budget has a string of the
    /// dictionary within that budget.
    pub proof fn lemma_finds_within(&self, query: Seq<char>, k: usize) -> (t: Seq<char>)
        requires
            self.finds(query, Some(k)),
        ensures
            self@.contains(t),
            edit_distance(t, query) <= k,
    {
        self.tree->0.lemma_shape_reaches(query, k as nat);
        self.tree->0.lemma_reached(query, k as nat)
    }

    /// The nearest string to `query`, if the search comes upon one within
    /// `max_edits`. Where several are nearest, any of them may come back.
    ///
    /// A string of the dictionary is found as itself under every budget but
    /// zero: a budget of zero leaves no band to follow below the root.
    #[verifier::rlimit(50)]
    pub fn find_one(&self, query: &str, max_edits: Option<usize>) -> (r: Option<&str>)
        requires
            self.wf(),
            query@.len() <= u32::MAX,
        ensures
            r is Some <==> self.finds(query@, max_edits),
            self@.contains(query@) && max_edits != Some(0usize) ==> r is Some && r->0@ == query@,
            match r {
                Some(s) => {
                    &&& self@.contains(s@)
                    &&& within(edit_distance(s@, query@), max_edits)
                    &&& forall|t: Seq<char>| #[trigger]
                        self@.contains(t) ==> edit_distance(s@, query@) <= edit_distance(t, query@)
                },
                None => forall|t: Seq<char>| #[trigger]
                    self@.contains(t) ==> (max_edits matches Some(k) && edit_distance(t, query@)
                        >= k),
            },
    {
        let tree = match &self.tree {
            Some(t) => t,
            None => {
                return None;
            },
        };
        let mut candidates: VecDeque<&Tree> = VecDeque::new();
        candidates.push_back(tree);

        let mut best: Option<&str> = None;
        let mut limit: u32 = match max_edits {
            Some(k) => if k > u32::MAX as usize {
                u32::MAX
            } else {
                k as u32
            },
            None => u32::MAX,
        };
        let ghost root = *tree;
        let ghost q = query@;
        let ghost start = limit as nat;
        proof {
            root.lemma_members_finite();
            assert(candidates@[0] == tree);
            assert(waiting(candidates@, root.value@));
            assert forall|s: Seq<char>| #[trigger] root.member(s) implies waiting(
                candidates@,
                s,
            ) by {
                assert(candidates@[0].member(s));
            }
            if root.reaches(q, start) {
                assert(candidates@[0].reaches(q, start));
            }
        }

        loop
            invariant
                root.wf(),
                q == query@,
                q.len() <= u32::MAX,
                root.members().finite(),
                forall|i: int| 0 <= i < candidates@.len() ==> (#[trigger] candidates@[i]).wf(),
                forall|i: int, s: Seq<char>|
                    0 <= i < candidates@.len() && #[trigger] candidates@[i].member(s)
                        ==> root.member(s),
                apart(candidates@),
                forall|s: Seq<char>| #[trigger]
                    root.member(s) ==> waiting(candidates@, s) || edit_distance(s, q) >= limit,
                best matches Some(r) ==> root.member(r@) && edit_distance(r@, q) == limit
                    && root.reaches(q, start),
                limit <= start,
                best is None ==> limit == start && (root.reaches(q, start) <==> reach_waiting(
                    candidates@,
                    q,
                    start,
                )),
            ensures
                candidates@.len() == 0,
            decreases pending(candidates@).len(),
        {
            let ghost old_queue = candidates@;
            let ghost old_limit = limit;
            let ghost old_best = best;
            let node = match candidates.pop_front() {
                Some(node) => node,
                None => {
                    break ;
                },
            };
            let ghost rest = candidates@;
            proof {
                assert(node == old_queue[0]);
                assert(node.wf());
                assert forall|i: int| 0 <= i < rest.len() implies #[trigger] rest[i] == old_queue[i
                    + 1] by {}
                lemma_distance_symmetric(q, node.value@);
            }
            let distance = levenshtein(query, node.value.as_str());
            if distance <= limit {
                limit = distance;
                best = Some(node.value.as_str());
            }
            let ghost seq = spec_hash_map_iter(&node.children).remaining();
            // For each child put in the queue, its place in `seq`.
            let ghost mut origin: Seq<int> = Seq::empty();
            if !node.children.is_empty() {
                // The update above leaves `limit` at most `distance`.
                let lower = distance - limit;
                let upper = distance as u64 + limit as u64;
                for entry in it: node.children.iter()
                    invariant
                        it.seq() == seq,
                        seq == spec_hash_map_iter(&node.children).remaining(),
                        lower == distance - limit,
                        upper == distance + limit,
                        candidates@.len() == rest.len() + origin.len(),
                        forall|i: int| 0 <= i < rest.len() ==> candidates@[i] == rest[i],
                        forall|m: int|
                            0 <= m < origin.len() ==> {
                                &&& 0 <= #[trigger] origin[m] < it.index()
                                &&& candidates@[rest.len() + m] == seq[origin[m]].1
                                &&& in_band(*seq[origin[m]].0 as int, distance as int, limit as int)
                            },
                        forall|m1: int, m2: int|
                            0 <= m1 < m2 < origin.len() ==> origin[m1] < origin[m2],
                        forall|j: int|
                            0 <= j < it.index() && in_band(
                                *(#[trigger] seq[j]).0 as int,
                                distance as int,
                                limit as int,
                            ) ==> kept(origin, j),
                {
                    let (d, c) = entry;
                    let ghost at = it.index();
                    if lower < *d && (*d as u64) < upper {
                        candidates.push_back(c);
                        proof {
                            let before = origin;
                            origin = origin.push(at);
                            assert forall|j: int|
                                0 <= j < at + 1 && in_band(
                                    *(#[trigger] seq[j]).0 as int,
                                    distance as int,
                                    limit as int,
                                ) implies kept(origin, j) by {
                                if j < at {
                                    assert(kept(before, j));
                                    let m = choose|m: int|
                                        0 <= m < before.len() && before[m] == j;
                                    assert(origin[m] == j);
                                } else {
                                    assert(origin[before.len() as int] == j);
                                }
                            }
                        }
                    } else {
                        proof {
                            assert forall|j: int|
                                0 <= j < at + 1 && in_band(
                                    *(#[trigger] seq[j]).0 as int,
                                    distance as int,
                                    limit as int,
                                ) implies kept(origin, j) by {}
                        }
                    }
                }
            }
            proof {
                assert forall|i: int| 0 <= i < old_queue.len() - 1 implies candidates@[i]
                    == old_queue[i + 1] by {
                    assert(candidates@[i] == rest[i]);
                    assert(rest[i] == old_queue[i + 1]);
                }
                Self::lemma_search_step(
                    root,
                    q,
                    start,
                    old_queue,
                    candidates@,
                    *node,
                    seq,
                    origin,
                    old_limit as nat,
                    limit as nat,
                    old_best is Some,
                );
            }
        }
        proof {
            assert forall|t: Seq<char>| #[trigger] self@.contains(t) implies edit_distance(t, q)
                <= u32::MAX by {
                root.lemma_member_fits(t);
                lemma_distance_bounds(t, q);
            }
            assert(root.member(root.value@));
            assert(self@ == root.members());
            lemma_distance_bounds(root.value@, q);
            assert forall|t: Seq<char>| !waiting(candidates@, t) by {}
            assert(!reach_waiting(candidates@, q, start));
            if let Some(k) = max_edits {
                root.lemma_shape_reaches(q, k as nat);
                if k > u32::MAX {
                    assert(root.reaches(q, start));
                    assert(root.reaches(q, k as nat));
                }
            } else {
                assert(root.reaches(q, start));
            }
            if self@.contains(q) && max_edits != Some(0usize) {
                lemma_distance_self(q);
                root.lemma_reaches(q, start, q);
                lemma_distance_zero(best->0@, q);
            }
        }
        best
    }

    /// One round of the search: the node at the head of the queue is looked
    /// at, and its children within the band take its place at the tail.
    #[verifier::rlimit(50)]
    proof fn lemma_search_step(
        root: Tree,
        q: Seq<char>,
        start: nat,
        old_queue: Seq<&Tree>,
        new_queue: Seq<&Tree>,
        node: Tree,
        seq: Seq<(&u32, &Tree)>,
        origin: Seq<int>,
        old_limit: nat,
        limit: nat,
        had_best: bool,
    )
        requires
            root.wf(),
            root.members().finite(),
            old_queue.len() > 0,
            *old_queue[0] == node,
            forall|i: int| 0 <= i < old_queue.len() ==> (#[trigger] old_queue[i]).wf(),
            forall|i: int, s: Seq<char>|
                0 <= i < old_queue.len() && #[trigger] old_queue[i].member(s) ==> root.member(s),
            apart(old_queue),
            forall|s: Seq<char>| #[trigger]
                root.member(s) ==> waiting(old_queue, s) || edit_distance(s, q) >= old_limit,
            limit == if edit_distance(node.value@, q) <= old_limit {
                edit_distance(node.value@, q)
            } else {
                old_limit
            },
            !had_best ==> old_limit == start && (root.reaches(q, start) <==> reach_waiting(
                old_queue,
                q,
                start,
            )),
            had_best ==> root.reaches(q, start),
            old_limit <= start,
            seq.no_duplicates(),
            // the children of `node`, as they are walked
            forall|j: int|
                0 <= j < seq.len() ==> node.children@.contains_key(*(#[trigger] seq[j]).0)
                    && node.children@[*seq[j].0] == *seq[j].1,
            forall|k: u32| #[trigger]
                node.children@.contains_key(k) ==> seq.contains((&k, &node.children@[k])),
            // the new queue: the old one without its head, then the children kept
            new_queue.len() == old_queue.len() - 1 + origin.len(),
            forall|i: int| 0 <= i < old_queue.len() - 1 ==> new_queue[i] == old_queue[i + 1],
            forall|m: int|
                0 <= m < origin.len() ==> {
                    &&& 0 <= #[trigger] origin[m] < seq.len()
                    &&& new_queue[old_queue.len() - 1 + m] == seq[origin[m]].1
                    &&& in_band(
                        *seq[origin[m]].0 as int,
                        edit_distance(node.value@, q) as int,
                        limit as int,
                    )
                },
            forall|m1: int, m2: int| 0 <= m1 < m2 < origin.len() ==> origin[m1] < origin[m2],
            forall|j: int|
                0 <= j < seq.len() && in_band(
                    *(#[trigger] seq[j]).0 as int,
                    edit_distance(node.value@, q) as int,
                    limit as int,
                ) ==> kept(origin, j),
        ensures
            forall|i: int| 0 <= i < new_queue.len() ==> (#[trigger] new_queue[i]).wf(),
            forall|i: int, s: Seq<char>|
                0 <= i < new_queue.len() && #[trigger] new_queue[i].member(s) ==> root.member(s),
            apart(new_queue),
            forall|s: Seq<char>| #[trigger]
                root.member(s) ==> waiting(new_queue, s) || edit_distance(s, q) >= limit,
            edit_distance(node.value@, q) <= old_limit ==> root.member(node.value@)
                && root.reaches(q, start),
            !had_best && edit_distance(node.value@, q) > old_limit ==> (root.reaches(q, start)
                <==> reach_waiting(new_queue, q, start)),
            pending(new_queue).len() < pending(old_queue).len(),
    {
        let d = edit_distance(node.value@, q);
        let n = old_queue.len() - 1;
        assert(old_queue[0].member(node.value@));
        lemma_distance_self(node.value@);
        // every node of the new queue is well-formed and stands under the old head
        // or is an old node
        assert forall|i: int| 0 <= i < new_queue.len() implies (#[trigger] new_queue[i]).wf() by {
            if i >= n {
                let m = i - n;
                assert(0 <= origin[m] < seq.len());
                assert(node.children@.contains_key(*seq[origin[m]].0));
            } else {
                assert(new_queue[i] == old_queue[i + 1]);
            }
        }
        assert forall|i: int, s: Seq<char>|
            0 <= i < new_queue.len() && #[trigger] new_queue[i].member(s) implies root.member(
            s,
        ) && (if i < n {
            old_queue[i + 1].member(s)
        } else {
            node.member(s) && s != node.value@ && edit_distance(s, node.value@) == *seq[origin[i
                - n]].0
        }) by {
            if i >= n {
                let m = i - n;
                assert(0 <= origin[m] < seq.len());
                assert(node.children@.contains_key(*seq[origin[m]].0));
                assert(old_queue[0].member(s));
            } else {
                assert(new_queue[i] == old_queue[i + 1]);
            }
        }
        assert(apart(new_queue)) by {
            assert forall|i: int, j: int, s: Seq<char>|
                #![trigger new_queue[i].member(s), new_queue[j].member(s)]
                0 <= i < j < new_queue.len() && new_queue[i].member(s) implies !new_queue[j].member(
                s,
            ) by {
                if new_queue[j].member(s) {
                    if j < n {
                        assert(old_queue[i + 1].member(s) && old_queue[j + 1].member(s));
                    } else if i < n {
                        assert(old_queue[i + 1].member(s) && old_queue[0].member(s));
                    } else {
                        let a = origin[i - n];
                        let b = origin[j - n];
                        assert(a < b);
                        assert(*seq[a].0 == *seq[b].0);
                        assert(*seq[a].1 == *seq[b].1);
                        assert(seq[a] == seq[b]);
                    }
                }
            }
        }
        assert forall|s: Seq<char>| #[trigger] root.member(s) implies waiting(new_queue, s)
            || edit_distance(s, q) >= limit by {
            if waiting(old_queue, s) {
                let i = choose|i: int| 0 <= i < old_queue.len() && (#[trigger] old_queue[i]).member(
                    s,
                );
                if i > 0 {
                    assert(new_queue[i - 1].member(s));
                } else if s != node.value@ {
                    let k = choose|k: u32| #[trigger]
                        node.children@.contains_key(k) && node.children@[k].member(s);
                    let child = node.children@[k];
                    assert(seq.contains((&k, &child)));
                    let j = choose|j: int| 0 <= j < seq.len() && seq[j] == (&k, &child);
                    assert(edit_distance(s, node.value@) == k);
                    lemma_distance_triangle(node.value@, s, q);
                    lemma_distance_triangle(s, q, node.value@);
                    lemma_distance_symmetric(node.value@, s);
                    lemma_distance_symmetric(node.value@, q);
                    if in_band(*seq[j].0 as int, d as int, limit as int) {
                        assert(kept(origin, j));
                        let m = choose|m: int| 0 <= m < origin.len() && origin[m] == j;
                        assert(new_queue[n + m].member(s));
                    }
                }
            }
        }
        if d <= old_limit {
            assert(old_queue[0].reaches(q, start));
        }
        if !had_best && d > old_limit {
            if reach_waiting(old_queue, q, start) {
                let i = choose|i: int|
                    0 <= i < old_queue.len() && (#[trigger] old_queue[i]).reaches(q, start);
                if i > 0 {
                    assert(new_queue[i - 1].reaches(q, start));
                } else {
                    let k = choose|k: u32| #[trigger]
                        node.children@.contains_key(k) && in_band(k as int, d as int, start as int)
                            && node.children@[k].reaches(q, start);
                    let child = node.children@[k];
                    assert(seq.contains((&k, &child)));
                    let j = choose|j: int| 0 <= j < seq.len() && seq[j] == (&k, &child);
                    assert(kept(origin, j));
                    let m = choose|m: int| 0 <= m < origin.len() && origin[m] == j;
                    assert(new_queue[n + m].reaches(q, start));
                }
            }
            if reach_waiting(new_queue, q, start) {
                let i = choose|i: int|
                    0 <= i < new_queue.len() && (#[trigger] new_queue[i]).reaches(q, start);
                if i < n {
                    assert(old_queue[i + 1].reaches(q, start));
                } else {
                    let m = i - n;
                    assert(0 <= origin[m] < seq.len());
                    assert(node.children@.contains_key(*seq[origin[m]].0));
                    assert(old_queue[0].reaches(q, start));
                }
            }
        }
        // the strings still waiting are fewer: the string of the old head has left
        assert(pending(new_queue).subset_of(pending(old_queue).remove(node.value@))) by {
            assert forall|s: Seq<char>| pending(new_queue).contains(s) implies pending(
                old_queue,
            ).remove(node.value@).contains(s) by {
                let i = choose|i: int| 0 <= i < new_queue.len() && (#[trigger] new_queue[i]).member(
                    s,
                );
                if i < n {
                    assert(old_queue[i + 1].member(s));
                } else {
                    assert(old_queue[0].member(s));
                }
            }
        }
        assert(pending(old_queue).subset_of(root.members())) by {
            assert forall|s: Seq<char>|
                pending(old_queue).contains(s) implies root.members().contains(s) by {
                let i = choose|i: int| 0 <= i < old_queue.len() && (#[trigger] old_queue[i]).member(
                    s,
                );
            }
        }
        vstd::set_lib::lemma_len_subset(pending(old_queue), root.members());
        assert(pending(old_queue).contains(node.value@));
        vstd::set_lib::lemma_len_subset(
            pending(new_queue),
            pending(old_queue).remove(node.value@),
        );
    }

    /// The dictionary of the given strings.
    pub fn from_iter(items: Vec<String>) -> (t: Self)
        requires
            all_fit(items@),
        ensures
            t.wf(),
            forall|s: Seq<char>| t@.contains(s) <==> among(items@, s),
            t.shape() == built(None, items@),
    {
        let mut tree = Self::new();
        tree.extend(items);
        tree
    }

    /// Adds each of the given strings, in their order.
    pub fn extend(&mut self, items: Vec<String>)
        requires
            old(self).wf(),
            all_fit(items@),
        ensures
            final(self).wf(),
            forall|s: Seq<char>|
                final(self)@.contains(s) <==> (old(self)@.contains(s) || among(items@, s)),
            final(self).shape() == built(old(self).shape(), items@),
    {
        let ghost all = items@;
        for item in it: items
            invariant
                it.seq() == all,
                all_fit(all),
                self.wf(),
                self.shape() == built(old(self).shape(), all.take(it.index())),
                forall|s: Seq<char>|
                    self@.contains(s) <==> (old(self)@.contains(s) || among(
                        all.take(it.index()),
                        s,
                    )),
        {
            let ghost at = it.index();
            assert(item == all[at]);
            self.insert(item);
            proof {
                assert(all.take(at + 1).drop_last() =~= all.take(at));
                assert forall|s: Seq<char>| self@.contains(s) <==> (old(self)@.contains(s) || among(
                    all.take(at + 1),
                    s,
                )) by {
                    let shorter = all.take(at);
                    let longer = all.take(at + 1);
                    if among(shorter, s) {
                        let i = choose|i: int| 0 <= i < shorter.len() && shorter[i]@ == s;
                        assert(longer[i]@ == s);
                    }
                    if among(longer, s) {
                        let i = choose|i: int| 0 <= i < longer.len() && longer[i]@ == s;
                        if i < at {
                            assert(shorter[i]@ == s);
                        }
                    }
                    if s == all[at]@ {
                        assert(longer[at]@ == s);
                    }
                }
            }
        }
        assert(all.take(all.len() as int) =~= all);
    }
}

} // verus!
