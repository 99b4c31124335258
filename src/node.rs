use vstd::prelude::*;

verus! {

broadcast use vstd::std_specs::vec::group_vec_axioms, vstd::seq::group_seq_axioms;

/// One node of the tree: the edges to its children, each labelled by one
/// character, and whether the path from the root to here spells a stored string.
pub struct TrieNode {
    pub(crate) children: Vec<(char, TrieNode)>,
    pub(crate) end_of_word: bool,
}

/// `p` is a prefix of `w`.
pub open spec fn is_prefix(p: Seq<char>, w: Seq<char>) -> bool {
    p.len() <= w.len() && w.subrange(0, p.len() as int) == p
}

impl TrieNode {
    pub(crate) open spec fn labels_unique(self) -> bool {
        forall|i: int, j: int|
            0 <= i < self.children@.len() && 0 <= j < self.children@.len() && i != j
                ==> self.children@[i].0 != self.children@[j].0
    }

    pub(crate) open spec fn has_child(self, c: char) -> bool {
        exists|i: int| 0 <= i < self.children@.len() && self.children@[i].0 == c
    }

    pub(crate) open spec fn child_index(self, c: char) -> int {
        choose|i: int| 0 <= i < self.children@.len() && self.children@[i].0 == c
    }

    pub(crate) open spec fn child(self, c: char) -> TrieNode {
        self.children@[self.child_index(c)].1
    }

    /// The node reached from this one by following the edges labelled `p`.
    pub(crate) open spec fn reach(self, p: Seq<char>) -> Option<TrieNode>
        decreases p.len(),
    {
        if p.len() == 0 {
            Some(self)
        } else if self.has_child(p[0]) {
            self.child(p[0]).reach(p.drop_first())
        } else {
            None
        }
    }

    /// `w`, read from this node, ends on a node that marks a stored string.
    pub(crate) open spec fn has(self, w: Seq<char>) -> bool {
        match self.reach(w) {
            Some(n) => n.end_of_word,
            None => false,
        }
    }

    /// Labels are unique among siblings, and no node below this one is a
    /// non-terminal leaf.
    pub(crate) open spec fn wf(self) -> bool
        decreases self,
    {
        &&& self.labels_unique()
        &&& forall|i: int|
            #![trigger self.children@[i]]
            0 <= i < self.children@.len() ==> {
                &&& self.children@[i].1.wf()
                &&& (self.children@[i].1.end_of_word || self.children@[i].1.children@.len() > 0)
            }
    }

    /// The strings stored below this node, relative to it, in depth-first
    /// order: children in the order they are held, each child's own string
    /// before those that extend it.
    pub(crate) open spec fn listing(self) -> Seq<Seq<char>>
        decreases self, self.children@.len() + 1,
    {
        self.listing_from(0)
    }

    pub(crate) open spec fn listing_from(self, i: int) -> Seq<Seq<char>>
        decreases self, self.children@.len() - i,
    {
        if 0 <= i < self.children@.len() {
            let c = self.children@[i].0;
            let m = self.children@[i].1;
            (if m.end_of_word {
                seq![seq![c]]
            } else {
                Seq::empty()
            }) + m.listing().map_values(|t: Seq<char>| seq![c] + t) + self.listing_from(i + 1)
        } else {
            Seq::empty()
        }
    }

    pub(crate) proof fn lemma_child_at(self, i: int)
        requires
            self.labels_unique(),
            0 <= i < self.children@.len(),
        ensures
            self.has_child(self.children@[i].0),
            self.child_index(self.children@[i].0) == i,
            self.child(self.children@[i].0) == self.children@[i].1,
    {
        let c = self.children@[i].0;
        assert(self.has_child(c));
        let k = self.child_index(c);
        assert(self.children@[k].0 == c);
    }

    pub(crate) proof fn lemma_reach_append(self, p: Seq<char>, q: Seq<char>)
        ensures
            self.reach(p + q) == match self.reach(p) {
                Some(m) => m.reach(q),
                None => None,
            },
        decreases p.len(),
    {
        if p.len() == 0 {
            assert(p + q =~= q);
        } else {
            assert((p + q)[0] == p[0]);
            assert((p + q).drop_first() =~= p.drop_first() + q);
            if self.has_child(p[0]) {
                self.child(p[0]).lemma_reach_append(p.drop_first(), q);
            }
        }
    }

    /// Reading `c` and then `t` from this node.
    pub(crate) proof fn lemma_reach_cons(self, c: char, t: Seq<char>)
        ensures
            self.reach(seq![c] + t) == if self.has_child(c) {
                self.child(c).reach(t)
            } else {
                None
            },
    {
        let w = seq![c] + t;
        assert(w[0] == c);
        assert(w.drop_first() =~= t);
    }

    /// A well-formed node that is terminal or has a child stores some string.
    pub(crate) proof fn lemma_stores_some(self) -> (w: Seq<char>)
        requires
            self.wf(),
            self.end_of_word || self.children@.len() > 0,
        ensures
            self.has(w),
            self.children@.len() > 0 ==> w.len() > 0,
        decreases self,
    {
        if self.children@.len() > 0 {
            let c = self.children@[0].0;
            let m = self.children@[0].1;
            self.lemma_child_at(0);
            let t = m.lemma_stores_some();
            self.lemma_reach_cons(c, t);
            seq![c] + t
        } else {
            assert(self.reach(Seq::empty()) == Some(self));
            Seq::empty()
        }
    }

    pub(crate) proof fn lemma_listing(self)
        requires
            self.wf(),
        ensures
            forall|t: Seq<char>| #[trigger]
                self.listing().contains(t) <==> (t.len() > 0 && self.has(t)),
            self.listing().no_duplicates(),
        decreases self, self.children@.len() + 1,
    {
        self.lemma_listing_from(0);
        assert forall|t: Seq<char>| t.len() > 0 && self.has(t) implies exists|j: int|
            0 <= j < self.children@.len() && self.children@[j].0 == t[0] by {
            assert(self.has_child(t[0]));
        }
    }

    pub(crate) proof fn lemma_listing_from(self, i: int)
        requires
            self.wf(),
            0 <= i,
        ensures
            forall|t: Seq<char>| #[trigger]
                self.listing_from(i).contains(t) <==> (t.len() > 0 && self.has(t) && exists|j: int|
                    i <= j < self.children@.len() && self.children@[j].0 == t[0]),
            self.listing_from(i).no_duplicates(),
        decreases self, self.children@.len() - i,
    {
        broadcast use vstd::seq_lib::group_seq_properties;

        if i < self.children@.len() {
            let c = self.children@[i].0;
            let m = self.children@[i].1;
            let f = |t: Seq<char>| seq![c] + t;
            let a: Seq<Seq<char>> = if m.end_of_word {
                seq![seq![c]]
            } else {
                Seq::empty()
            };
            let b = m.listing().map_values(f);
            let rest = self.listing_from(i + 1);
            m.lemma_listing();
            self.lemma_listing_from(i + 1);
            self.lemma_child_at(i);
            assert(self.listing_from(i) == a + b + rest);
            assert forall|t: Seq<char>| #[trigger] b.contains(t) <==> (t.len() > 1 && t[0] == c
                && m.has(t.drop_first())) by {
                if b.contains(t) {
                    let k = choose|k: int| 0 <= k < b.len() && b[k] == t;
                    let u = m.listing()[k];
                    assert(m.listing().contains(u));
                    assert(t == seq![c] + u);
                    assert(t.drop_first() =~= u);
                }
                if t.len() > 1 && t[0] == c && m.has(t.drop_first()) {
                    let u = t.drop_first();
                    assert(m.listing().contains(u));
                    let k = choose|k: int| 0 <= k < m.listing().len() && m.listing()[k] == u;
                    assert(t =~= seq![c] + u);
                    assert(b[k] == t);
                }
            }
            assert forall|t: Seq<char>| #[trigger]
                self.listing_from(i).contains(t) <==> (t.len() > 0 && self.has(t) && exists|j: int|
                    i <= j < self.children@.len() && self.children@[j].0 == t[0]) by {
                if t.len() > 0 {
                    self.lemma_reach_cons(t[0], t.drop_first());
                    assert(seq![t[0]] + t.drop_first() =~= t);
                    if t.len() == 1 {
                        assert(t.drop_first() =~= Seq::<char>::empty());
                        assert(t =~= seq![t[0]]);
                    }
                }
                if exists|j: int| i <= j < self.children@.len() && self.children@[j].0 == t[0] {
                    let j = choose|j: int| i <= j < self.children@.len() && self.children@[j].0 == t[0];
                    if j == i {
                        assert(t[0] == c);
                    } else {
                        assert(i + 1 <= j);
                    }
                }
                if rest.contains(t) {
                    let j = choose|j: int| i + 1 <= j < self.children@.len() && self.children@[j].0 == t[0];
                    assert(j != i);
                }
            }
            assert(vstd::relations::injective(f)) by {
                assert forall|x: Seq<char>, y: Seq<char>| #[trigger] f(x) == #[trigger] f(y) implies x == y by {
                    assert(f(x).drop_first() =~= x);
                    assert(f(y).drop_first() =~= y);
                }
            }
            m.listing().lemma_no_duplicates_injective(f);
            assert forall|x: int, y: int| 0 <= x < a.len() && 0 <= y < b.len() implies a[x] != b[y] by {
                assert(b.contains(b[y]));
            }
            vstd::seq_lib::lemma_no_dup_in_concat(a, b);
            assert forall|x: int, y: int| 0 <= x < (a + b).len() && 0 <= y < rest.len() implies (a
                + b)[x] != rest[y] by {
                assert(rest.contains(rest[y]));
                assert((a + b).contains((a + b)[x]));
                if b.contains((a + b)[x]) {
                }
                let j = choose|j: int| i + 1 <= j < self.children@.len() && self.children@[j].0 == rest[y][0];
                assert(j != i);
            }
            vstd::seq_lib::lemma_no_dup_in_concat(a + b, rest);
        }
    }

    /// The children as a map from edge label to node.
    pub(crate) open spec fn child_map(self) -> Map<char, TrieNode> {
        Map::new(|c: char| self.has_child(c), |c: char| self.child(c))
    }

    /// How `has` reads a string through the first edge.
    pub(crate) proof fn lemma_has_split(self, w: Seq<char>)
        ensures
            w.len() == 0 ==> (self.has(w) == self.end_of_word),
            w.len() > 0 ==> (self.has(w) == (self.child_map().contains_key(w[0])
                && self.child_map()[w[0]].has(w.drop_first()))),
    {
        if w.len() > 0 {
            self.lemma_reach_cons(w[0], w.drop_first());
            assert(seq![w[0]] + w.drop_first() =~= w);
        }
    }

    /// Replacing the node under an existing label.
    pub(crate) proof fn lemma_child_map_update(self, other: TrieNode, k: int, x: (char, TrieNode))
        requires
            self.labels_unique(),
            0 <= k < self.children@.len(),
            x.0 == self.children@[k].0,
            other.children@ == self.children@.update(k, x),
        ensures
            other.labels_unique(),
            other.child_map() == self.child_map().insert(x.0, x.1),
    {
        assert forall|c: char| #[trigger] other.has_child(c) == self.child_map().insert(x.0, x.1).contains_key(c) by {
            if self.has_child(c) {
                let j = self.child_index(c);
                assert(other.children@[j].0 == c);
            }
            if other.has_child(c) {
                let j = other.child_index(c);
                assert(self.children@[j].0 == c);
            }
        }
        assert forall|c: char| other.has_child(c) implies #[trigger] other.child(c) == self.child_map().insert(x.0, x.1)[c] by {
            let j = other.child_index(c);
            assert(self.children@[j].0 == c);
            self.lemma_child_at(j);
            other.lemma_child_at(j);
        }
        assert(other.child_map() =~= self.child_map().insert(x.0, x.1));
    }

    /// Adding a child under a new label.
    pub(crate) proof fn lemma_child_map_push(self, other: TrieNode, x: (char, TrieNode))
        requires
            self.labels_unique(),
            !self.has_child(x.0),
            other.children@ == self.children@.push(x),
        ensures
            other.labels_unique(),
            other.child_map() == self.child_map().insert(x.0, x.1),
    {
        let n = self.children@.len() as int;
        assert(other.children@[n] == x);
        assert(other.labels_unique()) by {
            assert forall|i: int, j: int|
                0 <= i < other.children@.len() && 0 <= j < other.children@.len() && i != j
                implies other.children@[i].0 != other.children@[j].0 by {
                if i < n && j < n {
                } else if i < n {
                    assert(self.children@[i].0 != x.0);
                } else if j < n {
                    assert(self.children@[j].0 != x.0);
                }
            }
        }
        assert forall|c: char| #[trigger] other.has_child(c) == self.child_map().insert(x.0, x.1).contains_key(c) by {
            if self.has_child(c) {
                let j = self.child_index(c);
                assert(other.children@[j].0 == c);
            }
            if other.has_child(c) && c != x.0 {
                let j = other.child_index(c);
                assert(j != n);
                assert(self.children@[j].0 == c);
            }
        }
        assert forall|c: char| other.has_child(c) implies #[trigger] other.child(c) == self.child_map().insert(x.0, x.1)[c] by {
            let j = other.child_index(c);
            other.lemma_child_at(j);
            if j < n {
                assert(self.children@[j].0 == c);
                self.lemma_child_at(j);
            }
        }
        assert(other.child_map() =~= self.child_map().insert(x.0, x.1));
    }

    /// Detaching the child at position `k`.
    pub(crate) proof fn lemma_child_map_remove(self, other: TrieNode, k: int)
        requires
            self.labels_unique(),
            0 <= k < self.children@.len(),
            other.children@ == self.children@.remove(k),
        ensures
            other.labels_unique(),
            other.child_map() == self.child_map().remove(self.children@[k].0),
    {
        let c0 = self.children@[k].0;
        let n = self.children@.len() as int;
        assert forall|i: int| 0 <= i < n - 1 implies #[trigger] other.children@[i] == self.children@[if i < k { i } else { i + 1 }] by {}
        assert(other.labels_unique()) by {
            assert forall|i: int, j: int|
                0 <= i < other.children@.len() && 0 <= j < other.children@.len() && i != j
                implies other.children@[i].0 != other.children@[j].0 by {
                let a = if i < k { i } else { i + 1 };
                let b = if j < k { j } else { j + 1 };
                assert(other.children@[i] == self.children@[a]);
                assert(other.children@[j] == self.children@[b]);
            }
        }
        assert forall|c: char| #[trigger] other.has_child(c) == self.child_map().remove(c0).contains_key(c) by {
            if self.has_child(c) && c != c0 {
                let j = self.child_index(c);
                assert(j != k);
                let i = if j < k { j } else { j - 1 };
                assert(other.children@[i] == self.children@[j]);
            }
            if other.has_child(c) {
                let i = other.child_index(c);
                let j = if i < k { i } else { i + 1 };
                assert(other.children@[i] == self.children@[j]);
                assert(j != k);
            }
        }
        assert forall|c: char| other.has_child(c) implies #[trigger] other.child(c) == self.child_map().remove(c0)[c] by {
            let i = other.child_index(c);
            let j = if i < k { i } else { i + 1 };
            assert(other.children@[i] == self.children@[j]);
            other.lemma_child_at(i);
            self.lemma_child_at(j);
        }
        assert(other.child_map() =~= self.child_map().remove(c0));
    }

    /// A node reached from a well-formed node is well-formed, and one reached
    /// by a non-empty path is terminal or has a child.
    pub(crate) proof fn lemma_reach_wf(self, p: Seq<char>)
        requires
            self.wf(),
            self.reach(p) is Some,
        ensures
            self.reach(p)->0.wf(),
            p.len() > 0 ==> (self.reach(p)->0.end_of_word || self.reach(p)->0.children@.len() > 0),
        decreases p.len(),
    {
        if p.len() > 0 {
            let j = self.child_index(p[0]);
            self.lemma_child_at(j);
            self.child(p[0]).lemma_reach_wf(p.drop_first());
        }
    }

    pub(crate) fn leaf() -> (r: TrieNode)
        ensures
            r.children@.len() == 0,
            !r.end_of_word,
            r.wf(),
    {
        TrieNode { children: Vec::new(), end_of_word: false }
    }

    /// Position of the child labelled `c`, if there is one.
    pub(crate) fn find_child(&self, c: char) -> (r: Option<usize>)
        requires
            self.labels_unique(),
        ensures
            r is None <==> !self.has_child(c),
            r is Some ==> {
                &&& r->0 < self.children@.len()
                &&& self.children@[r->0 as int].0 == c
                &&& self.child_index(c) == r->0 as int
                &&& self.child(c) == self.children@[r->0 as int].1
            },
    {
        let mut i: usize = 0;
        while i < self.children.len()
            invariant
                i <= self.children@.len(),
                self.labels_unique(),
                forall|j: int| 0 <= j < i ==> self.children@[j].0 != c,
            decreases self.children@.len() - i,
        {
            if self.children[i].0 == c {
                assert(self.has_child(c));
                let ghost k = self.child_index(c);
                assert(self.children@[k].0 == c);
                assert(k == i as int);
                return Some(i);
            }
            i += 1;
        }
        None
    }

    /// The node at the end of the path `p`, if the path exists.
    pub(crate) fn descend(&self, p: &Vec<char>) -> (r: Option<&TrieNode>)
        requires
            self.wf(),
        ensures
            r == match self.reach(p@) {
                Some(n) => Some(&n),
                None => None::<&TrieNode>,
            },
    {
        let mut node: &TrieNode = self;
        let mut i: usize = 0;
        while i < p.len()
            invariant
                self.wf(),
                i <= p@.len(),
                self.reach(p@.subrange(0, i as int)) == Some(*node),
            decreases p@.len() - i,
        {
            proof {
                self.lemma_reach_wf(p@.subrange(0, i as int));
                self.lemma_reach_append(p@.subrange(0, i as int), seq![p@[i as int]]);
                assert(p@.subrange(0, i as int) + seq![p@[i as int]] =~= p@.subrange(0, i as int + 1));
                node.lemma_reach_cons(p@[i as int], Seq::empty());
                assert(seq![p@[i as int]] + Seq::<char>::empty() =~= seq![p@[i as int]]);
            }
            match node.find_child(p[i]) {
                Some(k) => {
                    node = &node.children[k].1;
                },
                None => {
                    proof {
                        self.lemma_reach_append(p@.subrange(0, i as int + 1), p@.subrange(i as int + 1, p@.len() as int));
                        assert(p@.subrange(0, i as int + 1) + p@.subrange(i as int + 1, p@.len() as int) =~= p@);
                    }
                    return None;
                },
            }
            i += 1;
        }
        assert(p@.subrange(0, p@.len() as int) =~= p@);
        Some(node)
    }

    /// Stores `s[i..]` below this node; true when it was not stored before.
    pub(crate) fn insert_from(&mut self, s: &Vec<char>, i: usize) -> (r: bool)
        requires
            old(self).wf(),
            i <= s@.len(),
        ensures
            final(self).wf(),
            r == !old(self).has(s@.subrange(i as int, s@.len() as int)),
            forall|w: Seq<char>| #[trigger] final(self).has(w) == (old(self).has(w) || w == s@.subrange(i as int, s@.len() as int)),
            final(self).end_of_word || final(self).children@.len() > 0,
        decreases s@.len() - i,
    {
        let ghost tail = s@.subrange(i as int, s@.len() as int);
        if i == s.len() {
            let r = !self.end_of_word;
            self.end_of_word = true;
            proof {
                assert(tail =~= Seq::<char>::empty());
                old(self).lemma_has_split(tail);
                assert forall|w: Seq<char>| #[trigger] self.has(w) == (old(self).has(w) || w == tail) by {
                    old(self).lemma_has_split(w);
                    self.lemma_has_split(w);
                    assert(self.children == old(self).children);
                    assert(self.child_map() =~= old(self).child_map());
                    if w.len() == 0 {
                        assert(w =~= tail);
                    }
                }
                assert(self.wf());
            }
            return r;
        }
        let c = s[i];
        let ghost rest = s@.subrange(i as int + 1, s@.len() as int);
        proof {
            assert(tail[0] == c);
            assert(tail.drop_first() =~= rest);
        }
        match self.find_child(c) {
            Some(k) => {
                let (c0, mut child) = self.children.remove(k);
                proof {
                    old(self).lemma_child_at(k as int);
                }
                let r = child.insert_from(s, i + 1);
                self.children.insert(k, (c0, child));
                proof {
                    assert(self.children@ =~= old(self).children@.update(k as int, (c, child)));
                    old(self).lemma_child_map_update(*self, k as int, (c, child));
                    old(self).lemma_has_split(tail);
                    assert forall|w: Seq<char>| #[trigger] self.has(w) == (old(self).has(w) || w == tail) by {
                        old(self).lemma_has_split(w);
                        self.lemma_has_split(w);
                        if w.len() > 0 && w[0] == c {
                            if w.drop_first() == rest {
                                assert(seq![c] + rest =~= tail);
                                assert(seq![w[0]] + w.drop_first() =~= w);
                            }
                        }
                        if w == tail {
                            assert(w.drop_first() == rest);
                        }
                    }
                    assert forall|j: int| 0 <= j < self.children@.len() implies {
                        &&& (#[trigger] self.children@[j]).1.wf()
                        &&& (self.children@[j].1.end_of_word || self.children@[j].1.children@.len() > 0)
                    } by {
                        if j != k {
                            assert(self.children@[j] == old(self).children@[j]);
                        }
                    }
                }
                r
            },
            None => {
                let mut child = TrieNode::leaf();
                let ghost empty_child = child;
                let r = child.insert_from(s, i + 1);
                self.children.push((c, child));
                proof {
                    old(self).lemma_child_map_push(*self, (c, child));
                    old(self).lemma_has_split(tail);
                    assert forall|w: Seq<char>| #[trigger] self.has(w) == (old(self).has(w) || w == tail) by {
                        old(self).lemma_has_split(w);
                        self.lemma_has_split(w);
                        if w.len() > 0 && w[0] == c {
                            if w.drop_first() == rest {
                                assert(seq![c] + rest =~= tail);
                                assert(seq![w[0]] + w.drop_first() =~= w);
                            }
                            assert(!empty_child.has(w.drop_first())) by {
                                empty_child.lemma_has_split(w.drop_first());
                            }
                        }
                        if w == tail {
                            assert(w.drop_first() == rest);
                        }
                    }
                    assert(!empty_child.has(rest)) by {
                        empty_child.lemma_has_split(rest);
                    }
                    assert forall|j: int| 0 <= j < self.children@.len() implies {
                        &&& (#[trigger] self.children@[j]).1.wf()
                        &&& (self.children@[j].1.end_of_word || self.children@[j].1.children@.len() > 0)
                    } by {
                        if j < old(self).children@.len() {
                            assert(self.children@[j] == old(self).children@[j]);
                        }
                    }
                }
                r
            },
        }
    }

    /// Nothing below this node is lost by detaching one of its children.
    pub(crate) open spec fn keeps_after_cut(self) -> bool {
        self.end_of_word || self.children@.len() >= 2
    }

    /// How the prefix test reads through a common first character.
    pub(crate) proof fn lemma_prefix_cons(q: Seq<char>, w: Seq<char>)
        requires
            q.len() > 0,
            w.len() > 0,
            q[0] == w[0],
        ensures
            is_prefix(q, w) == is_prefix(q.drop_first(), w.drop_first()),
    {
        if is_prefix(q.drop_first(), w.drop_first()) {
            assert(w.subrange(0, q.len() as int) =~= seq![w[0]] + w.drop_first().subrange(0, q.len() - 1));
            assert(q =~= seq![q[0]] + q.drop_first());
        }
        if is_prefix(q, w) {
            assert(w.drop_first().subrange(0, q.len() - 1) =~= w.subrange(0, q.len() as int).drop_first());
        }
    }

    /// Detaches the child reached by `s[d..k + 1]`, dropping every string
    /// below this node that starts with that path.
    pub(crate) fn detach(&mut self, s: &Vec<char>, d: usize, k: usize)
        requires
            old(self).wf(),
            d <= k < s@.len(),
            old(self).reach(s@.subrange(d as int, k + 1)) is Some,
            k == 0 || old(self).reach(s@.subrange(d as int, k as int))->0.keeps_after_cut(),
        ensures
            final(self).wf(),
            final(self).end_of_word == old(self).end_of_word,
            forall|w: Seq<char>| #[trigger] final(self).has(w) == (old(self).has(w) && !is_prefix(s@.subrange(d as int, k + 1), w)),
            k > 0 ==> final(self).end_of_word || final(self).children@.len() > 0,
        decreases k - d,
    {
        let ghost q = s@.subrange(d as int, k + 1);
        let c = s[d];
        proof {
            assert(q[0] == c);
            old(self).lemma_reach_cons(c, q.drop_first());
            assert(seq![c] + q.drop_first() =~= q);
        }
        let idx = match self.find_child(c) {
            Some(i) => i,
            None => {
                return;
            },
        };
        proof {
            old(self).lemma_child_at(idx as int);
        }
        if d == k {
            self.children.remove(idx);
            proof {
                old(self).lemma_child_map_remove(*self, idx as int);
                assert(q =~= seq![c]);
                assert forall|w: Seq<char>| #[trigger] self.has(w) == (old(self).has(w) && !is_prefix(q, w)) by {
                    old(self).lemma_has_split(w);
                    self.lemma_has_split(w);
                    if w.len() > 0 && w[0] == c {
                        assert(w.subrange(0, 1) =~= q);
                    }
                }
                assert forall|j: int| 0 <= j < self.children@.len() implies {
                    &&& (#[trigger] self.children@[j]).1.wf()
                    &&& (self.children@[j].1.end_of_word || self.children@[j].1.children@.len() > 0)
                } by {
                    let jj = if j < idx { j } else { j + 1 };
                    assert(self.children@[j] == old(self).children@[jj]);
                }
                if k > 0 {
                    assert(s@.subrange(d as int, k as int) =~= Seq::<char>::empty());
                }
            }
        } else {
            let (c0, mut child) = self.children.remove(idx);
            proof {
                let p = s@.subrange(d as int, k as int);
                assert(p[0] == c);
                old(self).lemma_reach_cons(c, p.drop_first());
                assert(seq![c] + p.drop_first() =~= p);
                assert(p.drop_first() =~= s@.subrange(d + 1, k as int));
                assert(q.drop_first() =~= s@.subrange(d + 1, k + 1));
            }
            child.detach(s, d + 1, k);
            self.children.insert(idx, (c0, child));
            proof {
                assert(self.children@ =~= old(self).children@.update(idx as int, (c, child)));
                old(self).lemma_child_map_update(*self, idx as int, (c, child));
                assert forall|w: Seq<char>| #[trigger] self.has(w) == (old(self).has(w) && !is_prefix(q, w)) by {
                    old(self).lemma_has_split(w);
                    self.lemma_has_split(w);
                    if w.len() > 0 && w[0] == c {
                        TrieNode::lemma_prefix_cons(q, w);
                    }
                    if w.len() > 0 && w[0] != c {
                        if is_prefix(q, w) {
                            assert(w.subrange(0, q.len() as int)[0] == w[0]);
                        }
                    }
                }
                assert forall|j: int| 0 <= j < self.children@.len() implies {
                    &&& (#[trigger] self.children@[j]).1.wf()
                    &&& (self.children@[j].1.end_of_word || self.children@[j].1.children@.len() > 0)
                } by {
                    if j != idx {
                        assert(self.children@[j] == old(self).children@[j]);
                    }
                }
            }
        }
    }

    /// Unmarks the node at the end of `s[d..]`, which has children, so that
    /// exactly that string is no longer stored and no node is dropped.
    pub(crate) fn unmark_from(&mut self, s: &Vec<char>, d: usize)
        requires
            old(self).wf(),
            d <= s@.len(),
            old(self).reach(s@.subrange(d as int, s@.len() as int)) is Some,
            old(self).reach(s@.subrange(d as int, s@.len() as int))->0.children@.len() > 0,
        ensures
            final(self).wf(),
            d < s@.len() ==> final(self).end_of_word == old(self).end_of_word,
            forall|w: Seq<char>| #[trigger] final(self).has(w) == (old(self).has(w) && w != s@.subrange(d as int, s@.len() as int)),
            final(self).children@.len() > 0,
        decreases s@.len() - d,
    {
        let ghost q = s@.subrange(d as int, s@.len() as int);
        if d == s.len() {
            self.end_of_word = false;
            proof {
                assert(q =~= Seq::<char>::empty());
                assert forall|w: Seq<char>| #[trigger] self.has(w) == (old(self).has(w) && w != q) by {
                    old(self).lemma_has_split(w);
                    self.lemma_has_split(w);
                    assert(self.children == old(self).children);
                    assert(self.child_map() =~= old(self).child_map());
                    if w.len() == 0 {
                        assert(w =~= q);
                    }
                }
            }
            return;
        }
        let c = s[d];
        proof {
            assert(q[0] == c);
            old(self).lemma_reach_cons(c, q.drop_first());
            assert(seq![c] + q.drop_first() =~= q);
            assert(q.drop_first() =~= s@.subrange(d + 1, s@.len() as int));
        }
        let idx = match self.find_child(c) {
            Some(i) => i,
            None => {
                return;
            },
        };
        proof {
            old(self).lemma_child_at(idx as int);
        }
        let (c0, mut child) = self.children.remove(idx);
        child.unmark_from(s, d + 1);
        self.children.insert(idx, (c0, child));
        proof {
            assert(self.children@ =~= old(self).children@.update(idx as int, (c, child)));
            old(self).lemma_child_map_update(*self, idx as int, (c, child));
            assert forall|w: Seq<char>| #[trigger] self.has(w) == (old(self).has(w) && w != q) by {
                old(self).lemma_has_split(w);
                self.lemma_has_split(w);
                if w.len() > 0 && w[0] == c {
                    assert(w == q <==> w.drop_first() == q.drop_first()) by {
                        if w.drop_first() == q.drop_first() {
                            assert(w =~= seq![c] + w.drop_first());
                        }
                    }
                }
            }
            assert forall|j: int| 0 <= j < self.children@.len() implies {
                &&& (#[trigger] self.children@[j]).1.wf()
                &&& (self.children@[j].1.end_of_word || self.children@[j].1.children@.len() > 0)
            } by {
                if j != idx {
                    assert(self.children@[j] == old(self).children@[j]);
                }
            }
        }
    }

    /// The number of stored strings from this node on, its own included.
    pub(crate) open spec fn tally(self) -> int {
        (if self.end_of_word { 1int } else { 0int }) + self.listing().len()
    }

    /// The number of nodes from this node on.
    pub(crate) open spec fn weight(self) -> nat
        decreases self, self.children@.len() + 1,
    {
        1 + self.weight_from(0)
    }

    pub(crate) open spec fn weight_from(self, i: int) -> nat
        decreases self, self.children@.len() - i,
    {
        if 0 <= i < self.children@.len() {
            self.children@[i].1.weight() + self.weight_from(i + 1)
        } else {
            0
        }
    }

    proof fn lemma_listing_from_len(self, i: int)
        requires
            0 <= i < self.children@.len(),
        ensures
            self.listing_from(i).len() == self.children@[i].1.tally() + self.listing_from(i + 1).len(),
    {
    }

    /// Counts the stored strings from this node on, with an explicit stack.
    pub(crate) fn count_words(&self) -> (r: usize)
        requires
            self.tally() <= usize::MAX,
        ensures
            r == self.tally(),
    {
        let mut stack: Vec<&TrieNode> = Vec::new();
        stack.push(self);
        let mut count: usize = 0;
        proof {
            assert(stack@.drop_last() =~= Seq::<&TrieNode>::empty());
            assert(pending(stack@) == pending(stack@.drop_last()) + stack@.last().tally());
            assert(pending(stack@.drop_last()) == 0);
        }
        while stack.len() > 0
            invariant
                self.tally() <= usize::MAX,
                count + pending(stack@) == self.tally(),
            decreases load(stack@),
        {
            let ghost before = stack@;
            let node = stack.pop().unwrap();
            proof {
                assert(stack@ == before.drop_last());
                lemma_pending_nonneg(stack@);
                assert(node.listing() == node.listing_from(0));
            }
            if node.end_of_word {
                count += 1;
            }
            let ghost base_load = load(stack@);
            let mut j: usize = 0;
            while j < node.children.len()
                invariant
                    self.tally() <= usize::MAX,
                    j <= node.children@.len(),
                    count + pending(stack@) + node.listing_from(j as int).len() == self.tally(),
                    load(stack@) + node.weight_from(j as int) == base_load + node.weight_from(0),
                decreases node.children@.len() - j,
            {
                let ghost prev = stack@;
                stack.push(&node.children[j].1);
                proof {
                    assert(stack@.drop_last() =~= prev);
                    node.lemma_listing_from_len(j as int);
                }
                j += 1;
            }
        }
        assert(pending(stack@) == 0);
        count
    }
}

/// The strings still to be counted under the nodes on a stack.
pub(crate) open spec fn pending(st: Seq<&TrieNode>) -> int
    decreases st.len(),
{
    if st.len() == 0 {
        0
    } else {
        pending(st.drop_last()) + st.last().tally()
    }
}

/// The nodes still to be visited under the nodes on a stack.
pub(crate) open spec fn load(st: Seq<&TrieNode>) -> nat
    decreases st.len(),
{
    if st.len() == 0 {
        0
    } else {
        load(st.drop_last()) + st.last().weight()
    }
}

proof fn lemma_pending_nonneg(st: Seq<&TrieNode>)
    ensures
        pending(st) >= 0,
    decreases st.len(),
{
    if st.len() > 0 {
        lemma_pending_nonneg(st.drop_last());
    }
}

} // verus!
