use vstd::prelude::*;

use crate::node::{is_prefix, TrieNode};
use crate::text::{chars_of, string_of};

verus! {

broadcast use vstd::std_specs::vec::group_vec_axioms, vstd::seq::group_seq_axioms;

/// A set of non-empty strings held as a prefix tree, with a memoized count.
pub struct Trie {
    root: TrieNode,
    stored_size: Option<usize>,
}

/// The character sequences of a list of strings.
pub open spec fn strings_of(v: Seq<String>) -> Seq<Seq<char>> {
    v.map_values(|x: String| x@)
}

/// Each string of `ts`, with `p` put before it.
pub open spec fn prefixed(p: Seq<char>, ts: Seq<Seq<char>>) -> Seq<Seq<char>> {
    ts.map_values(|t: Seq<char>| p + t)
}

impl View for Trie {
    /// The non-empty strings that are stored.
    type V = Set<Seq<char>>;

    closed spec fn view(&self) -> Set<Seq<char>> {
        Set::new(|w: Seq<char>| w.len() > 0 && self.root.has(w))
    }
}

impl Trie {
    /// The tree is well formed, the root is never terminal, and a known count
    /// is the number of stored strings.
    pub closed spec fn wf(&self) -> bool {
        &&& self.root.wf()
        &&& !self.root.end_of_word
        &&& match self.stored_size {
            Some(n) => n as int == self.root.listing().len(),
            None => true,
        }
    }

    proof fn lemma_view(&self)
        requires
            self.root.wf(),
        ensures
            self@ == self.root.listing().to_set(),
            self@.finite(),
            self@.len() == self.root.listing().len(),
    {
        self.root.lemma_listing();
        assert(self@ =~= self.root.listing().to_set());
        self.root.listing().unique_seq_to_set();
    }

    /// Only finitely many strings are stored.
    pub proof fn lemma_finite(&self)
        requires
            self.wf(),
        ensures
            self@.finite(),
    {
        self.lemma_view();
    }

    /// The empty string is never stored.
    pub proof fn lemma_empty_not_stored(&self)
        ensures
            !self@.contains(Seq::<char>::empty()),
    {
    }

    /// A trie holding the non-empty strings of `sequence`, inserted in order.
    pub fn from_strs(sequence: &Vec<&str>) -> (r: Trie)
        ensures
            r.wf(),
            r@ == Set::new(
                |w: Seq<char>| w.len() > 0 && exists|j: int| 0 <= j < sequence@.len() && sequence@[j]@ == w,
            ),
    {
        let mut trie = Trie::new();
        let mut i: usize = 0;
        while i < sequence.len()
            invariant
                i <= sequence@.len(),
                trie.wf(),
                trie@ == Set::new(
                    |w: Seq<char>| w.len() > 0 && exists|j: int| 0 <= j < i && sequence@[j]@ == w,
                ),
            decreases sequence@.len() - i,
        {
            let ghost prev = trie@;
            trie.insert(sequence[i]);
            proof {
                assert(trie@ =~= Set::new(
                    |w: Seq<char>| w.len() > 0 && exists|j: int| 0 <= j < i + 1 && sequence@[j]@ == w,
                )) by {
                    assert forall|w: Seq<char>| #[trigger] trie@.contains(w) <==> (w.len() > 0 && exists|j: int| 0 <= j < i + 1 && sequence@[j]@ == w) by {
                        if w.len() > 0 && (exists|j: int| 0 <= j < i + 1 && sequence@[j]@ == w) {
                            let j = choose|j: int| 0 <= j < i + 1 && sequence@[j]@ == w;
                            if j < i {
                                assert(prev.contains(w));
                            }
                        }
                        if prev.contains(w) {
                            let j = choose|j: int| 0 <= j < i && sequence@[j]@ == w;
                            assert(0 <= j < i + 1 && sequence@[j]@ == w);
                        }
                        if w == sequence@[i as int]@ && w.len() > 0 {
                            assert(0 <= i < i + 1 && sequence@[i as int]@ == w);
                        }
                    }
                }
            }
            i += 1;
        }
        trie
    }

    /// An empty trie.
    pub fn new() -> (r: Trie)
        ensures
            r.wf(),
            r@ == Set::<Seq<char>>::empty(),
    {
        let r = Trie { root: TrieNode::leaf(), stored_size: Some(0) };
        proof {
            r.lemma_view();
            assert(r@ =~= Set::<Seq<char>>::empty());
        }
        r
    }

    /// The number of stored strings. A known count is returned as it is;
    /// otherwise the tree is walked, and the count is kept for later calls.
    pub fn size(&mut self) -> (r: usize)
        requires
            old(self).wf(),
            old(self)@.len() <= usize::MAX,
        ensures
            final(self).wf(),
            final(self)@ == old(self)@,
            r == old(self)@.len(),
    {
        proof {
            self.lemma_view();
        }
        if let Some(n) = self.stored_size {
            return n;
        }
        let n = self.root.count_words();
        self.stored_size = Some(n);
        n
    }

    /// Adds one to (`incr`) or takes one from the known count; an unknown count
    /// stays unknown, a count of zero is not decremented, and a count that would
    /// overflow becomes unknown.
    fn edit_size(&mut self, incr: bool)
        ensures
            final(self).root == old(self).root,
            final(self).stored_size == match old(self).stored_size {
                Some(n) => if incr {
                    if n < usize::MAX {
                        Some((n + 1) as usize)
                    } else {
                        None
                    }
                } else if n > 0 {
                    Some((n - 1) as usize)
                } else {
                    Some(n)
                },
                None => None,
            },
    {
        let size = match self.stored_size {
            Some(s) => s,
            None => {
                return;
            },
        };
        if incr {
            if size < usize::MAX {
                self.stored_size = Some(size + 1);
            } else {
                self.stored_size = None;
            }
        } else if size != 0 {
            self.stored_size = Some(size - 1);
        }
    }

    /// True iff no string is stored.
    pub fn is_empty(&self) -> (r: bool)
        requires
            self.wf(),
        ensures
            r == (self@.len() == 0),
    {
        proof {
            self.lemma_view();
            if self.root.children@.len() > 0 {
                let c = self.root.children@[0].0;
                let m = self.root.children@[0].1;
                self.root.lemma_child_at(0);
                let t = m.lemma_stores_some();
                self.root.lemma_has_split(seq![c] + t);
                assert((seq![c] + t).drop_first() =~= t);
                assert(self@.contains(seq![c] + t));
            } else {
                assert forall|w: Seq<char>| !self@.contains(w) by {
                    self.root.lemma_has_split(w);
                }
                assert(self@ =~= Set::<Seq<char>>::empty());
            }
        }
        self.root.children.len() == 0
    }

    /// Removes every string.
    pub fn clear(&mut self)
        requires
            old(self).wf(),
        ensures
            final(self).wf(),
            final(self)@ == Set::<Seq<char>>::empty(),
    {
        self.root = TrieNode::leaf();
        self.stored_size = Some(0);
        proof {
            self.lemma_view();
            assert(self@ =~= Set::<Seq<char>>::empty());
        }
    }

    /// Stores `s`; true iff `s` is non-empty and was not stored before.
    pub fn insert(&mut self, s: &str) -> (r: bool)
        requires
            old(self).wf(),
        ensures
            final(self).wf(),
            r == (s@.len() > 0 && !old(self)@.contains(s@)),
            final(self)@ == if s@.len() > 0 {
                old(self)@.insert(s@)
            } else {
                old(self)@
            },
    {
        if s.is_empty() {
            return false;
        }
        let chars = chars_of(s);
        proof {
            assert(chars@.subrange(0, chars@.len() as int) =~= chars@);
            old(self).lemma_view();
        }
        let is_new = self.root.insert_from(&chars, 0);
        proof {
            assert(self@ =~= old(self)@.insert(s@));
            self.lemma_view();
            self.root.lemma_has_split(Seq::empty());
            old(self).root.lemma_has_split(Seq::empty());
            assert(!self.root.has(Seq::empty()));
            if is_new {
                assert(self@.len() == old(self)@.len() + 1);
            } else {
                assert(self@ =~= old(self)@);
            }
        }
        if is_new {
            self.edit_size(true);
        }
        is_new
    }

    /// True iff `s` is stored.
    pub fn contains(&self, s: &str) -> (r: bool)
        requires
            self.wf(),
        ensures
            r == self@.contains(s@),
    {
        let chars = chars_of(s);
        match self.root.descend(&chars) {
            Some(node) => node.end_of_word,
            None => false,
        }
    }

    /// True iff `s` is empty or is a prefix of some stored string.
    pub fn contains_pref(&self, s: &str) -> (r: bool)
        requires
            self.wf(),
        ensures
            r == (s@.len() == 0 || exists|w: Seq<char>| self@.contains(w) && is_prefix(s@, w)),
    {
        let chars = chars_of(s);
        let found = self.root.descend(&chars);
        proof {
            if s@.len() > 0 {
                self.lemma_prefix_path(s@);
            }
        }
        found.is_some()
    }

    /// A non-empty path exists exactly when it leads to some stored string.
    proof fn lemma_prefix_path(&self, p: Seq<char>)
        requires
            self.wf(),
            p.len() > 0,
        ensures
            self.root.reach(p) is Some <==> exists|w: Seq<char>| self@.contains(w) && is_prefix(p, w),
    {
        if self.root.reach(p) is Some {
            self.root.lemma_reach_wf(p);
            let n = self.root.reach(p)->0;
            let t = n.lemma_stores_some();
            self.root.lemma_reach_append(p, t);
            assert((p + t).subrange(0, p.len() as int) =~= p);
            assert(self@.contains(p + t));
            assert(is_prefix(p, p + t));
        }
        if exists|w: Seq<char>| self@.contains(w) && is_prefix(p, w) {
            let w = choose|w: Seq<char>| self@.contains(w) && is_prefix(p, w);
            assert(self.root.has(w));
            let rest = w.subrange(p.len() as int, w.len() as int);
            assert(p + rest =~= w);
            self.root.lemma_reach_append(p, rest);
        }
    }

    /// Cutting the tree below `s[..k]`, at the edge `s[k]`, loses no node that
    /// something else needs, and drops only strings that start with `s[..i]`.
    closed spec fn cut_ok(&self, s: Seq<char>, k: int, i: int) -> bool {
        &&& 0 <= k < i <= s.len()
        &&& (k == 0 || self.root.reach(s.subrange(0, k))->0.keeps_after_cut())
        &&& forall|w: Seq<char>|
            #![trigger self.root.has(w), is_prefix(s.subrange(0, k + 1), w)]
            self.root.has(w) && is_prefix(s.subrange(0, k + 1), w) ==> is_prefix(s.subrange(0, i), w)
    }

    /// Passing a node that is not terminal and has a single child keeps a cut
    /// point valid one step further down.
    proof fn lemma_cut_extends(&self, s: Seq<char>, k: int, i: int, node: TrieNode)
        requires
            self.wf(),
            self.cut_ok(s, k, i),
            i < s.len(),
            self.root.reach(s.subrange(0, i)) == Some(node),
            !node.end_of_word,
            node.children@.len() <= 1,
            node.has_child(s[i]),
        ensures
            self.cut_ok(s, k, i + 1),
    {
        let p = s.subrange(0, i);
        assert forall|w: Seq<char>|
            #![trigger self.root.has(w), is_prefix(s.subrange(0, k + 1), w)]
            self.root.has(w) && is_prefix(s.subrange(0, k + 1), w) implies is_prefix(s.subrange(0, i + 1), w) by {
            assert(is_prefix(p, w));
            if w.len() == i {
                assert(w =~= p);
                assert(false);
            }
            let rest = w.subrange(i + 1, w.len() as int);
            let head = w.subrange(0, i + 1);
            assert(head + rest =~= w);
            self.root.lemma_reach_append(head, rest);
            assert(p + seq![w[i]] =~= head);
            self.root.lemma_reach_append(p, seq![w[i]]);
            node.lemma_reach_cons(w[i], Seq::empty());
            assert(seq![w[i]] + Seq::<char>::empty() =~= seq![w[i]]);
            let a = node.child_index(w[i]);
            let b = node.child_index(s[i]);
            assert(a == 0 && b == 0);
            assert(head =~= s.subrange(0, i + 1));
        }
    }

    /// Walks the path `s` from the root. None when the path is absent;
    /// otherwise the cut point (if any), whether the final node is terminal,
    /// and whether it has children. With `whole_subtree` a branching final
    /// node does not prevent a cut, as all that lies below it is to go.
    fn cut_point(&self, s: &Vec<char>, whole_subtree: bool) -> (r: Option<(Option<usize>, bool, bool)>)
        requires
            self.wf(),
            s@.len() > 0,
        ensures
            r is None <==> self.root.reach(s@) is None,
            r matches Some((cut, e, h)) ==> {
                let target = self.root.reach(s@)->0;
                &&& e == target.end_of_word
                &&& h == (target.children@.len() > 0)
                &&& (cut matches Some(k) ==> self.cut_ok(s@, k as int, s@.len() as int))
                &&& ((whole_subtree || !h) ==> cut is Some)
            },
    {
        let mut node: &TrieNode = &self.root;
        let mut cut: Option<usize> = None;
        let mut i: usize = 0;
        while i < s.len()
            invariant
                self.wf(),
                s@.len() > 0,
                i <= s@.len(),
                self.root.reach(s@.subrange(0, i as int)) == Some(*node),
                cut matches Some(k) ==> self.cut_ok(s@, k as int, i as int),
                i < s@.len() && cut is Some ==> node.children@.len() <= 1,
                i > 0 && node.children@.len() <= 1 ==> cut is Some,
                whole_subtree && i == s@.len() ==> cut is Some,
            decreases s@.len() - i,
        {
            let ghost p = s@.subrange(0, i as int);
            proof {
                self.root.lemma_reach_wf(p);
                self.root.lemma_reach_append(p, seq![s@[i as int]]);
                assert(p + seq![s@[i as int]] =~= s@.subrange(0, i as int + 1));
                node.lemma_reach_cons(s@[i as int], Seq::empty());
                assert(seq![s@[i as int]] + Seq::<char>::empty() =~= seq![s@[i as int]]);
            }
            let ghost entering = cut;
            if node.end_of_word {
                cut = None;
            }
            let idx = match node.find_child(s[i]) {
                Some(k) => k,
                None => {
                    proof {
                        self.root.lemma_reach_append(s@.subrange(0, i as int + 1), s@.subrange(i as int + 1, s@.len() as int));
                        assert(s@.subrange(0, i as int + 1) + s@.subrange(i as int + 1, s@.len() as int) =~= s@);
                    }
                    return None;
                },
            };
            let next = &node.children[idx].1;
            if next.children.len() > 1 && !(whole_subtree && i == s.len() - 1) {
                cut = None;
            } else if cut.is_none() {
                cut = Some(i);
                proof {
                    assert(s@.subrange(0, i as int) =~= p);
                    assert forall|w: Seq<char>|
                        #![trigger self.root.has(w), is_prefix(s@.subrange(0, i as int + 1), w)]
                        self.root.has(w) && is_prefix(s@.subrange(0, i as int + 1), w) implies is_prefix(
                        s@.subrange(0, i as int + 1), w) by {}
                }
            } else {
                proof {
                    let k = entering->0;
                    self.lemma_cut_extends(s@, k as int, i as int, *node);
                }
            }
            node = next;
            i += 1;
        }
        assert(s@.subrange(0, s@.len() as int) =~= s@);
        Some((cut, node.end_of_word, node.children.len() > 0))
    }

    /// Removes `s`; true iff it was stored. Only the nodes that no other
    /// stored string passes through are dropped.
    pub fn remove(&mut self, s: &str) -> (r: bool)
        requires
            old(self).wf(),
        ensures
            final(self).wf(),
            r == old(self)@.contains(s@),
            final(self)@ == old(self)@.remove(s@),
    {
        proof {
            old(self).lemma_view();
        }
        if s.is_empty() {
            proof {
                assert(old(self)@.remove(s@) =~= old(self)@);
            }
            return false;
        }
        let chars = chars_of(s);
        let found = self.cut_point(&chars, false);
        let (cut, end, has_children) = match found {
            None => {
                proof {
                    assert(old(self)@.remove(s@) =~= old(self)@);
                }
                return false;
            },
            Some(x) => x,
        };
        if !end {
            proof {
                assert(old(self)@.remove(s@) =~= old(self)@);
            }
            return false;
        }
        proof {
            assert(chars@.subrange(0, chars@.len() as int) =~= chars@);
        }
        if has_children {
            self.root.unmark_from(&chars, 0);
        } else {
            // A final node without children always yields a cut point.
            let k = match cut {
                Some(k) => k,
                None => {
                    return false;
                },
            };
            proof {
                old(self).root.lemma_reach_append(chars@.subrange(0, k + 1), chars@.subrange(k + 1, chars@.len() as int));
                assert(chars@.subrange(0, k + 1) + chars@.subrange(k + 1, chars@.len() as int) =~= chars@);
            }
            self.root.detach(&chars, 0, k);
            proof {
                let target = old(self).root.reach(s@)->0;
                assert forall|w: Seq<char>| #[trigger] old(self).root.has(w) && is_prefix(s@, w) implies w == s@ by {
                    let t = w.subrange(s@.len() as int, w.len() as int);
                    assert(s@ + t =~= w);
                    old(self).root.lemma_reach_append(s@, t);
                    target.lemma_has_split(t);
                }
                assert forall|w: Seq<char>| #[trigger] old(self).root.has(w) && w == s@ implies is_prefix(
                    chars@.subrange(0, k + 1), w) by {}
            }
        }
        proof {
            assert(self@ =~= old(self)@.remove(s@));
            self.lemma_view();
            self.root.lemma_has_split(Seq::empty());
            old(self).root.lemma_has_split(Seq::empty());
            assert(self@.len() == old(self)@.len() - 1);
        }
        self.edit_size(false);
        true
    }

    /// Removes every stored string that starts with `s`; true iff `s` is
    /// non-empty and some stored string starts with it.
    pub fn remove_pref(&mut self, s: &str) -> (r: bool)
        requires
            old(self).wf(),
        ensures
            final(self).wf(),
            r == (s@.len() > 0 && exists|w: Seq<char>| old(self)@.contains(w) && is_prefix(s@, w)),
            final(self)@ == if s@.len() > 0 {
                old(self)@.filter(|w: Seq<char>| !is_prefix(s@, w))
            } else {
                old(self)@
            },
    {
        if s.is_empty() {
            return false;
        }
        let chars = chars_of(s);
        proof {
            self.lemma_prefix_path(s@);
            assert(chars@.subrange(0, chars@.len() as int) =~= chars@);
        }
        if chars.len() == 1 {
            // One character: the root's edge for it goes, with all below it.
            match self.root.find_child(chars[0]) {
                None => {
                    proof {
                        self.root.lemma_reach_cons(chars@[0], Seq::empty());
                        assert(seq![chars@[0]] + Seq::<char>::empty() =~= chars@);
                        assert(old(self)@.filter(|w: Seq<char>| !is_prefix(s@, w)) =~= old(self)@);
                    }
                    return false;
                },
                Some(_) => {
                    proof {
                        self.root.lemma_reach_cons(chars@[0], Seq::empty());
                        assert(seq![chars@[0]] + Seq::<char>::empty() =~= chars@);
                    }
                    self.root.detach(&chars, 0, 0);
                },
            }
        } else {
            let found = self.cut_point(&chars, true);
            let k = match found {
                None => {
                    proof {
                        assert(old(self)@.filter(|w: Seq<char>| !is_prefix(s@, w)) =~= old(self)@);
                    }
                    return false;
                },
                Some((Some(k), _, _)) => k,
                // A walk over the whole subtree always yields a cut point.
                Some((None, _, _)) => {
                    return false;
                },
            };
            proof {
                old(self).root.lemma_reach_append(chars@.subrange(0, k + 1), chars@.subrange(k + 1, chars@.len() as int));
                assert(chars@.subrange(0, k + 1) + chars@.subrange(k + 1, chars@.len() as int) =~= chars@);
            }
            self.root.detach(&chars, 0, k);
            proof {
                assert forall|w: Seq<char>| #[trigger] is_prefix(s@, w) implies is_prefix(chars@.subrange(0, k + 1), w) by {
                    assert(w.subrange(0, k + 1) =~= s@.subrange(0, k + 1));
                }
            }
        }
        self.stored_size = None;
        proof {
            if chars@.len() == 1 {
                assert(chars@.subrange(0, 1) =~= s@);
            }
            assert(self@ =~= old(self)@.filter(|w: Seq<char>| !is_prefix(s@, w)));
            self.root.lemma_has_split(Seq::empty());
            old(self).root.lemma_has_split(Seq::empty());
        }
        true
    }

    /// Appends, depth first, every string stored strictly below `node`, each
    /// with `tmp_string` put before it.
    fn walk_nodes(&self, tmp_string: &mut Vec<char>, node: &TrieNode, all_strings: &mut Vec<String>)
        requires
            node.wf(),
        ensures
            final(tmp_string)@ == old(tmp_string)@,
            strings_of(final(all_strings)@) == strings_of(old(all_strings)@) + prefixed(
                old(tmp_string)@,
                node.listing(),
            ),
        decreases node,
    {
        let ghost base = tmp_string@;
        let mut i: usize = 0;
        proof {
            assert(strings_of(all_strings@) + prefixed(base, node.listing_from(0)) =~= strings_of(
                old(all_strings)@) + prefixed(base, node.listing()));
        }
        while i < node.children.len()
            invariant
                node.wf(),
                i <= node.children@.len(),
                tmp_string@ == base,
                base == old(tmp_string)@,
                strings_of(all_strings@) + prefixed(base, node.listing_from(i as int)) == strings_of(
                    old(all_strings)@) + prefixed(base, node.listing()),
            decreases node.children@.len() - i,
        {
            let c = node.children[i].0;
            let next = &node.children[i].1;
            let ghost before = strings_of(all_strings@);
            let ghost a: Seq<Seq<char>> = if next.end_of_word {
                seq![seq![c]]
            } else {
                Seq::empty()
            };
            let ghost b = next.listing().map_values(|t: Seq<char>| seq![c] + t);
            let ghost rest = node.listing_from(i as int + 1);
            assert(node.listing_from(i as int) == a + b + rest);
            assert(prefixed(base, a + b + rest) =~= prefixed(base, a) + prefixed(base, b) + prefixed(base, rest));
            assert(prefixed(base, b) =~= prefixed(base.push(c), next.listing())) by {
                assert forall|j: int| 0 <= j < b.len() implies #[trigger] prefixed(base, b)[j] == prefixed(base.push(c), next.listing())[j] by {
                    assert(base + (seq![c] + next.listing()[j]) =~= base.push(c) + next.listing()[j]);
                }
            }
            tmp_string.push(c);
            if next.end_of_word {
                let w = string_of(tmp_string);
                all_strings.push(w);
                proof {
                    assert(base + seq![c] =~= base.push(c));
                    assert(prefixed(base, a) =~= seq![base.push(c)]);
                    assert(strings_of(all_strings@) =~= before + prefixed(base, a));
                }
            } else {
                proof {
                    assert(strings_of(all_strings@) =~= before + prefixed(base, a));
                }
            }
            let ghost mid = strings_of(all_strings@);
            if next.children.len() > 0 {
                self.walk_nodes(tmp_string, next, all_strings);
            } else {
                proof {
                    assert(next.listing() =~= Seq::<Seq<char>>::empty());
                    assert(strings_of(all_strings@) =~= mid + prefixed(base.push(c), next.listing()));
                }
            }
            tmp_string.pop();
            proof {
                assert(tmp_string@ =~= base);
                assert(strings_of(all_strings@) + prefixed(base, rest) =~= before + prefixed(base, a + b + rest));
            }
            i += 1;
        }
        proof {
            assert(node.listing_from(i as int) =~= Seq::<Seq<char>>::empty());
            assert(strings_of(all_strings@) =~= strings_of(all_strings@) + prefixed(base, node.listing_from(i as int)));
        }
    }

    /// Every stored string, once each, depth first: strings that share a
    /// prefix come together.
    pub fn as_vec(&self) -> (r: Vec<String>)
        requires
            self.wf(),
        ensures
            strings_of(r@).to_set() == self@,
            strings_of(r@).no_duplicates(),
            r@.len() == self@.len(),
    {
        let mut strings: Vec<String> = Vec::new();
        let mut tmp: Vec<char> = Vec::new();
        self.walk_nodes(&mut tmp, &self.root, &mut strings);
        proof {
            self.lemma_view();
            self.root.lemma_listing();
            assert(prefixed(Seq::empty(), self.root.listing()) =~= self.root.listing()) by {
                assert forall|j: int| 0 <= j < self.root.listing().len() implies #[trigger] prefixed(Seq::empty(), self.root.listing())[j] == self.root.listing()[j] by {
                    assert(Seq::<char>::empty() + self.root.listing()[j] =~= self.root.listing()[j]);
                }
            }
            assert(strings_of(strings@) =~= self.root.listing());
        }
        strings
    }

    /// Every stored string that starts with `s`, once each; nothing for an
    /// empty `s`.
    pub fn as_vec_pref(&self, s: &str) -> (r: Vec<String>)
        requires
            self.wf(),
        ensures
            strings_of(r@).to_set() == if s@.len() > 0 {
                self@.filter(|w: Seq<char>| is_prefix(s@, w))
            } else {
                Set::<Seq<char>>::empty()
            },
            strings_of(r@).no_duplicates(),
    {
        if s.is_empty() {
            let r: Vec<String> = Vec::new();
            proof {
                assert(strings_of(r@).to_set() =~= Set::<Seq<char>>::empty());
            }
            return r;
        }
        let mut strings: Vec<String> = Vec::new();
        let mut chars = chars_of(s);
        let node = match self.root.descend(&chars) {
            Some(n) => n,
            None => {
                proof {
                    assert(strings_of(strings@).to_set() =~= Set::<Seq<char>>::empty());
                    assert(self@.filter(|w: Seq<char>| is_prefix(s@, w)) =~= Set::<Seq<char>>::empty()) by {
                        assert forall|w: Seq<char>| self@.contains(w) && is_prefix(s@, w) implies false by {
                            let rest = w.subrange(s@.len() as int, w.len() as int);
                            assert(s@ + rest =~= w);
                            self.root.lemma_reach_append(s@, rest);
                        }
                    }
                }
                return strings;
            },
        };
        if node.end_of_word {
            strings.push(s.to_owned());
        }
        let ghost first = strings_of(strings@);
        proof {
            assert(first =~= if node.end_of_word { seq![s@] } else { Seq::<Seq<char>>::empty() });
            self.root.lemma_reach_wf(s@);
        }
        self.walk_nodes(&mut chars, node, &mut strings);
        proof {
            let below = prefixed(s@, node.listing());
            node.lemma_listing();
            assert(strings_of(strings@) == first + below);
            assert forall|t: Seq<char>| #[trigger] self.root.has(s@ + t) == node.has(t) by {
                self.root.lemma_reach_append(s@, t);
            }
            assert forall|w: Seq<char>| #[trigger] below.contains(w) <==> (self@.contains(w) && is_prefix(s@, w) && w.len() > s@.len()) by {
                if below.contains(w) {
                    let j = choose|j: int| 0 <= j < below.len() && below[j] == w;
                    let t = node.listing()[j];
                    assert(node.listing().contains(t));
                    assert(w == s@ + t);
                    assert(w.subrange(0, s@.len() as int) =~= s@);
                }
                if self@.contains(w) && is_prefix(s@, w) && w.len() > s@.len() {
                    let t = w.subrange(s@.len() as int, w.len() as int);
                    assert(s@ + t =~= w);
                    assert(node.listing().contains(t));
                    let j = choose|j: int| 0 <= j < node.listing().len() && node.listing()[j] == t;
                    assert(below[j] == w);
                }
            }
            let f = |t: Seq<char>| s@ + t;
            assert(vstd::relations::injective(f)) by {
                assert forall|x: Seq<char>, y: Seq<char>| #[trigger] f(x) == #[trigger] f(y) implies x == y by {
                    assert(f(x).subrange(s@.len() as int, f(x).len() as int) =~= x);
                    assert(f(y).subrange(s@.len() as int, f(y).len() as int) =~= y);
                }
            }
            node.listing().lemma_no_duplicates_injective(f);
            assert(self.root.has(s@) == node.end_of_word) by {
                assert(s@ + Seq::<char>::empty() =~= s@);
            }
            assert forall|x: int, y: int| 0 <= x < first.len() && 0 <= y < below.len() implies first[x] != below[y] by {
                assert(below.contains(below[y]));
            }
            vstd::seq_lib::lemma_no_dup_in_concat(first, below);
            assert forall|w: Seq<char>| #[trigger] strings_of(strings@).contains(w) <==> (self@.contains(w) && is_prefix(s@, w)) by {
                broadcast use vstd::seq_lib::group_seq_properties;
                assert(first.contains(w) <==> (node.end_of_word && w == s@));
                if w == s@ {
                    assert(w.subrange(0, s@.len() as int) =~= w);
                }
                if is_prefix(s@, w) && w.len() == s@.len() {
                    assert(w =~= s@);
                }
            }
            assert(strings_of(strings@).to_set() =~= self@.filter(|w: Seq<char>| is_prefix(s@, w)));
        }
        strings
    }
}

} // verus!
