use vstd::prelude::*;
use vstd::std_specs::iter::IteratorSpec;

verus! {

broadcast use vstd::std_specs::vec::group_vec_axioms;

/// A node of a prefix tree of words; the root stands for the empty prefix.
pub struct TrieNode {
    current: char,
    children: Vec<TrieNode>,
    is_end: bool,
}

/// The characters of `word`, in order.
fn chars_of(word: &str) -> (r: Vec<char>)
    ensures
        r@ == word@,
{
    let mut it = word.chars();
    let mut out: Vec<char> = Vec::new();
    loop
        invariant
            out@ + it.remaining() == word@,
            it.decrease() is Some,
        ensures
            out@ == word@,
        decreases it.decrease()->0,
    {
        match it.next() {
            Some(c) => {
                let ghost rest = it.remaining();
                out.push(c);
                assert(out@ + rest =~= word@);
            },
            None => {
                assert(out@ + it.remaining() =~= out@);
                break;
            },
        }
    }
    out
}

/// Two non-empty sequences with the same first element and the same rest are equal.
proof fn lemma_same_head_tail(u: Seq<char>, v: Seq<char>)
    requires
        u.len() > 0,
        v.len() > 0,
        u[0] == v[0],
        u.drop_first() == v.drop_first(),
    ensures
        u == v,
{
    assert(u =~= seq![u[0]] + u.drop_first());
    assert(v =~= seq![v[0]] + v.drop_first());
}

impl TrieNode {
    /// The character on the edge that leads to this node.
    pub closed spec fn label(&self) -> char {
        self.current
    }

    /// Whether the word `w` ends at or below this node, `w` being read from here.
    pub closed spec fn has(&self, w: Seq<char>) -> bool
        decreases w.len(),
    {
        if w.len() == 0 {
            self.is_end
        } else {
            exists|i: int|
                0 <= i < self.children@.len() && self.children@[i].current == w[0]
                    && (#[trigger] self.children@[i]).has(w.drop_first())
        }
    }

    /// The words stored below this node.
    pub closed spec fn view(&self) -> Set<Seq<char>> {
        Set::new(|w: Seq<char>| self.has(w))
    }

    /// Siblings carry distinct characters, at every level.
    pub closed spec fn wf(&self) -> bool
        decreases self,
    {
        &&& forall|i: int, j: int|
            0 <= i < self.children@.len() && 0 <= j < self.children@.len() && i != j
                ==> #[trigger] self.children@[i].current != #[trigger] self.children@[j].current
        &&& forall|i: int|
            0 <= i < self.children@.len() ==> (#[trigger] self.children@[i]).wf()
    }

    /// Holds no word and has no children.
    pub closed spec fn bare(&self) -> bool {
        !self.is_end && self.children@.len() == 0
    }

    /// A node labelled `a` with no words below it.
    pub fn new(a: char) -> (r: Self)
        ensures
            r.wf(),
            r.label() == a,
            r@ == Set::<Seq<char>>::empty(),
            r.bare(),
    {
        let r = TrieNode { current: a, children: Vec::new(), is_end: false };
        assert(r@ =~= Set::<Seq<char>>::empty());
        r
    }

    /// Position of the child labelled `c`, if there is one.
    fn find_child(&self, c: char) -> (r: Option<usize>)
        ensures
            match r {
                Some(j) => j < self.children@.len() && self.children@[j as int].current == c,
                None => forall|i: int|
                    0 <= i < self.children@.len() ==> self.children@[i].current != c,
            },
    {
        let mut j: usize = 0;
        while j < self.children.len()
            invariant
                j <= self.children@.len(),
                forall|i: int| 0 <= i < j ==> self.children@[i].current != c,
            decreases self.children@.len() - j,
        {
            if self.children[j].current == c {
                return Some(j);
            }
            j = j + 1;
        }
        None
    }

    /// Where siblings are distinct, the word `w` (not empty) lies below exactly when
    /// it lies below the child labelled with its first character.
    proof fn lemma_has_via(&self, w: Seq<char>, j: int)
        requires
            self.wf(),
            w.len() > 0,
            0 <= j < self.children@.len(),
            self.children@[j].current == w[0],
        ensures
            self.has(w) == self.children@[j].has(w.drop_first()),
    {
        if self.has(w) {
            let i = choose|i: int|
                0 <= i < self.children@.len() && self.children@[i].current == w[0]
                    && (#[trigger] self.children@[i]).has(w.drop_first());
            if i != j {
                assert(self.children@[i].current != self.children@[j].current);
            }
        }
    }

    /// Whether `w[i..]` lies below this node.
    fn search_from(&self, w: &Vec<char>, i: usize) -> (r: bool)
        requires
            self.wf(),
            i <= w@.len(),
        ensures
            r == self.has(w@.skip(i as int)),
        decreases w@.len() - i,
    {
        if i == w.len() {
            return self.is_end;
        }
        let ghost u = w@.skip(i as int);
        assert(u.drop_first() =~= w@.skip(i + 1));
        match self.find_child(w[i]) {
            Some(j) => {
                proof {
                    self.lemma_has_via(u, j as int);
                }
                self.children[j].search_from(w, i + 1)
            },
            None => false,
        }
    }

    /// Whether `word` is stored.
    pub fn search(&self, word: &str) -> (r: bool)
        requires
            self.wf(),
        ensures
            r == self@.contains(word@),
    {
        let w = chars_of(word);
        assert(w@.skip(0) =~= w@);
        self.search_from(&w, 0)
    }

    /// Adds `w[i..]` below this node.
    fn insert_from(&mut self, w: &Vec<char>, i: usize)
        requires
            old(self).wf(),
            i <= w@.len(),
        ensures
            final(self).wf(),
            final(self).current == old(self).current,
            forall|u: Seq<char>| #[trigger] final(self).has(u) == (old(self).has(u) || u == w@.skip(i as int)),
        decreases w@.len() - i,
    {
        let ghost u0 = w@.skip(i as int);
        let ghost before = *self;
        if i == w.len() {
            self.is_end = true;
            assert forall|u: Seq<char>| #[trigger] self.has(u) == (before.has(u) || u == u0) by {
                if u.len() == 0 {
                    assert(u =~= u0);
                } else {
                    assert(u != u0);
                    assert(self.children@ == before.children@);
                }
            }
            return;
        }
        assert(u0.drop_first() =~= w@.skip(i + 1));
        let c = w[i];
        assert(u0.len() > 0 && u0[0] == c);
        match self.find_child(c) {
            Some(j) => {
                let ghost old_child = self.children@[j as int];
                self.children[j].insert_from(w, i + 1);
                let ghost new_child = self.children@[j as int];
                assert forall|a: int| 0 <= a < self.children@.len() && a != j implies
                    self.children@[a] == before.children@[a] by {}
                assert forall|u: Seq<char>| #[trigger] self.has(u) == (before.has(u) || u == u0) by {
                    if u.len() > 0 {
                        if u[0] == c {
                            self.lemma_has_via(u, j as int);
                            before.lemma_has_via(u, j as int);
                            if u.drop_first() == u0.drop_first() {
                                lemma_same_head_tail(u, u0);
                            }
                        } else {
                            assert(u != u0);
                            if self.has(u) {
                                let a = choose|a: int|
                                    0 <= a < self.children@.len() && self.children@[a].current == u[0]
                                        && (#[trigger] self.children@[a]).has(u.drop_first());
                                assert(before.children@[a] == self.children@[a]);
                            }
                            if before.has(u) {
                                let a = choose|a: int|
                                    0 <= a < before.children@.len() && before.children@[a].current == u[0]
                                        && (#[trigger] before.children@[a]).has(u.drop_first());
                                assert(before.children@[a] == self.children@[a]);
                            }
                        }
                    } else {
                        assert(u != u0);
                    }
                }
            },
            None => {
                let mut child = TrieNode::new(c);
                child.insert_from(w, i + 1);
                self.children.push(child);
                let ghost k = before.children@.len() as int;
                assert forall|u: Seq<char>| #[trigger] self.has(u) == (before.has(u) || u == u0) by {
                    if u.len() > 0 {
                        if u[0] == c {
                            self.lemma_has_via(u, k);
                            if before.has(u) {
                                let a = choose|a: int|
                                    0 <= a < before.children@.len() && before.children@[a].current == u[0]
                                        && (#[trigger] before.children@[a]).has(u.drop_first());
                            }
                            if u.drop_first() == u0.drop_first() {
                                lemma_same_head_tail(u, u0);
                            }
                        } else {
                            assert(u != u0);
                            if self.has(u) {
                                let a = choose|a: int|
                                    0 <= a < self.children@.len() && self.children@[a].current == u[0]
                                        && (#[trigger] self.children@[a]).has(u.drop_first());
                                assert(before.children@[a] == self.children@[a]);
                            }
                            if before.has(u) {
                                let a = choose|a: int|
                                    0 <= a < before.children@.len() && before.children@[a].current == u[0]
                                        && (#[trigger] before.children@[a]).has(u.drop_first());
                                assert(before.children@[a] == self.children@[a]);
                            }
                        }
                    } else {
                        assert(u != u0);
                    }
                }
            },
        }
    }

    /// Stores `word`.
    pub fn insert(&mut self, word: &str)
        requires
            old(self).wf(),
        ensures
            final(self).wf(),
            final(self).label() == old(self).label(),
            final(self)@ == old(self)@.insert(word@),
    {
        let w = chars_of(word);
        assert(w@.skip(0) =~= w@);
        self.insert_from(&w, 0);
        assert(self@ =~= old(self)@.insert(word@));
    }

    /// A bare node holds no word.
    proof fn lemma_bare_empty(&self, u: Seq<char>)
        requires
            self.bare(),
        ensures
            !self.has(u),
    {
    }

    /// Removes `w[i..]` from below this node, pruning children left bare; returns
    /// whether this node is left bare itself.
    fn delete_from(&mut self, w: &Vec<char>, i: usize) -> (r: bool)
        requires
            old(self).wf(),
            i <= w@.len(),
        ensures
            final(self).wf(),
            final(self).current == old(self).current,
            forall|u: Seq<char>| #[trigger] final(self).has(u) == (old(self).has(u) && u != w@.skip(i as int)),
            r == final(self).bare(),
        decreases w@.len() - i,
    {
        let ghost u0 = w@.skip(i as int);
        let ghost before = *self;
        if i == w.len() {
            self.is_end = false;
            assert forall|u: Seq<char>| #[trigger] self.has(u) == (before.has(u) && u != u0) by {
                if u.len() == 0 {
                    assert(u =~= u0);
                } else {
                    assert(u != u0);
                    assert(self.children@ == before.children@);
                }
            }
            return self.children.len() == 0;
        }
        assert(u0.drop_first() =~= w@.skip(i + 1));
        let c = w[i];
        assert(u0.len() > 0 && u0[0] == c);
        match self.find_child(c) {
            None => {
                assert forall|u: Seq<char>| #[trigger] self.has(u) == (before.has(u) && u != u0) by {
                    if u == u0 && before.has(u) {
                        let a = choose|a: int|
                            0 <= a < before.children@.len() && before.children@[a].current == u[0]
                                && (#[trigger] before.children@[a]).has(u.drop_first());
                    }
                }
                !self.is_end && self.children.len() == 0
            },
            Some(j) => {
                let prune = self.children[j].delete_from(w, i + 1);
                let ghost mid = *self;
                assert forall|a: int| 0 <= a < self.children@.len() && a != j implies
                    self.children@[a] == before.children@[a] by {}
                assert forall|u: Seq<char>| #[trigger] mid.has(u) == (before.has(u) && u != u0) by {
                    if u.len() > 0 {
                        if u[0] == c {
                            mid.lemma_has_via(u, j as int);
                            before.lemma_has_via(u, j as int);
                            if u.drop_first() == u0.drop_first() {
                                lemma_same_head_tail(u, u0);
                            }
                        } else {
                            assert(u != u0);
                            if mid.has(u) {
                                let a = choose|a: int|
                                    0 <= a < mid.children@.len() && mid.children@[a].current == u[0]
                                        && (#[trigger] mid.children@[a]).has(u.drop_first());
                                assert(before.children@[a] == mid.children@[a]);
                            }
                            if before.has(u) {
                                let a = choose|a: int|
                                    0 <= a < before.children@.len() && before.children@[a].current == u[0]
                                        && (#[trigger] before.children@[a]).has(u.drop_first());
                                assert(before.children@[a] == mid.children@[a]);
                            }
                        }
                    } else {
                        assert(u != u0);
                    }
                }
                if prune {
                    let _ = self.children.remove(j);
                    let ghost gone = mid.children@[j as int];
                    assert forall|a: int| 0 <= a < self.children@.len() implies
                        self.children@[a] == mid.children@[if a < j { a } else { a + 1 }] by {}
                    assert forall|a: int, b: int|
                        0 <= a < self.children@.len() && 0 <= b < self.children@.len() && a != b
                            implies #[trigger] self.children@[a].current != #[trigger] self.children@[b].current by {
                        let oa = if a < j { a } else { a + 1 };
                        let ob = if b < j { b } else { b + 1 };
                        assert(mid.children@[oa].current != mid.children@[ob].current);
                    }
                    assert forall|a: int| 0 <= a < self.children@.len() implies (#[trigger] self.children@[a]).wf() by {
                        let oa = if a < j { a } else { a + 1 };
                        assert(mid.children@[oa].wf());
                    }
                    assert forall|u: Seq<char>| #[trigger] self.has(u) == mid.has(u) by {
                        if u.len() > 0 {
                            if self.has(u) {
                                let a = choose|a: int|
                                    0 <= a < self.children@.len() && self.children@[a].current == u[0]
                                        && (#[trigger] self.children@[a]).has(u.drop_first());
                                let oa = if a < j { a } else { a + 1 };
                                assert(mid.children@[oa] == self.children@[a]);
                            }
                            if mid.has(u) {
                                let a = choose|a: int|
                                    0 <= a < mid.children@.len() && mid.children@[a].current == u[0]
                                        && (#[trigger] mid.children@[a]).has(u.drop_first());
                                if a == j {
                                    gone.lemma_bare_empty(u.drop_first());
                                } else {
                                    let na = if a < j { a } else { a - 1 };
                                    assert(self.children@[na] == mid.children@[a]);
                                }
                            }
                        }
                    }
                }
                !self.is_end && self.children.len() == 0
            },
        }
    }

    /// Removes the word `word[index..]` from below `node`, dropping the branches that
    /// no longer lead to a word; returns whether `node` itself is left without words
    /// and children.
    pub fn delete_helper(node: &mut TrieNode, word: &str, index: usize) -> (r: bool)
        requires
            old(node).wf(),
            index <= word@.len(),
        ensures
            final(node).wf(),
            final(node).label() == old(node).label(),
            final(node)@ == old(node)@.remove(word@.skip(index as int)),
            r == final(node).bare(),
    {
        let w = chars_of(word);
        let r = node.delete_from(&w, index);
        assert(node@ =~= old(node)@.remove(word@.skip(index as int)));
        r
    }

    /// Removes `word`.
    pub fn delete(&mut self, word: &str)
        requires
            old(self).wf(),
        ensures
            final(self).wf(),
            final(self).label() == old(self).label(),
            final(self)@ == old(self)@.remove(word@),
    {
        let _ = Self::delete_helper(self, word, 0);
        assert(word@.skip(0) =~= word@);
    }
}

} // verus!
