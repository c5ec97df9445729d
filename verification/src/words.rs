//! The dictionary trie: a prefix tree over the uppercase letters.  Walking a
//! word letter by letter answers, in constant time per letter, whether the
//! prefix continues toward a word and whether it is itself a complete word.

use vstd::prelude::*;

verus! {

/// One node of the trie: an owned child slot per letter, and whether the
/// letters spelled on the way to this node form a complete word.
pub struct Node {
    pub children: Vec<Option<Box<Node>>>,
    pub is_end: bool,
}

impl Node {
    /// Every node carries exactly one child slot per letter of the alphabet.
    pub open spec fn wf(self) -> bool
        decreases self,
    {
        &&& self.children@.len() == 26
        &&& forall|i: int|
            0 <= i < 26 ==> match #[trigger] self.children@[i] {
                Some(ch) => ch.wf(),
                None => true,
            }
    }

    /// The child reached by letter `c`, if any.
    pub open spec fn spec_child(self, c: char) -> Option<Node> {
        if 'A' <= c && c <= 'Z' {
            match self.children@[c as int - 65] {
                Some(ch) => Some(*ch),
                None => None,
            }
        } else {
            None
        }
    }

    /// The node reached from `self` by following the letters of `w`.
    pub open spec fn walk(self, w: Seq<char>) -> Option<Node>
        decreases w.len(),
    {
        if w.len() == 0 {
            Some(self)
        } else {
            match self.spec_child(w[0]) {
                Some(ch) => ch.walk(w.drop_first()),
                None => None,
            }
        }
    }

    /// Whether `w` is a word of the dictionary rooted at `self`.
    pub open spec fn contains_word(self, w: Seq<char>) -> bool {
        match self.walk(w) {
            Some(n) => n.is_end,
            None => false,
        }
    }

    /// A fresh node: no children, not a word end.  It accepts no word at all.
    pub fn new() -> (r: Node)
        ensures
            r.wf(),
            !r.is_end,
            forall|i: int| 0 <= i < 26 ==> #[trigger] r.children@[i] is None,
            forall|w: Seq<char>| !r.contains_word(w),
    {
        let mut children: Vec<Option<Box<Node>>> = Vec::new();
        while children.len() < 26
            invariant
                children@.len() <= 26,
                forall|i: int| 0 <= i < children@.len() ==> #[trigger] children@[i] is None,
            decreases 26 - children@.len(),
        {
            children.push(None);
        }
        let r = Node { children, is_end: false };
        proof {
            assert forall|w: Seq<char>| !r.contains_word(w) by {
                if w.len() > 0 {
                    assert(r.spec_child(w[0]) is None);
                }
            }
        }
        r
    }

    /// Looks up the child for `c`; `None` when `c` is not an uppercase letter
    /// or no word continues this way.
    pub fn get(&self, c: char) -> (r: Option<&Node>)
        requires
            self.wf(),
        ensures
            match r {
                Some(ch) => self.spec_child(c) == Some(*ch) && ch.wf(),
                None => self.spec_child(c) is None,
            },
    {
        if 'A' <= c && c <= 'Z' {
            let idx = (c as usize) - 65;
            match &self.children[idx] {
                Some(b) => Some(&**b),
                None => None,
            }
        } else {
            None
        }
    }

    /// Whether the letters leading to this node form a complete word.
    pub fn is_end(&self) -> (r: bool)
        ensures
            r == self.is_end,
    {
        self.is_end
    }

    /// Inserts `word` (uppercase letters) into the trie: afterwards the trie
    /// accepts exactly the words it accepted before, plus `word`.
    pub fn add_word(&mut self, word: &Vec<char>)
        requires
            old(self).wf(),
            forall|k: int| 0 <= k < word@.len() ==> 'A' <= #[trigger] word@[k] && word@[k] <= 'Z',
        ensures
            final(self).wf(),
            forall|w: Seq<char>|
                final(self).contains_word(w) <==> (old(self).contains_word(w) || w == word@),
    {
        self.add_word_from(word, 0);
        proof {
            assert(word@.skip(0) =~= word@);
        }
    }

    fn add_word_from(&mut self, word: &Vec<char>, i: usize)
        requires
            old(self).wf(),
            i <= word@.len(),
            forall|k: int| 0 <= k < word@.len() ==> 'A' <= #[trigger] word@[k] && word@[k] <= 'Z',
        ensures
            final(self).wf(),
            final(self).is_end == (old(self).is_end || i == word@.len()),
            forall|w: Seq<char>|
                final(self).contains_word(w) <==> (old(self).contains_word(w) || w == word@.skip(
                    i as int,
                )),
        decreases word@.len() - i,
    {
        if i == word.len() {
            self.is_end = true;
            proof {
                let new = *self;
                let prev = *old(self);
                assert(word@.skip(i as int) =~= Seq::<char>::empty());
                assert forall|w: Seq<char>|
                    new.contains_word(w) <==> (prev.contains_word(w) || w == word@.skip(
                        i as int,
                    )) by {
                    if w.len() == 0 {
                        assert(w =~= Seq::<char>::empty());
                    } else {
                        assert(new.spec_child(w[0]) == prev.spec_child(w[0]));
                        assert(w != word@.skip(i as int));
                    }
                }
            }
        } else {
            let c = word[i];
            let idx = (c as usize) - 65;
            let ghost prev = *old(self);
            let ghost had_child = prev.children@[idx as int] is Some;
            if self.children[idx].is_none() {
                let fresh = Node::new();
                proof {
                    assert(forall|w: Seq<char>| !fresh.contains_word(w));
                }
                self.children.set(idx, Some(Box::new(fresh)));
            }
            let ghost child_before: Node = match self.children@[idx as int] {
                Some(b) => *b,
                None => prev,
            };
            proof {
                assert(self.children@[idx as int] is Some);
                if had_child {
                    assert(child_before == match prev.children@[idx as int] {
                        Some(b) => *b,
                        None => prev,
                    });
                }
                assert(child_before.wf());
            }
            match &mut self.children[idx] {
                Some(b) => {
                    b.add_word_from(word, i + 1);
                },
                None => {
                    proof {
                        assert(false);
                    }
                },
            }
            proof {
                let new = *self;
                let child_after = match new.children@[idx as int] {
                    Some(b) => *b,
                    None => prev,
                };
                assert(new.children@[idx as int] is Some);
                assert(child_after.wf());
                assert(forall|w: Seq<char>|
                    child_after.contains_word(w) <==> (child_before.contains_word(w) || w
                        == word@.skip(i + 1)));
                assert(new.wf()) by {
                    assert forall|j: int|
                        0 <= j < 26 implies match #[trigger] new.children@[j] {
                        Some(ch) => ch.wf(),
                        None => true,
                    } by {
                        if j != idx {
                            assert(new.children@[j] == prev.children@[j]);
                        }
                    }
                }
                assert forall|w: Seq<char>|
                    new.contains_word(w) <==> (prev.contains_word(w) || w == word@.skip(
                        i as int,
                    )) by {
                    lemma_skip_head(word@, i as int);
                    if w.len() == 0 {
                        assert(w != word@.skip(i as int));
                    } else if w[0] != c {
                        assert(new.spec_child(w[0]) == prev.spec_child(w[0]));
                        assert(w != word@.skip(i as int)) by {
                            assert(word@.skip(i as int)[0] == c);
                        }
                    } else {
                        assert(new.spec_child(c) == Some(child_after));
                        assert(new.contains_word(w) == child_after.contains_word(w.drop_first()));
                        if had_child {
                            assert(prev.spec_child(c) == Some(child_before));
                            assert(prev.contains_word(w) == child_before.contains_word(
                                w.drop_first(),
                            ));
                        } else {
                            assert(prev.spec_child(c) is None);
                            assert(!prev.contains_word(w));
                            assert(!child_before.contains_word(w.drop_first())) by {
                                if w.drop_first().len() > 0 {
                                    assert(child_before.spec_child(w.drop_first()[0]) is None);
                                }
                            }
                        }
                        assert((w == word@.skip(i as int)) <==> (w.drop_first() == word@.skip(
                            i + 1,
                        ))) by {
                            if w.drop_first() == word@.skip(i + 1) {
                                assert forall|j: int|
                                    0 <= j < w.len() implies w[j] == word@.skip(i as int)[j] by {
                                    if j > 0 {
                                        assert(w[j] == w.drop_first()[j - 1]);
                                    }
                                }
                                assert(w =~= word@.skip(i as int));
                            }
                            if w == word@.skip(i as int) {
                                assert(w.drop_first() =~= word@.skip(i + 1));
                            }
                        }
                    }
                }
            }
        }
    }
}

/// Walking one letter past `w` goes to the child of the node `w` reaches.
pub proof fn lemma_walk_push(root: Node, w: Seq<char>, c: char)
    ensures
        root.walk(w.push(c)) == (match root.walk(w) {
            Some(n) => n.spec_child(c),
            None => None::<Node>,
        }),
    decreases w.len(),
{
    let ext = w.push(c);
    if w.len() == 0 {
        assert(ext[0] == c);
        assert(ext.drop_first() =~= Seq::<char>::empty());
        match root.spec_child(c) {
            Some(ch) => {
                assert(root.walk(ext) == ch.walk(ext.drop_first()));
            },
            None => {},
        }
    } else {
        assert(ext[0] == w[0]);
        assert(ext.drop_first() =~= w.drop_first().push(c));
        match root.spec_child(w[0]) {
            Some(ch) => {
                lemma_walk_push(ch, w.drop_first(), c);
            },
            None => {},
        }
    }
}

/// A word the trie can walk has every prefix walkable too.
pub proof fn lemma_walk_prefix(root: Node, w: Seq<char>, m: int)
    requires
        0 <= m <= w.len(),
        root.walk(w) is Some,
    ensures
        root.walk(w.take(m)) is Some,
    decreases w.len() - m,
{
    if m == w.len() {
        assert(w.take(m) =~= w);
    } else {
        lemma_walk_prefix(root, w, m + 1);
        assert(w.take(m + 1) =~= w.take(m).push(w[m]));
        lemma_walk_push(root, w.take(m), w[m]);
    }
}

/// Skipping `i` letters of a word leaves its `i`-th letter in front.
proof fn lemma_skip_head(w: Seq<char>, i: int)
    requires
        0 <= i < w.len(),
    ensures
        w.skip(i).len() == w.len() - i,
        w.skip(i)[0] == w[i],
        w.skip(i).drop_first() =~= w.skip(i + 1),
{
}

} // verus!
