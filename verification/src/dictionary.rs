//! The dictionary: a prefix tree over lowercase words that is built once and
//! then walked letter by letter.

use vstd::prelude::*;

verus! {

/// The number of letters, and of child slots in a node.
pub const ALPHABET: usize = 26;

/// The byte of the letter `a`.
pub const FIRST_LETTER: u8 = 97;

/// The byte of the letter `z`.
pub const LAST_LETTER: u8 = 122;

/// `c` is a lowercase ASCII letter.
pub open spec fn is_letter(c: u8) -> bool {
    FIRST_LETTER <= c <= LAST_LETTER
}

/// `word` consists of lowercase ASCII letters only.
pub open spec fn is_lowercase(word: Seq<u8>) -> bool {
    forall|i: int| 0 <= i < word.len() ==> is_letter(#[trigger] word[i])
}

/// One prefix of the dictionary.
pub struct Node {
    /// Whether the prefix is itself a word.
    is_word: bool,
    /// The number of words that begin with the prefix, the prefix included.
    n_children: u32,
    children: Vec<Option<Box<Node>>>,
}

impl Node {
    /// The node of the prefix extended by the letter `c`, if some word
    /// continues that way.
    pub closed spec fn child(&self, c: u8) -> Option<Node> {
        if is_letter(c) && self.children@.len() == ALPHABET {
            match self.children@[c - FIRST_LETTER] {
                Some(node) => Some(*node),
                None => None,
            }
        } else {
            None
        }
    }

    /// Whether the prefix of this node is itself a word.
    pub closed spec fn accepts(&self) -> bool {
        self.is_word
    }

    /// The number of words in the first `k` subtrees.
    spec fn count_upto(&self, k: nat) -> nat
        decreases self, k,
    {
        if k == 0 || k > self.children@.len() {
            0
        } else {
            self.count_upto((k - 1) as nat) + match self.children@[k - 1] {
                Some(node) => node.word_count(),
                None => 0,
            }
        }
    }

    /// The number of words at and below this node.
    pub closed spec fn word_count(&self) -> nat
        decreases self, ALPHABET + 1,
    {
        (if self.is_word {
            1nat
        } else {
            0nat
        }) + self.count_upto(ALPHABET as nat)
    }

    /// Every node has one slot per letter and counts its words rightly, and
    /// below every child there is a word.
    pub closed spec fn wf(&self) -> bool
        decreases self,
    {
        &&& self.children@.len() == ALPHABET
        &&& self.n_children == self.word_count()
        &&& forall|i: int|
            0 <= i < ALPHABET ==> (#[trigger] self.children@[i] matches Some(node) ==> node.wf()
                && node.word_count() > 0)
    }

    /// The node reached by reading `prefix` letter by letter.
    pub open spec fn descend(&self, prefix: Seq<u8>) -> Option<Node>
        decreases prefix.len(),
    {
        if prefix.len() == 0 {
            Some(*self)
        } else {
            match self.child(prefix[0]) {
                Some(node) => node.descend(prefix.drop_first()),
                None => None,
            }
        }
    }

    /// Whether reading `word` from this node ends at a node that is a word.
    pub open spec fn contains(&self, word: Seq<u8>) -> bool
        decreases word.len(),
    {
        if word.len() == 0 {
            self.accepts()
        } else {
            match self.child(word[0]) {
                Some(node) => node.contains(word.drop_first()),
                None => false,
            }
        }
    }

    /// A word is contained exactly if reading it ends at a word node.
    pub proof fn lemma_contains_descends(&self, word: Seq<u8>)
        ensures
            self.contains(word) == (self.descend(word) matches Some(node) && node.accepts()),
        decreases word.len(),
    {
        if word.len() > 0 {
            if let Some(node) = self.child(word[0]) {
                node.lemma_contains_descends(word.drop_first());
            }
        }
    }

    /// Only lowercase words are contained.
    pub proof fn lemma_contains_lowercase(&self, word: Seq<u8>)
        requires
            self.contains(word),
        ensures
            is_lowercase(word),
        decreases word.len(),
    {
        if word.len() > 0 {
            let node = self.child(word[0])->0;
            node.lemma_contains_lowercase(word.drop_first());
            assert forall|i: int| 0 <= i < word.len() implies is_letter(#[trigger] word[i]) by {
                if i > 0 {
                    assert(word[i] == word.drop_first()[i - 1]);
                }
            }
        }
    }

    /// The words that this node contains: the ways in which the prefix of
    /// the node goes on to a word of the dictionary.
    pub open spec fn words(&self) -> Set<Seq<u8>> {
        Set::new(|w: Seq<u8>| self.contains(w))
    }

    /// Reading `prefix` and then `rest` from this node ends at a word exactly
    /// if `prefix` leads to a node and `rest`, read from there, ends at a
    /// word.
    pub proof fn lemma_descend_contains(&self, prefix: Seq<u8>, rest: Seq<u8>)
        ensures
            self.contains(prefix + rest) == (self.descend(prefix) matches Some(node)
                && node.contains(rest)),
        decreases prefix.len(),
    {
        if prefix.len() == 0 {
            assert(prefix + rest =~= rest);
        } else {
            assert((prefix + rest)[0] == prefix[0]);
            assert((prefix + rest).drop_first() =~= prefix.drop_first() + rest);
            if let Some(node) = self.child(prefix[0]) {
                node.lemma_descend_contains(prefix.drop_first(), rest);
            }
        }
    }

    /// A node that a prefix leads to is well-formed, and a node that a prefix
    /// of at least one letter leads to has a word at or below it.
    pub proof fn lemma_descend_wf(&self, prefix: Seq<u8>)
        requires
            self.wf(),
        ensures
            self.descend(prefix) matches Some(node) ==> {
                &&& node.wf()
                &&& prefix.len() > 0 ==> node.word_count() > 0 && exists|rest: Seq<u8>|
                    node.contains(rest)
            },
        decreases prefix.len(),
    {
        if prefix.len() > 0 {
            if let Some(next) = self.child(prefix[0]) {
                assert(self.children@[prefix[0] - FIRST_LETTER] matches Some(node) ==> node.wf()
                    && node.word_count() > 0);
                if prefix.len() == 1 {
                    assert(prefix.drop_first().len() == 0);
                    let rest = next.lemma_counted_word();
                } else {
                    next.lemma_descend_wf(prefix.drop_first());
                }
            }
        }
    }

    /// The ways in which `prefix`, read from this node, goes on to a word.
    pub open spec fn continuations(&self, prefix: Seq<u8>) -> Set<Seq<u8>> {
        Set::new(|rest: Seq<u8>| self.contains(prefix + rest))
    }

    /// A prefix leads to a node exactly if it is empty or some word begins
    /// with it, and the words of that node are the ways in which the prefix
    /// goes on to a word.
    pub proof fn lemma_descend_words(&self, prefix: Seq<u8>)
        requires
            self.wf(),
        ensures
            self.descend(prefix) is Some == (prefix.len() == 0 || exists|rest: Seq<u8>|
                self.contains(#[trigger] (prefix + rest))),
            self.descend(prefix) matches Some(node) ==> node.wf() && node.words()
                == self.continuations(prefix),
    {
        self.lemma_descend_wf(prefix);
        assert forall|rest: Seq<u8>|
            self.contains(#[trigger] (prefix + rest)) == (self.descend(prefix) matches Some(node)
                && node.contains(rest)) by {
            self.lemma_descend_contains(prefix, rest);
        }
        if let Some(node) = self.descend(prefix) {
            assert(node.words() =~= self.continuations(prefix));
            if prefix.len() > 0 {
                let rest = choose|rest: Seq<u8>| node.contains(rest);
                assert(self.contains(prefix + rest));
            }
        }
    }

    /// The words that begin with one of the first `k` letters.
    spec fn words_upto(&self, k: nat) -> Set<Seq<u8>> {
        Set::new(|w: Seq<u8>| w.len() > 0 && self.contains(w) && w[0] - FIRST_LETTER < k)
    }

    /// The words that begin with letter number `i`.
    spec fn slot_words(&self, i: int) -> Set<Seq<u8>> {
        Set::new(|w: Seq<u8>| w.len() > 0 && self.contains(w) && w[0] - FIRST_LETTER == i)
    }

    /// There are as many words that begin with one of the first `k` letters
    /// as the first `k` subtrees count.
    proof fn lemma_words_upto(&self, k: nat)
        requires
            self.wf(),
            k <= ALPHABET,
        ensures
            self.words_upto(k).finite(),
            self.words_upto(k).len() == self.count_upto(k),
        decreases self, k,
    {
        if k == 0 {
            assert(self.words_upto(0) =~= Set::empty());
        } else {
            let i = k - 1;
            self.lemma_words_upto(i as nat);
            let below = self.words_upto(i as nat);
            let here = self.slot_words(i);
            let letter = (i + FIRST_LETTER) as u8;
            assert(self.children@[i] matches Some(node) ==> node.wf());
            match self.children@[i] {
                Some(node) => {
                    assert(self.child(letter) == Some(*node));
                    node.lemma_word_count_is_cardinality();
                    let prepend = |w: Seq<u8>| seq![letter] + w;
                    assert forall|a: Seq<u8>, b: Seq<u8>|
                        node.words().contains(a) && node.words().contains(b) && #[trigger] prepend(
                            a,
                        ) == #[trigger] prepend(b) implies a == b by {
                        assert(prepend(a).drop_first() =~= a);
                        assert(prepend(b).drop_first() =~= b);
                    }
                    assert(vstd::relations::injective_on(prepend, node.words()));
                    assert forall|w: Seq<u8>| here.contains(w) == node.words().map(
                        prepend,
                    ).contains(w) by {
                        if here.contains(w) {
                            assert(node.contains(w.drop_first()));
                            assert(prepend(w.drop_first()) =~= w);
                            assert(node.words().contains(w.drop_first()));
                        }
                        if node.words().map(prepend).contains(w) {
                            let a = choose|a: Seq<u8>| node.words().contains(a) && prepend(a) == w;
                            assert(w.drop_first() =~= a);
                        }
                    }
                    assert(here =~= node.words().map(prepend));
                    vstd::set_lib::lemma_map_size(node.words(), here, prepend);
                },
                None => {
                    assert(self.child(letter) is None);
                    assert forall|w: Seq<u8>| !here.contains(w) by {
                        if w.len() > 0 && self.contains(w) {
                            assert(self.child(w[0]) is Some);
                        }
                    }
                    assert(here =~= Set::empty());
                },
            }
            assert(self.words_upto(k) =~= below + here) by {
                assert forall|w: Seq<u8>| self.words_upto(k).contains(w) == (below + here).contains(
                    w,
                ) by {
                    if w.len() > 0 && self.contains(w) {
                        assert(self.child(w[0]) is Some);
                    }
                }
            }
            assert(below.disjoint(here));
            vstd::set_lib::lemma_set_disjoint_lens(below, here);
        }
    }

    /// A node counts the words that it contains.
    pub proof fn lemma_word_count_is_cardinality(&self)
        requires
            self.wf(),
        ensures
            self.words().finite(),
            self.words().len() == self.word_count(),
        decreases self, ALPHABET + 1,
    {
        self.lemma_words_upto(ALPHABET as nat);
        let longer = self.words_upto(ALPHABET as nat);
        let none = Seq::<u8>::empty();
        assert forall|w: Seq<u8>| self.words().contains(w) == (if w.len() == 0 {
            self.accepts()
        } else {
            longer.contains(w)
        }) by {
            if w.len() > 0 && self.contains(w) {
                assert(self.child(w[0]) is Some);
            }
        }
        if self.accepts() {
            assert forall|w: Seq<u8>| self.words().contains(w) == longer.insert(none).contains(
                w,
            ) by {
                if w.len() == 0 {
                    assert(w =~= none);
                }
            }
            assert(self.words() =~= longer.insert(none));
        } else {
            assert(self.words() =~= longer);
        }
    }

    /// A node that counts a word holds one.
    proof fn lemma_counted_word(&self) -> (word: Seq<u8>)
        requires
            self.wf(),
            self.word_count() > 0,
        ensures
            self.contains(word),
        decreases self,
    {
        if self.is_word {
            Seq::empty()
        } else {
            let i = self.lemma_counted_slot(ALPHABET as nat);
            let node = self.children@[i]->0;
            assert(self.children@[i] matches Some(node) ==> node.wf());
            let rest = node.lemma_counted_word();
            let letter = (i + FIRST_LETTER) as u8;
            let word = seq![letter] + rest;
            assert(self.child(letter) == Some(*node));
            assert(word.drop_first() == rest);
            word
        }
    }

    /// Where the first `k` subtrees count a word, one of them does.
    proof fn lemma_counted_slot(&self, k: nat) -> (i: int)
        requires
            self.children@.len() == ALPHABET,
            k <= ALPHABET,
            self.count_upto(k) > 0,
        ensures
            0 <= i < k,
            self.slot_count(i) > 0,
        decreases k,
    {
        if self.slot_count(k - 1) > 0 {
            k - 1
        } else {
            self.lemma_counted_slot((k - 1) as nat)
        }
    }

    /// A node has a child for a letter exactly if some word continues with
    /// that letter.
    pub proof fn lemma_child_iff_continues(&self, c: u8)
        requires
            self.wf(),
        ensures
            self.child(c) is Some == exists|rest: Seq<u8>| self.contains(#[trigger] (seq![c] + rest)),
    {
        if let Some(node) = self.child(c) {
            assert(self.children@[c - FIRST_LETTER] matches Some(node) ==> node.wf()
                && node.word_count() > 0);
            let rest = node.lemma_counted_word();
            assert((seq![c] + rest).drop_first() == rest);
            assert(self.contains(seq![c] + rest));
        }
        if exists|rest: Seq<u8>| self.contains(#[trigger] (seq![c] + rest)) {
            let rest = choose|rest: Seq<u8>| self.contains(#[trigger] (seq![c] + rest));
            assert((seq![c] + rest)[0] == c);
        }
    }

    /// The node of the empty prefix of an empty dictionary.
    pub fn new() -> (node: Node)
        ensures
            node.wf(),
            !node.accepts(),
            node.word_count() == 0,
            forall|c: u8| node.child(c) is None,
            forall|word: Seq<u8>| !node.contains(word),
    {
        let mut children: Vec<Option<Box<Node>>> = Vec::new();
        let mut i: usize = 0;
        while i < ALPHABET
            invariant
                i <= ALPHABET,
                children@.len() == i,
                forall|k: int| 0 <= k < i ==> children@[k] is None,
            decreases ALPHABET - i,
        {
            children.push(None);
            i += 1;
        }
        let node = Node { is_word: false, n_children: 0, children };
        proof {
            node.lemma_count_of_empty(ALPHABET as nat);
        }
        node
    }

    /// A node without children counts no word below it.
    proof fn lemma_count_of_empty(&self, k: nat)
        requires
            forall|i: int| 0 <= i < self.children@.len() ==> self.children@[i] is None,
        ensures
            self.count_upto(k) == 0,
        decreases k,
    {
        if k > 0 {
            self.lemma_count_of_empty((k - 1) as nat);
        }
    }

    /// Adds `word` to the words below this node. A word with a byte that is
    /// no lowercase letter is rejected, and the dictionary stays as it was.
    pub fn add(&mut self, word: &[u8]) -> (accepted: bool)
        requires
            old(self).wf(),
            old(self).word_count() < u32::MAX,
        ensures
            final(self).wf(),
            accepted == is_lowercase(word@),
            forall|w: Seq<u8>|
                final(self).contains(w) == (old(self).contains(w) || (accepted && w == word@)),
            final(self).word_count() == old(self).word_count() + (if accepted && !old(
                self,
            ).contains(word@) {
                1nat
            } else {
                0nat
            }),
    {
        if !all_letters(word) {
            return false;
        }
        assert(word@.subrange(0, word@.len() as int) == word@);
        self.insert(word, 0);
        true
    }

    /// Adds the part of `word` from position `from` on, and says whether it
    /// was new.
    fn insert(&mut self, word: &[u8], from: usize) -> (fresh: bool)
        requires
            old(self).wf(),
            old(self).word_count() < u32::MAX,
            from <= word@.len(),
            is_lowercase(word@),
        ensures
            final(self).wf(),
            fresh == !old(self).contains(word@.subrange(from as int, word@.len() as int)),
            forall|w: Seq<u8>|
                final(self).contains(w) == (old(self).contains(w) || w == word@.subrange(
                    from as int,
                    word@.len() as int,
                )),
            final(self).word_count() == old(self).word_count() + (if fresh {
                1nat
            } else {
                0nat
            }),
        decreases word@.len() - from,
    {
        let ghost suffix = word@.subrange(from as int, word@.len() as int);
        let fresh;
        if from == word.len() {
            fresh = !self.is_word;
            self.is_word = true;
            proof {
                old(self).lemma_count_replace(*self, 0, ALPHABET as nat);
                assert forall|w: Seq<u8>| self.contains(w) == (old(self).contains(w) || w
                    == suffix) by {
                    if w.len() == 0 {
                        assert(w =~= suffix);
                    }
                }
            }
        } else {
            let letter = word[from];
            let index = (letter - FIRST_LETTER) as usize;
            if self.children[index].is_none() {
                self.children[index] = Some(Box::new(Node::new()));
            }
            let ghost mid = *self;
            proof {
                old(self).lemma_count_replace(mid, index as int, ALPHABET as nat);
                mid.lemma_slot_le_count(index as int, ALPHABET as nat);
                assert(mid.children@[index as int] matches Some(node) ==> node.wf());
                assert(old(self).children@[index as int] matches Some(node) ==> node.wf()
                    && node.word_count() > 0);
            }
            fresh = match &mut self.children[index] {
                Some(child) => child.insert(word, from + 1),
                None => false,
            };
            proof {
                mid.lemma_count_replace(*self, index as int, ALPHABET as nat);
                let before = mid.child(letter)->0;
                let after = self.child(letter)->0;
                assert(suffix.drop_first() == word@.subrange(from + 1, word@.len() as int));
                assert(suffix[0] == letter);
                assert forall|w: Seq<u8>| self.contains(w) == (old(self).contains(w) || w
                    == suffix) by {
                    if w.len() > 0 && w[0] == letter {
                        assert(after.contains(w.drop_first()) == (before.contains(w.drop_first())
                            || w.drop_first() == suffix.drop_first()));
                        assert(w == seq![letter] + w.drop_first());
                        assert(suffix == seq![letter] + suffix.drop_first());
                    } else if w.len() > 0 {
                        assert(self.child(w[0]) == old(self).child(w[0]));
                    }
                }
                assert forall|i: int| 0 <= i < ALPHABET implies (
                #[trigger] self.children@[i] matches Some(node) ==> node.wf() && node.word_count()
                    > 0) by {
                    if i != index {
                        assert(self.children@[i] == old(self).children@[i]);
                    }
                }
            }
        }
        let ghost filled = *self;
        if fresh {
            self.n_children += 1;
        }
        proof {
            filled.lemma_count_replace(*self, 0, ALPHABET as nat);
        }
        fresh
    }

    /// The number of words in the subtree of slot `i`.
    spec fn slot_count(&self, i: int) -> nat {
        match self.children@[i] {
            Some(node) => node.word_count(),
            None => 0,
        }
    }

    /// Two nodes whose subtrees agree but for slot `index` differ in their
    /// counts by what that slot differs.
    proof fn lemma_count_replace(&self, other: Node, index: int, k: nat)
        requires
            self.children@.len() == ALPHABET,
            other.children@.len() == ALPHABET,
            0 <= index < ALPHABET,
            k <= ALPHABET,
            forall|i: int|
                0 <= i < ALPHABET && i != index ==> self.children@[i] == other.children@[i],
        ensures
            other.count_upto(k) + (if index < k {
                self.slot_count(index)
            } else {
                0
            }) == self.count_upto(k) + (if index < k {
                other.slot_count(index)
            } else {
                0
            }),
        decreases k,
    {
        if k > 0 {
            self.lemma_count_replace(other, index, (k - 1) as nat);
        }
    }

    /// The words of one subtree are among the words of all of them.
    proof fn lemma_slot_le_count(&self, index: int, k: nat)
        requires
            self.children@.len() == ALPHABET,
            0 <= index < k <= ALPHABET,
        ensures
            self.slot_count(index) <= self.count_upto(k),
        decreases k,
    {
        if index < k - 1 {
            self.lemma_slot_le_count(index, (k - 1) as nat);
        }
    }

    /// Whether the prefix of this node is itself a word.
    pub fn ends_word(&self) -> (r: bool)
        ensures
            r == self.accepts(),
            r == self.contains(Seq::empty()),
    {
        self.is_word
    }

    /// The number of words that begin with the prefix of this node: the
    /// number of words that the node contains.
    pub fn count(&self) -> (n: u32)
        requires
            self.wf(),
        ensures
            n == self.word_count(),
            n == self.words().len(),
    {
        proof {
            self.lemma_word_count_is_cardinality();
        }
        self.n_children
    }

    /// Whether some word continues the prefix with the letter `c`.
    pub fn valid_next(&self, c: u8) -> (r: bool)
        requires
            self.wf(),
        ensures
            r == self.child(c) is Some,
            r == exists|rest: Seq<u8>| self.contains(#[trigger] (seq![c] + rest)),
    {
        self.get_next(c).is_some()
    }

    /// The node of the prefix extended by the letter `c`. There is one
    /// exactly if some word continues the prefix with `c`.
    pub fn get_next(&self, c: u8) -> (r: Option<&Node>)
        requires
            self.wf(),
        ensures
            match r {
                Some(node) => self.child(c) == Some(*node) && node.wf(),
                None => self.child(c) is None,
            },
            r is Some == exists|rest: Seq<u8>| self.contains(#[trigger] (seq![c] + rest)),
            r matches Some(node) ==> node.words() == self.continuations(seq![c]),
    {
        proof {
            self.lemma_child_iff_continues(c);
            self.lemma_descend_words(seq![c]);
            assert(seq![c][0] == c);
            if let Some(node) = self.child(c) {
                assert(node.descend(seq![c].drop_first()) == Some(node));
            }
        }
        if c < FIRST_LETTER || c > LAST_LETTER {
            return None;
        }
        let index = (c - FIRST_LETTER) as usize;
        match &self.children[index] {
            Some(child) => Some(&**child),
            None => None,
        }
    }

    /// The node reached by reading `prefix` from this node. There is one
    /// exactly if `prefix` is empty or some word begins with it, and its words
    /// are the ways in which `prefix` goes on to a word.
    pub fn get(&self, prefix: &[u8]) -> (r: Option<&Node>)
        requires
            self.wf(),
        ensures
            match r {
                Some(node) => self.descend(prefix@) == Some(*node) && node.wf(),
                None => self.descend(prefix@) is None,
            },
            r is Some == (prefix@.len() == 0 || exists|rest: Seq<u8>|
                self.contains(#[trigger] (prefix@ + rest))),
            r matches Some(node) ==> node.words() == self.continuations(prefix@),
    {
        let mut node: &Node = self;
        let mut i: usize = 0;
        proof {
            self.lemma_descend_words(prefix@);
            assert(prefix@.subrange(0, prefix@.len() as int) == prefix@);
        }
        while i < prefix.len()
            invariant
                i <= prefix@.len(),
                self.wf(),
                node.wf(),
                self.descend(prefix@) == node.descend(prefix@.subrange(i as int, prefix@.len() as int)),
            decreases prefix@.len() - i,
        {
            let ghost rest = prefix@.subrange(i as int, prefix@.len() as int);
            assert(rest.drop_first() == prefix@.subrange(i + 1, prefix@.len() as int));
            match node.get_next(prefix[i]) {
                Some(child) => {
                    node = child;
                },
                None => {
                    proof {
                        self.lemma_descend_words(prefix@);
                    }
                    return None;
                },
            }
            i += 1;
        }
        Some(node)
    }

    /// Whether `word`, read from this node, is a word of the dictionary.
    pub fn is_word(&self, word: &[u8]) -> (r: bool)
        requires
            self.wf(),
        ensures
            r == self.contains(word@),
    {
        proof {
            self.lemma_contains_descends(word@);
        }
        if let Some(n) = self.get(word) {
            n.is_word
        } else {
            false
        }
    }
}

/// The words at the first `upto` positions of a list, each counted once.
pub open spec fn distinct_words(words: Seq<Vec<u8>>, upto: int) -> Set<Seq<u8>>
    decreases upto,
{
    if upto <= 0 {
        Set::empty()
    } else {
        distinct_words(words, upto - 1).insert(words[upto - 1]@)
    }
}

/// Builds the dictionary of the words of a list. A list that holds a word with
/// a byte that is no lowercase letter is rejected.
pub fn from_words(words: &Vec<Vec<u8>>) -> (r: Option<Node>)
    requires
        words@.len() < u32::MAX,
    ensures
        r is Some == forall|i: int| 0 <= i < words@.len() ==> is_lowercase(#[trigger] words@[i]@),
        r matches Some(root) ==> {
            &&& root.wf()
            &&& forall|w: Seq<u8>|
                root.contains(w) == exists|i: int| 0 <= i < words@.len() && #[trigger] words@[i]@ == w
            &&& root.word_count() == distinct_words(words@, words@.len() as int).len()
        },
{
    let mut root = Node::new();
    let mut i: usize = 0;
    while i < words.len()
        invariant
            i <= words@.len() < u32::MAX,
            root.wf(),
            root.word_count() <= i,
            root.word_count() == distinct_words(words@, i as int).len(),
            distinct_words(words@, i as int).finite(),
            forall|k: int| 0 <= k < i ==> is_lowercase(#[trigger] words@[k]@),
            forall|w: Seq<u8>|
                root.contains(w) == exists|k: int| 0 <= k < i && #[trigger] words@[k]@ == w,
            forall|w: Seq<u8>| root.contains(w) == distinct_words(words@, i as int).contains(w),
        decreases words@.len() - i,
    {
        let ghost before = root;
        if !root.add(words[i].as_slice()) {
            return None;
        }
        proof {
            assert(distinct_words(words@, i + 1) == distinct_words(words@, i as int).insert(
                words@[i as int]@,
            ));
            assert forall|w: Seq<u8>|
                root.contains(w) == exists|k: int| 0 <= k < i + 1 && #[trigger] words@[k]@ == w by {
                if before.contains(w) {
                    let k = choose|k: int| 0 <= k < i && #[trigger] words@[k]@ == w;
                    assert(0 <= k < i + 1 && words@[k]@ == w);
                }
                if exists|k: int| 0 <= k < i + 1 && #[trigger] words@[k]@ == w {
                    let k = choose|k: int| 0 <= k < i + 1 && #[trigger] words@[k]@ == w;
                    if k < i {
                        assert(before.contains(w));
                    }
                }
            }
        }
        i += 1;
    }
    Some(root)
}

/// Whether every byte of `word` is a lowercase letter.
fn all_letters(word: &[u8]) -> (r: bool)
    ensures
        r == is_lowercase(word@),
{
    let mut i: usize = 0;
    while i < word.len()
        invariant
            i <= word@.len(),
            forall|k: int| 0 <= k < i ==> is_letter(#[trigger] word@[k]),
        decreases word@.len() - i,
    {
        if word[i] < FIRST_LETTER || word[i] > LAST_LETTER {
            return false;
        }
        i += 1;
    }
    true
}

/// The node of the one-letter prefix `c`. There is one exactly if some word
/// of the dictionary begins with `c`, and its words are the ways in which `c`
/// goes on to a word of the dictionary.
pub fn first_node(root: &Node, c: u8) -> (r: Option<&Node>)
    requires
        root.wf(),
    ensures
        match r {
            Some(node) => root.child(c) == Some(*node) && node.wf(),
            None => root.child(c) is None,
        },
        r is Some == exists|rest: Seq<u8>| root.contains(#[trigger] (seq![c] + rest)),
        r matches Some(node) ==> node.words() == root.continuations(seq![c]),
{
    root.get_next(c)
}

/// The node of the prefix `word`. There is one exactly if `word` is empty or
/// some word of the dictionary begins with it, and its words are the ways in
/// which `word` goes on to a word of the dictionary.
pub fn get_node<'a>(root: &'a Node, word: &[u8]) -> (r: Option<&'a Node>)
    requires
        root.wf(),
    ensures
        match r {
            Some(node) => root.descend(word@) == Some(*node) && node.wf(),
            None => root.descend(word@) is None,
        },
        r is Some == (word@.len() == 0 || exists|rest: Seq<u8>|
            root.contains(#[trigger] (word@ + rest))),
        r matches Some(node) ==> node.words() == root.continuations(word@),
{
    root.get(word)
}

/// Whether `word` is a word of the dictionary rooted at `root`.
pub fn is_word(root: &Node, word: &[u8]) -> (r: bool)
    requires
        root.wf(),
    ensures
        r == root.contains(word@),
{
    root.is_word(word)
}

} // verus!
